//! The formula evaluator and the filling of a sheet's values.

use vstd::prelude::*;
use vstd::string::StringExecFns;
use std::collections::VecDeque;
use crate::error::EvalError;
use crate::numbers::{Answers, Halt, HaltView, Query, Reply, not_failed};
use crate::regex_helpers;
use crate::semantics::{Step, spec_inc_from, spec_split, spec_spread, spec_parse_all, spec_sum, spec_text, spec_bte, spec_concat, spec_call_function, spec_arithmetic, is_operator, spec_curly, Machine,
    spec_column_reference, spec_revaluate, spec_resolve_literal_at, spec_scan, spec_reduce, spec_execute, spec_parse_string,
    letter_run, digit_run, quote_run, lemma_runs_bounded, is_ascii_text,
    spec_fill_column, spec_fill_columns, spec_fill_data, with_value, Filled};
use crate::str_utils::{StrUtils, split_on, views_of};
use crate::table::{Column, ColumnView, TableData, TableDataGetter, ColumnGetter, count_value, ItemView, items_view, number_value, text_value, LiteralValue, LiteralView, Item, text_view, strings_view};
use crate::keys::{sorted_keys, strictly_increasing};
use crate::regex_helpers::{regex_accepts, regex_replaced, row_pattern, try_increase_column_digits, spec_increase_column_digits};
use crate::text::{decimal_string, is_digit, is_letter, is_upper, is_digit_exec, is_letter_exec, is_upper_exec, digit_value, digits_value, parse_digits};
use crate::str_utils::{chars_of, name_run, is_name_char_exec};

verus! {

broadcast use vstd::std_specs::hash::group_hash_axioms;

pub open spec fn lits_view(v: Seq<LiteralValue>) -> Seq<LiteralView> {
    v.map_values(|x: LiteralValue| x@)
}

/// The value that an evaluation step gave, the counter and the replies taken
/// after it, are those that `spec` states.
pub open spec fn step_matches(res: Result<LiteralValue, Halt>, spec: Step, inc: usize, used: nat) -> bool {
    match spec {
        Ok((v, i, p)) => res is Ok && res->Ok_0@ == v && inc == i && used == p,
        Err(h) => res is Err && res->Err_0@ == h,
    }
}

/// A step that takes no reply and leaves the counter alone.
pub open spec fn plain_matches(res: Result<LiteralValue, EvalError>, spec: Step) -> bool {
    match spec {
        Ok((v, _, _)) => res is Ok && res->Ok_0@ == v,
        Err(h) => res is Err && h == HaltView::Failed(res->Err_0),
    }
}

fn text_of(v: &LiteralValue) -> (res: Option<String>)
    ensures
        text_view(res) == v@.text,
{
    match &v.value_as_string {
        Some(s) => Some(s.clone()),
        None => None,
    }
}

fn to_strings(pieces: &Vec<&str>) -> (res: Vec<String>)
    ensures
        strings_view(res@) == views_of(pieces@),
{
    let mut res: Vec<String> = Vec::new();
    let mut i: usize = 0;
    while i < pieces.len()
        invariant
            i <= pieces.len(),
            strings_view(res@) =~= views_of(pieces@.take(i as int)),
        decreases pieces.len() - i,
    {
        let ghost before = res@;
        let s = pieces[i].to_owned();
        res.push(s);
        assert(res@ =~= before.push(s));
        assert(pieces@.take(i + 1) =~= pieces@.take(i as int).push(pieces@[i as int]));
        assert(strings_view(res@) =~= strings_view(before).push(s@));
        i = i + 1;
    }
    assert(pieces@.take(pieces.len() as int) =~= pieces@);
    res
}

/// `incFrom(n)`.
fn inc_from_of(args: &Vec<LiteralValue>, inc_from: &mut usize) -> (res: Result<LiteralValue, EvalError>)
    ensures
        match spec_inc_from(lits_view(args@), *old(inc_from), 0) {
            Ok((v, i, _)) => res is Ok && res->Ok_0@ == v && *final(inc_from) == i,
            Err(h) => res is Err && h == HaltView::Failed(res->Err_0),
        },
{
    if args.len() != 1 {
        return Err(EvalError::WrongArity);
    }
    match args[0].value_as_int {
        None => Err(EvalError::MissingValue),
        Some(i) => {
            if *inc_from > usize::MAX - i {
                return Err(EvalError::Overflow);
            }
            *inc_from = *inc_from + i;
            Ok(Item::conduct_int_literal_value(*inc_from))
        },
    }
}

/// `split(text, sep)`.
fn split_of(args: &Vec<LiteralValue>) -> (res: Result<LiteralValue, EvalError>)
    ensures
        plain_matches(res, spec_split(lits_view(args@), 0, 0)),
{
    if args.len() != 2 {
        return Err(EvalError::WrongArity);
    }
    let from_column = text_of(&args[1]);
    let separator = text_of(&args[0]);
    match (from_column, separator) {
        (Some(from_column), Some(separator)) => {
            if separator.as_str().unicode_len() != 1 || (separator.as_str().get_char(0) as u32) >= 128 {
                return Err(EvalError::BadSeparator);
            }
            let x: char = separator.as_str().at(0);
            let from_str: &str = from_column.as_str();
            let pieces = from_str.split_to_vect(x);
            let array_strs = to_strings(&pieces);
            Ok(LiteralValue {
                value_as_string: None,
                value_as_float: None,
                value_as_int: None,
                value_as_str_array: Some(array_strs),
                value_as_float_array: None,
            })
        },
        _ => Err(EvalError::MissingValue),
    }
}

/// `spread(texts)`.
fn spread_of(args: &Vec<LiteralValue>, answers: &mut Answers) -> (res: Result<LiteralValue, Halt>)
    ensures
        final(answers).replies@ == old(answers).replies@,
        step_matches(res, spec_spread(lits_view(args@), 0, old(answers).replies@, old(answers).used as nat), 0, final(answers).used as nat),
{
    if args.len() != 1 {
        return Err(Halt::Failed(EvalError::WrongArity));
    }
    match &args[0].value_as_str_array {
        None => Err(Halt::Failed(EvalError::MissingValue)),
        Some(arr) => {
            let ghost texts = strings_view(arr@);
            let ghost start = old(answers).used as nat;
            assert(lits_view(args@).len() == 1);
            assert(lits_view(args@)[0] == args@[0]@);
            assert(lits_view(args@)[0].texts == Some(texts));
            let mut values: Vec<u32> = Vec::new();
            let mut i: usize = 0;
            while i < arr.len()
                invariant
                    i <= arr.len(),
                    texts == strings_view(arr@),
                    lits_view(args@).len() == 1,
                    lits_view(args@)[0].texts == Some(texts),
                    start == old(answers).used as nat,
                    answers.replies@ == old(answers).replies@,
                    spec_parse_all(texts, 0, Seq::empty(), answers.replies@, start)
                        == spec_parse_all(texts, i as int, values@, answers.replies@, answers.used as nat),
                decreases arr.len() - i,
            {
                let ghost used_before = answers.used as nat;
                let text = arr[i].clone();
                assert(text@ == texts[i as int]);
                let parsed = answers.parsed(Query::ParseNumber(text));
                match parsed {
                    Err(h) => {
                        assert(spec_parse_all(texts, i as int, values@, answers.replies@, used_before) == Err::<(Seq<u32>, nat), HaltView>(h@));
                        return Err(h);
                    },
                    Ok(None) => {
                        assert(spec_parse_all(texts, i as int, values@, answers.replies@, used_before) == Err::<(Seq<u32>, nat), HaltView>(HaltView::Failed(EvalError::NotANumber)));
                        return Err(Halt::Failed(EvalError::NotANumber));
                    },
                    Ok(Some(x)) => {
                        values.push(x);
                    },
                }
                i = i + 1;
            }
            Ok(LiteralValue {
                value_as_string: None,
                value_as_float: None,
                value_as_int: None,
                value_as_str_array: None,
                value_as_float_array: Some(values),
            })
        },
    }
}

/// `sum(numbers)`.
fn sum_of(args: &Vec<LiteralValue>, answers: &mut Answers) -> (res: Result<LiteralValue, Halt>)
    ensures
        final(answers).replies@ == old(answers).replies@,
        step_matches(res, spec_sum(lits_view(args@), 0, old(answers).replies@, old(answers).used as nat), 0, final(answers).used as nat),
{
    if args.len() != 1 {
        return Err(Halt::Failed(EvalError::WrongArity));
    }
    match &args[0].value_as_float_array {
        None => Err(Halt::Failed(EvalError::MissingValue)),
        Some(v) => {
            let x = answers.number(Query::Sum(crate::table::clone_numbers(v)))?;
            Ok(Item::conduct_float_literal_value(x))
        },
    }
}

/// `text(v)`.
fn text_fn_of(args: &Vec<LiteralValue>) -> (res: Result<LiteralValue, EvalError>)
    ensures
        plain_matches(res, spec_text(lits_view(args@), 0, 0)),
{
    if args.len() != 1 {
        return Err(EvalError::WrongArity);
    }
    match &args[0].value_as_string {
        Some(s) => Ok(Item::conduct_str_literal_value(s.clone())),
        None => match args[0].value_as_int {
            Some(n) => Ok(Item::conduct_str_literal_value(decimal_string(n))),
            None => Err(EvalError::MissingValue),
        },
    }
}

/// `bte(a, b)`.
fn bte_of(args: &Vec<LiteralValue>, answers: &mut Answers) -> (res: Result<LiteralValue, Halt>)
    ensures
        final(answers).replies@ == old(answers).replies@,
        step_matches(res, spec_bte(lits_view(args@), 0, old(answers).replies@, old(answers).used as nat), 0, final(answers).used as nat),
{
    if args.len() != 2 {
        return Err(Halt::Failed(EvalError::WrongArity));
    }
    match (args[1].value_as_float, args[0].value_as_float) {
        (Some(a), Some(b)) => {
            let t = answers.truth(Query::AtLeast(a, b))?;
            let res = if t {
                String::from_str("true")
            } else {
                String::from_str("false")
            };
            Ok(Item::conduct_str_literal_value(res))
        },
        _ => Err(Halt::Failed(EvalError::MissingValue)),
    }
}

/// `concat(a, b)`.
fn concat_of(args: &Vec<LiteralValue>) -> (res: Result<LiteralValue, EvalError>)
    ensures
        plain_matches(res, spec_concat(lits_view(args@), 0, 0)),
{
    if args.len() != 2 {
        return Err(EvalError::WrongArity);
    }
    match (text_of(&args[1]), text_of(&args[0])) {
        (Some(a), Some(b)) => {
            let mut joined = a;
            joined.append(b.as_str());
            Ok(Item::conduct_str_literal_value(joined))
        },
        _ => Err(EvalError::MissingValue),
    }
}

/// Calls the function `name` on `args` (the arguments last first).
fn call_function_of(name: &str, args: Vec<LiteralValue>, inc_from: &mut usize, answers: &mut Answers) -> (res: Result<LiteralValue, Halt>)
    ensures
        final(answers).replies@ == old(answers).replies@,
        step_matches(res, spec_call_function(name@, lits_view(args@), *old(inc_from), old(answers).replies@, old(answers).used as nat), *final(inc_from), final(answers).used as nat),
{
    proof {
        reveal_strlit("incFrom");
        reveal_strlit("split");
        reveal_strlit("spread");
        reveal_strlit("sum");
        reveal_strlit("text");
        reveal_strlit("bte");
        reveal_strlit("concat");
    }
    let ghost l = lits_view(args@);
    if str_eq_lit(name, "incFrom") {
        match inc_from_of(&args, inc_from) {
            Ok(v) => Ok(v),
            Err(e) => Err(Halt::Failed(e)),
        }
    } else if str_eq_lit(name, "split") {
        assert(spec_split(l, *inc_from, answers.used as nat) is Ok <==> spec_split(l, 0, 0) is Ok);
        match split_of(&args) {
            Ok(v) => Ok(v),
            Err(e) => Err(Halt::Failed(e)),
        }
    } else if str_eq_lit(name, "spread") {
        let r = spread_of(&args, answers);
        assert(spec_spread(l, *inc_from, old(answers).replies@, old(answers).used as nat) is Ok <==> spec_spread(l, 0, old(answers).replies@, old(answers).used as nat) is Ok);
        r
    } else if str_eq_lit(name, "sum") {
        sum_of(&args, answers)
    } else if str_eq_lit(name, "text") {
        match text_fn_of(&args) {
            Ok(v) => Ok(v),
            Err(e) => Err(Halt::Failed(e)),
        }
    } else if str_eq_lit(name, "bte") {
        bte_of(&args, answers)
    } else if str_eq_lit(name, "concat") {
        match concat_of(&args) {
            Ok(v) => Ok(v),
            Err(e) => Err(Halt::Failed(e)),
        }
    } else {
        let mut res = String::from_str("[");
        res.append(name);
        res.append("(wtf)]");
        Ok(Item::conduct_str_literal_value(res))
    }
}

/// Whether `a` is the literal `b`.
fn str_eq_lit(a: &str, b: &str) -> (res: bool)
    ensures
        res == (a@ == b@),
{
    crate::table::str_eq(a, b)
}

/// `operator` applied to the numbers `args[0]` and `args[1]`, in that order.
fn evaluate_arithmetic_of(operator: char, args: &Vec<LiteralValue>, answers: &mut Answers) -> (res: Result<LiteralValue, Halt>)
    ensures
        final(answers).replies@ == old(answers).replies@,
        match spec_arithmetic(operator, lits_view(args@), old(answers).replies@, old(answers).used as nat) {
            Ok((v, p)) => res is Ok && res->Ok_0@ == v && final(answers).used == p,
            Err(h) => res is Err && res->Err_0@ == h,
        },
{
    if args.len() != 2 {
        return Err(Halt::Failed(EvalError::WrongArity));
    }
    match (args[0].value_as_float, args[1].value_as_float) {
        (Some(a), Some(b)) => {
            if !(operator == '+' || operator == '-' || operator == '*' || operator == '/') {
                return Err(Halt::Failed(EvalError::UnknownSymbol));
            }
            let c = answers.number(Query::Arithmetic(operator, a, b))?;
            Ok(Item::conduct_float_literal_value(c))
        },
        _ => Err(Halt::Failed(EvalError::MissingValue)),
    }
}

/// The evaluator's stack, after a step, is what `spec` states, and so are the
/// counter and the number of replies taken.
pub open spec fn machine_matches(res: Result<(), Halt>, spec: Machine, stack: Seq<Item>, inc: usize, used: nat) -> bool {
    match spec {
        Ok((st, i, p)) => res is Ok && items_view(stack) == st && inc == i && used == p,
        Err(h) => res is Err && res->Err_0@ == h,
    }
}

pub proof fn lemma_items_view_pop(s: Seq<Item>)
    requires
        s.len() > 0,
    ensures
        items_view(s.subrange(0, s.len() - 1)) == items_view(s).drop_last(),
        items_view(s).last() == s.last()@,
        items_view(s).len() == s.len(),
{
    assert(items_view(s.subrange(0, s.len() - 1)) =~= items_view(s).drop_last());
}

pub proof fn lemma_items_view_push(s: Seq<Item>, x: Item)
    ensures
        items_view(s.push(x)) == items_view(s).push(x@),
{
    assert(items_view(s.push(x)) =~= items_view(s).push(x@));
}

pub proof fn lemma_lits_view_push(s: Seq<LiteralValue>, x: LiteralValue)
    ensures
        lits_view(s.push(x)) == lits_view(s).push(x@),
{
    assert(lits_view(s.push(x)) =~= lits_view(s).push(x@));
}

/// Reduces the stack down to its last `(` (see `semantics`).
fn evaluate_curly_zone_of(stack: &mut VecDeque<Item>, inc_from: &mut usize, answers: &mut Answers) -> (res: Result<(), Halt>)
    ensures
        final(answers).replies@ == old(answers).replies@,
        machine_matches(res, spec_curly(items_view(old(stack)@), Seq::empty(), *old(inc_from), old(answers).replies@, old(answers).used as nat), final(stack)@, *final(inc_from), final(answers).used as nat),
{
    let ghost goal = spec_curly(items_view(old(stack)@), Seq::empty(), *old(inc_from), old(answers).replies@, old(answers).used as nat);
    let mut operands: Vec<LiteralValue> = Vec::new();
    assert(lits_view(operands@) =~= Seq::<LiteralView>::empty());
    loop
        invariant
            answers.replies@ == old(answers).replies@,
            goal == spec_curly(items_view(old(stack)@), Seq::empty(), *old(inc_from), old(answers).replies@, old(answers).used as nat),
            goal == spec_curly(items_view(stack@), lits_view(operands@), *inc_from, answers.replies@, answers.used as nat),
        decreases stack@.len(),
    {
        let ghost st0 = stack@;
        let ghost ops0 = lits_view(operands@);
        let item = match stack.pop_back() {
            Some(it) => it,
            None => {
                return Err(Halt::Failed(EvalError::StackUnderflow));
            },
        };
        proof { lemma_items_view_pop(st0); }
        match item {
            Item::Literal(value) => {
                proof { lemma_lits_view_push(operands@, value); }
                operands.push(value);
            },
            Item::ZoneStart(c) => {
                if c != '(' {
                    return Err(Halt::Failed(EvalError::UnmatchedZone));
                }
                if stack.len() > 0 {
                    let ghost st1 = stack@;
                    let before = stack.pop_back().unwrap();
                    proof { lemma_items_view_pop(st1); }
                    match before {
                        Item::Token(operation) => {
                            let res = call_function_of(operation.as_str(), operands, inc_from, answers);
                            match res {
                                Ok(v) => {
                                    proof { lemma_items_view_push(stack@, Item::Literal(v)); }
                                    stack.push_back(Item::Literal(v));
                                    return Ok(());
                                },
                                Err(h) => {
                                    return Err(h);
                                },
                            }
                        },
                        other => {
                            stack.push_back(other);
                            assert(stack@ =~= st1);
                        },
                    }
                }
                if operands.len() == 1 {
                    let v = operands.pop().unwrap();
                    proof { lemma_items_view_push(stack@, Item::Literal(v)); }
                    stack.push_back(Item::Literal(v));
                    return Ok(());
                } else {
                    return Err(Halt::Failed(EvalError::UnmatchedZone));
                }
            },
            Item::Operator(operator) => {
                let ghost st1 = stack@;
                let left_item = match stack.pop_back() {
                    Some(x) => x,
                    None => {
                        return Err(Halt::Failed(EvalError::StackUnderflow));
                    },
                };
                proof { lemma_items_view_pop(st1); }
                let left = match left_item.try_literal() {
                    Ok(v) => v.clone(),
                    Err(e) => {
                        return Err(Halt::Failed(e));
                    },
                };
                proof { lemma_lits_view_push(operands@, left); }
                operands.push(left);
                let res = evaluate_arithmetic_of(operator, &operands, answers);
                match res {
                    Ok(v) => {
                        operands = Vec::new();
                        assert(lits_view(operands@) =~= Seq::<LiteralView>::empty());
                        proof { lemma_items_view_push(stack@, Item::Literal(v)); }
                        stack.push_back(Item::Literal(v));
                    },
                    Err(h) => {
                        return Err(h);
                    },
                }
            },
            _ => {
                return Err(Halt::Failed(EvalError::InvalidExpression));
            },
        }
    }
}

/// Replaces `@name < i` at the top of the stack by the `i`-th cell of the
/// column `name`.
fn evaluate_column_reference_of(table: &TableData, stack: &mut VecDeque<Item>) -> (res: Result<(), EvalError>)
    ensures
        match spec_column_reference(table@, items_view(old(stack)@)) {
            Ok(st) => res is Ok && items_view(final(stack)@) == st,
            Err(e) => res == Err::<(), EvalError>(e),
        },
{
    let ghost st0 = stack@;
    let column_with_index = match stack.pop_back() {
        Some(x) => x,
        None => {
            return Err(EvalError::StackUnderflow);
        },
    };
    proof { lemma_items_view_pop(st0); }
    let column_index = column_with_index.try_literal_as_number()?;
    let ghost st1 = stack@;
    let start = match stack.pop_back() {
        Some(x) => x,
        None => {
            return Err(EvalError::StackUnderflow);
        },
    };
    proof { lemma_items_view_pop(st1); }
    start.check_start_of('<')?;
    let ghost st2 = stack@;
    let name_item = match stack.pop_back() {
        Some(x) => x,
        None => {
            return Err(EvalError::StackUnderflow);
        },
    };
    proof { lemma_items_view_pop(st2); }
    let column_name = name_item.try_token()?;
    let token: &str = column_name.as_str();
    if token.unicode_len() == 0 || (token.get_char(0) as u32) >= 128 {
        return Err(EvalError::UnexpectedItem);
    }
    let name = token.remove_first_symbol();
    let position = table.position_of(name);
    match position {
        None => Err(EvalError::MissingColumn),
        Some(ci) => {
            proof { crate::table::lemma_name_index_from(table@, name@, 0); }
            assert(table@[ci as int] == table.columns@[ci as int]@);
            match table.columns[ci].find_cell_by_index(column_index) {
                None => Err(EvalError::MissingCell),
                Some(literal) => {
                    proof { lemma_items_view_push(stack@, Item::Literal(literal)); }
                    stack.push_back(Item::Literal(literal));
                    Ok(())
                },
            }
        },
    }
}

/// After a closing item: takes it off the stack and reduces what it closes.
fn revaluate_from_end_zone_of(table: &TableData, stack: &mut VecDeque<Item>, inc_from: &mut usize, answers: &mut Answers) -> (res: Result<(), Halt>)
    ensures
        final(answers).replies@ == old(answers).replies@,
        machine_matches(res, spec_revaluate(table@, items_view(old(stack)@), *old(inc_from), old(answers).replies@, old(answers).used as nat), final(stack)@, *final(inc_from), final(answers).used as nat),
{
    let ghost st0 = stack@;
    let end = match stack.pop_back() {
        Some(x) => x,
        None => {
            return Err(Halt::Failed(EvalError::StackUnderflow));
        },
    };
    proof { lemma_items_view_pop(st0); }
    let end_zone_symbol = match end.try_end_zone_character() {
        Ok(c) => c,
        Err(e) => {
            return Err(Halt::Failed(e));
        },
    };
    if end_zone_symbol == '>' {
        match evaluate_column_reference_of(table, stack) {
            Ok(()) => Ok(()),
            Err(e) => Err(Halt::Failed(e)),
        }
    } else {
        evaluate_curly_zone_of(stack, inc_from, answers)
    }
}

/// The cell reference at position `i` of the formula: its value and length.
fn resolve_literal_at_of(table: &TableData, s: &Vec<char>, i: usize, current_row_number: u32) -> (res: Result<(LiteralValue, usize), EvalError>)
    requires
        i < s@.len(),
    ensures
        match spec_resolve_literal_at(table@, s@, i as int, current_row_number) {
            Ok((v, len)) => res is Ok && res->Ok_0.0@ == v && res->Ok_0.1 == len,
            Err(e) => res == Err::<(LiteralValue, usize), EvalError>(e),
        },
{
    let letter = s[i];
    if s.len() - i <= 1 {
        return Err(EvalError::UnexpectedEnd);
    }
    let next = s[i + 1];
    if is_digit_exec(next) {
        let index: u32 = (next as u32) - 48;
        assert(index == digit_value(next) as u32);
        return match table.find_by_coordinate(letter, &index) {
            Some(value) => Ok((value, 2)),
            None => Err(EvalError::MissingCell),
        };
    }
    if next == '^' && s.len() - i >= 3 && s[i + 2] == 'v' {
        match table.find_last_value_of_the_column(letter) {
            Some(value) => Ok((value, 3)),
            None => Err(EvalError::MissingCell),
        }
    } else if next == '^' {
        if current_row_number == 0 {
            return Err(EvalError::RowUnderflow);
        }
        match table.find_by_coordinate(letter, &(current_row_number - 1)) {
            Some(value) => Ok((value, 2)),
            None => Err(EvalError::MissingCell),
        }
    } else {
        Err(EvalError::BadReference)
    }
}

fn letter_run_of(s: &Vec<char>, start: usize) -> (res: usize)
    requires
        start <= s@.len(),
    ensures
        res == letter_run(s@, start as int),
{
    let mut k: usize = start;
    while k < s.len() && is_letter_exec(s[k])
        invariant
            start <= k <= s@.len(),
            letter_run(s@, start as int) == (k - start) + letter_run(s@, k as int),
        decreases s@.len() - k,
    {
        k = k + 1;
    }
    k - start
}

fn digit_run_of(s: &Vec<char>, start: usize) -> (res: usize)
    requires
        start <= s@.len(),
    ensures
        res == digit_run(s@, start as int),
{
    let mut k: usize = start;
    while k < s.len() && is_digit_exec(s[k])
        invariant
            start <= k <= s@.len(),
            digit_run(s@, start as int) == (k - start) + digit_run(s@, k as int),
        decreases s@.len() - k,
    {
        k = k + 1;
    }
    k - start
}

fn quote_run_of(s: &Vec<char>, start: usize) -> (res: usize)
    requires
        start <= s@.len(),
    ensures
        res == quote_run(s@, start as int),
{
    let mut k: usize = start;
    while k < s.len() && s[k] != '"'
        invariant
            start <= k <= s@.len(),
            quote_run(s@, start as int) == (k - start) + quote_run(s@, k as int),
        decreases s@.len() - k,
    {
        k = k + 1;
    }
    k - start
}

fn name_run_of(s: &Vec<char>, start: usize) -> (res: usize)
    requires
        start <= s@.len(),
    ensures
        res == name_run(s@, start as int),
{
    let mut k: usize = start;
    while k < s.len() && is_name_char_exec(s[k])
        invariant
            start <= k <= s@.len(),
            name_run(s@, start as int) == (k - start) + name_run(s@, k as int),
        decreases s@.len() - k,
    {
        k = k + 1;
    }
    k - start
}

/// At the end of a formula: reduces the stack to its single value.
fn reduce_of(stack: &mut VecDeque<Item>, inc_from: &mut usize, answers: &mut Answers) -> (res: Result<LiteralValue, Halt>)
    ensures
        final(answers).replies@ == old(answers).replies@,
        step_matches(res, spec_reduce(items_view(old(stack)@), *old(inc_from), old(answers).replies@, old(answers).used as nat), *final(inc_from), final(answers).used as nat),
{
    let ghost goal = spec_reduce(items_view(stack@), *inc_from, answers.replies@, answers.used as nat);
    while stack.len() > 0
        invariant
            answers.replies@ == old(answers).replies@,
            goal == spec_reduce(items_view(old(stack)@), *old(inc_from), old(answers).replies@, old(answers).used as nat),
            goal == spec_reduce(items_view(stack@), *inc_from, answers.replies@, answers.used as nat),
        decreases stack@.len(),
    {
        if stack.len() == 1 {
            let ghost st0 = stack@;
            let last = stack.pop_back();
            proof { lemma_items_view_pop(st0); }
            assert(items_view(st0)[0] == st0[0]@);
            match last {
                Some(Item::Literal(value)) => {
                    return Ok(value);
                },
                _ => {
                    return Err(Halt::Failed(EvalError::UnexpectedItem));
                },
            }
        }
        let prev_stack_length = stack.len();
        let ghost st0 = stack@;
        stack.push_front(Item::ZoneStart('('));
        assert(items_view(stack@) =~= seq![ItemView::ZoneStart('(')] + items_view(st0));
        let r = evaluate_curly_zone_of(stack, inc_from, answers);
        match r {
            Err(h) => {
                return Err(h);
            },
            Ok(()) => {},
        }
        if stack.len() >= prev_stack_length {
            return Err(Halt::Failed(EvalError::UnmatchedZone));
        }
    }
    Err(Halt::Failed(EvalError::InvalidExpression))
}

/// Evaluates the formula `s` (without its `=`) in the cell at row `index`.
fn execute_str_of(table: &TableData, s: &str, index: u32, inc_from: &mut usize, answers: &mut Answers) -> (res: Result<LiteralValue, Halt>)
    ensures
        final(answers).replies@ == old(answers).replies@,
        step_matches(res, spec_execute(table@, s@, index, *old(inc_from), old(answers).replies@, old(answers).used as nat), *final(inc_from), final(answers).used as nat),
{
    let chars = chars_of(s);
    let n = chars.len();
    let mut j: usize = 0;
    while j < n
        invariant
            n == chars@.len(),
            chars@ == s@,
            j <= n,
            forall|k: int| 0 <= k < j ==> (s@[k] as u32) < 128,
        decreases n - j,
    {
        if (chars[j] as u32) >= 128 {
            return Err(Halt::Failed(EvalError::NonAsciiFormula));
        }
        j = j + 1;
    }
    assert(is_ascii_text(s@));
    let ghost goal = spec_scan(table@, s@, 0, index, Seq::empty(), *inc_from, answers.replies@, answers.used as nat);
    let mut stack: VecDeque<Item> = VecDeque::new();
    assert(items_view(stack@) =~= Seq::<ItemView>::empty());
    let mut i: usize = 0;
    while i < n
        invariant
            n == chars@.len(),
            chars@ == s@,
            i <= n,
            answers.replies@ == old(answers).replies@,
            goal == spec_execute(table@, s@, index, *old(inc_from), old(answers).replies@, old(answers).used as nat),
            goal == spec_scan(table@, s@, i as int, index, items_view(stack@), *inc_from, answers.replies@, answers.used as nat),
        decreases n - i,
    {
        let c = chars[i];
        proof { lemma_runs_bounded(s@, i + 1); }
        let ghost st0 = stack@;
        if is_upper_exec(c) && n - i <= 1 {
            return Err(Halt::Failed(EvalError::UnexpectedEnd));
        } else if is_upper_exec(c) && !is_letter_exec(chars[i + 1]) {
            match resolve_literal_at_of(table, &chars, i, index) {
                Err(e) => {
                    return Err(Halt::Failed(e));
                },
                Ok((literal, literal_length)) => {
                    proof { lemma_items_view_push(stack@, Item::Literal(literal)); }
                    stack.push_back(Item::Literal(literal));
                    i = i + literal_length;
                },
            }
        } else if is_letter_exec(c) {
            let k = letter_run_of(&chars, i + 1);
            let token = s.substring_char(i, i + k + 1).to_owned();
            proof { lemma_items_view_push(stack@, Item::Token(token)); }
            stack.push_back(Item::Token(token));
            i = i + k + 1;
        } else if is_digit_exec(c) {
            let k = digit_run_of(&chars, i + 1);
            assert forall|m: int| i <= m < i + k + 1 implies is_digit(chars@[m]) by {
                if m > i {
                    lemma_digit_run_digits(chars@, i + 1, m);
                }
            }
            match parse_digits(&chars, i, i + k + 1) {
                None => {
                    return Err(Halt::Failed(EvalError::NumberTooLarge));
                },
                Some(v) => {
                    let item = Item::conduct_int_literal(v);
                    proof { lemma_items_view_push(stack@, item); }
                    stack.push_back(item);
                },
            }
            i = i + k + 1;
        } else if c == '(' || c == '<' {
            proof { lemma_items_view_push(stack@, Item::ZoneStart(c)); }
            stack.push_back(Item::ZoneStart(c));
            i = i + 1;
        } else if c == ')' || c == '>' {
            proof { lemma_items_view_push(stack@, Item::ZoneEnd(c)); }
            stack.push_back(Item::ZoneEnd(c));
            i = i + 1;
            match revaluate_from_end_zone_of(table, &mut stack, inc_from, answers) {
                Err(h) => {
                    return Err(h);
                },
                Ok(()) => {},
            }
        } else if c == '"' {
            let k = quote_run_of(&chars, i + 1);
            let val = s.substring_char(i + 1, i + 1 + k).to_owned();
            let item = Item::conduct_string_literal(val);
            proof { lemma_items_view_push(stack@, item); }
            stack.push_back(item);
            if i + 1 + k >= n {
                assert(spec_scan(table@, s@, i + k + 2, index, items_view(stack@), *inc_from, answers.replies@, answers.used as nat)
                    == spec_reduce(items_view(stack@), *inc_from, answers.replies@, answers.used as nat));
                assert(spec_scan(table@, s@, n as int, index, items_view(stack@), *inc_from, answers.replies@, answers.used as nat)
                    == spec_reduce(items_view(stack@), *inc_from, answers.replies@, answers.used as nat));
                i = n;
            } else {
                i = i + k + 2;
            }
        } else if c == '@' {
            let k = name_run_of(&chars, i + 1);
            let token = s.substring_char(i, i + k + 1).to_owned();
            proof { lemma_items_view_push(stack@, Item::Token(token)); }
            stack.push_back(Item::Token(token));
            i = i + k + 1;
        } else if c == ' ' || c == ',' {
            i = i + 1;
        } else if c == '+' || c == '*' || c == '-' || c == '/' {
            proof { lemma_items_view_push(stack@, Item::Operator(c)); }
            stack.push_back(Item::Operator(c));
            i = i + 1;
        } else {
            return Err(Halt::Failed(EvalError::UnknownSymbol));
        }
    }
    reduce_of(&mut stack, inc_from, answers)
}

pub proof fn lemma_digit_run_digits(s: Seq<char>, start: int, m: int)
    requires
        0 <= start <= m < start + digit_run(s, start),
    ensures
        is_digit(s[m]),
    decreases m - start,
{
    if m > start {
        lemma_digit_run_digits(s, start + 1, m);
    }
}

/// The value of the cell text `s` at row `index`.
fn parse_string_of(table: &TableData, s: String, index: u32, inc_from: &mut usize, answers: &mut Answers) -> (res: Result<LiteralValue, Halt>)
    ensures
        final(answers).replies@ == old(answers).replies@,
        step_matches(res, spec_parse_string(table@, s@, index, *old(inc_from), old(answers).replies@, old(answers).used as nat), *final(inc_from), final(answers).used as nat),
{
    let text: &str = s.as_str();
    if text.unicode_len() == 0 || (text.get_char(0) as u32) >= 128 {
        return Err(Halt::Failed(EvalError::UnreadableCell));
    }
    if text.get_char(0) == '=' {
        execute_str_of(table, text.remove_first_symbol(), index, inc_from, answers)
    } else {
        let parsed = answers.parsed(Query::ParseNumber(s.clone()));
        match parsed {
            Err(h) => Err(h),
            Ok(Some(x)) => Ok(Item::conduct_float_literal_value(x)),
            Ok(None) => Ok(Item::conduct_str_literal_value(s)),
        }
    }
}

/// What is left of filling the sheet once column `ci` has given `f`.
pub open spec fn after_column(f: Filled, n: nat, ci: int, replies: Seq<Reply>) -> (Seq<ColumnView>, Result<(), HaltView>) {
    match f.1 {
        Err(h) => (f.0, Err(h)),
        Ok((i, p)) => spec_fill_columns(f.0, n, ci + 1, i, replies, p),
    }
}

/// Sets the value `v` at row `row` of column `ci`.
fn set_value(table: &mut TableData, ci: usize, row: u32, v: LiteralValue)
    requires
        ci < old(table).columns.len(),
    ensures
        final(table)@ == with_value(old(table)@, ci as int, row, v@),
        final(table).columns.len() == old(table).columns.len(),
{
    let ghost col0 = table.columns@[ci as int];
    let ghost t0 = table@;
    table.columns[ci].resolved_value.insert(row, v);
    let ghost col1 = table.columns@[ci as int];
    assert(col1.resolved_value@ == col0.resolved_value@.insert(row, v));
    assert(col1.resolved_value@.map_values(|x: LiteralValue| x@) =~= col0.resolved_value@.map_values(|x: LiteralValue| x@).insert(row, v@));
    assert(col1.string_values@.map_values(|s: String| s@) =~= col0.string_values@.map_values(|s: String| s@));
    assert(col1@ =~= with_value(t0, ci as int, row, v@)[ci as int]);
    assert(table@ =~= with_value(t0, ci as int, row, v@));
}

impl TableData {
    /// Evaluates every cell, column by column and row by row; stops at the
    /// first cell that fails or that needs a reply beyond `replies`.
    pub fn try_fill_data(&mut self, replies: Vec<Reply>) -> (res: Result<(), Halt>)
        ensures
            final(self)@ == spec_fill_data(old(self)@, replies@).0,
            match spec_fill_data(old(self)@, replies@).1 {
                Ok(()) => res is Ok,
                Err(h) => res is Err && res->Err_0@ == h,
            },
    {
        fill_data_of(self, replies)
    }
}

/// Evaluates every cell of the sheet: see `spec_fill_data`.
fn fill_data_of(table: &mut TableData, replies: Vec<Reply>) -> (res: Result<(), Halt>)
    ensures
        final(table)@ == spec_fill_data(old(table)@, replies@).0,
        match spec_fill_data(old(table)@, replies@).1 {
            Ok(()) => res is Ok,
            Err(h) => res is Err && res->Err_0@ == h,
        },
{
    let ghost goal = spec_fill_data(table@, replies@);
    let n = table.columns.len();
    let mut answers = Answers::new(replies);
    let mut inc_from: usize = 0;
    let mut column_index: usize = 0;
    while column_index < n
        invariant
            n == table.columns.len(),
            n == old(table)@.len(),
            column_index <= n,
            answers.replies@ == replies@,
            goal == spec_fill_data(old(table)@, replies@),
            goal == spec_fill_columns(table@, n as nat, column_index as int, inc_from, replies@, answers.used as nat),
        decreases n - column_index,
    {
        assert(table@[column_index as int] == table.columns@[column_index as int]@);
        let row_keys = table.columns[column_index].get_sorted_keys();
        let ghost cells0 = table@[column_index as int].cells;
        let mut prev_val = String::new();
        let mut ki: usize = 0;
        while ki < row_keys.len()
            invariant
                n == table.columns.len(),
                n == table@.len(),
                column_index < n,
                answers.replies@ == replies@,
                goal == spec_fill_data(old(table)@, replies@),
                table@[column_index as int].cells == cells0,
                row_keys@ == sorted_keys(cells0.dom()),
                row_keys@.to_set() == cells0.dom(),
                ki <= row_keys.len(),
                goal == after_column(
                    spec_fill_column(table@, column_index as int, row_keys@, ki as int, prev_val@, inc_from, replies@, answers.used as nat),
                    n as nat, column_index as int, replies@),
            decreases row_keys.len() - ki,
        {
            let row_number = row_keys[ki];
            assert(row_keys@.to_set().contains(row_keys@[ki as int]));
            assert(table@[column_index as int] == table.columns@[column_index as int]@);
            let cell: String = match table.columns[column_index].string_values.get(&row_number) {
                Some(c) => c.clone(),
                None => {
                    assert(false);
                    return Err(Halt::Failed(EvalError::MissingCell));
                },
            };
            assert(cell@ == cells0[row_number]);
            let calculated_data = if str_eq_lit(cell.as_str(), "=^^") {
                if row_number == 0 {
                    return Err(Halt::Failed(EvalError::RowUnderflow));
                }
                match try_increase_column_digits(prev_val.clone(), row_number - 1) {
                    None => {
                        return Err(Halt::Failed(EvalError::PatternRejected));
                    },
                    Some(s) => parse_string_of(table, s, row_number, &mut inc_from, &mut answers),
                }
            } else {
                prev_val = cell.clone();
                parse_string_of(table, cell, row_number, &mut inc_from, &mut answers)
            };
            match calculated_data {
                Err(h) => {
                    return Err(h);
                },
                Ok(v) => {
                    set_value(table, column_index, row_number, v);
                },
            }
            ki = ki + 1;
        }
        column_index = column_index + 1;
    }
    Ok(())
}

/// The evaluation of a sheet's formulas.
///
/// Every method that may need single-precision arithmetic takes the replies
/// given so far (see `numbers`): it gives the value that those answers lead
/// to, or stops with the next question. Every method requires inputs on which
/// the evaluation does not fail; the functions of this module that they call,
/// and `TableData::try_fill_data`, report failures instead.
pub trait LogicExecutor: View<V = Seq<ColumnView>> + Sized {
    /// The value of the cell text `s` at row `index`.
    fn parse_string(&self, s: String, index: u32, inc_from: &mut usize, answers: &mut Answers) -> (res: Result<LiteralValue, Halt>)
        requires
            not_failed(spec_parse_string(self@, s@, index, *old(inc_from), old(answers).replies@, old(answers).used as nat)),
        ensures
            final(answers).replies@ == old(answers).replies@,
            step_matches(res, spec_parse_string(self@, s@, index, *old(inc_from), old(answers).replies@, old(answers).used as nat), *final(inc_from), final(answers).used as nat),
    ;

    /// The value of the formula `s` (without its `=`) at row `index`.
    fn execute_str(&self, s: &str, index: u32, inc_from: &mut usize, answers: &mut Answers) -> (res: Result<LiteralValue, Halt>)
        requires
            not_failed(spec_execute(self@, s@, index, *old(inc_from), old(answers).replies@, old(answers).used as nat)),
        ensures
            final(answers).replies@ == old(answers).replies@,
            step_matches(res, spec_execute(self@, s@, index, *old(inc_from), old(answers).replies@, old(answers).used as nat), *final(inc_from), final(answers).used as nat),
    ;

    /// Evaluates every cell, column by column and row by row; stops at the
    /// first cell that needs a reply beyond `replies`. Requires a sheet and
    /// replies on which no cell fails: `try_fill_data` takes any.
    fn fill_data(&mut self, replies: Vec<Reply>) -> (res: Result<(), Halt>)
        requires
            not_failed(spec_fill_data(old(self)@, replies@).1),
        ensures
            final(self)@ == spec_fill_data(old(self)@, replies@).0,
            match spec_fill_data(old(self)@, replies@).1 {
                Ok(()) => res is Ok,
                Err(h) => res is Err && res->Err_0@ == h,
            },
    ;

    /// After a closing item: reduces what it closes.
    fn revaluate_from_end_zone(&self, stack: &mut VecDeque<Item>, inc_from: &mut usize, answers: &mut Answers) -> (res: Result<(), Halt>)
        requires
            not_failed(spec_revaluate(self@, items_view(old(stack)@), *old(inc_from), old(answers).replies@, old(answers).used as nat)),
        ensures
            final(answers).replies@ == old(answers).replies@,
            machine_matches(res, spec_revaluate(self@, items_view(old(stack)@), *old(inc_from), old(answers).replies@, old(answers).used as nat), final(stack)@, *final(inc_from), final(answers).used as nat),
    ;

    /// Calls the function `name` on `args` (the arguments last first).
    fn call_function(&self, name: &str, args: Vec<LiteralValue>, inc_from: &mut usize, answers: &mut Answers) -> (res: Result<LiteralValue, Halt>)
        requires
            not_failed(spec_call_function(name@, lits_view(args@), *old(inc_from), old(answers).replies@, old(answers).used as nat)),
        ensures
            final(answers).replies@ == old(answers).replies@,
            step_matches(res, spec_call_function(name@, lits_view(args@), *old(inc_from), old(answers).replies@, old(answers).used as nat), *final(inc_from), final(answers).used as nat),
    ;

    /// `operator` applied to the numbers `args[0]` and `args[1]`, in that order.
    fn evaluate_arithmetic(&self, operator: char, args: &Vec<LiteralValue>, answers: &mut Answers) -> (res: Result<LiteralValue, Halt>)
        requires
            not_failed(spec_arithmetic(operator, lits_view(args@), old(answers).replies@, old(answers).used as nat)),
        ensures
            final(answers).replies@ == old(answers).replies@,
            match spec_arithmetic(operator, lits_view(args@), old(answers).replies@, old(answers).used as nat) {
                Ok((v, p)) => res is Ok && res->Ok_0@ == v && final(answers).used == p,
                Err(h) => res is Err && res->Err_0@ == h,
            },
    ;

    /// The cell reference at position `i` of `s`: its value and its length.
    fn resolve_literal_at(&self, s: &str, i: usize, current_row_number: u32) -> (res: (LiteralValue, usize))
        requires
            i < s@.len(),
            forall|j: int| 0 <= j <= i + 2 && j < s@.len() ==> (s@[j] as u32) < 128,
            spec_resolve_literal_at(self@, s@, i as int, current_row_number) is Ok,
        ensures
            spec_resolve_literal_at(self@, s@, i as int, current_row_number) == Ok::<(LiteralView, int), EvalError>((res.0@, res.1 as int)),
    ;

    /// The references to row `prev_num` in `text` moved to the row after it.
    fn increase_column_digits(text: String, prev_num: u32) -> (res: String)
        requires
            prev_num < u32::MAX,
            regex_accepts(row_pattern(prev_num)),
        ensures
            res@ == regex_replaced(row_pattern(prev_num), text@, (prev_num + 1) as u32),
    ;

    /// Replaces `@name < i` at the top of the stack by the `i`-th cell of
    /// the column `name`.
    fn evaluate_column_reference(&self, stack: &mut VecDeque<Item>)
        requires
            spec_column_reference(self@, items_view(old(stack)@)) is Ok,
        ensures
            spec_column_reference(self@, items_view(old(stack)@)) == Ok::<Seq<ItemView>, EvalError>(items_view(final(stack)@)),
    ;

    /// Reduces the stack down to its last `(`.
    fn evaluate_curly_zone(&self, stack: &mut VecDeque<Item>, inc_from: &mut usize, answers: &mut Answers) -> (res: Result<(), Halt>)
        requires
            not_failed(spec_curly(items_view(old(stack)@), Seq::empty(), *old(inc_from), old(answers).replies@, old(answers).used as nat)),
        ensures
            final(answers).replies@ == old(answers).replies@,
            machine_matches(res, spec_curly(items_view(old(stack)@), Seq::empty(), *old(inc_from), old(answers).replies@, old(answers).used as nat), final(stack)@, *final(inc_from), final(answers).used as nat),
    ;

    /// `incFrom(n)`: adds `n` to the counter and gives the new counter.
    fn inc_from(&self, args: Vec<LiteralValue>, inc_from: &mut usize) -> (res: LiteralValue)
        requires
            spec_inc_from(lits_view(args@), *old(inc_from), 0) is Ok,
        ensures
            spec_inc_from(lits_view(args@), *old(inc_from), 0) == Ok::<(LiteralView, usize, nat), HaltView>((res@, *final(inc_from), 0)),
    ;

    /// `split(text, sep)`.
    fn split(&self, args: Vec<LiteralValue>) -> (res: LiteralValue)
        requires
            spec_split(lits_view(args@), 0, 0) is Ok,
        ensures
            spec_split(lits_view(args@), 0, 0) == Ok::<(LiteralView, usize, nat), HaltView>((res@, 0, 0)),
    ;

    /// `spread(texts)`.
    fn spread(&self, args: Vec<LiteralValue>, answers: &mut Answers) -> (res: Result<LiteralValue, Halt>)
        requires
            not_failed(spec_spread(lits_view(args@), 0, old(answers).replies@, old(answers).used as nat)),
        ensures
            final(answers).replies@ == old(answers).replies@,
            step_matches(res, spec_spread(lits_view(args@), 0, old(answers).replies@, old(answers).used as nat), 0, final(answers).used as nat),
    ;

    /// `sum(numbers)`.
    fn sum(&self, args: Vec<LiteralValue>, answers: &mut Answers) -> (res: Result<LiteralValue, Halt>)
        requires
            not_failed(spec_sum(lits_view(args@), 0, old(answers).replies@, old(answers).used as nat)),
        ensures
            final(answers).replies@ == old(answers).replies@,
            step_matches(res, spec_sum(lits_view(args@), 0, old(answers).replies@, old(answers).used as nat), 0, final(answers).used as nat),
    ;

    /// `text(v)`.
    fn text(&self, args: Vec<LiteralValue>) -> (res: LiteralValue)
        requires
            spec_text(lits_view(args@), 0, 0) is Ok,
        ensures
            spec_text(lits_view(args@), 0, 0) == Ok::<(LiteralView, usize, nat), HaltView>((res@, 0, 0)),
    ;

    /// `bte(a, b)`.
    fn bte(&self, args: Vec<LiteralValue>, answers: &mut Answers) -> (res: Result<LiteralValue, Halt>)
        requires
            not_failed(spec_bte(lits_view(args@), 0, old(answers).replies@, old(answers).used as nat)),
        ensures
            final(answers).replies@ == old(answers).replies@,
            step_matches(res, spec_bte(lits_view(args@), 0, old(answers).replies@, old(answers).used as nat), 0, final(answers).used as nat),
    ;

    /// `concat(a, b)`.
    fn concat(&self, args: Vec<LiteralValue>) -> (res: LiteralValue)
        requires
            spec_concat(lits_view(args@), 0, 0) is Ok,
        ensures
            spec_concat(lits_view(args@), 0, 0) == Ok::<(LiteralView, usize, nat), HaltView>((res@, 0, 0)),
    ;
}

impl LogicExecutor for TableData {
    fn parse_string(&self, s: String, index: u32, inc_from: &mut usize, answers: &mut Answers) -> (res: Result<LiteralValue, Halt>) {
        parse_string_of(self, s, index, inc_from, answers)
    }

    fn execute_str(&self, s: &str, index: u32, inc_from: &mut usize, answers: &mut Answers) -> (res: Result<LiteralValue, Halt>) {
        execute_str_of(self, s, index, inc_from, answers)
    }

    fn fill_data(&mut self, replies: Vec<Reply>) -> (res: Result<(), Halt>) {
        fill_data_of(self, replies)
    }

    fn revaluate_from_end_zone(&self, stack: &mut VecDeque<Item>, inc_from: &mut usize, answers: &mut Answers) -> (res: Result<(), Halt>) {
        revaluate_from_end_zone_of(self, stack, inc_from, answers)
    }

    fn call_function(&self, name: &str, args: Vec<LiteralValue>, inc_from: &mut usize, answers: &mut Answers) -> (res: Result<LiteralValue, Halt>) {
        call_function_of(name, args, inc_from, answers)
    }

    fn evaluate_arithmetic(&self, operator: char, args: &Vec<LiteralValue>, answers: &mut Answers) -> (res: Result<LiteralValue, Halt>) {
        evaluate_arithmetic_of(operator, args, answers)
    }

    fn resolve_literal_at(&self, s: &str, i: usize, current_row_number: u32) -> (res: (LiteralValue, usize)) {
        let chars = chars_of(s);
        resolve_literal_at_of(self, &chars, i, current_row_number).unwrap()
    }

    fn increase_column_digits(text: String, prev_num: u32) -> (res: String) {
        regex_helpers::increase_column_digits(text, prev_num)
    }

    fn evaluate_column_reference(&self, stack: &mut VecDeque<Item>) {
        let res = evaluate_column_reference_of(self, stack);
        assert(res is Ok);
    }

    fn evaluate_curly_zone(&self, stack: &mut VecDeque<Item>, inc_from: &mut usize, answers: &mut Answers) -> (res: Result<(), Halt>) {
        evaluate_curly_zone_of(stack, inc_from, answers)
    }

    fn inc_from(&self, args: Vec<LiteralValue>, inc_from: &mut usize) -> (res: LiteralValue) {
        inc_from_of(&args, inc_from).unwrap()
    }

    fn split(&self, args: Vec<LiteralValue>) -> (res: LiteralValue) {
        split_of(&args).unwrap()
    }

    fn spread(&self, args: Vec<LiteralValue>, answers: &mut Answers) -> (res: Result<LiteralValue, Halt>) {
        spread_of(&args, answers)
    }

    fn sum(&self, args: Vec<LiteralValue>, answers: &mut Answers) -> (res: Result<LiteralValue, Halt>) {
        sum_of(&args, answers)
    }

    fn text(&self, args: Vec<LiteralValue>) -> (res: LiteralValue) {
        text_fn_of(&args).unwrap()
    }

    fn bte(&self, args: Vec<LiteralValue>, answers: &mut Answers) -> (res: Result<LiteralValue, Halt>) {
        bte_of(&args, answers)
    }

    fn concat(&self, args: Vec<LiteralValue>) -> (res: LiteralValue) {
        concat_of(&args).unwrap()
    }
}

} // verus!
