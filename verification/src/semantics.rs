//! What evaluating a formula means, stated over the mathematical content of the
//! sheet, of the evaluator's stack and of the replies (see `numbers`).
//!
//! The evaluator reads a formula left to right and keeps items on a stack.
//! A closing `)` reduces the stack down to the last `(`: the values met on the
//! way are gathered, last first; an operator combines the value after it with
//! the value before it (in that order: `a - b` gives `b - a`, as the sheet
//! format has it), and a name before the `(` is a function called with the
//! gathered values. A closing `>` reads `@name<i>`, the `i`-th cell of a column.

use vstd::prelude::*;
use crate::error::EvalError;
use crate::numbers::{Reply, QueryView, HaltView, fail, spec_number_reply, spec_parsed_reply, spec_truth_reply};
use crate::str_utils::split_on;
use crate::str_utils::name_run;
use crate::table::{
    LiteralView, ItemView, ColumnView, text_value, number_value, count_value, texts_value, numbers_value,
    name_index, spec_cell_by_index, spec_coordinate, spec_last_value, spec_literal_as_number,
    spec_start_of, spec_token, spec_literal,
};
use crate::keys::{sorted_keys, lemma_sorted_keys_exist};
use crate::regex_helpers::spec_increase_column_digits;
use crate::text::{decimal, digits_value, digit_value, is_digit, is_letter, is_upper};

verus! {

/// What a function call or an operation gives: the value, the `incFrom`
/// counter after it, and the number of replies taken so far.
pub type Step = Result<(LiteralView, usize, nat), HaltView>;

/// `incFrom(n)`: adds `n` to the counter and gives the new counter.
pub open spec fn spec_inc_from(args: Seq<LiteralView>, inc: usize, pos: nat) -> Step {
    if args.len() != 1 {
        fail(EvalError::WrongArity)
    } else {
        match args[0].count {
            None => fail(EvalError::MissingValue),
            Some(i) => if inc + i > usize::MAX {
                fail(EvalError::Overflow)
            } else {
                Ok((count_value((inc + i) as usize), (inc + i) as usize, pos))
            },
        }
    }
}

/// `split(text, sep)`: the pieces of the text between occurrences of the
/// one-byte separator.
pub open spec fn spec_split(args: Seq<LiteralView>, inc: usize, pos: nat) -> Step {
    if args.len() != 2 {
        fail(EvalError::WrongArity)
    } else {
        match (args[1].text, args[0].text) {
            (Some(from), Some(sep)) => if sep.len() != 1 || (sep[0] as u32) >= 128 {
                fail(EvalError::BadSeparator)
            } else {
                Ok((texts_value(split_on(from, sep[0])), inc, pos))
            },
            _ => fail(EvalError::MissingValue),
        }
    }
}

/// Reads the texts `texts[i..]` as numbers, one reply each, after `acc`.
pub open spec fn spec_parse_all(texts: Seq<Seq<char>>, i: int, acc: Seq<u32>, replies: Seq<Reply>, pos: nat) -> Result<(Seq<u32>, nat), HaltView>
    decreases texts.len() - i,
{
    if i < 0 || i >= texts.len() {
        Ok((acc, pos))
    } else {
        match spec_parsed_reply(replies, pos, QueryView::ParseNumber(texts[i])) {
            Err(h) => Err(h),
            Ok((None, _)) => fail(EvalError::NotANumber),
            Ok((Some(x), p)) => spec_parse_all(texts, i + 1, acc.push(x), replies, p),
        }
    }
}

/// `spread(texts)`: the texts read as numbers.
pub open spec fn spec_spread(args: Seq<LiteralView>, inc: usize, replies: Seq<Reply>, pos: nat) -> Step {
    if args.len() != 1 {
        fail(EvalError::WrongArity)
    } else {
        match args[0].texts {
            None => fail(EvalError::MissingValue),
            Some(texts) => match spec_parse_all(texts, 0, Seq::empty(), replies, pos) {
                Err(h) => Err(h),
                Ok((v, p)) => Ok((numbers_value(v), inc, p)),
            },
        }
    }
}

/// `sum(numbers)`: their sum.
pub open spec fn spec_sum(args: Seq<LiteralView>, inc: usize, replies: Seq<Reply>, pos: nat) -> Step {
    if args.len() != 1 {
        fail(EvalError::WrongArity)
    } else {
        match args[0].numbers {
            None => fail(EvalError::MissingValue),
            Some(v) => match spec_number_reply(replies, pos, QueryView::Sum(v)) {
                Err(h) => Err(h),
                Ok((x, p)) => Ok((number_value(x), inc, p)),
            },
        }
    }
}

/// The text of a value that holds a text or a count.
pub open spec fn spec_literal_to_string(v: LiteralView) -> Option<Seq<char>> {
    match v.text {
        Some(s) => Some(s),
        None => match v.count {
            Some(n) => Some(decimal(n as nat)),
            None => None,
        },
    }
}

/// `text(v)`: the text of a text or of a count.
pub open spec fn spec_text(args: Seq<LiteralView>, inc: usize, pos: nat) -> Step {
    if args.len() != 1 {
        fail(EvalError::WrongArity)
    } else {
        match spec_literal_to_string(args[0]) {
            None => fail(EvalError::MissingValue),
            Some(s) => Ok((text_value(s), inc, pos)),
        }
    }
}

/// `bte(a, b)`: `"true"` when `a` is at least `b`, else `"false"`.
pub open spec fn spec_bte(args: Seq<LiteralView>, inc: usize, replies: Seq<Reply>, pos: nat) -> Step {
    if args.len() != 2 {
        fail(EvalError::WrongArity)
    } else {
        match (args[1].number, args[0].number) {
            (Some(a), Some(b)) => match spec_truth_reply(replies, pos, QueryView::AtLeast(a, b)) {
                Err(h) => Err(h),
                Ok((t, p)) => Ok((text_value(if t { "true"@ } else { "false"@ }), inc, p)),
            },
            _ => fail(EvalError::MissingValue),
        }
    }
}

/// `concat(a, b)`: the two texts one after the other.
pub open spec fn spec_concat(args: Seq<LiteralView>, inc: usize, pos: nat) -> Step {
    if args.len() != 2 {
        fail(EvalError::WrongArity)
    } else {
        match (args[1].text, args[0].text) {
            (Some(a), Some(b)) => Ok((text_value(a + b), inc, pos)),
            _ => fail(EvalError::MissingValue),
        }
    }
}

/// The call of the function `name` on `args` (the arguments last first).
/// An unknown name gives the text `[name(wtf)]`.
pub open spec fn spec_call_function(name: Seq<char>, args: Seq<LiteralView>, inc: usize, replies: Seq<Reply>, pos: nat) -> Step {
    if name == "incFrom"@ {
        spec_inc_from(args, inc, pos)
    } else if name == "split"@ {
        spec_split(args, inc, pos)
    } else if name == "spread"@ {
        spec_spread(args, inc, replies, pos)
    } else if name == "sum"@ {
        spec_sum(args, inc, replies, pos)
    } else if name == "text"@ {
        spec_text(args, inc, pos)
    } else if name == "bte"@ {
        spec_bte(args, inc, replies, pos)
    } else if name == "concat"@ {
        spec_concat(args, inc, pos)
    } else {
        Ok((text_value("["@ + name + "(wtf)]"@), inc, pos))
    }
}

pub open spec fn is_operator(c: char) -> bool {
    c == '+' || c == '-' || c == '*' || c == '/'
}

/// `op` applied to the numbers `args[0]` and `args[1]`, in that order.
pub open spec fn spec_arithmetic(op: char, args: Seq<LiteralView>, replies: Seq<Reply>, pos: nat) -> Result<(LiteralView, nat), HaltView> {
    if args.len() != 2 {
        fail(EvalError::WrongArity)
    } else {
        match (args[0].number, args[1].number) {
            (Some(a), Some(b)) => if !is_operator(op) {
                fail(EvalError::UnknownSymbol)
            } else {
                match spec_number_reply(replies, pos, QueryView::Arithmetic(op, a, b)) {
                    Err(h) => Err(h),
                    Ok((x, p)) => Ok((number_value(x), p)),
                }
            },
            _ => fail(EvalError::MissingValue),
        }
    }
}

/// The state of the evaluator after a step: its stack, the `incFrom` counter
/// and the number of replies taken so far.
pub type Machine = Result<(Seq<ItemView>, usize, nat), HaltView>;

/// Reduces the stack down to its last `(`: see the head of this module.
/// `operands` are the values gathered so far, last first.
pub open spec fn spec_curly(stack: Seq<ItemView>, operands: Seq<LiteralView>, inc: usize, replies: Seq<Reply>, pos: nat) -> Machine
    decreases stack.len(),
{
    if stack.len() == 0 {
        fail(EvalError::StackUnderflow)
    } else {
        let rest = stack.drop_last();
        match stack.last() {
            ItemView::Literal(v) => spec_curly(rest, operands.push(v), inc, replies, pos),
            ItemView::ZoneStart(c) => if c != '(' {
                fail(EvalError::UnmatchedZone)
            } else if rest.len() > 0 && rest.last() is Token {
                match spec_call_function(rest.last()->Token_0, operands, inc, replies, pos) {
                    Err(h) => Err(h),
                    Ok((v, i, p)) => Ok((rest.drop_last().push(ItemView::Literal(v)), i, p)),
                }
            } else if operands.len() == 1 {
                Ok((rest.push(ItemView::Literal(operands[0])), inc, pos))
            } else {
                fail(EvalError::UnmatchedZone)
            },
            ItemView::Operator(op) => if rest.len() == 0 {
                fail(EvalError::StackUnderflow)
            } else {
                match spec_literal(rest.last()) {
                    Err(e) => fail(e),
                    Ok(left) => match spec_arithmetic(op, operands.push(left), replies, pos) {
                        Err(h) => Err(h),
                        Ok((r, p)) => spec_curly(rest.drop_last().push(ItemView::Literal(r)), Seq::empty(), inc, replies, p),
                    },
                }
            },
            _ => fail(EvalError::InvalidExpression),
        }
    }
}

/// Replaces `@name < i` at the top of the stack by the `i`-th cell (counted
/// from 1) of the column `name`.
pub open spec fn spec_column_reference(t: Seq<ColumnView>, stack: Seq<ItemView>) -> Result<Seq<ItemView>, EvalError> {
    if stack.len() < 1 {
        Err(EvalError::StackUnderflow)
    } else {
        match spec_literal_as_number(stack.last()) {
            Err(e) => Err(e),
            Ok(index) => {
                let s1 = stack.drop_last();
                if s1.len() < 1 {
                    Err(EvalError::StackUnderflow)
                } else {
                    match spec_start_of(s1.last(), '<') {
                        Err(e) => Err(e),
                        Ok(_) => {
                            let s2 = s1.drop_last();
                            if s2.len() < 1 {
                                Err(EvalError::StackUnderflow)
                            } else {
                                match spec_token(s2.last()) {
                                    Err(e) => Err(e),
                                    Ok(token) => if token.len() == 0 || (token[0] as u32) >= 128 {
                                        Err(EvalError::UnexpectedItem)
                                    } else {
                                        match name_index(t, token.drop_first()) {
                                            None => Err(EvalError::MissingColumn),
                                            Some(ci) => match spec_cell_by_index(t[ci], index) {
                                                None => Err(EvalError::MissingCell),
                                                Some(v) => Ok(s2.drop_last().push(ItemView::Literal(v))),
                                            },
                                        }
                                    },
                                }
                            }
                        },
                    }
                }
            },
        }
    }
}

/// After a closing item: takes it off the stack and reduces what it closes,
/// a column reference for `>` and a zone for any other.
pub open spec fn spec_revaluate(t: Seq<ColumnView>, stack: Seq<ItemView>, inc: usize, replies: Seq<Reply>, pos: nat) -> Machine {
    if stack.len() == 0 {
        fail(EvalError::StackUnderflow)
    } else {
        match crate::table::spec_end_zone_character(stack.last()) {
            Err(e) => fail(e),
            Ok(c) => if c == '>' {
                match spec_column_reference(t, stack.drop_last()) {
                    Err(e) => fail(e),
                    Ok(st) => Ok((st, inc, pos)),
                }
            } else {
                spec_curly(stack.drop_last(), Seq::empty(), inc, replies, pos)
            },
        }
    }
}

/// A cell reference at position `i` of the formula `s`, in row `row`:
/// `A7` (a one-digit row), `E^v` (the bottom of column `E`) or `E^` (the row
/// above, also at the very end of the formula). Gives the value and the
/// length of the reference.
pub open spec fn spec_resolve_literal_at(t: Seq<ColumnView>, s: Seq<char>, i: int, row: u32) -> Result<(LiteralView, int), EvalError> {
    let letter = s[i];
    if i + 1 >= s.len() {
        Err(EvalError::UnexpectedEnd)
    } else if is_digit(s[i + 1]) {
        match spec_coordinate(t, letter, digit_value(s[i + 1]) as u32, 0) {
            Some(v) => Ok((v, 2)),
            None => Err(EvalError::MissingCell),
        }
    } else if s[i + 1] == '^' && i + 2 < s.len() && s[i + 2] == 'v' {
        match spec_last_value(t, letter) {
            Some(v) => Ok((v, 3)),
            None => Err(EvalError::MissingCell),
        }
    } else if s[i + 1] == '^' {
        if row == 0 {
            Err(EvalError::RowUnderflow)
        } else {
            match spec_coordinate(t, letter, (row - 1) as u32, 0) {
                Some(v) => Ok((v, 2)),
                None => Err(EvalError::MissingCell),
            }
        }
    } else {
        Err(EvalError::BadReference)
    }
}

/// Number of letters that follow one another from `start` on.
pub open spec fn letter_run(s: Seq<char>, start: int) -> nat
    decreases s.len() - start,
{
    if 0 <= start < s.len() && is_letter(s[start]) {
        1 + letter_run(s, start + 1)
    } else {
        0
    }
}

/// Number of digits that follow one another from `start` on.
pub open spec fn digit_run(s: Seq<char>, start: int) -> nat
    decreases s.len() - start,
{
    if 0 <= start < s.len() && is_digit(s[start]) {
        1 + digit_run(s, start + 1)
    } else {
        0
    }
}

/// Number of characters before the next `"` (or the end) from `start` on.
pub open spec fn quote_run(s: Seq<char>, start: int) -> nat
    decreases s.len() - start,
{
    if 0 <= start < s.len() && s[start] != '"' {
        1 + quote_run(s, start + 1)
    } else {
        0
    }
}

pub proof fn lemma_runs_bounded(s: Seq<char>, start: int)
    requires
        0 <= start <= s.len(),
    ensures
        start + letter_run(s, start) <= s.len(),
        start + digit_run(s, start) <= s.len(),
        start + quote_run(s, start) <= s.len(),
        start + name_run(s, start) <= s.len(),
    decreases s.len() - start,
{
    if start < s.len() {
        lemma_runs_bounded(s, start + 1);
    }
}

/// The value of the formula `s`, read from position `i` on with `stack`
/// built from what came before, in the cell at row `row`.
pub open spec fn spec_scan(
    t: Seq<ColumnView>,
    s: Seq<char>,
    i: int,
    row: u32,
    stack: Seq<ItemView>,
    inc: usize,
    replies: Seq<Reply>,
    pos: nat,
) -> Step
    decreases s.len() + 1 - i,
{
    if i < 0 || i >= s.len() {
        spec_reduce(stack, inc, replies, pos)
    } else {
        let c = s[i];
        proof {
            lemma_runs_bounded(s, i + 1);
        }
        if is_upper(c) && i + 1 >= s.len() {
            fail(EvalError::UnexpectedEnd)
        } else if is_upper(c) && !is_letter(s[i + 1]) {
            match spec_resolve_literal_at(t, s, i, row) {
                Err(e) => fail(e),
                Ok((v, len)) => if len < 1 {
                    fail(EvalError::BadReference)
                } else {
                    spec_scan(t, s, i + len, row, stack.push(ItemView::Literal(v)), inc, replies, pos)
                },
            }
        } else if is_letter(c) {
            let k = letter_run(s, i + 1);
            spec_scan(t, s, i + k + 1, row, stack.push(ItemView::Token(s.subrange(i, i + k + 1))), inc, replies, pos)
        } else if is_digit(c) {
            let k = digit_run(s, i + 1);
            let v = digits_value(s.subrange(i, i + k + 1));
            if v > usize::MAX {
                fail(EvalError::NumberTooLarge)
            } else {
                spec_scan(t, s, i + k + 1, row, stack.push(ItemView::Literal(count_value(v as usize))), inc, replies, pos)
            }
        } else if c == '(' || c == '<' {
            spec_scan(t, s, i + 1, row, stack.push(ItemView::ZoneStart(c)), inc, replies, pos)
        } else if c == ')' || c == '>' {
            match spec_revaluate(t, stack.push(ItemView::ZoneEnd(c)), inc, replies, pos) {
                Err(h) => Err(h),
                Ok((st, i2, p2)) => spec_scan(t, s, i + 1, row, st, i2, replies, p2),
            }
        } else if c == '"' {
            let k = quote_run(s, i + 1);
            spec_scan(t, s, i + k + 2, row, stack.push(ItemView::Literal(text_value(s.subrange(i + 1, i + 1 + k)))), inc, replies, pos)
        } else if c == '@' {
            let k = name_run(s, i + 1);
            spec_scan(t, s, i + k + 1, row, stack.push(ItemView::Token(s.subrange(i, i + k + 1))), inc, replies, pos)
        } else if c == ' ' || c == ',' {
            spec_scan(t, s, i + 1, row, stack, inc, replies, pos)
        } else if is_operator(c) {
            spec_scan(t, s, i + 1, row, stack.push(ItemView::Operator(c)), inc, replies, pos)
        } else {
            fail(EvalError::UnknownSymbol)
        }
    }
}

/// At the end of a formula: reduces the stack to its single value, closing
/// the zones that were left open.
pub open spec fn spec_reduce(stack: Seq<ItemView>, inc: usize, replies: Seq<Reply>, pos: nat) -> Step
    decreases stack.len(),
{
    if stack.len() == 0 {
        fail(EvalError::InvalidExpression)
    } else if stack.len() == 1 {
        match stack[0] {
            ItemView::Literal(v) => Ok((v, inc, pos)),
            _ => fail(EvalError::UnexpectedItem),
        }
    } else {
        match spec_curly(seq![ItemView::ZoneStart('(')] + stack, Seq::empty(), inc, replies, pos) {
            Err(h) => Err(h),
            Ok((st, i, p)) => if st.len() >= stack.len() {
                fail(EvalError::UnmatchedZone)
            } else {
                spec_reduce(st, i, replies, p)
            },
        }
    }
}

pub open spec fn is_ascii_text(s: Seq<char>) -> bool {
    forall|j: int| 0 <= j < s.len() ==> (s[j] as u32) < 128
}

/// The value of the formula `s` (without its `=`) in the cell at row `row`.
pub open spec fn spec_execute(t: Seq<ColumnView>, s: Seq<char>, row: u32, inc: usize, replies: Seq<Reply>, pos: nat) -> Step {
    if !is_ascii_text(s) {
        fail(EvalError::NonAsciiFormula)
    } else {
        spec_scan(t, s, 0, row, Seq::empty(), inc, replies, pos)
    }
}

/// The value of the cell text `cell` at row `row`: a formula after `=` is
/// evaluated, a text that reads as a number is that number, any other text
/// is itself.
pub open spec fn spec_parse_string(t: Seq<ColumnView>, cell: Seq<char>, row: u32, inc: usize, replies: Seq<Reply>, pos: nat) -> Step {
    if cell.len() == 0 || (cell[0] as u32) >= 128 {
        fail(EvalError::UnreadableCell)
    } else if cell[0] == '=' {
        spec_execute(t, cell.drop_first(), row, inc, replies, pos)
    } else {
        match spec_parsed_reply(replies, pos, QueryView::ParseNumber(cell)) {
            Err(h) => Err(h),
            Ok((Some(x), p)) => Ok((number_value(x), inc, p)),
            Ok((None, p)) => Ok((text_value(cell), inc, p)),
        }
    }
}

/// The sheet with the value `v` set at row `row` of column `ci`.
pub open spec fn with_value(t: Seq<ColumnView>, ci: int, row: u32, v: LiteralView) -> Seq<ColumnView> {
    t.update(ci, ColumnView {
        name: t[ci].name,
        letter: t[ci].letter,
        cells: t[ci].cells,
        resolved: t[ci].resolved.insert(row, v),
    })
}

/// What filling gives: the sheet as it stands when filling stops, and, when it
/// went through, the `incFrom` counter and the number of replies taken.
pub type Filled = (Seq<ColumnView>, Result<(usize, nat), HaltView>);

/// Fills column `ci` from the `ki`-th of its rows `keys` on. A cell `=^^`
/// repeats the last other formula of the column, with its references to the
/// row above moved to its own row; `prev` is that formula.
pub open spec fn spec_fill_column(
    t: Seq<ColumnView>,
    ci: int,
    keys: Seq<u32>,
    ki: int,
    prev: Seq<char>,
    inc: usize,
    replies: Seq<Reply>,
    pos: nat,
) -> Filled
    decreases keys.len() - ki,
{
    if ki < 0 || ki >= keys.len() {
        (t, Ok((inc, pos)))
    } else {
        let row = keys[ki];
        let cell = t[ci].cells[row];
        if cell == "=^^"@ {
            if row == 0 {
                (t, fail(EvalError::RowUnderflow))
            } else {
                match spec_increase_column_digits(prev, (row - 1) as u32) {
                    None => (t, fail(EvalError::PatternRejected)),
                    Some(source) => match spec_parse_string(t, source, row, inc, replies, pos) {
                        Err(h) => (t, Err(h)),
                        Ok((v, i, p)) => spec_fill_column(with_value(t, ci, row, v), ci, keys, ki + 1, prev, i, replies, p),
                    },
                }
            }
        } else {
            match spec_parse_string(t, cell, row, inc, replies, pos) {
                Err(h) => (t, Err(h)),
                Ok((v, i, p)) => spec_fill_column(with_value(t, ci, row, v), ci, keys, ki + 1, cell, i, replies, p),
            }
        }
    }
}

/// Fills the columns from `ci` on, up to `n`, each row by row in increasing
/// order.
pub open spec fn spec_fill_columns(t: Seq<ColumnView>, n: nat, ci: int, inc: usize, replies: Seq<Reply>, pos: nat) -> (Seq<ColumnView>, Result<(), HaltView>)
    decreases n - ci,
{
    if ci < 0 || ci >= n || ci >= t.len() {
        (t, Ok(()))
    } else {
        let filled = spec_fill_column(t, ci, sorted_keys(t[ci].cells.dom()), 0, Seq::empty(), inc, replies, pos);
        match filled.1 {
            Err(h) => (filled.0, Err(h)),
            Ok((i, p)) => spec_fill_columns(filled.0, n, ci + 1, i, replies, p),
        }
    }
}

/// Evaluates every cell of the sheet, column by column, with the `incFrom`
/// counter starting at 0 and running through the whole sheet.
pub open spec fn spec_fill_data(t: Seq<ColumnView>, replies: Seq<Reply>) -> (Seq<ColumnView>, Result<(), HaltView>) {
    spec_fill_columns(t, t.len(), 0, 0, replies, 0)
}

/// The two sheets have the same columns, with the same names, letters and cells.
pub open spec fn same_cells(a: Seq<ColumnView>, b: Seq<ColumnView>) -> bool {
    &&& a.len() == b.len()
    &&& forall|i: int| #![trigger b[i]] 0 <= i < a.len() ==> b[i].name == a[i].name && b[i].letter == a[i].letter && b[i].cells == a[i].cells
}

proof fn lemma_fill_column(t: Seq<ColumnView>, ci: int, keys: Seq<u32>, ki: int, prev: Seq<char>, inc: usize, replies: Seq<Reply>, pos: nat)
    requires
        0 <= ci < t.len(),
        ki >= 0,
    ensures
        ({
            let out = spec_fill_column(t, ci, keys, ki, prev, inc, replies, pos);
            &&& same_cells(t, out.0)
            &&& forall|j: int| #![trigger out.0[j]] 0 <= j < t.len() && j != ci ==> out.0[j].resolved == t[j].resolved
            &&& forall|k: u32| t[ci].resolved.contains_key(k) ==> #[trigger] out.0[ci].resolved.contains_key(k)
            &&& out.1 is Ok ==> forall|m: int| ki <= m < keys.len() ==> out.0[ci].resolved.contains_key(#[trigger] keys[m])
        }),
    decreases keys.len() - ki,
{
    if ki < keys.len() {
        let row = keys[ki];
        let cell = t[ci].cells[row];
        let step = if cell == "=^^"@ {
            if row == 0 {
                None
            } else {
                match spec_increase_column_digits(prev, (row - 1) as u32) {
                    None => None,
                    Some(source) => Some((source, prev)),
                }
            }
        } else {
            Some((cell, cell))
        };
        if let Some((source, next_prev)) = step {
            if let Ok((v, i, p)) = spec_parse_string(t, source, row, inc, replies, pos) {
                let u = with_value(t, ci, row, v);
                lemma_fill_column(u, ci, keys, ki + 1, next_prev, i, replies, p);
                let out = spec_fill_column(u, ci, keys, ki + 1, next_prev, i, replies, p);
                assert(spec_fill_column(t, ci, keys, ki, prev, inc, replies, pos) == out);
                assert forall|j: int| #![trigger out.0[j]] 0 <= j < t.len() implies out.0[j].name == t[j].name && out.0[j].letter == t[j].letter && out.0[j].cells == t[j].cells by {
                    assert(out.0[j].name == u[j].name);
                }
                assert forall|k: u32| t[ci].resolved.contains_key(k) implies #[trigger] out.0[ci].resolved.contains_key(k) by {
                    assert(u[ci].resolved.contains_key(k));
                }
                if out.1 is Ok {
                    assert forall|m: int| ki <= m < keys.len() implies out.0[ci].resolved.contains_key(#[trigger] keys[m]) by {
                        if m == ki {
                            assert(u[ci].resolved.contains_key(row));
                        }
                    }
                }
                assert forall|j: int| #![trigger out.0[j]] 0 <= j < t.len() && j != ci implies out.0[j].resolved == t[j].resolved by {
                    assert(u[j] == t[j]);
                }
            }
        }
    }
}

proof fn lemma_fill_columns(t: Seq<ColumnView>, n: nat, ci: int, inc: usize, replies: Seq<Reply>, pos: nat)
    requires
        n <= t.len(),
        0 <= ci,
        forall|i: int| 0 <= i < t.len() ==> (#[trigger] t[i]).cells.dom().finite(),
    ensures
        ({
            let out = spec_fill_columns(t, n, ci, inc, replies, pos);
            &&& same_cells(t, out.0)
            &&& forall|j: int, k: u32| 0 <= j < t.len() && t[j].resolved.contains_key(k) ==> #[trigger] out.0[j].resolved.contains_key(k)
            &&& out.1 is Ok ==> forall|j: int, k: u32| ci <= j < n && t[j].cells.contains_key(k) ==> #[trigger] out.0[j].resolved.contains_key(k)
        }),
    decreases n - ci,
{
    if ci < n {
        let keys = sorted_keys(t[ci].cells.dom());
        lemma_sorted_keys_exist(t[ci].cells.dom());
        lemma_fill_column(t, ci, keys, 0, Seq::empty(), inc, replies, pos);
        let filled = spec_fill_column(t, ci, keys, 0, Seq::empty(), inc, replies, pos);
        let u = filled.0;
        assert forall|i: int| 0 <= i < u.len() implies (#[trigger] u[i]).cells.dom().finite() by {
            assert(u[i].cells == t[i].cells);
        }
        if let Ok((i, p)) = filled.1 {
            lemma_fill_columns(u, n, ci + 1, i, replies, p);
            let out = spec_fill_columns(u, n, ci + 1, i, replies, p);
            assert(spec_fill_columns(t, n, ci, inc, replies, pos) == out);
            assert forall|j: int| #![trigger out.0[j]] 0 <= j < t.len() implies out.0[j].name == t[j].name && out.0[j].letter == t[j].letter && out.0[j].cells == t[j].cells by {
                assert(out.0[j].name == u[j].name);
                assert(u[j].name == t[j].name);
            }
            assert forall|j: int, k: u32| 0 <= j < t.len() && t[j].resolved.contains_key(k) implies #[trigger] out.0[j].resolved.contains_key(k) by {
                if j == ci {
                    assert(u[j].resolved.contains_key(k));
                } else {
                    assert(u[j].resolved == t[j].resolved);
                }
            }
            if out.1 is Ok {
                assert forall|j: int, k: u32| ci <= j < n && t[j].cells.contains_key(k) implies #[trigger] out.0[j].resolved.contains_key(k) by {
                    if j == ci {
                        assert(keys.to_set().contains(k));
                        let m = choose|m: int| 0 <= m < keys.len() && keys[m] == k;
                        assert(u[ci].resolved.contains_key(keys[m]));
                    } else {
                        assert(u[j].cells == t[j].cells);
                    }
                }
            }
        } else {
            assert(spec_fill_columns(t, n, ci, inc, replies, pos).0 == u);
        }
    }
}

proof fn lemma_fill_column_only_keys(t: Seq<ColumnView>, ci: int, keys: Seq<u32>, ki: int, prev: Seq<char>, inc: usize, replies: Seq<Reply>, pos: nat)
    requires
        0 <= ci < t.len(),
        ki >= 0,
    ensures
        forall|k: u32| #[trigger] spec_fill_column(t, ci, keys, ki, prev, inc, replies, pos).0[ci].resolved.contains_key(k)
            ==> t[ci].resolved.contains_key(k) || exists|m: int| ki <= m < keys.len() && keys[m] == k,
    decreases keys.len() - ki,
{
    if ki < keys.len() {
        let row = keys[ki];
        let cell = t[ci].cells[row];
        let step = if cell == "=^^"@ {
            if row == 0 {
                None
            } else {
                match spec_increase_column_digits(prev, (row - 1) as u32) {
                    None => None,
                    Some(source) => Some((source, prev)),
                }
            }
        } else {
            Some((cell, cell))
        };
        if let Some((source, next_prev)) = step {
            if let Ok((v, i, p)) = spec_parse_string(t, source, row, inc, replies, pos) {
                let u = with_value(t, ci, row, v);
                lemma_fill_column_only_keys(u, ci, keys, ki + 1, next_prev, i, replies, p);
                let out = spec_fill_column(u, ci, keys, ki + 1, next_prev, i, replies, p).0;
                assert(spec_fill_column(t, ci, keys, ki, prev, inc, replies, pos).0 == out);
                assert forall|k: u32| #[trigger] out[ci].resolved.contains_key(k) implies t[ci].resolved.contains_key(k)
                    || exists|m: int| ki <= m < keys.len() && keys[m] == k by {
                    if !u[ci].resolved.contains_key(k) {
                        let m = choose|m: int| ki + 1 <= m < keys.len() && keys[m] == k;
                    } else if k == row {
                        assert(keys[ki] == k);
                    }
                }
            }
        }
    }
}

proof fn lemma_fill_columns_only_cells(t: Seq<ColumnView>, n: nat, ci: int, inc: usize, replies: Seq<Reply>, pos: nat)
    requires
        0 <= ci,
        forall|i: int| 0 <= i < t.len() ==> (#[trigger] t[i]).cells.dom().finite(),
    ensures
        forall|j: int, k: u32|
            0 <= j < t.len() && #[trigger] spec_fill_columns(t, n, ci, inc, replies, pos).0[j].resolved.contains_key(k)
                ==> t[j].resolved.contains_key(k) || t[j].cells.contains_key(k),
    decreases n - ci,
{
    if 0 <= ci < n && ci < t.len() {
        let keys = sorted_keys(t[ci].cells.dom());
        lemma_sorted_keys_exist(t[ci].cells.dom());
        lemma_fill_column(t, ci, keys, 0, Seq::empty(), inc, replies, pos);
        lemma_fill_column_only_keys(t, ci, keys, 0, Seq::empty(), inc, replies, pos);
        let filled = spec_fill_column(t, ci, keys, 0, Seq::empty(), inc, replies, pos);
        let u = filled.0;
        assert forall|i: int| 0 <= i < u.len() implies (#[trigger] u[i]).cells.dom().finite() by {
            assert(u[i].cells == t[i].cells);
        }
        if let Ok((i, p)) = filled.1 {
            lemma_fill_columns_only_cells(u, n, ci + 1, i, replies, p);
            let out = spec_fill_columns(u, n, ci + 1, i, replies, p).0;
            assert(spec_fill_columns(t, n, ci, inc, replies, pos).0 == out);
            assert forall|j: int, k: u32| 0 <= j < t.len() && #[trigger] out[j].resolved.contains_key(k)
                implies t[j].resolved.contains_key(k) || t[j].cells.contains_key(k) by {
                assert(u[j].cells == t[j].cells);
                if j == ci && !t[j].resolved.contains_key(k) && u[j].resolved.contains_key(k) {
                    let m = choose|m: int| 0 <= m < keys.len() && keys[m] == k;
                    assert(keys.to_set().contains(keys[m]));
                } else if j != ci {
                    assert(u[j].resolved == t[j].resolved);
                }
            }
        } else {
            assert forall|j: int, k: u32| 0 <= j < t.len() && #[trigger] u[j].resolved.contains_key(k)
                implies t[j].resolved.contains_key(k) || t[j].cells.contains_key(k) by {
                if j == ci && !t[j].resolved.contains_key(k) {
                    let m = choose|m: int| 0 <= m < keys.len() && keys[m] == k;
                    assert(keys.to_set().contains(keys[m]));
                } else if j != ci {
                    assert(u[j].resolved == t[j].resolved);
                }
            }
        }
    }
}

/// Filling a sheet whose values all sit at rows that hold a cell (a sheet just
/// read holds none) gives values only at such rows; when the fill goes
/// through, each column holds a value at exactly the rows of its cells.
pub proof fn law_completed_fill_values_exactly_cells(t: Seq<ColumnView>, replies: Seq<Reply>)
    requires
        forall|i: int| 0 <= i < t.len() ==> (#[trigger] t[i]).cells.dom().finite(),
        forall|j: int, k: u32| 0 <= j < t.len() && #[trigger] t[j].resolved.contains_key(k) ==> t[j].cells.contains_key(k),
    ensures
        forall|j: int, k: u32|
            0 <= j < t.len() && #[trigger] spec_fill_data(t, replies).0[j].resolved.contains_key(k) ==> t[j].cells.contains_key(k),
        spec_fill_data(t, replies).1 is Ok ==> forall|j: int|
            0 <= j < t.len() ==> (#[trigger] spec_fill_data(t, replies).0[j]).resolved.dom() == t[j].cells.dom(),
{
    lemma_fill_columns(t, t.len(), 0, 0, replies, 0);
    lemma_fill_columns_only_cells(t, t.len(), 0, 0, replies, 0);
    let out = spec_fill_data(t, replies).0;
    if spec_fill_data(t, replies).1 is Ok {
        assert forall|j: int| 0 <= j < t.len() implies (#[trigger] out[j]).resolved.dom() == t[j].cells.dom() by {
            assert(out[j].resolved.dom() =~= t[j].cells.dom());
        }
    }
}

/// Filling keeps every column's name, letter and cells, and when it goes
/// through, every cell has a value.
pub proof fn law_fill_gives_every_cell_a_value(t: Seq<ColumnView>, replies: Seq<Reply>)
    requires
        forall|i: int| 0 <= i < t.len() ==> (#[trigger] t[i]).cells.dom().finite(),
    ensures
        same_cells(t, spec_fill_data(t, replies).0),
        spec_fill_data(t, replies).1 is Ok ==> forall|j: int, k: u32|
            0 <= j < t.len() && t[j].cells.contains_key(k) ==> #[trigger] spec_fill_data(t, replies).0[j].resolved.contains_key(k),
{
    lemma_fill_columns(t, t.len(), 0, 0, replies, 0);
}

} // verus!
