//! Laws of formula evaluation and of filling, proved over `semantics`.

use vstd::prelude::*;
use crate::semantics::{
    spec_call_function, spec_curly, spec_reduce, spec_revaluate, spec_scan, spec_execute,
    spec_column_reference, letter_run, digit_run, quote_run, lemma_runs_bounded, spec_resolve_literal_at, spec_parse_string,
    spec_fill_column, spec_fill_columns, spec_fill_data, with_value, same_cells, law_fill_gives_every_cell_a_value,
};
use crate::regex_helpers::spec_increase_column_digits;
use crate::keys::{sorted_keys, lemma_sorted_keys_exist, strictly_increasing};
use crate::numbers::Reply;
use crate::str_utils::name_run;
use crate::text::{is_upper, is_letter, is_digit};
use crate::table::{
    ItemView, LiteralView, ColumnView, spec_coordinate, last_value_from,
    spec_cell_by_index, name_index, name_index_from,
};
use crate::keys::max_key;

verus! {

/// No item of the stack is the token `incFrom`.
pub open spec fn no_inc_from_token(st: Seq<ItemView>) -> bool {
    forall|j: int| 0 <= j < st.len() ==> #[trigger] st[j] != ItemView::Token("incFrom"@)
}

/// Whether reading the formula `s` from position `i` on meets the name
/// `incFrom`: the positions are those at which evaluation starts an item, and
/// a name is a run of letters read there.
pub open spec fn names_inc_from(s: Seq<char>, i: int) -> bool
    decreases s.len() + 1 - i,
{
    if i < 0 || i >= s.len() {
        false
    } else {
        let c = s[i];
        proof {
            lemma_runs_bounded(s, i + 1);
        }
        if is_upper(c) && i + 1 >= s.len() {
            false
        } else if is_upper(c) && !is_letter(s[i + 1]) {
            if s[i + 1] == '^' && i + 2 < s.len() && s[i + 2] == 'v' {
                names_inc_from(s, i + 3)
            } else {
                names_inc_from(s, i + 2)
            }
        } else if is_letter(c) {
            let k = letter_run(s, i + 1);
            s.subrange(i, i + k + 1) == "incFrom"@ || names_inc_from(s, i + k + 1)
        } else if is_digit(c) {
            names_inc_from(s, i + digit_run(s, i + 1) + 1)
        } else if c == '"' {
            names_inc_from(s, i + quote_run(s, i + 1) + 2)
        } else if c == '@' {
            names_inc_from(s, i + name_run(s, i + 1) + 1)
        } else {
            names_inc_from(s, i + 1)
        }
    }
}

proof fn lemma_no_token_drop(st: Seq<ItemView>)
    requires
        no_inc_from_token(st),
        st.len() > 0,
    ensures
        no_inc_from_token(st.drop_last()),
{
    assert forall|j: int| 0 <= j < st.drop_last().len() implies #[trigger] st.drop_last()[j] != ItemView::Token("incFrom"@) by {
        assert(st.drop_last()[j] == st[j]);
    }
}

proof fn lemma_no_token_push(st: Seq<ItemView>, x: ItemView)
    requires
        no_inc_from_token(st),
        x != ItemView::Token("incFrom"@),
    ensures
        no_inc_from_token(st.push(x)),
{
    assert forall|j: int| 0 <= j < st.push(x).len() implies #[trigger] st.push(x)[j] != ItemView::Token("incFrom"@) by {
        if j < st.len() {
            assert(st.push(x)[j] == st[j]);
        }
    }
}

proof fn lemma_call_keeps_counter(name: Seq<char>, args: Seq<LiteralView>, inc: usize, replies: Seq<Reply>, pos: nat)
    requires
        name != "incFrom"@,
    ensures
        spec_call_function(name, args, inc, replies, pos) matches Ok((_, i, _)) ==> i == inc,
{
}

proof fn lemma_curly_keeps_counter(stack: Seq<ItemView>, operands: Seq<LiteralView>, inc: usize, replies: Seq<Reply>, pos: nat)
    requires
        no_inc_from_token(stack),
    ensures
        spec_curly(stack, operands, inc, replies, pos) matches Ok((st, i, _)) ==> i == inc && no_inc_from_token(st),
    decreases stack.len(),
{
    if stack.len() > 0 {
        let rest = stack.drop_last();
        lemma_no_token_drop(stack);
        match stack.last() {
            ItemView::Literal(v) => {
                lemma_curly_keeps_counter(rest, operands.push(v), inc, replies, pos);
            },
            ItemView::ZoneStart(c) => {
                if c == '(' && rest.len() > 0 && rest.last() is Token {
                    assert(rest[rest.len() - 1] != ItemView::Token("incFrom"@));
                    lemma_call_keeps_counter(rest.last()->Token_0, operands, inc, replies, pos);
                    lemma_no_token_drop(rest);
                    if let Ok((v, i, p)) = spec_call_function(rest.last()->Token_0, operands, inc, replies, pos) {
                        lemma_no_token_push(rest.drop_last(), ItemView::Literal(v));
                    }
                } else if c == '(' && operands.len() == 1 {
                    lemma_no_token_push(rest, ItemView::Literal(operands[0]));
                }
            },
            ItemView::Operator(op) => {
                if rest.len() > 0 {
                    if let ItemView::Literal(left) = rest.last() {
                        lemma_no_token_drop(rest);
                        if let Ok((r, p)) = crate::semantics::spec_arithmetic(op, operands.push(left), replies, pos) {
                            let next = rest.drop_last().push(ItemView::Literal(r));
                            lemma_no_token_push(rest.drop_last(), ItemView::Literal(r));
                            lemma_curly_keeps_counter(next, Seq::empty(), inc, replies, p);
                        }
                    }
                }
            },
            _ => {},
        }
    }
}

proof fn lemma_reduce_keeps_counter(stack: Seq<ItemView>, inc: usize, replies: Seq<Reply>, pos: nat)
    requires
        no_inc_from_token(stack),
    ensures
        spec_reduce(stack, inc, replies, pos) matches Ok((_, i, _)) ==> i == inc,
    decreases stack.len(),
{
    if stack.len() > 1 {
        let wrapped = seq![ItemView::ZoneStart('(')] + stack;
        assert forall|j: int| 0 <= j < wrapped.len() implies #[trigger] wrapped[j] != ItemView::Token("incFrom"@) by {
            if j > 0 {
                assert(wrapped[j] == stack[j - 1]);
            }
        }
        lemma_curly_keeps_counter(wrapped, Seq::empty(), inc, replies, pos);
        if let Ok((st, i, p)) = spec_curly(wrapped, Seq::empty(), inc, replies, pos) {
            if st.len() < stack.len() {
                lemma_reduce_keeps_counter(st, i, replies, p);
            }
        }
    }
}

proof fn lemma_revaluate_keeps_counter(t: Seq<ColumnView>, stack: Seq<ItemView>, inc: usize, replies: Seq<Reply>, pos: nat)
    requires
        no_inc_from_token(stack),
    ensures
        spec_revaluate(t, stack, inc, replies, pos) matches Ok((st, i, _)) ==> i == inc && no_inc_from_token(st),
{
    if stack.len() > 0 {
        let s0 = stack.drop_last();
        lemma_no_token_drop(stack);
        if s0.len() >= 3 {
            let s1 = s0.drop_last();
            lemma_no_token_drop(s0);
            let s2 = s1.drop_last();
            lemma_no_token_drop(s1);
            let s3 = s2.drop_last();
            lemma_no_token_drop(s2);
            if let Ok(st) = spec_column_reference(t, s0) {
                let v = st.last();
                assert(st == s3.push(v));
                lemma_no_token_push(s3, v);
            }
        }
        lemma_curly_keeps_counter(s0, Seq::empty(), inc, replies, pos);
    }
}

proof fn lemma_scan_keeps_counter(
    t: Seq<ColumnView>,
    s: Seq<char>,
    i: int,
    row: u32,
    stack: Seq<ItemView>,
    inc: usize,
    replies: Seq<Reply>,
    pos: nat,
)
    requires
        0 <= i,
        !names_inc_from(s, i),
        no_inc_from_token(stack),
    ensures
        spec_scan(t, s, i, row, stack, inc, replies, pos) matches Ok((_, i2, _)) ==> i2 == inc,
    decreases s.len() + 1 - i,
{
    reveal_strlit("incFrom");
    if i >= s.len() {
        lemma_reduce_keeps_counter(stack, inc, replies, pos);
    } else {
        let c = s[i];
        lemma_runs_bounded(s, i + 1);
        if crate::text::is_upper(c) && i + 1 >= s.len() {
        } else if crate::text::is_upper(c) && !crate::text::is_letter(s[i + 1]) {
            if let Ok((v, len)) = crate::semantics::spec_resolve_literal_at(t, s, i, row) {
                if len >= 1 {
                    lemma_no_token_push(stack, ItemView::Literal(v));
                    lemma_scan_keeps_counter(t, s, i + len, row, stack.push(ItemView::Literal(v)), inc, replies, pos);
                }
            }
        } else if crate::text::is_letter(c) {
            let k = letter_run(s, i + 1);
            let tok = s.subrange(i, i + k + 1);
            lemma_no_token_push(stack, ItemView::Token(tok));
            lemma_scan_keeps_counter(t, s, i + k + 1, row, stack.push(ItemView::Token(tok)), inc, replies, pos);
        } else if crate::text::is_digit(c) {
            let k = crate::semantics::digit_run(s, i + 1);
            let v = crate::text::digits_value(s.subrange(i, i + k + 1));
            if v <= usize::MAX {
                let x = ItemView::Literal(crate::table::count_value(v as usize));
                lemma_no_token_push(stack, x);
                lemma_scan_keeps_counter(t, s, i + k + 1, row, stack.push(x), inc, replies, pos);
            }
        } else if c == '(' || c == '<' {
            lemma_no_token_push(stack, ItemView::ZoneStart(c));
            lemma_scan_keeps_counter(t, s, i + 1, row, stack.push(ItemView::ZoneStart(c)), inc, replies, pos);
        } else if c == ')' || c == '>' {
            let pushed = stack.push(ItemView::ZoneEnd(c));
            lemma_no_token_push(stack, ItemView::ZoneEnd(c));
            lemma_revaluate_keeps_counter(t, pushed, inc, replies, pos);
            if let Ok((st, i2, p2)) = spec_revaluate(t, pushed, inc, replies, pos) {
                lemma_scan_keeps_counter(t, s, i + 1, row, st, i2, replies, p2);
            }
        } else if c == '"' {
            let k = crate::semantics::quote_run(s, i + 1);
            let x = ItemView::Literal(crate::table::text_value(s.subrange(i + 1, i + 1 + k)));
            lemma_no_token_push(stack, x);
            lemma_scan_keeps_counter(t, s, i + k + 2, row, stack.push(x), inc, replies, pos);
        } else if c == '@' {
            let k = crate::str_utils::name_run(s, i + 1);
            let tok = s.subrange(i, i + k + 1);
            assert(tok[0] == '@');
            assert("incFrom"@[0] == 'i');
            lemma_no_token_push(stack, ItemView::Token(tok));
            lemma_scan_keeps_counter(t, s, i + k + 1, row, stack.push(ItemView::Token(tok)), inc, replies, pos);
        } else if c == ' ' || c == ',' {
            lemma_scan_keeps_counter(t, s, i + 1, row, stack, inc, replies, pos);
        } else if crate::semantics::is_operator(c) {
            lemma_no_token_push(stack, ItemView::Operator(c));
            lemma_scan_keeps_counter(t, s, i + 1, row, stack.push(ItemView::Operator(c)), inc, replies, pos);
        }
    }
}

/// Evaluating a formula in which no name `incFrom` is read leaves the
/// `incFrom` counter as it was: only a call of `incFrom` moves it. A text in
/// quotes, or a longer name such as `xincFrom`, is no such name.
pub proof fn law_formula_without_inc_from_keeps_counter(
    t: Seq<ColumnView>,
    s: Seq<char>,
    row: u32,
    inc: usize,
    replies: Seq<Reply>,
    pos: nat,
)
    requires
        !names_inc_from(s, 0),
    ensures
        spec_execute(t, s, row, inc, replies, pos) matches Ok((_, i, _)) ==> i == inc,
{
    lemma_scan_keeps_counter(t, s, 0, row, Seq::empty(), inc, replies, pos);
}


/// `a` is `b` with some values not there yet: the same columns, with the same
/// names, letters and cells; every value of `a` is the value of `b` there; and
/// a column to the left of one that holds a value in `a` holds all its values
/// of `b` already.
pub open spec fn settled_within(a: Seq<ColumnView>, b: Seq<ColumnView>) -> bool {
    &&& a.len() == b.len()
    &&& forall|j: int|
        #![trigger a[j]]
        0 <= j < a.len() ==> a[j].name == b[j].name && a[j].letter == b[j].letter && a[j].cells == b[j].cells
    &&& forall|j: int, k: u32|
        0 <= j < a.len() && #[trigger] a[j].resolved.contains_key(k) ==> b[j].resolved.contains_key(k)
            && b[j].resolved[k] == a[j].resolved[k]
    &&& forall|i: int, j: int, k: u32|
        #![trigger a[j].resolved.contains_key(k), a[i]]
        0 <= i < j < a.len() && a[j].resolved.contains_key(k) ==> a[i].resolved == b[i].resolved
}

proof fn lemma_coordinate_settled(a: Seq<ColumnView>, b: Seq<ColumnView>, letter: char, row: u32, from: int)
    requires
        settled_within(a, b),
        0 <= from,
    ensures
        spec_coordinate(a, letter, row, from) is Some ==> spec_coordinate(b, letter, row, from) == spec_coordinate(a, letter, row, from)
            && exists|j: int| from <= j < a.len() && #[trigger] a[j].resolved.contains_key(row),
    decreases a.len() - from,
{
    if from < a.len() {
        lemma_coordinate_settled(a, b, letter, row, from + 1);
        assert(a[from].letter == b[from].letter);
        if a[from].letter == letter && a[from].resolved.contains_key(row) {
        } else if spec_coordinate(a, letter, row, from) is Some {
            let j = choose|j: int| from + 1 <= j < a.len() && #[trigger] a[j].resolved.contains_key(row);
            assert(a[from].resolved == b[from].resolved);
        }
    }
}

proof fn lemma_last_value_settled(
    a: Seq<ColumnView>,
    b: Seq<ColumnView>,
    letter: char,
    from: int,
    best: u32,
    found: Option<LiteralView>,
)
    requires
        settled_within(a, b),
        0 <= from,
    ensures
        last_value_from(a, letter, from, best, found) is Some ==> last_value_from(b, letter, from, best, found)
            == last_value_from(a, letter, from, best, found),
    decreases a.len() - from,
{
    if from < a.len() {
        assert(a[from].letter == b[from].letter && a[from].cells == b[from].cells);
        let k = max_key(a[from].cells.dom());
        if a[from].resolved.contains_key(k) {
            lemma_last_value_settled(a, b, letter, from + 1, k, Some(a[from].resolved[k]));
        }
        lemma_last_value_settled(a, b, letter, from + 1, best, found);
    }
}

proof fn lemma_name_index_settled(a: Seq<ColumnView>, b: Seq<ColumnView>, name: Seq<char>, from: int)
    requires
        settled_within(a, b),
    ensures
        name_index_from(b, name, from) == name_index_from(a, name, from),
    decreases a.len() - from,
{
    if 0 <= from < a.len() {
        assert(a[from].name == b[from].name);
        lemma_name_index_settled(a, b, name, from + 1);
    }
}

proof fn lemma_resolve_settled(a: Seq<ColumnView>, b: Seq<ColumnView>, s: Seq<char>, i: int, row: u32)
    requires
        settled_within(a, b),
        0 <= i < s.len(),
    ensures
        spec_resolve_literal_at(a, s, i, row) is Ok ==> spec_resolve_literal_at(b, s, i, row) == spec_resolve_literal_at(a, s, i, row),
{
    if i + 1 < s.len() {
        lemma_coordinate_settled(a, b, s[i], crate::text::digit_value(s[i + 1]) as u32, 0);
        if row > 0 {
            lemma_coordinate_settled(a, b, s[i], (row - 1) as u32, 0);
        }
        lemma_last_value_settled(a, b, s[i], 0, 0, None);
    }
}

proof fn lemma_column_reference_settled(a: Seq<ColumnView>, b: Seq<ColumnView>, stack: Seq<ItemView>)
    requires
        settled_within(a, b),
    ensures
        spec_column_reference(a, stack) is Ok ==> spec_column_reference(b, stack) == spec_column_reference(a, stack),
{
    if stack.len() >= 3 {
        let s2 = stack.drop_last().drop_last();
        if let ItemView::Token(token) = s2.last() {
            if token.len() > 0 {
                lemma_name_index_settled(a, b, token.drop_first(), 0);
                crate::table::lemma_name_index_from(a, token.drop_first(), 0);
                if let Some(ci) = name_index(a, token.drop_first()) {
                    assert(a[ci].cells == b[ci].cells);
                    if let ItemView::Literal(v) = stack.last() {
                        if let Some(index) = v.count {
                            let keys = crate::keys::sorted_keys(a[ci].cells.dom());
                            if index >= 1 && index - 1 < keys.len() && a[ci].resolved.contains_key(keys[index - 1]) {
                                assert(b[ci].resolved.contains_key(keys[index - 1]));
                            }
                        }
                    }
                }
            }
        }
    }
}

proof fn lemma_revaluate_settled(a: Seq<ColumnView>, b: Seq<ColumnView>, stack: Seq<ItemView>, inc: usize, replies: Seq<Reply>, pos: nat)
    requires
        settled_within(a, b),
    ensures
        spec_revaluate(a, stack, inc, replies, pos) is Ok ==> spec_revaluate(b, stack, inc, replies, pos) == spec_revaluate(a, stack, inc, replies, pos),
{
    if stack.len() > 0 {
        lemma_column_reference_settled(a, b, stack.drop_last());
    }
}

proof fn lemma_scan_settled(
    a: Seq<ColumnView>,
    b: Seq<ColumnView>,
    s: Seq<char>,
    i: int,
    row: u32,
    stack: Seq<ItemView>,
    inc: usize,
    replies: Seq<Reply>,
    pos: nat,
)
    requires
        settled_within(a, b),
        0 <= i,
    ensures
        spec_scan(a, s, i, row, stack, inc, replies, pos) is Ok ==> spec_scan(b, s, i, row, stack, inc, replies, pos)
            == spec_scan(a, s, i, row, stack, inc, replies, pos),
    decreases s.len() + 1 - i,
{
    if i < s.len() {
        let c = s[i];
        lemma_runs_bounded(s, i + 1);
        if crate::text::is_upper(c) && i + 1 >= s.len() {
        } else if crate::text::is_upper(c) && !crate::text::is_letter(s[i + 1]) {
            lemma_resolve_settled(a, b, s, i, row);
            if let Ok((v, len)) = spec_resolve_literal_at(a, s, i, row) {
                if len >= 1 {
                    lemma_scan_settled(a, b, s, i + len, row, stack.push(ItemView::Literal(v)), inc, replies, pos);
                }
            }
        } else if crate::text::is_letter(c) {
            let k = letter_run(s, i + 1);
            lemma_scan_settled(a, b, s, i + k + 1, row, stack.push(ItemView::Token(s.subrange(i, i + k + 1))), inc, replies, pos);
        } else if crate::text::is_digit(c) {
            let k = crate::semantics::digit_run(s, i + 1);
            let v = crate::text::digits_value(s.subrange(i, i + k + 1));
            if v <= usize::MAX {
                let x = ItemView::Literal(crate::table::count_value(v as usize));
                lemma_scan_settled(a, b, s, i + k + 1, row, stack.push(x), inc, replies, pos);
            }
        } else if c == '(' || c == '<' {
            lemma_scan_settled(a, b, s, i + 1, row, stack.push(ItemView::ZoneStart(c)), inc, replies, pos);
        } else if c == ')' || c == '>' {
            let pushed = stack.push(ItemView::ZoneEnd(c));
            lemma_revaluate_settled(a, b, pushed, inc, replies, pos);
            if let Ok((st, i2, p2)) = spec_revaluate(a, pushed, inc, replies, pos) {
                lemma_scan_settled(a, b, s, i + 1, row, st, i2, replies, p2);
            }
        } else if c == '"' {
            let k = crate::semantics::quote_run(s, i + 1);
            let x = ItemView::Literal(crate::table::text_value(s.subrange(i + 1, i + 1 + k)));
            lemma_scan_settled(a, b, s, i + k + 2, row, stack.push(x), inc, replies, pos);
        } else if c == '@' {
            let k = crate::str_utils::name_run(s, i + 1);
            lemma_scan_settled(a, b, s, i + k + 1, row, stack.push(ItemView::Token(s.subrange(i, i + k + 1))), inc, replies, pos);
        } else if c == ' ' || c == ',' {
            lemma_scan_settled(a, b, s, i + 1, row, stack, inc, replies, pos);
        } else if crate::semantics::is_operator(c) {
            lemma_scan_settled(a, b, s, i + 1, row, stack.push(ItemView::Operator(c)), inc, replies, pos);
        }
    }
}

proof fn lemma_parse_settled(a: Seq<ColumnView>, b: Seq<ColumnView>, cell: Seq<char>, row: u32, inc: usize, replies: Seq<Reply>, pos: nat)
    requires
        settled_within(a, b),
    ensures
        spec_parse_string(a, cell, row, inc, replies, pos) is Ok ==> spec_parse_string(b, cell, row, inc, replies, pos)
            == spec_parse_string(a, cell, row, inc, replies, pos),
{
    lemma_scan_settled(a, b, cell.drop_first(), 0, row, Seq::empty(), inc, replies, pos);
}


proof fn lemma_fill_column_frame(
    t: Seq<ColumnView>,
    ci: int,
    keys: Seq<u32>,
    ki: int,
    prev: Seq<char>,
    inc: usize,
    replies: Seq<Reply>,
    pos: nat,
)
    requires
        0 <= ci < t.len(),
        ki >= 0,
    ensures
        ({
            let out = spec_fill_column(t, ci, keys, ki, prev, inc, replies, pos).0;
            &&& out.len() == t.len()
            &&& forall|j: int| #![trigger out[j]] 0 <= j < t.len() && j != ci ==> out[j] == t[j]
            &&& out[ci].name == t[ci].name && out[ci].letter == t[ci].letter && out[ci].cells == t[ci].cells
            &&& forall|k: u32|
                (forall|m: int| ki <= m < keys.len() ==> keys[m] != k) ==> (#[trigger] out[ci].resolved.contains_key(k)
                    == t[ci].resolved.contains_key(k) && (t[ci].resolved.contains_key(k) ==> out[ci].resolved[k]
                    == t[ci].resolved[k]))
        }),
    decreases keys.len() - ki,
{
    if ki < keys.len() {
        let row = keys[ki];
        let cell = t[ci].cells[row];
        let step = if cell == "=^^"@ {
            if row == 0 {
                None
            } else {
                match spec_increase_column_digits(prev, (row - 1) as u32) {
                    None => None,
                    Some(source) => Some((source, prev)),
                }
            }
        } else {
            Some((cell, cell))
        };
        if let Some((source, next_prev)) = step {
            if let Ok((v, i, p)) = spec_parse_string(t, source, row, inc, replies, pos) {
                let u = with_value(t, ci, row, v);
                lemma_fill_column_frame(u, ci, keys, ki + 1, next_prev, i, replies, p);
                let out = spec_fill_column(u, ci, keys, ki + 1, next_prev, i, replies, p).0;
                assert(spec_fill_column(t, ci, keys, ki, prev, inc, replies, pos).0 == out);
                assert forall|j: int| #![trigger out[j]] 0 <= j < t.len() && j != ci implies out[j] == t[j] by {
                    assert(u[j] == t[j]);
                }
                assert forall|k: u32|
                    (forall|m: int| ki <= m < keys.len() ==> keys[m] != k) implies (#[trigger] out[ci].resolved.contains_key(k)
                        == t[ci].resolved.contains_key(k) && (t[ci].resolved.contains_key(k) ==> out[ci].resolved[k]
                        == t[ci].resolved[k])) by {
                    assert(keys[ki] != k);
                    assert(forall|m: int| ki + 1 <= m < keys.len() ==> keys[m] != k);
                }
            }
        }
    }
}

proof fn lemma_fill_columns_frame(t: Seq<ColumnView>, n: nat, ci: int, inc: usize, replies: Seq<Reply>, pos: nat)
    requires
        0 <= ci,
    ensures
        spec_fill_columns(t, n, ci, inc, replies, pos).0.len() == t.len(),
        forall|j: int|
            0 <= j < ci && j < t.len() ==> #[trigger] spec_fill_columns(t, n, ci, inc, replies, pos).0[j] == t[j],
    decreases n - ci,
{
    if ci < n && ci < t.len() {
        let keys = sorted_keys(t[ci].cells.dom());
        lemma_fill_column_frame(t, ci, keys, 0, Seq::empty(), inc, replies, pos);
        let filled = spec_fill_column(t, ci, keys, 0, Seq::empty(), inc, replies, pos);
        if let Ok((i, p)) = filled.1 {
            lemma_fill_columns_frame(filled.0, n, ci + 1, i, replies, p);
            let out = spec_fill_columns(filled.0, n, ci + 1, i, replies, p).0;
            assert forall|j: int| 0 <= j < ci && j < t.len() implies #[trigger] spec_fill_columns(t, n, ci, inc, replies, pos).0[j] == t[j] by {
                assert(out[j] == filled.0[j]);
                assert(filled.0[j] == t[j]);
            }
        } else {
            assert forall|j: int| 0 <= j < ci && j < t.len() implies #[trigger] spec_fill_columns(t, n, ci, inc, replies, pos).0[j] == t[j] by {
                assert(filled.0[j] == t[j]);
            }
        }
    }
}

/// The state of a first fill, `s`, while it works on column `ci`, against the
/// sheet `f` it ends with.
pub open spec fn filling_toward(s: Seq<ColumnView>, f: Seq<ColumnView>, ci: int) -> bool {
    &&& s.len() == f.len()
    &&& forall|j: int|
        #![trigger s[j]]
        0 <= j < s.len() ==> s[j].name == f[j].name && s[j].letter == f[j].letter && s[j].cells == f[j].cells
    &&& forall|j: int| #![trigger s[j]] 0 <= j < ci && j < s.len() ==> s[j].resolved == f[j].resolved
    &&& forall|j: int| #![trigger s[j]] ci < j < s.len() ==> s[j].resolved == Map::<u32, LiteralView>::empty()
}

proof fn lemma_filling_settled(s: Seq<ColumnView>, f: Seq<ColumnView>, ci: int)
    requires
        0 <= ci < s.len(),
        filling_toward(s, f, ci),
        forall|k: u32| #[trigger] s[ci].resolved.contains_key(k) ==> f[ci].resolved.contains_key(k) && f[ci].resolved[k]
            == s[ci].resolved[k],
    ensures
        settled_within(s, f),
{
    assert forall|j: int, k: u32| 0 <= j < s.len() && #[trigger] s[j].resolved.contains_key(k) implies f[j].resolved.contains_key(k)
        && f[j].resolved[k] == s[j].resolved[k] by {
        if j < ci {
            assert(s[j].resolved == f[j].resolved);
        } else if j > ci {
            assert(s[j].resolved == Map::<u32, LiteralView>::empty());
        }
    }
    assert forall|i: int, j: int, k: u32|
        #![trigger s[j].resolved.contains_key(k), s[i]]
        0 <= i < j < s.len() && s[j].resolved.contains_key(k) implies s[i].resolved == f[i].resolved by {
        if j > ci {
            assert(s[j].resolved == Map::<u32, LiteralView>::empty());
        }
    }
}

proof fn lemma_fill_column_again(
    s: Seq<ColumnView>,
    f: Seq<ColumnView>,
    ci: int,
    keys: Seq<u32>,
    ki: int,
    prev: Seq<char>,
    inc: usize,
    replies: Seq<Reply>,
    pos: nat,
)
    requires
        0 <= ci < s.len(),
        0 <= ki,
        filling_toward(s, f, ci),
        forall|k: u32| #[trigger] s[ci].resolved.contains_key(k) ==> f[ci].resolved.contains_key(k) && f[ci].resolved[k]
            == s[ci].resolved[k],
        strictly_increasing(keys),
        spec_fill_column(s, ci, keys, ki, prev, inc, replies, pos).1 is Ok,
        spec_fill_column(s, ci, keys, ki, prev, inc, replies, pos).0[ci].resolved == f[ci].resolved,
    ensures
        spec_fill_column(f, ci, keys, ki, prev, inc, replies, pos) == (f, spec_fill_column(s, ci, keys, ki, prev, inc, replies, pos).1),
    decreases keys.len() - ki,
{
    if ki < keys.len() {
        let row = keys[ki];
        assert(s[ci].cells == f[ci].cells);
        let cell = s[ci].cells[row];
        let step = if cell == "=^^"@ {
            if row == 0 {
                None
            } else {
                match spec_increase_column_digits(prev, (row - 1) as u32) {
                    None => None,
                    Some(source) => Some((source, prev)),
                }
            }
        } else {
            Some((cell, cell))
        };
        assert(step is Some);
        let (source, next_prev) = step->0;
        lemma_filling_settled(s, f, ci);
        lemma_parse_settled(s, f, source, row, inc, replies, pos);
        assert(spec_parse_string(s, source, row, inc, replies, pos) is Ok);
        let (v, i, p) = spec_parse_string(s, source, row, inc, replies, pos)->Ok_0;
        let u = with_value(s, ci, row, v);
        assert(spec_fill_column(s, ci, keys, ki, prev, inc, replies, pos) == spec_fill_column(u, ci, keys, ki + 1, next_prev, i, replies, p));
        lemma_fill_column_frame(u, ci, keys, ki + 1, next_prev, i, replies, p);
        assert(forall|m: int| ki + 1 <= m < keys.len() ==> keys[m] != row);
        assert(u[ci].resolved.contains_key(row) && u[ci].resolved[row] == v);
        let out = spec_fill_column(u, ci, keys, ki + 1, next_prev, i, replies, p).0;
        assert(out[ci].resolved.contains_key(row));
        assert(out[ci].resolved[row] == v);
        assert(f[ci].resolved.contains_key(row) && f[ci].resolved[row] == v);
        assert(f[ci].resolved.insert(row, v) =~= f[ci].resolved);
        assert(with_value(f, ci, row, v)[ci] =~= f[ci]);
        assert(with_value(f, ci, row, v) =~= f);
        assert(spec_fill_column(f, ci, keys, ki, prev, inc, replies, pos) == spec_fill_column(f, ci, keys, ki + 1, next_prev, i, replies, p));
        assert forall|j: int| #![trigger u[j]] 0 <= j < u.len() implies u[j].name == f[j].name && u[j].letter == f[j].letter && u[j].cells == f[j].cells by {
            assert(s[j].name == f[j].name);
        }
        assert forall|j: int| #![trigger u[j]] 0 <= j < ci && j < u.len() implies u[j].resolved == f[j].resolved by {
            assert(u[j] == s[j]);
        }
        assert forall|j: int| #![trigger u[j]] ci < j < u.len() implies u[j].resolved == Map::<u32, LiteralView>::empty() by {
            assert(u[j] == s[j]);
        }
        assert(filling_toward(u, f, ci));
        lemma_fill_column_again(u, f, ci, keys, ki + 1, next_prev, i, replies, p);
    }
}

proof fn lemma_fill_columns_again(s: Seq<ColumnView>, f: Seq<ColumnView>, ci: int, inc: usize, replies: Seq<Reply>, pos: nat)
    requires
        0 <= ci <= s.len(),
        filling_toward(s, f, ci),
        ci < s.len() ==> s[ci].resolved == Map::<u32, LiteralView>::empty(),
        forall|j: int| 0 <= j < s.len() ==> (#[trigger] s[j]).cells.dom().finite(),
        spec_fill_columns(s, s.len(), ci, inc, replies, pos).0 == f,
        spec_fill_columns(s, s.len(), ci, inc, replies, pos).1 is Ok,
    ensures
        spec_fill_columns(f, f.len(), ci, inc, replies, pos).0 == f,
        spec_fill_columns(f, f.len(), ci, inc, replies, pos).1 is Ok,
    decreases s.len() - ci,
{
    if ci < s.len() {
        assert(s[ci].cells == f[ci].cells);
        let keys = sorted_keys(s[ci].cells.dom());
        lemma_sorted_keys_exist(s[ci].cells.dom());
        let filled = spec_fill_column(s, ci, keys, 0, Seq::empty(), inc, replies, pos);
        lemma_fill_column_frame(s, ci, keys, 0, Seq::empty(), inc, replies, pos);
        assert(filled.1 is Ok);
        let (i, p) = filled.1->Ok_0;
        let u = filled.0;
        assert(spec_fill_columns(u, s.len(), ci + 1, i, replies, p) == spec_fill_columns(s, s.len(), ci, inc, replies, pos));
        lemma_fill_columns_frame(u, s.len(), ci + 1, i, replies, p);
        assert(f[ci] == u[ci]);
        lemma_fill_column_again(s, f, ci, keys, 0, Seq::empty(), inc, replies, pos);
        assert forall|j: int| #![trigger u[j]] 0 <= j < u.len() implies u[j].name == f[j].name && u[j].letter == f[j].letter && u[j].cells == f[j].cells by {
            assert(s[j].name == f[j].name);
            if j != ci {
                assert(u[j] == s[j]);
            }
        }
        assert forall|j: int| #![trigger u[j]] 0 <= j < ci + 1 && j < u.len() implies u[j].resolved == f[j].resolved by {
            if j != ci {
                assert(u[j] == s[j]);
            }
        }
        assert forall|j: int| #![trigger u[j]] ci + 1 < j < u.len() implies u[j].resolved == Map::<u32, LiteralView>::empty() by {
            assert(u[j] == s[j]);
        }
        if ci + 1 < u.len() {
            assert(u[ci + 1] == s[ci + 1]);
        }
        assert forall|j: int| 0 <= j < u.len() implies (#[trigger] u[j]).cells.dom().finite() by {
            assert(u[j].cells == s[j].cells);
        }
        lemma_fill_columns_again(u, f, ci + 1, i, replies, p);
    } else {
        assert(s =~= f) by {
            assert(spec_fill_columns(s, s.len(), ci, inc, replies, pos).0 == s);
        }
    }
}

/// Filling a sheet that holds no values yet and filling the filled sheet
/// again, with the same replies, gives the same values: the second fill goes
/// through and leaves the sheet as the first one left it.
pub proof fn law_filling_again_changes_nothing(t: Seq<ColumnView>, replies: Seq<Reply>)
    requires
        forall|i: int| 0 <= i < t.len() ==> (#[trigger] t[i]).resolved == Map::<u32, LiteralView>::empty(),
        forall|i: int| 0 <= i < t.len() ==> (#[trigger] t[i]).cells.dom().finite(),
        spec_fill_data(t, replies).1 is Ok,
    ensures
        spec_fill_data(spec_fill_data(t, replies).0, replies).0 == spec_fill_data(t, replies).0,
        spec_fill_data(spec_fill_data(t, replies).0, replies).1 is Ok,
{
    let f = spec_fill_data(t, replies).0;
    law_fill_gives_every_cell_a_value(t, replies);
    assert(same_cells(t, f));
    assert forall|j: int| #![trigger t[j]] 0 <= j < t.len() implies t[j].name == f[j].name && t[j].letter == f[j].letter && t[j].cells == f[j].cells by {
        assert(f[j].name == t[j].name);
    }
    assert(filling_toward(t, f, 0));
    lemma_fill_columns_again(t, f, 0, 0, replies, 0);
}

} // verus!
