//! How evaluation takes its replies: a run that did not stop to ask a question
//! comes out the same when more replies follow, so a run that stopped to ask
//! has taken every reply it was given.

use vstd::prelude::*;
use crate::semantics::{
    spec_call_function, spec_curly, spec_reduce, spec_revaluate, spec_scan,
    spec_parse_string, spec_parse_all, spec_arithmetic,
    spec_fill_column, spec_fill_columns, spec_fill_data, with_value, letter_run, digit_run,
    quote_run, lemma_runs_bounded, spec_resolve_literal_at,
};
use crate::numbers::{Reply, HaltView, QueryView, spec_number_reply, spec_parsed_reply, spec_truth_reply};
use crate::table::{ItemView, LiteralView, ColumnView};
use crate::keys::sorted_keys;
use crate::regex_helpers::spec_increase_column_digits;

verus! {

/// The outcome is no question: a result or a failure.
pub open spec fn not_asking<T>(r: Result<T, HaltView>) -> bool {
    !(r matches Err(HaltView::Ask(_)))
}

proof fn lemma_replies_extend(replies: Seq<Reply>, more: Seq<Reply>, pos: nat, q: QueryView)
    ensures
        not_asking(spec_number_reply(replies, pos, q)) ==> spec_number_reply(replies + more, pos, q) == spec_number_reply(replies, pos, q),
        not_asking(spec_parsed_reply(replies, pos, q)) ==> spec_parsed_reply(replies + more, pos, q) == spec_parsed_reply(replies, pos, q),
        not_asking(spec_truth_reply(replies, pos, q)) ==> spec_truth_reply(replies + more, pos, q) == spec_truth_reply(replies, pos, q),
{
    if pos < replies.len() {
        assert((replies + more)[pos as int] == replies[pos as int]);
    }
}

proof fn lemma_parse_all_extend(texts: Seq<Seq<char>>, i: int, acc: Seq<u32>, replies: Seq<Reply>, more: Seq<Reply>, pos: nat)
    ensures
        not_asking(spec_parse_all(texts, i, acc, replies, pos)) ==> spec_parse_all(texts, i, acc, replies + more, pos)
            == spec_parse_all(texts, i, acc, replies, pos),
    decreases texts.len() - i,
{
    if 0 <= i < texts.len() {
        let q = QueryView::ParseNumber(texts[i]);
        lemma_replies_extend(replies, more, pos, q);
        if let Ok((Some(x), p)) = spec_parsed_reply(replies, pos, q) {
            lemma_parse_all_extend(texts, i + 1, acc.push(x), replies, more, p);
        }
    }
}

proof fn lemma_call_extend(name: Seq<char>, args: Seq<LiteralView>, inc: usize, replies: Seq<Reply>, more: Seq<Reply>, pos: nat)
    ensures
        not_asking(spec_call_function(name, args, inc, replies, pos)) ==> spec_call_function(name, args, inc, replies + more, pos)
            == spec_call_function(name, args, inc, replies, pos),
{
    if args.len() >= 1 {
        if let Some(texts) = args[0].texts {
            lemma_parse_all_extend(texts, 0, Seq::empty(), replies, more, pos);
        }
        if let Some(v) = args[0].numbers {
            lemma_replies_extend(replies, more, pos, QueryView::Sum(v));
        }
    }
    if args.len() == 2 {
        if let (Some(a), Some(b)) = (args[1].number, args[0].number) {
            lemma_replies_extend(replies, more, pos, QueryView::AtLeast(a, b));
        }
    }
}

proof fn lemma_arithmetic_extend(op: char, args: Seq<LiteralView>, replies: Seq<Reply>, more: Seq<Reply>, pos: nat)
    ensures
        not_asking(spec_arithmetic(op, args, replies, pos)) ==> spec_arithmetic(op, args, replies + more, pos)
            == spec_arithmetic(op, args, replies, pos),
{
    if args.len() == 2 {
        if let (Some(a), Some(b)) = (args[0].number, args[1].number) {
            lemma_replies_extend(replies, more, pos, QueryView::Arithmetic(op, a, b));
        }
    }
}

proof fn lemma_curly_extend(stack: Seq<ItemView>, operands: Seq<LiteralView>, inc: usize, replies: Seq<Reply>, more: Seq<Reply>, pos: nat)
    ensures
        not_asking(spec_curly(stack, operands, inc, replies, pos)) ==> spec_curly(stack, operands, inc, replies + more, pos)
            == spec_curly(stack, operands, inc, replies, pos),
    decreases stack.len(),
{
    if stack.len() > 0 {
        let rest = stack.drop_last();
        match stack.last() {
            ItemView::Literal(v) => {
                lemma_curly_extend(rest, operands.push(v), inc, replies, more, pos);
            },
            ItemView::ZoneStart(c) => {
                if rest.len() > 0 && rest.last() is Token {
                    lemma_call_extend(rest.last()->Token_0, operands, inc, replies, more, pos);
                }
            },
            ItemView::Operator(op) => {
                if rest.len() > 0 {
                    if let ItemView::Literal(left) = rest.last() {
                        lemma_arithmetic_extend(op, operands.push(left), replies, more, pos);
                        if let Ok((r, p)) = spec_arithmetic(op, operands.push(left), replies, pos) {
                            lemma_curly_extend(rest.drop_last().push(ItemView::Literal(r)), Seq::empty(), inc, replies, more, p);
                        }
                    }
                }
            },
            _ => {},
        }
    }
}

proof fn lemma_reduce_extend(stack: Seq<ItemView>, inc: usize, replies: Seq<Reply>, more: Seq<Reply>, pos: nat)
    ensures
        not_asking(spec_reduce(stack, inc, replies, pos)) ==> spec_reduce(stack, inc, replies + more, pos)
            == spec_reduce(stack, inc, replies, pos),
    decreases stack.len(),
{
    if stack.len() > 1 {
        let wrapped = seq![ItemView::ZoneStart('(')] + stack;
        lemma_curly_extend(wrapped, Seq::empty(), inc, replies, more, pos);
        if let Ok((st, i, p)) = spec_curly(wrapped, Seq::empty(), inc, replies, pos) {
            if st.len() < stack.len() {
                lemma_reduce_extend(st, i, replies, more, p);
            }
        }
    }
}

proof fn lemma_revaluate_extend(t: Seq<ColumnView>, stack: Seq<ItemView>, inc: usize, replies: Seq<Reply>, more: Seq<Reply>, pos: nat)
    ensures
        not_asking(spec_revaluate(t, stack, inc, replies, pos)) ==> spec_revaluate(t, stack, inc, replies + more, pos)
            == spec_revaluate(t, stack, inc, replies, pos),
{
    if stack.len() > 0 {
        lemma_curly_extend(stack.drop_last(), Seq::empty(), inc, replies, more, pos);
    }
}

proof fn lemma_scan_extend(
    t: Seq<ColumnView>,
    s: Seq<char>,
    i: int,
    row: u32,
    stack: Seq<ItemView>,
    inc: usize,
    replies: Seq<Reply>,
    more: Seq<Reply>,
    pos: nat,
)
    requires
        0 <= i,
    ensures
        not_asking(spec_scan(t, s, i, row, stack, inc, replies, pos)) ==> spec_scan(t, s, i, row, stack, inc, replies + more, pos)
            == spec_scan(t, s, i, row, stack, inc, replies, pos),
    decreases s.len() + 1 - i,
{
    if i >= s.len() {
        lemma_reduce_extend(stack, inc, replies, more, pos);
    } else {
        let c = s[i];
        lemma_runs_bounded(s, i + 1);
        if crate::text::is_upper(c) && i + 1 >= s.len() {
        } else if crate::text::is_upper(c) && !crate::text::is_letter(s[i + 1]) {
            if let Ok((v, len)) = spec_resolve_literal_at(t, s, i, row) {
                if len >= 1 {
                    lemma_scan_extend(t, s, i + len, row, stack.push(ItemView::Literal(v)), inc, replies, more, pos);
                }
            }
        } else if crate::text::is_letter(c) {
            let k = letter_run(s, i + 1);
            lemma_scan_extend(t, s, i + k + 1, row, stack.push(ItemView::Token(s.subrange(i, i + k + 1))), inc, replies, more, pos);
        } else if crate::text::is_digit(c) {
            let k = digit_run(s, i + 1);
            let v = crate::text::digits_value(s.subrange(i, i + k + 1));
            if v <= usize::MAX {
                let x = ItemView::Literal(crate::table::count_value(v as usize));
                lemma_scan_extend(t, s, i + k + 1, row, stack.push(x), inc, replies, more, pos);
            }
        } else if c == '(' || c == '<' {
            lemma_scan_extend(t, s, i + 1, row, stack.push(ItemView::ZoneStart(c)), inc, replies, more, pos);
        } else if c == ')' || c == '>' {
            let pushed = stack.push(ItemView::ZoneEnd(c));
            lemma_revaluate_extend(t, pushed, inc, replies, more, pos);
            if let Ok((st, i2, p2)) = spec_revaluate(t, pushed, inc, replies, pos) {
                lemma_scan_extend(t, s, i + 1, row, st, i2, replies, more, p2);
            }
        } else if c == '"' {
            let k = quote_run(s, i + 1);
            let x = ItemView::Literal(crate::table::text_value(s.subrange(i + 1, i + 1 + k)));
            lemma_scan_extend(t, s, i + k + 2, row, stack.push(x), inc, replies, more, pos);
        } else if c == '@' {
            let k = crate::str_utils::name_run(s, i + 1);
            lemma_scan_extend(t, s, i + k + 1, row, stack.push(ItemView::Token(s.subrange(i, i + k + 1))), inc, replies, more, pos);
        } else if c == ' ' || c == ',' {
            lemma_scan_extend(t, s, i + 1, row, stack, inc, replies, more, pos);
        } else if crate::semantics::is_operator(c) {
            lemma_scan_extend(t, s, i + 1, row, stack.push(ItemView::Operator(c)), inc, replies, more, pos);
        }
    }
}

proof fn lemma_parse_string_extend(t: Seq<ColumnView>, cell: Seq<char>, row: u32, inc: usize, replies: Seq<Reply>, more: Seq<Reply>, pos: nat)
    ensures
        not_asking(spec_parse_string(t, cell, row, inc, replies, pos)) ==> spec_parse_string(t, cell, row, inc, replies + more, pos)
            == spec_parse_string(t, cell, row, inc, replies, pos),
{
    lemma_scan_extend(t, cell.drop_first(), 0, row, Seq::empty(), inc, replies, more, pos);
    lemma_replies_extend(replies, more, pos, QueryView::ParseNumber(cell));
}

proof fn lemma_fill_column_extend(
    t: Seq<ColumnView>,
    ci: int,
    keys: Seq<u32>,
    ki: int,
    prev: Seq<char>,
    inc: usize,
    replies: Seq<Reply>,
    more: Seq<Reply>,
    pos: nat,
)
    ensures
        not_asking(spec_fill_column(t, ci, keys, ki, prev, inc, replies, pos).1) ==> spec_fill_column(t, ci, keys, ki, prev, inc, replies + more, pos)
            == spec_fill_column(t, ci, keys, ki, prev, inc, replies, pos),
    decreases keys.len() - ki,
{
    if 0 <= ki < keys.len() {
        let row = keys[ki];
        let cell = t[ci].cells[row];
        let step = if cell == "=^^"@ {
            if row == 0 {
                None
            } else {
                match spec_increase_column_digits(prev, (row - 1) as u32) {
                    None => None,
                    Some(source) => Some((source, prev)),
                }
            }
        } else {
            Some((cell, cell))
        };
        if let Some((source, next_prev)) = step {
            lemma_parse_string_extend(t, source, row, inc, replies, more, pos);
            if let Ok((v, i, p)) = spec_parse_string(t, source, row, inc, replies, pos) {
                lemma_fill_column_extend(with_value(t, ci, row, v), ci, keys, ki + 1, next_prev, i, replies, more, p);
            }
        }
    }
}

proof fn lemma_fill_columns_extend(t: Seq<ColumnView>, n: nat, ci: int, inc: usize, replies: Seq<Reply>, more: Seq<Reply>, pos: nat)
    ensures
        not_asking(spec_fill_columns(t, n, ci, inc, replies, pos).1) ==> spec_fill_columns(t, n, ci, inc, replies + more, pos)
            == spec_fill_columns(t, n, ci, inc, replies, pos),
    decreases n - ci,
{
    if 0 <= ci < n && ci < t.len() {
        let keys = sorted_keys(t[ci].cells.dom());
        lemma_fill_column_extend(t, ci, keys, 0, Seq::empty(), inc, replies, more, pos);
        let filled = spec_fill_column(t, ci, keys, 0, Seq::empty(), inc, replies, pos);
        if let Ok((i, p)) = filled.1 {
            lemma_fill_columns_extend(filled.0, n, ci + 1, i, replies, more, p);
        }
    }
}

/// A fill that did not stop to ask a question ends the same way, on the same
/// sheet, when more replies follow the ones it was given.
pub proof fn law_more_replies_change_no_finished_fill(t: Seq<ColumnView>, replies: Seq<Reply>, more: Seq<Reply>)
    ensures
        not_asking(spec_fill_data(t, replies).1) ==> spec_fill_data(t, replies + more) == spec_fill_data(t, replies),
{
    lemma_fill_columns_extend(t, t.len(), 0, 0, replies, more, 0);
}

/// A fill that stops to ask a question has taken every reply it was given:
/// given only a part of them from the start, it stops to ask as well.
pub proof fn law_asking_fill_took_every_reply(t: Seq<ColumnView>, replies: Seq<Reply>, k: int)
    requires
        0 <= k <= replies.len(),
        !not_asking(spec_fill_data(t, replies).1),
    ensures
        !not_asking(spec_fill_data(t, replies.take(k)).1),
{
    law_more_replies_change_no_finished_fill(t, replies.take(k), replies.skip(k));
    assert(replies.take(k) + replies.skip(k) =~= replies);
}

} // verus!
