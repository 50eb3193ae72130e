//! What the formula functions and operators do, stated over their arguments,
//! the questions they hand to the caller and the replies they take back.

use vstd::prelude::*;
use crate::semantics::{
    spec_arithmetic, spec_bte, spec_split, spec_spread, spec_parse_all, spec_parse_string, is_operator, spec_sum,
    spec_text, spec_concat, spec_inc_from, spec_call_function,
};
use crate::text::{digits_value, is_digit, law_decimal_reads_back};
use crate::numbers::{Reply, HaltView, QueryView};
use crate::table::{LiteralView, ColumnView, number_value, text_value, numbers_value, texts_value, count_value};
use crate::str_utils::{join_with, law_split_then_join};

verus! {

/// An operator on two numbers hands the caller its own operator with the
/// numbers in order (`a op b`, with `a` the first of the two values), and the
/// number the caller gives back is the result.
pub proof fn law_arithmetic_asks_its_operator(
    op: char,
    w: LiteralView,
    v: LiteralView,
    a: u32,
    b: u32,
    replies: Seq<Reply>,
    pos: nat,
    x: u32,
)
    requires
        is_operator(op),
        w.number == Some(a),
        v.number == Some(b),
    ensures
        pos >= replies.len() ==> spec_arithmetic(op, seq![w, v], replies, pos) == Err::<(LiteralView, nat), HaltView>(
            HaltView::Ask(QueryView::Arithmetic(op, a, b)),
        ),
        pos < replies.len() && replies[pos as int] == Reply::Number(x) ==> spec_arithmetic(op, seq![w, v], replies, pos)
            == Ok::<(LiteralView, nat), HaltView>((number_value(x), pos + 1)),
{
}

/// `bte(first, second)` asks whether the number of its first argument is at
/// least that of its second (the arguments arrive last first), and gives
/// `"true"` or `"false"` as the caller answers.
pub proof fn law_bte_compares_first_with_second(
    first: LiteralView,
    second: LiteralView,
    x: u32,
    y: u32,
    inc: usize,
    replies: Seq<Reply>,
    pos: nat,
    answer: bool,
)
    requires
        first.number == Some(x),
        second.number == Some(y),
    ensures
        pos >= replies.len() ==> spec_bte(seq![second, first], inc, replies, pos) == Err::<(LiteralView, usize, nat), HaltView>(
            HaltView::Ask(QueryView::AtLeast(x, y)),
        ),
        pos < replies.len() && replies[pos as int] == Reply::Truth(answer) ==> spec_bte(seq![second, first], inc, replies, pos)
            == Ok::<(LiteralView, usize, nat), HaltView>(
            (text_value(if answer { "true"@ } else { "false"@ }), inc, pos + 1),
        ),
{
}

/// `split(text, sep)` with a one-byte separator goes through and gives pieces
/// that contain no separator and, joined back with it, give the text.
pub proof fn law_split_cuts_at_the_given_separator(text: Seq<char>, sep: Seq<char>, inc: usize, pos: nat)
    requires
        sep.len() == 1,
        (sep[0] as u32) < 128,
    ensures
        ({
            let r = spec_split(seq![text_value(sep), text_value(text)], inc, pos);
            &&& r is Ok
            &&& r->Ok_0.1 == inc
            &&& r->Ok_0.2 == pos
            &&& r->Ok_0.0.texts is Some
            &&& join_with(r->Ok_0.0.texts->0, sep[0]) == text
            &&& forall|k: int|
                0 <= k < r->Ok_0.0.texts->0.len() ==> !(#[trigger] r->Ok_0.0.texts->0[k]).contains(sep[0])
        }),
{
    law_split_then_join(text, sep[0]);
}

/// A cell that holds no formula is offered to the caller as a number, whatever
/// its first character; it is the number the caller reads, or its own text
/// where the caller reads none.
pub proof fn law_plain_cell_is_offered_as_number(
    t: Seq<ColumnView>,
    cell: Seq<char>,
    row: u32,
    inc: usize,
    replies: Seq<Reply>,
    pos: nat,
    reading: Option<u32>,
)
    requires
        cell.len() > 0,
        (cell[0] as u32) < 128,
        cell[0] != '=',
    ensures
        pos >= replies.len() ==> spec_parse_string(t, cell, row, inc, replies, pos) == Err::<(LiteralView, usize, nat), HaltView>(
            HaltView::Ask(QueryView::ParseNumber(cell)),
        ),
        pos < replies.len() && replies[pos as int] == Reply::Parsed(reading) ==> spec_parse_string(t, cell, row, inc, replies, pos)
            == Ok::<(LiteralView, usize, nat), HaltView>(
            (
                match reading {
                    Some(x) => number_value(x),
                    None => text_value(cell),
                },
                inc,
                pos + 1,
            ),
        ),
{
}

proof fn lemma_parse_all_readings(texts: Seq<Seq<char>>, xs: Seq<u32>, i: int, replies: Seq<Reply>, pos: nat)
    requires
        0 <= i <= texts.len(),
        xs.len() == texts.len(),
        pos + texts.len() <= replies.len(),
        forall|k: int| 0 <= k < texts.len() ==> #[trigger] replies[pos + k] == Reply::Parsed(Some(xs[k])),
    ensures
        spec_parse_all(texts, i, xs.take(i), replies, (pos + i) as nat) == Ok::<(Seq<u32>, nat), HaltView>(
            (xs, (pos + texts.len()) as nat),
        ),
    decreases texts.len() - i,
{
    if i == texts.len() {
        assert(xs.take(i) =~= xs);
    } else {
        assert(replies[pos + i] == Reply::Parsed(Some(xs[i])));
        assert(xs.take(i).push(xs[i]) =~= xs.take(i + 1));
        lemma_parse_all_readings(texts, xs, i + 1, replies, pos);
    }
}

proof fn lemma_parse_all_asks(texts: Seq<Seq<char>>, xs: Seq<u32>, i: int, m: int, replies: Seq<Reply>, pos: nat)
    requires
        0 <= i <= m < texts.len(),
        xs.len() == texts.len(),
        pos + m == replies.len(),
        forall|k: int| 0 <= k < m ==> #[trigger] replies[pos + k] == Reply::Parsed(Some(xs[k])),
    ensures
        spec_parse_all(texts, i, xs.take(i), replies, (pos + i) as nat) == Err::<(Seq<u32>, nat), HaltView>(
            HaltView::Ask(QueryView::ParseNumber(texts[m])),
        ),
    decreases texts.len() - i,
{
    if i < m {
        assert(replies[pos + i] == Reply::Parsed(Some(xs[i])));
        assert(xs.take(i).push(xs[i]) =~= xs.take(i + 1));
        lemma_parse_all_asks(texts, xs, i + 1, m, replies, pos);
    }
}

/// `spread(texts)` offers every piece, in order, to the caller as a number,
/// whatever its first character: when each is read as a number, the result is
/// those numbers, one reply taken per piece; when the replies run out first,
/// the question is the first piece not read yet.
pub proof fn law_spread_reads_every_piece(texts: Seq<Seq<char>>, xs: Seq<u32>, m: int, inc: usize, replies: Seq<Reply>, pos: nat)
    requires
        xs.len() == texts.len(),
        0 <= m <= texts.len(),
        pos + m <= replies.len(),
        forall|k: int| 0 <= k < m ==> #[trigger] replies[pos + k] == Reply::Parsed(Some(xs[k])),
    ensures
        m == texts.len() ==> spec_spread(seq![texts_value(texts)], inc, replies, pos) == Ok::<(LiteralView, usize, nat), HaltView>(
            (numbers_value(xs), inc, (pos + texts.len()) as nat),
        ),
        m < texts.len() && pos + m == replies.len() ==> spec_spread(seq![texts_value(texts)], inc, replies, pos)
            == Err::<(LiteralView, usize, nat), HaltView>(HaltView::Ask(QueryView::ParseNumber(texts[m]))),
{
    assert(xs.take(0) =~= Seq::<u32>::empty());
    if m == texts.len() {
        lemma_parse_all_readings(texts, xs, 0, replies, pos);
    } else if pos + m == replies.len() {
        lemma_parse_all_asks(texts, xs, 0, m, replies, pos);
    }
}

/// `sum(numbers)` hands the caller exactly those numbers, in order, and the
/// number given back is the result.
pub proof fn law_sum_asks_for_its_numbers(v: Seq<u32>, inc: usize, replies: Seq<Reply>, pos: nat, x: u32)
    ensures
        pos >= replies.len() ==> spec_sum(seq![numbers_value(v)], inc, replies, pos) == Err::<(LiteralView, usize, nat), HaltView>(
            HaltView::Ask(QueryView::Sum(v)),
        ),
        pos < replies.len() && replies[pos as int] == Reply::Number(x) ==> spec_sum(seq![numbers_value(v)], inc, replies, pos)
            == Ok::<(LiteralView, usize, nat), HaltView>((number_value(x), inc, pos + 1)),
{
}

/// `text(v)` gives a text as it is, and a count as a numeral of digits that
/// reads back to the count.
pub proof fn law_text_of_text_and_count(s: Seq<char>, n: usize, inc: usize, pos: nat)
    ensures
        spec_text(seq![text_value(s)], inc, pos) == Ok::<(LiteralView, usize, nat), HaltView>((text_value(s), inc, pos)),
        ({
            let r = spec_text(seq![count_value(n)], inc, pos);
            &&& r is Ok
            &&& r->Ok_0.1 == inc
            &&& r->Ok_0.0.text is Some
            &&& digits_value(r->Ok_0.0.text->0) == n
            &&& forall|k: int| 0 <= k < r->Ok_0.0.text->0.len() ==> is_digit(#[trigger] r->Ok_0.0.text->0[k])
        }),
{
    law_decimal_reads_back(n as nat);
}

/// `concat(first, second)` (the arguments arrive last first) is the first
/// text followed by the second.
pub proof fn law_concat_puts_first_before_second(first: Seq<char>, second: Seq<char>, inc: usize, pos: nat)
    ensures
        ({
            let r = spec_concat(seq![text_value(second), text_value(first)], inc, pos);
            &&& r is Ok
            &&& r->Ok_0.1 == inc
            &&& r->Ok_0.0.text == Some(first + second)
            &&& (first + second).subrange(0, first.len() as int) == first
            &&& (first + second).subrange(first.len() as int, (first.len() + second.len()) as int) == second
        }),
{
    assert((first + second).subrange(0, first.len() as int) =~= first);
    assert((first + second).subrange(first.len() as int, (first.len() + second.len()) as int) =~= second);
}

/// `incFrom(n)` adds `n` to the counter and gives the new counter, where it
/// fits in a `usize`; a call under another name leaves the counter alone.
pub proof fn law_inc_from_adds_to_counter(n: usize, inc: usize, pos: nat, name: Seq<char>, args: Seq<LiteralView>, replies: Seq<Reply>)
    ensures
        inc + n <= usize::MAX ==> spec_inc_from(seq![count_value(n)], inc, pos) == Ok::<(LiteralView, usize, nat), HaltView>(
            (count_value((inc + n) as usize), (inc + n) as usize, pos),
        ),
        inc + n > usize::MAX ==> spec_inc_from(seq![count_value(n)], inc, pos) is Err,
        name != "incFrom"@ ==> (spec_call_function(name, args, inc, replies, pos) matches Ok((_, i, _)) ==> i == inc),
{
}

} // verus!
