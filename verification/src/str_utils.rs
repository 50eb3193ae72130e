//! Helpers on string slices, stated over the characters of the string.

use vstd::prelude::*;
use vstd::std_specs::iter::IteratorSpec;

verus! {

/// True for the characters that may continue a column name after `@`.
pub open spec fn is_name_char(c: char) -> bool {
    c == '_' || ('a' <= c && c <= 'z') || ('A' <= c && c <= 'Z')
}

/// Number of name characters that follow one another from `start` on.
pub open spec fn name_run(s: Seq<char>, start: int) -> nat
    decreases s.len() - start,
{
    if 0 <= start < s.len() && is_name_char(s[start]) {
        1 + name_run(s, start + 1)
    } else {
        0
    }
}

/// The pieces of `s` between occurrences of `sep`, in order; there is always
/// one piece more than there are separators.
pub open spec fn split_on(s: Seq<char>, sep: char) -> Seq<Seq<char>>
    decreases s.len(),
{
    if s.len() == 0 {
        seq![Seq::<char>::empty()]
    } else {
        let pieces = split_on(s.drop_last(), sep);
        if s.last() == sep {
            pieces.push(Seq::<char>::empty())
        } else {
            pieces.update(pieces.len() - 1, pieces.last().push(s.last()))
        }
    }
}

/// The characters of a list of slices.
pub open spec fn views_of(v: Seq<&str>) -> Seq<Seq<char>> {
    v.map_values(|x: &str| x@)
}

pub proof fn lemma_split_on_nonempty(s: Seq<char>, sep: char)
    ensures
        split_on(s, sep).len() >= 1,
    decreases s.len(),
{
    if s.len() > 0 {
        lemma_split_on_nonempty(s.drop_last(), sep);
    }
}

/// The pieces joined back with `sep` between them.
pub open spec fn join_with(pieces: Seq<Seq<char>>, sep: char) -> Seq<char>
    decreases pieces.len(),
{
    if pieces.len() == 0 {
        Seq::empty()
    } else if pieces.len() == 1 {
        pieces[0]
    } else {
        join_with(pieces.drop_last(), sep).push(sep) + pieces.last()
    }
}

proof fn lemma_join_extend_last(p: Seq<Seq<char>>, sep: char, x: char)
    requires
        p.len() >= 1,
    ensures
        join_with(p.update(p.len() - 1, p.last().push(x)), sep) == join_with(p, sep).push(x),
{
    let q = p.update(p.len() - 1, p.last().push(x));
    if p.len() == 1 {
    } else {
        assert(q.drop_last() =~= p.drop_last());
        assert(join_with(p, sep).push(x) =~= join_with(p.drop_last(), sep).push(sep) + p.last().push(x));
    }
}

/// Splitting a text at a separator and joining the pieces back with it gives
/// the text again, and no piece holds the separator.
pub proof fn law_split_then_join(s: Seq<char>, sep: char)
    ensures
        join_with(split_on(s, sep), sep) == s,
        forall|i: int| 0 <= i < split_on(s, sep).len() ==> !(#[trigger] split_on(s, sep)[i]).contains(sep),
    decreases s.len(),
{
    if s.len() == 0 {
        assert(split_on(s, sep) =~= seq![Seq::<char>::empty()]);
        assert(s =~= Seq::<char>::empty());
    } else {
        let p = split_on(s.drop_last(), sep);
        law_split_then_join(s.drop_last(), sep);
        lemma_split_on_nonempty(s.drop_last(), sep);
        assert(s =~= s.drop_last().push(s.last()));
        if s.last() == sep {
            let q = p.push(Seq::<char>::empty());
            assert(q.drop_last() =~= p);
            assert(join_with(q, sep) =~= join_with(p, sep).push(sep));
            assert forall|i: int| 0 <= i < q.len() implies !(#[trigger] q[i]).contains(sep) by {
                if i < p.len() {
                    assert(q[i] == p[i]);
                }
            }
        } else {
            let q = p.update(p.len() - 1, p.last().push(s.last()));
            lemma_join_extend_last(p, sep, s.last());
            assert forall|i: int| 0 <= i < q.len() implies !(#[trigger] q[i]).contains(sep) by {
                if i < p.len() - 1 {
                    assert(q[i] == p[i]);
                } else {
                    assert(!p[i].contains(sep));
                    if q[i].contains(sep) {
                        let j = choose|j: int| 0 <= j < q[i].len() && q[i][j] == sep;
                        if j < p[i].len() {
                            assert(p[i][j] == sep);
                        }
                    }
                }
            }
        }
    }
}

/// The characters of `s`, one by one.
pub fn chars_of(s: &str) -> (res: Vec<char>)
    ensures
        res@ == s@,
{
    let mut res: Vec<char> = Vec::new();
    let n = s.unicode_len();
    let mut it = s.chars();
    let mut i: usize = 0;
    while i < n
        invariant
            n == s@.len(),
            i <= n,
            res@ == s@.take(i as int),
            it.remaining() == s@.skip(i as int),
            it.obeys_prophetic_iter_laws(),
        decreases n - i,
    {
        proof { broadcast use vstd::string::next_postcondition; }
        let c = it.next();
        assert(s@.skip(i as int).len() > 0);
        match c {
            Some(c) => {
                res.push(c);
                assert(s@.skip(i as int).drop_first() =~= s@.skip(i + 1));
                assert(res@ =~= s@.take(i + 1));
            }
            None => {}
        }
        i = i + 1;
    }
    assert(res@ =~= s@);
    res
}

/// Splits `s` at every occurrence of `sep`.
pub fn split_by<'a>(s: &'a str, sep: char) -> (res: Vec<&'a str>)
    ensures
        views_of(res@) == split_on(s@, sep),
{
    let chars = chars_of(s);
    let n = chars.len();
    let mut res: Vec<&'a str> = Vec::new();
    let mut start: usize = 0;
    let mut i: usize = 0;
    assert(s@.take(0) =~= Seq::<char>::empty());
    assert(views_of(res@) + seq![s@.subrange(0, 0)] =~= seq![Seq::<char>::empty()]);
    while i < n
        invariant
            n == s@.len(),
            chars@ == s@,
            start <= i <= n,
            views_of(res@) + seq![s@.subrange(start as int, i as int)] == split_on(s@.take(i as int), sep),
        decreases n - i,
    {
        let ghost prev = views_of(res@);
        let ghost cur = s@.subrange(start as int, i as int);
        proof { lemma_split_on_nonempty(s@.take(i as int), sep); }
        assert(s@.take(i + 1).drop_last() =~= s@.take(i as int));
        assert(s@.take(i + 1).last() == chars@[i as int]);
        if chars[i] == sep {
            let piece = s.substring_char(start, i);
            res.push(piece);
            assert(views_of(res@) =~= prev.push(piece@));
            assert(piece@ == cur);
            start = i + 1;
            assert(s@.subrange(start as int, i + 1) =~= Seq::<char>::empty());
            assert(views_of(res@) + seq![s@.subrange(start as int, i + 1)] =~= (prev + seq![cur]).push(Seq::<char>::empty()));
        } else {
            assert(s@.subrange(start as int, i + 1) =~= cur.push(chars@[i as int]));
            assert(views_of(res@) + seq![s@.subrange(start as int, i + 1)] =~= (prev + seq![cur]).update(prev.len() as int, cur.push(chars@[i as int])));
        }
        i = i + 1;
    }
    let last = s.substring_char(start, n);
    let ghost prev = views_of(res@);
    res.push(last);
    assert(views_of(res@) =~= prev.push(last@));
    assert(s@.take(n as int) =~= s@);
    res
}

} // verus!

verus! {

/// String helpers of the sheet reader and of the formula evaluator.
pub trait StrUtils: View<V = Seq<char>> + Sized {
    /// The character at position `index`.
    fn at(self, index: usize) -> (c: char)
        requires
            index < self@.len(),
        ensures
            c == self@[index as int],
    ;

    /// The pieces between the occurrences of `separator`.
    fn split_to_vect(&self, separator: char) -> (res: Vec<&str>)
        ensures
            views_of(res@) == split_on(self@, separator),
    ;

    /// Everything but the first character, which must take one byte.
    fn remove_first_symbol(&self) -> (res: &str)
        requires
            self@.len() > 0,
            (self@[0] as u32) < 128,
        ensures
            res@ == self@.drop_first(),
    ;

    /// From `start_index` on, the offset of the first character that is
    /// neither a letter nor `_`, or `None` when there is none.
    fn next_word_length_underscore(&self, start_index: usize) -> (res: Option<usize>)
        requires
            start_index <= self@.len(),
            forall|j: int| 0 <= j < start_index ==> (self@[j] as u32) < 128,
        ensures
            match res {
                Some(k) => start_index + k < self@.len() && k == name_run(self@, start_index as int),
                None => name_run(self@, start_index as int) == self@.len() - start_index,
            },
    ;
}

pub fn is_name_char_exec(c: char) -> (b: bool)
    ensures
        b == is_name_char(c),
{
    c == '_' || ('a' <= c && c <= 'z') || ('A' <= c && c <= 'Z')
}

impl<'a> StrUtils for &'a str {
    fn at(self, index: usize) -> (c: char) {
        self.get_char(index)
    }

    fn split_to_vect(&self, separator: char) -> (res: Vec<&str>) {
        split_by(*self, separator)
    }

    fn remove_first_symbol(&self) -> (res: &str) {
        let n = self.unicode_len();
        self.substring_char(1, n)
    }

    fn next_word_length_underscore(&self, start_index: usize) -> (res: Option<usize>) {
        let chars = chars_of(*self);
        let n = chars.len();
        let mut k: usize = start_index;
        while k < n && is_name_char_exec(chars[k])
            invariant
                chars@ == self@,
                n == self@.len(),
                start_index <= k <= n,
                name_run(self@, start_index as int) == (k - start_index) + name_run(self@, k as int),
            decreases n - k,
        {
            k = k + 1;
        }
        if k == n {
            None
        } else {
            Some(k - start_index)
        }
    }
}

} // verus!
