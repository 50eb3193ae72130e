//! Row numbers in increasing order.

use vstd::prelude::*;
use vstd::std_specs::iter::IteratorSpec;
use std::collections::HashMap;

verus! {

broadcast use vstd::std_specs::hash::group_hash_axioms;

pub open spec fn strictly_increasing(s: Seq<u32>) -> bool {
    forall|i: int, j: int| 0 <= i < j < s.len() ==> s[i] < s[j]
}

/// The members of a finite set of row numbers, smallest first.
pub open spec fn sorted_keys(keys: Set<u32>) -> Seq<u32> {
    choose|s: Seq<u32>| strictly_increasing(s) && s.to_set() == keys
}

/// The largest member of a set of row numbers.
pub open spec fn max_key(keys: Set<u32>) -> u32 {
    choose|k: u32| keys.contains(k) && forall|j: u32| keys.contains(j) ==> j <= k
}

pub proof fn lemma_max_key_unique(keys: Set<u32>, k: u32)
    requires
        keys.contains(k),
        forall|j: u32| keys.contains(j) ==> j <= k,
    ensures
        max_key(keys) == k,
{
    let m = max_key(keys);
    assert(keys.contains(m) && forall|j: u32| keys.contains(j) ==> j <= m);
    assert(m <= k && k <= m);
}

/// Two increasing sequences with the same members are one and the same.
pub proof fn lemma_increasing_unique(a: Seq<u32>, b: Seq<u32>)
    requires
        strictly_increasing(a),
        strictly_increasing(b),
        a.to_set() == b.to_set(),
    ensures
        a == b,
    decreases a.len(),
{
    if a.len() == 0 {
        if b.len() > 0 {
            assert(b.to_set().contains(b[0]));
        }
        assert(a =~= b);
    } else {
        assert(a.to_set().contains(a[0]));
        assert(b.len() > 0);
        assert(b.to_set().contains(b[0]));
        let i = choose|i: int| 0 <= i < b.len() && b[i] == a[0];
        let j = choose|j: int| 0 <= j < a.len() && a[j] == b[0];
        assert(b[0] <= b[i]);
        assert(a[0] <= a[j]);
        assert(a[0] == b[0]);
        let a1 = a.drop_first();
        let b1 = b.drop_first();
        assert forall|x: u32| a1.to_set().contains(x) implies b1.to_set().contains(x) by {
            let p = choose|p: int| 0 <= p < a1.len() && a1[p] == x;
            assert(a[p + 1] == x);
            assert(a.to_set().contains(x));
            let q = choose|q: int| 0 <= q < b.len() && b[q] == x;
            assert(q != 0);
            assert(b1[q - 1] == x);
        }
        assert forall|x: u32| b1.to_set().contains(x) implies a1.to_set().contains(x) by {
            let p = choose|p: int| 0 <= p < b1.len() && b1[p] == x;
            assert(b[p + 1] == x);
            assert(b.to_set().contains(x));
            let q = choose|q: int| 0 <= q < a.len() && a[q] == x;
            assert(q != 0);
            assert(a1[q - 1] == x);
        }
        assert(a1.to_set() =~= b1.to_set());
        lemma_increasing_unique(a1, b1);
        assert(a =~= seq![a[0]] + a1);
        assert(b =~= seq![b[0]] + b1);
    }
}

pub proof fn lemma_sorted_keys_is(keys: Set<u32>, s: Seq<u32>)
    requires
        strictly_increasing(s),
        s.to_set() == keys,
    ensures
        sorted_keys(keys) == s,
{
    let t = sorted_keys(keys);
    assert(strictly_increasing(t) && t.to_set() == keys);
    lemma_increasing_unique(s, t);
}

/// `x` may stand at position `p` of the increasing `q`.
pub open spec fn fits_at(q: Seq<u32>, p: int, x: u32) -> bool {
    0 <= p <= q.len() && (p > 0 ==> q[p - 1] < x) && (p < q.len() ==> x < q[p])
}

proof fn lemma_insert_position(q: Seq<u32>, x: u32)
    requires
        strictly_increasing(q),
        !q.contains(x),
    ensures
        exists|p: int| fits_at(q, p, x),
    decreases q.len(),
{
    if q.len() == 0 {
        assert(fits_at(q, 0, x));
    } else if x < q[0] {
        assert(fits_at(q, 0, x));
    } else {
        assert(q[0] != x);
        let r = q.drop_first();
        assert(!r.contains(x)) by {
            if r.contains(x) {
                let j = choose|j: int| 0 <= j < r.len() && r[j] == x;
                assert(q[j + 1] == x);
            }
        }
        lemma_insert_position(r, x);
        let p = choose|p: int| fits_at(r, p, x);
        assert(fits_at(q, p + 1, x));
    }
}

/// Every finite set of row numbers has its increasing sequence.
pub proof fn lemma_sorted_keys_exist(keys: Set<u32>)
    requires
        keys.finite(),
    ensures
        strictly_increasing(sorted_keys(keys)),
        sorted_keys(keys).to_set() == keys,
    decreases keys.len(),
{
    if keys.len() == 0 {
        let e = Seq::<u32>::empty();
        assert(e.to_set() =~= keys) by {
            assert forall|x: u32| !keys.contains(x) by {
                if keys.contains(x) {
                    assert(keys.remove(x).len() == keys.len() - 1);
                }
            }
        }
        lemma_sorted_keys_is(keys, e);
    } else {
        let x = keys.choose();
        assert(keys.contains(x)) by {
            if !keys.contains(x) {
                assert(keys =~= Set::<u32>::empty());
            }
        }
        let rest = keys.remove(x);
        lemma_sorted_keys_exist(rest);
        let q = sorted_keys(rest);
        assert(!q.contains(x)) by {
            if q.contains(x) {
                assert(q.to_set().contains(x));
            }
        }
        lemma_insert_position(q, x);
        let p = choose|p: int| fits_at(q, p, x);
        lemma_insert_increasing(q, p, x);
        assert(rest.insert(x) =~= keys);
        lemma_sorted_keys_is(keys, q.insert(p, x));
    }
}

/// The row numbers of a map, one time each.
pub fn collect_keys<V>(m: &HashMap<u32, V>) -> (res: Vec<u32>)
    ensures
        res@.to_set() == m@.dom(),
        res@.no_duplicates(),
{
    let ghost full = vstd::std_specs::hash::spec_keys_iter(m).remaining();
    let mut res: Vec<u32> = Vec::new();
    for k in iter: m.keys()
        invariant
            iter.seq() == full,
            res@ == full.take(iter.index()).unref(),
    {
        assert(full.take(iter.index() + 1).unref() =~= full.take(iter.index()).unref().push(*k));
        res.push(*k);
    }
    assert(res@.len() == full.len());
    assert(full.unref().to_set() == m@.dom());
    assert(full.take(full.len() as int) =~= full);
    assert(res@.no_duplicates()) by {
        assert forall|a: int, b: int| 0 <= a < b < res@.len() implies res@[a] != res@[b] by {
            assert(full[a] != full[b]);
        }
    }
    res
}

pub proof fn lemma_insert_increasing(s: Seq<u32>, p: int, k: u32)
    requires
        strictly_increasing(s),
        0 <= p <= s.len(),
        p > 0 ==> s[p - 1] < k,
        p < s.len() ==> k < s[p],
    ensures
        strictly_increasing(s.insert(p, k)),
        s.insert(p, k).to_set() == s.to_set().insert(k),
{
    let t = s.insert(p, k);
    assert forall|i: int, j: int| 0 <= i < j < t.len() implies t[i] < t[j] by {
        if j < p {
        } else if j == p {
            assert(s[i] <= s[p - 1]);
        } else if i < p {
            assert(s[i] <= s[p - 1] || i == p - 1);
        } else if i == p {
            assert(s[p] <= s[j - 1]);
        } else {
        }
    }
    assert forall|x: u32| t.to_set().contains(x) <==> s.to_set().insert(k).contains(x) by {
        if t.to_set().contains(x) {
            let i = choose|i: int| 0 <= i < t.len() && t[i] == x;
            if i < p {
                assert(s[i] == x);
            } else if i > p {
                assert(s[i - 1] == x);
            }
        }
        if s.to_set().contains(x) {
            let i = choose|i: int| 0 <= i < s.len() && s[i] == x;
            if i < p {
                assert(t[i] == x);
            } else {
                assert(t[i + 1] == x);
            }
        }
        if x == k {
            assert(t[p] == k);
        }
    }
    assert(t.to_set() =~= s.to_set().insert(k));
}

/// The row numbers of a map, smallest first.
pub fn sorted_keys_of<V>(m: &HashMap<u32, V>) -> (res: Vec<u32>)
    ensures
        strictly_increasing(res@),
        res@.to_set() == m@.dom(),
        res@ == sorted_keys(m@.dom()),
{
    let keys = collect_keys(m);
    let mut out: Vec<u32> = Vec::new();
    let mut i: usize = 0;
    assert(keys@.take(0).to_set() =~= Set::<u32>::empty());
    assert(out@.to_set() =~= Set::<u32>::empty());
    while i < keys.len()
        invariant
            i <= keys.len(),
            keys@.no_duplicates(),
            strictly_increasing(out@),
            out@.to_set() == keys@.take(i as int).to_set(),
        decreases keys.len() - i,
    {
        let k = keys[i];
        assert(!out@.to_set().contains(k)) by {
            if out@.to_set().contains(k) {
                assert(keys@.take(i as int).to_set().contains(k));
                let t0 = keys@.take(i as int);
                let j = choose|j: int| 0 <= j < t0.len() && t0[j] == k;
                assert(keys@[j] == keys@[i as int]);
            }
        }
        let mut p: usize = 0;
        while p < out.len() && out[p] < k
            invariant
                p <= out.len(),
                strictly_increasing(out@),
                forall|q: int| 0 <= q < p ==> out@[q] < k,
            decreases out.len() - p,
        {
            p = p + 1;
        }
        assert(p < out.len() ==> out@[p as int] != k) by {
            if p < out.len() && out@[p as int] == k {
                assert(out@.to_set().contains(k));
            }
        }
        proof { lemma_insert_increasing(out@, p as int, k); }
        out.insert(p, k);
        let ghost t0 = keys@.take(i as int);
        let ghost t1 = keys@.take(i + 1);
        assert(t1.to_set() =~= t0.to_set().insert(k)) by {
            assert(t1 =~= t0.push(k));
            assert forall|x: u32| t1.to_set().contains(x) <==> t0.to_set().insert(k).contains(x) by {
                if t1.to_set().contains(x) {
                    let j = choose|j: int| 0 <= j < t1.len() && t1[j] == x;
                    if j < i {
                        assert(t0[j] == x);
                    }
                }
                if t0.to_set().contains(x) {
                    let j = choose|j: int| 0 <= j < t0.len() && t0[j] == x;
                    assert(t1[j] == x);
                }
                if x == k {
                    assert(t1[i as int] == k);
                }
            }
        }
        i = i + 1;
    }
    assert(keys@.take(keys.len() as int) =~= keys@);
    proof { lemma_sorted_keys_is(m@.dom(), out@); }
    out
}

/// The largest row number of a map, if it has any.
pub fn max_key_of<V>(m: &HashMap<u32, V>) -> (res: Option<u32>)
    ensures
        match res {
            Some(k) => m@.dom().len() > 0 && k == max_key(m@.dom()) && m@.dom().contains(k),
            None => m@.dom().len() == 0,
        },
{
    let keys = collect_keys(m);
    if keys.len() == 0 {
        assert(m@.dom() =~= Set::<u32>::empty()) by {
            assert forall|x: u32| !m@.dom().contains(x) by {
                if m@.dom().contains(x) {
                    assert(keys@.to_set().contains(x));
                }
            }
        }
        return None;
    }
    let mut best: u32 = keys[0];
    let mut i: usize = 1;
    while i < keys.len()
        invariant
            1 <= i <= keys.len(),
            exists|j: int| 0 <= j < i && keys@[j] == best,
            forall|j: int| 0 <= j < i ==> keys@[j] <= best,
        decreases keys.len() - i,
    {
        if keys[i] > best {
            best = keys[i];
        }
        i = i + 1;
    }
    assert(m@.dom().contains(best)) by {
        let j = choose|j: int| 0 <= j < keys.len() && keys@[j] == best;
        assert(keys@.to_set().contains(keys@[j]));
    }
    assert forall|x: u32| m@.dom().contains(x) implies x <= best by {
        assert(keys@.to_set().contains(x));
        let j = choose|j: int| 0 <= j < keys.len() && keys@[j] == x;
    }
    assert(m@.dom().len() > 0) by {
        assert(m@.dom().contains(best));
    }
    proof { lemma_max_key_unique(m@.dom(), best); }
    Some(best)
}

} // verus!
