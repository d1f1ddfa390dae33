//! Stable ordering of items by an integer key computed beforehand.
use vstd::prelude::*;

verus! {

/// The first position in `s` whose key exceeds `k` (the length if none).
pub open spec fn first_above<T>(s: Seq<(u64, T)>, k: u64) -> int
    decreases s.len(),
{
    if s.len() == 0 {
        0
    } else if s[0].0 > k {
        0
    } else {
        1 + first_above(s.drop_first(), k)
    }
}

/// `s` ordered by key; items with equal keys keep their relative order.
pub open spec fn sort_keyed<T>(s: Seq<(u64, T)>) -> Seq<(u64, T)>
    decreases s.len(),
{
    if s.len() == 0 {
        Seq::empty()
    } else {
        let r = sort_keyed(s.drop_last());
        r.insert(first_above(r, s.last().0), s.last())
    }
}

pub proof fn lemma_first_above_bounds<T>(s: Seq<(u64, T)>, k: u64)
    ensures
        0 <= first_above(s, k) <= s.len(),
        forall|i: int| 0 <= i < first_above(s, k) ==> (#[trigger] s[i]).0 <= k,
        first_above(s, k) < s.len() ==> s[first_above(s, k)].0 > k,
    decreases s.len(),
{
    if s.len() > 0 && s[0].0 <= k {
        lemma_first_above_bounds(s.drop_first(), k);
        assert forall|i: int| 0 <= i < first_above(s, k) implies (#[trigger] s[i]).0 <= k by {
            if i > 0 {
                assert(s[i] == s.drop_first()[i - 1]);
            }
        }
    }
}

/// The stable ordering holds the same items, each as often, and is ordered.
pub proof fn lemma_sort_keyed<T>(s: Seq<(u64, T)>)
    ensures
        sort_keyed(s).to_multiset() == s.to_multiset(),
        sort_keyed(s).len() == s.len(),
        forall|i: int, j: int|
            0 <= i <= j < sort_keyed(s).len() ==> (#[trigger] sort_keyed(s)[i]).0 <= (#[trigger] sort_keyed(s)[j]).0,
    decreases s.len(),
{
    broadcast use vstd::seq_lib::to_multiset_insert, vstd::seq_lib::to_multiset_build;

    if s.len() > 0 {
        let r = sort_keyed(s.drop_last());
        lemma_sort_keyed(s.drop_last());
        let x = s.last();
        let p = first_above(r, x.0);
        lemma_first_above_bounds(r, x.0);
        assert(s.drop_last().push(x) =~= s);
        let t = r.insert(p, x);
        assert forall|i: int, j: int| 0 <= i <= j < t.len() implies (#[trigger] t[i]).0 <= (#[trigger] t[j]).0 by {
            if i < p && j < p {
                assert(t[i] == r[i] && t[j] == r[j]);
            } else if i < p && j == p {
                assert(t[i] == r[i]);
            } else if i < p {
                assert(t[i] == r[i] && t[j] == r[j - 1]);
            } else if i == p && j > p {
                assert(t[j] == r[j - 1]);
            } else if i > p {
                assert(t[i] == r[i - 1] && t[j] == r[j - 1]);
            }
        }
    } else {
        assert(sort_keyed(s) =~= s);
    }
}

/// `v` ordered by key, stably.
pub fn sort_by_keys<T: Copy>(v: &Vec<(u64, T)>) -> (res: Vec<(u64, T)>)
    ensures
        res@ == sort_keyed(v@),
{
    let mut res: Vec<(u64, T)> = Vec::new();
    let mut i: usize = 0;
    while i < v.len()
        invariant
            i <= v.len(),
            res@ == sort_keyed(v@.take(i as int)),
        decreases v.len() - i,
    {
        let x = v[i];
        let ghost r = res@;
        let mut j: usize = 0;
        assert(r.subrange(0, r.len() as int) =~= r);
        while j < res.len()
            invariant
                j <= res.len(),
                res@ == r,
                first_above(r, x.0) == j + first_above(r.subrange(j as int, r.len() as int), x.0),
            ensures
                j <= res.len(),
                res@ == r,
                first_above(r, x.0) == j + first_above(r.subrange(j as int, r.len() as int), x.0),
                j == res.len() || r[j as int].0 > x.0,
            decreases res.len() - j,
        {
            proof {
                let rest = r.subrange(j as int, r.len() as int);
                assert(rest[0] == r[j as int]);
                assert(rest.drop_first() =~= r.subrange(j + 1, r.len() as int));
            }
            if res[j].0 > x.0 {
                break;
            }
            j += 1;
        }
        proof {
            if j == res.len() {
                assert(r.subrange(j as int, r.len() as int) =~= Seq::<(u64, T)>::empty());
            } else {
                assert(r.subrange(j as int, r.len() as int)[0] == r[j as int]);
            }
            let t = v@.take(i + 1);
            assert(t.drop_last() =~= v@.take(i as int));
            assert(t.last() == x);
        }
        res.insert(j, x);
        i += 1;
    }
    assert(v@.take(i as int) =~= v@);
    res
}

} // verus!
