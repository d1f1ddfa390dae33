//! Stable ordering of cards by power, weakest first.
use vstd::prelude::*;
use crate::game::{CardView, card_index, found_cards, lemma_card_index_bounds, spec_find_card};
use crate::ids::ObjectId;

verus! {

/// A card's power, zero when it has none.
pub open spec fn power_of(c: CardView) -> u32 {
    match c.power {
        Some(p) => p,
        None => 0,
    }
}

/// The key the cards are ordered by: the power read as a signed 32-bit value.
pub open spec fn power_key(c: CardView) -> i32 {
    power_of(c) as i32
}

/// The first position in `s` whose key exceeds `k` (the length if none).
pub open spec fn first_greater(s: Seq<CardView>, k: i32) -> int
    decreases s.len(),
{
    if s.len() == 0 {
        0
    } else if power_key(s[0]) > k {
        0
    } else {
        1 + first_greater(s.drop_first(), k)
    }
}

/// `s` ordered by key; cards with equal keys keep their relative order.
pub open spec fn sorted_by_power(s: Seq<CardView>) -> Seq<CardView>
    decreases s.len(),
{
    if s.len() == 0 {
        Seq::empty()
    } else {
        let r = sorted_by_power(s.drop_last());
        r.insert(first_greater(r, power_key(s.last())), s.last())
    }
}

pub open spec fn is_sorted_by_power(s: Seq<CardView>) -> bool {
    forall|i: int, j: int| 0 <= i <= j < s.len() ==> power_key(#[trigger] s[i]) <= power_key(#[trigger] s[j])
}

proof fn lemma_first_greater(s: Seq<CardView>, k: i32)
    ensures
        0 <= first_greater(s, k) <= s.len(),
        forall|i: int| 0 <= i < first_greater(s, k) ==> power_key(#[trigger] s[i]) <= k,
        first_greater(s, k) < s.len() ==> power_key(s[first_greater(s, k)]) > k,
    decreases s.len(),
{
    if s.len() > 0 && power_key(s[0]) <= k {
        lemma_first_greater(s.drop_first(), k);
        assert forall|i: int| 0 <= i < first_greater(s, k) implies power_key(#[trigger] s[i]) <= k by {
            if i > 0 {
                assert(s[i] == s.drop_first()[i - 1]);
            }
        }
    }
}

/// The stable ordering is ordered by key.
pub proof fn lemma_sorted_by_power_is_sorted(s: Seq<CardView>)
    ensures
        is_sorted_by_power(sorted_by_power(s)),
        sorted_by_power(s).len() == s.len(),
    decreases s.len(),
{
    if s.len() > 0 {
        let r = sorted_by_power(s.drop_last());
        lemma_sorted_by_power_is_sorted(s.drop_last());
        let x = s.last();
        let p = first_greater(r, power_key(x));
        lemma_first_greater(r, power_key(x));
        let t = r.insert(p, x);
        assert forall|i: int, j: int| 0 <= i <= j < t.len() implies power_key(#[trigger] t[i])
            <= power_key(#[trigger] t[j]) by {
            if i < p && j < p {
                assert(t[i] == r[i] && t[j] == r[j]);
            } else if i < p && j == p {
                assert(t[i] == r[i]);
            } else if i < p {
                assert(t[i] == r[i] && t[j] == r[j - 1]);
            } else if i == p && j > p {
                assert(t[j] == r[j - 1]);
            } else if i > p {
                assert(t[i] == r[i - 1] && t[j] == r[j - 1]);
            }
        }
    }
}

/// The stable ordering holds the same cards, each as often.
pub proof fn lemma_sorted_by_power_permutes(s: Seq<CardView>)
    ensures
        sorted_by_power(s).to_multiset() == s.to_multiset(),
    decreases s.len(),
{
    broadcast use vstd::seq_lib::to_multiset_insert, vstd::seq_lib::to_multiset_build;

    if s.len() > 0 {
        let r = sorted_by_power(s.drop_last());
        lemma_sorted_by_power_permutes(s.drop_last());
        lemma_sorted_by_power_is_sorted(s.drop_last());
        lemma_first_greater(r, power_key(s.last()));
        assert(s.drop_last().push(s.last()) =~= s);
    } else {
        assert(sorted_by_power(s) =~= s);
    }
}

/// The cards ordered by power, weakest first; cards of equal power keep
/// their order.
pub fn sort_by_power(v: &Vec<CardView>) -> (res: Vec<CardView>)
    ensures
        res@ == sorted_by_power(v@),
{
    let mut res: Vec<CardView> = Vec::new();
    let mut i: usize = 0;
    while i < v.len()
        invariant
            i <= v.len(),
            res@ == sorted_by_power(v@.take(i as int)),
        decreases v.len() - i,
    {
        let x = v[i];
        let k: i32 = #[verifier::truncate] (match x.power {
            Some(p) => p,
            None => 0,
        } as i32);
        let ghost r = res@;
        proof {
            lemma_sorted_by_power_is_sorted(v@.take(i as int));
        }
        let mut j: usize = 0;
        assert(r.subrange(0, r.len() as int) =~= r);
        while j < res.len()
            invariant
                j <= res.len(),
                res@ == r,
                k == power_key(x),
                first_greater(r, k) == j + first_greater(r.subrange(j as int, r.len() as int), k),
            ensures
                j <= res.len(),
                res@ == r,
                first_greater(r, k) == j + first_greater(r.subrange(j as int, r.len() as int), k),
                j == res.len() || power_key(r[j as int]) > k,
            decreases res.len() - j,
        {
            let rk: i32 = #[verifier::truncate] (match res[j].power {
                Some(p) => p,
                None => 0,
            } as i32);
            proof {
                let rest = r.subrange(j as int, r.len() as int);
                assert(rest[0] == r[j as int]);
                assert(rest.drop_first() =~= r.subrange(j + 1, r.len() as int));
            }
            if rk > k {
                break;
            }
            j += 1;
        }
        proof {
            if j == res.len() {
                assert(r.subrange(j as int, r.len() as int) =~= Seq::<CardView>::empty());
            } else {
                assert(r.subrange(j as int, r.len() as int)[0] == r[j as int]);
            }
            assert(first_greater(r, k) == j);
            let t = v@.take(i + 1);
            assert(t.drop_last() =~= v@.take(i as int));
            assert(t.last() == x);
        }
        res.insert(j, x);
        i += 1;
    }
    assert(v@.take(i as int) =~= v@);
    res
}

/// The ids of `cs`, in order.
pub open spec fn ids_of(cs: Seq<CardView>) -> Seq<ObjectId> {
    cs.map_values(|c: CardView| c.id)
}

/// Whether no two entries of `s` are the same id.
pub open spec fn distinct_ids(s: Seq<ObjectId>) -> bool {
    forall|i: int, j: int| 0 <= i < j < s.len() ==> s[i] != s[j]
}

/// Ordering by power keeps the ids: the same ids occur, and distinct ones
/// stay distinct.
pub proof fn lemma_sorted_ids(s: Seq<CardView>)
    ensures
        forall|x: ObjectId| ids_of(sorted_by_power(s)).contains(x) <==> ids_of(s).contains(x),
        distinct_ids(ids_of(s)) ==> distinct_ids(ids_of(sorted_by_power(s))),
    decreases s.len(),
{
    if s.len() > 0 {
        let d = s.drop_last();
        let x = s.last();
        let r = sorted_by_power(d);
        lemma_sorted_ids(d);
        lemma_sorted_by_power_is_sorted(d);
        lemma_first_greater(r, power_key(x));
        let p = first_greater(r, power_key(x));
        let t = r.insert(p, x);
        r.insert_ensures(p, x);
        assert(sorted_by_power(s) == t);
        assert forall|y: ObjectId| ids_of(d).contains(y) implies ids_of(s).contains(y) by {
            let k = choose|k: int| 0 <= k < ids_of(d).len() && ids_of(d)[k] == y;
            assert(ids_of(s)[k] == y);
        }
        assert(ids_of(s)[s.len() - 1] == x.id);
        assert(ids_of(t)[p] == x.id);
        assert forall|y: ObjectId| ids_of(t).contains(y) <==> ids_of(s).contains(y) by {
            if ids_of(t).contains(y) {
                let k = choose|k: int| 0 <= k < ids_of(t).len() && ids_of(t)[k] == y;
                if k < p {
                    assert(ids_of(r)[k] == y);
                } else if k > p {
                    assert(ids_of(r)[k - 1] == y);
                }
            }
            if ids_of(s).contains(y) {
                let k = choose|k: int| 0 <= k < ids_of(s).len() && ids_of(s)[k] == y;
                if k < d.len() {
                    assert(ids_of(d)[k] == y);
                    assert(ids_of(d).contains(y));
                    assert(ids_of(r).contains(y));
                    let j = choose|j: int| 0 <= j < ids_of(r).len() && ids_of(r)[j] == y;
                    if j < p {
                        assert(ids_of(t)[j] == y);
                    } else {
                        assert(ids_of(t)[j + 1] == y);
                    }
                }
            }
        }
        if distinct_ids(ids_of(s)) {
            assert forall|i: int, j: int| 0 <= i < j < ids_of(d).len() implies ids_of(d)[i] != ids_of(d)[j] by {
                assert(ids_of(d)[i] == ids_of(s)[i] && ids_of(d)[j] == ids_of(s)[j]);
            }
            assert(!ids_of(r).contains(x.id)) by {
                if ids_of(d).contains(x.id) {
                    let k = choose|k: int| 0 <= k < ids_of(d).len() && ids_of(d)[k] == x.id;
                    assert(ids_of(s)[k] == ids_of(s)[s.len() - 1]);
                }
            }
            assert forall|i: int, j: int| 0 <= i < j < ids_of(t).len() implies ids_of(t)[i] != ids_of(t)[j] by {
                let ii = if i < p { i } else { i - 1 };
                let jj = if j < p { j } else { j - 1 };
                if i == p {
                    assert(ids_of(t)[j] == ids_of(r)[jj]);
                } else if j == p {
                    assert(ids_of(t)[i] == ids_of(r)[ii]);
                } else {
                    assert(ids_of(t)[i] == ids_of(r)[ii]);
                    assert(ids_of(t)[j] == ids_of(r)[jj]);
                }
            }
        }
    } else {
        assert(ids_of(sorted_by_power(s)) =~= ids_of(s));
    }
}

/// The cards found for `ids` carry those ids only, and distinct ids give
/// distinct cards.
pub proof fn lemma_found_ids(cards: Seq<CardView>, ids: Seq<ObjectId>)
    ensures
        forall|x: ObjectId| ids_of(found_cards(cards, ids)).contains(x) ==> ids.contains(x),
        distinct_ids(ids) ==> distinct_ids(ids_of(found_cards(cards, ids))),
    decreases ids.len(),
{
    if ids.len() > 0 {
        let d = ids.drop_last();
        let r = found_cards(cards, d);
        lemma_found_ids(cards, d);
        lemma_card_index_bounds(cards, ids.last());
        assert forall|y: ObjectId| d.contains(y) implies ids.contains(y) by {
            let k = choose|k: int| 0 <= k < d.len() && d[k] == y;
            assert(ids[k] == y);
        }
        assert(ids[ids.len() - 1] == ids.last());
        match spec_find_card(cards, ids.last()) {
            Some(c) => {
                let t = r.push(c);
                assert(c.id == ids.last());
                assert forall|y: ObjectId| ids_of(t).contains(y) implies ids.contains(y) by {
                    let k = choose|k: int| 0 <= k < ids_of(t).len() && ids_of(t)[k] == y;
                    if k < r.len() {
                        assert(ids_of(r)[k] == y);
                    }
                }
                if distinct_ids(ids) {
                    assert forall|i: int, j: int| 0 <= i < j < d.len() implies d[i] != d[j] by {
                        assert(d[i] == ids[i] && d[j] == ids[j]);
                    }
                    assert forall|i: int, j: int| 0 <= i < j < ids_of(t).len() implies ids_of(t)[i] != ids_of(t)[j] by {
                        if j == r.len() {
                            assert(ids_of(t)[i] == ids_of(r)[i]);
                            assert(ids_of(r).contains(ids_of(r)[i]));
                            if d.contains(c.id) {
                                let k = choose|k: int| 0 <= k < d.len() && d[k] == c.id;
                                assert(ids[k] == ids[ids.len() - 1]);
                            }
                        } else {
                            assert(ids_of(t)[i] == ids_of(r)[i] && ids_of(t)[j] == ids_of(r)[j]);
                        }
                    }
                }
            },
            None => {
                if distinct_ids(ids) {
                    assert forall|i: int, j: int| 0 <= i < j < d.len() implies d[i] != d[j] by {
                        assert(d[i] == ids[i] && d[j] == ids[j]);
                    }
                }
            },
        }
    }
}

} // verus!
