//! Enumeration of the choices the bot weighs: every selection of attackers,
//! and every set of attacker/blocker pairs in which no card is used twice.
use vstd::prelude::*;
use crate::ids::ObjectId;

verus! {

/// `pre + c` for every `c` of `cs`, in order.
pub open spec fn prefix_all<T>(pre: Seq<T>, cs: Seq<Seq<T>>) -> Seq<Seq<T>> {
    Seq::new(cs.len(), |j: int| pre + cs[j])
}

/// The part of `s` from index `start` on (empty when `start` is past the end).
pub open spec fn suffix_from<T>(s: Seq<T>, start: int) -> Seq<T> {
    if start < s.len() {
        s.subrange(start, s.len() as int)
    } else {
        Seq::empty()
    }
}

/// All `m`-element subsequences of `s`, in lexicographic order of their
/// index tuples.
pub open spec fn combinations_of<T>(s: Seq<T>, m: nat) -> Seq<Seq<T>>
    decreases s.len(),
{
    if m == 0 {
        seq![Seq::empty()]
    } else if s.len() == 0 {
        Seq::empty()
    } else {
        prefix_all(seq![s[0]], combinations_of(s.drop_first(), (m - 1) as nat))
            + combinations_of(s.drop_first(), m)
    }
}

/// The subsequences of `s` of length at most `k`, shortest first.
pub open spec fn combinations_up_to<T>(s: Seq<T>, k: nat) -> Seq<Seq<T>>
    decreases k,
{
    if k == 0 {
        combinations_of(s, 0)
    } else {
        combinations_up_to(s, (k - 1) as nat) + combinations_of(s, k)
    }
}

/// Every subsequence of `s`, by length and then lexicographically.
pub open spec fn all_combinations<T>(s: Seq<T>) -> Seq<Seq<T>> {
    combinations_up_to(s, s.len())
}

/// Whether `p` shares neither its attacker nor its blocker with a pair of `taken`.
pub open spec fn pair_fits<A, B>(taken: Seq<(A, B)>, p: (A, B)) -> bool {
    forall|j: int| 0 <= j < taken.len() ==> (#[trigger] taken[j]).0 != p.0 && taken[j].1 != p.1
}

/// Whether no attacker and no blocker occurs twice in `ps`.
pub open spec fn is_matching<A, B>(ps: Seq<(A, B)>) -> bool {
    forall|i: int, j: int|
        0 <= i < j < ps.len() ==> (#[trigger] ps[i]).0 != (#[trigger] ps[j]).0 && ps[i].1
            != ps[j].1
}

/// The `m`-element subsequences of `s` that, added to `taken`, reuse no
/// attacker and no blocker, in lexicographic order of their index tuples.
pub open spec fn matchings_of<A, B>(s: Seq<(A, B)>, m: nat, taken: Seq<(A, B)>) -> Seq<
    Seq<(A, B)>,
>
    decreases s.len(),
{
    if m == 0 {
        seq![Seq::empty()]
    } else if s.len() == 0 {
        Seq::empty()
    } else {
        (if pair_fits(taken, s[0]) {
            prefix_all(seq![s[0]], matchings_of(s.drop_first(), (m - 1) as nat, taken.push(s[0])))
        } else {
            Seq::empty()
        }) + matchings_of(s.drop_first(), m, taken)
    }
}

/// The matchings of `s` of size at most `k`, smallest first.
pub open spec fn matchings_up_to<A, B>(s: Seq<(A, B)>, k: nat) -> Seq<Seq<(A, B)>>
    decreases k,
{
    if k == 0 {
        matchings_of(s, 0, Seq::empty())
    } else {
        matchings_up_to(s, (k - 1) as nat) + matchings_of(s, k, Seq::empty())
    }
}

/// `a` paired with each of `blockers`, in order.
pub open spec fn pairs_with<A, B>(a: A, blockers: Seq<B>) -> Seq<(A, B)> {
    Seq::new(blockers.len(), |j: int| (a, blockers[j]))
}

/// Every attacker/blocker pair: for each attacker in order, each blocker in order.
pub open spec fn all_pairs<A, B>(attackers: Seq<A>, blockers: Seq<B>) -> Seq<(A, B)>
    decreases attackers.len(),
{
    if attackers.len() == 0 {
        Seq::empty()
    } else {
        all_pairs(attackers.drop_last(), blockers) + pairs_with(attackers.last(), blockers)
    }
}

/// Every set of attacker/blocker pairs in which no attacker and no blocker
/// occurs twice, by size and then in order.
pub open spec fn all_battle_combinations<A, B>(attackers: Seq<A>, blockers: Seq<B>) -> Seq<
    Seq<(A, B)>,
> {
    let pairs = all_pairs(attackers, blockers);
    matchings_up_to(pairs, pairs.len())
}

/// Whether `c` is a subsequence of `s`: its items appear in `s` at strictly
/// increasing positions.
pub open spec fn is_subsequence<T>(c: Seq<T>, s: Seq<T>) -> bool {
    exists|idx: Seq<int>|
        {
            &&& idx.len() == c.len()
            &&& forall|i: int| 0 <= i < idx.len() ==> 0 <= #[trigger] idx[i] < s.len() && s[idx[i]] == c[i]
            &&& forall|i: int, j: int| 0 <= i < j < idx.len() ==> #[trigger] idx[i] < #[trigger] idx[j]
        }
}

pub open spec fn pow2(n: nat) -> nat
    decreases n,
{
    if n == 0 {
        1
    } else {
        2 * pow2((n - 1) as nat)
    }
}

pub open spec fn binomial(n: nat, k: nat) -> nat
    decreases n,
{
    if k == 0 {
        1
    } else if n == 0 {
        0
    } else {
        binomial((n - 1) as nat, (k - 1) as nat) + binomial((n - 1) as nat, k)
    }
}

// ---------------------------------------------------------------------------
// Lemmas about the sequences above.
proof fn lemma_prefix_all_add<T>(pre: Seq<T>, x: Seq<Seq<T>>, y: Seq<Seq<T>>)
    ensures
        prefix_all(pre, x + y) == prefix_all(pre, x) + prefix_all(pre, y),
{
    assert(prefix_all(pre, x + y) =~= prefix_all(pre, x) + prefix_all(pre, y));
}

proof fn lemma_prefix_all_nested<T>(pre: Seq<T>, a: T, x: Seq<Seq<T>>)
    ensures
        prefix_all(pre, prefix_all(seq![a], x)) == prefix_all(pre.push(a), x),
{
    assert forall|j: int| 0 <= j < x.len() implies pre + (seq![a] + x[j]) == pre.push(a) + x[j] by {
        assert(pre + (seq![a] + x[j]) =~= pre.push(a) + x[j]);
    }
    assert(prefix_all(pre, prefix_all(seq![a], x)) =~= prefix_all(pre.push(a), x));
}

proof fn lemma_prefix_all_empty<T>(pre: Seq<T>)
    ensures
        prefix_all(pre, seq![Seq::<T>::empty()]) == seq![pre],
{
    assert(pre + Seq::<T>::empty() =~= pre);
    assert(prefix_all(pre, seq![Seq::<T>::empty()]) =~= seq![pre]);
}

proof fn lemma_suffix_step<T>(s: Seq<T>, i: int)
    requires
        0 <= i < s.len(),
    ensures
        suffix_from(s, i).len() > 0,
        suffix_from(s, i)[0] == s[i],
        suffix_from(s, i).drop_first() == suffix_from(s, i + 1),
{
    assert(suffix_from(s, i).drop_first() =~= suffix_from(s, i + 1));
}

proof fn lemma_suffix_whole<T>(s: Seq<T>)
    ensures
        suffix_from(s, 0) == s,
{
    if s.len() > 0 {
        assert(s.subrange(0, s.len() as int) =~= s);
    } else {
        assert(s =~= Seq::<T>::empty());
    }
}

/// Each combination of `combinations_of(s, m)` has `m` items.
pub proof fn lemma_combination_lengths<T>(s: Seq<T>, m: nat)
    ensures
        forall|i: int|
            0 <= i < combinations_of(s, m).len() ==> (#[trigger] combinations_of(s, m)[i]).len()
                == m,
    decreases s.len(),
{
    if m != 0 && s.len() != 0 {
        lemma_combination_lengths(s.drop_first(), (m - 1) as nat);
        lemma_combination_lengths(s.drop_first(), m);
        let a = prefix_all(seq![s[0]], combinations_of(s.drop_first(), (m - 1) as nat));
        let b = combinations_of(s.drop_first(), m);
        assert forall|i: int| 0 <= i < (a + b).len() implies (#[trigger] (a + b)[i]).len() == m by {
            if i < a.len() {
                assert(a[i] == seq![s[0]] + combinations_of(s.drop_first(), (m - 1) as nat)[i]);
            } else {
                assert((a + b)[i] == b[i - a.len()]);
            }
        }
    }
}

/// There are `binomial(n, m)` combinations of `m` items out of `n`.
pub proof fn lemma_combination_count<T>(s: Seq<T>, m: nat)
    ensures
        combinations_of(s, m).len() == binomial(s.len(), m),
    decreases s.len(),
{
    if m != 0 && s.len() != 0 {
        lemma_combination_count(s.drop_first(), (m - 1) as nat);
        lemma_combination_count(s.drop_first(), m);
    }
}

proof fn lemma_binomial_beyond(n: nat, k: nat)
    requires
        k > n,
    ensures
        binomial(n, k) == 0,
    decreases n,
{
    if n > 0 {
        lemma_binomial_beyond((n - 1) as nat, (k - 1) as nat);
        lemma_binomial_beyond((n - 1) as nat, k);
    }
}

pub open spec fn binomial_sum(n: nat, k: nat) -> nat
    decreases k,
{
    if k == 0 {
        binomial(n, 0)
    } else {
        binomial_sum(n, (k - 1) as nat) + binomial(n, k)
    }
}

/// Pascal's rule summed: the first `k + 1` binomials of row `n + 1`.
proof fn lemma_binomial_sum_step(n: nat, k: nat)
    ensures
        binomial_sum(n + 1, k + 1) == 2 * binomial_sum(n, k) + binomial(n, k + 1),
    decreases k,
{
    assert(binomial(n + 1, k + 1) == binomial(n, k) + binomial(n, k + 1));
    assert(binomial_sum(n + 1, k + 1) == binomial_sum(n + 1, k) + binomial(n + 1, k + 1));
    if k > 0 {
        lemma_binomial_sum_step(n, (k - 1) as nat);
        assert(binomial_sum(n, k) == binomial_sum(n, (k - 1) as nat) + binomial(n, k));
    } else {
        assert(binomial(n + 1, 0) == 1);
        assert(binomial(n, 0) == 1);
    }
}

proof fn lemma_binomial_sum_full(n: nat)
    ensures
        binomial_sum(n, n) == pow2(n),
    decreases n,
{
    if n > 0 {
        let m = (n - 1) as nat;
        lemma_binomial_sum_full(m);
        lemma_binomial_sum_step(m, m);
        lemma_binomial_beyond(m, n);
    }
}

proof fn lemma_up_to_count<T>(s: Seq<T>, k: nat)
    ensures
        combinations_up_to(s, k).len() == binomial_sum(s.len(), k),
    decreases k,
{
    lemma_combination_count(s, k);
    if k > 0 {
        lemma_up_to_count(s, (k - 1) as nat);
    }
}

/// A list of `n` candidates has exactly `2^n` selections, the empty one and
/// the full one included.
pub proof fn lemma_all_combinations_count<T>(s: Seq<T>)
    ensures
        all_combinations(s).len() == pow2(s.len()),
{
    lemma_up_to_count(s, s.len());
    lemma_binomial_sum_full(s.len());
}

/// Every combination is a subsequence of its source.
pub proof fn lemma_combinations_are_subsequences<T>(s: Seq<T>, m: nat)
    ensures
        forall|i: int|
            0 <= i < combinations_of(s, m).len() ==> is_subsequence(
                #[trigger] combinations_of(s, m)[i],
                s,
            ),
    decreases s.len(),
{
    if m == 0 {
        let e = Seq::<T>::empty();
        assert(combinations_of(s, m)[0] == e);
        let idx = Seq::<int>::empty();
        assert(idx.len() == e.len());
    } else if s.len() != 0 {
        let t = s.drop_first();
        lemma_combinations_are_subsequences(t, (m - 1) as nat);
        lemma_combinations_are_subsequences(t, m);
        let a = prefix_all(seq![s[0]], combinations_of(t, (m - 1) as nat));
        let b = combinations_of(t, m);
        assert forall|i: int| 0 <= i < (a + b).len() implies is_subsequence(#[trigger] (a + b)[i], s) by {
            if i < a.len() {
                let c = combinations_of(t, (m - 1) as nat)[i];
                assert(is_subsequence(c, t));
                let idx = choose|idx: Seq<int>|
                    {
                        &&& idx.len() == c.len()
                        &&& forall|i: int| 0 <= i < idx.len() ==> 0 <= #[trigger] idx[i] < t.len() && t[idx[i]] == c[i]
                        &&& forall|i: int, j: int| 0 <= i < j < idx.len() ==> #[trigger] idx[i] < #[trigger] idx[j]
                    };
                let idx2 = seq![0int] + Seq::new(idx.len(), |j: int| idx[j] + 1);
                let d = seq![s[0]] + c;
                assert(a[i] == d);
                assert(idx2.len() == d.len());
                assert forall|j: int| 0 <= j < idx2.len() implies 0 <= #[trigger] idx2[j] < s.len()
                    && s[idx2[j]] == d[j] by {
                    if j > 0 {
                        assert(idx2[j] == idx[j - 1] + 1);
                        assert(t[idx[j - 1]] == s[idx[j - 1] + 1]);
                        assert(d[j] == c[j - 1]);
                    } else {
                        assert(idx2[0] == 0);
                        assert(d[0] == s[0]);
                    }
                }
                assert forall|x: int, y: int| 0 <= x < y < idx2.len() implies #[trigger] idx2[x]
                    < #[trigger] idx2[y] by {
                    if x > 0 {
                        assert(idx[x - 1] < idx[y - 1]);
                    } else {
                        assert(idx2[y] == idx[y - 1] + 1);
                    }
                }
                assert(is_subsequence(d, s));
            } else {
                let c = b[i - a.len()];
                assert((a + b)[i] == c);
                assert(is_subsequence(c, t));
                let idx = choose|idx: Seq<int>|
                    {
                        &&& idx.len() == c.len()
                        &&& forall|i: int| 0 <= i < idx.len() ==> 0 <= #[trigger] idx[i] < t.len() && t[idx[i]] == c[i]
                        &&& forall|i: int, j: int| 0 <= i < j < idx.len() ==> #[trigger] idx[i] < #[trigger] idx[j]
                    };
                let idx2 = Seq::new(idx.len(), |j: int| idx[j] + 1);
                assert(idx2.len() == c.len());
                assert forall|j: int| 0 <= j < idx2.len() implies 0 <= #[trigger] idx2[j] < s.len()
                    && s[idx2[j]] == c[j] by {
                    assert(idx2[j] == idx[j] + 1);
                    assert(t[idx[j]] == s[idx[j] + 1]);
                }
                assert forall|x: int, y: int| 0 <= x < y < idx2.len() implies #[trigger] idx2[x]
                    < #[trigger] idx2[y] by {
                    assert(idx[x] < idx[y]);
                }
                assert(is_subsequence(c, s));
            }
        }
    }
}

proof fn lemma_matching_push<A, B>(taken: Seq<(A, B)>, p: (A, B))
    requires
        is_matching(taken),
        pair_fits(taken, p),
    ensures
        is_matching(taken.push(p)),
{
    let t = taken.push(p);
    assert forall|i: int, j: int| 0 <= i < j < t.len() implies (#[trigger] t[i]).0 != (#[trigger] t[j]).0
        && t[i].1 != t[j].1 by {
        if j == taken.len() {
            assert(t[i] == taken[i]);
        } else {
            assert(t[i] == taken[i] && t[j] == taken[j]);
        }
    }
}

/// Whatever `matchings_of` adds to a matching `taken` keeps it a matching.
pub proof fn lemma_matchings_keep_matching<A, B>(s: Seq<(A, B)>, m: nat, taken: Seq<(A, B)>)
    requires
        is_matching(taken),
    ensures
        forall|i: int|
            0 <= i < matchings_of(s, m, taken).len() ==> is_matching(
                taken + #[trigger] matchings_of(s, m, taken)[i],
            ),
    decreases s.len(),
{
    if m == 0 {
        assert(matchings_of(s, m, taken)[0] == Seq::<(A, B)>::empty());
        assert(taken + Seq::<(A, B)>::empty() =~= taken);
    } else if s.len() != 0 {
        let t = s.drop_first();
        lemma_matchings_keep_matching(t, m, taken);
        let a = if pair_fits(taken, s[0]) {
            lemma_matching_push(taken, s[0]);
            lemma_matchings_keep_matching(t, (m - 1) as nat, taken.push(s[0]));
            prefix_all(seq![s[0]], matchings_of(t, (m - 1) as nat, taken.push(s[0])))
        } else {
            Seq::empty()
        };
        let b = matchings_of(t, m, taken);
        assert(matchings_of(s, m, taken) == a + b);
        assert forall|i: int| 0 <= i < (a + b).len() implies is_matching(taken + #[trigger] (a + b)[i]) by {
            if i < a.len() {
                let c = matchings_of(t, (m - 1) as nat, taken.push(s[0]))[i];
                assert(a[i] == seq![s[0]] + c);
                assert(taken + (seq![s[0]] + c) =~= taken.push(s[0]) + c);
            } else {
                assert((a + b)[i] == b[i - a.len()]);
            }
        }
    }
}

/// Every candidate block that the search considers uses each attacker and
/// each blocker at most once.
pub proof fn lemma_battle_combinations_are_matchings<A, B>(s: Seq<(A, B)>, k: nat)
    ensures
        forall|i: int|
            0 <= i < matchings_up_to(s, k).len() ==> is_matching(
                #[trigger] matchings_up_to(s, k)[i],
            ),
    decreases k,
{
    let e = Seq::<(A, B)>::empty();
    lemma_matchings_keep_matching(s, k, e);
    assert forall|i: int| 0 <= i < matchings_of(s, k, e).len() implies is_matching(
        #[trigger] matchings_of(s, k, e)[i],
    ) by {
        assert(e + matchings_of(s, k, e)[i] =~= matchings_of(s, k, e)[i]);
    }
    if k > 0 {
        lemma_battle_combinations_are_matchings(s, (k - 1) as nat);
        let a = matchings_up_to(s, (k - 1) as nat);
        let b = matchings_of(s, k, e);
        assert forall|i: int| 0 <= i < (a + b).len() implies is_matching(#[trigger] (a + b)[i]) by {
            if i >= a.len() {
                assert((a + b)[i] == b[i - a.len()]);
            }
        }
    } else {
        assert(matchings_up_to(s, k) == matchings_of(s, k, e));
    }
}

// ---------------------------------------------------------------------------
// Executable enumeration.

fn copy_vec<T: Copy>(v: &Vec<T>) -> (res: Vec<T>)
    ensures
        res@ == v@,
{
    let mut res: Vec<T> = Vec::new();
    let mut i: usize = 0;
    while i < v.len()
        invariant
            i <= v.len(),
            res@ == v@.subrange(0, i as int),
        decreases v.len() - i,
    {
        res.push(v[i]);
        i += 1;
        assert(res@ =~= v@.subrange(0, i as int));
    }
    assert(res@ =~= v@);
    res
}

/// Appends to `result` every way of extending `current` to `k` items with
/// items of `arr` taken in order from index `start` on.
pub fn backtrack<T: Copy>(
    arr: &[T],
    k: usize,
    start: usize,
    current: &mut Vec<T>,
    result: &mut Vec<Vec<T>>,
)
    ensures
        final(current)@ == old(current)@,
        final(result)@.len() >= old(result)@.len(),
        final(result)@.subrange(0, old(result)@.len() as int) == old(result)@,
        old(current)@.len() <= k ==> final(result)@.map_values(|v: Vec<T>| v@) == old(
            result,
        )@.map_values(|v: Vec<T>| v@) + prefix_all(
            old(current)@,
            combinations_of(suffix_from(arr@, start as int), (k - old(current)@.len()) as nat),
        ),
        old(current)@.len() > k ==> final(result)@ == old(result)@,
    decreases arr@.len() - start,
{
    let ghost old_result = result@;
    let ghost cur = current@;
    if current.len() == k {
        let c = copy_vec(current);
        result.push(c);
        proof {
            lemma_prefix_all_empty(cur);
            assert(final(result)@.subrange(0, old_result.len() as int) =~= old_result);
            assert(result@.map_values(|v: Vec<T>| v@) =~= old_result.map_values(|v: Vec<T>| v@) + seq![cur]);
        }
        return;
    }
    let ghost r: nat = (k - cur.len()) as nat;
    let mut i = start;
    while i < arr.len()
        invariant
            start <= i,
            current@ == cur,
            cur.len() < k ==> r == k - cur.len(),
            cur.len() != k,
            result@.len() >= old_result.len(),
            result@.subrange(0, old_result.len() as int) == old_result,
            cur.len() > k ==> result@ == old_result,
            cur.len() < k ==> old_result.map_values(|v: Vec<T>| v@) + prefix_all(
                cur,
                combinations_of(suffix_from(arr@, start as int), r),
            ) == result@.map_values(|v: Vec<T>| v@) + prefix_all(
                cur,
                combinations_of(suffix_from(arr@, i as int), r),
            ),
        decreases arr.len() - i,
    {
        let ghost before = result@;
        current.push(arr[i]);
        backtrack(arr, k, i + 1, current, result);
        current.pop();
        proof {
            assert(current@ =~= cur);
            assert(result@.subrange(0, old_result.len() as int) =~= old_result) by {
                assert(result@.subrange(0, before.len() as int) == before);
                assert forall|j: int| 0 <= j < old_result.len() implies result@[j] == old_result[j] by {
                    assert(result@[j] == result@.subrange(0, before.len() as int)[j]);
                    assert(before[j] == before.subrange(0, old_result.len() as int)[j]);
                }
            }
            if cur.len() < k {
                let ii = i as int;
                lemma_suffix_step(arr@, ii);
                let tail = suffix_from(arr@, ii);
                let x = prefix_all(
                    seq![arr@[ii]],
                    combinations_of(suffix_from(arr@, ii + 1), (r - 1) as nat),
                );
                let y = combinations_of(suffix_from(arr@, ii + 1), r);
                assert(combinations_of(tail, r) == x + y);
                lemma_prefix_all_add(cur, x, y);
                lemma_prefix_all_nested(
                    cur,
                    arr@[ii],
                    combinations_of(suffix_from(arr@, ii + 1), (r - 1) as nat),
                );
                assert(cur.push(arr@[ii]).len() <= k);
                assert((k - cur.push(arr@[ii]).len()) as nat == (r - 1) as nat);
                let bv = before.map_values(|v: Vec<T>| v@);
                let p1 = prefix_all(cur.push(arr@[ii]), combinations_of(suffix_from(arr@, ii + 1), (r - 1) as nat));
                let p2 = prefix_all(cur, y);
                assert(result@.map_values(|v: Vec<T>| v@) == bv + p1);
                assert(bv + prefix_all(cur, combinations_of(tail, r)) == bv + (p1 + p2));
                assert(bv + (p1 + p2) =~= (bv + p1) + p2);
            } else {
                assert(result@ =~= before);
            }
        }
        i += 1;
    }
    proof {
        if cur.len() < k {
            let e = combinations_of(suffix_from(arr@, i as int), r);
            assert(suffix_from(arr@, i as int) =~= Seq::<T>::empty());
            assert(e =~= Seq::<Seq<T>>::empty());
            assert(prefix_all(cur, e) =~= Seq::<Seq<T>>::empty());
            assert(result@.map_values(|v: Vec<T>| v@) + prefix_all(cur, e) =~= result@.map_values(
                |v: Vec<T>| v@,
            ));
        }
    }
}

/// Every selection of the given candidates, by size and then in order,
/// including the empty one and the full one.
pub fn possible_combinations<T: Copy>(candidates: &[T]) -> (res: Vec<Vec<T>>)
    ensures
        res@.map_values(|v: Vec<T>| v@) == all_combinations(candidates@),
{
    let mut combinations: Vec<Vec<T>> = Vec::new();
    let n = candidates.len();
    let mut k: usize = 0;
    proof {
        lemma_suffix_whole(candidates@);
    }
    loop
        invariant_except_break
            k <= n,
            n == candidates@.len(),
            k == 0 ==> combinations@.len() == 0,
            k > 0 ==> combinations@.map_values(|v: Vec<T>| v@) == combinations_up_to(
                candidates@,
                (k - 1) as nat,
            ),
        ensures
            combinations@.map_values(|v: Vec<T>| v@) == combinations_up_to(candidates@, n as nat),
            n == candidates@.len(),
        decreases n - k,
    {
        let mut result: Vec<Vec<T>> = Vec::new();
        let mut current: Vec<T> = Vec::new();
        proof {
            lemma_suffix_whole(candidates@);
            assert(result@.map_values(|v: Vec<T>| v@) =~= Seq::<Seq<T>>::empty());
        }
        backtrack(candidates, k, 0, &mut current, &mut result);
        let ghost before = combinations@;
        let ghost old_result = result@;
        combinations.append(&mut result);
        proof {
            let e = Seq::<T>::empty();
            assert(e + Seq::<T>::empty() =~= e);
            let cs = combinations_of(candidates@, k as nat);
            assert(prefix_all(e, cs) =~= cs) by {
                assert forall|j: int| 0 <= j < cs.len() implies e + cs[j] == cs[j] by {
                    assert(e + cs[j] =~= cs[j]);
                }
            }
            let empty_vecs = Seq::<Vec<T>>::empty();
            assert(empty_vecs.map_values(|v: Vec<T>| v@) =~= Seq::<Seq<T>>::empty());
            assert(Seq::<Seq<T>>::empty() + cs =~= cs);
            assert(combinations@ =~= before + old_result);
            assert(old_result.map_values(|v: Vec<T>| v@) == cs);
            assert((before + old_result).map_values(|v: Vec<T>| v@) =~= before.map_values(
                |v: Vec<T>| v@,
            ) + old_result.map_values(|v: Vec<T>| v@));
            if k == 0 {
                assert(before.map_values(|v: Vec<T>| v@) =~= Seq::<Seq<T>>::empty());
                assert(combinations@.map_values(|v: Vec<T>| v@) =~= combinations_up_to(
                    candidates@,
                    0,
                ));
            }
        }
        if k == n {
            break;
        }
        k += 1;
    }
    combinations
}

/// Every selection of attackers (see [`possible_combinations`]).
pub fn possible_attacker_combinations(attackers: &[ObjectId]) -> (res: Vec<Vec<ObjectId>>)
    ensures
        res@.map_values(|v: Vec<ObjectId>| v@) == all_combinations(attackers@),
{
    possible_combinations(attackers)
}


/// Whether `(a, b)` shares neither attacker nor blocker with a pair of `current`.
fn fits(current: &Vec<(ObjectId, ObjectId)>, a: ObjectId, b: ObjectId) -> (res: bool)
    ensures
        res == pair_fits(current@, (a, b)),
{
    let mut j: usize = 0;
    while j < current.len()
        invariant
            j <= current.len(),
            forall|x: int| 0 <= x < j ==> (#[trigger] current@[x]).0 != a && current@[x].1 != b,
        decreases current.len() - j,
    {
        let (x, y) = current[j];
        if x == a || y == b {
            return false;
        }
        j += 1;
    }
    true
}

fn copy_pairs(v: &Vec<(ObjectId, ObjectId)>) -> (res: Vec<(ObjectId, ObjectId)>)
    ensures
        res@ == v@,
{
    copy_vec(v)
}

/// Appends to `result` every way of extending `current` to `k` pairs with
/// pairs of `arr` taken in order from index `start` on, never reusing an
/// attacker or a blocker.
pub fn backtrack_pair(
    arr: &[(ObjectId, ObjectId)],
    k: usize,
    start: usize,
    current: &mut Vec<(ObjectId, ObjectId)>,
    result: &mut Vec<Vec<(ObjectId, ObjectId)>>,
)
    ensures
        final(current)@ == old(current)@,
        final(result)@.len() >= old(result)@.len(),
        final(result)@.subrange(0, old(result)@.len() as int) == old(result)@,
        old(current)@.len() <= k ==> final(result)@.map_values(|v: Vec<(ObjectId, ObjectId)>| v@)
            == old(result)@.map_values(|v: Vec<(ObjectId, ObjectId)>| v@) + prefix_all(
            old(current)@,
            matchings_of(
                suffix_from(arr@, start as int),
                (k - old(current)@.len()) as nat,
                old(current)@,
            ),
        ),
        old(current)@.len() > k ==> final(result)@ == old(result)@,
    decreases arr@.len() - start,
{
    let ghost old_result = result@;
    let ghost cur = current@;
    if current.len() == k {
        let c = copy_pairs(current);
        result.push(c);
        proof {
            lemma_prefix_all_empty(cur);
            assert(final(result)@.subrange(0, old_result.len() as int) =~= old_result);
            assert(result@.map_values(|v: Vec<(ObjectId, ObjectId)>| v@) =~= old_result.map_values(
                |v: Vec<(ObjectId, ObjectId)>| v@,
            ) + seq![cur]);
        }
        return;
    }
    let ghost r: nat = (k - cur.len()) as nat;
    let mut i = start;
    while i < arr.len()
        invariant
            start <= i,
            current@ == cur,
            cur.len() != k,
            cur.len() < k ==> r == k - cur.len(),
            result@.len() >= old_result.len(),
            result@.subrange(0, old_result.len() as int) == old_result,
            cur.len() > k ==> result@ == old_result,
            cur.len() < k ==> old_result.map_values(|v: Vec<(ObjectId, ObjectId)>| v@) + prefix_all(
                cur,
                matchings_of(suffix_from(arr@, start as int), r, cur),
            ) == result@.map_values(|v: Vec<(ObjectId, ObjectId)>| v@) + prefix_all(
                cur,
                matchings_of(suffix_from(arr@, i as int), r, cur),
            ),
        decreases arr.len() - i,
    {
        let ghost before = result@;
        let (a, b) = arr[i];
        if fits(current, a, b) {
            current.push(arr[i]);
            backtrack_pair(arr, k, i + 1, current, result);
            current.pop();
        }
        proof {
            assert(current@ =~= cur);
            assert(result@.subrange(0, old_result.len() as int) =~= old_result) by {
                assert(result@.subrange(0, before.len() as int) == before);
                assert forall|j: int| 0 <= j < old_result.len() implies result@[j] == old_result[j] by {
                    assert(result@[j] == result@.subrange(0, before.len() as int)[j]);
                    assert(before[j] == before.subrange(0, old_result.len() as int)[j]);
                }
            }
            if cur.len() < k {
                let ii = i as int;
                lemma_suffix_step(arr@, ii);
                let tail = suffix_from(arr@, ii);
                let p = arr@[ii];
                assert(p == (a, b));
                let y = matchings_of(suffix_from(arr@, ii + 1), r, cur);
                let bv = before.map_values(|v: Vec<(ObjectId, ObjectId)>| v@);
                let p2 = prefix_all(cur, y);
                if pair_fits(cur, p) {
                    let inner = matchings_of(suffix_from(arr@, ii + 1), (r - 1) as nat, cur.push(p));
                    let x = prefix_all(seq![p], inner);
                    assert(matchings_of(tail, r, cur) == x + y);
                    lemma_prefix_all_add(cur, x, y);
                    lemma_prefix_all_nested(cur, p, inner);
                    assert(cur.push(p).len() <= k);
                    assert((k - cur.push(p).len()) as nat == (r - 1) as nat);
                    let p1 = prefix_all(cur.push(p), inner);
                    assert(result@.map_values(|v: Vec<(ObjectId, ObjectId)>| v@) == bv + p1);
                    assert(bv + prefix_all(cur, matchings_of(tail, r, cur)) == bv + (p1 + p2));
                    assert(bv + (p1 + p2) =~= (bv + p1) + p2);
                } else {
                    assert(matchings_of(tail, r, cur) =~= y);
                    assert(result@ == before);
                }
            } else {
                assert(result@ =~= before);
            }
        }
        i += 1;
    }
    proof {
        if cur.len() < k {
            let e = matchings_of(suffix_from(arr@, i as int), r, cur);
            assert(suffix_from(arr@, i as int) =~= Seq::<(ObjectId, ObjectId)>::empty());
            assert(e =~= Seq::<Seq<(ObjectId, ObjectId)>>::empty());
            assert(prefix_all(cur, e) =~= Seq::<Seq<(ObjectId, ObjectId)>>::empty());
            assert(result@.map_values(|v: Vec<(ObjectId, ObjectId)>| v@) + prefix_all(cur, e)
                =~= result@.map_values(|v: Vec<(ObjectId, ObjectId)>| v@));
        }
    }
}

/// Every attacker/blocker pair, attackers in the outer order.
fn pair_up(attackers: &[ObjectId], blockers: &[ObjectId]) -> (pairs: Vec<(ObjectId, ObjectId)>)
    ensures
        pairs@ == all_pairs(attackers@, blockers@),
{
    let mut pairs: Vec<(ObjectId, ObjectId)> = Vec::new();
    let mut i: usize = 0;
    while i < attackers.len()
        invariant
            i <= attackers.len(),
            pairs@ == all_pairs(attackers@.take(i as int), blockers@),
        decreases attackers.len() - i,
    {
        let ghost before = pairs@;
        let mut j: usize = 0;
        while j < blockers.len()
            invariant
                i < attackers.len(),
                j <= blockers.len(),
                pairs@ == before + pairs_with(attackers@[i as int], blockers@.take(j as int)),
            decreases blockers.len() - j,
        {
            pairs.push((attackers[i], blockers[j]));
            j += 1;
            assert(pairs@ =~= before + pairs_with(attackers@[i as int], blockers@.take(j as int)));
        }
        proof {
            assert(blockers@.take(j as int) =~= blockers@);
            let t = attackers@.take(i + 1);
            assert(t.drop_last() =~= attackers@.take(i as int));
            assert(t.last() == attackers@[i as int]);
        }
        i += 1;
    }
    assert(attackers@.take(i as int) =~= attackers@);
    pairs
}

/// Every way of blocking `attackers` with `blockers` in which no attacker
/// and no blocker is used twice, by number of pairs and then in order.
pub fn possible_battle_combinations(attackers: &[ObjectId], blockers: &[ObjectId]) -> (res: Vec<
    Vec<(ObjectId, ObjectId)>,
>)
    ensures
        res@.map_values(|v: Vec<(ObjectId, ObjectId)>| v@) == all_battle_combinations(
            attackers@,
            blockers@,
        ),
{
    let pairs = pair_up(attackers, blockers);
    let ghost ps = pairs@;
    let mut combinations: Vec<Vec<(ObjectId, ObjectId)>> = Vec::new();
    let n = pairs.len();
    let mut k: usize = 0;
    loop
        invariant_except_break
            k <= n,
            n == ps.len(),
            pairs@ == ps,
            k == 0 ==> combinations@.len() == 0,
            k > 0 ==> combinations@.map_values(|v: Vec<(ObjectId, ObjectId)>| v@)
                == matchings_up_to(ps, (k - 1) as nat),
        ensures
            combinations@.map_values(|v: Vec<(ObjectId, ObjectId)>| v@) == matchings_up_to(
                ps,
                n as nat,
            ),
            n == ps.len(),
        decreases n - k,
    {
        let mut result: Vec<Vec<(ObjectId, ObjectId)>> = Vec::new();
        let mut current: Vec<(ObjectId, ObjectId)> = Vec::new();
        proof {
            lemma_suffix_whole(ps);
            assert(result@.map_values(|v: Vec<(ObjectId, ObjectId)>| v@) =~= Seq::<
                Seq<(ObjectId, ObjectId)>,
            >::empty());
        }
        backtrack_pair(pairs.as_slice(), k, 0, &mut current, &mut result);
        let ghost before = combinations@;
        let ghost old_result = result@;
        combinations.append(&mut result);
        proof {
            let e = Seq::<(ObjectId, ObjectId)>::empty();
            let cs = matchings_of(ps, k as nat, e);
            assert(prefix_all(e, cs) =~= cs) by {
                assert forall|j: int| 0 <= j < cs.len() implies e + cs[j] == cs[j] by {
                    assert(e + cs[j] =~= cs[j]);
                }
            }
            assert(Seq::<Seq<(ObjectId, ObjectId)>>::empty() + cs =~= cs);
            assert(combinations@ =~= before + old_result);
            assert(old_result.map_values(|v: Vec<(ObjectId, ObjectId)>| v@) == cs);
            assert((before + old_result).map_values(|v: Vec<(ObjectId, ObjectId)>| v@)
                =~= before.map_values(|v: Vec<(ObjectId, ObjectId)>| v@) + old_result.map_values(
                |v: Vec<(ObjectId, ObjectId)>| v@,
            ));
            if k == 0 {
                assert(before.map_values(|v: Vec<(ObjectId, ObjectId)>| v@) =~= Seq::<
                    Seq<(ObjectId, ObjectId)>,
                >::empty());
                assert(combinations@.map_values(|v: Vec<(ObjectId, ObjectId)>| v@)
                    =~= matchings_up_to(ps, 0));
            }
        }
        if k == n {
            break;
        }
        k += 1;
    }
    combinations
}

} // verus!
