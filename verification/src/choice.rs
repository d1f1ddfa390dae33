//! Picking the best-scored candidate, the way `Iterator::max_by_key` does:
//! the last of the candidates with the highest gain.
use vstd::prelude::*;
use crate::score::{ComputedScore, gain};

verus! {

/// The index of the last maximum of `s`.
pub open spec fn last_max_index(s: Seq<int>) -> Option<int>
    decreases s.len(),
{
    if s.len() == 0 {
        None
    } else {
        match last_max_index(s.drop_last()) {
            None => Some(s.len() - 1),
            Some(i) => if s.last() >= s[i] {
                Some(s.len() - 1)
            } else {
                Some(i)
            },
        }
    }
}

/// The gains of scored candidates, in order.
pub open spec fn gains<T>(v: Seq<(T, ComputedScore)>) -> Seq<int> {
    Seq::new(v.len(), |i: int| gain(v[i].1))
}

/// The picked index holds a highest gain, and every later candidate gains
/// strictly less; there is a pick exactly when there are candidates.
pub proof fn lemma_last_max_index(s: Seq<int>)
    ensures
        last_max_index(s) is None <==> s.len() == 0,
        last_max_index(s) matches Some(i) ==> {
            &&& 0 <= i < s.len()
            &&& forall|j: int| 0 <= j < s.len() ==> s[j] <= s[i]
            &&& forall|j: int| i < j < s.len() ==> s[j] < s[i]
        },
    decreases s.len(),
{
    if s.len() > 0 {
        let d = s.drop_last();
        lemma_last_max_index(d);
        assert forall|j: int| 0 <= j < d.len() implies d[j] == s[j] by {}
    }
}

/// The index of the last candidate with the highest gain.
pub fn best_index<T>(v: &Vec<(T, ComputedScore)>) -> (res: Option<usize>)
    ensures
        res matches Some(i) ==> last_max_index(gains(v@)) == Some(i as int) && i < v@.len(),
        res is None ==> last_max_index(gains(v@)) is None,
{
    let mut best: Option<usize> = None;
    let mut best_gain: i64 = 0;
    let mut i: usize = 0;
    while i < v.len()
        invariant
            i <= v.len(),
            last_max_index(gains(v@).take(i as int)) == match best {
                Some(b) => Some(b as int),
                None => None::<int>,
            },
            best matches Some(b) ==> b < i && best_gain == gain(v@[b as int].1),
        decreases v.len() - i,
    {
        let g = v[i].1.wide_score();
        proof {
            let t = gains(v@).take(i + 1);
            assert(t.drop_last() =~= gains(v@).take(i as int));
            assert(t.last() == g);
            if let Some(b) = best {
                assert(t[b as int] == gain(v@[b as int].1));
            }
        }
        match best {
            None => {
                best = Some(i);
                best_gain = g;
            },
            Some(_) => {
                if g >= best_gain {
                    best = Some(i);
                    best_gain = g;
                }
            },
        }
        i += 1;
    }
    assert(gains(v@).take(i as int) =~= gains(v@));
    proof {
        lemma_last_max_index(gains(v@));
    }
    best
}

} // verus!
