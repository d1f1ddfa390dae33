//! The default bot: it looks ahead by asking the engine how each candidate
//! move ends the turn, and keeps the candidates that gain the most.
use vstd::prelude::*;
use crate::choice::{best_index, gains, last_max_index};
use crate::combinations::{
    all_battle_combinations, all_combinations, possible_attacker_combinations,
    possible_battle_combinations,
};
use crate::game::{
    Action, ActionSpec, FieldBattleState, FieldCard, GameView, Offer, PlayerAvailableActions,
    attackers, blockers, castable_cards, copy_ids, copy_pair_list, offered, selectable_cards,
    next_seat,
};
use crate::ids::ObjectId;
use crate::entropy::EntropyError;
use crate::score::{ComputedScore, gain};
use crate::simple::scored_views;
use rand::rngs::SmallRng;

verus! {

#[verifier::external_type_specification]
#[verifier::external_body]
pub struct ExSmallRng(SmallRng);

/// `Clone` of `rand::rngs::SmallRng`: trusted to return; nothing is claimed
/// of the copy.
pub assume_specification[ <SmallRng as Clone>::clone ](rng: &SmallRng) -> SmallRng;

/// `SeedableRng::from_rng` of rand's `SmallRng` with `OsRng`: a small
/// random generator seeded from the operating system's random source, or
/// the error that source reports (it does not panic). Nothing is claimed
/// of the generator's state.
#[verifier::external_body]
fn small_rng_from_os() -> Result<SmallRng, rand::Error> {
    <SmallRng as rand::SeedableRng>::from_rng(rand::rngs::OsRng)
}

/// Options of the default bot, as a set of bits.
#[derive(Debug, Clone, Copy, PartialEq, Eq, Structural)]
pub struct BotFlags {
    pub bits: u8,
}

impl BotFlags {
    /// No option.
    pub fn empty() -> (res: BotFlags)
        ensures
            res.bits == 0,
    {
        BotFlags { bits: 0 }
    }

    /// Consider battle moves only.
    pub fn battle_only() -> (res: BotFlags)
        ensures
            res.bits == 1,
    {
        BotFlags { bits: 1 }
    }

    /// Always consider battle moves.
    pub fn always_battle() -> (res: BotFlags)
        ensures
            res.bits == 2,
    {
        BotFlags { bits: 2 }
    }

    /// Both sets of options together.
    pub fn union(self, other: BotFlags) -> (res: BotFlags)
        ensures
            res.bits == self.bits | other.bits,
    {
        BotFlags { bits: self.bits | other.bits }
    }

    /// Whether every option of `other` is set here.
    pub fn contains(self, other: BotFlags) -> (res: bool)
        ensures
            res == (self.bits & other.bits == other.bits),
    {
        self.bits & other.bits == other.bits
    }
}

impl Default for BotFlags {
    fn default() -> (res: BotFlags)
        ensures
            res.bits == 0,
    {
        BotFlags { bits: 0 }
    }
}

/// Whether `f` may answer `v` for a move whose content is `a`.
pub open spec fn evaluated<F: Fn(Option<Action>) -> i32>(f: F, a: ActionSpec, v: i32) -> bool {
    exists|x: Action| x@ == a && #[trigger] call_ensures(f, (Some(x),), v)
}

/// Whether `f` may answer `v` for a move whose content is `a`.
pub open spec fn evaluated_score<F: Fn(Option<Action>) -> ComputedScore>(
    f: F,
    a: ActionSpec,
    v: ComputedScore,
) -> bool {
    exists|x: Action| x@ == a && #[trigger] call_ensures(f, (Some(x),), v)
}

/// The attacker selections scored by the look-ahead `f`: every selection
/// of `cands`, in the order of [`all_combinations`], each with the score of
/// the turn without a move as base and the score after attacking with it.
pub open spec fn attack_outcome<F: Fn(Option<Action>) -> i32>(
    f: F,
    cands: Seq<ObjectId>,
    res: Seq<(Vec<ObjectId>, ComputedScore)>,
) -> bool {
    if cands.len() == 0 {
        res.len() == 0
    } else {
        &&& res.len() == all_combinations(cands).len()
        &&& forall|i: int| 0 <= i < res.len() ==> (#[trigger] res[i]).0@ == all_combinations(cands)[i]
        &&& forall|i: int|
            0 <= i < res.len() ==> call_ensures(f, (None::<Action>,), (#[trigger] res[i]).1.base)
        &&& forall|i: int, j: int| 0 <= i < j < res.len() ==> (#[trigger] res[i]).1.base == (#[trigger] res[j]).1.base
        &&& forall|i: int|
            0 <= i < res.len() ==> evaluated(
                f,
                ActionSpec::Attack { attackers: (#[trigger] res[i]).0@ },
                res[i].1.action,
            )
    }
}

/// The blocking plans scored by the look-ahead `f`: every set of
/// attacker/blocker pairs that uses no card twice, in the order of
/// [`all_battle_combinations`], each with the base score and the score after
/// blocking so.
pub open spec fn block_outcome<F: Fn(Option<Action>) -> i32>(
    f: F,
    atk: Seq<ObjectId>,
    blk: Seq<ObjectId>,
    res: Seq<(Vec<(ObjectId, ObjectId)>, ComputedScore)>,
) -> bool {
    if atk.len() == 0 || blk.len() == 0 {
        res.len() == 0
    } else {
        &&& res.len() == all_battle_combinations(atk, blk).len()
        &&& forall|i: int|
            0 <= i < res.len() ==> (#[trigger] res[i]).0@ == all_battle_combinations(atk, blk)[i]
        &&& forall|i: int|
            0 <= i < res.len() ==> call_ensures(f, (None::<Action>,), (#[trigger] res[i]).1.base)
        &&& forall|i: int, j: int| 0 <= i < j < res.len() ==> (#[trigger] res[i]).1.base == (#[trigger] res[j]).1.base
        &&& forall|i: int|
            0 <= i < res.len() ==> evaluated(
                f,
                ActionSpec::Block { pairs: (#[trigger] res[i]).0@ },
                res[i].1.action,
            )
    }
}

/// The castable cards scored by the look-ahead `f`, in order.
pub open spec fn cast_outcome<F: Fn(Option<Action>) -> i32>(
    f: F,
    cards: Seq<ObjectId>,
    res: Seq<(ObjectId, ComputedScore)>,
) -> bool {
    &&& res.len() == cards.len()
    &&& forall|i: int| 0 <= i < res.len() ==> (#[trigger] res[i]).0 == cards[i]
    &&& forall|i: int|
        0 <= i < res.len() ==> call_ensures(f, (None::<Action>,), (#[trigger] res[i]).1.base)
    &&& forall|i: int, j: int| 0 <= i < j < res.len() ==> (#[trigger] res[i]).1.base == (#[trigger] res[j]).1.base
    &&& forall|i: int|
        0 <= i < res.len() ==> evaluated(
            f,
            ActionSpec::CastCard { card: (#[trigger] res[i]).0 },
            res[i].1.action,
        )
}

/// The selectable cards whose look-ahead does at least as well as making
/// no choice, with their scores, in order.
pub open spec fn select_outcome<F: Fn(Option<Action>) -> ComputedScore>(
    f: F,
    cards: Seq<ObjectId>,
    res: Seq<(ObjectId, ComputedScore)>,
) -> bool {
    exists|nop: ComputedScore, scored: Seq<(ObjectId, ComputedScore)>|
        {
            &&& call_ensures(f, (None::<Action>,), nop)
            &&& scored.len() == cards.len()
            &&& forall|i: int| 0 <= i < scored.len() ==> (#[trigger] scored[i]).0 == cards[i]
            &&& forall|i: int|
                0 <= i < scored.len() ==> evaluated_score(
                    f,
                    ActionSpec::SelectCard { card: (#[trigger] scored[i]).0 },
                    scored[i].1,
                )
            &&& res == at_least(scored, gain(nop))
        }
}

/// The candidates that gain at least `min`, in order.
pub open spec fn at_least<T>(v: Seq<(T, ComputedScore)>, min: int) -> Seq<(T, ComputedScore)>
    decreases v.len(),
{
    if v.len() == 0 {
        Seq::empty()
    } else {
        let rest = at_least(v.drop_last(), min);
        if gain(v.last().1) >= min {
            rest.push(v.last())
        } else {
            rest
        }
    }
}

/// The candidates that gain something, in order.
pub open spec fn positive<T>(v: Seq<(T, ComputedScore)>) -> Seq<(T, ComputedScore)> {
    at_least(v, 1)
}

/// The last candidate with the highest gain.
pub open spec fn best_of<T>(v: Seq<(T, ComputedScore)>) -> Option<(T, ComputedScore)> {
    match last_max_index(gains(v)) {
        Some(i) => Some(v[i]),
        None => None,
    }
}

proof fn lemma_at_least<T>(v: Seq<(T, ComputedScore)>, min: int)
    ensures
        forall|k: int|
            0 <= k < at_least(v, min).len() ==> gain((#[trigger] at_least(v, min)[k]).1) >= min
                && v.contains(at_least(v, min)[k]),
        forall|k: int| 0 <= k < v.len() && gain((#[trigger] v[k]).1) >= min ==> at_least(v, min).contains(v[k]),
    decreases v.len(),
{
    if v.len() > 0 {
        let d = v.drop_last();
        lemma_at_least(d, min);
        let r = at_least(d, min);
        let t = at_least(v, min);
        assert forall|k: int| 0 <= k < t.len() implies gain((#[trigger] t[k]).1) >= min && v.contains(t[k]) by {
            if k < r.len() {
                assert(t[k] == r[k]);
                let j = choose|j: int| 0 <= j < d.len() && d[j] == r[k];
                assert(v[j] == r[k]);
            } else {
                assert(t[k] == v.last());
                assert(v[v.len() - 1] == v.last());
            }
        }
        assert forall|k: int| 0 <= k < v.len() && gain((#[trigger] v[k]).1) >= min implies t.contains(v[k]) by {
            if k < d.len() {
                assert(d[k] == v[k]);
                let j = choose|j: int| 0 <= j < r.len() && r[j] == d[k];
                assert(t[j] == r[j]);
            } else {
                assert(t[t.len() - 1] == v.last());
            }
        }
    }
}

/// What the best of the candidates that gain something is: a candidate
/// that gains something and at least as much as every candidate; there is
/// one exactly when some candidate gains something.
proof fn lemma_best_positive<T>(v: Seq<(T, ComputedScore)>)
    ensures
        best_of(positive(v)) is Some <==> exists|k: int| 0 <= k < v.len() && gain((#[trigger] v[k]).1) > 0,
        best_of(positive(v)) matches Some(p) ==> {
            &&& gain(p.1) > 0
            &&& v.contains(p)
            &&& forall|k: int| 0 <= k < v.len() ==> gain((#[trigger] v[k]).1) <= gain(p.1)
        },
{
    let q = positive(v);
    lemma_at_least(v, 1);
    crate::choice::lemma_last_max_index(gains(q));
    if exists|k: int| 0 <= k < v.len() && gain((#[trigger] v[k]).1) > 0 {
        let k = choose|k: int| 0 <= k < v.len() && gain((#[trigger] v[k]).1) > 0;
        assert(q.contains(v[k]));
        assert(q.len() > 0);
    }
    if q.len() > 0 {
        let i = last_max_index(gains(q))->0;
        assert(gains(q)[i] == gain(q[i].1));
        assert(gain(q[0].1) >= 1);
        assert forall|k: int| 0 <= k < v.len() implies gain((#[trigger] v[k]).1) <= gain(q[i].1) by {
            if gain(v[k].1) >= 1 {
                let j = choose|j: int| 0 <= j < q.len() && q[j] == v[k];
                assert(gains(q)[j] == gain(q[j].1));
            }
        }
    }
}

/// The default bot proposes a cast or an attack only when it gains
/// something: after the default action (first, scored -100, when there is
/// one), every cast proposal is a cast candidate with a positive gain at
/// least as large as every cast candidate's, and every attack proposal has
/// a positive gain at least as large as every attack candidate's; and a
/// cast (or attack) is proposed whenever some candidate gains something.
pub proof fn lemma_proposals_gain(
    default_action: Option<ActionSpec>,
    select: Seq<(ObjectId, ComputedScore)>,
    cast: Seq<(ObjectId, ComputedScore)>,
    block: Seq<(Vec<(ObjectId, ObjectId)>, ComputedScore)>,
    battle: Seq<(Vec<ObjectId>, ComputedScore)>,
)
    ensures
        ({
            let r = combined(default_action, select, cast, block, battle);
            let first: int = if default_action is Some { 1 } else { 0 };
            &&& default_action is Some ==> r[0] == (default_action->0, ComputedScore { base: 0i32, action: -100i32 })
            &&& forall|i: int|
                first <= i < r.len() && (#[trigger] r[i]).0 is CastCard ==> {
                    &&& gain(r[i].1) > 0
                    &&& cast.contains((r[i].0->CastCard_card, r[i].1))
                    &&& forall|k: int| 0 <= k < cast.len() ==> gain((#[trigger] cast[k]).1) <= gain(r[i].1)
                }
            &&& forall|i: int|
                first <= i < r.len() && (#[trigger] r[i]).0 is Attack ==> {
                    &&& gain(r[i].1) > 0
                    &&& forall|k: int| 0 <= k < battle.len() ==> gain((#[trigger] battle[k]).1) <= gain(r[i].1)
                }
            &&& (exists|k: int| 0 <= k < cast.len() && gain((#[trigger] cast[k]).1) > 0) ==> exists|i: int|
                first <= i < r.len() && (#[trigger] r[i]).0 is CastCard
            &&& (exists|k: int| 0 <= k < battle.len() && gain((#[trigger] battle[k]).1) > 0) ==> exists|i: int|
                first <= i < r.len() && (#[trigger] r[i]).0 is Attack
        }),
{
    lemma_best_positive(cast);
    lemma_best_positive(battle);
    let d = match default_action {
        Some(a) => seq![(a, ComputedScore { base: 0i32, action: -100i32 })],
        None => Seq::empty(),
    };
    let s = match best_of(select) {
        Some(p) => seq![(ActionSpec::SelectCard { card: p.0 }, p.1)],
        None => Seq::empty(),
    };
    let c = match best_of(positive(cast)) {
        Some(p) => seq![(ActionSpec::CastCard { card: p.0 }, p.1)],
        None => Seq::empty(),
    };
    let b = match best_of(block) {
        Some(p) => seq![(ActionSpec::Block { pairs: p.0@ }, p.1)],
        None => Seq::empty(),
    };
    let a = match best_of(positive(battle)) {
        Some(p) => seq![(ActionSpec::Attack { attackers: p.0@ }, p.1)],
        None => Seq::empty(),
    };
    let r = combined(default_action, select, cast, block, battle);
    assert(r == d + s + c + b + a);
    let first: int = if default_action is Some { 1 } else { 0 };
    assert(d.len() == first);
    let cs = first + s.len();
    let bs = cs + c.len();
    let as_ = bs + b.len();
    assert forall|i: int| first <= i < r.len() implies {
        &&& (#[trigger] r[i]).0 is CastCard ==> i == cs && c.len() == 1 && r[i] == c[0]
        &&& r[i].0 is Attack ==> i == as_ && a.len() == 1 && r[i] == a[0]
    } by {
        if i < cs {
            assert(r[i] == s[i - first]);
        } else if i < bs {
            assert(r[i] == c[i - cs]);
        } else if i < as_ {
            assert(r[i] == b[i - bs]);
        } else {
            assert(r[i] == a[i - as_]);
        }
    }
    if c.len() == 1 {
        assert(r[cs] == c[0]);
    }
    if a.len() == 1 {
        assert(r[as_] == a[0]);
    }
}

/// Every attacker selection scored by the look-ahead `evaluate`, which is
/// asked once for the turn without a move and once per selection; nothing
/// when there are no attackers.
pub fn find_attacker_combination<F: Fn(Option<Action>) -> i32>(
    evaluate: &F,
    attackers: &[ObjectId],
) -> (res: Vec<(Vec<ObjectId>, ComputedScore)>)
    requires
        forall|a: Option<Action>| call_requires(*evaluate, (a,)),
    ensures
        attack_outcome(*evaluate, attackers@, res@),
{
    let mut res: Vec<(Vec<ObjectId>, ComputedScore)> = Vec::new();
    if attackers.len() == 0 {
        return res;
    }
    let base = evaluate(None);
    let mut combinations = possible_attacker_combinations(attackers);
    let ghost all = all_combinations(attackers@);
    let n = combinations.len();
    let mut i: usize = 0;
    while i < n
        invariant
            n == all.len(),
            all == all_combinations(attackers@),
            i <= n,
            combinations@.len() == n,
            forall|j: int| 0 <= j < n ==> (#[trigger] combinations@[j])@ == all[j],
            call_ensures(*evaluate, (None::<Action>,), base),
            forall|a: Option<Action>| call_requires(*evaluate, (a,)),
            res@.len() == i,
            forall|j: int| 0 <= j < i ==> (#[trigger] res@[j]).0@ == all[j],
            forall|j: int| 0 <= j < i ==> (#[trigger] res@[j]).1.base == base,
            forall|j: int|
                0 <= j < i ==> evaluated(
                    *evaluate,
                    ActionSpec::Attack { attackers: (#[trigger] res@[j]).0@ },
                    res@[j].1.action,
                ),
        decreases n - i,
    {
        let chosen = copy_ids(&combinations[i]);
        let kept = copy_ids(&combinations[i]);
        let act = Action::Attack { attackers: chosen };
        let ghost act_copy = act;
        let value = evaluate(Some(act));
        proof {
            assert(call_ensures(*evaluate, (Some(act_copy),), value));
        }
        res.push((kept, ComputedScore { base, action: value }));
        proof {
            assert(res@[i as int].0@ == all[i as int]);
        }
        i += 1;
    }
    res
}

/// Every blocking plan scored by the look-ahead `evaluate`; nothing when
/// there is no attacker or no blocker.
pub fn find_blocker_combination<F: Fn(Option<Action>) -> i32>(
    evaluate: &F,
    attackers: &[ObjectId],
    blockers: &[ObjectId],
) -> (res: Vec<(Vec<(ObjectId, ObjectId)>, ComputedScore)>)
    requires
        forall|a: Option<Action>| call_requires(*evaluate, (a,)),
    ensures
        block_outcome(*evaluate, attackers@, blockers@, res@),
{
    let mut res: Vec<(Vec<(ObjectId, ObjectId)>, ComputedScore)> = Vec::new();
    if attackers.len() == 0 || blockers.len() == 0 {
        return res;
    }
    let base = evaluate(None);
    let combinations = possible_battle_combinations(attackers, blockers);
    let ghost all = all_battle_combinations(attackers@, blockers@);
    let n = combinations.len();
    let mut i: usize = 0;
    while i < n
        invariant
            n == all.len(),
            all == all_battle_combinations(attackers@, blockers@),
            i <= n,
            combinations@.len() == n,
            forall|j: int| 0 <= j < n ==> (#[trigger] combinations@[j])@ == all[j],
            call_ensures(*evaluate, (None::<Action>,), base),
            forall|a: Option<Action>| call_requires(*evaluate, (a,)),
            res@.len() == i,
            forall|j: int| 0 <= j < i ==> (#[trigger] res@[j]).0@ == all[j],
            forall|j: int| 0 <= j < i ==> (#[trigger] res@[j]).1.base == base,
            forall|j: int|
                0 <= j < i ==> evaluated(
                    *evaluate,
                    ActionSpec::Block { pairs: (#[trigger] res@[j]).0@ },
                    res@[j].1.action,
                ),
        decreases n - i,
    {
        let chosen = copy_pair_list(&combinations[i]);
        let kept = copy_pair_list(&combinations[i]);
        let act = Action::Block { pairs: chosen };
        let ghost act_copy = act;
        let value = evaluate(Some(act));
        proof {
            assert(call_ensures(*evaluate, (Some(act_copy),), value));
        }
        res.push((kept, ComputedScore { base, action: value }));
        proof {
            assert(res@[i as int].0@ == all[i as int]);
        }
        i += 1;
    }
    res
}

/// Every castable card scored by the look-ahead `evaluate`.
pub fn find_cast_combination<F: Fn(Option<Action>) -> i32>(evaluate: &F, cards: Vec<ObjectId>) -> (res: Vec<
    (ObjectId, ComputedScore),
>)
    requires
        forall|a: Option<Action>| call_requires(*evaluate, (a,)),
    ensures
        cast_outcome(*evaluate, cards@, res@),
{
    let base = evaluate(None);
    let mut res: Vec<(ObjectId, ComputedScore)> = Vec::new();
    let mut i: usize = 0;
    while i < cards.len()
        invariant
            i <= cards.len(),
            call_ensures(*evaluate, (None::<Action>,), base),
            forall|a: Option<Action>| call_requires(*evaluate, (a,)),
            res@.len() == i,
            forall|j: int| 0 <= j < i ==> (#[trigger] res@[j]).0 == cards@[j],
            forall|j: int| 0 <= j < i ==> (#[trigger] res@[j]).1.base == base,
            forall|j: int|
                0 <= j < i ==> evaluated(
                    *evaluate,
                    ActionSpec::CastCard { card: (#[trigger] res@[j]).0 },
                    res@[j].1.action,
                ),
        decreases cards.len() - i,
    {
        let card = cards[i];
        let act = Action::CastCard { card };
        let ghost act_copy = act;
        let value = evaluate(Some(act));
        proof {
            assert(call_ensures(*evaluate, (Some(act_copy),), value));
        }
        res.push((card, ComputedScore { base, action: value }));
        i += 1;
    }
    res
}

/// The selectable cards whose look-ahead does at least as well as making no
/// choice.
pub fn find_select_combination<F: Fn(Option<Action>) -> ComputedScore>(
    evaluate: &F,
    cards: Vec<ObjectId>,
) -> (res: Vec<(ObjectId, ComputedScore)>)
    requires
        forall|a: Option<Action>| call_requires(*evaluate, (a,)),
    ensures
        select_outcome(*evaluate, cards@, res@),
{
    let nop = evaluate(None);
    let min = nop.wide_score();
    let mut res: Vec<(ObjectId, ComputedScore)> = Vec::new();
    let ghost mut scored: Seq<(ObjectId, ComputedScore)> = Seq::empty();
    let mut i: usize = 0;
    while i < cards.len()
        invariant
            i <= cards.len(),
            min == gain(nop),
            call_ensures(*evaluate, (None::<Action>,), nop),
            forall|a: Option<Action>| call_requires(*evaluate, (a,)),
            scored.len() == i,
            forall|j: int| 0 <= j < i ==> (#[trigger] scored[j]).0 == cards@[j],
            forall|j: int|
                0 <= j < i ==> evaluated_score(
                    *evaluate,
                    ActionSpec::SelectCard { card: (#[trigger] scored[j]).0 },
                    scored[j].1,
                ),
            res@ == at_least(scored, gain(nop)),
        decreases cards.len() - i,
    {
        let card = cards[i];
        let act = Action::SelectCard { card };
        let ghost act_copy = act;
        let value = evaluate(Some(act));
        proof {
            assert(call_ensures(*evaluate, (Some(act_copy),), value));
            let old_scored = scored;
            scored = scored.push((card, value));
            assert(scored.drop_last() =~= old_scored);
        }
        if value.wide_score() >= min {
            res.push((card, value));
        }
        i += 1;
    }
    res
}

/// The candidates that gain at least `min`, in order.
fn keep_at_least<T>(v: Vec<(T, ComputedScore)>, min: i64) -> (res: Vec<(T, ComputedScore)>)
    ensures
        res@ == at_least(v@, min as int),
{
    let mut v = v;
    let ghost orig = v@;
    let n = v.len();
    let mut res: Vec<(T, ComputedScore)> = Vec::new();
    let mut k: usize = 0;
    while v.len() > 0
        invariant
            k + v@.len() == orig.len(),
            orig.len() == n,
            v@ == orig.subrange(k as int, orig.len() as int),
            res@ == at_least(orig.take(k as int), min as int),
        decreases v.len(),
    {
        let x = v.remove(0);
        proof {
            let t = orig.take(k + 1);
            assert(t.drop_last() =~= orig.take(k as int));
            assert(t.last() == x);
        }
        if x.1.wide_score() >= min {
            res.push(x);
        }
        k += 1;
        assert(v@ =~= orig.subrange(k as int, orig.len() as int));
    }
    assert(orig.take(k as int) =~= orig);
    res
}

/// The last candidate with the highest gain.
fn take_best<T>(v: Vec<(T, ComputedScore)>) -> (res: Option<(T, ComputedScore)>)
    ensures
        res == best_of(v@),
{
    let mut v = v;
    match best_index(&v) {
        Some(i) => Some(v.remove(i)),
        None => None,
    }
}

/// The moves the default bot proposes, from the candidates: the engine's
/// default (valued at a loss of 100), then the best selection, the best
/// gaining cast, the best block and the best gaining attack, each when
/// there is one.
pub open spec fn combined(
    default_action: Option<ActionSpec>,
    select: Seq<(ObjectId, ComputedScore)>,
    cast: Seq<(ObjectId, ComputedScore)>,
    block: Seq<(Vec<(ObjectId, ObjectId)>, ComputedScore)>,
    battle: Seq<(Vec<ObjectId>, ComputedScore)>,
) -> Seq<(ActionSpec, ComputedScore)> {
    let d = match default_action {
        Some(a) => seq![(a, ComputedScore { base: 0i32, action: -100i32 })],
        None => Seq::empty(),
    };
    let s = match best_of(select) {
        Some(p) => seq![(ActionSpec::SelectCard { card: p.0 }, p.1)],
        None => Seq::empty(),
    };
    let c = match best_of(positive(cast)) {
        Some(p) => seq![(ActionSpec::CastCard { card: p.0 }, p.1)],
        None => Seq::empty(),
    };
    let b = match best_of(block) {
        Some(p) => seq![(ActionSpec::Block { pairs: p.0@ }, p.1)],
        None => Seq::empty(),
    };
    let a = match best_of(positive(battle)) {
        Some(p) => seq![(ActionSpec::Attack { attackers: p.0@ }, p.1)],
        None => Seq::empty(),
    };
    d + s + c + b + a
}

/// Puts the default bot's proposals together (see [`combined`]).
pub fn combine_choices(
    default_action: Option<Action>,
    select: Vec<(ObjectId, ComputedScore)>,
    cast: Vec<(ObjectId, ComputedScore)>,
    block: Vec<(Vec<(ObjectId, ObjectId)>, ComputedScore)>,
    battle: Vec<(Vec<ObjectId>, ComputedScore)>,
) -> (res: Vec<(Action, ComputedScore)>)
    ensures
        scored_views(res@) == combined(
            match default_action {
                Some(a) => Some(a@),
                None => None,
            },
            select@,
            cast@,
            block@,
            battle@,
        ),
{
    let ghost sel0 = select@;
    let ghost cast0 = cast@;
    let ghost block0 = block@;
    let ghost battle0 = battle@;
    let ghost dv = match &default_action {
        Some(a) => Some(a@),
        None => None,
    };
    let mut res: Vec<(Action, ComputedScore)> = Vec::new();
    match default_action {
        Some(a) => {
            res.push((a, ComputedScore { base: 0, action: -100 }));
        },
        None => {},
    }
    let ghost r1 = scored_views(res@);
    match take_best(select) {
        Some((card, score)) => {
            res.push((Action::SelectCard { card }, score));
        },
        None => {},
    }
    let ghost r2 = scored_views(res@);
    let cast = keep_at_least(cast, 1);
    match take_best(cast) {
        Some((card, score)) => {
            res.push((Action::CastCard { card }, score));
        },
        None => {},
    }
    let ghost r3 = scored_views(res@);
    match take_best(block) {
        Some((pairs, score)) => {
            res.push((Action::Block { pairs }, score));
        },
        None => {},
    }
    let ghost r4 = scored_views(res@);
    let battle = keep_at_least(battle, 1);
    match take_best(battle) {
        Some((attackers, score)) => {
            res.push((Action::Attack { attackers }, score));
        },
        None => {},
    }
    proof {
        let d = match dv {
            Some(a) => seq![(a, ComputedScore { base: 0i32, action: -100i32 })],
            None => Seq::<(ActionSpec, ComputedScore)>::empty(),
        };
        assert(r1 =~= d);
        assert(scored_views(res@) =~= combined(dv, sel0, cast0, block0, battle0));
    }
    res
}

/// The ids of the attacking creatures on a field.
fn attacking_ids(field: &Vec<FieldCard>) -> (res: Vec<ObjectId>)
    ensures
        res@ == attacking_of(field@),
{
    let mut res: Vec<ObjectId> = Vec::new();
    let mut i: usize = 0;
    while i < field.len()
        invariant
            i <= field.len(),
            res@ == attacking_of(field@.take(i as int)),
        decreases field.len() - i,
    {
        proof {
            let t = field@.take(i + 1);
            assert(t.drop_last() =~= field@.take(i as int));
        }
        match field[i].battle {
            Some(FieldBattleState::Attacking) => {
                res.push(field[i].id);
            },
            _ => {},
        }
        i += 1;
    }
    assert(field@.take(i as int) =~= field@);
    res
}

/// The ids of the attacking creatures of a field, in order.
pub open spec fn attacking_of(field: Seq<FieldCard>) -> Seq<ObjectId>
    decreases field.len(),
{
    if field.len() == 0 {
        Seq::empty()
    } else {
        let rest = attacking_of(field.drop_last());
        match field.last().battle {
            Some(FieldBattleState::Attacking) => rest.push(field.last().id),
            _ => rest,
        }
    }
}

/// The creatures attacking `player`: those attacking on the next seat's field.
pub open spec fn incoming_attackers(view: GameView, player: u8) -> Seq<ObjectId> {
    if view.players@.len() == 0 {
        Seq::empty()
    } else {
        attacking_of(view.players@[next_seat(player, view.players@.len())].field@)
    }
}

/// The bot that scores moves by looking ahead to the end of the turn.
#[derive(Debug, Clone)]
pub struct DefaultBot {
    rng: SmallRng,
    flags: BotFlags,
}

/// Builds a [`DefaultBot`].
pub struct BotBuilder {
    inner: DefaultBot,
}

impl BotBuilder {
    /// The options the bot will have.
    pub closed spec fn pending_flags(&self) -> BotFlags {
        self.inner.flags
    }

    /// The random generator the bot will have.
    pub closed spec fn pending_rng(&self) -> SmallRng {
        self.inner.rng
    }

    /// Sets the options.
    pub fn with_flags(self, flags: BotFlags) -> (res: BotBuilder)
        ensures
            res.pending_flags() == flags,
            res.pending_rng() == self.pending_rng(),
    {
        let mut s = self;
        s.inner.flags = flags;
        s
    }

    /// Sets the random generator.
    pub fn with_rng(self, rng: SmallRng) -> (res: BotBuilder)
        ensures
            res.pending_flags() == self.pending_flags(),
            res.pending_rng() == rng,
    {
        let mut s = self;
        s.inner.rng = rng;
        s
    }

    /// The bot.
    pub fn build(self) -> (res: DefaultBot)
        ensures
            res.flag_set() == self.pending_flags(),
            res.rng_state() == self.pending_rng(),
    {
        self.inner
    }
}

impl DefaultBot {
    /// The options.
    pub closed spec fn flag_set(&self) -> BotFlags {
        self.flags
    }

    /// The random generator.
    pub closed spec fn rng_state(&self) -> SmallRng {
        self.rng
    }

    /// A builder with a generator seeded from the system and no options;
    /// the one failure is a random source that gives nothing.
    pub fn builder() -> (res: Result<BotBuilder, EntropyError>)
        ensures
            res matches Ok(b) ==> b.pending_flags().bits == 0,
            res matches Err(e) ==> e == EntropyError::Unavailable,
    {
        match small_rng_from_os() {
            Ok(rng) => Ok(BotBuilder { inner: DefaultBot { rng, flags: BotFlags::default() } }),
            Err(_) => Err(EntropyError::Unavailable),
        }
    }

    /// The options.
    pub fn flags(&self) -> (res: BotFlags)
        ensures
            res == self.flag_set(),
    {
        self.flags
    }

    /// The default bot's proposals for the moves in `actions`: `battle`
    /// scores attacks and blocks, `cast` scores casts and `select` scores
    /// selections, each by playing the turn out from the move.
    pub fn compute<B, C, S>(
        &mut self,
        view: &GameView,
        actions: &PlayerAvailableActions,
        battle: &B,
        cast: &C,
        select: &S,
    ) -> (res: Vec<(Action, ComputedScore)>)
        where
            B: Fn(Option<Action>) -> i32,
            C: Fn(Option<Action>) -> i32,
            S: Fn(Option<Action>) -> ComputedScore,
        requires
            forall|a: Option<Action>| call_requires(*battle, (a,)),
            forall|a: Option<Action>| call_requires(*cast, (a,)),
            forall|a: Option<Action>| call_requires(*select, (a,)),
        ensures
            *final(self) == *old(self),
            exists|
                sel: Seq<(ObjectId, ComputedScore)>,
                cst: Seq<(ObjectId, ComputedScore)>,
                blk: Seq<(Vec<(ObjectId, ObjectId)>, ComputedScore)>,
                atk: Seq<(Vec<ObjectId>, ComputedScore)>,
            |
                {
                    &&& select_outcome(*select, offered(actions.actions@, Offer::Select), sel)
                    &&& cast_outcome(*cast, offered(actions.actions@, Offer::Cast), cst)
                    &&& block_outcome(
                        *battle,
                        incoming_attackers(*view, actions.player),
                        offered(actions.actions@, Offer::Block),
                        blk,
                    )
                    &&& attack_outcome(*battle, offered(actions.actions@, Offer::Attack), atk)
                    &&& scored_views(res@) == combined(
                        match actions.default_action {
                            Some(a) => Some(a@),
                            None => None,
                        },
                        sel,
                        cst,
                        blk,
                        atk,
                    )
                },
    {
        let sel = find_select_combination(select, selectable_cards(&actions.actions));
        let cst = find_cast_combination(cast, castable_cards(&actions.actions));
        let atk_ids = attackers(&actions.actions);
        let atk = find_attacker_combination(battle, atk_ids.as_slice());
        let incoming = match view.next_player(actions.player) {
            Some(opp) => attacking_ids(&opp.field),
            None => Vec::new(),
        };
        let blk_ids = blockers(&actions.actions);
        let blk = find_blocker_combination(battle, incoming.as_slice(), blk_ids.as_slice());
        let ghost (s0, c0, b0, a0) = (sel@, cst@, blk@, atk@);
        let default_action = match &actions.default_action {
            Some(a) => Some(a.duplicate()),
            None => None,
        };
        let res = combine_choices(default_action, sel, cst, blk, atk);
        proof {
            assert(incoming@ == incoming_attackers(*view, actions.player));
        }
        res
    }
}

/// The action of the last proposal with the highest gain, as
/// `Iterator::max_by_key` picks it; none when there is no proposal.
pub fn best_action(proposals: Vec<(Action, ComputedScore)>) -> (res: Option<Action>)
    ensures
        match res {
            Some(a) => best_of(proposals@) matches Some(p) && a == p.0,
            None => proposals@.len() == 0,
        },
{
    proof {
        crate::choice::lemma_last_max_index(gains(proposals@));
    }
    match take_best(proposals) {
        Some((a, _)) => Some(a),
        None => None,
    }
}

} // verus!
