//! The simple bot: one rule of thumb per kind of move, no look-ahead.
use vstd::prelude::*;
use crate::choice::{best_index, gains, last_max_index};
use crate::game::{
    Action, ActionSpec, AvailableAction, CardView, FieldCard, FieldState, GameView,
    PlayerAvailableActions, found_cards, next_seat,
};
use crate::ids::ObjectId;
use crate::score::ComputedScore;
use crate::sorting::{
    distinct_ids, ids_of, lemma_found_ids, lemma_sorted_ids, power_of, sort_by_power, sorted_by_power,
};

verus! {

/// The bot that answers every request with a fixed rule: pick the most
/// valuable card, attack with whatever outguns every untapped blocker,
/// block the strongest attackers first, and otherwise take the default.
#[derive(Debug, Clone, Copy, Default)]
pub struct SimpleBot;

pub open spec fn zero_score() -> ComputedScore {
    ComputedScore { base: 0, action: 0 }
}

/// The cards of `ids`, each scored by its value, negated when it belongs to
/// another player than `player`.
pub open spec fn select_candidates(view: GameView, player: u8, ids: Seq<ObjectId>) -> Seq<
    (ObjectId, ComputedScore),
> {
    let cs = found_cards(view.cards@, ids);
    Seq::new(
        cs.len(),
        |i: int|
            (
                cs[i].id,
                ComputedScore {
                    base: 0,
                    action: if cs[i].zone_player == player {
                        cs[i].score
                    } else {
                        (-cs[i].score) as i32
                    },
                },
            ),
    )
}

/// The cards of `ids`, each scored by its value.
pub open spec fn cast_candidates(view: GameView, ids: Seq<ObjectId>) -> Seq<
    (ObjectId, ComputedScore),
> {
    let cs = found_cards(view.cards@, ids);
    Seq::new(cs.len(), |i: int| (cs[i].id, ComputedScore { base: 0, action: cs[i].score }))
}

/// The powers of the untapped creatures of a field, in order.
pub open spec fn active_powers(f: Seq<FieldCard>) -> Seq<u32>
    decreases f.len(),
{
    if f.len() == 0 {
        Seq::empty()
    } else {
        let rest = active_powers(f.drop_last());
        match (f.last().state, f.last().power) {
            (FieldState::Active, Some(p)) => rest.push(p),
            _ => rest,
        }
    }
}

pub open spec fn sum_u32(s: Seq<u32>) -> int
    decreases s.len(),
{
    if s.len() == 0 {
        0
    } else {
        sum_u32(s.drop_last()) + s.last()
    }
}

pub open spec fn max_u32(s: Seq<u32>) -> u32
    decreases s.len(),
{
    if s.len() == 0 {
        0
    } else {
        let m = max_u32(s.drop_last());
        if s.last() > m {
            s.last()
        } else {
            m
        }
    }
}

pub open spec fn sum_power(cs: Seq<CardView>) -> int
    decreases cs.len(),
{
    if cs.len() == 0 {
        0
    } else {
        sum_power(cs.drop_last()) + power_of(cs.last())
    }
}

/// The ids of the cards that are stronger than every blocker and than zero.
pub open spec fn strong_attackers(cs: Seq<CardView>, max_blocker: u32) -> Seq<ObjectId>
    decreases cs.len(),
{
    if cs.len() == 0 {
        Seq::empty()
    } else {
        let rest = strong_attackers(cs.drop_last(), max_blocker);
        let p = power_of(cs.last());
        if p > 0 && p > max_blocker {
            rest.push(cs.last().id)
        } else {
            rest
        }
    }
}

/// The first blocker that outguns an attacker of power `ap`, or the first
/// blocker at all when the attack would be lethal.
pub open spec fn first_blocker(b: Seq<CardView>, ap: u32, lethal: bool) -> Option<int>
    decreases b.len(),
{
    if b.len() == 0 {
        None
    } else if power_of(b[0]) > ap || lethal {
        Some(0)
    } else {
        match first_blocker(b.drop_first(), ap, lethal) {
            Some(i) => Some(i + 1),
            None => None,
        }
    }
}

/// The greedy blocking plan: the strongest remaining attacker is blocked by
/// the weakest blocker that beats it (or by the weakest blocker at all when
/// the remaining attackers together would take the player's whole life).
pub open spec fn block_pairs(a: Seq<CardView>, b: Seq<CardView>, life: i32) -> Seq<
    (ObjectId, ObjectId),
>
    decreases a.len(),
{
    if a.len() == 0 || b.len() == 0 {
        Seq::empty()
    } else {
        let atk = a.last();
        let ap = power_of(atk);
        let lethal = ((sum_power(a) as u32) as i32) >= life;
        if ap > 0 {
            match first_blocker(b, ap, lethal) {
                Some(i) => seq![(atk.id, b[i].id)] + block_pairs(a.drop_last(), b.remove(i), life),
                None => block_pairs(a.drop_last(), b, life),
            }
        } else {
            block_pairs(a.drop_last(), b, life)
        }
    }
}

proof fn lemma_first_blocker_range(b: Seq<CardView>, ap: u32, lethal: bool)
    ensures
        first_blocker(b, ap, lethal) matches Some(i) ==> 0 <= i < b.len(),
    decreases b.len(),
{
    if b.len() > 0 {
        lemma_first_blocker_range(b.drop_first(), ap, lethal);
    }
}

proof fn lemma_remove_ids(b: Seq<CardView>, i: int)
    requires
        0 <= i < b.len(),
    ensures
        forall|x: ObjectId| ids_of(b.remove(i)).contains(x) ==> ids_of(b).contains(x),
        distinct_ids(ids_of(b)) ==> distinct_ids(ids_of(b.remove(i))) && !ids_of(b.remove(i)).contains(b[i].id),
{
    let r = b.remove(i);
    b.remove_ensures(i);
    assert forall|x: ObjectId| ids_of(r).contains(x) implies ids_of(b).contains(x) by {
        let k = choose|k: int| 0 <= k < ids_of(r).len() && ids_of(r)[k] == x;
        if k < i {
            assert(ids_of(b)[k] == x);
        } else {
            assert(ids_of(b)[k + 1] == x);
        }
    }
    if distinct_ids(ids_of(b)) {
        assert forall|p: int, q: int| 0 <= p < q < ids_of(r).len() implies ids_of(r)[p] != ids_of(r)[q] by {
            let pp = if p < i { p } else { p + 1 };
            let qq = if q < i { q } else { q + 1 };
            assert(ids_of(r)[p] == ids_of(b)[pp]);
            assert(ids_of(r)[q] == ids_of(b)[qq]);
        }
        if ids_of(r).contains(b[i].id) {
            let k = choose|k: int| 0 <= k < ids_of(r).len() && ids_of(r)[k] == b[i].id;
            let kk = if k < i { k } else { k + 1 };
            assert(ids_of(b)[kk] == ids_of(b)[i]);
        }
    }
}

/// The simple bot's block plan pairs offered cards only, blocks each
/// attacker at most once and uses each blocker at most once: every pair is
/// an attacker of `a` and a blocker of `b`, and when the cards of a side
/// are distinct, no card of that side occurs in two pairs.
pub proof fn lemma_block_plan_is_matching(a: Seq<CardView>, b: Seq<CardView>, life: i32)
    ensures
        forall|k: int|
            0 <= k < block_pairs(a, b, life).len() ==> ids_of(a).contains(
                (#[trigger] block_pairs(a, b, life)[k]).0,
            ) && ids_of(b).contains(block_pairs(a, b, life)[k].1),
        distinct_ids(ids_of(b)) ==> forall|i: int, j: int|
            0 <= i < j < block_pairs(a, b, life).len() ==> (#[trigger] block_pairs(a, b, life)[i]).1
                != (#[trigger] block_pairs(a, b, life)[j]).1,
        distinct_ids(ids_of(a)) ==> forall|i: int, j: int|
            0 <= i < j < block_pairs(a, b, life).len() ==> (#[trigger] block_pairs(a, b, life)[i]).0
                != (#[trigger] block_pairs(a, b, life)[j]).0,
    decreases a.len(),
{
    let r = block_pairs(a, b, life);
    if a.len() == 0 || b.len() == 0 {
    } else {
        let ad = a.drop_last();
        let atk = a.last();
        let ap = power_of(atk);
        let lethal = ((sum_power(a) as u32) as i32) >= life;
        assert forall|x: ObjectId| ids_of(ad).contains(x) implies ids_of(a).contains(x) by {
            let k = choose|k: int| 0 <= k < ids_of(ad).len() && ids_of(ad)[k] == x;
            assert(ids_of(a)[k] == x);
        }
        assert(ids_of(a)[a.len() - 1] == atk.id);
        if distinct_ids(ids_of(a)) {
            assert forall|p: int, q: int| 0 <= p < q < ids_of(ad).len() implies ids_of(ad)[p] != ids_of(ad)[q] by {
                assert(ids_of(ad)[p] == ids_of(a)[p] && ids_of(ad)[q] == ids_of(a)[q]);
            }
            if ids_of(ad).contains(atk.id) {
                let k = choose|k: int| 0 <= k < ids_of(ad).len() && ids_of(ad)[k] == atk.id;
                assert(ids_of(a)[k] == ids_of(a)[a.len() - 1]);
            }
        }
        lemma_first_blocker_range(b, ap, lethal);
        if ap > 0 && first_blocker(b, ap, lethal) is Some {
            let i = first_blocker(b, ap, lethal)->0;
            let br = b.remove(i);
            lemma_block_plan_is_matching(ad, br, life);
            lemma_remove_ids(b, i);
            let t = block_pairs(ad, br, life);
            assert(r == seq![(atk.id, b[i].id)] + t);
            assert(ids_of(b)[i] == b[i].id);
            assert forall|k: int| 0 <= k < r.len() implies ids_of(a).contains((#[trigger] r[k]).0)
                && ids_of(b).contains(r[k].1) by {
                if k > 0 {
                    assert(r[k] == t[k - 1]);
                }
            }
            if distinct_ids(ids_of(b)) {
                assert forall|p: int, q: int| 0 <= p < q < r.len() implies (#[trigger] r[p]).1 != (#[trigger] r[q]).1 by {
                    assert(r[q] == t[q - 1]);
                    if p > 0 {
                        assert(r[p] == t[p - 1]);
                    } else {
                        assert(ids_of(br).contains(t[q - 1].1));
                    }
                }
            }
            if distinct_ids(ids_of(a)) {
                assert forall|p: int, q: int| 0 <= p < q < r.len() implies (#[trigger] r[p]).0 != (#[trigger] r[q]).0 by {
                    assert(r[q] == t[q - 1]);
                    if p > 0 {
                        assert(r[p] == t[p - 1]);
                    } else {
                        assert(ids_of(ad).contains(t[q - 1].0));
                    }
                }
            }
        } else {
            lemma_block_plan_is_matching(ad, b, life);
            assert(r == block_pairs(ad, b, life));
        }
    }
}

/// The simple bot answers a block request with one block whose pairs each
/// match an offered attacker with an offered blocker, and which uses no
/// blocker twice (and blocks no attacker twice) when the offered cards are
/// distinct.
pub proof fn lemma_simple_block_answer(view: GameView, player: u8, request: AvailableAction)
    requires
        request is Block,
        (player as int) < view.players@.len(),
    ensures
        ({
            let attackers = request->Block_attackers@;
            let blockers = request->Block_blockers@;
            &&& simple_step(view, player, request) is Some
            &&& simple_step(view, player, request)->0.len() == 1
            &&& simple_step(view, player, request)->0[0].0 is Block
            &&& forall|k: int|
                0 <= k < simple_step(view, player, request)->0[0].0->Block_pairs.len() ==> {
                    let p = #[trigger] simple_step(view, player, request)->0[0].0->Block_pairs[k];
                    attackers.contains(p.0) && blockers.contains(p.1)
                }
            &&& distinct_ids(blockers) ==> forall|i: int, j: int|
                0 <= i < j < simple_step(view, player, request)->0[0].0->Block_pairs.len() ==> (
                #[trigger] simple_step(view, player, request)->0[0].0->Block_pairs[i]).1 != (
                #[trigger] simple_step(view, player, request)->0[0].0->Block_pairs[j]).1
            &&& distinct_ids(attackers) ==> forall|i: int, j: int|
                0 <= i < j < simple_step(view, player, request)->0[0].0->Block_pairs.len() ==> (
                #[trigger] simple_step(view, player, request)->0[0].0->Block_pairs[i]).0 != (
                #[trigger] simple_step(view, player, request)->0[0].0->Block_pairs[j]).0
        }),
{
    let attackers = request->Block_attackers@;
    let blockers = request->Block_blockers@;
    let fa = found_cards(view.cards@, attackers);
    let fb = found_cards(view.cards@, blockers);
    let a = sorted_by_power(fa);
    let b = sorted_by_power(fb);
    let me = view.players@[player as int];
    lemma_found_ids(view.cards@, attackers);
    lemma_found_ids(view.cards@, blockers);
    lemma_sorted_ids(fa);
    lemma_sorted_ids(fb);
    lemma_block_plan_is_matching(a, b, me.life);
    let pairs = block_pairs(a, b, me.life);
    assert(simple_step(view, player, request)->0[0].0->Block_pairs == pairs);
}

/// What the simple bot answers to one kind of move: `Some` when it decides
/// there, `None` when it moves on to the next kind.
pub open spec fn simple_step(view: GameView, player: u8, action: AvailableAction) -> Option<
    Seq<(ActionSpec, ComputedScore)>,
> {
    match action {
        AvailableAction::SelectCard { cards } => {
            let cands = select_candidates(view, player, cards@);
            match last_max_index(gains(cands)) {
                Some(j) => Some(seq![(ActionSpec::SelectCard { card: cands[j].0 }, cands[j].1)]),
                None => None,
            }
        },
        AvailableAction::Attack { attackers } => {
            if (player as int) >= view.players@.len() {
                Some(Seq::empty())
            } else {
                let me = view.players@[player as int];
                let opp = view.players@[next_seat(player, view.players@.len())];
                let powers = active_powers(opp.field@);
                if ((sum_u32(powers) as u32) as i32) >= me.life {
                    Some(seq![(ActionSpec::Attack { attackers: Seq::empty() }, zero_score())])
                } else {
                    let chosen = strong_attackers(
                        found_cards(view.cards@, attackers@),
                        max_u32(powers),
                    );
                    if chosen.len() > 0 {
                        Some(seq![(ActionSpec::Attack { attackers: chosen }, zero_score())])
                    } else {
                        None
                    }
                }
            }
        },
        AvailableAction::Block { attackers, blockers } => {
            if (player as int) >= view.players@.len() {
                Some(Seq::empty())
            } else {
                let me = view.players@[player as int];
                let pairs = block_pairs(
                    sorted_by_power(found_cards(view.cards@, attackers@)),
                    sorted_by_power(found_cards(view.cards@, blockers@)),
                    me.life,
                );
                Some(seq![(ActionSpec::Block { pairs }, zero_score())])
            }
        },
        AvailableAction::CastCard { cards } => {
            let cands = cast_candidates(view, cards@);
            match last_max_index(gains(cands)) {
                Some(j) => Some(seq![(ActionSpec::CastCard { card: cands[j].0 }, cands[j].1)]),
                None => None,
            }
        },
        _ => None,
    }
}

/// The simple bot's answer, considering the kinds of move from index `i` on.
pub open spec fn simple_from(view: GameView, acts: PlayerAvailableActions, i: int) -> Seq<
    (ActionSpec, ComputedScore),
>
    decreases acts.actions@.len() - i,
{
    if i < 0 || i >= acts.actions@.len() {
        match acts.default_action {
            Some(a) => seq![(a@, zero_score())],
            None => Seq::empty(),
        }
    } else {
        match simple_step(view, acts.player, acts.actions@[i]) {
            Some(r) => r,
            None => simple_from(view, acts, i + 1),
        }
    }
}

/// Whether the simple bot's arithmetic stays in range for these moves: no
/// selectable card is valued at `i32::MIN`, and the powers it adds up fit
/// in 32 bits.
pub open spec fn simple_fits(view: GameView, acts: PlayerAvailableActions) -> bool {
    forall|i: int|
        0 <= i < acts.actions@.len() ==> match #[trigger] acts.actions@[i] {
            AvailableAction::SelectCard { cards } => forall|j: int|
                0 <= j < found_cards(view.cards@, cards@).len() ==> (#[trigger] found_cards(
                    view.cards@,
                    cards@,
                )[j]).score != i32::MIN,
            AvailableAction::Attack { .. } => view.players@.len() > 0 ==> sum_u32(
                active_powers(
                    view.players@[next_seat(acts.player, view.players@.len())].field@,
                ),
            ) <= u32::MAX,
            AvailableAction::Block { attackers, .. } => sum_power(
                found_cards(view.cards@, attackers@),
            ) <= u32::MAX,
            _ => true,
        }
}

/// The views of scored moves.
pub open spec fn scored_views(v: Seq<(Action, ComputedScore)>) -> Seq<(ActionSpec, ComputedScore)> {
    Seq::new(v.len(), |i: int| (v[i].0@, v[i].1))
}

fn one(a: Action, s: ComputedScore) -> (res: Vec<(Action, ComputedScore)>)
    ensures
        scored_views(res@) == seq![(a@, s)],
{
    let mut v: Vec<(Action, ComputedScore)> = Vec::new();
    v.push((a, s));
    assert(scored_views(v@) =~= seq![(a@, s)]);
    v
}

fn none_scored() -> (res: Vec<(Action, ComputedScore)>)
    ensures
        scored_views(res@) == Seq::<(ActionSpec, ComputedScore)>::empty(),
{
    let v: Vec<(Action, ComputedScore)> = Vec::new();
    assert(scored_views(v@) =~= Seq::<(ActionSpec, ComputedScore)>::empty());
    v
}

fn scored_select(view: &GameView, player: u8, ids: &Vec<ObjectId>) -> (res: Vec<
    (ObjectId, ComputedScore),
>)
    requires
        forall|j: int|
            0 <= j < found_cards(view.cards@, ids@).len() ==> (#[trigger] found_cards(
                view.cards@,
                ids@,
            )[j]).score != i32::MIN,
    ensures
        res@ == select_candidates(*view, player, ids@),
{
    let cs = view.find_cards(ids);
    let mut res: Vec<(ObjectId, ComputedScore)> = Vec::new();
    let mut i: usize = 0;
    while i < cs.len()
        invariant
            i <= cs.len(),
            cs@ == found_cards(view.cards@, ids@),
            forall|j: int| 0 <= j < cs@.len() ==> (#[trigger] cs@[j]).score != i32::MIN,
            res@ == select_candidates(*view, player, ids@).take(i as int),
        decreases cs.len() - i,
    {
        let c = cs[i];
        let action = if c.zone_player == player {
            c.score
        } else {
            -c.score
        };
        res.push((c.id, ComputedScore { base: 0, action }));
        i += 1;
        assert(res@ =~= select_candidates(*view, player, ids@).take(i as int));
    }
    assert(select_candidates(*view, player, ids@).take(i as int) =~= select_candidates(
        *view,
        player,
        ids@,
    ));
    res
}

fn scored_cast(view: &GameView, ids: &Vec<ObjectId>) -> (res: Vec<(ObjectId, ComputedScore)>)
    ensures
        res@ == cast_candidates(*view, ids@),
{
    let cs = view.find_cards(ids);
    let mut res: Vec<(ObjectId, ComputedScore)> = Vec::new();
    let mut i: usize = 0;
    while i < cs.len()
        invariant
            i <= cs.len(),
            cs@ == found_cards(view.cards@, ids@),
            res@ == cast_candidates(*view, ids@).take(i as int),
        decreases cs.len() - i,
    {
        let c = cs[i];
        res.push((c.id, ComputedScore { base: 0, action: c.score }));
        i += 1;
        assert(res@ =~= cast_candidates(*view, ids@).take(i as int));
    }
    assert(cast_candidates(*view, ids@).take(i as int) =~= cast_candidates(*view, ids@));
    res
}

fn active_field_powers(f: &Vec<FieldCard>) -> (res: Vec<u32>)
    ensures
        res@ == active_powers(f@),
{
    let mut res: Vec<u32> = Vec::new();
    let mut i: usize = 0;
    while i < f.len()
        invariant
            i <= f.len(),
            res@ == active_powers(f@.take(i as int)),
        decreases f.len() - i,
    {
        proof {
            let t = f@.take(i + 1);
            assert(t.drop_last() =~= f@.take(i as int));
        }
        match (f[i].state, f[i].power) {
            (FieldState::Active, Some(p)) => {
                res.push(p);
            },
            _ => {},
        }
        i += 1;
    }
    assert(f@.take(i as int) =~= f@);
    res
}

fn total_and_max(s: &Vec<u32>) -> (res: (u32, u32))
    requires
        sum_u32(s@) <= u32::MAX,
    ensures
        res.0 == sum_u32(s@),
        res.1 == max_u32(s@),
{
    let mut total: u32 = 0;
    let mut max: u32 = 0;
    let mut i: usize = 0;
    proof {
        lemma_sum_u32_prefix(s@, 0);
        assert(s@.take(0) =~= Seq::<u32>::empty());
    }
    while i < s.len()
        invariant
            i <= s.len(),
            sum_u32(s@) <= u32::MAX,
            total == sum_u32(s@.take(i as int)),
            max == max_u32(s@.take(i as int)),
            sum_u32(s@.take(i as int)) <= sum_u32(s@),
        decreases s.len() - i,
    {
        proof {
            let t = s@.take(i + 1);
            assert(t.drop_last() =~= s@.take(i as int));
            lemma_sum_u32_prefix(s@, i + 1);
        }
        total = total + s[i];
        if s[i] > max {
            max = s[i];
        }
        i += 1;
    }
    assert(s@.take(i as int) =~= s@);
    (total, max)
}

proof fn lemma_sum_u32_prefix(s: Seq<u32>, k: int)
    requires
        0 <= k <= s.len(),
    ensures
        sum_u32(s.take(k)) <= sum_u32(s),
    decreases s.len() - k,
{
    if k < s.len() {
        lemma_sum_u32_prefix(s, k + 1);
        let t = s.take(k + 1);
        assert(t.drop_last() =~= s.take(k));
    } else {
        assert(s.take(k) =~= s);
    }
}

proof fn lemma_sum_power_prefix(s: Seq<CardView>)
    requires
        s.len() > 0,
    ensures
        sum_power(s.drop_last()) <= sum_power(s),
{
}

fn strong_ids(cs: &Vec<CardView>, max_blocker: u32) -> (res: Vec<ObjectId>)
    ensures
        res@ == strong_attackers(cs@, max_blocker),
{
    let mut res: Vec<ObjectId> = Vec::new();
    let mut i: usize = 0;
    while i < cs.len()
        invariant
            i <= cs.len(),
            res@ == strong_attackers(cs@.take(i as int), max_blocker),
        decreases cs.len() - i,
    {
        proof {
            let t = cs@.take(i + 1);
            assert(t.drop_last() =~= cs@.take(i as int));
        }
        let p = match cs[i].power {
            Some(p) => p,
            None => 0,
        };
        if p > 0 && p > max_blocker {
            res.push(cs[i].id);
        }
        i += 1;
    }
    assert(cs@.take(i as int) =~= cs@);
    res
}

fn power(c: &CardView) -> (res: u32)
    ensures
        res == power_of(*c),
{
    match c.power {
        Some(p) => p,
        None => 0,
    }
}

fn sum_powers(cs: &Vec<CardView>) -> (res: u32)
    requires
        sum_power(cs@) <= u32::MAX,
    ensures
        res == sum_power(cs@),
{
    let mut total: u32 = 0;
    let mut i: usize = 0;
    while i < cs.len()
        invariant
            i <= cs.len(),
            sum_power(cs@) <= u32::MAX,
            total == sum_power(cs@.take(i as int)),
        decreases cs.len() - i,
    {
        proof {
            let t = cs@.take(i + 1);
            assert(t.drop_last() =~= cs@.take(i as int));
            lemma_sum_power_take(cs@, i + 1);
        }
        total = total + power(&cs[i]);
        i += 1;
    }
    assert(cs@.take(i as int) =~= cs@);
    total
}

proof fn lemma_sum_power_take(s: Seq<CardView>, k: int)
    requires
        0 <= k <= s.len(),
    ensures
        sum_power(s.take(k)) <= sum_power(s),
    decreases s.len() - k,
{
    if k < s.len() {
        lemma_sum_power_take(s, k + 1);
        let t = s.take(k + 1);
        assert(t.drop_last() =~= s.take(k));
    } else {
        assert(s.take(k) =~= s);
    }
}

fn find_blocker(b: &Vec<CardView>, ap: u32, lethal: bool) -> (res: Option<usize>)
    ensures
        res matches Some(i) ==> first_blocker(b@, ap, lethal) == Some(i as int) && i < b@.len(),
        res is None ==> first_blocker(b@, ap, lethal) is None,
{
    let mut i: usize = 0;
    assert(b@.subrange(0, b@.len() as int) =~= b@);
    while i < b.len()
        invariant
            i <= b.len(),
            first_blocker(b@, ap, lethal) == match first_blocker(
                b@.subrange(i as int, b@.len() as int),
                ap,
                lethal,
            ) {
                Some(j) => Some(j + i),
                None => None::<int>,
            },
        decreases b.len() - i,
    {
        let rest = Ghost(b@.subrange(i as int, b@.len() as int));
        assert(rest@[0] == b@[i as int]);
        if power(&b[i]) > ap || lethal {
            return Some(i);
        }
        assert(rest@.drop_first() =~= b@.subrange(i + 1, b@.len() as int));
        i += 1;
    }
    assert(b@.subrange(i as int, b@.len() as int) =~= Seq::<CardView>::empty());
    None
}

/// The greedy blocking plan (see [`block_pairs`]).
fn plan_blocks(attackers: Vec<CardView>, blockers: Vec<CardView>, life: i32) -> (res: Vec<
    (ObjectId, ObjectId),
>)
    requires
        sum_power(attackers@) <= u32::MAX,
    ensures
        res@ == block_pairs(attackers@, blockers@, life),
{
    let mut attackers = attackers;
    let mut blockers = blockers;
    let mut pairs: Vec<(ObjectId, ObjectId)> = Vec::new();
    let ghost goal = block_pairs(attackers@, blockers@, life);
    while attackers.len() > 0 && blockers.len() > 0
        invariant
            sum_power(attackers@) <= u32::MAX,
            pairs@ + block_pairs(attackers@, blockers@, life) == goal,
        decreases attackers.len(),
    {
        let ghost a0 = attackers@;
        let ghost b0 = blockers@;
        let total = sum_powers(&attackers);
        let attacker = attackers.pop().unwrap();
        let ap = power(&attacker);
        let lethal = (#[verifier::truncate] (total as i32)) >= life;
        assert(attacker == a0.last() && attackers@ == a0.drop_last());
        proof {
            lemma_sum_power_prefix(a0);
        }
        if ap > 0 {
            match find_blocker(&blockers, ap, lethal) {
                Some(i) => {
                    let blocker = blockers.remove(i);
                    let ghost before = pairs@;
                    pairs.push((attacker.id, blocker.id));
                    assert(pairs@ + block_pairs(attackers@, blockers@, life) =~= before + (seq![
                        (attacker.id, blocker.id),
                    ] + block_pairs(attackers@, blockers@, life)));
                },
                None => {},
            }
        }
    }
    assert(block_pairs(attackers@, blockers@, life) =~= Seq::<(ObjectId, ObjectId)>::empty());
    assert(pairs@ + Seq::<(ObjectId, ObjectId)>::empty() =~= pairs@);
    pairs
}

/// The answer to one kind of move (see [`simple_step`]).
fn simple_step_exec(view: &GameView, player: u8, action: &AvailableAction) -> (res: Option<
    Vec<(Action, ComputedScore)>,
>)
    requires
        match *action {
            AvailableAction::SelectCard { cards } => forall|j: int|
                0 <= j < found_cards(view.cards@, cards@).len() ==> (#[trigger] found_cards(
                    view.cards@,
                    cards@,
                )[j]).score != i32::MIN,
            AvailableAction::Attack { .. } => view.players@.len() > 0 ==> sum_u32(
                active_powers(view.players@[next_seat(player, view.players@.len())].field@),
            ) <= u32::MAX,
            AvailableAction::Block { attackers, .. } => sum_power(
                found_cards(view.cards@, attackers@),
            ) <= u32::MAX,
            _ => true,
        },
    ensures
        match res {
            Some(v) => simple_step(*view, player, *action) == Some(scored_views(v@)),
            None => simple_step(*view, player, *action) is None,
        },
{
    match action {
        AvailableAction::SelectCard { cards } => {
            let cands = scored_select(view, player, cards);
            match best_index(&cands) {
                Some(j) => {
                    let (card, score) = cands[j];
                    Some(one(Action::SelectCard { card }, score))
                },
                None => None,
            }
        },
        AvailableAction::Attack { attackers } => {
            let me = match view.player(player) {
                Some(p) => p,
                None => {
                    return Some(none_scored());
                },
            };
            let opp = match view.next_player(player) {
                Some(o) => o,
                None => {
                    return Some(none_scored());
                },
            };
            let powers = active_field_powers(&opp.field);
            let (total, max) = total_and_max(&powers);
            if (#[verifier::truncate] (total as i32)) >= me.life {
                return Some(one(Action::Attack { attackers: Vec::new() }, ComputedScore::default()));
            }
            let found = view.find_cards(attackers);
            let chosen = strong_ids(&found, max);
            if chosen.len() > 0 {
                Some(one(Action::Attack { attackers: chosen }, ComputedScore::default()))
            } else {
                None
            }
        },
        AvailableAction::Block { attackers, blockers } => {
            let me = match view.player(player) {
                Some(p) => p,
                None => {
                    return Some(none_scored());
                },
            };
            let found_b = view.find_cards(blockers);
            let found_a = view.find_cards(attackers);
            let sorted_b = sort_by_power(&found_b);
            let sorted_a = sort_by_power(&found_a);
            proof {
                crate::sorting::lemma_sorted_by_power_permutes(found_a@);
                lemma_sum_power_multiset(found_a@, sorted_a@);
            }
            let pairs = plan_blocks(sorted_a, sorted_b, me.life);
            Some(one(Action::Block { pairs }, ComputedScore::default()))
        },
        AvailableAction::CastCard { cards } => {
            let cands = scored_cast(view, cards);
            match best_index(&cands) {
                Some(j) => {
                    let (card, score) = cands[j];
                    Some(one(Action::CastCard { card }, score))
                },
                None => None,
            }
        },
        _ => None,
    }
}

/// The total power of cards depends only on which cards there are.
proof fn lemma_sum_power_multiset(a: Seq<CardView>, b: Seq<CardView>)
    requires
        a.to_multiset() == b.to_multiset(),
    ensures
        sum_power(a) == sum_power(b),
    decreases a.len(),
{
    broadcast use vstd::seq_lib::group_to_multiset_ensures;

    if a.len() > 0 {
        let x = a.last();
        assert(a.drop_last().push(x) =~= a);
        vstd::seq_lib::to_multiset_build(a.drop_last(), x);
        assert(b.to_multiset().count(x) > 0);
        assert(b.contains(x));
        let i = choose|i: int| 0 <= i < b.len() && b[i] == x;
        vstd::seq_lib::to_multiset_remove(b, i);
        assert(a.drop_last().to_multiset() =~= b.remove(i).to_multiset());
        lemma_sum_power_multiset(a.drop_last(), b.remove(i));
        lemma_sum_power_remove(b, i);
    } else {
        vstd::seq_lib::to_multiset_len(b);
        assert(b.len() == 0);
    }
}

proof fn lemma_sum_power_remove(b: Seq<CardView>, i: int)
    requires
        0 <= i < b.len(),
    ensures
        sum_power(b) == sum_power(b.remove(i)) + power_of(b[i]),
    decreases b.len(),
{
    if i < b.len() - 1 {
        lemma_sum_power_remove(b.drop_last(), i);
        assert(b.remove(i).drop_last() =~= b.drop_last().remove(i));
        assert(b.remove(i).last() == b.last());
    } else {
        assert(b.remove(i) =~= b.drop_last());
    }
}

impl SimpleBot {
    /// The simple bot's answer to the moves the engine allows (see
    /// [`simple_from`]): at most one move, scored with zero gain except for
    /// picked and cast cards, which carry their value.
    pub fn compute(&mut self, view: &GameView, actions: &PlayerAvailableActions) -> (res: Vec<
        (Action, ComputedScore),
    >)
        requires
            simple_fits(*view, *actions),
        ensures
            scored_views(res@) == simple_from(*view, *actions, 0),
    {
        let mut i: usize = 0;
        while i < actions.actions.len()
            invariant
                i <= actions.actions.len(),
                simple_fits(*view, *actions),
                simple_from(*view, *actions, 0) == simple_from(*view, *actions, i as int),
            decreases actions.actions.len() - i,
        {
            let step = simple_step_exec(view, actions.player, &actions.actions[i]);
            match step {
                Some(r) => {
                    return r;
                },
                None => {},
            }
            i += 1;
        }
        match &actions.default_action {
            Some(a) => one(a.duplicate(), ComputedScore::default()),
            None => none_scored(),
        }
    }
}

} // verus!
