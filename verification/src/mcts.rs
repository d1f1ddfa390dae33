//! The moves the tree-search bot branches on.
use vstd::prelude::*;
use crate::combinations::{all_combinations, possible_combinations};
use crate::game::{
    Action, ActionSpec, AvailableAction, CardView, GameView, PlayerAvailableActions, copy_ids,
    found_cards,
};
use crate::ids::ObjectId;
use crate::score::ComputedScore;
use crate::simple::scored_views;
use crate::sorting::{
    is_sorted_by_power, lemma_sorted_by_power_is_sorted, lemma_sorted_by_power_permutes, power_key,
    sort_by_power, sorted_by_power,
};

verus! {

/// The bot that picks its move by a Monte Carlo tree search over
/// [`available_moves`].
#[derive(Debug, Clone, Copy, Default)]
pub struct MctsBot {}

/// The strongest attackers paired with the strongest blockers, weakest
/// with weakest, as far as the shorter list goes.
pub open spec fn blocking_pairs_for(a: Seq<CardView>, b: Seq<CardView>) -> Seq<
    (ObjectId, ObjectId),
> {
    let n = if a.len() < b.len() {
        a.len()
    } else {
        b.len()
    };
    Seq::new(n, |i: int| (a[i].id, b[i].id))
}

/// The block the tree search tries for a choice of blockers.
pub open spec fn select_blocking_pair_spec(
    view: GameView,
    attackers: Seq<ObjectId>,
    blockers: Seq<ObjectId>,
) -> Seq<(ObjectId, ObjectId)> {
    blocking_pairs_for(
        sorted_by_power(found_cards(view.cards@, attackers)),
        sorted_by_power(found_cards(view.cards@, blockers)),
    )
}

/// The block the tree search tries pairs the weakest attackers with the
/// weakest blockers, in order of power: with the attackers and the
/// blockers each put in ascending order of power (the same cards, each as
/// often), the `i`-th pair is the `i`-th attacker with the `i`-th blocker,
/// for as many pairs as the shorter side has cards. So an attacker left
/// unblocked is never weaker than one that is blocked.
pub proof fn lemma_blocking_pairs_weakest_first(view: GameView, attackers: Seq<ObjectId>, blockers: Seq<ObjectId>)
    ensures
        ({
            let a = sorted_by_power(found_cards(view.cards@, attackers));
            let b = sorted_by_power(found_cards(view.cards@, blockers));
            let r = select_blocking_pair_spec(view, attackers, blockers);
            &&& is_sorted_by_power(a)
            &&& is_sorted_by_power(b)
            &&& a.to_multiset() == found_cards(view.cards@, attackers).to_multiset()
            &&& b.to_multiset() == found_cards(view.cards@, blockers).to_multiset()
            &&& r.len() == if a.len() < b.len() { a.len() } else { b.len() }
            &&& forall|i: int| 0 <= i < r.len() ==> (#[trigger] r[i]).0 == a[i].id && r[i].1 == b[i].id
            &&& forall|i: int, k: int|
                0 <= i < r.len() <= k < a.len() ==> power_key(#[trigger] a[i]) <= power_key(#[trigger] a[k])
        }),
{
    let fa = found_cards(view.cards@, attackers);
    let fb = found_cards(view.cards@, blockers);
    lemma_sorted_by_power_is_sorted(fa);
    lemma_sorted_by_power_is_sorted(fb);
    lemma_sorted_by_power_permutes(fa);
    lemma_sorted_by_power_permutes(fb);
}

/// The moves one kind of available move expands to.
pub open spec fn moves_for(view: GameView, p: u8, a: AvailableAction) -> Seq<(u8, ActionSpec)> {
    match a {
        AvailableAction::SelectCard { cards } => Seq::new(
            cards@.len(),
            |i: int| (p, ActionSpec::SelectCard { card: cards@[i] }),
        ),
        AvailableAction::FetchCard { cards } => Seq::new(
            cards@.len(),
            |i: int| (p, ActionSpec::FetchCard { card: cards@[i] }),
        ),
        AvailableAction::CastCard { cards } => Seq::new(
            cards@.len(),
            |i: int| (p, ActionSpec::CastCard { card: cards@[i] }),
        ),
        AvailableAction::Attack { attackers } => {
            let cs = all_combinations(attackers@);
            Seq::new(cs.len(), |i: int| (p, ActionSpec::Attack { attackers: cs[i] }))
        },
        AvailableAction::Block { attackers, blockers } => {
            let cs = all_combinations(blockers@);
            Seq::new(
                cs.len(),
                |i: int|
                    (
                        p,
                        ActionSpec::Block {
                            pairs: select_blocking_pair_spec(view, attackers@, cs[i]),
                        },
                    ),
            ).push((p, ActionSpec::Block { pairs: Seq::empty() }))
        },
        AvailableAction::EndTurn => seq![(p, ActionSpec::EndTurn)],
        _ => Seq::empty(),
    }
}

/// Every move the tree search branches on, kind by kind in order.
pub open spec fn moves_of(view: GameView, p: u8, list: Seq<AvailableAction>) -> Seq<
    (u8, ActionSpec),
>
    decreases list.len(),
{
    if list.len() == 0 {
        Seq::empty()
    } else {
        moves_of(view, p, list.drop_last()) + moves_for(view, p, list.last())
    }
}

/// Every move the tree search branches on; none when no one may move.
pub open spec fn available_moves(view: GameView, actions: Option<PlayerAvailableActions>) -> Seq<
    (u8, ActionSpec),
> {
    match actions {
        Some(a) => moves_of(view, a.player, a.actions@),
        None => Seq::empty(),
    }
}

pub open spec fn move_views(v: Seq<(u8, Action)>) -> Seq<(u8, ActionSpec)> {
    Seq::new(v.len(), |i: int| (v[i].0, v[i].1@))
}

proof fn lemma_push_step(v: Seq<(u8, Action)>, x: (u8, Action), start: Seq<(u8, ActionSpec)>, want: Seq<(u8, ActionSpec)>, i: int)
    requires
        0 <= i < want.len(),
        move_views(v) == start + want.take(i),
        want[i] == (x.0, x.1@),
    ensures
        move_views(v.push(x)) == start + want.take(i + 1),
{
    assert(move_views(v.push(x)) =~= move_views(v).push((x.0, x.1@)));
    assert(want.take(i + 1) =~= want.take(i).push(want[i]));
    assert(start + want.take(i).push(want[i]) =~= (start + want.take(i)).push(want[i]));
}

/// The block the tree search tries for a choice of blockers: attackers and
/// blockers each ordered by power, paired in that order.
pub fn select_blocking_pair(view: &GameView, attackers: &Vec<ObjectId>, blockers: &Vec<ObjectId>) -> (res: Vec<
    (ObjectId, ObjectId),
>)
    ensures
        res@ == select_blocking_pair_spec(*view, attackers@, blockers@),
{
    let b = sort_by_power(&view.find_cards(blockers));
    let a = sort_by_power(&view.find_cards(attackers));
    let n = if a.len() < b.len() {
        a.len()
    } else {
        b.len()
    };
    let mut res: Vec<(ObjectId, ObjectId)> = Vec::new();
    let mut i: usize = 0;
    while i < n
        invariant
            i <= n,
            n <= a.len(),
            n <= b.len(),
            res@ == blocking_pairs_for(a@, b@).take(i as int),
            n == blocking_pairs_for(a@, b@).len(),
        decreases n - i,
    {
        res.push((a[i].id, b[i].id));
        i += 1;
        assert(res@ =~= blocking_pairs_for(a@, b@).take(i as int));
    }
    assert(blocking_pairs_for(a@, b@).take(i as int) =~= blocking_pairs_for(a@, b@));
    res
}

fn single_card_moves(p: u8, cards: &Vec<ObjectId>, kind: u8, out: &mut Vec<(u8, Action)>)
    requires
        kind < 3,
    ensures
        move_views(final(out)@) == move_views(old(out)@) + Seq::new(
            cards@.len(),
            |i: int|
                (
                    p,
                    if kind == 0 {
                        ActionSpec::SelectCard { card: cards@[i] }
                    } else if kind == 1 {
                        ActionSpec::FetchCard { card: cards@[i] }
                    } else {
                        ActionSpec::CastCard { card: cards@[i] }
                    },
                ),
        ),
{
    let ghost start = move_views(out@);
    let ghost want = Seq::new(
        cards@.len(),
        |i: int|
            (
                p,
                if kind == 0 {
                    ActionSpec::SelectCard { card: cards@[i] }
                } else if kind == 1 {
                    ActionSpec::FetchCard { card: cards@[i] }
                } else {
                    ActionSpec::CastCard { card: cards@[i] }
                },
            ),
    );
    let mut i: usize = 0;
    while i < cards.len()
        invariant
            i <= cards.len(),
            kind < 3,
            want.len() == cards@.len(),
            want == Seq::new(
                cards@.len(),
                |i: int|
                    (
                        p,
                        if kind == 0 {
                            ActionSpec::SelectCard { card: cards@[i] }
                        } else if kind == 1 {
                            ActionSpec::FetchCard { card: cards@[i] }
                        } else {
                            ActionSpec::CastCard { card: cards@[i] }
                        },
                    ),
            ),
            move_views(out@) == start + want.take(i as int),
        decreases cards.len() - i,
    {
        let card = cards[i];
        let a = if kind == 0 {
            Action::SelectCard { card }
        } else if kind == 1 {
            Action::FetchCard { card }
        } else {
            Action::CastCard { card }
        };
        proof {
            lemma_push_step(out@, (p, a), start, want, i as int);
        }
        out.push((p, a));
        i += 1;
    }
    assert(want.take(i as int) =~= want);
}

fn moves_for_exec(view: &GameView, p: u8, a: &AvailableAction, out: &mut Vec<(u8, Action)>)
    ensures
        move_views(final(out)@) == move_views(old(out)@) + moves_for(*view, p, *a),
{
    let ghost start = move_views(out@);
    match a {
        AvailableAction::SelectCard { cards } => {
            single_card_moves(p, cards, 0, out);
            assert(move_views(out@) =~= start + moves_for(*view, p, *a));
        },
        AvailableAction::FetchCard { cards } => {
            single_card_moves(p, cards, 1, out);
            assert(move_views(out@) =~= start + moves_for(*view, p, *a));
        },
        AvailableAction::CastCard { cards } => {
            single_card_moves(p, cards, 2, out);
            assert(move_views(out@) =~= start + moves_for(*view, p, *a));
        },
        AvailableAction::Attack { attackers } => {
            let cs = possible_combinations(attackers.as_slice());
            let ghost want = moves_for(*view, p, *a);
            let mut i: usize = 0;
            while i < cs.len()
                invariant
                    i <= cs.len(),
                    cs@.map_values(|v: Vec<ObjectId>| v@) == all_combinations(attackers@),
                    want == moves_for(*view, p, *a),
                    want.len() == cs@.len(),
                    forall|j: int| 0 <= j < want.len() ==> #[trigger] want[j] == (p, ActionSpec::Attack { attackers: cs@[j]@ }),
                    move_views(out@) == start + want.take(i as int),
                decreases cs.len() - i,
            {
                let c = copy_ids(&cs[i]);
                let act = Action::Attack { attackers: c };
                proof {
                    lemma_push_step(out@, (p, act), start, want, i as int);
                }
                out.push((p, act));
                i += 1;
            }
            assert(want.take(i as int) =~= want);
        },
        AvailableAction::Block { attackers, blockers } => {
            let cs = possible_combinations(blockers.as_slice());
            let ghost want = moves_for(*view, p, *a);
            let ghost all = all_combinations(blockers@);
            let mut i: usize = 0;
            while i < cs.len()
                invariant
                    i <= cs.len(),
                    cs@.map_values(|v: Vec<ObjectId>| v@) == all,
                    all == all_combinations(blockers@),
                    want == moves_for(*view, p, *a),
                    want.len() == cs@.len() + 1,
                    forall|j: int| 0 <= j < cs@.len() ==> #[trigger] want[j] == (p, ActionSpec::Block { pairs: select_blocking_pair_spec(*view, attackers@, cs@[j]@) }),
                    move_views(out@) == start + want.take(i as int),
                decreases cs.len() - i,
            {
                let pairs = select_blocking_pair(view, attackers, &cs[i]);
                let act = Action::Block { pairs };
                proof {
                    lemma_push_step(out@, (p, act), start, want, i as int);
                }
                out.push((p, act));
                i += 1;
            }
            let act = Action::Block { pairs: Vec::new() };
            proof {
                assert(act@ == ActionSpec::Block { pairs: Seq::<(ObjectId, ObjectId)>::empty() });
                lemma_push_step(out@, (p, act), start, want, i as int);
                assert(want.take(i + 1) =~= want);
            }
            out.push((p, act));
        },
        AvailableAction::EndTurn => {
            out.push((p, Action::EndTurn));
            assert(move_views(out@) =~= start + moves_for(*view, p, *a));
        },
        _ => {
            assert(move_views(out@) =~= start + moves_for(*view, p, *a));
        },
    }
}

/// Every move the tree search branches on (see [`available_moves`]).
pub fn get_available_actions(actions: Option<&PlayerAvailableActions>, view: &GameView) -> (res: Vec<
    (u8, Action),
>)
    ensures
        move_views(res@) == available_moves(
            *view,
            match actions {
                Some(a) => Some(*a),
                None => None,
            },
        ),
{
    let mut out: Vec<(u8, Action)> = Vec::new();
    match actions {
        Some(acts) => {
            let mut i: usize = 0;
            while i < acts.actions.len()
                invariant
                    i <= acts.actions.len(),
                    move_views(out@) == moves_of(*view, acts.player, acts.actions@.take(i as int)),
                decreases acts.actions.len() - i,
            {
                proof {
                    let t = acts.actions@.take(i + 1);
                    assert(t.drop_last() =~= acts.actions@.take(i as int));
                }
                moves_for_exec(view, acts.player, &acts.actions[i], &mut out);
                i += 1;
            }
            assert(acts.actions@.take(i as int) =~= acts.actions@);
        },
        None => {
            assert(move_views(out@) =~= Seq::<(u8, ActionSpec)>::empty());
        },
    }
    out
}

impl MctsBot {
    /// The tree-search bot's answer once the search is done: the move it
    /// found, with a neutral score, or nothing when it found none.
    pub fn compute(&mut self, searched: Option<Action>) -> (res: Vec<(Action, ComputedScore)>)
        ensures
            searched matches Some(a) ==> scored_views(res@) == seq![
                (a@, ComputedScore { base: 0, action: 0 }),
            ],
            searched is None ==> res@.len() == 0,
    {
        let mut res: Vec<(Action, ComputedScore)> = Vec::new();
        match searched {
            Some(a) => {
                res.push((a, ComputedScore::default()));
                assert(scored_views(res@) =~= seq![(a@, ComputedScore { base: 0, action: 0 })]);
            },
            None => {},
        }
        res
    }
}

} // verus!
