//! The board as the client lays it out: the cards in both hands and on both
//! fields, the attackers and blocks the engine has recorded, and the
//! attackers and blocks the player is preparing.
use vstd::prelude::*;
use crate::combinations::is_matching;
use crate::game::{copy_ids, next_seat, FieldBattleState, FieldCard, FieldState, GameView, PlayerView};
use crate::ids::ObjectId;
use crate::stable::{lemma_sort_keyed, sort_by_keys, sort_keyed};

verus! {

/// A card on a field, with its state.
pub type Slot = (ObjectId, FieldState);

/// The board the client draws.
#[derive(Debug)]
pub struct Board {
    pub player_hand: Vec<ObjectId>,
    pub player_field: Vec<(ObjectId, FieldState)>,
    pub opponent_hand: Vec<ObjectId>,
    pub opponent_field: Vec<(ObjectId, FieldState)>,
    attackers: Vec<ObjectId>,
    blocking_pairs: Vec<(ObjectId, ObjectId)>,
    temp_attackers: Vec<ObjectId>,
    temp_blocking_pairs: Vec<(ObjectId, ObjectId)>,
}

// ---------------------------------------------------------------------------
// Sequences of ids.
/// The first position of `id` in `s`.
pub open spec fn index_of(s: Seq<ObjectId>, id: ObjectId) -> Option<int>
    decreases s.len(),
{
    if s.len() == 0 {
        None
    } else if s[0] == id {
        Some(0)
    } else {
        match index_of(s.drop_first(), id) {
            Some(i) => Some(i + 1),
            None => None,
        }
    }
}

/// The ids of the cards of a field, in order.
pub open spec fn field_ids(f: Seq<Slot>) -> Seq<ObjectId> {
    Seq::new(f.len(), |i: int| f[i].0)
}

/// The first position of the card `id` on the field `f`.
pub open spec fn slot_of(f: Seq<Slot>, id: ObjectId) -> Option<int> {
    index_of(field_ids(f), id)
}

/// `s` without any occurrence of `x`.
pub open spec fn remove_all(s: Seq<ObjectId>, x: ObjectId) -> Seq<ObjectId>
    decreases s.len(),
{
    if s.len() == 0 {
        Seq::empty()
    } else {
        let rest = remove_all(s.drop_last(), x);
        if s.last() == x {
            rest
        } else {
            rest.push(s.last())
        }
    }
}

/// The items of `s` that do not occur in `t`, in order.
pub open spec fn without(s: Seq<ObjectId>, t: Seq<ObjectId>) -> Seq<ObjectId>
    decreases s.len(),
{
    if s.len() == 0 {
        Seq::empty()
    } else {
        let rest = without(s.drop_last(), t);
        if t.contains(s.last()) {
            rest
        } else {
            rest.push(s.last())
        }
    }
}

/// The pairs of `s` that do not occur in `t`, in order.
pub open spec fn pairs_without(s: Seq<(ObjectId, ObjectId)>, t: Seq<(ObjectId, ObjectId)>) -> Seq<
    (ObjectId, ObjectId),
>
    decreases s.len(),
{
    if s.len() == 0 {
        Seq::empty()
    } else {
        let rest = pairs_without(s.drop_last(), t);
        if t.contains(s.last()) {
            rest
        } else {
            rest.push(s.last())
        }
    }
}

/// The pairs of `s` whose blocker is not `b`, in order.
pub open spec fn drop_blocker(s: Seq<(ObjectId, ObjectId)>, b: ObjectId) -> Seq<
    (ObjectId, ObjectId),
>
    decreases s.len(),
{
    if s.len() == 0 {
        Seq::empty()
    } else {
        let rest = drop_blocker(s.drop_last(), b);
        if s.last().1 == b {
            rest
        } else {
            rest.push(s.last())
        }
    }
}

/// The pairs of `s` whose attacker is not `a`, in order.
pub open spec fn drop_attacker(s: Seq<(ObjectId, ObjectId)>, a: ObjectId) -> Seq<
    (ObjectId, ObjectId),
>
    decreases s.len(),
{
    if s.len() == 0 {
        Seq::empty()
    } else {
        let rest = drop_attacker(s.drop_last(), a);
        if s.last().0 == a {
            rest
        } else {
            rest.push(s.last())
        }
    }
}

/// Whether no id occurs twice in `s`.
pub open spec fn no_duplicates(s: Seq<ObjectId>) -> bool {
    forall|i: int, j: int| 0 <= i < j < s.len() ==> s[i] != s[j]
}

// ---------------------------------------------------------------------------
// Layout of a battle.
/// Moves the card at `from` to `to` (as far as the field allows) when both
/// positions exist.
pub open spec fn shift(f: Seq<Slot>, from: Option<int>, to: Option<int>) -> Seq<Slot> {
    match (from, to) {
        (Some(a), Some(b)) => if a > b {
            f.remove(a).insert(b, f[a])
        } else if a < b {
            let g = f.remove(a);
            g.insert(if b < g.len() { b } else { g.len() as int }, f[a])
        } else {
            f
        },
        _ => f,
    }
}

/// Places an attacker across from the creature that blocks it, on both sides.
pub open spec fn layout_step(opp: Seq<Slot>, plr: Seq<Slot>, pair: (ObjectId, ObjectId)) -> (
    Seq<Slot>,
    Seq<Slot>,
) {
    let opp2 = shift(opp, slot_of(opp, pair.0), slot_of(plr, pair.1));
    let plr2 = shift(plr, slot_of(plr, pair.0), slot_of(opp2, pair.1));
    (opp2, plr2)
}

pub open spec fn layout_all(opp: Seq<Slot>, plr: Seq<Slot>, pairs: Seq<(ObjectId, ObjectId)>) -> (
    Seq<Slot>,
    Seq<Slot>,
)
    decreases pairs.len(),
{
    if pairs.len() == 0 {
        (opp, plr)
    } else {
        let (o, p) = layout_step(opp, plr, pairs[0]);
        layout_all(o, p, pairs.drop_first())
    }
}

/// Where a block is drawn: the blocker's position on the opponent's field,
/// else on the player's, else the left end.
pub open spec fn layout_key(opp: Seq<Slot>, plr: Seq<Slot>, blocker: ObjectId) -> u64 {
    match slot_of(opp, blocker) {
        Some(i) => i as u64,
        None => match slot_of(plr, blocker) {
            Some(i) => i as u64,
            None => 0,
        },
    }
}

pub open spec fn keyed_pairs(opp: Seq<Slot>, plr: Seq<Slot>, pairs: Seq<(ObjectId, ObjectId)>) -> Seq<
    (u64, (ObjectId, ObjectId)),
> {
    Seq::new(pairs.len(), |i: int| (layout_key(opp, plr, pairs[i].1), pairs[i]))
}

pub open spec fn unkeyed(s: Seq<(u64, (ObjectId, ObjectId))>) -> Seq<(ObjectId, ObjectId)> {
    Seq::new(s.len(), |i: int| s[i].1)
}

/// The fields after laying out `pairs`, handled in the order of their
/// blockers' positions.
pub open spec fn battle_layout(opp: Seq<Slot>, plr: Seq<Slot>, pairs: Seq<(ObjectId, ObjectId)>) -> (
    Seq<Slot>,
    Seq<Slot>,
) {
    layout_all(opp, plr, unkeyed(sort_keyed(keyed_pairs(opp, plr, pairs))))
}

/// Moving a card within a field keeps the same cards.
pub proof fn lemma_shift_permutes(f: Seq<Slot>, from: Option<int>, to: Option<int>)
    requires
        from matches Some(a) ==> 0 <= a < f.len(),
        to matches Some(b) ==> 0 <= b,
    ensures
        shift(f, from, to).to_multiset() == f.to_multiset(),
        shift(f, from, to).len() == f.len(),
{
    broadcast use vstd::multiset::group_multiset_axioms;

    match (from, to) {
        (Some(a), Some(b)) => {
            if a != b {
                let g = f.remove(a);
                vstd::seq_lib::to_multiset_remove(f, a);
                vstd::seq_lib::to_multiset_contains(f, f[a]);
                assert(f.contains(f[a]));
                let k = if a > b {
                    b
                } else if b < g.len() {
                    b
                } else {
                    g.len() as int
                };
                assert(0 <= k <= g.len());
                vstd::seq_lib::to_multiset_insert(g, k, f[a]);
                assert(g.to_multiset().insert(f[a]) =~= f.to_multiset());
                assert(shift(f, from, to) == g.insert(k, f[a]));
            }
        },
        _ => {},
    }
}

proof fn lemma_index_of(s: Seq<ObjectId>, id: ObjectId)
    ensures
        index_of(s, id) matches Some(i) ==> 0 <= i < s.len() && s[i] == id,
        index_of(s, id) is None ==> !s.contains(id),
        index_of(s, id) matches Some(i) ==> forall|j: int| 0 <= j < i ==> s[j] != id,
    decreases s.len(),
{
    if s.len() > 0 {
        lemma_index_of(s.drop_first(), id);
        if s[0] != id {
            if index_of(s, id) is None {
                assert forall|j: int| 0 <= j < s.len() implies s[j] != id by {
                    if j > 0 {
                        assert(s[j] == s.drop_first()[j - 1]);
                    }
                }
            } else {
                assert forall|j: int| 0 <= j < index_of(s, id)->0 implies s[j] != id by {
                    if j > 0 {
                        assert(s[j] == s.drop_first()[j - 1]);
                    }
                }
            }
        }
    }
}

proof fn lemma_slot_of(f: Seq<Slot>, id: ObjectId)
    ensures
        slot_of(f, id) matches Some(i) ==> 0 <= i < f.len() && f[i].0 == id,
        slot_of(f, id) is None ==> forall|j: int| 0 <= j < f.len() ==> f[j].0 != id,
{
    lemma_index_of(field_ids(f), id);
    if slot_of(f, id) is None {
        assert forall|j: int| 0 <= j < f.len() implies f[j].0 != id by {
            assert(field_ids(f)[j] == f[j].0);
        }
    }
}

proof fn lemma_layout_step_permutes(opp: Seq<Slot>, plr: Seq<Slot>, pair: (ObjectId, ObjectId))
    ensures
        layout_step(opp, plr, pair).0.to_multiset() == opp.to_multiset(),
        layout_step(opp, plr, pair).1.to_multiset() == plr.to_multiset(),
{
    lemma_slot_of(opp, pair.0);
    lemma_slot_of(plr, pair.0);
    lemma_slot_of(plr, pair.1);
    lemma_shift_permutes(opp, slot_of(opp, pair.0), slot_of(plr, pair.1));
    let opp2 = shift(opp, slot_of(opp, pair.0), slot_of(plr, pair.1));
    lemma_slot_of(opp2, pair.1);
    lemma_shift_permutes(plr, slot_of(plr, pair.0), slot_of(opp2, pair.1));
}

/// Laying out a battle only reorders each field: the same cards stay on
/// each side, each as often.
pub proof fn lemma_layout_all_permutes(opp: Seq<Slot>, plr: Seq<Slot>, pairs: Seq<(ObjectId, ObjectId)>)
    ensures
        layout_all(opp, plr, pairs).0.to_multiset() == opp.to_multiset(),
        layout_all(opp, plr, pairs).1.to_multiset() == plr.to_multiset(),
    decreases pairs.len(),
{
    if pairs.len() > 0 {
        let (o, p) = layout_step(opp, plr, pairs[0]);
        lemma_layout_step_permutes(opp, plr, pairs[0]);
        lemma_layout_all_permutes(o, p, pairs.drop_first());
    }
}

// ---------------------------------------------------------------------------
// Executable helpers.
fn position(s: &Vec<ObjectId>, id: ObjectId) -> (res: Option<usize>)
    ensures
        match res {
            Some(i) => index_of(s@, id) == Some(i as int),
            None => index_of(s@, id) is None,
        },
{
    let mut i: usize = 0;
    assert(s@.subrange(0, s@.len() as int) =~= s@);
    while i < s.len()
        invariant
            i <= s.len(),
            index_of(s@, id) == match index_of(s@.subrange(i as int, s@.len() as int), id) {
                Some(j) => Some(j + i),
                None => None::<int>,
            },
        decreases s.len() - i,
    {
        proof {
            let rest = s@.subrange(i as int, s@.len() as int);
            assert(rest[0] == s@[i as int]);
            assert(rest.drop_first() =~= s@.subrange(i + 1, s@.len() as int));
        }
        if s[i] == id {
            return Some(i);
        }
        i += 1;
    }
    assert(s@.subrange(i as int, s@.len() as int) =~= Seq::<ObjectId>::empty());
    None
}

fn slot_position(f: &Vec<(ObjectId, FieldState)>, id: ObjectId) -> (res: Option<usize>)
    ensures
        match res {
            Some(i) => slot_of(f@, id) == Some(i as int),
            None => slot_of(f@, id) is None,
        },
{
    let ghost ids = field_ids(f@);
    let mut i: usize = 0;
    assert(ids.subrange(0, ids.len() as int) =~= ids);
    while i < f.len()
        invariant
            i <= f.len(),
            ids == field_ids(f@),
            index_of(ids, id) == match index_of(ids.subrange(i as int, ids.len() as int), id) {
                Some(j) => Some(j + i),
                None => None::<int>,
            },
        decreases f.len() - i,
    {
        proof {
            let rest = ids.subrange(i as int, ids.len() as int);
            assert(rest[0] == f@[i as int].0);
            assert(rest.drop_first() =~= ids.subrange(i + 1, ids.len() as int));
        }
        if f[i].0 == id {
            return Some(i);
        }
        i += 1;
    }
    assert(ids.subrange(i as int, ids.len() as int) =~= Seq::<ObjectId>::empty());
    None
}

pub(crate) fn contains_id(s: &Vec<ObjectId>, id: ObjectId) -> (res: bool)
    ensures
        res == s@.contains(id),
{
    let r = position(s, id);
    proof {
        lemma_index_of(s@, id);
    }
    r.is_some()
}

fn contains_pair(s: &Vec<(ObjectId, ObjectId)>, p: (ObjectId, ObjectId)) -> (res: bool)
    ensures
        res == s@.contains(p),
{
    let mut i: usize = 0;
    while i < s.len()
        invariant
            i <= s.len(),
            forall|j: int| 0 <= j < i ==> s@[j] != p,
        decreases s.len() - i,
    {
        if s[i].0 == p.0 && s[i].1 == p.1 {
            assert(s@[i as int] == p);
            return true;
        }
        i += 1;
    }
    false
}

fn shift_exec(f: &mut Vec<(ObjectId, FieldState)>, from: Option<usize>, to: Option<usize>)
    requires
        from matches Some(a) ==> a < old(f)@.len(),
    ensures
        final(f)@ == shift(
            old(f)@,
            match from {
                Some(a) => Some(a as int),
                None => None,
            },
            match to {
                Some(b) => Some(b as int),
                None => None,
            },
        ),
{
    match (from, to) {
        (Some(a), Some(b)) => {
            if a > b {
                let removed = f.remove(a);
                f.insert(b, removed);
            } else if a < b {
                let removed = f.remove(a);
                let len = f.len();
                let to = if b < len {
                    b
                } else {
                    len
                };
                f.insert(to, removed);
            }
        },
        _ => {},
    }
}


/// What a board holds, as mathematical values.
#[verifier::ext_equal]
pub struct BoardModel {
    pub player_hand: Seq<ObjectId>,
    pub player_field: Seq<Slot>,
    pub opponent_hand: Seq<ObjectId>,
    pub opponent_field: Seq<Slot>,
    pub committed_attackers: Seq<ObjectId>,
    pub committed_blocks: Seq<(ObjectId, ObjectId)>,
    pub chosen_attackers: Seq<ObjectId>,
    pub chosen_blocks: Seq<(ObjectId, ObjectId)>,
}

/// The attackers a board shows (see [`Board::shown_attackers`]).
pub open spec fn shown_attackers_of(m: BoardModel) -> Seq<ObjectId> {
    m.chosen_attackers + without(m.committed_attackers, m.chosen_attackers)
}

/// The blocks a board shows (see [`Board::shown_blocks`]).
pub open spec fn shown_blocks_of(m: BoardModel) -> Seq<(ObjectId, ObjectId)> {
    m.chosen_blocks + pairs_without(m.committed_blocks, m.chosen_blocks)
}

/// The board with its fields laid out again for the blocks it shows.
pub open spec fn relaid(m: BoardModel) -> BoardModel {
    let (o, p) = battle_layout(m.opponent_field, m.player_field, shown_blocks_of(m));
    BoardModel {
        player_hand: m.player_hand,
        player_field: p,
        opponent_hand: m.opponent_hand,
        opponent_field: o,
        committed_attackers: m.committed_attackers,
        committed_blocks: m.committed_blocks,
        chosen_attackers: m.chosen_attackers,
        chosen_blocks: m.chosen_blocks,
    }
}

/// The board once `card` is toggled among the prepared attackers.
pub open spec fn attacker_toggled(m: BoardModel, card: ObjectId) -> BoardModel {
    relaid(
        BoardModel {
            player_hand: m.player_hand,
            player_field: m.player_field,
            opponent_hand: m.opponent_hand,
            opponent_field: m.opponent_field,
            committed_attackers: m.committed_attackers,
            committed_blocks: m.committed_blocks,
            chosen_attackers: toggled(m.chosen_attackers, card),
            chosen_blocks: m.chosen_blocks,
        },
    )
}

/// The prepared blocks once `blocker` is set to block `attacker` (or to
/// block nothing).
pub open spec fn blocks_toggled(m: BoardModel, blocker: ObjectId, attacker: Option<ObjectId>) -> Seq<
    (ObjectId, ObjectId),
> {
    match attacker {
        Some(a) => if m.committed_attackers.contains(a) {
            drop_attacker(drop_blocker(m.chosen_blocks, blocker), a).push((a, blocker))
        } else {
            drop_blocker(m.chosen_blocks, blocker)
        },
        None => drop_blocker(m.chosen_blocks, blocker),
    }
}

/// The board once `blocker` is set to block `attacker` (or nothing).
pub open spec fn blocker_toggled(m: BoardModel, blocker: ObjectId, attacker: Option<ObjectId>) -> BoardModel {
    relaid(
        BoardModel {
            player_hand: m.player_hand,
            player_field: m.player_field,
            opponent_hand: m.opponent_hand,
            opponent_field: m.opponent_field,
            committed_attackers: m.committed_attackers,
            committed_blocks: m.committed_blocks,
            chosen_attackers: m.chosen_attackers,
            chosen_blocks: blocks_toggled(m, blocker, attacker),
        },
    )
}

/// The board with no prepared attackers or blocks.
pub open spec fn battle_cleared(m: BoardModel) -> BoardModel {
    relaid(
        BoardModel {
            player_hand: m.player_hand,
            player_field: m.player_field,
            opponent_hand: m.opponent_hand,
            opponent_field: m.opponent_field,
            committed_attackers: m.committed_attackers,
            committed_blocks: m.committed_blocks,
            chosen_attackers: Seq::empty(),
            chosen_blocks: Seq::empty(),
        },
    )
}

impl Board {
    /// The cards in the player's hand, in order.
    pub closed spec fn player_hand_seq(&self) -> Seq<ObjectId> {
        self.player_hand@
    }

    /// The cards on the player's field, in the order drawn.
    pub closed spec fn player_field_seq(&self) -> Seq<Slot> {
        self.player_field@
    }

    /// The cards in the opponent's hand, in order.
    pub closed spec fn opponent_hand_seq(&self) -> Seq<ObjectId> {
        self.opponent_hand@
    }

    /// The cards on the opponent's field, in the order drawn.
    pub closed spec fn opponent_field_seq(&self) -> Seq<Slot> {
        self.opponent_field@
    }

    /// The board's content.
    pub open spec fn model(&self) -> BoardModel {
        BoardModel {
            player_hand: self.player_hand_seq(),
            player_field: self.player_field_seq(),
            opponent_hand: self.opponent_hand_seq(),
            opponent_field: self.opponent_field_seq(),
            committed_attackers: self.committed_attackers(),
            committed_blocks: self.committed_blocks(),
            chosen_attackers: self.chosen_attackers(),
            chosen_blocks: self.chosen_blocks(),
        }
    }

    /// The attackers the engine has recorded.
    pub closed spec fn committed_attackers(&self) -> Seq<ObjectId> {
        self.attackers@
    }

    /// The blocks the engine has recorded.
    pub closed spec fn committed_blocks(&self) -> Seq<(ObjectId, ObjectId)> {
        self.blocking_pairs@
    }

    /// The attackers the player is preparing.
    pub closed spec fn chosen_attackers(&self) -> Seq<ObjectId> {
        self.temp_attackers@
    }

    /// The blocks the player is preparing.
    pub closed spec fn chosen_blocks(&self) -> Seq<(ObjectId, ObjectId)> {
        self.temp_blocking_pairs@
    }

    /// The board's invariant: the player prepares each attacker at most once,
    /// and no prepared block shares an attacker or a blocker with another.
    pub open spec fn wf(&self) -> bool {
        &&& no_duplicates(self.chosen_attackers())
        &&& is_matching(self.chosen_blocks())
    }

    /// The attackers shown: the prepared ones, then the recorded ones not
    /// prepared.
    pub open spec fn shown_attackers(&self) -> Seq<ObjectId> {
        self.chosen_attackers() + without(self.committed_attackers(), self.chosen_attackers())
    }

    /// The blocks shown: the prepared ones, then the recorded ones not
    /// prepared.
    pub open spec fn shown_blocks(&self) -> Seq<(ObjectId, ObjectId)> {
        self.chosen_blocks() + pairs_without(self.committed_blocks(), self.chosen_blocks())
    }

    /// An empty board.
    pub fn new() -> (res: Board)
        ensures
            res.wf(),
            res.player_hand_seq().len() == 0,
            res.player_field_seq().len() == 0,
            res.opponent_hand_seq().len() == 0,
            res.opponent_field_seq().len() == 0,
            res.committed_attackers().len() == 0,
            res.committed_blocks().len() == 0,
            res.chosen_attackers().len() == 0,
            res.chosen_blocks().len() == 0,
    {
        Board {
            player_hand: Vec::new(),
            player_field: Vec::new(),
            opponent_hand: Vec::new(),
            opponent_field: Vec::new(),
            attackers: Vec::new(),
            blocking_pairs: Vec::new(),
            temp_attackers: Vec::new(),
            temp_blocking_pairs: Vec::new(),
        }
    }

    /// Whether `card` is in the player's hand.
    pub fn in_hand(&self, card: ObjectId) -> (res: bool)
        ensures
            res == self.player_hand_seq().contains(card),
    {
        contains_id(&self.player_hand, card)
    }

    /// The cards on the player's field, in the order drawn.
    pub fn player_slots(&self) -> (res: &Vec<(ObjectId, FieldState)>)
        ensures
            res@ == self.player_field_seq(),
    {
        &self.player_field
    }

    /// The cards on the opponent's field, in the order drawn.
    pub fn opponent_slots(&self) -> (res: &Vec<(ObjectId, FieldState)>)
        ensures
            res@ == self.opponent_field_seq(),
    {
        &self.opponent_field
    }

    /// The attackers shown (see [`Board::shown_attackers`]).
    pub fn attackers(&self) -> (res: Vec<ObjectId>)
        ensures
            res@ == self.shown_attackers(),
    {
        let mut res: Vec<ObjectId> = Vec::new();
        let mut i: usize = 0;
        while i < self.temp_attackers.len()
            invariant
                i <= self.temp_attackers.len(),
                res@ == self.temp_attackers@.take(i as int),
            decreases self.temp_attackers.len() - i,
        {
            res.push(self.temp_attackers[i]);
            i += 1;
            assert(res@ =~= self.temp_attackers@.take(i as int));
        }
        assert(self.temp_attackers@.take(i as int) =~= self.temp_attackers@);
        let ghost head = res@;
        let mut j: usize = 0;
        while j < self.attackers.len()
            invariant
                j <= self.attackers.len(),
                head == self.temp_attackers@,
                res@ == head + without(self.attackers@.take(j as int), self.temp_attackers@),
            decreases self.attackers.len() - j,
        {
            let a = self.attackers[j];
            proof {
                let t = self.attackers@.take(j + 1);
                assert(t.drop_last() =~= self.attackers@.take(j as int));
                assert(t.last() == a);
            }
            if !contains_id(&self.temp_attackers, a) {
                res.push(a);
                assert(res@ =~= head + without(self.attackers@.take(j + 1), self.temp_attackers@));
            }
            j += 1;
        }
        assert(self.attackers@.take(j as int) =~= self.attackers@);
        res
    }

    /// The blocks shown (see [`Board::shown_blocks`]).
    pub fn blocking_pairs(&self) -> (res: Vec<(ObjectId, ObjectId)>)
        ensures
            res@ == self.shown_blocks(),
    {
        let mut res: Vec<(ObjectId, ObjectId)> = Vec::new();
        let mut i: usize = 0;
        while i < self.temp_blocking_pairs.len()
            invariant
                i <= self.temp_blocking_pairs.len(),
                res@ == self.temp_blocking_pairs@.take(i as int),
            decreases self.temp_blocking_pairs.len() - i,
        {
            res.push(self.temp_blocking_pairs[i]);
            i += 1;
            assert(res@ =~= self.temp_blocking_pairs@.take(i as int));
        }
        assert(self.temp_blocking_pairs@.take(i as int) =~= self.temp_blocking_pairs@);
        let ghost head = res@;
        let mut j: usize = 0;
        while j < self.blocking_pairs.len()
            invariant
                j <= self.blocking_pairs.len(),
                head == self.temp_blocking_pairs@,
                res@ == head + pairs_without(
                    self.blocking_pairs@.take(j as int),
                    self.temp_blocking_pairs@,
                ),
            decreases self.blocking_pairs.len() - j,
        {
            let p = self.blocking_pairs[j];
            proof {
                let t = self.blocking_pairs@.take(j + 1);
                assert(t.drop_last() =~= self.blocking_pairs@.take(j as int));
                assert(t.last() == p);
            }
            if !contains_pair(&self.temp_blocking_pairs, p) {
                res.push(p);
                assert(res@ =~= head + pairs_without(
                    self.blocking_pairs@.take(j + 1),
                    self.temp_blocking_pairs@,
                ));
            }
            j += 1;
        }
        assert(self.blocking_pairs@.take(j as int) =~= self.blocking_pairs@);
        res
    }

    /// Lays the fields out so that each shown attacker faces its blocker
    /// (see [`battle_layout`]).
    pub fn update_battle_layout(&mut self)
        ensures
            (final(self).opponent_field_seq(), final(self).player_field_seq()) == battle_layout(
                old(self).opponent_field_seq(),
                old(self).player_field_seq(),
                old(self).shown_blocks(),
            ),
            final(self).player_hand_seq() == old(self).player_hand_seq(),
            final(self).opponent_hand_seq() == old(self).opponent_hand_seq(),
            final(self).committed_attackers() == old(self).committed_attackers(),
            final(self).committed_blocks() == old(self).committed_blocks(),
            final(self).chosen_attackers() == old(self).chosen_attackers(),
            final(self).chosen_blocks() == old(self).chosen_blocks(),
    {
        let pairs = self.blocking_pairs();
        let ghost opp0 = self.opponent_field@;
        let ghost plr0 = self.player_field@;
        let mut keyed: Vec<(u64, (ObjectId, ObjectId))> = Vec::new();
        let mut i: usize = 0;
        while i < pairs.len()
            invariant
                i <= pairs.len(),
                self.player_hand_seq() == old(self).player_hand_seq(),
                self.opponent_hand_seq() == old(self).opponent_hand_seq(),
                self.committed_attackers() == old(self).committed_attackers(),
                self.committed_blocks() == old(self).committed_blocks(),
                self.chosen_attackers() == old(self).chosen_attackers(),
                self.chosen_blocks() == old(self).chosen_blocks(),
                self.opponent_field@ == opp0,
                self.player_field@ == plr0,
                keyed@ == keyed_pairs(opp0, plr0, pairs@).take(i as int),
            decreases pairs.len() - i,
        {
            let blocker = pairs[i].1;
            let key: u64 = match slot_position(&self.opponent_field, blocker) {
                Some(k) => k as u64,
                None => match slot_position(&self.player_field, blocker) {
                    Some(k) => k as u64,
                    None => 0,
                },
            };
            keyed.push((key, pairs[i]));
            i += 1;
            assert(keyed@ =~= keyed_pairs(opp0, plr0, pairs@).take(i as int));
        }
        assert(keyed_pairs(opp0, plr0, pairs@).take(i as int) =~= keyed_pairs(opp0, plr0, pairs@));
        let sorted = sort_by_keys(&keyed);
        let ghost order = unkeyed(sorted@);
        let mut j: usize = 0;
        assert(order.subrange(0, order.len() as int) =~= order);
        while j < sorted.len()
            invariant
                j <= sorted.len(),
                self.player_hand_seq() == old(self).player_hand_seq(),
                self.opponent_hand_seq() == old(self).opponent_hand_seq(),
                self.committed_attackers() == old(self).committed_attackers(),
                self.committed_blocks() == old(self).committed_blocks(),
                self.chosen_attackers() == old(self).chosen_attackers(),
                self.chosen_blocks() == old(self).chosen_blocks(),
                order == unkeyed(sorted@),
                layout_all(opp0, plr0, order) == layout_all(
                    self.opponent_field@,
                    self.player_field@,
                    order.subrange(j as int, order.len() as int),
                ),
            decreases sorted.len() - j,
        {
            let (attacker, blocker) = sorted[j].1;
            let ghost o1 = self.opponent_field@;
            let ghost p1 = self.player_field@;
            proof {
                let rest = order.subrange(j as int, order.len() as int);
                assert(rest[0] == (attacker, blocker));
                assert(rest.drop_first() =~= order.subrange(j + 1, order.len() as int));
                lemma_slot_of(o1, attacker);
            }
            let ap = slot_position(&self.opponent_field, attacker);
            let bp = slot_position(&self.player_field, blocker);
            shift_exec(&mut self.opponent_field, ap, bp);
            let ap2 = slot_position(&self.player_field, attacker);
            let bp2 = slot_position(&self.opponent_field, blocker);
            proof {
                lemma_slot_of(p1, attacker);
            }
            shift_exec(&mut self.player_field, ap2, bp2);
            j += 1;
        }
        assert(order.subrange(j as int, order.len() as int) =~= Seq::<(ObjectId, ObjectId)>::empty());
    }

    /// Adds `card` to the prepared attackers, or takes it out if it is
    /// there; then lays the fields out again.
    pub fn toggle_attacker(&mut self, card: ObjectId)
        requires
            old(self).wf(),
        ensures
            final(self).wf(),
            final(self).model() == attacker_toggled(old(self).model(), card),
            final(self).chosen_attackers() == toggled(old(self).chosen_attackers(), card),
            (final(self).opponent_field_seq(), final(self).player_field_seq()) == battle_layout(
                old(self).opponent_field_seq(),
                old(self).player_field_seq(),
                old(self).shown_blocks(),
            ),
            final(self).chosen_blocks() == old(self).chosen_blocks(),
            final(self).committed_attackers() == old(self).committed_attackers(),
            final(self).committed_blocks() == old(self).committed_blocks(),
            final(self).player_hand_seq() == old(self).player_hand_seq(),
            final(self).opponent_hand_seq() == old(self).opponent_hand_seq(),
    {
        let ghost before = self.temp_attackers@;
        if contains_id(&self.temp_attackers, card) {
            self.temp_attackers = retain_not(&self.temp_attackers, card);
            proof {
                lemma_remove_all_no_duplicates(before, card);
            }
        } else {
            self.temp_attackers.push(card);
            assert(no_duplicates(self.temp_attackers@)) by {
                assert forall|i: int, j: int| 0 <= i < j < self.temp_attackers@.len() implies self.temp_attackers@[i]
                    != self.temp_attackers@[j] by {
                    if j == before.len() {
                        assert(before.contains(before[i]));
                    }
                }
            }
        }
        self.update_battle_layout();
    }

    /// Records that `blocker` blocks `attacker` (when `attacker` is a
    /// recorded attacker), replacing any prepared block by either card; with
    /// no attacker, only cancels the blocker's prepared block. Then lays the
    /// fields out again.
    pub fn toggle_blocker(&mut self, blocker: ObjectId, attacker: Option<ObjectId>)
        requires
            old(self).wf(),
        ensures
            final(self).wf(),
            final(self).model() == blocker_toggled(old(self).model(), blocker, attacker),
            final(self).chosen_blocks() == match attacker {
                Some(a) => if old(self).committed_attackers().contains(a) {
                    drop_attacker(drop_blocker(old(self).chosen_blocks(), blocker), a).push(
                        (a, blocker),
                    )
                } else {
                    drop_blocker(old(self).chosen_blocks(), blocker)
                },
                None => drop_blocker(old(self).chosen_blocks(), blocker),
            },
            final(self).chosen_attackers() == old(self).chosen_attackers(),
            final(self).committed_attackers() == old(self).committed_attackers(),
            final(self).committed_blocks() == old(self).committed_blocks(),
            final(self).player_hand_seq() == old(self).player_hand_seq(),
            final(self).opponent_hand_seq() == old(self).opponent_hand_seq(),
    {
        let ghost b0 = self.temp_blocking_pairs@;
        self.temp_blocking_pairs = retain_blocker_not(&self.temp_blocking_pairs, blocker);
        proof {
            lemma_drop_blocker_matching(b0, blocker);
        }
        match attacker {
            Some(a) => {
                if contains_id(&self.attackers, a) {
                    let ghost b1 = self.temp_blocking_pairs@;
                    self.temp_blocking_pairs = retain_attacker_not(&self.temp_blocking_pairs, a);
                    proof {
                        lemma_drop_attacker_matching(b1, a);
                        lemma_drop_blocker_excludes(b0, blocker);
                        lemma_drop_attacker_keeps_excluded(b1, a, blocker);
                        lemma_drop_attacker_excludes(b1, a);
                    }
                    let ghost b2 = self.temp_blocking_pairs@;
                    self.temp_blocking_pairs.push((a, blocker));
                    proof {
                        let t = self.temp_blocking_pairs@;
                        assert forall|i: int, j: int| 0 <= i < j < t.len() implies (#[trigger] t[i]).0
                            != (#[trigger] t[j]).0 && t[i].1 != t[j].1 by {
                            if j == b2.len() {
                                assert(t[i] == b2[i]);
                            } else {
                                assert(t[i] == b2[i] && t[j] == b2[j]);
                            }
                        }
                    }
                }
            },
            None => {},
        }
        self.update_battle_layout();
    }

    /// Drops the prepared attackers and blocks, then lays the fields out
    /// again.
    pub fn clear_battle(&mut self)
        ensures
            final(self).wf(),
            final(self).model() == battle_cleared(old(self).model()),
            final(self).chosen_attackers().len() == 0,
            final(self).chosen_blocks().len() == 0,
            (final(self).opponent_field_seq(), final(self).player_field_seq()) == battle_layout(
                old(self).opponent_field_seq(),
                old(self).player_field_seq(),
                old(self).committed_blocks(),
            ),
            final(self).committed_attackers() == old(self).committed_attackers(),
            final(self).committed_blocks() == old(self).committed_blocks(),
            final(self).player_hand_seq() == old(self).player_hand_seq(),
            final(self).opponent_hand_seq() == old(self).opponent_hand_seq(),
    {
        self.temp_attackers.clear();
        self.temp_blocking_pairs.clear();
        proof {
            lemma_pairs_without_empty(self.blocking_pairs@);
            assert(self.shown_blocks() =~= self.blocking_pairs@);
        }
        self.update_battle_layout();
    }
}

fn retain_not(s: &Vec<ObjectId>, x: ObjectId) -> (res: Vec<ObjectId>)
    ensures
        res@ == remove_all(s@, x),
{
    let mut res: Vec<ObjectId> = Vec::new();
    let mut i: usize = 0;
    while i < s.len()
        invariant
            i <= s.len(),
            res@ == remove_all(s@.take(i as int), x),
        decreases s.len() - i,
    {
        proof {
            let t = s@.take(i + 1);
            assert(t.drop_last() =~= s@.take(i as int));
        }
        if s[i] != x {
            res.push(s[i]);
        }
        i += 1;
    }
    assert(s@.take(i as int) =~= s@);
    res
}

fn retain_blocker_not(s: &Vec<(ObjectId, ObjectId)>, b: ObjectId) -> (res: Vec<(ObjectId, ObjectId)>)
    ensures
        res@ == drop_blocker(s@, b),
{
    let mut res: Vec<(ObjectId, ObjectId)> = Vec::new();
    let mut i: usize = 0;
    while i < s.len()
        invariant
            i <= s.len(),
            res@ == drop_blocker(s@.take(i as int), b),
        decreases s.len() - i,
    {
        proof {
            let t = s@.take(i + 1);
            assert(t.drop_last() =~= s@.take(i as int));
        }
        if s[i].1 != b {
            res.push(s[i]);
        }
        i += 1;
    }
    assert(s@.take(i as int) =~= s@);
    res
}

fn retain_attacker_not(s: &Vec<(ObjectId, ObjectId)>, a: ObjectId) -> (res: Vec<(ObjectId, ObjectId)>)
    ensures
        res@ == drop_attacker(s@, a),
{
    let mut res: Vec<(ObjectId, ObjectId)> = Vec::new();
    let mut i: usize = 0;
    while i < s.len()
        invariant
            i <= s.len(),
            res@ == drop_attacker(s@.take(i as int), a),
        decreases s.len() - i,
    {
        proof {
            let t = s@.take(i + 1);
            assert(t.drop_last() =~= s@.take(i as int));
        }
        if s[i].0 != a {
            res.push(s[i]);
        }
        i += 1;
    }
    assert(s@.take(i as int) =~= s@);
    res
}

// ---------------------------------------------------------------------------
// Lemmas about the prepared attackers and blocks.
/// Every item of `remove_all(s, x)` is an item of `s` other than `x`, and
/// they come in the order of `s`.
proof fn lemma_remove_all_sub(s: Seq<ObjectId>, x: ObjectId)
    ensures
        forall|i: int| 0 <= i < remove_all(s, x).len() ==> (#[trigger] remove_all(s, x)[i]) != x
            && s.contains(remove_all(s, x)[i]),
        !remove_all(s, x).contains(x),
    decreases s.len(),
{
    if s.len() > 0 {
        lemma_remove_all_sub(s.drop_last(), x);
        let r = remove_all(s.drop_last(), x);
        assert forall|i: int| 0 <= i < remove_all(s, x).len() implies (#[trigger] remove_all(s, x)[i]) != x
            && s.contains(remove_all(s, x)[i]) by {
            if i < r.len() {
                assert(remove_all(s, x)[i] == r[i]);
                let k = choose|k: int| 0 <= k < s.drop_last().len() && s.drop_last()[k] == r[i];
                assert(s[k] == r[i]);
            } else {
                assert(s[s.len() - 1] == s.last());
            }
        }
    }
}

proof fn lemma_remove_all_no_duplicates(s: Seq<ObjectId>, x: ObjectId)
    requires
        no_duplicates(s),
    ensures
        no_duplicates(remove_all(s, x)),
    decreases s.len(),
{
    if s.len() > 0 {
        let d = s.drop_last();
        assert(no_duplicates(d)) by {
            assert forall|i: int, j: int| 0 <= i < j < d.len() implies d[i] != d[j] by {
                assert(d[i] == s[i] && d[j] == s[j]);
            }
        }
        lemma_remove_all_no_duplicates(d, x);
        lemma_remove_all_sub(d, x);
        let r = remove_all(d, x);
        if s.last() != x {
            let t = r.push(s.last());
            assert forall|i: int, j: int| 0 <= i < j < t.len() implies t[i] != t[j] by {
                if j == r.len() {
                    assert(t[i] == r[i]);
                    let k = choose|k: int| 0 <= k < d.len() && d[k] == r[i];
                    assert(s[k] == d[k]);
                    assert(s[s.len() - 1] == s.last());
                }
            }
        }
    }
}

proof fn lemma_drop_blocker_sub(s: Seq<(ObjectId, ObjectId)>, b: ObjectId)
    ensures
        forall|i: int| 0 <= i < drop_blocker(s, b).len() ==> #[trigger] s.contains(drop_blocker(s, b)[i]),
        drop_blocker(s, b).len() <= s.len(),
    decreases s.len(),
{
    if s.len() > 0 {
        lemma_drop_blocker_sub(s.drop_last(), b);
        let r = drop_blocker(s.drop_last(), b);
        assert forall|i: int| 0 <= i < drop_blocker(s, b).len() implies #[trigger] s.contains(drop_blocker(s, b)[i]) by {
            if i < r.len() {
                assert(drop_blocker(s, b)[i] == r[i]);
                assert(s.drop_last().contains(r[i]));
                let k = choose|k: int| 0 <= k < s.drop_last().len() && s.drop_last()[k] == r[i];
                assert(s[k] == r[i]);
            } else {
                assert(s[s.len() - 1] == s.last());
            }
        }
    }
}

/// Keeping the pairs with some property keeps a matching a matching, as
/// long as the kept pairs come in the original order.
proof fn lemma_drop_blocker_matching(s: Seq<(ObjectId, ObjectId)>, b: ObjectId)
    requires
        is_matching(s),
    ensures
        is_matching(drop_blocker(s, b)),
    decreases s.len(),
{
    if s.len() > 0 {
        let d = s.drop_last();
        assert(is_matching(d)) by {
            assert forall|i: int, j: int| 0 <= i < j < d.len() implies (#[trigger] d[i]).0 != (#[trigger] d[j]).0
                && d[i].1 != d[j].1 by {
                assert(d[i] == s[i] && d[j] == s[j]);
            }
        }
        lemma_drop_blocker_matching(d, b);
        lemma_drop_blocker_sub(d, b);
        let r = drop_blocker(d, b);
        if s.last().1 != b {
            let t = r.push(s.last());
            assert forall|i: int, j: int| 0 <= i < j < t.len() implies (#[trigger] t[i]).0 != (#[trigger] t[j]).0
                && t[i].1 != t[j].1 by {
                if j == r.len() {
                    assert(t[i] == r[i]);
                    assert(d.contains(r[i]));
                    let k = choose|k: int| 0 <= k < d.len() && d[k] == r[i];
                    assert(s[k] == d[k]);
                    assert(s[s.len() - 1] == s.last());
                } else {
                    assert(t[i] == r[i] && t[j] == r[j]);
                }
            }
        }
    }
}

proof fn lemma_drop_attacker_sub(s: Seq<(ObjectId, ObjectId)>, a: ObjectId)
    ensures
        forall|i: int| 0 <= i < drop_attacker(s, a).len() ==> #[trigger] s.contains(drop_attacker(s, a)[i]),
    decreases s.len(),
{
    if s.len() > 0 {
        lemma_drop_attacker_sub(s.drop_last(), a);
        let r = drop_attacker(s.drop_last(), a);
        assert forall|i: int| 0 <= i < drop_attacker(s, a).len() implies #[trigger] s.contains(drop_attacker(s, a)[i]) by {
            if i < r.len() {
                assert(drop_attacker(s, a)[i] == r[i]);
                assert(s.drop_last().contains(r[i]));
                let k = choose|k: int| 0 <= k < s.drop_last().len() && s.drop_last()[k] == r[i];
                assert(s[k] == r[i]);
            } else {
                assert(s[s.len() - 1] == s.last());
            }
        }
    }
}

proof fn lemma_drop_attacker_matching(s: Seq<(ObjectId, ObjectId)>, a: ObjectId)
    requires
        is_matching(s),
    ensures
        is_matching(drop_attacker(s, a)),
    decreases s.len(),
{
    if s.len() > 0 {
        let d = s.drop_last();
        assert(is_matching(d)) by {
            assert forall|i: int, j: int| 0 <= i < j < d.len() implies (#[trigger] d[i]).0 != (#[trigger] d[j]).0
                && d[i].1 != d[j].1 by {
                assert(d[i] == s[i] && d[j] == s[j]);
            }
        }
        lemma_drop_attacker_matching(d, a);
        lemma_drop_attacker_sub(d, a);
        let r = drop_attacker(d, a);
        if s.last().0 != a {
            let t = r.push(s.last());
            assert forall|i: int, j: int| 0 <= i < j < t.len() implies (#[trigger] t[i]).0 != (#[trigger] t[j]).0
                && t[i].1 != t[j].1 by {
                if j == r.len() {
                    assert(t[i] == r[i]);
                    assert(d.contains(r[i]));
                    let k = choose|k: int| 0 <= k < d.len() && d[k] == r[i];
                    assert(s[k] == d[k]);
                    assert(s[s.len() - 1] == s.last());
                } else {
                    assert(t[i] == r[i] && t[j] == r[j]);
                }
            }
        }
    }
}

proof fn lemma_drop_blocker_excludes(s: Seq<(ObjectId, ObjectId)>, b: ObjectId)
    ensures
        forall|i: int| 0 <= i < drop_blocker(s, b).len() ==> (#[trigger] drop_blocker(s, b)[i]).1 != b,
    decreases s.len(),
{
    if s.len() > 0 {
        lemma_drop_blocker_excludes(s.drop_last(), b);
        let r = drop_blocker(s.drop_last(), b);
        assert forall|i: int| 0 <= i < drop_blocker(s, b).len() implies (#[trigger] drop_blocker(s, b)[i]).1 != b by {
            if i < r.len() {
                assert(drop_blocker(s, b)[i] == r[i]);
            }
        }
    }
}

proof fn lemma_drop_attacker_excludes(s: Seq<(ObjectId, ObjectId)>, a: ObjectId)
    ensures
        forall|i: int| 0 <= i < drop_attacker(s, a).len() ==> (#[trigger] drop_attacker(s, a)[i]).0 != a,
    decreases s.len(),
{
    if s.len() > 0 {
        lemma_drop_attacker_excludes(s.drop_last(), a);
        let r = drop_attacker(s.drop_last(), a);
        assert forall|i: int| 0 <= i < drop_attacker(s, a).len() implies (#[trigger] drop_attacker(s, a)[i]).0 != a by {
            if i < r.len() {
                assert(drop_attacker(s, a)[i] == r[i]);
            }
        }
    }
}

proof fn lemma_drop_attacker_keeps_excluded(s: Seq<(ObjectId, ObjectId)>, a: ObjectId, b: ObjectId)
    requires
        forall|i: int| 0 <= i < s.len() ==> (#[trigger] s[i]).1 != b,
    ensures
        forall|i: int| 0 <= i < drop_attacker(s, a).len() ==> (#[trigger] drop_attacker(s, a)[i]).1 != b,
{
    lemma_drop_attacker_sub(s, a);
    assert forall|i: int| 0 <= i < drop_attacker(s, a).len() implies (#[trigger] drop_attacker(s, a)[i]).1 != b by {
        assert(s.contains(drop_attacker(s, a)[i]));
    }
}

proof fn lemma_drop_blocker_keeps(s: Seq<(ObjectId, ObjectId)>, b: ObjectId, p: (ObjectId, ObjectId))
    requires
        s.contains(p),
        p.1 != b,
    ensures
        drop_blocker(s, b).contains(p),
    decreases s.len(),
{
    let d = s.drop_last();
    if s.last() == p {
        assert(drop_blocker(s, b) == drop_blocker(d, b).push(p));
        assert(drop_blocker(s, b)[drop_blocker(d, b).len() as int] == p);
    } else {
        let k = choose|k: int| 0 <= k < s.len() && s[k] == p;
        assert(k < s.len() - 1);
        assert(d[k] == p);
        lemma_drop_blocker_keeps(d, b, p);
        let r = drop_blocker(d, b);
        let j = choose|j: int| 0 <= j < r.len() && r[j] == p;
        if s.last().1 != b {
            assert(drop_blocker(s, b)[j] == p);
        }
    }
}

proof fn lemma_drop_attacker_keeps(s: Seq<(ObjectId, ObjectId)>, a: ObjectId, p: (ObjectId, ObjectId))
    requires
        s.contains(p),
        p.0 != a,
    ensures
        drop_attacker(s, a).contains(p),
    decreases s.len(),
{
    let d = s.drop_last();
    if s.last() == p {
        assert(drop_attacker(s, a) == drop_attacker(d, a).push(p));
        assert(drop_attacker(s, a)[drop_attacker(d, a).len() as int] == p);
    } else {
        let k = choose|k: int| 0 <= k < s.len() && s[k] == p;
        assert(k < s.len() - 1);
        assert(d[k] == p);
        lemma_drop_attacker_keeps(d, a, p);
        let r = drop_attacker(d, a);
        let j = choose|j: int| 0 <= j < r.len() && r[j] == p;
        if s.last().0 != a {
            assert(drop_attacker(s, a)[j] == p);
        }
    }
}

/// Setting a blocker keeps the prepared blocks a matching (no attacker and
/// no blocker twice). Afterwards the blocker occurs only in the new block
/// `(a, blocker)`, which is there exactly when it was asked to block a
/// recorded attacker `a`; every other prepared block that involves neither
/// the blocker nor that attacker is kept.
pub proof fn lemma_blocks_toggled(m: BoardModel, blocker: ObjectId, attacker: Option<ObjectId>)
    requires
        is_matching(m.chosen_blocks),
    ensures
        is_matching(blocks_toggled(m, blocker, attacker)),
        forall|i: int|
            0 <= i < blocks_toggled(m, blocker, attacker).len() && (#[trigger] blocks_toggled(
                m,
                blocker,
                attacker,
            )[i]).1 == blocker ==> (attacker == Some(blocks_toggled(m, blocker, attacker)[i].0)
                && m.committed_attackers.contains(blocks_toggled(m, blocker, attacker)[i].0)),
        attacker is Some && m.committed_attackers.contains(attacker->0) ==> blocks_toggled(
            m,
            blocker,
            attacker,
        ).contains((attacker->0, blocker)),
        forall|p: (ObjectId, ObjectId)|
            m.chosen_blocks.contains(p) && p.1 != blocker && !(attacker == Some(p.0)
                && m.committed_attackers.contains(p.0)) ==> #[trigger] blocks_toggled(
                m,
                blocker,
                attacker,
            ).contains(p),
{
    let s = m.chosen_blocks;
    let b1 = drop_blocker(s, blocker);
    lemma_drop_blocker_matching(s, blocker);
    lemma_drop_blocker_excludes(s, blocker);
    let r = blocks_toggled(m, blocker, attacker);
    assert forall|p: (ObjectId, ObjectId)|
        s.contains(p) && p.1 != blocker && !(attacker == Some(p.0) && m.committed_attackers.contains(p.0))
            implies #[trigger] r.contains(p) by {
        lemma_drop_blocker_keeps(s, blocker, p);
        match attacker {
            Some(a) => if m.committed_attackers.contains(a) {
                lemma_drop_attacker_keeps(b1, a, p);
                let b2 = drop_attacker(b1, a);
                let j = choose|j: int| 0 <= j < b2.len() && b2[j] == p;
                assert(r[j] == p);
            },
            None => {},
        }
    }
    match attacker {
        Some(a) => if m.committed_attackers.contains(a) {
            let b2 = drop_attacker(b1, a);
            lemma_drop_attacker_matching(b1, a);
            lemma_drop_attacker_keeps_excluded(b1, a, blocker);
            lemma_drop_attacker_excludes(b1, a);
            assert forall|i: int, j: int| 0 <= i < j < r.len() implies (#[trigger] r[i]).0 != (#[trigger] r[j]).0
                && r[i].1 != r[j].1 by {
                if j == b2.len() {
                    assert(r[i] == b2[i]);
                } else {
                    assert(r[i] == b2[i] && r[j] == b2[j]);
                }
            }
            assert forall|i: int| 0 <= i < r.len() && (#[trigger] r[i]).1 == blocker implies (attacker == Some(
                r[i].0,
            ) && m.committed_attackers.contains(r[i].0)) by {
                if i < b2.len() {
                    assert(r[i] == b2[i]);
                }
            }
            assert(r[b2.len() as int] == (a, blocker));
        },
        None => {},
    }
}

proof fn lemma_pairs_without_empty(s: Seq<(ObjectId, ObjectId)>)
    ensures
        pairs_without(s, Seq::empty()) == s,
    decreases s.len(),
{
    if s.len() > 0 {
        lemma_pairs_without_empty(s.drop_last());
        assert(s.drop_last().push(s.last()) =~= s);
    }
}


// ---------------------------------------------------------------------------
// Taking in a new game state.
/// The slots of a field's cards, in the engine's order.
pub open spec fn field_slots(cards: Seq<FieldCard>) -> Seq<Slot> {
    Seq::new(cards.len(), |i: int| (cards[i].id, cards[i].state))
}

/// Where a card goes when a field is drawn again: at its former position,
/// or after every card that was there.
pub open spec fn order_key(before: Seq<ObjectId>, id: ObjectId) -> u64 {
    match index_of(before, id) {
        Some(i) => i as u64,
        None => before.len() as u64,
    }
}

pub open spec fn keyed_slots(before: Seq<ObjectId>, slots: Seq<Slot>) -> Seq<(u64, Slot)> {
    Seq::new(slots.len(), |i: int| (order_key(before, slots[i].0), slots[i]))
}

pub open spec fn unkeyed_slots(s: Seq<(u64, Slot)>) -> Seq<Slot> {
    Seq::new(s.len(), |i: int| s[i].1)
}

/// The field `cards` as drawn after the field `before`: the cards that
/// were there keep their former order, the new ones follow in the
/// engine's order.
pub open spec fn reordered(before: Seq<Slot>, cards: Seq<FieldCard>) -> Seq<Slot> {
    unkeyed_slots(sort_keyed(keyed_slots(field_ids(before), field_slots(cards))))
}

/// The attackers on one field, in order.
pub open spec fn field_attackers(f: Seq<FieldCard>) -> Seq<ObjectId>
    decreases f.len(),
{
    if f.len() == 0 {
        Seq::empty()
    } else {
        let rest = field_attackers(f.drop_last());
        if f.last().battle == Some(FieldBattleState::Attacking) {
            rest.push(f.last().id)
        } else {
            rest
        }
    }
}

/// The attackers on every field, seat by seat.
pub open spec fn all_attackers(ps: Seq<PlayerView>) -> Seq<ObjectId>
    decreases ps.len(),
{
    if ps.len() == 0 {
        Seq::empty()
    } else {
        all_attackers(ps.drop_last()) + field_attackers(ps.last().field@)
    }
}

/// The blocks on one field, as (attacker, blocker), in order.
pub open spec fn field_blocks(f: Seq<FieldCard>) -> Seq<(ObjectId, ObjectId)>
    decreases f.len(),
{
    if f.len() == 0 {
        Seq::empty()
    } else {
        let rest = field_blocks(f.drop_last());
        match f.last().battle {
            Some(FieldBattleState::Blocking { attacker }) => rest.push((attacker, f.last().id)),
            _ => rest,
        }
    }
}

/// The blocks on every field, seat by seat.
pub open spec fn all_blocks(ps: Seq<PlayerView>) -> Seq<(ObjectId, ObjectId)>
    decreases ps.len(),
{
    if ps.len() == 0 {
        Seq::empty()
    } else {
        all_blocks(ps.drop_last()) + field_blocks(ps.last().field@)
    }
}

/// Whether a card is on the field `f`.
pub open spec fn on_field(f: Seq<Slot>) -> spec_fn(ObjectId) -> bool {
    |a: ObjectId| slot_of(f, a) is Some
}

/// Whether a block has its attacker on `opp` and its blocker on `plr`.
pub open spec fn facing(opp: Seq<Slot>, plr: Seq<Slot>) -> spec_fn((ObjectId, ObjectId)) -> bool {
    |p: (ObjectId, ObjectId)| slot_of(opp, p.0) is Some && slot_of(plr, p.1) is Some
}

proof fn lemma_filter_from<A>(s: Seq<A>, p: spec_fn(A) -> bool)
    ensures
        forall|i: int| 0 <= i < s.filter(p).len() ==> s.contains(#[trigger] s.filter(p)[i]),
    decreases s.len(),
{
    reveal(Seq::filter);
    if s.len() > 0 {
        let d = s.drop_last();
        lemma_filter_from(d, p);
        let r = d.filter(p);
        assert forall|i: int| 0 <= i < s.filter(p).len() implies s.contains(#[trigger] s.filter(p)[i]) by {
            if i < r.len() {
                assert(s.filter(p)[i] == r[i]);
                assert(d.contains(r[i]));
                let k = choose|k: int| 0 <= k < d.len() && d[k] == r[i];
                assert(s[k] == d[k]);
            } else {
                assert(s[s.len() - 1] == s.last());
            }
        }
    }
}

proof fn lemma_filter_distinct(s: Seq<ObjectId>, p: spec_fn(ObjectId) -> bool)
    requires
        no_duplicates(s),
    ensures
        no_duplicates(s.filter(p)),
    decreases s.len(),
{
    reveal(Seq::filter);
    if s.len() > 0 {
        let d = s.drop_last();
        assert(no_duplicates(d)) by {
            assert forall|i: int, j: int| 0 <= i < j < d.len() implies d[i] != d[j] by {
                assert(d[i] == s[i] && d[j] == s[j]);
            }
        }
        lemma_filter_distinct(d, p);
        lemma_filter_from(d, p);
        let r = d.filter(p);
        if p(s.last()) {
            let t = r.push(s.last());
            assert forall|i: int, j: int| 0 <= i < j < t.len() implies t[i] != t[j] by {
                if j == r.len() {
                    assert(t[i] == r[i]);
                    assert(d.contains(r[i]));
                    let k = choose|k: int| 0 <= k < d.len() && d[k] == r[i];
                    assert(s[k] == d[k]);
                    assert(s[s.len() - 1] == s.last());
                } else {
                    assert(t[i] == r[i] && t[j] == r[j]);
                }
            }
        }
    }
}

proof fn lemma_filter_matching(s: Seq<(ObjectId, ObjectId)>, p: spec_fn((ObjectId, ObjectId)) -> bool)
    requires
        is_matching(s),
    ensures
        is_matching(s.filter(p)),
    decreases s.len(),
{
    reveal(Seq::filter);
    if s.len() > 0 {
        let d = s.drop_last();
        assert(is_matching(d)) by {
            assert forall|i: int, j: int| 0 <= i < j < d.len() implies (#[trigger] d[i]).0 != (#[trigger] d[j]).0
                && d[i].1 != d[j].1 by {
                assert(d[i] == s[i] && d[j] == s[j]);
            }
        }
        lemma_filter_matching(d, p);
        lemma_filter_from(d, p);
        let r = d.filter(p);
        if p(s.last()) {
            let t = r.push(s.last());
            assert forall|i: int, j: int| 0 <= i < j < t.len() implies (#[trigger] t[i]).0 != (#[trigger] t[j]).0
                && t[i].1 != t[j].1 by {
                if j == r.len() {
                    assert(t[i] == r[i]);
                    assert(d.contains(r[i]));
                    let k = choose|k: int| 0 <= k < d.len() && d[k] == r[i];
                    assert(s[k] == d[k]);
                    assert(s[s.len() - 1] == s.last());
                } else {
                    assert(t[i] == r[i] && t[j] == r[j]);
                }
            }
        }
    }
}

fn keep_on_field_exec(s: &Vec<ObjectId>, f: &Vec<(ObjectId, FieldState)>) -> (res: Vec<ObjectId>)
    ensures
        res@ == s@.filter(on_field(f@)),
{
    let mut res: Vec<ObjectId> = Vec::new();
    let mut i: usize = 0;
    while i < s.len()
        invariant
            i <= s.len(),
            res@ == s@.take(i as int).filter(on_field(f@)),
        decreases s.len() - i,
    {
        proof {
            reveal(Seq::filter);
            let t = s@.take(i + 1);
            assert(t.drop_last() =~= s@.take(i as int));
            assert(t.last() == s@[i as int]);
        }
        if slot_position(f, s[i]).is_some() {
            res.push(s[i]);
        }
        i += 1;
    }
    assert(s@.take(i as int) =~= s@);
    res
}

fn keep_facing_exec(
    s: &Vec<(ObjectId, ObjectId)>,
    opp: &Vec<(ObjectId, FieldState)>,
    plr: &Vec<(ObjectId, FieldState)>,
) -> (res: Vec<(ObjectId, ObjectId)>)
    ensures
        res@ == s@.filter(facing(opp@, plr@)),
{
    let mut res: Vec<(ObjectId, ObjectId)> = Vec::new();
    let mut i: usize = 0;
    while i < s.len()
        invariant
            i <= s.len(),
            res@ == s@.take(i as int).filter(facing(opp@, plr@)),
        decreases s.len() - i,
    {
        proof {
            reveal(Seq::filter);
            let t = s@.take(i + 1);
            assert(t.drop_last() =~= s@.take(i as int));
            assert(t.last() == s@[i as int]);
        }
        let (a, b) = s[i];
        if slot_position(opp, a).is_some() && slot_position(plr, b).is_some() {
            res.push((a, b));
        }
        i += 1;
    }
    assert(s@.take(i as int) =~= s@);
    res
}

/// The field `cards` laid out after `before` (see [`reordered`]).
fn reorder_field(before: &Vec<(ObjectId, FieldState)>, cards: &Vec<FieldCard>) -> (res: Vec<
    (ObjectId, FieldState),
>)
    ensures
        res@ == reordered(before@, cards@),
{
    let mut ids: Vec<ObjectId> = Vec::new();
    let mut i: usize = 0;
    while i < before.len()
        invariant
            i <= before.len(),
            ids@ == field_ids(before@).take(i as int),
        decreases before.len() - i,
    {
        ids.push(before[i].0);
        i += 1;
        assert(ids@ =~= field_ids(before@).take(i as int));
    }
    assert(field_ids(before@).take(i as int) =~= field_ids(before@));
    let ghost slots = field_slots(cards@);
    let mut keyed: Vec<(u64, (ObjectId, FieldState))> = Vec::new();
    let mut j: usize = 0;
    while j < cards.len()
        invariant
            j <= cards.len(),
            ids@ == field_ids(before@),
            slots == field_slots(cards@),
            keyed@ == keyed_slots(ids@, slots).take(j as int),
        decreases cards.len() - j,
    {
        let id = cards[j].id;
        let key: u64 = match position(&ids, id) {
            Some(k) => {
                proof {
                    lemma_index_of(ids@, id);
                }
                k as u64
            },
            None => ids.len() as u64,
        };
        keyed.push((key, (id, cards[j].state)));
        j += 1;
        assert(keyed@ =~= keyed_slots(ids@, slots).take(j as int));
    }
    assert(keyed_slots(ids@, slots).take(j as int) =~= keyed_slots(ids@, slots));
    let sorted = sort_by_keys(&keyed);
    let mut res: Vec<(ObjectId, FieldState)> = Vec::new();
    let mut k: usize = 0;
    while k < sorted.len()
        invariant
            k <= sorted.len(),
            res@ == unkeyed_slots(sorted@).take(k as int),
        decreases sorted.len() - k,
    {
        res.push(sorted[k].1);
        k += 1;
        assert(res@ =~= unkeyed_slots(sorted@).take(k as int));
    }
    assert(unkeyed_slots(sorted@).take(k as int) =~= unkeyed_slots(sorted@));
    res
}

fn collect_attackers(ps: &Vec<PlayerView>) -> (res: Vec<ObjectId>)
    ensures
        res@ == all_attackers(ps@),
{
    let mut res: Vec<ObjectId> = Vec::new();
    let mut i: usize = 0;
    while i < ps.len()
        invariant
            i <= ps.len(),
            res@ == all_attackers(ps@.take(i as int)),
        decreases ps.len() - i,
    {
        let field = &ps[i].field;
        let ghost head = res@;
        let mut j: usize = 0;
        while j < field.len()
            invariant
                j <= field.len(),
                res@ == head + field_attackers(field@.take(j as int)),
            decreases field.len() - j,
        {
            proof {
                let t = field@.take(j + 1);
                assert(t.drop_last() =~= field@.take(j as int));
                assert(t.last() == field@[j as int]);
            }
            if field[j].battle == Some(FieldBattleState::Attacking) {
                res.push(field[j].id);
                assert(res@ =~= head + field_attackers(field@.take(j + 1)));
            } else {
                assert(res@ =~= head + field_attackers(field@.take(j + 1)));
            }
            j += 1;
        }
        proof {
            assert(field@.take(j as int) =~= field@);
            let t = ps@.take(i + 1);
            assert(t.drop_last() =~= ps@.take(i as int));
            assert(t.last() == ps@[i as int]);
        }
        i += 1;
    }
    assert(ps@.take(i as int) =~= ps@);
    res
}

fn collect_blocks(ps: &Vec<PlayerView>) -> (res: Vec<(ObjectId, ObjectId)>)
    ensures
        res@ == all_blocks(ps@),
{
    let mut res: Vec<(ObjectId, ObjectId)> = Vec::new();
    let mut i: usize = 0;
    while i < ps.len()
        invariant
            i <= ps.len(),
            res@ == all_blocks(ps@.take(i as int)),
        decreases ps.len() - i,
    {
        let field = &ps[i].field;
        let ghost head = res@;
        let mut j: usize = 0;
        while j < field.len()
            invariant
                j <= field.len(),
                res@ == head + field_blocks(field@.take(j as int)),
            decreases field.len() - j,
        {
            proof {
                let t = field@.take(j + 1);
                assert(t.drop_last() =~= field@.take(j as int));
                assert(t.last() == field@[j as int]);
            }
            match field[j].battle {
                Some(FieldBattleState::Blocking { attacker }) => {
                    res.push((attacker, field[j].id));
                },
                _ => {},
            }
            assert(res@ =~= head + field_blocks(field@.take(j + 1)));
            j += 1;
        }
        proof {
            assert(field@.take(j as int) =~= field@);
            let t = ps@.take(i + 1);
            assert(t.drop_last() =~= ps@.take(i as int));
            assert(t.last() == ps@[i as int]);
        }
        i += 1;
    }
    assert(ps@.take(i as int) =~= ps@);
    res
}

impl Board {
    /// Takes in the game as seat `viewer` sees it: both hands, both fields
    /// (each card keeping its place if it was already there), the attackers
    /// and blocks the engine records, and the prepared attackers and blocks
    /// whose cards are still on the board. Outside a battle the prepared
    /// ones are dropped and the fields laid out again.
    pub fn update(&mut self, view: &GameView, viewer: u8, in_battle: bool)
        requires
            old(self).wf(),
            (viewer as int) < view.players@.len(),
        ensures
            final(self).wf(),
            ({
                let me = view.players@[viewer as int];
                let them = view.players@[next_seat(viewer, view.players@.len())];
                let plr = reordered(old(self).player_field_seq(), me.field@);
                let opp = reordered(old(self).opponent_field_seq(), them.field@);
                &&& final(self).player_hand_seq() == me.hand@
                &&& final(self).opponent_hand_seq() == them.hand@
                &&& final(self).committed_attackers() == all_attackers(view.players@)
                &&& final(self).committed_blocks() == all_blocks(view.players@)
                &&& in_battle ==> {
                    &&& final(self).player_field_seq() == plr
                    &&& final(self).opponent_field_seq() == opp
                    &&& final(self).chosen_attackers() == old(self).chosen_attackers().filter(
                        on_field(plr),
                    )
                    &&& final(self).chosen_blocks() == old(self).chosen_blocks().filter(
                        facing(opp, plr),
                    )
                }
                &&& !in_battle ==> {
                    &&& (final(self).opponent_field_seq(), final(self).player_field_seq())
                        == battle_layout(opp, plr, all_blocks(view.players@))
                    &&& final(self).chosen_attackers().len() == 0
                    &&& final(self).chosen_blocks().len() == 0
                }
            }),
    {
        let me = &view.players[viewer as usize];
        let them = match view.next_player(viewer) {
            Some(p) => p,
            None => me,
        };
        self.player_hand = copy_ids(&me.hand);
        self.player_field = reorder_field(&self.player_field, &me.field);
        self.opponent_hand = copy_ids(&them.hand);
        self.opponent_field = reorder_field(&self.opponent_field, &them.field);
        self.attackers = collect_attackers(&view.players);
        self.blocking_pairs = collect_blocks(&view.players);
        let ghost b0 = self.temp_blocking_pairs@;
        let ghost a0 = self.temp_attackers@;
        self.temp_blocking_pairs = keep_facing_exec(
            &self.temp_blocking_pairs,
            &self.opponent_field,
            &self.player_field,
        );
        self.temp_attackers = keep_on_field_exec(&self.temp_attackers, &self.player_field);
        proof {
            lemma_filter_matching(b0, facing(self.opponent_field@, self.player_field@));
            lemma_filter_distinct(a0, on_field(self.player_field@));
        }
        if !in_battle {
            self.clear_battle();
        }
    }
}


/// `s` with `card` taken out if it is there, else added at the end.
pub open spec fn toggled(s: Seq<ObjectId>, card: ObjectId) -> Seq<ObjectId> {
    if s.contains(card) {
        remove_all(s, card)
    } else {
        s.push(card)
    }
}

proof fn lemma_remove_all_absent(s: Seq<ObjectId>, x: ObjectId)
    requires
        !s.contains(x),
    ensures
        remove_all(s, x) == s,
    decreases s.len(),
{
    if s.len() > 0 {
        let d = s.drop_last();
        assert(!d.contains(x)) by {
            if d.contains(x) {
                let k = choose|k: int| 0 <= k < d.len() && d[k] == x;
                assert(s[k] == x);
            }
        }
        lemma_remove_all_absent(d, x);
        assert(s[s.len() - 1] == s.last());
        assert(d.push(s.last()) =~= s);
    }
}

/// Toggling an attacker that is not prepared, then toggling it again,
/// leaves the prepared attackers as they were; the first toggle prepares it
/// and the second withdraws it.
pub proof fn lemma_toggle_twice(s: Seq<ObjectId>, card: ObjectId)
    requires
        !s.contains(card),
    ensures
        toggled(s, card).contains(card),
        !toggled(toggled(s, card), card).contains(card),
        toggled(toggled(s, card), card) == s,
{
    let t = s.push(card);
    assert(t[s.len() as int] == card);
    assert(t.drop_last() =~= s);
    lemma_remove_all_absent(s, card);
}

/// Laying out a battle only reorders each field: the same cards stay on
/// each side, each as often.
pub proof fn lemma_battle_layout_permutes(opp: Seq<Slot>, plr: Seq<Slot>, pairs: Seq<(ObjectId, ObjectId)>)
    ensures
        battle_layout(opp, plr, pairs).0.to_multiset() == opp.to_multiset(),
        battle_layout(opp, plr, pairs).1.to_multiset() == plr.to_multiset(),
{
    lemma_layout_all_permutes(opp, plr, unkeyed(sort_keyed(keyed_pairs(opp, plr, pairs))));
}

proof fn lemma_unkeyed_sort(k: Seq<(u64, Slot)>)
    ensures
        unkeyed_slots(sort_keyed(k)).to_multiset() == unkeyed_slots(k).to_multiset(),
        sort_keyed(k).len() == k.len(),
    decreases k.len(),
{
    broadcast use vstd::multiset::group_multiset_axioms;

    if k.len() > 0 {
        let d = k.drop_last();
        let x = k.last();
        let r = sort_keyed(d);
        lemma_unkeyed_sort(d);
        crate::stable::lemma_sort_keyed(d);
        let p = crate::stable::first_above(r, x.0);
        crate::stable::lemma_first_above_bounds(r, x.0);
        assert(unkeyed_slots(r.insert(p, x)) =~= unkeyed_slots(r).insert(p, x.1));
        vstd::seq_lib::to_multiset_insert(unkeyed_slots(r), p, x.1);
        assert(unkeyed_slots(k) =~= unkeyed_slots(d).push(x.1));
        vstd::seq_lib::to_multiset_build(unkeyed_slots(d), x.1);
        assert(sort_keyed(k) == r.insert(p, x));
    } else {
        assert(unkeyed_slots(sort_keyed(k)) =~= unkeyed_slots(k));
    }
}

/// Taking in a new field only reorders its cards: the same cards, each as
/// often, with the cards that were already there in their former order and
/// the new ones after them.
pub proof fn lemma_reordered(before: Seq<Slot>, cards: Seq<FieldCard>)
    ensures
        reordered(before, cards).to_multiset() == field_slots(cards).to_multiset(),
        forall|i: int, j: int|
            0 <= i <= j < reordered(before, cards).len() ==> order_key(
                field_ids(before),
                (#[trigger] reordered(before, cards)[i]).0,
            ) <= order_key(field_ids(before), (#[trigger] reordered(before, cards)[j]).0),
{
    let k = keyed_slots(field_ids(before), field_slots(cards));
    lemma_unkeyed_sort(k);
    crate::stable::lemma_sort_keyed(k);
    assert(unkeyed_slots(k) =~= field_slots(cards));
    let r = reordered(before, cards);
    let sk = sort_keyed(k);
    assert forall|i: int, j: int| 0 <= i <= j < r.len() implies order_key(field_ids(before), (#[trigger] r[i]).0)
        <= order_key(field_ids(before), (#[trigger] r[j]).0) by {
        assert(sk[i].0 <= sk[j].0);
        lemma_sorted_key_is_order_key(k, field_ids(before), field_slots(cards), sk[i]);
        lemma_sorted_key_is_order_key(k, field_ids(before), field_slots(cards), sk[j]);
    }
}

proof fn lemma_sorted_key_is_order_key(k: Seq<(u64, Slot)>, ids: Seq<ObjectId>, slots: Seq<Slot>, e: (u64, Slot))
    requires
        k == keyed_slots(ids, slots),
        sort_keyed(k).contains(e),
    ensures
        e.0 == order_key(ids, e.1.0),
{
    crate::stable::lemma_sort_keyed(k);
    vstd::seq_lib::to_multiset_contains(sort_keyed(k), e);
    vstd::seq_lib::to_multiset_contains(k, e);
    let i = choose|i: int| 0 <= i < k.len() && k[i] == e;
}

} // verus!
