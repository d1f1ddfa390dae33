//! The game as the client and the bot see it: the actions a player may
//! take, and a snapshot of the players and cards that the engine reports.
use vstd::prelude::*;
use crate::ids::ObjectId;

verus! {

/// A move a player submits to the engine.
#[derive(Debug, Clone, PartialEq, Eq)]
pub enum Action {
    SelectCard { card: ObjectId },
    FetchCard { card: ObjectId },
    CastCard { card: ObjectId },
    Attack { attackers: Vec<ObjectId> },
    Block { pairs: Vec<(ObjectId, ObjectId)> },
    EndTurn,
    Continue,
    Concede,
}

/// The mathematical content of an [`Action`].
pub enum ActionSpec {
    SelectCard { card: ObjectId },
    FetchCard { card: ObjectId },
    CastCard { card: ObjectId },
    Attack { attackers: Seq<ObjectId> },
    Block { pairs: Seq<(ObjectId, ObjectId)> },
    EndTurn,
    Continue,
    Concede,
}

impl View for Action {
    type V = ActionSpec;

    open spec fn view(&self) -> ActionSpec {
        match self {
            Action::SelectCard { card } => ActionSpec::SelectCard { card: *card },
            Action::FetchCard { card } => ActionSpec::FetchCard { card: *card },
            Action::CastCard { card } => ActionSpec::CastCard { card: *card },
            Action::Attack { attackers } => ActionSpec::Attack { attackers: attackers@ },
            Action::Block { pairs } => ActionSpec::Block { pairs: pairs@ },
            Action::EndTurn => ActionSpec::EndTurn,
            Action::Continue => ActionSpec::Continue,
            Action::Concede => ActionSpec::Concede,
        }
    }
}

/// A copy of `v`.
pub fn copy_ids(v: &Vec<ObjectId>) -> (res: Vec<ObjectId>)
    ensures
        res@ == v@,
{
    let mut res: Vec<ObjectId> = Vec::new();
    let mut i: usize = 0;
    while i < v.len()
        invariant
            i <= v.len(),
            res@ == v@.take(i as int),
        decreases v.len() - i,
    {
        res.push(v[i]);
        i += 1;
        assert(res@ =~= v@.take(i as int));
    }
    assert(v@.take(i as int) =~= v@);
    res
}

/// A copy of `v`.
pub fn copy_pair_list(v: &Vec<(ObjectId, ObjectId)>) -> (res: Vec<(ObjectId, ObjectId)>)
    ensures
        res@ == v@,
{
    let mut res: Vec<(ObjectId, ObjectId)> = Vec::new();
    let mut i: usize = 0;
    while i < v.len()
        invariant
            i <= v.len(),
            res@ == v@.take(i as int),
        decreases v.len() - i,
    {
        res.push(v[i]);
        i += 1;
        assert(res@ =~= v@.take(i as int));
    }
    assert(v@.take(i as int) =~= v@);
    res
}

impl Action {
    /// A copy of this action.
    pub fn duplicate(&self) -> (res: Action)
        ensures
            res@ == self@,
    {
        match self {
            Action::SelectCard { card } => Action::SelectCard { card: *card },
            Action::FetchCard { card } => Action::FetchCard { card: *card },
            Action::CastCard { card } => Action::CastCard { card: *card },
            Action::Attack { attackers } => Action::Attack { attackers: copy_ids(attackers) },
            Action::Block { pairs } => Action::Block { pairs: copy_pair_list(pairs) },
            Action::EndTurn => Action::EndTurn,
            Action::Continue => Action::Continue,
            Action::Concede => Action::Concede,
        }
    }
}

/// A kind of move the engine currently allows, with its candidates.
#[derive(Debug, Clone, PartialEq, Eq)]
pub enum AvailableAction {
    SelectCard { cards: Vec<ObjectId> },
    FetchCard { cards: Vec<ObjectId> },
    CastCard { cards: Vec<ObjectId> },
    Attack { attackers: Vec<ObjectId> },
    Block { attackers: Vec<ObjectId>, blockers: Vec<ObjectId> },
    EndTurn,
    Continue,
}

/// A kind of move that offers a list of cards.
#[derive(Debug, Clone, Copy, PartialEq, Eq, Structural)]
pub enum Offer {
    Select,
    Cast,
    Attack,
    Block,
}

/// The cards offered by the first move of the given kind in `list`, or none.
pub open spec fn offered(list: Seq<AvailableAction>, kind: Offer) -> Seq<ObjectId>
    decreases list.len(),
{
    if list.len() == 0 {
        Seq::empty()
    } else {
        match (kind, list[0]) {
            (Offer::Select, AvailableAction::SelectCard { cards }) => cards@,
            (Offer::Cast, AvailableAction::CastCard { cards }) => cards@,
            (Offer::Attack, AvailableAction::Attack { attackers }) => attackers@,
            (Offer::Block, AvailableAction::Block { blockers, .. }) => blockers@,
            _ => offered(list.drop_first(), kind),
        }
    }
}

fn offered_exec(list: &Vec<AvailableAction>, kind: Offer) -> (res: Vec<ObjectId>)
    ensures
        res@ == offered(list@, kind),
{
    let mut i: usize = 0;
    assert(list@.subrange(0, list@.len() as int) =~= list@);
    while i < list.len()
        invariant
            i <= list.len(),
            offered(list@, kind) == offered(list@.subrange(i as int, list@.len() as int), kind),
        decreases list.len() - i,
    {
        proof {
            let rest = list@.subrange(i as int, list@.len() as int);
            assert(rest[0] == list@[i as int]);
            assert(rest.drop_first() =~= list@.subrange(i + 1, list@.len() as int));
        }
        match (kind, &list[i]) {
            (Offer::Select, AvailableAction::SelectCard { cards }) => {
                return copy_ids(cards);
            },
            (Offer::Cast, AvailableAction::CastCard { cards }) => {
                return copy_ids(cards);
            },
            (Offer::Attack, AvailableAction::Attack { attackers }) => {
                return copy_ids(attackers);
            },
            (Offer::Block, AvailableAction::Block { blockers, .. }) => {
                return copy_ids(blockers);
            },
            _ => {},
        }
        i += 1;
    }
    proof {
        assert(list@.subrange(i as int, list@.len() as int) =~= Seq::<AvailableAction>::empty());
    }
    Vec::new()
}

/// The cards the player may pick.
pub fn selectable_cards(list: &Vec<AvailableAction>) -> (res: Vec<ObjectId>)
    ensures
        res@ == offered(list@, Offer::Select),
{
    offered_exec(list, Offer::Select)
}

/// The cards the player may cast.
pub fn castable_cards(list: &Vec<AvailableAction>) -> (res: Vec<ObjectId>)
    ensures
        res@ == offered(list@, Offer::Cast),
{
    offered_exec(list, Offer::Cast)
}

/// The creatures the player may attack with.
pub fn attackers(list: &Vec<AvailableAction>) -> (res: Vec<ObjectId>)
    ensures
        res@ == offered(list@, Offer::Attack),
{
    offered_exec(list, Offer::Attack)
}

/// The creatures the player may block with.
pub fn blockers(list: &Vec<AvailableAction>) -> (res: Vec<ObjectId>)
    ensures
        res@ == offered(list@, Offer::Block),
{
    offered_exec(list, Offer::Block)
}

/// The moves a player may make now, and the one the engine takes when the
/// player expresses no preference.
#[derive(Debug, Clone)]
pub struct PlayerAvailableActions {
    pub player: u8,
    pub actions: Vec<AvailableAction>,
    pub default_action: Option<Action>,
}

/// Whether a card on the field can still act this turn.
#[derive(Debug, Clone, Copy, PartialEq, Eq, Structural)]
pub enum FieldState {
    Active,
    Exhausted,
}

/// A card as the bot sees it: its power (creatures only), the engine's
/// valuation of it, and the player whose zone holds it.
#[derive(Debug, Clone, Copy, PartialEq, Eq, Structural)]
pub struct CardView {
    pub id: ObjectId,
    pub power: Option<u32>,
    pub score: i32,
    pub zone_player: u8,
}

/// What a card on the field is doing in the current battle.
#[derive(Debug, Clone, Copy, PartialEq, Eq, Structural)]
pub enum FieldBattleState {
    Attacking,
    Blocking { attacker: ObjectId },
}

/// A card on a player's field.
#[derive(Debug, Clone, Copy, PartialEq, Eq, Structural)]
pub struct FieldCard {
    pub id: ObjectId,
    pub state: FieldState,
    pub battle: Option<FieldBattleState>,
    pub power: Option<u32>,
    pub score: i32,
}

/// One player's side of the board.
#[derive(Debug, Clone)]
pub struct PlayerView {
    pub hand: Vec<ObjectId>,
    pub life: i32,
    pub shards: usize,
    pub hand_scores: Vec<i32>,
    pub field: Vec<FieldCard>,
    pub abilities_score: i32,
}

/// How a game stands: still running, or finished with a winner or a draw.
#[derive(Debug, Clone, Copy, PartialEq, Eq, Structural)]
pub enum Endgame {
    Running,
    Finished { winner: Option<u8> },
}

/// A snapshot of a running game, as reported by the engine.
#[derive(Debug, Clone)]
pub struct GameView {
    pub players: Vec<PlayerView>,
    pub cards: Vec<CardView>,
    pub initial_life: u32,
    pub endgame: Endgame,
}

/// The index of the first card with id `id`, if any.
pub open spec fn card_index(cards: Seq<CardView>, id: ObjectId) -> Option<int>
    decreases cards.len(),
{
    if cards.len() == 0 {
        None
    } else if cards.last().id == id {
        match card_index(cards.drop_last(), id) {
            Some(i) => Some(i),
            None => Some(cards.len() - 1),
        }
    } else {
        card_index(cards.drop_last(), id)
    }
}

/// The first card with id `id`, if any.
pub open spec fn spec_find_card(cards: Seq<CardView>, id: ObjectId) -> Option<CardView> {
    match card_index(cards, id) {
        Some(i) => Some(cards[i]),
        None => None,
    }
}

/// The cards that `ids` name, in order, skipping ids with no card.
pub open spec fn found_cards(cards: Seq<CardView>, ids: Seq<ObjectId>) -> Seq<CardView>
    decreases ids.len(),
{
    if ids.len() == 0 {
        Seq::empty()
    } else {
        let rest = found_cards(cards, ids.drop_last());
        match spec_find_card(cards, ids.last()) {
            Some(c) => rest.push(c),
            None => rest,
        }
    }
}

/// The seat after `p`.
pub open spec fn next_seat(p: u8, n: nat) -> int {
    if n == 0 {
        0
    } else {
        (p as int + 1) % (n as int)
    }
}

pub proof fn lemma_card_index_bounds(cards: Seq<CardView>, id: ObjectId)
    ensures
        card_index(cards, id) matches Some(i) ==> 0 <= i < cards.len() && cards[i].id == id,
        card_index(cards, id) is None ==> forall|j: int| 0 <= j < cards.len() ==> cards[j].id != id,
        card_index(cards, id) matches Some(i) ==> forall|j: int| 0 <= j < i ==> cards[j].id != id,
    decreases cards.len(),
{
    if cards.len() > 0 {
        let d = cards.drop_last();
        lemma_card_index_bounds(d, id);
        assert forall|j: int| 0 <= j < d.len() implies d[j] == cards[j] by {}
    }
}

impl GameView {
    /// The first card with id `id`.
    pub fn find_card(&self, id: ObjectId) -> (res: Option<CardView>)
        ensures
            res == spec_find_card(self.cards@, id),
    {
        let mut i: usize = 0;
        while i < self.cards.len()
            invariant
                i <= self.cards.len(),
                forall|j: int| 0 <= j < i ==> self.cards@[j].id != id,
            decreases self.cards.len() - i,
        {
            if self.cards[i].id == id {
                proof {
                    lemma_card_index_bounds(self.cards@, id);
                    lemma_first_index(self.cards@, id, i as int);
                }
                return Some(self.cards[i]);
            }
            i += 1;
        }
        proof {
            lemma_card_index_bounds(self.cards@, id);
        }
        None
    }

    /// The cards that `ids` name, in order, skipping ids with no card.
    pub fn find_cards(&self, ids: &Vec<ObjectId>) -> (res: Vec<CardView>)
        ensures
            res@ == found_cards(self.cards@, ids@),
    {
        let mut res: Vec<CardView> = Vec::new();
        let mut i: usize = 0;
        while i < ids.len()
            invariant
                i <= ids.len(),
                res@ == found_cards(self.cards@, ids@.take(i as int)),
            decreases ids.len() - i,
        {
            let found = self.find_card(ids[i]);
            proof {
                let t = ids@.take(i + 1);
                assert(t.drop_last() =~= ids@.take(i as int));
                assert(t.last() == ids@[i as int]);
            }
            if let Some(c) = found {
                res.push(c);
            }
            i += 1;
        }
        assert(ids@.take(i as int) =~= ids@);
        res
    }

    /// The player in seat `p`.
    pub fn player(&self, p: u8) -> (res: Option<&PlayerView>)
        ensures
            (p as int) < self.players@.len() ==> res == Some(&self.players@[p as int]),
            (p as int) >= self.players@.len() ==> res is None,
    {
        if (p as usize) < self.players.len() {
            Some(&self.players[p as usize])
        } else {
            None
        }
    }

    /// The player seated after `p`.
    pub fn next_player(&self, p: u8) -> (res: Option<&PlayerView>)
        ensures
            self.players@.len() == 0 ==> res is None,
            self.players@.len() > 0 ==> res == Some(
                &self.players@[next_seat(p, self.players@.len())],
            ),
    {
        let n = self.players.len();
        if n == 0 {
            None
        } else {
            let i = ((p as usize) + 1) % n;
            Some(&self.players[i])
        }
    }
}

proof fn lemma_first_index(cards: Seq<CardView>, id: ObjectId, i: int)
    requires
        0 <= i < cards.len(),
        cards[i].id == id,
        forall|j: int| 0 <= j < i ==> cards[j].id != id,
    ensures
        card_index(cards, id) == Some(i),
    decreases cards.len(),
{
    lemma_card_index_bounds(cards, id);
    if i < cards.len() - 1 {
        lemma_first_index(cards.drop_last(), id, i);
    } else {
        lemma_card_index_bounds(cards.drop_last(), id);
    }
}

} // verus!
