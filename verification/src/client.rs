//! The decisions the client makes during a game: the buttons it offers, the
//! frame it draws around a card, what the player's clicks, drops and keys
//! mean, and how it takes in what the server reports.
use vstd::prelude::*;
use crate::board::{
    attacker_toggled, battle_cleared, contains_id, blocker_toggled, shown_attackers_of, shown_blocks_of, Board,
    BoardModel, Slot,
};
use crate::game::{
    attackers, blockers, castable_cards, copy_ids, offered, selectable_cards, Action, ActionSpec,
    AvailableAction, FieldState, Offer,
};
use crate::ids::ObjectId;
use crate::log::GameLog;

verus! {

// ---------------------------------------------------------------------------
// Buttons.
/// A button of the action bar.
#[derive(Debug, Clone, Copy, PartialEq, Eq, Structural)]
pub enum ActionButton {
    EndTurn,
    AllAttack,
    Attack(u32),
    Block(u32),
    Continue,
}

/// The message a button's label is looked up by, and the number it is
/// given, with the name of its argument.
pub open spec fn button_message(b: ActionButton) -> (Seq<char>, Option<(Seq<char>, u32)>) {
    match b {
        ActionButton::EndTurn => ("end-turn-button"@, None),
        ActionButton::AllAttack => ("all-attack-button"@, None),
        ActionButton::Attack(n) => ("attack-button"@, Some(("attackers"@, n))),
        ActionButton::Block(n) => ("block-button"@, Some(("blockers"@, n))),
        ActionButton::Continue => ("continue-button"@, None),
    }
}

pub open spec fn message_view(m: (String, Option<(String, u32)>)) -> (Seq<char>, Option<(Seq<char>, u32)>) {
    (m.0@, match m.1 {
        Some((k, n)) => Some((k@, n)),
        None => None,
    })
}

impl ActionButton {
    /// The message id of the button's label and its argument (see
    /// [`button_message`]).
    pub fn message(self) -> (res: (String, Option<(String, u32)>))
        ensures
            message_view(res) == button_message(self),
    {
        match self {
            ActionButton::EndTurn => ("end-turn-button".to_owned(), None),
            ActionButton::AllAttack => ("all-attack-button".to_owned(), None),
            ActionButton::Attack(n) => ("attack-button".to_owned(), Some(("attackers".to_owned(), n))),
            ActionButton::Block(n) => ("block-button".to_owned(), Some(("blockers".to_owned(), n))),
            ActionButton::Continue => ("continue-button".to_owned(), None),
        }
    }
}

/// The button offered for a kind of move, given how many attackers and
/// blocks the board shows.
pub open spec fn button_for(a: AvailableAction, attackers: nat, blocks: nat) -> Option<ActionButton> {
    match a {
        AvailableAction::Attack { .. } => if (attackers as u32) == 0 {
            Some(ActionButton::AllAttack)
        } else {
            Some(ActionButton::Attack(attackers as u32))
        },
        AvailableAction::Block { .. } => if (blocks as u32) == 0 {
            Some(ActionButton::Continue)
        } else {
            Some(ActionButton::Block(blocks as u32))
        },
        AvailableAction::EndTurn => Some(ActionButton::EndTurn),
        _ => None,
    }
}

/// The buttons for the moves in `list`, in order.
pub open spec fn buttons(list: Seq<AvailableAction>, attackers: nat, blocks: nat) -> Seq<ActionButton>
    decreases list.len(),
{
    if list.len() == 0 {
        Seq::empty()
    } else {
        let rest = buttons(list.drop_last(), attackers, blocks);
        match button_for(list.last(), attackers, blocks) {
            Some(b) => rest.push(b),
            None => rest,
        }
    }
}

/// The buttons of the action bar for the moves in `list`: attacking with
/// the attackers shown (or with all, when none is shown), blocking with the
/// blocks shown (or going on, when none is shown), and ending the turn.
pub fn action_buttons(board: &Board, list: &Vec<AvailableAction>) -> (res: Vec<ActionButton>)
    ensures
        res@ == buttons(list@, board.shown_attackers().len(), board.shown_blocks().len()),
{
    let n_attackers = board.attackers().len();
    let n_blocks = board.blocking_pairs().len();
    let mut res: Vec<ActionButton> = Vec::new();
    let mut i: usize = 0;
    while i < list.len()
        invariant
            i <= list.len(),
            n_attackers == board.shown_attackers().len(),
            n_blocks == board.shown_blocks().len(),
            res@ == buttons(list@.take(i as int), n_attackers as nat, n_blocks as nat),
        decreases list.len() - i,
    {
        proof {
            let t = list@.take(i + 1);
            assert(t.drop_last() =~= list@.take(i as int));
            assert(t.last() == list@[i as int]);
        }
        match &list[i] {
            AvailableAction::Attack { .. } => {
                let n = n_attackers as u32;
                if n == 0 {
                    res.push(ActionButton::AllAttack);
                } else {
                    res.push(ActionButton::Attack(n));
                }
            },
            AvailableAction::Block { .. } => {
                let n = n_blocks as u32;
                if n == 0 {
                    res.push(ActionButton::Continue);
                } else {
                    res.push(ActionButton::Block(n));
                }
            },
            AvailableAction::EndTurn => {
                res.push(ActionButton::EndTurn);
            },
            _ => {},
        }
        i += 1;
    }
    assert(list@.take(i as int) =~= list@);
    res
}

// ---------------------------------------------------------------------------
// Card frames.
/// The frame drawn on a card.
#[derive(Debug, Clone, Copy, PartialEq, Eq, Structural)]
pub enum FrameMaterial {
    /// A card in hand that can be cast.
    Active,
    /// A card in hand that can be picked.
    Select,
    /// Any other card in hand.
    Shadow,
    /// A card on the field that can be picked.
    SelectSmall,
    /// A creature shown attacking.
    AttackActive,
    /// A creature that may attack.
    Attack,
    /// A creature shown blocking.
    BlockActive,
    /// A creature that may block.
    Block,
    /// A card that has acted this turn.
    Exhausted,
    /// Any other card.
    Normal,
}

/// Whether the card `id` lies exhausted on either field.
pub open spec fn exhausted_on(fields: Seq<Slot>, id: ObjectId) -> bool {
    exists|i: int| 0 <= i < fields.len() && fields[i] == (id, FieldState::Exhausted)
}

/// The frame of the card `id`: for the larger frame of a card in hand,
/// whether it can be cast or picked; for the frame on the field, whether it
/// can be picked, is shown attacking, may attack, is shown blocking, may
/// block, or is exhausted, in that order of precedence.
pub open spec fn frame_of(m: BoardModel, list: Seq<AvailableAction>, id: ObjectId, shadow: bool) -> FrameMaterial {
    let selectable = offered(list, Offer::Select).contains(id);
    if shadow {
        if offered(list, Offer::Cast).contains(id) {
            FrameMaterial::Active
        } else if selectable {
            FrameMaterial::Select
        } else {
            FrameMaterial::Shadow
        }
    } else if selectable {
        FrameMaterial::SelectSmall
    } else if shown_attackers_of(m).contains(id) {
        FrameMaterial::AttackActive
    } else if offered(list, Offer::Attack).contains(id) {
        FrameMaterial::Attack
    } else if exists|i: int| 0 <= i < shown_blocks_of(m).len() && (#[trigger] shown_blocks_of(m)[i]).1 == id {
        FrameMaterial::BlockActive
    } else if offered(list, Offer::Block).contains(id) {
        FrameMaterial::Block
    } else if exhausted_on(m.player_field + m.opponent_field, id) {
        FrameMaterial::Exhausted
    } else {
        FrameMaterial::Normal
    }
}

fn contains_object(v: &Vec<ObjectId>, id: ObjectId) -> (res: bool)
    ensures
        res == v@.contains(id),
{
    let mut i: usize = 0;
    while i < v.len()
        invariant
            i <= v.len(),
            forall|j: int| 0 <= j < i ==> v@[j] != id,
        decreases v.len() - i,
    {
        if v[i] == id {
            assert(v@[i as int] == id);
            return true;
        }
        i += 1;
    }
    false
}

fn blocks_with(v: &Vec<(ObjectId, ObjectId)>, id: ObjectId) -> (res: bool)
    ensures
        res == exists|i: int| 0 <= i < v@.len() && (#[trigger] v@[i]).1 == id,
{
    let mut i: usize = 0;
    while i < v.len()
        invariant
            i <= v.len(),
            forall|j: int| 0 <= j < i ==> (#[trigger] v@[j]).1 != id,
        decreases v.len() - i,
    {
        if v[i].1 == id {
            assert(v@[i as int].1 == id);
            return true;
        }
        i += 1;
    }
    false
}

fn exhausted_in(f: &Vec<(ObjectId, FieldState)>, id: ObjectId) -> (res: bool)
    ensures
        res == exhausted_on(f@, id),
{
    let mut i: usize = 0;
    while i < f.len()
        invariant
            i <= f.len(),
            forall|j: int| 0 <= j < i ==> f@[j] != (id, FieldState::Exhausted),
        decreases f.len() - i,
    {
        if f[i].0 == id && f[i].1 == FieldState::Exhausted {
            assert(f@[i as int] == (id, FieldState::Exhausted));
            return true;
        }
        i += 1;
    }
    false
}

/// The frame to draw on the card `id` (see [`frame_of`]); `shadow` asks
/// for the larger frame of a card in hand.
pub fn frame_overlay(board: &Board, list: &Vec<AvailableAction>, id: ObjectId, shadow: bool) -> (res: FrameMaterial)
    ensures
        res == frame_of(board.model(), list@, id, shadow),
{
    let selectable = contains_object(&selectable_cards(list), id);
    let shown_attackers = board.attackers();
    let shown_blocks = board.blocking_pairs();
    assert(shown_attackers@ == shown_attackers_of(board.model()));
    assert(shown_blocks@ == shown_blocks_of(board.model()));
    if shadow {
        if contains_object(&castable_cards(list), id) {
            FrameMaterial::Active
        } else if selectable {
            FrameMaterial::Select
        } else {
            FrameMaterial::Shadow
        }
    } else if selectable {
        FrameMaterial::SelectSmall
    } else if contains_object(&shown_attackers, id) {
        FrameMaterial::AttackActive
    } else if contains_object(&attackers(list), id) {
        FrameMaterial::Attack
    } else if blocks_with(&shown_blocks, id) {
        FrameMaterial::BlockActive
    } else if contains_object(&blockers(list), id) {
        FrameMaterial::Block
    } else {
        let a = exhausted_in(board.player_slots(), id);
        let b = exhausted_in(board.opponent_slots(), id);
        proof {
            let f = board.model().player_field + board.model().opponent_field;
            let p = board.model().player_field;
            if a {
                let i = choose|i: int| 0 <= i < p.len() && p[i] == (id, FieldState::Exhausted);
                assert(f[i] == p[i]);
            }
            if b {
                let o = board.model().opponent_field;
                let i = choose|i: int| 0 <= i < o.len() && o[i] == (id, FieldState::Exhausted);
                assert(f[p.len() + i] == o[i]);
            }
            if exhausted_on(f, id) {
                let i = choose|i: int| 0 <= i < f.len() && f[i] == (id, FieldState::Exhausted);
                if i < p.len() {
                    assert(f[i] == p[i]);
                } else {
                    assert(f[i] == board.model().opponent_field[i - p.len()]);
                }
            }
        }
        if a || b {
            FrameMaterial::Exhausted
        } else {
            FrameMaterial::Normal
        }
    }
}


// ---------------------------------------------------------------------------
// The player's input.
/// What the player did on the board.
#[derive(Debug, Clone, Copy, PartialEq, Eq, Structural)]
pub enum PlayerEvent {
    ButtonPressed(ActionButton),
    CardDroppedOnField(ObjectId),
    CardDropped(ObjectId, ObjectId),
    CardClicked(ObjectId),
}

/// The shortcut keys pressed this frame.
#[derive(Debug, Clone, Copy, PartialEq, Eq, Structural)]
pub struct KeysPressed {
    pub continue_key: bool,
    pub attack: bool,
    pub all_attack: bool,
    pub block: bool,
}

/// The attackers of the first attack move in `list`.
pub open spec fn first_attack(list: Seq<AvailableAction>) -> Option<Seq<ObjectId>>
    decreases list.len(),
{
    if list.len() == 0 {
        None
    } else {
        match list[0] {
            AvailableAction::Attack { attackers } => Some(attackers@),
            _ => first_attack(list.drop_first()),
        }
    }
}

/// The board after one event, and the action the event asks for.
pub open spec fn event_step(m: BoardModel, list: Seq<AvailableAction>, e: PlayerEvent) -> (
    BoardModel,
    Option<ActionSpec>,
) {
    match e {
        PlayerEvent::ButtonPressed(b) => (
            m,
            match b {
                ActionButton::EndTurn => Some(ActionSpec::EndTurn),
                ActionButton::Block(_) => Some(ActionSpec::Block { pairs: shown_blocks_of(m) }),
                ActionButton::Continue => Some(ActionSpec::Block { pairs: shown_blocks_of(m) }),
                ActionButton::Attack(_) => Some(ActionSpec::Attack { attackers: shown_attackers_of(m) }),
                ActionButton::AllAttack => match first_attack(list) {
                    Some(a) => Some(ActionSpec::Attack { attackers: a }),
                    None => None,
                },
            },
        ),
        PlayerEvent::CardDroppedOnField(d) => (
            m,
            if offered(list, Offer::Cast).contains(d) {
                Some(ActionSpec::CastCard { card: d })
            } else {
                None
            },
        ),
        PlayerEvent::CardDropped(d, t) => if offered(list, Offer::Cast).contains(d) {
            (m, Some(ActionSpec::CastCard { card: d }))
        } else {
            (blocker_toggled(m, d, Some(t)), None)
        },
        PlayerEvent::CardClicked(c) => if offered(list, Offer::Attack).contains(c) {
            (attacker_toggled(m, c), None)
        } else if offered(list, Offer::Block).contains(c) {
            (blocker_toggled(m, c, None), None)
        } else if offered(list, Offer::Select).contains(c) {
            (m, Some(ActionSpec::SelectCard { card: c }))
        } else {
            (m, None)
        },
    }
}

/// The board after the events, taken in order until one asks for an
/// action; that action; and how many events were taken.
pub open spec fn events_step(m: BoardModel, list: Seq<AvailableAction>, events: Seq<PlayerEvent>) -> (
    BoardModel,
    Option<ActionSpec>,
    nat,
)
    decreases events.len(),
{
    if events.len() == 0 {
        (m, None, 0)
    } else {
        let (m1, a) = event_step(m, list, events[0]);
        if a is Some {
            (m1, a, 1)
        } else {
            let (m2, a2, n) = events_step(m1, list, events.drop_first());
            (m2, a2, n + 1)
        }
    }
}

/// The board and the action once the shortcut keys are taken into account:
/// going on blocks with nothing (or ends the turn, when there is nothing to
/// block with) and drops the prepared battle; attacking sends the attackers
/// shown, if any; attacking with all sends every possible attacker;
/// blocking sends the blocks shown, when there is something to block with.
/// A later key overrides an earlier one.
pub open spec fn keys_step(m: BoardModel, list: Seq<AvailableAction>, a: Option<ActionSpec>, keys: KeysPressed) -> (
    BoardModel,
    Option<ActionSpec>,
) {
    let can_block = offered(list, Offer::Block).len() > 0;
    let (m1, a1) = if keys.continue_key {
        (
            battle_cleared(m),
            Some(
                if can_block {
                    ActionSpec::Block { pairs: Seq::empty() }
                } else {
                    ActionSpec::EndTurn
                },
            ),
        )
    } else {
        (m, a)
    };
    let a2 = if keys.attack && shown_attackers_of(m1).len() > 0 {
        Some(ActionSpec::Attack { attackers: shown_attackers_of(m1) })
    } else {
        a1
    };
    let a3 = if keys.all_attack {
        match first_attack(list) {
            Some(at) => Some(ActionSpec::Attack { attackers: at }),
            None => a2,
        }
    } else {
        a2
    };
    let a4 = if keys.block && can_block {
        Some(ActionSpec::Block { pairs: shown_blocks_of(m1) })
    } else {
        a3
    };
    (m1, a4)
}

/// Whether sending `a` makes the client show the new moves at once.
pub open spec fn refreshes_moves(a: ActionSpec) -> bool {
    a is Attack || a is Block || a is EndTurn || a is Concede
}

/// An action, as a mathematical value.
pub open spec fn action_of(a: Option<Action>) -> Option<ActionSpec> {
    match a {
        Some(x) => Some(x@),
        None => None,
    }
}

/// What the client does with the player's input this frame.
#[derive(Debug, Clone)]
pub struct PlayerOutcome {
    /// The action to send, if any.
    pub action: Option<Action>,
    /// How many of the events were taken.
    pub handled: usize,
    /// No action is sent although the player did something.
    pub finished: bool,
    /// The moves the action leads to are shown at once.
    pub refresh_moves: bool,
}

fn first_attack_exec(list: &Vec<AvailableAction>) -> (res: Option<Vec<ObjectId>>)
    ensures
        match res {
            Some(v) => first_attack(list@) == Some(v@),
            None => first_attack(list@) is None,
        },
{
    let mut i: usize = 0;
    assert(list@.skip(0) =~= list@);
    while i < list.len()
        invariant
            i <= list.len(),
            first_attack(list@) == first_attack(list@.skip(i as int)),
        decreases list.len() - i,
    {
        proof {
            let rest = list@.skip(i as int);
            assert(rest[0] == list@[i as int]);
            assert(rest.drop_first() =~= list@.skip(i + 1));
        }
        match &list[i] {
            AvailableAction::Attack { attackers } => {
                return Some(copy_ids(attackers));
            },
            _ => {},
        }
        i += 1;
    }
    assert(list@.skip(i as int) =~= Seq::<AvailableAction>::empty());
    None
}

/// Takes one event (see [`event_step`]).
pub fn handle_event(board: &mut Board, list: &Vec<AvailableAction>, e: PlayerEvent) -> (res: Option<Action>)
    requires
        old(board).wf(),
    ensures
        final(board).wf(),
        (final(board).model(), action_of(res)) == event_step(old(board).model(), list@, e),
{
    match e {
        PlayerEvent::ButtonPressed(b) => match b {
            ActionButton::EndTurn => Some(Action::EndTurn),
            ActionButton::Block(_) => Some(Action::Block { pairs: board.blocking_pairs() }),
            ActionButton::Continue => Some(Action::Block { pairs: board.blocking_pairs() }),
            ActionButton::Attack(_) => Some(Action::Attack { attackers: board.attackers() }),
            ActionButton::AllAttack => match first_attack_exec(list) {
                Some(a) => Some(Action::Attack { attackers: a }),
                None => None,
            },
        },
        PlayerEvent::CardDroppedOnField(d) => {
            if contains_object(&castable_cards(list), d) {
                Some(Action::CastCard { card: d })
            } else {
                None
            }
        },
        PlayerEvent::CardDropped(d, t) => {
            if contains_object(&castable_cards(list), d) {
                Some(Action::CastCard { card: d })
            } else {
                board.toggle_blocker(d, Some(t));
                None
            }
        },
        PlayerEvent::CardClicked(c) => {
            if contains_object(&attackers(list), c) {
                board.toggle_attacker(c);
                None
            } else if contains_object(&blockers(list), c) {
                board.toggle_blocker(c, None);
                None
            } else if contains_object(&selectable_cards(list), c) {
                Some(Action::SelectCard { card: c })
            } else {
                None
            }
        },
    }
}

/// Takes the player's events (see [`events_step`]) and shortcut keys (see
/// [`keys_step`]) for this frame.
pub fn handle_player_events(
    board: &mut Board,
    list: &Vec<AvailableAction>,
    events: &Vec<PlayerEvent>,
    keys: KeysPressed,
) -> (res: PlayerOutcome)
    requires
        old(board).wf(),
    ensures
        final(board).wf(),
        ({
            let (m1, a1, n) = events_step(old(board).model(), list@, events@);
            let (m2, a2) = keys_step(m1, list@, a1, keys);
            &&& final(board).model() == m2
            &&& action_of(res.action) == a2
            &&& res.handled == n
            &&& res.finished == (a2 is None && events@.len() > 0)
            &&& res.refresh_moves == (a2 matches Some(a) && refreshes_moves(a))
        }),
{
    let ghost m0 = board.model();
    let mut action: Option<Action> = None;
    let mut i: usize = 0;
    assert(events@.skip(0) =~= events@);
    while i < events.len()
        invariant_except_break
            i <= events.len(),
            board.wf(),
            action is None,
            events_step(m0, list@, events@) == ({
                let (m2, a2, n) = events_step(board.model(), list@, events@.skip(i as int));
                (m2, a2, (n + i) as nat)
            }),
        ensures
            i <= events.len(),
            board.wf(),
            events_step(m0, list@, events@) == (board.model(), action_of(action), i as nat),
        decreases events.len() - i,
    {
        proof {
            let rest = events@.skip(i as int);
            assert(rest[0] == events@[i as int]);
            assert(rest.drop_first() =~= events@.skip(i + 1));
        }
        let a = handle_event(board, list, events[i]);
        i += 1;
        if a.is_some() {
            action = a;
            break;
        }
    }
    proof {
        if i == events.len() && action is None {
            assert(events@.skip(i as int) =~= Seq::<PlayerEvent>::empty());
        }
    }
    let ghost m1 = board.model();
    let ghost a1 = action_of(action);
    let block_moves = blockers(list);
    let can_block = block_moves.len() > 0;
    if keys.continue_key {
        action = if can_block {
            Some(Action::Block { pairs: Vec::new() })
        } else {
            Some(Action::EndTurn)
        };
        board.clear_battle();
        assert(action_of(action) == Some(
            if can_block {
                ActionSpec::Block { pairs: Seq::<(ObjectId, ObjectId)>::empty() }
            } else {
                ActionSpec::EndTurn
            },
        ));
    }
    if keys.attack {
        let shown = board.attackers();
        if shown.len() > 0 {
            action = Some(Action::Attack { attackers: shown });
        }
    }
    if keys.all_attack {
        match first_attack_exec(list) {
            Some(at) => {
                action = Some(Action::Attack { attackers: at });
            },
            None => {},
        }
    }
    if keys.block && can_block {
        action = Some(Action::Block { pairs: board.blocking_pairs() });
    }
    let refresh = match &action {
        Some(Action::Attack { .. }) => true,
        Some(Action::Block { .. }) => true,
        Some(Action::EndTurn) => true,
        Some(Action::Concede) => true,
        _ => false,
    };
    let finished = action.is_none() && events.len() > 0;
    PlayerOutcome { action, handled: i, finished, refresh_moves: refresh }
}


// ---------------------------------------------------------------------------
// What the server reports.
/// What an attack is aimed at.
#[derive(Debug, Clone, Copy, PartialEq, Eq, Structural)]
pub enum Target {
    Card(ObjectId),
    Player(u8),
}

/// A log entry the board animates.
#[derive(Debug, Clone, Copy, PartialEq, Eq, Structural)]
pub enum LogEvent {
    Attack { attacker: ObjectId, target: Target },
    Moved { card: ObjectId },
}

/// A change the game's panels show.
#[derive(Debug, Clone, Copy, PartialEq, Eq, Structural)]
pub enum GameSignal {
    ShardUpdated,
    LifeUpdated { player: u8, delta: i32 },
    TurnChanged(u8),
}

/// The move the client takes by itself: when exactly one move is offered
/// and it is picking the only card offered, blocking when nothing can
/// block, or ending the turn.
pub open spec fn auto_action_of(actions: Option<Seq<AvailableAction>>) -> Option<ActionSpec> {
    match actions {
        None => None,
        Some(l) => if l.len() == 1 {
            match l[0] {
                AvailableAction::SelectCard { cards } => if cards@.len() == 1 {
                    Some(ActionSpec::SelectCard { card: cards@[0] })
                } else {
                    None
                },
                AvailableAction::Block { blockers, .. } => if blockers@.len() == 0 {
                    Some(ActionSpec::Block { pairs: Seq::empty() })
                } else {
                    None
                },
                AvailableAction::EndTurn => Some(ActionSpec::EndTurn),
                _ => None,
            }
        } else {
            None
        },
    }
}

/// The animation a log entry asks for.
pub open spec fn log_event_of(log: GameLog) -> Option<LogEvent> {
    match log {
        GameLog::CreatureAttackedCreature { attacker, blocker } => Some(
            LogEvent::Attack { attacker: attacker.id, target: Target::Card(blocker.id) },
        ),
        GameLog::CreatureAttackedPlayer { attacker, player } => Some(
            LogEvent::Attack { attacker: attacker.id, target: Target::Player(player) },
        ),
        GameLog::CardMoved { card, .. } => Some(LogEvent::Moved { card: card.id }),
        _ => None,
    }
}

/// The animations the log entries ask for, in order.
pub open spec fn log_events_of(logs: Seq<GameLog>) -> Seq<LogEvent>
    decreases logs.len(),
{
    if logs.len() == 0 {
        Seq::empty()
    } else {
        let rest = log_events_of(logs.drop_last());
        match log_event_of(logs.last()) {
            Some(e) => rest.push(e),
            None => rest,
        }
    }
}

/// The panel changes a log entry asks for: shards earned or spent update
/// the shards; a life change updates that player's life, a damage lowers it
/// by the amount; a new turn shows whose it is.
pub open spec fn signals_of(log: GameLog) -> Seq<GameSignal> {
    match log {
        GameLog::ShardsEarned { .. } => seq![GameSignal::ShardUpdated],
        GameLog::ShardsSpent { .. } => seq![GameSignal::ShardUpdated],
        GameLog::LifeChanged { player, .. } => seq![GameSignal::LifeUpdated { player, delta: 0 }],
        GameLog::DamageTaken { player, amount } => seq![
            GameSignal::LifeUpdated { player, delta: (-((amount as i32) as int)) as i32 },
        ],
        GameLog::TurnChanged { player, .. } => seq![GameSignal::TurnChanged(player)],
        _ => Seq::empty(),
    }
}

/// The panel changes the log entries ask for, in order.
pub open spec fn all_signals_of(logs: Seq<GameLog>) -> Seq<GameSignal>
    decreases logs.len(),
{
    if logs.len() == 0 {
        Seq::empty()
    } else {
        all_signals_of(logs.drop_last()) + signals_of(logs.last())
    }
}

/// No damage in the log is so large that its negation overflows.
pub open spec fn damage_fits(logs: Seq<GameLog>) -> bool {
    forall|i: int|
        0 <= i < logs.len() ==> (#[trigger] logs[i] matches GameLog::DamageTaken { amount, .. } ==> (
        amount as i32) != i32::MIN)
}

/// What the client does with one report of the server.
#[derive(Debug, Clone)]
pub struct ServerStep {
    /// The move the client takes by itself, if any.
    pub auto_action: Option<Action>,
    /// The animations the log asks for.
    pub log_events: Vec<LogEvent>,
    /// The panel changes the log asks for.
    pub signals: Vec<GameSignal>,
    /// The message dialog is replaced by the report's (no move is taken by
    /// itself).
    pub update_dialog: bool,
}

fn auto_action(actions: Option<&Vec<AvailableAction>>) -> (res: Option<Action>)
    ensures
        action_of(res) == auto_action_of(
            match actions {
                Some(l) => Some(l@),
                None => None,
            },
        ),
{
    match actions {
        None => None,
        Some(l) => {
            if l.len() != 1 {
                return None;
            }
            match &l[0] {
                AvailableAction::SelectCard { cards } => {
                    if cards.len() == 1 {
                        Some(Action::SelectCard { card: cards[0] })
                    } else {
                        None
                    }
                },
                AvailableAction::Block { blockers, .. } => {
                    if blockers.len() == 0 {
                        let res = Some(Action::Block { pairs: Vec::new() });
                        assert(action_of(res) == Some(
                            ActionSpec::Block { pairs: Seq::<(ObjectId, ObjectId)>::empty() },
                        ));
                        res
                    } else {
                        None
                    }
                },
                AvailableAction::EndTurn => Some(Action::EndTurn),
                _ => None,
            }
        },
    }
}

/// Takes a report of the server: the moves it offers (if any) and its log
/// entries (see [`auto_action_of`], [`log_events_of`], [`all_signals_of`]).
pub fn take_server_event(actions: Option<&Vec<AvailableAction>>, logs: &Vec<GameLog>) -> (res: ServerStep)
    requires
        damage_fits(logs@),
    ensures
        action_of(res.auto_action) == auto_action_of(
            match actions {
                Some(l) => Some(l@),
                None => None,
            },
        ),
        res.log_events@ == log_events_of(logs@),
        res.signals@ == all_signals_of(logs@),
        res.update_dialog == res.auto_action is None,
{
    let auto = auto_action(actions);
    let mut events: Vec<LogEvent> = Vec::new();
    let mut signals: Vec<GameSignal> = Vec::new();
    let mut i: usize = 0;
    while i < logs.len()
        invariant
            i <= logs.len(),
            damage_fits(logs@),
            events@ == log_events_of(logs@.take(i as int)),
            signals@ == all_signals_of(logs@.take(i as int)),
        decreases logs.len() - i,
    {
        proof {
            let t = logs@.take(i + 1);
            assert(t.drop_last() =~= logs@.take(i as int));
            assert(t.last() == logs@[i as int]);
        }
        match &logs[i] {
            GameLog::CreatureAttackedCreature { attacker, blocker } => {
                events.push(LogEvent::Attack { attacker: attacker.id, target: Target::Card(blocker.id) });
            },
            GameLog::CreatureAttackedPlayer { attacker, player } => {
                events.push(LogEvent::Attack { attacker: attacker.id, target: Target::Player(*player) });
            },
            GameLog::CardMoved { card, .. } => {
                events.push(LogEvent::Moved { card: card.id });
            },
            _ => {},
        }
        let ghost before = signals@;
        match &logs[i] {
            GameLog::ShardsEarned { .. } => {
                signals.push(GameSignal::ShardUpdated);
            },
            GameLog::ShardsSpent { .. } => {
                signals.push(GameSignal::ShardUpdated);
            },
            GameLog::LifeChanged { player, .. } => {
                signals.push(GameSignal::LifeUpdated { player: *player, delta: 0 });
            },
            GameLog::DamageTaken { player, amount } => {
                assert(logs@[i as int] matches GameLog::DamageTaken { .. });
                let a: i32 = *amount as i32;
                signals.push(GameSignal::LifeUpdated { player: *player, delta: -a });
            },
            GameLog::TurnChanged { player, .. } => {
                signals.push(GameSignal::TurnChanged(*player));
            },
            _ => {},
        }
        assert(signals@ =~= before + signals_of(logs@[i as int]));
        i += 1;
    }
    assert(logs@.take(i as int) =~= logs@);
    let update_dialog = auto.is_none();
    ServerStep { auto_action: auto, log_events: events, signals, update_dialog }
}

/// Where the game scene stands.
#[derive(Debug, Clone, Copy, PartialEq, Eq, Structural)]
pub enum GameScene {
    Init,
    Loading,
    Running,
}

/// Whether the client takes the next report of the server now, and whether
/// it restarts its pacing timer: not while assets load; while the game is
/// set up, only until there is a state; while it loads, only until the
/// first turn; while it runs, at most one every 100 milliseconds.
pub open spec fn takes_report(scene: GameScene, assets_loading: bool, turn: Option<u32>, elapsed_ms: u64) -> (bool, bool) {
    if assets_loading {
        (false, false)
    } else {
        match scene {
            GameScene::Init => (turn is None, false),
            GameScene::Loading => (!(turn matches Some(t) && t > 0), false),
            GameScene::Running => if elapsed_ms < 100 {
                (false, false)
            } else {
                (true, true)
            },
        }
    }
}

/// See [`takes_report`]; `turn` is the current state's turn, if there is a
/// state.
pub fn ready_for_report(scene: GameScene, assets_loading: bool, turn: Option<u32>, elapsed_ms: u64) -> (res: (
    bool,
    bool,
))
    ensures
        res == takes_report(scene, assets_loading, turn, elapsed_ms),
{
    if assets_loading {
        return (false, false);
    }
    match scene {
        GameScene::Init => (turn.is_none(), false),
        GameScene::Loading => {
            let started = match turn {
                Some(t) => t > 0,
                None => false,
            };
            (!started, false)
        },
        GameScene::Running => if elapsed_ms < 100 {
            (false, false)
        } else {
            (true, true)
        },
    }
}

/// Whether a report's moves replace the moves shown before the report is
/// taken: it offers moves, it is newer than the list shown, and it is of
/// the current turn.
pub fn preloads_moves(has_moves: bool, shown_stamp: u32, report_stamp: u32, report_turn: u32, turn: u32) -> (res: bool)
    ensures
        res == (has_moves && shown_stamp < report_stamp && report_turn == turn),
{
    has_moves && shown_stamp < report_stamp && report_turn == turn
}

/// Whether the move list is replaced by the one of a report: only when the
/// report is newer than the list shown.
pub fn replaces_moves(list_stamp: u32, report_stamp: u32) -> (res: bool)
    ensures
        res == (list_stamp < report_stamp),
{
    list_stamp < report_stamp
}

/// Whether the player may drag `card`: a card in hand (to play it) or a
/// creature offered as a blocker (to block with it).
pub fn drag_allowed(board: &Board, list: &Vec<AvailableAction>, card: ObjectId) -> (res: bool)
    ensures
        res == (board.player_hand_seq().contains(card) || offered(list@, Offer::Block).contains(card)),
{
    if board.in_hand(card) {
        return true;
    }
    let b = blockers(list);
    contains_id(&b, card)
}

} // verus!
