//! The game log as the player reads it: which message describes an entry,
//! and the arguments the message is filled in with.
use vstd::prelude::*;
use crate::ids::{ArchetypeId, ObjectId};

verus! {

/// A zone of a player's side.
#[derive(Debug, Clone)]
pub enum Zone {
    Deck,
    Hand,
    Field,
    Graveyard,
    /// A zone the client does not lay out, with the engine's name for it.
    Other { name: String },
}

/// A zone and the player whose zone it is.
#[derive(Debug, Clone)]
pub struct PlayerZone {
    pub player: u8,
    pub zone: Zone,
}

/// Why a card moved between zones.
#[derive(Debug, Clone, Copy, PartialEq, Eq, Structural)]
pub enum MoveReason {
    Draw,
    Casted,
    Destroyed,
    Discarded,
    /// Any other reason the engine gives.
    Other,
}

/// A card as a log entry names it: the object and its archetype.
#[derive(Debug, Clone, Copy, PartialEq, Eq, Structural)]
pub struct CardRef {
    pub id: ObjectId,
    pub archetype: ArchetypeId,
}

/// An entry of the game log, as the client receives it. Phases and shard
/// colours are given by the engine's name for them.
#[derive(Debug, Clone)]
pub enum GameLog {
    GameStarted,
    GameEnded { winner: Option<u8> },
    TurnChanged { player: u8, turn: u32 },
    PhaseChanged { phase: String },
    LifeChanged { player: u8, life: u32 },
    DamageTaken { player: u8, amount: u32 },
    DeckShuffled { player: u8 },
    EffectActivated { source: CardRef },
    CardMoved { player: u8, card: CardRef, from: PlayerZone, to: PlayerZone, reason: MoveReason },
    CardTargeted { source: CardRef, target: CardRef },
    ShardsEarned { player: u8, color: String, amount: u32 },
    ShardsSpent { player: u8, color: String, amount: u32 },
    CardTokenGenerated { card: CardRef },
    CardTokenDestroyed { card: CardRef },
    AttackDeclared { attacker: CardRef },
    CreatureAttackedCreature { attacker: CardRef, blocker: CardRef },
    CreatureAttackedPlayer { attacker: CardRef, player: u8 },
    /// An entry the log does not show.
    Other,
}

/// A value a log message is filled in with.
#[derive(Debug, Clone)]
pub enum LogValue {
    /// Plain text.
    Text(String),
    /// A number.
    Number(u32),
    /// The translation of the message with this id (a card's name).
    Message(String),
}

/// A message id and the named values it is filled in with, in the order
/// they were set.
#[derive(Debug, Clone)]
pub struct LogMessage {
    pub id: String,
    pub args: Vec<(String, LogValue)>,
}

/// A log value, as a mathematical value.
pub enum Arg {
    Text(Seq<char>),
    Number(u32),
    Message(Seq<char>),
}

impl LogValue {
    pub open spec fn arg(&self) -> Arg {
        match self {
            LogValue::Text(s) => Arg::Text(s@),
            LogValue::Number(n) => Arg::Number(*n),
            LogValue::Message(s) => Arg::Message(s@),
        }
    }
}

/// The arguments of a message, as mathematical values.
pub open spec fn args_of(v: Seq<(String, LogValue)>) -> Seq<(Seq<char>, Arg)> {
    Seq::new(v.len(), |i: int| (v[i].0@, v[i].1.arg()))
}

/// `s` with ASCII capitals made small, as `to_ascii_lowercase` does.
pub open spec fn ascii_lower(s: Seq<char>) -> Seq<char> {
    Seq::new(
        s.len(),
        |i: int|
            if 'A' <= s[i] && s[i] <= 'Z' {
                ((s[i] as u32) + 32) as char
            } else {
                s[i]
            },
    )
}

/// The lowercase name of a zone.
pub open spec fn zone_name(z: Zone) -> Seq<char> {
    match z {
        Zone::Deck => "deck"@,
        Zone::Hand => "hand"@,
        Zone::Field => "field"@,
        Zone::Graveyard => "graveyard"@,
        Zone::Other { name } => ascii_lower(name@),
    }
}

/// How the player of seat `viewer` sees seat `p`.
pub open spec fn side(p: u8, viewer: u8) -> Arg {
    Arg::Text(if p == viewer { "you"@ } else { "opponent"@ })
}

/// The safe name of the first archetype `id` in `names`.
pub open spec fn safe_name(names: Seq<(ArchetypeId, String)>, id: ArchetypeId) -> Option<Seq<char>>
    decreases names.len(),
{
    if names.len() == 0 {
        None
    } else if names[0].0 == id {
        Some(names[0].1@)
    } else {
        safe_name(names.drop_first(), id)
    }
}

/// The name of the card `id`, as a message to translate, if the catalog
/// holds it.
pub open spec fn card_name(names: Seq<(ArchetypeId, String)>, id: ArchetypeId) -> Option<Arg> {
    match safe_name(names, id) {
        Some(n) => Some(Arg::Message("card-"@ + n)),
        None => None,
    }
}

/// The name of the card `id`, or `unknown`.
pub open spec fn card_or_unknown(names: Seq<(ArchetypeId, String)>, id: ArchetypeId) -> Arg {
    match card_name(names, id) {
        Some(a) => a,
        None => Arg::Text("unknown"@),
    }
}

pub open spec fn one(k: Seq<char>, v: Arg) -> Seq<(Seq<char>, Arg)> {
    Seq::empty().push((k, v))
}

pub open spec fn two(k1: Seq<char>, v1: Arg, k2: Seq<char>, v2: Arg) -> Seq<(Seq<char>, Arg)> {
    one(k1, v1).push((k2, v2))
}

/// The message that describes `log` to the player of seat `viewer`, with
/// its arguments, where `names` gives the catalog's safe name of each
/// archetype; none for entries the log does not show.
pub open spec fn log_message(log: GameLog, viewer: u8, names: Seq<(ArchetypeId, String)>) -> Option<
    (Seq<char>, Seq<(Seq<char>, Arg)>),
> {
    match log {
        GameLog::GameStarted => Some(("log-game-started"@, Seq::empty())),
        GameLog::GameEnded { winner } => match winner {
            Some(w) => Some(("log-game-ended"@, one("winner"@, side(w, viewer)))),
            None => Some(("log-game-ended-draw"@, Seq::empty())),
        },
        GameLog::TurnChanged { player, turn } => Some(
            ("log-turn-changed"@, two("player"@, side(player, viewer), "turn"@, Arg::Number(turn))),
        ),
        GameLog::PhaseChanged { phase } => Some(
            ("log-phase-changed"@, one("phase"@, Arg::Text(ascii_lower(phase@)))),
        ),
        GameLog::LifeChanged { player, life } => Some(
            ("log-life-changed"@, two("player"@, side(player, viewer), "life"@, Arg::Number(life))),
        ),
        GameLog::DamageTaken { player, amount } => Some(
            (
                "log-damage-taken"@,
                two("player"@, side(player, viewer), "amount"@, Arg::Number(amount)),
            ),
        ),
        GameLog::DeckShuffled { player } => Some(
            ("log-deck-shuffled"@, one("player"@, side(player, viewer))),
        ),
        GameLog::EffectActivated { source } => Some(
            (
                "log-effect-activated"@,
                match card_name(names, source.archetype) {
                    Some(a) => one("source"@, a),
                    None => Seq::empty(),
                },
            ),
        ),
        GameLog::CardMoved { player, card, from, to, reason } => {
            let base = two("player"@, side(player, viewer), "card"@, card_or_unknown(names, card.archetype));
            match reason {
                MoveReason::Draw => Some(("log-card-drawn"@, base)),
                MoveReason::Casted => Some(("log-card-played"@, base)),
                MoveReason::Discarded => Some(("log-card-discarded"@, base)),
                _ => if reason == MoveReason::Destroyed && to.zone is Graveyard {
                    Some(("log-card-destroyed-to-graveyard"@, base))
                } else {
                    Some(
                        (
                            "log-card-moved"@,
                            base.push(("from-player"@, side(from.player, viewer))).push(
                                ("from-zone"@, Arg::Text(zone_name(from.zone))),
                            ).push(("to-player"@, side(to.player, viewer))).push(
                                ("to-zone"@, Arg::Text(zone_name(to.zone))),
                            ),
                        ),
                    )
                },
            }
        },
        GameLog::CardTargeted { source, target } => Some(
            (
                "log-card-targeted"@,
                two(
                    "source"@,
                    card_or_unknown(names, source.archetype),
                    "target"@,
                    card_or_unknown(names, target.archetype),
                ),
            ),
        ),
        GameLog::ShardsEarned { player, color, amount } => Some(
            (
                "log-shards-earned"@,
                two("player"@, side(player, viewer), "color"@, Arg::Text(ascii_lower(color@))).push(
                    ("amount"@, Arg::Number(amount)),
                ),
            ),
        ),
        GameLog::ShardsSpent { player, color, amount } => Some(
            (
                "log-shards-spent"@,
                two("player"@, side(player, viewer), "color"@, Arg::Text(ascii_lower(color@))).push(
                    ("amount"@, Arg::Number(amount)),
                ),
            ),
        ),
        GameLog::CardTokenGenerated { card } => Some(
            ("log-card-token-generated"@, one("card"@, card_or_unknown(names, card.archetype))),
        ),
        GameLog::CardTokenDestroyed { card } => Some(
            ("log-card-token-destroyed"@, one("card"@, card_or_unknown(names, card.archetype))),
        ),
        GameLog::AttackDeclared { attacker } => Some(
            ("log-attack-declared"@, one("attacker"@, card_or_unknown(names, attacker.archetype))),
        ),
        GameLog::CreatureAttackedCreature { attacker, blocker } => Some(
            (
                "log-creature-attacked-creature"@,
                two(
                    "attacker"@,
                    card_or_unknown(names, attacker.archetype),
                    "blocker"@,
                    card_or_unknown(names, blocker.archetype),
                ),
            ),
        ),
        GameLog::CreatureAttackedPlayer { attacker, player } => Some(
            (
                "log-creature-attacked-player"@,
                two(
                    "attacker"@,
                    card_or_unknown(names, attacker.archetype),
                    "player"@,
                    side(player, viewer),
                ),
            ),
        ),
        GameLog::Other => None,
    }
}

/// The seat a log entry reports on as its `player`, if it names one.
pub open spec fn player_named(log: GameLog) -> Option<u8> {
    match log {
        GameLog::TurnChanged { player, .. } => Some(player),
        GameLog::LifeChanged { player, .. } => Some(player),
        GameLog::DamageTaken { player, .. } => Some(player),
        GameLog::DeckShuffled { player } => Some(player),
        GameLog::CardMoved { player, .. } => Some(player),
        GameLog::ShardsEarned { player, .. } => Some(player),
        GameLog::ShardsSpent { player, .. } => Some(player),
        GameLog::CreatureAttackedPlayer { player, .. } => Some(player),
        _ => None,
    }
}

/// The words a seat is called by in a message read by the player of seat
/// `viewer`.
pub open spec fn seat_word(p: u8, viewer: u8) -> Seq<char> {
    if p == viewer {
        "you"@
    } else {
        "opponent"@
    }
}

/// The arguments of the message for `log`; none when it has no message.
pub open spec fn message_args(log: GameLog, viewer: u8, names: Seq<(ArchetypeId, String)>) -> Seq<
    (Seq<char>, Arg),
> {
    match log_message(log, viewer, names) {
        Some(m) => m.1,
        None => Seq::empty(),
    }
}

/// Every log entry that names a player tells it, under the argument
/// `player`, as `you` exactly when that player is the viewer and as
/// `opponent` otherwise; no other argument is called `player`.
pub proof fn lemma_log_side_rule(log: GameLog, viewer: u8, names: Seq<(ArchetypeId, String)>)
    ensures
        player_named(log) is Some ==> {
            let p = player_named(log)->0;
            let args = message_args(log, viewer, names);
            &&& log_message(log, viewer, names) is Some
            &&& exists|i: int|
                0 <= i < args.len() && #[trigger] args[i] == ("player"@, Arg::Text(seat_word(p, viewer)))
            &&& forall|i: int|
                0 <= i < args.len() && (#[trigger] args[i]).0 == "player"@ ==> args[i].1 == Arg::Text(
                    seat_word(p, viewer),
                )
        },
{
    reveal_strlit("player");
    reveal_strlit("turn");
    reveal_strlit("life");
    reveal_strlit("amount");
    reveal_strlit("card");
    reveal_strlit("color");
    reveal_strlit("attacker");
    reveal_strlit("from-player");
    reveal_strlit("from-zone");
    reveal_strlit("to-player");
    reveal_strlit("to-zone");
    if player_named(log) is Some {
        let args = message_args(log, viewer, names);
        match log {
            GameLog::CreatureAttackedPlayer { .. } => {
                assert(args[1].0 == "player"@);
                assert(args[0].0 != "player"@) by {
                    assert(args[0].0[0] != "player"@[0]);
                }
            },
            GameLog::CardMoved { .. } => {
                assert(args[0].0 == "player"@);
                assert(args[1].0 != "player"@) by {
                    assert(args[1].0[0] != "player"@[0]);
                }
                assert forall|i: int| 2 <= i < args.len() implies args[i].0 != "player"@ by {
                    assert(args[i].0.len() != 6 || args[i].0[0] != 'p' || args[i].0[1] != 'l');
                }
            },
            _ => {
                assert(args[0].0 == "player"@);
                assert forall|i: int| 1 <= i < args.len() implies args[i].0 != "player"@ by {
                    assert(args[i].0.len() != 6 || args[i].0[0] != 'p');
                }
            },
        }
    }
}

/// The same rule for the other seats a log entry names: the winner of a
/// game and the owners of the zones a card moves between are told as `you`
/// exactly when they are the viewer, and as `opponent` otherwise.
pub proof fn lemma_log_other_seats(log: GameLog, viewer: u8, names: Seq<(ArchetypeId, String)>)
    ensures
        log matches GameLog::GameEnded { winner: Some(w) } ==> message_args(log, viewer, names) == seq![
            ("winner"@, Arg::Text(seat_word(w, viewer))),
        ],
        log matches GameLog::CardMoved { from, to, .. } ==> forall|i: int|
            0 <= i < message_args(log, viewer, names).len() ==> {
                let e = #[trigger] message_args(log, viewer, names)[i];
                &&& e.0 == "from-player"@ ==> e.1 == Arg::Text(seat_word(from.player, viewer))
                &&& e.0 == "to-player"@ ==> e.1 == Arg::Text(seat_word(to.player, viewer))
            },
{
    reveal_strlit("player");
    reveal_strlit("card");
    reveal_strlit("from-player");
    reveal_strlit("from-zone");
    reveal_strlit("to-player");
    reveal_strlit("to-zone");
    if log is GameEnded {
        assert(message_args(log, viewer, names) =~= message_args(log, viewer, names));
    }
    match log {
        GameLog::CardMoved { player, card, from, to, reason } => {
            let args = message_args(log, viewer, names);
            assert("player"@.len() == 6 && "card"@.len() == 4 && "from-zone"@.len() == 9);
            assert("to-zone"@.len() == 7 && "from-player"@.len() == 11 && "to-player"@.len() == 9);
            assert("from-zone"@[0] == 'f' && "to-player"@[0] == 't');
            let base = two("player"@, side(player, viewer), "card"@, card_or_unknown(names, card.archetype));
            assert(args.len() == 2 || args == base.push(("from-player"@, side(from.player, viewer))).push(
                ("from-zone"@, Arg::Text(zone_name(from.zone))),
            ).push(("to-player"@, side(to.player, viewer))).push(("to-zone"@, Arg::Text(zone_name(to.zone)))));
            assert forall|i: int| 0 <= i < args.len() implies {
                let e = #[trigger] args[i];
                &&& e.0 == "from-player"@ ==> e.1 == Arg::Text(seat_word(from.player, viewer))
                &&& e.0 == "to-player"@ ==> e.1 == Arg::Text(seat_word(to.player, viewer))
            } by {
                if i == 0 {
                    assert(args[i].0 == "player"@);
                } else if i == 1 {
                    assert(args[i].0 == "card"@);
                } else if i == 3 {
                    assert(args[i].0 == "from-zone"@);
                } else if i == 5 {
                    assert(args[i].0 == "to-zone"@);
                }
            }
        },
        _ => {},
    }
}

// ---------------------------------------------------------------------------
// Executable parts.
fn text(s: &str) -> (res: LogValue)
    ensures
        res.arg() == Arg::Text(s@),
{
    LogValue::Text(s.to_owned())
}

fn side_value(p: u8, viewer: u8) -> (res: LogValue)
    ensures
        res.arg() == side(p, viewer),
{
    if p == viewer {
        text("you")
    } else {
        text("opponent")
    }
}

/// `str::to_ascii_lowercase`: the text with `A` to `Z` made small and every
/// other character kept.
#[verifier::external_body]
fn lower(s: &String) -> (res: String)
    ensures
        res@ == ascii_lower(s@),
{
    s.to_ascii_lowercase()
}

fn zone_value(z: &Zone) -> (res: LogValue)
    ensures
        res.arg() == Arg::Text(zone_name(*z)),
{
    match z {
        Zone::Deck => text("deck"),
        Zone::Hand => text("hand"),
        Zone::Field => text("field"),
        Zone::Graveyard => text("graveyard"),
        Zone::Other { name } => LogValue::Text(lower(name)),
    }
}

fn find_safe_name(names: &Vec<(ArchetypeId, String)>, id: ArchetypeId) -> (res: Option<&String>)
    ensures
        match res {
            Some(n) => safe_name(names@, id) == Some(n@),
            None => safe_name(names@, id) is None,
        },
{
    let mut i: usize = 0;
    assert(names@.skip(0) =~= names@);
    while i < names.len()
        invariant
            i <= names.len(),
            safe_name(names@, id) == safe_name(names@.skip(i as int), id),
        decreases names.len() - i,
    {
        proof {
            let rest = names@.skip(i as int);
            assert(rest[0] == names@[i as int]);
            assert(rest.drop_first() =~= names@.skip(i + 1));
        }
        if names[i].0 == id {
            return Some(&names[i].1);
        }
        i += 1;
    }
    assert(names@.skip(i as int) =~= Seq::<(ArchetypeId, String)>::empty());
    None
}

fn card_value(names: &Vec<(ArchetypeId, String)>, id: ArchetypeId) -> (res: Option<LogValue>)
    ensures
        match res {
            Some(v) => card_name(names@, id) == Some(v.arg()),
            None => card_name(names@, id) is None,
        },
{
    match find_safe_name(names, id) {
        Some(n) => {
            let mut m = "card-".to_owned();
            m.append(n.as_str());
            Some(LogValue::Message(m))
        },
        None => None,
    }
}

fn card_or_unknown_value(names: &Vec<(ArchetypeId, String)>, id: ArchetypeId) -> (res: LogValue)
    ensures
        res.arg() == card_or_unknown(names@, id),
{
    match card_value(names, id) {
        Some(v) => v,
        None => text("unknown"),
    }
}

fn push_arg(args: &mut Vec<(String, LogValue)>, key: &str, v: LogValue)
    ensures
        args_of(final(args)@) == args_of(old(args)@).push((key@, v.arg())),
{
    args.push((key.to_owned(), v));
    assert(args_of(args@) =~= args_of(old(args)@).push((key@, v.arg())));
}

/// The message that describes `log` to the player of seat `viewer` (see
/// [`log_message`]); `names` gives the catalog's safe name of each
/// archetype.
pub fn translate_log(log: &GameLog, viewer: u8, names: &Vec<(ArchetypeId, String)>) -> (res: Option<
    LogMessage,
>)
    ensures
        match res {
            Some(m) => log_message(*log, viewer, names@) == Some((m.id@, args_of(m.args@))),
            None => log_message(*log, viewer, names@) is None,
        },
{
    let mut args: Vec<(String, LogValue)> = Vec::new();
    assert(args_of(args@) =~= Seq::<(Seq<char>, Arg)>::empty());
    let id: &str = match log {
        GameLog::GameStarted => "log-game-started",
        GameLog::GameEnded { winner } => match winner {
            Some(w) => {
                push_arg(&mut args, "winner", side_value(*w, viewer));
                "log-game-ended"
            },
            None => "log-game-ended-draw",
        },
        GameLog::TurnChanged { player, turn } => {
            push_arg(&mut args, "player", side_value(*player, viewer));
            push_arg(&mut args, "turn", LogValue::Number(*turn));
            "log-turn-changed"
        },
        GameLog::PhaseChanged { phase } => {
            push_arg(&mut args, "phase", LogValue::Text(lower(phase)));
            "log-phase-changed"
        },
        GameLog::LifeChanged { player, life } => {
            push_arg(&mut args, "player", side_value(*player, viewer));
            push_arg(&mut args, "life", LogValue::Number(*life));
            "log-life-changed"
        },
        GameLog::DamageTaken { player, amount } => {
            push_arg(&mut args, "player", side_value(*player, viewer));
            push_arg(&mut args, "amount", LogValue::Number(*amount));
            "log-damage-taken"
        },
        GameLog::DeckShuffled { player } => {
            push_arg(&mut args, "player", side_value(*player, viewer));
            "log-deck-shuffled"
        },
        GameLog::EffectActivated { source } => {
            match card_value(names, source.archetype) {
                Some(v) => push_arg(&mut args, "source", v),
                None => {},
            }
            "log-effect-activated"
        },
        GameLog::CardMoved { player, card, from, to, reason } => {
            push_arg(&mut args, "player", side_value(*player, viewer));
            push_arg(&mut args, "card", card_or_unknown_value(names, card.archetype));
            match reason {
                MoveReason::Draw => "log-card-drawn",
                MoveReason::Casted => "log-card-played",
                MoveReason::Discarded => "log-card-discarded",
                _ => {
                    let to_graveyard = match to.zone {
                        Zone::Graveyard => true,
                        _ => false,
                    };
                    if *reason == MoveReason::Destroyed && to_graveyard {
                        "log-card-destroyed-to-graveyard"
                    } else {
                        push_arg(&mut args, "from-player", side_value(from.player, viewer));
                        push_arg(&mut args, "from-zone", zone_value(&from.zone));
                        push_arg(&mut args, "to-player", side_value(to.player, viewer));
                        push_arg(&mut args, "to-zone", zone_value(&to.zone));
                        "log-card-moved"
                    }
                },
            }
        },
        GameLog::CardTargeted { source, target } => {
            push_arg(&mut args, "source", card_or_unknown_value(names, source.archetype));
            push_arg(&mut args, "target", card_or_unknown_value(names, target.archetype));
            "log-card-targeted"
        },
        GameLog::ShardsEarned { player, color, amount } => {
            push_arg(&mut args, "player", side_value(*player, viewer));
            push_arg(&mut args, "color", LogValue::Text(lower(color)));
            push_arg(&mut args, "amount", LogValue::Number(*amount));
            "log-shards-earned"
        },
        GameLog::ShardsSpent { player, color, amount } => {
            push_arg(&mut args, "player", side_value(*player, viewer));
            push_arg(&mut args, "color", LogValue::Text(lower(color)));
            push_arg(&mut args, "amount", LogValue::Number(*amount));
            "log-shards-spent"
        },
        GameLog::CardTokenGenerated { card } => {
            push_arg(&mut args, "card", card_or_unknown_value(names, card.archetype));
            "log-card-token-generated"
        },
        GameLog::CardTokenDestroyed { card } => {
            push_arg(&mut args, "card", card_or_unknown_value(names, card.archetype));
            "log-card-token-destroyed"
        },
        GameLog::AttackDeclared { attacker } => {
            push_arg(&mut args, "attacker", card_or_unknown_value(names, attacker.archetype));
            "log-attack-declared"
        },
        GameLog::CreatureAttackedCreature { attacker, blocker } => {
            push_arg(&mut args, "attacker", card_or_unknown_value(names, attacker.archetype));
            push_arg(&mut args, "blocker", card_or_unknown_value(names, blocker.archetype));
            "log-creature-attacked-creature"
        },
        GameLog::CreatureAttackedPlayer { attacker, player } => {
            push_arg(&mut args, "attacker", card_or_unknown_value(names, attacker.archetype));
            push_arg(&mut args, "player", side_value(*player, viewer));
            "log-creature-attacked-player"
        },
        GameLog::Other => {
            return None;
        },
    };
    Some(LogMessage { id: id.to_owned(), args })
}

} // verus!
