use kodecks_client::ids::{ArchetypeId, ObjectId};
use kodecks_client::log::{translate_log, CardRef, GameLog, LogMessage, LogValue, MoveReason, PlayerZone, Zone};

fn names() -> Vec<(ArchetypeId, String)> {
    vec![(ArchetypeId(1), "vigilant-lynx".to_string()), (ArchetypeId(2), "moonlit-gecko".to_string())]
}

fn card(id: u64, archetype: u32) -> CardRef {
    CardRef { id: ObjectId(id), archetype: ArchetypeId(archetype) }
}

fn text(s: &str) -> LogValue {
    LogValue::Text(s.to_string())
}

fn args(m: &LogMessage) -> Vec<(String, String)> {
    m.args
        .iter()
        .map(|(k, v)| {
            let v = match v {
                LogValue::Text(t) => format!("text:{t}"),
                LogValue::Number(n) => format!("number:{n}"),
                LogValue::Message(id) => format!("message:{id}"),
            };
            (k.clone(), v)
        })
        .collect()
}

fn pairs(v: &[(&str, &str)]) -> Vec<(String, String)> {
    v.iter().map(|(a, b)| (a.to_string(), b.to_string())).collect()
}

#[test]
fn test_game_started_and_ended() {
    let m = translate_log(&GameLog::GameStarted, 0, &names()).unwrap();
    assert_eq!(m.id, "log-game-started");
    assert!(m.args.is_empty());
    let m = translate_log(&GameLog::GameEnded { winner: Some(1) }, 0, &names()).unwrap();
    assert_eq!(m.id, "log-game-ended");
    assert_eq!(args(&m), pairs(&[("winner", "text:opponent")]));
    let m = translate_log(&GameLog::GameEnded { winner: None }, 0, &names()).unwrap();
    assert_eq!(m.id, "log-game-ended-draw");
}

#[test]
fn test_turn_and_phase() {
    let m = translate_log(&GameLog::TurnChanged { player: 0, turn: 3 }, 0, &names()).unwrap();
    assert_eq!(m.id, "log-turn-changed");
    assert_eq!(args(&m), pairs(&[("player", "text:you"), ("turn", "number:3")]));
    let m = translate_log(&GameLog::PhaseChanged { phase: "Main".to_string() }, 0, &names()).unwrap();
    assert_eq!(m.id, "log-phase-changed");
    assert_eq!(args(&m), pairs(&[("phase", "text:main")]));
}

#[test]
fn test_life_damage_and_shuffle() {
    let m = translate_log(&GameLog::LifeChanged { player: 1, life: 2500 }, 1, &names()).unwrap();
    assert_eq!(args(&m), pairs(&[("player", "text:you"), ("life", "number:2500")]));
    let m = translate_log(&GameLog::DamageTaken { player: 0, amount: 300 }, 1, &names()).unwrap();
    assert_eq!(m.id, "log-damage-taken");
    assert_eq!(args(&m), pairs(&[("player", "text:opponent"), ("amount", "number:300")]));
    let m = translate_log(&GameLog::DeckShuffled { player: 0 }, 0, &names()).unwrap();
    assert_eq!(m.id, "log-deck-shuffled");
}

#[test]
fn test_effect_activated_names_the_source_if_known() {
    let m = translate_log(&GameLog::EffectActivated { source: card(5, 2) }, 0, &names()).unwrap();
    assert_eq!(m.id, "log-effect-activated");
    assert_eq!(args(&m), pairs(&[("source", "message:card-moonlit-gecko")]));
    let m = translate_log(&GameLog::EffectActivated { source: card(5, 9) }, 0, &names()).unwrap();
    assert!(m.args.is_empty());
}

fn moved(reason: MoveReason, to: Zone) -> GameLog {
    GameLog::CardMoved {
        player: 0,
        card: card(7, 1),
        from: PlayerZone { player: 0, zone: Zone::Hand },
        to: PlayerZone { player: 1, zone: to },
        reason,
    }
}

#[test]
fn test_card_moved() {
    let m = translate_log(&moved(MoveReason::Draw, Zone::Hand), 0, &names()).unwrap();
    assert_eq!(m.id, "log-card-drawn");
    assert_eq!(args(&m), pairs(&[("player", "text:you"), ("card", "message:card-vigilant-lynx")]));
    assert_eq!(translate_log(&moved(MoveReason::Casted, Zone::Field), 0, &names()).unwrap().id, "log-card-played");
    assert_eq!(translate_log(&moved(MoveReason::Discarded, Zone::Graveyard), 0, &names()).unwrap().id, "log-card-discarded");
    assert_eq!(
        translate_log(&moved(MoveReason::Destroyed, Zone::Graveyard), 0, &names()).unwrap().id,
        "log-card-destroyed-to-graveyard"
    );
    let m = translate_log(&moved(MoveReason::Destroyed, Zone::Deck), 0, &names()).unwrap();
    assert_eq!(m.id, "log-card-moved");
    assert_eq!(
        args(&m),
        pairs(&[
            ("player", "text:you"),
            ("card", "message:card-vigilant-lynx"),
            ("from-player", "text:you"),
            ("from-zone", "text:hand"),
            ("to-player", "text:opponent"),
            ("to-zone", "text:deck"),
        ])
    );
    let m = translate_log(&moved(MoveReason::Other, Zone::Other { name: "Colosseum".to_string() }), 0, &names()).unwrap();
    assert_eq!(args(&m)[5], ("to-zone".to_string(), "text:colosseum".to_string()));
}

#[test]
fn test_unknown_cards_are_named_unknown() {
    let m = translate_log(&GameLog::CardTargeted { source: card(1, 1), target: card(2, 42) }, 0, &names()).unwrap();
    assert_eq!(m.id, "log-card-targeted");
    assert_eq!(args(&m), pairs(&[("source", "message:card-vigilant-lynx"), ("target", "text:unknown")]));
    let m = translate_log(&GameLog::CardTokenGenerated { card: card(3, 42) }, 0, &names()).unwrap();
    assert_eq!(args(&m), pairs(&[("card", "text:unknown")]));
    let m = translate_log(&GameLog::CardTokenDestroyed { card: card(3, 2) }, 0, &names()).unwrap();
    assert_eq!(m.id, "log-card-token-destroyed");
}

#[test]
fn test_shards_and_attacks() {
    let m = translate_log(&GameLog::ShardsEarned { player: 1, color: "RUBY".to_string(), amount: 2 }, 0, &names()).unwrap();
    assert_eq!(m.id, "log-shards-earned");
    assert_eq!(args(&m), pairs(&[("player", "text:opponent"), ("color", "text:ruby"), ("amount", "number:2")]));
    let m = translate_log(&GameLog::ShardsSpent { player: 0, color: "Jade".to_string(), amount: 1 }, 0, &names()).unwrap();
    assert_eq!(m.id, "log-shards-spent");
    let m = translate_log(&GameLog::AttackDeclared { attacker: card(1, 1) }, 0, &names()).unwrap();
    assert_eq!(args(&m), pairs(&[("attacker", "message:card-vigilant-lynx")]));
    let m = translate_log(&GameLog::CreatureAttackedCreature { attacker: card(1, 1), blocker: card(2, 2) }, 0, &names()).unwrap();
    assert_eq!(m.id, "log-creature-attacked-creature");
    assert_eq!(args(&m), pairs(&[("attacker", "message:card-vigilant-lynx"), ("blocker", "message:card-moonlit-gecko")]));
    let m = translate_log(&GameLog::CreatureAttackedPlayer { attacker: card(1, 1), player: 0 }, 0, &names()).unwrap();
    assert_eq!(args(&m), pairs(&[("attacker", "message:card-vigilant-lynx"), ("player", "text:you")]));
}

#[test]
fn test_other_entries_are_not_shown() {
    assert!(translate_log(&GameLog::Other, 0, &names()).is_none());
    let _ = text("unused");
}
