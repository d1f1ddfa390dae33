use kodecks_client::board::Board;
use kodecks_client::client::{
    action_buttons, frame_overlay, handle_player_events, preloads_moves, ready_for_report,
    take_server_event, drag_allowed, replaces_moves, ActionButton, FrameMaterial, GameScene, GameSignal, KeysPressed, LogEvent,
    PlayerEvent, Target,
};
use kodecks_client::game::{
    Action, AvailableAction, CardView, Endgame, FieldBattleState, FieldCard, FieldState, GameView,
    PlayerView,
};
use kodecks_client::ids::{ArchetypeId, ObjectId};
use kodecks_client::log::{CardRef, GameLog, MoveReason, PlayerZone, Zone};

fn id(n: u64) -> ObjectId {
    ObjectId(n)
}

fn fc(n: u64, state: FieldState, battle: Option<FieldBattleState>) -> FieldCard {
    FieldCard { id: id(n), state, battle, power: Some(1), score: 0 }
}

fn side(field: Vec<FieldCard>) -> PlayerView {
    PlayerView { hand: vec![], life: 10, shards: 0, hand_scores: vec![], field, abilities_score: 0 }
}

/// The player has 10 and 11 (11 exhausted); the opponent attacks with 20.
fn board() -> Board {
    let mut b = Board::new();
    let v = GameView {
        players: vec![
            side(vec![fc(10, FieldState::Active, None), fc(11, FieldState::Exhausted, None)]),
            side(vec![fc(20, FieldState::Active, Some(FieldBattleState::Attacking))]),
        ],
        cards: Vec::<CardView>::new(),
        initial_life: 10,
        endgame: Endgame::Running,
    };
    b.update(&v, 0, true);
    b
}

fn no_keys() -> KeysPressed {
    KeysPressed { continue_key: false, attack: false, all_attack: false, block: false }
}

#[test]
fn test_action_buttons() {
    let mut b = board();
    let list = vec![
        AvailableAction::Attack { attackers: vec![id(10)] },
        AvailableAction::Block { attackers: vec![id(20)], blockers: vec![id(10)] },
        AvailableAction::CastCard { cards: vec![] },
        AvailableAction::EndTurn,
    ];
    // The opponent's 20 is a recorded attacker, so one attacker is shown.
    assert_eq!(
        action_buttons(&b, &list),
        vec![ActionButton::Attack(1), ActionButton::Continue, ActionButton::EndTurn]
    );
    b.toggle_blocker(id(10), Some(id(20)));
    assert_eq!(action_buttons(&b, &list)[1], ActionButton::Block(1));
    let empty = Board::new();
    assert_eq!(action_buttons(&empty, &list)[0], ActionButton::AllAttack);
}

#[test]
fn test_frame_overlay() {
    let mut b = board();
    let list = vec![
        AvailableAction::SelectCard { cards: vec![id(1)] },
        AvailableAction::CastCard { cards: vec![id(2)] },
        AvailableAction::Attack { attackers: vec![id(10)] },
        AvailableAction::Block { attackers: vec![id(20)], blockers: vec![id(10)] },
    ];
    assert_eq!(frame_overlay(&b, &list, id(2), true), FrameMaterial::Active);
    assert_eq!(frame_overlay(&b, &list, id(1), true), FrameMaterial::Select);
    assert_eq!(frame_overlay(&b, &list, id(3), true), FrameMaterial::Shadow);
    assert_eq!(frame_overlay(&b, &list, id(1), false), FrameMaterial::SelectSmall);
    assert_eq!(frame_overlay(&b, &list, id(20), false), FrameMaterial::AttackActive);
    assert_eq!(frame_overlay(&b, &list, id(10), false), FrameMaterial::Attack);
    assert_eq!(frame_overlay(&b, &list, id(11), false), FrameMaterial::Exhausted);
    assert_eq!(frame_overlay(&b, &list, id(30), false), FrameMaterial::Normal);
    b.toggle_blocker(id(10), Some(id(20)));
    let blocks_only = vec![AvailableAction::Block { attackers: vec![id(20)], blockers: vec![id(10), id(11)] }];
    assert_eq!(frame_overlay(&b, &blocks_only, id(10), false), FrameMaterial::BlockActive);
    assert_eq!(frame_overlay(&b, &blocks_only, id(11), false), FrameMaterial::Block);
}

#[test]
fn test_button_presses() {
    let mut b = board();
    let list = vec![AvailableAction::Attack { attackers: vec![id(10), id(11)] }, AvailableAction::EndTurn];
    let out = handle_player_events(&mut b, &list, &vec![PlayerEvent::ButtonPressed(ActionButton::EndTurn)], no_keys());
    assert_eq!(out.action, Some(Action::EndTurn));
    assert_eq!(out.handled, 1);
    assert!(!out.finished);
    assert!(out.refresh_moves);

    let out = handle_player_events(&mut b, &list, &vec![PlayerEvent::ButtonPressed(ActionButton::AllAttack)], no_keys());
    assert_eq!(out.action, Some(Action::Attack { attackers: vec![id(10), id(11)] }));

    let out = handle_player_events(&mut b, &list, &vec![PlayerEvent::ButtonPressed(ActionButton::Attack(1))], no_keys());
    assert_eq!(out.action, Some(Action::Attack { attackers: vec![id(20)] }));
}

#[test]
fn test_clicks_toggle_then_a_drop_casts() {
    let mut b = board();
    let list = vec![
        AvailableAction::CastCard { cards: vec![id(5)] },
        AvailableAction::Attack { attackers: vec![id(10)] },
        AvailableAction::SelectCard { cards: vec![id(7)] },
    ];
    let events = vec![
        PlayerEvent::CardClicked(id(10)),
        PlayerEvent::CardDroppedOnField(id(6)),
        PlayerEvent::CardDroppedOnField(id(5)),
        PlayerEvent::CardClicked(id(7)),
    ];
    let out = handle_player_events(&mut b, &list, &events, no_keys());
    assert_eq!(out.action, Some(Action::CastCard { card: id(5) }));
    assert_eq!(out.handled, 3);
    assert!(!out.refresh_moves);
    assert_eq!(b.attackers(), vec![id(10), id(20)]);

    let out = handle_player_events(&mut b, &list, &vec![PlayerEvent::CardClicked(id(7))], no_keys());
    assert_eq!(out.action, Some(Action::SelectCard { card: id(7) }));
}

#[test]
fn test_drop_on_a_card_sets_a_block() {
    let mut b = board();
    let list = vec![AvailableAction::Block { attackers: vec![id(20)], blockers: vec![id(10)] }];
    let out = handle_player_events(&mut b, &list, &vec![PlayerEvent::CardDropped(id(10), id(20))], no_keys());
    assert_eq!(out.action, None);
    assert!(out.finished);
    assert_eq!(b.blocking_pairs(), vec![(id(20), id(10))]);
    let out = handle_player_events(&mut b, &list, &vec![PlayerEvent::ButtonPressed(ActionButton::Block(1))], no_keys());
    assert_eq!(out.action, Some(Action::Block { pairs: vec![(id(20), id(10))] }));
    let out = handle_player_events(&mut b, &list, &vec![PlayerEvent::CardClicked(id(10))], no_keys());
    assert_eq!(out.action, None);
    assert!(b.blocking_pairs().is_empty());
}

#[test]
fn test_keys() {
    let mut b = board();
    let blocks = vec![AvailableAction::Block { attackers: vec![id(20)], blockers: vec![id(10)] }];
    let keys = KeysPressed { continue_key: true, ..no_keys() };
    b.toggle_blocker(id(10), Some(id(20)));
    let out = handle_player_events(&mut b, &blocks, &vec![], keys);
    assert_eq!(out.action, Some(Action::Block { pairs: vec![] }));
    assert!(b.blocking_pairs().is_empty());
    assert!(!out.finished);

    let out = handle_player_events(&mut b, &vec![AvailableAction::EndTurn], &vec![], keys);
    assert_eq!(out.action, Some(Action::EndTurn));

    let attacks = vec![AvailableAction::Attack { attackers: vec![id(10)] }];
    let out = handle_player_events(&mut b, &attacks, &vec![], KeysPressed { all_attack: true, ..no_keys() });
    assert_eq!(out.action, Some(Action::Attack { attackers: vec![id(10)] }));
    let out = handle_player_events(&mut b, &attacks, &vec![], KeysPressed { attack: true, ..no_keys() });
    assert_eq!(out.action, Some(Action::Attack { attackers: vec![id(20)] }));
    let out = handle_player_events(&mut b, &attacks, &vec![], KeysPressed { block: true, ..no_keys() });
    assert_eq!(out.action, None);
    assert!(!out.finished);
}

fn card(n: u64) -> CardRef {
    CardRef { id: id(n), archetype: ArchetypeId(1) }
}

#[test]
fn test_take_server_event() {
    let one_card = vec![AvailableAction::SelectCard { cards: vec![id(4)] }];
    let logs = vec![
        GameLog::CreatureAttackedCreature { attacker: card(1), blocker: card(2) },
        GameLog::DamageTaken { player: 1, amount: 300 },
        GameLog::CreatureAttackedPlayer { attacker: card(1), player: 1 },
        GameLog::ShardsEarned { player: 0, color: "Ruby".to_string(), amount: 1 },
        GameLog::CardMoved {
            player: 0,
            card: card(3),
            from: PlayerZone { player: 0, zone: Zone::Hand },
            to: PlayerZone { player: 0, zone: Zone::Field },
            reason: MoveReason::Casted,
        },
        GameLog::LifeChanged { player: 0, life: 900 },
        GameLog::TurnChanged { player: 1, turn: 2 },
        GameLog::GameStarted,
    ];
    let step = take_server_event(Some(&one_card), &logs);
    assert_eq!(step.auto_action, Some(Action::SelectCard { card: id(4) }));
    assert!(!step.update_dialog);
    assert_eq!(
        step.log_events,
        vec![
            LogEvent::Attack { attacker: id(1), target: Target::Card(id(2)) },
            LogEvent::Attack { attacker: id(1), target: Target::Player(1) },
            LogEvent::Moved { card: id(3) },
        ]
    );
    assert_eq!(
        step.signals,
        vec![
            GameSignal::LifeUpdated { player: 1, delta: -300 },
            GameSignal::ShardUpdated,
            GameSignal::LifeUpdated { player: 0, delta: 0 },
            GameSignal::TurnChanged(1),
        ]
    );
}

#[test]
fn test_auto_actions() {
    let no_blockers = vec![AvailableAction::Block { attackers: vec![id(1)], blockers: vec![] }];
    assert_eq!(take_server_event(Some(&no_blockers), &vec![]).auto_action, Some(Action::Block { pairs: vec![] }));
    let end = vec![AvailableAction::EndTurn];
    assert_eq!(take_server_event(Some(&end), &vec![]).auto_action, Some(Action::EndTurn));
    let two = vec![AvailableAction::SelectCard { cards: vec![id(1), id(2)] }];
    let step = take_server_event(Some(&two), &vec![]);
    assert_eq!(step.auto_action, None);
    assert!(step.update_dialog);
    let many = vec![AvailableAction::EndTurn, AvailableAction::Continue];
    assert_eq!(take_server_event(Some(&many), &vec![]).auto_action, None);
    assert_eq!(take_server_event(None, &vec![]).auto_action, None);
}

#[test]
fn test_report_pacing() {
    assert_eq!(ready_for_report(GameScene::Running, true, Some(3), 500), (false, false));
    assert_eq!(ready_for_report(GameScene::Init, false, None, 0), (true, false));
    assert_eq!(ready_for_report(GameScene::Init, false, Some(0), 0), (false, false));
    assert_eq!(ready_for_report(GameScene::Loading, false, Some(0), 0), (true, false));
    assert_eq!(ready_for_report(GameScene::Loading, false, Some(1), 0), (false, false));
    assert_eq!(ready_for_report(GameScene::Running, false, Some(1), 99), (false, false));
    assert_eq!(ready_for_report(GameScene::Running, false, Some(1), 100), (true, true));
}

#[test]
fn test_preloads_moves() {
    assert!(preloads_moves(true, 3, 4, 2, 2));
    assert!(!preloads_moves(true, 4, 4, 2, 2));
    assert!(!preloads_moves(true, 3, 4, 3, 2));
    assert!(!preloads_moves(false, 3, 4, 2, 2));
}

#[test]
fn action_button_messages() {
    assert_eq!(ActionButton::EndTurn.message(), ("end-turn-button".to_string(), None));
    assert_eq!(ActionButton::AllAttack.message(), ("all-attack-button".to_string(), None));
    assert_eq!(
        ActionButton::Attack(2).message(),
        ("attack-button".to_string(), Some(("attackers".to_string(), 2)))
    );
    assert_eq!(
        ActionButton::Block(1).message(),
        ("block-button".to_string(), Some(("blockers".to_string(), 1)))
    );
    assert_eq!(ActionButton::Continue.message(), ("continue-button".to_string(), None));
}

#[test]
fn moves_replaced_only_by_newer_reports() {
    assert!(replaces_moves(3, 4));
    assert!(!replaces_moves(4, 4));
    assert!(!replaces_moves(5, 4));
}

#[test]
fn drag_only_hand_cards_and_blockers() {
    let mut b = Board::new();
    let mut me = side(vec![fc(10, FieldState::Active, None), fc(11, FieldState::Active, None)]);
    me.hand = vec![id(30)];
    let v = GameView {
        players: vec![me, side(vec![fc(20, FieldState::Active, Some(FieldBattleState::Attacking))])],
        cards: Vec::<CardView>::new(),
        initial_life: 10,
        endgame: Endgame::Running,
    };
    b.update(&v, 0, true);
    let list = vec![AvailableAction::Block { attackers: vec![id(20)], blockers: vec![id(10)] }];
    assert!(drag_allowed(&b, &list, id(30)));
    assert!(drag_allowed(&b, &list, id(10)));
    assert!(!drag_allowed(&b, &list, id(11)));
    assert!(!drag_allowed(&b, &list, id(20)));
}
