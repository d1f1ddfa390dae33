use kodecks_client::board::Board;
use kodecks_client::game::{
    CardView, Endgame, FieldBattleState, FieldCard, FieldState, GameView, PlayerView,
};
use kodecks_client::ids::ObjectId;

fn id(n: u64) -> ObjectId {
    ObjectId(n)
}

fn field_card(n: u64, battle: Option<FieldBattleState>) -> FieldCard {
    FieldCard { id: id(n), state: FieldState::Active, battle, power: Some(1), score: 0 }
}

fn side(hand: Vec<u64>, field: Vec<FieldCard>) -> PlayerView {
    PlayerView {
        hand: hand.into_iter().map(id).collect(),
        life: 10,
        shards: 0,
        hand_scores: vec![],
        field,
        abilities_score: 0,
    }
}

fn game(me: PlayerView, them: PlayerView) -> GameView {
    GameView { players: vec![me, them], cards: Vec::<CardView>::new(), initial_life: 10, endgame: Endgame::Running }
}

fn ids(slots: &[(ObjectId, FieldState)]) -> Vec<u64> {
    slots.iter().map(|(i, _)| i.0).collect()
}

#[test]
fn test_new_board_is_empty() {
    let b = Board::new();
    assert!(b.player_hand.is_empty());
    assert!(b.attackers().is_empty());
    assert!(b.blocking_pairs().is_empty());
}

#[test]
fn test_update_takes_in_hands_and_fields() {
    let mut b = Board::new();
    let v = game(
        side(vec![1, 2], vec![field_card(10, Some(FieldBattleState::Attacking)), field_card(11, None)]),
        side(vec![3], vec![field_card(20, Some(FieldBattleState::Blocking { attacker: id(10) }))]),
    );
    b.update(&v, 0, true);
    assert_eq!(b.player_hand, vec![id(1), id(2)]);
    assert_eq!(b.opponent_hand, vec![id(3)]);
    assert_eq!(ids(&b.player_field), vec![10, 11]);
    assert_eq!(ids(&b.opponent_field), vec![20]);
    assert_eq!(b.attackers(), vec![id(10)]);
    assert_eq!(b.blocking_pairs(), vec![(id(10), id(20))]);
}

#[test]
fn test_update_keeps_field_order() {
    let mut b = Board::new();
    b.update(&game(side(vec![], vec![field_card(1, None), field_card(2, None)]), side(vec![], vec![])), 0, true);
    // The engine now reports the field in another order, with a new card.
    b.update(
        &game(side(vec![], vec![field_card(3, None), field_card(2, None), field_card(1, None)]), side(vec![], vec![])),
        0,
        true,
    );
    assert_eq!(ids(&b.player_field), vec![1, 2, 3]);
}

#[test]
fn test_update_as_second_seat() {
    let mut b = Board::new();
    let v = game(side(vec![1], vec![field_card(10, None)]), side(vec![2], vec![field_card(20, None)]));
    b.update(&v, 1, true);
    assert_eq!(b.player_hand, vec![id(2)]);
    assert_eq!(b.opponent_hand, vec![id(1)]);
}

#[test]
fn test_toggle_attacker_twice() {
    let mut b = Board::new();
    b.update(&game(side(vec![], vec![field_card(10, None), field_card(11, None)]), side(vec![], vec![])), 0, true);
    b.toggle_attacker(id(11));
    assert_eq!(b.attackers(), vec![id(11)]);
    b.toggle_attacker(id(10));
    assert_eq!(b.attackers(), vec![id(11), id(10)]);
    b.toggle_attacker(id(11));
    assert_eq!(b.attackers(), vec![id(10)]);
    b.toggle_attacker(id(10));
    assert!(b.attackers().is_empty());
}

#[test]
fn test_shown_attackers_put_prepared_first() {
    let mut b = Board::new();
    let v = game(
        side(vec![], vec![field_card(10, Some(FieldBattleState::Attacking)), field_card(11, Some(FieldBattleState::Attacking))]),
        side(vec![], vec![]),
    );
    b.update(&v, 0, true);
    b.toggle_attacker(id(11));
    assert_eq!(b.attackers(), vec![id(11), id(10)]);
}

#[test]
fn test_toggle_blocker_and_layout() {
    let mut b = Board::new();
    // The opponent attacks with 20 and 21; the player has 10 and 11.
    let v = game(
        side(vec![], vec![field_card(10, None), field_card(11, None)]),
        side(
            vec![],
            vec![field_card(20, Some(FieldBattleState::Attacking)), field_card(21, Some(FieldBattleState::Attacking))],
        ),
    );
    b.update(&v, 0, true);
    // 10 blocks 21: 21 moves across from 10.
    b.toggle_blocker(id(10), Some(id(21)));
    assert_eq!(b.blocking_pairs(), vec![(id(21), id(10))]);
    assert_eq!(ids(&b.opponent_field), vec![21, 20]);
    // 10 now blocks 20 instead.
    b.toggle_blocker(id(10), Some(id(20)));
    assert_eq!(b.blocking_pairs(), vec![(id(20), id(10))]);
    // 11 blocks 20: it takes 20 over from 10.
    b.toggle_blocker(id(11), Some(id(20)));
    assert_eq!(b.blocking_pairs(), vec![(id(20), id(11))]);
    // A card that does not attack cannot be blocked.
    b.toggle_blocker(id(10), Some(id(99)));
    assert_eq!(b.blocking_pairs(), vec![(id(20), id(11))]);
    // No attacker cancels the blocker's block.
    b.toggle_blocker(id(11), None);
    assert!(b.blocking_pairs().is_empty());
    let mut all = ids(&b.opponent_field);
    all.sort();
    assert_eq!(all, vec![20, 21]);
}

#[test]
fn test_clear_battle() {
    let mut b = Board::new();
    let v = game(
        side(vec![], vec![field_card(10, None)]),
        side(vec![], vec![field_card(20, Some(FieldBattleState::Attacking))]),
    );
    b.update(&v, 0, true);
    b.toggle_blocker(id(10), Some(id(20)));
    b.toggle_attacker(id(10));
    b.clear_battle();
    assert!(b.blocking_pairs().is_empty());
    // Only the attacker the engine recorded is still shown.
    assert_eq!(b.attackers(), vec![id(20)]);
}

#[test]
fn test_update_outside_battle_drops_prepared() {
    let mut b = Board::new();
    let v = game(side(vec![], vec![field_card(10, None)]), side(vec![], vec![]));
    b.update(&v, 0, true);
    b.toggle_attacker(id(10));
    b.update(&v, 0, true);
    assert_eq!(b.attackers(), vec![id(10)]);
    b.update(&v, 0, false);
    assert!(b.attackers().is_empty());
}

#[test]
fn test_update_drops_prepared_cards_that_left() {
    let mut b = Board::new();
    b.update(&game(side(vec![], vec![field_card(10, None), field_card(11, None)]), side(vec![], vec![])), 0, true);
    b.toggle_attacker(id(10));
    b.toggle_attacker(id(11));
    b.update(&game(side(vec![], vec![field_card(11, None)]), side(vec![], vec![])), 0, true);
    assert_eq!(b.attackers(), vec![id(11)]);
}
