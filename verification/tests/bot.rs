use kodecks_client::bot::{best_action, find_select_combination, DefaultBot};
use kodecks_client::combinations::{
    backtrack, backtrack_pair, possible_attacker_combinations, possible_battle_combinations,
    possible_combinations,
};
use kodecks_client::game::{
    Action, AvailableAction, CardView, Endgame, FieldBattleState, FieldCard, FieldState, GameView,
    PlayerAvailableActions, PlayerView,
};
use kodecks_client::ids::ObjectId;
use kodecks_client::mcts::{get_available_actions, select_blocking_pair, MctsBot};
use kodecks_client::score::{get_score, ComputedScore};
use kodecks_client::simple::SimpleBot;
use kodecks_client::sorting::sort_by_power;
use kodecks_client::stable::sort_by_keys;

fn id(n: u64) -> ObjectId {
    ObjectId(n)
}

fn player(life: i32) -> PlayerView {
    PlayerView {
        hand: vec![],
        life,
        shards: 0,
        hand_scores: vec![],
        field: vec![],
        abilities_score: 0,
    }
}

fn creature(n: u64, power: u32, state: FieldState) -> FieldCard {
    FieldCard { id: id(n), state, battle: None, power: Some(power), score: 0 }
}

fn card(n: u64, power: Option<u32>, score: i32, zone_player: u8) -> CardView {
    CardView { id: id(n), power, score, zone_player }
}

fn view(players: Vec<PlayerView>, cards: Vec<CardView>) -> GameView {
    GameView { players, cards, initial_life: 8000, endgame: Endgame::Running }
}

#[test]
fn test_backtrack_chooses_in_order() {
    let arr = [1u8, 2, 3];
    let mut current = vec![];
    let mut result = vec![vec![9u8]];
    backtrack(&arr, 2, 0, &mut current, &mut result);
    assert_eq!(result, vec![vec![9], vec![1, 2], vec![1, 3], vec![2, 3]]);
    assert!(current.is_empty());
}

#[test]
fn test_backtrack_extends_current() {
    let arr = [1u8, 2, 3, 4];
    let mut current = vec![7u8];
    let mut result = vec![];
    backtrack(&arr, 2, 2, &mut current, &mut result);
    assert_eq!(result, vec![vec![7, 3], vec![7, 4]]);
    assert_eq!(current, vec![7]);
}

#[test]
fn test_backtrack_current_too_long() {
    let arr = [1u8, 2];
    let mut current = vec![5u8, 6, 7];
    let mut result: Vec<Vec<u8>> = vec![];
    backtrack(&arr, 2, 0, &mut current, &mut result);
    assert!(result.is_empty());
}

#[test]
fn test_possible_combinations_all_subsets() {
    let all = possible_combinations(&[1u8, 2, 3]);
    assert_eq!(
        all,
        vec![
            vec![],
            vec![1],
            vec![2],
            vec![3],
            vec![1, 2],
            vec![1, 3],
            vec![2, 3],
            vec![1, 2, 3]
        ]
    );
}

#[test]
fn test_possible_combinations_count_is_power_of_two() {
    for n in 0..6u8 {
        let items: Vec<u8> = (0..n).collect();
        let all = possible_combinations(&items);
        assert_eq!(all.len(), 1usize << n);
        let of_two = all.iter().filter(|c| c.len() == 2).count();
        assert_eq!(of_two, (n as usize) * (n as usize).saturating_sub(1) / 2);
    }
}

#[test]
fn test_possible_attacker_combinations() {
    let all = possible_attacker_combinations(&[id(1), id(2)]);
    assert_eq!(all, vec![vec![], vec![id(1)], vec![id(2)], vec![id(1), id(2)]]);
}

#[test]
fn test_possible_battle_combinations() {
    let all = possible_battle_combinations(&[id(1), id(2)], &[id(10), id(20)]);
    assert_eq!(
        all,
        vec![
            vec![],
            vec![(id(1), id(10))],
            vec![(id(1), id(20))],
            vec![(id(2), id(10))],
            vec![(id(2), id(20))],
            vec![(id(1), id(10)), (id(2), id(20))],
            vec![(id(1), id(20)), (id(2), id(10))],
        ]
    );
    for plan in &all {
        for i in 0..plan.len() {
            for j in i + 1..plan.len() {
                assert_ne!(plan[i].0, plan[j].0);
                assert_ne!(plan[i].1, plan[j].1);
            }
        }
    }
}

#[test]
fn test_backtrack_pair_skips_reused_cards() {
    let arr = [(id(1), id(10)), (id(1), id(20)), (id(2), id(10))];
    let mut current = vec![];
    let mut result = vec![];
    backtrack_pair(&arr, 2, 0, &mut current, &mut result);
    assert_eq!(result, vec![vec![(id(1), id(20)), (id(2), id(10))]]);
}

#[test]
fn test_computed_score_compares_by_gain() {
    let a = ComputedScore { base: 10, action: 15 };
    let b = ComputedScore { base: -5, action: 0 };
    let c = ComputedScore { base: 0, action: 7 };
    assert_eq!(a.score(), 5);
    assert_eq!(a, b);
    assert!(c > a);
    assert!(b < c);
    assert_eq!(ComputedScore::default().score(), 0);
    let wide = ComputedScore { base: i32::MIN, action: i32::MAX };
    assert_eq!(wide.wide_score(), (i32::MAX as i64) - (i32::MIN as i64));
}

/// The low-life flag as the engine computes it, in single precision.
fn low_life(v: &GameView, side: usize) -> bool {
    (v.players[side].life as f32) < (v.initial_life as f32 * 0.2)
}

fn score_of(v: &GameView, side: u8) -> i32 {
    get_score(v, side, low_life(v, side as usize))
}

fn scored_view(p_life: i32, endgame: Endgame) -> GameView {
    let mut p = player(p_life);
    p.shards = 3;
    p.hand_scores = vec![10, 5];
    p.field = vec![FieldCard { id: id(1), state: FieldState::Active, battle: None, power: Some(2), score: 20 }];
    p.abilities_score = 4;
    let mut o = player(6000);
    o.shards = 1;
    o.hand_scores = vec![6];
    o.field = vec![FieldCard { id: id(2), state: FieldState::Active, battle: None, power: Some(1), score: 8 }];
    o.abilities_score = 2;
    GameView { players: vec![p, o], cards: vec![], initial_life: 8000, endgame }
}

#[test]
fn test_get_score() {
    assert_eq!(score_of(&scored_view(8000, Endgame::Running), 0), -20);
}

#[test]
fn test_get_score_low_life_and_endgame() {
    assert_eq!(score_of(&scored_view(1500, Endgame::Running), 0), -185);
    assert_eq!(score_of(&scored_view(1500, Endgame::Finished { winner: Some(0) }), 0), 815);
    assert_eq!(score_of(&scored_view(8000, Endgame::Finished { winner: Some(1) }), 0), -1020);
    assert_eq!(score_of(&scored_view(8000, Endgame::Finished { winner: None }), 0), -520);
}

#[test]
fn test_get_score_rounds_toward_zero() {
    let mut v = scored_view(8000, Endgame::Running);
    v.players[0].hand_scores = vec![-15];
    // -15 / 2 rounds to -7
    assert_eq!(score_of(&v, 0), -20 - 7 - 7);
}

fn actions(player: u8, actions: Vec<AvailableAction>, default_action: Option<Action>) -> PlayerAvailableActions {
    PlayerAvailableActions { player, actions, default_action }
}

#[test]
fn test_simple_bot_selects_most_valuable_card() {
    let v = view(
        vec![player(10), player(10)],
        vec![card(1, None, 5, 0), card(2, None, 9, 1), card(3, None, 5, 0)],
    );
    let acts = actions(0, vec![AvailableAction::SelectCard { cards: vec![id(1), id(2), id(3)] }], None);
    let res = SimpleBot.compute(&v, &acts);
    assert_eq!(res.len(), 1);
    assert_eq!(res[0].0, Action::SelectCard { card: id(3) });
    assert_eq!(res[0].1.action, 5);
}

#[test]
fn test_simple_bot_attacks_with_stronger_creatures() {
    let mut me = player(10);
    me.field = vec![creature(1, 4, FieldState::Active), creature(2, 2, FieldState::Active), creature(3, 5, FieldState::Active)];
    let mut opp = player(10);
    opp.field = vec![creature(10, 3, FieldState::Active), creature(11, 7, FieldState::Exhausted)];
    let v = view(vec![me, opp], vec![card(1, Some(4), 0, 0), card(2, Some(2), 0, 0), card(3, Some(5), 0, 0)]);
    let acts = actions(0, vec![AvailableAction::Attack { attackers: vec![id(1), id(2), id(3)] }], None);
    let res = SimpleBot.compute(&v, &acts);
    assert_eq!(res.len(), 1);
    assert_eq!(res[0].0, Action::Attack { attackers: vec![id(1), id(3)] });
}

#[test]
fn test_simple_bot_holds_back_against_lethal_blockers() {
    let mut opp = player(10);
    opp.field = vec![creature(10, 6, FieldState::Active), creature(11, 4, FieldState::Active)];
    let v = view(vec![player(10), opp], vec![card(1, Some(9), 0, 0)]);
    let acts = actions(0, vec![AvailableAction::Attack { attackers: vec![id(1)] }], None);
    let res = SimpleBot.compute(&v, &acts);
    assert_eq!(res[0].0, Action::Attack { attackers: vec![] });
}

#[test]
fn test_simple_bot_blocks_strongest_first() {
    let v = view(
        vec![player(20), player(20)],
        vec![card(1, Some(5), 0, 1), card(2, Some(3), 0, 1), card(10, Some(4), 0, 0), card(11, Some(6), 0, 0)],
    );
    let acts = actions(
        0,
        vec![AvailableAction::Block { attackers: vec![id(1), id(2)], blockers: vec![id(10), id(11)] }],
        None,
    );
    let res = SimpleBot.compute(&v, &acts);
    assert_eq!(res[0].0, Action::Block { pairs: vec![(id(1), id(11)), (id(2), id(10))] });
}

#[test]
fn test_simple_bot_chump_blocks_when_lethal() {
    let v = view(
        vec![player(5), player(20)],
        vec![card(1, Some(5), 0, 1), card(10, Some(1), 0, 0)],
    );
    let acts = actions(0, vec![AvailableAction::Block { attackers: vec![id(1)], blockers: vec![id(10)] }], None);
    let res = SimpleBot.compute(&v, &acts);
    assert_eq!(res[0].0, Action::Block { pairs: vec![(id(1), id(10))] });
}

#[test]
fn test_simple_bot_casts_and_falls_back_to_default() {
    let v = view(vec![player(10), player(10)], vec![card(1, None, 2, 0), card(2, None, 7, 0)]);
    let acts = actions(0, vec![AvailableAction::CastCard { cards: vec![id(1), id(2)] }], None);
    let res = SimpleBot.compute(&v, &acts);
    assert_eq!(res[0].0, Action::CastCard { card: id(2) });
    assert_eq!(res[0].1.action, 7);

    let acts = actions(0, vec![AvailableAction::EndTurn], Some(Action::EndTurn));
    let res = SimpleBot.compute(&v, &acts);
    assert_eq!(res.len(), 1);
    assert_eq!(res[0].0, Action::EndTurn);
    assert_eq!(res[0].1.score(), 0);
}

#[test]
fn test_find_select_combination_keeps_no_worse_choices() {
    let eval = |a: Option<Action>| match a {
        Some(Action::SelectCard { card }) if card == id(1) => ComputedScore { base: 0, action: 3 },
        Some(Action::SelectCard { .. }) => ComputedScore { base: 0, action: -1 },
        _ => ComputedScore { base: 0, action: 0 },
    };
    let res = find_select_combination(&eval, vec![id(1), id(2)]);
    assert_eq!(res.len(), 1);
    assert_eq!(res[0].0, id(1));
}

#[test]
fn test_default_bot_proposals() {
    let v = view(vec![player(10), player(10)], vec![]);
    let acts = actions(
        0,
        vec![AvailableAction::SelectCard { cards: vec![id(1), id(2)] }, AvailableAction::EndTurn],
        Some(Action::EndTurn),
    );
    let select = |a: Option<Action>| match a {
        Some(Action::SelectCard { card }) if card == id(1) => ComputedScore { base: 0, action: 3 },
        Some(Action::SelectCard { .. }) => ComputedScore { base: 0, action: -1 },
        _ => ComputedScore { base: 0, action: 0 },
    };
    let flat = |_a: Option<Action>| 0i32;
    let mut bot = DefaultBot::builder().unwrap().build();
    let res = bot.compute(&v, &acts, &flat, &flat, &select);
    assert_eq!(res.len(), 2);
    assert_eq!(res[0].0, Action::EndTurn);
    assert_eq!(res[0].1.score(), -100);
    assert_eq!(res[1].0, Action::SelectCard { card: id(1) });
    assert_eq!(best_action(res), Some(Action::SelectCard { card: id(1) }));
}

#[test]
fn test_default_bot_scores_attacks() {
    let mut me = player(10);
    me.field = vec![creature(1, 3, FieldState::Active)];
    let v = view(vec![me, player(10)], vec![]);
    let acts = actions(0, vec![AvailableAction::Attack { attackers: vec![id(1)] }], None);
    let battle = |a: Option<Action>| match a {
        Some(Action::Attack { attackers }) => attackers.len() as i32 * 5,
        _ => 1,
    };
    let flat = |_a: Option<Action>| 0i32;
    let select = |_a: Option<Action>| ComputedScore::default();
    let mut bot = DefaultBot::builder().unwrap().build();
    let res = bot.compute(&v, &acts, &battle, &flat, &select);
    assert_eq!(res.len(), 1);
    assert_eq!(res[0].0, Action::Attack { attackers: vec![id(1)] });
    assert_eq!(res[0].1, ComputedScore { base: 1, action: 5 });
}

#[test]
fn test_default_bot_blocks_incoming_attackers() {
    let mut opp = player(10);
    opp.field = vec![FieldCard {
        id: id(5),
        state: FieldState::Active,
        battle: Some(FieldBattleState::Attacking),
        power: Some(2),
        score: 0,
    }];
    let v = view(vec![player(10), opp], vec![]);
    let acts = actions(0, vec![AvailableAction::Block { attackers: vec![id(5)], blockers: vec![id(7)] }], None);
    let battle = |a: Option<Action>| match a {
        Some(Action::Block { pairs }) => pairs.len() as i32,
        _ => 0,
    };
    let flat = |_a: Option<Action>| 0i32;
    let select = |_a: Option<Action>| ComputedScore::default();
    let mut bot = DefaultBot::builder().unwrap().build();
    let res = bot.compute(&v, &acts, &battle, &flat, &select);
    assert_eq!(res.len(), 1);
    assert_eq!(res[0].0, Action::Block { pairs: vec![(id(5), id(7))] });
}

#[test]
fn test_best_action_takes_last_of_equals() {
    let proposals = vec![
        (Action::EndTurn, ComputedScore { base: 0, action: 4 }),
        (Action::Continue, ComputedScore { base: 1, action: 5 }),
        (Action::Concede, ComputedScore { base: 0, action: 1 }),
    ];
    assert_eq!(best_action(proposals), Some(Action::Continue));
    assert_eq!(best_action(vec![]), None);
}

#[test]
fn test_mcts_bot_answer() {
    let mut bot = MctsBot {};
    let res = bot.compute(Some(Action::EndTurn));
    assert_eq!(res.len(), 1);
    assert_eq!(res[0].0, Action::EndTurn);
    assert!(bot.compute(None).is_empty());
}

#[test]
fn test_select_blocking_pair_pairs_by_power() {
    let v = view(
        vec![player(10), player(10)],
        vec![card(1, Some(5), 0, 1), card(2, Some(1), 0, 1), card(10, Some(3), 0, 0), card(11, Some(2), 0, 0), card(12, Some(9), 0, 0)],
    );
    let res = select_blocking_pair(&v, &vec![id(1), id(2)], &vec![id(10), id(11), id(12)]);
    assert_eq!(res, vec![(id(2), id(11)), (id(1), id(10))]);
}

#[test]
fn test_get_available_actions_lists_every_move() {
    let v = view(vec![player(10), player(10)], vec![card(1, Some(1), 0, 1), card(10, Some(1), 0, 0)]);
    let acts = actions(
        1,
        vec![
            AvailableAction::CastCard { cards: vec![id(3), id(4)] },
            AvailableAction::Block { attackers: vec![id(1)], blockers: vec![id(10)] },
            AvailableAction::EndTurn,
        ],
        None,
    );
    let res = get_available_actions(Some(&acts), &v);
    assert_eq!(
        res,
        vec![
            (1, Action::CastCard { card: id(3) }),
            (1, Action::CastCard { card: id(4) }),
            (1, Action::Block { pairs: vec![] }),
            (1, Action::Block { pairs: vec![(id(1), id(10))] }),
            (1, Action::Block { pairs: vec![] }),
            (1, Action::EndTurn),
        ]
    );
    assert!(get_available_actions(None, &v).is_empty());
}

#[test]
fn test_sort_by_power_is_stable() {
    let cards = vec![card(1, Some(3), 0, 0), card(2, None, 0, 0), card(3, Some(3), 0, 0), card(4, Some(1), 0, 0)];
    let sorted = sort_by_power(&cards);
    let ids: Vec<u64> = sorted.iter().map(|c| c.id.0).collect();
    assert_eq!(ids, vec![2, 4, 1, 3]);
}

#[test]
fn test_sort_by_keys_is_stable() {
    let v = vec![(2u64, 'a'), (1, 'b'), (2, 'c'), (0, 'd')];
    assert_eq!(sort_by_keys(&v), vec![(0, 'd'), (1, 'b'), (2, 'a'), (2, 'c')]);
}

#[test]
fn test_get_score_low_life_in_single_precision() {
    // 4194304 < 20971521 * 0.2 in exact arithmetic, but not in f32.
    let mut v = scored_view(4194304, Endgame::Running);
    v.initial_life = 20971521;
    v.players[1].life = 0;
    assert!(!low_life(&v, 0));
    assert_eq!(score_of(&v, 0), 41943 + 2 + 7 + 20 + 4 - 3 - 8 - 2);
    assert_eq!(get_score(&v, 0, true), 41943 + 2 + 7 + 20 + 4 - 3 - 8 - 2 - 100);
}

#[test]
fn test_get_score_monotone_in_lives() {
    let low = score_of(&scored_view(1500, Endgame::Running), 0);
    let high = score_of(&scored_view(1700, Endgame::Running), 0);
    assert!(low <= high);
    let mut v = scored_view(8000, Endgame::Running);
    let before = score_of(&v, 0);
    v.players[1].life = 7000;
    assert!(score_of(&v, 0) <= before);
}
