use goal_hdc::preprocessing::{GameId, GoalId};
use goal_hdc::ranking::{rank_goals, GoalDist, GoalHv};

#[test]
fn ranking_orders_by_distance_and_skips_target() {
    let target = vec![true, true, false, false];
    let goals = vec![
        GoalHv { game_id: GameId(1), goal_id: GoalId(1), hv: vec![false, false, true, true] },
        GoalHv { game_id: GameId(1), goal_id: GoalId(2), hv: vec![true, true, false, false] },
        GoalHv { game_id: GameId(2), goal_id: GoalId(7), hv: vec![true, false, false, false] },
        GoalHv { game_id: GameId(3), goal_id: GoalId(9), hv: vec![true, true, false, true] },
        GoalHv { game_id: GameId(3), goal_id: GoalId(4), hv: vec![false, true, true, false] },
    ];
    let ranked = rank_goals(GameId(1), GoalId(2), &target, &goals);
    assert_eq!(
        ranked,
        vec![
            GoalDist { game_id: GameId(2), goal_id: GoalId(7), dist: 1 },
            GoalDist { game_id: GameId(3), goal_id: GoalId(9), dist: 1 },
            GoalDist { game_id: GameId(3), goal_id: GoalId(4), dist: 2 },
            GoalDist { game_id: GameId(1), goal_id: GoalId(1), dist: 4 },
        ]
    );
}

#[test]
fn ranking_empty() {
    let target = vec![true];
    let goals: Vec<GoalHv> = vec![];
    assert!(rank_goals(GameId(1), GoalId(1), &target, &goals).is_empty());
}
