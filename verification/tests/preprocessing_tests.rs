use goal_hdc::preprocessing::{has_puck_info, needs_rotation, plan_preprocessing, take_last_n_instances,
    GameId, GoalDetails, GoalId, GoalPlan, PbpData};

fn details(event_id: u32, scoring_team_id: u16, side: &str) -> GoalDetails {
    GoalDetails {
        event_id,
        scoring_team_id,
        home_team_defending_side: String::from(side),
        ppt_replay_url: Some(String::from("")),
    }
}

#[test]
fn rotation_follows_scoring_side() {
    // home team scores, defends the left: shoots right, no rotation
    assert!(!needs_rotation(&details(10, 19, "Left"), 19));
    // home team scores, defends the right: shoots left, rotated
    assert!(needs_rotation(&details(1001, 19, "Right"), 19));
    // away team scores, home defends the right: away shoots right
    assert!(!needs_rotation(&details(485, 3, "Right"), 19));
    // away team scores, home defends the left: away shoots left
    assert!(needs_rotation(&details(7, 3, "Left"), 19));
    // a side other than "Left" counts as the right side
    assert!(!needs_rotation(&details(8, 3, "left"), 19));
    assert!(needs_rotation(&details(9, 19, "left"), 19));
}

#[test]
fn plan_preprocessing_mixed_goals() {
    let game_id = GameId(202400001);
    let pbp_data = PbpData {
        goals: vec![
            details(10, 19, "Left"),
            details(1001, 19, "Right"),
            details(485, 3, "Right"),
            details(740, 3, "Right"),
        ],
        home_team_id: 19,
    };
    let other_game = GameId(202400002);
    let other_pbp = PbpData { goals: vec![details(5, 2, "Left")], home_team_id: 2 };
    let located = vec![(game_id, GoalId(10)), (game_id, GoalId(1001)), (game_id, GoalId(485)), (GameId(1), GoalId(5))];
    let plans = plan_preprocessing(&vec![(game_id, pbp_data), (other_game, other_pbp)], &located);
    assert_eq!(
        plans,
        vec![
            GoalPlan { game_id, goal_id: GoalId(10), rotate: false },
            GoalPlan { game_id, goal_id: GoalId(1001), rotate: true },
            GoalPlan { game_id, goal_id: GoalId(485), rotate: false },
        ]
    );
}

#[test]
fn puck_info_detection() {
    let empty: Vec<Option<(f64, f64)>> = vec![];
    assert!(!has_puck_info(&empty));
    let all_missing: Vec<Option<(f64, f64)>> = vec![None, None, None];
    assert!(!has_puck_info(&all_missing));
    let some: Vec<Option<(f64, f64)>> = vec![None, Some((670.7315, 397.3952)), None];
    assert!(has_puck_info(&some));
}

#[test]
fn last_n_instances() {
    let coords = vec![1, 2, 3, 4, 5];
    assert_eq!(take_last_n_instances(&coords, 2), vec![4, 5]);
    assert_eq!(take_last_n_instances(&coords, 5), vec![1, 2, 3, 4, 5]);
    assert_eq!(take_last_n_instances(&coords, 9), vec![1, 2, 3, 4, 5]);
    assert_eq!(take_last_n_instances(&coords, 0), Vec::<i32>::new());
}
