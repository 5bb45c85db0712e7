//! Play-by-play records and the decisions taken when goals are pre-processed:
//! which goals are processed, which are rotated, when a track has puck data,
//! and which instants of a track are kept.

use vstd::prelude::*;

verus! {

/// Identifier of a game.
#[derive(Debug, PartialEq, Eq, Hash, Copy, Clone, Structural)]
pub struct GameId(pub u32);

/// Identifier of a goal (the event id of the goal within its game).
#[derive(Debug, PartialEq, Eq, Hash, Copy, Clone, Structural)]
pub struct GoalId(pub u32);

/// Play-by-play details of one goal.
#[derive(Debug, Clone)]
pub struct GoalDetails {
    pub event_id: u32,
    pub ppt_replay_url: Option<String>,
    pub scoring_team_id: u16,
    pub home_team_defending_side: String,
}

/// Play-by-play data of one game: its goals and the home team.
#[derive(Debug, Clone)]
pub struct PbpData {
    pub goals: Vec<GoalDetails>,
    pub home_team_id: u16,
}

/// What to do with one goal whose location data was found.
#[derive(Debug, Clone, Copy, PartialEq, Eq, Structural)]
pub struct GoalPlan {
    pub game_id: GameId,
    pub goal_id: GoalId,
    /// The goal was scored on the left side of the ice and is rotated by 180 degrees.
    pub rotate: bool,
}

/// Whether a goal was scored on the left side of the ice: when the home team
/// scores, it shoots at the side the away team defends (the other side from
/// the home team's; any side not named "Left" counts as the right), and
/// otherwise at the side the home team defends.
pub open spec fn scored_on_left(goal: GoalDetails, home_team_id: u16) -> bool {
    let home_defends_left = goal.home_team_defending_side@ == "Left"@;
    if goal.scoring_team_id == home_team_id {
        !home_defends_left
    } else {
        home_defends_left
    }
}

/// Only a scoring team with the home team's id is the home team: a goal of the
/// home team is scored on the left exactly when the home team does not defend
/// the left, and a goal of any other team exactly when the home team defends
/// the left.
pub proof fn lemma_rotation_rule(goal: GoalDetails, home_team_id: u16)
    ensures
        goal.scoring_team_id == home_team_id ==> (scored_on_left(goal, home_team_id) <==> goal.home_team_defending_side@
            != "Left"@),
        goal.scoring_team_id != home_team_id ==> (scored_on_left(goal, home_team_id) <==> goal.home_team_defending_side@
            == "Left"@),
{
}

/// Whether the goal must be rotated so that every goal is scored on the right.
pub fn needs_rotation(goal: &GoalDetails, home_team_id: u16) -> (rotate: bool)
    ensures
        rotate == scored_on_left(*goal, home_team_id),
        goal.scoring_team_id == home_team_id ==> (rotate <==> goal.home_team_defending_side@
            != "Left"@),
        goal.scoring_team_id != home_team_id ==> (rotate <==> goal.home_team_defending_side@
            == "Left"@),
{
    proof {
        lemma_rotation_rule(*goal, home_team_id);
    }
    let left: String = "Left".to_owned();
    let home_defends_left: bool = goal.home_team_defending_side == left;
    if goal.scoring_team_id == home_team_id {
        !home_defends_left
    } else {
        home_defends_left
    }
}

/// Whether `(game, goal)` is among `located`.
pub open spec fn is_located(located: Seq<(GameId, GoalId)>, game: GameId, goal: GoalId) -> bool {
    located.contains((game, goal))
}

/// The plans for the goals of one game, in the order of its play-by-play,
/// for those goals whose location data was found.
pub open spec fn game_plans(
    game: GameId,
    pbp: PbpData,
    located: Seq<(GameId, GoalId)>,
    k: int,
) -> Seq<GoalPlan>
    decreases k,
{
    if k <= 0 {
        Seq::empty()
    } else {
        let before = game_plans(game, pbp, located, k - 1);
        let goal = pbp.goals@[k - 1];
        if is_located(located, game, GoalId(goal.event_id)) {
            before.push(
                GoalPlan {
                    game_id: game,
                    goal_id: GoalId(goal.event_id),
                    rotate: scored_on_left(goal, pbp.home_team_id),
                },
            )
        } else {
            before
        }
    }
}

/// The plans for every game, game after game.
pub open spec fn folder_plans(
    games: Seq<(GameId, PbpData)>,
    located: Seq<(GameId, GoalId)>,
    k: int,
) -> Seq<GoalPlan>
    decreases k,
{
    if k <= 0 {
        Seq::empty()
    } else {
        folder_plans(games, located, k - 1) + game_plans(
            games[k - 1].0,
            games[k - 1].1,
            located,
            games[k - 1].1.goals@.len() as int,
        )
    }
}

/// Whether `located` holds `(game, goal)`.
fn contains_key(located: &Vec<(GameId, GoalId)>, game: GameId, goal: GoalId) -> (found: bool)
    ensures
        found == is_located(located@, game, goal),
{
    let n: usize = located.len();
    let mut i: usize = 0;
    while i < n
        invariant
            i <= n,
            n == located.len(),
            forall|j: int| 0 <= j < i ==> located@[j] != (game, goal),
        decreases n - i,
    {
        let (g, h) = located[i];
        if g.0 == game.0 && h.0 == goal.0 {
            assert(located@[i as int] == (game, goal));
            return true;
        }
        i = i + 1;
    }
    false
}

/// Plans the pre-processing of a folder: for each game's play-by-play, in
/// order, and each of its goals, in order, a goal whose location data was
/// found (is in `located`) is planned, rotated when it was scored on the left
/// side of the ice; goals without location data are skipped.
pub fn plan_preprocessing(games: &Vec<(GameId, PbpData)>, located: &Vec<(GameId, GoalId)>) -> (plans:
    Vec<GoalPlan>)
    ensures
        plans@ == folder_plans(games@, located@, games@.len() as int),
        forall|g: int, j: int|
            0 <= g < games.len() && 0 <= j < games@[g].1.goals@.len() && is_located(
                located@,
                games@[g].0,
                GoalId(#[trigger] games@[g].1.goals@[j].event_id),
            ) ==> plans@.contains(
                GoalPlan {
                    game_id: games@[g].0,
                    goal_id: GoalId(games@[g].1.goals@[j].event_id),
                    rotate: scored_on_left(games@[g].1.goals@[j], games@[g].1.home_team_id),
                },
            ),
        forall|t: int|
            0 <= t < plans.len() ==> is_located(located@, (#[trigger] plans@[t]).game_id, plans@[t].goal_id),
{
    proof {
        lemma_folder_plans_complete(games@, located@, games@.len() as int);
    }
    let mut plans: Vec<GoalPlan> = Vec::new();
    let n: usize = games.len();
    let mut g: usize = 0;
    while g < n
        invariant
            g <= n,
            n == games.len(),
            plans@ == folder_plans(games@, located@, g as int),
        decreases n - g,
    {
        let game: GameId = games[g].0;
        let pbp: &PbpData = &games[g].1;
        let ghost before = plans@;
        let m: usize = pbp.goals.len();
        let mut k: usize = 0;
        while k < m
            invariant
                k <= m,
                g < n,
                n == games.len(),
                game == games@[g as int].0,
                *pbp == games@[g as int].1,
                m == pbp.goals@.len(),
                before == folder_plans(games@, located@, g as int),
                plans@ == before + game_plans(game, *pbp, located@, k as int),
            decreases m - k,
        {
            let goal: &GoalDetails = &pbp.goals[k];
            let goal_id = GoalId(goal.event_id);
            if contains_key(located, game, goal_id) {
                let rotate: bool = needs_rotation(goal, pbp.home_team_id);
                plans.push(GoalPlan { game_id: game, goal_id, rotate });
                assert(plans@ =~= before + game_plans(game, *pbp, located@, k + 1));
            } else {
                assert(plans@ =~= before + game_plans(game, *pbp, located@, k + 1));
            }
            k = k + 1;
        }
        g = g + 1;
    }
    plans
}

/// Whether a track holds puck data at some instant. A goal's location data
/// without any (no instants, or the puck missing at every instant) is rejected.
pub fn has_puck_info<T>(coords: &Vec<Option<T>>) -> (found: bool)
    ensures
        found == exists|i: int| 0 <= i < coords.len() && (#[trigger] coords@[i]) is Some,
{
    let n: usize = coords.len();
    let mut i: usize = 0;
    while i < n
        invariant
            i <= n,
            n == coords.len(),
            forall|j: int| 0 <= j < i ==> (#[trigger] coords@[j]) is None,
        decreases n - i,
    {
        if coords[i].is_some() {
            return true;
        }
        i = i + 1;
    }
    false
}

/// Takes the last `n` instants of a goal (all of them when it has fewer).
pub fn take_last_n_instances<T: Copy>(coords: &Vec<T>, n: usize) -> (last: Vec<T>)
    ensures
        last@ == coords@.skip(coords.len() - if n < coords.len() { n as int } else { coords.len() as int }),
{
    let len: usize = coords.len();
    let first: usize = if n < len { len - n } else { 0 };
    let mut last: Vec<T> = Vec::with_capacity(len - first);
    let mut i: usize = first;
    while i < len
        invariant
            first <= i <= len,
            len == coords.len(),
            last@ =~= coords@.subrange(first as int, i as int),
        decreases len - i,
    {
        last.push(coords[i]);
        i = i + 1;
    }
    last
}

/// A game's plans: every located goal of its play-by-play is planned, whatever
/// the goals before it, and only located goals are.
pub proof fn lemma_game_plans_complete(
    game: GameId,
    pbp: PbpData,
    located: Seq<(GameId, GoalId)>,
    k: int,
)
    requires
        0 <= k <= pbp.goals@.len(),
    ensures
        forall|j: int|
            0 <= j < k && is_located(located, game, GoalId(#[trigger] pbp.goals@[j].event_id))
                ==> game_plans(game, pbp, located, k).contains(
                GoalPlan {
                    game_id: game,
                    goal_id: GoalId(pbp.goals@[j].event_id),
                    rotate: scored_on_left(pbp.goals@[j], pbp.home_team_id),
                },
            ),
        forall|t: int|
            0 <= t < game_plans(game, pbp, located, k).len() ==> is_located(
                located,
                (#[trigger] game_plans(game, pbp, located, k)[t]).game_id,
                game_plans(game, pbp, located, k)[t].goal_id,
            ),
    decreases k,
{
    if k > 0 {
        lemma_game_plans_complete(game, pbp, located, k - 1);
        let before = game_plans(game, pbp, located, k - 1);
        let after = game_plans(game, pbp, located, k);
        let goal = pbp.goals@[k - 1];
        assert forall|j: int|
            0 <= j < k && is_located(located, game, GoalId(#[trigger] pbp.goals@[j].event_id))
                implies after.contains(
            GoalPlan {
                game_id: game,
                goal_id: GoalId(pbp.goals@[j].event_id),
                rotate: scored_on_left(pbp.goals@[j], pbp.home_team_id),
            },
        ) by {
            let p = GoalPlan {
                game_id: game,
                goal_id: GoalId(pbp.goals@[j].event_id),
                rotate: scored_on_left(pbp.goals@[j], pbp.home_team_id),
            };
            if j < k - 1 {
                assert(before.contains(p));
                let q = choose|q: int| 0 <= q < before.len() && before[q] == p;
                if is_located(located, game, GoalId(goal.event_id)) {
                    assert(after[q] == p);
                }
            } else {
                assert(after[before.len() as int] == p);
            }
        }
        assert forall|t: int| 0 <= t < after.len() implies is_located(
            located,
            (#[trigger] after[t]).game_id,
            after[t].goal_id,
        ) by {
            if t < before.len() {
                assert(after[t] == before[t]);
            }
        }
    }
}

/// The plans of a folder: every located goal of every game is planned, and
/// only located goals are.
pub proof fn lemma_folder_plans_complete(
    games: Seq<(GameId, PbpData)>,
    located: Seq<(GameId, GoalId)>,
    k: int,
)
    requires
        0 <= k <= games.len(),
    ensures
        forall|g: int, j: int|
            0 <= g < k && 0 <= j < games[g].1.goals@.len() && is_located(
                located,
                games[g].0,
                GoalId(#[trigger] games[g].1.goals@[j].event_id),
            ) ==> folder_plans(games, located, k).contains(
                GoalPlan {
                    game_id: games[g].0,
                    goal_id: GoalId(games[g].1.goals@[j].event_id),
                    rotate: scored_on_left(games[g].1.goals@[j], games[g].1.home_team_id),
                },
            ),
        forall|t: int|
            0 <= t < folder_plans(games, located, k).len() ==> is_located(
                located,
                (#[trigger] folder_plans(games, located, k)[t]).game_id,
                folder_plans(games, located, k)[t].goal_id,
            ),
    decreases k,
{
    if k > 0 {
        lemma_folder_plans_complete(games, located, k - 1);
        let before = folder_plans(games, located, k - 1);
        let (game, pbp) = games[k - 1];
        let this = game_plans(game, pbp, located, pbp.goals@.len() as int);
        lemma_game_plans_complete(game, pbp, located, pbp.goals@.len() as int);
        let after = folder_plans(games, located, k);
        assert(after == before + this);
        assert forall|g: int, j: int|
            0 <= g < k && 0 <= j < games[g].1.goals@.len() && is_located(
                located,
                games[g].0,
                GoalId(#[trigger] games[g].1.goals@[j].event_id),
            ) implies after.contains(
            GoalPlan {
                game_id: games[g].0,
                goal_id: GoalId(games[g].1.goals@[j].event_id),
                rotate: scored_on_left(games[g].1.goals@[j], games[g].1.home_team_id),
            },
        ) by {
            let p = GoalPlan {
                game_id: games[g].0,
                goal_id: GoalId(games[g].1.goals@[j].event_id),
                rotate: scored_on_left(games[g].1.goals@[j], games[g].1.home_team_id),
            };
            if g < k - 1 {
                assert(before.contains(p));
                let q = choose|q: int| 0 <= q < before.len() && before[q] == p;
                assert(after[q] == p);
            } else {
                assert(pbp.goals@[j] == games[g].1.goals@[j]);
                assert(this.contains(p));
                let q = choose|q: int| 0 <= q < this.len() && this[q] == p;
                assert(after[before.len() + q] == p);
            }
        }
        assert forall|t: int| 0 <= t < after.len() implies is_located(
            located,
            (#[trigger] after[t]).game_id,
            after[t].goal_id,
        ) by {
            if t < before.len() {
                assert(after[t] == before[t]);
            } else {
                assert(after[t] == this[t - before.len()]);
            }
        }
    }
}

} // verus!
