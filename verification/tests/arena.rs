use ternary_arena::{Agent, Arena, ArenaRules, ArenaSpectator, Match, RoundResult, ScoreBoard, Tournament, Trit};

fn win_rate(spec: &ArenaSpectator, id: u64) -> f64 {
    let (wins, participated) = spec.win_record(id);
    if participated == 0 {
        0.0
    } else {
        wins as f64 / participated as f64
    }
}

#[test]
fn agent_move_at() {
    let agent = Agent::new(1, "test", vec![Trit::Pos, Trit::Neg]);
    assert_eq!(agent.move_at(0), Trit::Pos);
    assert_eq!(agent.move_at(1), Trit::Neg);
    assert_eq!(agent.move_at(2), Trit::Pos); // wraps
}

#[test]
fn agent_move_at_empty_strategy() {
    let agent = Agent::new(1, "test", vec![]);
    assert_eq!(agent.move_at(0), Trit::Zero);
}

#[test]
fn arena_rules_default_resolve() {
    let rules = ArenaRules::new();
    assert_eq!(rules.resolve(Trit::Pos, Trit::Neg), (3, 0));
    assert_eq!(rules.resolve(Trit::Pos, Trit::Pos), (1, 1));
    assert_eq!(rules.resolve(Trit::Zero, Trit::Pos), (3, 0));
}

#[test]
fn arena_rules_flat() {
    let rules = ArenaRules::flat();
    assert_eq!(rules.resolve(Trit::Pos, Trit::Pos), (1, 1));
    assert_eq!(rules.resolve(Trit::Pos, Trit::Neg), (0, 0));
}

#[test]
fn match_play_three_rounds() {
    let a = Agent::new(1, "a", vec![Trit::Pos]);
    let b = Agent::new(2, "b", vec![Trit::Neg]);
    let mut m = Match::new(a, b, 3);
    let (a_total, b_total) = m.play(&ArenaRules::new());
    assert_eq!(a_total, 9);
    assert_eq!(b_total, 0);
    assert_eq!(m.results.len(), 3);
    assert!(m.finished);
}

#[test]
fn match_winner() {
    let a = Agent::new(1, "a", vec![Trit::Pos]);
    let b = Agent::new(2, "b", vec![Trit::Neg]);
    let mut m = Match::new(a, b, 1);
    m.play(&ArenaRules::new());
    assert_eq!(m.winner(), Some(1));
}

#[test]
fn match_draw() {
    let a = Agent::new(1, "a", vec![Trit::Pos]);
    let b = Agent::new(2, "b", vec![Trit::Pos]);
    let mut m = Match::new(a, b, 1);
    m.play(&ArenaRules::new());
    assert_eq!(m.winner(), None);
}

#[test]
fn match_winner_before_play() {
    let a = Agent::new(1, "a", vec![Trit::Pos]);
    let b = Agent::new(2, "b", vec![Trit::Neg]);
    let m = Match::new(a, b, 1);
    assert_eq!(m.winner(), None);
}

#[test]
fn scoreboard_records_match() {
    let a = Agent::new(1, "a", vec![Trit::Pos]);
    let b = Agent::new(2, "b", vec![Trit::Neg]);
    let mut m = Match::new(a, b, 3);
    m.play(&ArenaRules::new());

    let mut sb = ScoreBoard::new();
    sb.record(&m);
    assert_eq!(sb.score(1), 9);
    assert_eq!(sb.score(2), 0);
    assert_eq!(sb.wins(1), 1);
    assert_eq!(sb.losses(2), 1);
}

#[test]
fn scoreboard_leaderboard() {
    let a = Agent::new(1, "a", vec![Trit::Pos]);
    let b = Agent::new(2, "b", vec![Trit::Neg]);
    let mut m = Match::new(a, b, 1);
    m.play(&ArenaRules::new());

    let mut sb = ScoreBoard::new();
    sb.record(&m);
    let board = sb.leaderboard();
    assert_eq!(board[0].0, 1);
}

#[test]
fn scoreboard_unregistered_agent() {
    let sb = ScoreBoard::new();
    assert_eq!(sb.score(999), 0);
    assert_eq!(sb.wins(999), 0);
}

#[test]
fn tournament_run_power_of_two() {
    let agents = vec![
        Agent::new(1, "a", vec![Trit::Pos]),
        Agent::new(2, "b", vec![Trit::Neg]),
        Agent::new(3, "c", vec![Trit::Zero]),
        Agent::new(4, "d", vec![Trit::Pos]),
    ];
    let mut t = Tournament::new("test", agents, 1);
    let champion = t.run(&ArenaRules::new());
    assert!(champion.is_some());
    assert!(t.finished);
    assert_eq!(t.match_count(), 3);
}

#[test]
fn tournament_odd_agents() {
    let agents = vec![
        Agent::new(1, "a", vec![Trit::Pos]),
        Agent::new(2, "b", vec![Trit::Neg]),
        Agent::new(3, "c", vec![Trit::Zero]),
    ];
    let mut t = Tournament::new("test", agents, 1);
    let champion = t.run(&ArenaRules::new());
    assert!(champion.is_some());
    assert_eq!(t.match_count(), 2);
}

#[test]
fn spectator_observe() {
    let mut spec = ArenaSpectator::new("observer");
    let a = Agent::new(1, "a", vec![Trit::Pos]);
    let b = Agent::new(2, "b", vec![Trit::Neg]);
    let mut m = Match::new(a, b, 1);
    m.play(&ArenaRules::new());
    spec.observe(&m);
    assert_eq!(spec.observation_count(), 1);
    assert_eq!(spec.observations()[0].winner_id, Some(1));
}

#[test]
fn spectator_win_rate() {
    let mut spec = ArenaSpectator::new("observer");
    let a = Agent::new(1, "a", vec![Trit::Pos]);
    let b = Agent::new(2, "b", vec![Trit::Neg]);
    let mut m1 = Match::new(a, b, 1);
    m1.play(&ArenaRules::new());
    spec.observe(&m1);
    let c = Agent::new(1, "a", vec![Trit::Neg]);
    let d = Agent::new(3, "c", vec![Trit::Pos]);
    let mut m2 = Match::new(c, d, 1);
    m2.play(&ArenaRules::new());
    spec.observe(&m2);

    assert!((win_rate(&spec, 1) - 0.5).abs() < 0.001);
}

#[test]
fn spectator_no_observations() {
    let spec = ArenaSpectator::new("observer");
    assert_eq!(win_rate(&spec, 1), 0.0);
}

#[test]
fn arena_play_match() {
    let mut arena = Arena::new("colosseum");
    let a = Agent::new(1, "a", vec![Trit::Pos]);
    let b = Agent::new(2, "b", vec![Trit::Neg]);
    let m = Match::new(a, b, 3);
    let result = arena.play_match(m);
    assert!(result.finished);
    assert_eq!(arena.scoreboard.score(1), 9);
    assert_eq!(arena.spectator.observation_count(), 1);
}

#[test]
fn arena_play_tournament() {
    let mut arena = Arena::new("colosseum");
    let agents = vec![
        Agent::new(1, "a", vec![Trit::Pos]),
        Agent::new(2, "b", vec![Trit::Neg]),
    ];
    let t = Tournament::new("cup", agents, 1);
    let champion = arena.play_tournament(t);
    assert_eq!(champion, Some(1));
}

#[test]
fn round_result_fields() {
    let rr = RoundResult {
        round: 5,
        a_move: Trit::Pos,
        b_move: Trit::Neg,
        a_points: 3,
        b_points: 0,
    };
    assert_eq!(rr.round, 5);
    assert_eq!(rr.a_points, 3);
}

#[test]
fn agent_strategy_len() {
    let agent = Agent::new(1, "a", vec![Trit::Pos, Trit::Neg, Trit::Zero]);
    assert_eq!(agent.strategy_len(), 3);
}
