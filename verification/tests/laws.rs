use ternary_arena::{Agent, Arena, ArenaRules, ArenaSpectator, Match, ScoreBoard, Tournament, Trit};

const ALL: [Trit; 3] = [Trit::Neg, Trit::Zero, Trit::Pos];

fn beats(a: Trit, b: Trit) -> bool {
    matches!(
        (a, b),
        (Trit::Pos, Trit::Neg) | (Trit::Neg, Trit::Zero) | (Trit::Zero, Trit::Pos)
    )
}

#[test]
fn trit_value_round_trip() {
    assert_eq!(Trit::Neg.value(), -1);
    assert_eq!(Trit::Zero.value(), 0);
    assert_eq!(Trit::Pos.value(), 1);
    for t in ALL {
        assert_eq!(Trit::from_i8(t.value()), Some(t));
    }
    assert_eq!(Trit::from_i8(2), None);
    assert_eq!(Trit::from_i8(-2), None);
    assert_eq!(Trit::from_i8(i8::MIN), None);
}

#[test]
fn default_rules_follow_cyclic_dominance() {
    let rules = ArenaRules::default();
    for a in ALL {
        for b in ALL {
            let expected = if beats(a, b) {
                (3, 0)
            } else if a == b {
                (1, 1)
            } else {
                (0, 3)
            };
            assert_eq!(rules.resolve(a, b), expected);
        }
    }
    assert_eq!(rules.resolve(Trit::Neg, Trit::Zero), (3, 0));
    assert_eq!(rules.resolve(Trit::Pos, Trit::Zero), (0, 3));
}

#[test]
fn flat_rules_all_pairs() {
    let rules = ArenaRules::flat();
    for a in ALL {
        for b in ALL {
            let expected = if a == b { (1, 1) } else { (0, 0) };
            assert_eq!(rules.resolve(a, b), expected);
        }
    }
}

#[test]
fn custom_points_change_one_entry() {
    let mut rules = ArenaRules::new();
    rules.set_points(Trit::Pos, Trit::Neg, 5);
    assert_eq!(rules.resolve(Trit::Pos, Trit::Neg), (5, 0));
    assert_eq!(rules.resolve(Trit::Neg, Trit::Pos), (0, 5));
    assert_eq!(rules.resolve(Trit::Zero, Trit::Pos), (3, 0));
    let copy = rules.clone();
    assert_eq!(copy.resolve(Trit::Pos, Trit::Neg), (5, 0));
}

#[test]
fn move_at_wraps_with_strategy_period() {
    let agent = Agent::new(7, "x", vec![Trit::Neg, Trit::Pos, Trit::Zero]);
    for r in 0..9usize {
        assert_eq!(agent.move_at(r), agent.move_at(r + 3));
    }
    assert_eq!(agent.move_at(4), Trit::Pos);
    assert_eq!(agent.move_at(usize::MAX), agent.move_at(usize::MAX % 3));
}

#[test]
fn agent_clone_keeps_fields() {
    let agent = Agent::new(3, "copy", vec![Trit::Zero, Trit::Pos]);
    let c = agent.clone();
    assert_eq!(c.id, 3);
    assert_eq!(c.name, "copy");
    assert_eq!(c.strategy, vec![Trit::Zero, Trit::Pos]);
}

#[test]
fn swapping_agents_swaps_totals() {
    let rules = ArenaRules::new();
    let a = Agent::new(1, "a", vec![Trit::Pos, Trit::Zero]);
    let b = Agent::new(2, "b", vec![Trit::Neg, Trit::Neg, Trit::Pos]);
    let mut m = Match::new(a.clone(), b.clone(), 4);
    assert_eq!(m.play(&rules), (4, 7));
    assert_eq!(m.winner(), Some(2));
    let mut swapped = Match::new(b, a, 4);
    assert_eq!(swapped.play(&rules), (7, 4));
    assert_eq!(swapped.winner(), Some(2));
}

#[test]
fn mirror_strategies_always_draw() {
    let rules = ArenaRules::new();
    let s = vec![Trit::Pos, Trit::Neg, Trit::Neg, Trit::Zero];
    let mut m = Match::new(Agent::new(1, "a", s.clone()), Agent::new(2, "b", s), 11);
    let (x, y) = m.play(&rules);
    assert_eq!(x, y);
    assert_eq!(x, 11);
    assert_eq!(m.winner(), None);
}

#[test]
fn match_results_record_every_round() {
    let rules = ArenaRules::new();
    let mut m = Match::new(
        Agent::new(1, "a", vec![Trit::Zero]),
        Agent::new(2, "b", vec![Trit::Pos, Trit::Neg]),
        3,
    );
    assert_eq!(m.play(&rules), (6, 3));
    assert_eq!(m.results.len(), 3);
    assert_eq!(m.results[1].round, 1);
    assert_eq!(m.results[1].a_move, Trit::Zero);
    assert_eq!(m.results[1].b_move, Trit::Neg);
    assert_eq!(m.results[1].a_points, 0);
    assert_eq!(m.results[1].b_points, 3);
    assert_eq!(m.total_points(), (6, 3));
    // playing again starts over
    assert_eq!(m.play(&rules), (6, 3));
    assert_eq!(m.results.len(), 3);
}

#[test]
fn second_agent_can_win() {
    let mut m = Match::new(
        Agent::new(1, "a", vec![Trit::Neg]),
        Agent::new(2, "b", vec![Trit::Pos]),
        2,
    );
    m.play(&ArenaRules::new());
    assert_eq!(m.winner(), Some(2));
    assert_eq!(m.total_points(), (0, 6));
}

#[test]
fn zero_round_match_is_a_draw() {
    let mut m = Match::new(
        Agent::new(1, "a", vec![Trit::Neg]),
        Agent::new(2, "b", vec![Trit::Pos]),
        0,
    );
    assert_eq!(m.play(&ArenaRules::new()), (0, 0));
    assert!(m.finished);
    assert_eq!(m.winner(), None);
}

#[test]
fn tournament_five_agents_plays_four_matches() {
    let agents = vec![
        Agent::new(1, "a", vec![Trit::Pos]),
        Agent::new(2, "b", vec![Trit::Neg]),
        Agent::new(3, "c", vec![Trit::Zero]),
        Agent::new(4, "d", vec![Trit::Pos]),
        Agent::new(5, "e", vec![Trit::Neg]),
    ];
    let mut t = Tournament::new("five", agents, 1);
    assert_eq!(t.run(&ArenaRules::new()), Some(5));
    assert_eq!(t.match_count(), 4);
    assert_eq!(t.bracket[2].agent_a.id, 1);
    assert_eq!(t.bracket[2].agent_b.id, 3);
    assert_eq!(t.bracket[3].agent_a.id, 3);
    assert_eq!(t.bracket[3].agent_b.id, 5);
    assert_eq!(t.agents.len(), 5);
}

#[test]
fn tournament_power_of_two_champion() {
    let agents = vec![
        Agent::new(1, "a", vec![Trit::Pos]),
        Agent::new(2, "b", vec![Trit::Neg]),
        Agent::new(3, "c", vec![Trit::Zero]),
        Agent::new(4, "d", vec![Trit::Pos]),
    ];
    let mut t = Tournament::new("four", agents, 1);
    assert_eq!(t.run(&ArenaRules::new()), Some(3));
    assert_eq!(t.name, "four");
}

#[test]
fn tournament_without_agents_has_no_champion() {
    let mut t = Tournament::new("empty", vec![], 3);
    assert_eq!(t.run(&ArenaRules::new()), None);
    assert_eq!(t.match_count(), 0);
    assert!(t.finished);
}

#[test]
fn tournament_single_agent_wins_unplayed() {
    let mut t = Tournament::new("solo", vec![Agent::new(42, "x", vec![])], 3);
    assert_eq!(t.run(&ArenaRules::new()), Some(42));
    assert_eq!(t.match_count(), 0);
}

#[test]
fn tournament_drawn_final_has_no_champion() {
    let agents = vec![
        Agent::new(1, "a", vec![Trit::Pos]),
        Agent::new(2, "b", vec![Trit::Pos]),
    ];
    let mut t = Tournament::new("tie", agents, 1);
    assert_eq!(t.run(&ArenaRules::new()), None);
    assert_eq!(t.match_count(), 1);
    assert_eq!(t.bracket[0].winner(), None);
    assert!(t.finished);
}

#[test]
fn tournament_early_draw_goes_to_first_agent() {
    // 8 and 9 draw, 8 advances and its Zero beats 10's Pos in the final.
    let agents = vec![
        Agent::new(8, "first", vec![Trit::Zero]),
        Agent::new(9, "second", vec![Trit::Zero]),
        Agent::new(10, "third", vec![Trit::Pos]),
    ];
    let mut t = Tournament::new("tie", agents, 5);
    assert_eq!(t.run(&ArenaRules::new()), Some(8));
    assert_eq!(t.bracket[1].agent_a.id, 8);
}

#[test]
fn arena_tournament_with_drawn_final() {
    let mut arena = Arena::new("colosseum");
    let agents = vec![
        Agent::new(1, "a", vec![Trit::Neg]),
        Agent::new(2, "b", vec![Trit::Neg]),
    ];
    assert_eq!(arena.play_tournament(Tournament::new("cup", agents, 2)), None);
    assert_eq!(arena.scoreboard.draws(1), 1);
    assert_eq!(arena.scoreboard.draws(2), 1);
}

#[test]
fn rules_entries_list_the_table() {
    let rules = ArenaRules::flat();
    let es = rules.entries();
    assert_eq!(es.len(), 9);
    assert_eq!(es[0], ((Trit::Neg, Trit::Neg), 1));
    assert_eq!(es[1], ((Trit::Neg, Trit::Zero), 0));
    assert_eq!(es[8], ((Trit::Pos, Trit::Pos), 1));
    let mut r = ArenaRules::new();
    r.remove_points(Trit::Zero, Trit::Pos);
    let es = r.entries();
    assert_eq!(es.len(), 8);
    assert!(!es.iter().any(|e| e.0 == (Trit::Zero, Trit::Pos)));
    assert_eq!(es[5], ((Trit::Pos, Trit::Neg), 3));
}

#[test]
fn tournament_shared_id_advances_first_agent() {
    // The second agent wins the first match but carries the first agent's
    // id, so the first agent (playing Neg) advances and beats Zero.
    let agents = vec![
        Agent::new(7, "neg", vec![Trit::Neg]),
        Agent::new(7, "pos", vec![Trit::Pos]),
        Agent::new(9, "zero", vec![Trit::Zero]),
    ];
    let mut t = Tournament::new("ids", agents, 1);
    assert_eq!(t.run(&ArenaRules::new()), Some(7));
    assert_eq!(t.bracket[1].agent_a.strategy, vec![Trit::Neg]);
}

#[test]
fn scoreboard_records_draw_for_both() {
    let mut m = Match::new(
        Agent::new(1, "a", vec![Trit::Zero]),
        Agent::new(2, "b", vec![Trit::Zero]),
        2,
    );
    m.play(&ArenaRules::new());
    let mut sb = ScoreBoard::default();
    sb.record(&m);
    assert_eq!(sb.draws(1), 1);
    assert_eq!(sb.draws(2), 1);
    assert_eq!(sb.wins(1), 0);
    assert_eq!(sb.losses(2), 0);
    assert_eq!(sb.score(1), 2);
    assert_eq!(sb.score(2), 2);
}

#[test]
fn scoreboard_ignores_unfinished_match() {
    let m = Match::new(Agent::new(1, "a", vec![]), Agent::new(2, "b", vec![]), 2);
    let mut sb = ScoreBoard::new();
    sb.record(&m);
    assert_eq!(sb.score(1), 0);
    assert_eq!(sb.draws(1), 0);
    assert!(sb.leaderboard().is_empty());
}

#[test]
fn leaderboard_lists_every_agent_by_score() {
    let mut arena = Arena::new("colosseum");
    let agents = vec![
        Agent::new(1, "a", vec![Trit::Pos]),
        Agent::new(2, "b", vec![Trit::Neg]),
        Agent::new(3, "c", vec![Trit::Zero]),
        Agent::new(4, "d", vec![Trit::Pos]),
    ];
    let champion = arena.play_tournament(Tournament::new("cup", agents, 1));
    assert_eq!(champion, Some(3));
    assert_eq!(arena.scoreboard.score(3), 6);
    assert_eq!(arena.scoreboard.score(1), 3);
    assert_eq!(arena.scoreboard.wins(3), 2);
    assert_eq!(arena.scoreboard.wins(1), 1);
    assert_eq!(arena.scoreboard.losses(1), 1);
    assert_eq!(arena.scoreboard.losses(2), 1);
    assert_eq!(arena.scoreboard.losses(4), 1);
    let board = arena.scoreboard.leaderboard();
    assert_eq!(board.len(), 4);
    assert_eq!(board[0], (3, 6));
    assert_eq!(board[1], (1, 3));
    let mut rest = vec![board[2], board[3]];
    rest.sort();
    assert_eq!(rest, vec![(2, 0), (4, 0)]);
    assert_eq!(arena.spectator.observation_count(), 3);
    assert_eq!(arena.spectator.observations()[2].winner_id, Some(3));
}

#[test]
fn spectator_win_record_counts() {
    let rules = ArenaRules::new();
    let mut spec = ArenaSpectator::new("observer");
    let mut m1 = Match::new(Agent::new(1, "a", vec![Trit::Pos]), Agent::new(2, "b", vec![Trit::Neg]), 1);
    m1.play(&rules);
    spec.observe(&m1);
    let mut m2 = Match::new(Agent::new(1, "a", vec![Trit::Neg]), Agent::new(3, "c", vec![Trit::Pos]), 1);
    m2.play(&rules);
    spec.observe(&m2);
    let unplayed = Match::new(Agent::new(1, "a", vec![]), Agent::new(4, "d", vec![]), 1);
    spec.observe(&unplayed);
    assert_eq!(spec.observation_count(), 2);
    assert_eq!(spec.win_record(1), (1, 2));
    assert_eq!(spec.win_record(3), (1, 1));
    assert_eq!(spec.win_record(2), (0, 1));
    assert_eq!(spec.win_record(9), (0, 0));
    let obs = spec.observations();
    assert_eq!(obs[1].agent_a_id, 1);
    assert_eq!(obs[1].agent_b_id, 3);
    assert_eq!(obs[1].a_total, 0);
    assert_eq!(obs[1].b_total, 3);
    assert_eq!(spec.clone().observation_count(), 2);
}

#[test]
fn arena_runs_match_in_place() {
    let mut arena = Arena::with_rules("flat", ArenaRules::flat());
    let mut m = Match::new(Agent::new(1, "a", vec![Trit::Pos]), Agent::new(2, "b", vec![Trit::Neg]), 2);
    arena.run_match_mut(&mut m);
    assert!(m.finished);
    assert_eq!(m.total_points(), (0, 0));
    assert_eq!(arena.scoreboard.draws(1), 1);
    assert_eq!(arena.scoreboard.draws(2), 1);
    assert_eq!(arena.spectator.observations()[0].winner_id, None);
    assert_eq!(arena.spectator.name, "arena-spectator");
    assert_eq!(arena.name, "flat");
}

#[test]
fn rules_table_holds_all_nine_pairs() {
    let rules = ArenaRules::new();
    let flat = ArenaRules::flat();
    for a in ALL {
        for b in ALL {
            let expected = if beats(a, b) {
                3
            } else if a == b {
                1
            } else {
                0
            };
            assert_eq!(rules.points_for(a, b), Some(expected));
            assert_eq!(flat.points_for(a, b), Some(if a == b { 1 } else { 0 }));
        }
    }
}

#[test]
fn removed_entry_is_worth_one_point() {
    let mut rules = ArenaRules::new();
    assert_eq!(rules.remove_points(Trit::Pos, Trit::Neg), Some(3));
    assert_eq!(rules.points_for(Trit::Pos, Trit::Neg), None);
    assert_eq!(rules.resolve(Trit::Pos, Trit::Neg), (1, 0));
    assert_eq!(rules.remove_points(Trit::Pos, Trit::Neg), None);
    assert_eq!(rules.points_for(Trit::Neg, Trit::Pos), Some(0));
}

fn played(a: (u64, Trit), b: (u64, Trit), rounds: usize) -> Match {
    let mut m = Match::new(Agent::new(a.0, "a", vec![a.1]), Agent::new(b.0, "b", vec![b.1]), rounds);
    m.play(&ArenaRules::new());
    m
}

#[test]
fn recording_order_does_not_matter() {
    let m1 = played((1, Trit::Pos), (2, Trit::Neg), 2);
    let m2 = played((2, Trit::Zero), (3, Trit::Zero), 3);
    let mut sb1 = ScoreBoard::new();
    sb1.record(&m1);
    sb1.record(&m2);
    let mut sb2 = ScoreBoard::new();
    sb2.record(&m2);
    sb2.record(&m1);
    for id in 0..5u64 {
        assert_eq!(sb1.score(id), sb2.score(id));
        assert_eq!(sb1.wins(id), sb2.wins(id));
        assert_eq!(sb1.losses(id), sb2.losses(id));
        assert_eq!(sb1.draws(id), sb2.draws(id));
    }
    let mut b1 = sb1.leaderboard();
    let mut b2 = sb2.leaderboard();
    b1.sort();
    b2.sort();
    assert_eq!(b1, b2);
    assert_eq!(sb1.score(2), 3);
}

#[test]
fn standings_balance_wins_and_losses() {
    let ms = vec![
        played((1, Trit::Pos), (2, Trit::Neg), 1),
        played((2, Trit::Zero), (3, Trit::Pos), 2),
        played((3, Trit::Neg), (1, Trit::Neg), 1),
        played((1, Trit::Zero), (3, Trit::Neg), 1),
    ];
    let mut sb = ScoreBoard::new();
    for m in &ms {
        sb.record(m);
    }
    let ids = [1u64, 2, 3];
    let wins: u32 = ids.iter().map(|&i| sb.wins(i)).sum();
    let losses: u32 = ids.iter().map(|&i| sb.losses(i)).sum();
    assert_eq!(wins, losses);
    assert_eq!(wins, 3);
    assert_eq!(sb.wins(1) + sb.losses(1) + sb.draws(1), 3);
    assert_eq!(sb.wins(2) + sb.losses(2) + sb.draws(2), 2);
    assert_eq!(sb.wins(3) + sb.losses(3) + sb.draws(3), 3);
    // 1: 3 + 1 + 0; 2: 0 + 6; 3: 0 + 1 + 3
    assert_eq!(sb.score(1), 4);
    assert_eq!(sb.score(2), 6);
    assert_eq!(sb.score(3), 4);
}

#[test]
fn in_place_and_by_value_runs_agree() {
    let mk = || Match::new(Agent::new(1, "a", vec![Trit::Neg, Trit::Zero]), Agent::new(2, "b", vec![Trit::Pos]), 5);
    let mut a1 = Arena::new("one");
    let mut a2 = Arena::new("one");
    let mut m = mk();
    a1.run_match_mut(&mut m);
    let p = a2.play_match(mk());
    assert_eq!(m.results, p.results);
    assert_eq!(m.finished, p.finished);
    assert_eq!(a1.scoreboard.score(1), a2.scoreboard.score(1));
    assert_eq!(a1.scoreboard.score(2), a2.scoreboard.score(2));
    assert_eq!(a1.scoreboard.wins(2), a2.scoreboard.wins(2));
    assert_eq!(a1.spectator.observation_count(), a2.spectator.observation_count());
    assert_eq!(m.total_points(), (6, 9));
}
