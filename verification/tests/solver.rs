use mafia::graph::{build_graph, Graph, SolverError};
use mafia::state::{initial_state, Config, Player, State};

fn cfg(n_players: usize, n_mafias: usize, skip_first_day: bool) -> Config {
    Config { n_players, n_mafias, skip_first_day }
}

fn build(n_players: usize, n_mafias: usize, skip_first_day: bool) -> Graph {
    match build_graph(cfg(n_players, n_mafias, skip_first_day), 10_000_000) {
        Ok(g) => g,
        Err(e) => panic!("graph build failed: {:?}", e),
    }
}

#[test]
fn rejects_impossible_configs() {
    assert!(matches!(
        build_graph(cfg(3, 0, false), 1000),
        Err(SolverError::InvalidConfig)
    ));
    assert!(matches!(
        build_graph(cfg(3, 3, false), 1000),
        Err(SolverError::InvalidConfig)
    ));
    assert!(matches!(
        build_graph(cfg(2, 1, false), 1000),
        Err(SolverError::InvalidConfig)
    ));
    assert!(matches!(
        build_graph(cfg(3, 1, false), 2),
        Err(SolverError::GraphTooLarge)
    ));
}

#[test]
fn initial_state_shape() {
    let s = initial_state(cfg(7, 2, true));
    assert_eq!(s.players.len(), 4);
    assert!(!s.players[0].mafia && s.players[0].alive && s.players[0].count == 1);
    assert!(s.players[1].mafia && s.players[1].alive && s.players[1].count == 1);
    assert!(s.players[2].mafia && s.players[2].count == 1);
    assert!(!s.players[3].mafia && s.players[3].count == 4);
    assert_eq!(s.alive_total(), 7);
    assert_eq!(s.alive_mafias(), 2);
    assert!(s.is_day());
    assert!(!s.is_terminal());
}

#[test]
fn key_rendering() {
    assert_eq!(State::to_char(0, 7), '0');
    assert_eq!(State::to_char(3, 7), '3');
    assert_eq!(State::to_char(7, 7), '.');
    assert_eq!(State::inc('a'), 'b');
    assert_eq!(State::inc('0'), '1');
    assert_eq!(State::players_string(&vec![0, 7, 2], 7), "0.2");
    assert_eq!(State::responses_string(&vec![true, false, true]), "+-+");
    let s = initial_state(cfg(7, 2, true));
    assert_eq!(s.state_key(), ",,,");
}

#[test]
fn state_key_lists_histories() {
    let mut s = initial_state(cfg(7, 2, true));
    s.kills.push(7);
    s.kills.push(3);
    s.real_requests.push(2);
    s.fake_requests.push(0);
    s.fake_responses.push(true);
    assert_eq!(s.state_key(), ".3,2,0,+");
}

#[test]
fn mafia_key_renames_by_team() {
    // Mafia buckets draw letters from 'b', town buckets digits from '0';
    // the fake detective is always 'a' and the skip value stays '.'.
    let mut s = initial_state(cfg(7, 2, true));
    s.kills.push(2); // a mafia bucket
    s.fake_requests.push(3); // a town bucket
    s.fake_responses.push(true);
    assert_eq!(s.infostate_key_mafia(), "b,0,+");
    let mut t = initial_state(cfg(7, 2, true));
    t.kills.push(3);
    t.fake_requests.push(1);
    t.fake_responses.push(false);
    assert_eq!(t.infostate_key_mafia(), "0,a,-");
}

#[test]
fn town_key_swaps_detectives() {
    // Two day positions with the detectives' request histories exchanged
    // produce the same town information-set key (symmetry between the real
    // and the fake detective).
    let mut a = initial_state(cfg(7, 2, true));
    a.real_requests.push(2);
    a.fake_requests.push(3);
    let mut b = initial_state(cfg(7, 2, true));
    b.real_requests.push(3);
    b.fake_requests.push(2);
    assert_eq!(a.infostate_key_town(), b.infostate_key_town());
    assert_eq!(a.infostate_key(), b.infostate_key());
    // Either labeling renames the first-seen request target to '0' and the
    // second to '1', so both positions share this exact key.
    assert_eq!(a.infostate_key_town(), ",0,,1,");
    let root = initial_state(cfg(7, 2, true));
    assert_eq!(root.infostate_key_town(), ",,,,");
}

#[test]
fn termination_boundaries() {
    let day_players = vec![
        Player { alive: true, mafia: false, count: 1 },
        Player { alive: true, mafia: true, count: 1 },
        Player { alive: true, mafia: true, count: 1 },
        Player { alive: true, mafia: false, count: 4 },
    ];
    // Day, five live seats, two mafias: 5 > 2 * 2, play continues.
    let day = State {
        kills: vec![3, 3],
        real_requests: vec![3],
        real_responses: vec![],
        fake_requests: vec![3],
        fake_responses: vec![],
        players: {
            let mut p = day_players.clone();
            p[3].count = 3;
            p
        },
        n_players: 7,
        skip_first_day: true,
    };
    assert_eq!(day.alive_total(), 6);
    assert!(day.is_day());
    assert!(!day.is_terminal());
    // Night, five live seats, two mafias: 5 - 1 <= 2 * 2, mafia has won.
    let night = State {
        kills: vec![3, 3, 3],
        real_requests: vec![3],
        real_responses: vec![],
        fake_requests: vec![3],
        fake_responses: vec![],
        players: {
            let mut p = day_players.clone();
            p[3].count = 2;
            p
        },
        n_players: 7,
        skip_first_day: true,
    };
    assert_eq!(night.alive_total(), 5);
    assert!(!night.is_day());
    assert!(night.is_terminal());
    // No live mafia: town has won, whatever the parity.
    let cleared = State {
        kills: vec![1, 3],
        real_requests: vec![3],
        real_responses: vec![],
        fake_requests: vec![3],
        fake_responses: vec![],
        players: {
            let mut p = day_players.clone();
            p[1].alive = false;
            p[2].alive = false;
            p[3].count = 4;
            p
        },
        n_players: 7,
        skip_first_day: true,
    };
    assert_eq!(cleared.alive_mafias(), 0);
    assert!(cleared.is_terminal());
}

#[test]
fn touch_splits_buckets() {
    let s = initial_state(cfg(7, 2, true));
    let t = s.touch(3);
    assert_eq!(t.players.len(), 5);
    assert_eq!(t.players[3].count, 1);
    assert_eq!(t.players[4].count, 3);
    assert!(t.players[4].alive && !t.players[4].mafia);
    // Touching the skip value or a single-seat bucket changes nothing.
    let u = s.touch(7);
    assert_eq!(u.players.len(), 4);
    let v = s.touch(0);
    assert_eq!(v.players.len(), 4);
}

#[test]
fn three_player_root_votes_have_no_skip() {
    // With three live seats the skip option is excluded from the vote.
    let s = initial_state(cfg(3, 1, false));
    assert!(s.is_day());
    let votes = s.vote_candidates();
    assert_eq!(votes, vec![(0, 1), (1, 1), (2, 1)]);
}

#[test]
fn three_player_graph_is_small() {
    let g = build(3, 1, false);
    assert!(g.nodes.len() < 50);
    assert!(g.validate());
    assert!(g.validate_tree());
    assert!(g.validate_levels());
    assert!(g.validate_level_counts());
    assert!(g.validate_distinct_keys());
}

#[test]
fn transitions_are_legal_intents() {
    // Every stored transition is a legal intent of its parent with exactly
    // the stored multiplicity, and with no other.
    let g = build(4, 1, false);
    for node in &g.nodes {
        for action in &node.actions {
            for &(to, c) in &action.transitions {
                let t = &g.nodes[to].state;
                if node.state.is_day() {
                    assert!(node.state.is_day_successor(t, c));
                    assert!(!node.state.is_day_successor(t, c + 1));
                    assert!(!node.state.is_night_successor(t, c));
                } else {
                    assert!(node.state.is_night_successor(t, c));
                    assert!(!node.state.is_night_successor(t, c + 1));
                    assert!(!node.state.is_day_successor(t, c));
                }
            }
        }
    }
    // A position is no successor of itself.
    let root = &g.nodes[0].state;
    assert!(!root.is_day_successor(root, 1));
}

#[test]
fn four_player_root_vote_is_forced_skip() {
    let s = initial_state(cfg(4, 1, false));
    assert_eq!(s.alive_total(), 4);
    assert_eq!(s.vote_candidates(), vec![(4, 1)]);
    // The first day is a no-op: every transition out of the root keeps all
    // seats alive and records the skip value as the vote.
    let g = build(4, 1, false);
    for action in &g.nodes[0].actions {
        for &(to, _) in &action.transitions {
            let succ = &g.nodes[to].state;
            assert_eq!(succ.kills[0], 4);
            assert_eq!(succ.alive_total(), 4);
        }
    }
}

#[test]
fn skip_first_day_forces_the_vote() {
    let s = initial_state(cfg(7, 2, true));
    assert_eq!(s.vote_candidates(), vec![(7, 1)]);
}

#[test]
fn night_fake_response_branches_double() {
    // At night, when the fake detective lives and has an open request, each
    // kill splits into two successors, one per reported flag.
    let g = build(5, 1, true);
    // The root is a day node; each of its successors is a night node of the
    // shape above, and its transition count totals twice its kill candidates.
    let first_night = g.nodes[0].actions[0].transitions[0].0;
    let night_state = &g.nodes[first_night].state;
    assert!(!night_state.is_day());
    let mut total_transitions = 0;
    for action in &g.nodes[first_night].actions {
        total_transitions += action.transitions.len();
    }
    assert_eq!(
        total_transitions,
        2 * night_state.kill_candidates().len()
    );
    assert!(total_transitions >= 2);
}

#[test]
fn last_mafia_never_kills_itself() {
    // A night position with a single live mafia: the mafia buckets are
    // absent from the kill candidates.
    let s = State {
        kills: vec![2],
        real_requests: vec![3],
        real_responses: vec![],
        fake_requests: vec![3],
        fake_responses: vec![],
        players: vec![
            Player { alive: true, mafia: false, count: 1 },
            Player { alive: true, mafia: true, count: 1 },
            Player { alive: false, mafia: true, count: 1 },
            Player { alive: true, mafia: false, count: 4 },
        ],
        n_players: 7,
        skip_first_day: true,
    };
    assert!(!s.is_day());
    assert_eq!(s.alive_mafias(), 1);
    let kc = s.kill_candidates();
    assert!(!kc.is_empty());
    for &(i, _) in &kc {
        assert!(!s.players[i].mafia);
    }
    assert!(kc.iter().all(|&(i, _)| i != 1));
}

#[test]
fn probabilities_sum_to_one() {
    // For every action the transition multiplicities sum to the stored
    // total, so the induced probabilities sum to one exactly.
    let g = build(4, 1, false);
    for node in &g.nodes {
        for action in &node.actions {
            let sum: usize = action.transitions.iter().map(|&(_, c)| c).sum();
            assert_eq!(sum, action.total);
            assert!(action.total >= 1);
            let p: f32 = action
                .transitions
                .iter()
                .map(|&(_, c)| c as f32 / action.total as f32)
                .sum();
            assert!((p - 1.0).abs() < 1e-6);
        }
    }
}

#[test]
fn graph_is_a_tree() {
    let g = build(4, 1, false);
    let mut seen = vec![0usize; g.nodes.len()];
    for node in &g.nodes {
        for action in &node.actions {
            for &(to, _) in &action.transitions {
                seen[to] += 1;
            }
        }
    }
    assert_eq!(seen[0], 0);
    for x in 1..g.nodes.len() {
        assert_eq!(seen[x], 1);
    }
}

#[test]
fn infoset_sharing_aligns_actions() {
    let g = build(4, 1, false);
    for i in 0..g.nodes.len() {
        let a = &g.nodes[i];
        if a.actions.is_empty() {
            continue;
        }
        assert_eq!(
            a.actions.len(),
            g.infosets[a.infostate].action_keys.len()
        );
        for j in 0..g.nodes.len() {
            let b = &g.nodes[j];
            if b.actions.is_empty() || b.infostate != a.infostate {
                continue;
            }
            assert_eq!(a.actions.len(), b.actions.len());
        }
    }
}

#[test]
fn terminal_equity_matches_winner() {
    let g = build(4, 1, false);
    let mut terminals = 0;
    for node in &g.nodes {
        if node.state.is_terminal() {
            assert!(node.actions.is_empty());
            let expected = (node.state.alive_mafias() == 0) == node.state.is_day();
            assert_eq!(node.win, expected);
            terminals += 1;
        } else {
            assert!(!node.actions.is_empty());
            assert!(!node.win);
        }
    }
    assert!(terminals > 0);
}

#[test]
fn check_candidates_skip_when_dead_or_endgame() {
    let s = initial_state(cfg(7, 2, true));
    // A live detective with untouched candidates checks anyone but itself.
    let c = s.check_candidates(0, &vec![]);
    assert_eq!(c, vec![(1, 1), (2, 1), (3, 4)]);
    // Already-requested buckets are excluded.
    let c2 = s.check_candidates(0, &vec![1, 3]);
    assert_eq!(c2, vec![(2, 1)]);
    // A dead detective only skips.
    let mut t = s.duplicate();
    t.players[0] = Player { alive: false, mafia: false, count: 1 };
    assert_eq!(t.check_candidates(0, &vec![]), vec![(7, 1)]);
    // No remaining candidate falls back to the skip value.
    assert_eq!(s.check_candidates(0, &vec![1, 2, 3]), vec![(7, 1)]);
}
