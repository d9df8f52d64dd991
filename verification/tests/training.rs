use mafia::graph::{build_graph, Graph};
use mafia::state::Config;

// Counterfactual-regret training over a built graph, as the solver binary
// runs it: the graph topology, action grouping and level index come from the
// library; the floating-point accumulators live here.

struct Trainer {
    // node -> action -> (successor, transition probability)
    probs: Vec<Vec<Vec<(usize, f32)>>>,
    strategy: Vec<Vec<f32>>,
    strategy_sum: Vec<Vec<f32>>,
    regret_sum: Vec<Vec<f32>>,
    equity: Vec<f32>,
    frequency: Vec<f32>,
}

fn normalize(regrets: &Vec<f32>) -> Vec<f32> {
    let mut strategy: Vec<f32> = regrets.iter().map(|&x| if x > 0.0 { x } else { 0.0 }).collect();
    let sum: f32 = strategy.iter().sum();
    if sum > 0.0 {
        strategy = strategy.iter().map(|&x| x / sum).collect();
    } else {
        strategy = vec![1.0 / regrets.len() as f32; regrets.len()];
    }
    strategy
}

fn new_trainer(g: &Graph) -> Trainer {
    let mut probs = Vec::with_capacity(g.nodes.len());
    let mut equity = vec![0f32; g.nodes.len()];
    let mut frequency = vec![0f32; g.nodes.len()];
    for (i, node) in g.nodes.iter().enumerate() {
        let mut acts = Vec::with_capacity(node.actions.len());
        for action in &node.actions {
            let transitions: Vec<(usize, f32)> = action
                .transitions
                .iter()
                .map(|&(to, c)| (to, c as f32 / action.total as f32))
                .collect();
            acts.push(transitions);
        }
        probs.push(acts);
        if node.actions.is_empty() {
            equity[i] = if node.win { 1.0 } else { 0.0 };
        }
    }
    frequency[0] = 1.0;
    let mut strategy = Vec::with_capacity(g.infosets.len());
    let mut strategy_sum = Vec::with_capacity(g.infosets.len());
    let mut regret_sum = Vec::with_capacity(g.infosets.len());
    for iso in &g.infosets {
        let n = iso.action_keys.len();
        strategy.push(vec![1.0 / n as f32; n]);
        strategy_sum.push(vec![0f32; n]);
        regret_sum.push(vec![0f32; n]);
    }
    Trainer { probs, strategy, strategy_sum, regret_sum, equity, frequency }
}

fn forward(g: &Graph, tr: &mut Trainer, player: usize, use_avg: bool) {
    for (i, level) in g.levels.iter().enumerate() {
        for (iso, members) in level {
            let strategy = if use_avg {
                normalize(&tr.strategy_sum[*iso])
            } else {
                tr.strategy[*iso].clone()
            };
            for &ni in members {
                for (k, transitions) in tr.probs[ni].iter().enumerate() {
                    for &(to, pt) in transitions {
                        let cf = if i % 2 == player { 1.0 } else { strategy[k] };
                        let f = tr.frequency[ni] * cf * pt;
                        tr.frequency[to] = f;
                    }
                }
            }
        }
    }
}

fn perfect_play(g: &Graph, tr: &mut Trainer, player: usize) -> f32 {
    forward(g, tr, player, true);
    for (i, level) in g.levels.iter().enumerate().rev() {
        for (iso, members) in level {
            if i % 2 == player {
                let n_actions = tr.strategy[*iso].len();
                let mut utilities = vec![0f32; n_actions];
                for &ni in members {
                    for (k, transitions) in tr.probs[ni].iter().enumerate() {
                        for &(to, pt) in transitions {
                            utilities[k] += (1.0 - tr.equity[to]) * pt * tr.frequency[ni];
                        }
                    }
                }
                let mut best = 0usize;
                for (k, u) in utilities.iter().enumerate() {
                    if *u > utilities[best] {
                        best = k;
                    }
                }
                for &ni in members {
                    let mut e = 0f32;
                    for &(to, pt) in &tr.probs[ni][best] {
                        e += pt * (1.0 - tr.equity[to]);
                    }
                    tr.equity[ni] = e;
                }
            } else {
                let strategy = normalize(&tr.strategy_sum[*iso]);
                for &ni in members {
                    let mut e = 0f32;
                    for (k, transitions) in tr.probs[ni].iter().enumerate() {
                        for &(to, pt) in transitions {
                            e += (1.0 - tr.equity[to]) * strategy[k] * pt;
                        }
                    }
                    tr.equity[ni] = e;
                }
            }
        }
    }
    tr.equity[0]
}

fn update_regrets(g: &Graph, tr: &mut Trainer, player: usize) {
    forward(g, tr, player, false);
    for (i, level) in g.levels.iter().enumerate().rev() {
        for (iso, members) in level {
            let n_actions = tr.strategy[*iso].len();
            let mut regrets = vec![0f32; n_actions];
            for &ni in members {
                let mut e = 0f32;
                for k in 0..n_actions {
                    let pa = tr.strategy[*iso][k];
                    for &(to, pt) in &tr.probs[ni][k] {
                        let w = 1.0 - tr.equity[to];
                        e += w * pa * pt;
                        regrets[k] += w * pt * tr.frequency[ni];
                    }
                }
                tr.equity[ni] = e;
                for k in 0..n_actions {
                    regrets[k] -= e * tr.frequency[ni];
                }
            }
            if i % 2 == player {
                for k in 0..n_actions {
                    tr.regret_sum[*iso][k] += regrets[k];
                }
                tr.strategy[*iso] = normalize(&tr.regret_sum[*iso]);
                for k in 0..n_actions {
                    tr.strategy_sum[*iso][k] += tr.strategy[*iso][k];
                }
            }
        }
    }
}

fn build(n_players: usize, n_mafias: usize, skip_first_day: bool) -> Graph {
    match build_graph(Config { n_players, n_mafias, skip_first_day }, 10_000_000) {
        Ok(g) => g,
        Err(e) => panic!("graph build failed: {:?}", e),
    }
}

#[test]
fn regret_matching_normalizes() {
    assert_eq!(normalize(&vec![0.0, 0.0, 0.0]), vec![1.0 / 3.0; 3]);
    assert_eq!(normalize(&vec![0.0, 0.0, 0.0, 0.0]), vec![0.25; 4]);
    assert_eq!(normalize(&vec![3.0, 0.0, 1.0]), vec![0.75, 0.0, 0.25]);
    assert_eq!(normalize(&vec![-2.0, 1.0, 1.0]), vec![0.0, 0.5, 0.5]);
}

#[test]
fn forward_pass_frequencies_form_a_distribution() {
    // With no counterfactual weighting (no player's probabilities forced to
    // one), each level's frequencies sum to one; with weighting they can only
    // grow past one for the weighted side, never the sum of a full strategy.
    let g = build(4, 1, false);
    let mut tr = new_trainer(&g);
    // Both sides play the passed-in (average, here uniform) strategy: walk
    // levels with a player index no depth parity ever matches.
    for (_, level) in g.levels.iter().enumerate() {
        for (iso, members) in level {
            let strategy = normalize(&tr.strategy_sum[*iso]);
            for &ni in members {
                for (k, transitions) in tr.probs[ni].iter().enumerate() {
                    for &(to, pt) in transitions {
                        let f = tr.frequency[ni] * strategy[k] * pt;
                        tr.frequency[to] = f;
                    }
                }
            }
        }
    }
    // Every node has exactly one predecessor (the graph is a tree), so each
    // node's frequency is written exactly once, and over any depth the
    // frequencies (terminal nodes included) form a probability distribution.
    let max_depth = g.nodes.iter().map(|n| n.state.kills.len()).max().unwrap();
    for d in 0..=max_depth {
        let mut sum = 0f32;
        for (i, node) in g.nodes.iter().enumerate() {
            if node.state.kills.len() == d {
                sum += tr.frequency[i];
            }
        }
        assert!((sum - 1.0).abs() < 1e-5);
    }
    // The non-terminal nodes alone can only fall short of one.
    for level in g.levels.iter() {
        let mut sum = 0f32;
        for (_, members) in level {
            for &ni in members {
                sum += tr.frequency[ni];
            }
        }
        assert!(sum <= 1.0 + 1e-5);
    }
}

#[test]
fn tiny_game_converges_to_its_value() {
    // Three players, one mafia: the town's best play votes into the
    // detective pair and wins half the time; training tightens the
    // exploitability bracket onto that value.
    let g = build(3, 1, false);
    // The two detective seats group into one vote from the town's viewpoint,
    // so the root mixes between two actions: the detective pair or the plain
    // townsfolk.
    assert_eq!(g.nodes[0].actions.len(), 2);
    let mut tr = new_trainer(&g);
    for _ in 0..600 {
        update_regrets(&g, &mut tr, 0);
        update_regrets(&g, &mut tr, 1);
    }
    let low = perfect_play(&g, &mut tr, 1);
    let high = perfect_play(&g, &mut tr, 0);
    // Voting into the detective pair wins half the time; anything else loses.
    assert!(high >= low - 1e-4);
    assert!((low - 0.5).abs() < 1e-3);
    assert!((high - 0.5).abs() < 1e-3);
}

#[test]
fn bracket_width_shrinks_with_training() {
    // After 100 epochs the exploitability bracket is strictly tighter than
    // before training, and the upper end never falls below the lower end.
    // (The seven-player reference graph runs to millions of nodes and does
    // not fit a test's time budget; five players exercise the same passes.)
    let g = build(5, 1, true);
    let mut tr = new_trainer(&g);
    let low0 = perfect_play(&g, &mut tr, 1);
    let high0 = perfect_play(&g, &mut tr, 0);
    assert!(high0 >= low0 - 1e-4);
    let width0 = high0 - low0;
    for _ in 0..100 {
        update_regrets(&g, &mut tr, 0);
        update_regrets(&g, &mut tr, 1);
    }
    let low1 = perfect_play(&g, &mut tr, 1);
    let high1 = perfect_play(&g, &mut tr, 0);
    assert!(high1 >= low1 - 1e-4);
    let width1 = high1 - low1;
    assert!(width1 < width0);
}

