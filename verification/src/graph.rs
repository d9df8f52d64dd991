//! The game graph. A worklist enumerates every reachable position; the raw
//! transitions out of a node are grouped by the information-set key of their
//! successor (the acting team cannot tell grouped transitions apart, so each
//! group mixes under a single strategy weight and the multiplicities inside
//! it form a chance branch). A level index orders the non-terminal nodes by
//! depth and information set for the training passes.
//!
//! The builder re-checks every structural invariant it relies on at run time
//! and hands the finished graph to a verified validator, so `Ok` graphs carry
//! the well-formedness, alignment and tree facts in their contract.

use crate::keys::{bytes_eq, bytes_lt, lemma_lex_chain, lemma_lex_irrefl, lex_lt};
use crate::state::{
    copy_vec, day_edge, initial_players, initial_state, mafia_sum, night_edge, Config, Player,
    State,
};
use std::collections::HashMap;
use vstd::prelude::*;

verus! {

/// Why a graph could not be built.
#[derive(Clone, Copy, PartialEq, Eq, Structural, Debug)]
pub enum SolverError {
    /// The parameters describe no playable game.
    InvalidConfig,
    /// The enumeration hit the caller's node budget.
    GraphTooLarge,
    /// A structural invariant failed; the graph is not usable.
    InvariantViolation,
}

/// One action of a node: the transitions that the acting team cannot tell
/// apart. Transition `t` is taken with probability
/// `transitions[t].1 / total`.
pub struct Action {
    /// `(successor node index, multiplicity)` pairs.
    pub transitions: Vec<(usize, usize)>,
    /// The sum of the multiplicities.
    pub total: usize,
}

/// A vertex of the built graph.
pub struct Node {
    pub state: State,
    /// Index into the information-set table; meaningful on non-terminal nodes.
    pub infostate: usize,
    /// Empty exactly on terminal nodes.
    pub actions: Vec<Action>,
    /// On a terminal node: whether the side that just moved has won.
    pub win: bool,
}

/// An information set: its canonical key and the successor keys of its
/// actions, in the sorted order every member node's actions follow.
pub struct Infoset {
    pub key: Vec<u8>,
    pub action_keys: Vec<Vec<u8>>,
}

/// One level of the traversal index: groups of `(infostate index, member
/// node indices)` sharing the depth that equals the level's position.
pub type Level = Vec<(usize, Vec<usize>)>;

/// The built game graph.
pub struct Graph {
    pub cfg: Config,
    pub nodes: Vec<Node>,
    pub infosets: Vec<Infoset>,
    pub levels: Vec<Level>,
}

/// Sum of the multiplicities of a transition list.
pub open spec fn trans_total(ts: Seq<(usize, usize)>) -> int
    decreases ts.len(),
{
    if ts.len() == 0 {
        0
    } else {
        trans_total(ts.drop_last()) + ts.last().1
    }
}

pub proof fn lemma_trans_total_take_le(ts: Seq<(usize, usize)>, i: int)
    requires
        0 <= i <= ts.len(),
    ensures
        trans_total(ts.take(i)) <= trans_total(ts),
    decreases ts.len() - i,
{
    if i == ts.len() {
        assert(ts.take(i) =~= ts);
    } else {
        lemma_trans_total_take_le(ts, i + 1);
        assert(ts.take(i + 1).drop_last() =~= ts.take(i));
        assert(ts.take(i + 1).last() == ts[i]);
    }
}

/// How often `target` occurs as a successor in a transition list.
pub open spec fn tct(ts: Seq<(usize, usize)>, target: usize) -> int
    decreases ts.len(),
{
    if ts.len() == 0 {
        0
    } else {
        tct(ts.drop_last(), target) + if ts.last().0 == target {
            1int
        } else {
            0
        }
    }
}

/// How often `target` occurs as a successor across a node's actions.
pub open spec fn tca(acts: Seq<Action>, target: usize) -> int
    decreases acts.len(),
{
    if acts.len() == 0 {
        0
    } else {
        tca(acts.drop_last(), target) + tct(acts.last().transitions@, target)
    }
}

/// How often `target` occurs as a successor across all nodes.
pub open spec fn tcn(nodes: Seq<Node>, target: usize) -> int
    decreases nodes.len(),
{
    if nodes.len() == 0 {
        0
    } else {
        tcn(nodes.drop_last(), target) + tca(nodes.last().actions@, target)
    }
}

pub proof fn lemma_tct_nonneg(ts: Seq<(usize, usize)>, target: usize)
    ensures
        0 <= tct(ts, target),
    decreases ts.len(),
{
    if ts.len() > 0 {
        lemma_tct_nonneg(ts.drop_last(), target);
    }
}

pub proof fn lemma_tct_take_le(ts: Seq<(usize, usize)>, i: int, target: usize)
    requires
        0 <= i <= ts.len(),
    ensures
        tct(ts.take(i), target) <= tct(ts, target),
    decreases ts.len() - i,
{
    if i == ts.len() {
        assert(ts.take(i) =~= ts);
    } else {
        lemma_tct_take_le(ts, i + 1, target);
        assert(ts.take(i + 1).drop_last() =~= ts.take(i));
        assert(ts.take(i + 1).last() == ts[i]);
    }
}

pub proof fn lemma_tca_nonneg(acts: Seq<Action>, target: usize)
    ensures
        0 <= tca(acts, target),
    decreases acts.len(),
{
    if acts.len() > 0 {
        lemma_tca_nonneg(acts.drop_last(), target);
        lemma_tct_nonneg(acts.last().transitions@, target);
    }
}

pub proof fn lemma_tca_take_le(acts: Seq<Action>, i: int, target: usize)
    requires
        0 <= i <= acts.len(),
    ensures
        tca(acts.take(i), target) <= tca(acts, target),
    decreases acts.len() - i,
{
    if i == acts.len() {
        assert(acts.take(i) =~= acts);
    } else {
        lemma_tca_take_le(acts, i + 1, target);
        assert(acts.take(i + 1).drop_last() =~= acts.take(i));
        assert(acts.take(i + 1).last() == acts[i]);
        lemma_tct_nonneg(acts[i].transitions@, target);
    }
}

pub proof fn lemma_tcn_nonneg(nodes: Seq<Node>, target: usize)
    ensures
        0 <= tcn(nodes, target),
    decreases nodes.len(),
{
    if nodes.len() > 0 {
        lemma_tcn_nonneg(nodes.drop_last(), target);
        lemma_tca_nonneg(nodes.last().actions@, target);
    }
}

pub proof fn lemma_tcn_take_le(nodes: Seq<Node>, i: int, target: usize)
    requires
        0 <= i <= nodes.len(),
    ensures
        tcn(nodes.take(i), target) <= tcn(nodes, target),
    decreases nodes.len() - i,
{
    if i == nodes.len() {
        assert(nodes.take(i) =~= nodes);
    } else {
        lemma_tcn_take_le(nodes, i + 1, target);
        assert(nodes.take(i + 1).drop_last() =~= nodes.take(i));
        assert(nodes.take(i + 1).last() == nodes[i]);
        lemma_tca_nonneg(nodes[i].actions@, target);
    }
}

impl Graph {
    /// One transition is sound: it points at a non-root, well-formed node one
    /// kill deeper, carries a positive multiplicity, its successor's state
    /// follows from this node's state by one legal intent of the acting side
    /// with exactly this multiplicity, and the successor's information-set
    /// key (from the acting side's view) is the key of the action it belongs
    /// to.
    pub open spec fn trans_wf(self, i: int, k: int, t: int) -> bool {
        let nd = self.nodes@[i];
        let a = nd.actions@[k];
        let to = a.transitions@[t].0;
        let c = a.transitions@[t].1;
        &&& 1 <= to < self.nodes@.len()
        &&& c >= 1
        &&& self.nodes@[to as int].state.wf()
        &&& self.nodes@[to as int].state.kills@.len() == nd.state.kills@.len() + 1
        &&& (if nd.state.kills@.len() % 2 == 0 {
            day_edge(nd.state, self.nodes@[to as int].state, c as int)
        } else {
            night_edge(nd.state, self.nodes@[to as int].state, c as int)
        })
        &&& (if nd.state.kills@.len() % 2 == 0 {
            self.nodes@[to as int].state.town_key_view()
        } else {
            self.nodes@[to as int].state.night_key_view()
        }) == self.infosets@[nd.infostate as int].action_keys@[k]@
    }

    /// One action is sound: it has at least one transition, its stored total
    /// is the sum of the multiplicities (so the transition probabilities
    /// `count / total` sum to one exactly), and each transition is sound.
    pub open spec fn action_wf(self, i: int, k: int) -> bool {
        let a = self.nodes@[i].actions@[k];
        &&& a.transitions@.len() >= 1
        &&& a.total == trans_total(a.transitions@)
        &&& a.total >= 1
        &&& forall|t: int| 0 <= t < a.transitions@.len() ==> self.trans_wf(i, k, t)
    }

    /// One node is sound: well-formed state under the graph's parameters,
    /// terminal exactly when it has no actions, the recorded win flag on a
    /// terminal node says whether the side that just moved has won, and on a
    /// non-terminal node the information set exists, holds the node's own
    /// key, and aligns with the node's actions.
    pub open spec fn node_wf(self, i: int) -> bool {
        let nd = self.nodes@[i];
        &&& nd.state.wf()
        &&& nd.state.n_players == self.cfg.n_players
        &&& nd.state.skip_first_day == self.cfg.skip_first_day
        &&& (nd.state.terminal() <==> nd.actions@.len() == 0)
        &&& (nd.state.terminal() ==> nd.win == ((mafia_sum(nd.state.players@) == 0) == (
        nd.state.kills@.len() % 2 == 0)))
        &&& (!nd.state.terminal() ==> {
            &&& !nd.win
            &&& nd.infostate < self.infosets@.len()
            &&& self.infosets@[nd.infostate as int].key@ == nd.state.infostate_key_view()
            &&& nd.actions@.len() == self.infosets@[nd.infostate as int].action_keys@.len()
            &&& forall|k: int| 0 <= k < nd.actions@.len() ==> self.action_wf(i, k)
        })
    }

    /// The action keys of an information set are strictly sorted, so every
    /// member node's actions line up with them in one canonical order.
    pub open spec fn infoset_sorted(self, s: int) -> bool {
        let ks = self.infosets@[s].action_keys@;
        forall|k: int| 0 <= k < ks.len() - 1 ==> lex_lt(#[trigger] ks[k]@, ks[k + 1]@)
    }

    /// The whole graph is sound.
    pub open spec fn wf(self) -> bool {
        &&& 1 <= self.nodes@.len()
        &&& forall|i: int| 0 <= i < self.nodes@.len() ==> self.node_wf(i)
        &&& forall|s: int| 0 <= s < self.infosets@.len() ==> self.infoset_sorted(s)
        &&& self.infoset_keys_distinct()
    }

    /// The graph is a tree rooted at node 0: the root is no transition's
    /// target and every other node is the target of exactly one transition.
    pub open spec fn tree(self) -> bool {
        &&& tcn(self.nodes@, 0) == 0
        &&& forall|x: usize| 1 <= x < self.nodes@.len() ==> tcn(self.nodes@, x) == 1
    }

    /// One level-index member is sound: it names a non-terminal node whose
    /// depth is the level's position and whose information set is the
    /// group's.
    pub open spec fn level_member_ok(self, d: int, g: int, j: int) -> bool {
        let grp = self.levels@[d]@[g];
        let idx = grp.1@[j];
        &&& idx < self.nodes@.len()
        &&& self.nodes@[idx as int].actions@.len() >= 1
        &&& self.nodes@[idx as int].state.kills@.len() == d
        &&& self.nodes@[idx as int].infostate == grp.0
    }

    /// The level index is sound: no empty level or group, the groups of a
    /// level are strictly ascending by information-set index (one group per
    /// information set), and every listed node belongs where it stands.
    pub open spec fn levels_wf(self) -> bool {
        &&& forall|d: int| 0 <= d < self.levels@.len() ==> self.levels@[d]@.len() >= 1
        &&& forall|d: int, g: int|
            0 <= d < self.levels@.len() && 0 <= g < self.levels@[d]@.len()
                ==> (#[trigger] self.levels@[d]@[g]).1@.len() >= 1
        &&& forall|d: int, g: int|
            0 <= d < self.levels@.len() && 0 <= g < self.levels@[d]@.len() - 1
                ==> (#[trigger] self.levels@[d]@[g]).0 < self.levels@[d]@[g + 1].0
        &&& forall|d: int, g: int, j: int|
            0 <= d < self.levels@.len() && 0 <= g < self.levels@[d]@.len() && 0 <= j
                < self.levels@[d]@[g].1@.len() ==> self.level_member_ok(d, g, j)
    }

    fn validate_action(&self, i: usize, k: usize) -> (r: bool)
        requires
            i < self.nodes@.len(),
            k < self.nodes@[i as int].actions@.len(),
            self.nodes@[i as int].state.wf(),
            self.nodes@[i as int].infostate < self.infosets@.len(),
            k < self.infosets@[self.nodes@[i as int].infostate as int].action_keys@.len(),
        ensures
            r == self.action_wf(i as int, k as int),
    {
        let nd = &self.nodes[i];
        let a = &nd.actions[k];
        if a.transitions.len() < 1 {
            return false;
        }
        let mut total: usize = 0;
        let mut t: usize = 0;
        while t < a.transitions.len()
            invariant
                0 <= t <= a.transitions@.len(),
                i < self.nodes@.len(),
                k < self.nodes@[i as int].actions@.len(),
                nd == &self.nodes@[i as int],
                a == &self.nodes@[i as int].actions@[k as int],
                self.nodes@[i as int].state.wf(),
                self.nodes@[i as int].infostate < self.infosets@.len(),
                k < self.infosets@[self.nodes@[i as int].infostate as int].action_keys@.len(),
                total == trans_total(a.transitions@.take(t as int)),
                forall|t2: int| 0 <= t2 < t ==> self.trans_wf(i as int, k as int, t2),
            decreases a.transitions@.len() - t,
        {
            proof {
                assert(a.transitions@.take(t + 1).drop_last() =~= a.transitions@.take(t as int));
                assert(a.transitions@.take(t + 1).last() == a.transitions@[t as int]);
            }
            let to: usize = a.transitions[t].0;
            let c: usize = a.transitions[t].1;
            if !(1 <= to && to < self.nodes.len()) {
                proof {
                    assert(!self.trans_wf(i as int, k as int, t as int));
                }
                return false;
            }
            if c < 1 {
                proof {
                    assert(!self.trans_wf(i as int, k as int, t as int));
                }
                return false;
            }
            if c > usize::MAX - total {
                proof {
                    lemma_trans_total_take_le(a.transitions@, t + 1);
                }
                return false;
            }
            total = total + c;
            let succ = &self.nodes[to];
            if !succ.state.is_wf() {
                proof {
                    assert(!self.trans_wf(i as int, k as int, t as int));
                }
                return false;
            }
            let nd_len: usize = nd.state.kills.len();
            let succ_len: usize = succ.state.kills.len();
            if nd_len == usize::MAX || succ_len != nd_len + 1 {
                proof {
                    assert(succ.state.kills@.len() == succ_len);
                    assert(!self.trans_wf(i as int, k as int, t as int));
                }
                return false;
            }
            let edge_ok: bool = if nd.state.is_day() {
                nd.state.is_day_successor(&succ.state, c)
            } else {
                nd.state.is_night_successor(&succ.state, c)
            };
            if !edge_ok {
                proof {
                    assert(!self.trans_wf(i as int, k as int, t as int));
                }
                return false;
            }
            let skey: Vec<u8> = if nd.state.is_day() {
                succ.state.infostate_key_town_bytes()
            } else {
                succ.state.infostate_key_mafia_bytes()
            };
            if !bytes_eq(&skey, &self.infosets[nd.infostate].action_keys[k]) {
                proof {
                    assert(!self.trans_wf(i as int, k as int, t as int));
                }
                return false;
            }
            t = t + 1;
        }
        proof {
            assert(a.transitions@.take(a.transitions@.len() as int) =~= a.transitions@);
        }
        total == a.total && total >= 1
    }

    fn validate_node(&self, i: usize) -> (r: bool)
        requires
            i < self.nodes@.len(),
        ensures
            r == self.node_wf(i as int),
    {
        let nd = &self.nodes[i];
        if !nd.state.is_wf() {
            return false;
        }
        if nd.state.n_players != self.cfg.n_players || nd.state.skip_first_day
            != self.cfg.skip_first_day {
            return false;
        }
        let term = nd.state.is_terminal();
        if term != (nd.actions.len() == 0) {
            return false;
        }
        if term {
            let expected = (nd.state.alive_mafias() == 0) == nd.state.is_day();
            return nd.win == expected;
        }
        if nd.win {
            return false;
        }
        if !(nd.infostate < self.infosets.len()) {
            return false;
        }
        let own = nd.state.infostate_key_bytes();
        if !bytes_eq(&self.infosets[nd.infostate].key, &own) {
            return false;
        }
        if nd.actions.len() != self.infosets[nd.infostate].action_keys.len() {
            return false;
        }
        let mut k: usize = 0;
        while k < nd.actions.len()
            invariant
                0 <= k <= nd.actions@.len(),
                i < self.nodes@.len(),
                nd == &self.nodes@[i as int],
                nd.state.wf(),
                nd.infostate < self.infosets@.len(),
                nd.actions@.len() == self.infosets@[nd.infostate as int].action_keys@.len(),
                forall|k2: int| 0 <= k2 < k ==> self.action_wf(i as int, k2),
            decreases nd.actions@.len() - k,
        {
            if !self.validate_action(i, k) {
                return false;
            }
            k = k + 1;
        }
        true
    }

    fn validate_infoset(&self, s: usize) -> (r: bool)
        requires
            s < self.infosets@.len(),
        ensures
            r == self.infoset_sorted(s as int),
    {
        let ks = &self.infosets[s].action_keys;
        let mut k: usize = 0;
        if ks.len() == 0 {
            return true;
        }
        while k < ks.len() - 1
            invariant
                s < self.infosets@.len(),
                ks == &self.infosets@[s as int].action_keys,
                ks@.len() >= 1,
                0 <= k <= ks@.len() - 1,
                forall|k2: int| 0 <= k2 < k ==> lex_lt(#[trigger] ks@[k2]@, ks@[k2 + 1]@),
            decreases ks@.len() - k,
        {
            if !bytes_lt(&ks[k], &ks[k + 1]) {
                return false;
            }
            k = k + 1;
        }
        true
    }

    /// Whether the whole graph is sound; `true` exactly when `wf` holds.
    pub fn validate(&self) -> (r: bool)
        ensures
            r == self.wf(),
    {
        if self.nodes.len() < 1 {
            return false;
        }
        let mut i: usize = 0;
        while i < self.nodes.len()
            invariant
                0 <= i <= self.nodes@.len(),
                forall|j: int| 0 <= j < i ==> self.node_wf(j),
            decreases self.nodes@.len() - i,
        {
            if !self.validate_node(i) {
                return false;
            }
            i = i + 1;
        }
        let mut s: usize = 0;
        while s < self.infosets.len()
            invariant
                0 <= s <= self.infosets@.len(),
                1 <= self.nodes@.len(),
                forall|j: int| 0 <= j < self.nodes@.len() ==> self.node_wf(j),
                forall|j: int| 0 <= j < s ==> self.infoset_sorted(j),
            decreases self.infosets@.len() - s,
        {
            if !self.validate_infoset(s) {
                return false;
            }
            s = s + 1;
        }
        self.validate_distinct_keys()
    }

    /// Whether the graph is a tree rooted at node 0; `true` exactly when
    /// `tree` holds.
    pub fn validate_tree(&self) -> (r: bool)
        ensures
            r == self.tree(),
    {
        let n = self.nodes.len();
        let mut seen: Vec<u8> = Vec::new();
        let mut z: usize = 0;
        while z < n
            invariant
                0 <= z <= n,
                n == self.nodes@.len(),
                seen@.len() == z,
                forall|x: int| 0 <= x < z ==> seen@[x] == 0,
            decreases n - z,
        {
            seen.push(0);
            z = z + 1;
        }
        let mut i: usize = 0;
        while i < n
            invariant
                0 <= i <= n,
                n == self.nodes@.len(),
                seen@.len() == n,
                forall|x: usize|
                    0 <= x < n ==> seen@[x as int] == tcn(self.nodes@.take(i as int), x),
                forall|x: int| 0 <= x < n ==> seen@[x] == 0 || seen@[x] == 1,
                seen@.len() >= 1 ==> seen@[0] == 0,
            decreases n - i,
        {
            proof {
                assert(self.nodes@.take(i + 1).drop_last() =~= self.nodes@.take(i as int));
                assert(self.nodes@.take(i + 1).last() == self.nodes@[i as int]);
            }
            let acts = &self.nodes[i].actions;
            let mut k: usize = 0;
            while k < acts.len()
                invariant
                    0 <= k <= acts@.len(),
                    n == self.nodes@.len(),
                    i < n,
                    acts == &self.nodes@[i as int].actions,
                    seen@.len() == n,
                    forall|x: usize|
                        0 <= x < n ==> seen@[x as int] == tcn(self.nodes@.take(i as int), x) + tca(
                            acts@.take(k as int),
                            x,
                        ),
                    forall|x: int| 0 <= x < n ==> seen@[x] == 0 || seen@[x] == 1,
                    seen@.len() >= 1 ==> seen@[0] == 0,
                decreases acts@.len() - k,
            {
                proof {
                    assert(acts@.take(k + 1).drop_last() =~= acts@.take(k as int));
                    assert(acts@.take(k + 1).last() == acts@[k as int]);
                }
                let ts = &acts[k].transitions;
                let mut t: usize = 0;
                while t < ts.len()
                    invariant
                        0 <= t <= ts@.len(),
                        n == self.nodes@.len(),
                        i < n,
                        k < acts@.len(),
                        acts == &self.nodes@[i as int].actions,
                        ts == &acts@[k as int].transitions,
                        seen@.len() == n,
                        forall|x: usize|
                            0 <= x < n ==> seen@[x as int] == tcn(self.nodes@.take(i as int), x)
                                + tca(acts@.take(k as int), x) + tct(ts@.take(t as int), x),
                        forall|x: int| 0 <= x < n ==> seen@[x] == 0 || seen@[x] == 1,
                        seen@.len() >= 1 ==> seen@[0] == 0,
                    decreases ts@.len() - t,
                {
                    proof {
                        assert(ts@.take(t + 1).drop_last() =~= ts@.take(t as int));
                        assert(ts@.take(t + 1).last() == ts@[t as int]);
                    }
                    let to: usize = ts[t].0;
                    if to < n {
                        if to == 0 || seen[to] == 1 {
                            proof {
                                lemma_tcn_take_le(self.nodes@, i as int, to);
                                lemma_tca_take_le(acts@, k as int, to);
                                lemma_tct_take_le(ts@, t + 1, to);
                                lemma_tct_nonneg(ts@.take(t as int), to);
                                lemma_tca_nonneg(acts@.take(k as int), to);
                                lemma_tcn_nonneg(self.nodes@.take(i as int), to);
                                assert(tcn(self.nodes@, to) >= tcn(self.nodes@.take(i as int), to)
                                    + tca(acts@.take(k as int), to) + tct(ts@.take(t + 1), to)) by {
                                    lemma_tcn_split(self.nodes@, i as int, k as int, t + 1, to);
                                };
                            }
                            return false;
                        }
                        let sv: u8 = seen[to];
                        seen[to] = sv + 1;
                    }
                    t = t + 1;
                }
                proof {
                    assert(ts@.take(ts@.len() as int) =~= ts@);
                }
                k = k + 1;
            }
            proof {
                assert(acts@.take(acts@.len() as int) =~= acts@);
            }
            i = i + 1;
        }
        proof {
            assert(self.nodes@.take(n as int) =~= self.nodes@);
        }
        let mut x: usize = 1;
        while x < n
            invariant
                1 <= x <= n || n == 0,
                n == self.nodes@.len(),
                seen@.len() == n,
                forall|y: usize| 0 <= y < n ==> seen@[y as int] == tcn(self.nodes@, y),
                forall|y: usize| 1 <= y < x ==> tcn(self.nodes@, y) == 1,
            decreases n - x,
        {
            if seen[x] != 1 {
                return false;
            }
            x = x + 1;
        }
        true
    }
}

/// How often `x` occurs in one group's member list.
pub open spec fn lcm(ms: Seq<usize>, x: usize) -> int
    decreases ms.len(),
{
    if ms.len() == 0 {
        0
    } else {
        lcm(ms.drop_last(), x) + if ms.last() == x {
            1int
        } else {
            0
        }
    }
}

/// How often `x` occurs across one level's groups.
pub open spec fn lcg(gs: Seq<(usize, Vec<usize>)>, x: usize) -> int
    decreases gs.len(),
{
    if gs.len() == 0 {
        0
    } else {
        lcg(gs.drop_last(), x) + lcm(gs.last().1@, x)
    }
}

/// How often `x` occurs across the whole level index.
pub open spec fn lcl(ls: Seq<Level>, x: usize) -> int
    decreases ls.len(),
{
    if ls.len() == 0 {
        0
    } else {
        lcl(ls.drop_last(), x) + lcg(ls.last()@, x)
    }
}

pub proof fn lemma_lcm_nonneg(ms: Seq<usize>, x: usize)
    ensures
        0 <= lcm(ms, x),
    decreases ms.len(),
{
    if ms.len() > 0 {
        lemma_lcm_nonneg(ms.drop_last(), x);
    }
}

pub proof fn lemma_lcm_take_le(ms: Seq<usize>, i: int, x: usize)
    requires
        0 <= i <= ms.len(),
    ensures
        lcm(ms.take(i), x) <= lcm(ms, x),
    decreases ms.len() - i,
{
    if i == ms.len() {
        assert(ms.take(i) =~= ms);
    } else {
        lemma_lcm_take_le(ms, i + 1, x);
        assert(ms.take(i + 1).drop_last() =~= ms.take(i));
        assert(ms.take(i + 1).last() == ms[i]);
    }
}

pub proof fn lemma_lcg_nonneg(gs: Seq<(usize, Vec<usize>)>, x: usize)
    ensures
        0 <= lcg(gs, x),
    decreases gs.len(),
{
    if gs.len() > 0 {
        lemma_lcg_nonneg(gs.drop_last(), x);
        lemma_lcm_nonneg(gs.last().1@, x);
    }
}

pub proof fn lemma_lcg_take_le(gs: Seq<(usize, Vec<usize>)>, i: int, x: usize)
    requires
        0 <= i <= gs.len(),
    ensures
        lcg(gs.take(i), x) <= lcg(gs, x),
    decreases gs.len() - i,
{
    if i == gs.len() {
        assert(gs.take(i) =~= gs);
    } else {
        lemma_lcg_take_le(gs, i + 1, x);
        assert(gs.take(i + 1).drop_last() =~= gs.take(i));
        assert(gs.take(i + 1).last() == gs[i]);
        lemma_lcm_nonneg(gs[i].1@, x);
    }
}

pub proof fn lemma_lcl_nonneg(ls: Seq<Level>, x: usize)
    ensures
        0 <= lcl(ls, x),
    decreases ls.len(),
{
    if ls.len() > 0 {
        lemma_lcl_nonneg(ls.drop_last(), x);
        lemma_lcg_nonneg(ls.last()@, x);
    }
}

pub proof fn lemma_lcl_take_le(ls: Seq<Level>, i: int, x: usize)
    requires
        0 <= i <= ls.len(),
    ensures
        lcl(ls.take(i), x) <= lcl(ls, x),
    decreases ls.len() - i,
{
    if i == ls.len() {
        assert(ls.take(i) =~= ls);
    } else {
        lemma_lcl_take_le(ls, i + 1, x);
        assert(ls.take(i + 1).drop_last() =~= ls.take(i));
        assert(ls.take(i + 1).last() == ls[i]);
        lemma_lcg_nonneg(ls[i]@, x);
    }
}

/// A positive occurrence count names a position.
pub proof fn lemma_lcm_pos_exists(ms: Seq<usize>, x: usize)
    requires
        lcm(ms, x) >= 1,
    ensures
        exists|p: int| 0 <= p < ms.len() && ms[p] == x,
    decreases ms.len(),
{
    if ms.len() > 0 {
        if ms.last() == x {
            assert(ms[ms.len() - 1] == x);
        } else {
            lemma_lcm_pos_exists(ms.drop_last(), x);
            let p = choose|p: int| 0 <= p < ms.drop_last().len() && ms.drop_last()[p] == x;
            assert(ms[p] == x);
        }
    }
}

/// The whole-index occurrence count of `x` dominates the count over a prefix
/// of levels, groups and members.
pub proof fn lemma_lcl_split(ls: Seq<Level>, d: int, g: int, j: int, x: usize)
    requires
        0 <= d < ls.len(),
        0 <= g < ls[d]@.len(),
        0 <= j <= ls[d]@[g].1@.len(),
    ensures
        lcl(ls, x) >= lcl(ls.take(d), x) + lcg(ls[d]@.take(g), x) + lcm(ls[d]@[g].1@.take(j), x),
{
    lemma_lcl_take_le(ls, d + 1, x);
    assert(ls.take(d + 1).drop_last() =~= ls.take(d));
    assert(ls.take(d + 1).last() == ls[d]);
    lemma_lcg_take_le(ls[d]@, g + 1, x);
    assert(ls[d]@.take(g + 1).drop_last() =~= ls[d]@.take(g));
    assert(ls[d]@.take(g + 1).last() == ls[d]@[g]);
    lemma_lcm_take_le(ls[d]@[g].1@, j, x);
}

/// Merge sort of information-set indices by their keys. Nothing is claimed of
/// the order: the caller re-checks it, falling back to a pairwise scan if
/// this ever failed to sort.
fn msort_keys(infosets: &Vec<Infoset>, v: Vec<usize>) -> (r: Vec<usize>)
    requires
        forall|j: int| 0 <= j < v@.len() ==> #[trigger] v@[j] < infosets@.len(),
    ensures
        forall|j: int| 0 <= j < r@.len() ==> #[trigger] r@[j] < infosets@.len(),
    decreases v@.len(),
{
    if v.len() <= 1 {
        return v;
    }
    let mut left = v;
    let mid: usize = left.len() / 2;
    let right = left.split_off(mid);
    let ls = msort_keys(infosets, left);
    let rs = msort_keys(infosets, right);
    let mut out: Vec<usize> = Vec::new();
    let mut i: usize = 0;
    let mut j: usize = 0;
    while i < ls.len() || j < rs.len()
        invariant
            0 <= i <= ls@.len(),
            0 <= j <= rs@.len(),
            forall|k: int| 0 <= k < ls@.len() ==> #[trigger] ls@[k] < infosets@.len(),
            forall|k: int| 0 <= k < rs@.len() ==> #[trigger] rs@[k] < infosets@.len(),
            forall|k: int| 0 <= k < out@.len() ==> #[trigger] out@[k] < infosets@.len(),
        decreases ls@.len() - i + rs@.len() - j,
    {
        if j >= rs.len() {
            out.push(ls[i]);
            i = i + 1;
        } else if i >= ls.len() {
            out.push(rs[j]);
            j = j + 1;
        } else if bytes_lt(&infosets[rs[j]].key, &infosets[ls[i]].key) {
            out.push(rs[j]);
            j = j + 1;
        } else {
            out.push(ls[i]);
            i = i + 1;
        }
    }
    out
}

impl Graph {
    /// Distinct information-set entries carry distinct keys, so together with
    /// `node_wf`'s key binding a node's own key determines its
    /// information-set index.
    pub open spec fn infoset_keys_distinct(self) -> bool {
        forall|s1: int, s2: int|
            0 <= s1 < s2 < self.infosets@.len() ==> (#[trigger] self.infosets@[s1].key@) != (
            #[trigger] self.infosets@[s2].key@)
    }

    /// The keys of the information sets, in the candidate order `order`.
    pub open spec fn keys_in_order(self, order: Seq<usize>) -> Seq<Seq<u8>> {
        Seq::new(order.len(), |p: int| self.infosets@[order[p] as int].key@)
    }

    /// When this returns true, `order` visits every information-set index
    /// exactly once.
    fn check_perm(&self, order: &Vec<usize>) -> (r: bool)
        ensures
            r ==> order@.len() == self.infosets@.len() && forall|x: usize|
                0 <= x < self.infosets@.len() ==> lcm(order@, x) == 1,
    {
        let n = self.infosets.len();
        if order.len() != n {
            return false;
        }
        let mut seen: Vec<u8> = Vec::new();
        let mut z: usize = 0;
        while z < n
            invariant
                0 <= z <= n,
                seen@.len() == z,
                forall|x: int| 0 <= x < z ==> seen@[x] == 0,
            decreases n - z,
        {
            seen.push(0);
            z = z + 1;
        }
        let mut p: usize = 0;
        while p < n
            invariant
                0 <= p <= n,
                n == self.infosets@.len(),
                order@.len() == n,
                seen@.len() == n,
                forall|x: usize| 0 <= x < n ==> seen@[x as int] == lcm(order@.take(p as int), x),
                forall|x: int| 0 <= x < n ==> seen@[x] == 0 || seen@[x] == 1,
            decreases n - p,
        {
            proof {
                assert(order@.take(p + 1).drop_last() =~= order@.take(p as int));
                assert(order@.take(p + 1).last() == order@[p as int]);
            }
            let s: usize = order[p];
            if s >= n {
                return false;
            }
            if seen[s] == 1 {
                return false;
            }
            let sv: u8 = seen[s];
            seen[s] = sv + 1;
            p = p + 1;
        }
        proof {
            assert(order@.take(n as int) =~= order@);
        }
        let mut x: usize = 0;
        while x < n
            invariant
                0 <= x <= n,
                n == self.infosets@.len(),
                seen@.len() == n,
                forall|y: usize| 0 <= y < n ==> seen@[y as int] == lcm(order@, y),
                forall|y: usize| 0 <= y < x ==> lcm(order@, y) == 1,
            decreases n - x,
        {
            if seen[x] != 1 {
                return false;
            }
            x = x + 1;
        }
        true
    }

    /// When this returns true, the keys along `order` are strictly ascending.
    fn check_sorted(&self, order: &Vec<usize>) -> (r: bool)
        requires
            forall|j: int| 0 <= j < order@.len() ==> #[trigger] order@[j] < self.infosets@.len(),
        ensures
            r ==> forall|p: int|
                0 <= p < order@.len() - 1 ==> lex_lt(
                    #[trigger] self.keys_in_order(order@)[p],
                    self.keys_in_order(order@)[p + 1],
                ),
    {
        if order.len() == 0 {
            return true;
        }
        let mut p: usize = 0;
        while p < order.len() - 1
            invariant
                order@.len() >= 1,
                0 <= p <= order@.len() - 1,
                forall|j: int| 0 <= j < order@.len() ==> #[trigger] order@[j] < self.infosets@.len(),
                forall|p2: int|
                    0 <= p2 < p ==> lex_lt(
                        #[trigger] self.keys_in_order(order@)[p2],
                        self.keys_in_order(order@)[p2 + 1],
                    ),
            decreases order@.len() - p,
        {
            if !bytes_lt(&self.infosets[order[p]].key, &self.infosets[order[p + 1]].key) {
                return false;
            }
            p = p + 1;
        }
        true
    }

    /// Whether all information-set keys are pairwise distinct; `true` exactly
    /// when `infoset_keys_distinct` holds. Sorting gives the usual run time;
    /// only if the sorted order fails its re-check does the exact pairwise
    /// scan decide.
    pub fn validate_distinct_keys(&self) -> (r: bool)
        ensures
            r == self.infoset_keys_distinct(),
    {
        let n = self.infosets.len();
        if n < 2 {
            return true;
        }
        let mut idxs: Vec<usize> = Vec::new();
        let mut z: usize = 0;
        while z < n
            invariant
                0 <= z <= n,
                n == self.infosets@.len(),
                idxs@.len() == z,
                forall|j: int| 0 <= j < z ==> #[trigger] idxs@[j] < n,
            decreases n - z,
        {
            idxs.push(z);
            z = z + 1;
        }
        let order = msort_keys(&self.infosets, idxs);
        if self.check_perm(&order) && self.check_sorted(&order) {
            proof {
                let ks = self.keys_in_order(order@);
                assert forall|s1: int, s2: int|
                    0 <= s1 < s2 < self.infosets@.len() implies (
                #[trigger] self.infosets@[s1].key@) != (#[trigger] self.infosets@[s2].key@) by {
                    lemma_lcm_pos_exists(order@, s1 as usize);
                    lemma_lcm_pos_exists(order@, s2 as usize);
                    let p1 = choose|p: int| 0 <= p < order@.len() && order@[p] == s1 as usize;
                    let p2 = choose|p: int| 0 <= p < order@.len() && order@[p] == s2 as usize;
                    if p1 < p2 {
                        lemma_lex_chain(ks, p1, p2);
                    } else {
                        lemma_lex_chain(ks, p2, p1);
                    }
                    if self.infosets@[s1].key@ == self.infosets@[s2].key@ {
                        lemma_lex_irrefl(self.infosets@[s1].key@);
                    }
                }
            }
            return true;
        }
        let mut s1: usize = 0;
        while s1 < n
            invariant
                0 <= s1 <= n,
                n == self.infosets@.len(),
                forall|a: int, b: int|
                    0 <= a < s1 && a < b < n ==> (#[trigger] self.infosets@[a].key@) != (
                    #[trigger] self.infosets@[b].key@),
            decreases n - s1,
        {
            let mut s2: usize = s1 + 1;
            while s2 < n
                invariant
                    0 <= s1 < s2 <= n,
                    n == self.infosets@.len(),
                    forall|b: int|
                        s1 < b < s2 ==> (#[trigger] self.infosets@[b].key@)
                            != self.infosets@[s1 as int].key@,
                decreases n - s2,
            {
                if bytes_eq(&self.infosets[s1].key, &self.infosets[s2].key) {
                    return false;
                }
                s2 = s2 + 1;
            }
            s1 = s1 + 1;
        }
        true
    }

    /// Every non-terminal node stands in the level index exactly once, and no
    /// terminal node stands in it at all.
    pub open spec fn levels_complete(self) -> bool {
        forall|x: usize|
            0 <= x < self.nodes@.len() ==> lcl(self.levels@, x) == (
            if self.nodes@[x as int].actions@.len() >= 1 {
                1int
            } else {
                0
            })
    }

    /// Whether every non-terminal node is indexed exactly once; `true`
    /// exactly when `levels_complete` holds.
    pub fn validate_level_counts(&self) -> (r: bool)
        ensures
            r == self.levels_complete(),
    {
        let n = self.nodes.len();
        let mut seen: Vec<u8> = Vec::new();
        let mut z: usize = 0;
        while z < n
            invariant
                0 <= z <= n,
                n == self.nodes@.len(),
                seen@.len() == z,
                forall|x: int| 0 <= x < z ==> seen@[x] == 0,
            decreases n - z,
        {
            seen.push(0);
            z = z + 1;
        }
        let mut d: usize = 0;
        while d < self.levels.len()
            invariant
                0 <= d <= self.levels@.len(),
                n == self.nodes@.len(),
                seen@.len() == n,
                forall|x: usize|
                    0 <= x < n ==> seen@[x as int] == lcl(self.levels@.take(d as int), x),
                forall|x: int| 0 <= x < n ==> seen@[x] == 0 || seen@[x] == 1,
            decreases self.levels@.len() - d,
        {
            proof {
                assert(self.levels@.take(d + 1).drop_last() =~= self.levels@.take(d as int));
                assert(self.levels@.take(d + 1).last() == self.levels@[d as int]);
            }
            let level = &self.levels[d];
            let mut g: usize = 0;
            while g < level.len()
                invariant
                    0 <= g <= level@.len(),
                    n == self.nodes@.len(),
                    d < self.levels@.len(),
                    level == &self.levels@[d as int],
                    seen@.len() == n,
                    forall|x: usize|
                        0 <= x < n ==> seen@[x as int] == lcl(self.levels@.take(d as int), x) + lcg(
                            level@.take(g as int),
                            x,
                        ),
                    forall|x: int| 0 <= x < n ==> seen@[x] == 0 || seen@[x] == 1,
                decreases level@.len() - g,
            {
                proof {
                    assert(level@.take(g + 1).drop_last() =~= level@.take(g as int));
                    assert(level@.take(g + 1).last() == level@[g as int]);
                }
                let members = &level[g].1;
                let mut j: usize = 0;
                while j < members.len()
                    invariant
                        0 <= j <= members@.len(),
                        n == self.nodes@.len(),
                        d < self.levels@.len(),
                        g < level@.len(),
                        level == &self.levels@[d as int],
                        members == &self.levels@[d as int]@[g as int].1,
                        seen@.len() == n,
                        forall|x: usize|
                            0 <= x < n ==> seen@[x as int] == lcl(self.levels@.take(d as int), x)
                                + lcg(level@.take(g as int), x) + lcm(members@.take(j as int), x),
                        forall|x: int| 0 <= x < n ==> seen@[x] == 0 || seen@[x] == 1,
                    decreases members@.len() - j,
                {
                    proof {
                        assert(members@.take(j + 1).drop_last() =~= members@.take(j as int));
                        assert(members@.take(j + 1).last() == members@[j as int]);
                    }
                    let idx: usize = members[j];
                    if idx < n {
                        if seen[idx] == 1 {
                            proof {
                                lemma_lcl_split(self.levels@, d as int, g as int, j + 1, idx);
                                lemma_lcm_take_le(members@, j as int, idx);
                            }
                            return false;
                        }
                        let sv: u8 = seen[idx];
                        seen[idx] = sv + 1;
                    }
                    j = j + 1;
                }
                proof {
                    assert(members@.take(members@.len() as int) =~= members@);
                }
                g = g + 1;
            }
            proof {
                assert(level@.take(level@.len() as int) =~= level@);
            }
            d = d + 1;
        }
        proof {
            assert(self.levels@.take(self.levels@.len() as int) =~= self.levels@);
        }
        let mut x: usize = 0;
        while x < n
            invariant
                0 <= x <= n,
                n == self.nodes@.len(),
                seen@.len() == n,
                forall|y: usize| 0 <= y < n ==> seen@[y as int] == lcl(self.levels@, y),
                forall|y: usize|
                    0 <= y < x ==> lcl(self.levels@, y) == (
                    if self.nodes@[y as int].actions@.len() >= 1 {
                        1int
                    } else {
                        0
                    }),
            decreases n - x,
        {
            let expected: u8 = if self.nodes[x].actions.len() >= 1 {
                1
            } else {
                0
            };
            if seen[x] != expected {
                return false;
            }
            x = x + 1;
        }
        true
    }

    /// Whether the level index is sound; `true` exactly when `levels_wf`
    /// holds.
    #[verifier::rlimit(30)]
    pub fn validate_levels(&self) -> (r: bool)
        ensures
            r == self.levels_wf(),
    {
        let mut d: usize = 0;
        while d < self.levels.len()
            invariant
                0 <= d <= self.levels@.len(),
                forall|d2: int| 0 <= d2 < d ==> self.levels@[d2]@.len() >= 1,
                forall|d2: int, g2: int|
                    0 <= d2 < d && 0 <= g2 < self.levels@[d2]@.len() ==> (
                    #[trigger] self.levels@[d2]@[g2]).1@.len() >= 1,
                forall|d2: int, g2: int|
                    0 <= d2 < d && 0 <= g2 < self.levels@[d2]@.len() - 1 ==> (
                    #[trigger] self.levels@[d2]@[g2]).0 < self.levels@[d2]@[g2 + 1].0,
                forall|d2: int, g2: int, j2: int|
                    0 <= d2 < d && 0 <= g2 < self.levels@[d2]@.len() && 0 <= j2
                        < self.levels@[d2]@[g2].1@.len() ==> self.level_member_ok(d2, g2, j2),
            decreases self.levels@.len() - d,
        {
            let level = &self.levels[d];
            if level.len() < 1 {
                return false;
            }
            let mut g: usize = 0;
            while g < level.len()
                invariant
                    0 <= g <= level@.len(),
                    d < self.levels@.len(),
                    level == &self.levels@[d as int],
                    forall|g2: int|
                        0 <= g2 < g ==> (#[trigger] self.levels@[d as int]@[g2]).1@.len() >= 1,
                    forall|g2: int|
                        0 <= g2 < g && g2 + 1 < level@.len() ==> (
                        #[trigger] self.levels@[d as int]@[g2]).0
                            < self.levels@[d as int]@[g2 + 1].0,
                    forall|g2: int, j2: int|
                        0 <= g2 < g && 0 <= j2 < self.levels@[d as int]@[g2].1@.len()
                            ==> self.level_member_ok(d as int, g2, j2),
                decreases level@.len() - g,
            {
                let members = &level[g].1;
                if members.len() < 1 {
                    return false;
                }
                if g + 1 < level.len() && level[g].0 >= level[g + 1].0 {
                    return false;
                }
                let mut j: usize = 0;
                while j < members.len()
                    invariant
                        0 <= j <= members@.len(),
                        d < self.levels@.len(),
                        g < level@.len(),
                        level == &self.levels@[d as int],
                        members == &self.levels@[d as int]@[g as int].1,
                        forall|j2: int|
                            0 <= j2 < j ==> self.level_member_ok(d as int, g as int, j2),
                    decreases members@.len() - j,
                {
                    let idx: usize = members[j];
                    if !(idx < self.nodes.len()) {
                        proof {
                            assert(!self.level_member_ok(d as int, g as int, j as int));
                        }
                        return false;
                    }
                    if self.nodes[idx].actions.len() < 1 {
                        proof {
                            assert(!self.level_member_ok(d as int, g as int, j as int));
                        }
                        return false;
                    }
                    if self.nodes[idx].state.kills.len() != d {
                        proof {
                            assert(!self.level_member_ok(d as int, g as int, j as int));
                        }
                        return false;
                    }
                    if self.nodes[idx].infostate != level[g].0 {
                        proof {
                            assert(!self.level_member_ok(d as int, g as int, j as int));
                        }
                        return false;
                    }
                    j = j + 1;
                }
                g = g + 1;
            }
            d = d + 1;
        }
        true
    }
}

/// A transition before grouping: the successor's information-set key from the
/// acting side's view, the successor's node index, and the multiplicity the
/// consumed bucket splits credit to it.
struct RawAction {
    key: Vec<u8>,
    to: usize,
    count: usize,
}

/// Stable selection sort of raw transitions by key; the validator re-checks
/// the resulting order, so nothing is claimed here.
fn sort_raw(raw: Vec<RawAction>) -> Vec<RawAction> {
    let mut rest = raw;
    let mut sorted: Vec<RawAction> = Vec::new();
    while rest.len() > 0
        decreases rest@.len(),
    {
        let mut best: usize = 0;
        let mut j: usize = 1;
        while j < rest.len()
            invariant
                0 <= best < rest@.len(),
                1 <= j <= rest@.len() || rest@.len() == 0,
            decreases rest@.len() - j,
        {
            if bytes_lt(&rest[j].key, &rest[best].key) {
                best = j;
            }
            j = j + 1;
        }
        let item = rest.remove(best);
        sorted.push(item);
    }
    sorted
}

/// Group sorted raw transitions by key: each run of equal keys becomes one
/// action whose `total` is the sum of its multiplicities.
fn group_raw(sorted: &Vec<RawAction>) -> (r: Result<(Vec<Action>, Vec<Vec<u8>>), SolverError>)
    ensures
        r is Ok ==> (r->Ok_0).0@.len() == (r->Ok_0).1@.len(),
        r is Err ==> r->Err_0 != SolverError::InvalidConfig,
{
    let mut actions: Vec<Action> = Vec::new();
    let mut keys: Vec<Vec<u8>> = Vec::new();
    let mut gi: usize = 0;
    while gi < sorted.len()
        invariant
            actions@.len() == keys@.len(),
            0 <= gi,
        decreases sorted@.len() - gi,
    {
        let key = copy_vec(&sorted[gi].key);
        let mut transitions: Vec<(usize, usize)> = Vec::new();
        transitions.push((sorted[gi].to, sorted[gi].count));
        let mut total: usize = sorted[gi].count;
        let mut gj: usize = gi + 1;
        while gj < sorted.len()
            invariant
                gi < gj,
                gj <= sorted@.len() || gj == gi + 1,
            ensures
                gi < gj,
            decreases sorted@.len() - gj,
        {
            if !bytes_eq(&sorted[gj].key, &key) {
                break ;
            }
            let c: usize = sorted[gj].count;
            if c > usize::MAX - total {
                return Err(SolverError::InvariantViolation);
            }
            total = total + c;
            transitions.push((sorted[gj].to, c));
            gj = gj + 1;
        }
        actions.push(Action { transitions, total });
        keys.push(key);
        gi = gj;
    }
    Ok((actions, keys))
}

/// Enumerate the day intents of `s` — a vote, the real detective's check and
/// the fake detective's check — appending each successor to `pending` and a
/// raw transition keyed by the successor's town key to `raw`.
fn expand_day(
    s: &State,
    pending: &mut Vec<State>,
    raw: &mut Vec<RawAction>,
    max_nodes: usize,
) -> (r: Result<(), SolverError>)
    requires
        s.wf(),
        old(pending)@.len() <= max_nodes,
    ensures
        old(pending)@.len() <= final(pending)@.len(),
        forall|j: int|
            0 <= j < old(pending)@.len() ==> final(pending)@[j] == old(pending)@[j],
        r is Ok ==> final(pending)@.len() <= max_nodes,
        r is Err ==> r->Err_0 != SolverError::InvalidConfig,
{
    let votes = s.vote_candidates();
    let mut v: usize = 0;
    while v < votes.len()
        invariant
            0 <= v <= votes@.len(),
            s.wf(),
            old(pending)@.len() <= pending@.len() <= max_nodes,
            forall|j: int| 0 <= j < old(pending)@.len() ==> pending@[j] == old(pending)@[j],
        decreases votes@.len() - v,
    {
        let p1: usize = votes[v].0;
        let c1: usize = votes[v].1;
        if !(p1 < s.players.len() || p1 == s.n_players) {
            return Err(SolverError::InvariantViolation);
        }
        let mut s1 = s.touch(p1);
        s1.kills.push(p1);
        if p1 != s.n_players {
            if p1 >= s1.players.len() {
                return Err(SolverError::InvariantViolation);
            }
            let pl: Player = s1.players[p1];
            s1.players[p1] = Player { alive: false, mafia: pl.mafia, count: pl.count };
        }
        if !s1.is_wf() {
            return Err(SolverError::InvariantViolation);
        }
        let checks1 = s1.check_candidates(0, &s1.real_requests);
        let mut w: usize = 0;
        while w < checks1.len()
            invariant
                0 <= w <= checks1@.len(),
                s1.wf(),
                old(pending)@.len() <= pending@.len() <= max_nodes,
                forall|j: int| 0 <= j < old(pending)@.len() ==> pending@[j] == old(pending)@[j],
            decreases checks1@.len() - w,
        {
            let p2: usize = checks1[w].0;
            let c2: usize = checks1[w].1;
            if !(p2 < s1.players.len() || p2 == s1.n_players) {
                return Err(SolverError::InvariantViolation);
            }
            let mut s2 = s1.touch(p2);
            s2.real_requests.push(p2);
            if !s2.is_wf() {
                return Err(SolverError::InvariantViolation);
            }
            let checks2 = s2.check_candidates(1, &s2.fake_requests);
            let mut u: usize = 0;
            while u < checks2.len()
                invariant
                    0 <= u <= checks2@.len(),
                    s2.wf(),
                    old(pending)@.len() <= pending@.len() <= max_nodes,
                    forall|j: int|
                        0 <= j < old(pending)@.len() ==> pending@[j] == old(pending)@[j],
                decreases checks2@.len() - u,
            {
                let p3: usize = checks2[u].0;
                let c3: usize = checks2[u].1;
                if !(p3 < s2.players.len() || p3 == s2.n_players) {
                    return Err(SolverError::InvariantViolation);
                }
                let mut s3 = s2.touch(p3);
                s3.fake_requests.push(p3);
                if !s3.is_wf() {
                    return Err(SolverError::InvariantViolation);
                }
                if c1 > 9 || c2 > 9 || c3 > 9 {
                    return Err(SolverError::InvariantViolation);
                }
                proof {
                    assert(c1 * c2 <= 81 && c1 * c2 * c3 <= 729) by (nonlinear_arith)
                        requires
                            c1 <= 9,
                            c2 <= 9,
                            c3 <= 9,
                    ;
                }
                let count: usize = c1 * c2 * c3;
                let key = s3.infostate_key_town_bytes();
                if pending.len() >= max_nodes {
                    return Err(SolverError::GraphTooLarge);
                }
                let to: usize = pending.len();
                pending.push(s3);
                raw.push(RawAction { key, to, count });
                u = u + 1;
            }
            w = w + 1;
        }
        v = v + 1;
    }
    Ok(())
}

/// Enumerate the night intents of `s` — a kill and, when the fake detective
/// lives and has an open request, its free-choice response — appending each
/// successor to `pending` and a raw transition keyed by the successor's mafia
/// key to `raw`. When the real detective lives and has an open request, the
/// true mafia flag of the investigated bucket is appended as a forced
/// transition.
fn expand_night(
    s: &State,
    pending: &mut Vec<State>,
    raw: &mut Vec<RawAction>,
    max_nodes: usize,
) -> (r: Result<(), SolverError>)
    requires
        s.wf(),
        old(pending)@.len() <= max_nodes,
    ensures
        old(pending)@.len() <= final(pending)@.len(),
        forall|j: int|
            0 <= j < old(pending)@.len() ==> final(pending)@[j] == old(pending)@[j],
        r is Ok ==> final(pending)@.len() <= max_nodes,
        r is Err ==> r->Err_0 != SolverError::InvalidConfig,
{
    let kc = s.kill_candidates();
    let mut v: usize = 0;
    while v < kc.len()
        invariant
            0 <= v <= kc@.len(),
            s.wf(),
            old(pending)@.len() <= pending@.len() <= max_nodes,
            forall|j: int| 0 <= j < old(pending)@.len() ==> pending@[j] == old(pending)@[j],
        decreases kc@.len() - v,
    {
        let p1: usize = kc[v].0;
        let c1: usize = kc[v].1;
        if !(p1 < s.players.len()) {
            return Err(SolverError::InvariantViolation);
        }
        let mut s1 = s.touch(p1);
        s1.kills.push(p1);
        if p1 >= s1.players.len() {
            return Err(SolverError::InvariantViolation);
        }
        let pl: Player = s1.players[p1];
        s1.players[p1] = Player { alive: false, mafia: pl.mafia, count: pl.count };
        if s1.players.len() < 2 {
            return Err(SolverError::InvariantViolation);
        }
        if s1.real_requests.len() < 1 {
            return Err(SolverError::InvariantViolation);
        }
        let rr: usize = s1.real_requests[s1.real_requests.len() - 1];
        if s1.players[0].alive && rr != s1.n_players {
            if rr >= s1.players.len() {
                return Err(SolverError::InvariantViolation);
            }
            let flag: bool = s1.players[rr].mafia;
            s1.real_responses.push(flag);
        }
        if s1.fake_requests.len() < 1 {
            return Err(SolverError::InvariantViolation);
        }
        let fr: usize = s1.fake_requests[s1.fake_requests.len() - 1];
        if s1.players[1].alive && fr != s1.n_players {
            let mut s2 = s1.duplicate();
            s2.fake_responses.push(false);
            if !s2.is_wf() {
                return Err(SolverError::InvariantViolation);
            }
            let key2 = s2.infostate_key_mafia_bytes();
            if pending.len() >= max_nodes {
                return Err(SolverError::GraphTooLarge);
            }
            raw.push(RawAction { key: key2, to: pending.len(), count: c1 });
            pending.push(s2);
            let mut s3 = s1.duplicate();
            s3.fake_responses.push(true);
            if !s3.is_wf() {
                return Err(SolverError::InvariantViolation);
            }
            let key3 = s3.infostate_key_mafia_bytes();
            if pending.len() >= max_nodes {
                return Err(SolverError::GraphTooLarge);
            }
            raw.push(RawAction { key: key3, to: pending.len(), count: c1 });
            pending.push(s3);
        } else {
            if !s1.is_wf() {
                return Err(SolverError::InvariantViolation);
            }
            let key1 = s1.infostate_key_mafia_bytes();
            if pending.len() >= max_nodes {
                return Err(SolverError::GraphTooLarge);
            }
            raw.push(RawAction { key: key1, to: pending.len(), count: c1 });
            pending.push(s1);
        }
        v = v + 1;
    }
    Ok(())
}

/// Sort the non-terminal nodes into levels by depth and group each level by
/// information set, in ascending index order; the members of a group keep
/// discovery order. The validator re-checks the result.
fn build_levels(nodes: &Vec<Node>, n_infosets: usize) -> (r: Result<Vec<Level>, SolverError>)
    ensures
        r is Err ==> r->Err_0 != SolverError::InvalidConfig,
{
    let mut max_d: usize = 0;
    let mut any = false;
    let mut i: usize = 0;
    while i < nodes.len()
        decreases nodes@.len() - i,
    {
        if nodes[i].actions.len() > 0 {
            any = true;
            if nodes[i].state.kills.len() > max_d {
                max_d = nodes[i].state.kills.len();
            }
        }
        i = i + 1;
    }
    let mut levels: Vec<Level> = Vec::new();
    if !any {
        return Ok(levels);
    }
    if max_d == usize::MAX {
        return Err(SolverError::InvariantViolation);
    }
    let mut d: usize = 0;
    while d < max_d + 1
        invariant
            max_d < usize::MAX,
        decreases max_d + 1 - d,
    {
        let mut buckets: Vec<Vec<usize>> = Vec::new();
        let mut b: usize = 0;
        while b < n_infosets
            invariant
                b <= n_infosets,
                buckets@.len() == b,
            decreases n_infosets - b,
        {
            buckets.push(Vec::new());
            b = b + 1;
        }
        let mut i2: usize = 0;
        while i2 < nodes.len()
            invariant
                buckets@.len() == n_infosets,
            decreases nodes@.len() - i2,
        {
            if nodes[i2].actions.len() > 0 && nodes[i2].state.kills.len() == d {
                let si: usize = nodes[i2].infostate;
                if si >= buckets.len() {
                    return Err(SolverError::InvariantViolation);
                }
                buckets[si].push(i2);
            }
            i2 = i2 + 1;
        }
        let mut level: Level = Vec::new();
        let mut si2: usize = 0;
        while si2 < buckets.len()
            decreases buckets@.len() - si2,
        {
            if buckets[si2].len() > 0 {
                let members = copy_vec(&buckets[si2]);
                level.push((si2, members));
            }
            si2 = si2 + 1;
        }
        if level.len() == 0 {
            return Err(SolverError::InvariantViolation);
        }
        levels.push(level);
        d = d + 1;
    }
    Ok(levels)
}

/// The occurrence count of `target` splits over a prefix of nodes, a prefix
/// of the current node's actions, and a prefix of the current action's
/// transitions; the remainder is non-negative.
pub proof fn lemma_tcn_split(nodes: Seq<Node>, i: int, k: int, t: int, target: usize)
    requires
        0 <= i < nodes.len(),
        0 <= k < nodes[i].actions@.len(),
        0 <= t <= nodes[i].actions@[k].transitions@.len(),
    ensures
        tcn(nodes, target) >= tcn(nodes.take(i), target) + tca(nodes[i].actions@.take(k), target)
            + tct(nodes[i].actions@[k].transitions@.take(t), target),
{
    lemma_tcn_take_le(nodes, i + 1, target);
    assert(nodes.take(i + 1).drop_last() =~= nodes.take(i));
    assert(nodes.take(i + 1).last() == nodes[i]);
    lemma_tca_take_le(nodes[i].actions@, k + 1, target);
    assert(nodes[i].actions@.take(k + 1).drop_last() =~= nodes[i].actions@.take(k));
    assert(nodes[i].actions@.take(k + 1).last() == nodes[i].actions@[k]);
    lemma_tct_take_le(nodes[i].actions@[k].transitions@, t, target);
}

/// In a well-formed graph every action's transition multiplicities are
/// positive and sum to the action's stored total, so the transition
/// probabilities `count / total` sum to exactly one.
pub proof fn lemma_action_probabilities_sum(g: Graph, i: int, k: int)
    requires
        g.wf(),
        0 <= i < g.nodes@.len(),
        !g.nodes@[i].state.terminal(),
        0 <= k < g.nodes@[i].actions@.len(),
    ensures
        g.nodes@[i].actions@[k].total == trans_total(g.nodes@[i].actions@[k].transitions@),
        g.nodes@[i].actions@[k].total >= 1,
        g.nodes@[i].actions@[k].transitions@.len() >= 1,
        forall|t: int|
            0 <= t < g.nodes@[i].actions@[k].transitions@.len()
                ==> (#[trigger] g.nodes@[i].actions@[k].transitions@[t]).1 >= 1,
{
    assert(g.node_wf(i));
    assert(g.action_wf(i, k));
    assert forall|t: int| 0 <= t < g.nodes@[i].actions@[k].transitions@.len() implies (
    #[trigger] g.nodes@[i].actions@[k].transitions@[t]).1 >= 1 by {
        assert(g.trans_wf(i, k, t));
    }
}

/// In a well-formed graph, two non-terminal nodes sharing an information-set
/// index have the same number of actions, and their actions are aligned: the
/// successors reached by the k-th action of either node carry the same
/// information-set key, the one the shared table stores for position k.
pub proof fn lemma_infoset_alignment(g: Graph, i: int, j: int)
    requires
        g.wf(),
        0 <= i < g.nodes@.len(),
        0 <= j < g.nodes@.len(),
        !g.nodes@[i].state.terminal(),
        !g.nodes@[j].state.terminal(),
        g.nodes@[i].infostate == g.nodes@[j].infostate,
    ensures
        g.nodes@[i].actions@.len() == g.nodes@[j].actions@.len(),
        g.nodes@[i].state.infostate_key_view() == g.nodes@[j].state.infostate_key_view(),
        forall|k: int, t: int|
            0 <= k < g.nodes@[i].actions@.len() && 0 <= t < g.nodes@[i].actions@[k].transitions@.len()
                ==> succ_key(g, i, k, t) == g.infosets@[g.nodes@[i].infostate as int].action_keys@[k]@,
        forall|k: int, t: int|
            0 <= k < g.nodes@[j].actions@.len() && 0 <= t < g.nodes@[j].actions@[k].transitions@.len()
                ==> succ_key(g, j, k, t) == g.infosets@[g.nodes@[j].infostate as int].action_keys@[k]@,
{
    assert(g.node_wf(i));
    assert(g.node_wf(j));
    assert forall|k: int, t: int|
        0 <= k < g.nodes@[i].actions@.len() && 0 <= t
            < g.nodes@[i].actions@[k].transitions@.len() implies succ_key(g, i, k, t)
        == g.infosets@[g.nodes@[i].infostate as int].action_keys@[k]@ by {
        assert(g.action_wf(i, k));
        assert(g.trans_wf(i, k, t));
    }
    assert forall|k: int, t: int|
        0 <= k < g.nodes@[j].actions@.len() && 0 <= t
            < g.nodes@[j].actions@[k].transitions@.len() implies succ_key(g, j, k, t)
        == g.infosets@[g.nodes@[j].infostate as int].action_keys@[k]@ by {
        assert(g.action_wf(j, k));
        assert(g.trans_wf(j, k, t));
    }
}

/// In a well-formed graph a node's information-set key determines its
/// information-set index: two non-terminal nodes with equal keys share one
/// index (and so, by `lemma_infoset_alignment`, aligned actions), however
/// they differ otherwise.
pub proof fn lemma_infoset_key_determines_index(g: Graph, i: int, j: int)
    requires
        g.wf(),
        0 <= i < g.nodes@.len(),
        0 <= j < g.nodes@.len(),
        !g.nodes@[i].state.terminal(),
        !g.nodes@[j].state.terminal(),
        g.nodes@[i].state.infostate_key_view() == g.nodes@[j].state.infostate_key_view(),
    ensures
        g.nodes@[i].infostate == g.nodes@[j].infostate,
{
    assert(g.node_wf(i));
    assert(g.node_wf(j));
    let s1 = g.nodes@[i].infostate as int;
    let s2 = g.nodes@[j].infostate as int;
    assert(g.infosets@[s1].key@ == g.infosets@[s2].key@);
    if s1 != s2 {
        assert(false);
    }
}

/// The information-set key of the successor reached by transition `t` of
/// action `k` of node `i`, from the viewpoint of the side acting at node `i`.
pub open spec fn succ_key(g: Graph, i: int, k: int, t: int) -> Seq<u8> {
    let nd = g.nodes@[i];
    let to = nd.actions@[k].transitions@[t].0;
    if nd.state.kills@.len() % 2 == 0 {
        g.nodes@[to as int].state.town_key_view()
    } else {
        g.nodes@[to as int].state.night_key_view()
    }
}

/// In a well-formed graph a terminal node's recorded equity is a win for the
/// side that just moved exactly when the mafia is wiped out on a day state or
/// survives on a night state.
pub proof fn lemma_terminal_equity(g: Graph, i: int)
    requires
        g.wf(),
        0 <= i < g.nodes@.len(),
        g.nodes@[i].state.terminal(),
    ensures
        g.nodes@[i].win == ((mafia_sum(g.nodes@[i].state.players@) == 0) == (
        g.nodes@[i].state.kills@.len() % 2 == 0)),
{
    assert(g.node_wf(i));
}

/// Build the game graph for `cfg` by worklist enumeration from the initial
/// position, giving up once more than `max_nodes` positions are discovered.
///
/// A returned graph is checked whole: it is well-formed (`wf`: every
/// transition realizes a legal intent of its parent with the exact
/// multiplicity, every action's multiplicities sum to its total, information
/// sets carry distinct keys and nodes sharing one have aligned actions,
/// terminal win flags are right), it is a tree rooted at the initial position
/// (`tree`), and its level index is sound and complete (`levels_wf`,
/// `levels_complete`). Success is conditional: the information-set table is
/// filled through a hash map whose behaviour the verifier has no model for,
/// so the builder re-checks everything it built and reports a violation
/// instead of promising it cannot happen.
pub fn build_graph(cfg: Config, max_nodes: usize) -> (r: Result<Graph, SolverError>)
    ensures
        !cfg.valid() ==> r == Result::<Graph, SolverError>::Err(SolverError::InvalidConfig),
        cfg.valid() ==> r != Result::<Graph, SolverError>::Err(SolverError::InvalidConfig),
        cfg.valid() && max_nodes == 0 ==> r == Result::<Graph, SolverError>::Err(
            SolverError::GraphTooLarge,
        ),
        r is Ok ==> ({
            let g = r->Ok_0;
            &&& g.cfg == cfg
            &&& g.wf()
            &&& g.tree()
            &&& g.levels_wf()
            &&& g.levels_complete()
            &&& 1 <= g.nodes@.len() <= max_nodes
            &&& g.nodes@[0].state.kills@.len() == 0
            &&& g.nodes@[0].state.real_requests@.len() == 0
            &&& g.nodes@[0].state.real_responses@.len() == 0
            &&& g.nodes@[0].state.fake_requests@.len() == 0
            &&& g.nodes@[0].state.fake_responses@.len() == 0
            &&& g.nodes@[0].state.players@ == initial_players(cfg)
        }),
{
    if !cfg.check() {
        return Err(SolverError::InvalidConfig);
    }
    if max_nodes < 1 {
        return Err(SolverError::GraphTooLarge);
    }
    let s0 = initial_state(cfg);
    let mut pending: Vec<State> = Vec::new();
    pending.push(s0);
    let mut nodes: Vec<Node> = Vec::new();
    let mut infosets: Vec<Infoset> = Vec::new();
    let mut iso_map: HashMap<Vec<u8>, usize> = HashMap::new();
    while nodes.len() < pending.len()
        invariant
            cfg.valid(),
            1 <= max_nodes,
            nodes@.len() <= pending@.len() <= max_nodes,
            1 <= pending@.len(),
            pending@[0].kills@.len() == 0,
            pending@[0].real_requests@.len() == 0,
            pending@[0].real_responses@.len() == 0,
            pending@[0].fake_requests@.len() == 0,
            pending@[0].fake_responses@.len() == 0,
            pending@[0].players@ == initial_players(cfg),
            nodes@.len() >= 1 ==> ({
                &&& nodes@[0].state.kills@.len() == 0
                &&& nodes@[0].state.real_requests@.len() == 0
                &&& nodes@[0].state.real_responses@.len() == 0
                &&& nodes@[0].state.fake_requests@.len() == 0
                &&& nodes@[0].state.fake_responses@.len() == 0
                &&& nodes@[0].state.players@ == initial_players(cfg)
            }),
        decreases max_nodes - nodes@.len(),
    {
        let head: usize = nodes.len();
        let s = pending[head].duplicate();
        if !s.is_wf() {
            return Err(SolverError::InvariantViolation);
        }
        if s.is_terminal() {
            let win: bool = (s.alive_mafias() == 0) == s.is_day();
            nodes.push(Node { state: s, infostate: 0, actions: Vec::new(), win });
            continue ;
        }
        let mut raw: Vec<RawAction> = Vec::new();
        let day = s.is_day();
        let res: Result<(), SolverError> = if day {
            expand_day(&s, &mut pending, &mut raw, max_nodes)
        } else {
            expand_night(&s, &mut pending, &mut raw, max_nodes)
        };
        match res {
            Ok(_) => {},
            Err(e) => {
                return Err(e);
            },
        }
        let sorted = sort_raw(raw);
        let grouped = group_raw(&sorted);
        let mut actions: Vec<Action>;
        let mut action_keys: Vec<Vec<u8>>;
        match grouped {
            Ok(p) => {
                actions = p.0;
                action_keys = p.1;
            },
            Err(e) => {
                return Err(e);
            },
        }
        let own_key = s.infostate_key_bytes();
        let mut iso_idx: usize = 0;
        let mut found = false;
        match iso_map.get(&own_key) {
            Some(ir) => {
                iso_idx = *ir;
                found = true;
            },
            None => {},
        }
        if !found {
            iso_idx = infosets.len();
            let _prev = iso_map.insert(copy_vec(&own_key), iso_idx);
            infosets.push(Infoset { key: own_key, action_keys });
        } else {
            if iso_idx >= infosets.len() {
                return Err(SolverError::InvariantViolation);
            }
            if infosets[iso_idx].action_keys.len() != action_keys.len() {
                return Err(SolverError::InvariantViolation);
            }
            let mut k2: usize = 0;
            while k2 < action_keys.len()
                invariant
                    cfg.valid(),
                    1 <= max_nodes,
                    iso_idx < infosets@.len(),
                    infosets@[iso_idx as int].action_keys@.len() == action_keys@.len(),
                decreases action_keys@.len() - k2,
            {
                if !bytes_eq(&infosets[iso_idx].action_keys[k2], &action_keys[k2]) {
                    return Err(SolverError::InvariantViolation);
                }
                k2 = k2 + 1;
            }
        }
        nodes.push(Node { state: s, infostate: iso_idx, actions, win: false });
    }
    let levels: Vec<Level> = match build_levels(&nodes, infosets.len()) {
        Ok(l) => l,
        Err(e) => {
            return Err(e);
        },
    };
    let g = Graph { cfg, nodes, infosets, levels };
    if !g.validate() {
        return Err(SolverError::InvariantViolation);
    }
    if !g.validate_tree() {
        return Err(SolverError::InvariantViolation);
    }
    if !g.validate_levels() {
        return Err(SolverError::InvariantViolation);
    }
    if !g.validate_level_counts() {
        return Err(SolverError::InvariantViolation);
    }
    Ok(g)
}

} // verus!
