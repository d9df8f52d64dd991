//! The game position: buckets of indistinguishable seats, histories of votes,
//! kills and detective checks, and the candidate generators for each decision.

use vstd::prelude::*;

verus! {

/// A bucket of currently indistinguishable seats sharing an alive/mafia flag.
#[derive(Clone, Copy, PartialEq, Eq, Structural, Debug)]
pub struct Player {
    pub alive: bool,
    pub mafia: bool,
    pub count: usize,
}

/// Sum of `count` over a bucket vector.
pub open spec fn count_sum(players: Seq<Player>) -> int
    decreases players.len(),
{
    if players.len() == 0 {
        0
    } else {
        count_sum(players.drop_last()) + players.last().count
    }
}

/// Sum of `count` over the live buckets.
pub open spec fn alive_sum(players: Seq<Player>) -> int
    decreases players.len(),
{
    if players.len() == 0 {
        0
    } else {
        alive_sum(players.drop_last()) + if players.last().alive {
            players.last().count as int
        } else {
            0
        }
    }
}

/// Sum of `count` over the live mafia buckets.
pub open spec fn mafia_sum(players: Seq<Player>) -> int
    decreases players.len(),
{
    if players.len() == 0 {
        0
    } else {
        mafia_sum(players.drop_last()) + if players.last().alive && players.last().mafia {
            players.last().count as int
        } else {
            0
        }
    }
}

pub proof fn lemma_sums_bounded(players: Seq<Player>)
    ensures
        0 <= mafia_sum(players) <= alive_sum(players) <= count_sum(players),
    decreases players.len(),
{
    if players.len() > 0 {
        lemma_sums_bounded(players.drop_last());
    }
}

pub proof fn lemma_sums_take_le(players: Seq<Player>, i: int)
    requires
        0 <= i <= players.len(),
    ensures
        count_sum(players.take(i)) <= count_sum(players),
        alive_sum(players.take(i)) <= alive_sum(players),
        mafia_sum(players.take(i)) <= mafia_sum(players),
    decreases players.len() - i,
{
    if i == players.len() {
        assert(players.take(i) =~= players);
    } else {
        lemma_sums_take_le(players, i + 1);
        assert(players.take(i + 1).drop_last() =~= players.take(i));
        assert(players.take(i + 1).last() == players[i]);
    }
}

/// An identifier either names a bucket or is the reserved skip value
/// (the player count itself).
pub open spec fn ids_ok(ids: Seq<usize>, n_players: usize, n_buckets: int) -> bool {
    forall|i: int| 0 <= i < ids.len() ==> #[trigger] ids[i] < n_buckets || ids[i] == n_players
}

/// Build-time parameters of the game variant: seat 0 is the real detective,
/// seat 1 a mafia member pretending to be one; the other mafias and the
/// townsfolk start out interchangeable.
#[derive(Clone, Copy, PartialEq, Eq, Structural, Debug)]
pub struct Config {
    pub n_players: usize,
    pub n_mafias: usize,
    pub skip_first_day: bool,
}

impl Config {
    /// A playable parameter set: at least one mafia, at least the two
    /// detectives and one townsfolk besides the mafias, and few enough
    /// players that every bucket identifier renders as a single digit.
    pub open spec fn valid(self) -> bool {
        &&& 1 <= self.n_mafias
        &&& self.n_mafias + 2 <= self.n_players
        &&& self.n_players <= 9
    }

    pub fn check(&self) -> (r: bool)
        ensures
            r == self.valid(),
    {
        1 <= self.n_mafias && self.n_mafias <= usize::MAX - 2 && self.n_mafias + 2 <= self.n_players
            && self.n_players <= 9
    }
}

/// A game position: five chronological histories plus the bucket vector.
/// Even positions of `kills` are day votes (possibly the skip value), odd
/// positions are night kills.
pub struct State {
    pub kills: Vec<usize>,
    pub real_requests: Vec<usize>,
    pub real_responses: Vec<bool>,
    pub fake_requests: Vec<usize>,
    pub fake_responses: Vec<bool>,
    pub players: Vec<Player>,
    pub n_players: usize,
    pub skip_first_day: bool,
}

impl State {
    /// Well-formedness: the bucket counts add up to the player count, bucket 0
    /// is town, bucket 1 is mafia, and every history entry names a bucket or
    /// the skip value.
    pub open spec fn wf(self) -> bool {
        &&& 3 <= self.n_players <= 9
        &&& 2 <= self.players@.len() <= self.n_players
        &&& count_sum(self.players@) == self.n_players
        &&& forall|i: int|
            0 <= i < self.players@.len() ==> #[trigger] self.players@[i].count >= 1
        &&& !self.players@[0].mafia
        &&& self.players@[1].mafia
        &&& ids_ok(self.kills@, self.n_players, self.players@.len() as int)
        &&& ids_ok(self.real_requests@, self.n_players, self.players@.len() as int)
        &&& ids_ok(self.fake_requests@, self.n_players, self.players@.len() as int)
    }

    /// Runtime well-formedness test, used by the graph builder and the graph
    /// validator so that no internal invariant is taken on trust.
    pub fn is_wf(&self) -> (r: bool)
        ensures
            r == self.wf(),
    {
        if !(3 <= self.n_players && self.n_players <= 9) {
            return false;
        }
        if !(2 <= self.players.len() && self.players.len() <= self.n_players) {
            return false;
        }
        let mut acc: usize = 0;
        let mut i: usize = 0;
        while i < self.players.len()
            invariant
                0 <= i <= self.players@.len(),
                acc == count_sum(self.players@.take(i as int)),
                acc <= self.n_players,
                self.n_players <= 9,
                forall|j: int| 0 <= j < i ==> #[trigger] self.players@[j].count >= 1,
            decreases self.players@.len() - i,
        {
            let c = self.players[i].count;
            proof {
                assert(self.players@.take(i + 1).drop_last() =~= self.players@.take(i as int));
                assert(self.players@.take(i + 1).last() == self.players@[i as int]);
                lemma_sums_take_le(self.players@, i + 1);
            }
            if c < 1 || c > self.n_players - acc {
                return false;
            }
            acc = acc + c;
            i = i + 1;
        }
        proof {
            assert(self.players@.take(self.players@.len() as int) =~= self.players@);
        }
        if acc != self.n_players {
            return false;
        }
        if self.players[0].mafia || !self.players[1].mafia {
            return false;
        }
        if !ids_in_range(&self.kills, self.n_players, self.players.len()) {
            return false;
        }
        if !ids_in_range(&self.real_requests, self.n_players, self.players.len()) {
            return false;
        }
        if !ids_in_range(&self.fake_requests, self.n_players, self.players.len()) {
            return false;
        }
        true
    }

    /// Day means the town votes next; parity of the kill history decides.
    pub fn is_day(&self) -> (r: bool)
        ensures
            r == (self.kills@.len() % 2 == 0),
    {
        self.kills.len() % 2 == 0
    }

    /// Live seats.
    pub fn alive_total(&self) -> (r: usize)
        requires
            count_sum(self.players@) <= 9,
        ensures
            r == alive_sum(self.players@),
    {
        let mut acc: usize = 0;
        let mut i: usize = 0;
        while i < self.players.len()
            invariant
                0 <= i <= self.players@.len(),
                acc == alive_sum(self.players@.take(i as int)),
                count_sum(self.players@) <= 9,
            decreases self.players@.len() - i,
        {
            proof {
                assert(self.players@.take(i + 1).drop_last() =~= self.players@.take(i as int));
                assert(self.players@.take(i + 1).last() == self.players@[i as int]);
                lemma_sums_bounded(self.players@.take(i + 1));
                lemma_sums_take_le(self.players@, i + 1);
            }
            if self.players[i].alive {
                acc = acc + self.players[i].count;
            }
            i = i + 1;
        }
        proof {
            assert(self.players@.take(self.players@.len() as int) =~= self.players@);
        }
        acc
    }

    /// Live mafia seats.
    pub fn alive_mafias(&self) -> (r: usize)
        requires
            count_sum(self.players@) <= 9,
        ensures
            r == mafia_sum(self.players@),
    {
        let mut acc: usize = 0;
        let mut i: usize = 0;
        while i < self.players.len()
            invariant
                0 <= i <= self.players@.len(),
                acc == mafia_sum(self.players@.take(i as int)),
                count_sum(self.players@) <= 9,
            decreases self.players@.len() - i,
        {
            proof {
                assert(self.players@.take(i + 1).drop_last() =~= self.players@.take(i as int));
                assert(self.players@.take(i + 1).last() == self.players@[i as int]);
                lemma_sums_bounded(self.players@.take(i + 1));
                lemma_sums_take_le(self.players@, i + 1);
            }
            if self.players[i].alive && self.players[i].mafia {
                acc = acc + self.players[i].count;
            }
            i = i + 1;
        }
        proof {
            assert(self.players@.take(self.players@.len() as int) =~= self.players@);
        }
        acc
    }

    /// The position is decided: town wins once no mafia lives; mafia wins once
    /// the live seats (less the impending night kill) no longer outnumber
    /// twice the live mafias.
    pub open spec fn terminal(self) -> bool {
        mafia_sum(self.players@) == 0 || alive_sum(self.players@) <= 2 * mafia_sum(self.players@)
            + if self.kills@.len() % 2 == 0 {
            0int
        } else {
            1int
        }
    }

    pub fn is_terminal(&self) -> (r: bool)
        requires
            count_sum(self.players@) <= 9,
        ensures
            r == self.terminal(),
    {
        proof {
            lemma_sums_bounded(self.players@);
        }
        let m = self.alive_mafias();
        let a = self.alive_total();
        let bonus: usize = if self.is_day() {
            0
        } else {
            1
        };
        m == 0 || a <= 2 * m + bonus
    }

    /// The bucket vector after `touch(player_id)`: the touched bucket keeps a
    /// single seat and the overflow becomes a fresh bucket at the end.
    pub open spec fn touched_players(self, player_id: usize) -> Seq<Player> {
        touch_view(self.players@, player_id, self.n_players)
    }

    /// Split one seat out of a multi-seat bucket so that later history entries
    /// stably identify it; touching the skip value or a single-seat bucket
    /// changes nothing. Histories are unchanged.
    pub fn touch(&self, player_id: usize) -> (t: State)
        requires
            player_id < self.players@.len() || player_id == self.n_players,
        ensures
            t.kills@ == self.kills@,
            t.real_requests@ == self.real_requests@,
            t.real_responses@ == self.real_responses@,
            t.fake_requests@ == self.fake_requests@,
            t.fake_responses@ == self.fake_responses@,
            t.n_players == self.n_players,
            t.skip_first_day == self.skip_first_day,
            t.players@ == self.touched_players(player_id),
            self.wf() ==> t.wf(),
    {
        let mut players = copy_vec(&self.players);
        if player_id != self.n_players {
            let p = players[player_id];
            if p.count > 1 {
                players.push(Player { alive: true, mafia: p.mafia, count: p.count - 1 });
                players[player_id] = Player { alive: p.alive, mafia: p.mafia, count: 1 };
                proof {
                    let q = self.players@[player_id as int];
                    assert(players@ =~= self.players@.update(
                        player_id as int,
                        Player { alive: q.alive, mafia: q.mafia, count: 1 },
                    ).push(Player { alive: true, mafia: q.mafia, count: (q.count - 1) as usize }));
                }
            }
        }
        proof {
            if self.wf() {
                let tp = self.touched_players(player_id);
                if player_id != self.n_players && self.players@[player_id as int].count > 1 {
                    let q = self.players@[player_id as int];
                    let upd = self.players@.update(
                        player_id as int,
                        Player { alive: q.alive, mafia: q.mafia, count: 1 },
                    );
                    lemma_count_sum_update(
                        self.players@,
                        player_id as int,
                        Player { alive: q.alive, mafia: q.mafia, count: 1 },
                    );
                    assert(tp.drop_last() =~= upd);
                    assert(count_sum(tp) == self.n_players);
                    lemma_count_sum_ge_len(tp);
                }
            }
        }
        State {
            kills: copy_vec(&self.kills),
            real_requests: copy_vec(&self.real_requests),
            real_responses: copy_vec(&self.real_responses),
            fake_requests: copy_vec(&self.fake_requests),
            fake_responses: copy_vec(&self.fake_responses),
            players,
            n_players: self.n_players,
            skip_first_day: self.skip_first_day,
        }
    }

    /// An element-wise copy of the position.
    pub fn duplicate(&self) -> (t: State)
        ensures
            t.kills@ == self.kills@,
            t.real_requests@ == self.real_requests@,
            t.real_responses@ == self.real_responses@,
            t.fake_requests@ == self.fake_requests@,
            t.fake_responses@ == self.fake_responses@,
            t.players@ == self.players@,
            t.n_players == self.n_players,
            t.skip_first_day == self.skip_first_day,
            self.wf() ==> t.wf(),
    {
        State {
            kills: copy_vec(&self.kills),
            real_requests: copy_vec(&self.real_requests),
            real_responses: copy_vec(&self.real_responses),
            fake_requests: copy_vec(&self.fake_requests),
            fake_responses: copy_vec(&self.fake_responses),
            players: copy_vec(&self.players),
            n_players: self.n_players,
            skip_first_day: self.skip_first_day,
        }
    }

    /// Whether the mafia must leave its own buckets out when killing: the last
    /// live mafia never kills itself.
    pub open spec fn kill_excludes_mafia(self) -> bool {
        self.kills@.len() % 2 != 0 && mafia_sum(self.players@) == 1
    }

    /// Who the mafia can kill, with multiplicities.
    pub fn kill_candidates(&self) -> (r: Vec<(usize, usize)>)
        requires
            count_sum(self.players@) <= 9,
        ensures
            r@ == kc_spec(self.players@, self.kill_excludes_mafia()),
    {
        let exclude = !self.is_day() && self.alive_mafias() == 1;
        let mut r: Vec<(usize, usize)> = Vec::new();
        let mut i: usize = 0;
        while i < self.players.len()
            invariant
                0 <= i <= self.players@.len(),
                r@ == kc_spec(self.players@.take(i as int), exclude),
            decreases self.players@.len() - i,
        {
            proof {
                assert(self.players@.take(i + 1).drop_last() =~= self.players@.take(i as int));
                assert(self.players@.take(i + 1).last() == self.players@[i as int]);
            }
            let p = self.players[i];
            if p.alive && !(exclude && p.mafia) {
                r.push((i, p.count));
            }
            i = i + 1;
        }
        proof {
            assert(self.players@.take(self.players@.len() as int) =~= self.players@);
        }
        r
    }

    /// Who the town can vote out: only the skip value on four live seats or on
    /// a forced first day, otherwise every live bucket, plus the skip value
    /// while more than three seats live.
    pub open spec fn vote_cands(self) -> Seq<(usize, usize)> {
        if alive_sum(self.players@) == 4 || (self.skip_first_day && self.kills@.len() == 0) {
            seq![(self.n_players, 1usize)]
        } else {
            let base = kc_spec(self.players@, self.kill_excludes_mafia());
            if alive_sum(self.players@) > 3 {
                base.push((self.n_players, 1usize))
            } else {
                base
            }
        }
    }

    pub fn vote_candidates(&self) -> (r: Vec<(usize, usize)>)
        requires
            count_sum(self.players@) <= 9,
        ensures
            r@ == self.vote_cands(),
    {
        if self.alive_total() == 4 || (self.skip_first_day && self.kills.len() == 0) {
            let mut r: Vec<(usize, usize)> = Vec::new();
            r.push((self.n_players, 1));
            proof {
                assert(r@ =~= seq![(self.n_players, 1usize)]);
            }
            return r;
        }
        let mut r = self.kill_candidates();
        if self.alive_total() > 3 {
            r.push((self.n_players, 1));
        }
        r
    }

    /// What a detective's check may target: the skip value alone when that
    /// detective is dead or only two seats live, otherwise the unexamined live
    /// buckets other than the detective, falling back to the skip value when
    /// none remain.
    pub open spec fn check_cands(self, detective: usize, requests: Seq<usize>) -> Seq<
        (usize, usize),
    > {
        check_cands_view(self.players@, self.n_players, detective, requests)
    }

    pub fn check_candidates(&self, detective: usize, requests: &Vec<usize>) -> (r: Vec<
        (usize, usize),
    >)
        requires
            detective < self.players@.len(),
            count_sum(self.players@) <= 9,
        ensures
            r@ == self.check_cands(detective, requests@),
    {
        if !self.players[detective].alive || self.alive_total() == 2 {
            let mut r: Vec<(usize, usize)> = Vec::new();
            r.push((self.n_players, 1));
            proof {
                assert(r@ =~= seq![(self.n_players, 1usize)]);
            }
            return r;
        }
        let mut r: Vec<(usize, usize)> = Vec::new();
        let mut i: usize = 0;
        while i < self.players.len()
            invariant
                0 <= i <= self.players@.len(),
                r@ == cc_spec(self.players@.take(i as int), requests@, detective),
            decreases self.players@.len() - i,
        {
            proof {
                assert(self.players@.take(i + 1).drop_last() =~= self.players@.take(i as int));
                assert(self.players@.take(i + 1).last() == self.players@[i as int]);
            }
            let p = self.players[i];
            if p.alive && !contains_id(requests, i) && i != detective {
                r.push((i, p.count));
            }
            i = i + 1;
        }
        proof {
            assert(self.players@.take(self.players@.len() as int) =~= self.players@);
        }
        if r.len() == 0 {
            r.push((self.n_players, 1));
            proof {
                assert(r@ =~= seq![(self.n_players, 1usize)]);
            }
        }
        r
    }
}

pub proof fn lemma_count_sum_update(players: Seq<Player>, i: int, p: Player)
    requires
        0 <= i < players.len(),
    ensures
        count_sum(players.update(i, p)) == count_sum(players) - players[i].count + p.count,
    decreases players.len(),
{
    if players.len() > 0 {
        if i == players.len() - 1 {
            assert(players.update(i, p).drop_last() =~= players.drop_last());
        } else {
            assert(players.update(i, p).drop_last() =~= players.drop_last().update(i, p));
            lemma_count_sum_update(players.drop_last(), i, p);
        }
    }
}

pub proof fn lemma_count_sum_ge_len(players: Seq<Player>)
    requires
        forall|i: int| 0 <= i < players.len() ==> #[trigger] players[i].count >= 1,
    ensures
        count_sum(players) >= players.len(),
    decreases players.len(),
{
    if players.len() > 0 {
        lemma_count_sum_ge_len(players.drop_last());
    }
}

/// The bucket vector the game starts from: the real detective, the fake
/// detective, one bucket for the remaining mafias when there are any, and
/// the townsfolk bucket.
pub open spec fn initial_players(cfg: Config) -> Seq<Player> {
    if cfg.n_mafias == 1 {
        seq![
            Player { alive: true, mafia: false, count: 1 },
            Player { alive: true, mafia: true, count: 1 },
            Player { alive: true, mafia: false, count: (cfg.n_players - 2) as usize },
        ]
    } else {
        seq![
            Player { alive: true, mafia: false, count: 1 },
            Player { alive: true, mafia: true, count: 1 },
            Player { alive: true, mafia: true, count: (cfg.n_mafias - 1) as usize },
            Player { alive: true, mafia: false, count: (cfg.n_players - cfg.n_mafias - 1) as usize },
        ]
    }
}

/// The position all games start from: empty histories over the initial
/// bucket vector.
pub fn initial_state(cfg: Config) -> (s: State)
    requires
        cfg.valid(),
    ensures
        s.wf(),
        s.kills@.len() == 0,
        s.real_requests@.len() == 0,
        s.real_responses@.len() == 0,
        s.fake_requests@.len() == 0,
        s.fake_responses@.len() == 0,
        s.players@ == initial_players(cfg),
        s.n_players == cfg.n_players,
        s.skip_first_day == cfg.skip_first_day,
{
    let mut players: Vec<Player> = Vec::new();
    players.push(Player { alive: true, mafia: false, count: 1 });
    players.push(Player { alive: true, mafia: true, count: 1 });
    if cfg.n_mafias == 1 {
        players.push(Player { alive: true, mafia: false, count: cfg.n_players - 2 });
    } else {
        players.push(Player { alive: true, mafia: true, count: cfg.n_mafias - 1 });
        players.push(Player { alive: true, mafia: false, count: cfg.n_players - cfg.n_mafias - 1 });
    }
    proof {
        reveal_with_fuel(count_sum, 5);
        let p = initial_players(cfg);
        assert(players@ =~= p);
        if cfg.n_mafias == 1 {
            assert(p.drop_last() =~= seq![p[0], p[1]]);
            assert(seq![p[0], p[1]].drop_last() =~= seq![p[0]]);
            assert(seq![p[0]].drop_last() =~= Seq::<Player>::empty());
        } else {
            assert(p.drop_last() =~= seq![p[0], p[1], p[2]]);
            assert(seq![p[0], p[1], p[2]].drop_last() =~= seq![p[0], p[1]]);
            assert(seq![p[0], p[1]].drop_last() =~= seq![p[0]]);
            assert(seq![p[0]].drop_last() =~= Seq::<Player>::empty());
        }
    }
    State {
        kills: Vec::new(),
        real_requests: Vec::new(),
        real_responses: Vec::new(),
        fake_requests: Vec::new(),
        fake_responses: Vec::new(),
        players,
        n_players: cfg.n_players,
        skip_first_day: cfg.skip_first_day,
    }
}

/// Element-wise copy; the library duplicates positions with this instead of
/// `Clone` so that the copy's contents are known exactly.
pub fn copy_vec<T: Copy>(v: &Vec<T>) -> (r: Vec<T>)
    ensures
        r@ == v@,
{
    let mut r: Vec<T> = Vec::new();
    let mut i: usize = 0;
    while i < v.len()
        invariant
            0 <= i <= v@.len(),
            r@ == v@.take(i as int),
        decreases v@.len() - i,
    {
        r.push(v[i]);
        proof {
            assert(v@.take(i + 1) =~= v@.take(i as int).push(v@[i as int]));
        }
        i = i + 1;
    }
    proof {
        assert(v@.take(v@.len() as int) =~= v@);
    }
    r
}

/// The bucket vector after one seat of bucket `p` is split off: the touched
/// bucket keeps a single seat and the overflow becomes a fresh bucket at the
/// end; the skip value and single-seat buckets are left alone.
pub open spec fn touch_view(players: Seq<Player>, player_id: usize, n_players: usize) -> Seq<
    Player,
> {
    if player_id == n_players || players[player_id as int].count <= 1 {
        players
    } else {
        let p = players[player_id as int];
        players.update(player_id as int, Player { alive: p.alive, mafia: p.mafia, count: 1 }).push(
            Player { alive: true, mafia: p.mafia, count: (p.count - 1) as usize },
        )
    }
}

/// The bucket vector after bucket `id` dies.
pub open spec fn kill_view(players: Seq<Player>, id: usize) -> Seq<Player> {
    let p = players[id as int];
    players.update(id as int, Player { alive: false, mafia: p.mafia, count: p.count })
}

/// The multiplicity a choice of `id` is credited with: the bucket's seat
/// count, or one for the skip value.
pub open spec fn bucket_mult(players: Seq<Player>, id: usize, n_players: usize) -> usize {
    if id == n_players {
        1usize
    } else {
        players[id as int].count
    }
}

/// The live buckets with their multiplicities, in bucket order; when
/// `exclude_mafia` holds the mafia buckets are left out.
pub open spec fn kc_spec(players: Seq<Player>, exclude_mafia: bool) -> Seq<(usize, usize)>
    decreases players.len(),
{
    if players.len() == 0 {
        Seq::empty()
    } else {
        let prefix = kc_spec(players.drop_last(), exclude_mafia);
        let p = players.last();
        if p.alive && !(exclude_mafia && p.mafia) {
            prefix.push((((players.len() - 1) as usize), p.count))
        } else {
            prefix
        }
    }
}

/// Every candidate names a live bucket with its true multiplicity.
pub proof fn lemma_kc_elems(players: Seq<Player>, exclude_mafia: bool)
    requires
        players.len() <= usize::MAX,
    ensures
        forall|j: int|
            0 <= j < kc_spec(players, exclude_mafia).len() ==> {
                let e = #[trigger] kc_spec(players, exclude_mafia)[j];
                &&& e.0 < players.len()
                &&& players[e.0 as int].alive
                &&& e.1 == players[e.0 as int].count
                &&& !(exclude_mafia && players[e.0 as int].mafia)
            },
    decreases players.len(),
{
    if players.len() > 0 {
        lemma_kc_elems(players.drop_last(), exclude_mafia);
        let full = kc_spec(players, exclude_mafia);
        let prefix = kc_spec(players.drop_last(), exclude_mafia);
        assert forall|j: int| 0 <= j < full.len() implies {
            let e = #[trigger] full[j];
            &&& e.0 < players.len()
            &&& players[e.0 as int].alive
            &&& e.1 == players[e.0 as int].count
            &&& !(exclude_mafia && players[e.0 as int].mafia)
        } by {
            if j < prefix.len() {
                assert(full[j] == prefix[j]);
                assert(players.drop_last()[prefix[j].0 as int] == players[prefix[j].0 as int]);
            } else {
                assert(full[j] == (((players.len() - 1) as usize), players.last().count));
            }
        }
    }
}

/// The buckets a detective may still check: live, not previously requested by
/// this detective, and not the detective's own seat.
pub open spec fn cc_spec(players: Seq<Player>, requests: Seq<usize>, detective: usize) -> Seq<
    (usize, usize),
>
    decreases players.len(),
{
    if players.len() == 0 {
        Seq::empty()
    } else {
        let prefix = cc_spec(players.drop_last(), requests, detective);
        let p = players.last();
        let i = (players.len() - 1) as usize;
        if p.alive && !requests.contains(i) && i != detective {
            prefix.push((i, p.count))
        } else {
            prefix
        }
    }
}

pub proof fn lemma_cc_elems(players: Seq<Player>, requests: Seq<usize>, detective: usize)
    requires
        players.len() <= usize::MAX,
    ensures
        forall|j: int|
            0 <= j < cc_spec(players, requests, detective).len() ==> {
                let e = #[trigger] cc_spec(players, requests, detective)[j];
                &&& e.0 < players.len()
                &&& players[e.0 as int].alive
                &&& e.1 == players[e.0 as int].count
            },
    decreases players.len(),
{
    if players.len() > 0 {
        lemma_cc_elems(players.drop_last(), requests, detective);
        let full = cc_spec(players, requests, detective);
        let prefix = cc_spec(players.drop_last(), requests, detective);
        assert forall|j: int| 0 <= j < full.len() implies {
            let e = #[trigger] full[j];
            &&& e.0 < players.len()
            &&& players[e.0 as int].alive
            &&& e.1 == players[e.0 as int].count
        } by {
            if j < prefix.len() {
                assert(full[j] == prefix[j]);
                assert(players.drop_last()[prefix[j].0 as int] == players[prefix[j].0 as int]);
            } else {
                assert(full[j] == (((players.len() - 1) as usize), players.last().count));
            }
        }
    }
}

/// What a detective's check may target, over the bucket vector alone; see
/// `State::check_cands`.
pub open spec fn check_cands_view(
    players: Seq<Player>,
    n_players: usize,
    detective: usize,
    requests: Seq<usize>,
) -> Seq<(usize, usize)> {
    if !players[detective as int].alive || alive_sum(players) == 2 {
        seq![(n_players, 1usize)]
    } else {
        let base = cc_spec(players, requests, detective);
        if base.len() == 0 {
            seq![(n_players, 1usize)]
        } else {
            base
        }
    }
}

/// Whether `v` holds `x`.
pub fn contains_id(v: &Vec<usize>, x: usize) -> (r: bool)
    ensures
        r == v@.contains(x),
{
    let mut i: usize = 0;
    while i < v.len()
        invariant
            0 <= i <= v@.len(),
            forall|j: int| 0 <= j < i ==> v@[j] != x,
        decreases v@.len() - i,
    {
        if v[i] == x {
            return true;
        }
        i = i + 1;
    }
    false
}

pub proof fn lemma_count_elem_le(players: Seq<Player>, i: int)
    requires
        0 <= i < players.len(),
    ensures
        players[i].count <= count_sum(players),
{
    lemma_sums_take_le(players, i + 1);
    assert(players.take(i + 1).drop_last() =~= players.take(i));
    assert(players.take(i + 1).last() == players[i]);
    lemma_sums_bounded(players.take(i));
}

/// Splitting a seat off preserves the total seat count.
pub proof fn lemma_touch_count_sum(players: Seq<Player>, p: usize, n_players: usize)
    requires
        p < players.len() || p == n_players,
    ensures
        count_sum(touch_view(players, p, n_players)) == count_sum(players),
{
    if !(p == n_players || players[p as int].count <= 1) {
        let q = players[p as int];
        let upd = players.update(p as int, Player { alive: q.alive, mafia: q.mafia, count: 1 });
        lemma_count_sum_update(players, p as int, Player { alive: q.alive, mafia: q.mafia, count: 1 });
        let res = touch_view(players, p, n_players);
        assert(res.drop_last() =~= upd);
    }
}

/// A death changes no seat count.
pub proof fn lemma_kill_count_sum(players: Seq<Player>, id: usize)
    requires
        id < players.len(),
    ensures
        count_sum(kill_view(players, id)) == count_sum(players),
{
    let p = players[id as int];
    lemma_count_sum_update(players, id as int, Player { alive: false, mafia: p.mafia, count: p.count });
}

/// Runtime test that every entry of `ids` names a bucket below `n_buckets`
/// or equals the skip value `n_players`.
pub fn ids_in_range(ids: &Vec<usize>, n_players: usize, n_buckets: usize) -> (r: bool)
    ensures
        r == ids_ok(ids@, n_players, n_buckets as int),
{
    let mut i: usize = 0;
    while i < ids.len()
        invariant
            0 <= i <= ids@.len(),
            forall|j: int| 0 <= j < i ==> #[trigger] ids@[j] < n_buckets || ids@[j] == n_players,
        decreases ids@.len() - i,
    {
        if !(ids[i] < n_buckets || ids[i] == n_players) {
            return false;
        }
        i = i + 1;
    }
    true
}

/// Whether `child` is `parent` with exactly one identifier appended.
pub fn extends_ids(parent: &Vec<usize>, child: &Vec<usize>) -> (r: bool)
    ensures
        r == (child@.len() == parent@.len() + 1 && child@ == parent@.push(child@.last())),
{
    let clen: usize = child.len();
    if parent.len() == usize::MAX || clen != parent.len() + 1 {
        return false;
    }
    let mut i: usize = 0;
    while i < parent.len()
        invariant
            0 <= i <= parent@.len(),
            child@.len() == parent@.len() + 1,
            forall|j: int| 0 <= j < i ==> child@[j] == parent@[j],
        decreases parent@.len() - i,
    {
        if parent[i] != child[i] {
            proof {
                assert(parent@.push(child@.last())[i as int] == parent@[i as int]);
            }
            return false;
        }
        i = i + 1;
    }
    proof {
        assert(child@ =~= parent@.push(child@.last()));
    }
    true
}

/// Whether two identifier histories are equal.
pub fn ids_eq(a: &Vec<usize>, b: &Vec<usize>) -> (r: bool)
    ensures
        r == (a@ == b@),
{
    if a.len() != b.len() {
        return false;
    }
    let mut i: usize = 0;
    while i < a.len()
        invariant
            0 <= i <= a@.len(),
            a@.len() == b@.len(),
            forall|j: int| 0 <= j < i ==> a@[j] == b@[j],
        decreases a@.len() - i,
    {
        if a[i] != b[i] {
            return false;
        }
        i = i + 1;
    }
    proof {
        assert(a@ =~= b@);
    }
    true
}

/// Whether two response histories are equal.
pub fn bools_eq(a: &Vec<bool>, b: &Vec<bool>) -> (r: bool)
    ensures
        r == (a@ == b@),
{
    if a.len() != b.len() {
        return false;
    }
    let mut i: usize = 0;
    while i < a.len()
        invariant
            0 <= i <= a@.len(),
            a@.len() == b@.len(),
            forall|j: int| 0 <= j < i ==> a@[j] == b@[j],
        decreases a@.len() - i,
    {
        if a[i] != b[i] {
            return false;
        }
        i = i + 1;
    }
    proof {
        assert(a@ =~= b@);
    }
    true
}

/// Whether `child` is `parent` with exactly `flag` appended.
pub fn bools_push_eq(parent: &Vec<bool>, child: &Vec<bool>, flag: bool) -> (r: bool)
    ensures
        r == (child@ == parent@.push(flag)),
{
    let clen: usize = child.len();
    if parent.len() == usize::MAX || clen != parent.len() + 1 {
        return false;
    }
    if child[child.len() - 1] != flag {
        proof {
            assert(parent@.push(flag).last() == flag);
        }
        return false;
    }
    let mut i: usize = 0;
    while i < parent.len()
        invariant
            0 <= i <= parent@.len(),
            child@.len() == parent@.len() + 1,
            forall|j: int| 0 <= j < i ==> child@[j] == parent@[j],
        decreases parent@.len() - i,
    {
        if parent[i] != child[i] {
            proof {
                assert(parent@.push(flag)[i as int] == parent@[i as int]);
            }
            return false;
        }
        i = i + 1;
    }
    proof {
        assert(child@ =~= parent@.push(flag));
    }
    true
}

/// Whether `child` is `parent` with exactly one response appended, whichever
/// it is.
pub fn bools_extend_any(parent: &Vec<bool>, child: &Vec<bool>) -> (r: bool)
    ensures
        r == (child@.len() == parent@.len() + 1 && child@.drop_last() == parent@),
{
    let clen: usize = child.len();
    if parent.len() == usize::MAX || clen != parent.len() + 1 {
        return false;
    }
    let mut i: usize = 0;
    while i < parent.len()
        invariant
            0 <= i <= parent@.len(),
            child@.len() == parent@.len() + 1,
            forall|j: int| 0 <= j < i ==> child@[j] == parent@[j],
        decreases parent@.len() - i,
    {
        if parent[i] != child[i] {
            proof {
                assert(child@.drop_last()[i as int] == child@[i as int]);
            }
            return false;
        }
        i = i + 1;
    }
    proof {
        assert(child@.drop_last() =~= parent@);
    }
    true
}

/// Whether two bucket vectors are equal.
pub fn players_eq(a: &Vec<Player>, b: &Vec<Player>) -> (r: bool)
    ensures
        r == (a@ == b@),
{
    if a.len() != b.len() {
        return false;
    }
    let mut i: usize = 0;
    while i < a.len()
        invariant
            0 <= i <= a@.len(),
            a@.len() == b@.len(),
            forall|j: int| 0 <= j < i ==> a@[j] == b@[j],
        decreases a@.len() - i,
    {
        if a[i] != b[i] {
            return false;
        }
        i = i + 1;
    }
    proof {
        assert(a@ =~= b@);
    }
    true
}

/// Whether the candidate list holds exactly the pair `(id, mult)`.
pub fn has_pair(cands: &Vec<(usize, usize)>, id: usize, mult: usize) -> (r: bool)
    ensures
        r == cands@.contains((id, mult)),
{
    let mut i: usize = 0;
    while i < cands.len()
        invariant
            0 <= i <= cands@.len(),
            forall|j: int| 0 <= j < i ==> cands@[j] != (id, mult),
        decreases cands@.len() - i,
    {
        if cands[i].0 == id && cands[i].1 == mult {
            proof {
                assert(cands@[i as int] == (id, mult));
            }
            return true;
        }
        i = i + 1;
    }
    proof {
        assert(forall|j: int| 0 <= j < cands@.len() ==> cands@[j] != (id, mult));
    }
    false
}

/// Every vote candidate names a bucket or the skip value.
pub proof fn lemma_vote_cands_ids(s: State)
    requires
        s.players@.len() <= usize::MAX,
    ensures
        forall|j: int|
            0 <= j < s.vote_cands().len() ==> (#[trigger] s.vote_cands()[j]).0 < s.players@.len()
                || s.vote_cands()[j].0 == s.n_players,
{
    lemma_kc_elems(s.players@, s.kill_excludes_mafia());
    let vc = s.vote_cands();
    let kc = kc_spec(s.players@, s.kill_excludes_mafia());
    assert forall|j: int|
        0 <= j < vc.len() implies (#[trigger] vc[j]).0 < s.players@.len() || vc[j].0
        == s.n_players by {
        if alive_sum(s.players@) == 4 || (s.skip_first_day && s.kills@.len() == 0) {
            assert(vc[j] == (s.n_players, 1usize));
        } else if alive_sum(s.players@) > 3 {
            if j < kc.len() {
                assert(vc[j] == kc[j]);
            } else {
                assert(vc[j] == (s.n_players, 1usize));
            }
        } else {
            assert(vc[j] == kc[j]);
        }
    }
}

/// Every check candidate names a bucket or the skip value.
pub proof fn lemma_check_cands_ids(
    players: Seq<Player>,
    n_players: usize,
    detective: usize,
    requests: Seq<usize>,
)
    requires
        players.len() <= usize::MAX,
    ensures
        forall|j: int|
            0 <= j < check_cands_view(players, n_players, detective, requests).len() ==> (
            #[trigger] check_cands_view(players, n_players, detective, requests)[j]).0
                < players.len() || check_cands_view(players, n_players, detective, requests)[j].0
                == n_players,
{
    lemma_cc_elems(players, requests, detective);
    let cv = check_cands_view(players, n_players, detective, requests);
    let base = cc_spec(players, requests, detective);
    assert forall|j: int|
        0 <= j < cv.len() implies (#[trigger] cv[j]).0 < players.len() || cv[j].0 == n_players by {
        if !players[detective as int].alive || alive_sum(players) == 2 {
            assert(cv[j] == (n_players, 1usize));
        } else if base.len() == 0 {
            assert(cv[j] == (n_players, 1usize));
        } else {
            assert(cv[j] == base[j]);
        }
    }
}

/// The day successor relation: `t` results from `s` by one legal day intent —
/// a vote, the real detective's check and the fake detective's check — and
/// `count` is the product of the multiplicities of the three chosen buckets.
pub open spec fn day_edge(s: State, t: State, count: int) -> bool {
    let v = t.kills@.last();
    let p2 = t.real_requests@.last();
    let p3 = t.fake_requests@.last();
    let pl0 = touch_view(s.players@, v, s.n_players);
    let pl1 = if v == s.n_players {
        pl0
    } else {
        kill_view(pl0, v)
    };
    let pl2 = touch_view(pl1, p2, s.n_players);
    let pl3 = touch_view(pl2, p3, s.n_players);
    &&& t.kills@ == s.kills@.push(v)
    &&& t.real_requests@ == s.real_requests@.push(p2)
    &&& t.fake_requests@ == s.fake_requests@.push(p3)
    &&& t.real_responses@ == s.real_responses@
    &&& t.fake_responses@ == s.fake_responses@
    &&& t.players@ == pl3
    &&& t.n_players == s.n_players
    &&& t.skip_first_day == s.skip_first_day
    &&& s.vote_cands().contains((v, bucket_mult(s.players@, v, s.n_players)))
    &&& check_cands_view(pl1, s.n_players, 0, s.real_requests@).contains(
        (p2, bucket_mult(pl1, p2, s.n_players)),
    )
    &&& check_cands_view(pl2, s.n_players, 1, s.fake_requests@).contains(
        (p3, bucket_mult(pl2, p3, s.n_players)),
    )
    &&& count == bucket_mult(s.players@, v, s.n_players) * bucket_mult(pl1, p2, s.n_players)
        * bucket_mult(pl2, p3, s.n_players)
}

/// The night successor relation: `t` results from `s` by one legal kill,
/// the real detective's forced response when it lives and has an open
/// request, and the fake detective's freely chosen response likewise;
/// `count` is the killed bucket's multiplicity.
pub open spec fn night_edge(s: State, t: State, count: int) -> bool {
    let v = t.kills@.last();
    let pl1 = kill_view(touch_view(s.players@, v, s.n_players), v);
    let rr = s.real_requests@.last();
    let fr = s.fake_requests@.last();
    &&& t.kills@ == s.kills@.push(v)
    &&& t.real_requests@ == s.real_requests@
    &&& t.fake_requests@ == s.fake_requests@
    &&& t.players@ == pl1
    &&& t.n_players == s.n_players
    &&& t.skip_first_day == s.skip_first_day
    &&& s.real_requests@.len() >= 1
    &&& s.fake_requests@.len() >= 1
    &&& (if pl1[0].alive && rr != s.n_players {
        t.real_responses@ == s.real_responses@.push(pl1[rr as int].mafia)
    } else {
        t.real_responses@ == s.real_responses@
    })
    &&& (if pl1[1].alive && fr != s.n_players {
        t.fake_responses@.len() == s.fake_responses@.len() + 1 && t.fake_responses@.drop_last()
            == s.fake_responses@
    } else {
        t.fake_responses@ == s.fake_responses@
    })
    &&& kc_spec(s.players@, s.kill_excludes_mafia()).contains(
        (v, bucket_mult(s.players@, v, s.n_players)),
    )
    &&& count == bucket_mult(s.players@, v, s.n_players)
}

impl State {
    /// Whether `t` follows from this day position by one legal intent with
    /// transition multiplicity `count`; exactly the `day_edge` relation.
    pub fn is_day_successor(&self, t: &State, count: usize) -> (r: bool)
        requires
            self.wf(),
        ensures
            r == day_edge(*self, *t, count as int),
    {
        let n = self.n_players;
        if !extends_ids(&self.kills, &t.kills) {
            return false;
        }
        let v: usize = t.kills[t.kills.len() - 1];
        if !extends_ids(&self.real_requests, &t.real_requests) {
            return false;
        }
        let p2: usize = t.real_requests[t.real_requests.len() - 1];
        if !extends_ids(&self.fake_requests, &t.fake_requests) {
            return false;
        }
        let p3: usize = t.fake_requests[t.fake_requests.len() - 1];
        if !bools_eq(&self.real_responses, &t.real_responses) {
            return false;
        }
        if !bools_eq(&self.fake_responses, &t.fake_responses) {
            return false;
        }
        if t.n_players != n || t.skip_first_day != self.skip_first_day {
            return false;
        }
        if !(v < self.players.len() || v == n) {
            proof {
                lemma_vote_cands_ids(*self);
                let pair = (v, bucket_mult(self.players@, v, n));
                if self.vote_cands().contains(pair) {
                    let j = choose|j: int|
                        0 <= j < self.vote_cands().len() && self.vote_cands()[j] == pair;
                    assert(self.vote_cands()[j].0 == v);
                }
            }
            return false;
        }
        let mv: usize = if v == n {
            1
        } else {
            self.players[v].count
        };
        let votes = self.vote_candidates();
        if !has_pair(&votes, v, mv) {
            return false;
        }
        let mut s1 = self.touch(v);
        s1.kills.push(v);
        if v != n {
            let pl: Player = s1.players[v];
            s1.players[v] = Player { alive: false, mafia: pl.mafia, count: pl.count };
        }
        proof {
            let pl0 = touch_view(self.players@, v, n);
            let pl1 = if v == n {
                pl0
            } else {
                kill_view(pl0, v)
            };
            assert(s1.players@ =~= pl1);
            lemma_touch_count_sum(self.players@, v, n);
            if v != n {
                lemma_kill_count_sum(pl0, v);
            }
        }
        let checks1 = s1.check_candidates(0, &s1.real_requests);
        if !(p2 < s1.players.len() || p2 == n) {
            proof {
                lemma_check_cands_ids(s1.players@, n, 0, self.real_requests@);
                let pair = (p2, bucket_mult(s1.players@, p2, n));
                let cv = check_cands_view(s1.players@, n, 0, self.real_requests@);
                if cv.contains(pair) {
                    let j = choose|j: int| 0 <= j < cv.len() && cv[j] == pair;
                    assert(cv[j].0 == p2);
                }
            }
            return false;
        }
        let m2: usize = if p2 == n {
            1
        } else {
            s1.players[p2].count
        };
        if !has_pair(&checks1, p2, m2) {
            return false;
        }
        let mut s2 = s1.touch(p2);
        s2.real_requests.push(p2);
        proof {
            lemma_touch_count_sum(s1.players@, p2, n);
        }
        let checks2 = s2.check_candidates(1, &s2.fake_requests);
        if !(p3 < s2.players.len() || p3 == n) {
            proof {
                lemma_check_cands_ids(s2.players@, n, 1, self.fake_requests@);
                let pair = (p3, bucket_mult(s2.players@, p3, n));
                let cv = check_cands_view(s2.players@, n, 1, self.fake_requests@);
                if cv.contains(pair) {
                    let j = choose|j: int| 0 <= j < cv.len() && cv[j] == pair;
                    assert(cv[j].0 == p3);
                }
            }
            return false;
        }
        let m3: usize = if p3 == n {
            1
        } else {
            s2.players[p3].count
        };
        if !has_pair(&checks2, p3, m3) {
            return false;
        }
        let s3 = s2.touch(p3);
        if !players_eq(&s3.players, &t.players) {
            return false;
        }
        proof {
            if v != n {
                lemma_count_elem_le(self.players@, v as int);
            }
            if p2 != n {
                lemma_count_elem_le(s1.players@, p2 as int);
            }
            if p3 != n {
                lemma_count_elem_le(s2.players@, p3 as int);
            }
            assert(mv * m2 <= 81 && mv * m2 * m3 <= 729) by (nonlinear_arith)
                requires
                    mv <= 9,
                    m2 <= 9,
                    m3 <= 9,
            ;
        }
        let prod: usize = mv * m2 * m3;
        count == prod
    }

    /// Whether `t` follows from this night position by one legal kill and the
    /// forced and chosen responses, with transition multiplicity `count`;
    /// exactly the `night_edge` relation.
    pub fn is_night_successor(&self, t: &State, count: usize) -> (r: bool)
        requires
            self.wf(),
        ensures
            r == night_edge(*self, *t, count as int),
    {
        let n = self.n_players;
        if !extends_ids(&self.kills, &t.kills) {
            return false;
        }
        let v: usize = t.kills[t.kills.len() - 1];
        if !ids_eq(&self.real_requests, &t.real_requests) {
            return false;
        }
        if !ids_eq(&self.fake_requests, &t.fake_requests) {
            return false;
        }
        if t.n_players != n || t.skip_first_day != self.skip_first_day {
            return false;
        }
        if self.real_requests.len() < 1 || self.fake_requests.len() < 1 {
            return false;
        }
        if !(v < self.players.len()) {
            proof {
                lemma_kc_elems(self.players@, self.kill_excludes_mafia());
                let kc = kc_spec(self.players@, self.kill_excludes_mafia());
                let pair = (v, bucket_mult(self.players@, v, n));
                if kc.contains(pair) {
                    let j = choose|j: int| 0 <= j < kc.len() && kc[j] == pair;
                    assert(kc[j].0 == v);
                }
            }
            return false;
        }
        let mv: usize = self.players[v].count;
        let kills_c = self.kill_candidates();
        if !has_pair(&kills_c, v, mv) {
            return false;
        }
        let mut s1 = self.touch(v);
        s1.kills.push(v);
        let pl: Player = s1.players[v];
        s1.players[v] = Player { alive: false, mafia: pl.mafia, count: pl.count };
        proof {
            let pl1 = kill_view(touch_view(self.players@, v, n), v);
            assert(s1.players@ =~= pl1);
        }
        let rr: usize = self.real_requests[self.real_requests.len() - 1];
        if s1.players[0].alive && rr != n {
            let flag: bool = s1.players[rr].mafia;
            if !bools_push_eq(&self.real_responses, &t.real_responses, flag) {
                return false;
            }
        } else {
            if !bools_eq(&self.real_responses, &t.real_responses) {
                return false;
            }
        }
        let fr: usize = self.fake_requests[self.fake_requests.len() - 1];
        if s1.players[1].alive && fr != n {
            if !bools_extend_any(&self.fake_responses, &t.fake_responses) {
                return false;
            }
        } else {
            if !bools_eq(&self.fake_responses, &t.fake_responses) {
                return false;
            }
        }
        if !players_eq(&s1.players, &t.players) {
            return false;
        }
        count == mv
    }
}

} // verus!
