//! Canonical keys. A position renders to a state key (kills, both request
//! histories and the mafia's reported responses) and to an information-set
//! key for the acting team, in which interchangeable buckets are renumbered
//! by first appearance so that positions a team cannot tell apart collide.
//!
//! Keys are built as ASCII byte strings: digits from `'0'` for bucket
//! identifiers, `'.'` for the skip value, `','` between fields, `'+'`/`'-'`
//! for responses, `'a'`/`'b'` for the distinguished detective seats.

use crate::state::{Player, State};
use vstd::prelude::*;

verus! {

/// How one bucket identifier renders: a digit, or `'.'` for the skip value.
pub open spec fn id_byte(x: usize, n_players: usize) -> u8 {
    if x == n_players {
        46u8
    } else {
        (48 + x) as u8
    }
}

/// A history of bucket identifiers, rendered.
pub open spec fn ids_bytes(ids: Seq<usize>, n_players: usize) -> Seq<u8> {
    ids.map(|i: int, x: usize| id_byte(x, n_players))
}

/// A history of responses, rendered: `'+'` for mafia, `'-'` for villager.
pub open spec fn resp_bytes(rs: Seq<bool>) -> Seq<u8> {
    rs.map(|i: int, b: bool| if b { 43u8 } else { 45u8 })
}

/// The characters of an ASCII byte string.
pub open spec fn ascii_view(bs: Seq<u8>) -> Seq<char> {
    bs.map(|i: int, b: u8| b as char)
}

/// Append the rendering of `ids` to `out`.
pub fn push_ids(out: &mut Vec<u8>, ids: &Vec<usize>, n_players: usize)
    requires
        n_players <= 9,
        forall|i: int| 0 <= i < ids@.len() ==> #[trigger] ids@[i] <= n_players,
    ensures
        final(out)@ == old(out)@ + ids_bytes(ids@, n_players),
{
    let mut i: usize = 0;
    while i < ids.len()
        invariant
            0 <= i <= ids@.len(),
            n_players <= 9,
            forall|j: int| 0 <= j < ids@.len() ==> #[trigger] ids@[j] <= n_players,
            out@ == old(out)@ + ids_bytes(ids@.take(i as int), n_players),
        decreases ids@.len() - i,
    {
        let x = ids[i];
        let b: u8 = if x == n_players {
            46
        } else {
            48 + (x as u8)
        };
        out.push(b);
        proof {
            assert(ids_bytes(ids@.take(i + 1), n_players) =~= ids_bytes(
                ids@.take(i as int),
                n_players,
            ).push(id_byte(ids@[i as int], n_players)));
            assert(out@ =~= old(out)@ + ids_bytes(ids@.take(i + 1), n_players));
        }
        i = i + 1;
    }
    proof {
        assert(ids@.take(ids@.len() as int) =~= ids@);
    }
}

/// Append the rendering of `rs` to `out`.
pub fn push_resps(out: &mut Vec<u8>, rs: &Vec<bool>)
    ensures
        final(out)@ == old(out)@ + resp_bytes(rs@),
{
    let mut i: usize = 0;
    while i < rs.len()
        invariant
            0 <= i <= rs@.len(),
            out@ == old(out)@ + resp_bytes(rs@.take(i as int)),
        decreases rs@.len() - i,
    {
        let b: u8 = if rs[i] {
            43
        } else {
            45
        };
        out.push(b);
        proof {
            assert(resp_bytes(rs@.take(i + 1)) =~= resp_bytes(rs@.take(i as int)).push(
                if rs@[i as int] {
                    43u8
                } else {
                    45u8
                },
            ));
            assert(out@ =~= old(out)@ + resp_bytes(rs@.take(i + 1)));
        }
        i = i + 1;
    }
    proof {
        assert(rs@.take(rs@.len() as int) =~= rs@);
    }
}

/// Relies on `String::push`: it appends the given character to the string.
pub assume_specification[ String::push ](s: &mut String, ch: char)
    ensures
        final(s)@ == old(s)@.push(ch),
;

/// An ASCII byte string as a `String`.
pub fn ascii_string(bytes: &Vec<u8>) -> (r: String)
    ensures
        r@ == ascii_view(bytes@),
{
    let mut r = String::new();
    let mut i: usize = 0;
    while i < bytes.len()
        invariant
            0 <= i <= bytes@.len(),
            r@ == ascii_view(bytes@.take(i as int)),
        decreases bytes@.len() - i,
    {
        r.push(bytes[i] as char);
        proof {
            assert(ascii_view(bytes@.take(i + 1)) =~= ascii_view(bytes@.take(i as int)).push(
                bytes@[i as int] as char,
            ));
        }
        i = i + 1;
    }
    proof {
        assert(bytes@.take(bytes@.len() as int) =~= bytes@);
    }
    r
}

/// Strict lexicographic order on byte strings, as `str` ordering has it for
/// ASCII text.
pub open spec fn lex_lt(a: Seq<u8>, b: Seq<u8>) -> bool
    decreases a.len(),
{
    if b.len() == 0 {
        false
    } else if a.len() == 0 {
        true
    } else if a[0] < b[0] {
        true
    } else if a[0] > b[0] {
        false
    } else {
        lex_lt(a.drop_first(), b.drop_first())
    }
}

pub fn bytes_lt(a: &Vec<u8>, b: &Vec<u8>) -> (r: bool)
    ensures
        r == lex_lt(a@, b@),
{
    let mut i: usize = 0;
    proof {
        assert(a@.skip(0) =~= a@);
        assert(b@.skip(0) =~= b@);
    }
    while i < a.len() && i < b.len()
        invariant
            0 <= i <= a@.len(),
            0 <= i <= b@.len(),
            lex_lt(a@, b@) == lex_lt(a@.skip(i as int), b@.skip(i as int)),
        decreases a@.len() - i,
    {
        if a[i] != b[i] {
            return a[i] < b[i];
        }
        proof {
            assert(a@.skip(i as int).drop_first() =~= a@.skip(i + 1));
            assert(b@.skip(i as int).drop_first() =~= b@.skip(i + 1));
        }
        i = i + 1;
    }
    i < b.len()
}

/// No rendered identifier is the comma separator: identifiers render as `'.'`
/// or as digits, both above `','`.
pub proof fn lemma_ids_bytes_comma_free(ids: Seq<usize>, n_players: usize)
    requires
        n_players <= 9,
        forall|i: int| 0 <= i < ids.len() ==> #[trigger] ids[i] <= n_players,
    ensures
        forall|i: int|
            0 <= i < ids_bytes(ids, n_players).len() ==> #[trigger] ids_bytes(ids, n_players)[i]
                != 44,
{
    assert forall|i: int|
        0 <= i < ids_bytes(ids, n_players).len() implies #[trigger] ids_bytes(ids, n_players)[i]
        != 44 by {
        assert(ids_bytes(ids, n_players)[i] == id_byte(ids[i], n_players));
    }
}

/// No rendered response is the comma separator.
pub proof fn lemma_resp_bytes_comma_free(rs: Seq<bool>)
    ensures
        forall|i: int|
            0 <= i < resp_bytes(rs).len() ==> #[trigger] resp_bytes(rs)[i] != 44,
{
    assert forall|i: int|
        0 <= i < resp_bytes(rs).len() implies #[trigger] resp_bytes(rs)[i] != 44 by {
        assert(resp_bytes(rs)[i] == if rs[i] {
            43u8
        } else {
            45u8
        });
    }
}

/// Rendering identifiers is injective: equal renderings mean equal histories.
pub proof fn lemma_ids_bytes_injective(a: Seq<usize>, b: Seq<usize>, n_players: usize)
    requires
        n_players <= 9,
        forall|i: int| 0 <= i < a.len() ==> #[trigger] a[i] <= n_players,
        forall|i: int| 0 <= i < b.len() ==> #[trigger] b[i] <= n_players,
        ids_bytes(a, n_players) == ids_bytes(b, n_players),
    ensures
        a == b,
{
    assert(ids_bytes(a, n_players).len() == a.len());
    assert(ids_bytes(b, n_players).len() == b.len());
    assert(a.len() == b.len());
    assert forall|i: int| 0 <= i < a.len() implies a[i] == b[i] by {
        assert(ids_bytes(a, n_players)[i] == id_byte(a[i], n_players));
        assert(ids_bytes(b, n_players)[i] == id_byte(b[i], n_players));
    }
    assert(a =~= b);
}

/// Rendering responses is injective.
pub proof fn lemma_resp_bytes_injective(a: Seq<bool>, b: Seq<bool>)
    requires
        resp_bytes(a) == resp_bytes(b),
    ensures
        a == b,
{
    assert(resp_bytes(a).len() == a.len());
    assert(resp_bytes(b).len() == b.len());
    assert(a.len() == b.len());
    assert forall|i: int| 0 <= i < a.len() implies a[i] == b[i] by {
        assert(resp_bytes(a)[i] == if a[i] {
            43u8
        } else {
            45u8
        });
        assert(resp_bytes(b)[i] == if b[i] {
            43u8
        } else {
            45u8
        });
    }
    assert(a =~= b);
}

/// A comma-separated field is recovered uniquely: two splits of one string at
/// a comma, each with a comma-free head, agree.
pub proof fn lemma_comma_split(a1: Seq<u8>, r1: Seq<u8>, a2: Seq<u8>, r2: Seq<u8>)
    requires
        forall|i: int| 0 <= i < a1.len() ==> #[trigger] a1[i] != 44,
        forall|i: int| 0 <= i < a2.len() ==> #[trigger] a2[i] != 44,
        a1 + seq![44u8] + r1 == a2 + seq![44u8] + r2,
    ensures
        a1 == a2,
        r1 == r2,
{
    let l = a1 + seq![44u8] + r1;
    let m = a2 + seq![44u8] + r2;
    if a1.len() < a2.len() {
        assert(l[a1.len() as int] == 44);
        assert(m[a1.len() as int] == a2[a1.len() as int]);
        assert(false);
    }
    if a2.len() < a1.len() {
        assert(m[a2.len() as int] == 44);
        assert(l[a2.len() as int] == a1[a2.len() as int]);
        assert(false);
    }
    assert forall|i: int| 0 <= i < a1.len() implies a1[i] == a2[i] by {
        assert(l[i] == a1[i]);
        assert(m[i] == a2[i]);
    }
    assert(a1 =~= a2);
    assert(l.len() == a1.len() + 1 + r1.len());
    assert(m.len() == a2.len() + 1 + r2.len());
    assert(r1.len() == r2.len());
    assert forall|i: int| 0 <= i < r1.len() implies r1[i] == r2[i] by {
        assert(l[a1.len() + 1 + i] == r1[i]);
        assert(m[a2.len() + 1 + i] == r2[i]);
    }
    assert(r1 =~= r2);
}

/// The state key determines what it renders: two well-formed positions of
/// one game with equal state keys share their kills, both request histories
/// and the reported responses.
pub proof fn lemma_state_key_injective(s: State, t: State)
    requires
        s.wf(),
        t.wf(),
        s.n_players == t.n_players,
        s.state_key_view() == t.state_key_view(),
    ensures
        s.kills@ == t.kills@,
        s.real_requests@ == t.real_requests@,
        s.fake_requests@ == t.fake_requests@,
        s.fake_responses@ == t.fake_responses@,
{
    let n = s.n_players;
    assert forall|i: int| 0 <= i < s.kills@.len() implies #[trigger] s.kills@[i] <= n by {}
    assert forall|i: int| 0 <= i < t.kills@.len() implies #[trigger] t.kills@[i] <= n by {}
    assert forall|i: int| 0 <= i < s.real_requests@.len() implies #[trigger] s.real_requests@[i]
        <= n by {}
    assert forall|i: int| 0 <= i < t.real_requests@.len() implies #[trigger] t.real_requests@[i]
        <= n by {}
    assert forall|i: int| 0 <= i < s.fake_requests@.len() implies #[trigger] s.fake_requests@[i]
        <= n by {}
    assert forall|i: int| 0 <= i < t.fake_requests@.len() implies #[trigger] t.fake_requests@[i]
        <= n by {}
    let k1 = ids_bytes(s.kills@, n);
    let k2 = ids_bytes(t.kills@, n);
    let q1 = ids_bytes(s.real_requests@, n);
    let q2 = ids_bytes(t.real_requests@, n);
    let f1 = ids_bytes(s.fake_requests@, n);
    let f2 = ids_bytes(t.fake_requests@, n);
    let d1 = resp_bytes(s.fake_responses@);
    let d2 = resp_bytes(t.fake_responses@);
    lemma_ids_bytes_comma_free(s.kills@, n);
    lemma_ids_bytes_comma_free(t.kills@, n);
    lemma_ids_bytes_comma_free(s.real_requests@, n);
    lemma_ids_bytes_comma_free(t.real_requests@, n);
    lemma_ids_bytes_comma_free(s.fake_requests@, n);
    lemma_ids_bytes_comma_free(t.fake_requests@, n);
    let rest1 = q1 + seq![44u8] + f1 + seq![44u8] + d1;
    let rest2 = q2 + seq![44u8] + f2 + seq![44u8] + d2;
    assert(s.state_key_view() =~= k1 + seq![44u8] + rest1);
    assert(t.state_key_view() =~= k2 + seq![44u8] + rest2);
    lemma_comma_split(k1, rest1, k2, rest2);
    lemma_ids_bytes_injective(s.kills@, t.kills@, n);
    let tail1 = f1 + seq![44u8] + d1;
    let tail2 = f2 + seq![44u8] + d2;
    assert(rest1 =~= q1 + seq![44u8] + tail1);
    assert(rest2 =~= q2 + seq![44u8] + tail2);
    lemma_comma_split(q1, tail1, q2, tail2);
    lemma_ids_bytes_injective(s.real_requests@, t.real_requests@, n);
    lemma_comma_split(f1, d1, f2, d2);
    lemma_ids_bytes_injective(s.fake_requests@, t.fake_requests@, n);
    lemma_resp_bytes_injective(s.fake_responses@, t.fake_responses@);
}

/// The order is irreflexive: no byte string is below itself.
pub proof fn lemma_lex_irrefl(a: Seq<u8>)
    ensures
        !lex_lt(a, a),
    decreases a.len(),
{
    if a.len() > 0 {
        lemma_lex_irrefl(a.drop_first());
    }
}

/// The order is transitive.
pub proof fn lemma_lex_trans(a: Seq<u8>, b: Seq<u8>, c: Seq<u8>)
    requires
        lex_lt(a, b),
        lex_lt(b, c),
    ensures
        lex_lt(a, c),
    decreases a.len() + b.len() + c.len(),
{
    if a.len() > 0 && b.len() > 0 && c.len() > 0 && a[0] == b[0] && b[0] == c[0] {
        lemma_lex_trans(a.drop_first(), b.drop_first(), c.drop_first());
    }
}

/// In a list whose neighbours are strictly ascending, any earlier entry is
/// strictly below any later one.
pub proof fn lemma_lex_chain(ks: Seq<Seq<u8>>, p1: int, p2: int)
    requires
        forall|p: int| 0 <= p < ks.len() - 1 ==> lex_lt(#[trigger] ks[p], ks[p + 1]),
        0 <= p1 < p2 < ks.len(),
    ensures
        lex_lt(ks[p1], ks[p2]),
    decreases p2 - p1,
{
    if p2 > p1 + 1 {
        lemma_lex_chain(ks, p1, p2 - 1);
        lemma_lex_trans(ks[p1], ks[p2 - 1], ks[p2]);
    }
}

/// Whether two byte strings are equal.
pub fn bytes_eq(a: &Vec<u8>, b: &Vec<u8>) -> (r: bool)
    ensures
        r == (a@ == b@),
{
    if a.len() != b.len() {
        return false;
    }
    let mut i: usize = 0;
    while i < a.len()
        invariant
            0 <= i <= a@.len(),
            a@.len() == b@.len(),
            forall|j: int| 0 <= j < i ==> a@[j] == b@[j],
        decreases a@.len() - i,
    {
        if a[i] != b[i] {
            return false;
        }
        i = i + 1;
    }
    proof {
        assert(a@ =~= b@);
    }
    true
}

/// How many table entries are still unassigned (hold the placeholder 63).
pub open spec fn unset_count(m: Seq<u8>) -> int
    decreases m.len(),
{
    if m.len() == 0 {
        0
    } else {
        unset_count(m.drop_last()) + if m.last() == 63 {
            1int
        } else {
            0
        }
    }
}

pub proof fn lemma_unset_le_len(m: Seq<u8>)
    ensures
        0 <= unset_count(m) <= m.len(),
    decreases m.len(),
{
    if m.len() > 0 {
        lemma_unset_le_len(m.drop_last());
    }
}

pub proof fn lemma_unset_update(m: Seq<u8>, i: int, v: u8)
    requires
        0 <= i < m.len(),
        m[i] == 63,
        v != 63,
    ensures
        unset_count(m.update(i, v)) == unset_count(m) - 1,
    decreases m.len(),
{
    if i == m.len() - 1 {
        assert(m.update(i, v).drop_last() =~= m.drop_last());
    } else {
        assert(m.update(i, v).drop_last() =~= m.drop_last().update(i, v));
        lemma_unset_update(m.drop_last(), i, v);
    }
}

pub proof fn lemma_unset_pos(m: Seq<u8>, i: int)
    requires
        0 <= i < m.len(),
        m[i] == 63,
    ensures
        unset_count(m) >= 1,
    decreases m.len(),
{
    lemma_unset_le_len(m.drop_last());
    if i < m.len() - 1 {
        lemma_unset_pos(m.drop_last(), i);
    }
}

/// The town renamer walks a history and assigns the next fresh digit to each
/// bucket seen for the first time. `town_map` is the table afterwards.
pub open spec fn town_map(ids: Seq<usize>, m: Seq<u8>, next: u8) -> Seq<u8>
    decreases ids.len(),
{
    if ids.len() == 0 {
        m
    } else {
        let pm = town_map(ids.drop_last(), m, next);
        let pn = town_next(ids.drop_last(), m, next);
        let x = ids.last();
        if pm[x as int] != 63 {
            pm
        } else {
            pm.update(x as int, pn)
        }
    }
}

/// The fresh digit the town renamer would assign next.
pub open spec fn town_next(ids: Seq<usize>, m: Seq<u8>, next: u8) -> u8
    decreases ids.len(),
{
    if ids.len() == 0 {
        next
    } else {
        let pm = town_map(ids.drop_last(), m, next);
        let pn = town_next(ids.drop_last(), m, next);
        let x = ids.last();
        if pm[x as int] != 63 {
            pn
        } else {
            (pn + 1) as u8
        }
    }
}

/// The renamed rendering of the history.
pub open spec fn town_out(ids: Seq<usize>, m: Seq<u8>, next: u8) -> Seq<u8>
    decreases ids.len(),
{
    if ids.len() == 0 {
        Seq::empty()
    } else {
        let pm = town_map(ids.drop_last(), m, next);
        let pn = town_next(ids.drop_last(), m, next);
        let x = ids.last();
        town_out(ids.drop_last(), m, next).push(
            if pm[x as int] != 63 {
                pm[x as int]
            } else {
                pn
            },
        )
    }
}

/// Run the town renamer over `ids`, appending the renamed rendering to `out`
/// and threading the table and counter.
pub fn town_apply(out: &mut Vec<u8>, ids: &Vec<usize>, m: &mut Vec<u8>, next: &mut u8)
    requires
        forall|i: int| 0 <= i < ids@.len() ==> #[trigger] ids@[i] < old(m)@.len(),
        48 <= *old(next),
        *old(next) + unset_count(old(m)@) <= 59,
    ensures
        final(m)@ == town_map(ids@, old(m)@, *old(next)),
        *final(next) == town_next(ids@, old(m)@, *old(next)),
        final(out)@ == old(out)@ + town_out(ids@, old(m)@, *old(next)),
        final(m)@.len() == old(m)@.len(),
        48 <= *final(next),
        *final(next) + unset_count(final(m)@) == *old(next) + unset_count(old(m)@),
        forall|j: int|
            0 <= j < old(m)@.len() && old(m)@[j] != 63 ==> final(m)@[j] == old(m)@[j],
{
    let mut i: usize = 0;
    while i < ids.len()
        invariant
            0 <= i <= ids@.len(),
            forall|j: int| 0 <= j < ids@.len() ==> #[trigger] ids@[j] < old(m)@.len(),
            m@ == town_map(ids@.take(i as int), old(m)@, *old(next)),
            *next == town_next(ids@.take(i as int), old(m)@, *old(next)),
            out@ == old(out)@ + town_out(ids@.take(i as int), old(m)@, *old(next)),
            m@.len() == old(m)@.len(),
            48 <= *next,
            *next + unset_count(m@) == *old(next) + unset_count(old(m)@),
            *old(next) + unset_count(old(m)@) <= 59,
            forall|j: int|
                0 <= j < old(m)@.len() && old(m)@[j] != 63 ==> m@[j] == old(m)@[j],
        decreases ids@.len() - i,
    {
        proof {
            assert(ids@.take(i + 1).drop_last() =~= ids@.take(i as int));
            assert(ids@.take(i + 1).last() == ids@[i as int]);
        }
        let x = ids[i];
        let cur = m[x];
        if cur != 63 {
            out.push(cur);
        } else {
            proof {
                lemma_unset_pos(m@, x as int);
                lemma_unset_update(m@, x as int, *next);
            }
            out.push(*next);
            let nv = *next;
            m[x] = nv;
            *next = *next + 1;
        }
        proof {
            assert(out@ =~= old(out)@ + town_out(ids@.take(i + 1), old(m)@, *old(next)));
        }
        i = i + 1;
    }
    proof {
        assert(ids@.take(ids@.len() as int) =~= ids@);
    }
}

/// The mafia renamer: the table is shared, but mafia buckets draw letters
/// from one counter and town buckets digits from another.
pub open spec fn night_map(ids: Seq<usize>, players: Seq<Player>, m: Seq<u8>, nm: u8, nv: u8) -> Seq<
    u8,
>
    decreases ids.len(),
{
    if ids.len() == 0 {
        m
    } else {
        let pm = night_map(ids.drop_last(), players, m, nm, nv);
        let pa = night_nm(ids.drop_last(), players, m, nm, nv);
        let pv = night_nv(ids.drop_last(), players, m, nm, nv);
        let x = ids.last();
        if pm[x as int] != 63 {
            pm
        } else if players[x as int].mafia {
            pm.update(x as int, pa)
        } else {
            pm.update(x as int, pv)
        }
    }
}

pub open spec fn night_nm(ids: Seq<usize>, players: Seq<Player>, m: Seq<u8>, nm: u8, nv: u8) -> u8
    decreases ids.len(),
{
    if ids.len() == 0 {
        nm
    } else {
        let pm = night_map(ids.drop_last(), players, m, nm, nv);
        let pa = night_nm(ids.drop_last(), players, m, nm, nv);
        let x = ids.last();
        if pm[x as int] == 63 && players[x as int].mafia {
            (pa + 1) as u8
        } else {
            pa
        }
    }
}

pub open spec fn night_nv(ids: Seq<usize>, players: Seq<Player>, m: Seq<u8>, nm: u8, nv: u8) -> u8
    decreases ids.len(),
{
    if ids.len() == 0 {
        nv
    } else {
        let pm = night_map(ids.drop_last(), players, m, nm, nv);
        let pv = night_nv(ids.drop_last(), players, m, nm, nv);
        let x = ids.last();
        if pm[x as int] == 63 && !players[x as int].mafia {
            (pv + 1) as u8
        } else {
            pv
        }
    }
}

pub open spec fn night_out(ids: Seq<usize>, players: Seq<Player>, m: Seq<u8>, nm: u8, nv: u8) -> Seq<
    u8,
>
    decreases ids.len(),
{
    if ids.len() == 0 {
        Seq::empty()
    } else {
        let pm = night_map(ids.drop_last(), players, m, nm, nv);
        let pa = night_nm(ids.drop_last(), players, m, nm, nv);
        let pv = night_nv(ids.drop_last(), players, m, nm, nv);
        let x = ids.last();
        night_out(ids.drop_last(), players, m, nm, nv).push(
            if pm[x as int] != 63 {
                pm[x as int]
            } else if players[x as int].mafia {
                pa
            } else {
                pv
            },
        )
    }
}

/// Run the mafia renamer over `ids`, appending the renamed rendering to
/// `out` and threading the table and the two counters.
pub fn night_apply(
    out: &mut Vec<u8>,
    ids: &Vec<usize>,
    players: &Vec<Player>,
    m: &mut Vec<u8>,
    nm: &mut u8,
    nv: &mut u8,
)
    requires
        forall|i: int| 0 <= i < ids@.len() ==> #[trigger] ids@[i] < old(m)@.len(),
        forall|i: int|
            0 <= i < ids@.len() ==> #[trigger] ids@[i] < players@.len() || old(m)@[ids@[i] as int]
                != 63,
        98 <= *old(nm),
        48 <= *old(nv),
        (*old(nm) - 98) + (*old(nv) - 48) + unset_count(old(m)@) <= 11,
    ensures
        final(m)@ == night_map(ids@, players@, old(m)@, *old(nm), *old(nv)),
        *final(nm) == night_nm(ids@, players@, old(m)@, *old(nm), *old(nv)),
        *final(nv) == night_nv(ids@, players@, old(m)@, *old(nm), *old(nv)),
        final(out)@ == old(out)@ + night_out(ids@, players@, old(m)@, *old(nm), *old(nv)),
        final(m)@.len() == old(m)@.len(),
        98 <= *final(nm),
        48 <= *final(nv),
        (*final(nm) - 98) + (*final(nv) - 48) + unset_count(final(m)@) == (*old(nm) - 98) + (*old(
            nv,
        ) - 48) + unset_count(old(m)@),
        forall|j: int|
            0 <= j < old(m)@.len() && old(m)@[j] != 63 ==> final(m)@[j] == old(m)@[j],
{
    let mut i: usize = 0;
    while i < ids.len()
        invariant
            0 <= i <= ids@.len(),
            forall|j: int| 0 <= j < ids@.len() ==> #[trigger] ids@[j] < old(m)@.len(),
            forall|j: int|
                0 <= j < ids@.len() ==> #[trigger] ids@[j] < players@.len() || old(m)@[ids@[j] as int]
                    != 63,
            m@ == night_map(ids@.take(i as int), players@, old(m)@, *old(nm), *old(nv)),
            *nm == night_nm(ids@.take(i as int), players@, old(m)@, *old(nm), *old(nv)),
            *nv == night_nv(ids@.take(i as int), players@, old(m)@, *old(nm), *old(nv)),
            out@ == old(out)@ + night_out(ids@.take(i as int), players@, old(m)@, *old(nm), *old(nv)),
            m@.len() == old(m)@.len(),
            98 <= *nm,
            48 <= *nv,
            (*nm - 98) + (*nv - 48) + unset_count(m@) == (*old(nm) - 98) + (*old(nv) - 48)
                + unset_count(old(m)@),
            (*old(nm) - 98) + (*old(nv) - 48) + unset_count(old(m)@) <= 11,
            forall|j: int|
                0 <= j < old(m)@.len() && old(m)@[j] != 63 ==> m@[j] == old(m)@[j],
        decreases ids@.len() - i,
    {
        proof {
            assert(ids@.take(i + 1).drop_last() =~= ids@.take(i as int));
            assert(ids@.take(i + 1).last() == ids@[i as int]);
        }
        let x = ids[i];
        let cur = m[x];
        if cur != 63 {
            out.push(cur);
        } else {
            assert(x < players@.len());
            proof {
                lemma_unset_pos(m@, x as int);
            }
            if players[x].mafia {
                proof {
                    lemma_unset_update(m@, x as int, *nm);
                }
                out.push(*nm);
                let b = *nm;
                m[x] = b;
                *nm = *nm + 1;
            } else {
                proof {
                    lemma_unset_update(m@, x as int, *nv);
                }
                out.push(*nv);
                let b = *nv;
                m[x] = b;
                *nv = *nv + 1;
            }
        }
        proof {
            assert(out@ =~= old(out)@ + night_out(
                ids@.take(i + 1),
                players@,
                old(m)@,
                *old(nm),
                *old(nv),
            ));
        }
        i = i + 1;
    }
    proof {
        assert(ids@.take(ids@.len() as int) =~= ids@);
    }
}

impl State {
    /// Convert a bucket identifier to its display character.
    pub fn to_char(x: usize, n_players: usize) -> (c: char)
        requires
            x <= n_players,
            n_players <= 9,
        ensures
            c == id_byte(x, n_players) as char,
    {
        if x == n_players {
            46u8 as char
        } else {
            (48 + (x as u8)) as char
        }
    }

    /// The next character in ASCII order.
    pub fn inc(c: char) -> (r: char)
        requires
            c as u32 <= 126,
        ensures
            r as u32 == c as u32 + 1,
    {
        let u = (c as u32) + 1;
        (u as u8) as char
    }

    /// Render a history of bucket identifiers.
    pub fn players_string(values: &Vec<usize>, n_players: usize) -> (s: String)
        requires
            n_players <= 9,
            forall|i: int| 0 <= i < values@.len() ==> #[trigger] values@[i] <= n_players,
        ensures
            s@ == ascii_view(ids_bytes(values@, n_players)),
    {
        let mut b: Vec<u8> = Vec::new();
        push_ids(&mut b, values, n_players);
        ascii_string(&b)
    }

    /// Render a history of responses.
    pub fn responses_string(values: &Vec<bool>) -> (s: String)
        ensures
            s@ == ascii_view(resp_bytes(values@)),
    {
        let mut b: Vec<u8> = Vec::new();
        push_resps(&mut b, values);
        ascii_string(&b)
    }

    /// The concrete position's key: kills, both request histories and the
    /// mafia's reported responses. The real detective's responses are a
    /// function of the rest and are left out.
    pub open spec fn state_key_view(self) -> Seq<u8> {
        ids_bytes(self.kills@, self.n_players) + seq![44u8] + ids_bytes(
            self.real_requests@,
            self.n_players,
        ) + seq![44u8] + ids_bytes(self.fake_requests@, self.n_players) + seq![44u8] + resp_bytes(
            self.fake_responses@,
        )
    }

    pub fn state_key_bytes(&self) -> (r: Vec<u8>)
        requires
            self.wf(),
        ensures
            r@ == self.state_key_view(),
    {
        let mut out: Vec<u8> = Vec::new();
        push_ids(&mut out, &self.kills, self.n_players);
        out.push(44);
        push_ids(&mut out, &self.real_requests, self.n_players);
        out.push(44);
        push_ids(&mut out, &self.fake_requests, self.n_players);
        out.push(44);
        push_resps(&mut out, &self.fake_responses);
        proof {
            assert(out@ =~= self.state_key_view());
        }
        out
    }

    pub fn state_key(&self) -> (r: String)
        requires
            self.wf(),
        ensures
            r@ == ascii_view(self.state_key_view()),
    {
        let b = self.state_key_bytes();
        ascii_string(&b)
    }

    /// Initial renaming table for the town view: the two detective seats are
    /// the letters, in one of the two possible assignments.
    pub open spec fn town_m0(self, swap: bool) -> Seq<u8> {
        Seq::new(
            (self.n_players + 1) as nat,
            |i: int|
                if i == self.n_players as int {
                    46u8
                } else if i == 0 {
                    if swap {
                        98u8
                    } else {
                        97u8
                    }
                } else if i == 1 {
                    if swap {
                        97u8
                    } else {
                        98u8
                    }
                } else {
                    63u8
                },
        )
    }

    /// The town's view of the position under one of the two detective
    /// labelings: kills, then each request stream renamed by first
    /// appearance, with its responses.
    pub open spec fn town_perm_view(self, swap: bool) -> Seq<u8> {
        let m0 = self.town_m0(swap);
        let rq1 = if swap {
            self.real_requests@
        } else {
            self.fake_requests@
        };
        let rs1 = if swap {
            self.real_responses@
        } else {
            self.fake_responses@
        };
        let rq2 = if swap {
            self.fake_requests@
        } else {
            self.real_requests@
        };
        let rs2 = if swap {
            self.fake_responses@
        } else {
            self.real_responses@
        };
        let m1 = town_map(self.kills@, m0, 48);
        let n1 = town_next(self.kills@, m0, 48);
        let m2 = town_map(rq1, m1, n1);
        let n2 = town_next(rq1, m1, n1);
        town_out(self.kills@, m0, 48) + seq![44u8] + town_out(rq1, m1, n1) + seq![44u8]
            + resp_bytes(rs1) + seq![44u8] + town_out(rq2, m2, n2) + seq![44u8] + resp_bytes(rs2)
    }

    /// The town cannot tell the two detectives apart, so its information-set
    /// key is the lexicographically smaller of the two labelings.
    pub open spec fn town_key_view(self) -> Seq<u8> {
        let pf = self.town_perm_view(false);
        let pt = self.town_perm_view(true);
        if lex_lt(pt, pf) {
            pt
        } else {
            pf
        }
    }

    fn town_perm_bytes(&self, swap: bool) -> (r: Vec<u8>)
        requires
            self.wf(),
        ensures
            r@ == self.town_perm_view(swap),
    {
        let mut m: Vec<u8> = Vec::new();
        let mut i: usize = 0;
        while i < self.n_players + 1
            invariant
                self.n_players <= 9,
                0 <= i <= self.n_players + 1,
                m@.len() == i,
                forall|j: int| 0 <= j < i ==> m@[j] == 63,
            decreases self.n_players + 1 - i,
        {
            m.push(63);
            i = i + 1;
        }
        m[self.n_players] = 46;
        m[0] = if swap {
            98
        } else {
            97
        };
        m[1] = if swap {
            97
        } else {
            98
        };
        proof {
            assert(m@ =~= self.town_m0(swap));
            lemma_unset_le_len(m@);
        }
        let mut next: u8 = 48;
        let mut out: Vec<u8> = Vec::new();
        let rq1 = if swap {
            &self.real_requests
        } else {
            &self.fake_requests
        };
        let rs1 = if swap {
            &self.real_responses
        } else {
            &self.fake_responses
        };
        let rq2 = if swap {
            &self.fake_requests
        } else {
            &self.real_requests
        };
        let rs2 = if swap {
            &self.fake_responses
        } else {
            &self.real_responses
        };
        town_apply(&mut out, &self.kills, &mut m, &mut next);
        out.push(44);
        town_apply(&mut out, rq1, &mut m, &mut next);
        out.push(44);
        push_resps(&mut out, rs1);
        out.push(44);
        town_apply(&mut out, rq2, &mut m, &mut next);
        out.push(44);
        push_resps(&mut out, rs2);
        proof {
            assert(out@ =~= self.town_perm_view(swap));
        }
        out
    }

    pub fn infostate_key_town_bytes(&self) -> (r: Vec<u8>)
        requires
            self.wf(),
        ensures
            r@ == self.town_key_view(),
    {
        let pf = self.town_perm_bytes(false);
        let pt = self.town_perm_bytes(true);
        if bytes_lt(&pt, &pf) {
            pt
        } else {
            pf
        }
    }

    pub fn infostate_key_town(&self) -> (r: String)
        requires
            self.wf(),
        ensures
            r@ == ascii_view(self.town_key_view()),
    {
        let b = self.infostate_key_town_bytes();
        ascii_string(&b)
    }

    /// Initial renaming table for the mafia view: the fake detective is the
    /// letter `a`; the real detective is an ordinary villager to the mafia.
    pub open spec fn night_m0(self) -> Seq<u8> {
        Seq::new(
            (self.n_players + 1) as nat,
            |i: int|
                if i == self.n_players as int {
                    46u8
                } else if i == 1 {
                    97u8
                } else {
                    63u8
                },
        )
    }

    /// The mafia's view of the position: kills and its own request stream,
    /// renamed with mafia buckets and town buckets numbered separately, plus
    /// the responses it chose to report. The real detective's stream is
    /// unobserved and absent.
    pub open spec fn night_key_view(self) -> Seq<u8> {
        let m0 = self.night_m0();
        let m1 = night_map(self.kills@, self.players@, m0, 98, 48);
        let a1 = night_nm(self.kills@, self.players@, m0, 98, 48);
        let v1 = night_nv(self.kills@, self.players@, m0, 98, 48);
        night_out(self.kills@, self.players@, m0, 98, 48) + seq![44u8] + night_out(
            self.fake_requests@,
            self.players@,
            m1,
            a1,
            v1,
        ) + seq![44u8] + resp_bytes(self.fake_responses@)
    }

    pub fn infostate_key_mafia_bytes(&self) -> (r: Vec<u8>)
        requires
            self.wf(),
        ensures
            r@ == self.night_key_view(),
    {
        let mut m: Vec<u8> = Vec::new();
        let mut i: usize = 0;
        while i < self.n_players + 1
            invariant
                self.n_players <= 9,
                0 <= i <= self.n_players + 1,
                m@.len() == i,
                forall|j: int| 0 <= j < i ==> m@[j] == 63,
            decreases self.n_players + 1 - i,
        {
            m.push(63);
            i = i + 1;
        }
        m[self.n_players] = 46;
        m[1] = 97;
        proof {
            assert(m@ =~= self.night_m0());
            lemma_unset_le_len(m@);
        }
        let mut nm: u8 = 98;
        let mut nv: u8 = 48;
        let mut out: Vec<u8> = Vec::new();
        night_apply(&mut out, &self.kills, &self.players, &mut m, &mut nm, &mut nv);
        out.push(44);
        night_apply(&mut out, &self.fake_requests, &self.players, &mut m, &mut nm, &mut nv);
        out.push(44);
        push_resps(&mut out, &self.fake_responses);
        proof {
            assert(out@ =~= self.night_key_view());
        }
        out
    }

    pub fn infostate_key_mafia(&self) -> (r: String)
        requires
            self.wf(),
        ensures
            r@ == ascii_view(self.night_key_view()),
    {
        let b = self.infostate_key_mafia_bytes();
        ascii_string(&b)
    }

    /// The acting team's information-set key: town's on a day, mafia's at
    /// night.
    pub open spec fn infostate_key_view(self) -> Seq<u8> {
        if self.kills@.len() % 2 == 0 {
            self.town_key_view()
        } else {
            self.night_key_view()
        }
    }

    pub fn infostate_key_bytes(&self) -> (r: Vec<u8>)
        requires
            self.wf(),
        ensures
            r@ == self.infostate_key_view(),
    {
        if self.is_day() {
            self.infostate_key_town_bytes()
        } else {
            self.infostate_key_mafia_bytes()
        }
    }

    pub fn infostate_key(&self) -> (r: String)
        requires
            self.wf(),
        ensures
            r@ == ascii_view(self.infostate_key_view()),
    {
        let b = self.infostate_key_bytes();
        ascii_string(&b)
    }
}

} // verus!
