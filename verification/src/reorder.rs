//! Reordering the usage events does not change the sessions they form.
use vstd::prelude::*;
use crate::text::decimal;
use crate::chats::{
    apart, holds, is_session_split, key_of, lemma_session_monotone, precedes, recent_chats_of,
    reports, reports_newest, newest_first, session_last, SESSION_GAP_MS, session_start, stamped, ts_of, valid_session, RecentChat, UsageEvent,
};

verus! {

/// `pi` reorders `es1` into `es2`: event `i` of `es2` is event `pi[i]` of
/// `es1`, and every event of `es1` is taken exactly once.
pub open spec fn reorders(es1: Seq<UsageEvent>, es2: Seq<UsageEvent>, pi: Seq<int>) -> bool {
    &&& es1.len() == es2.len()
    &&& pi.len() == es2.len()
    &&& forall|i: int| 0 <= i < pi.len() ==> 0 <= #[trigger] pi[i] < es1.len() && es2[i] == es1[pi[i]]
    &&& forall|i: int, j: int|
        0 <= i < pi.len() && 0 <= j < pi.len() && i != j ==> #[trigger] pi[i] != #[trigger] pi[j]
    &&& forall|x: int| 0 <= x < es1.len() ==> #[trigger] pi.contains(x)
}

/// What a session is up to the order of its events: its conversation, its
/// first and last event times and its number of events.
pub open spec fn session_summary(es: Seq<UsageEvent>, m: (Seq<char>, Seq<usize>)) -> (
    Seq<char>,
    int,
    int,
    int,
) {
    (m.0, session_start(es, m), session_last(es, m), m.1.len() as int)
}

/// The fields of a reported chat that do not name event positions.
pub open spec fn chat_fields(c: RecentChat) -> (Seq<char>, u64, u64, u32) {
    (c.conversation_id@, c.started_ms, c.last_ms, c.event_count)
}

/// `f` sends each position of `ea` to a position of `eb` holding the same
/// event, no two to the same.
#[verifier::opaque]
spec fn carries(ea: Seq<UsageEvent>, eb: Seq<UsageEvent>, f: Seq<int>) -> bool {
    &&& f.len() == ea.len()
    &&& forall|x: int| 0 <= x < f.len() ==> 0 <= #[trigger] f[x] < eb.len() && eb[f[x]] == ea[x]
    &&& forall|x: int, y: int|
        0 <= x < f.len() && 0 <= y < f.len() && x != y ==> #[trigger] f[x] != #[trigger] f[y]
}

/// Every event position in `a` is sent by `f` to one in `b`.
#[verifier::opaque]
spec fn maps_into(a: Seq<usize>, b: Seq<usize>, f: Seq<int>) -> bool {
    forall|p: int|
        0 <= p < a.len() ==> exists|q: int| 0 <= q < b.len() && b[q] as int == f[#[trigger] a[p] as int]
}

/// Where in `b` the image of `a[p]` lies.
proof fn lemma_pick(a: Seq<usize>, b: Seq<usize>, f: Seq<int>, p: int) -> (q: int)
    requires
        maps_into(a, b, f),
        0 <= p < a.len(),
    ensures
        0 <= q < b.len(),
        b[q] as int == f[a[p] as int],
{
    reveal(maps_into);
    choose|q: int| 0 <= q < b.len() && b[q] as int == f[a[p] as int]
}

/// `valid_session`, unfolded only where it is needed.
#[verifier::opaque]
spec fn session_ok(es: Seq<UsageEvent>, m: (Seq<char>, Seq<usize>)) -> bool {
    valid_session(es, m)
}

/// `is_session_split`, unfolded only where it is needed.
#[verifier::opaque]
spec fn split_ok(es: Seq<UsageEvent>, all: Seq<(Seq<char>, Seq<usize>)>) -> bool {
    is_session_split(es, all)
}

spec fn inverse(pi: Seq<int>, n: int) -> Seq<int> {
    Seq::new(n as nat, |x: int| choose|i: int| 0 <= i < pi.len() && pi[i] == x)
}

proof fn lemma_inverse(es1: Seq<UsageEvent>, es2: Seq<UsageEvent>, pi: Seq<int>)
    requires
        reorders(es1, es2, pi),
    ensures
        carries(es2, es1, pi),
        carries(es1, es2, inverse(pi, es1.len() as int)),
        forall|x: int| 0 <= x < es1.len() ==> pi[#[trigger] inverse(pi, es1.len() as int)[x]] == x,
        forall|i: int| 0 <= i < es2.len() ==> inverse(pi, es1.len() as int)[#[trigger] pi[i]] == i,
{
    reveal(carries);
    let inv = inverse(pi, es1.len() as int);
    assert forall|x: int| 0 <= x < es1.len() implies 0 <= #[trigger] inv[x] < pi.len() && pi[inv[x]]
        == x by {
        assert(pi.contains(x));
    }
    assert forall|i: int| 0 <= i < es2.len() implies #[trigger] inv[pi[i]] == i by {
        let x = pi[i];
        assert(0 <= inv[x] < pi.len() && pi[inv[x]] == x);
    }
    assert forall|x: int| 0 <= x < inv.len() implies 0 <= #[trigger] inv[x] < es2.len() && es2[inv[x]]
        == es1[x] by {
        assert(0 <= inv[x] < pi.len() && pi[inv[x]] == x);
    }
    assert forall|x: int, y: int|
        0 <= x < inv.len() && 0 <= y < inv.len() && x != y implies #[trigger] inv[x]
        != #[trigger] inv[y] by {
        assert(pi[inv[x]] == x && pi[inv[y]] == y);
    }
}

/// Where event `i` lies in `all`: the session and the position in it.
spec fn home(all: Seq<(Seq<char>, Seq<usize>)>, i: int) -> (int, int) {
    choose|s: int, p: int| holds(all, s, p, i)
}

proof fn lemma_home(es: Seq<UsageEvent>, all: Seq<(Seq<char>, Seq<usize>)>, i: int)
    requires
        is_session_split(es, all),
        stamped(es, i),
    ensures
        holds(all, home(all, i).0, home(all, i).1, i),
        forall|s: int, p: int| #[trigger] holds(all, s, p, i) ==> s == home(all, i).0 && p == home(
            all,
            i,
        ).1,
{
    assert(exists|s: int, p: int| #[trigger] holds(all, s, p, i));
    let (s0, p0) = home(all, i);
    assert forall|s: int, p: int| #[trigger] holds(all, s, p, i) implies s == s0 && p == p0 by {
        assert(holds(all, s0, p0, i));
    }
}

/// Events `t1.1[q1]` and `t2.1[q2]` of two sessions of one conversation that
/// are more than the session gap apart are more than that gap apart too.
proof fn lemma_apart_events(
    eb: Seq<UsageEvent>,
    b1: (Seq<char>, Seq<usize>),
    q1: int,
    b2: (Seq<char>, Seq<usize>),
    q2: int,
)
    requires
        valid_session(eb, b1),
        valid_session(eb, b2),
        0 <= q1 < b1.1.len(),
        0 <= q2 < b2.1.len(),
        apart(eb, b1, b2),
    ensures
        ts_of(eb, b1.1[q1] as int) + SESSION_GAP_MS < ts_of(eb, b2.1[q2] as int) || ts_of(
            eb,
            b2.1[q2] as int,
        ) + SESSION_GAP_MS < ts_of(eb, b1.1[q1] as int),
{
    lemma_session_monotone(eb, b1, 0, q1);
    lemma_session_monotone(eb, b1, q1, b1.1.len() - 1);
    lemma_session_monotone(eb, b2, 0, q2);
    lemma_session_monotone(eb, b2, q2, b2.1.len() - 1);
}

/// Two neighbouring events of a session `m` of `ea` land in one session of
/// `allb`.
proof fn lemma_step(
    ea: Seq<UsageEvent>,
    eb: Seq<UsageEvent>,
    f: Seq<int>,
    m: (Seq<char>, Seq<usize>),
    allb: Seq<(Seq<char>, Seq<usize>)>,
    p: int,
)
    requires
        valid_session(ea, m),
        is_session_split(eb, allb),
        carries(ea, eb, f),
        0 < p < m.1.len(),
    ensures
        home(allb, f[m.1[p - 1] as int]).0 == home(allb, f[m.1[p] as int]).0,
{
    reveal(carries);
    let x = m.1[p - 1] as int;
    let y = m.1[p] as int;
    assert(stamped(ea, x) && key_of(ea, x) == m.0);
    assert(stamped(ea, y) && key_of(ea, y) == m.0);
    assert(precedes(ea, x, y) && ts_of(ea, y) <= ts_of(ea, x) + SESSION_GAP_MS);
    let x2 = f[x];
    let y2 = f[y];
    assert(eb[x2] == ea[x] && eb[y2] == ea[y]);
    assert(stamped(eb, x2) && stamped(eb, y2));
    lemma_home(eb, allb, x2);
    lemma_home(eb, allb, y2);
    let (t1, q1) = home(allb, x2);
    let (t2, q2) = home(allb, y2);
    if t1 != t2 {
        let b1 = allb[t1];
        let b2 = allb[t2];
        assert(valid_session(eb, b1) && valid_session(eb, b2));
        assert(key_of(eb, b1.1[q1] as int) == b1.0);
        assert(key_of(eb, b2.1[q2] as int) == b2.0);
        assert(apart(eb, b1, b2));
        lemma_apart_events(eb, b1, q1, b2, q2);
    }
}

/// All events of a session of `alla` land in the session of `allb` that holds
/// its first event.
proof fn lemma_lands(
    ea: Seq<UsageEvent>,
    eb: Seq<UsageEvent>,
    f: Seq<int>,
    alla: Seq<(Seq<char>, Seq<usize>)>,
    allb: Seq<(Seq<char>, Seq<usize>)>,
    s: int,
    p: int,
)
    requires
        is_session_split(ea, alla),
        is_session_split(eb, allb),
        carries(ea, eb, f),
        0 <= s < alla.len(),
        0 <= p < alla[s].1.len(),
    ensures
        home(allb, f[alla[s].1[p] as int]).0 == home(allb, f[alla[s].1[0] as int]).0,
    decreases p,
{
    if p > 0 {
        lemma_lands(ea, eb, f, alla, allb, s, p - 1);
        assert(valid_session(ea, alla[s]));
        lemma_step(ea, eb, f, alla[s], allb, p);
    }
}

/// The events of a session are distinct.
proof fn lemma_session_distinct(es: Seq<UsageEvent>, all: Seq<(Seq<char>, Seq<usize>)>, s: int)
    requires
        split_ok(es, all),
        0 <= s < all.len(),
    ensures
        all[s].1.no_duplicates(),
{
    reveal(split_ok);
    let ev = all[s].1;
    assert forall|i: int, j: int| 0 <= i < ev.len() && 0 <= j < ev.len() && i != j implies ev[i]
        != ev[j] by {
        assert(holds(all, s, i, ev[i] as int) && holds(all, s, j, ev[j] as int));
    }
}

/// A sequence of distinct positions that `f` sends into `b` is no longer than
/// `b`, when `b` has no repeats either.
proof fn lemma_count_le(ea: Seq<UsageEvent>, eb: Seq<UsageEvent>, f: Seq<int>, a: Seq<usize>, b: Seq<usize>)
    requires
        carries(ea, eb, f),
        a.no_duplicates(),
        b.no_duplicates(),
        forall|p: int| 0 <= p < a.len() ==> #[trigger] a[p] < ea.len(),
        maps_into(a, b, f),
    ensures
        a.len() <= b.len(),
{
    broadcast use vstd::seq_lib::group_seq_properties;

    reveal(carries);
    reveal(maps_into);
    let fa = a.map_values(|x: usize| f[x as int]);
    let bi = b.map_values(|y: usize| y as int);
    assert forall|i: int, j: int| 0 <= i < fa.len() && 0 <= j < fa.len() && i != j implies fa[i]
        != fa[j] by {
        assert(a[i] < ea.len() && a[j] < ea.len());
        assert(a[i] != a[j]);
    }
    assert forall|i: int, j: int| 0 <= i < bi.len() && 0 <= j < bi.len() && i != j implies bi[i]
        != bi[j] by {
        assert(b[i] != b[j]);
    }
    assert(fa.no_duplicates());
    assert(bi.no_duplicates());
    fa.unique_seq_to_set();
    bi.unique_seq_to_set();
    assert forall|v: int| fa.to_set().contains(v) implies bi.to_set().contains(v) by {
        let i = choose|i: int| 0 <= i < fa.len() && fa[i] == v;
        assert(a[i] < ea.len());
        let q = choose|q: int| 0 <= q < b.len() && b[q] as int == f[a[i] as int];
        assert(bi[q] == v);
    }
    vstd::set_lib::lemma_len_subset(fa.to_set(), bi.to_set());
}

/// All events of session `s` of a split of `ea` land, through `f`, in one
/// session `t` of a split of `eb`.
proof fn lemma_into(
    ea: Seq<UsageEvent>,
    eb: Seq<UsageEvent>,
    f: Seq<int>,
    alla: Seq<(Seq<char>, Seq<usize>)>,
    allb: Seq<(Seq<char>, Seq<usize>)>,
    s: int,
) -> (t: int)
    requires
        split_ok(ea, alla),
        split_ok(eb, allb),
        carries(ea, eb, f),
        0 <= s < alla.len(),
    ensures
        0 <= t < allb.len(),
        maps_into(alla[s].1, allb[t].1, f),
{
    reveal(split_ok);
    reveal(carries);
    let a = alla[s].1;
    assert(valid_session(ea, alla[s]));
    let x0 = a[0] as int;
    assert(stamped(ea, x0));
    let y0 = f[x0];
    assert(eb[y0] == ea[x0] && stamped(eb, y0));
    lemma_home(eb, allb, y0);
    let t = home(allb, y0).0;
    assert forall|p: int| 0 <= p < a.len() implies exists|q: int|
        0 <= q < allb[t].1.len() && allb[t].1[q] as int == f[#[trigger] a[p] as int] by {
        lemma_lands(ea, eb, f, alla, allb, s, p);
        assert(stamped(ea, a[p] as int));
        assert(eb[f[a[p] as int]] == ea[a[p] as int]);
        lemma_home(eb, allb, f[a[p] as int]);
        let q = home(allb, f[a[p] as int]).1;
        assert(holds(allb, t, q, f[a[p] as int]));
    }
    reveal(maps_into);
    t
}

/// A session holding the first event of another starts no later than it.
proof fn lemma_start_le(
    ea: Seq<UsageEvent>,
    eb: Seq<UsageEvent>,
    ma: (Seq<char>, Seq<usize>),
    mb: (Seq<char>, Seq<usize>),
    q: int,
)
    requires
        session_ok(ea, ma),
        session_ok(eb, mb),
        0 <= q < mb.1.len(),
        eb[mb.1[q] as int] == ea[ma.1[0] as int],
    ensures
        session_start(eb, mb) <= session_start(ea, ma),
        mb.0 == ma.0,
{
    reveal(session_ok);
    lemma_session_monotone(eb, mb, 0, q);
    assert(key_of(ea, ma.1[0] as int) == ma.0);
    assert(key_of(eb, mb.1[q] as int) == mb.0);
}

/// A session holding the last event of another ends no earlier than it.
proof fn lemma_last_ge(
    ea: Seq<UsageEvent>,
    eb: Seq<UsageEvent>,
    ma: (Seq<char>, Seq<usize>),
    mb: (Seq<char>, Seq<usize>),
    q: int,
)
    requires
        session_ok(ea, ma),
        session_ok(eb, mb),
        0 <= q < mb.1.len(),
        eb[mb.1[q] as int] == ea[ma.1.last() as int],
    ensures
        session_last(eb, mb) >= session_last(ea, ma),
{
    reveal(session_ok);
    lemma_session_monotone(eb, mb, q, mb.1.len() - 1);
}

/// The events of a valid session lie in `es`.
proof fn lemma_in_range(es: Seq<UsageEvent>, m: (Seq<char>, Seq<usize>))
    requires
        session_ok(es, m),
    ensures
        m.1.len() > 0,
        forall|p: int| 0 <= p < m.1.len() ==> #[trigger] m.1[p] < es.len(),
{
    reveal(session_ok);
    assert forall|p: int| 0 <= p < m.1.len() implies #[trigger] m.1[p] < es.len() by {
        assert(stamped(es, m.1[p] as int));
    }
}

/// Where `f` sends the event at position `p` of `a` in `b`.
proof fn lemma_image(ea: Seq<UsageEvent>, eb: Seq<UsageEvent>, f: Seq<int>, a: Seq<usize>, b: Seq<usize>, p: int) -> (q: int)
    requires
        carries(ea, eb, f),
        0 <= p < a.len(),
        a[p] < ea.len(),
        maps_into(a, b, f),
    ensures
        0 <= q < b.len(),
        eb[b[q] as int] == ea[a[p] as int],
{
    reveal(carries);
    let q = lemma_pick(a, b, f, p);
    assert(eb[f[a[p] as int]] == ea[a[p] as int]);
    q
}

/// Two sessions whose events `f` and `g` carry into each other have the same
/// conversation, first and last times and number of events.
proof fn lemma_same_summary(
    ea: Seq<UsageEvent>,
    eb: Seq<UsageEvent>,
    f: Seq<int>,
    g: Seq<int>,
    ma: (Seq<char>, Seq<usize>),
    mb: (Seq<char>, Seq<usize>),
)
    requires
        session_ok(ea, ma),
        session_ok(eb, mb),
        ma.1.no_duplicates(),
        mb.1.no_duplicates(),
        carries(ea, eb, f),
        carries(eb, ea, g),
        maps_into(ma.1, mb.1, f),
        maps_into(mb.1, ma.1, g),
    ensures
        session_summary(ea, ma) == session_summary(eb, mb),
{
    let a = ma.1;
    let b = mb.1;
    lemma_in_range(ea, ma);
    lemma_in_range(eb, mb);
    let q0 = lemma_image(ea, eb, f, a, b, 0);
    lemma_start_le(ea, eb, ma, mb, q0);
    let p0 = lemma_image(eb, ea, g, b, a, 0);
    lemma_start_le(eb, ea, mb, ma, p0);
    let ql = lemma_image(ea, eb, f, a, b, a.len() - 1);
    lemma_last_ge(ea, eb, ma, mb, ql);
    let pl = lemma_image(eb, ea, g, b, a, b.len() - 1);
    lemma_last_ge(eb, ea, mb, ma, pl);
    lemma_count_le(ea, eb, f, a, b);
    lemma_count_le(eb, ea, g, b, a);
}

/// A session of a split holds its events.
proof fn lemma_session_ok(es: Seq<UsageEvent>, all: Seq<(Seq<char>, Seq<usize>)>, s: int)
    requires
        split_ok(es, all),
        0 <= s < all.len(),
    ensures
        session_ok(es, all[s]),
{
    reveal(split_ok);
    reveal(session_ok);
}

/// An event lies in one session of a split only.
proof fn lemma_one_home(
    es: Seq<UsageEvent>,
    all: Seq<(Seq<char>, Seq<usize>)>,
    s1: int,
    p1: int,
    s2: int,
    p2: int,
    i: int,
)
    requires
        split_ok(es, all),
        holds(all, s1, p1, i),
        holds(all, s2, p2, i),
    ensures
        s1 == s2,
{
    reveal(split_ok);
}

/// Each session of a split of `ea` has a session of a split of `eb` with the
/// same conversation, first and last times and number of events, when `f`
/// and `g` carry the events back and forth.
proof fn lemma_partner(
    ea: Seq<UsageEvent>,
    eb: Seq<UsageEvent>,
    f: Seq<int>,
    g: Seq<int>,
    alla: Seq<(Seq<char>, Seq<usize>)>,
    allb: Seq<(Seq<char>, Seq<usize>)>,
    s: int,
) -> (t: int)
    requires
        split_ok(ea, alla),
        split_ok(eb, allb),
        carries(ea, eb, f),
        carries(eb, ea, g),
        forall|x: int| 0 <= x < ea.len() ==> #[trigger] g[f[x]] == x,
        0 <= s < alla.len(),
    ensures
        0 <= t < allb.len(),
        session_summary(ea, alla[s]) == session_summary(eb, allb[t]),
{
    let t = lemma_into(ea, eb, f, alla, allb, s);
    let s2 = lemma_into(eb, ea, g, allb, alla, t);
    let a = alla[s].1;
    let b = allb[t].1;
    lemma_session_ok(ea, alla, s);
    lemma_session_ok(eb, allb, t);
    lemma_in_range(ea, alla[s]);
    let x0 = a[0] as int;
    let q0 = lemma_pick(a, b, f, 0);
    assert(g[f[x0]] == x0);
    let p0 = lemma_pick(b, alla[s2].1, g, q0);
    lemma_one_home(ea, alla, s2, p0, s, 0, x0);
    lemma_session_distinct(ea, alla, s);
    lemma_session_distinct(eb, allb, t);
    lemma_same_summary(ea, eb, f, g, alla[s], allb[t]);
    t
}

/// Two sessions of one conversation in a split start at different times.
proof fn lemma_starts_differ(es: Seq<UsageEvent>, all: Seq<(Seq<char>, Seq<usize>)>, a: int, b: int)
    requires
        split_ok(es, all),
        0 <= a < all.len(),
        0 <= b < all.len(),
        a != b,
        all[a].0 == all[b].0,
    ensures
        session_start(es, all[a]) != session_start(es, all[b]),
{
    reveal(split_ok);
    assert(apart(es, all[a], all[b]));
    assert(valid_session(es, all[a]) && valid_session(es, all[b]));
    lemma_session_monotone(es, all[a], 0, all[a].1.len() - 1);
    lemma_session_monotone(es, all[b], 0, all[b].1.len() - 1);
}

/// Two sequences without repeats that hold the same elements hold each
/// element the same number of times.
proof fn lemma_same_multiset<T>(x: Seq<T>, y: Seq<T>)
    requires
        x.no_duplicates(),
        y.no_duplicates(),
        forall|i: int| 0 <= i < x.len() ==> y.contains(#[trigger] x[i]),
        forall|j: int| 0 <= j < y.len() ==> x.contains(#[trigger] y[j]),
    ensures
        x.to_multiset() == y.to_multiset(),
{
    broadcast use vstd::seq_lib::group_to_multiset_ensures;
    broadcast use vstd::multiset::group_multiset_axioms;

    x.lemma_multiset_has_no_duplicates();
    y.lemma_multiset_has_no_duplicates();
    assert forall|v: T| x.to_multiset().count(v) == y.to_multiset().count(v) by {
        if x.contains(v) {
            let i = choose|i: int| 0 <= i < x.len() && x[i] == v;
            assert(y.contains(x[i]));
        } else if y.contains(v) {
            let j = choose|j: int| 0 <= j < y.len() && y[j] == v;
            assert(x.contains(y[j]));
        }
    }
    assert(x.to_multiset() =~= y.to_multiset());
}

/// The maps that carry the events of `es1` to their places in `es2` and back.
proof fn lemma_carriers(es1: Seq<UsageEvent>, es2: Seq<UsageEvent>, pi: Seq<int>) -> (inv: Seq<int>)
    requires
        reorders(es1, es2, pi),
    ensures
        carries(es1, es2, inv),
        carries(es2, es1, pi),
        forall|x: int| 0 <= x < es1.len() ==> #[trigger] pi[inv[x]] == x,
        forall|i: int| 0 <= i < es2.len() ==> #[trigger] inv[pi[i]] == i,
{
    lemma_inverse(es1, es2, pi);
    inverse(pi, es1.len() as int)
}

/// Reordering the events does not change the sessions they form: a split of
/// the events into sessions and a split of a reordering of them have as many
/// sessions, and the same sessions once each is taken as its conversation,
/// first and last event times and number of events.
pub proof fn lemma_reordered_sessions(
    es1: Seq<UsageEvent>,
    es2: Seq<UsageEvent>,
    pi: Seq<int>,
    all1: Seq<(Seq<char>, Seq<usize>)>,
    all2: Seq<(Seq<char>, Seq<usize>)>,
)
    requires
        reorders(es1, es2, pi),
        is_session_split(es1, all1),
        is_session_split(es2, all2),
    ensures
        all1.len() == all2.len(),
        all1.map_values(|m: (Seq<char>, Seq<usize>)| session_summary(es1, m)).to_multiset()
            == all2.map_values(|m: (Seq<char>, Seq<usize>)| session_summary(es2, m)).to_multiset(),
{
    broadcast use vstd::seq_lib::group_to_multiset_ensures;

    let inv = lemma_carriers(es1, es2, pi);
    assert(split_ok(es1, all1) && split_ok(es2, all2)) by {
        reveal(split_ok);
    }
    let x = all1.map_values(|m: (Seq<char>, Seq<usize>)| session_summary(es1, m));
    let y = all2.map_values(|m: (Seq<char>, Seq<usize>)| session_summary(es2, m));
    assert forall|i: int| 0 <= i < x.len() implies y.contains(#[trigger] x[i]) by {
        let t = lemma_partner(es1, es2, inv, pi, all1, all2, i);
        assert(y[t] == x[i]);
    }
    assert forall|j: int| 0 <= j < y.len() implies x.contains(#[trigger] y[j]) by {
        let t = lemma_partner(es2, es1, pi, inv, all2, all1, j);
        assert(x[t] == y[j]);
    }
    assert forall|a: int, b: int| 0 <= a < x.len() && 0 <= b < x.len() && a != b implies x[a]
        != x[b] by {
        if all1[a].0 == all1[b].0 {
            lemma_starts_differ(es1, all1, a, b);
        }
    }
    assert forall|a: int, b: int| 0 <= a < y.len() && 0 <= b < y.len() && a != b implies y[a]
        != y[b] by {
        if all2[a].0 == all2[b].0 {
            lemma_starts_differ(es2, all2, a, b);
        }
    }
    lemma_same_multiset(x, y);
    assert(x.to_multiset().len() == y.to_multiset().len());
}

/// Two chats reporting different sessions of one split differ in their
/// id or first time.
proof fn lemma_chat_fields_differ(
    es: Seq<UsageEvent>,
    all: Seq<(Seq<char>, Seq<usize>)>,
    ca: RecentChat,
    cb: RecentChat,
    a: int,
    b: int,
)
    requires
        split_ok(es, all),
        0 <= a < all.len(),
        0 <= b < all.len(),
        a != b,
        reports(es, ca, all[a]),
        reports(es, cb, all[b]),
    ensures
        chat_fields(ca) != chat_fields(cb),
{
    if chat_fields(ca) == chat_fields(cb) {
        let ka = all[a].0;
        let kb = all[b].0;
        let d = decimal(ca.started_ms as nat);
        assert(ca.conversation_id@ == ka + seq!['#'] + d);
        assert(cb.conversation_id@ == kb + seq!['#'] + d);
        assert(ka.len() == kb.len());
        assert(ka =~= ca.conversation_id@.subrange(0, ka.len() as int));
        assert(kb =~= cb.conversation_id@.subrange(0, kb.len() as int));
        lemma_starts_differ(es, all, a, b);
    }
}

/// Chats reporting a session of one split and its partner in another carry
/// the same fields.
proof fn lemma_chat_partner(
    es1: Seq<UsageEvent>,
    es2: Seq<UsageEvent>,
    m1: (Seq<char>, Seq<usize>),
    m2: (Seq<char>, Seq<usize>),
    c1: RecentChat,
    c2: RecentChat,
)
    requires
        session_summary(es1, m1) == session_summary(es2, m2),
        reports(es1, c1, m1),
        reports(es2, c2, m2),
    ensures
        chat_fields(c1) == chat_fields(c2),
{
}

/// Reordering the events does not change the recent chats: when `limit`
/// leaves room for every session, the chats reported for the events and for
/// a reordering of them are the same chats (id, first and last event times,
/// number of events), each once, and both lists run from the newest to the
/// oldest last event; chats that end at the same time may come in either
/// order.
pub proof fn lemma_reordered_recent_chats(
    es1: Seq<UsageEvent>,
    es2: Seq<UsageEvent>,
    pi: Seq<int>,
    limit: usize,
    r1: Seq<RecentChat>,
    r2: Seq<RecentChat>,
)
    requires
        reorders(es1, es2, pi),
        recent_chats_of(es1, limit, r1),
        recent_chats_of(es2, limit, r2),
        forall|all: Seq<(Seq<char>, Seq<usize>)>| #[trigger] is_session_split(es1, all) ==> all.len() <= limit,
    ensures
        r1.map_values(|c: RecentChat| chat_fields(c)).to_multiset() == r2.map_values(
            |c: RecentChat| chat_fields(c),
        ).to_multiset(),
        forall|a: int, b: int| 0 <= a < b < r1.len() ==> (#[trigger] r1[a]).last_ms >= (#[trigger] r1[b]).last_ms,
        forall|a: int, b: int| 0 <= a < b < r2.len() ==> (#[trigger] r2[a]).last_ms >= (#[trigger] r2[b]).last_ms,
{
    let all1 = choose|all: Seq<(Seq<char>, Seq<usize>)>| reports_newest(es1, limit, r1, all);
    let all2 = choose|all: Seq<(Seq<char>, Seq<usize>)>| reports_newest(es2, limit, r2, all);
    lemma_reordered_sessions(es1, es2, pi, all1, all2);
    assert(r1.len() == all1.len() && r2.len() == all2.len());
    let inv = lemma_carriers(es1, es2, pi);
    assert(split_ok(es1, all1) && split_ok(es2, all2)) by {
        reveal(split_ok);
    }
    let x = r1.map_values(|c: RecentChat| chat_fields(c));
    let y = r2.map_values(|c: RecentChat| chat_fields(c));
    assert forall|i: int| 0 <= i < x.len() implies y.contains(#[trigger] x[i]) by {
        let t = lemma_partner(es1, es2, inv, pi, all1, all2, i);
        lemma_chat_partner(es1, es2, all1[i], all2[t], r1[i], r2[t]);
        assert(y[t] == x[i]);
    }
    assert forall|j: int| 0 <= j < y.len() implies x.contains(#[trigger] y[j]) by {
        let t = lemma_partner(es2, es1, pi, inv, all2, all1, j);
        lemma_chat_partner(es2, es1, all2[j], all1[t], r2[j], r1[t]);
        assert(x[t] == y[j]);
    }
    assert forall|a: int, b: int| 0 <= a < x.len() && 0 <= b < x.len() && a != b implies x[a]
        != x[b] by {
        lemma_chat_fields_differ(es1, all1, r1[a], r1[b], a, b);
    }
    assert forall|a: int, b: int| 0 <= a < y.len() && 0 <= b < y.len() && a != b implies y[a]
        != y[b] by {
        lemma_chat_fields_differ(es2, all2, r2[a], r2[b], a, b);
    }
    lemma_same_multiset(x, y);
    assert forall|a: int, b: int| 0 <= a < b < r1.len() implies (#[trigger] r1[a]).last_ms >= (
    #[trigger] r1[b]).last_ms by {
        assert(reports(es1, r1[a], all1[a]) && reports(es1, r1[b], all1[b]));
    }
    assert forall|a: int, b: int| 0 <= a < b < r2.len() implies (#[trigger] r2[a]).last_ms >= (
    #[trigger] r2[b]).last_ms by {
        assert(reports(es2, r2[a], all2[a]) && reports(es2, r2[b], all2[b]));
    }
}

} // verus!
