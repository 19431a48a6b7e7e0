use vstd::prelude::*;

use crate::text::{
    chars_eq, chars_of, decimal, decimal_chars, parse_unsigned, parse_unsigned_range, string_of, trim,
    trim_ws,
};

verus! {

/// Idle time after which the next event of a conversation starts a new session.
pub const SESSION_GAP_MS: u64 = 1_800_000;

/// What session grouping reads of a usage event from the dashboard.
pub struct UsageEvent {
    /// Milliseconds since the Unix epoch, as a decimal string.
    pub timestamp: Option<String>,
    pub conversation_id: Option<String>,
}

/// One session of a conversation: a burst of events with no idle gap longer
/// than [`SESSION_GAP_MS`].
pub struct RecentChat {
    /// The conversation's id, `#`, and the session's start time.
    pub conversation_id: String,
    pub started_ms: u64,
    pub last_ms: u64,
    pub event_count: u32,
    /// The session's events, as positions in the input, oldest first.
    pub events: Vec<usize>,
}

// ---------------------------------------------------------------------------
// Model
// ---------------------------------------------------------------------------

/// `event.timestamp.parse::<u64>()`, when it succeeds.
pub open spec fn event_ts(e: UsageEvent) -> Option<nat> {
    match e.timestamp {
        Some(t) => parse_unsigned(t@, u64::MAX as int),
        None => None,
    }
}

pub open spec fn null_text() -> Seq<char> {
    seq!['n', 'u', 'l', 'l']
}

pub open spec fn event_prefix() -> Seq<char> {
    seq!['e', 'v', 'e', 'n', 't', ':']
}

/// The conversation an event belongs to: its trimmed id, or `event:<ts>` when
/// the id is missing, blank or `null`.
pub open spec fn chat_key(e: UsageEvent, ts: nat) -> Seq<char> {
    let fallback = event_prefix() + decimal(ts);
    match e.conversation_id {
        Some(c) => {
            let t = trim_ws(c@);
            if t.len() > 0 && t != null_text() {
                t
            } else {
                fallback
            }
        },
        None => fallback,
    }
}

/// Event `i` exists and has a timestamp.
pub open spec fn stamped(es: Seq<UsageEvent>, i: int) -> bool {
    0 <= i < es.len() && event_ts(es[i]) is Some
}

pub open spec fn ts_of(es: Seq<UsageEvent>, i: int) -> int {
    event_ts(es[i])->0 as int
}

pub open spec fn key_of(es: Seq<UsageEvent>, i: int) -> Seq<char> {
    chat_key(es[i], event_ts(es[i])->0)
}

/// Event `i` comes before event `j`: earlier, or as early and earlier in the input.
pub open spec fn precedes(es: Seq<UsageEvent>, i: int, j: int) -> bool {
    ts_of(es, i) < ts_of(es, j) || (ts_of(es, i) == ts_of(es, j) && i < j)
}


/// A session of events: the key of its conversation and the positions of its
/// events in `es`, in order.
pub open spec fn valid_session(es: Seq<UsageEvent>, m: (Seq<char>, Seq<usize>)) -> bool {
    let ev = m.1;
    &&& ev.len() > 0
    &&& forall|p: int|
        0 <= p < ev.len() ==> stamped(es, #[trigger] ev[p] as int) && key_of(es, ev[p] as int)
            == m.0
    &&& forall|p: int|
        0 <= p < ev.len() - 1 ==> precedes(es, #[trigger] ev[p] as int, ev[p + 1] as int)
            && ts_of(es, ev[p + 1] as int) <= ts_of(es, ev[p] as int) + SESSION_GAP_MS
}

pub open spec fn session_start(es: Seq<UsageEvent>, m: (Seq<char>, Seq<usize>)) -> int {
    ts_of(es, m.1[0] as int)
}

pub open spec fn session_last(es: Seq<UsageEvent>, m: (Seq<char>, Seq<usize>)) -> int {
    ts_of(es, m.1.last() as int)
}

/// Event position `p` of session `s` holds `i`.
pub open spec fn holds(all: Seq<(Seq<char>, Seq<usize>)>, s: int, p: int, i: int) -> bool {
    0 <= s < all.len() && 0 <= p < all[s].1.len() && all[s].1[p] == i
}

/// Sessions of one conversation lie more than the session gap apart.
pub open spec fn apart(es: Seq<UsageEvent>, a: (Seq<char>, Seq<usize>), b: (Seq<char>, Seq<usize>)) -> bool {
    session_last(es, a) + SESSION_GAP_MS < session_start(es, b)
        || session_last(es, b) + SESSION_GAP_MS < session_start(es, a)
}

/// `all` splits the timestamped events of `es` into sessions: each such event
/// lies in exactly one session, each session holds the events of one
/// conversation with no gap longer than [`SESSION_GAP_MS`] between neighbours,
/// and two sessions of one conversation are more than that gap apart.
pub open spec fn is_session_split(es: Seq<UsageEvent>, all: Seq<(Seq<char>, Seq<usize>)>) -> bool {
    &&& forall|s: int| 0 <= s < all.len() ==> valid_session(es, #[trigger] all[s])
    &&& forall|i: int| stamped(es, i) ==> exists|s: int, p: int| #[trigger] holds(all, s, p, i)
    &&& forall|s1: int, p1: int, s2: int, p2: int, i: int|
        #[trigger] holds(all, s1, p1, i) && #[trigger] holds(all, s2, p2, i) ==> s1 == s2 && p1
            == p2
    &&& forall|s1: int, s2: int|
        0 <= s1 < all.len() && 0 <= s2 < all.len() && s1 != s2 && (#[trigger] all[s1]).0 == (
        #[trigger] all[s2]).0 ==> apart(es, all[s1], all[s2])
}

/// Newest session first.
pub open spec fn newest_first(es: Seq<UsageEvent>, all: Seq<(Seq<char>, Seq<usize>)>) -> bool {
    forall|a: int, b: int|
        0 <= a < b < all.len() ==> session_last(es, #[trigger] all[a]) >= session_last(
            es,
            #[trigger] all[b],
        )
}

/// `c` reports session `m`.
pub open spec fn reports(es: Seq<UsageEvent>, c: RecentChat, m: (Seq<char>, Seq<usize>)) -> bool {
    &&& c.events@ == m.1
    &&& c.started_ms == session_start(es, m)
    &&& c.last_ms == session_last(es, m)
    &&& c.event_count == m.1.len()
    &&& c.conversation_id@ == m.0 + seq!['#'] + decimal(c.started_ms as nat)
}

/// `r` reports the `limit` newest sessions of the split `all` of `es`, newest
/// first, each in full.
pub open spec fn reports_newest(
    es: Seq<UsageEvent>,
    limit: usize,
    r: Seq<RecentChat>,
    all: Seq<(Seq<char>, Seq<usize>)>,
) -> bool {
    &&& is_session_split(es, all)
    &&& newest_first(es, all)
    &&& r.len() == if limit < all.len() {
        limit as int
    } else {
        all.len() as int
    }
    &&& forall|t: int| 0 <= t < r.len() ==> reports(es, #[trigger] r[t], all[t])
}

/// `r` are the `limit` newest sessions of some split of `es` into sessions,
/// newest first, each reported in full.
pub open spec fn recent_chats_of(es: Seq<UsageEvent>, limit: usize, r: Seq<RecentChat>) -> bool {
    exists|all: Seq<(Seq<char>, Seq<usize>)>| #[trigger] reports_newest(es, limit, r, all)
}

/// The event names its conversation: its id is present, and neither blank nor
/// `null` once trimmed.
pub open spec fn has_real_id(e: UsageEvent) -> bool {
    e.conversation_id matches Some(c) && trim_ws(c@).len() > 0 && trim_ws(c@) != "null"@
}

/// An event with a real conversation id (not blank, not `null`) belongs to
/// that conversation: its key is the id without surrounding white space.
pub proof fn lemma_key_is_trimmed_id(e: UsageEvent, ts: nat)
    requires
        has_real_id(e),
    ensures
        chat_key(e, ts) == trim_ws(e.conversation_id->0@),
{
    reveal_strlit("null");
    assert(null_text() =~= "null"@);
}

/// An event without a real conversation id (missing, blank or `null`) is a
/// conversation of its own, keyed `event:` and its timestamp.
pub proof fn lemma_key_without_id(e: UsageEvent, ts: nat)
    requires
        !has_real_id(e),
    ensures
        chat_key(e, ts) == "event:"@ + decimal(ts),
{
    reveal_strlit("null");
    reveal_strlit("event:");
    assert(null_text() =~= "null"@);
    assert(event_prefix() =~= "event:"@);
}

/// A reported chat holding an event with a real conversation id is named by
/// that id without surrounding white space, `#`, and the chat's start.
pub proof fn lemma_chat_id_is_trimmed_id(
    es: Seq<UsageEvent>,
    limit: usize,
    r: Seq<RecentChat>,
    t: int,
    p: int,
)
    requires
        recent_chats_of(es, limit, r),
        0 <= t < r.len(),
        0 <= p < r[t].events.len(),
        has_real_id(es[r[t].events@[p] as int]),
    ensures
        r[t].conversation_id@ == trim_ws(es[r[t].events@[p] as int].conversation_id->0@)
            + seq!['#'] + decimal(r[t].started_ms as nat),
{
    let all = choose|all: Seq<(Seq<char>, Seq<usize>)>| reports_newest(es, limit, r, all);
    assert(reports(es, r[t], all[t]));
    assert(valid_session(es, all[t]));
    let i = r[t].events@[p] as int;
    assert(all[t].1[p] == r[t].events@[p]);
    assert(stamped(es, i) && key_of(es, i) == all[t].0);
    lemma_key_is_trimmed_id(es[i], event_ts(es[i])->0);
}

/// Events with different conversation ids never share a session: in a
/// session, all events with a real id have the same id once trimmed.
pub proof fn lemma_session_single_conversation(
    es: Seq<UsageEvent>,
    m: (Seq<char>, Seq<usize>),
    p: int,
    q: int,
)
    requires
        valid_session(es, m),
        0 <= p < m.1.len(),
        0 <= q < m.1.len(),
        has_real_id(es[m.1[p] as int]),
        has_real_id(es[m.1[q] as int]),
    ensures
        trim_ws(es[m.1[p] as int].conversation_id->0@) == trim_ws(
            es[m.1[q] as int].conversation_id->0@,
        ),
{
    let i = m.1[p] as int;
    let j = m.1[q] as int;
    assert(stamped(es, i) && key_of(es, i) == m.0);
    assert(stamped(es, j) && key_of(es, j) == m.0);
    lemma_key_is_trimmed_id(es[i], event_ts(es[i])->0);
    lemma_key_is_trimmed_id(es[j], event_ts(es[j])->0);
}

// ---------------------------------------------------------------------------
// Reading events
// ---------------------------------------------------------------------------

/// `event.timestamp.parse::<u64>()`.
pub fn event_ts_ms(e: &UsageEvent) -> (r: Option<u64>)
    ensures
        match r {
            Some(t) => event_ts(*e) == Some(t as nat),
            None => event_ts(*e) is None,
        },
{
    match &e.timestamp {
        Some(t) => {
            let cs = chars_of(t.as_str());
            assert(cs@.subrange(0, cs.len() as int) =~= cs@);
            parse_unsigned_range(&cs, 0, cs.len(), u64::MAX)
        },
        None => None,
    }
}

/// The conversation key of an event whose timestamp is `ts`.
pub fn chat_key_exec(e: &UsageEvent, ts: u64) -> (r: Vec<char>)
    ensures
        r@ == chat_key(*e, ts as nat),
{
    let mut fallback: Vec<char> = vec!['e', 'v', 'e', 'n', 't', ':'];
    let digits = decimal_chars(ts);
    let mut k: usize = 0;
    let ghost f0 = fallback@;
    assert(f0 =~= event_prefix());
    while k < digits.len()
        invariant
            k <= digits.len(),
            fallback@ == f0 + digits@.take(k as int),
        decreases digits.len() - k,
    {
        fallback.push(digits[k]);
        assert(digits@.take(k + 1) =~= digits@.take(k as int).push(digits@[k as int]));
        k = k + 1;
    }
    assert(digits@.take(digits.len() as int) =~= digits@);
    match &e.conversation_id {
        Some(c) => {
            let t = trim(c.as_str());
            let null: Vec<char> = vec!['n', 'u', 'l', 'l'];
            assert(null@ =~= null_text());
            if t.len() > 0 && !chars_eq(&t, &null) {
                t
            } else {
                fallback
            }
        },
        None => fallback,
    }
}


// ---------------------------------------------------------------------------
// Ordering the events by time
// ---------------------------------------------------------------------------

/// With timestamps `ts`, position `i` comes before position `j`.
pub open spec fn earlier(ts: Seq<Option<u64>>, i: int, j: int) -> bool {
    ts[i]->0 < ts[j]->0 || (ts[i]->0 == ts[j]->0 && i < j)
}

pub open spec fn in_order(ts: Seq<Option<u64>>, order: Seq<usize>, a: int, b: int) -> bool {
    earlier(ts, order[a] as int, order[b] as int)
}

pub open spec fn listed(ts: Seq<Option<u64>>, order: Seq<usize>, a: int) -> bool {
    order[a] < ts.len() && ts[order[a] as int] is Some
}

/// The timestamp of the event listed at `a`.
fn stamp_at(ts: &Vec<Option<u64>>, order: &Vec<usize>, a: usize) -> (v: u64)
    requires
        a < order.len(),
        forall|b: int| 0 <= b < order.len() ==> #[trigger] listed(ts@, order@, b),
    ensures
        ts@[order@[a as int] as int] == Some(v),
{
    assert(listed(ts@, order@, a as int));
    ts[order[a]].unwrap()
}

/// The positions whose timestamp is known, ordered by time and then by position.
pub fn time_order(ts: &Vec<Option<u64>>) -> (order: Vec<usize>)
    ensures
        order.len() <= ts.len(),
        forall|a: int, b: int| 0 <= a < b < order.len() ==> #[trigger] in_order(ts@, order@, a, b),
        forall|a: int| 0 <= a < order.len() ==> #[trigger] listed(ts@, order@, a),
        forall|i: int| 0 <= i < ts.len() && ts@[i] is Some ==> #[trigger] order@.contains(i as usize),
{
    let mut order: Vec<usize> = Vec::new();
    let mut i: usize = 0;
    while i < ts.len()
        invariant
            i <= ts.len(),
            order.len() <= i,
            forall|a: int, b: int|
                0 <= a < b < order.len() ==> #[trigger] in_order(ts@, order@, a, b),
            forall|a: int| 0 <= a < order.len() ==> #[trigger] listed(ts@, order@, a),
            forall|a: int| 0 <= a < order.len() ==> order@[a] < i,
            forall|j: int| 0 <= j < i && ts@[j] is Some ==> #[trigger] order@.contains(j as usize),
        decreases ts.len() - i,
    {
        match ts[i] {
            None => {},
            Some(t) => {
                let mut pos: usize = 0;
                while pos < order.len() && stamp_at(ts, &order, pos) <= t
                    invariant
                        pos <= order.len(),
                        ts@[i as int] == Some(t),
                        forall|a: int| 0 <= a < order.len() ==> #[trigger] listed(ts@, order@, a),
                        forall|a: int| 0 <= a < pos ==> ts@[order@[a] as int]->0 <= t,
                    decreases order.len() - pos,
                {
                    assert(listed(ts@, order@, pos as int));
                    pos = pos + 1;
                }
                let ghost old_order = order@;
                order.insert(pos, i);
                proof {
                    assert forall|a: int, b: int| 0 <= a < b < order.len() implies #[trigger] in_order(
                        ts@,
                        order@,
                        a,
                        b,
                    ) by {
                        if b < pos {
                            assert(in_order(ts@, old_order, a, b));
                        } else if b == pos {
                            assert(ts@[old_order[a] as int]->0 <= t);
                        } else if a < pos {
                            assert(in_order(ts@, old_order, a, b - 1));
                        } else if a == pos {
                            assert(listed(ts@, old_order, b - 1));
                            if pos < old_order.len() {
                                assert(!(ts@[old_order[pos as int] as int]->0 <= t));
                                if b - 1 > pos {
                                    assert(in_order(ts@, old_order, pos as int, b - 1));
                                }
                            }
                        } else {
                            assert(in_order(ts@, old_order, a - 1, b - 1));
                        }
                    }
                    assert forall|a: int| 0 <= a < order.len() implies #[trigger] listed(
                        ts@,
                        order@,
                        a,
                    ) by {
                        if a < pos {
                            assert(listed(ts@, old_order, a));
                        } else if a > pos {
                            assert(listed(ts@, old_order, a - 1));
                        }
                    }
                    assert forall|j: int| 0 <= j < i + 1 && ts@[j] is Some implies #[trigger] order@.contains(
                        j as usize,
                    ) by {
                        if j < i {
                            assert(old_order.contains(j as usize));
                            let a = choose|a: int| 0 <= a < old_order.len() && old_order[a] == j as usize;
                            if a < pos {
                                assert(order@[a] == j as usize);
                            } else {
                                assert(order@[a + 1] == j as usize);
                            }
                        } else {
                            assert(order@[pos as int] == i);
                        }
                    }
                }
            },
        }
        i = i + 1;
    }
    order
}


// ---------------------------------------------------------------------------
// Splitting into sessions
// ---------------------------------------------------------------------------

/// A session under construction: its conversation key and its events.
struct Session {
    key: Vec<char>,
    events: Vec<usize>,
}

spec fn model(s: Session) -> (Seq<char>, Seq<usize>) {
    (s.key@, s.events@)
}

spec fn models(v: Seq<Session>) -> Seq<(Seq<char>, Seq<usize>)> {
    v.map_values(|s: Session| model(s))
}

/// `ts` holds the parsed timestamps of `es`.
pub open spec fn ts_match(es: Seq<UsageEvent>, ts: Seq<Option<u64>>) -> bool {
    &&& ts.len() == es.len()
    &&& forall|i: int|
        0 <= i < es.len() ==> match #[trigger] ts[i] {
            Some(t) => event_ts(es[i]) == Some(t as nat),
            None => event_ts(es[i]) is None,
        }
}

/// `keys` holds the conversation keys of the timestamped events of `es`.
pub open spec fn keys_match(es: Seq<UsageEvent>, keys: Seq<Vec<char>>) -> bool {
    &&& keys.len() == es.len()
    &&& forall|i: int| stamped(es, i) ==> (#[trigger] keys[i])@ == key_of(es, i)
}

/// In a session, time never goes backwards.
pub(crate) proof fn lemma_session_monotone(es: Seq<UsageEvent>, m: (Seq<char>, Seq<usize>), p: int, q: int)
    requires
        valid_session(es, m),
        0 <= p <= q < m.1.len(),
    ensures
        ts_of(es, m.1[p] as int) <= ts_of(es, m.1[q] as int),
    decreases q - p,
{
    if p < q {
        lemma_session_monotone(es, m, p, q - 1);
        assert(precedes(es, m.1[q - 1] as int, m.1[q] as int));
    }
}

/// The latest session whose key is `key`.
fn latest_with_key(sessions: &Vec<Session>, key: &Vec<char>) -> (r: Option<usize>)
    ensures
        match r {
            Some(s) => s < sessions.len() && sessions@[s as int].key@ == key@ && forall|t: int|
                s < t < sessions.len() ==> (#[trigger] sessions@[t]).key@ != key@,
            None => forall|t: int| 0 <= t < sessions.len() ==> (#[trigger] sessions@[t]).key@ != key@,
        },
{
    let mut s = sessions.len();
    while s > 0
        invariant
            s <= sessions.len(),
            forall|t: int| s <= t < sessions.len() ==> (#[trigger] sessions@[t]).key@ != key@,
        decreases s,
    {
        if chars_eq(&sessions[s - 1].key, key) {
            return Some(s - 1);
        }
        s = s - 1;
    }
    None
}

fn copy_chars(v: &Vec<char>) -> (r: Vec<char>)
    ensures
        r@ == v@,
{
    let mut r: Vec<char> = Vec::new();
    let mut i: usize = 0;
    while i < v.len()
        invariant
            i <= v.len(),
            r@ == v@.take(i as int),
        decreases v.len() - i,
    {
        r.push(v[i]);
        assert(v@.take(i + 1) =~= v@.take(i as int).push(v@[i as int]));
        i = i + 1;
    }
    assert(v@.take(v.len() as int) =~= v@);
    r
}

/// What the time ordering guarantees, and what the sweep relies on.
spec fn order_ok(
    es: Seq<UsageEvent>,
    ts: Seq<Option<u64>>,
    keys: Seq<Vec<char>>,
    order: Seq<usize>,
) -> bool {
    &&& ts_match(es, ts)
    &&& keys_match(es, keys)
    &&& order.len() <= ts.len()
    &&& forall|a: int, b: int| 0 <= a < b < order.len() ==> #[trigger] in_order(ts, order, a, b)
    &&& forall|a: int| 0 <= a < order.len() ==> #[trigger] listed(ts, order, a)
}

/// The sweep after `k` events of `order`: `ms` are the sessions so far,
/// `loc[j]` is where `order[j]` went, and `jpos[s][p]` is the step at which
/// the event at position `p` of session `s` was placed.
spec fn sweep_inv(
    es: Seq<UsageEvent>,
    ts: Seq<Option<u64>>,
    order: Seq<usize>,
    ms: Seq<(Seq<char>, Seq<usize>)>,
    loc: Seq<(int, int)>,
    jpos: Seq<Seq<int>>,
    k: int,
) -> bool {
    &&& 0 <= k <= order.len()
    &&& loc.len() == k
    &&& jpos.len() == ms.len()
    &&& forall|s: int| 0 <= s < ms.len() ==> valid_session(es, #[trigger] ms[s])
    &&& forall|j: int| 0 <= j < k ==> #[trigger] holds(ms, loc[j].0, loc[j].1, order[j] as int)
    &&& forall|s: int| 0 <= s < ms.len() ==> (#[trigger] jpos[s]).len() == ms[s].1.len()
    &&& forall|s: int, p: int|
        0 <= s < ms.len() && 0 <= p < ms[s].1.len() ==> 0 <= #[trigger] jpos[s][p] < k && loc[jpos[s][p]]
            == (s, p)
    &&& forall|s1: int, s2: int|
        0 <= s1 < s2 < ms.len() && (#[trigger] ms[s1]).0 == (#[trigger] ms[s2]).0 ==> session_last(
            es,
            ms[s1],
        ) + SESSION_GAP_MS < session_start(es, ms[s2])
    &&& forall|s: int| 0 <= s < ms.len() ==> (#[trigger] ms[s]).1.len() <= k
}

/// Every earlier session of the conversation of the latest one, `s`, ended
/// before `s` did.
proof fn lemma_all_before(es: Seq<UsageEvent>, ms: Seq<(Seq<char>, Seq<usize>)>, s: int, i: int)
    requires
        0 <= s < ms.len(),
        forall|t: int| 0 <= t < ms.len() ==> valid_session(es, #[trigger] ms[t]),
        forall|s1: int, s2: int|
            0 <= s1 < s2 < ms.len() && (#[trigger] ms[s1]).0 == (#[trigger] ms[s2]).0 ==> session_last(
                es,
                ms[s1],
            ) + SESSION_GAP_MS < session_start(es, ms[s2]),
        forall|t: int| s < t < ms.len() ==> (#[trigger] ms[t]).0 != ms[s].0,
        session_last(es, ms[s]) + SESSION_GAP_MS < ts_of(es, i),
    ensures
        forall|t: int|
            0 <= t < ms.len() && (#[trigger] ms[t]).0 == ms[s].0 ==> session_last(es, ms[t])
                + SESSION_GAP_MS < ts_of(es, i),
{
    assert forall|t: int| 0 <= t < ms.len() && (#[trigger] ms[t]).0 == ms[s].0 implies session_last(
        es,
        ms[t],
    ) + SESSION_GAP_MS < ts_of(es, i) by {
        if t < s {
            assert(valid_session(es, ms[s]));
            lemma_session_monotone(es, ms[s], 0, ms[s].1.len() - 1);
        }
    }
}

/// A session stays valid when an event of its conversation that follows its
/// last event within the session gap is appended.
proof fn lemma_push_session(es: Seq<UsageEvent>, m0: (Seq<char>, Seq<usize>), i: usize)
    requires
        valid_session(es, m0),
        stamped(es, i as int),
        key_of(es, i as int) == m0.0,
        precedes(es, m0.1.last() as int, i as int),
        ts_of(es, i as int) <= ts_of(es, m0.1.last() as int) + SESSION_GAP_MS,
    ensures
        valid_session(es, (m0.0, m0.1.push(i))),
{
    let m1 = (m0.0, m0.1.push(i));
    let len0 = m0.1.len() as int;
    assert forall|p: int| 0 <= p < m1.1.len() implies stamped(es, #[trigger] m1.1[p] as int)
        && key_of(es, m1.1[p] as int) == m1.0 by {
        if p < len0 {
            assert(m1.1[p] == m0.1[p]);
        }
    }
    assert forall|p: int| 0 <= p < m1.1.len() - 1 implies precedes(
        es,
        #[trigger] m1.1[p] as int,
        m1.1[p + 1] as int,
    ) && ts_of(es, m1.1[p + 1] as int) <= ts_of(es, m1.1[p] as int) + SESSION_GAP_MS by {
        if p < len0 - 1 {
            assert(m1.1[p] == m0.1[p] && m1.1[p + 1] == m0.1[p + 1]);
            assert(precedes(es, m0.1[p] as int, m0.1[p + 1] as int));
        } else {
            assert(m1.1[p] == m0.1[len0 - 1]);
            assert(m1.1[p + 1] == i);
        }
    }
}

/// The event at step `k` of `order` comes after the last event of every
/// session built by the earlier steps.
proof fn lemma_follows_last(
    es: Seq<UsageEvent>,
    ts: Seq<Option<u64>>,
    order: Seq<usize>,
    ms0: Seq<(Seq<char>, Seq<usize>)>,
    loc0: Seq<(int, int)>,
    jpos0: Seq<Seq<int>>,
    k: int,
    s: int,
)
    requires
        ts_match(es, ts),
        forall|a: int, b: int| 0 <= a < b < order.len() ==> #[trigger] in_order(ts, order, a, b),
        forall|a: int| 0 <= a < order.len() ==> #[trigger] listed(ts, order, a),
        sweep_inv(es, ts, order, ms0, loc0, jpos0, k),
        k < order.len(),
        0 <= s < ms0.len(),
    ensures
        stamped(es, order[k] as int),
        precedes(es, ms0[s].1.last() as int, order[k] as int),
{
    let m0 = ms0[s];
    assert(listed(ts, order, k));
    assert(valid_session(es, m0));
    let len0 = m0.1.len() as int;
    let jl = jpos0[s][len0 - 1];
    assert(0 <= jl < k && loc0[jl] == (s, len0 - 1));
    assert(holds(ms0, loc0[jl].0, loc0[jl].1, order[jl] as int));
    assert(in_order(ts, order, jl, k));
    assert(stamped(es, m0.1[len0 - 1] as int));
}

/// Appending the event at step `k` of `order` to session `s`, the latest of
/// its conversation, keeps that session valid.
proof fn lemma_extended_session_valid(
    es: Seq<UsageEvent>,
    ts: Seq<Option<u64>>,
    order: Seq<usize>,
    ms0: Seq<(Seq<char>, Seq<usize>)>,
    loc0: Seq<(int, int)>,
    jpos0: Seq<Seq<int>>,
    k: int,
    s: int,
)
    requires
        ts_match(es, ts),
        forall|a: int, b: int| 0 <= a < b < order.len() ==> #[trigger] in_order(ts, order, a, b),
        forall|a: int| 0 <= a < order.len() ==> #[trigger] listed(ts, order, a),
        sweep_inv(es, ts, order, ms0, loc0, jpos0, k),
        k < order.len(),
        0 <= s < ms0.len(),
        ms0[s].0 == key_of(es, order[k] as int),
        forall|t: int| s < t < ms0.len() ==> (#[trigger] ms0[t]).0 != ms0[s].0,
        session_last(es, ms0[s]) <= ts_of(es, order[k] as int) <= session_last(es, ms0[s])
            + SESSION_GAP_MS,
    ensures
        valid_session(es, (ms0[s].0, ms0[s].1.push(order[k]))),
{
    assert(valid_session(es, ms0[s]));
    lemma_follows_last(es, ts, order, ms0, loc0, jpos0, k, s);
    lemma_push_session(es, ms0[s], order[k]);
}

proof fn lemma_append_step(
    es: Seq<UsageEvent>,
    ts: Seq<Option<u64>>,
    order: Seq<usize>,
    ms0: Seq<(Seq<char>, Seq<usize>)>,
    loc0: Seq<(int, int)>,
    jpos0: Seq<Seq<int>>,
    k: int,
    s: int,
)
    requires
        ts_match(es, ts),
        forall|a: int, b: int| 0 <= a < b < order.len() ==> #[trigger] in_order(ts, order, a, b),
        forall|a: int| 0 <= a < order.len() ==> #[trigger] listed(ts, order, a),
        sweep_inv(es, ts, order, ms0, loc0, jpos0, k),
        k < order.len(),
        0 <= s < ms0.len(),
        ms0[s].0 == key_of(es, order[k] as int),
        forall|t: int| s < t < ms0.len() ==> (#[trigger] ms0[t]).0 != ms0[s].0,
        session_last(es, ms0[s]) <= ts_of(es, order[k] as int) <= session_last(es, ms0[s])
            + SESSION_GAP_MS,
    ensures
        sweep_inv(
            es,
            ts,
            order,
            ms0.update(s, (ms0[s].0, ms0[s].1.push(order[k]))),
            loc0.push((s, ms0[s].1.len() as int)),
            jpos0.update(s, jpos0[s].push(k)),
            k + 1,
        ),
{
    let i = order[k];
    let m0 = ms0[s];
    let m1 = (m0.0, m0.1.push(i));
    let ms1 = ms0.update(s, m1);
    let loc1 = loc0.push((s, m0.1.len() as int));
    let jpos1 = jpos0.update(s, jpos0[s].push(k));
    let len0 = m0.1.len() as int;
    lemma_extended_session_valid(es, ts, order, ms0, loc0, jpos0, k, s);
    assert forall|t: int| 0 <= t < ms1.len() implies valid_session(es, #[trigger] ms1[t]) by {
        if t != s {
            assert(ms1[t] == ms0[t]);
        }
    }
    assert forall|j: int| 0 <= j < k + 1 implies #[trigger] holds(
        ms1,
        loc1[j].0,
        loc1[j].1,
        order[j] as int,
    ) by {
        if j < k {
            assert(loc1[j] == loc0[j]);
            assert(holds(ms0, loc0[j].0, loc0[j].1, order[j] as int));
            if loc0[j].0 == s {
                assert(m1.1[loc0[j].1] == m0.1[loc0[j].1]);
            }
        } else {
            assert(loc1[j] == (s, len0));
        }
    }
    assert forall|t: int| 0 <= t < ms1.len() implies (#[trigger] jpos1[t]).len() == ms1[t].1.len() by {
        if t != s {
            assert(jpos1[t] == jpos0[t]);
        }
    }
    assert forall|t: int, p: int|
        0 <= t < ms1.len() && 0 <= p < ms1[t].1.len() implies 0 <= #[trigger] jpos1[t][p] < k + 1
        && loc1[jpos1[t][p]] == (t, p) by {
        if t != s {
            assert(jpos1[t] == jpos0[t]);
            assert(0 <= jpos0[t][p] < k && loc0[jpos0[t][p]] == (t, p));
        } else if p < len0 {
            assert(jpos1[t][p] == jpos0[t][p]);
            assert(0 <= jpos0[t][p] < k && loc0[jpos0[t][p]] == (t, p));
        } else {
            assert(jpos1[t][p] == k);
        }
    }
    assert forall|s1: int, s2: int|
        0 <= s1 < s2 < ms1.len() && (#[trigger] ms1[s1]).0 == (#[trigger] ms1[s2]).0 implies session_last(
        es,
        ms1[s1],
    ) + SESSION_GAP_MS < session_start(es, ms1[s2]) by {
        assert(ms0[s1].0 == ms0[s2].0);
        assert(session_last(es, ms0[s1]) + SESSION_GAP_MS < session_start(es, ms0[s2]));
        if s2 == s {
            assert(m1.1[0] == m0.1[0]);
        }
    }
    assert forall|t: int| 0 <= t < ms1.len() implies (#[trigger] ms1[t]).1.len() <= k + 1 by {
        assert(ms0[t].1.len() <= k);
    }
}

proof fn lemma_new_step(
    es: Seq<UsageEvent>,
    ts: Seq<Option<u64>>,
    order: Seq<usize>,
    ms0: Seq<(Seq<char>, Seq<usize>)>,
    loc0: Seq<(int, int)>,
    jpos0: Seq<Seq<int>>,
    k: int,
)
    requires
        ts_match(es, ts),
        forall|a: int| 0 <= a < order.len() ==> #[trigger] listed(ts, order, a),
        sweep_inv(es, ts, order, ms0, loc0, jpos0, k),
        k < order.len(),
        forall|t: int|
            0 <= t < ms0.len() && (#[trigger] ms0[t]).0 == key_of(es, order[k] as int) ==> session_last(
                es,
                ms0[t],
            ) + SESSION_GAP_MS < ts_of(es, order[k] as int),
    ensures
        sweep_inv(
            es,
            ts,
            order,
            ms0.push((key_of(es, order[k] as int), seq![order[k]])),
            loc0.push((ms0.len() as int, 0)),
            jpos0.push(seq![k]),
            k + 1,
        ),
{
    let i = order[k];
    let n0 = ms0.len() as int;
    let m1 = (key_of(es, i as int), seq![i]);
    let ms1 = ms0.push(m1);
    let loc1 = loc0.push((n0, 0));
    let jpos1 = jpos0.push(seq![k]);
    assert(listed(ts, order, k));
    assert(valid_session(es, m1));
    assert forall|t: int| 0 <= t < ms1.len() implies valid_session(es, #[trigger] ms1[t]) by {
        if t < n0 {
            assert(ms1[t] == ms0[t]);
        }
    }
    assert forall|j: int| 0 <= j < k + 1 implies #[trigger] holds(
        ms1,
        loc1[j].0,
        loc1[j].1,
        order[j] as int,
    ) by {
        if j < k {
            assert(loc1[j] == loc0[j]);
            assert(holds(ms0, loc0[j].0, loc0[j].1, order[j] as int));
            assert(ms1[loc0[j].0] == ms0[loc0[j].0]);
        }
    }
    assert forall|t: int| 0 <= t < ms1.len() implies (#[trigger] jpos1[t]).len() == ms1[t].1.len() by {
        if t < n0 {
            assert(jpos1[t] == jpos0[t]);
            assert(ms1[t] == ms0[t]);
        }
    }
    assert forall|t: int, p: int|
        0 <= t < ms1.len() && 0 <= p < ms1[t].1.len() implies 0 <= #[trigger] jpos1[t][p] < k + 1
        && loc1[jpos1[t][p]] == (t, p) by {
        if t < n0 {
            assert(jpos1[t] == jpos0[t]);
            assert(ms1[t] == ms0[t]);
            assert(0 <= jpos0[t][p] < k && loc0[jpos0[t][p]] == (t, p));
        } else {
            assert(jpos1[t][p] == k);
        }
    }
    assert forall|s1: int, s2: int|
        0 <= s1 < s2 < ms1.len() && (#[trigger] ms1[s1]).0 == (#[trigger] ms1[s2]).0 implies session_last(
        es,
        ms1[s1],
    ) + SESSION_GAP_MS < session_start(es, ms1[s2]) by {
        assert(ms1[s1] == ms0[s1]);
        if s2 < n0 {
            assert(ms1[s2] == ms0[s2]);
            assert(ms0[s1].0 == ms0[s2].0);
        } else {
            assert(ms0[s1].0 == key_of(es, i as int));
        }
    }
    assert forall|t: int| 0 <= t < ms1.len() implies (#[trigger] ms1[t]).1.len() <= k + 1 by {
        if t < n0 {
            assert(ms1[t] == ms0[t]);
        }
    }
}

/// When every event has been placed, the sessions split the timestamped events.
proof fn lemma_sweep_done(
    es: Seq<UsageEvent>,
    ts: Seq<Option<u64>>,
    keys: Seq<Vec<char>>,
    order: Seq<usize>,
    ms: Seq<(Seq<char>, Seq<usize>)>,
    loc: Seq<(int, int)>,
    jpos: Seq<Seq<int>>,
)
    requires
        order_ok(es, ts, keys, order),
        ts.len() <= usize::MAX,
        forall|i: int| 0 <= i < ts.len() && ts[i] is Some ==> #[trigger] order.contains(i as usize),
        sweep_inv(es, ts, order, ms, loc, jpos, order.len() as int),
    ensures
        is_session_split(es, ms),
        forall|s: int| 0 <= s < ms.len() ==> (#[trigger] ms[s]).1.len() <= es.len(),
{
    let k = order.len() as int;
    assert forall|i: int| stamped(es, i) implies exists|s: int, p: int| #[trigger] holds(ms, s, p, i) by {
        assert(ts[i] is Some);
        assert(order.contains(i as usize));
        let j = choose|j: int| 0 <= j < order.len() && order[j] == i as usize;
        assert(holds(ms, loc[j].0, loc[j].1, order[j] as int));
        assert(holds(ms, loc[j].0, loc[j].1, i));
    }
    assert forall|s1: int, p1: int, s2: int, p2: int, i: int|
        #[trigger] holds(ms, s1, p1, i) && #[trigger] holds(ms, s2, p2, i) implies s1 == s2 && p1
        == p2 by {
        let j1 = jpos[s1][p1];
        let j2 = jpos[s2][p2];
        assert(0 <= j1 < k && loc[j1] == (s1, p1));
        assert(0 <= j2 < k && loc[j2] == (s2, p2));
        assert(holds(ms, loc[j1].0, loc[j1].1, order[j1] as int));
        assert(holds(ms, loc[j2].0, loc[j2].1, order[j2] as int));
        if j1 < j2 {
            assert(in_order(ts, order, j1, j2));
        } else if j2 < j1 {
            assert(in_order(ts, order, j2, j1));
        }
    }
    assert forall|s1: int, s2: int|
        0 <= s1 < ms.len() && 0 <= s2 < ms.len() && s1 != s2 && (#[trigger] ms[s1]).0 == (
        #[trigger] ms[s2]).0 implies apart(es, ms[s1], ms[s2]) by {
        if s1 < s2 {
            assert(session_last(es, ms[s1]) + SESSION_GAP_MS < session_start(es, ms[s2]));
        } else {
            assert(session_last(es, ms[s2]) + SESSION_GAP_MS < session_start(es, ms[s1]));
        }
    }
    assert forall|s: int| 0 <= s < ms.len() implies (#[trigger] ms[s]).1.len() <= es.len() by {}
}

/// Splits the events, taken in time order, into sessions: an event joins the
/// latest session of its conversation unless it comes more than the session
/// gap after that session's last event.
fn build_sessions(
    Ghost(es): Ghost<Seq<UsageEvent>>,
    ts: &Vec<Option<u64>>,
    keys: &Vec<Vec<char>>,
    order: &Vec<usize>,
) -> (sessions: Vec<Session>)
    requires
        order_ok(es, ts@, keys@, order@),
        forall|i: int| 0 <= i < ts.len() && ts@[i] is Some ==> #[trigger] order@.contains(i as usize),
    ensures
        is_session_split(es, models(sessions@)),
        forall|s: int| 0 <= s < sessions.len() ==> (#[trigger] models(sessions@)[s]).1.len() <= es.len(),
{
    let mut sessions: Vec<Session> = Vec::new();
    assert(models(sessions@) =~= Seq::empty());
    let ghost mut loc: Seq<(int, int)> = Seq::empty();
    let ghost mut jpos: Seq<Seq<int>> = Seq::empty();
    let mut k: usize = 0;
    while k < order.len()
        invariant
            order_ok(es, ts@, keys@, order@),
            sweep_inv(es, ts@, order@, models(sessions@), loc, jpos, k as int),
        decreases order.len() - k,
    {
        let i = order[k];
        let t = stamp_at(ts, order, k);
        assert(listed(ts@, order@, k as int));
        assert(stamped(es, i as int) && ts_of(es, i as int) == t);
        let key = &keys[i];
        assert(key@ == key_of(es, i as int));
        let ghost ms0 = models(sessions@);
        let ghost n0 = sessions.len() as int;
        let ghost loc0 = loc;
        let ghost jpos0 = jpos;
        match latest_with_key(&sessions, key) {
            Some(s) => {
                assert(valid_session(es, ms0[s as int]));
                let len = sessions[s].events.len();
                let last_i = sessions[s].events[len - 1];
                proof {
                    let ev = ms0[s as int].1;
                    assert(ev[len - 1] == last_i);
                    assert(stamped(es, ev[len - 1] as int));
                    let j = jpos[s as int][len - 1];
                    assert(0 <= j < k && loc[j] == (s as int, len - 1));
                    assert(holds(ms0, loc[j].0, loc[j].1, order@[j] as int));
                    assert(order@[j] == last_i);
                    assert(in_order(ts@, order@, j, k as int));
                    assert(ts@[last_i as int] is Some);
                }
                let last_t = ts[last_i].unwrap();
                assert(last_t <= t);
                if t - last_t <= SESSION_GAP_MS {
                    let ghost len0 = len as int;
                    sessions[s].events.push(i);
                    proof {
                        assert(models(sessions@) =~= ms0.update(
                            s as int,
                            (ms0[s as int].0, ms0[s as int].1.push(i)),
                        ));
                        lemma_append_step(
                            es,
                            ts@,
                            order@,
                            ms0,
                            loc0,
                            jpos0,
                            k as int,
                            s as int,
                        );
                        loc = loc0.push((s as int, len0));
                        jpos = jpos0.update(s as int, jpos0[s as int].push(k as int));
                    }
                } else {
                    let new_key = copy_chars(key);
                    let mut events: Vec<usize> = Vec::new();
                    events.push(i);
                    sessions.push(Session { key: new_key, events });
                    proof {
                        assert(models(sessions@) =~= ms0.push((key@, seq![i])));
                        lemma_all_before(es, ms0, s as int, i as int);
                        lemma_new_step(es, ts@, order@, ms0, loc0, jpos0, k as int);
                        loc = loc0.push((n0, 0));
                        jpos = jpos0.push(seq![k as int]);
                    }
                }
            },
            None => {
                let new_key = copy_chars(key);
                let mut events: Vec<usize> = Vec::new();
                events.push(i);
                sessions.push(Session { key: new_key, events });
                proof {
                    assert(models(sessions@) =~= ms0.push((key@, seq![i])));
                    lemma_new_step(es, ts@, order@, ms0, loc0, jpos0, k as int);
                    loc = loc0.push((n0, 0));
                    jpos = jpos0.push(seq![k as int]);
                }
            },
        }
        k = k + 1;
    }
    proof {
        assert(ts@.len() == ts.len());
        lemma_sweep_done(es, ts@, keys@, order@, models(sessions@), loc, jpos);
    }
    sessions
}


// ---------------------------------------------------------------------------
// Newest first
// ---------------------------------------------------------------------------

pub open spec fn desc_at(lasts: Seq<u64>, perm: Seq<usize>, a: int, b: int) -> bool {
    lasts[perm[a] as int] >= lasts[perm[b] as int]
}

/// The positions `0..lasts.len()`, ordered from the largest `lasts` value to
/// the smallest (ties keep their order).
fn newest_first_order(lasts: &Vec<u64>) -> (perm: Vec<usize>)
    ensures
        perm.len() == lasts.len(),
        forall|a: int| 0 <= a < perm.len() ==> #[trigger] perm@[a] < lasts.len(),
        forall|a: int, b: int|
            0 <= a < perm.len() && 0 <= b < perm.len() && a != b ==> #[trigger] perm@[a]
                != #[trigger] perm@[b],
        forall|s: int| 0 <= s < lasts.len() ==> #[trigger] perm@.contains(s as usize),
        forall|a: int, b: int| 0 <= a < b < perm.len() ==> #[trigger] desc_at(lasts@, perm@, a, b),
{
    let mut perm: Vec<usize> = Vec::new();
    let mut s: usize = 0;
    while s < lasts.len()
        invariant
            s <= lasts.len(),
            perm.len() == s,
            forall|a: int| 0 <= a < perm.len() ==> #[trigger] perm@[a] < s,
            forall|a: int, b: int|
                0 <= a < perm.len() && 0 <= b < perm.len() && a != b ==> #[trigger] perm@[a]
                    != #[trigger] perm@[b],
            forall|t: int| 0 <= t < s ==> #[trigger] perm@.contains(t as usize),
            forall|a: int, b: int| 0 <= a < b < perm.len() ==> #[trigger] desc_at(lasts@, perm@, a, b),
        decreases lasts.len() - s,
    {
        let v = lasts[s];
        let mut pos: usize = 0;
        while pos < perm.len() && lasts[perm[pos]] >= v
            invariant
                pos <= perm.len() == s < lasts.len(),
                forall|a: int| 0 <= a < perm.len() ==> #[trigger] perm@[a] < s,
                forall|a: int| 0 <= a < pos ==> lasts@[perm@[a] as int] >= v,
            decreases perm.len() - pos,
        {
            assert(perm@[pos as int] < s);
            pos = pos + 1;
        }
        let ghost old_perm = perm@;
        perm.insert(pos, s);
        proof {
            assert forall|a: int| 0 <= a < perm.len() implies #[trigger] perm@[a] < s + 1 by {
                if a < pos {
                    assert(perm@[a] == old_perm[a]);
                } else if a > pos {
                    assert(perm@[a] == old_perm[a - 1]);
                }
            }
            assert forall|a: int, b: int|
                0 <= a < perm.len() && 0 <= b < perm.len() && a != b implies #[trigger] perm@[a]
                != #[trigger] perm@[b] by {
                let oa = if a < pos { a } else { a - 1 };
                let ob = if b < pos { b } else { b - 1 };
                if a != pos && b != pos {
                    assert(perm@[a] == old_perm[oa] && perm@[b] == old_perm[ob]);
                    assert(old_perm[oa] != old_perm[ob]);
                } else if a == pos {
                    assert(perm@[b] == old_perm[ob]);
                    assert(old_perm[ob] < s);
                } else {
                    assert(perm@[a] == old_perm[oa]);
                    assert(old_perm[oa] < s);
                }
            }
            assert forall|t: int| 0 <= t < s + 1 implies #[trigger] perm@.contains(t as usize) by {
                if t < s {
                    assert(old_perm.contains(t as usize));
                    let a = choose|a: int| 0 <= a < old_perm.len() && old_perm[a] == t as usize;
                    if a < pos {
                        assert(perm@[a] == t as usize);
                    } else {
                        assert(perm@[a + 1] == t as usize);
                    }
                } else {
                    assert(perm@[pos as int] == s);
                }
            }
            assert forall|a: int, b: int| 0 <= a < b < perm.len() implies #[trigger] desc_at(
                lasts@,
                perm@,
                a,
                b,
            ) by {
                if b < pos {
                    assert(desc_at(lasts@, old_perm, a, b));
                } else if b == pos {
                    assert(lasts@[old_perm[a] as int] >= v);
                } else if a < pos {
                    assert(desc_at(lasts@, old_perm, a, b - 1));
                } else if a == pos {
                    if pos < old_perm.len() {
                        assert(!(lasts@[old_perm[pos as int] as int] >= v));
                        if b - 1 > pos {
                            assert(desc_at(lasts@, old_perm, pos as int, b - 1));
                        }
                    }
                } else {
                    assert(desc_at(lasts@, old_perm, a - 1, b - 1));
                }
            }
        }
        s = s + 1;
    }
    perm
}

/// Reordering the sessions keeps them a split of the events.
proof fn lemma_permuted_split(
    es: Seq<UsageEvent>,
    ms: Seq<(Seq<char>, Seq<usize>)>,
    perm: Seq<usize>,
)
    requires
        is_session_split(es, ms),
        ms.len() <= usize::MAX,
        perm.len() == ms.len(),
        forall|a: int| 0 <= a < perm.len() ==> #[trigger] perm[a] < ms.len(),
        forall|a: int, b: int|
            0 <= a < perm.len() && 0 <= b < perm.len() && a != b ==> #[trigger] perm[a]
                != #[trigger] perm[b],
        forall|s: int| 0 <= s < ms.len() ==> #[trigger] perm.contains(s as usize),
    ensures
        is_session_split(es, perm.map_values(|s: usize| ms[s as int])),
{
    let all = perm.map_values(|s: usize| ms[s as int]);
    assert forall|a: int| 0 <= a < all.len() implies valid_session(es, #[trigger] all[a]) by {
        assert(perm[a] < ms.len());
        assert(valid_session(es, ms[perm[a] as int]));
    }
    assert forall|i: int| stamped(es, i) implies exists|a: int, p: int| #[trigger] holds(all, a, p, i) by {
        let (s, p) = choose|s: int, p: int| #[trigger] holds(ms, s, p, i);
        assert(holds(ms, s, p, i));
        assert(perm.contains(s as usize));
        let a = choose|a: int| 0 <= a < perm.len() && perm[a] == s as usize;
        assert(all[a] == ms[s]);
        assert(holds(all, a, p, i));
    }
    assert forall|a1: int, p1: int, a2: int, p2: int, i: int|
        #[trigger] holds(all, a1, p1, i) && #[trigger] holds(all, a2, p2, i) implies a1 == a2 && p1
        == p2 by {
        assert(perm[a1] < ms.len() && perm[a2] < ms.len());
        assert(holds(ms, perm[a1] as int, p1, i));
        assert(holds(ms, perm[a2] as int, p2, i));
        if a1 != a2 {
            assert(perm[a1] != perm[a2]);
        }
    }
    assert forall|a1: int, a2: int|
        0 <= a1 < all.len() && 0 <= a2 < all.len() && a1 != a2 && (#[trigger] all[a1]).0 == (
        #[trigger] all[a2]).0 implies apart(es, all[a1], all[a2]) by {
        assert(perm[a1] < ms.len() && perm[a2] < ms.len());
        assert(perm[a1] != perm[a2]);
        assert(ms[perm[a1] as int] == all[a1] && ms[perm[a2] as int] == all[a2]);
    }
}


// ---------------------------------------------------------------------------
// Recent chats
// ---------------------------------------------------------------------------

fn copy_indices(v: &Vec<usize>) -> (r: Vec<usize>)
    ensures
        r@ == v@,
{
    let mut r: Vec<usize> = Vec::new();
    let mut i: usize = 0;
    while i < v.len()
        invariant
            i <= v.len(),
            r@ == v@.take(i as int),
        decreases v.len() - i,
    {
        r.push(v[i]);
        assert(v@.take(i + 1) =~= v@.take(i as int).push(v@[i as int]));
        i = i + 1;
    }
    assert(v@.take(v.len() as int) =~= v@);
    r
}

/// `<key>#<start>`, the id under which a session is shown.
fn session_id(key: &Vec<char>, start: u64) -> (r: String)
    ensures
        r@ == key@ + seq!['#'] + decimal(start as nat),
{
    let mut cs = copy_chars(key);
    cs.push('#');
    let digits = decimal_chars(start);
    let ghost c0 = cs@;
    let mut k: usize = 0;
    while k < digits.len()
        invariant
            k <= digits.len(),
            cs@ == c0 + digits@.take(k as int),
        decreases digits.len() - k,
    {
        cs.push(digits[k]);
        assert(digits@.take(k + 1) =~= digits@.take(k as int).push(digits@[k as int]));
        k = k + 1;
    }
    assert(digits@.take(digits.len() as int) =~= digits@);
    assert(cs@ =~= key@ + seq!['#'] + decimal(start as nat));
    string_of(cs.as_slice())
}

/// The parsed timestamp and, for a timestamped event, the conversation key of
/// each event.
fn read_events(events: &[UsageEvent]) -> (r: (Vec<Option<u64>>, Vec<Vec<char>>))
    ensures
        ts_match(events@, r.0@),
        keys_match(events@, r.1@),
{
    let ghost es = events@;
    let mut ts: Vec<Option<u64>> = Vec::new();
    let mut keys: Vec<Vec<char>> = Vec::new();
    let mut i: usize = 0;
    while i < events.len()
        invariant
            es == events@,
            i <= events.len(),
            ts.len() == i,
            keys.len() == i,
            forall|j: int|
                0 <= j < i ==> match #[trigger] ts@[j] {
                    Some(t) => event_ts(es[j]) == Some(t as nat),
                    None => event_ts(es[j]) is None,
                },
            forall|j: int| 0 <= j < i && stamped(es, j) ==> (#[trigger] keys@[j])@ == key_of(es, j),
        decreases events.len() - i,
    {
        let t = event_ts_ms(&events[i]);
        let key = match t {
            Some(v) => chat_key_exec(&events[i], v),
            None => Vec::new(),
        };
        ts.push(t);
        keys.push(key);
        i = i + 1;
    }
    (ts, keys)
}

/// The time of the last event of each session.
fn session_lasts(
    Ghost(es): Ghost<Seq<UsageEvent>>,
    ts: &Vec<Option<u64>>,
    sessions: &Vec<Session>,
) -> (lasts: Vec<u64>)
    requires
        ts_match(es, ts@),
        forall|t: int| 0 <= t < sessions.len() ==> valid_session(es, #[trigger] models(sessions@)[t]),
    ensures
        lasts.len() == sessions.len(),
        forall|t: int|
            0 <= t < sessions.len() ==> #[trigger] lasts@[t] == session_last(es, models(sessions@)[t]),
{
    let ghost ms = models(sessions@);
    let mut lasts: Vec<u64> = Vec::new();
    let mut s: usize = 0;
    while s < sessions.len()
        invariant
            s <= sessions.len(),
            ms == models(sessions@),
            ts_match(es, ts@),
            forall|t: int| 0 <= t < ms.len() ==> valid_session(es, #[trigger] ms[t]),
            lasts.len() == s,
            forall|t: int| 0 <= t < s ==> #[trigger] lasts@[t] == session_last(es, ms[t]),
        decreases sessions.len() - s,
    {
        assert(valid_session(es, ms[s as int]));
        let ev = &sessions[s].events;
        assert(ev@ == ms[s as int].1);
        let last_i = ev[ev.len() - 1];
        assert(stamped(es, ms[s as int].1[ev.len() - 1] as int));
        assert(ts@[last_i as int] is Some);
        lasts.push(ts[last_i].unwrap());
        s = s + 1;
    }
    lasts
}

/// The reports of the sessions `perm[0..n]`, in that order.
fn report_sessions(
    Ghost(es): Ghost<Seq<UsageEvent>>,
    ts: &Vec<Option<u64>>,
    sessions: &Vec<Session>,
    lasts: &Vec<u64>,
    perm: &Vec<usize>,
    n: usize,
) -> (out: Vec<RecentChat>)
    requires
        n <= perm.len(),
        lasts.len() == sessions.len(),
        ts_match(es, ts@),
        es.len() <= u32::MAX,
        forall|q: int| 0 <= q < sessions.len() ==> valid_session(es, #[trigger] models(sessions@)[q]),
        forall|q: int| 0 <= q < sessions.len() ==> (#[trigger] models(sessions@)[q]).1.len() <= es.len(),
        forall|q: int|
            0 <= q < sessions.len() ==> #[trigger] lasts@[q] == session_last(es, models(sessions@)[q]),
        forall|a: int| 0 <= a < perm.len() ==> #[trigger] perm@[a] < sessions.len(),
    ensures
        out.len() == n,
        forall|q: int|
            0 <= q < n ==> reports(es, #[trigger] out@[q], models(sessions@)[perm@[q] as int]),
{
    let ghost ms = models(sessions@);
    let mut out: Vec<RecentChat> = Vec::new();
    let mut t: usize = 0;
    while t < n
        invariant
            n <= perm.len(),
            lasts.len() == sessions.len() == ms.len(),
            t <= n,
            ms == models(sessions@),
            ts_match(es, ts@),
            es.len() <= u32::MAX,
            forall|q: int| 0 <= q < ms.len() ==> valid_session(es, #[trigger] ms[q]),
            forall|q: int| 0 <= q < ms.len() ==> (#[trigger] ms[q]).1.len() <= es.len(),
            forall|q: int| 0 <= q < ms.len() ==> #[trigger] lasts@[q] == session_last(es, ms[q]),
            forall|a: int| 0 <= a < perm.len() ==> #[trigger] perm@[a] < ms.len(),
            out.len() == t,
            forall|q: int| 0 <= q < t ==> reports(es, #[trigger] out@[q], ms[perm@[q] as int]),
        decreases n - t,
    {
        let p = perm[t];
        assert(perm@[t as int] < ms.len());
        let m = &sessions[p];
        assert(valid_session(es, ms[p as int]));
        assert(ms[p as int] == (m.key@, m.events@));
        let first_i = m.events[0];
        assert(stamped(es, ms[p as int].1[0] as int));
        let started = ts[first_i].unwrap();
        let count = m.events.len();
        assert(ms[p as int].1.len() <= es.len());
        let chat = RecentChat {
            conversation_id: session_id(&m.key, started),
            started_ms: started,
            last_ms: lasts[p],
            event_count: count as u32,
            events: copy_indices(&m.events),
        };
        let ghost out0 = out@;
        out.push(chat);
        proof {
            assert forall|q: int| 0 <= q < t + 1 implies reports(
                es,
                #[trigger] out@[q],
                ms[perm@[q] as int],
            ) by {
                if q < t {
                    assert(out@[q] == out0[q]);
                }
            }
        }
        t = t + 1;
    }
    out
}

/// Groups the usage events into sessions and returns the `limit` most recent.
///
/// Events without a parseable timestamp are ignored. An event belongs to the
/// conversation named by its trimmed `conversation_id`, or to a conversation
/// of its own (`event:<ts>`) when the id is missing, blank or `null`. Within a
/// conversation, taken in time order, a new session starts whenever the idle
/// time since the previous event exceeds [`SESSION_GAP_MS`]. Sessions are
/// returned newest (by last event) first; sessions that end at the same time
/// may come in either order.
pub fn group_recent_chats(events: &[UsageEvent], limit: usize) -> (r: Vec<RecentChat>)
    requires
        events.len() <= u32::MAX,
    ensures
        recent_chats_of(events@, limit, r@),
{
    let ghost es = events@;
    let (ts, keys) = read_events(events);
    let order = time_order(&ts);
    let sessions = build_sessions(Ghost(es), &ts, &keys, &order);
    let ghost ms = models(sessions@);
    assert(ms.len() == sessions.len());
    let lasts = session_lasts(Ghost(es), &ts, &sessions);
    let perm = newest_first_order(&lasts);
    let ghost all = perm@.map_values(|p: usize| ms[p as int]);
    proof {
        lemma_permuted_split(es, ms, perm@);
        assert forall|a: int, b: int| 0 <= a < b < all.len() implies session_last(
            es,
            #[trigger] all[a],
        ) >= session_last(es, #[trigger] all[b]) by {
            assert(desc_at(lasts@, perm@, a, b));
        }
    }
    let n = if limit < perm.len() {
        limit
    } else {
        perm.len()
    };
    let out = report_sessions(Ghost(es), &ts, &sessions, &lasts, &perm, n);
    proof {
        assert forall|t: int| 0 <= t < out.len() implies reports(es, #[trigger] out@[t], all[t]) by {
            assert(all[t] == ms[perm@[t] as int]);
        }
        assert(reports_newest(es, limit, out@, all));
    }
    out
}

} // verus!
