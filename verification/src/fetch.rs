use vstd::prelude::*;

use crate::text::{chars_of, is_char, slice_of, string_of, trim_bounds, trim_start_by, trim_ws};

verus! {

/// Events asked for per page of the dashboard's event list.
pub const PAGE_SIZE: u32 = 100;

/// At most this many pages are fetched, so that a busy day cannot stall the overlay.
pub const MAX_PAGES: u32 = 20;

/// How long fetched events may be served again, in milliseconds.
pub const CACHE_TTL_MS: u64 = 60_000;

/// The window the overlay scans for today's usage and recent chats.
pub const SCAN_24H_MS: u64 = 86_400_000;

// ---------------------------------------------------------------------------
// Paging through the event list
// ---------------------------------------------------------------------------

/// Progress through the pages of the event list.
pub struct Paging {
    /// The page last asked for (pages count from 1).
    pub page: u32,
    /// Events received so far.
    pub collected: usize,
}

/// The paging stops after a page: it was short, everything announced has
/// arrived (with no announcement, what arrived is all there is), or the page
/// limit is reached.
pub open spec fn paging_done(page: u32, collected: int, n: int, total: Option<u32>) -> bool {
    let got = collected as u32;
    ||| (n as u32) < PAGE_SIZE
    ||| got >= match total {
        Some(t) => t,
        None => got,
    }
    ||| page >= MAX_PAGES
}

impl Paging {
    /// Before the first request: page 1, nothing received.
    pub fn start() -> (p: Paging)
        ensures
            p.page == 1,
            p.collected == 0,
    {
        Paging { page: 1, collected: 0 }
    }

    /// After page `self.page` brought `n` events and announced `total` in
    /// all: the next page to ask for, or `None` when the paging is over.
    pub fn after_page(&self, n: usize, total: Option<u32>) -> (next: Option<Paging>)
        requires
            self.collected + n <= usize::MAX,
        ensures
            match next {
                Some(p) => !paging_done(self.page, self.collected + n, n as int, total) && p.page
                    == self.page + 1 && p.collected == self.collected + n,
                None => paging_done(self.page, self.collected + n, n as int, total),
            },
            n < PAGE_SIZE ==> next is None,
            self.page >= MAX_PAGES ==> next is None,
    {
        let collected = self.collected + n;
        let got = collected as u32;
        let announced = match total {
            Some(t) => t,
            None => got,
        };
        if (n as u32) < PAGE_SIZE || got >= announced || self.page >= MAX_PAGES {
            None
        } else {
            Some(Paging { page: self.page + 1, collected })
        }
    }
}

/// However the pages come back, no page beyond [`MAX_PAGES`] is ever asked for.
pub proof fn lemma_paging_bounded(p: Paging, n: int, total: Option<u32>, q: Paging)
    requires
        p.page <= MAX_PAGES,
        !paging_done(p.page, p.collected + n, n, total),
        q.page == p.page + 1,
    ensures
        q.page <= MAX_PAGES,
{
}

// ---------------------------------------------------------------------------
// The events cache
// ---------------------------------------------------------------------------

/// The time window of the events held in the cache, and when they were fetched.
pub struct CacheWindow {
    pub fetched_at_ms: u64,
    pub start_ms: u64,
    pub end_ms: u64,
}

/// The cache may answer a request for `[start_ms, end_ms]`: it was not
/// bypassed, it was fetched at most [`CACHE_TTL_MS`] before the request's end
/// or before `now`, and it covers the request (up to 5 s at the end).
pub open spec fn cache_serves(
    cache: Option<CacheWindow>,
    start_ms: int,
    end_ms: int,
    now: int,
    bypass: bool,
) -> bool {
    match cache {
        Some(c) => {
            let sat = |a: int, b: int|
                if a >= b {
                    a - b
                } else {
                    0
                };
            &&& !bypass
            &&& (sat(end_ms, c.fetched_at_ms as int) <= CACHE_TTL_MS || sat(
                now,
                c.fetched_at_ms as int,
            ) <= CACHE_TTL_MS)
            &&& c.start_ms <= start_ms
            &&& c.end_ms >= sat(end_ms, 5000)
        },
        None => false,
    }
}

/// Whether a request for events in `[start_ms, end_ms]` can be answered from
/// the cache at time `now`.
pub fn cache_hit(cache: Option<&CacheWindow>, start_ms: u64, end_ms: u64, now: u64, bypass: bool) -> (r:
    bool)
    ensures
        r == cache_serves(
            match cache {
                Some(c) => Some(*c),
                None => None,
            },
            start_ms as int,
            end_ms as int,
            now as int,
            bypass,
        ),
        bypass ==> !r,
        cache is None ==> !r,
        r ==> cache->0.start_ms <= start_ms,
        match cache {
            Some(c) => !bypass && c.fetched_at_ms == now && c.start_ms <= start_ms
                && c.end_ms >= end_ms ==> r,
            None => true,
        },
{
    if bypass {
        return false;
    }
    match cache {
        None => false,
        Some(c) => {
            let fresh = end_ms.saturating_sub(c.fetched_at_ms) <= CACHE_TTL_MS || now.saturating_sub(
                c.fetched_at_ms,
            ) <= CACHE_TTL_MS;
            fresh && c.start_ms <= start_ms && c.end_ms >= end_ms.saturating_sub(5_000)
        },
    }
}

// ---------------------------------------------------------------------------
// Selecting events by time
// ---------------------------------------------------------------------------

/// Positions, in order, of the events stamped within `[lo, hi]`.
pub open spec fn between(stamps: Seq<Option<u64>>, lo: int, hi: int) -> Seq<usize>
    decreases stamps.len(),
{
    if stamps.len() == 0 {
        Seq::empty()
    } else {
        let rest = between(stamps.drop_last(), lo, hi);
        match stamps.last() {
            Some(t) => if lo <= t <= hi {
                rest.push((stamps.len() - 1) as usize)
            } else {
                rest
            },
            None => rest,
        }
    }
}

/// The positions chosen are exactly those of the events stamped within
/// `[lo, hi]`, each once, in increasing order.
pub proof fn lemma_between_exact(stamps: Seq<Option<u64>>, lo: int, hi: int)
    requires
        stamps.len() <= usize::MAX,
    ensures
        forall|a: int, b: int|
            0 <= a < b < between(stamps, lo, hi).len() ==> #[trigger] between(stamps, lo, hi)[a]
                < #[trigger] between(stamps, lo, hi)[b],
        forall|a: int|
            0 <= a < between(stamps, lo, hi).len() ==> #[trigger] between(stamps, lo, hi)[a]
                < stamps.len(),
        forall|i: int|
            0 <= i < stamps.len() ==> (between(stamps, lo, hi).contains(i as usize) <==> (
            #[trigger] stamps[i] matches Some(t) && lo <= t <= hi)),
    decreases stamps.len(),
{
    if stamps.len() > 0 {
        let pre = stamps.drop_last();
        let last = stamps.len() - 1;
        lemma_between_exact(pre, lo, hi);
        let rest = between(pre, lo, hi);
        let r = between(stamps, lo, hi);
        let inl = stamps.last() matches Some(t) && lo <= t <= hi;
        if inl {
            assert(r == rest.push(last as usize));
        } else {
            assert(r == rest);
        }
        assert forall|k: int| 0 <= k < rest.len() implies r[k] == rest[k] && rest[k] < last by {}
        assert forall|i: int| 0 <= i < stamps.len() implies (r.contains(i as usize) <==> (
        #[trigger] stamps[i] matches Some(t) && lo <= t <= hi)) by {
            if i < last {
                assert(stamps[i] == pre[i]);
                if r.contains(i as usize) {
                    let k = choose|k: int| 0 <= k < r.len() && r[k] == i as usize;
                    if k < rest.len() {
                        assert(rest.contains(i as usize));
                    }
                }
                if rest.contains(i as usize) {
                    let k = choose|k: int| 0 <= k < rest.len() && rest[k] == i as usize;
                    assert(r[k] == i as usize);
                }
            } else {
                if r.contains(i as usize) {
                    let k = choose|k: int| 0 <= k < r.len() && r[k] == i as usize;
                    assert(k >= rest.len());
                }
                if inl {
                    assert(r[rest.len() as int] == i as usize);
                }
            }
        }
    }
}

/// The positions of the events stamped within `[lo, hi]`, in order.
pub fn events_between(stamps: &[Option<u64>], lo: u64, hi: u64) -> (r: Vec<usize>)
    ensures
        r@ == between(stamps@, lo as int, hi as int),
{
    let mut r: Vec<usize> = Vec::new();
    let mut i: usize = 0;
    while i < stamps.len()
        invariant
            i <= stamps.len(),
            r@ == between(stamps@.take(i as int), lo as int, hi as int),
        decreases stamps.len() - i,
    {
        let ghost pre = stamps@.take(i as int);
        assert(stamps@.take(i + 1).drop_last() =~= pre);
        assert(stamps@.take(i + 1).last() == stamps@[i as int]);
        match stamps[i] {
            Some(t) => {
                if lo <= t && t <= hi {
                    r.push(i);
                }
            },
            None => {},
        }
        i = i + 1;
    }
    assert(stamps@.take(stamps.len() as int) =~= stamps@);
    r
}

// ---------------------------------------------------------------------------
// The usage snapshot's windows
// ---------------------------------------------------------------------------

/// The windows and limits that a usage snapshot is computed with.
pub struct SnapshotWindow {
    /// Start of the 24-hour scan for events.
    pub scan_start_ms: u64,
    /// Start of "today": the local day start, but not after now.
    pub day_start_ms: u64,
    /// How many sessions to group (at least one: the last task's).
    pub chat_limit: usize,
    /// Whether the recent-chats section is shown at all.
    pub show_chats: bool,
}

pub fn snapshot_window(now: u64, day_start_ms: u64, recent_limit: usize) -> (w: SnapshotWindow)
    ensures
        w.scan_start_ms == if now >= SCAN_24H_MS {
            now - SCAN_24H_MS
        } else {
            0
        },
        w.day_start_ms == if day_start_ms <= now {
            day_start_ms
        } else {
            now
        },
        w.chat_limit == if recent_limit >= 1 {
            recent_limit
        } else {
            1
        },
        w.show_chats == (recent_limit != 0),
{
    SnapshotWindow {
        scan_start_ms: now.saturating_sub(SCAN_24H_MS),
        day_start_ms: if day_start_ms <= now {
            day_start_ms
        } else {
            now
        },
        chat_limit: if recent_limit >= 1 {
            recent_limit
        } else {
            1
        },
        show_chats: recent_limit != 0,
    }
}


// ---------------------------------------------------------------------------
// Responses
// ---------------------------------------------------------------------------

/// What an HTTP status means for a dashboard request.
pub enum StatusCheck {
    Success,
    /// 429: the dashboard asks us to back off.
    RateLimited,
    Failed,
}

/// 429 is a rate limit; any other status outside 200..=299 is a failure.
pub fn check_status(code: u16) -> (r: StatusCheck)
    ensures
        code == 429 ==> r is RateLimited,
        code != 429 && 200 <= code <= 299 ==> r is Success,
        code != 429 && !(200 <= code <= 299) ==> r is Failed,
{
    if code == 429 {
        StatusCheck::RateLimited
    } else if 200 <= code && code <= 299 {
        StatusCheck::Success
    } else {
        StatusCheck::Failed
    }
}

/// `a + b + c + d + e` as a string.
fn concat5(a: &str, b: &str, c: &str, d: &str, e: &str) -> (r: String)
    ensures
        r@ == a@ + b@ + c@ + d@ + e@,
{
    let mut r = String::from_str(a);
    r.append(b);
    r.append(c);
    r.append(d);
    r.append(e);
    r
}

/// The error for a request that the dashboard refused with 429.
pub fn rate_limited_error() -> (r: String)
    ensures
        r@ == "rate limited by Cursor (429) — backing off"@,
{
    String::from_str("rate limited by Cursor (429) — backing off")
}

/// The error for a failed request: `<label> <status>: <body>`.
pub fn status_error(label: &str, status: &str, body: &str) -> (r: String)
    ensures
        r@ == label@ + seq![' '] + status@ + seq![':', ' '] + body@,
{
    let sp = " ";
    let colon = ": ";
    proof {
        reveal_strlit(" ");
        reveal_strlit(": ");
    }
    assert(sp@ =~= seq![' ']);
    assert(colon@ =~= seq![':', ' ']);
    concat5(label, sp, status, colon, body)
}

// ---------------------------------------------------------------------------
// Costs given as text
// ---------------------------------------------------------------------------

/// The amount in a textual cost such as ` $0.42 `: trimmed, without leading
/// `$`; `None` when nothing or only `-` is left.
pub open spec fn cost_text(s: Seq<char>) -> Option<Seq<char>> {
    let cleaned = trim_start_by(trim_ws(s), is_char('$'));
    if cleaned.len() == 0 || cleaned == seq!['-'] {
        None
    } else {
        Some(cleaned)
    }
}

/// The number part of a textual cost, for the caller to read as a decimal.
pub fn usage_cost_text(s: &str) -> (r: Option<String>)
    ensures
        match r {
            Some(t) => cost_text(s@) == Some(t@),
            None => cost_text(s@) is None,
        },
{
    let cs = chars_of(s);
    let (a, b) = trim_bounds(&cs);
    let ghost t = cs@.subrange(a as int, b as int);
    let mut i = a;
    assert(t.skip(0) =~= t);
    while i < b && cs[i] == '$'
        invariant
            a <= i <= b <= cs.len(),
            t == cs@.subrange(a as int, b as int),
            trim_start_by(t, is_char('$')) == trim_start_by(cs@.subrange(i as int, b as int), is_char('$')),
        decreases b - i,
    {
        assert(cs@.subrange(i as int, b as int).drop_first() =~= cs@.subrange(i + 1, b as int));
        i = i + 1;
    }
    let cleaned = slice_of(&cs, i, b);
    assert(cleaned@ == trim_start_by(t, is_char('$')));
    if cleaned.len() == 0 || (cleaned.len() == 1 && cleaned[0] == '-') {
        assert(cleaned.len() == 1 ==> cleaned@ =~= seq!['-']);
        None
    } else {
        assert(cleaned.len() == 1 ==> cleaned@ != seq!['-']);
        Some(string_of(cleaned.as_slice()))
    }
}

} // verus!
