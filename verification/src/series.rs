use vstd::prelude::*;

verus! {

/// Shortest and longest chart range, in seconds (5 minutes and 7 days).
pub const MIN_RANGE_SECS: u64 = 300;

pub const MAX_RANGE_SECS: u64 = 604_800;

/// Bucket width, in seconds, for a chart covering `range_secs`.
pub open spec fn bucket_secs_for(range_secs: int) -> int {
    if range_secs <= 600 {
        60
    } else if range_secs <= 1800 {
        120
    } else if range_secs <= 3600 {
        300
    } else if range_secs <= 10_800 {
        600
    } else if range_secs <= 21_600 {
        900
    } else if range_secs <= 43_200 {
        1800
    } else if range_secs <= 86_400 {
        3600
    } else {
        10_800
    }
}

/// Bucket width for a chart range: one minute up to 10 minutes, growing to
/// three hours beyond a day, so that a chart of up to three days has at most
/// 24 bars and one past ten minutes more than five.
pub fn pick_bucket_secs(range_secs: u64) -> (b: u64)
    ensures
        b == bucket_secs_for(range_secs as int),
        range_secs <= 600 ==> b == 60,
        range_secs > 86_400 ==> b == 10_800,
        range_secs <= 259_200 ==> range_secs <= 24 * b,
        range_secs > 600 ==> range_secs > 5 * b,
{
    if range_secs <= 600 {
        60
    } else if range_secs <= 1800 {
        120
    } else if range_secs <= 3600 {
        300
    } else if range_secs <= 10_800 {
        600
    } else if range_secs <= 21_600 {
        900
    } else if range_secs <= 43_200 {
        1800
    } else if range_secs <= 86_400 {
        3600
    } else {
        10_800
    }
}

/// A longer chart never has narrower buckets.
pub proof fn lemma_bucket_width_grows(r1: int, r2: int)
    requires
        r1 <= r2,
    ensures
        bucket_secs_for(r1) <= bucket_secs_for(r2),
        r1 > 86_400 ==> bucket_secs_for(r1) == bucket_secs_for(r2),
{
}

/// The range actually charted for a requested one (clamped to 5 minutes ..
/// 7 days) and its bucket width.
pub fn chart_range(range_secs: u64) -> (r: (u64, u64))
    ensures
        r.0 == if range_secs < MIN_RANGE_SECS {
            MIN_RANGE_SECS
        } else if range_secs > MAX_RANGE_SECS {
            MAX_RANGE_SECS
        } else {
            range_secs
        },
        r.1 == bucket_secs_for(r.0 as int),
{
    let range = if range_secs < MIN_RANGE_SECS {
        MIN_RANGE_SECS
    } else if range_secs > MAX_RANGE_SECS {
        MAX_RANGE_SECS
    } else {
        range_secs
    };
    (range, pick_bucket_secs(range))
}


/// One bar of the cost chart: the events stamped in `[start_ms, end_ms)`.
pub struct CostBucket {
    pub start_ms: u64,
    pub end_ms: u64,
    pub event_count: u32,
}

/// The chart's bars, and for each event the bar it counts in (if any).
pub struct CostLayout {
    pub buckets: Vec<CostBucket>,
    pub slots: Vec<Option<usize>>,
}

/// Where the chart starts: `range_secs` before `now`, or the epoch.
pub open spec fn series_start(now: int, range_secs: int) -> int {
    if now >= range_secs * 1000 {
        now - range_secs * 1000
    } else {
        0
    }
}

/// Number of bars: the range divided by the bucket width, rounded up, at least 1.
pub open spec fn bucket_count(range_secs: int, bucket_secs: int) -> int {
    let c = (range_secs + bucket_secs - 1) / bucket_secs;
    if c >= 1 {
        c
    } else {
        1
    }
}

/// The bar an event stamped `ts` counts in: events outside `[start, now]`
/// count nowhere, nor does one that falls past the last bar.
pub open spec fn slot_of(ts: Option<u64>, start: int, now: int, bucket_ms: int, count: int) -> Option<
    int,
> {
    match ts {
        Some(t) => if start <= t <= now && (t - start) / bucket_ms < count {
            Some((t - start) / bucket_ms)
        } else {
            None
        },
        None => None,
    }
}

/// The chart's arithmetic stays within 64 bits.
pub open spec fn layout_fits(now: int, range_secs: int, bucket_secs: int) -> bool {
    &&& bucket_secs > 0
    &&& range_secs * 1000 <= u64::MAX
    &&& bucket_secs * 1000 <= u64::MAX
    &&& range_secs + bucket_secs - 1 <= u64::MAX
    &&& bucket_count(range_secs, bucket_secs) <= usize::MAX
    &&& series_start(now, range_secs) + bucket_count(range_secs, bucket_secs) * (bucket_secs * 1000)
        <= u64::MAX
}

/// [`layout_fits`], computed: the check to make before [`cost_buckets`].
pub fn layout_fits_check(now: u64, range_secs: u64, bucket_secs: u64) -> (r: bool)
    ensures
        r == layout_fits(now as int, range_secs as int, bucket_secs as int),
{
    if bucket_secs == 0 || range_secs > u64::MAX / 1000 || bucket_secs > u64::MAX / 1000
        || range_secs > u64::MAX - (bucket_secs - 1) {
        return false;
    }
    let start = chart_start(now, range_secs);
    let c = (range_secs + bucket_secs - 1) / bucket_secs;
    let count: u64 = if c >= 1 {
        c
    } else {
        1
    };
    if count as u128 > usize::MAX as u128 {
        return false;
    }
    let bm: u128 = bucket_secs as u128 * 1000;
    assert(count * bm <= 0xffff_ffff_ffff_ffffu128 * 0xffff_ffff_ffff_ffffu128) by (nonlinear_arith)
        requires
            count <= 0xffff_ffff_ffff_ffffu64,
            bm <= 0xffff_ffff_ffff_ffffu64,
    ;
    let total: u128 = start as u128 + count as u128 * bm;
    total <= u64::MAX as u128
}

/// Where the chart starts: `range_secs` before `now`, or the epoch.
pub fn chart_start(now: u64, range_secs: u64) -> (r: u64)
    requires
        range_secs * 1000 <= u64::MAX,
    ensures
        r == series_start(now as int, range_secs as int),
{
    now.saturating_sub(range_secs * 1000)
}

/// How many events count in bar `b`.
pub open spec fn count_in(slots: Seq<Option<usize>>, b: int) -> nat
    decreases slots.len(),
{
    if slots.len() == 0 {
        0
    } else {
        count_in(slots.drop_last(), b) + if slots.last() == Some(b as usize) {
            1nat
        } else {
            0nat
        }
    }
}

proof fn lemma_count_in_le(slots: Seq<Option<usize>>, b: int)
    ensures
        count_in(slots, b) <= slots.len(),
    decreases slots.len(),
{
    if slots.len() > 0 {
        lemma_count_in_le(slots.drop_last(), b);
    }
}

pub open spec fn bar_ok(bs: Seq<CostBucket>, b: int, start: int, bucket_ms: int) -> bool {
    &&& bs[b].start_ms == start + b * bucket_ms
    &&& bs[b].end_ms == start + (b + 1) * bucket_ms
}

/// Lays out the chart over `[now - range, now]` in bars of `bucket_secs`
/// and assigns each event (by its timestamp, if it has one) to the bar that
/// contains it.
pub fn cost_buckets(stamps: &[Option<u64>], now: u64, range_secs: u64, bucket_secs: u64) -> (r:
    CostLayout)
    requires
        layout_fits(now as int, range_secs as int, bucket_secs as int),
        stamps.len() <= u32::MAX,
    ensures
        ({
            let start = series_start(now as int, range_secs as int);
            let bucket_ms = bucket_secs * 1000;
            let count = bucket_count(range_secs as int, bucket_secs as int);
            &&& r.buckets.len() == count
            &&& forall|b: int| 0 <= b < count ==> #[trigger] bar_ok(r.buckets@, b, start, bucket_ms)
            &&& r.slots.len() == stamps.len()
            &&& forall|i: int|
                0 <= i < stamps.len() ==> (match #[trigger] r.slots@[i] {
                    Some(b) => slot_of(stamps@[i], start, now as int, bucket_ms, count) == Some(
                        b as int,
                    ),
                    None => slot_of(stamps@[i], start, now as int, bucket_ms, count) is None,
                })
            &&& forall|b: int|
                0 <= b < count ==> (#[trigger] r.buckets@[b]).event_count == count_in(r.slots@, b)
        }),
{
    let start = now.saturating_sub(range_secs * 1000);
    let bucket_ms = bucket_secs * 1000;
    let c = (range_secs + bucket_secs - 1) / bucket_secs;
    let count: usize = if c >= 1 {
        c as usize
    } else {
        1
    };
    let ghost cnt = bucket_count(range_secs as int, bucket_secs as int);
    assert(count == cnt);
    let mut buckets: Vec<CostBucket> = Vec::new();
    let mut b: usize = 0;
    while b < count
        invariant
            count == cnt,
            cnt == bucket_count(range_secs as int, bucket_secs as int),
            layout_fits(now as int, range_secs as int, bucket_secs as int),
            start == series_start(now as int, range_secs as int),
            bucket_ms == bucket_secs * 1000,
            b <= count,
            buckets.len() == b,
            forall|k: int| 0 <= k < b ==> #[trigger] bar_ok(buckets@, k, start as int, bucket_ms as int),
            forall|k: int| 0 <= k < b ==> (#[trigger] buckets@[k]).event_count == 0,
        decreases count - b,
    {
        assert(b * bucket_ms <= (b + 1) * bucket_ms <= count * bucket_ms) by (nonlinear_arith)
            requires
                b + 1 <= count,
                bucket_ms >= 0,
        ;
        assert(start + count * bucket_ms <= u64::MAX) by (nonlinear_arith)
            requires
                start == series_start(now as int, range_secs as int),
                count == bucket_count(range_secs as int, bucket_secs as int),
                bucket_ms == bucket_secs * 1000,
                series_start(now as int, range_secs as int) + bucket_count(
                    range_secs as int,
                    bucket_secs as int,
                ) * (bucket_secs * 1000) <= u64::MAX,
        ;
        let b_start = start + b as u64 * bucket_ms;
        assert(b_start + bucket_ms == start + (b + 1) * bucket_ms) by (nonlinear_arith)
            requires
                b_start == start + b * bucket_ms,
        ;
        let ghost old_b = buckets@;
        buckets.push(CostBucket { start_ms: b_start, end_ms: b_start + bucket_ms, event_count: 0 });
        assert forall|k: int| 0 <= k < b + 1 implies #[trigger] bar_ok(
            buckets@,
            k,
            start as int,
            bucket_ms as int,
        ) by {
            if k < b {
                assert(bar_ok(old_b, k, start as int, bucket_ms as int));
            } else {
                assert(start + (b + 1) * bucket_ms == b_start + bucket_ms) by (nonlinear_arith)
                    requires
                        b_start == start + b * bucket_ms,
                ;
            }
        }
        b = b + 1;
    }
    assert forall|k: int| 0 <= k < count implies (#[trigger] buckets@[k]).event_count == count_in(
        Seq::<Option<usize>>::empty(),
        k,
    ) by {}
    let mut slots: Vec<Option<usize>> = Vec::new();
    let mut i: usize = 0;
    while i < stamps.len()
        invariant
            count == cnt,
            cnt == bucket_count(range_secs as int, bucket_secs as int),
            stamps.len() <= u32::MAX,
            bucket_ms == bucket_secs * 1000,
            bucket_secs > 0,
            start == series_start(now as int, range_secs as int),
            i <= stamps.len(),
            slots.len() == i,
            buckets.len() == count,
            forall|k: int| 0 <= k < count ==> #[trigger] bar_ok(buckets@, k, start as int, bucket_ms as int),
            forall|j: int|
                0 <= j < i ==> (match #[trigger] slots@[j] {
                    Some(b) => slot_of(stamps@[j], start as int, now as int, bucket_ms as int, cnt) == Some(
                        b as int,
                    ),
                    None => slot_of(stamps@[j], start as int, now as int, bucket_ms as int, cnt) is None,
                }),
            forall|k: int| 0 <= k < count ==> (#[trigger] buckets@[k]).event_count == count_in(slots@, k),
        decreases stamps.len() - i,
    {
        let mut slot: Option<usize> = None;
        match stamps[i] {
            Some(ts) => {
                if ts >= start && ts <= now {
                    let idx = (ts - start) / bucket_ms;
                    if idx < count as u64 {
                        slot = Some(idx as usize);
                    }
                }
            },
            None => {},
        }
        let ghost slots0 = slots@;
        let ghost bs0 = buckets@;
        slots.push(slot);
        assert(slots@.drop_last() =~= slots0);
        match slot {
            Some(k) => {
                proof {
                    lemma_count_in_le(slots0, k as int);
                }
                assert(buckets@[k as int].event_count == count_in(slots0, k as int));
                buckets[k].event_count = buckets[k].event_count + 1;
                assert forall|q: int| 0 <= q < count implies #[trigger] bar_ok(
                    buckets@,
                    q,
                    start as int,
                    bucket_ms as int,
                ) by {
                    assert(bar_ok(bs0, q, start as int, bucket_ms as int));
                }
                assert forall|q: int| 0 <= q < count implies (#[trigger] buckets@[q]).event_count
                    == count_in(slots@, q) by {
                    assert(bs0[q].event_count == count_in(slots0, q));
                }
            },
            None => {
                assert forall|q: int| 0 <= q < count implies (#[trigger] buckets@[q]).event_count
                    == count_in(slots@, q) by {
                    assert(bs0[q].event_count == count_in(slots0, q));
                }
            },
        }
        assert forall|j: int| 0 <= j < i + 1 implies (match #[trigger] slots@[j] {
            Some(b) => slot_of(stamps@[j], start as int, now as int, bucket_ms as int, cnt) == Some(
                b as int,
            ),
            None => slot_of(stamps@[j], start as int, now as int, bucket_ms as int, cnt) is None,
        }) by {
            if j < i {
                assert(slots@[j] == slots0[j]);
            }
        }
        i = i + 1;
    }
    CostLayout { buckets, slots }
}


/// Every event stamped from the chart's start up to, but not including,
/// `now` counts in one of the bars, and that bar's span contains it.
pub proof fn lemma_recent_events_counted(now: int, range_secs: int, bucket_secs: int, t: int)
    requires
        layout_fits(now, range_secs, bucket_secs),
        0 <= range_secs,
        series_start(now, range_secs) <= t < now,
    ensures
        ({
            let start = series_start(now, range_secs);
            let bucket_ms = bucket_secs * 1000;
            match slot_of(Some(t as u64), start, now, bucket_ms, bucket_count(range_secs, bucket_secs)) {
                Some(b) => start + b * bucket_ms <= t < start + (b + 1) * bucket_ms,
                None => false,
            }
        }),
{
    let start = series_start(now, range_secs);
    let bucket_ms = bucket_secs * 1000;
    let count = bucket_count(range_secs, bucket_secs);
    let c = (range_secs + bucket_secs - 1) / bucket_secs;
    assert(c * bucket_secs >= range_secs) by (nonlinear_arith)
        requires
            bucket_secs > 0,
            c == (range_secs + bucket_secs - 1) / bucket_secs,
    ;
    assert(count * bucket_ms >= range_secs * 1000) by (nonlinear_arith)
        requires
            count >= c,
            c * bucket_secs >= range_secs,
            bucket_ms == bucket_secs * 1000,
            bucket_secs > 0,
    ;
    assert(now - start <= range_secs * 1000);
    let b = (t - start) / bucket_ms;
    assert(b < count && start + b * bucket_ms <= t < start + (b + 1) * bucket_ms) by (nonlinear_arith)
        requires
            b == (t - start) / bucket_ms,
            0 <= t - start < count * bucket_ms,
            bucket_ms > 0,
    ;
    assert(t as u64 == t);
}

} // verus!
