use cursor_stats::series::{chart_range, cost_buckets, pick_bucket_secs};

#[test]
fn bucket_width_grows_with_the_range() {
    assert_eq!(pick_bucket_secs(0), 60);
    assert_eq!(pick_bucket_secs(600), 60);
    assert_eq!(pick_bucket_secs(601), 120);
    assert_eq!(pick_bucket_secs(1800), 120);
    assert_eq!(pick_bucket_secs(3600), 300);
    assert_eq!(pick_bucket_secs(10_800), 600);
    assert_eq!(pick_bucket_secs(21_600), 900);
    assert_eq!(pick_bucket_secs(43_200), 1800);
    assert_eq!(pick_bucket_secs(86_400), 3600);
    assert_eq!(pick_bucket_secs(86_401), 10_800);
}

#[test]
fn chart_range_is_clamped() {
    assert_eq!(chart_range(10), (300, 60));
    assert_eq!(chart_range(3600), (3600, 300));
    assert_eq!(chart_range(1_000_000), (604_800, 10_800));
}

#[test]
fn buckets_tile_the_range() {
    let now = 10_000_000_000u64;
    let layout = cost_buckets(&[], now, 3600, 300);
    assert_eq!(layout.buckets.len(), 12);
    let start = now - 3_600_000;
    for (i, b) in layout.buckets.iter().enumerate() {
        assert_eq!(b.start_ms, start + i as u64 * 300_000);
        assert_eq!(b.end_ms, b.start_ms + 300_000);
        assert_eq!(b.event_count, 0);
    }
    assert_eq!(layout.buckets[11].end_ms, now);
}

#[test]
fn events_land_in_their_bucket() {
    let now = 10_000_000_000u64;
    let start = now - 3_600_000;
    let stamps = vec![
        Some(start),
        Some(start + 299_999),
        Some(start + 300_000),
        Some(now - 1),
        Some(now),       // exactly now: past the last bucket when the range divides evenly
        Some(start - 1), // before the range
        None,
        Some(now + 1),
    ];
    let layout = cost_buckets(&stamps, now, 3600, 300);
    assert_eq!(layout.slots, vec![Some(0), Some(0), Some(1), Some(11), None, None, None, None]);
    assert_eq!(layout.buckets[0].event_count, 2);
    assert_eq!(layout.buckets[1].event_count, 1);
    assert_eq!(layout.buckets[11].event_count, 1);
    assert_eq!(layout.buckets.iter().map(|b| b.event_count).sum::<u32>(), 4);
}

#[test]
fn uneven_range_adds_a_partial_bucket() {
    let now = 10_000_000_000u64;
    let layout = cost_buckets(&[Some(now)], now, 700, 120);
    assert_eq!(layout.buckets.len(), 6);
    assert_eq!(layout.slots, vec![Some(5)]);
    assert_eq!(layout.buckets[5].event_count, 1);
}

#[test]
fn range_before_the_epoch_starts_at_zero() {
    let layout = cost_buckets(&[Some(0), Some(500)], 1000, 3600, 300);
    assert_eq!(layout.buckets[0].start_ms, 0);
    assert_eq!(layout.slots, vec![Some(0), Some(0)]);
}
