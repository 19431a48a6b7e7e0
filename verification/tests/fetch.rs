use cursor_stats::fetch::{
    cache_hit, check_status, events_between, snapshot_window, status_error, usage_cost_text,
    CacheWindow, Paging, StatusCheck, MAX_PAGES, SCAN_24H_MS,
};

#[test]
fn paging_follows_full_pages() {
    let p = Paging::start();
    assert_eq!((p.page, p.collected), (1, 0));
    let p2 = p.after_page(100, Some(250)).expect("more pages");
    assert_eq!((p2.page, p2.collected), (2, 100));
    let p3 = p2.after_page(100, Some(250)).expect("more pages");
    assert_eq!((p3.page, p3.collected), (3, 200));
    assert!(p3.after_page(50, Some(250)).is_none());
}

#[test]
fn paging_stops_when_everything_arrived_or_unannounced() {
    let p = Paging::start();
    assert!(p.after_page(100, Some(100)).is_none());
    assert!(p.after_page(100, None).is_none());
    assert!(p.after_page(99, Some(1000)).is_none());
}

#[test]
fn paging_stops_at_the_page_limit() {
    let mut p = Paging::start();
    let mut pages = 1;
    while let Some(next) = p.after_page(100, Some(1_000_000)) {
        p = next;
        pages += 1;
    }
    assert_eq!(pages, MAX_PAGES);
    assert_eq!(p.page, MAX_PAGES);
}

#[test]
fn cache_serves_fresh_covering_windows() {
    let c = CacheWindow { fetched_at_ms: 1_000_000, start_ms: 500_000, end_ms: 1_000_000 };
    assert!(cache_hit(Some(&c), 600_000, 1_004_000, 1_004_000, false));
    assert!(!cache_hit(Some(&c), 600_000, 1_004_000, 1_004_000, true));
    assert!(!cache_hit(None, 600_000, 1_004_000, 1_004_000, false));
    // starts before the cached window
    assert!(!cache_hit(Some(&c), 400_000, 1_004_000, 1_004_000, false));
    // ends more than 5 s after it
    assert!(!cache_hit(Some(&c), 600_000, 1_006_000, 1_006_000, false));
    // stale by both the request's end and the clock
    let stale = CacheWindow { fetched_at_ms: 1_000_000, start_ms: 0, end_ms: 2_000_000 };
    assert!(!cache_hit(Some(&stale), 0, 1_060_001, 1_060_001, false));
    assert!(cache_hit(Some(&stale), 0, 1_060_000, 1_060_001, false));
}

#[test]
fn events_between_keeps_order_and_bounds() {
    let stamps = vec![Some(5), None, Some(10), Some(1), Some(7), Some(11)];
    assert_eq!(events_between(&stamps, 5, 10), vec![0, 2, 4]);
    assert_eq!(events_between(&stamps, 12, 20), Vec::<usize>::new());
}

#[test]
fn statuses() {
    assert!(matches!(check_status(200), StatusCheck::Success));
    assert!(matches!(check_status(204), StatusCheck::Success));
    assert!(matches!(check_status(429), StatusCheck::RateLimited));
    assert!(matches!(check_status(404), StatusCheck::Failed));
    assert!(matches!(check_status(300), StatusCheck::Failed));
    assert!(matches!(check_status(199), StatusCheck::Failed));
    assert_eq!(status_error("events", "404 Not Found", "nope"), "events 404 Not Found: nope");
}

#[test]
fn textual_costs() {
    assert_eq!(usage_cost_text(" $0.42 ").as_deref(), Some("0.42"));
    assert_eq!(usage_cost_text("$$1").as_deref(), Some("1"));
    assert_eq!(usage_cost_text("-"), None);
    assert_eq!(usage_cost_text(" $- "), None);
    assert_eq!(usage_cost_text("  "), None);
    assert_eq!(usage_cost_text("$"), None);
    assert_eq!(usage_cost_text("1.5$").as_deref(), Some("1.5$"));
}

#[test]
fn snapshot_windows() {
    let w = snapshot_window(SCAN_24H_MS + 5, 3, 0);
    assert_eq!(w.scan_start_ms, 5);
    assert_eq!(w.day_start_ms, 3);
    assert_eq!(w.chat_limit, 1);
    assert!(!w.show_chats);
    let w = snapshot_window(100, 200, 5);
    assert_eq!(w.scan_start_ms, 0);
    assert_eq!(w.day_start_ms, 100);
    assert_eq!(w.chat_limit, 5);
    assert!(w.show_chats);
}
