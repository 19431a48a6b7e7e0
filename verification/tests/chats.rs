use cursor_stats::chats::{event_ts_ms, group_recent_chats, RecentChat, UsageEvent};

fn ev(ts: u64, conv: &str) -> UsageEvent {
    UsageEvent { timestamp: Some(ts.to_string()), conversation_id: Some(conv.into()) }
}

/// Dollars of a session, summed over its events in order, from per-event cents.
fn cost(chat: &RecentChat, cents: &[f64]) -> f64 {
    chat.events.iter().map(|&i| cents[i] / 100.0).sum()
}

#[test]
fn session_gap_splits_long_conversation() {
    let day = 1_700_000_000_000u64;
    let cents = [100.0, 50.0, 200.0, 25.0];
    let events = vec![
        ev(day, "c1"),                        // $1
        ev(day + 5 * 60_000, "c1"),           // +$0.50 same session
        ev(day + 2 * 3600_000, "c1"),         // $2 after 2h gap → new session
        ev(day + 2 * 3600_000 + 60_000, "c1"), // +$0.25
    ];
    let chats = group_recent_chats(&events, 10);
    assert_eq!(chats.len(), 2);
    // newest session first
    assert!((cost(&chats[0], &cents) - 2.25).abs() < 0.001);
    assert!((cost(&chats[1], &cents) - 1.5).abs() < 0.001);
}

#[test]
fn sessions_report_bounds_counts_and_ids() {
    let day = 1_700_000_000_000u64;
    let events = vec![ev(day, "c1"), ev(day + 60_000, "c1"), ev(day + 3 * 3600_000, "c1")];
    let chats = group_recent_chats(&events, 10);
    assert_eq!(chats.len(), 2);
    assert_eq!(chats[0].conversation_id, format!("c1#{}", day + 3 * 3600_000));
    assert_eq!(chats[0].started_ms, day + 3 * 3600_000);
    assert_eq!(chats[0].last_ms, day + 3 * 3600_000);
    assert_eq!(chats[0].event_count, 1);
    assert_eq!(chats[0].events, vec![2]);
    assert_eq!(chats[1].conversation_id, format!("c1#{day}"));
    assert_eq!(chats[1].started_ms, day);
    assert_eq!(chats[1].last_ms, day + 60_000);
    assert_eq!(chats[1].event_count, 2);
    assert_eq!(chats[1].events, vec![0, 1]);
}

#[test]
fn gap_of_exactly_thirty_minutes_stays_in_session() {
    let day = 1_700_000_000_000u64;
    let events = vec![ev(day, "c"), ev(day + 1_800_000, "c"), ev(day + 3_600_001, "c")];
    let chats = group_recent_chats(&events, 10);
    assert_eq!(chats.len(), 2);
    assert_eq!(chats[0].events, vec![2]);
    assert_eq!(chats[1].events, vec![0, 1]);
}

#[test]
fn events_are_taken_in_time_order_not_input_order() {
    let day = 1_700_000_000_000u64;
    let events = vec![ev(day + 120_000, "c"), ev(day, "c"), ev(day + 60_000, "c")];
    let chats = group_recent_chats(&events, 10);
    assert_eq!(chats.len(), 1);
    assert_eq!(chats[0].events, vec![1, 2, 0]);
    assert_eq!(chats[0].started_ms, day);
    assert_eq!(chats[0].last_ms, day + 120_000);
}

#[test]
fn conversations_are_kept_apart_and_limit_truncates() {
    let day = 1_700_000_000_000u64;
    let events = vec![ev(day, "a"), ev(day + 10_000, "b"), ev(day + 20_000, "a")];
    let all = group_recent_chats(&events, 10);
    assert_eq!(all.len(), 2);
    assert_eq!(all[0].conversation_id, format!("a#{day}"));
    assert_eq!(all[0].events, vec![0, 2]);
    assert_eq!(all[1].conversation_id, format!("b#{}", day + 10_000));
    let top = group_recent_chats(&events, 1);
    assert_eq!(top.len(), 1);
    assert_eq!(top[0].conversation_id, format!("a#{day}"));
    assert!(group_recent_chats(&events, 0).is_empty());
}

#[test]
fn blank_or_null_ids_make_one_conversation_per_event() {
    let day = 1_700_000_000_000u64;
    let events = vec![
        UsageEvent { timestamp: Some(day.to_string()), conversation_id: None },
        UsageEvent { timestamp: Some((day + 1000).to_string()), conversation_id: Some("null".into()) },
        UsageEvent { timestamp: Some((day + 2000).to_string()), conversation_id: Some("   ".into()) },
        UsageEvent { timestamp: Some((day + 3000).to_string()), conversation_id: Some(" x ".into()) },
        UsageEvent { timestamp: Some((day + 4000).to_string()), conversation_id: Some("x".into()) },
    ];
    let chats = group_recent_chats(&events, 10);
    assert_eq!(chats.len(), 4);
    assert_eq!(chats[0].conversation_id, format!("x#{}", day + 3000));
    assert_eq!(chats[0].events, vec![3, 4]);
    assert_eq!(chats[1].conversation_id, format!("event:{}#{}", day + 2000, day + 2000));
    assert_eq!(chats[2].conversation_id, format!("event:{}#{}", day + 1000, day + 1000));
    assert_eq!(chats[3].conversation_id, format!("event:{day}#{day}"));
}

#[test]
fn events_without_a_timestamp_are_ignored() {
    let events = vec![
        UsageEvent { timestamp: None, conversation_id: Some("a".into()) },
        UsageEvent { timestamp: Some("soon".into()), conversation_id: Some("a".into()) },
        UsageEvent { timestamp: Some("-5".into()), conversation_id: Some("a".into()) },
    ];
    assert!(group_recent_chats(&events, 10).is_empty());
}

#[test]
fn event_timestamps_parse_like_u64() {
    let e = |t: &str| UsageEvent { timestamp: Some(t.into()), conversation_id: None };
    assert_eq!(event_ts_ms(&e("1700000000000")), Some(1_700_000_000_000));
    assert_eq!(event_ts_ms(&e("+42")), Some(42));
    assert_eq!(event_ts_ms(&e("+")), None);
    assert_eq!(event_ts_ms(&e("")), None);
    assert_eq!(event_ts_ms(&e(" 1")), None);
    assert_eq!(event_ts_ms(&e("18446744073709551615")), Some(u64::MAX));
    assert_eq!(event_ts_ms(&e("18446744073709551616")), None);
    assert_eq!(event_ts_ms(&UsageEvent { timestamp: None, conversation_id: None }), None);
    let ts = 1_234_567_890_123u64;
    assert_eq!(event_ts_ms(&e(&ts.to_string())), Some(ts));
}

#[test]
fn reordered_events_give_the_same_chats() {
    let day = 1_700_000_000_000u64;
    let raw: Vec<(String, &str)> = vec![
        (day.to_string(), "a"),
        ((day + 60_000).to_string(), "b"),
        ((day + 120_000).to_string(), "a"),
        ((day + 3 * 3600_000).to_string(), "a"),
        ((day + 3 * 3600_000).to_string(), "b"),
        ("oops".to_string(), "a"),
        ((day + 4 * 3600_000).to_string(), " "),
    ];
    let make = |i: usize| UsageEvent {
        timestamp: Some(raw[i].0.clone()),
        conversation_id: Some(raw[i].1.to_string()),
    };
    let events: Vec<UsageEvent> = (0..raw.len()).map(make).collect();
    let order = [6usize, 3, 0, 5, 4, 2, 1];
    let shuffled: Vec<UsageEvent> = order.iter().map(|&i| make(i)).collect();
    let fields = |cs: &[RecentChat]| {
        let mut v: Vec<(String, u64, u64, u32)> = cs
            .iter()
            .map(|c| (c.conversation_id.clone(), c.started_ms, c.last_ms, c.event_count))
            .collect();
        v.sort();
        v
    };
    let a = group_recent_chats(&events, 10);
    let b = group_recent_chats(&shuffled, 10);
    assert_eq!(a.len(), 5);
    assert_eq!(fields(&a), fields(&b));
    for cs in [&a, &b] {
        for w in cs.windows(2) {
            assert!(w[0].last_ms >= w[1].last_ms);
        }
    }
    // the positions name the same events in both inputs
    for c in &b {
        let orig: Vec<usize> = c.events.iter().map(|&i| order[i]).collect();
        let twin = a.iter().find(|x| x.conversation_id == c.conversation_id).unwrap();
        let mut o = orig.clone();
        o.sort();
        let mut t = twin.events.clone();
        t.sort();
        assert_eq!(o, t);
    }
}
