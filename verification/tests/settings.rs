use cursor_stats::settings::{
    clock_choices_list, clock_label, default_clock_format, default_launch_on_startup,
    default_recent_chats, recent_chats_choices_list, recent_label, refresh_choices_secs,
    refresh_label, Settings,
};

#[test]
fn defaults() {
    let s = Settings::default();
    assert_eq!(s.refresh_secs, 20);
    assert_eq!(s.recent_chats, 3);
    assert_eq!(s.clock_format, "system");
    assert!(s.launch_on_startup);
    assert_eq!(default_recent_chats(), 3);
    assert_eq!(default_clock_format(), "system");
    assert!(default_launch_on_startup());
}

#[test]
fn choices() {
    assert_eq!(refresh_choices_secs(), vec![10, 20, 30, 60, 120, 300, 600, -1]);
    assert_eq!(recent_chats_choices_list(), vec![1, 2, 3, 5, 10, 0]);
    assert_eq!(clock_choices_list(), vec!["system".to_string(), "12h".into(), "24h".into()]);
}

#[test]
fn refresh_interval_accepts_only_offered_choices() {
    let mut s = Settings::default();
    assert_eq!(s.apply_refresh_secs(-1), Ok(()));
    assert_eq!(s.refresh_secs, -1);
    assert_eq!(s.apply_refresh_secs(45), Err("unsupported refresh interval: 45".to_string()));
    assert_eq!(s.refresh_secs, -1);
    assert_eq!(s.apply_refresh_secs(-7), Err("unsupported refresh interval: -7".to_string()));
    assert_eq!(
        s.apply_refresh_secs(i64::MIN),
        Err(format!("unsupported refresh interval: {}", i64::MIN))
    );
    assert_eq!(s.recent_chats, 3);
}

#[test]
fn recent_chats_accepts_only_offered_choices() {
    let mut s = Settings::default();
    assert_eq!(s.apply_recent_chats(0), Ok(()));
    assert_eq!(s.recent_chats, 0);
    assert_eq!(s.apply_recent_chats(4), Err("unsupported recent chats count: 4".to_string()));
    assert_eq!(s.recent_chats, 0);
    assert_eq!(s.refresh_secs, 20);
}

#[test]
fn clock_format_accepts_only_offered_choices() {
    let mut s = Settings::default();
    assert_eq!(s.apply_clock_format("24h".into()), Ok(()));
    assert_eq!(s.clock_format, "24h");
    assert_eq!(s.apply_clock_format("25h".into()), Err("unsupported clock format: 25h".to_string()));
    assert_eq!(s.clock_format, "24h");
}

#[test]
fn recent_chat_limit_never_negative() {
    let mut s = Settings::default();
    assert_eq!(s.recent_chat_limit(), 3);
    s.recent_chats = -4;
    assert_eq!(s.recent_chat_limit(), 0);
}

#[test]
fn labels() {
    assert_eq!(refresh_label(-1), "Never (manual)");
    assert_eq!(refresh_label(60), "1 minute");
    assert_eq!(refresh_label(600), "10 minutes");
    assert_eq!(refresh_label(7), "Custom");
    assert_eq!(recent_label(0), "Hide");
    assert_eq!(recent_label(1), "1 chat");
    assert_eq!(recent_label(10), "10 chats");
    assert_eq!(recent_label(4), "Custom");
    assert_eq!(clock_label("12h"), "12-hour");
    assert_eq!(clock_label("24h"), "24-hour");
    assert_eq!(clock_label("system"), "System (fallback 12h)");
    assert_eq!(clock_label("other"), "System (fallback 12h)");
}
