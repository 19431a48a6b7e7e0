use cursor_stats::settings::{clock_choices_list, recent_chats_choices_list, refresh_choices_secs};
use cursor_stats::tray::{clock_item_id, menu_action, recent_item_id, refresh_item_id, MenuAction};

#[test]
fn plain_items() {
    assert!(matches!(menu_action("show"), MenuAction::ShowOverlay));
    assert!(matches!(menu_action("hide"), MenuAction::HideOverlay));
    assert!(matches!(menu_action("chart"), MenuAction::ToggleChart));
    assert!(matches!(menu_action("refresh"), MenuAction::RefreshNow));
    assert!(matches!(menu_action("autostart"), MenuAction::ToggleAutostart));
    assert!(matches!(menu_action("quit"), MenuAction::Quit));
    assert!(matches!(menu_action("other"), MenuAction::Ignore));
    assert!(matches!(menu_action(""), MenuAction::Ignore));
}

#[test]
fn choice_items() {
    assert!(matches!(menu_action("refresh_every_60"), MenuAction::SetRefreshSecs(60)));
    assert!(matches!(menu_action("refresh_every_-1"), MenuAction::SetRefreshSecs(-1)));
    assert!(matches!(menu_action("refresh_every_refresh_every_10"), MenuAction::SetRefreshSecs(10)));
    assert!(matches!(menu_action("refresh_every_45"), MenuAction::Ignore));
    assert!(matches!(menu_action("refresh_every_x"), MenuAction::Ignore));
    assert!(matches!(menu_action("recent_chats_0"), MenuAction::SetRecentChats(0)));
    assert!(matches!(menu_action("recent_chats_+5"), MenuAction::SetRecentChats(5)));
    assert!(matches!(menu_action("recent_chats_7"), MenuAction::Ignore));
    match menu_action("clock_12h") {
        MenuAction::SetClockFormat(f) => assert_eq!(f, "12h"),
        _ => panic!("expected a clock format"),
    }
    assert!(matches!(menu_action("clock_13h"), MenuAction::Ignore));
}

#[test]
fn item_ids_round_trip() {
    for secs in refresh_choices_secs() {
        let id = refresh_item_id(secs);
        assert_eq!(id, format!("refresh_every_{secs}"));
        assert!(matches!(menu_action(&id), MenuAction::SetRefreshSecs(s) if s == secs));
    }
    for n in recent_chats_choices_list() {
        let id = recent_item_id(n);
        assert_eq!(id, format!("recent_chats_{n}"));
        assert!(matches!(menu_action(&id), MenuAction::SetRecentChats(m) if m == n));
    }
    for fmt in clock_choices_list() {
        let id = clock_item_id(&fmt);
        assert_eq!(id, format!("clock_{fmt}"));
        match menu_action(&id) {
            MenuAction::SetClockFormat(f) => assert_eq!(f, fmt),
            _ => panic!("expected a clock format"),
        }
    }
}
