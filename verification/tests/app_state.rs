use wi_tui::app::{App, ITEMS_LIST_OFFSET};
use wi_tui::keys::{Command, KeyCode, KeyEvent, KeyEventKind};
use wi_tui::network::Network;

fn net(ssid: &str, signal: u8) -> Network {
    Network {
        ssid: ssid.to_string(),
        signal,
        security: "WPA2".to_string(),
        rate: "54Mbit/s".to_string(),
        bars: "▂▄".to_string(),
        is_connected: false,
    }
}

fn scan(n: usize) -> Result<Vec<Network>, String> {
    Ok((0..n).map(|i| net(&format!("net{:02}", i), 100 - i as u8)).collect())
}

fn names(app: &App) -> Vec<&str> {
    app.networks().iter().map(|n| n.ssid.as_str()).collect()
}

fn press(c: char) -> KeyEvent {
    KeyEvent::press(KeyCode::Char(c))
}

#[test]
fn new_app_is_running_and_empty() {
    let app = App::new();
    assert!(app.running());
    assert!(app.networks().is_empty());
    assert_eq!(app.selected_index(), None);
    assert_eq!(app.scroll_offset(), 0);
    assert_eq!(app.visible_items(), 0);
    assert_eq!(app.items_list_offset(), 11);
    assert_eq!(ITEMS_LIST_OFFSET, 11);
}

#[test]
fn refresh_installs_the_reconciled_inventory() {
    let mut app = App::new();
    let scanned = vec![net("Cafe", 30), net("Home", 80), net("Cafe", 70), net("Lab", 80)];
    app.refresh_networks(Ok(scanned));
    assert_eq!(names(&app), vec!["Home", "Lab", "Cafe"]);
    assert_eq!(app.networks()[2].signal, 70);
    assert_eq!(app.selected_index(), Some(0));
    assert_eq!(app.scroll_offset(), 0);
    assert!(app.running());
}

#[test]
fn failed_scan_leaves_the_state_as_it_was() {
    let mut app = App::new();
    app.on_frame(14);
    app.refresh_networks(scan(6));
    app.move_selection_down();
    app.move_selection_down();
    app.move_selection_down();
    app.move_selection_down();
    let before = names(&app).iter().map(|s| s.to_string()).collect::<Vec<_>>();
    assert_eq!((app.selected_index(), app.scroll_offset()), (Some(4), 2));
    app.refresh_networks(Err("nmcli not found".to_string()));
    assert_eq!(names(&app), before);
    assert_eq!((app.selected_index(), app.scroll_offset()), (Some(4), 2));
    assert!(app.running());
}

#[test]
fn failed_first_scan_leaves_the_inventory_empty() {
    let mut app = App::new();
    app.refresh_networks(Err("no tool".to_string()));
    assert!(app.networks().is_empty());
    assert_eq!(app.selected_index(), None);
}

#[test]
fn refresh_with_a_shorter_list_clamps_the_selection() {
    let mut app = App::new();
    app.on_frame(11 + 10);
    app.refresh_networks(scan(5));
    for _ in 0..4 {
        app.move_selection_down();
    }
    assert_eq!(app.selected_index(), Some(4));
    app.refresh_networks(scan(2));
    assert_eq!(app.selected_index(), Some(1));
    assert_eq!(app.networks().len(), 2);
    app.refresh_networks(Ok(vec![]));
    assert_eq!(app.selected_index(), None);
    assert_eq!(app.scroll_offset(), 0);
    assert!(app.networks().is_empty());
}

#[test]
fn selection_moves_within_the_inventory() {
    let mut app = App::new();
    app.on_frame(13);
    app.refresh_networks(scan(4));
    app.move_selection_up();
    assert_eq!((app.selected_index(), app.scroll_offset()), (Some(0), 0));
    app.move_selection_down();
    assert_eq!((app.selected_index(), app.scroll_offset()), (Some(1), 0));
    app.move_selection_down();
    assert_eq!((app.selected_index(), app.scroll_offset()), (Some(2), 1));
    app.move_selection_down();
    assert_eq!((app.selected_index(), app.scroll_offset()), (Some(3), 2));
    app.move_selection_down();
    assert_eq!((app.selected_index(), app.scroll_offset()), (Some(3), 2));
    app.move_selection_up();
    app.move_selection_up();
    assert_eq!((app.selected_index(), app.scroll_offset()), (Some(1), 1));
}

#[test]
fn frame_height_gives_the_rows_below_the_header() {
    let mut app = App::new();
    app.on_frame(0);
    assert_eq!(app.visible_items(), 0);
    app.on_frame(11);
    assert_eq!(app.visible_items(), 0);
    app.on_frame(12);
    assert_eq!(app.visible_items(), 1);
    app.on_frame(40);
    assert_eq!(app.visible_items(), 29);
    app.on_frame(u16::MAX);
    assert_eq!(app.visible_items(), 65524);
}

#[test]
fn smaller_frame_scrolls_to_the_selection() {
    let mut app = App::new();
    app.on_frame(11 + 8);
    app.refresh_networks(scan(10));
    for _ in 0..6 {
        app.move_selection_down();
    }
    assert_eq!((app.selected_index(), app.scroll_offset()), (Some(6), 0));
    app.on_frame(11 + 3);
    assert_eq!((app.selected_index(), app.scroll_offset()), (Some(6), 4));
}

#[test]
fn quit_key_stops_the_app() {
    let mut app = App::new();
    app.refresh_networks(scan(3));
    assert!(!app.handle_key(press('q')));
    assert!(!app.running());
    assert_eq!(app.networks().len(), 3);
    assert_eq!(app.selected_index(), Some(0));
}

#[test]
fn refresh_key_asks_for_a_scan_and_changes_nothing() {
    let mut app = App::new();
    app.on_frame(20);
    app.refresh_networks(scan(3));
    app.move_selection_down();
    assert!(app.handle_key(press('r')));
    assert!(app.running());
    assert_eq!(app.networks().len(), 3);
    assert_eq!(app.selected_index(), Some(1));
}

#[test]
fn arrow_and_letter_keys_move_the_selection() {
    let mut app = App::new();
    app.on_frame(20);
    app.refresh_networks(scan(5));
    assert!(!app.handle_key(KeyEvent::press(KeyCode::Down)));
    assert_eq!(app.selected_index(), Some(1));
    assert!(!app.handle_key(press('j')));
    assert_eq!(app.selected_index(), Some(2));
    assert!(!app.handle_key(KeyEvent::press(KeyCode::Up)));
    assert_eq!(app.selected_index(), Some(1));
    assert!(!app.handle_key(press('k')));
    assert_eq!(app.selected_index(), Some(0));
    assert!(!app.handle_key(press('k')));
    assert_eq!(app.selected_index(), Some(0));
    assert!(app.running());
}

#[test]
fn other_keys_are_ignored() {
    let mut app = App::new();
    app.on_frame(20);
    app.refresh_networks(scan(5));
    app.move_selection_down();
    for key in [
        press('x'),
        press('Q'),
        press('R'),
        press('J'),
        press('K'),
        press(' '),
        press('é'),
        KeyEvent::press(KeyCode::Other),
    ] {
        assert!(!app.handle_key(key));
        assert!(app.running());
        assert_eq!(app.selected_index(), Some(1));
        assert_eq!(app.networks().len(), 5);
    }
}

#[test]
fn only_presses_count() {
    let mut app = App::new();
    app.on_frame(20);
    app.refresh_networks(scan(5));
    for kind in [KeyEventKind::Release, KeyEventKind::Repeat] {
        for code in [KeyCode::Char('q'), KeyCode::Char('r'), KeyCode::Down, KeyCode::Char('j')] {
            assert!(!app.handle_key(KeyEvent { code, kind }));
            assert!(app.running());
            assert_eq!(app.selected_index(), Some(0));
        }
    }
}

#[test]
fn commands_of_keys() {
    assert!(matches!(press('q').command(), Command::Quit));
    assert!(matches!(press('r').command(), Command::Refresh));
    assert!(matches!(press('k').command(), Command::MoveUp));
    assert!(matches!(press('j').command(), Command::MoveDown));
    assert!(matches!(KeyEvent::press(KeyCode::Up).command(), Command::MoveUp));
    assert!(matches!(KeyEvent::press(KeyCode::Down).command(), Command::MoveDown));
    assert!(matches!(KeyEvent::press(KeyCode::Other).command(), Command::Ignore));
    assert!(matches!(press('z').command(), Command::Ignore));
    let release = KeyEvent { code: KeyCode::Char('q'), kind: KeyEventKind::Release };
    assert!(matches!(release.command(), Command::Ignore));
}

#[test]
fn column_widths_of_an_empty_inventory_are_those_of_the_labels() {
    let app = App::new();
    assert_eq!(app.calculate_column_widths(), (4, 6, 8, 4, 4));
}

#[test]
fn column_widths_grow_with_the_cells() {
    let mut app = App::new();
    app.refresh_networks(Ok(vec![
        Network {
            ssid: "A rather long network name".to_string(),
            signal: 100,
            security: "WPA2".to_string(),
            rate: "1300 Mbit/s".to_string(),
            bars: "▂▄▆█".to_string(),
            is_connected: false,
        },
        Network {
            ssid: "b".to_string(),
            signal: 5,
            security: "WPA1 WPA2 802.1X".to_string(),
            rate: "54".to_string(),
            bars: "".to_string(),
            is_connected: true,
        },
    ]));
    // widths count bytes: each bar glyph takes three
    assert_eq!(app.calculate_column_widths(), (26, 6, 16, 11, 12));
}

#[test]
fn visible_range_follows_the_selection() {
    let mut app = App::new();
    assert_eq!(app.visible_range(), (0, 0));
    app.on_frame(11 + 3);
    app.refresh_networks(scan(5));
    assert_eq!(app.visible_range(), (0, 3));
    for _ in 0..4 {
        app.move_selection_down();
    }
    assert_eq!(app.visible_range(), (2, 5));
    app.refresh_networks(scan(2));
    assert_eq!(app.visible_range(), (1, 2));
    app.on_frame(11 + 30);
    assert_eq!(app.visible_range(), (1, 2));
}
