use mmtui::config::Config;
use mmtui::drives::{Block, Drive};
use mmtui::tui::{ActionKind, InputResult, Key, Tui};

fn block(dev: &str, mount: Option<&str>) -> Block {
    Block {
        object_path: format!("/org{dev}"),
        dev: dev.to_string(),
        label: String::new(),
        mount: mount.map(|m| m.to_string()),
        fstype: "ext4".to_string(),
        mounted: mount.is_some(),
        size: 0,
    }
}

fn snapshot(blocks: Vec<Block>) -> Vec<Drive> {
    vec![Drive {
        id: "d".to_string(),
        object_path: "/org/d".to_string(),
        model: String::new(),
        ejectable: false,
        blocks,
    }]
}

fn tui_with(blocks: Vec<Block>) -> Tui {
    let mut t = Tui::default();
    t.set_snapshot(snapshot(blocks));
    t
}

#[test]
fn navigation_clamps_at_both_ends() {
    // Navigate-down at the last row and navigate-up at row zero are
    // no-ops: clamped, not cyclic.
    let mut t = tui_with(vec![block("/dev/sda1", None), block("/dev/sda2", None)]);
    assert_eq!(t.cursor, Some(0));
    t.navigate_up();
    assert_eq!(t.cursor, Some(0));
    t.navigate_down();
    assert_eq!(t.cursor, Some(1));
    t.navigate_down();
    assert_eq!(t.cursor, Some(1));
    t.navigate_up();
    assert_eq!(t.cursor, Some(0));
}

#[test]
fn navigation_on_empty_list_is_noop() {
    let mut t = Tui::default();
    t.navigate_down();
    assert_eq!(t.cursor, None);
    t.navigate_up();
    assert_eq!(t.cursor, None);
}

#[test]
fn input_up_down_keys_move_cursor() {
    let mut t = tui_with(vec![block("/dev/sda1", None), block("/dev/sda2", None)]);
    assert!(matches!(t.input(Key::Down), InputResult::Continue));
    assert_eq!(t.cursor, Some(1));
    assert!(matches!(t.input(Key::Up), InputResult::Continue));
    assert_eq!(t.cursor, Some(0));
}

#[test]
fn selection_is_positional_across_rows() {
    let mut t = tui_with(vec![block("/dev/sda1", None), block("/dev/sda2", Some("/x"))]);
    assert_eq!(t.selected_block().unwrap().dev, "/dev/sda1");
    t.navigate_down();
    assert_eq!(t.selected_block().unwrap().dev, "/dev/sda2");
    // The snapshot shrinks: the cursor row keeps its position and the
    // selection silently follows the row index, not the device.
    t.set_snapshot(snapshot(vec![block("/dev/sdb9", None)]));
    assert_eq!(t.cursor, Some(1));
    assert!(t.selected_block().is_none());
}

#[test]
fn confirm_with_mounted_selection_reports_path() {
    let mut t = tui_with(vec![block("/dev/sda1", Some("/mnt/data"))]);
    match t.input(Key::Confirm) {
        InputResult::QuitChangeDirectory(p) => assert_eq!(p, "/mnt/data"),
        _ => panic!("expected a path-reporting exit"),
    }
}

#[test]
fn confirm_without_mount_path_quits_with_no_path() {
    // Confirm while the selected block has no mount path ends the
    // session reporting no path: no panic, no error.
    let mut t = tui_with(vec![block("/dev/sda1", None)]);
    assert!(matches!(t.input(Key::Confirm), InputResult::Quit));
}

#[test]
fn confirm_with_no_selection_quits_with_no_path() {
    let mut t = Tui::default();
    assert!(matches!(t.input(Key::Confirm), InputResult::Quit));
}

#[test]
fn quit_key_quits() {
    let mut t = tui_with(vec![block("/dev/sda1", None)]);
    assert!(matches!(t.input(Key::Quit), InputResult::Quit));
    assert!(matches!(t.input(Key::Other), InputResult::Continue));
}

#[test]
fn action_keys_request_dispatch_only_with_selection() {
    let t = tui_with(vec![block("/dev/sda1", None)]);
    match t.requested_action(Key::Mount) {
        Some((ActionKind::Mount, b)) => assert_eq!(b.dev, "/dev/sda1"),
        _ => panic!("expected a mount request"),
    }
    assert!(matches!(t.requested_action(Key::Unmount), Some((ActionKind::Unmount, _))));
    assert!(matches!(t.requested_action(Key::Eject), Some((ActionKind::Eject, _))));
    assert!(t.requested_action(Key::Up).is_none());
    let empty = Tui::default();
    assert!(empty.requested_action(Key::Mount).is_none());
}

#[test]
fn status_line_reports_outcome() {
    let mut t = Tui::default();
    t.set_status(ActionKind::Mount, None);
    assert_eq!(t.last_status, "mount: ok");
    t.set_status(ActionKind::Unmount, Some("org.freedesktop.UDisks2.Error.NotMounted".to_string()));
    assert_eq!(t.last_status, "unmount: org.freedesktop.UDisks2.Error.NotMounted");
    t.set_status(ActionKind::Eject, None);
    assert_eq!(t.last_status, "eject: ok");
}

#[test]
fn rows_flatten_drives_in_order() {
    let mut t = Tui::default();
    t.set_snapshot(vec![
        Drive {
            id: "a".to_string(),
            object_path: "/org/a".to_string(),
            model: String::new(),
            ejectable: false,
            blocks: vec![block("/dev/sda1", None), block("/dev/sda2", None)],
        },
        Drive {
            id: "b".to_string(),
            object_path: "/org/b".to_string(),
            model: String::new(),
            ejectable: false,
            blocks: vec![block("/dev/sdb1", None)],
        },
    ]);
    let rows = t.rows();
    let devs: Vec<&str> = rows.iter().map(|b| b.dev.as_str()).collect();
    assert_eq!(devs, vec!["/dev/sda1", "/dev/sda2", "/dev/sdb1"]);
}

#[test]
fn default_config_has_documented_ignore_sets() {
    let cfg = Config::default();
    assert_eq!(
        cfg.fstype_ignore,
        vec![
            "tmpfs",
            "ramfs",
            "swap",
            "devtmpfs",
            "devpts",
            "hugetlbfs",
            "mqueue",
            "fuse.portal",
            "fuse.gvfsd-fuse"
        ]
    );
    assert_eq!(cfg.path_ignore, vec!["/tmp", "/sys", "/proc"]);
}

#[test]
fn load_or_default_prefers_loaded_config() {
    let loaded = Config {
        fstype_ignore: vec!["nfs".to_string()],
        path_ignore: vec!["/var".to_string()],
    };
    let cfg = Config::load_or_default(Some(loaded));
    assert_eq!(cfg.fstype_ignore, vec!["nfs"]);
    assert_eq!(cfg.path_ignore, vec!["/var"]);
    let fallback = Config::load_or_default(None);
    assert_eq!(fallback.path_ignore, vec!["/tmp", "/sys", "/proc"]);
}
