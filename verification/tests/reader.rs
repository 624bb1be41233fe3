use mmtui::config::Config;
use mmtui::mountpoints::MountPoint;

fn lines(v: &[&str]) -> Vec<String> {
    v.iter().map(|s| s.to_string()).collect()
}

#[test]
fn parse_line_three_fields() {
    let m = MountPoint::parse_line("/dev/sda1 /mnt/data ext4 defaults 0 2").unwrap();
    assert_eq!(m.dev, "/dev/sda1");
    assert_eq!(m.path.as_deref(), Some("/mnt/data"));
    assert_eq!(m.fs, "ext4");
    assert!(!m.mounted);
}

#[test]
fn parse_line_tabs_and_extra_blanks() {
    let m = MountPoint::parse_line("  /dev/sdb2\t\t/home \t btrfs rw 0 1").unwrap();
    assert_eq!(m.dev, "/dev/sdb2");
    assert_eq!(m.path.as_deref(), Some("/home"));
    assert_eq!(m.fs, "btrfs");
}

#[test]
fn parse_line_comment_is_skipped() {
    assert!(MountPoint::parse_line("# /dev/sda1 /mnt ext4").is_none());
    assert!(MountPoint::parse_line("#comment").is_none());
}

#[test]
fn parse_line_too_few_fields_is_skipped() {
    assert!(MountPoint::parse_line("").is_none());
    assert!(MountPoint::parse_line("   ").is_none());
    assert!(MountPoint::parse_line("/dev/sda1").is_none());
    assert!(MountPoint::parse_line("/dev/sda1 /mnt").is_none());
}

#[test]
fn parse_table_skips_bad_lines_keeps_order() {
    let cfg = Config::default();
    let t = MountPoint::parse_table(
        &lines(&[
            "# static table",
            "/dev/sda1 / ext4 defaults 0 1",
            "broken",
            "/dev/sdb1 /mnt/data ext4 defaults 0 2",
        ]),
        &cfg,
    );
    assert_eq!(t.len(), 2);
    assert_eq!(t[0].dev, "/dev/sda1");
    assert_eq!(t[1].dev, "/dev/sdb1");
}

#[test]
fn parse_table_drops_ignored_fstype_and_paths() {
    let cfg = Config::default();
    let t = MountPoint::parse_table(
        &lines(&[
            "tmpfs /run tmpfs rw 0 0",
            "proc /proc/sys proc rw 0 0",
            "/dev/sda1 /boot vfat rw 0 2",
            "devtmpfs /dev devtmpfs rw 0 0",
            "tmp /tmp/scratch ramfs rw 0 0",
        ]),
        &cfg,
    );
    assert_eq!(t.len(), 1);
    assert_eq!(t[0].dev, "/dev/sda1");
    assert_eq!(t[0].fs, "vfat");
}

#[test]
fn parse_table_custom_config_keeps_tmpfs() {
    let cfg = Config { fstype_ignore: Vec::new(), path_ignore: Vec::new() };
    let t = MountPoint::parse_table(&lines(&["tmpfs /run tmpfs rw 0 0"]), &cfg);
    assert_eq!(t.len(), 1);
    assert_eq!(t[0].fs, "tmpfs");
}

#[test]
fn collect_marks_live_mounted() {
    let cfg = Config::default();
    let live = MountPoint::parse_table(&lines(&["/dev/sda1 / ext4 rw 0 1"]), &cfg);
    let merged = MountPoint::collect(live, Vec::new());
    assert_eq!(merged.len(), 1);
    assert!(merged[0].mounted);
    assert_eq!(merged[0].dev, "/dev/sda1");
}

#[test]
fn collect_dedupes_by_mountpoint_live_wins() {
    let cfg = Config::default();
    let live = MountPoint::parse_table(&lines(&["/dev/sda1 /mnt/data ext4 rw 0 0"]), &cfg);
    let statics = MountPoint::parse_table(
        &lines(&[
            "/dev/sda1 /mnt/data ext4 defaults 0 2",
            "/dev/sdc1 /mnt/extra xfs defaults 0 2",
        ]),
        &cfg,
    );
    let merged = MountPoint::collect(live, statics);
    let data: Vec<&MountPoint> = merged
        .iter()
        .filter(|m| m.path.as_deref() == Some("/mnt/data"))
        .collect();
    assert_eq!(data.len(), 1);
    assert!(data[0].mounted);
    let extra: Vec<&MountPoint> = merged
        .iter()
        .filter(|m| m.path.as_deref() == Some("/mnt/extra"))
        .collect();
    assert_eq!(extra.len(), 1);
    assert!(!extra[0].mounted);
}

#[test]
fn collect_never_shows_tmpfs_or_proc_with_defaults() {
    let cfg = Config::default();
    let live = MountPoint::parse_table(
        &lines(&[
            "tmpfs /dev/shm tmpfs rw 0 0",
            "proc /proc proc rw 0 0",
            "/dev/sda2 /var ext4 rw 0 0",
        ]),
        &cfg,
    );
    let statics = MountPoint::parse_table(&lines(&["none /proc/fs proc defaults 0 0"]), &cfg);
    let merged = MountPoint::collect(live, statics);
    for m in &merged {
        assert_ne!(m.fs, "tmpfs");
        assert!(!m.path.as_deref().unwrap_or("").starts_with("/proc"));
    }
    assert_eq!(merged.len(), 1);
    assert_eq!(merged[0].dev, "/dev/sda2");
}
