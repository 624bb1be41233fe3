use mmtui::drives::{collect_drives, reconcile, Block, Drive, ManagedObject};
use mmtui::mountpoints::MountPoint;

fn entry(dev: &str, path: &str, fs: &str, mounted: bool) -> MountPoint {
    MountPoint {
        dev: dev.to_string(),
        path: Some(path.to_string()),
        fs: fs.to_string(),
        mounted,
    }
}

fn block(object_path: &str, dev: &str) -> Block {
    Block {
        object_path: object_path.to_string(),
        dev: dev.to_string(),
        label: String::new(),
        mount: None,
        fstype: "ext4".to_string(),
        mounted: false,
        size: 0,
    }
}

fn drive(object_path: &str, blocks: Vec<Block>) -> Drive {
    Drive {
        id: object_path.to_string(),
        object_path: object_path.to_string(),
        model: "model".to_string(),
        ejectable: false,
        blocks,
    }
}

fn dump(drives: &[Drive]) -> Vec<(String, Vec<(String, Option<String>, bool)>)> {
    drives
        .iter()
        .map(|d| {
            (
                d.object_path.clone(),
                d.blocks
                    .iter()
                    .map(|b| (b.dev.clone(), b.mount.clone(), b.mounted))
                    .collect(),
            )
        })
        .collect()
}

#[test]
fn reconcile_is_deterministic() {
    let mk_drives = || {
        vec![
            drive("/org/d2", vec![block("/org/d2/b1", "/dev/sdb1")]),
            drive("/org/d1", vec![block("/org/d1/b2", "/dev/sda2"), block("/org/d1/b1", "/dev/sda1")]),
        ]
    };
    let mk_mounts = || {
        vec![
            entry("/dev/sda2", "/home", "ext4", true),
            entry("/dev/sdz9", "/mnt/usb", "vfat", true),
        ]
    };
    let a = reconcile(mk_drives(), mk_mounts());
    let b = reconcile(mk_drives(), mk_mounts());
    assert_eq!(dump(&a), dump(&b));
}

#[test]
fn reconcile_ignores_enumeration_order() {
    // The same drives handed over in two different enumeration orders
    // produce the identical ordered snapshot.
    let forward = vec![
        drive("/org/d1", vec![block("/org/d1/b1", "/dev/sda1")]),
        drive("/org/d2", vec![block("/org/d2/b1", "/dev/sdb1")]),
        drive("/org/d3", vec![block("/org/d3/b1", "/dev/sdc1")]),
    ];
    let backward = vec![
        drive("/org/d3", vec![block("/org/d3/b1", "/dev/sdc1")]),
        drive("/org/d1", vec![block("/org/d1/b1", "/dev/sda1")]),
        drive("/org/d2", vec![block("/org/d2/b1", "/dev/sdb1")]),
    ];
    let mounts = vec![entry("/dev/sdb1", "/mnt/b", "ext4", true)];
    let a = reconcile(forward, mounts.clone());
    let b = reconcile(backward, mounts);
    assert_eq!(dump(&a), dump(&b));
}

#[test]
fn reconcile_matches_entry_onto_block() {
    let drives = vec![drive("/org/d1", vec![block("/org/d1/b1", "/dev/sda1")])];
    let mounts = vec![entry("/dev/sda1", "/boot", "vfat", true)];
    let r = reconcile(drives, mounts);
    assert_eq!(r.len(), 1);
    let b = &r[0].blocks[0];
    assert_eq!(b.dev, "/dev/sda1");
    assert_eq!(b.mount.as_deref(), Some("/boot"));
    assert!(b.mounted);
}

#[test]
fn reconcile_scenario_static_unmatched_entry() {
    // A static-table line with no matching live entry and no
    // inventoried block lands as one block under the "fstab" drive.
    let line = "/dev/sdb1 /mnt/data ext4 defaults 0 2";
    let cfg = mmtui::config::Config::default();
    let statics = MountPoint::parse_table(&vec![line.to_string()], &cfg);
    let mounts = MountPoint::collect(Vec::new(), statics);
    let r = reconcile(Vec::new(), mounts);
    assert_eq!(r.len(), 1);
    assert_eq!(r[0].id, "fstab");
    assert_eq!(r[0].blocks.len(), 1);
    let b = &r[0].blocks[0];
    assert_eq!(b.dev, "/dev/sdb1");
    assert_eq!(b.mount.as_deref(), Some("/mnt/data"));
    assert_eq!(b.fstype, "ext4");
    assert!(!b.mounted);
    assert_eq!(b.object_path, "");
}

#[test]
fn reconcile_no_fstab_drive_when_everything_matches() {
    let drives = vec![drive("/org/d1", vec![block("/org/d1/b1", "/dev/sda1")])];
    let mounts = vec![entry("/dev/sda1", "/", "ext4", true)];
    let r = reconcile(drives, mounts);
    assert_eq!(r.len(), 1);
    assert_eq!(r[0].object_path, "/org/d1");
}

#[test]
fn reconcile_scenario_device_in_both_tables() {
    // The same device in the live and the static table: the merged
    // table holds one entry for the mountpoint, mounted, and the
    // snapshot shows the block mounted.
    let cfg = mmtui::config::Config::default();
    let live = MountPoint::parse_table(
        &vec!["/dev/sdb1 /mnt/data ext4 rw 0 0".to_string()],
        &cfg,
    );
    let statics = MountPoint::parse_table(
        &vec!["/dev/sdb1 /mnt/data ext4 defaults 0 2".to_string()],
        &cfg,
    );
    let mounts = MountPoint::collect(live, statics);
    assert_eq!(
        mounts
            .iter()
            .filter(|m| m.path.as_deref() == Some("/mnt/data"))
            .count(),
        1
    );
    assert!(mounts[0].mounted);
    let drives = vec![drive("/org/d1", vec![block("/org/d1/b1", "/dev/sdb1")])];
    let r = reconcile(drives, mounts);
    assert_eq!(r.len(), 1);
    assert!(r[0].blocks[0].mounted);
    assert_eq!(r[0].blocks[0].mount.as_deref(), Some("/mnt/data"));
}

#[test]
fn reconcile_sorts_drives_and_blocks() {
    let drives = vec![
        drive("/org/z", vec![block("/org/z/b", "/dev/sdz1")]),
        drive(
            "/org/a",
            vec![block("/org/a/b2", "/dev/sda2"), block("/org/a/b1", "/dev/sda1")],
        ),
    ];
    let mounts = vec![entry("/dev/sdq1", "/mnt/q", "ext4", false)];
    let r = reconcile(drives, mounts);
    let paths: Vec<&str> = r.iter().map(|d| d.object_path.as_str()).collect();
    assert_eq!(paths, vec!["/org/a", "/org/z", "fstab"]);
    let devs: Vec<&str> = r[0].blocks.iter().map(|b| b.dev.as_str()).collect();
    assert_eq!(devs, vec!["/dev/sda1", "/dev/sda2"]);
}

#[test]
fn reconcile_live_entry_applied_after_static_wins() {
    // Entries are applied in order; the merged table puts live
    // entries first, so a static candidate for the same device that
    // survives dedupe (different mountpoint) overrides earlier state
    // only in its listed order.
    let drives = vec![drive("/org/d1", vec![block("/org/d1/b1", "/dev/sda1")])];
    let mounts = vec![
        entry("/dev/sda1", "/live", "ext4", true),
        entry("/dev/sda1", "/static", "ext4", false),
    ];
    let r = reconcile(drives, mounts);
    // The later entry lands last on the same block.
    assert_eq!(r[0].blocks[0].mount.as_deref(), Some("/static"));
    assert!(!r[0].blocks[0].mounted);
}

#[test]
fn collect_drives_block_before_drive() {
    // A block arriving before its drive creates a placeholder that
    // the drive object later fills in; arrival order does not change
    // the reconciled result.
    let early_block = ManagedObject::BlockObject {
        object_path: "/org/d1/b1".to_string(),
        parent: "/org/d1".to_string(),
        dev: "/dev/sda1".to_string(),
        label: "root".to_string(),
        fstype: "ext4".to_string(),
        size: 42,
    };
    let drive_obj = ManagedObject::DriveObject {
        object_path: "/org/d1".to_string(),
        id: "disk-1".to_string(),
        model: "ACME 1000".to_string(),
        ejectable: true,
    };
    let a = collect_drives(vec![early_block.clone(), drive_obj.clone(), ManagedObject::Unrecognized]);
    let b = collect_drives(vec![drive_obj, ManagedObject::Unrecognized, early_block]);
    assert_eq!(a.len(), 1);
    assert_eq!(a[0].id, "disk-1");
    assert_eq!(a[0].model, "ACME 1000");
    assert!(a[0].ejectable);
    assert_eq!(a[0].blocks.len(), 1);
    assert_eq!(a[0].blocks[0].dev, "/dev/sda1");
    assert_eq!(a[0].blocks[0].size, 42);
    let ra = reconcile(a, Vec::new());
    let rb = reconcile(b, Vec::new());
    assert_eq!(dump(&ra), dump(&rb));
}

#[test]
fn collect_drives_groups_blocks_by_parent() {
    let objs = vec![
        ManagedObject::DriveObject {
            object_path: "/org/d1".to_string(),
            id: "one".to_string(),
            model: "m".to_string(),
            ejectable: false,
        },
        ManagedObject::BlockObject {
            object_path: "/org/d2/b1".to_string(),
            parent: "/org/d2".to_string(),
            dev: "/dev/sdb1".to_string(),
            label: String::new(),
            fstype: "xfs".to_string(),
            size: 1,
        },
        ManagedObject::BlockObject {
            object_path: "/org/d1/b1".to_string(),
            parent: "/org/d1".to_string(),
            dev: "/dev/sda1".to_string(),
            label: String::new(),
            fstype: "ext4".to_string(),
            size: 2,
        },
    ];
    let ds = collect_drives(objs);
    assert_eq!(ds.len(), 2);
    assert_eq!(ds[0].object_path, "/org/d1");
    assert_eq!(ds[0].blocks.len(), 1);
    assert_eq!(ds[0].blocks[0].dev, "/dev/sda1");
    assert_eq!(ds[1].object_path, "/org/d2");
    assert_eq!(ds[1].id, "");
    assert_eq!(ds[1].blocks[0].dev, "/dev/sdb1");
}
