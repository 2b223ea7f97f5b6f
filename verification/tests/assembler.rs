//! The assembling walk over a whole collected field stream.
use ztop::assemble::{RawValue, SnapshotIter};

/// No datasets are present
#[test]
fn freebsd_empty() {
    let kv: Vec<(String, RawValue)> = Vec::new();
    let mut iter = SnapshotIter::with_inner(kv);
    assert!(iter.next().is_none());
}

#[test]
fn snapshot_iter_like_freebsd_12_2() {
    let kv = vec![
        (
            "kstat.zfs.tank.dataset.objset-0x58c.nread".to_string(),
            RawValue::U64(1),
        ),
        (
            "kstat.zfs.tank.dataset.objset-0x58c.reads".to_string(),
            RawValue::U64(2),
        ),
        (
            "kstat.zfs.tank.dataset.objset-0x58c.nwritten".to_string(),
            RawValue::U64(3),
        ),
        (
            "kstat.zfs.tank.dataset.objset-0x58c.writes".to_string(),
            RawValue::U64(4),
        ),
        (
            "kstat.zfs.tank.dataset.objset-0x58c.dataset_name".to_string(),
            RawValue::Str("tank/foo".to_string()),
        ),
        (
            "kstat.zfs.tank.dataset.objset-0x58d.nread".to_string(),
            RawValue::U64(11),
        ),
        (
            "kstat.zfs.tank.dataset.objset-0x58d.reads".to_string(),
            RawValue::U64(12),
        ),
        (
            "kstat.zfs.tank.dataset.objset-0x58d.nwritten".to_string(),
            RawValue::U64(13),
        ),
        (
            "kstat.zfs.tank.dataset.objset-0x58d.writes".to_string(),
            RawValue::U64(14),
        ),
        (
            "kstat.zfs.tank.dataset.objset-0x58d.dataset_name".to_string(),
            RawValue::Str("tank/bar".to_string()),
        ),
    ];
    let mut iter = SnapshotIter::with_inner(kv);
    let ss = iter.next().unwrap();
    assert_eq!(ss.name, "tank/foo");
    assert_eq!(ss.nunlinked, 0);
    assert_eq!(ss.nunlinks, 0);
    assert_eq!(ss.nread, 1);
    assert_eq!(ss.reads, 2);
    assert_eq!(ss.nwritten, 3);
    assert_eq!(ss.writes, 4);
    let ss = iter.next().unwrap();
    assert_eq!(ss.name, "tank/bar");
    assert_eq!(ss.nunlinked, 0);
    assert_eq!(ss.nunlinks, 0);
    assert_eq!(ss.nread, 11);
    assert_eq!(ss.reads, 12);
    assert_eq!(ss.nwritten, 13);
    assert_eq!(ss.writes, 14);
    assert!(iter.next().is_none());
}

#[test]
fn snapshot_iter_like_freebsd_13_0() {
    let kv = vec![
        (
            "kstat.zfs.tank.dataset.objset-0x58c.nunlinked".to_string(),
            RawValue::U64(5),
        ),
        (
            "kstat.zfs.tank.dataset.objset-0x58c.nunlinks".to_string(),
            RawValue::U64(6),
        ),
        (
            "kstat.zfs.tank.dataset.objset-0x58c.nread".to_string(),
            RawValue::U64(1),
        ),
        (
            "kstat.zfs.tank.dataset.objset-0x58c.reads".to_string(),
            RawValue::U64(2),
        ),
        (
            "kstat.zfs.tank.dataset.objset-0x58c.nwritten".to_string(),
            RawValue::U64(3),
        ),
        (
            "kstat.zfs.tank.dataset.objset-0x58c.writes".to_string(),
            RawValue::U64(4),
        ),
        (
            "kstat.zfs.tank.dataset.objset-0x58c.dataset_name".to_string(),
            RawValue::Str("tank/foo".to_string()),
        ),
        (
            "kstat.zfs.tank.dataset.objset-0x58d.nunlinked".to_string(),
            RawValue::U64(15),
        ),
        (
            "kstat.zfs.tank.dataset.objset-0x58d.nunlinks".to_string(),
            RawValue::U64(16),
        ),
        (
            "kstat.zfs.tank.dataset.objset-0x58d.nread".to_string(),
            RawValue::U64(11),
        ),
        (
            "kstat.zfs.tank.dataset.objset-0x58d.reads".to_string(),
            RawValue::U64(12),
        ),
        (
            "kstat.zfs.tank.dataset.objset-0x58d.nwritten".to_string(),
            RawValue::U64(13),
        ),
        (
            "kstat.zfs.tank.dataset.objset-0x58d.writes".to_string(),
            RawValue::U64(14),
        ),
        (
            "kstat.zfs.tank.dataset.objset-0x58d.dataset_name".to_string(),
            RawValue::Str("tank/bar".to_string()),
        ),
    ];
    let mut iter = SnapshotIter::with_inner(kv);
    let ss = iter.next().unwrap();
    assert_eq!(ss.name, "tank/foo");
    assert_eq!(ss.nunlinked, 5);
    assert_eq!(ss.nunlinks, 6);
    assert_eq!(ss.nread, 1);
    assert_eq!(ss.reads, 2);
    assert_eq!(ss.nwritten, 3);
    assert_eq!(ss.writes, 4);
    let ss = iter.next().unwrap();
    assert_eq!(ss.name, "tank/bar");
    assert_eq!(ss.nunlinked, 15);
    assert_eq!(ss.nunlinks, 16);
    assert_eq!(ss.nread, 11);
    assert_eq!(ss.reads, 12);
    assert_eq!(ss.nwritten, 13);
    assert_eq!(ss.writes, 14);
    assert!(iter.next().is_none());
}

/// If the sysctls progress from one pool to another but the objset
/// number doesn't change, we must still finish the Builder
#[test]
fn same_objset_two_pools() {
    let kv = vec![
        (
            "kstat.zfs.tank.dataset.objset-0x36.nunlinked".to_string(),
            RawValue::U64(1),
        ),
        (
            "kstat.zfs.tank.dataset.objset-0x36.nunlinks".to_string(),
            RawValue::U64(2),
        ),
        (
            "kstat.zfs.tank.dataset.objset-0x36.nread".to_string(),
            RawValue::U64(3),
        ),
        (
            "kstat.zfs.tank.dataset.objset-0x36.reads".to_string(),
            RawValue::U64(4),
        ),
        (
            "kstat.zfs.tank.dataset.objset-0x36.nwritten".to_string(),
            RawValue::U64(5),
        ),
        (
            "kstat.zfs.tank.dataset.objset-0x36.writes".to_string(),
            RawValue::U64(6),
        ),
        (
            "kstat.zfs.tank.dataset.objset-0x36.dataset_name".to_string(),
            RawValue::Str("tank/foo".to_string()),
        ),
        (
            "kstat.zfs.zroot.dataset.objset-0x36.nunlinked".to_string(),
            RawValue::U64(1),
        ),
        (
            "kstat.zfs.zroot.dataset.objset-0x36.dataset_name".to_string(),
            RawValue::Str("zroot/bar".to_string()),
        ),
    ];
    let mut iter = SnapshotIter::with_inner(kv);
    let ss = iter.next().unwrap();
    assert_eq!(ss.name, "tank/foo");
    assert_eq!(ss.nunlinked, 1);
    assert_eq!(ss.nunlinks, 2);
    assert_eq!(ss.nread, 3);
    assert_eq!(ss.reads, 4);
    assert_eq!(ss.nwritten, 5);
    assert_eq!(ss.writes, 6);
}

/// A field with too short a qualified name is ignored, never fatal.
#[test]
fn unrecognized_short_name_ignored() {
    let kv = vec![
        ("kstat.zfs".to_string(), RawValue::U64(9)),
        (
            "kstat.zfs.tank.dataset.objset-0x1.nread".to_string(),
            RawValue::U64(1),
        ),
        (
            "kstat.zfs.tank.dataset.objset-0x1.reads".to_string(),
            RawValue::U64(2),
        ),
        (
            "kstat.zfs.tank.dataset.objset-0x1.nwritten".to_string(),
            RawValue::U64(3),
        ),
        (
            "kstat.zfs.tank.dataset.objset-0x1.writes".to_string(),
            RawValue::U64(4),
        ),
        (
            "kstat.zfs.tank.dataset.objset-0x1.dataset_name".to_string(),
            RawValue::Str("tank".to_string()),
        ),
    ];
    let mut iter = SnapshotIter::with_inner(kv);
    let ss = iter.next().unwrap();
    assert_eq!(ss.name, "tank");
    assert_eq!(ss.nread, 1);
    assert!(iter.next().is_none());
}
