//! Assembling one record from qualified counter fields.
use ztop::assemble::{Builder, RawValue};

#[test]
fn freebsd_like_freebsd_12_2() {
    let names = vec![
        "kstat.zfs.tank.dataset.objset-0x58c.nread",
        "kstat.zfs.tank.dataset.objset-0x58c.reads",
        "kstat.zfs.tank.dataset.objset-0x58c.nwritten",
        "kstat.zfs.tank.dataset.objset-0x58c.writes",
        "kstat.zfs.tank.dataset.objset-0x58c.dataset_name",
    ]
    .into_iter();
    let values = vec![
        RawValue::U64(3),
        RawValue::U64(4),
        RawValue::U64(5),
        RawValue::U64(6),
        RawValue::Str("tank/foo".to_owned()),
    ]
    .into_iter();
    let mut builder = Builder::new();
    for (n, v) in names.zip(values) {
        builder.build(n, v);
    }
    let r = builder.finish().unwrap();
    assert_eq!(r.name, "tank/foo");
    assert_eq!(r.nunlinked, 0);
    assert_eq!(r.nunlinks, 0);
    assert_eq!(r.nread, 3);
    assert_eq!(r.reads, 4);
    assert_eq!(r.nwritten, 5);
    assert_eq!(r.writes, 6);
}

#[test]
fn freebsd_like_freebsd_13_0() {
    let names = vec![
        "kstat.zfs.tank.dataset.objset-0x58c.nunlinked",
        "kstat.zfs.tank.dataset.objset-0x58c.nunlinks",
        "kstat.zfs.tank.dataset.objset-0x58c.nread",
        "kstat.zfs.tank.dataset.objset-0x58c.reads",
        "kstat.zfs.tank.dataset.objset-0x58c.nwritten",
        "kstat.zfs.tank.dataset.objset-0x58c.writes",
        "kstat.zfs.tank.dataset.objset-0x58c.dataset_name",
    ]
    .into_iter();
    let values = vec![
        RawValue::U64(1),
        RawValue::U64(2),
        RawValue::U64(3),
        RawValue::U64(4),
        RawValue::U64(5),
        RawValue::U64(6),
        RawValue::Str("tank/foo".to_owned()),
    ]
    .into_iter();
    let mut builder = Builder::new();
    for (n, v) in names.zip(values) {
        builder.build(n, v);
    }
    let r = builder.finish().unwrap();
    assert_eq!(r.name, "tank/foo");
    assert_eq!(r.nunlinked, 1);
    assert_eq!(r.nunlinks, 2);
    assert_eq!(r.nread, 3);
    assert_eq!(r.reads, 4);
    assert_eq!(r.nwritten, 5);
    assert_eq!(r.writes, 6);
}

/// The optional unlink counters default to zero when never observed, while
/// a missing required counter fails the record.
#[test]
fn optional_fields_default_required_fields_do_not() {
    let mut builder = Builder::new();
    builder.build(
        "kstat.zfs.tank.dataset.objset-0x1.dataset_name",
        RawValue::Str("tank".to_owned()),
    );
    builder.build("kstat.zfs.tank.dataset.objset-0x1.nread", RawValue::U64(10));
    builder.build("kstat.zfs.tank.dataset.objset-0x1.reads", RawValue::U64(2));
    builder.build("kstat.zfs.tank.dataset.objset-0x1.nwritten", RawValue::U64(30));
    builder.build("kstat.zfs.tank.dataset.objset-0x1.writes", RawValue::U64(4));
    let r = builder.finish().unwrap();
    assert_eq!(r.nunlinked, 0);
    assert_eq!(r.nunlinks, 0);

    let mut incomplete = Builder::new();
    incomplete.build(
        "kstat.zfs.tank.dataset.objset-0x1.dataset_name",
        RawValue::Str("tank".to_owned()),
    );
    incomplete.build("kstat.zfs.tank.dataset.objset-0x1.nread", RawValue::U64(10));
    assert!(incomplete.finish().is_none());
}

/// Fields of one record assemble to the same snapshot in any arrival order.
#[test]
fn shuffled_fields_same_snapshot() {
    let fields = [
        ("kstat.zfs.tank.dataset.objset-0x2.nunlinked", RawValue::U64(7)),
        ("kstat.zfs.tank.dataset.objset-0x2.nunlinks", RawValue::U64(8)),
        ("kstat.zfs.tank.dataset.objset-0x2.nread", RawValue::U64(1)),
        ("kstat.zfs.tank.dataset.objset-0x2.reads", RawValue::U64(2)),
        ("kstat.zfs.tank.dataset.objset-0x2.nwritten", RawValue::U64(3)),
        ("kstat.zfs.tank.dataset.objset-0x2.writes", RawValue::U64(4)),
        (
            "kstat.zfs.tank.dataset.objset-0x2.dataset_name",
            RawValue::Str("tank/a".to_owned()),
        ),
    ];
    let order_a = [0usize, 1, 2, 3, 4, 5, 6];
    let order_b = [6usize, 4, 2, 0, 5, 3, 1];
    let mut ba = Builder::new();
    for &i in order_a.iter() {
        ba.build(fields[i].0, dup(&fields[i].1));
    }
    let mut bb = Builder::new();
    for &i in order_b.iter() {
        bb.build(fields[i].0, dup(&fields[i].1));
    }
    let ra = ba.finish().unwrap();
    let rb = bb.finish().unwrap();
    assert_eq!(ra.name, rb.name);
    assert_eq!(ra.nunlinked, rb.nunlinked);
    assert_eq!(ra.nunlinks, rb.nunlinks);
    assert_eq!(ra.nread, rb.nread);
    assert_eq!(ra.reads, rb.reads);
    assert_eq!(ra.nwritten, rb.nwritten);
    assert_eq!(ra.writes, rb.writes);
}

fn dup(v: &RawValue) -> RawValue {
    v.duplicate()
}
