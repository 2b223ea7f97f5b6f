//! Generations, rates and aggregation.
use ztop::datasource::DataSource;
use ztop::snapshot::{Element, Snapshot};

fn snap(name: &str, nread: u64, reads: u64, nwritten: u64, writes: u64) -> Snapshot {
    Snapshot {
        name: name.to_string(),
        nunlinked: 0,
        nunlinks: 0,
        nread,
        reads,
        nwritten,
        writes,
    }
}

const SECOND: u64 = 1_000_000_000;

/// Two generations one second apart: the derived deltas over the interval
/// are the counter differences, and the displayed per-second rates follow
/// exactly.
#[test]
fn rates_one_second_apart() {
    let mut ds = DataSource::new(false, Vec::new());
    ds.refresh(5 * SECOND, &vec![snap("tank", 1024, 8, 0, 0)]);
    ds.refresh(6 * SECOND, &vec![snap("tank", 2048, 16, 0, 0)]);
    let els: Vec<Element> = ds.elements(123);
    assert_eq!(els.len(), 1);
    assert_eq!(els[0].name, "tank");
    assert_eq!(els[0].d_nread, 1024);
    assert_eq!(els[0].d_reads, 8);
    assert_eq!(els[0].etime_ns, SECOND);
    let r_s = els[0].d_nread as f64 * 1e9 / els[0].etime_ns as f64;
    let ops_r = els[0].d_reads as f64 * 1e9 / els[0].etime_ns as f64;
    assert_eq!(r_s, 1024.0);
    assert_eq!(ops_r, 8.0);
}

/// A counter that moved backwards yields a zero delta, not an underflow.
#[test]
fn counter_regression_clamps_to_zero() {
    let mut ds = DataSource::new(false, Vec::new());
    ds.refresh(5 * SECOND, &vec![snap("tank", 1000, 10, 0, 0)]);
    ds.refresh(6 * SECOND, &vec![snap("tank", 100, 1, 0, 0)]);
    let els = ds.elements(123);
    assert_eq!(els[0].d_nread, 0);
    assert_eq!(els[0].d_reads, 0);
}

/// With children-aggregation on, a parent's counters are its own plus all
/// of its strict descendants', for the cycle.
#[test]
fn aggregation_sums_descendants() {
    let mut ds = DataSource::new(true, Vec::new());
    ds.refresh(
        5 * SECOND,
        &vec![
            snap("zroot", 1, 10, 100, 1000),
            snap("zroot/a", 2, 20, 200, 2000),
            snap("zroot/a/b", 4, 40, 400, 4000),
            snap("zroot/c", 8, 80, 800, 8000),
        ],
    );
    assert_eq!(ds.cur.len(), 4);
    assert_eq!(ds.cur[0].name, "zroot");
    assert_eq!(ds.cur[0].nread, 15);
    assert_eq!(ds.cur[0].reads, 150);
    assert_eq!(ds.cur[0].nwritten, 1500);
    assert_eq!(ds.cur[0].writes, 15000);
    assert_eq!(ds.cur[1].name, "zroot/a");
    assert_eq!(ds.cur[1].nread, 6);
    assert_eq!(ds.cur[1].reads, 60);
    assert_eq!(ds.cur[2].name, "zroot/a/b");
    assert_eq!(ds.cur[2].nread, 4);
    assert_eq!(ds.cur[3].name, "zroot/c");
    assert_eq!(ds.cur[3].nread, 8);
}

/// A parent with no record of its own is created from its descendants.
#[test]
fn aggregation_creates_missing_parent() {
    let mut ds = DataSource::new(true, Vec::new());
    ds.refresh(5 * SECOND, &vec![snap("zroot/a/b", 4, 40, 400, 4000)]);
    assert_eq!(ds.cur.len(), 3);
    assert_eq!(ds.cur[0].name, "zroot");
    assert_eq!(ds.cur[0].nread, 4);
    assert_eq!(ds.cur[1].name, "zroot/a");
    assert_eq!(ds.cur[1].nread, 4);
    assert_eq!(ds.cur[2].name, "zroot/a/b");
    assert_eq!(ds.cur[2].nread, 4);
}

/// An empty collection cycle yields an empty generation and an empty
/// record sequence, not an error.
#[test]
fn empty_cycle() {
    let mut ds = DataSource::new(false, Vec::new());
    ds.refresh(5 * SECOND, &Vec::new());
    assert_eq!(ds.cur.len(), 0);
    let els = ds.elements(123);
    assert!(els.is_empty());
}

/// Toggling children-aggregation discards the previous generation: the
/// next derivation reports rates since boot through the uptime fallback,
/// not a diff against the pre-toggle counters.
#[test]
fn toggle_children_reports_since_boot() {
    let mut ds = DataSource::new(false, Vec::new());
    ds.refresh(5 * SECOND, &vec![snap("tank", 1000, 10, 0, 0)]);
    ds.refresh(6 * SECOND, &vec![snap("tank", 2000, 20, 0, 0)]);
    ds.toggle_children(7 * SECOND, &vec![snap("tank", 3000, 30, 0, 0)]);
    assert!(ds.prev.is_empty());
    assert!(ds.prev_ts.is_none());
    let uptime = 40 * SECOND;
    let els = ds.elements(uptime);
    assert_eq!(els.len(), 1);
    assert_eq!(els[0].etime_ns, uptime);
    assert_eq!(els[0].d_nread, 3000);
    assert_eq!(els[0].d_reads, 30);
}

/// A dataset seen for the first time reports its raw counters over the
/// interval's fallback, even when other datasets have a previous record.
#[test]
fn new_dataset_reports_raw_counters() {
    let mut ds = DataSource::new(false, Vec::new());
    ds.refresh(5 * SECOND, &vec![snap("tank", 1000, 10, 0, 0)]);
    ds.refresh(
        6 * SECOND,
        &vec![snap("tank", 1500, 15, 0, 0), snap("zroot", 700, 7, 0, 0)],
    );
    let els = ds.elements(123);
    assert_eq!(els.len(), 2);
    assert_eq!(els[0].name, "tank");
    assert_eq!(els[0].d_nread, 500);
    assert_eq!(els[1].name, "zroot");
    assert_eq!(els[1].d_nread, 700);
}

/// Aggregated counters clamp at the largest counter value instead of
/// wrapping around.
#[test]
fn aggregation_saturates_at_max() {
    let mut ds = DataSource::new(true, Vec::new());
    ds.refresh(
        5 * SECOND,
        &vec![
            snap("zroot", u64::MAX, 1, 0, 0),
            snap("zroot/a", u64::MAX, 2, 0, 0),
        ],
    );
    assert_eq!(ds.cur[0].name, "zroot");
    assert_eq!(ds.cur[0].nread, u64::MAX);
    assert_eq!(ds.cur[0].reads, 3);
}
