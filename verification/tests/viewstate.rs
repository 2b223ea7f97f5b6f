//! Filtering, sorting and the interactive session state.
use ztop::snapshot::{Element, Snapshot};
use ztop::viewstate::{col_idx, App, FilterPopup};

fn snap(name: &str, nread: u64, reads: u64) -> Snapshot {
    Snapshot {
        name: name.to_string(),
        nunlinked: 0,
        nunlinks: 0,
        nread,
        reads,
        nwritten: 0,
        writes: 0,
    }
}

fn fresh_app() -> App {
    App::new(false, false, Vec::new(), None, None, false, None)
}

fn names(els: &[Element]) -> Vec<&str> {
    els.iter().map(|e| e.name.as_str()).collect()
}

const SECOND: u64 = 1_000_000_000;
const UP: u64 = 77 * SECOND;

/// Depth filter: "a/b/c" is excluded at depth 2 and included at depth 3 or
/// with no limit.
#[test]
fn depth_filter() {
    let snaps = vec![snap("a", 1, 1), snap("a/b", 1, 1), snap("a/b/c", 1, 1)];
    let mut app = fresh_app();
    app.on_tick(5 * SECOND, &snaps);
    assert_eq!(names(&app.elements(UP)), ["a", "a/b", "a/b/c"]);

    let mut app2 = App::new(false, false, Vec::new(), Some(2), None, false, None);
    app2.on_tick(5 * SECOND, &snaps);
    assert_eq!(names(&app2.elements(UP)), ["a", "a/b"]);

    let mut app3 = App::new(false, false, Vec::new(), Some(3), None, false, None);
    app3.on_tick(5 * SECOND, &snaps);
    assert_eq!(names(&app3.elements(UP)), ["a", "a/b", "a/b/c"]);
}

/// Deriving the display records twice with no mutation in between yields
/// identical, identically ordered output.
#[test]
fn elements_twice_identical() {
    let mut app = fresh_app();
    app.on_tick(5 * SECOND, &vec![snap("b", 5, 2), snap("a", 3, 9)]);
    let e1 = app.elements(UP);
    let e2 = app.elements(UP);
    assert_eq!(e1.len(), e2.len());
    for (x, y) in e1.iter().zip(e2.iter()) {
        assert_eq!(x.name, y.name);
        assert_eq!(x.d_nread, y.d_nread);
        assert_eq!(x.d_reads, y.d_reads);
        assert_eq!(x.d_nwritten, y.d_nwritten);
        assert_eq!(x.d_writes, y.d_writes);
        assert_eq!(x.d_nunlinked, y.d_nunlinked);
        assert_eq!(x.d_nunlinks, y.d_nunlinks);
        assert_eq!(x.etime_ns, y.etime_ns);
    }
}

/// Stable sort: records with equal keys keep their input order, ascending
/// and descending alike.
#[test]
fn stable_sort_keeps_tied_order() {
    let snaps = vec![
        snap("a", 100, 1),
        snap("b", 7, 1),
        snap("c", 100, 1),
        snap("d", 3, 1),
    ];
    let mut app = fresh_app();
    app.on_tick(5 * SECOND, &snaps);
    app.on_plus();
    app.on_plus();
    assert_eq!(app.sort_idx(), Some(1));
    assert_eq!(names(&app.elements(UP)), ["d", "b", "a", "c"]);
    app.on_r();
    assert_eq!(names(&app.elements(UP)), ["a", "c", "b", "d"]);
}

/// Sorting by the name column, forward and reversed.
#[test]
fn sort_by_name_column() {
    let mut app = fresh_app();
    app.on_tick(5 * SECOND, &vec![snap("a", 1, 1), snap("b", 1, 1)]);
    app.on_minus();
    assert_eq!(app.sort_idx(), Some(6));
    assert_eq!(names(&app.elements(UP)), ["a", "b"]);
    app.on_r();
    assert_eq!(names(&app.elements(UP)), ["b", "a"]);
}

/// The sort column cycles through seven columns and the unsorted state in
/// both directions.
#[test]
fn sort_column_cycles() {
    let mut app = fresh_app();
    assert_eq!(app.sort_idx(), None);
    app.on_plus();
    assert_eq!(app.sort_idx(), Some(0));
    for _ in 0..6 {
        app.on_plus();
    }
    assert_eq!(app.sort_idx(), Some(6));
    app.on_plus();
    assert_eq!(app.sort_idx(), None);
    app.on_minus();
    assert_eq!(app.sort_idx(), Some(6));
    for _ in 0..6 {
        app.on_minus();
    }
    assert_eq!(app.sort_idx(), Some(0));
    app.on_minus();
    assert_eq!(app.sort_idx(), None);
}

/// Auto mode hides datasets at or below one byte per second of combined
/// activity.
#[test]
fn auto_hides_idle() {
    let mut app = fresh_app();
    app.on_tick(5 * SECOND, &vec![snap("busy", 0, 0), snap("idle", 0, 0), snap("slow", 0, 0)]);
    app.on_tick(
        6 * SECOND,
        &vec![snap("busy", 2, 0), snap("idle", 0, 0), snap("slow", 1, 0)],
    );
    app.on_a();
    assert_eq!(names(&app.elements(UP)), ["busy"]);
    app.on_a();
    assert_eq!(names(&app.elements(UP)), ["busy", "idle", "slow"]);
}

/// Only names matching the installed pattern are shown; clearing the
/// filter shows everything again.
#[test]
fn name_filter() {
    let mut app = fresh_app();
    app.on_tick(
        5 * SECOND,
        &vec![snap("tank/foo", 1, 1), snap("tank/foobar", 1, 1), snap("zroot", 1, 1)],
    );
    assert!(app.try_set_filter("foo$".to_string()));
    assert_eq!(names(&app.elements(UP)), ["tank/foo"]);
    assert!(app.try_set_filter("foo".to_string()));
    assert_eq!(names(&app.elements(UP)), ["tank/foo", "tank/foobar"]);
    app.clear_filter();
    assert_eq!(names(&app.elements(UP)), ["tank/foo", "tank/foobar", "zroot"]);
}

/// An invalid pattern is rejected and mutates nothing.
#[test]
fn invalid_filter_rejected() {
    let mut app = fresh_app();
    app.on_tick(5 * SECOND, &vec![snap("tank", 1, 1)]);
    assert!(!app.try_set_filter("(".to_string()));
    assert_eq!(names(&app.elements(UP)), ["tank"]);
}

/// The depth limit moves by one component and clears below one.
#[test]
fn depth_key_bindings() {
    let mut app = fresh_app();
    app.on_tick(5 * SECOND, &vec![snap("a", 1, 1), snap("a/b", 1, 1)]);
    app.on_d(true);
    assert_eq!(names(&app.elements(UP)), ["a"]);
    app.on_d(true);
    assert_eq!(names(&app.elements(UP)), ["a", "a/b"]);
    app.on_d(false);
    assert_eq!(names(&app.elements(UP)), ["a"]);
    app.on_d(false);
    assert_eq!(names(&app.elements(UP)), ["a", "a/b"]);
    app.on_d(false);
    assert_eq!(names(&app.elements(UP)), ["a", "a/b"]);
}

/// The quit flag is the session's terminal transition.
#[test]
fn quit_flag() {
    let mut app = fresh_app();
    assert!(!app.should_quit());
    app.on_q();
    assert!(app.should_quit());
}

/// Toggling aggregation through the session makes the next derivation
/// report since-boot rates of the aggregated counters.
#[test]
fn toggle_aggregation_in_session() {
    let mut app = fresh_app();
    app.on_tick(5 * SECOND, &vec![snap("zroot", 10, 1), snap("zroot/a", 20, 2)]);
    app.on_c(
        6 * SECOND,
        &vec![snap("zroot", 11, 1), snap("zroot/a", 22, 2)],
    );
    let els = app.elements(UP);
    assert_eq!(names(&els), ["zroot", "zroot/a"]);
    assert_eq!(els[0].d_nread, 33);
    assert_eq!(els[0].etime_ns, UP);
    assert_eq!(els[1].d_nread, 22);
}

/// Column headers map to their display indices, whitespace trimmed.
#[test]
fn column_headers() {
    assert_eq!(col_idx(&"   r/s".to_string()), Some(0));
    assert_eq!(col_idx(&" kB/s r".to_string()), Some(1));
    assert_eq!(col_idx(&"   w/s".to_string()), Some(2));
    assert_eq!(col_idx(&" kB/s w".to_string()), Some(3));
    assert_eq!(col_idx(&"   d/s".to_string()), Some(4));
    assert_eq!(col_idx(&"kB/s d".to_string()), Some(5));
    assert_eq!(col_idx(&"Dataset".to_string()), Some(6));
    assert_eq!(col_idx(&"bogus".to_string()), None);
    assert_eq!(col_idx(&"R/S".to_string()), None);
}

/// The filter popup edits one character at a time and commits only a
/// pattern that compiles.
#[test]
fn filter_popup_editing() {
    let mut popup = FilterPopup::new();
    assert_eq!(popup.text(), "");
    popup.on_char('f');
    popup.on_char('o');
    popup.on_char('o');
    assert_eq!(popup.text(), "foo");
    popup.on_backspace();
    assert_eq!(popup.text(), "fo");
    let committed = popup.on_enter().unwrap();
    assert_eq!(committed, "fo");
    popup.on_char('(');
    assert!(popup.on_enter().is_none());
    assert_eq!(popup.text(), "fo(");
    popup.on_backspace();
    assert_eq!(popup.on_enter().unwrap(), "fo");
}
