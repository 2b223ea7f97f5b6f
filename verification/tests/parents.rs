//! The ancestor-name scan.
use ztop::datasource::DataSource;

/// The empty string is not a valid dataset, but make sure nothing bad
/// happens anyway
#[test]
fn app_empty() {
    let ds = "";
    let actual = DataSource::with_parents(ds);
    assert!(actual.is_empty());
}

#[test]
fn pool() {
    let ds = "zroot";
    let expected = ["zroot"];
    let actual = DataSource::with_parents(ds);
    assert_eq!(&expected[..], &actual[..]);
}

#[test]
fn one_level() {
    let ds = "zroot/ROOT";
    let expected = ["zroot", "zroot/ROOT"];
    let actual = DataSource::with_parents(ds);
    assert_eq!(&expected[..], &actual[..]);
}

#[test]
fn two_levels() {
    let ds = "zroot/ROOT/13.0-RELEASE";
    let expected = ["zroot", "zroot/ROOT", "zroot/ROOT/13.0-RELEASE"];
    let actual = DataSource::with_parents(ds);
    assert_eq!(&expected[..], &actual[..]);
}
