//! Parsing textual counter blocks.
use ztop::assemble::AssembleError;
use ztop::objset::{parse_objset, parse_objset_row};
use ztop::assemble::RawValue;
use ztop::snapshot::Snapshot;

fn sample_objset() -> &'static str {
    "28 1 0x01 7 2160 5156962179 648086076730177\n\
name                            type data\n\
dataset_name                    7    rpool/ROOT/default\n\
writes                          4    5\n\
nwritten                        4    100\n\
reads                           4    8\n\
nread                           4    160\n\
nunlinks                        4    7\n\
nunlinked                       4    7\n"
}

#[test]
fn objset_parsing() {
    let snap = parse_objset(sample_objset()).unwrap();
    assert_eq!("rpool/ROOT/default", snap.name.as_str());
    assert_eq!(8, snap.reads);
    assert_eq!(5, snap.writes);
    assert_eq!(160, snap.nread);
    assert_eq!(7, snap.nunlinks);
    assert_eq!(7, snap.nunlinked);
    assert_eq!(100, snap.nwritten);
}

#[test]
fn objset_try_from() {
    let snap = Snapshot::try_from(sample_objset()).unwrap();
    assert_eq!("rpool/ROOT/default", snap.name.as_str());
    assert_eq!(8, snap.reads);
    assert_eq!(5, snap.writes);
    assert_eq!(160, snap.nread);
    assert_eq!(7, snap.nunlinks);
    assert_eq!(7, snap.nunlinked);
    assert_eq!(100, snap.nwritten);
}

/// A row without its three columns fails the block.
#[test]
fn malformed_row_is_an_error() {
    let text = "header\nname type data\nnread\n";
    assert!(matches!(parse_objset(text), Err(AssembleError::MalformedRow)));
}

/// A block that never names required counters is a malformed record.
#[test]
fn missing_required_field_is_an_error() {
    let text = "header\nname type data\ndataset_name 7 rpool\nnread 4 1\n";
    assert!(matches!(parse_objset(text), Err(AssembleError::MalformedRecord)));
}

/// A value reads as a counter exactly when it is an unsigned decimal that
/// fits; anything else stays a string.
#[test]
fn row_value_forms() {
    let (name, v) = parse_objset_row("writes 4 17").unwrap();
    assert_eq!(name, "writes");
    assert!(matches!(v, RawValue::U64(17)));

    let (_, v) = parse_objset_row("writes 4 +5").unwrap();
    assert!(matches!(v, RawValue::U64(5)));

    let (_, v) = parse_objset_row("writes 4 18446744073709551615").unwrap();
    assert!(matches!(v, RawValue::U64(u64::MAX)));

    let (_, v) = parse_objset_row("writes 4 18446744073709551616").unwrap();
    assert!(matches!(v, RawValue::Str(_)));

    let (_, v) = parse_objset_row("writes 4 12x").unwrap();
    assert!(matches!(v, RawValue::Str(_)));

    let (name, v) = parse_objset_row("dataset_name 7 rpool/ROOT").unwrap();
    assert_eq!(name, "dataset_name");
    assert!(matches!(v, RawValue::Str(s) if s == "rpool/ROOT"));

    assert!(parse_objset_row("  ").is_none());
    assert!(parse_objset_row("writes 4").is_none());
}
