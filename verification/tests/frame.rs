use rustlibraries::frame::{frame_rows, group_counts, group_rows, Aggregation, AggregationKind, FrameError, Key};

#[test]
fn group_rows_keeps_first_seen_order() {
    let keys = vec![
        Key::Text("west".to_string()),
        Key::Text("east".to_string()),
        Key::Text("west".to_string()),
        Key::Text("north".to_string()),
        Key::Text("east".to_string()),
    ];
    let (groups, rows) = group_rows(&keys);
    assert_eq!(
        groups,
        vec![Key::Text("west".to_string()), Key::Text("east".to_string()), Key::Text("north".to_string())]
    );
    assert_eq!(rows, vec![0, 1, 0, 2, 1]);
    assert_eq!(group_counts(&rows, groups.len()), vec![2, 2, 1]);
}

#[test]
fn group_rows_on_integer_and_bool_keys() {
    let (groups, rows) = group_rows(&[Key::I64(20), Key::I64(10), Key::I64(20), Key::I64(10)]);
    assert_eq!(groups, vec![Key::I64(20), Key::I64(10)]);
    assert_eq!(rows, vec![0, 1, 0, 1]);
    let (groups, rows) = group_rows(&[Key::Bool(true), Key::Bool(true)]);
    assert_eq!(groups, vec![Key::Bool(true)]);
    assert_eq!(rows, vec![0, 0]);
    let (groups, rows) = group_rows(&[]);
    assert!(groups.is_empty() && rows.is_empty());
}

#[test]
fn frame_rows_checks_columns() {
    let names = vec!["key".to_string(), "value".to_string()];
    assert_eq!(frame_rows(&names, &[3, 3]), Ok(3));
    assert_eq!(
        frame_rows(&names, &[3, 2]),
        Err(FrameError::LengthMismatch { column: "value".to_string(), expected: 3, actual: 2 })
    );
    let dup = vec!["a".to_string(), "a".to_string()];
    assert_eq!(frame_rows(&dup, &[1, 2]), Err(FrameError::DuplicateColumn("a".to_string())));
    assert_eq!(frame_rows(&[], &[]), Err(FrameError::EmptyFrame));
}

#[test]
fn aggregation_constructors() {
    let c = Aggregation::count("rows");
    assert_eq!(c, Aggregation { column: None, kind: AggregationKind::Count, output: "rows".to_string() });
    let s = Aggregation::sum("sales", "sales_sum");
    assert_eq!(s.column.as_deref(), Some("sales"));
    assert_eq!(s.kind, AggregationKind::Sum);
    assert_eq!(s.output, "sales_sum");
    assert_eq!(Aggregation::mean("x", "m").kind, AggregationKind::Mean);
    assert_eq!(Aggregation::min("x", "m").kind, AggregationKind::Min);
    assert_eq!(Aggregation::max("x", "m").kind, AggregationKind::Max);
}

#[test]
fn frame_error_messages() {
    assert_eq!(
        FrameError::LengthMismatch { column: "value".to_string(), expected: 3, actual: 2 }.message(),
        "column value has length 2, expected 3"
    );
    assert_eq!(FrameError::EmptyFrame.message(), "frame requires at least one column");
    assert_eq!(FrameError::DuplicateColumn("a".to_string()).message(), "duplicate column: a");
    assert_eq!(FrameError::MissingColumn("a".to_string()).message(), "missing column: a");
    assert_eq!(FrameError::UnsupportedKeyColumn("x".to_string()).message(), "column x cannot be used as a group key");
    assert_eq!(FrameError::NonNumericColumn("x".to_string()).message(), "column x is not numeric");
}
