use chopper::chopper::merge::{Action, Merger};
use chopper::chopper::types::{FieldValue, Row, TimestampRange};
use chopper::error::Error;

fn row(timestamp: u64, mark: i32) -> Row {
    Row { timestamp, field_values: vec![FieldValue::Int(mark)] }
}

fn mark_of(row: &Row) -> i32 {
    match row.field_values[0] {
        FieldValue::Int(mark) => mark,
        _ => panic!("a row without its mark"),
    }
}

/// Runs a merger over rows held in memory; returns, for each row handed on,
/// its source, its time and its mark.
fn run(inputs: Vec<Vec<Row>>, range: TimestampRange) -> Vec<(usize, u64, i32)> {
    let mut inputs: Vec<std::collections::VecDeque<Row>> =
        inputs.into_iter().map(|rows| rows.into_iter().collect()).collect();
    let mut merger = Merger::new(inputs.len(), range);
    let mut out = Vec::new();
    loop {
        match merger.next() {
            Action::Read { source } => {
                merger.supply(source, inputs[source].pop_front()).unwrap();
            }
            Action::Forward { source, row } => out.push((source, row.timestamp, mark_of(&row))),
            Action::Discard { .. } => {}
            Action::Close { .. } => {}
            Action::Finish => break,
        }
    }
    out
}

fn unbounded() -> TimestampRange {
    TimestampRange { begin: None, end: None }
}

#[test]
fn merger_starts_by_asking_for_every_source() {
    let mut merger = Merger::new(3, unbounded());
    assert_eq!(merger.width(), 3);
    assert!(matches!(merger.next(), Action::Read { source: 0 }));
    assert!(matches!(merger.next(), Action::Read { source: 0 }));
    merger.supply(0, Some(row(5, 0))).unwrap();
    assert!(matches!(merger.next(), Action::Read { source: 1 }));
    merger.supply(1, None).unwrap();
    assert!(matches!(merger.next(), Action::Read { source: 2 }));
    merger.supply(2, Some(row(4, 2))).unwrap();
    match merger.next() {
        Action::Forward { source, row } => {
            assert_eq!(source, 2);
            assert_eq!(row.timestamp, 4);
        }
        other => panic!("unexpected {:?}", other),
    }
    assert!(matches!(merger.next(), Action::Read { source: 2 }));
}

#[test]
fn merger_without_sources_is_finished() {
    let mut merger = Merger::new(0, unbounded());
    assert!(matches!(merger.next(), Action::Finish));
    assert!(matches!(merger.next(), Action::Finish));
}

#[test]
fn merger_refuses_rows_that_it_does_not_wait_for() {
    let mut merger = Merger::new(2, unbounded());
    assert_eq!(merger.supply(2, Some(row(1, 0))), Err(Error::NotAwaited(2)));
    merger.supply(1, Some(row(1, 0))).unwrap();
    assert_eq!(merger.supply(1, Some(row(2, 0))), Err(Error::NotAwaited(1)));
    assert_eq!(merger.supply(1, None), Err(Error::NotAwaited(1)));
    merger.supply(0, None).unwrap();
    assert_eq!(merger.supply(0, Some(row(2, 0))), Err(Error::NotAwaited(0)));
    match merger.next() {
        Action::Forward { source, row } => {
            assert_eq!(source, 1);
            assert_eq!(row.timestamp, 1);
        }
        other => panic!("unexpected {:?}", other),
    }
}

#[test]
fn merger_drops_early_rows_and_closes_late_sources() {
    let mut merger = Merger::new(1, TimestampRange { begin: Some(20), end: Some(40) });
    merger.supply(0, Some(row(10, 0))).unwrap();
    assert!(matches!(merger.next(), Action::Discard { source: 0, .. }));
    assert!(matches!(merger.next(), Action::Read { source: 0 }));
    merger.supply(0, Some(row(20, 0))).unwrap();
    assert!(matches!(merger.next(), Action::Forward { source: 0, .. }));
    merger.supply(0, Some(row(41, 0))).unwrap();
    assert!(matches!(merger.next(), Action::Close { source: 0, .. }));
    assert!(matches!(merger.next(), Action::Finish));
    assert_eq!(merger.supply(0, Some(row(30, 0))), Err(Error::NotAwaited(0)));
}

#[test]
fn merge_of_two_sources() {
    let a = vec![row(10, 1), row(30, 2), row(50, 3)];
    let b = vec![row(20, 4), row(30, 5), row(40, 6)];
    assert_eq!(
        run(vec![a, b], unbounded()),
        vec![(0, 10, 1), (1, 20, 4), (0, 30, 2), (1, 30, 5), (1, 40, 6), (0, 50, 3)]
    );
}

#[test]
fn merge_of_two_sources_inside_a_window() {
    let a = vec![row(10, 1), row(30, 2), row(50, 3)];
    let b = vec![row(20, 4), row(30, 5), row(40, 6)];
    assert_eq!(
        run(vec![a, b], TimestampRange { begin: Some(20), end: Some(40) }),
        vec![(1, 20, 4), (0, 30, 2), (1, 30, 5), (1, 40, 6)]
    );
}

#[test]
fn merge_prefers_the_earlier_source_at_a_tie() {
    let a = vec![row(5, 1), row(5, 2)];
    let b = vec![row(5, 3)];
    let c = vec![row(5, 4), row(6, 5)];
    assert_eq!(
        run(vec![a.clone(), b.clone(), c.clone()], unbounded()),
        vec![(0, 5, 1), (0, 5, 2), (1, 5, 3), (2, 5, 4), (2, 6, 5)]
    );
    assert_eq!(
        run(vec![c, b, a], unbounded()),
        vec![(0, 5, 4), (1, 5, 3), (2, 5, 1), (2, 5, 2), (0, 6, 5)]
    );
}

#[test]
fn merge_keeps_the_order_of_each_source() {
    let a = vec![row(1, 1), row(1, 2), row(3, 3), row(3, 4)];
    let b = vec![row(2, 5), row(2, 6), row(3, 7)];
    let merged = run(vec![a, b], unbounded());
    let from_a: Vec<i32> = merged.iter().filter(|e| e.0 == 0).map(|e| e.2).collect();
    let from_b: Vec<i32> = merged.iter().filter(|e| e.0 == 1).map(|e| e.2).collect();
    assert_eq!(from_a, vec![1, 2, 3, 4]);
    assert_eq!(from_b, vec![5, 6, 7]);
    let times: Vec<u64> = merged.iter().map(|e| e.1).collect();
    assert_eq!(times, vec![1, 1, 2, 2, 3, 3, 3]);
}

#[test]
fn merge_with_empty_sources() {
    assert_eq!(run(vec![], unbounded()), vec![]);
    assert_eq!(run(vec![vec![], vec![]], unbounded()), vec![]);
    assert_eq!(
        run(vec![vec![], vec![row(1, 1)], vec![]], unbounded()),
        vec![(1, 1, 1)]
    );
}

#[test]
fn merge_keeps_rows_at_the_bounds_of_the_window() {
    let a = vec![row(19, 1), row(20, 2), row(40, 3), row(41, 4)];
    assert_eq!(
        run(vec![a], TimestampRange { begin: Some(20), end: Some(40) }),
        vec![(0, 20, 2), (0, 40, 3)]
    );
}

#[test]
fn merge_drops_early_rows_without_touching_other_sources() {
    let a = vec![row(1, 1), row(2, 2), row(30, 3)];
    let b = vec![row(25, 4), row(26, 5)];
    assert_eq!(
        run(vec![a, b], TimestampRange { begin: Some(25), end: None }),
        vec![(1, 25, 4), (1, 26, 5), (0, 30, 3)]
    );
}

#[test]
fn merge_ends_only_the_source_that_went_past_the_window() {
    let a = vec![row(10, 1), row(50, 2), row(60, 3)];
    let b = vec![row(20, 4), row(30, 5), row(40, 6)];
    assert_eq!(
        run(vec![a, b], TimestampRange { begin: None, end: Some(40) }),
        vec![(0, 10, 1), (1, 20, 4), (1, 30, 5), (1, 40, 6)]
    );
}

#[test]
fn merge_does_not_look_past_a_late_row() {
    let a = vec![row(50, 1), row(30, 2)];
    let b = vec![row(20, 3)];
    assert_eq!(
        run(vec![a, b], TimestampRange { begin: None, end: Some(40) }),
        vec![(1, 20, 3)]
    );
}
