use duty_tracker::history::{history, HistoryRow, MonthFilter};
use duty_tracker::snapshot::{DutyRecord, Snapshot};
use duty_tracker::stats::{calculate, Ratio};
use duty_tracker::table::{merge_snapshots, DutyTable};
use duty_tracker::time::Timestamp;

fn ts(year: u16, month: u8, day: u8, hour: u8, minute: u8) -> Timestamp {
    Timestamp { year, month, day, hour, minute }
}

fn snap(date: Timestamp, people: &[(&str, bool, bool)]) -> Snapshot {
    let mut s = Snapshot::new(date);
    for (name, state, note) in people {
        s.upsert(name.to_string(), DutyRecord { state: *state, note: *note });
    }
    s
}

/// Three snapshots: a Friday afternoon, a Saturday, and a Monday. Alice is
/// on duty throughout; Bob misses the Monday snapshot.
fn scenario_table() -> DutyTable {
    merge_snapshots(&vec![
        snap(ts(2024, 1, 5, 17, 0), &[("Alice", true, false), ("Bob", true, false)]),
        snap(ts(2024, 1, 6, 10, 0), &[("Alice", true, false), ("Bob", false, true)]),
        snap(ts(2024, 1, 8, 9, 0), &[("Alice", true, false)]),
    ])
    .unwrap()
}

#[test]
fn scenario_statistics() {
    let rows = calculate(&scenario_table());
    assert_eq!(rows.len(), 2);
    // Alice: on duty in all three snapshots; the only weekend cell is the
    // Saturday one, since Friday 17:00 is before the 18:00 window; no
    // off-duty cell at all, so that ratio is undefined.
    assert_eq!(rows[0].name, "Alice");
    assert_eq!(rows[0].total_on_duty, Some(Ratio { num: 3, den: 3 }));
    assert_eq!(rows[0].weekend_on_duty, Some(Ratio { num: 1, den: 1 }));
    assert_eq!(rows[0].off_duty_with_note, None);
    // Bob: two cells only, on duty in one; off duty once, with a note.
    assert_eq!(rows[1].name, "Bob");
    assert_eq!(rows[1].total_on_duty, Some(Ratio { num: 1, den: 2 }));
    assert_eq!(rows[1].weekend_on_duty, Some(Ratio { num: 0, den: 1 }));
    assert_eq!(rows[1].off_duty_with_note, Some(Ratio { num: 1, den: 1 }));
}

#[test]
fn statistics_sort_descending_by_total_ratio() {
    let t = merge_snapshots(&vec![
        snap(ts(2024, 1, 1, 8, 0), &[("Low", false, false), ("High", true, false)]),
        snap(ts(2024, 1, 2, 8, 0), &[("Low", true, false), ("High", true, false)]),
    ])
    .unwrap();
    let rows = calculate(&t);
    assert_eq!(rows[0].name, "High");
    assert_eq!(rows[1].name, "Low");
}

#[test]
fn equal_ratios_keep_table_row_order() {
    let t = merge_snapshots(&vec![snap(
        ts(2024, 1, 1, 8, 0),
        &[("Alice", true, false), ("Bob", true, false), ("Carol", true, false)],
    )])
    .unwrap();
    let rows = calculate(&t);
    assert_eq!(rows[0].name, "Alice");
    assert_eq!(rows[1].name, "Bob");
    assert_eq!(rows[2].name, "Carol");
}

#[test]
fn undefined_total_sorts_below_defined_totals() {
    // A hand-built table: one person with no cells at all.
    let t = DutyTable {
        names: vec!["Ghost".to_string(), "Worker".to_string()],
        dates: vec![ts(2024, 1, 1, 8, 0)],
        cells: vec![vec![None], vec![Some(DutyRecord { state: false, note: false })]],
    };
    let rows = calculate(&t);
    assert_eq!(rows[0].name, "Worker");
    assert_eq!(rows[0].total_on_duty, Some(Ratio { num: 0, den: 1 }));
    assert_eq!(rows[1].name, "Ghost");
    assert_eq!(rows[1].total_on_duty, None);
    assert_eq!(rows[1].weekend_on_duty, None);
    assert_eq!(rows[1].off_duty_with_note, None);
}

#[test]
fn full_history_has_one_ascending_row_per_date() {
    let t = merge_snapshots(&vec![
        snap(ts(2024, 1, 8, 9, 0), &[("Alice", true, false), ("Bob", true, false)]),
        snap(ts(2024, 1, 5, 17, 0), &[("Alice", true, false), ("Bob", false, false)]),
        snap(ts(2024, 1, 6, 10, 0), &[("Alice", false, false)]),
        snap(ts(2024, 1, 7, 10, 0), &[("Alice", true, false)]),
        snap(ts(2024, 1, 9, 10, 0), &[("Bob", true, false)]),
    ])
    .unwrap();
    let rows = history(&t, 12, None);
    assert_eq!(rows.len(), 5);
    for w in rows.windows(2) {
        assert!(w[0].date.before(&w[1].date));
    }
    for r in &rows {
        assert_eq!(r.minimum, 12);
    }
    assert_eq!(
        rows[0],
        HistoryRow { date: ts(2024, 1, 5, 17, 0), total_on_duty: 1, minimum: 12 }
    );
    assert_eq!(rows[1].total_on_duty, 0);
    assert_eq!(rows[2].total_on_duty, 1);
    assert_eq!(rows[3].total_on_duty, 2);
    assert_eq!(rows[4].total_on_duty, 1);
}

#[test]
fn month_filter_excludes_both_boundaries() {
    let t = merge_snapshots(&vec![
        snap(ts(2024, 3, 1, 0, 0), &[("Alice", true, false)]),
        snap(ts(2024, 3, 1, 0, 1), &[("Alice", true, false)]),
        snap(ts(2024, 4, 1, 0, 0), &[("Alice", true, false)]),
    ])
    .unwrap();
    let rows = history(&t, 12, Some(MonthFilter { year: 2024, month: 3 }));
    assert_eq!(rows.len(), 1);
    assert_eq!(rows[0].date, ts(2024, 3, 1, 0, 1));
}

#[test]
fn december_filter_wraps_into_the_next_year() {
    let t = merge_snapshots(&vec![
        snap(ts(2023, 12, 15, 12, 0), &[("Alice", true, false)]),
        snap(ts(2023, 12, 1, 0, 0), &[("Alice", true, false)]),
        snap(ts(2024, 1, 1, 0, 0), &[("Alice", true, false)]),
        snap(ts(2023, 12, 31, 23, 59), &[("Alice", true, false)]),
    ])
    .unwrap();
    let rows = history(&t, 3, Some(MonthFilter { year: 2023, month: 12 }));
    assert_eq!(rows.len(), 2);
    assert_eq!(rows[0].date, ts(2023, 12, 15, 12, 0));
    assert_eq!(rows[1].date, ts(2023, 12, 31, 23, 59));
}

#[test]
fn absent_cells_add_nothing_to_the_head_count() {
    let t = merge_snapshots(&vec![
        snap(ts(2024, 1, 5, 17, 0), &[("Alice", true, false), ("Bob", true, false)]),
        snap(ts(2024, 1, 6, 10, 0), &[("Alice", true, false)]),
    ])
    .unwrap();
    let rows = history(&t, 1, None);
    assert_eq!(rows[0].total_on_duty, 2);
    assert_eq!(rows[1].total_on_duty, 1);
}

#[test]
fn history_filter_consistency_check() {
    let both = duty_tracker::cli::History {
        print: false,
        export: false,
        year: Some(2024),
        month: Some(3),
    };
    let neither = duty_tracker::cli::History { print: true, export: true, year: None, month: None };
    let only_year = duty_tracker::cli::History {
        print: false,
        export: false,
        year: Some(2024),
        month: None,
    };
    assert!(both.check_filter_consistent());
    assert!(neither.check_filter_consistent());
    assert!(!only_year.check_filter_consistent());
}
