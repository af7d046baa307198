//! End to end: raw sheet grids through the normalizer, the merger, and
//! both reporting engines.
use duty_tracker::history::history;
use duty_tracker::normalize::normalize_sheet;
use duty_tracker::stats::{calculate, Ratio};
use duty_tracker::table::merge_snapshots;
use duty_tracker::time::Timestamp;

fn row(cells: &[&str]) -> Vec<String> {
    cells.iter().map(|c| c.to_string()).collect()
}

fn sheet(stamp: &str, people: &[&[&str]]) -> Vec<Vec<String>> {
    let mut grid = vec![row(&["", stamp]), row(&[]), row(&[])];
    for p in people {
        grid.push(row(p));
    }
    grid
}

#[test]
fn sheets_to_reports() {
    let keyword = "frei".to_string();
    let grids = vec![
        sheet(
            "05.01.2024 17:00",
            &[&["Alice", "", "", ""], &["Bob", "frei", "", "away until Monday"]],
        ),
        sheet(
            "06.01.2024 10:00",
            &[&["Alice", "", "", ""], &["Bob", "frei", "", ""]],
        ),
        sheet("08.01.2024 09:00", &[&["Alice", "", "", ""]]),
    ];
    let snapshots: Vec<_> = grids
        .iter()
        .map(|g| normalize_sheet(g, &keyword).unwrap())
        .collect();
    let table = merge_snapshots(&snapshots).unwrap();

    let stats = calculate(&table);
    assert_eq!(stats.len(), 2);
    assert_eq!(stats[0].name, "Alice");
    assert_eq!(stats[0].total_on_duty, Some(Ratio { num: 3, den: 3 }));
    assert_eq!(stats[0].weekend_on_duty, Some(Ratio { num: 1, den: 1 }));
    assert_eq!(stats[0].off_duty_with_note, None);
    assert_eq!(stats[1].name, "Bob");
    assert_eq!(stats[1].total_on_duty, Some(Ratio { num: 0, den: 2 }));
    assert_eq!(stats[1].weekend_on_duty, Some(Ratio { num: 0, den: 1 }));
    // Bob is off duty twice but left a note only on the Friday sheet.
    assert_eq!(stats[1].off_duty_with_note, Some(Ratio { num: 1, den: 2 }));

    let rows = history(&table, 12, None);
    assert_eq!(rows.len(), 3);
    assert_eq!(
        rows.iter().map(|r| r.date).collect::<Vec<_>>(),
        vec![
            Timestamp { year: 2024, month: 1, day: 5, hour: 17, minute: 0 },
            Timestamp { year: 2024, month: 1, day: 6, hour: 10, minute: 0 },
            Timestamp { year: 2024, month: 1, day: 8, hour: 9, minute: 0 },
        ]
    );
    assert_eq!(
        rows.iter().map(|r| r.total_on_duty).collect::<Vec<_>>(),
        vec![1, 1, 1]
    );
    assert!(rows.iter().all(|r| r.minimum == 12));
}
