use duty_tracker::normalize::{normalize_sheet, NormalizeError};
use duty_tracker::time::Timestamp;

fn row(cells: &[&str]) -> Vec<String> {
    cells.iter().map(|c| c.to_string()).collect()
}

/// A sheet with the given timestamp text and person rows, padded with the
/// two unused heading rows.
fn sheet(stamp: &str, people: &[&[&str]]) -> Vec<Vec<String>> {
    let mut grid = vec![row(&["", stamp]), row(&[]), row(&[])];
    for p in people {
        grid.push(row(p));
    }
    grid
}

#[test]
fn normalizes_a_small_sheet() {
    let grid = sheet(
        "05.01.2024 17:00",
        &[
            &["Alice", "", "", ""],
            &["Bob", "off", "", " sick "],
            &["Carol", "on", "", "   "],
        ],
    );
    let snap = normalize_sheet(&grid, &"off".to_string()).unwrap();
    assert_eq!(
        snap.date,
        Timestamp { year: 2024, month: 1, day: 5, hour: 17, minute: 0 }
    );
    assert_eq!(snap.names, vec!["Alice".to_string(), "Bob".to_string(), "Carol".to_string()]);
    // Alice: empty status is on duty, empty note.
    assert!(snap.records[0].state);
    assert!(!snap.records[0].note);
    // Bob: the exact keyword means off duty; the note has content.
    assert!(!snap.records[1].state);
    assert!(snap.records[1].note);
    // Carol: any other status text is on duty; whitespace is no note.
    assert!(snap.records[2].state);
    assert!(!snap.records[2].note);
}

#[test]
fn keyword_match_is_exact_and_case_sensitive() {
    let grid = sheet(
        "05.01.2024 17:00",
        &[&["Alice", "Off", "", ""], &["Bob", "off ", "", ""], &["Carol", "off", "", ""]],
    );
    let snap = normalize_sheet(&grid, &"off".to_string()).unwrap();
    assert!(snap.records[0].state);
    assert!(snap.records[1].state);
    assert!(!snap.records[2].state);
}

#[test]
fn short_rows_read_as_empty_cells() {
    let grid = sheet("05.01.2024 17:00", &[&["Alice", "off"], &["Bob"]]);
    let snap = normalize_sheet(&grid, &"off".to_string()).unwrap();
    assert!(!snap.records[0].state);
    assert!(!snap.records[0].note);
    assert!(snap.records[1].state);
    assert!(!snap.records[1].note);
}

#[test]
fn later_duplicate_row_wins() {
    let grid = sheet(
        "05.01.2024 17:00",
        &[&["Alice", "off", "", ""], &["Alice", "", "", "back"]],
    );
    let snap = normalize_sheet(&grid, &"off".to_string()).unwrap();
    assert_eq!(snap.names, vec!["Alice".to_string()]);
    assert!(snap.records[0].state);
    assert!(snap.records[0].note);
}

#[test]
fn sheet_without_people_is_an_empty_snapshot() {
    let grid = sheet("05.01.2024 17:00", &[]);
    let snap = normalize_sheet(&grid, &"off".to_string()).unwrap();
    assert!(snap.names.is_empty());
}

#[test]
fn missing_timestamp_cell_is_fatal() {
    assert!(matches!(
        normalize_sheet(&vec![], &"off".to_string()),
        Err(NormalizeError::MissingTimestamp)
    ));
    assert!(matches!(
        normalize_sheet(&vec![row(&["only one cell"])], &"off".to_string()),
        Err(NormalizeError::MissingTimestamp)
    ));
}

#[test]
fn unparseable_timestamp_is_fatal() {
    let grid = sheet("sometime in January", &[&["Alice", "", "", ""]]);
    assert!(matches!(
        normalize_sheet(&grid, &"off".to_string()),
        Err(NormalizeError::InvalidTimestamp)
    ));
}

#[test]
fn empty_person_name_is_fatal_and_names_the_row() {
    let grid = sheet(
        "05.01.2024 17:00",
        &[&["Alice", "", "", ""], &["", "off", "", ""], &["Bob", "", "", ""]],
    );
    assert!(matches!(
        normalize_sheet(&grid, &"off".to_string()),
        Err(NormalizeError::EmptyName { row: 4 })
    ));
}
