use duty_tracker::snapshot::{DutyRecord, Snapshot};
use duty_tracker::table::{merge_snapshots, DutyTable, MergeError};
use duty_tracker::time::Timestamp;

fn ts(year: u16, month: u8, day: u8, hour: u8, minute: u8) -> Timestamp {
    Timestamp { year, month, day, hour, minute }
}

fn snap(date: Timestamp, people: &[(&str, bool, bool)]) -> Snapshot {
    let mut s = Snapshot::new(date);
    for (name, state, note) in people {
        s.upsert(name.to_string(), DutyRecord { state: *state, note: *note });
    }
    s
}

fn row_index(t: &DutyTable, name: &str) -> usize {
    t.names.iter().position(|n| n == name).unwrap()
}

fn col_index(t: &DutyTable, date: &Timestamp) -> usize {
    t.dates.iter().position(|d| d == date).unwrap()
}

#[test]
fn merging_nothing_is_an_error() {
    assert!(matches!(merge_snapshots(&vec![]), Err(MergeError::EmptyInput)));
}

#[test]
fn rows_are_the_union_of_all_names() {
    let a = ts(2024, 1, 5, 17, 0);
    let b = ts(2024, 1, 6, 12, 0);
    let t = merge_snapshots(&vec![
        snap(a, &[("Alice", true, false), ("Bob", false, true)]),
        snap(b, &[("Alice", true, false), ("Carol", true, false)]),
    ])
    .unwrap();
    let mut names = t.names.clone();
    names.sort();
    assert_eq!(
        names,
        vec!["Alice".to_string(), "Bob".to_string(), "Carol".to_string()]
    );
    assert_eq!(t.dates.len(), 2);
}

#[test]
fn absent_cells_stay_absent() {
    let a = ts(2024, 1, 5, 17, 0);
    let b = ts(2024, 1, 6, 12, 0);
    let t = merge_snapshots(&vec![
        snap(a, &[("Alice", true, false), ("Bob", false, true)]),
        snap(b, &[("Alice", false, false)]),
    ])
    .unwrap();
    let bob = row_index(&t, "Bob");
    let alice = row_index(&t, "Alice");
    let ca = col_index(&t, &a);
    let cb = col_index(&t, &b);
    assert_eq!(t.cells[bob][ca], Some(DutyRecord { state: false, note: true }));
    assert_eq!(t.cells[bob][cb], None);
    assert_eq!(t.cells[alice][ca], Some(DutyRecord { state: true, note: false }));
    assert_eq!(t.cells[alice][cb], Some(DutyRecord { state: false, note: false }));
}

#[test]
fn merging_twice_gives_the_same_table() {
    let snaps = vec![
        snap(ts(2024, 1, 5, 17, 0), &[("Alice", true, false), ("Bob", false, true)]),
        snap(ts(2024, 1, 6, 12, 0), &[("Carol", true, false)]),
    ];
    let t1 = merge_snapshots(&snaps).unwrap();
    let t2 = merge_snapshots(&snaps).unwrap();
    assert_eq!(t1.names, t2.names);
    assert_eq!(t1.dates, t2.dates);
    assert_eq!(t1.cells, t2.cells);
}

#[test]
fn merging_in_reverse_order_agrees_up_to_ordering() {
    let s1 = snap(ts(2024, 1, 5, 17, 0), &[("Alice", true, false), ("Bob", false, true)]);
    let s2 = snap(ts(2024, 1, 6, 12, 0), &[("Carol", true, false), ("Alice", false, false)]);
    let fwd = merge_snapshots(&vec![
        snap(ts(2024, 1, 5, 17, 0), &[("Alice", true, false), ("Bob", false, true)]),
        snap(ts(2024, 1, 6, 12, 0), &[("Carol", true, false), ("Alice", false, false)]),
    ])
    .unwrap();
    let rev = merge_snapshots(&vec![s2, s1]).unwrap();
    let mut n1 = fwd.names.clone();
    let mut n2 = rev.names.clone();
    n1.sort();
    n2.sort();
    assert_eq!(n1, n2);
    let mut d1 = fwd.dates.clone();
    let mut d2 = rev.dates.clone();
    d1.sort_by_key(|d| (d.year, d.month, d.day, d.hour, d.minute));
    d2.sort_by_key(|d| (d.year, d.month, d.day, d.hour, d.minute));
    assert_eq!(d1, d2);
    for name in &n1 {
        let r1 = row_index(&fwd, name);
        let r2 = row_index(&rev, name);
        for date in &d1 {
            let c1 = col_index(&fwd, date);
            let c2 = col_index(&rev, date);
            assert_eq!(fwd.cells[r1][c1], rev.cells[r2][c2]);
        }
    }
}

#[test]
fn later_snapshot_of_a_duplicate_date_overwrites_the_column() {
    let d = ts(2024, 1, 5, 17, 0);
    let t = merge_snapshots(&vec![
        snap(d, &[("Alice", true, false)]),
        snap(d, &[("Alice", false, true)]),
    ])
    .unwrap();
    assert_eq!(t.dates.len(), 1);
    let alice = row_index(&t, "Alice");
    assert_eq!(t.cells[alice][0], Some(DutyRecord { state: false, note: true }));
}

#[test]
fn sorting_by_date_orders_columns_and_keeps_cells() {
    let late = ts(2024, 1, 8, 9, 0);
    let early = ts(2024, 1, 5, 17, 0);
    let mid = ts(2024, 1, 6, 12, 0);
    let t = merge_snapshots(&vec![
        snap(late, &[("Alice", true, false)]),
        snap(early, &[("Alice", false, false)]),
        snap(mid, &[("Alice", true, true)]),
    ])
    .unwrap();
    let s = t.sorted_by_date();
    assert_eq!(s.dates, vec![early, mid, late]);
    let alice = row_index(&s, "Alice");
    assert_eq!(s.cells[alice][0], Some(DutyRecord { state: false, note: false }));
    assert_eq!(s.cells[alice][1], Some(DutyRecord { state: true, note: true }));
    assert_eq!(s.cells[alice][2], Some(DutyRecord { state: true, note: false }));
}

#[test]
fn snapshot_lookup_follows_the_last_update() {
    let mut s = Snapshot::new(ts(2024, 1, 5, 17, 0));
    s.upsert("Alice".to_string(), DutyRecord { state: true, note: false });
    s.upsert("Alice".to_string(), DutyRecord { state: false, note: true });
    assert_eq!(
        s.get_record(&"Alice".to_string()),
        Some(DutyRecord { state: false, note: true })
    );
    assert_eq!(s.get_record(&"Bob".to_string()), None);
    assert_eq!(s.names.len(), 1);
}
