//! The snapshot normalizer: turns one parsed spreadsheet grid of cell texts
//! into a canonical dated snapshot.
//!
//! Grid layout: the cell in the first row, second column holds the capture
//! timestamp; the person-data region starts three rows below the sheet origin
//! and uses four logical columns per row: name, status text, an unused
//! column, and note text. A missing cell reads as empty text.
use crate::seqs::dedup_first;
use crate::snapshot::DutyRecord;
use crate::snapshot::Snapshot;
use crate::time::parse_timestamp;
use crate::time::parse_timestamp_spec;
use crate::time::Timestamp;
use vstd::prelude::*;

verus! {

/// Row index where the person-data region starts.
pub const DATA_ROW_OFFSET: usize = 3;

/// Why a sheet cannot become a snapshot. Each malformed sheet is fatal for
/// the whole run: a partially ingested roster is worse than none.
#[derive(Clone, Copy, PartialEq, Eq, Structural, Debug)]
pub enum NormalizeError {
    /// The sheet has no cell in the first row, second column.
    MissingTimestamp,
    /// The timestamp cell does not hold `day.month.year hour:minute`.
    InvalidTimestamp,
    /// The person row at this grid row index has an empty name cell.
    EmptyName { row: usize },
}

/// The text of cell `(r, c)`; empty when the grid has no such cell.
pub open spec fn grid_cell(g: Seq<Vec<String>>, r: int, c: int) -> Seq<char> {
    if 0 <= r < g.len() && 0 <= c < g[r]@.len() {
        g[r]@[c]@
    } else {
        Seq::empty()
    }
}

pub open spec fn is_space(c: char) -> bool {
    c == ' ' || c == '\t' || c == '\n' || c == '\r' || c == '\u{000B}' || c == '\u{000C}'
}

/// Whether the text is non-empty after trimming whitespace.
pub open spec fn has_content(s: Seq<char>) -> bool {
    exists|i: int| 0 <= i < s.len() && !is_space(s[i])
}

/// The grid holds a timestamp cell at row 0, column 1.
pub open spec fn has_timestamp_cell(g: Seq<Vec<String>>) -> bool {
    g.len() > 0 && g[0]@.len() > 1
}

pub open spec fn sheet_timestamp(g: Seq<Vec<String>>) -> Option<Timestamp> {
    parse_timestamp_spec(grid_cell(g, 0, 1))
}

/// The name cells of the person-data region, in row order.
pub open spec fn data_names(g: Seq<Vec<String>>) -> Seq<Seq<char>> {
    if g.len() < DATA_ROW_OFFSET {
        Seq::empty()
    } else {
        Seq::new((g.len() - DATA_ROW_OFFSET) as nat, |k: int| grid_cell(g, k + DATA_ROW_OFFSET, 0))
    }
}

/// Every person row names somebody.
pub open spec fn names_ok(g: Seq<Vec<String>>) -> bool {
    forall|i: int| DATA_ROW_OFFSET <= i < g.len() ==> (#[trigger] grid_cell(g, i, 0)).len() > 0
}

/// The duty record encoded by person row `i`: on duty unless the status text
/// equals the off-duty keyword exactly, with a note when the note cell has
/// content.
pub open spec fn row_record(g: Seq<Vec<String>>, i: int, kw: Seq<char>) -> DutyRecord {
    DutyRecord { state: grid_cell(g, i, 1) != kw, note: has_content(grid_cell(g, i, 3)) }
}

/// Whether row `i` is the last person row naming its person.
pub open spec fn last_row_for_name(g: Seq<Vec<String>>, i: int) -> bool {
    forall|k: int| i < k < g.len() ==> #[trigger] grid_cell(g, k, 0) != grid_cell(g, i, 0)
}

/// Whether the text is non-empty after trimming whitespace.
fn cell_has_content(s: &String) -> (b: bool)
    ensures
        b == has_content(s@),
{
    let str = s.as_str();
    let len = str.unicode_len();
    let mut i: usize = 0;
    while i < len
        invariant
            0 <= i <= len,
            len == s@.len(),
            str@ == s@,
            forall|k: int| 0 <= k < i ==> is_space(s@[k]),
        decreases len - i,
    {
        let c = str.get_char(i);
        if !(c == ' ' || c == '\t' || c == '\n' || c == '\r' || c == '\u{000B}' || c
            == '\u{000C}') {
            proof {
                assert(!is_space(s@[i as int]));
            }
            return true;
        }
        i = i + 1;
    }
    proof {
        if has_content(s@) {
            let k = choose|k: int| 0 <= k < s@.len() && !is_space(s@[k]);
            assert(is_space(s@[k]));
        }
    }
    false
}

/// Normalizes one parsed sheet into a snapshot. The capture timestamp is
/// read from the cell in the first row, second column; each person row
/// contributes one record, a later row for the same name replacing an
/// earlier one. A row with an empty name cell, a missing timestamp cell, or
/// an unparseable timestamp is fatal.
pub fn normalize_sheet(grid: &Vec<Vec<String>>, off_duty_keyword: &String) -> (r: Result<
    Snapshot,
    NormalizeError,
>)
    ensures
        match r {
            Ok(s) => {
                &&& has_timestamp_cell(grid@)
                &&& sheet_timestamp(grid@) is Some
                &&& names_ok(grid@)
                &&& s.wf()
                &&& Some(s.date) == sheet_timestamp(grid@)
                &&& s.name_seq() == dedup_first(data_names(grid@))
                &&& forall|n: Seq<char>|
                    #[trigger] s.contains_name(n) <==> data_names(grid@).contains(n)
                &&& forall|i: int|
                    DATA_ROW_OFFSET <= i < grid@.len() && last_row_for_name(grid@, i)
                        ==> s.record_of(#[trigger] grid_cell(grid@, i, 0)) == row_record(
                        grid@,
                        i,
                        off_duty_keyword@,
                    )
            },
            Err(NormalizeError::MissingTimestamp) => !has_timestamp_cell(grid@),
            Err(NormalizeError::InvalidTimestamp) => has_timestamp_cell(grid@)
                && sheet_timestamp(grid@) is None,
            Err(NormalizeError::EmptyName { row }) => {
                &&& has_timestamp_cell(grid@)
                &&& sheet_timestamp(grid@) is Some
                &&& DATA_ROW_OFFSET <= row < grid@.len()
                &&& grid_cell(grid@, row as int, 0).len() == 0
                &&& forall|k: int|
                    DATA_ROW_OFFSET <= k < row ==> (#[trigger] grid_cell(grid@, k, 0)).len() > 0
            },
        },
{
    if grid.len() == 0 {
        return Err(NormalizeError::MissingTimestamp);
    }
    if grid[0].len() < 2 {
        return Err(NormalizeError::MissingTimestamp);
    }
    let date_opt = parse_timestamp(grid[0][1].as_str());
    let date = match date_opt {
        None => {
            return Err(NormalizeError::InvalidTimestamp);
        },
        Some(d) => d,
    };
    let mut snap = Snapshot::new(date);
    if grid.len() <= DATA_ROW_OFFSET {
        proof {
            assert(data_names(grid@) =~= Seq::<Seq<char>>::empty());
            assert(snap.name_seq() =~= dedup_first(data_names(grid@)));
            assert(grid_cell(grid@, 0, 1) == grid@[0]@[1]@);
        }
        return Ok(snap);
    }
    let mut i: usize = DATA_ROW_OFFSET;
    proof {
        assert(snap.name_seq() =~= dedup_first(data_names(grid@).take(0)));
    }
    while i < grid.len()
        invariant
            DATA_ROW_OFFSET <= i <= grid@.len(),
            has_timestamp_cell(grid@),
            Some(date) == sheet_timestamp(grid@),
            snap.wf(),
            snap.date == date,
            snap.name_seq() == dedup_first(data_names(grid@).take(i - DATA_ROW_OFFSET)),
            forall|n: Seq<char>|
                #[trigger] snap.contains_name(n) <==> data_names(grid@).take(
                    i - DATA_ROW_OFFSET,
                ).contains(n),
            forall|r_: int|
                DATA_ROW_OFFSET <= r_ < i && (forall|k: int|
                    r_ < k < i ==> #[trigger] grid_cell(grid@, k, 0) != grid_cell(grid@, r_, 0))
                    ==> snap.record_of(#[trigger] grid_cell(grid@, r_, 0)) == row_record(
                    grid@,
                    r_,
                    off_duty_keyword@,
                ),
            forall|k: int|
                DATA_ROW_OFFSET <= k < i ==> (#[trigger] grid_cell(grid@, k, 0)).len() > 0,
        decreases grid@.len() - i,
    {
        let row = &grid[i];
        let name: &String = if row.len() > 0 {
            &row[0]
        } else {
            return Err(NormalizeError::EmptyName { row: i });
        };
        if name.as_str().is_empty() {
            return Err(NormalizeError::EmptyName { row: i });
        }
        proof {
            assert(grid_cell(grid@, i as int, 0) == name@);
        }
        let state: bool = if row.len() > 1 {
            !(row[1] == *off_duty_keyword)
        } else {
            !off_duty_keyword.as_str().is_empty()
        };
        proof {
            if row@.len() <= 1 {
                assert(grid_cell(grid@, i as int, 1) =~= Seq::<char>::empty());
                if off_duty_keyword@.len() == 0 {
                    assert(grid_cell(grid@, i as int, 1) =~= off_duty_keyword@);
                }
            }
            assert(state == (grid_cell(grid@, i as int, 1) != off_duty_keyword@));
        }
        let note: bool = if row.len() > 3 {
            cell_has_content(&row[3])
        } else {
            false
        };
        proof {
            if row@.len() <= 3 {
                assert(grid_cell(grid@, i as int, 3) =~= Seq::<char>::empty());
            }
            assert(note == has_content(grid_cell(grid@, i as int, 3)));
        }
        let rec = DutyRecord { state, note };
        let ghost pre = snap;
        snap.upsert(name.clone(), rec);
        i = i + 1;
        proof {
            let m = i - DATA_ROW_OFFSET;
            let dn = data_names(grid@);
            assert(dn.take(m) =~= dn.take(m - 1).push(dn[m - 1]));
            assert(dn[m - 1] == grid_cell(grid@, m - 1 + DATA_ROW_OFFSET, 0));
            assert(snap.name_seq() =~= dedup_first(dn.take(m))) by {
                assert(dn.take(m).drop_last() =~= dn.take(m - 1));
                crate::seqs::lemma_dedup_first_contains(dn.take(m - 1), dn[m - 1]);
            }
            assert forall|n: Seq<char>| #[trigger] snap.contains_name(n) <==> dn.take(m).contains(
                n,
            ) by {
                if snap.contains_name(n) {
                    if pre.contains_name(n) {
                        let k = choose|k: int|
                            0 <= k < dn.take(m - 1).len() && #[trigger] dn.take(m - 1)[k] == n;
                        assert(dn.take(m)[k] == n);
                    } else {
                        assert(dn.take(m)[m - 1] == n);
                    }
                }
                if dn.take(m).contains(n) {
                    let k = choose|k: int|
                        0 <= k < dn.take(m).len() && #[trigger] dn.take(m)[k] == n;
                    if k < m - 1 {
                        assert(dn.take(m - 1)[k] == n);
                    }
                }
            }
            assert forall|r_: int|
                DATA_ROW_OFFSET <= r_ < i && (forall|k: int|
                    r_ < k < i ==> #[trigger] grid_cell(grid@, k, 0) != grid_cell(grid@, r_, 0))
                    implies snap.record_of(#[trigger] grid_cell(grid@, r_, 0)) == row_record(
                grid@,
                r_,
                off_duty_keyword@,
            ) by {
                let nm = grid_cell(grid@, r_, 0);
                if r_ == i - 1 {
                    assert(snap.record_of(nm) == rec);
                } else {
                    assert(grid_cell(grid@, i - 1, 0) != nm);
                    assert(pre.contains_name(nm)) by {
                        assert(dn.take(m - 1)[r_ - DATA_ROW_OFFSET] == nm);
                    }
                    assert(snap.record_of(nm) == pre.record_of(nm));
                }
            }
        }
    }
    proof {
        assert(data_names(grid@).take(i - DATA_ROW_OFFSET) =~= data_names(grid@));
        assert(grid_cell(grid@, 0, 1) == grid@[0]@[1]@);
    }
    Ok(snap)
}

} // verus!
