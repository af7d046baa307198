//! The history builder: one row per date of a duty table — how many people
//! were on duty — optionally restricted to one calendar month, sorted
//! ascending by date.
use crate::seqs::count_where;
use crate::snapshot::DutyRecord;
use crate::table::dates_ascending;
use crate::table::DutyTable;
use crate::time::Timestamp;
use vstd::prelude::*;

verus! {

/// A calendar month window. Year and month are only meaningful together, so
/// a partial filter cannot be expressed at all.
#[derive(Clone, Copy, PartialEq, Eq, Structural, Debug)]
pub struct MonthFilter {
    pub year: u16,
    pub month: u8,
}

/// One history entry: the date, how many people were on duty, and the
/// caller-supplied minimum-staffing reference repeated on every row.
#[derive(Clone, Copy, PartialEq, Eq, Structural, Debug)]
pub struct HistoryRow {
    pub date: Timestamp,
    pub total_on_duty: usize,
    pub minimum: u32,
}

/// Midnight starting the filter month.
pub open spec fn month_start(f: MonthFilter) -> Timestamp {
    Timestamp { year: f.year, month: f.month, day: 1, hour: 0, minute: 0 }
}

/// Midnight starting the month after the filter month, wrapping the year
/// after December.
pub open spec fn next_month_start(f: MonthFilter) -> Timestamp {
    if f.month == 12 {
        Timestamp { year: (f.year + 1) as u16, month: 1, day: 1, hour: 0, minute: 0 }
    } else {
        Timestamp { year: f.year, month: (f.month + 1) as u8, day: 1, hour: 0, minute: 0 }
    }
}

/// Whether date `d` passes the filter: strictly after the month's first
/// midnight and strictly before the next month's first midnight, so a
/// snapshot taken exactly at the month boundary is excluded. No filter
/// passes everything.
pub open spec fn passes(filter: Option<MonthFilter>, d: Timestamp) -> bool {
    match filter {
        Option::None => true,
        Option::Some(f) => month_start(f).lt(d) && d.lt(next_month_start(f)),
    }
}

/// Column `k` of the table, top to bottom.
pub open spec fn column(t: DutyTable, k: int) -> Seq<Option<DutyRecord>> {
    Seq::new(t.names@.len(), |i: int| t.cells@[i]@[k])
}

pub open spec fn cell_on(c: Option<DutyRecord>) -> bool {
    match c {
        Option::Some(r) => r.state,
        Option::None => false,
    }
}

/// How many people are on duty on date `d`; absent cells contribute
/// nothing. Meaningful only when the table has the date.
pub open spec fn on_duty_count(t: DutyTable, d: Timestamp) -> int {
    count_where(column(t, t.col_of(d)), |c: Option<DutyRecord>| cell_on(c))
}

/// Whether date `d` passes the month filter.
fn passes_filter(filter: Option<MonthFilter>, d: &Timestamp) -> (b: bool)
    requires
        match filter {
            Option::Some(f) => 1 <= f.month <= 12 && f.year < 0xffff,
            Option::None => true,
        },
    ensures
        b == passes(filter, *d),
{
    match filter {
        Option::None => true,
        Option::Some(f) => {
            let from = Timestamp { year: f.year, month: f.month, day: 1, hour: 0, minute: 0 };
            let to = if f.month == 12 {
                Timestamp { year: f.year + 1, month: 1, day: 1, hour: 0, minute: 0 }
            } else {
                Timestamp { year: f.year, month: f.month + 1, day: 1, hour: 0, minute: 0 }
            };
            from.before(d) && d.before(&to)
        },
    }
}

/// The history builder: one row per table date that passes the filter, in
/// ascending date order, each carrying the on-duty head count of its date
/// and the caller's minimum-staffing constant.
pub fn history(table: &DutyTable, minimum: u32, filter: Option<MonthFilter>) -> (r: Vec<
    HistoryRow,
>)
    requires
        table.wf(),
        match filter {
            Option::Some(f) => 1 <= f.month <= 12 && f.year < 0xffff,
            Option::None => true,
        },
    ensures
        forall|p: int|
            0 <= p < r@.len() ==> {
                &&& (#[trigger] r@[p]).minimum == minimum
                &&& table.has_date(r@[p].date)
                &&& passes(filter, r@[p].date)
                &&& r@[p].total_on_duty == on_duty_count(*table, r@[p].date)
            },
        forall|p: int, q: int| 0 <= p < q < r@.len() ==> r@[p].date.lt(r@[q].date),
        forall|d: Timestamp|
            #[trigger] table.has_date(d) && passes(filter, d) ==> exists|p: int|
                0 <= p < r@.len() && (#[trigger] r@[p]).date == d,
{
    let s = table.sorted_by_date();
    let mut out: Vec<HistoryRow> = Vec::new();
    let mut k: usize = 0;
    while k < s.dates.len()
        invariant
            0 <= k <= s.dates@.len(),
            table.wf(),
            s.wf(),
            s.name_seq() == table.name_seq(),
            s.dates@.len() == table.dates@.len(),
            dates_ascending(s.dates@),
            forall|d: Timestamp| #[trigger] s.has_date(d) <==> table.has_date(d),
            forall|n: Seq<char>, d: Timestamp|
                s.has_name(n) && s.has_date(d) ==> #[trigger] s.cell_of(n, d) == table.cell_of(
                    n,
                    d,
                ),
            match filter {
                Option::Some(f) => 1 <= f.month <= 12 && f.year < 0xffff,
                Option::None => true,
            },
            forall|p: int|
                0 <= p < out@.len() ==> {
                    &&& (#[trigger] out@[p]).minimum == minimum
                    &&& table.has_date(out@[p].date)
                    &&& passes(filter, out@[p].date)
                    &&& out@[p].total_on_duty == on_duty_count(*table, out@[p].date)
                },
            forall|p: int, q: int| 0 <= p < q < out@.len() ==> out@[p].date.lt(out@[q].date),
            forall|p: int|
                0 <= p < out@.len() ==> s.dates@.take(k as int).contains(
                    (#[trigger] out@[p]).date,
                ),
            forall|kk: int|
                0 <= kk < k && passes(filter, #[trigger] s.dates@[kk]) ==> exists|p: int|
                    0 <= p < out@.len() && (#[trigger] out@[p]).date == s.dates@[kk],
        decreases s.dates@.len() - k,
    {
        let d = s.dates[k];
        if passes_filter(filter, &d) {
            let mut cnt: usize = 0;
            let mut i: usize = 0;
            proof {
                assert(column(s, k as int).take(0) =~= Seq::<Option<DutyRecord>>::empty());
            }
            while i < s.cells.len()
                invariant
                    0 <= i <= s.cells@.len(),
                    s.wf(),
                    k < s.dates@.len(),
                    cnt <= i,
                    s.cells@.len() == s.names@.len(),
                    cnt == count_where(
                        column(s, k as int).take(i as int),
                        |c: Option<DutyRecord>| cell_on(c),
                    ),
                decreases s.cells@.len() - i,
            {
                let cell = s.cells[i][k];
                proof {
                    let col = column(s, k as int);
                    assert(col[i as int] == cell);
                    assert(col.take(i + 1).drop_last() =~= col.take(i as int));
                    assert(col.take(i + 1).last() == col[i as int]);
                    assert(col.take(i + 1) =~= col.take(i as int).push(col[i as int]));
                    crate::seqs::lemma_count_where_push(
                        col.take(i as int),
                        col[i as int],
                        |c: Option<DutyRecord>| cell_on(c),
                    );
                }
                if let Some(rec) = cell {
                    if rec.state {
                        cnt = cnt + 1;
                    }
                }
                i = i + 1;
            }
            let row = HistoryRow { date: d, total_on_duty: cnt, minimum };
            let ghost pre = out@;
            out.push(row);
            proof {
                // The freshly counted column of the sorted table is, entry
                // by entry, the column of `d` in the original table.
                assert(s.has_date(d)) by {
                    assert(s.dates@[k as int] == d);
                }
                assert(table.has_date(d));
                let ct = table.col_of(d);
                assert(0 <= ct < table.dates@.len() && table.dates@[ct] == d);
                assert(column(s, k as int).take(s.cells@.len() as int) =~= column(s, k as int));
                assert(s.names@.len() == table.names@.len()) by {
                    assert(s.name_seq().len() == table.name_seq().len());
                }
                assert(column(s, k as int) =~= column(*table, ct)) by {
                    assert forall|i2: int| 0 <= i2 < s.names@.len() implies column(s, k as int)[i2]
                        == column(*table, ct)[i2] by {
                        let n = s.name_seq()[i2];
                        assert(s.has_name(n)) by {
                            assert(s.name_seq()[i2] == n);
                        }
                        assert(s.row_of(n) == i2) by {
                            let rr = s.row_of(n);
                            assert(0 <= rr < s.name_seq().len() && s.name_seq()[rr] == n);
                        }
                        assert(s.col_of(d) == k) by {
                            let cc = s.col_of(d);
                            assert(0 <= cc < s.dates@.len() && s.dates@[cc] == d);
                        }
                        assert(s.cell_of(n, d) == s.cells@[i2]@[k as int]);
                        assert(table.has_name(n)) by {
                            assert(table.name_seq()[i2] == n);
                        }
                        assert(table.row_of(n) == i2) by {
                            let rr = table.row_of(n);
                            assert(0 <= rr < table.name_seq().len() && table.name_seq()[rr] == n);
                        }
                        assert(table.cell_of(n, d) == table.cells@[i2]@[ct]);
                        assert(s.cell_of(n, d) == table.cell_of(n, d));
                    }
                }
                assert(cnt == on_duty_count(*table, d));
                // Ascending order is kept: every earlier output date sits
                // strictly earlier in the sorted date sequence.
                assert forall|p: int, q: int| 0 <= p < q < out@.len() implies out@[p].date.lt(
                    out@[q].date,
                ) by {
                    if q == out@.len() - 1 {
                        assert(s.dates@.take(k as int).contains(pre[p].date));
                        let kk = choose|kk: int|
                            0 <= kk < k && s.dates@.take(k as int)[kk] == pre[p].date;
                        assert(s.dates@[kk] == pre[p].date);
                        assert(s.dates@[kk].lt(s.dates@[k as int]));
                    }
                }
                assert forall|p: int| 0 <= p < out@.len() implies s.dates@.take(k + 1).contains(
                    (#[trigger] out@[p]).date,
                ) by {
                    if p < out@.len() - 1 {
                        assert(s.dates@.take(k as int).contains(pre[p].date));
                        let kk = choose|kk: int|
                            0 <= kk < k && s.dates@.take(k as int)[kk] == pre[p].date;
                        assert(s.dates@.take(k + 1)[kk] == pre[p].date);
                    } else {
                        assert(s.dates@.take(k + 1)[k as int] == d);
                    }
                }
                assert forall|kk: int|
                    0 <= kk < k + 1 && passes(filter, #[trigger] s.dates@[kk]) implies exists|
                    p: int,
                |
                    0 <= p < out@.len() && (#[trigger] out@[p]).date == s.dates@[kk] by {
                    if kk == k {
                        assert(out@[out@.len() - 1].date == s.dates@[kk]);
                    } else {
                        let p = choose|p: int|
                            0 <= p < pre.len() && (#[trigger] pre[p]).date == s.dates@[kk];
                        assert(out@[p].date == s.dates@[kk]);
                    }
                }
            }
        } else {
            proof {
                assert forall|p: int| 0 <= p < out@.len() implies s.dates@.take(k + 1).contains(
                    (#[trigger] out@[p]).date,
                ) by {
                    assert(s.dates@.take(k as int).contains(out@[p].date));
                    let kk = choose|kk: int|
                        0 <= kk < k && s.dates@.take(k as int)[kk] == out@[p].date;
                    assert(s.dates@.take(k + 1)[kk] == out@[p].date);
                }
            }
        }
        k = k + 1;
    }
    proof {
        assert(s.dates@.take(s.dates@.len() as int) =~= s.dates@);
        assert forall|d: Timestamp| #[trigger] table.has_date(d) && passes(
            filter,
            d,
        ) implies exists|p: int| 0 <= p < out@.len() && (#[trigger] out@[p]).date == d by {
            assert(s.has_date(d));
            let kk = choose|kk: int| 0 <= kk < s.dates@.len() && s.dates@[kk] == d;
            assert(passes(filter, s.dates@[kk]));
        }
    }
    out
}

} // verus!
