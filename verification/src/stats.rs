//! The statistics engine: one summary row per person of a duty table, with
//! total on-duty, weekend on-duty and off-duty-with-note ratios, sorted
//! descending by the total on-duty ratio.
use crate::seqs::count_where;
use crate::seqs::lemma_count_where_bounds;
use crate::seqs::lemma_count_where_implies;
use crate::seqs::lemma_count_where_push;
use crate::snapshot::DutyRecord;
use crate::table::DutyTable;
use crate::time::Timestamp;
use vstd::prelude::*;

verus! {

/// A defined percentage, kept exact as the pair of counts it came from: the
/// value is `100 * num / den`. An undefined percentage (empty denominator
/// set) is represented as an absent `Ratio`, never coerced to zero.
#[derive(Clone, Copy, PartialEq, Eq, Structural, Debug)]
pub struct Ratio {
    pub num: usize,
    pub den: usize,
}

impl Ratio {
    pub open spec fn wf(self) -> bool {
        self.num <= self.den && self.den >= 1
    }
}

/// One person's summary: each ratio is absent exactly when its denominator
/// set is empty.
#[derive(Debug)]
pub struct StatisticsRow {
    pub name: String,
    pub total_on_duty: Option<Ratio>,
    pub weekend_on_duty: Option<Ratio>,
    pub off_duty_with_note: Option<Ratio>,
}

/// Person `i`'s cells paired with their dates, in column order.
pub open spec fn person_cells(t: DutyTable, i: int) -> Seq<(Option<DutyRecord>, Timestamp)> {
    Seq::new(t.dates@.len(), |k: int| (t.cells@[i]@[k], t.dates@[k]))
}

pub open spec fn p_present(c: (Option<DutyRecord>, Timestamp)) -> bool {
    c.0 is Some
}

pub open spec fn p_on(c: (Option<DutyRecord>, Timestamp)) -> bool {
    match c.0 {
        Some(r) => r.state,
        None => false,
    }
}

pub open spec fn p_weekend(c: (Option<DutyRecord>, Timestamp)) -> bool {
    c.0 is Some && c.1.is_weekend()
}

pub open spec fn p_weekend_on(c: (Option<DutyRecord>, Timestamp)) -> bool {
    p_weekend(c) && p_on(c)
}

pub open spec fn p_off(c: (Option<DutyRecord>, Timestamp)) -> bool {
    match c.0 {
        Some(r) => !r.state,
        None => false,
    }
}

pub open spec fn p_off_note(c: (Option<DutyRecord>, Timestamp)) -> bool {
    match c.0 {
        Some(r) => !r.state && r.note,
        None => false,
    }
}

pub open spec fn total_den(t: DutyTable, i: int) -> int {
    count_where(person_cells(t, i), |c| p_present(c))
}

pub open spec fn total_num(t: DutyTable, i: int) -> int {
    count_where(person_cells(t, i), |c| p_on(c))
}

pub open spec fn weekend_den(t: DutyTable, i: int) -> int {
    count_where(person_cells(t, i), |c| p_weekend(c))
}

pub open spec fn weekend_num(t: DutyTable, i: int) -> int {
    count_where(person_cells(t, i), |c| p_weekend_on(c))
}

pub open spec fn note_den(t: DutyTable, i: int) -> int {
    count_where(person_cells(t, i), |c| p_off(c))
}

pub open spec fn note_num(t: DutyTable, i: int) -> int {
    count_where(person_cells(t, i), |c| p_off_note(c))
}

/// `num` of `den`, or undefined when the denominator set is empty.
pub open spec fn ratio_of(num: int, den: int) -> Option<Ratio> {
    if den == 0 {
        None
    } else {
        Some(Ratio { num: num as usize, den: den as usize })
    }
}

/// The summary row of person `i`.
pub open spec fn stats_row(t: DutyTable, i: int) -> StatisticsRow {
    StatisticsRow {
        name: t.names@[i],
        total_on_duty: ratio_of(total_num(t, i), total_den(t, i)),
        weekend_on_duty: ratio_of(weekend_num(t, i), weekend_den(t, i)),
        off_duty_with_note: ratio_of(note_num(t, i), note_den(t, i)),
    }
}

/// All summary rows, in the table's row order, before sorting.
pub open spec fn stats_rows(t: DutyTable) -> Seq<StatisticsRow> {
    Seq::new(t.names@.len(), |i: int| stats_row(t, i))
}

pub open spec fn row_wf(row: StatisticsRow) -> bool {
    &&& match row.total_on_duty {
        Some(r) => r.wf(),
        None => true,
    }
    &&& match row.weekend_on_duty {
        Some(r) => r.wf(),
        None => true,
    }
    &&& match row.off_duty_with_note {
        Some(r) => r.wf(),
        None => true,
    }
}

/// Whether `a`'s total on-duty ratio is strictly below `b`'s, comparing the
/// exact rationals by cross-multiplication; an undefined ratio orders below
/// every defined one.
pub open spec fn key_lt(a: StatisticsRow, b: StatisticsRow) -> bool {
    match (a.total_on_duty, b.total_on_duty) {
        (Option::None, Option::Some(_)) => true,
        (Option::Some(x), Option::Some(y)) => x.num * y.den < y.num * x.den,
        _ => false,
    }
}

/// Descending by total on-duty ratio: no row is strictly below a later one.
pub open spec fn sorted_desc(s: Seq<StatisticsRow>) -> bool {
    forall|p: int, q: int| 0 <= p < q < s.len() ==> !key_lt(#[trigger] s[p], #[trigger] s[q])
}

/// Inserts `x` into `s` behind every element not strictly below it, so that
/// an insertion in input order is a stable descending sort.
pub open spec fn insert_desc(s: Seq<StatisticsRow>, x: StatisticsRow) -> Seq<StatisticsRow>
    decreases s.len(),
{
    if s.len() > 0 && key_lt(s.last(), x) {
        insert_desc(s.drop_last(), x).push(s.last())
    } else {
        s.push(x)
    }
}

/// The stable descending insertion sort of `s` by total on-duty ratio.
pub open spec fn sort_desc(s: Seq<StatisticsRow>) -> Seq<StatisticsRow>
    decreases s.len(),
{
    if s.len() == 0 {
        Seq::empty()
    } else {
        insert_desc(sort_desc(s.drop_last()), s.last())
    }
}

proof fn lemma_insert_desc_props(s: Seq<StatisticsRow>, x: StatisticsRow)
    ensures
        insert_desc(s, x).len() == s.len() + 1,
        insert_desc(s, x).to_multiset() == s.to_multiset().insert(x),
        forall|p: int|
            0 <= p < insert_desc(s, x).len() ==> (#[trigger] insert_desc(s, x)[p]) == x
                || s.contains(insert_desc(s, x)[p]),
    decreases s.len(),
{
    broadcast use vstd::seq_lib::group_to_multiset_ensures;

    if s.len() > 0 && key_lt(s.last(), x) {
        lemma_insert_desc_props(s.drop_last(), x);
        let inner = insert_desc(s.drop_last(), x);
        assert(s.drop_last().push(s.last()) =~= s);
        assert(inner.push(s.last()).to_multiset() =~= inner.to_multiset().insert(s.last()));
        assert(s.to_multiset() =~= s.drop_last().to_multiset().insert(s.last()));
        assert(inner.to_multiset().insert(s.last()) =~= s.drop_last().to_multiset().insert(
            x,
        ).insert(s.last()));
        assert(s.drop_last().to_multiset().insert(x).insert(s.last())
            =~= s.drop_last().to_multiset().insert(s.last()).insert(x));
        assert forall|p: int| 0 <= p < insert_desc(s, x).len() implies (
        #[trigger] insert_desc(s, x)[p]) == x || s.contains(insert_desc(s, x)[p]) by {
            if p < inner.len() {
                assert(insert_desc(s, x)[p] == inner[p]);
                if inner[p] != x {
                    assert(s.drop_last().contains(inner[p]));
                    let k = choose|k: int|
                        0 <= k < s.drop_last().len() && s.drop_last()[k] == inner[p];
                    assert(s[k] == inner[p]);
                }
            } else {
                assert(insert_desc(s, x)[p] == s.last());
                assert(s[s.len() - 1] == s.last());
            }
        }
    } else {
        assert(s.push(x).to_multiset() =~= s.to_multiset().insert(x));
        assert forall|p: int| 0 <= p < insert_desc(s, x).len() implies (
        #[trigger] insert_desc(s, x)[p]) == x || s.contains(insert_desc(s, x)[p]) by {
            if p < s.len() {
                assert(s.push(x)[p] == s[p]);
            }
        }
    }
}

/// Not-strictly-below is transitive over well-formed ratios.
proof fn lemma_key_not_lt_trans(a: StatisticsRow, b: StatisticsRow, c: StatisticsRow)
    requires
        row_wf(a),
        row_wf(b),
        row_wf(c),
        !key_lt(a, b),
        !key_lt(b, c),
    ensures
        !key_lt(a, c),
{
    match (a.total_on_duty, b.total_on_duty, c.total_on_duty) {
        (Option::Some(x), Option::Some(y), Option::Some(z)) => {
            let xn = x.num as int;
            let xd = x.den as int;
            let yn = y.num as int;
            let yd = y.den as int;
            let zn = z.num as int;
            let zd = z.den as int;
            assert(xn * yd >= yn * xd);
            assert(yn * zd >= zn * yd);
            assert(xn * yd * zd >= yn * xd * zd) by (nonlinear_arith)
                requires
                    xn * yd >= yn * xd,
                    zd >= 0,
            ;
            assert(yn * zd * xd >= zn * yd * xd) by (nonlinear_arith)
                requires
                    yn * zd >= zn * yd,
                    xd >= 0,
            ;
            assert(xn * zd >= zn * xd) by (nonlinear_arith)
                requires
                    xn * yd * zd >= yn * xd * zd,
                    yn * zd * xd >= zn * yd * xd,
                    yd >= 1,
            ;
        },
        _ => {},
    }
}

proof fn lemma_insert_desc_sorted(s: Seq<StatisticsRow>, x: StatisticsRow)
    requires
        sorted_desc(s),
        forall|p: int| 0 <= p < s.len() ==> row_wf(#[trigger] s[p]),
        row_wf(x),
    ensures
        sorted_desc(insert_desc(s, x)),
    decreases s.len(),
{
    let r = insert_desc(s, x);
    if s.len() > 0 && key_lt(s.last(), x) {
        assert(sorted_desc(s.drop_last())) by {
            assert forall|p: int, q: int| 0 <= p < q < s.drop_last().len() implies !key_lt(
                #[trigger] s.drop_last()[p],
                #[trigger] s.drop_last()[q],
            ) by {
                assert(s.drop_last()[p] == s[p] && s.drop_last()[q] == s[q]);
            }
        }
        lemma_insert_desc_sorted(s.drop_last(), x);
        lemma_insert_desc_props(s.drop_last(), x);
        let inner = insert_desc(s.drop_last(), x);
        assert forall|p: int, q: int| 0 <= p < q < r.len() implies !key_lt(
            #[trigger] r[p],
            #[trigger] r[q],
        ) by {
            if q < inner.len() {
                assert(r[p] == inner[p] && r[q] == inner[q]);
            } else {
                assert(r[q] == s.last());
                assert(r[p] == inner[p]);
                if inner[p] == x {
                    // `x` is strictly above the displaced last element.
                    assert(key_lt(s.last(), x));
                    assert(!key_lt(x, s.last()));
                } else {
                    let k = choose|k: int|
                        0 <= k < s.drop_last().len() && s.drop_last()[k] == inner[p];
                    assert(s[k] == inner[p]);
                    assert(!key_lt(s[k], s[s.len() - 1]));
                }
            }
        }
    } else {
        assert forall|p: int, q: int| 0 <= p < q < r.len() implies !key_lt(
            #[trigger] r[p],
            #[trigger] r[q],
        ) by {
            if q < s.len() {
                assert(r[p] == s[p] && r[q] == s[q]);
            } else {
                assert(r[q] == x);
                assert(r[p] == s[p]);
                if s.len() > 0 {
                    // The last element is not below `x`, and everything
                    // before it is not below the last element.
                    if p < s.len() - 1 {
                        assert(!key_lt(s[p], s[s.len() - 1]));
                        lemma_key_not_lt_trans(s[p], s[s.len() - 1], x);
                    }
                }
            }
        }
    }
}

proof fn lemma_sort_desc_props(s: Seq<StatisticsRow>)
    requires
        forall|p: int| 0 <= p < s.len() ==> row_wf(#[trigger] s[p]),
    ensures
        sort_desc(s).len() == s.len(),
        sort_desc(s).to_multiset() == s.to_multiset(),
        sorted_desc(sort_desc(s)),
        forall|p: int|
            0 <= p < sort_desc(s).len() ==> s.contains(#[trigger] sort_desc(s)[p]),
    decreases s.len(),
{
    broadcast use vstd::seq_lib::group_to_multiset_ensures;

    if s.len() == 0 {
    } else {
        assert(forall|p: int|
            0 <= p < s.drop_last().len() ==> row_wf(#[trigger] s.drop_last()[p]));
        lemma_sort_desc_props(s.drop_last());
        let inner = sort_desc(s.drop_last());
        assert forall|p: int| 0 <= p < inner.len() implies row_wf(#[trigger] inner[p]) by {
            assert(s.drop_last().contains(inner[p]));
            let k = choose|k: int| 0 <= k < s.drop_last().len() && s.drop_last()[k] == inner[p];
        }
        lemma_insert_desc_sorted(inner, s.last());
        lemma_insert_desc_props(inner, s.last());
        assert(s.drop_last().push(s.last()) =~= s);
        assert(s.to_multiset() =~= s.drop_last().to_multiset().insert(s.last()));
        assert forall|p: int| 0 <= p < sort_desc(s).len() implies s.contains(
            #[trigger] sort_desc(s)[p],
        ) by {
            let e = sort_desc(s)[p];
            if e == s.last() {
                assert(s[s.len() - 1] == e);
            } else {
                assert(inner.contains(e));
                let k = choose|k: int| 0 <= k < inner.len() && inner[k] == e;
                assert(s.drop_last().contains(e));
                let k2 = choose|k2: int| 0 <= k2 < s.drop_last().len() && s.drop_last()[k2] == e;
                assert(s[k2] == e);
            }
        }
    }
}

/// Every defined percentage lies between 0 and 100: scaled by its (positive)
/// denominator, `0 <= 100 * num <= 100 * den`.
pub proof fn lemma_percentage_bounds(r: Ratio)
    requires
        r.wf(),
    ensures
        0 <= 100 * r.num,
        100 * r.num <= 100 * r.den,
{
}

/// Each percentage of a summary row is undefined exactly when its
/// denominator set is empty: no cell present at all, no cell in the weekend
/// window, or no off-duty cell.
pub proof fn lemma_undefined_iff_empty(t: DutyTable, i: int)
    requires
        0 <= i < t.names@.len(),
    ensures
        stats_row(t, i).total_on_duty is None <==> (forall|k: int|
            0 <= k < person_cells(t, i).len() ==> !p_present(#[trigger] person_cells(t, i)[k])),
        stats_row(t, i).weekend_on_duty is None <==> (forall|k: int|
            0 <= k < person_cells(t, i).len() ==> !p_weekend(#[trigger] person_cells(t, i)[k])),
        stats_row(t, i).off_duty_with_note is None <==> (forall|k: int|
            0 <= k < person_cells(t, i).len() ==> !p_off(#[trigger] person_cells(t, i)[k])),
{
    let pc = person_cells(t, i);
    crate::seqs::lemma_count_where_zero(pc, |c| p_present(c));
    crate::seqs::lemma_count_where_zero(pc, |c| p_weekend(c));
    crate::seqs::lemma_count_where_zero(pc, |c| p_off(c));
}

/// Whether `a`'s total on-duty ratio is strictly below `b`'s.
fn key_lt_exec(a: &StatisticsRow, b: &StatisticsRow) -> (r: bool)
    ensures
        r == key_lt(*a, *b),
{
    match (a.total_on_duty, b.total_on_duty) {
        (Option::None, Option::Some(_)) => true,
        (Option::Some(x), Option::Some(y)) => {
            proof {
                let m: int = 0xffff_ffff_ffff_ffff;
                assert(x.num <= m && y.num <= m && x.den <= m && y.den <= m);
                assert(x.num * y.den <= m * m && y.num * x.den <= m * m) by (nonlinear_arith)
                    requires
                        0 <= x.num <= m && 0 <= y.den <= m && 0 <= y.num <= m && 0 <= x.den <= m,
                ;
            }
            (x.num as u128) * (y.den as u128) < (y.num as u128) * (x.den as u128)
        },
        _ => false,
    }
}

/// One person's summary row, computed over one pass of their cells.
fn build_row(table: &DutyTable, i: usize) -> (row: StatisticsRow)
    requires
        table.wf(),
        i < table.names@.len(),
    ensures
        row == stats_row(*table, i as int),
{
    let ghost pc = person_cells(*table, i as int);
    let mut t_num: usize = 0;
    let mut t_den: usize = 0;
    let mut w_num: usize = 0;
    let mut w_den: usize = 0;
    let mut n_num: usize = 0;
    let mut n_den: usize = 0;
    let mut k: usize = 0;
    proof {
        assert(pc.take(0) =~= Seq::<(Option<DutyRecord>, Timestamp)>::empty());
    }
    while k < table.dates.len()
        invariant
            0 <= k <= table.dates@.len(),
            table.wf(),
            i < table.names@.len(),
            pc == person_cells(*table, i as int),
            t_num == count_where(pc.take(k as int), |c| p_on(c)),
            t_den == count_where(pc.take(k as int), |c| p_present(c)),
            w_num == count_where(pc.take(k as int), |c| p_weekend_on(c)),
            w_den == count_where(pc.take(k as int), |c| p_weekend(c)),
            n_num == count_where(pc.take(k as int), |c| p_off_note(c)),
            n_den == count_where(pc.take(k as int), |c| p_off(c)),
            t_num <= k && t_den <= k && w_num <= k && w_den <= k && n_num <= k && n_den <= k,
        decreases table.dates@.len() - k,
    {
        let cell: Option<DutyRecord> = table.cells[i][k];
        let date: Timestamp = table.dates[k];
        let wk = date.in_weekend();
        proof {
            assert(pc[k as int] == (cell, date));
            assert(pc.take(k + 1).drop_last() =~= pc.take(k as int));
            assert(pc.take(k + 1).last() == pc[k as int]);
            assert(pc.take(k + 1) =~= pc.take(k as int).push(pc[k as int]));
            lemma_count_where_push(pc.take(k as int), pc[k as int], |c| p_on(c));
            lemma_count_where_push(pc.take(k as int), pc[k as int], |c| p_present(c));
            lemma_count_where_push(pc.take(k as int), pc[k as int], |c| p_weekend_on(c));
            lemma_count_where_push(pc.take(k as int), pc[k as int], |c| p_weekend(c));
            lemma_count_where_push(pc.take(k as int), pc[k as int], |c| p_off_note(c));
            lemma_count_where_push(pc.take(k as int), pc[k as int], |c| p_off(c));
        }
        match cell {
            Some(rec) => {
                t_den = t_den + 1;
                if rec.state {
                    t_num = t_num + 1;
                }
                if wk {
                    w_den = w_den + 1;
                    if rec.state {
                        w_num = w_num + 1;
                    }
                }
                if !rec.state {
                    n_den = n_den + 1;
                    if rec.note {
                        n_num = n_num + 1;
                    }
                }
            },
            None => {},
        }
        k = k + 1;
    }
    proof {
        assert(pc.take(table.dates@.len() as int) =~= pc);
    }
    let total_on_duty = if t_den == 0 {
        None
    } else {
        Some(Ratio { num: t_num, den: t_den })
    };
    let weekend_on_duty = if w_den == 0 {
        None
    } else {
        Some(Ratio { num: w_num, den: w_den })
    };
    let off_duty_with_note = if n_den == 0 {
        None
    } else {
        Some(Ratio { num: n_num, den: n_den })
    };
    let row = StatisticsRow {
        name: table.names[i].clone(),
        total_on_duty,
        weekend_on_duty,
        off_duty_with_note,
    };
    row
}

/// The statistics engine: one summary row per person, in the exact order of
/// the stable descending sort by total on-duty ratio (rows with equal
/// ratios, and rows whose ratio is undefined, keep the table's row order;
/// undefined ratios sort below defined ones).
pub fn calculate(table: &DutyTable) -> (r: Vec<StatisticsRow>)
    requires
        table.wf(),
    ensures
        r@ == sort_desc(stats_rows(*table)),
        r@.len() == table.names@.len(),
        r@.to_multiset() == stats_rows(*table).to_multiset(),
        sorted_desc(r@),
        forall|p: int| 0 <= p < r@.len() ==> row_wf(#[trigger] r@[p]),
        forall|i: int|
            0 <= i < table.names@.len() ==> ((#[trigger] stats_row(*table, i)).total_on_duty
                is None <==> total_den(*table, i) == 0) && (stats_row(*table, i).weekend_on_duty
                is None <==> weekend_den(*table, i) == 0) && (stats_row(
                *table,
                i,
            ).off_duty_with_note is None <==> note_den(*table, i) == 0),
{
    let ghost rows = stats_rows(*table);
    proof {
        assert forall|i: int| 0 <= i < rows.len() implies row_wf(#[trigger] rows[i]) by {
            lemma_row_wf(*table, i);
        }
    }
    let mut out: Vec<StatisticsRow> = Vec::new();
    let mut i: usize = 0;
    proof {
        assert(rows.take(0) =~= Seq::<StatisticsRow>::empty());
    }
    while i < table.names.len()
        invariant
            0 <= i <= table.names@.len(),
            table.wf(),
            rows == stats_rows(*table),
            out@ == sort_desc(rows.take(i as int)),
            out@.len() == i,
            forall|p: int| 0 <= p < rows.len() ==> row_wf(#[trigger] rows[p]),
        decreases table.names@.len() - i,
    {
        let row = build_row(table, i);
        let ghost sorted_prefix = out@;
        let mut pos: usize = out.len();
        while pos > 0 && key_lt_exec(&out[pos - 1], &row)
            invariant
                0 <= pos <= out@.len(),
                out@ == sorted_prefix,
                row == stats_row(*table, i as int),
                forall|p: int| pos <= p < out@.len() ==> key_lt(#[trigger] out@[p], row),
            decreases pos,
        {
            pos = pos - 1;
        }
        out.insert(pos, row);
        i = i + 1;
        proof {
            lemma_insert_desc_split(sorted_prefix, stats_row(*table, i - 1), pos as int);
            assert(out@ =~= sorted_prefix.insert(pos as int, stats_row(*table, i - 1)));
            assert(sorted_prefix.insert(pos as int, stats_row(*table, i - 1)) =~= sorted_prefix
                .subrange(0, pos as int).push(stats_row(*table, i - 1)) + sorted_prefix.subrange(
                pos as int,
                sorted_prefix.len() as int,
            ));
            assert(rows.take(i as int).drop_last() =~= rows.take(i - 1));
            assert(rows.take(i as int).last() == rows[i - 1]);
            assert(rows[i - 1] == stats_row(*table, i - 1));
            assert(out@ == insert_desc(sort_desc(rows.take(i - 1)), rows[i - 1]));
            assert(out@ == sort_desc(rows.take(i as int)));
        }
    }
    proof {
        assert(rows.take(table.names@.len() as int) =~= rows);
        assert(out@ == sort_desc(rows));
        lemma_sort_desc_props(rows);
        assert forall|p: int| 0 <= p < out@.len() implies row_wf(#[trigger] out@[p]) by {
            assert(rows.contains(out@[p]));
            let k = choose|k: int| 0 <= k < rows.len() && rows[k] == out@[p];
        }
        assert forall|i2: int| 0 <= i2 < table.names@.len() implies ((#[trigger] stats_row(
            *table,
            i2,
        )).total_on_duty is None <==> total_den(*table, i2) == 0) && (stats_row(
            *table,
            i2,
        ).weekend_on_duty is None <==> weekend_den(*table, i2) == 0) && (stats_row(
            *table,
            i2,
        ).off_duty_with_note is None <==> note_den(*table, i2) == 0) by {
            lemma_row_wf(*table, i2);
        }
    }
    out
}

/// Each summary row is well-formed: a defined ratio counts a subset of its
/// denominator set, which is non-empty.
proof fn lemma_row_wf(t: DutyTable, i: int)
    requires
        0 <= i < t.names@.len(),
    ensures
        stats_rows(t)[i] == stats_row(t, i),
        row_wf(stats_row(t, i)),
        0 <= total_num(t, i) <= total_den(t, i) <= t.dates@.len(),
        0 <= weekend_num(t, i) <= weekend_den(t, i) <= t.dates@.len(),
        0 <= note_num(t, i) <= note_den(t, i) <= t.dates@.len(),
{
    let pc = person_cells(t, i);
    assert(t.dates@.len() == t.dates.len());
    lemma_count_where_bounds(pc, |c| p_present(c));
    lemma_count_where_bounds(pc, |c| p_on(c));
    lemma_count_where_bounds(pc, |c| p_weekend(c));
    lemma_count_where_bounds(pc, |c| p_weekend_on(c));
    lemma_count_where_bounds(pc, |c| p_off(c));
    lemma_count_where_bounds(pc, |c| p_off_note(c));
    lemma_count_where_implies(pc, |c| p_on(c), |c| p_present(c));
    lemma_count_where_implies(pc, |c| p_weekend_on(c), |c| p_weekend(c));
    lemma_count_where_implies(pc, |c| p_off_note(c), |c| p_off(c));
}

/// Inserting at the scan position of the backward scan is the same as the
/// recursive insertion: everything from `p` on is strictly below `x`, and
/// the element before `p`, if any, is not.
proof fn lemma_insert_desc_split(s: Seq<StatisticsRow>, x: StatisticsRow, p: int)
    requires
        0 <= p <= s.len(),
        forall|k: int| p <= k < s.len() ==> key_lt(#[trigger] s[k], x),
        p > 0 ==> !key_lt(s[p - 1], x),
    ensures
        insert_desc(s, x) == s.subrange(0, p).push(x) + s.subrange(p, s.len() as int),
    decreases s.len(),
{
    if p == s.len() {
        assert(insert_desc(s, x) == s.push(x));
        assert(s.subrange(0, p) =~= s);
        assert(s.subrange(p, s.len() as int) =~= Seq::<StatisticsRow>::empty());
        assert(s.subrange(0, p).push(x) + s.subrange(p, s.len() as int) =~= s.push(x));
    } else {
        assert(key_lt(s[s.len() - 1], x));
        assert(s.last() == s[s.len() - 1]);
        assert forall|k: int| p <= k < s.drop_last().len() implies key_lt(
            #[trigger] s.drop_last()[k],
            x,
        ) by {
            assert(s.drop_last()[k] == s[k]);
        }
        if p > 0 {
            assert(s.drop_last()[p - 1] == s[p - 1]);
        }
        lemma_insert_desc_split(s.drop_last(), x, p);
        assert(insert_desc(s, x) == insert_desc(s.drop_last(), x).push(s.last()));
        assert(s.drop_last().subrange(0, p) =~= s.subrange(0, p));
        assert(insert_desc(s.drop_last(), x).push(s.last()) =~= s.subrange(0, p).push(x)
            + s.subrange(p, s.len() as int)) by {
            assert(s.drop_last().subrange(p, s.drop_last().len() as int) =~= s.subrange(
                p,
                s.len() - 1,
            ));
        }
    }
}

} // verus!
