//! The temporal merger: combines any number of dated snapshots into one
//! person-by-date duty table.
use crate::seqs::dedup_first;
use crate::seqs::lemma_dedup_first_contains;
use crate::seqs::lemma_dedup_first_unique;
use crate::snapshot::DutyRecord;
use crate::snapshot::Snapshot;
use crate::time::Timestamp;
use vstd::prelude::*;

verus! {

/// Why a set of snapshots cannot be merged.
#[derive(Clone, Copy, PartialEq, Eq, Structural, Debug)]
pub enum MergeError {
    /// No snapshot was given: a run without input must fail loudly rather
    /// than produce an empty table.
    EmptyInput,
}

/// The views of a sequence of person names.
pub open spec fn name_views(v: Seq<String>) -> Seq<Seq<char>> {
    v.map_values(|n: String| n@)
}

/// All snapshot name lists, concatenated in input order.
pub open spec fn concat_names(snaps: Seq<Snapshot>) -> Seq<Seq<char>>
    decreases snaps.len(),
{
    if snaps.len() == 0 {
        Seq::empty()
    } else {
        concat_names(snaps.drop_last()) + snaps.last().name_seq()
    }
}

/// The snapshot dates, in input order.
pub open spec fn dates_of(snaps: Seq<Snapshot>) -> Seq<Timestamp> {
    snaps.map_values(|s: Snapshot| s.date)
}

/// The index of the last snapshot carrying date `d`; meaningful only when
/// some snapshot does. On a date collision the later snapshot wins.
pub open spec fn last_with_date(snaps: Seq<Snapshot>, d: Timestamp) -> int
    decreases snaps.len(),
{
    if snaps.len() == 0 {
        0
    } else if snaps.last().date == d {
        snaps.len() - 1
    } else {
        last_with_date(snaps.drop_last(), d)
    }
}

/// What the merged table holds for person `n` on date `d`: that person's
/// record in the last snapshot dated `d`, or absent when that snapshot has
/// no row for them.
pub open spec fn merged_cell(snaps: Seq<Snapshot>, n: Seq<char>, d: Timestamp) -> Option<
    DutyRecord,
> {
    let s = snaps[last_with_date(snaps, d)];
    if s.contains_name(n) {
        Some(s.record_of(n))
    } else {
        None
    }
}

/// The merged person-by-date table. Row `i` of `cells` belongs to person
/// `names[i]`; entry `k` of a row belongs to date `dates[k]`; `None` marks a
/// person absent from that date's snapshot — a third state distinct from on-
/// and off-duty, never defaulted.
#[derive(Debug)]
pub struct DutyTable {
    pub names: Vec<String>,
    pub dates: Vec<Timestamp>,
    pub cells: Vec<Vec<Option<DutyRecord>>>,
}

impl DutyTable {
    /// The person names, as character sequences, in row order.
    pub open spec fn name_seq(self) -> Seq<Seq<char>> {
        name_views(self.names@)
    }

    pub open spec fn wf(self) -> bool {
        &&& forall|p: int, q: int|
            0 <= p < q < self.name_seq().len() ==> self.name_seq()[p] != self.name_seq()[q]
        &&& forall|p: int, q: int|
            0 <= p < q < self.dates@.len() ==> self.dates@[p] != self.dates@[q]
        &&& forall|k: int| 0 <= k < self.dates@.len() ==> (#[trigger] self.dates@[k]).valid()
        &&& self.cells@.len() == self.names@.len()
        &&& forall|i: int| 0 <= i < self.cells@.len() ==> (#[trigger] self.cells@[i])@.len()
            == self.dates@.len()
    }

    pub open spec fn has_name(self, n: Seq<char>) -> bool {
        self.name_seq().contains(n)
    }

    pub open spec fn has_date(self, d: Timestamp) -> bool {
        self.dates@.contains(d)
    }

    /// The row of name `n`; meaningful only when present (then unique).
    pub open spec fn row_of(self, n: Seq<char>) -> int {
        choose|i: int| 0 <= i < self.name_seq().len() && self.name_seq()[i] == n
    }

    /// The column of date `d`; meaningful only when present (then unique).
    pub open spec fn col_of(self, d: Timestamp) -> int {
        choose|k: int| 0 <= k < self.dates@.len() && self.dates@[k] == d
    }

    /// The cell of person `n` on date `d`; meaningful only when both exist.
    pub open spec fn cell_of(self, n: Seq<char>, d: Timestamp) -> Option<DutyRecord> {
        self.cells@[self.row_of(n)]@[self.col_of(d)]
    }
}

/// Strictly ascending chronological order.
pub open spec fn dates_ascending(ds: Seq<Timestamp>) -> bool {
    forall|p: int, q: int| 0 <= p < q < ds.len() ==> (#[trigger] ds[p]).lt(#[trigger] ds[q])
}

impl DutyTable {
    /// The same table with its columns rearranged into ascending date
    /// order: the sort capability the history builder relies on. Rows, the
    /// date set and every cell stay exactly as they were.
    pub fn sorted_by_date(&self) -> (t: DutyTable)
        requires
            self.wf(),
        ensures
            t.wf(),
            t.name_seq() == self.name_seq(),
            t.dates@.len() == self.dates@.len(),
            dates_ascending(t.dates@),
            forall|d: Timestamp| #[trigger] t.has_date(d) <==> self.has_date(d),
            forall|n: Seq<char>, d: Timestamp|
                t.has_name(n) && t.has_date(d) ==> #[trigger] t.cell_of(n, d) == self.cell_of(
                    n,
                    d,
                ),
    {
        let m = self.dates.len();
        // An insertion sort over column indices, ordered by their dates.
        let mut idx: Vec<usize> = Vec::new();
        let mut j: usize = 0;
        while j < m
            invariant
                0 <= j <= m,
                m == self.dates@.len(),
                self.wf(),
                idx@.len() == j,
                forall|p: int| 0 <= p < j ==> (#[trigger] idx@[p]) < j,
                forall|p: int, q: int| 0 <= p < q < j ==> idx@[p] != idx@[q],
                forall|v: usize| v < j ==> #[trigger] idx@.contains(v),
                forall|p: int, q: int|
                    0 <= p < q < j ==> (#[trigger] self.dates@[idx@[p] as int]).lt(
                        #[trigger] self.dates@[idx@[q] as int],
                    ),
            decreases m - j,
        {
            let dj = self.dates[j];
            let mut pos: usize = 0;
            while pos < j && self.dates[idx[pos]].before(&dj)
                invariant
                    0 <= pos <= j,
                    j < m == self.dates@.len(),
                    self.wf(),
                    idx@.len() == j,
                    dj == self.dates@[j as int],
                    forall|p: int| 0 <= p < j ==> (#[trigger] idx@[p]) < j,
                    forall|p: int| 0 <= p < pos ==> (#[trigger] self.dates@[idx@[p] as int]).lt(dj),
                decreases j - pos,
            {
                pos = pos + 1;
            }
            let ghost pre = idx@;
            idx.insert(pos, j);
            j = j + 1;
            proof {
                assert(idx@ =~= pre.insert(pos as int, (j - 1) as usize));
                assert forall|p: int, q: int| 0 <= p < q < j implies (
                #[trigger] self.dates@[idx@[p] as int]).lt(
                    #[trigger] self.dates@[idx@[q] as int],
                ) by {
                    let dnew = self.dates@[j - 1];
                    if pos < j - 1 {
                        // The element displaced to `pos + 1` was not earlier
                        // than the inserted date, so the tail stays ordered.
                        assert(!self.dates@[pre[pos as int] as int].lt(dnew));
                        assert(pre[pos as int] != j - 1);
                        assert(self.dates@[pre[pos as int] as int] != dnew);
                        assert(dnew.lt(self.dates@[pre[pos as int] as int]));
                    }
                    if p < pos && q < pos {
                        assert(idx@[p] == pre[p] && idx@[q] == pre[q]);
                    } else if p < pos && q == pos {
                        assert(idx@[q] == j - 1);
                    } else if p < pos && q > pos {
                        assert(idx@[q] == pre[q - 1]);
                    } else if p == pos {
                        assert(idx@[p] == j - 1 && idx@[q] == pre[q - 1]);
                        if q - 1 > pos {
                            assert(self.dates@[pre[pos as int] as int].lt(
                                self.dates@[pre[q - 1] as int],
                            ));
                        }
                    } else {
                        assert(idx@[p] == pre[p - 1] && idx@[q] == pre[q - 1]);
                    }
                }
                assert forall|v: usize| v < j implies #[trigger] idx@.contains(v) by {
                    if v == j - 1 {
                        assert(idx@[pos as int] == v);
                    } else {
                        assert(pre.contains(v));
                        let p0 = choose|p: int| 0 <= p < pre.len() && pre[p] == v;
                        if p0 < pos {
                            assert(idx@[p0] == v);
                        } else {
                            assert(idx@[p0 + 1] == v);
                        }
                    }
                }
            }
        }
        // Materialize the permuted table.
        let mut new_names: Vec<String> = Vec::new();
        let mut i: usize = 0;
        while i < self.names.len()
            invariant
                0 <= i <= self.names@.len(),
                new_names@.len() == i,
                forall|p: int| 0 <= p < i ==> (#[trigger] new_names@[p])@ == self.names@[p]@,
            decreases self.names@.len() - i,
        {
            new_names.push(self.names[i].clone());
            i = i + 1;
        }
        let mut new_dates: Vec<Timestamp> = Vec::new();
        let mut k: usize = 0;
        while k < m
            invariant
                0 <= k <= m,
                m == self.dates@.len(),
                idx@.len() == m,
                forall|p: int| 0 <= p < m ==> (#[trigger] idx@[p]) < m,
                new_dates@.len() == k,
                forall|p: int|
                    0 <= p < k ==> (#[trigger] new_dates@[p]) == self.dates@[idx@[p] as int],
            decreases m - k,
        {
            new_dates.push(self.dates[idx[k]]);
            k = k + 1;
        }
        let mut new_cells: Vec<Vec<Option<DutyRecord>>> = Vec::new();
        let mut i2: usize = 0;
        while i2 < self.cells.len()
            invariant
                0 <= i2 <= self.cells@.len(),
                self.wf(),
                m == self.dates@.len(),
                idx@.len() == m,
                forall|p: int| 0 <= p < m ==> (#[trigger] idx@[p]) < m,
                new_cells@.len() == i2,
                forall|r_: int| 0 <= r_ < i2 ==> (#[trigger] new_cells@[r_])@.len() == m,
                forall|r_: int, p: int|
                    0 <= r_ < i2 && 0 <= p < m ==> (#[trigger] new_cells@[r_]@[p])
                        == self.cells@[r_]@[idx@[p] as int],
            decreases self.cells@.len() - i2,
        {
            let mut rowv: Vec<Option<DutyRecord>> = Vec::new();
            let mut k2: usize = 0;
            while k2 < m
                invariant
                    0 <= k2 <= m,
                    m == self.dates@.len(),
                    self.wf(),
                    0 <= i2 < self.cells@.len(),
                    idx@.len() == m,
                    forall|p: int| 0 <= p < m ==> (#[trigger] idx@[p]) < m,
                    rowv@.len() == k2,
                    forall|p: int|
                        0 <= p < k2 ==> (#[trigger] rowv@[p]) == self.cells@[i2 as int]@[idx@[p] as int],
                decreases m - k2,
            {
                rowv.push(self.cells[i2][idx[k2]]);
                k2 = k2 + 1;
            }
            new_cells.push(rowv);
            i2 = i2 + 1;
        }
        let t = DutyTable { names: new_names, dates: new_dates, cells: new_cells };
        proof {
            assert(t.name_seq() =~= self.name_seq());
            assert forall|p: int, q: int| 0 <= p < q < t.dates@.len() implies t.dates@[p]
                != t.dates@[q] by {
                assert(idx@[p] != idx@[q]);
            }
            assert forall|kk: int| 0 <= kk < t.dates@.len() implies (
            #[trigger] t.dates@[kk]).valid() by {
                assert(self.dates@[idx@[kk] as int].valid());
            }
            assert forall|d: Timestamp| #[trigger] t.has_date(d) <==> self.has_date(d) by {
                if t.has_date(d) {
                    let p = choose|p: int| 0 <= p < t.dates@.len() && t.dates@[p] == d;
                    assert(self.dates@[idx@[p] as int] == d);
                }
                if self.has_date(d) {
                    let v = choose|v: int| 0 <= v < self.dates@.len() && self.dates@[v] == d;
                    assert(idx@.contains(v as usize));
                    let p = choose|p: int| 0 <= p < idx@.len() && idx@[p] == v as usize;
                    assert(t.dates@[p] == d);
                }
            }
            assert forall|n: Seq<char>, d: Timestamp| t.has_name(n) && t.has_date(d) implies #[trigger] t.cell_of(
                n,
                d,
            ) == self.cell_of(n, d) by {
                let r2 = t.row_of(n);
                let c2 = t.col_of(d);
                assert(0 <= r2 < t.name_seq().len() && t.name_seq()[r2] == n);
                assert(0 <= c2 < t.dates@.len() && t.dates@[c2] == d);
                assert(self.has_name(n));
                let r1 = self.row_of(n);
                assert(0 <= r1 < self.name_seq().len() && self.name_seq()[r1] == n);
                assert(r1 == r2);
                let c1 = self.col_of(d);
                assert(self.has_date(d)) by {
                    assert(self.dates@[idx@[c2] as int] == d);
                }
                assert(0 <= c1 < self.dates@.len() && self.dates@[c1] == d);
                assert(self.dates@[idx@[c2] as int] == d);
                assert(c1 == idx@[c2]);
                assert(t.cells@[r2]@[c2] == self.cells@[r2]@[idx@[c2] as int]);
            }
        }
        t
    }
}

/// Whether some name in `v` reads `n`.
fn contains_string(v: &Vec<String>, n: &String) -> (b: bool)
    ensures
        b == name_views(v@).contains(n@),
{
    let mut i: usize = 0;
    while i < v.len()
        invariant
            0 <= i <= v@.len(),
            forall|k: int| 0 <= k < i ==> name_views(v@)[k] != n@,
        decreases v@.len() - i,
    {
        if v[i] == *n {
            proof {
                assert(name_views(v@)[i as int] == n@);
            }
            return true;
        }
        i = i + 1;
    }
    proof {
        if name_views(v@).contains(n@) {
            let k = choose|k: int|
                0 <= k < name_views(v@).len() && #[trigger] name_views(v@)[k] == n@;
            assert(name_views(v@)[k] != n@);
        }
    }
    false
}

/// The position of date `d` in `v`, or `None` when absent.
fn find_date(v: &Vec<Timestamp>, d: Timestamp) -> (r: Option<usize>)
    ensures
        match r {
            Some(k) => 0 <= k < v@.len() && v@[k as int] == d,
            None => !v@.contains(d),
        },
{
    let mut i: usize = 0;
    while i < v.len()
        invariant
            0 <= i <= v@.len(),
            forall|k: int| 0 <= k < i ==> v@[k] != d,
        decreases v@.len() - i,
    {
        if v[i] == d {
            return Some(i);
        }
        i = i + 1;
    }
    proof {
        if v@.contains(d) {
            let k = choose|k: int| 0 <= k < v@.len() && v@[k] == d;
            assert(v@[k] != d);
        }
    }
    None
}

/// A name occurs somewhere in the concatenated name lists exactly when some
/// snapshot contains it.
proof fn lemma_concat_names_contains(snaps: Seq<Snapshot>, n: Seq<char>)
    ensures
        concat_names(snaps).contains(n) <==> exists|i: int|
            0 <= i < snaps.len() && (#[trigger] snaps[i]).contains_name(n),
    decreases snaps.len(),
{
    if snaps.len() == 0 {
    } else {
        lemma_concat_names_contains(snaps.drop_last(), n);
        let a = concat_names(snaps.drop_last());
        let b = snaps.last().name_seq();
        assert((a + b).contains(n) <==> (a.contains(n) || b.contains(n))) by {
            if (a + b).contains(n) {
                let i = choose|i: int| 0 <= i < (a + b).len() && (a + b)[i] == n;
                if i < a.len() {
                    assert(a[i] == n);
                } else {
                    assert(b[i - a.len()] == n);
                }
            }
            if a.contains(n) {
                let i = choose|i: int| 0 <= i < a.len() && a[i] == n;
                assert((a + b)[i] == n);
            }
            if b.contains(n) {
                let i = choose|i: int| 0 <= i < b.len() && b[i] == n;
                assert((a + b)[a.len() + i] == n);
            }
        }
        assert((exists|i: int|
            0 <= i < snaps.drop_last().len() && (#[trigger] snaps.drop_last()[i]).contains_name(n))
            <==> (exists|i: int|
            0 <= i < snaps.len() - 1 && (#[trigger] snaps[i]).contains_name(n))) by {
            assert(forall|i: int|
                0 <= i < snaps.len() - 1 ==> snaps.drop_last()[i] == #[trigger] snaps[i]);
        }
        if snaps.last().contains_name(n) {
            assert((#[trigger] snaps[snaps.len() - 1]).contains_name(n));
        }
    }
}

/// A date occurs in `dates_of` exactly when some snapshot carries it.
proof fn lemma_dates_of_contains(snaps: Seq<Snapshot>, d: Timestamp)
    ensures
        dates_of(snaps).contains(d) <==> exists|i: int|
            0 <= i < snaps.len() && (#[trigger] snaps[i]).date == d,
{
    if dates_of(snaps).contains(d) {
        let i = choose|i: int| 0 <= i < dates_of(snaps).len() && dates_of(snaps)[i] == d;
        assert((#[trigger] snaps[i]).date == d);
    }
    if exists|i: int| 0 <= i < snaps.len() && (#[trigger] snaps[i]).date == d {
        let i = choose|i: int| 0 <= i < snaps.len() && (#[trigger] snaps[i]).date == d;
        assert(dates_of(snaps)[i] == d);
    }
}

/// No two snapshots share a date.
pub open spec fn distinct_dates(snaps: Seq<Snapshot>) -> bool {
    forall|i: int, j: int|
        0 <= i < j < snaps.len() ==> (#[trigger] snaps[i]).date != (#[trigger] snaps[j]).date
}

/// `last_with_date` names a snapshot that indeed carries date `d`.
proof fn lemma_last_with_date_props(snaps: Seq<Snapshot>, d: Timestamp)
    requires
        exists|i: int| 0 <= i < snaps.len() && (#[trigger] snaps[i]).date == d,
    ensures
        0 <= last_with_date(snaps, d) < snaps.len(),
        snaps[last_with_date(snaps, d)].date == d,
    decreases snaps.len(),
{
    if snaps.len() == 0 {
    } else if snaps.last().date == d {
    } else {
        let i = choose|i: int| 0 <= i < snaps.len() && (#[trigger] snaps[i]).date == d;
        assert(i < snaps.len() - 1);
        assert(snaps.drop_last()[i] == snaps[i]);
        lemma_last_with_date_props(snaps.drop_last(), d);
    }
}

/// Merging the same set of snapshots, in any input order, describes the
/// same table: the same person set, the same date set, and the same record
/// or absence in every cell — so two such merges differ at most in row and
/// column ordering. Distinct dates are required, since on a date collision
/// the input order decides which snapshot wins.
pub proof fn lemma_merge_order_independent(
    s1: Seq<Snapshot>,
    s2: Seq<Snapshot>,
    n: Seq<char>,
    d: Timestamp,
)
    requires
        s1.to_multiset() == s2.to_multiset(),
        distinct_dates(s1),
        distinct_dates(s2),
    ensures
        (exists|i: int| 0 <= i < s1.len() && (#[trigger] s1[i]).contains_name(n)) <==> (exists|
            i: int,
        |
            0 <= i < s2.len() && (#[trigger] s2[i]).contains_name(n)),
        (exists|i: int| 0 <= i < s1.len() && (#[trigger] s1[i]).date == d) <==> (exists|i: int|
            0 <= i < s2.len() && (#[trigger] s2[i]).date == d),
        (exists|i: int| 0 <= i < s1.len() && (#[trigger] s1[i]).date == d) ==> merged_cell(
            s1,
            n,
            d,
        ) == merged_cell(s2, n, d),
{
    broadcast use vstd::seq_lib::group_to_multiset_ensures;

    if exists|i: int| 0 <= i < s1.len() && (#[trigger] s1[i]).contains_name(n) {
        let i = choose|i: int| 0 <= i < s1.len() && (#[trigger] s1[i]).contains_name(n);
        let e = s1[i];
        assert(s1.contains(e));
        assert(s2.to_multiset().count(e) > 0);
        assert(s2.contains(e));
        let j = choose|j: int| 0 <= j < s2.len() && s2[j] == e;
        assert((#[trigger] s2[j]).contains_name(n));
    }
    if exists|i: int| 0 <= i < s2.len() && (#[trigger] s2[i]).contains_name(n) {
        let i = choose|i: int| 0 <= i < s2.len() && (#[trigger] s2[i]).contains_name(n);
        let e = s2[i];
        assert(s2.contains(e));
        assert(s1.to_multiset().count(e) > 0);
        assert(s1.contains(e));
        let j = choose|j: int| 0 <= j < s1.len() && s1[j] == e;
        assert((#[trigger] s1[j]).contains_name(n));
    }
    if exists|i: int| 0 <= i < s1.len() && (#[trigger] s1[i]).date == d {
        lemma_last_with_date_props(s1, d);
        let l1 = last_with_date(s1, d);
        let e = s1[l1];
        assert(s1.contains(e));
        assert(s2.to_multiset().count(e) > 0);
        assert(s2.contains(e));
        let j = choose|j: int| 0 <= j < s2.len() && s2[j] == e;
        assert((#[trigger] s2[j]).date == d);
        lemma_last_with_date_props(s2, d);
        let l2 = last_with_date(s2, d);
        assert(s2[l2].date == d);
        assert(l2 == j);
        assert(s2[l2] == e);
    }
    if exists|i: int| 0 <= i < s2.len() && (#[trigger] s2[i]).date == d {
        let i = choose|i: int| 0 <= i < s2.len() && (#[trigger] s2[i]).date == d;
        let e = s2[i];
        assert(s2.contains(e));
        assert(s1.to_multiset().count(e) > 0);
        assert(s1.contains(e));
        let j = choose|j: int| 0 <= j < s1.len() && s1[j] == e;
        assert((#[trigger] s1[j]).date == d);
    }
}

/// The merger: one pass that unions all person names, keeps the first
/// occurrence order of names and dates, and fills each cell from the last
/// snapshot of its date — or marks it absent. Merging nothing is an error.
pub fn merge_snapshots(snaps: &Vec<Snapshot>) -> (r: Result<DutyTable, MergeError>)
    requires
        forall|i: int| 0 <= i < snaps@.len() ==> (#[trigger] snaps@[i]).wf(),
    ensures
        r is Err <==> snaps@.len() == 0,
        match r {
            Ok(t) => {
                &&& t.wf()
                &&& t.name_seq() == dedup_first(concat_names(snaps@))
                &&& t.dates@ == dedup_first(dates_of(snaps@))
                &&& forall|n: Seq<char>|
                    #[trigger] t.has_name(n) <==> exists|i: int|
                        0 <= i < snaps@.len() && (#[trigger] snaps@[i]).contains_name(n)
                &&& forall|d: Timestamp|
                    #[trigger] t.has_date(d) <==> exists|i: int|
                        0 <= i < snaps@.len() && (#[trigger] snaps@[i]).date == d
                &&& forall|n: Seq<char>, d: Timestamp|
                    t.has_name(n) && t.has_date(d) ==> #[trigger] t.cell_of(n, d) == merged_cell(
                        snaps@,
                        n,
                        d,
                    )
                &&& forall|n: Seq<char>, d: Timestamp|
                    t.has_name(n) && t.has_date(d) ==> ((#[trigger] t.cell_of(n, d)) is None
                        <==> !snaps@[last_with_date(snaps@, d)].contains_name(n))
            },
            Err(e) => e == MergeError::EmptyInput,
        },
{
    if snaps.len() == 0 {
        return Err(MergeError::EmptyInput);
    }
    // Phase one: the union of all person names, first occurrence first.
    let mut names: Vec<String> = Vec::new();
    proof {
        assert(snaps@.take(0) =~= Seq::<Snapshot>::empty());
        assert(name_views(names@) =~= dedup_first(concat_names(snaps@.take(0))));
    }
    let mut si: usize = 0;
    while si < snaps.len()
        invariant
            0 <= si <= snaps@.len(),
            name_views(names@) == dedup_first(concat_names(snaps@.take(si as int))),
        decreases snaps@.len() - si,
    {
        let snap = &snaps[si];
        let ghost a = concat_names(snaps@.take(si as int));
        let mut j: usize = 0;
        proof {
            assert(a + snap.name_seq().take(0) =~= a);
        }
        while j < snap.names.len()
            invariant
                0 <= j <= snap.names@.len(),
                name_views(names@) == dedup_first(a + snap.name_seq().take(j as int)),
            decreases snap.names@.len() - j,
        {
            let nm = &snap.names[j];
            let present = contains_string(&names, nm);
            let ghost prev = names@;
            if !present {
                names.push(nm.clone());
            }
            j = j + 1;
            proof {
                let z = a + snap.name_seq().take(j as int);
                assert(snap.name_seq()[j - 1] == nm@);
                assert(z.drop_last() =~= a + snap.name_seq().take(j - 1));
                assert(z.last() == nm@);
                lemma_dedup_first_contains(z.drop_last(), nm@);
                if !present {
                    assert(name_views(names@) =~= name_views(prev).push(nm@));
                }
            }
        }
        si = si + 1;
        proof {
            assert(snaps@.take(si as int).drop_last() =~= snaps@.take(si - 1));
            assert(snaps@.take(si as int).last() == snaps@[si - 1]);
            assert(a + snap.name_seq().take(snap.names@.len() as int) =~= concat_names(
                snaps@.take(si as int),
            ));
        }
    }
    proof {
        assert(snaps@.take(snaps@.len() as int) =~= snaps@);
    }
    // Phase two: one column per distinct date, the last snapshot of a date
    // overwriting earlier ones.
    let mut dates: Vec<Timestamp> = Vec::new();
    let mut src: Vec<usize> = Vec::new();
    proof {
        assert(dates@ =~= dedup_first(dates_of(snaps@.take(0))));
    }
    let mut si2: usize = 0;
    while si2 < snaps.len()
        invariant
            0 <= si2 <= snaps@.len(),
            dates@ == dedup_first(dates_of(snaps@.take(si2 as int))),
            src@.len() == dates@.len(),
            forall|k: int|
                0 <= k < dates@.len() ==> (#[trigger] src@[k]) < si2 && snaps@[src@[k] as int].date
                    == dates@[k] && src@[k] == last_with_date(
                    snaps@.take(si2 as int),
                    dates@[k],
                ),
        decreases snaps@.len() - si2,
    {
        let d = snaps[si2].date;
        let found = find_date(&dates, d);
        let ghost prefix = snaps@.take(si2 as int);
        let ghost pre_dates = dates@;
        proof {
            lemma_dedup_first_unique(dates_of(prefix));
        }
        match found {
            Some(k) => {
                src[k] = si2;
            },
            None => {
                dates.push(d);
                src.push(si2);
            },
        }
        si2 = si2 + 1;
        proof {
            let prefix2 = snaps@.take(si2 as int);
            assert(prefix2.drop_last() =~= prefix);
            assert(prefix2.last() == snaps@[si2 - 1]);
            assert(dates_of(prefix2).drop_last() =~= dates_of(prefix));
            assert(dates_of(prefix2).last() == d);
            assert(dates_of(prefix2) =~= dates_of(prefix).push(d));
            lemma_dedup_first_contains(dates_of(prefix), d);
            match found {
                Some(k) => {
                    assert(pre_dates[k as int] == d);
                    assert(pre_dates.contains(d));
                    assert(dates@ =~= dedup_first(dates_of(prefix2)));
                    assert forall|kk: int| 0 <= kk < dates@.len() implies (#[trigger] src@[kk])
                        < si2 && snaps@[src@[kk] as int].date == dates@[kk] && src@[kk]
                        == last_with_date(prefix2, dates@[kk]) by {
                        if kk == k {
                            assert(last_with_date(prefix2, d) == si2 - 1);
                        } else {
                            assert(dates@[kk] != d);
                            assert(last_with_date(prefix2, dates@[kk]) == last_with_date(
                                prefix,
                                dates@[kk],
                            ));
                        }
                    }
                },
                None => {
                    assert(!pre_dates.contains(d));
                    assert(dates@ =~= dedup_first(dates_of(prefix2)));
                    assert forall|kk: int| 0 <= kk < dates@.len() implies (#[trigger] src@[kk])
                        < si2 && snaps@[src@[kk] as int].date == dates@[kk] && src@[kk]
                        == last_with_date(prefix2, dates@[kk]) by {
                        if kk == dates@.len() - 1 {
                            assert(dates@[kk] == d);
                            assert(last_with_date(prefix2, d) == si2 - 1);
                        } else {
                            assert(dates@[kk] == pre_dates[kk]);
                            assert(dates@[kk] != d) by {
                                if pre_dates[kk] == d {
                                    assert(pre_dates.contains(d));
                                }
                            }
                            assert(last_with_date(prefix2, dates@[kk]) == last_with_date(
                                prefix,
                                dates@[kk],
                            ));
                        }
                    }
                },
            }
        }
    }
    proof {
        assert(snaps@.take(snaps@.len() as int) =~= snaps@);
    }
    // Phase three: materialize the cells, probing the per-date source
    // snapshot for each person.
    let mut cells: Vec<Vec<Option<DutyRecord>>> = Vec::new();
    let mut i: usize = 0;
    while i < names.len()
        invariant
            0 <= i <= names@.len(),
            cells@.len() == i,
            src@.len() == dates@.len(),
            forall|k: int|
                0 <= k < dates@.len() ==> (#[trigger] src@[k]) < snaps@.len()
                    && snaps@[src@[k] as int].date == dates@[k] && src@[k] == last_with_date(
                    snaps@,
                    dates@[k],
                ),
            forall|i2: int| 0 <= i2 < snaps@.len() ==> (#[trigger] snaps@[i2]).wf(),
            forall|r_: int| 0 <= r_ < i ==> (#[trigger] cells@[r_])@.len() == dates@.len(),
            forall|r_: int, k: int|
                0 <= r_ < i && 0 <= k < dates@.len() ==> (#[trigger] cells@[r_]@[k]) == merged_cell(
                    snaps@,
                    name_views(names@)[r_],
                    dates@[k],
                ),
        decreases names@.len() - i,
    {
        let nm = &names[i];
        let mut rowv: Vec<Option<DutyRecord>> = Vec::new();
        let mut k: usize = 0;
        while k < dates.len()
            invariant
                0 <= k <= dates@.len(),
                rowv@.len() == k,
                src@.len() == dates@.len(),
                0 <= i < names@.len(),
                nm@ == name_views(names@)[i as int],
                forall|k2: int|
                    0 <= k2 < dates@.len() ==> (#[trigger] src@[k2]) < snaps@.len()
                        && snaps@[src@[k2] as int].date == dates@[k2] && src@[k2] == last_with_date(
                        snaps@,
                        dates@[k2],
                    ),
                forall|i2: int| 0 <= i2 < snaps@.len() ==> (#[trigger] snaps@[i2]).wf(),
                forall|k2: int|
                    0 <= k2 < k ==> (#[trigger] rowv@[k2]) == merged_cell(
                        snaps@,
                        nm@,
                        dates@[k2],
                    ),
            decreases dates@.len() - k,
        {
            let s_idx = src[k];
            let rec = snaps[s_idx].get_record(nm);
            rowv.push(rec);
            k = k + 1;
        }
        cells.push(rowv);
        i = i + 1;
    }
    let t = DutyTable { names, dates, cells };
    proof {
        lemma_dedup_first_unique(concat_names(snaps@));
        lemma_dedup_first_unique(dates_of(snaps@));
        assert forall|n: Seq<char>| #[trigger] t.has_name(n) <==> exists|i2: int|
            0 <= i2 < snaps@.len() && (#[trigger] snaps@[i2]).contains_name(n) by {
            lemma_dedup_first_contains(concat_names(snaps@), n);
            lemma_concat_names_contains(snaps@, n);
        }
        assert forall|d: Timestamp| #[trigger] t.has_date(d) <==> exists|i2: int|
            0 <= i2 < snaps@.len() && (#[trigger] snaps@[i2]).date == d by {
            lemma_dedup_first_contains(dates_of(snaps@), d);
            lemma_dates_of_contains(snaps@, d);
        }
        assert forall|k: int| 0 <= k < t.dates@.len() implies (#[trigger] t.dates@[k]).valid() by {
            assert(snaps@[src@[k] as int].wf());
        }
        assert forall|n: Seq<char>, d: Timestamp| t.has_name(n) && t.has_date(d) implies #[trigger] t.cell_of(
            n,
            d,
        ) == merged_cell(snaps@, n, d) by {
            let r_ = t.row_of(n);
            let c_ = t.col_of(d);
            assert(0 <= r_ < t.name_seq().len() && t.name_seq()[r_] == n);
            assert(0 <= c_ < t.dates@.len() && t.dates@[c_] == d);
            assert(t.cells@[r_]@[c_] == merged_cell(snaps@, name_views(t.names@)[r_], t.dates@[c_]));
        }
    }
    Ok(t)
}

} // verus!
