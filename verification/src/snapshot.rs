//! One dated roster snapshot: a mapping from person name to duty record,
//! tagged with the capture timestamp.
use crate::time::Timestamp;
use vstd::prelude::*;

verus! {

/// One person's entry for one date: on duty or not, and whether a free-text
/// note was attached to the row.
#[derive(Clone, Copy, PartialEq, Eq, Structural, Debug)]
pub struct DutyRecord {
    pub state: bool,
    pub note: bool,
}

/// One dated capture of everyone's duty state. `names` and `records` run in
/// parallel; a name occurs at most once, so the pair is a finite mapping in
/// insertion order.
#[derive(Debug)]
pub struct Snapshot {
    pub date: Timestamp,
    pub names: Vec<String>,
    pub records: Vec<DutyRecord>,
}

impl Snapshot {
    /// The person names, as character sequences, in insertion order.
    pub open spec fn name_seq(self) -> Seq<Seq<char>> {
        self.names@.map_values(|n: String| n@)
    }

    pub open spec fn wf(self) -> bool {
        &&& self.date.valid()
        &&& self.names@.len() == self.records@.len()
        &&& forall|p: int, q: int|
            0 <= p < q < self.name_seq().len() ==> self.name_seq()[p] != self.name_seq()[q]
    }

    pub open spec fn contains_name(self, n: Seq<char>) -> bool {
        self.name_seq().contains(n)
    }

    /// The position of name `n`; meaningful only when the name is present
    /// (then it is unique, by well-formedness).
    pub open spec fn index_of(self, n: Seq<char>) -> int {
        choose|i: int| 0 <= i < self.name_seq().len() && self.name_seq()[i] == n
    }

    /// The duty record stored for name `n`; meaningful only when present.
    pub open spec fn record_of(self, n: Seq<char>) -> DutyRecord {
        self.records@[self.index_of(n)]
    }

    /// An empty snapshot for the given capture date.
    pub fn new(date: Timestamp) -> (s: Snapshot)
        requires
            date.valid(),
        ensures
            s.wf(),
            s.date == date,
            s.name_seq() == Seq::<Seq<char>>::empty(),
    {
        let s = Snapshot { date, names: Vec::new(), records: Vec::new() };
        proof {
            assert(s.name_seq() =~= Seq::<Seq<char>>::empty());
        }
        s
    }

    /// The position of `name`, or `None` when the name is absent.
    fn position_of(&self, name: &String) -> (r: Option<usize>)
        ensures
            match r {
                Some(i) => 0 <= i < self.name_seq().len() && self.name_seq()[i as int] == name@,
                None => !self.contains_name(name@),
            },
    {
        let mut i: usize = 0;
        while i < self.names.len()
            invariant
                0 <= i <= self.names@.len(),
                forall|k: int| 0 <= k < i ==> self.name_seq()[k] != name@,
            decreases self.names@.len() - i,
        {
            if self.names[i] == *name {
                proof {
                    assert(self.name_seq()[i as int] == name@);
                }
                return Some(i);
            }
            i = i + 1;
        }
        proof {
            if self.contains_name(name@) {
                let k = choose|k: int|
                    0 <= k < self.name_seq().len() && self.name_seq()[k] == name@;
                assert(self.name_seq()[k] != name@);
            }
        }
        None
    }

    /// Looks a person up: their record, or `None` when they are absent.
    pub fn get_record(&self, name: &String) -> (r: Option<DutyRecord>)
        requires
            self.wf(),
        ensures
            r == if self.contains_name(name@) {
                Some(self.record_of(name@))
            } else {
                None::<DutyRecord>
            },
    {
        match self.position_of(name) {
            Some(i) => {
                proof {
                    assert(self.contains_name(name@));
                    let j = self.index_of(name@);
                    assert(0 <= j < self.name_seq().len() && self.name_seq()[j] == name@);
                    assert(j == i);
                }
                Some(self.records[i])
            },
            None => None,
        }
    }

    /// Adds or replaces one person's record, keeping the first position of an
    /// already-present name (a later row for the same name wins).
    pub fn upsert(&mut self, name: String, rec: DutyRecord)
        requires
            old(self).wf(),
        ensures
            final(self).wf(),
            final(self).date == old(self).date,
            final(self).name_seq() == if old(self).contains_name(name@) {
                old(self).name_seq()
            } else {
                old(self).name_seq().push(name@)
            },
            final(self).contains_name(name@),
            final(self).record_of(name@) == rec,
            forall|n: Seq<char>|
                #[trigger] final(self).contains_name(n) <==> old(self).contains_name(n) || n
                    == name@,
            forall|n: Seq<char>|
                old(self).contains_name(n) && n != name@ ==> #[trigger] final(self).record_of(n)
                    == old(self).record_of(n),
    {
        let ghost pre = *self;
        match self.position_of(&name) {
            Some(i) => {
                self.records[i] = rec;
                proof {
                    assert(self.name_seq() =~= pre.name_seq());
                    assert(pre.contains_name(name@));
                    let j = self.index_of(name@);
                    assert(0 <= j < self.name_seq().len() && self.name_seq()[j] == name@);
                    assert(j == i);
                    assert(self.record_of(name@) == rec);
                    assert forall|n: Seq<char>| pre.contains_name(n) && n != name@ implies #[trigger] self.record_of(
                        n,
                    ) == pre.record_of(n) by {
                        assert(self.contains_name(n));
                        let k = self.index_of(n);
                        assert(0 <= k < self.name_seq().len() && self.name_seq()[k] == n);
                        assert(k != i);
                        let k2 = pre.index_of(n);
                        assert(0 <= k2 < pre.name_seq().len() && pre.name_seq()[k2] == n);
                        assert(k2 == k);
                    }
                }
            },
            None => {
                let ghost nv = name@;
                self.names.push(name);
                self.records.push(rec);
                proof {
                    assert(self.name_seq() =~= pre.name_seq().push(nv));
                    let len = pre.name_seq().len();
                    assert forall|p: int, q: int|
                        0 <= p < q < self.name_seq().len() implies self.name_seq()[p]
                        != self.name_seq()[q] by {
                        if q == len {
                            assert(self.name_seq()[p] == pre.name_seq()[p]);
                            if pre.name_seq()[p] == nv {
                                assert(pre.name_seq().contains(nv));
                            }
                        }
                    }
                    assert(self.name_seq()[len as int] == nv);
                    assert(self.contains_name(nv));
                    let j = self.index_of(nv);
                    assert(0 <= j < self.name_seq().len() && self.name_seq()[j] == nv);
                    if j < len {
                        assert(pre.name_seq()[j] == nv);
                        assert(pre.contains_name(nv));
                    }
                    assert(self.record_of(nv) == rec);
                    assert forall|n: Seq<char>| pre.contains_name(n) && n != nv implies #[trigger] self.record_of(
                        n,
                    ) == pre.record_of(n) by {
                        let k2 = pre.index_of(n);
                        assert(0 <= k2 < pre.name_seq().len() && pre.name_seq()[k2] == n);
                        assert(self.name_seq()[k2] == n);
                        assert(self.contains_name(n));
                        let k = self.index_of(n);
                        assert(0 <= k < self.name_seq().len() && self.name_seq()[k] == n);
                        assert(k != len);
                        assert(k == k2);
                    }
                    assert forall|n: Seq<char>| #[trigger] self.contains_name(n) implies (
                    pre.contains_name(n) || n == nv) by {
                        let k = choose|k: int|
                            0 <= k < self.name_seq().len() && self.name_seq()[k] == n;
                        if k < len {
                            assert(pre.name_seq()[k] == n);
                        }
                    }
                    assert forall|n: Seq<char>| pre.contains_name(n) implies #[trigger] self.contains_name(
                        n,
                    ) by {
                        let k = choose|k: int|
                            0 <= k < pre.name_seq().len() && pre.name_seq()[k] == n;
                        assert(self.name_seq()[k] == n);
                    }
                }
            },
        }
    }
}

} // verus!
