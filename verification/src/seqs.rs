//! Sequence helpers shared by the snapshot, table and statistics modules:
//! keeping first occurrences, and counting elements that satisfy a predicate.
use vstd::prelude::*;

verus! {

/// The subsequence of `s` that keeps only the first occurrence of each value.
pub open spec fn dedup_first<A>(s: Seq<A>) -> Seq<A>
    decreases s.len(),
{
    if s.len() == 0 {
        Seq::empty()
    } else {
        let rest = dedup_first(s.drop_last());
        if rest.contains(s.last()) {
            rest
        } else {
            rest.push(s.last())
        }
    }
}

/// Keeping first occurrences drops no value and invents none.
pub proof fn lemma_dedup_first_contains<A>(s: Seq<A>, x: A)
    ensures
        dedup_first(s).contains(x) <==> s.contains(x),
    decreases s.len(),
{
    if s.len() == 0 {
    } else {
        lemma_dedup_first_contains(s.drop_last(), x);
        let rest = dedup_first(s.drop_last());
        assert(rest.push(s.last()).contains(x) <==> (rest.contains(x) || s.last() == x)) by {
            if rest.push(s.last()).contains(x) {
                let i = choose|i: int|
                    0 <= i < rest.push(s.last()).len() && rest.push(s.last())[i] == x;
                if i < rest.len() {
                    assert(rest[i] == x);
                }
            }
            if rest.contains(x) {
                let i = choose|i: int| 0 <= i < rest.len() && rest[i] == x;
                assert(rest.push(s.last())[i] == x);
            }
            assert(rest.push(s.last())[rest.len() as int] == s.last());
        }
        assert(s.contains(x) <==> (s.drop_last().contains(x) || s.last() == x)) by {
            if s.contains(x) {
                let i = choose|i: int| 0 <= i < s.len() && s[i] == x;
                if i < s.len() - 1 {
                    assert(s.drop_last()[i] == x);
                }
            }
            if s.drop_last().contains(x) {
                let i = choose|i: int| 0 <= i < s.drop_last().len() && s.drop_last()[i] == x;
                assert(s[i] == x);
            }
        }
    }
}

/// The result of `dedup_first` holds no value twice.
pub proof fn lemma_dedup_first_unique<A>(s: Seq<A>)
    ensures
        forall|p: int, q: int|
            0 <= p < q < dedup_first(s).len() ==> dedup_first(s)[p] != dedup_first(s)[q],
    decreases s.len(),
{
    if s.len() == 0 {
    } else {
        lemma_dedup_first_unique(s.drop_last());
        let rest = dedup_first(s.drop_last());
        if !rest.contains(s.last()) {
            assert forall|p: int, q: int|
                0 <= p < q < dedup_first(s).len() implies dedup_first(s)[p] != dedup_first(
                s,
            )[q] by {
                if q == dedup_first(s).len() - 1 {
                    assert(rest.contains(rest[p]));
                }
            }
        }
    }
}

/// How many elements of `s` satisfy `p`.
pub open spec fn count_where<A>(s: Seq<A>, p: spec_fn(A) -> bool) -> int
    decreases s.len(),
{
    if s.len() == 0 {
        0
    } else {
        count_where(s.drop_last(), p) + if p(s.last()) {
            1int
        } else {
            0int
        }
    }
}

pub proof fn lemma_count_where_bounds<A>(s: Seq<A>, p: spec_fn(A) -> bool)
    ensures
        0 <= count_where(s, p) <= s.len(),
    decreases s.len(),
{
    if s.len() > 0 {
        lemma_count_where_bounds(s.drop_last(), p);
    }
}

pub proof fn lemma_count_where_push<A>(s: Seq<A>, x: A, p: spec_fn(A) -> bool)
    ensures
        count_where(s.push(x), p) == count_where(s, p) + if p(x) {
            1int
        } else {
            0int
        },
{
    assert(s.push(x).drop_last() =~= s);
    assert(s.push(x).last() == x);
}

/// The count is zero exactly when no element satisfies the predicate.
pub proof fn lemma_count_where_zero<A>(s: Seq<A>, p: spec_fn(A) -> bool)
    ensures
        (count_where(s, p) == 0) <==> (forall|i: int| 0 <= i < s.len() ==> !p(#[trigger] s[i])),
    decreases s.len(),
{
    if s.len() > 0 {
        lemma_count_where_zero(s.drop_last(), p);
        lemma_count_where_bounds(s.drop_last(), p);
        if count_where(s, p) == 0 {
            assert forall|i: int| 0 <= i < s.len() implies !p(#[trigger] s[i]) by {
                if i < s.len() - 1 {
                    assert(s.drop_last()[i] == s[i]);
                }
            }
        } else {
            if !p(s.last()) {
                let i = choose|i: int|
                    0 <= i < s.drop_last().len() && p(#[trigger] s.drop_last()[i]);
                assert(s[i] == s.drop_last()[i]);
            }
        }
    }
}

/// A pointwise-stronger predicate never counts more elements.
pub proof fn lemma_count_where_implies<A>(s: Seq<A>, p: spec_fn(A) -> bool, q: spec_fn(A) -> bool)
    requires
        forall|x: A| #[trigger] p(x) ==> q(x),
    ensures
        count_where(s, p) <= count_where(s, q),
    decreases s.len(),
{
    if s.len() > 0 {
        lemma_count_where_implies(s.drop_last(), p, q);
    }
}

} // verus!
