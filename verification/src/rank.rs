//! The order of search results: the most recent thread first.

use vstd::prelude::*;
use vstd::seq_lib::{lemma_multiset_commutative, to_multiset_build};

verus! {

/// What the order of results goes by: when a thread began, and which
/// thread it is.
#[derive(Debug, Clone, Copy, PartialEq, Eq, Structural)]
pub struct Recency {
    pub date: u32,
    pub thread_id: usize,
}

/// `a` is shown before `b`: it is more recent, or as recent and has the
/// smaller identifier.
pub open spec fn ranks_before(a: Recency, b: Recency) -> bool {
    a.date > b.date || (a.date == b.date && a.thread_id < b.thread_id)
}

/// The list is in the order of showing: nothing stands behind an entry that
/// it ranks before.
pub open spec fn ranked(list: Seq<Recency>) -> bool {
    forall|i: int, j: int| 0 <= i < j < list.len() ==> !ranks_before(list[j], list[i])
}

/// Whether `a` is shown before `b`.
pub fn comes_first(a: &Recency, b: &Recency) -> (yes: bool)
    ensures
        yes == ranks_before(*a, *b),
{
    a.date > b.date || (a.date == b.date && a.thread_id < b.thread_id)
}

/// One ranked list out of two.
fn merge_ranked(left: &Vec<Recency>, right: &Vec<Recency>) -> (out: Vec<Recency>)
    requires
        ranked(left@),
        ranked(right@),
    ensures
        ranked(out@),
        out@.to_multiset() == left@.to_multiset().add(right@.to_multiset()),
{
    let mut out: Vec<Recency> = Vec::new();
    let mut i: usize = 0;
    let mut j: usize = 0;
    proof {
        // Nothing came out yet, and nothing was taken.
        broadcast use vstd::seq_lib::group_to_multiset_ensures;

        assert(left@.take(0) =~= Seq::<Recency>::empty());
        assert(right@.take(0) =~= Seq::<Recency>::empty());
    }
    while i < left.len() || j < right.len()
        invariant
            i <= left.len(),
            j <= right.len(),
            ranked(left@),
            ranked(right@),
            ranked(out@),
            out@.len() > 0 && i < left.len() ==> !ranks_before(left[i as int], out@.last()),
            out@.len() > 0 && j < right.len() ==> !ranks_before(right[j as int], out@.last()),
            out@.to_multiset() == left@.take(i as int).to_multiset().add(
                right@.take(j as int).to_multiset(),
            ),
        decreases left.len() - i + right.len() - j,
    {
        let ghost before = out@;
        let from_left = j >= right.len() || (i < left.len() && !comes_first(&right[j], &left[i]));
        let next = if from_left {
            left[i]
        } else {
            right[j]
        };
        out.push(next);
        proof {
            to_multiset_build(before, next);
            assert forall|a: int, b: int| 0 <= a < b < out@.len() implies !ranks_before(
                out@[b],
                out@[a],
            ) by {
                if b == before.len() && a < before.len() - 1 {
                    assert(!ranks_before(before.last(), before[a]));
                }
            }
            if from_left {
                assert(left@.take(i + 1) =~= left@.take(i as int).push(next));
                to_multiset_build(left@.take(i as int), next);
            } else {
                assert(right@.take(j + 1) =~= right@.take(j as int).push(next));
                to_multiset_build(right@.take(j as int), next);
            }
        }
        if from_left {
            i = i + 1;
        } else {
            j = j + 1;
        }
    }
    proof {
        assert(left@.take(i as int) =~= left@);
        assert(right@.take(j as int) =~= right@);
    }
    out
}

/// The entries from `lo` up to `hi`, in the order of showing.
fn sort_range(entries: &Vec<Recency>, lo: usize, hi: usize) -> (out: Vec<Recency>)
    requires
        lo <= hi <= entries.len(),
    ensures
        ranked(out@),
        out@.to_multiset() == entries@.subrange(lo as int, hi as int).to_multiset(),
    decreases hi - lo,
{
    if hi - lo <= 1 {
        let mut out: Vec<Recency> = Vec::new();
        if lo < hi {
            out.push(entries[lo]);
        }
        proof {
            assert(out@ =~= entries@.subrange(lo as int, hi as int));
        }
        out
    } else {
        let mid = lo + (hi - lo) / 2;
        let left = sort_range(entries, lo, mid);
        let right = sort_range(entries, mid, hi);
        proof {
            assert(entries@.subrange(lo as int, hi as int) =~= entries@.subrange(
                lo as int,
                mid as int,
            ) + entries@.subrange(mid as int, hi as int));
            lemma_multiset_commutative(
                entries@.subrange(lo as int, mid as int),
                entries@.subrange(mid as int, hi as int),
            );
        }
        merge_ranked(&left, &right)
    }
}

/// The entries in the order of showing: most recent first, and among
/// equally recent ones the smaller thread identifier first. Nothing is
/// added or lost.
pub fn sort_by_recency(entries: &Vec<Recency>) -> (out: Vec<Recency>)
    ensures
        ranked(out@),
        out@.to_multiset() == entries@.to_multiset(),
{
    proof {
        assert(entries@.subrange(0, entries@.len() as int) =~= entries@);
    }
    sort_range(entries, 0, entries.len())
}

} // verus!
