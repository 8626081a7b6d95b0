//! Sorted-list algebra on posting lists: intersection and union of two
//! ascending, duplicate-free lists by a synchronized walk over both.

use crate::posting::strictly_ascending;
use vstd::prelude::*;

verus! {

/// Intersection of two posting lists: the ascending list of the values that
/// occur in both.
pub fn merge_and(left: &Vec<usize>, right: &Vec<usize>) -> (out: Vec<usize>)
    requires
        strictly_ascending(left@),
        strictly_ascending(right@),
    ensures
        strictly_ascending(out@),
        forall|x: usize| out@.contains(x) <==> (left@.contains(x) && right@.contains(x)),
        out@.to_set() == left@.to_set().intersect(right@.to_set()),
{
    let mut out: Vec<usize> = Vec::new();
    let mut i: usize = 0;
    let mut j: usize = 0;
    while i < left.len() && j < right.len()
        invariant
            i <= left.len(),
            j <= right.len(),
            strictly_ascending(left@),
            strictly_ascending(right@),
            strictly_ascending(out@),
            forall|k: int|
                0 <= k < out.len() ==> left@.contains(#[trigger] out[k]) && right@.contains(out[k]),
            out.len() > 0 && i < left.len() ==> out@.last() < left[i as int],
            out.len() > 0 && j < right.len() ==> out@.last() < right[j as int],
            forall|a: int, b: int|
                0 <= a < i && 0 <= b < right.len() && #[trigger] left[a] == #[trigger] right[b]
                    ==> out@.contains(left[a]),
            forall|a: int, b: int|
                0 <= a < left.len() && 0 <= b < j && #[trigger] left[a] == #[trigger] right[b]
                    ==> out@.contains(left[a]),
        decreases left.len() - i + right.len() - j,
    {
        let x = left[i];
        let y = right[j];
        if x < y {
            i = i + 1;
        } else if y < x {
            j = j + 1;
        } else {
            let ghost before = out@;
            out.push(x);
            proof {
                assert(out@[before.len() as int] == x);
                assert forall|v: usize| before.contains(v) implies out@.contains(v) by {
                    let k = choose|k: int| 0 <= k < before.len() && before[k] == v;
                    assert(out@[k] == v);
                }
            }
            i = i + 1;
            j = j + 1;
        }
    }
    out
}

/// Union of two posting lists: the ascending list of the values that occur
/// in either, each once.
pub fn merge_or(left: &Vec<usize>, right: &Vec<usize>) -> (out: Vec<usize>)
    requires
        strictly_ascending(left@),
        strictly_ascending(right@),
    ensures
        strictly_ascending(out@),
        forall|x: usize| out@.contains(x) <==> (left@.contains(x) || right@.contains(x)),
        out@.to_set() == left@.to_set().union(right@.to_set()),
{
    let mut out: Vec<usize> = Vec::new();
    let mut i: usize = 0;
    let mut j: usize = 0;
    while i < left.len() || j < right.len()
        invariant
            i <= left.len(),
            j <= right.len(),
            strictly_ascending(left@),
            strictly_ascending(right@),
            strictly_ascending(out@),
            forall|k: int|
                0 <= k < out.len() ==> left@.contains(#[trigger] out[k]) || right@.contains(out[k]),
            out.len() > 0 && i < left.len() ==> out@.last() < left[i as int],
            out.len() > 0 && j < right.len() ==> out@.last() < right[j as int],
            forall|a: int| 0 <= a < i ==> out@.contains(#[trigger] left[a]),
            forall|b: int| 0 <= b < j ==> out@.contains(#[trigger] right[b]),
        decreases left.len() - i + right.len() - j,
    {
        let take_left = j >= right.len() || (i < left.len() && left[i] <= right[j]);
        let take_right = i >= left.len() || (j < right.len() && right[j] <= left[i]);
        let x = if take_left {
            left[i]
        } else {
            right[j]
        };
        let ghost before = out@;
        out.push(x);
        proof {
            assert(out@[before.len() as int] == x);
            assert forall|v: usize| before.contains(v) implies out@.contains(v) by {
                let k = choose|k: int| 0 <= k < before.len() && before[k] == v;
                assert(out@[k] == v);
            }
        }
        if take_left {
            i = i + 1;
        }
        if take_right {
            j = j + 1;
        }
    }
    out
}

} // verus!
