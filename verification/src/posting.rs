//! Posting lists as mathematics: strictly ascending sequences of
//! identifiers, and the list of the identifiers that satisfy a predicate.

use vstd::prelude::*;

verus! {

/// A sequence is strictly ascending when every element is smaller than all
/// later ones. Such a sequence holds no value twice.
pub open spec fn strictly_ascending(s: Seq<usize>) -> bool {
    forall|i: int, j: int| 0 <= i < j < s.len() ==> s[i] < s[j]
}

/// The identifiers below `n` that satisfy `pred`, in ascending order.
pub open spec fn ascending_ids(n: nat, pred: spec_fn(int) -> bool) -> Seq<usize>
    decreases n,
{
    if n == 0 {
        Seq::empty()
    } else if pred(n - 1) {
        ascending_ids((n - 1) as nat, pred).push((n - 1) as usize)
    } else {
        ascending_ids((n - 1) as nat, pred)
    }
}

/// A strictly ascending sequence is determined by the set of its elements.
pub proof fn lemma_ascending_unique(a: Seq<usize>, b: Seq<usize>)
    requires
        strictly_ascending(a),
        strictly_ascending(b),
        forall|x: usize| a.contains(x) <==> b.contains(x),
    ensures
        a == b,
    decreases a.len(),
{
    if a.len() == 0 {
        if b.len() > 0 {
            assert(b.contains(b[0]));
        }
    } else {
        assert(a.contains(a.last()));
        assert(b.contains(b.last()));
        // Both last elements are the maximum of the common set.
        let a0 = a.drop_last();
        let b0 = b.drop_last();
        assert forall|x: usize| a0.contains(x) <==> b0.contains(x) by {
            if a0.contains(x) {
                assert(a.contains(x));
                let j = choose|j: int| 0 <= j < b.len() && b[j] == x;
                assert(b0[j] == x);
            }
            if b0.contains(x) {
                assert(b.contains(x));
                let j = choose|j: int| 0 <= j < a.len() && a[j] == x;
                assert(a0[j] == x);
            }
        }
        lemma_ascending_unique(a0, b0);
        assert(a =~= a0.push(a.last()));
    }
}

/// The list of the identifiers that satisfy a predicate is strictly
/// ascending and holds exactly those identifiers.
pub proof fn lemma_ascending_ids(n: nat, pred: spec_fn(int) -> bool)
    requires
        n <= usize::MAX,
    ensures
        strictly_ascending(ascending_ids(n, pred)),
        ascending_ids(n, pred).len() <= n,
        forall|x: usize| ascending_ids(n, pred).contains(x) <==> (x < n && pred(x as int)),
    decreases n,
{
    if n > 0 {
        let m = (n - 1) as nat;
        let before = ascending_ids(m, pred);
        lemma_ascending_ids(m, pred);
        if pred(n - 1) {
            let now = before.push(m as usize);
            if before.len() > 0 {
                assert(before.contains(before.last()));
            }
            assert forall|x: usize| now.contains(x) <==> (x < n && pred(x as int)) by {
                if now.contains(x) {
                    let k = choose|k: int| 0 <= k < now.len() && now[k] == x;
                    if k < before.len() {
                        assert(before.contains(x));
                    }
                }
                if x < n && pred(x as int) {
                    if x == m {
                        assert(now[before.len() as int] == x);
                    } else {
                        assert(before.contains(x));
                        let k = choose|k: int| 0 <= k < before.len() && before[k] == x;
                        assert(now[k] == x);
                    }
                }
            }
        }
    }
}

/// A strictly ascending sequence of identifiers below `n` is the list of
/// the identifiers that it holds.
pub proof fn lemma_ascending_is_listing(s: Seq<usize>, n: nat, pred: spec_fn(int) -> bool)
    requires
        n <= usize::MAX,
        strictly_ascending(s),
        forall|x: usize| s.contains(x) <==> (x < n && pred(x as int)),
    ensures
        s == ascending_ids(n, pred),
{
    lemma_ascending_ids(n, pred);
    lemma_ascending_unique(s, ascending_ids(n, pred));
}

/// Two predicates that agree below `n` list the same identifiers.
pub proof fn lemma_ascending_ids_agree(
    n: nat,
    first: spec_fn(int) -> bool,
    second: spec_fn(int) -> bool,
)
    requires
        forall|i: int| 0 <= i < n ==> #[trigger] first(i) == second(i),
    ensures
        ascending_ids(n, first) == ascending_ids(n, second),
    decreases n,
{
    if n > 0 {
        lemma_ascending_ids_agree((n - 1) as nat, first, second);
    }
}

/// Where no identifier satisfies the predicate, the list is empty.
pub proof fn lemma_ascending_ids_none(n: nat)
    ensures
        ascending_ids(n, |i: int| false) == Seq::<usize>::empty(),
    decreases n,
{
    if n > 0 {
        lemma_ascending_ids_none((n - 1) as nat);
    }
}

} // verus!
