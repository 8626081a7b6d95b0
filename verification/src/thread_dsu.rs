//! Disjoint sets over dense message identifiers, kept as a forest in two
//! flat arrays, with path compression and union by rank.

use crate::error::SearchError;
use crate::posting::strictly_ascending;
use vstd::prelude::*;

verus! {

/// What one node adds to the weight of a forest: its rank, and one more if it
/// is a root.
spec fn node_weight(parent: Seq<usize>, rank: Seq<usize>, i: int) -> nat {
    rank[i] as nat + if parent[i] == i {
        1nat
    } else {
        0nat
    }
}

/// The weight of the first `k` nodes. It never exceeds the number of nodes,
/// which bounds every rank.
spec fn weight(parent: Seq<usize>, rank: Seq<usize>, k: nat) -> nat
    decreases k,
{
    if k == 0 {
        0
    } else {
        weight(parent, rank, (k - 1) as nat) + node_weight(parent, rank, k - 1)
    }
}

/// The arrays describe a forest: parents are in range, ranks grow strictly
/// towards the roots and are bounded.
spec fn forest(parent: Seq<usize>, rank: Seq<usize>) -> bool {
    &&& parent.len() == rank.len()
    &&& forall|i: int| 0 <= i < parent.len() ==> #[trigger] parent[i] < parent.len()
    &&& forall|i: int|
        0 <= i < parent.len() && #[trigger] parent[i] != i ==> rank[i] < rank[parent[i] as int]
    &&& forall|i: int| 0 <= i < parent.len() ==> #[trigger] rank[i] < parent.len()
    &&& weight(parent, rank, parent.len()) <= parent.len()
}

/// The root that the parent chain of `i` ends in.
spec fn root_of(parent: Seq<usize>, rank: Seq<usize>, i: int) -> int
    decreases parent.len() - rank[i],
    when forest(parent, rank) && 0 <= i < parent.len()
{
    if parent[i] == i {
        i
    } else {
        root_of(parent, rank, parent[i] as int)
    }
}

/// The root of a node is a root of the forest, stands for itself, and has
/// a rank above that of every node below it.
proof fn lemma_root(parent: Seq<usize>, rank: Seq<usize>, i: int)
    requires
        forest(parent, rank),
        0 <= i < parent.len(),
    ensures
        0 <= root_of(parent, rank, i) < parent.len(),
        parent[root_of(parent, rank, i)] == root_of(parent, rank, i),
        root_of(parent, rank, root_of(parent, rank, i)) == root_of(parent, rank, i),
        rank[i] <= rank[root_of(parent, rank, i)],
        parent[i] != i ==> rank[i] < rank[root_of(parent, rank, i)],
    decreases parent.len() - rank[i],
{
    if parent[i] != i {
        lemma_root(parent, rank, parent[i] as int);
    }
}

/// Forests that agree on their first `k` nodes weigh the same there.
proof fn lemma_weight_agree(
    parent_a: Seq<usize>,
    rank_a: Seq<usize>,
    parent_b: Seq<usize>,
    rank_b: Seq<usize>,
    k: nat,
)
    requires
        k <= parent_a.len(),
        k <= parent_b.len(),
        k <= rank_a.len(),
        k <= rank_b.len(),
        forall|i: int| 0 <= i < k ==> parent_a[i] == parent_b[i] && rank_a[i] == rank_b[i],
    ensures
        weight(parent_a, rank_a, k) == weight(parent_b, rank_b, k),
    decreases k,
{
    if k > 0 {
        lemma_weight_agree(parent_a, rank_a, parent_b, rank_b, (k - 1) as nat);
    }
}

/// A node that is its own root has itself as parent.
proof fn lemma_self_rooted(parent: Seq<usize>, rank: Seq<usize>, i: int)
    requires
        forest(parent, rank),
        0 <= i < parent.len(),
        root_of(parent, rank, i) == i,
    ensures
        parent[i] == i,
{
    if parent[i] != i {
        lemma_root(parent, rank, parent[i] as int);
    }
}

/// Two forests that differ at the node `x` alone differ in weight by what
/// that node weighs.
proof fn lemma_weight_change(
    parent_a: Seq<usize>,
    rank_a: Seq<usize>,
    parent_b: Seq<usize>,
    rank_b: Seq<usize>,
    k: nat,
    x: int,
)
    requires
        k <= parent_a.len(),
        parent_a.len() == parent_b.len(),
        parent_a.len() == rank_a.len(),
        parent_a.len() == rank_b.len(),
        0 <= x < k,
        forall|i: int|
            0 <= i < k && i != x ==> parent_a[i] == parent_b[i] && rank_a[i] == rank_b[i],
    ensures
        weight(parent_b, rank_b, k) + node_weight(parent_a, rank_a, x) == weight(
            parent_a,
            rank_a,
            k,
        ) + node_weight(parent_b, rank_b, x),
    decreases k,
{
    if x == k - 1 {
        lemma_weight_agree(parent_a, rank_a, parent_b, rank_b, (k - 1) as nat);
    } else {
        lemma_weight_change(parent_a, rank_a, parent_b, rank_b, (k - 1) as nat, x);
    }
}

/// The weight of the first `k` nodes covers what each of them weighs.
proof fn lemma_weight_covers(parent: Seq<usize>, rank: Seq<usize>, k: nat, x: int)
    requires
        0 <= x < k,
    ensures
        node_weight(parent, rank, x) <= weight(parent, rank, k),
    decreases k,
{
    if x < k - 1 {
        lemma_weight_covers(parent, rank, (k - 1) as nat, x);
    }
}

/// Pointing a node straight at its root keeps the forest and every root.
proof fn lemma_compress(parent: Seq<usize>, rank: Seq<usize>, x: int)
    requires
        forest(parent, rank),
        0 <= x < parent.len(),
    ensures
        forest(parent.update(x, root_of(parent, rank, x) as usize), rank),
        forall|i: int|
            0 <= i < parent.len() ==> #[trigger] root_of(
                parent.update(x, root_of(parent, rank, x) as usize),
                rank,
                i,
            ) == root_of(parent, rank, i),
{
    let r = root_of(parent, rank, x);
    let after = parent.update(x, r as usize);
    lemma_root(parent, rank, x);
    if parent[x] == x {
        assert(after =~= parent);
    } else {
        lemma_weight_change(parent, rank, after, rank, parent.len(), x);
        assert forall|i: int| 0 <= i < parent.len() implies #[trigger] root_of(after, rank, i)
            == root_of(parent, rank, i) by {
            lemma_compress_root(parent, rank, x, i);
        }
    }
}

/// Pointing the node `x` straight at its root keeps the root of `i`.
proof fn lemma_compress_root(parent: Seq<usize>, rank: Seq<usize>, x: int, i: int)
    requires
        forest(parent, rank),
        0 <= x < parent.len(),
        parent[x] != x,
        forest(parent.update(x, root_of(parent, rank, x) as usize), rank),
        0 <= i < parent.len(),
    ensures
        root_of(parent.update(x, root_of(parent, rank, x) as usize), rank, i) == root_of(
            parent,
            rank,
            i,
        ),
    decreases parent.len() - rank[i],
{
    let r = root_of(parent, rank, x);
    let after = parent.update(x, r as usize);
    lemma_root(parent, rank, x);
    if i == x {
        assert(root_of(after, rank, r) == r);
    } else if parent[i] != i {
        lemma_compress_root(parent, rank, x, parent[i] as int);
    }
}

/// Hanging the root `lo` below the root `hi` moves the members of `lo`'s
/// tree to `hi` and leaves every other root as it was.
proof fn lemma_link(
    parent: Seq<usize>,
    rank: Seq<usize>,
    rank2: Seq<usize>,
    hi: int,
    lo: int,
    i: int,
)
    requires
        forest(parent, rank),
        0 <= hi < parent.len(),
        0 <= lo < parent.len(),
        hi != lo,
        parent[hi] == hi,
        parent[lo] == lo,
        forest(parent.update(lo, hi as usize), rank2),
        rank2.len() == rank.len(),
        forall|k: int| 0 <= k < rank.len() && k != hi ==> rank2[k] == rank[k],
        0 <= i < parent.len(),
    ensures
        root_of(parent.update(lo, hi as usize), rank2, i) == if root_of(parent, rank, i) == lo {
            hi
        } else {
            root_of(parent, rank, i)
        },
    decreases parent.len() - rank[i],
{
    let after = parent.update(lo, hi as usize);
    if i == lo {
        assert(root_of(after, rank2, hi) == hi);
    } else if parent[i] != i {
        lemma_link(parent, rank, rank2, hi, lo, parent[i] as int);
    }
}

/// Disjoint sets over the identifiers `0 .. len`.
pub struct ThreadDSU {
    parent: Vec<usize>,
    rank: Vec<usize>,
}

/// The lists of a vector of vectors, as sequences.
pub open spec fn seqs_of(groups: Seq<Vec<usize>>) -> Seq<Seq<usize>> {
    Seq::new(groups.len(), |t: int| groups[t]@)
}

/// The identifier `i` stands somewhere in `groups`.
pub open spec fn listed(groups: Seq<Seq<usize>>, i: int) -> bool {
    exists|t: int, k: int|
        0 <= t < groups.len() && 0 <= k < groups[t].len() && #[trigger] groups[t][k] == i
}

/// `groups` lists the sets of `dsu`: every identifier once, each set
/// ascending, the sets in the order of their smallest members.
pub open spec fn lists_sets(dsu: ThreadDSU, groups: Seq<Seq<usize>>) -> bool {
    &&& forall|t: int| 0 <= t < groups.len() ==> (#[trigger] groups[t]).len() > 0
    &&& forall|t: int| 0 <= t < groups.len() ==> strictly_ascending(#[trigger] groups[t])
    &&& forall|t: int, k: int|
        0 <= t < groups.len() && 0 <= k < groups[t].len() ==> (#[trigger] groups[t][k])
            < dsu.spec_len()
    &&& forall|s: int, t: int|
        0 <= s < t < groups.len() ==> (#[trigger] groups[s])[0] < (#[trigger] groups[t])[0]
    &&& forall|i: int| 0 <= i < dsu.spec_len() ==> #[trigger] listed(groups, i)
    &&& forall|t: int, k: int|
        0 <= t < groups.len() && 0 <= k < groups[t].len() ==> dsu.same_set(
            #[trigger] groups[t][k] as int,
            groups[t][0] as int,
        )
    &&& forall|s: int, t: int|
        0 <= s < groups.len() && 0 <= t < groups.len() && s != t ==> !dsu.same_set(
            (#[trigger] groups[s])[0] as int,
            (#[trigger] groups[t])[0] as int,
        )
}

impl ThreadDSU {
    /// The arrays form a forest.
    pub closed spec fn wf(&self) -> bool {
        forest(self.parent@, self.rank@)
    }

    /// How many identifiers have a set.
    pub closed spec fn spec_len(&self) -> nat {
        self.parent@.len()
    }

    /// The member that stands for the set of `i`.
    pub closed spec fn representative(&self, i: int) -> int {
        root_of(self.parent@, self.rank@, i)
    }

    /// Two identifiers are in one set when the same member stands for both.
    pub open spec fn same_set(&self, a: int, b: int) -> bool {
        self.representative(a) == self.representative(b)
    }

    /// The representative of a set is a member of it and stands for itself.
    pub proof fn lemma_representative(&self, i: int)
        requires
            self.wf(),
            0 <= i < self.spec_len(),
        ensures
            0 <= self.representative(i) < self.spec_len(),
            self.representative(self.representative(i)) == self.representative(i),
    {
        lemma_root(self.parent@, self.rank@, i);
    }

    /// No identifier has a set yet.
    pub fn new() -> (dsu: ThreadDSU)
        ensures
            dsu.wf(),
            dsu.spec_len() == 0,
    {
        ThreadDSU { parent: Vec::new(), rank: Vec::new() }
    }

    /// How many identifiers have a set.
    pub fn len(&self) -> (n: usize)
        ensures
            n == self.spec_len(),
    {
        self.parent.len()
    }

    /// Gives the next identifier a set of its own. Identifiers are dense:
    /// any other one is turned down and nothing changes.
    pub fn make_set(&mut self, id: usize) -> (r: Result<(), SearchError>)
        requires
            old(self).wf(),
        ensures
            final(self).wf(),
            id == old(self).spec_len() ==> {
                &&& r is Ok
                &&& final(self).spec_len() == old(self).spec_len() + 1
                &&& final(self).representative(id as int) == id
                &&& forall|i: int|
                    0 <= i < old(self).spec_len() ==> #[trigger] final(self).representative(i)
                        == old(self).representative(i)
            },
            id != old(self).spec_len() ==> {
                &&& r == Err::<(), SearchError>(SearchError::MessageOutOfRange { message_id: id })
                &&& *final(self) == *old(self)
            },
    {
        if id != self.parent.len() {
            return Err(SearchError::MessageOutOfRange { message_id: id });
        }
        let ghost old_parent = self.parent@;
        let ghost old_rank = self.rank@;
        self.parent.push(id);
        self.rank.push(0);
        proof {
            let new_parent = self.parent@;
            let new_rank = self.rank@;
            lemma_weight_agree(old_parent, old_rank, new_parent, new_rank, old_parent.len());
            assert forall|i: int| 0 <= i < old_parent.len() implies #[trigger] root_of(
                new_parent,
                new_rank,
                i,
            ) == root_of(old_parent, old_rank, i) by {
                Self::lemma_grow(old_parent, old_rank, new_parent, new_rank, i);
            }
        }
        Ok(())
    }

    /// A node added to the forest changes no root.
    proof fn lemma_grow(
        old_parent: Seq<usize>,
        old_rank: Seq<usize>,
        new_parent: Seq<usize>,
        new_rank: Seq<usize>,
        i: int,
    )
        requires
            forest(old_parent, old_rank),
            forest(new_parent, new_rank),
            new_parent == old_parent.push(old_parent.len() as usize),
            new_rank == old_rank.push(0),
            0 <= i < old_parent.len(),
        ensures
            root_of(new_parent, new_rank, i) == root_of(old_parent, old_rank, i),
        decreases old_parent.len() - old_rank[i],
    {
        if old_parent[i] != i {
            Self::lemma_grow(old_parent, old_rank, new_parent, new_rank, old_parent[i] as int);
        }
    }

    /// The representative of the set of `x`. The nodes on the way are pointed
    /// straight at it; the sets stay as they were.
    pub fn find(&mut self, x: usize) -> (r: Result<usize, SearchError>)
        requires
            old(self).wf(),
        ensures
            final(self).wf(),
            final(self).spec_len() == old(self).spec_len(),
            forall|i: int|
                0 <= i < old(self).spec_len() ==> #[trigger] final(self).representative(i) == old(
                    self,
                ).representative(i),
            x < old(self).spec_len() ==> r == Ok::<usize, SearchError>(
                old(self).representative(x as int) as usize,
            ),
            x >= old(self).spec_len() ==> r == Err::<usize, SearchError>(
                SearchError::MessageOutOfRange { message_id: x },
            ),
    {
        if x >= self.parent.len() {
            return Err(SearchError::MessageOutOfRange { message_id: x });
        }
        proof {
            lemma_root(self.parent@, self.rank@, x as int);
        }
        Ok(self.find_root(x))
    }

    /// The root of `x`, found along the parents; on the way back every node
    /// that was passed is pointed straight at it.
    fn find_root(&mut self, x: usize) -> (r: usize)
        requires
            old(self).wf(),
            x < old(self).spec_len(),
        ensures
            final(self).wf(),
            final(self).spec_len() == old(self).spec_len(),
            final(self).rank@ == old(self).rank@,
            r == old(self).representative(x as int),
            r < old(self).spec_len(),
            final(self).parent@[r as int] == r,
            forall|i: int|
                0 <= i < old(self).spec_len() ==> #[trigger] final(self).representative(i) == old(
                    self,
                ).representative(i),
        decreases old(self).spec_len() - old(self).rank@[x as int],
    {
        let p = self.parent[x];
        if p == x {
            x
        } else {
            let r = self.find_root(p);
            let ghost mid = *self;
            proof {
                assert(mid.representative(x as int) == old(self).representative(x as int));
                lemma_compress(mid.parent@, mid.rank@, x as int);
            }
            self.parent.set(x, r);
            proof {
                assert forall|i: int|
                    0 <= i < old(self).spec_len() implies #[trigger] self.representative(i) == old(
                    self,
                ).representative(i) by {
                    assert(mid.representative(i) == old(self).representative(i));
                }
            }
            r
        }
    }

    /// Merges the set of `member` into the set of `root_candidate`. An
    /// identifier without a set is turned down and nothing changes.
    pub fn union_sets(&mut self, root_candidate: usize, member: usize) -> (r: Result<
        (),
        SearchError,
    >)
        requires
            old(self).wf(),
        ensures
            final(self).wf(),
            final(self).spec_len() == old(self).spec_len(),
            root_candidate < old(self).spec_len() && member < old(self).spec_len() ==> {
                &&& r is Ok
                &&& forall|x: int, y: int|
                    0 <= x < old(self).spec_len() && 0 <= y < old(self).spec_len() ==> (
                    #[trigger] final(self).same_set(x, y) <==> {
                        ||| old(self).same_set(x, y)
                        ||| old(self).same_set(x, root_candidate as int) && old(self).same_set(
                            y,
                            member as int,
                        )
                        ||| old(self).same_set(x, member as int) && old(self).same_set(
                            y,
                            root_candidate as int,
                        )
                    })
            },
            root_candidate >= old(self).spec_len() ==> {
                &&& r == Err::<(), SearchError>(
                    SearchError::MessageOutOfRange { message_id: root_candidate },
                )
                &&& *final(self) == *old(self)
            },
            root_candidate < old(self).spec_len() && member >= old(self).spec_len() ==> {
                &&& r == Err::<(), SearchError>(
                    SearchError::MessageOutOfRange { message_id: member },
                )
                &&& *final(self) == *old(self)
            },
    {
        if root_candidate >= self.parent.len() {
            return Err(SearchError::MessageOutOfRange { message_id: root_candidate });
        }
        if member >= self.parent.len() {
            return Err(SearchError::MessageOutOfRange { message_id: member });
        }
        let a = self.find_root(root_candidate);
        let b = self.find_root(member);
        proof {
            assert(self.representative(a as int) == a);
            lemma_self_rooted(self.parent@, self.rank@, a as int);
        }
        if a != b {
            let hi = if self.rank[a] < self.rank[b] {
                b
            } else {
                a
            };
            let lo = if hi == a {
                b
            } else {
                a
            };
            let ghost before = *self;
            let ghost old_parent = self.parent@;
            let ghost old_rank = self.rank@;
            let tie = self.rank[hi] == self.rank[lo];
            self.parent.set(lo, hi);
            proof {
                lemma_weight_change(
                    old_parent,
                    old_rank,
                    self.parent@,
                    old_rank,
                    old_parent.len(),
                    lo as int,
                );
            }
            if tie {
                proof {
                    let new_rank = old_rank.update(hi as int, (old_rank[hi as int] + 1) as usize);
                    lemma_weight_change(
                        self.parent@,
                        old_rank,
                        self.parent@,
                        new_rank,
                        old_parent.len(),
                        hi as int,
                    );
                    lemma_weight_covers(self.parent@, old_rank, old_parent.len(), hi as int);
                }
                let bumped = self.rank[hi] + 1;
                self.rank.set(hi, bumped);
            }
            proof {
                let moved = |i: int|
                    if before.representative(i) == lo {
                        hi as int
                    } else {
                        before.representative(i)
                    };
                assert forall|i: int|
                    0 <= i < old_parent.len() implies #[trigger] self.representative(i) == moved(
                    i,
                ) by {
                    lemma_link(old_parent, old_rank, self.rank@, hi as int, lo as int, i);
                }
            }
        }
        Ok(())
    }

    /// The sets as lists: each list ascending, the lists in the order of
    /// their smallest members. Looking the representatives up compresses
    /// paths; the sets stay as they were.
    pub fn get_threads(&mut self) -> (groups: Vec<Vec<usize>>)
        requires
            old(self).wf(),
        ensures
            final(self).wf(),
            final(self).spec_len() == old(self).spec_len(),
            forall|i: int|
                0 <= i < old(self).spec_len() ==> #[trigger] final(self).representative(i) == old(
                    self,
                ).representative(i),
            lists_sets(*old(self), seqs_of(groups@)),
    {
        let n = self.parent.len();
        let ghost start = *self;
        // slot[r] is the place in `groups` of the set that r stands for, or n.
        let mut slot: Vec<usize> = Vec::new();
        let mut filled: usize = 0;
        while filled < n
            invariant
                filled <= n,
                slot.len() == filled,
                forall|j: int| 0 <= j < filled ==> slot[j] == n,
            decreases n - filled,
        {
            slot.push(n);
            filled = filled + 1;
        }
        let mut groups: Vec<Vec<usize>> = Vec::new();
        let mut id: usize = 0;
        while id < n
            invariant
                id <= n,
                n == start.spec_len(),
                start.wf(),
                self.wf(),
                self.spec_len() == n,
                forall|i: int|
                    0 <= i < n ==> #[trigger] self.representative(i) == start.representative(i),
                slot.len() == n,
                groups.len() <= id,
                forall|r: int|
                    0 <= r < n ==> (#[trigger] slot[r]) == n || slot[r] < groups.len(),
                forall|r: int|
                    0 <= r < n && (#[trigger] slot[r]) != n ==> start.representative(
                        groups[slot[r] as int][0] as int,
                    ) == r,
                forall|t: int|
                    0 <= t < groups.len() ==> {
                        &&& (#[trigger] groups[t]).len() > 0
                        &&& strictly_ascending(groups[t]@)
                        &&& slot[start.representative(groups[t][0] as int)] == t
                    },
                forall|t: int, k: int|
                    0 <= t < groups.len() && 0 <= k < groups[t].len() ==> {
                        &&& (#[trigger] groups[t][k]) < id
                        &&& start.representative(groups[t][k] as int) == start.representative(
                            groups[t][0] as int,
                        )
                    },
                forall|s: int, t: int|
                    0 <= s < t < groups.len() ==> (#[trigger] groups[s])[0] < (
                    #[trigger] groups[t])[0],
                forall|i: int| 0 <= i < id ==> #[trigger] listed(seqs_of(groups@), i),
            decreases n - id,
        {
            let r = self.find_root(id);
            let ghost before = groups@;
            let at = slot[r];
            if at == n {
                let mut fresh: Vec<usize> = Vec::new();
                fresh.push(id);
                slot.set(r, groups.len());
                groups.push(fresh);
                proof {
                    let last = before.len() as int;
                    assert forall|t: int| 0 <= t < groups.len() implies {
                        &&& (#[trigger] groups[t]).len() > 0
                        &&& strictly_ascending(groups[t]@)
                        &&& slot[start.representative(groups[t][0] as int)] == t
                    } by {
                        if t < last {
                            start.lemma_representative(before[t][0] as int);
                        }
                    }
                    assert forall|root: int|
                        0 <= root < n && (#[trigger] slot[root]) != n implies start.representative(
                        groups[slot[root] as int][0] as int,
                    ) == root by {}
                    assert forall|i: int| 0 <= i < id + 1 implies #[trigger] listed(
                        seqs_of(groups@),
                        i,
                    ) by {
                        if i < id {
                            assert(listed(seqs_of(before), i));
                            let (t, k) = choose|t: int, k: int|
                                0 <= t < seqs_of(before).len() && 0 <= k < seqs_of(before)[t].len()
                                    && #[trigger] seqs_of(before)[t][k] == i;
                            assert(seqs_of(groups@)[t][k] == i);
                        } else {
                            assert(seqs_of(groups@)[last][0] == i);
                        }
                    }
                }
            } else {
                groups[at].push(id);
                proof {
                    let old_len = before[at as int].len() as int;
                    assert forall|i: int| 0 <= i < id + 1 implies #[trigger] listed(
                        seqs_of(groups@),
                        i,
                    ) by {
                        if i < id {
                            assert(listed(seqs_of(before), i));
                            let (t, k) = choose|t: int, k: int|
                                0 <= t < seqs_of(before).len() && 0 <= k < seqs_of(before)[t].len()
                                    && #[trigger] seqs_of(before)[t][k] == i;
                            assert(seqs_of(groups@)[t][k] == i);
                        } else {
                            assert(seqs_of(groups@)[at as int][old_len] == i);
                        }
                    }
                }
            }
            id = id + 1;
        }
        groups
    }
}

} // verus!
