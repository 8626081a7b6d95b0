//! Reply threads: the messages that reply edges connect, as lists of
//! message identifiers.

use crate::error::SearchError;
use crate::message::{
    archive_view, first_misplaced, first_misplaced_at, well_formed, well_placed, Message,
    MessageView,
};
use crate::posting::{
    ascending_ids, lemma_ascending_ids, lemma_ascending_is_listing, strictly_ascending,
};
use crate::thread_dsu::{listed, lists_sets, seqs_of, ThreadDSU};
use vstd::prelude::*;

verus! {

/// The message that starts the thread of message `i`: follow the reply
/// edges to earlier messages until a message answers none.
pub open spec fn thread_root(archive: Seq<MessageView>, i: int) -> int
    decreases i,
{
    if 0 <= i < archive.len() && archive[i].reply_to is Some && archive[i].reply_to->0 < i {
        thread_root(archive, archive[i].reply_to->0 as int)
    } else {
        i
    }
}

/// The messages that start a thread, in ascending order.
pub open spec fn thread_heads(archive: Seq<MessageView>) -> Seq<usize> {
    ascending_ids(archive.len(), |i: int| thread_root(archive, i) == i)
}

/// The messages of the thread that `head` starts, in ascending order.
pub open spec fn thread_members(archive: Seq<MessageView>, head: int) -> Seq<usize> {
    ascending_ids(archive.len(), |i: int| thread_root(archive, i) == head)
}

/// The threads of an archive: one list of members for each head, in the
/// order of the heads. A thread's identifier is its position in this list.
pub open spec fn threads_of(archive: Seq<MessageView>) -> Seq<Seq<usize>> {
    Seq::new(
        thread_heads(archive).len(),
        |t: int| thread_members(archive, thread_heads(archive)[t] as int),
    )
}

/// The identifier of the thread that holds message `i`.
pub open spec fn thread_id_of(archive: Seq<MessageView>, i: int) -> int {
    thread_heads(archive).index_of(thread_root(archive, i) as usize)
}

/// The start of a thread is a message of the archive, not later than any
/// member, and starts its own thread.
pub proof fn lemma_thread_root(archive: Seq<MessageView>, i: int)
    requires
        0 <= i < archive.len(),
    ensures
        0 <= thread_root(archive, i) <= i,
        thread_root(archive, thread_root(archive, i)) == thread_root(archive, i),
    decreases i,
{
    if archive[i].reply_to is Some && archive[i].reply_to->0 < i {
        lemma_thread_root(archive, archive[i].reply_to->0 as int);
    }
}

/// Every thread is a non-empty, strictly ascending list of messages that
/// begins with its head, and the threads stand in the strictly ascending
/// order of their first members.
pub proof fn lemma_threads_ascending(archive: Seq<MessageView>)
    requires
        archive.len() <= usize::MAX,
    ensures
        threads_of(archive).len() == thread_heads(archive).len(),
        threads_of(archive).len() <= archive.len(),
        strictly_ascending(thread_heads(archive)),
        forall|t: int|
            0 <= t < threads_of(archive).len() ==> {
                &&& strictly_ascending(#[trigger] threads_of(archive)[t])
                &&& threads_of(archive)[t].len() > 0
                &&& threads_of(archive)[t][0] == thread_heads(archive)[t]
                &&& threads_of(archive)[t].last() < archive.len()
            },
        forall|s: int, t: int|
            0 <= s < t < threads_of(archive).len() ==> (#[trigger] threads_of(archive)[s])[0] < (
            #[trigger] threads_of(archive)[t])[0],
{
    let heads = thread_heads(archive);
    let n = archive.len();
    lemma_ascending_ids(n, |i: int| thread_root(archive, i) == i);
    assert forall|t: int| 0 <= t < threads_of(archive).len() implies {
        &&& strictly_ascending(#[trigger] threads_of(archive)[t])
        &&& threads_of(archive)[t].len() > 0
        &&& threads_of(archive)[t][0] == heads[t]
        &&& threads_of(archive)[t].last() < archive.len()
    } by {
        let head = heads[t];
        let members = thread_members(archive, head as int);
        lemma_ascending_ids(n, |i: int| thread_root(archive, i) == head);
        assert(heads.contains(head));
        assert(members.contains(head));
        assert(members.contains(members[0]));
        assert(members.contains(members.last()));
        lemma_thread_root(archive, members[0] as int);
    }
}

/// Every message stands in exactly one thread: the one that its start
/// heads.
pub proof fn lemma_message_in_one_thread(archive: Seq<MessageView>, i: int)
    requires
        archive.len() <= usize::MAX,
        0 <= i < archive.len(),
    ensures
        0 <= thread_id_of(archive, i) < threads_of(archive).len(),
        threads_of(archive)[thread_id_of(archive, i)].contains(i as usize),
        threads_of(archive)[thread_id_of(archive, i)][0] == thread_root(archive, i),
        forall|t: int|
            0 <= t < threads_of(archive).len() && (#[trigger] threads_of(archive)[t]).contains(
                i as usize,
            ) ==> t == thread_id_of(archive, i),
{
    let heads = thread_heads(archive);
    let n = archive.len();
    let root = thread_root(archive, i);
    lemma_thread_root(archive, i);
    lemma_ascending_ids(n, |j: int| thread_root(archive, j) == j);
    lemma_threads_ascending(archive);
    heads.index_of_first_ensures(root as usize);
    let id = thread_id_of(archive, i);
    lemma_ascending_ids(n, |j: int| thread_root(archive, j) == root);
    assert forall|t: int|
        0 <= t < threads_of(archive).len() && (#[trigger] threads_of(archive)[t]).contains(
            i as usize,
        ) implies t == id by {
        let head = heads[t];
        lemma_ascending_ids(n, |j: int| thread_root(archive, j) == head);
    }
}

/// A message and the message that it answers stand in the same thread.
pub proof fn lemma_reply_shares_thread(archive: Seq<MessageView>, i: int)
    requires
        archive.len() <= usize::MAX,
        well_formed(archive),
        0 <= i < archive.len(),
        archive[i].reply_to is Some,
    ensures
        thread_id_of(archive, i) == thread_id_of(archive, archive[i].reply_to->0 as int),
        0 <= thread_id_of(archive, i) < threads_of(archive).len(),
        threads_of(archive)[thread_id_of(archive, i)].contains(i as usize),
        threads_of(archive)[thread_id_of(archive, i)].contains(archive[i].reply_to->0),
{
    let r = archive[i].reply_to->0;
    assert(well_placed(archive, i));
    lemma_message_in_one_thread(archive, i);
    lemma_message_in_one_thread(archive, r as int);
}

/// Sharing a thread carries along reply chains: where `a` answers `b` and
/// `b` answers `c`, all three stand in one thread.
pub proof fn lemma_reply_chain_shares_thread(
    archive: Seq<MessageView>,
    a: usize,
    b: usize,
    c: usize,
)
    requires
        archive.len() <= usize::MAX,
        well_formed(archive),
        a < archive.len(),
        archive[a as int].reply_to == Some(b),
        b < archive.len(),
        archive[b as int].reply_to == Some(c),
    ensures
        thread_id_of(archive, a as int) == thread_id_of(archive, b as int),
        thread_id_of(archive, b as int) == thread_id_of(archive, c as int),
        0 <= thread_id_of(archive, a as int) < threads_of(archive).len(),
        threads_of(archive)[thread_id_of(archive, a as int)].contains(a),
        threads_of(archive)[thread_id_of(archive, a as int)].contains(b),
        threads_of(archive)[thread_id_of(archive, a as int)].contains(c),
{
    lemma_reply_shares_thread(archive, a as int);
    lemma_reply_shares_thread(archive, b as int);
}

/// The start of message `x` once the reply edges of the messages before
/// `k` are known: later messages still stand alone.
spec fn root_so_far(archive: Seq<MessageView>, k: int, x: int) -> int {
    if x < k {
        thread_root(archive, x)
    } else {
        x
    }
}

/// `groups` lists the messages of the archive thread by thread: every
/// message once, each list ascending and made of the messages that its first
/// member starts, the lists in the order of their first members.
pub open spec fn lists_threads(archive: Seq<MessageView>, groups: Seq<Seq<usize>>) -> bool {
    &&& forall|t: int| 0 <= t < groups.len() ==> (#[trigger] groups[t]).len() > 0
    &&& forall|t: int| 0 <= t < groups.len() ==> strictly_ascending(#[trigger] groups[t])
    &&& forall|t: int, k: int|
        0 <= t < groups.len() && 0 <= k < groups[t].len() ==> (#[trigger] groups[t][k])
            < archive.len()
    &&& forall|s: int, t: int|
        0 <= s < t < groups.len() ==> (#[trigger] groups[s])[0] < (#[trigger] groups[t])[0]
    &&& forall|i: int| 0 <= i < archive.len() ==> #[trigger] listed(groups, i)
    &&& forall|t: int, k: int|
        0 <= t < groups.len() && 0 <= k < groups[t].len() ==> thread_root(
            archive,
            #[trigger] groups[t][k] as int,
        ) == groups[t][0]
}

/// There is one way to list the messages thread by thread: the list of the
/// archive's threads.
pub proof fn lemma_threads_characterized(archive: Seq<MessageView>, groups: Seq<Seq<usize>>)
    requires
        archive.len() <= usize::MAX,
        lists_threads(archive, groups),
    ensures
        groups == threads_of(archive),
{
    let n = archive.len();
    let heads = thread_heads(archive);
    let firsts = Seq::new(groups.len(), |t: int| groups[t][0]);
    assert forall|x: usize| firsts.contains(x) <==> (x < n && thread_root(archive, x as int)
        == x) by {
        if x < n && thread_root(archive, x as int) == x {
            assert(listed(groups, x as int));
            let (s, k) = choose|s: int, k: int|
                0 <= s < groups.len() && 0 <= k < groups[s].len() && #[trigger] groups[s][k] == x;
            assert(firsts[s] == x);
        }
    }
    lemma_ascending_is_listing(firsts, n, |i: int| thread_root(archive, i) == i);
    assert forall|t: int| 0 <= t < groups.len() implies #[trigger] groups[t] == thread_members(
        archive,
        heads[t] as int,
    ) by {
        let head = heads[t];
        assert forall|x: usize| groups[t].contains(x) <==> (x < n && thread_root(archive, x as int)
            == head) by {
            if x < n && thread_root(archive, x as int) == head {
                assert(listed(groups, x as int));
                let (s, k) = choose|s: int, k: int|
                    0 <= s < groups.len() && 0 <= k < groups[s].len() && #[trigger] groups[s][k]
                        == x;
                // The list that holds x begins with the same head, so it is list t.
                assert(firsts[s] == firsts[t]);
                assert(s == t);
            }
        }
        lemma_ascending_is_listing(groups[t], n, |i: int| thread_root(archive, i) == head);
    }
}

/// The list of the archive's threads lists the messages thread by thread.
pub proof fn lemma_threads_are_listed(archive: Seq<MessageView>)
    requires
        archive.len() <= usize::MAX,
    ensures
        lists_threads(archive, threads_of(archive)),
{
    let groups = threads_of(archive);
    let heads = thread_heads(archive);
    let n = archive.len();
    lemma_threads_ascending(archive);
    assert forall|t: int, k: int| 0 <= t < groups.len() && 0 <= k < groups[t].len() implies (
    #[trigger] groups[t][k]) < n && thread_root(archive, groups[t][k] as int) == groups[t][0] by {
        let head = heads[t];
        lemma_ascending_ids(n, |i: int| thread_root(archive, i) == head);
        assert(groups[t].contains(groups[t][k]));
    }
    assert forall|i: int| 0 <= i < n implies #[trigger] listed(groups, i) by {
        lemma_message_in_one_thread(archive, i);
    }
}

/// A listing of sets that group messages by their thread start lists the
/// messages thread by thread.
proof fn lemma_sets_are_threads(archive: Seq<MessageView>, dsu: ThreadDSU, groups: Seq<Seq<usize>>)
    requires
        dsu.spec_len() == archive.len(),
        lists_sets(dsu, groups),
        forall|x: int, y: int|
            0 <= x < archive.len() && 0 <= y < archive.len() ==> (#[trigger] dsu.same_set(x, y)
                <==> thread_root(archive, x) == thread_root(archive, y)),
    ensures
        lists_threads(archive, groups),
{
    // The first member of each group starts its own thread.
    assert forall|t: int| 0 <= t < groups.len() implies thread_root(
        archive,
        (#[trigger] groups[t])[0] as int,
    ) == groups[t][0] by {
        let f = groups[t][0];
        let h = thread_root(archive, f as int);
        lemma_thread_root(archive, f as int);
        assert(listed(groups, h));
        let (s, k) = choose|s: int, k: int|
            0 <= s < groups.len() && 0 <= k < groups[s].len() && #[trigger] groups[s][k] == h;
        // The start stands in the same set as the first member, so in its
        // group, which begins with nothing later.
        assert(dsu.same_set(groups[s][0] as int, groups[t][0] as int));
        assert(s == t);
        assert(h == f);
    }
}

/// Groups the messages into their threads. A message that is not well
/// placed is reported with its position, the first such one.
pub fn build_threads(messages: &Vec<Message>) -> (r: Result<Vec<Vec<usize>>, SearchError>)
    ensures
        match r {
            Ok(groups) => well_formed(archive_view(messages@)) && seqs_of(groups@) == threads_of(
                archive_view(messages@),
            ),
            Err(e) => e matches SearchError::MalformedArchive { position } && first_misplaced_at(
                archive_view(messages@),
                position as int,
            ),
        },
{
    let ghost archive = archive_view(messages@);
    match first_misplaced(messages) {
        Some(p) => {
            return Err(SearchError::MalformedArchive { position: p });
        },
        None => {},
    }
    let n = messages.len();
    let mut dsu = ThreadDSU::new();
    let mut id: usize = 0;
    while id < n
        invariant
            id <= n,
            n == messages.len(),
            dsu.wf(),
            dsu.spec_len() == id,
            forall|i: int| 0 <= i < id ==> #[trigger] dsu.representative(i) == i,
        decreases n - id,
    {
        dsu.make_set(id)?;
        id = id + 1;
    }
    let mut k: usize = 0;
    while k < n
        invariant
            k <= n,
            n == messages.len(),
            archive == archive_view(messages@),
            well_formed(archive),
            dsu.wf(),
            dsu.spec_len() == n,
            forall|x: int, y: int|
                0 <= x < n && 0 <= y < n ==> (#[trigger] dsu.same_set(x, y) <==> root_so_far(
                    archive,
                    k as int,
                    x,
                ) == root_so_far(archive, k as int, y)),
        decreases n - k,
    {
        proof {
            assert(well_placed(archive, k as int));
        }
        match messages[k].reply_to_message_id {
            Some(reply_to) => {
                dsu.union_sets(reply_to, k)?;
                proof {
                    assert forall|x: int, y: int| 0 <= x < n && 0 <= y < n implies (
                    #[trigger] dsu.same_set(x, y) <==> root_so_far(archive, k + 1, x)
                        == root_so_far(archive, k + 1, y)) by {
                        lemma_thread_root(archive, x);
                        lemma_thread_root(archive, y);
                    }
                }
            },
            None => {},
        }
        k = k + 1;
    }
    let ghost joined = dsu;
    let groups = dsu.get_threads();
    proof {
        lemma_sets_are_threads(archive, joined, seqs_of(groups@));
        lemma_threads_characterized(archive, seqs_of(groups@));
    }
    Ok(groups)
}

} // verus!
