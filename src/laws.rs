//! General properties of the queue: unique membership, and the order in
//! which items leave across removals and dequeues.

use vstd::prelude::*;

use crate::element::{rank_lt, PqElementData, PqRank};
use crate::queue::InstrusiveIndexedPriorityQueue;

verus! {

/// `x` leaves `q` before `y`: both are queued, and `x` has the earlier rank,
/// or the same rank and the earlier place in their bucket.
pub open spec fn precedes(q: InstrusiveIndexedPriorityQueue, x: usize, y: usize) -> bool {
    exists|kx: PqRank, ky: PqRank, i: int, j: int|
        #![trigger q.bucket(kx)[i], q.bucket(ky)[j]]
        0 <= i < q.bucket(kx).len() && 0 <= j < q.bucket(ky).len() && q.bucket(kx)[i] == x
            && q.bucket(ky)[j] == y && (rank_lt(kx, ky) || (kx == ky && i < j))
}

/// Membership is unique and matches the records: an item is in a bucket
/// exactly when its record says it is queued, then only in the bucket for
/// its rank, and there only once.
pub proof fn lemma_membership_unique(
    q: InstrusiveIndexedPriorityQueue,
    ls: Seq<PqElementData>,
    i: usize,
)
    requires
        q.wf(ls),
        i < ls.len(),
    ensures
        ls[i as int].in_pq <==> q.contains(i),
        forall|k: PqRank| #[trigger] q.bucket(k).contains(i) ==> k == ls[i as int].pq_rank,
        forall|k: PqRank| #[trigger] q.bucket(k).no_duplicates(),
{
    q.lemma_queued(ls, i as int);
    assert forall|k: PqRank| #[trigger] q.bucket(k).contains(i) implies k == ls[i as int].pq_rank
        && ls[i as int].in_pq by {
        q.lemma_member_of(ls, k, i);
    }
}

/// Removing queued item `b` leaves it in no bucket, and any two other items
/// keep the order in which they leave.
pub proof fn lemma_remove_keeps_order(
    pre: InstrusiveIndexedPriorityQueue,
    post: InstrusiveIndexedPriorityQueue,
    ls: Seq<PqElementData>,
    b: usize,
    x: usize,
    y: usize,
)
    requires
        pre.wf(ls),
        b < ls.len(),
        ls[b as int].in_pq,
        post.removed(pre, b, ls[b as int].pq_rank),
        x != b,
        y != b,
        precedes(pre, x, y),
    ensures
        !post.contains(b),
        precedes(post, x, y),
{
    let kb = ls[b as int].pq_rank;
    let s = pre.bucket(kb);
    pre.lemma_queued(ls, b as int);
    let jb = s.index_of(b);
    assert(s.contains(b));
    assert(s[jb] == b);
    assert(s.no_duplicates());
    assert forall|k: PqRank| !(#[trigger] post.bucket(k)).contains(b) by {
        if k != kb {
            assert(post.bucket(k) == pre.bucket(k));
            if pre.bucket(k).contains(b) {
                pre.lemma_member_of(ls, k, b);
            }
        } else if post.bucket(k).contains(b) {
            let j = choose|j: int| 0 <= j < post.bucket(k).len() && post.bucket(k)[j] == b;
            let j0 = if j < jb { j } else { j + 1 };
            assert(s[j0] == b);
            assert(j0 != jb);
        }
    }
    let (kx, ky, i, j) = choose|kx: PqRank, ky: PqRank, i: int, j: int|
        #![trigger pre.bucket(kx)[i], pre.bucket(ky)[j]]
        0 <= i < pre.bucket(kx).len() && 0 <= j < pre.bucket(ky).len() && pre.bucket(kx)[i] == x
            && pre.bucket(ky)[j] == y && (rank_lt(kx, ky) || (kx == ky && i < j));
    let i2 = if kx == kb && i > jb { i - 1 } else { i };
    let j2 = if ky == kb && j > jb { j - 1 } else { j };
    assert(post.bucket(kx)[i2] == x);
    assert(post.bucket(ky)[j2] == y);
}

/// A dequeue that takes `x` from the bucket for `k` takes an item that no
/// queued item precedes; afterwards `x` is in no bucket, the other items
/// stay queued, and any two of them keep the order in which they leave.
pub proof fn lemma_dequeue_takes_first(
    pre: InstrusiveIndexedPriorityQueue,
    post: InstrusiveIndexedPriorityQueue,
    ls: Seq<PqElementData>,
    x: usize,
    k: PqRank,
    y: usize,
    z: usize,
)
    requires
        pre.wf(ls),
        post.took_head(pre, x, k),
    ensures
        pre.contains(x),
        !post.contains(x),
        !precedes(pre, y, x),
        y != x ==> (post.contains(y) <==> pre.contains(y)),
        y != x && z != x && precedes(pre, y, z) ==> precedes(post, y, z),
{
    let s = pre.bucket(k);
    assert(s[0] == x);
    pre.lemma_member(ls, k, 0);
    pre.lemma_queued(ls, x as int);
    assert(pre.bucket(k).contains(x));
    assert forall|k2: PqRank| !(#[trigger] post.bucket(k2)).contains(x) by {
        if k2 != k {
            if pre.bucket(k2).contains(x) {
                pre.lemma_member_of(ls, k2, x);
            }
        } else if post.bucket(k2).contains(x) {
            let j = choose|j: int| 0 <= j < post.bucket(k2).len() && post.bucket(k2)[j] == x;
            assert(s[j + 1] == x);
        }
    }
    if precedes(pre, y, x) {
        let (ky, kx, i, j) = choose|ky: PqRank, kx: PqRank, i: int, j: int|
            #![trigger pre.bucket(ky)[i], pre.bucket(kx)[j]]
            0 <= i < pre.bucket(ky).len() && 0 <= j < pre.bucket(kx).len() && pre.bucket(ky)[i]
                == y && pre.bucket(kx)[j] == x && (rank_lt(ky, kx) || (ky == kx && i < j));
        assert(pre.bucket(kx).contains(x));
        pre.lemma_member_of(ls, kx, x);
        assert(pre.bucket(ky).len() > 0);
    }
    if y != x {
        if pre.contains(y) {
            let k2 = choose|k2: PqRank| #[trigger] pre.bucket(k2).contains(y);
            let j = choose|j: int| 0 <= j < pre.bucket(k2).len() && pre.bucket(k2)[j] == y;
            if k2 == k {
                assert(j != 0);
                assert(post.bucket(k2)[j - 1] == y);
            } else {
                assert(post.bucket(k2)[j] == y);
            }
            assert(post.bucket(k2).contains(y));
        }
        if post.contains(y) {
            let k2 = choose|k2: PqRank| #[trigger] post.bucket(k2).contains(y);
            let j = choose|j: int| 0 <= j < post.bucket(k2).len() && post.bucket(k2)[j] == y;
            if k2 == k {
                assert(pre.bucket(k2)[j + 1] == y);
            } else {
                assert(pre.bucket(k2)[j] == y);
            }
            assert(pre.bucket(k2).contains(y));
        }
    }
    if y != x && z != x && precedes(pre, y, z) {
        let (ky, kz, i, j) = choose|ky: PqRank, kz: PqRank, i: int, j: int|
            #![trigger pre.bucket(ky)[i], pre.bucket(kz)[j]]
            0 <= i < pre.bucket(ky).len() && 0 <= j < pre.bucket(kz).len() && pre.bucket(ky)[i]
                == y && pre.bucket(kz)[j] == z && (rank_lt(ky, kz) || (ky == kz && i < j));
        let i2 = if ky == k { i - 1 } else { i };
        let j2 = if kz == k { j - 1 } else { j };
        assert(post.bucket(ky)[i2] == y);
        assert(post.bucket(kz)[j2] == z);
    }
}

} // verus!
