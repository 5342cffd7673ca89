//! The rank-bucketed queue: its abstract buckets, well-formedness, and
//! the verified operations.

use vstd::prelude::*;

use crate::element::{links, rank_lt, PqElement, PqElementData, PqRank};
use crate::list::{
    lemma_list_at, lemma_list_frame, linked_at, list_push, list_unlink, list_wf, unlinked, Entry,
};

verus! {

/// Number of numeric buckets a new queue starts with.
const INIT_SIZE: usize = 1000;

/// A priority queue of arena indices, bucketed by rank.
///
/// Numeric ranks dequeue in increasing order, each bucket first in first
/// out, and the `Effect` bucket only once every numeric bucket is empty.
/// `min_rank..=max_rank` covers every non-empty numeric bucket; the bounds
/// are kept lazily and return to `0, -1` once the numeric buckets drain.
pub struct InstrusiveIndexedPriorityQueue {
    entries: Vec<Entry>,
    last: Entry,
    min_rank: i32,
    max_rank: i32,
    pure_lists: Ghost<Seq<Seq<usize>>>,
    effect_list: Ghost<Seq<usize>>,
}

impl InstrusiveIndexedPriorityQueue {
    /// The items of the bucket for rank `k`, in the order they leave it.
    pub closed spec fn bucket(&self, k: PqRank) -> Seq<usize> {
        match k {
            PqRank::Pure(r) => if 0 <= r < self.pure_lists@.len() {
                self.pure_lists@[r as int]
            } else {
                Seq::empty()
            },
            PqRank::Effect => self.effect_list@,
        }
    }

    /// The lower bound of the numeric ranks that may be occupied.
    pub closed spec fn min_bound(&self) -> int {
        self.min_rank as int
    }

    /// The upper bound of the numeric ranks that may be occupied.
    pub closed spec fn max_bound(&self) -> int {
        self.max_rank as int
    }

    /// No bucket holds an item.
    pub open spec fn vacant(&self) -> bool {
        forall|k: PqRank| #[trigger] self.bucket(k).len() == 0
    }

    /// Item `x` is in some bucket.
    pub open spec fn contains(&self, x: usize) -> bool {
        exists|k: PqRank| #[trigger] self.bucket(k).contains(x)
    }

    /// What `is_empty` reports: the bounds are crossed and the effect
    /// bucket has no head (see `lemma_reports_empty` for its meaning).
    pub closed spec fn reports_empty(&self) -> bool {
        self.min_rank > self.max_rank && self.last.head is None
    }

    /// The queue is consistent with the link records `ls` of the arena.
    #[verifier::opaque]
    pub closed spec fn wf(&self, ls: Seq<PqElementData>) -> bool {
        &&& self.shape_wf()
        &&& self.lists_wf(ls)
        &&& self.members_wf(ls)
    }

    /// Sizes and bounds: every non-empty numeric bucket lies within the
    /// bounds, and crossed bounds are `0, -1`.
    spec fn shape_wf(&self) -> bool {
        &&& self.pure_lists@.len() == self.entries@.len()
        &&& self.entries@.len() <= i32::MAX + 1
        &&& 0 <= self.min_rank
        &&& -1 <= self.max_rank < self.entries@.len()
        &&& self.min_rank > self.max_rank ==> self.min_rank == 0 && self.max_rank == -1
        &&& forall|b: int|
            0 <= b < self.entries@.len() && (#[trigger] self.pure_lists@[b]).len() > 0
                ==> self.min_rank <= b <= self.max_rank
    }

    /// Every bucket's list is linked through the records `ls`.
    spec fn lists_wf(&self, ls: Seq<PqElementData>) -> bool {
        &&& forall|b: int|
            0 <= b < self.entries@.len() ==> list_wf(
                #[trigger] self.entries@[b],
                self.pure_lists@[b],
                PqRank::Pure(b as i32),
                ls,
            )
        &&& list_wf(self.last, self.effect_list@, PqRank::Effect, ls)
    }

    /// Every record marked queued is in the bucket for its rank.
    spec fn members_wf(&self, ls: Seq<PqElementData>) -> bool {
        &&& ls.len() <= usize::MAX
        &&& forall|i: int|
            0 <= i < ls.len() && (#[trigger] ls[i]).in_pq ==> self.bucket(ls[i].pq_rank).contains(
                i as usize,
            )
    }

    /// `self` is `pre` with item `a` appended to the bucket for rank `k`,
    /// and the bounds widened to cover a numeric `k`.
    pub open spec fn appended(&self, pre: Self, a: usize, k: PqRank) -> bool {
        &&& self.bucket(k) == pre.bucket(k).push(a)
        &&& forall|k2: PqRank| k2 != k ==> #[trigger] self.bucket(k2) == pre.bucket(k2)
        &&& match k {
            PqRank::Pure(r) => {
                &&& self.min_bound() == (if r < pre.min_bound() {
                    r as int
                } else {
                    pre.min_bound()
                })
                &&& self.max_bound() == (if r > pre.max_bound() {
                    r as int
                } else {
                    pre.max_bound()
                })
            },
            PqRank::Effect => self.min_bound() == pre.min_bound() && self.max_bound()
                == pre.max_bound(),
        }
    }

    /// Under `wf`, the item at position `j` of a bucket holds the record
    /// that links it there.
    pub proof fn lemma_member(&self, ls: Seq<PqElementData>, k: PqRank, j: int)
        requires
            self.wf(ls),
            0 <= j < self.bucket(k).len(),
        ensures
            self.bucket(k)[j] < ls.len(),
            ls[self.bucket(k)[j] as int] == linked_at(k, self.bucket(k), j),
            self.bucket(k).no_duplicates(),
    {
        reveal(InstrusiveIndexedPriorityQueue::wf);
        if let PqRank::Pure(r) = k {
            assert(list_wf(
                self.entries@[r as int],
                self.pure_lists@[r as int],
                PqRank::Pure(r),
                ls,
            ));
        }
    }

    /// Under `wf`, an item whose record says it is queued is in the bucket
    /// for its rank, and every bucket holds each item at most once.
    pub proof fn lemma_queued(&self, ls: Seq<PqElementData>, i: int)
        requires
            self.wf(ls),
            0 <= i < ls.len(),
        ensures
            i <= usize::MAX,
            ls[i].in_pq ==> self.bucket(ls[i].pq_rank).contains(i as usize),
            forall|k: PqRank| #[trigger] self.bucket(k).no_duplicates(),
    {
        reveal(InstrusiveIndexedPriorityQueue::wf);
        assert forall|k: PqRank| #[trigger] self.bucket(k).no_duplicates() by {
            if self.bucket(k).len() > 0 {
                self.lemma_member(ls, k, 0);
            }
        }
    }

    /// Under `wf`, an item in the bucket for `k` is queued with rank `k`.
    pub proof fn lemma_member_of(&self, ls: Seq<PqElementData>, k: PqRank, x: usize)
        requires
            self.wf(ls),
            self.bucket(k).contains(x),
        ensures
            x < ls.len(),
            ls[x as int].in_pq,
            ls[x as int].pq_rank == k,
    {
        reveal(InstrusiveIndexedPriorityQueue::wf);
        let j = choose|j: int| 0 <= j < self.bucket(k).len() && self.bucket(k)[j] == x;
        self.lemma_member(ls, k, j);
    }

    /// `self` is `mid` with `a` appended to the bucket for `k`, where `mid`
    /// is well formed under `ls0` and differs from `pre` by empty buckets only,
    /// and `ls1` changes records of `a` and of that bucket's items only.
    spec fn append_step(
        &self,
        pre: Self,
        mid: Self,
        ls0: Seq<PqElementData>,
        ls1: Seq<PqElementData>,
        a: usize,
        k: PqRank,
    ) -> bool {
        &&& mid.wf(ls0)
        &&& forall|k2: PqRank| #[trigger] mid.bucket(k2) == pre.bucket(k2)
        &&& mid.min_rank == pre.min_rank
        &&& mid.max_rank == pre.max_rank
        &&& a < ls0.len()
        &&& !ls0[a as int].in_pq
        &&& ls0[a as int].pq_rank == k
        &&& ls1.len() == ls0.len()
        &&& forall|i: int|
            0 <= i < ls0.len() && i != a && !mid.bucket(k).contains(i as usize) ==> ls1[i]
                == ls0[i]
        &&& match k {
            PqRank::Pure(r) => {
                &&& 0 <= r < mid.entries@.len()
                &&& self.entries@ == mid.entries@.update(r as int, self.entries@[r as int])
                &&& self.pure_lists@ == mid.pure_lists@.update(
                    r as int,
                    mid.pure_lists@[r as int].push(a),
                )
                &&& self.last == mid.last
                &&& self.effect_list == mid.effect_list
                &&& list_wf(self.entries@[r as int], self.pure_lists@[r as int], k, ls1)
                &&& self.min_rank == (if r < mid.min_rank {
                    r
                } else {
                    mid.min_rank
                })
                &&& self.max_rank == (if r > mid.max_rank {
                    r
                } else {
                    mid.max_rank
                })
            },
            PqRank::Effect => {
                &&& self.entries == mid.entries
                &&& self.pure_lists == mid.pure_lists
                &&& self.effect_list@ == mid.effect_list@.push(a)
                &&& list_wf(self.last, self.effect_list@, k, ls1)
                &&& self.min_rank == mid.min_rank
                &&& self.max_rank == mid.max_rank
            },
        }
    }

    proof fn lemma_append_buckets(
        &self,
        pre: Self,
        mid: Self,
        ls0: Seq<PqElementData>,
        ls1: Seq<PqElementData>,
        a: usize,
        k: PqRank,
    )
        requires
            self.append_step(pre, mid, ls0, ls1, a, k),
        ensures
            forall|k2: PqRank| k2 != k ==> #[trigger] self.bucket(k2) == mid.bucket(k2),
            self.bucket(k) == mid.bucket(k).push(a),
            self.appended(pre, a, k),
    {
        reveal(InstrusiveIndexedPriorityQueue::wf);
        assert forall|k2: PqRank| k2 != k implies #[trigger] self.bucket(k2) == mid.bucket(k2) by {}
        assert(mid.bucket(k) == pre.bucket(k));
        assert(self.bucket(k) == pre.bucket(k).push(a));
        assert forall|k2: PqRank| k2 != k implies #[trigger] self.bucket(k2) == pre.bucket(k2) by {
            assert(mid.bucket(k2) == pre.bucket(k2));
        }
    }

    proof fn lemma_append_lists(
        &self,
        pre: Self,
        mid: Self,
        ls0: Seq<PqElementData>,
        ls1: Seq<PqElementData>,
        a: usize,
        k: PqRank,
    )
        requires
            self.append_step(pre, mid, ls0, ls1, a, k),
        ensures
            self.lists_wf(ls1),
    {
        reveal(InstrusiveIndexedPriorityQueue::wf);
        assert forall|b: int| 0 <= b < self.entries@.len() implies list_wf(
            #[trigger] self.entries@[b],
            self.pure_lists@[b],
            PqRank::Pure(b as i32),
            ls1,
        ) by {
            if PqRank::Pure(b as i32) != k {
                let t = mid.pure_lists@[b];
                assert(list_wf(mid.entries@[b], t, PqRank::Pure(b as i32), ls0));
                assert(mid.bucket(PqRank::Pure(b as i32)) == t);
                assert forall|j: int| 0 <= j < t.len() implies ls1[#[trigger] t[j] as int]
                    == ls0[t[j] as int] by {
                    mid.lemma_member(ls0, PqRank::Pure(b as i32), j);
                    if mid.bucket(k).contains(t[j]) {
                        mid.lemma_member_of(ls0, k, t[j]);
                    }
                }
                lemma_list_frame(mid.entries@[b], t, PqRank::Pure(b as i32), ls0, ls1);
            }
        }
        if k != PqRank::Effect {
            let t = mid.effect_list@;
            assert forall|j: int| 0 <= j < t.len() implies ls1[#[trigger] t[j] as int]
                == ls0[t[j] as int] by {
                mid.lemma_member(ls0, PqRank::Effect, j);
                if mid.bucket(k).contains(t[j]) {
                    mid.lemma_member_of(ls0, k, t[j]);
                }
            }
            lemma_list_frame(mid.last, t, PqRank::Effect, ls0, ls1);
        }
    }

    proof fn lemma_append_members(
        &self,
        pre: Self,
        mid: Self,
        ls0: Seq<PqElementData>,
        ls1: Seq<PqElementData>,
        a: usize,
        k: PqRank,
    )
        requires
            self.append_step(pre, mid, ls0, ls1, a, k),
            self.lists_wf(ls1),
        ensures
            self.members_wf(ls1),
    {
        reveal(InstrusiveIndexedPriorityQueue::wf);
        self.lemma_append_buckets(pre, mid, ls0, ls1, a, k);
        assert forall|i: int| 0 <= i < ls1.len() && (#[trigger] ls1[i]).in_pq implies self.bucket(
            ls1[i].pq_rank,
        ).contains(i as usize) by {
            let s1 = self.bucket(k);
            if i == a as int {
                assert(s1[mid.bucket(k).len() as int] == a);
            } else if mid.bucket(k).contains(i as usize) {
                let j = choose|j: int| 0 <= j < mid.bucket(k).len() && mid.bucket(k)[j] == i as usize;
                assert(s1[j] == i as usize);
                match k {
                    PqRank::Pure(r) => {
                        lemma_list_at(self.entries@[r as int], self.pure_lists@[r as int], k, ls1, j);
                    },
                    PqRank::Effect => {
                        lemma_list_at(self.last, self.effect_list@, k, ls1, j);
                    },
                }
            } else {
                assert(ls0[i].in_pq);
                let k2 = ls0[i].pq_rank;
                assert(mid.bucket(k2).contains(i as usize));
                if k2 != k {
                    assert(self.bucket(k2) == mid.bucket(k2));
                }
            }
        }
    }

    proof fn lemma_append_shape(
        &self,
        pre: Self,
        mid: Self,
        ls0: Seq<PqElementData>,
        ls1: Seq<PqElementData>,
        a: usize,
        k: PqRank,
    )
        requires
            self.append_step(pre, mid, ls0, ls1, a, k),
        ensures
            self.shape_wf(),
    {
        reveal(InstrusiveIndexedPriorityQueue::wf);
        assert forall|b: int|
            0 <= b < self.entries@.len() && (#[trigger] self.pure_lists@[b]).len() > 0 implies self.min_rank
            <= b <= self.max_rank by {
            if PqRank::Pure(b as i32) != k {
                assert(mid.pure_lists@[b] == self.pure_lists@[b]);
            }
        }
    }

    /// `self` is well formed and `pre` with `a` appended after an append step.
    proof fn lemma_after_append(
        &self,
        pre: Self,
        mid: Self,
        ls0: Seq<PqElementData>,
        ls1: Seq<PqElementData>,
        a: usize,
        k: PqRank,
    )
        requires
            self.append_step(pre, mid, ls0, ls1, a, k),
        ensures
            self.wf(ls1),
            self.appended(pre, a, k),
    {
        reveal(InstrusiveIndexedPriorityQueue::wf);
        self.lemma_append_buckets(pre, mid, ls0, ls1, a, k);
        self.lemma_append_lists(pre, mid, ls0, ls1, a, k);
        self.lemma_append_members(pre, mid, ls0, ls1, a, k);
        self.lemma_append_shape(pre, mid, ls0, ls1, a, k);
    }

    /// `self` is `pre` after `x`, the head of the bucket for `k`, left it:
    /// every bucket of a rank before `k` was empty, the other buckets are
    /// kept, and the bounds settle as the scan left them.
    pub open spec fn took_first(&self, pre: Self, x: usize, k: PqRank) -> bool {
        self.took_head(pre, x, k) && self.settled(pre, k)
    }

    /// The buckets of `self` are those of `pre` after its first item `x`,
    /// the head of the bucket for `k`, left.
    pub open spec fn took_head(&self, pre: Self, x: usize, k: PqRank) -> bool {
        &&& pre.bucket(k).len() > 0
        &&& pre.bucket(k)[0] == x
        &&& forall|k2: PqRank| rank_lt(k2, k) ==> #[trigger] pre.bucket(k2).len() == 0
        &&& self.bucket(k) == pre.bucket(k).drop_first()
        &&& forall|k2: PqRank| k2 != k ==> #[trigger] self.bucket(k2) == pre.bucket(k2)
    }

    /// The bounds after an item of rank `k` left `pre`: kept while bucket `k`
    /// holds items, else moved past it, crossed to `0, -1` once past the upper
    /// bound or after an effect item.
    pub open spec fn settled(&self, pre: Self, k: PqRank) -> bool {
        match k {
            PqRank::Pure(m) => if self.bucket(k).len() > 0 {
                self.min_bound() == m && self.max_bound() == pre.max_bound()
            } else if m < pre.max_bound() {
                self.min_bound() == m + 1 && self.max_bound() == pre.max_bound()
            } else {
                self.min_bound() == 0 && self.max_bound() == -1
            },
            PqRank::Effect => self.min_bound() == 0 && self.max_bound() == -1,
        }
    }

    /// After the head `x` of the first non-empty bucket of `mid` is removed,
    /// the buckets are those of `pre` without it.
    proof fn lemma_took_head(&self, mid: Self, pre: Self, ls0: Seq<PqElementData>, x: usize, k: PqRank)
        requires
            mid.wf(ls0),
            forall|k2: PqRank| #[trigger] mid.bucket(k2) == pre.bucket(k2),
            mid.bucket(k).len() > 0,
            mid.bucket(k)[0] == x,
            k matches PqRank::Pure(m) ==> m == mid.min_rank,
            k is Effect ==> mid.min_rank > mid.max_rank,
            self.bucket(k) == mid.bucket(k).remove(mid.bucket(k).index_of(x)),
            forall|k2: PqRank| k2 != k ==> #[trigger] self.bucket(k2) == mid.bucket(k2),
        ensures
            self.took_head(pre, x, k),
    {
        reveal(InstrusiveIndexedPriorityQueue::wf);
        let s = mid.bucket(k);
        mid.lemma_member(ls0, k, 0);
        assert(s.index_of(x) == 0);
        assert(s.remove(0) =~= s.drop_first());
        assert forall|k2: PqRank| rank_lt(k2, k) implies #[trigger] pre.bucket(k2).len() == 0 by {
            assert(mid.bucket(k2) == pre.bucket(k2));
            if let PqRank::Pure(y) = k2 {
                if 0 <= y < mid.pure_lists@.len() {
                    assert(mid.pure_lists@[y as int] == mid.bucket(k2));
                }
            }
        }
        assert forall|k2: PqRank| k2 != k implies #[trigger] self.bucket(k2) == pre.bucket(k2) by {
            assert(mid.bucket(k2) == pre.bucket(k2));
        }
    }

    /// `self` is `pre` with item `a` taken out of the bucket for `k`, the
    /// other buckets and the bounds unchanged.
    pub open spec fn removed(&self, pre: Self, a: usize, k: PqRank) -> bool {
        &&& self.bucket(k) == pre.bucket(k).remove(pre.bucket(k).index_of(a))
        &&& forall|k2: PqRank| k2 != k ==> #[trigger] self.bucket(k2) == pre.bucket(k2)
        &&& self.min_bound() == pre.min_bound()
        &&& self.max_bound() == pre.max_bound()
    }

    /// `self` is `pre` with `a` unlinked from the bucket for `k`, and `ls1`
    /// changes records of that bucket's items only, leaving `a` unlinked.
    spec fn unlink_step(
        &self,
        pre: Self,
        ls0: Seq<PqElementData>,
        ls1: Seq<PqElementData>,
        a: usize,
        k: PqRank,
    ) -> bool {
        let s = pre.bucket(k);
        let s2 = s.remove(s.index_of(a));
        &&& pre.wf(ls0)
        &&& s.contains(a)
        &&& ls1.len() == ls0.len()
        &&& ls1[a as int] == unlinked(k)
        &&& forall|i: int| 0 <= i < ls0.len() && !s.contains(i as usize) ==> ls1[i] == ls0[i]
        &&& self.min_rank == pre.min_rank
        &&& self.max_rank == pre.max_rank
        &&& match k {
            PqRank::Pure(r) => {
                &&& 0 <= r < pre.entries@.len()
                &&& self.entries@ == pre.entries@.update(r as int, self.entries@[r as int])
                &&& self.pure_lists@ == pre.pure_lists@.update(r as int, s2)
                &&& self.last == pre.last
                &&& self.effect_list == pre.effect_list
                &&& list_wf(self.entries@[r as int], s2, k, ls1)
            },
            PqRank::Effect => {
                &&& self.entries == pre.entries
                &&& self.pure_lists == pre.pure_lists
                &&& self.effect_list@ == s2
                &&& list_wf(self.last, s2, k, ls1)
            },
        }
    }

    proof fn lemma_unlink_buckets(
        &self,
        pre: Self,
        ls0: Seq<PqElementData>,
        ls1: Seq<PqElementData>,
        a: usize,
        k: PqRank,
    )
        requires
            self.unlink_step(pre, ls0, ls1, a, k),
        ensures
            self.removed(pre, a, k),
            forall|x: usize| x != a && pre.bucket(k).contains(x) ==> #[trigger] self.bucket(k).contains(x),
    {
        reveal(InstrusiveIndexedPriorityQueue::wf);
        assert forall|k2: PqRank| k2 != k implies #[trigger] self.bucket(k2) == pre.bucket(k2) by {}
        let s = pre.bucket(k);
        let ja = s.index_of(a);
        assert forall|x: usize| x != a && s.contains(x) implies #[trigger] self.bucket(k).contains(x) by {
            let j = choose|j: int| 0 <= j < s.len() && s[j] == x;
            let j2 = if j < ja { j } else { j - 1 };
            assert(self.bucket(k)[j2] == x);
        }
    }

    proof fn lemma_unlink_lists(
        &self,
        pre: Self,
        ls0: Seq<PqElementData>,
        ls1: Seq<PqElementData>,
        a: usize,
        k: PqRank,
    )
        requires
            self.unlink_step(pre, ls0, ls1, a, k),
        ensures
            self.lists_wf(ls1),
    {
        reveal(InstrusiveIndexedPriorityQueue::wf);
        assert forall|b: int| 0 <= b < self.entries@.len() implies list_wf(
            #[trigger] self.entries@[b],
            self.pure_lists@[b],
            PqRank::Pure(b as i32),
            ls1,
        ) by {
            if PqRank::Pure(b as i32) != k {
                let t = pre.pure_lists@[b];
                assert(list_wf(pre.entries@[b], t, PqRank::Pure(b as i32), ls0));
                assert(pre.bucket(PqRank::Pure(b as i32)) == t);
                assert forall|j: int| 0 <= j < t.len() implies ls1[#[trigger] t[j] as int]
                    == ls0[t[j] as int] by {
                    pre.lemma_member(ls0, PqRank::Pure(b as i32), j);
                    if pre.bucket(k).contains(t[j]) {
                        pre.lemma_member_of(ls0, k, t[j]);
                    }
                }
                lemma_list_frame(pre.entries@[b], t, PqRank::Pure(b as i32), ls0, ls1);
            }
        }
        if k != PqRank::Effect {
            let t = pre.effect_list@;
            assert forall|j: int| 0 <= j < t.len() implies ls1[#[trigger] t[j] as int]
                == ls0[t[j] as int] by {
                pre.lemma_member(ls0, PqRank::Effect, j);
                if pre.bucket(k).contains(t[j]) {
                    pre.lemma_member_of(ls0, k, t[j]);
                }
            }
            lemma_list_frame(pre.last, t, PqRank::Effect, ls0, ls1);
        }
    }

    #[verifier::spinoff_prover]
    #[verifier::rlimit(40)]
    proof fn lemma_unlink_members(
        &self,
        pre: Self,
        ls0: Seq<PqElementData>,
        ls1: Seq<PqElementData>,
        a: usize,
        k: PqRank,
    )
        requires
            self.unlink_step(pre, ls0, ls1, a, k),
        ensures
            self.members_wf(ls1),
    {
        reveal(InstrusiveIndexedPriorityQueue::wf);
        self.lemma_unlink_buckets(pre, ls0, ls1, a, k);
        let s = pre.bucket(k);
        let ja = s.index_of(a);
        let s2 = s.remove(ja);
        assert forall|i: int| 0 <= i < ls1.len() && (#[trigger] ls1[i]).in_pq implies self.bucket(
            ls1[i].pq_rank,
        ).contains(i as usize) by {
            if s.contains(i as usize) {
                let j = choose|j: int| 0 <= j < s.len() && s[j] == i as usize;
                assert(j != ja);
                let j2 = if j < ja { j } else { j - 1 };
                assert(s2[j2] == i as usize);
                match k {
                    PqRank::Pure(r) => {
                        lemma_list_at(self.entries@[r as int], s2, k, ls1, j2);
                    },
                    PqRank::Effect => {
                        lemma_list_at(self.last, s2, k, ls1, j2);
                    },
                }
                assert(self.bucket(k) == s2);
            } else {
                assert(ls0[i].in_pq);
                let k2 = ls0[i].pq_rank;
                assert(pre.bucket(k2).contains(i as usize));
                assert(k2 != k);
                assert(self.bucket(k2) == pre.bucket(k2));
            }
        }
    }

    proof fn lemma_unlink_shape(
        &self,
        pre: Self,
        ls0: Seq<PqElementData>,
        ls1: Seq<PqElementData>,
        a: usize,
        k: PqRank,
    )
        requires
            self.unlink_step(pre, ls0, ls1, a, k),
        ensures
            self.shape_wf(),
    {
        reveal(InstrusiveIndexedPriorityQueue::wf);
        assert forall|b: int|
            0 <= b < self.entries@.len() && (#[trigger] self.pure_lists@[b]).len() > 0 implies self.min_rank
            <= b <= self.max_rank by {
            assert(pre.pure_lists@[b].len() > 0);
        }
    }

    /// `self` is well formed and `pre` without `a` after an unlink step.
    proof fn lemma_after_unlink(
        &self,
        pre: Self,
        ls0: Seq<PqElementData>,
        ls1: Seq<PqElementData>,
        a: usize,
        k: PqRank,
    )
        requires
            self.unlink_step(pre, ls0, ls1, a, k),
        ensures
            self.wf(ls1),
            self.removed(pre, a, k),
            forall|x: usize| x != a && pre.bucket(k).contains(x) ==> #[trigger] self.bucket(k).contains(x),
    {
        reveal(InstrusiveIndexedPriorityQueue::wf);
        self.lemma_unlink_buckets(pre, ls0, ls1, a, k);
        self.lemma_unlink_lists(pre, ls0, ls1, a, k);
        self.lemma_unlink_members(pre, ls0, ls1, a, k);
        self.lemma_unlink_shape(pre, ls0, ls1, a, k);
    }

    /// Moves the lower bound past the empty bucket at `min_rank`, crossing
    /// the bounds to `0, -1` when it was the last one they covered.
    fn advance_min(&mut self, Ghost(ls): Ghost<Seq<PqElementData>>)
        requires
            old(self).wf(ls),
            old(self).min_rank <= old(self).max_rank,
            old(self).bucket(PqRank::Pure(old(self).min_rank)).len() == 0,
        ensures
            final(self).wf(ls),
            forall|k: PqRank| #[trigger] final(self).bucket(k) == old(self).bucket(k),
            old(self).min_rank < old(self).max_rank ==> final(self).min_rank == old(self).min_rank
                + 1 && final(self).max_rank == old(self).max_rank,
            old(self).min_rank >= old(self).max_rank ==> final(self).min_rank == 0
                && final(self).max_rank == -1,
    {
        proof {
            reveal(InstrusiveIndexedPriorityQueue::wf);
        }
        if self.min_rank >= self.max_rank {
            self.min_rank = 0;
            self.max_rank = -1;
        } else {
            self.min_rank = self.min_rank + 1;
        }
        proof {
            assert forall|b: int|
                0 <= b < self.entries@.len() && (#[trigger] self.pure_lists@[b]).len()
                    > 0 implies self.min_rank <= b <= self.max_rank by {
                assert(old(self).bucket(PqRank::Pure(b as i32)) == self.pure_lists@[b]);
            }
            assert(self.lists_wf(ls));
            assert forall|k: PqRank| #[trigger] self.bucket(k) == old(self).bucket(k) by {}
            assert(self.members_wf(ls));
        }
    }

    /// The bucket for `k` without item `x`, if it holds `x`.
    pub open spec fn bucket_without(&self, x: usize, k: PqRank) -> Seq<usize> {
        if self.bucket(k).contains(x) {
            self.bucket(k).remove(self.bucket(k).index_of(x))
        } else {
            self.bucket(k)
        }
    }

    /// Rewriting the record of an unqueued item with another unqueued
    /// record keeps the queue well formed.
    proof fn lemma_set_unqueued(&self, ls: Seq<PqElementData>, a: usize, d: PqElementData)
        requires
            self.wf(ls),
            a < ls.len(),
            !ls[a as int].in_pq,
            !d.in_pq,
        ensures
            self.wf(ls.update(a as int, d)),
    {
        reveal(InstrusiveIndexedPriorityQueue::wf);
        let ls2 = ls.update(a as int, d);
        assert forall|k: PqRank, j: int| 0 <= j < self.bucket(k).len() implies ls2[#[trigger] self.bucket(k)[j] as int] == ls[self.bucket(k)[j] as int] by {
            self.lemma_member(ls, k, j);
        }
        assert forall|b: int| 0 <= b < self.entries@.len() implies list_wf(
            #[trigger] self.entries@[b],
            self.pure_lists@[b],
            PqRank::Pure(b as i32),
            ls2,
        ) by {
            let t = self.pure_lists@[b];
            assert(self.bucket(PqRank::Pure(b as i32)) == t);
            assert forall|j: int| 0 <= j < t.len() implies ls2[#[trigger] t[j] as int] == ls[t[j] as int] by {
                assert(ls2[self.bucket(PqRank::Pure(b as i32))[j] as int] == ls[self.bucket(PqRank::Pure(b as i32))[j] as int]);
            }
            lemma_list_frame(self.entries@[b], t, PqRank::Pure(b as i32), ls, ls2);
        }
        let t = self.effect_list@;
        assert forall|j: int| 0 <= j < t.len() implies ls2[#[trigger] t[j] as int] == ls[t[j] as int] by {
            assert(ls2[self.bucket(PqRank::Effect)[j] as int] == ls[self.bucket(PqRank::Effect)[j] as int]);
        }
        lemma_list_frame(self.last, t, PqRank::Effect, ls, ls2);
        assert forall|i: int| 0 <= i < ls2.len() && (#[trigger] ls2[i]).in_pq implies self.bucket(
            ls2[i].pq_rank,
        ).contains(i as usize) by {
            assert(ls[i] == ls2[i]);
        }
    }

    /// The buckets after `a` was removed from `pre` (giving `mid`) and then
    /// appended to `mid` at rank `k` (giving `self`).
    proof fn lemma_rerank(&self, mid: Self, pre: Self, ls0: Seq<PqElementData>, a: usize, k: PqRank)
        requires
            pre.wf(ls0),
            a < ls0.len(),
            ls0[a as int].in_pq ==> mid.removed(pre, a, ls0[a as int].pq_rank),
            !ls0[a as int].in_pq ==> mid == pre,
            self.appended(mid, a, k),
        ensures
            forall|k2: PqRank|
                #[trigger] self.bucket(k2) == if k2 == k {
                    pre.bucket_without(a, k2).push(a)
                } else {
                    pre.bucket_without(a, k2)
                },
            mid.min_bound() == pre.min_bound(),
            mid.max_bound() == pre.max_bound(),
            forall|k2: PqRank, x: usize| #[trigger] mid.bucket(k2).contains(x) ==> self.bucket(k2).contains(x),
    {
        reveal(InstrusiveIndexedPriorityQueue::wf);
        let k0 = ls0[a as int].pq_rank;
        assert forall|k2: PqRank| #[trigger] mid.bucket(k2) == pre.bucket_without(a, k2) by {
            if pre.bucket(k2).contains(a) {
                pre.lemma_member_of(ls0, k2, a);
            }
        }
        assert forall|k2: PqRank, x: usize| #[trigger] mid.bucket(k2).contains(x) implies self.bucket(k2).contains(x) by {
            let j = choose|j: int| 0 <= j < mid.bucket(k2).len() && mid.bucket(k2)[j] == x;
            if k2 == k {
                assert(self.bucket(k2)[j] == x);
            }
        }
    }

    /// Every item other than `a` is in the same buckets of `self` as of `pre`.
    spec fn same_others(&self, pre: Self, a: usize) -> bool {
        forall|k: PqRank, x: usize|
            x != a ==> (#[trigger] self.bucket(k).contains(x) <==> pre.bucket(k).contains(x))
    }

    proof fn lemma_appended_others(&self, pre: Self, a: usize, k: PqRank)
        requires
            self.appended(pre, a, k),
        ensures
            self.same_others(pre, a),
    {
        assert forall|k2: PqRank, x: usize| x != a implies (#[trigger] self.bucket(k2).contains(x)
            <==> pre.bucket(k2).contains(x)) by {
            if k2 == k {
                if self.bucket(k2).contains(x) {
                    let j = choose|j: int| 0 <= j < self.bucket(k2).len() && self.bucket(k2)[j] == x;
                    assert(pre.bucket(k2)[j] == x);
                }
                if pre.bucket(k2).contains(x) {
                    let j = choose|j: int| 0 <= j < pre.bucket(k2).len() && pre.bucket(k2)[j] == x;
                    assert(self.bucket(k2)[j] == x);
                }
            }
        }
    }

    proof fn lemma_removed_others(&self, pre: Self, a: usize, k: PqRank)
        requires
            self.removed(pre, a, k),
            pre.bucket(k).contains(a),
        ensures
            self.same_others(pre, a),
    {
        let s = pre.bucket(k);
        let ja = s.index_of(a);
        assert forall|k2: PqRank, x: usize| x != a implies (#[trigger] self.bucket(k2).contains(x)
            <==> pre.bucket(k2).contains(x)) by {
            if k2 == k {
                if self.bucket(k2).contains(x) {
                    let j = choose|j: int| 0 <= j < self.bucket(k2).len() && self.bucket(k2)[j] == x;
                    let j0 = if j < ja { j } else { j + 1 };
                    assert(s[j0] == x);
                }
                if s.contains(x) {
                    let j = choose|j: int| 0 <= j < s.len() && s[j] == x;
                    let j2 = if j < ja { j } else { j - 1 };
                    assert(self.bucket(k2)[j2] == x);
                }
            }
        }
    }

    /// When the items other than `a` keep their buckets, unqueued items other
    /// than `a` stay out of the queue, and every item other than `a` keeps
    /// its rank.
    proof fn lemma_step_frame(
        &self,
        pre: Self,
        ls0: Seq<PqElementData>,
        ls1: Seq<PqElementData>,
        a: usize,
    )
        requires
            pre.wf(ls0),
            self.wf(ls1),
            ls1.len() == ls0.len(),
            self.same_others(pre, a),
            forall|i: int|
                0 <= i < ls0.len() && i != a && !self.contains(i as usize) ==> ls1[i] == ls0[i],
        ensures
            forall|i: int|
                0 <= i < ls0.len() && i != a && !ls0[i].in_pq ==> !self.contains(i as usize),
            forall|i: int| 0 <= i < ls0.len() && i != a ==> ls1[i].pq_rank == ls0[i].pq_rank,
    {
        assert forall|i: int| 0 <= i < ls0.len() && i != a && !ls0[i].in_pq implies !self.contains(
            i as usize,
        ) by {
            pre.lemma_queued(ls0, i);
            if self.contains(i as usize) {
                let k = choose|k: PqRank| #[trigger] self.bucket(k).contains(i as usize);
                assert(pre.bucket(k).contains(i as usize));
                pre.lemma_member_of(ls0, k, i as usize);
            }
        }
        assert forall|i: int| 0 <= i < ls0.len() && i != a implies ls1[i].pq_rank
            == ls0[i].pq_rank by {
            pre.lemma_queued(ls0, i);
            if self.contains(i as usize) {
                let k = choose|k: PqRank| #[trigger] self.bucket(k).contains(i as usize);
                assert(pre.bucket(k).contains(i as usize));
                pre.lemma_member_of(ls0, k, i as usize);
                self.lemma_member_of(ls1, k, i as usize);
            }
        }
    }

    /// Under `wf`, the head of the numeric bucket at `m` is the first item
    /// of the bucket for rank `m`, and the bounds stay within the buckets.
    proof fn lemma_head_at(&self, ls: Seq<PqElementData>, m: int)
        requires
            self.wf(ls),
            self.min_rank <= m <= self.max_rank,
        ensures
            0 <= m < self.entries@.len(),
            m <= i32::MAX,
            self.entries@[m].head is None <==> self.bucket(PqRank::Pure(m as i32)).len() == 0,
            self.bucket(PqRank::Pure(m as i32)).len() > 0 ==> self.entries@[m].head == Some(
                self.bucket(PqRank::Pure(m as i32))[0],
            ),
    {
        reveal(InstrusiveIndexedPriorityQueue::wf);
        assert(list_wf(self.entries@[m], self.pure_lists@[m], PqRank::Pure(m as i32), ls));
    }

    /// Adds empty buckets until rank `ru` has one.
    fn grow(&mut self, ru: usize, Ghost(ls): Ghost<Seq<PqElementData>>)
        requires
            old(self).wf(ls),
            ru <= i32::MAX,
        ensures
            final(self).wf(ls),
            ru < final(self).entries@.len(),
            final(self).min_rank == old(self).min_rank,
            final(self).max_rank == old(self).max_rank,
            final(self).last == old(self).last,
            final(self).effect_list == old(self).effect_list,
            forall|k: PqRank| #[trigger] final(self).bucket(k) == old(self).bucket(k),
    {
        proof {
            reveal(InstrusiveIndexedPriorityQueue::wf);
        }
        while self.entries.len() <= ru
            invariant
                ru <= i32::MAX,
                self.wf(ls),
                self.min_rank == old(self).min_rank,
                self.max_rank == old(self).max_rank,
                self.last == old(self).last,
                self.effect_list == old(self).effect_list,
                forall|k: PqRank| #[trigger] self.bucket(k) == old(self).bucket(k),
            decreases ru + 1 - self.entries@.len(),
        {
            let ghost prev = *self;
            self.entries.push(Entry { head: None, tail: None });
            self.pure_lists = Ghost(self.pure_lists@.push(Seq::empty()));
            proof {
                reveal(InstrusiveIndexedPriorityQueue::wf);
                assert forall|k: PqRank| #[trigger] self.bucket(k) == prev.bucket(k) by {}
                assert forall|b: int| 0 <= b < self.entries@.len() implies list_wf(
                    #[trigger] self.entries@[b],
                    self.pure_lists@[b],
                    PqRank::Pure(b as i32),
                    ls,
                ) by {
                    if b < prev.entries@.len() {
                        assert(list_wf(
                            prev.entries@[b],
                            prev.pure_lists@[b],
                            PqRank::Pure(b as i32),
                            ls,
                        ));
                    } else {
                        assert(self.pure_lists@[b] =~= Seq::<usize>::empty());
                    }
                }
                assert forall|i: int| 0 <= i < ls.len() && (#[trigger] ls[i]).in_pq implies self.bucket(
                    ls[i].pq_rank,
                ).contains(i as usize) by {
                    assert(prev.bucket(ls[i].pq_rank).contains(i as usize));
                }
                assert forall|b: int|
                    0 <= b < self.entries@.len() && (#[trigger] self.pure_lists@[b]).len()
                        > 0 implies self.min_rank <= b <= self.max_rank by {
                    if b < prev.entries@.len() {
                        assert(prev.pure_lists@[b].len() > 0);
                    }
                }
            }
        }
    }

    /// An empty queue, with the numeric bounds crossed.
    pub fn new() -> (r: Self)
        ensures
            r.vacant(),
            r.min_bound() == 0,
            r.max_bound() == -1,
            forall|ls: Seq<PqElementData>|
                ls.len() <= usize::MAX && (forall|i: int| 0 <= i < ls.len() ==> !(#[trigger] ls[i]).in_pq)
                    ==> #[trigger] r.wf(ls),
    {
        proof {
            reveal(InstrusiveIndexedPriorityQueue::wf);
        }
        let mut entries: Vec<Entry> = Vec::with_capacity(INIT_SIZE);
        let mut i: usize = 0;
        while i < INIT_SIZE
            invariant
                i <= INIT_SIZE,
                entries@.len() == i,
                forall|b: int| 0 <= b < i ==> (#[trigger] entries@[b]).head is None
                    && entries@[b].tail is None,
            decreases INIT_SIZE - i,
        {
            entries.push(Entry { head: None, tail: None });
            i = i + 1;
        }
        let r = InstrusiveIndexedPriorityQueue {
            entries,
            last: Entry { head: None, tail: None },
            min_rank: 0,
            max_rank: -1,
            pure_lists: Ghost(Seq::new(INIT_SIZE as nat, |b: int| Seq::empty())),
            effect_list: Ghost(Seq::empty()),
        };
        assert forall|ls: Seq<PqElementData>|
            ls.len() <= usize::MAX && (forall|i: int| 0 <= i < ls.len() ==> !(#[trigger] ls[i]).in_pq)
                implies #[trigger] r.wf(ls) by {
            assert forall|b: int| 0 <= b < r.entries@.len() implies list_wf(
                #[trigger] r.entries@[b],
                r.pure_lists@[b],
                PqRank::Pure(b as i32),
                ls,
            ) by {
                assert(r.pure_lists@[b] =~= Seq::<usize>::empty());
            }
        }
        assert forall|k: PqRank| #[trigger] r.bucket(k).len() == 0 by {}
        r
    }

    /// Queues item `a` at the tail of the bucket for its rank; does nothing
    /// when `a` is already queued.
    pub fn enqueue<A: PqElement>(&mut self, items: &mut Vec<A>, a: usize)
        requires
            old(self).wf(links(old(items)@)),
            a < old(items)@.len(),
            old(items)@[a as int].pq_data().pq_rank matches PqRank::Pure(r) ==> r >= 0,
        ensures
            final(self).wf(links(final(items)@)),
            final(items)@.len() == old(items)@.len(),
            old(items)@[a as int].pq_data().in_pq ==> *final(self) == *old(self) && final(items)@
                == old(items)@,
            !old(items)@[a as int].pq_data().in_pq ==> final(self).appended(
                *old(self),
                a,
                old(items)@[a as int].pq_data().pq_rank,
            ),
            forall|i: int|
                0 <= i < old(items)@.len() && i != a && !old(items)@[i].pq_data().in_pq
                    ==> final(items)@[i] == old(items)@[i],
            forall|i: int|
                0 <= i < old(items)@.len() ==> final(items)@[i].pq_data().pq_rank
                    == old(items)@[i].pq_data().pq_rank,
    {
        proof {
            reveal(InstrusiveIndexedPriorityQueue::wf);
        }
        let ghost ls0 = links(items@);
        let d = items[a].pq_element_data();
        if d.in_pq {
            proof {
                assert forall|i: int| 0 <= i < ls0.len() && !self.contains(i as usize) implies items@[i]
                    == old(items)@[i] by {}
            }
            return ;
        }
        let ghost pre = *self;
        let ghost mut mid = *self;
        proof {
            assert forall|k: PqRank| !(#[trigger] pre.bucket(k)).contains(a) by {
                if pre.bucket(k).contains(a) {
                    pre.lemma_member_of(ls0, k, a);
                }
            }
        }
        match d.pq_rank {
            PqRank::Effect => {
                let ghost s = self.effect_list@;
                list_push(&mut self.last, items, a, Ghost(s), Ghost(PqRank::Effect));
                self.effect_list = Ghost(s.push(a));
            },
            PqRank::Pure(rank) => {
                let ru = rank as usize;
                self.grow(ru, Ghost(ls0));
                proof {
                    mid = *self;
                }
                let ghost s = self.pure_lists@[ru as int];
                proof {
                    assert(list_wf(
                        self.entries@[ru as int],
                        s,
                        PqRank::Pure(ru as i32),
                        ls0,
                    ));
                    assert(mid.bucket(PqRank::Pure(rank)) == s);
                }
                list_push(&mut self.entries[ru], items, a, Ghost(s), Ghost(PqRank::Pure(rank)));
                self.pure_lists = Ghost(self.pure_lists@.update(ru as int, s.push(a)));
                if rank < self.min_rank {
                    self.min_rank = rank;
                }
                if rank > self.max_rank {
                    self.max_rank = rank;
                }
            },
        }
        proof {
            self.lemma_after_append(pre, mid, ls0, links(items@), a, d.pq_rank);
            assert forall|i: int| 0 <= i < ls0.len() && !self.contains(i as usize) implies items@[i]
                == old(items)@[i] by {
                if i == a as int {
                    assert(self.bucket(d.pq_rank).contains(a)) by {
                        assert(self.bucket(d.pq_rank).last() == a);
                    }
                } else if pre.bucket(d.pq_rank).contains(i as usize) {
                    let j = choose|j: int| 0 <= j < pre.bucket(d.pq_rank).len() && pre.bucket(d.pq_rank)[j] == i as usize;
                    assert(self.bucket(d.pq_rank)[j] == i as usize);
                }
            }
            let ls1 = links(items@);
            self.lemma_appended_others(pre, a, d.pq_rank);
            assert forall|i: int| 0 <= i < ls0.len() && i != a && !self.contains(i as usize) implies ls1[i]
                == ls0[i] by {
                assert(items@[i] == old(items)@[i]);
            }
            self.lemma_step_frame(pre, ls0, ls1, a);
            assert(self.bucket(d.pq_rank).last() == a);
            self.lemma_member_of(ls1, d.pq_rank, a);
            assert forall|i: int| 0 <= i < ls0.len() && i != a && !ls0[i].in_pq implies items@[i]
                == old(items)@[i] by {}
        }
    }

    /// Takes item `a` out of its bucket and clears its links; does nothing
    /// when `a` is not queued.
    pub fn remove<A: PqElement>(&mut self, items: &mut Vec<A>, a: usize)
        requires
            old(self).wf(links(old(items)@)),
            a < old(items)@.len(),
        ensures
            final(self).wf(links(final(items)@)),
            final(items)@.len() == old(items)@.len(),
            !old(items)@[a as int].pq_data().in_pq ==> *final(self) == *old(self) && final(items)@
                == old(items)@,
            old(items)@[a as int].pq_data().in_pq ==> final(self).removed(
                *old(self),
                a,
                old(items)@[a as int].pq_data().pq_rank,
            ),
            old(items)@[a as int].pq_data().in_pq ==> final(items)@[a as int].pq_data() == unlinked(
                old(items)@[a as int].pq_data().pq_rank,
            ),
            forall|i: int|
                0 <= i < old(items)@.len() && i != a && !old(items)@[i].pq_data().in_pq
                    ==> final(items)@[i] == old(items)@[i],
            forall|i: int|
                0 <= i < old(items)@.len() ==> final(items)@[i].pq_data().pq_rank
                    == old(items)@[i].pq_data().pq_rank,
    {
        proof {
            reveal(InstrusiveIndexedPriorityQueue::wf);
        }
        let ghost ls0 = links(items@);
        let d = items[a].pq_element_data();
        if !d.in_pq {
            return ;
        }
        let ghost pre = *self;
        proof {
            assert(ls0[a as int].in_pq);
            assert(pre.bucket(d.pq_rank).contains(a));
        }
        match d.pq_rank {
            PqRank::Pure(r) => {
                let ru = r as usize;
                let ghost s = self.pure_lists@[ru as int];
                proof {
                    assert(list_wf(self.entries@[ru as int], s, d.pq_rank, ls0));
                }
                list_unlink(&mut self.entries[ru], items, a, Ghost(s), Ghost(d.pq_rank));
                self.pure_lists = Ghost(self.pure_lists@.update(ru as int, s.remove(s.index_of(a))));
            },
            PqRank::Effect => {
                let ghost s = self.effect_list@;
                list_unlink(&mut self.last, items, a, Ghost(s), Ghost(d.pq_rank));
                self.effect_list = Ghost(s.remove(s.index_of(a)));
            },
        }
        proof {
            self.lemma_after_unlink(pre, ls0, links(items@), a, d.pq_rank);
            assert forall|i: int|
                0 <= i < ls0.len() && i != a && !self.contains(i as usize) implies items@[i]
                == old(items)@[i] by {
                if pre.bucket(d.pq_rank).contains(i as usize) {
                    assert(self.bucket(d.pq_rank).contains(i as usize));
                }
            }
            let ls1 = links(items@);
            self.lemma_removed_others(pre, a, d.pq_rank);
            assert forall|i: int| 0 <= i < ls0.len() && i != a && !self.contains(i as usize) implies ls1[i]
                == ls0[i] by {
                assert(items@[i] == old(items)@[i]);
            }
            self.lemma_step_frame(pre, ls0, ls1, a);
            assert forall|i: int| 0 <= i < ls0.len() && i != a && !ls0[i].in_pq implies items@[i]
                == old(items)@[i] by {}
        }
    }

    /// Takes out the head of the bucket at `min_rank`, then settles the
    /// bounds; `pre` is the queue as `dequeue` found it.
    fn pop_min<A: PqElement>(&mut self, items: &mut Vec<A>, Ghost(pre): Ghost<Self>) -> (r: usize)
        requires
            old(self).wf(links(old(items)@)),
            old(self).min_rank <= old(self).max_rank,
            old(self).max_rank == pre.max_rank,
            old(self).bucket(PqRank::Pure(old(self).min_rank)).len() > 0,
            forall|k: PqRank| #[trigger] old(self).bucket(k) == pre.bucket(k),
        ensures
            final(self).wf(links(final(items)@)),
            final(items)@.len() == old(items)@.len(),
            r < old(items)@.len(),
            old(items)@[r as int].pq_data().pq_rank == PqRank::Pure(old(self).min_rank),
            final(self).took_first(pre, r, PqRank::Pure(old(self).min_rank)),
            final(items)@[r as int].pq_data() == unlinked(PqRank::Pure(old(self).min_rank)),
            forall|i: int|
                0 <= i < old(items)@.len() && !old(items)@[i].pq_data().in_pq
                    ==> final(items)@[i] == old(items)@[i],
            forall|i: int|
                0 <= i < old(items)@.len() ==> final(items)@[i].pq_data().pq_rank
                    == old(items)@[i].pq_data().pq_rank,
    {
        let ghost ls0 = links(items@);
        let ghost mid = *self;
        let ghost k = PqRank::Pure(self.min_rank);
        let m = self.min_rank as usize;
        proof {
            self.lemma_head_at(ls0, m as int);
            self.lemma_member(ls0, k, 0);
        }
        let h = self.entries[m].head.unwrap();
        self.remove(items, h);
        let ghost ls1 = links(items@);
        proof {
            self.lemma_head_at(ls1, m as int);
        }
        if self.entries[m].head.is_none() {
            self.advance_min(Ghost(ls1));
        }
        proof {
            self.lemma_took_head(mid, pre, ls0, h, k);
            assert forall|i: int| 0 <= i < ls0.len() && !ls0[i].in_pq implies items@[i]
                == old(items)@[i] by {}
        }
        h
    }

    /// Takes out and returns the head of the first non-empty numeric bucket,
    /// else of the effect bucket; `None` when no item is queued.
    pub fn dequeue<A: PqElement>(&mut self, items: &mut Vec<A>) -> (r: Option<usize>)
        requires
            old(self).wf(links(old(items)@)),
        ensures
            final(self).wf(links(final(items)@)),
            final(items)@.len() == old(items)@.len(),
            r is None <==> old(self).vacant(),
            r is None ==> final(items)@ == old(items)@ && final(self).vacant()
                && final(self).reports_empty() && final(self).min_bound() == 0
                && final(self).max_bound() == -1,
            r matches Some(x) ==> x < old(items)@.len() && final(self).took_first(
                *old(self),
                x,
                old(items)@[x as int].pq_data().pq_rank,
            ) && final(items)@[x as int].pq_data() == unlinked(
                old(items)@[x as int].pq_data().pq_rank,
            ),
            forall|i: int|
                0 <= i < old(items)@.len() && !old(items)@[i].pq_data().in_pq
                    ==> final(items)@[i] == old(items)@[i],
            forall|i: int|
                0 <= i < old(items)@.len() ==> final(items)@[i].pq_data().pq_rank
                    == old(items)@[i].pq_data().pq_rank,
    {
        proof {
            reveal(InstrusiveIndexedPriorityQueue::wf);
        }
        let ghost ls0 = links(items@);
        let ghost pre = *self;
        loop
            invariant
                self.wf(ls0),
                ls0 == links(items@),
                items@ == old(items)@,
                pre == *old(self),
                forall|k: PqRank| #[trigger] self.bucket(k) == pre.bucket(k),
                self.min_rank <= self.max_rank ==> self.max_rank == pre.max_rank,
            decreases self.max_rank - self.min_rank + 2,
        {
            if self.min_rank > self.max_rank {
                // Crossed bounds are already `0, -1`: only the effect bucket
                // can hold an item.
                let r = self.pop_effect(items, Ghost(pre));
                return r;
            }
            let m = self.min_rank as usize;
            proof {
                reveal(InstrusiveIndexedPriorityQueue::wf);
                assert(list_wf(
                    self.entries@[m as int],
                    self.pure_lists@[m as int],
                    PqRank::Pure(m as i32),
                    ls0,
                ));
                assert(self.bucket(PqRank::Pure(self.min_rank)) == self.pure_lists@[m as int]);
            }
            if self.entries[m].head.is_none() {
                self.advance_min(Ghost(ls0));
            } else {
                let h = self.pop_min(items, Ghost(pre));
                return Some(h);
            }
        }
    }

    /// Takes out the head of the effect bucket when the numeric bounds are
    /// crossed; `pre` is the queue as `dequeue` found it.
    fn pop_effect<A: PqElement>(&mut self, items: &mut Vec<A>, Ghost(pre): Ghost<Self>) -> (r:
        Option<usize>)
        requires
            old(self).wf(links(old(items)@)),
            old(self).min_rank > old(self).max_rank,
            forall|k: PqRank| #[trigger] old(self).bucket(k) == pre.bucket(k),
        ensures
            final(self).wf(links(final(items)@)),
            final(items)@.len() == old(items)@.len(),
            r is None <==> pre.vacant(),
            r is None ==> final(items)@ == old(items)@ && final(self).vacant()
                && final(self).reports_empty() && final(self).min_bound() == 0
                && final(self).max_bound() == -1,
            r matches Some(x) ==> x < old(items)@.len() && old(items)@[x as int].pq_data().pq_rank
                == PqRank::Effect && final(self).took_first(pre, x, PqRank::Effect)
                && final(items)@[x as int].pq_data() == unlinked(PqRank::Effect),
            forall|i: int|
                0 <= i < old(items)@.len() && !old(items)@[i].pq_data().in_pq
                    ==> final(items)@[i] == old(items)@[i],
            forall|i: int|
                0 <= i < old(items)@.len() ==> final(items)@[i].pq_data().pq_rank
                    == old(items)@[i].pq_data().pq_rank,
    {
        proof {
            reveal(InstrusiveIndexedPriorityQueue::wf);
        }
        let ghost ls0 = links(items@);
        let ghost mid = *self;
        proof {
            self.lemma_reports_empty(ls0);
            assert forall|k2: PqRank| k2 != PqRank::Effect implies #[trigger] self.bucket(k2).len()
                == 0 by {
                if let PqRank::Pure(x) = k2 {
                    if 0 <= x < self.pure_lists@.len() {
                        assert(self.pure_lists@[x as int].len() == 0);
                    }
                }
            }
        }
        match self.last.head {
            Some(h) => {
                proof {
                    self.lemma_member(ls0, PqRank::Effect, 0);
                }
                self.remove(items, h);
                proof {
                    self.lemma_took_head(mid, pre, ls0, h, PqRank::Effect);
                    assert forall|i: int| 0 <= i < ls0.len() && !ls0[i].in_pq implies items@[i]
                        == old(items)@[i] by {}
                }
                Some(h)
            },
            None => {
                proof {
                    assert(self.reports_empty());
                    assert forall|k: PqRank| #[trigger] pre.bucket(k).len() == 0 by {
                        assert(self.bucket(k) == pre.bucket(k));
                    }
                }
                None
            },
        }
    }

    /// Moves item `a` to rank `new_rank`: takes it out of its bucket if it
    /// is queued, then queues it at the tail of the bucket for `new_rank`.
    pub fn change_rank<A: PqElement>(&mut self, items: &mut Vec<A>, a: usize, new_rank: PqRank)
        requires
            old(self).wf(links(old(items)@)),
            a < old(items)@.len(),
            new_rank matches PqRank::Pure(r) ==> r >= 0,
        ensures
            final(self).wf(links(final(items)@)),
            final(items)@.len() == old(items)@.len(),
            final(items)@[a as int].pq_data().pq_rank == new_rank,
            final(items)@[a as int].pq_data().in_pq,
            forall|k: PqRank|
                #[trigger] final(self).bucket(k) == if k == new_rank {
                    old(self).bucket_without(a, k).push(a)
                } else {
                    old(self).bucket_without(a, k)
                },
            match new_rank {
                PqRank::Pure(r) => {
                    &&& final(self).min_bound() == (if r < old(self).min_bound() {
                        r as int
                    } else {
                        old(self).min_bound()
                    })
                    &&& final(self).max_bound() == (if r > old(self).max_bound() {
                        r as int
                    } else {
                        old(self).max_bound()
                    })
                },
                PqRank::Effect => final(self).min_bound() == old(self).min_bound()
                    && final(self).max_bound() == old(self).max_bound(),
            },
            forall|i: int|
                0 <= i < old(items)@.len() && i != a && !old(items)@[i].pq_data().in_pq
                    ==> final(items)@[i] == old(items)@[i],
            forall|i: int|
                0 <= i < old(items)@.len() && i != a ==> final(items)@[i].pq_data().pq_rank
                    == old(items)@[i].pq_data().pq_rank,
    {
        let ghost ls0 = links(items@);
        let ghost pre = *self;
        let ghost k0 = ls0[a as int].pq_rank;
        self.remove(items, a);
        let ghost mid = *self;
        let ghost ls1 = links(items@);
        let ghost items1 = items@;
        let mut d = items[a].pq_element_data();
        d.pq_rank = new_rank;
        items[a].set_pq_element_data(d);
        proof {
            self.lemma_set_unqueued(ls1, a, d);
            assert(links(items@) =~= ls1.update(a as int, d));
        }
        let ghost mid_items = items@;
        self.enqueue(items, a);
        proof {
            self.lemma_rerank(mid, pre, ls0, a, new_rank);
            assert(self.bucket(new_rank).last() == a);
            self.lemma_member_of(links(items@), new_rank, a);
            assert forall|i: int| 0 <= i < ls0.len() && i != a implies items@[i].pq_data().pq_rank
                == old(items)@[i].pq_data().pq_rank && (!ls0[i].in_pq ==> items@[i] == old(items)@[i]) by {
                assert(mid_items[i] == items1[i]);
                if !ls0[i].in_pq {
                    assert(items1[i] == old(items)@[i]);
                    assert(items@[i] == mid_items[i]);
                }
            }
        }
    }

    /// Under `wf`, `is_empty` reports exactly that the bounds are crossed
    /// and the effect bucket is empty; then no bucket holds an item.
    pub proof fn lemma_reports_empty(&self, ls: Seq<PqElementData>)
        requires
            self.wf(ls),
        ensures
            self.reports_empty() == (self.min_bound() > self.max_bound() && self.bucket(
                PqRank::Effect,
            ).len() == 0),
            self.reports_empty() ==> self.vacant(),
    {
        reveal(InstrusiveIndexedPriorityQueue::wf);
        if self.reports_empty() {
            assert forall|k: PqRank| #[trigger] self.bucket(k).len() == 0 by {
                if let PqRank::Pure(x) = k {
                    if 0 <= x < self.pure_lists@.len() {
                        assert(self.pure_lists@[x as int].len() == 0);
                    }
                }
            }
        }
    }

    /// True when the bounds are crossed and no effect item waits.
    pub fn is_empty(&self) -> (r: bool)
        ensures
            r == self.reports_empty(),
    {
        self.min_rank > self.max_rank && self.last.head.is_none()
    }
}

} // verus!
