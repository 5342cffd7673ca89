//! One bucket: a doubly linked list threaded through the link records of
//! an arena of items.

use vstd::prelude::*;

use crate::element::{links, PqElement, PqElementData, PqRank};

verus! {

/// Head and tail of one bucket's doubly linked list.
pub(crate) struct Entry {
    pub(crate) head: Option<usize>,
    pub(crate) tail: Option<usize>,
}

/// The link record that the item at position `j` of the list `s` of the
/// bucket for `rank` holds.
pub open spec fn linked_at(rank: PqRank, s: Seq<usize>, j: int) -> PqElementData {
    PqElementData {
        pq_rank: rank,
        in_pq: true,
        pq_prev: if j == 0 {
            None
        } else {
            Some(s[j - 1])
        },
        pq_next: if j + 1 == s.len() {
            None
        } else {
            Some(s[j + 1])
        },
    }
}

/// The link record of an item that is in no bucket.
pub open spec fn unlinked(rank: PqRank) -> PqElementData {
    PqElementData { pq_rank: rank, in_pq: false, pq_prev: None, pq_next: None }
}

/// `e` is the head and tail of the list `s`, whose items are linked in that
/// order through the records `ls` and belong to the bucket for `rank`.
pub(crate) open spec fn list_wf(e: Entry, s: Seq<usize>, rank: PqRank, ls: Seq<PqElementData>) -> bool {
    &&& s.no_duplicates()
    &&& (s.len() == 0 ==> e.head is None && e.tail is None)
    &&& (s.len() > 0 ==> e.head == Some(s[0]) && e.tail == Some(s.last()))
    &&& forall|j: int|
        0 <= j < s.len() ==> (#[trigger] s[j]) < ls.len() && ls[s[j] as int] == linked_at(
            rank,
            s,
            j,
        )
}

/// Changing records of items outside the list `s` keeps the list well formed.
pub(crate) proof fn lemma_list_frame(
    e: Entry,
    s: Seq<usize>,
    rank: PqRank,
    ls1: Seq<PqElementData>,
    ls2: Seq<PqElementData>,
)
    requires
        list_wf(e, s, rank, ls1),
        ls1.len() == ls2.len(),
        forall|j: int| 0 <= j < s.len() ==> ls2[#[trigger] s[j] as int] == ls1[s[j] as int],
    ensures
        list_wf(e, s, rank, ls2),
{
}

/// Position `j` of a well-formed list holds its linking record.
pub(crate) proof fn lemma_list_at(e: Entry, s: Seq<usize>, rank: PqRank, ls: Seq<PqElementData>, j: int)
    requires
        list_wf(e, s, rank, ls),
        0 <= j < s.len(),
    ensures
        s[j] < ls.len(),
        ls[s[j] as int] == linked_at(rank, s, j),
        ls[s[j] as int].in_pq,
        ls[s[j] as int].pq_rank == rank,
{
}

/// Appends item `a` at the tail of the list `s` held by `e`.
pub(crate) fn list_push<A: PqElement>(
    e: &mut Entry,
    items: &mut Vec<A>,
    a: usize,
    Ghost(s): Ghost<Seq<usize>>,
    Ghost(rank): Ghost<PqRank>,
)
    requires
        list_wf(*old(e), s, rank, links(old(items)@)),
        a < old(items)@.len(),
        !s.contains(a),
        old(items)@[a as int].pq_data().pq_rank == rank,
    ensures
        list_wf(*final(e), s.push(a), rank, links(final(items)@)),
        final(items)@.len() == old(items)@.len(),
        forall|i: int|
            0 <= i < old(items)@.len() && i != a && !s.contains(i as usize)
                ==> final(items)@[i] == old(items)@[i],
{
    let ghost ls0 = links(items@);
    let mut d = items[a].pq_element_data();
    d.in_pq = true;
    d.pq_next = None;
    match e.tail {
        None => {
            d.pq_prev = None;
            items[a].set_pq_element_data(d);
            e.head = Some(a);
            e.tail = Some(a);
        },
        Some(t) => {
            let mut dt = items[t].pq_element_data();
            dt.pq_next = Some(a);
            items[t].set_pq_element_data(dt);
            d.pq_prev = Some(t);
            items[a].set_pq_element_data(d);
            e.tail = Some(a);
        },
    }
    proof {
        let ls = links(items@);
        let s2 = s.push(a);
        assert forall|j: int| 0 <= j < s2.len() implies (#[trigger] s2[j]) < ls.len() && ls[s2[j] as int]
            == linked_at(rank, s2, j) by {
            if j + 1 < s.len() {
                assert(s2[j] == s[j]);
                assert(ls0[s[j] as int] == linked_at(rank, s, j));
            } else if j + 1 == s.len() {
                assert(ls0[s[j] as int] == linked_at(rank, s, j));
            }
        }
        assert forall|i: int, k: int| 0 <= i < s2.len() && 0 <= k < s2.len() && i != k implies s2[i]
            != s2[k] by {
            if i < s.len() && k < s.len() {
            } else if i < s.len() {
                assert(s.contains(s[i]));
            } else {
                assert(s.contains(s[k]));
            }
        }
    }
}

/// Takes item `a` out of the list `s` held by `e` and clears its links.
pub(crate) fn list_unlink<A: PqElement>(
    e: &mut Entry,
    items: &mut Vec<A>,
    a: usize,
    Ghost(s): Ghost<Seq<usize>>,
    Ghost(rank): Ghost<PqRank>,
)
    requires
        list_wf(*old(e), s, rank, links(old(items)@)),
        s.contains(a),
    ensures
        list_wf(*final(e), s.remove(s.index_of(a)), rank, links(final(items)@)),
        final(items)@.len() == old(items)@.len(),
        final(items)@[a as int].pq_data() == unlinked(rank),
        forall|i: int|
            0 <= i < old(items)@.len() && !s.contains(i as usize) ==> final(items)@[i]
                == old(items)@[i],
{
    let ghost ls0 = links(items@);
    let ghost j = s.index_of(a);
    proof {
        assert(ls0[s[j] as int] == linked_at(rank, s, j));
    }
    let mut d = items[a].pq_element_data();
    let prev = d.pq_prev;
    let next = d.pq_next;
    match prev {
        Some(p) => {
            proof {
                assert(ls0[s[j - 1] as int] == linked_at(rank, s, j - 1));
            }
            let mut dp = items[p].pq_element_data();
            dp.pq_next = next;
            items[p].set_pq_element_data(dp);
        },
        None => {
            e.head = next;
        },
    }
    match next {
        Some(n) => {
            proof {
                assert(ls0[s[j + 1] as int] == linked_at(rank, s, j + 1));
            }
            let mut dn = items[n].pq_element_data();
            dn.pq_prev = prev;
            items[n].set_pq_element_data(dn);
        },
        None => {
            e.tail = prev;
        },
    }
    d.in_pq = false;
    d.pq_prev = None;
    d.pq_next = None;
    items[a].set_pq_element_data(d);
    proof {
        let ls = links(items@);
        assert forall|x: int| 0 <= x < ls.len() implies #[trigger] ls[x] == (if x == a as int {
            unlinked(rank)
        } else if j > 0 && x == s[j - 1] as int {
            PqElementData { pq_next: next, ..ls0[x] }
        } else if j + 1 < s.len() && x == s[j + 1] as int {
            PqElementData { pq_prev: prev, ..ls0[x] }
        } else {
            ls0[x]
        }) by {
            if j > 0 {
                assert(s[j - 1] != s[j]);
            }
            if j + 1 < s.len() {
                assert(s[j + 1] != s[j]);
            }
            if j > 0 && j + 1 < s.len() {
                assert(s[j - 1] != s[j + 1]);
            }
        }
        lemma_unlink_links(s, j, rank, ls0, ls);
        assert forall|i: int| 0 <= i < ls.len() && !s.contains(i as usize) implies items@[i]
            == old(items)@[i] by {
            if i == a as int {
                assert(s.contains(a));
            }
            if j > 0 && i == s[j - 1] as int {
                assert(s.contains(s[j - 1]));
            }
            if j + 1 < s.len() && i == s[j + 1] as int {
                assert(s.contains(s[j + 1]));
            }
        }
    }
}

/// The records after unlinking position `j` of `s` make `s.remove(j)` a
/// linked list.
proof fn lemma_unlink_links(
    s: Seq<usize>,
    j: int,
    rank: PqRank,
    ls0: Seq<PqElementData>,
    ls: Seq<PqElementData>,
)
    requires
        s.no_duplicates(),
        0 <= j < s.len(),
        forall|k: int|
            0 <= k < s.len() ==> (#[trigger] s[k]) < ls0.len() && ls0[s[k] as int] == linked_at(
                rank,
                s,
                k,
            ),
        ls.len() == ls0.len(),
        forall|x: int| 0 <= x < ls.len() ==> #[trigger] ls[x] == (if x == s[j] as int {
            unlinked(rank)
        } else if j > 0 && x == s[j - 1] as int {
            PqElementData { pq_next: ls0[s[j] as int].pq_next, ..ls0[x] }
        } else if j + 1 < s.len() && x == s[j + 1] as int {
            PqElementData { pq_prev: ls0[s[j] as int].pq_prev, ..ls0[x] }
        } else {
            ls0[x]
        }),
    ensures
        s.remove(j).no_duplicates(),
        forall|k: int|
            0 <= k < s.remove(j).len() ==> (#[trigger] s.remove(j)[k]) < ls.len() && ls[s.remove(
                j,
            )[k] as int] == linked_at(rank, s.remove(j), k),
{
    let s2 = s.remove(j);
    assert forall|k: int| 0 <= k < s2.len() implies (#[trigger] s2[k]) < ls.len() && ls[s2[k] as int]
        == linked_at(rank, s2, k) by {
        let k0 = if k < j { k } else { k + 1 };
        assert(s2[k] == s[k0]);
        assert(ls0[s[k0] as int] == linked_at(rank, s, k0));
        assert(ls0[s[j] as int] == linked_at(rank, s, j));
        if k0 != j - 1 && k0 != j + 1 {
            assert(s[k0] != s[j]);
            if j > 0 { assert(s[k0] != s[j - 1]); }
            if j + 1 < s.len() { assert(s[k0] != s[j + 1]); }
        } else if k0 == j - 1 {
            assert(s[k0] != s[j]);
            if j + 1 < s.len() { assert(s[k0] != s[j + 1]); }
        } else {
            assert(s[k0] != s[j]);
            if j > 0 { assert(s[k0] != s[j - 1]); }
        }
    }
    assert forall|i: int, k: int| 0 <= i < s2.len() && 0 <= k < s2.len() && i != k implies s2[i]
        != s2[k] by {
        let i0 = if i < j { i } else { i + 1 };
        let k0 = if k < j { k } else { k + 1 };
        assert(s2[i] == s[i0] && s2[k] == s[k0]);
    }
}

} // verus!
