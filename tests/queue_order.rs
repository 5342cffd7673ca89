use rank_queue::{InstrusiveIndexedPriorityQueue, PqElementData, PqRank};

fn item(rank: PqRank) -> PqElementData {
    PqElementData { pq_rank: rank, in_pq: false, pq_prev: None, pq_next: None }
}

fn arena(ranks: &[PqRank]) -> Vec<PqElementData> {
    ranks.iter().map(|r| item(*r)).collect()
}

fn drain(q: &mut InstrusiveIndexedPriorityQueue, items: &mut Vec<PqElementData>) -> Vec<usize> {
    let mut out = Vec::new();
    while let Some(x) = q.dequeue(items) {
        out.push(x);
    }
    out
}

#[test]
fn new_queue_is_empty_and_dequeues_nothing() {
    let mut items: Vec<PqElementData> = Vec::new();
    let mut q = InstrusiveIndexedPriorityQueue::new();
    assert!(q.is_empty());
    assert_eq!(q.dequeue(&mut items), None);
    assert!(q.is_empty());
}

#[test]
fn lower_rank_dequeues_first_in_either_order() {
    // A at rank 2, B at rank 5.
    let mut items = arena(&[PqRank::Pure(2), PqRank::Pure(5)]);
    let mut q = InstrusiveIndexedPriorityQueue::new();
    q.enqueue(&mut items, 0);
    q.enqueue(&mut items, 1);
    assert_eq!(drain(&mut q, &mut items), vec![0, 1]);

    let mut items = arena(&[PqRank::Pure(2), PqRank::Pure(5)]);
    let mut q = InstrusiveIndexedPriorityQueue::new();
    q.enqueue(&mut items, 1);
    q.enqueue(&mut items, 0);
    assert_eq!(drain(&mut q, &mut items), vec![0, 1]);
}

#[test]
fn same_rank_is_first_in_first_out() {
    let mut items = arena(&[PqRank::Pure(3), PqRank::Pure(3)]);
    let mut q = InstrusiveIndexedPriorityQueue::new();
    q.enqueue(&mut items, 0);
    q.enqueue(&mut items, 1);
    assert_eq!(q.dequeue(&mut items), Some(0));
    assert_eq!(q.dequeue(&mut items), Some(1));
    assert_eq!(q.dequeue(&mut items), None);
}

#[test]
fn effect_items_come_after_rank_zero() {
    let mut items = arena(&[PqRank::Effect, PqRank::Pure(0)]);
    let mut q = InstrusiveIndexedPriorityQueue::new();
    q.enqueue(&mut items, 0);
    q.enqueue(&mut items, 1);
    assert_eq!(q.dequeue(&mut items), Some(1));
    assert_eq!(q.dequeue(&mut items), Some(0));
    assert_eq!(q.dequeue(&mut items), None);
}

#[test]
fn effect_bucket_is_first_in_first_out() {
    let mut items = arena(&[PqRank::Effect, PqRank::Effect, PqRank::Effect]);
    let mut q = InstrusiveIndexedPriorityQueue::new();
    q.enqueue(&mut items, 2);
    q.enqueue(&mut items, 0);
    q.enqueue(&mut items, 1);
    assert!(!q.is_empty());
    assert_eq!(drain(&mut q, &mut items), vec![2, 0, 1]);
    assert!(q.is_empty());
}

#[test]
fn removed_item_never_dequeues_shared_rank() {
    let mut items = arena(&[PqRank::Pure(1), PqRank::Pure(1), PqRank::Pure(1)]);
    let mut q = InstrusiveIndexedPriorityQueue::new();
    q.enqueue(&mut items, 0);
    q.enqueue(&mut items, 1);
    q.enqueue(&mut items, 2);
    q.remove(&mut items, 1);
    assert!(!items[1].in_pq);
    assert_eq!(items[1].pq_prev, None);
    assert_eq!(items[1].pq_next, None);
    assert_eq!(items[0].pq_next, Some(2));
    assert_eq!(items[2].pq_prev, Some(0));
    assert_eq!(drain(&mut q, &mut items), vec![0, 2]);
}

#[test]
fn removed_item_never_dequeues_distinct_ranks() {
    let mut items = arena(&[PqRank::Pure(4), PqRank::Pure(2), PqRank::Effect]);
    let mut q = InstrusiveIndexedPriorityQueue::new();
    q.enqueue(&mut items, 0);
    q.enqueue(&mut items, 1);
    q.enqueue(&mut items, 2);
    q.remove(&mut items, 1);
    assert_eq!(drain(&mut q, &mut items), vec![0, 2]);
}

#[test]
fn remove_head_tail_and_sole_item() {
    let mut items = arena(&[PqRank::Pure(0), PqRank::Pure(0), PqRank::Pure(0), PqRank::Effect]);
    let mut q = InstrusiveIndexedPriorityQueue::new();
    q.enqueue(&mut items, 0);
    q.enqueue(&mut items, 1);
    q.enqueue(&mut items, 2);
    q.enqueue(&mut items, 3);
    q.remove(&mut items, 0);
    assert_eq!(items[1].pq_prev, None);
    q.remove(&mut items, 2);
    assert_eq!(items[1].pq_next, None);
    q.remove(&mut items, 3);
    assert!(!items[3].in_pq);
    assert_eq!(drain(&mut q, &mut items), vec![1]);
    // The bucket is reusable after it was emptied by removals.
    q.enqueue(&mut items, 2);
    q.enqueue(&mut items, 0);
    assert_eq!(drain(&mut q, &mut items), vec![2, 0]);
}

#[test]
fn remove_of_unqueued_item_does_nothing() {
    let mut items = arena(&[PqRank::Pure(1), PqRank::Pure(1)]);
    let mut q = InstrusiveIndexedPriorityQueue::new();
    q.enqueue(&mut items, 0);
    let before = items.clone();
    q.remove(&mut items, 1);
    assert_eq!(items, before);
    assert_eq!(drain(&mut q, &mut items), vec![0]);
}

#[test]
fn change_rank_moves_item_behind_new_peers() {
    // A at rank 1, moved to rank 5; B at rank 3.
    let mut items = arena(&[PqRank::Pure(1), PqRank::Pure(3)]);
    let mut q = InstrusiveIndexedPriorityQueue::new();
    q.enqueue(&mut items, 0);
    q.change_rank(&mut items, 0, PqRank::Pure(5));
    assert_eq!(items[0].pq_rank, PqRank::Pure(5));
    assert!(items[0].in_pq);
    q.enqueue(&mut items, 1);
    assert_eq!(q.dequeue(&mut items), Some(1));
    assert_eq!(q.dequeue(&mut items), Some(0));
    assert_eq!(q.dequeue(&mut items), None);
}

#[test]
fn change_rank_of_unqueued_item_queues_it() {
    let mut items = arena(&[PqRank::Pure(7), PqRank::Pure(2)]);
    let mut q = InstrusiveIndexedPriorityQueue::new();
    q.enqueue(&mut items, 1);
    q.change_rank(&mut items, 0, PqRank::Effect);
    assert_eq!(items[0].pq_rank, PqRank::Effect);
    assert_eq!(drain(&mut q, &mut items), vec![1, 0]);
}

#[test]
fn draining_leaves_queue_empty_for_good() {
    let mut items = arena(&[PqRank::Pure(2), PqRank::Effect, PqRank::Pure(0)]);
    let mut q = InstrusiveIndexedPriorityQueue::new();
    for i in 0..3 {
        q.enqueue(&mut items, i);
    }
    assert_eq!(drain(&mut q, &mut items), vec![2, 0, 1]);
    assert!(q.is_empty());
    assert_eq!(q.dequeue(&mut items), None);
    assert!(q.is_empty());
    assert!(items.iter().all(|d| !d.in_pq));
}

#[test]
fn mixed_ranks_dequeue_in_rank_then_insertion_order() {
    let mut items = arena(&[
        PqRank::Pure(3),
        PqRank::Pure(1),
        PqRank::Pure(1),
        PqRank::Effect,
        PqRank::Pure(0),
    ]);
    let mut q = InstrusiveIndexedPriorityQueue::new();
    for i in 0..5 {
        q.enqueue(&mut items, i);
    }
    assert_eq!(drain(&mut q, &mut items), vec![4, 1, 2, 0, 3]);
}

#[test]
fn enqueue_twice_changes_nothing() {
    let mut items = arena(&[PqRank::Pure(2), PqRank::Pure(2)]);
    let mut q = InstrusiveIndexedPriorityQueue::new();
    q.enqueue(&mut items, 0);
    q.enqueue(&mut items, 1);
    let before = items.clone();
    q.enqueue(&mut items, 0);
    q.enqueue(&mut items, 1);
    assert_eq!(items, before);
    assert_eq!(drain(&mut q, &mut items), vec![0, 1]);
}

#[test]
fn queued_flag_tracks_membership() {
    let mut items = arena(&[PqRank::Pure(0), PqRank::Pure(0)]);
    let mut q = InstrusiveIndexedPriorityQueue::new();
    q.enqueue(&mut items, 0);
    q.enqueue(&mut items, 1);
    assert!(items[0].in_pq && items[1].in_pq);
    assert_eq!(items[0].pq_next, Some(1));
    assert_eq!(items[1].pq_prev, Some(0));
    assert_eq!(q.dequeue(&mut items), Some(0));
    assert!(!items[0].in_pq);
    assert_eq!(items[0].pq_next, None);
    assert_eq!(items[1].pq_prev, None);
    q.remove(&mut items, 1);
    assert!(!items[1].in_pq);
    // Queued again after leaving: the flag was cleared.
    q.enqueue(&mut items, 1);
    assert!(items[1].in_pq);
    assert_eq!(q.dequeue(&mut items), Some(1));
}

#[test]
fn rank_beyond_initial_buckets_grows_storage() {
    let mut items = arena(&[PqRank::Pure(5000), PqRank::Pure(1200), PqRank::Pure(999)]);
    let mut q = InstrusiveIndexedPriorityQueue::new();
    for i in 0..3 {
        q.enqueue(&mut items, i);
    }
    assert_eq!(drain(&mut q, &mut items), vec![2, 1, 0]);
}

#[test]
fn lower_rank_enqueued_during_drain_comes_next() {
    let mut items = arena(&[PqRank::Pure(2), PqRank::Pure(4), PqRank::Pure(1)]);
    let mut q = InstrusiveIndexedPriorityQueue::new();
    q.enqueue(&mut items, 0);
    q.enqueue(&mut items, 1);
    assert_eq!(q.dequeue(&mut items), Some(0));
    q.enqueue(&mut items, 2);
    assert_eq!(q.dequeue(&mut items), Some(2));
    assert_eq!(q.dequeue(&mut items), Some(1));
    assert_eq!(q.dequeue(&mut items), None);
}

#[test]
fn bounds_are_lazy_after_removal() {
    let mut items = arena(&[PqRank::Pure(1), PqRank::Pure(3)]);
    let mut q = InstrusiveIndexedPriorityQueue::new();
    q.enqueue(&mut items, 0);
    q.enqueue(&mut items, 1);
    q.remove(&mut items, 1);
    assert_eq!(q.dequeue(&mut items), Some(0));
    // Rank 3 is still covered by the bounds until a dequeue scans past it.
    assert!(!q.is_empty());
    assert_eq!(q.dequeue(&mut items), None);
    assert!(q.is_empty());
}

#[test]
fn dequeuing_last_item_of_top_rank_resets_bounds() {
    let mut items = arena(&[PqRank::Pure(6)]);
    let mut q = InstrusiveIndexedPriorityQueue::new();
    q.enqueue(&mut items, 0);
    assert!(!q.is_empty());
    assert_eq!(q.dequeue(&mut items), Some(0));
    assert!(q.is_empty());
}
