//! Ranks, link records, and the capability of being queued.

use vstd::prelude::*;

verus! {

/// Priority of a queued item: a numeric rank (lower first) or `Effect`,
/// which always comes after every numeric rank.
#[derive(Clone, Copy, Debug, PartialEq, Eq, Structural)]
pub enum PqRank {
    Pure(i32),
    Effect,
}

/// Strict "dequeues before" order on ranks: numeric ranks by value, and
/// every numeric rank before `Effect`.
pub open spec fn rank_lt(a: PqRank, b: PqRank) -> bool {
    match (a, b) {
        (PqRank::Pure(x), PqRank::Pure(y)) => x < y,
        (PqRank::Pure(_), PqRank::Effect) => true,
        _ => false,
    }
}

/// The link record that every queueable item carries.
///
/// `pq_prev` and `pq_next` are indices of the neighbouring items in the
/// caller's arena, within the bucket that holds the item.
#[derive(Clone, Copy, Debug, PartialEq, Eq, Structural)]
pub struct PqElementData {
    pub pq_rank: PqRank,
    pub in_pq: bool,
    pub pq_prev: Option<usize>,
    pub pq_next: Option<usize>,
}

/// The capability of being queued: access to the item's link record.
pub trait PqElement: Sized {
    /// The link record held by this item.
    spec fn pq_data(&self) -> PqElementData;

    fn pq_element_data(&self) -> (r: PqElementData)
        ensures
            r == self.pq_data(),
    ;

    fn set_pq_element_data(&mut self, d: PqElementData)
        ensures
            final(self).pq_data() == d,
    ;
}

/// A bare link record is itself a queueable item.
impl PqElement for PqElementData {
    open spec fn pq_data(&self) -> PqElementData {
        *self
    }

    fn pq_element_data(&self) -> (r: PqElementData) {
        *self
    }

    fn set_pq_element_data(&mut self, d: PqElementData) {
        *self = d;
    }
}

/// The link records of an arena of items, position by position.
pub open spec fn links<A: PqElement>(items: Seq<A>) -> Seq<PqElementData> {
    items.map_values(|a: A| a.pq_data())
}

} // verus!
