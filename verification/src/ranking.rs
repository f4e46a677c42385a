//! The order in which search results are returned.
use vstd::prelude::*;

use crate::node::{NodeId, PayloadView, SearchHit};
use crate::number::{f32_total_key, f32_total_less};
use crate::sorting::{order_of, SortItem};

verus! {

/// A search result as mathematical values.
pub struct HitView {
    pub id: NodeId,
    pub score: u32,
    pub payload: PayloadView,
}

impl View for SearchHit {
    type V = HitView;

    open spec fn view(&self) -> HitView {
        HitView { id: self.id, score: self.score, payload: self.payload@ }
    }
}

/// A node with a score, a single precision bit pattern.
#[derive(Debug, Clone, Copy, PartialEq, Eq, Structural)]
pub struct Scored {
    pub id: NodeId,
    pub score: u32,
}

impl View for Scored {
    type V = Scored;

    open spec fn view(&self) -> Scored {
        *self
    }
}

/// Whether a result comes before another: the greater score first, in the total order of single
/// precision numbers, and the smaller identifier first among equal scores.
pub open spec fn ranks_before(a_score: u32, a_id: NodeId, b_score: u32, b_id: NodeId) -> bool {
    f32_total_key(a_score) > f32_total_key(b_score) || (f32_total_key(a_score) == f32_total_key(
        b_score,
    ) && a_id < b_id)
}

/// Whether a result comes before another.
fn comes_before(a_score: u32, a_id: NodeId, b_score: u32, b_id: NodeId) -> (result: bool)
    ensures
        result == ranks_before(a_score, a_id, b_score, b_id),
{
    f32_total_less(b_score, a_score) || (!f32_total_less(a_score, b_score) && a_id < b_id)
}

impl SortItem for SearchHit {
    open spec fn goes_before(a: HitView, b: HitView) -> bool {
        ranks_before(a.score, a.id, b.score, b.id)
    }

    proof fn lemma_order(a: HitView, b: HitView, c: HitView) {
    }

    fn is_before(&self, other: &SearchHit) -> (result: bool) {
        comes_before(self.score, self.id, other.score, other.id)
    }
}

impl SortItem for Scored {
    open spec fn goes_before(a: Scored, b: Scored) -> bool {
        ranks_before(a.score, a.id, b.score, b.id)
    }

    proof fn lemma_order(a: Scored, b: Scored, c: Scored) {
    }

    fn is_before(&self, other: &Scored) -> (result: bool) {
        comes_before(self.score, self.id, other.score, other.id)
    }
}

/// The order of search results.
pub open spec fn hits_order() -> spec_fn(HitView, HitView) -> bool {
    order_of::<SearchHit>()
}

/// The order of scored nodes.
pub open spec fn scored_order() -> spec_fn(Scored, Scored) -> bool {
    order_of::<Scored>()
}

impl SearchHit {
    /// A result with the same contents.
    pub fn duplicate(&self) -> (result: SearchHit)
        ensures
            result@ == self@,
    {
        SearchHit { id: self.id, score: self.score, payload: self.payload.duplicate() }
    }
}

} // verus!
