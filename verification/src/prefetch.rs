//! Look-ahead over the layers of a model.

use crate::vmt::Tier;
use vstd::prelude::*;

verus! {

/// Where the weights of a layer are.
#[derive(Debug)]
pub struct LayerLocation {
    /// Ordinal of the GPU that has them.
    pub gpu_ordinal: i32,
    /// Tier that they are in.
    pub tier: Tier,
    /// Name of the page.
    pub name: String,
}

impl Clone for LayerLocation {
    fn clone(&self) -> (r: Self)
        ensures
            r == *self,
    {
        LayerLocation { gpu_ordinal: self.gpu_ordinal, tier: self.tier, name: self.name.clone() }
    }
}

/// The layers in order.
pub type LayerSchedule = Vec<LayerLocation>;

/// A transfer ahead of need that is under way.
#[derive(Debug)]
pub struct PrefetchJob {
    /// Name of the weights.
    pub name: String,
    /// The event that fires when the transfer has landed, by the address of what
    /// the driver keeps for it.
    pub event: usize,
    /// Ordinal of the GPU that they go to.
    pub dst_gpu: i32,
}

/// Transfers that run a number of layers ahead of the computation.
#[derive(Debug)]
pub struct LookAheadPrefetcher {
    /// How many layers to look ahead.
    pub depth: usize,
    /// The transfers under way.
    pub inflight: Vec<PrefetchJob>,
}

impl LookAheadPrefetcher {
    /// Look ahead `depth` layers. Nothing is under way yet.
    pub fn new(depth: usize) -> (r: Self)
        ensures
            r.depth == depth,
            r.inflight@ == Seq::<PrefetchJob>::empty(),
    {
        LookAheadPrefetcher { depth, inflight: Vec::new() }
    }

    /// Give up all transfers that are under way. They are to be waited for, in
    /// this order, up to the first that fails.
    pub fn sync_all(&mut self) -> (r: Vec<PrefetchJob>)
        ensures
            r@ == old(self).inflight@,
            final(self).inflight@ == Seq::<PrefetchJob>::empty(),
            final(self).depth == old(self).depth,
    {
        let mut jobs: Vec<PrefetchJob> = Vec::new();
        std::mem::swap(&mut jobs, &mut self.inflight);
        jobs
    }

    /// Number of transfers under way.
    pub fn inflight_count(&self) -> (r: usize)
        ensures
            r == self.inflight@.len(),
    {
        self.inflight.len()
    }
}

} // verus!
