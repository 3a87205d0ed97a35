//! The controller and what it keeps between two operations.

use crate::pool::IngesterPool;
use crate::types::NodeId;
use vstd::prelude::*;

verus! {

/// How long a leader is given to answer a request to initialize shards, in
/// milliseconds. A request that is not answered by then has failed.
pub const INIT_SHARDS_REQUEST_TIMEOUT_MILLIS: u64 = 3_000;

/// How long a leader is given to answer a request to close shards, in
/// milliseconds.
pub const CLOSE_SHARDS_REQUEST_TIMEOUT_MILLIS: u64 = INIT_SHARDS_REQUEST_TIMEOUT_MILLIS;

/// How long a rebalance operation waits, once the new shards are open,
/// before it closes the old ones, in milliseconds: the routers need that
/// time to learn of the new shards.
pub const CLOSE_SHARDS_UPON_REBALANCE_DELAY_MILLIS: u64 = 10_000;

/// How long a request may take whose answer nobody waits for, in
/// milliseconds.
pub const FIRE_AND_FORGET_TIMEOUT_MILLIS: u64 = 3_000;

/// Counters kept by the controller.
#[derive(Debug, Clone, Copy, PartialEq, Eq, Structural)]
pub struct IngestControllerStats {
    /// The rebalance operations that got hold of the lock.
    pub num_rebalance_shards_ops: usize,
}

impl Default for IngestControllerStats {
    fn default() -> (stats: Self)
        ensures
            stats.num_rebalance_shards_ops == 0,
    {
        IngestControllerStats { num_rebalance_shards_ops: 0 }
    }
}

/// Decides where the shards of the ingest sources live, when they open and
/// close, and how they move between the ingesters.
#[derive(Debug)]
pub struct IngestController {
    ingester_pool: IngesterPool,
    replication_factor: usize,
    rebalance_lock: bool,
    pub stats: IngestControllerStats,
}

impl IngestController {
    /// The pool of the controller holds no node twice.
    pub closed spec fn wf(&self) -> bool {
        self.ingester_pool.wf()
    }

    /// The ids of the live ingesters.
    pub closed spec fn ingesters(&self) -> Set<Seq<char>> {
        self.ingester_pool@
    }

    /// The number of copies of a shard: its leader and, above one, a
    /// follower.
    pub closed spec fn spec_replication_factor(&self) -> usize {
        self.replication_factor
    }

    /// Whether a rebalance operation is under way.
    pub closed spec fn rebalancing(&self) -> bool {
        self.rebalance_lock
    }

    /// The rebalance operations that got hold of the lock.
    pub closed spec fn num_rebalance_shards_ops(&self) -> usize {
        self.stats.num_rebalance_shards_ops
    }

    /// A controller over `ingester_pool` that has done nothing yet.
    pub fn new(ingester_pool: IngesterPool, replication_factor: usize) -> (controller: Self)
        requires
            ingester_pool.wf(),
        ensures
            controller.wf(),
            controller.ingesters() == ingester_pool@,
            controller.spec_replication_factor() == replication_factor,
            !controller.rebalancing(),
            controller.num_rebalance_shards_ops() == 0,
    {
        IngestController {
            ingester_pool,
            replication_factor,
            rebalance_lock: false,
            stats: IngestControllerStats::default(),
        }
    }

    #[verifier::when_used_as_spec(spec_replication_factor)]
    pub fn replication_factor(&self) -> (replication_factor: usize)
        ensures
            replication_factor == self.spec_replication_factor(),
    {
        self.replication_factor
    }

    /// The live ingesters.
    pub fn ingester_pool(&self) -> (pool: &IngesterPool)
        requires
            self.wf(),
        ensures
            pool.wf(),
            pool@ == self.ingesters(),
    {
        &self.ingester_pool
    }

    /// Whether both controllers work over the same ingesters with the same
    /// number of copies of a shard.
    pub open spec fn same_setup(&self, other: &IngestController) -> bool {
        &&& self.wf() == other.wf()
        &&& self.ingesters() == other.ingesters()
        &&& self.spec_replication_factor() == other.spec_replication_factor()
    }

    /// Takes the lock on rebalancing, unless an operation holds it, and
    /// counts the operation that got it.
    pub(crate) fn try_lock_rebalance(&mut self) -> (acquired: bool)
        ensures
            acquired == !old(self).rebalancing(),
            final(self).rebalancing(),
            final(self).same_setup(old(self)),
            final(self).num_rebalance_shards_ops() == if acquired && old(
                self,
            ).num_rebalance_shards_ops() < usize::MAX {
                (old(self).num_rebalance_shards_ops() + 1) as usize
            } else {
                old(self).num_rebalance_shards_ops()
            },
    {
        if self.rebalance_lock {
            return false;
        }
        self.rebalance_lock = true;
        if self.stats.num_rebalance_shards_ops < usize::MAX {
            self.stats.num_rebalance_shards_ops += 1;
        }
        true
    }

    /// Gives the lock on rebalancing back.
    pub(crate) fn unlock_rebalance(&mut self)
        ensures
            !final(self).rebalancing(),
            final(self).same_setup(old(self)),
            final(self).num_rebalance_shards_ops() == old(self).num_rebalance_shards_ops(),
    {
        self.rebalance_lock = false;
    }

    /// Takes note that the ingester `node_id` is alive.
    pub fn add_ingester(&mut self, node_id: NodeId)
        requires
            old(self).wf(),
        ensures
            final(self).wf(),
            final(self).ingesters() == old(self).ingesters().insert(node_id@),
            final(self).spec_replication_factor() == old(self).spec_replication_factor(),
            final(self).rebalancing() == old(self).rebalancing(),
            final(self).num_rebalance_shards_ops() == old(self).num_rebalance_shards_ops(),
    {
        self.ingester_pool.insert(node_id);
    }

    /// Takes note that the ingester `node_id` is gone.
    pub fn remove_ingester(&mut self, node_id: &str)
        requires
            old(self).wf(),
        ensures
            final(self).wf(),
            final(self).ingesters() == old(self).ingesters().remove(node_id@),
            final(self).spec_replication_factor() == old(self).spec_replication_factor(),
            final(self).rebalancing() == old(self).rebalancing(),
            final(self).num_rebalance_shards_ops() == old(self).num_rebalance_shards_ops(),
    {
        self.ingester_pool.remove(node_id);
    }
}

} // verus!
