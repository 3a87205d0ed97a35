//! Telling the ingesters which shards to keep.
//!
//! An ingester is told the shards that, by the model, it leads or follows.
//! It keeps these and drops the others.

use crate::controller::IngestController;
use crate::messages::{RetainShardsForSource, ShardIds, ShardIdsView};
use crate::model::{hosted_shards, ControlPlaneModel, ModelView};
use crate::types::{lemma_views_push, views, NodeId, ShardId};
use vstd::prelude::*;

verus! {

/// The shards that one ingester is told to keep.
#[derive(Debug, PartialEq, Eq)]
pub struct RetainShardsRequest {
    pub ingester_id: NodeId,
    pub retain_shards_for_sources: Vec<RetainShardsForSource>,
}

/// What a value of `RetainShardsRequest` stands for.
pub struct RetainShardsRequestView {
    pub ingester_id: Seq<char>,
    pub retain_shards_for_sources: Seq<ShardIdsView>,
}

impl View for RetainShardsRequest {
    type V = RetainShardsRequestView;

    open spec fn view(&self) -> RetainShardsRequestView {
        RetainShardsRequestView {
            ingester_id: self.ingester_id@,
            retain_shards_for_sources: views(self.retain_shards_for_sources@),
        }
    }
}

/// What the ingester `ingester_id` is told to keep.
pub open spec fn retain_request(model: ModelView, ingester_id: Seq<char>) -> RetainShardsRequestView {
    RetainShardsRequestView {
        ingester_id,
        retain_shards_for_sources: hosted_shards(model.shard_table, ingester_id),
    }
}

/// What those of `ingesters` that are alive are told to keep.
pub open spec fn retain_requests(
    model: ModelView,
    ingesters: Seq<Seq<char>>,
    pool: Set<Seq<char>>,
) -> Seq<RetainShardsRequestView>
    decreases ingesters.len(),
{
    if ingesters.len() == 0 {
        Seq::empty()
    } else {
        let before = retain_requests(model, ingesters.drop_last(), pool);
        if pool.contains(ingesters.last()) {
            before.push(retain_request(model, ingesters.last()))
        } else {
            before
        }
    }
}

/// All the shard ids of `shard_ids`, source after source.
pub open spec fn all_shard_ids(shard_ids: Seq<ShardIdsView>) -> Seq<Seq<char>>
    decreases shard_ids.len(),
{
    if shard_ids.len() == 0 {
        Seq::empty()
    } else {
        all_shard_ids(shard_ids.drop_last()) + shard_ids.last().shard_ids
    }
}

/// Lists all the shard ids of `shard_ids`, for a short account of them.
pub fn summarize_shard_ids(shard_ids: &Vec<ShardIds>) -> (summary: Vec<ShardId>)
    ensures
        views(summary@) == all_shard_ids(views(shard_ids@)),
{
    let ghost groups = views(shard_ids@);
    let mut summary: Vec<ShardId> = Vec::new();
    let mut i: usize = 0;
    proof {
        assert(groups.take(0) =~= Seq::empty());
        assert(views(summary@) =~= Seq::empty());
    }
    while i < shard_ids.len()
        invariant
            i <= shard_ids.len(),
            groups == views(shard_ids@),
            views(summary@) == all_shard_ids(groups.take(i as int)),
        decreases shard_ids.len() - i,
    {
        let ids = &shard_ids[i].shard_ids;
        let ghost before = views(summary@);
        let ghost added = views(ids@);
        let mut k: usize = 0;
        proof {
            assert(groups.take(i + 1).drop_last() =~= groups.take(i as int));
            assert(groups.take(i + 1).last() == shard_ids[i as int]@);
            assert(before + added.take(0) =~= before);
        }
        while k < ids.len()
            invariant
                k <= ids.len(),
                added == views(ids@),
                views(summary@) == before + added.take(k as int),
            decreases ids.len() - k,
        {
            let shard_id = ids[k].clone();
            proof {
                lemma_views_push(summary@, shard_id);
                assert(before + added.take(k + 1) =~= (before + added.take(k as int)).push(
                    shard_id@,
                ));
            }
            summary.push(shard_id);
            k += 1;
        }
        proof {
            assert(added.take(ids.len() as int) =~= added);
        }
        i += 1;
    }
    proof {
        assert(groups.take(shard_ids.len() as int) =~= groups);
    }
    summary
}

impl IngestController {
    /// Says which shards the ingester `ingester` is to be told to keep.
    /// Nothing is to be told to an ingester that is not alive.
    pub fn sync_with_ingester(&self, ingester: &NodeId, model: &ControlPlaneModel) -> (request: Option<
        RetainShardsRequest,
    >)
        requires
            self.wf(),
        ensures
            request is Some <==> self.ingesters().contains(ingester@),
            request matches Some(request) ==> request@ == retain_request(model@, ingester@),
    {
        if !self.ingester_pool().contains_key(ingester.as_str()) {
            return None;
        }
        Some(
            RetainShardsRequest {
                ingester_id: ingester.clone(),
                retain_shards_for_sources: model.list_shards_for_node(ingester.as_str()),
            },
        )
    }

    /// Says what those of `ingesters` that are alive are to be told to keep.
    pub fn sync_with_ingesters(&self, ingesters: &Vec<NodeId>, model: &ControlPlaneModel) -> (requests:
        Vec<RetainShardsRequest>)
        requires
            self.wf(),
        ensures
            views(requests@) == retain_requests(model@, views(ingesters@), self.ingesters()),
    {
        let ghost names = views(ingesters@);
        let mut requests: Vec<RetainShardsRequest> = Vec::new();
        let mut i: usize = 0;
        proof {
            assert(names.take(0) =~= Seq::empty());
            assert(views(requests@) =~= Seq::empty());
        }
        while i < ingesters.len()
            invariant
                i <= ingesters.len(),
                self.wf(),
                names == views(ingesters@),
                views(requests@) == retain_requests(model@, names.take(i as int), self.ingesters()),
            decreases ingesters.len() - i,
        {
            proof {
                assert(names.take(i + 1).drop_last() =~= names.take(i as int));
                assert(names.take(i + 1).last() == ingesters[i as int]@);
            }
            match self.sync_with_ingester(&ingesters[i], model) {
                Some(request) => {
                    proof {
                        lemma_views_push(requests@, request);
                    }
                    requests.push(request);
                },
                None => {},
            }
            i += 1;
        }
        proof {
            assert(names.take(ingesters.len() as int) =~= names);
        }
        requests
    }

    /// Says what each live ingester is to be told to keep.
    pub fn sync_with_all_ingesters(&self, model: &ControlPlaneModel) -> (requests: Vec<
        RetainShardsRequest,
    >)
        requires
            self.wf(),
        ensures
            requests.len() == self.ingesters().len(),
            forall|i: int|
                0 <= i < requests.len() ==> self.ingesters().contains(
                    (#[trigger] requests[i])@.ingester_id,
                ) && requests[i]@ == retain_request(model@, requests[i]@.ingester_id),
            forall|ingester_id: Seq<char>|
                self.ingesters().contains(ingester_id) ==> exists|i: int|
                    0 <= i < requests.len() && (#[trigger] requests[i])@.ingester_id == ingester_id,
    {
        let ingesters = self.ingester_pool().keys();
        let ghost names = views(ingesters@);
        let mut requests: Vec<RetainShardsRequest> = Vec::new();
        let mut i: usize = 0;
        proof {
            names.unique_seq_to_set();
        }
        while i < ingesters.len()
            invariant
                i <= ingesters.len(),
                self.wf(),
                names == views(ingesters@),
                names.to_set() == self.ingesters(),
                requests.len() == i,
                forall|k: int|
                    0 <= k < i ==> (#[trigger] requests[k])@ == retain_request(model@, names[k]),
            decreases ingesters.len() - i,
        {
            proof {
                assert(names.to_set().contains(names[i as int]));
            }
            match self.sync_with_ingester(&ingesters[i], model) {
                Some(request) => {
                    requests.push(request);
                },
                None => {},
            }
            i += 1;
        }
        proof {
            assert forall|k: int| 0 <= k < requests.len() implies self.ingesters().contains(
                (#[trigger] requests[k])@.ingester_id,
            ) by {
                assert(names.to_set().contains(names[k]));
            }
            assert forall|ingester_id: Seq<char>|
                self.ingesters().contains(ingester_id) implies exists|i: int|
                0 <= i < requests.len() && (#[trigger] requests[i])@.ingester_id == ingester_id by {
                assert(names.to_set().contains(ingester_id));
                let k = choose|k: int| 0 <= k < names.len() && names[k] == ingester_id;
                assert(requests[k]@.ingester_id == ingester_id);
            }
        }
        requests
    }
}

} // verus!
