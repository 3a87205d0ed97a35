//! What routers report: shards that they saw closed and leaders that they
//! could not reach.

use crate::controller::IngestController;
use crate::messages::{ShardIds, ShardIdsView};
use crate::model::{ControlPlaneModel, ModelView};
use crate::node_set::{
    names_in, node_set_insert, node_set_is_empty, node_set_members, node_set_new,
};
use crate::shard_table::ShardTableEntryView;
use crate::types::{views, NodeId, ShardState, SourceUidView};
use fnv::FnvHashSet;
use vstd::prelude::*;

verus! {

/// The model once all the shards of `closed_shards` are known to be closed.
pub open spec fn with_all_closed(model: ModelView, closed_shards: Seq<ShardIdsView>) -> ModelView
    decreases closed_shards.len(),
{
    if closed_shards.len() == 0 {
        model
    } else {
        with_all_closed(model, closed_shards.drop_last()).with_closed(
            closed_shards.last().source_uid,
            closed_shards.last().shard_ids,
        )
    }
}

/// That no leader is gone changes nothing.
pub proof fn lemma_without_no_leaders(model: ModelView)
    ensures
        model.without_leaders(Set::empty()) == model,
{
    let after = model.without_leaders(Set::empty());
    assert forall|i: int| 0 <= i < model.shard_table.len() implies after.shard_table[i]
        == model.shard_table[i] by {
        assert(after.shard_table[i].shard_entries =~= model.shard_table[i].shard_entries);
    }
    assert(after.shard_table =~= model.shard_table);
}

/// Whether `closed_shards` names the shard `shard_id` of the source
/// `source_uid`.
pub open spec fn names_shard(
    closed_shards: Seq<ShardIdsView>,
    source_uid: SourceUidView,
    shard_id: Seq<char>,
) -> bool {
    exists|k: int|
        0 <= k < closed_shards.len() && (#[trigger] closed_shards[k]).source_uid == source_uid
            && closed_shards[k].shard_ids.contains(shard_id)
}

/// The model in which each shard that `closed_shards` names is closed.
pub open spec fn closed_where_named(model: ModelView, closed_shards: Seq<ShardIdsView>) -> ModelView {
    ModelView {
        shard_table: Seq::new(
            model.shard_table.len(),
            |i: int|
                ShardTableEntryView {
                    shard_entries: Seq::new(
                        model.shard_table[i].shard_entries.len(),
                        |j: int|
                            {
                                let entry = model.shard_table[i].shard_entries[j];
                                if names_shard(
                                    closed_shards,
                                    model.shard_table[i].source_uid,
                                    entry.shard.shard_id,
                                ) {
                                    entry.in_state(ShardState::Closed)
                                } else {
                                    entry
                                }
                            },
                    ),
                    ..model.shard_table[i]
                },
        ),
        ..model
    }
}

/// Taking the reports one after the other closes the shards that they name
/// and changes nothing else.
pub proof fn lemma_with_all_closed(model: ModelView, closed_shards: Seq<ShardIdsView>)
    ensures
        with_all_closed(model, closed_shards) == closed_where_named(model, closed_shards),
    decreases closed_shards.len(),
{
    let named = closed_where_named(model, closed_shards);
    if closed_shards.len() == 0 {
        assert forall|i: int| 0 <= i < model.shard_table.len() implies named.shard_table[i]
            == model.shard_table[i] by {
            assert(named.shard_table[i].shard_entries =~= model.shard_table[i].shard_entries);
        }
        assert(named.shard_table =~= model.shard_table);
    } else {
        let shorter = closed_shards.drop_last();
        let last = closed_shards.last();
        lemma_with_all_closed(model, shorter);
        let before = closed_where_named(model, shorter);
        let after = before.with_closed(last.source_uid, last.shard_ids);
        assert forall|i: int| 0 <= i < model.shard_table.len() implies after.shard_table[i]
            == named.shard_table[i] by {
            let source_uid = model.shard_table[i].source_uid;
            assert forall|j: int| 0 <= j < model.shard_table[i].shard_entries.len() implies after.shard_table[i].shard_entries[j]
                == named.shard_table[i].shard_entries[j] by {
                let entry = model.shard_table[i].shard_entries[j];
                let shard_id = entry.shard.shard_id;
                if names_shard(shorter, source_uid, shard_id) {
                    let k = choose|k: int|
                        0 <= k < shorter.len() && (#[trigger] shorter[k]).source_uid == source_uid
                            && shorter[k].shard_ids.contains(shard_id);
                    assert(closed_shards[k] == shorter[k]);
                }
                if source_uid == last.source_uid && last.shard_ids.contains(shard_id) {
                    assert(closed_shards[closed_shards.len() - 1] == last);
                }
                if names_shard(closed_shards, source_uid, shard_id) {
                    let k = choose|k: int|
                        0 <= k < closed_shards.len() && (#[trigger] closed_shards[k]).source_uid
                            == source_uid && closed_shards[k].shard_ids.contains(shard_id);
                    if k < shorter.len() {
                        assert(shorter[k] == closed_shards[k]);
                    }
                }
            }
            assert(after.shard_table[i].shard_entries =~= named.shard_table[i].shard_entries);
        }
        assert(after.shard_table =~= named.shard_table);
    }
}

/// What routers report of closed shards can be taken in twice: the second
/// time changes nothing.
pub proof fn lemma_closed_shards_idempotent(model: ModelView, closed_shards: Seq<ShardIdsView>)
    ensures
        with_all_closed(with_all_closed(model, closed_shards), closed_shards) == with_all_closed(
            model,
            closed_shards,
        ),
{
    let once = with_all_closed(model, closed_shards);
    let twice = with_all_closed(once, closed_shards);
    lemma_with_all_closed(model, closed_shards);
    lemma_with_all_closed(once, closed_shards);
    assert forall|i: int| 0 <= i < once.shard_table.len() implies twice.shard_table[i]
        == once.shard_table[i] by {
        assert(twice.shard_table[i].shard_entries =~= once.shard_table[i].shard_entries);
    }
    assert(twice.shard_table =~= once.shard_table);
}

impl IngestController {
    /// Marks as closed the shards that a router has seen closed.
    pub fn handle_closed_shards(&self, closed_shards: &Vec<ShardIds>, model: &mut ControlPlaneModel)
        requires
            old(model)@.wf(),
        ensures
            final(model)@ == with_all_closed(old(model)@, views(closed_shards@)),
            final(model)@.wf(),
    {
        let ghost reports = views(closed_shards@);
        let mut i: usize = 0;
        while i < closed_shards.len()
            invariant
                i <= closed_shards.len(),
                reports == views(closed_shards@),
                model@.wf(),
                model@ == with_all_closed(old(model)@, reports.take(i as int)),
            decreases closed_shards.len() - i,
        {
            proof {
                assert(reports.take(i + 1).drop_last() =~= reports.take(i as int));
            }
            model.close_shards(&closed_shards[i].source_uid, &closed_shards[i].shard_ids);
            i += 1;
        }
        proof {
            assert(reports.take(closed_shards.len() as int) =~= reports);
        }
    }

    /// Marks as unavailable the open shards of the leaders that a router
    /// could not reach and that are not alive. A leader that the router
    /// could not reach but that is alive is left alone: the router may be
    /// cut off.
    pub fn handle_unavailable_leaders(
        &self,
        unavailable_leaders: &FnvHashSet<NodeId>,
        model: &mut ControlPlaneModel,
    )
        requires
            self.wf(),
            old(model)@.wf(),
        ensures
            final(model)@ == old(model)@.without_leaders(
                names_in(*unavailable_leaders).difference(self.ingesters()),
            ),
            final(model)@.wf(),
    {
        let reported = node_set_members(unavailable_leaders);
        let ghost names = views(reported@);
        let mut confirmed = node_set_new();
        let mut i: usize = 0;
        while i < reported.len()
            invariant
                i <= reported.len(),
                self.wf(),
                names == views(reported@),
                forall|name: Seq<char>|
                    names_in(confirmed).contains(name) <==> !self.ingesters().contains(name)
                        && exists|j: int| 0 <= j < i && names[j] == name,
            decreases reported.len() - i,
        {
            if !self.ingester_pool().contains_key(reported[i].as_str()) {
                node_set_insert(&mut confirmed, reported[i].clone());
            }
            proof {
                assert(names[i as int] == reported[i as int]@);
            }
            i += 1;
        }
        proof {
            let gone = names_in(*unavailable_leaders).difference(self.ingesters());
            assert forall|name: Seq<char>| names_in(confirmed).contains(name) <==> gone.contains(
                name,
            ) by {
                if gone.contains(name) {
                    assert(names.to_set().contains(name));
                    assert(names.contains(name));
                }
                if names_in(confirmed).contains(name) {
                    let j = choose|j: int| 0 <= j < reported.len() && names[j] == name;
                    assert(names.contains(name));
                    assert(names.to_set().contains(name));
                }
            }
            assert(names_in(confirmed) =~= gone);
        }
        if !node_set_is_empty(&confirmed) {
            model.set_shards_as_unavailable(&confirmed);
        } else {
            proof {
                lemma_without_no_leaders(model@);
            }
        }
    }
}

} // verus!
