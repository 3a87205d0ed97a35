//! Advice to an ingester that comes back with shards of its own.
//!
//! A shard that the model does not know is to be deleted. A shard that the
//! model knows is to be truncated up to the position that was published.

use crate::controller::IngestController;
use crate::messages::{
    AdviseResetShardsResponse, AdviseResetShardsResponseView, ShardIdPosition, ShardIdPositionView,
    ShardIdPositions, ShardIdPositionsView, ShardIds, ShardIdsView,
};
use crate::model::{ControlPlaneModel, ModelView};
use crate::shard_table::ShardTableEntryView;
use crate::types::{lemma_views_push, views, ShardId, SourceUidView};
use vstd::prelude::*;

verus! {

/// Those of the shards `shard_ids` that the source `table` does not have.
pub open spec fn unknown_shard_ids(table: ShardTableEntryView, shard_ids: Seq<Seq<char>>) -> Seq<
    Seq<char>,
>
    decreases shard_ids.len(),
{
    if shard_ids.len() == 0 {
        Seq::empty()
    } else {
        let before = unknown_shard_ids(table, shard_ids.drop_last());
        if table.contains_shard(shard_ids.last()) {
            before
        } else {
            before.push(shard_ids.last())
        }
    }
}

/// Those of the shards `shard_ids` that the source `table` has, each with
/// the position up to which it was published.
pub open spec fn known_shard_positions(table: ShardTableEntryView, shard_ids: Seq<Seq<char>>) -> Seq<
    ShardIdPositionView,
>
    decreases shard_ids.len(),
{
    if shard_ids.len() == 0 {
        Seq::empty()
    } else {
        let before = known_shard_positions(table, shard_ids.drop_last());
        if table.contains_shard(shard_ids.last()) {
            before.push(
                ShardIdPositionView {
                    shard_id: shard_ids.last(),
                    publish_position_inclusive: table.shard(
                        shard_ids.last(),
                    ).shard.publish_position_inclusive,
                },
            )
        } else {
            before
        }
    }
}

/// The advice on the shards `shard_ids`, source after source. All the
/// shards of a source that the model does not know are to be deleted.
pub open spec fn reset_advice(model: ModelView, shard_ids: Seq<ShardIdsView>) -> AdviseResetShardsResponseView
    decreases shard_ids.len(),
{
    if shard_ids.len() == 0 {
        AdviseResetShardsResponseView {
            shards_to_delete: Seq::empty(),
            shards_to_truncate: Seq::empty(),
        }
    } else {
        let before = reset_advice(model, shard_ids.drop_last());
        let asked = shard_ids.last();
        if !model.has_source(asked.source_uid) {
            AdviseResetShardsResponseView {
                shards_to_delete: before.shards_to_delete.push(asked),
                ..before
            }
        } else {
            let table = model.source(asked.source_uid);
            let to_delete = unknown_shard_ids(table, asked.shard_ids);
            let to_truncate = known_shard_positions(table, asked.shard_ids);
            AdviseResetShardsResponseView {
                shards_to_delete: if to_delete.len() > 0 {
                    before.shards_to_delete.push(
                        ShardIdsView { source_uid: asked.source_uid, shard_ids: to_delete },
                    )
                } else {
                    before.shards_to_delete
                },
                shards_to_truncate: if to_truncate.len() > 0 {
                    before.shards_to_truncate.push(
                        ShardIdPositionsView {
                            source_uid: asked.source_uid,
                            shard_positions: to_truncate,
                        },
                    )
                } else {
                    before.shards_to_truncate
                },
            }
        }
    }
}

/// Whether the model knows the shard `shard_id` of the source `source_uid`.
pub open spec fn knows_shard(model: ModelView, source_uid: SourceUidView, shard_id: Seq<char>) -> bool {
    model.has_source(source_uid) && model.source(source_uid).contains_shard(shard_id)
}

/// Whether the advice is to delete the shard `shard_id` of the source
/// `source_uid`.
pub open spec fn advises_delete(
    advice: AdviseResetShardsResponseView,
    source_uid: SourceUidView,
    shard_id: Seq<char>,
) -> bool {
    exists|i: int|
        0 <= i < advice.shards_to_delete.len() && (#[trigger] advice.shards_to_delete[i]).source_uid
            == source_uid && advice.shards_to_delete[i].shard_ids.contains(shard_id)
}

/// Whether the advice is to truncate the shard `shard_id` of the source
/// `source_uid`.
pub open spec fn advises_truncate(
    advice: AdviseResetShardsResponseView,
    source_uid: SourceUidView,
    shard_id: Seq<char>,
) -> bool {
    exists|i: int, k: int|
        0 <= i < advice.shards_to_truncate.len() && 0 <= k
            < advice.shards_to_truncate[i].shard_positions.len() && (
        #[trigger] advice.shards_to_truncate[i]).source_uid == source_uid && (
        #[trigger] advice.shards_to_truncate[i].shard_positions[k]).shard_id == shard_id
}

proof fn lemma_unknown_shard_ids(table: ShardTableEntryView, shard_ids: Seq<Seq<char>>, k: int)
    requires
        0 <= k < unknown_shard_ids(table, shard_ids).len(),
    ensures
        !table.contains_shard(unknown_shard_ids(table, shard_ids)[k]),
    decreases shard_ids.len(),
{
    if shard_ids.len() > 0 {
        let before = unknown_shard_ids(table, shard_ids.drop_last());
        if k < before.len() {
            lemma_unknown_shard_ids(table, shard_ids.drop_last(), k);
        }
    }
}

proof fn lemma_known_shard_positions(table: ShardTableEntryView, shard_ids: Seq<Seq<char>>, k: int)
    requires
        0 <= k < known_shard_positions(table, shard_ids).len(),
    ensures
        table.contains_shard(known_shard_positions(table, shard_ids)[k].shard_id),
    decreases shard_ids.len(),
{
    if shard_ids.len() > 0 {
        let before = known_shard_positions(table, shard_ids.drop_last());
        if k < before.len() {
            lemma_known_shard_positions(table, shard_ids.drop_last(), k);
        }
    }
}

/// The shards to delete are shards that the model does not know; the shards
/// to truncate are shards that it knows.
pub proof fn lemma_advice_follows_model(
    model: ModelView,
    shard_ids: Seq<ShardIdsView>,
    source_uid: SourceUidView,
    shard_id: Seq<char>,
)
    ensures
        advises_delete(reset_advice(model, shard_ids), source_uid, shard_id) ==> !knows_shard(
            model,
            source_uid,
            shard_id,
        ),
        advises_truncate(reset_advice(model, shard_ids), source_uid, shard_id) ==> knows_shard(
            model,
            source_uid,
            shard_id,
        ),
    decreases shard_ids.len(),
{
    let advice = reset_advice(model, shard_ids);
    if shard_ids.len() > 0 {
        let before = reset_advice(model, shard_ids.drop_last());
        let asked = shard_ids.last();
        lemma_advice_follows_model(model, shard_ids.drop_last(), source_uid, shard_id);
        if advises_delete(advice, source_uid, shard_id) {
            let i = choose|i: int|
                0 <= i < advice.shards_to_delete.len() && (
                #[trigger] advice.shards_to_delete[i]).source_uid == source_uid
                    && advice.shards_to_delete[i].shard_ids.contains(shard_id);
            if i < before.shards_to_delete.len() {
                assert(before.shards_to_delete[i] == advice.shards_to_delete[i]);
                assert(advises_delete(before, source_uid, shard_id));
            } else if model.has_source(asked.source_uid) {
                let table = model.source(asked.source_uid);
                let to_delete = unknown_shard_ids(table, asked.shard_ids);
                let k = choose|k: int| 0 <= k < to_delete.len() && to_delete[k] == shard_id;
                lemma_unknown_shard_ids(table, asked.shard_ids, k);
            }
        }
        if advises_truncate(advice, source_uid, shard_id) {
            let (i, k) = choose|i: int, k: int|
                0 <= i < advice.shards_to_truncate.len() && 0 <= k
                    < advice.shards_to_truncate[i].shard_positions.len() && (
                #[trigger] advice.shards_to_truncate[i]).source_uid == source_uid && (
                #[trigger] advice.shards_to_truncate[i].shard_positions[k]).shard_id == shard_id;
            if i < before.shards_to_truncate.len() {
                assert(before.shards_to_truncate[i] == advice.shards_to_truncate[i]);
                assert(advises_truncate(before, source_uid, shard_id));
            } else {
                let table = model.source(asked.source_uid);
                lemma_known_shard_positions(table, asked.shard_ids, k);
            }
        }
    }
}

/// No shard is both to be deleted and to be truncated.
pub proof fn lemma_delete_or_truncate(
    model: ModelView,
    shard_ids: Seq<ShardIdsView>,
    source_uid: SourceUidView,
    shard_id: Seq<char>,
)
    ensures
        !(advises_delete(reset_advice(model, shard_ids), source_uid, shard_id) && advises_truncate(
            reset_advice(model, shard_ids),
            source_uid,
            shard_id,
        )),
{
    lemma_advice_follows_model(model, shard_ids, source_uid, shard_id);
}

impl IngestController {
    /// Advises an ingester what to do with the shards `shard_ids` that it
    /// holds: to delete those that the model does not know, and to truncate
    /// the others up to the position that was published.
    pub fn advise_reset_shards(&self, shard_ids: &Vec<ShardIds>, model: &ControlPlaneModel) -> (response:
        AdviseResetShardsResponse)
        requires
            model@.wf(),
        ensures
            response@ == reset_advice(model@, views(shard_ids@)),
    {
        let ghost asked = views(shard_ids@);
        let mut shards_to_delete: Vec<ShardIds> = Vec::new();
        let mut shards_to_truncate: Vec<ShardIdPositions> = Vec::new();
        let mut i: usize = 0;
        proof {
            assert(asked.take(0) =~= Seq::empty());
            assert(views(shards_to_delete@) =~= Seq::empty());
            assert(views(shards_to_truncate@) =~= Seq::empty());
        }
        while i < shard_ids.len()
            invariant
                i <= shard_ids.len(),
                model@.wf(),
                asked == views(shard_ids@),
                (AdviseResetShardsResponseView {
                    shards_to_delete: views(shards_to_delete@),
                    shards_to_truncate: views(shards_to_truncate@),
                }) == reset_advice(model@, asked.take(i as int)),
            decreases shard_ids.len() - i,
        {
            let group = &shard_ids[i];
            proof {
                assert(asked.take(i + 1).drop_last() =~= asked.take(i as int));
                assert(asked.take(i + 1).last() == group@);
            }
            match model.get_shards_for_source(&group.source_uid) {
                None => {
                    let all = group.clone();
                    proof {
                        lemma_views_push(shards_to_delete@, all);
                    }
                    shards_to_delete.push(all);
                },
                Some(table) => {
                    let ghost ids = views(group.shard_ids@);
                    let mut shard_ids_to_delete: Vec<ShardId> = Vec::new();
                    let mut shard_positions_to_truncate: Vec<ShardIdPosition> = Vec::new();
                    let mut k: usize = 0;
                    proof {
                        assert(ids.take(0) =~= Seq::empty());
                        assert(views(shard_ids_to_delete@) =~= Seq::empty());
                        assert(views(shard_positions_to_truncate@) =~= Seq::empty());
                    }
                    while k < group.shard_ids.len()
                        invariant
                            k <= group.shard_ids.len(),
                            table@.wf(),
                            ids == views(group.shard_ids@),
                            views(shard_ids_to_delete@) == unknown_shard_ids(
                                table@,
                                ids.take(k as int),
                            ),
                            views(shard_positions_to_truncate@) == known_shard_positions(
                                table@,
                                ids.take(k as int),
                            ),
                        decreases group.shard_ids.len() - k,
                    {
                        proof {
                            assert(ids.take(k + 1).drop_last() =~= ids.take(k as int));
                            assert(ids.take(k + 1).last() == group.shard_ids[k as int]@);
                        }
                        match table.find_shard(group.shard_ids[k].as_str()) {
                            Some(entry) => {
                                let position = ShardIdPosition {
                                    shard_id: group.shard_ids[k].clone(),
                                    publish_position_inclusive: entry.shard.publish_position_inclusive,
                                };
                                proof {
                                    lemma_views_push(shard_positions_to_truncate@, position);
                                }
                                shard_positions_to_truncate.push(position);
                            },
                            None => {
                                let shard_id = group.shard_ids[k].clone();
                                proof {
                                    lemma_views_push(shard_ids_to_delete@, shard_id);
                                }
                                shard_ids_to_delete.push(shard_id);
                            },
                        }
                        k += 1;
                    }
                    proof {
                        assert(ids.take(group.shard_ids.len() as int) =~= ids);
                    }
                    if shard_ids_to_delete.len() > 0 {
                        let to_delete = ShardIds {
                            source_uid: group.source_uid.clone(),
                            shard_ids: shard_ids_to_delete,
                        };
                        proof {
                            lemma_views_push(shards_to_delete@, to_delete);
                        }
                        shards_to_delete.push(to_delete);
                    }
                    if shard_positions_to_truncate.len() > 0 {
                        let to_truncate = ShardIdPositions {
                            source_uid: group.source_uid.clone(),
                            shard_positions: shard_positions_to_truncate,
                        };
                        proof {
                            lemma_views_push(shards_to_truncate@, to_truncate);
                        }
                        shards_to_truncate.push(to_truncate);
                    }
                },
            }
            i += 1;
        }
        proof {
            assert(asked.take(shard_ids.len() as int) =~= asked);
        }
        AdviseResetShardsResponse { shards_to_delete, shards_to_truncate }
    }
}

} // verus!
