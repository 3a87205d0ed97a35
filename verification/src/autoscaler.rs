//! Opening and closing shards as the load of a source goes up and down.
//!
//! An ingester reports the rates of its shards. A source whose open shards
//! take in, on average, four fifths of what a shard can take gets one more
//! shard; one whose open shards take in a fifth of it at most loses one,
//! unless it is its last. Permits limit how often a source is scaled.

use crate::allocator::{allocation, is_open_led_by};
use crate::controller::IngestController;
use crate::messages::{
    InitShardSuccess, LocalShardsUpdate, OpenShardSubrequest, ShardPKey, ShardPKeyView,
    SubrequestShardView,
};
use crate::minting::{is_ulid_text, mint_shard_id};
use crate::model::{
    lemma_with_permits_again, lemma_with_permits_keeps_shards, lemma_with_permits_source,
    ControlPlaneModel, ModelView,
};
use crate::names::{
    compare_names, lemma_name_lt_asymmetric, lemma_name_lt_transitive, name_lt, same_name,
    NameOrder,
};
use crate::node_set::node_set_new;
use crate::resolver::{stamped, PendingShardView};
use crate::shard_table::{
    ids_ascending, lemma_with_infos_idempotent, permits_limit, ScalingMode, ShardEntry,
    ShardEntryView, ShardInfoView, ShardStats,
};
use crate::types::{clone_name_opt, views, NodeId, Shard, ShardId, SourceUid, SourceUidView};
use vstd::prelude::*;

verus! {

/// What a shard can take in, in MiB/s.
pub const MAX_SHARD_INGESTION_THROUGHPUT_MIB_PER_SEC: u16 = 5;

/// The average rate in MiB/s from which a source gets one more shard.
pub const SCALE_UP_SHARDS_THRESHOLD_MIB_PER_SEC: u16 = MAX_SHARD_INGESTION_THROUGHPUT_MIB_PER_SEC
    * 8 / 10;

/// The average rate in MiB/s up to which a source loses a shard.
pub const SCALE_DOWN_SHARDS_THRESHOLD_MIB_PER_SEC: u16 = MAX_SHARD_INGESTION_THROUGHPUT_MIB_PER_SEC
    * 2 / 10;

/// What the load of a source calls for.
#[derive(Clone, Copy, Debug, PartialEq, Eq, Structural)]
pub enum ScalingDecision {
    ScaleUp,
    ScaleDown,
    NoChange,
}

/// What the load `stats` of a source calls for.
pub open spec fn scaling_decision(stats: ShardStats) -> ScalingDecision {
    if stats.avg_ingestion_rate_at_least(SCALE_UP_SHARDS_THRESHOLD_MIB_PER_SEC as int) {
        ScalingDecision::ScaleUp
    } else if stats.avg_ingestion_rate_at_most(SCALE_DOWN_SHARDS_THRESHOLD_MIB_PER_SEC as int)
        && stats.num_open_shards > 1 {
        ScalingDecision::ScaleDown
    } else {
        ScalingDecision::NoChange
    }
}

/// Says what the load `stats` of a source calls for.
pub fn decide_scaling(stats: ShardStats) -> (decision: ScalingDecision)
    ensures
        decision == scaling_decision(stats),
        decision == ScalingDecision::ScaleUp ==> stats.avg_ingestion_rate_at_least(4),
        decision == ScalingDecision::ScaleDown ==> stats.avg_ingestion_rate_at_most(1)
            && stats.num_open_shards > 1,
{
    let num_open_shards = stats.num_open_shards as u128;
    let scale_up = SCALE_UP_SHARDS_THRESHOLD_MIB_PER_SEC as u128;
    let scale_down = SCALE_DOWN_SHARDS_THRESHOLD_MIB_PER_SEC as u128;
    proof {
        assert(scale_up * num_open_shards == 4 * num_open_shards) by (nonlinear_arith)
            requires
                scale_up == 4,
        ;
        assert(scale_down * num_open_shards == num_open_shards) by (nonlinear_arith)
            requires
                scale_down == 1,
        ;
    }
    if stats.num_open_shards > 0 && stats.ingestion_rate_sum >= scale_up * num_open_shards {
        ScalingDecision::ScaleUp
    } else if stats.num_open_shards > 1 && stats.ingestion_rate_sum <= scale_down
        * num_open_shards {
        ScalingDecision::ScaleDown
    } else {
        ScalingDecision::NoChange
    }
}

/// A source is scaled up only where the average rate of its open shards is
/// four fifths, at least, of what a shard can take. It is scaled down only
/// where that average is a fifth of it at most and more than one shard is
/// open.
pub proof fn lemma_scaling_keeps_to_thresholds(stats: ShardStats)
    ensures
        scaling_decision(stats) == ScalingDecision::ScaleUp ==> stats.num_open_shards > 0 && 10
            * stats.ingestion_rate_sum >= 8 * MAX_SHARD_INGESTION_THROUGHPUT_MIB_PER_SEC
            * stats.num_open_shards,
        scaling_decision(stats) == ScalingDecision::ScaleDown ==> stats.num_open_shards > 1 && 10
            * stats.ingestion_rate_sum <= 2 * MAX_SHARD_INGESTION_THROUGHPUT_MIB_PER_SEC
            * stats.num_open_shards,
{
    let n = stats.num_open_shards as int;
    assert(SCALE_UP_SHARDS_THRESHOLD_MIB_PER_SEC == 4);
    assert(SCALE_DOWN_SHARDS_THRESHOLD_MIB_PER_SEC == 1);
    assert(8 * MAX_SHARD_INGESTION_THROUGHPUT_MIB_PER_SEC * n == 40 * n);
    assert(2 * MAX_SHARD_INGESTION_THROUGHPUT_MIB_PER_SEC * n == 10 * n);
}

/// What an ingester reports can be taken in twice: the second time changes
/// nothing, and gives the same account of the open shards.
pub proof fn lemma_update_shards_idempotent(
    model: ModelView,
    source_uid: SourceUidView,
    infos: Seq<ShardInfoView>,
)
    ensures
        model.with_infos(source_uid, infos).with_infos(source_uid, infos) == model.with_infos(
            source_uid,
            infos,
        ),
        model.with_infos(source_uid, infos).with_infos(source_uid, infos).stats(source_uid)
            == model.with_infos(source_uid, infos).stats(source_uid),
{
    let once = model.with_infos(source_uid, infos);
    let twice = once.with_infos(source_uid, infos);
    assert forall|i: int| 0 <= i < model.shard_table.len() implies twice.shard_table[i]
        == once.shard_table[i] by {
        if model.shard_table[i].source_uid == source_uid {
            assert forall|j: int|
                0 <= j < model.shard_table[i].shard_entries.len() implies twice.shard_table[i].shard_entries[j]
                == once.shard_table[i].shard_entries[j] by {
                lemma_with_infos_idempotent(model.shard_table[i].shard_entries[j], infos);
            }
            assert(twice.shard_table[i].shard_entries =~= once.shard_table[i].shard_entries);
        }
    }
    assert(twice.shard_table =~= once.shard_table);
}

/// The number of open shards that `leader_id` leads.
pub open spec fn num_open_led_by(entries: Seq<ShardEntryView>, leader_id: Seq<char>) -> nat {
    entries.filter(is_open_led_by(leader_id)).len()
}

/// Whether the shard `a`, whose leader leads `num_a` open shards, is to be
/// closed rather than `b`, whose leader leads `num_b`: the shard of the
/// leader that leads fewer; with as many, the one that takes in more; with
/// as much, the older one.
pub open spec fn closes_before(num_a: nat, a: ShardEntryView, num_b: nat, b: ShardEntryView) -> bool {
    num_a < num_b || (num_a == num_b && (a.ingestion_rate > b.ingestion_rate || (a.ingestion_rate
        == b.ingestion_rate && name_lt(a.shard.shard_id, b.shard.shard_id))))
}

/// Whether, among the shards `entries` of a source, `a` is to be closed
/// rather than `b`.
pub open spec fn preferred(entries: Seq<ShardEntryView>, a: ShardEntryView, b: ShardEntryView) -> bool {
    closes_before(
        num_open_led_by(entries, a.shard.leader_id),
        a,
        num_open_led_by(entries, b.shard.leader_id),
        b,
    )
}

/// Whether the shard at place `i` is the one to close: it is open, and to
/// be closed rather than any other open shard.
pub open spec fn is_scale_down_candidate(entries: Seq<ShardEntryView>, i: int) -> bool {
    &&& 0 <= i < entries.len()
    &&& entries[i].is_open()
    &&& forall|j: int|
        0 <= j < entries.len() && j != i && (#[trigger] entries[j]).is_open() ==> preferred(
            entries,
            entries[i],
            entries[j],
        )
}

/// If `a` closes before `b` and `b` before `c`, then `a` closes before `c`.
proof fn lemma_closes_before_transitive(
    num_a: nat,
    a: ShardEntryView,
    num_b: nat,
    b: ShardEntryView,
    num_c: nat,
    c: ShardEntryView,
)
    requires
        closes_before(num_a, a, num_b, b),
        closes_before(num_b, b, num_c, c),
    ensures
        closes_before(num_a, a, num_c, c),
{
    if name_lt(a.shard.shard_id, b.shard.shard_id) && name_lt(b.shard.shard_id, c.shard.shard_id) {
        lemma_name_lt_transitive(a.shard.shard_id, b.shard.shard_id, c.shard.shard_id);
    }
}

/// A source has one shard to close at most.
pub proof fn lemma_scale_down_candidate_unique(entries: Seq<ShardEntryView>, i: int, j: int)
    requires
        is_scale_down_candidate(entries, i),
        is_scale_down_candidate(entries, j),
    ensures
        i == j,
{
    if i != j {
        let a = entries[i];
        let b = entries[j];
        assert(preferred(entries, a, b));
        assert(preferred(entries, b, a));
        if name_lt(a.shard.shard_id, b.shard.shard_id) {
            lemma_name_lt_asymmetric(a.shard.shard_id, b.shard.shard_id);
        }
    }
}

fn count_open_led_by(entries: &Vec<ShardEntry>, leader_id: &str) -> (count: usize)
    ensures
        count == num_open_led_by(views(entries@), leader_id@),
{
    let ghost all = views(entries@);
    let ghost pred = is_open_led_by(leader_id@);
    let mut count: usize = 0;
    let mut i: usize = 0;
    proof {
        assert(all.take(0) =~= Seq::empty());
        Seq::<ShardEntryView>::empty().lemma_filter_len(pred);
    }
    while i < entries.len()
        invariant
            i <= entries.len(),
            all == views(entries@),
            pred == is_open_led_by(leader_id@),
            count == all.take(i as int).filter(pred).len(),
            count <= i,
        decreases entries.len() - i,
    {
        proof {
            assert(all.take(i + 1) =~= all.take(i as int).push(all[i as int]));
            all.take(i as int).lemma_filter_push(all[i as int], pred);
        }
        if entries[i].is_open() && same_name(entries[i].shard.leader_id.as_str(), leader_id) {
            count += 1;
        }
        i += 1;
    }
    proof {
        assert(all.take(entries.len() as int) =~= all);
    }
    count
}

fn closes_first(num_a: usize, a: &ShardEntry, num_b: usize, b: &ShardEntry) -> (first: bool)
    ensures
        first == closes_before(num_a as nat, a@, num_b as nat, b@),
{
    if num_a != num_b {
        return num_a < num_b;
    }
    if a.ingestion_rate != b.ingestion_rate {
        return a.ingestion_rate > b.ingestion_rate;
    }
    matches!(
        compare_names(a.shard.shard_id.as_str(), b.shard.shard_id.as_str()),
        NameOrder::Before
    )
}

/// Finds the shard of the source `source_uid` to close when the source is
/// scaled down: an open shard of the leader that leads the fewest open
/// shards of the source, the one that takes in most, and of two that take in
/// as much the older one.
pub fn find_scale_down_candidate(source_uid: &SourceUid, model: &ControlPlaneModel) -> (candidate:
    Option<(NodeId, ShardId)>)
    requires
        model@.wf(),
    ensures
        candidate is Some <==> model@.has_source(source_uid@) && exists|i: int|
            0 <= i < model@.source(source_uid@).shard_entries.len() && (#[trigger] model@.source(
                source_uid@,
            ).shard_entries[i]).is_open(),
        candidate matches Some((leader_id, shard_id)) ==> exists|i: int|
            is_scale_down_candidate(model@.source(source_uid@).shard_entries, i) && leader_id@
                == (#[trigger] model@.source(source_uid@).shard_entries[i]).shard.leader_id
                && shard_id@ == model@.source(source_uid@).shard_entries[i].shard.shard_id,
{
    let table = match model.get_shards_for_source(source_uid) {
        Some(table) => table,
        None => {
            return None;
        },
    };
    let entries = table.shard_entries();
    let ghost all = views(entries@);
    let mut best: Option<usize> = None;
    let mut best_num: usize = 0;
    let mut i: usize = 0;
    while i < entries.len()
        invariant
            i <= entries.len(),
            all == views(entries@),
            ids_ascending(all),
            best is None ==> forall|j: int| 0 <= j < i ==> !(#[trigger] all[j]).is_open(),
            best matches Some(b) ==> {
                &&& b < i
                &&& all[b as int].is_open()
                &&& best_num == num_open_led_by(all, all[b as int].shard.leader_id)
                &&& forall|j: int|
                    0 <= j < i && j != b && (#[trigger] all[j]).is_open() ==> preferred(
                        all,
                        all[b as int],
                        all[j],
                    )
            },
        decreases entries.len() - i,
    {
        if entries[i].is_open() {
            let num = count_open_led_by(entries, entries[i].shard.leader_id.as_str());
            match best {
                None => {
                    best = Some(i);
                    best_num = num;
                },
                Some(b) => {
                    if closes_first(num, &entries[i], best_num, &entries[b]) {
                        proof {
                            assert forall|j: int|
                                0 <= j < i + 1 && j != i && (#[trigger] all[j]).is_open() implies preferred(
                                all,
                                all[i as int],
                                all[j],
                            ) by {
                                if j != b {
                                    lemma_closes_before_transitive(
                                        num_open_led_by(all, all[i as int].shard.leader_id),
                                        all[i as int],
                                        num_open_led_by(all, all[b as int].shard.leader_id),
                                        all[b as int],
                                        num_open_led_by(all, all[j].shard.leader_id),
                                        all[j],
                                    );
                                }
                            }
                        }
                        best = Some(i);
                        best_num = num;
                    } else {
                        proof {
                            let a = all[b as int];
                            let c = all[i as int];
                            assert(name_lt(a.shard.shard_id, c.shard.shard_id));
                            lemma_name_lt_asymmetric(a.shard.shard_id, c.shard.shard_id);
                        }
                    }
                },
            }
        }
        i += 1;
    }
    match best {
        Some(b) => {
            proof {
                assert(is_scale_down_candidate(all, b as int));
            }
            Some((entries[b].shard.leader_id.clone(), entries[b].shard.shard_id.clone()))
        },
        None => None,
    }
}

/// What is to be done next to scale a source.
#[derive(Debug, PartialEq, Eq)]
pub enum ScalingStep {
    /// Nothing.
    Nothing,
    /// The metastore is to open this shard.
    OpenShard(OpenShardSubrequest),
    /// The leader is to close this shard.
    CloseShard(NodeId, ShardPKey),
}

/// The place of the shard to close among the shards of a source.
pub open spec fn scale_down_candidate(entries: Seq<ShardEntryView>) -> int {
    choose|i: int| is_scale_down_candidate(entries, i)
}

/// Whether `entries` holds an open shard.
pub open spec fn has_open_shard(entries: Seq<ShardEntryView>) -> bool {
    exists|i: int| 0 <= i < entries.len() && (#[trigger] entries[i]).is_open()
}

/// Whether the source `source_uid` holds a permit for `mode`.
pub open spec fn holds_permit(model: ModelView, source_uid: SourceUidView, mode: ScalingMode) -> bool {
    model.has_source(source_uid) && model.source(source_uid).permits(mode) >= 1
}

/// The model in which the source `source_uid` has given a permit for
/// `mode`.
pub open spec fn with_permit_taken(model: ModelView, source_uid: SourceUidView, mode: ScalingMode) -> ModelView {
    model.with_permits(source_uid, mode, (model.source(source_uid).permits(mode) - 1) as u64)
}

/// The model in which the source `source_uid` has got a permit for `mode`
/// back, unless it holds all that it can hold.
pub open spec fn with_permit_back(model: ModelView, source_uid: SourceUidView, mode: ScalingMode) -> ModelView {
    model.with_permits(
        source_uid,
        mode,
        if model.source(source_uid).permits(mode) + 1 <= permits_limit(mode) {
            (model.source(source_uid).permits(mode) + 1) as u64
        } else {
            permits_limit(mode)
        },
    )
}

/// The model after it has taken in the shards `initialized` of the source
/// `source_uid`, one after the other.
pub open spec fn with_new_shards(model: ModelView, initialized: Seq<SubrequestShardView>) -> ModelView
    decreases initialized.len(),
{
    if initialized.len() == 0 {
        model
    } else {
        let shard = initialized.last().shard;
        with_new_shards(model, initialized.drop_last()).with_shards(shard.source_uid, seq![shard])
    }
}

/// A source gets its permit back.
proof fn lemma_permit_back(model: ModelView, source_uid: SourceUidView, mode: ScalingMode)
    requires
        model.wf(),
        holds_permit(model, source_uid, mode),
    ensures
        with_permit_back(with_permit_taken(model, source_uid, mode), source_uid, mode) == model,
{
    let permits = model.source(source_uid).permits(mode);
    let taken = with_permit_taken(model, source_uid, mode);
    lemma_with_permits_source(model, source_uid, mode, (permits - 1) as u64);
    lemma_with_permits_again(model, source_uid, mode, (permits - 1) as u64, permits);
    let i = choose|i: int|
        0 <= i < model.shard_table.len() && (#[trigger] model.shard_table[i]).source_uid
            == source_uid;
    assert(model.shard_table[i].wf());
}

impl IngestController {
    /// Starts to add a shard to the source `source_uid`, if the source holds
    /// a permit to scale up and a shard can be placed. Says which shard the
    /// metastore is to open. The permit is taken; it comes back if the shard
    /// is not opened and initialized.
    pub fn try_scale_up_shards(&self, source_uid: &SourceUid, model: &mut ControlPlaneModel) -> (subrequest:
        Option<OpenShardSubrequest>)
        requires
            self.wf(),
            old(model)@.wf(),
        ensures
            final(model)@.wf(),
            ({
                let placements = allocation(
                    self.ingesters(),
                    Set::empty(),
                    old(model)@,
                    1,
                    self.replication_factor() as nat,
                );
                &&& subrequest is Some <==> holds_permit(old(model)@, source_uid@, ScalingMode::Up)
                    && placements is Some
                &&& subrequest matches Some(subrequest) ==> subrequest@ == stamped(
                    PendingShardView { subrequest_id: 0, source_uid: source_uid@ },
                    placements->0[0],
                    subrequest@.shard_id,
                ) && is_ulid_text(subrequest@.shard_id) && final(model)@ == with_permit_taken(
                    old(model)@,
                    source_uid@,
                    ScalingMode::Up,
                )
                &&& subrequest is None ==> final(model)@ == old(model)@
            }),
    {
        match model.acquire_scaling_permits(source_uid, ScalingMode::Up, 1) {
            Some(true) => {},
            _ => {
                return None;
            },
        }
        proof {
            lemma_with_permits_keeps_shards(
                old(model)@,
                source_uid@,
                ScalingMode::Up,
                (old(model)@.source(source_uid@).permits(ScalingMode::Up) - 1) as u64,
            );
        }
        let unavailable_leaders = node_set_new();
        let placements = match self.allocate_shards(1, &unavailable_leaders, model) {
            Some(placements) => placements,
            None => {
                model.release_scaling_permits(source_uid, ScalingMode::Up, 1);
                proof {
                    lemma_permit_back(old(model)@, source_uid@, ScalingMode::Up);
                }
                return None;
            },
        };
        Some(
            OpenShardSubrequest {
                subrequest_id: 0,
                source_uid: source_uid.clone(),
                shard_id: mint_shard_id(),
                leader_id: placements[0].0.clone(),
                follower_id: clone_name_opt(&placements[0].1),
            },
        )
    }

    /// Gives the permit to scale up back to the source `source_uid`: the
    /// metastore has not opened its new shard.
    pub fn abort_scale_up(&self, source_uid: &SourceUid, model: &mut ControlPlaneModel)
        requires
            old(model)@.wf(),
        ensures
            final(model)@ == with_permit_back(old(model)@, source_uid@, ScalingMode::Up),
            final(model)@.wf(),
    {
        model.release_scaling_permits(source_uid, ScalingMode::Up, 1);
    }

    /// Takes into the model the new shards of the source `source_uid` that
    /// their leaders have initialized. Where there is none, the source gets
    /// its permit to scale up back.
    pub fn finish_scale_up(
        &self,
        source_uid: &SourceUid,
        initialized: &Vec<InitShardSuccess>,
        model: &mut ControlPlaneModel,
    )
        requires
            old(model)@.wf(),
        ensures
            final(model)@ == if initialized.len() == 0 {
                with_permit_back(old(model)@, source_uid@, ScalingMode::Up)
            } else {
                with_new_shards(old(model)@, views(initialized@))
            },
            final(model)@.wf(),
    {
        if initialized.len() == 0 {
            model.release_scaling_permits(source_uid, ScalingMode::Up, 1);
            return ;
        }
        let ghost shards = views(initialized@);
        let mut i: usize = 0;
        proof {
            assert(shards.take(0) =~= Seq::empty());
        }
        while i < initialized.len()
            invariant
                i <= initialized.len(),
                shards == views(initialized@),
                model@.wf(),
                model@ == with_new_shards(old(model)@, shards.take(i as int)),
            decreases initialized.len() - i,
        {
            proof {
                assert(shards.take(i + 1).drop_last() =~= shards.take(i as int));
                assert(shards.take(i + 1).last() == initialized[i as int]@);
            }
            let shard = initialized[i].shard.clone();
            let shard_source_uid = shard.source_uid.clone();
            let mut opened: Vec<Shard> = Vec::new();
            opened.push(shard);
            proof {
                assert(views(opened@) =~= seq![initialized[i as int]@.shard]);
            }
            model.insert_shards(&shard_source_uid, opened);
            i += 1;
        }
        proof {
            assert(shards.take(initialized.len() as int) =~= shards);
        }
    }

    /// Starts to take a shard away from the source `source_uid`, if the
    /// source holds a permit to scale down, has an open shard, and the
    /// leader of the shard to close is alive. Says which leader is to close
    /// which shard. The permit is taken; it comes back if the shard is not
    /// closed.
    pub fn try_scale_down_shards(&self, source_uid: &SourceUid, model: &mut ControlPlaneModel) -> (request:
        Option<(NodeId, ShardPKey)>)
        requires
            self.wf(),
            old(model)@.wf(),
        ensures
            final(model)@.wf(),
            ({
                let entries = old(model)@.source(source_uid@).shard_entries;
                let candidate = entries[scale_down_candidate(entries)];
                &&& request is Some <==> holds_permit(old(model)@, source_uid@, ScalingMode::Down)
                    && has_open_shard(entries) && self.ingesters().contains(
                    candidate.shard.leader_id,
                )
                &&& request matches Some((leader_id, shard_pkey)) ==> leader_id@
                    == candidate.shard.leader_id && shard_pkey@ == (ShardPKeyView {
                    source_uid: source_uid@,
                    shard_id: candidate.shard.shard_id,
                }) && final(model)@ == with_permit_taken(
                    old(model)@,
                    source_uid@,
                    ScalingMode::Down,
                )
                &&& request is None ==> final(model)@ == old(model)@
            }),
    {
        match model.acquire_scaling_permits(source_uid, ScalingMode::Down, 1) {
            Some(true) => {},
            _ => {
                return None;
            },
        }
        let ghost entries = old(model)@.source(source_uid@).shard_entries;
        proof {
            lemma_with_permits_source(
                old(model)@,
                source_uid@,
                ScalingMode::Down,
                (old(model)@.source(source_uid@).permits(ScalingMode::Down) - 1) as u64,
            );
            assert(model@.source(source_uid@).shard_entries == entries);
        }
        let (leader_id, shard_id) = match find_scale_down_candidate(source_uid, model) {
            Some(candidate) => candidate,
            None => {
                model.release_scaling_permits(source_uid, ScalingMode::Down, 1);
                proof {
                    lemma_permit_back(old(model)@, source_uid@, ScalingMode::Down);
                }
                return None;
            },
        };
        proof {
            let i = choose|i: int|
                is_scale_down_candidate(entries, i) && leader_id@ == (
                #[trigger] entries[i]).shard.leader_id && shard_id@ == entries[i].shard.shard_id;
            lemma_scale_down_candidate_unique(entries, i, scale_down_candidate(entries));
        }
        if !self.ingester_pool().contains_key(leader_id.as_str()) {
            model.release_scaling_permits(source_uid, ScalingMode::Down, 1);
            proof {
                lemma_permit_back(old(model)@, source_uid@, ScalingMode::Down);
            }
            return None;
        }
        Some((leader_id, ShardPKey { source_uid: source_uid.clone(), shard_id }))
    }

    /// Gives the permit to scale down back to the source `source_uid`: its
    /// shard was not closed.
    pub fn abort_scale_down(&self, source_uid: &SourceUid, model: &mut ControlPlaneModel)
        requires
            old(model)@.wf(),
        ensures
            final(model)@ == with_permit_back(old(model)@, source_uid@, ScalingMode::Down),
            final(model)@.wf(),
    {
        model.release_scaling_permits(source_uid, ScalingMode::Down, 1);
    }

    /// Marks as closed in the model the shard that its leader has closed to
    /// scale its source down.
    pub fn finish_scale_down(&self, shard_pkey: &ShardPKey, model: &mut ControlPlaneModel)
        requires
            old(model)@.wf(),
        ensures
            final(model)@ == old(model)@.with_closed(shard_pkey@.source_uid, seq![shard_pkey@.shard_id]),
            final(model)@.wf(),
    {
        let mut shard_ids: Vec<ShardId> = Vec::new();
        shard_ids.push(shard_pkey.shard_id.clone());
        proof {
            assert(views(shard_ids@) =~= seq![shard_pkey@.shard_id]);
        }
        model.close_shards(&shard_pkey.source_uid, &shard_ids);
    }

    /// Takes in what an ingester reports of its shards of one source, and
    /// starts to scale the source up or down where its load calls for it.
    pub fn handle_local_shards_update(
        &self,
        local_shards_update: &LocalShardsUpdate,
        model: &mut ControlPlaneModel,
    ) -> (step: ScalingStep)
        requires
            self.wf(),
            old(model)@.wf(),
        ensures
            final(model)@.wf(),
            ({
                let source_uid = local_shards_update@.source_uid;
                let updated = old(model)@.with_infos(source_uid, local_shards_update@.shard_infos);
                let decision = scaling_decision(updated.stats(source_uid));
                let placements = allocation(
                    self.ingesters(),
                    Set::empty(),
                    updated,
                    1,
                    self.replication_factor() as nat,
                );
                let entries = updated.source(source_uid).shard_entries;
                let candidate = entries[scale_down_candidate(entries)];
                &&& step is OpenShard <==> decision == ScalingDecision::ScaleUp && holds_permit(
                    updated,
                    source_uid,
                    ScalingMode::Up,
                ) && placements is Some
                &&& step matches ScalingStep::OpenShard(subrequest) ==> subrequest@ == stamped(
                    PendingShardView { subrequest_id: 0, source_uid },
                    placements->0[0],
                    subrequest@.shard_id,
                ) && is_ulid_text(subrequest@.shard_id) && final(model)@ == with_permit_taken(
                    updated,
                    source_uid,
                    ScalingMode::Up,
                )
                &&& step is CloseShard <==> decision == ScalingDecision::ScaleDown && holds_permit(
                    updated,
                    source_uid,
                    ScalingMode::Down,
                ) && has_open_shard(entries) && self.ingesters().contains(candidate.shard.leader_id)
                &&& step matches ScalingStep::CloseShard(leader_id, shard_pkey) ==> leader_id@
                    == candidate.shard.leader_id && shard_pkey@ == (ShardPKeyView {
                    source_uid,
                    shard_id: candidate.shard.shard_id,
                }) && final(model)@ == with_permit_taken(updated, source_uid, ScalingMode::Down)
                &&& step is Nothing ==> final(model)@ == updated
            }),
    {
        let shard_stats = model.update_shards(
            &local_shards_update.source_uid,
            &local_shards_update.shard_infos,
        );
        match decide_scaling(shard_stats) {
            ScalingDecision::ScaleUp => {
                match self.try_scale_up_shards(&local_shards_update.source_uid, model) {
                    Some(subrequest) => ScalingStep::OpenShard(subrequest),
                    None => ScalingStep::Nothing,
                }
            },
            ScalingDecision::ScaleDown => {
                match self.try_scale_down_shards(&local_shards_update.source_uid, model) {
                    Some((leader_id, shard_pkey)) => ScalingStep::CloseShard(leader_id, shard_pkey),
                    None => ScalingStep::Nothing,
                }
            },
            ScalingDecision::NoChange => ScalingStep::Nothing,
        }
    }
}

} // verus!
