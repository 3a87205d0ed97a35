//! Moving shards from ingesters that lead too many to the others.
//!
//! A shard is moved by opening a new one elsewhere and closing the old one
//! afterwards. One operation runs at a time: it takes a lock and gives it
//! back when the old shards are closed, or as soon as it finds nothing to
//! do.

use crate::allocator::{
    allocation, ascending_names, is_led_by, is_open_led_by, is_replicated, leader_loads,
    lemma_ascending_len, lemma_new_shards_of_leader, lemma_placement_members, lists_ascending,
    node_ids_of, pair_at, placement, placement_cap, placement_views, PlacementView,
};
use crate::filters::{lemma_filter_all, lemma_filter_none, lemma_filter_same, lemma_filter_twice};
use crate::controller::IngestController;
use crate::groups::{
    distinct_in_order, group_by_leader, leader_groups, lemma_distinct_in_order,
    lemma_places_in_range, places_of, LeaderGroupView,
};
use crate::initializer::items_at;
use crate::messages::{
    InitShardFailure, InitShardFailureView, InitShardSuccess, OpenShardSubrequest,
    OpenShardSubrequestView, ShardPKey, ShardPKeyView, SubrequestShardView,
};
use crate::minting::{is_ulid_text, mint_shard_id};
use crate::model::{ControlPlaneModel, ModelView};
use crate::names::same_name;
use crate::node_set::node_set_new;
use crate::shard_table::{
    is_open_entry, is_open_outside, ScalingMode, ShardEntry, ShardEntryView,
};
use crate::types::{clone_name_opt, lemma_views_push, views, NodeId, Shard, ShardId};
use vstd::prelude::*;

verus! {

/// Proof that an operation holds the lock on rebalancing. It travels with
/// the operation and is handed back at its end.
#[derive(Debug)]
pub struct RebalanceGuard {
    held: bool,
}

/// An old shard to close once the shard that replaces it is open.
#[derive(Debug, PartialEq, Eq)]
pub struct PendingClose {
    /// The shard that replaces the old one.
    pub new_shard_id: ShardId,
    /// The leader of the old shard.
    pub leader_id: NodeId,
    /// The old shard.
    pub shard_pkey: ShardPKey,
}

/// What a value of `PendingClose` stands for.
pub struct PendingCloseView {
    pub new_shard_id: Seq<char>,
    pub leader_id: Seq<char>,
    pub shard_pkey: ShardPKeyView,
}

impl View for PendingClose {
    type V = PendingCloseView;

    open spec fn view(&self) -> PendingCloseView {
        PendingCloseView {
            new_shard_id: self.new_shard_id@,
            leader_id: self.leader_id@,
            shard_pkey: self.shard_pkey@,
        }
    }
}

impl Clone for PendingClose {
    fn clone(&self) -> (copy: Self)
        ensures
            copy@ == self@,
    {
        PendingClose {
            new_shard_id: self.new_shard_id.clone(),
            leader_id: self.leader_id.clone(),
            shard_pkey: self.shard_pkey.clone(),
        }
    }
}

/// The shards to open in place of the shards to move, and the shards to
/// close afterwards.
#[derive(Debug)]
pub struct RebalancePlan {
    pub open_shards_subrequests: Vec<OpenShardSubrequest>,
    pub shards_to_close: Vec<PendingClose>,
    pub rebalance_guard: RebalanceGuard,
}

/// The shards that one leader is asked to close.
#[derive(Debug, PartialEq, Eq)]
pub struct CloseShardsRequest {
    pub leader_id: NodeId,
    pub shard_pkeys: Vec<ShardPKey>,
}

/// What a value of `CloseShardsRequest` stands for.
pub struct CloseShardsRequestView {
    pub leader_id: Seq<char>,
    pub shard_pkeys: Seq<ShardPKeyView>,
}

impl View for CloseShardsRequest {
    type V = CloseShardsRequestView;

    open spec fn view(&self) -> CloseShardsRequestView {
        CloseShardsRequestView { leader_id: self.leader_id@, shard_pkeys: views(self.shard_pkeys@) }
    }
}

/// How a request to close shards ended.
#[derive(Debug, PartialEq, Eq)]
pub enum CloseShardsOutcome {
    /// The leader has closed these shards.
    Completed(Vec<ShardPKey>),
    /// The request failed.
    Failed,
    /// No answer came in time.
    TimedOut,
}

/// What a value of `CloseShardsOutcome` stands for.
pub enum CloseShardsOutcomeView {
    Completed(Seq<ShardPKeyView>),
    Failed,
    TimedOut,
}

impl View for CloseShardsOutcome {
    type V = CloseShardsOutcomeView;

    open spec fn view(&self) -> CloseShardsOutcomeView {
        match self {
            CloseShardsOutcome::Completed(successes) => CloseShardsOutcomeView::Completed(
                views(successes@),
            ),
            CloseShardsOutcome::Failed => CloseShardsOutcomeView::Failed,
            CloseShardsOutcome::TimedOut => CloseShardsOutcomeView::TimedOut,
        }
    }
}

/// The old shards that were closed, with the lock of the operation that
/// moved them.
#[derive(Debug)]
pub struct RebalanceShardsCallback {
    pub closed_shards: Vec<ShardPKey>,
    pub rebalance_guard: RebalanceGuard,
}

/// How far above its share a leader may be before it gives shards away, in
/// tenths of the share: a fifth more.
pub const REBALANCE_HYSTERESIS_TENTHS: u128 = 12;

/// The number of open shards above which a leader gives shards away: a
/// fifth more than the share of one ingester in the open shards, and one
/// more than that share at least.
pub open spec fn rebalance_threshold(num_open_shards: nat, num_ingesters: nat) -> int {
    let target = num_open_shards as int / num_ingesters as int;
    if target * REBALANCE_HYSTERESIS_TENTHS / 10 > target + 1 {
        target * REBALANCE_HYSTERESIS_TENTHS / 10
    } else {
        target + 1
    }
}

/// The leaders of shards.
pub open spec fn entry_leaders(entries: Seq<ShardEntryView>) -> Seq<Seq<char>> {
    Seq::new(entries.len(), |i: int| entries[i].shard.leader_id)
}

/// What a leader of the shards `led` gives away: those from the place
/// `threshold` on.
pub open spec fn excess<T>(led: Seq<T>, threshold: int) -> Seq<T> {
    if 0 <= threshold < led.len() {
        led.skip(threshold)
    } else {
        Seq::empty()
    }
}

/// What the leaders of `groups` give away of the open shards `open_shards`,
/// leader after leader.
pub open spec fn excess_of_groups(
    open_shards: Seq<ShardEntryView>,
    groups: Seq<LeaderGroupView>,
    threshold: int,
) -> Seq<ShardEntryView>
    decreases groups.len(),
{
    if groups.len() == 0 {
        Seq::empty()
    } else {
        excess_of_groups(open_shards, groups.drop_last(), threshold) + excess(
            items_at(open_shards, groups.last().places),
            threshold,
        )
    }
}

/// The shards to move, given the number of live ingesters: the open shards
/// are grouped by leader, in the order in which the leaders come first, and
/// each leader gives away what it leads above the threshold.
pub open spec fn shards_to_move(model: ModelView, num_ingesters: nat) -> Seq<ShardEntryView> {
    let open_shards = model.all_shards().filter(is_open_entry());
    excess_of_groups(
        open_shards,
        leader_groups(entry_leaders(open_shards)),
        rebalance_threshold(open_shards.len(), num_ingesters),
    )
}

/// The request to open the shard `shard_id` at `placement` in place of
/// `old`, and the note to close `old` afterwards.
pub open spec fn replacement(
    place: int,
    old: ShardEntryView,
    placement: PlacementView,
    shard_id: Seq<char>,
) -> (OpenShardSubrequestView, PendingCloseView) {
    (
        OpenShardSubrequestView {
            subrequest_id: place as u32,
            source_uid: old.shard.source_uid,
            shard_id,
            leader_id: placement.0,
            follower_id: placement.1,
        },
        PendingCloseView {
            new_shard_id: shard_id,
            leader_id: old.shard.leader_id,
            shard_pkey: ShardPKeyView {
                source_uid: old.shard.source_uid,
                shard_id: old.shard.shard_id,
            },
        },
    )
}

/// The model after it has taken in, one after the other, the new shards
/// that their leaders have initialized. The source of each loses its permits
/// to scale down, so that the new shard is not closed at once.
pub open spec fn with_replacements(model: ModelView, initialized: Seq<SubrequestShardView>) -> ModelView
    decreases initialized.len(),
{
    if initialized.len() == 0 {
        model
    } else {
        let shard = initialized.last().shard;
        with_replacements(model, initialized.drop_last()).with_shards(
            shard.source_uid,
            seq![shard],
        ).with_permits(shard.source_uid, ScalingMode::Down, 0)
    }
}

/// The ids of the shards that were not initialized.
pub open spec fn failed_shard_ids(failures: Seq<InitShardFailureView>) -> Seq<Seq<char>> {
    Seq::new(failures.len(), |i: int| failures[i].shard_id)
}

/// The old shards whose replacement is not among `failed`.
pub open spec fn is_replaced(failed: Seq<Seq<char>>) -> spec_fn(PendingCloseView) -> bool {
    |pending: PendingCloseView| !failed.contains(pending.new_shard_id)
}

/// The leaders of the shards to close.
pub open spec fn close_leaders(shards_to_close: Seq<PendingCloseView>) -> Seq<Seq<char>> {
    Seq::new(shards_to_close.len(), |i: int| shards_to_close[i].leader_id)
}

/// The shards to close.
pub open spec fn close_pkeys(shards_to_close: Seq<PendingCloseView>) -> Seq<ShardPKeyView> {
    Seq::new(shards_to_close.len(), |i: int| shards_to_close[i].shard_pkey)
}

/// The requests to close the shards `pkeys`, one for each leader of
/// `groups` that is alive. The shards of a leader that is not are left.
pub open spec fn close_requests(
    pkeys: Seq<ShardPKeyView>,
    groups: Seq<LeaderGroupView>,
    pool: Set<Seq<char>>,
) -> Seq<CloseShardsRequestView>
    decreases groups.len(),
{
    if groups.len() == 0 {
        Seq::empty()
    } else {
        let before = close_requests(pkeys, groups.drop_last(), pool);
        let group = groups.last();
        if pool.contains(group.leader_id) {
            before.push(
                CloseShardsRequestView {
                    leader_id: group.leader_id,
                    shard_pkeys: items_at(pkeys, group.places),
                },
            )
        } else {
            before
        }
    }
}

/// The shards that the leaders have closed: those of the requests that were
/// answered.
pub open spec fn closed_shards(outcomes: Seq<CloseShardsOutcomeView>) -> Seq<ShardPKeyView>
    decreases outcomes.len(),
{
    if outcomes.len() == 0 {
        Seq::empty()
    } else {
        let before = closed_shards(outcomes.drop_last());
        match outcomes.last() {
            CloseShardsOutcomeView::Completed(successes) => before + successes,
            _ => before,
        }
    }
}

/// The model once the shards `pkeys` are known to be closed.
pub open spec fn with_closed_pkeys(model: ModelView, pkeys: Seq<ShardPKeyView>) -> ModelView
    decreases pkeys.len(),
{
    if pkeys.len() == 0 {
        model
    } else {
        with_closed_pkeys(model, pkeys.drop_last()).with_closed(
            pkeys.last().source_uid,
            seq![pkeys.last().shard_id],
        )
    }
}

/// The threshold for `num_open_shards` open shards on `num_ingesters`
/// ingesters.
fn compute_threshold(num_open_shards: usize, num_ingesters: usize) -> (threshold: u128)
    requires
        num_ingesters > 0,
    ensures
        threshold == rebalance_threshold(num_open_shards as nat, num_ingesters as nat),
{
    let target: u128 = (num_open_shards / num_ingesters) as u128;
    let raised: u128 = target * REBALANCE_HYSTERESIS_TENTHS / 10;
    if raised > target + 1 {
        raised
    } else {
        target + 1
    }
}

impl IngestController {
    /// Starts to move shards away from the leaders that lead too many,
    /// unless an operation is under way. Says which shards to open; where
    /// there is nothing to move, or no place for a new shard, nothing is
    /// started.
    pub fn rebalance_shards(&mut self, model: &ControlPlaneModel) -> (plan: Option<RebalancePlan>)
        requires
            old(self).wf(),
            model@.wf(),
        ensures
            final(self).same_setup(old(self)),
            old(self).rebalancing() ==> plan is None && final(self).rebalancing() && final(self).num_rebalance_shards_ops() == old(self).num_rebalance_shards_ops(),
            !old(self).rebalancing() ==> final(self).num_rebalance_shards_ops() == if old(self).num_rebalance_shards_ops() < usize::MAX {
                (old(self).num_rebalance_shards_ops() + 1) as usize
            } else {
                usize::MAX
            },
            !old(self).rebalancing() ==> ({
                let moves = shards_to_move(model@, old(self).ingesters().len());
                let placements = allocation(
                    old(self).ingesters(),
                    Set::empty(),
                    model@,
                    moves.len(),
                    old(self).replication_factor() as nat,
                );
                &&& plan is Some <==> old(self).ingesters().len() > 0 && moves.len() > 0
                    && placements is Some
                &&& final(self).rebalancing() == plan is Some
                &&& plan matches Some(plan) ==> {
                    &&& plan.open_shards_subrequests.len() == moves.len()
                    &&& plan.shards_to_close.len() == moves.len()
                    &&& forall|i: int|
                        0 <= i < moves.len() ==> (
                            (#[trigger] plan.open_shards_subrequests[i])@,
                            plan.shards_to_close[i]@,
                        ) == replacement(
                            i,
                            moves[i],
                            placements->0[i],
                            plan.open_shards_subrequests[i]@.shard_id,
                        ) && is_ulid_text(plan.open_shards_subrequests[i]@.shard_id)
                }
            }),
    {
        if !self.try_lock_rebalance() {
            return None;
        }
        let num_ingesters = self.ingester_pool().len();
        if num_ingesters == 0 {
            self.unlock_rebalance();
            return None;
        }
        let all_shards = model.all_shards();
        let ghost all = views(all_shards@);
        let mut open_shards: Vec<&ShardEntry> = Vec::new();
        let mut leader_ids: Vec<NodeId> = Vec::new();
        let mut i: usize = 0;
        proof {
            assert(all.take(0) =~= Seq::empty());
            Seq::<ShardEntryView>::empty().lemma_filter_len(is_open_entry());
            assert(views(open_shards@) =~= all.take(0).filter(is_open_entry()));
        }
        while i < all_shards.len()
            invariant
                i <= all_shards.len(),
                all == views(all_shards@),
                views(open_shards@) == all.take(i as int).filter(is_open_entry()),
                leader_ids.len() == open_shards.len(),
                forall|k: int| 0 <= k < leader_ids.len() ==> (#[trigger] leader_ids[k])@ == open_shards[k]@.shard.leader_id,
            decreases all_shards.len() - i,
        {
            proof {
                assert(all.take(i + 1) =~= all.take(i as int).push(all[i as int]));
                all.take(i as int).lemma_filter_push(all[i as int], is_open_entry());
            }
            if all_shards[i].is_open() {
                proof {
                    lemma_views_push(open_shards@, all_shards[i as int]);
                }
                open_shards.push(all_shards[i]);
                leader_ids.push(all_shards[i].shard.leader_id.clone());
            }
            i += 1;
        }
        let ghost open = views(open_shards@);
        proof {
            assert(all.take(all_shards.len() as int) =~= all);
            assert(views(leader_ids@) =~= entry_leaders(open));
        }
        let threshold = compute_threshold(open_shards.len(), num_ingesters);
        let groups = group_by_leader(&leader_ids);
        let ghost all_groups = views(groups@);
        let mut moves: Vec<&ShardEntry> = Vec::new();
        let mut g: usize = 0;
        proof {
            assert(all_groups.take(0) =~= Seq::empty());
            assert(views(moves@) =~= Seq::empty());
        }
        while g < groups.len()
            invariant
                g <= groups.len(),
                open == views(open_shards@),
                all_groups == views(groups@),
                leader_ids.len() == open_shards.len(),
                forall|h: int, k: int|
                    0 <= h < groups.len() && 0 <= k < groups[h].places.len() ==> (
                    #[trigger] groups[h].places[k]) < leader_ids.len(),
                views(moves@) == excess_of_groups(open, all_groups.take(g as int), threshold as int),
            decreases groups.len() - g,
        {
            let places = &groups[g].places;
            let ghost led = items_at(open, places@);
            let ghost before = views(moves@);
            proof {
                assert(all_groups.take(g + 1).drop_last() =~= all_groups.take(g as int));
                assert(all_groups.take(g + 1).last() == groups[g as int]@);
            }
            if (places.len() as u128) > threshold {
                let mut k: usize = threshold as usize;
                proof {
                    assert(led.skip(k as int).take(0) =~= Seq::empty());
                    assert(before + Seq::<ShardEntryView>::empty() =~= before);
                }
                while k < places.len()
                    invariant
                        threshold <= k <= places.len(),
                        open == views(open_shards@),
                        led == items_at(open, places@),
                        forall|k: int| 0 <= k < places.len() ==> (#[trigger] places[k]) < open_shards.len(),
                        views(moves@) == before + led.skip(threshold as int).take(k - threshold),
                    decreases places.len() - k,
                {
                    proof {
                        lemma_views_push(moves@, open_shards[places[k as int] as int]);
                        let given = led.skip(threshold as int);
                        assert(given.take(k + 1 - threshold) =~= given.take(k - threshold).push(
                            led[k as int],
                        ));
                        assert(before + given.take(k + 1 - threshold) =~= (before + given.take(
                            k - threshold,
                        )).push(led[k as int]));
                    }
                    moves.push(open_shards[places[k]]);
                    k += 1;
                }
                proof {
                    let given = led.skip(threshold as int);
                    assert(given.take(places.len() - threshold) =~= given);
                }
            } else {
                proof {
                    assert(before + Seq::<ShardEntryView>::empty() =~= before);
                }
            }
            g += 1;
        }
        proof {
            assert(all_groups.take(groups.len() as int) =~= all_groups);
        }
        if moves.len() == 0 {
            self.unlock_rebalance();
            return None;
        }
        let unavailable_leaders = node_set_new();
        let placements = match self.allocate_shards(moves.len(), &unavailable_leaders, model) {
            Some(placements) => placements,
            None => {
                self.unlock_rebalance();
                return None;
            },
        };
        let mut open_shards_subrequests: Vec<OpenShardSubrequest> = Vec::new();
        let mut shards_to_close: Vec<PendingClose> = Vec::new();
        let mut i: usize = 0;
        while i < moves.len()
            invariant
                i <= moves.len(),
                placements.len() == moves.len(),
                open_shards_subrequests.len() == i,
                shards_to_close.len() == i,
                forall|j: int|
                    0 <= j < i ==> ((#[trigger] open_shards_subrequests[j])@, shards_to_close[j]@)
                        == replacement(
                        j,
                        moves[j]@,
                        placement_views(placements@)[j],
                        open_shards_subrequests[j]@.shard_id,
                    ) && is_ulid_text(open_shards_subrequests[j]@.shard_id),
            decreases moves.len() - i,
        {
            let shard_to_move: &ShardEntry = moves[i];
            let shard_id = mint_shard_id();
            let subrequest = OpenShardSubrequest {
                subrequest_id: #[verifier::truncate]
                (i as u32),
                source_uid: shard_to_move.shard.source_uid.clone(),
                shard_id: shard_id.clone(),
                leader_id: placements[i].0.clone(),
                follower_id: clone_name_opt(&placements[i].1),
            };
            let pending = PendingClose {
                new_shard_id: shard_id,
                leader_id: shard_to_move.shard.leader_id.clone(),
                shard_pkey: ShardPKey {
                    source_uid: shard_to_move.shard.source_uid.clone(),
                    shard_id: shard_to_move.shard.shard_id.clone(),
                },
            };
            open_shards_subrequests.push(subrequest);
            shards_to_close.push(pending);
            i += 1;
        }
        Some(
            RebalancePlan {
                open_shards_subrequests,
                shards_to_close,
                rebalance_guard: RebalanceGuard { held: true },
            },
        )
    }
}

/// The shards that `leader_id` leads.
pub open spec fn is_entry_led_by(leader_id: Seq<char>) -> spec_fn(ShardEntryView) -> bool {
    |entry: ShardEntryView| entry.shard.leader_id == leader_id
}

/// What a leader gives away of `num_open_shards` open shards.
pub open spec fn excess_len(num_open_shards: nat, threshold: int) -> nat {
    if 0 <= threshold < num_open_shards {
        (num_open_shards - threshold) as nat
    } else {
        0
    }
}

/// The shards at the places of a leader are the shards that it leads.
proof fn lemma_items_of_leader(shards: Seq<ShardEntryView>, leader_id: Seq<char>)
    requires
        shards.len() <= usize::MAX,
    ensures
        items_at(shards, places_of(entry_leaders(shards), leader_id)) == shards.filter(
            is_entry_led_by(leader_id),
        ),
    decreases shards.len(),
{
    let pred = is_entry_led_by(leader_id);
    let leaders = entry_leaders(shards);
    if shards.len() == 0 {
        shards.lemma_filter_len(pred);
        assert(items_at(shards, places_of(leaders, leader_id)) =~= shards.filter(pred));
    } else {
        let shorter = shards.drop_last();
        let before = places_of(entry_leaders(shorter), leader_id);
        assert(leaders.drop_last() =~= entry_leaders(shorter));
        lemma_items_of_leader(shorter, leader_id);
        assert forall|k: int| 0 <= k < before.len() implies shards[before[k] as int]
            == shorter[before[k] as int] by {
            lemma_places_in_range(entry_leaders(shorter), leader_id, k);
        }
        assert(items_at(shards, before) =~= items_at(shorter, before));
        assert(shards =~= shorter.push(shards.last()));
        shorter.lemma_filter_push(shards.last(), pred);
        if leaders.last() == leader_id {
            assert(items_at(shards, before.push((shards.len() - 1) as usize)) =~= items_at(
                shards,
                before,
            ).push(shards.last()));
        }
    }
}

/// What a leader gives away are shards that it leads.
proof fn lemma_excess_led_by(
    led: Seq<ShardEntryView>,
    leader_id: Seq<char>,
    threshold: int,
    other: Seq<char>,
)
    requires
        forall|i: int| 0 <= i < led.len() ==> (#[trigger] led[i]).shard.leader_id == leader_id,
    ensures
        excess(led, threshold).len() == excess_len(led.len(), threshold),
        excess(led, threshold).filter(is_entry_led_by(other)).len() == if other == leader_id {
            excess_len(led.len(), threshold)
        } else {
            0
        },
{
    let given = excess(led, threshold);
    assert forall|i: int| 0 <= i < given.len() implies (#[trigger] given[i]).shard.leader_id
        == leader_id by {
        assert(given[i] == led[i + threshold]);
    }
    if other == leader_id {
        lemma_filter_all(given, is_entry_led_by(other));
    } else {
        lemma_filter_none(given, is_entry_led_by(other));
    }
}

/// Of what the first `k` leaders give away, the shards of `leader_id` are
/// what `leader_id` gives away, if it is among them.
proof fn lemma_excess_of_groups_led_by(
    shards: Seq<ShardEntryView>,
    threshold: int,
    leader_id: Seq<char>,
    k: int,
)
    requires
        shards.len() <= usize::MAX,
        0 <= k <= leader_groups(entry_leaders(shards)).len(),
    ensures
        excess_of_groups(shards, leader_groups(entry_leaders(shards)).take(k), threshold).filter(
            is_entry_led_by(leader_id),
        ).len() == if distinct_in_order(entry_leaders(shards)).take(k).contains(leader_id) {
            excess_len(shards.filter(is_entry_led_by(leader_id)).len(), threshold)
        } else {
            0
        },
    decreases k,
{
    let leaders = entry_leaders(shards);
    let distinct = distinct_in_order(leaders);
    let groups = leader_groups(leaders);
    let pred = is_entry_led_by(leader_id);
    if k == 0 {
        assert(groups.take(0) =~= Seq::empty());
        Seq::<ShardEntryView>::empty().lemma_filter_len(pred);
        assert(distinct.take(0) =~= Seq::empty());
    } else {
        lemma_excess_of_groups_led_by(shards, threshold, leader_id, k - 1);
        lemma_distinct_in_order(leaders);
        let group = groups[k - 1];
        assert(groups.take(k).drop_last() =~= groups.take(k - 1));
        assert(groups.take(k).last() == group);
        let before = excess_of_groups(shards, groups.take(k - 1), threshold);
        let led = items_at(shards, group.places);
        lemma_items_of_leader(shards, group.leader_id);
        assert forall|i: int| 0 <= i < led.len() implies (#[trigger] led[i]).shard.leader_id
            == group.leader_id by {
            shards.lemma_filter_pred(is_entry_led_by(group.leader_id), i);
        }
        lemma_excess_led_by(led, group.leader_id, threshold, leader_id);
        Seq::filter_distributes_over_add(before, excess(led, threshold), pred);
        assert(distinct.take(k) =~= distinct.take(k - 1).push(distinct[k - 1]));
        let shorter = distinct.take(k - 1);
        let longer = distinct.take(k);
        if shorter.contains(leader_id) {
            let g = choose|g: int| 0 <= g < shorter.len() && shorter[g] == leader_id;
            assert(distinct[g] == leader_id);
            assert(longer[g] == leader_id);
            assert(distinct[k - 1] != leader_id);
        } else if distinct[k - 1] == leader_id {
            assert(longer[k - 1] == leader_id);
        } else {
            assert forall|g: int| 0 <= g < longer.len() implies longer[g] != leader_id by {
                if g < k - 1 {
                    assert(shorter[g] == distinct[g]);
                }
            }
        }
    }
}

/// Of the shards to move, those of a leader are the open shards that it
/// leads above the threshold.
pub proof fn lemma_shards_to_move_of_leader(
    model: ModelView,
    num_ingesters: nat,
    leader_id: Seq<char>,
)
    requires
        model.all_shards().len() <= usize::MAX,
    ensures
        ({
            let open_shards = model.all_shards().filter(is_open_entry());
            shards_to_move(model, num_ingesters).filter(is_entry_led_by(leader_id)).len()
                == excess_len(
                open_shards.filter(is_entry_led_by(leader_id)).len(),
                rebalance_threshold(open_shards.len(), num_ingesters),
            )
        }),
{
    let open_shards = model.all_shards().filter(is_open_entry());
    let threshold = rebalance_threshold(open_shards.len(), num_ingesters);
    let leaders = entry_leaders(open_shards);
    let distinct = distinct_in_order(leaders);
    let groups = leader_groups(leaders);
    let pred = is_entry_led_by(leader_id);
    model.all_shards().lemma_filter_len(is_open_entry());
    lemma_excess_of_groups_led_by(open_shards, threshold, leader_id, groups.len() as int);
    assert(groups.take(groups.len() as int) =~= groups);
    assert(distinct.take(distinct.len() as int) =~= distinct);
    lemma_distinct_in_order(leaders);
    if !distinct.contains(leader_id) {
        assert forall|i: int| 0 <= i < open_shards.len() implies !pred(#[trigger] open_shards[i]) by {
            if open_shards[i].shard.leader_id == leader_id {
                assert(leaders[i] == leader_id);
                assert(leaders.contains(leader_id));
            }
        }
        lemma_filter_none(open_shards, pred);
    }
}

/// Where the new shards are opened and the shards to move are closed, the
/// live ingester at place `j` of the ascending order leads one shard more
/// than the threshold at most: what it keeps of its open shards, and what it
/// gets of the new ones. This holds as long as the cap up to which the
/// ingesters are filled is within the threshold, or the ingester is at that
/// cap already.
pub proof fn lemma_load_after_rebalance(
    model: ModelView,
    pool: Set<Seq<char>>,
    replication_factor: nat,
    j: int,
)
    requires
        model.all_shards().len() <= usize::MAX,
        pool.finite(),
        lists_ascending(ascending_names(pool), pool),
        0 <= j < ascending_names(pool).len(),
        allocation(
            pool,
            Set::empty(),
            model,
            shards_to_move(model, pool.len()).len(),
            replication_factor,
        ) is Some,
        ({
            let open_shards = model.all_shards().filter(is_open_entry());
            let cap = placement_cap(
                pool.len(),
                open_shards.len(),
                shards_to_move(model, pool.len()).len(),
            );
            cap <= rebalance_threshold(open_shards.len(), pool.len()) || cap <= open_shards.filter(
                is_entry_led_by(ascending_names(pool)[j]),
            ).len()
        }),
    ensures
        ({
            let leader_id = ascending_names(pool)[j];
            let open_shards = model.all_shards().filter(is_open_entry());
            let moves = shards_to_move(model, pool.len());
            let placements = allocation(pool, Set::empty(), model, moves.len(), replication_factor)->0;
            open_shards.filter(is_entry_led_by(leader_id)).len() - moves.filter(
                is_entry_led_by(leader_id),
            ).len() + placements.filter(is_led_by(leader_id)).len() <= rebalance_threshold(
                open_shards.len(),
                pool.len(),
            ) + 1
        }),
{
    let ingesters = ascending_names(pool);
    let leader_id = ingesters[j];
    let shards = model.all_shards();
    let open_shards = shards.filter(is_open_entry());
    let moves = shards_to_move(model, pool.len());
    let loads = leader_loads(ingesters, shards);
    let threshold = rebalance_threshold(open_shards.len(), pool.len());
    let placements = allocation(pool, Set::empty(), model, moves.len(), replication_factor)->0;
    let num_led = open_shards.filter(is_entry_led_by(leader_id)).len();
    lemma_ascending_len(ingesters, pool);
    assert(pool.difference(Set::empty()) =~= pool);
    lemma_filter_same(shards, is_open_outside(Set::empty()), is_open_entry());
    assert(placements == placement(loads, open_shards.len(), moves.len(), replication_factor));
    lemma_filter_twice(
        shards,
        is_open_entry(),
        is_entry_led_by(leader_id),
        is_open_led_by(leader_id),
    );
    assert(loads[j].num_open_shards == num_led);
    assert(loads[j].node_id == leader_id);
    assert(node_ids_of(loads) =~= ingesters);
    lemma_shards_to_move_of_leader(model, pool.len(), leader_id);
    lemma_new_shards_of_leader(loads, open_shards.len(), moves.len(), replication_factor, j);
    assert(threshold >= 1) by {
        let target = open_shards.len() as int / pool.len() as int;
        assert(target >= 0) by (nonlinear_arith)
            requires
                target == open_shards.len() as int / pool.len() as int,
                pool.len() > 0,
        ;
    }
}

/// Where the shards to move are closed, a leader that is not alive leads no
/// more open shards than the threshold: it keeps that many at most, and
/// gets none of the new ones.
pub proof fn lemma_load_of_absent_leader(
    model: ModelView,
    pool: Set<Seq<char>>,
    replication_factor: nat,
    leader_id: Seq<char>,
)
    requires
        model.all_shards().len() <= usize::MAX,
        pool.finite(),
        lists_ascending(ascending_names(pool), pool),
        !pool.contains(leader_id),
        allocation(
            pool,
            Set::empty(),
            model,
            shards_to_move(model, pool.len()).len(),
            replication_factor,
        ) is Some,
    ensures
        ({
            let open_shards = model.all_shards().filter(is_open_entry());
            let moves = shards_to_move(model, pool.len());
            let placements = allocation(pool, Set::empty(), model, moves.len(), replication_factor)->0;
            &&& placements.filter(is_led_by(leader_id)).len() == 0
            &&& open_shards.filter(is_entry_led_by(leader_id)).len() - moves.filter(
                is_entry_led_by(leader_id),
            ).len() <= rebalance_threshold(open_shards.len(), pool.len())
        }),
{
    let ingesters = ascending_names(pool);
    let shards = model.all_shards();
    let open_shards = shards.filter(is_open_entry());
    let moves = shards_to_move(model, pool.len());
    let loads = leader_loads(ingesters, shards);
    let num_open_shards = shards.filter(is_open_outside(Set::empty())).len();
    let placements = allocation(pool, Set::empty(), model, moves.len(), replication_factor)->0;
    lemma_ascending_len(ingesters, pool);
    assert(pool.difference(Set::empty()) =~= pool);
    assert(placements == placement(loads, num_open_shards, moves.len(), replication_factor));
    assert forall|k: int| 0 <= k < placements.len() implies !is_led_by(leader_id)(
        #[trigger] placements[k],
    ) by {
        lemma_placement_members(loads, num_open_shards, moves.len(), replication_factor, k);
        let i = choose|i: int|
            0 <= i < loads.len() && placements[k] == #[trigger] pair_at(
                loads,
                i,
                is_replicated(replication_factor),
            );
        assert(ingesters.contains(ingesters[i]));
    }
    lemma_filter_none(placements, is_led_by(leader_id));
    lemma_shards_to_move_of_leader(model, pool.len(), leader_id);
    assert(rebalance_threshold(open_shards.len(), pool.len()) >= 1) by {
        let target = open_shards.len() as int / pool.len() as int;
        assert(target >= 0) by (nonlinear_arith)
            requires
                target == open_shards.len() as int / pool.len() as int,
                pool.len() > 0,
        ;
    }
}

fn holds_failure(failures: &Vec<InitShardFailure>, shard_id: &str) -> (found: bool)
    ensures
        found == failed_shard_ids(views(failures@)).contains(shard_id@),
{
    let mut i: usize = 0;
    while i < failures.len()
        invariant
            i <= failures.len(),
            forall|j: int| 0 <= j < i ==> failures[j]@.shard_id != shard_id@,
        decreases failures.len() - i,
    {
        if same_name(failures[i].shard_id.as_str(), shard_id) {
            proof {
                assert(failed_shard_ids(views(failures@))[i as int] == shard_id@);
            }
            return true;
        }
        i += 1;
    }
    false
}

impl IngestController {
    /// Gives up an operation whose shards the metastore has not opened.
    pub fn abort_rebalance(&mut self, plan: RebalancePlan)
        ensures
            !final(self).rebalancing(),
            final(self).same_setup(old(self)),
            final(self).num_rebalance_shards_ops() == old(self).num_rebalance_shards_ops(),
    {
        self.unlock_rebalance();
    }

    /// Takes into the model the new shards that their leaders have
    /// initialized. Returns the old shards to close: those whose replacement
    /// was initialized.
    pub fn finish_rebalance_open_shards(
        &self,
        shards_to_close: &Vec<PendingClose>,
        initialized: &Vec<InitShardSuccess>,
        failures: &Vec<InitShardFailure>,
        model: &mut ControlPlaneModel,
    ) -> (replaced: Vec<PendingClose>)
        requires
            old(model)@.wf(),
        ensures
            final(model)@ == with_replacements(old(model)@, views(initialized@)),
            final(model)@.wf(),
            views(replaced@) == views(shards_to_close@).filter(
                is_replaced(failed_shard_ids(views(failures@))),
            ),
    {
        let ghost shards = views(initialized@);
        let mut i: usize = 0;
        proof {
            assert(shards.take(0) =~= Seq::empty());
        }
        while i < initialized.len()
            invariant
                i <= initialized.len(),
                shards == views(initialized@),
                model@.wf(),
                model@ == with_replacements(old(model)@, shards.take(i as int)),
            decreases initialized.len() - i,
        {
            proof {
                assert(shards.take(i + 1).drop_last() =~= shards.take(i as int));
                assert(shards.take(i + 1).last() == initialized[i as int]@);
            }
            let shard = initialized[i].shard.clone();
            let source_uid = shard.source_uid.clone();
            let mut opened: Vec<Shard> = Vec::new();
            opened.push(shard);
            proof {
                assert(views(opened@) =~= seq![initialized[i as int]@.shard]);
            }
            model.insert_shards(&source_uid, opened);
            model.drain_scaling_permits(&source_uid, ScalingMode::Down);
            i += 1;
        }
        proof {
            assert(shards.take(initialized.len() as int) =~= shards);
        }
        let ghost pending = views(shards_to_close@);
        let ghost pred = is_replaced(failed_shard_ids(views(failures@)));
        let mut replaced: Vec<PendingClose> = Vec::new();
        let mut k: usize = 0;
        proof {
            assert(pending.take(0) =~= Seq::empty());
            Seq::<PendingCloseView>::empty().lemma_filter_len(pred);
            assert(views(replaced@) =~= pending.take(0).filter(pred));
        }
        while k < shards_to_close.len()
            invariant
                k <= shards_to_close.len(),
                pending == views(shards_to_close@),
                pred == is_replaced(failed_shard_ids(views(failures@))),
                views(replaced@) == pending.take(k as int).filter(pred),
            decreases shards_to_close.len() - k,
        {
            proof {
                assert(pending.take(k + 1) =~= pending.take(k as int).push(pending[k as int]));
                pending.take(k as int).lemma_filter_push(pending[k as int], pred);
            }
            if !holds_failure(failures, shards_to_close[k].new_shard_id.as_str()) {
                let kept = shards_to_close[k].clone();
                proof {
                    lemma_views_push(replaced@, kept);
                }
                replaced.push(kept);
            }
            k += 1;
        }
        proof {
            assert(pending.take(shards_to_close.len() as int) =~= pending);
        }
        replaced
    }

    /// Says which leaders are to be asked to close which of the old shards.
    /// The shards of a leader that is not alive are left.
    pub fn plan_close_shards(&self, shards_to_close: &Vec<PendingClose>) -> (requests: Vec<
        CloseShardsRequest,
    >)
        requires
            self.wf(),
        ensures
            views(requests@) == close_requests(
                close_pkeys(views(shards_to_close@)),
                leader_groups(close_leaders(views(shards_to_close@))),
                self.ingesters(),
            ),
    {
        let ghost pending = views(shards_to_close@);
        let mut leader_ids: Vec<NodeId> = Vec::new();
        let mut i: usize = 0;
        while i < shards_to_close.len()
            invariant
                i <= shards_to_close.len(),
                leader_ids.len() == i,
                forall|j: int| 0 <= j < i ==> (#[trigger] leader_ids[j])@ == shards_to_close[j]@.leader_id,
            decreases shards_to_close.len() - i,
        {
            leader_ids.push(shards_to_close[i].leader_id.clone());
            i += 1;
        }
        proof {
            assert(views(leader_ids@) =~= close_leaders(pending));
        }
        let groups = group_by_leader(&leader_ids);
        let ghost all_groups = views(groups@);
        let ghost pkeys = close_pkeys(pending);
        let mut requests: Vec<CloseShardsRequest> = Vec::new();
        let mut g: usize = 0;
        proof {
            assert(views(requests@) =~= Seq::empty());
            assert(all_groups.take(0) =~= Seq::empty());
        }
        while g < groups.len()
            invariant
                g <= groups.len(),
                self.wf(),
                pending == views(shards_to_close@),
                pkeys == close_pkeys(pending),
                all_groups == views(groups@),
                leader_ids.len() == shards_to_close.len(),
                forall|h: int, k: int|
                    0 <= h < groups.len() && 0 <= k < groups[h].places.len() ==> (
                    #[trigger] groups[h].places[k]) < leader_ids.len(),
                views(requests@) == close_requests(pkeys, all_groups.take(g as int), self.ingesters()),
            decreases groups.len() - g,
        {
            let group = &groups[g];
            proof {
                assert(all_groups.take(g + 1).drop_last() =~= all_groups.take(g as int));
                assert(all_groups.take(g + 1).last() == group@);
            }
            if self.ingester_pool().contains_key(group.leader_id.as_str()) {
                let mut shard_pkeys: Vec<ShardPKey> = Vec::new();
                let mut k: usize = 0;
                while k < group.places.len()
                    invariant
                        k <= group.places.len(),
                        pending == views(shards_to_close@),
                        forall|k: int| 0 <= k < group.places.len() ==> (#[trigger] group.places[k]) < shards_to_close.len(),
                        shard_pkeys.len() == k,
                        forall|j: int| 0 <= j < k ==> (#[trigger] shard_pkeys[j])@ == pending[group.places[j] as int].shard_pkey,
                    decreases group.places.len() - k,
                {
                    shard_pkeys.push(shards_to_close[group.places[k]].shard_pkey.clone());
                    k += 1;
                }
                proof {
                    assert(views(shard_pkeys@) =~= items_at(pkeys, group@.places));
                }
                let request = CloseShardsRequest { leader_id: group.leader_id.clone(), shard_pkeys };
                proof {
                    lemma_views_push(requests@, request);
                }
                requests.push(request);
            }
            g += 1;
        }
        proof {
            assert(all_groups.take(groups.len() as int) =~= all_groups);
        }
        requests
    }

    /// Ends a rebalance operation: marks as closed in the model the old
    /// shards that their leaders have closed, and gives the lock back.
    pub fn handle_rebalance_shards_callback(
        &mut self,
        callback: RebalanceShardsCallback,
        model: &mut ControlPlaneModel,
    )
        requires
            old(model)@.wf(),
        ensures
            final(model)@ == with_closed_pkeys(old(model)@, views(callback.closed_shards@)),
            final(model)@.wf(),
            !final(self).rebalancing(),
            final(self).same_setup(old(self)),
            final(self).num_rebalance_shards_ops() == old(self).num_rebalance_shards_ops(),
    {
        let ghost pkeys = views(callback.closed_shards@);
        let mut i: usize = 0;
        proof {
            assert(pkeys.take(0) =~= Seq::empty());
        }
        while i < callback.closed_shards.len()
            invariant
                i <= callback.closed_shards.len(),
                pkeys == views(callback.closed_shards@),
                model@.wf(),
                model@ == with_closed_pkeys(old(model)@, pkeys.take(i as int)),
            decreases callback.closed_shards.len() - i,
        {
            proof {
                assert(pkeys.take(i + 1).drop_last() =~= pkeys.take(i as int));
                assert(pkeys.take(i + 1).last() == callback.closed_shards[i as int]@);
            }
            let mut shard_ids: Vec<ShardId> = Vec::new();
            shard_ids.push(callback.closed_shards[i].shard_id.clone());
            proof {
                assert(views(shard_ids@) =~= seq![callback.closed_shards[i as int]@.shard_id]);
            }
            model.close_shards(&callback.closed_shards[i].source_uid, &shard_ids);
            i += 1;
        }
        proof {
            assert(pkeys.take(callback.closed_shards.len() as int) =~= pkeys);
        }
        self.unlock_rebalance();
    }
}

/// Puts together the shards that the leaders have closed. `outcomes` says
/// how the requests to close shards ended.
pub fn collect_closed_shards(outcomes: &Vec<CloseShardsOutcome>) -> (closed: Vec<ShardPKey>)
    ensures
        views(closed@) == closed_shards(views(outcomes@)),
{
    let ghost results = views(outcomes@);
    let mut closed: Vec<ShardPKey> = Vec::new();
    let mut i: usize = 0;
    proof {
        assert(results.take(0) =~= Seq::empty());
        assert(views(closed@) =~= Seq::empty());
    }
    while i < outcomes.len()
        invariant
            i <= outcomes.len(),
            results == views(outcomes@),
            views(closed@) == closed_shards(results.take(i as int)),
        decreases outcomes.len() - i,
    {
        proof {
            assert(results.take(i + 1).drop_last() =~= results.take(i as int));
            assert(results.take(i + 1).last() == outcomes[i as int]@);
        }
        match &outcomes[i] {
            CloseShardsOutcome::Completed(successes) => {
                let ghost before = views(closed@);
                let ghost added = views(successes@);
                let mut k: usize = 0;
                proof {
                    assert(before + added.take(0) =~= before);
                }
                while k < successes.len()
                    invariant
                        k <= successes.len(),
                        added == views(successes@),
                        views(closed@) == before + added.take(k as int),
                    decreases successes.len() - k,
                {
                    let pkey = successes[k].clone();
                    proof {
                        lemma_views_push(closed@, pkey);
                        assert(before + added.take(k + 1) =~= (before + added.take(k as int)).push(
                            pkey@,
                        ));
                    }
                    closed.push(pkey);
                    k += 1;
                }
                proof {
                    assert(added.take(successes.len() as int) =~= added);
                }
            },
            _ => {},
        }
        i += 1;
    }
    proof {
        assert(results.take(outcomes.len() as int) =~= results);
    }
    closed
}

} // verus!
