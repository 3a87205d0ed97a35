//! Answers to routers that ask for the open shards of sources.
//!
//! What the router reports is taken in first, so that a shard that it saw
//! closed is not handed back to it. Each subrequest is then resolved by
//! itself. For the sources that have no open shard, new shards are placed:
//! they are to be opened in the metastore and initialized on their leaders
//! before the model takes them in.

use crate::allocator::{allocation, Placement, PlacementView};
use crate::controller::IngestController;
use crate::messages::{
    GetOrCreateOpenShardsFailure, GetOrCreateOpenShardsFailureReason,
    GetOrCreateOpenShardsFailureView, GetOrCreateOpenShardsRequest,
    GetOrCreateOpenShardsRequestView, GetOrCreateOpenShardsResponse,
    GetOrCreateOpenShardsSubrequest,
    GetOrCreateOpenShardsSubrequestView, GetOrCreateOpenShardsSuccess,
    GetOrCreateOpenShardsSuccessView, InitShardSuccess, OpenShardSubrequest,
    OpenShardSubrequestView, SubrequestShardView,
};
use crate::minting::{is_ulid_text, mint_shard_id};
use crate::model::{ControlPlaneModel, ModelView};
use crate::node_set::{names_in, node_set_of};
use crate::observations::with_all_closed;
use crate::shard_table::{ShardEntry, ShardEntryView};
use crate::types::{
    clone_name_opt, lemma_views_push, views, NodeId, Shard, ShardView, SourceUid, SourceUidView,
};
use fnv::FnvHashSet;
use vstd::prelude::*;

verus! {

/// A source for which a shard is to be opened, under the number of the
/// subrequest that asked for it.
#[derive(Debug, PartialEq, Eq)]
pub struct PendingShard {
    pub subrequest_id: u32,
    pub source_uid: SourceUid,
}

/// What a value of `PendingShard` stands for.
pub struct PendingShardView {
    pub subrequest_id: u32,
    pub source_uid: SourceUidView,
}

impl View for PendingShard {
    type V = PendingShardView;

    open spec fn view(&self) -> PendingShardView {
        PendingShardView { subrequest_id: self.subrequest_id, source_uid: self.source_uid@ }
    }
}

/// What has become of the subrequests of a router.
#[derive(Debug, PartialEq, Eq)]
pub struct Resolved {
    pub successes: Vec<GetOrCreateOpenShardsSuccess>,
    pub failures: Vec<GetOrCreateOpenShardsFailure>,
    pub to_open: Vec<PendingShard>,
}

/// What a value of `Resolved` stands for.
pub struct ResolvedView {
    pub successes: Seq<GetOrCreateOpenShardsSuccessView>,
    pub failures: Seq<GetOrCreateOpenShardsFailureView>,
    pub to_open: Seq<PendingShardView>,
}

impl View for Resolved {
    type V = ResolvedView;

    open spec fn view(&self) -> ResolvedView {
        ResolvedView {
            successes: views(self.successes@),
            failures: views(self.failures@),
            to_open: views(self.to_open@),
        }
    }
}

/// What a call of a router has come to before anything is asked of the
/// metastore: the subrequests that are answered, and the shards to open for
/// the others.
#[derive(Debug)]
pub struct PendingOpenShards {
    pub successes: Vec<GetOrCreateOpenShardsSuccess>,
    pub failures: Vec<GetOrCreateOpenShardsFailure>,
    /// The shards that the metastore is to open. Where there is none, the
    /// call is answered.
    pub open_shards_subrequests: Vec<OpenShardSubrequest>,
    /// The leaders that the router could not reach.
    pub unavailable_leaders: FnvHashSet<NodeId>,
}

/// The shards of entries.
pub open spec fn shards_in(entries: Seq<ShardEntryView>) -> Seq<ShardView> {
    Seq::new(entries.len(), |i: int| entries[i].shard)
}

/// What one subrequest comes to.
pub enum Resolution {
    IndexNotFound,
    SourceNotFound,
    /// The source has these open shards.
    Open(SourceUidView, Seq<ShardView>),
    /// The source has no open shard: one is to be opened.
    ToOpen(SourceUidView),
}

/// Resolves one subrequest against the model, leaving aside the shards of
/// the leaders `gone`.
pub open spec fn resolve(
    model: ModelView,
    subrequest: GetOrCreateOpenShardsSubrequestView,
    gone: Set<Seq<char>>,
) -> Resolution {
    if !model.has_index(subrequest.index_id) {
        Resolution::IndexNotFound
    } else {
        let source_uid = SourceUidView {
            index_uid: model.index_uid(subrequest.index_id),
            source_id: subrequest.source_id,
        };
        if !model.has_source(source_uid) {
            Resolution::SourceNotFound
        } else {
            let open_shards = model.open_shards(source_uid, gone);
            if open_shards.len() > 0 {
                Resolution::Open(source_uid, shards_in(open_shards))
            } else {
                Resolution::ToOpen(source_uid)
            }
        }
    }
}

/// The failure of a subrequest.
pub open spec fn failure(
    subrequest: GetOrCreateOpenShardsSubrequestView,
    reason: GetOrCreateOpenShardsFailureReason,
) -> GetOrCreateOpenShardsFailureView {
    GetOrCreateOpenShardsFailureView {
        subrequest_id: subrequest.subrequest_id,
        index_id: subrequest.index_id,
        source_id: subrequest.source_id,
        reason,
    }
}

/// What the subrequests come to, taken one after the other.
pub open spec fn resolved(
    model: ModelView,
    subrequests: Seq<GetOrCreateOpenShardsSubrequestView>,
    gone: Set<Seq<char>>,
) -> ResolvedView
    decreases subrequests.len(),
{
    if subrequests.len() == 0 {
        ResolvedView { successes: Seq::empty(), failures: Seq::empty(), to_open: Seq::empty() }
    } else {
        let before = resolved(model, subrequests.drop_last(), gone);
        let subrequest = subrequests.last();
        match resolve(model, subrequest, gone) {
            Resolution::IndexNotFound => ResolvedView {
                failures: before.failures.push(
                    failure(subrequest, GetOrCreateOpenShardsFailureReason::IndexNotFound),
                ),
                ..before
            },
            Resolution::SourceNotFound => ResolvedView {
                failures: before.failures.push(
                    failure(subrequest, GetOrCreateOpenShardsFailureReason::SourceNotFound),
                ),
                ..before
            },
            Resolution::Open(source_uid, open_shards) => ResolvedView {
                successes: before.successes.push(
                    GetOrCreateOpenShardsSuccessView {
                        subrequest_id: subrequest.subrequest_id,
                        source_uid,
                        open_shards,
                    },
                ),
                ..before
            },
            Resolution::ToOpen(source_uid) => ResolvedView {
                to_open: before.to_open.push(
                    PendingShardView { subrequest_id: subrequest.subrequest_id, source_uid },
                ),
                ..before
            },
        }
    }
}

/// The failures of the sources for which no shard can be placed.
pub open spec fn no_ingesters_failures(to_open: Seq<PendingShardView>) -> Seq<
    GetOrCreateOpenShardsFailureView,
> {
    Seq::new(
        to_open.len(),
        |i: int|
            GetOrCreateOpenShardsFailureView {
                subrequest_id: to_open[i].subrequest_id,
                index_id: to_open[i].source_uid.index_uid.index_id,
                source_id: to_open[i].source_uid.source_id,
                reason: GetOrCreateOpenShardsFailureReason::NoIngestersAvailable,
            },
    )
}

/// The request to open the shard `shard_id` for `pending` at `placement`.
pub open spec fn stamped(pending: PendingShardView, placement: PlacementView, shard_id: Seq<char>) -> OpenShardSubrequestView {
    OpenShardSubrequestView {
        subrequest_id: pending.subrequest_id,
        source_uid: pending.source_uid,
        shard_id,
        leader_id: placement.0,
        follower_id: placement.1,
    }
}

/// The model after what the router reports: the shards that it saw closed
/// are closed, and the open shards of the leaders that it could not reach,
/// and that are not alive, are unavailable.
pub open spec fn observed(
    model: ModelView,
    request: GetOrCreateOpenShardsRequestView,
    pool: Set<Seq<char>>,
) -> ModelView {
    with_all_closed(model, request.closed_shards).without_leaders(
        request.unavailable_leaders.to_set().difference(pool),
    )
}

/// The model after it has taken in, one after the other, the shards that
/// their leaders have initialized, and the answers to the subrequests that
/// asked for them: each holds the open shards that its source then has.
pub open spec fn completed(
    model: ModelView,
    initialized: Seq<SubrequestShardView>,
    gone: Set<Seq<char>>,
) -> (ModelView, Seq<GetOrCreateOpenShardsSuccessView>)
    decreases initialized.len(),
{
    if initialized.len() == 0 {
        (model, Seq::empty())
    } else {
        let (model_before, successes) = completed(model, initialized.drop_last(), gone);
        let shard = initialized.last().shard;
        let model_after = model_before.with_shards(shard.source_uid, seq![shard]);
        (
            model_after,
            successes.push(
                GetOrCreateOpenShardsSuccessView {
                    subrequest_id: initialized.last().subrequest_id,
                    source_uid: shard.source_uid,
                    open_shards: shards_in(model_after.open_shards(shard.source_uid, gone)),
                },
            ),
        )
    }
}

/// Copies of the shards of entries.
pub fn shards_of_entries(entries: &Vec<ShardEntry>) -> (shards: Vec<Shard>)
    ensures
        views(shards@) == shards_in(views(entries@)),
{
    let mut shards: Vec<Shard> = Vec::new();
    let mut i: usize = 0;
    while i < entries.len()
        invariant
            i <= entries.len(),
            shards.len() == i,
            forall|j: int| 0 <= j < i ==> (#[trigger] shards[j])@ == entries[j]@.shard,
        decreases entries.len() - i,
    {
        shards.push(entries[i].shard.clone());
        i += 1;
    }
    proof {
        assert(views(shards@) =~= shards_in(views(entries@)));
    }
    shards
}

/// Resolves the subrequests of a router against the model, leaving aside
/// the shards of the leaders in `unavailable_leaders`.
pub fn resolve_subrequests(
    subrequests: &Vec<GetOrCreateOpenShardsSubrequest>,
    unavailable_leaders: &FnvHashSet<NodeId>,
    model: &ControlPlaneModel,
) -> (outcome: Resolved)
    requires
        model@.wf(),
    ensures
        outcome@ == resolved(model@, views(subrequests@), names_in(*unavailable_leaders)),
{
    let ghost asked = views(subrequests@);
    let ghost gone = names_in(*unavailable_leaders);
    let mut successes: Vec<GetOrCreateOpenShardsSuccess> = Vec::new();
    let mut failures: Vec<GetOrCreateOpenShardsFailure> = Vec::new();
    let mut to_open: Vec<PendingShard> = Vec::new();
    proof {
        assert(views(successes@) =~= Seq::empty());
        assert(views(failures@) =~= Seq::empty());
        assert(views(to_open@) =~= Seq::empty());
        assert(asked.take(0) =~= Seq::empty());
    }
    let mut i: usize = 0;
    while i < subrequests.len()
        invariant
            i <= subrequests.len(),
            model@.wf(),
            asked == views(subrequests@),
            gone == names_in(*unavailable_leaders),
            (ResolvedView {
                successes: views(successes@),
                failures: views(failures@),
                to_open: views(to_open@),
            }) == resolved(model@, asked.take(i as int), gone),
        decreases subrequests.len() - i,
    {
        let subrequest = &subrequests[i];
        proof {
            assert(asked.take(i + 1).drop_last() =~= asked.take(i as int));
            assert(asked.take(i + 1).last() == subrequest@);
        }
        match model.index_uid(subrequest.index_id.as_str()) {
            None => {
                let failure = GetOrCreateOpenShardsFailure {
                    subrequest_id: subrequest.subrequest_id,
                    index_id: subrequest.index_id.clone(),
                    source_id: subrequest.source_id.clone(),
                    reason: GetOrCreateOpenShardsFailureReason::IndexNotFound,
                };
                proof {
                    lemma_views_push(failures@, failure);
                }
                failures.push(failure);
            },
            Some(index_uid) => {
                let source_uid = SourceUid { index_uid, source_id: subrequest.source_id.clone() };
                match model.find_open_shards(&source_uid, unavailable_leaders) {
                    None => {
                        let failure = GetOrCreateOpenShardsFailure {
                            subrequest_id: subrequest.subrequest_id,
                            index_id: subrequest.index_id.clone(),
                            source_id: subrequest.source_id.clone(),
                            reason: GetOrCreateOpenShardsFailureReason::SourceNotFound,
                        };
                        proof {
                            lemma_views_push(failures@, failure);
                        }
                        failures.push(failure);
                    },
                    Some(open_shard_entries) => {
                        if open_shard_entries.len() > 0 {
                            let success = GetOrCreateOpenShardsSuccess {
                                subrequest_id: subrequest.subrequest_id,
                                source_uid,
                                open_shards: shards_of_entries(&open_shard_entries),
                            };
                            proof {
                                lemma_views_push(successes@, success);
                            }
                            successes.push(success);
                        } else {
                            let pending = PendingShard {
                                subrequest_id: subrequest.subrequest_id,
                                source_uid,
                            };
                            proof {
                                lemma_views_push(to_open@, pending);
                            }
                            to_open.push(pending);
                        }
                    },
                }
            },
        }
        i += 1;
    }
    proof {
        assert(asked.take(subrequests.len() as int) =~= asked);
    }
    Resolved { successes, failures, to_open }
}

/// The requests to open one new shard for each source of `to_open`, at the
/// place that `placements` gives it.
fn stamp_open_shards(to_open: &Vec<PendingShard>, placements: &Vec<Placement>) -> (subrequests:
    Vec<OpenShardSubrequest>)
    requires
        placements.len() == to_open.len(),
    ensures
        subrequests.len() == to_open.len(),
        forall|i: int|
            0 <= i < to_open.len() ==> (#[trigger] subrequests[i])@ == stamped(
                to_open[i]@,
                crate::allocator::placement_views(placements@)[i],
                subrequests[i]@.shard_id,
            ) && is_ulid_text(subrequests[i]@.shard_id),
{
    let mut subrequests: Vec<OpenShardSubrequest> = Vec::new();
    let mut i: usize = 0;
    while i < to_open.len()
        invariant
            i <= to_open.len(),
            placements.len() == to_open.len(),
            subrequests.len() == i,
            forall|j: int|
                0 <= j < i ==> (#[trigger] subrequests[j])@ == stamped(
                    to_open[j]@,
                    crate::allocator::placement_views(placements@)[j],
                    subrequests[j]@.shard_id,
                ) && is_ulid_text(subrequests[j]@.shard_id),
        decreases to_open.len() - i,
    {
        subrequests.push(
            OpenShardSubrequest {
                subrequest_id: to_open[i].subrequest_id,
                source_uid: to_open[i].source_uid.clone(),
                shard_id: mint_shard_id(),
                leader_id: placements[i].0.clone(),
                follower_id: clone_name_opt(&placements[i].1),
            },
        );
        i += 1;
    }
    subrequests
}

/// Adds to `failures` one failure for each source of `to_open`: no ingester
/// is available for its shard.
fn push_no_ingesters_failures(
    failures: &mut Vec<GetOrCreateOpenShardsFailure>,
    to_open: &Vec<PendingShard>,
)
    ensures
        views(final(failures)@) == views(old(failures)@) + no_ingesters_failures(views(to_open@)),
{
    let ghost before = views(failures@);
    let ghost added = no_ingesters_failures(views(to_open@));
    let mut i: usize = 0;
    while i < to_open.len()
        invariant
            i <= to_open.len(),
            added == no_ingesters_failures(views(to_open@)),
            views(failures@) == before + added.take(i as int),
        decreases to_open.len() - i,
    {
        let failure = GetOrCreateOpenShardsFailure {
            subrequest_id: to_open[i].subrequest_id,
            index_id: to_open[i].source_uid.index_uid.index_id.clone(),
            source_id: to_open[i].source_uid.source_id.clone(),
            reason: GetOrCreateOpenShardsFailureReason::NoIngestersAvailable,
        };
        proof {
            lemma_views_push(failures@, failure);
            assert(before + added.take(i + 1) =~= (before + added.take(i as int)).push(failure@));
        }
        failures.push(failure);
        i += 1;
    }
    proof {
        assert(added.take(to_open.len() as int) =~= added);
    }
}

impl IngestController {
    /// Takes in what a router reports, resolves its subrequests, and places
    /// a new shard for each source that has no open shard. Where no shard
    /// can be placed, each of these sources fails for want of ingesters.
    pub fn start_get_or_create_open_shards(
        &self,
        request: &GetOrCreateOpenShardsRequest,
        model: &mut ControlPlaneModel,
    ) -> (pending: PendingOpenShards)
        requires
            self.wf(),
            old(model)@.wf(),
        ensures
            final(model)@ == observed(old(model)@, request@, self.ingesters()),
            final(model)@.wf(),
            names_in(pending.unavailable_leaders) == request@.unavailable_leaders.to_set(),
            ({
                let gone = request@.unavailable_leaders.to_set();
                let outcome = resolved(final(model)@, request@.subrequests, gone);
                let placements = allocation(
                    self.ingesters(),
                    gone,
                    final(model)@,
                    outcome.to_open.len(),
                    self.replication_factor() as nat,
                );
                &&& views(pending.successes@) == outcome.successes
                &&& views(pending.failures@) == if outcome.to_open.len() > 0 && placements is None {
                    outcome.failures + no_ingesters_failures(outcome.to_open)
                } else {
                    outcome.failures
                }
                &&& pending.open_shards_subrequests.len() == if placements is None {
                    0
                } else {
                    outcome.to_open.len()
                }
                &&& forall|i: int|
                    0 <= i < pending.open_shards_subrequests.len() ==> (
                    #[trigger] pending.open_shards_subrequests[i])@ == stamped(
                        outcome.to_open[i],
                        placements->0[i],
                        pending.open_shards_subrequests[i]@.shard_id,
                    ) && is_ulid_text(pending.open_shards_subrequests[i]@.shard_id)
            }),
    {
        self.handle_closed_shards(&request.closed_shards, model);
        let unavailable_leaders = node_set_of(&request.unavailable_leaders);
        self.handle_unavailable_leaders(&unavailable_leaders, model);
        let outcome = resolve_subrequests(&request.subrequests, &unavailable_leaders, model);
        let mut failures = outcome.failures;
        let mut open_shards_subrequests: Vec<OpenShardSubrequest> = Vec::new();
        if outcome.to_open.len() > 0 {
            match self.allocate_shards(outcome.to_open.len(), &unavailable_leaders, model) {
                Some(placements) => {
                    open_shards_subrequests = stamp_open_shards(&outcome.to_open, &placements);
                },
                None => {
                    push_no_ingesters_failures(&mut failures, &outcome.to_open);
                },
            }
        }
        PendingOpenShards {
            successes: outcome.successes,
            failures,
            open_shards_subrequests,
            unavailable_leaders,
        }
    }
}

/// The numbers of subrequests.
pub open spec fn subrequest_ids(subrequests: Seq<GetOrCreateOpenShardsSubrequestView>) -> Seq<u32> {
    Seq::new(subrequests.len(), |i: int| subrequests[i].subrequest_id)
}

/// The numbers of the subrequests that were answered.
pub open spec fn success_ids(successes: Seq<GetOrCreateOpenShardsSuccessView>) -> Seq<u32> {
    Seq::new(successes.len(), |i: int| successes[i].subrequest_id)
}

/// The numbers of the subrequests that failed.
pub open spec fn failure_ids(failures: Seq<GetOrCreateOpenShardsFailureView>) -> Seq<u32> {
    Seq::new(failures.len(), |i: int| failures[i].subrequest_id)
}

/// The numbers of the subrequests for which a shard is to be opened.
pub open spec fn pending_ids(to_open: Seq<PendingShardView>) -> Seq<u32> {
    Seq::new(to_open.len(), |i: int| to_open[i].subrequest_id)
}

/// The numbers under which shards were initialized.
pub open spec fn initialized_ids(initialized: Seq<SubrequestShardView>) -> Seq<u32> {
    Seq::new(initialized.len(), |i: int| initialized[i].subrequest_id)
}

/// Each subrequest is answered, has failed, or waits for a new shard: one
/// of the three, and once.
pub proof fn lemma_resolved_partitions(
    model: ModelView,
    subrequests: Seq<GetOrCreateOpenShardsSubrequestView>,
    gone: Set<Seq<char>>,
)
    ensures
        ({
            let outcome = resolved(model, subrequests, gone);
            &&& outcome.successes.len() + outcome.failures.len() + outcome.to_open.len()
                == subrequests.len()
            &&& success_ids(outcome.successes).to_multiset().add(
                failure_ids(outcome.failures).to_multiset(),
            ).add(pending_ids(outcome.to_open).to_multiset()) == subrequest_ids(
                subrequests,
            ).to_multiset()
        }),
    decreases subrequests.len(),
{
    broadcast use vstd::multiset::group_multiset_axioms;
    broadcast use vstd::seq_lib::to_multiset_build;

    let outcome = resolved(model, subrequests, gone);
    if subrequests.len() == 0 {
        assert(success_ids(outcome.successes) =~= Seq::<u32>::empty());
        assert(failure_ids(outcome.failures) =~= Seq::<u32>::empty());
        assert(pending_ids(outcome.to_open) =~= Seq::<u32>::empty());
        assert(subrequest_ids(subrequests) =~= Seq::<u32>::empty());
        assert(Seq::<u32>::empty().to_multiset() =~= vstd::multiset::Multiset::empty()) by {
            broadcast use vstd::seq_lib::to_multiset_contains;

        }
        assert(Seq::<u32>::empty().to_multiset().add(Seq::<u32>::empty().to_multiset()).add(
            Seq::<u32>::empty().to_multiset(),
        ) =~= Seq::<u32>::empty().to_multiset());
    } else {
        let shorter = subrequests.drop_last();
        let before = resolved(model, shorter, gone);
        let id = subrequests.last().subrequest_id;
        lemma_resolved_partitions(model, shorter, gone);
        assert(subrequest_ids(subrequests) =~= subrequest_ids(shorter).push(id));
        let s0 = success_ids(before.successes);
        let f0 = failure_ids(before.failures);
        let p0 = pending_ids(before.to_open);
        let s1 = success_ids(outcome.successes);
        let f1 = failure_ids(outcome.failures);
        let p1 = pending_ids(outcome.to_open);
        match resolve(model, subrequests.last(), gone) {
            Resolution::IndexNotFound => {
                assert(f1 =~= f0.push(id));
            },
            Resolution::SourceNotFound => {
                assert(f1 =~= f0.push(id));
            },
            Resolution::Open(source_uid, open_shards) => {
                assert(s1 =~= s0.push(id));
            },
            Resolution::ToOpen(source_uid) => {
                assert(p1 =~= p0.push(id));
            },
        }
        assert(s1.to_multiset().add(f1.to_multiset()).add(p1.to_multiset()) =~= s0.to_multiset().add(
            f0.to_multiset(),
        ).add(p0.to_multiset()).insert(id));
    }
}

/// Each shard that was initialized gives one answer, under its number.
pub proof fn lemma_completed_ids(
    model: ModelView,
    initialized: Seq<SubrequestShardView>,
    gone: Set<Seq<char>>,
)
    ensures
        success_ids(completed(model, initialized, gone).1) == initialized_ids(initialized),
    decreases initialized.len(),
{
    let successes = completed(model, initialized, gone).1;
    if initialized.len() > 0 {
        let shorter = initialized.drop_last();
        let before = completed(model, shorter, gone).1;
        lemma_completed_ids(model, shorter, gone);
        assert(successes.len() == before.len() + 1);
        assert(before.len() == success_ids(before).len());
        assert forall|i: int| 0 <= i < successes.len() implies successes[i].subrequest_id
            == initialized[i].subrequest_id by {
            if i < before.len() {
                assert(successes[i] == before[i]);
                assert(success_ids(before)[i] == initialized_ids(shorter)[i]);
            }
        }
    }
    assert(success_ids(successes) =~= initialized_ids(initialized));
}

/// Where no shard can be placed, each subrequest is answered or has failed:
/// one of the two, and once.
pub proof fn lemma_answer_without_ingesters(
    model: ModelView,
    subrequests: Seq<GetOrCreateOpenShardsSubrequestView>,
    gone: Set<Seq<char>>,
)
    ensures
        ({
            let outcome = resolved(model, subrequests, gone);
            let failures = outcome.failures + no_ingesters_failures(outcome.to_open);
            &&& outcome.successes.len() + failures.len() == subrequests.len()
            &&& success_ids(outcome.successes).to_multiset().add(failure_ids(failures).to_multiset())
                == subrequest_ids(subrequests).to_multiset()
        }),
{
    broadcast use vstd::multiset::group_multiset_axioms;

    let outcome = resolved(model, subrequests, gone);
    let added = no_ingesters_failures(outcome.to_open);
    let failures = outcome.failures + added;
    lemma_resolved_partitions(model, subrequests, gone);
    assert(failure_ids(failures) =~= failure_ids(outcome.failures) + failure_ids(added));
    assert(failure_ids(added) =~= pending_ids(outcome.to_open));
    vstd::seq_lib::lemma_multiset_commutative(failure_ids(outcome.failures), failure_ids(added));
    assert(success_ids(outcome.successes).to_multiset().add(failure_ids(failures).to_multiset())
        =~= success_ids(outcome.successes).to_multiset().add(
        failure_ids(outcome.failures).to_multiset(),
    ).add(pending_ids(outcome.to_open).to_multiset()));
}

/// Where the leaders have initialized the new shards that were asked for,
/// each once, each subrequest is answered or has failed: one of the two, and
/// once.
pub proof fn lemma_answer_with_new_shards(
    model: ModelView,
    subrequests: Seq<GetOrCreateOpenShardsSubrequestView>,
    gone: Set<Seq<char>>,
    later: ModelView,
    initialized: Seq<SubrequestShardView>,
)
    requires
        initialized_ids(initialized).to_multiset() == pending_ids(
            resolved(model, subrequests, gone).to_open,
        ).to_multiset(),
    ensures
        ({
            let outcome = resolved(model, subrequests, gone);
            let successes = outcome.successes + completed(later, initialized, gone).1;
            &&& successes.len() + outcome.failures.len() == subrequests.len()
            &&& success_ids(successes).to_multiset().add(failure_ids(outcome.failures).to_multiset())
                == subrequest_ids(subrequests).to_multiset()
        }),
{
    broadcast use vstd::multiset::group_multiset_axioms;

    let outcome = resolved(model, subrequests, gone);
    let added = completed(later, initialized, gone).1;
    let successes = outcome.successes + added;
    lemma_resolved_partitions(model, subrequests, gone);
    lemma_completed_ids(later, initialized, gone);
    assert(success_ids(successes) =~= success_ids(outcome.successes) + success_ids(added));
    vstd::seq_lib::lemma_multiset_commutative(success_ids(outcome.successes), success_ids(added));
    vstd::seq_lib::to_multiset_len(initialized_ids(initialized));
    vstd::seq_lib::to_multiset_len(pending_ids(outcome.to_open));
    assert(success_ids(successes).to_multiset().add(failure_ids(outcome.failures).to_multiset())
        =~= success_ids(outcome.successes).to_multiset().add(
        failure_ids(outcome.failures).to_multiset(),
    ).add(pending_ids(outcome.to_open).to_multiset()));
}

impl PendingOpenShards {
    /// Whether nothing is left to ask of the metastore.
    pub fn is_complete(&self) -> (complete: bool)
        ensures
            complete == (self.open_shards_subrequests.len() == 0),
    {
        self.open_shards_subrequests.len() == 0
    }
}

impl IngestController {
    /// Takes into the model the shards that their leaders have initialized
    /// and answers the router. A source whose new shard was initialized gets
    /// all the open shards that it then has; one whose new shard was not
    /// gets no answer, and the router will ask again.
    pub fn finish_get_or_create_open_shards(
        &self,
        pending: PendingOpenShards,
        initialized: &Vec<InitShardSuccess>,
        model: &mut ControlPlaneModel,
    ) -> (response: GetOrCreateOpenShardsResponse)
        requires
            old(model)@.wf(),
        ensures
            final(model)@ == completed(
                old(model)@,
                views(initialized@),
                names_in(pending.unavailable_leaders),
            ).0,
            final(model)@.wf(),
            response@.successes == views(pending.successes@) + completed(
                old(model)@,
                views(initialized@),
                names_in(pending.unavailable_leaders),
            ).1,
            response@.failures == views(pending.failures@),
    {
        let ghost gone = names_in(pending.unavailable_leaders);
        let ghost shards = views(initialized@);
        let ghost before = views(pending.successes@);
        let mut successes = pending.successes;
        let unavailable_leaders = pending.unavailable_leaders;
        let mut i: usize = 0;
        proof {
            assert(shards.take(0) =~= Seq::empty());
            assert(before + Seq::empty() =~= before);
        }
        while i < initialized.len()
            invariant
                i <= initialized.len(),
                shards == views(initialized@),
                gone == names_in(unavailable_leaders),
                model@.wf(),
                model@ == completed(old(model)@, shards.take(i as int), gone).0,
                views(successes@) == before + completed(old(model)@, shards.take(i as int), gone).1,
            decreases initialized.len() - i,
        {
            proof {
                assert(shards.take(i + 1).drop_last() =~= shards.take(i as int));
                assert(shards.take(i + 1).last() == initialized[i as int]@);
            }
            let shard = initialized[i].shard.clone();
            let source_uid = shard.source_uid.clone();
            let mut opened: Vec<Shard> = Vec::new();
            opened.push(shard);
            proof {
                assert(views(opened@) =~= seq![initialized[i as int]@.shard]);
            }
            model.insert_shards(&source_uid, opened);
            match model.find_open_shards(&source_uid, &unavailable_leaders) {
                Some(open_shard_entries) => {
                    let success = GetOrCreateOpenShardsSuccess {
                        subrequest_id: initialized[i].subrequest_id,
                        source_uid,
                        open_shards: shards_of_entries(&open_shard_entries),
                    };
                    proof {
                        lemma_views_push(successes@, success);
                        let done = completed(old(model)@, shards.take(i as int), gone).1;
                        assert(before + done.push(success@) =~= (before + done).push(success@));
                    }
                    successes.push(success);
                },
                None => {},
            }
            i += 1;
        }
        proof {
            assert(shards.take(initialized.len() as int) =~= shards);
        }
        GetOrCreateOpenShardsResponse { successes, failures: pending.failures }
    }
}

} // verus!
