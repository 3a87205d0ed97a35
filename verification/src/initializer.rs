//! Initialization of newly opened shards on their leaders.
//!
//! The shards are grouped by leader. Each leader that is alive gets one
//! request with all its shards; the shards of a leader that is not are
//! failures from the start. A request that fails, or gets no answer in time,
//! fails all its shards. Nothing is tried twice.

use crate::controller::IngestController;
use crate::groups::{group_by_leader, leader_groups, LeaderGroupView};
use crate::messages::{
    InitShardFailure, InitShardFailureView, InitShardSubrequest, InitShardSuccess,
    InitShardsResponse, InitShardsResponseView, OpenShardSubresponse, SubrequestShardView,
};
use crate::types::{lemma_views_push, views, NodeId};
use vstd::prelude::*;

verus! {

/// The shards that one leader is asked to initialize.
#[derive(Debug, PartialEq, Eq)]
pub struct InitShardsRequest {
    pub leader_id: NodeId,
    pub subrequests: Vec<InitShardSubrequest>,
}

/// What a value of `InitShardsRequest` stands for.
pub struct InitShardsRequestView {
    pub leader_id: Seq<char>,
    pub subrequests: Seq<SubrequestShardView>,
}

impl View for InitShardsRequest {
    type V = InitShardsRequestView;

    open spec fn view(&self) -> InitShardsRequestView {
        InitShardsRequestView { leader_id: self.leader_id@, subrequests: views(self.subrequests@) }
    }
}

/// The requests to send, one for each leader that is alive, and the shards
/// that have failed already because their leader is not.
#[derive(Debug, PartialEq, Eq)]
pub struct InitShardsPlan {
    pub requests: Vec<InitShardsRequest>,
    pub failures: Vec<InitShardFailure>,
}

/// What a value of `InitShardsPlan` stands for.
pub struct InitShardsPlanView {
    pub requests: Seq<InitShardsRequestView>,
    pub failures: Seq<InitShardFailureView>,
}

impl View for InitShardsPlan {
    type V = InitShardsPlanView;

    open spec fn view(&self) -> InitShardsPlanView {
        InitShardsPlanView { requests: views(self.requests@), failures: views(self.failures@) }
    }
}

/// How a request to a leader ended.
#[derive(Debug, PartialEq, Eq)]
pub enum InitShardsOutcome {
    /// The leader answered.
    Completed(InitShardsResponse),
    /// The request failed.
    Failed,
    /// No answer came in time.
    TimedOut,
}

/// What a value of `InitShardsOutcome` stands for.
pub enum InitShardsOutcomeView {
    Completed(InitShardsResponseView),
    Failed,
    TimedOut,
}

impl View for InitShardsOutcome {
    type V = InitShardsOutcomeView;

    open spec fn view(&self) -> InitShardsOutcomeView {
        match self {
            InitShardsOutcome::Completed(response) => InitShardsOutcomeView::Completed(response@),
            InitShardsOutcome::Failed => InitShardsOutcomeView::Failed,
            InitShardsOutcome::TimedOut => InitShardsOutcomeView::TimedOut,
        }
    }
}

/// The failure of one shard.
pub open spec fn failure_of(subrequest: SubrequestShardView) -> InitShardFailureView {
    InitShardFailureView {
        subrequest_id: subrequest.subrequest_id,
        source_uid: subrequest.shard.source_uid,
        shard_id: subrequest.shard.shard_id,
    }
}

/// The failures of all the shards of a request.
pub open spec fn failures_of(subrequests: Seq<SubrequestShardView>) -> Seq<InitShardFailureView> {
    Seq::new(subrequests.len(), |k: int| failure_of(subrequests[k]))
}

/// The leaders of the shards.
pub open spec fn leaders_of(subresponses: Seq<SubrequestShardView>) -> Seq<Seq<char>> {
    Seq::new(subresponses.len(), |i: int| subresponses[i].shard.leader_id)
}

/// The items that stand at `places`.
pub open spec fn items_at<T>(items: Seq<T>, places: Seq<usize>) -> Seq<T> {
    Seq::new(places.len(), |k: int| items[places[k] as int])
}

/// What is to be done for the groups `groups` of the shards `subresponses`,
/// given the live ingesters `pool`.
pub open spec fn init_plan(
    subresponses: Seq<SubrequestShardView>,
    groups: Seq<LeaderGroupView>,
    pool: Set<Seq<char>>,
) -> InitShardsPlanView
    decreases groups.len(),
{
    if groups.len() == 0 {
        InitShardsPlanView { requests: Seq::empty(), failures: Seq::empty() }
    } else {
        let plan = init_plan(subresponses, groups.drop_last(), pool);
        let group = groups.last();
        let subrequests = items_at(subresponses, group.places);
        if pool.contains(group.leader_id) {
            InitShardsPlanView {
                requests: plan.requests.push(
                    InitShardsRequestView { leader_id: group.leader_id, subrequests },
                ),
                ..plan
            }
        } else {
            InitShardsPlanView { failures: plan.failures + failures_of(subrequests), ..plan }
        }
    }
}

/// How the request at place `i` ended. A request without an outcome has got
/// no answer.
pub open spec fn outcome_at(outcomes: Seq<InitShardsOutcomeView>, i: int) -> InitShardsOutcomeView {
    if 0 <= i < outcomes.len() {
        outcomes[i]
    } else {
        InitShardsOutcomeView::TimedOut
    }
}

/// What has become of the shards, given how the requests ended.
pub open spec fn init_result(
    failures: Seq<InitShardFailureView>,
    requests: Seq<InitShardsRequestView>,
    outcomes: Seq<InitShardsOutcomeView>,
) -> InitShardsResponseView
    decreases requests.len(),
{
    if requests.len() == 0 {
        InitShardsResponseView { successes: Seq::empty(), failures }
    } else {
        let before = init_result(failures, requests.drop_last(), outcomes);
        match outcome_at(outcomes, requests.len() - 1) {
            InitShardsOutcomeView::Completed(response) => InitShardsResponseView {
                successes: before.successes + response.successes,
                failures: before.failures + response.failures,
            },
            _ => InitShardsResponseView {
                failures: before.failures + failures_of(requests.last().subrequests),
                ..before
            },
        }
    }
}

fn init_failure(subrequest: &InitShardSubrequest) -> (failure: InitShardFailure)
    ensures
        failure@ == failure_of(subrequest@),
{
    InitShardFailure {
        subrequest_id: subrequest.subrequest_id,
        source_uid: subrequest.shard.source_uid.clone(),
        shard_id: subrequest.shard.shard_id.clone(),
    }
}

/// Adds to `failures` the failure of each shard of `subrequests`.
fn push_failures(failures: &mut Vec<InitShardFailure>, subrequests: &Vec<InitShardSubrequest>)
    ensures
        views(final(failures)@) == views(old(failures)@) + failures_of(views(subrequests@)),
{
    let ghost before = views(failures@);
    let ghost added = failures_of(views(subrequests@));
    let mut k: usize = 0;
    while k < subrequests.len()
        invariant
            k <= subrequests.len(),
            added == failures_of(views(subrequests@)),
            views(failures@) == before + added.take(k as int),
        decreases subrequests.len() - k,
    {
        let failure = init_failure(&subrequests[k]);
        proof {
            lemma_views_push(failures@, failure);
            assert(before + added.take(k + 1) =~= (before + added.take(k as int)).push(failure@));
        }
        failures.push(failure);
        k += 1;
    }
    proof {
        assert(added.take(subrequests.len() as int) =~= added);
    }
}

/// Adds copies of `more` to `successes`.
fn push_successes(successes: &mut Vec<InitShardSuccess>, more: &Vec<InitShardSuccess>)
    ensures
        views(final(successes)@) == views(old(successes)@) + views(more@),
{
    let ghost before = views(successes@);
    let ghost added = views(more@);
    let mut k: usize = 0;
    while k < more.len()
        invariant
            k <= more.len(),
            added == views(more@),
            views(successes@) == before + added.take(k as int),
        decreases more.len() - k,
    {
        let success = more[k].clone();
        proof {
            lemma_views_push(successes@, success);
            assert(before + added.take(k + 1) =~= (before + added.take(k as int)).push(success@));
        }
        successes.push(success);
        k += 1;
    }
    proof {
        assert(added.take(more.len() as int) =~= added);
    }
}

/// Adds copies of `more` to `failures`.
fn push_reported_failures(failures: &mut Vec<InitShardFailure>, more: &Vec<InitShardFailure>)
    ensures
        views(final(failures)@) == views(old(failures)@) + views(more@),
{
    let ghost before = views(failures@);
    let ghost added = views(more@);
    let mut k: usize = 0;
    while k < more.len()
        invariant
            k <= more.len(),
            added == views(more@),
            views(failures@) == before + added.take(k as int),
        decreases more.len() - k,
    {
        let failure = more[k].clone();
        proof {
            lemma_views_push(failures@, failure);
            assert(before + added.take(k + 1) =~= (before + added.take(k as int)).push(failure@));
        }
        failures.push(failure);
        k += 1;
    }
    proof {
        assert(added.take(more.len() as int) =~= added);
    }
}

impl IngestController {
    /// Says which leaders are to be asked to initialize which of the shards
    /// that the metastore has opened, and which shards have failed already
    /// because their leader is not alive.
    pub fn plan_init_shards(&self, subresponses: &Vec<OpenShardSubresponse>) -> (plan: InitShardsPlan)
        requires
            self.wf(),
        ensures
            plan@ == init_plan(
                views(subresponses@),
                leader_groups(leaders_of(views(subresponses@))),
                self.ingesters(),
            ),
    {
        let ghost shards = views(subresponses@);
        let mut leader_ids: Vec<NodeId> = Vec::new();
        let mut i: usize = 0;
        while i < subresponses.len()
            invariant
                i <= subresponses.len(),
                leader_ids.len() == i,
                forall|j: int| 0 <= j < i ==> (#[trigger] leader_ids[j])@ == subresponses[j]@.shard.leader_id,
            decreases subresponses.len() - i,
        {
            leader_ids.push(subresponses[i].shard.leader_id.clone());
            i += 1;
        }
        proof {
            assert(views(leader_ids@) =~= leaders_of(shards));
        }
        let groups = group_by_leader(&leader_ids);
        let ghost all_groups = views(groups@);
        let mut requests: Vec<InitShardsRequest> = Vec::new();
        let mut failures: Vec<InitShardFailure> = Vec::new();
        let mut g: usize = 0;
        proof {
            assert(views(requests@) =~= Seq::empty());
            assert(views(failures@) =~= Seq::empty());
            assert(all_groups.take(0) =~= Seq::empty());
        }
        while g < groups.len()
            invariant
                g <= groups.len(),
                self.wf(),
                shards == views(subresponses@),
                all_groups == views(groups@),
                leader_ids.len() == subresponses.len(),
                forall|h: int, k: int|
                    0 <= h < groups.len() && 0 <= k < groups[h].places.len() ==> (
                    #[trigger] groups[h].places[k]) < leader_ids.len(),
                (InitShardsPlanView { requests: views(requests@), failures: views(failures@) })
                    == init_plan(shards, all_groups.take(g as int), self.ingesters()),
            decreases groups.len() - g,
        {
            let group = &groups[g];
            let mut subrequests: Vec<InitShardSubrequest> = Vec::new();
            let mut k: usize = 0;
            while k < group.places.len()
                invariant
                    k <= group.places.len(),
                    shards == views(subresponses@),
                    forall|k: int| 0 <= k < group.places.len() ==> (#[trigger] group.places[k]) < subresponses.len(),
                    subrequests.len() == k,
                    forall|j: int| 0 <= j < k ==> (#[trigger] subrequests[j])@ == shards[group.places[j] as int],
                decreases group.places.len() - k,
            {
                subrequests.push(subresponses[group.places[k]].clone());
                k += 1;
            }
            proof {
                assert(views(subrequests@) =~= items_at(shards, group@.places));
                assert(all_groups.take(g + 1).drop_last() =~= all_groups.take(g as int));
                assert(all_groups.take(g + 1).last() == group@);
            }
            if self.ingester_pool().contains_key(group.leader_id.as_str()) {
                let request = InitShardsRequest { leader_id: group.leader_id.clone(), subrequests };
                proof {
                    lemma_views_push(requests@, request);
                }
                requests.push(request);
            } else {
                push_failures(&mut failures, &subrequests);
            }
            g += 1;
        }
        proof {
            assert(all_groups.take(groups.len() as int) =~= all_groups);
        }
        InitShardsPlan { requests, failures }
    }
}

/// Puts together what has become of the shards of `plan`. `outcomes` says,
/// request by request, how the requests of the plan ended.
pub fn collect_init_shards(plan: InitShardsPlan, outcomes: &Vec<InitShardsOutcome>) -> (response:
    InitShardsResponse)
    ensures
        response@ == init_result(plan@.failures, plan@.requests, views(outcomes@)),
{
    let ghost requests = views(plan.requests@);
    let ghost results = views(outcomes@);
    let ghost failed = views(plan.failures@);
    let mut successes: Vec<InitShardSuccess> = Vec::new();
    let mut failures: Vec<InitShardFailure> = plan.failures;
    let mut i: usize = 0;
    proof {
        assert(views(successes@) =~= Seq::empty());
    }
    while i < plan.requests.len()
        invariant
            i <= plan.requests.len(),
            requests == views(plan.requests@),
            results == views(outcomes@),
            (InitShardsResponseView { successes: views(successes@), failures: views(failures@) })
                == init_result(failed, requests.take(i as int), results),
        decreases plan.requests.len() - i,
    {
        proof {
            assert(requests.take(i + 1).drop_last() =~= requests.take(i as int));
            assert(requests.take(i + 1).last() == plan.requests[i as int]@);
        }
        if i < outcomes.len() {
            match &outcomes[i] {
                InitShardsOutcome::Completed(response) => {
                    push_successes(&mut successes, &response.successes);
                    push_reported_failures(&mut failures, &response.failures);
                },
                _ => {
                    push_failures(&mut failures, &plan.requests[i].subrequests);
                },
            }
        } else {
            push_failures(&mut failures, &plan.requests[i].subrequests);
        }
        i += 1;
    }
    proof {
        assert(requests.take(plan.requests.len() as int) =~= requests);
    }
    InitShardsResponse { successes, failures }
}

} // verus!
