//! What the controller receives and sends.

use crate::shard_table::{ShardInfo, ShardInfoView};
use crate::types::{
    clone_name_opt, clone_names, view_opt, views, IndexId, NodeId, Position, Shard, ShardId,
    ShardView, SourceId, SourceUid, SourceUidView,
};
use vstd::prelude::*;

verus! {

/// Shards of one source, by their ids.
#[derive(Debug, PartialEq, Eq)]
pub struct ShardIds {
    pub source_uid: SourceUid,
    pub shard_ids: Vec<ShardId>,
}

/// What a value of `ShardIds` stands for.
pub struct ShardIdsView {
    pub source_uid: SourceUidView,
    pub shard_ids: Seq<Seq<char>>,
}

impl View for ShardIds {
    type V = ShardIdsView;

    open spec fn view(&self) -> ShardIdsView {
        ShardIdsView { source_uid: self.source_uid@, shard_ids: views(self.shard_ids@) }
    }
}

impl Clone for ShardIds {
    fn clone(&self) -> (copy: Self)
        ensures
            copy@ == self@,
    {
        ShardIds { source_uid: self.source_uid.clone(), shard_ids: clone_names(&self.shard_ids) }
    }
}

/// The shards that an ingester is to keep for one source.
pub type RetainShardsForSource = ShardIds;

/// One shard among all the shards.
#[derive(Debug, PartialEq, Eq)]
pub struct ShardPKey {
    pub source_uid: SourceUid,
    pub shard_id: ShardId,
}

/// What a value of `ShardPKey` stands for.
pub struct ShardPKeyView {
    pub source_uid: SourceUidView,
    pub shard_id: Seq<char>,
}

impl View for ShardPKey {
    type V = ShardPKeyView;

    open spec fn view(&self) -> ShardPKeyView {
        ShardPKeyView { source_uid: self.source_uid@, shard_id: self.shard_id@ }
    }
}

impl Clone for ShardPKey {
    fn clone(&self) -> (copy: Self)
        ensures
            copy@ == self@,
    {
        ShardPKey { source_uid: self.source_uid.clone(), shard_id: self.shard_id.clone() }
    }
}

/// A router asks for the open shards of one source.
#[derive(Debug, PartialEq, Eq)]
pub struct GetOrCreateOpenShardsSubrequest {
    pub subrequest_id: u32,
    pub index_id: IndexId,
    pub source_id: SourceId,
}

/// What a value of `GetOrCreateOpenShardsSubrequest` stands for.
pub struct GetOrCreateOpenShardsSubrequestView {
    pub subrequest_id: u32,
    pub index_id: Seq<char>,
    pub source_id: Seq<char>,
}

impl View for GetOrCreateOpenShardsSubrequest {
    type V = GetOrCreateOpenShardsSubrequestView;

    open spec fn view(&self) -> GetOrCreateOpenShardsSubrequestView {
        GetOrCreateOpenShardsSubrequestView {
            subrequest_id: self.subrequest_id,
            index_id: self.index_id@,
            source_id: self.source_id@,
        }
    }
}

/// What a router asks and reports in one call: the sources whose open
/// shards it wants, the shards that it saw closed, and the leaders that it
/// could not reach.
#[derive(Debug, PartialEq, Eq)]
pub struct GetOrCreateOpenShardsRequest {
    pub subrequests: Vec<GetOrCreateOpenShardsSubrequest>,
    pub closed_shards: Vec<ShardIds>,
    pub unavailable_leaders: Vec<NodeId>,
}

/// What a value of `GetOrCreateOpenShardsRequest` stands for.
pub struct GetOrCreateOpenShardsRequestView {
    pub subrequests: Seq<GetOrCreateOpenShardsSubrequestView>,
    pub closed_shards: Seq<ShardIdsView>,
    pub unavailable_leaders: Seq<Seq<char>>,
}

impl View for GetOrCreateOpenShardsRequest {
    type V = GetOrCreateOpenShardsRequestView;

    open spec fn view(&self) -> GetOrCreateOpenShardsRequestView {
        GetOrCreateOpenShardsRequestView {
            subrequests: views(self.subrequests@),
            closed_shards: views(self.closed_shards@),
            unavailable_leaders: views(self.unavailable_leaders@),
        }
    }
}

/// The open shards of the source of one subrequest.
#[derive(Debug, PartialEq, Eq)]
pub struct GetOrCreateOpenShardsSuccess {
    pub subrequest_id: u32,
    pub source_uid: SourceUid,
    pub open_shards: Vec<Shard>,
}

/// What a value of `GetOrCreateOpenShardsSuccess` stands for.
pub struct GetOrCreateOpenShardsSuccessView {
    pub subrequest_id: u32,
    pub source_uid: SourceUidView,
    pub open_shards: Seq<ShardView>,
}

impl View for GetOrCreateOpenShardsSuccess {
    type V = GetOrCreateOpenShardsSuccessView;

    open spec fn view(&self) -> GetOrCreateOpenShardsSuccessView {
        GetOrCreateOpenShardsSuccessView {
            subrequest_id: self.subrequest_id,
            source_uid: self.source_uid@,
            open_shards: views(self.open_shards@),
        }
    }
}

/// Why a subrequest got no open shards.
#[derive(Clone, Copy, Debug, PartialEq, Eq, Structural)]
pub enum GetOrCreateOpenShardsFailureReason {
    IndexNotFound,
    SourceNotFound,
    NoIngestersAvailable,
}

/// A subrequest that got no open shards.
#[derive(Debug, PartialEq, Eq)]
pub struct GetOrCreateOpenShardsFailure {
    pub subrequest_id: u32,
    pub index_id: IndexId,
    pub source_id: SourceId,
    pub reason: GetOrCreateOpenShardsFailureReason,
}

/// What a value of `GetOrCreateOpenShardsFailure` stands for.
pub struct GetOrCreateOpenShardsFailureView {
    pub subrequest_id: u32,
    pub index_id: Seq<char>,
    pub source_id: Seq<char>,
    pub reason: GetOrCreateOpenShardsFailureReason,
}

impl View for GetOrCreateOpenShardsFailure {
    type V = GetOrCreateOpenShardsFailureView;

    open spec fn view(&self) -> GetOrCreateOpenShardsFailureView {
        GetOrCreateOpenShardsFailureView {
            subrequest_id: self.subrequest_id,
            index_id: self.index_id@,
            source_id: self.source_id@,
            reason: self.reason,
        }
    }
}

/// The answer to a router.
#[derive(Debug, PartialEq, Eq)]
pub struct GetOrCreateOpenShardsResponse {
    pub successes: Vec<GetOrCreateOpenShardsSuccess>,
    pub failures: Vec<GetOrCreateOpenShardsFailure>,
}

/// What a value of `GetOrCreateOpenShardsResponse` stands for.
pub struct GetOrCreateOpenShardsResponseView {
    pub successes: Seq<GetOrCreateOpenShardsSuccessView>,
    pub failures: Seq<GetOrCreateOpenShardsFailureView>,
}

impl View for GetOrCreateOpenShardsResponse {
    type V = GetOrCreateOpenShardsResponseView;

    open spec fn view(&self) -> GetOrCreateOpenShardsResponseView {
        GetOrCreateOpenShardsResponseView {
            successes: views(self.successes@),
            failures: views(self.failures@),
        }
    }
}

/// The metastore is asked to open one shard.
#[derive(Debug, PartialEq, Eq)]
pub struct OpenShardSubrequest {
    pub subrequest_id: u32,
    pub source_uid: SourceUid,
    pub shard_id: ShardId,
    pub leader_id: NodeId,
    pub follower_id: Option<NodeId>,
}

/// What a value of `OpenShardSubrequest` stands for.
pub struct OpenShardSubrequestView {
    pub subrequest_id: u32,
    pub source_uid: SourceUidView,
    pub shard_id: Seq<char>,
    pub leader_id: Seq<char>,
    pub follower_id: Option<Seq<char>>,
}

impl View for OpenShardSubrequest {
    type V = OpenShardSubrequestView;

    open spec fn view(&self) -> OpenShardSubrequestView {
        OpenShardSubrequestView {
            subrequest_id: self.subrequest_id,
            source_uid: self.source_uid@,
            shard_id: self.shard_id@,
            leader_id: self.leader_id@,
            follower_id: view_opt(self.follower_id),
        }
    }
}

impl Clone for OpenShardSubrequest {
    fn clone(&self) -> (copy: Self)
        ensures
            copy@ == self@,
    {
        OpenShardSubrequest {
            subrequest_id: self.subrequest_id,
            source_uid: self.source_uid.clone(),
            shard_id: self.shard_id.clone(),
            leader_id: self.leader_id.clone(),
            follower_id: clone_name_opt(&self.follower_id),
        }
    }
}

/// A shard under the number of the subrequest that it answers or makes up.
#[derive(Debug, PartialEq, Eq)]
pub struct SubrequestShard {
    pub subrequest_id: u32,
    pub shard: Shard,
}

/// What a value of `SubrequestShard` stands for.
pub struct SubrequestShardView {
    pub subrequest_id: u32,
    pub shard: ShardView,
}

impl View for SubrequestShard {
    type V = SubrequestShardView;

    open spec fn view(&self) -> SubrequestShardView {
        SubrequestShardView { subrequest_id: self.subrequest_id, shard: self.shard@ }
    }
}

impl Clone for SubrequestShard {
    fn clone(&self) -> (copy: Self)
        ensures
            copy@ == self@,
    {
        SubrequestShard { subrequest_id: self.subrequest_id, shard: self.shard.clone() }
    }
}

/// The metastore has opened the shard.
pub type OpenShardSubresponse = SubrequestShard;

/// A leader is asked to initialize the shard.
pub type InitShardSubrequest = SubrequestShard;

/// The leader has initialized the shard.
pub type InitShardSuccess = SubrequestShard;

/// A shard that its leader has not initialized.
#[derive(Debug, PartialEq, Eq)]
pub struct InitShardFailure {
    pub subrequest_id: u32,
    pub source_uid: SourceUid,
    pub shard_id: ShardId,
}

/// What a value of `InitShardFailure` stands for.
pub struct InitShardFailureView {
    pub subrequest_id: u32,
    pub source_uid: SourceUidView,
    pub shard_id: Seq<char>,
}

impl View for InitShardFailure {
    type V = InitShardFailureView;

    open spec fn view(&self) -> InitShardFailureView {
        InitShardFailureView {
            subrequest_id: self.subrequest_id,
            source_uid: self.source_uid@,
            shard_id: self.shard_id@,
        }
    }
}

impl Clone for InitShardFailure {
    fn clone(&self) -> (copy: Self)
        ensures
            copy@ == self@,
    {
        InitShardFailure {
            subrequest_id: self.subrequest_id,
            source_uid: self.source_uid.clone(),
            shard_id: self.shard_id.clone(),
        }
    }
}

/// What the leaders have made of the shards that they were asked to
/// initialize.
#[derive(Debug, PartialEq, Eq)]
pub struct InitShardsResponse {
    pub successes: Vec<InitShardSuccess>,
    pub failures: Vec<InitShardFailure>,
}

/// What a value of `InitShardsResponse` stands for.
pub struct InitShardsResponseView {
    pub successes: Seq<SubrequestShardView>,
    pub failures: Seq<InitShardFailureView>,
}

impl View for InitShardsResponse {
    type V = InitShardsResponseView;

    open spec fn view(&self) -> InitShardsResponseView {
        InitShardsResponseView {
            successes: views(self.successes@),
            failures: views(self.failures@),
        }
    }
}

/// How far a shard has been published.
#[derive(Debug, PartialEq, Eq)]
pub struct ShardIdPosition {
    pub shard_id: ShardId,
    pub publish_position_inclusive: Position,
}

/// What a value of `ShardIdPosition` stands for.
pub struct ShardIdPositionView {
    pub shard_id: Seq<char>,
    pub publish_position_inclusive: Position,
}

impl View for ShardIdPosition {
    type V = ShardIdPositionView;

    open spec fn view(&self) -> ShardIdPositionView {
        ShardIdPositionView {
            shard_id: self.shard_id@,
            publish_position_inclusive: self.publish_position_inclusive,
        }
    }
}

/// How far shards of one source have been published.
#[derive(Debug, PartialEq, Eq)]
pub struct ShardIdPositions {
    pub source_uid: SourceUid,
    pub shard_positions: Vec<ShardIdPosition>,
}

/// What a value of `ShardIdPositions` stands for.
pub struct ShardIdPositionsView {
    pub source_uid: SourceUidView,
    pub shard_positions: Seq<ShardIdPositionView>,
}

impl View for ShardIdPositions {
    type V = ShardIdPositionsView;

    open spec fn view(&self) -> ShardIdPositionsView {
        ShardIdPositionsView {
            source_uid: self.source_uid@,
            shard_positions: views(self.shard_positions@),
        }
    }
}

/// What an ingester is advised to do with the shards that it asked about.
#[derive(Debug, PartialEq, Eq)]
pub struct AdviseResetShardsResponse {
    /// The shards to discard.
    pub shards_to_delete: Vec<ShardIds>,
    /// The shards to drop up to a position.
    pub shards_to_truncate: Vec<ShardIdPositions>,
}

/// What a value of `AdviseResetShardsResponse` stands for.
pub struct AdviseResetShardsResponseView {
    pub shards_to_delete: Seq<ShardIdsView>,
    pub shards_to_truncate: Seq<ShardIdPositionsView>,
}

impl View for AdviseResetShardsResponse {
    type V = AdviseResetShardsResponseView;

    open spec fn view(&self) -> AdviseResetShardsResponseView {
        AdviseResetShardsResponseView {
            shards_to_delete: views(self.shards_to_delete@),
            shards_to_truncate: views(self.shards_to_truncate@),
        }
    }
}

/// What an ingester reports of its shards of one source.
#[derive(Debug, PartialEq, Eq)]
pub struct LocalShardsUpdate {
    pub leader_id: NodeId,
    pub source_uid: SourceUid,
    pub shard_infos: Vec<ShardInfo>,
}

/// What a value of `LocalShardsUpdate` stands for.
pub struct LocalShardsUpdateView {
    pub leader_id: Seq<char>,
    pub source_uid: SourceUidView,
    pub shard_infos: Seq<ShardInfoView>,
}

impl View for LocalShardsUpdate {
    type V = LocalShardsUpdateView;

    open spec fn view(&self) -> LocalShardsUpdateView {
        LocalShardsUpdateView {
            leader_id: self.leader_id@,
            source_uid: self.source_uid@,
            shard_infos: views(self.shard_infos@),
        }
    }
}

} // verus!
