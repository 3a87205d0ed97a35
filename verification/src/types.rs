//! Identifiers, shards and what is known of them.

use vstd::prelude::*;

verus! {

/// Identifier of an ingester node.
pub type NodeId = String;

/// Identifier of an index, without its incarnation.
pub type IndexId = String;

/// Identifier of a source inside an index.
pub type SourceId = String;

/// Identifier of a shard. Shard ids are minted in increasing order, so the
/// lowest id of a set of shards belongs to the oldest of them.
pub type ShardId = String;

/// The views of the items of a sequence.
pub open spec fn views<T: View>(items: Seq<T>) -> Seq<T::V> {
    Seq::new(items.len(), |i: int| items[i]@)
}

/// The views of a list with one more item are the views of the list with
/// one more view.
pub proof fn lemma_views_push<T: View>(items: Seq<T>, item: T)
    ensures
        views(items.push(item)) == views(items).push(item@),
{
    assert(views(items.push(item)) =~= views(items).push(item@));
}

/// The view of an optional item.
pub open spec fn view_opt<T: View>(item: Option<T>) -> Option<T::V> {
    match item {
        Some(item) => Some(item@),
        None => None,
    }
}

/// Copies a list of identifiers.
pub fn clone_names(names: &Vec<String>) -> (copy: Vec<String>)
    ensures
        views(copy@) == views(names@),
{
    let mut copy: Vec<String> = Vec::new();
    let mut i: usize = 0;
    while i < names.len()
        invariant
            i <= names.len(),
            copy.len() == i,
            forall|j: int| 0 <= j < i ==> copy[j]@ == names[j]@,
        decreases names.len() - i,
    {
        copy.push(names[i].clone());
        i += 1;
    }
    proof {
        assert(views(copy@) =~= views(names@));
    }
    copy
}

/// Copies an optional identifier.
pub fn clone_name_opt(name: &Option<String>) -> (copy: Option<String>)
    ensures
        view_opt(copy) == view_opt(*name),
{
    match name {
        Some(name) => Some(name.clone()),
        None => None,
    }
}

/// One incarnation of an index.
#[derive(Debug, PartialEq, Eq)]
pub struct IndexUid {
    pub index_id: IndexId,
    pub incarnation_id: u128,
}

/// What a value of `IndexUid` stands for.
pub struct IndexUidView {
    pub index_id: Seq<char>,
    pub incarnation_id: u128,
}

impl View for IndexUid {
    type V = IndexUidView;

    open spec fn view(&self) -> IndexUidView {
        IndexUidView { index_id: self.index_id@, incarnation_id: self.incarnation_id }
    }
}

impl Clone for IndexUid {
    fn clone(&self) -> (copy: Self)
        ensures
            copy@ == self@,
    {
        IndexUid { index_id: self.index_id.clone(), incarnation_id: self.incarnation_id }
    }
}

impl IndexUid {
    pub fn new(index_id: &str, incarnation_id: u128) -> (index_uid: Self)
        ensures
            index_uid@ == (IndexUidView { index_id: index_id@, incarnation_id }),
    {
        IndexUid { index_id: index_id.to_owned(), incarnation_id }
    }

    /// Whether both name the same incarnation of the same index.
    pub fn same_as(&self, other: &IndexUid) -> (same: bool)
        ensures
            same == (self@ == other@),
    {
        self.incarnation_id == other.incarnation_id && self.index_id == other.index_id
    }
}

/// One ingestion stream: a source inside an index.
#[derive(Debug, PartialEq, Eq)]
pub struct SourceUid {
    pub index_uid: IndexUid,
    pub source_id: SourceId,
}

/// What a value of `SourceUid` stands for.
pub struct SourceUidView {
    pub index_uid: IndexUidView,
    pub source_id: Seq<char>,
}

impl View for SourceUid {
    type V = SourceUidView;

    open spec fn view(&self) -> SourceUidView {
        SourceUidView { index_uid: self.index_uid@, source_id: self.source_id@ }
    }
}

impl Clone for SourceUid {
    fn clone(&self) -> (copy: Self)
        ensures
            copy@ == self@,
    {
        SourceUid { index_uid: self.index_uid.clone(), source_id: self.source_id.clone() }
    }
}

impl SourceUid {
    /// Whether both name the same source.
    pub fn same_as(&self, other: &SourceUid) -> (same: bool)
        ensures
            same == (self@ == other@),
    {
        self.index_uid.same_as(&other.index_uid) && self.source_id == other.source_id
    }
}

/// State of a shard. A closed shard stays closed.
#[derive(Clone, Copy, Debug, PartialEq, Eq, Structural)]
pub enum ShardState {
    Unspecified,
    /// The shard accepts writes.
    Open,
    /// The leader of the shard has left the pool and may come back.
    Unavailable,
    /// The shard accepts no more writes.
    Closed,
}

/// A position in the stream of a shard.
#[derive(Clone, Copy, Debug, PartialEq, Eq, Structural)]
pub enum Position {
    Beginning,
    Offset(u64),
    Eof(Option<u64>),
}

/// An ordered partition of the ingest stream of a source, owned by its leader.
#[derive(Debug, PartialEq, Eq)]
pub struct Shard {
    pub source_uid: SourceUid,
    pub shard_id: ShardId,
    pub shard_state: ShardState,
    pub leader_id: NodeId,
    pub follower_id: Option<NodeId>,
    pub publish_position_inclusive: Position,
}

/// What a value of `Shard` stands for.
pub struct ShardView {
    pub source_uid: SourceUidView,
    pub shard_id: Seq<char>,
    pub shard_state: ShardState,
    pub leader_id: Seq<char>,
    pub follower_id: Option<Seq<char>>,
    pub publish_position_inclusive: Position,
}

impl View for Shard {
    type V = ShardView;

    open spec fn view(&self) -> ShardView {
        ShardView {
            source_uid: self.source_uid@,
            shard_id: self.shard_id@,
            shard_state: self.shard_state,
            leader_id: self.leader_id@,
            follower_id: view_opt(self.follower_id),
            publish_position_inclusive: self.publish_position_inclusive,
        }
    }
}

impl Clone for Shard {
    fn clone(&self) -> (copy: Self)
        ensures
            copy@ == self@,
    {
        Shard {
            source_uid: self.source_uid.clone(),
            shard_id: self.shard_id.clone(),
            shard_state: self.shard_state,
            leader_id: self.leader_id.clone(),
            follower_id: clone_name_opt(&self.follower_id),
            publish_position_inclusive: self.publish_position_inclusive,
        }
    }
}

impl Shard {
    /// An open shard of `source_uid` without follower, at the beginning of
    /// its stream.
    pub fn open(source_uid: &SourceUid, shard_id: &str, leader_id: &str) -> (shard: Self)
        ensures
            shard@ == (ShardView {
                source_uid: source_uid@,
                shard_id: shard_id@,
                shard_state: ShardState::Open,
                leader_id: leader_id@,
                follower_id: None,
                publish_position_inclusive: Position::Beginning,
            }),
    {
        Shard {
            source_uid: source_uid.clone(),
            shard_id: shard_id.to_owned(),
            shard_state: ShardState::Open,
            leader_id: leader_id.to_owned(),
            follower_id: None,
            publish_position_inclusive: Position::Beginning,
        }
    }
}

} // verus!
