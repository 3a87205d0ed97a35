//! What the control plane knows of the indexes, their sources and shards.

use crate::names::same_name;
use crate::node_set::names_in;
use crate::messages::{ShardIds, ShardIdsView};
use crate::shard_table::{
    ids_to_close, is_hosted_by, is_open_outside, lemma_with_shards_wf, permits_limit, shard_ids_of,
    ScalingMode, ShardEntry, ShardEntryView, ShardInfo, ShardInfoView, ShardStats, ShardTableEntry,
    ShardTableEntryView,
};
use crate::types::{
    lemma_views_push, views, IndexUid, IndexUidView, NodeId, Shard, ShardId, ShardView, SourceUid,
    SourceUidView,
};
use fnv::FnvHashSet;
use vstd::prelude::*;

verus! {

/// The indexes and, source by source, the shards that the control plane
/// knows.
#[derive(Debug)]
pub struct ControlPlaneModel {
    index_uids: Vec<IndexUid>,
    shard_table: Vec<ShardTableEntry>,
}

/// What a value of `ControlPlaneModel` stands for.
pub struct ModelView {
    pub index_uids: Seq<IndexUidView>,
    pub shard_table: Seq<ShardTableEntryView>,
}

/// The shards of the sources of `tables`, source after source.
pub open spec fn shards_of(tables: Seq<ShardTableEntryView>) -> Seq<ShardEntryView>
    decreases tables.len(),
{
    if tables.len() == 0 {
        Seq::empty()
    } else {
        shards_of(tables.drop_last()) + tables.last().shard_entries
    }
}

/// The shards that `node_id` leads or follows, source after source. A
/// source of which it hosts no shard is left out.
pub open spec fn hosted_shards(tables: Seq<ShardTableEntryView>, node_id: Seq<char>) -> Seq<
    ShardIdsView,
>
    decreases tables.len(),
{
    if tables.len() == 0 {
        Seq::empty()
    } else {
        let before = hosted_shards(tables.drop_last(), node_id);
        let shard_ids = shard_ids_of(tables.last().shard_entries.filter(is_hosted_by(node_id)));
        if shard_ids.len() > 0 {
            before.push(ShardIdsView { source_uid: tables.last().source_uid, shard_ids })
        } else {
            before
        }
    }
}

impl View for ControlPlaneModel {
    type V = ModelView;

    closed spec fn view(&self) -> ModelView {
        ModelView { index_uids: views(self.index_uids@), shard_table: views(self.shard_table@) }
    }
}

impl ModelView {
    /// Each index id and each source stands once; the shards of each source
    /// are in order.
    pub open spec fn wf(self) -> bool {
        &&& forall|i: int, j: int|
            0 <= i < j < self.index_uids.len() ==> (#[trigger] self.index_uids[i]).index_id != (
            #[trigger] self.index_uids[j]).index_id
        &&& forall|i: int, j: int|
            0 <= i < j < self.shard_table.len() ==> (#[trigger] self.shard_table[i]).source_uid != (
            #[trigger] self.shard_table[j]).source_uid
        &&& forall|i: int| 0 <= i < self.shard_table.len() ==> (#[trigger] self.shard_table[i]).wf()
    }

    /// The model that knows nothing.
    pub open spec fn empty() -> ModelView {
        ModelView { index_uids: Seq::empty(), shard_table: Seq::empty() }
    }

    pub open spec fn has_index(self, index_id: Seq<char>) -> bool {
        exists|i: int|
            0 <= i < self.index_uids.len() && (#[trigger] self.index_uids[i]).index_id == index_id
    }

    /// The incarnation of the index `index_id`, where the model knows one.
    pub open spec fn index_uid(self, index_id: Seq<char>) -> IndexUidView {
        let i = choose|i: int|
            0 <= i < self.index_uids.len() && (#[trigger] self.index_uids[i]).index_id == index_id;
        self.index_uids[i]
    }

    pub open spec fn has_source(self, source_uid: SourceUidView) -> bool {
        exists|i: int|
            0 <= i < self.shard_table.len() && (#[trigger] self.shard_table[i]).source_uid
                == source_uid
    }

    /// The shards of the source `source_uid`, where the model knows it.
    pub open spec fn source(self, source_uid: SourceUidView) -> ShardTableEntryView {
        let i = choose|i: int|
            0 <= i < self.shard_table.len() && (#[trigger] self.shard_table[i]).source_uid
                == source_uid;
        self.shard_table[i]
    }

    /// All the shards, source after source.
    pub open spec fn all_shards(self) -> Seq<ShardEntryView> {
        shards_of(self.shard_table)
    }

    /// The model in which `change` was made to the source `source_uid`.
    pub open spec fn map_source(
        self,
        source_uid: SourceUidView,
        change: spec_fn(ShardTableEntryView) -> ShardTableEntryView,
    ) -> ModelView {
        ModelView {
            shard_table: Seq::new(
                self.shard_table.len(),
                |i: int|
                    if self.shard_table[i].source_uid == source_uid {
                        change(self.shard_table[i])
                    } else {
                        self.shard_table[i]
                    },
            ),
            ..self
        }
    }

    /// The model with the index `index_uid`, unless it knows one of that id.
    pub open spec fn with_index(self, index_uid: IndexUidView) -> ModelView {
        if self.has_index(index_uid.index_id) {
            self
        } else {
            ModelView { index_uids: self.index_uids.push(index_uid), ..self }
        }
    }

    /// The model with the source `source_uid`, without shards if it is new.
    pub open spec fn with_source(self, source_uid: SourceUidView) -> ModelView {
        if self.has_source(source_uid) {
            self
        } else {
            ModelView {
                shard_table: self.shard_table.push(ShardTableEntryView::empty(source_uid)),
                ..self
            }
        }
    }

    /// The model with the shards `shards` of the source `source_uid`. Those
    /// whose id the source has already are left as the model has them.
    pub open spec fn with_shards(self, source_uid: SourceUidView, shards: Seq<ShardView>) -> ModelView {
        self.with_source(source_uid).map_source(
            source_uid,
            |table: ShardTableEntryView| table.with_shards(shards),
        )
    }

    /// The model once the shards `shard_ids` of the source `source_uid` are
    /// known to be closed.
    pub open spec fn with_closed(self, source_uid: SourceUidView, shard_ids: Seq<Seq<char>>) -> ModelView {
        self.map_source(source_uid, |table: ShardTableEntryView| table.with_closed(shard_ids))
    }

    /// The model after the reports `infos` on shards of the source
    /// `source_uid`.
    pub open spec fn with_infos(self, source_uid: SourceUidView, infos: Seq<ShardInfoView>) -> ModelView {
        self.map_source(source_uid, |table: ShardTableEntryView| table.with_infos(infos))
    }

    /// The model once the leaders in `unavailable_leaders` are known to be
    /// gone: their open shards are unavailable.
    pub open spec fn without_leaders(self, unavailable_leaders: Set<Seq<char>>) -> ModelView {
        ModelView {
            shard_table: Seq::new(
                self.shard_table.len(),
                |i: int| self.shard_table[i].without_leaders(unavailable_leaders),
            ),
            ..self
        }
    }

    /// The model in which each source holds `num_permits` permits for `mode`
    /// more, up to what a source can hold.
    pub open spec fn with_permits_refilled(self, mode: ScalingMode, num_permits: u64) -> ModelView {
        ModelView {
            shard_table: Seq::new(
                self.shard_table.len(),
                |i: int| self.shard_table[i].with_permits_back(mode, num_permits),
            ),
            ..self
        }
    }

    /// The model in which the source `source_uid` holds `permits` permits
    /// for `mode`.
    pub open spec fn with_permits(self, source_uid: SourceUidView, mode: ScalingMode, permits: u64) -> ModelView {
        self.map_source(source_uid, |table: ShardTableEntryView| table.with_permits(mode, permits))
    }

    /// The open shards of the source `source_uid` whose leader is not in
    /// `unavailable_leaders`.
    pub open spec fn open_shards(self, source_uid: SourceUidView, unavailable_leaders: Set<Seq<char>>) -> Seq<ShardEntryView> {
        self.source(source_uid).shard_entries.filter(is_open_outside(unavailable_leaders))
    }

    /// What is known of the open shards of the source `source_uid`: nothing
    /// is open where the model does not know the source.
    pub open spec fn stats(self, source_uid: SourceUidView) -> ShardStats {
        if self.has_source(source_uid) {
            self.source(source_uid).stats()
        } else {
            ShardStats { num_open_shards: 0, ingestion_rate_sum: 0 }
        }
    }
}

/// A model in which one source was changed, and stayed in order, is the
/// model with that change made to the source.
proof fn lemma_changed_at(
    before: ModelView,
    after: ModelView,
    i: int,
    source_uid: SourceUidView,
    change: spec_fn(ShardTableEntryView) -> ShardTableEntryView,
)
    requires
        before.wf(),
        0 <= i < before.shard_table.len(),
        before.shard_table[i].source_uid == source_uid,
        after.index_uids == before.index_uids,
        after.shard_table.len() == before.shard_table.len(),
        after.shard_table[i] == change(before.shard_table[i]),
        after.shard_table[i].wf(),
        after.shard_table[i].source_uid == source_uid,
        forall|k: int|
            0 <= k < before.shard_table.len() && k != i ==> (#[trigger] after.shard_table[k])
                == before.shard_table[k],
    ensures
        after == before.map_source(source_uid, change),
        after.wf(),
        after.has_source(source_uid),
        after.source(source_uid) == after.shard_table[i],
{
    assert(after.shard_table =~= before.map_source(source_uid, change).shard_table);
    assert forall|k: int| 0 <= k < after.shard_table.len() implies (#[trigger] after.shard_table[k]).wf()
        && after.shard_table[k].source_uid == before.shard_table[k].source_uid by {
        assert(before.shard_table[k].wf());
    }
    let k = choose|k: int|
        0 <= k < after.shard_table.len() && (#[trigger] after.shard_table[k]).source_uid
            == source_uid;
    assert(k == i);
}

/// A change to a source that the model does not know changes nothing.
proof fn lemma_unchanged(
    model: ModelView,
    source_uid: SourceUidView,
    change: spec_fn(ShardTableEntryView) -> ShardTableEntryView,
)
    requires
        !model.has_source(source_uid),
    ensures
        model.map_source(source_uid, change) == model,
{
    assert(model.shard_table =~= model.map_source(source_uid, change).shard_table);
}

/// Tables with the same shards, table by table, hold the same shards.
pub proof fn lemma_shards_of_same_entries(a: Seq<ShardTableEntryView>, b: Seq<ShardTableEntryView>)
    requires
        a.len() == b.len(),
        forall|i: int| 0 <= i < a.len() ==> (#[trigger] a[i]).shard_entries == b[i].shard_entries,
    ensures
        shards_of(a) == shards_of(b),
    decreases a.len(),
{
    if a.len() > 0 {
        lemma_shards_of_same_entries(a.drop_last(), b.drop_last());
    }
}

/// Permits change nothing about the shards, nor about which sources and
/// indexes the model knows.
pub proof fn lemma_with_permits_keeps_shards(
    model: ModelView,
    source_uid: SourceUidView,
    mode: ScalingMode,
    permits: u64,
)
    ensures
        model.with_permits(source_uid, mode, permits).all_shards() == model.all_shards(),
        model.with_permits(source_uid, mode, permits).index_uids == model.index_uids,
        forall|i: int|
            0 <= i < model.shard_table.len() ==> (#[trigger] model.with_permits(
                source_uid,
                mode,
                permits,
            ).shard_table[i]).shard_entries == model.shard_table[i].shard_entries
                && model.with_permits(source_uid, mode, permits).shard_table[i].source_uid
                == model.shard_table[i].source_uid,
{
    lemma_shards_of_same_entries(
        model.with_permits(source_uid, mode, permits).shard_table,
        model.shard_table,
    );
}

/// The source whose permits are set is the source that it was, with these
/// permits.
pub proof fn lemma_with_permits_source(
    model: ModelView,
    source_uid: SourceUidView,
    mode: ScalingMode,
    permits: u64,
)
    requires
        model.wf(),
        model.has_source(source_uid),
    ensures
        model.with_permits(source_uid, mode, permits).has_source(source_uid),
        model.with_permits(source_uid, mode, permits).source(source_uid) == model.source(
            source_uid,
        ).with_permits(mode, permits),
{
    let after = model.with_permits(source_uid, mode, permits);
    let i = choose|i: int|
        0 <= i < model.shard_table.len() && (#[trigger] model.shard_table[i]).source_uid
            == source_uid;
    assert(after.shard_table[i].source_uid == source_uid);
    let k = choose|k: int|
        0 <= k < after.shard_table.len() && (#[trigger] after.shard_table[k]).source_uid
            == source_uid;
    assert(model.shard_table[k].source_uid == source_uid);
    assert(k == i);
}

/// Permits that are set twice are as they were set last; permits that are
/// set to what the source holds change nothing.
pub proof fn lemma_with_permits_again(
    model: ModelView,
    source_uid: SourceUidView,
    mode: ScalingMode,
    first: u64,
    second: u64,
)
    requires
        model.wf(),
    ensures
        model.with_permits(source_uid, mode, first).with_permits(source_uid, mode, second)
            == model.with_permits(source_uid, mode, second),
        model.has_source(source_uid) && model.source(source_uid).permits(mode) == second
            ==> model.with_permits(source_uid, mode, second) == model,
        !model.has_source(source_uid) ==> model.with_permits(source_uid, mode, second) == model,
{
    assert(model.with_permits(source_uid, mode, first).with_permits(
        source_uid,
        mode,
        second,
    ).shard_table =~= model.with_permits(source_uid, mode, second).shard_table);
    if model.has_source(source_uid) && model.source(source_uid).permits(mode) == second {
        let i = choose|i: int|
            0 <= i < model.shard_table.len() && (#[trigger] model.shard_table[i]).source_uid
                == source_uid;
        assert forall|k: int| 0 <= k < model.shard_table.len() implies model.with_permits(
            source_uid,
            mode,
            second,
        ).shard_table[k] == model.shard_table[k] by {
            if model.shard_table[k].source_uid == source_uid {
                assert(k == i);
            }
        }
        assert(model.with_permits(source_uid, mode, second).shard_table =~= model.shard_table);
    }
    if !model.has_source(source_uid) {
        assert(model.with_permits(source_uid, mode, second).shard_table =~= model.shard_table);
    }
}

impl ControlPlaneModel {
    /// The model that knows nothing.
    pub fn new() -> (model: Self)
        ensures
            model@ == ModelView::empty(),
            model@.wf(),
    {
        let model = ControlPlaneModel { index_uids: Vec::new(), shard_table: Vec::new() };
        proof {
            assert(model@.index_uids =~= Seq::empty());
            assert(model@.shard_table =~= Seq::empty());
        }
        model
    }

    fn index_position(&self, index_id: &str) -> (found: Option<usize>)
        requires
            self@.wf(),
        ensures
            found is Some <==> self@.has_index(index_id@),
            found matches Some(i) ==> i < self.index_uids.len() && self.index_uids[i as int]@
                == self@.index_uid(index_id@),
    {
        let mut i: usize = 0;
        while i < self.index_uids.len()
            invariant
                i <= self.index_uids.len(),
                self@.wf(),
                forall|j: int| 0 <= j < i ==> (#[trigger] self@.index_uids[j]).index_id != index_id@,
            decreases self.index_uids.len() - i,
        {
            if same_name(self.index_uids[i].index_id.as_str(), index_id) {
                proof {
                    assert(self@.index_uids[i as int].index_id == index_id@);
                    let k = choose|k: int|
                        0 <= k < self@.index_uids.len() && (#[trigger] self@.index_uids[k]).index_id
                            == index_id@;
                    assert(k == i);
                }
                return Some(i);
            }
            i += 1;
        }
        None
    }

    fn source_position(&self, source_uid: &SourceUid) -> (found: Option<usize>)
        requires
            self@.wf(),
        ensures
            found is Some <==> self@.has_source(source_uid@),
            found matches Some(i) ==> i < self.shard_table.len() && self.shard_table[i as int]@
                == self@.source(source_uid@) && self@.shard_table[i as int].source_uid
                == source_uid@,
    {
        let mut i: usize = 0;
        while i < self.shard_table.len()
            invariant
                i <= self.shard_table.len(),
                self@.wf(),
                forall|j: int| 0 <= j < i ==> (#[trigger] self@.shard_table[j]).source_uid != source_uid@,
            decreases self.shard_table.len() - i,
        {
            if self.shard_table[i].source_uid().same_as(source_uid) {
                proof {
                    assert(self@.shard_table[i as int].source_uid == source_uid@);
                    let k = choose|k: int|
                        0 <= k < self@.shard_table.len() && (#[trigger] self@.shard_table[k]).source_uid
                            == source_uid@;
                    assert(k == i);
                }
                return Some(i);
            }
            i += 1;
        }
        None
    }

    /// Takes in the index `index_uid`, unless the model knows one of that id.
    pub fn add_index(&mut self, index_uid: IndexUid)
        requires
            old(self)@.wf(),
        ensures
            final(self)@ == old(self)@.with_index(index_uid@),
            final(self)@.wf(),
    {
        if self.index_position(index_uid.index_id.as_str()).is_none() {
            proof {
                lemma_views_push(self.index_uids@, index_uid);
            }
            self.index_uids.push(index_uid);
            proof {
                let before = old(self)@.index_uids;
                let after = self@.index_uids;
                assert forall|i: int, j: int| 0 <= i < j < after.len() implies (#[trigger] after[i]).index_id
                    != (#[trigger] after[j]).index_id by {
                    assert(after[i] == before[i]);
                    if j < before.len() {
                        assert(after[j] == before[j]);
                    }
                }
            }
        }
    }

    /// Takes in the source `source_uid`, without shards, unless the model
    /// knows it. Returns whether the model knows the index of the source;
    /// where it does not, nothing is taken in.
    pub fn add_source(&mut self, source_uid: &SourceUid) -> (added: bool)
        requires
            old(self)@.wf(),
        ensures
            added == old(self)@.has_index(source_uid@.index_uid.index_id),
            added ==> final(self)@ == old(self)@.with_source(source_uid@),
            !added ==> final(self)@ == old(self)@,
            final(self)@.wf(),
    {
        if self.index_position(source_uid.index_uid.index_id.as_str()).is_none() {
            return false;
        }
        self.ensure_source(source_uid);
        true
    }

    /// The place of the source `source_uid`, which is taken in without
    /// shards if it is new.
    fn ensure_source(&mut self, source_uid: &SourceUid) -> (i: usize)
        requires
            old(self)@.wf(),
        ensures
            final(self)@ == old(self)@.with_source(source_uid@),
            final(self)@.wf(),
            i < final(self).shard_table.len(),
            final(self)@.shard_table[i as int].source_uid == source_uid@,
            final(self)@.has_source(source_uid@),
    {
        match self.source_position(source_uid) {
            Some(i) => i,
            None => {
                let table = ShardTableEntry::new(source_uid.clone());
                proof {
                    lemma_views_push(self.shard_table@, table);
                }
                self.shard_table.push(table);
                proof {
                    let before = old(self)@.shard_table;
                    let after = self@.shard_table;
                    assert(after[after.len() - 1].source_uid == source_uid@);
                    assert forall|i: int, j: int| 0 <= i < j < after.len() implies (#[trigger] after[i]).source_uid
                        != (#[trigger] after[j]).source_uid by {
                        assert(after[i] == before[i]);
                        if j < before.len() {
                            assert(after[j] == before[j]);
                        }
                    }
                    assert forall|i: int| 0 <= i < after.len() implies (#[trigger] after[i]).wf() by {
                        if i < before.len() {
                            assert(after[i] == before[i]);
                        }
                    }
                }
                self.shard_table.len() - 1
            },
        }
    }

    /// The incarnation of the index `index_id`.
    pub fn index_uid(&self, index_id: &str) -> (index_uid: Option<IndexUid>)
        requires
            self@.wf(),
        ensures
            index_uid is Some <==> self@.has_index(index_id@),
            index_uid matches Some(index_uid) ==> index_uid@ == self@.index_uid(index_id@),
    {
        match self.index_position(index_id) {
            Some(i) => Some(self.index_uids[i].clone()),
            None => None,
        }
    }

    /// The shards of the source `source_uid`.
    pub fn get_shards_for_source(&self, source_uid: &SourceUid) -> (table: Option<&ShardTableEntry>)
        requires
            self@.wf(),
        ensures
            table is Some <==> self@.has_source(source_uid@),
            table matches Some(table) ==> table@ == self@.source(source_uid@) && table@.wf(),
    {
        match self.source_position(source_uid) {
            Some(i) => {
                proof {
                    assert(self@.shard_table[i as int].wf());
                }
                Some(&self.shard_table[i])
            },
            None => None,
        }
    }

    /// The open shards of the source `source_uid` whose leader is not in
    /// `unavailable_leaders`.
    pub fn find_open_shards(
        &self,
        source_uid: &SourceUid,
        unavailable_leaders: &FnvHashSet<NodeId>,
    ) -> (open_shards: Option<Vec<ShardEntry>>)
        requires
            self@.wf(),
        ensures
            open_shards is Some <==> self@.has_source(source_uid@),
            open_shards matches Some(entries) ==> views(entries@) == self@.open_shards(
                source_uid@,
                names_in(*unavailable_leaders),
            ),
    {
        match self.source_position(source_uid) {
            Some(i) => Some(self.shard_table[i].open_shards(unavailable_leaders)),
            None => None,
        }
    }

    /// All the shards, source after source.
    pub fn all_shards(&self) -> (shards: Vec<&ShardEntry>)
        ensures
            views(shards@) == self@.all_shards(),
    {
        let ghost tables = self@.shard_table;
        let mut shards: Vec<&ShardEntry> = Vec::new();
        let mut i: usize = 0;
        while i < self.shard_table.len()
            invariant
                i <= self.shard_table.len(),
                tables == self@.shard_table,
                views(shards@) == shards_of(tables.take(i as int)),
            decreases self.shard_table.len() - i,
        {
            let entries = self.shard_table[i].shard_entries();
            let ghost before = views(shards@);
            let mut k: usize = 0;
            while k < entries.len()
                invariant
                    k <= entries.len(),
                    views(entries@) == tables[i as int].shard_entries,
                    views(shards@) == before + views(entries@).take(k as int),
                decreases entries.len() - k,
            {
                proof {
                    lemma_views_push(shards@, &entries[k as int]);
                    assert(views(entries@).take(k + 1) =~= views(entries@).take(k as int).push(
                        entries[k as int]@,
                    ));
                    assert(before + views(entries@).take(k + 1) =~= (before + views(entries@).take(
                        k as int,
                    )).push(entries[k as int]@));
                }
                shards.push(&entries[k]);
                k += 1;
            }
            proof {
                assert(views(entries@).take(entries.len() as int) =~= views(entries@));
                assert(tables.take(i + 1).drop_last() =~= tables.take(i as int));
            }
            i += 1;
        }
        proof {
            assert(tables.take(tables.len() as int) =~= tables);
        }
        shards
    }

    /// Takes in the shards `shards` of the source `source_uid`, which is
    /// taken in too if it is new. A shard whose id the source has already is
    /// left as the model has it.
    pub fn insert_shards(&mut self, source_uid: &SourceUid, shards: Vec<Shard>)
        requires
            old(self)@.wf(),
            forall|i: int| 0 <= i < shards.len() ==> (#[trigger] shards[i])@.source_uid == source_uid@,
        ensures
            final(self)@ == old(self)@.with_shards(source_uid@, views(shards@)),
            final(self)@.wf(),
            final(self)@.has_source(source_uid@),
    {
        let i = self.ensure_source(source_uid);
        let ghost before = self@;
        proof {
            assert(before.shard_table[i as int].wf());
        }
        self.shard_table[i].insert_shards(shards);
        proof {
            let change = |table: ShardTableEntryView| table.with_shards(views(shards@));
            assert(self@.shard_table =~= before.map_source(source_uid@, change).shard_table);
            assert forall|table: ShardTableEntryView|
                table.wf() && table.source_uid == source_uid@ implies (#[trigger] change(table)).wf()
                && change(table).source_uid == table.source_uid by {
                lemma_with_shards_wf(table, views(shards@));
            }
            assert forall|k: int| 0 <= k < self@.shard_table.len() implies (#[trigger] self@.shard_table[k]).wf()
                && self@.shard_table[k].source_uid == before.shard_table[k].source_uid by {
                assert(before.shard_table[k].wf());
            }
            assert(self@.shard_table[i as int].source_uid == source_uid@);
        }
    }

    /// Marks as closed the shards `shard_ids` of the source `source_uid`.
    /// Returns the ids of those that were not closed before.
    pub fn close_shards(&mut self, source_uid: &SourceUid, shard_ids: &Vec<ShardId>) -> (closed: Vec<
        ShardId,
    >)
        requires
            old(self)@.wf(),
        ensures
            final(self)@ == old(self)@.with_closed(source_uid@, views(shard_ids@)),
            final(self)@.wf(),
            views(closed@) == if old(self)@.has_source(source_uid@) {
                ids_to_close(old(self)@.source(source_uid@).shard_entries, views(shard_ids@))
            } else {
                Seq::empty()
            },
    {
        match self.source_position(source_uid) {
            Some(i) => {
                proof {
                    assert(self@.shard_table[i as int].wf());
                }
                let closed = self.shard_table[i].close_shards(shard_ids);
                proof {
                    let change = |table: ShardTableEntryView| table.with_closed(views(shard_ids@));
                    assert(self@.shard_table =~= old(self)@.map_source(
                        source_uid@,
                        change,
                    ).shard_table);
                    assert forall|k: int| 0 <= k < self@.shard_table.len() implies (#[trigger] self@.shard_table[k]).wf()
                        && self@.shard_table[k].source_uid == old(self)@.shard_table[k].source_uid by {
                        assert(old(self)@.shard_table[k].wf());
                    }
                }
                closed
            },
            None => {
                proof {
                    let change = |table: ShardTableEntryView| table.with_closed(views(shard_ids@));
                    assert(self@.shard_table =~= old(self)@.map_source(
                        source_uid@,
                        change,
                    ).shard_table);
                }
                let closed: Vec<ShardId> = Vec::new();
                proof {
                    assert(views(closed@) =~= Seq::empty());
                }
                closed
            },
        }
    }

    /// Takes the reports `infos` into the shards of the source `source_uid`.
    /// Returns what is then known of its open shards.
    pub fn update_shards(&mut self, source_uid: &SourceUid, infos: &Vec<ShardInfo>) -> (stats: ShardStats)
        requires
            old(self)@.wf(),
        ensures
            final(self)@ == old(self)@.with_infos(source_uid@, views(infos@)),
            final(self)@.wf(),
            stats == final(self)@.stats(source_uid@),
    {
        match self.source_position(source_uid) {
            Some(i) => {
                proof {
                    assert(self@.shard_table[i as int].wf());
                }
                let stats = self.shard_table[i].update_shards(infos);
                proof {
                    let change = |table: ShardTableEntryView| table.with_infos(views(infos@));
                    assert(self@.shard_table =~= old(self)@.map_source(
                        source_uid@,
                        change,
                    ).shard_table);
                    assert forall|k: int| 0 <= k < self@.shard_table.len() implies (#[trigger] self@.shard_table[k]).wf()
                        && self@.shard_table[k].source_uid == old(self)@.shard_table[k].source_uid by {
                        assert(old(self)@.shard_table[k].wf());
                    }
                    assert(self@.shard_table[i as int].source_uid == source_uid@);
                    let k = choose|k: int|
                        0 <= k < self@.shard_table.len() && (#[trigger] self@.shard_table[k]).source_uid
                            == source_uid@;
                    assert(k == i);
                }
                stats
            },
            None => {
                proof {
                    let change = |table: ShardTableEntryView| table.with_infos(views(infos@));
                    assert(self@.shard_table =~= old(self)@.map_source(
                        source_uid@,
                        change,
                    ).shard_table);
                }
                ShardStats { num_open_shards: 0, ingestion_rate_sum: 0 }
            },
        }
    }

    /// Takes `num_permits` permits of the source `source_uid` for `mode`,
    /// if it holds that many. Returns nothing where the model does not know
    /// the source.
    pub fn acquire_scaling_permits(
        &mut self,
        source_uid: &SourceUid,
        mode: ScalingMode,
        num_permits: u64,
    ) -> (acquired: Option<bool>)
        requires
            old(self)@.wf(),
        ensures
            acquired is Some <==> old(self)@.has_source(source_uid@),
            acquired matches Some(acquired) ==> acquired == (num_permits <= old(self)@.source(
                source_uid@,
            ).permits(mode)),
            acquired == Some(true) ==> final(self)@ == old(self)@.with_permits(
                source_uid@,
                mode,
                (old(self)@.source(source_uid@).permits(mode) - num_permits) as u64,
            ),
            acquired != Some(true) ==> final(self)@ == old(self)@,
            final(self)@.wf(),
    {
        match self.source_position(source_uid) {
            Some(i) => {
                proof {
                    assert(self@.shard_table[i as int].wf());
                }
                let acquired = self.shard_table[i].acquire_scaling_permits(mode, num_permits);
                proof {
                    let left = (old(self)@.source(source_uid@).permits(mode) - num_permits) as u64;
                    let change = if acquired {
                        |table: ShardTableEntryView| table.with_permits(mode, left)
                    } else {
                        |table: ShardTableEntryView| table
                    };
                    lemma_changed_at(old(self)@, self@, i as int, source_uid@, change);
                    if !acquired {
                        assert(self@.shard_table =~= old(self)@.shard_table);
                    }
                }
                Some(acquired)
            },
            None => None,
        }
    }

    /// Gives `num_permits` permits for `mode` back to the source
    /// `source_uid`, up to what a source can hold.
    pub fn release_scaling_permits(&mut self, source_uid: &SourceUid, mode: ScalingMode, num_permits: u64)
        requires
            old(self)@.wf(),
        ensures
            final(self)@ == old(self)@.with_permits(
                source_uid@,
                mode,
                if old(self)@.source(source_uid@).permits(mode) + num_permits <= permits_limit(mode) {
                    (old(self)@.source(source_uid@).permits(mode) + num_permits) as u64
                } else {
                    permits_limit(mode)
                },
            ),
            final(self)@.wf(),
    {
        let ghost permits = if self@.source(source_uid@).permits(mode) + num_permits
            <= permits_limit(mode) {
            (self@.source(source_uid@).permits(mode) + num_permits) as u64
        } else {
            permits_limit(mode)
        };
        let ghost change = |table: ShardTableEntryView| table.with_permits(mode, permits);
        match self.source_position(source_uid) {
            Some(i) => {
                proof {
                    assert(self@.shard_table[i as int].wf());
                }
                self.shard_table[i].release_scaling_permits(mode, num_permits);
                proof {
                    lemma_changed_at(old(self)@, self@, i as int, source_uid@, change);
                }
            },
            None => {
                proof {
                    lemma_unchanged(self@, source_uid@, change);
                }
            },
        }
    }

    /// Gives `num_permits` permits for `mode` back to each source, up to
    /// what a source can hold: permits come back as time passes.
    pub fn refill_scaling_permits(&mut self, mode: ScalingMode, num_permits: u64)
        requires
            old(self)@.wf(),
        ensures
            final(self)@ == old(self)@.with_permits_refilled(mode, num_permits),
            final(self)@.wf(),
    {
        let ghost before = self@.shard_table;
        let mut i: usize = 0;
        while i < self.shard_table.len()
            invariant
                i <= self.shard_table.len(),
                before == old(self)@.shard_table,
                old(self)@.wf(),
                self.shard_table.len() == before.len(),
                self.index_uids == old(self).index_uids,
                forall|j: int| 0 <= j < i ==> (#[trigger] self.shard_table[j])@ == before[j].with_permits_back(mode, num_permits),
                forall|j: int| i <= j < before.len() ==> (#[trigger] self.shard_table[j])@ == before[j],
                forall|j: int| 0 <= j < i ==> (#[trigger] self.shard_table[j])@.wf(),
            decreases self.shard_table.len() - i,
        {
            proof {
                assert(before[i as int].wf());
            }
            self.shard_table[i].release_scaling_permits(mode, num_permits);
            i += 1;
        }
        proof {
            assert(self@.shard_table =~= old(self)@.with_permits_refilled(
                mode,
                num_permits,
            ).shard_table);
            assert forall|k: int| 0 <= k < self@.shard_table.len() implies (#[trigger] self@.shard_table[k]).wf()
                && self@.shard_table[k].source_uid == before[k].source_uid by {
                assert(self.shard_table[k]@.wf());
            }
        }
    }

    /// Takes all the permits of the source `source_uid` for `mode`.
    pub fn drain_scaling_permits(&mut self, source_uid: &SourceUid, mode: ScalingMode)
        requires
            old(self)@.wf(),
        ensures
            final(self)@ == old(self)@.with_permits(source_uid@, mode, 0),
            final(self)@.wf(),
    {
        let ghost change = |table: ShardTableEntryView| table.with_permits(mode, 0);
        match self.source_position(source_uid) {
            Some(i) => {
                proof {
                    assert(self@.shard_table[i as int].wf());
                }
                self.shard_table[i].drain_scaling_permits(mode);
                proof {
                    lemma_changed_at(old(self)@, self@, i as int, source_uid@, change);
                }
            },
            None => {
                proof {
                    lemma_unchanged(self@, source_uid@, change);
                }
            },
        }
    }

    /// The shards that `node_id` leads or follows, source after source.
    pub fn list_shards_for_node(&self, node_id: &str) -> (shards: Vec<ShardIds>)
        ensures
            views(shards@) == hosted_shards(self@.shard_table, node_id@),
    {
        let ghost tables = self@.shard_table;
        let mut shards: Vec<ShardIds> = Vec::new();
        let mut i: usize = 0;
        proof {
            assert(tables.take(0) =~= Seq::empty());
            assert(views(shards@) =~= Seq::empty());
        }
        while i < self.shard_table.len()
            invariant
                i <= self.shard_table.len(),
                tables == self@.shard_table,
                views(shards@) == hosted_shards(tables.take(i as int), node_id@),
            decreases self.shard_table.len() - i,
        {
            proof {
                assert(tables.take(i + 1).drop_last() =~= tables.take(i as int));
                assert(tables.take(i + 1).last() == self.shard_table[i as int]@);
            }
            let shard_ids = self.shard_table[i].shard_ids_hosted_by(node_id);
            if shard_ids.len() > 0 {
                let hosted = ShardIds {
                    source_uid: self.shard_table[i].source_uid().clone(),
                    shard_ids,
                };
                proof {
                    lemma_views_push(shards@, hosted);
                }
                shards.push(hosted);
            }
            i += 1;
        }
        proof {
            assert(tables.take(self.shard_table.len() as int) =~= tables);
        }
        shards
    }

    /// The number of shards.
    pub fn num_shards(&self) -> (num_shards: usize)
        ensures
            num_shards == self@.all_shards().len(),
    {
        self.all_shards().len()
    }

    /// Marks as unavailable the open shards whose leader is in
    /// `unavailable_leaders`.
    pub fn set_shards_as_unavailable(&mut self, unavailable_leaders: &FnvHashSet<NodeId>)
        requires
            old(self)@.wf(),
        ensures
            final(self)@ == old(self)@.without_leaders(names_in(*unavailable_leaders)),
            final(self)@.wf(),
    {
        let ghost before = self@.shard_table;
        let ghost gone = names_in(*unavailable_leaders);
        let mut i: usize = 0;
        while i < self.shard_table.len()
            invariant
                i <= self.shard_table.len(),
                gone == names_in(*unavailable_leaders),
                before == old(self)@.shard_table,
                old(self)@.wf(),
                self.shard_table.len() == before.len(),
                self.index_uids == old(self).index_uids,
                forall|j: int| 0 <= j < i ==> (#[trigger] self.shard_table[j])@ == before[j].without_leaders(gone),
                forall|j: int| i <= j < before.len() ==> (#[trigger] self.shard_table[j])@ == before[j],
            decreases self.shard_table.len() - i,
        {
            proof {
                assert(before[i as int].wf());
            }
            self.shard_table[i].set_shards_as_unavailable(unavailable_leaders);
            i += 1;
        }
        proof {
            assert(self@.shard_table =~= old(self)@.without_leaders(gone).shard_table);
            assert forall|k: int| 0 <= k < self@.shard_table.len() implies (#[trigger] self@.shard_table[k]).wf()
                && self@.shard_table[k].source_uid == before[k].source_uid by {
                assert(before[k].wf());
                crate::shard_table::lemma_same_ids_wf(before[k], before[k].without_leaders(gone));
            }
        }
    }
}

} // verus!
