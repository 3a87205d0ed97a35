//! The shards of one source, in ascending order of their ids.

use crate::names::{
    compare_names, lemma_name_lt_asymmetric, lemma_name_lt_transitive, name_lt, same_name, NameOrder,
};
use crate::node_set::{names_in, node_set_contains};
use crate::types::{
    lemma_views_push, views, NodeId, Shard, ShardId, ShardState, ShardView, SourceUid,
    SourceUidView,
};
use fnv::FnvHashSet;
use vstd::prelude::*;

verus! {

/// What an ingester reports of one of its shards: its state and its
/// ingestion rate in MiB/s.
#[derive(Debug, PartialEq, Eq)]
pub struct ShardInfo {
    pub shard_id: ShardId,
    pub shard_state: ShardState,
    pub ingestion_rate: u16,
}

/// What a value of `ShardInfo` stands for.
pub struct ShardInfoView {
    pub shard_id: Seq<char>,
    pub shard_state: ShardState,
    pub ingestion_rate: u16,
}

impl View for ShardInfo {
    type V = ShardInfoView;

    open spec fn view(&self) -> ShardInfoView {
        ShardInfoView {
            shard_id: self.shard_id@,
            shard_state: self.shard_state,
            ingestion_rate: self.ingestion_rate,
        }
    }
}

/// The open shards of a source: how many they are and the sum of their
/// ingestion rates in MiB/s. Their average rate is the sum over the number,
/// and 0 where no shard is open.
#[derive(Clone, Copy, Debug, PartialEq, Eq, Structural)]
pub struct ShardStats {
    pub num_open_shards: usize,
    pub ingestion_rate_sum: u128,
}

impl ShardStats {
    /// The average ingestion rate is at least `rate` MiB/s, for a positive
    /// `rate`.
    pub open spec fn avg_ingestion_rate_at_least(self, rate: int) -> bool {
        self.num_open_shards > 0 && self.ingestion_rate_sum >= rate * self.num_open_shards
    }

    /// The average ingestion rate is at most `rate` MiB/s.
    pub open spec fn avg_ingestion_rate_at_most(self, rate: int) -> bool {
        self.num_open_shards == 0 || self.ingestion_rate_sum <= rate * self.num_open_shards
    }
}

/// A shard and its last reported ingestion rate in MiB/s.
#[derive(Debug, PartialEq, Eq)]
pub struct ShardEntry {
    pub shard: Shard,
    pub ingestion_rate: u16,
}

/// What a value of `ShardEntry` stands for.
pub struct ShardEntryView {
    pub shard: ShardView,
    pub ingestion_rate: u16,
}

impl View for ShardEntry {
    type V = ShardEntryView;

    open spec fn view(&self) -> ShardEntryView {
        ShardEntryView { shard: self.shard@, ingestion_rate: self.ingestion_rate }
    }
}

impl Clone for ShardEntry {
    fn clone(&self) -> (copy: Self)
        ensures
            copy@ == self@,
    {
        ShardEntry { shard: self.shard.clone(), ingestion_rate: self.ingestion_rate }
    }
}

impl ShardEntryView {
    pub open spec fn is_open(self) -> bool {
        self.shard.shard_state == ShardState::Open
    }

    pub open spec fn is_closed(self) -> bool {
        self.shard.shard_state == ShardState::Closed
    }

    pub open spec fn is_unavailable(self) -> bool {
        self.shard.shard_state == ShardState::Unavailable
    }

    /// The entry in the state `shard_state`.
    pub open spec fn in_state(self, shard_state: ShardState) -> ShardEntryView {
        ShardEntryView { shard: ShardView { shard_state, ..self.shard }, ..self }
    }

    /// A new entry for `shard`: no rate was reported yet.
    pub open spec fn of_shard(shard: ShardView) -> ShardEntryView {
        ShardEntryView { shard, ingestion_rate: 0 }
    }

    /// The entry after one report. A report of another shard changes nothing.
    /// The rate is taken over; of the state only a close, which is final.
    pub open spec fn with_info(self, info: ShardInfoView) -> ShardEntryView {
        if info.shard_id == self.shard.shard_id {
            ShardEntryView {
                shard: ShardView {
                    shard_state: if info.shard_state == ShardState::Closed {
                        ShardState::Closed
                    } else {
                        self.shard.shard_state
                    },
                    ..self.shard
                },
                ingestion_rate: info.ingestion_rate,
            }
        } else {
            self
        }
    }

    /// The entry after the reports `infos`, taken one after the other.
    pub open spec fn with_infos(self, infos: Seq<ShardInfoView>) -> ShardEntryView
        decreases infos.len(),
    {
        if infos.len() == 0 {
            self
        } else {
            self.with_infos(infos.drop_last()).with_info(infos.last())
        }
    }

    /// The entry once the leaders in `unavailable_leaders` are known to be
    /// gone: an open shard of such a leader becomes unavailable.
    pub open spec fn without_leaders(self, unavailable_leaders: Set<Seq<char>>) -> ShardEntryView {
        if self.is_open() && unavailable_leaders.contains(self.shard.leader_id) {
            self.in_state(ShardState::Unavailable)
        } else {
            self
        }
    }

    /// The entry once the shards `shard_ids` are known to be closed.
    pub open spec fn with_closed(self, shard_ids: Seq<Seq<char>>) -> ShardEntryView {
        if shard_ids.contains(self.shard.shard_id) {
            self.in_state(ShardState::Closed)
        } else {
            self
        }
    }

    /// Whether `node_id` leads or follows the shard.
    pub open spec fn hosted_by(self, node_id: Seq<char>) -> bool {
        self.shard.leader_id == node_id || self.shard.follower_id == Some(node_id)
    }
}

impl ShardEntry {
    /// A new entry for `shard`: no rate was reported yet.
    pub fn new(shard: Shard) -> (entry: Self)
        ensures
            entry@ == ShardEntryView::of_shard(shard@),
    {
        ShardEntry { shard, ingestion_rate: 0 }
    }

    pub fn is_open(&self) -> (open: bool)
        ensures
            open == self@.is_open(),
    {
        matches!(self.shard.shard_state, ShardState::Open)
    }

    pub fn is_closed(&self) -> (closed: bool)
        ensures
            closed == self@.is_closed(),
    {
        matches!(self.shard.shard_state, ShardState::Closed)
    }

    pub fn is_unavailable(&self) -> (unavailable: bool)
        ensures
            unavailable == self@.is_unavailable(),
    {
        matches!(self.shard.shard_state, ShardState::Unavailable)
    }

    /// Whether `node_id` leads or follows the shard.
    pub fn hosted_by(&self, node_id: &str) -> (hosted: bool)
        ensures
            hosted == self@.hosted_by(node_id@),
    {
        if same_name(self.shard.leader_id.as_str(), node_id) {
            return true;
        }
        match &self.shard.follower_id {
            Some(follower_id) => same_name(follower_id.as_str(), node_id),
            None => false,
        }
    }

    /// Takes the reports `infos` into the entry, one after the other.
    pub fn update(&mut self, infos: &Vec<ShardInfo>)
        ensures
            final(self)@ == old(self)@.with_infos(views(infos@)),
    {
        let ghost reports = views(infos@);
        let mut i: usize = 0;
        while i < infos.len()
            invariant
                i <= infos.len(),
                reports == views(infos@),
                self@ == old(self)@.with_infos(reports.take(i as int)),
            decreases infos.len() - i,
        {
            proof {
                assert(reports.take(i + 1).drop_last() =~= reports.take(i as int));
            }
            if same_name(infos[i].shard_id.as_str(), self.shard.shard_id.as_str()) {
                self.ingestion_rate = infos[i].ingestion_rate;
                if matches!(infos[i].shard_state, ShardState::Closed) {
                    self.shard.shard_state = ShardState::Closed;
                }
            }
            i += 1;
        }
        proof {
            assert(reports.take(infos.len() as int) =~= reports);
        }
    }
}

/// Whether a list of ids holds `id`.
pub fn holds_name(names: &Vec<String>, name: &str) -> (found: bool)
    ensures
        found == views(names@).contains(name@),
{
    let mut i: usize = 0;
    while i < names.len()
        invariant
            i <= names.len(),
            forall|j: int| 0 <= j < i ==> names[j]@ != name@,
        decreases names.len() - i,
    {
        if same_name(names[i].as_str(), name) {
            proof {
                assert(views(names@)[i as int] == name@);
            }
            return true;
        }
        i += 1;
    }
    false
}

/// Whether scaling adds or removes a shard.
#[derive(Clone, Copy, Debug, PartialEq, Eq, Structural)]
pub enum ScalingMode {
    Up,
    Down,
}

/// The number of permits to scale up that a source can hold.
pub const SCALING_UP_PERMITS: u64 = 5;

/// The number of permits to scale down that a source can hold.
pub const SCALING_DOWN_PERMITS: u64 = 1;

/// The time after which a source gets a permit to scale up back, in
/// milliseconds.
pub const SCALING_UP_PERMIT_PERIOD_MILLIS: u64 = 12_000;

/// The time after which a source gets a permit to scale down back, in
/// milliseconds.
pub const SCALING_DOWN_PERMIT_PERIOD_MILLIS: u64 = 60_000;

/// The open shards whose leader is not in `unavailable_leaders`.
pub open spec fn is_open_outside(unavailable_leaders: Set<Seq<char>>) -> spec_fn(
    ShardEntryView,
) -> bool {
    |entry: ShardEntryView| entry.is_open() && !unavailable_leaders.contains(entry.shard.leader_id)
}

/// The open shards.
pub open spec fn is_open_entry() -> spec_fn(ShardEntryView) -> bool {
    |entry: ShardEntryView| entry.is_open()
}

/// The shards that `node_id` leads or follows.
pub open spec fn is_hosted_by(node_id: Seq<char>) -> spec_fn(ShardEntryView) -> bool {
    |entry: ShardEntryView| entry.hosted_by(node_id)
}

/// The ids of the shards are in strictly ascending order.
pub open spec fn ids_ascending(entries: Seq<ShardEntryView>) -> bool {
    forall|i: int, j: int|
        0 <= i < j < entries.len() ==> name_lt(entries[i].shard.shard_id, entries[j].shard.shard_id)
}

/// The place of the first entry from `from` on whose id is not below `id`.
pub open spec fn first_not_below(entries: Seq<ShardEntryView>, id: Seq<char>, from: int) -> int
    decreases entries.len() - from,
{
    if from < 0 || from >= entries.len() || !name_lt(entries[from].shard.shard_id, id) {
        from
    } else {
        first_not_below(entries, id, from + 1)
    }
}

/// The sum of the ingestion rates of the open shards.
pub open spec fn open_rate_sum(entries: Seq<ShardEntryView>) -> nat
    decreases entries.len(),
{
    if entries.len() == 0 {
        0
    } else {
        let rest = open_rate_sum(entries.drop_last());
        if entries.last().is_open() {
            rest + entries.last().ingestion_rate as nat
        } else {
            rest
        }
    }
}

/// The ids of the shards among `shard_ids` that are not closed yet.
pub open spec fn ids_to_close(entries: Seq<ShardEntryView>, shard_ids: Seq<Seq<char>>) -> Seq<
    Seq<char>,
>
    decreases entries.len(),
{
    if entries.len() == 0 {
        Seq::empty()
    } else {
        let rest = ids_to_close(entries.drop_last(), shard_ids);
        let last = entries.last();
        if shard_ids.contains(last.shard.shard_id) && !last.is_closed() {
            rest.push(last.shard.shard_id)
        } else {
            rest
        }
    }
}

/// The ids of shards.
pub open spec fn shard_ids_of(entries: Seq<ShardEntryView>) -> Seq<Seq<char>> {
    Seq::new(entries.len(), |i: int| entries[i].shard.shard_id)
}

/// The shards of one source with its permits to scale.
#[derive(Debug)]
pub struct ShardTableEntry {
    source_uid: SourceUid,
    shard_entries: Vec<ShardEntry>,
    scaling_up_permits: u64,
    scaling_down_permits: u64,
}

/// What a value of `ShardTableEntry` stands for.
pub struct ShardTableEntryView {
    pub source_uid: SourceUidView,
    pub shard_entries: Seq<ShardEntryView>,
    pub scaling_up_permits: u64,
    pub scaling_down_permits: u64,
}

impl View for ShardTableEntry {
    type V = ShardTableEntryView;

    closed spec fn view(&self) -> ShardTableEntryView {
        ShardTableEntryView {
            source_uid: self.source_uid@,
            shard_entries: views(self.shard_entries@),
            scaling_up_permits: self.scaling_up_permits,
            scaling_down_permits: self.scaling_down_permits,
        }
    }
}

impl ShardTableEntryView {
    /// The shards belong to the source and stand in ascending order of their
    /// ids; no more permits are held than a source can hold.
    pub open spec fn wf(self) -> bool {
        &&& ids_ascending(self.shard_entries)
        &&& forall|i: int|
            0 <= i < self.shard_entries.len() ==> (#[trigger] self.shard_entries[i]).shard.source_uid
                == self.source_uid
        &&& self.scaling_up_permits <= SCALING_UP_PERMITS
        &&& self.scaling_down_permits <= SCALING_DOWN_PERMITS
    }

    /// A source without shards, with all its permits.
    pub open spec fn empty(source_uid: SourceUidView) -> ShardTableEntryView {
        ShardTableEntryView {
            source_uid,
            shard_entries: Seq::empty(),
            scaling_up_permits: SCALING_UP_PERMITS,
            scaling_down_permits: SCALING_DOWN_PERMITS,
        }
    }

    pub open spec fn contains_shard(self, shard_id: Seq<char>) -> bool {
        exists|i: int|
            0 <= i < self.shard_entries.len() && (#[trigger] self.shard_entries[i]).shard.shard_id
                == shard_id
    }

    /// The entry of the shard `shard_id`, where there is one.
    pub open spec fn shard(self, shard_id: Seq<char>) -> ShardEntryView {
        let i = choose|i: int|
            0 <= i < self.shard_entries.len() && (#[trigger] self.shard_entries[i]).shard.shard_id
                == shard_id;
        self.shard_entries[i]
    }

    /// The table with `shard` at its place among the ids. A shard whose id
    /// the table knows is left as the table has it.
    pub open spec fn with_shard(self, shard: ShardView) -> ShardTableEntryView {
        if self.contains_shard(shard.shard_id) {
            self
        } else {
            ShardTableEntryView {
                shard_entries: self.shard_entries.insert(
                    first_not_below(self.shard_entries, shard.shard_id, 0),
                    ShardEntryView::of_shard(shard),
                ),
                ..self
            }
        }
    }

    /// The table with `shards`, taken in one after the other.
    pub open spec fn with_shards(self, shards: Seq<ShardView>) -> ShardTableEntryView
        decreases shards.len(),
    {
        if shards.len() == 0 {
            self
        } else {
            self.with_shards(shards.drop_last()).with_shard(shards.last())
        }
    }

    /// The table once the shards `shard_ids` are known to be closed.
    pub open spec fn with_closed(self, shard_ids: Seq<Seq<char>>) -> ShardTableEntryView {
        ShardTableEntryView {
            shard_entries: Seq::new(
                self.shard_entries.len(),
                |i: int| self.shard_entries[i].with_closed(shard_ids),
            ),
            ..self
        }
    }

    /// The table after the reports `infos`.
    pub open spec fn with_infos(self, infos: Seq<ShardInfoView>) -> ShardTableEntryView {
        ShardTableEntryView {
            shard_entries: Seq::new(
                self.shard_entries.len(),
                |i: int| self.shard_entries[i].with_infos(infos),
            ),
            ..self
        }
    }

    /// The table once the leaders in `unavailable_leaders` are known to be
    /// gone.
    pub open spec fn without_leaders(self, unavailable_leaders: Set<Seq<char>>) -> ShardTableEntryView {
        ShardTableEntryView {
            shard_entries: Seq::new(
                self.shard_entries.len(),
                |i: int| self.shard_entries[i].without_leaders(unavailable_leaders),
            ),
            ..self
        }
    }

    /// The open shards and the sum of their rates.
    pub open spec fn stats(self) -> ShardStats {
        ShardStats {
            num_open_shards: self.shard_entries.filter(is_open_entry()).len() as usize,
            ingestion_rate_sum: open_rate_sum(self.shard_entries) as u128,
        }
    }

    /// The permits held for `mode`.
    pub open spec fn permits(self, mode: ScalingMode) -> u64 {
        match mode {
            ScalingMode::Up => self.scaling_up_permits,
            ScalingMode::Down => self.scaling_down_permits,
        }
    }

    /// The table with `num_permits` permits for `mode` more, up to what a
    /// source can hold.
    pub open spec fn with_permits_back(self, mode: ScalingMode, num_permits: u64) -> ShardTableEntryView {
        self.with_permits(
            mode,
            if self.permits(mode) + num_permits <= permits_limit(mode) {
                (self.permits(mode) + num_permits) as u64
            } else {
                permits_limit(mode)
            },
        )
    }

    /// The table with `permits` permits for `mode`.
    pub open spec fn with_permits(self, mode: ScalingMode, permits: u64) -> ShardTableEntryView {
        match mode {
            ScalingMode::Up => ShardTableEntryView { scaling_up_permits: permits, ..self },
            ScalingMode::Down => ShardTableEntryView { scaling_down_permits: permits, ..self },
        }
    }
}

/// The number of permits for `mode` that a source can hold.
pub open spec fn permits_limit(mode: ScalingMode) -> u64 {
    match mode {
        ScalingMode::Up => SCALING_UP_PERMITS,
        ScalingMode::Down => SCALING_DOWN_PERMITS,
    }
}

proof fn lemma_first_not_below(entries: Seq<ShardEntryView>, id: Seq<char>, from: int)
    requires
        0 <= from <= entries.len(),
    ensures
        from <= first_not_below(entries, id, from) <= entries.len(),
        forall|j: int|
            from <= j < first_not_below(entries, id, from) ==> name_lt(
                (#[trigger] entries[j]).shard.shard_id,
                id,
            ),
        first_not_below(entries, id, from) < entries.len() ==> !name_lt(
            entries[first_not_below(entries, id, from)].shard.shard_id,
            id,
        ),
    decreases entries.len() - from,
{
    if from < entries.len() && name_lt(entries[from].shard.shard_id, id) {
        lemma_first_not_below(entries, id, from + 1);
    }
}

/// A table that takes in a shard stays in order.
pub proof fn lemma_with_shard_wf(table: ShardTableEntryView, shard: ShardView)
    requires
        table.wf(),
        shard.source_uid == table.source_uid,
    ensures
        table.with_shard(shard).wf(),
        table.with_shard(shard).source_uid == table.source_uid,
{
    if !table.contains_shard(shard.shard_id) {
        let entries = table.shard_entries;
        let id = shard.shard_id;
        let p = first_not_below(entries, id, 0);
        lemma_first_not_below(entries, id, 0);
        let after = table.with_shard(shard).shard_entries;
        assert forall|j: int| p <= j < entries.len() implies name_lt(
            id,
            (#[trigger] entries[j]).shard.shard_id,
        ) by {
            crate::names::lemma_name_lt_total(id, entries[p].shard.shard_id);
            if j > p {
                lemma_name_lt_transitive(id, entries[p].shard.shard_id, entries[j].shard.shard_id);
            }
        }
        assert forall|i: int, j: int| 0 <= i < j < after.len() implies name_lt(
            after[i].shard.shard_id,
            after[j].shard.shard_id,
        ) by {
            if i < p {
                if j == p {
                } else if j < p {
                } else {
                    assert(after[j] == entries[j - 1]);
                }
            } else if i == p {
                assert(after[j] == entries[j - 1]);
            } else {
                assert(after[i] == entries[i - 1]);
                assert(after[j] == entries[j - 1]);
            }
        }
        assert forall|i: int| 0 <= i < after.len() implies (#[trigger] after[i]).shard.source_uid
            == table.source_uid by {
            if i < p {
            } else if i == p {
            } else {
                assert(after[i] == entries[i - 1]);
            }
        }
    }
}

/// A table that takes in shards stays in order.
pub proof fn lemma_with_shards_wf(table: ShardTableEntryView, shards: Seq<ShardView>)
    requires
        table.wf(),
        forall|i: int| 0 <= i < shards.len() ==> (#[trigger] shards[i]).source_uid == table.source_uid,
    ensures
        table.with_shards(shards).wf(),
        table.with_shards(shards).source_uid == table.source_uid,
    decreases shards.len(),
{
    if shards.len() > 0 {
        lemma_with_shards_wf(table, shards.drop_last());
        lemma_with_shard_wf(table.with_shards(shards.drop_last()), shards.last());
    }
}

/// A table whose shards keep their ids and their source stays in order.
pub proof fn lemma_same_ids_wf(before: ShardTableEntryView, after: ShardTableEntryView)
    requires
        before.wf(),
        after.source_uid == before.source_uid,
        after.scaling_up_permits <= SCALING_UP_PERMITS,
        after.scaling_down_permits <= SCALING_DOWN_PERMITS,
        after.shard_entries.len() == before.shard_entries.len(),
        forall|i: int|
            0 <= i < before.shard_entries.len() ==> (#[trigger] after.shard_entries[i]).shard.shard_id
                == before.shard_entries[i].shard.shard_id && after.shard_entries[i].shard.source_uid
                == before.shard_entries[i].shard.source_uid,
    ensures
        after.wf(),
{
    assert forall|i: int, j: int| 0 <= i < j < after.shard_entries.len() implies name_lt(
        after.shard_entries[i].shard.shard_id,
        after.shard_entries[j].shard.shard_id,
    ) by {
        assert(name_lt(
            before.shard_entries[i].shard.shard_id,
            before.shard_entries[j].shard.shard_id,
        ));
    }
}

/// A report leaves the id and the source of a shard as they are.
pub proof fn lemma_with_infos_keeps_ids(entry: ShardEntryView, infos: Seq<ShardInfoView>)
    ensures
        entry.with_infos(infos).shard.shard_id == entry.shard.shard_id,
        entry.with_infos(infos).shard.source_uid == entry.shard.source_uid,
        entry.with_infos(infos).shard.leader_id == entry.shard.leader_id,
        entry.with_infos(infos).shard.follower_id == entry.shard.follower_id,
    decreases infos.len(),
{
    if infos.len() > 0 {
        lemma_with_infos_keeps_ids(entry, infos.drop_last());
    }
}

/// The rate that the reports `infos` leave to the shard `shard_id`: that of
/// the last report that names it, and `rate` where none does.
pub open spec fn last_rate(infos: Seq<ShardInfoView>, shard_id: Seq<char>, rate: u16) -> u16
    decreases infos.len(),
{
    if infos.len() == 0 {
        rate
    } else if infos.last().shard_id == shard_id {
        infos.last().ingestion_rate
    } else {
        last_rate(infos.drop_last(), shard_id, rate)
    }
}

/// Whether one of the reports `infos` says that the shard `shard_id` is
/// closed.
pub open spec fn reported_closed(infos: Seq<ShardInfoView>, shard_id: Seq<char>) -> bool
    decreases infos.len(),
{
    if infos.len() == 0 {
        false
    } else {
        reported_closed(infos.drop_last(), shard_id) || (infos.last().shard_id == shard_id
            && infos.last().shard_state == ShardState::Closed)
    }
}

/// Reports leave to a shard the last rate that they give for it, close it
/// if one of them says so, and change nothing else.
pub proof fn lemma_with_infos_result(entry: ShardEntryView, infos: Seq<ShardInfoView>)
    ensures
        entry.with_infos(infos) == (ShardEntryView {
            shard: ShardView {
                shard_state: if reported_closed(infos, entry.shard.shard_id) {
                    ShardState::Closed
                } else {
                    entry.shard.shard_state
                },
                ..entry.shard
            },
            ingestion_rate: last_rate(infos, entry.shard.shard_id, entry.ingestion_rate),
        }),
    decreases infos.len(),
{
    if infos.len() > 0 {
        lemma_with_infos_result(entry, infos.drop_last());
    }
}

/// A shard that is closed stays closed, whatever is reported of it or of
/// its leader.
pub proof fn lemma_closed_stays_closed(
    entry: ShardEntryView,
    infos: Seq<ShardInfoView>,
    shard_ids: Seq<Seq<char>>,
    unavailable_leaders: Set<Seq<char>>,
)
    requires
        entry.is_closed(),
    ensures
        entry.with_infos(infos).is_closed(),
        entry.with_closed(shard_ids).is_closed(),
        entry.without_leaders(unavailable_leaders).is_closed(),
{
    lemma_with_infos_result(entry, infos);
}

/// The rate that reports leave does not depend on the rate that they were
/// to replace, where that is a rate that they leave.
proof fn lemma_last_rate_again(infos: Seq<ShardInfoView>, shard_id: Seq<char>, rate: u16, other: u16)
    ensures
        last_rate(infos, shard_id, rate) == rate || last_rate(infos, shard_id, rate) == last_rate(
            infos,
            shard_id,
            other,
        ),
    decreases infos.len(),
{
    if infos.len() > 0 {
        lemma_last_rate_again(infos.drop_last(), shard_id, rate, other);
    }
}

/// Reports that are taken in twice leave a shard as they left it the first
/// time.
pub proof fn lemma_with_infos_idempotent(entry: ShardEntryView, infos: Seq<ShardInfoView>)
    ensures
        entry.with_infos(infos).with_infos(infos) == entry.with_infos(infos),
{
    let once = entry.with_infos(infos);
    lemma_with_infos_result(entry, infos);
    lemma_with_infos_result(once, infos);
    let shard_id = entry.shard.shard_id;
    lemma_last_rate_again(infos, shard_id, once.ingestion_rate, entry.ingestion_rate);
    lemma_last_rate_again(infos, shard_id, entry.ingestion_rate, once.ingestion_rate);
}

impl ShardTableEntry {
    /// A source without shards, with all its permits.
    pub fn new(source_uid: SourceUid) -> (table: Self)
        ensures
            table@ == ShardTableEntryView::empty(source_uid@),
            table@.wf(),
    {
        let table = ShardTableEntry {
            source_uid,
            shard_entries: Vec::new(),
            scaling_up_permits: SCALING_UP_PERMITS,
            scaling_down_permits: SCALING_DOWN_PERMITS,
        };
        proof {
            assert(table@.shard_entries =~= Seq::empty());
        }
        table
    }

    pub fn source_uid(&self) -> (source_uid: &SourceUid)
        ensures
            source_uid@ == self@.source_uid,
    {
        &self.source_uid
    }

    /// The shards in ascending order of their ids.
    pub fn shard_entries(&self) -> (shard_entries: &Vec<ShardEntry>)
        ensures
            views(shard_entries@) == self@.shard_entries,
    {
        &self.shard_entries
    }

    /// The place of the first shard whose id is not below `shard_id`.
    fn position(&self, shard_id: &str) -> (p: usize)
        requires
            self@.wf(),
        ensures
            p == first_not_below(self@.shard_entries, shard_id@, 0),
            p <= self.shard_entries.len(),
            self@.contains_shard(shard_id@) <==> p < self.shard_entries.len()
                && self.shard_entries[p as int]@.shard.shard_id == shard_id@,
            self@.contains_shard(shard_id@) ==> self@.shard(shard_id@) == self.shard_entries[p as int]@,
    {
        let ghost entries = self@.shard_entries;
        let mut p: usize = 0;
        while p < self.shard_entries.len() && matches!(
            compare_names(self.shard_entries[p].shard.shard_id.as_str(), shard_id),
            NameOrder::Before
        )
            invariant
                p <= self.shard_entries.len(),
                entries == self@.shard_entries,
                first_not_below(entries, shard_id@, 0) == first_not_below(entries, shard_id@, p as int),
            decreases self.shard_entries.len() - p,
        {
            p += 1;
        }
        proof {
            lemma_first_not_below(entries, shard_id@, 0);
            assert forall|j: int| 0 <= j < entries.len() && (#[trigger] entries[j]).shard.shard_id
                == shard_id@ implies j == p by {
                if j < p {
                    lemma_name_lt_asymmetric(entries[j].shard.shard_id, shard_id@);
                } else if j > p {
                    assert(name_lt(entries[p as int].shard.shard_id, entries[j].shard.shard_id));
                }
            }
            if p < entries.len() && entries[p as int].shard.shard_id == shard_id@ {
                assert(self@.contains_shard(shard_id@));
            }
        }
        p
    }

    /// The entry of the shard `shard_id`.
    pub fn find_shard(&self, shard_id: &str) -> (found: Option<&ShardEntry>)
        requires
            self@.wf(),
        ensures
            found is Some <==> self@.contains_shard(shard_id@),
            found matches Some(entry) ==> entry@ == self@.shard(shard_id@),
    {
        let p = self.position(shard_id);
        if p < self.shard_entries.len() && same_name(
            self.shard_entries[p].shard.shard_id.as_str(),
            shard_id,
        ) {
            Some(&self.shard_entries[p])
        } else {
            None
        }
    }

    /// Takes `shard` in at its place among the ids, unless the table knows
    /// its id.
    pub fn insert_shard(&mut self, shard: Shard)
        requires
            old(self)@.wf(),
            shard@.source_uid == old(self)@.source_uid,
        ensures
            final(self)@ == old(self)@.with_shard(shard@),
            final(self)@.wf(),
    {
        let p = self.position(shard.shard_id.as_str());
        if p < self.shard_entries.len() && same_name(
            self.shard_entries[p].shard.shard_id.as_str(),
            shard.shard_id.as_str(),
        ) {
            return ;
        }
        proof {
            lemma_with_shard_wf(self@, shard@);
        }
        let ghost before = self@.shard_entries;
        let entry = ShardEntry::new(shard);
        self.shard_entries.insert(p, entry);
        proof {
            assert(self@.shard_entries =~= before.insert(p as int, entry@));
        }
    }

    /// Takes `shards` in, one after the other.
    pub fn insert_shards(&mut self, shards: Vec<Shard>)
        requires
            old(self)@.wf(),
            forall|i: int|
                0 <= i < shards.len() ==> (#[trigger] shards[i])@.source_uid == old(self)@.source_uid,
        ensures
            final(self)@ == old(self)@.with_shards(views(shards@)),
            final(self)@.wf(),
    {
        let ghost all = views(shards@);
        let mut i: usize = 0;
        while i < shards.len()
            invariant
                i <= shards.len(),
                all == views(shards@),
                self@.wf(),
                self@.source_uid == old(self)@.source_uid,
                forall|i: int|
                    0 <= i < shards.len() ==> (#[trigger] shards[i])@.source_uid == old(
                        self,
                    )@.source_uid,
                self@ == old(self)@.with_shards(all.take(i as int)),
            decreases shards.len() - i,
        {
            proof {
                assert(all.take(i + 1).drop_last() =~= all.take(i as int));
            }
            self.insert_shard(shards[i].clone());
            i += 1;
        }
        proof {
            assert(all.take(shards.len() as int) =~= all);
        }
    }

    /// Marks as closed the shards among `shard_ids`. Returns the ids of
    /// those that were not closed before.
    pub fn close_shards(&mut self, shard_ids: &Vec<ShardId>) -> (closed: Vec<ShardId>)
        requires
            old(self)@.wf(),
        ensures
            final(self)@ == old(self)@.with_closed(views(shard_ids@)),
            final(self)@.wf(),
            views(closed@) == ids_to_close(old(self)@.shard_entries, views(shard_ids@)),
    {
        let ghost before = self@.shard_entries;
        let ghost ids = views(shard_ids@);
        let mut closed: Vec<ShardId> = Vec::new();
        let mut i: usize = 0;
        while i < self.shard_entries.len()
            invariant
                i <= self.shard_entries.len(),
                ids == views(shard_ids@),
                before == old(self)@.shard_entries,
                self.shard_entries.len() == before.len(),
                self.source_uid == old(self).source_uid,
                self.scaling_up_permits == old(self).scaling_up_permits,
                self.scaling_down_permits == old(self).scaling_down_permits,
                forall|j: int| 0 <= j < i ==> self.shard_entries[j]@ == before[j].with_closed(ids),
                forall|j: int| i <= j < before.len() ==> self.shard_entries[j]@ == before[j],
                views(closed@) == ids_to_close(before.take(i as int), ids),
            decreases self.shard_entries.len() - i,
        {
            proof {
                assert(before.take(i + 1).drop_last() =~= before.take(i as int));
            }
            if holds_name(shard_ids, self.shard_entries[i].shard.shard_id.as_str()) {
                if !self.shard_entries[i].is_closed() {
                    proof {
                        lemma_views_push(closed@, self.shard_entries[i as int].shard.shard_id);
                    }
                    closed.push(self.shard_entries[i].shard.shard_id.clone());
                    self.shard_entries[i].shard.shard_state = ShardState::Closed;
                }
            }
            i += 1;
        }
        proof {
            assert(before.take(before.len() as int) =~= before);
            assert(self@.shard_entries =~= old(self)@.with_closed(ids).shard_entries);
            lemma_same_ids_wf(old(self)@, self@);
        }
        closed
    }

    /// The open shards and the sum of their rates.
    pub fn stats(&self) -> (stats: ShardStats)
        ensures
            stats == self@.stats(),
    {
        let ghost entries = self@.shard_entries;
        let mut num_open_shards: usize = 0;
        let mut ingestion_rate_sum: u128 = 0;
        let mut i: usize = 0;
        while i < self.shard_entries.len()
            invariant
                i <= self.shard_entries.len(),
                entries == self@.shard_entries,
                num_open_shards == entries.take(i as int).filter(is_open_entry()).len(),
                num_open_shards <= i,
                ingestion_rate_sum == open_rate_sum(entries.take(i as int)),
                ingestion_rate_sum <= i * 0xffff,
            decreases self.shard_entries.len() - i,
        {
            proof {
                assert(entries.take(i + 1).drop_last() =~= entries.take(i as int));
                assert(entries.take(i + 1) =~= entries.take(i as int).push(entries[i as int]));
                entries.take(i as int).lemma_filter_push(entries[i as int], is_open_entry());
            }
            if self.shard_entries[i].is_open() {
                num_open_shards += 1;
                ingestion_rate_sum += self.shard_entries[i].ingestion_rate as u128;
            }
            i += 1;
        }
        proof {
            assert(entries.take(entries.len() as int) =~= entries);
        }
        ShardStats { num_open_shards, ingestion_rate_sum }
    }

    /// Takes the reports `infos` into the shards that they name. Returns
    /// what is then known of the open shards.
    pub fn update_shards(&mut self, infos: &Vec<ShardInfo>) -> (stats: ShardStats)
        requires
            old(self)@.wf(),
        ensures
            final(self)@ == old(self)@.with_infos(views(infos@)),
            final(self)@.wf(),
            stats == final(self)@.stats(),
    {
        let ghost before = self@.shard_entries;
        let ghost reports = views(infos@);
        let mut i: usize = 0;
        while i < self.shard_entries.len()
            invariant
                i <= self.shard_entries.len(),
                reports == views(infos@),
                before == old(self)@.shard_entries,
                self.shard_entries.len() == before.len(),
                self.source_uid == old(self).source_uid,
                self.scaling_up_permits == old(self).scaling_up_permits,
                self.scaling_down_permits == old(self).scaling_down_permits,
                forall|j: int| 0 <= j < i ==> self.shard_entries[j]@ == before[j].with_infos(reports),
                forall|j: int| i <= j < before.len() ==> self.shard_entries[j]@ == before[j],
            decreases self.shard_entries.len() - i,
        {
            self.shard_entries[i].update(infos);
            i += 1;
        }
        proof {
            assert(self@.shard_entries =~= old(self)@.with_infos(reports).shard_entries);
            assert forall|i: int| 0 <= i < before.len() implies (#[trigger] self@.shard_entries[i]).shard.shard_id
                == before[i].shard.shard_id && self@.shard_entries[i].shard.source_uid
                == before[i].shard.source_uid by {
                lemma_with_infos_keeps_ids(before[i], reports);
            }
            lemma_same_ids_wf(old(self)@, self@);
        }
        self.stats()
    }

    /// Marks as unavailable the open shards whose leader is in
    /// `unavailable_leaders`.
    pub fn set_shards_as_unavailable(&mut self, unavailable_leaders: &FnvHashSet<NodeId>)
        requires
            old(self)@.wf(),
        ensures
            final(self)@ == old(self)@.without_leaders(names_in(*unavailable_leaders)),
            final(self)@.wf(),
    {
        let ghost before = self@.shard_entries;
        let ghost gone = names_in(*unavailable_leaders);
        let mut i: usize = 0;
        while i < self.shard_entries.len()
            invariant
                i <= self.shard_entries.len(),
                gone == names_in(*unavailable_leaders),
                before == old(self)@.shard_entries,
                self.shard_entries.len() == before.len(),
                self.source_uid == old(self).source_uid,
                self.scaling_up_permits == old(self).scaling_up_permits,
                self.scaling_down_permits == old(self).scaling_down_permits,
                forall|j: int| 0 <= j < i ==> self.shard_entries[j]@ == before[j].without_leaders(gone),
                forall|j: int| i <= j < before.len() ==> self.shard_entries[j]@ == before[j],
            decreases self.shard_entries.len() - i,
        {
            if self.shard_entries[i].is_open() && node_set_contains(
                unavailable_leaders,
                self.shard_entries[i].shard.leader_id.as_str(),
            ) {
                self.shard_entries[i].shard.shard_state = ShardState::Unavailable;
            }
            i += 1;
        }
        proof {
            assert(self@.shard_entries =~= old(self)@.without_leaders(gone).shard_entries);
            lemma_same_ids_wf(old(self)@, self@);
        }
    }

    /// The open shards whose leader is not in `unavailable_leaders`.
    pub fn open_shards(&self, unavailable_leaders: &FnvHashSet<NodeId>) -> (open_shards: Vec<
        ShardEntry,
    >)
        ensures
            views(open_shards@) == self@.shard_entries.filter(
                is_open_outside(names_in(*unavailable_leaders)),
            ),
    {
        let ghost entries = self@.shard_entries;
        let ghost pred = is_open_outside(names_in(*unavailable_leaders));
        let mut open_shards: Vec<ShardEntry> = Vec::new();
        let mut i: usize = 0;
        while i < self.shard_entries.len()
            invariant
                i <= self.shard_entries.len(),
                entries == self@.shard_entries,
                pred == is_open_outside(names_in(*unavailable_leaders)),
                views(open_shards@) == entries.take(i as int).filter(pred),
            decreases self.shard_entries.len() - i,
        {
            proof {
                assert(entries.take(i + 1) =~= entries.take(i as int).push(entries[i as int]));
                entries.take(i as int).lemma_filter_push(entries[i as int], pred);
            }
            if self.shard_entries[i].is_open() && !node_set_contains(
                unavailable_leaders,
                self.shard_entries[i].shard.leader_id.as_str(),
            ) {
                let entry = self.shard_entries[i].clone();
                proof {
                    lemma_views_push(open_shards@, entry);
                }
                open_shards.push(entry);
            }
            i += 1;
        }
        proof {
            assert(entries.take(entries.len() as int) =~= entries);
        }
        open_shards
    }

    /// The ids of the shards that `node_id` leads or follows, in ascending
    /// order.
    pub fn shard_ids_hosted_by(&self, node_id: &str) -> (shard_ids: Vec<ShardId>)
        ensures
            views(shard_ids@) == shard_ids_of(self@.shard_entries.filter(is_hosted_by(node_id@))),
    {
        let ghost entries = self@.shard_entries;
        let ghost pred = is_hosted_by(node_id@);
        let mut shard_ids: Vec<ShardId> = Vec::new();
        let mut i: usize = 0;
        proof {
            assert(entries.take(0) =~= Seq::empty());
            Seq::<ShardEntryView>::empty().lemma_filter_len(pred);
            assert(views(shard_ids@) =~= shard_ids_of(entries.take(0).filter(pred)));
        }
        while i < self.shard_entries.len()
            invariant
                i <= self.shard_entries.len(),
                entries == self@.shard_entries,
                pred == is_hosted_by(node_id@),
                views(shard_ids@) == shard_ids_of(entries.take(i as int).filter(pred)),
            decreases self.shard_entries.len() - i,
        {
            proof {
                assert(entries.take(i + 1) =~= entries.take(i as int).push(entries[i as int]));
                entries.take(i as int).lemma_filter_push(entries[i as int], pred);
            }
            if self.shard_entries[i].hosted_by(node_id) {
                let shard_id = self.shard_entries[i].shard.shard_id.clone();
                proof {
                    lemma_views_push(shard_ids@, shard_id);
                    let before = entries.take(i as int).filter(pred);
                    assert(shard_ids_of(before.push(entries[i as int])) =~= shard_ids_of(before).push(
                        entries[i as int].shard.shard_id,
                    ));
                }
                shard_ids.push(shard_id);
            }
            i += 1;
        }
        proof {
            assert(entries.take(entries.len() as int) =~= entries);
        }
        shard_ids
    }

    /// Takes `num_permits` permits for `mode`, if that many are held.
    pub fn acquire_scaling_permits(&mut self, mode: ScalingMode, num_permits: u64) -> (acquired: bool)
        requires
            old(self)@.wf(),
        ensures
            acquired == (num_permits <= old(self)@.permits(mode)),
            acquired ==> final(self)@ == old(self)@.with_permits(
                mode,
                (old(self)@.permits(mode) - num_permits) as u64,
            ),
            !acquired ==> final(self)@ == old(self)@,
            final(self)@.wf(),
    {
        match mode {
            ScalingMode::Up => {
                if num_permits <= self.scaling_up_permits {
                    self.scaling_up_permits -= num_permits;
                    true
                } else {
                    false
                }
            },
            ScalingMode::Down => {
                if num_permits <= self.scaling_down_permits {
                    self.scaling_down_permits -= num_permits;
                    true
                } else {
                    false
                }
            },
        }
    }

    /// Gives `num_permits` permits for `mode` back, up to what a source can
    /// hold.
    pub fn release_scaling_permits(&mut self, mode: ScalingMode, num_permits: u64)
        requires
            old(self)@.wf(),
        ensures
            final(self)@ == old(self)@.with_permits_back(mode, num_permits),
            final(self)@.wf(),
    {
        match mode {
            ScalingMode::Up => {
                self.scaling_up_permits = if num_permits <= SCALING_UP_PERMITS
                    - self.scaling_up_permits {
                    self.scaling_up_permits + num_permits
                } else {
                    SCALING_UP_PERMITS
                };
            },
            ScalingMode::Down => {
                self.scaling_down_permits = if num_permits <= SCALING_DOWN_PERMITS
                    - self.scaling_down_permits {
                    self.scaling_down_permits + num_permits
                } else {
                    SCALING_DOWN_PERMITS
                };
            },
        }
    }

    /// Takes all the permits for `mode`.
    pub fn drain_scaling_permits(&mut self, mode: ScalingMode)
        requires
            old(self)@.wf(),
        ensures
            final(self)@ == old(self)@.with_permits(mode, 0),
            final(self)@.wf(),
    {
        match mode {
            ScalingMode::Up => {
                self.scaling_up_permits = 0;
            },
            ScalingMode::Down => {
                self.scaling_down_permits = 0;
            },
        }
    }
}

} // verus!
