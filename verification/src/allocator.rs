//! Placement of new shards on the ingesters.
//!
//! The available ingesters are taken in ascending order of their ids. Each
//! leader is paired with the ingester that follows it in that order, the last
//! one with the first. A first pass fills each leader up to a cap, the share
//! of one node in all open shards; a second pass hands out what is left, one
//! shard per leader.

use crate::controller::IngestController;
use crate::model::{ControlPlaneModel, ModelView};
use crate::names::{
    compare_names, lemma_name_lt_asymmetric, lemma_name_lt_total, name_lt, same_name, NameOrder,
};
use crate::node_set::{names_in, node_set_contains};
use crate::pool::IngesterPool;
use crate::shard_table::{is_open_outside, ShardEntry, ShardEntryView};
use crate::types::{view_opt, views, NodeId};
use fnv::FnvHashSet;
use itertools::Itertools;
use std::cmp::Ordering;
use vstd::prelude::*;

verus! {

/// A leader and, where shards are replicated, its follower.
pub type Placement = (NodeId, Option<NodeId>);

/// What a value of `Placement` stands for.
pub type PlacementView = (Seq<char>, Option<Seq<char>>);

/// The views of a list of placements.
pub open spec fn placement_views(pairs: Seq<Placement>) -> Seq<PlacementView> {
    Seq::new(pairs.len(), |i: int| (pairs[i].0@, view_opt(pairs[i].1)))
}

proof fn lemma_placement_views_push(pairs: Seq<Placement>, pair: Placement)
    ensures
        placement_views(pairs.push(pair)) == placement_views(pairs).push(
            (pair.0@, view_opt(pair.1)),
        ),
{
    assert(placement_views(pairs.push(pair)) =~= placement_views(pairs).push(
        (pair.0@, view_opt(pair.1)),
    ));
}

/// An available ingester and the number of open shards that it leads.
pub struct LeaderLoad {
    pub node_id: NodeId,
    pub num_open_shards: usize,
}

/// What a value of `LeaderLoad` stands for.
pub struct LeaderLoadView {
    pub node_id: Seq<char>,
    pub num_open_shards: nat,
}

impl View for LeaderLoad {
    type V = LeaderLoadView;

    open spec fn view(&self) -> LeaderLoadView {
        LeaderLoadView { node_id: self.node_id@, num_open_shards: self.num_open_shards as nat }
    }
}

/// The leader at place `i` and, where shards are replicated, the ingester
/// after it, the first one after the last.
pub open spec fn pair_at(loads: Seq<LeaderLoadView>, i: int, replicated: bool) -> PlacementView {
    (
        loads[i].node_id,
        if replicated {
            Some(loads[(i + 1) % (loads.len() as int)].node_id)
        } else {
            None
        },
    )
}

/// What the first pass gives to a leader of `load` open shards while
/// `remaining` shards are still to be placed: what it lacks to the cap.
pub open spec fn first_pass_share(cap: int, load: int, remaining: int) -> int {
    let room = if cap > load {
        cap - load
    } else {
        0
    };
    if room < remaining {
        room
    } else {
        remaining
    }
}

/// What the first pass has placed of `n` shards on the first `i` leaders.
pub open spec fn first_pass(
    loads: Seq<LeaderLoadView>,
    cap: int,
    n: int,
    replicated: bool,
    i: int,
) -> Seq<PlacementView>
    decreases i,
{
    if i <= 0 {
        Seq::empty()
    } else {
        let before = first_pass(loads, cap, n, replicated, i - 1);
        let share = first_pass_share(cap, loads[i - 1].num_open_shards as int, n - before.len());
        before + Seq::new(share as nat, |k: int| pair_at(loads, i - 1, replicated))
    }
}

/// The second pass places `remaining` shards, one on each leader from the
/// first on.
pub open spec fn second_pass(loads: Seq<LeaderLoadView>, remaining: int, replicated: bool) -> Seq<
    PlacementView,
> {
    let len = if remaining < loads.len() {
        remaining
    } else {
        loads.len() as int
    };
    Seq::new(len as nat, |k: int| pair_at(loads, k, replicated))
}

/// Whether a shard has a follower besides its leader.
pub open spec fn is_replicated(replication_factor: nat) -> bool {
    replication_factor > 1
}

/// The cap of the first pass: the share of one ingester in the open shards,
/// the new ones counted in.
pub open spec fn placement_cap(num_ingesters: nat, num_open_shards: nat, n: nat) -> int {
    (n + num_open_shards) as int / num_ingesters as int
}

/// Where `n` new shards go, given the available ingesters in ascending order
/// with their loads and the number of open shards.
pub open spec fn placement(
    loads: Seq<LeaderLoadView>,
    num_open_shards: nat,
    n: nat,
    replication_factor: nat,
) -> Seq<PlacementView> {
    let cap = placement_cap(loads.len(), num_open_shards, n);
    let replicated = is_replicated(replication_factor);
    let first = first_pass(loads, cap, n as int, replicated, loads.len() as int);
    first + second_pass(loads, n - first.len(), replicated)
}

/// No shard can be placed: there is no ingester, or fewer than a shard has
/// copies.
pub open spec fn placement_refused(num_ingesters: nat, replication_factor: nat) -> bool {
    num_ingesters == 0 || replication_factor > num_ingesters
}

/// The first pass never places more than it was asked for.
pub proof fn lemma_first_pass_len(
    loads: Seq<LeaderLoadView>,
    cap: int,
    n: int,
    replicated: bool,
    i: int,
)
    requires
        0 <= n,
    ensures
        first_pass(loads, cap, n, replicated, i).len() <= n,
    decreases i,
{
    if i > 0 {
        lemma_first_pass_len(loads, cap, n, replicated, i - 1);
    }
}

/// The open shards that `node_id` leads.
pub open spec fn is_open_led_by(node_id: Seq<char>) -> spec_fn(ShardEntryView) -> bool {
    |entry: ShardEntryView| entry.is_open() && entry.shard.leader_id == node_id
}

/// The ingesters with the number of open shards that each of them leads.
pub open spec fn leader_loads(ingesters: Seq<Seq<char>>, shards: Seq<ShardEntryView>) -> Seq<
    LeaderLoadView,
> {
    Seq::new(
        ingesters.len(),
        |i: int|
            LeaderLoadView {
                node_id: ingesters[i],
                num_open_shards: shards.filter(is_open_led_by(ingesters[i])).len(),
            },
    )
}

/// The number of open shards that the ingesters of `loads` lead together.
pub open spec fn sum_loads(loads: Seq<LeaderLoadView>) -> nat
    decreases loads.len(),
{
    if loads.len() == 0 {
        0
    } else {
        sum_loads(loads.drop_last()) + loads.last().num_open_shards
    }
}

/// One more shard for one leader is one more shard in the sum.
proof fn lemma_sum_loads_update(loads: Seq<LeaderLoadView>, i: int, load: LeaderLoadView)
    requires
        0 <= i < loads.len(),
        load.num_open_shards == loads[i].num_open_shards + 1,
    ensures
        sum_loads(loads.update(i, load)) == sum_loads(loads) + 1,
    decreases loads.len(),
{
    let after = loads.update(i, load);
    if i == loads.len() - 1 {
        assert(after.drop_last() =~= loads.drop_last());
    } else {
        assert(after.drop_last() =~= loads.drop_last().update(i, load));
        lemma_sum_loads_update(loads.drop_last(), i, load);
    }
}

/// Unless the first pass has placed all `n` shards on the first `i` leaders,
/// it has filled each of them up to the cap.
proof fn lemma_first_pass_progress(
    loads: Seq<LeaderLoadView>,
    cap: int,
    n: int,
    replicated: bool,
    i: int,
)
    requires
        0 <= n,
        0 <= cap,
        0 <= i <= loads.len(),
    ensures
        first_pass(loads, cap, n, replicated, i).len() <= n,
        first_pass(loads, cap, n, replicated, i).len() == n || first_pass(
            loads,
            cap,
            n,
            replicated,
            i,
        ).len() >= i * cap - sum_loads(loads.take(i)),
    decreases i,
{
    if i > 0 {
        lemma_first_pass_progress(loads, cap, n, replicated, i - 1);
        let before = first_pass(loads, cap, n, replicated, i - 1);
        let load = loads[i - 1].num_open_shards as int;
        let share = first_pass_share(cap, load, n - before.len());
        assert(first_pass(loads, cap, n, replicated, i).len() == before.len() + share);
        assert(loads.take(i).drop_last() =~= loads.take(i - 1));
        assert(loads.take(i).last() == loads[i - 1]);
        assert(sum_loads(loads.take(i)) == sum_loads(loads.take(i - 1)) + load);
        assert(i * cap == (i - 1) * cap + cap) by (nonlinear_arith);
        if share != n - before.len() {
            assert(share >= cap - load);
        }
    } else {
        assert(loads.take(0) =~= Seq::<LeaderLoadView>::empty());
        assert(i * cap == 0) by (nonlinear_arith)
            requires
                i == 0,
        ;
    }
}

/// Where the open shards of the leaders are among the open shards that were
/// counted, each of the `n` new shards gets a place.
pub proof fn lemma_placement_len(
    loads: Seq<LeaderLoadView>,
    num_open_shards: nat,
    n: nat,
    replication_factor: nat,
)
    requires
        loads.len() > 0,
        sum_loads(loads) <= num_open_shards,
    ensures
        placement(loads, num_open_shards, n, replication_factor).len() == n,
{
    let len = loads.len() as int;
    let target = (n + num_open_shards) as int;
    let cap = placement_cap(loads.len(), num_open_shards, n);
    assert(0 <= cap && cap * len > target - len) by (nonlinear_arith)
        requires
            cap == target / len,
            len > 0,
            target >= 0,
    ;
    lemma_first_pass_progress(loads, cap, n as int, is_replicated(replication_factor), len);
    assert(loads.take(len) =~= loads);
    assert(len * cap == cap * len) by (nonlinear_arith);
}

/// The ids are in strictly ascending order.
pub open spec fn ascending(names: Seq<Seq<char>>) -> bool {
    forall|i: int, j: int| 0 <= i < j < names.len() ==> name_lt(names[i], names[j])
}

/// `names` lists the members of `set`, each once, in ascending order.
pub open spec fn lists_ascending(names: Seq<Seq<char>>, set: Set<Seq<char>>) -> bool {
    &&& ascending(names)
    &&& forall|name: Seq<char>| set.contains(name) <==> names.contains(name)
}

/// The members of a finite set of ids in ascending order.
pub open spec fn ascending_names(set: Set<Seq<char>>) -> Seq<Seq<char>> {
    choose|names: Seq<Seq<char>>| lists_ascending(names, set)
}

proof fn lemma_ascending_agree(a: Seq<Seq<char>>, b: Seq<Seq<char>>, set: Set<Seq<char>>, i: int)
    requires
        lists_ascending(a, set),
        lists_ascending(b, set),
        0 <= i <= a.len(),
    ensures
        i <= b.len(),
        forall|k: int| 0 <= k < i ==> a[k] == b[k],
    decreases i,
{
    if i > 0 {
        lemma_ascending_agree(a, b, set, i - 1);
        let x = a[i - 1];
        assert(a.contains(x));
        let j = choose|j: int| 0 <= j < b.len() && b[j] == x;
        if j < i - 1 {
            lemma_name_lt_asymmetric(a[j], a[i - 1]);
        }
        if j > i - 1 {
            let y = b[i - 1];
            assert(b.contains(y));
            let k = choose|k: int| 0 <= k < a.len() && a[k] == y;
            lemma_name_lt_asymmetric(b[i - 1], b[j]);
            if k < i - 1 {
                lemma_name_lt_asymmetric(b[k], b[i - 1]);
            } else if k > i - 1 {
                lemma_name_lt_asymmetric(a[i - 1], a[k]);
            }
        }
    }
}

/// A set of ids has one ascending listing.
pub proof fn lemma_ascending_unique(a: Seq<Seq<char>>, b: Seq<Seq<char>>, set: Set<Seq<char>>)
    requires
        lists_ascending(a, set),
        lists_ascending(b, set),
    ensures
        a == b,
{
    lemma_ascending_agree(a, b, set, a.len() as int);
    lemma_ascending_agree(b, a, set, b.len() as int);
    assert(a =~= b);
}

/// An ascending listing of a set is as long as the set is large.
pub proof fn lemma_ascending_len(names: Seq<Seq<char>>, set: Set<Seq<char>>)
    requires
        lists_ascending(names, set),
    ensures
        names.len() == set.len(),
        names.no_duplicates(),
{
    assert forall|i: int, j: int| 0 <= i < j < names.len() implies names[i] != names[j] by {
        lemma_name_lt_asymmetric(names[i], names[j]);
    }
    names.unique_seq_to_set();
    assert(names.to_set() =~= set);
}

/// `compare_names` as an `Ordering`.
fn node_id_ordering(left: &NodeId, right: &NodeId) -> (ordering: Ordering)
    ensures
        (ordering == Ordering::Less) == name_lt(left@, right@),
        (ordering == Ordering::Greater) == name_lt(right@, left@),
{
    match compare_names(left.as_str(), right.as_str()) {
        NameOrder::Before => Ordering::Less,
        NameOrder::Same => Ordering::Equal,
        NameOrder::After => Ordering::Greater,
    }
}

/// `Itertools::sorted_by` with `node_id_ordering`: the same node ids, each
/// as often as before, with none coming before one that it follows.
#[verifier::external_body]
fn sorted_node_ids(node_ids: Vec<NodeId>) -> (sorted: Vec<NodeId>)
    ensures
        views(sorted@).to_multiset() == views(node_ids@).to_multiset(),
        forall|i: int, j: int|
            0 <= i < j < sorted.len() ==> !name_lt(#[trigger] sorted[j]@, #[trigger] sorted[i]@),
{
    node_ids.into_iter().sorted_by(|left, right| node_id_ordering(left, right)).collect()
}

fn placement_at(loads: &Vec<LeaderLoad>, i: usize, replicated: bool) -> (pair: Placement)
    requires
        i < loads.len(),
    ensures
        (pair.0@, view_opt(pair.1)) == pair_at(views(loads@), i as int, replicated),
{
    let follower_id = if replicated {
        let next = (i + 1) % loads.len();
        Some(loads[next].node_id.clone())
    } else {
        None
    };
    (loads[i].node_id.clone(), follower_id)
}

/// Places `num_shards_to_allocate` new shards on the ingesters of `loads`,
/// which are the available ones in ascending order, each with the number of
/// open shards that it leads. `num_open_shards` counts the open shards.
pub fn place_shards(
    loads: &Vec<LeaderLoad>,
    num_open_shards: usize,
    num_shards_to_allocate: usize,
    replication_factor: usize,
) -> (placements: Option<Vec<Placement>>)
    ensures
        placements is None <==> placement_refused(loads.len() as nat, replication_factor as nat),
        placements matches Some(pairs) ==> placement_views(pairs@) == placement(
            views(loads@),
            num_open_shards as nat,
            num_shards_to_allocate as nat,
            replication_factor as nat,
        ),
{
    let num_ingesters = loads.len();
    if num_ingesters == 0 || replication_factor > num_ingesters {
        return None;
    }
    let replicated = replication_factor > 1;
    let target: u128 = num_shards_to_allocate as u128 + num_open_shards as u128;
    let cap: u128 = target / (num_ingesters as u128);
    let ghost spec_loads = views(loads@);
    let ghost n = num_shards_to_allocate as int;
    let mut pairs: Vec<Placement> = Vec::new();
    let mut remaining: usize = num_shards_to_allocate;
    let mut i: usize = 0;
    while i < num_ingesters
        invariant
            i <= num_ingesters,
            num_ingesters == loads.len(),
            spec_loads == views(loads@),
            n == num_shards_to_allocate,
            cap == placement_cap(
                loads.len() as nat,
                num_open_shards as nat,
                num_shards_to_allocate as nat,
            ),
            remaining == n - pairs.len(),
            placement_views(pairs@) == first_pass(spec_loads, cap as int, n, replicated, i as int),
        decreases num_ingesters - i,
    {
        let load: u128 = loads[i].num_open_shards as u128;
        let room: u128 = if cap > load {
            cap - load
        } else {
            0
        };
        let share: usize = if room < remaining as u128 {
            room as usize
        } else {
            remaining
        };
        let ghost before = placement_views(pairs@);
        proof {
            assert(spec_loads[i as int].num_open_shards == load);
            assert(share == first_pass_share(cap as int, load as int, n - before.len()));
        }
        let mut k: usize = 0;
        while k < share
            invariant
                k <= share,
                i < num_ingesters,
                num_ingesters == loads.len(),
                spec_loads == views(loads@),
                remaining == n - pairs.len(),
                share - k <= remaining,
                placement_views(pairs@) == before + Seq::new(
                    k as nat,
                    |j: int| pair_at(spec_loads, i as int, replicated),
                ),
            decreases share - k,
        {
            let pair = placement_at(loads, i, replicated);
            proof {
                lemma_placement_views_push(pairs@, pair);
            }
            pairs.push(pair);
            remaining -= 1;
            k += 1;
            proof {
                assert(placement_views(pairs@) =~= before + Seq::new(
                    k as nat,
                    |j: int| pair_at(spec_loads, i as int, replicated),
                ));
            }
        }
        i += 1;
    }
    let ghost first = placement_views(pairs@);
    let rounds: usize = if remaining < num_ingesters {
        remaining
    } else {
        num_ingesters
    };
    let mut i: usize = 0;
    while i < rounds
        invariant
            i <= rounds,
            rounds <= num_ingesters,
            num_ingesters == loads.len(),
            spec_loads == views(loads@),
            placement_views(pairs@) == first + Seq::new(
                i as nat,
                |k: int| pair_at(spec_loads, k, replicated),
            ),
        decreases rounds - i,
    {
        let pair = placement_at(loads, i, replicated);
        proof {
            lemma_placement_views_push(pairs@, pair);
        }
        pairs.push(pair);
        i += 1;
        proof {
            assert(placement_views(pairs@) =~= first + Seq::new(
                i as nat,
                |k: int| pair_at(spec_loads, k, replicated),
            ));
        }
    }
    Some(pairs)
}

/// Where `n` new shards go, given the live ingesters `pool`, the leaders
/// `gone` that are not to be used, and the shards of `model`. Nothing where
/// placement is refused.
pub open spec fn allocation(
    pool: Set<Seq<char>>,
    gone: Set<Seq<char>>,
    model: ModelView,
    n: nat,
    replication_factor: nat,
) -> Option<Seq<PlacementView>> {
    let ingesters = ascending_names(pool.difference(gone));
    let shards = model.all_shards();
    if placement_refused(ingesters.len(), replication_factor) {
        None
    } else {
        Some(
            placement(
                leader_loads(ingesters, shards),
                shards.filter(is_open_outside(gone)).len(),
                n,
                replication_factor,
            ),
        )
    }
}

fn position_of(ingesters: &Vec<NodeId>, node_id: &str) -> (found: Option<usize>)
    ensures
        match found {
            Some(i) => i < ingesters.len() && ingesters[i as int]@ == node_id@,
            None => forall|i: int| 0 <= i < ingesters.len() ==> ingesters[i]@ != node_id@,
        },
{
    let mut i: usize = 0;
    while i < ingesters.len()
        invariant
            i <= ingesters.len(),
            forall|j: int| 0 <= j < i ==> ingesters[j]@ != node_id@,
        decreases ingesters.len() - i,
    {
        if same_name(ingesters[i].as_str(), node_id) {
            return Some(i);
        }
        i += 1;
    }
    None
}

impl IngestController {
    /// Chooses a leader and, where shards are replicated, a follower for each
    /// of `num_shards_to_allocate` new shards, among the live ingesters that
    /// are not in `unavailable_leaders`. Refuses where there is no such
    /// ingester, or fewer of them than a shard has copies.
    pub fn allocate_shards(
        &self,
        num_shards_to_allocate: usize,
        unavailable_leaders: &FnvHashSet<NodeId>,
        model: &ControlPlaneModel,
    ) -> (placements: Option<Vec<Placement>>)
        requires
            self.wf(),
        ensures
            match placements {
                Some(pairs) => pairs.len() == num_shards_to_allocate && allocation(
                    self.ingesters(),
                    names_in(*unavailable_leaders),
                    model@,
                    num_shards_to_allocate as nat,
                    self.replication_factor() as nat,
                ) == Some(placement_views(pairs@)),
                None => allocation(
                    self.ingesters(),
                    names_in(*unavailable_leaders),
                    model@,
                    num_shards_to_allocate as nat,
                    self.replication_factor() as nat,
                ) is None,
            },
            lists_ascending(
                ascending_names(self.ingesters().difference(names_in(*unavailable_leaders))),
                self.ingesters().difference(names_in(*unavailable_leaders)),
            ),
    {
        let ingesters = self.ingester_pool().available(unavailable_leaders);
        let shards = model.all_shards();
        let ghost gone = names_in(*unavailable_leaders);
        let ghost names = views(ingesters@);
        let ghost entries = views(shards@);
        let mut loads: Vec<LeaderLoad> = Vec::new();
        let mut i: usize = 0;
        while i < ingesters.len()
            invariant
                i <= ingesters.len(),
                names == views(ingesters@),
                loads.len() == i,
                forall|j: int|
                    0 <= j < i ==> (#[trigger] loads[j])@ == (LeaderLoadView {
                        node_id: names[j],
                        num_open_shards: 0,
                    }),
            decreases ingesters.len() - i,
        {
            loads.push(LeaderLoad { node_id: ingesters[i].clone(), num_open_shards: 0 });
            i += 1;
        }
        proof {
            assert(entries.take(0) =~= Seq::<ShardEntryView>::empty());
            lemma_no_loads(names, gone);
            assert(views(loads@) =~= leader_loads(names, entries.take(0)));
            lemma_sum_zero(views(loads@));
        }
        let mut num_open_shards: usize = 0;
        let mut k: usize = 0;
        while k < shards.len()
            invariant
                k <= shards.len(),
                names == views(ingesters@),
                entries == views(shards@),
                gone == names_in(*unavailable_leaders),
                lists_ascending(names, self.ingesters().difference(gone)),
                loads.len() == ingesters.len(),
                views(loads@) == leader_loads(names, entries.take(k as int)),
                num_open_shards == entries.take(k as int).filter(is_open_outside(gone)).len(),
                num_open_shards <= k,
                sum_loads(views(loads@)) <= num_open_shards,
            decreases shards.len() - k,
        {
            let entry: &ShardEntry = shards[k];
            let ghost before = entries.take(k as int);
            let ghost after = entries.take(k + 1);
            let ghost old_loads = views(loads@);
            proof {
                assert(after =~= before.push(entry@));
                lemma_loads_step(names, gone, before, entry@);
            }
            if entry.is_open() && !node_set_contains(
                unavailable_leaders,
                entry.shard.leader_id.as_str(),
            ) {
                num_open_shards += 1;
                match position_of(&ingesters, entry.shard.leader_id.as_str()) {
                    Some(p) => {
                        proof {
                            assert(loads[p as int]@ == old_loads[p as int]);
                            assert(old_loads[p as int].num_open_shards <= k);
                        }
                        loads[p].num_open_shards += 1;
                        proof {
                            let new_loads = views(loads@);
                            assert(new_loads =~= old_loads.update(p as int, loads[p as int]@));
                            lemma_sum_loads_update(old_loads, p as int, loads[p as int]@);
                            assert forall|j: int| 0 <= j < names.len() && j != p implies names[j]
                                != names[p as int] by {
                                if j < p {
                                    lemma_name_lt_asymmetric(names[j], names[p as int]);
                                } else {
                                    lemma_name_lt_asymmetric(names[p as int], names[j]);
                                }
                            }
                            assert(new_loads =~= leader_loads(names, after));
                        }
                    },
                    None => {
                        proof {
                            assert(views(loads@) =~= leader_loads(names, after));
                        }
                    },
                }
            } else {
                proof {
                    assert forall|j: int| 0 <= j < names.len() implies !(entry@.is_open()
                        && entry@.shard.leader_id == #[trigger] names[j]) by {
                        if entry@.is_open() {
                            assert(names.contains(names[j]));
                        }
                    }
                    assert(views(loads@) =~= leader_loads(names, after));
                }
            }
            k += 1;
        }
        proof {
            assert(entries.take(shards.len() as int) =~= entries);
            if loads.len() > 0 {
                lemma_placement_len(
                    views(loads@),
                    num_open_shards as nat,
                    num_shards_to_allocate as nat,
                    self.replication_factor() as nat,
                );
            }
        }
        let placements = place_shards(
            &loads,
            num_open_shards,
            num_shards_to_allocate,
            self.replication_factor(),
        );
        proof {
            if placements is Some {
                assert(placement_views(placements->0@).len() == placements->0.len());
            }
        }
        placements
    }
}

/// Among no shards none is open.
proof fn lemma_no_loads(names: Seq<Seq<char>>, gone: Set<Seq<char>>)
    ensures
        Seq::<ShardEntryView>::empty().filter(is_open_outside(gone)).len() == 0,
        forall|j: int|
            0 <= j < names.len() ==> (#[trigger] leader_loads(
                names,
                Seq::<ShardEntryView>::empty(),
            )[j]).num_open_shards == 0,
{
    Seq::<ShardEntryView>::empty().lemma_filter_len(is_open_outside(gone));
    assert forall|j: int| 0 <= j < names.len() implies (#[trigger] leader_loads(
        names,
        Seq::<ShardEntryView>::empty(),
    )[j]).num_open_shards == 0 by {
        Seq::<ShardEntryView>::empty().lemma_filter_len(is_open_led_by(names[j]));
    }
}

/// What one more shard adds to the counts.
proof fn lemma_loads_step(
    names: Seq<Seq<char>>,
    gone: Set<Seq<char>>,
    before: Seq<ShardEntryView>,
    entry: ShardEntryView,
)
    ensures
        before.push(entry).filter(is_open_outside(gone)).len() == before.filter(
            is_open_outside(gone),
        ).len() + if is_open_outside(gone)(entry) {
            1int
        } else {
            0int
        },
        before.filter(is_open_outside(gone)).len() <= before.len(),
        forall|j: int|
            0 <= j < names.len() ==> (#[trigger] leader_loads(
                names,
                before.push(entry),
            )[j]).num_open_shards == leader_loads(names, before)[j].num_open_shards + if entry.is_open()
                && entry.shard.leader_id == names[j] {
                1int
            } else {
                0int
            } && leader_loads(names, before)[j].num_open_shards <= before.len(),
{
    before.lemma_filter_push(entry, is_open_outside(gone));
    before.lemma_filter_len(is_open_outside(gone));
    assert forall|j: int| 0 <= j < names.len() implies (#[trigger] leader_loads(
        names,
        before.push(entry),
    )[j]).num_open_shards == leader_loads(names, before)[j].num_open_shards + if entry.is_open()
        && entry.shard.leader_id == names[j] {
        1int
    } else {
        0int
    } && leader_loads(names, before)[j].num_open_shards <= before.len() by {
        before.lemma_filter_push(entry, is_open_led_by(names[j]));
        before.lemma_filter_len(is_open_led_by(names[j]));
    }
}

/// Leaders without open shards lead none together.
proof fn lemma_sum_zero(loads: Seq<LeaderLoadView>)
    requires
        forall|i: int| 0 <= i < loads.len() ==> (#[trigger] loads[i]).num_open_shards == 0,
    ensures
        sum_loads(loads) == 0,
    decreases loads.len(),
{
    if loads.len() > 0 {
        lemma_sum_zero(loads.drop_last());
    }
}

impl IngesterPool {
    /// The live ingesters that are not in `unavailable_leaders`, in ascending
    /// order.
    pub fn available(&self, unavailable_leaders: &FnvHashSet<NodeId>) -> (ingesters: Vec<NodeId>)
        requires
            self.wf(),
        ensures
            views(ingesters@) == ascending_names(self@.difference(names_in(*unavailable_leaders))),
            lists_ascending(views(ingesters@), self@.difference(names_in(*unavailable_leaders))),
    {
        let node_ids = self.keys();
        let ghost all = views(node_ids@);
        let ghost set = self@.difference(names_in(*unavailable_leaders));
        let mut candidates: Vec<NodeId> = Vec::new();
        let ghost mut origin: Seq<int> = Seq::empty();
        let mut i: usize = 0;
        while i < node_ids.len()
            invariant
                i <= node_ids.len(),
                all == views(node_ids@),
                all.no_duplicates(),
                origin.len() == candidates.len(),
                forall|k: int|
                    0 <= k < candidates.len() ==> 0 <= #[trigger] origin[k] < i && candidates[k]@
                        == all[origin[k]] && !names_in(*unavailable_leaders).contains(
                        all[origin[k]],
                    ),
                forall|j: int|
                    0 <= j < i && !names_in(*unavailable_leaders).contains(all[j])
                        ==> views(candidates@).contains(#[trigger] all[j]),
                views(candidates@).no_duplicates(),
            decreases node_ids.len() - i,
        {
            if !node_set_contains(unavailable_leaders, node_ids[i].as_str()) {
                let ghost before = views(candidates@);
                candidates.push(node_ids[i].clone());
                proof {
                    origin = origin.push(i as int);
                    let after = views(candidates@);
                    assert(after =~= before.push(all[i as int]));
                    assert forall|j: int|
                        0 <= j < i + 1 && !names_in(*unavailable_leaders).contains(
                            all[j],
                        ) implies after.contains(#[trigger] all[j]) by {
                        if j < i {
                            let k = choose|k: int| 0 <= k < before.len() && before[k] == all[j];
                            assert(after[k] == all[j]);
                        } else {
                            assert(after[before.len() as int] == all[j]);
                        }
                    }
                    assert forall|a: int, b: int| 0 <= a < b < after.len() implies after[a]
                        != after[b] by {
                        if b == before.len() {
                            assert(all[origin[a]] != all[i as int]);
                        } else {
                            assert(before[a] != before[b]);
                        }
                    }
                }
            }
            i += 1;
        }
        let ghost filtered = views(candidates@);
        proof {
            assert forall|name: Seq<char>| set.contains(name) <==> filtered.contains(name) by {
                if set.contains(name) {
                    assert(all.to_set().contains(name));
                    let j = choose|j: int| 0 <= j < all.len() && all[j] == name;
                    assert(filtered.contains(all[j]));
                }
                if filtered.contains(name) {
                    let k = choose|k: int| 0 <= k < filtered.len() && filtered[k] == name;
                    assert(all.to_set().contains(all[origin[k]]));
                }
            }
        }
        let ingesters = sorted_node_ids(candidates);
        proof {
            broadcast use vstd::seq_lib::to_multiset_contains;

            let sorted = views(ingesters@);
            filtered.lemma_multiset_has_no_duplicates();
            sorted.lemma_multiset_has_no_duplicates_conv();
            assert forall|a: int, b: int| 0 <= a < b < sorted.len() implies name_lt(
                sorted[a],
                sorted[b],
            ) by {
                assert(!name_lt(ingesters[b]@, ingesters[a]@));
                lemma_name_lt_total(sorted[a], sorted[b]);
            }
            assert forall|name: Seq<char>| set.contains(name) <==> sorted.contains(name) by {
                assert(filtered.contains(name) <==> filtered.to_multiset().count(name) > 0);
                assert(sorted.contains(name) <==> sorted.to_multiset().count(name) > 0);
            }
            assert(lists_ascending(sorted, set));
            lemma_ascending_unique(sorted, ascending_names(set), set);
        }
        ingesters
    }
}

/// The ids of the ingesters of `loads`.
pub open spec fn node_ids_of(loads: Seq<LeaderLoadView>) -> Seq<Seq<char>> {
    Seq::new(loads.len(), |i: int| loads[i].node_id)
}

/// The placements whose leader is `node_id`.
pub open spec fn is_led_by(node_id: Seq<char>) -> spec_fn(PlacementView) -> bool {
    |pair: PlacementView| pair.0 == node_id
}

/// The share of a node in `target` shards over `num_ingesters` nodes,
/// rounded up.
pub open spec fn placement_ceiling(num_ingesters: nat, target: nat) -> int {
    (target + num_ingesters - 1) as int / num_ingesters as int
}

/// The place after `i` in a round of `len` places.
proof fn lemma_next_place(i: int, len: int)
    requires
        0 <= i < len,
        2 <= len,
    ensures
        0 <= (i + 1) % len < len,
        (i + 1) % len != i,
{
    if i + 1 < len {
        vstd::arithmetic::div_mod::lemma_small_mod((i + 1) as nat, len as nat);
    } else {
        vstd::arithmetic::div_mod::lemma_mod_self_0(len);
    }
}

/// Each placement of the first pass is the pair of one of the leaders.
proof fn lemma_first_pass_members(
    loads: Seq<LeaderLoadView>,
    cap: int,
    n: int,
    replicated: bool,
    i: int,
    k: int,
)
    requires
        0 <= i <= loads.len(),
        0 <= k < first_pass(loads, cap, n, replicated, i).len(),
    ensures
        exists|j: int|
            0 <= j < loads.len() && first_pass(loads, cap, n, replicated, i)[k] == #[trigger] pair_at(
                loads,
                j,
                replicated,
            ),
    decreases i,
{
    if i > 0 {
        let before = first_pass(loads, cap, n, replicated, i - 1);
        if k < before.len() {
            lemma_first_pass_members(loads, cap, n, replicated, i - 1, k);
        } else {
            assert(first_pass(loads, cap, n, replicated, i)[k] == pair_at(loads, i - 1, replicated));
        }
    }
}

/// Each placement is the pair of one of the leaders.
pub proof fn lemma_placement_members(
    loads: Seq<LeaderLoadView>,
    num_open_shards: nat,
    n: nat,
    replication_factor: nat,
    k: int,
)
    requires
        0 <= k < placement(loads, num_open_shards, n, replication_factor).len(),
    ensures
        exists|j: int|
            0 <= j < loads.len() && placement(loads, num_open_shards, n, replication_factor)[k]
                == #[trigger] pair_at(loads, j, is_replicated(replication_factor)),
{
    let cap = placement_cap(loads.len(), num_open_shards, n);
    let replicated = is_replicated(replication_factor);
    let first = first_pass(loads, cap, n as int, replicated, loads.len() as int);
    let second = second_pass(loads, n - first.len(), replicated);
    let all = placement(loads, num_open_shards, n, replication_factor);
    lemma_first_pass_len(loads, cap, n as int, replicated, loads.len() as int);
    if k < first.len() {
        lemma_first_pass_members(loads, cap, n as int, replicated, loads.len() as int, k);
        assert(all[k] == first[k]);
        let j = choose|j: int|
            0 <= j < loads.len() && first[k] == #[trigger] pair_at(loads, j, replicated);
        assert(0 <= j < loads.len() && all[k] == pair_at(
            loads,
            j,
            is_replicated(replication_factor),
        ));
    } else {
        let j = k - first.len();
        assert(all[k] == second[j]);
        assert(0 <= j < loads.len() && all[k] == pair_at(
            loads,
            j,
            is_replicated(replication_factor),
        ));
    }
}

/// Where shards are replicated, each new shard has a follower, which is not
/// its leader. Where they are not, no new shard has a follower.
pub proof fn lemma_follower_differs_from_leader(
    loads: Seq<LeaderLoadView>,
    num_open_shards: nat,
    n: nat,
    replication_factor: nat,
    k: int,
)
    requires
        ascending(node_ids_of(loads)),
        !placement_refused(loads.len(), replication_factor),
        0 <= k < placement(loads, num_open_shards, n, replication_factor).len(),
    ensures
        ({
            let pair = placement(loads, num_open_shards, n, replication_factor)[k];
            &&& replication_factor > 1 ==> pair.1 is Some && pair.1 != Some(pair.0)
            &&& replication_factor <= 1 ==> pair.1 is None
        }),
{
    lemma_placement_members(loads, num_open_shards, n, replication_factor, k);
    let j = choose|j: int|
        0 <= j < loads.len() && placement(loads, num_open_shards, n, replication_factor)[k]
            == #[trigger] pair_at(loads, j, is_replicated(replication_factor));
    if replication_factor > 1 {
        let len = loads.len() as int;
        let next = (j + 1) % len;
        lemma_next_place(j, len);
        let ids = node_ids_of(loads);
        assert(ids[j] == loads[j].node_id && ids[next] == loads[next].node_id);
        if next < j {
            lemma_name_lt_asymmetric(ids[next], ids[j]);
        } else {
            lemma_name_lt_asymmetric(ids[j], ids[next]);
        }
    }
}

/// How many of `count` placements on the leader at place `i` are led by the
/// leader at place `j`.
proof fn lemma_repeated_led_by(
    loads: Seq<LeaderLoadView>,
    i: int,
    j: int,
    replicated: bool,
    count: nat,
)
    requires
        ascending(node_ids_of(loads)),
        0 <= i < loads.len(),
        0 <= j < loads.len(),
    ensures
        Seq::new(count, |k: int| pair_at(loads, i, replicated)).filter(
            is_led_by(loads[j].node_id),
        ).len() == if i == j {
            count
        } else {
            0
        },
    decreases count,
{
    let pairs = Seq::new(count, |k: int| pair_at(loads, i, replicated));
    let pred = is_led_by(loads[j].node_id);
    if count == 0 {
        pairs.lemma_filter_len(pred);
    } else {
        let shorter = Seq::new((count - 1) as nat, |k: int| pair_at(loads, i, replicated));
        lemma_repeated_led_by(loads, i, j, replicated, (count - 1) as nat);
        assert(pairs =~= shorter.push(pair_at(loads, i, replicated)));
        shorter.lemma_filter_push(pair_at(loads, i, replicated), pred);
        lemma_distinct_ids(loads, i, j);
    }
}

/// Leaders at different places have different ids.
proof fn lemma_distinct_ids(loads: Seq<LeaderLoadView>, i: int, j: int)
    requires
        ascending(node_ids_of(loads)),
        0 <= i < loads.len(),
        0 <= j < loads.len(),
    ensures
        i != j ==> loads[i].node_id != loads[j].node_id,
{
    let ids = node_ids_of(loads);
    assert(ids[i] == loads[i].node_id && ids[j] == loads[j].node_id);
    if i < j {
        lemma_name_lt_asymmetric(ids[i], ids[j]);
    } else if j < i {
        lemma_name_lt_asymmetric(ids[j], ids[i]);
    }
}

/// The first pass gives the leader at place `j` no more than it lacks to the
/// cap.
proof fn lemma_first_pass_led_by(
    loads: Seq<LeaderLoadView>,
    cap: int,
    n: int,
    replicated: bool,
    i: int,
    j: int,
)
    requires
        ascending(node_ids_of(loads)),
        0 <= n,
        0 <= i <= loads.len(),
        0 <= j < loads.len(),
    ensures
        first_pass(loads, cap, n, replicated, i).filter(is_led_by(loads[j].node_id)).len() <= if cap
            > loads[j].num_open_shards {
            cap - loads[j].num_open_shards
        } else {
            0
        },
    decreases i,
{
    let pred = is_led_by(loads[j].node_id);
    if i <= 0 {
        first_pass(loads, cap, n, replicated, i).lemma_filter_len(pred);
    } else {
        let before = first_pass(loads, cap, n, replicated, i - 1);
        lemma_first_pass_len(loads, cap, n, replicated, i - 1);
        let share = first_pass_share(cap, loads[i - 1].num_open_shards as int, n - before.len());
        let added = Seq::new(share as nat, |k: int| pair_at(loads, i - 1, replicated));
        lemma_first_pass_led_by(loads, cap, n, replicated, i - 1, j);
        lemma_repeated_led_by(loads, i - 1, j, replicated, share as nat);
        Seq::filter_distributes_over_add(before, added, pred);
        if i - 1 == j {
            lemma_first_pass_skips(loads, cap, n, replicated, i - 1, j);
        }
    }
}

/// The first pass gives nothing to a leader before it comes to it.
proof fn lemma_first_pass_skips(
    loads: Seq<LeaderLoadView>,
    cap: int,
    n: int,
    replicated: bool,
    i: int,
    j: int,
)
    requires
        ascending(node_ids_of(loads)),
        0 <= n,
        0 <= i <= j < loads.len(),
    ensures
        first_pass(loads, cap, n, replicated, i).filter(is_led_by(loads[j].node_id)).len() == 0,
    decreases i,
{
    let pred = is_led_by(loads[j].node_id);
    if i <= 0 {
        first_pass(loads, cap, n, replicated, i).lemma_filter_len(pred);
    } else {
        let before = first_pass(loads, cap, n, replicated, i - 1);
        lemma_first_pass_len(loads, cap, n, replicated, i - 1);
        let share = first_pass_share(cap, loads[i - 1].num_open_shards as int, n - before.len());
        let added = Seq::new(share as nat, |k: int| pair_at(loads, i - 1, replicated));
        lemma_first_pass_skips(loads, cap, n, replicated, i - 1, j);
        lemma_repeated_led_by(loads, i - 1, j, replicated, share as nat);
        Seq::filter_distributes_over_add(before, added, pred);
    }
}

/// The second pass gives a leader one shard at most.
proof fn lemma_second_pass_led_by(
    loads: Seq<LeaderLoadView>,
    replicated: bool,
    j: int,
    count: nat,
)
    requires
        ascending(node_ids_of(loads)),
        0 <= j < loads.len(),
        count <= loads.len(),
    ensures
        Seq::new(count, |k: int| pair_at(loads, k, replicated)).filter(
            is_led_by(loads[j].node_id),
        ).len() == if j < count {
            1nat
        } else {
            0nat
        },
    decreases count,
{
    let pairs = Seq::new(count, |k: int| pair_at(loads, k, replicated));
    let pred = is_led_by(loads[j].node_id);
    if count == 0 {
        pairs.lemma_filter_len(pred);
    } else {
        let shorter = Seq::new((count - 1) as nat, |k: int| pair_at(loads, k, replicated));
        lemma_second_pass_led_by(loads, replicated, j, (count - 1) as nat);
        assert(pairs =~= shorter.push(pair_at(loads, count - 1, replicated)));
        shorter.lemma_filter_push(pair_at(loads, count - 1, replicated), pred);
        lemma_distinct_ids(loads, count - 1, j);
    }
}

/// A leader gets, of the new shards, what it lacks to the cap of the first
/// pass and one more at most.
pub proof fn lemma_new_shards_of_leader(
    loads: Seq<LeaderLoadView>,
    num_open_shards: nat,
    n: nat,
    replication_factor: nat,
    j: int,
)
    requires
        ascending(node_ids_of(loads)),
        0 <= j < loads.len(),
    ensures
        ({
            let cap = placement_cap(loads.len(), num_open_shards, n);
            let new_shards = placement(loads, num_open_shards, n, replication_factor).filter(
                is_led_by(loads[j].node_id),
            ).len();
            &&& cap <= loads[j].num_open_shards ==> new_shards <= 1
            &&& cap > loads[j].num_open_shards ==> new_shards <= cap - loads[j].num_open_shards + 1
        }),
{
    let len = loads.len() as int;
    let cap = placement_cap(loads.len(), num_open_shards, n);
    let replicated = is_replicated(replication_factor);
    let pred = is_led_by(loads[j].node_id);
    let first = first_pass(loads, cap, n as int, replicated, len);
    let second = second_pass(loads, n - first.len(), replicated);
    lemma_first_pass_len(loads, cap, n as int, replicated, len);
    lemma_first_pass_led_by(loads, cap, n as int, replicated, len, j);
    lemma_second_pass_led_by(loads, replicated, j, second.len());
    Seq::filter_distributes_over_add(first, second, pred);
}

/// With the new shards, a leader leads at most one shard more than the
/// larger of what it led before and the share of a node in all open shards,
/// rounded up. So a leader that was not above that share is at most one
/// above it afterwards.
pub proof fn lemma_load_after_placement(
    loads: Seq<LeaderLoadView>,
    num_open_shards: nat,
    n: nat,
    replication_factor: nat,
    j: int,
)
    requires
        ascending(node_ids_of(loads)),
        0 <= j < loads.len(),
    ensures
        ({
            let before = loads[j].num_open_shards;
            let after = before + placement(loads, num_open_shards, n, replication_factor).filter(
                is_led_by(loads[j].node_id),
            ).len();
            let ceiling = placement_ceiling(loads.len(), n + num_open_shards);
            &&& after <= before + 1 || after <= ceiling + 1
            &&& before <= ceiling ==> after <= ceiling + 1
        }),
{
    let len = loads.len() as int;
    let target = (n + num_open_shards) as int;
    let cap = placement_cap(loads.len(), num_open_shards, n);
    let ceiling = placement_ceiling(loads.len(), n + num_open_shards);
    assert(cap <= ceiling) by {
        vstd::arithmetic::div_mod::lemma_div_is_ordered(target, target + len - 1, len);
    }
    lemma_new_shards_of_leader(loads, num_open_shards, n, replication_factor, j);
}

/// The shards that the controller places have a follower, which is not
/// their leader, where shards are replicated, and none where they are not.
pub proof fn lemma_allocation_followers(
    pool: Set<Seq<char>>,
    gone: Set<Seq<char>>,
    model: ModelView,
    n: nat,
    replication_factor: nat,
    k: int,
)
    requires
        lists_ascending(ascending_names(pool.difference(gone)), pool.difference(gone)),
        allocation(pool, gone, model, n, replication_factor) is Some,
        0 <= k < allocation(pool, gone, model, n, replication_factor)->0.len(),
    ensures
        ({
            let pair = allocation(pool, gone, model, n, replication_factor)->0[k];
            &&& replication_factor > 1 ==> pair.1 is Some && pair.1 != Some(pair.0)
            &&& replication_factor <= 1 ==> pair.1 is None
        }),
{
    let ingesters = ascending_names(pool.difference(gone));
    let shards = model.all_shards();
    let loads = leader_loads(ingesters, shards);
    assert(node_ids_of(loads) =~= ingesters);
    lemma_follower_differs_from_leader(
        loads,
        shards.filter(is_open_outside(gone)).len(),
        n,
        replication_factor,
        k,
    );
}

/// With the shards that the controller places, the available ingester at
/// place `j` of the ascending order leads at most one shard more than the
/// share of an ingester in the open shards, rounded up, unless it led more
/// than that share before.
pub proof fn lemma_allocation_load(
    pool: Set<Seq<char>>,
    gone: Set<Seq<char>>,
    model: ModelView,
    n: nat,
    replication_factor: nat,
    j: int,
)
    requires
        lists_ascending(ascending_names(pool.difference(gone)), pool.difference(gone)),
        allocation(pool, gone, model, n, replication_factor) is Some,
        0 <= j < ascending_names(pool.difference(gone)).len(),
        model.all_shards().filter(is_open_led_by(ascending_names(pool.difference(gone))[j])).len()
            <= placement_ceiling(
            ascending_names(pool.difference(gone)).len(),
            n + model.all_shards().filter(is_open_outside(gone)).len(),
        ),
    ensures
        ({
            let ingesters = ascending_names(pool.difference(gone));
            let shards = model.all_shards();
            shards.filter(is_open_led_by(ingesters[j])).len() + allocation(
                pool,
                gone,
                model,
                n,
                replication_factor,
            )->0.filter(is_led_by(ingesters[j])).len() <= placement_ceiling(
                ingesters.len(),
                n + shards.filter(is_open_outside(gone)).len(),
            ) + 1
        }),
{
    let ingesters = ascending_names(pool.difference(gone));
    let shards = model.all_shards();
    let loads = leader_loads(ingesters, shards);
    assert(node_ids_of(loads) =~= ingesters);
    lemma_load_after_placement(
        loads,
        shards.filter(is_open_outside(gone)).len(),
        n,
        replication_factor,
        j,
    );
}

} // verus!
