//! Grouping by leader.

use crate::names::same_name;
use crate::types::{views, NodeId};
use vstd::prelude::*;

verus! {

/// The leaders of `leader_ids`, each once, in the order in which they come
/// first.
pub open spec fn distinct_in_order(leader_ids: Seq<Seq<char>>) -> Seq<Seq<char>>
    decreases leader_ids.len(),
{
    if leader_ids.len() == 0 {
        Seq::empty()
    } else {
        let before = distinct_in_order(leader_ids.drop_last());
        if before.contains(leader_ids.last()) {
            before
        } else {
            before.push(leader_ids.last())
        }
    }
}

/// The places at which `leader_id` stands in `leader_ids`, in ascending
/// order.
pub open spec fn places_of(leader_ids: Seq<Seq<char>>, leader_id: Seq<char>) -> Seq<usize>
    decreases leader_ids.len(),
{
    if leader_ids.len() == 0 {
        Seq::empty()
    } else {
        let before = places_of(leader_ids.drop_last(), leader_id);
        if leader_ids.last() == leader_id {
            before.push((leader_ids.len() - 1) as usize)
        } else {
            before
        }
    }
}

/// A leader and the places of what goes to it.
#[derive(Debug)]
pub struct LeaderGroup {
    pub leader_id: NodeId,
    pub places: Vec<usize>,
}

/// What a value of `LeaderGroup` stands for.
pub struct LeaderGroupView {
    pub leader_id: Seq<char>,
    pub places: Seq<usize>,
}

impl View for LeaderGroup {
    type V = LeaderGroupView;

    open spec fn view(&self) -> LeaderGroupView {
        LeaderGroupView { leader_id: self.leader_id@, places: self.places@ }
    }
}

/// One group for each leader of `leader_ids`, in the order in which the
/// leaders come first, each with the places at which its leader stands.
pub open spec fn leader_groups(leader_ids: Seq<Seq<char>>) -> Seq<LeaderGroupView> {
    let leaders = distinct_in_order(leader_ids);
    Seq::new(
        leaders.len(),
        |g: int| LeaderGroupView { leader_id: leaders[g], places: places_of(leader_ids, leaders[g]) },
    )
}

/// The places of a leader are places of the list.
pub proof fn lemma_places_in_range(leader_ids: Seq<Seq<char>>, leader_id: Seq<char>, k: int)
    requires
        0 <= k < places_of(leader_ids, leader_id).len(),
        leader_ids.len() <= usize::MAX,
    ensures
        places_of(leader_ids, leader_id)[k] < leader_ids.len(),
        leader_ids[places_of(leader_ids, leader_id)[k] as int] == leader_id,
    decreases leader_ids.len(),
{
    if leader_ids.len() > 0 {
        let before = places_of(leader_ids.drop_last(), leader_id);
        if k < before.len() {
            lemma_places_in_range(leader_ids.drop_last(), leader_id, k);
        }
    }
}

/// No leader has a place in a list in which it does not stand.
proof fn lemma_no_places(leader_ids: Seq<Seq<char>>, leader_id: Seq<char>)
    requires
        !leader_ids.contains(leader_id),
    ensures
        places_of(leader_ids, leader_id) == Seq::<usize>::empty(),
    decreases leader_ids.len(),
{
    if leader_ids.len() > 0 {
        assert(leader_ids.last() == leader_ids[leader_ids.len() - 1]);
        assert forall|i: int| 0 <= i < leader_ids.drop_last().len() implies leader_ids.drop_last()[i]
            != leader_id by {
            assert(leader_ids[i] == leader_ids.drop_last()[i]);
        }
        lemma_no_places(leader_ids.drop_last(), leader_id);
    }
}

/// The distinct leaders of a list are those that stand in it, each once.
pub proof fn lemma_distinct_in_order(leader_ids: Seq<Seq<char>>)
    ensures
        distinct_in_order(leader_ids).no_duplicates(),
        forall|leader_id: Seq<char>|
            distinct_in_order(leader_ids).contains(leader_id) <==> leader_ids.contains(leader_id),
    decreases leader_ids.len(),
{
    if leader_ids.len() > 0 {
        let shorter = leader_ids.drop_last();
        let before = distinct_in_order(shorter);
        let after = distinct_in_order(leader_ids);
        lemma_distinct_in_order(shorter);
        assert forall|leader_id: Seq<char>| after.contains(leader_id) <==> leader_ids.contains(
            leader_id,
        ) by {
            if after.contains(leader_id) {
                let k = choose|k: int| 0 <= k < after.len() && after[k] == leader_id;
                if k < before.len() {
                    assert(before[k] == leader_id);
                    assert(before.contains(leader_id));
                    assert(shorter.contains(leader_id));
                    let i = choose|i: int| 0 <= i < shorter.len() && shorter[i] == leader_id;
                    assert(leader_ids[i] == leader_id);
                } else {
                    assert(leader_ids[leader_ids.len() - 1] == leader_id);
                }
            }
            if leader_ids.contains(leader_id) {
                let i = choose|i: int| 0 <= i < leader_ids.len() && leader_ids[i] == leader_id;
                if i < shorter.len() {
                    assert(shorter[i] == leader_id);
                    assert(shorter.contains(leader_id));
                    assert(before.contains(leader_id));
                    let k = choose|k: int| 0 <= k < before.len() && before[k] == leader_id;
                    assert(after[k] == leader_id);
                } else if before.contains(leader_id) {
                } else {
                    assert(after[before.len() as int] == leader_id);
                }
            }
        }
    }
}

/// Groups what goes to the same leader. `leader_ids` holds the leader of
/// each item.
pub fn group_by_leader(leader_ids: &Vec<NodeId>) -> (groups: Vec<LeaderGroup>)
    ensures
        views(groups@) == leader_groups(views(leader_ids@)),
        forall|g: int, k: int|
            0 <= g < groups.len() && 0 <= k < groups[g].places.len() ==> (
            #[trigger] groups[g].places[k]) < leader_ids.len(),
{
    let ghost all = views(leader_ids@);
    let mut groups: Vec<LeaderGroup> = Vec::new();
    let mut i: usize = 0;
    while i < leader_ids.len()
        invariant
            i <= leader_ids.len(),
            all == views(leader_ids@),
            groups.len() == distinct_in_order(all.take(i as int)).len(),
            forall|g: int|
                0 <= g < groups.len() ==> (#[trigger] groups[g])@ == (LeaderGroupView {
                    leader_id: distinct_in_order(all.take(i as int))[g],
                    places: places_of(all.take(i as int), distinct_in_order(all.take(i as int))[g]),
                }),
        decreases leader_ids.len() - i,
    {
        let ghost before = all.take(i as int);
        let ghost after = all.take(i + 1);
        let ghost leaders = distinct_in_order(before);
        proof {
            assert(after.drop_last() =~= before);
            assert(after.last() == all[i as int]);
            lemma_distinct_in_order(before);
        }
        let mut g: usize = 0;
        while g < groups.len() && !same_name(groups[g].leader_id.as_str(), leader_ids[i].as_str())
            invariant
                g <= groups.len(),
                i < leader_ids.len(),
                all == views(leader_ids@),
                groups.len() == leaders.len(),
                forall|h: int| 0 <= h < groups.len() ==> (#[trigger] groups[h])@.leader_id == leaders[h],
                forall|h: int| 0 <= h < g ==> leaders[h] != all[i as int],
            decreases groups.len() - g,
        {
            g += 1;
        }
        if g < groups.len() {
            let ghost old_groups = groups@;
            groups[g].places.push(i);
            proof {
                assert(leaders[g as int] == all[i as int]);
                assert(leaders.contains(all[i as int]));
                assert(distinct_in_order(after) == leaders);
                assert forall|h: int| 0 <= h < groups.len() implies (#[trigger] groups[h])@ == (
                LeaderGroupView {
                    leader_id: leaders[h],
                    places: places_of(after, leaders[h]),
                }) by {
                    assert(old_groups[h]@.leader_id == leaders[h]);
                    if h != g {
                        assert(leaders[h] != leaders[g as int]);
                        assert(groups[h] == old_groups[h]);
                    }
                }
            }
        } else {
            let mut places: Vec<usize> = Vec::new();
            places.push(i);
            let ghost old_groups = groups@;
            groups.push(LeaderGroup { leader_id: leader_ids[i].clone(), places });
            proof {
                assert(!leaders.contains(all[i as int]));
                assert(distinct_in_order(after) == leaders.push(all[i as int]));
                assert(!before.contains(all[i as int]));
                lemma_no_places(before, all[i as int]);
                assert(places@ =~= places_of(after, all[i as int]));
                assert forall|h: int| 0 <= h < groups.len() implies (#[trigger] groups[h])@ == (
                LeaderGroupView {
                    leader_id: distinct_in_order(after)[h],
                    places: places_of(after, distinct_in_order(after)[h]),
                }) by {
                    if h < old_groups.len() {
                        assert(groups[h] == old_groups[h]);
                        assert(old_groups[h]@.leader_id == leaders[h]);
                        assert(leaders[h] != all[i as int]);
                    }
                }
            }
        }
        i += 1;
    }
    proof {
        assert(all.take(leader_ids.len() as int) =~= all);
        assert(views(groups@) =~= leader_groups(all));
        assert forall|g: int, k: int|
            0 <= g < groups.len() && 0 <= k < groups[g].places.len() implies (
        #[trigger] groups[g].places[k]) < leader_ids.len() by {
            assert(groups[g]@.places == places_of(all, distinct_in_order(all)[g]));
            lemma_places_in_range(all, distinct_in_order(all)[g], k);
        }
    }
    groups
}

} // verus!
