//! Sets of node ids, kept in an `FnvHashSet`.

use crate::types::{views, NodeId};
use fnv::{FnvHashSet, FnvHasher};
use std::hash::BuildHasherDefault;
use vstd::prelude::*;

verus! {

/// `fnv::FnvHasher`, the hasher of an `FnvHashSet`. Nothing is known of it
/// here.
#[verifier::external_type_specification]
#[verifier::external_body]
pub struct ExFnvHasher(FnvHasher);

/// `std::hash::BuildHasherDefault`, which makes the hashers of an
/// `FnvHashSet`. Nothing is known of it here.
#[verifier::external_type_specification]
#[verifier::external_body]
#[verifier::reject_recursive_types(H)]
pub struct ExBuildHasherDefault<H>(BuildHasherDefault<H>);

/// The node ids that an `FnvHashSet` holds.
pub uninterp spec fn names_in(set: FnvHashSet<String>) -> Set<Seq<char>>;

/// `FnvHashSet::default`: a set that holds nothing.
#[verifier::external_body]
pub(crate) fn node_set_new() -> (set: FnvHashSet<NodeId>)
    ensures
        names_in(set) == Set::<Seq<char>>::empty(),
{
    FnvHashSet::default()
}

/// `HashSet::insert`: afterwards the set holds `node_id` besides what it
/// held before.
#[verifier::external_body]
pub(crate) fn node_set_insert(set: &mut FnvHashSet<NodeId>, node_id: NodeId)
    ensures
        names_in(*final(set)) == names_in(*old(set)).insert(node_id@),
{
    set.insert(node_id);
}

/// `HashSet::contains`: whether the set holds `node_id`.
#[verifier::external_body]
pub(crate) fn node_set_contains(set: &FnvHashSet<NodeId>, node_id: &str) -> (found: bool)
    ensures
        found == names_in(*set).contains(node_id@),
{
    set.contains(node_id)
}

/// `HashSet::is_empty`: whether the set holds nothing.
#[verifier::external_body]
pub(crate) fn node_set_is_empty(set: &FnvHashSet<NodeId>) -> (empty: bool)
    ensures
        empty == (names_in(*set) == Set::<Seq<char>>::empty()),
{
    set.is_empty()
}

/// `HashSet::iter`: the node ids of the set, each once, in the order in
/// which the set hands them out.
#[verifier::external_body]
pub(crate) fn node_set_members(set: &FnvHashSet<NodeId>) -> (node_ids: Vec<NodeId>)
    ensures
        views(node_ids@).no_duplicates(),
        views(node_ids@).to_set() == names_in(*set),
{
    set.iter().cloned().collect()
}

/// The set of the node ids of a list.
pub fn node_set_of(node_ids: &Vec<NodeId>) -> (set: FnvHashSet<NodeId>)
    ensures
        names_in(set) == views(node_ids@).to_set(),
{
    let mut set = node_set_new();
    let mut i: usize = 0;
    while i < node_ids.len()
        invariant
            i <= node_ids.len(),
            names_in(set) == views(node_ids@).take(i as int).to_set(),
        decreases node_ids.len() - i,
    {
        node_set_insert(&mut set, node_ids[i].clone());
        proof {
            let names = views(node_ids@);
            assert(names.take(i + 1) =~= names.take(i as int).push(names[i as int]));
            assert(names.take(i + 1).to_set() =~= names.take(i as int).to_set().insert(
                names[i as int],
            )) by {
                let shorter = names.take(i as int);
                let longer = names.take(i + 1);
                assert forall|name: Seq<char>| longer.to_set().contains(name) implies shorter.to_set().insert(
                    names[i as int],
                ).contains(name) by {
                    let k = choose|k: int| 0 <= k < longer.len() && longer[k] == name;
                    if k < i {
                        assert(shorter[k] == name);
                    }
                }
                assert forall|name: Seq<char>|
                    shorter.to_set().insert(names[i as int]).contains(name) implies longer.to_set().contains(
                    name,
                ) by {
                    if name == names[i as int] {
                        assert(longer[i as int] == name);
                    } else {
                        let k = choose|k: int| 0 <= k < shorter.len() && shorter[k] == name;
                        assert(longer[k] == name);
                    }
                }
            }
        }
        i += 1;
    }
    proof {
        assert(views(node_ids@).take(node_ids.len() as int) =~= views(node_ids@));
    }
    set
}

} // verus!
