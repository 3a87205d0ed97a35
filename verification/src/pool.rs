//! The live ingesters.

use crate::names::same_name;
use crate::types::{clone_names, views, NodeId};
use vstd::prelude::*;

verus! {

/// The ingester nodes that are alive, each held once.
#[derive(Debug)]
pub struct IngesterPool {
    node_ids: Vec<NodeId>,
}

impl View for IngesterPool {
    type V = Set<Seq<char>>;

    /// The node ids of the pool.
    closed spec fn view(&self) -> Set<Seq<char>> {
        views(self.node_ids@).to_set()
    }
}

impl IngesterPool {
    /// No node is held twice.
    pub closed spec fn wf(&self) -> bool {
        views(self.node_ids@).no_duplicates()
    }

    /// The empty pool.
    pub fn new() -> (pool: Self)
        ensures
            pool.wf(),
            pool@ == Set::<Seq<char>>::empty(),
    {
        let pool = IngesterPool { node_ids: Vec::new() };
        proof {
            assert(pool@ =~= Set::<Seq<char>>::empty());
        }
        pool
    }

    fn position(&self, node_id: &str) -> (found: Option<usize>)
        ensures
            match found {
                Some(i) => i < self.node_ids.len() && self.node_ids[i as int]@ == node_id@,
                None => !self@.contains(node_id@),
            },
            found is Some <==> exists|i: int|
                0 <= i < self.node_ids.len() && self.node_ids[i]@ == node_id@,
    {
        let mut i: usize = 0;
        while i < self.node_ids.len()
            invariant
                i <= self.node_ids.len(),
                forall|j: int| 0 <= j < i ==> self.node_ids[j]@ != node_id@,
            decreases self.node_ids.len() - i,
        {
            if same_name(self.node_ids[i].as_str(), node_id) {
                return Some(i);
            }
            i += 1;
        }
        None
    }

    /// Whether `node_id` is alive.
    pub fn contains_key(&self, node_id: &str) -> (found: bool)
        ensures
            found == self@.contains(node_id@),
    {
        match self.position(node_id) {
            Some(i) => {
                proof {
                    assert(views(self.node_ids@)[i as int] == node_id@);
                }
                true
            },
            None => false,
        }
    }

    /// Adds `node_id` to the pool, whether or not it is in it already.
    pub fn insert(&mut self, node_id: NodeId)
        requires
            old(self).wf(),
        ensures
            final(self).wf(),
            final(self)@ == old(self)@.insert(node_id@),
    {
        if self.position(node_id.as_str()).is_none() {
            let ghost before = views(self.node_ids@);
            self.node_ids.push(node_id);
            proof {
                let after = views(self.node_ids@);
                assert(after =~= before.push(node_id@));
                assert forall|i: int, j: int| 0 <= i < j < after.len() implies after[i] != after[j] by {
                    if j == before.len() {
                        assert(before[i] == after[i]);
                        assert(before.to_set().contains(before[i]));
                    } else {
                        assert(before[i] != before[j]);
                    }
                }
                assert forall|name: Seq<char>| after.to_set().contains(name)
                    <==> before.to_set().insert(node_id@).contains(name) by {
                    if after.to_set().contains(name) {
                        let k = choose|k: int| 0 <= k < after.len() && after[k] == name;
                        if k < before.len() {
                            assert(before[k] == name);
                        }
                    }
                    if before.to_set().contains(name) {
                        let k = choose|k: int| 0 <= k < before.len() && before[k] == name;
                        assert(after[k] == name);
                    }
                    if name == node_id@ {
                        assert(after[before.len() as int] == name);
                    }
                }
                assert(after.to_set() =~= before.to_set().insert(node_id@));
            }
        } else {
            proof {
                let i = choose|i: int| 0 <= i < self.node_ids.len() && self.node_ids[i]@ == node_id@;
                assert(views(self.node_ids@)[i] == node_id@);
                assert(self@.insert(node_id@) =~= self@);
            }
        }
    }

    /// Takes `node_id` out of the pool. Returns whether it was in it.
    pub fn remove(&mut self, node_id: &str) -> (removed: bool)
        requires
            old(self).wf(),
        ensures
            final(self).wf(),
            final(self)@ == old(self)@.remove(node_id@),
            removed == old(self)@.contains(node_id@),
    {
        match self.position(node_id) {
            Some(i) => {
                let ghost before = views(self.node_ids@);
                self.node_ids.remove(i);
                proof {
                    let after = views(self.node_ids@);
                    assert(after =~= before.remove(i as int));
                    assert(before[i as int] == node_id@);
                    assert forall|a: int, b: int| 0 <= a < b < after.len() implies after[a]
                        != after[b] by {
                        let a0 = if a < i { a } else { a + 1 };
                        let b0 = if b < i { b } else { b + 1 };
                        assert(after[a] == before[a0] && after[b] == before[b0]);
                    }
                    assert forall|name: Seq<char>| after.to_set().contains(name)
                        <==> before.to_set().remove(node_id@).contains(name) by {
                        if after.to_set().contains(name) {
                            let k = choose|k: int| 0 <= k < after.len() && after[k] == name;
                            let k0 = if k < i { k } else { k + 1 };
                            assert(before[k0] == name);
                            assert(k0 != i);
                        }
                        if before.to_set().contains(name) && name != node_id@ {
                            let k = choose|k: int| 0 <= k < before.len() && before[k] == name;
                            let k1 = if k < i { k } else { k - 1 };
                            assert(after[k1] == name);
                        }
                    }
                    assert(after.to_set() =~= before.to_set().remove(node_id@));
                }
                true
            },
            None => {
                proof {
                    assert(self@.remove(node_id@) =~= self@);
                }
                false
            },
        }
    }

    /// The number of live nodes.
    pub fn len(&self) -> (len: usize)
        requires
            self.wf(),
        ensures
            len == self@.len(),
    {
        proof {
            views(self.node_ids@).unique_seq_to_set();
        }
        self.node_ids.len()
    }

    /// The live nodes, each once, in no particular order.
    pub fn keys(&self) -> (node_ids: Vec<NodeId>)
        requires
            self.wf(),
        ensures
            views(node_ids@).no_duplicates(),
            views(node_ids@).to_set() == self@,
    {
        clone_names(&self.node_ids)
    }
}

} // verus!
