//! The identifier registry: from a node's name to its dense index.

use crate::node::{declared, index_of, Node};
use std::collections::HashMap;
use std::hash::Hash;
use vstd::prelude::*;
use vstd::std_specs::hash::obeys_key_model;

verus! {

/// Maps each declared identifier to the position of the node that carries it.
/// Where several nodes share a name, the last one gives the index.
pub struct Registry<T> {
    ids: HashMap<T, usize>,
}

impl<T: Hash + Eq + Copy> Registry<T> {
    /// The mapping the registry holds.
    pub closed spec fn view(&self) -> Map<T, usize> {
        self.ids@
    }

    /// The registry holds exactly the names of `nodes`, each with the
    /// position that `index_of` gives it.
    pub open spec fn indexes(&self, nodes: Seq<Node<T>>) -> bool {
        &&& forall|id: T| #[trigger] self@.contains_key(id) <==> declared(nodes, id)
        &&& forall|id: T| #[trigger] self@.contains_key(id) ==> self@[id] as int == index_of(nodes, id)
    }

    /// Builds the registry of a node list.
    pub fn build(nodes: &Vec<Node<T>>) -> (registry: Self)
        requires
            obeys_key_model::<T>(),
        ensures
            registry.indexes(nodes@),
    {
        let mut ids: HashMap<T, usize> = HashMap::new();
        let mut i: usize = 0;
        while i < nodes.len()
            invariant
                obeys_key_model::<T>(),
                i <= nodes.len(),
                forall|id: T| #[trigger] ids@.contains_key(id) <==> declared(nodes@.take(i as int), id),
                forall|id: T| #[trigger]
                    ids@.contains_key(id) ==> ids@[id] as int == index_of(nodes@.take(i as int), id),
            decreases nodes.len() - i,
        {
            let ghost before = nodes@.take(i as int);
            let ghost after = nodes@.take(i + 1);
            let name = nodes[i].name;
            ids.insert(name, i);
            proof {
                assert(after.drop_last() =~= before);
                assert(after.last() == nodes@[i as int]);
                assert forall|id: T| #[trigger] ids@.contains_key(id) <==> declared(after, id) by {
                    if declared(before, id) {
                        let p = choose|p: int| 0 <= p < before.len() && (#[trigger] before[p]).name == id;
                        assert(after[p].name == id);
                    }
                    if declared(after, id) && id != name {
                        let p = choose|p: int| 0 <= p < after.len() && (#[trigger] after[p]).name == id;
                        assert(before[p].name == id);
                    }
                    if id == name {
                        assert(after[i as int].name == id);
                    }
                }
            }
            i += 1;
        }
        assert(nodes@.take(i as int) =~= nodes@);
        Registry { ids }
    }

    /// The index of `id`, where it is declared.
    pub fn lookup(&self, id: &T) -> (index: Option<usize>)
        requires
            obeys_key_model::<T>(),
        ensures
            index == if self@.contains_key(*id) {
                Some(self@[*id])
            } else {
                None
            },
    {
        match self.ids.get(id) {
            Some(index) => Some(*index),
            None => None,
        }
    }
}

} // verus!
