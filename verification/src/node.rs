//! Nodes and the relations that a node list defines.

use vstd::prelude::*;

verus! {

/// A node and the identifiers of the nodes it has as subjects.
#[derive(Debug, Clone, PartialEq, Eq)]
pub struct Node<T> {
    pub name: T,
    pub subjects: Vec<T>,
}

/// Some node of the list is named `id`.
pub open spec fn declared<T>(nodes: Seq<Node<T>>, id: T) -> bool {
    exists|i: int| 0 <= i < nodes.len() && (#[trigger] nodes[i]).name == id
}

/// The position of the last node named `id`, or -1 where none is.
pub open spec fn index_of<T>(nodes: Seq<Node<T>>, id: T) -> int
    decreases nodes.len(),
{
    if nodes.len() == 0 {
        -1
    } else if nodes.last().name == id {
        nodes.len() - 1
    } else {
        index_of(nodes.drop_last(), id)
    }
}

/// No two nodes of the list share a name.
pub open spec fn distinct_names<T>(nodes: Seq<Node<T>>) -> bool {
    forall|i: int, j: int|
        0 <= i < j < nodes.len() ==> (#[trigger] nodes[i]).name != (#[trigger] nodes[j]).name
}

/// `(a, b)` comes before `(i, k)` when nodes are walked in order and, within
/// a node, its subjects in order.
pub open spec fn precedes(a: int, b: int, i: int, k: int) -> bool {
    a < i || (a == i && b < k)
}

/// Subject `k` of node `i` exists and names no declared node.
pub open spec fn unknown_at<T>(nodes: Seq<Node<T>>, i: int, k: int) -> bool {
    &&& 0 <= i < nodes.len()
    &&& 0 <= k < nodes[i].subjects@.len()
    &&& !declared(nodes, nodes[i].subjects@[k])
}

/// Every subject of every node names a declared node.
pub open spec fn well_referenced<T>(nodes: Seq<Node<T>>) -> bool {
    forall|i: int, k: int| !unknown_at(nodes, i, k)
}

/// Subject `k` of node `i` is the first, in walking order, that names no
/// declared node.
pub open spec fn first_unknown<T>(nodes: Seq<Node<T>>, i: int, k: int) -> bool {
    &&& unknown_at(nodes, i, k)
    &&& forall|a: int, b: int| precedes(a, b, i, k) ==> !unknown_at(nodes, a, b)
}

/// `index_of` finds a position exactly for the declared identifiers, and then
/// it is the last position that carries the name.
pub proof fn lemma_index_of<T>(nodes: Seq<Node<T>>, id: T)
    ensures
        -1 <= index_of(nodes, id) < nodes.len(),
        declared(nodes, id) <==> index_of(nodes, id) >= 0,
        index_of(nodes, id) >= 0 ==> nodes[index_of(nodes, id)].name == id,
        forall|j: int| index_of(nodes, id) < j < nodes.len() ==> (#[trigger] nodes[j]).name != id,
    decreases nodes.len(),
{
    if nodes.len() > 0 {
        let front = nodes.drop_last();
        lemma_index_of(front, id);
        if nodes.last().name == id {
            assert(nodes[nodes.len() - 1].name == id);
        } else {
            assert forall|j: int| 0 <= j < front.len() implies front[j] == nodes[j] by {}
            if declared(nodes, id) {
                let i = choose|i: int| 0 <= i < nodes.len() && (#[trigger] nodes[i]).name == id;
                assert(front[i].name == id);
            }
            if declared(front, id) {
                let i = choose|i: int| 0 <= i < front.len() && (#[trigger] front[i]).name == id;
                assert(nodes[i].name == id);
            }
            assert forall|j: int| index_of(nodes, id) < j < nodes.len() implies (#[trigger] nodes[j]).name
                != id by {
                if j < front.len() {
                    assert(front[j].name != id);
                }
            }
        }
    }
}

/// Where names are distinct, every node's name is found at the node's own
/// position.
pub proof fn lemma_index_of_distinct<T>(nodes: Seq<Node<T>>, i: int)
    requires
        distinct_names(nodes),
        0 <= i < nodes.len(),
    ensures
        index_of(nodes, nodes[i].name) == i,
{
    lemma_index_of(nodes, nodes[i].name);
    let p = index_of(nodes, nodes[i].name);
    assert(declared(nodes, nodes[i].name));
    if p < i {
        assert(nodes[i].name != nodes[i].name);
    } else if p > i {
        assert(nodes[i].name != nodes[p].name);
    }
}

} // verus!
