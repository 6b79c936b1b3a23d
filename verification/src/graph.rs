//! The graph container: nodes, their adjacency matrix and the metrics.

use crate::dense::{
    dense_grid, dimension, first_outside, fits_square, read_table, reports, LenientParseWarning,
};
use crate::error::GraphError;
use crate::matrix::{
    cube, cube_trace, diagonal_sum, dot, is_square, product, table_grid, trace, within, zero_table,
    Table, MAX_DIMENSION,
};
use crate::node::{
    declared, distinct_names, first_unknown, index_of, lemma_index_of, lemma_index_of_distinct, precedes,
    unknown_at, well_referenced, Node,
};
use crate::registry::Registry;
use crate::render::{render_table, row_text};
use std::collections::HashSet;
use std::hash::Hash;
use vstd::prelude::*;
use vstd::string::StringSliceAdditionalSpecFns;
use vstd::std_specs::hash::obeys_key_model;

verus! {

/// What a graph starts from.
pub enum GraphInit<T> {
    /// A node list that was read elsewhere.
    FromNodes(Vec<Node<T>>),
    /// Nothing.
    Empty,
}

/// Nodes together with the adjacency matrix derived from them.
///
/// A graph is *tabulated* once its matrix is square with one row per node;
/// every metric needs a tabulated graph.
#[derive(Debug, Clone)]
pub struct Graph<T> {
    nodes: Vec<Node<T>>,
    table: Table,
}

/// Until step `(i, k)` of the walk, some subject found at `row` belongs to a
/// node found at `col`.
pub open spec fn linked_before<T>(nodes: Seq<Node<T>>, row: int, col: int, i: int, k: int) -> bool {
    exists|a: int, b: int|
        {
            &&& 0 <= a < nodes.len()
            &&& 0 <= b < nodes[a].subjects@.len()
            &&& precedes(a, b, i, k)
            &&& index_of(nodes, nodes[a].name) == col
            &&& index_of(nodes, #[trigger] nodes[a].subjects@[b]) == row
        }
}

/// Some node found at `col` lists a subject found at `row`.
pub open spec fn linked<T>(nodes: Seq<Node<T>>, row: int, col: int) -> bool {
    linked_before(nodes, row, col, nodes.len() as int, 0)
}

/// The adjacency grid of a node list: 1 at `(row, col)` where the node at
/// `col` lists the node at `row` as a subject, 0 elsewhere. No entry is
/// mirrored: the grid is symmetric only where the subject lists are
/// reciprocal.
pub open spec fn adjacency<T>(nodes: Seq<Node<T>>) -> Seq<Seq<int>> {
    Seq::new(
        nodes.len(),
        |row: int|
            Seq::new(
                nodes.len(),
                |col: int|
                    if linked(nodes, row, col) {
                        1int
                    } else {
                        0int
                    },
            ),
    )
}

/// The number of closed triplets that a grid stands for: half the trace of
/// its third power, rounded down. On a symmetric grid every triangle is met
/// six times by the trace, so each triangle counts as three closed triplets.
pub open spec fn closed_triplets(g: Seq<Seq<int>>) -> int {
    trace(cube(g)) / 2
}

/// What one node adds to the open triplets: 2 where it has more than one
/// subject, whatever their number, and nothing otherwise.
pub open spec fn triplet_share(subjects: nat) -> int {
    if subjects > 1 {
        2
    } else {
        0
    }
}

/// The number of open triplets of a node list: the sum of the nodes' shares.
pub open spec fn open_triplets<T>(nodes: Seq<Node<T>>) -> int
    decreases nodes.len(),
{
    if nodes.len() == 0 {
        0
    } else {
        open_triplets(nodes.drop_last()) + triplet_share(nodes.last().subjects@.len())
    }
}

/// The clustering coefficient as an exact fraction: `closed` closed triplets
/// out of `triplets` closed and open ones.
#[derive(Debug, Clone, Copy, PartialEq, Eq)]
pub struct Coefficient {
    pub closed: u128,
    pub triplets: u128,
}

/// The subject list that stands for a matrix row: as long as the row, with
/// the position `i` itself at every `i` where the row holds 1, and 0
/// elsewhere. Position 0 therefore holds 0 whatever the row holds there.
pub open spec fn placeholder_subjects(row: Seq<int>) -> Seq<u32> {
    Seq::new(
        row.len(),
        |i: int|
            if row[i] == 1 {
                i as u32
            } else {
                0u32
            },
    )
}

/// The nodes stand for the rows of the grid: one node per row, named by the
/// row's index, with the row's placeholder subjects.
pub open spec fn synthesized(g: Seq<Seq<int>>, nodes: Seq<Node<u32>>) -> bool {
    &&& nodes.len() == g.len()
    &&& forall|r: int|
        0 <= r < g.len() ==> (#[trigger] nodes[r]).name == r as u32 && nodes[r].subjects@
            == placeholder_subjects(g[r])
}

/// One node per row of the table, named by the row's index and holding the
/// row's placeholder subjects.
pub fn nodes_from_table(table: &Table) -> (nodes: Vec<Node<u32>>)
    ensures
        synthesized(table_grid(table@), nodes@),
{
    let ghost g = table_grid(table@);
    let mut nodes: Vec<Node<u32>> = Vec::new();
    let mut r: usize = 0;
    while r < table.len()
        invariant
            g == table_grid(table@),
            r <= table@.len(),
            nodes@.len() == r,
            forall|l: int|
                0 <= l < r ==> (#[trigger] nodes@[l]).name == l as u32 && nodes@[l].subjects@
                    == placeholder_subjects(g[l]),
        decreases table@.len() - r,
    {
        let width = table[r].len();
        let mut subjects: Vec<u32> = Vec::new();
        let mut i: usize = 0;
        while i < width
            invariant
                g == table_grid(table@),
                r < table@.len(),
                width == table@[r as int]@.len(),
                i <= width,
                subjects@.len() == i,
                forall|c: int|
                    0 <= c < i ==> #[trigger] subjects@[c] == (if table@[r as int]@[c] == 1 {
                        c as u32
                    } else {
                        0u32
                    }),
            decreases width - i,
        {
            if table[r][i] == 1 {
                subjects.push(#[verifier::truncate] (i as u32));
            } else {
                subjects.push(0);
            }
            i += 1;
        }
        assert(subjects@ =~= placeholder_subjects(g[r as int]));
        nodes.push(Node { name: #[verifier::truncate] (r as u32), subjects });
        r += 1;
    }
    nodes
}

impl Graph<u32> {
    /// Loads a graph from a dense matrix text: the matrix is read from the
    /// text, and the nodes are made up from its rows.
    ///
    /// Cells without a number are read as zero and reported. The text is
    /// refused where a number stands beyond the square.
    pub fn load_from_table(text: &str) -> (result: Result<
        (Graph<u32>, Vec<LenientParseWarning>),
        GraphError,
    >)
        ensures
            result is Ok <==> fits_square(text.spec_bytes()),
            match result {
                Ok((graph, warnings)) => {
                    &&& graph.grid() == dense_grid(text.spec_bytes())
                    &&& graph.tabulated()
                    &&& synthesized(graph.grid(), graph.node_seq())
                    &&& reports(
                        text.spec_bytes(),
                        warnings@,
                        dimension(text.spec_bytes()) as int,
                        0,
                    )
                },
                Err(e) => {
                    &&& e matches GraphError::MalformedInput { line, column }
                    &&& first_outside(text.spec_bytes(), line as int, column as int)
                },
            },
    {
        match read_table(text.as_bytes()) {
            Ok((table, warnings)) => {
                let nodes = nodes_from_table(&table);
                Ok((Graph { nodes, table }, warnings))
            },
            Err(e) => Err(e),
        }
    }
}

/// A dot product whose left factors are all zero is zero.
pub proof fn lemma_dot_of_zero_row(a: Seq<Seq<int>>, b: Seq<Seq<int>>, i: int, j: int, k: nat)
    requires
        forall|t: int| 0 <= t < k ==> #[trigger] a[i][t] == 0,
    ensures
        dot(a, b, i, j, k) == 0,
    decreases k,
{
    if k > 0 {
        lemma_dot_of_zero_row(a, b, i, j, (k - 1) as nat);
        assert(a[i][k - 1] == 0);
    }
}

/// A diagonal of zeros sums to zero.
pub proof fn lemma_diagonal_of_zeros(g: Seq<Seq<int>>, k: nat)
    requires
        forall|t: int| 0 <= t < k ==> #[trigger] g[t][t] == 0,
    ensures
        diagonal_sum(g, k) == 0,
    decreases k,
{
    if k > 0 {
        lemma_diagonal_of_zeros(g, (k - 1) as nat);
        assert(g[k - 1][k - 1] == 0);
    }
}

/// A graph without edges has no closed triplets: on a square grid whose
/// entries are all zero the count is zero, whatever the dimension.
pub proof fn lemma_no_edges_no_closed_triplets(g: Seq<Seq<int>>)
    requires
        is_square(g),
        within(g, 0),
    ensures
        closed_triplets(g) == 0,
{
    let c = cube(g);
    assert forall|t: int| 0 <= t < g.len() implies #[trigger] c[t][t] == 0 by {
        assert forall|u: int| 0 <= u < g.len() implies #[trigger] g[t][u] == 0 by {
            assert(g[t].len() == g.len());
        }
        lemma_dot_of_zero_row(g, product(g, g), t, t, g.len());
    }
    lemma_diagonal_of_zeros(c, g.len());
}

/// Adding a node adds its share to the open triplets, and a node with no
/// subject or with a single one adds nothing.
pub proof fn lemma_open_triplets_of_push<T>(nodes: Seq<Node<T>>, node: Node<T>)
    ensures
        open_triplets(nodes.push(node)) == open_triplets(nodes) + triplet_share(
            node.subjects@.len(),
        ),
        node.subjects@.len() <= 1 ==> open_triplets(nodes.push(node)) == open_triplets(nodes),
{
    assert(nodes.push(node).drop_last() =~= nodes);
}

/// Where names are distinct, the adjacency grid holds 1 at `(row, col)`
/// exactly where the node at `col` lists the name of the node at `row`.
pub proof fn lemma_adjacency_of_distinct<T>(nodes: Seq<Node<T>>, row: int, col: int)
    requires
        distinct_names(nodes),
        0 <= row < nodes.len(),
        0 <= col < nodes.len(),
    ensures
        adjacency(nodes)[row][col] == 1 <==> nodes[col].subjects@.contains(nodes[row].name),
        adjacency(nodes)[row][col] == 0 <==> !nodes[col].subjects@.contains(nodes[row].name),
{
    lemma_index_of_distinct(nodes, row);
    lemma_index_of_distinct(nodes, col);
    if linked(nodes, row, col) {
        let (a, b) = choose|a: int, b: int|
            {
                &&& 0 <= a < nodes.len()
                &&& 0 <= b < nodes[a].subjects@.len()
                &&& precedes(a, b, nodes.len() as int, 0)
                &&& index_of(nodes, nodes[a].name) == col
                &&& index_of(nodes, #[trigger] nodes[a].subjects@[b]) == row
            };
        lemma_index_of_distinct(nodes, a);
        lemma_index_of(nodes, nodes[a].subjects@[b]);
        assert(nodes[col].subjects@[b] == nodes[row].name);
    }
    if nodes[col].subjects@.contains(nodes[row].name) {
        let b = choose|b: int|
            0 <= b < nodes[col].subjects@.len() && nodes[col].subjects@[b] == nodes[row].name;
        assert(precedes(col, b, nodes.len() as int, 0));
        assert(index_of(nodes, nodes[col].subjects@[b]) == row);
    }
}

/// Building the matrix of a node list with distinct names and making nodes
/// up again from that matrix keeps the adjacency relation, read from the
/// other side: node `r` of the rebuilt list marks position `i` exactly where
/// node `i` of the first list has node `r` as a subject. A mark at `i` is the
/// value `i` itself, so position 0, and any position that `u32` cuts down
/// to 0, cannot carry one and is left out.
pub proof fn lemma_round_trip<T>(nodes: Seq<Node<T>>, rebuilt: Seq<Node<u32>>, r: int, i: int)
    requires
        distinct_names(nodes),
        synthesized(adjacency(nodes), rebuilt),
        0 <= r < nodes.len(),
        0 <= i < nodes.len(),
        i as u32 != 0,
    ensures
        rebuilt.len() == nodes.len(),
        rebuilt[r].name == r as u32,
        rebuilt[r].subjects@.len() == nodes.len(),
        rebuilt[r].subjects@[i] == i as u32 <==> nodes[i].subjects@.contains(nodes[r].name),
        rebuilt[r].subjects@[i] == 0 <==> !nodes[i].subjects@.contains(nodes[r].name),
{
    lemma_adjacency_of_distinct(nodes, r, i);
    let row = adjacency(nodes)[r];
    assert(rebuilt[r].subjects@ == placeholder_subjects(row));
    assert(placeholder_subjects(row)[i] == if row[i] == 1 {
        i as u32
    } else {
        0u32
    });
}

/// The open triplets of a list are at least zero and at most twice its
/// length.
pub proof fn lemma_open_triplets_bounds<T>(nodes: Seq<Node<T>>)
    ensures
        0 <= open_triplets(nodes) <= 2 * nodes.len(),
    decreases nodes.len(),
{
    if nodes.len() > 0 {
        lemma_open_triplets_bounds(nodes.drop_last());
    }
}

impl<T: Hash + Eq + Copy> Graph<T> {
    /// The nodes of the graph, in their order.
    pub closed spec fn node_seq(&self) -> Seq<Node<T>> {
        self.nodes@
    }

    /// The matrix of the graph as a grid of integers.
    pub closed spec fn grid(&self) -> Seq<Seq<int>> {
        table_grid(self.table@)
    }

    /// The matrix is square and has one row per node.
    pub open spec fn tabulated(&self) -> bool {
        &&& self.grid().len() == self.node_seq().len()
        &&& is_square(self.grid())
    }

    /// A graph over the given nodes, or over none, with no matrix yet.
    pub fn new(init_type: GraphInit<T>) -> (graph: Self)
        ensures
            graph.node_seq() == match init_type {
                GraphInit::FromNodes(nodes) => nodes@,
                GraphInit::Empty => Seq::empty(),
            },
            graph.grid() == Seq::<Seq<int>>::empty(),
    {
        let graph = match init_type {
            GraphInit::FromNodes(nodes) => Graph { nodes, table: Vec::new() },
            GraphInit::Empty => Graph { nodes: Vec::new(), table: Vec::new() },
        };
        assert(graph.grid() =~= Seq::<Seq<int>>::empty());
        graph
    }

    /// The number of nodes.
    pub fn len(&self) -> (n: usize)
        ensures
            n == self.node_seq().len(),
    {
        self.nodes.len()
    }

    /// The nodes of the graph.
    pub fn nodes(&self) -> (nodes: &Vec<Node<T>>)
        ensures
            nodes@ == self.node_seq(),
    {
        &self.nodes
    }

    /// The matrix of the graph.
    pub fn table(&self) -> (table: &Table)
        ensures
            table_grid(table@) == self.grid(),
    {
        &self.table
    }

    /// Tells whether two nodes share a name. The matrix of such a list gives
    /// both nodes the position of the later one.
    pub fn has_duplicate_names(&self) -> (yes: bool)
        requires
            obeys_key_model::<T>(),
        ensures
            yes == !distinct_names(self.node_seq()),
    {
        let mut seen: HashSet<T> = HashSet::new();
        let mut i: usize = 0;
        while i < self.nodes.len()
            invariant
                obeys_key_model::<T>(),
                i <= self.nodes@.len(),
                distinct_names(self.nodes@.take(i as int)),
                forall|id: T| #[trigger] seen@.contains(id) <==> declared(self.nodes@.take(i as int), id),
            decreases self.nodes@.len() - i,
        {
            let ghost before = self.nodes@.take(i as int);
            let ghost after = self.nodes@.take(i + 1);
            let name = self.nodes[i].name;
            let fresh = seen.insert(name);
            if !fresh {
                proof {
                    let p = choose|p: int| 0 <= p < before.len() && (#[trigger] before[p]).name == name;
                    assert(self.nodes@[p].name == self.nodes@[i as int].name);
                }
                return true;
            }
            proof {
                assert forall|a: int, b: int| 0 <= a < b < after.len() implies (#[trigger] after[a]).name != (
                #[trigger] after[b]).name by {
                    if b == i {
                        if after[a].name == name {
                            assert(before[a].name == name);
                        }
                    } else {
                        assert(before[a].name != before[b].name);
                    }
                }
                assert forall|id: T| #[trigger] seen@.contains(id) <==> declared(after, id) by {
                    if declared(before, id) {
                        let p = choose|p: int| 0 <= p < before.len() && (#[trigger] before[p]).name == id;
                        assert(after[p].name == id);
                    }
                    if declared(after, id) && id != name {
                        let p = choose|p: int| 0 <= p < after.len() && (#[trigger] after[p]).name == id;
                        assert(before[p].name == id);
                    }
                    if id == name {
                        assert(after[i as int].name == id);
                    }
                }
            }
            i += 1;
        }
        assert(self.nodes@.take(i as int) =~= self.nodes@);
        false
    }

    /// The matrix as text, one line per row: the row's numbers in decimal,
    /// separated by a comma and a blank, between square brackets.
    pub fn draw_table(&self) -> (lines: Vec<Vec<u8>>)
        ensures
            lines@.len() == self.grid().len(),
            forall|r: int|
                0 <= r < self.grid().len() ==> (#[trigger] lines@[r])@ == row_text(self.grid()[r]),
    {
        render_table(&self.table)
    }

    /// Tells whether the matrix is square with one row per node.
    pub fn is_tabulated(&self) -> (yes: bool)
        ensures
            yes == self.tabulated(),
    {
        let n = self.nodes.len();
        if self.table.len() != n {
            return false;
        }
        let mut i: usize = 0;
        while i < n
            invariant
                n == self.nodes@.len(),
                n == self.table@.len(),
                i <= n,
                forall|r: int| 0 <= r < i ==> (#[trigger] self.table@[r])@.len() == n,
            decreases n - i,
        {
            if self.table[i].len() != n {
                assert(table_grid(self.table@)[i as int].len() != n);
                return false;
            }
            i += 1;
        }
        assert forall|r: int| 0 <= r < n implies (#[trigger] table_grid(self.table@)[r]).len() == n by {
            assert(self.table@[r]@.len() == n);
        }
        true
    }

    /// The number of closed triplets: half the trace of the matrix's third
    /// power, rounded down.
    pub fn close_triplet_count(&self) -> (count: u128)
        requires
            self.tabulated(),
            self.node_seq().len() <= MAX_DIMENSION,
        ensures
            count == closed_triplets(self.grid()),
            count <= u128::MAX / 2,
    {
        cube_trace(&self.table) / 2
    }

    /// The number of open triplets: 2 for every node with more than one
    /// subject.
    pub fn open_triplet_count(&self) -> (count: u128)
        ensures
            count == open_triplets(self.node_seq()),
    {
        let mut count: u128 = 0;
        let mut i: usize = 0;
        while i < self.nodes.len()
            invariant
                i <= self.nodes@.len(),
                count == open_triplets(self.nodes@.take(i as int)),
                count <= 2 * i,
            decreases self.nodes@.len() - i,
        {
            assert(self.nodes@.take(i + 1).drop_last() =~= self.nodes@.take(i as int));
            if self.nodes[i].subjects.len() > 1 {
                count += 2;
            }
            i += 1;
        }
        assert(self.nodes@.take(i as int) =~= self.nodes@);
        count
    }

    /// The global clustering coefficient: closed triplets over closed and
    /// open triplets, or `UndefinedCoefficient` where there are none of
    /// either.
    pub fn c(&self) -> (result: Result<Coefficient, GraphError>)
        requires
            self.tabulated(),
            self.node_seq().len() <= MAX_DIMENSION,
        ensures
            result is Ok <==> closed_triplets(self.grid()) + open_triplets(self.node_seq()) > 0,
            match result {
                Ok(ratio) => {
                    &&& ratio.closed == closed_triplets(self.grid())
                    &&& ratio.triplets == closed_triplets(self.grid()) + open_triplets(
                        self.node_seq(),
                    )
                },
                Err(e) => e == GraphError::UndefinedCoefficient,
            },
    {
        let closed = self.close_triplet_count();
        let open = self.open_triplet_count();
        proof {
            lemma_open_triplets_bounds(self.nodes@);
        }
        let triplets = closed + open;
        if triplets == 0 {
            Err(GraphError::UndefinedCoefficient)
        } else {
            Ok(Coefficient { closed, triplets })
        }
    }

    /// Derives the adjacency matrix from the nodes.
    ///
    /// Fails at the first subject that names no declared node, and then
    /// leaves the graph as it was.
    pub fn create_table(&mut self) -> (result: Result<(), GraphError>)
        requires
            obeys_key_model::<T>(),
        ensures
            final(self).node_seq() == old(self).node_seq(),
            result is Ok <==> well_referenced(old(self).node_seq()),
            match result {
                Ok(()) => {
                    &&& final(self).tabulated()
                    &&& within(final(self).grid(), 1)
                    &&& final(self).grid() == adjacency(old(self).node_seq())
                },
                Err(e) => {
                    &&& *final(self) == *old(self)
                    &&& e matches GraphError::UnknownIdentifier { node, subject }
                    &&& first_unknown(old(self).node_seq(), node as int, subject as int)
                },
            },
    {
        let n = self.nodes.len();
        let ghost nodes = self.nodes@;
        let registry = Registry::build(&self.nodes);
        let mut table = zero_table(n);
        proof {
            assert forall|r: int, c: int| 0 <= r < n && 0 <= c < n implies #[trigger] table@[r]@[c]
                == 0u16 by {
                assert(table_grid(table@)[r][c] == 0);
            }
        }
        let mut i: usize = 0;
        while i < n
            invariant
                obeys_key_model::<T>(),
                nodes == self.nodes@,
                n == nodes.len(),
                registry.indexes(nodes),
                i <= n,
                table@.len() == n,
                forall|r: int| 0 <= r < n ==> (#[trigger] table@[r])@.len() == n,
                forall|a: int, b: int| precedes(a, b, i as int, 0) ==> !unknown_at(nodes, a, b),
                forall|r: int, c: int|
                    0 <= r < n && 0 <= c < n ==> #[trigger] table@[r]@[c] == (if linked_before(
                        nodes,
                        r,
                        c,
                        i as int,
                        0,
                    ) {
                        1u16
                    } else {
                        0u16
                    }),
            decreases n - i,
        {
            let name = self.nodes[i].name;
            proof {
                lemma_index_of(nodes, name);
                assert(nodes[i as int].name == name);
            }
            let col = registry.lookup(&name).unwrap();
            let count = self.nodes[i].subjects.len();
            let mut k: usize = 0;
            while k < count
                invariant
                    obeys_key_model::<T>(),
                    nodes == self.nodes@,
                    n == nodes.len(),
                    registry.indexes(nodes),
                    i < n,
                    count == nodes[i as int].subjects@.len(),
                    k <= count,
                    col as int == index_of(nodes, nodes[i as int].name),
                    0 <= col < n,
                    table@.len() == n,
                    forall|r: int| 0 <= r < n ==> (#[trigger] table@[r])@.len() == n,
                    forall|a: int, b: int| precedes(a, b, i as int, k as int) ==> !unknown_at(nodes, a, b),
                    forall|r: int, c: int|
                        0 <= r < n && 0 <= c < n ==> #[trigger] table@[r]@[c] == (if linked_before(
                            nodes,
                            r,
                            c,
                            i as int,
                            k as int,
                        ) {
                            1u16
                        } else {
                            0u16
                        }),
                decreases count - k,
            {
                let subject = self.nodes[i].subjects[k];
                proof {
                    lemma_index_of(nodes, subject);
                }
                match registry.lookup(&subject) {
                    Some(row) => {
                        let ghost before = table@;
                        table[row][col] = 1;
                        proof {
                            assert forall|r: int, c: int| 0 <= r < n && 0 <= c < n implies #[trigger] table@[r]@[c]
                                == (if linked_before(nodes, r, c, i as int, k + 1) {
                                1u16
                            } else {
                                0u16
                            }) by {
                                if linked_before(nodes, r, c, i as int, k as int) {
                                    let (a, b) = choose|a: int, b: int|
                                        {
                                            &&& 0 <= a < nodes.len()
                                            &&& 0 <= b < nodes[a].subjects@.len()
                                            &&& precedes(a, b, i as int, k as int)
                                            &&& index_of(nodes, nodes[a].name) == c
                                            &&& index_of(nodes, #[trigger] nodes[a].subjects@[b]) == r
                                        };
                                    assert(precedes(a, b, i as int, k + 1));
                                }
                                if r == row && c == col {
                                    assert(precedes(i as int, k as int, i as int, k + 1));
                                    assert(index_of(nodes, nodes[i as int].subjects@[k as int]) == r);
                                }
                                if linked_before(nodes, r, c, i as int, k + 1) {
                                    let (a, b) = choose|a: int, b: int|
                                        {
                                            &&& 0 <= a < nodes.len()
                                            &&& 0 <= b < nodes[a].subjects@.len()
                                            &&& precedes(a, b, i as int, k + 1)
                                            &&& index_of(nodes, nodes[a].name) == c
                                            &&& index_of(nodes, #[trigger] nodes[a].subjects@[b]) == r
                                        };
                                    if !(a == i && b == k) {
                                        assert(precedes(a, b, i as int, k as int));
                                    }
                                }
                            }
                        }
                    },
                    None => {
                        assert(unknown_at(nodes, i as int, k as int));
                        return Err(GraphError::UnknownIdentifier { node: i, subject: k });
                    },
                }
                k += 1;
            }
            proof {
                assert forall|a: int, b: int| precedes(a, b, i + 1, 0) implies !unknown_at(nodes, a, b) by {
                    if unknown_at(nodes, a, b) {
                        assert(precedes(a, b, i as int, k as int));
                    }
                }
                assert forall|r: int, c: int| 0 <= r < n && 0 <= c < n implies (linked_before(
                    nodes,
                    r,
                    c,
                    i as int,
                    k as int,
                ) <==> linked_before(nodes, r, c, i + 1, 0)) by {
                    if linked_before(nodes, r, c, i as int, k as int) {
                        let (a, b) = choose|a: int, b: int|
                            {
                                &&& 0 <= a < nodes.len()
                                &&& 0 <= b < nodes[a].subjects@.len()
                                &&& precedes(a, b, i as int, k as int)
                                &&& index_of(nodes, nodes[a].name) == c
                                &&& index_of(nodes, #[trigger] nodes[a].subjects@[b]) == r
                            };
                        assert(precedes(a, b, i + 1, 0));
                    }
                    if linked_before(nodes, r, c, i + 1, 0) {
                        let (a, b) = choose|a: int, b: int|
                            {
                                &&& 0 <= a < nodes.len()
                                &&& 0 <= b < nodes[a].subjects@.len()
                                &&& precedes(a, b, i + 1, 0)
                                &&& index_of(nodes, nodes[a].name) == c
                                &&& index_of(nodes, #[trigger] nodes[a].subjects@[b]) == r
                            };
                        assert(precedes(a, b, i as int, k as int));
                    }
                }
            }
            i += 1;
        }
        proof {
            assert forall|a: int, b: int| !unknown_at(nodes, a, b) by {
                if unknown_at(nodes, a, b) {
                    assert(precedes(a, b, n as int, 0));
                }
            }
            assert(table_grid(table@) =~~= adjacency(nodes));
        }
        self.table = table;
        Ok(())
    }
}

} // verus!
