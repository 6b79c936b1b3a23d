use clustering::error::GraphError;
use clustering::graph::{nodes_from_table, Coefficient, Graph, GraphInit};
use clustering::matrix::{cube_trace, zero_table, zeros, MAX_DIMENSION};
use clustering::node::Node;
use clustering::registry::Registry;

fn node(name: &'static str, subjects: &[&'static str]) -> Node<&'static str> {
    Node { name, subjects: subjects.to_vec() }
}

fn triangle() -> Vec<Node<&'static str>> {
    vec![node("A", &["B", "C"]), node("B", &["A", "C"]), node("C", &["A", "B"])]
}

fn tabulated(nodes: Vec<Node<&'static str>>) -> Graph<&'static str> {
    let mut graph = Graph::new(GraphInit::FromNodes(nodes));
    assert_eq!(graph.create_table(), Ok(()));
    assert!(graph.is_tabulated());
    assert!(graph.len() <= MAX_DIMENSION);
    graph
}

#[test]
fn zeros_gives_a_row_of_zeros() {
    assert_eq!(zeros(0), Vec::<u16>::new());
    assert_eq!(zeros(4), vec![0u16, 0, 0, 0]);
}

#[test]
fn zero_table_is_square() {
    assert_eq!(zero_table(0), Vec::<Vec<u16>>::new());
    assert_eq!(zero_table(2), vec![vec![0u16, 0], vec![0, 0]]);
}

#[test]
fn new_empty_graph_has_no_nodes_and_no_matrix() {
    let graph: Graph<u32> = Graph::new(GraphInit::Empty);
    assert_eq!(graph.len(), 0);
    assert!(graph.nodes().is_empty());
    assert!(graph.table().is_empty());
}

#[test]
fn new_from_nodes_keeps_the_nodes_and_builds_no_matrix() {
    let graph = Graph::new(GraphInit::FromNodes(triangle()));
    assert_eq!(graph.len(), 3);
    assert_eq!(graph.nodes(), &triangle());
    assert!(graph.table().is_empty());
    assert!(!graph.is_tabulated());
}

#[test]
fn registry_gives_each_name_its_position() {
    let nodes = triangle();
    let registry = Registry::build(&nodes);
    assert_eq!(registry.lookup(&"A"), Some(0));
    assert_eq!(registry.lookup(&"B"), Some(1));
    assert_eq!(registry.lookup(&"C"), Some(2));
    assert_eq!(registry.lookup(&"D"), None);
}

#[test]
fn registry_keeps_the_last_of_two_equal_names() {
    let nodes = vec![node("A", &[]), node("B", &[]), node("A", &[])];
    let registry = Registry::build(&nodes);
    assert_eq!(registry.lookup(&"A"), Some(2));
    assert_eq!(registry.lookup(&"B"), Some(1));
}

#[test]
fn create_table_of_triangle_sets_every_off_diagonal_entry() {
    let graph = tabulated(triangle());
    assert_eq!(graph.table(), &vec![vec![0u16, 1, 1], vec![1, 0, 1], vec![1, 1, 0]]);
}

#[test]
fn create_table_has_one_row_and_column_per_node_and_binary_entries() {
    let nodes = vec![
        node("a", &["b", "b", "a"]),
        node("b", &[]),
        node("c", &["a"]),
        node("d", &["c", "b", "a"]),
    ];
    let graph = tabulated(nodes);
    assert_eq!(graph.table().len(), 4);
    for row in graph.table() {
        assert_eq!(row.len(), 4);
        for cell in row {
            assert!(*cell == 0 || *cell == 1);
        }
    }
}

#[test]
fn create_table_is_not_mirrored() {
    let graph = tabulated(vec![node("A", &["B"]), node("B", &[])]);
    assert_eq!(graph.table(), &vec![vec![0u16, 0], vec![1, 0]]);
}

#[test]
fn create_table_records_a_self_loop_on_the_diagonal() {
    let graph = tabulated(vec![node("A", &["A"]), node("B", &[])]);
    assert_eq!(graph.table(), &vec![vec![1u16, 0], vec![0, 0]]);
}

#[test]
fn create_table_with_duplicate_names_uses_the_last_position() {
    let graph = tabulated(vec![node("A", &["B"]), node("B", &[]), node("A", &[])]);
    assert_eq!(graph.table(), &vec![vec![0u16, 0, 0], vec![0, 0, 1], vec![0, 0, 0]]);
}

#[test]
fn create_table_reports_the_first_unknown_subject() {
    let nodes = vec![node("A", &["B"]), node("B", &["A", "Z", "Y"]), node("C", &["X"])];
    let mut graph = Graph::new(GraphInit::FromNodes(nodes.clone()));
    assert_eq!(graph.create_table(), Err(GraphError::UnknownIdentifier { node: 1, subject: 1 }));
    assert_eq!(graph.nodes(), &nodes);
    assert!(graph.table().is_empty());
}

#[test]
fn create_table_succeeds_when_every_subject_is_declared() {
    let mut graph = Graph::new(GraphInit::FromNodes(vec![node("A", &["A", "A"])]));
    assert_eq!(graph.create_table(), Ok(()));
    let mut other: Graph<u32> =
        Graph::new(GraphInit::FromNodes(vec![Node { name: 7, subjects: vec![8] }]));
    assert_eq!(other.create_table(), Err(GraphError::UnknownIdentifier { node: 0, subject: 0 }));
}

#[test]
fn create_table_with_integer_names() {
    let nodes = vec![
        Node { name: 10u64, subjects: vec![30] },
        Node { name: 20, subjects: vec![10] },
        Node { name: 30, subjects: vec![] },
    ];
    let mut graph = Graph::new(GraphInit::FromNodes(nodes));
    assert_eq!(graph.create_table(), Ok(()));
    assert_eq!(graph.table(), &vec![vec![0u16, 1, 0], vec![0, 0, 0], vec![1, 0, 0]]);
}

#[test]
fn triangle_has_trace_six_and_three_closed_triplets() {
    let graph = tabulated(triangle());
    assert_eq!(cube_trace(graph.table()), 6);
    assert_eq!(graph.close_triplet_count(), 3);
}

#[test]
fn triangle_has_six_open_triplets() {
    let graph = tabulated(triangle());
    assert_eq!(graph.open_triplet_count(), 6);
}

#[test]
fn triangle_coefficient_is_three_ninths() {
    let graph = tabulated(triangle());
    let ratio = graph.c().unwrap();
    assert_eq!(ratio, Coefficient { closed: 3, triplets: 9 });
    let value = ratio.closed as f32 / ratio.triplets as f32;
    assert_eq!(format!("{:.5}", value), "0.33333");
}

#[test]
fn empty_graph_has_dimension_zero_and_no_coefficient() {
    let mut graph: Graph<&'static str> = Graph::new(GraphInit::FromNodes(Vec::new()));
    assert_eq!(graph.create_table(), Ok(()));
    assert!(graph.is_tabulated());
    assert_eq!(graph.table().len(), 0);
    assert_eq!(graph.close_triplet_count(), 0);
    assert_eq!(graph.open_triplet_count(), 0);
    assert_eq!(graph.c(), Err(GraphError::UndefinedCoefficient));
    let mut empty: Graph<u32> = Graph::new(GraphInit::Empty);
    assert_eq!(empty.create_table(), Ok(()));
    assert_eq!(empty.c(), Err(GraphError::UndefinedCoefficient));
}

#[test]
fn graph_without_triplets_has_no_coefficient() {
    let graph = tabulated(vec![node("A", &["B"]), node("B", &["A"])]);
    assert_eq!(graph.close_triplet_count(), 0);
    assert_eq!(graph.open_triplet_count(), 0);
    assert_eq!(graph.c(), Err(GraphError::UndefinedCoefficient));
}

#[test]
fn nodes_with_one_subject_or_none_add_no_open_triplets() {
    let graph = tabulated(vec![node("A", &["B"]), node("B", &[]), node("C", &["C"])]);
    assert_eq!(graph.open_triplet_count(), 0);
    let graph = tabulated(vec![node("A", &["B"]), node("B", &["A", "C"]), node("C", &[])]);
    assert_eq!(graph.open_triplet_count(), 2);
}

#[test]
fn a_node_with_many_subjects_adds_two_open_triplets() {
    let graph = tabulated(vec![
        node("A", &["B", "C", "D", "A"]),
        node("B", &[]),
        node("C", &[]),
        node("D", &[]),
    ]);
    assert_eq!(graph.open_triplet_count(), 2);
}

#[test]
fn path_has_open_triplets_only() {
    let graph = tabulated(vec![node("A", &["B"]), node("B", &["A", "C"]), node("C", &["B"])]);
    assert_eq!(graph.close_triplet_count(), 0);
    assert_eq!(graph.c(), Ok(Coefficient { closed: 0, triplets: 2 }));
}

#[test]
fn directed_cycle_has_trace_three_and_one_closed_triplet() {
    let graph = tabulated(vec![node("A", &["B"]), node("B", &["C"]), node("C", &["A"])]);
    assert_eq!(cube_trace(graph.table()), 3);
    assert_eq!(graph.close_triplet_count(), 1);
    assert_eq!(graph.c(), Ok(Coefficient { closed: 1, triplets: 1 }));
}

#[test]
fn cube_trace_counts_closed_walks_of_length_three() {
    assert_eq!(cube_trace(&vec![]), 0);
    assert_eq!(cube_trace(&vec![vec![1]]), 1);
    assert_eq!(cube_trace(&vec![vec![2]]), 8);
    assert_eq!(cube_trace(&vec![vec![1, 1], vec![1, 1]]), 8);
    assert_eq!(cube_trace(&vec![vec![1, 2], vec![3, 4]]), 37 + 118);
    let complete4 = vec![vec![0, 1, 1, 1], vec![1, 0, 1, 1], vec![1, 1, 0, 1], vec![1, 1, 1, 0]];
    assert_eq!(cube_trace(&complete4), 24);
}

#[test]
fn cube_trace_does_not_wrap_at_sixteen_bits() {
    assert_eq!(cube_trace(&vec![vec![65535]]), 65535u128 * 65535 * 65535);
    let full = vec![vec![65535u16; 3]; 3];
    assert_eq!(cube_trace(&full), 27 * 65535u128 * 65535 * 65535);
}

#[test]
fn nodes_from_table_marks_positions_with_their_own_index() {
    let table = vec![vec![0u16, 1, 1], vec![1, 0, 0], vec![1, 2, 1]];
    let nodes = nodes_from_table(&table);
    assert_eq!(
        nodes,
        vec![
            Node { name: 0u32, subjects: vec![0, 1, 2] },
            Node { name: 1, subjects: vec![0, 0, 0] },
            Node { name: 2, subjects: vec![0, 0, 2] },
        ]
    );
}

#[test]
fn round_trip_keeps_the_relation_read_from_the_other_side() {
    let first = vec![
        node("A", &["B", "C"]),
        node("B", &["C"]),
        node("C", &[]),
        node("D", &["A", "D"]),
    ];
    let graph = tabulated(first.clone());
    let rebuilt = nodes_from_table(graph.table());
    assert_eq!(rebuilt.len(), first.len());
    for r in 0..first.len() {
        assert_eq!(rebuilt[r].name, r as u32);
        assert_eq!(rebuilt[r].subjects.len(), first.len());
        assert_eq!(rebuilt[r].subjects[0], 0);
        for i in 1..first.len() {
            let listed = first[i].subjects.contains(&first[r].name);
            assert_eq!(rebuilt[r].subjects[i] == i as u32, listed);
            assert_eq!(rebuilt[r].subjects[i] == 0, !listed);
        }
    }
    assert_eq!(rebuilt[0].subjects, vec![0, 0, 0, 3]);
    assert_eq!(rebuilt[1].subjects, vec![0, 0, 0, 0]);
    assert_eq!(rebuilt[2].subjects, vec![0, 1, 0, 0]);
    assert_eq!(rebuilt[3].subjects, vec![0, 0, 0, 3]);
}

#[test]
fn round_trip_of_reciprocal_lists_keeps_the_matrix() {
    let graph = tabulated(triangle());
    let rebuilt = nodes_from_table(graph.table());
    assert_eq!(rebuilt[0].subjects, vec![0, 1, 2]);
    assert_eq!(rebuilt[1].subjects, vec![0, 0, 2]);
    assert_eq!(rebuilt[2].subjects, vec![0, 1, 0]);
}

#[test]
fn has_duplicate_names_finds_a_repeated_name() {
    let graph = Graph::new(GraphInit::FromNodes(triangle()));
    assert!(!graph.has_duplicate_names());
    let graph = Graph::new(GraphInit::FromNodes(vec![node("A", &[]), node("B", &[]), node("A", &[])]));
    assert!(graph.has_duplicate_names());
    let graph: Graph<u32> = Graph::new(GraphInit::Empty);
    assert!(!graph.has_duplicate_names());
}

#[test]
fn draw_table_lists_each_row_between_brackets() {
    let graph = tabulated(triangle());
    let lines: Vec<String> =
        graph.draw_table().into_iter().map(|line| String::from_utf8(line).unwrap()).collect();
    assert_eq!(lines, vec!["[0, 1, 1]", "[1, 0, 1]", "[1, 1, 0]"]);
    let empty: Graph<u32> = Graph::new(GraphInit::Empty);
    assert!(empty.draw_table().is_empty());
}

#[test]
fn draw_table_prints_rows_as_the_debug_format_does() {
    let (graph, _) = Graph::load_from_table("0,10,65535\n7,100,9999\n1,1,1").unwrap();
    let lines: Vec<String> =
        graph.draw_table().into_iter().map(|line| String::from_utf8(line).unwrap()).collect();
    let expected: Vec<String> = graph.table().iter().map(|row| format!("{:?}", row)).collect();
    assert_eq!(lines, expected);
    assert_eq!(lines[0], "[0, 10, 65535]");
}
