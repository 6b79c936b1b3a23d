use clustering::dense::{parse_number, read_table, split_bytes, LenientParseWarning};
use clustering::error::GraphError;
use clustering::graph::{Coefficient, Graph};
use clustering::matrix::MAX_DIMENSION;
use clustering::node::Node;

fn warning(line: usize, column: usize, token: &str) -> LenientParseWarning {
    LenientParseWarning { line, column, token: token.as_bytes().to_vec() }
}

fn pieces(text: &str, sep: u8) -> Vec<String> {
    split_bytes(text.as_bytes(), sep)
        .into_iter()
        .map(|piece| String::from_utf8(piece).unwrap())
        .collect()
}

#[test]
fn split_bytes_cuts_at_every_separator() {
    assert_eq!(pieces("", b','), vec![""]);
    assert_eq!(pieces("abc", b','), vec!["abc"]);
    assert_eq!(pieces("a,b,c", b','), vec!["a", "b", "c"]);
    assert_eq!(pieces(",a,,b,", b','), vec!["", "a", "", "b", ""]);
    assert_eq!(pieces("1,0\n0,1\n", b'\n'), vec!["1,0", "0,1", ""]);
}

#[test]
fn split_bytes_agrees_with_str_split() {
    for text in ["", ",", "x", "1,2\n3,4", "\n\n", "é,ü\n1", "a,b,,c\n,\n"] {
        let by_comma: Vec<String> = text.split(",").map(|s| s.to_string()).collect();
        let by_line: Vec<String> = text.split("\n").map(|s| s.to_string()).collect();
        assert_eq!(pieces(text, b','), by_comma);
        assert_eq!(pieces(text, b'\n'), by_line);
    }
}

#[test]
fn parse_number_reads_unsigned_decimals() {
    assert_eq!(parse_number(&b"0".to_vec()), Some(0));
    assert_eq!(parse_number(&b"1".to_vec()), Some(1));
    assert_eq!(parse_number(&b"42".to_vec()), Some(42));
    assert_eq!(parse_number(&b"007".to_vec()), Some(7));
    assert_eq!(parse_number(&b"+5".to_vec()), Some(5));
    assert_eq!(parse_number(&b"65535".to_vec()), Some(65535));
    assert_eq!(parse_number(&b"00000000000065535".to_vec()), Some(65535));
}

#[test]
fn parse_number_refuses_everything_else() {
    for token in [
        "", "+", "-", "-1", "-0", "x", "1x", "x1", " 1", "1 ", "1\r", "1.0", "++1", "1+", "65536",
        "99999", "100000", "4294967296", "18446744073709551616", "٣",
    ] {
        assert_eq!(parse_number(&token.as_bytes().to_vec()), None, "{:?}", token);
    }
}

#[test]
fn parse_number_agrees_with_the_standard_parser() {
    for token in ["0", "+0", "12", "+12", "65535", "65536", "", "+", "-3", "1_0", "0x10", "1e3"] {
        assert_eq!(parse_number(&token.as_bytes().to_vec()), token.parse::<u16>().ok());
    }
}

#[test]
fn read_table_reads_a_square_grid() {
    let (table, warnings) = read_table(b"0,1,1\n1,0,1\n1,1,0").unwrap();
    assert_eq!(table, vec![vec![0u16, 1, 1], vec![1, 0, 1], vec![1, 1, 0]]);
    assert!(warnings.is_empty());
}

#[test]
fn read_table_keeps_numbers_other_than_zero_and_one() {
    let (table, warnings) = read_table(b"7,65535\n+3,010").unwrap();
    assert_eq!(table, vec![vec![7u16, 65535], vec![3, 10]]);
    assert!(warnings.is_empty());
}

#[test]
fn read_table_defaults_a_bad_cell_to_zero_and_warns() {
    let (table, warnings) = read_table(b"0,x,1\n1,0,1\n1,1,0").unwrap();
    assert_eq!(table, vec![vec![0u16, 0, 1], vec![1, 0, 1], vec![1, 1, 0]]);
    assert_eq!(warnings, vec![warning(0, 1, "x")]);
}

#[test]
fn read_table_reports_bad_cells_in_reading_order() {
    let (table, warnings) = read_table(b"a,1\n70000,-1,zz").unwrap();
    assert_eq!(table, vec![vec![0u16, 1], vec![0, 0]]);
    assert_eq!(
        warnings,
        vec![warning(0, 0, "a"), warning(1, 0, "70000"), warning(1, 1, "-1"), warning(1, 2, "zz")]
    );
}

#[test]
fn read_table_counts_the_empty_line_after_a_final_line_break() {
    let (table, warnings) = read_table(b"0,1\n1,0\n").unwrap();
    assert_eq!(table, vec![vec![0u16, 1, 0], vec![1, 0, 0], vec![0, 0, 0]]);
    assert_eq!(warnings, vec![warning(2, 0, "")]);
}

#[test]
fn read_table_of_empty_text_has_one_empty_cell() {
    let (table, warnings) = read_table(b"").unwrap();
    assert_eq!(table, vec![vec![0u16]]);
    assert_eq!(warnings, vec![warning(0, 0, "")]);
}

#[test]
fn read_table_leaves_short_lines_padded_with_zeros() {
    let (table, warnings) = read_table(b"1\n1,1\n1,1,1").unwrap();
    assert_eq!(table, vec![vec![1u16, 0, 0], vec![1, 1, 0], vec![1, 1, 1]]);
    assert!(warnings.is_empty());
}

#[test]
fn read_table_does_not_strip_carriage_returns() {
    let (table, warnings) = read_table(b"0,1\r\n1,0").unwrap();
    assert_eq!(table, vec![vec![0u16, 0], vec![1, 0]]);
    assert_eq!(warnings, vec![warning(0, 1, "1\r")]);
}

#[test]
fn read_table_refuses_a_number_beyond_the_square() {
    assert_eq!(read_table(b"1,1"), Err(GraphError::MalformedInput { line: 0, column: 1 }));
    assert_eq!(
        read_table(b"1,0\n0,1,0,1"),
        Err(GraphError::MalformedInput { line: 1, column: 2 })
    );
}

#[test]
fn read_table_tolerates_a_bad_cell_beyond_the_square() {
    let (table, warnings) = read_table(b"1,x").unwrap();
    assert_eq!(table, vec![vec![1u16]]);
    assert_eq!(warnings, vec![warning(0, 1, "x")]);
}

#[test]
fn load_from_table_makes_up_the_nodes() {
    let (graph, warnings) = Graph::load_from_table("0,1,1\n1,0,1\n1,1,0").unwrap();
    assert!(warnings.is_empty());
    assert!(graph.is_tabulated());
    assert_eq!(graph.len(), 3);
    assert_eq!(graph.table(), &vec![vec![0u16, 1, 1], vec![1, 0, 1], vec![1, 1, 0]]);
    assert_eq!(
        graph.nodes(),
        &vec![
            Node { name: 0u32, subjects: vec![0, 1, 2] },
            Node { name: 1, subjects: vec![0, 0, 2] },
            Node { name: 2, subjects: vec![0, 1, 0] },
        ]
    );
}

#[test]
fn load_from_table_triangle_has_coefficient_three_ninths() {
    let (graph, _) = Graph::load_from_table("0,1,1\n1,0,1\n1,1,0").unwrap();
    assert!(graph.len() <= MAX_DIMENSION);
    assert_eq!(graph.close_triplet_count(), 3);
    assert_eq!(graph.open_triplet_count(), 6);
    assert_eq!(graph.c(), Ok(Coefficient { closed: 3, triplets: 9 }));
}

#[test]
fn load_from_table_counts_every_made_up_node_as_open() {
    let (graph, _) = Graph::load_from_table("0,0\n0,0").unwrap();
    assert_eq!(graph.close_triplet_count(), 0);
    assert_eq!(graph.open_triplet_count(), 4);
    assert_eq!(graph.c(), Ok(Coefficient { closed: 0, triplets: 4 }));
}

#[test]
fn all_zero_matrix_has_no_closed_triplets() {
    for text in ["0", "0,0\n0,0", "0,0,0\n0,0,0\n0,0,0", "0,0,0,0\n0,0,0,0\n0,0,0,0\n0,0,0,0"] {
        let (graph, warnings) = Graph::load_from_table(text).unwrap();
        assert!(warnings.is_empty());
        assert_eq!(graph.close_triplet_count(), 0);
    }
}

#[test]
fn load_from_table_tolerates_a_token_that_is_no_number() {
    let (graph, warnings) = Graph::load_from_table("0,1,1\n1,0,x\n1,1,0").unwrap();
    assert_eq!(graph.table(), &vec![vec![0u16, 1, 1], vec![1, 0, 0], vec![1, 1, 0]]);
    assert_eq!(warnings.len(), 1);
    assert_eq!(warnings[0], warning(1, 2, "x"));
    assert_eq!(graph.close_triplet_count(), 1);
}

#[test]
fn load_from_table_refuses_a_line_longer_than_the_square() {
    assert_eq!(
        Graph::load_from_table("0,1,0").map(|_| ()),
        Err(GraphError::MalformedInput { line: 0, column: 1 })
    );
}

#[test]
fn load_from_table_single_line_is_undefined() {
    let (graph, _) = Graph::load_from_table("0").unwrap();
    assert_eq!(graph.nodes(), &vec![Node { name: 0u32, subjects: vec![0] }]);
    assert_eq!(graph.c(), Err(GraphError::UndefinedCoefficient));
}
