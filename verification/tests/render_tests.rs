use clustering::dense::parse_number;
use clustering::render::{push_decimal, render_row, render_table};

#[test]
fn push_decimal_appends_the_digits() {
    let mut out = b"x".to_vec();
    push_decimal(&mut out, 0);
    push_decimal(&mut out, 7);
    push_decimal(&mut out, 10);
    push_decimal(&mut out, 65535);
    assert_eq!(out, b"x071065535".to_vec());
}

#[test]
fn every_number_is_read_back_from_its_digits() {
    for value in [0u16, 1, 9, 10, 11, 99, 100, 101, 999, 1000, 9999, 10000, 32768, 65534, 65535] {
        let mut out = Vec::new();
        push_decimal(&mut out, value);
        assert_eq!(out, value.to_string().into_bytes());
        assert_eq!(parse_number(&out), Some(value));
    }
}

#[test]
fn render_row_of_no_cells_is_a_pair_of_brackets() {
    assert_eq!(render_row(&vec![]), b"[]".to_vec());
    assert_eq!(render_row(&vec![5]), b"[5]".to_vec());
    assert_eq!(render_row(&vec![5, 0, 12]), b"[5, 0, 12]".to_vec());
}

#[test]
fn render_table_renders_every_row() {
    let table = vec![vec![0u16, 1], vec![], vec![300]];
    assert_eq!(render_table(&table), vec![b"[0, 1]".to_vec(), b"[]".to_vec(), b"[300]".to_vec()]);
}
