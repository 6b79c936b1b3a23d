//! The matrix as printable text: each row as a bracketed list of decimal
//! numbers, `[0, 1, 0]`.

use crate::dense::{all_digits, digits_value, is_digit, parse_cell, unsigned_part, COMMA};
use crate::matrix::{table_grid, Table};
use vstd::prelude::*;

verus! {

/// The byte that opens a row.
pub const OPEN: u8 = 91;

/// The byte that closes a row.
pub const CLOSE: u8 = 93;

/// The blank that follows each comma.
pub const SPACE: u8 = 32;

/// The decimal digits of `n`, without leading zeros.
pub open spec fn decimal(n: nat) -> Seq<u8>
    decreases n,
{
    if n < 10 {
        seq![(48 + n) as u8]
    } else {
        decimal(n / 10).push((48 + n % 10) as u8)
    }
}

/// The first `k` numbers of a row, with a comma and a blank between
/// neighbours.
pub open spec fn listed(row: Seq<int>, k: nat) -> Seq<u8>
    decreases k,
{
    if k == 0 {
        Seq::<u8>::empty()
    } else if k == 1 {
        decimal(row[0] as nat)
    } else {
        listed(row, (k - 1) as nat) + seq![COMMA, SPACE] + decimal(row[k - 1] as nat)
    }
}

/// The text of a row: its numbers listed between square brackets.
pub open spec fn row_text(row: Seq<int>) -> Seq<u8> {
    seq![OPEN] + listed(row, row.len()) + seq![CLOSE]
}

/// The decimal digits of a number are digits, at least one of them, and
/// write that number.
pub proof fn lemma_decimal(n: nat)
    ensures
        decimal(n).len() >= 1,
        all_digits(decimal(n)),
        digits_value(decimal(n)) == n,
    decreases n,
{
    if n < 10 {
        let d = decimal(n);
        assert(d.len() == 1);
        assert(d[0] == 48 + n);
        assert(d.drop_last() =~= Seq::<u8>::empty());
        assert(digits_value(d.drop_last()) == 0);
    } else {
        lemma_decimal(n / 10);
        let front = decimal(n / 10);
        let d = decimal(n);
        assert(d.drop_last() =~= front);
        assert(d.last() == 48 + n % 10);
        assert forall|i: int| 0 <= i < d.len() implies is_digit(#[trigger] d[i]) by {
            if i < front.len() {
                assert(d[i] == front[i]);
            }
        }
    }
}

/// A number that fits a cell is read back from its own text.
pub proof fn lemma_parse_of_decimal(value: u16)
    ensures
        parse_cell(decimal(value as nat)) == Some(value),
{
    lemma_decimal(value as nat);
    let d = decimal(value as nat);
    assert(is_digit(d[0]));
    assert(unsigned_part(d) == d);
}

/// Appends the decimal digits of `value`.
pub fn push_decimal(out: &mut Vec<u8>, value: u16)
    ensures
        final(out)@ == old(out)@ + decimal(value as nat),
    decreases value,
{
    if value >= 10 {
        push_decimal(out, value / 10);
    }
    out.push(48 + (value % 10) as u8);
    assert(out@ =~= old(out)@ + decimal(value as nat));
}

/// The text of one row.
pub fn render_row(row: &Vec<u16>) -> (text: Vec<u8>)
    ensures
        text@ == row_text(row@.map_values(|v: u16| v as int)),
{
    let ghost cells = row@.map_values(|v: u16| v as int);
    let mut text: Vec<u8> = Vec::new();
    text.push(OPEN);
    let mut k: usize = 0;
    while k < row.len()
        invariant
            cells == row@.map_values(|v: u16| v as int),
            k <= row@.len(),
            text@ == seq![OPEN] + listed(cells, k as nat),
        decreases row@.len() - k,
    {
        if k > 0 {
            text.push(COMMA);
            text.push(SPACE);
        }
        push_decimal(&mut text, row[k]);
        assert(cells[k as int] as nat == row@[k as int] as nat);
        assert(text@ =~= seq![OPEN] + listed(cells, (k + 1) as nat));
        k += 1;
    }
    text.push(CLOSE);
    text
}

/// The text of every row of a table, in order.
pub fn render_table(table: &Table) -> (lines: Vec<Vec<u8>>)
    ensures
        lines@.len() == table@.len(),
        forall|r: int|
            0 <= r < table@.len() ==> (#[trigger] lines@[r])@ == row_text(table_grid(table@)[r]),
{
    let mut lines: Vec<Vec<u8>> = Vec::new();
    let mut r: usize = 0;
    while r < table.len()
        invariant
            r <= table@.len(),
            lines@.len() == r,
            forall|l: int| 0 <= l < r ==> (#[trigger] lines@[l])@ == row_text(table_grid(table@)[l]),
        decreases table@.len() - r,
    {
        let line = render_row(&table[r]);
        assert(table@[r as int]@.map_values(|v: u16| v as int) =~= table_grid(table@)[r as int]);
        lines.push(line);
        r += 1;
    }
    lines
}

} // verus!
