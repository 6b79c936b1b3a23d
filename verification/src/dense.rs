//! The dense matrix text format: one line per row, cells separated by commas,
//! each cell an unsigned decimal number.
//!
//! The text is read as bytes. Both separators are ASCII, so cutting a UTF-8
//! text at them never cuts a character.

use crate::error::GraphError;
use crate::matrix::{table_grid, zero_table, Table};
use crate::node::precedes;
use vstd::prelude::*;

verus! {

/// The byte that ends a line.
pub const NEWLINE: u8 = 10;

/// The byte that separates two cells of a line.
pub const COMMA: u8 = 44;

/// The sign that may stand before a cell's digits.
pub const PLUS: u8 = 43;

/// The pieces of `s` between the occurrences of `sep`, read from left to
/// right: a separator opens a new piece, any other byte joins the last one.
/// There is always at least one piece, and pieces may be empty.
pub open spec fn split(s: Seq<u8>, sep: u8) -> Seq<Seq<u8>>
    decreases s.len(),
{
    if s.len() == 0 {
        seq![Seq::<u8>::empty()]
    } else {
        let before = split(s.drop_last(), sep);
        if s.last() == sep {
            before.push(Seq::<u8>::empty())
        } else {
            before.drop_last().push(before.last().push(s.last()))
        }
    }
}

/// The pieces put together again, with `sep` between neighbours.
pub open spec fn join(pieces: Seq<Seq<u8>>, sep: u8) -> Seq<u8>
    decreases pieces.len(),
{
    if pieces.len() == 0 {
        Seq::<u8>::empty()
    } else if pieces.len() == 1 {
        pieces[0]
    } else {
        join(pieces.drop_last(), sep).push(sep) + pieces.last()
    }
}

/// The number of occurrences of `sep` in `s`.
pub open spec fn occurrences(s: Seq<u8>, sep: u8) -> nat
    decreases s.len(),
{
    if s.len() == 0 {
        0
    } else {
        occurrences(s.drop_last(), sep) + if s.last() == sep {
            1nat
        } else {
            0nat
        }
    }
}

/// The contents of a vector of byte vectors.
pub open spec fn pieces_of(v: Seq<Vec<u8>>) -> Seq<Seq<u8>> {
    Seq::new(v.len(), |i: int| v[i]@)
}

/// Splitting yields one piece more than there are separators, no piece holds
/// a separator, and joining the pieces gives the text back.
pub proof fn lemma_split(s: Seq<u8>, sep: u8)
    ensures
        split(s, sep).len() == occurrences(s, sep) + 1,
        forall|p: int, i: int|
            0 <= p < split(s, sep).len() && 0 <= i < split(s, sep)[p].len() ==> #[trigger] split(
                s,
                sep,
            )[p][i] != sep,
        join(split(s, sep), sep) == s,
    decreases s.len(),
{
    if s.len() == 0 {
        assert(join(split(s, sep), sep) =~= s);
    } else {
        let front = s.drop_last();
        let before = split(front, sep);
        let now = split(s, sep);
        lemma_split(front, sep);
        if s.last() == sep {
            assert(now.drop_last() =~= before);
            assert(now.last() =~= Seq::<u8>::empty());
            assert(join(now, sep) == join(before, sep).push(sep) + now.last());
            assert(join(now, sep) =~= s);
        } else if before.len() == 1 {
            assert(join(now, sep) =~= s);
        } else {
            assert(now.drop_last() =~= before.drop_last());
            assert(join(now, sep) == join(before.drop_last(), sep).push(sep) + now.last());
            assert(join(before, sep) == join(before.drop_last(), sep).push(sep) + before.last());
            assert(now.last() == before.last().push(s.last()));
            assert(s =~= front.push(s.last()));
            assert(join(now, sep) =~= join(before, sep).push(s.last()));
        }
    }
}

/// Cuts `s` at every occurrence of `sep`.
pub fn split_bytes(s: &[u8], sep: u8) -> (pieces: Vec<Vec<u8>>)
    ensures
        pieces_of(pieces@) == split(s@, sep),
{
    let mut pieces: Vec<Vec<u8>> = Vec::new();
    let mut current: Vec<u8> = Vec::new();
    let mut i: usize = 0;
    while i < s.len()
        invariant
            i <= s.len(),
            split(s@.take(i as int), sep) == pieces_of(pieces@).push(current@),
        decreases s.len() - i,
    {
        let ghost done = pieces_of(pieces@);
        let ghost open = current@;
        assert(s@.take(i + 1).drop_last() =~= s@.take(i as int));
        if s[i] == sep {
            pieces.push(current);
            current = Vec::new();
            assert(pieces_of(pieces@) =~= done.push(open));
        } else {
            current.push(s[i]);
            assert(done.push(open).drop_last() =~= done);
        }
        i += 1;
    }
    let ghost done = pieces_of(pieces@);
    assert(s@.take(i as int) =~= s@);
    pieces.push(current);
    assert(pieces_of(pieces@) =~= done.push(current@));
    pieces
}

/// `b` is an ASCII decimal digit.
pub open spec fn is_digit(b: u8) -> bool {
    48 <= b <= 57
}

/// Every byte of `s` is a decimal digit.
pub open spec fn all_digits(s: Seq<u8>) -> bool {
    forall|i: int| 0 <= i < s.len() ==> is_digit(#[trigger] s[i])
}

/// The number that the decimal digits `s` write.
pub open spec fn digits_value(s: Seq<u8>) -> int
    decreases s.len(),
{
    if s.len() == 0 {
        0
    } else {
        digits_value(s.drop_last()) * 10 + (s.last() - 48)
    }
}

/// The cell without a leading plus sign.
pub open spec fn unsigned_part(s: Seq<u8>) -> Seq<u8> {
    if s.len() > 0 && s[0] == PLUS {
        s.skip(1)
    } else {
        s
    }
}

/// The number a cell holds: an optional plus sign, then at least one decimal
/// digit and nothing else, writing a value of at most 65535. Any other cell,
/// the empty one and one with blanks included, holds no number.
pub open spec fn parse_cell(s: Seq<u8>) -> Option<u16> {
    let digits = unsigned_part(s);
    if digits.len() > 0 && all_digits(digits) && digits_value(digits) <= u16::MAX {
        Some(digits_value(digits) as u16)
    } else {
        None
    }
}

/// The value of a prefix of a run of digits never exceeds the value of the
/// whole run.
pub proof fn lemma_digits_value_grows(s: Seq<u8>, k: int)
    requires
        all_digits(s),
        0 <= k <= s.len(),
    ensures
        0 <= digits_value(s.take(k)) <= digits_value(s),
    decreases s.len(),
{
    if k == s.len() {
        assert(s.take(k) =~= s);
        if s.len() > 0 {
            assert(all_digits(s.drop_last()));
            lemma_digits_value_grows(s.drop_last(), k - 1);
            assert(s.drop_last().take(k - 1) =~= s.drop_last());
            assert(is_digit(s[s.len() - 1]));
        }
    } else {
        assert(all_digits(s.drop_last()));
        lemma_digits_value_grows(s.drop_last(), k);
        assert(s.drop_last().take(k) =~= s.take(k));
        assert(is_digit(s[s.len() - 1]));
    }
}

/// Reads the number a cell holds.
pub fn parse_number(token: &Vec<u8>) -> (value: Option<u16>)
    ensures
        value == parse_cell(token@),
{
    let len = token.len();
    let start: usize = if len > 0 && token[0] == PLUS {
        1
    } else {
        0
    };
    let ghost digits = unsigned_part(token@);
    assert(digits =~= token@.skip(start as int));
    if start == len {
        return None;
    }
    let mut acc: u32 = 0;
    let mut i: usize = start;
    while i < len
        invariant
            len == token@.len(),
            start <= i <= len,
            digits == token@.skip(start as int),
            digits == unsigned_part(token@),
            all_digits(digits.take(i - start)),
            acc == digits_value(digits.take(i - start)),
            acc <= u16::MAX,
        decreases len - i,
    {
        let b = token[i];
        let ghost seen = digits.take(i - start);
        let ghost next_seen = digits.take(i + 1 - start);
        assert(next_seen.drop_last() =~= seen);
        assert(next_seen.last() == b);
        if b < 48 || b > 57 {
            assert(!is_digit(digits[i - start]));
            return None;
        }
        let next: u32 = acc * 10 + (b - 48) as u32;
        if next > 0xffff {
            proof {
                if all_digits(digits) {
                    lemma_digits_value_grows(digits, i + 1 - start);
                }
            }
            return None;
        }
        acc = next;
        i += 1;
    }
    assert(digits.take(i - start) =~= digits);
    Some(acc as u16)
}

/// A cell that holds no number and was read as zero.
#[derive(Debug, Clone, PartialEq, Eq)]
pub struct LenientParseWarning {
    /// The line of the cell, from 0.
    pub line: usize,
    /// The position of the cell in its line, from 0.
    pub column: usize,
    /// The bytes of the cell.
    pub token: Vec<u8>,
}

/// The number of lines of a text, which is the dimension of its matrix. A
/// text that ends with a line break has an empty last line, which counts.
pub open spec fn dimension(text: Seq<u8>) -> nat {
    split(text, NEWLINE).len()
}

/// The bytes of the cell at `column` of line `line`, where there is one.
pub open spec fn cell_at(text: Seq<u8>, line: int, column: int) -> Option<Seq<u8>> {
    let lines = split(text, NEWLINE);
    if 0 <= line < lines.len() && 0 <= column < split(lines[line], COMMA).len() {
        Some(split(lines[line], COMMA)[column])
    } else {
        None
    }
}

/// The number that the cell at `column` of line `line` holds, where there is
/// such a cell and it holds one.
pub open spec fn number_at(text: Seq<u8>, line: int, column: int) -> Option<u16> {
    match cell_at(text, line, column) {
        Some(cell) => parse_cell(cell),
        None => None,
    }
}

/// The matrix entry for a position: the number found there, or zero.
pub open spec fn entry_at(text: Seq<u8>, line: int, column: int) -> int {
    match number_at(text, line, column) {
        Some(value) => value as int,
        None => 0,
    }
}

/// The square grid that a text describes.
pub open spec fn dense_grid(text: Seq<u8>) -> Seq<Seq<int>> {
    Seq::new(
        dimension(text),
        |line: int| Seq::new(dimension(text), |column: int| entry_at(text, line, column)),
    )
}

/// A number stands at a column beyond the square.
pub open spec fn outside_at(text: Seq<u8>, line: int, column: int) -> bool {
    column >= dimension(text) && number_at(text, line, column) is Some
}

/// No number stands beyond the square.
pub open spec fn fits_square(text: Seq<u8>) -> bool {
    forall|line: int, column: int| !outside_at(text, line, column)
}

/// The first number, in reading order, that stands beyond the square.
pub open spec fn first_outside(text: Seq<u8>, line: int, column: int) -> bool {
    &&& outside_at(text, line, column)
    &&& forall|a: int, b: int| precedes(a, b, line, column) ==> !outside_at(text, a, b)
}

/// There is a cell at the position and it holds no number.
pub open spec fn rejected_at(text: Seq<u8>, line: int, column: int) -> bool {
    cell_at(text, line, column) is Some && number_at(text, line, column) is None
}

/// The warnings are the cells without a number that come before
/// `(line, column)`: each of them once, in reading order, with its bytes.
pub open spec fn reports(
    text: Seq<u8>,
    warnings: Seq<LenientParseWarning>,
    line: int,
    column: int,
) -> bool {
    &&& forall|i: int|
        0 <= i < warnings.len() ==> {
            let w = #[trigger] warnings[i];
            &&& rejected_at(text, w.line as int, w.column as int)
            &&& precedes(w.line as int, w.column as int, line, column)
            &&& cell_at(text, w.line as int, w.column as int) == Some(w.token@)
        }
    &&& forall|i: int, j: int|
        0 <= i < j < warnings.len() ==> precedes(
            (#[trigger] warnings[i]).line as int,
            warnings[i].column as int,
            (#[trigger] warnings[j]).line as int,
            warnings[j].column as int,
        )
    &&& forall|a: int, b: int|
        #[trigger] rejected_at(text, a, b) && precedes(a, b, line, column) ==> exists|i: int|
            0 <= i < warnings.len() && (#[trigger] warnings[i]).line == a && warnings[i].column == b
}

/// Reads a dense matrix text.
///
/// The matrix is square, with as many rows as the text has lines. A cell
/// that holds no number leaves a zero and a warning. A line may be shorter
/// than the square, and may be longer as long as no number stands beyond it:
/// the first such number is reported as malformed input.
pub fn read_table(text: &[u8]) -> (result: Result<(Table, Vec<LenientParseWarning>), GraphError>)
    ensures
        result is Ok <==> fits_square(text@),
        match result {
            Ok((table, warnings)) => {
                &&& table_grid(table@) == dense_grid(text@)
                &&& reports(text@, warnings@, dimension(text@) as int, 0)
            },
            Err(e) => {
                &&& e matches GraphError::MalformedInput { line, column }
                &&& first_outside(text@, line as int, column as int)
            },
        },
{
    let lines = split_bytes(text, NEWLINE);
    let n = lines.len();
    let ghost t = text@;
    let ghost line_seq = split(t, NEWLINE);
    let mut table = zero_table(n);
    let mut warnings: Vec<LenientParseWarning> = Vec::new();
    proof {
        assert forall|l: int, c: int| 0 <= l < n && 0 <= c < n implies #[trigger] table@[l]@[c]
            == 0u16 by {
            assert(table_grid(table@)[l][c] == 0);
        }
    }
    let mut r: usize = 0;
    while r < n
        invariant
            t == text@,
            line_seq == split(t, NEWLINE),
            pieces_of(lines@) == line_seq,
            n == line_seq.len(),
            r <= n,
            table@.len() == n,
            forall|l: int| 0 <= l < n ==> (#[trigger] table@[l])@.len() == n,
            forall|l: int, c: int|
                0 <= l < n && 0 <= c < n ==> #[trigger] table@[l]@[c] as int == (if precedes(
                    l,
                    c,
                    r as int,
                    0,
                ) {
                    entry_at(t, l, c)
                } else {
                    0
                }),
            forall|a: int, b: int| precedes(a, b, r as int, 0) ==> !outside_at(t, a, b),
            reports(t, warnings@, r as int, 0),
        decreases n - r,
    {
        assert(lines@[r as int]@ == line_seq[r as int]) by {
            assert(pieces_of(lines@)[r as int] == lines@[r as int]@);
        }
        let cells = split_bytes(lines[r].as_slice(), COMMA);
        let ghost cell_seq = split(line_seq[r as int], COMMA);
        let m = cells.len();
        let mut k: usize = 0;
        while k < m
            invariant
                t == text@,
                line_seq == split(t, NEWLINE),
                n == line_seq.len(),
                r < n,
                cell_seq == split(line_seq[r as int], COMMA),
                pieces_of(cells@) == cell_seq,
                m == cell_seq.len(),
                k <= m,
                table@.len() == n,
                forall|l: int| 0 <= l < n ==> (#[trigger] table@[l])@.len() == n,
                forall|l: int, c: int|
                    0 <= l < n && 0 <= c < n ==> #[trigger] table@[l]@[c] as int == (if precedes(
                        l,
                        c,
                        r as int,
                        k as int,
                    ) {
                        entry_at(t, l, c)
                    } else {
                        0
                    }),
                forall|a: int, b: int| precedes(a, b, r as int, k as int) ==> !outside_at(t, a, b),
                reports(t, warnings@, r as int, k as int),
            decreases m - k,
        {
            assert(cells@[k as int]@ == cell_seq[k as int]) by {
                assert(pieces_of(cells@)[k as int] == cells@[k as int]@);
            }
            assert(cell_at(t, r as int, k as int) == Some(cell_seq[k as int]));
            let ghost reported = warnings@;
            match parse_number(&cells[k]) {
                Some(value) => {
                    if k < n {
                        table[r][k] = value;
                    } else {
                        assert(number_at(t, r as int, k as int) == Some(value));
                        assert(outside_at(t, r as int, k as int));
                        return Err(GraphError::MalformedInput { line: r, column: k });
                    }
                },
                None => {
                    let token = cells[k].clone();
                    assert(token@ =~= cells@[k as int]@);
                    warnings.push(LenientParseWarning { line: r, column: k, token });
                    assert(warnings@.drop_last() =~= reported);
                    assert(warnings@.last().token@ == cell_seq[k as int]);
                },
            }
            proof {
                assert forall|a: int, b: int| precedes(a, b, r as int, k + 1) implies !outside_at(
                    t,
                    a,
                    b,
                ) by {
                    if !(a == r && b == k) {
                        assert(precedes(a, b, r as int, k as int));
                    }
                }
                lemma_reports_step(t, reported, warnings@, r as int, k as int);
            }
            k += 1;
        }
        proof {
            assert forall|l: int, c: int| 0 <= l < n && 0 <= c < n implies #[trigger] table@[l]@[c] as int
                == (if precedes(l, c, r + 1, 0) {
                entry_at(t, l, c)
            } else {
                0
            }) by {
                if l == r && c >= m {
                    assert(cell_at(t, l, c) is None);
                }
            }
            assert forall|a: int, b: int| precedes(a, b, r + 1, 0) implies !outside_at(t, a, b) by {
                if !precedes(a, b, r as int, k as int) {
                    assert(cell_at(t, a, b) is None);
                }
            }
            lemma_reports_line_end(t, warnings@, r as int, k as int);
        }
        r += 1;
    }
    proof {
        assert forall|a: int, b: int| !outside_at(t, a, b) by {
            if !precedes(a, b, n as int, 0) {
                assert(cell_at(t, a, b) is None);
            }
        }
        assert(table_grid(table@) =~~= dense_grid(t));
    }
    Ok((table, warnings))
}

/// Reading one more cell keeps the warnings exact: they stay as they were
/// where the cell holds a number, and gain the cell at their end where it
/// does not.
proof fn lemma_reports_step(
    text: Seq<u8>,
    before: Seq<LenientParseWarning>,
    after: Seq<LenientParseWarning>,
    line: int,
    column: int,
)
    requires
        reports(text, before, line, column),
        0 <= line,
        0 <= column,
        cell_at(text, line, column) is Some,
        number_at(text, line, column) is Some ==> after == before,
        number_at(text, line, column) is None ==> after.len() == before.len() + 1
            && after.drop_last() == before && after.last().line == line && after.last().column
            == column && cell_at(text, line, column) == Some(after.last().token@),
    ensures
        reports(text, after, line, column + 1),
{
    if number_at(text, line, column) is Some {
        assert forall|a: int, b: int| #[trigger]
            rejected_at(text, a, b) && precedes(a, b, line, column + 1) implies exists|i: int|
            0 <= i < after.len() && (#[trigger] after[i]).line == a && after[i].column == b by {
            assert(precedes(a, b, line, column));
        }
    } else {
        let last = before.len() as int;
        assert forall|i: int| 0 <= i < before.len() implies after[i] == before[i] by {
            assert(after.drop_last()[i] == after[i]);
        }
        assert forall|a: int, b: int| #[trigger]
            rejected_at(text, a, b) && precedes(a, b, line, column + 1) implies exists|i: int|
            0 <= i < after.len() && (#[trigger] after[i]).line == a && after[i].column == b by {
            if a == line && b == column {
                assert(after[last].line == a && after[last].column == b);
            } else {
                assert(precedes(a, b, line, column));
                let i = choose|i: int|
                    0 <= i < before.len() && (#[trigger] before[i]).line == a && before[i].column == b;
                assert(after[i].line == a && after[i].column == b);
            }
        }
    }
}

/// At the end of a line the warnings are exact up to the start of the next.
proof fn lemma_reports_line_end(
    text: Seq<u8>,
    warnings: Seq<LenientParseWarning>,
    line: int,
    cells: int,
)
    requires
        reports(text, warnings, line, cells),
        0 <= line < dimension(text),
        cells == split(split(text, NEWLINE)[line], COMMA).len(),
    ensures
        reports(text, warnings, line + 1, 0),
{
    assert forall|a: int, b: int| #[trigger]
        rejected_at(text, a, b) && precedes(a, b, line + 1, 0) implies exists|i: int|
        0 <= i < warnings.len() && (#[trigger] warnings[i]).line == a && warnings[i].column == b by {
        assert(precedes(a, b, line, cells));
    }
}

} // verus!
