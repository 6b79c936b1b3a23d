//! Dense integer grids: construction, product and trace.
//!
//! A grid is modelled as a sequence of rows of mathematical integers, so that
//! the product and the trace are stated without any machine width. The
//! executable code stores adjacency entries as `u16` and accumulates in `u128`.

use vstd::prelude::*;

verus! {

/// An adjacency matrix: one inner vector per row.
pub type Table = Vec<Vec<u16>>;

/// The largest dimension for which the trace of the cube of a `u16` grid is
/// certain to fit the `u128` accumulator: `(2^26 * 65535)^3 < 2^128`.
pub const MAX_DIMENSION: usize = 0x400_0000;

/// The largest value a cell of a `Table` can hold.
pub open spec fn cell_limit() -> int {
    0xffff
}

/// Every row of `g` is as long as `g` itself.
pub open spec fn is_square(g: Seq<Seq<int>>) -> bool {
    forall|i: int| 0 <= i < g.len() ==> (#[trigger] g[i]).len() == g.len()
}

/// Every entry of `g` lies in `0..=limit`.
pub open spec fn within(g: Seq<Seq<int>>, limit: int) -> bool {
    forall|i: int, j: int|
        0 <= i < g.len() && 0 <= j < g[i].len() ==> 0 <= #[trigger] g[i][j] <= limit
}

/// The grid held by a table.
pub open spec fn table_grid(t: Seq<Vec<u16>>) -> Seq<Seq<int>> {
    Seq::new(t.len(), |i: int| Seq::new(t[i]@.len(), |j: int| t[i]@[j] as int))
}

/// The grid held by a table of wide accumulators.
pub open spec fn wide_grid(t: Seq<Vec<u128>>) -> Seq<Seq<int>> {
    Seq::new(t.len(), |i: int| Seq::new(t[i]@.len(), |j: int| t[i]@[j] as int))
}

/// The square grid of dimension `n` whose entries are all zero.
pub open spec fn zero_grid(n: nat) -> Seq<Seq<int>> {
    Seq::new(n, |i: int| Seq::new(n, |j: int| 0int))
}

/// The sum of `a[i][t] * b[t][j]` over `t < k`.
pub open spec fn dot(a: Seq<Seq<int>>, b: Seq<Seq<int>>, i: int, j: int, k: nat) -> int
    decreases k,
{
    if k == 0 {
        0
    } else {
        dot(a, b, i, j, (k - 1) as nat) + a[i][k - 1] * b[k - 1][j]
    }
}

/// The matrix product of two square grids of the same dimension.
pub open spec fn product(a: Seq<Seq<int>>, b: Seq<Seq<int>>) -> Seq<Seq<int>> {
    Seq::new(a.len(), |i: int| Seq::new(a.len(), |j: int| dot(a, b, i, j, a.len())))
}

/// The sum of the first `k` diagonal entries of `g`.
pub open spec fn diagonal_sum(g: Seq<Seq<int>>, k: nat) -> int
    decreases k,
{
    if k == 0 {
        0
    } else {
        diagonal_sum(g, (k - 1) as nat) + g[k - 1][k - 1]
    }
}

/// The trace of a square grid.
pub open spec fn trace(g: Seq<Seq<int>>) -> int {
    diagonal_sum(g, g.len())
}

/// The third power of a square grid, as `g * (g * g)`.
pub open spec fn cube(g: Seq<Seq<int>>) -> Seq<Seq<int>> {
    product(g, product(g, g))
}

/// A row of `n` zeros.
pub fn zeros(n: usize) -> (row: Vec<u16>)
    ensures
        row@ == Seq::new(n as nat, |i: int| 0u16),
{
    let mut row: Vec<u16> = Vec::new();
    let mut i: usize = 0;
    while i < n
        invariant
            i <= n,
            row@ == Seq::new(i as nat, |k: int| 0u16),
        decreases n - i,
    {
        row.push(0);
        i += 1;
    }
    row
}

/// An `n` by `n` table of zeros.
pub fn zero_table(n: usize) -> (table: Table)
    ensures
        table_grid(table@) == zero_grid(n as nat),
        table@.len() == n,
        forall|i: int| 0 <= i < n ==> (#[trigger] table@[i])@.len() == n,
{
    let mut table: Table = Vec::new();
    let mut i: usize = 0;
    while i < n
        invariant
            i <= n,
            table@.len() == i,
            forall|r: int| 0 <= r < i ==> (#[trigger] table@[r])@ == Seq::new(n as nat, |k: int| 0u16),
        decreases n - i,
    {
        table.push(zeros(n));
        i += 1;
    }
    assert(table_grid(table@) =~~= zero_grid(n as nat));
    table
}

/// A partial dot product of non-negative bounded entries is non-negative, grows
/// with the number of terms, and stays below `k * (la * lb)`.
pub proof fn lemma_dot_bounds(
    a: Seq<Seq<int>>,
    b: Seq<Seq<int>>,
    i: int,
    j: int,
    k: nat,
    la: int,
    lb: int,
)
    requires
        a.len() == b.len(),
        is_square(a),
        is_square(b),
        within(a, la),
        within(b, lb),
        0 <= i < a.len(),
        0 <= j < a.len(),
        k <= a.len(),
    ensures
        0 <= dot(a, b, i, j, k) <= k * (la * lb),
        k > 0 ==> dot(a, b, i, j, (k - 1) as nat) <= dot(a, b, i, j, k),
        k > 0 ==> 0 <= a[i][k - 1] * b[k - 1][j] <= la * lb,
    decreases k,
{
    if k > 0 {
        lemma_dot_bounds(a, b, i, j, (k - 1) as nat, la, lb);
        let x = a[i][k - 1];
        let y = b[k - 1][j];
        assert(0 <= x <= la);
        assert(0 <= y <= lb);
        assert(0 <= x * y <= la * lb) by (nonlinear_arith)
            requires
                0 <= x <= la,
                0 <= y <= lb,
        ;
        assert((k - 1) * (la * lb) + la * lb == k * (la * lb)) by (nonlinear_arith);
    }
}

/// A partial diagonal sum of non-negative bounded entries is non-negative and
/// stays below `k * limit`.
pub proof fn lemma_diagonal_sum_bounds(g: Seq<Seq<int>>, k: nat, limit: int)
    requires
        is_square(g),
        within(g, limit),
        k <= g.len(),
    ensures
        0 <= diagonal_sum(g, k) <= k * limit,
    decreases k,
{
    if k > 0 {
        lemma_diagonal_sum_bounds(g, (k - 1) as nat, limit);
        assert(g[k - 1].len() == g.len());
        assert(0 <= g[k - 1][k - 1] <= limit);
        assert((k - 1) * limit + limit == k * limit) by (nonlinear_arith);
    } else {
        assert(k * limit == 0) by (nonlinear_arith)
            requires
                k == 0,
        ;
    }
}

/// The product of two bounded square grids is square and bounded by the
/// dimension times the product of the two bounds.
pub proof fn lemma_product_bounds(a: Seq<Seq<int>>, b: Seq<Seq<int>>, la: int, lb: int)
    requires
        a.len() == b.len(),
        is_square(a),
        is_square(b),
        within(a, la),
        within(b, lb),
    ensures
        product(a, b).len() == a.len(),
        is_square(product(a, b)),
        within(product(a, b), a.len() * (la * lb)),
{
    let p = product(a, b);
    assert forall|i: int, j: int| 0 <= i < p.len() && 0 <= j < p[i].len() implies 0
        <= #[trigger] p[i][j] <= a.len() * (la * lb) by {
        lemma_dot_bounds(a, b, i, j, a.len(), la, lb);
    }
}

/// The table with every cell widened to `u128`.
fn widen(table: &Table) -> (wide: Vec<Vec<u128>>)
    ensures
        wide_grid(wide@) == table_grid(table@),
{
    let mut wide: Vec<Vec<u128>> = Vec::new();
    let mut i: usize = 0;
    while i < table.len()
        invariant
            i <= table.len(),
            wide@.len() == i,
            forall|r: int|
                0 <= r < i ==> (#[trigger] wide@[r])@.len() == table@[r]@.len() && forall|c: int|
                    0 <= c < table@[r]@.len() ==> (#[trigger] wide@[r]@[c]) as int
                        == table@[r]@[c] as int,
        decreases table.len() - i,
    {
        let mut row: Vec<u128> = Vec::new();
        let mut j: usize = 0;
        while j < table[i].len()
            invariant
                i < table.len(),
                j <= table@[i as int]@.len(),
                row@.len() == j,
                forall|c: int| 0 <= c < j ==> (#[trigger] row@[c]) as int == table@[i as int]@[c] as int,
            decreases table@[i as int]@.len() - j,
        {
            row.push(table[i][j] as u128);
            j += 1;
        }
        wide.push(row);
        i += 1;
    }
    assert(wide_grid(wide@) =~~= table_grid(table@));
    wide
}

/// The product of two square tables of the same dimension whose entries are
/// bounded by `la` and `lb`.
fn multiply(a: &Vec<Vec<u128>>, b: &Vec<Vec<u128>>, Ghost(la): Ghost<int>, Ghost(lb): Ghost<int>) -> (c:
    Vec<Vec<u128>>)
    requires
        a@.len() == b@.len(),
        is_square(wide_grid(a@)),
        is_square(wide_grid(b@)),
        within(wide_grid(a@), la),
        within(wide_grid(b@), lb),
        a@.len() * (la * lb) <= u128::MAX,
    ensures
        wide_grid(c@) == product(wide_grid(a@), wide_grid(b@)),
{
    let n = a.len();
    let ghost ga = wide_grid(a@);
    let ghost gb = wide_grid(b@);
    let mut c: Vec<Vec<u128>> = Vec::new();
    let mut i: usize = 0;
    while i < n
        invariant
            n == a@.len(),
            n == b@.len(),
            ga == wide_grid(a@),
            gb == wide_grid(b@),
            is_square(ga),
            is_square(gb),
            within(ga, la),
            within(gb, lb),
            n * (la * lb) <= u128::MAX,
            i <= n,
            c@.len() == i,
            forall|r: int|
                0 <= r < i ==> (#[trigger] c@[r])@.len() == n && forall|q: int|
                    0 <= q < n ==> (#[trigger] c@[r]@[q]) as int == dot(ga, gb, r, q, n as nat),
        decreases n - i,
    {
        let mut row: Vec<u128> = Vec::new();
        let mut j: usize = 0;
        while j < n
            invariant
                n == a@.len(),
                n == b@.len(),
                ga == wide_grid(a@),
                gb == wide_grid(b@),
                is_square(ga),
                is_square(gb),
                within(ga, la),
                within(gb, lb),
                n * (la * lb) <= u128::MAX,
                i < n,
                j <= n,
                row@.len() == j,
                forall|q: int| 0 <= q < j ==> (#[trigger] row@[q]) as int == dot(ga, gb, i as int, q, n as nat),
            decreases n - j,
        {
            let mut acc: u128 = 0;
            let mut k: usize = 0;
            while k < n
                invariant
                    n == a@.len(),
                    n == b@.len(),
                    ga == wide_grid(a@),
                    gb == wide_grid(b@),
                    is_square(ga),
                    is_square(gb),
                    within(ga, la),
                    within(gb, lb),
                    n * (la * lb) <= u128::MAX,
                    i < n,
                    j < n,
                    k <= n,
                    acc as int == dot(ga, gb, i as int, j as int, k as nat),
                decreases n - k,
            {
                proof {
                    lemma_dot_bounds(ga, gb, i as int, j as int, (k + 1) as nat, la, lb);
                    lemma_dot_bounds(ga, gb, i as int, j as int, n as nat, la, lb);
                    assert(ga[i as int].len() == n);
                    assert(gb[k as int].len() == n);
                    assert(ga[i as int][k as int] == a@[i as int]@[k as int] as int);
                    assert(gb[k as int][j as int] == b@[k as int]@[j as int] as int);
                    assert((k + 1) * (la * lb) <= n * (la * lb)) by (nonlinear_arith)
                        requires
                            k + 1 <= n,
                            0 <= la * lb,
                    ;
                }
                acc = acc + a[i][k] * b[k][j];
                k += 1;
            }
            row.push(acc);
            j += 1;
        }
        c.push(row);
        i += 1;
    }
    assert(wide_grid(c@) =~~= product(ga, gb));
    c
}

/// The trace of the cube of a square table.
pub fn cube_trace(table: &Table) -> (t: u128)
    requires
        is_square(table_grid(table@)),
        table@.len() <= MAX_DIMENSION,
    ensures
        t as int == trace(cube(table_grid(table@))),
{
    let n = table.len();
    let ghost g = table_grid(table@);
    let ghost e = cell_limit();
    let wide = widen(table);
    assert(within(g, e));
    proof {
        lemma_product_bounds(g, g, e, e);
        lemma_product_bounds(g, product(g, g), e, n * (e * e));
        lemma_diagonal_sum_bounds(cube(g), n as nat, n * (e * (n * (e * e))));
        assert(n * (e * e) <= u128::MAX) by (nonlinear_arith)
            requires
                0 <= n <= 0x400_0000,
                e == 0xffff,
        ;
        assert(n * (e * (n * (e * e))) <= 0x4000_0000_0000_0000_0000_0000_0000) by (nonlinear_arith)
            requires
                0 <= n <= 0x400_0000,
                e == 0xffff,
        ;
        assert(n * (n * (e * (n * (e * e)))) <= u128::MAX) by (nonlinear_arith)
            requires
                0 <= n <= 0x400_0000,
                e == 0xffff,
        ;
    }
    let square = multiply(&wide, &wide, Ghost(e), Ghost(e));
    let third = multiply(&wide, &square, Ghost(e), Ghost(n * (e * e)));
    let ghost gc = cube(g);
    let mut t: u128 = 0;
    let mut i: usize = 0;
    while i < n
        invariant
            n == table@.len(),
            gc == wide_grid(third@),
            gc.len() == n,
            is_square(gc),
            within(gc, n * (e * (n * (e * e)))),
            n * (n * (e * (n * (e * e)))) <= u128::MAX,
            i <= n,
            t as int == diagonal_sum(gc, i as nat),
        decreases n - i,
    {
        proof {
            let limit = n * (e * (n * (e * e)));
            lemma_diagonal_sum_bounds(gc, (i + 1) as nat, limit);
            assert(gc[i as int].len() == n);
            assert(gc[i as int][i as int] == third@[i as int]@[i as int] as int);
            assert((i + 1) * limit <= n * limit) by (nonlinear_arith)
                requires
                    i + 1 <= n,
                    0 <= limit,
            ;
        }
        t = t + third[i][i];
        i += 1;
    }
    t
}

} // verus!
