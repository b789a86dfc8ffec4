//! Toroidal binary matrices: the shared contract and the grid model it is stated over.
use vstd::prelude::*;

verus! {

/// A (row, column) pair; any value is reduced modulo the grid's dimensions.
pub type MatrixIndex = (isize, isize);

/// Error returned when a matrix cannot be built from a table of cells.
#[derive(Debug, PartialEq, Eq, Structural)]
pub enum BitMatrixConstructError {
    /// Every row of the table must have the same number of columns.
    RaggedTable(),
    /// A matrix cannot have no cells.
    EmptyTable(),
    /// The cells cannot all be numbered by `isize`.
    TooLarge(),
}

/// Error returned when an element-wise operation is applied to matrices of different shapes.
#[derive(Debug, PartialEq, Eq, Structural)]
pub struct DimensionMismatch {}

/// A grid model: `g[r][c]` is the cell at row `r`, column `c`.
pub open spec fn is_grid(g: Seq<Seq<bool>>, rows: int, cols: int) -> bool {
    &&& g.len() == rows
    &&& forall|r: int| 0 <= r < rows ==> (#[trigger] g[r]).len() == cols
}

/// A grid with at least one cell, whose flat row-major indices fit in `isize`.
pub open spec fn valid_grid(g: Seq<Seq<bool>>) -> bool {
    &&& g.len() > 0
    &&& g[0].len() > 0
    &&& is_grid(g, g.len() as int, g[0].len() as int)
    &&& g.len() * g[0].len() <= isize::MAX
}

pub open spec fn grid_rows(g: Seq<Seq<bool>>) -> int {
    g.len() as int
}

pub open spec fn grid_cols(g: Seq<Seq<bool>>) -> int {
    g[0].len() as int
}

/// The cell at `(r, c)`, both reduced modulo the grid's dimensions.
pub open spec fn grid_at(g: Seq<Seq<bool>>, r: int, c: int) -> bool {
    g[r % grid_rows(g)][c % grid_cols(g)]
}

/// The grid with the cell at `(r, c)` (already reduced) replaced by `v`.
pub open spec fn grid_set(g: Seq<Seq<bool>>, r: int, c: int, v: bool) -> Seq<Seq<bool>> {
    g.update(r, g[r].update(c, v))
}

pub open spec fn swap_rows_spec(g: Seq<Seq<bool>>, a: int, b: int) -> Seq<Seq<bool>> {
    g.update(a, g[b]).update(b, g[a])
}

pub open spec fn swap_cols_spec(g: Seq<Seq<bool>>, a: int, b: int) -> Seq<Seq<bool>> {
    Seq::new(g.len(), |r: int| g[r].update(a, g[r][b]).update(b, g[r][a]))
}

/// Element-wise exclusive or of two grids of the same shape.
pub open spec fn xor_spec(g: Seq<Seq<bool>>, h: Seq<Seq<bool>>) -> Seq<Seq<bool>> {
    Seq::new(g.len(), |r: int| Seq::new(g[r].len(), |c: int| g[r][c] != h[r][c]))
}

/// The grid laid out row after row.
pub open spec fn flat_cells(g: Seq<Seq<bool>>, flat: Seq<bool>) -> bool {
    &&& flat.len() == grid_rows(g) * grid_cols(g)
    &&& forall|r: int, c: int|
        0 <= r < grid_rows(g) && 0 <= c < grid_cols(g) ==> flat[r * grid_cols(g) + c]
            == #[trigger] g[r][c]
}

pub proof fn lemma_flat_index(r: int, c: int, rows: int, cols: int)
    requires
        0 <= r < rows,
        0 <= c < cols,
    ensures
        0 <= r * cols + c < rows * cols,
        r * cols <= r * cols + c,
{
    assert(0 <= r * cols) by (nonlinear_arith)
        requires
            0 <= r,
            0 <= c < cols,
    ;
    assert(r * cols + c < rows * cols) by (nonlinear_arith)
        requires
            0 <= r < rows,
            0 <= c < cols,
    ;
}

pub proof fn lemma_flat_div_mod(r: int, c: int, cols: int)
    requires
        0 <= r,
        0 <= c < cols,
    ensures
        (r * cols + c) / cols == r,
        (r * cols + c) % cols == c,
{
    vstd::arithmetic::div_mod::lemma_fundamental_div_mod_converse(r * cols + c, cols, r, c);
}

/// The rows of a table of cells, as a grid model.
pub open spec fn table_view(t: Seq<Vec<bool>>) -> Seq<Seq<bool>> {
    Seq::new(t.len(), |r: int| t[r]@)
}

/// Which error, if any, building a matrix from `t` gives.
pub open spec fn table_error(t: Seq<Seq<bool>>) -> Option<BitMatrixConstructError> {
    if t.len() == 0 || t[0].len() == 0 {
        Some(BitMatrixConstructError::EmptyTable())
    } else if exists|r: int| 0 <= r < t.len() && (#[trigger] t[r]).len() != t[0].len() {
        Some(BitMatrixConstructError::RaggedTable())
    } else if t.len() * t[0].len() > isize::MAX {
        Some(BitMatrixConstructError::TooLarge())
    } else {
        None
    }
}

pub proof fn lemma_dims_fit(rows: int, cols: int)
    requires
        rows > 0,
        cols > 0,
        rows * cols <= isize::MAX,
    ensures
        rows <= isize::MAX,
        cols <= isize::MAX,
{
    assert(rows <= rows * cols && cols <= rows * cols) by (nonlinear_arith)
        requires
            rows > 0,
            cols > 0,
    ;
}

/// Reduces `i` modulo `n` into `[0, n)`.
pub fn wrap_index(i: isize, n: usize) -> (r: usize)
    requires
        0 < n <= isize::MAX,
    ensures
        r as int == (i as int) % (n as int),
        r < n,
{
    let ni = n as isize;
    if i >= 0 {
        let r = (i % ni) as usize;
        r
    } else {
        let j = -(i + 1);
        let a = j % ni;
        let r = (ni - 1 - a) as usize;
        proof {
            let q = (j / ni) as int;
            assert(j as int == q * n + a) by {
                vstd::arithmetic::div_mod::lemma_fundamental_div_mod(j as int, n as int);
            }
            assert(i as int == (-q - 1) * n + r) by (nonlinear_arith)
                requires
                    j as int == q * n + a,
                    i as int == -(j + 1),
                    r as int == n - 1 - a,
            ;
            vstd::arithmetic::div_mod::lemma_fundamental_div_mod_converse(
                i as int,
                n as int,
                -q - 1,
                r as int,
            );
        }
        r
    }
}

/// A fixed-size grid of bits with wraparound indexing on both axes.
pub trait ToroidalBinaryMatrix: Sized {
    /// The cells, row by row.
    spec fn cells(&self) -> Seq<Seq<bool>>;

    /// The storage is consistent with `cells`.
    spec fn wf(&self) -> bool;

    proof fn lemma_wf(&self)
        requires
            self.wf(),
        ensures
            valid_grid(self.cells()),
    ;

    fn rows(&self) -> (r: usize)
        requires
            self.wf(),
        ensures
            r == grid_rows(self.cells()),
    ;

    fn cols(&self) -> (r: usize)
        requires
            self.wf(),
        ensures
            r == grid_cols(self.cells()),
    ;

    /// Reads the cell at `idx`, each coordinate reduced modulo the dimensions.
    fn at(&self, idx: MatrixIndex) -> (r: bool)
        requires
            self.wf(),
        ensures
            r == grid_at(self.cells(), idx.0 as int, idx.1 as int),
    ;

    /// Writes `value` at `idx` (reduced as in `at`) and returns the previous value.
    fn set(&mut self, idx: MatrixIndex, value: bool) -> (prev: bool)
        requires
            old(self).wf(),
        ensures
            final(self).wf(),
            prev == grid_at(old(self).cells(), idx.0 as int, idx.1 as int),
            final(self).cells() == grid_set(
                old(self).cells(),
                idx.0 as int % grid_rows(old(self).cells()),
                idx.1 as int % grid_cols(old(self).cells()),
                value,
            ),
    ;

    /// Replaces each cell by its exclusive or with the matching cell of `other`.
    fn bitwise_xor(&mut self, other: &Self) -> (r: Result<(), DimensionMismatch>)
        requires
            old(self).wf(),
            other.wf(),
        ensures
            final(self).wf(),
            r is Ok <==> (grid_rows(old(self).cells()) == grid_rows(other.cells()) && grid_cols(
                old(self).cells(),
            ) == grid_cols(other.cells())),
            r is Ok ==> final(self).cells() == xor_spec(old(self).cells(), other.cells()),
            r is Err ==> final(self).cells() == old(self).cells(),
    ;

    /// The cells laid out row after row.
    fn raw_storage(&self) -> (r: Vec<bool>)
        requires
            self.wf(),
        ensures
            flat_cells(self.cells(), r@),
    ;
}

} // verus!

verus! {

/// Checks that `table` has at least one cell and that its rows have equal lengths.
pub fn check_table(table: &Vec<Vec<bool>>) -> (r: Result<(), BitMatrixConstructError>)
    ensures
        match table_error(table_view(table@)) {
            Some(e) => r == Err::<(), BitMatrixConstructError>(e),
            None => r is Ok,
        },
{
    let rows = table.len();
    if rows == 0 || table[0].len() == 0 {
        return Err(BitMatrixConstructError::EmptyTable());
    }
    let cols = table[0].len();
    let mut r: usize = 0;
    while r < rows
        invariant
            0 <= r <= rows,
            rows == table@.len(),
            cols == table@[0]@.len(),
            cols > 0,
            forall|i: int| 0 <= i < r ==> (#[trigger] table@[i]@).len() == cols,
        decreases rows - r,
    {
        if table[r].len() != cols {
            assert(table_view(table@)[r as int].len() != table_view(table@)[0].len());
            return Err(BitMatrixConstructError::RaggedTable());
        }
        r += 1;
    }
    assert forall|i: int| 0 <= i < table_view(table@).len() implies (
    #[trigger] table_view(table@)[i]).len() == table_view(table@)[0].len() by {
        assert(table@[i]@.len() == cols);
    }
    match rows.checked_mul(cols) {
        Some(n) => {
            if n > isize::MAX as usize {
                return Err(BitMatrixConstructError::TooLarge());
            }
        },
        None => {
            return Err(BitMatrixConstructError::TooLarge());
        },
    }
    Ok(())
}

/// The cells of a rectangular `table`, row after row.
pub fn flatten_table(table: &Vec<Vec<bool>>) -> (r: Vec<bool>)
    requires
        table_error(table_view(table@)) is None,
    ensures
        flat_cells(table_view(table@), r@),
{
    let rows = table.len();
    let cols = table[0].len();
    let ghost g = table_view(table@);
    assert(forall|i: int| 0 <= i < rows ==> (#[trigger] g[i]).len() == cols);
    assert(cols * rows <= isize::MAX) by (nonlinear_arith)
        requires
            rows * cols <= isize::MAX,
    ;
    let mut out: Vec<bool> = Vec::new();
    let mut r: usize = 0;
    while r < rows
        invariant
            0 <= r <= rows,
            rows == g.len(),
            cols == g[0].len(),
            cols * rows <= isize::MAX,
            cols > 0,
            g == table_view(table@),
            forall|i: int| 0 <= i < rows ==> (#[trigger] g[i]).len() == cols,
            out@.len() == r * cols,
            forall|k: int| 0 <= k < out@.len() ==> out@[k] == g[k / cols as int][k % cols as int],
        decreases rows - r,
    {
        let mut c: usize = 0;
        proof {
            lemma_flat_index(r as int, 0, rows as int, cols as int);
            assert((r as int) * cols + cols == (r as int + 1) * cols) by (nonlinear_arith);
            assert((r as int + 1) * cols <= rows * cols) by (nonlinear_arith)
                requires
                    r < rows,
            ;
        }
        while c < cols
            invariant
                0 <= r < rows,
                0 <= c <= cols,
                rows == g.len(),
                cols == g[0].len(),
                (r as int + 1) * cols <= rows * cols,
                (r as int) * cols + cols == (r as int + 1) * cols,
                cols * rows <= isize::MAX,
                cols > 0,
                g == table_view(table@),
                forall|i: int| 0 <= i < rows ==> (#[trigger] g[i]).len() == cols,
                out@.len() == r * cols + c,
                forall|k: int|
                    0 <= k < out@.len() ==> out@[k] == g[k / cols as int][k % cols as int],
            decreases cols - c,
        {
            proof {
                lemma_flat_div_mod(r as int, c as int, cols as int);
                assert(g[r as int].len() == cols);
            }
            out.push(table[r][c]);
            c += 1;
        }
        r += 1;
    }
    proof {
        assert(out@.len() == rows * cols);
        assert forall|i: int, j: int| 0 <= i < rows && 0 <= j < cols implies out@[i * cols + j]
            == #[trigger] g[i][j] by {
            lemma_flat_index(i, j, rows as int, cols as int);
            lemma_flat_div_mod(i, j, cols as int);
        }
    }
    out
}

} // verus!

verus! {

/// Exchanges rows `a` and `b`, each reduced modulo the number of rows.
pub fn swap_rows<T: ToroidalBinaryMatrix>(m: &mut T, a: isize, b: isize)
    requires
        old(m).wf(),
    ensures
        final(m).wf(),
        final(m).cells() == swap_rows_spec(
            old(m).cells(),
            a as int % grid_rows(old(m).cells()),
            b as int % grid_rows(old(m).cells()),
        ),
{
    let ghost g = m.cells();
    proof {
        m.lemma_wf();
        lemma_dims_fit(grid_rows(g), grid_cols(g));
    }
    let rows = m.rows();
    let cols = m.cols();
    let ra = wrap_index(a, rows) as isize;
    let rb = wrap_index(b, rows) as isize;
    let ghost s = swap_rows_spec(g, ra as int, rb as int);
    let mut c: usize = 0;
    while c < cols
        invariant
            0 <= c <= cols,
            m.wf(),
            valid_grid(g),
            rows == g.len(),
            cols == g[0].len(),
            cols <= isize::MAX,
            0 <= ra < rows,
            0 <= rb < rows,
            s == swap_rows_spec(g, ra as int, rb as int),
            is_grid(m.cells(), rows as int, cols as int),
            forall|r: int, j: int|
                0 <= r < rows && 0 <= j < cols ==> #[trigger] m.cells()[r][j] == if j < c {
                    s[r][j]
                } else {
                    g[r][j]
                },
        decreases cols - c,
    {
        let ci = c as isize;
        proof {
            vstd::arithmetic::div_mod::lemma_small_mod(ra as nat, rows as nat);
            vstd::arithmetic::div_mod::lemma_small_mod(rb as nat, rows as nat);
            vstd::arithmetic::div_mod::lemma_small_mod(c as nat, cols as nat);
        }
        let x = m.at((ra, ci));
        let y = m.at((rb, ci));
        m.set((ra, ci), y);
        m.set((rb, ci), x);
        proof {
            assert forall|r: int, j: int| 0 <= r < rows && 0 <= j < cols implies #[trigger] m.cells()[r][j]
                == if j < c + 1 {
                s[r][j]
            } else {
                g[r][j]
            } by {}
        }
        c += 1;
    }
    proof {
        assert forall|r: int| 0 <= r < rows implies #[trigger] m.cells()[r] =~= s[r] by {
            assert forall|j: int| 0 <= j < cols implies m.cells()[r][j] == s[r][j] by {
                assert(m.cells()[r][j] == s[r][j]);
            }
        }
        assert(m.cells() =~= s);
    }
}

/// Exchanges columns `a` and `b`, each reduced modulo the number of columns.
pub fn swap_cols<T: ToroidalBinaryMatrix>(m: &mut T, a: isize, b: isize)
    requires
        old(m).wf(),
    ensures
        final(m).wf(),
        final(m).cells() == swap_cols_spec(
            old(m).cells(),
            a as int % grid_cols(old(m).cells()),
            b as int % grid_cols(old(m).cells()),
        ),
{
    let ghost g = m.cells();
    proof {
        m.lemma_wf();
        lemma_dims_fit(grid_rows(g), grid_cols(g));
    }
    let rows = m.rows();
    let cols = m.cols();
    let ca = wrap_index(a, cols) as isize;
    let cb = wrap_index(b, cols) as isize;
    let ghost s = swap_cols_spec(g, ca as int, cb as int);
    let mut r: usize = 0;
    while r < rows
        invariant
            0 <= r <= rows,
            m.wf(),
            valid_grid(g),
            rows == g.len(),
            cols == g[0].len(),
            rows <= isize::MAX,
            0 <= ca < cols,
            0 <= cb < cols,
            s == swap_cols_spec(g, ca as int, cb as int),
            is_grid(m.cells(), rows as int, cols as int),
            forall|i: int, j: int|
                0 <= i < rows && 0 <= j < cols ==> #[trigger] m.cells()[i][j] == if i < r {
                    s[i][j]
                } else {
                    g[i][j]
                },
        decreases rows - r,
    {
        let ri = r as isize;
        proof {
            vstd::arithmetic::div_mod::lemma_small_mod(ca as nat, cols as nat);
            vstd::arithmetic::div_mod::lemma_small_mod(cb as nat, cols as nat);
            vstd::arithmetic::div_mod::lemma_small_mod(r as nat, rows as nat);
        }
        let x = m.at((ri, ca));
        let y = m.at((ri, cb));
        m.set((ri, ca), y);
        m.set((ri, cb), x);
        proof {
            assert forall|i: int, j: int| 0 <= i < rows && 0 <= j < cols implies #[trigger] m.cells()[i][j]
                == if i < r + 1 {
                s[i][j]
            } else {
                g[i][j]
            } by {}
        }
        r += 1;
    }
    proof {
        assert forall|i: int| 0 <= i < rows implies #[trigger] m.cells()[i] =~= s[i] by {
            assert forall|j: int| 0 <= j < cols implies m.cells()[i][j] == s[i][j] by {
                assert(m.cells()[i][j] == s[i][j]);
            }
        }
        assert(m.cells() =~= s);
    }
}

/// Reading row `-1`, column `-1` of a grid reads its last row and last column.
pub proof fn lemma_toroidal_wrap(g: Seq<Seq<bool>>)
    requires
        valid_grid(g),
    ensures
        grid_at(g, -1, -1) == grid_at(g, grid_rows(g) - 1, grid_cols(g) - 1),
{
    let n = grid_rows(g);
    let m = grid_cols(g);
    vstd::arithmetic::div_mod::lemma_fundamental_div_mod_converse(-1, n, -1, n - 1);
    vstd::arithmetic::div_mod::lemma_fundamental_div_mod_converse(-1, m, -1, m - 1);
    vstd::arithmetic::div_mod::lemma_small_mod((n - 1) as nat, n as nat);
    vstd::arithmetic::div_mod::lemma_small_mod((m - 1) as nat, m as nat);
}

} // verus!
