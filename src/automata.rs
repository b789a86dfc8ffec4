//! A two-dimensional binary cellular automaton on a toroidal grid.
use crate::bit_matrix::{packs, ToroidalBitMatrix};
use crate::encrypt::bit_value;
use crate::matrix::{
    flat_cells, grid_at, grid_cols, grid_rows, is_grid, lemma_dims_fit, table_error,
    table_view, valid_grid, wrap_index, BitMatrixConstructError, MatrixIndex,
    ToroidalBinaryMatrix,
};
use vstd::prelude::*;

verus! {

/// The glyph that renders a live cell.
pub const TRUE_CHAR: char = '#';

/// The glyph that renders a dead cell.
pub const FALSE_CHAR: char = '.';

/// How an `Automaton` changes from one generation to the next.
#[derive(Clone, Copy, Debug)]
pub struct AutomatonRule {
    /// `born[i]`: a dead cell with `i` live neighbours becomes alive.
    pub born: [bool; 9],
    /// `dies[i]`: a live cell with `i` live neighbours dies.
    pub dies: [bool; 9],
}

/// Number of live cells among the eight cells around `(r, c)`, on the torus.
pub open spec fn neighbor_count(g: Seq<Seq<bool>>, r: int, c: int) -> int {
    bit_value(grid_at(g, r - 1, c - 1)) + bit_value(grid_at(g, r - 1, c)) + bit_value(
        grid_at(g, r - 1, c + 1),
    ) + bit_value(grid_at(g, r, c - 1)) + bit_value(grid_at(g, r, c + 1)) + bit_value(
        grid_at(g, r + 1, c - 1),
    ) + bit_value(grid_at(g, r + 1, c)) + bit_value(grid_at(g, r + 1, c + 1))
}

/// The state of cell `(r, c)` after one generation under `rule`.
pub open spec fn next_cell(g: Seq<Seq<bool>>, rule: AutomatonRule, r: int, c: int) -> bool {
    if g[r][c] {
        !rule.dies@[neighbor_count(g, r, c)]
    } else {
        rule.born@[neighbor_count(g, r, c)]
    }
}

/// One synchronous generation: every cell is computed from the grid before the step.
pub open spec fn step_grid(g: Seq<Seq<bool>>, rule: AutomatonRule) -> Seq<Seq<bool>> {
    Seq::new(g.len(), |r: int| Seq::new(g[r].len(), |c: int| next_cell(g, rule, r, c)))
}

/// The grid after `n` generations.
pub open spec fn generations(g: Seq<Seq<bool>>, rule: AutomatonRule, n: nat) -> Seq<Seq<bool>>
    decreases n,
{
    if n == 0 {
        g
    } else {
        step_grid(generations(g, rule, (n - 1) as nat), rule)
    }
}

pub proof fn lemma_generations_shape(g: Seq<Seq<bool>>, rule: AutomatonRule, n: nat)
    requires
        valid_grid(g),
    ensures
        valid_grid(generations(g, rule, n)),
        grid_rows(generations(g, rule, n)) == grid_rows(g),
        grid_cols(generations(g, rule, n)) == grid_cols(g),
    decreases n,
{
    if n > 0 {
        lemma_generations_shape(g, rule, (n - 1) as nat);
    }
}

/// On a grid whose cells all hold `v`, every cell has eight live neighbours if `v` is true
/// and none otherwise.
pub proof fn lemma_uniform_neighbors(g: Seq<Seq<bool>>, v: bool, r: int, c: int)
    requires
        valid_grid(g),
        forall|i: int, j: int| 0 <= i < grid_rows(g) && 0 <= j < grid_cols(g) ==> #[trigger] g[i][j] == v,
    ensures
        neighbor_count(g, r, c) == if v {
            8int
        } else {
            0int
        },
{
    let n = grid_rows(g);
    let m = grid_cols(g);
    assert forall|x: int, y: int| #[trigger] grid_at(g, x, y) == v by {
        vstd::arithmetic::div_mod::lemma_mod_bound(x, n);
        vstd::arithmetic::div_mod::lemma_mod_bound(y, m);
    }
}

/// Rendering of a row: `#` for a live cell, `.` for a dead one.
pub open spec fn row_glyphs(row: Seq<bool>) -> Seq<char> {
    row.map_values(|b: bool| if b {
        TRUE_CHAR
    } else {
        FALSE_CHAR
    })
}

/// Rendering of a grid: each row's glyphs followed by a newline.
pub open spec fn render(g: Seq<Seq<bool>>) -> Seq<char>
    decreases g.len(),
{
    if g.len() == 0 {
        Seq::empty()
    } else {
        render(g.drop_last()) + row_glyphs(g.last()) + seq!['\n']
    }
}

/// Number of live cells of a row.
pub open spec fn count_row(row: Seq<bool>) -> int
    decreases row.len(),
{
    if row.len() == 0 {
        0
    } else {
        count_row(row.drop_last()) + bit_value(row.last())
    }
}

/// Number of live cells of a grid.
pub open spec fn count_cells(g: Seq<Seq<bool>>) -> int
    decreases g.len(),
{
    if g.len() == 0 {
        0
    } else {
        count_cells(g.drop_last()) + count_row(g.last())
    }
}

/// Relies on `String`'s `FromIterator<char>`: the string holds the characters in order.
#[verifier::external_body]
fn string_from_chars(chars: &Vec<char>) -> (r: String)
    ensures
        r@ == chars@,
{
    chars.iter().collect()
}

/// A binary cellular automaton: a rule and the current grid, whose edges wrap around.
#[derive(Debug)]
pub struct Automaton {
    rule: AutomatonRule,
    state: ToroidalBitMatrix,
}

fn cell_value(b: bool) -> (r: u32)
    ensures
        r == bit_value(b),
{
    if b {
        1
    } else {
        0
    }
}

impl Automaton {
    /// The current grid.
    pub closed spec fn grid(&self) -> Seq<Seq<bool>> {
        self.state.cells()
    }

    pub closed spec fn rule(&self) -> AutomatonRule {
        self.rule
    }

    pub closed spec fn wf(&self) -> bool {
        self.state.wf()
    }

    pub proof fn lemma_wf(&self)
        requires
            self.wf(),
        ensures
            valid_grid(self.grid()),
    {
        self.state.lemma_wf();
    }

    pub fn new(state: ToroidalBitMatrix, rule: AutomatonRule) -> (r: Self)
        requires
            state.wf(),
        ensures
            r.wf(),
            r.grid() == state.cells(),
            r.rule() == rule,
    {
        Automaton { state, rule }
    }

    /// Builds an automaton whose grid is `table`.
    pub fn from_table(table: Vec<Vec<bool>>, rule: AutomatonRule) -> (r: Result<
        Self,
        BitMatrixConstructError,
    >)
        ensures
            match table_error(table_view(table@)) {
                Some(e) => r == Err::<Self, _>(e),
                None => (r matches Ok(a) && a.wf() && a.grid() == table_view(table@) && a.rule()
                    == rule),
            },
    {
        let state = ToroidalBitMatrix::new(table)?;
        Ok(Automaton { state, rule })
    }

    /// The current grid, as a matrix.
    pub fn get_state(&self) -> (r: &ToroidalBitMatrix)
        requires
            self.wf(),
        ensures
            r.wf(),
            r.cells() == self.grid(),
    {
        &self.state
    }

    /// Number of live cells among the eight around `idx` (reduced modulo the dimensions).
    pub fn alive_neighbors(&self, idx: MatrixIndex) -> (r: u32)
        requires
            self.wf(),
        ensures
            r == neighbor_count(
                self.grid(),
                idx.0 as int % grid_rows(self.grid()),
                idx.1 as int % grid_cols(self.grid()),
            ),
            r <= 8,
    {
        proof {
            self.state.lemma_wf();
            lemma_dims_fit(grid_rows(self.grid()), grid_cols(self.grid()));
        }
        let rows = self.state.rows();
        let cols = self.state.cols();
        let r = wrap_index(idx.0, rows) as isize;
        let c = wrap_index(idx.1, cols) as isize;
        let s = &self.state;
        cell_value(s.get((r - 1, c - 1))) + cell_value(s.get((r - 1, c))) + cell_value(
            s.get((r - 1, c + 1)),
        ) + cell_value(s.get((r, c - 1))) + cell_value(s.get((r, c + 1))) + cell_value(
            s.get((r + 1, c - 1)),
        ) + cell_value(s.get((r + 1, c))) + cell_value(s.get((r + 1, c + 1)))
    }

    /// Advances the automaton by `iterations` generations of its rule. Each generation is
    /// written into a second buffer from the grid before it, then the buffers are exchanged.
    pub fn iter_rule(&mut self, iterations: u32)
        requires
            old(self).wf(),
        ensures
            final(self).wf(),
            final(self).rule() == old(self).rule(),
            final(self).grid() == generations(old(self).grid(), old(self).rule(), iterations as nat),
    {
        let ghost g0 = self.state.cells();
        proof {
            self.state.lemma_wf();
            lemma_dims_fit(grid_rows(g0), grid_cols(g0));
        }
        let rows = self.state.rows();
        let cols = self.state.cols();
        let mut copy = self.state.duplicate();
        let mut generation: u32 = 0;
        while generation < iterations
            invariant
                0 <= generation <= iterations,
                self.state.wf(),
                copy.wf(),
                valid_grid(g0),
                rows == grid_rows(g0),
                cols == grid_cols(g0),
                rows <= isize::MAX,
                cols <= isize::MAX,
                self.rule == old(self).rule,
                g0 == old(self).state.cells(),
                is_grid(copy.cells(), rows as int, cols as int),
                self.state.cells() == generations(g0, self.rule, generation as nat),
            decreases iterations - generation,
        {
            let ghost cur = self.state.cells();
            proof {
                lemma_generations_shape(g0, self.rule, generation as nat);
            }
            let mut row: usize = 0;
            while row < rows
                invariant
                    0 <= row <= rows,
                    self.state.wf(),
                    copy.wf(),
                    valid_grid(cur),
                    rows == grid_rows(cur),
                    cols == grid_cols(cur),
                    rows <= isize::MAX,
                    cols <= isize::MAX,
                    self.state.cells() == cur,
                    is_grid(copy.cells(), rows as int, cols as int),
                    forall|i: int, j: int|
                        0 <= i < row && 0 <= j < cols ==> #[trigger] copy.cells()[i][j]
                            == next_cell(cur, self.rule, i, j),
                decreases rows - row,
            {
                let mut col: usize = 0;
                while col < cols
                    invariant
                        0 <= row < rows,
                        0 <= col <= cols,
                        self.state.wf(),
                        copy.wf(),
                        valid_grid(cur),
                        rows == grid_rows(cur),
                        cols == grid_cols(cur),
                        rows <= isize::MAX,
                        cols <= isize::MAX,
                        self.state.cells() == cur,
                        is_grid(copy.cells(), rows as int, cols as int),
                        forall|i: int, j: int|
                            0 <= i < rows && 0 <= j < cols && (i < row || (i == row && j < col))
                                ==> #[trigger] copy.cells()[i][j] == next_cell(
                                cur,
                                self.rule,
                                i,
                                j,
                            ),
                    decreases cols - col,
                {
                    let idx = (row as isize, col as isize);
                    proof {
                        vstd::arithmetic::div_mod::lemma_small_mod(row as nat, rows as nat);
                        vstd::arithmetic::div_mod::lemma_small_mod(col as nat, cols as nat);
                    }
                    let n = self.alive_neighbors(idx);
                    let next = if self.state.get(idx) {
                        !self.rule.dies[n as usize]
                    } else {
                        self.rule.born[n as usize]
                    };
                    copy.set(idx, next);
                    col += 1;
                }
                row += 1;
            }
            proof {
                let nxt = step_grid(cur, self.rule);
                assert forall|i: int| 0 <= i < rows implies #[trigger] copy.cells()[i] =~= nxt[i] by {
                    assert forall|j: int| 0 <= j < cols implies copy.cells()[i][j] == nxt[i][j] by {
                        assert(copy.cells()[i][j] == next_cell(cur, self.rule, i, j));
                    }
                }
                assert(copy.cells() =~= nxt);
            }
            std::mem::swap(&mut copy, &mut self.state);
            generation += 1;
        }
    }

    /// Number of rows and of columns of the grid.
    pub fn dimensions(&self) -> (r: (usize, usize))
        requires
            self.wf(),
        ensures
            r.0 == grid_rows(self.grid()),
            r.1 == grid_cols(self.grid()),
    {
        (self.state.rows(), self.state.cols())
    }

    /// Number of live cells.
    pub fn popcount(&self) -> (r: u32)
        requires
            self.wf(),
            grid_rows(self.grid()) * grid_cols(self.grid()) <= u32::MAX,
        ensures
            r == count_cells(self.grid()),
    {
        let ghost g = self.grid();
        proof {
            self.state.lemma_wf();
            lemma_dims_fit(grid_rows(g), grid_cols(g));
        }
        let rows = self.state.rows();
        let cols = self.state.cols();
        let mut count: u32 = 0;
        let mut r: usize = 0;
        while r < rows
            invariant
                0 <= r <= rows,
                self.wf(),
                g == self.grid(),
                valid_grid(g),
                rows == grid_rows(g),
                cols == grid_cols(g),
                rows <= isize::MAX,
                cols <= isize::MAX,
                rows * cols <= u32::MAX,
                count <= r * cols,
                count == count_cells(g.take(r as int)),
            decreases rows - r,
        {
            let ghost base = count as int;
            let mut c: usize = 0;
            proof {
                assert((r as int + 1) * cols <= rows * cols) by (nonlinear_arith)
                    requires
                        r < rows,
                ;
                assert((r as int + 1) * cols == r * cols + cols) by (nonlinear_arith);
            }
            while c < cols
                invariant
                    0 <= r < rows,
                    0 <= c <= cols,
                    self.wf(),
                    g == self.grid(),
                    valid_grid(g),
                    rows == grid_rows(g),
                    cols == grid_cols(g),
                    rows <= isize::MAX,
                    cols <= isize::MAX,
                    r * cols + cols <= u32::MAX,
                    count <= r * cols + c,
                    base == count_cells(g.take(r as int)),
                    count == base + count_row(g[r as int].take(c as int)),
                decreases cols - c,
            {
                proof {
                    vstd::arithmetic::div_mod::lemma_small_mod(r as nat, rows as nat);
                    vstd::arithmetic::div_mod::lemma_small_mod(c as nat, cols as nat);
                    assert(g[r as int].take(c + 1).drop_last() =~= g[r as int].take(c as int));
                }
                if self.state.get((r as isize, c as isize)) {
                    count += 1;
                }
                c += 1;
            }
            proof {
                assert(g[r as int].len() == cols);
                assert(g[r as int].take(cols as int) =~= g[r as int]);
                assert(g.take(r + 1).drop_last() =~= g.take(r as int));
            }
            r += 1;
        }
        proof {
            assert(g.take(rows as int) =~= g);
        }
        count
    }

    /// The packed words of the grid: bit `k % 32` of word `k / 32` is the `k`-th cell in
    /// row-major order, and the bits after the last cell are zero.
    pub fn get_storage(&self) -> (r: Vec<u32>)
        requires
            self.wf(),
        ensures
            exists|flat: Seq<bool>| flat_cells(self.grid(), flat) && packs(r@, flat),
    {
        self.state.get_storage()
    }

    /// The grid as text: one line per row, `#` for a live cell and `.` for a dead one, each
    /// line ended by a newline.
    pub fn to_string(&self) -> (r: String)
        requires
            self.wf(),
        ensures
            r@ == render(self.grid()),
    {
        let ghost g = self.grid();
        proof {
            self.state.lemma_wf();
            lemma_dims_fit(grid_rows(g), grid_cols(g));
        }
        let rows = self.state.rows();
        let cols = self.state.cols();
        let mut out: Vec<char> = Vec::new();
        let mut r: usize = 0;
        while r < rows
            invariant
                0 <= r <= rows,
                self.wf(),
                g == self.grid(),
                valid_grid(g),
                rows == grid_rows(g),
                cols == grid_cols(g),
                rows <= isize::MAX,
                cols <= isize::MAX,
                out@ == render(g.take(r as int)),
            decreases rows - r,
        {
            let ghost before = out@;
            let mut c: usize = 0;
            while c < cols
                invariant
                    0 <= r < rows,
                    0 <= c <= cols,
                    self.wf(),
                    g == self.grid(),
                    valid_grid(g),
                    rows == grid_rows(g),
                    cols == grid_cols(g),
                    rows <= isize::MAX,
                    cols <= isize::MAX,
                    out@ == before + row_glyphs(g[r as int]).take(c as int),
                decreases cols - c,
            {
                proof {
                    vstd::arithmetic::div_mod::lemma_small_mod(r as nat, rows as nat);
                    vstd::arithmetic::div_mod::lemma_small_mod(c as nat, cols as nat);
                }
                let glyph = if self.state.get((r as isize, c as isize)) {
                    TRUE_CHAR
                } else {
                    FALSE_CHAR
                };
                out.push(glyph);
                c += 1;
                assert(out@ =~= before + row_glyphs(g[r as int]).take(c as int));
            }
            out.push('\n');
            proof {
                assert(g[r as int].len() == cols);
                assert(row_glyphs(g[r as int]).take(cols as int) =~= row_glyphs(g[r as int]));
                assert(g.take(r + 1).drop_last() =~= g.take(r as int));
                assert(out@ =~= render(g.take(r + 1)));
            }
            r += 1;
        }
        proof {
            assert(g.take(rows as int) =~= g);
        }
        string_from_chars(&out)
    }
}

} // verus!
