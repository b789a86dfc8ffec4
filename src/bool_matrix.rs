//! A toroidal matrix that stores one `bool` per cell.
use crate::matrix::{
    check_table, flat_cells, flatten_table, grid_cols, grid_rows, grid_set, lemma_flat_div_mod,
    lemma_dims_fit, lemma_flat_index, table_error, table_view, wrap_index, xor_spec,
    BitMatrixConstructError, DimensionMismatch, MatrixIndex, ToroidalBinaryMatrix,
};
use vstd::prelude::*;

verus! {

/// A toroidal matrix backed by a row-major vector of `bool`.
#[derive(Debug)]
pub struct ToroidalBoolMatrix {
    rows: usize,
    cols: usize,
    storage: Vec<bool>,
}

impl ToroidalBoolMatrix {
    /// Builds a matrix of `rows` rows and `cols` columns from its cells laid out row after row.
    pub fn from_storage(rows: usize, cols: usize, storage: Vec<bool>) -> (r: Result<
        Self,
        BitMatrixConstructError,
    >)
        ensures
            rows == 0 || cols == 0 ==> r == Err::<Self, _>(BitMatrixConstructError::EmptyTable()),
            rows > 0 && cols > 0 && storage@.len() != rows * cols ==> r == Err::<Self, _>(
                BitMatrixConstructError::RaggedTable(),
            ),
            rows > 0 && cols > 0 && storage@.len() == rows * cols && rows * cols > isize::MAX
                ==> r == Err::<Self, _>(BitMatrixConstructError::RaggedTable()),
            rows > 0 && cols > 0 && storage@.len() == rows * cols && rows * cols <= isize::MAX
                ==> (r matches Ok(m) && m.wf() && grid_rows(m.cells()) == rows && grid_cols(
                m.cells(),
            ) == cols && flat_cells(m.cells(), storage@)),
    {
        if rows == 0 || cols == 0 {
            return Err(BitMatrixConstructError::EmptyTable());
        }
        if storage.len() / cols != rows || storage.len() % cols != 0 || storage.len()
            > isize::MAX as usize {
            proof {
                if storage@.len() == rows * cols {
                    lemma_flat_div_mod(rows as int, 0, cols as int);
                }
            }
            return Err(BitMatrixConstructError::RaggedTable());
        }
        proof {
            let n = storage@.len() as int;
            let c = cols as int;
            vstd::arithmetic::div_mod::lemma_fundamental_div_mod(n, c);
            assert(n == rows * cols) by (nonlinear_arith)
                requires
                    n == c * (n / c) + n % c,
                    n / c == rows,
                    n % c == 0,
                    c == cols,
            ;
        }
        let m = ToroidalBoolMatrix { rows, cols, storage };
        proof {
            m.lemma_cells_flat();
        }
        Ok(m)
    }

    /// Builds a matrix from a table of rows.
    pub fn new(table: Vec<Vec<bool>>) -> (r: Result<Self, BitMatrixConstructError>)
        ensures
            match table_error(table_view(table@)) {
                Some(e) => r == Err::<Self, _>(e),
                None => (r matches Ok(m) && m.wf() && m.cells() == table_view(table@)),
            },
    {
        check_table(&table)?;
        let rows = table.len();
        let cols = table[0].len();
        let storage = flatten_table(&table);
        let ghost g = table_view(table@);
        let m = ToroidalBoolMatrix { rows, cols, storage };
        proof {
            assert forall|i: int| 0 <= i < rows implies #[trigger] m.cells()[i] =~= g[i] by {
                assert forall|j: int| 0 <= j < cols implies m.cells()[i][j] == g[i][j] by {
                    assert(g[i].len() == cols);
                }
            }
            assert(m.cells() =~= g);
        }
        Ok(m)
    }

    proof fn lemma_cells_flat(&self)
        requires
            self.wf(),
        ensures
            flat_cells(self.cells(), self.storage@),
    {
        assert forall|r: int, c: int|
            0 <= r < self.rows && 0 <= c < self.cols implies self.storage@[r * self.cols + c]
            == #[trigger] self.cells()[r][c] by {
            lemma_flat_index(r, c, self.rows as int, self.cols as int);
        }
    }

    /// Index of the cell `(r, c)` in the storage.
    fn flat_index(&self, idx: MatrixIndex) -> (k: usize)
        requires
            self.wf(),
        ensures
            k == (idx.0 as int % self.rows as int) * self.cols + (idx.1 as int % self.cols as int),
            k < self.storage@.len(),
    {
        proof {
            lemma_dims_fit(self.rows as int, self.cols as int);
        }
        let r = wrap_index(idx.0, self.rows);
        let c = wrap_index(idx.1, self.cols);
        proof {
            lemma_flat_index(r as int, c as int, self.rows as int, self.cols as int);
        }
        r * self.cols + c
    }
}

impl ToroidalBinaryMatrix for ToroidalBoolMatrix {
    closed spec fn cells(&self) -> Seq<Seq<bool>> {
        Seq::new(
            self.rows as nat,
            |r: int| Seq::new(self.cols as nat, |c: int| self.storage@[r * self.cols + c]),
        )
    }

    closed spec fn wf(&self) -> bool {
        &&& self.rows > 0
        &&& self.cols > 0
        &&& self.rows * self.cols <= isize::MAX
        &&& self.storage@.len() == self.rows * self.cols
    }

    proof fn lemma_wf(&self) {
    }

    fn rows(&self) -> (r: usize) {
        self.rows
    }

    fn cols(&self) -> (r: usize) {
        self.cols
    }

    fn at(&self, idx: MatrixIndex) -> (r: bool) {
        let k = self.flat_index(idx);
        self.storage[k]
    }

    fn set(&mut self, idx: MatrixIndex, value: bool) -> (prev: bool) {
        let k = self.flat_index(idx);
        let prev = self.storage[k];
        let ghost g = self.cells();
        let ghost wr = idx.0 as int % self.rows as int;
        let ghost wc = idx.1 as int % self.cols as int;
        self.storage.set(k, value);
        proof {
            assert forall|r: int| 0 <= r < self.rows implies #[trigger] self.cells()[r]
                =~= grid_set(g, wr, wc, value)[r] by {
                assert forall|c: int| 0 <= c < self.cols implies self.cells()[r][c] == grid_set(
                    g,
                    wr,
                    wc,
                    value,
                )[r][c] by {
                    lemma_flat_index(r, c, self.rows as int, self.cols as int);
                    lemma_flat_div_mod(r, c, self.cols as int);
                    lemma_flat_div_mod(wr, wc, self.cols as int);
                }
            }
            assert(self.cells() =~= grid_set(g, wr, wc, value));
        }
        prev
    }

    fn bitwise_xor(&mut self, other: &Self) -> (r: Result<(), DimensionMismatch>) {
        if self.rows != other.rows || self.cols != other.cols {
            return Err(DimensionMismatch {  });
        }
        let ghost old_storage = self.storage@;
        let n = self.storage.len();
        let mut k: usize = 0;
        while k < n
            invariant
                0 <= k <= n,
                n == self.storage@.len(),
                n == old_storage.len(),
                n == other.storage@.len(),
                self.rows == other.rows,
                self.cols == other.cols,
                other.wf(),
                forall|i: int| 0 <= i < k ==> self.storage@[i] == (old_storage[i] != other.storage@[i]),
                forall|i: int| k <= i < n ==> self.storage@[i] == old_storage[i],
            decreases n - k,
        {
            let v = self.storage[k] != other.storage[k];
            self.storage.set(k, v);
            k += 1;
        }
        proof {
            let g = Seq::new(
                self.rows as nat,
                |r: int| Seq::new(self.cols as nat, |c: int| old_storage[r * self.cols + c]),
            );
            assert forall|r: int| 0 <= r < self.rows implies #[trigger] self.cells()[r]
                =~= xor_spec(g, other.cells())[r] by {
                assert forall|c: int| 0 <= c < self.cols implies self.cells()[r][c] == xor_spec(
                    g,
                    other.cells(),
                )[r][c] by {
                    lemma_flat_index(r, c, self.rows as int, self.cols as int);
                }
            }
            assert(self.cells() =~= xor_spec(g, other.cells()));
        }
        Ok(())
    }

    fn raw_storage(&self) -> (r: Vec<bool>) {
        proof {
            self.lemma_cells_flat();
        }
        self.storage.clone()
    }
}

} // verus!
