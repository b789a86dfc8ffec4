//! A toroidal matrix that packs its cells into 32-bit words.
use crate::matrix::{
    check_table, flat_cells, flatten_table, grid_at, grid_cols, grid_rows, grid_set,
    lemma_dims_fit, lemma_flat_div_mod, lemma_flat_index, table_error, table_view,
    wrap_index, xor_spec, BitMatrixConstructError, DimensionMismatch, MatrixIndex,
    ToroidalBinaryMatrix,
};
use vstd::prelude::*;

verus! {

/// Bit `k` of a sequence of words: bit `k % 32` of word `k / 32`, least significant first.
pub open spec fn word_bit(words: Seq<u32>, k: int) -> bool {
    (words[k / 32] >> ((k % 32) as u32)) & 1u32 == 1u32
}

/// `words` holds exactly the bits of `flat`, and zeros after them.
pub open spec fn packs(words: Seq<u32>, flat: Seq<bool>) -> bool {
    &&& words.len() == (flat.len() + 31) / 32
    &&& forall|k: int| 0 <= k < 32 * words.len() ==> #[trigger] word_bit(words, k) == (k
        < flat.len() && flat[k])
}

proof fn lemma_words_cover(n: int)
    requires
        n >= 0,
    ensures
        n <= 32 * ((n + 31) / 32),
{
    vstd::arithmetic::div_mod::lemma_fundamental_div_mod(n + 31, 32);
}

proof fn lemma_bit_write(x: u32, o: u32, o2: u32, v: bool)
    requires
        o < 32,
        o2 < 32,
    ensures
        ((if v {
            x | (1u32 << o)
        } else {
            x & !(1u32 << o)
        }) >> o2) & 1u32 == 1u32 <==> (if o2 == o {
            v
        } else {
            (x >> o2) & 1u32 == 1u32
        }),
{
    if v {
        assert(((x | (1u32 << o)) >> o2) & 1u32 == 1u32 <==> (if o2 == o {
            true
        } else {
            (x >> o2) & 1u32 == 1u32
        })) by (bit_vector)
            requires
                o < 32,
                o2 < 32,
        ;
    } else {
        assert(((x & !(1u32 << o)) >> o2) & 1u32 == 1u32 <==> (if o2 == o {
            false
        } else {
            (x >> o2) & 1u32 == 1u32
        })) by (bit_vector)
            requires
                o < 32,
                o2 < 32,
        ;
    }
}

proof fn lemma_bit_xor(a: u32, b: u32, o: u32)
    requires
        o < 32,
    ensures
        ((a ^ b) >> o) & 1u32 == 1u32 <==> (((a >> o) & 1u32 == 1u32) != ((b >> o) & 1u32
            == 1u32)),
{
    assert(((a ^ b) >> o) & 1u32 == 1u32 <==> (((a >> o) & 1u32 == 1u32) != ((b >> o) & 1u32
        == 1u32))) by (bit_vector)
        requires
            o < 32,
    ;
}

proof fn lemma_bit_zero(o: u32)
    requires
        o < 32,
    ensures
        !((0u32 >> o) & 1u32 == 1u32),
{
    assert(!((0u32 >> o) & 1u32 == 1u32)) by (bit_vector)
        requires
            o < 32,
    ;
}

/// Sets bit `k` of `words` to `v`, leaving every other bit as it was.
fn write_bit(words: &mut Vec<u32>, k: usize, v: bool)
    requires
        k < 32 * old(words)@.len(),
    ensures
        final(words)@.len() == old(words)@.len(),
        forall|j: int|
            0 <= j < 32 * old(words)@.len() ==> #[trigger] word_bit(final(words)@, j) == if j
                == k {
                v
            } else {
                word_bit(old(words)@, j)
            },
{
    let w = k / 32;
    let o = (k % 32) as u32;
    let x = words[w];
    let y = if v {
        x | (1u32 << o)
    } else {
        x & !(1u32 << o)
    };
    words.set(w, y);
    proof {
        assert forall|j: int| 0 <= j < 32 * old(words)@.len() implies #[trigger] word_bit(
            words@,
            j,
        ) == if j == k {
            v
        } else {
            word_bit(old(words)@, j)
        } by {
            if j / 32 == w as int {
                lemma_bit_write(x, o, (j % 32) as u32, v);
                if j != k {
                    assert(j % 32 != k as int % 32);
                }
            }
        }
    }
}

/// A toroidal matrix whose cells are packed 32 to a word, row after row.
#[derive(Debug)]
pub struct ToroidalBitMatrix {
    rows: usize,
    cols: usize,
    storage: Vec<u32>,
}

impl ToroidalBitMatrix {
    /// Builds a matrix from a table of rows.
    pub fn new(table: Vec<Vec<bool>>) -> (r: Result<Self, BitMatrixConstructError>)
        ensures
            match table_error(table_view(table@)) {
                Some(e) => r == Err::<Self, _>(e),
                None => (r matches Ok(m) && m.wf() && m.cells() == table_view(table@)),
            },
    {
        check_table(&table)?;
        let rows = table.len();
        let cols = table[0].len();
        let flat = flatten_table(&table);
        let ghost g = table_view(table@);
        let n = flat.len();
        let n_words = n / 32 + if n % 32 == 0 {
            0
        } else {
            1
        };
        let mut storage: Vec<u32> = Vec::new();
        proof {
            lemma_words_cover(n as int);
        }
        while storage.len() < n_words
            invariant
                n_words == (n + 31) / 32,
                storage@.len() <= n_words,
                forall|k: int| 0 <= k < 32 * storage@.len() ==> !#[trigger] word_bit(storage@, k),
            decreases n_words - storage@.len(),
        {
            let ghost before = storage@;
            storage.push(0u32);
            proof {
                assert forall|k: int| 0 <= k < 32 * storage@.len() implies !#[trigger] word_bit(
                    storage@,
                    k,
                ) by {
                    if k / 32 == storage@.len() - 1 {
                        lemma_bit_zero((k % 32) as u32);
                    } else {
                        assert(storage@[k / 32] == before[k / 32]);
                        assert(k < 32 * before.len());
                        assert(!word_bit(before, k));
                    }
                }
            }
        }
        let mut k: usize = 0;
        while k < n
            invariant
                0 <= k <= n,
                n == flat@.len(),
                storage@.len() == (n + 31) / 32,
                forall|j: int| 0 <= j < 32 * storage@.len() ==> #[trigger] word_bit(storage@, j) == (
                j < k && flat@[j]),
            decreases n - k,
        {
            if flat[k] {
                write_bit(&mut storage, k, true);
            }
            k += 1;
        }
        let m = ToroidalBitMatrix { rows, cols, storage };
        proof {
            assert forall|i: int| 0 <= i < rows implies #[trigger] m.cells()[i] =~= g[i] by {
                assert forall|j: int| 0 <= j < cols implies m.cells()[i][j] == g[i][j] by {
                    lemma_flat_index(i, j, rows as int, cols as int);
                    assert(word_bit(m.storage@, i * cols + j) == flat@[i * cols + j]);
                }
            }
            assert(m.cells() =~= g);
        }
        Ok(m)
    }

    /// A matrix with the same cells.
    pub fn duplicate(&self) -> (r: Self)
        requires
            self.wf(),
        ensures
            r.wf(),
            r.cells() == self.cells(),
    {
        let storage = self.storage.clone();
        let r = ToroidalBitMatrix { rows: self.rows, cols: self.cols, storage };
        assert(r.storage@ == self.storage@);
        r
    }

    /// Index of the cell `idx` (reduced modulo the dimensions) among all cells.
    fn flat_index(&self, idx: MatrixIndex) -> (k: usize)
        requires
            self.wf(),
        ensures
            k == (idx.0 as int % self.rows as int) * self.cols + (idx.1 as int % self.cols as int),
            k < self.rows * self.cols,
    {
        proof {
            lemma_dims_fit(self.rows as int, self.cols as int);
        }
        let r = wrap_index(idx.0, self.rows);
        let c = wrap_index(idx.1, self.cols);
        proof {
            lemma_flat_index(r as int, c as int, self.rows as int, self.cols as int);
        }
        r * self.cols + c
    }

    /// Reads the cell at `idx`, each coordinate reduced modulo the dimensions.
    pub fn get(&self, idx: MatrixIndex) -> (r: bool)
        requires
            self.wf(),
        ensures
            r == grid_at(self.cells(), idx.0 as int, idx.1 as int),
    {
        let k = self.flat_index(idx);
        (self.storage[k / 32] >> ((k % 32) as u32)) & 1 == 1
    }

    /// Writes `value` at `idx` (reduced as in `get`) and returns the previous value.
    pub fn set(&mut self, idx: MatrixIndex, value: bool) -> (prev: bool)
        requires
            old(self).wf(),
        ensures
            final(self).wf(),
            prev == grid_at(old(self).cells(), idx.0 as int, idx.1 as int),
            final(self).cells() == grid_set(
                old(self).cells(),
                idx.0 as int % grid_rows(old(self).cells()),
                idx.1 as int % grid_cols(old(self).cells()),
                value,
            ),
    {
        let prev = self.get(idx);
        let k = self.flat_index(idx);
        let ghost g = self.cells();
        let ghost wr = idx.0 as int % self.rows as int;
        let ghost wc = idx.1 as int % self.cols as int;
        write_bit(&mut self.storage, k, value);
        proof {
            assert forall|r: int| 0 <= r < self.rows implies #[trigger] self.cells()[r]
                =~= grid_set(g, wr, wc, value)[r] by {
                assert forall|c: int| 0 <= c < self.cols implies self.cells()[r][c] == grid_set(
                    g,
                    wr,
                    wc,
                    value,
                )[r][c] by {
                    lemma_flat_index(r, c, self.rows as int, self.cols as int);
                    lemma_flat_div_mod(r, c, self.cols as int);
                    lemma_flat_div_mod(wr, wc, self.cols as int);
                    lemma_words_cover(self.rows * self.cols);
                    let p = r * self.cols + c;
                    assert(word_bit(self.storage@, p) == if p == k {
                        value
                    } else {
                        word_bit(old(self).storage@, p)
                    });
                }
            }
            assert(self.cells() =~= grid_set(g, wr, wc, value));
        }
        prev
    }

    /// Replaces each cell by its exclusive or with the matching cell of `other`.
    pub fn bitwise_xor(&mut self, other: &Self) -> (r: Result<(), DimensionMismatch>)
        requires
            old(self).wf(),
            other.wf(),
        ensures
            final(self).wf(),
            r is Ok <==> (grid_rows(old(self).cells()) == grid_rows(other.cells()) && grid_cols(
                old(self).cells(),
            ) == grid_cols(other.cells())),
            r is Ok ==> final(self).cells() == xor_spec(old(self).cells(), other.cells()),
            r is Err ==> final(self).cells() == old(self).cells(),
    {
        if self.rows != other.rows || self.cols != other.cols {
            return Err(DimensionMismatch {  });
        }
        let ghost old_words = self.storage@;
        let ghost g = self.cells();
        let n = self.storage.len();
        let mut i: usize = 0;
        while i < n
            invariant
                0 <= i <= n,
                n == self.storage@.len(),
                n == old_words.len(),
                n == other.storage@.len(),
                self.rows == other.rows,
                self.cols == other.cols,
                g == old(self).cells(),
                old_words == old(self).storage@,
                forall|j: int| 0 <= j < i ==> self.storage@[j] == old_words[j] ^ other.storage@[j],
                forall|j: int| i <= j < n ==> self.storage@[j] == old_words[j],
            decreases n - i,
        {
            let x = self.storage[i] ^ other.storage[i];
            self.storage.set(i, x);
            i += 1;
        }
        proof {
            assert forall|k: int| 0 <= k < 32 * n implies #[trigger] word_bit(self.storage@, k)
                == (word_bit(old_words, k) != word_bit(other.storage@, k)) by {
                lemma_bit_xor(old_words[k / 32], other.storage@[k / 32], (k % 32) as u32);
            }
            assert forall|r: int| 0 <= r < self.rows implies #[trigger] self.cells()[r]
                =~= xor_spec(g, other.cells())[r] by {
                assert forall|c: int| 0 <= c < self.cols implies self.cells()[r][c] == xor_spec(
                    g,
                    other.cells(),
                )[r][c] by {
                    lemma_flat_index(r, c, self.rows as int, self.cols as int);
                    lemma_words_cover(self.rows * self.cols);
                    let p = r * self.cols + c;
                    assert(word_bit(self.storage@, p) == (word_bit(old_words, p) != word_bit(
                        other.storage@,
                        p,
                    )));
                    assert(g[r][c] == word_bit(old_words, p));
                }
            }
            assert(self.cells() =~= xor_spec(g, other.cells()));
        }
        Ok(())
    }

    /// The packed words: bit `k % 32` of word `k / 32` is the `k`-th cell in row-major order,
    /// and the bits after the last cell are zero.
    pub fn get_storage(&self) -> (r: Vec<u32>)
        requires
            self.wf(),
        ensures
            exists|flat: Seq<bool>| flat_cells(self.cells(), flat) && packs(r@, flat),
    {
        proof {
            self.lemma_packs();
        }
        self.storage.clone()
    }

    spec fn flat(&self) -> Seq<bool> {
        Seq::new((self.rows * self.cols) as nat, |k: int| word_bit(self.storage@, k))
    }

    proof fn lemma_packs(&self)
        requires
            self.wf(),
        ensures
            flat_cells(self.cells(), self.flat()),
            packs(self.storage@, self.flat()),
    {
        assert forall|r: int, c: int|
            0 <= r < self.rows && 0 <= c < self.cols implies self.flat()[r * self.cols + c]
            == #[trigger] self.cells()[r][c] by {
            lemma_flat_index(r, c, self.rows as int, self.cols as int);
        }
    }
}

impl ToroidalBinaryMatrix for ToroidalBitMatrix {
    closed spec fn cells(&self) -> Seq<Seq<bool>> {
        Seq::new(
            self.rows as nat,
            |r: int| Seq::new(self.cols as nat, |c: int| word_bit(self.storage@, r * self.cols + c)),
        )
    }

    closed spec fn wf(&self) -> bool {
        &&& self.rows > 0
        &&& self.cols > 0
        &&& self.rows * self.cols <= isize::MAX
        &&& self.storage@.len() == (self.rows * self.cols + 31) / 32
        &&& forall|k: int|
            self.rows * self.cols <= k < 32 * self.storage@.len() ==> !#[trigger] word_bit(
                self.storage@,
                k,
            )
    }

    proof fn lemma_wf(&self) {
    }

    fn rows(&self) -> (r: usize) {
        self.rows
    }

    fn cols(&self) -> (r: usize) {
        self.cols
    }

    fn at(&self, idx: MatrixIndex) -> (r: bool) {
        self.get(idx)
    }

    fn set(&mut self, idx: MatrixIndex, value: bool) -> (prev: bool) {
        ToroidalBitMatrix::set(self, idx, value)
    }

    fn bitwise_xor(&mut self, other: &Self) -> (r: Result<(), DimensionMismatch>) {
        ToroidalBitMatrix::bitwise_xor(self, other)
    }

    fn raw_storage(&self) -> (r: Vec<bool>) {
        let n = self.rows * self.cols;
        let mut out: Vec<bool> = Vec::new();
        let mut k: usize = 0;
        while k < n
            invariant
                0 <= k <= n,
                n == self.rows * self.cols,
                self.wf(),
                out@.len() == k,
                forall|j: int| 0 <= j < k ==> out@[j] == word_bit(self.storage@, j),
            decreases n - k,
        {
            out.push((self.storage[k / 32] >> ((k % 32) as u32)) & 1 == 1);
            k += 1;
        }
        proof {
            assert forall|r: int, c: int|
                0 <= r < self.rows && 0 <= c < self.cols implies out@[r * self.cols + c]
                == #[trigger] self.cells()[r][c] by {
                lemma_flat_index(r, c, self.rows as int, self.cols as int);
            }
        }
        out
    }
}

} // verus!
