//! The block cipher: a keyed permutation of each 256-bit block followed by an XOR layer, both
//! keyed by the state of a cellular automaton that advances from block to block.
use crate::automata::{generations, lemma_generations_shape, Automaton, AutomatonRule};
use crate::bool_matrix::ToroidalBoolMatrix;
use crate::matrix::{
    flat_cells, grid_at, grid_cols, grid_rows, is_grid, lemma_flat_div_mod, swap_cols,
    swap_cols_spec, swap_rows, swap_rows_spec, xor_spec, MatrixIndex,
    ToroidalBinaryMatrix,
};
use crate::parse::{bits_to_bytes, bytes_to_bits, concat_bool_to_u8_vec, explode_u8_to_bool_vec};
use std::string::FromUtf8Error;
use vstd::utf8::{decode_utf8, valid_utf8};
use vstd::prelude::*;

verus! {

/// Number of permutation steps: sixteen row swaps, then sixteen column swaps.
pub const SCRAMBLE_STEPS: usize = 32;

pub open spec fn bit_value(b: bool) -> int {
    if b {
        1
    } else {
        0
    }
}

/// The 4-bit number whose bit `i` is `b_i`, `b0` being the least significant.
pub open spec fn nibble(b0: bool, b1: bool, b2: bool, b3: bool) -> int {
    bit_value(b0) + 2 * bit_value(b1) + 4 * bit_value(b2) + 8 * bit_value(b3)
}

/// Reads the four cells at `idx0` .. `idx3` of `matrix` as the bits of a number, `idx0` being
/// the least significant.
pub fn read_4_bits<T: ToroidalBinaryMatrix>(
    matrix: &T,
    idx0: MatrixIndex,
    idx1: MatrixIndex,
    idx2: MatrixIndex,
    idx3: MatrixIndex,
) -> (r: u8)
    requires
        matrix.wf(),
    ensures
        r == nibble(
            grid_at(matrix.cells(), idx0.0 as int, idx0.1 as int),
            grid_at(matrix.cells(), idx1.0 as int, idx1.1 as int),
            grid_at(matrix.cells(), idx2.0 as int, idx2.1 as int),
            grid_at(matrix.cells(), idx3.0 as int, idx3.1 as int),
        ),
        r < 16,
{
    let idx = [idx0, idx1, idx2, idx3];
    let mut result: u8 = 0;
    let mut weight: u8 = 1;
    let mut i: usize = 0;
    while i < 4
        invariant
            0 <= i <= 4,
            matrix.wf(),
            idx@ == seq![idx0, idx1, idx2, idx3],
            weight == if i == 0 {
                1u8
            } else if i == 1 {
                2u8
            } else if i == 2 {
                4u8
            } else {
                8u8
            },
            result as int == (if i > 0 {
                bit_value(grid_at(matrix.cells(), idx0.0 as int, idx0.1 as int))
            } else {
                0
            }) + (if i > 1 {
                2 * bit_value(grid_at(matrix.cells(), idx1.0 as int, idx1.1 as int))
            } else {
                0
            }) + (if i > 2 {
                4 * bit_value(grid_at(matrix.cells(), idx2.0 as int, idx2.1 as int))
            } else {
                0
            }) + (if i > 3 {
                8 * bit_value(grid_at(matrix.cells(), idx3.0 as int, idx3.1 as int))
            } else {
                0
            }),
        decreases 4 - i,
    {
        if matrix.at(idx[i]) {
            result += weight;
        }
        if i < 3 {
            weight *= 2;
        }
        i += 1;
    }
    result
}

/// Column shift of the taps read for the `j`-th row of a row block.
pub open spec fn row_tap_shift(j: int) -> int {
    if j == 0 {
        0
    } else if j == 1 {
        2
    } else if j == 2 {
        1
    } else {
        3
    }
}

/// Row shift of the taps read for the `j`-th column of a column block.
pub open spec fn col_tap_shift(j: int) -> int {
    if j == 0 {
        3
    } else if j == 1 {
        0
    } else if j == 2 {
        2
    } else {
        1
    }
}

/// The first row (or column) of the block that permutation step `step` works on.
pub open spec fn step_base(step: int) -> int {
    if step < 16 {
        4 * (step / 4)
    } else {
        4 * ((step - 16) / 4)
    }
}

/// The row (or column) that step `step` exchanges with `step_base(step)`, read from the key.
pub open spec fn step_target(k: Seq<Seq<bool>>, step: int) -> int {
    if step < 16 {
        let row = step;
        let c = row_tap_shift(step % 4);
        nibble(
            grid_at(k, row, c),
            grid_at(k, row, 4 + c),
            grid_at(k, row, 8 + c),
            grid_at(k, row, 12 + c),
        )
    } else {
        let col = step - 16;
        let r = col_tap_shift(col % 4);
        nibble(
            grid_at(k, r, col),
            grid_at(k, 4 + r, col),
            grid_at(k, 8 + r, col),
            grid_at(k, 12 + r, col),
        )
    }
}

/// Permutation step `step` keyed by `k`: a row swap for the first sixteen steps, a column swap
/// for the others.
pub open spec fn apply_step(g: Seq<Seq<bool>>, k: Seq<Seq<bool>>, step: int) -> Seq<Seq<bool>> {
    if step < 16 {
        swap_rows_spec(g, step_base(step), step_target(k, step))
    } else {
        swap_cols_spec(g, step_base(step), step_target(k, step))
    }
}

/// Steps `0 .. n` applied to `g` in increasing order.
pub open spec fn scramble_upto(g: Seq<Seq<bool>>, k: Seq<Seq<bool>>, n: nat) -> Seq<Seq<bool>>
    decreases n,
{
    if n == 0 {
        g
    } else {
        apply_step(scramble_upto(g, k, (n - 1) as nat), k, n - 1)
    }
}

/// Steps `n - 1` down to `0` applied to `g`.
pub open spec fn unscramble_upto(g: Seq<Seq<bool>>, k: Seq<Seq<bool>>, n: nat) -> Seq<Seq<bool>>
    decreases n,
{
    if n == 0 {
        g
    } else {
        unscramble_upto(apply_step(g, k, n - 1), k, (n - 1) as nat)
    }
}

/// The keyed permutation of a block.
pub open spec fn scrambled(g: Seq<Seq<bool>>, k: Seq<Seq<bool>>) -> Seq<Seq<bool>> {
    scramble_upto(g, k, SCRAMBLE_STEPS as nat)
}

/// The inverse keyed permutation of a block.
pub open spec fn unscrambled(g: Seq<Seq<bool>>, k: Seq<Seq<bool>>) -> Seq<Seq<bool>> {
    unscramble_upto(g, k, SCRAMBLE_STEPS as nat)
}

/// A 16 by 16 grid.
pub open spec fn is_block(g: Seq<Seq<bool>>) -> bool {
    is_grid(g, 16, 16)
}

proof fn lemma_step_target_bound(k: Seq<Seq<bool>>, step: int)
    ensures
        0 <= step_target(k, step) < 16,
{
}

proof fn lemma_apply_step_block(g: Seq<Seq<bool>>, k: Seq<Seq<bool>>, step: int)
    requires
        is_block(g),
        0 <= step < 32,
    ensures
        is_block(apply_step(g, k, step)),
        apply_step(apply_step(g, k, step), k, step) =~~= g,
{
    lemma_step_target_bound(k, step);
}

proof fn lemma_scramble_upto_block(g: Seq<Seq<bool>>, k: Seq<Seq<bool>>, n: nat)
    requires
        is_block(g),
        n <= 32,
    ensures
        is_block(scramble_upto(g, k, n)),
    decreases n,
{
    if n > 0 {
        lemma_scramble_upto_block(g, k, (n - 1) as nat);
        lemma_apply_step_block(scramble_upto(g, k, (n - 1) as nat), k, n - 1);
    }
}

proof fn lemma_unscramble_scramble_upto(g: Seq<Seq<bool>>, k: Seq<Seq<bool>>, n: nat)
    requires
        is_block(g),
        n <= 32,
    ensures
        unscramble_upto(scramble_upto(g, k, n), k, n) == g,
    decreases n,
{
    if n > 0 {
        let prev = scramble_upto(g, k, (n - 1) as nat);
        lemma_scramble_upto_block(g, k, (n - 1) as nat);
        lemma_apply_step_block(prev, k, n - 1);
        lemma_unscramble_scramble_upto(g, k, (n - 1) as nat);
        assert(apply_step(apply_step(prev, k, n - 1), k, n - 1) == prev);
    }
}

/// For every 16 by 16 block `g` and key grid `k`, undoing the keyed permutation after applying
/// it gives back `g`.
pub proof fn lemma_unscramble_scramble(g: Seq<Seq<bool>>, k: Seq<Seq<bool>>)
    requires
        is_block(g),
    ensures
        unscrambled(scrambled(g, k), k) == g,
{
    lemma_unscramble_scramble_upto(g, k, 32);
}

/// Applies permutation step `step`, keyed by `key`, to `message_matrix`.
fn scramble_step<T: ToroidalBinaryMatrix, K: ToroidalBinaryMatrix>(
    message_matrix: &mut T,
    key: &K,
    step: usize,
)
    requires
        old(message_matrix).wf(),
        is_block(old(message_matrix).cells()),
        key.wf(),
        step < SCRAMBLE_STEPS,
    ensures
        final(message_matrix).wf(),
        final(message_matrix).cells() == apply_step(
            old(message_matrix).cells(),
            key.cells(),
            step as int,
        ),
{
    let ghost g = message_matrix.cells();
    proof {
        lemma_step_target_bound(key.cells(), step as int);
    }
    if step < 16 {
        let row = step as isize;
        let j = step % 4;
        let c: isize = if j == 0 {
            0
        } else if j == 1 {
            2
        } else if j == 2 {
            1
        } else {
            3
        };
        let target = read_4_bits(key, (row, c), (row, 4 + c), (row, 8 + c), (row, 12 + c));
        let base = (4 * (step / 4)) as isize;
        proof {
            vstd::arithmetic::div_mod::lemma_small_mod(base as nat, 16);
            vstd::arithmetic::div_mod::lemma_small_mod(target as nat, 16);
        }
        swap_rows(message_matrix, base, target as isize);
    } else {
        let col = (step - 16) as isize;
        let j = (step - 16) % 4;
        let r: isize = if j == 0 {
            3
        } else if j == 1 {
            0
        } else if j == 2 {
            2
        } else {
            1
        };
        let target = read_4_bits(key, (r, col), (4 + r, col), (8 + r, col), (12 + r, col));
        let base = (4 * ((step - 16) / 4)) as isize;
        proof {
            vstd::arithmetic::div_mod::lemma_small_mod(base as nat, 16);
            vstd::arithmetic::div_mod::lemma_small_mod(target as nat, 16);
        }
        swap_cols(message_matrix, base, target as isize);
    }
}

/// Applies the keyed permutation to a 16 by 16 block: for each of the four row blocks, four
/// row swaps, then for each of the four column blocks, four column swaps, the targets read
/// from `key`.
pub fn scramble_matrix_256<T: ToroidalBinaryMatrix, K: ToroidalBinaryMatrix>(
    message_matrix: &mut T,
    key: &K,
)
    requires
        old(message_matrix).wf(),
        is_block(old(message_matrix).cells()),
        key.wf(),
    ensures
        final(message_matrix).wf(),
        final(message_matrix).cells() == scrambled(old(message_matrix).cells(), key.cells()),
{
    let ghost g = message_matrix.cells();
    let mut step: usize = 0;
    while step < SCRAMBLE_STEPS
        invariant
            0 <= step <= SCRAMBLE_STEPS,
            key.wf(),
            message_matrix.wf(),
            is_block(g),
            message_matrix.cells() == scramble_upto(g, key.cells(), step as nat),
        decreases SCRAMBLE_STEPS - step,
    {
        proof {
            lemma_scramble_upto_block(g, key.cells(), step as nat);
        }
        scramble_step(message_matrix, key, step);
        step += 1;
    }
}

/// Undoes `scramble_matrix_256`: the same steps with the same key, in reverse order.
pub fn unscramble_matrix_256<T: ToroidalBinaryMatrix, K: ToroidalBinaryMatrix>(
    message_matrix: &mut T,
    key: &K,
)
    requires
        old(message_matrix).wf(),
        is_block(old(message_matrix).cells()),
        key.wf(),
    ensures
        final(message_matrix).wf(),
        is_block(final(message_matrix).cells()),
        final(message_matrix).cells() == unscrambled(old(message_matrix).cells(), key.cells()),
{
    let ghost g = message_matrix.cells();
    let ghost goal = unscrambled(g, key.cells());
    let mut step: usize = SCRAMBLE_STEPS;
    while step > 0
        invariant
            0 <= step <= SCRAMBLE_STEPS,
            key.wf(),
            message_matrix.wf(),
            is_block(message_matrix.cells()),
            unscramble_upto(message_matrix.cells(), key.cells(), step as nat) == goal,
        decreases step,
    {
        step -= 1;
        proof {
            lemma_apply_step_block(message_matrix.cells(), key.cells(), step as int);
        }
        scramble_step(message_matrix, key, step);
    }
}

/// Generations both automata advance before each block.
pub const BLOCK_GENERATIONS: u32 = 11;

/// Bits in a block: a 16 by 16 grid.
pub const BLOCK_BITS: usize = 256;

/// The 16 by 16 grid whose cells, row after row, are `bits`.
pub open spec fn block_grid(bits: Seq<bool>) -> Seq<Seq<bool>> {
    Seq::new(16, |r: int| Seq::new(16, |c: int| bits[16 * r + c]))
}

/// The cells of a 16 by 16 grid, row after row.
pub open spec fn grid_bits(g: Seq<Seq<bool>>) -> Seq<bool> {
    Seq::new(256, |k: int| g[k / 16][k % 16])
}

/// A plaintext block enciphered under key grid `k`: permuted, then XORed with `k`.
pub open spec fn encrypt_block_spec(p: Seq<bool>, k: Seq<Seq<bool>>) -> Seq<bool> {
    grid_bits(xor_spec(scrambled(block_grid(p), k), k))
}

/// A ciphertext block deciphered under key grid `k`: XORed with `k`, then permuted back.
pub open spec fn decrypt_block_spec(c: Seq<bool>, k: Seq<Seq<bool>>) -> Seq<bool> {
    grid_bits(unscrambled(xor_spec(block_grid(c), k), k))
}

/// The key grid of block `i`: the seeded grid after `11 * (i + 1)` generations.
pub open spec fn block_key(t0: Seq<Seq<bool>>, rule: AutomatonRule, i: int) -> Seq<Seq<bool>> {
    generations(t0, rule, (BLOCK_GENERATIONS * (i + 1)) as nat)
}

/// Number of blocks that `n` bits fill, the last one possibly partly.
pub open spec fn block_count(n: int) -> int {
    (n + 255) / 256
}

/// Block `i` of `bits`, padded with zero bits to 256.
pub open spec fn padded_block(bits: Seq<bool>, i: int) -> Seq<bool> {
    Seq::new(256, |j: int| 256 * i + j < bits.len() && bits[256 * i + j])
}

/// The ciphertext bits of message `m` when the transpose automaton starts at `t0`.
pub open spec fn encrypted(m: Seq<u8>, t0: Seq<Seq<bool>>, rule: AutomatonRule) -> Seq<bool> {
    let bits = bytes_to_bits(m);
    Seq::new(
        (256 * block_count(bits.len() as int)) as nat,
        |k: int| encrypt_block_spec(padded_block(bits, k / 256), block_key(t0, rule, k / 256))[k
            % 256],
    )
}

/// The plaintext bits of ciphertext `c` when the transpose automaton starts at `t0`.
pub open spec fn decrypted(c: Seq<bool>, t0: Seq<Seq<bool>>, rule: AutomatonRule) -> Seq<bool> {
    Seq::new(
        c.len(),
        |k: int|
            decrypt_block_spec(
                c.subrange(256 * (k / 256), 256 * (k / 256) + 256),
                block_key(t0, rule, k / 256),
            )[k % 256],
    )
}

proof fn lemma_block_flat(g: Seq<Seq<bool>>, f: Seq<bool>)
    requires
        is_block(g),
        flat_cells(g, f),
    ensures
        g == block_grid(f),
        f == grid_bits(g),
{
    assert(g[0].len() == 16);
    assert(grid_rows(g) == 16 && grid_cols(g) == 16);
    assert(f.len() == 256) by (nonlinear_arith)
        requires
            f.len() == grid_rows(g) * grid_cols(g),
            grid_rows(g) == 16,
            grid_cols(g) == 16,
    ;
    assert forall|r: int| 0 <= r < 16 implies #[trigger] g[r] =~= block_grid(f)[r] by {
        assert forall|c: int| 0 <= c < 16 implies g[r][c] == block_grid(f)[r][c] by {
            assert(f[r * 16 + c] == g[r][c]);
        }
    }
    assert(g =~= block_grid(f));
    assert forall|k: int| 0 <= k < 256 implies #[trigger] f[k] == grid_bits(g)[k] by {
        let r = k / 16;
        let c = k % 16;
        vstd::arithmetic::div_mod::lemma_fundamental_div_mod(k, 16);
        assert(0 <= r < 16);
        assert(f[r * 16 + c] == g[r][c]);
    }
    assert(f =~= grid_bits(g));
}

proof fn lemma_generations_add(g: Seq<Seq<bool>>, rule: AutomatonRule, a: nat, b: nat)
    ensures
        generations(generations(g, rule, a), rule, b) == generations(g, rule, a + b),
    decreases b,
{
    if b > 0 {
        lemma_generations_add(g, rule, a, (b - 1) as nat);
    }
}

/// Deciphering a block enciphered under the same key grid gives back the block.
pub proof fn lemma_decrypt_encrypt_block(p: Seq<bool>, k: Seq<Seq<bool>>)
    requires
        p.len() == 256,
    ensures
        decrypt_block_spec(encrypt_block_spec(p, k), k) == p,
{
    let g = block_grid(p);
    let s = scrambled(g, k);
    lemma_scramble_upto_block(g, k, 32);
    let x = xor_spec(s, k);
    assert(block_grid(grid_bits(x)) =~~= x);
    assert(xor_spec(x, k) =~~= s);
    lemma_unscramble_scramble(g, k);
    assert(grid_bits(g) =~= p);
}

/// Builds the 16 by 16 matrix whose cells, row after row, are `bits`.
fn block_matrix(bits: Vec<bool>) -> (r: ToroidalBoolMatrix)
    requires
        bits@.len() == 256,
    ensures
        r.wf(),
        r.cells() == block_grid(bits@),
{
    let ghost b = bits@;
    let m = ToroidalBoolMatrix::from_storage(16, 16, bits).unwrap();
    proof {
        m.lemma_wf();
        lemma_block_flat(m.cells(), b);
    }
    m
}

/// The cells of a 16 by 16 matrix, row after row.
fn block_bits(m: &ToroidalBoolMatrix) -> (r: Vec<bool>)
    requires
        m.wf(),
        is_block(m.cells()),
    ensures
        r@ == grid_bits(m.cells()),
{
    let r = m.raw_storage();
    proof {
        lemma_block_flat(m.cells(), r@);
    }
    r
}

/// The key grid of the transpose automaton, as a matrix of the same kind as a block.
fn key_matrix(transpose_automata: &Automaton) -> (r: ToroidalBoolMatrix)
    requires
        transpose_automata.wf(),
        is_block(transpose_automata.grid()),
    ensures
        r.wf(),
        r.cells() == transpose_automata.grid(),
{
    let state = transpose_automata.get_state();
    let bits = state.raw_storage();
    proof {
        lemma_block_flat(state.cells(), bits@);
    }
    block_matrix(bits)
}

/// Advances both automata by one block's worth of generations.
fn advance_automata(shift_automata: &mut Automaton, transpose_automata: &mut Automaton)
    requires
        old(shift_automata).wf(),
        old(transpose_automata).wf(),
        is_block(old(transpose_automata).grid()),
    ensures
        final(shift_automata).wf(),
        final(transpose_automata).wf(),
        final(shift_automata).rule() == old(shift_automata).rule(),
        final(transpose_automata).rule() == old(transpose_automata).rule(),
        final(shift_automata).grid() == generations(
            old(shift_automata).grid(),
            old(shift_automata).rule(),
            BLOCK_GENERATIONS as nat,
        ),
        final(transpose_automata).grid() == generations(
            old(transpose_automata).grid(),
            old(transpose_automata).rule(),
            BLOCK_GENERATIONS as nat,
        ),
        is_block(final(transpose_automata).grid()),
{
    proof {
        transpose_automata.lemma_wf();
        lemma_generations_shape(
            transpose_automata.grid(),
            transpose_automata.rule(),
            BLOCK_GENERATIONS as nat,
        );
    }
    shift_automata.iter_rule(BLOCK_GENERATIONS);
    transpose_automata.iter_rule(BLOCK_GENERATIONS);
}

/// Enciphers one 256-bit block: both automata advance, then the block is permuted and XORed
/// under the new grid of the transpose automaton.
pub fn encrypt_block_256(
    message_block: Vec<bool>,
    shift_automata: &mut Automaton,
    transpose_automata: &mut Automaton,
) -> (r: Vec<bool>)
    requires
        message_block@.len() == 256,
        old(shift_automata).wf(),
        old(transpose_automata).wf(),
        is_block(old(transpose_automata).grid()),
    ensures
        final(shift_automata).wf(),
        final(transpose_automata).wf(),
        final(shift_automata).rule() == old(shift_automata).rule(),
        final(transpose_automata).rule() == old(transpose_automata).rule(),
        final(shift_automata).grid() == generations(
            old(shift_automata).grid(),
            old(shift_automata).rule(),
            BLOCK_GENERATIONS as nat,
        ),
        final(transpose_automata).grid() == generations(
            old(transpose_automata).grid(),
            old(transpose_automata).rule(),
            BLOCK_GENERATIONS as nat,
        ),
        is_block(final(transpose_automata).grid()),
        r@ == encrypt_block_spec(message_block@, final(transpose_automata).grid()),
{
    let ghost p = message_block@;
    let mut message_matrix = block_matrix(message_block);
    advance_automata(shift_automata, transpose_automata);
    let ghost k = transpose_automata.grid();
    scramble_matrix_256(&mut message_matrix, transpose_automata.get_state());
    proof {
        lemma_scramble_upto_block(block_grid(p), k, 32);
    }
    let key = key_matrix(transpose_automata);
    let _ = message_matrix.bitwise_xor(&key);
    proof {
        assert(is_block(message_matrix.cells())) by {
            assert(message_matrix.cells() =~~= xor_spec(scrambled(block_grid(p), k), k));
        }
    }
    block_bits(&message_matrix)
}

/// Deciphers one 256-bit block: both automata advance, then the block is XORed and permuted
/// back under the new grid of the transpose automaton.
pub fn decrypt_block_256(
    encrypted_block: Vec<bool>,
    shift_automata: &mut Automaton,
    transpose_automata: &mut Automaton,
) -> (r: Vec<bool>)
    requires
        encrypted_block@.len() == 256,
        old(shift_automata).wf(),
        old(transpose_automata).wf(),
        is_block(old(transpose_automata).grid()),
    ensures
        final(shift_automata).wf(),
        final(transpose_automata).wf(),
        final(shift_automata).rule() == old(shift_automata).rule(),
        final(transpose_automata).rule() == old(transpose_automata).rule(),
        final(shift_automata).grid() == generations(
            old(shift_automata).grid(),
            old(shift_automata).rule(),
            BLOCK_GENERATIONS as nat,
        ),
        final(transpose_automata).grid() == generations(
            old(transpose_automata).grid(),
            old(transpose_automata).rule(),
            BLOCK_GENERATIONS as nat,
        ),
        is_block(final(transpose_automata).grid()),
        r@ == decrypt_block_spec(encrypted_block@, final(transpose_automata).grid()),
{
    let ghost c = encrypted_block@;
    let mut message_matrix = block_matrix(encrypted_block);
    advance_automata(shift_automata, transpose_automata);
    let ghost k = transpose_automata.grid();
    let key = key_matrix(transpose_automata);
    let _ = message_matrix.bitwise_xor(&key);
    proof {
        assert(is_block(message_matrix.cells())) by {
            assert(message_matrix.cells() =~~= xor_spec(block_grid(c), k));
        }
    }
    unscramble_matrix_256(&mut message_matrix, transpose_automata.get_state());
    block_bits(&message_matrix)
}

/// Block `i` of `bits`, the last one possibly shorter than 256 bits.
pub open spec fn message_block(bits: Seq<bool>, i: int) -> Seq<bool> {
    bits.subrange(
        256 * i,
        if 256 * i + 256 <= bits.len() {
            256 * i + 256
        } else {
            bits.len() as int
        },
    )
}

/// Splits `message` into blocks of 256 bits, as bits; the last block is not padded.
pub fn block_split_256_message(message: &[u8]) -> (r: Vec<Vec<bool>>)
    requires
        8 * message@.len() <= usize::MAX,
    ensures
        r@.len() == block_count(8 * message@.len() as int),
        forall|i: int|
            0 <= i < r@.len() ==> #[trigger] r@[i]@ == message_block(bytes_to_bits(message@), i),
{
    let bits = explode_u8_to_bool_vec(message);
    let n = bits.len();
    let n_blocks = n / BLOCK_BITS + if n % BLOCK_BITS == 0 {
        0
    } else {
        1
    };
    let mut blocks: Vec<Vec<bool>> = Vec::new();
    while blocks.len() < n_blocks
        invariant
            n == bits@.len(),
            bits@ == bytes_to_bits(message@),
            n_blocks == block_count(n as int),
            blocks@.len() <= n_blocks,
            forall|i: int|
                0 <= i < blocks@.len() ==> #[trigger] blocks@[i]@ == message_block(bits@, i),
        decreases n_blocks - blocks@.len(),
    {
        let start = BLOCK_BITS * blocks.len();
        let end = if n - start >= BLOCK_BITS {
            start + BLOCK_BITS
        } else {
            n
        };
        let mut block: Vec<bool> = Vec::new();
        let mut k = start;
        while k < end
            invariant
                start <= k <= end,
                end <= n,
                n == bits@.len(),
                block@ == bits@.subrange(start as int, k as int),
            decreases end - k,
        {
            block.push(bits[k]);
            k += 1;
            assert(block@ =~= bits@.subrange(start as int, k as int));
        }
        blocks.push(block);
    }
    blocks
}

/// Reassembles bits into bytes (eight at a time, least significant bit first) and decodes
/// them as UTF-8.
pub fn reconstruct_message(bits: Vec<bool>) -> (r: Result<String, FromUtf8Error>)
    ensures
        r is Ok <==> valid_utf8(bits_to_bytes(bits@)),
        r matches Ok(s) ==> s@ == decode_utf8(bits_to_bytes(bits@)),
{
    let bytes = concat_bool_to_u8_vec(&bits);
    string_from_utf8(bytes)
}

/// Enciphers `message`: its bits are cut into 256-bit blocks, the last padded with zero bits,
/// and each block is enciphered in turn while both automata advance.
pub fn encrypt_message_256(
    message: &[u8],
    shift_automata: &mut Automaton,
    transpose_automata: &mut Automaton,
) -> (r: Vec<bool>)
    requires
        8 * message@.len() + 256 <= usize::MAX,
        old(shift_automata).wf(),
        old(transpose_automata).wf(),
        is_block(old(transpose_automata).grid()),
    ensures
        r@ == encrypted(message@, old(transpose_automata).grid(), old(transpose_automata).rule()),
        r@.len() == 256 * block_count(8 * message@.len() as int),
        final(shift_automata).wf(),
        final(transpose_automata).wf(),
        final(shift_automata).rule() == old(shift_automata).rule(),
        final(transpose_automata).rule() == old(transpose_automata).rule(),
        final(shift_automata).grid() == generations(
            old(shift_automata).grid(),
            old(shift_automata).rule(),
            (BLOCK_GENERATIONS * block_count(8 * message@.len() as int)) as nat,
        ),
        final(transpose_automata).grid() == generations(
            old(transpose_automata).grid(),
            old(transpose_automata).rule(),
            (BLOCK_GENERATIONS * block_count(8 * message@.len() as int)) as nat,
        ),
{
    let ghost s0 = shift_automata.grid();
    let ghost t0 = transpose_automata.grid();
    let ghost s_rule = shift_automata.rule();
    let ghost t_rule = transpose_automata.rule();
    let ghost bits = bytes_to_bits(message@);
    let blocks = block_split_256_message(message);
    let mut out: Vec<bool> = Vec::new();
    let mut i: usize = 0;
    while i < blocks.len()
        invariant
            0 <= i <= blocks@.len(),
            blocks@.len() == block_count(bits.len() as int),
            bits == bytes_to_bits(message@),
            8 * message@.len() + 256 <= usize::MAX,
            forall|j: int| 0 <= j < blocks@.len() ==> #[trigger] blocks@[j]@ == message_block(bits, j),
            shift_automata.wf(),
            transpose_automata.wf(),
            shift_automata.rule() == s_rule,
            transpose_automata.rule() == t_rule,
            shift_automata.grid() == generations(s0, s_rule, (BLOCK_GENERATIONS * i) as nat),
            transpose_automata.grid() == generations(t0, t_rule, (BLOCK_GENERATIONS * i) as nat),
            is_block(transpose_automata.grid()),
            out@.len() == 256 * i,
            forall|k: int| 0 <= k < out@.len() ==> #[trigger] out@[k] == encrypted(message@, t0, t_rule)[k],
        decreases blocks@.len() - i,
    {
        let mut block = blocks[i].clone();
        let ghost short = block@;
        while block.len() < BLOCK_BITS
            invariant
                block@.len() <= 256,
                short.len() <= block@.len(),
                block@.subrange(0, short.len() as int) == short,
                forall|j: int| short.len() <= j < block@.len() ==> !block@[j],
            decreases 256 - block@.len(),
        {
            block.push(false);
            assert(block@.subrange(0, short.len() as int) =~= short);
        }
        proof {
            assert(short == message_block(bits, i as int));
            assert(block@ =~= padded_block(bits, i as int)) by {
                assert forall|j: int| 0 <= j < 256 implies block@[j] == padded_block(
                    bits,
                    i as int,
                )[j] by {
                    if j < short.len() {
                        assert(block@[j] == block@.subrange(0, short.len() as int)[j]);
                    }
                }
            }
        }
        let ghost prev_out = out@;
        let ghost pblock = block@;
        let mut enc = encrypt_block_256(block, shift_automata, transpose_automata);
        let ghost enc_bits = enc@;
        proof {
            lemma_generations_add(s0, s_rule, (BLOCK_GENERATIONS * i) as nat, BLOCK_GENERATIONS as nat);
            lemma_generations_add(t0, t_rule, (BLOCK_GENERATIONS * i) as nat, BLOCK_GENERATIONS as nat);
            assert(transpose_automata.grid() == block_key(t0, t_rule, i as int));
        }
        out.append(&mut enc);
        proof {
            assert(encrypted(message@, t0, t_rule).len() == 256 * block_count(bits.len() as int));
            assert forall|k: int| 0 <= k < out@.len() implies #[trigger] out@[k] == encrypted(message@, t0, t_rule)[k] by {
                if k >= prev_out.len() {
                    lemma_flat_div_mod(i as int, k - 256 * i, 256);
                    assert(k < encrypted(message@, t0, t_rule).len());
                    let blk = padded_block(bytes_to_bits(message@), k / 256);
                    let key = block_key(t0, t_rule, k / 256);
                    assert(encrypted(message@, t0, t_rule)[k] == encrypt_block_spec(blk, key)[k
                        % 256]);
                    assert(out@[k] == enc_bits[k - 256 * i]);
                    assert(enc_bits == encrypt_block_spec(
                        padded_block(bits, i as int),
                        block_key(t0, t_rule, i as int),
                    ));
                    assert(encrypted(message@, t0, t_rule)[k] == encrypt_block_spec(
                        padded_block(bits, k / 256),
                        block_key(t0, t_rule, k / 256),
                    )[k % 256]);
                }
            }
        }
        i += 1;
    }
    proof {
        assert(out@ =~= encrypted(message@, t0, t_rule));
    }
    out
}

/// Deciphers `ciphertext`, a whole number of 256-bit blocks, block by block while both
/// automata advance, and decodes the resulting bytes as UTF-8.
pub fn decrypt_message_256(
    ciphertext: Vec<bool>,
    shift_automata: &mut Automaton,
    transpose_automata: &mut Automaton,
) -> (r: Result<String, FromUtf8Error>)
    requires
        ciphertext@.len() % 256 == 0,
        old(shift_automata).wf(),
        old(transpose_automata).wf(),
        is_block(old(transpose_automata).grid()),
    ensures
        r is Ok <==> valid_utf8(
            bits_to_bytes(
                decrypted(ciphertext@, old(transpose_automata).grid(), old(transpose_automata).rule()),
            ),
        ),
        r matches Ok(s) ==> s@ == decode_utf8(
            bits_to_bytes(
                decrypted(ciphertext@, old(transpose_automata).grid(), old(transpose_automata).rule()),
            ),
        ),
        final(shift_automata).wf(),
        final(transpose_automata).wf(),
        final(shift_automata).rule() == old(shift_automata).rule(),
        final(transpose_automata).rule() == old(transpose_automata).rule(),
        final(shift_automata).grid() == generations(
            old(shift_automata).grid(),
            old(shift_automata).rule(),
            (BLOCK_GENERATIONS * (ciphertext@.len() / 256)) as nat,
        ),
        final(transpose_automata).grid() == generations(
            old(transpose_automata).grid(),
            old(transpose_automata).rule(),
            (BLOCK_GENERATIONS * (ciphertext@.len() / 256)) as nat,
        ),
{
    let ghost s0 = shift_automata.grid();
    let ghost t0 = transpose_automata.grid();
    let ghost s_rule = shift_automata.rule();
    let ghost t_rule = transpose_automata.rule();
    let ghost goal = decrypted(ciphertext@, t0, t_rule);
    let n_blocks = ciphertext.len() / BLOCK_BITS;
    proof {
        vstd::arithmetic::div_mod::lemma_fundamental_div_mod(ciphertext@.len() as int, 256);
    }
    let mut message_bits: Vec<bool> = Vec::new();
    let mut i: usize = 0;
    while i < n_blocks
        invariant
            0 <= i <= n_blocks,
            n_blocks == ciphertext@.len() / 256,
            ciphertext@.len() % 256 == 0,
            ciphertext@.len() == 256 * n_blocks,
            ciphertext@.len() <= usize::MAX,
            goal == decrypted(ciphertext@, t0, t_rule),
            shift_automata.wf(),
            transpose_automata.wf(),
            shift_automata.rule() == s_rule,
            transpose_automata.rule() == t_rule,
            shift_automata.grid() == generations(s0, s_rule, (BLOCK_GENERATIONS * i) as nat),
            transpose_automata.grid() == generations(t0, t_rule, (BLOCK_GENERATIONS * i) as nat),
            is_block(transpose_automata.grid()),
            message_bits@.len() == 256 * i,
            forall|k: int| 0 <= k < message_bits@.len() ==> #[trigger] message_bits@[k] == goal[k],
        decreases n_blocks - i,
    {
        assert(256 * i + 256 <= ciphertext@.len());
        let start = 256 * i;
        let mut block: Vec<bool> = Vec::new();
        let mut k = start;
        while k < start + 256
            invariant
                start == 256 * i,
                i < n_blocks,
                n_blocks == ciphertext@.len() / 256,
                start <= k <= start + 256,
                start + 256 <= ciphertext@.len(),
                ciphertext@.len() <= usize::MAX,
                block@ == ciphertext@.subrange(start as int, k as int),
            decreases start + 256 - k,
        {
            block.push(ciphertext[k]);
            k += 1;
            assert(block@ =~= ciphertext@.subrange(start as int, k as int));
        }
        let ghost prev = message_bits@;
        let ghost cblock = block@;
        let mut dec = decrypt_block_256(block, shift_automata, transpose_automata);
        proof {
            lemma_generations_add(s0, s_rule, (BLOCK_GENERATIONS * i) as nat, BLOCK_GENERATIONS as nat);
            lemma_generations_add(t0, t_rule, (BLOCK_GENERATIONS * i) as nat, BLOCK_GENERATIONS as nat);
            assert(transpose_automata.grid() == block_key(t0, t_rule, i as int));
        }
        message_bits.append(&mut dec);
        proof {
            assert forall|k: int| 0 <= k < message_bits@.len() implies #[trigger] message_bits@[k]
                == goal[k] by {
                if k >= prev.len() {
                    lemma_flat_div_mod(i as int, k - 256 * i, 256);
                }
            }
        }
        i += 1;
    }
    proof {
        assert(message_bits@ =~= goal);
    }
    reconstruct_message(message_bits)
}

/// Relies on `String::from_utf8`: it succeeds exactly on valid UTF-8 and then holds the text
/// those bytes encode.
#[verifier::external_body]
fn string_from_utf8(bytes: Vec<u8>) -> (r: Result<String, FromUtf8Error>)
    ensures
        r is Ok <==> valid_utf8(bytes@),
        r matches Ok(s) ==> s@ == decode_utf8(bytes@),
{
    String::from_utf8(bytes)
}

/// The error `String::from_utf8` returns on bytes that are not UTF-8.
#[verifier::external_type_specification]
#[verifier::external_body]
pub struct ExFromUtf8Error(FromUtf8Error);

/// `m` followed by zero bytes up to a whole number of 32-byte blocks.
pub open spec fn padded_bytes(m: Seq<u8>) -> Seq<u8> {
    Seq::new((32 * block_count(8 * m.len() as int)) as nat, |j: int| if j < m.len() {
        m[j]
    } else {
        0u8
    })
}

proof fn lemma_decrypted_encrypted_bits(m: Seq<u8>, t0: Seq<Seq<bool>>, rule: AutomatonRule)
    ensures
        decrypted(encrypted(m, t0, rule), t0, rule) == bytes_to_bits(padded_bytes(m)),
{
    let bits = bytes_to_bits(m);
    let c = encrypted(m, t0, rule);
    let d = decrypted(c, t0, rule);
    let p = bytes_to_bits(padded_bytes(m));
    let nb = block_count(bits.len() as int);
    assert(p.len() == d.len());
    assert forall|k: int| 0 <= k < d.len() implies #[trigger] d[k] == p[k] by {
        let q = k / 256;
        let r = k % 256;
        vstd::arithmetic::div_mod::lemma_fundamental_div_mod(k, 256);
        let key = block_key(t0, rule, q);
        let blk = padded_block(bits, q);
        assert(0 <= q < nb);
        assert forall|j: int| 0 <= j < 256 implies #[trigger] c.subrange(256 * q, 256 * q + 256)[j]
            == encrypt_block_spec(blk, key)[j] by {
            lemma_flat_div_mod(q, j, 256);
        }
        assert(c.subrange(256 * q, 256 * q + 256) =~= encrypt_block_spec(blk, key));
        lemma_decrypt_encrypt_block(blk, key);
        assert(d[k] == blk[r]);
        vstd::arithmetic::div_mod::lemma_fundamental_div_mod(k, 8);
        let kb = k / 8;
        if kb >= m.len() {
            let i = (k % 8) as u8;
            assert((0u8 >> i) & 1u8 != 1u8) by (bit_vector);
        }
    }
    assert(d =~= p);
}

/// For every message `m` and every starting grid of the transpose automaton, deciphering the
/// ciphertext of `m` under the same starting grid and rule gives back the bytes of `m`
/// followed by the zero bytes that padded its last block; when `m` fills whole 32-byte blocks
/// that is `m` itself.
pub proof fn lemma_decrypt_encrypt(m: Seq<u8>, t0: Seq<Seq<bool>>, rule: AutomatonRule)
    ensures
        bits_to_bytes(decrypted(encrypted(m, t0, rule), t0, rule)) == padded_bytes(m),
        m.len() % 32 == 0 ==> bits_to_bytes(decrypted(encrypted(m, t0, rule), t0, rule)) == m,
{
    lemma_decrypted_encrypted_bits(m, t0, rule);
    crate::parse::lemma_bits_to_bytes_inverse(padded_bytes(m));
    if m.len() % 32 == 0 {
        vstd::arithmetic::div_mod::lemma_fundamental_div_mod(m.len() as int, 32);
        assert(padded_bytes(m) =~= m);
    }
}

/// The ciphertext of `m` is 256 bits for each started 256-bit block of `m`.
pub proof fn lemma_ciphertext_length(m: Seq<u8>, t0: Seq<Seq<bool>>, rule: AutomatonRule)
    ensures
        encrypted(m, t0, rule).len() == 256 * ((8 * m.len() + 255) / 256),
        encrypted(m, t0, rule).len() % 256 == 0,
        encrypted(m, t0, rule).len() >= 8 * m.len(),
{
}

/// Enciphering is a function of the message, the starting grid and the rule: equal inputs give
/// equal ciphertexts.
pub proof fn lemma_encrypt_deterministic(
    m1: Seq<u8>,
    m2: Seq<u8>,
    t1: Seq<Seq<bool>>,
    t2: Seq<Seq<bool>>,
    rule: AutomatonRule,
)
    requires
        m1 == m2,
        t1 == t2,
    ensures
        encrypted(m1, t1, rule) == encrypted(m2, t2, rule),
{
}

} // verus!
