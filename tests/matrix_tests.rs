use talos::bit_matrix::ToroidalBitMatrix;
use talos::bool_matrix::ToroidalBoolMatrix;
use talos::matrix::{swap_cols, swap_rows, wrap_index, BitMatrixConstructError, ToroidalBinaryMatrix};

fn pattern(rows: usize, cols: usize) -> Vec<Vec<bool>> {
    (0..rows)
        .map(|r| (0..cols).map(|c| (r * 7 + c * 3) % 5 == 0).collect())
        .collect()
}

#[test]
fn wrap_index_reduces_modulo() {
    assert_eq!(wrap_index(-1, 16), 15);
    assert_eq!(wrap_index(-17, 16), 15);
    assert_eq!(wrap_index(16, 16), 0);
    assert_eq!(wrap_index(37, 16), 5);
    assert_eq!(wrap_index(isize::MIN, 3), (isize::MIN).rem_euclid(3) as usize);
}

#[test]
fn bit_matrix_rejects_empty_table() {
    assert!(matches!(ToroidalBitMatrix::new(vec![]), Err(BitMatrixConstructError::EmptyTable())));
    assert!(matches!(
        ToroidalBitMatrix::new(vec![vec![], vec![]]),
        Err(BitMatrixConstructError::EmptyTable())
    ));
}

#[test]
fn bit_matrix_rejects_ragged_table() {
    let table = vec![vec![true, false], vec![true]];
    assert!(matches!(ToroidalBitMatrix::new(table), Err(BitMatrixConstructError::RaggedTable())));
}

#[test]
fn bool_matrix_rejects_bad_tables() {
    assert!(matches!(ToroidalBoolMatrix::new(vec![]), Err(BitMatrixConstructError::EmptyTable())));
    assert!(matches!(
        ToroidalBoolMatrix::new(vec![vec![true], vec![true, true]]),
        Err(BitMatrixConstructError::RaggedTable())
    ));
    assert!(matches!(
        ToroidalBoolMatrix::from_storage(2, 3, vec![true; 5]),
        Err(BitMatrixConstructError::RaggedTable())
    ));
    assert!(matches!(
        ToroidalBoolMatrix::from_storage(0, 3, vec![]),
        Err(BitMatrixConstructError::EmptyTable())
    ));
}

#[test]
fn bit_matrix_reads_table_cells() {
    let table = pattern(5, 7);
    let m = ToroidalBitMatrix::new(table.clone()).unwrap();
    for r in 0..5 {
        for c in 0..7 {
            assert_eq!(m.get((r as isize, c as isize)), table[r][c]);
        }
    }
}

#[test]
fn toroidal_wrap_reads_last_cell() {
    let table = pattern(16, 16);
    let bit = ToroidalBitMatrix::new(table.clone()).unwrap();
    let boolean = ToroidalBoolMatrix::new(table.clone()).unwrap();
    assert_eq!(bit.get((-1, -1)), bit.get((15, 15)));
    assert_eq!(boolean.at((-1, -1)), boolean.at((15, 15)));
    assert_eq!(bit.get((-1, -1)), table[15][15]);
    assert_eq!(bit.get((16, 33)), table[0][1]);
}

#[test]
fn set_returns_previous_value_and_wraps() {
    let mut m = ToroidalBitMatrix::new(vec![vec![false; 40]; 3]).unwrap();
    assert!(!m.set((-1, 41), true));
    assert!(m.get((2, 1)));
    assert!(m.set((2, 1), false));
    assert!(!m.get((2, 1)));
    for r in 0..3 {
        for c in 0..40 {
            assert!(!m.get((r, c)));
        }
    }
}

#[test]
fn backends_agree_on_every_operation() {
    let table = pattern(16, 16);
    let other = pattern(16, 16).into_iter().rev().collect::<Vec<_>>();
    let mut bit = ToroidalBitMatrix::new(table.clone()).unwrap();
    let mut boolean = ToroidalBoolMatrix::new(table.clone()).unwrap();
    assert_eq!(ToroidalBinaryMatrix::raw_storage(&bit), boolean.raw_storage());
    assert_eq!(ToroidalBinaryMatrix::set(&mut bit, (3, -2), true), boolean.set((3, -2), true));
    swap_rows(&mut bit, 1, -3);
    swap_rows(&mut boolean, 1, -3);
    swap_cols(&mut bit, 0, 9);
    swap_cols(&mut boolean, 0, 9);
    let bit_other = ToroidalBitMatrix::new(other.clone()).unwrap();
    let bool_other = ToroidalBoolMatrix::new(other).unwrap();
    assert!(bit.bitwise_xor(&bit_other).is_ok());
    assert!(boolean.bitwise_xor(&bool_other).is_ok());
    assert_eq!(ToroidalBinaryMatrix::raw_storage(&bit), boolean.raw_storage());
    for r in -20..20 {
        for c in -20..20 {
            assert_eq!(bit.at((r, c)), boolean.at((r, c)));
        }
    }
}

#[test]
fn xor_combines_cells() {
    let mut a = ToroidalBitMatrix::new(vec![vec![true, true, false, false]]).unwrap();
    let b = ToroidalBitMatrix::new(vec![vec![true, false, true, false]]).unwrap();
    assert!(a.bitwise_xor(&b).is_ok());
    assert_eq!(ToroidalBinaryMatrix::raw_storage(&a), vec![false, true, true, false]);
}

#[test]
fn xor_rejects_mismatched_dimensions() {
    let mut a = ToroidalBoolMatrix::new(vec![vec![true, true]]).unwrap();
    let b = ToroidalBoolMatrix::new(vec![vec![true], vec![false]]).unwrap();
    assert!(a.bitwise_xor(&b).is_err());
    assert_eq!(a.raw_storage(), vec![true, true]);
}

#[test]
fn swap_rows_and_cols_exchange_lines() {
    let table = vec![vec![true, false, false], vec![false, true, false]];
    let mut m = ToroidalBoolMatrix::new(table).unwrap();
    swap_rows(&mut m, 0, -1);
    assert_eq!(m.raw_storage(), vec![false, true, false, true, false, false]);
    swap_cols(&mut m, 0, 4);
    assert_eq!(m.raw_storage(), vec![true, false, false, false, true, false]);
}

#[test]
fn packed_storage_holds_bits_in_order() {
    let mut table = vec![vec![false; 33]];
    table[0][0] = true;
    table[0][5] = true;
    table[0][32] = true;
    let m = ToroidalBitMatrix::new(table).unwrap();
    assert_eq!(m.get_storage(), vec![0b100001, 1]);
    let copy = m.duplicate();
    assert_eq!(copy.get_storage(), m.get_storage());
}
