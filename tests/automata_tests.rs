use talos::automata::{Automaton, AutomatonRule};
use talos::bit_matrix::ToroidalBitMatrix;
use talos::matrix::BitMatrixConstructError;
use talos::schedule::cipher_rule;

fn grid_with(cells: &[(usize, usize)]) -> Vec<Vec<bool>> {
    let mut g = vec![vec![false; 16]; 16];
    for &(r, c) in cells {
        g[r][c] = true;
    }
    g
}

fn live_cells(a: &Automaton) -> Vec<(usize, usize)> {
    let text = a.to_string();
    let mut out = Vec::new();
    for (r, line) in text.lines().enumerate() {
        for (c, ch) in line.chars().enumerate() {
            if ch == '#' {
                out.push((r, c));
            }
        }
    }
    out
}

fn life_rule() -> AutomatonRule {
    AutomatonRule {
        born: [false, false, false, true, false, false, false, false, false],
        dies: [true, true, false, false, true, true, true, true, true],
    }
}

#[test]
fn all_dead_grid_has_no_live_neighbors() {
    let a = Automaton::from_table(vec![vec![false; 16]; 16], cipher_rule()).unwrap();
    for r in -1..17 {
        for c in -1..17 {
            assert_eq!(a.alive_neighbors((r, c)), 0);
        }
    }
}

#[test]
fn all_alive_grid_has_eight_live_neighbors() {
    let a = Automaton::from_table(vec![vec![true; 16]; 16], cipher_rule()).unwrap();
    for r in -1..17 {
        for c in -1..17 {
            assert_eq!(a.alive_neighbors((r, c)), 8);
        }
    }
}

#[test]
fn neighbors_wrap_around_corners() {
    let a = Automaton::from_table(grid_with(&[(15, 15), (0, 1), (1, 0)]), cipher_rule()).unwrap();
    assert_eq!(a.alive_neighbors((0, 0)), 3);
    assert_eq!(a.alive_neighbors((15, 0)), 2);
    assert_eq!(a.alive_neighbors((-1, -1)), 0);
    assert_eq!(a.alive_neighbors((0, 1)), 1);
}

#[test]
fn from_table_rejects_bad_tables() {
    assert!(matches!(
        Automaton::from_table(vec![], cipher_rule()),
        Err(BitMatrixConstructError::EmptyTable())
    ));
    assert!(matches!(
        Automaton::from_table(vec![vec![true; 3], vec![true; 2]], cipher_rule()),
        Err(BitMatrixConstructError::RaggedTable())
    ));
}

#[test]
fn blinker_under_cipher_rule() {
    let mut a = Automaton::from_table(grid_with(&[(8, 7), (8, 8), (8, 9)]), cipher_rule()).unwrap();
    a.iter_rule(1);
    // A dead cell with two or more live neighbours is born under this rule, so the line grows
    // into a 3 by 3 block missing the middle row's ends, not into a vertical line.
    assert_eq!(
        live_cells(&a),
        vec![(7, 7), (7, 8), (7, 9), (8, 8), (9, 7), (9, 8), (9, 9)]
    );
}

#[test]
fn blinker_oscillates_under_life_rule() {
    let start = vec![(8, 7), (8, 8), (8, 9)];
    let mut a = Automaton::from_table(grid_with(&start), life_rule()).unwrap();
    a.iter_rule(1);
    assert_eq!(live_cells(&a), vec![(7, 8), (8, 8), (9, 8)]);
    a.iter_rule(1);
    assert_eq!(live_cells(&a), start);
}

#[test]
fn generations_accumulate() {
    let seed = grid_with(&[(1, 1), (1, 2), (2, 1), (5, 9), (6, 10), (7, 8)]);
    let mut once = Automaton::from_table(seed.clone(), cipher_rule()).unwrap();
    once.iter_rule(7);
    let mut split = Automaton::from_table(seed, cipher_rule()).unwrap();
    split.iter_rule(3);
    split.iter_rule(4);
    assert_eq!(once.to_string(), split.to_string());
    assert_eq!(once.get_storage(), split.get_storage());
}

#[test]
fn to_string_renders_rows() {
    let a = Automaton::from_table(vec![vec![true, false, false], vec![false, false, true]], cipher_rule())
        .unwrap();
    assert_eq!(a.to_string(), "#..\n..#\n");
    assert_eq!(a.popcount(), 2);
    assert_eq!(a.dimensions(), (2, 3));
}

#[test]
fn new_keeps_state() {
    let state = ToroidalBitMatrix::new(grid_with(&[(0, 0), (3, 4)])).unwrap();
    let a = Automaton::new(state, cipher_rule());
    assert_eq!(a.popcount(), 2);
    assert!(a.get_state().get((3, 4)));
    assert_eq!(a.get_storage()[0], 1);
}

#[test]
fn iter_rule_zero_keeps_grid() {
    let mut a = Automaton::from_table(grid_with(&[(4, 4), (4, 5)]), cipher_rule()).unwrap();
    let before = a.to_string();
    a.iter_rule(0);
    assert_eq!(a.to_string(), before);
}
