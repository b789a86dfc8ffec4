use talos::automata::Automaton;
use talos::bool_matrix::ToroidalBoolMatrix;
use talos::encrypt::{
    decrypt_block_256, decrypt_message_256, encrypt_block_256, encrypt_message_256,
    read_4_bits, reconstruct_message, scramble_matrix_256, unscramble_matrix_256,
};
use talos::matrix::ToroidalBinaryMatrix;
use talos::parse::{concat_bool_to_u8_vec, explode_u8_to_bool_vec};
use talos::schedule::{key_char_map, seed_automata, seed_automaton, KeyScheduleError, cipher_rule, S_INIT_MATRIX, T_INIT_MATRIX};
use talos::parse::TableReadError;

fn automata(key: u32) -> (Automaton, Automaton) {
    seed_automata(key).unwrap()
}

fn encrypt(message: &[u8], key: u32) -> Vec<bool> {
    let (mut t, mut s) = automata(key);
    encrypt_message_256(message, &mut s, &mut t)
}

fn decrypt(bits: Vec<bool>, key: u32) -> Result<String, std::string::FromUtf8Error> {
    let (mut t, mut s) = automata(key);
    decrypt_message_256(bits, &mut s, &mut t)
}

fn noisy_grid(seed: usize) -> Vec<Vec<bool>> {
    (0..16)
        .map(|r| (0..16).map(|c| (r * 31 + c * 17 + seed * 7 + r * c) % 3 == 0).collect())
        .collect()
}

#[test]
fn round_trip_whole_blocks() {
    let message = "The quick brown fox jumps over!!".repeat(3);
    assert_eq!(message.len() % 32, 0);
    for key in [0u32, 1, 42, 0xDEAD_BEEF, u32::MAX] {
        let cipher = encrypt(message.as_bytes(), key);
        assert_eq!(decrypt(cipher, key).unwrap(), message);
    }
}

#[test]
fn round_trip_pads_with_zero_bytes() {
    let message = "hello, cellular world";
    let cipher = encrypt(message.as_bytes(), 7);
    let plain = decrypt(cipher, 7).unwrap();
    assert_eq!(plain.len(), 32);
    assert!(plain.starts_with(message));
    assert!(plain[message.len()..].bytes().all(|b| b == 0));
}

#[test]
fn padding_law() {
    for n in [0usize, 1, 31, 32, 33, 64, 100] {
        let message = vec![b'a'; n];
        let cipher = encrypt(&message, 99);
        assert_eq!(cipher.len(), 256 * ((8 * n + 255) / 256));
    }
}

#[test]
fn encryption_is_deterministic() {
    let message = b"same input, same output";
    assert_eq!(encrypt(message, 12345), encrypt(message, 12345));
}

#[test]
fn wrong_key_does_not_recover_message() {
    let message = "attack at dawn, attack at dusk!!";
    let cipher = encrypt(message.as_bytes(), 1);
    match decrypt(cipher, 2) {
        Ok(text) => assert_ne!(text, message),
        Err(_) => {}
    }
}

#[test]
fn ciphertext_differs_from_plaintext() {
    let message = [0u8; 32];
    let cipher = encrypt(&message, 5);
    assert_ne!(concat_bool_to_u8_vec(&cipher), message.to_vec());
}

#[test]
fn invalid_utf8_is_reported() {
    let bits = explode_u8_to_bool_vec(&[0xff, 0xfe]);
    assert!(reconstruct_message(bits).is_err());
    let bits = explode_u8_to_bool_vec("ok".as_bytes());
    assert_eq!(reconstruct_message(bits).unwrap(), "ok");
}

#[test]
fn scramble_then_unscramble_is_identity() {
    for seed in 0..20 {
        let message = noisy_grid(seed);
        let key = ToroidalBoolMatrix::new(noisy_grid(seed + 100)).unwrap();
        let mut m = ToroidalBoolMatrix::new(message.clone()).unwrap();
        let before = m.raw_storage();
        scramble_matrix_256(&mut m, &key);
        unscramble_matrix_256(&mut m, &key);
        assert_eq!(m.raw_storage(), before);
    }
}

#[test]
fn scramble_with_single_tap_swaps_first_rows() {
    // Only the first row step reads a set tap (target 1); every other step swaps a line with
    // line 0 an even number of times or with itself.
    let mut key_table = vec![vec![false; 16]; 16];
    key_table[0][0] = true;
    let key = ToroidalBoolMatrix::new(key_table).unwrap();
    let message = noisy_grid(3);
    let mut m = ToroidalBoolMatrix::new(message.clone()).unwrap();
    scramble_matrix_256(&mut m, &key);
    let mut expected = message.clone();
    expected.swap(0, 1);
    assert_eq!(m.raw_storage(), expected.concat());
    unscramble_matrix_256(&mut m, &key);
    assert_eq!(m.raw_storage(), message.concat());
}

#[test]
fn read_4_bits_is_little_endian() {
    let mut table = vec![vec![false; 16]; 16];
    table[0][0] = true;
    table[0][8] = true;
    let m = ToroidalBoolMatrix::new(table).unwrap();
    assert_eq!(read_4_bits(&m, (0, 0), (0, 4), (0, 8), (0, 12)), 5);
    assert_eq!(read_4_bits(&m, (0, 4), (16, 0), (0, 12), (-16, -8)), 10);
}

#[test]
fn block_round_trip_advances_both_automata() {
    let block: Vec<bool> = noisy_grid(9).concat();
    let (mut t1, mut s1) = automata(77);
    let (mut t2, mut s2) = automata(77);
    let cipher = encrypt_block_256(block.clone(), &mut s1, &mut t1);
    let plain = decrypt_block_256(cipher, &mut s2, &mut t2);
    assert_eq!(plain, block);
    assert_eq!(s1.to_string(), s2.to_string());
    let (_, mut s3) = automata(77);
    s3.iter_rule(11);
    assert_eq!(s1.to_string(), s3.to_string());
}

#[test]
fn golden_seeded_grids() {
    let (t, s) = automata(0x1234_5678);
    assert_eq!(
        t.to_string(),
        ".###.###.#####.#\n#.##.##....###..\n..##.#.#.#.#.###\n##..#..#.#....##\n..#..##.###.###.\n#.#...##...###.#\n#.#..#.#...#.#..\n##.###..###...##\n.####.#..#.....#\n#.#..##...#....#\n#..##....###....\n#...#..#....##..\n#...##...#..##..\n#..#.##..#....#.\n..##..####.....#\n#....#..#..#....\n"
    );
    assert_eq!(
        s.to_string(),
        "..#...##..#...##\n....#..##...##..\n#.#.#.#.#...##.#\n#..##....###..##\n##.###...##.....\n#..#..#..#.#.###\n#.#....##..##..#\n##....##...##..#\n..##..#...##..#.\n..##...#..#.##..\n##.###..#..###..\n.##..#..####..#.\n......##..##.#..\n####.#.###.#.#.#\n.###.......###.#\n##..##.###...#..\n"
    );
}

#[test]
fn templates_are_16_by_16() {
    for template in [T_INIT_MATRIX, S_INIT_MATRIX] {
        let a = seed_automaton(template, &key_char_map(3), cipher_rule()).unwrap();
        assert_eq!(a.dimensions(), (16, 16));
    }
}

#[test]
fn seed_automaton_reports_template_errors() {
    let map = key_char_map(0);
    assert!(matches!(
        seed_automaton("AB\nC!", &map, cipher_rule()),
        Err(KeyScheduleError::Template(TableReadError::InvalidCharacter('!')))
    ));
    assert!(matches!(
        seed_automaton("AB\nC", &map, cipher_rule()),
        Err(KeyScheduleError::Template(TableReadError::RaggedTable()))
    ));
    assert!(matches!(seed_automaton("", &map, cipher_rule()), Err(KeyScheduleError::Grid(_))));
}
