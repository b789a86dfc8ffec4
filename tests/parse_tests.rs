use talos::parse::{
    concat_bool_to_u8, concat_bool_to_u8_vec, explode_u8_to_bool, explode_u8_to_bool_vec,
    gen_char_map, parse_bool_table, split_lines, CharMap, TableReadError,
};

fn hash_dot_map() -> CharMap {
    let mut m = CharMap::new();
    m.insert('#', true);
    m.insert('.', false);
    m
}

#[test]
fn char_map_takes_key_bits() {
    let m = gen_char_map(1);
    assert_eq!(m.get('A'), Some(true));
    assert_eq!(m.get('B'), Some(false));
    assert_eq!(m.get('7'), Some(false));
    assert_eq!(m.get('#'), None);
    let m = gen_char_map(0x8000_0002);
    assert_eq!(m.get('A'), Some(false));
    assert_eq!(m.get('B'), Some(true));
    assert_eq!(m.get('7'), Some(true));
    assert_eq!(m.get('Z'), Some(false));
    assert_eq!(m.get('2'), Some(false));
    assert_eq!(m.get('1'), None);
}

#[test]
fn char_map_insert_overrides() {
    let mut m = gen_char_map(u32::MAX);
    assert_eq!(m.get('C'), Some(true));
    m.insert('C', false);
    assert_eq!(m.get('C'), Some(false));
    m.insert('#', true);
    assert_eq!(m.get('#'), Some(true));
}

#[test]
fn parse_reads_rows() {
    let table = parse_bool_table(".....\n..#..\n...#.\n.###.", &hash_dot_map()).unwrap();
    assert_eq!(
        table,
        vec![
            vec![false, false, false, false, false],
            vec![false, false, true, false, false],
            vec![false, false, false, true, false],
            vec![false, true, true, true, false],
        ]
    );
}

#[test]
fn parse_accepts_crlf_and_final_newline() {
    let table = parse_bool_table("#.\r\n.#\n", &hash_dot_map()).unwrap();
    assert_eq!(table, vec![vec![true, false], vec![false, true]]);
}

#[test]
fn parse_rejects_unknown_glyph() {
    let r = parse_bool_table("#.\n.x\n#y", &hash_dot_map());
    assert_eq!(r, Err(TableReadError::InvalidCharacter('x')));
}

#[test]
fn parse_rejects_ragged_lines() {
    let r = parse_bool_table("#.#\n.#\n", &hash_dot_map());
    assert_eq!(r, Err(TableReadError::RaggedTable()));
}

#[test]
fn invalid_glyph_is_reported_before_raggedness() {
    let r = parse_bool_table("#.#\n.?", &hash_dot_map());
    assert_eq!(r, Err(TableReadError::InvalidCharacter('?')));
}

#[test]
fn empty_text_is_an_empty_table() {
    assert_eq!(parse_bool_table("", &hash_dot_map()), Ok(vec![]));
}

#[test]
fn split_lines_matches_str_lines() {
    for text in ["", "a", "a\n", "a\r\nb", "\n\nx\r", "ab\r\r\ncd\n\n", "x\ny\rz"] {
        let expected: Vec<Vec<char>> = text.lines().map(|l| l.chars().collect()).collect();
        assert_eq!(split_lines(text), expected, "text {:?}", text);
    }
}

#[test]
fn byte_bits_are_least_significant_first() {
    assert_eq!(
        explode_u8_to_bool(0b1000_0110),
        vec![false, true, true, false, false, false, false, true]
    );
    assert_eq!(concat_bool_to_u8(&[false, true, true, false, false, false, false, true]), 0b1000_0110);
    assert_eq!(concat_bool_to_u8(&[true, true]), 3);
}

#[test]
fn byte_vectors_round_trip() {
    let bytes: Vec<u8> = (0..=255).collect();
    let bits = explode_u8_to_bool_vec(&bytes);
    assert_eq!(bits.len(), 8 * 256);
    assert_eq!(concat_bool_to_u8_vec(&bits), bytes);
    assert_eq!(concat_bool_to_u8_vec(&[true; 10]), vec![255, 3]);
}
