//! The key schedule: from a 32-bit key and two fixed templates to the two seeded automata.
use crate::automata::{Automaton, AutomatonRule};
use crate::matrix::{table_error, table_view, BitMatrixConstructError};
use crate::parse::{
    all_mapped, first_unmapped, gen_char_map, key_glyph, parse_bool_table, ragged, text_lines,
    CharMap, TableReadError,
};
use vstd::prelude::*;

verus! {

/// Template of the transpose automaton's first grid.
pub const T_INIT_MATRIX: &'static str = "P#O#N#M#L#K#J#I#
#L#K.J#I.H.G#F.H
Q.D#C#B#A#7#6#E#
#M.X#W.V.U.T.5#G
R.E.H#G.F#E.S#D.
#N#Y.T#S.R.D#4.F
S.F.I#3#2.Q#R#C.
#O.Z#U.7#Z#C.3#E
T#G#J.4.6#P.Q.B#
#P#2.V#5.Y#B.2.D
U.H#K.W.X#O#P.A.
#Q.3#L.M.N.A#Z.C
V.I.4#5.6#7.O#7.
#R.J.K#L.M.N.Y#B
W.S#T.U#V#W.X.6#
#X.Y.Z.2#3.4.5.A";

/// Template of the shift automaton's first grid.
pub const S_INIT_MATRIX: &'static str = ".A#3.2#Z.Y#X.W#V
7.B.4.P#O.N.M#L.
#6#C#5#Q#3.2#Z.U
E.5#D.6.R#4#7.K#
#D.4#E.7.S#5.Y.T
F.C#3.F.A#T#6#J#
#Q#B.2.G#B.U#X.S
G#P.A.Z#H.C#V.I#
.R#O.7#Y.I#D.W#R
H.E#N.6#X.J.E#H.
#S.D#M.5#W.K#F.Q
I#F.C#L.4#V#L.G.
.T.A.B#K.3#U.M.P
J#G#H#I#J#2#T#N#
.U#V.W.X.Y.Z#S.O
K#L.M#N#O#P.Q#R.";

/// Error returned when a template does not give an automaton.
#[derive(Debug, PartialEq, Eq, Structural)]
pub enum KeyScheduleError {
    /// The template is not a table of mapped glyphs.
    Template(TableReadError),
    /// The table is not a valid grid.
    Grid(BitMatrixConstructError),
}

/// The rule both automata of the cipher follow: a dead cell with 2 to 6 live neighbours is
/// born, a live cell with 0, 1 or 5 to 8 live neighbours dies.
pub open spec fn is_cipher_rule(rule: AutomatonRule) -> bool {
    &&& rule.born@ == seq![false, false, true, true, true, true, true, false, false]
    &&& rule.dies@ == seq![true, true, false, false, false, true, true, true, true]
}

/// The rule both automata of the cipher follow.
pub fn cipher_rule() -> (r: AutomatonRule)
    ensures
        is_cipher_rule(r),
{
    let r = AutomatonRule {
        born: [false, false, true, true, true, true, true, false, false],
        dies: [true, true, false, false, false, true, true, true, true],
    };
    assert(r.born@ =~= seq![false, false, true, true, true, true, true, false, false]);
    assert(r.dies@ =~= seq![true, true, false, false, false, true, true, true, true]);
    r
}

/// The character map of `seed`: the 32 key glyphs take the bits of `seed`, `#` is live and
/// `.` is dead.
pub fn key_char_map(seed: u32) -> (r: CharMap)
    ensures
        forall|c: char|
            r@.contains_key(c) <==> (c == '#' || c == '.' || exists|n: int|
                0 <= n < 32 && key_glyph(n) == c),
        r@['#'] == true,
        r@['.'] == false,
        forall|n: int|
            0 <= n < 32 ==> #[trigger] r@[key_glyph(n)] == ((seed >> (n as u32)) & 1u32 == 1u32),
{
    let mut char_map = gen_char_map(seed);
    char_map.insert('#', true);
    char_map.insert('.', false);
    proof {
        assert forall|n: int| 0 <= n < 32 implies #[trigger] char_map@[key_glyph(n)] == ((seed >> (
        n as u32)) & 1u32 == 1u32) by {
            assert(key_glyph(n) != '#' && key_glyph(n) != '.');
        }
    }
    char_map
}

/// The grid a table of glyph lines decodes to under `m`.
pub open spec fn decoded_table(lines: Seq<Seq<char>>, m: Map<char, bool>) -> Seq<Seq<bool>> {
    Seq::new(lines.len(), |i: int| lines[i].map_values(|c: char| m[c]))
}

/// `template` decodes under `m` to a valid grid.
pub open spec fn template_ok(template: Seq<char>, m: Map<char, bool>) -> bool {
    &&& all_mapped(text_lines(template), m)
    &&& !ragged(text_lines(template))
    &&& table_error(decoded_table(text_lines(template), m)) is None
}

/// Decodes `template` through `char_map` and starts an automaton with `rule` on the result.
pub fn seed_automaton(template: &str, char_map: &CharMap, rule: AutomatonRule) -> (r: Result<
    Automaton,
    KeyScheduleError,
>)
    ensures
        !all_mapped(text_lines(template@), char_map@) ==> (r matches Err(
            KeyScheduleError::Template(TableReadError::InvalidCharacter(c)),
        ) && exists|i: int, j: int|
            first_unmapped(text_lines(template@), char_map@, i, j) && text_lines(template@)[i][j]
                == c),
        all_mapped(text_lines(template@), char_map@) && ragged(text_lines(template@)) ==> r
            == Err::<Automaton, _>(KeyScheduleError::Template(TableReadError::RaggedTable())),
        all_mapped(text_lines(template@), char_map@) && !ragged(text_lines(template@)) ==> match table_error(
            decoded_table(text_lines(template@), char_map@),
        ) {
            Some(e) => r == Err::<Automaton, _>(KeyScheduleError::Grid(e)),
            None => (r matches Ok(a) && a.wf() && a.grid() == decoded_table(
                text_lines(template@),
                char_map@,
            ) && a.rule() == rule),
        },
{
    let table = match parse_bool_table(template, char_map) {
        Ok(t) => t,
        Err(e) => {
            return Err(KeyScheduleError::Template(e));
        },
    };
    proof {
        assert(table_view(table@) =~= decoded_table(text_lines(template@), char_map@));
    }
    match Automaton::from_table(table, rule) {
        Ok(a) => Ok(a),
        Err(e) => Err(KeyScheduleError::Grid(e)),
    }
}

/// The transpose and shift automata of key `seed`: each template decoded through the key's
/// character map, under the cipher's rule.
pub fn seed_automata(seed: u32) -> (r: Result<(Automaton, Automaton), KeyScheduleError>)
    ensures
        (template_ok(T_INIT_MATRIX@, key_char_map_spec(seed)) && template_ok(
            S_INIT_MATRIX@,
            key_char_map_spec(seed),
        )) <==> r is Ok,
        r matches Ok((t, s)) ==> {
            &&& t.wf()
            &&& s.wf()
            &&& t.grid() == decoded_table(text_lines(T_INIT_MATRIX@), key_char_map_spec(seed))
            &&& s.grid() == decoded_table(text_lines(S_INIT_MATRIX@), key_char_map_spec(seed))
            &&& is_cipher_rule(t.rule())
            &&& is_cipher_rule(s.rule())
        },
{
    let char_map = key_char_map(seed);
    proof {
        lemma_key_char_map(seed, char_map@);
    }
    let rule = cipher_rule();
    let transpose = seed_automaton(T_INIT_MATRIX, &char_map, rule)?;
    let shift = seed_automaton(S_INIT_MATRIX, &char_map, rule)?;
    Ok((transpose, shift))
}

/// The map `key_char_map(seed)` returns.
pub open spec fn key_char_map_spec(seed: u32) -> Map<char, bool> {
    Map::new(
        |c: char| c == '#' || c == '.' || exists|n: int| 0 <= n < 32 && key_glyph(n) == c,
        |c: char|
            if c == '#' {
                true
            } else if c == '.' {
                false
            } else {
                let n = choose|n: int| 0 <= n < 32 && key_glyph(n) == c;
                (seed >> (n as u32)) & 1u32 == 1u32
            },
    )
}

proof fn lemma_key_char_map(seed: u32, m: Map<char, bool>)
    requires
        forall|c: char|
            m.contains_key(c) <==> (c == '#' || c == '.' || exists|n: int|
                0 <= n < 32 && key_glyph(n) == c),
        m['#'] == true,
        m['.'] == false,
        forall|n: int|
            0 <= n < 32 ==> #[trigger] m[key_glyph(n)] == ((seed >> (n as u32)) & 1u32 == 1u32),
    ensures
        m == key_char_map_spec(seed),
{
    let k = key_char_map_spec(seed);
    assert forall|c: char| #[trigger] m.contains_key(c) implies m[c] == k[c] by {
        if c != '#' && c != '.' {
            let n = choose|n: int| 0 <= n < 32 && key_glyph(n) == c;
            assert(m[key_glyph(n)] == ((seed >> (n as u32)) & 1u32 == 1u32));
        }
    }
    assert(m =~= k);
}

} // verus!
