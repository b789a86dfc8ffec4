//! Conversions between bytes and bits, and the reading of tables of cells from text.
use vstd::prelude::*;

verus! {

broadcast use vstd::string::axiom_spec_iter;

/// Error returned when text does not describe a table of cells.
#[derive(Debug, PartialEq, Eq, Structural)]
pub enum TableReadError {
    /// A glyph that the character map does not hold.
    InvalidCharacter(char),
    /// Lines of different lengths.
    RaggedTable(),
}

/// Glyph `n` of the key alphabet `ABCDEFGHIJKLMNOPQRSTUVWXYZ234567`, whose value in a character
/// map is bit `n` of the key.
pub open spec fn key_glyph(n: int) -> char {
    if n < 26 {
        (65 + n) as char
    } else {
        (50 + n - 26) as char
    }
}

/// The value the last entry for `c` gives it, if any.
pub open spec fn lookup(entries: Seq<(char, bool)>, c: char) -> Option<bool>
    decreases entries.len(),
{
    if entries.len() == 0 {
        None
    } else if entries.last().0 == c {
        Some(entries.last().1)
    } else {
        lookup(entries.drop_last(), c)
    }
}

/// A map from glyphs to cell values.
#[derive(Debug)]
pub struct CharMap {
    entries: Vec<(char, bool)>,
}

impl View for CharMap {
    type V = Map<char, bool>;

    closed spec fn view(&self) -> Map<char, bool> {
        Map::new(|c: char| lookup(self.entries@, c) is Some, |c: char| lookup(self.entries@, c)->Some_0)
    }
}

impl CharMap {
    /// A map that holds no glyph.
    pub fn new() -> (r: Self)
        ensures
            r@ == Map::<char, bool>::empty(),
    {
        let r = CharMap { entries: Vec::new() };
        assert(r@ =~= Map::<char, bool>::empty());
        r
    }

    /// Maps `c` to `value`, replacing any earlier value of `c`.
    pub fn insert(&mut self, c: char, value: bool)
        ensures
            final(self)@ == old(self)@.insert(c, value),
    {
        self.entries.push((c, value));
        proof {
            assert(self.entries@.drop_last() == old(self).entries@);
            assert(self@ =~= old(self)@.insert(c, value));
        }
    }

    /// The value of `c`, if the map holds it.
    pub fn get(&self, c: char) -> (r: Option<bool>)
        ensures
            r == (if self@.contains_key(c) {
                Some(self@[c])
            } else {
                None
            }),
    {
        let mut i = self.entries.len();
        assert(self.entries@.take(i as int) =~= self.entries@);
        while i > 0
            invariant
                i <= self.entries@.len(),
                lookup(self.entries@, c) == lookup(self.entries@.take(i as int), c),
            decreases i,
        {
            let e = self.entries[i - 1];
            proof {
                assert(self.entries@.take(i as int).drop_last() =~= self.entries@.take(i - 1));
            }
            if e.0 == c {
                return Some(e.1);
            }
            i -= 1;
        }
        None
    }
}

/// Glyph `n` of the key alphabet.
fn key_glyph_at(n: u8) -> (r: char)
    requires
        n < 32,
    ensures
        r == key_glyph(n as int),
{
    if n < 26 {
        (65u8 + n) as char
    } else {
        (50u8 + n - 26) as char
    }
}

/// Maps glyph `n` of the key alphabet to bit `n` of `seed`, for the 32 glyphs.
pub fn gen_char_map(seed: u32) -> (r: CharMap)
    ensures
        forall|c: char| r@.contains_key(c) <==> exists|n: int| 0 <= n < 32 && key_glyph(n) == c,
        forall|n: int| 0 <= n < 32 ==> #[trigger] r@[key_glyph(n)] == ((seed >> (n as u32)) & 1u32 == 1u32),
{
    let mut map = CharMap::new();
    let mut n: u8 = 0;
    while n < 32
        invariant
            0 <= n <= 32,
            forall|c: char| map@.contains_key(c) <==> exists|j: int| 0 <= j < n && key_glyph(j) == c,
            forall|j: int| 0 <= j < n ==> #[trigger] map@[key_glyph(j)] == ((seed >> (j as u32)) & 1u32 == 1u32),
        decreases 32 - n,
    {
        let glyph = key_glyph_at(n);
        let bit = (seed >> (n as u32)) & 1 != 0;
        proof {
            let n32 = n as u32;
            assert(((seed >> n32) & 1u32 != 0u32) == ((seed >> n32) & 1u32 == 1u32)) by (bit_vector);
        }
        map.insert(glyph, bit);
        proof {
            assert forall|c: char| map@.contains_key(c) implies exists|j: int| 0 <= j < n + 1 && key_glyph(j) == c by {
                if c == glyph {
                    assert(key_glyph(n as int) == c);
                }
            }
            assert forall|j: int| 0 <= j < n + 1 implies #[trigger] map@[key_glyph(j)] == ((seed >> (j as u32)) & 1u32 == 1u32) by {
                if j < n {
                    assert(key_glyph(j) != key_glyph(n as int));
                }
            }
        }
        n += 1;
    }
    map
}

/// Bit `i` of `b`, bit 0 being the least significant.
pub open spec fn byte_bit(b: u8, i: int) -> bool {
    (b >> (i as u8)) & 1u8 == 1u8
}

/// The bits of the bytes of `m`, byte after byte, each byte least significant bit first.
pub open spec fn bytes_to_bits(m: Seq<u8>) -> Seq<bool> {
    Seq::new(8 * m.len(), |k: int| byte_bit(m[k / 8], k % 8))
}

/// The value `1 << i` if `bits[i]` exists and is set, else 0.
pub open spec fn bit_weight(bits: Seq<bool>, i: int) -> u8 {
    if 0 <= i < bits.len() && bits[i] {
        (1u8 << (i as u8))
    } else {
        0u8
    }
}

/// The byte whose bit `i` is `bits[i]` for the first eight bits; missing bits are zero.
pub open spec fn pack_byte(bits: Seq<bool>) -> u8 {
    bit_weight(bits, 0) | bit_weight(bits, 1) | bit_weight(bits, 2) | bit_weight(bits, 3)
        | bit_weight(bits, 4) | bit_weight(bits, 5) | bit_weight(bits, 6) | bit_weight(bits, 7)
}

/// The bytes made of `bits` taken eight at a time; a short last group gives a last byte whose
/// high bits are zero.
pub open spec fn bits_to_bytes(bits: Seq<bool>) -> Seq<u8> {
    Seq::new(
        ((bits.len() + 7) / 8) as nat,
        |j: int| pack_byte(bits.subrange(8 * j, if 8 * j + 8 <= bits.len() {
            8 * j + 8
        } else {
            bits.len() as int
        })),
    )
}

proof fn lemma_pack_bits(bits: Seq<bool>)
    ensures
        forall|i: int| 0 <= i < 8 ==> #[trigger] byte_bit(pack_byte(bits), i) == (i < bits.len()
            && bits[i]),
{
    let x0 = bit_weight(bits, 0);
    let x1 = bit_weight(bits, 1);
    let x2 = bit_weight(bits, 2);
    let x3 = bit_weight(bits, 3);
    let x4 = bit_weight(bits, 4);
    let x5 = bit_weight(bits, 5);
    let x6 = bit_weight(bits, 6);
    let x7 = bit_weight(bits, 7);
    let p = pack_byte(bits);
    assert(p == x0 | x1 | x2 | x3 | x4 | x5 | x6 | x7);
    assert((1u8 << 0u8) == 1u8 && (1u8 << 1u8) == 2u8 && (1u8 << 2u8) == 4u8 && (1u8 << 3u8)
        == 8u8 && (1u8 << 4u8) == 16u8 && (1u8 << 5u8) == 32u8 && (1u8 << 6u8) == 64u8 && (1u8
        << 7u8) == 128u8) by (bit_vector);
    assert((x0 == 0u8 || x0 == 1u8) && (x1 == 0u8 || x1 == 2u8) && (x2 == 0u8 || x2 == 4u8) && (
    x3 == 0u8 || x3 == 8u8) && (x4 == 0u8 || x4 == 16u8) && (x5 == 0u8 || x5 == 32u8) && (x6
        == 0u8 || x6 == 64u8) && (x7 == 0u8 || x7 == 128u8));
    assert(((p >> 0u8) & 1u8 == 1u8) == (x0 == 1u8) && ((p >> 1u8) & 1u8 == 1u8) == (x1 == 2u8)
        && ((p >> 2u8) & 1u8 == 1u8) == (x2 == 4u8) && ((p >> 3u8) & 1u8 == 1u8) == (x3 == 8u8)
        && ((p >> 4u8) & 1u8 == 1u8) == (x4 == 16u8) && ((p >> 5u8) & 1u8 == 1u8) == (x5 == 32u8)
        && ((p >> 6u8) & 1u8 == 1u8) == (x6 == 64u8) && ((p >> 7u8) & 1u8 == 1u8) == (x7
        == 128u8)) by (bit_vector)
        requires
            p == x0 | x1 | x2 | x3 | x4 | x5 | x6 | x7,
            x0 == 0u8 || x0 == 1u8,
            x1 == 0u8 || x1 == 2u8,
            x2 == 0u8 || x2 == 4u8,
            x3 == 0u8 || x3 == 8u8,
            x4 == 0u8 || x4 == 16u8,
            x5 == 0u8 || x5 == 32u8,
            x6 == 0u8 || x6 == 64u8,
            x7 == 0u8 || x7 == 128u8,
    ;
    assert forall|i: int| 0 <= i < 8 implies #[trigger] byte_bit(pack_byte(bits), i) == (i
        < bits.len() && bits[i]) by {
        if i == 0 {
        } else if i == 1 {
        } else if i == 2 {
        } else if i == 3 {
        } else if i == 4 {
        } else if i == 5 {
        } else if i == 6 {
        } else {
        }
    }
}

proof fn lemma_byte_ext(a: u8, b: u8)
    requires
        forall|i: int| 0 <= i < 8 ==> #[trigger] byte_bit(a, i) == byte_bit(b, i),
    ensures
        a == b,
{
    assert(byte_bit(a, 0) == byte_bit(b, 0) && byte_bit(a, 1) == byte_bit(b, 1) && byte_bit(a, 2)
        == byte_bit(b, 2) && byte_bit(a, 3) == byte_bit(b, 3) && byte_bit(a, 4) == byte_bit(b, 4)
        && byte_bit(a, 5) == byte_bit(b, 5) && byte_bit(a, 6) == byte_bit(b, 6) && byte_bit(a, 7)
        == byte_bit(b, 7));
    assert(a == b) by (bit_vector)
        requires
            ((a >> 0u8) & 1u8 == 1u8) == ((b >> 0u8) & 1u8 == 1u8),
            ((a >> 1u8) & 1u8 == 1u8) == ((b >> 1u8) & 1u8 == 1u8),
            ((a >> 2u8) & 1u8 == 1u8) == ((b >> 2u8) & 1u8 == 1u8),
            ((a >> 3u8) & 1u8 == 1u8) == ((b >> 3u8) & 1u8 == 1u8),
            ((a >> 4u8) & 1u8 == 1u8) == ((b >> 4u8) & 1u8 == 1u8),
            ((a >> 5u8) & 1u8 == 1u8) == ((b >> 5u8) & 1u8 == 1u8),
            ((a >> 6u8) & 1u8 == 1u8) == ((b >> 6u8) & 1u8 == 1u8),
            ((a >> 7u8) & 1u8 == 1u8) == ((b >> 7u8) & 1u8 == 1u8),
    ;
}

proof fn lemma_byte_set_bit(x: u8, k: u8, i: u8)
    requires
        k < 8,
        i < 8,
    ensures
        ((x | (1u8 << k)) >> i) & 1u8 == 1u8 <==> (i == k || (x >> i) & 1u8 == 1u8),
{
    assert(((x | (1u8 << k)) >> i) & 1u8 == 1u8 <==> (i == k || (x >> i) & 1u8 == 1u8))
        by (bit_vector)
        requires
            k < 8,
            i < 8,
    ;
}

/// Packing the bits of bytes back into bytes gives the bytes.
pub proof fn lemma_bits_to_bytes_inverse(m: Seq<u8>)
    ensures
        bits_to_bytes(bytes_to_bits(m)) == m,
{
    let bits = bytes_to_bits(m);
    assert forall|j: int| 0 <= j < m.len() implies #[trigger] bits_to_bytes(bits)[j] == m[j] by {
        lemma_flat_div_mod_8(j);
        let sub = bits.subrange(8 * j, 8 * j + 8);
        lemma_pack_bits(sub);
        assert forall|i: int| 0 <= i < 8 implies #[trigger] byte_bit(pack_byte(sub), i)
            == byte_bit(m[j], i) by {
            crate::matrix::lemma_flat_div_mod(j, i, 8);
        }
        lemma_byte_ext(pack_byte(sub), m[j]);
    }
    assert(bits_to_bytes(bits) =~= m);
}

proof fn lemma_flat_div_mod_8(j: int)
    requires
        0 <= j,
    ensures
        (8 * j + 7) / 8 == j,
{
    crate::matrix::lemma_flat_div_mod(j, 7, 8);
}

/// The eight bits of `b`, least significant first.
pub fn explode_u8_to_bool(b: u8) -> (r: Vec<bool>)
    ensures
        r@ == Seq::new(8, |i: int| byte_bit(b, i)),
{
    let mut r: Vec<bool> = Vec::new();
    let mut i: u8 = 0;
    while i < 8
        invariant
            0 <= i <= 8,
            r@.len() == i,
            forall|j: int| 0 <= j < i ==> r@[j] == byte_bit(b, j),
        decreases 8 - i,
    {
        r.push((b >> i) & 1 == 1);
        i += 1;
    }
    assert(r@ =~= Seq::new(8, |i: int| byte_bit(b, i)));
    r
}

/// The bits of `bytes`, byte after byte, each least significant bit first.
pub fn explode_u8_to_bool_vec(bytes: &[u8]) -> (r: Vec<bool>)
    requires
        8 * bytes@.len() <= usize::MAX,
    ensures
        r@ == bytes_to_bits(bytes@),
{
    let mut r: Vec<bool> = Vec::new();
    let mut j: usize = 0;
    while j < bytes.len()
        invariant
            0 <= j <= bytes@.len(),
            8 * bytes@.len() <= usize::MAX,
            r@.len() == 8 * j,
            forall|k: int| 0 <= k < r@.len() ==> r@[k] == byte_bit(bytes@[k / 8], k % 8),
        decreases bytes@.len() - j,
    {
        let bits = explode_u8_to_bool(bytes[j]);
        let ghost before = r@;
        let mut i: usize = 0;
        while i < 8
            invariant
                0 <= i <= 8,
                0 <= j < bytes@.len(),
                8 * bytes@.len() <= usize::MAX,
                bits@ == Seq::new(8, |i: int| byte_bit(bytes@[j as int], i)),
                before.len() == 8 * j,
                r@.len() == 8 * j + i,
                forall|k: int| 0 <= k < before.len() ==> r@[k] == before[k],
                forall|k: int| 0 <= k < before.len() ==> before[k] == byte_bit(bytes@[k / 8], k % 8),
                forall|k: int| 8 * j <= k < r@.len() ==> r@[k] == byte_bit(bytes@[k / 8], k % 8),
            decreases 8 - i,
        {
            proof {
                crate::matrix::lemma_flat_div_mod(j as int, i as int, 8);
            }
            r.push(bits[i]);
            i += 1;
        }
        proof {
            assert forall|k: int| 0 <= k < r@.len() implies r@[k] == byte_bit(bytes@[k / 8], k % 8) by {
                if k < before.len() {
                    assert(r@[k] == before[k]);
                }
            }
        }
        j += 1;
    }
    assert(r@ =~= bytes_to_bits(bytes@));
    r
}

/// The byte whose bit `i` is `bits[i]`; at most eight bits, missing ones being zero.
pub fn concat_bool_to_u8(bits: &[bool]) -> (r: u8)
    requires
        bits@.len() <= 8,
    ensures
        r == pack_byte(bits@),
{
    let mut r: u8 = 0;
    let mut k: usize = 0;
    proof {
        assert forall|i: int| 0 <= i < 8 implies #[trigger] byte_bit(r, i) == (i < k && bits@[i]) by {
            let iu = i as u8;
            assert((0u8 >> iu) & 1u8 != 1u8) by (bit_vector);
        }
    }
    while k < bits.len()
        invariant
            0 <= k <= bits@.len(),
            bits@.len() <= 8,
            forall|i: int| 0 <= i < 8 ==> #[trigger] byte_bit(r, i) == (i < k && bits@[i]),
        decreases bits@.len() - k,
    {
        if bits[k] {
            let ghost before = r;
            r = r | (1u8 << (k as u8));
            proof {
                assert forall|i: int| 0 <= i < 8 implies #[trigger] byte_bit(r, i) == (i < k + 1
                    && bits@[i]) by {
                    lemma_byte_set_bit(before, k as u8, i as u8);
                    assert(byte_bit(before, i) == (i < k && bits@[i]));
                    if i == k {
                        assert(bits@[i]);
                    }
                }
            }
        }
        k += 1;
    }
    proof {
        assert forall|i: int| 0 <= i < 8 implies #[trigger] byte_bit(r, i) == byte_bit(
            pack_byte(bits@),
            i,
        ) by {
            lemma_pack_bits(bits@);
        }
        lemma_byte_ext(r, pack_byte(bits@));
    }
    r
}

/// The bytes made of `bits` eight at a time, each least significant bit first; a short last
/// group gives a last byte whose high bits are zero.
pub fn concat_bool_to_u8_vec(bits: &[bool]) -> (r: Vec<u8>)
    ensures
        r@ == bits_to_bytes(bits@),
{
    let n = bits.len();
    let n_bytes = n / 8 + if n % 8 == 0 {
        0
    } else {
        1
    };
    let mut r: Vec<u8> = Vec::new();
    while r.len() < n_bytes
        invariant
            n == bits@.len(),
            n_bytes == (n + 7) / 8,
            r@.len() <= n_bytes,
            forall|j: int| 0 <= j < r@.len() ==> #[trigger] r@[j] == bits_to_bytes(bits@)[j],
        decreases n_bytes - r@.len(),
    {
        let start = 8 * r.len();
        let end = if n - start >= 8 {
            start + 8
        } else {
            n
        };
        let group = vstd::slice::slice_subrange(bits, start, end);
        let b = concat_bool_to_u8(group);
        r.push(b);
    }
    assert(r@ =~= bits_to_bytes(bits@));
    r
}

/// The pieces of `s` between newline characters: one more than there are newlines.
pub open spec fn split_newlines(s: Seq<char>) -> Seq<Seq<char>>
    decreases s.len(),
{
    if s.len() == 0 {
        seq![Seq::empty()]
    } else {
        let p = split_newlines(s.drop_last());
        if s.last() == '\n' {
            p.push(Seq::empty())
        } else {
            p.update(p.len() - 1, p.last().push(s.last()))
        }
    }
}

/// A line without the carriage return that ended it, if any.
pub open spec fn strip_cr(l: Seq<char>) -> Seq<char> {
    if l.len() > 0 && l.last() == '\r' {
        l.drop_last()
    } else {
        l
    }
}

/// The lines of `s`: split at each `\n`, each line ended by a newline losing a `\r` before it,
/// and an empty piece after the last newline dropped.
pub open spec fn text_lines(s: Seq<char>) -> Seq<Seq<char>> {
    let p = split_newlines(s);
    let full = Seq::new((p.len() - 1) as nat, |i: int| strip_cr(p[i]));
    if p.last().len() == 0 {
        full
    } else {
        full.push(p.last())
    }
}

proof fn lemma_split_newlines_len(s: Seq<char>)
    ensures
        split_newlines(s).len() >= 1,
    decreases s.len(),
{
    if s.len() > 0 {
        lemma_split_newlines_len(s.drop_last());
    }
}

/// The characters of `s`.
fn chars_of(s: &str) -> (r: Vec<char>)
    ensures
        r@ == s@,
{
    let mut r: Vec<char> = Vec::new();
    for c in it: s.chars()
        invariant
            r@ == it.seq().take(it.index() as int),
    {
        r.push(c);
        assert(r@ =~= it.seq().take(it.index() as int + 1));
    }
    assert(r@ =~= s@);
    r
}

/// `l` without a last `\r`.
fn strip_cr_vec(l: Vec<char>) -> (r: Vec<char>)
    ensures
        r@ == strip_cr(l@),
{
    let mut l = l;
    if l.len() > 0 && l[l.len() - 1] == '\r' {
        l.pop();
    }
    l
}

/// The lines of `s`, as `str::lines` gives them.
pub fn split_lines(s: &str) -> (r: Vec<Vec<char>>)
    ensures
        r@.len() == text_lines(s@).len(),
        forall|i: int| 0 <= i < r@.len() ==> #[trigger] r@[i]@ == text_lines(s@)[i],
{
    let chars = chars_of(s);
    let mut lines: Vec<Vec<char>> = Vec::new();
    let mut cur: Vec<char> = Vec::new();
    let mut k: usize = 0;
    while k < chars.len()
        invariant
            0 <= k <= chars@.len(),
            chars@ == s@,
            ({
                let p = split_newlines(chars@.take(k as int));
                &&& p.len() == lines@.len() + 1
                &&& p.last() == cur@
                &&& forall|i: int| 0 <= i < lines@.len() ==> #[trigger] lines@[i]@ == strip_cr(p[i])
            }),
        decreases chars@.len() - k,
    {
        let c = chars[k];
        proof {
            assert(chars@.take(k + 1).drop_last() =~= chars@.take(k as int));
            lemma_split_newlines_len(chars@.take(k as int));
        }
        if c == '\n' {
            let line = strip_cr_vec(cur);
            lines.push(line);
            cur = Vec::new();
        } else {
            cur.push(c);
        }
        k += 1;
    }
    proof {
        assert(chars@.take(k as int) =~= chars@);
    }
    if cur.len() > 0 {
        lines.push(cur);
    }
    proof {
        let p = split_newlines(s@);
        let full = Seq::new((p.len() - 1) as nat, |i: int| strip_cr(p[i]));
        if p.last().len() == 0 {
            assert(lines@.len() == full.len());
        } else {
            assert(lines@.len() == full.push(p.last()).len());
        }
    }
    lines
}

/// The glyph at line `i`, column `j` of `lines` is the first, in reading order, that `m` does
/// not hold.
pub open spec fn first_unmapped(lines: Seq<Seq<char>>, m: Map<char, bool>, i: int, j: int) -> bool {
    &&& 0 <= i < lines.len()
    &&& 0 <= j < lines[i].len()
    &&& !m.contains_key(lines[i][j])
    &&& forall|a: int, b: int|
        0 <= a < lines.len() && 0 <= b < lines[a].len() && (a < i || (a == i && b < j))
            ==> m.contains_key(#[trigger] lines[a][b])
}

/// Every glyph of `lines` is held by `m`.
pub open spec fn all_mapped(lines: Seq<Seq<char>>, m: Map<char, bool>) -> bool {
    forall|a: int, b: int|
        0 <= a < lines.len() && 0 <= b < lines[a].len() ==> m.contains_key(#[trigger] lines[a][b])
}

/// Some line has a length other than the first line's.
pub open spec fn ragged(lines: Seq<Seq<char>>) -> bool {
    exists|a: int| 0 <= a < lines.len() && (#[trigger] lines[a]).len() != lines[0].len()
}

/// Reads `string` as a table of cells, one row per line and one cell per glyph, each glyph's
/// value taken from `char_map`.
pub fn parse_bool_table(string: &str, char_map: &CharMap) -> (r: Result<
    Vec<Vec<bool>>,
    TableReadError,
>)
    ensures
        !all_mapped(text_lines(string@), char_map@) ==> (r matches Err(
            TableReadError::InvalidCharacter(c),
        ) && exists|i: int, j: int|
            first_unmapped(text_lines(string@), char_map@, i, j) && text_lines(string@)[i][j]
                == c),
        all_mapped(text_lines(string@), char_map@) && ragged(text_lines(string@)) ==> r == Err::<
            Vec<Vec<bool>>,
            _,
        >(TableReadError::RaggedTable()),
        all_mapped(text_lines(string@), char_map@) && !ragged(text_lines(string@)) ==> (r matches Ok(
            t,
        ) && t@.len() == text_lines(string@).len() && forall|i: int|
            0 <= i < t@.len() ==> #[trigger] t@[i]@ == text_lines(string@)[i].map_values(
                |c: char| char_map@[c],
            )),
{
    let lines = split_lines(string);
    let ghost ls = text_lines(string@);
    let ghost m = char_map@;
    let mut table: Vec<Vec<bool>> = Vec::new();
    let mut i: usize = 0;
    while i < lines.len()
        invariant
            0 <= i <= lines@.len(),
            ls == text_lines(string@),
            m == char_map@,
            lines@.len() == ls.len(),
            forall|a: int| 0 <= a < lines@.len() ==> #[trigger] lines@[a]@ == ls[a],
            table@.len() == i,
            forall|a: int, b: int|
                0 <= a < i && 0 <= b < ls[a].len() ==> m.contains_key(#[trigger] ls[a][b]),
            forall|a: int| 0 <= a < i ==> #[trigger] table@[a]@ == ls[a].map_values(|c: char| m[c]),
        decreases lines@.len() - i,
    {
        let line = &lines[i];
        let mut row: Vec<bool> = Vec::new();
        let mut j: usize = 0;
        while j < line.len()
            invariant
                0 <= i < lines@.len(),
                0 <= j <= line@.len(),
                lines@.len() == ls.len(),
                ls == text_lines(string@),
                line@ == ls[i as int],
                m == char_map@,
                forall|a: int, b: int|
                    0 <= a < i && 0 <= b < ls[a].len() ==> m.contains_key(#[trigger] ls[a][b]),
                row@.len() == j,
                forall|b: int| 0 <= b < j ==> m.contains_key(#[trigger] ls[i as int][b]),
                forall|b: int| 0 <= b < j ==> #[trigger] row@[b] == m[ls[i as int][b]],
            decreases line@.len() - j,
        {
            let c = line[j];
            match char_map.get(c) {
                Some(v) => row.push(v),
                None => {
                    proof {
                        assert(first_unmapped(ls, m, i as int, j as int));
                        assert(!m.contains_key(ls[i as int][j as int]));
                        assert(!all_mapped(ls, m));
                    }
                    return Err(TableReadError::InvalidCharacter(c));
                },
            }
            j += 1;
        }
        proof {
            assert(row@ =~= ls[i as int].map_values(|c: char| m[c]));
        }
        table.push(row);
        i += 1;
    }
    assert(all_mapped(ls, m));
    if table.len() > 0 {
        let cols = table[0].len();
        let mut a: usize = 0;
        while a < table.len()
            invariant
                0 <= a <= table@.len(),
                table@.len() == ls.len(),
                table@.len() > 0,
                m == char_map@,
                ls == text_lines(string@),
                all_mapped(ls, m),
                forall|x: int| 0 <= x < table@.len() ==> #[trigger] table@[x]@ == ls[x].map_values(
                    |c: char| m[c],
                ),
                cols == ls[0].len(),
                forall|x: int| 0 <= x < table@.len() ==> #[trigger] table@[x]@.len() == ls[x].len(),
                forall|x: int| 0 <= x < a ==> (#[trigger] ls[x]).len() == cols,
            decreases table@.len() - a,
        {
            if table[a].len() != cols {
                proof {
                    assert(ls[a as int].len() != ls[0].len());
                    assert(ragged(ls));
                }
                return Err(TableReadError::RaggedTable());
            }
            a += 1;
        }
    }
    assert(!ragged(ls));
    Ok(table)
}

} // verus!
