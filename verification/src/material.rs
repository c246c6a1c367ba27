//! The material of a position: how many pieces of each kind each side has
//! beside its king.
use crate::constants::MAX_PIECES;
use crate::error::SyzygyError;
use crate::piece::Color;
use std::str::FromStr;
use vstd::prelude::*;
use vstd::string::is_ascii_spec_bytes;

verus! {

/// The counts of the queens, rooks, bishops, knights and pawns of each side,
/// in this order. The two kings are understood.
#[derive(Copy, Clone, Debug, PartialEq, Eq, Hash, Default)]
pub struct Material {
    pub white: [u8; 5],
    pub black: [u8; 5],
}

/// The sum of five counts.
pub open spec fn total(counts: [u8; 5]) -> int {
    counts[0] + counts[1] + counts[2] + counts[3] + counts[4]
}

/// Whether `a` comes before `b` where they first differ: the first count in
/// which they differ is the greater in `a`.
pub open spec fn leads(a: [u8; 5], b: [u8; 5]) -> bool {
    exists|k: int|
        0 <= k < 5 && #[trigger] a[k] > b[k] && forall|i: int| 0 <= i < k ==> a[i] == b[i]
}

/// Whether the two rows of counts are the same.
pub open spec fn same_counts(a: [u8; 5], b: [u8; 5]) -> bool {
    forall|i: int| 0 <= i < 5 ==> a[i] == b[i]
}

impl Material {
    /// The number of men, the two kings included.
    pub open spec fn men(self) -> int {
        total(self.white) + total(self.black) + 2
    }

    /// A material that a table can exist for: no more men than `MAX_PIECES`.
    pub open spec fn wf(self) -> bool {
        self.men() <= MAX_PIECES
    }

    /// Both sides have the same pieces.
    pub open spec fn symmetric(self) -> bool {
        same_counts(self.white, self.black)
    }

    /// White is the stronger side: it has more pieces, or as many and the
    /// more valuable ones, or the same.
    pub open spec fn canonical(self) -> bool {
        ||| total(self.white) > total(self.black)
        ||| total(self.white) == total(self.black) && leads(self.white, self.black)
        ||| self.symmetric()
    }

    /// The material with the colours exchanged.
    pub open spec fn flipped(self) -> Material {
        Material { white: self.black, black: self.white }
    }

    /// The number of pieces of `kind`, from 0 for pawns to 4 for queens, that `color` has.
    pub open spec fn count_of(self, color: Color, kind: int) -> int {
        match color {
            Color::White => self.white[4 - kind] as int,
            Color::Black => self.black[4 - kind] as int,
        }
    }

    /// The number of pawns on the board.
    pub open spec fn pawns(self) -> int {
        self.white[4] + self.black[4]
    }

    /// A number that stands for the material: the ten counts, four bits each.
    pub open spec fn key_of(self) -> int {
        row_key(self.white) * 0x100000 + row_key(self.black)
    }

    /// The material of two bare kings.
    pub fn empty() -> (r: Material)
        ensures
            r.men() == 2,
            r.wf(),
            r.symmetric(),
            total(r.white) == 0,
            total(r.black) == 0,
    {
        Material { white: [0, 0, 0, 0, 0], black: [0, 0, 0, 0, 0] }
    }

    /// The material with the given counts of queens, rooks, bishops, knights
    /// and pawns, unless it has more men than `MAX_PIECES`.
    pub fn new(white: [u8; 5], black: [u8; 5]) -> (r: Option<Material>)
        ensures
            r is Some <==> total(white) + total(black) + 2 <= MAX_PIECES,
            r matches Some(m) ==> m.white == white && m.black == black && m.wf(),
    {
        let all: u16 = sum(&white) + sum(&black) + 2;
        if all <= MAX_PIECES as u16 {
            Some(Material { white, black })
        } else {
            None
        }
    }

    /// The number of pieces of `kind`, from 0 for pawns to 4 for queens, that `color` has.
    pub fn get(&self, color: Color, kind: u8) -> (r: u8)
        requires
            kind < 5,
        ensures
            r == self.count_of(color, kind as int),
    {
        match color {
            Color::White => self.white[4 - kind as usize],
            Color::Black => self.black[4 - kind as usize],
        }
    }

    /// Whether both sides have the same pieces.
    pub fn is_symmetric(&self) -> (r: bool)
        ensures
            r == self.symmetric(),
    {
        self.white[0] == self.black[0] && self.white[1] == self.black[1] && self.white[2]
            == self.black[2] && self.white[3] == self.black[3] && self.white[4] == self.black[4]
    }

    /// Whether white is the stronger side, as the tables have it.
    pub fn is_canonical(&self) -> (r: bool)
        ensures
            r == self.canonical(),
    {
        let white: u16 = sum(&self.white);
        let black: u16 = sum(&self.black);
        if white > black {
            return true;
        }
        if white < black {
            return false;
        }
        let mut p: usize = 0;
        while p < 5
            invariant
                p <= 5,
                total(self.white) == total(self.black),
                forall|i: int| 0 <= i < p ==> self.white[i] == self.black[i],
            decreases 5 - p,
        {
            if self.white[p] > self.black[p] {
                return true;
            }
            if self.white[p] < self.black[p] {
                proof {
                    lemma_first_difference(self.white, self.black, p as int);
                }
                return false;
            }
            p += 1;
        }
        true
    }

    /// The material with the colours exchanged.
    pub fn flip(self) -> (r: Material)
        ensures
            r == self.flipped(),
    {
        Material { white: self.black, black: self.white }
    }

    /// The number of men, the two kings included.
    pub fn count(&self) -> (r: u8)
        requires
            self.wf(),
        ensures
            r == self.men(),
    {
        (sum(&self.white) + sum(&self.black) + 2) as u8
    }

    /// Whether there is a pawn on the board.
    pub fn has_pawns(&self) -> (r: bool)
        ensures
            r == (self.pawns() > 0),
    {
        self.white[4] > 0 || self.black[4] > 0
    }

    /// The number under which the tables are kept.
    pub fn key(&self) -> (r: u64)
        requires
            self.wf(),
        ensures
            r == self.key_of(),
    {
        pack(&self.white) * 0x100000 + pack(&self.black)
    }
}

/// Five counts in one number, four bits each.
pub open spec fn row_key(counts: [u8; 5]) -> int {
    counts[0] * 0x10000 + counts[1] * 0x1000 + counts[2] * 0x100 + counts[3] * 0x10 + counts[4]
}

/// The sum of five counts.
fn sum(counts: &[u8; 5]) -> (r: u16)
    ensures
        r == total(*counts),
{
    counts[0] as u16 + counts[1] as u16 + counts[2] as u16 + counts[3] as u16 + counts[4] as u16
}

/// Five counts in one number, four bits each.
fn pack(counts: &[u8; 5]) -> (r: u64)
    ensures
        r == row_key(*counts),
        r <= 0xFF * 0x11111,
{
    counts[0] as u64 * 0x10000 + counts[1] as u64 * 0x1000 + counts[2] as u64 * 0x100
        + counts[3] as u64 * 0x10 + counts[4] as u64
}

/// Where the first difference of two rows goes against `a`, `a` does not lead,
/// and the rows are not the same.
proof fn lemma_first_difference(a: [u8; 5], b: [u8; 5], p: int)
    requires
        0 <= p < 5,
        a[p] < b[p],
        forall|i: int| 0 <= i < p ==> a[i] == b[i],
    ensures
        !leads(a, b),
        !same_counts(a, b),
        leads(b, a),
{
    assert(b[p] > a[p]);
}

/// Of two rows of counts one leads the other, or they are the same.
pub proof fn lemma_rows_comparable(a: [u8; 5], b: [u8; 5])
    ensures
        leads(a, b) || leads(b, a) || same_counts(a, b),
{
    if a[0] != b[0] {
        assert(a[0] > b[0] || b[0] > a[0]);
    } else if a[1] != b[1] {
        assert(a[1] > b[1] || b[1] > a[1]);
    } else if a[2] != b[2] {
        assert(a[2] > b[2] || b[2] > a[2]);
    } else if a[3] != b[3] {
        assert(a[3] > b[3] || b[3] > a[3]);
    } else if a[4] != b[4] {
        assert(a[4] > b[4] || b[4] > a[4]);
    }
}

/// Every material is canonical, or becomes so when the colours are exchanged.
pub proof fn lemma_canonical_or_flipped(m: Material)
    ensures
        m.canonical() || m.flipped().canonical(),
{
    lemma_rows_comparable(m.white, m.black);
}

/// Exchanging the colours twice gives the material back, and exchanging them
/// keeps the number of men.
pub proof fn lemma_flip_involution(m: Material)
    ensures
        m.flipped().flipped() == m,
        m.flipped().men() == m.men(),
        m.flipped().wf() == m.wf(),
        m.flipped().symmetric() == m.symmetric(),
{
}

/// A symmetric material is its own mirror image, and it is canonical.
pub proof fn lemma_symmetric_flip(m: Material)
    requires
        m.symmetric(),
    ensures
        m.flipped() == m,
        m.canonical(),
{
    assert(m.white@ =~= m.black@);
    assert(m.white == m.black);
}

/// Two numbers with the same five hexadecimal digits in the same places are
/// written with the same digits.
proof fn lemma_digits(a0: int, a1: int, a2: int, a3: int, a4: int, b0: int, b1: int, b2: int, b3: int, b4: int)
    requires
        0 <= a0 <= 15 && 0 <= a1 <= 15 && 0 <= a2 <= 15 && 0 <= a3 <= 15 && 0 <= a4 <= 15,
        0 <= b0 <= 15 && 0 <= b1 <= 15 && 0 <= b2 <= 15 && 0 <= b3 <= 15 && 0 <= b4 <= 15,
        a0 * 0x10000 + a1 * 0x1000 + a2 * 0x100 + a3 * 0x10 + a4 == b0 * 0x10000 + b1 * 0x1000
            + b2 * 0x100 + b3 * 0x10 + b4,
    ensures
        a0 == b0 && a1 == b1 && a2 == b2 && a3 == b3 && a4 == b4,
{
    assert(a4 - b4 == 16 * ((b0 - a0) * 0x1000 + (b1 - a1) * 0x100 + (b2 - a2) * 0x10 + (b3
        - a3)));
    assert(a4 == b4);
    assert(a3 - b3 == 16 * ((b0 - a0) * 0x100 + (b1 - a1) * 0x10 + (b2 - a2)));
    assert(a3 == b3);
    assert(a2 - b2 == 16 * ((b0 - a0) * 0x10 + (b1 - a1)));
    assert(a2 == b2);
    assert(a1 - b1 == 16 * (b0 - a0));
    assert(a1 == b1);
}

/// Materials with the same key are the same.
pub proof fn lemma_key_injective(a: Material, b: Material)
    requires
        a.wf(),
        b.wf(),
        a.key_of() == b.key_of(),
    ensures
        a == b,
{
    let ka = row_key(a.white);
    let kb = row_key(b.white);
    let la = row_key(a.black);
    let lb = row_key(b.black);
    assert(0 <= la < 0x100000 && 0 <= lb < 0x100000);
    assert(la - lb == 0x100000 * (kb - ka));
    assert(ka == kb);
    lemma_digits(
        a.white[0] as int,
        a.white[1] as int,
        a.white[2] as int,
        a.white[3] as int,
        a.white[4] as int,
        b.white[0] as int,
        b.white[1] as int,
        b.white[2] as int,
        b.white[3] as int,
        b.white[4] as int,
    );
    lemma_digits(
        a.black[0] as int,
        a.black[1] as int,
        a.black[2] as int,
        a.black[3] as int,
        a.black[4] as int,
        b.black[0] as int,
        b.black[1] as int,
        b.black[2] as int,
        b.black[3] as int,
        b.black[4] as int,
    );
    assert(a.white@ =~= b.white@);
    assert(a.black@ =~= b.black@);
    assert(a.white == b.white);
    assert(a.black == b.black);
}

/// The place of the piece that the letter `c` stands for, among queen, rook,
/// bishop, knight and pawn; capital and small letters count alike.
pub open spec fn piece_slot(c: char) -> Option<int> {
    if c == 'Q' || c == 'q' {
        Some(0)
    } else if c == 'R' || c == 'r' {
        Some(1)
    } else if c == 'B' || c == 'b' {
        Some(2)
    } else if c == 'N' || c == 'n' {
        Some(3)
    } else if c == 'P' || c == 'p' {
        Some(4)
    } else {
        None
    }
}

/// Whether the letter stands for a king.
pub open spec fn is_king(c: char) -> bool {
    c == 'K' || c == 'k'
}

/// Whether the letter parts the white pieces from the black ones.
pub open spec fn is_separator(c: char) -> bool {
    c == 'v' || c == 'V'
}

/// The place of the first separator from `i` on, or the length of the text.
pub open spec fn separator_from(s: Seq<char>, i: int) -> int
    decreases s.len() - i,
{
    if i < 0 || i >= s.len() {
        s.len() as int
    } else if is_separator(s[i]) {
        i
    } else {
        separator_from(s, i + 1)
    }
}

/// The letters before the first separator.
pub open spec fn white_part(s: Seq<char>) -> Seq<char> {
    s.take(separator_from(s, 0))
}

/// The letters behind the first separator.
pub open spec fn black_part(s: Seq<char>) -> Seq<char> {
    if separator_from(s, 0) < s.len() {
        s.skip(separator_from(s, 0) + 1)
    } else {
        Seq::empty()
    }
}

/// Whether every letter stands for a piece.
pub open spec fn letters_ok(s: Seq<char>) -> bool {
    forall|i: int| 0 <= i < s.len() ==> piece_slot(#[trigger] s[i]) is Some || is_king(s[i])
}

/// The number of letters in `s` that stand for the piece at `slot`.
pub open spec fn count_in(s: Seq<char>, slot: int) -> int
    decreases s.len(),
{
    if s.len() == 0 {
        0
    } else {
        count_in(s.drop_last(), slot) + if piece_slot(s.last()) == Some(slot) {
            1int
        } else {
            0int
        }
    }
}

/// The number of letters in `s` that stand for a piece other than a king.
pub open spec fn pieces_in(s: Seq<char>) -> int {
    count_in(s, 0) + count_in(s, 1) + count_in(s, 2) + count_in(s, 3) + count_in(s, 4)
}

/// Whether `s` names a material: pieces, a separator, pieces, and no more
/// men than `MAX_PIECES`. Kings may be written or left out.
pub open spec fn names_material(s: Seq<char>) -> bool {
    &&& letters_ok(white_part(s))
    &&& letters_ok(black_part(s))
    &&& pieces_in(white_part(s)) + pieces_in(black_part(s)) + 2 <= MAX_PIECES
}

/// Whether `m` is the material that `s` names.
pub open spec fn is_named(m: Material, s: Seq<char>) -> bool {
    &&& forall|slot: int| 0 <= slot < 5 ==> #[trigger] m.white[slot] == count_in(white_part(s), slot)
    &&& forall|slot: int| 0 <= slot < 5 ==> #[trigger] m.black[slot] == count_in(black_part(s), slot)
}

/// The material that `s` names.
pub open spec fn named_material(s: Seq<char>) -> Material {
    choose|m: Material| is_named(m, s)
}

/// A text names one material.
pub proof fn lemma_named_unique(a: Material, b: Material, s: Seq<char>)
    requires
        is_named(a, s),
        is_named(b, s),
    ensures
        a == b,
{
    assert forall|i: int| 0 <= i < 5 implies a.white[i] == b.white[i] by {
        assert(a.white[i] == count_in(white_part(s), i));
        assert(b.white[i] == count_in(white_part(s), i));
    }
    assert forall|i: int| 0 <= i < 5 implies a.black[i] == b.black[i] by {
        assert(a.black[i] == count_in(black_part(s), i));
        assert(b.black[i] == count_in(black_part(s), i));
    }
    assert(a.white@ =~= b.white@);
    assert(a.black@ =~= b.black@);
    assert(a.white == b.white);
    assert(a.black == b.black);
}

/// `n` times the letter `c`.
pub open spec fn repeated(c: char, n: int) -> Seq<char> {
    Seq::new(n as nat, |i: int| c)
}

/// The pieces of one side as letters, queens first and pawns last.
pub open spec fn row_text(counts: [u8; 5]) -> Seq<char> {
    repeated('Q', counts[0] as int) + repeated('R', counts[1] as int) + repeated(
        'B',
        counts[2] as int,
    ) + repeated('N', counts[3] as int) + repeated('P', counts[4] as int)
}

/// The name of the material: `K`, the white pieces, `vK`, the black pieces.
pub open spec fn material_text(m: Material) -> Seq<char> {
    seq!['K'] + row_text(m.white) + seq!['v', 'K'] + row_text(m.black)
}

/// Whether `bytes` spells the ASCII text `chars`, a byte for each letter.
pub open spec fn spelled(chars: Seq<char>, bytes: Seq<u8>) -> bool {
    &&& chars.len() == bytes.len()
    &&& forall|i: int|
        0 <= i < chars.len() ==> (#[trigger] chars[i]) <= '\u{7f}' && bytes[i] == chars[i] as u8
}

/// The place of the piece that the ASCII letter `b` stands for; 5 for a
/// king, 6 for a letter that stands for no piece.
fn letter_slot(b: u8, Ghost(c): Ghost<char>) -> (r: usize)
    requires
        c <= '\u{7f}',
        b == c as u8,
    ensures
        r <= 6,
        r < 5 <==> piece_slot(c) is Some,
        r < 5 ==> piece_slot(c) == Some(r as int),
        r == 5 <==> piece_slot(c) is None && is_king(c),
{
    if b == 81 || b == 113 {
        0
    } else if b == 82 || b == 114 {
        1
    } else if b == 66 || b == 98 {
        2
    } else if b == 78 || b == 110 {
        3
    } else if b == 80 || b == 112 {
        4
    } else if b == 75 || b == 107 {
        5
    } else {
        6
    }
}

/// The counts of the pieces that the letters from `from` up to `to` stand
/// for, or `None` where a letter stands for none.
fn count_row(bytes: &[u8], from: usize, to: usize, Ghost(chars): Ghost<Seq<char>>) -> (r: Option<
    [usize; 5],
>)
    requires
        from <= to <= bytes@.len(),
        spelled(chars, bytes@),
    ensures
        r is Some <==> letters_ok(chars.subrange(from as int, to as int)),
        r matches Some(counts) ==> forall|slot: int|
            0 <= slot < 5 ==> #[trigger] counts[slot] == count_in(
                chars.subrange(from as int, to as int),
                slot,
            ),
        r matches Some(counts) ==> counts[0] + counts[1] + counts[2] + counts[3] + counts[4] <= to
            - from,
{
    let mut counts: [usize; 5] = [0, 0, 0, 0, 0];
    let mut i: usize = from;
    while i < to
        invariant
            from <= i <= to <= bytes@.len(),
            spelled(chars, bytes@),
            letters_ok(chars.subrange(from as int, i as int)),
            forall|slot: int|
                0 <= slot < 5 ==> #[trigger] counts[slot] == count_in(
                    chars.subrange(from as int, i as int),
                    slot,
                ),
            counts[0] + counts[1] + counts[2] + counts[3] + counts[4] <= i - from,
        decreases to - i,
    {
        let ghost c = chars[i as int];
        let slot: usize = letter_slot(bytes[i], Ghost(c));
        let ghost next = chars.subrange(from as int, i + 1);
        proof {
            assert(next.drop_last() =~= chars.subrange(from as int, i as int));
            assert(next.last() == c);
        }
        if slot == 6 {
            proof {
                let whole = chars.subrange(from as int, to as int);
                assert(whole[i - from] == c);
            }
            return None;
        }
        if slot < 5 {
            counts[slot] = counts[slot] + 1;
        }
        proof {
            assert forall|k: int| 0 <= k < next.len() implies piece_slot(#[trigger] next[k]) is Some
                || is_king(next[k]) by {
                if k < next.len() - 1 {
                    assert(next[k] == chars.subrange(from as int, i as int)[k]);
                }
            }
        }
        i += 1;
    }
    Some(counts)
}

/// The sum of five counts.
fn sum_row(counts: &[usize; 5]) -> (r: usize)
    requires
        counts[0] + counts[1] + counts[2] + counts[3] + counts[4] <= usize::MAX,
    ensures
        r == counts[0] + counts[1] + counts[2] + counts[3] + counts[4],
{
    counts[0] + counts[1] + counts[2] + counts[3] + counts[4]
}

impl Material {
    /// The material that `s` names.
    pub fn parse(s: &str) -> (r: Result<Material, SyzygyError>)
        ensures
            r is Ok <==> names_material(s@),
            r matches Ok(m) ==> is_named(m, s@) && m.wf() && m == named_material(s@),
            r matches Err(e) ==> e is UnknownMaterial,
    {
        let ghost chars = s@;
        if !s.is_ascii() {
            proof {
                lemma_letters_are_ascii(chars);
            }
            return Err(SyzygyError::UnknownMaterial);
        }
        let bytes = s.as_bytes();
        let n: usize = bytes.len();
        proof {
            is_ascii_spec_bytes(s);
            assert(bytes@ =~= Seq::new(chars.len(), |i: int| chars[i] as u8));
            assert forall|i: int| 0 <= i < chars.len() implies chars[i] <= '\u{7f}' && bytes@[i]
                == #[trigger] chars[i] as u8 by {
                assert('\0' <= chars[i] <= '\u{7f}');
            }
            assert(spelled(chars, bytes@));
        }
        let mut cut: usize = 0;
        while cut < n && bytes[cut] != 118 && bytes[cut] != 86
            invariant
                cut <= n,
                n == bytes@.len(),
                spelled(chars, bytes@),
                separator_from(chars, 0) == separator_from(chars, cut as int),
            decreases n - cut,
        {
            cut += 1;
        }
        assert(separator_from(chars, 0) == cut);
        let white = match count_row(bytes, 0, cut, Ghost(chars)) {
            Some(counts) => counts,
            None => {
                return Err(SyzygyError::UnknownMaterial);
            },
        };
        let start: usize = if cut < n {
            cut + 1
        } else {
            n
        };
        assert(black_part(chars) =~= chars.subrange(start as int, n as int));
        let black = match count_row(bytes, start, n, Ghost(chars)) {
            Some(counts) => counts,
            None => {
                return Err(SyzygyError::UnknownMaterial);
            },
        };
        proof {
            lemma_counts_bounded(white_part(chars));
            lemma_counts_bounded(black_part(chars));
        }
        let white_pieces: usize = sum_row(&white);
        let black_pieces: usize = sum_row(&black);
        if white_pieces > MAX_PIECES || black_pieces > MAX_PIECES || white_pieces + black_pieces
            + 2 > MAX_PIECES {
            return Err(SyzygyError::UnknownMaterial);
        }
        let m = Material {
            white: [
                white[0] as u8,
                white[1] as u8,
                white[2] as u8,
                white[3] as u8,
                white[4] as u8,
            ],
            black: [
                black[0] as u8,
                black[1] as u8,
                black[2] as u8,
                black[3] as u8,
                black[4] as u8,
            ],
        };
        proof {
            assert(is_named(m, chars));
            lemma_named_unique(m, named_material(chars), chars);
        }
        Ok(m)
    }

    /// The name of the material: `K`, the white pieces, `vK`, the black
    /// pieces, each side with its queens first and its pawns last.
    pub fn to_string(&self) -> (r: String)
        ensures
            r@ == material_text(*self),
    {
        let mut out = String::new();
        proof {
            reveal_strlit("K");
            reveal_strlit("vK");
        }
        out.append("K");
        append_row(&mut out, &self.white);
        out.append("vK");
        append_row(&mut out, &self.black);
        assert(out@ =~= material_text(*self));
        out
    }
}

impl FromStr for Material {
    type Err = SyzygyError;

    /// The material that `s` names; the same as `Material::parse`.
    fn from_str(s: &str) -> (r: Result<Material, SyzygyError>)
        ensures
            r is Ok <==> names_material(s@),
            r matches Ok(m) ==> is_named(m, s@) && m.wf() && m == named_material(s@),
            r matches Err(e) ==> e is UnknownMaterial,
    {
        Material::parse(s)
    }
}

/// Appends `n` times the letter that `letter` holds.
fn append_repeated(out: &mut String, letter: &str, n: u8, Ghost(c): Ghost<char>)
    requires
        letter@ == seq![c],
    ensures
        final(out)@ == old(out)@ + repeated(c, n as int),
{
    let mut i: u8 = 0;
    assert(out@ =~= old(out)@ + repeated(c, 0));
    while i < n
        invariant
            i <= n,
            letter@ == seq![c],
            out@ == old(out)@ + repeated(c, i as int),
        decreases n - i,
    {
        out.append(letter);
        assert(out@ =~= old(out)@ + repeated(c, i + 1));
        i += 1;
    }
}

/// Appends the pieces of one side as letters.
fn append_row(out: &mut String, counts: &[u8; 5])
    ensures
        final(out)@ == old(out)@ + row_text(*counts),
{
    proof {
        reveal_strlit("Q");
        reveal_strlit("R");
        reveal_strlit("B");
        reveal_strlit("N");
        reveal_strlit("P");
        assert("Q"@ =~= seq!['Q']);
        assert("R"@ =~= seq!['R']);
        assert("B"@ =~= seq!['B']);
        assert("N"@ =~= seq!['N']);
        assert("P"@ =~= seq!['P']);
    }
    append_repeated(out, "Q", counts[0], Ghost('Q'));
    append_repeated(out, "R", counts[1], Ghost('R'));
    append_repeated(out, "B", counts[2], Ghost('B'));
    append_repeated(out, "N", counts[3], Ghost('N'));
    append_repeated(out, "P", counts[4], Ghost('P'));
    assert(out@ =~= old(out)@ + row_text(*counts));
}

/// A text with a letter beyond ASCII names no material.
proof fn lemma_letters_are_ascii(s: Seq<char>)
    requires
        !vstd::utf8::is_ascii_chars(s),
    ensures
        !names_material(s),
{
    let i = choose|i: int| 0 <= i < s.len() && !('\0' <= #[trigger] s[i] <= '\u{7f}');
    let cut = separator_from(s, 0);
    lemma_separator(s, 0);
    if i < cut {
        assert(white_part(s)[i] == s[i]);
    } else {
        assert(i > cut);
        assert(black_part(s)[i - cut - 1] == s[i]);
    }
}

/// The first separator from `i` on lies at or behind `i`, and no letter
/// between is one.
pub proof fn lemma_separator(s: Seq<char>, i: int)
    requires
        0 <= i <= s.len(),
    ensures
        i <= separator_from(s, i) <= s.len(),
        separator_from(s, i) < s.len() ==> is_separator(s[separator_from(s, i)]),
        forall|k: int| i <= k < separator_from(s, i) ==> !is_separator(#[trigger] s[k]),
    decreases s.len() - i,
{
    if i < s.len() && !is_separator(s[i]) {
        lemma_separator(s, i + 1);
    }
}

/// No piece is counted more often than there are letters, and where every
/// letter stands for a piece or a king, the letters are at least the pieces.
pub proof fn lemma_counts_bounded(s: Seq<char>)
    ensures
        forall|slot: int| 0 <= slot < 5 ==> 0 <= #[trigger] count_in(s, slot) <= s.len(),
        0 <= pieces_in(s) <= s.len(),
    decreases s.len(),
{
    if s.len() > 0 {
        lemma_counts_bounded(s.drop_last());
        assert forall|slot: int| 0 <= slot < 5 implies 0 <= #[trigger] count_in(s, slot)
            <= s.len() by {
            assert(0 <= count_in(s.drop_last(), slot) <= s.drop_last().len());
        }
    } else {
        assert forall|slot: int| 0 <= slot < 5 implies 0 <= #[trigger] count_in(s, slot)
            <= s.len() by {}
    }
}

/// The count of a piece in two texts put together is the sum of its counts in each.
pub proof fn lemma_count_concat(a: Seq<char>, b: Seq<char>, slot: int)
    ensures
        count_in(a + b, slot) == count_in(a, slot) + count_in(b, slot),
    decreases b.len(),
{
    if b.len() == 0 {
        assert(a + b =~= a);
    } else {
        lemma_count_concat(a, b.drop_last(), slot);
        assert((a + b).drop_last() =~= a + b.drop_last());
        assert((a + b).last() == b.last());
    }
}

/// A letter written `n` times counts `n` times for its piece and not at all for another.
pub proof fn lemma_count_repeated(c: char, n: int, slot: int)
    requires
        0 <= n,
    ensures
        count_in(repeated(c, n), slot) == if piece_slot(c) == Some(slot) {
            n
        } else {
            0
        },
    decreases n,
{
    if n > 0 {
        lemma_count_repeated(c, n - 1, slot);
        assert(repeated(c, n).drop_last() =~= repeated(c, n - 1));
        assert(repeated(c, n).last() == c);
    }
}

/// The letters of one side count, for each piece, as many as the side has of it.
pub proof fn lemma_count_row(counts: [u8; 5], slot: int)
    requires
        0 <= slot < 5,
    ensures
        count_in(seq!['K'] + row_text(counts), slot) == counts[slot],
        letters_ok(seq!['K'] + row_text(counts)),
        forall|i: int|
            0 <= i < (seq!['K'] + row_text(counts)).len() ==> !is_separator(
                #[trigger] (seq!['K'] + row_text(counts))[i],
            ),
        (seq!['K'] + row_text(counts)).len() == 1 + total(counts),
{
    let q = repeated('Q', counts[0] as int);
    let r = repeated('R', counts[1] as int);
    let b = repeated('B', counts[2] as int);
    let n = repeated('N', counts[3] as int);
    let p = repeated('P', counts[4] as int);
    let k = seq!['K'];
    lemma_count_repeated('Q', counts[0] as int, slot);
    lemma_count_repeated('R', counts[1] as int, slot);
    lemma_count_repeated('B', counts[2] as int, slot);
    lemma_count_repeated('N', counts[3] as int, slot);
    lemma_count_repeated('P', counts[4] as int, slot);
    lemma_count_concat(q, r, slot);
    lemma_count_concat(q + r, b, slot);
    lemma_count_concat(q + r + b, n, slot);
    lemma_count_concat(q + r + b + n, p, slot);
    lemma_count_concat(k, row_text(counts), slot);
    lemma_count_repeated('K', 1, slot);
    assert(k =~= repeated('K', 1));
}

/// In the name of a material the first separator stands behind the white pieces.
proof fn lemma_text_separator(head: Seq<char>, tail: Seq<char>, i: int)
    requires
        0 <= i <= head.len(),
        forall|k: int| 0 <= k < head.len() ==> !is_separator(#[trigger] head[k]),
        tail.len() > 0,
        is_separator(tail[0]),
    ensures
        separator_from(head + tail, i) == head.len(),
    decreases head.len() - i,
{
    if i < head.len() {
        assert((head + tail)[i] == head[i]);
        lemma_text_separator(head, tail, i + 1);
    } else {
        assert((head + tail)[i] == tail[0]);
    }
}

/// The name that is written for a material names that material: reading
/// what `to_string` wrote gives the material back.
pub proof fn lemma_parse_format(m: Material)
    requires
        m.wf(),
    ensures
        names_material(material_text(m)),
        is_named(m, material_text(m)),
        named_material(material_text(m)) == m,
{
    let text = material_text(m);
    let head = seq!['K'] + row_text(m.white);
    let back = seq!['K'] + row_text(m.black);
    let tail = seq!['v'] + back;
    assert(text =~= head + tail);
    lemma_count_row(m.white, 0);
    lemma_count_row(m.black, 0);
    lemma_text_separator(head, tail, 0);
    assert(white_part(text) =~= head);
    assert(black_part(text) =~= back);
    assert forall|slot: int| 0 <= slot < 5 implies #[trigger] m.white[slot] == count_in(
        white_part(text),
        slot,
    ) by {
        lemma_count_row(m.white, slot);
    }
    assert forall|slot: int| 0 <= slot < 5 implies #[trigger] m.black[slot] == count_in(
        black_part(text),
        slot,
    ) by {
        lemma_count_row(m.black, slot);
    }
    lemma_count_row(m.white, 1);
    lemma_count_row(m.white, 2);
    lemma_count_row(m.white, 3);
    lemma_count_row(m.white, 4);
    lemma_count_row(m.black, 1);
    lemma_count_row(m.black, 2);
    lemma_count_row(m.black, 3);
    lemma_count_row(m.black, 4);
    assert(pieces_in(white_part(text)) == total(m.white));
    assert(pieces_in(black_part(text)) == total(m.black));
    assert(is_named(m, text));
    lemma_named_unique(m, named_material(text), text);
}

} // verus!
