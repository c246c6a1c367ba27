//! Tables for material without pawns.
use crate::constants::{
    DIAGONAL, FLIP_DIAGONAL, KK_INDEX, LOWER, MAX_PIECES, OFF_DIAGONAL, TRIANGLE,
};
use crate::material::Material;
use crate::pairs::{
    header_len, header_ok, header_sizes, header_view, lookup_value, PairsData, Sizes,
};
use crate::piece::{Color, ColoredPiece};
use crate::position::{mover, to_move};
use crate::stream::{padding, Cursor, DataStream};
use crate::table::{
    add_groups, fill_norm, files_flipped, flip_files, flip_ranks, gather, gather_squares,
    groups_index, half, header_pieces, header_pieces_ok, norm_from, on_board, placements,
    ranks_flipped, read_pieces, read_stream_tables, side_sizes, skip_checked, stored_value,
    subfactor, tables_at, with_tables, Head, Side, TableView,
};
use crate::wdl::Wdl;
use cozy_chess::Board;
use vstd::prelude::*;

verus! {

/// How the leading pieces of a table without pawns are numbered.
#[derive(Copy, Clone, Debug, PartialEq, Eq, Structural)]
pub enum EncodingType {
    /// Three pieces lead, each the only one of its kind.
    Zero,
    /// Two pieces lead: the kings.
    Two,
}

impl EncodingType {
    /// The number of leading pieces.
    pub open spec fn lead(self) -> int {
        match self {
            EncodingType::Zero => 3,
            EncodingType::Two => 2,
        }
    }

    /// The number of placements of the leading pieces.
    pub open spec fn pivot_factor(self) -> int {
        match self {
            EncodingType::Zero => 31332,
            EncodingType::Two => 462,
        }
    }

    /// The number of leading pieces.
    pub fn lead_count(self) -> (r: usize)
        ensures
            r == self.lead(),
    {
        match self {
            EncodingType::Zero => 3,
            EncodingType::Two => 2,
        }
    }
}

/// One of the up to two parts of a table: the positions with one side to move.
pub struct Table {
    /// The pieces in the order in which the index counts them.
    pub pieces: [ColoredPiece; 8],
    /// At the first piece of each group of like pieces, the size of the group.
    pub norm: [u8; 8],
    /// At the first piece of each group, the weight of the group in the index.
    pub factors: [u64; 8],
    /// The compressed values.
    pub pairs_data: PairsData,
}

/// The sizes of the groups: that of the leading group at 0, that of each
/// later run of like pieces at its first piece, and 0 elsewhere.
pub open spec fn norm_of(pieces: Seq<ColoredPiece>, men: int, enc: EncodingType) -> Seq<u8> {
    norm_from(pieces, men, enc.lead(), Seq::new(8, |i: int| 0u8).update(0, enc.lead() as u8))
}

/// The sizes of the groups of like pieces.
pub fn calculate_norm(men: usize, enc: EncodingType, pieces: &[ColoredPiece; 8]) -> (r: [u8; 8])
    requires
        enc.lead() <= men <= MAX_PIECES,
    ensures
        r@ == norm_of(pieces@, men as int, enc),
{
    let mut norm: [u8; 8] = [0, 0, 0, 0, 0, 0, 0, 0];
    norm[0] = enc.lead_count() as u8;
    assert(norm@ =~= Seq::new(8, |i: int| 0u8).update(0, enc.lead() as u8));
    fill_norm(men, enc.lead_count(), pieces, norm)
}

/// The weights of the groups from group number `k` on, and the size of the
/// table. `i` is the place of the next group, `f` the product so far; the
/// leading group is number `order`.
pub open spec fn factors_from(
    norm: Seq<u8>,
    men: int,
    order: int,
    pivot: int,
    k: int,
    i: int,
    f: int,
    factors: Seq<u64>,
) -> Option<(int, Seq<u64>)>
    decreases (if i < men {
        men - i
    } else {
        0int
    }) + (if k <= order {
        1int
    } else {
        0int
    }),
{
    if f > u64::MAX || i < 0 {
        None
    } else if k == order {
        factors_from(norm, men, order, pivot, k + 1, i, f * pivot, factors.update(0, f as u64))
    } else if i < men {
        if norm[i] == 0 || norm[i] > 8 || i >= 8 {
            None
        } else {
            factors_from(
                norm,
                men,
                order,
                pivot,
                k + 1,
                i + norm[i],
                f * placements(norm[i] as int, 64 - i),
                factors.update(i, f as u64),
            )
        }
    } else {
        Some((f, factors))
    }
}

/// The size of the table and the weights of the groups, where the leading
/// group is number `order`; `None` where a group is empty or the size does
/// not fit in 64 bits.
pub open spec fn factors_of(norm: Seq<u8>, men: int, order: int, enc: EncodingType) -> Option<
    (int, Seq<u64>),
> {
    factors_from(
        norm,
        men,
        order,
        enc.pivot_factor(),
        0,
        norm[0] as int,
        1,
        Seq::new(8, |i: int| 0u64),
    )
}

/// The size of the table and the weight of each group in the index.
pub fn calculate_factors(men: usize, order: u8, norm: &[u8; 8], enc: EncodingType) -> (r: Option<
    (u64, [u64; 8]),
>)
    requires
        men <= MAX_PIECES,
    ensures
        r is Some <==> factors_of(norm@, men as int, order as int, enc) is Some,
        r matches Some((size, factors)) ==> factors_of(norm@, men as int, order as int, enc)
            == Some((size as int, factors@)),
{
    let mut factors: [u64; 8] = [0, 0, 0, 0, 0, 0, 0, 0];
    assert(factors@ =~= Seq::new(8, |i: int| 0u64));
    let pivot: u64 = match enc {
        EncodingType::Zero => 31332,
        EncodingType::Two => 462,
    };
    let mut i: usize = norm[0] as usize;
    let mut f: u64 = 1;
    let mut k: usize = 0;
    let ghost goal = factors_of(norm@, men as int, order as int, enc);
    loop
        invariant
            men <= 8,
            pivot == enc.pivot_factor(),
            goal == factors_of(norm@, men as int, order as int, enc),
            i <= 270,
            k + (if i < men {
                men - i
            } else {
                0int
            }) + (if k <= order {
                1int
            } else {
                0int
            }) <= men + 1,
            factors_from(
                norm@,
                men as int,
                order as int,
                pivot as int,
                k as int,
                i as int,
                f as int,
                factors@,
            ) == goal,
        decreases (if i < men {
            men - i
        } else {
            0int
        }) + (if k <= order {
            1int
        } else {
            0int
        }),
    {
        let weight: u64 = if k == order as usize {
            factors[0] = f;
            pivot
        } else if i < men {
            let t: usize = norm[i] as usize;
            if t == 0 || t > 8 {
                return None;
            }
            factors[i] = f;
            let weight: u64 = subfactor(t, 64 - i);
            i += t;
            weight
        } else {
            return Some((f, factors));
        };
        assert(f as u128 * weight as u128 <= 0xFFFF_FFFF_FFFF_FFFF * 0x1000000000000)
            by (nonlinear_arith)
            requires
                f <= 0xFFFF_FFFF_FFFF_FFFF,
                weight <= 0x1000000000000,
        ;
        let product: u128 = f as u128 * weight as u128;
        if product > u64::MAX as u128 {
            assert(factors_from(
                norm@,
                men as int,
                order as int,
                pivot as int,
                k + 1,
                i as int,
                product as int,
                factors@,
            ) is None);
            return None;
        }
        f = product as u64;
        k += 1;
    }
}

/// On which side of the long diagonal the first of the squares from place
/// `i` to `to_check` lies that is not on it: -1, 1, or 0 where all are on it.
pub open spec fn diagonal_side(sq: Seq<u8>, to_check: int, i: int) -> int
    decreases (if i < to_check {
        to_check - i
    } else {
        0int
    }),
{
    if i < 0 || i >= to_check || i >= sq.len() {
        0
    } else if OFF_DIAGONAL[sq[i] as int] != 0 {
        OFF_DIAGONAL[sq[i] as int] as int
    } else {
        diagonal_side(sq, to_check, i + 1)
    }
}

/// The squares mirrored in the long diagonal.
pub open spec fn diagonal_flipped(sq: Seq<u8>) -> Seq<u8> {
    Seq::new(sq.len(), |i: int| FLIP_DIAGONAL[sq[i] as int])
}

/// The squares as the table counts them: mirrored so that the first lies on
/// the files a to d and the ranks 1 to 4, and so that the first of the
/// leading pieces that is off the long diagonal lies below it.
pub open spec fn canonical_squares(enc: EncodingType, sq: Seq<u8>) -> Seq<u8> {
    let a = if sq[0] % 8 > 3 {
        files_flipped(sq)
    } else {
        sq
    };
    let b = if a[0] / 8 > 3 {
        ranks_flipped(a)
    } else {
        a
    };
    if diagonal_side(b, enc.lead(), 0) > 0 {
        diagonal_flipped(b)
    } else {
        b
    }
}

/// What the tables of squares say of one square: its side of the long
/// diagonal, and its numbers in the triangle, on the diagonals and among the
/// pairs of mirrored squares.
pub struct SquareNumbers {
    pub off: int,
    pub triangle: int,
    pub diagonal: int,
    pub lower: int,
}

/// What the tables of squares say of the square `sq`.
pub open spec fn numbers_of(sq: int) -> SquareNumbers {
    SquareNumbers {
        off: OFF_DIAGONAL[sq] as int,
        triangle: TRIANGLE[sq] as int,
        diagonal: DIAGONAL[sq] as int,
        lower: LOWER[sq] as int,
    }
}

/// The number of the placement of three leading pieces on the squares `a`,
/// `b` and `c`, of which the tables say `na`, `nb` and `nc`. The placements
/// are counted in four stretches. With the first piece off the long diagonal
/// there are 62 * 63 for each of its 6 squares; with the first on it and the
/// second off it, 62 * 28 for each of its 4 squares; with the first two on
/// it and the third off it, 28 * 7 for each of the 4; with all three on it,
/// 6 * 7 for each of the 4.
pub open spec fn three_index(
    a: int,
    b: int,
    c: int,
    na: SquareNumbers,
    nb: SquareNumbers,
    nc: SquareNumbers,
) -> Option<int> {
    let i: int = if b > a {
        1
    } else {
        0
    };
    let j: int = (if c > a {
        1int
    } else {
        0int
    }) + (if c > b {
        1int
    } else {
        0int
    });
    if na.off != 0 {
        if c < j {
            None
        } else {
            Some(3906 * na.triangle + 62 * (b - i) + (c - j))
        }
    } else if nb.off != 0 {
        if c < j {
            None
        } else {
            Some(23436 + 1736 * na.diagonal + 62 * nb.lower + (c - j))
        }
    } else if nc.off != 0 {
        if nb.diagonal < i {
            None
        } else {
            Some(
                30380 + 196 * na.diagonal + 28 * (nb.diagonal - i)
                    + nc.lower,
            )
        }
    } else {
        if nb.diagonal < i || nc.diagonal < j {
            None
        } else {
            Some(
                31164 + 42 * na.diagonal + 6 * (nb.diagonal
                    - i) + (nc.diagonal - j),
            )
        }
    }
}

/// The number of the placement of the three leading pieces on `a`, `b` and `c`.
pub open spec fn lead_index_zero(a: int, b: int, c: int) -> Option<int> {
    three_index(a, b, c, numbers_of(a), numbers_of(b), numbers_of(c))
}

/// The number of the placement of the leading pieces; `None` where the
/// tables have no number for it.
pub open spec fn lead_index(enc: EncodingType, sq: Seq<u8>) -> Option<int> {
    match enc {
        EncodingType::Zero => lead_index_zero(sq[0] as int, sq[1] as int, sq[2] as int),
        EncodingType::Two => if TRIANGLE[sq[0] as int] >= 10 || KK_INDEX[TRIANGLE[sq[0] as int] as int][sq[1] as int]
            < 0 {
            None
        } else {
            Some(KK_INDEX[TRIANGLE[sq[0] as int] as int][sq[1] as int] as int)
        },
    }
}

/// The index of the position whose pieces stand on `squares`, in the order of
/// the table's pieces.
pub open spec fn index_of(
    norm: Seq<u8>,
    factors: Seq<u64>,
    enc: EncodingType,
    squares: Seq<u8>,
) -> Option<int> {
    match lead_index(enc, canonical_squares(enc, squares)) {
        None => None,
        Some(lead) => if lead * factors[0] > u64::MAX {
            None
        } else {
            groups_index(
                canonical_squares(enc, squares),
                norm,
                factors,
                enc.lead(),
                lead * factors[0],
            )
        },
    }
}

/// What the tables of squares hold, as far as the index needs it.
pub proof fn lemma_square_tables(sq: int)
    requires
        0 <= sq < 64,
    ensures
        TRIANGLE[sq] < 10,
        FLIP_DIAGONAL[sq] < 64,
        FLIP_DIAGONAL[sq] == 8 * (sq % 8) + sq / 8,
        DIAGONAL[sq] < 16,
        LOWER[sq] < 36,
        -1 <= OFF_DIAGONAL[sq] <= 1,
        OFF_DIAGONAL[sq] == 0 <==> sq % 8 == sq / 8,
        OFF_DIAGONAL[sq] > 0 <==> sq / 8 > sq % 8,
{
}

/// Mirrors every square in the long diagonal.
fn flip_diagonal(squares: &mut Vec<u8>)
    requires
        on_board(old(squares)@),
    ensures
        final(squares)@ == diagonal_flipped(old(squares)@),
        on_board(final(squares)@),
{
    let n: usize = squares.len();
    let mut i: usize = 0;
    while i < n
        invariant
            i <= n,
            squares@.len() == n,
            old(squares)@.len() == n,
            forall|k: int|
                0 <= k < i ==> squares@[k] == FLIP_DIAGONAL[old(squares)@[k] as int] && squares@[k]
                    < 64,
            forall|k: int| i <= k < n ==> squares@[k] == old(squares)@[k],
            on_board(old(squares)@),
        decreases n - i,
    {
        let sq: u8 = squares[i];
        assert(old(squares)@[i as int] < 64);
        proof {
            lemma_square_tables(sq as int);
        }
        squares.set(i, FLIP_DIAGONAL[sq as usize]);
        i += 1;
    }
    assert(squares@ =~= diagonal_flipped(old(squares)@));
}

/// What the tables of squares say of a square, as the index reads it.
#[derive(Clone, Copy)]
pub struct SquareEntry {
    pub off: i8,
    pub triangle: u64,
    pub diagonal: u64,
    pub lower: u64,
}

impl SquareEntry {
    /// The entry as plain numbers.
    pub open spec fn numbers(self) -> SquareNumbers {
        SquareNumbers {
            off: self.off as int,
            triangle: self.triangle as int,
            diagonal: self.diagonal as int,
            lower: self.lower as int,
        }
    }
}

/// Where the square `sq` lies with regard to the long diagonal, and its
/// numbers in the tables of squares.
fn square_numbers(sq: u8) -> (r: SquareEntry)
    requires
        sq < 64,
    ensures
        r.numbers() == numbers_of(sq as int),
        r.triangle < 10,
        r.diagonal < 16,
        r.lower < 36,
{
    proof {
        lemma_square_tables(sq as int);
    }
    SquareEntry {
        off: OFF_DIAGONAL[sq as usize],
        triangle: TRIANGLE[sq as usize] as u64,
        diagonal: DIAGONAL[sq as usize] as u64,
        lower: LOWER[sq as usize] as u64,
    }
}

/// The number of the placement of three leading pieces.
fn three_number(a: u8, b: u8, c: u8, na: SquareEntry, nb: SquareEntry, nc: SquareEntry) -> (r:
    Option<u64>)
    requires
        a < 64,
        b < 64,
        c < 64,
        na.triangle < 10,
        na.diagonal < 16,
        nb.diagonal < 16,
        nc.diagonal < 16,
        nb.lower < 36,
        nc.lower < 36,
    ensures
        r is Some <==> three_index(
            a as int,
            b as int,
            c as int,
            na.numbers(),
            nb.numbers(),
            nc.numbers(),
        ) is Some,
        r matches Some(index) ==> three_index(
            a as int,
            b as int,
            c as int,
            na.numbers(),
            nb.numbers(),
            nc.numbers(),
        ) == Some(index as int),
        r matches Some(index) ==> index < 0x100000,
{
    let i: u64 = if b > a {
        1
    } else {
        0
    };
    let j: u64 = (if c > a {
        1u64
    } else {
        0u64
    }) + (if c > b {
        1u64
    } else {
        0u64
    });
    let b: u64 = b as u64;
    let c: u64 = c as u64;
    if na.off != 0 {
        if c < j {
            None
        } else {
            Some(3906 * na.triangle + 62 * (b - i) + (c - j))
        }
    } else if nb.off != 0 {
        if c < j {
            None
        } else {
            Some(23436 + 1736 * na.diagonal + 62 * nb.lower + (c - j))
        }
    } else if nc.off != 0 {
        if nb.diagonal < i {
            None
        } else {
            Some(
                30380 + 196 * na.diagonal + 28 * (nb.diagonal - i)
                    + nc.lower,
            )
        }
    } else {
        if nb.diagonal < i || nc.diagonal < j {
            None
        } else {
            Some(
                31164 + 42 * na.diagonal + 6 * (nb.diagonal
                    - i) + (nc.diagonal - j),
            )
        }
    }
}

/// The number of the placement of the three leading pieces.
fn lead_zero(a: u8, b: u8, c: u8) -> (r: Option<u64>)
    requires
        a < 64,
        b < 64,
        c < 64,
    ensures
        r is Some <==> lead_index_zero(a as int, b as int, c as int) is Some,
        r matches Some(index) ==> lead_index_zero(a as int, b as int, c as int) == Some(
            index as int,
        ),
        r matches Some(index) ==> index < 0x100000,
{
    let na = square_numbers(a);
    let nb = square_numbers(b);
    let nc = square_numbers(c);
    three_number(a, b, c, na, nb, nc)
}

/// The number of the placement of the leading pieces.
fn lead_number(enc: EncodingType, squares: &Vec<u8>) -> (r: Option<u64>)
    requires
        enc.lead() <= squares@.len(),
        on_board(squares@),
    ensures
        r is Some <==> lead_index(enc, squares@) is Some,
        r matches Some(index) ==> lead_index(enc, squares@) == Some(index as int),
        r matches Some(index) ==> index < 0x100000,
{
    assert(squares@[0] < 64 && squares@[1] < 64);
    match enc {
        EncodingType::Zero => {
            assert(squares@[2] < 64);
            lead_zero(squares[0], squares[1], squares[2])
        },
        EncodingType::Two => {
            let first = square_numbers(squares[0]);
            let kk: i16 = KK_INDEX[first.triangle as usize][squares[1] as usize];
            if kk < 0 {
                None
            } else {
                Some(kk as u64)
            }
        },
    }
}

/// On which side of the long diagonal the first of the leading squares lies
/// that is not on it.
fn leading_side(squares: &Vec<u8>, to_check: usize) -> (r: i8)
    requires
        to_check <= squares@.len(),
        on_board(squares@),
    ensures
        r == diagonal_side(squares@, to_check as int, 0),
{
    let mut k: usize = 0;
    while k < to_check
        invariant
            k <= to_check <= squares@.len(),
            on_board(squares@),
            diagonal_side(squares@, to_check as int, 0) == diagonal_side(
                squares@,
                to_check as int,
                k as int,
            ),
        decreases to_check - k,
    {
        assert(squares@[k as int] < 64);
        let side: i8 = square_numbers(squares[k]).off;
        if side != 0 {
            return side;
        }
        k += 1;
    }
    0
}

/// The squares as the table counts them.
fn canonicalize(enc: EncodingType, piece_squares: Vec<u8>) -> (r: Vec<u8>)
    requires
        enc.lead() <= piece_squares@.len(),
        on_board(piece_squares@),
    ensures
        r@ == canonical_squares(enc, piece_squares@),
        on_board(r@),
        r@.len() == piece_squares@.len(),
{
    let mut squares = piece_squares;
    assert(squares@[0] < 64);
    // If the first piece is not in the bottom-left quadrant, it is mirrored there.
    if squares[0] % 8 > 3 {
        flip_files(&mut squares);
    }
    assert(squares@[0] < 64);
    if squares[0] / 8 > 3 {
        flip_ranks(&mut squares);
    }
    if leading_side(&squares, enc.lead_count()) > 0 {
        flip_diagonal(&mut squares);
    }
    squares
}

impl Table {
    /// The index of the position whose pieces stand on `piece_squares`, in
    /// the order of the table's pieces: the place of its value in the table.
    pub fn index(&self, enc: EncodingType, piece_squares: Vec<u8>) -> (r: Option<u64>)
        requires
            enc.lead() <= piece_squares@.len() <= MAX_PIECES,
            on_board(piece_squares@),
        ensures
            r is Some <==> index_of(self.norm@, self.factors@, enc, piece_squares@) is Some,
            r matches Some(index) ==> index_of(self.norm@, self.factors@, enc, piece_squares@)
                == Some(index as int),
    {
        let squares = canonicalize(enc, piece_squares);
        let lead: u64 = match lead_number(enc, &squares) {
            Some(lead) => lead,
            None => {
                return None;
            },
        };
        let f: u64 = self.factors[0];
        assert(lead as u128 * f as u128 <= 0x100000 * 0xFFFF_FFFF_FFFF_FFFF) by (nonlinear_arith)
            requires
                lead <= 0x100000,
                f <= 0xFFFF_FFFF_FFFF_FFFF,
        ;
        let start: u128 = lead as u128 * f as u128;
        if start > u64::MAX as u128 {
            return None;
        }
        add_groups(&squares, &self.norm, &self.factors, enc.lead_count(), start as u64)
    }
}

/// A table for material without pawns.
pub struct WdlTable {
    /// The number of men, the two kings included.
    pub men: usize,
    /// How the leading pieces are numbered.
    pub encoding_type: EncodingType,
    /// The positions with white to move.
    pub white_to_move: Table,
    /// The positions with black to move, unless they are those with white to
    /// move with the colours exchanged.
    pub black_to_move: Option<Table>,
}

impl View for Table {
    type V = TableView;

    open spec fn view(&self) -> TableView {
        TableView {
            pieces: self.pieces@,
            norm: self.norm@,
            factors: self.factors@,
            pairs: self.pairs_data@,
        }
    }
}

impl TableView {
    /// The value that the table stores for the position whose pieces stand on `squares`.
    pub open spec fn value_at(self, enc: EncodingType, squares: Seq<u8>) -> Option<Wdl> {
        match index_of(self.norm, self.factors, enc, squares) {
            None => None,
            Some(index) => stored_value(lookup_value(self.pairs, index as u64)),
        }
    }
}

/// Whether a piece of `m` is the only one of its kind and colour.
pub open spec fn has_single(m: Material) -> bool {
    exists|i: int| 0 <= i < 5 && (#[trigger] m.white[i] == 1 || m.black[i] == 1)
}

/// How the leading pieces of the table for `m` are numbered.
pub open spec fn encoding_of(m: Material) -> EncodingType {
    if has_single(m) {
        EncodingType::Zero
    } else {
        EncodingType::Two
    }
}

/// The part of the table whose stream header stands at `c`, for the given
/// pieces and the given number of the leading group.
pub open spec fn side_at(
    c: Cursor,
    pieces: Seq<ColoredPiece>,
    men: int,
    order: int,
    enc: EncodingType,
) -> Option<Side> {
    match factors_of(norm_of(pieces, men, enc), men, order, enc) {
        None => None,
        Some((size, factors)) => if size > usize::MAX || !header_ok(c.rest, c.at, size) {
            None
        } else {
            Some(
                Side {
                    table: TableView {
                        pieces,
                        norm: norm_of(pieces, men, enc),
                        factors,
                        pairs: header_view(c.rest, true),
                    },
                    sizes: header_sizes(c.rest, size),
                    end: c.skip(header_len(c.rest, c.at)),
                },
            )
        },
    }
}

/// The parts of the table that stands at `c`, before their tables are
/// attached: one, or two where the table is split by the side to move.
pub open spec fn sides_at(c: Cursor, m: Material) -> Option<Seq<Side>> {
    let men = m.men();
    let enc = encoding_of(m);
    let split = c.rest[0] % 2 == 1;
    if men < enc.lead() || men > 8 || !c.has(2 + men) || split == m.symmetric()
        || !header_pieces_ok(c.rest.skip(2), men, split) {
        None
    } else {
        match skip_checked(c.skip(2 + men), padding((c.at + 2 + men) as nat, 2) as int) {
            None => None,
            Some(c1) => match side_at(
                c1,
                header_pieces(c.rest.skip(2), men, false),
                men,
                half(c.rest[1], false),
                enc,
            ) {
                None => None,
                Some(white) => if !split {
                    Some(seq![white])
                } else {
                    match side_at(
                        white.end,
                        header_pieces(c.rest.skip(2), men, true),
                        men,
                        half(c.rest[1], true),
                        enc,
                    ) {
                        None => None,
                        Some(black) => Some(seq![white, black]),
                    }
                },
            },
        }
    }
}

/// The part number `k` with its tables attached, which begin at `c`.
pub open spec fn side_with_tables(c: Cursor, sides: Seq<Side>, k: int) -> TableView {
    TableView { pairs: with_tables(c, side_sizes(sides), k, sides[k].table.pairs), ..sides[k].table }
}

/// What a table for material without pawns holds, as plain values.
pub struct WdlTableView {
    pub men: int,
    pub encoding_type: EncodingType,
    pub white_to_move: TableView,
    pub black_to_move: Option<TableView>,
}

impl View for WdlTable {
    type V = WdlTableView;

    open spec fn view(&self) -> WdlTableView {
        WdlTableView {
            men: self.men as int,
            encoding_type: self.encoding_type,
            white_to_move: self.white_to_move@,
            black_to_move: match self.black_to_move {
                None => None,
                Some(table) => Some(table@),
            },
        }
    }
}

/// The table for the material `m` that the bytes at `c`, after the magic
/// number, lay out; `None` where they end too early or contradict
/// themselves or the material.
pub open spec fn layout(c: Cursor, m: Material) -> Option<WdlTableView> {
    match sides_at(c, m) {
        None => None,
        Some(sides) => {
            let start = sides[sides.len() - 1].end;
            if tables_at(start, side_sizes(sides)) is None {
                None
            } else {
                Some(
                    WdlTableView {
                        men: m.men(),
                        encoding_type: encoding_of(m),
                        white_to_move: side_with_tables(start, sides, 0),
                        black_to_move: if sides.len() == 2 {
                            Some(side_with_tables(start, sides, 1))
                        } else {
                            None
                        },
                    },
                )
            }
        },
    }
}

impl WdlTableView {
    /// The value that the table stores for `board`, seen with the colours
    /// exchanged where `color_flip` is set.
    pub open spec fn value_of(self, board: Board, color_flip: bool) -> Option<Wdl> {
        let table = match mover(board).flipped_if(color_flip) {
            Color::White => Some(self.white_to_move),
            Color::Black => self.black_to_move,
        };
        match table {
            None => None,
            Some(table) => match gather(
                board,
                table.pieces,
                color_flip,
                false,
                self.men,
                0,
                Seq::empty(),
            ) {
                None => None,
                Some(squares) => table.value_at(self.encoding_type, squares),
            },
        }
    }
}

/// How the leading pieces of the table for `material` are numbered.
fn encoding_for(material: &Material) -> (r: EncodingType)
    ensures
        r == encoding_of(*material),
{
    let mut i: usize = 0;
    while i < 5
        invariant
            i <= 5,
            forall|k: int| 0 <= k < i ==> !(material.white[k] == 1 || material.black[k] == 1),
        decreases 5 - i,
    {
        if material.white[i] == 1 || material.black[i] == 1 {
            return EncodingType::Zero;
        }
        i += 1;
    }
    EncodingType::Two
}

/// Reads the stream header of one part of the table.
fn read_side(
    data: &mut DataStream<'_>,
    pieces: [ColoredPiece; 8],
    men: usize,
    order: u8,
    enc: EncodingType,
) -> (r: Option<(Table, Sizes)>)
    requires
        enc.lead() <= men <= 8,
    ensures
        r is Some <==> side_at(old(data)@, pieces@, men as int, order as int, enc) is Some,
        r matches Some((table, sizes)) ==> {
            let side = side_at(old(data)@, pieces@, men as int, order as int, enc)->0;
            &&& table@ == side.table
            &&& sizes == side.sizes
            &&& final(data)@ == side.end
        },
        final(data)@.at + final(data)@.rest.len() == old(data)@.at + old(data)@.rest.len(),
{
    let norm = calculate_norm(men, enc, &pieces);
    let (size, factors) = match calculate_factors(men, order, &norm, enc) {
        Some(found) => found,
        None => {
            return None;
        },
    };
    if size > usize::MAX as u64 {
        return None;
    }
    let ghost c = data@;
    let (pairs_data, sizes) = match PairsData::create(data, size as usize, true) {
        Some(found) => found,
        None => {
            return None;
        },
    };
    assert(data@ =~= c.skip(header_len(c.rest, c.at)));
    Some((Table { pieces, norm, factors, pairs_data }, sizes))
}

/// Reads the headers of the parts of a table: the pieces of each, and the
/// header of its stream.
fn read_heads(data: &mut DataStream<'_>, material: Material) -> (r: Option<
    (Vec<Head>, Vec<PairsData>, Vec<Sizes>),
>)
    requires
        material.wf(),
    ensures
        r is Some <==> sides_at(old(data)@, material) is Some,
        r matches Some((heads, streams, sizes)) ==> {
            let sides = sides_at(old(data)@, material)->0;
            &&& 1 <= sides.len() <= 2
            &&& heads@.len() == sides.len()
            &&& streams@.len() == sides.len()
            &&& sizes@ == side_sizes(sides)
            &&& forall|k: int|
                0 <= k < sides.len() ==> (#[trigger] heads@[k]).with(streams@[k]@)
                    == sides[k].table
            &&& final(data)@ == sides[sides.len() - 1].end
            &&& encoding_of(material).lead() <= material.men()
        },
        final(data)@.at + final(data)@.rest.len() == old(data)@.at + old(data)@.rest.len(),
{
    let enc = encoding_for(&material);
    let men: usize = material.count() as usize;
    let ghost c = data@;
    let bytes = data.rest();
    if men < enc.lead_count() || data.len() < 2 + men {
        return None;
    }
    let split: bool = bytes[0] % 2 == 1;
    if split == material.is_symmetric() {
        return None;
    }
    let order: u8 = bytes[1];
    let names = vstd::slice::slice_subrange(bytes, 2, 2 + men);
    proof {
        assert forall|i: int| 0 <= i < men implies names@[i] == c.rest.skip(2)[i] by {}
        assert(header_pieces(names@, men as int, false) =~= header_pieces(
            c.rest.skip(2),
            men as int,
            false,
        ));
        assert(header_pieces(names@, men as int, true) =~= header_pieces(
            c.rest.skip(2),
            men as int,
            true,
        ));
    }
    let wtm_pieces = match read_pieces(names, men, false) {
        Some(pieces) => pieces,
        None => {
            return None;
        },
    };
    let btm_pieces = if split {
        match read_pieces(names, men, true) {
            Some(pieces) => pieces,
            None => {
                return None;
            },
        }
    } else {
        [ColoredPiece::WhitePawn; 8]
    };
    assert(header_pieces_ok(c.rest.skip(2), men as int, split));
    let _ = data.read_array(2 + men);
    let pad: usize = data.padding_to(2);
    if data.len() < pad {
        return None;
    }
    data.align_to(2);
    let (wtm, wtm_sizes) = match read_side(data, wtm_pieces, men, order % 16, enc) {
        Some(found) => found,
        None => {
            return None;
        },
    };
    let mut heads: Vec<Head> = Vec::new();
    let mut streams: Vec<PairsData> = Vec::new();
    let mut sizes: Vec<Sizes> = Vec::new();
    let Table { pieces, norm, factors, pairs_data } = wtm;
    heads.push(Head { pieces, norm, factors });
    streams.push(pairs_data);
    sizes.push(wtm_sizes);
    if split {
        let (btm, btm_sizes) = match read_side(data, btm_pieces, men, order / 16, enc) {
            Some(found) => found,
            None => {
                return None;
            },
        };
        let Table { pieces, norm, factors, pairs_data } = btm;
        heads.push(Head { pieces, norm, factors });
        streams.push(pairs_data);
        sizes.push(btm_sizes);
    }
    assert(sizes@ =~= side_sizes(sides_at(c, material)->0));
    Some((heads, streams, sizes))
}

impl WdlTable {
    /// The table has as many men as its leading group needs, and no more than can be held.
    pub open spec fn wf(&self) -> bool {
        self.encoding_type.lead() <= self.men <= MAX_PIECES
    }

    /// Reads a table for `material` from the bytes after the magic number.
    pub fn new(data: &mut DataStream<'_>, material: Material) -> (r: Option<WdlTable>)
        requires
            material.wf(),
        ensures
            r is Some <==> layout(old(data)@, material) is Some,
            r matches Some(table) ==> Some(table@) == layout(old(data)@, material) && table.wf(),
            final(data)@.at + final(data)@.rest.len() == old(data)@.at + old(data)@.rest.len(),
    {
        let ghost c = data@;
        let (heads, streams, sizes) = match read_heads(data, material) {
            Some(found) => found,
            None => {
                return None;
            },
        };
        let ghost sides = sides_at(c, material)->0;
        let ghost start = data@;
        let ghost before = streams@;
        let mut heads = heads;
        let mut streams = match read_stream_tables(data, streams, &sizes) {
            Some(streams) => streams,
            None => {
                return None;
            },
        };
        let ghost all_heads = heads@;
        let ghost all_streams = streams@;
        let black_to_move = if heads.len() == 2 {
            match (heads.pop(), streams.pop()) {
                (Some(head), Some(pairs_data)) => Some(
                    Table {
                        pieces: head.pieces,
                        norm: head.norm,
                        factors: head.factors,
                        pairs_data,
                    },
                ),
                _ => None,
            }
        } else {
            None
        };
        let white_to_move = match (heads.pop(), streams.pop()) {
            (Some(head), Some(pairs_data)) => Table {
                pieces: head.pieces,
                norm: head.norm,
                factors: head.factors,
                pairs_data,
            },
            _ => {
                return None;
            },
        };
        let table = WdlTable {
            men: material.count() as usize,
            encoding_type: encoding_for(&material),
            white_to_move,
            black_to_move,
        };
        proof {
            assert(all_heads[0].with(before[0]@) == sides[0].table);
            assert(all_streams[0]@ == with_tables(start, sizes@, 0, before[0]@));
            assert(table@.white_to_move =~= side_with_tables(start, sides, 0));
            if sides.len() == 2 {
                assert(all_heads[1].with(before[1]@) == sides[1].table);
                assert(all_streams[1]@ == with_tables(start, sizes@, 1, before[1]@));
                assert(table@.black_to_move->0 =~= side_with_tables(start, sides, 1));
            }
            assert(table@ =~= layout(c, material)->0);
        }
        Some(table)
    }

    /// The value that the table stores for `position`, seen with the colours
    /// exchanged where `color_flip` is set.
    pub fn read(&self, position: &Board, color_flip: bool) -> (r: Option<Wdl>)
        requires
            self.wf(),
        ensures
            r == self@.value_of(*position, color_flip),
    {
        let table: &Table = match to_move(position).flip_if(color_flip) {
            Color::White => &self.white_to_move,
            Color::Black => match &self.black_to_move {
                Some(table) => table,
                None => {
                    return None;
                },
            },
        };
        let squares = match gather_squares(
            position,
            &table.pieces,
            color_flip,
            false,
            self.men,
            Vec::new(),
        ) {
            Some(squares) => squares,
            None => {
                return None;
            },
        };
        let index: u64 = match table.index(self.encoding_type, squares) {
            Some(index) => index,
            None => {
                return None;
            },
        };
        match table.pairs_data.lookup(index) {
            Some(byte) => Wdl::from_byte(byte),
            None => None,
        }
    }
}

} // verus!
