//! Tables for material with pawns.
use crate::constants::{
    BINOMIAL, FILE_TO_FILE, FLAP, MAX_PIECES, PAWN_FACTOR, PAWN_INDEX, PAWN_TWIST,
};
use crate::material::Material;
use crate::pairs::{
    header_len, header_ok, header_sizes, header_view, lookup_value, PairsData, Sizes,
};
use crate::piece::{Color, ColoredPiece};
use crate::position::{mover, squares_on, to_move};
use crate::stream::{padding, Cursor, DataStream};
use crate::table::{
    add_groups, ascending, files_flipped, fill_norm, flip_files, gather, gather_squares,
    group_index, group_sum, groups_index, half, header_pieces, header_pieces_ok,
    lemma_norm_from_keeps, norm_from, on_board, placements, ranks_flipped, read_pieces, read_stream_tables, side_sizes,
    skip_checked, stored_value, subfactor, tables_at, with_tables, Head, Side, TableView,
};
use crate::wdl::Wdl;
use cozy_chess::Board;
use vstd::prelude::*;

verus! {

/// One part of a table: the positions with one side to move and the leading
/// pawn on one file.
pub struct Table {
    /// The pieces in the order in which the index counts them.
    pub pieces: [ColoredPiece; 8],
    /// At the first piece of each group of like pieces, the size of the group.
    pub norm: [u8; 8],
    /// At the first piece of each group, the weight of the group in the index.
    pub factors: [u64; 8],
    /// The compressed values.
    pub pairs_data: PairsData,
}

/// The sizes of the groups: the leading pawns at 0, the other side's pawns,
/// if it has any, behind them, then each run of like pieces at its first
/// piece, and 0 elsewhere.
pub open spec fn norm_of(pieces: Seq<ColoredPiece>, men: int, lead: int, other: int) -> Seq<u8> {
    let first = Seq::new(8, |i: int| 0u8).update(0, lead as u8);
    norm_from(
        pieces,
        men,
        lead + other,
        if other > 0 {
            first.update(lead, other as u8)
        } else {
            first
        },
    )
}

/// The sizes of the groups of like pieces, where `white_pawns` pawns lead and
/// the other side has `black_pawns`.
pub fn calculate_norm(white_pawns: u8, black_pawns: u8, men: usize, pieces: &[ColoredPiece; 8]) -> (r:
    [u8; 8])
    requires
        1 <= white_pawns,
        white_pawns + black_pawns <= men <= MAX_PIECES,
    ensures
        r@ == norm_of(pieces@, men as int, white_pawns as int, black_pawns as int),
        r[0] == white_pawns,
        black_pawns > 0 ==> r[white_pawns as int] == black_pawns,
{
    let mut result: [u8; 8] = [0, 0, 0, 0, 0, 0, 0, 0];
    assert(result@ =~= Seq::new(8, |i: int| 0u8));
    result[0] = white_pawns;
    if black_pawns > 0 {
        result[white_pawns as usize] = black_pawns;
    }
    let ghost first = result@;
    let filled = fill_norm(men, (white_pawns + black_pawns) as usize, pieces, result);
    proof {
        lemma_norm_from_keeps(pieces@, men as int, white_pawns + black_pawns, first);
        assert(filled@[0] == first[0]);
        if black_pawns > 0 {
            assert(filled@[white_pawns as int] == first[white_pawns as int]);
        }
    }
    filled
}

/// The weights of the groups from group number `k` on, and the size of the
/// table. `i` is the place of the next group behind the pawns, `f` the
/// product so far; the leading pawns are group number `order`, the other
/// side's pawns group number `order2`.
pub open spec fn factors_from(
    norm: Seq<u8>,
    men: int,
    order: int,
    order2: int,
    file: int,
    k: int,
    i: int,
    f: int,
    factors: Seq<u64>,
) -> Option<(int, Seq<u64>)>
    decreases (if i < men {
        men - i
    } else {
        0int
    }) + (if k <= order {
        1int
    } else {
        0int
    }) + (if k <= order2 {
        1int
    } else {
        0int
    }),
{
    if f > u64::MAX || i < 0 || !(1 <= norm[0] <= 6) || !(0 <= file < 4) {
        None
    } else if k == order {
        factors_from(
            norm,
            men,
            order,
            order2,
            file,
            k + 1,
            i,
            f * PAWN_FACTOR[norm[0] - 1][file],
            factors.update(0, f as u64),
        )
    } else if k == order2 {
        if norm[norm[0] as int] > 8 {
            None
        } else {
            factors_from(
                norm,
                men,
                order,
                order2,
                file,
                k + 1,
                i,
                f * placements(norm[norm[0] as int] as int, 48 - norm[0]),
                factors.update(norm[0] as int, f as u64),
            )
        }
    } else if i < men {
        if norm[i] == 0 || norm[i] > 8 || i >= 8 {
            None
        } else {
            factors_from(
                norm,
                men,
                order,
                order2,
                file,
                k + 1,
                i + norm[i],
                f * placements(norm[i] as int, 64 - i),
                factors.update(i, f as u64),
            )
        }
    } else {
        Some((f, factors))
    }
}

/// The size of the table and the weights of the groups for the leading pawn
/// on `file`. An `order2` of 15 says that the other side has no pawns.
pub open spec fn factors_of(norm: Seq<u8>, men: int, order: int, order2: int, file: int) -> Option<
    (int, Seq<u64>),
> {
    factors_from(
        norm,
        men,
        order,
        order2,
        file,
        0,
        if order2 < 15 {
            norm[0] + norm[norm[0] as int]
        } else {
            norm[0] as int
        },
        1,
        Seq::new(8, |i: int| 0u64),
    )
}

/// No entry of the table of pawn factors is above 2^23.
pub proof fn lemma_pawn_factor_bound(t: int, file: int)
    requires
        0 <= t < 6,
        0 <= file < 4,
    ensures
        PAWN_FACTOR[t][file] <= 0x800000,
{
    if t == 0 {
        assert(PAWN_FACTOR[0][file] <= 0x800000);
    } else if t == 1 {
        assert(PAWN_FACTOR[1][file] <= 0x800000);
    } else if t == 2 {
        assert(PAWN_FACTOR[2][file] <= 0x800000);
    } else if t == 3 {
        assert(PAWN_FACTOR[3][file] <= 0x800000);
    } else if t == 4 {
        assert(PAWN_FACTOR[4][file] <= 0x800000);
    } else {
        assert(PAWN_FACTOR[5][file] <= 0x800000);
    }
}

/// The size of the table and the weight of each group in the index.
pub fn calculate_factors(norm: &[u8; 8], men: usize, order: u8, order2: u8, file: usize) -> (r:
    Option<(u64, [u64; 8])>)
    requires
        men <= MAX_PIECES,
        1 <= norm[0] <= 6,
        file < 4,
    ensures
        r is Some <==> factors_of(norm@, men as int, order as int, order2 as int, file as int)
            is Some,
        r matches Some((size, factors)) ==> factors_of(
            norm@,
            men as int,
            order as int,
            order2 as int,
            file as int,
        ) == Some((size as int, factors@)),
{
    let lead: usize = norm[0] as usize;
    let mut i: usize = lead;
    if order2 < 0xF {
        i += norm[i] as usize;
    }
    let mut factors: [u64; 8] = [0, 0, 0, 0, 0, 0, 0, 0];
    assert(factors@ =~= Seq::new(8, |i: int| 0u64));
    let mut f: u64 = 1;
    let mut k: usize = 0;
    loop
        invariant
            men <= 8,
            lead == norm[0],
            1 <= lead <= 6,
            file < 4,
            i <= 520,
            k + (if i < men {
                men - i
            } else {
                0int
            }) + (if k <= order {
                1int
            } else {
                0int
            }) + (if k <= order2 {
                1int
            } else {
                0int
            }) <= men + 2,
            factors_from(
                norm@,
                men as int,
                order as int,
                order2 as int,
                file as int,
                k as int,
                i as int,
                f as int,
                factors@,
            ) == factors_of(norm@, men as int, order as int, order2 as int, file as int),
        decreases (if i < men {
            men - i
        } else {
            0int
        }) + (if k <= order {
            1int
        } else {
            0int
        }) + (if k <= order2 {
            1int
        } else {
            0int
        }),
    {
        let weight: u64 = if k == order as usize {
            factors[0] = f;
            proof {
                lemma_pawn_factor_bound(lead - 1, file as int);
            }
            PAWN_FACTOR[lead - 1][file]
        } else if k == order2 as usize {
            let t: usize = norm[lead] as usize;
            if t > 8 {
                return None;
            }
            factors[lead] = f;
            subfactor(t, 48 - lead)
        } else if i < men {
            let t: usize = norm[i] as usize;
            if t == 0 || t > 8 {
                return None;
            }
            factors[i] = f;
            let weight: u64 = subfactor(t, 64 - i);
            i += t;
            weight
        } else {
            return Some((f, factors));
        };
        assert(f as u128 * weight as u128 <= 0xFFFF_FFFF_FFFF_FFFF * 0x1000000000000)
            by (nonlinear_arith)
            requires
                f <= 0xFFFF_FFFF_FFFF_FFFF,
                weight <= 0x1000000000000,
        ;
        let product: u128 = f as u128 * weight as u128;
        if product > u64::MAX as u128 {
            assert(factors_from(
                norm@,
                men as int,
                order as int,
                order2 as int,
                file as int,
                k + 1,
                i as int,
                product as int,
                factors@,
            ) is None);
            return None;
        }
        f = product as u64;
        k += 1;
    }
}

/// The squares with those at the places `i` and `j` exchanged.
pub open spec fn swapped(s: Seq<u8>, i: int, j: int) -> Seq<u8> {
    s.update(i, s[j]).update(j, s[i])
}

/// The squares after the pawn at place `i` has been compared with those at
/// the places from `j` up to `limit`, and exchanged with each that comes
/// later in the order of the pawns.
pub open spec fn twist_inner(s: Seq<u8>, i: int, j: int, limit: int) -> Seq<u8>
    decreases (if j < limit {
        limit - j
    } else {
        0int
    }),
{
    if j >= limit || j < 0 {
        s
    } else {
        twist_inner(
            if PAWN_TWIST[s[i] as int] < PAWN_TWIST[s[j] as int] {
                swapped(s, i, j)
            } else {
                s
            },
            i,
            j + 1,
            limit,
        )
    }
}

/// The squares after the pawns at the places from `i` up to `lead` have each
/// been compared with those behind them up to `limit`.
pub open spec fn twisted(s: Seq<u8>, i: int, lead: int, limit: int) -> Seq<u8>
    decreases (if i < lead {
        lead - i
    } else {
        0int
    }),
{
    if i >= lead || i < 0 {
        s
    } else {
        twisted(twist_inner(s, i, i + 1, limit), i + 1, lead, limit)
    }
}

/// What the first `i` squares add to the number of the leading pawns, of
/// which there are `t + 1`.
pub open spec fn pawn_sum(s: Seq<u8>, t: int, i: int) -> int
    decreases i,
{
    if i <= 0 {
        0
    } else {
        pawn_sum(s, t, i - 1) + BINOMIAL[t - 1][PAWN_TWIST[s[i - 1] as int] as int]
    }
}

/// The number of the placement of the `lead` leading pawns.
pub open spec fn lead_index(s: Seq<u8>, lead: int) -> int {
    PAWN_INDEX[lead - 1][FLAP[s[0] as int] as int] + pawn_sum(s, lead - 1, lead - 1)
}

/// The squares as the table counts them: mirrored so that the first lies on
/// the files a to d, and with the pawns in their order.
pub open spec fn canonical_squares(squares: Seq<u8>, lead: int, other: int) -> Seq<u8> {
    twisted(
        if squares[0] % 8 > 3 {
            files_flipped(squares)
        } else {
            squares
        },
        1,
        lead,
        other,
    )
}

/// The index with the groups behind the leading pawns counted in: first the
/// pawns of the other side, which cannot stand on the first rank, then the
/// groups of like pieces.
pub open spec fn rest_index(
    c: Seq<u8>,
    norm: Seq<u8>,
    factors: Seq<u64>,
    lead: int,
    other: int,
    acc: int,
) -> Option<int> {
    if other > 0 {
        match group_sum(c.subrange(0, lead), ascending(c.subrange(lead, lead + other)), 8, other) {
            None => None,
            Some(s) => if acc + s * factors[lead] > u64::MAX {
                None
            } else {
                groups_index(c, norm, factors, lead + other, acc + s * factors[lead])
            },
        }
    } else {
        groups_index(c, norm, factors, lead, acc)
    }
}

/// The index of the position whose pieces stand on `squares`, in the order
/// of the table's pieces, where `lead` pawns lead and the other side has
/// `other` pawns.
pub open spec fn index_of(
    norm: Seq<u8>,
    factors: Seq<u64>,
    lead: int,
    other: int,
    squares: Seq<u8>,
) -> Option<int> {
    let c = canonical_squares(squares, lead, other);
    if lead_index(c, lead) * factors[0] > u64::MAX {
        None
    } else {
        rest_index(c, norm, factors, lead, other, lead_index(c, lead) * factors[0])
    }
}

/// What the tables of pawn squares hold, as far as the index needs it.
pub proof fn lemma_pawn_tables(sq: int)
    requires
        0 <= sq < 64,
    ensures
        FLAP[sq] < 24,
        PAWN_TWIST[sq] < 48,
        FILE_TO_FILE[sq % 8] < 4,
{
}

/// No entry of the table of pawn indices is above 2^23.
pub proof fn lemma_pawn_index_bound(t: int, f: int)
    requires
        0 <= t < 6,
        0 <= f < 24,
    ensures
        PAWN_INDEX[t][f] <= 0x800000,
{
    if t == 0 {
        assert(PAWN_INDEX[0][f] <= 0x800000);
    } else if t == 1 {
        assert(PAWN_INDEX[1][f] <= 0x800000);
    } else if t == 2 {
        assert(PAWN_INDEX[2][f] <= 0x800000);
    } else if t == 3 {
        assert(PAWN_INDEX[3][f] <= 0x800000);
    } else if t == 4 {
        assert(PAWN_INDEX[4][f] <= 0x800000);
    } else {
        assert(PAWN_INDEX[5][f] <= 0x800000);
    }
}

/// The place of the square `sq` in the order of the pawns.
fn pawn_twist(sq: u8) -> (r: u8)
    requires
        sq < 64,
    ensures
        r == PAWN_TWIST[sq as int],
        r < 48,
{
    proof {
        lemma_pawn_tables(sq as int);
    }
    PAWN_TWIST[sq as usize]
}

/// The place of the square `sq` on the files a to d.
fn flap(sq: u8) -> (r: u8)
    requires
        sq < 64,
    ensures
        r == FLAP[sq as int],
        r < 24,
{
    proof {
        lemma_pawn_tables(sq as int);
    }
    FLAP[sq as usize]
}

/// Brings the pawns into their order.
fn twist(squares: &mut Vec<u8>, lead: usize, limit: usize)
    requires
        lead <= old(squares)@.len(),
        limit <= old(squares)@.len(),
        on_board(old(squares)@),
    ensures
        final(squares)@ == twisted(old(squares)@, 1, lead as int, limit as int),
        final(squares)@.len() == old(squares)@.len(),
        on_board(final(squares)@),
{
    let mut i: usize = 1;
    while i < lead
        invariant
            1 <= i,
            lead <= squares@.len(),
            limit <= squares@.len(),
            squares@.len() == old(squares)@.len(),
            on_board(squares@),
            twisted(squares@, i as int, lead as int, limit as int) == twisted(
                old(squares)@,
                1,
                lead as int,
                limit as int,
            ),
        decreases lead - i,
    {
        let mut j: usize = i + 1;
        let ghost row = squares@;
        while j < limit
            invariant
                i < j,
                i < lead <= squares@.len(),
                limit <= squares@.len(),
                squares@.len() == old(squares)@.len(),
                on_board(squares@),
                twist_inner(squares@, i as int, j as int, limit as int) == twist_inner(
                    row,
                    i as int,
                    i + 1,
                    limit as int,
                ),
            decreases limit - j,
        {
            let a: u8 = squares[i];
            let b: u8 = squares[j];
            assert(a < 64 && b < 64);
            if pawn_twist(a) < pawn_twist(b) {
                squares.set(i, b);
                squares.set(j, a);
            }
            j += 1;
        }
        i += 1;
    }
}

/// The number of the placement of the leading pawns.
fn lead_number(squares: &Vec<u8>, lead: usize) -> (r: u64)
    requires
        1 <= lead <= 6,
        lead <= squares@.len(),
        on_board(squares@),
    ensures
        r == lead_index(squares@, lead as int),
        r <= 0x40000000,
{
    let t: usize = lead - 1;
    assert(squares@[0] < 64);
    let place: usize = flap(squares[0]) as usize;
    proof {
        lemma_pawn_index_bound(t as int, place as int);
    }
    let mut index: u64 = PAWN_INDEX[t][place];
    let ghost base = index;
    let mut i: usize = 0;
    while i < t
        invariant
            i <= t,
            t == lead - 1,
            t < 6,
            lead <= squares@.len(),
            on_board(squares@),
            base <= 0x800000,
            index == base + pawn_sum(squares@, t as int, i as int),
            index <= 0x800000 + i * 0x8000000,
        decreases t - i,
    {
        assert(squares@[i as int] < 64);
        let tw: usize = pawn_twist(squares[i]) as usize;
        proof {
            crate::table::lemma_binomial_bound(t - 1, tw as int);
        }
        index = index + BINOMIAL[t - 1][tw];
        i += 1;
    }
    index
}

/// The squares with the pawn first that the leading pawn is chosen from
/// the first `lead` by: each later pawn takes the first place if its place
/// on the files a to d is the greater.
pub open spec fn leader_first(s: Seq<u8>, lead: int, i: int) -> Seq<u8>
    decreases (if i < lead {
        lead - i
    } else {
        0int
    }),
{
    if i >= lead || i < 0 {
        s
    } else {
        leader_first(
            if FLAP[s[0] as int] < FLAP[s[i] as int] {
                swapped(s, 0, i)
            } else {
                s
            },
            lead,
            i + 1,
        )
    }
}

/// Moves the leading pawn to the front: of the first `white_pawns` squares,
/// the one whose place on the files a to d is the greatest. Returns the file
/// from a to d on which it stands.
pub fn pawn_file(white_pawns: usize, piece_squares: &mut Vec<u8>) -> (r: usize)
    requires
        1 <= white_pawns <= old(piece_squares)@.len(),
        on_board(old(piece_squares)@),
    ensures
        final(piece_squares)@ == leader_first(old(piece_squares)@, white_pawns as int, 0),
        final(piece_squares)@.len() == old(piece_squares)@.len(),
        on_board(final(piece_squares)@),
        forall|k: int|
            0 <= k < white_pawns ==> FLAP[final(piece_squares)@[0] as int] >= FLAP[#[trigger] old(
                piece_squares,
            )@[k] as int],
        forall|k: int|
            white_pawns <= k < old(piece_squares)@.len() ==> final(piece_squares)@[k] == old(
                piece_squares,
            )@[k],
        r == FILE_TO_FILE[(final(piece_squares)@[0] % 8) as int],
        r < 4,
{
    let mut i: usize = 0;
    while i < white_pawns
        invariant
            i <= white_pawns <= piece_squares@.len(),
            piece_squares@.len() == old(piece_squares)@.len(),
            on_board(piece_squares@),
            on_board(old(piece_squares)@),
            leader_first(piece_squares@, white_pawns as int, i as int) == leader_first(
                old(piece_squares)@,
                white_pawns as int,
                0,
            ),
            forall|k: int|
                0 <= k < i ==> FLAP[piece_squares@[0] as int] >= FLAP[#[trigger] old(
                    piece_squares,
                )@[k] as int],
            forall|k: int|
                i <= k < piece_squares@.len() && 0 < k ==> piece_squares@[k] == old(
                    piece_squares,
                )@[k],
            i == 0 ==> piece_squares@ == old(piece_squares)@,
        decreases white_pawns - i,
    {
        let first: u8 = piece_squares[0];
        let here: u8 = piece_squares[i];
        assert(first < 64 && here < 64);
        if flap(first) < flap(here) {
            piece_squares.set(0, here);
            piece_squares.set(i, first);
        }
        i += 1;
    }
    assert(piece_squares@[0] < 64);
    proof {
        lemma_pawn_tables(piece_squares@[0] as int);
    }
    FILE_TO_FILE[(piece_squares[0] % 8) as usize] as usize
}

impl Table {
    /// The index of the position whose pieces stand on `piece_squares`, in
    /// the order of the table's pieces: the place of its value in the table.
    pub fn index(&self, white_pawns: usize, black_pawns: usize, piece_squares: Vec<u8>) -> (r:
        Option<u64>)
        requires
            1 <= white_pawns <= 6,
            white_pawns + black_pawns <= piece_squares@.len() <= MAX_PIECES,
            on_board(piece_squares@),
        ensures
            r is Some <==> index_of(
                self.norm@,
                self.factors@,
                white_pawns as int,
                black_pawns as int,
                piece_squares@,
            ) is Some,
            r matches Some(index) ==> index_of(
                self.norm@,
                self.factors@,
                white_pawns as int,
                black_pawns as int,
                piece_squares@,
            ) == Some(index as int),
    {
        let mut squares = piece_squares;
        assert(squares@[0] < 64);
        if squares[0] % 8 > 3 {
            flip_files(&mut squares);
        }
        twist(&mut squares, white_pawns, black_pawns);
        let lead: u64 = lead_number(&squares, white_pawns);
        let f: u64 = self.factors[0];
        assert(lead as u128 * f as u128 <= 0x40000000 * 0xFFFF_FFFF_FFFF_FFFF) by (nonlinear_arith)
            requires
                lead <= 0x40000000,
                f <= 0xFFFF_FFFF_FFFF_FFFF,
        ;
        let start: u128 = lead as u128 * f as u128;
        if start > u64::MAX as u128 {
            return None;
        }
        let mut index: u64 = start as u64;
        if black_pawns > 0 {
            let s: u64 = match group_index(&squares, white_pawns, black_pawns, 8) {
                Some(s) => s,
                None => {
                    return None;
                },
            };
            let f: u64 = self.factors[white_pawns];
            assert(s as u128 * f as u128 <= 0x4000_0000 * 0xFFFF_FFFF_FFFF_FFFF)
                by (nonlinear_arith)
                requires
                    s <= 0x4000_0000,
                    f <= 0xFFFF_FFFF_FFFF_FFFF,
            ;
            let next: u128 = index as u128 + s as u128 * f as u128;
            if next > u64::MAX as u128 {
                return None;
            }
            index = next as u64;
        }
        add_groups(&squares, &self.norm, &self.factors, white_pawns + black_pawns, index)
    }
}

impl View for Table {
    type V = TableView;

    open spec fn view(&self) -> TableView {
        TableView {
            pieces: self.pieces@,
            norm: self.norm@,
            factors: self.factors@,
            pairs: self.pairs_data@,
        }
    }
}

/// A table for material with pawns.
pub struct WdlTable {
    /// The number of men, the two kings included.
    pub men: usize,
    /// The number of the pawns that lead.
    pub white_pawns: usize,
    /// The number of the pawns of the other side.
    pub black_pawns: usize,
    /// The positions with white to move, by the file of the leading pawn.
    pub white_to_move: Vec<Table>,
    /// The positions with black to move, by the file of the leading pawn;
    /// empty where they are those with white to move with the colours
    /// exchanged.
    pub black_to_move: Vec<Table>,
}

/// The number of the pawns that lead: those of the side with fewer pawns,
/// or of the only side that has any.
pub open spec fn lead_pawns(m: Material) -> int {
    if m.white[4] == 0 || (m.black[4] != 0 && m.black[4] < m.white[4]) {
        m.black[4] as int
    } else {
        m.white[4] as int
    }
}

/// The number of the pawns of the side that does not lead.
pub open spec fn other_pawns(m: Material) -> int {
    if m.white[4] == 0 || (m.black[4] != 0 && m.black[4] < m.white[4]) {
        m.white[4] as int
    } else {
        m.black[4] as int
    }
}

/// The number of bytes that a header uses for one file of the leading pawn:
/// the order of the groups for the leading pawns, that for the other pawns
/// if there are any, and a byte for each man.
pub open spec fn file_unit(m: Material) -> int {
    m.men() + if other_pawns(m) > 0 {
        2int
    } else {
        1int
    }
}

/// Whether the table at `c` is split by the side to move.
pub open spec fn is_split(c: Cursor) -> bool {
    c.rest[0] % 2 == 1
}

/// The number of files of the leading pawn that the table at `c` tells apart.
pub open spec fn file_count(c: Cursor) -> int {
    if (c.rest[0] / 2) % 2 == 1 {
        4
    } else {
        1
    }
}

/// The bytes that name the pieces for the leading pawn on file `f`.
pub open spec fn file_names(c: Cursor, m: Material, f: int) -> Seq<u8> {
    c.rest.subrange(1 + (f + 1) * file_unit(m) - m.men(), 1 + (f + 1) * file_unit(m))
}

/// The byte with the numbers of the group of the leading pawns, for the
/// leading pawn on file `f`.
pub open spec fn file_order(c: Cursor, m: Material, f: int) -> u8 {
    c.rest[1 + f * file_unit(m)]
}

/// The byte with the numbers of the group of the other pawns; 255 where there are none.
pub open spec fn file_order2(c: Cursor, m: Material, f: int) -> u8 {
    if other_pawns(m) > 0 {
        c.rest[2 + f * file_unit(m)]
    } else {
        255
    }
}

/// Whether the header at `c` is whole and names pieces throughout.
pub open spec fn names_ok(c: Cursor, m: Material) -> bool {
    &&& 1 <= lead_pawns(m) <= 6
    &&& m.men() <= 8
    &&& c.has(1 + 4 * file_unit(m))
    &&& is_split(c) != m.symmetric()
    &&& forall|f: int|
        0 <= f < file_count(c) ==> header_pieces_ok(#[trigger] file_names(c, m, f), m.men(), is_split(c))
    &&& skip_checked(
        c.skip(1 + 4 * file_unit(m)),
        padding((c.at + 1 + 4 * file_unit(m)) as nat, 2) as int,
    ) is Some
}

/// The place of the first stream header.
pub open spec fn streams_start(c: Cursor, m: Material) -> Cursor {
    c.skip(1 + 4 * file_unit(m)).aligned(2)
}

/// The number of streams of the table at `c`.
pub open spec fn stream_count(c: Cursor) -> int {
    file_count(c) * if is_split(c) {
        2int
    } else {
        1int
    }
}

/// The file of the leading pawn that the stream number `k` is for.
pub open spec fn stream_file(c: Cursor, k: int) -> int {
    if is_split(c) {
        k / 2
    } else {
        k
    }
}

/// Whether the stream number `k` is for black to move.
pub open spec fn stream_black(c: Cursor, k: int) -> bool {
    is_split(c) && k % 2 == 1
}

/// The part of the table whose stream is number `k`, and whose stream header
/// stands at `at`.
pub open spec fn side_at(c: Cursor, m: Material, k: int, at: Cursor) -> Option<Side> {
    let pieces = header_pieces(file_names(c, m, stream_file(c, k)), m.men(), stream_black(c, k));
    let norm = norm_of(pieces, m.men(), lead_pawns(m), other_pawns(m));
    match factors_of(
        norm,
        m.men(),
        half(file_order(c, m, stream_file(c, k)), stream_black(c, k)),
        half(file_order2(c, m, stream_file(c, k)), stream_black(c, k)),
        stream_file(c, k),
    ) {
        None => None,
        Some((size, factors)) => if size > usize::MAX || !header_ok(at.rest, at.at, size) {
            None
        } else {
            Some(
                Side {
                    table: TableView { pieces, norm, factors, pairs: header_view(at.rest, true) },
                    sizes: header_sizes(at.rest, size),
                    end: at.skip(header_len(at.rest, at.at)),
                },
            )
        },
    }
}

/// The first `k` parts of the table at `c`, before their tables are
/// attached: for each file of the leading pawn the part with white to move
/// and, where the table is split, the part with black to move.
pub open spec fn sides_upto(c: Cursor, m: Material, k: int) -> Option<Seq<Side>>
    decreases k,
{
    if k <= 0 {
        Some(Seq::empty())
    } else {
        match sides_upto(c, m, k - 1) {
            None => None,
            Some(before) => match side_at(
                c,
                m,
                k - 1,
                if k == 1 {
                    streams_start(c, m)
                } else {
                    before[k - 2].end
                },
            ) {
                None => None,
                Some(side) => Some(before.push(side)),
            },
        }
    }
}

/// What a table for material with pawns holds, as plain values.
pub struct WdlTableView {
    pub men: int,
    pub white_pawns: int,
    pub black_pawns: int,
    pub white_to_move: Seq<TableView>,
    pub black_to_move: Seq<TableView>,
}

impl View for WdlTable {
    type V = WdlTableView;

    open spec fn view(&self) -> WdlTableView {
        WdlTableView {
            men: self.men as int,
            white_pawns: self.white_pawns as int,
            black_pawns: self.black_pawns as int,
            white_to_move: Seq::new(self.white_to_move@.len(), |f: int| self.white_to_move@[f]@),
            black_to_move: Seq::new(self.black_to_move@.len(), |f: int| self.black_to_move@[f]@),
        }
    }
}

/// The part number `k` with its tables attached, which begin at `c`.
pub open spec fn side_with_tables(c: Cursor, sides: Seq<Side>, k: int) -> TableView {
    TableView { pairs: with_tables(c, side_sizes(sides), k, sides[k].table.pairs), ..sides[k].table }
}

/// The table for the material `m` that the bytes at `c`, after the magic
/// number, lay out; `None` where they end too early or contradict
/// themselves or the material.
pub open spec fn layout(c: Cursor, m: Material) -> Option<WdlTableView> {
    if !names_ok(c, m) {
        None
    } else {
        match sides_upto(c, m, stream_count(c)) {
            None => None,
            Some(sides) => {
                let start = sides[sides.len() - 1].end;
                if tables_at(start, side_sizes(sides)) is None {
                    None
                } else {
                    Some(
                        WdlTableView {
                            men: m.men(),
                            white_pawns: lead_pawns(m),
                            black_pawns: other_pawns(m),
                            white_to_move: Seq::new(
                                file_count(c) as nat,
                                |f: int|
                                    side_with_tables(
                                        start,
                                        sides,
                                        if is_split(c) {
                                            2 * f
                                        } else {
                                            f
                                        },
                                    ),
                            ),
                            black_to_move: if is_split(c) {
                                Seq::new(
                                    file_count(c) as nat,
                                    |f: int| side_with_tables(start, sides, 2 * f + 1),
                                )
                            } else {
                                Seq::empty()
                            },
                        },
                    )
                }
            },
        }
    }
}

/// The value that the part `table` stores for the position whose pieces
/// stand on `squares`.
pub open spec fn value_at(table: TableView, lead: int, other: int, squares: Seq<u8>) -> Option<
    Wdl,
> {
    match index_of(table.norm, table.factors, lead, other, squares) {
        None => None,
        Some(index) => stored_value(lookup_value(table.pairs, index as u64)),
    }
}

impl WdlTableView {
    /// The table has pawns that lead, no more men than can be held, and a
    /// part with white to move.
    pub open spec fn wf(self) -> bool {
        &&& 1 <= self.white_pawns <= 6
        &&& self.white_pawns + self.black_pawns <= self.men <= MAX_PIECES
        &&& self.white_to_move.len() >= 1
    }

    /// The squares of the leading pawns of `board`, as they are found.
    pub open spec fn found_pawns(self, board: Board, color_flip: bool) -> Seq<u8> {
        let found = squares_on(
            board,
            self.white_to_move[0].pieces[0].side().flipped_if(color_flip),
            self.white_to_move[0].pieces[0].kind(),
        );
        if color_flip {
            ranks_flipped(found)
        } else {
            found
        }
    }

    /// The squares of the leading pawns of `board`, the leading one first.
    pub open spec fn pawn_squares(self, board: Board, color_flip: bool) -> Seq<u8> {
        leader_first(self.found_pawns(board, color_flip), self.white_pawns, 0)
    }

    /// The value that the table stores for `board`, seen with the colours
    /// exchanged and the ranks mirrored where `color_flip` is set.
    pub open spec fn value_of(self, board: Board, color_flip: bool) -> Option<Wdl> {
        let pawns = self.pawn_squares(board, color_flip);
        let file = FILE_TO_FILE[(pawns[0] % 8) as int] as int;
        let tables = match mover(board).flipped_if(color_flip) {
            Color::White => self.white_to_move,
            Color::Black => self.black_to_move,
        };
        if self.found_pawns(board, color_flip).len() != self.white_pawns || file >= tables.len() {
            None
        } else {
            match gather(
                board,
                tables[file].pieces,
                color_flip,
                color_flip,
                self.men,
                self.white_pawns,
                pawns,
            ) {
                None => None,
                Some(squares) => value_at(
                    tables[file],
                    self.white_pawns,
                    self.black_pawns,
                    squares,
                ),
            }
        }
    }
}

/// What a header says for one file of the leading pawn.
pub struct FileNames {
    pub order: u8,
    pub order2: u8,
    pub wtm: [ColoredPiece; 8],
    pub btm: [ColoredPiece; 8],
}

/// The numbers of the pawns that lead and of the pawns of the other side.
fn pawn_counts(material: &Material) -> (r: (u8, u8))
    ensures
        r.0 == lead_pawns(*material),
        r.1 == other_pawns(*material),
{
    let white: u8 = material.white[4];
    let black: u8 = material.black[4];
    if white == 0 || (black != 0 && black < white) {
        (black, white)
    } else {
        (white, black)
    }
}

/// Reads what the header says for each file of the leading pawn, up to the
/// first stream header.
fn read_names(data: &mut DataStream<'_>, material: Material) -> (r: Option<(bool, Vec<FileNames>)>)
    requires
        material.wf(),
        material.pawns() > 0,
    ensures
        r is Some <==> names_ok(old(data)@, material),
        r matches Some((split, names)) ==> {
            &&& split == is_split(old(data)@)
            &&& names@.len() == file_count(old(data)@)
            &&& forall|f: int|
                0 <= f < names@.len() ==> {
                    &&& (#[trigger] names@[f]).order == file_order(old(data)@, material, f)
                    &&& names@[f].order2 == file_order2(old(data)@, material, f)
                    &&& names@[f].wtm@ == header_pieces(
                        file_names(old(data)@, material, f),
                        material.men(),
                        false,
                    )
                    &&& split ==> names@[f].btm@ == header_pieces(
                        file_names(old(data)@, material, f),
                        material.men(),
                        true,
                    )
                }
            &&& final(data)@ == streams_start(old(data)@, material)
        },
        final(data)@.at + final(data)@.rest.len() == old(data)@.at + old(data)@.rest.len(),
{
    let men: usize = material.count() as usize;
    let (_, other) = pawn_counts(&material);
    let unit: usize = if other > 0 {
        men + 2
    } else {
        men + 1
    };
    let ghost c = data@;
    let bytes = data.rest();
    if data.len() < 1 + 4 * unit {
        return None;
    }
    let flags: u8 = bytes[0];
    let split: bool = flags % 2 == 1;
    let files: usize = if (flags / 2) % 2 == 1 {
        4
    } else {
        1
    };
    if split == material.is_symmetric() {
        return None;
    }
    let mut names: Vec<FileNames> = Vec::new();
    let mut f: usize = 0;
    while f < files
        invariant
            f <= files <= 4,
            c == old(data)@,
            data@ == c,
            bytes@ == c.rest,
            men == material.men(),
            men <= 8,
            unit == file_unit(material),
            other == other_pawns(material),
            c.has(1 + 4 * unit),
            split == is_split(c),
            files == file_count(c),
            names@.len() == f,
            forall|g: int|
                0 <= g < f ==> header_pieces_ok(
                    #[trigger] file_names(c, material, g),
                    men as int,
                    split,
                ),
            forall|g: int|
                0 <= g < f ==> {
                    &&& (#[trigger] names@[g]).order == file_order(c, material, g)
                    &&& names@[g].order2 == file_order2(c, material, g)
                    &&& names@[g].wtm@ == header_pieces(file_names(c, material, g), men as int, false)
                    &&& split ==> names@[g].btm@ == header_pieces(
                        file_names(c, material, g),
                        men as int,
                        true,
                    )
                },
        decreases files - f,
    {
        let base: usize = 1 + f * unit;
        assert(base + unit <= 1 + 4 * unit) by (nonlinear_arith)
            requires
                base == 1 + f * unit,
                f < 4,
                unit >= 0,
        ;
        let order: u8 = bytes[base];
        let order2: u8 = if other > 0 {
            bytes[base + 1]
        } else {
            0xFF
        };
        let here = vstd::slice::slice_subrange(bytes, base + unit - men, base + unit);
        assert(base + unit == 1 + (f + 1) * unit) by (nonlinear_arith)
            requires
                base == 1 + f * unit,
        ;
        assert(here@ == file_names(c, material, f as int));
        let wtm = match read_pieces(here, men, false) {
            Some(pieces) => pieces,
            None => {
                assert(!header_pieces_ok(file_names(c, material, f as int), men as int, split));
                return None;
            },
        };
        let btm = if split {
            match read_pieces(here, men, true) {
                Some(pieces) => pieces,
                None => {
                    assert(!header_pieces_ok(file_names(c, material, f as int), men as int, split));
                    return None;
                },
            }
        } else {
            [ColoredPiece::WhitePawn; 8]
        };
        assert(header_pieces_ok(file_names(c, material, f as int), men as int, split));
        names.push(FileNames { order, order2, wtm, btm });
        f += 1;
    }
    let _ = data.read_array(1 + 4 * unit);
    let pad: usize = data.padding_to(2);
    if data.len() < pad {
        return None;
    }
    data.align_to(2);
    Some((split, names))
}

/// Where a part of the table cannot be read, the parts up to any later one cannot.
pub proof fn lemma_sides_none(c: Cursor, m: Material, k: int, n: int)
    requires
        0 <= k <= n,
        sides_upto(c, m, k) is None,
    ensures
        sides_upto(c, m, n) is None,
    decreases n - k,
{
    if k < n {
        lemma_sides_none(c, m, k, n - 1);
    }
}

/// Reads the stream header of the part number `k` of the table.
fn read_side(
    data: &mut DataStream<'_>,
    material: Material,
    split: bool,
    names: &Vec<FileNames>,
    k: usize,
    Ghost(c): Ghost<Cursor>,
) -> (r: Option<(Head, PairsData, Sizes)>)
    requires
        material.wf(),
        names_ok(c, material),
        split == is_split(c),
        names@.len() == file_count(c),
        k < stream_count(c),
        names@[stream_file(c, k as int)].order == file_order(c, material, stream_file(c, k as int)),
        names@[stream_file(c, k as int)].order2 == file_order2(
            c,
            material,
            stream_file(c, k as int),
        ),
        (if stream_black(c, k as int) {
            names@[stream_file(c, k as int)].btm@
        } else {
            names@[stream_file(c, k as int)].wtm@
        }) == header_pieces(
            file_names(c, material, stream_file(c, k as int)),
            material.men(),
            stream_black(c, k as int),
        ),
    ensures
        r is Some <==> side_at(c, material, k as int, old(data)@) is Some,
        r matches Some((head, stream, sizes)) ==> {
            let side = side_at(c, material, k as int, old(data)@)->0;
            &&& head.with(stream@) == side.table
            &&& sizes == side.sizes
            &&& final(data)@ == side.end
        },
        final(data)@.at + final(data)@.rest.len() == old(data)@.at + old(data)@.rest.len(),
{
    let men: usize = material.count() as usize;
    let (lead, other) = pawn_counts(&material);
    let f: usize = if split {
        k / 2
    } else {
        k
    };
    let black: bool = split && k % 2 == 1;
    let ghost at = data@;
    let pieces: [ColoredPiece; 8] = if black {
        names[f].btm
    } else {
        names[f].wtm
    };
    let order: u8 = if black {
        names[f].order / 16
    } else {
        names[f].order % 16
    };
    let order2: u8 = if black {
        names[f].order2 / 16
    } else {
        names[f].order2 % 16
    };
    let norm = calculate_norm(lead, other, men, &pieces);
    let (size, factors) = match calculate_factors(&norm, men, order, order2, f) {
        Some(found) => found,
        None => {
            return None;
        },
    };
    if size > usize::MAX as u64 {
        return None;
    }
    let (pairs_data, sizes) = match PairsData::create(data, size as usize, true) {
        Some(found) => found,
        None => {
            return None;
        },
    };
    assert(data@ =~= at.skip(header_len(at.rest, at.at)));
    Some((Head { pieces, norm, factors }, pairs_data, sizes))
}

/// Reads the stream headers of all parts of the table.
fn read_heads(
    data: &mut DataStream<'_>,
    material: Material,
    split: bool,
    names: &Vec<FileNames>,
    Ghost(c): Ghost<Cursor>,
) -> (r: Option<(Vec<Head>, Vec<PairsData>, Vec<Sizes>)>)
    requires
        material.wf(),
        names_ok(c, material),
        split == is_split(c),
        names@.len() == file_count(c),
        forall|f: int|
            0 <= f < names@.len() ==> {
                &&& (#[trigger] names@[f]).order == file_order(c, material, f)
                &&& names@[f].order2 == file_order2(c, material, f)
                &&& names@[f].wtm@ == header_pieces(file_names(c, material, f), material.men(), false)
                &&& split ==> names@[f].btm@ == header_pieces(
                    file_names(c, material, f),
                    material.men(),
                    true,
                )
            },
        old(data)@ == streams_start(c, material),
    ensures
        r is Some <==> sides_upto(c, material, stream_count(c)) is Some,
        r matches Some((heads, streams, sizes)) ==> {
            let sides = sides_upto(c, material, stream_count(c))->0;
            &&& sides.len() == stream_count(c)
            &&& heads@.len() == sides.len()
            &&& streams@.len() == sides.len()
            &&& sizes@ == side_sizes(sides)
            &&& forall|k: int|
                0 <= k < sides.len() ==> (#[trigger] heads@[k]).with(streams@[k]@)
                    == sides[k].table
            &&& final(data)@ == sides[sides.len() - 1].end
        },
        final(data)@.at + final(data)@.rest.len() == old(data)@.at + old(data)@.rest.len(),
{
    let files: usize = names.len();
    let n: usize = if split {
        2 * files
    } else {
        files
    };
    let mut heads: Vec<Head> = Vec::new();
    let mut streams: Vec<PairsData> = Vec::new();
    let mut sizes: Vec<Sizes> = Vec::new();
    let ghost mut sides: Seq<Side> = Seq::empty();
    let mut k: usize = 0;
    while k < n
        invariant
            k <= n <= 8,
            n == stream_count(c),
            files == file_count(c),
            files == names@.len(),
            split == is_split(c),
            material.wf(),
            names_ok(c, material),
            forall|f: int|
                0 <= f < names@.len() ==> {
                    &&& (#[trigger] names@[f]).order == file_order(c, material, f)
                    &&& names@[f].order2 == file_order2(c, material, f)
                    &&& names@[f].wtm@ == header_pieces(
                        file_names(c, material, f),
                        material.men(),
                        false,
                    )
                    &&& split ==> names@[f].btm@ == header_pieces(
                        file_names(c, material, f),
                        material.men(),
                        true,
                    )
                },
            sides_upto(c, material, k as int) == Some(sides),
            sides.len() == k,
            heads@.len() == k,
            streams@.len() == k,
            sizes@.len() == k,
            forall|j: int|
                0 <= j < k ==> (#[trigger] heads@[j]).with(streams@[j]@) == sides[j].table,
            forall|j: int| 0 <= j < k ==> (#[trigger] sizes@[j]) == sides[j].sizes,
            data@ == if k == 0 {
                streams_start(c, material)
            } else {
                sides[k - 1].end
            },
            data@.at + data@.rest.len() == old(data)@.at + old(data)@.rest.len(),
        decreases n - k,
    {
        let ghost at = data@;
        assert(names@[stream_file(c, k as int)].order == file_order(
            c,
            material,
            stream_file(c, k as int),
        ));
        let (head, stream, stream_sizes) = match read_side(data, material, split, names, k, Ghost(c)) {
            Some(found) => found,
            None => {
                proof {
                    assert(sides_upto(c, material, k + 1) is None);
                    lemma_sides_none(c, material, k + 1, n as int);
                }
                return None;
            },
        };
        proof {
            let side = side_at(c, material, k as int, at)->0;
            assert(sides_upto(c, material, k + 1) == Some(sides.push(side)));
            sides = sides.push(side);
        }
        heads.push(head);
        streams.push(stream);
        sizes.push(stream_sizes);
        k += 1;
    }
    proof {
        assert(sizes@ =~= side_sizes(sides));
    }
    Some((heads, streams, sizes))
}

/// Sorts the parts of the table by the side to move.
fn build_tables(heads: Vec<Head>, streams: Vec<PairsData>, split: bool) -> (r: (
    Vec<Table>,
    Vec<Table>,
))
    requires
        heads@.len() == streams@.len(),
        split ==> heads@.len() % 2 == 0,
    ensures
        split ==> r.0@.len() == heads@.len() / 2 && r.1@.len() == heads@.len() / 2,
        !split ==> r.0@.len() == heads@.len() && r.1@.len() == 0,
        forall|f: int|
            0 <= f < r.0@.len() ==> (#[trigger] r.0@[f])@ == heads@[if split {
                2 * f
            } else {
                f
            }].with(
                streams@[if split {
                    2 * f
                } else {
                    f
                }]@,
            ),
        forall|f: int|
            0 <= f < r.1@.len() ==> (#[trigger] r.1@[f])@ == heads@[2 * f + 1].with(
                streams@[2 * f + 1]@,
            ),
{
    let ghost all_heads = heads@;
    let ghost all_streams = streams@;
    let mut heads = heads;
    let mut streams = streams;
    let mut white: Vec<Table> = Vec::new();
    let mut black: Vec<Table> = Vec::new();
    let n: usize = heads.len();
    let mut left: usize = n;
    while left > 0
        invariant
            left <= n,
            n == all_heads.len(),
            n == all_streams.len(),
            split ==> n % 2 == 0,
            heads@ == all_heads.take(left as int),
            streams@ == all_streams.take(left as int),
            split ==> white@.len() == (n - left) / 2 && black@.len() == (n - left + 1) / 2,
            !split ==> white@.len() == n - left && black@.len() == 0,
            forall|f: int|
                0 <= f < white@.len() ==> (#[trigger] white@[f])@ == all_heads[if split {
                    2 * (f + (left + 1) / 2)
                } else {
                    f + left
                }].with(
                    all_streams[if split {
                        2 * (f + (left + 1) / 2)
                    } else {
                        f + left
                    }]@,
                ),
            forall|f: int|
                0 <= f < black@.len() ==> (#[trigger] black@[f])@ == all_heads[2 * (f + left / 2)
                    + 1].with(all_streams[2 * (f + left / 2) + 1]@),
        decreases left,
    {
        let head = heads.pop();
        let stream = streams.pop();
        left -= 1;
        let ghost white_before = white@;
        let ghost black_before = black@;
        match (head, stream) {
            (Some(head), Some(pairs_data)) => {
                let table = Table {
                    pieces: head.pieces,
                    norm: head.norm,
                    factors: head.factors,
                    pairs_data,
                };
                assert(table@ == all_heads[left as int].with(all_streams[left as int]@));
                if split && left % 2 == 1 {
                    black.insert(0, table);
                } else {
                    white.insert(0, table);
                }
            },
            _ => {},
        }
        proof {
            assert(heads@ =~= all_heads.take(left as int));
            assert(streams@ =~= all_streams.take(left as int));
            assert forall|f: int| 0 <= f < white@.len() implies (#[trigger] white@[f])@
                == all_heads[if split {
                2 * (f + (left + 1) / 2)
            } else {
                f + left
            }].with(
                all_streams[if split {
                    2 * (f + (left + 1) / 2)
                } else {
                    f + left
                }]@,
            ) by {
                if split && left % 2 == 1 {
                    assert(white@[f] == white_before[f]);
                } else if f > 0 {
                    assert(white@[f] == white_before[f - 1]);
                }
            }
            assert forall|f: int| 0 <= f < black@.len() implies (#[trigger] black@[f])@
                == all_heads[2 * (f + left / 2) + 1].with(all_streams[2 * (f + left / 2) + 1]@) by {
                if split && left % 2 == 1 {
                    if f > 0 {
                        assert(black@[f] == black_before[f - 1]);
                    }
                } else {
                    assert(black@[f] == black_before[f]);
                }
            }
        }
    }
    (white, black)
}

impl WdlTable {
    /// The table has pawns that lead, no more men than can be held, and a
    /// part with white to move.
    pub open spec fn wf(&self) -> bool {
        self@.wf()
    }

    /// Reads a table for `material` from the bytes after the magic number.
    pub fn new(data: &mut DataStream<'_>, material: Material) -> (r: Option<WdlTable>)
        requires
            material.wf(),
            material.pawns() > 0,
        ensures
            r is Some <==> layout(old(data)@, material) is Some,
            r matches Some(table) ==> Some(table@) == layout(old(data)@, material) && table.wf(),
            final(data)@.at + final(data)@.rest.len() == old(data)@.at + old(data)@.rest.len(),
    {
        let ghost c = data@;
        let (split, names) = match read_names(data, material) {
            Some(found) => found,
            None => {
                return None;
            },
        };
        let (heads, streams, sizes) = match read_heads(data, material, split, &names, Ghost(c)) {
            Some(found) => found,
            None => {
                return None;
            },
        };
        let ghost sides = sides_upto(c, material, stream_count(c))->0;
        let ghost start = data@;
        let ghost before = streams@;
        let streams = match read_stream_tables(data, streams, &sizes) {
            Some(streams) => streams,
            None => {
                return None;
            },
        };
        let ghost attached = streams@;
        let ghost all_heads = heads@;
        let (white_to_move, black_to_move) = build_tables(heads, streams, split);
        let (lead, other) = pawn_counts(&material);
        let table = WdlTable {
            men: material.count() as usize,
            white_pawns: lead as usize,
            black_pawns: other as usize,
            white_to_move,
            black_to_move,
        };
        proof {
            let goal = layout(c, material)->0;
            assert forall|k: int| 0 <= k < sides.len() implies (#[trigger] all_heads[k]).with(
                attached[k]@,
            ) == side_with_tables(start, sides, k) by {
                assert(all_heads[k].with(before[k]@) == sides[k].table);
                assert(attached[k]@ == with_tables(start, sizes@, k, before[k]@));
            }
            assert(table@.white_to_move =~= goal.white_to_move);
            assert(table@.black_to_move =~= goal.black_to_move);
            assert(table@ =~= goal);
        }
        Some(table)
    }

    /// The value that the table stores for `pos`, seen with the colours
    /// exchanged and the ranks mirrored where `color_flip` is set.
    pub fn read(&self, pos: &Board, color_flip: bool) -> (r: Option<Wdl>)
        requires
            self.wf(),
        ensures
            r == self@.value_of(*pos, color_flip),
    {
        let k: ColoredPiece = self.white_to_move[0].pieces[0];
        let mut squares = crate::position::piece_squares(pos, k.color().flip_if(color_flip), k.piece());
        if color_flip {
            crate::table::flip_ranks(&mut squares);
        }
        if squares.len() != self.white_pawns {
            return None;
        }
        let f: usize = pawn_file(self.white_pawns, &mut squares);
        let tables: &Vec<Table> = match to_move(pos).flip_if(color_flip) {
            Color::White => &self.white_to_move,
            Color::Black => &self.black_to_move,
        };
        if f >= tables.len() {
            return None;
        }
        let table: &Table = &tables[f];
        let squares = match gather_squares(pos, &table.pieces, color_flip, color_flip, self.men, squares) {
            Some(squares) => squares,
            None => {
                return None;
            },
        };
        let index: u64 = match table.index(self.white_pawns, self.black_pawns, squares) {
            Some(index) => index,
            None => {
                return None;
            },
        };
        match table.pairs_data.lookup(index) {
            Some(byte) => Wdl::from_byte(byte),
            None => None,
        }
    }
}

} // verus!
