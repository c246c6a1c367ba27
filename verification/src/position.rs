//! What the prober reads from a board: where the pieces of a kind stand, and
//! the material.
use crate::board::{
    black_to_move, castle_files, castle_rights, colored_pieces, en_passant, en_passant_file,
    generate_moves, legal_moves, piece_mask, side_to_move, ChessMove,
};
use crate::constants::MAX_PIECES;
use crate::material::{total, Material};
use crate::piece::{Color, PAWN, PIECE_KINDS};
use cozy_chess::Board;
use vstd::prelude::*;

verus! {

/// Whether the square `sq` is in the set `mask`.
pub open spec fn bit_set(mask: u64, sq: int) -> bool {
    (mask >> (sq as u64)) & 1 == 1
}

/// The squares below `n` that are in the set `mask`, in ascending order.
pub open spec fn squares_below(mask: u64, n: int) -> Seq<u8>
    decreases n,
{
    if n <= 0 {
        Seq::empty()
    } else if bit_set(mask, n - 1) {
        squares_below(mask, n - 1).push((n - 1) as u8)
    } else {
        squares_below(mask, n - 1)
    }
}

/// The squares of the set `mask`, in ascending order.
pub open spec fn mask_squares(mask: u64) -> Seq<u8> {
    squares_below(mask, 64)
}

/// The squares on which `board` has a piece of the given colour and kind, in
/// ascending order.
pub open spec fn squares_on(board: Board, color: Color, kind: int) -> Seq<u8> {
    mask_squares(piece_mask(board, color == Color::Black, kind as u8))
}

/// The side to move on `board`.
pub open spec fn mover(board: Board) -> Color {
    if black_to_move(board) {
        Color::Black
    } else {
        Color::White
    }
}

/// Whether a side of `board` may still castle.
pub open spec fn can_castle(board: Board) -> bool {
    ||| castle_files(board, false).0 is Some
    ||| castle_files(board, false).1 is Some
    ||| castle_files(board, true).0 is Some
    ||| castle_files(board, true).1 is Some
}

/// The number of pieces of each kind but the king that `color` has on
/// `board`, queens first and pawns last.
pub open spec fn counts_on(board: Board, color: Color) -> Seq<int> {
    Seq::new(5, |i: int| squares_on(board, color, 4 - i).len() as int)
}

/// The number of men on `board` beside the kings.
pub open spec fn pieces_on(board: Board) -> int {
    counts_on(board, Color::White)[0] + counts_on(board, Color::White)[1] + counts_on(
        board,
        Color::White,
    )[2] + counts_on(board, Color::White)[3] + counts_on(board, Color::White)[4] + counts_on(
        board,
        Color::Black,
    )[0] + counts_on(board, Color::Black)[1] + counts_on(board, Color::Black)[2] + counts_on(
        board,
        Color::Black,
    )[3] + counts_on(board, Color::Black)[4]
}

/// Whether `m` is the material of `board`.
pub open spec fn is_material_of(m: Material, board: Board) -> bool {
    &&& forall|i: int| 0 <= i < 5 ==> m.white[i] == #[trigger] counts_on(board, Color::White)[i]
    &&& forall|i: int| 0 <= i < 5 ==> m.black[i] == #[trigger] counts_on(board, Color::Black)[i]
}

/// The squares of a set are on the board, and each is above the one before.
pub proof fn lemma_squares_below(mask: u64, n: int)
    requires
        0 <= n <= 64,
    ensures
        squares_below(mask, n).len() <= n,
        forall|k: int| 0 <= k < squares_below(mask, n).len() ==> squares_below(mask, n)[k] < n,
        forall|j: int, k: int|
            0 <= j < k < squares_below(mask, n).len() ==> squares_below(mask, n)[j]
                < squares_below(mask, n)[k],
    decreases n,
{
    if n > 0 {
        lemma_squares_below(mask, n - 1);
    }
}

/// The squares of the set `mask`, in ascending order.
pub fn squares_of(mask: u64) -> (r: Vec<u8>)
    ensures
        r@ == mask_squares(mask),
        r@.len() <= 64,
        forall|k: int| 0 <= k < r@.len() ==> r@[k] < 64,
{
    let mut out: Vec<u8> = Vec::new();
    let mut sq: u8 = 0;
    while sq < 64
        invariant
            sq <= 64,
            out@ == squares_below(mask, sq as int),
        decreases 64 - sq,
    {
        if (mask >> (sq as u64)) & 1 == 1 {
            out.push(sq);
        }
        sq += 1;
    }
    proof {
        lemma_squares_below(mask, 64);
    }
    out
}

/// The squares on which `board` has a piece of the given colour and kind, in
/// ascending order.
pub fn piece_squares(board: &Board, color: Color, kind: u8) -> (r: Vec<u8>)
    requires
        kind < PIECE_KINDS,
    ensures
        r@ == squares_on(*board, color, kind as int),
        r@.len() <= 64,
        forall|k: int| 0 <= k < r@.len() ==> r@[k] < 64,
{
    squares_of(colored_pieces(board, color, kind))
}

/// The side to move on `board`.
pub fn to_move(board: &Board) -> (r: Color)
    ensures
        r == mover(*board),
{
    side_to_move(board)
}

/// Whether a side of `board` may still castle.
pub fn has_castle_rights(board: &Board) -> (r: bool)
    ensures
        r == can_castle(*board),
{
    let white = castle_rights(board, Color::White);
    let black = castle_rights(board, Color::Black);
    white.0.is_some() || white.1.is_some() || black.0.is_some() || black.1.is_some()
}

/// The counts of the pieces of one side of `board`, queens first and pawns last.
fn side_counts(board: &Board, color: Color) -> (r: [u8; 5])
    ensures
        forall|i: int| 0 <= i < 5 ==> r[i] == #[trigger] counts_on(*board, color)[i],
{
    let mut counts: [u8; 5] = [0, 0, 0, 0, 0];
    let mut i: usize = 0;
    while i < 5
        invariant
            i <= 5,
            forall|k: int| 0 <= k < i ==> counts[k] == #[trigger] counts_on(*board, color)[k],
        decreases 5 - i,
    {
        let found = piece_squares(board, color, (4 - i) as u8);
        counts[i] = found.len() as u8;
        i += 1;
    }
    counts
}

/// The material of `board`.
pub open spec fn material_on(board: Board) -> Material {
    choose|m: Material| is_material_of(m, board)
}

/// A board has one material.
pub proof fn lemma_material_unique(a: Material, b: Material, board: Board)
    requires
        is_material_of(a, board),
        is_material_of(b, board),
    ensures
        a == b,
{
    assert forall|i: int| 0 <= i < 5 implies a.white[i] == b.white[i] by {
        assert(a.white[i] == counts_on(board, Color::White)[i]);
        assert(b.white[i] == counts_on(board, Color::White)[i]);
    }
    assert forall|i: int| 0 <= i < 5 implies a.black[i] == b.black[i] by {
        assert(a.black[i] == counts_on(board, Color::Black)[i]);
        assert(b.black[i] == counts_on(board, Color::Black)[i]);
    }
    assert(a.white@ =~= b.white@);
    assert(a.black@ =~= b.black@);
    assert(a.white == b.white);
    assert(a.black == b.black);
}

/// The number of men on `board` beside the kings.
pub fn men_on(board: &Board) -> (r: usize)
    ensures
        r == pieces_on(*board),
        r <= 2550,
{
    let white = side_counts(board, Color::White);
    let black = side_counts(board, Color::Black);
    proof {
        assert(white[0] == counts_on(*board, Color::White)[0]);
        assert(white[1] == counts_on(*board, Color::White)[1]);
        assert(white[2] == counts_on(*board, Color::White)[2]);
        assert(white[3] == counts_on(*board, Color::White)[3]);
        assert(white[4] == counts_on(*board, Color::White)[4]);
        assert(black[0] == counts_on(*board, Color::Black)[0]);
        assert(black[1] == counts_on(*board, Color::Black)[1]);
        assert(black[2] == counts_on(*board, Color::Black)[2]);
        assert(black[3] == counts_on(*board, Color::Black)[3]);
        assert(black[4] == counts_on(*board, Color::Black)[4]);
    }
    white[0] as usize + white[1] as usize + white[2] as usize + white[3] as usize
        + white[4] as usize + black[0] as usize + black[1] as usize + black[2] as usize
        + black[3] as usize + black[4] as usize
}

/// The material of `board`, unless there are more men on it than `MAX_PIECES`.
pub fn material_of(board: &Board) -> (r: Option<Material>)
    ensures
        r is Some <==> pieces_on(*board) + 2 <= MAX_PIECES,
        r matches Some(m) ==> is_material_of(m, *board) && m.wf() && m == material_on(*board),
        r matches Some(m) ==> m.men() == pieces_on(*board) + 2,
{
    let white = side_counts(board, Color::White);
    let black = side_counts(board, Color::Black);
    proof {
        assert(total(white) == counts_on(*board, Color::White)[0] + counts_on(
            *board,
            Color::White,
        )[1] + counts_on(*board, Color::White)[2] + counts_on(*board, Color::White)[3] + counts_on(
            *board,
            Color::White,
        )[4]);
        assert(total(black) == counts_on(*board, Color::Black)[0] + counts_on(
            *board,
            Color::Black,
        )[1] + counts_on(*board, Color::Black)[2] + counts_on(*board, Color::Black)[3] + counts_on(
            *board,
            Color::Black,
        )[4]);
    }
    let found = Material::new(white, black);
    proof {
        if let Some(m) = found {
            assert(is_material_of(m, *board));
            lemma_material_unique(m, material_on(*board), *board);
        }
    }
    found
}

/// The squares on which `color` has a man on `board`, as a set.
pub open spec fn occupied_by(board: Board, color: Color) -> u64 {
    piece_mask(board, color == Color::Black, 0) | piece_mask(board, color == Color::Black, 1)
        | piece_mask(board, color == Color::Black, 2) | piece_mask(
        board,
        color == Color::Black,
        3,
    ) | piece_mask(board, color == Color::Black, 4) | piece_mask(board, color == Color::Black, 5)
}

/// The square on which a pawn lands that takes en passant on `board`: on
/// the en passant file, and on the sixth rank as the side to move sees it.
pub open spec fn en_passant_square(board: Board) -> Option<int> {
    match en_passant_file(board) {
        None => None,
        Some(file) => Some(
            file + 8 * if black_to_move(board) {
                2int
            } else {
                5int
            },
        ),
    }
}

/// Whether the move takes a man: it ends on a square of the other side.
pub open spec fn is_capture(board: Board, mv: ChessMove) -> bool {
    bit_set(occupied_by(board, mover(board).other()), mv.to as int)
}

/// Whether the move takes a pawn en passant.
pub open spec fn is_en_passant(board: Board, mv: ChessMove) -> bool {
    mv.piece == PAWN && en_passant_square(board) == Some(mv.to as int)
}

/// A move that takes a man, and whether it does so en passant.
#[derive(Clone, Copy, Debug)]
pub struct Capture {
    pub mv: ChessMove,
    pub en_passant: bool,
}

/// The captures among the first `n` legal moves of `board`, in the order of
/// the moves; with `with_ep`, those en passant are among them.
pub open spec fn captures_upto(board: Board, with_ep: bool, n: int) -> Seq<Capture>
    decreases n,
{
    if n <= 0 {
        Seq::empty()
    } else if is_capture(board, legal_moves(board)[n - 1]) || (with_ep && is_en_passant(
        board,
        legal_moves(board)[n - 1],
    )) {
        captures_upto(board, with_ep, n - 1).push(
            Capture {
                mv: legal_moves(board)[n - 1],
                en_passant: with_ep && is_en_passant(board, legal_moves(board)[n - 1]),
            },
        )
    } else {
        captures_upto(board, with_ep, n - 1)
    }
}

/// The captures among the legal moves of `board`.
pub open spec fn captures_of(board: Board, with_ep: bool) -> Seq<Capture> {
    captures_upto(board, with_ep, legal_moves(board).len() as int)
}

/// The number of moves among the first `n` legal moves of `board` that do
/// not take en passant.
pub open spec fn plain_moves_upto(board: Board, n: int) -> int
    decreases n,
{
    if n <= 0 {
        0
    } else {
        plain_moves_upto(board, n - 1) + if is_en_passant(board, legal_moves(board)[n - 1]) {
            0int
        } else {
            1int
        }
    }
}

/// The number of legal moves of `board` that do not take en passant.
pub open spec fn plain_moves(board: Board) -> int {
    plain_moves_upto(board, legal_moves(board).len() as int)
}

/// Every capture is a legal move.
pub proof fn lemma_captures_legal(board: Board, with_ep: bool, n: int)
    requires
        0 <= n <= legal_moves(board).len(),
    ensures
        forall|i: int|
            0 <= i < captures_upto(board, with_ep, n).len() ==> legal_moves(board).contains(
                (#[trigger] captures_upto(board, with_ep, n)[i]).mv,
            ),
        captures_upto(board, with_ep, n).len() <= n,
        0 <= plain_moves_upto(board, n) <= n,
    decreases n,
{
    if n > 0 {
        lemma_captures_legal(board, with_ep, n - 1);
        assert(legal_moves(board)[n - 1] == legal_moves(board)[n - 1]);
    }
}

/// The squares on which `color` has a man on `board`, as a set.
pub fn occupied(board: &Board, color: Color) -> (r: u64)
    ensures
        r == occupied_by(*board, color),
{
    colored_pieces(board, color, 0) | colored_pieces(board, color, 1) | colored_pieces(
        board,
        color,
        2,
    ) | colored_pieces(board, color, 3) | colored_pieces(board, color, 4) | colored_pieces(
        board,
        color,
        5,
    )
}

/// The captures among the legal moves of `board`, and the number of legal
/// moves that do not take en passant.
pub fn capture_moves(board: &Board, with_ep: bool) -> (r: (Vec<Capture>, usize))
    ensures
        r.0@ == captures_of(*board, with_ep),
        r.1 == plain_moves(*board),
        forall|i: int| 0 <= i < r.0@.len() ==> legal_moves(*board).contains((#[trigger] r.0@[i]).mv),
{
    let moves = generate_moves(board);
    let theirs: u64 = occupied(board, to_move(board).opposite());
    let ep_square: Option<u8> = match en_passant(board) {
        None => None,
        Some(file) => Some(
            file + 8 * if to_move(board).is_black() {
                2u8
            } else {
                5u8
            },
        ),
    };
    let mut captures: Vec<Capture> = Vec::new();
    let mut plain: usize = 0;
    let mut i: usize = 0;
    while i < moves.len()
        invariant
            i <= moves@.len(),
            moves@ == legal_moves(*board),
            forall|k: int| 0 <= k < moves@.len() ==> (#[trigger] moves@[k]).to < 64,
            theirs == occupied_by(*board, mover(*board).other()),
            match ep_square {
                None => en_passant_square(*board) is None,
                Some(sq) => en_passant_square(*board) == Some(sq as int),
            },
            captures@ == captures_upto(*board, with_ep, i as int),
            plain == plain_moves_upto(*board, i as int),
            plain <= i,
        decreases moves@.len() - i,
    {
        let mv: ChessMove = moves[i];
        let takes: bool = (theirs >> (mv.to as u64)) & 1 == 1;
        let en_passant: bool = mv.piece == PAWN && match ep_square {
            None => false,
            Some(sq) => sq == mv.to,
        };
        if !en_passant {
            plain += 1;
        }
        if takes || (with_ep && en_passant) {
            captures.push(Capture { mv, en_passant: with_ep && en_passant });
        }
        i += 1;
    }
    proof {
        lemma_captures_legal(*board, with_ep, moves@.len() as int);
    }
    (captures, plain)
}

} // verus!
