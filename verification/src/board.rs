//! What the prober reads from a `cozy_chess::Board`, and what it asks of its
//! move generator. Nothing here is proved: each function states what the
//! chess library is taken to do.
use crate::piece::{Color, PIECE_KINDS};
use cozy_chess::{Board, Move, Piece, Square};
use vstd::prelude::*;

verus! {

#[verifier::external_type_specification]
#[verifier::external_body]
pub struct ExBoard(Board);

/// A move as plain numbers: the kind of the piece that moves, from 0 for a
/// pawn to 5 for a king, the squares it leaves and reaches, from 0 for a1 to
/// 63 for h8, and the kind it is promoted to.
#[derive(Clone, Copy, Debug, PartialEq, Eq, Structural)]
pub struct ChessMove {
    pub piece: u8,
    pub from: u8,
    pub to: u8,
    pub promotion: Option<u8>,
}

/// The squares on which `board` has a piece of the given colour and kind: bit
/// `s` is set for the square `s`.
pub uninterp spec fn piece_mask(board: Board, black: bool, kind: u8) -> u64;

/// Whether black is to move on `board`.
pub uninterp spec fn black_to_move(board: Board) -> bool;

/// The files of the rooks with which the given side of `board` may still
/// castle, short and long.
pub uninterp spec fn castle_files(board: Board, black: bool) -> (Option<u8>, Option<u8>);

/// The file of the pawn that can be taken en passant on `board`.
pub uninterp spec fn en_passant_file(board: Board) -> Option<u8>;

/// The legal moves of `board`, in the order in which its generator hands them out.
pub uninterp spec fn legal_moves(board: Board) -> Seq<ChessMove>;

/// The position that a legal move of `board` leads to.
pub uninterp spec fn board_after(board: Board, mv: ChessMove) -> Board;

/// `Board::colored_pieces`: the bitboard of the pieces of one colour and kind.
#[verifier::external_body]
pub(crate) fn colored_pieces(board: &Board, color: Color, kind: u8) -> (r: u64)
    requires
        kind < PIECE_KINDS,
    ensures
        r == piece_mask(*board, color == Color::Black, kind),
{
    let color = match color {
        Color::White => cozy_chess::Color::White,
        Color::Black => cozy_chess::Color::Black,
    };
    board.colored_pieces(color, Piece::index(kind as usize)).0
}

/// `Board::side_to_move`.
#[verifier::external_body]
pub(crate) fn side_to_move(board: &Board) -> (r: Color)
    ensures
        r == if black_to_move(*board) {
            Color::Black
        } else {
            Color::White
        },
{
    match board.side_to_move() {
        cozy_chess::Color::White => Color::White,
        cozy_chess::Color::Black => Color::Black,
    }
}

/// `Board::castle_rights`: the two rook files of one side, each as its index
/// from 0 for the a-file.
#[verifier::external_body]
pub(crate) fn castle_rights(board: &Board, color: Color) -> (r: (Option<u8>, Option<u8>))
    ensures
        r == castle_files(*board, color == Color::Black),
{
    let color = match color {
        Color::White => cozy_chess::Color::White,
        Color::Black => cozy_chess::Color::Black,
    };
    let rights = board.castle_rights(color);
    (rights.short.map(|f| f as u8), rights.long.map(|f| f as u8))
}

/// `Board::en_passant`: the en passant file as its index, which is below 8
/// because there are eight files.
#[verifier::external_body]
pub(crate) fn en_passant(board: &Board) -> (r: Option<u8>)
    ensures
        r == en_passant_file(*board),
        r matches Some(file) ==> file < 8,
{
    board.en_passant().map(|f| f as u8)
}

/// `Board::generate_moves`: every legal move, with the kind of the piece that
/// moves. Squares are below 64 and kinds below 6 because they are the indices
/// of the chess library's `Square` and `Piece`.
#[verifier::external_body]
pub(crate) fn generate_moves(board: &Board) -> (r: Vec<ChessMove>)
    ensures
        r@ == legal_moves(*board),
        forall|i: int|
            0 <= i < r@.len() ==> (#[trigger] r@[i]).from < 64 && r@[i].to < 64 && r@[i].piece
                < PIECE_KINDS,
{
    let mut out = Vec::new();
    board.generate_moves(|moves| {
        let piece = moves.piece as u8;
        out.extend(moves.into_iter().map(|m| ChessMove {
            piece,
            from: m.from as u8,
            to: m.to as u8,
            promotion: m.promotion.map(|p| p as u8),
        }));
        false
    });
    out
}

/// `Board::play_unchecked` on a copy of the board. The chess library asks for
/// a legal move, so only a move that its generator handed out is played.
#[verifier::external_body]
pub(crate) fn play(board: &Board, mv: ChessMove) -> (r: Board)
    requires
        legal_moves(*board).contains(mv),
    ensures
        r == board_after(*board, mv),
{
    let mut next = board.clone();
    next.play_unchecked(Move {
        from: Square::index(mv.from as usize),
        to: Square::index(mv.to as usize),
        promotion: mv.promotion.map(|p| Piece::index(p as usize)),
    });
    next
}

} // verus!
