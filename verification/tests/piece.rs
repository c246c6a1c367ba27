use cozy_syzygy::piece::{Color, ColoredPiece, BISHOP, KING, KNIGHT, PAWN, QUEEN, ROOK};

#[test]
fn decode_knows_the_twelve_pieces() {
    assert_eq!(ColoredPiece::decode(1), Some(ColoredPiece::WhitePawn));
    assert_eq!(ColoredPiece::decode(2), Some(ColoredPiece::WhiteKnight));
    assert_eq!(ColoredPiece::decode(3), Some(ColoredPiece::WhiteBishop));
    assert_eq!(ColoredPiece::decode(4), Some(ColoredPiece::WhiteRook));
    assert_eq!(ColoredPiece::decode(5), Some(ColoredPiece::WhiteQueen));
    assert_eq!(ColoredPiece::decode(6), Some(ColoredPiece::WhiteKing));
    assert_eq!(ColoredPiece::decode(9), Some(ColoredPiece::BlackPawn));
    assert_eq!(ColoredPiece::decode(10), Some(ColoredPiece::BlackKnight));
    assert_eq!(ColoredPiece::decode(11), Some(ColoredPiece::BlackBishop));
    assert_eq!(ColoredPiece::decode(12), Some(ColoredPiece::BlackRook));
    assert_eq!(ColoredPiece::decode(13), Some(ColoredPiece::BlackQueen));
    assert_eq!(ColoredPiece::decode(14), Some(ColoredPiece::BlackKing));
}

#[test]
fn decode_refuses_the_codes_of_no_piece() {
    for v in [0u8, 7, 8, 15, 16, 17, 100, 255] {
        assert_eq!(ColoredPiece::decode(v), None);
    }
}

#[test]
fn encode_is_the_inverse_of_decode() {
    for v in 0..=255u8 {
        if let Some(p) = ColoredPiece::decode(v) {
            assert_eq!(p.encode(), v);
        }
    }
}

#[test]
fn a_piece_has_a_kind_and_a_colour() {
    assert_eq!(ColoredPiece::WhitePawn.piece(), PAWN);
    assert_eq!(ColoredPiece::BlackKnight.piece(), KNIGHT);
    assert_eq!(ColoredPiece::WhiteBishop.piece(), BISHOP);
    assert_eq!(ColoredPiece::BlackRook.piece(), ROOK);
    assert_eq!(ColoredPiece::WhiteQueen.piece(), QUEEN);
    assert_eq!(ColoredPiece::BlackKing.piece(), KING);
    assert_eq!(ColoredPiece::WhiteKing.color(), Color::White);
    assert_eq!(ColoredPiece::BlackPawn.color(), Color::Black);
    for v in 0..16u8 {
        if let Some(p) = ColoredPiece::decode(v) {
            assert_eq!(p.piece(), (v & 7) - 1);
            assert_eq!(p.color() == Color::Black, v & 8 != 0);
        }
    }
}

#[test]
fn colours_flip() {
    assert_eq!(Color::White.opposite(), Color::Black);
    assert_eq!(Color::Black.opposite(), Color::White);
    assert_eq!(Color::White.flip_if(false), Color::White);
    assert_eq!(Color::White.flip_if(true), Color::Black);
    assert!(Color::Black.is_black());
    assert!(!Color::White.is_black());
}
