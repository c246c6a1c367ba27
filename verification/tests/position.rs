use cozy_chess::Board;
use cozy_syzygy::material::Material;
use cozy_syzygy::piece::{Color, BISHOP, KING, KNIGHT, PAWN, QUEEN, ROOK};
use cozy_syzygy::position::{
    capture_moves, has_castle_rights, material_of, men_on, occupied, piece_squares, squares_of,
    to_move,
};

fn board(fen: &str) -> Board {
    fen.parse().unwrap()
}

#[test]
fn the_squares_of_a_set_come_in_ascending_order() {
    assert_eq!(squares_of(0), Vec::<u8>::new());
    assert_eq!(squares_of(1), vec![0]);
    assert_eq!(squares_of(1 << 63), vec![63]);
    assert_eq!(squares_of(0x8000_0000_0001_0102), vec![1, 8, 16, 63]);
    assert_eq!(squares_of(u64::MAX), (0..64).collect::<Vec<u8>>());
}

#[test]
fn the_pieces_of_a_board_are_found() {
    let start = Board::default();
    assert_eq!(piece_squares(&start, Color::White, PAWN), vec![8, 9, 10, 11, 12, 13, 14, 15]);
    assert_eq!(piece_squares(&start, Color::Black, PAWN), vec![48, 49, 50, 51, 52, 53, 54, 55]);
    assert_eq!(piece_squares(&start, Color::White, KNIGHT), vec![1, 6]);
    assert_eq!(piece_squares(&start, Color::White, BISHOP), vec![2, 5]);
    assert_eq!(piece_squares(&start, Color::Black, ROOK), vec![56, 63]);
    assert_eq!(piece_squares(&start, Color::White, QUEEN), vec![3]);
    assert_eq!(piece_squares(&start, Color::Black, KING), vec![60]);
    assert_eq!(occupied(&start, Color::White), 0xFFFF);
    assert_eq!(occupied(&start, Color::Black), 0xFFFF << 48);
    assert_eq!(men_on(&start), 30);
    let position = board("7k/5KR1/8/8/8/8/8/6r1 b - - 0 1");
    assert_eq!(piece_squares(&position, Color::White, ROOK), vec![54]);
    assert_eq!(piece_squares(&position, Color::Black, ROOK), vec![6]);
    assert_eq!(piece_squares(&position, Color::White, QUEEN), Vec::<u8>::new());
    assert_eq!(men_on(&position), 2);
}

#[test]
fn the_side_to_move_and_the_castling_rights_are_read() {
    assert_eq!(to_move(&Board::default()), Color::White);
    assert_eq!(to_move(&board("7k/5KR1/8/8/8/8/8/6r1 b - - 0 1")), Color::Black);
    assert!(has_castle_rights(&Board::default()));
    assert!(!has_castle_rights(&board("7k/5KR1/8/8/8/8/8/6r1 b - - 0 1")));
    assert!(has_castle_rights(&board("4k3/8/8/8/8/8/8/R3K3 w Q - 0 1")));
    assert!(has_castle_rights(&board("4k3/8/8/8/8/8/8/4K2R w K - 0 1")));
    assert!(has_castle_rights(&board("4k2r/8/8/8/8/8/8/4K3 w k - 0 1")));
    assert!(has_castle_rights(&board("r3k3/8/8/8/8/8/8/4K3 w q - 0 1")));
}

#[test]
fn the_material_of_a_board_is_counted() {
    assert_eq!(material_of(&Board::default()), None);
    assert_eq!(
        material_of(&board("7k/5KR1/8/8/8/8/8/6r1 b - - 0 1")),
        Some(Material::parse("KRvKR").unwrap())
    );
    assert_eq!(
        material_of(&board("K7/1r6/1k6/1Pp5/8/8/8/8 w - c6 0 1")),
        Some(Material::parse("KPvKRP").unwrap())
    );
    assert_eq!(material_of(&board("4k3/8/8/8/8/8/8/4K3 w - - 0 1")), Some(Material::empty()));
    assert_eq!(
        material_of(&board("4k3/ppp5/8/8/8/8/PPP5/4K3 w - - 0 1")),
        Some(Material::parse("KPPPvKPPP").unwrap())
    );
    assert_eq!(material_of(&board("4k3/pppp4/8/8/8/8/PPP5/4K3 w - - 0 1")), None);
}

#[test]
fn captures_are_told_from_the_other_moves() {
    let (captures, plain) = capture_moves(&Board::default(), true);
    assert!(captures.is_empty());
    assert_eq!(plain, 20);
    // the rook can take the rook; the king cannot
    let (captures, plain) = capture_moves(&board("7k/5KR1/8/8/8/8/8/6r1 w - - 0 1"), false);
    assert_eq!(captures.len(), 1);
    assert_eq!((captures[0].mv.piece, captures[0].mv.from, captures[0].mv.to), (ROOK, 54, 6));
    assert!(!captures[0].en_passant);
    // eight moves of the rook, which its own king hems in, and five of the king
    assert_eq!(plain, 13);
    // a capture with a promotion counts once for each piece that the pawn can become
    let (captures, plain) = capture_moves(&board("1n5k/P7/8/8/8/8/8/K7 w - - 0 1"), true);
    assert_eq!(captures.len(), 4);
    assert!(captures.iter().all(|c| c.mv.piece == PAWN && c.mv.from == 48 && c.mv.to == 57));
    let mut promotions: Vec<Option<u8>> = captures.iter().map(|c| c.mv.promotion).collect();
    promotions.sort();
    assert_eq!(promotions, vec![Some(KNIGHT), Some(BISHOP), Some(ROOK), Some(QUEEN)]);
    assert_eq!(plain, 3 + 4 + 4);
}

#[test]
fn captures_en_passant_are_marked() {
    let position = board("5K2/8/5k2/8/pP6/B7/8/8 b - b3 0 1");
    let (captures, plain) = capture_moves(&position, true);
    assert_eq!(captures.len(), 1);
    assert_eq!((captures[0].mv.piece, captures[0].mv.from, captures[0].mv.to), (PAWN, 24, 17));
    assert!(captures[0].en_passant);
    // the king has five moves
    assert_eq!(plain, 5);
    // where captures en passant are not asked for, there is none
    let (captures, plain) = capture_moves(&position, false);
    assert!(captures.is_empty());
    assert_eq!(plain, 5);
    // the only legal move
    let (captures, plain) = capture_moves(&board("K7/1r6/1k6/1Pp5/8/8/8/8 w - c6 0 1"), true);
    assert_eq!(captures.len(), 1);
    assert!(captures[0].en_passant);
    assert_eq!((captures[0].mv.from, captures[0].mv.to), (33, 42));
    assert_eq!(plain, 0);
    let (captures, plain) = capture_moves(&board("K7/1r6/1k6/1Pp5/8/8/8/8 w - - 0 1"), true);
    assert!(captures.is_empty());
    assert_eq!(plain, 0);
}
