use cozy_chess::Board;
use cozy_syzygy::material::Material;
use cozy_syzygy::pairs::PairsData;
use cozy_syzygy::stream::DataStream;
use cozy_syzygy::table::pawnful;
use cozy_syzygy::table::pawnless;
use cozy_syzygy::table::WdlTable;
use cozy_syzygy::{SyzygyError, Tablebase, Wdl};

const MAGIC: [u8; 4] = [0x71, 0xE8, 0x23, 0x5D];

const WP: u8 = 1;
const WB: u8 = 3;
const WR: u8 = 4;
const WQ: u8 = 5;
const WK: u8 = 6;
const BP: u8 = 9;
const BN: u8 = 10;
const BR: u8 = 12;
const BK: u8 = 14;

fn board(fen: &str) -> Board {
    fen.parse().unwrap()
}

fn pad_to(bytes: &mut Vec<u8>, multiple: usize) {
    while bytes.len() % multiple != 0 {
        bytes.push(0);
    }
}

/// A file for material without pawns whose streams each store one value.
/// `btm` holds the pieces and the value for black to move, where the table
/// is split by the side to move.
fn constant_pawnless(wtm: &[u8], wtm_value: u8, btm: Option<(&[u8], u8)>) -> Vec<u8> {
    let mut bytes = MAGIC.to_vec();
    bytes.push(btm.is_some() as u8);
    bytes.push(0);
    for (i, &piece) in wtm.iter().enumerate() {
        bytes.push(piece | btm.map_or(0, |(pieces, _)| pieces[i] << 4));
    }
    pad_to(&mut bytes, 2);
    bytes.extend([0x80, wtm_value]);
    if let Some((_, value)) = btm {
        bytes.extend([0x80, value]);
    }
    pad_to(&mut bytes, 64);
    bytes
}

/// A file for material with pawns whose streams each store one value: for
/// each file of the leading pawn, that for white and that for black to move.
/// `order2` is there where both sides have pawns.
fn constant_pawnful(pieces: &[u8], order2: bool, split: bool, values: &[(u8, u8)]) -> Vec<u8> {
    let mut bytes = MAGIC.to_vec();
    bytes.push(split as u8 | if values.len() == 4 { 2 } else { 0 });
    for slot in 0..4 {
        bytes.push(0x00);
        if order2 {
            bytes.push(0x11);
        }
        for &piece in pieces {
            // the same pieces for both sides to move; junk where no file is
            let piece = if slot < values.len() { piece | (piece << 4) } else { 0xFF };
            bytes.push(piece);
        }
    }
    pad_to(&mut bytes, 2);
    for &(wtm, btm) in values {
        bytes.extend([0x80, wtm]);
        if split {
            bytes.extend([0x80, btm]);
        }
    }
    pad_to(&mut bytes, 64);
    bytes
}

/// A file for king and queen against king. With white to move it stores at
/// the index `i` the value `(i / 256) % 5`, compressed: the symbols 40 to 44
/// are the literals 0 to 4, each symbol five before is the pair of the
/// symbol with itself, and so the symbols 0 to 4 stand for 256 values each.
/// They have the codes 000 to 100. With black to move it stores a loss.
fn varied_kqvk() -> Vec<u8> {
    let mut bytes = MAGIC.to_vec();
    bytes.extend([1, 0]);
    bytes.extend([WQ | (WQ << 4), WK | (WK << 4), BK | (BK << 4)]);
    pad_to(&mut bytes, 2);
    // the stream for white to move
    bytes.extend([0, 6, 15, 0]);
    bytes.extend([1, 0, 0, 0]);
    bytes.extend([3, 3]);
    bytes.extend([0, 0]);
    bytes.extend([45, 0]);
    for symbol in 0..45u32 {
        let w = if symbol >= 40 { (symbol - 40) | (0xFFF << 12) } else { (symbol + 5) | ((symbol + 5) << 12) };
        bytes.extend([w as u8, (w >> 8) as u8, (w >> 16) as u8]);
    }
    pad_to(&mut bytes, 2);
    // the stream for black to move
    bytes.extend([0x80, 0]);
    // the index table: position 16384 is value 16384 of block 0
    bytes.extend([0, 0, 0, 0, 0x00, 0x40]);
    // the size table: 123 symbols of 256 values
    bytes.extend([0xFF, 0x7A]);
    pad_to(&mut bytes, 64);
    let mut bits: Vec<bool> = Vec::new();
    for run in 0..123u32 {
        let code = run % 5;
        bits.extend([code & 4 != 0, code & 2 != 0, code & 1 != 0]);
    }
    let mut data = vec![0u8; 64];
    for (i, &bit) in bits.iter().enumerate() {
        if bit {
            data[i / 8] |= 0x80 >> (i % 8);
        }
    }
    bytes.extend(data);
    bytes
}

/// The tables for the seven positions below, each stream with one value.
fn small_tablebase() -> Tablebase {
    let mut tb = Tablebase::new();
    // rook against king: won with white to move, lost with black to move
    tb.load_bytes("KRvK", &constant_pawnless(&[WR, WK, BK], 4, Some((&[WR, WK, BK], 0)))).unwrap();
    tb.load_bytes("KRvKR", &constant_pawnless(&[WR, BR, WK, BK], 2, None)).unwrap();
    tb.load_bytes("KBBvKN", &constant_pawnless(&[BN, WK, BK, WB, WB], 3, Some((&[BN, WK, BK, WB, WB], 1))))
        .unwrap();
    tb.load_bytes(
        "KPvK",
        &constant_pawnful(&[WP, WK, BK], false, true, &[(4, 2), (4, 0), (4, 0), (4, 0)]),
    )
    .unwrap();
    tb.load_bytes(
        "KRPvKP",
        &constant_pawnful(&[WP, BP, WR, WK, BK], true, true, &[(4, 0), (4, 0), (4, 2), (4, 0)]),
    )
    .unwrap();
    tb.load_bytes(
        "KRvKP",
        &constant_pawnful(&[BP, WR, WK, BK], false, true, &[(0, 0), (0, 0), (4, 0), (0, 0)]),
    )
    .unwrap();
    tb.load_bytes(
        "KBPvKP",
        &constant_pawnful(&[WP, BP, WB, WK, BK], true, true, &[(4, 4), (4, 0), (4, 4), (4, 4)]),
    )
    .unwrap();
    tb.load_bytes(
        "KBvKP",
        &constant_pawnful(&[BP, WB, WK, BK], false, true, &[(4, 0), (2, 1), (4, 0), (4, 0)]),
    )
    .unwrap();
    tb
}

#[test]
fn a_new_tablebase_has_no_tables() {
    let tb = Tablebase::new();
    assert_eq!(tb.max_pieces(), 2);
    assert_eq!(tb.probe_wdl(&board("4k3/8/8/1R6/4K3/8/8/8 w - - 0 1")), None);
    assert_eq!(tb.read_wdl(&board("4k3/8/8/1R6/4K3/8/8/8 w - - 0 1")), None);
}

#[test]
fn bare_kings_draw_without_tables() {
    let tb = Tablebase::new();
    assert_eq!(tb.probe_wdl(&board("4k3/8/8/8/8/8/8/4K3 w - - 0 1")), Some((Wdl::Draw, false)));
    assert_eq!(tb.probe_wdl(&board("4k3/8/8/8/8/8/8/4K3 b - - 0 1")), Some((Wdl::Draw, false)));
    assert_eq!(tb.read_wdl(&board("8/8/8/3k4/8/8/1K6/8 b - - 0 1")), Some(Wdl::Draw));
    assert_eq!(small_tablebase().probe_wdl(&board("k7/8/8/8/8/8/8/7K w - - 0 1")), Some((Wdl::Draw, false)));
}

#[test]
fn castling_rights_are_not_in_the_tables() {
    let tb = small_tablebase();
    assert_eq!(tb.probe_wdl(&board("4k3/8/8/8/8/8/8/R3K3 w - - 0 1")), Some((Wdl::Win, false)));
    assert_eq!(tb.probe_wdl(&board("4k3/8/8/8/8/8/8/R3K3 w Q - 0 1")), None);
    assert_eq!(tb.read_wdl(&board("4k3/8/8/8/8/8/8/4K2R w K - 0 1")), None);
    assert_eq!(tb.probe_wdl(&board("r3k3/8/8/8/8/8/8/4K3 w q - 0 1")), None);
}

#[test]
fn positions_with_many_men_are_not_in_the_tables() {
    let tb = small_tablebase();
    assert_eq!(tb.probe_wdl(&Board::default()), None);
    assert_eq!(tb.probe_wdl(&board("4k3/pppppppp/8/8/8/8/8/4K3 w - - 0 1")), None);
    // seven men: no table is loaded for them
    assert_eq!(tb.probe_wdl(&board("4k3/ppp5/8/8/8/8/PP6/4K3 w - - 0 1")), None);
}

#[test]
fn load_refuses_an_unknown_material() {
    let mut tb = Tablebase::new();
    let file = constant_pawnless(&[WR, WK, BK], 4, Some((&[WR, WK, BK], 0)));
    assert!(matches!(tb.load_bytes("KXvK", &file), Err(SyzygyError::UnknownMaterial)));
    assert!(matches!(tb.load_bytes("KRRRRvKRRR", &file), Err(SyzygyError::UnknownMaterial)));
    assert!(matches!(
        tb.load_bytes_owned("K?vK", file.clone().into_boxed_slice()),
        Err(SyzygyError::UnknownMaterial)
    ));
    assert_eq!(tb.max_pieces(), 2);
    assert_eq!(tb.probe_wdl(&board("4k3/8/8/1R6/4K3/8/8/8 w - - 0 1")), None);
}

#[test]
fn load_refuses_what_is_no_table() {
    let mut tb = Tablebase::new();
    let file = constant_pawnless(&[WR, WK, BK], 4, Some((&[WR, WK, BK], 0)));
    // the magic number
    let mut other = file.clone();
    other[0] = 0x70;
    assert!(matches!(tb.load_bytes("KRvK", &other), Err(SyzygyError::NotSyzygy)));
    assert!(matches!(tb.load_bytes("KRvK", &[]), Err(SyzygyError::NotSyzygy)));
    assert!(matches!(tb.load_bytes("KRvK", &MAGIC), Err(SyzygyError::NotSyzygy)));
    // a file that ends early
    for len in 0..file.len() {
        assert!(matches!(tb.load_bytes("KRvK", &file[..len]), Err(SyzygyError::NotSyzygy)), "{len}");
    }
    // a table for other material: one that is not split by the side to move
    assert!(matches!(tb.load_bytes("KRvKR", &file), Err(SyzygyError::NotSyzygy)));
    // a piece that is none
    let mut other = file.clone();
    other[6] = 0x07;
    assert!(matches!(tb.load_bytes("KRvK", &other), Err(SyzygyError::NotSyzygy)));
    let mut other = file.clone();
    other[7] = 0xF6;
    assert!(matches!(tb.load_bytes("KRvK", &other), Err(SyzygyError::NotSyzygy)));
    // two bare kings have no table
    assert!(matches!(tb.load_bytes("KvK", &file), Err(SyzygyError::NotSyzygy)));
    assert_eq!(tb.max_pieces(), 2);
    assert_eq!(tb.probe_wdl(&board("4k3/8/8/1R6/4K3/8/8/8 w - - 0 1")), None);
    assert_eq!(tb.load_bytes("KRvK", &file).map_err(|_| ()), Ok(()));
}

#[test]
fn load_keeps_the_table_that_is_there() {
    let mut tb = Tablebase::new();
    let won = constant_pawnless(&[WR, WK, BK], 4, Some((&[WR, WK, BK], 0)));
    let drawn = constant_pawnless(&[WR, WK, BK], 2, Some((&[WR, WK, BK], 2)));
    assert!(tb.load_bytes("KRvK", &won).is_ok());
    assert!(tb.load_bytes("KRvK", &drawn).is_ok());
    // not even what is no table is looked at
    assert!(tb.load_bytes("KRvK", &[1, 2, 3]).is_ok());
    assert_eq!(tb.probe_wdl(&board("4k3/8/8/1R6/4K3/8/8/8 w - - 0 1")), Some((Wdl::Win, false)));
}

#[test]
fn max_pieces_is_that_of_the_largest_table() {
    let mut tb = Tablebase::new();
    assert_eq!(tb.max_pieces(), 2);
    tb.load_bytes("KRvKR", &constant_pawnless(&[WR, BR, WK, BK], 2, None)).unwrap();
    assert_eq!(tb.max_pieces(), 4);
    tb.load_bytes("KRvK", &constant_pawnless(&[WR, WK, BK], 4, Some((&[WR, WK, BK], 0)))).unwrap();
    assert_eq!(tb.max_pieces(), 4);
    assert_eq!(small_tablebase().max_pieces(), 5);
}

#[test]
fn load_from_static_and_owned_bytes() {
    static FILE: [u8; 64] = {
        let mut file = [0u8; 64];
        file[0] = 0x71;
        file[1] = 0xE8;
        file[2] = 0x23;
        file[3] = 0x5D;
        file[4] = 1;
        file[6] = 0x44;
        file[7] = 0x66;
        file[8] = 0xEE;
        file[10] = 0x80;
        file[11] = 4;
        file[12] = 0x80;
        file
    };
    let mut tb = Tablebase::new();
    assert!(tb.load_bytes_static("KRvK", &FILE).is_ok());
    assert_eq!(tb.probe_wdl(&board("4k3/8/8/1R6/4K3/8/8/8 w - - 0 1")), Some((Wdl::Win, false)));
    assert_eq!(tb.probe_wdl(&board("4k3/8/8/1R6/4K3/8/8/8 b - - 0 1")), Some((Wdl::Loss, false)));
    let mut tb = Tablebase::new();
    assert!(tb.load_bytes_owned("KRvK", FILE.to_vec().into_boxed_slice()).is_ok());
    assert_eq!(tb.probe_wdl(&board("4k3/8/8/1R6/4K3/8/8/8 w - - 0 1")), Some((Wdl::Win, false)));
}

#[test]
fn the_stronger_side_is_read_as_white() {
    let tb = small_tablebase();
    assert_eq!(tb.read_wdl(&board("4k3/8/8/1R6/4K3/8/8/8 w - - 0 1")), Some(Wdl::Win));
    assert_eq!(tb.read_wdl(&board("4k3/8/8/1R6/4K3/8/8/8 b - - 0 1")), Some(Wdl::Loss));
    // the same with the colours exchanged
    assert_eq!(tb.read_wdl(&board("4K3/8/8/1r6/4k3/8/8/8 b - - 0 1")), Some(Wdl::Win));
    assert_eq!(tb.read_wdl(&board("4K3/8/8/1r6/4k3/8/8/8 w - - 0 1")), Some(Wdl::Loss));
    assert_eq!(tb.probe_wdl(&board("4K3/8/8/1r6/4k3/8/8/8 b - - 0 1")), Some((Wdl::Win, false)));
    // with the same pieces on both sides there is one table for the side to move
    assert_eq!(tb.read_wdl(&board("7k/5KR1/8/8/8/8/8/r7 w - - 0 1")), Some(Wdl::Draw));
    assert_eq!(tb.read_wdl(&board("7k/5KR1/8/8/8/8/8/r7 b - - 0 1")), Some(Wdl::Draw));
}

#[test]
fn rook_against_king_is_won() {
    let tb = small_tablebase();
    assert_eq!(tb.probe_wdl(&board("4k3/8/8/1R6/4K3/8/8/8 w - - 0 1")), Some((Wdl::Win, false)));
    assert_eq!(tb.probe_wdl(&board("4k3/8/8/1R6/4K3/8/8/8 b - - 0 1")), Some((Wdl::Loss, false)));
}

#[test]
fn a_capture_that_wins_is_found() {
    let tb = small_tablebase();
    // the rook takes the rook, and rook against king is won
    assert_eq!(tb.probe_wdl(&board("7k/5KR1/8/8/8/8/8/6r1 w - - 0 1")), Some((Wdl::Win, true)));
    // with black to move the rook takes the rook, which the king cannot take back
    assert_eq!(tb.probe_wdl(&board("7k/5KR1/8/8/8/8/8/6r1 b - - 0 1")), Some((Wdl::Win, true)));
    // no capture: what the table says
    assert_eq!(tb.probe_wdl(&board("7k/5KR1/8/8/8/8/8/r7 w - - 0 1")), Some((Wdl::Draw, false)));
    // a rook that is taken back: the capture leads to two bare kings
    assert_eq!(tb.probe_wdl(&board("8/8/8/8/8/2k5/1r6/RK6 w - - 0 1")), Some((Wdl::Draw, false)));
}

#[test]
fn a_capture_needs_the_table_behind_it() {
    let mut tb = Tablebase::new();
    tb.load_bytes("KRvKR", &constant_pawnless(&[WR, BR, WK, BK], 2, None)).unwrap();
    assert_eq!(tb.read_wdl(&board("7k/5KR1/8/8/8/8/8/6r1 w - - 0 1")), Some(Wdl::Draw));
    assert_eq!(tb.probe_wdl(&board("7k/5KR1/8/8/8/8/8/6r1 w - - 0 1")), None);
    assert_eq!(tb.probe_wdl(&board("7k/5KR1/8/8/8/8/8/r7 w - - 0 1")), Some((Wdl::Draw, false)));
}

#[test]
fn the_search_of_the_captures_keeps_to_its_bounds() {
    let tb = small_tablebase();
    let position = board("7k/5KR1/8/8/8/8/8/6r1 w - - 0 1");
    assert_eq!(tb.probe_alpha_beta(&position, Wdl::Loss, Wdl::Win), Some(Wdl::Win));
    // what the table says is enough where it reaches the upper bound
    assert_eq!(tb.probe_alpha_beta(&position, Wdl::Loss, Wdl::Draw), Some(Wdl::Draw));
    assert_eq!(tb.probe_alpha_beta(&position, Wdl::Loss, Wdl::BlessedLoss), Some(Wdl::Draw));
    let quiet = board("7k/5KR1/8/8/8/8/8/r7 w - - 0 1");
    assert_eq!(tb.probe_alpha_beta(&quiet, Wdl::Loss, Wdl::Win), Some(Wdl::Draw));
    assert_eq!(tb.probe_alpha_beta(&quiet, Wdl::CursedWin, Wdl::Win), Some(Wdl::CursedWin));
}

#[test]
fn two_bishops_against_a_knight_are_a_cursed_win() {
    let tb = small_tablebase();
    assert_eq!(
        tb.probe_wdl(&board("8/6B1/8/8/B7/8/K2k4/2n5 w - - 0 1")),
        Some((Wdl::CursedWin, false))
    );
    assert_eq!(
        tb.probe_wdl(&board("8/6B1/8/8/B7/1K6/3kn3/8 b - - 0 1")),
        Some((Wdl::BlessedLoss, false))
    );
}

#[test]
fn a_forced_capture_en_passant_is_searched() {
    let tb = small_tablebase();
    // stalemate but for the capture en passant, which loses
    assert_eq!(tb.probe_wdl(&board("K7/1r6/1k6/1Pp5/8/8/8/8 w - c6 0 1")), Some((Wdl::Loss, true)));
    // the same position without it is stalemate
    assert_eq!(tb.probe_wdl(&board("K7/1r6/1k6/1Pp5/8/8/8/8 w - - 0 1")), Some((Wdl::Draw, false)));
}

#[test]
fn a_capture_en_passant_that_saves_the_draw_is_found() {
    let tb = small_tablebase();
    assert_eq!(tb.probe_wdl(&board("5K2/8/5k2/8/pP6/B7/8/8 b - b3 0 1")), Some((Wdl::Draw, true)));
    assert_eq!(tb.probe_wdl(&board("5K2/8/5k2/8/pP6/B7/8/8 b - - 0 1")), Some((Wdl::Loss, false)));
}

#[test]
fn a_pawn_is_read_with_its_file_and_side() {
    let tb = small_tablebase();
    // the pawn on the h-file is folded onto the a-file
    assert_eq!(tb.probe_wdl(&board("4k3/8/8/3K4/7p/8/8/8 w - - 0 1")), Some((Wdl::Draw, false)));
    assert_eq!(tb.probe_wdl(&board("4k3/8/8/3K4/p7/8/8/8 w - - 0 1")), Some((Wdl::Draw, false)));
    assert_eq!(tb.probe_wdl(&board("4k3/8/8/3K4/6p1/8/8/8 w - - 0 1")), Some((Wdl::Loss, false)));
    assert_eq!(tb.probe_wdl(&board("4k3/8/8/3K4/7p/8/8/8 b - - 0 1")), Some((Wdl::Win, false)));
    assert_eq!(tb.probe_wdl(&board("4K3/8/8/3k4/7P/8/8/8 w - - 0 1")), Some((Wdl::Win, false)));
    assert_eq!(tb.probe_wdl(&board("4K3/8/8/3k4/7P/8/8/8 b - - 0 1")), Some((Wdl::Draw, false)));
}

#[test]
fn a_compressed_table_is_decoded_at_the_index_of_the_position() {
    let mut tb = Tablebase::new();
    tb.load_bytes("KQvK", &varied_kqvk()).unwrap();
    assert_eq!(tb.max_pieces(), 3);
    let cases = [
        ("8/8/8/8/8/8/1K2k3/6Q1 w - - 0 1", Wdl::CursedWin),
        ("8/8/6Q1/8/3k4/8/8/7K w - - 0 1", Wdl::Draw),
        ("8/2Q5/8/8/4k3/8/8/6K1 w - - 0 1", Wdl::Loss),
        ("8/5Q2/8/8/8/2K5/7k/8 w - - 0 1", Wdl::BlessedLoss),
        ("3K4/8/5k2/8/8/8/8/2Q5 w - - 0 1", Wdl::Win),
        ("7k/8/8/8/8/5Q2/6K1/8 w - - 0 1", Wdl::Loss),
        ("8/2k5/8/8/7K/Q7/8/8 w - - 0 1", Wdl::Win),
        ("1K6/3k4/8/8/8/5Q2/8/8 w - - 0 1", Wdl::BlessedLoss),
        ("8/7k/8/3Q4/8/1K6/8/8 w - - 0 1", Wdl::Win),
        ("8/Q7/8/8/5K2/3k4/8/8 w - - 0 1", Wdl::Loss),
        ("6k1/8/8/8/5Q2/8/8/1K6 w - - 0 1", Wdl::Draw),
        ("8/8/8/1K2k3/8/7Q/8/8 w - - 0 1", Wdl::Draw),
    ];
    for (fen, expected) in cases {
        assert_eq!(tb.read_wdl(&board(fen)), Some(expected), "{fen}");
        assert_eq!(tb.probe_wdl(&board(fen)), Some((expected, false)), "{fen}");
    }
    // with black to move the stream stores a loss
    assert_eq!(tb.probe_wdl(&board("3K4/8/5k2/8/8/8/8/2Q5 b - - 0 1")), Some((Wdl::Loss, false)));
}

#[test]
fn a_table_is_read_without_a_tablebase() {
    let file = varied_kqvk();
    let table = WdlTable::load(&file, Material::parse("KQvK").unwrap()).unwrap();
    assert_eq!(table.read(&board("3K4/8/5k2/8/8/8/8/2Q5 w - - 0 1"), false), Some(Wdl::Win));
    assert_eq!(table.read(&board("3K4/8/5k2/8/8/8/8/2Q5 b - - 0 1"), false), Some(Wdl::Loss));
    // with the colours exchanged the queen is looked for among the black pieces
    assert_eq!(table.read(&board("3k4/8/5K2/8/8/8/8/2q5 b - - 0 1"), true), Some(Wdl::Win));
    assert_eq!(table.read(&board("3k4/8/5K2/8/8/8/8/2q5 b - - 0 1"), false), None);
    assert!(matches!(
        WdlTable::load(&file[..file.len() - 1], Material::parse("KQvK").unwrap()),
        Err(SyzygyError::NotSyzygy)
    ));
}

#[test]
fn the_two_layouts_are_read_behind_the_magic_number() {
    let file = varied_kqvk();
    let mut stream = DataStream::new(&file[4..]);
    // the header is read as it stands in the file, four bytes in
    assert!(pawnless::WdlTable::new(&mut stream, Material::parse("KQvK").unwrap()).is_none());
    let mut shifted = vec![0u8; 4];
    shifted.extend(&file[4..]);
    let mut stream = DataStream::new(&shifted);
    stream.read_u32();
    let table = pawnless::WdlTable::new(&mut stream, Material::parse("KQvK").unwrap()).unwrap();
    assert_eq!(stream.len(), 0);
    assert_eq!(table.men, 3);
    assert_eq!(table.encoding_type, pawnless::EncodingType::Zero);
    assert_eq!(table.white_to_move.norm, [3, 0, 0, 0, 0, 0, 0, 0]);
    assert_eq!(table.white_to_move.factors, [1, 0, 0, 0, 0, 0, 0, 0]);
    assert!(table.black_to_move.is_some());
    assert_eq!(table.white_to_move.pairs_data.lookup(17825), Some(4));
    assert_eq!(table.white_to_move.pairs_data.lookup(31331), Some(2));
    assert_eq!(table.white_to_move.pairs_data.lookup(255), Some(0));
    assert_eq!(table.white_to_move.pairs_data.lookup(256), Some(1));
    assert_eq!(table.read(&board("3K4/8/5k2/8/8/8/8/2Q5 w - - 0 1"), false), Some(Wdl::Win));

    let file = constant_pawnful(&[WP, BP, WR, WK, BK], true, true, &[(4, 0), (4, 1), (4, 2), (4, 3)]);
    let mut stream = DataStream::new(&file);
    stream.read_u32();
    let table = pawnful::WdlTable::new(&mut stream, Material::parse("KRPvKP").unwrap()).unwrap();
    assert_eq!(stream.len(), 0);
    assert_eq!((table.men, table.white_pawns, table.black_pawns), (5, 1, 1));
    assert_eq!(table.white_to_move.len(), 4);
    assert_eq!(table.black_to_move.len(), 4);
    assert_eq!(table.white_to_move[3].norm, [1, 1, 1, 1, 1, 0, 0, 0]);
    assert_eq!(table.black_to_move[1].pairs_data.lookup(0), Some(1));
    assert_eq!(table.read(&board("4k3/8/8/8/2p5/3P4/8/R3K3 b - - 0 1"), false), Some(Wdl::CursedWin));
    assert_eq!(table.read(&board("4k3/8/8/8/2p5/3P4/8/R3K3 w - - 0 1"), false), Some(Wdl::Win));
    // a table with one file is read for a pawn on that file only
    let file = constant_pawnful(&[BP, WB, WK, BK], false, true, &[(2, 1)]);
    let mut stream = DataStream::new(&file);
    stream.read_u32();
    let table = pawnful::WdlTable::new(&mut stream, Material::parse("KBvKP").unwrap()).unwrap();
    assert_eq!(table.white_to_move.len(), 1);
    assert_eq!(table.read(&board("4k3/8/8/8/p7/8/8/B3K3 w - - 0 1"), false), Some(Wdl::Draw));
    assert_eq!(table.read(&board("4k3/8/8/8/1p6/8/8/B3K3 w - - 0 1"), false), None);
}

#[test]
fn a_stream_is_decoded_where_the_window_is_filled_again() {
    let file = varied_kqvk();
    let mut stream = DataStream::new(&file[160..162]);
    let (constant, _) = PairsData::create(&mut stream, 31332, true).unwrap();
    assert_eq!(constant.lookup(5), Some(0));
    let mut stream = DataStream::new(&file[10..160]);
    let (mut pairs, sizes) = PairsData::create(&mut stream, 31332, true).unwrap();
    assert_eq!(
        (sizes.index_table_size, sizes.size_table_size, sizes.data_table_size),
        (6, 2, 64)
    );
    assert_eq!(stream.len(), 0);
    pairs.attach(file[162..168].to_vec(), file[168..170].to_vec(), file[192..256].to_vec());
    for index in (0..31332u64).step_by(97) {
        assert_eq!(pairs.lookup(index), Some(((index / 256) % 5) as u8), "{index}");
    }
}

#[test]
fn errors_describe_themselves() {
    assert_eq!(
        SyzygyError::NotSyzygy.message(),
        "the data does not appear to be in the Syzygy format"
    );
    assert_eq!(SyzygyError::UnknownMaterial.message(), "the material could not be determined");
    let error = SyzygyError::from(std::io::Error::new(std::io::ErrorKind::NotFound, "no such table"));
    assert!(matches!(error, SyzygyError::Io(_)));
    assert_eq!(error.message(), "no such table");
}

#[test]
fn is_loaded_tells_what_was_loaded() {
    let mut tb = Tablebase::new();
    assert!(matches!(tb.is_loaded("KRvK"), Ok(false)));
    tb.load_bytes("KRvK", &constant_pawnless(&[WR, WK, BK], 4, Some((&[WR, WK, BK], 0)))).unwrap();
    assert!(matches!(tb.is_loaded("KRvK"), Ok(true)));
    assert!(matches!(tb.is_loaded("krvk"), Ok(true)));
    assert!(matches!(tb.is_loaded("KvKR"), Ok(false)));
    assert!(matches!(tb.is_loaded("KR?K"), Err(SyzygyError::UnknownMaterial)));
}

#[test]
fn positions_of_loaded_material_have_a_value() {
    let tb = small_tablebase();
    for fen in [
        "4k3/8/8/1R6/4K3/8/8/8 w - - 0 1",
        "8/8/8/8/8/2k5/8/R3K3 b - - 0 1",
        "k7/8/1K6/8/8/8/8/7R w - - 0 1",
        "7k/5KR1/8/8/8/8/8/r7 w - - 0 1",
        "R7/8/8/8/8/8/5kr1/7K w - - 0 1",
        "2R5/8/8/3k4/8/8/1r6/4K3 b - - 0 1",
    ] {
        assert!(tb.probe_wdl(&board(fen)).is_some(), "{fen}");
    }
}
