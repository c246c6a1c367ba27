use cozy_syzygy::pairs::PairsData;
use cozy_syzygy::piece::ColoredPiece;
use cozy_syzygy::stream::DataStream;
use cozy_syzygy::table::pawnful;
use cozy_syzygy::table::pawnless;
use cozy_syzygy::table::pawnless::EncodingType;
use cozy_syzygy::table::{count_below, flip_files, flip_ranks, group_index, sort_squares, subfactor};
use ColoredPiece::{BlackKing, BlackPawn, BlackRook, WhiteKing, WhitePawn, WhiteQueen, WhiteRook};

/// The number of the square with the given name.
fn sq(name: &str) -> u8 {
    let name = name.as_bytes();
    (name[0] - b'a') + 8 * (name[1] - b'1')
}

fn squares(names: &[&str]) -> Vec<u8> {
    names.iter().map(|name| sq(name)).collect()
}

fn row(pieces: &[ColoredPiece]) -> [ColoredPiece; 8] {
    let mut all = [WhitePawn; 8];
    all[..pieces.len()].copy_from_slice(pieces);
    all
}

/// A stream that stores one value.
fn constant_stream(value: u8) -> PairsData {
    let header = [0x80, value];
    let mut stream = DataStream::new(&header);
    PairsData::create(&mut stream, 1, true).unwrap().0
}

#[test]
fn subfactor_counts_placements() {
    assert_eq!(subfactor(1, 62), 62);
    assert_eq!(subfactor(2, 62), 1891);
    assert_eq!(subfactor(3, 61), 35990);
    assert_eq!(subfactor(2, 48), 1128);
    assert_eq!(subfactor(4, 60), 487635);
    assert_eq!(subfactor(6, 62), 61474519);
    assert_eq!(subfactor(8, 64), 4426165368);
    assert_eq!(subfactor(1, 1), 1);
    assert_eq!(subfactor(0, 5), 5);
}

#[test]
fn squares_are_sorted_and_mirrored() {
    let mut v = vec![63, 0, 17, 17, 5];
    sort_squares(&mut v);
    assert_eq!(v, vec![0, 5, 17, 17, 63]);
    let mut v = squares(&["a1", "h8", "c4", "e2"]);
    flip_files(&mut v);
    assert_eq!(v, squares(&["h1", "a8", "f4", "d2"]));
    flip_ranks(&mut v);
    assert_eq!(v, squares(&["h8", "a1", "f5", "d7"]));
    for s in 0..64u8 {
        let mut v = vec![s];
        flip_files(&mut v);
        assert_eq!(v[0], s ^ 7);
        let mut v = vec![s];
        flip_ranks(&mut v);
        assert_eq!(v[0], s ^ 56);
    }
}

#[test]
fn a_group_is_numbered_by_the_places_that_are_left() {
    let all = squares(&["c1", "a1", "h8", "e4"]);
    assert_eq!(count_below(&all, 2, sq("e4")), 2);
    assert_eq!(count_below(&all, 2, sq("b1")), 1);
    assert_eq!(count_below(&all, 2, sq("a1")), 0);
    // two rooks on e4 and h8 behind the kings: 26 + 61 * 60 / 2
    assert_eq!(group_index(&all, 2, 2, 0), Some(1856));
    // a single piece on h8: 63 squares less the two below it
    assert_eq!(group_index(&all, 2, 1, 0), Some(61));
    // pawns cannot stand on the first rank
    assert_eq!(group_index(&all, 2, 2, 8), Some(18 + 53 * 52 / 2));
    // a square that is taken twice leaves no place
    let all = squares(&["b1", "a1", "a1"]);
    assert_eq!(group_index(&all, 2, 1, 0), Some(0));
    let all = squares(&["a1", "a1", "a1"]);
    assert_eq!(group_index(&all, 2, 1, 8), None);
}

#[test]
fn pawnless_norm_groups_like_pieces() {
    let pieces = row(&[WhiteKing, BlackKing, WhiteRook, WhiteRook]);
    assert_eq!(pawnless::calculate_norm(4, EncodingType::Two, &pieces), [2, 0, 2, 0, 0, 0, 0, 0]);
    let pieces = row(&[WhiteQueen, WhiteKing, BlackKing]);
    assert_eq!(pawnless::calculate_norm(3, EncodingType::Zero, &pieces), [3, 0, 0, 0, 0, 0, 0, 0]);
    let pieces = row(&[WhiteQueen, WhiteKing, BlackKing, WhiteRook, BlackRook]);
    assert_eq!(pawnless::calculate_norm(5, EncodingType::Zero, &pieces), [3, 0, 0, 1, 1, 0, 0, 0]);
    let pieces = row(&[WhiteKing, BlackKing, WhiteRook, WhiteRook, WhiteRook, BlackRook, BlackRook]);
    assert_eq!(pawnless::calculate_norm(7, EncodingType::Two, &pieces), [2, 0, 3, 0, 0, 2, 0, 0]);
}

#[test]
fn pawnless_factors_follow_the_order_of_the_groups() {
    let norm = [2, 0, 2, 0, 0, 0, 0, 0];
    assert_eq!(
        pawnless::calculate_factors(4, 0, &norm, EncodingType::Two),
        Some((873642, [1, 0, 462, 0, 0, 0, 0, 0]))
    );
    assert_eq!(
        pawnless::calculate_factors(4, 1, &norm, EncodingType::Two),
        Some((873642, [1891, 0, 1, 0, 0, 0, 0, 0]))
    );
    let norm = [3, 0, 0, 1, 1, 0, 0, 0];
    assert_eq!(
        pawnless::calculate_factors(5, 0, &norm, EncodingType::Zero),
        Some((114675120, [1, 0, 0, 31332, 1911252, 0, 0, 0]))
    );
    assert_eq!(
        pawnless::calculate_factors(5, 1, &norm, EncodingType::Zero),
        Some((114675120, [61, 0, 0, 1, 1911252, 0, 0, 0]))
    );
    assert_eq!(
        pawnless::calculate_factors(5, 2, &norm, EncodingType::Zero),
        Some((114675120, [3660, 0, 0, 1, 61, 0, 0, 0]))
    );
    // an order behind the last group leaves the leading group out
    assert_eq!(
        pawnless::calculate_factors(5, 3, &norm, EncodingType::Zero),
        Some((3660, [0, 0, 0, 1, 61, 0, 0, 0]))
    );
    // an empty group has no factor
    assert_eq!(pawnless::calculate_factors(5, 0, &[3, 0, 0, 0, 0, 0, 0, 0], EncodingType::Zero), None);
}

#[test]
fn pawnless_index_of_two_kings_and_a_pair() {
    let table = pawnless::Table {
        pieces: row(&[WhiteKing, BlackKing, WhiteRook, WhiteRook]),
        norm: [2, 0, 2, 0, 0, 0, 0, 0],
        factors: [1, 0, 462, 0, 0, 0, 0, 0],
        pairs_data: constant_stream(0),
    };
    // kings on c1 and a1 are placement 58; the rooks add (26 + 1830) * 462
    assert_eq!(table.index(EncodingType::Two, squares(&["c1", "a1", "e4", "h8"])), Some(857530));
    assert_eq!(table.index(EncodingType::Two, squares(&["c1", "a1", "h8", "e4"])), Some(857530));
    // the same position with files and ranks mirrored
    assert_eq!(table.index(EncodingType::Two, squares(&["f8", "h8", "d5", "a1"])), Some(857530));
    // kings that touch have no number
    assert_eq!(table.index(EncodingType::Two, squares(&["c1", "b1", "e4", "h8"])), None);
    let table = pawnless::Table {
        pieces: row(&[WhiteKing, BlackKing, WhiteRook, WhiteRook]),
        norm: [2, 0, 2, 0, 0, 0, 0, 0],
        factors: [1891, 0, 1, 0, 0, 0, 0, 0],
        pairs_data: constant_stream(0),
    };
    assert_eq!(table.index(EncodingType::Two, squares(&["c1", "a1", "h8", "e4"])), Some(111534));
}

#[test]
fn pawnless_index_of_three_leading_pieces() {
    let table = pawnless::Table {
        pieces: row(&[WhiteQueen, WhiteKing, BlackKing]),
        norm: [3, 0, 0, 0, 0, 0, 0, 0],
        factors: [1, 0, 0, 0, 0, 0, 0, 0],
        pairs_data: constant_stream(0),
    };
    let cases: [(&[&str], u64); 9] = [
        (&["b1", "a1", "c1"], 0),
        (&["a1", "b2", "c3"], 31164),
        (&["a1", "b2", "c1"], 30381),
        (&["a1", "c1", "h8"], 23559),
        (&["d4", "c3", "b2"], 31303),
        (&["h8", "g7", "f6"], 31164),
        (&["e5", "a1", "h1"], 31142),
        (&["b5", "h1", "a8"], 19468),
        (&["a1", "b2", "a2"], 30380),
    ];
    for (names, expected) in cases {
        assert_eq!(table.index(EncodingType::Zero, squares(names)), Some(expected), "{names:?}");
    }
    let table = pawnless::Table {
        pieces: row(&[WhiteQueen, WhiteKing, BlackKing, WhiteRook, BlackRook]),
        norm: [3, 0, 0, 1, 1, 0, 0, 0],
        factors: [61, 0, 0, 1, 1911252, 0, 0, 0],
        pairs_data: constant_stream(0),
    };
    assert_eq!(
        table.index(EncodingType::Zero, squares(&["g2", "e1", "e8", "a3", "h6"])),
        Some(72262878)
    );
}

#[test]
fn pawnful_norm_puts_the_pawns_first() {
    let pieces = row(&[WhitePawn, WhiteKing, BlackKing]);
    assert_eq!(pawnful::calculate_norm(1, 0, 3, &pieces), [1, 1, 1, 0, 0, 0, 0, 0]);
    let pieces = row(&[BlackPawn, WhitePawn, WhitePawn, WhiteKing, BlackKing]);
    assert_eq!(pawnful::calculate_norm(1, 2, 5, &pieces), [1, 2, 0, 1, 1, 0, 0, 0]);
    let pieces = row(&[BlackPawn, BlackPawn, WhitePawn, WhitePawn, WhitePawn, WhiteKing, BlackKing]);
    assert_eq!(pawnful::calculate_norm(2, 3, 7, &pieces), [2, 0, 3, 0, 0, 1, 1, 0]);
}

#[test]
fn pawnful_factors_follow_the_two_orders() {
    let norm = [1, 1, 1, 0, 0, 0, 0, 0];
    for file in 0..4 {
        assert_eq!(
            pawnful::calculate_factors(&norm, 3, 0, 0xF, file),
            Some((23436, [1, 6, 378, 0, 0, 0, 0, 0]))
        );
        assert_eq!(
            pawnful::calculate_factors(&norm, 3, 1, 0xF, file),
            Some((23436, [63, 1, 378, 0, 0, 0, 0, 0]))
        );
    }
    let norm = [1, 2, 0, 1, 1, 0, 0, 0];
    assert_eq!(
        pawnful::calculate_factors(&norm, 5, 0, 1, 2),
        Some((23738760, [1, 6, 0, 6486, 395646, 0, 0, 0]))
    );
    assert_eq!(
        pawnful::calculate_factors(&norm, 5, 2, 0, 2),
        Some((23738760, [65941, 1, 0, 1081, 395646, 0, 0, 0]))
    );
    assert_eq!(
        pawnful::calculate_factors(&norm, 5, 1, 2, 3),
        Some((23738760, [61, 366, 0, 1, 395646, 0, 0, 0]))
    );
    // two pawns on the b-file: 180 placements, then 62 and 61 squares for the kings
    let norm = [2, 0, 1, 1, 0, 0, 0, 0];
    assert_eq!(
        pawnful::calculate_factors(&norm, 4, 0, 0xF, 1),
        Some((680760, [1, 0, 180, 11160, 0, 0, 0, 0]))
    );
    let norm = [2, 0, 3, 0, 0, 1, 1, 0];
    assert_eq!(
        pawnful::calculate_factors(&norm, 7, 0, 1, 0),
        Some((13090381920, [1, 0, 252, 0, 0, 3825360, 225696240, 0]))
    );
}

#[test]
fn pawn_file_brings_the_leading_pawn_to_the_front() {
    let mut v = squares(&["a2", "a1", "h8"]);
    assert_eq!(pawnful::pawn_file(1, &mut v), 0);
    assert_eq!(v, squares(&["a2", "a1", "h8"]));
    let mut v = squares(&["d4", "a8", "h1"]);
    assert_eq!(pawnful::pawn_file(1, &mut v), 3);
    let mut v = squares(&["h5", "d5", "e8"]);
    assert_eq!(pawnful::pawn_file(1, &mut v), 0);
    let mut v = squares(&["e7", "d5", "e8"]);
    assert_eq!(pawnful::pawn_file(1, &mut v), 3);
    // of two pawns the one with the greater place on the files a to d leads
    let mut v = squares(&["b2", "b3", "a1", "h8"]);
    assert_eq!(pawnful::pawn_file(2, &mut v), 1);
    assert_eq!(v, squares(&["b3", "b2", "a1", "h8"]));
    let mut v = squares(&["b3", "b2", "a1", "h8"]);
    assert_eq!(pawnful::pawn_file(2, &mut v), 1);
    assert_eq!(v, squares(&["b3", "b2", "a1", "h8"]));
    let mut v = squares(&["g7", "c5", "e1", "e8"]);
    assert_eq!(pawnful::pawn_file(2, &mut v), 2);
    assert_eq!(v, squares(&["c5", "g7", "e1", "e8"]));
    let mut v = squares(&["a5", "b7", "c2", "d3", "e4", "h1", "h8"]);
    assert_eq!(pawnful::pawn_file(2, &mut v), 1);
    assert_eq!(v, squares(&["b7", "a5", "c2", "d3", "e4", "h1", "h8"]));
}

#[test]
fn pawnful_index_of_one_pawn() {
    let table = pawnful::Table {
        pieces: row(&[WhitePawn, WhiteKing, BlackKing]),
        norm: [1, 1, 1, 0, 0, 0, 0, 0],
        factors: [1, 6, 378, 0, 0, 0, 0, 0],
        pairs_data: constant_stream(0),
    };
    assert_eq!(table.index(1, 0, squares(&["a2", "a1", "h8"])), Some(23058));
    assert_eq!(table.index(1, 0, squares(&["h5", "d5", "e8"])), Some(21759));
    assert_eq!(table.index(1, 0, squares(&["a7", "e1", "e3"])), Some(7211));
    assert_eq!(table.index(1, 0, squares(&["d4", "a8", "h1"])), Some(2978));
}

#[test]
fn pawnful_index_of_pawns_on_both_sides() {
    let table = pawnful::Table {
        pieces: row(&[BlackPawn, WhitePawn, WhitePawn, WhiteKing, BlackKing]),
        norm: [1, 2, 0, 1, 1, 0, 0, 0],
        factors: [1, 6, 0, 6486, 395646, 0, 0, 0],
        pairs_data: constant_stream(0),
    };
    assert_eq!(table.index(1, 2, squares(&["c5", "a2", "h3", "e1", "e8"])), Some(22182753));
    assert_eq!(table.index(1, 2, squares(&["f4", "g6", "b2", "a1", "c8"])), Some(22600238));
    // a pawn of the other side on the first rank has no place
    assert_eq!(table.index(1, 2, squares(&["c5", "a1", "h3", "e1", "e8"])), None);
    let table = pawnful::Table {
        pieces: row(&[WhitePawn, WhitePawn, WhiteKing, BlackKing]),
        norm: [2, 0, 1, 1, 0, 0, 0, 0],
        factors: [1, 0, 180, 11160, 0, 0, 0, 0],
        pairs_data: constant_stream(0),
    };
    assert_eq!(table.index(2, 0, squares(&["b3", "b2", "a1", "h8"])), Some(669668));
    assert_eq!(table.index(2, 0, squares(&["c5", "g7", "e1", "e8"])), Some(636920));
    let table = pawnful::Table {
        pieces: row(&[BlackPawn, BlackPawn, WhitePawn, WhitePawn, WhitePawn, WhiteKing, BlackKing]),
        norm: [2, 0, 3, 0, 0, 1, 1, 0],
        factors: [1, 0, 252, 0, 0, 3825360, 225696240, 0],
        pairs_data: constant_stream(0),
    };
    assert_eq!(
        table.index(2, 3, squares(&["b7", "a5", "c2", "d3", "e4", "h1", "h8"])),
        Some(12891765024)
    );
}

#[test]
fn the_index_stays_below_the_size_of_the_table() {
    // queen, king and king: every placement on three squares
    let table = pawnless::Table {
        pieces: row(&[WhiteQueen, WhiteKing, BlackKing]),
        norm: [3, 0, 0, 0, 0, 0, 0, 0],
        factors: [1, 0, 0, 0, 0, 0, 0, 0],
        pairs_data: constant_stream(0),
    };
    let mut seen = vec![false; 31332];
    for a in 0..64u8 {
        for b in 0..64u8 {
            for c in 0..64u8 {
                if a == b || a == c || b == c {
                    continue;
                }
                let index = table.index(EncodingType::Zero, vec![a, b, c]).unwrap();
                assert!(index < 31332);
                seen[index as usize] = true;
            }
        }
    }
    // and every index is that of a placement
    assert!(seen.iter().all(|&s| s));
    // two kings and two rooks, whichever group comes first
    for (order, factors) in [(0u8, [1, 0, 462, 0, 0, 0, 0, 0]), (1, [1891, 0, 1, 0, 0, 0, 0, 0])] {
        let norm = [2, 0, 2, 0, 0, 0, 0, 0];
        let (size, found) = pawnless::calculate_factors(4, order, &norm, EncodingType::Two).unwrap();
        assert_eq!(found, factors);
        let table = pawnless::Table {
            pieces: row(&[WhiteKing, BlackKing, WhiteRook, WhiteRook]),
            norm,
            factors,
            pairs_data: constant_stream(0),
        };
        for a in (0..64u8).step_by(3) {
            for b in (0..64u8).step_by(5) {
                for c in 0..64u8 {
                    for d in (0..64u8).step_by(7) {
                        if a == b || a == c || a == d || b == c || b == d || c == d {
                            continue;
                        }
                        if let Some(index) = table.index(EncodingType::Two, vec![a, b, c, d]) {
                            assert!(index < size);
                        }
                    }
                }
            }
        }
    }
}

#[test]
fn mirror_images_share_an_index() {
    let table = pawnless::Table {
        pieces: row(&[WhiteQueen, WhiteKing, BlackKing, WhiteRook, BlackRook]),
        norm: [3, 0, 0, 1, 1, 0, 0, 0],
        factors: [61, 0, 0, 1, 1911252, 0, 0, 0],
        pairs_data: constant_stream(0),
    };
    let transposed = |v: &Vec<u8>| v.iter().map(|&s| 8 * (s % 8) + s / 8).collect::<Vec<u8>>();
    for names in [["g2", "e1", "e8", "a3", "h6"], ["a1", "b2", "c4", "h8", "d5"], ["d4", "e5", "a7", "b1", "h2"]] {
        let v = squares(&names);
        let index = table.index(EncodingType::Zero, v.clone());
        assert!(index.is_some());
        let mut files = v.clone();
        flip_files(&mut files);
        assert_eq!(table.index(EncodingType::Zero, files), index);
        let mut ranks = v.clone();
        flip_ranks(&mut ranks);
        assert_eq!(table.index(EncodingType::Zero, ranks), index);
        // one of the leading pieces stands off the long diagonal
        assert_eq!(table.index(EncodingType::Zero, transposed(&v)), index);
    }
    // the pieces of a group in another order
    let table = pawnless::Table {
        pieces: row(&[WhiteKing, BlackKing, WhiteRook, WhiteRook]),
        norm: [2, 0, 2, 0, 0, 0, 0, 0],
        factors: [1, 0, 462, 0, 0, 0, 0, 0],
        pairs_data: constant_stream(0),
    };
    assert_eq!(
        table.index(EncodingType::Two, squares(&["c1", "a1", "e4", "h8"])),
        table.index(EncodingType::Two, squares(&["c1", "a1", "h8", "e4"]))
    );
}

#[test]
fn with_one_leading_pawn_the_index_stays_below_the_size() {
    let pieces = row(&[WhitePawn, BlackPawn, WhiteKing, BlackKing]);
    let norm = pawnful::calculate_norm(1, 1, 4, &pieces);
    assert_eq!(norm, [1, 1, 1, 1, 0, 0, 0, 0]);
    for (order, order2) in [(0u8, 1u8), (1, 0), (2, 3), (3, 1)] {
        for file in 0..4usize {
            let (size, factors) = pawnful::calculate_factors(&norm, 4, order, order2, file).unwrap();
            assert_eq!(size, 6 * 47 * 62 * 61);
            let table = pawnful::Table { pieces, norm, factors, pairs_data: constant_stream(0) };
            let mut highest = 0;
            for lead in 8..56u8 {
                for other in 8..56u8 {
                    for king in (0..64u8).step_by(7) {
                        for last in (0..64u8).step_by(11) {
                            if lead == other || king == last {
                                continue;
                            }
                            if king == lead || king == other || last == lead || last == other {
                                continue;
                            }
                            let index = table.index(1, 1, vec![lead, other, king, last]).unwrap();
                            assert!(index < size);
                            highest = highest.max(index);
                        }
                    }
                }
            }
            assert!(highest > size / 2);
        }
    }
    // without pawns of the other side
    let pieces = row(&[WhitePawn, WhiteKing, BlackKing]);
    let norm = pawnful::calculate_norm(1, 0, 3, &pieces);
    let (size, factors) = pawnful::calculate_factors(&norm, 3, 1, 0xF, 0).unwrap();
    let table = pawnful::Table { pieces, norm, factors, pairs_data: constant_stream(0) };
    for lead in 8..56u8 {
        for king in 0..64u8 {
            for last in 0..64u8 {
                if king == last || king == lead || last == lead {
                    continue;
                }
                assert!(table.index(1, 0, vec![lead, king, last]).unwrap() < size);
            }
        }
    }
}

#[test]
fn with_pawns_mirror_images_and_like_pieces_share_an_index() {
    let table = pawnful::Table {
        pieces: row(&[BlackPawn, WhitePawn, WhitePawn, WhiteKing, BlackKing]),
        norm: [1, 2, 0, 1, 1, 0, 0, 0],
        factors: [1, 6, 0, 6486, 395646, 0, 0, 0],
        pairs_data: constant_stream(0),
    };
    for names in [["c5", "a2", "h3", "e1", "e8"], ["f4", "g6", "b2", "a1", "c8"]] {
        let v = squares(&names);
        let index = table.index(1, 2, v.clone());
        assert!(index.is_some());
        let mut files = v.clone();
        flip_files(&mut files);
        assert_eq!(table.index(1, 2, files), index);
    }
    let table = pawnful::Table {
        pieces: row(&[WhitePawn, BlackPawn, WhiteRook, WhiteRook, WhiteKing, BlackKing]),
        norm: [1, 1, 2, 0, 1, 1, 0, 0],
        factors: [1, 6, 282, 0, 533262, 31995720, 0, 0],
        pairs_data: constant_stream(0),
    };
    let index = table.index(1, 1, squares(&["b4", "g5", "a1", "h8", "e2", "e7"]));
    assert!(index.is_some());
    assert_eq!(table.index(1, 1, squares(&["b4", "g5", "h8", "a1", "e2", "e7"])), index);
    assert_ne!(table.index(1, 1, squares(&["b4", "g5", "a1", "h8", "e7", "e2"])), index);
}

#[test]
fn with_two_leading_pawns_the_index_can_reach_the_size() {
    let pieces = row(&[WhitePawn, WhitePawn, WhiteKing, BlackKing]);
    let norm = pawnful::calculate_norm(2, 0, 4, &pieces);
    assert_eq!(norm, [2, 0, 1, 1, 0, 0, 0, 0]);
    let mut placed = squares(&["a7", "a2", "h8", "g8"]);
    let file = pawnful::pawn_file(2, &mut placed);
    assert_eq!(file, 0);
    let (size, factors) = pawnful::calculate_factors(&norm, 4, 0, 0xF, file).unwrap();
    assert_eq!(size, 953064);
    let table = pawnful::Table { pieces, norm, factors, pairs_data: constant_stream(0) };
    assert_eq!(table.index(2, 0, placed), Some(953064));
}
