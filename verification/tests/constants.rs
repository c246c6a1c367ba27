use cozy_syzygy::constants::{
    BINOMIAL, DIAGONAL, FILE_TO_FILE, FLAP, FLIP_DIAGONAL, KK_INDEX, LOWER, MAX_PIECES,
    OFF_DIAGONAL, PAWN_FACTOR, PAWN_INDEX, PAWN_TWIST, TRIANGLE,
};

#[test]
fn the_tables_of_squares_fold_the_board() {
    assert_eq!(MAX_PIECES, 8);
    for s in 0..64usize {
        let (file, rank) = (s & 7, s >> 3);
        assert_eq!(FLIP_DIAGONAL[s] as usize, file * 8 + rank);
        assert_eq!(OFF_DIAGONAL[s], (rank as i8 - file as i8).signum());
        assert_eq!(TRIANGLE[s], TRIANGLE[s ^ 7]);
        assert_eq!(TRIANGLE[s], TRIANGLE[s ^ 56]);
        assert_eq!(TRIANGLE[s], TRIANGLE[FLIP_DIAGONAL[s] as usize]);
        assert_eq!(LOWER[s], LOWER[FLIP_DIAGONAL[s] as usize]);
        assert_eq!(FLAP[s], FLAP[s ^ 7]);
    }
    assert_eq!(&TRIANGLE[..8], &[6, 0, 1, 2, 2, 1, 0, 6]);
    assert_eq!(&LOWER[..10], &[28, 0, 1, 2, 3, 4, 5, 6, 0, 29]);
    assert_eq!((DIAGONAL[0], DIAGONAL[63], DIAGONAL[7], DIAGONAL[56]), (0, 7, 8, 15));
    assert_eq!(FILE_TO_FILE, [0, 1, 2, 3, 3, 2, 1, 0]);
    assert_eq!(&FLAP[8..16], &[0, 6, 12, 18, 18, 12, 6, 0]);
    assert_eq!(&PAWN_TWIST[8..16], &[47, 35, 23, 11, 10, 22, 34, 46]);
    assert_eq!(&PAWN_TWIST[48..56], &[37, 25, 13, 1, 0, 12, 24, 36]);
}

#[test]
fn the_placements_of_two_kings_are_numbered_once() {
    let mut seen = vec![false; 462];
    for t in 0..10 {
        for s in 0..64 {
            let index = KK_INDEX[t][s];
            if index >= 0 {
                assert!(!seen[index as usize]);
                seen[index as usize] = true;
            }
        }
    }
    assert!(seen.iter().all(|&s| s));
    assert_eq!(KK_INDEX[0][3], 0);
    assert_eq!(KK_INDEX[1][0], 58);
    assert_eq!(KK_INDEX[6][18], 441);
    assert_eq!(KK_INDEX[9][63], 461);
    // kings that touch have no number
    assert_eq!(KK_INDEX[0][0], -1);
    assert_eq!(KK_INDEX[9][28], -1);
}

#[test]
fn the_binomials_count_choices() {
    for n in 0..64usize {
        assert_eq!(BINOMIAL[0][n], n as u64);
        assert_eq!(BINOMIAL[1][n], (n * n.saturating_sub(1) / 2) as u64);
        for k in 1..6 {
            if n > 0 {
                // Pascal's rule
                assert_eq!(BINOMIAL[k][n], BINOMIAL[k][n - 1] + BINOMIAL[k - 1][n - 1]);
            } else {
                assert_eq!(BINOMIAL[k][n], 0);
            }
        }
    }
    assert_eq!(BINOMIAL[5][63], 67945521);
}

#[test]
fn the_pawn_tables_add_up() {
    assert_eq!(PAWN_FACTOR[0], [6, 6, 6, 6]);
    assert_eq!(PAWN_FACTOR[1], [252, 180, 108, 36]);
    for t in 0..6 {
        for file in 0..4 {
            assert_eq!(PAWN_INDEX[t][6 * file], 0);
            // the pawn on the last place of the file, and those behind it
            let last = PAWN_INDEX[t][6 * file + 5];
            let behind = if t == 0 { 1 } else { BINOMIAL[t - 1][PAWN_TWIST[48 + file] as usize] };
            assert_eq!(last + behind, PAWN_FACTOR[t][file]);
        }
    }
}
