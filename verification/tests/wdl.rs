use cozy_syzygy::Wdl;

const ALL: [Wdl; 5] = [Wdl::Loss, Wdl::BlessedLoss, Wdl::Draw, Wdl::CursedWin, Wdl::Win];

#[test]
fn negation_swaps_win_and_loss() {
    assert_eq!(-Wdl::Win, Wdl::Loss);
    assert_eq!(-Wdl::Loss, Wdl::Win);
    assert_eq!(-Wdl::BlessedLoss, Wdl::CursedWin);
    assert_eq!(-Wdl::CursedWin, Wdl::BlessedLoss);
    assert_eq!(-Wdl::Draw, Wdl::Draw);
}

#[test]
fn negation_is_its_own_inverse() {
    for w in ALL {
        assert_eq!(-(-w), w);
    }
}

#[test]
fn negation_reverses_the_order() {
    for a in ALL {
        for b in ALL {
            assert_eq!(a < b, -b < -a);
            assert_eq!(a == b, -a == -b);
        }
    }
}

#[test]
fn outcomes_are_ordered_from_loss_to_win() {
    assert!(Wdl::Loss < Wdl::BlessedLoss);
    assert!(Wdl::BlessedLoss < Wdl::Draw);
    assert!(Wdl::Draw < Wdl::CursedWin);
    assert!(Wdl::CursedWin < Wdl::Win);
    assert!(Wdl::Win.better_than(Wdl::CursedWin));
    assert!(!Wdl::Draw.better_than(Wdl::Draw));
    assert!(!Wdl::Loss.better_than(Wdl::Win));
}

#[test]
fn bytes_zero_to_four_stand_for_outcomes() {
    assert_eq!(Wdl::from_byte(0), Some(Wdl::Loss));
    assert_eq!(Wdl::from_byte(1), Some(Wdl::BlessedLoss));
    assert_eq!(Wdl::from_byte(2), Some(Wdl::Draw));
    assert_eq!(Wdl::from_byte(3), Some(Wdl::CursedWin));
    assert_eq!(Wdl::from_byte(4), Some(Wdl::Win));
    assert_eq!(Wdl::from_byte(5), None);
    assert_eq!(Wdl::from_byte(255), None);
    for w in ALL {
        assert_eq!(Wdl::from_byte(w.to_byte()), Some(w));
    }
}
