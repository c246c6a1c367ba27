//! The five outcomes of a game under the fifty-move rule.
use std::ops::Neg;
use vstd::prelude::*;
use vstd::std_specs::ops::NegSpecImpl;

verus! {

/// 5-valued game outcome, seen from the side to move and ordered from worst to best.
#[derive(Clone, Copy, Debug, PartialEq, Eq, Structural, PartialOrd, Ord)]
pub enum Wdl {
    /// The game is lost.
    Loss,
    /// The game would be lost, but is drawn by the 50 move rule.
    BlessedLoss,
    /// The game is drawn.
    Draw,
    /// The game would be won, but is drawn by the 50 move rule.
    CursedWin,
    /// The game is won.
    Win,
}

impl Wdl {
    /// The place of the outcome in the order, from 0 for a loss to 4 for a win.
    pub open spec fn rank(self) -> int {
        match self {
            Wdl::Loss => 0,
            Wdl::BlessedLoss => 1,
            Wdl::Draw => 2,
            Wdl::CursedWin => 3,
            Wdl::Win => 4,
        }
    }

    /// The outcome of the given rank, if there is one.
    pub open spec fn of_rank(r: int) -> Option<Wdl> {
        if r == 0 {
            Some(Wdl::Loss)
        } else if r == 1 {
            Some(Wdl::BlessedLoss)
        } else if r == 2 {
            Some(Wdl::Draw)
        } else if r == 3 {
            Some(Wdl::CursedWin)
        } else if r == 4 {
            Some(Wdl::Win)
        } else {
            None
        }
    }

    /// The same outcome seen from the other side.
    pub open spec fn flipped(self) -> Wdl {
        match self {
            Wdl::Loss => Wdl::Win,
            Wdl::BlessedLoss => Wdl::CursedWin,
            Wdl::Draw => Wdl::Draw,
            Wdl::CursedWin => Wdl::BlessedLoss,
            Wdl::Win => Wdl::Loss,
        }
    }

    /// The better of two outcomes.
    pub open spec fn spec_max(self, other: Wdl) -> Wdl {
        if self.rank() >= other.rank() {
            self
        } else {
            other
        }
    }

    /// The worse of two outcomes.
    pub open spec fn spec_min(self, other: Wdl) -> Wdl {
        if self.rank() <= other.rank() {
            self
        } else {
            other
        }
    }

    /// The byte under which a table stores the outcome.
    pub fn to_byte(self) -> (r: u8)
        ensures
            r == self.rank(),
    {
        match self {
            Wdl::Loss => 0,
            Wdl::BlessedLoss => 1,
            Wdl::Draw => 2,
            Wdl::CursedWin => 3,
            Wdl::Win => 4,
        }
    }

    /// The outcome that a table stores under `b`; only 0 to 4 stand for one.
    pub fn from_byte(b: u8) -> (r: Option<Wdl>)
        ensures
            r == Wdl::of_rank(b as int),
    {
        match b {
            0 => Some(Wdl::Loss),
            1 => Some(Wdl::BlessedLoss),
            2 => Some(Wdl::Draw),
            3 => Some(Wdl::CursedWin),
            4 => Some(Wdl::Win),
            _ => None,
        }
    }

    /// Whether `self` is strictly better than `other`.
    pub fn better_than(self, other: Wdl) -> (r: bool)
        ensures
            r == (self.rank() > other.rank()),
    {
        self.to_byte() > other.to_byte()
    }
}

impl Neg for Wdl {
    type Output = Wdl;

    fn neg(self) -> (r: Wdl) {
        match self {
            Wdl::Loss => Wdl::Win,
            Wdl::BlessedLoss => Wdl::CursedWin,
            Wdl::Draw => Wdl::Draw,
            Wdl::CursedWin => Wdl::BlessedLoss,
            Wdl::Win => Wdl::Loss,
        }
    }
}

impl NegSpecImpl for Wdl {
    open spec fn obeys_neg_spec() -> bool {
        true
    }

    open spec fn neg_req(self) -> bool {
        true
    }

    open spec fn neg_spec(self) -> Wdl {
        self.flipped()
    }
}

/// Negating an outcome mirrors its rank around the draw.
pub proof fn lemma_neg_rank(w: Wdl)
    ensures
        w.flipped().rank() == 4 - w.rank(),
{
}

/// Negating twice gives the outcome back.
pub proof fn lemma_neg_involution(w: Wdl)
    ensures
        w.flipped().flipped() == w,
{
}

/// Negation reverses the order: the better outcome for one side is the worse for the other.
pub proof fn lemma_neg_reverses_order(a: Wdl, b: Wdl)
    ensures
        a.rank() < b.rank() <==> b.flipped().rank() < a.flipped().rank(),
        a.rank() <= b.rank() <==> b.flipped().rank() <= a.flipped().rank(),
{
}

/// Negation is a bijection: no two outcomes share a negation, and every
/// outcome is the negation of one.
pub proof fn lemma_neg_bijection(a: Wdl, b: Wdl)
    ensures
        a.flipped() == b.flipped() ==> a == b,
        exists|w: Wdl| #[trigger] w.flipped() == a,
{
    assert(a.flipped().flipped() == a);
}

/// An outcome and its byte determine each other.
pub proof fn lemma_rank_round_trip(w: Wdl)
    ensures
        0 <= w.rank() <= 4,
        Wdl::of_rank(w.rank()) == Some(w),
{
}

} // verus!
