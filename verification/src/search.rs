//! What the search of the captures finds: the value that the tables and the
//! captures give a position, as far as it lies between the bounds of the
//! search.
use crate::board::{board_after, legal_moves, ChessMove};
use crate::position::{
    can_castle, captures_of, captures_upto, en_passant_square, is_capture, is_en_passant,
    lemma_captures_legal, pieces_on, plain_moves, plain_moves_upto, Capture,
};
use crate::tablebase::{false_stalemate, Tablebase};
use crate::wdl::Wdl;
use cozy_chess::Board;
use vstd::prelude::*;

verus! {

/// The value that the tables and the captures give `board`: what stands in
/// the tables for it, or the best that a capture leads to, if that is more.
/// There is none where the tables lack the position or one that a capture
/// leads to.
pub open spec fn capture_value(tb: Tablebase, board: Board) -> Option<Wdl>
    decreases pieces_on(board), 1int, 0int,
{
    match tb.wdl_of(board) {
        None => None,
        Some(v) => best_from(tb, board, captures_of(board, false), 0, v),
    }
}

/// The better of `best` and the best value that the captures from number
/// `i` on lead to.
pub open spec fn best_from(
    tb: Tablebase,
    board: Board,
    captures: Seq<Capture>,
    i: int,
    best: Wdl,
) -> Option<Wdl>
    decreases pieces_on(board), 0int, (if i < captures.len() {
        captures.len() - i
    } else {
        0int
    }),
{
    if i < 0 || i >= captures.len() {
        Some(best)
    } else if pieces_on(board_after(board, captures[i].mv)) >= pieces_on(board) {
        None
    } else {
        match capture_value(tb, board_after(board, captures[i].mv)) {
            None => None,
            Some(w) => best_from(tb, board, captures, i + 1, best.spec_max(w.flipped())),
        }
    }
}

/// What a search between the bounds `a` and `b` may give for the value `t`:
/// the value itself where it lies between the bounds, the lower bound where
/// it does not reach above it, and a value from the upper bound up to `t`
/// where it reaches the upper bound.
pub open spec fn within(r: Wdl, t: Wdl, a: Wdl, b: Wdl) -> bool {
    &&& t.rank() <= a.rank() ==> r == a
    &&& a.rank() < t.rank() < b.rank() ==> r == t
    &&& t.rank() >= b.rank() ==> b.rank() <= r.rank() <= t.rank()
}

/// The best of the captures is no worse than what was best before them.
pub proof fn lemma_best_grows(
    tb: Tablebase,
    board: Board,
    captures: Seq<Capture>,
    i: int,
    best: Wdl,
)
    requires
        0 <= i,
        best_from(tb, board, captures, i, best) is Some,
    ensures
        best.rank() <= best_from(tb, board, captures, i, best)->0.rank(),
    decreases (if i < captures.len() {
        captures.len() - i
    } else {
        0int
    }),
{
    if i < captures.len() {
        let w = capture_value(tb, board_after(board, captures[i].mv))->0;
        lemma_best_grows(tb, board, captures, i + 1, best.spec_max(w.flipped()));
    }
}

/// The search of the captures is sound: where the tables have every
/// position that the captures lead to, the search between two bounds gives
/// the value of the position as far as it lies between them.
pub proof fn lemma_alpha_beta_sound(tb: Tablebase, board: Board, a: Wdl, b: Wdl)
    requires
        a.rank() < b.rank(),
        capture_value(tb, board) is Some,
    ensures
        tb.alpha_beta(board, a, b) is Some,
        within(tb.alpha_beta(board, a, b)->0, capture_value(tb, board)->0, a, b),
    decreases pieces_on(board), 1int, 0int,
{
    let v = tb.wdl_of(board)->0;
    let captures = captures_of(board, false);
    lemma_best_grows(tb, board, captures, 0, v);
    if v.rank() > a.rank() {
        if v.rank() < b.rank() {
            lemma_alpha_beta_moves_sound(tb, board, captures, 0, v, b, v);
        }
    } else {
        lemma_alpha_beta_moves_sound(tb, board, captures, 0, a, b, v);
    }
}

/// The search of the captures from number `i` on is sound: it gives the
/// best of `best` and what they lead to, as far as that lies between the
/// bounds.
pub proof fn lemma_alpha_beta_moves_sound(
    tb: Tablebase,
    board: Board,
    captures: Seq<Capture>,
    i: int,
    alpha: Wdl,
    beta: Wdl,
    best: Wdl,
)
    requires
        0 <= i,
        alpha.rank() < beta.rank(),
        best.rank() <= alpha.rank(),
        best_from(tb, board, captures, i, best) is Some,
    ensures
        tb.alpha_beta_moves(board, captures, i, alpha, beta) is Some,
        within(
            tb.alpha_beta_moves(board, captures, i, alpha, beta)->0,
            best_from(tb, board, captures, i, best)->0,
            alpha,
            beta,
        ),
    decreases pieces_on(board), 0int, (if i < captures.len() {
        captures.len() - i
    } else {
        0int
    }),
{
    if i < captures.len() {
        let after = board_after(board, captures[i].mv);
        let c = capture_value(tb, after)->0;
        let next = best.spec_max(c.flipped());
        lemma_alpha_beta_sound(tb, after, beta.flipped(), alpha.flipped());
        let w = tb.alpha_beta(after, beta.flipped(), alpha.flipped())->0;
        lemma_best_grows(tb, board, captures, i + 1, next);
        if w.flipped().rank() > alpha.rank() {
            if w.flipped().rank() < beta.rank() {
                lemma_alpha_beta_moves_sound(tb, board, captures, i + 1, w.flipped(), beta, next);
            }
        } else {
            lemma_alpha_beta_moves_sound(tb, board, captures, i + 1, alpha, beta, next);
        }
    }
}

/// The value for the side to move of the capture number `j`: that of the
/// position it leads to, seen from the other side.
pub open spec fn value_after(tb: Tablebase, board: Board, captures: Seq<Capture>, j: int) -> Option<
    Wdl,
> {
    match capture_value(tb, board_after(board, captures[j].mv)) {
        None => None,
        Some(w) => Some(w.flipped()),
    }
}

/// The best of the captures from number `i` on is no less than the value of
/// any of them, and it is `best` or the value of one of them.
pub proof fn lemma_best_is_the_best(
    tb: Tablebase,
    board: Board,
    captures: Seq<Capture>,
    i: int,
    best: Wdl,
)
    requires
        0 <= i,
        best_from(tb, board, captures, i, best) is Some,
    ensures
        forall|j: int|
            i <= j < captures.len() ==> (#[trigger] value_after(tb, board, captures, j)) is Some
                && value_after(tb, board, captures, j)->0.rank() <= best_from(
                tb,
                board,
                captures,
                i,
                best,
            )->0.rank(),
        best_from(tb, board, captures, i, best)->0 == best || exists|j: int|
            i <= j < captures.len() && #[trigger] value_after(tb, board, captures, j) == best_from(
                tb,
                board,
                captures,
                i,
                best,
            ),
    decreases (if i < captures.len() {
        captures.len() - i
    } else {
        0int
    }),
{
    if i < captures.len() {
        let here = value_after(tb, board, captures, i)->0;
        let next = best.spec_max(here);
        lemma_best_is_the_best(tb, board, captures, i + 1, next);
        lemma_best_grows(tb, board, captures, i + 1, next);
        let t = best_from(tb, board, captures, i, best)->0;
        if t != best {
            if t == next {
                assert(value_after(tb, board, captures, i) == Some(t));
            } else {
                let j = choose|j: int|
                    i + 1 <= j < captures.len() && #[trigger] value_after(tb, board, captures, j)
                        == Some(t);
                assert(i <= j < captures.len() && value_after(tb, board, captures, j) == Some(t));
            }
        }
    }
}

/// The probe's search of the captures finds the best of them: where the
/// tables have every position that a capture leads to, the value that the
/// search ends with is the better of the value it began with and the best
/// value of a capture. Where no capture is better, the marks stay as they
/// were; where one is, the first mark says whether it is better than a draw.
pub proof fn lemma_probe_moves_value(
    tb: Tablebase,
    board: Board,
    captures: Seq<Capture>,
    i: int,
    alpha: Wdl,
    best_is_capture: bool,
    best_is_ep: bool,
)
    requires
        0 <= i,
        alpha != Wdl::Win,
        best_from(tb, board, captures, i, alpha) is Some,
    ensures
        tb.probe_moves(board, captures, i, alpha, best_is_capture, best_is_ep) is Some,
        tb.probe_moves(board, captures, i, alpha, best_is_capture, best_is_ep).unwrap().0 == best_from(
            tb,
            board,
            captures,
            i,
            alpha,
        )->0,
        best_from(tb, board, captures, i, alpha)->0 == alpha ==> tb.probe_moves(
            board,
            captures,
            i,
            alpha,
            best_is_capture,
            best_is_ep,
        ).unwrap().1 == best_is_capture && tb.probe_moves(
            board,
            captures,
            i,
            alpha,
            best_is_capture,
            best_is_ep,
        ).unwrap().2 == best_is_ep,
        best_from(tb, board, captures, i, alpha)->0 != alpha ==> tb.probe_moves(
            board,
            captures,
            i,
            alpha,
            best_is_capture,
            best_is_ep,
        ).unwrap().1 == (best_from(tb, board, captures, i, alpha)->0.rank() > Wdl::Draw.rank()),
    decreases (if i < captures.len() {
        captures.len() - i
    } else {
        0int
    }),
{
    if i < captures.len() {
        let after = board_after(board, captures[i].mv);
        let c = capture_value(tb, after)->0;
        let next = alpha.spec_max(c.flipped());
        lemma_alpha_beta_sound(tb, after, Wdl::Loss, alpha.flipped());
        let w = tb.alpha_beta(after, Wdl::Loss, alpha.flipped())->0;
        lemma_best_grows(tb, board, captures, i + 1, next);
        if w.flipped().rank() > alpha.rank() {
            assert(w == c);
            if w.flipped() != Wdl::Win {
                lemma_probe_moves_value(
                    tb,
                    board,
                    captures,
                    i + 1,
                    w.flipped(),
                    w.flipped().rank() > Wdl::Draw.rank(),
                    captures[i].en_passant,
                );
            }
        } else {
            assert(next == alpha);
            lemma_probe_moves_value(tb, board, captures, i + 1, alpha, best_is_capture, best_is_ep);
        }
    }
}

/// The value with which the probe begins its search of the captures.
pub open spec fn probe_start(tb: Tablebase, board: Board) -> Wdl {
    if false_stalemate(board) {
        Wdl::Loss
    } else {
        Wdl::Draw.spec_min(tb.wdl_of(board)->0)
    }
}

/// Whether the tables have `board` and every position that a capture of
/// `board` leads to, those en passant among them, and every position that
/// captures lead to from there.
pub open spec fn probe_defined(tb: Tablebase, board: Board) -> bool {
    tb.wdl_of(board) is Some && best_from(
        tb,
        board,
        captures_of(board, true),
        0,
        probe_start(tb, board),
    ) is Some
}

/// Where the probe says that the position is won, it says that the best
/// move is a capture if and only if a capture wins: one that leads to a
/// position which the tables and the captures give the other side as lost.
pub proof fn lemma_win_is_by_capture(tb: Tablebase, board: Board, flag: bool)
    requires
        probe_defined(tb, board),
        tb.probe(board) == Some((Wdl::Win, flag)),
    ensures
        flag <==> exists|j: int|
            0 <= j < captures_of(board, true).len() && #[trigger] value_after(
                tb,
                board,
                captures_of(board, true),
                j,
            ) == Some(Wdl::Win),
{
    let captures = captures_of(board, true);
    let start = probe_start(tb, board);
    lemma_probe_moves_value(tb, board, captures, 0, start, false, false);
    lemma_best_is_the_best(tb, board, captures, 0, start);
    let t = best_from(tb, board, captures, 0, start)->0;
    if t == Wdl::Win {
        let j = choose|j: int|
            0 <= j < captures.len() && #[trigger] value_after(tb, board, captures, j) == Some(t);
        assert(0 <= j < captures.len() && value_after(tb, board, captures, j) == Some(Wdl::Win));
    } else {
        assert forall|j: int| 0 <= j < captures.len() implies #[trigger] value_after(
            tb,
            board,
            captures,
            j,
        ) != Some(Wdl::Win) by {
            assert(value_after(tb, board, captures, j)->0.rank() <= t.rank());
        }
    }
}

/// Where the probe says that the position is lost, every capture loses:
/// each leads to a position which the tables and the captures give the
/// other side as won.
pub proof fn lemma_loss_whatever_is_taken(tb: Tablebase, board: Board, flag: bool)
    requires
        probe_defined(tb, board),
        tb.probe(board) == Some((Wdl::Loss, flag)),
    ensures
        forall|j: int|
            0 <= j < captures_of(board, true).len() ==> #[trigger] value_after(
                tb,
                board,
                captures_of(board, true),
                j,
            ) == Some(Wdl::Loss),
{
    let captures = captures_of(board, true);
    let start = probe_start(tb, board);
    lemma_probe_moves_value(tb, board, captures, 0, start, false, false);
    lemma_best_is_the_best(tb, board, captures, 0, start);
    assert forall|j: int| 0 <= j < captures.len() implies #[trigger] value_after(
        tb,
        board,
        captures,
        j,
    ) == Some(Wdl::Loss) by {
        assert(value_after(tb, board, captures, j)->0.rank() <= 0);
    }
}

/// The value that the probe gives is the value that the tables and the
/// captures give: what stands in the tables or the best that a capture leads
/// to, if that is more; and the best of the captures alone where the
/// position would be stalemate but for captures en passant.
pub proof fn lemma_probe_value(tb: Tablebase, board: Board)
    requires
        probe_defined(tb, board),
    ensures
        tb.probe(board) is Some,
        tb.probe(board).unwrap().0 == if false_stalemate(board) {
            best_from(tb, board, captures_of(board, true), 0, Wdl::Loss)->0
        } else {
            best_from(tb, board, captures_of(board, true), 0, tb.wdl_of(board)->0)->0
        },
{
    let captures = captures_of(board, true);
    let start = probe_start(tb, board);
    let v = tb.wdl_of(board)->0;
    lemma_probe_moves_value(tb, board, captures, 0, start, false, false);
    if !false_stalemate(board) {
        lemma_best_from_start(tb, board, captures, 0, start, v);
    }
}

/// To begin the search of the captures with a lower value changes the best
/// of them only where none reaches the higher value.
pub proof fn lemma_best_from_start(
    tb: Tablebase,
    board: Board,
    captures: Seq<Capture>,
    i: int,
    low: Wdl,
    high: Wdl,
)
    requires
        0 <= i,
        low.rank() <= high.rank(),
        best_from(tb, board, captures, i, low) is Some,
    ensures
        best_from(tb, board, captures, i, high) == Some(
            high.spec_max(best_from(tb, board, captures, i, low)->0),
        ),
    decreases (if i < captures.len() {
        captures.len() - i
    } else {
        0int
    }),
{
    if i < captures.len() {
        let here = value_after(tb, board, captures, i)->0;
        lemma_best_from_start(tb, board, captures, i + 1, low.spec_max(here), high.spec_max(here));
    }
}

/// Where no pawn can be taken en passant, the value that the probe gives is
/// the value that the search of the captures is after.
pub proof fn lemma_probe_is_capture_value(tb: Tablebase, board: Board)
    requires
        en_passant_square(board) is None,
        capture_value(tb, board) is Some,
    ensures
        tb.probe(board) is Some,
        tb.probe(board).unwrap().0 == capture_value(tb, board)->0,
{
    let n = legal_moves(board).len() as int;
    lemma_no_en_passant(board, n);
    lemma_captures_legal(board, true, n);
    let captures = captures_of(board, true);
    let v = tb.wdl_of(board)->0;
    assert(!false_stalemate(board));
    let start = probe_start(tb, board);
    lemma_best_from_low(tb, board, captures, 0, start, v);
    lemma_probe_value(tb, board);
}

/// To begin the search of the captures with a lower value leaves it defined.
pub proof fn lemma_best_from_low(
    tb: Tablebase,
    board: Board,
    captures: Seq<Capture>,
    i: int,
    low: Wdl,
    high: Wdl,
)
    requires
        0 <= i,
        best_from(tb, board, captures, i, high) is Some,
    ensures
        best_from(tb, board, captures, i, low) is Some,
    decreases (if i < captures.len() {
        captures.len() - i
    } else {
        0int
    }),
{
    if i < captures.len() {
        let here = value_after(tb, board, captures, i)->0;
        lemma_best_from_low(tb, board, captures, i + 1, low.spec_max(here), high.spec_max(here));
    }
}

/// Where no pawn can be taken en passant, the captures are the same whether
/// those en passant are asked for or not, and every move is a plain one.
pub proof fn lemma_no_en_passant(board: Board, n: int)
    requires
        en_passant_square(board) is None,
        0 <= n <= legal_moves(board).len(),
    ensures
        captures_upto(board, true, n) == captures_upto(board, false, n),
        plain_moves_upto(board, n) == n,
    decreases n,
{
    if n > 0 {
        lemma_no_en_passant(board, n - 1);
    }
}

/// What the probe says of the position that the capture number `j` leads to.
pub open spec fn probe_after(tb: Tablebase, board: Board, j: int) -> Option<(Wdl, bool)> {
    tb.probe(board_after(board, captures_of(board, true)[j].mv))
}

/// Whether no pawn can be taken en passant in any position that a capture
/// of `board` leads to.
pub open spec fn quiet_after_captures(board: Board) -> bool {
    forall|j: int|
        0 <= j < captures_of(board, true).len() ==> en_passant_square(
            #[trigger] board_after(board, captures_of(board, true)[j].mv),
        ) is None
}

/// Where the probe says that the position is won, it says that the best
/// move is a capture if and only if the probe of the position after one of
/// the captures says that it is lost.
pub proof fn lemma_win_flag_and_probe_after(tb: Tablebase, board: Board, flag: bool)
    requires
        probe_defined(tb, board),
        quiet_after_captures(board),
        tb.probe(board) == Some((Wdl::Win, flag)),
    ensures
        flag <==> exists|j: int|
            0 <= j < captures_of(board, true).len() && (#[trigger] probe_after(tb, board, j))
                is Some && probe_after(tb, board, j).unwrap().0 == Wdl::Loss,
{
    let captures = captures_of(board, true);
    lemma_win_is_by_capture(tb, board, flag);
    lemma_best_is_the_best(tb, board, captures, 0, probe_start(tb, board));
    assert forall|j: int| 0 <= j < captures.len() implies (#[trigger] probe_after(tb, board, j))
        is Some && (probe_after(tb, board, j).unwrap().0 == Wdl::Loss <==> value_after(
        tb,
        board,
        captures,
        j,
    ) == Some(Wdl::Win)) by {
        let after = board_after(board, captures[j].mv);
        assert(value_after(tb, board, captures, j) is Some);
        assert(en_passant_square(after) is None);
        lemma_probe_is_capture_value(tb, after);
    }
    if flag {
        let j = choose|j: int|
            0 <= j < captures.len() && #[trigger] value_after(tb, board, captures, j) == Some(
                Wdl::Win,
            );
        assert(probe_after(tb, board, j) is Some && probe_after(tb, board, j).unwrap().0
            == Wdl::Loss);
    } else {
        assert forall|j: int| 0 <= j < captures.len() implies !((#[trigger] probe_after(
            tb,
            board,
            j,
        )) is Some && probe_after(tb, board, j).unwrap().0 == Wdl::Loss) by {
            assert(value_after(tb, board, captures, j) != Some(Wdl::Win));
        }
    }
}

/// Where the probe says that the position is lost, the probe of the
/// position after any capture says that it is won: no capture gives the
/// side to move more than a loss.
pub proof fn lemma_loss_and_probe_after(tb: Tablebase, board: Board, flag: bool)
    requires
        probe_defined(tb, board),
        quiet_after_captures(board),
        tb.probe(board) == Some((Wdl::Loss, flag)),
    ensures
        forall|j: int|
            0 <= j < captures_of(board, true).len() ==> (#[trigger] probe_after(tb, board, j))
                is Some && probe_after(tb, board, j).unwrap().0 == Wdl::Win,
{
    let captures = captures_of(board, true);
    lemma_loss_whatever_is_taken(tb, board, flag);
    assert forall|j: int| 0 <= j < captures.len() implies (#[trigger] probe_after(tb, board, j))
        is Some && probe_after(tb, board, j).unwrap().0 == Wdl::Win by {
        let after = board_after(board, captures[j].mv);
        assert(value_after(tb, board, captures, j) == Some(Wdl::Loss));
        assert(en_passant_square(after) is None);
        lemma_probe_is_capture_value(tb, after);
    }
}

/// Whether the moves that the search follows lead where it needs them to:
/// from a position in which no side may castle, each leaves fewer men, and
/// none gives a right to castle.
pub open spec fn captures_lead_down() -> bool {
    forall|b: Board, mv: ChessMove|
        legal_moves(b).contains(mv) && (is_capture(b, mv) || is_en_passant(b, mv)) && !can_castle(
            b,
        ) ==> pieces_on(#[trigger] board_after(b, mv)) < pieces_on(b) && !can_castle(
            board_after(b, mv),
        )
}

/// Whether the tables have every position with up to `n` men beside the
/// kings in which no side may castle.
pub open spec fn tables_cover(tb: Tablebase, n: int) -> bool {
    forall|b: Board| pieces_on(b) <= n && !can_castle(b) ==> (#[trigger] tb.wdl_of(b)) is Some
}

/// Every capture takes a man, on its square or en passant.
pub proof fn lemma_captures_take(board: Board, with_ep: bool, n: int)
    requires
        0 <= n <= legal_moves(board).len(),
    ensures
        forall|i: int|
            0 <= i < captures_upto(board, with_ep, n).len() ==> is_capture(
                board,
                (#[trigger] captures_upto(board, with_ep, n)[i]).mv,
            ) || is_en_passant(board, captures_upto(board, with_ep, n)[i].mv),
    decreases n,
{
    if n > 0 {
        lemma_captures_take(board, with_ep, n - 1);
    }
}

/// Where the tables have every position with up to `n` men beside the
/// kings, the tables and the captures give every such position a value.
pub proof fn lemma_value_defined(tb: Tablebase, board: Board, n: int)
    requires
        captures_lead_down(),
        tables_cover(tb, n),
        pieces_on(board) <= n,
        !can_castle(board),
    ensures
        capture_value(tb, board) is Some,
    decreases pieces_on(board), 1int, 0int,
{
    lemma_best_defined(tb, board, false, 0, tb.wdl_of(board)->0, n);
}

/// Where the tables have every position with up to `n` men beside the
/// kings, the search of the captures from number `i` on finds a value.
pub proof fn lemma_best_defined(
    tb: Tablebase,
    board: Board,
    with_ep: bool,
    i: int,
    best: Wdl,
    n: int,
)
    requires
        captures_lead_down(),
        tables_cover(tb, n),
        pieces_on(board) <= n,
        !can_castle(board),
    ensures
        best_from(tb, board, captures_of(board, with_ep), i, best) is Some,
    decreases pieces_on(board), 0int, (if i < captures_of(board, with_ep).len() {
        captures_of(board, with_ep).len() - i
    } else {
        0int
    }),
{
    let captures = captures_of(board, with_ep);
    if 0 <= i < captures.len() {
        lemma_captures_legal(board, with_ep, legal_moves(board).len() as int);
        lemma_captures_take(board, with_ep, legal_moves(board).len() as int);
        let next = board_after(board, captures[i].mv);
        assert(pieces_on(next) < pieces_on(board) && !can_castle(next));
        lemma_value_defined(tb, next, n);
        lemma_best_defined(
            tb,
            board,
            with_ep,
            i + 1,
            best.spec_max(capture_value(tb, next)->0.flipped()),
            n,
        );
    }
}

/// The probe has a value for every position that complete tables reach:
/// where the tables have every position with up to `n` men beside the kings
/// in which no side may castle, and a capture leaves fewer men and gives no
/// right to castle, the probe has a value for every such position.
pub proof fn lemma_probe_defined(tb: Tablebase, board: Board, n: int)
    requires
        captures_lead_down(),
        tables_cover(tb, n),
        pieces_on(board) <= n,
        !can_castle(board),
    ensures
        probe_defined(tb, board),
        tb.probe(board) is Some,
{
    lemma_best_defined(tb, board, true, 0, probe_start(tb, board), n);
    lemma_probe_value(tb, board);
}

} // verus!
