//! The tables that were loaded, and the probe that answers from them.
use crate::board::{board_after, play};
use crate::error::SyzygyError;
use crate::material::{lemma_key_injective, named_material, names_material, Material};
use crate::piece::Color;
use crate::position::{
    can_castle, capture_moves, captures_of, has_castle_rights, material_of, material_on, men_on,
    mover, pieces_on, plain_moves, to_move, Capture,
};
use crate::table::{file_layout, TableLayout, WdlTable};
use crate::wdl::Wdl;
use cozy_chess::Board;
use std::collections::HashMap;
use std::ops::Neg;
use vstd::prelude::*;
use vstd::std_specs::hash::group_hash_axioms;

verus! {

broadcast use group_hash_axioms;

/// A collection of tablebase files that can be probed.
pub struct Tablebase {
    max_pieces: u32,
    wdl: HashMap<u64, WdlTable>,
}

impl Tablebase {
    /// The table that was loaded for the material `m`, if one was.
    pub closed spec fn table_for(self, m: Material) -> Option<TableLayout> {
        if self.wdl@.contains_key(m.key_of() as u64) {
            Some(self.wdl@[m.key_of() as u64]@)
        } else {
            None
        }
    }

    /// The number of men of the largest table that was loaded, and 2 where none was.
    pub closed spec fn largest(self) -> int {
        self.max_pieces as int
    }

    /// Whether the same tables are loaded in `self` and in `other`.
    pub open spec fn same_tables(self, other: Tablebase) -> bool {
        &&& self.largest() == other.largest()
        &&& forall|m: Material| m.wf() ==> #[trigger] self.table_for(m) == other.table_for(m)
    }

    /// `self` is `before` with the table `table` loaded for the material `m`.
    pub open spec fn with_table(self, before: Tablebase, m: Material, table: TableLayout) -> bool {
        &&& self.table_for(m) == Some(table)
        &&& self.largest() == if m.men() > before.largest() {
            m.men()
        } else {
            before.largest()
        }
        &&& forall|other: Material|
            other.wf() && other != m ==> #[trigger] self.table_for(other) == before.table_for(
                other,
            )
    }

    /// What stands in the tables for `board`: nothing where a side may
    /// castle or no table for its material is loaded; a draw for two bare
    /// kings; else what the table stores, which is read with the colours
    /// exchanged where black is the stronger side, or to move with equal
    /// material.
    pub open spec fn wdl_of(self, board: Board) -> Option<Wdl> {
        if can_castle(board) || pieces_on(board) + 2 > 8 {
            None
        } else if pieces_on(board) == 0 {
            Some(Wdl::Draw)
        } else {
            match self.table_for(
                if color_flip(board) {
                    material_on(board).flipped()
                } else {
                    material_on(board)
                },
            ) {
                None => None,
                Some(table) => table.value_of(board, color_flip(board)),
            }
        }
    }

    /// The value of `board` where only captures are searched, between the
    /// bounds `alpha` and `beta`: what stands in the tables, or the best that
    /// a capture leads to, if that is more.
    pub open spec fn alpha_beta(self, board: Board, alpha: Wdl, beta: Wdl) -> Option<Wdl>
        decreases pieces_on(board), 1int, 0int,
    {
        match self.wdl_of(board) {
            None => None,
            Some(v) => if v.rank() > alpha.rank() {
                if v.rank() >= beta.rank() {
                    Some(v)
                } else {
                    self.alpha_beta_moves(board, captures_of(board, false), 0, v, beta)
                }
            } else {
                self.alpha_beta_moves(board, captures_of(board, false), 0, alpha, beta)
            },
        }
    }

    /// The value of `board` between the bounds `alpha` and `beta` after the
    /// captures from number `i` on have been searched. A capture leaves
    /// fewer men on the board, which is why the search ends; where the
    /// position after a capture does not have fewer men, there is no value.
    pub open spec fn alpha_beta_moves(
        self,
        board: Board,
        captures: Seq<Capture>,
        i: int,
        alpha: Wdl,
        beta: Wdl,
    ) -> Option<Wdl>
        decreases pieces_on(board), 0int, (if i < captures.len() {
            captures.len() - i
        } else {
            0int
        }),
    {
        if i < 0 || i >= captures.len() {
            Some(alpha)
        } else if pieces_on(board_after(board, captures[i].mv)) >= pieces_on(board) {
            None
        } else {
            match self.alpha_beta(board_after(board, captures[i].mv), beta.flipped(), alpha.flipped()) {
                None => None,
                Some(w) => if w.flipped().rank() > alpha.rank() {
                    if w.flipped().rank() >= beta.rank() {
                        Some(w.flipped())
                    } else {
                        self.alpha_beta_moves(board, captures, i + 1, w.flipped(), beta)
                    }
                } else {
                    self.alpha_beta_moves(board, captures, i + 1, alpha, beta)
                },
            }
        }
    }

    /// The best value so far, whether the move that gave it wins by a
    /// capture, and whether it takes en passant, after the captures from
    /// number `i` on have been searched. A capture that wins ends the search.
    /// Where the position after a capture does not have fewer men than the
    /// position before it, there is no value.
    pub open spec fn probe_moves(
        self,
        board: Board,
        captures: Seq<Capture>,
        i: int,
        alpha: Wdl,
        best_is_capture: bool,
        best_is_ep: bool,
    ) -> Option<(Wdl, bool, bool)>
        decreases (if i < captures.len() {
            captures.len() - i
        } else {
            0int
        }),
    {
        if i < 0 || i >= captures.len() {
            Some((alpha, best_is_capture, best_is_ep))
        } else if pieces_on(board_after(board, captures[i].mv)) >= pieces_on(board) {
            None
        } else {
            match self.alpha_beta(board_after(board, captures[i].mv), Wdl::Loss, alpha.flipped()) {
                None => None,
                Some(w) => if w.flipped().rank() > alpha.rank() {
                    if w.flipped() == Wdl::Win {
                        Some((Wdl::Win, true, captures[i].en_passant))
                    } else {
                        self.probe_moves(
                            board,
                            captures,
                            i + 1,
                            w.flipped(),
                            w.flipped().rank() > Wdl::Draw.rank(),
                            captures[i].en_passant,
                        )
                    }
                } else {
                    self.probe_moves(board, captures, i + 1, alpha, best_is_capture, best_is_ep)
                },
            }
        }
    }

    /// The value of `board` and whether the best move is a capture. The
    /// tables give a lower bound, unless the only legal moves take en
    /// passant: then the value is that of the best of them.
    pub open spec fn probe(self, board: Board) -> Option<(Wdl, bool)> {
        match self.wdl_of(board) {
            None => None,
            Some(v) => match self.probe_moves(
                board,
                captures_of(board, true),
                0,
                if false_stalemate(board) {
                    Wdl::Loss
                } else {
                    Wdl::Draw.spec_min(v)
                },
                false,
                false,
            ) {
                None => None,
                Some((alpha, best_is_capture, best_is_ep)) => if !false_stalemate(board)
                    && v.rank() > alpha.rank() {
                    Some((v, false))
                } else {
                    Some((alpha, best_is_capture || best_is_ep || false_stalemate(board)))
                },
            },
        }
    }

    /// A tablebase without tables.
    pub fn new() -> (r: Tablebase)
        ensures
            r.largest() == 2,
            forall|m: Material| r.table_for(m) is None,
    {
        Tablebase { max_pieces: 2, wdl: HashMap::new() }
    }

    /// Whether a table is loaded for the material that `material` names.
    pub fn is_loaded(&self, material: &str) -> (r: Result<bool, SyzygyError>)
        ensures
            r is Ok <==> names_material(material@),
            r matches Ok(loaded) ==> loaded == (self.table_for(named_material(material@)) is Some),
            r matches Err(e) ==> e is UnknownMaterial,
    {
        match Material::parse(material) {
            Ok(m) => {
                let key: u64 = m.key();
                Ok(self.wdl.contains_key(&key))
            },
            Err(_) => Err(SyzygyError::UnknownMaterial),
        }
    }

    /// Loads the table for the material that `material` names from the
    /// bytes of its file, unless one is loaded for it already.
    pub fn load_bytes(&mut self, material: &str, bytes: &[u8]) -> (r: Result<(), SyzygyError>)
        ensures
            r is Ok <==> names_material(material@) && (old(self).table_for(
                named_material(material@),
            ) is Some || file_layout(bytes@, named_material(material@)) is Some),
            r is Ok ==> if old(self).table_for(named_material(material@)) is Some {
                final(self).same_tables(*old(self))
            } else {
                final(self).with_table(
                    *old(self),
                    named_material(material@),
                    file_layout(bytes@, named_material(material@))->0,
                )
            },
            r matches Err(e) ==> final(self).same_tables(*old(self)),
            r matches Err(e) ==> (e is UnknownMaterial <==> !names_material(material@)),
            r matches Err(e) ==> (e is NotSyzygy <==> names_material(material@)),
    {
        let m: Material = match Material::parse(material) {
            Ok(m) => m,
            Err(_) => {
                return Err(SyzygyError::UnknownMaterial);
            },
        };
        let key: u64 = m.key();
        if self.wdl.contains_key(&key) {
            return Ok(());
        }
        let table: WdlTable = match WdlTable::load(bytes, m) {
            Ok(table) => table,
            Err(_) => {
                return Err(SyzygyError::NotSyzygy);
            },
        };
        let _ = self.wdl.insert(key, table);
        let count: u32 = m.count() as u32;
        if count > self.max_pieces {
            self.max_pieces = count;
        }
        proof {
            assert forall|other: Material| other.wf() && other != m implies #[trigger] self.table_for(
                other,
            ) == old(self).table_for(other) by {
                if other.key_of() == m.key_of() {
                    lemma_key_injective(other, m);
                }
            }
        }
        Ok(())
    }

    /// Load a Syzygy tablebase file from static memory.
    ///
    /// The material string must be in the standard `K#vK#` format, where `#` is any number of
    /// piece characters.
    pub fn load_bytes_static(&mut self, material: &str, bytes: &'static [u8]) -> (r: Result<
        (),
        SyzygyError,
    >)
        ensures
            r is Ok <==> names_material(material@) && (old(self).table_for(
                named_material(material@),
            ) is Some || file_layout(bytes@, named_material(material@)) is Some),
            r is Ok ==> if old(self).table_for(named_material(material@)) is Some {
                final(self).same_tables(*old(self))
            } else {
                final(self).with_table(
                    *old(self),
                    named_material(material@),
                    file_layout(bytes@, named_material(material@))->0,
                )
            },
            r matches Err(e) ==> final(self).same_tables(*old(self)),
            r matches Err(e) ==> (e is UnknownMaterial <==> !names_material(material@)),
            r matches Err(e) ==> (e is NotSyzygy <==> names_material(material@)),
    {
        self.load_bytes(material, bytes)
    }

    /// Load a Syzygy tablebase file from owned memory.
    ///
    /// The material string must be in the standard `K#vK#` format, where `#` is any number of
    /// piece characters.
    pub fn load_bytes_owned(&mut self, material: &str, bytes: Box<[u8]>) -> (r: Result<
        (),
        SyzygyError,
    >)
        ensures
            r is Ok <==> names_material(material@) && (old(self).table_for(
                named_material(material@),
            ) is Some || file_layout(bytes@, named_material(material@)) is Some),
            r is Ok ==> if old(self).table_for(named_material(material@)) is Some {
                final(self).same_tables(*old(self))
            } else {
                final(self).with_table(
                    *old(self),
                    named_material(material@),
                    file_layout(bytes@, named_material(material@))->0,
                )
            },
            r matches Err(e) ==> final(self).same_tables(*old(self)),
            r matches Err(e) ==> (e is UnknownMaterial <==> !names_material(material@)),
            r matches Err(e) ==> (e is NotSyzygy <==> names_material(material@)),
    {
        self.load_bytes(material, &*bytes)
    }

    /// Returns the number of pieces in the largest Syzygy tablebase file that has been loaded.
    pub fn max_pieces(&self) -> (r: u32)
        ensures
            r == self.largest(),
    {
        self.max_pieces
    }

    /// What stands in the tables for `position`.
    pub fn read_wdl(&self, position: &Board) -> (r: Option<Wdl>)
        ensures
            r == self.wdl_of(*position),
    {
        // Tablebases do not include positions with castle rights
        if has_castle_rights(position) {
            return None;
        }
        let material: Material = match material_of(position) {
            Some(material) => material,
            None => {
                return None;
            },
        };
        if material.count() == 2 {
            // KvK
            return Some(Wdl::Draw);
        }
        let flip: bool = !material.is_canonical() || (material.is_symmetric() && to_move(
            position,
        ).is_black());
        let material: Material = if flip {
            material.flip()
        } else {
            material
        };
        proof {
            crate::material::lemma_flip_involution(material_on(*position));
        }
        let key: u64 = material.key();
        match self.wdl.get(&key) {
            Some(table) => table.read(position, flip),
            None => None,
        }
    }

    /// Find the WDL value of the specified position, and whether the best move is a capture or
    /// en passant capture.
    ///
    /// Note that due to the way Syzygy tablebases work, the Syzygy tablebase files for subsets
    /// of the material in the specified position may also need to be loaded in order for this
    /// function to return a result.
    pub fn probe_wdl(&self, position: &Board) -> (r: Option<(Wdl, bool)>)
        ensures
            r == self.probe(*position),
    {
        let v: Wdl = match self.read_wdl(position) {
            Some(v) => v,
            None => {
                return None;
            },
        };
        // We need to search the capture moves (See Self::probe_alpha_beta).
        // We also need to know if the position without EP is stalemate, since in that case we
        // need to take the WDL of the best EP capture and completely ignore the TB WDL (draw).
        let (captures, num_moves_without_ep) = capture_moves(position, true);
        // The TB provides a lower bound on the WDL unless the position is stalemate without
        // en passant, in which case the lower bound is a loss. Additionally, since we need to know
        // if the best move is a capture when it is better than a draw, it is simpler to initialize
        // alpha to draw even if the tablebase WDL is better than a draw.
        let false_stalemate: bool = num_moves_without_ep == 0 && captures.len() > 0;
        let start: Wdl = if false_stalemate {
            Wdl::Loss
        } else if v.better_than(Wdl::Draw) {
            Wdl::Draw
        } else {
            v
        };
        let (alpha, best_is_capture, best_is_ep) = match self.search_best(
            position,
            &captures,
            start,
        ) {
            Some(found) => found,
            None => {
                return None;
            },
        };
        if !false_stalemate && v.better_than(alpha) {
            Some((v, false))
        } else {
            Some((alpha, best_is_capture || best_is_ep || false_stalemate))
        }
    }

    /// The best value that the captures lead to, `alpha` at the least,
    /// whether the move that gave it wins by a capture, and whether it takes
    /// en passant.
    fn search_best(&self, position: &Board, captures: &Vec<Capture>, alpha: Wdl) -> (r: Option<
        (Wdl, bool, bool),
    >)
        requires
            forall|k: int|
                0 <= k < captures@.len() ==> crate::board::legal_moves(*position).contains(
                    (#[trigger] captures@[k]).mv,
                ),
        ensures
            r == self.probe_moves(*position, captures@, 0, alpha, false, false),
    {
        let men: usize = men_on(position);
        let mut best: Wdl = alpha;
        let mut best_is_ep: bool = false;
        let mut best_is_capture: bool = false;
        let mut i: usize = 0;
        while i < captures.len()
            invariant
                i <= captures@.len(),
                men == pieces_on(*position),
                forall|k: int|
                    0 <= k < captures@.len() ==> crate::board::legal_moves(*position).contains(
                        (#[trigger] captures@[k]).mv,
                    ),
                self.probe_moves(*position, captures@, i as int, best, best_is_capture, best_is_ep)
                    == self.probe_moves(*position, captures@, 0, alpha, false, false),
            decreases captures@.len() - i,
        {
            let capture: Capture = captures[i];
            let new_pos: Board = play(position, capture.mv);
            if men_on(&new_pos) >= men {
                return None;
            }
            let w: Wdl = match self.probe_alpha_beta(&new_pos, Wdl::Loss, best.neg()) {
                Some(w) => w,
                None => {
                    return None;
                },
            };
            let value: Wdl = w.neg();
            if value.better_than(best) {
                if value.to_byte() == 4 {
                    return Some((Wdl::Win, true, capture.en_passant));
                }
                best_is_capture = value.better_than(Wdl::Draw);
                best_is_ep = capture.en_passant;
                best = value;
            }
            i += 1;
        }
        Some((best, best_is_capture, best_is_ep))
    }

    /// The value of `position` between the bounds `alpha` and `beta`, where
    /// only captures are searched.
    pub fn probe_alpha_beta(&self, position: &Board, alpha: Wdl, beta: Wdl) -> (r: Option<Wdl>)
        ensures
            r == self.alpha_beta(*position, alpha, beta),
        decreases pieces_on(*position), 1int,
    {
        // Read the WDL value of the position from the tablebase. This may be worse than the true
        // WDL of the position; if a position has a capture producing a position with the same WDL
        // as this position, then the tablebase can achieve better compression by storing a worse
        // WDL for this position instead.
        let v: Wdl = match self.read_wdl(position) {
            Some(v) => v,
            None => {
                return None;
            },
        };
        let mut alpha: Wdl = alpha;
        if v.better_than(alpha) {
            if !beta.better_than(v) {
                return Some(v);
            }
            alpha = v;
        }
        // To deal with the above complication, we iterate over capture moves recursively to
        // determine the capture-move WDL, and use that if it is greater than the stored WDL.
        let (captures, _) = capture_moves(position, false);
        self.search_captures(position, &captures, alpha, beta)
    }

    /// The value of `position` between the bounds `alpha` and `beta` after
    /// its captures have been searched.
    fn search_captures(&self, position: &Board, captures: &Vec<Capture>, alpha: Wdl, beta: Wdl) -> (r:
        Option<Wdl>)
        requires
            forall|k: int|
                0 <= k < captures@.len() ==> crate::board::legal_moves(*position).contains(
                    (#[trigger] captures@[k]).mv,
                ),
        ensures
            r == self.alpha_beta_moves(*position, captures@, 0, alpha, beta),
        decreases pieces_on(*position), 0int,
    {
        let men: usize = men_on(position);
        let mut best: Wdl = alpha;
        let mut i: usize = 0;
        while i < captures.len()
            invariant
                i <= captures@.len(),
                men == pieces_on(*position),
                forall|k: int|
                    0 <= k < captures@.len() ==> crate::board::legal_moves(*position).contains(
                        (#[trigger] captures@[k]).mv,
                    ),
                self.alpha_beta_moves(*position, captures@, i as int, best, beta)
                    == self.alpha_beta_moves(*position, captures@, 0, alpha, beta),
            decreases captures@.len() - i,
        {
            let ghost here = self.alpha_beta_moves(*position, captures@, i as int, best, beta);
            let new_pos: Board = play(position, captures[i].mv);
            if men_on(&new_pos) >= men {
                assert(here is None);
                return None;
            }
            let w: Wdl = match self.probe_alpha_beta(&new_pos, beta.neg(), best.neg()) {
                Some(w) => w,
                None => {
                    assert(here is None);
                    return None;
                },
            };
            let v: Wdl = w.neg();
            if v.better_than(best) {
                if !beta.better_than(v) {
                    assert(here == Some(v));
                    return Some(v);
                }
                assert(here == self.alpha_beta_moves(*position, captures@, i + 1, v, beta));
                best = v;
            } else {
                assert(here == self.alpha_beta_moves(*position, captures@, i + 1, best, beta));
            }
            i += 1;
        }
        Some(best)
    }
}

/// Whether the tables hold `board` with the colours exchanged: black is the
/// stronger side, or the material is the same on both sides and black is to
/// move.
pub open spec fn color_flip(board: Board) -> bool {
    !material_on(board).canonical() || (material_on(board).symmetric() && mover(board)
        == Color::Black)
}

/// Whether `board` would be stalemate but for captures en passant.
pub open spec fn false_stalemate(board: Board) -> bool {
    plain_moves(board) == 0 && captures_of(board, true).len() > 0
}

/// Two bare kings that cannot castle, in a position without captures, draw:
/// the probe says so whichever side is to move, and whatever tables are loaded.
pub proof fn lemma_bare_kings_draw(tb: Tablebase, board: Board)
    requires
        pieces_on(board) == 0,
        !can_castle(board),
        captures_of(board, true).len() == 0,
    ensures
        tb.wdl_of(board) == Some(Wdl::Draw),
        tb.probe(board) == Some((Wdl::Draw, false)),
{
}

/// Where the search of the captures from number `i` on ends with one of the
/// two marks set, it was set before or there is a capture from `i` on.
pub proof fn lemma_marks_need_capture(
    tb: Tablebase,
    board: Board,
    captures: Seq<Capture>,
    i: int,
    alpha: Wdl,
    best_is_capture: bool,
    best_is_ep: bool,
)
    requires
        0 <= i,
    ensures
        tb.probe_moves(board, captures, i, alpha, best_is_capture, best_is_ep) matches Some(found)
            ==> ((found.1 || found.2) ==> (best_is_capture || best_is_ep || i < captures.len())),
    decreases (if i < captures.len() {
        captures.len() - i
    } else {
        0int
    }),
{
    if i < captures.len() && pieces_on(board_after(board, captures[i].mv)) < pieces_on(board) {
        match tb.alpha_beta(board_after(board, captures[i].mv), Wdl::Loss, alpha.flipped()) {
            None => {},
            Some(w) => {
                if w.flipped().rank() > alpha.rank() {
                    if w.flipped() != Wdl::Win {
                        lemma_marks_need_capture(
                            tb,
                            board,
                            captures,
                            i + 1,
                            w.flipped(),
                            w.flipped().rank() > Wdl::Draw.rank(),
                            captures[i].en_passant,
                        );
                    }
                } else {
                    lemma_marks_need_capture(
                        tb,
                        board,
                        captures,
                        i + 1,
                        alpha,
                        best_is_capture,
                        best_is_ep,
                    );
                }
            },
        }
    }
}

/// Where the probe says that the best move is a capture, the position has a capture.
pub proof fn lemma_capture_exists(tb: Tablebase, board: Board)
    ensures
        tb.probe(board) matches Some(found) ==> (found.1 ==> captures_of(board, true).len() > 0),
{
    match tb.wdl_of(board) {
        None => {},
        Some(v) => {
            lemma_marks_need_capture(
                tb,
                board,
                captures_of(board, true),
                0,
                if false_stalemate(board) {
                    Wdl::Loss
                } else {
                    Wdl::Draw.spec_min(v)
                },
                false,
                false,
            );
        },
    }
}

/// Where the search of the captures from number `i` on ends with a loss,
/// each of them leads to a position that the other side wins.
pub proof fn lemma_loss_after_every_capture(
    tb: Tablebase,
    board: Board,
    captures: Seq<Capture>,
    i: int,
    alpha: Wdl,
    best_is_capture: bool,
    best_is_ep: bool,
)
    requires
        0 <= i,
        tb.probe_moves(board, captures, i, alpha, best_is_capture, best_is_ep) matches Some(found)
            && found.0 == Wdl::Loss,
    ensures
        alpha == Wdl::Loss,
        forall|j: int|
            i <= j < captures.len() ==> tb.alpha_beta(
                #[trigger] board_after(board, captures[j].mv),
                Wdl::Loss,
                Wdl::Win,
            ) == Some(Wdl::Win),
    decreases (if i < captures.len() {
        captures.len() - i
    } else {
        0int
    }),
{
    if i < captures.len() {
        let w = tb.alpha_beta(board_after(board, captures[i].mv), Wdl::Loss, alpha.flipped())->0;
        if w.flipped().rank() > alpha.rank() {
            lemma_loss_after_every_capture(
                tb,
                board,
                captures,
                i + 1,
                w.flipped(),
                w.flipped().rank() > Wdl::Draw.rank(),
                captures[i].en_passant,
            );
        } else {
            lemma_loss_after_every_capture(
                tb,
                board,
                captures,
                i + 1,
                alpha,
                best_is_capture,
                best_is_ep,
            );
        }
    }
}

/// Where the probe says that the position is lost, no capture improves on
/// that: each leads to a position that the other side wins.
pub proof fn lemma_loss_has_no_saving_capture(tb: Tablebase, board: Board)
    requires
        tb.probe(board) matches Some(found) && found.0 == Wdl::Loss,
    ensures
        forall|j: int|
            0 <= j < captures_of(board, true).len() ==> tb.alpha_beta(
                #[trigger] board_after(board, captures_of(board, true)[j].mv),
                Wdl::Loss,
                Wdl::Win,
            ) == Some(Wdl::Win),
{
    let v = tb.wdl_of(board)->0;
    let start = if false_stalemate(board) {
        Wdl::Loss
    } else {
        Wdl::Draw.spec_min(v)
    };
    lemma_loss_after_every_capture(tb, board, captures_of(board, true), 0, start, false, false);
}

/// Where the search of the captures from number `i` on ends with a win that
/// it did not begin with, one of them leads to a position that the other
/// side loses.
pub proof fn lemma_win_by_capture(
    tb: Tablebase,
    board: Board,
    captures: Seq<Capture>,
    i: int,
    alpha: Wdl,
    best_is_capture: bool,
    best_is_ep: bool,
)
    requires
        0 <= i,
        alpha != Wdl::Win,
        tb.probe_moves(board, captures, i, alpha, best_is_capture, best_is_ep) matches Some(found)
            && found.0 == Wdl::Win,
    ensures
        exists|j: int, bound: Wdl|
            i <= j < captures.len() && #[trigger] tb.alpha_beta(
                board_after(board, captures[j].mv),
                Wdl::Loss,
                bound,
            ) == Some(Wdl::Loss),
    decreases (if i < captures.len() {
        captures.len() - i
    } else {
        0int
    }),
{
    if i < captures.len() {
        let w = tb.alpha_beta(board_after(board, captures[i].mv), Wdl::Loss, alpha.flipped())->0;
        if w.flipped().rank() > alpha.rank() {
            if w.flipped() == Wdl::Win {
                assert(tb.alpha_beta(
                    board_after(board, captures[i].mv),
                    Wdl::Loss,
                    alpha.flipped(),
                ) == Some(Wdl::Loss));
            } else {
                lemma_win_by_capture(
                    tb,
                    board,
                    captures,
                    i + 1,
                    w.flipped(),
                    w.flipped().rank() > Wdl::Draw.rank(),
                    captures[i].en_passant,
                );
            }
        } else {
            lemma_win_by_capture(tb, board, captures, i + 1, alpha, best_is_capture, best_is_ep);
        }
    }
}

/// Where the probe says that the position is won by a capture, there is a
/// capture after which the tables and the search of the captures give the
/// other side a loss.
pub proof fn lemma_winning_capture_exists(tb: Tablebase, board: Board)
    requires
        tb.probe(board) == Some((Wdl::Win, true)),
    ensures
        exists|j: int, bound: Wdl|
            0 <= j < captures_of(board, true).len() && #[trigger] tb.alpha_beta(
                board_after(board, captures_of(board, true)[j].mv),
                Wdl::Loss,
                bound,
            ) == Some(Wdl::Loss),
{
    let v = tb.wdl_of(board)->0;
    let start = if false_stalemate(board) {
        Wdl::Loss
    } else {
        Wdl::Draw.spec_min(v)
    };
    lemma_win_by_capture(tb, board, captures_of(board, true), 0, start, false, false);
}

} // verus!
