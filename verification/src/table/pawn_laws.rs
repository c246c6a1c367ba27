//! Laws of the index of a position in a table with pawns: it is that of the
//! position's mirror image, it does not tell like pieces apart, and where one
//! pawn leads it stays below the size of the table.
use crate::constants::{BINOMIAL, FLAP, PAWN_FACTOR, PAWN_INDEX, PAWN_TWIST};
use crate::table::bounds::{
    choices, distinct, lemma_ascending, lemma_below_range, lemma_binomial_is_choices,
    lemma_choices_grow, lemma_flips_keep_apart, lemma_groups_index_weighs,
    lemma_placements_are_choices, lemma_group_bound, rising, weigh,
};
use crate::table::pawnful::{
    canonical_squares, factors_from, factors_of, index_of, lead_index, lemma_pawn_tables,
    pawn_sum, swapped, twist_inner, twisted,
};
use crate::table::symmetry::{
    exchanged, group_starts, lemma_group_start_behind, lemma_groups_index_exchanged,
    lemma_mirrored_twice,
};
use crate::table::{
    ascending, below, files_flipped, group_sum, groups_index, on_board, placements,
};
use vstd::prelude::*;

verus! {

/// Whether every square is one that a pawn can stand on.
pub open spec fn pawn_rows(sq: Seq<u8>) -> bool {
    forall|i: int| 0 <= i < sq.len() ==> 8 <= #[trigger] sq[i] < 56
}

/// No pawn stands below the second rank, and all stand below the eighth.
pub proof fn lemma_below_pawn_rows(s: Seq<u8>)
    requires
        pawn_rows(s),
    ensures
        below(s, 8) == 0,
        below(s, 56) == s.len(),
    decreases s.len(),
{
    if s.len() > 0 {
        assert(8 <= s[s.len() - 1] < 56);
        assert forall|i: int| 0 <= i < s.drop_last().len() implies 8 <= #[trigger] s.drop_last()[i]
            < 56 by {
            assert(s.drop_last()[i] == s[i]);
        }
        lemma_below_pawn_rows(s.drop_last());
    }
}

/// The place that is left for the pawn on the square `p` among the squares
/// that pawns can stand on, where the squares of `earlier` are taken.
pub open spec fn pawn_place(earlier: Seq<u8>, p: int) -> int {
    p - below(earlier, p) - 8
}

/// A free square that a pawn can stand on has a place among the 48 such
/// squares that are left, and a higher one has a higher place.
pub proof fn lemma_pawn_places(earlier: Seq<u8>, p: int, q: int)
    requires
        pawn_rows(earlier),
        distinct(earlier),
        8 <= p <= q < 56,
        !earlier.contains(p as u8),
        !earlier.contains(q as u8),
    ensures
        0 <= pawn_place(earlier, p) <= pawn_place(earlier, q) <= 47 - earlier.len(),
        p < q ==> pawn_place(earlier, p) < pawn_place(earlier, q),
{
    lemma_below_pawn_rows(earlier);
    lemma_below_range(earlier, 8, p);
    lemma_below_range(earlier, p, q);
    lemma_below_range(earlier, q, 56);
}

/// The first `m` pawns of a group on rising squares have a number, and it
/// is below the number of ways to choose `m` places up to that of the last.
pub proof fn lemma_pawn_group_sum_bound(earlier: Seq<u8>, group: Seq<u8>, m: int)
    requires
        pawn_rows(earlier),
        distinct(earlier),
        pawn_rows(group),
        rising(earlier, group),
        0 <= m <= group.len(),
        m <= 6,
    ensures
        group_sum(earlier, group, 8, m) is Some,
        m == 0 ==> group_sum(earlier, group, 8, m) == Some(0int),
        m > 0 ==> 0 <= group_sum(earlier, group, 8, m)->0 < choices(
            pawn_place(earlier, group[m - 1] as int) + 1,
            m,
        ),
    decreases m,
{
    if m > 0 {
        lemma_pawn_group_sum_bound(earlier, group, m - 1);
        let p = group[m - 1] as int;
        let here = pawn_place(earlier, p);
        lemma_pawn_places(earlier, p, p);
        lemma_binomial_is_choices(m - 1, here);
        lemma_choices_grow(here, here, m);
        assert(choices(here + 1, m) == choices(here, m) + choices(here, m - 1));
        let sum_before = group_sum(earlier, group, 8, m - 1)->0;
        assert(group_sum(earlier, group, 8, m) == Some(sum_before + BINOMIAL[m - 1][here]));
        if m > 1 {
            let before = group[m - 2] as int;
            lemma_pawn_places(earlier, before, p);
            lemma_choices_grow(pawn_place(earlier, before) + 1, here, m - 1);
        } else {
            assert(choices(here, 0) == 1);
        }
    }
}

/// A group of pawns on free squares that are apart has a number, and it is
/// below the number of ways to place the group on the squares that are left
/// of the 48 that pawns can stand on.
pub proof fn lemma_pawn_group_bound(earlier: Seq<u8>, squares: Seq<u8>)
    requires
        pawn_rows(earlier),
        distinct(earlier),
        pawn_rows(squares),
        distinct(squares),
        forall|m: int| 0 <= m < squares.len() ==> !earlier.contains(#[trigger] squares[m]),
        1 <= squares.len() <= 6,
    ensures
        group_sum(earlier, ascending(squares), 8, squares.len() as int) is Some,
        0 <= group_sum(earlier, ascending(squares), 8, squares.len() as int)->0 < choices(
            48 - earlier.len(),
            squares.len() as int,
        ),
{
    let group = ascending(squares);
    assert(on_board(squares));
    lemma_ascending(squares);
    assert forall|m: int| 0 <= m < group.len() implies !earlier.contains(#[trigger] group[m]) && 8
        <= group[m] < 56 by {
        assert(squares.contains(group[m]));
        let k = choose|k: int| 0 <= k < squares.len() && squares[k] == group[m];
        assert(!earlier.contains(squares[k]));
    }
    assert(rising(earlier, group));
    let t = squares.len() as int;
    lemma_pawn_group_sum_bound(earlier, group, t);
    lemma_pawn_places(earlier, group[t - 1] as int, group[t - 1] as int);
    lemma_choices_grow(pawn_place(earlier, group[t - 1] as int) + 1, 48 - earlier.len(), t);
}

/// Whether the factor at place `j` may still be set, at turn `k`: that of the
/// leading pawn while its turn is to come, and that of the other pawns while
/// theirs is.
pub open spec fn still_open(order: int, order2: int, k: int, j: int) -> bool {
    (j == 0 && k <= order) || (j == 1 && k <= order2 && order2 < 15)
}

/// How many turns the reckoning of the factors can still take.
pub open spec fn turns_left(len: int, order: int, order2: int, k: int, i: int) -> int {
    k + (if i < len {
        len - i
    } else {
        0int
    }) + (if k <= order {
        1int
    } else {
        0int
    }) + (if k <= order2 && order2 < 15 {
        1int
    } else {
        0int
    })
}

/// The factors that are set later leave those that were set alone.
pub proof fn lemma_pawn_factors_frame(
    norm: Seq<u8>,
    men: int,
    order: int,
    order2: int,
    file: int,
    k: int,
    i: int,
    f: int,
    factors: Seq<u64>,
    size: int,
    all: Seq<u64>,
)
    requires
        factors_from(norm, men, order, order2, file, k, i, f, factors) == Some((size, all)),
        factors.len() == 8,
        norm[0] == 1,
        1 <= i,
        0 <= k,
        turns_left(men, order, order2, k, i) <= 14,
    ensures
        all.len() == 8,
        forall|j: int|
            0 <= j < 8 && j < i && !still_open(order, order2, k, j) ==> all[j] == factors[j],
    decreases (if i < men {
        men - i
    } else {
        0int
    }) + (if k <= order {
        1int
    } else {
        0int
    }) + (if k <= order2 {
        1int
    } else {
        0int
    }),
{
    if k == order {
        lemma_pawn_factors_frame(
            norm,
            men,
            order,
            order2,
            file,
            k + 1,
            i,
            f * PAWN_FACTOR[norm[0] - 1][file],
            factors.update(0, f as u64),
            size,
            all,
        );
    } else if k == order2 {
        lemma_pawn_factors_frame(
            norm,
            men,
            order,
            order2,
            file,
            k + 1,
            i,
            f * placements(norm[norm[0] as int] as int, 48 - norm[0]),
            factors.update(norm[0] as int, f as u64),
            size,
            all,
        );
    } else if i < men {
        lemma_pawn_factors_frame(
            norm,
            men,
            order,
            order2,
            file,
            k + 1,
            i + norm[i],
            f * placements(norm[i] as int, 64 - i),
            factors.update(i, f as u64),
            size,
            all,
        );
    }
}

/// From any point of the reckoning of the factors on, what the groups that
/// are still to get their factor add to the index is less than what is left
/// of the size of the table.
pub proof fn lemma_pawn_digits_below_size(
    sq: Seq<u8>,
    norm: Seq<u8>,
    order: int,
    order2: int,
    file: int,
    other: int,
    lead_digit: int,
    other_digit: int,
    k: int,
    i: int,
    f: int,
    factors: Seq<u64>,
    size: int,
    all: Seq<u64>,
)
    requires
        factors_from(norm, sq.len() as int, order, order2, file, k, i, f, factors) == Some(
            (size, all),
        ),
        factors.len() == 8,
        norm.len() == 8,
        sq.len() <= 8,
        on_board(sq),
        distinct(sq),
        norm[0] == 1,
        0 <= file < 4,
        0 <= other,
        (other > 0) == (order2 < 15),
        other > 0 ==> norm[1] == other && i >= 2,
        1 <= i,
        0 <= k,
        turns_left(sq.len() as int, order, order2, k, i) <= 14,
        1 <= f,
        0 <= lead_digit < PAWN_FACTOR[0][file],
        other > 0 ==> 0 <= other_digit < placements(other, 47),
        other == 0 ==> other_digit == 0,
        k <= order ==> factors[0] == 0,
        other > 0 && k <= order2 ==> factors[1] == 0,
        weigh(sq, norm, all, i) is Some,
    ensures
        0 <= weigh(sq, norm, all, i)->0,
        weigh(sq, norm, all, i)->0 + (if k <= order {
            lead_digit * all[0]
        } else {
            0
        }) + (if other > 0 && k <= order2 {
            other_digit * all[1]
        } else {
            0
        }) <= size - f,
    decreases (if i < sq.len() {
        sq.len() - i
    } else {
        0int
    }) + (if k <= order {
        1int
    } else {
        0int
    }) + (if k <= order2 {
        1int
    } else {
        0int
    }),
{
    let men = sq.len() as int;
    if k == order {
        let radix = PAWN_FACTOR[0][file] as int;
        let next = factors.update(0, f as u64);
        lemma_pawn_factors_frame(norm, men, order, order2, file, k + 1, i, f * radix, next, size, all);
        assert(all[0] == f);
        if other > 0 && k == order2 {
            assert(all[1] == next[1]);
        }
        assert(f * radix >= 1 && lead_digit * f <= (radix - 1) * f && (radix - 1) * f == f * radix
            - f) by (nonlinear_arith)
            requires
                1 <= f,
                0 <= lead_digit < radix,
        ;
        assert(other_digit * 0 == 0);
        lemma_pawn_digits_below_size(
            sq,
            norm,
            order,
            order2,
            file,
            other,
            lead_digit,
            other_digit,
            k + 1,
            i,
            f * radix,
            next,
            size,
            all,
        );
    } else if k == order2 {
        let radix = placements(other, 47);
        let next = factors.update(1, f as u64);
        lemma_pawn_factors_frame(norm, men, order, order2, file, k + 1, i, f * radix, next, size, all);
        assert(all[1] == f);
        assert(f * radix >= 1 && other_digit * f <= (radix - 1) * f && (radix - 1) * f == f * radix
            - f) by (nonlinear_arith)
            requires
                1 <= f,
                0 <= other_digit < radix,
        ;
        lemma_pawn_digits_below_size(
            sq,
            norm,
            order,
            order2,
            file,
            other,
            lead_digit,
            other_digit,
            k + 1,
            i,
            f * radix,
            next,
            size,
            all,
        );
    } else if i < men {
        let t = norm[i] as int;
        let radix = placements(t, 64 - i);
        let next = factors.update(i, f as u64);
        let earlier = sq.subrange(0, i);
        let group = sq.subrange(i, i + t);
        let s = group_sum(earlier, ascending(group), 0, t)->0;
        assert(t <= 6);
        assert(on_board(earlier) && distinct(earlier) && on_board(group) && distinct(group));
        assert forall|m: int| 0 <= m < group.len() implies !earlier.contains(
            #[trigger] group[m],
        ) by {
            if earlier.contains(group[m]) {
                let l = choose|l: int| 0 <= l < earlier.len() && earlier[l] == group[m];
                assert(sq[l] == sq[i + m]);
            }
        }
        lemma_group_bound(earlier, group);
        lemma_placements_are_choices(t, 64 - i);
        lemma_pawn_factors_frame(
            norm,
            men,
            order,
            order2,
            file,
            k + 1,
            i + t,
            f * radix,
            next,
            size,
            all,
        );
        assert(all[i] == f);
        assert(f * radix >= 1 && s * f <= (radix - 1) * f && (radix - 1) * f == f * radix - f && 0
            <= s * f) by (nonlinear_arith)
            requires
                1 <= f,
                0 <= s < radix,
        ;
        lemma_pawn_digits_below_size(
            sq,
            norm,
            order,
            order2,
            file,
            other,
            lead_digit,
            other_digit,
            k + 1,
            i + t,
            f * radix,
            next,
            size,
            all,
        );
    } else {
        assert(lead_digit * 0 == 0);
        assert(other_digit * 0 == 0);
    }
}

/// The squares with their files mirrored lie on the ranks they lay on.
pub proof fn lemma_files_flipped_rows(sq: Seq<u8>, n: int)
    requires
        on_board(sq),
        0 <= n <= sq.len(),
        pawn_rows(sq.subrange(0, n)),
    ensures
        pawn_rows(files_flipped(sq).subrange(0, n)),
{
    assert forall|i: int| 0 <= i < n implies 8 <= #[trigger] files_flipped(sq).subrange(0, n)[i]
        < 56 by {
        let s = sq[i];
        assert(sq.subrange(0, n)[i] == s);
    }
}

/// The index of a position in a table with pawns, one of which leads, is
/// below the size of the table. `other` is the number of the other side's
/// pawns, which the table gives a turn of their own where there are any.
/// With more leading pawns the index can reach the size: two pawns on a7
/// and a2 with the kings on h8 and g8 have the index 953064 in a table of
/// that size.
pub proof fn lemma_pawn_index_below_size(
    norm: Seq<u8>,
    order: int,
    order2: int,
    file: int,
    other: int,
    squares: Seq<u8>,
)
    requires
        norm.len() == 8,
        norm[0] == 1,
        0 <= other,
        (other > 0) == (order2 < 15),
        other > 0 ==> norm[1] == other,
        1 + other <= squares.len() <= 8,
        on_board(squares),
        distinct(squares),
        pawn_rows(squares.subrange(0, 1 + other)),
        0 <= order,
        0 <= order2,
        0 <= file < 4,
        factors_of(norm, squares.len() as int, order, order2, file) is Some,
    ensures
        ({
            let table = factors_of(norm, squares.len() as int, order, order2, file).unwrap();
            index_of(norm, table.1, 1, other, squares) matches Some(index) ==> 0 <= index < table.0
        }),
{
    let men = squares.len() as int;
    let table = factors_of(norm, men, order, order2, file).unwrap();
    let size = table.0;
    let all = table.1;
    if index_of(norm, all, 1, other, squares) is Some {
        let flipped = if squares[0] % 8 > 3 {
            files_flipped(squares)
        } else {
            squares
        };
        lemma_flips_keep_apart(squares);
        lemma_files_flipped_rows(squares, 1 + other);
        let c = canonical_squares(squares, 1, other);
        assert(c == flipped);
        let first = c[0] as int;
        lemma_pawn_tables(first);
        let flap = FLAP[first] as int;
        let lead_digit = lead_index(c, 1);
        assert(pawn_sum(c, 0, 0) == 0);
        assert(lead_digit == PAWN_INDEX[0][flap]);
        assert(0 <= PAWN_INDEX[0][flap] < 6);
        assert(PAWN_FACTOR[0][file] == 6);
        let start = 1 + other;
        let zeros = Seq::new(8, |i: int| 0u64);
        let acc = lead_digit * all[0];
        let other_digit = if other > 0 {
            group_sum(c.subrange(0, 1), ascending(c.subrange(1, start)), 8, other)->0
        } else {
            0
        };
        let rest = if other > 0 {
            acc + other_digit * all[1]
        } else {
            acc
        };
        if other > 0 {
            let earlier = c.subrange(0, 1);
            let group = c.subrange(1, start);
            assert forall|i: int| 0 <= i < earlier.len() implies 8 <= #[trigger] earlier[i]
                < 56 by {
                assert(c.subrange(0, start)[i] == earlier[i]);
            }
            assert forall|i: int| 0 <= i < group.len() implies 8 <= #[trigger] group[i] < 56 by {
                assert(c.subrange(0, start)[i + 1] == group[i]);
            }
            assert(distinct(earlier));
            assert(distinct(group));
            assert forall|m: int| 0 <= m < group.len() implies !earlier.contains(
                #[trigger] group[m],
            ) by {
                if earlier.contains(group[m]) {
                    let l = choose|l: int| 0 <= l < earlier.len() && earlier[l] == group[m];
                    assert(c[l] == c[1 + m]);
                }
            }
            assert(other <= 6);
            lemma_pawn_group_bound(earlier, group);
            lemma_placements_are_choices(other, 47);
        }
        assert(groups_index(c, norm, all, start, rest) == index_of(norm, all, 1, other, squares));
        lemma_groups_index_weighs(c, norm, all, start, rest);
        lemma_pawn_digits_below_size(
            c,
            norm,
            order,
            order2,
            file,
            other,
            lead_digit,
            other_digit,
            0,
            start,
            1,
            zeros,
            size,
            all,
        );
    }
}

/// A position and its mirror image in the line between the d- and the
/// e-file have the same index.
pub proof fn lemma_pawn_index_mirrored(
    norm: Seq<u8>,
    factors: Seq<u64>,
    lead: int,
    other: int,
    squares: Seq<u8>,
)
    requires
        on_board(squares),
        squares.len() >= 1,
    ensures
        index_of(norm, factors, lead, other, files_flipped(squares)) == index_of(
            norm,
            factors,
            lead,
            other,
            squares,
        ),
{
    lemma_mirrored_twice(squares);
    assert(squares[0] < 64);
    assert(files_flipped(squares)[0] % 8 == 7 - squares[0] % 8);
    assert(canonical_squares(files_flipped(squares), lead, other) == canonical_squares(
        squares,
        lead,
        other,
    ));
}

/// To compare a pawn with those behind it and to exchange two squares
/// behind all that are compared can be done in either order.
pub proof fn lemma_twist_inner_exchanged(
    s: Seq<u8>,
    i: int,
    m: int,
    limit: int,
    j: int,
    k: int,
)
    requires
        0 <= i < j,
        0 <= i < k,
        limit <= j < s.len(),
        limit <= k < s.len(),
    ensures
        twist_inner(exchanged(s, j, k), i, m, limit) == exchanged(
            twist_inner(s, i, m, limit),
            j,
            k,
        ),
        twist_inner(s, i, m, limit).len() == s.len(),
    decreases (if m < limit {
        limit - m
    } else {
        0int
    }),
{
    if 0 <= m < limit {
        let other = exchanged(s, j, k);
        if PAWN_TWIST[s[i] as int] < PAWN_TWIST[s[m] as int] {
            assert(swapped(other, i, m) =~= exchanged(swapped(s, i, m), j, k));
            lemma_twist_inner_exchanged(swapped(s, i, m), i, m + 1, limit, j, k);
        } else {
            lemma_twist_inner_exchanged(s, i, m + 1, limit, j, k);
        }
    }
}

/// To put the leading pawns in their order and to exchange two squares
/// behind all the pawns can be done in either order.
pub proof fn lemma_twisted_exchanged(s: Seq<u8>, i: int, lead: int, limit: int, j: int, k: int)
    requires
        lead <= j < s.len(),
        lead <= k < s.len(),
        limit <= j,
        limit <= k,
    ensures
        twisted(exchanged(s, j, k), i, lead, limit) == exchanged(twisted(s, i, lead, limit), j, k),
        twisted(s, i, lead, limit).len() == s.len(),
    decreases (if i < lead {
        lead - i
    } else {
        0int
    }),
{
    if 0 <= i < lead {
        lemma_twist_inner_exchanged(s, i, i + 1, limit, j, k);
        lemma_twisted_exchanged(twist_inner(s, i, i + 1, limit), i + 1, lead, limit, j, k);
    }
}

/// What the leading pawns add to the index depends on their squares only.
pub proof fn lemma_pawn_sum_of_leading(a: Seq<u8>, b: Seq<u8>, t: int, i: int)
    requires
        forall|l: int| 0 <= l < i ==> a[l] == b[l],
    ensures
        pawn_sum(a, t, i) == pawn_sum(b, t, i),
    decreases i,
{
    if i > 0 {
        lemma_pawn_sum_of_leading(a, b, t, i - 1);
    }
}

/// The index of a position does not depend on which of two like pieces
/// stands on which square: where two pieces of one group behind the pawns
/// exchange their squares, the index stays the same.
pub proof fn lemma_pawn_index_exchanged(
    norm: Seq<u8>,
    factors: Seq<u64>,
    lead: int,
    other: int,
    sq: Seq<u8>,
    g: int,
    j: int,
    k: int,
)
    requires
        on_board(sq),
        1 <= lead,
        0 <= other,
        lead + other <= sq.len(),
        group_starts(norm, sq.len() as int, lead + other, g),
        g <= j < g + norm[g],
        g <= k < g + norm[g],
        j < sq.len(),
        k < sq.len(),
    ensures
        index_of(norm, factors, lead, other, exchanged(sq, j, k)) == index_of(
            norm,
            factors,
            lead,
            other,
            sq,
        ),
{
    lemma_group_start_behind(norm, sq.len() as int, lead + other, g);
    let moved = exchanged(sq, j, k);
    assert(files_flipped(moved) =~= exchanged(files_flipped(sq), j, k));
    let a = if sq[0] % 8 > 3 {
        files_flipped(sq)
    } else {
        sq
    };
    lemma_twisted_exchanged(a, 1, lead, other, j, k);
    let c = canonical_squares(sq, lead, other);
    let c2 = exchanged(c, j, k);
    assert(canonical_squares(moved, lead, other) == c2);
    lemma_pawn_sum_of_leading(c2, c, lead - 1, lead - 1);
    assert(lead_index(c2, lead) == lead_index(c, lead));
    let acc = lead_index(c, lead) * factors[0];
    assert(c2.subrange(0, lead) =~= c.subrange(0, lead));
    assert(c2.subrange(lead, lead + other) =~= c.subrange(lead, lead + other));
    if acc <= u64::MAX {
        if other > 0 {
            match group_sum(
                c.subrange(0, lead),
                ascending(c.subrange(lead, lead + other)),
                8,
                other,
            ) {
                None => {},
                Some(s) => {
                    lemma_groups_index_exchanged(
                        c,
                        norm,
                        factors,
                        lead + other,
                        acc + s * factors[lead],
                        g,
                        j,
                        k,
                    );
                },
            }
        } else {
            lemma_groups_index_exchanged(c, norm, factors, lead, acc, g, j, k);
        }
    }
}

} // verus!
