//! The index of a position is a number in a mixed radix: each group of like
//! pieces is a digit, and the factor of a group is the product of the radices
//! of the groups before it. Here it is shown that the digits stay below
//! their radices, so that the index stays below the size of the table.
use crate::constants::{
    lemma_binomial_rule, lemma_kk_index_range, BINOMIAL, DIAGONAL, FLIP_DIAGONAL, LOWER,
    OFF_DIAGONAL, PAWN_FACTOR, TRIANGLE,
};
use crate::table::pawnful;
use crate::table::pawnless::{
    canonical_squares, diagonal_flipped, diagonal_side, factors_from, factors_of, index_of,
    lead_index, numbers_of, three_index, EncodingType,
};
use crate::table::{
    ascending, below, factorial, falling, files_flipped, group_sum, groups_index, on_board,
    placements, ranks_flipped,
};
use vstd::prelude::*;
use vstd::relations::total_ordering;

verus! {

/// No square is taken twice.
pub open spec fn distinct(sq: Seq<u8>) -> bool {
    forall|i: int, j: int| 0 <= i < j < sq.len() ==> sq[i] != sq[j]
}

/// What the tables say of a square: which squares lie on the long diagonal,
/// how they are numbered there, and that the squares of the triangle below
/// it, on the files a to d and the ranks 1 to 4, have the numbers 0 to 5.
pub proof fn lemma_square_numbers(sq: int)
    requires
        0 <= sq < 64,
    ensures
        OFF_DIAGONAL[sq] == 0 <==> sq % 8 == sq / 8,
        OFF_DIAGONAL[sq] < 0 <==> sq / 8 < sq % 8,
        OFF_DIAGONAL[sq] == 0 ==> DIAGONAL[sq] == sq % 8,
        OFF_DIAGONAL[sq] != 0 ==> LOWER[sq] <= 27,
        sq % 8 <= 3 && sq / 8 < sq % 8 ==> TRIANGLE[sq] <= 5,
        sq % 8 <= 3 && sq / 8 <= 3 ==> TRIANGLE[sq] <= 9,
        FLIP_DIAGONAL[sq] == 8 * (sq % 8) + sq / 8,
        OFF_DIAGONAL[8 * (sq % 8) + sq / 8] == -OFF_DIAGONAL[sq],
{
}

/// Mirroring keeps the squares on the board and apart.
pub proof fn lemma_flips_keep_apart(sq: Seq<u8>)
    requires
        on_board(sq),
        distinct(sq),
    ensures
        on_board(files_flipped(sq)) && distinct(files_flipped(sq)),
        on_board(ranks_flipped(sq)) && distinct(ranks_flipped(sq)),
        on_board(diagonal_flipped(sq)) && distinct(diagonal_flipped(sq)),
        files_flipped(sq).len() == sq.len(),
        ranks_flipped(sq).len() == sq.len(),
        diagonal_flipped(sq).len() == sq.len(),
{
    assert forall|i: int| 0 <= i < sq.len() implies diagonal_flipped(sq)[i] == 8 * (sq[i] % 8)
        + sq[i] / 8 by {
        lemma_square_numbers(sq[i] as int);
    }
    assert forall|i: int, j: int| 0 <= i < j < sq.len() implies diagonal_flipped(sq)[i]
        != diagonal_flipped(sq)[j] by {
        assert(sq[i] != sq[j]);
    }
    assert forall|i: int, j: int| 0 <= i < j < sq.len() implies files_flipped(sq)[i]
        != files_flipped(sq)[j] by {
        assert(sq[i] != sq[j]);
    }
    assert forall|i: int, j: int| 0 <= i < j < sq.len() implies ranks_flipped(sq)[i]
        != ranks_flipped(sq)[j] by {
        assert(sq[i] != sq[j]);
    }
}

/// Mirroring in the long diagonal changes the side of it on which the
/// leading squares lie.
pub proof fn lemma_diagonal_side_flips(sq: Seq<u8>, to_check: int, i: int)
    requires
        on_board(sq),
        0 <= i,
    ensures
        diagonal_side(diagonal_flipped(sq), to_check, i) == -diagonal_side(sq, to_check, i),
    decreases (if i < to_check {
        to_check - i
    } else {
        0int
    }),
{
    if i < to_check && i < sq.len() {
        lemma_square_numbers(sq[i] as int);
        lemma_diagonal_side_flips(sq, to_check, i + 1);
    }
}

/// The squares as the table counts them are on the board and apart, the
/// first of them lies on the files a to d and the ranks 1 to 4, and the first
/// of the leading squares that is off the long diagonal lies below it.
pub proof fn lemma_canonical_squares(enc: EncodingType, sq: Seq<u8>)
    requires
        on_board(sq),
        distinct(sq),
        sq.len() >= 1,
    ensures
        canonical_squares(enc, sq).len() == sq.len(),
        on_board(canonical_squares(enc, sq)),
        distinct(canonical_squares(enc, sq)),
        canonical_squares(enc, sq)[0] % 8 <= 3,
        canonical_squares(enc, sq)[0] / 8 <= 3,
        diagonal_side(canonical_squares(enc, sq), enc.lead(), 0) <= 0,
{
    lemma_flips_keep_apart(sq);
    let a = if sq[0] % 8 > 3 {
        files_flipped(sq)
    } else {
        sq
    };
    lemma_flips_keep_apart(a);
    let b = if a[0] / 8 > 3 {
        ranks_flipped(a)
    } else {
        a
    };
    lemma_flips_keep_apart(b);
    lemma_diagonal_side_flips(b, enc.lead(), 0);
    lemma_square_numbers(b[0] as int);
}

/// The placements of three leading pieces have the numbers below 31332.
pub proof fn lemma_three_index_bound(a: int, b: int, c: int)
    requires
        0 <= a < 64 && 0 <= b < 64 && 0 <= c < 64,
        a != b && a != c && b != c,
        a % 8 <= 3,
        a / 8 <= 3,
        OFF_DIAGONAL[a] <= 0,
    ensures
        three_index(a, b, c, numbers_of(a), numbers_of(b), numbers_of(c)) matches Some(index)
            ==> 0 <= index < 31332,
{
    lemma_square_numbers(a);
    lemma_square_numbers(b);
    lemma_square_numbers(c);
}

/// The placement of the leading pieces has a number below the number of
/// such placements.
pub proof fn lemma_lead_index_bound(enc: EncodingType, sq: Seq<u8>)
    requires
        on_board(sq),
        distinct(sq),
        sq.len() >= enc.lead(),
    ensures
        lead_index(enc, canonical_squares(enc, sq)) matches Some(index) ==> 0 <= index
            < enc.pivot_factor(),
{
    lemma_canonical_squares(enc, sq);
    let c = canonical_squares(enc, sq);
    lemma_square_numbers(c[0] as int);
    match enc {
        EncodingType::Zero => {
            assert(c[0] != c[1] && c[0] != c[2] && c[1] != c[2]);
            assert(diagonal_side(c, 3, 0) <= 0);
            lemma_three_index_bound(c[0] as int, c[1] as int, c[2] as int);
        },
        EncodingType::Two => {
            if TRIANGLE[c[0] as int] < 10 {
                lemma_kk_index_range(TRIANGLE[c[0] as int] as int, c[1] as int);
            }
        },
    }
}

/// The number of ways to choose `k` of `n` things.
pub open spec fn choices(n: int, k: int) -> int
    decreases n,
{
    if k <= 0 {
        1
    } else if n <= 0 {
        0
    } else {
        choices(n - 1, k) + choices(n - 1, k - 1)
    }
}

/// There is no negative number of choices, and more things give no fewer.
pub proof fn lemma_choices_grow(n: int, m: int, k: int)
    requires
        n <= m,
    ensures
        0 <= choices(n, k) <= choices(m, k),
    decreases m,
{
    if k > 0 && m > 0 {
        lemma_choices_grow(m - 1, m - 1, k);
        lemma_choices_grow(m - 1, m - 1, k - 1);
        if n < m {
            lemma_choices_grow(n, m - 1, k);
        }
    } else if k > 0 {
        assert(choices(n, k) == 0);
    }
}

/// The table of binomials holds the numbers of choices.
pub proof fn lemma_binomial_is_choices(k: int, n: int)
    requires
        0 <= k < 6,
        0 <= n < 64,
    ensures
        BINOMIAL[k][n] == choices(n, k + 1),
    decreases n + k,
{
    lemma_binomial_rule(k, n);
    if n > 0 {
        lemma_binomial_is_choices(k, n - 1);
        assert(choices(n, k + 1) == choices(n - 1, k + 1) + choices(n - 1, k));
        if k > 0 {
            lemma_binomial_is_choices(k - 1, n - 1);
        } else {
            lemma_binomial_rule(0, n - 1);
            assert(choices(n - 1, 0) == 1);
        }
    } else {
        assert(choices(0, k + 1) == 0);
    }
}

/// The squares below `p + 1` are those below `p` and `p` itself, if it is there.
pub proof fn lemma_below_step(s: Seq<u8>, p: int)
    ensures
        below(s, p) <= below(s, p + 1),
        !s.contains(p as u8) || p < 0 || p > 255 ==> below(s, p + 1) == below(s, p),
        distinct(s) ==> below(s, p + 1) <= below(s, p) + 1,
    decreases s.len(),
{
    if s.len() > 0 {
        let rest = s.drop_last();
        lemma_below_step(rest, p);
        assert forall|i: int| 0 <= i < rest.len() implies rest[i] == s[i] by {}
        if s.last() == p {
            assert(s[s.len() - 1] == p as u8);
            if distinct(s) {
                assert(!rest.contains(p as u8)) by {
                    if rest.contains(p as u8) {
                        let i = choose|i: int| 0 <= i < rest.len() && rest[i] == p as u8;
                        assert(s[i] == s[s.len() - 1]);
                    }
                }
            }
        } else {
            if rest.contains(p as u8) {
                let i = choose|i: int| 0 <= i < rest.len() && rest[i] == p as u8;
                assert(s[i] == p as u8);
            }
        }
        if distinct(s) {
            assert(distinct(rest));
        }
    }
}

/// Of squares that are apart, no more lie from `p` up to `q` than there are
/// squares there; and one fewer where `p` is not among them.
pub proof fn lemma_below_range(s: Seq<u8>, p: int, q: int)
    requires
        distinct(s),
        p <= q,
    ensures
        below(s, p) <= below(s, q) <= below(s, p) + (q - p),
        p < q && !s.contains(p as u8) ==> below(s, q) <= below(s, p) + (q - p) - 1,
    decreases q - p,
{
    if p < q {
        lemma_below_range(s, p, q - 1);
        lemma_below_step(s, q - 1);
        if p == q - 1 {
        }
    }
}

/// No square lies below the first, and all squares of the board lie below the end of it.
pub proof fn lemma_below_ends(s: Seq<u8>)
    requires
        on_board(s),
    ensures
        below(s, 0) == 0,
        below(s, 64) == s.len(),
    decreases s.len(),
{
    if s.len() > 0 {
        lemma_below_ends(s.drop_last());
    }
}

/// The place that is left for the piece on the square `p`, where the
/// squares of `earlier` are taken.
pub open spec fn place(earlier: Seq<u8>, p: int) -> int {
    p - below(earlier, p)
}

/// A square that is free has a place among the squares that are left, and
/// a higher free square has a higher place.
pub proof fn lemma_places(earlier: Seq<u8>, p: int, q: int)
    requires
        on_board(earlier),
        distinct(earlier),
        0 <= p < q < 64,
        !earlier.contains(p as u8),
        !earlier.contains(q as u8),
    ensures
        0 <= place(earlier, p) < place(earlier, q) <= 63 - earlier.len(),
{
    lemma_below_ends(earlier);
    lemma_below_range(earlier, 0, p);
    lemma_below_range(earlier, p, q);
    lemma_below_range(earlier, q, 64);
}

/// A single free square has a place among the squares that are left.
pub proof fn lemma_place(earlier: Seq<u8>, p: int)
    requires
        on_board(earlier),
        distinct(earlier),
        0 <= p < 64,
        !earlier.contains(p as u8),
    ensures
        0 <= place(earlier, p) <= 63 - earlier.len(),
{
    lemma_below_ends(earlier);
    lemma_below_range(earlier, 0, p);
    lemma_below_range(earlier, p, 64);
}

/// Whether the squares of `group` are free, on the board, and each higher than the one before.
pub open spec fn rising(earlier: Seq<u8>, group: Seq<u8>) -> bool {
    &&& on_board(group)
    &&& forall|m: int| 0 <= m < group.len() ==> !earlier.contains(#[trigger] group[m])
    &&& forall|m: int, n: int| 0 <= m < n < group.len() ==> group[m] < group[n]
}

/// The first `m` pieces of a group on rising squares have a number, and it
/// is below the number of ways to choose `m` places up to that of the last.
pub proof fn lemma_group_sum_bound(earlier: Seq<u8>, group: Seq<u8>, m: int)
    requires
        on_board(earlier),
        distinct(earlier),
        rising(earlier, group),
        0 <= m <= group.len(),
        m <= 6,
    ensures
        group_sum(earlier, group, 0, m) is Some,
        m == 0 ==> group_sum(earlier, group, 0, m) == Some(0int),
        m > 0 ==> 0 <= group_sum(earlier, group, 0, m)->0 < choices(
            place(earlier, group[m - 1] as int) + 1,
            m,
        ),
    decreases m,
{
    if m > 0 {
        lemma_group_sum_bound(earlier, group, m - 1);
        let p = group[m - 1] as int;
        let here = place(earlier, p);
        lemma_place(earlier, p);
        lemma_binomial_is_choices(m - 1, here);
        lemma_choices_grow(here, here, m);
        assert(choices(here + 1, m) == choices(here, m) + choices(here, m - 1));
        let sum_before = group_sum(earlier, group, 0, m - 1)->0;
        assert(group_sum(earlier, group, 0, m) == Some(sum_before + BINOMIAL[m - 1][here]));
        if m > 1 {
            let before = group[m - 2] as int;
            lemma_places(earlier, before, p);
            lemma_choices_grow(place(earlier, before) + 1, here, m - 1);
        } else {
            assert(choices(here, 0) == 1);
        }
    }
}

/// A group of `t` like pieces on free squares that are apart has a number,
/// and it is below the number of ways to place the group on the squares that
/// are left.
pub proof fn lemma_group_bound(earlier: Seq<u8>, squares: Seq<u8>)
    requires
        on_board(earlier),
        distinct(earlier),
        on_board(squares),
        distinct(squares),
        forall|m: int| 0 <= m < squares.len() ==> !earlier.contains(#[trigger] squares[m]),
        1 <= squares.len() <= 6,
    ensures
        group_sum(earlier, ascending(squares), 0, squares.len() as int) is Some,
        0 <= group_sum(earlier, ascending(squares), 0, squares.len() as int)->0 < choices(
            64 - earlier.len(),
            squares.len() as int,
        ),
{
    let group = ascending(squares);
    lemma_ascending(squares);
    assert(rising(earlier, group)) by {
        assert forall|m: int| 0 <= m < group.len() implies !earlier.contains(
            #[trigger] group[m],
        ) by {
            assert(squares.contains(group[m]));
            let k = choose|k: int| 0 <= k < squares.len() && squares[k] == group[m];
            assert(!earlier.contains(squares[k]));
        }
    }
    let t = squares.len() as int;
    lemma_group_sum_bound(earlier, group, t);
    lemma_place(earlier, group[t - 1] as int);
    lemma_choices_grow(place(earlier, group[t - 1] as int) + 1, 64 - earlier.len(), t);
}

/// Squares that are apart, put in ascending order, are the same squares,
/// each higher than the one before.
pub proof fn lemma_ascending(squares: Seq<u8>)
    requires
        on_board(squares),
        distinct(squares),
    ensures
        ascending(squares).len() == squares.len(),
        on_board(ascending(squares)),
        forall|m: int| 0 <= m < squares.len() ==> squares.contains(#[trigger] ascending(squares)[m]),
        forall|m: int, n: int|
            0 <= m < n < squares.len() ==> ascending(squares)[m] < ascending(squares)[n],
{
    let leq = |a: u8, b: u8| a <= b;
    assert(total_ordering(leq));
    squares.lemma_sort_by_ensures(leq);
    let sorted = ascending(squares);
    squares.to_multiset_ensures();
    sorted.to_multiset_ensures();
    assert(squares.no_duplicates());
    squares.lemma_multiset_has_no_duplicates();
    sorted.lemma_multiset_has_no_duplicates_conv();
    assert forall|m: int| 0 <= m < sorted.len() implies squares.contains(#[trigger] sorted[m]) by {
        assert(sorted.contains(sorted[m]));
    }
    assert forall|m: int| 0 <= m < sorted.len() implies #[trigger] sorted[m] < 64 by {
        assert(squares.contains(sorted[m]));
    }
    assert forall|m: int, n: int| 0 <= m < n < sorted.len() implies sorted[m] < sorted[n] by {
        assert(leq(sorted[m], sorted[n]));
        assert(sorted[m] != sorted[n]);
    }
}

/// `n (n - 1) ... (n - k + 1)` is `n` times `(n - 1) ... (n - k + 1)`.
proof fn lemma_falling_shift(n: int, k: int)
    requires
        k >= 2,
    ensures
        falling(n, k) == n * falling(n - 1, k - 1),
    decreases k,
{
    if k == 2 {
        assert(falling(n, 2) == falling(n, 1) * (n - 1));
        assert(falling(n, 1) == n);
        assert(falling(n - 1, 1) == n - 1);
    } else {
        lemma_falling_shift(n, k - 1);
        let a = falling(n - 1, k - 2);
        assert(falling(n, k) == falling(n, k - 1) * (n - (k - 1)));
        assert(falling(n - 1, k - 1) == a * ((n - 1) - (k - 2)));
        assert(falling(n, k - 1) == n * a);
        assert((n * a) * (n - k + 1) == n * (a * (n - k + 1))) by (nonlinear_arith);
    }
}

/// There are `n` ways to choose one of `n` things.
proof fn lemma_choices_of_one(n: int)
    requires
        0 <= n,
    ensures
        choices(n, 1) == n,
    decreases n,
{
    if n > 0 {
        lemma_choices_of_one(n - 1);
        assert(choices(n - 1, 0) == 1);
    }
}

/// `k!` is positive.
proof fn lemma_factorial_positive(k: int)
    ensures
        factorial(k) >= 1,
    decreases k,
{
    if k > 1 {
        lemma_factorial_positive(k - 1);
        assert(factorial(k - 1) * k >= 1) by (nonlinear_arith)
            requires
                factorial(k - 1) >= 1,
                k > 1,
        ;
    }
}

/// The ways to choose `k` of `n` things, each in its `k!` orders, are the
/// `n (n - 1) ... (n - k + 1)` ways to take `k` of them one after another.
proof fn lemma_falling_is_choices(n: int, k: int)
    requires
        0 <= n,
        1 <= k,
    ensures
        falling(n, k) == choices(n, k) * factorial(k),
    decreases n, k,
{
    if n == 0 {
        if k >= 2 {
            lemma_falling_shift(0, k);
        }
        assert(choices(0, k) == 0);
        assert(0 * factorial(k) == 0);
        assert(0 * falling(-1, k - 1) == 0);
    } else if k == 1 {
        lemma_choices_of_one(n);
        assert(factorial(1) == 1);
    } else {
        lemma_falling_is_choices(n - 1, k);
        lemma_falling_is_choices(n - 1, k - 1);
        lemma_falling_shift(n, k);
        let c1 = choices(n - 1, k);
        let c2 = choices(n - 1, k - 1);
        let f1 = factorial(k - 1);
        let below_k = falling(n - 1, k - 1);
        assert(choices(n, k) == c1 + c2);
        assert(factorial(k) == f1 * k);
        assert(falling(n - 1, k) == below_k * ((n - 1) - (k - 1)));
        assert(below_k == c2 * f1);
        assert(falling(n - 1, k) == c1 * (f1 * k));
        assert((c1 + c2) * (f1 * k) == c1 * (f1 * k) + (c2 * f1) * k) by (nonlinear_arith);
        assert(below_k * (n - k) + below_k * k == n * below_k) by (nonlinear_arith);
    }
}

/// The number of placements of `k` like pieces on `n` squares is the number
/// of ways to choose `k` of `n` squares.
pub proof fn lemma_placements_are_choices(k: int, n: int)
    requires
        1 <= k,
        0 <= n,
    ensures
        placements(k, n) == choices(n, k),
{
    lemma_falling_is_choices(n, k);
    lemma_factorial_positive(k);
    lemma_choices_grow(n, n, k);
    let c = choices(n, k);
    let f = factorial(k);
    assert((c * f) / f == c) by (nonlinear_arith)
        requires
            f >= 1,
    ;
}

/// What the groups of like pieces from place `i` on add to the index: the
/// number of each group times its factor.
pub open spec fn weigh(sq: Seq<u8>, norm: Seq<u8>, factors: Seq<u64>, i: int) -> Option<int>
    decreases (if i < sq.len() {
        sq.len() - i
    } else {
        0int
    }),
{
    if i >= sq.len() || i < 0 {
        Some(0)
    } else if norm[i] == 0 || i + norm[i] > sq.len() {
        None
    } else {
        match group_sum(
            sq.subrange(0, i),
            ascending(sq.subrange(i, i + norm[i])),
            0,
            norm[i] as int,
        ) {
            None => None,
            Some(s) => match weigh(sq, norm, factors, i + norm[i]) {
                None => None,
                Some(w) => Some(s * factors[i] + w),
            },
        }
    }
}

/// The index is what it was before the groups from place `i` on were
/// counted in, and what they add.
pub proof fn lemma_groups_index_weighs(
    sq: Seq<u8>,
    norm: Seq<u8>,
    factors: Seq<u64>,
    i: int,
    acc: int,
)
    requires
        groups_index(sq, norm, factors, i, acc) is Some,
    ensures
        weigh(sq, norm, factors, i) is Some,
        groups_index(sq, norm, factors, i, acc)->0 == acc + weigh(sq, norm, factors, i)->0,
    decreases (if i < sq.len() {
        sq.len() - i
    } else {
        0int
    }),
{
    if 0 <= i < sq.len() {
        let s = group_sum(
            sq.subrange(0, i),
            ascending(sq.subrange(i, i + norm[i])),
            0,
            norm[i] as int,
        )->0;
        lemma_groups_index_weighs(sq, norm, factors, i + norm[i], acc + s * factors[i]);
    }
}

/// The factors that are set later leave those that were set alone, and
/// the size of the table is no less than the product so far.
pub proof fn lemma_factors_frame(
    norm: Seq<u8>,
    men: int,
    order: int,
    pivot: int,
    k: int,
    i: int,
    f: int,
    factors: Seq<u64>,
    size: int,
    all: Seq<u64>,
)
    requires
        factors_from(norm, men, order, pivot, k, i, f, factors) == Some((size, all)),
        factors.len() == 8,
        1 <= i,
    ensures
        all.len() == 8,
        forall|j: int| 0 <= j < 8 && j < i && (j != 0 || k > order) ==> all[j] == factors[j],
    decreases (if i < men {
        men - i
    } else {
        0int
    }) + (if k <= order {
        1int
    } else {
        0int
    }),
{
    if k == order {
        lemma_factors_frame(
            norm,
            men,
            order,
            pivot,
            k + 1,
            i,
            f * pivot,
            factors.update(0, f as u64),
            size,
            all,
        );
    } else if i < men {
        lemma_factors_frame(
            norm,
            men,
            order,
            pivot,
            k + 1,
            i + norm[i],
            f * placements(norm[i] as int, 64 - i),
            factors.update(i, f as u64),
            size,
            all,
        );
    }
}

/// From any point of the reckoning of the factors on, what the groups that
/// are still to get their factor add to the index is less than what is left
/// of the size of the table: each group has a number below its radix, and
/// the factor of the next group is the factor of this one times its radix.
pub proof fn lemma_digits_below_size(
    sq: Seq<u8>,
    norm: Seq<u8>,
    order: int,
    pivot: int,
    lead: int,
    k: int,
    i: int,
    f: int,
    factors: Seq<u64>,
    size: int,
    all: Seq<u64>,
)
    requires
        factors_from(norm, sq.len() as int, order, pivot, k, i, f, factors) == Some((size, all)),
        factors.len() == 8,
        norm.len() == 8,
        sq.len() <= 8,
        on_board(sq),
        distinct(sq),
        1 <= i,
        1 <= f,
        0 <= lead < pivot,
        k <= order ==> factors[0] == 0,
        weigh(sq, norm, all, i) is Some,
    ensures
        0 <= weigh(sq, norm, all, i)->0,
        weigh(sq, norm, all, i)->0 + (if k <= order {
            lead * all[0]
        } else {
            0
        }) <= size - f,
    decreases (if i < sq.len() {
        sq.len() - i
    } else {
        0int
    }) + (if k <= order {
        1int
    } else {
        0int
    }),
{
    let men = sq.len() as int;
    if k == order {
        let next = factors.update(0, f as u64);
        lemma_factors_frame(norm, men, order, pivot, k + 1, i, f * pivot, next, size, all);
        assert(all[0] == f);
        assert(f * pivot >= 1 && lead * f <= (pivot - 1) * f && (pivot - 1) * f == f * pivot - f)
            by (nonlinear_arith)
            requires
                1 <= f,
                0 <= lead < pivot,
        ;
        lemma_digits_below_size(sq, norm, order, pivot, lead, k + 1, i, f * pivot, next, size, all);
    } else if i < men {
        let t = norm[i] as int;
        let radix = placements(t, 64 - i);
        let next = factors.update(i, f as u64);
        let earlier = sq.subrange(0, i);
        let group = sq.subrange(i, i + t);
        let s = group_sum(earlier, ascending(group), 0, t)->0;
        assert(t <= 6);
        assert(on_board(earlier) && distinct(earlier) && on_board(group) && distinct(group));
        assert forall|m: int| 0 <= m < group.len() implies !earlier.contains(
            #[trigger] group[m],
        ) by {
            if earlier.contains(group[m]) {
                let l = choose|l: int| 0 <= l < earlier.len() && earlier[l] == group[m];
                assert(sq[l] == sq[i + m]);
            }
        }
        lemma_group_bound(earlier, group);
        lemma_placements_are_choices(t, 64 - i);
        lemma_factors_frame(norm, men, order, pivot, k + 1, i + t, f * radix, next, size, all);
        assert(all[i] == f);
        assert(f * radix >= 1 && s * f <= (radix - 1) * f && (radix - 1) * f == f * radix - f && 0
            <= s * f) by (nonlinear_arith)
            requires
                1 <= f,
                0 <= s < radix,
        ;
        lemma_digits_below_size(sq, norm, order, pivot, lead, k + 1, i + t, f * radix, next, size, all);
    } else {
        assert(lead * 0 == 0);
    }
}

/// The index of a position lies below the size of the table: where the
/// pieces stand on squares of the board, no two on the same, and the factors
/// are those of the table, the index that the position has is less than the
/// size that was reckoned with the factors.
pub proof fn lemma_index_below_size(
    norm: Seq<u8>,
    enc: EncodingType,
    order: int,
    squares: Seq<u8>,
)
    requires
        norm.len() == 8,
        norm[0] == enc.lead(),
        enc.lead() <= squares.len() <= 8,
        on_board(squares),
        distinct(squares),
        0 <= order,
        factors_of(norm, squares.len() as int, order, enc) is Some,
    ensures
        index_of(
            norm,
            factors_of(norm, squares.len() as int, order, enc).unwrap().1,
            enc,
            squares,
        ) matches Some(index) ==> 0 <= index < factors_of(
            norm,
            squares.len() as int,
            order,
            enc,
        ).unwrap().0,
{
    let men = squares.len() as int;
    let found = factors_of(norm, men, order, enc)->0;
    let size = found.0;
    let all = found.1;
    let c = canonical_squares(enc, squares);
    lemma_canonical_squares(enc, squares);
    lemma_lead_index_bound(enc, squares);
    if index_of(norm, all, enc, squares) is Some {
        let lead = lead_index(enc, c)->0;
        let zeros = Seq::new(8, |i: int| 0u64);
        lemma_factors_frame(norm, men, order, enc.pivot_factor(), 0, enc.lead(), 1, zeros, size, all);
        lemma_groups_index_weighs(c, norm, all, enc.lead(), lead * all[0]);
        lemma_digits_below_size(
            c,
            norm,
            order,
            enc.pivot_factor(),
            lead,
            0,
            enc.lead(),
            1,
            zeros,
            size,
            all,
        );
        assert(0 <= lead * all[0]) by (nonlinear_arith)
            requires
                0 <= lead,
                0 <= all[0],
        ;
    }
}

/// The number of groups of like pieces from place `i` on.
pub open spec fn groups_from(norm: Seq<u8>, men: int, i: int) -> int
    decreases (if i < men {
        men - i
    } else {
        0int
    }),
{
    if i < 0 || i >= men || norm[i] == 0 {
        0
    } else {
        1 + groups_from(norm, men, i + norm[i])
    }
}

/// The number of ways to place the groups of like pieces from place `i` on,
/// one group after another on the squares that are left.
pub open spec fn radix_product(norm: Seq<u8>, men: int, i: int) -> int
    decreases (if i < men {
        men - i
    } else {
        0int
    }),
{
    if i < 0 || i >= men || norm[i] == 0 {
        1
    } else {
        placements(norm[i] as int, 64 - i) * radix_product(norm, men, i + norm[i])
    }
}

/// There is no negative number of groups.
pub proof fn lemma_groups_from_positive(norm: Seq<u8>, men: int, i: int)
    ensures
        groups_from(norm, men, i) >= 0,
    decreases (if i < men {
        men - i
    } else {
        0int
    }),
{
    if !(i < 0 || i >= men || norm[i] == 0) {
        lemma_groups_from_positive(norm, men, i + norm[i]);
    }
}

/// From any point of the reckoning of the factors on, the size of the table
/// is the product so far, times the number of placements of the groups that
/// are still to come, times the number of placements of the leading group
/// if its turn is still to come.
pub proof fn lemma_size_is_product(
    norm: Seq<u8>,
    men: int,
    order: int,
    pivot: int,
    k: int,
    i: int,
    f: int,
    factors: Seq<u64>,
)
    requires
        factors_from(norm, men, order, pivot, k, i, f, factors) is Some,
    ensures
        factors_from(norm, men, order, pivot, k, i, f, factors).unwrap().0 == f * radix_product(
            norm,
            men,
            i,
        ) * (if k <= order <= k + groups_from(norm, men, i) {
            pivot
        } else {
            1
        }),
    decreases (if i < men {
        men - i
    } else {
        0int
    }) + (if k <= order {
        1int
    } else {
        0int
    }),
{
    let rest = radix_product(norm, men, i);
    lemma_groups_from_positive(norm, men, i);
    if k == order {
        lemma_size_is_product(
            norm,
            men,
            order,
            pivot,
            k + 1,
            i,
            f * pivot,
            factors.update(0, f as u64),
        );
        assert(f * pivot * rest * 1 == f * rest * pivot) by (nonlinear_arith);
    } else if i < men {
        let radix = placements(norm[i] as int, 64 - i);
        let later = radix_product(norm, men, i + norm[i]);
        lemma_size_is_product(
            norm,
            men,
            order,
            pivot,
            k + 1,
            i + norm[i],
            f * radix,
            factors.update(i, f as u64),
        );
        lemma_groups_from_positive(norm, men, i + norm[i]);
        assert(rest == radix * later);
        assert(f * radix * later * pivot == f * (radix * later) * pivot && f * radix * later * 1
            == f * (radix * later) * 1) by (nonlinear_arith);
    } else {
        assert(f * 1 * 1 == f);
    }
}

/// The size of a table is the number of placements of the leading pieces
/// times the number of placements of each group of like pieces on the
/// squares that the groups before it leave. Where the header gives the
/// leading group a turn behind the last group, it has none, and its
/// placements do not count.
pub proof fn lemma_size_of_table(norm: Seq<u8>, men: int, order: int, enc: EncodingType)
    requires
        0 <= order,
        factors_of(norm, men, order, enc) is Some,
    ensures
        factors_of(norm, men, order, enc).unwrap().0 == radix_product(norm, men, norm[0] as int)
            * (if order <= groups_from(norm, men, norm[0] as int) {
            enc.pivot_factor()
        } else {
            1
        }),
{
    lemma_size_is_product(
        norm,
        men,
        order,
        enc.pivot_factor(),
        0,
        norm[0] as int,
        1,
        Seq::new(8, |i: int| 0u64),
    );
    let rest = radix_product(norm, men, norm[0] as int);
    assert(1 * rest * enc.pivot_factor() == rest * enc.pivot_factor() && 1 * rest * 1 == rest * 1)
        by (nonlinear_arith);
}

/// Whether the leading pawns still get their turn in the reckoning of the
/// factors of a table with pawns, at turn `k` with `groups` groups to come:
/// their turn `order` is not past, and the groups, and the other pawns if
/// their turn comes first, fill the turns up to it.
pub open spec fn lead_turn_comes(order: int, order2: int, k: int, groups: int) -> bool {
    k <= order <= k + groups + (if order2 != order && k <= order2 < order {
        1int
    } else {
        0int
    })
}

/// Whether the pawns of the other side still get their turn: their turn
/// `order2` is not that of the leading pawns and not past, and the groups,
/// and the leading pawns if their turn comes first, fill the turns up to it.
pub open spec fn other_turn_comes(order: int, order2: int, k: int, groups: int) -> bool {
    order2 != order && k <= order2 <= k + groups + (if k <= order < order2 {
        1int
    } else {
        0int
    })
}

/// From any point of the reckoning of the factors of a table with pawns on,
/// the size of the table is the product so far, times the number of
/// placements of the groups that are still to come, times those of the
/// leading pawns and those of the other pawns, as far as their turns are
/// still to come.
pub proof fn lemma_pawn_size_is_product(
    norm: Seq<u8>,
    men: int,
    order: int,
    order2: int,
    file: int,
    k: int,
    i: int,
    f: int,
    factors: Seq<u64>,
)
    requires
        pawnful::factors_from(norm, men, order, order2, file, k, i, f, factors) is Some,
    ensures
        pawnful::factors_from(norm, men, order, order2, file, k, i, f, factors).unwrap().0 == f
            * radix_product(norm, men, i) * (if lead_turn_comes(
            order,
            order2,
            k,
            groups_from(norm, men, i),
        ) {
            PAWN_FACTOR[norm[0] - 1][file] as int
        } else {
            1
        }) * (if other_turn_comes(order, order2, k, groups_from(norm, men, i)) {
            placements(norm[norm[0] as int] as int, 48 - norm[0])
        } else {
            1
        }),
    decreases (if i < men {
        men - i
    } else {
        0int
    }) + (if k <= order {
        1int
    } else {
        0int
    }) + (if k <= order2 {
        1int
    } else {
        0int
    }),
{
    let rest = radix_product(norm, men, i);
    let groups = groups_from(norm, men, i);
    let lead = PAWN_FACTOR[norm[0] - 1][file] as int;
    let other = placements(norm[norm[0] as int] as int, 48 - norm[0]);
    lemma_groups_from_positive(norm, men, i);
    if k == order {
        lemma_pawn_size_is_product(
            norm,
            men,
            order,
            order2,
            file,
            k + 1,
            i,
            f * lead,
            factors.update(0, f as u64),
        );
        assert(f * lead * rest * 1 * other == f * rest * lead * other && f * lead * rest * 1 * 1
            == f * rest * lead * 1) by (nonlinear_arith);
    } else if k == order2 {
        lemma_pawn_size_is_product(
            norm,
            men,
            order,
            order2,
            file,
            k + 1,
            i,
            f * other,
            factors.update(norm[0] as int, f as u64),
        );
        assert(f * other * rest * lead * 1 == f * rest * lead * other && f * other * rest * 1 * 1
            == f * rest * 1 * other) by (nonlinear_arith);
    } else if i < men {
        let radix = placements(norm[i] as int, 64 - i);
        let later = radix_product(norm, men, i + norm[i]);
        lemma_pawn_size_is_product(
            norm,
            men,
            order,
            order2,
            file,
            k + 1,
            i + norm[i],
            f * radix,
            factors.update(i, f as u64),
        );
        lemma_groups_from_positive(norm, men, i + norm[i]);
        assert(rest == radix * later);
        assert(forall|a: int, b: int|
            #![trigger f * radix * later * a * b]
            f * radix * later * a * b == f * (radix * later) * a * b) by (nonlinear_arith);
    } else {
        assert(f * 1 * 1 * 1 == f);
    }
}

/// The place of the first group behind the pawns.
pub open spec fn behind_pawns(norm: Seq<u8>, order2: int) -> int {
    if order2 < 15 {
        norm[0] + norm[norm[0] as int]
    } else {
        norm[0] as int
    }
}

/// The size of a table with pawns is the number of placements of the
/// leading pawns for the file of the leading one, times the number of
/// placements of the other pawns on the 48 squares that pawns can stand on,
/// less those of the leading pawns, times the number of placements of each
/// group of like pieces on the squares that are left; a group of pawns whose
/// turn the header puts behind the last turn does not count.
pub proof fn lemma_pawn_size_of_table(norm: Seq<u8>, men: int, order: int, order2: int, file: int)
    requires
        pawnful::factors_of(norm, men, order, order2, file) is Some,
    ensures
        pawnful::factors_of(norm, men, order, order2, file).unwrap().0 == radix_product(
            norm,
            men,
            behind_pawns(norm, order2),
        ) * (if lead_turn_comes(
            order,
            order2,
            0,
            groups_from(norm, men, behind_pawns(norm, order2)),
        ) {
            PAWN_FACTOR[norm[0] - 1][file] as int
        } else {
            1
        }) * (if other_turn_comes(
            order,
            order2,
            0,
            groups_from(norm, men, behind_pawns(norm, order2)),
        ) {
            placements(norm[norm[0] as int] as int, 48 - norm[0])
        } else {
            1
        }),
{
    let i = behind_pawns(norm, order2);
    lemma_pawn_size_is_product(
        norm,
        men,
        order,
        order2,
        file,
        0,
        i,
        1,
        Seq::new(8, |i: int| 0u64),
    );
    let rest = radix_product(norm, men, i);
    assert(forall|a: int, b: int| #![trigger 1 * rest * a * b] 1 * rest * a * b == rest * a * b)
        by (nonlinear_arith);
}

} // verus!
