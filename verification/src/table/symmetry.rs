//! Positions that are mirror images of one another share a place in a table
//! without pawns: the index does not change when the board is mirrored.
use crate::table::bounds::{lemma_diagonal_side_flips, lemma_square_numbers};
use crate::table::pawnless::{
    canonical_squares, diagonal_flipped, diagonal_side, index_of, lead_index, EncodingType,
};
use crate::table::{
    ascending, below, file_flipped, files_flipped, group_sum, groups_index, on_board,
    rank_flipped, ranks_flipped,
};
use vstd::prelude::*;
use vstd::relations::total_ordering;
use vstd::seq_lib::{lemma_sorted_unique, to_multiset_update};

verus! {

/// The square on the file and rank that are the rank and file of `s`.
pub open spec fn transposed(s: int) -> int {
    8 * (s % 8) + s / 8
}

/// The mirror images of a square: they are on the board, mirroring twice in
/// the same line gives the square back, the mirrors in the files and the
/// ranks can be taken in either order, and the mirror in the long diagonal
/// turns the one in the files into the one in the ranks.
pub proof fn lemma_square_mirrors(s: int)
    requires
        0 <= s < 64,
    ensures
        0 <= file_flipped(s) < 64,
        0 <= rank_flipped(s) < 64,
        0 <= transposed(s) < 64,
        file_flipped(s) % 8 == 7 - s % 8 && file_flipped(s) / 8 == s / 8,
        rank_flipped(s) % 8 == s % 8 && rank_flipped(s) / 8 == 7 - s / 8,
        transposed(s) % 8 == s / 8 && transposed(s) / 8 == s % 8,
        file_flipped(file_flipped(s)) == s,
        rank_flipped(rank_flipped(s)) == s,
        transposed(transposed(s)) == s,
        file_flipped(rank_flipped(s)) == rank_flipped(file_flipped(s)),
        transposed(file_flipped(s)) == rank_flipped(transposed(s)),
        transposed(rank_flipped(s)) == file_flipped(transposed(s)),
{
    let f = s % 8;
    let r = s / 8;
    assert(s == 8 * r + f);
    assert(file_flipped(s) == 8 * r + (7 - f));
    assert(rank_flipped(s) == 8 * (7 - r) + f);
    assert(transposed(s) == 8 * f + r);
}

/// The mirror in the long diagonal exchanges the file and the rank of every square.
pub proof fn lemma_diagonal_transposes(sq: Seq<u8>)
    requires
        on_board(sq),
    ensures
        on_board(diagonal_flipped(sq)),
        diagonal_flipped(sq).len() == sq.len(),
        forall|i: int|
            0 <= i < sq.len() ==> (#[trigger] diagonal_flipped(sq)[i]) == transposed(sq[i] as int),
{
    assert forall|i: int| 0 <= i < sq.len() implies (#[trigger] diagonal_flipped(sq)[i])
        == transposed(sq[i] as int) && diagonal_flipped(sq)[i] < 64 by {
        lemma_square_numbers(sq[i] as int);
        lemma_square_mirrors(sq[i] as int);
    }
}

/// The mirrors in the files and the ranks keep the squares on the board and
/// mirror every square.
pub proof fn lemma_flips_mirror(sq: Seq<u8>)
    requires
        on_board(sq),
    ensures
        on_board(files_flipped(sq)),
        on_board(ranks_flipped(sq)),
        forall|i: int|
            0 <= i < sq.len() ==> (#[trigger] files_flipped(sq)[i]) == file_flipped(sq[i] as int),
        forall|i: int|
            0 <= i < sq.len() ==> (#[trigger] ranks_flipped(sq)[i]) == rank_flipped(sq[i] as int),
{
    assert forall|i: int| 0 <= i < sq.len() implies (#[trigger] files_flipped(sq)[i])
        == file_flipped(sq[i] as int) && files_flipped(sq)[i] < 64 by {
        lemma_square_mirrors(sq[i] as int);
    }
    assert forall|i: int| 0 <= i < sq.len() implies (#[trigger] ranks_flipped(sq)[i])
        == rank_flipped(sq[i] as int) && ranks_flipped(sq)[i] < 64 by {
        lemma_square_mirrors(sq[i] as int);
    }
}

/// Mirroring twice in the same line gives the squares back.
pub proof fn lemma_mirrored_twice(sq: Seq<u8>)
    requires
        on_board(sq),
    ensures
        files_flipped(files_flipped(sq)) == sq,
        ranks_flipped(ranks_flipped(sq)) == sq,
        diagonal_flipped(diagonal_flipped(sq)) == sq,
{
    lemma_flips_mirror(sq);
    lemma_flips_mirror(files_flipped(sq));
    lemma_flips_mirror(ranks_flipped(sq));
    lemma_diagonal_transposes(sq);
    lemma_diagonal_transposes(diagonal_flipped(sq));
    assert forall|i: int| 0 <= i < sq.len() implies files_flipped(files_flipped(sq))[i] == sq[i]
        && ranks_flipped(ranks_flipped(sq))[i] == sq[i] && diagonal_flipped(
        diagonal_flipped(sq),
    )[i] == sq[i] by {
        lemma_square_mirrors(sq[i] as int);
        assert(files_flipped(files_flipped(sq))[i] == file_flipped(files_flipped(sq)[i] as int));
        assert(ranks_flipped(ranks_flipped(sq))[i] == rank_flipped(ranks_flipped(sq)[i] as int));
        assert(diagonal_flipped(diagonal_flipped(sq))[i] == transposed(
            diagonal_flipped(sq)[i] as int,
        ));
    }
    assert(files_flipped(files_flipped(sq)) =~= sq);
    assert(ranks_flipped(ranks_flipped(sq)) =~= sq);
    assert(diagonal_flipped(diagonal_flipped(sq)) =~= sq);
}

/// The mirrors in the files and the ranks can be taken in either order, and
/// the mirror in the long diagonal turns the one into the other.
pub proof fn lemma_mirrors_commute(sq: Seq<u8>)
    requires
        on_board(sq),
    ensures
        files_flipped(ranks_flipped(sq)) == ranks_flipped(files_flipped(sq)),
        diagonal_flipped(files_flipped(sq)) == ranks_flipped(diagonal_flipped(sq)),
        diagonal_flipped(ranks_flipped(sq)) == files_flipped(diagonal_flipped(sq)),
{
    lemma_flips_mirror(sq);
    lemma_flips_mirror(files_flipped(sq));
    lemma_flips_mirror(ranks_flipped(sq));
    lemma_diagonal_transposes(sq);
    lemma_flips_mirror(diagonal_flipped(sq));
    lemma_diagonal_transposes(files_flipped(sq));
    lemma_diagonal_transposes(ranks_flipped(sq));
    assert forall|i: int| 0 <= i < sq.len() implies files_flipped(ranks_flipped(sq))[i]
        == ranks_flipped(files_flipped(sq))[i] && diagonal_flipped(files_flipped(sq))[i]
        == ranks_flipped(diagonal_flipped(sq))[i] && diagonal_flipped(ranks_flipped(sq))[i]
        == files_flipped(diagonal_flipped(sq))[i] by {
        lemma_square_mirrors(sq[i] as int);
        assert(files_flipped(ranks_flipped(sq))[i] == file_flipped(ranks_flipped(sq)[i] as int));
        assert(ranks_flipped(files_flipped(sq))[i] == rank_flipped(files_flipped(sq)[i] as int));
        assert(diagonal_flipped(files_flipped(sq))[i] == transposed(files_flipped(sq)[i] as int));
        assert(diagonal_flipped(ranks_flipped(sq))[i] == transposed(ranks_flipped(sq)[i] as int));
        assert(ranks_flipped(diagonal_flipped(sq))[i] == rank_flipped(
            diagonal_flipped(sq)[i] as int,
        ));
        assert(files_flipped(diagonal_flipped(sq))[i] == file_flipped(
            diagonal_flipped(sq)[i] as int,
        ));
    }
    assert(files_flipped(ranks_flipped(sq)) =~= ranks_flipped(files_flipped(sq)));
    assert(diagonal_flipped(files_flipped(sq)) =~= ranks_flipped(diagonal_flipped(sq)));
    assert(diagonal_flipped(ranks_flipped(sq)) =~= files_flipped(diagonal_flipped(sq)));
}

/// The squares as the table counts them before the mirror in the long
/// diagonal: the first of them on the files a to d and the ranks 1 to 4.
pub open spec fn quadrant_squares(sq: Seq<u8>) -> Seq<u8> {
    let a = if sq[0] % 8 > 3 {
        files_flipped(sq)
    } else {
        sq
    };
    if a[0] / 8 > 3 {
        ranks_flipped(a)
    } else {
        a
    }
}

/// The mirror images of a position in the files, in the ranks and in the
/// long diagonal are brought into the same quadrant in the same way.
pub proof fn lemma_quadrant_mirrored(sq: Seq<u8>)
    requires
        on_board(sq),
        sq.len() >= 1,
    ensures
        quadrant_squares(files_flipped(sq)) == quadrant_squares(sq),
        quadrant_squares(ranks_flipped(sq)) == quadrant_squares(sq),
        quadrant_squares(diagonal_flipped(sq)) == diagonal_flipped(quadrant_squares(sq)),
        on_board(quadrant_squares(sq)),
{
    lemma_flips_mirror(sq);
    lemma_diagonal_transposes(sq);
    lemma_square_mirrors(sq[0] as int);
    lemma_mirrored_twice(sq);
    lemma_mirrors_commute(sq);
    let f = files_flipped(sq);
    let r = ranks_flipped(sq);
    let d = diagonal_flipped(sq);
    lemma_flips_mirror(f);
    lemma_flips_mirror(r);
    lemma_flips_mirror(d);
    lemma_mirrored_twice(f);
    lemma_mirrored_twice(r);
    lemma_mirrors_commute(f);
    lemma_mirrors_commute(r);
    lemma_square_mirrors(f[0] as int);
    lemma_square_mirrors(r[0] as int);
    lemma_square_mirrors(d[0] as int);
    lemma_diagonal_transposes(f);
    lemma_diagonal_transposes(r);
    lemma_diagonal_transposes(ranks_flipped(f));
    lemma_flips_mirror(ranks_flipped(d));
    lemma_flips_mirror(files_flipped(d));
    lemma_square_mirrors(ranks_flipped(f)[0] as int);
    lemma_square_mirrors(files_flipped(d)[0] as int);
    lemma_square_mirrors(ranks_flipped(d)[0] as int);
    lemma_mirrors_commute(d);
}

/// The index of a position is that of its mirror images in the line
/// between the d- and the e-file and in the line between the fourth and the
/// fifth rank.
pub proof fn lemma_index_mirrored(norm: Seq<u8>, factors: Seq<u64>, enc: EncodingType, sq: Seq<u8>)
    requires
        on_board(sq),
        sq.len() >= 1,
    ensures
        canonical_squares(enc, files_flipped(sq)) == canonical_squares(enc, sq),
        canonical_squares(enc, ranks_flipped(sq)) == canonical_squares(enc, sq),
        index_of(norm, factors, enc, files_flipped(sq)) == index_of(norm, factors, enc, sq),
        index_of(norm, factors, enc, ranks_flipped(sq)) == index_of(norm, factors, enc, sq),
{
    lemma_quadrant_mirrored(sq);
}

/// The index of a position is that of its mirror image in the long
/// diagonal, as long as one of the leading pieces stands off the diagonal.
/// With all of them on it, the table holds both mirror images.
pub proof fn lemma_index_mirrored_in_diagonal(
    norm: Seq<u8>,
    factors: Seq<u64>,
    enc: EncodingType,
    sq: Seq<u8>,
)
    requires
        on_board(sq),
        sq.len() >= 1,
        diagonal_side(quadrant_squares(sq), enc.lead(), 0) != 0,
    ensures
        canonical_squares(enc, diagonal_flipped(sq)) == canonical_squares(enc, sq),
        index_of(norm, factors, enc, diagonal_flipped(sq)) == index_of(norm, factors, enc, sq),
{
    lemma_quadrant_mirrored(sq);
    let b = quadrant_squares(sq);
    lemma_diagonal_side_flips(b, enc.lead(), 0);
    lemma_diagonal_transposes(b);
    lemma_diagonal_side_flips(diagonal_flipped(b), enc.lead(), 0);
    lemma_mirrored_twice(b);
}

/// The squares with those at the places `j` and `k` exchanged.
pub open spec fn exchanged(sq: Seq<u8>, j: int, k: int) -> Seq<u8> {
    sq.update(j, sq[k]).update(k, sq[j])
}

/// To put another square in one place changes the number of squares below
/// `p` by what the two squares count.
pub proof fn lemma_below_update(s: Seq<u8>, j: int, x: u8, p: int)
    requires
        0 <= j < s.len(),
    ensures
        below(s.update(j, x), p) == below(s, p) - (if s[j] < p {
            1int
        } else {
            0int
        }) + (if x < p {
            1int
        } else {
            0int
        }),
    decreases s.len(),
{
    let t = s.update(j, x);
    if j == s.len() - 1 {
        assert(t.drop_last() =~= s.drop_last());
    } else {
        assert(t.drop_last() =~= s.drop_last().update(j, x));
        lemma_below_update(s.drop_last(), j, x, p);
    }
}

/// As many squares lie below `p` when two of them have exchanged places.
pub proof fn lemma_below_exchanged(s: Seq<u8>, j: int, k: int, p: int)
    requires
        0 <= j < s.len(),
        0 <= k < s.len(),
    ensures
        below(exchanged(s, j, k), p) == below(s, p),
{
    lemma_below_update(s, j, s[k], p);
    lemma_below_update(s.update(j, s[k]), k, s[j], p);
}

/// The squares in ascending order are the same when two of them have exchanged places.
pub proof fn lemma_ascending_exchanged(s: Seq<u8>, j: int, k: int)
    requires
        0 <= j < s.len(),
        0 <= k < s.len(),
    ensures
        ascending(exchanged(s, j, k)) == ascending(s),
{
    let leq = |a: u8, b: u8| a <= b;
    let t = exchanged(s, j, k);
    assert(total_ordering(leq));
    to_multiset_update(s, j, s[k]);
    to_multiset_update(s.update(j, s[k]), k, s[j]);
    assert(s.to_multiset().insert(s[k]).remove(s[j]).insert(s[j]).remove(s[k])
        =~= s.to_multiset()) by {
        s.to_multiset_ensures();
        assert(s.contains(s[j]));
        assert(s.contains(s[k]));
    }
    assert(j != k ==> s.update(j, s[k])[k] == s[k]);
    if j == k {
        assert(t =~= s);
    }
    s.lemma_sort_by_ensures(leq);
    t.lemma_sort_by_ensures(leq);
    lemma_sorted_unique(ascending(t), ascending(s), leq);
}

/// The number of a group depends on the squares before it only by how many
/// of them lie below each square.
pub proof fn lemma_group_sum_by_counts(
    earlier: Seq<u8>,
    other: Seq<u8>,
    group: Seq<u8>,
    shift: int,
    m: int,
)
    requires
        forall|p: int| below(earlier, p) == below(other, p),
    ensures
        group_sum(earlier, group, shift, m) == group_sum(other, group, shift, m),
    decreases m,
{
    if m > 0 {
        lemma_group_sum_by_counts(earlier, other, group, shift, m - 1);
    }
}

/// Whether a group of like pieces starts at place `g`, where one starts at `i`.
pub open spec fn group_starts(norm: Seq<u8>, len: int, i: int, g: int) -> bool
    decreases (if i < len {
        len - i
    } else {
        0int
    }),
{
    if i < 0 || i >= len || norm[i] == 0 {
        false
    } else if i == g {
        true
    } else {
        group_starts(norm, len, i + norm[i], g)
    }
}

/// The groups from place `i` on add the same to the index when two pieces
/// of one group exchange their squares, or two pieces before `i`.
pub proof fn lemma_groups_index_exchanged(
    sq: Seq<u8>,
    norm: Seq<u8>,
    factors: Seq<u64>,
    i: int,
    acc: int,
    g: int,
    j: int,
    k: int,
)
    requires
        0 <= i,
        0 <= j < sq.len(),
        0 <= k < sq.len(),
        (j < i && k < i) || (group_starts(norm, sq.len() as int, i, g) && g <= j < g + norm[g]
            && g <= k < g + norm[g]),
    ensures
        groups_index(exchanged(sq, j, k), norm, factors, i, acc) == groups_index(
            sq,
            norm,
            factors,
            i,
            acc,
        ),
    decreases (if i < sq.len() {
        sq.len() - i
    } else {
        0int
    }),
{
    let other = exchanged(sq, j, k);
    if i < sq.len() && norm[i] != 0 && i + norm[i] <= sq.len() {
        let t = norm[i] as int;
        let earlier = sq.subrange(0, i);
        let group = sq.subrange(i, i + t);
        if j < i && k < i {
            assert(other.subrange(0, i) =~= exchanged(earlier, j, k));
            assert(other.subrange(i, i + t) =~= group);
            assert forall|p: int| below(earlier, p) == below(other.subrange(0, i), p) by {
                lemma_below_exchanged(earlier, j, k, p);
            }
            lemma_group_sum_by_counts(earlier, other.subrange(0, i), ascending(group), 0, t);
        } else if i == g {
            assert(other.subrange(0, i) =~= earlier);
            assert(other.subrange(i, i + t) =~= exchanged(group, j - i, k - i));
            lemma_ascending_exchanged(group, j - i, k - i);
        } else {
            lemma_group_start_behind(norm, sq.len() as int, i + t, g);
            assert(other.subrange(0, i) =~= earlier);
            assert(other.subrange(i, i + t) =~= group);
        }
        match group_sum(earlier, ascending(group), 0, t) {
            None => {},
            Some(s) => {
                if acc + s * factors[i] <= u64::MAX {
                    lemma_groups_index_exchanged(
                        sq,
                        norm,
                        factors,
                        i + t,
                        acc + s * factors[i],
                        g,
                        j,
                        k,
                    );
                }
            },
        }
    }
}

/// A group that starts where one starts at `i` does not start before `i`.
pub proof fn lemma_group_start_behind(norm: Seq<u8>, len: int, i: int, g: int)
    requires
        group_starts(norm, len, i, g),
    ensures
        i <= g < len,
    decreases (if i < len {
        len - i
    } else {
        0int
    }),
{
    if i != g {
        lemma_group_start_behind(norm, len, i + norm[i], g);
    }
}

/// The side of the long diagonal on which the leading squares lie depends
/// on the leading squares alone.
pub proof fn lemma_diagonal_side_of_leading(a: Seq<u8>, b: Seq<u8>, to_check: int, i: int)
    requires
        a.len() == b.len(),
        0 <= i,
        forall|l: int| 0 <= l < to_check && l < a.len() ==> a[l] == b[l],
    ensures
        diagonal_side(a, to_check, i) == diagonal_side(b, to_check, i),
    decreases (if i < to_check {
        to_check - i
    } else {
        0int
    }),
{
    if i < to_check && i < a.len() {
        lemma_diagonal_side_of_leading(a, b, to_check, i + 1);
    }
}

/// The squares as the table counts them, of a position in which two pieces
/// behind the leading ones have exchanged their squares, are those of the
/// position with the same two exchanged.
pub proof fn lemma_canonical_exchanged(enc: EncodingType, sq: Seq<u8>, j: int, k: int)
    requires
        on_board(sq),
        enc.lead() <= j < sq.len(),
        enc.lead() <= k < sq.len(),
    ensures
        canonical_squares(enc, exchanged(sq, j, k)) == exchanged(
            canonical_squares(enc, sq),
            j,
            k,
        ),
        canonical_squares(enc, sq).len() == sq.len(),
{
    let other = exchanged(sq, j, k);
    assert(files_flipped(other) =~= exchanged(files_flipped(sq), j, k));
    let a = if sq[0] % 8 > 3 {
        files_flipped(sq)
    } else {
        sq
    };
    let a2 = exchanged(a, j, k);
    assert(ranks_flipped(a2) =~= exchanged(ranks_flipped(a), j, k));
    let b = if a[0] / 8 > 3 {
        ranks_flipped(a)
    } else {
        a
    };
    let b2 = exchanged(b, j, k);
    assert(diagonal_flipped(b2) =~= exchanged(diagonal_flipped(b), j, k));
    lemma_diagonal_side_of_leading(b, b2, enc.lead(), 0);
}

/// The index of a position does not depend on which of two like pieces
/// stands on which square: where two pieces of one group behind the leading
/// pieces exchange their squares, the index stays the same.
pub proof fn lemma_index_exchanged(
    norm: Seq<u8>,
    factors: Seq<u64>,
    enc: EncodingType,
    sq: Seq<u8>,
    g: int,
    j: int,
    k: int,
)
    requires
        on_board(sq),
        enc.lead() <= sq.len(),
        group_starts(norm, sq.len() as int, enc.lead(), g),
        g <= j < g + norm[g],
        g <= k < g + norm[g],
        j < sq.len(),
        k < sq.len(),
    ensures
        index_of(norm, factors, enc, exchanged(sq, j, k)) == index_of(norm, factors, enc, sq),
{
    lemma_group_start_behind(norm, sq.len() as int, enc.lead(), g);
    lemma_canonical_exchanged(enc, sq, j, k);
    let c = canonical_squares(enc, sq);
    let c2 = exchanged(c, j, k);
    assert(c2[0] == c[0] && c2[1] == c[1]);
    assert(enc.lead() == 3 ==> c2[2] == c[2]);
    assert(lead_index(enc, c2) == lead_index(enc, c));
    match lead_index(enc, c) {
        None => {},
        Some(lead) => {
            if lead * factors[0] <= u64::MAX {
                lemma_groups_index_exchanged(
                    c,
                    norm,
                    factors,
                    enc.lead(),
                    lead * factors[0],
                    g,
                    j,
                    k,
                );
            }
        },
    }
}

} // verus!
