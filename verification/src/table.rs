//! One table file: the magic number, then the layout for material without
//! pawns or the one for material with pawns.
use crate::constants::BINOMIAL;
use crate::error::SyzygyError;
use crate::material::Material;
use crate::pairs::{PairsData, PairsView, Sizes};
use crate::piece::ColoredPiece;
use crate::position::{piece_squares, squares_on};
use crate::stream::{le32, padding, Cursor, DataStream};
use crate::wdl::Wdl;
use cozy_chess::Board;
use vstd::prelude::*;
use vstd::relations::{sorted_by, total_ordering};
use vstd::seq_lib::{lemma_sorted_unique, to_multiset_update};
use vstd::slice::slice_to_vec;

pub mod bounds;
pub mod pawn_laws;
pub mod pawnful;
pub mod pawnless;
pub mod symmetry;

verus! {

/// The magic number at the start of a table file with win/draw/loss values.
pub const WDL_MAGIC: u32 = 0x5d23e871;

/// `n (n - 1) ... (n - k + 1)`, and `n` itself where `k` is 0.
pub open spec fn falling(n: int, k: int) -> int
    decreases k,
{
    if k <= 1 {
        n
    } else {
        falling(n, k - 1) * (n - (k - 1))
    }
}

/// `k!`.
pub open spec fn factorial(k: int) -> int
    decreases k,
{
    if k <= 1 {
        1
    } else {
        factorial(k - 1) * k
    }
}

/// The number of placements of `k` like pieces on `n` squares.
pub open spec fn placements(k: int, n: int) -> int {
    falling(n, k) / factorial(k)
}

/// A bound on `falling(n, k)` for `n` up to 64.
pub open spec fn falling_cap(k: int) -> int {
    if k <= 1 {
        64
    } else if k == 2 {
        0x1000
    } else if k == 3 {
        0x40000
    } else if k == 4 {
        0x1000000
    } else if k == 5 {
        0x40000000
    } else if k == 6 {
        0x1000000000
    } else if k == 7 {
        0x40000000000
    } else {
        0x1000000000000
    }
}

/// A bound on `factorial(k)` for `k` up to 8.
pub open spec fn factorial_cap(k: int) -> int {
    if k <= 1 {
        1
    } else if k == 2 {
        8
    } else if k == 3 {
        0x40
    } else if k == 4 {
        0x200
    } else if k == 5 {
        0x1000
    } else if k == 6 {
        0x8000
    } else if k == 7 {
        0x40000
    } else {
        0x200000
    }
}

/// The number of placements of `k` like pieces on `n` squares.
pub fn subfactor(k: usize, n: usize) -> (r: u64)
    requires
        k <= 8,
        k <= n <= 64,
    ensures
        r == placements(k as int, n as int),
        r <= 0x1000000000000,
{
    let mut f: u64 = n as u64;
    let mut l: u64 = 1;
    let mut i: usize = 1;
    while i < k
        invariant
            1 <= i,
            i <= k || (k == 0 && i == 1),
            k <= 8,
            k <= n <= 64,
            f == falling(n as int, i as int),
            l == factorial(i as int),
            0 <= f <= falling_cap(i as int),
            1 <= l <= factorial_cap(i as int),
        decreases k - i,
    {
        let step: u64 = (n - i) as u64;
        let ghost cap = falling_cap(i as int);
        assert(f * step <= cap * 64) by (nonlinear_arith)
            requires
                0 <= f <= cap,
                0 <= step <= 64,
        ;
        let ghost lcap = factorial_cap(i as int);
        assert(1 <= l * (i + 1) <= lcap * 8) by (nonlinear_arith)
            requires
                1 <= l <= lcap,
                1 <= i + 1 <= 8,
        ;
        f = f * step;
        l = l * (i as u64 + 1);
        i += 1;
    }
    assert(falling(n as int, 0) == falling(n as int, 1));
    assert(factorial(0) == factorial(1));
    f / l
}

/// The squares of `s` in ascending order.
pub open spec fn ascending(s: Seq<u8>) -> Seq<u8> {
    s.sort_by(|a: u8, b: u8| a <= b)
}

/// Sorts the squares in ascending order.
pub fn sort_squares(v: &mut Vec<u8>)
    ensures
        final(v)@ == ascending(old(v)@),
{
    let n: usize = v.len();
    let ghost leq = |a: u8, b: u8| a <= b;
    let mut j: usize = 0;
    while j < n
        invariant
            j <= n,
            v@.len() == n,
            leq == (|a: u8, b: u8| a <= b),
            v@.to_multiset() == old(v)@.to_multiset(),
            forall|a: int, b: int| 0 <= a < j && a < b < n ==> v@[a] <= v@[b],
        decreases n - j,
    {
        let mut k: usize = j + 1;
        while k < n
            invariant
                j < k <= n,
                v@.len() == n,
                v@.to_multiset() == old(v)@.to_multiset(),
                forall|a: int, b: int| 0 <= a < j && a < b < n ==> v@[a] <= v@[b],
                forall|b: int| j < b < k ==> v@[j as int] <= v@[b],
            decreases n - k,
        {
            if v[j] > v[k] {
                let ghost before = v@;
                let low: u8 = v[k];
                let high: u8 = v[j];
                v.set(j, low);
                v.set(k, high);
                proof {
                    to_multiset_update(before, j as int, low);
                    to_multiset_update(before.update(j as int, low), k as int, high);
                    assert(before.to_multiset().insert(low).remove(high).insert(high).remove(low)
                        =~= before.to_multiset()) by {
                        before.to_multiset_ensures();
                        assert(before.contains(high));
                    }
                }
            }
            k += 1;
        }
        j += 1;
    }
    proof {
        assert(total_ordering(leq));
        assert(sorted_by(v@, leq));
        old(v)@.lemma_sort_by_ensures(leq);
        lemma_sorted_unique(v@, ascending(old(v)@), leq);
    }
}

/// The number of squares in `earlier` that lie below the square `p`.
pub open spec fn below(earlier: Seq<u8>, p: int) -> int
    decreases earlier.len(),
{
    if earlier.len() == 0 {
        0
    } else {
        below(earlier.drop_last(), p) + if earlier.last() < p {
            1int
        } else {
            0int
        }
    }
}

/// The number that the first `m` squares of an ascending `group` of like
/// pieces contribute to the index, where the squares of `earlier` are taken
/// and the first `shift` squares of the board cannot be used. `None` where a
/// square of the group has no place left.
pub open spec fn group_sum(earlier: Seq<u8>, group: Seq<u8>, shift: int, m: int) -> Option<int>
    decreases m,
{
    if m <= 0 {
        Some(0)
    } else {
        match group_sum(earlier, group, shift, m - 1) {
            None => None,
            Some(acc) => {
                let place = group[m - 1] - below(earlier, group[m - 1] as int) - shift;
                if m > 6 || place < 0 || place >= 64 {
                    None
                } else {
                    Some(acc + BINOMIAL[m - 1][place])
                }
            },
        }
    }
}

/// The number of squares among the first `i` of `squares` that lie below `p`.
pub fn count_below(squares: &Vec<u8>, i: usize, p: u8) -> (r: u8)
    requires
        i <= squares@.len(),
        i <= 64,
    ensures
        r == below(squares@.subrange(0, i as int), p as int),
        r <= i,
{
    let mut j: u8 = 0;
    let mut l: usize = 0;
    while l < i
        invariant
            l <= i <= squares@.len(),
            i <= 64,
            j <= l,
            j == below(squares@.subrange(0, l as int), p as int),
        decreases i - l,
    {
        proof {
            let next = squares@.subrange(0, l + 1);
            assert(next.drop_last() =~= squares@.subrange(0, l as int));
        }
        if squares[l] < p {
            j += 1;
        }
        l += 1;
    }
    j
}

/// The number that the group of like pieces on the squares `i` to `i + t` of
/// `squares` contributes to the index.
pub fn group_index(squares: &Vec<u8>, i: usize, t: usize, shift: u8) -> (r: Option<u64>)
    requires
        i + t <= squares@.len() <= 64,
        forall|k: int| 0 <= k < squares@.len() ==> squares@[k] < 64,
    ensures
        r matches Some(s) ==> group_sum(
            squares@.subrange(0, i as int),
            ascending(squares@.subrange(i as int, i + t)),
            shift as int,
            t as int,
        ) == Some(s as int),
        r is None ==> group_sum(
            squares@.subrange(0, i as int),
            ascending(squares@.subrange(i as int, i + t)),
            shift as int,
            t as int,
        ) is None,
        r matches Some(s) ==> s <= 0x8000000 * t,
{
    let mut group: Vec<u8> = Vec::new();
    let mut c: usize = 0;
    while c < t
        invariant
            c <= t,
            i + t <= squares@.len() <= 64,
            group@ =~= squares@.subrange(i as int, i + c),
        decreases t - c,
    {
        group.push(squares[i + c]);
        c += 1;
    }
    sort_squares(&mut group);
    let ghost earlier = squares@.subrange(0, i as int);
    proof {
        let leq = |a: u8, b: u8| a <= b;
        squares@.subrange(i as int, i + t).lemma_sort_by_ensures(leq);
        squares@.subrange(i as int, i + t).to_multiset_ensures();
        group@.to_multiset_ensures();
        assert forall|k: int| 0 <= k < group@.len() implies group@[k] < 64 by {
            assert(group@.to_multiset().count(group@[k]) > 0);
            assert(squares@.subrange(i as int, i + t).contains(group@[k]));
        }
    }
    let mut s: u64 = 0;
    let mut m: usize = 0;
    while m < t
        invariant
            m <= t,
            group@.len() == t,
            i + t <= squares@.len() <= 64,
            earlier == squares@.subrange(0, i as int),
            group@ == ascending(squares@.subrange(i as int, i + t)),
            forall|k: int| 0 <= k < group@.len() ==> group@[k] < 64,
            group_sum(earlier, group@, shift as int, m as int) == Some(s as int),
            s <= 0x8000000 * m,
            m <= 6,
        decreases t - m,
    {
        let p: u8 = group[m];
        let j: u8 = count_below(squares, i, p);
        if m >= 6 || p < j || p - j < shift {
            assert(group_sum(earlier, group@, shift as int, m + 1) is None);
            proof {
                lemma_group_sum_none(earlier, group@, shift as int, m + 1, t as int);
            }
            return None;
        }
        let place: usize = (p - j - shift) as usize;
        proof {
            lemma_binomial_bound(m as int, place as int);
        }
        s = s + BINOMIAL[m][place];
        m += 1;
    }
    Some(s)
}

/// Once a square of a group has no place left, the group has no number.
pub proof fn lemma_group_sum_none(earlier: Seq<u8>, group: Seq<u8>, shift: int, m: int, t: int)
    requires
        group_sum(earlier, group, shift, m) is None,
        m <= t,
    ensures
        group_sum(earlier, group, shift, t) is None,
    decreases t - m,
{
    if m < t {
        lemma_group_sum_none(earlier, group, shift, m, t - 1);
    }
}

/// No entry of the table of binomials is above 2^27.
pub proof fn lemma_binomial_bound(k: int, n: int)
    requires
        0 <= k < 6,
        0 <= n < 64,
    ensures
        BINOMIAL[k][n] <= 0x8000000,
{
    if k == 0 {
        assert(BINOMIAL[0][n] <= 0x8000000);
    } else if k == 1 {
        assert(BINOMIAL[1][n] <= 0x8000000);
    } else if k == 2 {
        assert(BINOMIAL[2][n] <= 0x8000000);
    } else if k == 3 {
        assert(BINOMIAL[3][n] <= 0x8000000);
    } else if k == 4 {
        assert(BINOMIAL[4][n] <= 0x8000000);
    } else {
        assert(BINOMIAL[5][n] <= 0x8000000);
    }
}

/// The mirror image of the square `sq` in the line between the d- and the e-file.
pub open spec fn file_flipped(sq: int) -> int {
    sq + 7 - 2 * (sq % 8)
}

/// The mirror image of the square `sq` in the line between the fourth and the fifth rank.
pub open spec fn rank_flipped(sq: int) -> int {
    sq % 8 + 56 - 8 * (sq / 8)
}

/// Mirroring in a file flips the low three bits of a square, mirroring in a
/// rank the next three.
pub proof fn lemma_flips_are_xor(sq: u8)
    requires
        sq < 64,
    ensures
        file_flipped(sq as int) == sq ^ 7,
        rank_flipped(sq as int) == sq ^ 56,
{
    assert(sq + 7 - 2 * (sq % 8) == sq ^ 7) by (bit_vector)
        requires
            sq < 64,
    ;
    assert(sq % 8 + 56 - 8 * (sq / 8) == sq ^ 56) by (bit_vector)
        requires
            sq < 64,
    ;
}

/// The squares with every file mirrored.
pub open spec fn files_flipped(sq: Seq<u8>) -> Seq<u8> {
    Seq::new(sq.len(), |i: int| file_flipped(sq[i] as int) as u8)
}

/// The squares with every rank mirrored.
pub open spec fn ranks_flipped(sq: Seq<u8>) -> Seq<u8> {
    Seq::new(sq.len(), |i: int| rank_flipped(sq[i] as int) as u8)
}

/// Whether every square is on the board.
pub open spec fn on_board(sq: Seq<u8>) -> bool {
    forall|i: int| 0 <= i < sq.len() ==> sq[i] < 64
}

/// Mirrors every square in the line between the d- and the e-file.
pub fn flip_files(squares: &mut Vec<u8>)
    requires
        on_board(old(squares)@),
    ensures
        final(squares)@ == files_flipped(old(squares)@),
        on_board(final(squares)@),
{
    let n: usize = squares.len();
    let mut i: usize = 0;
    while i < n
        invariant
            i <= n,
            squares@.len() == n,
            old(squares)@.len() == n,
            forall|k: int| 0 <= k < i ==> squares@[k] == file_flipped(old(squares)@[k] as int),
            forall|k: int| i <= k < n ==> squares@[k] == old(squares)@[k],
            on_board(old(squares)@),
        decreases n - i,
    {
        let sq: u8 = squares[i];
        assert(old(squares)@[i as int] < 64);
        squares.set(i, sq + 7 - 2 * (sq % 8));
        i += 1;
    }
    assert(squares@ =~= files_flipped(old(squares)@));
}

/// Mirrors every square in the line between the fourth and the fifth rank.
pub fn flip_ranks(squares: &mut Vec<u8>)
    requires
        on_board(old(squares)@),
    ensures
        final(squares)@ == ranks_flipped(old(squares)@),
        on_board(final(squares)@),
{
    let n: usize = squares.len();
    let mut i: usize = 0;
    while i < n
        invariant
            i <= n,
            squares@.len() == n,
            old(squares)@.len() == n,
            forall|k: int| 0 <= k < i ==> squares@[k] == rank_flipped(old(squares)@[k] as int),
            forall|k: int| i <= k < n ==> squares@[k] == old(squares)@[k],
            on_board(old(squares)@),
        decreases n - i,
    {
        let sq: u8 = squares[i];
        assert(old(squares)@[i as int] < 64);
        squares.set(i, sq % 8 + 56 - 8 * (sq / 8));
        i += 1;
    }
    assert(squares@ =~= ranks_flipped(old(squares)@));
}

/// The index with the groups of like pieces from place `i` on counted in:
/// each group adds its number, weighted by its factor. `None` where a group
/// is empty or runs past the last piece, or the index leaves 64 bits.
pub open spec fn groups_index(
    sq: Seq<u8>,
    norm: Seq<u8>,
    factors: Seq<u64>,
    i: int,
    acc: int,
) -> Option<int>
    decreases (if i < sq.len() {
        sq.len() - i
    } else {
        0int
    }),
{
    if i >= sq.len() || i < 0 {
        Some(acc)
    } else if norm[i] == 0 || i + norm[i] > sq.len() {
        None
    } else {
        match group_sum(
            sq.subrange(0, i),
            ascending(sq.subrange(i, i + norm[i])),
            0,
            norm[i] as int,
        ) {
            None => None,
            Some(s) => if acc + s * factors[i] > u64::MAX {
                None
            } else {
                groups_index(sq, norm, factors, i + norm[i], acc + s * factors[i])
            },
        }
    }
}

/// Counts the groups of like pieces from place `start` on into the index `acc`.
pub fn add_groups(
    squares: &Vec<u8>,
    norm: &[u8; 8],
    factors: &[u64; 8],
    start: usize,
    acc: u64,
) -> (r: Option<u64>)
    requires
        squares@.len() <= 8,
        on_board(squares@),
    ensures
        r is Some <==> groups_index(squares@, norm@, factors@, start as int, acc as int) is Some,
        r matches Some(index) ==> groups_index(
            squares@,
            norm@,
            factors@,
            start as int,
            acc as int,
        ) == Some(index as int),
{
    let n: usize = squares.len();
    let mut i: usize = start;
    let mut index: u64 = acc;
    let ghost goal = groups_index(squares@, norm@, factors@, start as int, acc as int);
    while i < n
        invariant
            n == squares@.len(),
            n <= 8,
            on_board(squares@),
            goal == groups_index(squares@, norm@, factors@, start as int, acc as int),
            groups_index(squares@, norm@, factors@, i as int, index as int) == goal,
        decreases n - i,
    {
        let t: usize = norm[i] as usize;
        if t == 0 || t > n - i {
            return None;
        }
        let s: u64 = match group_index(squares, i, t, 0) {
            Some(s) => s,
            None => {
                return None;
            },
        };
        let f: u64 = factors[i];
        assert(s as u128 * f as u128 <= 0x4000_0000 * 0xFFFF_FFFF_FFFF_FFFF) by (nonlinear_arith)
            requires
                s <= 0x4000_0000,
                f <= 0xFFFF_FFFF_FFFF_FFFF,
        ;
        let next: u128 = index as u128 + s as u128 * f as u128;
        if next > u64::MAX as u128 {
            return None;
        }
        index = next as u64;
        i += t;
    }
    Some(index)
}

/// The place `n` bytes after `c`, if the file reaches that far.
pub open spec fn skip_checked(c: Cursor, n: int) -> Option<Cursor> {
    if c.has(n) {
        Some(c.skip(n))
    } else {
        None
    }
}

/// The size of one of the three tables of a stream: 0 for its index table, 1
/// for its size table, 2 for its data.
pub open spec fn table_size(sizes: Sizes, which: int) -> int {
    if which == 0 {
        sizes.index_table_size as int
    } else if which == 1 {
        sizes.size_table_size as int
    } else {
        sizes.data_table_size as int
    }
}

/// The place where the tables of one kind begin for the stream number `k`:
/// the tables of the streams follow one another from `c` on, and each data
/// table begins at a multiple of 64 bytes.
pub open spec fn table_start(c: Cursor, sizes: Seq<Sizes>, which: int, k: int) -> Option<Cursor>
    decreases k,
{
    let before = if k <= 0 {
        Some(c)
    } else {
        match table_start(c, sizes, which, k - 1) {
            None => None,
            Some(p) => skip_checked(p, table_size(sizes[k - 1], which)),
        }
    };
    match before {
        None => None,
        Some(p) => if which == 2 {
            skip_checked(p, padding(p.at, 64) as int)
        } else {
            Some(p)
        },
    }
}

/// The place after the tables of one kind of the first `n` streams.
pub open spec fn tables_end(c: Cursor, sizes: Seq<Sizes>, which: int, n: int) -> Option<Cursor> {
    if n <= 0 {
        Some(c)
    } else {
        match table_start(c, sizes, which, n - 1) {
            None => None,
            Some(p) => skip_checked(p, table_size(sizes[n - 1], which)),
        }
    }
}

/// The table of one kind of the stream number `k`.
pub open spec fn table_bytes(c: Cursor, sizes: Seq<Sizes>, which: int, k: int) -> Seq<u8> {
    table_start(c, sizes, which, k)->0.rest.take(table_size(sizes[k], which))
}

/// Reads the tables of one kind, one for each stream.
pub fn read_tables(data: &mut DataStream<'_>, sizes: &Vec<Sizes>, which: u8) -> (r: Option<
    Vec<Vec<u8>>,
>)
    requires
        which <= 2,
    ensures
        r is Some <==> tables_end(old(data)@, sizes@, which as int, sizes@.len() as int) is Some,
        r matches Some(tables) ==> {
            &&& tables@.len() == sizes@.len()
            &&& forall|k: int|
                0 <= k < sizes@.len() ==> (#[trigger] tables@[k])@ == table_bytes(
                    old(data)@,
                    sizes@,
                    which as int,
                    k,
                )
            &&& Some(final(data)@) == tables_end(
                old(data)@,
                sizes@,
                which as int,
                sizes@.len() as int,
            )
        },
        final(data)@.at + final(data)@.rest.len() == old(data)@.at + old(data)@.rest.len(),
{
    let n: usize = sizes.len();
    let mut tables: Vec<Vec<u8>> = Vec::new();
    let mut k: usize = 0;
    let ghost start = data@;
    while k < n
        invariant
            k <= n,
            n == sizes@.len(),
            which <= 2,
            start == old(data)@,
            tables@.len() == k,
            Some(data@) == tables_end(start, sizes@, which as int, k as int),
            forall|j: int|
                0 <= j < k ==> (#[trigger] tables@[j])@ == table_bytes(
                    start,
                    sizes@,
                    which as int,
                    j,
                ),
            data@.at + data@.rest.len() == start.at + start.rest.len(),
        decreases n - k,
    {
        let ghost here = data@;
        assert(table_start(start, sizes@, which as int, k as int) == if which == 2 {
            skip_checked(here, padding(here.at, 64) as int)
        } else {
            Some(here)
        });
        if which == 2 {
            let pad: usize = data.padding_to(64);
            if data.len() < pad {
                proof {
                    lemma_tables_end_none(start, sizes@, which as int, k as int, n as int);
                }
                return None;
            }
            data.align_to(64);
        }
        let size: usize = if which == 0 {
            sizes[k].index_table_size
        } else if which == 1 {
            sizes[k].size_table_size
        } else {
            sizes[k].data_table_size
        };
        if data.len() < size {
            proof {
                lemma_tables_end_none(start, sizes@, which as int, k as int, n as int);
            }
            return None;
        }
        let bytes = data.read_array(size);
        tables.push(slice_to_vec(bytes));
        k += 1;
    }
    Some(tables)
}

/// Where the tables of the stream number `k` do not fit, those of the first `n` do not.
pub proof fn lemma_tables_end_none(c: Cursor, sizes: Seq<Sizes>, which: int, k: int, n: int)
    requires
        0 <= k < n,
        tables_end(c, sizes, which, k + 1) is None,
    ensures
        tables_end(c, sizes, which, n) is None,
    decreases n - k,
{
    if k + 1 < n {
        assert(table_start(c, sizes, which, k + 1) is None);
        assert(tables_end(c, sizes, which, k + 2) is None);
        lemma_tables_end_none(c, sizes, which, k + 1, n);
    }
}

/// Attaches to each stream its three tables.
pub fn attach_tables(
    streams: Vec<PairsData>,
    index_tables: Vec<Vec<u8>>,
    size_tables: Vec<Vec<u8>>,
    data_tables: Vec<Vec<u8>>,
) -> (r: Vec<PairsData>)
    requires
        index_tables@.len() == streams@.len(),
        size_tables@.len() == streams@.len(),
        data_tables@.len() == streams@.len(),
    ensures
        r@.len() == streams@.len(),
        forall|k: int|
            0 <= k < streams@.len() ==> (#[trigger] r@[k])@ == (PairsView {
                index_table: index_tables@[k]@,
                size_table: size_tables@[k]@,
                data: data_tables@[k]@,
                ..streams@[k]@
            }),
{
    let mut streams = streams;
    let mut index_tables = index_tables;
    let mut size_tables = size_tables;
    let mut data_tables = data_tables;
    let ghost all = streams@;
    let ghost all_index = index_tables@;
    let ghost all_size = size_tables@;
    let ghost all_data = data_tables@;
    let n: usize = streams.len();
    let mut done: Vec<PairsData> = Vec::new();
    let mut left: usize = n;
    while left > 0
        invariant
            left <= n,
            n == all.len(),
            streams@ == all.take(left as int),
            index_tables@ == all_index.take(left as int),
            size_tables@ == all_size.take(left as int),
            data_tables@ == all_data.take(left as int),
            all_index.len() == n,
            all_size.len() == n,
            all_data.len() == n,
            done@.len() == n - left,
            forall|k: int|
                left <= k < n ==> (#[trigger] done@[k - left])@ == (PairsView {
                    index_table: all_index[k]@,
                    size_table: all_size[k]@,
                    data: all_data[k]@,
                    ..all[k]@
                }),
        decreases left,
    {
        let stream = streams.pop();
        let index_table = index_tables.pop();
        let size_table = size_tables.pop();
        let data_table = data_tables.pop();
        let ghost earlier = done@;
        match (stream, index_table, size_table, data_table) {
            (Some(stream), Some(index_table), Some(size_table), Some(data_table)) => {
                let mut stream = stream;
                stream.attach(index_table, size_table, data_table);
                done.insert(0, stream);
            },
            _ => {},
        }
        left -= 1;
        proof {
            assert(streams@ =~= all.take(left as int));
            assert(index_tables@ =~= all_index.take(left as int));
            assert(size_tables@ =~= all_size.take(left as int));
            assert(data_tables@ =~= all_data.take(left as int));
            assert forall|k: int| left <= k < n implies (#[trigger] done@[k - left])@ == (PairsView {
                index_table: all_index[k]@,
                size_table: all_size[k]@,
                data: all_data[k]@,
                ..all[k]@
            }) by {
                if k > left {
                    assert(done@[k - left] == earlier[k - (left + 1)]);
                }
            }
        }
    }
    proof {
        assert forall|k: int| 0 <= k < n implies (#[trigger] done@[k])@ == (PairsView {
            index_table: all_index[k]@,
            size_table: all_size[k]@,
            data: all_data[k]@,
            ..all[k]@
        }) by {
            assert(done@[k] == done@[k - left]);
        }
    }
    done
}

/// The squares of the pieces from place `i` on, in the order of `pieces`,
/// added to `acc`: the pieces of a kind stand together, on ascending squares.
/// With `flip`, white and black are exchanged; with `mirror`, the ranks are
/// mirrored too. `None` where the board lacks a piece or has one too many.
pub open spec fn gather(
    board: Board,
    pieces: Seq<ColoredPiece>,
    flip: bool,
    mirror: bool,
    men: int,
    i: int,
    acc: Seq<u8>,
) -> Option<Seq<u8>>
    decreases (if i < men {
        men - i
    } else {
        0int
    }),
{
    if i >= men || i < 0 {
        Some(acc)
    } else {
        let found = squares_on(board, pieces[i].side().flipped_if(flip), pieces[i].kind());
        if found.len() == 0 || i + found.len() > men {
            None
        } else {
            gather(
                board,
                pieces,
                flip,
                mirror,
                men,
                i + found.len(),
                acc + (if mirror {
                    ranks_flipped(found)
                } else {
                    found
                }),
            )
        }
    }
}

/// Adds to `squares` the squares of the pieces from place `from` on, until
/// there are `men` of them.
pub fn gather_squares(
    board: &Board,
    pieces: &[ColoredPiece; 8],
    flip: bool,
    mirror: bool,
    men: usize,
    squares: Vec<u8>,
) -> (r: Option<Vec<u8>>)
    requires
        men <= 8,
        squares@.len() <= men,
        on_board(squares@),
    ensures
        r is Some <==> gather(
            *board,
            pieces@,
            flip,
            mirror,
            men as int,
            squares@.len() as int,
            squares@,
        ) is Some,
        r matches Some(all) ==> {
            &&& Some(all@) == gather(
                *board,
                pieces@,
                flip,
                mirror,
                men as int,
                squares@.len() as int,
                squares@,
            )
            &&& all@.len() == men
            &&& on_board(all@)
        },
{
    let mut all = squares;
    while all.len() < men
        invariant
            men <= 8,
            all@.len() <= men,
            on_board(all@),
            gather(*board, pieces@, flip, mirror, men as int, all@.len() as int, all@) == gather(
                *board,
                pieces@,
                flip,
                mirror,
                men as int,
                squares@.len() as int,
                squares@,
            ),
        decreases men - all@.len(),
    {
        let i: usize = all.len();
        let piece: ColoredPiece = pieces[i];
        let mut found = piece_squares(board, piece.color().flip_if(flip), piece.piece());
        if found.len() == 0 || found.len() > men - i {
            return None;
        }
        if mirror {
            flip_ranks(&mut found);
        }
        let ghost before = all@;
        all.append(&mut found);
        assert(on_board(all@)) by {
            assert forall|k: int| 0 <= k < all@.len() implies all@[k] < 64 by {
                if k < before.len() {
                    assert(all@[k] == before[k]);
                }
            }
        }
    }
    Some(all)
}

/// The value that a table stores under `byte`.
pub open spec fn stored_value(byte: Option<u8>) -> Option<Wdl> {
    match byte {
        None => None,
        Some(b) => Wdl::of_rank(b as int),
    }
}

/// The places after the index tables, after the size tables and after the
/// data of the streams of a file.
pub struct TableEnds {
    pub index_end: Cursor,
    pub sizes_end: Cursor,
    pub data_end: Cursor,
}

/// The places after the index tables, after the size tables and after the
/// data of the streams, whose tables begin at `c`.
pub open spec fn tables_at(c: Cursor, sizes: Seq<Sizes>) -> Option<TableEnds> {
    match tables_end(c, sizes, 0, sizes.len() as int) {
        None => None,
        Some(c1) => match tables_end(c1, sizes, 1, sizes.len() as int) {
            None => None,
            Some(c2) => match tables_end(c2, sizes, 2, sizes.len() as int) {
                None => None,
                Some(c3) => Some(TableEnds { index_end: c1, sizes_end: c2, data_end: c3 }),
            },
        },
    }
}

/// The stream `head` with its tables attached: those of the stream number
/// `k`, where the tables of all streams begin at `c`.
pub open spec fn with_tables(c: Cursor, sizes: Seq<Sizes>, k: int, head: PairsView) -> PairsView {
    PairsView {
        index_table: table_bytes(c, sizes, 0, k),
        size_table: table_bytes(tables_at(c, sizes).unwrap().index_end, sizes, 1, k),
        data: table_bytes(tables_at(c, sizes).unwrap().sizes_end, sizes, 2, k),
        ..head
    }
}

/// Reads the tables of all streams and attaches them: first the index tables
/// of all, then the size tables of all, then the data of all.
pub fn read_stream_tables(data: &mut DataStream<'_>, streams: Vec<PairsData>, sizes: &Vec<Sizes>) -> (r:
    Option<Vec<PairsData>>)
    requires
        streams@.len() == sizes@.len(),
    ensures
        r is Some <==> tables_at(old(data)@, sizes@) is Some,
        r matches Some(done) ==> {
            &&& done@.len() == streams@.len()
            &&& forall|k: int|
                0 <= k < streams@.len() ==> (#[trigger] done@[k])@ == with_tables(
                    old(data)@,
                    sizes@,
                    k,
                    streams@[k]@,
                )
            &&& final(data)@ == tables_at(old(data)@, sizes@).unwrap().data_end
        },
        final(data)@.at + final(data)@.rest.len() == old(data)@.at + old(data)@.rest.len(),
{
    let index_tables = match read_tables(data, sizes, 0) {
        Some(tables) => tables,
        None => {
            return None;
        },
    };
    let size_tables = match read_tables(data, sizes, 1) {
        Some(tables) => tables,
        None => {
            return None;
        },
    };
    let data_tables = match read_tables(data, sizes, 2) {
        Some(tables) => tables,
        None => {
            return None;
        },
    };
    let done = attach_tables(streams, index_tables, size_tables, data_tables);
    Some(done)
}

/// The number of pieces from place `j` on, below `men`, that are like the piece at `i`
/// without a break.
pub open spec fn run_length(pieces: Seq<ColoredPiece>, men: int, i: int, j: int) -> nat
    decreases men - j,
{
    if j >= men || pieces[j] != pieces[i] {
        0
    } else {
        1 + run_length(pieces, men, i, j + 1)
    }
}

/// The size of the group of like pieces that starts at place `i`.
pub open spec fn group_size(pieces: Seq<ColoredPiece>, men: int, i: int) -> int {
    1 + run_length(pieces, men, i, i + 1) as int
}

/// `norm` with the sizes of the groups of like pieces from place `i` on filled in.
pub open spec fn norm_from(pieces: Seq<ColoredPiece>, men: int, i: int, norm: Seq<u8>) -> Seq<u8>
    decreases (if i < men {
        men - i
    } else {
        0int
    }),
{
    let t = group_size(pieces, men, i);
    if 0 <= i < men && 0 < t {
        norm_from(pieces, men, i + t, norm.update(i, t as u8))
    } else {
        norm
    }
}

/// A run that holds up to place `j` goes on as `run_length` says.
pub proof fn lemma_run_extends(pieces: Seq<ColoredPiece>, men: int, i: int, j: int)
    requires
        0 <= i <= j <= men,
        forall|k: int| i <= k < j ==> pieces[k] == pieces[i],
    ensures
        i < j ==> group_size(pieces, men, i) == (j - i) + run_length(pieces, men, i, j),
    decreases j - i,
{
    if i + 1 < j {
        lemma_run_extends(pieces, men, i, j - 1);
    }
}

/// Fills in the sizes of the groups of like pieces from place `start` on.
pub fn fill_norm(men: usize, start: usize, pieces: &[ColoredPiece; 8], norm: [u8; 8]) -> (r: [u8; 8])
    requires
        start <= men <= 8,
    ensures
        r@ == norm_from(pieces@, men as int, start as int, norm@),
{
    let mut norm = norm;
    let ghost goal = norm_from(pieces@, men as int, start as int, norm@);
    let mut i: usize = start;
    while i < men
        invariant
            i <= men <= 8,
            norm_from(pieces@, men as int, i as int, norm@) == goal,
        decreases men - i,
    {
        let mut j: usize = i + 1;
        while j < men && pieces[i].encode() == pieces[j].encode()
            invariant
                i < j <= men <= 8,
                forall|k: int| i <= k < j ==> pieces@[k] == pieces@[i as int],
            decreases men - j,
        {
            proof {
                crate::piece::lemma_code_determines_piece(pieces@[i as int], pieces@[j as int]);
            }
            j += 1;
        }
        proof {
            lemma_run_extends(pieces@, men as int, i as int, j as int);
            if j < men {
                crate::piece::lemma_code_determines_piece(pieces@[i as int], pieces@[j as int]);
            }
            assert(run_length(pieces@, men as int, i as int, j as int) == 0);
        }
        norm[i] = (j - i) as u8;
        i = j;
    }
    norm
}

/// One part of a table, as plain values.
pub struct TableView {
    pub pieces: Seq<ColoredPiece>,
    pub norm: Seq<u8>,
    pub factors: Seq<u64>,
    pub pairs: PairsView,
}

/// The low four bits of a byte, or the high four where `high` is set.
pub open spec fn half(byte: u8, high: bool) -> int {
    if high {
        (byte / 16) as int
    } else {
        (byte % 16) as int
    }
}

/// The pieces that a header names for one side to move: the low half of each
/// of the `men` bytes for white to move, the high half for black to move.
pub open spec fn header_pieces(bytes: Seq<u8>, men: int, black: bool) -> Seq<ColoredPiece> {
    Seq::new(
        8,
        |i: int|
            if i < men {
                ColoredPiece::of_code(half(bytes[i], black))
            } else {
                ColoredPiece::WhitePawn
            },
    )
}

/// Whether each of the `men` bytes names a piece, in its low half and, where
/// `split` is set, in its high half too.
pub open spec fn header_pieces_ok(bytes: Seq<u8>, men: int, split: bool) -> bool {
    forall|i: int|
        0 <= i < men ==> ColoredPiece::valid_code(half(#[trigger] bytes[i], false)) && (split
            ==> ColoredPiece::valid_code(half(bytes[i], true)))
}

/// One part of a table before its tables are attached, the sizes of those
/// tables, and the place after its header.
pub struct Side {
    pub table: TableView,
    pub sizes: Sizes,
    pub end: Cursor,
}

/// The sizes of the tables of the parts.
pub open spec fn side_sizes(sides: Seq<Side>) -> Seq<Sizes> {
    Seq::new(sides.len(), |k: int| sides[k].sizes)
}

/// The pieces that the bytes name for one side to move.
pub fn read_pieces(bytes: &[u8], men: usize, black: bool) -> (r: Option<[ColoredPiece; 8]>)
    requires
        men <= 8,
        men <= bytes@.len(),
    ensures
        r is Some <==> forall|i: int|
            0 <= i < men ==> ColoredPiece::valid_code(half(#[trigger] bytes@[i], black)),
        r matches Some(pieces) ==> pieces@ == header_pieces(bytes@, men as int, black),
{
    let mut pieces: [ColoredPiece; 8] = [ColoredPiece::WhitePawn; 8];
    let mut i: usize = 0;
    while i < men
        invariant
            i <= men <= 8,
            men <= bytes@.len(),
            forall|k: int|
                0 <= k < i ==> ColoredPiece::valid_code(half(#[trigger] bytes@[k], black)),
            forall|k: int|
                0 <= k < 8 ==> pieces@[k] == if k < i {
                    ColoredPiece::of_code(half(bytes@[k], black))
                } else {
                    ColoredPiece::WhitePawn
                },
        decreases men - i,
    {
        let code: u8 = if black {
            bytes[i] / 16
        } else {
            bytes[i] % 16
        };
        match ColoredPiece::decode(code) {
            Some(piece) => {
                pieces[i] = piece;
            },
            None => {
                return None;
            },
        }
        i += 1;
    }
    assert(pieces@ =~= header_pieces(bytes@, men as int, black));
    Some(pieces)
}

/// The pieces, group sizes and factors of one part of a table.
pub struct Head {
    pub pieces: [ColoredPiece; 8],
    pub norm: [u8; 8],
    pub factors: [u64; 8],
}

impl Head {
    /// The part with the stream `pairs`.
    pub open spec fn with(self, pairs: PairsView) -> TableView {
        TableView { pieces: self.pieces@, norm: self.norm@, factors: self.factors@, pairs }
    }
}

/// Filling in the group sizes from place `i` on keeps the length of the row
/// and what stands before `i`.
pub proof fn lemma_norm_from_keeps(pieces: Seq<ColoredPiece>, men: int, i: int, norm: Seq<u8>)
    requires
        0 <= i,
        men <= norm.len(),
    ensures
        norm_from(pieces, men, i, norm).len() == norm.len(),
        forall|j: int| 0 <= j < i && j < norm.len() ==> norm_from(pieces, men, i, norm)[j] == norm[j],
    decreases (if i < men {
        men - i
    } else {
        0int
    }),
{
    let t = group_size(pieces, men, i);
    if 0 <= i < men && 0 < t {
        let next = norm.update(i, t as u8);
        lemma_norm_from_keeps(pieces, men, i + t, next);
        assert(norm_from(pieces, men, i, norm) == norm_from(pieces, men, i + t, next));
        assert forall|j: int| 0 <= j < i && j < norm.len() implies norm_from(pieces, men, i, norm)[j]
            == norm[j] by {
            assert(norm_from(pieces, men, i + t, next)[j] == next[j]);
        }
    }
}

/// What a table holds, as plain values: it is laid out for material
/// without pawns or for material with pawns.
pub enum TableLayout {
    Pawnless(pawnless::WdlTableView),
    Pawnful(pawnful::WdlTableView),
}

impl TableLayout {
    /// The value that the table stores for `board`, seen with the colours
    /// exchanged where `color_flip` is set.
    pub open spec fn value_of(self, board: Board, color_flip: bool) -> Option<Wdl> {
        match self {
            TableLayout::Pawnless(table) => table.value_of(board, color_flip),
            TableLayout::Pawnful(table) => table.value_of(board, color_flip),
        }
    }
}

/// The table for the material `m` that the bytes of a file lay out: the
/// magic number, then the layout for material without pawns or the one for
/// material with pawns.
pub open spec fn file_layout(bytes: Seq<u8>, m: Material) -> Option<TableLayout> {
    if bytes.len() < 4 || le32(bytes) != WDL_MAGIC {
        None
    } else if m.pawns() == 0 {
        match pawnless::layout(Cursor { rest: bytes.skip(4), at: 4 }, m) {
            None => None,
            Some(table) => Some(TableLayout::Pawnless(table)),
        }
    } else {
        match pawnful::layout(Cursor { rest: bytes.skip(4), at: 4 }, m) {
            None => None,
            Some(table) => Some(TableLayout::Pawnful(table)),
        }
    }
}

/// The two layouts of a table.
pub enum Variant {
    Pawnless(pawnless::WdlTable),
    Pawnful(pawnful::WdlTable),
}

/// The table of one material.
pub struct WdlTable {
    variant: Variant,
}

impl View for WdlTable {
    type V = TableLayout;

    closed spec fn view(&self) -> TableLayout {
        match self.variant {
            Variant::Pawnless(table) => TableLayout::Pawnless(table@),
            Variant::Pawnful(table) => TableLayout::Pawnful(table@),
        }
    }
}

impl WdlTable {
    #[verifier::type_invariant]
    spec fn well_formed(self) -> bool {
        match self.variant {
            Variant::Pawnless(table) => table.wf(),
            Variant::Pawnful(table) => table.wf(),
        }
    }

    /// Reads the table for `material` from the bytes of its file.
    pub fn load(data: &[u8], material: Material) -> (r: Result<WdlTable, SyzygyError>)
        requires
            material.wf(),
        ensures
            r is Ok <==> file_layout(data@, material) is Some,
            r matches Ok(table) ==> Some(table@) == file_layout(data@, material),
            r matches Err(e) ==> e is NotSyzygy,
    {
        let mut stream = DataStream::new(data);
        if stream.len() < 4 {
            return Err(SyzygyError::NotSyzygy);
        }
        if stream.read_u32() != WDL_MAGIC {
            return Err(SyzygyError::NotSyzygy);
        }
        assert(stream@ == (Cursor { rest: data@.skip(4), at: 4 }));
        if !material.has_pawns() {
            match pawnless::WdlTable::new(&mut stream, material) {
                Some(table) => Ok(WdlTable { variant: Variant::Pawnless(table) }),
                None => Err(SyzygyError::NotSyzygy),
            }
        } else {
            match pawnful::WdlTable::new(&mut stream, material) {
                Some(table) => Ok(WdlTable { variant: Variant::Pawnful(table) }),
                None => Err(SyzygyError::NotSyzygy),
            }
        }
    }

    /// The value that the table stores for `pos`, seen with the colours
    /// exchanged where `color_flip` is set.
    pub fn read(&self, pos: &Board, color_flip: bool) -> (r: Option<Wdl>)
        ensures
            r == self@.value_of(*pos, color_flip),
    {
        proof {
            use_type_invariant(self);
        }
        match &self.variant {
            Variant::Pawnless(table) => table.read(pos, color_flip),
            Variant::Pawnful(table) => table.read(pos, color_flip),
        }
    }
}

} // verus!
