//! The decoder of one pairs-compressed stream: a canonical prefix code over
//! fixed-size blocks, with an index that leads from a position in the
//! decompressed table to the block that holds it.
use crate::stream::{
    be32, be64, le16, le24, le32, padding, read_be32, read_be64, read_le16, read_le32, DataStream,
};
use vstd::prelude::*;
use vstd::slice::slice_to_vec;

verus! {

/// Beyond this depth no symbol of a valid pattern table is nested: a symbol's
/// length fits in a byte and is larger than that of each of its two parts.
pub const MAX_SYMBOL_DEPTH: usize = 256;

/// The 24-bit word of symbol `s` in the pattern table.
pub open spec fn sym_word(sympat: Seq<u8>, s: int) -> int {
    le24(sympat.subrange(3 * s, 3 * s + 3))
}

/// Whether symbol `s` stands for a single byte.
pub open spec fn sym_is_literal(sympat: Seq<u8>, s: int) -> bool {
    sym_word(sympat, s) / 4096 == 0xFFF
}

/// The first of the two symbols that `s` is made of.
pub open spec fn sym_left(sympat: Seq<u8>, s: int) -> int {
    sym_word(sympat, s) % 4096
}

/// The second of the two symbols that `s` is made of.
pub open spec fn sym_right(sympat: Seq<u8>, s: int) -> int {
    sym_word(sympat, s) / 4096
}

/// What the length table has to say of symbol `s`: 0 for a literal, and for a
/// pair one more than the lengths of its two parts together.
pub open spec fn node_valid(sympat: Seq<u8>, symlen: Seq<u8>, s: int) -> bool {
    if sym_is_literal(sympat, s) {
        symlen[s] == 0
    } else {
        &&& sym_left(sympat, s) < symlen.len()
        &&& sym_right(sympat, s) < symlen.len()
        &&& symlen[s] == symlen[sym_left(sympat, s)] + symlen[sym_right(sympat, s)] + 1
    }
}

/// `symlen` gives for every symbol of `sympat` the number of bytes it expands to, less one.
pub open spec fn symlen_valid(sympat: Seq<u8>, symlen: Seq<u8>) -> bool {
    &&& sympat.len() == 3 * symlen.len()
    &&& forall|s: int| 0 <= s < symlen.len() ==> #[trigger] node_valid(sympat, symlen, s)
}

/// Symbol `d` has its length, and so have the parts it is made of.
pub open spec fn node_done(sympat: Seq<u8>, symlen: Seq<u8>, done: Seq<bool>, d: int) -> bool {
    &&& node_valid(sympat, symlen, d)
    &&& !sym_is_literal(sympat, d) ==> done[sym_left(sympat, d)] && done[sym_right(sympat, d)]
}

/// The symbols marked in `done` have their lengths in `symlen`.
pub open spec fn partial_valid(sympat: Seq<u8>, symlen: Seq<u8>, done: Seq<bool>) -> bool {
    &&& sympat.len() == 3 * symlen.len()
    &&& done.len() == symlen.len()
    &&& forall|d: int|
        0 <= d < symlen.len() && done[d] ==> #[trigger] node_done(sympat, symlen, done, d)
}

/// Every length table that is valid for `sympat` agrees with the lengths found so far.
pub proof fn lemma_valid_agrees(
    sympat: Seq<u8>,
    symlen: Seq<u8>,
    done: Seq<bool>,
    t: Seq<u8>,
    d: int,
)
    requires
        partial_valid(sympat, symlen, done),
        symlen_valid(sympat, t),
        0 <= d < symlen.len(),
        done[d],
    ensures
        t[d] == symlen[d],
    decreases symlen[d],
{
    assert(node_done(sympat, symlen, done, d));
    assert(node_valid(sympat, t, d));
    if !sym_is_literal(sympat, d) {
        lemma_valid_agrees(sympat, symlen, done, t, sym_left(sympat, d));
        lemma_valid_agrees(sympat, symlen, done, t, sym_right(sympat, d));
    }
}

/// A pattern table has at most one valid length table.
pub proof fn lemma_symlen_unique(sympat: Seq<u8>, a: Seq<u8>, b: Seq<u8>)
    requires
        symlen_valid(sympat, a),
        symlen_valid(sympat, b),
    ensures
        a == b,
{
    let done = Seq::new(a.len(), |i: int| true);
    assert(partial_valid(sympat, a, done)) by {
        assert forall|d: int| 0 <= d < a.len() && done[d] implies #[trigger] node_done(
            sympat,
            a,
            done,
            d,
        ) by {
            assert(node_valid(sympat, a, d));
        }
    }
    assert forall|d: int| 0 <= d < a.len() implies a[d] == b[d] by {
        lemma_valid_agrees(sympat, a, done, b, d);
    }
    assert(a =~= b);
}

/// Reads three bytes as a little-endian number.
pub fn read_u24(data: [u8; 3]) -> (r: u32)
    ensures
        r == le24(data@),
        r < 0x1000000,
{
    let b0: u32 = data[0] as u32;
    let b1: u32 = data[1] as u32;
    let b2: u32 = data[2] as u32;
    b0 + 256 * b1 + 65536 * b2
}

/// The 24-bit word of symbol `s`.
fn symbol_word(sympat: &[u8], s: usize) -> (r: u32)
    requires
        3 * s + 3 <= sympat@.len(),
    ensures
        r == sym_word(sympat@, s as int),
        r < 0x1000000,
{
    let len: usize = sympat.len();
    assert(3 * s + 3 <= len);
    let word: [u8; 3] = [sympat[3 * s], sympat[3 * s + 1], sympat[3 * s + 2]];
    assert(word@ =~= sympat@.subrange(3 * s, 3 * s + 3));
    read_u24(word)
}

/// Fills in the length of symbol `s` and of every symbol it is made of, as far
/// as `tmp` does not mark them as known, and marks them.
///
/// Gives up, with `false`, where a part lies outside the table, where a length
/// does not fit in a byte, or where the nesting is deeper than `fuel`: in each
/// case no valid length table exists.
pub fn calculate_symlen(
    symlen: &mut Vec<u8>,
    sympat: &[u8],
    s: usize,
    tmp: &mut Vec<bool>,
    fuel: usize,
) -> (ok: bool)
    requires
        partial_valid(sympat@, old(symlen)@, old(tmp)@),
        s < old(symlen)@.len(),
        forall|t: Seq<u8>| #[trigger] symlen_valid(sympat@, t) ==> t[s as int] < fuel,
    ensures
        final(symlen)@.len() == old(symlen)@.len(),
        final(tmp)@.len() == old(tmp)@.len(),
        ok ==> partial_valid(sympat@, final(symlen)@, final(tmp)@),
        ok ==> final(tmp)@[s as int],
        ok ==> forall|d: int|
            0 <= d < old(tmp)@.len() && old(tmp)@[d] ==> final(tmp)@[d] && final(symlen)@[d] == old(
                symlen,
            )@[d],
        ok ==> forall|d: int|
            0 <= d < old(tmp)@.len() && !final(tmp)@[d] ==> final(symlen)@[d] == old(symlen)@[d],
        !ok ==> forall|t: Seq<u8>| !symlen_valid(sympat@, t),
    decreases fuel,
{
    let n: usize = symlen.len();
    if fuel == 0 {
        return false;
    }
    let w: usize = symbol_word(sympat, s) as usize;
    let s2: usize = w / 4096;
    let s1: usize = w % 4096;
    if s2 == 0xFFF {
        symlen.set(s, 0);
        tmp.set(s, true);
        proof {
            if old(tmp)@[s as int] {
                assert(node_done(sympat@, old(symlen)@, old(tmp)@, s as int));
                assert(symlen@ =~= old(symlen)@);
            }
            lemma_set_keeps_partial(sympat@, old(symlen)@, old(tmp)@, s as int, 0);
        }
        return true;
    }
    if s1 >= n || s2 >= n {
        proof {
            assert forall|t: Seq<u8>| !symlen_valid(sympat@, t) by {
                if symlen_valid(sympat@, t) {
                    assert(node_valid(sympat@, t, s as int));
                }
            }
        }
        return false;
    }
    proof {
        assert forall|t: Seq<u8>| #[trigger] symlen_valid(sympat@, t) implies t[s1 as int] < fuel
            - 1 && t[s2 as int] < fuel - 1 by {
            assert(node_valid(sympat@, t, s as int));
        }
    }
    if !tmp[s1] {
        if !calculate_symlen(symlen, sympat, s1, tmp, fuel - 1) {
            return false;
        }
    }
    if !tmp[s2] {
        if !calculate_symlen(symlen, sympat, s2, tmp, fuel - 1) {
            return false;
        }
    }
    let a: u8 = symlen[s1];
    let b: u8 = symlen[s2];
    if a as usize + b as usize + 1 > 255 {
        proof {
            assert forall|t: Seq<u8>| !symlen_valid(sympat@, t) by {
                if symlen_valid(sympat@, t) {
                    lemma_valid_agrees(sympat@, symlen@, tmp@, t, s1 as int);
                    lemma_valid_agrees(sympat@, symlen@, tmp@, t, s2 as int);
                    assert(node_valid(sympat@, t, s as int));
                }
            }
        }
        return false;
    }
    let ghost before = symlen@;
    let ghost marks = tmp@;
    let total: u8 = a + b + 1;
    symlen.set(s, total);
    tmp.set(s, true);
    proof {
        if marks[s as int] {
            assert(node_done(sympat@, before, marks, s as int));
            assert(symlen@ =~= before);
        }
        lemma_set_keeps_partial(sympat@, before, marks, s as int, total);
    }
    true
}

/// Giving symbol `s` its length keeps what was known of the others.
proof fn lemma_set_keeps_partial(
    sympat: Seq<u8>,
    symlen: Seq<u8>,
    done: Seq<bool>,
    s: int,
    value: u8,
)
    requires
        partial_valid(sympat, symlen, done),
        0 <= s < symlen.len(),
        done[s] ==> symlen[s] == value,
        sym_is_literal(sympat, s) ==> value == 0,
        !sym_is_literal(sympat, s) ==> {
            &&& 0 <= sym_left(sympat, s) < symlen.len()
            &&& 0 <= sym_right(sympat, s) < symlen.len()
            &&& done[sym_left(sympat, s)]
            &&& done[sym_right(sympat, s)]
            &&& value == symlen[sym_left(sympat, s)] + symlen[sym_right(sympat, s)] + 1
        },
    ensures
        partial_valid(sympat, symlen.update(s, value), done.update(s, true)),
{
    let symlen2 = symlen.update(s, value);
    let done2 = done.update(s, true);
    assert forall|d: int| 0 <= d < symlen2.len() && done2[d] implies #[trigger] node_done(
        sympat,
        symlen2,
        done2,
        d,
    ) by {
        if d != s {
            assert(node_done(sympat, symlen, done, d));
        }
        if !sym_is_literal(sympat, d) {
            let l = sym_left(sympat, d);
            let r = sym_right(sympat, d);
            if l == s {
                assert(node_done(sympat, symlen, done, d) ==> symlen[l] == value);
            }
            if r == s {
                assert(node_done(sympat, symlen, done, d) ==> symlen[r] == value);
            }
        }
    }
}


/// What a decoder holds, as plain values.
pub struct PairsView {
    /// The number of index bits; 0 marks a stream that stores one value throughout.
    pub index_bits: nat,
    /// The length of the shortest code; in a constant stream, the value it stores.
    pub min_len: nat,
    /// The exponent of the block size.
    pub block_size: nat,
    /// For each code length, two bytes: the first symbol of that length.
    pub offsets: Seq<u8>,
    /// For each symbol, three bytes: a literal, or the two symbols it is made of.
    pub sympat: Seq<u8>,
    /// For each symbol, the number of bytes it expands to, less one.
    pub symlen: Seq<u8>,
    /// For each code length, the smallest code of that length, left-justified in 64 bits.
    pub base: Seq<u64>,
    /// Six bytes for each stretch of `2^index_bits` positions: a block and an offset.
    pub index_table: Seq<u8>,
    /// Two bytes for each block: the number of positions it holds, less one.
    pub size_table: Seq<u8>,
    /// The blocks.
    pub data: Seq<u8>,
}

/// The sizes of the three tables that follow the headers of a file.
#[derive(Default, Debug, Copy, Clone)]
pub struct Sizes {
    pub index_table_size: usize,
    pub size_table_size: usize,
    pub data_table_size: usize,
}

/// The two bytes of entry `i` in a table of little-endian 16-bit numbers.
pub open spec fn entry16(table: Seq<u8>, i: int) -> int {
    le16(table.subrange(2 * i, 2 * i + 2))
}

/// The smallest code of length `min_len + i`, before it is left-justified,
/// where `h` lengths are in use.
pub open spec fn raw_base(offsets: Seq<u8>, h: int, i: int) -> int
    decreases h - i,
{
    if i >= h - 1 {
        0
    } else {
        (raw_base(offsets, h, i + 1) + entry16(offsets, i) - entry16(offsets, i + 1)) / 2
    }
}

/// No step of `raw_base` takes more than there is.
pub open spec fn bases_ok(offsets: Seq<u8>, h: int) -> bool {
    forall|i: int|
        0 <= i < h - 1 ==> #[trigger] raw_base(offsets, h, i + 1) + entry16(offsets, i)
            >= entry16(offsets, i + 1)
}

/// `raw`, a code of `len` bits, left-justified in 64 bits.
pub open spec fn left_justified(raw: int, len: int) -> u64 {
    (raw as u64) << ((64 - len) as u64)
}

/// The left-justified smallest codes of the lengths from `min_len` on.
pub open spec fn code_bases(offsets: Seq<u8>, min_len: int) -> Seq<u64> {
    Seq::new(
        offsets.len() / 2,
        |i: int| left_justified(raw_base(offsets, (offsets.len() / 2) as int, i), min_len + i),
    )
}

impl PairsView {
    /// The length of the longest code.
    pub open spec fn max_len(self) -> int {
        self.min_len + self.base.len() - 1
    }

    /// The number of symbols.
    pub open spec fn num_syms(self) -> int {
        self.symlen.len() as int
    }

    /// What holds of every decoder, whatever tables are attached to it.
    pub open spec fn wf(self) -> bool {
        if self.index_bits == 0 {
            self.min_len <= 255
        } else {
            &&& self.index_bits <= 63
            &&& self.block_size <= 63
            &&& 1 <= self.min_len
            &&& 1 <= self.base.len()
            &&& self.max_len() <= 64
            &&& self.offsets.len() == 2 * self.base.len()
            &&& symlen_valid(self.sympat, self.symlen)
            &&& self.base == code_bases(self.offsets, self.min_len as int)
            &&& self.base[self.base.len() - 1] == 0
        }
    }

    /// Whether the stream can store the byte `b`: it is the one value of a
    /// constant stream, or the byte of a literal symbol.
    pub open spec fn stores(self, b: u8) -> bool {
        if self.index_bits == 0 {
            b == self.min_len
        } else {
            exists|sym: int|
                0 <= sym < self.symlen.len() && #[trigger] self.symlen[sym] == 0 && b
                    == self.sympat[3 * sym]
        }
    }
}

/// The block in entry `main` of the index table.
pub open spec fn index_block(v: PairsView, main: int) -> int {
    le32(v.index_table.subrange(6 * main, 6 * main + 4))
}

/// The offset in entry `main` of the index table.
pub open spec fn index_offset(v: PairsView, main: int) -> int {
    le16(v.index_table.subrange(6 * main + 4, 6 * main + 6))
}

/// From a position `lit` before the start of `block`, the block that holds it
/// and the position within that block.
pub open spec fn walk_back(sizes: Seq<u8>, block: int, lit: int) -> Option<(int, int)>
    decreases block,
{
    if lit >= 0 {
        Some((block, lit))
    } else if block <= 0 || 2 * block > sizes.len() {
        None
    } else {
        walk_back(sizes, block - 1, lit + entry16(sizes, block - 1) + 1)
    }
}

/// From a position `lit` counted from the start of `block`, the block that
/// holds it and the position within that block.
pub open spec fn walk_forward(sizes: Seq<u8>, block: int, lit: int) -> Option<(int, int)>
    decreases sizes.len() - 2 * block,
{
    if block < 0 || 2 * block + 2 > sizes.len() {
        None
    } else if lit <= entry16(sizes, block) {
        Some((block, lit))
    } else {
        walk_forward(sizes, block + 1, lit - entry16(sizes, block) - 1)
    }
}

/// The block that holds the position `lit`, counted from the start of `block`,
/// and the position within it; `None` where the size table ends before it.
pub open spec fn locate(sizes: Seq<u8>, block: int, lit: int) -> Option<(int, int)> {
    if lit < 0 {
        walk_back(sizes, block, lit)
    } else {
        walk_forward(sizes, block, lit)
    }
}

/// The length of the code at the front of `code`: the first length from `l`
/// on whose smallest code is not above it.
pub open spec fn code_length(v: PairsView, code: u64, l: int) -> int
    decreases v.max_len() - l,
{
    if l >= v.max_len() || l < v.min_len || v.base[l - v.min_len] <= code {
        l
    } else {
        code_length(v, code, l + 1)
    }
}

/// The symbol whose code, of length `l`, is at the front of `code`.
pub open spec fn symbol_at(v: PairsView, code: u64, l: int) -> int {
    entry16(v.offsets, l - v.min_len) + (((code - v.base[l - v.min_len]) as u64) >> ((64
        - l) as u64))
}

/// `code` without its first `l` bits.
pub open spec fn shifted_out(code: u64, l: int) -> u64 {
    if l >= 64 {
        0
    } else {
        code << (l as u64)
    }
}

/// The symbol that holds position `lit` of a block, and the position within
/// that symbol. `code` is the 64-bit window on the block's bits, `bitcount`
/// the number of bits that it lacks at its end, `ptr` the place of the next
/// unread byte.
pub open spec fn decode_symbol(v: PairsView, code: u64, bitcount: int, ptr: int, lit: int) -> Option<
    (int, int),
>
    decreases lit,
{
    let l = code_length(v, code, v.min_len as int);
    let sym = symbol_at(v, code, l);
    if sym < 0 || sym >= v.symlen.len() {
        None
    } else if lit < v.symlen[sym] + 1 {
        Some((sym, lit))
    } else {
        let rest = lit - v.symlen[sym] - 1;
        let bits = bitcount + l;
        if bits < 32 {
            decode_symbol(v, shifted_out(code, l), bits, ptr, rest)
        } else if bits - 32 >= 64 || ptr < 0 || ptr + 4 > v.data.len() {
            None
        } else {
            decode_symbol(
                v,
                shifted_out(code, l) | ((be32(v.data.subrange(ptr, ptr + 4)) as u64) << ((bits
                    - 32) as u64)),
                bits - 32,
                ptr + 4,
                rest,
            )
        }
    }
}

/// The literal symbol at position `lit` of what `sym` expands to.
pub open spec fn expand(v: PairsView, sym: int, lit: int) -> int
    decreases v.symlen[sym],
{
    if 0 <= sym < v.symlen.len() && v.symlen[sym] != 0 && !sym_is_literal(v.sympat, sym)
        && node_valid(v.sympat, v.symlen, sym) && 0 <= sym_left(v.sympat, sym) {
        if lit < v.symlen[sym_left(v.sympat, sym)] + 1 {
            expand(v, sym_left(v.sympat, sym), lit)
        } else {
            expand(v, sym_right(v.sympat, sym), lit - v.symlen[sym_left(v.sympat, sym)] - 1)
        }
    } else {
        sym
    }
}

/// The byte that the stream stores at position `index`; `None` where the
/// tables end before the position is reached.
pub open spec fn lookup_value(v: PairsView, index: u64) -> Option<u8> {
    if v.index_bits == 0 {
        Some(v.min_len as u8)
    } else {
        let main = (index >> (v.index_bits as u64)) as int;
        let within = index & (((1u64 << (v.index_bits as u64)) - 1) as u64);
        let half = 1u64 << ((v.index_bits - 1) as u64);
        if 6 * main + 6 > v.index_table.len() {
            None
        } else {
            match locate(
                v.size_table,
                index_block(v, main),
                within - half + index_offset(v, main),
            ) {
                None => None,
                Some((block, lit)) => {
                    let start = block * (1u64 << (v.block_size as u64));
                    if start + 8 > v.data.len() {
                        None
                    } else {
                        match decode_symbol(
                            v,
                            be64(v.data.subrange(start, start + 8)) as u64,
                            0,
                            start + 8,
                            lit,
                        ) {
                            None => None,
                            Some((sym, rest)) => Some(v.sympat[3 * expand(v, sym, rest)]),
                        }
                    }
                },
            }
        }
    }
}

/// Expanding a symbol ends at a literal.
pub proof fn lemma_expand_literal(v: PairsView, sym: int, lit: int)
    requires
        symlen_valid(v.sympat, v.symlen),
        0 <= sym < v.symlen.len(),
    ensures
        0 <= expand(v, sym, lit) < v.symlen.len(),
        v.symlen[expand(v, sym, lit)] == 0,
    decreases v.symlen[sym],
{
    assert(node_valid(v.sympat, v.symlen, sym));
    if v.symlen[sym] != 0 {
        let left = sym_left(v.sympat, sym);
        if lit < v.symlen[left] + 1 {
            lemma_expand_literal(v, left, lit);
        } else {
            lemma_expand_literal(v, sym_right(v.sympat, sym), lit - v.symlen[left] - 1);
        }
    }
}

/// The decoder of one compressed stream.
pub struct PairsData {
    index_bits: usize,
    min_len: usize,
    block_size: usize,
    offsets: Vec<u8>,
    sympat: Vec<u8>,
    symlen: Vec<u8>,
    base: Vec<u64>,
    index_table: Vec<u8>,
    size_table: Vec<u8>,
    data: Vec<u8>,
}

impl View for PairsData {
    type V = PairsView;

    closed spec fn view(&self) -> PairsView {
        PairsView {
            index_bits: self.index_bits as nat,
            min_len: self.min_len as nat,
            block_size: self.block_size as nat,
            offsets: self.offsets@,
            sympat: self.sympat@,
            symlen: self.symlen@,
            base: self.base@,
            index_table: self.index_table@,
            size_table: self.size_table@,
            data: self.data@,
        }
    }
}

/// Whether the header at the front of `b` is that of a constant stream.
pub open spec fn header_constant(b: Seq<u8>) -> bool {
    b[0] >= 128
}

/// The number of code lengths that the header at the front of `b` declares.
pub open spec fn header_lengths(b: Seq<u8>) -> int {
    b[8] - b[9] + 1
}

/// The code offsets in the header at the front of `b`.
pub open spec fn header_offsets(b: Seq<u8>) -> Seq<u8> {
    b.subrange(10, 10 + 2 * header_lengths(b))
}

/// The number of symbols that the header at the front of `b` declares.
pub open spec fn header_num_syms(b: Seq<u8>) -> int {
    le16(b.subrange(10 + 2 * header_lengths(b), 12 + 2 * header_lengths(b)))
}

/// The symbol patterns in the header at the front of `b`.
pub open spec fn header_sympat(b: Seq<u8>) -> Seq<u8> {
    b.subrange(
        12 + 2 * header_lengths(b),
        12 + 2 * header_lengths(b) + 3 * header_num_syms(b),
    )
}

/// The length of the header at the front of `b`, which starts `consumed`
/// bytes into the file: a constant stream has two bytes, any other ends at an
/// even place.
pub open spec fn header_len(b: Seq<u8>, consumed: nat) -> int {
    if header_constant(b) {
        2
    } else {
        12 + 2 * header_lengths(b) + 3 * header_num_syms(b) + padding(
            (consumed + 12 + 2 * header_lengths(b) + 3 * header_num_syms(b)) as nat,
            2,
        )
    }
}

/// The number of entries in the index of a stream over `tb_size` positions.
pub open spec fn index_entries(tb_size: int, index_bits: int) -> int {
    (((tb_size + (1u64 << (index_bits as u64)) - 1) as u64) >> (index_bits as u64)) as int
}

/// The sizes of the tables of the stream whose header is at the front of `b`.
pub open spec fn header_sizes(b: Seq<u8>, tb_size: int) -> Sizes {
    if header_constant(b) {
        Sizes { index_table_size: 0, size_table_size: 0, data_table_size: 0 }
    } else {
        Sizes {
            index_table_size: (6 * index_entries(tb_size, b[2] as int)) as usize,
            size_table_size: (2 * (le32(b.subrange(4, 8)) + b[3])) as usize,
            data_table_size: ((1u64 << (b[1] as u64)) * le32(b.subrange(4, 8))) as usize,
        }
    }
}

/// The sizes that the header declares can be held and added up.
pub open spec fn header_sizes_fit(b: Seq<u8>, tb_size: int) -> bool {
    &&& tb_size + (1u64 << (b[2] as u64)) - 1 <= u64::MAX
    &&& 6 * index_entries(tb_size, b[2] as int) <= usize::MAX
    &&& 2 * (le32(b.subrange(4, 8)) + b[3]) <= usize::MAX
    &&& (1u64 << (b[1] as u64)) * le32(b.subrange(4, 8)) <= usize::MAX
}

/// Whether a stream header stands at the front of `b`, complete and free of contradiction.
pub open spec fn header_ok(b: Seq<u8>, consumed: nat, tb_size: int) -> bool {
    if b.len() < 2 {
        false
    } else if header_constant(b) {
        true
    } else {
        &&& b.len() >= 10
        &&& b[1] <= 63
        &&& 1 <= b[2] <= 63
        &&& 1 <= b[9] <= b[8] <= 64
        &&& b.len() >= 12 + 2 * header_lengths(b)
        &&& b.len() >= header_len(b, consumed)
        &&& header_sizes_fit(b, tb_size)
        &&& bases_ok(header_offsets(b), header_lengths(b))
        &&& exists|t: Seq<u8>| symlen_valid(header_sympat(b), t)
    }
}

/// What the decoder of the stream whose header is at the front of `b` holds
/// before its tables are attached.
pub open spec fn header_view(b: Seq<u8>, wdl: bool) -> PairsView {
    if header_constant(b) {
        PairsView {
            index_bits: 0,
            min_len: if wdl {
                b[1] as nat
            } else {
                0
            },
            block_size: 0,
            offsets: Seq::empty(),
            sympat: Seq::empty(),
            symlen: Seq::empty(),
            base: Seq::empty(),
            index_table: Seq::empty(),
            size_table: Seq::empty(),
            data: Seq::empty(),
        }
    } else {
        PairsView {
            index_bits: b[2] as nat,
            min_len: b[9] as nat,
            block_size: b[1] as nat,
            offsets: header_offsets(b),
            sympat: header_sympat(b),
            symlen: choose|t: Seq<u8>| symlen_valid(header_sympat(b), t),
            base: code_bases(header_offsets(b), b[9] as int),
            index_table: Seq::empty(),
            size_table: Seq::empty(),
            data: Seq::empty(),
        }
    }
}

/// The unshifted smallest codes are 16-bit numbers.
proof fn lemma_raw_base_small(offsets: Seq<u8>, h: int, i: int)
    requires
        bases_ok(offsets, h),
        0 <= i < h,
    ensures
        0 <= raw_base(offsets, h, i) <= 65535,
    decreases h - i,
{
    if i < h - 1 {
        lemma_raw_base_small(offsets, h, i + 1);
        assert(raw_base(offsets, h, i + 1) + entry16(offsets, i) >= entry16(offsets, i + 1));
    }
}

/// The symbol lengths of a pattern table, or `None` where it has none.
fn symbol_lengths(sympat: &[u8], num_syms: usize) -> (r: Option<Vec<u8>>)
    requires
        sympat@.len() == 3 * num_syms,
    ensures
        r matches Some(symlen) ==> symlen_valid(sympat@, symlen@),
        r is None ==> forall|t: Seq<u8>| !symlen_valid(sympat@, t),
{
    let mut tmp: Vec<bool> = vec![false; num_syms];
    let mut symlen: Vec<u8> = vec![0u8; num_syms];
    let mut i: usize = 0;
    while i < num_syms
        invariant
            i <= num_syms,
            symlen@.len() == num_syms,
            partial_valid(sympat@, symlen@, tmp@),
            forall|j: int| 0 <= j < i ==> tmp@[j],
        decreases num_syms - i,
    {
        if !tmp[i] {
            let ghost marks = tmp@;
            if !calculate_symlen(&mut symlen, sympat, i, &mut tmp, MAX_SYMBOL_DEPTH) {
                return None;
            }
        }
        i += 1;
    }
    proof {
        assert forall|s: int| 0 <= s < symlen@.len() implies #[trigger] node_valid(
            sympat@,
            symlen@,
            s,
        ) by {
            assert(node_done(sympat@, symlen@, tmp@, s));
        }
    }
    Some(symlen)
}

/// The left-justified smallest codes for the offsets of a header, or `None`
/// where a step of their reckoning would take more than there is.
fn compute_bases(offsets: &[u8], h: usize, min_len: usize) -> (r: Option<Vec<u64>>)
    requires
        offsets@.len() == 2 * h,
        1 <= h,
        1 <= min_len,
        min_len + h - 1 <= 64,
    ensures
        r is Some <==> bases_ok(offsets@, h as int),
        r matches Some(base) ==> base@ == code_bases(offsets@, min_len as int) && base@[h - 1]
            == 0,
{
    let mut base: Vec<u64> = vec![0u64; h];
    let mut i: usize = h - 1;
    while i > 0
        invariant
            i < h,
            h <= 64,
            offsets@.len() == 2 * h,
            base@.len() == h,
            forall|j: int| i <= j < h ==> #[trigger] base@[j] == raw_base(offsets@, h as int, j),
            forall|j: int| i <= j < h ==> #[trigger] base@[j] <= 65535,
            forall|j: int|
                i <= j < h - 1 ==> #[trigger] raw_base(offsets@, h as int, j + 1) + entry16(
                    offsets@,
                    j,
                ) >= entry16(offsets@, j + 1),
        decreases i,
    {
        i -= 1;
        let a: u64 = read_le16(offsets, 2 * i) as u64;
        let b: u64 = read_le16(offsets, 2 * i + 2) as u64;
        let above: u64 = base[i + 1];
        if above + a < b {
            proof {
                assert(!(raw_base(offsets@, h as int, i + 1) + entry16(offsets@, i as int)
                    >= entry16(offsets@, i + 1)));
            }
            return None;
        }
        base.set(i, (above + a - b) / 2);
    }
    assert(bases_ok(offsets@, h as int));
    let mut k: usize = 0;
    while k < h
        invariant
            k <= h,
            1 <= min_len,
            min_len + h - 1 <= 64,
            base@.len() == h,
            offsets@.len() == 2 * h,
            forall|j: int| k <= j < h ==> #[trigger] base@[j] == raw_base(offsets@, h as int, j),
            forall|j: int|
                0 <= j < k ==> #[trigger] base@[j] == left_justified(
                    raw_base(offsets@, h as int, j),
                    min_len + j,
                ),
            k == h ==> base@[h - 1] == 0,
        decreases h - k,
    {
        let raw: u64 = base[k];
        let shift: u64 = (64 - (min_len + k)) as u64;
        let shifted: u64 = raw << shift;
        proof {
            if k == h - 1 {
                assert(raw == 0);
                assert(0u64 << shift == 0) by (bit_vector);
            }
        }
        base.set(k, shifted);
        k += 1;
    }
    assert(base@ =~= code_bases(offsets@, min_len as int));
    Some(base)
}

impl PairsData {
    #[verifier::type_invariant]
    spec fn well_formed(self) -> bool {
        self@.wf()
    }

    /// Reads the header of a compressed stream over `tb_size` positions and
    /// reports the sizes of its tables, which the caller attaches once it has
    /// read them. On `None` nothing has been read.
    pub fn create(data: &mut DataStream<'_>, tb_size: usize, wdl: bool) -> (r: Option<
        (PairsData, Sizes),
    >)
        ensures
            r is Some <==> header_ok(
                old(data).remaining(),
                old(data).consumed(),
                tb_size as int,
            ),
            r matches Some((pairs, sizes)) ==> {
                &&& pairs@ == header_view(old(data).remaining(), wdl)
                &&& pairs@.wf()
                &&& sizes == header_sizes(old(data).remaining(), tb_size as int)
                &&& final(data).remaining() == old(data).remaining().skip(
                    header_len(old(data).remaining(), old(data).consumed()),
                )
                &&& final(data).consumed() == old(data).consumed() + header_len(
                    old(data).remaining(),
                    old(data).consumed(),
                )
            },
            r is None ==> final(data).remaining() == old(data).remaining(),
            r is None ==> final(data).consumed() == old(data).consumed(),
    {
        let bytes = data.rest();
        let len: usize = data.len();
        let consumed: usize = data.position();
        let ghost b = bytes@;
        if len < 2 {
            return None;
        }
        let flags: u8 = bytes[0];
        if flags >= 128 {
            let value: usize = if wdl {
                bytes[1] as usize
            } else {
                0
            };
            let _ = data.read_array(2);
            let pairs = PairsData {
                index_bits: 0,
                min_len: value,
                block_size: 0,
                offsets: Vec::new(),
                sympat: Vec::new(),
                symlen: Vec::new(),
                base: Vec::new(),
                index_table: Vec::new(),
                size_table: Vec::new(),
                data: Vec::new(),
            };
            assert(pairs@ =~= header_view(b, wdl));
            return Some(
                (pairs, Sizes { index_table_size: 0, size_table_size: 0, data_table_size: 0 }),
            );
        }
        if len < 10 {
            return None;
        }
        let block_size: usize = bytes[1] as usize;
        let index_bits: usize = bytes[2] as usize;
        let extra_blocks: u64 = bytes[3] as u64;
        let real_num_blocks: u64 = read_le32(bytes, 4) as u64;
        let max_len: usize = bytes[8] as usize;
        let min_len: usize = bytes[9] as usize;
        if block_size > 63 || index_bits < 1 || index_bits > 63 || min_len < 1 || max_len
            < min_len || max_len > 64 {
            return None;
        }
        let h: usize = max_len - min_len + 1;
        if len < 12 + 2 * h {
            return None;
        }
        let num_syms: usize = read_le16(bytes, 10 + 2 * h) as usize;
        let raw_len: usize = 12 + 2 * h + 3 * num_syms;
        let pad: usize = (consumed % 2 + raw_len % 2) % 2;
        assert(pad == padding((consumed + raw_len) as nat, 2));
        if len < raw_len + pad {
            return None;
        }
        // the sizes of the tables
        let index_shift: u64 = index_bits as u64;
        let unit: u64 = 1u64 << index_shift;
        assert(unit >= 1) by (bit_vector)
            requires
                unit == 1u64 << index_shift,
                index_shift < 64,
        ;
        let tb: u64 = tb_size as u64;
        if tb > u64::MAX - (unit - 1) {
            return None;
        }
        let entries: u64 = (tb + (unit - 1)) >> index_shift;
        if entries > (usize::MAX / 6) as u64 {
            return None;
        }
        let num_blocks: u64 = real_num_blocks + extra_blocks;
        if num_blocks > (usize::MAX / 2) as u64 {
            return None;
        }
        let block_shift: u64 = block_size as u64;
        let block_unit: u64 = 1u64 << block_shift;
        assert(block_unit as u128 * real_num_blocks as u128 <= 0xFFFF_FFFF_FFFF_FFFF_FFFF_FFFF)
            by (nonlinear_arith)
            requires
                block_unit <= 0xFFFF_FFFF_FFFF_FFFF,
                real_num_blocks <= 0xFFFF_FFFF,
        ;
        let data_size: u128 = block_unit as u128 * real_num_blocks as u128;
        if data_size > usize::MAX as u128 {
            return None;
        }
        let sizes = Sizes {
            index_table_size: 6 * (entries as usize),
            size_table_size: 2 * (num_blocks as usize),
            data_table_size: data_size as usize,
        };
        assert(header_sizes_fit(b, tb_size as int));
        assert(sizes == header_sizes(b, tb_size as int));
        // the code bases
        let offsets = vstd::slice::slice_subrange(bytes, 10, 10 + 2 * h);
        let base = match compute_bases(offsets, h, min_len) {
            Some(base) => base,
            None => {
                return None;
            },
        };
        // the symbol lengths
        let sympat = vstd::slice::slice_subrange(bytes, 12 + 2 * h, raw_len);
        let symlen = match symbol_lengths(sympat, num_syms) {
            Some(symlen) => symlen,
            None => {
                return None;
            },
        };
        proof {
            let chosen = choose|t: Seq<u8>| symlen_valid(header_sympat(b), t);
            lemma_symlen_unique(sympat@, symlen@, chosen);
        }
        let _ = data.read_array(raw_len + pad);
        let pairs = PairsData {
            index_bits,
            min_len,
            block_size,
            offsets: slice_to_vec(offsets),
            sympat: slice_to_vec(sympat),
            symlen,
            base,
            index_table: Vec::new(),
            size_table: Vec::new(),
            data: Vec::new(),
        };
        assert(pairs@ =~= header_view(b, wdl));
        Some((pairs, sizes))
    }

    /// The byte that the stream stores at position `index`, if its tables reach that far.
    pub fn lookup(&self, index: u64) -> (r: Option<u8>)
        ensures
            r == lookup_value(self@, index),
            r matches Some(b) ==> self@.stores(b),
    {
        proof {
            use_type_invariant(self);
        }
        if self.index_bits == 0 {
            return Some(self.min_len as u8);
        }
        let ghost v = self@;
        let index_shift: u64 = self.index_bits as u64;
        let main_index: u64 = index >> index_shift;
        let unit: u64 = 1u64 << index_shift;
        let half: u64 = 1u64 << ((index_shift - 1) as u64);
        assert(unit >= 1 && unit == 2 * half && half <= 0x4000_0000_0000_0000) by (bit_vector)
            requires
                unit == 1u64 << index_shift,
                half == 1u64 << ((index_shift - 1) as u64),
                1 <= index_shift <= 63,
        ;
        let mask: u64 = unit - 1;
        let within: u64 = index & mask;
        assert(within <= mask) by (bit_vector)
            requires
                within == index & mask,
        ;
        if main_index >= (self.index_table.len() / 6) as u64 {
            return None;
        }
        let entry: usize = 6 * (main_index as usize);
        let mut block: usize = read_le32(self.index_table.as_slice(), entry) as usize;
        let offset: i64 = read_le16(self.index_table.as_slice(), entry + 4) as i64;
        assert(block == index_block(v, main_index as int));
        assert(offset == index_offset(v, main_index as int));
        let mut lit_index: i64 = (within as i64 - half as i64) + offset;
        let ghost target = locate(v.size_table, block as int, lit_index as int);
        assert(lookup_value(v, index) == match target {
            None => None,
            Some((block, lit)) => {
                let start = block * (1u64 << (v.block_size as u64));
                if start + 8 > v.data.len() {
                    None
                } else {
                    match decode_symbol(
                        v,
                        be64(v.data.subrange(start, start + 8)) as u64,
                        0,
                        start + 8,
                        lit,
                    ) {
                        None => None,
                        Some((sym, rest)) => Some(v.sympat[3 * expand(v, sym, rest)]),
                    }
                }
            },
        });
        assert(target is None ==> lookup_value(v, index) is None);
        let table_len: usize = self.size_table.len();
        let blocks: usize = table_len / 2;
        if lit_index < 0 {
            while lit_index < 0
                invariant
                    v == self@,
                    target is None ==> lookup_value(v, index) is None,
                    table_len == self.size_table@.len(),
                    blocks == table_len / 2,
                    -0x4000_0000_0000_0000 <= lit_index < 0x10000,
                    walk_back(v.size_table, block as int, lit_index as int) == target,
                decreases block,
            {
                if block == 0 || block > blocks {
                    return None;
                }
                block -= 1;
                lit_index += read_le16(self.size_table.as_slice(), 2 * block) as i64 + 1;
            }
        } else {
            loop
                invariant
                    v == self@,
                    target is None ==> lookup_value(v, index) is None,
                    table_len == self.size_table@.len(),
                    blocks == table_len / 2,
                    0 <= lit_index,
                    walk_forward(v.size_table, block as int, lit_index as int) == target,
                ensures
                    target == Some((block as int, lit_index as int)),
                decreases blocks - block,
            {
                if block >= blocks {
                    return None;
                }
                let size: i64 = read_le16(self.size_table.as_slice(), 2 * block) as i64;
                if lit_index <= size {
                    break ;
                }
                lit_index -= size + 1;
                block += 1;
            }
        }
        assert(target == Some((block as int, lit_index as int)));
        let block_shift: u64 = self.block_size as u64;
        let block_unit: u64 = 1u64 << block_shift;
        assert(block as u128 * block_unit as u128 <= 0xFFFF_FFFF_FFFF_FFFF_FFFF_FFFF_FFFF_FFFF)
            by (nonlinear_arith)
            requires
                block <= 0xFFFF_FFFF_FFFF_FFFF,
                block_unit <= 0xFFFF_FFFF_FFFF_FFFF,
        ;
        let start_wide: u128 = block as u128 * block_unit as u128;
        let data_len: usize = self.data.len();
        if data_len < 8 || start_wide > (data_len - 8) as u128 {
            return None;
        }
        let start: usize = start_wide as usize;
        let mut code: u64 = read_be64(self.data.as_slice(), start);
        let mut ptr: usize = start + 8;
        let mut bitcount: usize = 0;
        let ghost found = decode_symbol(v, code, 0, ptr as int, lit_index as int);
        assert(found is None ==> lookup_value(v, index) is None);
        let num_syms: usize = self.symlen.len();
        let pattern_len: usize = self.sympat.len();
        let h: usize = self.base.len();
        let max_len: usize = self.min_len + h - 1;
        let mut sym: usize = 0;
        loop
            invariant
                v == self@,
                v.wf(),
                v.index_bits != 0,
                found is None ==> lookup_value(v, index) is None,
                num_syms == v.symlen.len(),
                pattern_len == 3 * num_syms,
                h == v.base.len(),
                max_len == v.max_len(),
                data_len == v.data.len(),
                8 <= data_len,
                ptr <= data_len,
                bitcount < 64,
                0 <= lit_index,
                decode_symbol(v, code, bitcount as int, ptr as int, lit_index as int) == found,
            ensures
                sym < num_syms,
                found == Some((sym as int, lit_index as int)),
            decreases lit_index,
        {
            let mut l: usize = self.min_len;
            while l < max_len && self.base[l - self.min_len] > code
                invariant
                    v == self@,
                    h == v.base.len(),
                    max_len == v.max_len(),
                    self.min_len <= l <= max_len,
                    code_length(v, code, l as int) == code_length(v, code, v.min_len as int),
                decreases max_len - l,
            {
                l += 1;
            }
            assert(code_length(v, code, v.min_len as int) == l);
            let floor: u64 = self.base[l - self.min_len];
            assert(floor <= code);
            let first: usize = read_le16(self.offsets.as_slice(), 2 * (l - self.min_len)) as usize;
            let delta: u64 = (code - floor) >> ((64 - l) as u64);
            assert(symbol_at(v, code, l as int) == first + delta);
            if delta >= num_syms as u64 {
                return None;
            }
            let candidate: usize = first + delta as usize;
            if candidate >= num_syms {
                return None;
            }
            let span: i64 = self.symlen[candidate] as i64 + 1;
            if lit_index < span {
                sym = candidate;
                break ;
            }
            lit_index -= span;
            let shifted: u64 = if l >= 64 {
                0
            } else {
                code << (l as u64)
            };
            assert(shifted == shifted_out(code, l as int));
            let bits: usize = bitcount + l;
            if bits < 32 {
                code = shifted;
                bitcount = bits;
            } else {
                if bits - 32 >= 64 || ptr > data_len - 4 {
                    return None;
                }
                let more: u64 = read_be32(self.data.as_slice(), ptr) as u64;
                code = shifted | (more << ((bits - 32) as u64));
                bitcount = bits - 32;
                ptr += 4;
            }
        }
        let ghost first_sym = sym as int;
        let ghost first_lit = lit_index as int;
        while self.symlen[sym] != 0
            invariant
                v == self@,
                v.wf(),
                v.index_bits != 0,
                sym < v.symlen.len(),
                pattern_len == 3 * v.symlen.len(),
                0 <= lit_index,
                expand(v, sym as int, lit_index as int) == expand(v, first_sym, first_lit),
            decreases self.symlen@[sym as int],
        {
            assert(node_valid(v.sympat, v.symlen, sym as int));
            let w: usize = symbol_word(self.sympat.as_slice(), sym) as usize;
            let s1: usize = w % 4096;
            let span: i64 = self.symlen[s1] as i64 + 1;
            if lit_index < span {
                sym = s1;
            } else {
                lit_index -= span;
                sym = w / 4096;
            }
        }
        proof {
            assert(node_valid(v.sympat, v.symlen, sym as int));
            assert(expand(v, sym as int, lit_index as int) == sym);
            lemma_expand_literal(v, first_sym, first_lit);
        }
        Some(self.sympat[3 * sym])
    }

    /// Attaches the three tables of the stream.
    pub fn attach(&mut self, index_table: Vec<u8>, size_table: Vec<u8>, data: Vec<u8>)
        ensures
            final(self)@ == (PairsView {
                index_table: index_table@,
                size_table: size_table@,
                data: data@,
                ..old(self)@
            }),
    {
        proof {
            use_type_invariant(&*self);
        }
        self.index_table = index_table;
        self.size_table = size_table;
        self.data = data;
    }
}

} // verus!
