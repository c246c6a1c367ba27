//! What a compressed stream stands for: every symbol expands to a run of
//! bytes, a block to the runs of its symbols one behind another, and a
//! lookup finds the byte at its position in them.
use crate::pairs::{
    code_length, decode_symbol, expand, index_block, index_offset, locate, lookup_value,
    node_valid, shifted_out, sym_is_literal, sym_left, sym_right, symbol_at, symlen_valid,
    PairsView,
};
use crate::stream::{be32, be64};
use vstd::prelude::*;

verus! {

/// The bytes that the symbol `sym` stands for: its byte if it is a literal,
/// else the bytes of its first part and then those of its second.
pub open spec fn expansion(v: PairsView, sym: int) -> Seq<u8>
    decreases v.symlen[sym],
{
    if 0 <= sym < v.symlen.len() && v.symlen[sym] != 0 && !sym_is_literal(v.sympat, sym)
        && node_valid(v.sympat, v.symlen, sym) && 0 <= sym_left(v.sympat, sym) {
        expansion(v, sym_left(v.sympat, sym)) + expansion(v, sym_right(v.sympat, sym))
    } else {
        seq![v.sympat[3 * sym]]
    }
}

/// A symbol stands for one byte more than its length says, and the literal
/// that is found at a position within it holds the byte at that position.
pub proof fn lemma_expand_finds_byte(v: PairsView, sym: int, lit: int)
    requires
        symlen_valid(v.sympat, v.symlen),
        0 <= sym < v.symlen.len(),
    ensures
        expansion(v, sym).len() == v.symlen[sym] + 1,
        0 <= lit <= v.symlen[sym] ==> expansion(v, sym)[lit] == v.sympat[3 * expand(v, sym, lit)],
    decreases v.symlen[sym],
{
    assert(node_valid(v.sympat, v.symlen, sym));
    if v.symlen[sym] != 0 {
        let left = sym_left(v.sympat, sym);
        let right = sym_right(v.sympat, sym);
        lemma_expand_finds_byte(v, left, lit);
        lemma_expand_finds_byte(v, right, lit - v.symlen[left] - 1);
    }
}

/// The window on the bits of a block after a code of `l` bits has been
/// taken from its front: the window, the number of bits that it lacks, and
/// the place of the next unread byte. The window is filled again with four
/// bytes once it lacks 32 bits; there is none where the data ends before.
pub open spec fn window_after(v: PairsView, code: u64, bitcount: int, ptr: int, l: int) -> Option<
    (u64, int, int),
> {
    if bitcount + l < 32 {
        Some((shifted_out(code, l), bitcount + l, ptr))
    } else if bitcount + l - 32 >= 64 || ptr < 0 || ptr + 4 > v.data.len() {
        None
    } else {
        Some(
            (
                shifted_out(code, l) | ((be32(v.data.subrange(ptr, ptr + 4)) as u64) << ((bitcount
                    + l - 32) as u64)),
                bitcount + l - 32,
                ptr + 4,
            ),
        )
    }
}

/// The bytes that the next `count` symbols of a block stand for, read from
/// the window `code`; there are none where a code is that of no symbol or
/// the data ends between two symbols.
pub open spec fn decoded(v: PairsView, code: u64, bitcount: int, ptr: int, count: nat) -> Option<
    Seq<u8>,
>
    decreases count,
{
    if count == 0 {
        Some(Seq::empty())
    } else if symbol_at(v, code, code_length(v, code, v.min_len as int)) < 0 || symbol_at(
        v,
        code,
        code_length(v, code, v.min_len as int),
    ) >= v.symlen.len() {
        None
    } else if count == 1 {
        Some(expansion(v, symbol_at(v, code, code_length(v, code, v.min_len as int))))
    } else {
        match window_after(v, code, bitcount, ptr, code_length(v, code, v.min_len as int)) {
            None => None,
            Some(next) => match decoded(v, next.0, next.1, next.2, (count - 1) as nat) {
                None => None,
                Some(rest) => Some(
                    expansion(v, symbol_at(v, code, code_length(v, code, v.min_len as int)))
                        + rest,
                ),
            },
        }
    }
}

/// A lookup finds the byte at its position: where the next symbols of a
/// block stand for a run of bytes that reaches the position `lit`, the
/// symbol that the decoder stops at and the literal that it ends with hold
/// the byte at that position of the run.
pub proof fn lemma_decode_finds_byte(
    v: PairsView,
    code: u64,
    bitcount: int,
    ptr: int,
    lit: int,
    count: nat,
)
    requires
        symlen_valid(v.sympat, v.symlen),
        decoded(v, code, bitcount, ptr, count) is Some,
        0 <= lit < decoded(v, code, bitcount, ptr, count)->0.len(),
    ensures
        decode_symbol(v, code, bitcount, ptr, lit) is Some,
        v.sympat[3 * expand(
            v,
            decode_symbol(v, code, bitcount, ptr, lit).unwrap().0,
            decode_symbol(v, code, bitcount, ptr, lit).unwrap().1,
        )] == decoded(v, code, bitcount, ptr, count)->0[lit],
    decreases count,
{
    let l = code_length(v, code, v.min_len as int);
    let sym = symbol_at(v, code, l);
    lemma_expand_finds_byte(v, sym, lit);
    if lit >= v.symlen[sym] + 1 {
        let next = window_after(v, code, bitcount, ptr, l)->0;
        lemma_decode_finds_byte(
            v,
            next.0,
            next.1,
            next.2,
            lit - v.symlen[sym] - 1,
            (count - 1) as nat,
        );
    }
}

/// The block that holds the position `index` of the stream and the place of
/// the position within it, as the index and the size table give them.
pub open spec fn place_of(v: PairsView, index: u64) -> Option<(int, int)> {
    if 6 * ((index >> (v.index_bits as u64)) as int) + 6 > v.index_table.len() {
        None
    } else {
        locate(
            v.size_table,
            index_block(v, (index >> (v.index_bits as u64)) as int),
            (index & (((1u64 << (v.index_bits as u64)) - 1) as u64)) - (1u64 << ((v.index_bits
                - 1) as u64)) + index_offset(v, (index >> (v.index_bits as u64)) as int),
        )
    }
}

/// The bytes that the first `count` symbols of the block number `block` stand for.
pub open spec fn block_bytes(v: PairsView, block: int, count: nat) -> Option<Seq<u8>> {
    if block * (1u64 << (v.block_size as u64)) + 8 > v.data.len() {
        None
    } else {
        decoded(
            v,
            be64(
                v.data.subrange(
                    block * (1u64 << (v.block_size as u64)),
                    block * (1u64 << (v.block_size as u64)) + 8,
                ),
            ) as u64,
            0,
            block * (1u64 << (v.block_size as u64)) + 8,
            count,
        )
    }
}

/// A lookup gives the byte of the decompressed stream: where the index
/// leads to place `lit` of a block, and the symbols of the block stand for a
/// run of bytes that reaches the place, the lookup gives the byte at that
/// place of the run.
pub proof fn lemma_lookup_finds_byte(v: PairsView, index: u64, count: nat)
    requires
        v.index_bits != 0,
        symlen_valid(v.sympat, v.symlen),
        place_of(v, index) is Some,
        block_bytes(v, place_of(v, index).unwrap().0, count) is Some,
        0 <= place_of(v, index).unwrap().1 < block_bytes(
            v,
            place_of(v, index).unwrap().0,
            count,
        ).unwrap().len(),
    ensures
        lookup_value(v, index) == Some(
            block_bytes(v, place_of(v, index).unwrap().0, count).unwrap()[place_of(
                v,
                index,
            ).unwrap().1],
        ),
{
    let block = place_of(v, index).unwrap().0;
    let lit = place_of(v, index).unwrap().1;
    let start = block * (1u64 << (v.block_size as u64));
    lemma_decode_finds_byte(
        v,
        be64(v.data.subrange(start, start + 8)) as u64,
        0,
        start + 8,
        lit,
        count,
    );
}

} // verus!
