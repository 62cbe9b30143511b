//! How long compressed data can get.

use vstd::prelude::*;

use crate::bits;
use crate::block;
use crate::constants::{
    LevelParams, BLOCK_TOKEN_LIMIT, LITERAL_SYMBOLS, MAIN_SYMBOLS, MIN_MATCH, TABLE_ONE, TABLE_TWO,
};
use crate::huffman::build::package;
use crate::huffman::code;
use crate::huffman::pretree;
use crate::huffman::pretree::{PretreeOp, Section};
use crate::lz77;
use crate::lz77::Token;
use crate::roundtrip;

verus! {

proof fn lemma_numbers_len(v: Seq<u8>, width: nat)
    ensures
        pretree::numbers_bits(v, width).len() == v.len() * width,
    decreases v.len(),
{
    if v.len() == 0 {
        assert(0 * width == 0);
    } else {
        lemma_numbers_len(v.drop_last(), width);
        bits::lemma_bits_len(v.last() as nat, width);
        let n = v.len() - 1;
        assert((n + 1) * width == n * width + width) by (nonlinear_arith);
    }
}

/// A step takes at most 31 bits.
proof fn lemma_op_len(section: Section, lengths: Seq<u8>, op: PretreeOp)
    requires
        lengths.len() == 20,
        forall|s: int| 0 <= s < 20 ==> #[trigger] lengths[s] < 16,
        pretree::op_ok(section, lengths, op),
    ensures
        pretree::op_bits(section, lengths, op).len() <= 31,
{
    match op {
        PretreeOp::Single { delta } => {
            bits::lemma_bits_len(code::code(lengths, delta as int), lengths[delta as int] as nat);
        },
        PretreeOp::ZeroRunShort { run } => {
            bits::lemma_bits_len(code::code(lengths, 17), lengths[17] as nat);
            bits::lemma_bits_len((run - section.sym17_base()) as nat, 4);
        },
        PretreeOp::ZeroRunLong { run } => {
            bits::lemma_bits_len(code::code(lengths, 18), lengths[18] as nat);
            bits::lemma_bits_len(
                (run - section.sym18_base()) as nat,
                section.sym18_extra_bits() as nat,
            );
        },
        PretreeOp::SameRun { run, delta } => {
            bits::lemma_bits_len(code::code(lengths, 19), lengths[19] as nat);
            bits::lemma_bits_len((run - section.sym19_base()) as nat, 1);
            bits::lemma_bits_len(code::code(lengths, delta as int), lengths[delta as int] as nat);
        },
    }
}

proof fn lemma_ops_len(section: Section, lengths: Seq<u8>, ops: Seq<PretreeOp>)
    requires
        lengths.len() == 20,
        forall|s: int| 0 <= s < 20 ==> #[trigger] lengths[s] < 16,
        forall|k: int| 0 <= k < ops.len() ==> pretree::op_ok(section, lengths, #[trigger] ops[k]),
    ensures
        pretree::ops_bits(section, lengths, ops).len() <= 31 * ops.len(),
    decreases ops.len(),
{
    if ops.len() > 0 {
        let front = ops.drop_last();
        assert forall|k: int| 0 <= k < front.len() implies pretree::op_ok(
            section,
            lengths,
            #[trigger] front[k],
        ) by {
            assert(front[k] == ops[k]);
        }
        lemma_ops_len(section, lengths, front);
        assert(pretree::op_ok(section, lengths, ops[ops.len() - 1]));
        lemma_op_len(section, lengths, ops.last());
    }
}

/// A section takes at most 80 bits, and 31 more for each code length.
pub proof fn lemma_section_len(section: Section, prev: Seq<u8>, curr: Seq<u8>)
    requires
        prev.len() == curr.len(),
        pretree::counts_fit(section, prev, curr),
    ensures
        pretree::encoded_section(section, prev, curr).len() <= 80 + 31 * curr.len(),
{
    let ops = pretree::ops_from(section, prev, curr, 0);
    let lengths = package::code_lengths(pretree::op_freqs(ops), 15);
    pretree::lemma_pretree(section, prev, curr);
    pretree::lemma_ops_len(section, prev, curr, 0);
    lemma_numbers_len(lengths, 4);
    lemma_ops_len(section, lengths, ops);
}

proof fn lemma_footer_len(value: int)
    requires
        0 <= value < 65536,
    ensures
        block::footer_bits(value).len() <= 14,
{
    block::lemma_slot_exists(value);
    let slot = block::slot_of(value);
    assert(TABLE_ONE@[slot] <= 14);
    bits::lemma_bits_len((value - TABLE_TWO@[slot]) as nat, TABLE_ONE@[slot] as nat);
}

/// A token takes at most 16 bits for each byte that it stands for.
proof fn lemma_token_len(lengths: Seq<u8>, t: Token)
    requires
        lz77::token_ok(t),
        code::has_code(lengths, block::symbol_of(t)),
    ensures
        block::token_bits(lengths, t).len() <= 16 * lz77::token_len(t),
{
    let s = block::symbol_of(t);
    bits::lemma_bits_len(code::code(lengths, s), lengths[s] as nat);
    if let Token::Match { length, distance } = t {
        lemma_footer_len(distance as int);
        lemma_footer_len(length - MIN_MATCH);
    }
}

proof fn lemma_tokens_len(lengths: Seq<u8>, tokens: Seq<Token>)
    requires
        forall|i: int|
            0 <= i < tokens.len() ==> lz77::token_ok(#[trigger] tokens[i]) && code::has_code(
                lengths,
                block::symbol_of(tokens[i]),
            ),
    ensures
        block::tokens_bits(lengths, tokens).len() <= 16 * lz77::source_len(tokens),
    decreases tokens.len(),
{
    if tokens.len() > 0 {
        let front = tokens.drop_last();
        assert forall|i: int| 0 <= i < front.len() implies lz77::token_ok(#[trigger] front[i])
            && code::has_code(lengths, block::symbol_of(front[i])) by {
            assert(front[i] == tokens[i]);
        }
        lemma_tokens_len(lengths, front);
        assert(lz77::token_ok(tokens[tokens.len() - 1]));
        lemma_token_len(lengths, tokens.last());
    }
}

/// A block takes at most 24000 bits, and 16 more for each byte that its tokens
/// stand for.
pub proof fn lemma_block_len(prev: Seq<u8>, tokens: Seq<Token>)
    requires
        prev.len() == MAIN_SYMBOLS,
        block::tokens_ok(tokens),
    ensures
        block::block_bits(prev, tokens).len() <= 24000 + 16 * lz77::source_len(tokens),
{
    reveal(block::block_bits);
    let curr = block::block_lengths(tokens);
    let n = LITERAL_SYMBOLS as int;
    let size = lz77::source_len(tokens);
    block::lemma_block_lengths(tokens);
    pretree::lemma_counts_fit(Section::Literal, prev.take(n), curr.take(n));
    pretree::lemma_counts_fit(Section::Match, prev.skip(n), curr.skip(n));
    lemma_section_len(Section::Literal, prev.take(n), curr.take(n));
    lemma_section_len(Section::Match, prev.skip(n), curr.skip(n));
    bits::lemma_bits_len(2, 3);
    bits::lemma_bits_len(size / 65536, 8);
    bits::lemma_bits_len(size / 256 % 256, 8);
    bits::lemma_bits_len(size % 256, 8);
    lemma_tokens_len(curr, tokens);
}

proof fn lemma_source_len_split(tokens: Seq<Token>, k: int)
    requires
        0 <= k <= tokens.len(),
    ensures
        lz77::source_len(tokens) == lz77::source_len(tokens.take(k)) + lz77::source_len(
            tokens.skip(k),
        ),
    decreases tokens.len() - k,
{
    if k == tokens.len() {
        assert(tokens.take(k) =~= tokens);
        assert(lz77::source_len(tokens.skip(k)) == 0);
    } else {
        lemma_source_len_split(tokens.drop_last(), k);
        assert(tokens.drop_last().take(k) =~= tokens.take(k));
        assert(tokens.drop_last().skip(k) =~= tokens.skip(k).drop_last());
        assert(tokens.skip(k).last() == tokens.last());
    }
}

/// A stream takes at most 24000 bits, and 17 more for each byte that its tokens
/// stand for.
pub proof fn lemma_stream_len(prev: Seq<u8>, tokens: Seq<Token>)
    requires
        prev.len() == MAIN_SYMBOLS,
        forall|i: int| 0 <= i < tokens.len() ==> lz77::token_ok(#[trigger] tokens[i]),
    ensures
        block::stream_bits(prev, tokens).len() <= 24000 + 17 * lz77::source_len(tokens),
    decreases tokens.len(),
{
    if tokens.len() > 0 {
        let n: int = if tokens.len() <= BLOCK_TOKEN_LIMIT {
            tokens.len() as int
        } else {
            BLOCK_TOKEN_LIMIT as int
        };
        let a = tokens.take(n);
        let b = tokens.skip(n);
        assert forall|i: int| 0 <= i < a.len() implies lz77::token_ok(#[trigger] a[i]) by {
            assert(a[i] == tokens[i]);
        }
        assert forall|i: int| 0 <= i < b.len() implies lz77::token_ok(#[trigger] b[i]) by {
            assert(b[i] == tokens[n + i]);
        }
        block::lemma_chunk_ok(a);
        block::lemma_source_len(a);
        lemma_block_len(prev, a);
        lemma_source_len_split(tokens, n);
        if b.len() == 0 {
            assert(block::stream_bits(block::block_lengths(a), b).len() == 0);
        } else {
            lemma_stream_len(block::block_lengths(a), b);
        }
    }
}

/// Compressed data is at most 17 bits for each byte of the data long, and 3002
/// bytes more.
pub proof fn lemma_compressed_len(data: Seq<u8>, level: LevelParams)
    ensures
        8 * roundtrip::compressed(data, level).len() <= 17 * data.len() + 8 * 3002,
{
    reveal(roundtrip::compressed);
    let none = Seq::new(MAIN_SYMBOLS as nat, |i: int| 0u8);
    let tokens = lz77::tokens_from(data, level, 0);
    assert forall|i: int| 0 <= i < tokens.len() implies lz77::token_ok(#[trigger] tokens[i]) by {
        lz77::lemma_tokens_ok(data, level, 0);
    }
    lz77::lemma_tokens_expand(data, level, 0, 1);
    roundtrip::lemma_apply_all_len(Seq::empty(), 1, tokens);
    assert(data.take(0) =~= Seq::<u8>::empty());
    lemma_stream_len(none, tokens);
    bits::lemma_packed(block::stream_bits(none, tokens));
}

} // verus!
