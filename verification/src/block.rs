//! Block writer.
//!
//! Every block brings new code lengths for the main tree. They travel as
//! differences to those of the block before.

use vstd::prelude::*;
use vstd::arithmetic::power2::*;

use crate::bitio::BitWriter;
use crate::bits;
use crate::constants::{
    build_slot_lookup, length_slot, position_slot, BLOCK_TOKEN_LIMIT, LITERAL_SYMBOLS,
    MAIN_SYMBOLS, MAX_MATCH, MIN_MATCH, SLOT_LOOKUP_LEN, TABLE_ONE, TABLE_TWO,
};
use crate::constants;
use crate::error::Result;
use crate::huffman::build::optimal;
use crate::huffman::build::package;
use crate::huffman::build::{build_lengths, canonical_codes, write_code};
use crate::huffman::code;
use crate::huffman::pretree;
use crate::huffman::pretree::{encode_section, Section};
use crate::lz77;
use crate::lz77::Token;

verus! {

/// How a block is coded.
#[derive(Debug, Clone, Copy, PartialEq, Eq, Structural)]
pub enum BlockType {
    /// A new main tree, and all footer bits as they are.
    Verbatim,
}

impl BlockType {
    /// The number in the block header.
    pub fn number(self) -> (n: u32)
        ensures
            n == 2,
    {
        match self {
            BlockType::Verbatim => 2,
        }
    }
}

/// The slot that covers a value.
pub open spec fn slot_of(value: int) -> int {
    choose|slot: int| constants::covers(slot, value)
}

/// The symbol of a token in the main tree.
pub open spec fn symbol_of(t: Token) -> int {
    match t {
        Token::Literal(b) => b as int,
        Token::Match { length, distance } => LITERAL_SYMBOLS + 32 * slot_of(length - MIN_MATCH)
            + slot_of(distance as int),
    }
}

/// A value's place within its slot, as it travels.
pub open spec fn footer_bits(value: int) -> Seq<bool> {
    let slot = slot_of(value);
    bits::bits_of((value - TABLE_TWO@[slot]) as nat, TABLE_ONE@[slot] as nat)
}

/// A token, as it travels.
pub open spec fn token_bits(lengths: Seq<u8>, t: Token) -> Seq<bool> {
    match t {
        Token::Literal(b) => code::code_bits(lengths, b as int),
        Token::Match { length, distance } => code::code_bits(lengths, symbol_of(t)) + footer_bits(
            distance as int,
        ) + footer_bits(length - MIN_MATCH),
    }
}

pub open spec fn tokens_bits(lengths: Seq<u8>, tokens: Seq<Token>) -> Seq<bool>
    decreases tokens.len(),
{
    if tokens.len() == 0 {
        Seq::empty()
    } else {
        tokens_bits(lengths, tokens.drop_last()) + token_bits(lengths, tokens.last())
    }
}

/// How many of the tokens have the symbol.
pub open spec fn symbol_count(tokens: Seq<Token>, s: int) -> nat
    decreases tokens.len(),
{
    if tokens.len() == 0 {
        0
    } else {
        symbol_count(tokens.drop_last(), s) + (if symbol_of(tokens.last()) == s {
            1nat
        } else {
            0nat
        })
    }
}

/// How often each symbol of the main tree occurs in the tokens.
pub open spec fn main_freqs(tokens: Seq<Token>) -> Seq<u32> {
    Seq::new(MAIN_SYMBOLS as nat, |s: int| symbol_count(tokens, s) as u32)
}

/// The code lengths of the main tree of a block.
pub open spec fn block_lengths(tokens: Seq<Token>) -> Seq<u8> {
    package::code_lengths(main_freqs(tokens), 16)
}

/// A number of three bytes, the most significant one first, as it travels.
pub open spec fn size_bits(n: nat) -> Seq<bool> {
    bits::bits_of(n / 65536, 8) + bits::bits_of(n / 256 % 256, 8) + bits::bits_of(n % 256, 8)
}

/// The code lengths of the main tree against those before, as they travel.
pub open spec fn tree_bits(prev: Seq<u8>, curr: Seq<u8>) -> Seq<bool> {
    let n = LITERAL_SYMBOLS as int;
    pretree::encoded_section(Section::Literal, prev.take(n), curr.take(n))
        + pretree::encoded_section(Section::Match, prev.skip(n), curr.skip(n))
}

/// A block, as it travels, where `prev` are the code lengths of the block
/// before.
#[verifier::opaque]
pub open spec fn block_bits(prev: Seq<u8>, tokens: Seq<Token>) -> Seq<bool> {
    let curr = block_lengths(tokens);
    bits::bits_of(2, 3) + size_bits(lz77::source_len(tokens)) + tree_bits(prev, curr)
        + tokens_bits(curr, tokens)
}

/// Tokens as blocks of up to `BLOCK_TOKEN_LIMIT` of them each, as they travel.
pub open spec fn stream_bits(prev: Seq<u8>, tokens: Seq<Token>) -> Seq<bool>
    decreases tokens.len(),
{
    if tokens.len() == 0 {
        Seq::empty()
    } else {
        let n: int = if tokens.len() <= BLOCK_TOKEN_LIMIT {
            tokens.len() as int
        } else {
            BLOCK_TOKEN_LIMIT as int
        };
        block_bits(prev, tokens.take(n)) + stream_bits(
            block_lengths(tokens.take(n)),
            tokens.skip(n),
        )
    }
}

/// Tokens that a block can hold.
pub open spec fn tokens_ok(tokens: Seq<Token>) -> bool {
    &&& forall|i: int| 0 <= i < tokens.len() ==> lz77::token_ok(#[trigger] tokens[i])
    &&& lz77::source_len(tokens) < 0x100_0000
}

pub proof fn lemma_slot_of(slot: int, value: int)
    requires
        constants::covers(slot, value),
    ensures
        slot_of(value) == slot,
{
    constants::lemma_slot_unique(slot_of(value), slot, value);
}

/// Every value below the window size has a slot.
pub proof fn lemma_slot_exists(value: int)
    requires
        0 <= value < 65536,
    ensures
        constants::covers(slot_of(value), value),
        value < 256 ==> slot_of(value) < 16,
{
    constants::lemma_slots_contiguous(31);
    let slot = lemma_find_slot(value, 31);
    lemma_slot_of(slot, value);
    if value < 256 {
        constants::lemma_slots_below(slot, value);
    }
}

proof fn lemma_find_slot(value: int, top: int) -> (slot: int)
    requires
        0 <= top < 32,
        0 <= value < TABLE_TWO@[top] + constants::slot_width(top),
    ensures
        constants::covers(slot, value),
    decreases top,
{
    if value >= TABLE_TWO@[top] {
        top
    } else {
        constants::lemma_slots_contiguous(top - 1);
        lemma_find_slot(value, top - 1)
    }
}

pub proof fn lemma_symbol_of(t: Token)
    requires
        lz77::token_ok(t),
    ensures
        0 <= symbol_of(t) < MAIN_SYMBOLS,
{
    if let Token::Match { length, distance } = t {
        lemma_slot_exists(distance as int);
        lemma_slot_exists(length - MIN_MATCH);
    }
}

pub proof fn lemma_symbol_count(tokens: Seq<Token>, s: int)
    ensures
        symbol_count(tokens, s) <= tokens.len(),
        forall|i: int|
            0 <= i < tokens.len() && symbol_of(#[trigger] tokens[i]) == s ==> symbol_count(
                tokens,
                s,
            ) > 0,
    decreases tokens.len(),
{
    if tokens.len() > 0 {
        lemma_symbol_count(tokens.drop_last(), s);
        assert forall|i: int|
            0 <= i < tokens.len() && symbol_of(#[trigger] tokens[i]) == s implies symbol_count(
            tokens,
            s,
        ) > 0 by {
            if i < tokens.len() - 1 {
                assert(tokens.drop_last()[i] == tokens[i]);
            }
        }
    }
}

pub proof fn lemma_source_len(tokens: Seq<Token>)
    requires
        forall|i: int| 0 <= i < tokens.len() ==> lz77::token_ok(#[trigger] tokens[i]),
    ensures
        tokens.len() <= lz77::source_len(tokens),
    decreases tokens.len(),
{
    if tokens.len() > 0 {
        let front = tokens.drop_last();
        assert forall|i: int| 0 <= i < front.len() implies lz77::token_ok(#[trigger] front[i]) by {
            assert(front[i] == tokens[i]);
        }
        lemma_source_len(front);
        assert(lz77::token_ok(tokens[tokens.len() - 1]));
    }
}

/// As many tokens as a block may have do not stand for too many bytes.
pub proof fn lemma_chunk_ok(tokens: Seq<Token>)
    requires
        tokens.len() <= BLOCK_TOKEN_LIMIT,
        forall|i: int| 0 <= i < tokens.len() ==> lz77::token_ok(#[trigger] tokens[i]),
    ensures
        tokens_ok(tokens),
{
    lemma_source_len_cap(tokens);
}

proof fn lemma_source_len_cap(tokens: Seq<Token>)
    requires
        forall|i: int| 0 <= i < tokens.len() ==> lz77::token_ok(#[trigger] tokens[i]),
    ensures
        lz77::source_len(tokens) <= MAX_MATCH * tokens.len(),
    decreases tokens.len(),
{
    if tokens.len() > 0 {
        let front = tokens.drop_last();
        assert forall|i: int| 0 <= i < front.len() implies lz77::token_ok(#[trigger] front[i]) by {
            assert(front[i] == tokens[i]);
        }
        lemma_source_len_cap(front);
        assert(lz77::token_ok(tokens[tokens.len() - 1]));
    }
}

/// The main tree of a block is a complete code that can write its tokens.
pub proof fn lemma_block_lengths(tokens: Seq<Token>)
    requires
        tokens_ok(tokens),
    ensures
        ({
            let lengths = block_lengths(tokens);
            &&& package::ranking(main_freqs(tokens), 768).len() <= 768
            &&& lengths.len() == MAIN_SYMBOLS
            &&& forall|s: int|
                0 <= s < MAIN_SYMBOLS ==> (#[trigger] lengths[s]) <= 16 && lengths[s]
                    == package::code_length(main_freqs(tokens), 16, s)
            &&& forall|i: int|
                0 <= i < tokens.len() ==> code::has_code(lengths, symbol_of(#[trigger] tokens[i]))
            &&& code::reach(lengths, 16) <= 65536
            &&& tokens.len() > 0 ==> code::complete(lengths)
        }),
{
    let freqs = main_freqs(tokens);
    let lengths = block_lengths(tokens);
    lemma_source_len(tokens);
    package::lemma_ranking(freqs, 768);
    bits::lemma_pow2_small();
    package::lemma_code_lengths(freqs, 16);
    assert forall|i: int| 0 <= i < tokens.len() implies code::has_code(
        lengths,
        symbol_of(#[trigger] tokens[i]),
    ) && freqs[symbol_of(tokens[i])] > 0 by {
        let s = symbol_of(tokens[i]);
        lemma_symbol_of(tokens[i]);
        lemma_symbol_count(tokens, s);
        assert(freqs[s] == symbol_count(tokens, s));
    }
    if tokens.len() > 0 {
        let s = symbol_of(tokens[0]);
        lemma_symbol_of(tokens[0]);
        assert(freqs[s] > 0);
        assert(package::ranking(freqs, 768).contains(s as usize));
    }
}

/// No code of up to sixteen bits writes the symbols of a block in fewer bits than
/// its main tree does.
pub proof fn lemma_block_optimal(tokens: Seq<Token>, other: Seq<u8>)
    requires
        tokens_ok(tokens),
        other.len() == 768,
        forall|s: int|
            0 <= s < 768 && main_freqs(tokens)[s] > 0 ==> 1 <= #[trigger] other[s] <= 16,
        code::reach(other, 16) <= 65536,
    ensures
        optimal::cost(main_freqs(tokens), block_lengths(tokens), 768) <= optimal::cost(
            main_freqs(tokens),
            other,
            768,
        ),
        forall|s: int|
            0 <= s < 768 ==> #[trigger] main_freqs(tokens)[s] == symbol_count(tokens, s),
{
    lemma_block_lengths(tokens);
    lemma_source_len(tokens);
    bits::lemma_pow2_small();
    assert forall|s: int| 0 <= s < 768 implies #[trigger] main_freqs(tokens)[s] == symbol_count(
        tokens,
        s,
    ) by {
        lemma_symbol_count(tokens, s);
    }
    optimal::lemma_optimal(main_freqs(tokens), 16, other);
}

/// The bits of the symbols of tokens, those of the first `k` symbols.
spec fn symbol_bits(tokens: Seq<Token>, lengths: Seq<u8>, k: nat) -> nat
    decreases k,
{
    if k == 0 {
        0
    } else {
        symbol_bits(tokens, lengths, (k - 1) as nat) + symbol_count(tokens, k - 1)
            * lengths[k - 1] as nat
    }
}

proof fn lemma_symbol_bits_step(tokens: Seq<Token>, lengths: Seq<u8>, k: nat)
    requires
        tokens.len() > 0,
        symbol_of(tokens.last()) >= 0,
    ensures
        symbol_bits(tokens, lengths, k) == symbol_bits(tokens.drop_last(), lengths, k) + (
        if symbol_of(tokens.last()) < k {
            lengths[symbol_of(tokens.last())] as nat
        } else {
            0
        }),
    decreases k,
{
    if k > 0 {
        lemma_symbol_bits_step(tokens, lengths, (k - 1) as nat);
        let c = symbol_count(tokens.drop_last(), k - 1);
        let l = lengths[k - 1] as nat;
        assert((c + 1) * l == c * l + l) by (nonlinear_arith);
        assert((c + 0) * l == c * l);
    }
}

proof fn lemma_symbol_bits_none(tokens: Seq<Token>, lengths: Seq<u8>, k: nat)
    requires
        tokens.len() == 0,
    ensures
        symbol_bits(tokens, lengths, k) == 0,
    decreases k,
{
    if k > 0 {
        lemma_symbol_bits_none(tokens, lengths, (k - 1) as nat);
        let l = lengths[k - 1] as nat;
        assert(0 * l == 0);
    }
}

/// The bits of the places within the slots of tokens.
spec fn places_len(tokens: Seq<Token>) -> nat
    decreases tokens.len(),
{
    if tokens.len() == 0 {
        0
    } else {
        places_len(tokens.drop_last()) + (match tokens.last() {
            Token::Literal(_) => 0nat,
            Token::Match { length, distance } => footer_bits(distance as int).len() + footer_bits(
                length - MIN_MATCH,
            ).len(),
        })
    }
}

proof fn lemma_tokens_len(tokens: Seq<Token>, lengths: Seq<u8>)
    requires
        forall|i: int| 0 <= i < tokens.len() ==> lz77::token_ok(#[trigger] tokens[i]),
    ensures
        tokens_bits(lengths, tokens).len() == symbol_bits(tokens, lengths, 768) + places_len(
            tokens,
        ),
    decreases tokens.len(),
{
    if tokens.len() == 0 {
        lemma_symbol_bits_none(tokens, lengths, 768);
    } else {
        let front = tokens.drop_last();
        let t = tokens.last();
        assert forall|i: int| 0 <= i < front.len() implies lz77::token_ok(#[trigger] front[i]) by {
            assert(front[i] == tokens[i]);
        }
        assert(lz77::token_ok(tokens[tokens.len() - 1]));
        lemma_tokens_len(front, lengths);
        lemma_symbol_of(t);
        lemma_symbol_bits_step(tokens, lengths, 768);
        let s = symbol_of(t);
        bits::lemma_bits_len(code::code(lengths, s), lengths[s] as nat);
    }
}

proof fn lemma_symbol_cost(tokens: Seq<Token>, lengths: Seq<u8>, k: nat)
    requires
        tokens_ok(tokens),
        k <= 768,
    ensures
        optimal::cost(main_freqs(tokens), lengths, k) == symbol_bits(tokens, lengths, k),
    decreases k,
{
    if k > 0 {
        lemma_symbol_cost(tokens, lengths, (k - 1) as nat);
        lemma_symbol_count(tokens, k - 1);
        lemma_source_len(tokens);
        assert(main_freqs(tokens)[k - 1] == symbol_count(tokens, k - 1));
    }
}

/// No code of up to sixteen bits writes the tokens of a block in fewer bits than
/// its main tree does.
pub proof fn lemma_tokens_shortest(tokens: Seq<Token>, other: Seq<u8>)
    requires
        tokens_ok(tokens),
        other.len() == 768,
        forall|i: int|
            0 <= i < tokens.len() ==> 1 <= other[symbol_of(#[trigger] tokens[i])] <= 16,
        code::reach(other, 16) <= 65536,
    ensures
        tokens_bits(block_lengths(tokens), tokens).len() <= tokens_bits(other, tokens).len(),
{
    assert forall|s: int| 0 <= s < 768 && main_freqs(tokens)[s] > 0 implies 1
        <= #[trigger] other[s] <= 16 by {
        lemma_symbol_found(tokens, s);
        let i = choose|i: int| 0 <= i < tokens.len() && symbol_of(#[trigger] tokens[i]) == s;
        assert(1 <= other[symbol_of(tokens[i])] <= 16);
    }
    lemma_block_optimal(tokens, other);
    lemma_tokens_len(tokens, other);
    lemma_tokens_len(tokens, block_lengths(tokens));
    lemma_symbol_cost(tokens, other, 768);
    lemma_symbol_cost(tokens, block_lengths(tokens), 768);
}

proof fn lemma_symbol_found(tokens: Seq<Token>, s: int)
    requires
        symbol_count(tokens, s) > 0,
    ensures
        exists|i: int| 0 <= i < tokens.len() && symbol_of(#[trigger] tokens[i]) == s,
    decreases tokens.len(),
{
    let n = tokens.len() - 1;
    if symbol_of(tokens.last()) == s {
        assert(symbol_of(tokens[n]) == s);
    } else {
        let front = tokens.drop_last();
        lemma_symbol_found(front, s);
        let i = choose|i: int| 0 <= i < front.len() && symbol_of(#[trigger] front[i]) == s;
        assert(symbol_of(tokens[i]) == s);
    }
}

/// A block holds 32760 tokens, and only the last one may hold fewer. Each goes on
/// from the code lengths of the one before.
pub proof fn lemma_stream_blocks(prev: Seq<u8>, a: Seq<Token>, b: Seq<Token>)
    requires
        a.len() == 32760 || (0 < a.len() < 32760 && b.len() == 0),
    ensures
        stream_bits(prev, a + b) == block_bits(prev, a) + stream_bits(block_lengths(a), b),
        b.len() == 0 ==> stream_bits(prev, a + b) == block_bits(prev, a),
        stream_bits(prev, Seq::empty()) == Seq::<bool>::empty(),
{
    let all = a + b;
    assert(all.take(a.len() as int) =~= a);
    assert(all.skip(a.len() as int) =~= b);
    if b.len() == 0 {
        assert(stream_bits(block_lengths(a), b) =~= Seq::<bool>::empty());
        assert(block_bits(prev, a) + stream_bits(block_lengths(a), b) =~= block_bits(prev, a));
    }
}

/// A block as it travels: its type 2 in three bits, how many bytes it stands for
/// in three bytes, of which the most significant one comes first, the main tree,
/// and the tokens.
pub proof fn lemma_block_layout(prev: Seq<u8>, tokens: Seq<Token>)
    ensures
        ({
            let n = lz77::source_len(tokens);
            block_bits(prev, tokens) == bits::bits_of(2, 3) + bits::bits_of(n / 65536, 8)
                + bits::bits_of(n / 256 % 256, 8) + bits::bits_of(n % 256, 8) + tree_bits(
                prev,
                block_lengths(tokens),
            ) + tokens_bits(block_lengths(tokens), tokens)
        }),
{
    reveal(block_bits);
    let n = lz77::source_len(tokens);
    assert(block_bits(prev, tokens) =~= bits::bits_of(2, 3) + bits::bits_of(n / 65536, 8)
        + bits::bits_of(n / 256 % 256, 8) + bits::bits_of(n % 256, 8) + tree_bits(
        prev,
        block_lengths(tokens),
    ) + tokens_bits(block_lengths(tokens), tokens));
}

/// The main tree travels as two sections, that of the 256 literals and then that
/// of the 512 matches, each against its own part of the tree before.
pub proof fn lemma_tree_layout(prev: Seq<u8>, curr: Seq<u8>)
    ensures
        tree_bits(prev, curr) == pretree::encoded_section(
            Section::Literal,
            prev.take(256),
            curr.take(256),
        ) + pretree::encoded_section(Section::Match, prev.skip(256), curr.skip(256)),
{
}

/// A match as it travels: its symbol, in whose lower five bits the slot of the
/// distance stands and in whose upper ones that of the length, then the place of
/// the distance in its slot, and then that of the length.
pub proof fn lemma_token_layout(
    lengths: Seq<u8>,
    length: u16,
    distance: u16,
    lslot: int,
    pslot: int,
)
    requires
        constants::covers(lslot, length - 3),
        constants::covers(pslot, distance as int),
    ensures
        token_bits(lengths, Token::Match { length, distance }) == code::code_bits(
            lengths,
            256 + 32 * lslot + pslot,
        ) + bits::bits_of(
            (distance - TABLE_TWO@[pslot]) as nat,
            TABLE_ONE@[pslot] as nat,
        ) + bits::bits_of((length - 3 - TABLE_TWO@[lslot]) as nat, TABLE_ONE@[lslot] as nat),
        forall|b: u8|
            #[trigger] token_bits(lengths, Token::Literal(b)) == code::code_bits(
                lengths,
                b as int,
            ),
{
    lemma_slot_of(lslot, length - 3);
    lemma_slot_of(pslot, distance as int);
}

/// Writes blocks. Keeps the code lengths of the last block, which the next one
/// describes its own against.
pub struct BlockWriter {
    bit_writer: BitWriter,
    main_lengths: Vec<u8>,
    slot_lookup: [u8; SLOT_LOOKUP_LEN],
}

impl BlockWriter {
    pub closed spec fn wf(&self) -> bool {
        &&& self.bit_writer.wf()
        &&& self.main_lengths@.len() == MAIN_SYMBOLS
        &&& constants::is_slot_lookup(self.slot_lookup@)
    }

    /// What the vector held before the first block.
    pub closed spec fn prefix(&self) -> Seq<u8> {
        self.bit_writer.prefix()
    }

    /// All bits written so far.
    pub closed spec fn bits(&self) -> Seq<bool> {
        self.bit_writer.bits()
    }

    /// The code lengths of the last block.
    pub closed spec fn lengths(&self) -> Seq<u8> {
        self.main_lengths@
    }

    pub fn new(writer: Vec<u8>) -> (w: Self)
        ensures
            w.wf(),
            w.prefix() == writer@,
            w.bits() == Seq::<bool>::empty(),
            w.lengths() == Seq::new(MAIN_SYMBOLS as nat, |i: int| 0u8),
    {
        let w = BlockWriter {
            bit_writer: BitWriter::new(writer),
            main_lengths: vec![0u8; MAIN_SYMBOLS],
            slot_lookup: build_slot_lookup(),
        };
        assert(w.lengths() =~= Seq::new(MAIN_SYMBOLS as nat, |i: int| 0u8));
        w
    }

    /// Number of bytes appended so far. Pending bits do not count until their
    /// word is complete.
    pub fn bytes_written(&self) -> (n: u64)
        requires
            self.wf(),
        ensures
            n == 2 * (self.bits().len() / 16),
    {
        self.bit_writer.bytes_written()
    }

    /// The slots of a match: of its length, and of its distance.
    fn match_slots(&self, length: u16, distance: u16) -> (r: (usize, usize))
        requires
            self.wf(),
            MIN_MATCH <= length <= MAX_MATCH,
        ensures
            r.0 == slot_of(length - MIN_MATCH) < 16,
            r.1 == slot_of(distance as int) < 32,
            constants::covers(r.0 as int, length - MIN_MATCH),
            constants::covers(r.1 as int, distance as int),
    {
        let lslot = length_slot(&self.slot_lookup, length as usize);
        proof {
            let i = length - MIN_MATCH;
            assert(self.slot_lookup@[i] < 18);
            lemma_slot_of(lslot as int, i);
            constants::lemma_slots_below(lslot as int, i);
            if distance >= 0x200 {
                assert(self.slot_lookup@[distance as int / 256] < 18);
            }
        }
        let pslot = position_slot(&self.slot_lookup, distance as u32);
        proof {
            lemma_slot_of(pslot as int, distance as int);
        }
        (lslot as usize, pslot as usize)
    }

    /// How often each symbol of the main tree occurs in the tokens.
    fn collect_freqs(&self, tokens: &[Token]) -> (freqs: Vec<u32>)
        requires
            self.wf(),
            tokens_ok(tokens@),
        ensures
            freqs@ == main_freqs(tokens@),
    {
        let mut freqs: Vec<u32> = vec![0u32; MAIN_SYMBOLS];
        let mut i: usize = 0;
        proof {
            lemma_source_len(tokens@);
        }
        while i < tokens.len()
            invariant
                self.wf(),
                tokens_ok(tokens@),
                i <= tokens@.len() < 0x100_0000,
                freqs@.len() == MAIN_SYMBOLS,
                forall|s: int|
                    0 <= s < MAIN_SYMBOLS ==> #[trigger] freqs@[s] == symbol_count(
                        tokens@.take(i as int),
                        s,
                    ) <= i,
            decreases tokens@.len() - i,
        {
            let ghost front = tokens@.take(i as int);
            assert(lz77::token_ok(tokens@[i as int]));
            let sym: usize = match tokens[i] {
                Token::Literal(b) => b as usize,
                Token::Match { length, distance } => {
                    let (lslot, pslot) = self.match_slots(length, distance);
                    LITERAL_SYMBOLS + 32 * lslot + pslot
                },
            };
            let ghost old_freqs = freqs@;
            freqs[sym] = freqs[sym] + 1;
            proof {
                let next = tokens@.take(i + 1);
                assert(sym == symbol_of(tokens@[i as int]));
                assert(next.drop_last() =~= front);
                assert(next.last() == tokens@[i as int]);
                assert forall|s: int| 0 <= s < MAIN_SYMBOLS implies #[trigger] freqs@[s]
                    == symbol_count(next, s) <= i + 1 by {
                    assert(old_freqs[s] == symbol_count(front, s));
                }
            }
            i += 1;
        }
        proof {
            assert(tokens@.take(tokens@.len() as int) =~= tokens@);
            assert(freqs@ =~= main_freqs(tokens@));
        }
        freqs
    }

    /// Write the place of a value within its slot.
    fn write_footer(&mut self, value: u32, slot: usize) -> (r: Result<()>)
        requires
            old(self).wf(),
            slot < 32,
            slot == slot_of(value as int),
            constants::covers(slot as int, value as int),
        ensures
            r is Ok,
            final(self).wf(),
            final(self).prefix() == old(self).prefix(),
            final(self).lengths() == old(self).lengths(),
            final(self).bits() == old(self).bits() + footer_bits(value as int),
    {
        let width = TABLE_ONE[slot] as u32;
        if width > 0 {
            assert(TABLE_ONE@[slot as int] <= 14);
            self.bit_writer.write_bits(value - TABLE_TWO[slot], width)?;
        } else {
            assert(self.bits() =~= self.bits() + footer_bits(value as int));
        }
        Ok(())
    }

    /// Write the tokens with the code of these lengths.
    fn write_tokens(&mut self, lengths: &Vec<u8>, reversed: &Vec<u32>, tokens: &[Token]) -> (r:
        Result<()>)
        requires
            old(self).wf(),
            tokens_ok(tokens@),
            lengths@.len() == MAIN_SYMBOLS == reversed@.len(),
            forall|i: int|
                0 <= i < tokens@.len() ==> code::has_code(
                    lengths@,
                    symbol_of(#[trigger] tokens@[i]),
                ),
            forall|s: int|
                0 <= s < lengths@.len() ==> #[trigger] reversed@[s] == (if code::has_code(
                    lengths@,
                    s,
                ) {
                    bits::reversed(code::code(lengths@, s), lengths@[s] as nat)
                } else {
                    0
                }),
        ensures
            r is Ok,
            final(self).wf(),
            final(self).prefix() == old(self).prefix(),
            final(self).lengths() == old(self).lengths(),
            final(self).bits() == old(self).bits() + tokens_bits(lengths@, tokens@),
    {
        let ghost before = self.bits();
        let mut i: usize = 0;
        assert(before =~= before + tokens_bits(lengths@, tokens@.take(0)));
        while i < tokens.len()
            invariant
                self.wf(),
                self.prefix() == old(self).prefix(),
                self.lengths() == old(self).lengths(),
                i <= tokens@.len(),
                tokens_ok(tokens@),
                lengths@.len() == MAIN_SYMBOLS == reversed@.len(),
                forall|k: int|
                    0 <= k < tokens@.len() ==> code::has_code(
                        lengths@,
                        symbol_of(#[trigger] tokens@[k]),
                    ),
                forall|s: int|
                    0 <= s < lengths@.len() ==> #[trigger] reversed@[s] == (if code::has_code(
                        lengths@,
                        s,
                    ) {
                        bits::reversed(code::code(lengths@, s), lengths@[s] as nat)
                    } else {
                        0
                    }),
                self.bits() == before + tokens_bits(lengths@, tokens@.take(i as int)),
            decreases tokens@.len() - i,
        {
            let ghost start = self.bits();
            let ghost t = tokens@[i as int];
            assert(lz77::token_ok(tokens@[i as int]));
            assert(code::has_code(lengths@, symbol_of(tokens@[i as int])));
            match tokens[i] {
                Token::Literal(b) => {
                    write_code(&mut self.bit_writer, lengths, reversed, b as usize)?;
                },
                Token::Match { length, distance } => {
                    let (lslot, pslot) = self.match_slots(length, distance);
                    let sym: usize = LITERAL_SYMBOLS + 32 * lslot + pslot;
                    write_code(&mut self.bit_writer, lengths, reversed, sym)?;
                    self.write_footer(distance as u32, pslot)?;
                    self.write_footer(length as u32 - MIN_MATCH as u32, lslot)?;
                },
            }
            proof {
                assert(self.bits() =~= start + token_bits(lengths@, t));
                let next = tokens@.take(i + 1);
                assert(next.drop_last() =~= tokens@.take(i as int));
                assert(self.bits() =~= before + tokens_bits(lengths@, next));
            }
            i += 1;
        }
        assert(tokens@.take(tokens@.len() as int) =~= tokens@);
        Ok(())
    }

    /// Write the tokens as one block. No tokens make no block.
    pub fn write_block(&mut self, tokens: &[Token]) -> (r: Result<()>)
        requires
            old(self).wf(),
            tokens_ok(tokens@),
        ensures
            r is Ok,
            final(self).wf(),
            final(self).prefix() == old(self).prefix(),
            if tokens@.len() == 0 {
                &&& final(self).bits() == old(self).bits()
                &&& final(self).lengths() == old(self).lengths()
            } else {
                &&& final(self).bits() == old(self).bits() + block_bits(
                    old(self).lengths(),
                    tokens@,
                )
                &&& final(self).lengths() == block_lengths(tokens@)
            },
    {
        if tokens.len() == 0 {
            return Ok(());
        }
        let ghost before = self.bits();
        let ghost prev = self.lengths();
        let freqs = self.collect_freqs(tokens);
        let size = block_size(tokens);
        proof {
            lemma_block_lengths(tokens@);
            bits::lemma_pow2_small();
        }
        let lengths = build_lengths(&freqs, 16);
        assert(lengths@ =~= block_lengths(tokens@));
        self.bit_writer.write_bits(BlockType::Verbatim.number(), 3)?;
        self.bit_writer.write_bits(size / 65536, 8)?;
        self.bit_writer.write_bits(size / 256 % 256, 8)?;
        self.bit_writer.write_bits(size % 256, 8)?;
        let (old_literals, old_matches) = self.main_lengths.split_at(LITERAL_SYMBOLS);
        let (literals, matches) = lengths.split_at(LITERAL_SYMBOLS);
        proof {
            pretree::lemma_counts_fit(Section::Literal, old_literals@, literals@);
            pretree::lemma_counts_fit(Section::Match, old_matches@, matches@);
        }
        encode_section(&mut self.bit_writer, Section::Literal, old_literals, literals)?;
        encode_section(&mut self.bit_writer, Section::Match, old_matches, matches)?;
        let (_codes, reversed) = canonical_codes(&lengths);
        self.write_tokens(&lengths, &reversed, tokens)?;
        self.main_lengths = lengths;
        proof {
            reveal(block_bits);
            assert(self.bits() =~= before + block_bits(prev, tokens@));
        }
        Ok(())
    }

    /// Fill the last word up and give the vector back, with the number of
    /// bytes appended to it.
    pub fn finish(self) -> (r: Result<(Vec<u8>, u64)>)
        requires
            self.wf(),
        ensures
            r matches Ok((inner, n)) && inner@ == self.prefix() + bits::packed(self.bits()) && n
                == bits::packed(self.bits()).len(),
    {
        self.bit_writer.finish()
    }
}

/// How many bytes the tokens stand for.
fn block_size(tokens: &[Token]) -> (n: u32)
    requires
        tokens_ok(tokens@),
    ensures
        n == lz77::source_len(tokens@),
{
    let mut n: u32 = 0;
    let mut i: usize = 0;
    while i < tokens.len()
        invariant
            tokens_ok(tokens@),
            i <= tokens@.len(),
            n == lz77::source_len(tokens@.take(i as int)),
        decreases tokens@.len() - i,
    {
        proof {
            let next = tokens@.take(i + 1);
            assert(next.drop_last() =~= tokens@.take(i as int));
            lemma_source_len_prefix(tokens@, i + 1);
        }
        n = n + match tokens[i] {
            Token::Literal(_) => 1,
            Token::Match { length, .. } => length as u32,
        };
        i += 1;
    }
    assert(tokens@.take(tokens@.len() as int) =~= tokens@);
    n
}

proof fn lemma_source_len_prefix(tokens: Seq<Token>, k: int)
    requires
        0 <= k <= tokens.len(),
    ensures
        lz77::source_len(tokens.take(k)) <= lz77::source_len(tokens),
    decreases tokens.len() - k,
{
    if k < tokens.len() {
        lemma_source_len_prefix(tokens, k + 1);
        assert(tokens.take(k + 1).drop_last() =~= tokens.take(k));
    } else {
        assert(tokens.take(k) =~= tokens);
    }
}

} // verus!
