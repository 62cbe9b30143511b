//! What the writer wrote, the decoder gives back.

use vstd::prelude::*;
use vstd::arithmetic::power2::*;

use crate::bits;
use crate::block;
use crate::constants::{
    LevelParams, BLOCK_TOKEN_LIMIT, LITERAL_SYMBOLS, MAIN_SYMBOLS, MIN_MATCH, TABLE_ONE, TABLE_TWO,
};
use crate::decoder;
use crate::decoder::State;
use crate::error::Error;
use crate::huffman::code;
use crate::huffman::decode;
use crate::huffman::pretree;
use crate::huffman::pretree::Section;
use crate::lz77;
use crate::lz77::Token;

verus! {

/// What is left to read when only these bits are.
pub open spec fn ahead(b: Seq<bool>) -> bits::Input {
    bits::Input { bits: b, odd: false }
}

/// What is left to read when these bits are, and perhaps half a word behind them.
pub open spec fn beyond(b: Seq<bool>, odd: bool) -> bits::Input {
    bits::Input { bits: b, odd }
}

/// The state after tokens that were all of the current block.
pub open spec fn after_tokens_with(
    st: State,
    tokens: Seq<Token>,
    rest: Seq<bool>,
    odd: bool,
) -> State {
    let (history, last) = lz77::apply_all(st.history, st.last, tokens);
    State { history, last, remaining: 0, input: beyond(rest, odd), ..st }
}

/// The state after tokens that were all of the current block.
pub open spec fn after_tokens(st: State, tokens: Seq<Token>, rest: Seq<bool>) -> State {
    let (history, last) = lz77::apply_all(st.history, st.last, tokens);
    State { history, last, remaining: 0, input: ahead(rest), ..st }
}

/// The footer of a slot comes back.
proof fn lemma_read_footer(st: State, value: int, rest: Seq<bool>, odd: bool)
    requires
        odd ==> rest.len() >= 12,
        st.method != 3,
        0 <= value < 65536,
    ensures
        ({
            let slot = block::slot_of(value);
            &&& 0 <= slot < 32
            &&& TABLE_TWO@[slot] <= value
            &&& decoder::read_footer(
                st,
                TABLE_ONE@[slot] as nat,
                beyond(block::footer_bits(value) + rest, odd),
            ) == (Ok::<nat, Error>((value - TABLE_TWO@[slot]) as nat), beyond(rest, odd))
            &&& bits::read_number(
                beyond(block::footer_bits(value) + rest, odd),
                TABLE_ONE@[slot] as nat,
            ) == (Ok::<nat, Error>((value - TABLE_TWO@[slot]) as nat), beyond(rest, odd))
        }),
{
    let slot = block::slot_of(value);
    block::lemma_slot_exists(value);
    bits::lemma_read_number(
        (value - TABLE_TWO@[slot]) as nat,
        TABLE_ONE@[slot] as nat,
        rest,
        odd,
    );
}

/// The rest of a match comes back.
proof fn lemma_read_match(
    st: State,
    length: u16,
    distance: u16,
    rest: Seq<bool>,
    room: nat,
    odd: bool,
)
    requires
        odd ==> rest.len() >= 12,
        st.method != 3,
        lz77::token_ok(Token::Match { length, distance }),
        length <= st.remaining,
        length <= room,
    ensures
        ({
            let t = Token::Match { length, distance };
            let lslot = block::slot_of(length - MIN_MATCH);
            decoder::read_match(
                st,
                lslot,
                distance as nat,
                beyond(block::footer_bits(length - MIN_MATCH) + rest, odd),
                room,
            ) == (
                Ok::<(), Error>(()),
                (State {
                    history: lz77::apply(st.history, st.last, t).0,
                    last: lz77::apply(st.history, st.last, t).1,
                    remaining: (st.remaining - length) as nat,
                    input: beyond(rest, odd),
                    ..st
                }),
            )
        }),
{
    lemma_read_footer(st, length - MIN_MATCH, rest, odd);
}

/// The symbol of a match tells its slots apart.
proof fn lemma_match_symbol(length: u16, distance: u16)
    requires
        lz77::token_ok(Token::Match { length, distance }),
    ensures
        ({
            let m = block::symbol_of(Token::Match { length, distance }) - LITERAL_SYMBOLS;
            &&& 0 <= m < 512
            &&& m % 32 == block::slot_of(distance as int)
            &&& m / 32 == block::slot_of(length - MIN_MATCH)
        }),
{
    block::lemma_slot_exists(length - MIN_MATCH);
    block::lemma_slot_exists(distance as int);
}

/// A token comes back.
proof fn lemma_read_token(st: State, t: Token, rest: Seq<bool>, room: nat, odd: bool)
    requires
        odd ==> rest.len() >= 12,
        st.method != 3,
        lz77::token_ok(t),
        st.table == st.main,
        code::complete(st.main),
        code::has_code(st.main, block::symbol_of(t)),
        st.input == beyond(block::token_bits(st.main, t) + rest, odd),
        lz77::token_len(t) <= st.remaining,
        lz77::token_len(t) <= room,
    ensures
        decoder::read_token(st, room) == (
            Ok::<(), Error>(()),
            (State {
                history: lz77::apply(st.history, st.last, t).0,
                last: lz77::apply(st.history, st.last, t).1,
                remaining: (st.remaining - lz77::token_len(t)) as nat,
                input: beyond(rest, odd),
                ..st
            }),
        ),
{
    reveal(decoder::read_token);
    let s = block::symbol_of(t);
    code::lemma_reach_monotonic(st.main, 12, 16);
    code::lemma_reach_monotonic(st.main, st.main[s] as nat, 16);
    match t {
        Token::Literal(b) => {
            decode::lemma_read_symbol(st.main, 12, s, rest, odd);
        },
        Token::Match { length, distance } => {
            let far = block::footer_bits(length - MIN_MATCH) + rest;
            let near = block::footer_bits(distance as int) + far;
            assert(block::token_bits(st.main, t) + rest =~= code::code_bits(st.main, s) + near);
            decode::lemma_read_symbol(st.main, 12, s, near, odd);
            lemma_match_symbol(length, distance);
            lemma_read_footer(st, distance as int, far, odd);
            lemma_read_match(st, length, distance, rest, room, odd);
        },
    }
}

proof fn lemma_tokens_split(lengths: Seq<u8>, t: Token, rest: Seq<Token>)
    ensures
        block::tokens_bits(lengths, seq![t] + rest) == block::token_bits(lengths, t)
            + block::tokens_bits(lengths, rest),
        lz77::source_len(seq![t] + rest) == lz77::token_len(t) + lz77::source_len(rest),
    decreases rest.len(),
{
    let all = seq![t] + rest;
    if rest.len() == 0 {
        assert(all.drop_last() =~= Seq::<Token>::empty());
        assert(rest =~= Seq::<Token>::empty());
        assert(block::tokens_bits(lengths, Seq::empty()) =~= Seq::<bool>::empty());
        assert(lz77::source_len(Seq::empty()) == 0);
        assert(block::tokens_bits(lengths, all) =~= block::token_bits(lengths, t)
            + block::tokens_bits(lengths, rest));
    } else {
        lemma_tokens_split(lengths, t, rest.drop_last());
        assert(all.drop_last() =~= seq![t] + rest.drop_last());
        assert(block::tokens_bits(lengths, all) =~= block::token_bits(lengths, t)
            + block::tokens_bits(lengths, rest));
    }
}

/// The tokens of a block come back.
proof fn lemma_run_tokens(st: State, tokens: Seq<Token>, rest: Seq<bool>, room: nat, odd: bool)
    requires
        odd ==> rest.len() >= 12,
        st.method != 3,
        forall|i: int| 0 <= i < tokens.len() ==> lz77::token_ok(#[trigger] tokens[i]),
        st.table == st.main,
        code::complete(st.main),
        forall|i: int|
            0 <= i < tokens.len() ==> code::has_code(
                st.main,
                block::symbol_of(#[trigger] tokens[i]),
            ),
        st.input == beyond(block::tokens_bits(st.main, tokens) + rest, odd),
        st.remaining == lz77::source_len(tokens),
    ensures
        decoder::run(st, lz77::source_len(tokens) + room) == decoder::run(
            after_tokens_with(st, tokens, rest, odd),
            room,
        ),
    decreases tokens.len(),
{
    reveal_with_fuel(decoder::run, 1);
    if tokens.len() == 0 {
        assert(block::tokens_bits(st.main, tokens) + rest =~= rest);
        assert(after_tokens_with(st, tokens, rest, odd) =~= st);
    } else {
        let t = tokens[0];
        let tail = tokens.drop_first();
        assert(tokens =~= seq![t] + tail);
        lemma_tokens_split(st.main, t, tail);
        let after = block::tokens_bits(st.main, tail) + rest;
        assert(block::tokens_bits(st.main, tokens) + rest =~= block::token_bits(st.main, t)
            + after);
        assert(lz77::token_ok(tokens[0]));
        assert(code::has_code(st.main, block::symbol_of(tokens[0])));
        let all = lz77::source_len(tokens) + room;
        lemma_read_token(st, t, after, all, odd);
        let next = decoder::read_token(st, all).1;
        lemma_apply_len(st.history, st.last, t);
        assert forall|i: int| 0 <= i < tail.len() implies lz77::token_ok(#[trigger] tail[i])
            && code::has_code(st.main, block::symbol_of(tail[i])) by {
            assert(tail[i] == tokens[i + 1]);
        }
        lemma_run_tokens(next, tail, rest, room, odd);
        assert(after_tokens_with(next, tail, rest, odd) =~= after_tokens_with(
            st,
            tokens,
            rest,
            odd,
        ));
    }
}

/// A token adds as many bytes as it stands for.
pub proof fn lemma_apply_len(history: Seq<u8>, last: nat, t: Token)
    requires
        lz77::token_ok(t),
    ensures
        lz77::apply(history, last, t).0.len() == history.len() + lz77::token_len(t),
        lz77::token_len(t) >= 1,
{
    if let Token::Match { length, distance } = t {
        let d = if distance == 0 {
            last
        } else {
            distance as nat
        };
        decoder::lemma_repeat(history, d, length as nat);
    }
}

/// A number of three bytes comes back.
proof fn lemma_read_size_with(n: nat, rest: Seq<bool>, odd: bool)
    requires
        odd ==> rest.len() >= 12,
        n < 0x100_0000,
    ensures
        decoder::read_size(beyond(block::size_bits(n) + rest, odd)) == (
            Ok::<nat, Error>(n),
            beyond(rest, odd),
        ),
{
    bits::lemma_pow2_small();
    let a = n / 65536;
    let b = n / 256 % 256;
    let c = n % 256;
    let i2 = bits::bits_of(c, 8) + rest;
    let i1 = bits::bits_of(b, 8) + i2;
    assert(block::size_bits(n) + rest =~= bits::bits_of(a, 8) + i1);
    bits::lemma_read_number(a, 8, i1, odd);
    bits::lemma_read_number(b, 8, i2, odd);
    bits::lemma_read_number(c, 8, rest, odd);
}

/// A number of three bytes comes back.
pub proof fn lemma_read_size(n: nat, rest: Seq<bool>)
    requires
        n < 0x100_0000,
    ensures
        decoder::read_size(ahead(block::size_bits(n) + rest)) == (
            Ok::<nat, Error>(n),
            ahead(rest),
        ),
{
    lemma_read_size_with(n, rest, false);
}

/// The code lengths of a main tree come back.
proof fn lemma_read_main_with(
    method: nat,
    prev: Seq<u8>,
    curr: Seq<u8>,
    rest: Seq<bool>,
    odd: bool,
)
    requires
        odd ==> rest.len() >= 12,
        method != 1,
        prev.len() == curr.len() == MAIN_SYMBOLS,
        forall|i: int| 0 <= i < curr.len() ==> #[trigger] curr[i] <= 16,
        code::complete(curr),
    ensures
        decoder::read_main(method, prev, beyond(block::tree_bits(prev, curr) + rest, odd)) == (
            Ok::<(), Error>(()),
            curr,
            beyond(rest, odd),
        ),
{
    let n = LITERAL_SYMBOLS as int;
    let second = pretree::encoded_section(Section::Match, prev.skip(n), curr.skip(n)) + rest;
    let first = pretree::encoded_section(Section::Literal, prev.take(n), curr.take(n));
    assert(block::tree_bits(prev, curr) + rest =~= first + second);
    pretree::lemma_counts_fit(Section::Literal, prev.take(n), curr.take(n));
    pretree::lemma_counts_fit(Section::Match, prev.skip(n), curr.skip(n));
    pretree::lemma_section_round_trip(Section::Literal, prev.take(n), curr.take(n), second, odd);
    pretree::lemma_section_round_trip(Section::Match, prev.skip(n), curr.skip(n), rest, odd);
    assert(curr.take(n) + curr.skip(n) =~= curr);
    code::lemma_reach_monotonic(curr, 12, 16);
}

/// The code lengths of a main tree come back.
pub proof fn lemma_read_main(method: nat, prev: Seq<u8>, curr: Seq<u8>, rest: Seq<bool>)
    requires
        method != 1,
        prev.len() == curr.len() == MAIN_SYMBOLS,
        forall|i: int| 0 <= i < curr.len() ==> #[trigger] curr[i] <= 16,
        code::complete(curr),
    ensures
        decoder::read_main(method, prev, ahead(block::tree_bits(prev, curr) + rest)) == (
            Ok::<(), Error>(()),
            curr,
            ahead(rest),
        ),
{
    lemma_read_main_with(method, prev, curr, rest, false);
}

/// The state after a block.
pub open spec fn after_block_with(
    st: State,
    tokens: Seq<Token>,
    rest: Seq<bool>,
    odd: bool,
) -> State {
    let main = block::block_lengths(tokens);
    after_tokens_with(State { main, table: main, method: 2, ..st }, tokens, rest, odd)
}

/// The state after a block.
pub open spec fn after_block(st: State, tokens: Seq<Token>, rest: Seq<bool>) -> State {
    let main = block::block_lengths(tokens);
    after_tokens(State { main, table: main, method: 2, ..st }, tokens, rest)
}

/// A block that was written comes back: the decoder takes its tokens in, and
/// goes on behind it.
proof fn lemma_block_round_trip_with(
    st: State,
    tokens: Seq<Token>,
    rest: Seq<bool>,
    room: nat,
    odd: bool,
)
    requires
        odd ==> rest.len() >= 12,
        block::tokens_ok(tokens),
        tokens.len() > 0,
        st.remaining == 0,
        st.main.len() == MAIN_SYMBOLS,
        st.input == beyond(block::block_bits(st.main, tokens) + rest, odd),
    ensures
        decoder::run(st, lz77::source_len(tokens) + room) == decoder::run(
            after_block_with(st, tokens, rest, odd),
            room,
        ),
{
    let curr = block::block_lengths(tokens);
    let size = lz77::source_len(tokens);
    block::lemma_block_lengths(tokens);
    block::lemma_source_len(tokens);
    bits::lemma_pow2_small();
    let i3 = block::tokens_bits(curr, tokens) + rest;
    let i2 = block::tree_bits(st.main, curr) + i3;
    let i1 = block::size_bits(size) + i2;
    assert(block::block_bits(st.main, tokens) + rest == bits::bits_of(2, 3) + i1) by {
        reveal(block::block_bits);
        assert(block::block_bits(st.main, tokens) + rest =~= bits::bits_of(2, 3) + i1);
    }
    bits::lemma_read_number(2, 3, i1, odd);
    lemma_read_size_with(size, i2, odd);
    lemma_read_main_with(2, st.main, curr, i3, odd);
    let opened = State {
        main: curr,
        table: curr,
        method: 2,
        remaining: size,
        input: beyond(i3, odd),
        ..st
    };
    assert(decoder::read_header(st) == (Ok::<(), Error>(()), opened)) by {
        reveal(decoder::read_body);
    }
    lemma_run_tokens(opened, tokens, rest, room, odd);
    let all = size + room;
    assert(decoder::run(st, all) == decoder::run(opened, all)) by {
        reveal_with_fuel(decoder::run, 1);
    }
    assert(after_tokens_with(opened, tokens, rest, odd) =~= after_block_with(
        st,
        tokens,
        rest,
        odd,
    ));
}

/// A block that was written comes back: the decoder takes its tokens in, and
/// goes on behind it.
pub proof fn lemma_block_round_trip(
    st: State,
    tokens: Seq<Token>,
    rest: Seq<bool>,
    room: nat,
)
    requires
        block::tokens_ok(tokens),
        tokens.len() > 0,
        st.remaining == 0,
        st.main.len() == MAIN_SYMBOLS,
        st.input == ahead(block::block_bits(st.main, tokens) + rest),
    ensures
        decoder::run(st, lz77::source_len(tokens) + room) == decoder::run(
            after_block(st, tokens, rest),
            room,
        ),
{
    lemma_block_round_trip_with(st, tokens, rest, room, false);
}

proof fn lemma_apply_concat(history: Seq<u8>, last: nat, a: Seq<Token>, b: Seq<Token>)
    ensures
        lz77::apply_all(history, last, a + b) == lz77::apply_all(
            lz77::apply_all(history, last, a).0,
            lz77::apply_all(history, last, a).1,
            b,
        ),
    decreases a.len(),
{
    if a.len() == 0 {
        assert(a + b =~= b);
    } else {
        let (h, l) = lz77::apply(history, last, a[0]);
        lemma_apply_concat(h, l, a.drop_first(), b);
        assert((a + b).drop_first() =~= a.drop_first() + b);
    }
}

/// Tokens add as many bytes as they stand for.
pub proof fn lemma_apply_all_len(history: Seq<u8>, last: nat, tokens: Seq<Token>)
    requires
        forall|i: int| 0 <= i < tokens.len() ==> lz77::token_ok(#[trigger] tokens[i]),
    ensures
        lz77::apply_all(history, last, tokens).0.len() == history.len() + lz77::source_len(tokens),
    decreases tokens.len(),
{
    if tokens.len() > 0 {
        let tail = tokens.drop_first();
        let (h, l) = lz77::apply(history, last, tokens[0]);
        assert(lz77::token_ok(tokens[0]));
        lemma_apply_len(history, last, tokens[0]);
        assert forall|i: int| 0 <= i < tail.len() implies lz77::token_ok(#[trigger] tail[i]) by {
            assert(tail[i] == tokens[i + 1]);
        }
        lemma_apply_all_len(h, l, tail);
        assert(tokens =~= seq![tokens[0]] + tail);
        lemma_tokens_split(Seq::empty(), tokens[0], tail);
    }
}

/// A stream of blocks that was written comes back: the decoder takes all its
/// tokens in.
proof fn lemma_stream_round_trip_with(st: State, tokens: Seq<Token>, rest: Seq<bool>, odd: bool)
    requires
        odd ==> rest.len() >= 12,
        forall|i: int| 0 <= i < tokens.len() ==> lz77::token_ok(#[trigger] tokens[i]),
        st.remaining == 0,
        st.main.len() == MAIN_SYMBOLS,
        st.input == beyond(block::stream_bits(st.main, tokens) + rest, odd),
    ensures
        ({
            let (r, after) = decoder::run(st, lz77::source_len(tokens));
            &&& r == Ok::<(), Error>(())
            &&& after.history == lz77::apply_all(st.history, st.last, tokens).0
        }),
    decreases tokens.len(),
{
    if tokens.len() == 0 {
        reveal_with_fuel(decoder::run, 1);
    }
    if tokens.len() > 0 {
        let n: int = if tokens.len() <= BLOCK_TOKEN_LIMIT {
            tokens.len() as int
        } else {
            BLOCK_TOKEN_LIMIT as int
        };
        let a = tokens.take(n);
        let b = tokens.skip(n);
        assert(tokens =~= a + b);
        assert forall|i: int| 0 <= i < a.len() implies lz77::token_ok(#[trigger] a[i]) by {
            assert(a[i] == tokens[i]);
        }
        assert forall|i: int| 0 <= i < b.len() implies lz77::token_ok(#[trigger] b[i]) by {
            assert(b[i] == tokens[i + n]);
        }
        block::lemma_chunk_ok(a);
        let lengths = block::block_lengths(a);
        let behind = block::stream_bits(lengths, b) + rest;
        assert(block::stream_bits(st.main, tokens) + rest =~= block::block_bits(st.main, a)
            + behind);
        lemma_block_round_trip_with(st, a, behind, lz77::source_len(b), odd);
        let next = after_block_with(st, a, behind, odd);
        block::lemma_block_lengths(a);
        lemma_stream_round_trip_with(next, b, rest, odd);
        lemma_apply_concat(st.history, st.last, a, b);
        lemma_apply_all_len(Seq::empty(), 1, a);
        lemma_apply_all_len(Seq::empty(), 1, b);
        lemma_apply_all_len(Seq::empty(), 1, tokens);
        lemma_source_concat(a, b);
    }
}

/// A stream of blocks that was written comes back: the decoder takes all its
/// tokens in.
pub proof fn lemma_stream_round_trip(st: State, tokens: Seq<Token>, rest: Seq<bool>)
    requires
        forall|i: int| 0 <= i < tokens.len() ==> lz77::token_ok(#[trigger] tokens[i]),
        st.remaining == 0,
        st.main.len() == MAIN_SYMBOLS,
        st.input == ahead(block::stream_bits(st.main, tokens) + rest),
    ensures
        ({
            let (r, after) = decoder::run(st, lz77::source_len(tokens));
            &&& r == Ok::<(), Error>(())
            &&& after.history == lz77::apply_all(st.history, st.last, tokens).0
        }),
{
    lemma_stream_round_trip_with(st, tokens, rest, false);
}

proof fn lemma_source_concat(a: Seq<Token>, b: Seq<Token>)
    ensures
        lz77::source_len(a + b) == lz77::source_len(a) + lz77::source_len(b),
    decreases b.len(),
{
    if b.len() == 0 {
        assert(a + b =~= a);
    } else {
        lemma_source_concat(a, b.drop_last());
        assert((a + b).drop_last() =~= a + b.drop_last());
    }
}

/// The stream that data is compressed to.
#[verifier::opaque]
pub open spec fn compressed(data: Seq<u8>, level: LevelParams) -> Seq<u8> {
    let none = Seq::new(MAIN_SYMBOLS as nat, |i: int| 0u8);
    bits::packed(block::stream_bits(none, lz77::tokens_from(data, level, 0)))
}

/// Data that was compressed comes back.
pub proof fn lemma_round_trip(data: Seq<u8>, level: LevelParams)
    ensures
        decoder::decoded(compressed(data, level), data.len()) == Ok::<Seq<u8>, Error>(data),
{
    reveal(compressed);
    let none = Seq::new(MAIN_SYMBOLS as nat, |i: int| 0u8);
    let tokens = lz77::tokens_from(data, level, 0);
    let b = block::stream_bits(none, tokens);
    let rest = bits::zeros(bits::padding(b.len()));
    bits::lemma_packed(b);
    assert forall|i: int| 0 <= i < tokens.len() implies lz77::token_ok(#[trigger] tokens[i]) by {
        lz77::lemma_tokens_ok(data, level, 0);
    }
    lz77::lemma_tokens_expand(data, level, 0, 1);
    lemma_apply_all_len(Seq::empty(), 1, tokens);
    assert(data.take(0) =~= Seq::<u8>::empty());
    let st = decoder::initial(ahead(b + rest));
    lemma_stream_round_trip(st, tokens, rest);
}

/// Data that was compressed comes back whatever stands behind it. Only a single
/// byte, which is half a word, may make the end of the stream unreadable.
pub proof fn lemma_trailing_bytes(data: Seq<u8>, level: LevelParams, extra: Seq<u8>)
    requires
        extra.len() != 1,
    ensures
        decoder::decoded(compressed(data, level) + extra, data.len()) == Ok::<Seq<u8>, Error>(
            data,
        ),
{
    reveal(compressed);
    let none = Seq::new(MAIN_SYMBOLS as nat, |i: int| 0u8);
    let tokens = lz77::tokens_from(data, level, 0);
    let b = block::stream_bits(none, tokens);
    let rest = bits::zeros(bits::padding(b.len())) + bits::word_bits(extra);
    let odd = extra.len() % 2 == 1;
    bits::lemma_packed(b);
    bits::lemma_word_bits_concat(bits::packed(b), extra);
    bits::lemma_word_bits_len(extra);
    assert(bits::word_bits(bits::packed(b) + extra) =~= b + rest);
    assert forall|i: int| 0 <= i < tokens.len() implies lz77::token_ok(#[trigger] tokens[i]) by {
        lz77::lemma_tokens_ok(data, level, 0);
    }
    lz77::lemma_tokens_expand(data, level, 0, 1);
    lemma_apply_all_len(Seq::empty(), 1, tokens);
    assert(data.take(0) =~= Seq::<u8>::empty());
    let st = decoder::initial(beyond(b + rest, odd));
    lemma_stream_round_trip_with(st, tokens, rest, odd);
}

} // verus!
