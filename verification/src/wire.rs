//! The stream format, stated on its bits.
//!
//! What stands where in a block of each type, and what a decoder makes of it.

use vstd::prelude::*;
use vstd::arithmetic::power2::*;

use crate::bits;
use crate::block;
use crate::constants;
use crate::constants::{TABLE_ONE, TABLE_TWO};
use crate::decoder;
use crate::decoder::State;
use crate::error::Error;
use crate::huffman::code;
use crate::huffman::decode;
use crate::huffman::pretree;
use crate::huffman::pretree::Section;
use crate::lz77;
use crate::lz77::Token;
use crate::roundtrip;

verus! {

proof fn lemma_aligned_split(width: nat, x: nat)
    requires
        width >= 3,
        x < pow2(width),
    ensures
        x / 8 < pow2((width - 3) as nat),
{
    let w = (width - 3) as nat;
    lemma_pow2_adds(3, w);
    lemma2_to64();
    assert(x / 8 < pow2(w)) by (nonlinear_arith)
        requires
            x < 8 * pow2(w),
    ;
}

/// In an aligned block a distance whose slot has three or more footer bits
/// travels as the upper bits of its place in the slot, and then the aligned code
/// of the lowest three. The place comes back, and what follows is left.
pub proof fn lemma_aligned_footer(st: State, slot: int, distance: int, rest: Seq<bool>)
    requires
        st.method == 3,
        constants::covers(slot, distance),
        TABLE_ONE@[slot] >= 3,
        code::has_code(st.aligned, (distance - TABLE_TWO@[slot]) % 8),
        code::reach(
            st.aligned,
            st.aligned[(distance - TABLE_TWO@[slot]) % 8] as nat,
        ) <= 65536,
    ensures
        ({
            let width = TABLE_ONE@[slot] as nat;
            let place = distance - TABLE_TWO@[slot];
            decoder::read_footer(
                st,
                width,
                roundtrip::ahead(
                    bits::bits_of((place / 8) as nat, (width - 3) as nat) + code::code_bits(
                        st.aligned,
                        place % 8,
                    ) + rest,
                ),
            ) == (Ok::<nat, Error>(place as nat), roundtrip::ahead(rest))
        }),
{
    let width = TABLE_ONE@[slot] as nat;
    lemma_aligned_place(st, width, (distance - TABLE_TWO@[slot]) as nat, rest);
}

proof fn lemma_aligned_place(st: State, width: nat, x: nat, rest: Seq<bool>)
    requires
        st.method == 3,
        width >= 3,
        x < pow2(width),
        code::has_code(st.aligned, (x % 8) as int),
        code::reach(st.aligned, st.aligned[(x % 8) as int] as nat) <= 65536,
    ensures
        decoder::read_footer(
            st,
            width,
            roundtrip::ahead(
                bits::bits_of(x / 8, (width - 3) as nat) + code::code_bits(
                    st.aligned,
                    (x % 8) as int,
                ) + rest,
            ),
        ) == (Ok::<nat, Error>(x), roundtrip::ahead(rest)),
{
    let top = bits::bits_of(x / 8, (width - 3) as nat);
    let low = code::code_bits(st.aligned, (x % 8) as int);
    lemma_aligned_split(width, x);
    assert(top + low + rest =~= top + (low + rest));
    bits::lemma_read_number(x / 8, (width - 3) as nat, low + rest, false);
    decode::lemma_read_symbol(st.aligned, 7, (x % 8) as int, rest, false);
}

/// A place in a slot with `width` footer bits, as it travels.
pub open spec fn place_bits(method: nat, aligned: Seq<u8>, width: nat, x: nat) -> Seq<bool> {
    if method == 3 && width >= 3 {
        bits::bits_of(x / 8, (width - 3) as nat) + code::code_bits(aligned, (x % 8) as int)
    } else {
        bits::bits_of(x, width)
    }
}

/// The aligned code has the codes that the place needs.
pub open spec fn place_ok(method: nat, aligned: Seq<u8>, width: nat, x: nat) -> bool {
    method == 3 && width >= 3 ==> {
        &&& code::has_code(aligned, (x % 8) as int)
        &&& code::reach(aligned, aligned[(x % 8) as int] as nat) <= 65536
    }
}

proof fn lemma_read_place(st: State, width: nat, x: nat, rest: Seq<bool>)
    requires
        x < pow2(width),
        place_ok(st.method, st.aligned, width, x),
    ensures
        decoder::read_footer(
            st,
            width,
            roundtrip::ahead(place_bits(st.method, st.aligned, width, x) + rest),
        ) == (Ok::<nat, Error>(x), roundtrip::ahead(rest)),
{
    if st.method == 3 && width >= 3 {
        lemma_aligned_place(st, width, x, rest);
    } else {
        bits::lemma_read_number(x, width, rest, false);
    }
}

/// The main tree can decode the symbol.
pub open spec fn main_ok(st: State, s: int) -> bool {
    &&& st.table == st.main
    &&& code::decodable(st.main, 12)
    &&& code::has_code(st.main, s)
    &&& code::reach(st.main, st.main[s] as nat) <= 65536
}

/// Each of the symbols 0 to 255 is the byte of its number.
pub proof fn lemma_literal(st: State, b: u8, rest: Seq<bool>, room: nat)
    requires
        main_ok(st, b as int),
        st.input == roundtrip::ahead(code::code_bits(st.main, b as int) + rest),
        st.remaining > 0,
    ensures
        decoder::read_token(st, room) == (
            Ok::<(), Error>(()),
            (State {
                history: st.history.push(b),
                remaining: (st.remaining - 1) as nat,
                input: roundtrip::ahead(rest),
                ..st
            }),
        ),
{
    reveal(decoder::read_token);
    decode::lemma_read_symbol(st.main, 12, b as int, rest, false);
}

/// The symbol of a match, and the place within the slot of its distance.
proof fn lemma_match_symbol(
    st: State,
    lslot: int,
    pslot: int,
    x: nat,
    far: Seq<bool>,
    room: nat,
)
    requires
        0 <= lslot < 16,
        0 <= pslot < 32,
        x < pow2(TABLE_ONE@[pslot] as nat),
        main_ok(st, 256 + 32 * lslot + pslot),
        place_ok(st.method, st.aligned, TABLE_ONE@[pslot] as nat, x),
        st.input == roundtrip::ahead(
            code::code_bits(st.main, 256 + 32 * lslot + pslot) + (place_bits(
                st.method,
                st.aligned,
                TABLE_ONE@[pslot] as nat,
                x,
            ) + far),
        ),
    ensures
        decoder::read_token(st, room) == decoder::read_match(
            st,
            lslot,
            (TABLE_TWO@[pslot] + x) as nat,
            roundtrip::ahead(far),
            room,
        ),
{
    reveal(decoder::read_token);
    let s = 256 + 32 * lslot + pslot;
    let near = place_bits(st.method, st.aligned, TABLE_ONE@[pslot] as nat, x);
    decode::lemma_read_symbol(st.main, 12, s, near + far, false);
    assert((s - 256) % 32 == pslot && (s - 256) / 32 == lslot);
    lemma_read_place(st, TABLE_ONE@[pslot] as nat, x, far);
}

/// The place within the slot of the length, and the bytes of the match.
proof fn lemma_match_rest(
    st: State,
    lslot: int,
    distance: nat,
    y: nat,
    rest: Seq<bool>,
    room: nat,
)
    requires
        0 <= lslot < 16,
        y < pow2(TABLE_ONE@[lslot] as nat),
    ensures
        ({
            let (r, after) = decoder::read_match(
                st,
                lslot,
                distance,
                roundtrip::ahead(bits::bits_of(y, TABLE_ONE@[lslot] as nat) + rest),
                room,
            );
            let length = 3 + TABLE_TWO@[lslot] + y;
            let last = if distance == 0 {
                st.last
            } else {
                distance
            };
            let n = st.history.len() as int;
            &&& after == State {
                history: after.history,
                remaining: after.remaining,
                last,
                input: roundtrip::ahead(rest),
                ..st
            }
            &&& if length > st.remaining {
                &&& r == Err::<(), Error>(Error::InvalidArchive("match runs past block end"))
                &&& after.history == st.history
                &&& after.remaining == st.remaining
            } else if length > room {
                &&& r == Err::<(), Error>(
                    Error::InvalidArchive("decoded data exceeds expected length"),
                )
                &&& after.history == st.history
                &&& after.remaining == st.remaining
            } else {
                &&& r == Ok::<(), Error>(())
                &&& after.remaining == st.remaining - length
                &&& after.history.len() == n + length
                &&& after.history.take(n) == st.history
                &&& forall|i: int|
                    n <= i < n + length ==> #[trigger] after.history[i] == (if 1 <= last <= i {
                        after.history[i - last]
                    } else {
                        0
                    })
            }
        }),
{
    bits::lemma_read_number(y, TABLE_ONE@[lslot] as nat, rest, false);
    let last = if distance == 0 {
        st.last
    } else {
        distance
    };
    let length = (3 + TABLE_TWO@[lslot] + y) as nat;
    decoder::lemma_repeat(st.history, last, length);
    decoder::lemma_repeat_bytes(st.history, last, length);
}

/// A symbol from 256 on is a match. Its lower five bits are the slot of the
/// distance, and its upper ones that of the length. Behind it stand the place
/// within the slot of the distance, and then that of the length. A distance of
/// zero is that of the match before. Each byte of the match is the one so far
/// before it, and zero before the first byte. A match that runs past the end of
/// its block, or decodes to more than is wanted, is refused.
pub proof fn lemma_match(
    st: State,
    lslot: int,
    pslot: int,
    x: nat,
    y: nat,
    rest: Seq<bool>,
    room: nat,
)
    requires
        0 <= lslot < 16,
        0 <= pslot < 32,
        x < pow2(TABLE_ONE@[pslot] as nat),
        y < pow2(TABLE_ONE@[lslot] as nat),
        main_ok(st, 256 + 32 * lslot + pslot),
        place_ok(st.method, st.aligned, TABLE_ONE@[pslot] as nat, x),
        st.input == roundtrip::ahead(
            code::code_bits(st.main, 256 + 32 * lslot + pslot) + place_bits(
                st.method,
                st.aligned,
                TABLE_ONE@[pslot] as nat,
                x,
            ) + bits::bits_of(y, TABLE_ONE@[lslot] as nat) + rest,
        ),
    ensures
        ({
            let (r, after) = decoder::read_token(st, room);
            let distance = TABLE_TWO@[pslot] + x;
            let length = 3 + TABLE_TWO@[lslot] + y;
            let last = if distance == 0 {
                st.last as int
            } else {
                distance
            };
            let n = st.history.len() as int;
            &&& after == State {
                history: after.history,
                remaining: after.remaining,
                last: last as nat,
                input: roundtrip::ahead(rest),
                ..st
            }
            &&& if length > st.remaining {
                &&& r == Err::<(), Error>(Error::InvalidArchive("match runs past block end"))
                &&& after.history == st.history
                &&& after.remaining == st.remaining
            } else if length > room {
                &&& r == Err::<(), Error>(
                    Error::InvalidArchive("decoded data exceeds expected length"),
                )
                &&& after.history == st.history
                &&& after.remaining == st.remaining
            } else {
                &&& r == Ok::<(), Error>(())
                &&& after.remaining == st.remaining - length
                &&& after.history.len() == n + length
                &&& after.history.take(n) == st.history
                &&& forall|i: int|
                    n <= i < n + length ==> #[trigger] after.history[i] == (if 1 <= last <= i {
                        after.history[i - last]
                    } else {
                        0
                    })
            }
        }),
{
    let distance = (TABLE_TWO@[pslot] + x) as nat;
    let far = bits::bits_of(y, TABLE_ONE@[lslot] as nat) + rest;
    let near = place_bits(st.method, st.aligned, TABLE_ONE@[pslot] as nat, x);
    let coded = code::code_bits(st.main, 256 + 32 * lslot + pslot);
    assert(coded + near + bits::bits_of(y, TABLE_ONE@[lslot] as nat) + rest =~= coded + (near
        + far));
    lemma_match_symbol(st, lslot, pslot, x, far, room);
    lemma_match_rest(st, lslot, distance, y, rest, room);
}

/// Numbers of `width` bits each in a row.
pub open spec fn numbers_bits(v: Seq<u8>, width: nat) -> Seq<bool>
    decreases v.len(),
{
    if v.len() == 0 {
        Seq::empty()
    } else {
        bits::bits_of(v[0] as nat, width) + numbers_bits(v.drop_first(), width)
    }
}

proof fn lemma_read_over(lengths: Seq<u8>, v: Seq<u8>, i: nat, width: nat, rest: Seq<bool>)
    requires
        i <= lengths.len() == v.len(),
        lengths.take(i as int) == v.take(i as int),
        width <= 8,
        forall|k: int| 0 <= k < v.len() ==> #[trigger] v[k] < pow2(width),
    ensures
        decoder::read_over(
            lengths,
            i,
            width,
            roundtrip::ahead(numbers_bits(v.skip(i as int), width) + rest),
        ) == (Ok::<(), Error>(()), v, roundtrip::ahead(rest)),
    decreases v.len() - i,
{
    let left = v.skip(i as int);
    if i == v.len() {
        assert(lengths =~= v) by {
            assert(lengths.take(i as int) =~= lengths);
            assert(v.take(i as int) =~= v);
        }
        assert(numbers_bits(left, width) + rest =~= rest);
    } else {
        let x = v[i as int];
        let more = numbers_bits(v.skip((i + 1) as int), width) + rest;
        assert(left[0] == x);
        assert(left.drop_first() =~= v.skip((i + 1) as int));
        assert(numbers_bits(left, width) + rest =~= bits::bits_of(x as nat, width) + more);
        bits::lemma_read_number(x as nat, width, more, false);
        let next = lengths.update(i as int, x);
        assert forall|k: int| 0 <= k <= i implies #[trigger] next[k] == v[k] by {
            if k < i {
                assert(lengths[k] == lengths.take(i as int)[k]);
                assert(v[k] == v.take(i as int)[k]);
            }
        }
        assert(next.take((i + 1) as int) =~= v.take((i + 1) as int));
        lemma_read_over(next, v, i + 1, width, rest);
    }
}

/// The aligned code, which only a block of type 3 brings.
pub open spec fn aligned_bits(method: nat, aligned: Seq<u8>) -> Seq<bool> {
    if method == 3 {
        numbers_bits(aligned, 3)
    } else {
        Seq::empty()
    }
}

/// The main tree, which a block of type 1 does not bring.
pub open spec fn main_bits(method: nat, prev: Seq<u8>, main: Seq<u8>) -> Seq<bool> {
    if method == 1 {
        Seq::empty()
    } else {
        block::tree_bits(prev, main)
    }
}

/// A section begins with twenty code lengths of four bits each. The steps behind
/// them are read with that code, where it can be decoded.
pub proof fn lemma_section_start(
    section: Section,
    lengths: Seq<u8>,
    pretree: Seq<u8>,
    rest: Seq<bool>,
)
    requires
        pretree.len() == 20,
        forall|k: int| 0 <= k < 20 ==> #[trigger] pretree[k] < 16,
    ensures
        pretree::read_section(
            section,
            lengths,
            roundtrip::ahead(numbers_bits(pretree, 4) + rest),
        ) == (if code::decodable(pretree, 6) {
            pretree::read_entries(section, pretree, lengths, 0, roundtrip::ahead(rest))
        } else {
            (Err::<(), Error>(Error::BadHuffmanTree), lengths, roundtrip::ahead(rest))
        }),
{
    lemma2_to64();
    assert(pretree.take(0) =~= Seq::<u8>::empty());
    assert(pretree.skip(0) =~= pretree);
    lemma_read_row(pretree, 0, 4, rest);
}

proof fn lemma_read_row(v: Seq<u8>, i: nat, width: nat, rest: Seq<bool>)
    requires
        i <= v.len(),
        width <= 8,
        forall|k: int| 0 <= k < v.len() ==> #[trigger] v[k] < pow2(width),
    ensures
        pretree::read_numbers(
            roundtrip::ahead(numbers_bits(v.skip(i as int), width) + rest),
            v.len(),
            width,
            v.take(i as int),
        ) == (Ok::<Seq<u8>, Error>(v), roundtrip::ahead(rest)),
    decreases v.len() - i,
{
    let left = v.skip(i as int);
    if i == v.len() {
        assert(v.take(i as int) =~= v);
        assert(numbers_bits(left, width) + rest =~= rest);
    } else {
        let x = v[i as int];
        let more = numbers_bits(v.skip((i + 1) as int), width) + rest;
        assert(left[0] == x);
        assert(left.drop_first() =~= v.skip((i + 1) as int));
        assert(numbers_bits(left, width) + rest =~= bits::bits_of(x as nat, width) + more);
        bits::lemma_read_number(x as nat, width, more, false);
        assert(v.take(i as int).push(x) =~= v.take((i + 1) as int));
        lemma_read_row(v, i + 1, width, rest);
    }
}

/// The header of a block of type 1, 2 or 3, as it travels: the type in three
/// bits, the eight code lengths of the aligned code in three bits each where the
/// type is 3, how many bytes the block decodes to in three bytes, of which the
/// most significant one comes first, and the code lengths of the main tree
/// against those before, where the type is not 1.
pub open spec fn header_bits(
    method: nat,
    aligned: Seq<u8>,
    size: nat,
    prev: Seq<u8>,
    main: Seq<u8>,
) -> Seq<bool> {
    bits::bits_of(method, 3) + aligned_bits(method, aligned) + bits::bits_of(size / 65536, 8)
        + bits::bits_of(size / 256 % 256, 8) + bits::bits_of(size % 256, 8) + main_bits(
        method,
        prev,
        main,
    )
}

/// The code lengths can stand in the header of a block of this type.
pub open spec fn header_ok(st: State, method: nat, aligned: Seq<u8>, main: Seq<u8>) -> bool {
    &&& 1 <= method <= 3
    &&& st.aligned.len() == aligned.len() == 8
    &&& st.main.len() == main.len() == 768
    &&& if method == 3 {
        &&& forall|k: int| 0 <= k < 8 ==> #[trigger] aligned[k] < 8
        &&& code::decodable(aligned, 7)
    } else {
        aligned == st.aligned
    }
    &&& if method == 1 {
        main == st.main
    } else {
        &&& forall|k: int| 0 <= k < 768 ==> #[trigger] main[k] <= 16
        &&& code::complete(main)
    }
}

/// What the header of a block says comes back. A block of type 1 goes on with
/// the main tree before, and only one of type 3 brings a new aligned code.
pub proof fn lemma_header(
    st: State,
    method: nat,
    aligned: Seq<u8>,
    size: nat,
    main: Seq<u8>,
    rest: Seq<bool>,
)
    requires
        header_ok(st, method, aligned, main),
        size < 0x100_0000,
        st.input == roundtrip::ahead(header_bits(method, aligned, size, st.main, main) + rest),
    ensures
        decoder::read_header(st) == (
            Ok::<(), Error>(()),
            (State {
                method,
                aligned,
                remaining: size,
                main,
                table: if method == 1 {
                    st.table
                } else {
                    main
                },
                input: roundtrip::ahead(rest),
                ..st
            }),
        ),
{
    let i3 = main_bits(method, st.main, main) + rest;
    let i2 = block::size_bits(size) + i3;
    let i1 = aligned_bits(method, aligned) + i2;
    assert(method < pow2(3)) by {
        lemma2_to64();
    }
    assert(header_bits(method, aligned, size, st.main, main) + rest =~= bits::bits_of(method, 3)
        + i1);
    bits::lemma_read_number(method, 3, i1, false);
    lemma_header_aligned(st, method, aligned, i2);
    roundtrip::lemma_read_size(size, i3);
    lemma_header_main(st, method, main, rest);
    reveal(decoder::read_body);
}

proof fn lemma_header_aligned(st: State, method: nat, aligned: Seq<u8>, rest: Seq<bool>)
    requires
        st.aligned.len() == aligned.len() == 8,
        if method == 3 {
            &&& forall|k: int| 0 <= k < 8 ==> #[trigger] aligned[k] < 8
            &&& code::decodable(aligned, 7)
        } else {
            aligned == st.aligned
        },
    ensures
        decoder::read_aligned(
            method,
            st.aligned,
            roundtrip::ahead(aligned_bits(method, aligned) + rest),
        ) == (Ok::<(), Error>(()), aligned, roundtrip::ahead(rest)),
{
    if method == 3 {
        assert(pow2(3) == 8) by {
            lemma2_to64();
        }
        assert(st.aligned.take(0) =~= aligned.take(0));
        assert(aligned.skip(0) =~= aligned);
        lemma_read_over(st.aligned, aligned, 0, 3, rest);
    } else {
        assert(aligned_bits(method, aligned) + rest =~= rest);
    }
}

proof fn lemma_header_main(st: State, method: nat, main: Seq<u8>, rest: Seq<bool>)
    requires
        st.main.len() == main.len() == 768,
        if method == 1 {
            main == st.main
        } else {
            &&& forall|k: int| 0 <= k < 768 ==> #[trigger] main[k] <= 16
            &&& code::complete(main)
        },
    ensures
        decoder::read_main(
            method,
            st.main,
            roundtrip::ahead(main_bits(method, st.main, main) + rest),
        ) == (Ok::<(), Error>(()), main, roundtrip::ahead(rest)),
{
    if method == 1 {
        assert(main_bits(method, st.main, main) + rest =~= rest);
    } else {
        roundtrip::lemma_read_main(method, st.main, main, rest);
    }
}

/// Where the main tree of a block cannot be read, or cannot be decoded, the size of
/// the block and the code lengths as far as they came are kept. The table stays
/// that of the tree before.
pub proof fn lemma_header_failed(
    st: State,
    method: nat,
    aligned: Seq<u8>,
    size: nat,
    behind: Seq<bool>,
)
    requires
        2 <= method <= 3,
        st.aligned.len() == aligned.len() == 8,
        if method == 3 {
            &&& forall|k: int| 0 <= k < 8 ==> #[trigger] aligned[k] < 8
            &&& code::decodable(aligned, 7)
        } else {
            aligned == st.aligned
        },
        size < 0x100_0000,
        st.input == roundtrip::ahead(
            bits::bits_of(method, 3) + aligned_bits(method, aligned) + bits::bits_of(
                size / 65536,
                8,
            ) + bits::bits_of(size / 256 % 256, 8) + bits::bits_of(size % 256, 8) + behind,
        ),
    ensures
        ({
            let (r, lengths, rest) = decoder::read_tree(st.main, roundtrip::ahead(behind));
            let after = State {
                method,
                aligned,
                remaining: size,
                main: lengths,
                input: rest,
                ..st
            };
            &&& r matches Err(e) ==> decoder::read_header(st) == (Err::<(), Error>(e), after)
            &&& r is Ok && !code::decodable(lengths, 12) ==> decoder::read_header(st) == (
                Err::<(), Error>(Error::BadHuffmanTree),
                after,
            )
            &&& r is Ok && code::decodable(lengths, 12) ==> decoder::read_header(st) == (
                Ok::<(), Error>(()),
                (State { table: lengths, ..after }),
            )
        }),
{
    let i2 = block::size_bits(size) + behind;
    let i1 = aligned_bits(method, aligned) + i2;
    assert(method < pow2(3)) by {
        lemma2_to64();
    }
    assert(bits::bits_of(method, 3) + aligned_bits(method, aligned) + bits::bits_of(
        size / 65536,
        8,
    ) + bits::bits_of(size / 256 % 256, 8) + bits::bits_of(size % 256, 8) + behind
        =~= bits::bits_of(method, 3) + i1);
    bits::lemma_read_number(method, 3, i1, false);
    lemma_header_aligned(st, method, aligned, i2);
    roundtrip::lemma_read_size(size, behind);
    reveal(decoder::read_body);
}

/// The code lengths of an aligned code that cannot be decoded are kept, and the
/// block is refused.
pub proof fn lemma_aligned_refused(st: State, aligned: Seq<u8>, rest: Seq<bool>)
    requires
        st.aligned.len() == aligned.len() == 8,
        forall|k: int| 0 <= k < 8 ==> #[trigger] aligned[k] < 8,
        !code::decodable(aligned, 7),
        st.input == roundtrip::ahead(bits::bits_of(3, 3) + numbers_bits(aligned, 3) + rest),
    ensures
        decoder::read_header(st) == (
            Err::<(), Error>(Error::BadHuffmanTree),
            (State { method: 3, aligned, input: roundtrip::ahead(rest), ..st }),
        ),
{
    let i1 = numbers_bits(aligned, 3) + rest;
    assert(pow2(3) == 8) by {
        lemma2_to64();
    }
    assert(bits::bits_of(3, 3) + numbers_bits(aligned, 3) + rest =~= bits::bits_of(3, 3) + i1);
    bits::lemma_read_number(3, 3, i1, false);
    assert(st.aligned.take(0) =~= aligned.take(0));
    assert(aligned.skip(0) =~= aligned);
    lemma_read_over(st.aligned, aligned, 0, 3, rest);
    reveal(decoder::read_body);
}

/// There are no blocks of other types.
pub proof fn lemma_header_refused(st: State, method: nat, rest: Seq<bool>)
    requires
        method < 8,
        method == 0 || method > 3,
        st.input == roundtrip::ahead(bits::bits_of(method, 3) + rest),
    ensures
        decoder::read_header(st) == (
            Err::<(), Error>(Error::InvalidArchive("unknown block type")),
            (State { input: roundtrip::ahead(rest), ..st }),
        ),
{
    lemma2_to64();
    bits::lemma_read_number(method, 3, rest, false);
}

/// A token of a block of any type, as it travels.
pub open spec fn coded_token(method: nat, aligned: Seq<u8>, main: Seq<u8>, t: Token) -> Seq<bool> {
    match t {
        Token::Literal(b) => code::code_bits(main, b as int),
        Token::Match { length, distance } => {
            let lslot = block::slot_of(length - 3);
            let pslot = block::slot_of(distance as int);
            code::code_bits(main, 256 + 32 * lslot + pslot) + place_bits(
                method,
                aligned,
                TABLE_ONE@[pslot] as nat,
                (distance - TABLE_TWO@[pslot]) as nat,
            ) + bits::bits_of((length - 3 - TABLE_TWO@[lslot]) as nat, TABLE_ONE@[lslot] as nat)
        },
    }
}

/// The codes can write the token.
pub open spec fn codes_token(method: nat, aligned: Seq<u8>, main: Seq<u8>, t: Token) -> bool {
    &&& lz77::token_ok(t)
    &&& code::has_code(main, block::symbol_of(t))
    &&& t matches Token::Match { distance, .. } ==> place_ok(
        method,
        aligned,
        TABLE_ONE@[block::slot_of(distance as int)] as nat,
        (distance - TABLE_TWO@[block::slot_of(distance as int)]) as nat,
    )
}

/// Tokens of a block of any type, as they travel.
pub open spec fn coded_tokens(
    method: nat,
    aligned: Seq<u8>,
    main: Seq<u8>,
    tokens: Seq<Token>,
) -> Seq<bool>
    decreases tokens.len(),
{
    if tokens.len() == 0 {
        Seq::empty()
    } else {
        coded_token(method, aligned, main, tokens[0]) + coded_tokens(
            method,
            aligned,
            main,
            tokens.drop_first(),
        )
    }
}

/// A token of a block of any type comes back.
pub proof fn lemma_coded_token(st: State, t: Token, rest: Seq<bool>, room: nat)
    requires
        codes_token(st.method, st.aligned, st.main, t),
        st.table == st.main,
        code::complete(st.main),
        st.input == roundtrip::ahead(coded_token(st.method, st.aligned, st.main, t) + rest),
        lz77::token_len(t) <= st.remaining,
        lz77::token_len(t) <= room,
    ensures
        decoder::read_token(st, room) == (
            Ok::<(), Error>(()),
            (State {
                history: lz77::apply(st.history, st.last, t).0,
                last: lz77::apply(st.history, st.last, t).1,
                remaining: (st.remaining - lz77::token_len(t)) as nat,
                input: roundtrip::ahead(rest),
                ..st
            }),
        ),
{
    let s = block::symbol_of(t);
    code::lemma_reach_monotonic(st.main, 12, 16);
    code::lemma_reach_monotonic(st.main, st.main[s] as nat, 16);
    match t {
        Token::Literal(b) => {
            lemma_literal(st, b, rest, room);
        },
        Token::Match { length, distance } => {
            block::lemma_slot_exists(length - 3);
            block::lemma_slot_exists(distance as int);
            let lslot = block::slot_of(length - 3);
            let pslot = block::slot_of(distance as int);
            let x = (distance - TABLE_TWO@[pslot]) as nat;
            let y = (length - 3 - TABLE_TWO@[lslot]) as nat;
            let coded = code::code_bits(st.main, 256 + 32 * lslot + pslot);
            let near = place_bits(st.method, st.aligned, TABLE_ONE@[pslot] as nat, x);
            let far = bits::bits_of(y, TABLE_ONE@[lslot] as nat) + rest;
            assert(coded_token(st.method, st.aligned, st.main, t) + rest =~= coded + (near + far));
            lemma_match_symbol(st, lslot, pslot, x, far, room);
            bits::lemma_read_number(y, TABLE_ONE@[lslot] as nat, rest, false);
        },
    }
}

proof fn lemma_run_coded(st: State, tokens: Seq<Token>, rest: Seq<bool>, room: nat)
    requires
        forall|i: int|
            0 <= i < tokens.len() ==> codes_token(
                st.method,
                st.aligned,
                st.main,
                #[trigger] tokens[i],
            ),
        st.table == st.main,
        code::complete(st.main),
        st.input == roundtrip::ahead(
            coded_tokens(st.method, st.aligned, st.main, tokens) + rest,
        ),
        st.remaining == lz77::source_len(tokens),
    ensures
        decoder::run(st, lz77::source_len(tokens) + room) == decoder::run(
            roundtrip::after_tokens(st, tokens, rest),
            room,
        ),
    decreases tokens.len(),
{
    reveal_with_fuel(decoder::run, 1);
    let bits = coded_tokens(st.method, st.aligned, st.main, tokens);
    if tokens.len() == 0 {
        assert(bits + rest =~= rest);
        assert(roundtrip::after_tokens(st, tokens, rest) =~= st);
    } else {
        let t = tokens[0];
        let tail = tokens.drop_first();
        assert(tokens =~= seq![t] + tail);
        lz77::lemma_source_len_front(t, tail);
        let after = coded_tokens(st.method, st.aligned, st.main, tail) + rest;
        assert(bits + rest =~= coded_token(st.method, st.aligned, st.main, t) + after);
        assert(codes_token(st.method, st.aligned, st.main, tokens[0]));
        let all = lz77::source_len(tokens) + room;
        lemma_coded_token(st, t, after, all);
        let next = decoder::read_token(st, all).1;
        roundtrip::lemma_apply_len(st.history, st.last, t);
        assert forall|i: int| 0 <= i < tail.len() implies codes_token(
            st.method,
            st.aligned,
            st.main,
            #[trigger] tail[i],
        ) by {
            assert(tail[i] == tokens[i + 1]);
        }
        lemma_run_coded(next, tail, rest, room);
        assert(roundtrip::after_tokens(next, tail, rest) =~= roundtrip::after_tokens(
            st,
            tokens,
            rest,
        ));
    }
}

/// A block of any type comes back: the decoder takes its tokens in, and goes on
/// behind it. One of type 1 needs a block before it that has brought a main tree.
pub proof fn lemma_coded_block(
    st: State,
    method: nat,
    aligned: Seq<u8>,
    main: Seq<u8>,
    tokens: Seq<Token>,
    rest: Seq<bool>,
    room: nat,
)
    requires
        header_ok(st, method, aligned, main),
        code::complete(main),
        method == 1 ==> st.table == st.main,
        tokens.len() > 0,
        lz77::source_len(tokens) < 0x100_0000,
        forall|i: int|
            0 <= i < tokens.len() ==> codes_token(method, aligned, main, #[trigger] tokens[i]),
        st.remaining == 0,
        st.input == roundtrip::ahead(
            header_bits(method, aligned, lz77::source_len(tokens), st.main, main) + coded_tokens(
                method,
                aligned,
                main,
                tokens,
            ) + rest,
        ),
    ensures
        decoder::run(st, lz77::source_len(tokens) + room) == decoder::run(
            roundtrip::after_tokens(
                State { method, aligned, main, table: main, ..st },
                tokens,
                rest,
            ),
            room,
        ),
{
    let size = lz77::source_len(tokens);
    let behind = coded_tokens(method, aligned, main, tokens) + rest;
    let head = header_bits(method, aligned, size, st.main, main);
    assert(head + coded_tokens(method, aligned, main, tokens) + rest =~= head + behind);
    lemma_header(st, method, aligned, size, main, behind);
    let opened = State {
        method,
        aligned,
        main,
        table: main,
        remaining: size,
        input: roundtrip::ahead(behind),
        ..st
    };
    assert forall|i: int| 0 <= i < tokens.len() implies lz77::token_ok(#[trigger] tokens[i]) by {
        assert(codes_token(method, aligned, main, tokens[i]));
    }
    block::lemma_source_len(tokens);
    lemma_run_coded(opened, tokens, rest, room);
    let all = size + room;
    assert(decoder::run(st, all) == decoder::run(opened, all)) by {
        reveal_with_fuel(decoder::run, 1);
    }
    assert(roundtrip::after_tokens(opened, tokens, rest) =~= roundtrip::after_tokens(
        State { method, aligned, main, table: main, ..st },
        tokens,
        rest,
    ));
}

/// A block that stands for no bytes ends the stream.
pub proof fn lemma_empty_block(
    st: State,
    method: nat,
    aligned: Seq<u8>,
    main: Seq<u8>,
    rest: Seq<bool>,
    room: nat,
)
    requires
        header_ok(st, method, aligned, main),
        st.remaining == 0,
        room > 0,
        st.input == roundtrip::ahead(header_bits(method, aligned, 0, st.main, main) + rest),
    ensures
        decoder::run(st, room).0 == Err::<(), Error>(Error::Truncated),
        decoder::run(st, room).1.history == st.history,
{
    reveal_with_fuel(decoder::run, 1);
    lemma_header(st, method, aligned, 0, main, rest);
}

/// A decoder begins with no bytes, no block and no codes, and the last distance is
/// one. Before the first main tree nothing can be decoded.
pub proof fn lemma_initial(input: bits::Input, method: nat, remaining: nat, room: nat)
    ensures
        ({
            let st = decoder::initial(input);
            &&& st.history.len() == 0
            &&& st.remaining == 0
            &&& st.last == 1
            &&& st.main.len() == 768
            &&& st.aligned.len() == 8
            &&& decoder::read_token(State { method, remaining, ..st }, room).0 == Err::<(), Error>(
                Error::BadHuffmanTree,
            )
        }),
{
    reveal(decoder::read_token);
    let none = decoder::initial(input).table;
    code::lemma_no_codes(none);
}

} // verus!
