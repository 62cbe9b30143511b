//! Stream decoder.
//!
//! A stream is a sequence of blocks. A block header says how the block is
//! coded, how many bytes it decodes to, and, where it brings new ones, the
//! code lengths. The block's symbols are literals, and matches that repeat
//! what stands some distance back.

use vstd::prelude::*;
use vstd::arithmetic::power2::*;

use crate::bitio::BitReader;
use crate::bits;
use crate::constants::{
    ALIGNED_SYMBOLS, LITERAL_SYMBOLS, MAIN_SYMBOLS, MIN_MATCH, TABLE_ONE, TABLE_TWO,
};
use crate::constants;
use crate::error::{Error, Result};
use crate::huffman::code;
use crate::huffman::decode;
use crate::huffman::decode::{decode_symbol, make_decode_table};
use crate::huffman::pretree;
use crate::huffman::pretree::{decode_section, Section};

verus! {

const WINDOW_SIZE: usize = 0x10000;

const MAIN_TABLE_BITS: u32 = 12;

const ALIGNED_TABLE_BITS: u32 = 7;

/// What a decoder knows between two symbols.
#[verifier::ext_equal]
pub struct State {
    /// Code lengths of the main tree.
    pub main: Seq<u8>,
    /// Code lengths that the decode table of the main tree was built from:
    /// those of the main tree, unless reading new ones has failed since.
    pub table: Seq<u8>,
    /// Code lengths of the aligned offset tree.
    pub aligned: Seq<u8>,
    /// How the current block is coded.
    pub method: nat,
    /// How many bytes the current block still owes.
    pub remaining: nat,
    /// The distance of the last match.
    pub last: nat,
    /// All bytes decoded so far.
    pub history: Seq<u8>,
    /// What is still to be read.
    pub input: bits::Input,
}

/// The state before the first block.
pub open spec fn initial(input: bits::Input) -> State {
    State {
        main: Seq::new(MAIN_SYMBOLS as nat, |i: int| 0u8),
        table: Seq::new(MAIN_SYMBOLS as nat, |i: int| 0u8),
        aligned: Seq::new(ALIGNED_SYMBOLS as nat, |i: int| 0u8),
        method: 0,
        remaining: 0,
        last: 1,
        history: Seq::empty(),
        input,
    }
}

/// Read numbers of `width` bits each over the lengths from `i` on: the outcome,
/// the lengths, and what is left.
pub open spec fn read_over(lengths: Seq<u8>, i: nat, width: nat, input: bits::Input) -> (
    Result<()>,
    Seq<u8>,
    bits::Input,
)
    decreases lengths.len() - i,
{
    if i >= lengths.len() {
        (Ok(()), lengths, input)
    } else {
        match bits::read_number(input, width) {
            (Err(e), rest) => (Err(e), lengths, rest),
            (Ok(v), rest) => read_over(lengths.update(i as int, v as u8), i + 1, width, rest),
        }
    }
}

/// The code lengths of the aligned offset tree, which only a block of type 3
/// brings.
pub open spec fn read_aligned(method: nat, aligned: Seq<u8>, input: bits::Input) -> (
    Result<()>,
    Seq<u8>,
    bits::Input,
) {
    if method != 3 {
        (Ok(()), aligned, input)
    } else {
        match read_over(aligned, 0, 3, input) {
            (Err(e), lengths, rest) => (Err(e), lengths, rest),
            (Ok(_), lengths, rest) => if code::decodable(lengths, 7) {
                (Ok(()), lengths, rest)
            } else {
                (Err(Error::BadHuffmanTree), lengths, rest)
            },
        }
    }
}

/// A number of three bytes, the most significant one first.
pub open spec fn read_size(input: bits::Input) -> (Result<nat>, bits::Input) {
    match bits::read_number(input, 8) {
        (Err(e), rest) => (Err(e), rest),
        (Ok(a), i1) => match bits::read_number(i1, 8) {
            (Err(e), rest) => (Err(e), rest),
            (Ok(b), i2) => match bits::read_number(i2, 8) {
                (Err(e), rest) => (Err(e), rest),
                (Ok(c), i3) => (Ok(65536 * a + 256 * b + c), i3),
            },
        },
    }
}

/// Read both sections of the main tree over the lengths.
pub open spec fn read_tree(main: Seq<u8>, input: bits::Input) -> (
    Result<()>,
    Seq<u8>,
    bits::Input,
) {
    let n = LITERAL_SYMBOLS as int;
    match pretree::read_section(Section::Literal, main.take(n), input) {
        (Err(e), literals, rest) => (Err(e), literals + main.skip(n), rest),
        (Ok(_), literals, i1) => {
            let (r, matches, rest) = pretree::read_section(Section::Match, main.skip(n), i1);
            (r, literals + matches, rest)
        },
    }
}

/// The code lengths of the main tree, which a block of type 1 leaves as they
/// are.
pub open spec fn read_main(method: nat, main: Seq<u8>, input: bits::Input) -> (
    Result<()>,
    Seq<u8>,
    bits::Input,
) {
    if method == 1 {
        (Ok(()), main, input)
    } else {
        match read_tree(main, input) {
            (Err(e), lengths, rest) => (Err(e), lengths, rest),
            (Ok(_), lengths, rest) => if code::decodable(lengths, 12) {
                (Ok(()), lengths, rest)
            } else {
                (Err(Error::BadHuffmanTree), lengths, rest)
            },
        }
    }
}

/// Read the rest of a block header, behind the block's type. What was read
/// before an error stays: the code lengths as far as they came, and the size of
/// a block whose main tree is not right. The decode table is then still the one
/// before.
#[verifier::opaque]
pub open spec fn read_body(st: State) -> (Result<()>, State) {
    let (r, aligned, i1) = read_aligned(st.method, st.aligned, st.input);
    let st1 = State { aligned, input: i1, ..st };
    match r {
        Err(e) => (Err(e), st1),
        Ok(_) => match read_size(i1) {
            (Err(e), input) => (Err(e), State { input, ..st1 }),
            (Ok(remaining), i2) => {
                let (r, main, input) = read_main(st.method, st.main, i2);
                let st2 = State { remaining, main, input, ..st1 };
                match r {
                    Err(e) => (Err(e), st2),
                    Ok(_) => (
                        Ok(()),
                        State {
                            table: if st.method == 1 {
                                st.table
                            } else {
                                main
                            },
                            ..st2
                        },
                    ),
                }
            },
        },
    }
}

/// Read a block header.
pub open spec fn read_header(st: State) -> (Result<()>, State) {
    match bits::read_number(st.input, 3) {
        (Err(e), input) => (Err(e), State { input, ..st }),
        (Ok(method), input) => if method == 0 || method > 3 {
            (Err(Error::InvalidArchive("unknown block type")), State { input, ..st })
        } else {
            read_body(State { method, input, ..st })
        },
    }
}

/// The footer of a position slot: how far the distance is from the slot's
/// first one.
pub open spec fn read_footer(st: State, width: nat, input: bits::Input) -> (
    Result<nat>,
    bits::Input,
) {
    if width >= 3 && st.method == 3 {
        match bits::read_number(input, (width - 3) as nat) {
            (Err(e), rest) => (Err(e), rest),
            (Ok(top), i1) => match decode::read_symbol(st.aligned, 7, i1) {
                (Err(e), rest) => (Err(e), rest),
                (Ok(low), i2) => (Ok(8 * top + low), i2),
            },
        }
    } else {
        bits::read_number(input, width)
    }
}

/// The byte that stands `distance` back. Before the first byte there are
/// zeros.
pub open spec fn at(history: Seq<u8>, distance: nat) -> u8 {
    if 1 <= distance <= history.len() {
        history[history.len() - distance]
    } else {
        0
    }
}

/// Repeat `length` bytes from `distance` back. A match may run into its own
/// bytes.
pub open spec fn repeat(history: Seq<u8>, distance: nat, length: nat) -> Seq<u8>
    decreases length,
{
    if length == 0 {
        history
    } else {
        let before = repeat(history, distance, (length - 1) as nat);
        before.push(at(before, distance))
    }
}

/// The match of length slot `lslot` at a distance of `distance`, or of the last
/// match where that is zero. At most `room` bytes are wanted.
pub open spec fn read_match(
    st: State,
    lslot: int,
    distance: nat,
    input: bits::Input,
    room: nat,
) -> (Result<()>, State) {
    let last = if distance == 0 {
        st.last
    } else {
        distance
    };
    match bits::read_number(input, TABLE_ONE@[lslot] as nat) {
        (Err(e), rest) => (Err(e), State { last, input: rest, ..st }),
        (Ok(extra), rest) => {
            let length = TABLE_TWO@[lslot] as nat + MIN_MATCH as nat + extra;
            let after = State { last, input: rest, ..st };
            if length > st.remaining {
                (Err(Error::InvalidArchive("match runs past block end")), after)
            } else if length > room {
                (Err(Error::InvalidArchive("decoded data exceeds expected length")), after)
            } else {
                (
                    Ok(()),
                    State {
                        history: repeat(st.history, last, length),
                        remaining: (st.remaining - length) as nat,
                        ..after
                    },
                )
            }
        },
    }
}

/// Decode one symbol of the current block, where at most `room` bytes are
/// wanted. Before the first main tree there is no table to decode with.
#[verifier::opaque]
pub open spec fn read_token(st: State, room: nat) -> (Result<()>, State) {
    if !code::decodable(st.table, 12) {
        (Err(Error::BadHuffmanTree), st)
    } else {
        match decode::read_coded(st.table, st.main, 12, st.input) {
            (Err(e), input) => (Err(e), State { input, ..st }),
            (Ok(s), i1) => if s < LITERAL_SYMBOLS {
                (
                    Ok(()),
                    State {
                        history: st.history.push(s as u8),
                        remaining: (st.remaining - 1) as nat,
                        input: i1,
                        ..st
                    },
                )
            } else {
                let pslot = (s - LITERAL_SYMBOLS) % 32;
                let lslot = (s - LITERAL_SYMBOLS) / 32;
                match read_footer(st, TABLE_ONE@[pslot] as nat, i1) {
                    (Err(e), input) => (Err(e), State { input, ..st }),
                    (Ok(footer), i2) => read_match(
                        st,
                        lslot,
                        TABLE_TWO@[pslot] as nat + footer,
                        i2,
                        room,
                    ),
                }
            },
        }
    }
}

/// Decode `room` bytes.
#[verifier::opaque]
pub open spec fn run(st: State, room: nat) -> (Result<()>, State)
    decreases room,
{
    if room == 0 {
        (Ok(()), st)
    } else {
        let opened = if st.remaining == 0 {
            read_header(st)
        } else {
            (Ok(()), st)
        };
        match opened {
            (Err(e), after) => (Err(e), after),
            (Ok(_), ready) => if ready.remaining == 0 {
                (Err(Error::Truncated), ready)
            } else {
                proof {
                    lemma_token_grows(ready, room);
                }
                match read_token(ready, room) {
                    (Err(e), after) => (Err(e), after),
                    (Ok(_), next) => run(
                        next,
                        (room - (next.history.len() - ready.history.len())) as nat,
                    ),
                }
            },
        }
    }
}

pub proof fn lemma_repeat(history: Seq<u8>, distance: nat, length: nat)
    ensures
        repeat(history, distance, length).len() == history.len() + length,
        repeat(history, distance, length).take(history.len() as int) == history,
    decreases length,
{
    if length > 0 {
        lemma_repeat(history, distance, (length - 1) as nat);
        assert(repeat(history, distance, length).take(history.len() as int) =~= repeat(
            history,
            distance,
            (length - 1) as nat,
        ).take(history.len() as int));
    } else {
        assert(history.take(history.len() as int) =~= history);
    }
}

/// Each byte of a match is the one `distance` before it, which may be one of the
/// match itself. Before the first byte there are zeros.
pub proof fn lemma_repeat_bytes(history: Seq<u8>, distance: nat, length: nat)
    ensures
        forall|i: int|
            history.len() <= i < history.len() + length ==> #[trigger] repeat(
                history,
                distance,
                length,
            )[i] == (if 1 <= distance <= i {
                repeat(history, distance, length)[i - distance]
            } else {
                0
            }),
    decreases length,
{
    if length > 0 {
        let m = (length - 1) as nat;
        let before = repeat(history, distance, m);
        let all = repeat(history, distance, length);
        lemma_repeat_bytes(history, distance, m);
        lemma_repeat(history, distance, m);
        assert forall|i: int| history.len() <= i < history.len() + length implies #[trigger] all[i]
            == (if 1 <= distance <= i {
            all[i - distance]
        } else {
            0
        }) by {
            if i < before.len() {
                assert(all[i] == before[i]);
            }
        }
    }
}

/// A symbol decodes to bytes behind those before it, at least one, and no more
/// than wanted. A failed one decodes to none.
pub proof fn lemma_token_grows(st: State, room: nat)
    requires
        room > 0,
    ensures
        ({
            let (r, next) = read_token(st, room);
            &&& r is Ok ==> st.history.len() < next.history.len() <= st.history.len() + room
            &&& r is Err ==> next.history == st.history
            &&& next.history.take(st.history.len() as int) == st.history
        }),
{
    reveal(read_token);
    assert forall|d: nat, l: nat| (#[trigger] repeat(st.history, d, l)).len() == st.history.len() + l
        && repeat(st.history, d, l).take(st.history.len() as int) == st.history by {
        lemma_repeat(st.history, d, l);
    }
    assert(st.history.take(st.history.len() as int) =~= st.history);
    assert forall|b: u8| (#[trigger] st.history.push(b)).take(st.history.len() as int)
        == st.history by {
        assert(st.history.push(b).take(st.history.len() as int) =~= st.history);
    }
}

/// A block header decodes to no bytes.
pub proof fn lemma_header_keeps(st: State)
    ensures
        read_header(st).1.history == st.history,
{
    reveal(read_body);
}

proof fn lemma_token_room(st: State, room: nat, more: nat)
    ensures
        read_token(st, room).0 is Ok ==> read_token(st, room + more) == read_token(st, room),
{
    reveal(read_token);
}

/// Decoding in pieces is the same as decoding all at once, wherever the first piece
/// ends between two symbols.
pub proof fn lemma_run_pieces(st: State, a: nat, b: nat)
    ensures
        run(st, a).0 is Ok ==> run(st, a + b) == run(run(st, a).1, b),
    decreases a,
{
    reveal_with_fuel(run, 1);
    if a > 0 && run(st, a).0 is Ok {
        let ready = if st.remaining == 0 {
            read_header(st).1
        } else {
            st
        };
        let next = read_token(ready, a).1;
        let n = (next.history.len() - ready.history.len()) as nat;
        lemma_token_grows(ready, a);
        lemma_token_grows(ready, a + b);
        lemma_token_room(ready, a, b);
        lemma_run_pieces(next, (a - n) as nat, b);
        assert((a + b - n) as nat == (a - n) as nat + b);
    }
}

/// Stream decoder. Keeps the code lengths and the tables built from them, the
/// last distance, and a circular window of the bytes decoded last.
pub struct Decoder<'a> {
    reader: BitReader<'a>,
    literal_len: Vec<u8>,
    offset_len: Vec<u8>,
    literal_table: Vec<u16>,
    offset_table: Vec<u16>,
    decrunch_method: u8,
    block_remaining: u32,
    last_offset: u32,
    window: Vec<u8>,
    window_pos: usize,
    /// A main tree has been read.
    primed: bool,
    /// Code lengths that `literal_table` was built from.
    coded: Ghost<Seq<u8>>,
    history: Ghost<Seq<u8>>,
}

/// The window holds the last bytes, the next one to overwrite being the
/// oldest.
spec fn window_holds(window: Seq<u8>, pos: int, history: Seq<u8>) -> bool {
    &&& window.len() == WINDOW_SIZE
    &&& 0 <= pos < WINDOW_SIZE
    &&& forall|i: int|
        0 <= i < WINDOW_SIZE ==> #[trigger] window[i] == at(
            history,
            if i < pos {
                (pos - i) as nat
            } else {
                (pos + WINDOW_SIZE - i) as nat
            },
        )
}

proof fn lemma_window_push(window: Seq<u8>, pos: int, history: Seq<u8>, b: u8)
    requires
        window_holds(window, pos, history),
    ensures
        window_holds(
            window.update(pos, b),
            if pos + 1 == WINDOW_SIZE {
                0
            } else {
                pos + 1
            },
            history.push(b),
        ),
{
    let next = window.update(pos, b);
    let p: int = if pos + 1 == WINDOW_SIZE {
        0
    } else {
        pos + 1
    };
    assert forall|i: int| 0 <= i < WINDOW_SIZE implies #[trigger] next[i] == at(
        history.push(b),
        if i < p {
            (p - i) as nat
        } else {
            (p + WINDOW_SIZE - i) as nat
        },
    ) by {
        if i != pos {
            assert(next[i] == window[i]);
        }
    }
}

impl<'a> Decoder<'a> {
    pub closed spec fn wf(&self) -> bool {
        &&& self.reader.wf()
        &&& self.literal_len@.len() == MAIN_SYMBOLS
        &&& self.offset_len@.len() == ALIGNED_SYMBOLS
        &&& self.coded@.len() == MAIN_SYMBOLS
        &&& self.primed == code::decodable(self.coded@, 12)
        &&& self.primed ==> decode::table_ok(self.literal_table@, self.coded@, 12)
        &&& forall|i: int| 0 <= i < MAIN_SYMBOLS ==> #[trigger] self.literal_len@[i] <= 16
        &&& self.decrunch_method == 3 && self.block_remaining > 0 ==> code::decodable(self.offset_len@, 7)
            && decode::table_ok(self.offset_table@, self.offset_len@, 7)
        &&& 1 <= self.last_offset < WINDOW_SIZE
        &&& window_holds(self.window@, self.window_pos as int, self.history@)
    }

    /// The state of the decoder.
    pub closed spec fn state(&self) -> State {
        State {
            main: self.literal_len@,
            table: self.coded@,
            aligned: self.offset_len@,
            method: self.decrunch_method as nat,
            remaining: self.block_remaining as nat,
            last: self.last_offset as nat,
            history: self.history@,
            input: self.reader.input(),
        }
    }

    pub fn new(input: &'a [u8]) -> (d: Self)
        ensures
            d.wf(),
            d.state() == initial(
                (bits::Input { bits: bits::word_bits(input@), odd: input@.len() % 2 == 1 }),
            ),
    {
        let d = Decoder {
            reader: BitReader::new(input),
            literal_len: vec![0u8; MAIN_SYMBOLS],
            offset_len: vec![0u8; ALIGNED_SYMBOLS],
            literal_table: Vec::new(),
            offset_table: Vec::new(),
            decrunch_method: 0,
            block_remaining: 0,
            last_offset: 1,
            window: vec![0u8; WINDOW_SIZE],
            window_pos: 0,
            primed: false,
            coded: Ghost(Seq::new(MAIN_SYMBOLS as nat, |i: int| 0u8)),
            history: Ghost(Seq::empty()),
        };
        proof {
            lemma_no_code(d.coded@);
            assert(d.state() =~= initial(
                (bits::Input { bits: bits::word_bits(input@), odd: input@.len() % 2 == 1 }),
            ));
        }
        d
    }

    /// Append a byte to the output and to the window.
    fn emit(&mut self, out: &mut Vec<u8>, b: u8)
        requires
            old(self).wf(),
        ensures
            final(self).wf(),
            final(self).state() == (State {
                history: old(self).state().history.push(b),
                ..old(self).state()
            }),
            final(out)@ == old(out)@.push(b),
    {
        proof {
            lemma_window_push(self.window@, self.window_pos as int, self.history@, b);
        }
        out.push(b);
        self.window[self.window_pos] = b;
        self.window_pos = if self.window_pos + 1 == WINDOW_SIZE {
            0
        } else {
            self.window_pos + 1
        };
        self.history = Ghost(self.history@.push(b));
    }

    /// Repeat `length` bytes from the last distance back.
    fn copy_match(&mut self, out: &mut Vec<u8>, length: usize)
        requires
            old(self).wf(),
        ensures
            final(self).wf(),
            final(self).state() == (State {
                history: repeat(
                    old(self).state().history,
                    old(self).state().last,
                    length as nat,
                ),
                ..old(self).state()
            }),
            final(out)@ == old(out)@ + repeat(
                old(self).state().history,
                old(self).state().last,
                length as nat,
            ).skip(old(self).state().history.len() as int),
    {
        let ghost h = self.history@;
        let ghost dist = self.last_offset as nat;
        let mut i: usize = 0;
        assert(out@ =~= old(out)@ + repeat(h, dist, 0).skip(h.len() as int));
        while i < length
            invariant
                i <= length,
                self.wf(),
                h == old(self).state().history,
                dist == old(self).state().last,
                self.state() == (State {
                    history: repeat(h, dist, i as nat),
                    ..old(self).state()
                }),
                out@ == old(out)@ + repeat(h, dist, i as nat).skip(h.len() as int),
            decreases length - i,
        {
            let back = self.last_offset as usize;
            let src: usize = if back <= self.window_pos {
                self.window_pos - back
            } else {
                self.window_pos + WINDOW_SIZE - back
            };
            let b = self.window[src];
            let ghost before = out@;
            self.emit(out, b);
            i += 1;
            proof {
                lemma_repeat(h, dist, (i - 1) as nat);
                assert(out@ =~= old(out)@ + repeat(h, dist, i as nat).skip(h.len() as int));
            }
        }
    }

    fn read_block_header(&mut self) -> (r: Result<()>)
        requires
            old(self).wf(),
            old(self).state().remaining == 0,
        ensures
            final(self).wf(),
            (r, final(self).state()) == read_header(old(self).state()),
    {
        proof {
            lemma2_to64();
            reveal(read_body);
        }
        let method = self.reader.read_bits(3)? as u8;
        if method == 0 || method > 3 {
            return Err(Error::InvalidArchive("unknown block type"));
        }
        self.decrunch_method = method;
        if method == 3 {
            read_widths(&mut self.reader, &mut self.offset_len, 3)?;
            self.offset_table =
            make_decode_table(ALIGNED_SYMBOLS, ALIGNED_TABLE_BITS, &self.offset_len)?;
        }
        let size = read_block_size(&mut self.reader)?;
        self.block_remaining = size;
        if method != 1 {
            read_tree_lengths(&mut self.reader, &mut self.literal_len)?;
            self.literal_table =
            make_decode_table(MAIN_SYMBOLS, MAIN_TABLE_BITS, &self.literal_len)?;
            self.coded = Ghost(self.literal_len@);
            self.primed = true;
        }
        Ok(())
    }

    /// Read the footer of a position slot.
    fn read_position_footer(&mut self, width: u32) -> (r: Result<u32>)
        requires
            old(self).wf(),
            old(self).state().remaining > 0,
            width <= 14,
        ensures
            final(self).wf(),
            final(self).state() == (State {
                input: read_footer(old(self).state(), width as nat, old(self).state().input).1,
                ..old(self).state()
            }),
            match r {
                Ok(v) => v < pow2(width as nat) && read_footer(
                    old(self).state(),
                    width as nat,
                    old(self).state().input,
                ).0 == Ok::<nat, Error>(v as nat),
                Err(e) => read_footer(
                    old(self).state(),
                    width as nat,
                    old(self).state().input,
                ).0 == Err::<nat, Error>(e),
            },
    {
        proof {
            bits::lemma_pow2_small();
            bits::lemma_pow2_le(width as nat, 15);
        }
        if width >= 3 && self.decrunch_method == 3 {
            let top = self.reader.read_bits(width - 3)?;
            assert(decode::decodes(self.offset_table@, self.offset_len@, self.offset_len@, 7));
            let low = decode_symbol(
                &mut self.reader,
                &self.offset_table,
                &self.offset_len,
                ALIGNED_SYMBOLS,
                ALIGNED_TABLE_BITS,
            )?;
            proof {
                lemma_pow2_adds(3, (width - 3) as nat);
                bits::lemma_pow2_le((width - 3) as nat, 15);
            }
            Ok(8 * top + low as u32)
        } else {
            self.reader.read_bits(width)
        }
    }

    /// Decode the rest of a match.
    fn decode_match(&mut self, out: &mut Vec<u8>, lslot: usize, distance: u32, room: usize) -> (r:
        Result<()>)
        requires
            old(self).wf(),
            lslot < 16,
            distance < WINDOW_SIZE,
        ensures
            final(self).wf(),
            (r, final(self).state()) == read_match(
                old(self).state(),
                lslot as int,
                distance as nat,
                old(self).state().input,
                room as nat,
            ),
            extends(
                old(self).state().history,
                final(self).state().history,
                old(out)@,
                final(out)@,
            ),
    {
        proof {
            lemma_extends_nothing(self.history@, out@);
            bits::lemma_pow2_small();
        }
        if distance != 0 {
            self.last_offset = distance;
        }
        let lbits = TABLE_ONE[lslot] as u32;
        proof {
            assert(TABLE_ONE@[lslot as int] <= 6);
            assert(TABLE_TWO@[lslot as int] <= 192);
            bits::lemma_pow2_le(lbits as nat, 8);
        }
        let extra = self.reader.read_bits(lbits)?;
        let length: usize = TABLE_TWO[lslot] as usize + MIN_MATCH + extra as usize;
        if length > self.block_remaining as usize {
            return Err(Error::InvalidArchive("match runs past block end"));
        }
        if length > room {
            return Err(Error::InvalidArchive("decoded data exceeds expected length"));
        }
        proof {
            lemma_repeat(self.history@, self.last_offset as nat, length as nat);
        }
        self.copy_match(out, length);
        self.block_remaining = self.block_remaining - length as u32;
        Ok(())
    }

    /// Decode one symbol of the current block.
    fn decode_token(&mut self, out: &mut Vec<u8>, room: usize) -> (r: Result<()>)
        requires
            old(self).wf(),
            old(self).state().remaining > 0,
            room > 0,
        ensures
            final(self).wf(),
            (r, final(self).state()) == read_token(old(self).state(), room as nat),
            extends(
                old(self).state().history,
                final(self).state().history,
                old(out)@,
                final(out)@,
            ),
    {
        proof {
            lemma_extends_nothing(self.history@, out@);
            reveal(read_token);
        }
        if !self.primed {
            return Err(Error::BadHuffmanTree);
        }
        assert(decode::decodes(self.literal_table@, self.coded@, self.literal_len@, 12));
        let symbol = decode_symbol(
            &mut self.reader,
            &self.literal_table,
            &self.literal_len,
            MAIN_SYMBOLS,
            MAIN_TABLE_BITS,
        )?;
        if (symbol as usize) < LITERAL_SYMBOLS {
            self.block_remaining = self.block_remaining - 1;
            proof {
                let h = self.history@;
                let b = symbol as u8;
                assert(h.push(b).take(h.len() as int) =~= h);
                assert(out@.push(b) =~= out@ + h.push(b).skip(h.len() as int));
            }
            self.emit(out, symbol as u8);
            Ok(())
        } else {
            let m: usize = symbol as usize - LITERAL_SYMBOLS;
            let pslot: usize = m % 32;
            let lslot: usize = m / 32;
            let pbits = TABLE_ONE[pslot] as u32;
            proof {
                assert(TABLE_ONE@[pslot as int] <= 14);
                constants::lemma_slot_end(pslot as int);
            }
            let footer = self.read_position_footer(pbits)?;
            let distance: u32 = TABLE_TWO[pslot] + footer;
            self.decode_match(out, lslot, distance, room)
        }
    }

    /// Decode symbols until the block ends or the output has `target` bytes.
    fn decode_some(&mut self, out: &mut Vec<u8>, target: usize) -> (r: Result<()>)
        requires
            old(self).wf(),
            old(self).state().remaining > 0,
            old(out)@.len() < target,
        ensures
            final(self).wf(),
            extends(
                old(self).state().history,
                final(self).state().history,
                old(out)@,
                final(out)@,
            ),
            match r {
                Ok(_) => {
                    &&& old(out)@.len() < final(out)@.len() <= target
                    &&& run(old(self).state(), (target - old(out)@.len()) as nat) == run(
                        final(self).state(),
                        (target - final(out)@.len()) as nat,
                    )
                    &&& final(self).state().remaining == 0 || final(out)@.len() == target
                },
                Err(e) => run(old(self).state(), (target - old(out)@.len()) as nat) == (
                    Err::<(), Error>(e),
                    final(self).state(),
                ),
            },
    {
        let ghost st = self.state();
        let ghost start = out@;
        proof {
            lemma_extends_nothing(self.history@, out@);
        }
        while self.block_remaining > 0 && out.len() < target
            invariant
                self.wf(),
                st == old(self).state(),
                start == old(out)@,
                start.len() <= out@.len() <= target,
                start.len() < target,
                out@.len() == start.len() ==> self.state() == st && st.remaining > 0,
                extends(st.history, self.state().history, start, out@),
                run(st, (target - start.len()) as nat) == run(
                    self.state(),
                    (target - out@.len()) as nat,
                ),
            decreases target - out@.len(),
        {
            let room: usize = target - out.len();
            let ghost mid = self.state();
            let ghost between = out@;
            proof {
                reveal_with_fuel(run, 1);
                lemma_token_grows(mid, room as nat);
            }
            let r = self.decode_token(out, room);
            proof {
                lemma_extends(
                    st.history,
                    mid.history,
                    self.state().history,
                    start,
                    between,
                    out@,
                );
            }
            match r {
                Ok(()) => {},
                Err(e) => {
                    return Err(e);
                },
            }
        }
        Ok(())
    }

    /// Decode `expected` bytes and append them to `out`. Reads as many blocks as
    /// that takes. An error leaves those bytes in `out` that came before it.
    pub fn decode_into(&mut self, out: &mut Vec<u8>, expected: usize) -> (r: Result<()>)
        requires
            old(self).wf(),
            old(out)@.len() + expected <= usize::MAX,
        ensures
            final(self).wf(),
            (r, final(self).state()) == run(old(self).state(), expected as nat),
            extends(
                old(self).state().history,
                final(self).state().history,
                old(out)@,
                final(out)@,
            ),
    {
        let ghost st = self.state();
        let ghost start = out@;
        proof {
            lemma_extends_nothing(self.history@, out@);
        }
        let target: usize = out.len() + expected;
        while out.len() < target
            invariant
                self.wf(),
                st == old(self).state(),
                start == old(out)@,
                target == start.len() + expected,
                out@.len() <= target,
                extends(st.history, self.state().history, start, out@),
                run(st, expected as nat) == run(self.state(), (target - out@.len()) as nat),
            decreases target - out@.len(),
        {
            let ghost mid = self.state();
            let ghost between = out@;
            proof {
                reveal_with_fuel(run, 1);
                lemma_header_keeps(mid);
            }
            if self.block_remaining == 0 {
                match self.read_block_header() {
                    Ok(()) => {},
                    Err(e) => {
                        return Err(e);
                    },
                }
                if self.block_remaining == 0 {
                    return Err(Error::Truncated);
                }
            }
            let r = self.decode_some(out, target);
            proof {
                lemma_extends(
                    st.history,
                    mid.history,
                    self.state().history,
                    start,
                    between,
                    out@,
                );
            }
            match r {
                Ok(()) => {},
                Err(e) => {
                    return Err(e);
                },
            }
        }
        proof {
            reveal_with_fuel(run, 1);
        }
        Ok(())
    }
}

/// Read the number of bytes that a block decodes to.
fn read_block_size(reader: &mut BitReader<'_>) -> (r: Result<u32>)
    requires
        old(reader).wf(),
    ensures
        final(reader).wf(),
        final(reader).input() == read_size(old(reader).input()).1,
        match r {
            Ok(n) => read_size(old(reader).input()).0 == Ok::<nat, Error>(n as nat),
            Err(e) => read_size(old(reader).input()).0 == Err::<nat, Error>(e),
        },
{
    proof {
        bits::lemma_pow2_small();
    }
    let a = reader.read_bits(8)?;
    let b = reader.read_bits(8)?;
    let c = reader.read_bits(8)?;
    Ok(65536 * a + 256 * b + c)
}

/// Read numbers of `width` bits each over the lengths. An error leaves the
/// lengths changed that came before it.
fn read_widths(reader: &mut BitReader<'_>, lengths: &mut Vec<u8>, width: u32) -> (r: Result<()>)
    requires
        old(reader).wf(),
        width <= 8,
    ensures
        final(reader).wf(),
        final(lengths)@.len() == old(lengths)@.len(),
        (r, final(lengths)@, final(reader).input()) == read_over(
            old(lengths)@,
            0,
            width as nat,
            old(reader).input(),
        ),
{
    let n = lengths.len();
    let mut i: usize = 0;
    let ghost model = read_over(lengths@, 0, width as nat, reader.input());
    while i < n
        invariant
            reader.wf(),
            width <= 8,
            i <= n == lengths@.len() == old(lengths)@.len(),
            model == read_over(old(lengths)@, 0, width as nat, old(reader).input()),
            model == read_over(lengths@, i as nat, width as nat, reader.input()),
        decreases n - i,
    {
        let v = match reader.read_bits_u8(width) {
            Ok(v) => v,
            Err(e) => {
                return Err(e);
            },
        };
        lengths[i] = v;
        i += 1;
    }
    Ok(())
}

/// Read both sections of the main tree over the lengths. An error leaves the
/// lengths changed that came before it.
fn read_tree_lengths(reader: &mut BitReader<'_>, lengths: &mut Vec<u8>) -> (r: Result<()>)
    requires
        old(reader).wf(),
        old(lengths)@.len() == MAIN_SYMBOLS,
        forall|i: int| 0 <= i < MAIN_SYMBOLS ==> #[trigger] old(lengths)@[i] <= 16,
    ensures
        final(reader).wf(),
        final(lengths)@.len() == MAIN_SYMBOLS,
        forall|i: int| 0 <= i < MAIN_SYMBOLS ==> #[trigger] final(lengths)@[i] <= 16,
        (r, final(lengths)@, final(reader).input()) == read_tree(
            old(lengths)@,
            old(reader).input(),
        ),
{
    let ghost all = lengths@;
    let ghost n = LITERAL_SYMBOLS as int;
    let (literals, matches) = lengths.split_at_mut(LITERAL_SYMBOLS);
    proof {
        assert(literals@ =~= all.take(n));
        assert(matches@ =~= all.skip(n));
        pretree::lemma_section_bound(Section::Literal, literals@, reader.input());
    }
    match decode_section(reader, Section::Literal, literals) {
        Ok(()) => {},
        Err(e) => {
            return Err(e);
        },
    }
    proof {
        pretree::lemma_section_bound(Section::Match, matches@, reader.input());
    }
    decode_section(reader, Section::Match, matches)
}

/// Both the history and the output have grown by the same bytes.
pub open spec fn extends(h0: Seq<u8>, h1: Seq<u8>, out0: Seq<u8>, out1: Seq<u8>) -> bool {
    &&& h0.len() <= h1.len()
    &&& h1.take(h0.len() as int) == h0
    &&& out1 == out0 + h1.skip(h0.len() as int)
}

proof fn lemma_extends_nothing(h: Seq<u8>, out: Seq<u8>)
    ensures
        extends(h, h, out, out),
{
    assert(h.take(h.len() as int) =~= h);
    assert(out =~= out + h.skip(h.len() as int));
}

proof fn lemma_extends(
    h0: Seq<u8>,
    h1: Seq<u8>,
    h2: Seq<u8>,
    out0: Seq<u8>,
    out1: Seq<u8>,
    out2: Seq<u8>,
)
    requires
        extends(h0, h1, out0, out1),
        extends(h1, h2, out1, out2),
    ensures
        extends(h0, h2, out0, out2),
{
    let n = h0.len() as int;
    let m = h1.len() as int;
    assert(h2.take(n) =~= h2.take(m).take(n));
    assert(h2.skip(n) =~= h2.take(m).skip(n) + h2.skip(m));
    assert(out2 =~= out0 + h2.skip(n));
}

/// What `expected` bytes of a stream decode to.
pub open spec fn decoded(input: Seq<u8>, expected: nat) -> Result<Seq<u8>> {
    let st = initial(bits::Input { bits: bits::word_bits(input), odd: input.len() % 2 == 1 });
    match run(st, expected) {
        (Ok(_), after) => Ok(after.history),
        (Err(e), _) => Err(e),
    }
}

/// Decoding that succeeds gives as many bytes as wanted.
pub proof fn lemma_run_len(st: State, room: nat)
    ensures
        run(st, room).0 is Ok ==> run(st, room).1.history.len() == st.history.len() + room,
    decreases room,
{
    reveal_with_fuel(run, 1);
    if room > 0 {
        let opened = if st.remaining == 0 {
            read_header(st)
        } else {
            (Ok(()), st)
        };
        let ready = opened.1;
        lemma_header_keeps(st);
        lemma_token_grows(ready, room);
        let (r, next) = read_token(ready, room);
        if opened.0 is Ok && ready.remaining > 0 && r is Ok {
            lemma_run_len(next, (room - (next.history.len() - ready.history.len())) as nat);
        }
    }
}

/// A stream decodes to as many bytes as wanted, or not at all.
pub proof fn lemma_decoded_len(input: Seq<u8>, expected: nat)
    ensures
        decoded(input, expected) matches Ok(out) ==> out.len() == expected,
{
    let st = initial(bits::Input { bits: bits::word_bits(input), odd: input.len() % 2 == 1 });
    lemma_run_len(st, expected);
}

/// Decode `expected` bytes of a stream.
pub fn decode(input: &[u8], expected: usize) -> (r: Result<Vec<u8>>)
    ensures
        match r {
            Ok(out) => decoded(input@, expected as nat) == Ok::<Seq<u8>, Error>(out@),
            Err(e) => decoded(input@, expected as nat) == Err::<Seq<u8>, Error>(e),
        },
{
    let mut dec = Decoder::new(input);
    let mut out: Vec<u8> = Vec::new();
    dec.decode_into(&mut out, expected)?;
    proof {
        let h = dec.state().history;
        assert(out@ =~= h);
    }
    Ok(out)
}

/// Without code lengths there is no code.
proof fn lemma_no_code(lengths: Seq<u8>)
    requires
        forall|i: int| 0 <= i < lengths.len() ==> #[trigger] lengths[i] == 0,
    ensures
        !code::decodable(lengths, 12),
{
    code::lemma_reach_is_sum(lengths, 16);
    code::lemma_reach_is_sum(lengths, 12);
    lemma_no_widths(lengths, 16, lengths.len());
    lemma_no_widths(lengths, 12, lengths.len());
}

proof fn lemma_no_widths(lengths: Seq<u8>, l: nat, k: nat)
    requires
        k <= lengths.len(),
        forall|i: int| 0 <= i < lengths.len() ==> #[trigger] lengths[i] == 0,
    ensures
        code::width_sum(lengths, l, k) == 0,
    decreases k,
{
    if k > 0 {
        lemma_no_widths(lengths, l, (k - 1) as nat);
    }
}

} // verus!
