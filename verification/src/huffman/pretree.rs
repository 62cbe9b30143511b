//! Code lengths as differences to those of the previous block.
//!
//! A section of code lengths travels as symbols of a small Huffman code, the
//! pretree. The symbols 0 to 16 are the difference of one length to its old
//! value. 17 and 18 set a run of lengths to zero, and 19 gives the lengths of a
//! run one common new value.

use vstd::prelude::*;
use vstd::arithmetic::power2::*;

use crate::bitio::{BitReader, BitWriter};
use crate::bits;
use crate::error::{Error, Result};
use crate::huffman::build::optimal;
use crate::huffman::build::package;
use crate::huffman::build::{build_lengths, canonical_codes, write_code};
use crate::huffman::code;
use crate::huffman::decode;
use crate::huffman::decode::{decode_symbol, make_decode_table};

verus! {

pub const PRETREE_NUM_SYMBOLS: usize = 20;

pub const PRETREE_TABLE_BITS: u32 = 6;

pub const PRETREE_LENGTH_BITS: u32 = 4;

/// The part of the main tree that a section describes.
#[derive(Debug, Clone, Copy, PartialEq, Eq, Structural)]
pub enum Section {
    /// The lengths of the literals.
    Literal,
    /// The lengths of the match symbols.
    Match,
}

impl Section {
    /// The shortest run that is worth a run symbol.
    #[verifier::allow_in_spec]
    pub fn run_threshold(self) -> usize
        returns
            (match self {
                Section::Literal => 4usize,
                Section::Match => 3usize,
            }),
    {
        match self {
            Section::Literal => 4,
            Section::Match => 3,
        }
    }

    #[verifier::allow_in_spec]
    pub fn sym17_extra_bits(self) -> u32
        returns
            4u32,
    {
        4
    }

    /// The shortest run of symbol 17.
    #[verifier::allow_in_spec]
    pub fn sym17_base(self) -> usize
        returns
            (match self {
                Section::Literal => 4usize,
                Section::Match => 3usize,
            }),
    {
        match self {
            Section::Literal => 4,
            Section::Match => 3,
        }
    }

    #[verifier::allow_in_spec]
    pub fn sym18_extra_bits(self) -> u32
        returns
            (match self {
                Section::Literal => 5u32,
                Section::Match => 6u32,
            }),
    {
        match self {
            Section::Literal => 5,
            Section::Match => 6,
        }
    }

    /// The shortest run of symbol 18.
    #[verifier::allow_in_spec]
    pub fn sym18_base(self) -> usize
        returns
            (match self {
                Section::Literal => 20usize,
                Section::Match => 19usize,
            }),
    {
        match self {
            Section::Literal => 20,
            Section::Match => 19,
        }
    }

    #[verifier::allow_in_spec]
    pub fn sym19_extra_bits(self) -> u32
        returns
            1u32,
    {
        1
    }

    /// The shortest run of symbol 19.
    #[verifier::allow_in_spec]
    pub fn sym19_base(self) -> usize
        returns
            (match self {
                Section::Literal => 4usize,
                Section::Match => 3usize,
            }),
    {
        match self {
            Section::Literal => 4,
            Section::Match => 3,
        }
    }

    /// The longest run of symbol 17.
    #[verifier::allow_in_spec]
    pub fn sym17_max(self) -> usize
        returns
            (match self {
                Section::Literal => 19usize,
                Section::Match => 18usize,
            }),
    {
        self.sym17_base() + 15
    }

    /// The longest run of symbol 18.
    #[verifier::allow_in_spec]
    pub fn sym18_max(self) -> usize
        returns
            (match self {
                Section::Literal => 51usize,
                Section::Match => 82usize,
            }),
    {
        match self {
            Section::Literal => self.sym18_base() + 31,
            Section::Match => self.sym18_base() + 63,
        }
    }

    /// The longest run of symbol 19.
    #[verifier::allow_in_spec]
    pub fn sym19_max(self) -> usize
        returns
            (match self {
                Section::Literal => 5usize,
                Section::Match => 4usize,
            }),
    {
        self.sym19_base() + 1
    }
}

/// Each run symbol covers exactly the runs from its base on that its extra
/// bits can tell apart.
pub proof fn lemma_run_ranges(section: Section)
    ensures
        section.sym17_max() == section.sym17_base() + pow2(section.sym17_extra_bits() as nat) - 1,
        section.sym18_max() == section.sym18_base() + pow2(section.sym18_extra_bits() as nat) - 1,
        section.sym19_max() == section.sym19_base() + pow2(section.sym19_extra_bits() as nat) - 1,
        section.sym18_base() == section.sym17_max() + 1,
        section.sym17_base() == section.run_threshold(),
        section.sym19_base() == section.run_threshold(),
{
    lemma2_to64();
}

/// The difference of two lengths, modulo 17.
pub open spec fn delta(prev: int, curr: int) -> int {
    (prev - curr) % 17
}

/// The pretree symbol that turns `prev` into `curr`.
pub fn delta_symbol(prev: u8, curr: u8) -> (sym: u8)
    ensures
        sym == delta(prev as int, curr as int),
        sym <= 16,
{
    // 255 is a multiple of 17.
    ((255 + prev as u32 - curr as u32) % 17) as u8
}

/// The length that a pretree symbol turns `prev` into.
pub fn apply_delta(prev: u8, sym: u8) -> (curr: u8)
    ensures
        curr == delta(prev as int, sym as int),
        curr <= 16,
{
    ((255 + prev as u32 - sym as u32) % 17) as u8
}

/// Applying the difference of two lengths to the old one gives the new one.
pub proof fn lemma_delta_then_apply(prev: int, curr: int)
    requires
        0 <= curr <= 16,
    ensures
        delta(prev, delta(prev, curr)) == curr,
{
}

/// Read `n` numbers of `width` bits each behind those in `acc`.
pub open spec fn read_numbers(input: bits::Input, n: nat, width: nat, acc: Seq<u8>) -> (
    Result<Seq<u8>>,
    bits::Input,
)
    decreases n - acc.len(),
{
    if acc.len() >= n {
        (Ok(acc), input)
    } else {
        match bits::read_number(input, width) {
            (Ok(v), rest) => read_numbers(rest, n, width, acc.push(v as u8)),
            (Err(e), rest) => (Err(e), rest),
        }
    }
}

/// The lengths after a run of `run` of them from `i` on has been set to `l`.
pub open spec fn set_run(lengths: Seq<u8>, i: nat, run: nat, l: u8) -> Seq<u8> {
    Seq::new(
        lengths.len(),
        |j: int|
            if i <= j < i + run {
                l
            } else {
                lengths[j]
            },
    )
}

/// Where a run of `run` lengths from `i` on ends.
pub open spec fn run_end(lengths: Seq<u8>, i: nat, run: nat) -> nat {
    if i + run <= lengths.len() {
        i + run
    } else {
        lengths.len()
    }
}

/// Read the next of the lengths, from `i` on, with the pretree whose code lengths
/// are `pretree`: the lengths and the place behind what was read, and what is
/// left.
pub open spec fn read_step(
    section: Section,
    pretree: Seq<u8>,
    lengths: Seq<u8>,
    i: nat,
    input: bits::Input,
) -> (Result<(Seq<u8>, nat)>, bits::Input) {
    match decode::read_symbol(pretree, PRETREE_TABLE_BITS as nat, input) {
        (Err(e), rest) => (Err(e), rest),
        (Ok(sym), after) => if sym <= 16 {
            let l = delta(lengths[i as int] as int, sym as int) as u8;
            (Ok((lengths.update(i as int, l), i + 1)), after)
        } else if sym == 17 {
            match bits::read_number(after, section.sym17_extra_bits() as nat) {
                (Err(e), rest) => (Err(e), rest),
                (Ok(extra), rest) => {
                    let run = section.sym17_base() as nat + extra;
                    (Ok((set_run(lengths, i, run, 0), run_end(lengths, i, run))), rest)
                },
            }
        } else if sym == 18 {
            match bits::read_number(after, section.sym18_extra_bits() as nat) {
                (Err(e), rest) => (Err(e), rest),
                (Ok(extra), rest) => {
                    let run = section.sym18_base() as nat + extra;
                    (Ok((set_run(lengths, i, run, 0), run_end(lengths, i, run))), rest)
                },
            }
        } else {
            match bits::read_number(after, section.sym19_extra_bits() as nat) {
                (Err(e), rest) => (Err(e), rest),
                (Ok(extra), behind) => match decode::read_symbol(
                    pretree,
                    PRETREE_TABLE_BITS as nat,
                    behind,
                ) {
                    (Err(e), rest) => (Err(e), rest),
                    (Ok(d), rest) => if d > 16 {
                        (Err(Error::BadHuffmanTree), rest)
                    } else {
                        let run = section.sym19_base() as nat + extra;
                        let l = delta(lengths[i as int] as int, d as int) as u8;
                        (Ok((set_run(lengths, i, run, l), run_end(lengths, i, run))), rest)
                    },
                },
            }
        },
    }
}

/// Read the lengths from `i` on: the outcome, the lengths, and what is left.
#[verifier::opaque]
pub open spec fn read_entries(
    section: Section,
    pretree: Seq<u8>,
    lengths: Seq<u8>,
    i: nat,
    input: bits::Input,
) -> (Result<()>, Seq<u8>, bits::Input)
    decreases lengths.len() - i,
{
    if i >= lengths.len() {
        (Ok(()), lengths, input)
    } else {
        match read_step(section, pretree, lengths, i, input) {
            (Err(e), rest) => (Err(e), lengths, rest),
            (Ok((l, j)), rest) => read_entries(section, pretree, l, j, rest),
        }
    }
}

/// Read a section over the old lengths: the outcome, the lengths, and what is
/// left.
pub open spec fn read_section(section: Section, lengths: Seq<u8>, input: bits::Input) -> (
    Result<()>,
    Seq<u8>,
    bits::Input,
) {
    match read_numbers(
        input,
        PRETREE_NUM_SYMBOLS as nat,
        PRETREE_LENGTH_BITS as nat,
        Seq::empty(),
    ) {
        (Err(e), rest) => (Err(e), lengths, rest),
        (Ok(pretree), rest) => if code::decodable(pretree, PRETREE_TABLE_BITS as nat) {
            read_entries(section, pretree, lengths, 0, rest)
        } else {
            (Err(Error::BadHuffmanTree), lengths, rest)
        },
    }
}

pub open spec fn max(a: nat, b: nat) -> nat {
    if a >= b {
        a
    } else {
        b
    }
}

/// How many bits reading the next of the lengths looks at.
pub open spec fn step_looked(section: Section, pretree: Seq<u8>, input: bits::Input) -> nat {
    let index = PRETREE_TABLE_BITS as nat;
    let looked = decode::symbol_looked(pretree, index, input);
    match decode::read_symbol(pretree, index, input) {
        (Err(_), _) => looked,
        (Ok(sym), after) => {
            let at = (input.bits.len() - after.bits.len()) as nat;
            if sym <= 16 {
                looked
            } else if sym == 17 {
                max(looked, at + section.sym17_extra_bits() as nat)
            } else if sym == 18 {
                max(looked, at + section.sym18_extra_bits() as nat)
            } else {
                let width = section.sym19_extra_bits() as nat;
                match bits::read_number(after, width) {
                    (Err(_), _) => max(looked, at + width),
                    (Ok(_), behind) => max(
                        looked,
                        at + width + decode::symbol_looked(pretree, index, behind),
                    ),
                }
            }
        },
    }
}

/// How many bits reading the lengths from `i` on looks at.
#[verifier::opaque]
pub open spec fn entries_looked(
    section: Section,
    pretree: Seq<u8>,
    lengths: Seq<u8>,
    i: nat,
    input: bits::Input,
) -> nat
    decreases lengths.len() - i,
{
    if i >= lengths.len() {
        0
    } else {
        let looked = step_looked(section, pretree, input);
        match read_step(section, pretree, lengths, i, input) {
            (Err(_), _) => looked,
            (Ok((l, j)), rest) => max(
                looked,
                (input.bits.len() - rest.bits.len()) as nat + entries_looked(
                    section,
                    pretree,
                    l,
                    j,
                    rest,
                ),
            ),
        }
    }
}

/// How many bits reading a section looks at.
pub open spec fn section_looked(section: Section, lengths: Seq<u8>, input: bits::Input) -> nat {
    let head = (PRETREE_NUM_SYMBOLS * PRETREE_LENGTH_BITS) as nat;
    match read_numbers(
        input,
        PRETREE_NUM_SYMBOLS as nat,
        PRETREE_LENGTH_BITS as nat,
        Seq::empty(),
    ) {
        (Err(_), _) => head,
        (Ok(pretree), rest) => if code::decodable(pretree, PRETREE_TABLE_BITS as nat) {
            head + entries_looked(section, pretree, lengths, 0, rest)
        } else {
            head
        },
    }
}

/// Read `n` numbers of `width` bits each.
fn read_lengths(reader: &mut BitReader<'_>, n: usize, width: u32) -> (r: Result<Vec<u8>>)
    requires
        old(reader).wf(),
        width <= 8,
    ensures
        final(reader).wf(),
        final(reader).source() == old(reader).source(),
        ({
            let spec = read_numbers(old(reader).input(), n as nat, width as nat, Seq::empty());
            &&& final(reader).input() == spec.1
            &&& match r {
                Ok(v) => spec.0 == Ok::<Seq<u8>, Error>(v@) && v@.len() == n,
                Err(e) => spec.0 == Err::<Seq<u8>, Error>(e),
            }
        }),
        r is Ok ==> final(reader).bits().len() == old(reader).bits().len() - n * width,
        final(reader).taken() == old(reader).taken_for((n * width) as nat),
{
    let mut out: Vec<u8> = Vec::new();
    let ghost start = read_numbers(old(reader).input(), n as nat, width as nat, Seq::empty());
    proof {
        assert(out@ =~= Seq::<u8>::empty());
        assert(0 * width == 0);
        reader.lemma_taken_for_none();
    }
    while out.len() < n
        invariant
            reader.wf(),
            reader.source() == old(reader).source(),
            width <= 8,
            out@.len() <= n,
            start == read_numbers(old(reader).input(), n as nat, width as nat, Seq::empty()),
            start == read_numbers(reader.input(), n as nat, width as nat, out@),
            out@.len() * width <= old(reader).bits().len(),
            reader.bits().len() == old(reader).bits().len() - out@.len() * width,
            reader.taken() == old(reader).taken_for((out@.len() * width) as nat),
        decreases n - out@.len(),
    {
        let ghost before = reader.input();
        let ghost at = (out@.len() * width) as nat;
        proof {
            let k = out@.len() as int;
            assert((k + 1) * width == k * width + width) by (nonlinear_arith);
            assert((k + 1) * width <= n * width) by (nonlinear_arith)
                requires
                    k + 1 <= n,
            ;
            reader.lemma_taken_join(*old(reader), at, at, width as nat);
        }
        match reader.read_bits_u8(width) {
            Ok(v) => {
                proof {
                    bits::lemma_value_bits(before.bits.take(width as int));
                    bits::lemma_pow2_small();
                    bits::lemma_pow2_le(width as nat, 8);
                }
                out.push(v);
            },
            Err(e) => {
                return Err(e);
            },
        }
    }
    Ok(out)
}

/// Set the lengths from `i` to `end` to `l`.
fn fill_run(out: &mut [u8], i: usize, end: usize, l: u8)
    requires
        i <= end <= old(out)@.len(),
    ensures
        final(out)@ == set_run(old(out)@, i as nat, (end - i) as nat, l),
{
    let mut j: usize = i;
    assert(out@ =~= set_run(old(out)@, i as nat, 0, l));
    while j < end
        invariant
            i <= j <= end <= out@.len(),
            out@ == set_run(old(out)@, i as nat, (j - i) as nat, l),
        decreases end - j,
    {
        out[j] = l;
        j += 1;
        assert(out@ =~= set_run(old(out)@, i as nat, (j - i) as nat, l));
    }
}

/// Read the next of the lengths, from `i` on. Returns the place behind it.
fn read_next(
    reader: &mut BitReader<'_>,
    section: Section,
    table: &Vec<u16>,
    pretree: &Vec<u8>,
    out: &mut [u8],
    i: usize,
) -> (r: Result<usize>)
    requires
        old(reader).wf(),
        pretree@.len() == PRETREE_NUM_SYMBOLS,
        decode::table_ok(table@, pretree@, PRETREE_TABLE_BITS as nat),
        i < old(out)@.len(),
    ensures
        final(reader).wf(),
        final(reader).source() == old(reader).source(),
        final(reader).bits().len() <= old(reader).bits().len(),
        final(out)@.len() == old(out)@.len(),
        ({
            let model = read_step(
                section,
                pretree@,
                old(out)@,
                i as nat,
                old(reader).input(),
            );
            &&& final(reader).input() == model.1
            &&& match r {
                Ok(j) => i < j <= final(out)@.len() && model.0 == Ok::<(Seq<u8>, nat), Error>(
                    (final(out)@, j as nat),
                ),
                Err(e) => final(out)@ == old(out)@ && model.0 == Err::<(Seq<u8>, nat), Error>(e),
            }
        }),
        final(reader).taken() == old(reader).taken_for(
            step_looked(section, pretree@, old(reader).input()),
        ),
{
    let n = out.len();
    let ghost n0 = reader.bits().len();
    let ghost mut looked: nat = decode::symbol_looked(
        pretree@,
        PRETREE_TABLE_BITS as nat,
        reader.input(),
    );
    proof {
        lemma2_to64();
        assert(decode::decodes(table@, pretree@, pretree@, PRETREE_TABLE_BITS as nat));
    }
    let sym = match decode_symbol(
        reader,
        table,
        pretree,
        PRETREE_NUM_SYMBOLS,
        PRETREE_TABLE_BITS,
    ) {
        Ok(s) => s,
        Err(e) => {
            return Err(e);
        },
    };
    if sym <= 16 {
        let l = apply_delta(out[i], sym as u8);
        out[i] = l;
        return Ok(i + 1);
    }
    let width: u32 = if sym == 17 {
        section.sym17_extra_bits()
    } else if sym == 18 {
        section.sym18_extra_bits()
    } else {
        section.sym19_extra_bits()
    };
    let base: usize = if sym == 17 {
        section.sym17_base()
    } else if sym == 18 {
        section.sym18_base()
    } else {
        section.sym19_base()
    };
    proof {
        let at = (n0 - reader.bits().len()) as nat;
        reader.lemma_taken_join(*old(reader), at, looked, width as nat);
        looked = max(looked, at + width as nat);
    }
    let extra = match reader.read_bits(width) {
        Ok(v) => v as usize,
        Err(e) => {
            return Err(e);
        },
    };
    let mut l: u8 = 0;
    if sym == 19 {
        proof {
            let at = (n0 - reader.bits().len()) as nat;
            let more = decode::symbol_looked(
                pretree@,
                PRETREE_TABLE_BITS as nat,
                reader.input(),
            );
            reader.lemma_taken_join(*old(reader), at, looked, more);
        }
        let d = match decode_symbol(
            reader,
            table,
            pretree,
            PRETREE_NUM_SYMBOLS,
            PRETREE_TABLE_BITS,
        ) {
            Ok(s) => s,
            Err(e) => {
                return Err(e);
            },
        };
        if d > 16 {
            return Err(Error::BadHuffmanTree);
        }
        l = apply_delta(out[i], d as u8);
    }
    let run: usize = base + extra;
    let end: usize = if run <= n - i {
        i + run
    } else {
        n
    };
    let ghost before = out@;
    fill_run(out, i, end, l);
    proof {
        assert(out@ =~= set_run(before, i as nat, run as nat, l));
    }
    Ok(end)
}

/// Read a section over the old lengths in `out`. An error leaves the lengths
/// changed that came before it.
pub fn decode_section(reader: &mut BitReader<'_>, section: Section, out: &mut [u8]) -> (r: Result<
    (),
>)
    requires
        old(reader).wf(),
    ensures
        final(reader).wf(),
        final(reader).source() == old(reader).source(),
        final(out)@.len() == old(out)@.len(),
        (r, final(out)@, final(reader).input()) == read_section(
            section,
            old(out)@,
            old(reader).input(),
        ),
        final(reader).taken() == old(reader).taken_for(
            section_looked(section, old(out)@, old(reader).input()),
        ),
{
    let ghost start = read_section(section, out@, reader.input());
    let ghost total = section_looked(section, out@, reader.input());
    let ghost n0 = reader.bits().len();
    let ghost mut looked: nat = 80;
    let pretree = read_lengths(reader, PRETREE_NUM_SYMBOLS, PRETREE_LENGTH_BITS)?;
    proof {
        lemma2_to64();
    }
    let table = make_decode_table(PRETREE_NUM_SYMBOLS, PRETREE_TABLE_BITS, &pretree)?;
    let n = out.len();
    let mut i: usize = 0;
    while i < n
        invariant
            reader.wf(),
            reader.source() == old(reader).source(),
            i <= n == out@.len() == old(out)@.len(),
            pretree@.len() == PRETREE_NUM_SYMBOLS,
            decode::table_ok(table@, pretree@, PRETREE_TABLE_BITS as nat),
            start == read_section(section, old(out)@, old(reader).input()),
            start == read_entries(section, pretree@, out@, i as nat, reader.input()),
            total == section_looked(section, old(out)@, old(reader).input()),
            n0 == old(reader).bits().len(),
            reader.bits().len() <= n0,
            reader.taken() == old(reader).taken_for(looked),
            n0 - reader.bits().len() <= looked,
            total == max(
                looked,
                (n0 - reader.bits().len()) as nat + entries_looked(
                    section,
                    pretree@,
                    out@,
                    i as nat,
                    reader.input(),
                ),
            ),
        decreases n - i,
    {
        proof {
            reveal_with_fuel(read_entries, 1);
            reveal_with_fuel(entries_looked, 1);
            let at = (n0 - reader.bits().len()) as nat;
            let more = step_looked(section, pretree@, reader.input());
            reader.lemma_taken_join(*old(reader), at, looked, more);
            lemma_step_used(section, pretree@, out@, i as nat, reader.input());
            looked = max(looked, at + more);
        }
        i = match read_next(reader, section, &table, &pretree, out, i) {
            Ok(j) => j,
            Err(e) => {
                return Err(e);
            },
        };
    }
    proof {
        reveal_with_fuel(read_entries, 1);
        reveal_with_fuel(entries_looked, 1);
    }
    Ok(())
}

/// Lengths of at most 16 stay so.
proof fn lemma_entries_bound(
    section: Section,
    pretree: Seq<u8>,
    lengths: Seq<u8>,
    i: nat,
    input: bits::Input,
)
    requires
        forall|k: int| 0 <= k < lengths.len() ==> #[trigger] lengths[k] <= 16,
    ensures
        ({
            let after = read_entries(section, pretree, lengths, i, input).1;
            &&& after.len() == lengths.len()
            &&& forall|k: int| 0 <= k < after.len() ==> #[trigger] after[k] <= 16
        }),
    decreases lengths.len() - i,
{
    reveal_with_fuel(read_entries, 1);
    if i < lengths.len() {
        if let (Ok((l, j)), rest) = read_step(section, pretree, lengths, i, input) {
            lemma_entries_bound(section, pretree, l, j, rest);
        }
    }
}

/// A section read over lengths of at most 16 leaves such lengths.
pub proof fn lemma_section_bound(section: Section, lengths: Seq<u8>, input: bits::Input)
    requires
        forall|k: int| 0 <= k < lengths.len() ==> #[trigger] lengths[k] <= 16,
    ensures
        ({
            let after = read_section(section, lengths, input).1;
            &&& after.len() == lengths.len()
            &&& forall|k: int| 0 <= k < after.len() ==> #[trigger] after[k] <= 16
        }),
{
    if let (Ok(pretree), rest) = read_numbers(
        input,
        PRETREE_NUM_SYMBOLS as nat,
        PRETREE_LENGTH_BITS as nat,
        Seq::empty(),
    ) {
        lemma_entries_bound(section, pretree, lengths, 0, rest);
    }
}

/// What a step consumes it has looked at.
proof fn lemma_step_used(
    section: Section,
    pretree: Seq<u8>,
    lengths: Seq<u8>,
    i: nat,
    input: bits::Input,
)
    ensures
        ({
            let (r, rest) = read_step(section, pretree, lengths, i, input);
            r is Ok ==> input.bits.len() - step_looked(section, pretree, input) <= rest.bits.len()
                <= input.bits.len()
        }),
{
}

/// One step of a section.
#[derive(Debug, Clone, Copy)]
pub enum PretreeOp {
    /// One length changes by a difference.
    Single { delta: u8 },
    /// A run of zeros, symbol 17.
    ZeroRunShort { run: usize },
    /// A run of zeros, symbol 18.
    ZeroRunLong { run: usize },
    /// A run of one length, which the first of the old ones changes to by a
    /// difference, symbol 19.
    SameRun { run: usize, delta: u8 },
}

/// The length of the run of equal lengths from `i` on, of which `k` are known,
/// up to `max`.
pub open spec fn run_at(curr: Seq<u8>, i: nat, k: nat, max: nat) -> nat
    decreases max - k,
{
    if k < max && i + k < curr.len() && curr[(i + k) as int] == curr[i as int] {
        run_at(curr, i, k + 1, max)
    } else {
        k
    }
}

/// The step that describes the lengths from `i` on.
pub open spec fn op_at(section: Section, prev: Seq<u8>, curr: Seq<u8>, i: nat) -> PretreeOp {
    let run = run_at(curr, i, 1, section.sym18_max() as nat) as usize;
    let d = delta(prev[i as int] as int, curr[i as int] as int) as u8;
    if run < section.run_threshold() {
        PretreeOp::Single { delta: d }
    } else if curr[i as int] != 0 {
        PretreeOp::SameRun {
            run: if run <= section.sym19_max() {
                run
            } else {
                section.sym19_max()
            },
            delta: d,
        }
    } else if run <= section.sym17_max() {
        PretreeOp::ZeroRunShort { run }
    } else {
        PretreeOp::ZeroRunLong { run }
    }
}

/// How many lengths a step describes.
pub open spec fn op_len(op: PretreeOp) -> nat {
    match op {
        PretreeOp::Single { .. } => 1,
        PretreeOp::ZeroRunShort { run } => run as nat,
        PretreeOp::ZeroRunLong { run } => run as nat,
        PretreeOp::SameRun { run, .. } => run as nat,
    }
}

/// The steps that describe the lengths from `i` on.
pub open spec fn ops_from(section: Section, prev: Seq<u8>, curr: Seq<u8>, i: nat) -> Seq<PretreeOp>
    decreases curr.len() - i,
{
    if i >= curr.len() {
        Seq::empty()
    } else {
        proof {
            lemma_op_at(section, prev, curr, i);
        }
        let op = op_at(section, prev, curr, i);
        seq![op] + ops_from(section, prev, curr, i + op_len(op))
    }
}

/// The symbol is among those of the step.
pub open spec fn op_uses(op: PretreeOp, s: int) -> bool {
    match op {
        PretreeOp::Single { delta } => s == delta,
        PretreeOp::ZeroRunShort { .. } => s == 17,
        PretreeOp::ZeroRunLong { .. } => s == 18,
        PretreeOp::SameRun { delta, .. } => s == 19 || s == delta,
    }
}

/// How many of the steps use the symbol.
pub open spec fn uses(ops: Seq<PretreeOp>, s: int) -> nat
    decreases ops.len(),
{
    if ops.len() == 0 {
        0
    } else {
        uses(ops.drop_last(), s) + (if op_uses(ops.last(), s) {
            1nat
        } else {
            0nat
        })
    }
}

/// The step can be written with the pretree whose code lengths are `pretree`.
pub open spec fn op_ok(section: Section, pretree: Seq<u8>, op: PretreeOp) -> bool {
    &&& forall|s: int| #[trigger] op_uses(op, s) ==> code::has_code(pretree, s)
    &&& match op {
        PretreeOp::Single { delta } => delta <= 16,
        PretreeOp::ZeroRunShort { run } => section.sym17_base() <= run <= section.sym17_max(),
        PretreeOp::ZeroRunLong { run } => section.sym18_base() <= run <= section.sym18_max(),
        PretreeOp::SameRun { run, delta } => section.sym19_base() <= run <= section.sym19_max()
            && delta <= 16,
    }
}

/// No pretree symbol occurs too often to be counted. Sections of up to
/// `u32::MAX` lengths have none that does.
pub open spec fn counts_fit(section: Section, prev: Seq<u8>, curr: Seq<u8>) -> bool {
    forall|s: int|
        0 <= s < PRETREE_NUM_SYMBOLS ==> #[trigger] uses(ops_from(section, prev, curr, 0), s)
            <= u32::MAX
}

pub proof fn lemma_counts_fit(section: Section, prev: Seq<u8>, curr: Seq<u8>)
    requires
        curr.len() <= u32::MAX,
    ensures
        counts_fit(section, prev, curr),
{
    let ops = ops_from(section, prev, curr, 0);
    lemma_ops_len(section, prev, curr, 0);
    assert forall|s: int| 0 <= s < PRETREE_NUM_SYMBOLS implies #[trigger] uses(ops, s)
        <= u32::MAX by {
        lemma_uses_bounds(ops, s);
    }
}

proof fn lemma_uses_prefix(a: Seq<PretreeOp>, b: Seq<PretreeOp>, s: int)
    ensures
        uses(a, s) <= uses(a + b, s),
    decreases b.len(),
{
    if b.len() == 0 {
        assert(a + b =~= a);
    } else {
        lemma_uses_prefix(a, b.drop_last(), s);
        assert((a + b).drop_last() =~= a + b.drop_last());
    }
}

/// A step, as it travels.
pub open spec fn op_bits(section: Section, pretree: Seq<u8>, op: PretreeOp) -> Seq<bool> {
    match op {
        PretreeOp::Single { delta } => code::code_bits(pretree, delta as int),
        PretreeOp::ZeroRunShort { run } => code::code_bits(pretree, 17) + bits::bits_of(
            (run - section.sym17_base()) as nat,
            section.sym17_extra_bits() as nat,
        ),
        PretreeOp::ZeroRunLong { run } => code::code_bits(pretree, 18) + bits::bits_of(
            (run - section.sym18_base()) as nat,
            section.sym18_extra_bits() as nat,
        ),
        PretreeOp::SameRun { run, delta } => code::code_bits(pretree, 19) + bits::bits_of(
            (run - section.sym19_base()) as nat,
            section.sym19_extra_bits() as nat,
        ) + code::code_bits(pretree, delta as int),
    }
}

pub open spec fn ops_bits(section: Section, pretree: Seq<u8>, ops: Seq<PretreeOp>) -> Seq<bool>
    decreases ops.len(),
{
    if ops.len() == 0 {
        Seq::empty()
    } else {
        ops_bits(section, pretree, ops.drop_last()) + op_bits(section, pretree, ops.last())
    }
}

/// Numbers of `width` bits each, as they travel.
pub open spec fn numbers_bits(v: Seq<u8>, width: nat) -> Seq<bool>
    decreases v.len(),
{
    if v.len() == 0 {
        Seq::empty()
    } else {
        numbers_bits(v.drop_last(), width) + bits::bits_of(v.last() as nat, width)
    }
}

/// A section, as it travels: the code lengths of the pretree, then the steps.
pub open spec fn section_bits(section: Section, pretree: Seq<u8>, ops: Seq<PretreeOp>) -> Seq<
    bool,
> {
    numbers_bits(pretree, PRETREE_LENGTH_BITS as nat) + ops_bits(section, pretree, ops)
}

/// How often each pretree symbol occurs in the steps.
pub open spec fn op_freqs(ops: Seq<PretreeOp>) -> Seq<u32> {
    Seq::new(PRETREE_NUM_SYMBOLS as nat, |s: int| uses(ops, s) as u32)
}

/// The section that turns the lengths `prev` into `curr`.
pub open spec fn encoded_section(section: Section, prev: Seq<u8>, curr: Seq<u8>) -> Seq<bool> {
    let ops = ops_from(section, prev, curr, 0);
    section_bits(section, package::code_lengths(op_freqs(ops), 15), ops)
}

proof fn lemma_run_at(curr: Seq<u8>, i: nat, k: nat, max: nat)
    requires
        1 <= k <= max,
        i + k <= curr.len(),
        forall|j: int| i <= j < i + k ==> #[trigger] curr[j] == curr[i as int],
    ensures
        k <= run_at(curr, i, k, max) <= max,
        i + run_at(curr, i, k, max) <= curr.len(),
        forall|j: int|
            i <= j < i + run_at(curr, i, k, max) ==> #[trigger] curr[j] == curr[i as int],
    decreases max - k,
{
    if k < max && i + k < curr.len() && curr[(i + k) as int] == curr[i as int] {
        lemma_run_at(curr, i, k + 1, max);
    }
}

/// A step describes lengths that are there, and they are what it says.
pub proof fn lemma_op_at(section: Section, prev: Seq<u8>, curr: Seq<u8>, i: nat)
    requires
        i < curr.len(),
    ensures
        ({
            let op = op_at(section, prev, curr, i);
            &&& 1 <= op_len(op)
            &&& i + op_len(op) <= curr.len()
            &&& forall|j: int| i <= j < i + op_len(op) ==> #[trigger] curr[j] == curr[i as int]
            &&& match op {
                PretreeOp::Single { delta: d } => d == delta(
                    prev[i as int] as int,
                    curr[i as int] as int,
                ),
                PretreeOp::ZeroRunShort { run } => section.sym17_base() <= run
                    <= section.sym17_max() && curr[i as int] == 0,
                PretreeOp::ZeroRunLong { run } => section.sym18_base() <= run
                    <= section.sym18_max() && curr[i as int] == 0,
                PretreeOp::SameRun { run, delta: d } => section.sym19_base() <= run
                    <= section.sym19_max() && d == delta(
                    prev[i as int] as int,
                    curr[i as int] as int,
                ),
            }
        }),
{
    lemma_run_at(curr, i, 1, section.sym18_max() as nat);
}

/// Describe the lengths `curr` against the old ones `prev`: how often each
/// pretree symbol is used, and the steps.
pub fn analyse_section(section: Section, prev: &[u8], curr: &[u8]) -> (r: (
    [u32; PRETREE_NUM_SYMBOLS],
    Vec<PretreeOp>,
))
    requires
        prev@.len() == curr@.len(),
        counts_fit(section, prev@, curr@),
    ensures
        r.1@ == ops_from(section, prev@, curr@, 0),
        forall|s: int|
            0 <= s < PRETREE_NUM_SYMBOLS ==> #[trigger] r.0@[s] == uses(r.1@, s),
{
    let mut freqs = [0u32; PRETREE_NUM_SYMBOLS];
    let mut ops: Vec<PretreeOp> = Vec::new();
    let n = curr.len();
    let mut i: usize = 0;
    let ghost all = ops_from(section, prev@, curr@, 0);
    assert(ops@ + all =~= all);
    while i < n
        invariant
            n == curr@.len() == prev@.len(),
            counts_fit(section, prev@, curr@),
            i <= n,
            all == ops_from(section, prev@, curr@, 0),
            all == ops@ + ops_from(section, prev@, curr@, i as nat),
            forall|s: int|
                0 <= s < PRETREE_NUM_SYMBOLS ==> #[trigger] freqs@[s] == uses(ops@, s),
        decreases n - i,
    {
        let cur: u8 = curr[i];
        let max: usize = section.sym18_max();
        let mut run: usize = 1;
        while run < max && run < n - i && curr[i + run] == cur
            invariant
                i < n == curr@.len(),
                1 <= run <= max,
                run <= n - i,
                max == section.sym18_max(),
                cur == curr@[i as int],
                run_at(curr@, i as nat, 1, max as nat) == run_at(
                    curr@,
                    i as nat,
                    run as nat,
                    max as nat,
                ),
            decreases max - run,
        {
            run += 1;
        }
        let ghost op = op_at(section, prev@, curr@, i as nat);
        let ghost before = ops@;
        let ghost old_freqs = freqs@;
        let ghost rest = ops_from(section, prev@, curr@, i as nat);
        proof {
            lemma_op_at(section, prev@, curr@, i as nat);
            let next = ops_from(section, prev@, curr@, i as nat + op_len(op));
            assert(all =~= before.push(op) + next);
            assert(before.push(op).drop_last() =~= before);
            assert forall|s: int| 0 <= s < PRETREE_NUM_SYMBOLS && op_uses(op, s) implies
                #[trigger] old_freqs[s] < u32::MAX by {
                lemma_uses_prefix(before.push(op), next, s);
                assert(uses(all, s) <= u32::MAX);
                assert(old_freqs[s] == uses(before, s));
            }
        }
        if run < section.run_threshold() {
            let d = delta_symbol(prev[i], cur);
            freqs[d as usize] = freqs[d as usize] + 1;
            ops.push(PretreeOp::Single { delta: d });
            i += 1;
        } else if cur != 0 {
            let r: usize = if run <= section.sym19_max() {
                run
            } else {
                section.sym19_max()
            };
            let d = delta_symbol(prev[i], cur);
            freqs[19] = freqs[19] + 1;
            freqs[d as usize] = freqs[d as usize] + 1;
            ops.push(PretreeOp::SameRun { run: r, delta: d });
            i += r;
        } else if run <= section.sym17_max() {
            freqs[17] = freqs[17] + 1;
            ops.push(PretreeOp::ZeroRunShort { run });
            i += run;
        } else {
            freqs[18] = freqs[18] + 1;
            ops.push(PretreeOp::ZeroRunLong { run });
            i += run;
        }
        proof {
            assert(ops@ =~= before.push(op));
            assert(ops@.drop_last() =~= before);
            let next = ops_from(section, prev@, curr@, i as nat);
            assert(rest =~= seq![op] + next);
            assert(before + rest =~= ops@ + next);
            assert forall|s: int| 0 <= s < PRETREE_NUM_SYMBOLS implies #[trigger] freqs@[s] == uses(
                ops@,
                s,
            ) by {
                assert(old_freqs[s] == uses(before, s));
            }
        }
    }
    assert(ops@ =~= all);
    (freqs, ops)
}

/// Write a section: the code lengths of the pretree, then the steps.
pub fn emit_section(
    writer: &mut BitWriter,
    section: Section,
    pretree_lengths: &[u8; PRETREE_NUM_SYMBOLS],
    ops: &[PretreeOp],
) -> (r: Result<()>)
    requires
        old(writer).wf(),
        code::reach(pretree_lengths@, 16) <= u32::MAX,
        forall|s: int| 0 <= s < PRETREE_NUM_SYMBOLS ==> #[trigger] pretree_lengths@[s] < 16,
        forall|i: int|
            0 <= i < ops@.len() ==> op_ok(section, pretree_lengths@, #[trigger] ops@[i]),
    ensures
        r is Ok,
        final(writer).wf(),
        final(writer).prefix() == old(writer).prefix(),
        final(writer).bits() == old(writer).bits() + section_bits(
            section,
            pretree_lengths@,
            ops@,
        ),
{
    let (_codes, reversed) = canonical_codes(pretree_lengths);
    let ghost before = writer.bits();
    let ghost pre = pretree_lengths@;
    proof {
        bits::lemma_pow2_small();
    }
    let mut i: usize = 0;
    assert(before =~= before + numbers_bits(pre.take(0), 4));
    while i < PRETREE_NUM_SYMBOLS
        invariant
            i <= PRETREE_NUM_SYMBOLS,
            pre == pretree_lengths@,
            forall|s: int| 0 <= s < PRETREE_NUM_SYMBOLS ==> #[trigger] pretree_lengths@[s] < 16,
            pow2(4) == 16,
            writer.wf(),
            writer.prefix() == old(writer).prefix(),
            writer.bits() == before + numbers_bits(pre.take(i as int), 4),
        decreases PRETREE_NUM_SYMBOLS - i,
    {
        writer.write_bits(pretree_lengths[i] as u32, PRETREE_LENGTH_BITS)?;
        proof {
            assert(pre.take(i + 1).drop_last() =~= pre.take(i as int));
            assert(writer.bits() =~= before + numbers_bits(pre.take(i + 1), 4));
        }
        i += 1;
    }
    let ghost head = before + numbers_bits(pre, 4);
    assert(pre.take(20) =~= pre);
    assert(head =~= head + ops_bits(section, pre, ops@.take(0)));
    let mut j: usize = 0;
    while j < ops.len()
        invariant
            j <= ops@.len(),
            pre == pretree_lengths@,
            pre.len() == PRETREE_NUM_SYMBOLS,
            pow2(4) == 16,
            reversed@.len() == pre.len(),
            forall|s: int|
                0 <= s < pre.len() ==> #[trigger] reversed@[s] == (if code::has_code(pre, s) {
                    bits::reversed(code::code(pre, s), pre[s] as nat)
                } else {
                    0
                }),
            forall|k: int| 0 <= k < ops@.len() ==> op_ok(section, pre, #[trigger] ops@[k]),
            writer.wf(),
            writer.prefix() == old(writer).prefix(),
            writer.bits() == head + ops_bits(section, pre, ops@.take(j as int)),
        decreases ops@.len() - j,
    {
        let ghost start = writer.bits();
        let ghost op = ops@[j as int];
        proof {
            assert(op_ok(section, pre, ops@[j as int]));
            lemma_run_ranges(section);
        }
        match ops[j] {
            PretreeOp::Single { delta } => {
                assert(op_uses(op, delta as int));
                write_code(writer, pretree_lengths, &reversed, delta as usize)?;
            },
            PretreeOp::ZeroRunShort { run } => {
                assert(op_uses(op, 17));
                write_code(writer, pretree_lengths, &reversed, 17)?;
                writer.write_bits(
                    (run - section.sym17_base()) as u32,
                    section.sym17_extra_bits(),
                )?;
            },
            PretreeOp::ZeroRunLong { run } => {
                assert(op_uses(op, 18));
                write_code(writer, pretree_lengths, &reversed, 18)?;
                writer.write_bits(
                    (run - section.sym18_base()) as u32,
                    section.sym18_extra_bits(),
                )?;
            },
            PretreeOp::SameRun { run, delta } => {
                assert(op_uses(op, 19));
                assert(op_uses(op, delta as int));
                write_code(writer, pretree_lengths, &reversed, 19)?;
                writer.write_bits(
                    (run - section.sym19_base()) as u32,
                    section.sym19_extra_bits(),
                )?;
                write_code(writer, pretree_lengths, &reversed, delta as usize)?;
            },
        }
        proof {
            assert(writer.bits() =~= start + op_bits(section, pre, op));
            assert(ops@.take(j + 1).drop_last() =~= ops@.take(j as int));
            assert(writer.bits() =~= head + ops_bits(section, pre, ops@.take(j + 1)));
        }
        j += 1;
    }
    proof {
        assert(ops@.take(ops@.len() as int) =~= ops@);
        assert(writer.bits() =~= before + section_bits(section, pre, ops@));
    }
    Ok(())
}

/// The run lengths and differences of a step are in range.
spec fn op_shape(section: Section, op: PretreeOp) -> bool {
    match op {
        PretreeOp::Single { delta } => delta <= 16,
        PretreeOp::ZeroRunShort { run } => section.sym17_base() <= run <= section.sym17_max(),
        PretreeOp::ZeroRunLong { run } => section.sym18_base() <= run <= section.sym18_max(),
        PretreeOp::SameRun { run, delta } => section.sym19_base() <= run <= section.sym19_max()
            && delta <= 16,
    }
}

proof fn lemma_op_shapes(section: Section, prev: Seq<u8>, curr: Seq<u8>, i: nat)
    ensures
        forall|k: int|
            0 <= k < ops_from(section, prev, curr, i).len() ==> op_shape(
                section,
                #[trigger] ops_from(section, prev, curr, i)[k],
            ),
    decreases curr.len() - i,
{
    if i < curr.len() {
        lemma_op_at(section, prev, curr, i);
        let op = op_at(section, prev, curr, i);
        let next = i + op_len(op);
        lemma_op_shapes(section, prev, curr, next);
        let rest = ops_from(section, prev, curr, next);
        let all = ops_from(section, prev, curr, i);
        assert forall|k: int| 0 <= k < all.len() implies op_shape(section, #[trigger] all[k]) by {
            if k > 0 {
                assert(all[k] == rest[k - 1]);
            }
        }
    }
}

proof fn lemma_uses_bounds(ops: Seq<PretreeOp>, s: int)
    ensures
        uses(ops, s) <= ops.len(),
        forall|k: int| 0 <= k < ops.len() && op_uses(#[trigger] ops[k], s) ==> uses(ops, s) > 0,
    decreases ops.len(),
{
    if ops.len() > 0 {
        lemma_uses_bounds(ops.drop_last(), s);
        assert forall|k: int| 0 <= k < ops.len() && op_uses(#[trigger] ops[k], s) implies uses(
            ops,
            s,
        ) > 0 by {
            if k < ops.len() - 1 {
                assert(ops.drop_last()[k] == ops[k]);
            }
        }
    }
}

pub proof fn lemma_ops_len(section: Section, prev: Seq<u8>, curr: Seq<u8>, i: nat)
    requires
        i <= curr.len(),
    ensures
        ops_from(section, prev, curr, i).len() <= curr.len() - i,
        i < curr.len() ==> ops_from(section, prev, curr, i).len() > 0,
    decreases curr.len() - i,
{
    if i < curr.len() {
        lemma_op_at(section, prev, curr, i);
        lemma_ops_len(section, prev, curr, i + op_len(op_at(section, prev, curr, i)));
    }
}

/// The pretree that is built for a section can write its steps, and is
/// complete where there are any.
pub proof fn lemma_pretree(section: Section, prev: Seq<u8>, curr: Seq<u8>)
    requires
        prev.len() == curr.len(),
        counts_fit(section, prev, curr),
    ensures
        ({
            let ops = ops_from(section, prev, curr, 0);
            let pretree = package::code_lengths(op_freqs(ops), 15);
            &&& package::ranking(op_freqs(ops), 20).len() <= 20
            &&& pretree.len() == PRETREE_NUM_SYMBOLS
            &&& forall|s: int|
                0 <= s < PRETREE_NUM_SYMBOLS ==> (#[trigger] pretree[s]) < 16 && pretree[s]
                    == package::code_length(op_freqs(ops), 15, s)
            &&& forall|k: int| 0 <= k < ops.len() ==> op_ok(section, pretree, #[trigger] ops[k])
            &&& code::reach(pretree, 16) <= 65536
            &&& curr.len() > 0 ==> code::complete(pretree)
        }),
{
    let ops = ops_from(section, prev, curr, 0);
    let freqs = op_freqs(ops);
    let pretree = package::code_lengths(freqs, 15);
    lemma_ops_len(section, prev, curr, 0);
    lemma_op_shapes(section, prev, curr, 0);
    package::lemma_ranking(freqs, 20);
    bits::lemma_pow2_small();
    lemma2_to64();
    package::lemma_code_lengths(freqs, 15);
    assert forall|k: int| 0 <= k < ops.len() implies op_ok(section, pretree, #[trigger] ops[k]) by {
        let op = ops[k];
        assert(op_shape(section, ops[k]));
        assert forall|s: int| #[trigger] op_uses(op, s) implies code::has_code(pretree, s) by {
            lemma_uses_bounds(ops, s);
            assert(0 <= s < 20);
            assert(uses(ops, s) <= u32::MAX);
            assert(freqs[s] == uses(ops, s));
            assert(freqs[s] > 0);
        }
    }
    if curr.len() > 0 {
        let op = ops[0];
        let s: int = match op {
            PretreeOp::Single { delta } => delta as int,
            PretreeOp::ZeroRunShort { .. } => 17,
            PretreeOp::ZeroRunLong { .. } => 18,
            PretreeOp::SameRun { .. } => 19,
        };
        assert(op_shape(section, ops[0]));
        assert(op_uses(op, s));
        lemma_uses_bounds(ops, s);
        assert(uses(ops, s) <= u32::MAX);
        assert(freqs[s] == uses(ops, s));
        assert(package::ranking(freqs, 20).contains(s as usize));
    }
}

/// A section begins with the twenty code lengths of its pretree, in four bits
/// each. No code of up to fifteen bits writes the symbols of its steps in fewer
/// bits.
pub proof fn lemma_pretree_optimal(
    section: Section,
    prev: Seq<u8>,
    curr: Seq<u8>,
    other: Seq<u8>,
)
    requires
        prev.len() == curr.len() <= u32::MAX,
        other.len() == 20,
        forall|s: int|
            0 <= s < 20 && op_freqs(ops_from(section, prev, curr, 0))[s] > 0 ==> 1
                <= #[trigger] other[s] <= 15,
        code::reach(other, 16) <= 65536,
    ensures
        ({
            let freqs = op_freqs(ops_from(section, prev, curr, 0));
            let pretree = package::code_lengths(freqs, 15);
            &&& encoded_section(section, prev, curr).take(80) == numbers_bits(pretree, 4)
            &&& optimal::cost(freqs, pretree, 20) <= optimal::cost(freqs, other, 20)
            &&& forall|s: int| 0 <= s < 20 ==> #[trigger] pretree[s] < 16
        }),
{
    let ops = ops_from(section, prev, curr, 0);
    let pretree = package::code_lengths(op_freqs(ops), 15);
    lemma_counts_fit(section, prev, curr);
    lemma_pretree(section, prev, curr);
    lemma_numbers_len(pretree, 4);
    assert(encoded_section(section, prev, curr).take(80) =~= numbers_bits(pretree, 4));
    bits::lemma_pow2_small();
    lemma2_to64();
    optimal::lemma_optimal(op_freqs(ops), 15, other);
}

/// The bits of the symbols of steps, those of the first `k` symbols.
spec fn symbol_bits(ops: Seq<PretreeOp>, lengths: Seq<u8>, k: nat) -> nat
    decreases k,
{
    if k == 0 {
        0
    } else {
        symbol_bits(ops, lengths, (k - 1) as nat) + uses(ops, k - 1) * lengths[k - 1] as nat
    }
}

/// The length of the code of a symbol that is one of the first `k`.
spec fn length_below(lengths: Seq<u8>, s: int, k: nat) -> nat {
    if s < k {
        lengths[s] as nat
    } else {
        0
    }
}

/// The bits of the symbols of one step, those of the first `k` symbols.
spec fn op_symbol_bits(op: PretreeOp, lengths: Seq<u8>, k: nat) -> nat {
    match op {
        PretreeOp::Single { delta } => length_below(lengths, delta as int, k),
        PretreeOp::ZeroRunShort { .. } => length_below(lengths, 17, k),
        PretreeOp::ZeroRunLong { .. } => length_below(lengths, 18, k),
        PretreeOp::SameRun { delta, .. } => length_below(lengths, delta as int, k) + length_below(
            lengths,
            19,
            k,
        ),
    }
}

proof fn lemma_symbol_bits_step(section: Section, ops: Seq<PretreeOp>, lengths: Seq<u8>, k: nat)
    requires
        ops.len() > 0,
        op_shape(section, ops.last()),
    ensures
        symbol_bits(ops, lengths, k) == symbol_bits(ops.drop_last(), lengths, k) + op_symbol_bits(
            ops.last(),
            lengths,
            k,
        ),
    decreases k,
{
    if k > 0 {
        lemma_symbol_bits_step(section, ops, lengths, (k - 1) as nat);
        let c = uses(ops.drop_last(), k - 1);
        let l = lengths[k - 1] as nat;
        assert((c + 1) * l == c * l + l) by (nonlinear_arith);
        assert((c + 0) * l == c * l);
    }
}

proof fn lemma_symbol_bits_none(lengths: Seq<u8>, k: nat)
    ensures
        symbol_bits(Seq::empty(), lengths, k) == 0,
    decreases k,
{
    if k > 0 {
        lemma_symbol_bits_none(lengths, (k - 1) as nat);
        let l = lengths[k - 1] as nat;
        assert(0 * l == 0);
    }
}

/// The bits of the runs of steps.
spec fn runs_len(section: Section, ops: Seq<PretreeOp>) -> nat
    decreases ops.len(),
{
    if ops.len() == 0 {
        0
    } else {
        runs_len(section, ops.drop_last()) + (match ops.last() {
            PretreeOp::Single { .. } => 0nat,
            PretreeOp::ZeroRunShort { .. } => section.sym17_extra_bits() as nat,
            PretreeOp::ZeroRunLong { .. } => section.sym18_extra_bits() as nat,
            PretreeOp::SameRun { .. } => section.sym19_extra_bits() as nat,
        })
    }
}

proof fn lemma_op_bits_len(section: Section, lengths: Seq<u8>, op: PretreeOp)
    requires
        op_shape(section, op),
    ensures
        op_bits(section, lengths, op).len() == op_symbol_bits(op, lengths, 20) + runs_len(
            section,
            seq![op],
        ),
{
    assert(seq![op].drop_last() =~= Seq::<PretreeOp>::empty());
    assert(runs_len(section, seq![op].drop_last()) == 0);
    assert forall|v: nat, n: nat| (#[trigger] bits::bits_of(v, n)).len() == n by {
        bits::lemma_bits_len(v, n);
    }
    assert forall|s: int| (#[trigger] code::code_bits(lengths, s)).len() == lengths[s] by {
        bits::lemma_bits_len(code::code(lengths, s), lengths[s] as nat);
    }
}

proof fn lemma_ops_bits_len(section: Section, ops: Seq<PretreeOp>, lengths: Seq<u8>)
    requires
        forall|k: int| 0 <= k < ops.len() ==> op_shape(section, #[trigger] ops[k]),
    ensures
        ops_bits(section, lengths, ops).len() == symbol_bits(ops, lengths, 20) + runs_len(
            section,
            ops,
        ),
    decreases ops.len(),
{
    if ops.len() == 0 {
        assert(ops =~= Seq::<PretreeOp>::empty());
        lemma_symbol_bits_none(lengths, 20);
    } else {
        let front = ops.drop_last();
        let op = ops.last();
        assert forall|k: int| 0 <= k < front.len() implies op_shape(
            section,
            #[trigger] front[k],
        ) by {
            assert(front[k] == ops[k]);
        }
        assert(op_shape(section, ops[ops.len() - 1]));
        lemma_ops_bits_len(section, front, lengths);
        lemma_symbol_bits_step(section, ops, lengths, 20);
        lemma_op_bits_len(section, lengths, op);
        assert(seq![op].drop_last() =~= Seq::<PretreeOp>::empty());
        assert(runs_len(section, seq![op].drop_last()) == 0);
    }
}

proof fn lemma_symbol_cost(ops: Seq<PretreeOp>, lengths: Seq<u8>, k: nat)
    requires
        k <= 20,
        forall|s: int| 0 <= s < 20 ==> #[trigger] uses(ops, s) <= u32::MAX,
    ensures
        optimal::cost(op_freqs(ops), lengths, k) == symbol_bits(ops, lengths, k),
    decreases k,
{
    if k > 0 {
        lemma_symbol_cost(ops, lengths, (k - 1) as nat);
        assert(uses(ops, k - 1) <= u32::MAX);
        assert(op_freqs(ops)[k - 1] == uses(ops, k - 1));
    }
}

/// No pretree with codes of up to fifteen bits writes the steps of a section in
/// fewer bits than the one that the section has.
pub proof fn lemma_section_shortest(
    section: Section,
    prev: Seq<u8>,
    curr: Seq<u8>,
    other: Seq<u8>,
)
    requires
        prev.len() == curr.len() <= u32::MAX,
        other.len() == 20,
        forall|k: int, s: int|
            0 <= k < ops_from(section, prev, curr, 0).len() && #[trigger] op_uses(
                ops_from(section, prev, curr, 0)[k],
                s,
            ) ==> 1 <= other[s] <= 15,
        code::reach(other, 16) <= 65536,
    ensures
        encoded_section(section, prev, curr).len() <= section_bits(
            section,
            other,
            ops_from(section, prev, curr, 0),
        ).len(),
{
    let ops = ops_from(section, prev, curr, 0);
    let pretree = package::code_lengths(op_freqs(ops), 15);
    lemma_counts_fit(section, prev, curr);
    lemma_op_shapes(section, prev, curr, 0);
    assert forall|s: int| 0 <= s < 20 && op_freqs(ops)[s] > 0 implies 1 <= #[trigger] other[s]
        <= 15 by {
        assert(uses(ops, s) <= u32::MAX);
        lemma_use_found(ops, s);
        let k = choose|k: int| 0 <= k < ops.len() && op_uses(#[trigger] ops[k], s);
        assert(op_uses(ops[k], s));
    }
    lemma_pretree_optimal(section, prev, curr, other);
    lemma_symbol_cost(ops, other, 20);
    lemma_symbol_cost(ops, pretree, 20);
    lemma_ops_bits_len(section, ops, other);
    lemma_ops_bits_len(section, ops, pretree);
    lemma_numbers_len(other, 4);
    lemma_numbers_len(pretree, 4);
}

proof fn lemma_use_found(ops: Seq<PretreeOp>, s: int)
    requires
        uses(ops, s) > 0,
    ensures
        exists|k: int| 0 <= k < ops.len() && op_uses(#[trigger] ops[k], s),
    decreases ops.len(),
{
    let n = ops.len() - 1;
    if op_uses(ops.last(), s) {
        assert(op_uses(ops[n], s));
    } else {
        let front = ops.drop_last();
        lemma_use_found(front, s);
        let k = choose|k: int| 0 <= k < front.len() && op_uses(#[trigger] front[k], s);
        assert(op_uses(ops[k], s));
    }
}

proof fn lemma_numbers_len(v: Seq<u8>, width: nat)
    ensures
        numbers_bits(v, width).len() == v.len() * width,
    decreases v.len(),
{
    if v.len() > 0 {
        lemma_numbers_len(v.drop_last(), width);
        bits::lemma_bits_len(v.last() as nat, width);
        assert((v.len() - 1) * width + width == v.len() * width) by (nonlinear_arith);
    }
}

/// Write the section that turns the lengths `prev` into `curr`.
pub fn encode_section(writer: &mut BitWriter, section: Section, prev: &[u8], curr: &[u8]) -> (r:
    Result<()>)
    requires
        old(writer).wf(),
        prev@.len() == curr@.len(),
        counts_fit(section, prev@, curr@),
    ensures
        r is Ok,
        final(writer).wf(),
        final(writer).prefix() == old(writer).prefix(),
        final(writer).bits() == old(writer).bits() + encoded_section(section, prev@, curr@),
{
    let (freqs, ops) = analyse_section(section, prev, curr);
    proof {
        lemma_pretree(section, prev@, curr@);
        lemma_ops_len(section, prev@, curr@, 0);
        assert(freqs@ =~= op_freqs(ops@)) by {
            assert forall|s: int| 0 <= s < 20 implies #[trigger] freqs@[s] == op_freqs(ops@)[s] by {
                assert(uses(ops@, s) <= u32::MAX);
            }
        }
        lemma2_to64();
    }
    let lengths = build_lengths(&freqs, 15);
    let mut pretree = [0u8; PRETREE_NUM_SYMBOLS];
    let mut i: usize = 0;
    while i < PRETREE_NUM_SYMBOLS
        invariant
            i <= PRETREE_NUM_SYMBOLS,
            lengths@.len() == PRETREE_NUM_SYMBOLS,
            forall|s: int| 0 <= s < i ==> #[trigger] pretree@[s] == lengths@[s],
        decreases PRETREE_NUM_SYMBOLS - i,
    {
        pretree[i] = lengths[i];
        i += 1;
    }
    proof {
        let model = package::code_lengths(op_freqs(ops@), 15);
        assert(pretree@ =~= model) by {
            assert forall|s: int| 0 <= s < 20 implies pretree@[s] == #[trigger] model[s] by {
                assert(pretree@[s] == lengths@[s]);
            }
        }
    }
    emit_section(writer, section, &pretree, &ops)
}

pub proof fn lemma_numbers_split(v: Seq<u8>, width: nat)
    requires
        v.len() > 0,
    ensures
        numbers_bits(v, width) == bits::bits_of(v[0] as nat, width) + numbers_bits(
            v.drop_first(),
            width,
        ),
    decreases v.len(),
{
    if v.len() == 1 {
        assert(v.drop_last() =~= Seq::<u8>::empty());
        assert(v.drop_first() =~= Seq::<u8>::empty());
        assert(numbers_bits(Seq::<u8>::empty(), width) =~= Seq::<bool>::empty());
        assert(numbers_bits(v, width) =~= bits::bits_of(v[0] as nat, width));
        assert(numbers_bits(v, width) =~= bits::bits_of(v[0] as nat, width) + numbers_bits(
            v.drop_first(),
            width,
        ));
    } else {
        lemma_numbers_split(v.drop_last(), width);
        assert(v.drop_last().drop_first() =~= v.drop_first().drop_last());
        assert(numbers_bits(v, width) =~= bits::bits_of(v[0] as nat, width) + numbers_bits(
            v.drop_first(),
            width,
        ));
    }
}

/// Numbers that were written come back.
pub proof fn lemma_read_numbers(v: Seq<u8>, width: nat, acc: Seq<u8>, rest: Seq<bool>, odd: bool)
    requires
        forall|i: int| 0 <= i < v.len() ==> (#[trigger] v[i]) < pow2(width),
    ensures
        read_numbers(
            bits::Input { bits: numbers_bits(v, width) + rest, odd },
            acc.len() + v.len(),
            width,
            acc,
        ) == (Ok::<Seq<u8>, Error>(acc + v), (bits::Input { bits: rest, odd })),
    decreases v.len(),
{
    let b = numbers_bits(v, width) + rest;
    if v.len() == 0 {
        assert(b =~= rest);
        assert(acc + v =~= acc);
    } else {
        let tail = v.drop_first();
        lemma_numbers_split(v, width);
        let after = numbers_bits(tail, width) + rest;
        assert(b =~= bits::bits_of(v[0] as nat, width) + after);
        bits::lemma_read_number(v[0] as nat, width, after, odd);
        assert(acc.push(v[0]) + tail =~= acc + v);
        lemma_read_numbers(tail, width, acc.push(v[0]), rest, odd);
    }
}

proof fn lemma_ops_split(section: Section, pretree: Seq<u8>, op: PretreeOp, rest: Seq<PretreeOp>)
    ensures
        ops_bits(section, pretree, seq![op] + rest) == op_bits(section, pretree, op) + ops_bits(
            section,
            pretree,
            rest,
        ),
    decreases rest.len(),
{
    let all = seq![op] + rest;
    if rest.len() == 0 {
        assert(all.drop_last() =~= Seq::<PretreeOp>::empty());
        assert(rest =~= Seq::<PretreeOp>::empty());
        assert(ops_bits(section, pretree, Seq::empty()) =~= Seq::<bool>::empty());
        assert(ops_bits(section, pretree, all) =~= op_bits(section, pretree, op) + ops_bits(
            section,
            pretree,
            rest,
        ));
    } else {
        lemma_ops_split(section, pretree, op, rest.drop_last());
        assert(all.drop_last() =~= seq![op] + rest.drop_last());
        assert(ops_bits(section, pretree, all) =~= op_bits(section, pretree, op) + ops_bits(
            section,
            pretree,
            rest,
        ));
    }
}

/// The lengths after a step at `i`.
spec fn applied(now: Seq<u8>, i: nat, op: PretreeOp) -> Seq<u8> {
    match op {
        PretreeOp::Single { delta: d } => now.update(
            i as int,
            delta(now[i as int] as int, d as int) as u8,
        ),
        PretreeOp::ZeroRunShort { run } => set_run(now, i, run as nat, 0),
        PretreeOp::ZeroRunLong { run } => set_run(now, i, run as nat, 0),
        PretreeOp::SameRun { run, delta: d } => set_run(
            now,
            i,
            run as nat,
            delta(now[i as int] as int, d as int) as u8,
        ),
    }
}

/// A run of zeros that was written comes back.
proof fn lemma_read_zeros(
    section: Section,
    pretree: Seq<u8>,
    now: Seq<u8>,
    i: nat,
    sym: int,
    x: nat,
    w: nat,
    after: Seq<bool>,
    odd: bool,
)
    requires
        odd ==> after.len() + 1 >= PRETREE_TABLE_BITS,
        sym == 17 || sym == 18,
        code::reach(pretree, 16) <= 65536,
        code::has_code(pretree, sym),
        w == (if sym == 17 {
            section.sym17_extra_bits()
        } else {
            section.sym18_extra_bits()
        }),
        x < pow2(w),
    ensures
        ({
            let base = if sym == 17 {
                section.sym17_base() as nat
            } else {
                section.sym18_base() as nat
            };
            let b = code::code_bits(pretree, sym) + bits::bits_of(x, w) + after;
            read_step(section, pretree, now, i, (bits::Input { bits: b, odd })) == (
                Ok::<(Seq<u8>, nat), Error>(
                    (set_run(now, i, base + x, 0), run_end(now, i, base + x)),
                ),
                (bits::Input { bits: after, odd }),
            )
        }),
{
    let extra = bits::bits_of(x, w) + after;
    let b = code::code_bits(pretree, sym) + bits::bits_of(x, w) + after;
    assert(b =~= code::code_bits(pretree, sym) + extra);
    code::lemma_reach_monotonic(pretree, pretree[sym] as nat, 16);
    decode::lemma_read_symbol(pretree, PRETREE_TABLE_BITS as nat, sym, extra, odd);
    bits::lemma_read_number(x, w, after, odd);
}

/// A run of one length that was written comes back.
proof fn lemma_read_run(
    section: Section,
    pretree: Seq<u8>,
    now: Seq<u8>,
    i: nat,
    d: int,
    x: nat,
    after: Seq<bool>,
    odd: bool,
)
    requires
        odd ==> after.len() + 1 >= PRETREE_TABLE_BITS,
        code::reach(pretree, 16) <= 65536,
        code::has_code(pretree, 19),
        code::has_code(pretree, d),
        d <= 16,
        x < 2,
    ensures
        ({
            let run = section.sym19_base() as nat + x;
            let l = delta(now[i as int] as int, d) as u8;
            let b = code::code_bits(pretree, 19) + bits::bits_of(x, 1) + code::code_bits(
                pretree,
                d,
            ) + after;
            read_step(section, pretree, now, i, (bits::Input { bits: b, odd })) == (
                Ok::<(Seq<u8>, nat), Error>((set_run(now, i, run, l), run_end(now, i, run))),
                (bits::Input { bits: after, odd }),
            )
        }),
{
    let ts = PRETREE_TABLE_BITS as nat;
    let last = code::code_bits(pretree, d) + after;
    let extra = bits::bits_of(x, 1) + last;
    let b = code::code_bits(pretree, 19) + bits::bits_of(x, 1) + code::code_bits(pretree, d)
        + after;
    assert(b =~= code::code_bits(pretree, 19) + extra);
    bits::lemma_pow2_small();
    code::lemma_reach_monotonic(pretree, pretree[19] as nat, 16);
    code::lemma_reach_monotonic(pretree, pretree[d] as nat, 16);
    decode::lemma_read_symbol(pretree, ts, 19, extra, odd);
    bits::lemma_read_number(x, 1, last, odd);
    decode::lemma_read_symbol(pretree, ts, d, after, odd);
}

/// A single length that was written comes back.
proof fn lemma_read_single(
    section: Section,
    pretree: Seq<u8>,
    now: Seq<u8>,
    i: nat,
    d: int,
    after: Seq<bool>,
    odd: bool,
)
    requires
        odd ==> after.len() + 1 >= PRETREE_TABLE_BITS,
        code::reach(pretree, 16) <= 65536,
        code::has_code(pretree, d),
        d <= 16,
    ensures
        ({
            let l = delta(now[i as int] as int, d) as u8;
            let b = code::code_bits(pretree, d) + after;
            read_step(section, pretree, now, i, (bits::Input { bits: b, odd })) == (
                Ok::<(Seq<u8>, nat), Error>((now.update(i as int, l), i + 1)),
                (bits::Input { bits: after, odd }),
            )
        }),
{
    code::lemma_reach_monotonic(pretree, pretree[d] as nat, 16);
    decode::lemma_read_symbol(pretree, PRETREE_TABLE_BITS as nat, d, after, odd);
}

/// Symbol 17 and its four bits set a run of 4 to 19 lengths of the literals, or of
/// 3 to 18 of the matches, to zero. Symbol 18 goes on from there, with five bits up
/// to 51 for the literals, and with six bits up to 82 for the matches. A run beyond
/// the last length ends with it.
pub proof fn lemma_step_zeros(
    section: Section,
    pretree: Seq<u8>,
    now: Seq<u8>,
    i: nat,
    sym: int,
    x: nat,
    after: Seq<bool>,
)
    requires
        sym == 17 || sym == 18,
        i < now.len(),
        code::reach(pretree, 16) <= 65536,
        code::has_code(pretree, sym),
        x < (if sym == 17 {
            16nat
        } else if section == Section::Literal {
            32
        } else {
            64
        }),
    ensures
        ({
            let width: nat = if sym == 17 {
                4
            } else if section == Section::Literal {
                5
            } else {
                6
            };
            let run = x + (if section == Section::Literal {
                4nat
            } else {
                3
            }) + (if sym == 17 {
                0nat
            } else {
                16
            });
            let (r, rest) = read_step(
                section,
                pretree,
                now,
                i,
                (bits::Input {
                    bits: code::code_bits(pretree, sym) + bits::bits_of(x, width) + after,
                    odd: false,
                }),
            );
            &&& rest == bits::Input { bits: after, odd: false }
            &&& r matches Ok((lengths, j)) && {
                &&& lengths.len() == now.len()
                &&& j == (if i + run <= now.len() {
                    i + run
                } else {
                    now.len()
                })
                &&& forall|k: int|
                    0 <= k < now.len() ==> #[trigger] lengths[k] == (if i <= k < i + run {
                        0
                    } else {
                        now[k]
                    })
            }
        }),
{
    lemma2_to64();
    let w = if sym == 17 {
        section.sym17_extra_bits() as nat
    } else {
        section.sym18_extra_bits() as nat
    };
    lemma_read_zeros(section, pretree, now, i, sym, x, w, after, false);
}

/// Symbol 19, its bit, and the symbol of a difference give a run of 4 or 5 lengths
/// of the literals, or of 3 or 4 of the matches, the value that the difference
/// makes of the first of them. A difference is taken off modulo 17.
pub proof fn lemma_step_run(
    section: Section,
    pretree: Seq<u8>,
    now: Seq<u8>,
    i: nat,
    d: int,
    x: nat,
    after: Seq<bool>,
)
    requires
        i < now.len(),
        now[i as int] <= 16,
        code::reach(pretree, 16) <= 65536,
        code::has_code(pretree, 19),
        code::has_code(pretree, d),
        d <= 16,
        x < 2,
    ensures
        ({
            let run = x + (if section == Section::Literal {
                4nat
            } else {
                3
            });
            let (r, rest) = read_step(
                section,
                pretree,
                now,
                i,
                (bits::Input {
                    bits: code::code_bits(pretree, 19) + bits::bits_of(x, 1) + code::code_bits(
                        pretree,
                        d,
                    ) + after,
                    odd: false,
                }),
            );
            &&& rest == bits::Input { bits: after, odd: false }
            &&& r matches Ok((lengths, j)) && {
                &&& lengths.len() == now.len()
                &&& j == (if i + run <= now.len() {
                    i + run
                } else {
                    now.len()
                })
                &&& forall|k: int|
                    0 <= k < now.len() ==> #[trigger] lengths[k] == (if i <= k < i + run {
                        (if d <= now[i as int] {
                            now[i as int] - d
                        } else {
                            now[i as int] - d + 17
                        })
                    } else {
                        now[k] as int
                    })
            }
        }),
{
    lemma_read_run(section, pretree, now, i, d, x, after, false);
}

/// A symbol from 0 to 16 takes itself off the next length, modulo 17.
pub proof fn lemma_step_single(
    section: Section,
    pretree: Seq<u8>,
    now: Seq<u8>,
    i: nat,
    d: int,
    after: Seq<bool>,
)
    requires
        i < now.len(),
        now[i as int] <= 16,
        code::reach(pretree, 16) <= 65536,
        code::has_code(pretree, d),
        d <= 16,
    ensures
        ({
            let (r, rest) = read_step(
                section,
                pretree,
                now,
                i,
                (bits::Input { bits: code::code_bits(pretree, d) + after, odd: false }),
            );
            &&& rest == bits::Input { bits: after, odd: false }
            &&& r matches Ok((lengths, j)) && {
                &&& lengths.len() == now.len()
                &&& j == i + 1
                &&& forall|k: int|
                    0 <= k < now.len() ==> #[trigger] lengths[k] == (if k == i {
                        (if d <= now[i as int] {
                            now[i as int] - d
                        } else {
                            now[i as int] - d + 17
                        })
                    } else {
                        now[k] as int
                    })
            }
        }),
{
    lemma_read_single(section, pretree, now, i, d, after, false);
    let l = delta(now[i as int] as int, d);
    assert(l == (if d <= now[i as int] {
        now[i as int] - d
    } else {
        now[i as int] - d + 17
    }));
}

/// A run cannot have the value that another run would make.
pub proof fn lemma_step_refused(
    section: Section,
    pretree: Seq<u8>,
    now: Seq<u8>,
    i: nat,
    d: int,
    x: nat,
    after: Seq<bool>,
)
    requires
        code::reach(pretree, 16) <= 65536,
        code::has_code(pretree, 19),
        code::has_code(pretree, d),
        17 <= d,
        x < 2,
    ensures
        read_step(
            section,
            pretree,
            now,
            i,
            (bits::Input {
                bits: code::code_bits(pretree, 19) + bits::bits_of(x, 1) + code::code_bits(
                    pretree,
                    d,
                ) + after,
                odd: false,
            }),
        ) == (
            Err::<(Seq<u8>, nat), Error>(Error::BadHuffmanTree),
            (bits::Input { bits: after, odd: false }),
        ),
{
    let ts = PRETREE_TABLE_BITS as nat;
    let last = code::code_bits(pretree, d) + after;
    let extra = bits::bits_of(x, 1) + last;
    assert(code::code_bits(pretree, 19) + bits::bits_of(x, 1) + code::code_bits(pretree, d) + after
        =~= code::code_bits(pretree, 19) + extra);
    bits::lemma_pow2_small();
    code::lemma_reach_monotonic(pretree, pretree[19] as nat, 16);
    code::lemma_reach_monotonic(pretree, pretree[d] as nat, 16);
    decode::lemma_read_symbol(pretree, ts, 19, extra, false);
    bits::lemma_read_number(x, 1, last, false);
    decode::lemma_read_symbol(pretree, ts, d, after, false);
}

proof fn lemma_run_stops(curr: Seq<u8>, i: nat, k: nat, max: nat)
    requires
        1 <= k <= max,
        i + k <= curr.len(),
    ensures
        ({
            let run = run_at(curr, i, k, max);
            run == max || i + run == curr.len() || curr[(i + run) as int] != curr[i as int]
        }),
    decreases max - k,
{
    if k < max && i + k < curr.len() && curr[(i + k) as int] == curr[i as int] {
        lemma_run_stops(curr, i, k + 1, max);
    }
}

/// A step describes as many equal lengths as it can. It describes a single one
/// only where the next four lengths of the literals, or three of the matches, are
/// not equal, or not there.
pub proof fn lemma_op_longest(section: Section, prev: Seq<u8>, curr: Seq<u8>, i: nat)
    requires
        i < curr.len(),
    ensures
        ({
            let op = op_at(section, prev, curr, i);
            let end = i + op_len(op);
            let short: int = if section == Section::Literal {
                4
            } else {
                3
            };
            let cap: int = if curr[i as int] != 0 {
                short + 1
            } else if section == Section::Literal {
                51
            } else {
                82
            };
            if op is Single {
                !(i + short <= curr.len() && forall|j: int|
                    i <= j < i + short ==> #[trigger] curr[j] == curr[i as int])
            } else {
                &&& short <= op_len(op) <= cap
                &&& op_len(op) == cap || end == curr.len() || curr[end as int] != curr[i as int]
            }
        }),
{
    let max = section.sym18_max() as nat;
    let run = run_at(curr, i, 1, max);
    lemma_run_at(curr, i, 1, max);
    lemma_run_stops(curr, i, 1, max);
    if run < section.run_threshold() {
        let j = (i + run) as int;
        assert(i <= j < i + section.run_threshold());
        assert(j >= curr.len() || curr[j] != curr[i as int]);
        assert(op_at(section, prev, curr, i) is Single);
    } else {
        let op = op_at(section, prev, curr, i);
        assert(!(op is Single));
        if curr[i as int] != 0 {
            assert(op_len(op) == (if run <= section.sym19_max() {
                run as int
            } else {
                section.sym19_max() as int
            }));
            assert(run <= section.sym19_max() ==> run < max);
        } else {
            assert(op_len(op) == run);
        }
    }
}

proof fn lemma_entries_step(
    section: Section,
    pretree: Seq<u8>,
    now: Seq<u8>,
    i: nat,
    input: bits::Input,
)
    requires
        i < now.len(),
    ensures
        read_step(section, pretree, now, i, input) matches (Ok((l, j)), rest) ==> read_entries(
            section,
            pretree,
            now,
            i,
            input,
        ) == read_entries(section, pretree, l, j, rest),
{
    reveal_with_fuel(read_entries, 1);
}

/// Reading one step.
#[verifier::rlimit(40)]
proof fn lemma_read_op(
    section: Section,
    pretree: Seq<u8>,
    now: Seq<u8>,
    i: nat,
    op: PretreeOp,
    after: Seq<bool>,
    odd: bool,
)
    requires
        odd ==> after.len() + 1 >= PRETREE_TABLE_BITS,
        i + op_len(op) <= now.len(),
        i < now.len(),
        code::reach(pretree, 16) <= 65536,
        op_ok(section, pretree, op),
    ensures
        read_entries(
            section,
            pretree,
            now,
            i,
            (bits::Input { bits: op_bits(section, pretree, op) + after, odd }),
        ) == read_entries(
            section,
            pretree,
            applied(now, i, op),
            i + op_len(op),
            (bits::Input { bits: after, odd }),
        ),
{
    let b = op_bits(section, pretree, op) + after;
    lemma_entries_step(section, pretree, now, i, (bits::Input { bits: b, odd }));
    lemma_run_ranges(section);
    bits::lemma_pow2_small();
    match op {
        PretreeOp::Single { delta: d } => {
            assert(op_uses(op, d as int));
            lemma_read_single(section, pretree, now, i, d as int, after, odd);
        },
        PretreeOp::ZeroRunShort { run } => {
            assert(op_uses(op, 17));
            let x = (run - section.sym17_base()) as nat;
            let w = section.sym17_extra_bits() as nat;
            lemma_read_zeros(section, pretree, now, i, 17, x, w, after, odd);
        },
        PretreeOp::ZeroRunLong { run } => {
            assert(op_uses(op, 18));
            let x = (run - section.sym18_base()) as nat;
            let w = section.sym18_extra_bits() as nat;
            lemma_read_zeros(section, pretree, now, i, 18, x, w, after, odd);
        },
        PretreeOp::SameRun { run, delta: d } => {
            assert(op_uses(op, 19));
            assert(op_uses(op, d as int));
            let x = (run - section.sym19_base()) as nat;
            lemma_read_run(section, pretree, now, i, d as int, x, after, odd);
        },
    }
}

/// The next step makes the lengths that it describes new.
proof fn lemma_applied(section: Section, prev: Seq<u8>, curr: Seq<u8>, i: nat)
    requires
        i < prev.len() == curr.len(),
        forall|j: int| 0 <= j < curr.len() ==> #[trigger] curr[j] <= 16,
    ensures
        ({
            let op = op_at(section, prev, curr, i);
            let next = (i + op_len(op)) as int;
            applied(curr.take(i as int) + prev.skip(i as int), i, op) == curr.take(next)
                + prev.skip(next)
        }),
{
    let op = op_at(section, prev, curr, i);
    let next = (i + op_len(op)) as int;
    let now = curr.take(i as int) + prev.skip(i as int);
    lemma_op_at(section, prev, curr, i);
    lemma_delta_then_apply(prev[i as int] as int, curr[i as int] as int);
    assert(now[i as int] == prev[i as int]);
    assert(applied(now, i, op) =~= curr.take(next) + prev.skip(next));
}

/// The steps from `i` on, read over lengths of which those before `i` are
/// new already, make the others new too.
proof fn lemma_read_ops(
    section: Section,
    pretree: Seq<u8>,
    prev: Seq<u8>,
    curr: Seq<u8>,
    i: nat,
    rest: Seq<bool>,
    odd: bool,
)
    requires
        odd ==> rest.len() + 1 >= PRETREE_TABLE_BITS,
        prev.len() == curr.len(),
        i <= curr.len(),
        code::reach(pretree, 16) <= 65536,
        forall|j: int| 0 <= j < curr.len() ==> #[trigger] curr[j] <= 16,
        forall|k: int|
            0 <= k < ops_from(section, prev, curr, i).len() ==> op_ok(
                section,
                pretree,
                #[trigger] ops_from(section, prev, curr, i)[k],
            ),
    ensures
        read_entries(
            section,
            pretree,
            curr.take(i as int) + prev.skip(i as int),
            i,
            (bits::Input {
                bits: ops_bits(section, pretree, ops_from(section, prev, curr, i)) + rest,
                odd,
            }),
        ) == (Ok::<(), Error>(()), curr, (bits::Input { bits: rest, odd })),
    decreases curr.len() - i,
{
    let now = curr.take(i as int) + prev.skip(i as int);
    let ops = ops_from(section, prev, curr, i);
    let b = ops_bits(section, pretree, ops) + rest;
    if i == curr.len() {
        reveal_with_fuel(read_entries, 1);
        assert(now =~= curr);
        assert(ops_bits(section, pretree, ops) =~= Seq::<bool>::empty());
        assert(b =~= rest);
    } else {
        let op = op_at(section, prev, curr, i);
        lemma_op_at(section, prev, curr, i);
        let next = i + op_len(op);
        let tail = ops_from(section, prev, curr, next);
        assert(ops == seq![op] + tail);
        assert(op_ok(section, pretree, ops[0]));
        assert forall|k: int| 0 <= k < tail.len() implies op_ok(
            section,
            pretree,
            #[trigger] tail[k],
        ) by {
            assert(ops[k + 1] == tail[k]);
        }
        lemma_ops_split(section, pretree, op, tail);
        let after = ops_bits(section, pretree, tail) + rest;
        assert(b =~= op_bits(section, pretree, op) + after);
        lemma_read_op(section, pretree, now, i, op, after, odd);
        lemma_applied(section, prev, curr, i);
        lemma_read_ops(section, pretree, prev, curr, next, rest, odd);
    }
}

/// A section that was written comes back, and what follows it is left to read.
/// Half a word at the end of the source does no harm where enough bits stand
/// before it for the reader to look ahead.
pub proof fn lemma_section_round_trip(
    section: Section,
    prev: Seq<u8>,
    curr: Seq<u8>,
    rest: Seq<bool>,
    odd: bool,
)
    requires
        odd ==> rest.len() + 1 >= PRETREE_TABLE_BITS,
        0 < prev.len() == curr.len(),
        counts_fit(section, prev, curr),
        forall|i: int| 0 <= i < curr.len() ==> #[trigger] curr[i] <= 16,
    ensures
        read_section(
            section,
            prev,
            (bits::Input { bits: encoded_section(section, prev, curr) + rest, odd }),
        ) == (Ok::<(), Error>(()), curr, (bits::Input { bits: rest, odd })),
{
    let ops = ops_from(section, prev, curr, 0);
    let pretree = package::code_lengths(op_freqs(ops), 15);
    lemma_pretree(section, prev, curr);
    bits::lemma_pow2_small();
    let body = ops_bits(section, pretree, ops) + rest;
    assert(encoded_section(section, prev, curr) + rest =~= numbers_bits(pretree, 4) + body);
    let none = Seq::<u8>::empty();
    lemma_read_numbers(pretree, 4, none, body, odd);
    assert(none + pretree =~= pretree);
    code::lemma_reach_monotonic(pretree, 6, 16);
    lemma_read_ops(section, pretree, prev, curr, 0, rest, odd);
    assert(curr.take(0) + prev.skip(0) =~= prev);
}

} // verus!
