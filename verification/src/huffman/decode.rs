//! Two-level Huffman decode table.
//!
//! The root is indexed by the next `table_size` bits of the stream. An entry
//! below the number of symbols is a symbol whose code is no longer than that.
//! Any other entry is a node: its two children stand at twice its number and
//! right behind, and the next bit picks one of them.

use vstd::prelude::*;
use vstd::arithmetic::power2::*;

use crate::bitio::BitReader;
use crate::bits;
use crate::error::{Error, Result};
use crate::huffman::build::reverse_bits;
use crate::huffman::code;

verus! {

/// Entry `idx` of the table decodes every code that begins with the `d` bits
/// `v`. The nodes below it stand between `lo` and `hi`.
#[verifier::opaque]
pub open spec fn entry_ok(
    table: Seq<u16>,
    lengths: Seq<u8>,
    table_size: nat,
    idx: int,
    d: nat,
    v: nat,
    lo: int,
    hi: int,
) -> bool
    decreases 16 - d,
{
    let e = table[idx] as int;
    &&& 0 <= idx < table.len()
    &&& 0 <= lo
    &&& hi <= table.len()
    &&& table_size <= d <= 16
    &&& if e < lengths.len() {
        &&& code::has_code(lengths, e)
        &&& (if d == table_size {
            lengths[e] <= d
        } else {
            lengths[e] == d
        })
        &&& code::pos(lengths, e) <= v * code::width(d)
        &&& (v + 1) * code::width(d) <= code::pos(lengths, e) + code::width(lengths[e] as nat)
    } else {
        &&& d < 16
        &&& lo <= 2 * e
        &&& 2 * e + 1 < hi
        &&& entry_ok(table, lengths, table_size, 2 * e, (d + 1) as nat, (2 * v) as nat, lo, hi)
        &&& entry_ok(
            table,
            lengths,
            table_size,
            2 * e + 1,
            (d + 1) as nat,
            (2 * v + 1) as nat,
            lo,
            hi,
        )
    }
}

/// The table decodes the code with these lengths.
pub open spec fn table_ok(table: Seq<u16>, lengths: Seq<u8>, table_size: nat) -> bool {
    forall|v: nat|
        v < pow2(table_size) ==> #[trigger] entry_ok(
            table,
            lengths,
            table_size,
            bits::reversed(v, table_size) as int,
            table_size,
            v,
            0,
            table.len() as int,
        )
}

/// What the table holds for the codes that begin with the `d` bits `v`, where
/// `e` is the next free node: the entry, and the children of its nodes. A node
/// comes before those below it, and what is below its first child before what is
/// below its second one.
#[verifier::opaque]
pub open spec fn subtree(lengths: Seq<u8>, d: nat, v: nat, e: nat) -> (nat, Seq<u16>)
    decreases 16 - d,
{
    let s = code::symbol_at(lengths, (v * code::width(d)) as int);
    if d >= 16 || lengths[s] <= d {
        (s as nat, Seq::empty())
    } else {
        let left = subtree(lengths, d + 1, 2 * v, e + 1);
        let right = subtree(lengths, d + 1, 2 * v + 1, e + 1 + left.1.len() / 2);
        (e, seq![left.0 as u16, right.0 as u16] + left.1 + right.1)
    }
}

/// The children of the nodes below the first `k` root entries, in the order of
/// the codes. The first free node is the one whose children stand right behind
/// the root.
pub open spec fn root_nodes(lengths: Seq<u8>, table_size: nat, k: nat) -> Seq<u16>
    decreases k,
{
    if k == 0 {
        Seq::empty()
    } else {
        let before = root_nodes(lengths, table_size, (k - 1) as nat);
        before + subtree(
            lengths,
            table_size,
            (k - 1) as nat,
            (pow2(table_size) + before.len()) / 2,
        ).1
    }
}

/// The root entry for the codes that begin with the bits `v`.
pub open spec fn root_entry(lengths: Seq<u8>, table_size: nat, v: nat) -> nat {
    subtree(
        lengths,
        table_size,
        v,
        (pow2(table_size) + root_nodes(lengths, table_size, v).len()) / 2,
    ).0
}

/// The decode table: the root, whose index has the first bit of a code in its
/// lowest bit, the nodes, and zeros, four cells in all for each symbol.
pub open spec fn decode_table(lengths: Seq<u8>, table_size: nat) -> Seq<u16> {
    let nodes = root_nodes(lengths, table_size, pow2(table_size));
    Seq::new(
        pow2(table_size),
        |i: int| root_entry(lengths, table_size, bits::reversed(i as nat, table_size)) as u16,
    ) + nodes + Seq::new((4 * lengths.len() - nodes.len()) as nat, |i: int| 0u16)
}

/// How many bits decoding a symbol consumes, with the table of the code with the
/// lengths `coded`. Of a short code the table holds only the symbol, and the
/// bits to consume are looked up in `lengths`. A long one is followed bit by bit.
pub open spec fn bits_used(coded: Seq<u8>, lengths: Seq<u8>, table_size: nat, s: int) -> nat {
    if coded[s] <= table_size {
        lengths[s] as nat
    } else {
        coded[s] as nat
    }
}

/// How many bits decoding a symbol looks at: at least an index of the root.
pub open spec fn bits_looked(
    coded: Seq<u8>,
    lengths: Seq<u8>,
    table_size: nat,
    input: bits::Input,
) -> nat {
    let used = bits_used(
        coded,
        lengths,
        table_size,
        code::symbol_at(coded, code::lookahead(input.bits) as int),
    );
    if used >= table_size {
        used
    } else {
        table_size
    }
}

/// Read one symbol of the code with the lengths `coded`, where `lengths` are
/// those that are looked up: the symbol and what is left.
pub open spec fn read_coded(
    coded: Seq<u8>,
    lengths: Seq<u8>,
    table_size: nat,
    input: bits::Input,
) -> (Result<nat>, bits::Input) {
    let s = code::symbol_at(coded, code::lookahead(input.bits) as int);
    let used = bits_used(coded, lengths, table_size, s);
    let n = input.bits.len();
    if n == 0 || (n < table_size && input.odd) || used > n {
        (
            Err(Error::Truncated),
            bits::Input {
                bits: if n < table_size || coded[s] <= table_size {
                    input.bits
                } else {
                    Seq::empty()
                },
                odd: false,
            },
        )
    } else {
        (Ok(s as nat), bits::Input { bits: input.bits.skip(used as int), odd: input.odd })
    }
}

/// Read one symbol: the symbol and what is left.
pub open spec fn read_symbol(lengths: Seq<u8>, table_size: nat, input: bits::Input) -> (
    Result<nat>,
    bits::Input,
) {
    read_coded(lengths, lengths, table_size, input)
}

/// How many bits reading one symbol looks at.
pub open spec fn symbol_looked(lengths: Seq<u8>, table_size: nat, input: bits::Input) -> nat {
    bits_looked(lengths, lengths, table_size, input)
}

/// What was written comes back: a stream that begins with the code of a
/// symbol yields that symbol, and goes on behind its code.
pub proof fn lemma_read_symbol(
    lengths: Seq<u8>,
    table_size: nat,
    s: int,
    rest: Seq<bool>,
    odd: bool,
)
    requires
        code::has_code(lengths, s),
        code::reach(lengths, lengths[s] as nat) <= 65536,
        odd ==> lengths[s] + rest.len() >= table_size,
    ensures
        read_symbol(
            lengths,
            table_size,
            (bits::Input { bits: code::code_bits(lengths, s) + rest, odd }),
        ) == (Ok::<nat, Error>(s as nat), (bits::Input { bits: rest, odd })),
{
    code::lemma_code_ahead(lengths, s, rest);
    let b = code::code_bits(lengths, s) + rest;
    assert(b.skip(lengths[s] as int) =~= rest);
}

/// Reading a symbol consumes the bits of its code and no others, which all have to
/// be there. A source that has ended cannot supply any, though zeros in their place
/// would make a code. One that ends in half a word fails where an index of the root
/// meets it.
pub proof fn lemma_symbol_consumed(
    lengths: Seq<u8>,
    table_size: nat,
    s: int,
    input: bits::Input,
)
    requires
        code::owns(lengths, s, code::lookahead(input.bits) as int),
    ensures
        ({
            let n = input.bits.len();
            let r = read_symbol(lengths, table_size, input);
            if lengths[s] <= n && (n >= table_size || !input.odd) {
                r == (
                    Ok::<nat, Error>(s as nat),
                    (bits::Input { bits: input.bits.skip(lengths[s] as int), odd: input.odd }),
                )
            } else {
                r.0 == Err::<nat, Error>(Error::Truncated) && !r.1.odd
            }
        }),
        symbol_looked(lengths, table_size, input) >= table_size,
        symbol_looked(lengths, table_size, input) >= lengths[s],
        symbol_looked(lengths, table_size, input) == table_size || symbol_looked(
            lengths,
            table_size,
            input,
        ) == lengths[s],
{
    code::lemma_symbol_at(lengths, s, code::lookahead(input.bits) as int);
}

/// With the table of one code and the code lengths of another, a symbol is found by
/// its code in the table. Of a code that the root holds, as many bits are consumed
/// as the other lengths say, and of a longer one its own.
pub proof fn lemma_read_stale(
    coded: Seq<u8>,
    lengths: Seq<u8>,
    table_size: nat,
    s: int,
    rest: Seq<bool>,
)
    requires
        code::has_code(coded, s),
        code::reach(coded, coded[s] as nat) <= 65536,
        coded[s] <= table_size ==> lengths[s] <= coded[s] + rest.len(),
    ensures
        ({
            let b = code::code_bits(coded, s) + rest;
            let used = if coded[s] <= table_size {
                lengths[s] as int
            } else {
                coded[s] as int
            };
            read_coded(coded, lengths, table_size, (bits::Input { bits: b, odd: false })) == (
                Ok::<nat, Error>(s as nat),
                (bits::Input { bits: b.skip(used), odd: false }),
            )
        }),
{
    code::lemma_code_ahead(coded, s, rest);
}

/// The table holds a symbol at every index whose bits, the first one lowest, begin
/// with the symbol's code, where the code is no longer than the index.
pub proof fn lemma_short_code_entry(lengths: Seq<u8>, table_size: nat, s: int, v: nat)
    requires
        table_size <= 16,
        code::has_code(lengths, s),
        lengths[s] <= table_size,
        lengths.len() <= 65536,
        v < pow2(table_size),
        code::owns(lengths, s, (v * code::width(table_size)) as int),
    ensures
        decode_table(lengths, table_size)[bits::reversed(v, table_size) as int] == s,
{
    reveal_with_fuel(subtree, 1);
    code::lemma_symbol_at(lengths, s, (v * code::width(table_size)) as int);
    bits::lemma_reversed_bits(v, table_size);
    bits::lemma_reversed_twice(v, table_size);
}

/// The symbols stand in the order of their codes, and their ranges fill the
/// 16-bit numbers.
spec fn tiles(lengths: Seq<u8>, order: Seq<u16>) -> bool {
    &&& chained(lengths, order, 65536)
    &&& order.len() <= lengths.len()
}

/// The symbols stand in the order of their codes, and their ranges fill the
/// numbers below `end`.
#[verifier::opaque]
spec fn chained(lengths: Seq<u8>, order: Seq<u16>, end: int) -> bool {
    &&& 0 <= end <= 65536
    &&& order.len() == 0 ==> end == 0
    &&& order.len() > 0 ==> code::pos(lengths, order[0] as int) == 0
    &&& forall|i: int|
        0 <= i < order.len() ==> {
            let s = #[trigger] order[i] as int;
            &&& code::has_code(lengths, s)
            &&& code::pos(lengths, s) + code::width(lengths[s] as nat) == next_pos(
                lengths,
                order,
                i,
                end,
            )
            &&& next_pos(lengths, order, i, end) <= 65536
        }
    &&& forall|i: int, j: int|
        0 <= i <= j < order.len() ==> lengths[#[trigger] order[i] as int]
            <= lengths[#[trigger] order[j] as int]
}

spec fn next_pos(lengths: Seq<u8>, order: Seq<u16>, i: int, end: int) -> int {
    if i + 1 < order.len() {
        code::pos(lengths, order[i + 1] as int) as int
    } else {
        end
    }
}

/// How many of the first `k` symbols have codes of up to `l` bits.
spec fn upto(lengths: Seq<u8>, l: nat, k: nat) -> nat
    decreases l,
{
    if l == 0 {
        0
    } else {
        upto(lengths, (l - 1) as nat, k) + code::count(lengths, l, k)
    }
}

proof fn lemma_upto(lengths: Seq<u8>, l: nat, k: nat)
    requires
        k <= lengths.len(),
    ensures
        upto(lengths, l, k) <= k,
    decreases k,
{
    if k == 0 {
        lemma_upto_none(lengths, l);
    } else {
        lemma_upto(lengths, l, (k - 1) as nat);
        lemma_upto_step(lengths, l, k);
    }
}

proof fn lemma_upto_none(lengths: Seq<u8>, l: nat)
    ensures
        upto(lengths, l, 0) == 0,
    decreases l,
{
    if l > 0 {
        lemma_upto_none(lengths, (l - 1) as nat);
    }
}

proof fn lemma_upto_step(lengths: Seq<u8>, l: nat, k: nat)
    requires
        0 < k <= lengths.len(),
    ensures
        upto(lengths, l, k) == upto(lengths, l, (k - 1) as nat) + (if 1 <= lengths[k - 1] <= l {
            1nat
        } else {
            0nat
        }),
    decreases l,
{
    if l > 0 {
        lemma_upto_step(lengths, (l - 1) as nat, k);
    }
}

/// The symbols in the order of their codes, where a table can be built.
fn symbols_in_order(lengths: &[u8], table_size: u32) -> (r: Result<Vec<u16>>)
    requires
        1 <= table_size <= 12,
        lengths@.len() <= 2048,
    ensures
        match r {
            Ok(order) => code::decodable(lengths@, table_size as nat) && tiles(lengths@, order@),
            Err(e) => !code::decodable(lengths@, table_size as nat) && e == Error::BadHuffmanTree,
        },
{
    let n = lengths.len();
    let ts: Ghost<nat> = Ghost(table_size as nat);
    reveal(chained);
    let mut order: Vec<u16> = Vec::new();
    let mut at: u32 = 0;
    let mut width: u32 = 32768;
    let mut l: u32 = 1;
    proof {
        bits::lemma_pow2_small();
    }
    while l <= 16 && !(l == table_size + 1 && at == 65536)
        invariant
            n == lengths@.len() <= 2048,
            1 <= table_size <= 12,
            ts@ == table_size,
            1 <= l <= 17,
            l <= 16 ==> width == code::width(l as nat),
            at == code::reach(lengths@, (l - 1) as nat),
            chained(lengths@, order@, at as int),
            order@.len() == upto(lengths@, (l - 1) as nat, n as nat),
            forall|i: int| 0 <= i < order@.len() ==> lengths@[#[trigger] order@[i] as int] < l,
            l > ts@ + 1 ==> code::reach(lengths@, ts@) < 65536,
        decreases 17 - l,
    {
        let mut s: usize = 0;
        proof {
            reveal(chained);
            code::lemma_width(l as nat);
            if l < 16 {
                code::lemma_width((l + 1) as nat);
            }
            assert(0 * width == 0);
        }
        let ghost base = at as int;
        let ghost before = order@.len();
        let ghost w = width as int;
        while s < n
            invariant
                n == lengths@.len() <= 2048,
                1 <= table_size <= 12,
                ts@ == table_size,
                1 <= l <= 16,
                w == width == code::width(l as nat),
                1 <= w <= 32768,
                s <= n,
                base == code::reach(lengths@, (l - 1) as nat),
                at == base + code::count(lengths@, l as nat, s as nat) * w,
                chained(lengths@, order@, at as int),
                order@.len() == before + code::count(lengths@, l as nat, s as nat),
                forall|i: int| 0 <= i < order@.len() ==> lengths@[#[trigger] order@[i] as int] <= l,
                l > ts@ ==> code::reach(lengths@, ts@) < 65536,
            decreases n - s,
        {
            proof {
                reveal(chained);
            }
            if lengths[s] as u32 == l {
                let ghost c = code::count(lengths@, l as nat, s as nat);
                proof {
                    code::lemma_pos_bounds(lengths@, s as int);
                    assert((c + 1) * w == c * w + w) by (nonlinear_arith);
                }
                if at + width > 65536 {
                    proof {
                        if l <= ts@ {
                            code::lemma_reach_monotonic(lengths@, l as nat, ts@);
                        } else {
                            code::lemma_reach_monotonic(lengths@, l as nat, 16);
                        }
                    }
                    return Err(Error::BadHuffmanTree);
                }
                order.push(s as u16);
                at = at + width;
            }
            s = s + 1;
        }
        proof {
            code::lemma_first_code(lengths@, l as nat);
        }
        width = width / 2;
        l = l + 1;
    }
    proof {
        lemma_upto(lengths@, (l - 1) as nat, n as nat);
    }
    if at != 65536 {
        proof {
            code::lemma_reach_monotonic(lengths@, ts@, 16);
        }
        return Err(Error::BadHuffmanTree);
    }
    proof {
        if l == 17 {
            code::lemma_reach_monotonic(lengths@, ts@, 16);
        }
    }
    Ok(order)
}

/// An entry stays right while its own cell and the nodes below it do.
proof fn lemma_entry_frame(
    t1: Seq<u16>,
    t2: Seq<u16>,
    lengths: Seq<u8>,
    table_size: nat,
    idx: int,
    d: nat,
    v: nat,
    lo1: int,
    hi1: int,
    lo2: int,
    hi2: int,
)
    requires
        entry_ok(t1, lengths, table_size, idx, d, v, lo1, hi1),
        0 <= idx < t2.len(),
        t1[idx] == t2[idx],
        forall|i: int| lo1 <= i < hi1 ==> t1[i] == t2[i],
        0 <= lo2 <= lo1,
        hi1 <= hi2 <= t2.len(),
    ensures
        entry_ok(t2, lengths, table_size, idx, d, v, lo2, hi2),
    decreases 16 - d,
{
    reveal_with_fuel(entry_ok, 2);
    let e = t1[idx] as int;
    if e >= lengths.len() {
        let c = (d + 1) as nat;
        lemma_entry_frame(
            t1,
            t2,
            lengths,
            table_size,
            2 * e,
            c,
            (2 * v) as nat,
            lo1,
            hi1,
            lo2,
            hi2,
        );
        lemma_entry_frame(
            t1,
            t2,
            lengths,
            table_size,
            2 * e + 1,
            c,
            (2 * v + 1) as nat,
            lo1,
            hi1,
            lo2,
            hi2,
        );
    }
}

/// The range of a node is that of its two children.
proof fn lemma_children(d: nat, v: nat)
    requires
        d < 16,
    ensures
        (2 * v) * code::width(d + 1) == v * code::width(d),
        (2 * v + 2) * code::width(d + 1) == (v + 1) * code::width(d),
        (2 * v + 1) * code::width(d + 1) == v * code::width(d) + code::width(d + 1),
        (2 * v + 2) * code::width(d + 1) == (2 * v + 1) * code::width(d + 1) + code::width(d + 1),
        code::width(d + 1) >= 1,
{
    code::lemma_width(d + 1);
    let w = code::width(d + 1);
    assert((2 * v + 2) * w == (2 * v + 1) * w + w) by (nonlinear_arith);
    assert((2 * v) * w == v * (2 * w)) by (nonlinear_arith);
    assert((2 * v + 2) * w == (v + 1) * (2 * w)) by (nonlinear_arith);
    assert((2 * v + 1) * w == v * (2 * w) + w) by (nonlinear_arith);
}

proof fn lemma_tile(lengths: Seq<u8>, order: Seq<u16>, i: int)
    requires
        tiles(lengths, order),
        0 <= i < order.len(),
    ensures
        code::has_code(lengths, order[i] as int),
        code::pos(lengths, order[i] as int) + code::width(lengths[order[i] as int] as nat)
            == next_pos(lengths, order, i, 65536),
        next_pos(lengths, order, i, 65536) <= 65536,
{
    reveal(chained);
}

proof fn lemma_tiles_ordered(lengths: Seq<u8>, order: Seq<u16>, i: int, j: int)
    requires
        tiles(lengths, order),
        0 <= i <= j < order.len(),
    ensures
        lengths[order[i] as int] <= lengths[order[j] as int],
{
    reveal(chained);
}

proof fn lemma_leaf(
    table: Seq<u16>,
    lengths: Seq<u8>,
    table_size: nat,
    idx: int,
    d: nat,
    v: nat,
    lo: int,
    hi: int,
)
    requires
        0 <= idx < table.len(),
        0 <= lo,
        hi <= table.len(),
        table_size <= d <= 16,
        code::has_code(lengths, table[idx] as int),
        if d == table_size {
            lengths[table[idx] as int] <= d
        } else {
            lengths[table[idx] as int] == d
        },
        code::pos(lengths, table[idx] as int) <= v * code::width(d),
        (v + 1) * code::width(d) <= code::pos(lengths, table[idx] as int) + code::width(
            lengths[table[idx] as int] as nat,
        ),
    ensures
        entry_ok(table, lengths, table_size, idx, d, v, lo, hi),
{
    reveal_with_fuel(entry_ok, 1);
}

proof fn lemma_node(
    table: Seq<u16>,
    lengths: Seq<u8>,
    table_size: nat,
    idx: int,
    d: nat,
    v: nat,
    lo: int,
    hi: int,
)
    requires
        0 <= idx < table.len(),
        0 <= lo,
        hi <= table.len(),
        table_size <= d < 16,
        ({
            let e = table[idx] as int;
            &&& lengths.len() <= e
            &&& lo <= 2 * e
            &&& 2 * e + 1 < hi
            &&& entry_ok(table, lengths, table_size, 2 * e, (d + 1) as nat, (2 * v) as nat, lo, hi)
            &&& entry_ok(
                table,
                lengths,
                table_size,
                2 * e + 1,
                (d + 1) as nat,
                (2 * v + 1) as nat,
                lo,
                hi,
            )
        }),
    ensures
        entry_ok(table, lengths, table_size, idx, d, v, lo, hi),
{
    reveal_with_fuel(entry_ok, 1);
}

proof fn lemma_subtree_leaf(lengths: Seq<u8>, s: int, d: nat, v: nat, e: nat)
    requires
        code::owns(lengths, s, (v * code::width(d)) as int),
        lengths[s] <= d,
    ensures
        subtree(lengths, d, v, e) == (s as nat, Seq::<u16>::empty()),
{
    reveal_with_fuel(subtree, 1);
    code::lemma_symbol_at(lengths, s, (v * code::width(d)) as int);
}

/// A node whose children have been entered, the first one in `t1` and then the
/// second one in `t2`, where `top` cells stood before.
proof fn lemma_subtree_node(
    lengths: Seq<u8>,
    s: int,
    d: nat,
    v: nat,
    idx: int,
    top: int,
    t1: Seq<u16>,
    t2: Seq<u16>,
)
    requires
        d < 16,
        code::owns(lengths, s, (v * code::width(d)) as int),
        lengths[s] > d,
        0 <= idx < top,
        top % 2 == 0,
        top + 2 <= t1.len() <= t2.len(),
        (t1.len() - top) % 2 == 0,
        t2[idx] == top / 2,
        forall|i: int| top <= i < t1.len() && i != top + 1 ==> #[trigger] t2[i] == t1[i],
        t1[top] == subtree(lengths, d + 1, 2 * v, (top / 2 + 1) as nat).0,
        t1.skip(top + 2) == subtree(lengths, d + 1, 2 * v, (top / 2 + 1) as nat).1,
        t2[top + 1] == subtree(lengths, d + 1, 2 * v + 1, (t1.len() / 2) as nat).0,
        t2.skip(t1.len() as int) == subtree(lengths, d + 1, 2 * v + 1, (t1.len() / 2) as nat).1,
    ensures
        t2[idx] == subtree(lengths, d, v, (top / 2) as nat).0,
        t2.skip(top) == subtree(lengths, d, v, (top / 2) as nat).1,
{
    reveal_with_fuel(subtree, 1);
    code::lemma_symbol_at(lengths, s, (v * code::width(d)) as int);
    let left = subtree(lengths, d + 1, 2 * v, (top / 2 + 1) as nat);
    let right = subtree(lengths, d + 1, 2 * v + 1, (t1.len() / 2) as nat);
    assert(top / 2 + 1 + left.1.len() / 2 == t1.len() / 2);
    let sum = seq![left.0 as u16, right.0 as u16] + left.1 + right.1;
    assert forall|i: int| 0 <= i < sum.len() implies t2.skip(top)[i] == sum[i] by {
        if 2 <= i < 2 + left.1.len() {
            assert(t1.skip(top + 2)[i - 2] == t1[top + i]);
        } else if i >= 2 + left.1.len() {
            assert(t2.skip(t1.len() as int)[i - 2 - left.1.len()] == t2[top + i]);
        }
    }
    assert(t2.skip(top) =~= sum);
}

/// Enter the codes that begin with the `d` bits `v`, of which `order[cursor]`
/// has the first. Returns where in `order` the codes behind them begin.
fn fill(
    table: &mut Vec<u16>,
    lengths: &[u8],
    order: &Vec<u16>,
    table_size: u32,
    idx: usize,
    d: u32,
    cursor: usize,
    Ghost(v): Ghost<nat>,
) -> (next: usize)
    requires
        tiles(lengths@, order@),
        1 <= table_size <= d <= 16,
        table_size <= 12,
        2 * lengths@.len() <= pow2(table_size as nat) <= old(table)@.len(),
        idx < old(table)@.len(),
        old(table)@.len() % 2 == 0,
        old(table)@.len() <= pow2(table_size as nat) + 2 * cursor + 2 * (d - table_size),
        cursor < order@.len(),
        code::pos(lengths@, order@[cursor as int] as int) == v * code::width(d as nat),
        lengths@[order@[cursor as int] as int] >= d,
        d == table_size ==> lengths@[order@[cursor as int] as int] > d,
        (v + 1) * code::width(d as nat) <= 65536,
    ensures
        cursor < next <= order@.len(),
        final(table)@.len() == old(table)@.len() + 2 * (next - cursor - 1),
        forall|i: int|
            0 <= i < old(table)@.len() && i != idx ==> #[trigger] final(table)@[i]
                == old(table)@[i],
        entry_ok(
            final(table)@,
            lengths@,
            table_size as nat,
            idx as int,
            d as nat,
            v,
            old(table)@.len() as int,
            final(table)@.len() as int,
        ),
        ({
            let part = subtree(lengths@, d as nat, v, old(table)@.len() / 2);
            &&& final(table)@[idx as int] == part.0
            &&& final(table)@.skip(old(table)@.len() as int) == part.1
        }),
        (v + 1) * code::width(d as nat) == (if next < order@.len() {
            code::pos(lengths@, order@[next as int] as int) as int
        } else {
            65536
        }),
    decreases 16 - d,
{
    let s = order[cursor];
    let ghost w = code::width(d as nat);
    proof {
        assert((v + 1) * w == v * w + w) by (nonlinear_arith);
        bits::lemma_pow2_small();
        bits::lemma_pow2_le(table_size as nat, 12);
        lemma_tile(lengths@, order@, cursor as int);
        code::lemma_width(lengths@[s as int] as nat);
        assert(code::owns(lengths@, s as int, (v * w) as int));
    }
    if lengths[s as usize] as u32 == d {
        table[idx] = s;
        proof {
            assert(table@.skip(table@.len() as int) =~= Seq::<u16>::empty());
            lemma_subtree_leaf(lengths@, s as int, d as nat, v, old(table)@.len() / 2);
            lemma_leaf(
                table@,
                lengths@,
                table_size as nat,
                idx as int,
                d as nat,
                v,
                table@.len() as int,
                table@.len() as int,
            );
        }
        return cursor + 1;
    }
    let e: usize = table.len() / 2;
    let ghost top = table@.len() as int;
    let ghost n = lengths@.len() as int;
    let ghost ts = table_size as nat;
    table.push(0);
    table.push(0);
    table[idx] = e as u16;
    proof {
        lemma_children(d as nat, v);
    }
    let middle = fill(table, lengths, order, table_size, 2 * e, d + 1, cursor, Ghost((2 * v) as nat));
    let ghost t1 = table@;
    proof {
        assert(middle < order@.len());
        lemma_tiles_ordered(lengths@, order@, cursor as int, middle as int);
    }
    let next = fill(
        table,
        lengths,
        order,
        table_size,
        2 * e + 1,
        d + 1,
        middle,
        Ghost((2 * v + 1) as nat),
    );
    proof {
        let t2 = table@;
        let c = (d + 1) as nat;
        lemma_entry_frame(
            t1,
            t2,
            lengths@,
            ts,
            2 * e as int,
            c,
            (2 * v) as nat,
            top + 2,
            t1.len() as int,
            top,
            t2.len() as int,
        );
        lemma_entry_frame(
            t2,
            t2,
            lengths@,
            ts,
            2 * e + 1,
            c,
            (2 * v + 1) as nat,
            t1.len() as int,
            t2.len() as int,
            top,
            t2.len() as int,
        );
        lemma_node(t2, lengths@, ts, idx as int, d as nat, v, top, t2.len() as int);
        lemma_subtree_node(lengths@, s as int, d as nat, v, idx as int, top, t1, t2);
    }
    next
}

/// The first `v` root entries, in the order of the codes, are right.
spec fn roots_ok(table: Seq<u16>, lengths: Seq<u8>, table_size: nat, v: nat) -> bool {
    forall|u: nat|
        u < v ==> #[trigger] entry_ok(
            table,
            lengths,
            table_size,
            bits::reversed(u, table_size) as int,
            table_size,
            u,
            pow2(table_size) as int,
            table.len() as int,
        )
}

proof fn lemma_roots_step(
    t1: Seq<u16>,
    t2: Seq<u16>,
    lengths: Seq<u8>,
    table_size: nat,
    v: nat,
    idx: int,
)
    requires
        roots_ok(t1, lengths, table_size, v),
        v < pow2(table_size),
        idx == bits::reversed(v, table_size),
        idx < pow2(table_size) <= t1.len() <= t2.len(),
        forall|i: int| 0 <= i < t1.len() && i != idx ==> #[trigger] t2[i] == t1[i],
        entry_ok(
            t2,
            lengths,
            table_size,
            idx,
            table_size,
            v,
            pow2(table_size) as int,
            t2.len() as int,
        ),
    ensures
        roots_ok(t2, lengths, table_size, v + 1),
{
    assert forall|u: nat| u < v + 1 implies #[trigger] entry_ok(
        t2,
        lengths,
        table_size,
        bits::reversed(u, table_size) as int,
        table_size,
        u,
        pow2(table_size) as int,
        t2.len() as int,
    ) by {
        if u < v {
            let r = bits::reversed(u, table_size) as int;
            bits::lemma_reversed_twice(u, table_size);
            bits::lemma_reversed_twice(v, table_size);
            bits::lemma_reversed_bits(u, table_size);
            assert(entry_ok(
                t1,
                lengths,
                table_size,
                r,
                table_size,
                u,
                pow2(table_size) as int,
                t1.len() as int,
            ));
            lemma_entry_frame(
                t1,
                t2,
                lengths,
                table_size,
                r,
                table_size,
                u,
                pow2(table_size) as int,
                t1.len() as int,
                pow2(table_size) as int,
                t2.len() as int,
            );
        }
    }
}

/// The first `v` root entries, in the order of the codes, and the nodes below
/// them are what the table is to hold.
#[verifier::opaque]
spec fn entered(table: Seq<u16>, lengths: Seq<u8>, table_size: nat, v: nat) -> bool {
    &&& pow2(table_size) <= table.len()
    &&& table.skip(pow2(table_size) as int) == root_nodes(lengths, table_size, v)
    &&& forall|u: nat|
        u < v ==> table[#[trigger] bits::reversed(u, table_size) as int] == root_entry(
            lengths,
            table_size,
            u,
        )
}

proof fn lemma_entered_step(
    t1: Seq<u16>,
    t2: Seq<u16>,
    lengths: Seq<u8>,
    table_size: nat,
    v: nat,
    idx: int,
)
    requires
        entered(t1, lengths, table_size, v),
        v < pow2(table_size),
        idx == bits::reversed(v, table_size),
        t1.len() <= t2.len(),
        forall|i: int| 0 <= i < t1.len() && i != idx ==> #[trigger] t2[i] == t1[i],
        t2[idx] == subtree(lengths, table_size, v, t1.len() / 2).0,
        t2.skip(t1.len() as int) == subtree(lengths, table_size, v, t1.len() / 2).1,
    ensures
        entered(t2, lengths, table_size, v + 1),
{
    reveal(entered);
    let p = pow2(table_size) as int;
    let before = root_nodes(lengths, table_size, v);
    let part = subtree(lengths, table_size, v, t1.len() / 2);
    bits::lemma_reversed_bits(v, table_size);
    assert(p + before.len() == t1.len());
    let sum = before + part.1;
    assert forall|i: int| 0 <= i < sum.len() implies t2.skip(p)[i] == sum[i] by {
        if i < before.len() {
            assert(t1.skip(p)[i] == t1[p + i]);
        } else {
            assert(t2.skip(t1.len() as int)[i - before.len()] == t2[p + i]);
        }
    }
    assert(t2.skip(p) =~= sum);
    assert forall|u: nat| u < v + 1 implies t2[#[trigger] bits::reversed(u, table_size) as int]
        == root_entry(lengths, table_size, u) by {
        if u < v {
            bits::lemma_reversed_twice(u, table_size);
            bits::lemma_reversed_twice(v, table_size);
            bits::lemma_reversed_bits(u, table_size);
        }
    }
}

/// A table with all root entries entered, filled up with zeros.
proof fn lemma_decode_table(t1: Seq<u16>, t2: Seq<u16>, lengths: Seq<u8>, table_size: nat)
    requires
        entered(t1, lengths, table_size, pow2(table_size)),
        t1.len() <= t2.len() == pow2(table_size) + 4 * lengths.len(),
        forall|i: int| 0 <= i < t1.len() ==> #[trigger] t2[i] == t1[i],
        forall|i: int| t1.len() <= i < t2.len() ==> #[trigger] t2[i] == 0,
    ensures
        t2 == decode_table(lengths, table_size),
{
    reveal(entered);
    let p = pow2(table_size) as int;
    let table = decode_table(lengths, table_size);
    let nodes = root_nodes(lengths, table_size, pow2(table_size));
    assert forall|i: int| 0 <= i < t2.len() implies t2[i] == table[i] by {
        if i < p {
            let u = bits::reversed(i as nat, table_size);
            bits::lemma_reversed_bits(i as nat, table_size);
            bits::lemma_reversed_twice(i as nat, table_size);
            assert(t1[bits::reversed(u, table_size) as int] == root_entry(
                lengths,
                table_size,
                u,
            ));
        } else if i < p + nodes.len() {
            assert(t1.skip(p)[i - p] == t1[i]);
        }
    }
    assert(t2 =~= table);
}

/// The root cells that a code of `l` bits takes.
proof fn lemma_root_cells(table_size: nat, l: nat)
    requires
        1 <= l <= table_size <= 16,
    ensures
        code::width(l) == pow2((table_size - l) as nat) * code::width(table_size),
        1 <= pow2((table_size - l) as nat) <= pow2(table_size),
{
    lemma_pow2_adds((table_size - l) as nat, (16 - table_size) as nat);
    bits::lemma_pow2_le((table_size - l) as nat, table_size);
}

/// Enter a symbol of a short code at the root cells from `first` on, in the
/// order of the codes.
fn fill_roots(
    table: &mut Vec<u16>,
    lengths: &[u8],
    table_size: u32,
    s: u16,
    first: u32,
    cells: u32,
)
    requires
        1 <= table_size <= 12,
        pow2(table_size as nat) <= old(table)@.len(),
        first + cells <= pow2(table_size as nat),
        code::has_code(lengths@, s as int),
        lengths@[s as int] <= table_size,
        code::pos(lengths@, s as int) == first * code::width(table_size as nat),
        code::pos(lengths@, s as int) + code::width(lengths@[s as int] as nat) == (first + cells)
            * code::width(table_size as nat),
        roots_ok(old(table)@, lengths@, table_size as nat, first as nat),
        entered(old(table)@, lengths@, table_size as nat, first as nat),
    ensures
        final(table)@.len() == old(table)@.len(),
        roots_ok(final(table)@, lengths@, table_size as nat, (first + cells) as nat),
        entered(final(table)@, lengths@, table_size as nat, (first + cells) as nat),
{
    let ghost ts = table_size as nat;
    proof {
        bits::lemma_pow2_small();
        bits::lemma_pow2_le(ts, 12);
    }
    let end: u32 = first + cells;
    let mut v: u32 = first;
    while v < end
        invariant
            1 <= table_size <= 12,
            ts == table_size,
            first <= v <= end <= pow2(ts) <= table@.len(),
            table@.len() == old(table)@.len(),
            code::has_code(lengths@, s as int),
            lengths@[s as int] <= table_size,
            code::pos(lengths@, s as int) == first * code::width(ts),
            code::pos(lengths@, s as int) + code::width(lengths@[s as int] as nat) == end
                * code::width(ts),
            roots_ok(table@, lengths@, ts, v as nat),
            entered(table@, lengths@, ts, v as nat),
        decreases end - v,
    {
        let idx = reverse_bits(v, table_size) as usize;
        let ghost before = table@;
        table[idx] = s;
        proof {
            let w = code::width(ts);
            assert(first * w <= v * w && (v + 1) * w <= end * w) by (nonlinear_arith)
                requires
                    first <= v,
                    v + 1 <= end,
                    0 <= w,
            ;
            let lo = pow2(ts) as int;
            let hi = table@.len() as int;
            lemma_leaf(table@, lengths@, ts, idx as int, ts, v as nat, lo, hi);
            lemma_roots_step(before, table@, lengths@, ts, v as nat, idx as int);
            code::lemma_width(ts);
            assert((v + 1) * w == v * w + w) by (nonlinear_arith);
            assert(code::owns(lengths@, s as int, (v * w) as int));
            lemma_subtree_leaf(lengths@, s as int, ts, v as nat, before.len() / 2);
            assert(table@.skip(before.len() as int) =~= Seq::<u16>::empty());
            lemma_entered_step(before, table@, lengths@, ts, v as nat, idx as int);
        }
        v = v + 1;
    }
}

/// Build the decode table of the code with these lengths. A length of zero
/// stands for a symbol without a code.
pub fn make_decode_table(number_symbols: usize, table_size: u32, lengths: &[u8]) -> (r: Result<
    Vec<u16>,
>)
    requires
        lengths@.len() == number_symbols,
        1 <= table_size <= 12,
        2 * number_symbols <= pow2(table_size as nat),
    ensures
        match r {
            Ok(table) => {
                &&& code::decodable(lengths@, table_size as nat)
                &&& table@ == decode_table(lengths@, table_size as nat)
                &&& table_ok(table@, lengths@, table_size as nat)
            },
            Err(e) => !code::decodable(lengths@, table_size as nat) && e == Error::BadHuffmanTree,
        },
{
    let ghost ts = table_size as nat;
    proof {
        bits::lemma_pow2_small();
        bits::lemma_pow2_le(ts, 12);
        bits::lemma_mask_is_mod(0, table_size);
        lemma_pow2_unfold(ts);
    }
    let order = symbols_in_order(lengths, table_size)?;
    let root: u32 = 1u32 << table_size;
    let mut table: Vec<u16> = vec![0u16; root as usize];
    let mut cursor: usize = 0;
    let mut v: u32 = 0;
    proof {
        lemma_first_tile(lengths@, order@);
        assert(0 * code::width(ts) == 0);
        reveal(entered);
        assert(table@.skip(pow2(ts) as int) =~= Seq::<u16>::empty());
    }
    while cursor < order.len()
        invariant
            1 <= table_size <= 12,
            ts == table_size,
            2 * lengths@.len() <= pow2(ts) <= 4096,
            tiles(lengths@, order@),
            cursor <= order@.len(),
            v * code::width(ts) == (if cursor < order@.len() {
                code::pos(lengths@, order@[cursor as int] as int) as int
            } else {
                65536
            }),
            v <= pow2(ts),
            pow2(ts) <= table@.len() <= pow2(ts) + 2 * cursor,
            table@.len() % 2 == 0,
            roots_ok(table@, lengths@, ts, v as nat),
            entered(table@, lengths@, ts, v as nat),
        decreases order@.len() - cursor,
    {
        let s = order[cursor];
        let ghost w = code::width(ts);
        proof {
            lemma_tile(lengths@, order@, cursor as int);
            code::lemma_width(ts);
            code::lemma_width(lengths@[s as int] as nat);
        }
        let l = lengths[s as usize] as u32;
        if l <= table_size {
            proof {
                bits::lemma_mask_is_mod(0, (table_size - l) as u32);
                lemma_root_cells(ts, l as nat);
                let c = pow2((ts - l) as nat);
                assert((v + c) * w == v * w + c * w) by (nonlinear_arith);
                assert(v + c <= pow2(ts)) by (nonlinear_arith)
                    requires
                        (v + c) * w <= 65536,
                        w * pow2(ts) == 65536,
                        w >= 1,
                ;
            }
            let cells: u32 = 1u32 << (table_size - l);
            fill_roots(&mut table, lengths, table_size, s, v, cells);
            v = v + cells;
            cursor = cursor + 1;
        } else {
            proof {
                let x = code::width(l as nat);
                assert((v + 1) * w == v * w + w) by (nonlinear_arith);
                lemma_narrower(ts, l as nat, v as nat, code::code(lengths@, s as int));
                assert(v + 1 <= pow2(ts)) by (nonlinear_arith)
                    requires
                        (v + 1) * w <= 65536,
                        w * pow2(ts) == 65536,
                        w >= 1,
                ;
            }
            let idx = reverse_bits(v, table_size) as usize;
            let ghost before = table@;
            cursor = fill(
                &mut table,
                lengths,
                &order,
                table_size,
                idx,
                table_size,
                cursor,
                Ghost(v as nat),
            );
            proof {
                let lo = pow2(ts) as int;
                let hi = table@.len() as int;
                lemma_entry_frame(
                    table@,
                    table@,
                    lengths@,
                    ts,
                    idx as int,
                    ts,
                    v as nat,
                    before.len() as int,
                    hi,
                    lo,
                    hi,
                );
                lemma_roots_step(before, table@, lengths@, ts, v as nat, idx as int);
                lemma_entered_step(before, table@, lengths@, ts, v as nat, idx as int);
            }
            v = v + 1;
        }
    }
    let ghost built = table@;
    let total: usize = root as usize + 4 * number_symbols;
    while table.len() < total
        invariant
            built.len() <= table@.len() <= total,
            forall|i: int| 0 <= i < built.len() ==> #[trigger] table@[i] == built[i],
            forall|i: int| built.len() <= i < table@.len() ==> #[trigger] table@[i] == 0,
        decreases total - table@.len(),
    {
        table.push(0);
    }
    proof {
        let w = code::width(ts);
        code::lemma_width(ts);
        assert(v == pow2(ts)) by (nonlinear_arith)
            requires
                v * w == 65536,
                w * pow2(ts) == 65536,
                w >= 1,
        ;
        lemma_table_ok(built, lengths@, ts);
        lemma_table_longer(built, table@, lengths@, ts);
        lemma_decode_table(built, table@, lengths@, ts);
    }
    Ok(table)
}

proof fn lemma_first_tile(lengths: Seq<u8>, order: Seq<u16>)
    requires
        tiles(lengths, order),
    ensures
        order.len() > 0,
        code::pos(lengths, order[0] as int) == 0,
{
    reveal(chained);
}

proof fn lemma_table_ok(table: Seq<u16>, lengths: Seq<u8>, ts: nat)
    requires
        roots_ok(table, lengths, ts, pow2(ts)),
        pow2(ts) <= table.len(),
    ensures
        table_ok(table, lengths, ts),
{
    assert forall|v: nat| v < pow2(ts) implies #[trigger] entry_ok(
        table,
        lengths,
        ts,
        bits::reversed(v, ts) as int,
        ts,
        v,
        0,
        table.len() as int,
    ) by {
        let r = bits::reversed(v, ts) as int;
        bits::lemma_reversed_bits(v, ts);
        let lo = pow2(ts) as int;
        let hi = table.len() as int;
        assert(entry_ok(table, lengths, ts, r, ts, v, lo, hi));
        lemma_entry_frame(table, table, lengths, ts, r, ts, v, lo, hi, 0, hi);
    }
}

proof fn lemma_table_longer(t1: Seq<u16>, t2: Seq<u16>, lengths: Seq<u8>, ts: nat)
    requires
        table_ok(t1, lengths, ts),
        pow2(ts) <= t1.len() <= t2.len(),
        forall|i: int| 0 <= i < t1.len() ==> #[trigger] t2[i] == t1[i],
    ensures
        table_ok(t2, lengths, ts),
{
    let n = t1.len() as int;
    let m = t2.len() as int;
    assert forall|v: nat| v < pow2(ts) implies #[trigger] entry_ok(
        t2,
        lengths,
        ts,
        bits::reversed(v, ts) as int,
        ts,
        v,
        0,
        m,
    ) by {
        let r = bits::reversed(v, ts) as int;
        bits::lemma_reversed_bits(v, ts);
        assert(entry_ok(t1, lengths, ts, r, ts, v, 0, n));
        lemma_entry_frame(t1, t2, lengths, ts, r, ts, v, 0, n, 0, m);
    }
}

/// A root cell that begins below the end of the numbers ends there at most.
proof fn lemma_narrower(ts: nat, l: nat, v: nat, c: nat)
    requires
        1 <= ts < l <= 16,
        c * code::width(l) == v * code::width(ts),
        c * code::width(l) + code::width(l) <= 65536,
    ensures
        (v + 1) * code::width(ts) <= 65536,
{
    code::lemma_width(ts);
    code::lemma_width(l);
    let w = code::width(ts);
    let p = pow2(ts);
    assert(v < p) by (nonlinear_arith)
        requires
            v * w < 65536,
            w * p == 65536,
            w >= 1,
    ;
    assert((v + 1) * w <= p * w) by (nonlinear_arith)
        requires
            v + 1 <= p,
            w >= 0,
    ;
    assert(p * w == w * p) by (nonlinear_arith);
}

/// A lookahead in the range of an entry begins with the code of a symbol, and
/// below a node that code is longer than the bits that lead to the node.
proof fn lemma_entry_owner(
    table: Seq<u16>,
    lengths: Seq<u8>,
    table_size: nat,
    idx: int,
    d: nat,
    v: nat,
    lo: int,
    hi: int,
    look: int,
)
    requires
        entry_ok(table, lengths, table_size, idx, d, v, lo, hi),
        v * code::width(d) <= look < (v + 1) * code::width(d),
    ensures
        code::owns(lengths, code::symbol_at(lengths, look), look),
        table[idx] < lengths.len() ==> code::symbol_at(lengths, look) == table[idx],
        table[idx] >= lengths.len() ==> lengths[code::symbol_at(lengths, look)] > d,
    decreases 16 - d,
{
    reveal_with_fuel(entry_ok, 1);
    let e = table[idx] as int;
    if e < lengths.len() {
        code::lemma_symbol_at(lengths, e, look);
    } else {
        lemma_children(d, v);
        let c = (d + 1) as nat;
        if look < (2 * v + 1) * code::width(c) {
            lemma_entry_owner(table, lengths, table_size, 2 * e, c, (2 * v) as nat, lo, hi, look);
            lemma_entry_depth(table, lengths, table_size, 2 * e, c, (2 * v) as nat, lo, hi);
        } else {
            let u = (2 * v + 1) as nat;
            lemma_entry_owner(table, lengths, table_size, 2 * e + 1, c, u, lo, hi, look);
            lemma_entry_depth(table, lengths, table_size, 2 * e + 1, c, u, lo, hi);
        }
    }
}

proof fn lemma_entry_depth(
    table: Seq<u16>,
    lengths: Seq<u8>,
    table_size: nat,
    idx: int,
    d: nat,
    v: nat,
    lo: int,
    hi: int,
)
    requires
        entry_ok(table, lengths, table_size, idx, d, v, lo, hi),
        d > table_size,
    ensures
        table[idx] < lengths.len() ==> lengths[table[idx] as int] == d,
{
    reveal_with_fuel(entry_ok, 1);
}

/// What a table says of the lookahead does not depend on the lengths that it is
/// taken to be made from.
proof fn lemma_entry_agrees(
    table: Seq<u16>,
    c1: Seq<u8>,
    c2: Seq<u8>,
    table_size: nat,
    idx: int,
    d: nat,
    v: nat,
    lo: int,
    hi: int,
    look: int,
)
    requires
        c1.len() == c2.len(),
        entry_ok(table, c1, table_size, idx, d, v, lo, hi),
        entry_ok(table, c2, table_size, idx, d, v, lo, hi),
        v * code::width(d) <= look < (v + 1) * code::width(d),
    ensures
        ({
            let s = code::symbol_at(c1, look);
            &&& s == code::symbol_at(c2, look)
            &&& c1[s] <= table_size <==> c2[s] <= table_size
            &&& c1[s] > table_size ==> c1[s] == c2[s]
        }),
    decreases 16 - d,
{
    lemma_entry_owner(table, c1, table_size, idx, d, v, lo, hi, look);
    lemma_entry_owner(table, c2, table_size, idx, d, v, lo, hi, look);
    lemma_entry_bounds(table, c1, table_size, idx, d, v, lo, hi);
    lemma_entry_bounds(table, c2, table_size, idx, d, v, lo, hi);
    let e = table[idx] as int;
    if e < c1.len() {
        if d > table_size {
            lemma_entry_depth(table, c1, table_size, idx, d, v, lo, hi);
            lemma_entry_depth(table, c2, table_size, idx, d, v, lo, hi);
        } else {
            reveal_with_fuel(entry_ok, 1);
        }
    } else {
        lemma_children(d, v);
        let c = (d + 1) as nat;
        if look < (2 * v + 1) * code::width(c) {
            let u = (2 * v) as nat;
            lemma_entry_agrees(table, c1, c2, table_size, 2 * e, c, u, lo, hi, look);
        } else {
            let u = (2 * v + 1) as nat;
            lemma_entry_agrees(table, c1, c2, table_size, 2 * e + 1, c, u, lo, hi, look);
        }
    }
}

proof fn lemma_table_agrees(
    table: Seq<u16>,
    c1: Seq<u8>,
    c2: Seq<u8>,
    lengths: Seq<u8>,
    table_size: nat,
    input: bits::Input,
)
    requires
        1 <= table_size <= 16,
        c1.len() == c2.len(),
        table_ok(table, c1, table_size),
        table_ok(table, c2, table_size),
    ensures
        read_coded(c1, lengths, table_size, input) == read_coded(c2, lengths, table_size, input),
        bits_looked(c1, lengths, table_size, input) == bits_looked(c2, lengths, table_size, input),
        ({
            let s = code::symbol_at(c1, code::lookahead(input.bits) as int);
            0 <= s < c1.len() && code::has_code(c2, s)
        }),
{
    let b = input.bits;
    let v = bits::msb_value(code::padded(b, table_size));
    let hi = table.len() as int;
    let look = code::lookahead(b) as int;
    let r = bits::reversed(v, table_size) as int;
    code::lemma_lookahead_prefix(b, table_size);
    assert(code::padded(b, table_size).len() == table_size);
    bits::lemma_msb_value_bits(code::padded(b, table_size));
    assert(entry_ok(table, c1, table_size, r, table_size, v, 0, hi));
    assert(entry_ok(table, c2, table_size, r, table_size, v, 0, hi));
    lemma_entry_agrees(table, c1, c2, table_size, r, table_size, v, 0, hi, look);
    lemma_entry_owner(table, c1, table_size, r, table_size, v, 0, hi, look);
    lemma_entry_owner(table, c2, table_size, r, table_size, v, 0, hi, look);
}

/// The table is that of the code with the lengths `coded`, and the lengths that
/// are looked up are no longer than a code.
pub open spec fn decodes(
    table: Seq<u16>,
    coded: Seq<u8>,
    lengths: Seq<u8>,
    table_size: nat,
) -> bool {
    &&& coded.len() == lengths.len()
    &&& table_ok(table, coded, table_size)
    &&& forall|s: int| code::has_code(coded, s) ==> #[trigger] lengths[s] <= 16
}

/// A symbol was decoded as with the table of the code with the lengths `coded`.
pub open spec fn decoded_with(
    coded: Seq<u8>,
    lengths: Seq<u8>,
    table_size: nat,
    before: BitReader<'_>,
    after: BitReader<'_>,
    r: Result<u16>,
) -> bool {
    let model = read_coded(coded, lengths, table_size, before.input());
    &&& after.input() == model.1
    &&& after.taken() == before.taken_for(
        bits_looked(coded, lengths, table_size, before.input()),
    )
    &&& match r {
        Ok(s) => s < lengths.len() && code::has_code(coded, s as int) && model.0 == Ok::<
            nat,
            Error,
        >(s as nat),
        Err(e) => model.0 == Err::<nat, Error>(e),
    }
}

/// Decode one symbol. The lengths need not be those that the table was made
/// from.
pub fn decode_symbol(
    reader: &mut BitReader<'_>,
    table: &[u16],
    lengths: &[u8],
    number_symbols: usize,
    table_size: u32,
) -> (r: Result<u16>)
    requires
        old(reader).wf(),
        lengths@.len() == number_symbols,
        1 <= table_size <= 16,
        exists|coded: Seq<u8>| decodes(table@, coded, lengths@, table_size as nat),
    ensures
        final(reader).wf(),
        final(reader).source() == old(reader).source(),
        forall|coded: Seq<u8>| #[trigger]
            decodes(table@, coded, lengths@, table_size as nat) ==> decoded_with(
                coded,
                lengths@,
                table_size as nat,
                *old(reader),
                *final(reader),
                r,
            ),
{
    let ghost one = choose|coded: Seq<u8>|
        decodes(table@, coded, lengths@, table_size as nat);
    let r = decode_with(reader, table, lengths, number_symbols, table_size, Ghost(one));
    proof {
        assert forall|coded: Seq<u8>| #[trigger]
            decodes(table@, coded, lengths@, table_size as nat) implies decoded_with(
            coded,
            lengths@,
            table_size as nat,
            *old(reader),
            *reader,
            r,
        ) by {
            lemma_table_agrees(
                table@,
                one,
                coded,
                lengths@,
                table_size as nat,
                old(reader).input(),
            );
        }
    }
    r
}

fn decode_with(
    reader: &mut BitReader<'_>,
    table: &[u16],
    lengths: &[u8],
    number_symbols: usize,
    table_size: u32,
    Ghost(coded): Ghost<Seq<u8>>,
) -> (r: Result<u16>)
    requires
        old(reader).wf(),
        lengths@.len() == number_symbols,
        1 <= table_size <= 16,
        decodes(table@, coded, lengths@, table_size as nat),
    ensures
        final(reader).wf(),
        final(reader).source() == old(reader).source(),
        decoded_with(coded, lengths@, table_size as nat, *old(reader), *final(reader), r),
{
    let ghost b = reader.bits();
    let ghost ts = table_size as nat;
    let ghost look = code::lookahead(b) as int;
    let ghost s0 = code::symbol_at(coded, look);
    let ghost hi = table@.len() as int;
    let ghost mut v: nat = bits::msb_value(code::padded(b, ts));
    let root_bits = reader.peek_bits_padded(table_size)?;
    proof {
        let pad = code::padded(b, ts);
        code::lemma_lookahead_prefix(b, ts);
        bits::lemma_value_bits(pad);
        bits::lemma_pow2_small();
        bits::lemma_pow2_le(ts, 16);
        if b.len() >= ts {
            assert(pad =~= b.take(ts as int));
        } else {
            assert(pad =~= b + bits::zeros((ts - b.len()) as nat));
            bits::lemma_zero_bits_value(b, (ts - b.len()) as nat);
        }
        assert(root_bits == bits::lsb_value(pad));
        bits::lemma_reversed_twice(root_bits as nat, ts);
        assert(bits::reversed(root_bits as nat, ts) == v);
        lemma_entry_bounds(table@, coded, ts, root_bits as int, ts, v, 0, hi);
        lemma_entry_owner(table@, coded, ts, root_bits as int, ts, v, 0, hi, look);
    }
    let ghost peeked = *reader;
    let mut sym: u16 = table[root_bits as usize];
    if (sym as usize) < number_symbols {
        let len = lengths[sym as usize] as u32;
        proof {
            peeked.lemma_taken_join(*old(reader), 0, ts, len as nat);
        }
        reader.consume_bits(len)?;
        return Ok(sym);
    }
    proof {
        peeked.lemma_taken_join(*old(reader), 0, ts, ts);
    }
    reader.consume_bits(table_size)?;
    let ghost mut d: nat = ts;
    let ghost mut idx: int = root_bits as int;
    while sym as usize >= number_symbols
        invariant
            reader.wf(),
            reader.source() == old(reader).source(),
            reader.odd() == old(reader).odd(),
            reader.bits() == b.skip(d as int),
            b == old(reader).bits(),
            look == code::lookahead(b),
            ts == table_size,
            1 <= ts <= d <= 16,
            ts <= b.len(),
            d <= b.len(),
            lengths@.len() == coded.len() == number_symbols,
            reader.taken() == old(reader).taken_for(d),
            s0 == code::symbol_at(coded, look),
            v == bits::msb_value(code::padded(b, d)),
            sym == table@[idx],
            hi == table@.len(),
            entry_ok(table@, coded, ts, idx, d, v, 0, hi),
            d == ts ==> sym >= number_symbols,
        decreases 16 - d,
    {
        proof {
            bits::lemma_pow2_small();
            lemma_entry_bounds(table@, coded, ts, idx, d, v, 0, hi);
            code::lemma_lookahead_prefix(b, d);
            lemma_entry_owner(table@, coded, ts, idx, d, v, 0, hi, look);
        }
        proof {
            reader.lemma_taken_join(*old(reader), d, d, 1);
            if d == b.len() {
                assert(b.skip(d as int) =~= Seq::<bool>::empty());
            }
        }
        let bit = reader.read_bits(1)?;
        let at: usize = 2 * (sym as usize) + bit as usize;
        proof {
            let next = code::padded(b, (d + 1) as nat);
            assert(next.drop_last() =~= code::padded(b, d));
            let one = b.skip(d as int).take(1);
            assert(one.drop_first() =~= Seq::<bool>::empty());
            assert(bits::lsb_value(one.drop_first()) == 0);
            assert(b.skip(d as int).skip(1) =~= b.skip((d + 1) as int));
            v = (2 * v + bit) as nat;
            d = (d + 1) as nat;
            idx = at as int;
        }
        sym = table[at];
    }
    proof {
        lemma_entry_bounds(table@, coded, ts, idx, d, v, 0, hi);
        code::lemma_lookahead_prefix(b, d);
        lemma_entry_owner(table@, coded, ts, idx, d, v, 0, hi, look);
        lemma_entry_depth(table@, coded, ts, idx, d, v, 0, hi);
    }
    Ok(sym)
}

proof fn lemma_entry_bounds(
    table: Seq<u16>,
    lengths: Seq<u8>,
    table_size: nat,
    idx: int,
    d: nat,
    v: nat,
    lo: int,
    hi: int,
)
    requires
        entry_ok(table, lengths, table_size, idx, d, v, lo, hi),
    ensures
        0 <= idx < table.len(),
        table[idx] < lengths.len() ==> code::has_code(lengths, table[idx] as int) && lengths[table[idx] as int]
            <= d,
        table[idx] >= lengths.len() ==> {
            let e = table[idx] as int;
            &&& d < 16
            &&& 2 * e + 1 < table.len()
            &&& entry_ok(table, lengths, table_size, 2 * e, (d + 1) as nat, (2 * v) as nat, lo, hi)
            &&& entry_ok(
                table,
                lengths,
                table_size,
                2 * e + 1,
                (d + 1) as nat,
                (2 * v + 1) as nat,
                lo,
                hi,
            )
        },
{
    reveal_with_fuel(entry_ok, 1);
}

} // verus!
