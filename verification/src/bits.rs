//! The mathematical model of the bit stream.
//!
//! A stream is a sequence of 16-bit big-endian words. The first bit of each
//! word is its least significant one. Plain numbers travel least significant
//! bit first, Huffman codes most significant bit first.

use vstd::prelude::*;
use vstd::arithmetic::div_mod::*;
use vstd::arithmetic::power2::*;

use crate::error::{Error, Result};

verus! {

/// The low `n` bits of `v`, least significant first.
pub open spec fn bits_of(v: nat, n: nat) -> Seq<bool>
    decreases n,
{
    if n == 0 {
        Seq::empty()
    } else {
        seq![v % 2 == 1] + bits_of(v / 2, (n - 1) as nat)
    }
}

/// The number whose bits, least significant first, are `b`.
pub open spec fn lsb_value(b: Seq<bool>) -> nat
    decreases b.len(),
{
    if b.len() == 0 {
        0
    } else {
        (if b[0] { 1nat } else { 0nat }) + 2 * lsb_value(b.drop_first())
    }
}

/// The low `n` bits of `v`, most significant first.
pub open spec fn msb_bits(v: nat, n: nat) -> Seq<bool>
    decreases n,
{
    if n == 0 {
        Seq::empty()
    } else {
        msb_bits(v / 2, (n - 1) as nat).push(v % 2 == 1)
    }
}

/// The number whose bits, most significant first, are `b`.
pub open spec fn msb_value(b: Seq<bool>) -> nat
    decreases b.len(),
{
    if b.len() == 0 {
        0
    } else {
        2 * msb_value(b.drop_last()) + (if b.last() { 1nat } else { 0nat })
    }
}

/// The low `n` bits of `v` in the opposite order.
pub open spec fn reversed(v: nat, n: nat) -> nat {
    msb_value(bits_of(v, n))
}

/// The bits that the complete words of `bytes` hold. An odd last byte holds
/// none.
pub open spec fn word_bits(bytes: Seq<u8>) -> Seq<bool>
    decreases bytes.len(),
{
    if bytes.len() < 2 {
        Seq::empty()
    } else {
        bits_of((bytes[0] * 256 + bytes[1]) as nat, 16) + word_bits(bytes.skip(2))
    }
}

/// The words that hold the bits, the last one filled up with zero bits.
pub open spec fn packed(b: Seq<bool>) -> Seq<u8>
    decreases b.len(),
{
    if b.len() == 0 {
        Seq::empty()
    } else if b.len() < 16 {
        word_bytes(lsb_value(b))
    } else {
        word_bytes(lsb_value(b.take(16))) + packed(b.skip(16))
    }
}

/// A 16-bit word, the high byte first.
pub open spec fn word_bytes(word: nat) -> Seq<u8> {
    seq![(word / 256) as u8, (word % 256) as u8]
}

/// `n` zero bits.
pub open spec fn zeros(n: nat) -> Seq<bool> {
    Seq::new(n, |i: int| false)
}

/// The number of zero bits that fill the last word of a stream of `len` bits.
pub open spec fn padding(len: nat) -> nat {
    ((16 - len % 16) % 16) as nat
}

/// What a reader has before it: whole bits, and perhaps half a word, which
/// makes the first read that meets it fail.
#[verifier::ext_equal]
pub struct Input {
    pub bits: Seq<bool>,
    pub odd: bool,
}

/// Read a number of `n` bits: the number and what is left.
pub open spec fn read_number(input: Input, n: nat) -> (Result<nat>, Input) {
    if n <= input.bits.len() {
        (
            Ok(lsb_value(input.bits.take(n as int))),
            Input { bits: input.bits.skip(n as int), odd: input.odd },
        )
    } else {
        (Err(Error::Truncated), Input { bits: input.bits, odd: false })
    }
}

pub proof fn lemma_bits_len(v: nat, n: nat)
    ensures
        bits_of(v, n).len() == n,
        msb_bits(v, n).len() == n,
    decreases n,
{
    if n > 0 {
        lemma_bits_len(v / 2, (n - 1) as nat);
    }
}

pub proof fn lemma_bits_value(v: nat, n: nat)
    ensures
        lsb_value(bits_of(v, n)) == v % pow2(n),
    decreases n,
{
    lemma_pow2_pos(n);
    if n == 0 {
        assert(pow2(0) == 1) by {
            lemma2_to64();
        }
    } else {
        let m = (n - 1) as nat;
        lemma_bits_value(v / 2, m);
        assert(bits_of(v, n).drop_first() =~= bits_of(v / 2, m));
        lemma_pow2_unfold(n);
        lemma_pow2_pos(m);
        lemma_mod_breakdown(v as int, 2, pow2(m) as int);
    }
}

pub proof fn lemma_bits_value_small(v: nat, n: nat)
    requires
        v < pow2(n),
    ensures
        lsb_value(bits_of(v, n)) == v,
{
    lemma_bits_value(v, n);
    lemma_small_mod(v, pow2(n));
}

pub proof fn lemma_value_bits(b: Seq<bool>)
    ensures
        lsb_value(b) < pow2(b.len()),
        bits_of(lsb_value(b), b.len()) == b,
    decreases b.len(),
{
    if b.len() == 0 {
        lemma_pow2_pos(0);
        assert(bits_of(0, 0) =~= b);
    } else {
        let r = b.drop_first();
        lemma_value_bits(r);
        lemma_pow2_unfold(b.len());
        let v = lsb_value(b);
        assert(v / 2 == lsb_value(r));
        assert((v % 2 == 1) == b[0]);
        assert(bits_of(v, b.len()) =~= b);
    }
}

pub proof fn lemma_bits_split(v: nat, a: nat, b: nat)
    ensures
        bits_of(v, a + b) == bits_of(v, a) + bits_of(v / pow2(a), b),
    decreases a,
{
    lemma_pow2_pos(a);
    if a == 0 {
        lemma2_to64();
        assert(bits_of(v, a) + bits_of(v / pow2(a), b) =~= bits_of(v, b));
    } else {
        let m = (a - 1) as nat;
        lemma_bits_split(v / 2, m, b);
        lemma_pow2_unfold(a);
        lemma_pow2_pos(m);
        lemma_div_denominator(v as int, 2, pow2(m) as int);
        assert(bits_of(v, a + b) =~= seq![v % 2 == 1] + bits_of(v / 2, m + b));
        assert(bits_of(v, a) + bits_of(v / pow2(a), b) =~= seq![v % 2 == 1] + (bits_of(v / 2, m)
            + bits_of(v / 2 / pow2(m), b)));
    }
}

pub proof fn lemma_bits_mod(v: nat, n: nat)
    ensures
        bits_of(v % pow2(n), n) == bits_of(v, n),
{
    lemma_bits_value(v, n);
    lemma_value_bits(bits_of(v, n));
    lemma_bits_len(v, n);
}

/// A number that is put together from a low part of `a` bits and a high part
/// of `b` bits.
pub proof fn lemma_bits_join(lo: nat, hi: nat, a: nat, b: nat)
    requires
        lo < pow2(a),
    ensures
        bits_of(lo + hi * pow2(a), a + b) == bits_of(lo, a) + bits_of(hi, b),
{
    let v = lo + hi * pow2(a);
    lemma_bits_split(v, a, b);
    lemma_pow2_pos(a);
    lemma_fundamental_div_mod_converse(v as int, pow2(a) as int, hi as int, lo as int);
    lemma_bits_mod(v, a);
}

pub proof fn lemma_msb_bits_value(v: nat, n: nat)
    ensures
        msb_value(msb_bits(v, n)) == v % pow2(n),
    decreases n,
{
    lemma_pow2_pos(n);
    if n == 0 {
        lemma2_to64();
    } else {
        let m = (n - 1) as nat;
        lemma_msb_bits_value(v / 2, m);
        lemma_bits_len(v, n);
        assert(msb_bits(v, n).drop_last() =~= msb_bits(v / 2, m));
        lemma_pow2_unfold(n);
        lemma_pow2_pos(m);
        lemma_mod_breakdown(v as int, 2, pow2(m) as int);
    }
}

pub proof fn lemma_msb_value_bits(b: Seq<bool>)
    ensures
        msb_value(b) < pow2(b.len()),
        msb_bits(msb_value(b), b.len()) == b,
    decreases b.len(),
{
    if b.len() == 0 {
        lemma_pow2_pos(0);
        assert(msb_bits(0, 0) =~= b);
    } else {
        let r = b.drop_last();
        lemma_msb_value_bits(r);
        lemma_pow2_unfold(b.len());
        let v = msb_value(b);
        assert(v / 2 == msb_value(r));
        assert(msb_bits(v, b.len()) =~= b);
    }
}

pub proof fn lemma_msb_concat(a: Seq<bool>, b: Seq<bool>)
    ensures
        msb_value(a + b) == msb_value(a) * pow2(b.len()) + msb_value(b),
    decreases b.len(),
{
    if b.len() == 0 {
        assert(a + b =~= a);
        lemma2_to64();
        assert(msb_value(a) * pow2(0) == msb_value(a));
    } else {
        let c = b.drop_last();
        lemma_msb_concat(a, c);
        assert((a + b).drop_last() =~= a + c);
        lemma_pow2_unfold(b.len());
        let p = pow2(c.len());
        let x = msb_value(a);
        assert(2 * (x * p) == x * (2 * p)) by (nonlinear_arith);
    }
}

/// Reversing a number's bits turns its order of travel around.
pub proof fn lemma_reversed_bits(v: nat, n: nat)
    ensures
        reversed(v, n) < pow2(n),
        bits_of(reversed(v, n), n) == msb_bits(v, n),
    decreases n,
{
    lemma_bits_len(v, n);
    lemma_msb_value_bits(bits_of(v, n));
    if n > 0 {
        let m = (n - 1) as nat;
        lemma_reversed_bits(v / 2, m);
        let tail = bits_of(v / 2, m);
        lemma_bits_len(v / 2, m);
        let first = seq![v % 2 == 1];
        assert(bits_of(v, n) =~= first + tail);
        lemma_msb_concat(first, tail);
        assert(first.drop_last() =~= Seq::<bool>::empty());
        assert(msb_value(first.drop_last()) == 0);
        let hi: nat = if v % 2 == 1 { 1 } else { 0 };
        assert(msb_value(first) == hi);
        let lo = reversed(v / 2, m);
        assert(reversed(v, n) == lo + hi * pow2(m));
        lemma_bits_join(lo, hi, m, 1);
        assert(bits_of(hi, 1) =~= seq![v % 2 == 1]) by {
            assert(bits_of(hi / 2, 0) =~= Seq::<bool>::empty());
        }
        assert(bits_of(reversed(v, n), n) =~= msb_bits(v, n));
    }
}

/// Reversing twice gives the number back.
pub proof fn lemma_reversed_twice(v: nat, n: nat)
    requires
        v < pow2(n),
    ensures
        reversed(reversed(v, n), n) == v,
{
    lemma_reversed_bits(v, n);
    lemma_msb_bits_value(v, n);
    lemma_small_mod(v, pow2(n));
}

pub proof fn lemma_word_bits_len(bytes: Seq<u8>)
    ensures
        word_bits(bytes).len() == 16 * (bytes.len() / 2),
    decreases bytes.len(),
{
    if bytes.len() >= 2 {
        lemma_word_bits_len(bytes.skip(2));
        lemma_bits_len((bytes[0] * 256 + bytes[1]) as nat, 16);
    }
}

pub proof fn lemma_word_bits_concat(a: Seq<u8>, b: Seq<u8>)
    requires
        a.len() % 2 == 0,
    ensures
        word_bits(a + b) == word_bits(a) + word_bits(b),
    decreases a.len(),
{
    if a.len() == 0 {
        assert(a + b =~= b);
        assert(word_bits(a) + word_bits(b) =~= word_bits(b));
    } else {
        lemma_word_bits_concat(a.skip(2), b);
        assert((a + b).skip(2) =~= a.skip(2) + b);
        assert(word_bits(a + b) =~= word_bits(a) + word_bits(b));
    }
}

/// Appending one word appends its bits.
pub proof fn lemma_word_bits_push(bytes: Seq<u8>, word: u16)
    requires
        bytes.len() % 2 == 0,
    ensures
        word_bits(bytes.push((word / 256) as u8).push((word % 256) as u8)) == word_bits(bytes)
            + bits_of(word as nat, 16),
{
    let tail = seq![(word / 256) as u8, (word % 256) as u8];
    lemma_word_bits_concat(bytes, tail);
    assert(bytes.push((word / 256) as u8).push((word % 256) as u8) =~= bytes + tail);
    assert(word_bits(tail.skip(2)) =~= Seq::<bool>::empty());
    assert(word_bits(tail) =~= bits_of(word as nat, 16));
}

pub proof fn lemma_bits_of_zero(n: nat)
    ensures
        bits_of(0, n) == zeros(n),
    decreases n,
{
    if n > 0 {
        lemma_bits_of_zero((n - 1) as nat);
    }
    assert(bits_of(0, n) =~= zeros(n));
}

pub proof fn lemma_zero_bits_value(b: Seq<bool>, n: nat)
    ensures
        lsb_value(b + zeros(n)) == lsb_value(b),
    decreases b.len(),
{
    if b.len() == 0 {
        assert(b + zeros(n) =~= zeros(n));
        lemma_bits_of_zero(n);
        lemma_pow2_pos(n);
        lemma_bits_value_small(0, n);
    } else {
        lemma_zero_bits_value(b.drop_first(), n);
        assert((b + zeros(n)).drop_first() =~= b.drop_first() + zeros(n));
    }
}

/// The powers of two that word arithmetic meets.
pub proof fn lemma_pow2_small()
    ensures
        pow2(0) == 1,
        pow2(1) == 2,
        pow2(3) == 8,
        pow2(4) == 16,
        pow2(8) == 256,
        pow2(12) == 4096,
        pow2(15) == 32768,
        pow2(16) == 65536,
        pow2(24) == 0x100_0000,
        pow2(31) == 0x8000_0000,
        pow2(32) == 0x1_0000_0000,
{
    lemma2_to64();
}

pub proof fn lemma_pow2_le(a: nat, b: nat)
    requires
        a <= b,
    ensures
        0 < pow2(a) <= pow2(b),
{
    lemma_pow2_pos(a);
    if a < b {
        lemma_pow2_strictly_increases(a, b);
    }
}

/// Setting the bits of `hi` above the `k` low bits of `lo` is an addition.
pub proof fn lemma_or_shifted(lo: u32, hi: u32, k: u32)
    requires
        k < 32,
        lo < pow2(k as nat),
        hi * pow2(k as nat) <= u32::MAX,
    ensures
        (lo | (hi << k)) == lo + hi * pow2(k as nat),
{
    vstd::bits::lemma_u32_shl_is_mul(hi, k);
    lemma_pow2_small();
    lemma_pow2_le(k as nat, 31);
    vstd::bits::lemma_u32_shl_is_mul(1u32, k);
    let s = hi << k;
    assert((lo | s) == lo + s) by (bit_vector)
        requires
            k < 32,
            lo < (1u32 << k),
            s == hi << k,
    ;
}

/// Masking with `n` one bits is a remainder.
pub proof fn lemma_mask_is_mod(v: u32, n: u32)
    requires
        n < 32,
    ensures
        (1u32 << n) == pow2(n as nat),
        (1u32 << n) >= 1,
        (v & ((1u32 << n) - 1) as u32) == v % (pow2(n as nat) as u32),
{
    lemma_pow2_small();
    lemma_pow2_le(n as nat, 31);
    vstd::bits::lemma_u32_shl_is_mul(1u32, n);
    vstd::bits::lemma_u32_low_bits_mask_is_mod(v, n as nat);
}

/// What was written comes back: a stream that begins with a number yields it.
pub proof fn lemma_read_number(v: nat, n: nat, rest: Seq<bool>, odd: bool)
    requires
        v < pow2(n),
    ensures
        read_number(Input { bits: bits_of(v, n) + rest, odd }, n) == (
            Ok::<nat, Error>(v),
            (Input { bits: rest, odd }),
        ),
{
    let b = bits_of(v, n) + rest;
    lemma_bits_len(v, n);
    assert(b.take(n as int) =~= bits_of(v, n));
    assert(b.skip(n as int) =~= rest);
    lemma_bits_value_small(v, n);
}

/// Packing bits that fill whole words undoes reading them.
pub proof fn lemma_packed_words(bytes: Seq<u8>)
    requires
        bytes.len() % 2 == 0,
    ensures
        packed(word_bits(bytes)) == bytes,
    decreases bytes.len(),
{
    if bytes.len() == 0 {
        assert(packed(word_bits(bytes)) =~= bytes);
    } else {
        let w = (bytes[0] * 256 + bytes[1]) as nat;
        let rest = bytes.skip(2);
        let b = word_bits(bytes);
        lemma_packed_words(rest);
        lemma_bits_len(w, 16);
        lemma_pow2_small();
        lemma_bits_value_small(w, 16);
        assert(b.take(16) =~= bits_of(w, 16));
        assert(b.skip(16) =~= word_bits(rest));
        assert(packed(b) =~= bytes);
    }
}

proof fn lemma_packed_padding(b: Seq<bool>)
    ensures
        packed(b + zeros(padding(b.len()))) == packed(b),
    decreases b.len(),
{
    let n = padding(b.len());
    let all = b + zeros(n);
    if b.len() == 0 {
        assert(all =~= b);
    } else if b.len() < 16 {
        assert(all.take(16) =~= all);
        lemma_zero_bits_value(b, n);
        assert(all.skip(16) =~= Seq::<bool>::empty());
        assert(packed(all.skip(16)) =~= Seq::<u8>::empty());
        assert(packed(all) =~= packed(b));
    } else {
        lemma_packed_padding(b.skip(16));
        assert(all.take(16) =~= b.take(16));
        assert(all.skip(16) =~= b.skip(16) + zeros(n));
    }
}

/// The bytes of whole words are the packed bits that they hold, without the
/// zero bits that fill the last word.
pub proof fn lemma_packed_unique(bytes: Seq<u8>, b: Seq<bool>)
    requires
        bytes.len() % 2 == 0,
        word_bits(bytes) == b + zeros(padding(b.len())),
    ensures
        bytes == packed(b),
{
    lemma_packed_words(bytes);
    lemma_packed_padding(b);
}

/// What is packed can be read back, followed by the zero bits that fill the
/// last word.
pub proof fn lemma_packed(b: Seq<bool>)
    ensures
        packed(b).len() == 2 * ((b.len() + 15) / 16),
        word_bits(packed(b)) == b + zeros(padding(b.len())),
    decreases b.len(),
{
    let n = padding(b.len());
    if b.len() == 0 {
        assert(word_bits(packed(b)) =~= b + zeros(n));
    } else if b.len() < 16 {
        assert(n == 16 - b.len());
        lemma_zero_bits_value(b, n);
        lemma_word_back(b + zeros(n));
        assert(packed(b) == word_bytes(lsb_value(b)));
    } else {
        let rest = b.skip(16);
        let first = b.take(16);
        assert(padding(rest.len()) == n);
        lemma_packed(rest);
        lemma_word_back(first);
        lemma_word_bits_concat(word_bytes(lsb_value(first)), packed(rest));
        assert(packed(b) == word_bytes(lsb_value(first)) + packed(rest));
        assert(first + (rest + zeros(n)) =~= b + zeros(n));
    }
}

proof fn lemma_word_back(b: Seq<bool>)
    requires
        b.len() == 16,
    ensures
        word_bits(word_bytes(lsb_value(b))) == b,
{
    let w = lsb_value(b);
    let bytes = word_bytes(w);
    lemma_value_bits(b);
    lemma_pow2_small();
    assert(bytes[0] * 256 + bytes[1] == w);
    assert(word_bits(bytes.skip(2)) =~= Seq::<bool>::empty());
    assert(word_bits(bytes) =~= b);
}

/// Bit `i` of a number, counted from the lowest, travels as bit `i`.
pub proof fn lemma_bits_at(v: nat, n: nat, i: nat)
    requires
        i < n,
    ensures
        bits_of(v, n).len() == n,
        bits_of(v, n)[i as int] == (v / pow2(i) % 2 == 1),
    decreases n,
{
    lemma_bits_len(v, n);
    if i == 0 {
        lemma2_to64();
    } else {
        let j = (i - 1) as nat;
        lemma_bits_at(v / 2, (n - 1) as nat, j);
        lemma_pow2_unfold(i);
        lemma_pow2_pos(j);
        lemma_div_denominator(v as int, 2, pow2(j) as int);
    }
}

/// Bit `i` of a code, counted from the lowest, travels as bit `i` from the end.
pub proof fn lemma_msb_bits_at(v: nat, n: nat, i: nat)
    requires
        i < n,
    ensures
        msb_bits(v, n).len() == n,
        msb_bits(v, n)[n - 1 - i] == (v / pow2(i) % 2 == 1),
    decreases n,
{
    lemma_bits_len(v, n);
    if i == 0 {
        lemma2_to64();
    } else {
        let j = (i - 1) as nat;
        lemma_bits_len(v / 2, (n - 1) as nat);
        lemma_msb_bits_at(v / 2, (n - 1) as nat, j);
        lemma_pow2_unfold(i);
        lemma_pow2_pos(j);
        lemma_div_denominator(v as int, 2, pow2(j) as int);
    }
}

/// Where each bit of a stream stands: sixteen in two bytes, the first eight of
/// them in the second byte, from its lowest bit up. An odd last byte holds none.
pub proof fn lemma_word_bits_at(bytes: Seq<u8>, i: nat)
    requires
        i < 16 * (bytes.len() / 2),
    ensures
        ({
            let at = 2 * (i / 16) + (if i % 16 < 8 {
                1int
            } else {
                0
            });
            word_bits(bytes)[i as int] == (bytes[at] as nat / pow2(i % 8) % 2 == 1)
        }),
    decreases bytes.len(),
{
    let word = (bytes[0] * 256 + bytes[1]) as nat;
    lemma_bits_len(word, 16);
    if i < 16 {
        lemma_bits_at(word, 16, i);
        lemma_word_bit(bytes[0], bytes[1], i);
    } else {
        let rest = bytes.skip(2);
        let j = (i - 16) as nat;
        lemma_word_bits_len(rest);
        lemma_word_bits_at(rest, j);
        assert(word_bits(bytes)[i as int] == word_bits(rest)[j as int]);
        assert(j / 16 + 1 == i / 16 && j % 16 == i % 16 && j % 8 == i % 8);
    }
}

proof fn lemma_word_bit(hi: u8, lo: u8, i: nat)
    requires
        i < 16,
    ensures
        ({
            let b = if i < 8 {
                lo as nat
            } else {
                hi as nat
            };
            (hi as nat * 256 + lo as nat) / pow2(i) % 2 == b / pow2(i % 8) % 2
        }),
{
    lemma2_to64();
    let w = hi as nat * 256 + lo as nat;
    if i < 8 {
        let k = (7 - i) as nat;
        lemma_pow2_adds(i, k + 1);
        lemma_pow2_unfold(k + 1);
        lemma_pow2_pos(i);
        let p = pow2(i);
        let q = pow2(k);
        assert(hi as nat * 256 == p * (2 * (q * hi as nat))) by (nonlinear_arith)
            requires
                p * (2 * q) == 256,
        ;
        let a = q * hi as nat;
        lemma_hoist_over_denominator(lo as int, 2 * a as int, p);
        assert(w == lo + (2 * a) * p) by (nonlinear_arith)
            requires
                hi as nat * 256 == p * (2 * a),
                w == hi as nat * 256 + lo as nat,
        ;
        assert(w / p == lo as nat / p + 2 * a);
    } else {
        let j = (i - 8) as nat;
        lemma_pow2_adds(8, j);
        lemma_pow2_pos(j);
        lemma_div_denominator(w as int, 256, pow2(j) as int);
        assert(w / 256 == hi);
    }
}

/// Where each bit of a stream is put, and what fills the last word up.
pub proof fn lemma_packed_at(b: Seq<bool>, i: nat)
    requires
        i < 16 * ((b.len() + 15) / 16),
    ensures
        packed(b).len() == 2 * ((b.len() + 15) / 16),
        ({
            let at = 2 * (i / 16) + (if i % 16 < 8 {
                1int
            } else {
                0
            });
            (packed(b)[at] as nat / pow2(i % 8) % 2 == 1) == (i < b.len() && b[i as int])
        }),
{
    lemma_packed(b);
    lemma_word_bits_len(packed(b));
    lemma_word_bits_at(packed(b), i);
}

/// A number takes its bits from the stream, which all have to be there.
pub proof fn lemma_number_consumed(input: Input, n: nat)
    ensures
        n <= input.bits.len() ==> {
            &&& read_number(input, n).1 == Input { bits: input.bits.skip(n as int), ..input }
            &&& read_number(input, n).0 matches Ok(v) && v < pow2(n) && bits_of(v, n)
                == input.bits.take(n as int)
        },
        n > input.bits.len() ==> {
            &&& read_number(input, n).0 == Err::<nat, Error>(Error::Truncated)
            &&& read_number(input, n).1.bits == input.bits
        },
{
    if n <= input.bits.len() {
        lemma_value_bits(input.bits.take(n as int));
    }
}

} // verus!
