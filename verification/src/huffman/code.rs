//! The mathematical model of a canonical Huffman code.
//!
//! Codes are at most 16 bits long. A code of `l` bits stands for the range of
//! `2^(16-l)` 16-bit numbers that begin with it, most significant bit first.
//! Shorter codes come first, and among those of one length the lower symbols.

use vstd::prelude::*;
use vstd::arithmetic::div_mod::*;
use vstd::arithmetic::power2::*;

use crate::bits;

verus! {

/// How many of the first `k` symbols have codes of `l` bits.
pub open spec fn count(lengths: Seq<u8>, l: nat, k: nat) -> nat
    decreases k,
{
    if k == 0 {
        0
    } else {
        count(lengths, l, (k - 1) as nat) + (if lengths[k - 1] == l {
            1nat
        } else {
            0nat
        })
    }
}

/// How many 16-bit numbers begin with a code of `l` bits.
pub open spec fn width(l: nat) -> nat {
    pow2((16 - l) as nat)
}

/// The first code of `l` bits.
pub open spec fn first_code(lengths: Seq<u8>, l: nat) -> nat
    decreases l,
{
    if l <= 1 {
        0
    } else {
        2 * (first_code(lengths, (l - 1) as nat) + count(lengths, (l - 1) as nat, lengths.len()))
    }
}

/// Where the ranges of the codes of up to `l` bits end.
pub open spec fn reach(lengths: Seq<u8>, l: nat) -> nat {
    if l == 0 {
        0
    } else {
        (first_code(lengths, l) + count(lengths, l, lengths.len())) * width(l)
    }
}

/// The symbol has a code.
pub open spec fn has_code(lengths: Seq<u8>, s: int) -> bool {
    &&& 0 <= s < lengths.len()
    &&& 1 <= lengths[s] <= 16
}

/// The code of a symbol, as a number.
pub open spec fn code(lengths: Seq<u8>, s: int) -> nat {
    first_code(lengths, lengths[s] as nat) + count(lengths, lengths[s] as nat, s as nat)
}

/// The code of a symbol, as it travels.
pub open spec fn code_bits(lengths: Seq<u8>, s: int) -> Seq<bool> {
    bits::msb_bits(code(lengths, s), lengths[s] as nat)
}

/// Where the range of a symbol's code begins.
pub open spec fn pos(lengths: Seq<u8>, s: int) -> nat {
    code(lengths, s) * width(lengths[s] as nat)
}

/// The 16-bit number begins with the symbol's code.
pub open spec fn owns(lengths: Seq<u8>, s: int, v: int) -> bool {
    &&& has_code(lengths, s)
    &&& pos(lengths, s) <= v < pos(lengths, s) + width(lengths[s] as nat)
}

/// The symbol whose code the 16-bit number begins with.
pub open spec fn symbol_at(lengths: Seq<u8>, v: int) -> int {
    choose|s: int| owns(lengths, s, v)
}

/// Every 16-bit number begins with exactly one code.
pub open spec fn complete(lengths: Seq<u8>) -> bool {
    reach(lengths, 16) == 65536
}

/// A decode table with a root of `table_size` bits can be built: the codes are
/// complete, or already those that the root holds are, and the longer ones
/// are never met.
pub open spec fn decodable(lengths: Seq<u8>, table_size: nat) -> bool {
    ||| reach(lengths, table_size) == 65536
    ||| reach(lengths, table_size) < 65536 && complete(lengths)
}

/// The next `n` bits, where a stream that has ended goes on with zeros.
pub open spec fn padded(b: Seq<bool>, n: nat) -> Seq<bool> {
    (b + bits::zeros(16)).take(n as int)
}

/// The next 16 bits as a number, most significant first.
pub open spec fn lookahead(b: Seq<bool>) -> nat {
    bits::msb_value(padded(b, 16))
}

pub proof fn lemma_width(l: nat)
    requires
        1 <= l <= 16,
    ensures
        1 <= width(l) <= 32768,
        width((l - 1) as nat) == 2 * width(l),
        width(l) * pow2(l) == 65536,
{
    lemma_pow2_pos((16 - l) as nat);
    lemma_pow2_unfold((17 - l) as nat);
    bits::lemma_pow2_small();
    bits::lemma_pow2_le((16 - l) as nat, 15);
    lemma_pow2_adds((16 - l) as nat, l);
}

pub proof fn lemma_count_bounds(lengths: Seq<u8>, l: nat, k: nat, m: nat)
    requires
        k <= m,
    ensures
        count(lengths, l, k) <= count(lengths, l, m) <= count(lengths, l, k) + (m - k),
    decreases m - k,
{
    if k < m {
        lemma_count_bounds(lengths, l, k, (m - 1) as nat);
    }
}

/// The ranges of the codes of `l` bits begin where those of shorter codes end.
pub proof fn lemma_first_code(lengths: Seq<u8>, l: nat)
    requires
        1 <= l <= 16,
    ensures
        first_code(lengths, l) * width(l) == reach(lengths, (l - 1) as nat),
        reach(lengths, l) == reach(lengths, (l - 1) as nat) + count(lengths, l, lengths.len())
            * width(l),
{
    lemma_width(l);
    let w = width(l);
    if l > 1 {
        let e = first_code(lengths, (l - 1) as nat) + count(
            lengths,
            (l - 1) as nat,
            lengths.len(),
        );
        assert((2 * e) * w == e * (2 * w)) by (nonlinear_arith);
    } else {
        assert(0 * w == 0);
    }
    let f = first_code(lengths, l);
    let c = count(lengths, l, lengths.len());
    assert((f + c) * w == f * w + c * w) by (nonlinear_arith);
}

pub proof fn lemma_reach_monotonic(lengths: Seq<u8>, a: nat, b: nat)
    requires
        a <= b <= 16,
    ensures
        reach(lengths, a) <= reach(lengths, b),
    decreases b - a,
{
    if a < b {
        lemma_reach_monotonic(lengths, a, (b - 1) as nat);
        lemma_first_code(lengths, b);
    }
}

/// A symbol's range lies past those of shorter codes, and within those of its
/// own length.
pub proof fn lemma_pos_bounds(lengths: Seq<u8>, s: int)
    requires
        has_code(lengths, s),
    ensures
        ({
            let l = lengths[s] as nat;
            &&& pos(lengths, s) == reach(lengths, (l - 1) as nat) + count(lengths, l, s as nat)
                * width(l)
            &&& reach(lengths, (l - 1) as nat) <= pos(lengths, s)
            &&& pos(lengths, s) + width(l) <= reach(lengths, l)
        }),
{
    let l = lengths[s] as nat;
    let w = width(l);
    let f = first_code(lengths, l);
    let c = count(lengths, l, s as nat);
    let n = count(lengths, l, lengths.len());
    lemma_width(l);
    lemma_first_code(lengths, l);
    lemma_count_bounds(lengths, l, (s + 1) as nat, lengths.len());
    assert((f + c) * w == f * w + c * w) by (nonlinear_arith);
    assert((c + 1) * w <= n * w) by (nonlinear_arith)
        requires
            c + 1 <= n,
            0 <= w,
    ;
    assert((c + 1) * w == c * w + w) by (nonlinear_arith);
    assert(0 <= c * w) by (nonlinear_arith);
}

/// Ranges lie in the order of code length and symbol.
pub proof fn lemma_pos_ordered(lengths: Seq<u8>, s: int, t: int)
    requires
        has_code(lengths, s),
        has_code(lengths, t),
        lengths[s] < lengths[t] || (lengths[s] == lengths[t] && s < t),
    ensures
        pos(lengths, s) + width(lengths[s] as nat) <= pos(lengths, t),
{
    let l = lengths[s] as nat;
    let m = lengths[t] as nat;
    lemma_pos_bounds(lengths, s);
    lemma_pos_bounds(lengths, t);
    if l < m {
        lemma_reach_monotonic(lengths, l, (m - 1) as nat);
    } else {
        lemma_count_bounds(lengths, l, (s + 1) as nat, t as nat);
        let c = count(lengths, l, s as nat);
        let d = count(lengths, l, t as nat);
        let w = width(l);
        assert((c + 1) * w <= d * w) by (nonlinear_arith)
            requires
                c + 1 <= d,
                0 <= w,
        ;
        assert((c + 1) * w == c * w + w) by (nonlinear_arith);
    }
}

/// No 16-bit number begins with two codes: no code is the beginning of another
/// symbol's code.
pub proof fn lemma_prefix_free(lengths: Seq<u8>, s: int, t: int, v: int)
    requires
        owns(lengths, s, v),
        owns(lengths, t, v),
    ensures
        s == t,
{
    if s != t {
        if lengths[s] < lengths[t] || (lengths[s] == lengths[t] && s < t) {
            lemma_pos_ordered(lengths, s, t);
        } else {
            lemma_pos_ordered(lengths, t, s);
        }
    }
}

pub proof fn lemma_symbol_at(lengths: Seq<u8>, s: int, v: int)
    requires
        owns(lengths, s, v),
    ensures
        symbol_at(lengths, v) == s,
{
    lemma_prefix_free(lengths, symbol_at(lengths, v), s, v);
}

/// Where the codes do not overflow, a code fits its length.
pub proof fn lemma_code_fits(lengths: Seq<u8>, s: int)
    requires
        has_code(lengths, s),
        reach(lengths, lengths[s] as nat) <= 65536,
    ensures
        code(lengths, s) < pow2(lengths[s] as nat),
{
    let l = lengths[s] as nat;
    lemma_pos_bounds(lengths, s);
    lemma_width(l);
    let w = width(l);
    let c = code(lengths, s);
    assert(c < pow2(l)) by (nonlinear_arith)
        requires
            c * w + w <= 65536,
            w * pow2(l) == 65536,
            w >= 1,
    ;
}

/// The first `d` bits of a lookahead fix the range that it lies in.
pub proof fn lemma_lookahead_prefix(b: Seq<bool>, d: nat)
    requires
        d <= 16,
    ensures
        padded(b, d).len() == d,
        bits::msb_value(padded(b, d)) < pow2(d),
        bits::msb_value(padded(b, d)) * width(d) <= lookahead(b) < (bits::msb_value(padded(b, d))
            + 1) * width(d),
        lookahead(b) < 65536,
{
    let all = padded(b, 16);
    let head = padded(b, d);
    let tail = all.skip(d as int);
    assert(all =~= head + tail);
    bits::lemma_msb_concat(head, tail);
    bits::lemma_msb_value_bits(tail);
    bits::lemma_msb_value_bits(head);
    bits::lemma_msb_value_bits(all);
    bits::lemma_pow2_small();
    let h = bits::msb_value(head);
    let w = width(d);
    assert((h + 1) * w == h * w + w) by (nonlinear_arith);
}

/// A stream that begins with a symbol's code begins with that symbol's code
/// alone.
pub proof fn lemma_code_ahead(lengths: Seq<u8>, s: int, rest: Seq<bool>)
    requires
        has_code(lengths, s),
        reach(lengths, lengths[s] as nat) <= 65536,
    ensures
        code_bits(lengths, s).len() == lengths[s],
        owns(lengths, s, lookahead(code_bits(lengths, s) + rest) as int),
        symbol_at(lengths, lookahead(code_bits(lengths, s) + rest) as int) == s,
{
    let l = lengths[s] as nat;
    let c = code(lengths, s);
    let b = code_bits(lengths, s) + rest;
    bits::lemma_bits_len(c, l);
    lemma_code_fits(lengths, s);
    bits::lemma_msb_bits_value(c, l);
    lemma_small_mod(c, pow2(l));
    lemma_lookahead_prefix(b, l);
    assert(padded(b, l) =~= code_bits(lengths, s));
    let w = width(l);
    assert((c + 1) * w == c * w + w) by (nonlinear_arith);
    lemma_symbol_at(lengths, s, lookahead(b) as int);
}

/// The widths of the ranges of those of the first `k` symbols that have codes
/// of up to `l` bits, added up.
pub open spec fn width_sum(lengths: Seq<u8>, l: nat, k: nat) -> nat
    decreases k,
{
    if k == 0 {
        0
    } else {
        width_sum(lengths, l, (k - 1) as nat) + (if 1 <= lengths[k - 1] <= l {
            width(lengths[k - 1] as nat)
        } else {
            0
        })
    }
}

proof fn lemma_width_sum_step(lengths: Seq<u8>, l: nat, k: nat)
    requires
        1 <= l,
    ensures
        width_sum(lengths, l, k) == width_sum(lengths, (l - 1) as nat, k) + count(lengths, l, k)
            * width(l),
    decreases k,
{
    let w = width(l);
    if k == 0 {
        assert(0 * w == 0);
    } else {
        lemma_width_sum_step(lengths, l, (k - 1) as nat);
        let c = count(lengths, l, (k - 1) as nat);
        assert((c + 1) * w == c * w + w) by (nonlinear_arith);
    }
}

proof fn lemma_width_sum_none(lengths: Seq<u8>, k: nat)
    ensures
        width_sum(lengths, 0, k) == 0,
    decreases k,
{
    if k > 0 {
        lemma_width_sum_none(lengths, (k - 1) as nat);
    }
}

/// The ranges of the codes lie side by side without gaps.
pub proof fn lemma_reach_is_sum(lengths: Seq<u8>, l: nat)
    requires
        l <= 16,
    ensures
        reach(lengths, l) == width_sum(lengths, l, lengths.len()),
    decreases l,
{
    if l == 0 {
        lemma_width_sum_none(lengths, lengths.len());
    } else {
        lemma_reach_is_sum(lengths, (l - 1) as nat);
        lemma_first_code(lengths, l);
        lemma_width_sum_step(lengths, l, lengths.len());
    }
}

/// The symbol comes before the other one: its code is shorter, or as long and its
/// number is lower.
pub open spec fn comes_before(lengths: Seq<u8>, s: int, t: int) -> bool {
    lengths[s] < lengths[t] || (lengths[s] == lengths[t] && s < t)
}

proof fn lemma_count_gap(lengths: Seq<u8>, l: nat, a: nat, b: nat)
    requires
        a <= b <= lengths.len(),
        forall|u: int| a <= u < b ==> #[trigger] lengths[u] != l,
    ensures
        count(lengths, l, a) == count(lengths, l, b),
    decreases b - a,
{
    if a < b {
        lemma_count_gap(lengths, l, a, (b - 1) as nat);
        assert(lengths[b - 1] != l);
    }
}

proof fn lemma_first_code_gap(lengths: Seq<u8>, l: nat, m: nat)
    requires
        1 <= l < m <= 16,
        forall|u: int| 0 <= u < lengths.len() ==> !(l < #[trigger] lengths[u] < m),
    ensures
        first_code(lengths, m) == (first_code(lengths, l) + count(lengths, l, lengths.len()))
            * pow2((m - l) as nat),
    decreases m - l,
{
    let d = (m - l) as nat;
    lemma_pow2_unfold(d);
    let f = first_code(lengths, l) + count(lengths, l, lengths.len());
    if m == l + 1 {
        assert(pow2(d) == 2) by {
            lemma2_to64();
        }
        assert(f * pow2(d) == 2 * f) by (nonlinear_arith)
            requires
                pow2(d) == 2,
        ;
    } else {
        let k = (m - 1) as nat;
        lemma_first_code_gap(lengths, l, k);
        lemma_count_gap(lengths, k, 0, lengths.len());
        let p = pow2((k - l) as nat);
        assert(pow2(d) == 2 * p);
        assert(2 * (f * p) == f * (2 * p)) by (nonlinear_arith);
    }
}

/// The codes of two symbols, none of the others having its place between them:
/// the second code is the one after the first, with zeros up to its own length.
pub proof fn lemma_next_code(lengths: Seq<u8>, s: int, t: int)
    requires
        has_code(lengths, s),
        has_code(lengths, t),
        comes_before(lengths, s, t),
        forall|u: int|
            #![trigger lengths[u]]
            has_code(lengths, u) ==> !(comes_before(lengths, s, u) && comes_before(lengths, u, t)),
    ensures
        code(lengths, t) == (code(lengths, s) + 1) * pow2((lengths[t] - lengths[s]) as nat),
{
    let l = lengths[s] as nat;
    let m = lengths[t] as nat;
    let n = lengths.len();
    assert(count(lengths, l, (s + 1) as nat) == count(lengths, l, s as nat) + 1);
    if l == m {
        assert forall|u: int| s + 1 <= u < t implies #[trigger] lengths[u] != l by {
            if lengths[u] == l {
                assert(has_code(lengths, u));
            }
        }
        lemma_count_gap(lengths, l, (s + 1) as nat, t as nat);
        let p = pow2((m - l) as nat);
        assert(p == 1) by {
            lemma2_to64();
        }
        let c = code(lengths, s) + 1;
        assert(c * p == c) by (nonlinear_arith)
            requires
                p == 1,
        ;
    } else {
        assert forall|u: int| s + 1 <= u < n implies #[trigger] lengths[u] != l by {
            if lengths[u] == l {
                assert(has_code(lengths, u));
            }
        }
        lemma_count_gap(lengths, l, (s + 1) as nat, n);
        assert forall|u: int| 0 <= u < t implies #[trigger] lengths[u] != m by {
            if lengths[u] == m {
                assert(has_code(lengths, u));
            }
        }
        lemma_count_gap(lengths, m, 0, t as nat);
        assert forall|u: int| 0 <= u < n implies !(l < #[trigger] lengths[u] < m) by {
            if l < lengths[u] < m {
                assert(has_code(lengths, u));
            }
        }
        lemma_first_code_gap(lengths, l, m);
        assert(first_code(lengths, l) + count(lengths, l, n) == code(lengths, s) + 1);
    }
}

/// The code of the symbol that comes before all others is all zeros.
pub proof fn lemma_zero_code(lengths: Seq<u8>, s: int)
    requires
        has_code(lengths, s),
        forall|u: int|
            #![trigger lengths[u]]
            has_code(lengths, u) ==> !comes_before(lengths, u, s),
    ensures
        code(lengths, s) == 0,
{
    let l = lengths[s] as nat;
    assert forall|u: int| 0 <= u < lengths.len() implies !(1 <= #[trigger] lengths[u] < l) by {
        if 1 <= lengths[u] < l {
            assert(has_code(lengths, u));
        }
    }
    lemma_first_code_none(lengths, l);
    assert forall|u: int| 0 <= u < s implies #[trigger] lengths[u] != l by {
        if lengths[u] == l {
            assert(has_code(lengths, u));
        }
    }
    lemma_count_gap(lengths, l, 0, s as nat);
}

proof fn lemma_first_code_none(lengths: Seq<u8>, l: nat)
    requires
        1 <= l <= 16,
        forall|u: int| 0 <= u < lengths.len() ==> !(1 <= #[trigger] lengths[u] < l),
    ensures
        first_code(lengths, l) == 0,
    decreases l,
{
    if l > 1 {
        let k = (l - 1) as nat;
        lemma_first_code_none(lengths, k);
        lemma_count_gap(lengths, k, 0, lengths.len());
    }
}

/// Where no symbol has a code, no number begins with one.
pub proof fn lemma_no_codes(lengths: Seq<u8>)
    requires
        forall|u: int| 0 <= u < lengths.len() ==> #[trigger] lengths[u] == 0,
    ensures
        forall|l: nat| 1 <= l <= 16 ==> #[trigger] reach(lengths, l) == 0,
        forall|l: nat| l <= 16 ==> !#[trigger] decodable(lengths, l),
{
    assert forall|l: nat| 1 <= l <= 16 implies #[trigger] reach(lengths, l) == 0 by {
        lemma_first_code_none(lengths, l);
        lemma_count_gap(lengths, l, 0, lengths.len());
        assert(0 * width(l) == 0);
    }
}

/// A code can be decoded where its ranges fill the 16-bit numbers. It cannot where
/// they leave a gap, nor where those that the root holds overlap.
pub proof fn lemma_decodable(lengths: Seq<u8>, table_size: nat)
    requires
        table_size <= 16,
    ensures
        width_sum(lengths, 16, lengths.len()) == 65536 ==> decodable(lengths, table_size),
        width_sum(lengths, 16, lengths.len()) < 65536 ==> !decodable(lengths, table_size),
        width_sum(lengths, table_size, lengths.len()) > 65536 ==> !decodable(lengths, table_size),
        width_sum(lengths, table_size, lengths.len()) == 65536 ==> decodable(lengths, table_size),
{
    lemma_reach_is_sum(lengths, 16);
    lemma_reach_is_sum(lengths, table_size);
    lemma_reach_monotonic(lengths, table_size, 16);
}

} // verus!
