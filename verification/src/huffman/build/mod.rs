//! Code lengths from frequencies, and codes from code lengths.

pub mod optimal;
pub mod package;

use vstd::prelude::*;
use vstd::arithmetic::power2::*;

use crate::bitio::BitWriter;
use crate::bits;
use crate::error::Result;
use crate::huffman::code;

verus! {

/// Reverse the low `n` bits of `value`.
pub fn reverse_bits(value: u32, n: u32) -> (r: u32)
    requires
        n <= 32,
    ensures
        r == bits::reversed(value as nat, n as nat),
        r < pow2(n as nat),
{
    let mut v: u32 = value;
    let mut out: u32 = 0;
    let mut i: u32 = 0;
    proof {
        bits::lemma_pow2_small();
        assert(bits::msb_value(Seq::<bool>::empty()) == 0);
        assert(bits::bits_of(value as nat, 0) =~= Seq::<bool>::empty());
        assert(value as nat / pow2(0) == value);
    }
    while i < n
        invariant
            i <= n <= 32,
            v == value as nat / pow2(i as nat),
            out == bits::reversed(value as nat, i as nat),
            out < pow2(i as nat),
        decreases n - i,
    {
        let bit: u32 = v % 2;
        proof {
            bits::lemma_pow2_small();
            bits::lemma_pow2_le((i + 1) as nat, 32);
            lemma_pow2_unfold((i + 1) as nat);
            let b = bits::bits_of(value as nat, i as nat);
            let last = bits::bits_of(v as nat, 1);
            bits::lemma_bits_split(value as nat, i as nat, 1);
            assert(bits::bits_of(v as nat / 2, 0) =~= Seq::<bool>::empty());
            assert(last =~= seq![v as nat % 2 == 1]);
            let all = bits::bits_of(value as nat, (i + 1) as nat);
            assert(all =~= b.push(v as nat % 2 == 1));
            assert(all.drop_last() =~= b);
            lemma_pow2_pos(i as nat);
            vstd::arithmetic::div_mod::lemma_div_denominator(
                value as int,
                pow2(i as nat) as int,
                2,
            );
            assert(pow2(i as nat) * 2 == pow2((i + 1) as nat));
        }
        out = out * 2 + bit;
        v = v / 2;
        i = i + 1;
    }
    out
}

/// Assign the canonical codes. The first vector holds each symbol's code as a
/// number, the second one the same code with its bits reversed, which is what
/// the bit writer takes. A symbol without a code gets zeros.
pub fn canonical_codes(lengths: &[u8]) -> (r: (Vec<u32>, Vec<u32>))
    requires
        code::reach(lengths@, 16) <= u32::MAX,
    ensures
        r.0@.len() == lengths@.len(),
        r.1@.len() == lengths@.len(),
        forall|s: int|
            0 <= s < lengths@.len() ==> #[trigger] r.0@[s] == (if code::has_code(lengths@, s) {
                code::code(lengths@, s)
            } else {
                0
            }),
        forall|s: int|
            0 <= s < lengths@.len() ==> #[trigger] r.1@[s] == (if code::has_code(lengths@, s) {
                bits::reversed(code::code(lengths@, s), lengths@[s] as nat)
            } else {
                0
            }),
{
    let n = lengths.len();
    let mut codes: Vec<u32> = vec![0u32; n];
    let mut reversed: Vec<u32> = vec![0u32; n];
    let mut next_code: u32 = 0;
    let mut length: u8 = 1;
    while length <= 16
        invariant
            n == lengths@.len(),
            1 <= length <= 17,
            code::reach(lengths@, 16) <= u32::MAX,
            length <= 16 ==> next_code == code::first_code(lengths@, length as nat),
            codes@.len() == n,
            reversed@.len() == n,
            forall|s: int|
                0 <= s < n ==> #[trigger] codes@[s] == (if code::has_code(lengths@, s)
                    && lengths@[s] < length {
                    code::code(lengths@, s)
                } else {
                    0
                }),
            forall|s: int|
                0 <= s < n ==> #[trigger] reversed@[s] == (if code::has_code(lengths@, s)
                    && lengths@[s] < length {
                    bits::reversed(code::code(lengths@, s), lengths@[s] as nat)
                } else {
                    0
                }),
        decreases 17 - length,
    {
        let ghost first = code::first_code(lengths@, length as nat);
        let mut sym: usize = 0;
        proof {
            lemma_last_code(lengths@, length as nat);
        }
        while sym < n
            invariant
                n == lengths@.len(),
                1 <= length <= 16,
                sym <= n,
                first == code::first_code(lengths@, length as nat),
                first + code::count(lengths@, length as nat, n as nat) <= u32::MAX,
                next_code == first + code::count(lengths@, length as nat, sym as nat),
                codes@.len() == n,
                reversed@.len() == n,
                forall|s: int|
                    0 <= s < n ==> #[trigger] codes@[s] == (if code::has_code(lengths@, s) && (
                    lengths@[s] < length || (lengths@[s] == length && s < sym)) {
                        code::code(lengths@, s)
                    } else {
                        0
                    }),
                forall|s: int|
                    0 <= s < n ==> #[trigger] reversed@[s] == (if code::has_code(lengths@, s) && (
                    lengths@[s] < length || (lengths@[s] == length && s < sym)) {
                        bits::reversed(code::code(lengths@, s), lengths@[s] as nat)
                    } else {
                        0
                    }),
            decreases n - sym,
        {
            if lengths[sym] == length {
                codes[sym] = next_code;
                reversed[sym] = reverse_bits(next_code, length as u32);
                proof {
                    code::lemma_count_bounds(
                        lengths@,
                        length as nat,
                        (sym + 1) as nat,
                        n as nat,
                    );
                }
                next_code += 1;
            }
            sym += 1;
        }
        if length < 16 {
            proof {
                lemma_last_code(lengths@, (length + 1) as nat);
            }
            next_code = next_code * 2;
        }
        length += 1;
    }
    (codes, reversed)
}

/// The codes of a length are no larger than the positions that they take.
proof fn lemma_last_code(lengths: Seq<u8>, l: nat)
    requires
        1 <= l <= 16,
    ensures
        code::first_code(lengths, l) + code::count(lengths, l, lengths.len()) <= code::reach(
            lengths,
            16,
        ),
{
    code::lemma_reach_monotonic(lengths, l, 16);
    code::lemma_width(l);
    let e = code::first_code(lengths, l) + code::count(lengths, l, lengths.len());
    let w = code::width(l);
    assert(e <= e * w) by (nonlinear_arith)
        requires
            w >= 1,
            e >= 0,
    ;
}

/// The active symbols by increasing frequency.
fn rank_symbols(freqs: &[u32]) -> (ranked: Vec<usize>)
    ensures
        ranked@ == package::ranking(freqs@, freqs@.len()),
{
    let mut ranked: Vec<usize> = Vec::new();
    let mut s: usize = 0;
    assert(ranked@ =~= package::ranking(freqs@, 0));
    while s < freqs.len()
        invariant
            s <= freqs@.len(),
            ranked@ == package::ranking(freqs@, s as nat),
        decreases freqs@.len() - s,
    {
        let f: u32 = freqs[s];
        if f > 0 {
            let mut at: usize = ranked.len();
            proof {
                package::lemma_ranking(freqs@, s as nat);
                assert(ranked@.take(at as int) =~= ranked@);
            }
            while at > 0 && freqs[ranked[at - 1]] > f
                invariant
                    at <= ranked@.len(),
                    s < freqs@.len(),
                    forall|r: int| 0 <= r < ranked@.len() ==> #[trigger] ranked@[r] < freqs@.len(),
                    package::place(freqs@, ranked@, f) == package::place(
                        freqs@,
                        ranked@.take(at as int),
                        f,
                    ),
                decreases at,
            {
                assert(ranked@.take(at as int).drop_last() =~= ranked@.take(at - 1));
                at -= 1;
            }
            ranked.insert(at, s);
        }
        s += 1;
    }
    ranked
}

/// The coins of a level, apart: their weights, and which are packages.
spec fn coins_are(coins: Seq<package::Coin>, weights: Seq<u64>, flags: Seq<bool>) -> bool {
    &&& coins.len() == weights.len() == flags.len()
    &&& forall|i: int|
        0 <= i < coins.len() ==> (#[trigger] coins[i]).weight == weights[i] && coins[i].package
            == flags[i]
}

/// Numbers that a vector holds.
spec fn numbers(v: Seq<u64>) -> Seq<nat> {
    Seq::new(v.len(), |i: int| v[i] as nat)
}

/// Merge the packages `a` with the coins `b`.
fn merge_sorted(a: &Vec<u64>, b: &Vec<u64>) -> (r: (Vec<u64>, Vec<bool>))
    ensures
        coins_are(package::merged(numbers(a@), numbers(b@), 0, 0), r.0@, r.1@),
{
    let mut weights: Vec<u64> = Vec::new();
    let mut flags: Vec<bool> = Vec::new();
    let mut i: usize = 0;
    let mut j: usize = 0;
    let ghost x = numbers(a@);
    let ghost y = numbers(b@);
    let ghost all = package::merged(x, y, 0, 0);
    let ghost mut done: Seq<package::Coin> = Seq::empty();
    assert(done + package::merged(x, y, 0, 0) =~= all);
    while i < a.len() || j < b.len()
        invariant
            i <= a@.len(),
            j <= b@.len(),
            x == numbers(a@),
            y == numbers(b@),
            all == package::merged(x, y, 0, 0),
            all == done + package::merged(x, y, i as nat, j as nat),
            coins_are(done, weights@, flags@),
        decreases (a@.len() - i) + (b@.len() - j),
    {
        let ghost rest = package::merged(x, y, i as nat, j as nat);
        if i < a.len() && (j >= b.len() || a[i] <= b[j]) {
            weights.push(a[i]);
            flags.push(true);
            i += 1;
        } else {
            weights.push(b[j]);
            flags.push(false);
            j += 1;
        }
        proof {
            let coin = rest[0];
            let next = package::merged(x, y, i as nat, j as nat);
            assert(rest =~= seq![coin] + next);
            assert(done + rest =~= done.push(coin) + next);
            done = done.push(coin);
        }
    }
    assert(all =~= done);
    (weights, flags)
}

/// Pair the coins of a level off.
fn pair_off(weights: &Vec<u64>, Ghost(coins): Ghost<Seq<package::Coin>>) -> (r: Vec<u64>)
    requires
        coins.len() == weights@.len(),
        forall|i: int|
            0 <= i < coins.len() ==> (#[trigger] coins[i]).weight == weights@[i] <= u64::MAX / 2,
    ensures
        numbers(r@) == package::pairs(coins),
{
    let mut out: Vec<u64> = Vec::new();
    while out.len() < weights.len() / 2
        invariant
            coins.len() == weights@.len(),
            forall|i: int|
                0 <= i < coins.len() ==> (#[trigger] coins[i]).weight == weights@[i] <= u64::MAX
                    / 2,
            out@.len() <= weights@.len() / 2,
            forall|i: int|
                0 <= i < out@.len() ==> #[trigger] out@[i] == package::pairs(coins)[i],
        decreases weights@.len() / 2 - out@.len(),
    {
        let i: usize = 2 * out.len();
        assert(coins[i as int].weight + coins[i + 1].weight == package::pairs(
            coins,
        )[out@.len() as int]);
        out.push(weights[i] + weights[i + 1]);
    }
    assert(numbers(out@) =~= package::pairs(coins));
    out
}

/// Which coins of a level are packages.
spec fn flags_are(coins: Seq<package::Coin>, flags: Seq<bool>) -> bool {
    &&& coins.len() == flags.len()
    &&& forall|i: int| 0 <= i < coins.len() ==> (#[trigger] coins[i]).package == flags[i]
}

/// Build the levels, and keep of each which coins are packages.
fn build_levels(weights: &Vec<u64>, count: usize) -> (levels: Vec<Vec<bool>>)
    requires
        package::rising(numbers(weights@)),
        1 <= count <= 16,
        forall|i: int| 0 <= i < weights@.len() ==> #[trigger] weights@[i] <= u32::MAX,
    ensures
        levels@.len() == count,
        forall|k: int|
            0 <= k < count ==> flags_are(
                package::level(numbers(weights@), k as nat),
                (#[trigger] levels@[k])@,
            ),
{
    let ghost w = numbers(weights@);
    let mut levels: Vec<Vec<bool>> = Vec::new();
    let none: Vec<u64> = Vec::new();
    let (mut coins, first) = merge_sorted(&none, weights);
    levels.push(first);
    assert(numbers(none@) =~= Seq::<nat>::empty());
    while levels.len() < count
        invariant
            w == numbers(weights@),
            package::rising(w),
            1 <= levels@.len() <= count <= 16,
            forall|i: int| 0 <= i < weights@.len() ==> #[trigger] weights@[i] <= u32::MAX,
            forall|k: int|
                0 <= k < levels@.len() ==> flags_are(
                    package::level(w, k as nat),
                    (#[trigger] levels@[k])@,
                ),
            coins_are(
                package::level(w, (levels@.len() - 1) as nat),
                coins@,
                levels@[levels@.len() - 1]@,
            ),
        decreases count - levels@.len(),
    {
        let ghost k = (levels@.len() - 1) as nat;
        let ghost c = package::level(w, k);
        proof {
            assert forall|i: int| 0 <= i < c.len() implies (#[trigger] c[i]).weight == coins@[i]
                <= u64::MAX / 2 by {
                package::lemma_coin_weight(w, k, i, u32::MAX as nat);
                bits::lemma_pow2_small();
                bits::lemma_pow2_le(k, 15);
                let p = pow2(k);
                assert(u32::MAX * p <= u32::MAX * 32768) by (nonlinear_arith)
                    requires
                        p <= 32768,
                ;
            }
        }
        let packages = pair_off(&coins, Ghost(c));
        let (next, flags) = merge_sorted(&packages, weights);
        coins = next;
        levels.push(flags);
    }
    levels
}

/// How many of the first `t` are packages.
fn count_packages(flags: &Vec<bool>, t: usize, Ghost(coins): Ghost<Seq<package::Coin>>) -> (p:
    usize)
    requires
        flags_are(coins, flags@),
        t <= flags@.len(),
    ensures
        p == package::packages(coins, t as nat),
        p <= t,
{
    let mut p: usize = 0;
    let mut i: usize = 0;
    while i < t
        invariant
            flags_are(coins, flags@),
            i <= t <= flags@.len(),
            p == package::packages(coins, i as nat),
            p <= i,
        decreases t - i,
    {
        if flags[i] {
            p += 1;
        }
        assert(coins[i as int].package == flags@[i as int]);
        i += 1;
    }
    p
}

/// Code lengths for the symbols' frequencies, none longer than `max_len`, by
/// the package-merge method. A symbol of frequency zero has no code, but for a
/// second symbol beside a single active one.
pub fn build_lengths(freqs: &[u32], max_len: u8) -> (lengths: Vec<u8>)
    requires
        1 <= max_len <= 16,
        package::ranking(freqs@, freqs@.len()).len() <= pow2(max_len as nat),
    ensures
        lengths@.len() == freqs@.len(),
        forall|s: int|
            0 <= s < freqs@.len() ==> #[trigger] lengths@[s] == package::code_length(
                freqs@,
                max_len as nat,
                s,
            ),
{
    let n = freqs.len();
    let mut lengths: Vec<u8> = vec![0u8; n];
    let ranked = rank_symbols(freqs);
    let m = ranked.len();
    proof {
        package::lemma_ranking(freqs@, n as nat);
        package::lemma_weights(freqs@);
    }
    if m == 0 {
        proof {
            assert forall|s: int| 0 <= s < n implies #[trigger] freqs@[s] == 0 by {
                if freqs@[s] > 0 {
                    assert(ranked@.contains(s as usize));
                }
            }
        }
        return lengths;
    }
    if m == 1 {
        let only: usize = ranked[0];
        lengths[only] = 1;
        let second: usize = if only == 0 {
            1
        } else {
            0
        };
        if second < n {
            lengths[second] = 1;
        }
        return lengths;
    }
    let ghost w = package::weights(freqs@);
    let ghost top = (max_len - 1) as nat;
    let ghost l = max_len as nat;
    let mut weights: Vec<u64> = Vec::new();
    while weights.len() < m
        invariant
            ranked@ == package::ranking(freqs@, freqs@.len()),
            forall|r: int| 0 <= r < m ==> #[trigger] ranked@[r] < freqs@.len(),
            weights@.len() <= m == ranked@.len(),
            forall|r: int|
                0 <= r < weights@.len() ==> #[trigger] weights@[r] == freqs@[ranked@[r] as int],
        decreases m - weights@.len(),
    {
        let r: usize = weights.len();
        weights.push(freqs[ranked[r]] as u64);
    }
    assert(numbers(weights@) =~= w);
    let levels = build_levels(&weights, max_len as usize);
    proof {
        bits::lemma_pow2_small();
        bits::lemma_pow2_le(l, 16);
    }
    let mut t: usize = 2 * m - 2;
    let mut k: usize = max_len as usize;
    while k > 0
        invariant
            k <= max_len <= 16,
            l == max_len,
            top == l - 1,
            n == freqs@.len() == lengths@.len(),
            ranked@ == package::ranking(freqs@, n as nat),
            m == ranked@.len() == w.len(),
            2 <= m <= pow2(l),
            ranked@.no_duplicates(),
            forall|r: int| 0 <= r < m ==> #[trigger] ranked@[r] < n && freqs@[ranked@[r] as int] > 0,
            package::rising(w),
            levels@.len() == max_len,
            forall|i: int|
                0 <= i < max_len ==> flags_are(
                    package::level(w, i as nat),
                    (#[trigger] levels@[i])@,
                ),
            k > 0 ==> t == package::taken(w, top, (k - 1) as nat),
            forall|r: int|
                0 <= r < m ==> lengths@[#[trigger] ranked@[r] as int] + package::coins_of(
                    w,
                    top,
                    r,
                    k as nat,
                ) == package::coins_of(w, top, r, l),
            forall|r: int| 0 <= r < m ==> lengths@[#[trigger] ranked@[r] as int] <= max_len - k,
            forall|s: int| 0 <= s < n && freqs@[s] == 0 ==> #[trigger] lengths@[s] == 0,
        decreases k,
    {
        k -= 1;
        proof {
            package::lemma_taken(w, top, k as nat);
        }
        let p = count_packages(&levels[k], t, Ghost(package::level(w, k as nat)));
        let o: usize = t - p;
        let ghost before = lengths@;
        let mut r: usize = 0;
        while r < o
            invariant
                r <= o <= m,
                n == freqs@.len() == lengths@.len() == before.len(),
                m == ranked@.len() == w.len(),
                ranked@.no_duplicates(),
                forall|x: int|
                    0 <= x < m ==> #[trigger] ranked@[x] < n && freqs@[ranked@[x] as int] > 0,
                forall|x: int|
                    0 <= x < m ==> lengths@[#[trigger] ranked@[x] as int]
                        == before[ranked@[x] as int] + (if x < r {
                        1int
                    } else {
                        0
                    }),
                forall|x: int| 0 <= x < m ==> before[#[trigger] ranked@[x] as int] < 16,
                forall|s: int| 0 <= s < n && freqs@[s] == 0 ==> #[trigger] lengths@[s] == 0,
            decreases o - r,
        {
            let s: usize = ranked[r];
            lengths[s] = lengths[s] + 1;
            r += 1;
        }
        proof {
            if k > 0 {
                package::lemma_taken(w, top, (k - 1) as nat);
                assert(flags_are(package::level(w, (k - 1) as nat), levels@[k - 1]@));
                assert(levels@[k - 1].len() <= usize::MAX);
                assert(package::taken(w, top, (k - 1) as nat) == 2 * p);
            }
        }
        t = 2 * p;
    }
    proof {
        assert forall|s: int| 0 <= s < n implies #[trigger] lengths@[s] == package::code_length(
            freqs@,
            l,
            s,
        ) by {
            if freqs@[s] > 0 {
                assert(ranked@.contains(s as usize));
                let r = ranked@.index_of(s as usize);
                assert(ranked@[r] == s);
            }
        }
    }
    lengths
}

/// Write the code of a symbol, where `reversed` holds the reversed codes of the
/// code with these lengths.
pub(crate) fn write_code(
    writer: &mut BitWriter,
    lengths: &[u8],
    reversed: &Vec<u32>,
    s: usize,
) -> (r: Result<()>)
    requires
        old(writer).wf(),
        s < reversed@.len(),
        code::has_code(lengths@, s as int),
        reversed@[s as int] == bits::reversed(
            code::code(lengths@, s as int),
            lengths@[s as int] as nat,
        ),
    ensures
        r is Ok,
        final(writer).wf(),
        final(writer).prefix() == old(writer).prefix(),
        final(writer).bits() == old(writer).bits() + code::code_bits(lengths@, s as int),
{
    proof {
        bits::lemma_reversed_bits(code::code(lengths@, s as int), lengths@[s as int] as nat);
    }
    writer.write_bits(reversed[s], lengths[s] as u32)
}

} // verus!
