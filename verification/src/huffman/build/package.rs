//! The mathematical model of the package-merge method.
//!
//! Every active symbol has one coin at each level, whose weight is the
//! symbol's frequency. The coins of a level, paired off in order of weight,
//! are the packages of the next level, where they join that level's own
//! coins. From the last level the lightest coins are taken, two fewer than
//! twice the symbols, and with a package the pair that it is made of. A
//! symbol's code length is the number of its coins that are taken.

use vstd::prelude::*;
use vstd::arithmetic::power2::*;

use crate::bits;
use crate::huffman::code;

verus! {

/// A coin of a level, or a package of two coins of the level before.
#[verifier::ext_equal]
pub struct Coin {
    pub weight: nat,
    pub package: bool,
}

/// Where a symbol of frequency `f` joins ranked ones: behind the last one that
/// is no heavier.
pub open spec fn place(freqs: Seq<u32>, ranked: Seq<usize>, f: u32) -> nat
    decreases ranked.len(),
{
    if ranked.len() == 0 || freqs[ranked.last() as int] <= f {
        ranked.len()
    } else {
        place(freqs, ranked.drop_last(), f)
    }
}

/// The active ones of the first `k` symbols by increasing frequency. Symbols of
/// one frequency keep their order.
pub open spec fn ranking(freqs: Seq<u32>, k: nat) -> Seq<usize>
    decreases k,
{
    if k == 0 {
        Seq::empty()
    } else {
        let before = ranking(freqs, (k - 1) as nat);
        let f = freqs[k - 1];
        if f == 0 {
            before
        } else {
            before.insert(place(freqs, before, f) as int, (k - 1) as usize)
        }
    }
}

/// The weights of the symbols' coins, lightest first.
pub open spec fn weights(freqs: Seq<u32>) -> Seq<nat> {
    let ranked = ranking(freqs, freqs.len());
    Seq::new(ranked.len(), |r: int| freqs[ranked[r] as int] as nat)
}

/// The weights of the packages made of a level's coins.
pub open spec fn pairs(coins: Seq<Coin>) -> Seq<nat> {
    Seq::new(coins.len() / 2, |i: int| coins[2 * i].weight + coins[2 * i + 1].weight)
}

/// Packages from `i` on and coins from `j` on in order of weight, packages
/// first where the weights are equal.
pub open spec fn merged(a: Seq<nat>, b: Seq<nat>, i: nat, j: nat) -> Seq<Coin>
    decreases (a.len() - i) + (b.len() - j),
{
    if i < a.len() && j <= b.len() && (j == b.len() || a[i as int] <= b[j as int]) {
        seq![Coin { weight: a[i as int], package: true }] + merged(a, b, i + 1, j)
    } else if i <= a.len() && j < b.len() {
        seq![Coin { weight: b[j as int], package: false }] + merged(a, b, i, j + 1)
    } else {
        Seq::empty()
    }
}

/// The coins and packages of a level, lightest first.
pub open spec fn level(w: Seq<nat>, k: nat) -> Seq<Coin>
    decreases k,
{
    if k == 0 {
        merged(Seq::empty(), w, 0, 0)
    } else {
        merged(pairs(level(w, (k - 1) as nat)), w, 0, 0)
    }
}

/// How many of the first `t` are packages.
pub open spec fn packages(coins: Seq<Coin>, t: nat) -> nat
    decreases t,
{
    if t == 0 {
        0
    } else {
        packages(coins, (t - 1) as nat) + (if coins[t - 1].package {
            1nat
        } else {
            0nat
        })
    }
}

/// How many coins and packages of level `k` are taken, where `top` is the last
/// level.
pub open spec fn taken(w: Seq<nat>, top: nat, k: nat) -> nat
    decreases top - k,
{
    if k >= top {
        (2 * w.len() - 2) as nat
    } else {
        2 * packages(level(w, k + 1), taken(w, top, k + 1))
    }
}

/// How many of the symbols' own coins of level `k` are taken.
pub open spec fn own(w: Seq<nat>, top: nat, k: nat) -> int {
    taken(w, top, k) - packages(level(w, k), taken(w, top, k))
}

/// How many coins of the symbol of rank `r` are taken from the first `k`
/// levels.
pub open spec fn coins_of(w: Seq<nat>, top: nat, r: int, k: nat) -> nat
    decreases k,
{
    if k == 0 {
        0
    } else {
        coins_of(w, top, r, (k - 1) as nat) + (if r < own(w, top, (k - 1) as nat) {
            1nat
        } else {
            0nat
        })
    }
}

/// The code length of a symbol. A single active symbol shares a code of one
/// bit with a second symbol, so that the code is complete.
pub open spec fn code_length(freqs: Seq<u32>, max_len: nat, s: int) -> nat {
    let ranked = ranking(freqs, freqs.len());
    if ranked.len() == 1 {
        let only = ranked[0] as int;
        let second: int = if only == 0 {
            1
        } else {
            0
        };
        if s == only || s == second {
            1
        } else {
            0
        }
    } else if freqs[s] == 0 {
        0
    } else {
        coins_of(weights(freqs), (max_len - 1) as nat, ranked.index_of(s as usize), max_len)
    }
}

/// The code lengths of all symbols.
pub open spec fn code_lengths(freqs: Seq<u32>, max_len: nat) -> Seq<u8> {
    Seq::new(freqs.len(), |s: int| code_length(freqs, max_len, s) as u8)
}

/// The weights increase, and none is zero.
pub open spec fn rising(w: Seq<nat>) -> bool {
    &&& forall|i: int, j: int| 0 <= i <= j < w.len() ==> w[i] <= w[j]
    &&& forall|i: int| 0 <= i < w.len() ==> 0 < #[trigger] w[i]
}

pub proof fn lemma_place(freqs: Seq<u32>, ranked: Seq<usize>, f: u32)
    ensures
        place(freqs, ranked, f) <= ranked.len(),
        forall|i: int|
            place(freqs, ranked, f) <= i < ranked.len() ==> f < freqs[#[trigger] ranked[i] as int],
        place(freqs, ranked, f) > 0 ==> freqs[ranked[place(freqs, ranked, f) - 1] as int] <= f,
    decreases ranked.len(),
{
    if ranked.len() > 0 && freqs[ranked.last() as int] > f {
        let r = ranked.drop_last();
        lemma_place(freqs, r, f);
        let p = place(freqs, ranked, f) as int;
        assert forall|i: int| p <= i < ranked.len() implies f < freqs[#[trigger] ranked[i] as int] by {
            if i < r.len() {
                assert(r[i] == ranked[i]);
            }
        }
        if p > 0 {
            assert(r[p - 1] == ranked[p - 1]);
        }
    }
}

/// The ranking lists each active symbol once, by increasing frequency.
pub proof fn lemma_ranking(freqs: Seq<u32>, k: nat)
    requires
        k <= freqs.len() <= usize::MAX,
    ensures
        ranking(freqs, k).len() <= k,
        ranking(freqs, k).no_duplicates(),
        forall|r: int|
            0 <= r < ranking(freqs, k).len() ==> {
                let s = #[trigger] ranking(freqs, k)[r];
                s < k && freqs[s as int] > 0
            },
        forall|s: int|
            0 <= s < k && freqs[s] > 0 ==> #[trigger] ranking(freqs, k).contains(s as usize),
        forall|i: int, j: int|
            0 <= i <= j < ranking(freqs, k).len() ==> freqs[#[trigger] ranking(freqs, k)[i] as int]
                <= freqs[#[trigger] ranking(freqs, k)[j] as int],
    decreases k,
{
    if k > 0 {
        let before = ranking(freqs, (k - 1) as nat);
        let f = freqs[k - 1];
        lemma_ranking(freqs, (k - 1) as nat);
        if f > 0 {
            let p = place(freqs, before, f) as int;
            lemma_place(freqs, before, f);
            let after = ranking(freqs, k);
            assert(after =~= before.insert(p, (k - 1) as usize));
            assert forall|i: int| 0 <= i < after.len() implies #[trigger] after[i] == (if i < p {
                before[i]
            } else if i == p {
                (k - 1) as usize
            } else {
                before[i - 1]
            }) by {}
            assert forall|s: int| 0 <= s < k && freqs[s] > 0 implies #[trigger] after.contains(
                s as usize,
            ) by {
                if s == k - 1 {
                    assert(after[p] == s as usize);
                } else {
                    assert(before.contains(s as usize));
                    let i = before.index_of(s as usize);
                    if i < p {
                        assert(after[i] == s as usize);
                    } else {
                        assert(after[i + 1] == s as usize);
                    }
                }
            }
        }
    }
}

pub proof fn lemma_weights(freqs: Seq<u32>)
    requires
        freqs.len() <= usize::MAX,
    ensures
        rising(weights(freqs)),
        weights(freqs).len() == ranking(freqs, freqs.len()).len(),
{
    lemma_ranking(freqs, freqs.len());
}

proof fn lemma_packages_front(head: Coin, rest: Seq<Coin>, t: nat)
    requires
        0 < t <= rest.len() + 1,
    ensures
        packages(seq![head] + rest, t) == packages(rest, (t - 1) as nat) + (if head.package {
            1nat
        } else {
            0nat
        }),
    decreases t,
{
    let all = seq![head] + rest;
    if t == 1 {
        assert(packages(all, 0) == 0);
        assert(packages(rest, 0) == 0);
    } else {
        lemma_packages_front(head, rest, (t - 1) as nat);
        assert(all[t - 1] == rest[t - 2]);
    }
}

/// What the first `t` of a merged sequence are, and what comes behind them.
pub proof fn lemma_merged(a: Seq<nat>, b: Seq<nat>, i: nat, j: nat, t: nat)
    requires
        rising(b),
        i <= a.len(),
        j <= b.len(),
        t <= a.len() - i + b.len() - j,
    ensures
        merged(a, b, i, j).len() == a.len() - i + b.len() - j,
        ({
            let c = merged(a, b, i, j);
            let p = packages(c, t);
            let o = t - p;
            &&& i + p <= a.len()
            &&& 0 <= o
            &&& j + o <= b.len()
            &&& j + o < b.len() ==> forall|x: int| i <= x < i + p ==> #[trigger] a[x] <= b[j + o]
            &&& t < c.len() ==> (if c[t as int].package {
                i + p < a.len() && c[t as int].weight == a[(i + p) as int]
            } else {
                j + o < b.len() && c[t as int].weight == b[j + o]
            })
        }),
    decreases (a.len() - i) + (b.len() - j),
{
    let c = merged(a, b, i, j);
    if i < a.len() && (j == b.len() || a[i as int] <= b[j as int]) {
        let head = Coin { weight: a[i as int], package: true };
        let rest = merged(a, b, i + 1, j);
        assert(c == seq![head] + rest);
        if t == 0 {
            lemma_merged(a, b, i + 1, j, 0);
            assert(c[0] == head);
        } else {
            lemma_merged(a, b, i + 1, j, (t - 1) as nat);
            lemma_packages_front(head, rest, t);
            if t < c.len() {
                assert(c[t as int] == rest[t - 1]);
            }
            let p = packages(c, t);
            let o = t - p;
            if j + o < b.len() {
                assert(b[j as int] <= b[j + o]);
            }
        }
    } else if j < b.len() {
        let head = Coin { weight: b[j as int], package: false };
        let rest = merged(a, b, i, j + 1);
        assert(c == seq![head] + rest);
        if t == 0 {
            lemma_merged(a, b, i, j + 1, 0);
            assert(c[0] == head);
        } else {
            lemma_merged(a, b, i, j + 1, (t - 1) as nat);
            lemma_packages_front(head, rest, t);
            if t < c.len() {
                assert(c[t as int] == rest[t - 1]);
            }
        }
    } else {
        assert(c =~= Seq::<Coin>::empty());
        assert(t == 0);
    }
}

/// The packages that level `k` is made with.
pub open spec fn lower(w: Seq<nat>, k: nat) -> Seq<nat> {
    if k == 0 {
        Seq::empty()
    } else {
        pairs(level(w, (k - 1) as nat))
    }
}

pub proof fn lemma_level(w: Seq<nat>, k: nat, t: nat)
    requires
        rising(w),
        t <= lower(w, k).len() + w.len(),
    ensures
        level(w, k) == merged(lower(w, k), w, 0, 0),
        level(w, k).len() == lower(w, k).len() + w.len(),
        ({
            let c = level(w, k);
            let a = lower(w, k);
            let p = packages(c, t);
            let o = t - p;
            &&& p <= a.len()
            &&& 0 <= o <= w.len()
            &&& o < w.len() ==> forall|x: int| 0 <= x < p ==> #[trigger] a[x] <= w[o]
            &&& t < c.len() ==> (if c[t as int].package {
                p < a.len() && c[t as int].weight == a[p as int]
            } else {
                o < w.len() && c[t as int].weight == w[o]
            })
        }),
{
    lemma_merged(lower(w, k), w, 0, 0, t);
}

/// No coin is without weight, and a package of level `k` weighs no more than
/// its coins could.
pub proof fn lemma_coin_weight(w: Seq<nat>, k: nat, q: int, cap: nat)
    requires
        rising(w),
        0 <= q < level(w, k).len(),
        forall|i: int| 0 <= i < w.len() ==> #[trigger] w[i] <= cap,
    ensures
        0 < level(w, k)[q].weight <= cap * pow2(k),
    decreases k,
{
    lemma_level(w, k, 0);
    lemma_level(w, k, q as nat);
    lemma_pow2_pos(k);
    let p = pow2(k);
    assert(cap <= cap * p) by (nonlinear_arith)
        requires
            p >= 1,
            cap >= 0,
    ;
    let c = level(w, k);
    if c[q].package {
        let i = packages(c, q as nat) as int;
        let m = (k - 1) as nat;
        lemma_level(w, m, 0);
        lemma_coin_weight(w, m, 2 * i, cap);
        lemma_coin_weight(w, m, 2 * i + 1, cap);
        lemma_pow2_unfold(k);
        let h = pow2(m);
        assert(2 * (cap * h) == cap * (2 * h)) by (nonlinear_arith);
    }
}

/// How far a level falls short of twice the number of symbols.
spec fn shortfall(m: nat, k: nat) -> nat
    decreases k,
{
    if k == 0 {
        m
    } else {
        (shortfall(m, (k - 1) as nat) + 1) / 2
    }
}

proof fn lemma_shortfall(w: Seq<nat>, k: nat)
    requires
        rising(w),
        w.len() > 0,
    ensures
        level(w, k).len() == 2 * w.len() - shortfall(w.len(), k),
        1 <= shortfall(w.len(), k) <= w.len(),
    decreases k,
{
    lemma_level(w, k, 0);
    if k > 0 {
        lemma_shortfall(w, (k - 1) as nat);
    }
}

proof fn lemma_shortfall_halves(m: nat, k: nat, l: nat)
    requires
        m <= 2 * pow2(l),
        k <= l,
    ensures
        shortfall(m, k) <= 2 * pow2((l - k) as nat),
    decreases k,
{
    if k > 0 {
        lemma_shortfall_halves(m, (k - 1) as nat, l);
        lemma_pow2_unfold((l - k + 1) as nat);
    }
}

/// The last level holds as many coins as are taken from it.
pub proof fn lemma_enough(w: Seq<nat>, top: nat)
    requires
        rising(w),
        2 <= w.len() <= pow2(top + 1),
    ensures
        2 * w.len() - 2 <= level(w, top).len(),
{
    lemma_shortfall(w, top);
    lemma_pow2_unfold(top + 1);
    lemma_shortfall_halves(w.len(), top, top);
    bits::lemma_pow2_small();
}

pub proof fn lemma_taken(w: Seq<nat>, top: nat, k: nat)
    requires
        rising(w),
        2 <= w.len() <= pow2(top + 1),
        k <= top,
    ensures
        taken(w, top, k) <= level(w, k).len(),
        0 <= own(w, top, k) <= w.len(),
        packages(level(w, k), taken(w, top, k)) <= lower(w, k).len(),
    decreases top - k,
{
    lemma_level(w, k, 0);
    if k == top {
        lemma_enough(w, top);
    } else {
        lemma_taken(w, top, k + 1);
    }
    lemma_level(w, k, taken(w, top, k));
}

/// Among the first `t` there is the own coin of rank `o`, where they hold more
/// than `o` own coins.
proof fn lemma_find_own(coins: Seq<Coin>, t: nat, o: int) -> (q: nat)
    requires
        0 <= o < t - packages(coins, t),
    ensures
        q < t,
        q - packages(coins, q) == o,
        !coins[q as int].package,
    decreases t,
{
    let u = (t - 1) as nat;
    if o < u - packages(coins, u) {
        lemma_find_own(coins, u, o)
    } else {
        u
    }
}

/// A level gives no more of the symbols' own coins than the next one.
pub proof fn lemma_nested(w: Seq<nat>, top: nat, k: nat)
    requires
        rising(w),
        2 <= w.len() <= pow2(top + 1),
        k < top,
    ensures
        own(w, top, k) <= own(w, top, k + 1),
{
    let o = own(w, top, k + 1);
    lemma_taken(w, top, k);
    lemma_taken(w, top, k + 1);
    if own(w, top, k) > o {
        let c = level(w, k);
        let t = taken(w, top, k);
        let q = lemma_find_own(c, t, o);
        lemma_level(w, k, q);
        lemma_level(w, k + 1, taken(w, top, k + 1));
        let cap = w[w.len() - 1];
        assert forall|i: int| 0 <= i < w.len() implies #[trigger] w[i] <= cap by {}
        let i = q as int / 2;
        lemma_coin_weight(w, k, 2 * i, cap);
        lemma_coin_weight(w, k, 2 * i + 1, cap);
        assert(lower(w, k + 1)[i] == c[2 * i].weight + c[2 * i + 1].weight);
        assert(q == 2 * i || q == 2 * i + 1);
    }
}

/// The value of the coins of rank `r` that are taken from the first `k` levels,
/// where a coin of a level is worth twice one of the level before.
spec fn value_of(w: Seq<nat>, top: nat, r: int, k: nat) -> nat
    decreases k,
{
    if k == 0 {
        0
    } else {
        value_of(w, top, r, (k - 1) as nat) + (if r < own(w, top, (k - 1) as nat) {
            pow2((k - 1) as nat)
        } else {
            0
        })
    }
}

/// The coins of one rank come from the last levels.
proof fn lemma_value_of(w: Seq<nat>, top: nat, r: int, k: nat)
    requires
        rising(w),
        2 <= w.len() <= pow2(top + 1),
        k <= top + 1,
        0 <= r,
    ensures
        coins_of(w, top, r, k) <= k,
        value_of(w, top, r, k) == pow2(k) - pow2((k - coins_of(w, top, r, k)) as nat),
        k > 0 && r >= own(w, top, (k - 1) as nat) ==> coins_of(w, top, r, k) == 0,
    decreases k,
{
    if k > 0 {
        let m = (k - 1) as nat;
        lemma_value_of(w, top, r, m);
        lemma_pow2_unfold(k);
        if r >= own(w, top, m) && m > 0 {
            lemma_nested(w, top, (m - 1) as nat);
        }
    }
}

/// The value of all coins of the first `m` ranks that are taken from the first
/// `k` levels.
spec fn value_sum(w: Seq<nat>, top: nat, m: nat, k: nat) -> nat
    decreases m,
{
    if m == 0 {
        0
    } else {
        value_sum(w, top, (m - 1) as nat, k) + value_of(w, top, m - 1, k)
    }
}

proof fn lemma_value_sum_level(w: Seq<nat>, top: nat, m: nat, k: nat)
    ensures
        value_sum(w, top, m, k + 1) == value_sum(w, top, m, k) + (if 0 <= own(w, top, k) <= m {
            own(w, top, k)
        } else if own(w, top, k) < 0 {
            0
        } else {
            m as int
        }) * pow2(k),
    decreases m,
{
    let p = pow2(k);
    let o = own(w, top, k);
    if m == 0 {
        assert(0 * p == 0);
    } else {
        lemma_value_sum_level(w, top, (m - 1) as nat, k);
        let x = m - 1;
        assert((x + 1) * p == x * p + p) by (nonlinear_arith);
    }
}

/// What the first `k` levels give is worth what they owe the packages taken
/// from level `k`.
proof fn lemma_value_total(w: Seq<nat>, top: nat, k: nat)
    requires
        rising(w),
        2 <= w.len() <= pow2(top + 1),
        k <= top + 1,
    ensures
        value_sum(w, top, w.len(), k) == (if k <= top {
            packages(level(w, k), taken(w, top, k)) as int * pow2(k)
        } else {
            (w.len() - 1) * pow2(k)
        }),
    decreases k,
{
    if k == 0 {
        lemma_value_none(w, top, w.len());
        lemma_taken(w, top, 0);
        assert(0 * pow2(0) == 0);
    } else {
        let m = (k - 1) as nat;
        lemma_value_total(w, top, m);
        lemma_value_sum_level(w, top, w.len(), m);
        lemma_taken(w, top, m);
        lemma_pow2_unfold(k);
        let q = packages(level(w, m), taken(w, top, m)) as int;
        let o = own(w, top, m);
        let p = pow2(m) as int;
        assert(q * p + o * p == (q + o) * p) by (nonlinear_arith);
        assert(q + o == taken(w, top, m));
        let half: int = if k <= top {
            packages(level(w, k), taken(w, top, k)) as int
        } else {
            w.len() - 1
        };
        assert(taken(w, top, m) == 2 * half);
        assert((2 * half) * p == half * (2 * p)) by (nonlinear_arith);
    }
}

proof fn lemma_value_none(w: Seq<nat>, top: nat, m: nat)
    ensures
        value_sum(w, top, m, 0) == 0,
    decreases m,
{
    if m > 0 {
        lemma_value_none(w, top, (m - 1) as nat);
    }
}

/// The sum of `2^(l - code length)` over the first `m` ranks.
spec fn share_sum(w: Seq<nat>, l: nat, m: nat) -> nat
    decreases m,
{
    if m == 0 {
        0
    } else {
        share_sum(w, l, (m - 1) as nat) + pow2(
            (l - coins_of(w, (l - 1) as nat, m - 1, l)) as nat,
        )
    }
}

proof fn lemma_share_sum(w: Seq<nat>, l: nat, m: nat)
    requires
        rising(w),
        l >= 1,
        2 <= w.len() <= pow2(l),
    ensures
        value_sum(w, (l - 1) as nat, m, l) + share_sum(w, l, m) == m * pow2(l),
        share_sum(w, l, m) >= m,
    decreases m,
{
    let p = pow2(l);
    if m == 0 {
        assert(0 * p == 0);
    } else {
        lemma_share_sum(w, l, (m - 1) as nat);
        lemma_value_of(w, (l - 1) as nat, m - 1, l);
        lemma_pow2_pos((l - coins_of(w, (l - 1) as nat, m - 1, l)) as nat);
        let x = m - 1;
        assert((x + 1) * p == x * p + p) by (nonlinear_arith);
    }
}

/// The shares of the codes add up to one, and every active symbol has a code
/// that is no longer than allowed.
proof fn lemma_shares(w: Seq<nat>, l: nat, r: int)
    requires
        rising(w),
        l >= 1,
        2 <= w.len() <= pow2(l),
        0 <= r < w.len(),
    ensures
        share_sum(w, l, w.len()) == pow2(l),
        1 <= coins_of(w, (l - 1) as nat, r, l) <= l,
{
    let top = (l - 1) as nat;
    let m = w.len();
    lemma_value_total(w, top, l);
    lemma_share_sum(w, l, m);
    let p = pow2(l);
    assert((m - 1) * p + p == m * p) by (nonlinear_arith);
    lemma_value_of(w, top, r, l);
    if coins_of(w, top, r, l) == 0 {
        lemma_share_large(w, l, m, r);
    }
}

proof fn lemma_share_large(w: Seq<nat>, l: nat, m: nat, r: int)
    requires
        rising(w),
        l >= 1,
        2 <= w.len() <= pow2(l),
        0 <= r < m <= w.len(),
        coins_of(w, (l - 1) as nat, r, l) == 0,
    ensures
        share_sum(w, l, m) >= pow2(l) + m - 1,
    decreases m,
{
    if r == m - 1 {
        lemma_share_sum(w, l, (m - 1) as nat);
    } else {
        lemma_share_large(w, l, (m - 1) as nat, r);
        lemma_pow2_pos((l - coins_of(w, (l - 1) as nat, m - 1, l)) as nat);
    }
}

/// The values of a function at some symbols, added up.
pub open spec fn listed(f: spec_fn(int) -> nat, symbols: Seq<usize>) -> nat
    decreases symbols.len(),
{
    if symbols.len() == 0 {
        0
    } else {
        listed(f, symbols.drop_last()) + f(symbols.last() as int)
    }
}

/// The width of the range of each symbol's code.
pub open spec fn widths(lengths: Seq<u8>) -> spec_fn(int) -> nat {
    |s: int| code::width(lengths[s] as nat)
}

pub proof fn lemma_listed_insert(f: spec_fn(int) -> nat, symbols: Seq<usize>, i: int, s: usize)
    requires
        0 <= i <= symbols.len(),
    ensures
        listed(f, symbols.insert(i, s)) == listed(f, symbols) + f(s as int),
    decreases symbols.len(),
{
    let all = symbols.insert(i, s);
    if i == symbols.len() {
        assert(all.drop_last() =~= symbols);
    } else {
        lemma_listed_insert(f, symbols.drop_last(), i, s);
        assert(all.drop_last() =~= symbols.drop_last().insert(i, s));
        assert(all.last() == symbols.last());
    }
}

/// Adding up by rank and adding up by symbol give the same.
proof fn lemma_listed_ranking(freqs: Seq<u32>, lengths: Seq<u8>, k: nat)
    requires
        k <= freqs.len() == lengths.len() <= usize::MAX,
        forall|s: int|
            0 <= s < freqs.len() ==> (#[trigger] freqs[s] > 0 <==> 1 <= lengths[s] <= 16),
    ensures
        listed(widths(lengths), ranking(freqs, k)) == code::width_sum(lengths, 16, k),
    decreases k,
{
    if k > 0 {
        let before = ranking(freqs, (k - 1) as nat);
        lemma_listed_ranking(freqs, lengths, (k - 1) as nat);
        if freqs[k - 1] > 0 {
            let p = place(freqs, before, freqs[k - 1]) as int;
            lemma_place(freqs, before, freqs[k - 1]);
            lemma_listed_insert(widths(lengths), before, p, (k - 1) as usize);
        }
    }
}

proof fn lemma_listed_shares(lengths: Seq<u8>, ranked: Seq<usize>, w: Seq<nat>, l: nat, m: nat)
    requires
        m <= ranked.len() == w.len(),
        1 <= l <= 16,
        forall|r: int|
            0 <= r < ranked.len() ==> lengths[#[trigger] ranked[r] as int] == coins_of(
                w,
                (l - 1) as nat,
                r,
                l,
            ) <= l,
    ensures
        listed(widths(lengths), ranked.take(m as int)) == pow2((16 - l) as nat) * share_sum(w, l, m),
    decreases m,
{
    let q = pow2((16 - l) as nat);
    if m == 0 {
        assert(q * 0 == 0);
    } else {
        let u = (m - 1) as nat;
        lemma_listed_shares(lengths, ranked, w, l, u);
        assert(ranked.take(m as int).drop_last() =~= ranked.take(u as int));
        let c = coins_of(w, (l - 1) as nat, m - 1, l);
        assert(ranked.take(m as int).last() == ranked[m - 1]);
        lemma_pow2_adds((16 - l) as nat, (l - c) as nat);
        let x = share_sum(w, l, u);
        let y = pow2((l - c) as nat);
        assert(q * (x + y) == q * x + q * y) by (nonlinear_arith);
    }
}

proof fn lemma_pair_sum(lengths: Seq<u8>, a: int, b: int, k: nat)
    requires
        k <= lengths.len(),
        a != b,
        forall|s: int|
            0 <= s < lengths.len() ==> #[trigger] lengths[s] == (if s == a || s == b {
                1u8
            } else {
                0u8
            }),
    ensures
        code::width_sum(lengths, 16, k) == (if 0 <= a < k {
            32768int
        } else {
            0
        }) + (if 0 <= b < k {
            32768int
        } else {
            0
        }),
    decreases k,
{
    bits::lemma_pow2_small();
    if k > 0 {
        lemma_pair_sum(lengths, a, b, (k - 1) as nat);
    }
}

/// The code lengths make a complete code in which every active symbol has a
/// code, and no code is longer than allowed.
pub proof fn lemma_code_lengths(freqs: Seq<u32>, max_len: nat)
    requires
        2 <= freqs.len() <= usize::MAX,
        1 <= max_len <= 16,
        ranking(freqs, freqs.len()).len() <= pow2(max_len),
    ensures
        ({
            let lengths = code_lengths(freqs, max_len);
            let active = ranking(freqs, freqs.len()).len();
            &&& forall|s: int|
                0 <= s < freqs.len() ==> code_length(freqs, max_len, s) == #[trigger] lengths[s]
                    <= max_len
            &&& forall|s: int| 0 <= s < freqs.len() && freqs[s] > 0 ==> 1 <= #[trigger] lengths[s]
            &&& active != 1 ==> forall|s: int|
                0 <= s < freqs.len() && freqs[s] == 0 ==> #[trigger] lengths[s] == 0
            &&& active >= 1 ==> code::complete(lengths)
            &&& active == 0 ==> code::reach(lengths, 16) == 0
        }),
{
    let n = freqs.len();
    let ranked = ranking(freqs, n);
    let lengths = code_lengths(freqs, max_len);
    let w = weights(freqs);
    let top = (max_len - 1) as nat;
    lemma_ranking(freqs, n);
    lemma_weights(freqs);
    code::lemma_reach_is_sum(lengths, 16);
    if ranked.len() == 1 {
        let only = ranked[0] as int;
        let second: int = if only == 0 {
            1
        } else {
            0
        };
        assert forall|s: int| 0 <= s < n && freqs[s] > 0 implies s == only by {
            assert(ranked.contains(s as usize));
        }
        lemma_pair_sum(lengths, only, second, n);
    } else if ranked.len() == 0 {
        assert forall|s: int| 0 <= s < n implies #[trigger] freqs[s] == 0 by {
            if freqs[s] > 0 {
                assert(ranked.contains(s as usize));
            }
        }
        lemma_listed_ranking(freqs, lengths, n);
    } else {
        assert forall|s: int| 0 <= s < n && freqs[s] > 0 implies 1 <= #[trigger] code_length(
            freqs,
            max_len,
            s,
        ) <= max_len by {
            assert(ranked.contains(s as usize));
            lemma_shares(w, max_len, ranked.index_of(s as usize));
        }
        assert forall|r: int| 0 <= r < ranked.len() implies lengths[#[trigger] ranked[r] as int]
            == coins_of(w, top, r, max_len) <= max_len by {
            let s = ranked[r] as int;
            assert(ranked.index_of(s as usize) == r);
            lemma_shares(w, max_len, r);
        }
        lemma_listed_ranking(freqs, lengths, n);
        lemma_listed_shares(lengths, ranked, w, max_len, ranked.len());
        assert(ranked.take(ranked.len() as int) =~= ranked);
        lemma_shares(w, max_len, 0);
        lemma_pow2_adds((16 - max_len) as nat, max_len);
        bits::lemma_pow2_small();
    }
}

proof fn lemma_coins_ordered(w: Seq<nat>, top: nat, q: int, r: int, k: nat)
    requires
        q <= r,
    ensures
        coins_of(w, top, q, k) >= coins_of(w, top, r, k),
    decreases k,
{
    if k > 0 {
        lemma_coins_ordered(w, top, q, r, (k - 1) as nat);
    }
}

/// Symbols of one frequency keep their order in the ranking.
proof fn lemma_ranking_stable(freqs: Seq<u32>, k: nat)
    requires
        k <= freqs.len() <= usize::MAX,
    ensures
        forall|i: int, j: int|
            0 <= i < j < ranking(freqs, k).len() && freqs[ranking(freqs, k)[i] as int]
                == freqs[ranking(freqs, k)[j] as int] ==> #[trigger] ranking(freqs, k)[i]
                < #[trigger] ranking(freqs, k)[j],
    decreases k,
{
    if k > 0 {
        let before = ranking(freqs, (k - 1) as nat);
        let f = freqs[k - 1];
        lemma_ranking_stable(freqs, (k - 1) as nat);
        lemma_ranking(freqs, (k - 1) as nat);
        if f > 0 {
            let p = place(freqs, before, f) as int;
            lemma_place(freqs, before, f);
            let after = ranking(freqs, k);
            assert(after =~= before.insert(p, (k - 1) as usize));
            assert forall|i: int, j: int|
                0 <= i < j < after.len() && freqs[after[i] as int] == freqs[after[j] as int]
                implies #[trigger] after[i] < #[trigger] after[j] by {
                let x = if i < p {
                    i
                } else {
                    i - 1
                };
                let y = if j < p {
                    j
                } else {
                    j - 1
                };
                if i == p {
                    assert(f < freqs[before[y] as int]);
                } else if j == p {
                    assert(before[x] < k - 1);
                } else {
                    assert(before[x] < before[y]);
                }
            }
        }
    }
}

/// A rarer symbol has no shorter code, and of two that are as frequent the lower
/// one has no shorter code. Symbols that do not occur have none, but for the partner of an
/// only one: that is the first symbol, or the second where the only one is the
/// first, and both have codes of one bit.
pub proof fn lemma_rarer_longer(freqs: Seq<u32>, max_len: nat, s: int, t: int)
    requires
        2 <= freqs.len() <= usize::MAX,
        0 <= s < freqs.len(),
        0 <= t < freqs.len(),
        s != t,
        freqs[s] > 0,
    ensures
        freqs[t] > 0 && (freqs[s] < freqs[t] || (freqs[s] == freqs[t] && s < t)) ==> code_length(
            freqs,
            max_len,
            s,
        ) >= code_length(freqs, max_len, t),
        (forall|u: int| 0 <= u < freqs.len() && u != s ==> #[trigger] freqs[u] == 0) ==> {
            &&& code_length(freqs, max_len, s) == 1
            &&& code_length(freqs, max_len, t) == (if t == (if s == 0 {
                1int
            } else {
                0
            }) {
                1nat
            } else {
                0
            })
        },
{
    let n = freqs.len();
    let ranked = ranking(freqs, n);
    lemma_ranking(freqs, n);
    lemma_ranking_stable(freqs, n);
    assert(ranked.contains(s as usize));
    let i = ranked.index_of(s as usize);
    assert(ranked[i] == s as usize);
    if freqs[t] > 0 && (freqs[s] < freqs[t] || (freqs[s] == freqs[t] && s < t)) {
        assert(ranked.contains(t as usize));
        let j = ranked.index_of(t as usize);
        assert(ranked[j] == t as usize);
        if j < i {
            assert(freqs[ranked[j] as int] <= freqs[ranked[i] as int]);
        }
        assert(i < j);
        lemma_coins_ordered(weights(freqs), (max_len - 1) as nat, i, j, max_len);
    }
    if forall|u: int| 0 <= u < n && u != s ==> #[trigger] freqs[u] == 0 {
        assert forall|r: int| 0 <= r < ranked.len() implies #[trigger] ranked[r] == s as usize by {
            assert(freqs[ranked[r] as int] > 0);
        }
        if ranked.len() > 1 {
            assert(ranked[0] == ranked[1]);
        }
        assert(ranked.len() == 1);
    }
}

} // verus!
