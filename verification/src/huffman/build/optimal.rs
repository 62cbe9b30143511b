//! The code lengths that package-merge gives are the best there are.
//!
//! A code takes coins as package-merge does: a symbol whose code has `n` bits
//! takes its coins from the last `n` levels. Where a coin of a level is worth
//! twice one of the level before, every prefix code takes coins of at least the
//! same value, and the coins that package-merge takes are the lightest ones of
//! that value.

use vstd::prelude::*;
use vstd::arithmetic::power2::*;

use crate::bits;
use crate::huffman::build::package;
use crate::huffman::build::package::Coin;
use crate::huffman::code;

verus! {

/// The bits that a text takes in which symbol `s` occurs `freqs[s]` times, as
/// far as they go to the first `k` symbols.
pub open spec fn cost(freqs: Seq<u32>, lengths: Seq<u8>, k: nat) -> nat
    decreases k,
{
    if k == 0 {
        0
    } else {
        cost(freqs, lengths, (k - 1) as nat) + freqs[k - 1] as nat * lengths[k - 1] as nat
    }
}

spec fn sum(a: Seq<nat>, n: nat) -> nat
    decreases n,
{
    if n == 0 {
        0
    } else {
        sum(a, (n - 1) as nat) + a[n - 1]
    }
}

/// What the first `n` coins and packages weigh.
spec fn weight(c: Seq<Coin>, n: nat) -> nat
    decreases n,
{
    if n == 0 {
        0
    } else {
        weight(c, (n - 1) as nat) + c[n - 1].weight
    }
}

spec fn ascending(a: Seq<nat>) -> bool {
    forall|i: int, j: int| 0 <= i <= j < a.len() ==> a[i] <= a[j]
}

spec fn by_weight(c: Seq<Coin>) -> bool {
    forall|i: int, j: int| 0 <= i <= j < c.len() ==> c[i].weight <= c[j].weight
}

proof fn lemma_sum_grows(a: Seq<nat>, n: nat, k: nat)
    requires
        n <= k,
    ensures
        sum(a, n) <= sum(a, k),
    decreases k,
{
    if n < k {
        lemma_sum_grows(a, n, (k - 1) as nat);
    }
}

proof fn lemma_weight_front(head: Coin, rest: Seq<Coin>, t: nat)
    requires
        0 < t <= rest.len() + 1,
    ensures
        weight(seq![head] + rest, t) == head.weight + weight(rest, (t - 1) as nat),
    decreases t,
{
    let all = seq![head] + rest;
    if t == 1 {
        assert(weight(all, 0) == 0);
        assert(weight(rest, 0) == 0);
    } else {
        lemma_weight_front(head, rest, (t - 1) as nat);
        assert(all[t - 1] == rest[t - 2]);
    }
}

/// The first ones of a merged sequence are the lightest that can be had.
proof fn lemma_merged_least(a: Seq<nat>, b: Seq<nat>, i: nat, j: nat, x: nat, y: nat)
    requires
        ascending(a),
        package::rising(b),
        i + x <= a.len(),
        j + y <= b.len(),
    ensures
        weight(package::merged(a, b, i, j), x + y) + sum(a, i) + sum(b, j) <= sum(a, i + x) + sum(
            b,
            j + y,
        ),
    decreases (a.len() - i) + (b.len() - j),
{
    let c = package::merged(a, b, i, j);
    if x + y > 0 {
        package::lemma_merged(a, b, i, j, 0);
        if i < a.len() && (j == b.len() || a[i as int] <= b[j as int]) {
            let head = Coin { weight: a[i as int], package: true };
            let rest = package::merged(a, b, i + 1, j);
            assert(c == seq![head] + rest);
            package::lemma_merged(a, b, i + 1, j, 0);
            lemma_weight_front(head, rest, x + y);
            if x > 0 {
                lemma_merged_least(a, b, i + 1, j, (x - 1) as nat, y);
            } else {
                lemma_merged_least(a, b, i + 1, j, 0, (y - 1) as nat);
                assert(b[j as int] <= b[j + y - 1]);
            }
        } else {
            let head = Coin { weight: b[j as int], package: false };
            let rest = package::merged(a, b, i, j + 1);
            assert(c == seq![head] + rest);
            package::lemma_merged(a, b, i, j + 1, 0);
            lemma_weight_front(head, rest, x + y);
            if y > 0 {
                lemma_merged_least(a, b, i, j + 1, x, (y - 1) as nat);
            } else {
                lemma_merged_least(a, b, i, j + 1, (x - 1) as nat, 0);
                assert(a[i as int] <= a[i + x - 1]);
            }
        }
    }
}

/// A merged sequence is in order, and begins with what its parts begin with.
proof fn lemma_merged_ascending(a: Seq<nat>, b: Seq<nat>, i: nat, j: nat)
    requires
        ascending(a),
        package::rising(b),
        i <= a.len(),
        j <= b.len(),
    ensures
        by_weight(package::merged(a, b, i, j)),
        package::merged(a, b, i, j).len() > 0 ==> {
            let first = package::merged(a, b, i, j)[0].weight;
            ||| i < a.len() && first == a[i as int]
            ||| j < b.len() && first == b[j as int]
        },
    decreases (a.len() - i) + (b.len() - j),
{
    let c = package::merged(a, b, i, j);
    package::lemma_merged(a, b, i, j, 0);
    if i < a.len() && (j == b.len() || a[i as int] <= b[j as int]) {
        let head = Coin { weight: a[i as int], package: true };
        let rest = package::merged(a, b, i + 1, j);
        lemma_merged_ascending(a, b, i + 1, j);
        assert(c == seq![head] + rest);
        lemma_front_ascending(head, rest);
    } else if j < b.len() {
        let head = Coin { weight: b[j as int], package: false };
        let rest = package::merged(a, b, i, j + 1);
        lemma_merged_ascending(a, b, i, j + 1);
        assert(c == seq![head] + rest);
        lemma_front_ascending(head, rest);
    } else {
        assert(c.len() == 0);
    }
}

proof fn lemma_front_ascending(head: Coin, rest: Seq<Coin>)
    requires
        by_weight(rest),
        rest.len() > 0 ==> head.weight <= rest[0].weight,
    ensures
        by_weight(seq![head] + rest),
{
    let all = seq![head] + rest;
    assert forall|i: int, j: int| 0 <= i <= j < all.len() implies all[i].weight
        <= all[j].weight by {
        if i == 0 && j > 0 {
            assert(rest[0].weight <= rest[j - 1].weight);
            assert(all[j] == rest[j - 1]);
        } else if i > 0 {
            assert(all[i] == rest[i - 1] && all[j] == rest[j - 1]);
        }
    }
}

proof fn lemma_level_ascending(w: Seq<nat>, k: nat)
    requires
        package::rising(w),
    ensures
        ascending(package::lower(w, k)),
        by_weight(package::level(w, k)),
    decreases k,
{
    let a = package::lower(w, k);
    if k > 0 {
        let below = package::level(w, (k - 1) as nat);
        lemma_level_ascending(w, (k - 1) as nat);
        assert forall|i: int, j: int| 0 <= i <= j < a.len() implies a[i] <= a[j] by {
            assert(below[2 * i].weight <= below[2 * j].weight);
            assert(below[2 * i + 1].weight <= below[2 * j + 1].weight);
        }
    }
    package::lemma_level(w, k, 0);
    lemma_merged_ascending(a, w, 0, 0);
}

/// Packages weigh what their coins weigh.
proof fn lemma_pairs_weight(c: Seq<Coin>, n: nat)
    requires
        2 * n <= c.len(),
    ensures
        sum(package::pairs(c), n) == weight(c, 2 * n),
    decreases n,
{
    if n > 0 {
        let u = (n - 1) as nat;
        lemma_pairs_weight(c, u);
        assert(weight(c, 2 * n) == weight(c, (2 * n - 1) as nat) + c[2 * n - 1].weight);
        assert(weight(c, (2 * n - 1) as nat) == weight(c, 2 * u) + c[2 * u as int].weight);
    }
}

/// The first `t` of a level are packages and own coins, both from the front on.
proof fn lemma_level_weight(w: Seq<nat>, k: nat, t: nat)
    requires
        package::rising(w),
        t <= package::level(w, k).len(),
    ensures
        ({
            let p = package::packages(package::level(w, k), t);
            weight(package::level(w, k), t) == sum(package::lower(w, k), p) + sum(
                w,
                (t - p) as nat,
            )
        }),
    decreases t,
{
    package::lemma_level(w, k, 0);
    if t > 0 {
        let u = (t - 1) as nat;
        lemma_level_weight(w, k, u);
        package::lemma_level(w, k, u);
    }
}

/// The symbol of rank `r` takes its coin of level `k`, where its code has `n`
/// bits and there are `l` levels.
spec fn takes(n: nat, l: nat, k: nat) -> bool {
    n + k >= l
}

/// How many of the first `m` symbols take their coin of level `k`.
spec fn takers(ls: Seq<nat>, l: nat, k: nat, m: nat) -> nat
    decreases m,
{
    if m == 0 {
        0
    } else {
        takers(ls, l, k, (m - 1) as nat) + (if takes(ls[m - 1], l, k) {
            1nat
        } else {
            0nat
        })
    }
}

/// What the coins of level `k` weigh that the first `m` symbols take.
spec fn taken_weight(w: Seq<nat>, ls: Seq<nat>, l: nat, k: nat, m: nat) -> nat
    decreases m,
{
    if m == 0 {
        0
    } else {
        taken_weight(w, ls, l, k, (m - 1) as nat) + (if takes(ls[m - 1], l, k) {
            w[m - 1]
        } else {
            0
        })
    }
}

/// So many coins weigh no less than the lightest ones.
proof fn lemma_takers(w: Seq<nat>, ls: Seq<nat>, l: nat, k: nat, m: nat)
    requires
        package::rising(w),
        m <= w.len(),
    ensures
        takers(ls, l, k, m) <= m,
        sum(w, takers(ls, l, k, m)) <= taken_weight(w, ls, l, k, m),
    decreases m,
{
    if m > 0 {
        let u = (m - 1) as nat;
        lemma_takers(w, ls, l, k, u);
        if takes(ls[m - 1], l, k) {
            assert(w[takers(ls, l, k, u) as int] <= w[m - 1]);
        }
    }
}

/// What the coins of the first `k` levels are worth that the first `m` symbols
/// take.
spec fn value(ls: Seq<nat>, l: nat, k: nat, m: nat) -> nat
    decreases k,
{
    if k == 0 {
        0
    } else {
        value(ls, l, (k - 1) as nat, m) + takers(ls, l, (k - 1) as nat, m) * pow2((k - 1) as nat)
    }
}

/// What those coins weigh.
spec fn load(w: Seq<nat>, ls: Seq<nat>, l: nat, k: nat, m: nat) -> nat
    decreases k,
{
    if k == 0 {
        0
    } else {
        load(w, ls, l, (k - 1) as nat, m) + taken_weight(w, ls, l, (k - 1) as nat, m)
    }
}

/// Coins of the first levels that are worth `t` coins of level `k` weigh no less
/// than the first `t` coins and packages of that level.
proof fn lemma_least(w: Seq<nat>, ls: Seq<nat>, l: nat, k: nat, t: nat)
    requires
        package::rising(w),
        value(ls, l, k + 1, w.len()) >= t * pow2(k),
    ensures
        t <= package::level(w, k).len(),
        weight(package::level(w, k), t) <= load(w, ls, l, k + 1, w.len()),
    decreases k,
{
    let m = w.len();
    let a = package::lower(w, k);
    let s = takers(ls, l, k, m);
    let p = pow2(k);
    lemma_pow2_pos(k);
    package::lemma_level(w, k, 0);
    lemma_level_ascending(w, k);
    lemma_takers(w, ls, l, k, m);
    if s >= t {
        lemma_merged_least(a, w, 0, 0, 0, t);
        lemma_sum_grows(w, t, s);
    } else {
        let u = (t - s) as nat;
        assert(t * p == s * p + u * p) by (nonlinear_arith)
            requires
                t == s + u,
        ;
        assert(u * p > 0) by (nonlinear_arith)
            requires
                u > 0,
                p > 0,
        ;
        if k == 0 {
            assert(value(ls, l, 0, m) == 0);
        }
        let below = (k - 1) as nat;
        lemma_pow2_unfold(k);
        let q = pow2(below);
        assert((2 * u) * q == u * (2 * q)) by (nonlinear_arith);
        lemma_least(w, ls, l, below, 2 * u);
        lemma_pairs_weight(package::level(w, below), u);
        lemma_merged_least(a, w, 0, 0, u, s);
    }
}

/// The weight of `n` coins for each symbol, where `n` is the symbol's entry.
spec fn rank_cost(w: Seq<nat>, ls: Seq<nat>, m: nat) -> nat
    decreases m,
{
    if m == 0 {
        0
    } else {
        rank_cost(w, ls, (m - 1) as nat) + w[m - 1] * ls[m - 1]
    }
}

/// What one more symbol adds to the weight and the value of the coins taken.
proof fn lemma_one_more(w: Seq<nat>, ls: Seq<nat>, l: nat, k: nat, m: nat)
    requires
        0 < m,
        ls[m - 1] <= l,
        k <= l,
    ensures
        ({
            let n = ls[m - 1];
            let u = (m - 1) as nat;
            &&& load(w, ls, l, k, m) == load(w, ls, l, k, u) + w[m - 1] * (if takes(n, l, k) {
                (n + k - l) as nat
            } else {
                0
            })
            &&& value(ls, l, k, m) == value(ls, l, k, u) + (if takes(n, l, k) {
                pow2(k) - pow2((l - n) as nat)
            } else {
                0
            })
        }),
    decreases k,
{
    let n = ls[m - 1];
    let x = w[m - 1];
    assert(x * 0 == 0);
    if k > 0 {
        let below = (k - 1) as nat;
        let u = (m - 1) as nat;
        lemma_one_more(w, ls, l, below, m);
        lemma_pow2_unfold(k);
        let p = pow2(below);
        let c = takers(ls, l, below, u);
        assert((c + 1) * p == c * p + p) by (nonlinear_arith);
        if takes(n, l, below) {
            let y = n + below - l;
            assert(x * (y + 1) == x * y + x) by (nonlinear_arith);
        }
    }
}

/// The sum of `2^(l - code length)` over the first `m` symbols.
spec fn share(ls: Seq<nat>, l: nat, m: nat) -> nat
    decreases m,
{
    if m == 0 {
        0
    } else {
        share(ls, l, (m - 1) as nat) + pow2((l - ls[m - 1]) as nat)
    }
}

/// What a code costs and what its coins are worth.
proof fn lemma_code_coins(w: Seq<nat>, ls: Seq<nat>, l: nat, m: nat)
    requires
        m <= ls.len(),
        forall|r: int| 0 <= r < ls.len() ==> #[trigger] ls[r] <= l,
    ensures
        load(w, ls, l, l, m) == rank_cost(w, ls, m),
        value(ls, l, l, m) + share(ls, l, m) == m * pow2(l),
    decreases m,
{
    let p = pow2(l);
    if m == 0 {
        lemma_no_coins(w, ls, l, l);
        assert(0 * p == 0);
    } else {
        lemma_code_coins(w, ls, l, (m - 1) as nat);
        assert(ls[m - 1] <= l);
        lemma_one_more(w, ls, l, l, m);
        let x = m - 1;
        assert((x + 1) * p == x * p + p) by (nonlinear_arith);
    }
}

proof fn lemma_no_coins(w: Seq<nat>, ls: Seq<nat>, l: nat, k: nat)
    ensures
        load(w, ls, l, k, 0) == 0,
        value(ls, l, k, 0) == 0,
    decreases k,
{
    if k > 0 {
        lemma_no_coins(w, ls, l, (k - 1) as nat);
        let p = pow2((k - 1) as nat);
        assert(0 * p == 0);
    }
}

/// What the own coins of the first `k` levels weigh that package-merge takes.
spec fn own_weight(w: Seq<nat>, top: nat, k: nat) -> nat
    decreases k,
{
    if k == 0 {
        0
    } else {
        own_weight(w, top, (k - 1) as nat) + sum(w, package::own(w, top, (k - 1) as nat) as nat)
    }
}

/// All that is taken from a level weighs what the own coins taken from it and
/// from the levels before weigh.
proof fn lemma_own_weight(w: Seq<nat>, top: nat, k: nat)
    requires
        package::rising(w),
        2 <= w.len() <= pow2(top + 1),
        k <= top,
    ensures
        own_weight(w, top, k + 1) == weight(package::level(w, k), package::taken(w, top, k)),
    decreases k,
{
    let t = package::taken(w, top, k);
    package::lemma_taken(w, top, k);
    lemma_level_weight(w, k, t);
    if k > 0 {
        let below = (k - 1) as nat;
        lemma_own_weight(w, top, below);
        package::lemma_taken(w, top, below);
        lemma_pairs_weight(package::level(w, below), package::packages(package::level(w, k), t));
    } else {
        assert(sum(package::lower(w, 0), 0) == 0);
        assert(own_weight(w, top, 0) == 0);
    }
}

/// What the own coins of the first `m` symbols weigh that package-merge takes
/// from the first `k` levels.
spec fn coin_cost(w: Seq<nat>, top: nat, k: nat, m: nat) -> nat
    decreases m,
{
    if m == 0 {
        0
    } else {
        coin_cost(w, top, k, (m - 1) as nat) + w[m - 1] * package::coins_of(w, top, m - 1, k)
    }
}

proof fn lemma_coin_cost_level(w: Seq<nat>, top: nat, k: nat, m: nat)
    requires
        0 <= package::own(w, top, k),
    ensures
        coin_cost(w, top, k + 1, m) == coin_cost(w, top, k, m) + sum(
            w,
            if package::own(w, top, k) <= m {
                package::own(w, top, k) as nat
            } else {
                m
            },
        ),
    decreases m,
{
    if m > 0 {
        lemma_coin_cost_level(w, top, k, (m - 1) as nat);
        let x = w[m - 1];
        let n = package::coins_of(w, top, m - 1, k);
        assert(x * (n + 1) == x * n + x) by (nonlinear_arith);
    }
}

proof fn lemma_coin_cost(w: Seq<nat>, top: nat, k: nat)
    requires
        package::rising(w),
        2 <= w.len() <= pow2(top + 1),
        k <= top + 1,
    ensures
        coin_cost(w, top, k, w.len()) == own_weight(w, top, k),
    decreases k,
{
    if k == 0 {
        lemma_coin_cost_none(w, top, w.len());
    } else {
        let below = (k - 1) as nat;
        lemma_coin_cost(w, top, below);
        package::lemma_taken(w, top, below);
        lemma_coin_cost_level(w, top, below, w.len());
    }
}

proof fn lemma_coin_cost_none(w: Seq<nat>, top: nat, m: nat)
    ensures
        coin_cost(w, top, 0, m) == 0,
    decreases m,
{
    if m > 0 {
        lemma_coin_cost_none(w, top, (m - 1) as nat);
        let x = w[m - 1];
        assert(x * 0 == 0);
    }
}

/// Package-merge takes coins that weigh no more than those of any other code
/// whose shares add up to at most one.
proof fn lemma_ranks_optimal(w: Seq<nat>, l: nat, ls: Seq<nat>)
    requires
        package::rising(w),
        l >= 1,
        2 <= w.len() <= pow2(l),
        ls.len() == w.len(),
        forall|r: int| 0 <= r < ls.len() ==> #[trigger] ls[r] <= l,
        share(ls, l, w.len()) <= pow2(l),
    ensures
        coin_cost(w, (l - 1) as nat, l, w.len()) <= rank_cost(w, ls, w.len()),
{
    let top = (l - 1) as nat;
    let m = w.len();
    let p = pow2(l);
    let h = pow2(top);
    lemma_coin_cost(w, top, l);
    lemma_own_weight(w, top, top);
    lemma_code_coins(w, ls, l, m);
    lemma_pow2_unfold(l);
    assert((m - 1) * p + p == m * p) by (nonlinear_arith);
    assert((2 * m - 2) * h == (m - 1) * (2 * h)) by (nonlinear_arith);
    lemma_least(w, ls, l, top, (2 * m - 2) as nat);
}

/// The bits that each symbol takes.
spec fn costs(freqs: Seq<u32>, lengths: Seq<u8>) -> spec_fn(int) -> nat {
    |s: int| freqs[s] as nat * lengths[s] as nat
}

/// Adding up by rank and adding up by symbol.
proof fn lemma_by_rank(freqs: Seq<u32>, lengths: Seq<u8>, k: nat)
    requires
        k <= freqs.len() == lengths.len() <= usize::MAX,
        forall|s: int| 0 <= s < freqs.len() && freqs[s] > 0 ==> 1 <= #[trigger] lengths[s] <= 16,
    ensures
        ({
            let ranked = package::ranking(freqs, k);
            &&& package::listed(costs(freqs, lengths), ranked) == cost(
                freqs,
                lengths,
                k,
            )
            &&& package::listed(package::widths(lengths), ranked) <= code::width_sum(
                lengths,
                16,
                k,
            )
        }),
    decreases k,
{
    if k > 0 {
        let u = (k - 1) as nat;
        let before = package::ranking(freqs, u);
        lemma_by_rank(freqs, lengths, u);
        let n = lengths[k - 1] as nat;
        if freqs[k - 1] > 0 {
            let p = package::place(freqs, before, freqs[k - 1]) as int;
            package::lemma_place(freqs, before, freqs[k - 1]);
            package::lemma_listed_insert(
                costs(freqs, lengths),
                before,
                p,
                u as usize,
            );
            package::lemma_listed_insert(package::widths(lengths), before, p, u as usize);
            assert(1 <= lengths[k - 1] <= 16);
        } else {
            assert(0 * n == 0);
        }
    }
}

proof fn lemma_ranked_sums(
    freqs: Seq<u32>,
    lengths: Seq<u8>,
    ranked: Seq<usize>,
    w: Seq<nat>,
    ls: Seq<nat>,
    l: nat,
    m: nat,
)
    requires
        m <= ranked.len() == w.len() == ls.len(),
        1 <= l <= 16,
        forall|r: int|
            0 <= r < ranked.len() ==> w[r] == freqs[#[trigger] ranked[r] as int] && ls[r]
                == lengths[ranked[r] as int] <= l,
    ensures
        package::listed(
            costs(freqs, lengths),
            ranked.take(m as int),
        ) == rank_cost(w, ls, m),
        package::listed(package::widths(lengths), ranked.take(m as int)) == pow2(
            (16 - l) as nat,
        ) * share(ls, l, m),
    decreases m,
{
    let q = pow2((16 - l) as nat);
    if m == 0 {
        assert(q * 0 == 0);
    } else {
        let u = (m - 1) as nat;
        lemma_ranked_sums(freqs, lengths, ranked, w, ls, l, u);
        let part = ranked.take(m as int);
        assert(part.drop_last() =~= ranked.take(u as int));
        assert(part.last() == ranked[m - 1]);
        let c = ls[m - 1];
        lemma_pow2_adds((16 - l) as nat, (l - c) as nat);
        let x = share(ls, l, u);
        let y = pow2((l - c) as nat);
        assert(q * (x + y) == q * x + q * y) by (nonlinear_arith);
    }
}

/// With one active symbol, only that one counts.
proof fn lemma_single_cost(freqs: Seq<u32>, lengths: Seq<u8>, only: int, k: nat)
    requires
        k <= freqs.len() == lengths.len(),
        forall|s: int| 0 <= s < freqs.len() && s != only ==> #[trigger] freqs[s] == 0,
    ensures
        cost(freqs, lengths, k) == (if 0 <= only < k {
            freqs[only] as nat * lengths[only] as nat
        } else {
            0
        }),
    decreases k,
{
    if k > 0 {
        lemma_single_cost(freqs, lengths, only, (k - 1) as nat);
        let n = lengths[k - 1] as nat;
        assert(0 * n == 0);
    }
}

/// The code lengths are optimal: no prefix code that gives every active symbol a
/// code of at most `max_len` bits makes the text shorter.
pub proof fn lemma_optimal(freqs: Seq<u32>, max_len: nat, other: Seq<u8>)
    requires
        2 <= freqs.len() <= usize::MAX,
        1 <= max_len <= 16,
        package::ranking(freqs, freqs.len()).len() <= pow2(max_len),
        other.len() == freqs.len(),
        forall|s: int|
            0 <= s < freqs.len() && freqs[s] > 0 ==> 1 <= #[trigger] other[s] <= max_len,
        code::reach(other, 16) <= 65536,
    ensures
        cost(freqs, package::code_lengths(freqs, max_len), freqs.len()) <= cost(
            freqs,
            other,
            freqs.len(),
        ),
{
    let n = freqs.len();
    let ranked = package::ranking(freqs, n);
    let lengths = package::code_lengths(freqs, max_len);
    let w = package::weights(freqs);
    let m = ranked.len();
    package::lemma_ranking(freqs, n);
    package::lemma_weights(freqs);
    package::lemma_code_lengths(freqs, max_len);
    if m <= 1 {
        let only: int = if m == 1 {
            ranked[0] as int
        } else {
            -1
        };
        assert forall|s: int| 0 <= s < n && s != only implies #[trigger] freqs[s] == 0 by {
            if freqs[s] > 0 {
                assert(ranked.contains(s as usize));
            }
        }
        lemma_single_cost(freqs, lengths, only, n);
        lemma_single_cost(freqs, other, only, n);
        if m == 1 {
            let f = freqs[only] as nat;
            let x = other[only] as nat;
            assert(lengths[only] == 1);
            assert(f * 1 <= f * x) by (nonlinear_arith)
                requires
                    x >= 1,
            ;
        }
    } else {
        let top = (max_len - 1) as nat;
        let mine = Seq::new(m, |r: int| package::coins_of(w, top, r, max_len));
        let ls = Seq::new(m, |r: int| other[ranked[r] as int] as nat);
        assert forall|r: int| 0 <= r < m implies w[r] == freqs[#[trigger] ranked[r] as int]
            && mine[r] == lengths[ranked[r] as int] <= max_len by {
            let s = ranked[r] as int;
            assert(ranked.index_of(s as usize) == r);
            assert(package::code_length(freqs, max_len, s) == lengths[s]);
        }
        assert forall|r: int| 0 <= r < m implies w[r] == freqs[#[trigger] ranked[r] as int]
            && ls[r] == other[ranked[r] as int] <= max_len by {
            let s = ranked[r] as int;
            assert(freqs[s] > 0);
            assert(other[s] <= max_len);
        }
        assert(ranked.take(m as int) =~= ranked);
        lemma_by_rank(freqs, lengths, n);
        lemma_ranked_sums(freqs, lengths, ranked, w, mine, max_len, m);
        lemma_by_rank(freqs, other, n);
        lemma_ranked_sums(freqs, other, ranked, w, ls, max_len, m);
        code::lemma_reach_is_sum(other, 16);
        let q = pow2((16 - max_len) as nat);
        let x = share(ls, max_len, m);
        let p = pow2(max_len);
        lemma_pow2_adds((16 - max_len) as nat, max_len);
        lemma_pow2_pos((16 - max_len) as nat);
        bits::lemma_pow2_small();
        assert(x <= p) by (nonlinear_arith)
            requires
                q * x <= q * p,
                q > 0,
        ;
        lemma_ranks_optimal(w, max_len, ls);
        lemma_coin_rank_cost(w, top, max_len, mine, m);
    }
}

proof fn lemma_coin_rank_cost(w: Seq<nat>, top: nat, k: nat, coins: Seq<nat>, m: nat)
    requires
        m <= coins.len(),
        forall|r: int|
            0 <= r < coins.len() ==> #[trigger] coins[r] == package::coins_of(w, top, r, k),
    ensures
        coin_cost(w, top, k, m) == rank_cost(w, coins, m),
    decreases m,
{
    if m > 0 {
        lemma_coin_rank_cost(w, top, k, coins, (m - 1) as nat);
    }
}

} // verus!
