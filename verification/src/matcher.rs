//! Match finder.
//!
//! Follows the hash chain at a position and keeps the longest match within reach,
//! and of equally long ones the nearest.

use vstd::prelude::*;

use crate::constants::{MAX_MATCH, MIN_MATCH};
use crate::hash;
use crate::hash::{HashChains, Links, NONE};

verus! {

/// The farthest distance of a match.
pub const MAX_DISTANCE: usize = 0xfefc;

/// A match, or none where the length is too short.
#[derive(Debug, Clone, Copy, PartialEq, Eq, Structural)]
pub struct Match {
    pub length: usize,
    pub distance: usize,
}

impl Match {
    /// No match.
    pub fn none() -> (m: Match)
        ensures
            m.length == 0,
            m.distance == 0,
    {
        Match { length: 0, distance: 0 }
    }

    pub fn is_useful(&self) -> (useful: bool)
        ensures
            useful == (self.length >= MIN_MATCH),
    {
        self.length >= MIN_MATCH
    }
}

/// How many bytes from `a` and from `b` on are equal, of which `k` are known to
/// be, up to `max`.
pub open spec fn common(window: Seq<u8>, a: int, b: int, k: nat, max: nat) -> nat
    decreases max - k,
{
    if k < max && window[a + k] == window[b + k] {
        common(window, a, b, k + 1, max)
    } else {
        k
    }
}

/// The longest match that can stand at `pos`.
pub open spec fn longest(window: Seq<u8>, pos: int) -> nat {
    if window.len() - pos <= MAX_MATCH {
        (window.len() - pos) as nat
    } else {
        MAX_MATCH as nat
    }
}

/// The best of `best` and the matches with the next `walks` positions of the
/// chain from `candidate` on. The walk ends at a position that is too far back.
/// Of equally long matches the first one counts.
pub open spec fn search(
    window: Seq<u8>,
    pos: int,
    links: Links,
    candidate: u32,
    walks: nat,
    best: Match,
) -> Match
    decreases walks,
{
    if candidate == NONE || walks == 0 {
        best
    } else if candidate >= pos {
        search(window, pos, links, links.prev(candidate), (walks - 1) as nat, best)
    } else if pos - candidate > MAX_DISTANCE {
        best
    } else {
        let length = common(window, candidate as int, pos, 0, longest(window, pos));
        let found = if length >= MIN_MATCH && length > best.length {
            Match { length: length as usize, distance: (pos - candidate) as usize }
        } else {
            best
        };
        search(window, pos, links, links.prev(candidate), (walks - 1) as nat, found)
    }
}

/// The best match at `pos` with the first `walks` positions of the chain of
/// `hash`.
pub open spec fn best_match(window: Seq<u8>, pos: int, links: Links, hash: u32, walks: nat) -> Match {
    if pos + MIN_MATCH > window.len() {
        Match { length: 0, distance: 0 }
    } else {
        search(window, pos, links, links.head(hash), walks, Match { length: 0, distance: 0 })
    }
}

/// The match repeats bytes before `pos` that are there.
pub open spec fn is_match(window: Seq<u8>, pos: int, m: Match) -> bool {
    m.length > 0 ==> {
        &&& MIN_MATCH <= m.length <= MAX_MATCH
        &&& pos + m.length <= window.len()
        &&& 1 <= m.distance <= MAX_DISTANCE
        &&& m.distance <= pos
        &&& forall|i: int|
            0 <= i < m.length ==> window[pos + i] == #[trigger] window[pos - m.distance + i]
    }
}

pub proof fn lemma_common(window: Seq<u8>, a: int, b: int, k: nat, max: nat)
    requires
        k <= max,
        forall|i: int| 0 <= i < k ==> window[b + i] == #[trigger] window[a + i],
    ensures
        k <= common(window, a, b, k, max) <= max,
        forall|i: int|
            0 <= i < common(window, a, b, k, max) ==> window[b + i] == #[trigger] window[a + i],
        common(window, a, b, k, max) < max ==> window[a + common(window, a, b, k, max)] != window[b
            + common(window, a, b, k, max)],
    decreases max - k,
{
    if k < max && window[a + k] == window[b + k] {
        lemma_common(window, a, b, k + 1, max);
    }
}

/// The match finder finds nothing but matches.
pub proof fn lemma_search(
    window: Seq<u8>,
    pos: int,
    links: Links,
    candidate: u32,
    walks: nat,
    best: Match,
)
    requires
        0 <= pos <= window.len(),
        is_match(window, pos, best),
    ensures
        is_match(window, pos, search(window, pos, links, candidate, walks, best)),
        search(window, pos, links, candidate, walks, best).length >= best.length,
    decreases walks,
{
    if candidate != NONE && walks > 0 {
        let next = links.prev(candidate);
        let left = (walks - 1) as nat;
        if candidate >= pos {
            lemma_search(window, pos, links, next, left, best);
        } else if pos - candidate <= MAX_DISTANCE {
            let length = common(window, candidate as int, pos, 0, longest(window, pos));
            lemma_common(window, candidate as int, pos, 0, longest(window, pos));
            let found = if length >= MIN_MATCH && length > best.length {
                Match { length: length as usize, distance: (pos - candidate) as usize }
            } else {
                best
            };
            assert(is_match(window, pos, found));
            lemma_search(window, pos, links, next, left, found);
        }
    }
}

/// Once a match is as long as any can be, the rest of the chain does not
/// matter.
proof fn lemma_search_full(
    window: Seq<u8>,
    pos: int,
    links: Links,
    candidate: u32,
    walks: nat,
    best: Match,
)
    requires
        0 <= pos <= window.len(),
        best.length >= longest(window, pos),
    ensures
        search(window, pos, links, candidate, walks, best) == best,
    decreases walks,
{
    if candidate != NONE && walks > 0 {
        lemma_common(window, candidate as int, pos, 0, longest(window, pos));
        lemma_search_full(window, pos, links, links.prev(candidate), (walks - 1) as nat, best);
    }
}

/// How many of the first `k` positions, from `lo` on, have the hash.
pub open spec fn in_chain(window: Seq<u8>, lo: int, k: nat, hash: u32) -> nat
    decreases k,
{
    if k == 0 || k <= lo {
        0
    } else {
        in_chain(window, lo, (k - 1) as nat, hash) + (if hash::hash_at(window, k - 1) == hash {
            1nat
        } else {
            0nat
        })
    }
}

/// The match is longer than the one with the position `q`, or as long and no
/// farther back, where there is one with `q` at all.
pub open spec fn beats(window: Seq<u8>, pos: int, m: Match, q: int) -> bool {
    let length = common(window, q, pos, 0, longest(window, pos));
    length >= MIN_MATCH ==> m.length > length || (m.length == length && m.distance <= pos - q)
}

/// Positions with equal bytes have the same hash.
proof fn lemma_same_hash(window: Seq<u8>, q: int, pos: int)
    requires
        common(window, q, pos, 0, longest(window, pos)) >= MIN_MATCH,
        0 <= pos,
        pos + MIN_MATCH <= window.len(),
    ensures
        hash::hash_at(window, q) == hash::hash_at(window, pos),
{
    lemma_common(window, q, pos, 0, longest(window, pos));
    assert(window[pos + 0] == window[q + 0]);
    assert(window[pos + 1] == window[q + 1]);
    assert(window[pos + 2] == window[q + 2]);
}

proof fn lemma_in_chain(window: Seq<u8>, lo: int, k: nat, hash: u32)
    requires
        k <= NONE,
        0 <= lo,
    ensures
        ({
            let p = hash::latest(window, k, hash);
            if p == NONE || p < lo {
                in_chain(window, lo, k, hash) == 0
            } else {
                in_chain(window, lo, k, hash) == in_chain(window, lo, p as nat, hash) + 1
            }
        }),
    decreases k,
{
    if k > 0 {
        lemma_in_chain(window, lo, (k - 1) as nat, hash);
        hash::lemma_latest(window, (k - 1) as nat, hash);
    }
}

/// The farthest position in reach.
pub open spec fn reach_start(pos: int) -> int {
    if pos <= MAX_DISTANCE {
        0
    } else {
        pos - MAX_DISTANCE
    }
}

/// The walk goes on below `k`, where `best` is the best match with the positions
/// from `k` on.
proof fn lemma_search_longest(
    window: Seq<u8>,
    pos: int,
    upto: nat,
    k: nat,
    walks: nat,
    best: Match,
)
    requires
        0 <= pos,
        pos + MIN_MATCH <= window.len(),
        pos <= upto <= pos + 0x10000 - MAX_DISTANCE,
        k <= upto < NONE,
        walks >= in_chain(window, reach_start(pos), k, hash::hash_at(window, pos)),
        best.length > 0 ==> best.distance <= pos - k,
        forall|q: int| k <= q < pos ==> #[trigger] beats(window, pos, best, q),
    ensures
        ({
            let h = hash::hash_at(window, pos);
            let m = search(
                window,
                pos,
                hash::chains_upto(window, upto),
                hash::latest(window, k, h),
                walks,
                best,
            );
            forall|q: int|
                0 <= q < pos && pos - q <= MAX_DISTANCE ==> #[trigger] beats(window, pos, m, q)
        }),
    decreases walks,
{
    let h = hash::hash_at(window, pos);
    let links = hash::chains_upto(window, upto);
    let c = hash::latest(window, k, h);
    let lo = reach_start(pos);
    hash::lemma_latest(window, k, h);
    hash::lemma_chains(window, upto);
    lemma_in_chain(window, lo, k, h);
    let m = search(window, pos, links, c, walks, best);
    assert forall|q: int| 0 <= q < k && (c == NONE || q > c) implies #[trigger] beats(
        window,
        pos,
        best,
        q,
    ) by {
        if common(window, q, pos, 0, longest(window, pos)) >= MIN_MATCH {
            lemma_same_hash(window, q, pos);
        }
    }
    if c != NONE && c >= lo {
        assert(walks > 0);
        let left = (walks - 1) as nat;
        assert(links.prev(c) == hash::latest(window, c as nat, h));
        if c >= pos {
            lemma_search_longest(window, pos, upto, c as nat, left, best);
            assert(m == search(window, pos, links, links.prev(c), left, best));
        } else {
            let length = common(window, c as int, pos, 0, longest(window, pos));
            lemma_common(window, c as int, pos, 0, longest(window, pos));
            let found = if length >= MIN_MATCH && length > best.length {
                Match { length: length as usize, distance: (pos - c) as usize }
            } else {
                best
            };
            assert forall|q: int| c <= q < pos implies #[trigger] beats(
                window,
                pos,
                found,
                q,
            ) by {
                if q > c {
                    assert(beats(window, pos, best, q));
                }
            }
            lemma_search_longest(window, pos, upto, c as nat, left, found);
            assert(m == search(window, pos, links, links.prev(c), left, found));
        }
    } else {
        assert(m == best);
        assert forall|q: int| 0 <= q < pos && pos - q <= MAX_DISTANCE implies #[trigger] beats(
            window,
            pos,
            m,
            q,
        ) by {
            assert(beats(window, pos, best, q));
        }
    }
}

/// Where the chains hold every position before `pos`, and the walk may visit all
/// those of its hash that are in reach, the match that is found is the longest
/// one in reach, and of equally long ones the nearest.
pub proof fn lemma_longest_match(window: Seq<u8>, pos: int, upto: nat, walks: nat)
    requires
        0 <= pos,
        pos + MIN_MATCH <= window.len(),
        pos <= upto <= pos + 0x10000 - MAX_DISTANCE,
        upto < NONE,
        walks >= in_chain(window, reach_start(pos), upto, hash::hash_at(window, pos)),
    ensures
        ({
            let m = best_match(
                window,
                pos,
                hash::chains_upto(window, upto),
                hash::hash_at(window, pos),
                walks,
            );
            &&& is_match(window, pos, m)
            &&& forall|q: int|
                0 <= q < pos && pos - q <= MAX_DISTANCE ==> #[trigger] beats(window, pos, m, q)
        }),
{
    let h = hash::hash_at(window, pos);
    let links = hash::chains_upto(window, upto);
    let none = Match { length: 0, distance: 0 };
    hash::lemma_chains(window, upto);
    hash::lemma_hash_bound(window[pos], window[pos + 1], window[pos + 2]);
    lemma_search(window, pos, links, links.head(h), walks, none);
    lemma_search_longest(window, pos, upto, upto, walks, none);
}

/// A walk only ever finds longer matches.
proof fn lemma_search_grows(
    window: Seq<u8>,
    pos: int,
    links: Links,
    candidate: u32,
    walks: nat,
    best: Match,
)
    requires
        0 <= pos <= window.len(),
    ensures
        ({
            let m = search(window, pos, links, candidate, walks, best);
            m == best || m.length > best.length
        }),
    decreases walks,
{
    if candidate != NONE && walks > 0 {
        let next = links.prev(candidate);
        let left = (walks - 1) as nat;
        let length = common(window, candidate as int, pos, 0, longest(window, pos));
        lemma_common(window, candidate as int, pos, 0, longest(window, pos));
        let found = Match { length: length as usize, distance: (pos - candidate) as usize };
        lemma_search_grows(window, pos, links, next, left, best);
        lemma_search_grows(window, pos, links, next, left, found);
    }
}

/// The walk goes on below `k` and comes to `q`.
proof fn lemma_search_reaches(
    window: Seq<u8>,
    pos: int,
    upto: nat,
    k: nat,
    walks: nat,
    best: Match,
    q: int,
)
    requires
        0 <= q < pos,
        pos - q <= MAX_DISTANCE,
        pos + MIN_MATCH <= window.len(),
        pos <= upto <= pos + 0x10000 - MAX_DISTANCE,
        q < k <= upto < NONE,
        walks >= in_chain(window, q, k, hash::hash_at(window, pos)),
        common(window, q, pos, 0, longest(window, pos)) >= MIN_MATCH,
        best.length > 0 ==> best.distance <= pos - k || best.distance <= pos - q,
    ensures
        ({
            let h = hash::hash_at(window, pos);
            let m = search(
                window,
                pos,
                hash::chains_upto(window, upto),
                hash::latest(window, k, h),
                walks,
                best,
            );
            beats(window, pos, m, q)
        }),
    decreases walks,
{
    let h = hash::hash_at(window, pos);
    let links = hash::chains_upto(window, upto);
    let c = hash::latest(window, k, h);
    hash::lemma_latest(window, k, h);
    hash::lemma_chains(window, upto);
    lemma_in_chain(window, q, k, h);
    lemma_same_hash(window, q, pos);
    assert(c != NONE && c >= q);
    let left = (walks - 1) as nat;
    assert(links.prev(c) == hash::latest(window, c as nat, h));
    if c >= pos {
        lemma_search_reaches(window, pos, upto, c as nat, left, best, q);
    } else {
        let length = common(window, c as int, pos, 0, longest(window, pos));
        lemma_common(window, c as int, pos, 0, longest(window, pos));
        let found = if length >= MIN_MATCH && length > best.length {
            Match { length: length as usize, distance: (pos - c) as usize }
        } else {
            best
        };
        if c == q {
            lemma_search_grows(window, pos, links, links.prev(c), left, found);
        } else {
            lemma_search_reaches(window, pos, upto, c as nat, left, found, q);
        }
    }
}

/// The match that is found is as long as the one with any position in reach that
/// the walk comes to, or longer, and of equally long ones no farther back. The
/// walk comes to a position where from there on no more than `walks` positions
/// have the hash.
pub proof fn lemma_walk_reaches(window: Seq<u8>, pos: int, upto: nat, walks: nat, q: int)
    requires
        0 <= q < pos,
        pos - q <= MAX_DISTANCE,
        pos + MIN_MATCH <= window.len(),
        pos <= upto <= pos + 0x10000 - MAX_DISTANCE,
        upto < NONE,
        walks >= in_chain(window, q, upto, hash::hash_at(window, pos)),
    ensures
        beats(
            window,
            pos,
            best_match(
                window,
                pos,
                hash::chains_upto(window, upto),
                hash::hash_at(window, pos),
                walks,
            ),
            q,
        ),
{
    let h = hash::hash_at(window, pos);
    let none = Match { length: 0, distance: 0 };
    hash::lemma_chains(window, upto);
    hash::lemma_hash_bound(window[pos], window[pos + 1], window[pos + 2]);
    if common(window, q, pos, 0, longest(window, pos)) >= MIN_MATCH {
        lemma_search_reaches(window, pos, upto, upto, walks, none, q);
    }
}

/// Find the best match at `pos` with earlier positions, of which the first
/// `max_chain_walks` on the chain of `hash` are looked at.
pub fn find_longest_match(
    window: &[u8],
    pos: usize,
    chains: &HashChains,
    hash: u32,
    max_chain_walks: usize,
) -> (m: Match)
    requires
        chains.wf(),
        pos <= usize::MAX - MIN_MATCH,
    ensures
        m == best_match(window@, pos as int, chains.links(), hash, max_chain_walks as nat),
        is_match(window@, pos as int, m),
{
    if pos + MIN_MATCH > window.len() {
        return Match::none();
    }
    let n: usize = window.len();
    let left: usize = n - pos;
    let max_len: usize = if left <= MAX_MATCH {
        left
    } else {
        MAX_MATCH
    };
    let mut best = Match::none();
    let mut walks: usize = 0;
    let mut candidate: u32 = chains.head(hash);
    let ghost whole = best_match(
        window@,
        pos as int,
        chains.links(),
        hash,
        max_chain_walks as nat,
    );
    while candidate != NONE && walks < max_chain_walks
        invariant
            chains.wf(),
            pos + MIN_MATCH <= window@.len() == n,
            max_len == longest(window@, pos as int),
            walks <= max_chain_walks,
            best.length < max_len,
            is_match(window@, pos as int, best),
            whole == best_match(
                window@,
                pos as int,
                chains.links(),
                hash,
                max_chain_walks as nat,
            ),
            whole == search(
                window@,
                pos as int,
                chains.links(),
                candidate,
                (max_chain_walks - walks) as nat,
                best,
            ),
        decreases max_chain_walks - walks,
    {
        let cand: usize = candidate as usize;
        if cand < pos {
            let dist: usize = pos - cand;
            if dist > MAX_DISTANCE {
                return best;
            }
            let ghost length = common(window@, cand as int, pos as int, 0, max_len as nat);
            proof {
                lemma_common(window@, cand as int, pos as int, 0, max_len as nat);
            }
            // A longer match than the best one has the byte behind that one's
            // length in common.
            if window[cand + best.length] == window[pos + best.length] {
                let mut len: usize = 0;
                while len < max_len && window[cand + len] == window[pos + len]
                    invariant
                        len <= max_len,
                        cand < pos,
                        pos + max_len <= window@.len() == n,
                        length == common(
                            window@,
                            cand as int,
                            pos as int,
                            len as nat,
                            max_len as nat,
                        ),
                    decreases max_len - len,
                {
                    len += 1;
                }
                if len >= MIN_MATCH && len > best.length {
                    best = Match { length: len, distance: dist };
                    assert(is_match(window@, pos as int, best));
                    if len >= max_len {
                        proof {
                            lemma_search_full(
                                window@,
                                pos as int,
                                chains.links(),
                                chains.links().prev(candidate),
                                (max_chain_walks - walks - 1) as nat,
                                best,
                            );
                        }
                        return best;
                    }
                }
            }
        }
        candidate = chains.prev(candidate);
        walks += 1;
    }
    best
}

} // verus!
