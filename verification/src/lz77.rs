//! Turns bytes into literals and matches.

use vstd::prelude::*;

use crate::constants::{LevelParams, MAX_MATCH, MIN_MATCH};
use crate::decoder;
use crate::hash::{hash3, HashChains};
use crate::hash;
use crate::matcher::{find_longest_match, Match};
use crate::matcher;

verus! {

/// One byte, or a repetition of bytes before.
#[derive(Debug, Clone, Copy, PartialEq, Eq, Structural)]
pub enum Token {
    Literal(u8),
    /// A distance of zero is that of the match before.
    Match { length: u16, distance: u16 },
}

/// How many bytes a token stands for.
pub open spec fn token_len(t: Token) -> nat {
    match t {
        Token::Literal(_) => 1,
        Token::Match { length, .. } => length as nat,
    }
}

/// How many bytes tokens stand for.
pub open spec fn source_len(tokens: Seq<Token>) -> nat
    decreases tokens.len(),
{
    if tokens.len() == 0 {
        0
    } else {
        source_len(tokens.drop_last()) + token_len(tokens.last())
    }
}

/// The bytes after a token, and the distance of the last match.
pub open spec fn apply(history: Seq<u8>, last: nat, t: Token) -> (Seq<u8>, nat) {
    match t {
        Token::Literal(b) => (history.push(b), last),
        Token::Match { length, distance } => {
            let d = if distance == 0 {
                last
            } else {
                distance as nat
            };
            (decoder::repeat(history, d, length as nat), d)
        },
    }
}

/// The bytes after tokens, and the distance of the last match.
pub open spec fn apply_all(history: Seq<u8>, last: nat, tokens: Seq<Token>) -> (Seq<u8>, nat)
    decreases tokens.len(),
{
    if tokens.len() == 0 {
        (history, last)
    } else {
        let (h, l) = apply(history, last, tokens[0]);
        apply_all(h, l, tokens.drop_first())
    }
}

/// A token that a block can hold.
pub open spec fn token_ok(t: Token) -> bool {
    t matches Token::Match { length, .. } ==> MIN_MATCH <= length <= MAX_MATCH
}

/// How many chain links a level follows.
pub open spec fn walks_of(level: LevelParams) -> nat {
    if level.multi_step {
        1024
    } else if level.lazy_threshold >= 7 {
        128
    } else {
        16
    }
}

/// How many positions are in the hash chains once `pos` is, where the last two
/// bytes have no hash.
pub open spec fn hashed_for(input: Seq<u8>, pos: nat) -> nat {
    if pos + 3 <= input.len() {
        pos + 1
    } else if input.len() >= 2 {
        (input.len() - 2) as nat
    } else {
        0
    }
}

/// The best match at `pos`.
pub open spec fn match_at(input: Seq<u8>, pos: nat, walks: nat) -> Match {
    let p = pos as int;
    matcher::best_match(
        input,
        p,
        hash::chains_upto(input, hashed_for(input, pos)),
        hash::hash_of(input[p], input[p + 1], input[p + 2]),
        walks,
    )
}

/// The match is short enough for a look at the next position.
pub open spec fn tries_lazy(m: Match, level: LevelParams) -> bool {
    m.length - MIN_MATCH < level.lazy_threshold && m.length < MAX_MATCH
}

/// The match at the next position is longer, and not a short one far back.
pub open spec fn lazy_wins(input: Seq<u8>, pos: nat, walks: nat, m: Match) -> bool {
    let next = match_at(input, pos + 1, walks);
    &&& pos + 1 + MIN_MATCH <= input.len()
    &&& next.length >= MIN_MATCH
    &&& !(next.length == MIN_MATCH && next.distance > 29_999)
    &&& next.length > m.length
}

/// At `pos` stands a match, not a literal.
pub open spec fn takes_match(input: Seq<u8>, level: LevelParams, pos: nat) -> bool {
    let m = match_at(input, pos, walks_of(level));
    &&& pos + MIN_MATCH <= input.len()
    &&& m.length >= MIN_MATCH
    &&& !(tries_lazy(m, level) && lazy_wins(input, pos, walks_of(level), m))
}

/// The tokens from `pos` on.
pub open spec fn tokens_from(input: Seq<u8>, level: LevelParams, pos: nat) -> Seq<Token>
    decreases input.len() - pos,
{
    if pos >= input.len() {
        Seq::empty()
    } else {
        proof {
            lemma_match_at(input, pos, walks_of(level));
        }
        let m = match_at(input, pos, walks_of(level));
        if takes_match(input, level, pos) {
            seq![Token::Match { length: m.length as u16, distance: m.distance as u16 }]
                + tokens_from(input, level, pos + m.length as nat)
        } else {
            seq![Token::Literal(input[pos as int])] + tokens_from(input, level, pos + 1)
        }
    }
}

/// A match that is found is a match.
pub proof fn lemma_match_at(input: Seq<u8>, pos: nat, walks: nat)
    requires
        pos < input.len(),
    ensures
        matcher::is_match(input, pos as int, match_at(input, pos, walks)),
{
    let p = pos as int;
    let links = hash::chains_upto(input, hashed_for(input, pos));
    let h = hash::hash_of(input[p], input[p + 1], input[p + 2]);
    matcher::lemma_search(
        input,
        p,
        links,
        links.head(h),
        walks,
        Match { length: 0, distance: 0 },
    );
}

proof fn lemma_repeat_match(input: Seq<u8>, pos: nat, m: Match, length: nat)
    requires
        matcher::is_match(input, pos as int, m),
        0 < m.length,
        length <= m.length,
    ensures
        decoder::repeat(input.take(pos as int), m.distance as nat, length) == input.take(
            (pos + length) as int,
        ),
    decreases length,
{
    if length > 0 {
        let k = (length - 1) as nat;
        lemma_repeat_match(input, pos, m, k);
        let before = input.take((pos + k) as int);
        assert(input[(pos + k) as int] == input[pos - m.distance + k]);
        assert(before.push(decoder::at(before, m.distance as nat)) =~= input.take(
            (pos + length) as int,
        ));
    }
}

/// The tokens stand for the bytes that they were made from: taken in order,
/// they give those bytes back.
pub proof fn lemma_tokens_expand(input: Seq<u8>, level: LevelParams, pos: nat, last: nat)
    requires
        pos <= input.len(),
    ensures
        apply_all(input.take(pos as int), last, tokens_from(input, level, pos)).0 == input,
    decreases input.len() - pos,
{
    let tokens = tokens_from(input, level, pos);
    if pos == input.len() {
        assert(input.take(pos as int) =~= input);
    } else {
        let m = match_at(input, pos, walks_of(level));
        lemma_match_at(input, pos, walks_of(level));
        if takes_match(input, level, pos) {
            let next = pos + m.length as nat;
            lemma_repeat_match(input, pos, m, m.length as nat);
            lemma_tokens_expand(input, level, next, m.distance as nat);
            assert(tokens.drop_first() =~= tokens_from(input, level, next));
        } else {
            assert(input.take(pos as int).push(input[pos as int]) =~= input.take((pos + 1) as int));
            lemma_tokens_expand(input, level, pos + 1, last);
            assert(tokens.drop_first() =~= tokens_from(input, level, pos + 1));
        }
    }
}

/// Bytes that a token adds to those that tokens behind it stand for.
pub proof fn lemma_source_len_front(t: Token, rest: Seq<Token>)
    ensures
        source_len(seq![t] + rest) == token_len(t) + source_len(rest),
    decreases rest.len(),
{
    let all = seq![t] + rest;
    if rest.len() == 0 {
        assert(all.drop_last() =~= Seq::<Token>::empty());
        assert(source_len(Seq::<Token>::empty()) == 0);
    } else {
        lemma_source_len_front(t, rest.drop_last());
        assert(all.drop_last() =~= seq![t] + rest.drop_last());
    }
}

/// Every token is one that a block can hold, and reaches back no farther than
/// to the first byte.
pub proof fn lemma_tokens_ok(input: Seq<u8>, level: LevelParams, pos: nat)
    requires
        pos <= input.len(),
    ensures
        forall|i: int|
            0 <= i < tokens_from(input, level, pos).len() ==> token_ok(
                #[trigger] tokens_from(input, level, pos)[i],
            ) && (tokens_from(input, level, pos)[i] matches Token::Match { distance, .. } ==> 1
                <= distance <= matcher::MAX_DISTANCE && distance <= pos + source_len(
                tokens_from(input, level, pos).take(i),
            )),
    decreases input.len() - pos,
{
    let tokens = tokens_from(input, level, pos);
    if pos < input.len() {
        let m = match_at(input, pos, walks_of(level));
        lemma_match_at(input, pos, walks_of(level));
        let next: nat = if takes_match(input, level, pos) {
            pos + m.length as nat
        } else {
            pos + 1
        };
        lemma_tokens_ok(input, level, next);
        let rest = tokens_from(input, level, next);
        assert forall|i: int| 0 <= i < tokens.len() implies token_ok(#[trigger] tokens[i]) && (
        tokens[i] matches Token::Match { distance, .. } ==> 1 <= distance
            <= matcher::MAX_DISTANCE && distance <= pos + source_len(tokens.take(i))) by {
            if i > 0 {
                assert(tokens[i] == rest[i - 1]);
                lemma_source_len_front(tokens[0], rest.take(i - 1));
                assert(tokens.take(i) =~= seq![tokens[0]] + rest.take(i - 1));
            } else {
                assert(tokens.take(0) =~= Seq::<Token>::empty());
            }
        }
    }
}

/// The `l` bytes at `pos` stand at `q` before it too, within reach of a match.
pub open spec fn occurs(input: Seq<u8>, pos: int, q: int, l: int) -> bool {
    &&& 0 <= q < pos
    &&& pos - q <= 0xfefc
    &&& 3 <= l <= 258
    &&& pos + l <= input.len()
    &&& forall|i: int| 0 <= i < l ==> #[trigger] input[q + i] == input[pos + i]
}

/// From `q` on up to `pos`, no more than `walks` positions have the hash that
/// `pos` has.
pub open spec fn near(input: Seq<u8>, pos: int, q: int, walks: nat) -> bool {
    matcher::in_chain(input, q, (pos + 1) as nat, hash::hash_at(input, pos)) <= walks
}

proof fn lemma_occurs(input: Seq<u8>, pos: int, q: int, l: int, walks: nat)
    requires
        occurs(input, pos, q, l),
        near(input, pos, q, walks),
        input.len() < hash::NONE,
    ensures
        ({
            let m = match_at(input, pos as nat, walks);
            m.length >= l && (m.length == l ==> m.distance <= pos - q)
        }),
{
    let max = matcher::longest(input, pos);
    lemma_common_covers(input, q, pos, 0, l as nat, max);
    matcher::lemma_common(input, q, pos, 0, max);
    matcher::lemma_walk_reaches(input, pos, (pos + 1) as nat, walks, q);
}

proof fn lemma_common_covers(input: Seq<u8>, q: int, pos: int, k: nat, l: nat, max: nat)
    requires
        k <= l <= max,
        forall|i: int| 0 <= i < l ==> #[trigger] input[q + i] == input[pos + i],
    ensures
        matcher::common(input, q, pos, k, max) >= l,
    decreases l - k,
{
    if k < l {
        assert(input[q + k] == input[pos + k]);
        lemma_common_covers(input, q, pos, k + 1, l, max);
    } else {
        lemma_common_grows(input, q, pos, k, max);
    }
}

proof fn lemma_common_grows(input: Seq<u8>, q: int, pos: int, k: nat, max: nat)
    ensures
        matcher::common(input, q, pos, k, max) >= k,
    decreases max - k,
{
    if k < max && input[q + k] == input[pos + k] {
        lemma_common_grows(input, q, pos, k + 1, max);
    }
}

/// Every level follows at least two links, of which the first is the position
/// itself. A level with a higher threshold, or more steps, follows no fewer.
pub proof fn lemma_walks(a: LevelParams, b: LevelParams)
    ensures
        2 <= walks_of(a),
        a.lazy_threshold <= b.lazy_threshold && (a.multi_step ==> b.multi_step) ==> walks_of(a)
            <= walks_of(b),
        a.multi_step ==> walks_of(a) == 1024,
        !a.multi_step && a.lazy_threshold >= 7 ==> walks_of(a) == 128,
        !a.multi_step && a.lazy_threshold < 7 ==> walks_of(a) == 16,
{
}

/// What the first token stands for comes before what the others do.
pub proof fn lemma_first_token(input: Seq<u8>, level: LevelParams, pos: nat)
    requires
        pos < input.len(),
    ensures
        tokens_from(input, level, pos).len() > 0,
        tokens_from(input, level, pos)[0] matches Token::Literal(b) ==> b == input[pos as int],
        tokens_from(input, level, pos)[0] matches Token::Match { length, distance } ==> occurs(
            input,
            pos as int,
            pos - distance,
            length as int,
        ),
        tokens_from(input, level, pos).drop_first() == tokens_from(
            input,
            level,
            pos + token_len(tokens_from(input, level, pos)[0]),
        ),
{
    let tokens = tokens_from(input, level, pos);
    let m = match_at(input, pos, walks_of(level));
    lemma_match_at(input, pos, walks_of(level));
    if takes_match(input, level, pos) {
        assert(tokens.drop_first() =~= tokens_from(input, level, pos + m.length as nat));
        assert forall|i: int| 0 <= i < m.length implies #[trigger] input[pos - m.distance + i]
            == input[pos + i] by {
            assert(input[pos + i] == input[pos - m.distance + i]);
        }
    } else {
        assert(tokens.drop_first() =~= tokens_from(input, level, pos + 1));
    }
}

/// Where bytes stood before, near enough for the level to come to them, a match
/// stands that is as long or longer, and of equally long ones no farther back.
/// The exception is a match that is shorter than the level takes at once, where
/// the next position has a longer one: there the byte itself stands.
pub proof fn lemma_match_stands(input: Seq<u8>, level: LevelParams, pos: nat, q: int, l: int)
    requires
        occurs(input, pos as int, q, l),
        near(input, pos as int, q, walks_of(level)),
        input.len() < hash::NONE,
    ensures
        match tokens_from(input, level, pos)[0] {
            Token::Match { length, distance } => {
                &&& length >= l
                &&& length == l ==> distance <= pos - q
            },
            Token::Literal(_) => {
                &&& l < 258
                &&& l - 3 < level.lazy_threshold
                &&& exists|r: int, k: int| k > l && #[trigger] occurs(input, (pos + 1) as int, r, k)
            },
        },
{
    lemma_occurs(input, pos as int, q, l, walks_of(level));
    lemma_match_at(input, pos, walks_of(level));
    if !takes_match(input, level, pos) {
        let next = match_at(input, pos + 1, walks_of(level));
        lemma_match_at(input, pos + 1, walks_of(level));
        assert forall|i: int| 0 <= i < next.length implies #[trigger] input[pos + 1
            - next.distance + i] == input[pos + 1 + i] by {
            assert(input[(pos + 1) as int + i] == input[(pos + 1) as int - next.distance + i]);
        }
        assert(occurs(input, (pos + 1) as int, pos + 1 - next.distance, next.length as int));
    }
}

/// A match that is shorter than the level takes at once does not stand where the
/// next position has a longer one that the level comes to.
pub proof fn lemma_longer_next(input: Seq<u8>, level: LevelParams, pos: nat, r: int, k: int)
    requires
        pos < input.len(),
        occurs(input, (pos + 1) as int, r, k),
        near(input, (pos + 1) as int, r, walks_of(level)),
        input.len() < hash::NONE,
    ensures
        tokens_from(input, level, pos)[0] matches Token::Match { length, .. } ==> length >= k
            || length - 3 >= level.lazy_threshold,
{
    lemma_occurs(input, (pos + 1) as int, r, k, walks_of(level));
    lemma_match_at(input, pos, walks_of(level));
}

/// Where the three bytes at a position have not stood before within reach, the
/// byte itself stands.
pub proof fn lemma_literal_stands(input: Seq<u8>, level: LevelParams, pos: nat)
    requires
        pos < input.len(),
        forall|q: int| !#[trigger] occurs(input, pos as int, q, 3),
    ensures
        tokens_from(input, level, pos)[0] == Token::Literal(input[pos as int]),
{
    let m = match_at(input, pos, walks_of(level));
    lemma_match_at(input, pos, walks_of(level));
    if takes_match(input, level, pos) {
        assert forall|i: int| 0 <= i < 3 implies #[trigger] input[pos - m.distance + i]
            == input[pos + i] by {
            assert(input[pos + i] == input[pos - m.distance + i]);
        }
        assert(occurs(input, pos as int, pos - m.distance, 3));
    }
}

/// How many chain links a level follows.
fn chain_walks(level: &LevelParams) -> (n: usize)
    ensures
        n == walks_of(*level),
{
    if level.multi_step {
        1024
    } else if level.lazy_threshold >= 7 {
        128
    } else {
        16
    }
}

/// Enter the positions up to `target` into the hash chains.
fn ensure_hashed(input: &[u8], chains: &mut HashChains, hashed_up_to: &mut usize, target: usize)
    requires
        old(chains).wf(),
        old(chains).links() == hash::chains_upto(input@, *old(hashed_up_to) as nat),
        target < input@.len(),
    ensures
        final(chains).wf(),
        final(chains).links() == hash::chains_upto(input@, *final(hashed_up_to) as nat),
        *final(hashed_up_to) == (if *old(hashed_up_to) >= hashed_for(input@, target as nat) {
            *old(hashed_up_to) as int
        } else {
            hashed_for(input@, target as nat) as int
        }),
{
    let n = input.len();
    let limit: usize = if n - target >= 3 {
        target + 1
    } else if n >= 2 {
        n - 2
    } else {
        0
    };
    while *hashed_up_to < limit
        invariant
            n == input@.len(),
            limit == hashed_for(input@, target as nat),
            limit + 2 <= n || limit == 0,
            chains.wf(),
            chains.links() == hash::chains_upto(input@, *hashed_up_to as nat),
            *hashed_up_to == *old(hashed_up_to) || *hashed_up_to <= limit,
            *old(hashed_up_to) <= *hashed_up_to,
        decreases limit - *hashed_up_to,
    {
        let p: usize = *hashed_up_to;
        let h = hash3(input[p], input[p + 1], input[p + 2]);
        chains.insert(h, p as u32);
        *hashed_up_to = p + 1;
    }
}

fn should_try_lazy(curr: &Match, level: &LevelParams) -> (b: bool)
    requires
        MIN_MATCH <= curr.length <= MAX_MATCH,
    ensures
        b == tries_lazy(*curr, *level),
{
    let excess: u16 = (curr.length - MIN_MATCH) as u16;
    excess < level.lazy_threshold && curr.length < MAX_MATCH
}

fn lazy_better(
    input: &[u8],
    chains: &mut HashChains,
    hashed_up_to: &mut usize,
    pos: usize,
    walks: usize,
    curr: &Match,
) -> (b: bool)
    requires
        old(chains).wf(),
        pos + MIN_MATCH <= input@.len(),
        *old(hashed_up_to) == hashed_for(input@, pos as nat),
        old(chains).links() == hash::chains_upto(input@, *old(hashed_up_to) as nat),
    ensures
        final(chains).wf(),
        b == lazy_wins(input@, pos as nat, walks as nat, *curr),
        final(chains).links() == hash::chains_upto(input@, *final(hashed_up_to) as nat),
        *final(hashed_up_to) <= hashed_for(input@, (pos + 1) as nat),
{
    let next_pos: usize = pos + 1;
    if input.len() - next_pos < MIN_MATCH {
        return false;
    }
    ensure_hashed(input, chains, hashed_up_to, next_pos);
    let h_next = hash3(input[next_pos], input[next_pos + 1], input[next_pos + 2]);
    let next = find_longest_match(input, next_pos, chains, h_next, walks);
    if !next.is_useful() {
        return false;
    }
    if next.length == MIN_MATCH && next.distance > 29_999 {
        return false;
    }
    next.length > curr.length
}

/// Turn bytes into tokens.
pub fn encode(input: &[u8], level: &LevelParams) -> (tokens: Vec<Token>)
    ensures
        tokens@ == tokens_from(input@, *level, 0),
{
    let mut chains = HashChains::new();
    let mut tokens: Vec<Token> = Vec::new();
    let walks = chain_walks(level);
    let mut hashed_up_to: usize = 0;
    let mut pos: usize = 0;
    let ghost all = tokens_from(input@, *level, 0);
    assert(tokens@ + all =~= all);
    let n = input.len();
    while pos < n
        invariant
            n == input@.len(),
            pos <= n,
            walks == walks_of(*level),
            chains.wf(),
            chains.links() == hash::chains_upto(input@, hashed_up_to as nat),
            hashed_up_to <= hashed_for(input@, pos as nat),
            all == tokens_from(input@, *level, 0),
            all == tokens@ + tokens_from(input@, *level, pos as nat),
        decreases n - pos,
    {
        let ghost before = tokens@;
        let ghost rest = tokens_from(input@, *level, pos as nat);
        let ghost at = pos as nat;
        ensure_hashed(input, &mut chains, &mut hashed_up_to, pos);
        let mut matched = false;
        let mut curr = Match::none();
        if n - pos >= MIN_MATCH {
            let h_curr = hash3(input[pos], input[pos + 1], input[pos + 2]);
            curr = find_longest_match(input, pos, &chains, h_curr, walks);
            matched = curr.is_useful() && !(should_try_lazy(&curr, level) && lazy_better(
                input,
                &mut chains,
                &mut hashed_up_to,
                pos,
                walks,
                &curr,
            ));
        }
        if matched {
            tokens.push(
                Token::Match { length: curr.length as u16, distance: curr.distance as u16 },
            );
            let end: usize = pos + curr.length;
            ensure_hashed(input, &mut chains, &mut hashed_up_to, end - 1);
            pos = end;
        } else {
            tokens.push(Token::Literal(input[pos]));
            pos += 1;
        }
        proof {
            let t = tokens@.last();
            let next = tokens_from(input@, *level, pos as nat);
            assert(rest =~= seq![t] + next);
            assert(before + rest =~= tokens@ + next);
        }
    }
    assert(tokens@ =~= all);
    tokens
}

} // verus!
