//! Three-byte hash and hash chains.

use vstd::prelude::*;

verus! {

pub const HASH_BITS: u32 = 15;

pub const HASH_SIZE: usize = 0x8000;

pub const HASH_MASK: u32 = 0x7fff;

/// No position.
pub const NONE: u32 = 0xffff_ffff;

/// The hash of three bytes: each one, shifted five bits per byte behind it,
/// combined by exclusive or, and cut to 15 bits.
pub open spec fn hash_of(b0: u8, b1: u8, b2: u8) -> u32 {
    ((((b0 as u16) << 5 ^ b1 as u16) << 5 ^ b2 as u16) as u32) & HASH_MASK
}

/// The hash of three bytes.
pub fn hash3(b0: u8, b1: u8, b2: u8) -> (h: u32)
    ensures
        h == hash_of(b0, b1, b2),
        h < HASH_SIZE,
{
    let h: u16 = ((b0 as u16) << 5 ^ b1 as u16) << 5 ^ b2 as u16;
    let wide: u32 = h as u32;
    assert(wide & 0x7fff < 0x8000) by (bit_vector);
    wide & HASH_MASK
}

/// What hash chains hold: the latest position of each hash, and for each
/// position, by its low 16 bits, the one of the same hash before it.
#[verifier::ext_equal]
pub struct Links {
    pub heads: Seq<u32>,
    pub prevs: Seq<u32>,
}

impl Links {
    pub open spec fn none() -> Links {
        Links {
            heads: Seq::new(HASH_SIZE as nat, |i: int| NONE),
            prevs: Seq::new(0x10000, |i: int| NONE),
        }
    }

    /// There is a head for every hash, and a link for every position in the
    /// window.
    pub open spec fn wf(self) -> bool {
        &&& self.heads.len() == HASH_SIZE
        &&& self.prevs.len() == 0x10000
    }

    pub open spec fn head(self, hash: u32) -> u32 {
        self.heads[hash as int % 0x8000]
    }

    pub open spec fn prev(self, pos: u32) -> u32 {
        self.prevs[pos as int % 0x10000]
    }

    pub open spec fn insert(self, hash: u32, pos: u32) -> Links {
        Links {
            heads: self.heads.update(hash as int % 0x8000, pos),
            prevs: self.prevs.update(pos as int % 0x10000, self.head(hash)),
        }
    }
}

/// Hash chains. Positions that are 64 KB or more apart share a link, and the
/// later one keeps it.
pub struct HashChains {
    head: Vec<u32>,
    prev: Vec<u32>,
}

impl HashChains {
    pub open spec fn wf(&self) -> bool {
        self.links().wf()
    }

    /// What the chains hold.
    pub closed spec fn links(&self) -> Links {
        Links { heads: self.head@, prevs: self.prev@ }
    }

    pub fn new() -> (c: Self)
        ensures
            c.wf(),
            c.links() == Links::none(),
    {
        let c = HashChains { head: vec![NONE; HASH_SIZE], prev: vec![NONE; 0x10000] };
        assert(c.links() =~= Links::none());
        c
    }

    /// Make a position the latest of its hash.
    pub fn insert(&mut self, hash: u32, pos: u32)
        requires
            old(self).wf(),
        ensures
            final(self).wf(),
            final(self).links() == old(self).links().insert(hash, pos),
    {
        let h: usize = (hash % 0x8000) as usize;
        let before: u32 = self.head[h];
        self.head[h] = pos;
        self.prev[(pos % 0x10000) as usize] = before;
    }

    /// The latest position of a hash, or `NONE`.
    pub fn head(&self, hash: u32) -> (pos: u32)
        requires
            self.wf(),
        ensures
            pos == self.links().head(hash),
    {
        self.head[(hash % 0x8000) as usize]
    }

    /// The position before `pos` of the same hash, or `NONE`.
    pub fn prev(&self, pos: u32) -> (before: u32)
        requires
            self.wf(),
        ensures
            before == self.links().prev(pos),
    {
        self.prev[(pos % 0x10000) as usize]
    }
}

impl Default for HashChains {
    fn default() -> (c: Self)
        ensures
            c.wf(),
            c.links() == Links::none(),
    {
        Self::new()
    }
}

/// After an insertion the position heads its chain, and the former head comes
/// next. The other heads, and the links of positions that do not share its own,
/// are as they were.
pub proof fn lemma_insert(links: Links, hash: u32, pos: u32)
    requires
        links.wf(),
    ensures
        links.insert(hash, pos).wf(),
        links.insert(hash, pos).head(hash) == pos,
        links.insert(hash, pos).prev(pos) == links.head(hash),
        forall|h: u32|
            h % 0x8000 != hash % 0x8000 ==> #[trigger] links.insert(hash, pos).head(h)
                == links.head(h),
        forall|p: u32|
            p % 0x10000 != pos % 0x10000 ==> #[trigger] links.insert(hash, pos).prev(p)
                == links.prev(p),
{
}

/// The hash of the three bytes at a position.
pub open spec fn hash_at(input: Seq<u8>, pos: int) -> u32 {
    hash_of(input[pos], input[pos + 1], input[pos + 2])
}

/// The hash chains of the first `k` positions.
pub open spec fn chains_upto(input: Seq<u8>, k: nat) -> Links
    decreases k,
{
    if k == 0 {
        Links::none()
    } else {
        chains_upto(input, (k - 1) as nat).insert(hash_at(input, k - 1), (k - 1) as u32)
    }
}

/// The last of the first `k` positions that has the hash, or `NONE`.
pub open spec fn latest(input: Seq<u8>, k: nat, hash: u32) -> u32
    decreases k,
{
    if k == 0 {
        NONE
    } else if hash_at(input, k - 1) == hash {
        (k - 1) as u32
    } else {
        latest(input, (k - 1) as nat, hash)
    }
}

pub proof fn lemma_hash_bound(b0: u8, b1: u8, b2: u8)
    ensures
        hash_of(b0, b1, b2) < HASH_SIZE,
{
    let wide: u32 = (((b0 as u16) << 5 ^ b1 as u16) << 5 ^ b2 as u16) as u32;
    assert(wide & 0x7fff < 0x8000) by (bit_vector);
}

/// Where only the last byte differs, or only the one in the middle, so does the
/// hash. Of the first byte the hash has the low five bits.
pub proof fn lemma_hash_differs(a: u8, b: u8, c: u8, x: u8)
    ensures
        hash_of(a, b, c) == hash_of(a, b, x) <==> c == x,
        hash_of(a, b, c) == hash_of(a, x, c) <==> b == x,
        hash_of(a, b, c) == hash_of(x, b, c) <==> a % 32 == x % 32,
{
    lemma_hash_bits(a, b, c, x);
}

proof fn lemma_hash_bits(a: u8, b: u8, c: u8, x: u8)
    by (bit_vector)
    ensures
        hash_of(a, b, c) == hash_of(a, b, x) <==> c == x,
        hash_of(a, b, c) == hash_of(a, x, c) <==> b == x,
        hash_of(a, b, c) == hash_of(x, b, c) <==> a % 32 == x % 32,
{
}

pub proof fn lemma_latest(input: Seq<u8>, k: nat, hash: u32)
    requires
        k <= NONE,
    ensures
        latest(input, k, hash) != NONE ==> latest(input, k, hash) < k && hash_at(
            input,
            latest(input, k, hash) as int,
        ) == hash,
        forall|p: int|
            0 <= p < k && (latest(input, k, hash) == NONE || p > latest(input, k, hash))
                ==> #[trigger] hash_at(input, p) != hash,
    decreases k,
{
    if k > 0 {
        lemma_latest(input, (k - 1) as nat, hash);
    }
}

/// The chains lead from each hash to its last position, and from a position that
/// is still in the window to the last one of the same hash before it.
pub proof fn lemma_chains(input: Seq<u8>, k: nat)
    requires
        k <= NONE,
    ensures
        chains_upto(input, k).wf(),
        forall|h: u32|
            h < HASH_SIZE ==> #[trigger] chains_upto(input, k).head(h) == latest(input, k, h),
        forall|p: u32|
            p < k <= p + 0x10000 ==> #[trigger] chains_upto(input, k).prev(p) == latest(
                input,
                p as nat,
                hash_at(input, p as int),
            ),
    decreases k,
{
    if k > 0 {
        let m = (k - 1) as nat;
        let q = m as u32;
        let h = hash_at(input, m as int);
        lemma_chains(input, m);
        lemma_hash_bound(input[k - 1], input[k as int], input[k as int + 1]);
        lemma_insert(chains_upto(input, m), h, q);
        assert forall|p: u32| p < k <= p + 0x10000 implies #[trigger] chains_upto(input, k).prev(p)
            == latest(input, p as nat, hash_at(input, p as int)) by {
            if p < m {
                assert(p % 0x10000 != q % 0x10000);
                assert(chains_upto(input, m).prev(p) == latest(
                    input,
                    p as nat,
                    hash_at(input, p as int),
                ));
            }
        }
    }
}

} // verus!
