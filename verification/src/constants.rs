//! Parameters of the format and its slot tables.

use vstd::prelude::*;
use vstd::arithmetic::power2::*;

verus! {

pub const MIN_MATCH: usize = 3;

pub const MAX_MATCH: usize = 258;

/// The farthest distance that the match finder follows.
pub const MAX_MATCH_DISTANCE: u32 = 0xfefc;

/// How many chain links the match finder visits at a position.
pub const FALLBACK_WALK_ITERATIONS: usize = 17;

/// A match at the last offset of at least this length is taken without a walk
/// along the hash chain.
pub const REPEAT_MATCH_SHORTCUT: usize = 51;

/// Tokens that one block holds at most.
pub const BLOCK_TOKEN_LIMIT: usize = 0x7ff8;

/// Symbols of the main tree: the byte values, then every pair of a length slot
/// and a position slot.
pub const MAIN_SYMBOLS: usize = 768;

pub const LITERAL_SYMBOLS: usize = 256;

pub const MATCH_SYMBOLS: usize = 512;

pub const ALIGNED_SYMBOLS: usize = 8;

pub const PRETREE_SYMBOLS: usize = 20;

pub const LENGTH_SLOTS: usize = 16;

pub const POSITION_SLOTS: usize = 32;

pub const MAX_CODE_LENGTH: u8 = 16;

pub const PRETREE_CODE_LENGTH_BITS: u32 = 4;

/// Number of footer bits of a position slot or length slot.
pub const TABLE_ONE: [u8; 32] = [
    0, 0, 0, 0, 1, 1, 2, 2, 3, 3, 4, 4, 5, 5, 6, 6, 7, 7, 8, 8, 9, 9, 10, 10, 11, 11, 12, 12, 13,
    13, 14, 14,
];

/// The smallest value that a slot covers.
pub const TABLE_TWO: [u32; 32] = [
    0, 1, 2, 3, 4, 6, 8, 12, 16, 24, 32, 48, 64, 96, 128, 192, 256, 384, 512, 768, 1024, 1536, 2048,
    3072, 4096, 6144, 8192, 12288, 16384, 24576, 32768, 49152,
];

/// The mask of `n` footer bits.
pub const TABLE_THREE: [u32; 16] = [
    0, 1, 3, 7, 15, 31, 63, 127, 255, 511, 1023, 2047, 4095, 8191, 16383, 32767,
];

/// The lengths 0 to 16 twice in a row: entry `old + 17 - symbol` is the code
/// length that a pretree symbol turns `old` into.
pub const TABLE_FOUR: [u8; 34] = [
    0, 1, 2, 3, 4, 5, 6, 7, 8, 9, 10, 11, 12, 13, 14, 15, 16, 0, 1, 2, 3, 4, 5, 6, 7, 8, 9, 10, 11,
    12, 13, 14, 15, 16,
];

pub const SLOT_LOOKUP_LEN: usize = 512;

/// How hard the encoder looks for matches.
#[derive(Debug, Clone, Copy)]
pub struct LevelParams {
    /// A match of at least this length plus three is taken without a look at
    /// the next position.
    pub lazy_threshold: u16,
    /// After a better match at the next position, look one further.
    pub multi_step: bool,
}

pub const INFO_HEADER_LEN: usize = 10;

/// The letters `LZX` and a zero byte.
pub const INFO_HEADER_MAGIC: [u8; 4] = [0x4c, 0x5a, 0x58, 0x00];

pub const INFO_HEADER_VERSION: u8 = 0x0a;

pub const INFO_HEADER_FLAGS: u8 = 0x04;

pub const ENTRY_HEADER_LEN: usize = 31;

pub const ENTRY_HEADER_MACHINE: u8 = 0x0a;

pub const ENTRY_HEADER_HOST_OS: u8 = 0x0a;

pub const ENTRY_HEADER_PACK_MODE: u8 = 0x02;

pub const DATE_EPOCH_YEAR: u16 = 1970;

pub const CRC32_POLY: u32 = 0xedb88320;

pub const CRC32_INIT: u32 = 0xffffffff;

/// How many values a slot covers.
pub open spec fn slot_width(slot: int) -> nat {
    pow2(TABLE_ONE@[slot] as nat)
}

/// The slot covers the value.
pub open spec fn covers(slot: int, value: int) -> bool {
    &&& 0 <= slot < 32
    &&& TABLE_TWO@[slot] <= value < TABLE_TWO@[slot] + slot_width(slot)
}

/// The table holds, for each small value, the slot that covers it.
pub open spec fn is_slot_lookup(table: Seq<u8>) -> bool {
    &&& table.len() == SLOT_LOOKUP_LEN
    &&& forall|v: int|
        0 <= v < SLOT_LOOKUP_LEN ==> (#[trigger] table[v]) < 18 && covers(table[v] as int, v)
}

/// Each slot begins where the one before it ends, and the last one ends at the
/// window size.
pub proof fn lemma_slots_contiguous(slot: int)
    requires
        0 <= slot < 32,
    ensures
        TABLE_TWO@[slot] + slot_width(slot) == (if slot < 31 {
            TABLE_TWO@[slot + 1] as int
        } else {
            65536
        }),
{
    lemma2_to64();
}

/// No slot reaches past the window.
pub proof fn lemma_slot_end(slot: int)
    requires
        0 <= slot < 32,
    ensures
        TABLE_TWO@[slot] + slot_width(slot) <= 65536,
{
    lemma_slots_contiguous(slot);
    if slot < 31 {
        lemma_slots_ordered(slot, 31);
    }
}

proof fn lemma_slots_ordered(a: int, b: int)
    requires
        0 <= a < b < 32,
    ensures
        TABLE_TWO@[a] + slot_width(a) <= TABLE_TWO@[b],
    decreases b - a,
{
    lemma_slots_contiguous(a);
    if a + 1 < b {
        lemma_slots_ordered(a + 1, b);
        lemma_pow2_pos(TABLE_ONE@[a + 1] as nat);
    }
}

/// The small values are those of the first 16 slots.
pub proof fn lemma_slots_below(slot: int, value: int)
    requires
        covers(slot, value),
        value < 256,
    ensures
        slot < 16,
{
    if slot > 16 {
        lemma_slots_ordered(16, slot);
    }
}

/// No value is covered by two slots.
pub proof fn lemma_slot_unique(a: int, b: int, value: int)
    requires
        covers(a, value),
        covers(b, value),
    ensures
        a == b,
{
    if a < b {
        lemma_slots_ordered(a, b);
    } else if b < a {
        lemma_slots_ordered(b, a);
    }
}

/// Entry `n` of the mask table has the `n` low bits set.
pub proof fn lemma_masks(n: int)
    requires
        0 <= n < 16,
    ensures
        TABLE_THREE@[n] == pow2(n as nat) - 1,
{
    lemma2_to64();
}

/// The quickest level.
pub fn level_quick() -> (p: LevelParams)
    ensures
        p.lazy_threshold == 1,
        p.multi_step == false,
{
    LevelParams { lazy_threshold: 1, multi_step: false }
}

/// The usual level.
pub fn level_normal() -> (p: LevelParams)
    ensures
        p.lazy_threshold == 7,
        p.multi_step == false,
{
    LevelParams { lazy_threshold: 7, multi_step: false }
}

/// The level that compresses most.
pub fn level_max() -> (p: LevelParams)
    ensures
        p.lazy_threshold == 40,
        p.multi_step == true,
{
    LevelParams { lazy_threshold: 40, multi_step: true }
}

/// Build the slot lookup table.
pub fn build_slot_lookup() -> (t: [u8; SLOT_LOOKUP_LEN])
    ensures
        is_slot_lookup(t@),
{
    let mut t = [0u8; SLOT_LOOKUP_LEN];
    let mut slot: usize = 0;
    while slot < 18
        invariant
            slot <= 18,
            forall|v: int|
                0 <= v < SLOT_LOOKUP_LEN && v < (if slot < 32 {
                    TABLE_TWO@[slot as int] as int
                } else {
                    65536
                }) ==> (#[trigger] t@[v]) < 18 && covers(t@[v] as int, v),
        decreases 18 - slot,
    {
        let base: usize = TABLE_TWO[slot] as usize;
        let end: usize = TABLE_TWO[slot + 1] as usize;
        proof {
            lemma_slots_contiguous(slot as int);
        }
        let mut i: usize = base;
        while i < end
            invariant
                slot < 18,
                base == TABLE_TWO@[slot as int],
                end == TABLE_TWO@[slot + 1],
                end == base + slot_width(slot as int),
                base <= i <= end,
                end <= SLOT_LOOKUP_LEN,
                forall|v: int|
                    0 <= v < i ==> (#[trigger] t@[v]) < 18 && covers(t@[v] as int, v),
            decreases end - i,
        {
            t[i] = slot as u8;
            i += 1;
        }
        slot += 1;
    }
    t
}

/// The position slot of a distance.
pub fn position_slot(table: &[u8; SLOT_LOOKUP_LEN], raw_position: u32) -> (slot: u8)
    requires
        raw_position < 0x20000,
        raw_position >= 0x200 ==> table@[raw_position as int / 256] + 16 <= u8::MAX,
    ensures
        slot == (if raw_position < 0x200 {
            table@[raw_position as int] as int
        } else {
            table@[raw_position as int / 256] + 16
        }),
        is_slot_lookup(table@) && raw_position < 0x10000 ==> covers(
            slot as int,
            raw_position as int,
        ),
{
    if raw_position < 0x200 {
        table[raw_position as usize]
    } else {
        let i: usize = (raw_position / 256) as usize;
        proof {
            if is_slot_lookup(table@) && raw_position < 0x10000 {
                lemma_high_slot(table@[i as int] as int, raw_position as int);
            }
        }
        table[i] + 16
    }
}

/// The slots from 18 on repeat those from 2 on at 256 times the scale.
proof fn lemma_high_slot(slot: int, value: int)
    requires
        0x200 <= value < 0x10000,
        slot < 18,
        covers(slot, value / 256),
    ensures
        covers(slot + 16, value),
{
    lemma2_to64();
    lemma_slots_contiguous(slot);
    lemma_slots_contiguous(slot + 16);
    if slot < 2 {
        lemma_slots_ordered(slot, 2);
    }
    if slot >= 16 {
        if slot == 17 {
            lemma_slots_ordered(16, 17);
        }
    }
    assert(TABLE_TWO@[slot + 16] == 256 * TABLE_TWO@[slot]);
}

/// The length slot of a match length.
pub fn length_slot(table: &[u8; SLOT_LOOKUP_LEN], raw_length: usize) -> (slot: u8)
    requires
        MIN_MATCH <= raw_length < MIN_MATCH + SLOT_LOOKUP_LEN,
    ensures
        slot == table@[raw_length - MIN_MATCH],
{
    table[raw_length - MIN_MATCH]
}

} // verus!
