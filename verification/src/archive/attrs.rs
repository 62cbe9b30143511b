//! Amiga file protection bits.

use vstd::prelude::*;
use core::ops::BitOr;

verus! {

/// The protection bits of a file in one byte: pure, script, hold, archive,
/// execute, delete, write, read, from the highest bit down.
#[derive(Debug, Clone, Copy, PartialEq, Eq, Structural)]
pub struct EntryAttrs {
    bits: u8,
}

impl EntryAttrs {
    /// The byte.
    pub closed spec fn byte(self) -> u8 {
        self.bits
    }

    pub fn pure() -> (a: EntryAttrs)
        ensures
            a.byte() == 0x80,
    {
        EntryAttrs { bits: 0x80 }
    }

    pub fn script() -> (a: EntryAttrs)
        ensures
            a.byte() == 0x40,
    {
        EntryAttrs { bits: 0x40 }
    }

    pub fn hold() -> (a: EntryAttrs)
        ensures
            a.byte() == 0x20,
    {
        EntryAttrs { bits: 0x20 }
    }

    pub fn archive() -> (a: EntryAttrs)
        ensures
            a.byte() == 0x10,
    {
        EntryAttrs { bits: 0x10 }
    }

    pub fn execute() -> (a: EntryAttrs)
        ensures
            a.byte() == 0x08,
    {
        EntryAttrs { bits: 0x08 }
    }

    pub fn delete() -> (a: EntryAttrs)
        ensures
            a.byte() == 0x04,
    {
        EntryAttrs { bits: 0x04 }
    }

    pub fn write() -> (a: EntryAttrs)
        ensures
            a.byte() == 0x02,
    {
        EntryAttrs { bits: 0x02 }
    }

    pub fn read() -> (a: EntryAttrs)
        ensures
            a.byte() == 0x01,
    {
        EntryAttrs { bits: 0x01 }
    }

    /// The byte.
    pub fn bits(&self) -> (b: u8)
        ensures
            b == self.byte(),
    {
        self.bits
    }

    /// The attributes in a byte, whatever its bits.
    pub fn from_bits_retain(bits: u8) -> (a: EntryAttrs)
        ensures
            a.byte() == bits,
    {
        EntryAttrs { bits }
    }
}

impl BitOr for EntryAttrs {
    type Output = EntryAttrs;

    /// The bits of both.
    fn bitor(self, other: EntryAttrs) -> (a: EntryAttrs) {
        EntryAttrs { bits: self.bits | other.bits }
    }
}

impl vstd::std_specs::ops::BitOrSpecImpl for EntryAttrs {
    open spec fn obeys_bitor_spec() -> bool {
        true
    }

    open spec fn bitor_req(self, other: EntryAttrs) -> bool {
        true
    }

    closed spec fn bitor_spec(self, other: EntryAttrs) -> EntryAttrs {
        EntryAttrs { bits: self.bits | other.bits }
    }
}

/// Joining attributes sets the bits of both.
pub proof fn lemma_join(a: EntryAttrs, b: EntryAttrs)
    ensures
        vstd::std_specs::ops::BitOrSpec::bitor_spec(a, b).byte() == a.byte() | b.byte(),
{
}

/// Attributes with the same byte are the same.
pub proof fn lemma_same_byte(a: EntryAttrs, b: EntryAttrs)
    requires
        a.byte() == b.byte(),
    ensures
        a == b,
{
}

impl Default for EntryAttrs {
    /// A file that can be read, written and executed.
    fn default() -> (a: EntryAttrs)
        ensures
            a.byte() == 0x0b,
    {
        assert(0x01u8 | 0x02u8 | 0x08u8 == 0x0bu8) by (bit_vector);
        EntryAttrs { bits: 0x01 | 0x02 | 0x08 }
    }
}

} // verus!
