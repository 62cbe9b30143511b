//! Bit reader, the inverse of the bit writer.

use vstd::prelude::*;
use vstd::arithmetic::power2::*;

use crate::bits;
use crate::error::{Error, Result};

verus! {

/// Consumes the bits of a byte slice, one 16-bit big-endian word at a time.
pub struct BitReader<'a> {
    inner: &'a [u8],
    /// Bit accumulator. The next bit to consume is in bit 0.
    control: u32,
    /// Number of bits in `control`.
    bit_count: u32,
    /// Bytes taken from `inner` so far.
    bytes_read: u64,
    /// The end of `inner` has been met. The bits in `control` remain.
    eof: bool,
}

impl<'a> BitReader<'a> {
    pub closed spec fn wf(&self) -> bool {
        &&& self.bit_count <= 31
        &&& self.control < pow2(self.bit_count as nat)
        &&& self.bytes_read <= self.inner@.len()
        &&& (if self.eof {
            self.bytes_read == self.inner@.len()
        } else {
            self.bytes_read % 2 == 0
        })
    }

    /// The bytes that the reader was made for.
    pub closed spec fn source(&self) -> Seq<u8> {
        self.inner@
    }

    /// The bits that are still to be consumed.
    pub closed spec fn bits(&self) -> Seq<bool> {
        bits::bits_of(self.control as nat, self.bit_count as nat) + bits::word_bits(
            self.inner@.skip(self.bytes_read as int),
        )
    }

    /// The source ends in half a word, and no read has met it yet. The first
    /// one that does fails.
    pub closed spec fn odd(&self) -> bool {
        !self.eof && self.inner@.len() % 2 == 1
    }

    /// What is still to be read.
    pub open spec fn input(&self) -> bits::Input {
        bits::Input { bits: self.bits(), odd: self.odd() }
    }

    /// Bytes taken from the source so far.
    pub closed spec fn taken(&self) -> nat {
        self.bytes_read as nat
    }

    /// Bytes taken from the source once `n` bits have been looked at: whole
    /// words, as few as will do, or all there is.
    pub open spec fn taken_for(&self, n: nat) -> nat {
        if n > self.bits().len() {
            self.source().len()
        } else {
            let left = (self.bits().len() - n) as nat;
            let words = 2 * (self.source().len() / 2 - left / 16);
            if words <= self.taken() {
                self.taken()
            } else {
                words as nat
            }
        }
    }

    pub fn new(inner: &'a [u8]) -> (r: Self)
        ensures
            r.wf(),
            r.source() == inner@,
            r.bits() == bits::word_bits(inner@),
            r.odd() == (inner@.len() % 2 == 1),
            r.taken() == 0,
    {
        let r = BitReader { inner, control: 0, bit_count: 0, bytes_read: 0, eof: false };
        proof {
            bits::lemma_pow2_small();
            assert(r.inner@.skip(0) =~= inner@);
            assert(r.bits() =~= bits::word_bits(inner@));
        }
        r
    }

    /// Bytes taken from the source so far.
    pub fn bytes_read(&self) -> (n: u64)
        ensures
            n == self.taken(),
    {
        self.bytes_read
    }

    /// Move the next word into the accumulator. Half a word cannot stand in
    /// for a whole one: its missing byte holds the bits that come next.
    fn refill(&mut self) -> (r: Result<()>)
        requires
            old(self).wf(),
            old(self).bit_count < 16,
            !old(self).eof,
        ensures
            final(self).wf(),
            final(self).source() == old(self).source(),
            final(self).bits() == old(self).bits(),
            ({
                let left = old(self).source().len() - old(self).taken();
                if left >= 2 {
                    &&& r is Ok
                    &&& final(self).bit_count == old(self).bit_count + 16
                    &&& final(self).taken() == old(self).taken() + 2
                    &&& final(self).odd() == old(self).odd()
                    &&& !final(self).eof
                } else {
                    &&& final(self).eof
                    &&& final(self).bit_count == old(self).bit_count
                    &&& (left == 1 ==> r == Err::<(), Error>(Error::Truncated))
                    &&& (left == 0 ==> r is Ok)
                }
            }),
    {
        let pos = self.bytes_read as usize;
        let left: usize = self.inner.len() - pos;
        if left >= 2 {
            let word: u32 = (self.inner[pos] as u32) * 256 + self.inner[pos + 1] as u32;
            let ghost before = *self;
            proof {
                let k = self.bit_count as nat;
                bits::lemma_pow2_small();
                bits::lemma_pow2_le(k, 15);
                let p = pow2(k);
                lemma_pow2_adds(k, 16);
                assert(word * p <= 65535 * p) by (nonlinear_arith)
                    requires
                        word <= 65535,
                        0 <= p,
                ;
                bits::lemma_or_shifted(self.control, word, self.bit_count);
                bits::lemma_bits_join(self.control as nat, word as nat, k, 16);
            }
            self.control = self.control | (word << self.bit_count);
            self.bit_count = self.bit_count + 16;
            self.bytes_read = self.bytes_read + 2;
            proof {
                let rest = before.inner@.skip(before.bytes_read as int);
                assert(rest.skip(2) =~= self.inner@.skip(self.bytes_read as int));
                assert(self.bits() =~= before.bits());
            }
            Ok(())
        } else {
            proof {
                assert(self.inner@.skip(self.inner@.len() as int) =~= Seq::<u8>::empty());
            }
            self.bytes_read = self.inner.len() as u64;
            self.eof = true;
            if left == 1 {
                Err(Error::Truncated)
            } else {
                Ok(())
            }
        }
    }

    /// Load words until `n` bits are in the accumulator or the source ends.
    fn ensure_bits(&mut self, n: u32) -> (r: Result<()>)
        requires
            old(self).wf(),
            n <= 16,
        ensures
            final(self).wf(),
            final(self).source() == old(self).source(),
            final(self).bits() == old(self).bits(),
            old(self).bits().len() >= n ==> {
                &&& r is Ok
                &&& final(self).bit_count >= n
                &&& final(self).odd() == old(self).odd()
            },
            old(self).bits().len() < n ==> {
                &&& !final(self).odd()
                &&& final(self).bit_count == old(self).bits().len()
                &&& (if old(self).odd() {
                    r == Err::<(), Error>(Error::Truncated)
                } else {
                    r is Ok
                })
            },
            final(self).taken() == old(self).taken_for(n as nat),
    {
        proof {
            self.lemma_len();
            self.lemma_taken_for_none();
        }
        while self.bit_count < n && !self.eof
            invariant
                n <= 16,
                self.wf(),
                self.source() == old(self).source(),
                self.bits() == old(self).bits(),
                !self.eof ==> self.odd() == old(self).odd(),
                !self.eof ==> self.taken() >= old(self).taken(),
                self.eof ==> !old(self).odd() && self.bit_count == self.bits().len(),
                self.eof && !old(self).eof ==> self.bit_count < n,
                self.taken() > old(self).taken() && !self.eof ==> self.bit_count < n + 16,
                self.taken() == old(self).taken() ==> (*self == *old(self) || self.eof),
                n == 0 ==> *self == *old(self),
                self.taken() > old(self).taken() || self.eof || *self == *old(self),
                old(self).eof ==> *self == *old(self),
            decreases self.inner@.len() - self.bytes_read + (if self.eof {
                0int
            } else {
                1int
            }),
        {
            let ghost before = *self;
            proof {
                self.lemma_len();
            }
            let r = self.refill();
            proof {
                self.lemma_len();
            }
            match r {
                Ok(()) => {},
                Err(e) => {
                    return Err(e);
                },
            }
        }
        proof {
            self.lemma_len();
        }
        Ok(())
    }

    /// The next `n` bits as a number, without consuming them. No bits are the
    /// number zero.
    pub fn peek_bits(&mut self, n: u32) -> (r: Result<u32>)
        requires
            old(self).wf(),
            n <= 16,
        ensures
            final(self).wf(),
            final(self).source() == old(self).source(),
            final(self).bits() == old(self).bits(),
            final(self).odd() == (old(self).odd() && n <= old(self).bits().len()),
            final(self).taken() == old(self).taken_for(n as nat),
            r == (if n <= old(self).bits().len() {
                Ok::<u32, Error>(bits::lsb_value(old(self).bits().take(n as int)) as u32)
            } else {
                Err::<u32, Error>(Error::Truncated)
            }),
    {
        if n == 0 {
            proof {
                self.lemma_taken_for_none();
                assert(self.bits().take(0) =~= Seq::<bool>::empty());
            }
            return Ok(0);
        }
        self.ensure_bits(n)?;
        if self.bit_count < n {
            return Err(Error::Truncated);
        }
        proof {
            self.lemma_low(n);
        }
        let mask: u32 = (1u32 << n) - 1;
        Ok(self.control & mask)
    }

    /// The next `n` bits as a number, with zero bits in place of those that a
    /// source which has ended cannot supply. A Huffman table wants a full
    /// index even where the last code is shorter; consuming still takes real
    /// bits.
    pub fn peek_bits_padded(&mut self, n: u32) -> (r: Result<u32>)
        requires
            old(self).wf(),
            n <= 16,
        ensures
            final(self).wf(),
            final(self).source() == old(self).source(),
            final(self).bits() == old(self).bits(),
            final(self).odd() == (old(self).odd() && n <= old(self).bits().len()),
            final(self).taken() == old(self).taken_for(n as nat),
            r == (if n <= old(self).bits().len() {
                Ok::<u32, Error>(bits::lsb_value(old(self).bits().take(n as int)) as u32)
            } else if old(self).odd() || old(self).bits().len() == 0 {
                Err::<u32, Error>(Error::Truncated)
            } else {
                Ok::<u32, Error>(bits::lsb_value(old(self).bits()) as u32)
            }),
    {
        if n == 0 {
            proof {
                self.lemma_taken_for_none();
                assert(self.bits().take(0) =~= Seq::<bool>::empty());
            }
            return Ok(0);
        }
        self.ensure_bits(n)?;
        if self.bit_count == 0 {
            return Err(Error::Truncated);
        }
        proof {
            self.lemma_len();
            if self.bit_count < n {
                bits::lemma_bits_len(self.control as nat, self.bit_count as nat);
                assert(self.bits() =~= bits::bits_of(self.control as nat, self.bit_count as nat));
                bits::lemma_bits_value_small(self.control as nat, self.bit_count as nat);
                bits::lemma_mask_is_mod(self.control, n);
                bits::lemma_pow2_le(self.bit_count as nat, n as nat);
                vstd::arithmetic::div_mod::lemma_small_mod(self.control as nat, pow2(n as nat));
            } else {
                self.lemma_low(n);
            }
        }
        let mask: u32 = (1u32 << n) - 1;
        Ok(self.control & mask)
    }

    /// Consume `n` bits, or none where there are fewer.
    pub fn consume_bits(&mut self, n: u32) -> (r: Result<()>)
        requires
            old(self).wf(),
            n <= 16,
        ensures
            final(self).wf(),
            final(self).source() == old(self).source(),
            final(self).odd() == (old(self).odd() && n <= old(self).bits().len()),
            final(self).taken() == old(self).taken_for(n as nat),
            if n <= old(self).bits().len() {
                &&& r == Ok::<(), Error>(())
                &&& final(self).bits() == old(self).bits().skip(n as int)
            } else {
                &&& r == Err::<(), Error>(Error::Truncated)
                &&& final(self).bits() == old(self).bits()
            },
    {
        if n == 0 {
            proof {
                self.lemma_taken_for_none();
                assert(self.bits().skip(0) =~= self.bits());
            }
            return Ok(());
        }
        self.ensure_bits(n)?;
        if self.bit_count < n {
            return Err(Error::Truncated);
        }
        proof {
            let c = self.control as nat;
            let k = self.bit_count as nat;
            let m = n as nat;
            let left = (k - m) as nat;
            bits::lemma_bits_split(c, m, left);
            bits::lemma_bits_len(c, m);
            bits::lemma_bits_len(c, k);
            vstd::bits::lemma_u32_shr_is_div(self.control, n);
            lemma_pow2_adds(m, left);
            lemma_pow2_pos(m);
            assert(c / pow2(m) < pow2(left)) by (nonlinear_arith)
                requires
                    c < pow2(m) * pow2(left),
                    pow2(m) > 0,
            ;
            let rest = bits::word_bits(self.inner@.skip(self.bytes_read as int));
            assert(self.bits().skip(n as int) =~= bits::bits_of(c / pow2(m), left) + rest);
        }
        self.control = self.control >> n;
        self.bit_count = self.bit_count - n;
        Ok(())
    }

    /// Read and consume `n` bits.
    pub fn read_bits(&mut self, n: u32) -> (r: Result<u32>)
        requires
            old(self).wf(),
            n <= 16,
        ensures
            final(self).wf(),
            final(self).source() == old(self).source(),
            final(self).taken() == old(self).taken_for(n as nat),
            final(self).input() == bits::read_number(old(self).input(), n as nat).1,
            match r {
                Ok(v) => v < pow2(n as nat) && bits::read_number(old(self).input(), n as nat).0
                    == Ok::<nat, Error>(v as nat),
                Err(e) => bits::read_number(old(self).input(), n as nat).0 == Err::<nat, Error>(
                    e,
                ),
            },
    {
        let v = self.peek_bits(n)?;
        let ghost peeked = *self;
        self.consume_bits(n)?;
        proof {
            peeked.lemma_taken_join(*old(self), 0, n as nat, n as nat);
            let taken = old(self).bits().take(n as int);
            bits::lemma_value_bits(taken);
            bits::lemma_pow2_small();
            bits::lemma_pow2_le(n as nat, 16);
        }
        Ok(v)
    }

    /// Read and consume `n` bits, at most eight.
    pub fn read_bits_u8(&mut self, n: u32) -> (r: Result<u8>)
        requires
            old(self).wf(),
            n <= 8,
        ensures
            final(self).wf(),
            final(self).source() == old(self).source(),
            final(self).taken() == old(self).taken_for(n as nat),
            final(self).input() == bits::read_number(old(self).input(), n as nat).1,
            match r {
                Ok(v) => v < pow2(n as nat) && bits::read_number(old(self).input(), n as nat).0
                    == Ok::<nat, Error>(v as nat),
                Err(e) => bits::read_number(old(self).input(), n as nat).0 == Err::<nat, Error>(
                    e,
                ),
            },
    {
        let v = self.read_bits(n)?;
        proof {
            bits::lemma_value_bits(old(self).bits().take(n as int));
            bits::lemma_pow2_small();
            bits::lemma_pow2_le(n as nat, 8);
        }
        Ok(v as u8)
    }

    /// Looking at no bits takes no bytes.
    pub proof fn lemma_taken_for_none(&self)
        requires
            self.wf(),
        ensures
            self.taken_for(0) == self.taken(),
    {
        self.lemma_len();
    }

    /// Once `at` bits of those of a reader have been consumed and `looked` of
    /// them looked at, looking at `n` more is looking at `at + n` from there.
    pub proof fn lemma_taken_join(&self, start: BitReader<'_>, at: nat, looked: nat, n: nat)
        requires
            self.source() == start.source(),
            at <= start.bits().len(),
            self.bits().len() == start.bits().len() - at,
            self.taken() == start.taken_for(looked),
        ensures
            self.taken_for(n) == start.taken_for(
                if looked >= at + n {
                    looked
                } else {
                    at + n
                },
            ),
    {
    }

    proof fn lemma_len(&self)
        requires
            self.wf(),
        ensures
            self.bits().len() == self.bit_count + 16 * ((self.inner@.len() - self.bytes_read) / 2),
    {
        bits::lemma_bits_len(self.control as nat, self.bit_count as nat);
        bits::lemma_word_bits_len(self.inner@.skip(self.bytes_read as int));
    }

    proof fn lemma_low(&self, n: u32)
        requires
            self.wf(),
            n <= 16,
            n <= self.bit_count,
        ensures
            n <= self.bits().len(),
            (1u32 << n) >= 1,
            (self.control & ((1u32 << n) - 1) as u32) == bits::lsb_value(
                self.bits().take(n as int),
            ) as u32,
    {
        let c = self.control as nat;
        let k = self.bit_count as nat;
        let m = n as nat;
        bits::lemma_bits_split(c, m, (k - m) as nat);
        bits::lemma_bits_len(c, m);
        bits::lemma_bits_len(c, k);
        bits::lemma_bits_value(c, m);
        bits::lemma_mask_is_mod(self.control, n);
        bits::lemma_pow2_small();
        bits::lemma_pow2_le(m, 16);
        assert(self.bits().take(n as int) =~= bits::bits_of(c, m));
    }
}

/// A reader that has taken nothing yet takes two bytes for every sixteen bits, or
/// part of them, that are looked at, and everything where there are not so many.
pub proof fn lemma_taken_whole_words(r: BitReader<'_>, n: nat)
    requires
        r.taken() == 0,
        r.bits() == bits::word_bits(r.source()),
    ensures
        n <= 16 * (r.source().len() / 2) ==> r.taken_for(n) == 2 * ((n + 15) / 16),
        n > 16 * (r.source().len() / 2) ==> r.taken_for(n) == r.source().len(),
{
    bits::lemma_word_bits_len(r.source());
}

} // verus!
