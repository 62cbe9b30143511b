//! Bit writer.

use vstd::prelude::*;
use vstd::arithmetic::power2::*;

use crate::bits;
use crate::error::Result;

verus! {

/// Appends bits to a byte vector, one 16-bit big-endian word at a time.
pub struct BitWriter {
    inner: Vec<u8>,
    /// Pending bits, the earliest in bit 0.
    buffer: u32,
    /// Number of pending bits.
    bit_count: u32,
    /// Bytes appended to `inner` so far.
    bytes_written: u64,
}

impl BitWriter {
    pub closed spec fn wf(&self) -> bool {
        &&& self.bit_count < 16
        &&& self.buffer < pow2(self.bit_count as nat)
        &&& self.bytes_written % 2 == 0
        &&& self.bytes_written <= self.inner@.len()
    }

    /// The vector: what it held before the first word, and the words.
    pub closed spec fn content(&self) -> Seq<u8> {
        self.inner@
    }

    /// What the vector held before the first word.
    pub closed spec fn prefix(&self) -> Seq<u8> {
        self.inner@.take(self.inner@.len() - self.bytes_written)
    }

    /// The words appended so far.
    pub closed spec fn words(&self) -> Seq<u8> {
        self.inner@.skip(self.inner@.len() - self.bytes_written)
    }

    /// All bits written so far, pending ones included.
    pub closed spec fn bits(&self) -> Seq<bool> {
        bits::word_bits(self.words()) + bits::bits_of(self.buffer as nat, self.bit_count as nat)
    }

    pub fn new(inner: Vec<u8>) -> (w: Self)
        ensures
            w.wf(),
            w.prefix() == inner@,
            w.bits() == Seq::<bool>::empty(),
    {
        let w = BitWriter { inner, buffer: 0, bit_count: 0, bytes_written: 0 };
        proof {
            bits::lemma_pow2_small();
            assert(w.inner@.take(w.inner@.len() as int) =~= w.inner@);
            assert(w.words() =~= Seq::<u8>::empty());
            assert(w.bits() =~= Seq::<bool>::empty());
        }
        w
    }

    /// Number of bytes appended so far. Pending bits do not count until their
    /// word is complete.
    pub fn bytes_written(&self) -> (n: u64)
        requires
            self.wf(),
        ensures
            n == 2 * (self.bits().len() / 16),
    {
        proof {
            bits::lemma_word_bits_len(self.words());
            bits::lemma_bits_len(self.buffer as nat, self.bit_count as nat);
        }
        self.bytes_written
    }

    /// Number of bits that wait for their word to fill up.
    pub fn pending_bits(&self) -> (n: u32)
        requires
            self.wf(),
        ensures
            n == self.bits().len() % 16,
    {
        proof {
            bits::lemma_word_bits_len(self.words());
            bits::lemma_bits_len(self.buffer as nat, self.bit_count as nat);
        }
        self.bit_count
    }

    /// Write the low `n` bits of `value`, least significant first.
    pub fn write_bits(&mut self, value: u32, n: u32) -> (r: Result<()>)
        requires
            old(self).wf(),
            1 <= n <= 24,
            value < pow2(n as nat),
        ensures
            r is Ok,
            final(self).wf(),
            final(self).prefix() == old(self).prefix(),
            final(self).bits() == old(self).bits() + bits::bits_of(value as nat, n as nat),
    {
        let mut acc: u64 = (self.buffer as u64) | ((value as u64) << (self.bit_count as u64));
        let mut count: u32 = self.bit_count + n;
        proof {
            lemma_accumulate(self.buffer, value, self.bit_count, n);
            bits::lemma_bits_join(
                self.buffer as nat,
                value as nat,
                self.bit_count as nat,
                n as nat,
            );
            assert(self.bits() + bits::bits_of(value as nat, n as nat) =~= bits::word_bits(
                self.words(),
            ) + bits::bits_of(acc as nat, count as nat));
        }
        let ghost start = self.inner@.len() - self.bytes_written;
        let ghost target = self.bits() + bits::bits_of(value as nat, n as nat);
        while count >= 16
            invariant
                count <= 39,
                acc < pow2(count as nat),
                self.bytes_written % 2 == 0,
                self.bytes_written <= self.inner@.len(),
                start == self.inner@.len() - self.bytes_written,
                self.inner@.take(start) == old(self).prefix(),
                target == bits::word_bits(self.inner@.skip(start)) + bits::bits_of(
                    acc as nat,
                    count as nat,
                ),
            decreases count,
        {
            let word: u16 = (acc % 65536) as u16;
            let hi: u8 = (word / 256) as u8;
            let lo: u8 = (word % 256) as u8;
            let ghost before = self.inner@.skip(start);
            self.inner.push(hi);
            self.inner.push(lo);
            assert(self.inner@.len() <= u64::MAX) by {
                assert(self.inner.len() <= u64::MAX);
            }
            self.bytes_written = self.bytes_written + 2;
            proof {
                let after = self.inner@.skip(start);
                assert(after =~= before.push(hi).push(lo));
                assert(self.inner@.take(start) =~= old(self).prefix());
                bits::lemma_word_bits_push(before, word);
                bits::lemma_pow2_small();
                bits::lemma_bits_split(acc as nat, 16, (count - 16) as nat);
                bits::lemma_bits_mod(acc as nat, 16);
                lemma_pow2_adds(16, (count - 16) as nat);
                let p = pow2((count - 16) as nat);
                assert(acc / 65536 < p) by (nonlinear_arith)
                    requires
                        acc < 65536 * p,
                ;
                assert(bits::word_bits(before) + bits::bits_of(acc as nat, count as nat)
                    =~= bits::word_bits(after) + bits::bits_of(
                    (acc / 65536) as nat,
                    (count - 16) as nat,
                ));
            }
            acc = acc / 65536;
            count = count - 16;
        }
        proof {
            bits::lemma_pow2_small();
            bits::lemma_pow2_le(count as nat, 16);
        }
        self.buffer = acc as u32;
        self.bit_count = count;
        Ok(())
    }

    /// Fill the last word up with zero bits. Nothing happens on a word
    /// boundary.
    pub fn flush_to_word(&mut self) -> (r: Result<()>)
        requires
            old(self).wf(),
        ensures
            r is Ok,
            final(self).wf(),
            final(self).prefix() == old(self).prefix(),
            final(self).bits() == old(self).bits() + bits::zeros(
                bits::padding(old(self).bits().len()),
            ),
    {
        let pending = self.pending_bits();
        if pending > 0 {
            let pad: u32 = 16 - pending;
            proof {
                lemma_pow2_pos(pad as nat);
                bits::lemma_bits_of_zero(pad as nat);
            }
            self.write_bits(0, pad)?;
        } else {
            assert(self.bits() =~= self.bits() + bits::zeros(0));
        }
        Ok(())
    }

    /// Fill the last word up and give the vector back, with the number of
    /// bytes appended to it.
    pub fn finish(self) -> (r: Result<(Vec<u8>, u64)>)
        requires
            self.wf(),
        ensures
            r matches Ok((inner, n)) && inner@ == self.prefix() + bits::packed(self.bits()) && n
                == bits::packed(self.bits()).len(),
    {
        let mut w = self;
        w.flush_to_word()?;
        proof {
            let all = w.bits();
            assert(all.len() % 16 == 0);
            bits::lemma_word_bits_len(w.words());
            bits::lemma_bits_len(w.buffer as nat, w.bit_count as nat);
            assert(w.bits() =~= bits::word_bits(w.words()));
            bits::lemma_packed_unique(w.words(), self.bits());
            assert(w.inner@ =~= w.prefix() + w.words());
        }
        Ok((w.inner, w.bytes_written))
    }

    /// Borrow the vector, say to patch what it held before the first word.
    pub fn inner_mut(&mut self) -> (r: &mut Vec<u8>)
        requires
            old(self).wf(),
        ensures
            r@ == old(self).content(),
            final(self).content() == final(r)@,
            final(r)@.len() == old(self).content().len()
                && final(r)@.skip(old(self).prefix().len() as int) == old(self).words() ==> {
                &&& final(self).wf()
                &&& final(self).bits() == old(self).bits()
                &&& final(self).prefix() == final(r)@.take(old(self).prefix().len() as int)
            },
    {
        &mut self.inner
    }
}

proof fn lemma_accumulate(buffer: u32, value: u32, bit_count: u32, n: u32)
    requires
        bit_count < 16,
        1 <= n <= 24,
        buffer < pow2(bit_count as nat),
        value < pow2(n as nat),
    ensures
        ((buffer as u64) | ((value as u64) << (bit_count as u64))) == buffer + value * pow2(
            bit_count as nat,
        ),
        buffer + value * pow2(bit_count as nat) < pow2((bit_count + n) as nat),
{
    let b = buffer as u64;
    let v = value as u64;
    let k = bit_count as u64;
    let p = pow2(k as nat);
    let q = pow2(n as nat);
    bits::lemma_pow2_small();
    bits::lemma_pow2_le(k as nat, 15);
    bits::lemma_pow2_le(n as nat, 24);
    lemma_pow2_adds(k as nat, n as nat);
    assert(v * p <= q * p - p) by (nonlinear_arith)
        requires
            v < q,
            0 <= p,
    ;
    assert(q * p <= 0x100_0000 * 32768) by (nonlinear_arith)
        requires
            q <= 0x100_0000,
            p <= 32768,
    ;
    vstd::bits::lemma_u64_shl_is_mul(v, k);
    vstd::bits::lemma_u64_shl_is_mul(1u64, k);
    let s = v << k;
    assert((b | s) == b + s) by (bit_vector)
        requires
            k < 16,
            b < (1u64 << k),
            s == v << k,
    ;
    assert(p * q == q * p) by (nonlinear_arith);
}

} // verus!
