//! The bit reader over the compressed input: a borrowed byte slice plus a
//! window of up to 32 buffered bits, read most significant bit first.  Its
//! view is the sequence of bits not yet consumed.

use vstd::prelude::*;

verus! {

use vstd::arithmetic::power2::{pow2, lemma_pow2_unfold, lemma_pow2_strictly_increases, lemma2_to64};
use vstd::slice::slice_subrange;
use crate::bits::{bits_of_bytes, uint_of_bits, lemma_bits_of_bytes_len, lemma_bits_of_bytes_skip,
    lemma_uint_of_bits_bound, lemma_uint_of_bits_push};

/// Reads the compressed stream bit by bit, most significant bit of each
/// byte first, refilling a 32-bit window one byte at a time.
pub struct DecoderReader<'a> {
    bytes: &'a [u8],
    bits: u32,
    bit_count: u8,
}

impl<'a> View for DecoderReader<'a> {
    type V = Seq<bool>;

    /// The bits not yet consumed: the buffered window first (oldest bit
    /// first), then the bits of the unread bytes.
    closed spec fn view(&self) -> Seq<bool> {
        self.window() + bits_of_bytes(self.bytes@)
    }
}

impl<'a> DecoderReader<'a> {
    /// The buffered window as bits, oldest (next to be read) first.
    closed spec fn window(&self) -> Seq<bool> {
        Seq::new(
            self.bit_count as nat,
            |i: int| self.bits >> ((self.bit_count - 1 - i) as u32) & 1u32 == 1u32,
        )
    }

    /// How many bits the window buffers.
    pub closed spec fn window_len(&self) -> nat {
        self.bit_count as nat
    }

    /// The bytes not yet pulled into the window.
    pub closed spec fn remaining_bytes(&self) -> Seq<u8> {
        self.bytes@
    }

    /// Well-formed: the window count stays within the 32-bit store, and the
    /// total bit count fits a `usize`.
    pub closed spec fn inv(&self) -> bool {
        self.bit_count <= 32 && 8 * self.bytes@.len() + 32 <= usize::MAX
    }

    /// A fresh reader over the whole compressed input; nothing buffered yet.
    pub fn new(bytes: &'a [u8]) -> (r: DecoderReader<'a>)
        requires
            8 * bytes@.len() + 32 <= usize::MAX,
        ensures
            r.inv(),
            r@ == bits_of_bytes(bytes@),
            r.remaining_bytes() == bytes@,
            r.window_len() == 0,
    {
        let r = DecoderReader { bytes, bits: 0, bit_count: 0 };
        proof {
            assert(r@ =~= bits_of_bytes(bytes@));
        }
        r
    }

    /// The bytes not yet pulled into the window.
    pub fn inner(&self) -> (r: &[u8])
        ensures
            r@ == self.remaining_bytes(),
    {
        self.bytes
    }

    /// True when every bit has been consumed.
    pub fn is_empty(&self) -> (r: bool)
        requires
            self.inv(),
        ensures
            r <==> self@.len() == 0,
    {
        proof {
            lemma_bits_of_bytes_len(self.bytes@);
        }
        self.bytes.is_empty() && (self.bit_count == 0)
    }

    /// How many bits remain to be read.
    pub fn len_bits(&self) -> (r: usize)
        requires
            self.inv(),
        ensures
            r == self@.len(),
    {
        proof {
            lemma_bits_of_bytes_len(self.bytes@);
        }
        (self.bytes.len() * 8) + (self.bit_count as usize)
    }

    /// Drops `n` whole unread bytes; only meaningful while nothing is
    /// buffered, as when the magic is skipped.
    pub(crate) fn skip_bytes(&mut self, n: usize)
        requires
            old(self).inv(),
            old(self).window_len() == 0,
            n <= old(self).remaining_bytes().len(),
        ensures
            final(self).inv(),
            final(self).window_len() == 0,
            final(self).remaining_bytes() == old(self).remaining_bytes().skip(n as int),
            final(self)@ == old(self)@.skip(8 * n as int),
    {
        proof {
            lemma_bits_of_bytes_skip(self.bytes@, n as int);
            assert(self.window() =~= Seq::<bool>::empty());
            assert(self@ =~= bits_of_bytes(self.bytes@));
        }
        self.bytes = slice_subrange(self.bytes, n, self.bytes.len());
    }

    /// Pulls bytes into the window until it holds more than 24 bits or the
    /// input runs dry; consumes nothing.
    fn feed_bits(&mut self)
        requires
            old(self).inv(),
        ensures
            final(self).inv(),
            final(self)@ == old(self)@,
            final(self).remaining_bytes().len() == 0 ==> final(self)@.len() == final(self).window_len(),
            final(self).remaining_bytes().len() > 0 ==> final(self).window_len() > 24,
    {
        while self.bit_count <= 24 && !self.bytes.is_empty()
            invariant
                self.inv(),
                self@ == old(self)@,
            decreases self.bytes@.len(),
        {
            let ghost pre = *self;
            let b = self.bytes[0];
            self.bits = (self.bits << 8) | (b as u32);
            self.bit_count = self.bit_count + 8;
            self.bytes = slice_subrange(self.bytes, 1, self.bytes.len());
            proof {
                let bc = pre.bit_count as int;
                assert forall|i: int| 0 <= i < bc implies self.window()[i] == pre.window()[i] by {
                    lemma_feed_keeps_old(pre.bits, b as u32, (bc - 1 - i) as u32);
                }
                assert forall|i: int| bc <= i < bc + 8 implies self.window()[i] == crate::bits::byte_bits(
                    b,
                )[i - bc] by {
                    lemma_feed_adds_new(pre.bits, b, (bc + 8 - 1 - i) as u32);
                }
                assert(self.window() =~= pre.window() + crate::bits::byte_bits(b));
                assert(pre.bytes@.drop_first() =~= self.bytes@);
                assert(self@ =~= pre@);
            }
        }
        proof {
            lemma_bits_of_bytes_len(self.bytes@);
        }
    }

    /// Takes the next (most significant buffered) bit out of the window.
    fn read_bit_internal(&mut self) -> (r: bool)
        requires
            old(self).inv(),
            old(self).window_len() > 0,
        ensures
            final(self).inv(),
            r == old(self)@[0],
            final(self)@ == old(self)@.skip(1),
            final(self).remaining_bytes() == old(self).remaining_bytes(),
            final(self).window_len() == old(self).window_len() - 1,
    {
        let ghost pre = *self;
        self.bit_count = self.bit_count - 1;
        let r = (self.bits & (1u32 << self.bit_count)) != 0;
        proof {
            lemma_mask_is_shift(self.bits, self.bit_count as u32);
            assert(r == pre.window()[0]);
            assert forall|i: int| 0 <= i < self.bit_count as int implies self.window()[i]
                == pre.window()[i + 1] by {}
            assert(self.window() =~= pre.window().skip(1));
            assert(self@ =~= pre@.skip(1));
        }
        r
    }

    /// Reads one bit, or reports exhaustion (consuming nothing) when none
    /// remain.
    pub fn read_bit(&mut self) -> (r: Option<bool>)
        requires
            old(self).inv(),
        ensures
            final(self).inv(),
            r is Some <==> old(self)@.len() > 0,
            r is Some ==> r == Some(old(self)@[0]) && final(self)@ == old(self)@.skip(1),
            r is None ==> final(self)@ == old(self)@,
    {
        self.feed_bits();
        proof {
            lemma_bits_of_bytes_len(self.bytes@);
        }
        if self.bit_count > 0 {
            Some(self.read_bit_internal())
        } else {
            None
        }
    }

    /// Reads a `bits`-wide most-significant-bit-first integer, or reports
    /// exhaustion (consuming nothing) when fewer bits remain.  The window
    /// refill policy supports widths up to 25; the format itself never asks
    /// for more than 23.
    pub fn read_int(&mut self, bits: usize) -> (r: Option<u32>)
        requires
            old(self).inv(),
            bits <= 25,
        ensures
            final(self).inv(),
            r is Some <==> old(self)@.len() >= bits,
            r matches Some(v) ==> final(self)@ == old(self)@.skip(bits as int) && v
                == uint_of_bits(old(self)@.take(bits as int)),
            r is None ==> final(self)@ == old(self)@,
    {
        self.feed_bits();
        proof {
            lemma_bits_of_bytes_len(self.bytes@);
        }
        if (self.bit_count as usize) >= bits {
            let ghost v0 = self@;
            let mut value: u32 = 0;
            let mut j: usize = 0;
            proof {
                lemma2_to64();
                assert(v0.take(0) =~= Seq::<bool>::empty());
            }
            while j < bits
                invariant
                    self.inv(),
                    j <= bits,
                    bits <= 25,
                    bits <= v0.len(),
                    self@ == v0.skip(j as int),
                    self.window_len() >= bits - j,
                    value == uint_of_bits(v0.take(j as int)),
                    value < pow2(j as nat),
                decreases bits - j,
            {
                proof {
                    lemma_uint_of_bits_bound(v0.take(j as int));
                    if j + 1 <= 25 {
                        lemma_pow2_strictly_increases(j as nat, 25);
                        lemma2_to64();
                    }
                    lemma_pow2_unfold((j + 1) as nat);
                }
                let b = self.read_bit_internal();
                proof {
                    assert(v0.take(j + 1) =~= v0.take(j as int).push(v0[j as int]));
                    lemma_uint_of_bits_push(v0.take(j as int), v0[j as int]);
                    assert(v0.skip(j as int)[0] == v0[j as int]);
                }
                value = value * 2 + (if b {
                    1
                } else {
                    0
                });
                j = j + 1;
                proof {
                    assert(self@ =~= v0.skip(j as int));
                }
            }
            proof {
                assert(v0.take(bits as int) =~= v0.take(j as int));
            }
            Some(value)
        } else {
            None
        }
    }
}

/// Shifting a fresh byte into the window leaves the bits already buffered
/// (at offsets up to 23) where they were, seen from their new positions.
proof fn lemma_feed_keeps_old(x: u32, b: u32, j: u32)
    by (bit_vector)
    requires
        j <= 23,
        b < 256,
    ensures
        ((x << 8u32) | b) >> (j + 8u32) & 1u32 == x >> j & 1u32,
{
}

/// The freshly shifted-in byte occupies the low eight window positions.
proof fn lemma_feed_adds_new(x: u32, b: u8, j: u32)
    requires
        j <= 7,
    ensures
        (((x << 8u32) | (b as u32)) >> j & 1u32 == 1u32) == (b >> (j as u8) & 1u8 == 1u8),
{
    lemma_feed_adds_new_bv(x, b as u32, j);
}

proof fn lemma_feed_adds_new_bv(x: u32, b: u32, j: u32)
    by (bit_vector)
    requires
        j <= 7,
        b < 256,
    ensures
        (((x << 8u32) | b) >> j & 1u32 == 1u32) == (b >> j & 1u32 == 1u32),
        (b >> j & 1u32 == 1u32) == ((b as u8) >> (j as u8) & 1u8 == 1u8),
{
}

/// Testing a bit with a mask is testing it with a shift.
proof fn lemma_mask_is_shift(x: u32, j: u32)
    by (bit_vector)
    requires
        j < 32,
    ensures
        (x & (1u32 << j) != 0) == (x >> j & 1u32 == 1u32),
{
}

} // verus!
