//! The bit writer: accumulates output bits in a 32-bit pending store
//! (first-written bit lowest), flushes each full group of eight as one byte
//! — first-written bit at the most significant position — into the bounded
//! output queue, and refuses further bits when both are full.  Its abstract
//! state is the sequence of all bits in flight, queue first.

use vstd::prelude::*;

verus! {

use crate::bits::{bits_of_bytes, byte_bits, zero_bits, lemma_bits_of_bytes_len,
    lemma_bits_of_bytes_add, lemma_bits_of_bytes_skip, lemma_bits_of_bytes_push};
use crate::format::pad_len;
use crate::ring::RingBuffer;

/// Accumulates decoded bits, packs them into bytes, and hands finished
/// bytes out under backpressure.
pub struct DecoderWriter {
    buffer: RingBuffer,
    bits: u32,
    bit_count: u8,
}

impl DecoderWriter {
    /// Bit `i` of the pending store.
    closed spec fn window_bit(&self, i: int) -> bool {
        self.bits >> (i as u32) & 1u32 == 1u32
    }

    /// The bits written but not yet packed into a byte, oldest first.
    pub closed spec fn pending(&self) -> Seq<bool> {
        Seq::new(self.bit_count as nat, |i: int| self.window_bit(i))
    }

    /// The finished bytes not yet drained by the caller, oldest first.
    pub closed spec fn queued(&self) -> Seq<u8> {
        self.buffer@
    }

    /// Every output bit still inside the writer, in write order.
    pub open spec fn all_bits(&self) -> Seq<bool> {
        bits_of_bytes(self.queued()) + self.pending()
    }

    /// Well-formed: at most 32 pending bits, every store bit above the
    /// pending count zero, and at most 16 queued bytes.
    pub closed spec fn inv(&self) -> bool {
        &&& self.bit_count <= 32
        &&& self.queued().len() <= 16
        &&& self.bits >> (self.bit_count as u32) == 0u32
    }

    /// How many more bits the writer can take before refusing.
    pub open spec fn spec_space(&self) -> int {
        160 - self.all_bits().len()
    }

    /// A fresh writer: nothing pending, nothing queued.
    pub fn new() -> (r: DecoderWriter)
        ensures
            r.inv(),
            r.all_bits() == Seq::<bool>::empty(),
            r.pending().len() == 0,
            r.queued().len() == 0,
    {
        let r = DecoderWriter { buffer: RingBuffer::new(), bits: 0, bit_count: 0 };
        proof {
            lemma_bits_of_bytes_len(r.queued());
            assert(r.all_bits() =~= Seq::<bool>::empty());
            lemma_zero_shifted(0u32);
        }
        r
    }

    /// The backpressure signal: how many bits may still be written.
    pub fn space_bits(&self) -> (r: usize)
        requires
            self.inv(),
        ensures
            r == self.spec_space(),
    {
        proof {
            lemma_bits_of_bytes_len(self.queued());
        }
        (32 - self.bit_count as usize) + (self.buffer.space_available() * 8)
    }

    /// Packs full groups of eight pending bits into queued bytes until the
    /// queue refuses or fewer than eight remain.  No bit is lost or moved
    /// out of order, so the abstract state is unchanged.
    fn flush(&mut self)
        requires
            old(self).inv(),
        ensures
            final(self).inv(),
            final(self).all_bits() == old(self).all_bits(),
            final(self).queued().len() >= old(self).queued().len(),
            final(self).pending() == old(self).pending().skip(
                8 * (final(self).queued().len() - old(self).queued().len()),
            ),
            final(self).pending().len() < 8 || final(self).queued().len() == 16,
    {
        while self.bit_count >= 8
            invariant
                self.inv(),
                self.all_bits() == old(self).all_bits(),
                self.queued().len() >= old(self).queued().len(),
                self.pending() == old(self).pending().skip(
                    8 * (self.queued().len() - old(self).queued().len()),
                ),
                8 * (self.queued().len() - old(self).queued().len()) <= old(self).pending().len(),
            ensures
                self.bit_count < 8 || self.queued().len() == 16,
            decreases self.bit_count,
        {
            let ghost pre = *self;
            let b = reverse_low8(self.bits);
            proof {
                assert(byte_bits(b) =~= pre.pending().take(8));
            }
            if self.buffer.write_byte(b).is_err() {
                proof {
                    lemma_bits_of_bytes_len(self.queued());
                    assert(self.pending() =~= pre.pending());
                    assert(self.all_bits() =~= pre.all_bits());
                }
                return ;
            }
            self.bits = self.bits >> 8;
            self.bit_count = self.bit_count - 8;
            proof {
                lemma_shift8_keeps_high_zero(pre.bits, self.bit_count as u32);
                assert forall|i: int| 0 <= i < self.bit_count as int implies self.pending()[i]
                    == pre.pending()[i + 8] by {
                    lemma_shift8_bit(pre.bits, i as u32);
                }
                assert(self.pending() =~= pre.pending().skip(8));
                assert(self.queued() == pre.queued().push(b));
                lemma_bits_of_bytes_push(pre.queued(), b);
                assert(self.all_bits() =~= pre.all_bits());
                let ghost dq = pre.queued().len() - old(self).queued().len();
                assert(pre.pending() == old(self).pending().skip(8 * dq));
                assert(pre.pending().len() == old(self).pending().len() - 8 * dq);
                assert(8 * (dq + 1) <= old(self).pending().len());
                assert(self.queued().len() - old(self).queued().len() == dq + 1);
                assert forall|i: int| 0 <= i < self.pending().len() implies self.pending()[i]
                    == old(self).pending().skip(8 * (dq + 1))[i] by {
                    assert(self.pending()[i] == pre.pending().skip(8)[i]);
                    assert(pre.pending().skip(8)[i] == pre.pending()[i + 8]);
                    assert(pre.pending()[i + 8] == old(self).pending().skip(8 * dq)[i + 8]);
                    assert(old(self).pending().skip(8 * dq)[i + 8] == old(self).pending()[8 * dq + i
                        + 8]);
                    assert(old(self).pending().skip(8 * (dq + 1))[i] == old(self).pending()[8 * (dq
                        + 1) + i]);
                }
                assert(self.pending() =~= old(self).pending().skip(
                    8 * (self.queued().len() - old(self).queued().len()),
                ));
            }
        }
        proof {
            lemma_bits_of_bytes_len(self.queued());
        }
    }

    /// Writes up to `count` zero bits — as many as capacity allows — and
    /// says how many were written.  Never fails; zero means saturated.
    pub fn write_zeros(&mut self, count: u32) -> (written: u32)
        requires
            old(self).inv(),
        ensures
            final(self).inv(),
            written == vstd::math::min(count as int, old(self).spec_space()),
            final(self).all_bits() == old(self).all_bits() + zero_bits(written as nat),
    {
        proof {
            lemma_bits_of_bytes_len(self.queued());
        }
        self.flush();
        let ghost space0 = old(self).spec_space();
        let mut written: u32 = 0;
        let mut left: u32 = count;
        proof {
            lemma_bits_of_bytes_len(self.queued());
            assert(zero_bits(0nat) =~= Seq::<bool>::empty());
            assert(self.all_bits() =~= old(self).all_bits() + zero_bits(0nat));
        }
        while left > 0 && self.bit_count < 32
            invariant
                self.inv(),
                written + left == count,
                self.all_bits() == old(self).all_bits() + zero_bits(written as nat),
                self.spec_space() == space0 - written,
                left > 0 ==> (self.bit_count < 8 || self.queued().len() == 16),
            decreases left,
        {
            let ghost pre = *self;
            let n: u32 = if left < 32 - (self.bit_count as u32) {
                left
            } else {
                32 - (self.bit_count as u32)
            };
            self.bit_count = self.bit_count + (n as u8);
            written = written + n;
            left = left - n;
            proof {
                lemma_high_zero(pre.bits, pre.bit_count as u32, self.bit_count as u32);
                assert forall|i: int| 0 <= i < self.bit_count as int implies self.pending()[i] == (
                pre.pending() + zero_bits(n as nat))[i] by {
                    if i >= pre.bit_count as int {
                        lemma_high_zero(pre.bits, pre.bit_count as u32, i as u32);
                    }
                }
                assert(self.pending() =~= pre.pending() + zero_bits(n as nat));
                assert(self.all_bits() =~= pre.all_bits() + zero_bits(n as nat));
                assert(zero_bits((written - n) as nat) + zero_bits(n as nat) =~= zero_bits(
                    written as nat,
                ));
                assert(self.all_bits() =~= old(self).all_bits() + zero_bits(written as nat));
                lemma_bits_of_bytes_len(self.queued());
            }
            self.flush();
            proof {
                lemma_bits_of_bytes_len(self.queued());
            }
        }
        proof {
            lemma_bits_of_bytes_len(self.queued());
            if left > 0 {
                assert(self.bit_count == 32);
                assert(self.queued().len() == 16);
                assert(self.spec_space() == 0);
            }
        }
        written
    }

    /// Writes one bit, or refuses when the writer is saturated.
    pub fn write_bit(&mut self, bit: bool) -> (r: Result<(), ()>)
        requires
            old(self).inv(),
        ensures
            final(self).inv(),
            old(self).spec_space() > 0 ==> r is Ok && final(self).all_bits() == old(self).all_bits().push(bit),
            old(self).spec_space() <= 0 ==> r is Err && final(self).all_bits() == old(self).all_bits(),
    {
        proof {
            lemma_bits_of_bytes_len(self.queued());
        }
        self.flush();
        proof {
            lemma_bits_of_bytes_len(self.queued());
        }
        if self.bit_count < 32 {
            let ghost pre = *self;
            let b: u32 = if bit {
                1u32
            } else {
                0u32
            };
            self.bits = self.bits | (b << self.bit_count);
            self.bit_count = self.bit_count + 1;
            proof {
                let c = pre.bit_count as u32;
                lemma_or_keeps_high_zero(pre.bits, b, c);
                assert forall|i: int| 0 <= i < self.bit_count as int implies self.pending()[i]
                    == pre.pending().push(bit)[i] by {
                    lemma_or_bit(pre.bits, b, c, i as u32);
                    if i == c as int {
                        lemma_high_zero(pre.bits, c, c);
                    }
                }
                assert(self.pending() =~= pre.pending().push(bit));
                assert(self.all_bits() =~= pre.all_bits().push(bit));
            }
            Ok(())
        } else {
            Err(())
        }
    }

    /// Pads the pending bits with zeros to the next byte boundary; used
    /// once, at the end of the stream.
    pub fn write_trailing_zeros(&mut self)
        requires
            old(self).inv(),
        ensures
            final(self).inv(),
            final(self).all_bits() == old(self).all_bits() + zero_bits(
                pad_len(old(self).all_bits().len()),
            ),
            final(self).all_bits().len() % 8 == 0,
            final(self).pending().len() % 8 == 0,
    {
        proof {
            lemma_bits_of_bytes_len(self.queued());
        }
        let ghost pre = *self;
        let n = self.bit_count % 8;
        if n > 0 {
            self.bit_count = self.bit_count + (8 - n);
            proof {
                lemma_high_zero(pre.bits, pre.bit_count as u32, self.bit_count as u32);
                assert forall|i: int| 0 <= i < self.bit_count as int implies self.pending()[i] == (
                pre.pending() + zero_bits((8 - n) as nat))[i] by {
                    if i >= pre.bit_count as int {
                        lemma_high_zero(pre.bits, pre.bit_count as u32, i as u32);
                    }
                }
                assert(self.pending() =~= pre.pending() + zero_bits((8 - n) as nat));
                assert(self.all_bits() =~= pre.all_bits() + zero_bits(
                    pad_len(pre.all_bits().len()),
                ));
            }
        } else {
            proof {
                assert(zero_bits(0nat) =~= Seq::<bool>::empty());
                assert(self.all_bits() =~= pre.all_bits() + zero_bits(
                    pad_len(pre.all_bits().len()),
                ));
            }
        }
    }

    /// Drains finished bytes into `buf[start..]`: pops what is queued, then
    /// flushes once to surface pending bytes and pops again.  Returns how
    /// many bytes were written; fewer than asked means the writer kept
    /// nothing back but a partial byte.
    pub(crate) fn read_from(&mut self, buf: &mut [u8], start: usize) -> (k: usize)
        requires
            old(self).inv(),
            start <= old(buf)@.len(),
        ensures
            final(self).inv(),
            k == vstd::math::min(
                old(buf)@.len() - start,
                old(self).queued().len() + old(self).pending().len() as int / 8,
            ),
            final(buf)@.len() == old(buf)@.len(),
            bits_of_bytes(final(buf)@.subrange(start as int, start + k)) == old(self).all_bits().take(8 * k),
            final(self).all_bits() == old(self).all_bits().skip(8 * k),
            forall|j: int| 0 <= j < start ==> final(buf)@[j] == old(buf)@[j],
            forall|j: int| start + k <= j < old(buf)@.len() ==> final(buf)@[j] == old(buf)@[j],
            k < old(buf)@.len() - start ==> final(self).queued().len() == 0 && final(self).pending().len() < 8,
            final(self).pending().len() % 8 == old(self).pending().len() % 8,
    {
        proof {
            lemma_bits_of_bytes_len(self.queued());
        }
        let ghost q0 = self.queued();
        let ghost p0 = self.pending();
        let ghost all0 = self.all_bits();
        let n = self.buffer.read_from(buf, start);
        proof {
            lemma_bits_of_bytes_skip(q0, n as int);
            assert(self.pending() =~= p0);
            assert(self.all_bits() =~= all0.skip(8 * n as int));
            assert(buf@.subrange(start as int, start + n) =~= q0.take(n as int));
            assert(bits_of_bytes(q0.take(n as int)) =~= all0.take(8 * n as int));
        }
        if n < buf.len() - start {
            let ghost buf1 = buf@;
            self.flush();
            proof {
                lemma_bits_of_bytes_len(self.queued());
            }
            let ghost q1 = self.queued();
            let ghost p1 = self.pending();
            let ghost all1 = self.all_bits();
            let n2 = self.buffer.read_from(buf, start + n);
            proof {
                lemma_bits_of_bytes_len(q1);
                lemma_bits_of_bytes_skip(q1, n2 as int);
                assert(self.pending() =~= p1);
                assert(self.all_bits() =~= all1.skip(8 * n2 as int));
                let k = n + n2;
                assert(bits_of_bytes(buf@.subrange(start as int, start + k)) == all0.take(
                    8 * k,
                )) by {
                    assert(buf@.subrange(start as int, start + n) =~= buf1.subrange(
                        start as int,
                        start + n,
                    ));
                    assert(buf@.subrange(start + n, start + k) =~= q1.take(n2 as int));
                    assert(buf@.subrange(start as int, start + k) =~= buf@.subrange(
                        start as int,
                        start + n,
                    ) + buf@.subrange(start + n, start + k));
                    lemma_bits_of_bytes_add(
                        buf@.subrange(start as int, start + n),
                        buf@.subrange(start + n, start + k),
                    );
                    assert(bits_of_bytes(q1.take(n2 as int)) =~= all1.take(8 * n2 as int));
                    assert(all0.take(8 * n as int) + all1.take(8 * n2 as int) =~= all0.take(8 * k));
                }
                assert(self.all_bits() =~= all0.skip(8 * k));
            }
            n + n2
        } else {
            n
        }
    }

    /// Drains finished bytes into `buf`; see `read_from`.
    pub fn read(&mut self, buf: &mut [u8]) -> (k: usize)
        requires
            old(self).inv(),
        ensures
            final(self).inv(),
            k == vstd::math::min(
                old(buf)@.len() as int,
                old(self).queued().len() + old(self).pending().len() as int / 8,
            ),
            final(buf)@.len() == old(buf)@.len(),
            bits_of_bytes(final(buf)@.subrange(0, k as int)) == old(self).all_bits().take(8 * k),
            final(self).all_bits() == old(self).all_bits().skip(8 * k),
            forall|j: int| k <= j < old(buf)@.len() ==> final(buf)@[j] == old(buf)@[j],
            k < old(buf)@.len() ==> final(self).queued().len() == 0 && final(self).pending().len() < 8,
    {
        let k = self.read_from(buf, 0);
        k
    }
}

/// The low eight bits of `x`, reversed, so that bit 0 of `x` lands at the
/// most significant position of the result.
fn reverse_low8(x: u32) -> (r: u8)
    ensures
        byte_bits(r) == Seq::new(8, |i: int| x >> (i as u32) & 1u32 == 1u32),
{
    let v: u32 = ((x & 1) << 7) | (((x >> 1) & 1) << 6) | (((x >> 2) & 1) << 5) | (((x >> 3) & 1)
        << 4) | (((x >> 4) & 1) << 3) | (((x >> 5) & 1) << 2) | (((x >> 6) & 1) << 1) | ((x >> 7)
        & 1);
    proof {
        lemma_rev8(x);
    }
    let r = v as u8;
    proof {
        assert forall|i: int| 0 <= i < 8 implies byte_bits(r)[i] == (x >> (i as u32) & 1u32
            == 1u32) by {
            if i == 0 {
            } else if i == 1 {
            } else if i == 2 {
            } else if i == 3 {
            } else if i == 4 {
            } else if i == 5 {
            } else if i == 6 {
            } else {
                assert(i == 7);
            }
        }
        assert(byte_bits(r) =~= Seq::new(8, |i: int| x >> (i as u32) & 1u32 == 1u32));
    }
    r
}

/// Reversing the low byte: each source bit lands mirrored, and the result
/// fits in eight bits.
proof fn lemma_rev8(x: u32)
    by (bit_vector)
    ensures
        ((x & 1) << 7) | (((x >> 1) & 1) << 6) | (((x >> 2) & 1) << 5) | (((x >> 3) & 1) << 4) | ((
        (x >> 4) & 1) << 3) | (((x >> 5) & 1) << 2) | (((x >> 6) & 1) << 1) | ((x >> 7) & 1) < 256,
        forall|j: u32| #![trigger x >> j]
            j < 8 ==> ((((((x & 1) << 7) | (((x >> 1) & 1) << 6) | (((x >> 2) & 1) << 5) | (((x
                >> 3) & 1) << 4) | (((x >> 4) & 1) << 3) | (((x >> 5) & 1) << 2) | (((x >> 6) & 1)
                << 1) | ((x >> 7) & 1)) as u8) >> ((7 - j) as u8)) & 1u8 == 1u8) == (x >> j & 1u32
                == 1u32),
{
}

/// Bits above an all-zero tail stay zero, shift by shift and bit by bit.
proof fn lemma_high_zero(x: u32, c: u32, j: u32)
    by (bit_vector)
    requires
        x >> c == 0u32,
        c <= j,
    ensures
        x >> j == 0u32,
        x >> j & 1u32 == 0u32,
        !(x >> j & 1u32 == 1u32),
{
}

/// Dropping the low byte keeps the bits above the pending count zero.
proof fn lemma_shift8_keeps_high_zero(x: u32, c2: u32)
    by (bit_vector)
    requires
        c2 <= 24,
        x >> (c2 + 8u32) == 0u32,
    ensures
        (x >> 8u32) >> c2 == 0u32,
{
}

/// A zero store stays zero under any shift.
proof fn lemma_zero_shifted(j: u32)
    by (bit_vector)
    ensures
        0u32 >> j == 0u32,
{
}

/// Dropping the low byte moves every remaining bit down eight places.
proof fn lemma_shift8_bit(x: u32, j: u32)
    by (bit_vector)
    requires
        j < 24,
    ensures
        ((x >> 8u32) >> j & 1u32) == (x >> (j + 8u32) & 1u32),
{
}

/// Setting one bit by OR leaves every other bit alone and sets that one.
proof fn lemma_or_bit(x: u32, b: u32, c: u32, j: u32)
    by (bit_vector)
    requires
        b < 2,
        c < 32,
    ensures
        j != c ==> ((x | (b << c)) >> j & 1u32) == (x >> j & 1u32),
        j == c && (x >> j & 1u32) == 0 ==> ((x | (b << c)) >> j & 1u32) == b,
{
}

/// Setting the bit at the pending count keeps everything above it zero.
proof fn lemma_or_keeps_high_zero(x: u32, b: u32, c: u32)
    by (bit_vector)
    requires
        b < 2,
        c < 32,
        x >> c == 0u32,
    ensures
        (x | (b << c)) >> (c + 1) == 0u32,
{
}

} // verus!
