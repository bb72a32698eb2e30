//! Bit-sequence model shared by the reader, the writer and the decoder
//! contracts: bytes as most-significant-bit-first bit sequences, and
//! most-significant-bit-first unsigned integers.

use vstd::prelude::*;

verus! {

use vstd::arithmetic::power2::{pow2, lemma_pow2_unfold};

/// The eight bits of a byte, most significant first.
pub open spec fn byte_bits(b: u8) -> Seq<bool> {
    Seq::new(8, |i: int| b >> (7 - i) as u8 & 1u8 == 1u8)
}

/// The bits of a byte sequence, bytes in order, most significant bit of
/// each byte first.
pub open spec fn bits_of_bytes(s: Seq<u8>) -> Seq<bool>
    decreases s.len(),
{
    if s.len() == 0 {
        Seq::empty()
    } else {
        byte_bits(s[0]) + bits_of_bytes(s.drop_first())
    }
}

/// The unsigned value of a bit sequence read most significant bit first.
pub open spec fn uint_of_bits(s: Seq<bool>) -> nat
    decreases s.len(),
{
    if s.len() == 0 {
        0
    } else {
        2 * uint_of_bits(s.drop_last()) + if s.last() {
            1nat
        } else {
            0nat
        }
    }
}

/// A run of `n` zero bits.
pub open spec fn zero_bits(n: nat) -> Seq<bool> {
    Seq::new(n, |i: int| false)
}

pub proof fn lemma_bits_of_bytes_len(s: Seq<u8>)
    ensures
        bits_of_bytes(s).len() == 8 * s.len(),
    decreases s.len(),
{
    if s.len() > 0 {
        lemma_bits_of_bytes_len(s.drop_first());
    }
}

pub proof fn lemma_bits_of_bytes_add(a: Seq<u8>, b: Seq<u8>)
    ensures
        bits_of_bytes(a + b) == bits_of_bytes(a) + bits_of_bytes(b),
    decreases a.len(),
{
    if a.len() == 0 {
        assert(a + b =~= b);
        assert(bits_of_bytes(a) + bits_of_bytes(b) =~= bits_of_bytes(b));
    } else {
        assert((a + b).drop_first() =~= a.drop_first() + b);
        lemma_bits_of_bytes_add(a.drop_first(), b);
        assert(bits_of_bytes(a + b) =~= bits_of_bytes(a) + bits_of_bytes(b));
    }
}

/// Each byte contributes its own eight-bit window.
pub proof fn lemma_bits_of_bytes_index(s: Seq<u8>, k: int)
    requires
        0 <= k < s.len(),
    ensures
        bits_of_bytes(s).len() == 8 * s.len(),
        bits_of_bytes(s).subrange(8 * k, 8 * k + 8) == byte_bits(s[k]),
    decreases k,
{
    lemma_bits_of_bytes_len(s);
    lemma_bits_of_bytes_len(s.drop_first());
    if k == 0 {
        assert(bits_of_bytes(s).subrange(0, 8) =~= byte_bits(s[0]));
    } else {
        lemma_bits_of_bytes_index(s.drop_first(), k - 1);
        assert(bits_of_bytes(s).subrange(8 * k, 8 * k + 8) =~= bits_of_bytes(
            s.drop_first(),
        ).subrange(8 * (k - 1), 8 * (k - 1) + 8));
    }
}

pub proof fn lemma_uint_of_bits_bound(s: Seq<bool>)
    ensures
        uint_of_bits(s) < pow2(s.len()),
    decreases s.len(),
{
    if s.len() == 0 {
        assert(pow2(0) == 1) by {
            vstd::arithmetic::power2::lemma2_to64();
        }
    } else {
        lemma_uint_of_bits_bound(s.drop_last());
        lemma_pow2_unfold(s.len());
    }
}

/// Appending one byte appends its eight bits.
pub proof fn lemma_bits_of_bytes_push(s: Seq<u8>, b: u8)
    ensures
        bits_of_bytes(s.push(b)) == bits_of_bytes(s) + byte_bits(b),
{
    reveal_with_fuel(bits_of_bytes, 3);
    assert(s.push(b) =~= s + seq![b]);
    lemma_bits_of_bytes_add(s, seq![b]);
    assert(seq![b].drop_first() =~= Seq::<u8>::empty());
    assert(bits_of_bytes(seq![b]) =~= byte_bits(b));
    assert(bits_of_bytes(s.push(b)) =~= bits_of_bytes(s) + byte_bits(b));
}

/// Dropping `k` whole bytes from the front drops `8 * k` bits.
pub proof fn lemma_bits_of_bytes_skip(s: Seq<u8>, k: int)
    requires
        0 <= k <= s.len(),
    ensures
        bits_of_bytes(s).skip(8 * k) == bits_of_bytes(s.skip(k)),
        bits_of_bytes(s).take(8 * k) == bits_of_bytes(s.take(k)),
{
    assert(s =~= s.take(k) + s.skip(k));
    lemma_bits_of_bytes_add(s.take(k), s.skip(k));
    lemma_bits_of_bytes_len(s.take(k));
    lemma_bits_of_bytes_len(s.skip(k));
    assert(bits_of_bytes(s).skip(8 * k) =~= bits_of_bytes(s.skip(k)));
    assert(bits_of_bytes(s).take(8 * k) =~= bits_of_bytes(s.take(k)));
}

/// Appending one bit multiplies the value by two and adds the bit.
pub proof fn lemma_uint_of_bits_push(s: Seq<bool>, b: bool)
    ensures
        uint_of_bits(s.push(b)) == 2 * uint_of_bits(s) + if b {
            1nat
        } else {
            0nat
        },
{
    assert(s.push(b).drop_last() =~= s);
    assert(s.push(b).last() == b);
}


/// A `w`-bit most-significant-bit-first rendering of `v`.
pub open spec fn bits_of_uint(v: nat, w: nat) -> Seq<bool>
    decreases w,
{
    if w == 0 {
        Seq::empty()
    } else {
        bits_of_uint(v / 2, (w - 1) as nat).push(v % 2 == 1)
    }
}

pub proof fn lemma_bits_of_uint_len(v: nat, w: nat)
    ensures
        bits_of_uint(v, w).len() == w,
    decreases w,
{
    if w > 0 {
        lemma_bits_of_uint_len(v / 2, (w - 1) as nat);
    }
}

/// Rendering and reading back are inverse while the value fits.
pub proof fn lemma_uint_of_bits_of_uint(v: nat, w: nat)
    requires
        v < pow2(w),
    ensures
        uint_of_bits(bits_of_uint(v, w)) == v,
    decreases w,
{
    if w == 0 {
        assert(pow2(0) == 1) by {
            vstd::arithmetic::power2::lemma2_to64();
        }
    } else {
        lemma_pow2_unfold(w);
        lemma_uint_of_bits_of_uint(v / 2, (w - 1) as nat);
        lemma_uint_of_bits_push(bits_of_uint(v / 2, (w - 1) as nat), v % 2 == 1);
    }
}

/// Two bytes with the same bits are the same byte.
proof fn lemma_byte_bits_injective_bv(x: u8, y: u8)
    by (bit_vector)
    requires
        (x >> 7u8 & 1u8 == 1u8) == (y >> 7u8 & 1u8 == 1u8),
        (x >> 6u8 & 1u8 == 1u8) == (y >> 6u8 & 1u8 == 1u8),
        (x >> 5u8 & 1u8 == 1u8) == (y >> 5u8 & 1u8 == 1u8),
        (x >> 4u8 & 1u8 == 1u8) == (y >> 4u8 & 1u8 == 1u8),
        (x >> 3u8 & 1u8 == 1u8) == (y >> 3u8 & 1u8 == 1u8),
        (x >> 2u8 & 1u8 == 1u8) == (y >> 2u8 & 1u8 == 1u8),
        (x >> 1u8 & 1u8 == 1u8) == (y >> 1u8 & 1u8 == 1u8),
        (x >> 0u8 & 1u8 == 1u8) == (y >> 0u8 & 1u8 == 1u8),
    ensures
        x == y,
{
}

pub proof fn lemma_byte_bits_injective(x: u8, y: u8)
    requires
        byte_bits(x) == byte_bits(y),
    ensures
        x == y,
{
    assert(byte_bits(x)[0] == (x >> 7u8 & 1u8 == 1u8));
    assert(byte_bits(y)[0] == (y >> 7u8 & 1u8 == 1u8));
    assert(byte_bits(x)[0] == byte_bits(y)[0]);
    assert(byte_bits(x)[1] == (x >> 6u8 & 1u8 == 1u8));
    assert(byte_bits(y)[1] == (y >> 6u8 & 1u8 == 1u8));
    assert(byte_bits(x)[1] == byte_bits(y)[1]);
    assert(byte_bits(x)[2] == (x >> 5u8 & 1u8 == 1u8));
    assert(byte_bits(y)[2] == (y >> 5u8 & 1u8 == 1u8));
    assert(byte_bits(x)[2] == byte_bits(y)[2]);
    assert(byte_bits(x)[3] == (x >> 4u8 & 1u8 == 1u8));
    assert(byte_bits(y)[3] == (y >> 4u8 & 1u8 == 1u8));
    assert(byte_bits(x)[3] == byte_bits(y)[3]);
    assert(byte_bits(x)[4] == (x >> 3u8 & 1u8 == 1u8));
    assert(byte_bits(y)[4] == (y >> 3u8 & 1u8 == 1u8));
    assert(byte_bits(x)[4] == byte_bits(y)[4]);
    assert(byte_bits(x)[5] == (x >> 2u8 & 1u8 == 1u8));
    assert(byte_bits(y)[5] == (y >> 2u8 & 1u8 == 1u8));
    assert(byte_bits(x)[5] == byte_bits(y)[5]);
    assert(byte_bits(x)[6] == (x >> 1u8 & 1u8 == 1u8));
    assert(byte_bits(y)[6] == (y >> 1u8 & 1u8 == 1u8));
    assert(byte_bits(x)[6] == byte_bits(y)[6]);
    assert(byte_bits(x)[7] == (x >> 0u8 & 1u8 == 1u8));
    assert(byte_bits(y)[7] == (y >> 0u8 & 1u8 == 1u8));
    assert(byte_bits(x)[7] == byte_bits(y)[7]);
    lemma_byte_bits_injective_bv(x, y);
}

/// Two byte sequences with the same bits are the same bytes: output
/// compared bit for bit is output compared byte for byte.
pub proof fn lemma_bits_of_bytes_injective(a: Seq<u8>, b: Seq<u8>)
    requires
        bits_of_bytes(a) == bits_of_bytes(b),
    ensures
        a == b,
    decreases a.len(),
{
    lemma_bits_of_bytes_len(a);
    lemma_bits_of_bytes_len(b);
    if a.len() == 0 {
        assert(a =~= b);
    } else {
        assert(byte_bits(a[0]) =~= byte_bits(b[0])) by {
            lemma_bits_of_bytes_len(a.drop_first());
            lemma_bits_of_bytes_len(b.drop_first());
            assert forall|i: int| 0 <= i < 8 implies byte_bits(a[0])[i] == byte_bits(b[0])[i] by {
                assert(bits_of_bytes(a)[i] == byte_bits(a[0])[i]);
                assert(bits_of_bytes(b)[i] == byte_bits(b[0])[i]);
            }
        }
        lemma_byte_bits_injective(a[0], b[0]);
        assert(bits_of_bytes(a.drop_first()) =~= bits_of_bytes(b.drop_first())) by {
            lemma_bits_of_bytes_len(a.drop_first());
            lemma_bits_of_bytes_len(b.drop_first());
            assert forall|i: int| 0 <= i < bits_of_bytes(a.drop_first()).len() implies bits_of_bytes(
                a.drop_first(),
            )[i] == bits_of_bytes(b.drop_first())[i] by {
                assert(bits_of_bytes(a)[i + 8] == bits_of_bytes(a.drop_first())[i]);
                assert(bits_of_bytes(b)[i + 8] == bits_of_bytes(b.drop_first())[i]);
            }
        }
        lemma_bits_of_bytes_injective(a.drop_first(), b.drop_first());
        assert forall|i: int| 0 <= i < a.len() implies a[i] == b[i] by {
            if i > 0 {
                assert(a.drop_first()[i - 1] == b.drop_first()[i - 1]);
            }
        }
        assert(a =~= b);
    }
}

} // verus!
