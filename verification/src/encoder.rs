//! A mathematical model of a conformant encoder, and the laws that tie it
//! to the decoder: a stream assembled from zero runs and literal spans,
//! closed by a final zero run, decodes to exactly the bits those runs
//! denote — so decoding gives back the encoder's original input, byte for
//! byte, whatever buffer sizes the caller uses.

use vstd::prelude::*;

verus! {

use vstd::arithmetic::power2::{pow2, lemma2_to64};
use crate::bits::{bits_of_bytes, bits_of_uint, zero_bits, lemma_bits_of_uint_len,
    lemma_uint_of_bits_of_uint, lemma_bits_of_bytes_injective};
use crate::format::{Command, decoded_bits, header_ok, opt_prepend, pad_len, parse_command,
    run_commands};

/// One run as an encoder would emit it: a zero run with the count-field
/// width the encoder chose, or a literal span of bits.
pub enum Run {
    Zeros { width: nat, count: nat },
    Data { bits: Seq<bool> },
}

/// The widths the prefix code offers for a zero run, and their prefixes.
pub open spec fn zero_prefix(width: nat) -> Seq<bool> {
    if width == 2 {
        seq![true]
    } else if width == 5 {
        seq![false, true]
    } else if width == 8 {
        seq![false, false, true]
    } else {
        seq![false, false, false, false, true]
    }
}

/// A run an encoder may emit: a representable zero count, or a literal
/// span short enough for the six-bit length field.
pub open spec fn valid_run(r: Run) -> bool {
    match r {
        Run::Zeros { width, count } => (width == 2 || width == 5 || width == 8 || width == 23)
            && count < pow2(width),
        Run::Data { bits } => bits.len() < 64,
    }
}

pub open spec fn valid_runs(rs: Seq<Run>) -> bool {
    forall|i: int| 0 <= i < rs.len() ==> valid_run(#[trigger] rs[i])
}

/// The bits an encoder emits for one run.
pub open spec fn encode_run(r: Run) -> Seq<bool> {
    match r {
        Run::Zeros { width, count } => zero_prefix(width) + bits_of_uint(count, width),
        Run::Data { bits } => seq![false, false, false, true] + bits_of_uint(bits.len(), 6)
            + bits,
    }
}

/// The output bits one run stands for: its payload, then the marker bit.
pub open spec fn run_output(r: Run) -> Seq<bool> {
    match r {
        Run::Zeros { width, count } => zero_bits(count) + seq![true],
        Run::Data { bits } => bits + seq![true],
    }
}

pub open spec fn encode_runs(rs: Seq<Run>) -> Seq<bool>
    decreases rs.len(),
{
    if rs.len() == 0 {
        Seq::empty()
    } else {
        encode_run(rs[0]) + encode_runs(rs.drop_first())
    }
}

pub open spec fn runs_output(rs: Seq<Run>) -> Seq<bool>
    decreases rs.len(),
{
    if rs.len() == 0 {
        Seq::empty()
    } else {
        run_output(rs[0]) + runs_output(rs.drop_first())
    }
}

/// The closing command: the final zero run, whose execution also pads the
/// output to a byte boundary.
pub open spec fn encode_final(count: nat) -> Seq<bool> {
    seq![false, false, false, false, false] + bits_of_uint(count, 23)
}

/// Reading a zero-run command back from the front of an encoded stream.
proof fn lemma_parse_zero_run(width: nat, count: nat, rest: Seq<bool>)
    requires
        width == 2 || width == 5 || width == 8 || width == 23,
        count < pow2(width),
    ensures
        parse_command(zero_prefix(width) + bits_of_uint(count, width) + rest) == Some(
            (Command::ZeroRun(count as u32), zero_prefix(width).len() + width as int),
        ),
        (zero_prefix(width) + bits_of_uint(count, width) + rest).skip(
            zero_prefix(width).len() + width as int,
        ) == rest,
{
    lemma2_to64();
    lemma_bits_of_uint_len(count, width);
    lemma_uint_of_bits_of_uint(count, width);
    let s = zero_prefix(width) + bits_of_uint(count, width) + rest;
    if width == 2 {
        assert(s[0] == true);
        assert(s.subrange(1, 3) =~= bits_of_uint(count, width));
        assert(s.skip(3) =~= rest);
    } else if width == 5 {
        assert(s[0] == false);
        assert(s[1] == true);
        assert(s.subrange(2, 7) =~= bits_of_uint(count, width));
        assert(s.skip(7) =~= rest);
    } else if width == 8 {
        assert(s[0] == false);
        assert(s[1] == false);
        assert(s[2] == true);
        assert(s.subrange(3, 11) =~= bits_of_uint(count, width));
        assert(s.skip(11) =~= rest);
    } else {
        assert(s[0] == false);
        assert(s[1] == false);
        assert(s[2] == false);
        assert(s[3] == false);
        assert(s[4] == true);
        assert(s.subrange(5, 28) =~= bits_of_uint(count, width));
        assert(s.skip(28) =~= rest);
    }
}

/// Reading a data-run command back from the front of an encoded stream.
proof fn lemma_parse_data_run(bits: Seq<bool>, rest: Seq<bool>)
    requires
        bits.len() < 64,
    ensures
        parse_command(encode_run(Run::Data { bits }) + rest) == Some(
            (Command::DataRun(bits.len() as u32), 10int),
        ),
        (encode_run(Run::Data { bits }) + rest).subrange(10, 10 + bits.len() as int) == bits,
        (encode_run(Run::Data { bits }) + rest).skip(10 + bits.len() as int) == rest,
{
    lemma2_to64();
    lemma_bits_of_uint_len(bits.len(), 6);
    lemma_uint_of_bits_of_uint(bits.len(), 6);
    let s = encode_run(Run::Data { bits }) + rest;
    assert(s[0] == false);
    assert(s[1] == false);
    assert(s[2] == false);
    assert(s[3] == true);
    assert(s.subrange(4, 10) =~= bits_of_uint(bits.len(), 6));
    assert(s.subrange(10, 10 + bits.len() as int) =~= bits);
    assert(s.skip(10 + bits.len() as int) =~= rest);
}

/// Reading the closing command back from the front of an encoded stream.
proof fn lemma_parse_final(count: nat, rest: Seq<bool>)
    requires
        count < pow2(23),
    ensures
        parse_command(encode_final(count) + rest) == Some(
            (Command::FinalZeroRun(count as u32), 28int),
        ),
{
    lemma2_to64();
    lemma_bits_of_uint_len(count, 23);
    lemma_uint_of_bits_of_uint(count, 23);
    let s = encode_final(count) + rest;
    assert(s[0] == false);
    assert(s[1] == false);
    assert(s[2] == false);
    assert(s[3] == false);
    assert(s[4] == false);
    assert(s.subrange(5, 28) =~= bits_of_uint(count, 23));
}

/// Running the command stream of an encoded run list produces exactly the
/// runs' outputs, the final zeros, and the padding — whatever bits trail
/// the closing command.
#[verifier::rlimit(100)]
#[verifier::spinoff_prover]
proof fn lemma_runs_decode(rs: Seq<Run>, fin: nat, tail: Seq<bool>, emitted: nat)
    requires
        valid_runs(rs),
        fin < pow2(23),
    ensures
        run_commands(encode_runs(rs) + encode_final(fin) + tail, emitted) == Some(
            runs_output(rs) + zero_bits(fin) + zero_bits(
                pad_len((emitted + runs_output(rs).len() + fin) as nat),
            ),
        ),
    decreases rs.len(),
{
    lemma2_to64();
    let s = encode_runs(rs) + encode_final(fin) + tail;
    if rs.len() == 0 {
        assert(s =~= encode_final(fin) + (tail));
        lemma_parse_final(fin, tail);
        assert(runs_output(rs) =~= Seq::<bool>::empty());
        assert(run_commands(s, emitted) == Some(
            zero_bits(fin as u32 as nat) + zero_bits(pad_len((emitted + fin as u32) as nat)),
        ));
        assert(Some(zero_bits(fin) + zero_bits(pad_len((emitted + fin) as nat))) == Some(
            runs_output(rs) + zero_bits(fin) + zero_bits(
                pad_len((emitted + runs_output(rs).len() + fin) as nat),
            ),
        )) by {
            assert(zero_bits(fin) + zero_bits(pad_len((emitted + fin) as nat)) =~= runs_output(rs)
                + zero_bits(fin) + zero_bits(
                pad_len((emitted + runs_output(rs).len() + fin) as nat),
            ));
        }
    } else {
        let r0 = rs[0];
        let rest = rs.drop_first();
        assert(valid_run(r0));
        assert(valid_runs(rest)) by {
            assert(forall|i: int|
                0 <= i < rest.len() ==> #[trigger] rest[i] == rs[i + 1] && valid_run(rs[i + 1]));
        }
        let r2 = encode_runs(rest) + encode_final(fin) + tail;
        assert(s =~= encode_run(r0) + r2);
        lemma_runs_decode(rest, fin, tail, (emitted + run_output(r0).len()) as nat);
        match r0 {
            Run::Zeros { width, count } => {
                lemma_parse_zero_run(width, count, r2);
                assert(count < pow2(23) || count < pow2(8) || count < pow2(5) || count < pow2(2));
                assert(count < 0x100000000) by {
                    vstd::arithmetic::power2::lemma_pow2_strictly_increases(width, 32);
                }
                let n = count as u32;
                assert(n as nat == count);
                assert(run_output(r0).len() == count + 1);
                let em2 = (emitted + count + 1) as nat;
                assert(run_commands(s, emitted) == opt_prepend(
                    zero_bits(count) + seq![true],
                    run_commands(r2, em2),
                ));
                assert(run_commands(s, emitted) == Some(
                    runs_output(rs) + zero_bits(fin) + zero_bits(
                        pad_len((emitted + runs_output(rs).len() + fin) as nat),
                    ),
                )) by {
                    assert((zero_bits(count) + seq![true]) + (runs_output(rest) + zero_bits(fin)
                        + zero_bits(
                        pad_len((em2 + runs_output(rest).len() + fin) as nat),
                    )) =~= runs_output(rs) + zero_bits(fin) + zero_bits(
                        pad_len((emitted + runs_output(rs).len() + fin) as nat),
                    ));
                }
            },
            Run::Data { bits } => {
                lemma_parse_data_run(bits, r2);
                let m = bits.len() as u32;
                assert(m as nat == bits.len());
                assert(run_output(r0).len() == bits.len() + 1);
                assert(s.len() - 10 >= m) by {
                    lemma_bits_of_uint_len(bits.len(), 6);
                }
                assert(s.subrange(10, 10 + m) == bits);
                assert(s.skip(10 + m) == r2);
                let em2 = (emitted + bits.len() + 1) as nat;
                assert(run_commands(s, emitted) == opt_prepend(
                    bits + seq![true],
                    run_commands(r2, em2),
                ));
                assert(run_commands(s, emitted) == Some(
                    runs_output(rs) + zero_bits(fin) + zero_bits(
                        pad_len((emitted + runs_output(rs).len() + fin) as nat),
                    ),
                )) by {
                    assert((bits + seq![true]) + (runs_output(rest) + zero_bits(fin) + zero_bits(
                        pad_len((em2 + runs_output(rest).len() + fin) as nat),
                    )) =~= runs_output(rs) + zero_bits(fin) + zero_bits(
                        pad_len((emitted + runs_output(rs).len() + fin) as nat),
                    ));
                }
            },
        }
    }
}

/// The round-trip law.  Take any conformant encoding of `plain`: a valid
/// run list whose outputs, followed by the final zeros and the byte-
/// boundary padding, are exactly the bits of `plain`, packed after the
/// magic into `input` (the last byte may carry arbitrary trailing bits).
/// Decoding `input` yields exactly the bits of `plain` — full equality,
/// whatever buffer sizes drive the decoder.
pub proof fn lemma_round_trip(
    input: Seq<u8>,
    rs: Seq<Run>,
    fin: nat,
    tail: Seq<bool>,
    plain: Seq<u8>,
)
    requires
        header_ok(input),
        bits_of_bytes(input.subrange(8, input.len() as int)) == encode_runs(rs) + encode_final(
            fin,
        ) + tail,
        valid_runs(rs),
        fin < pow2(23),
        bits_of_bytes(plain) == runs_output(rs) + zero_bits(fin) + zero_bits(
            pad_len((runs_output(rs).len() + fin) as nat),
        ),
    ensures
        decoded_bits(input) == Some(bits_of_bytes(plain)),
{
    lemma_runs_decode(rs, fin, tail, 0);
}

/// The round-trip law at byte level: whatever delivered bytes a decoder
/// that ran this stream to completion reports, they are the encoder's
/// original input, byte for byte.
pub proof fn lemma_round_trip_delivered(
    input: Seq<u8>,
    rs: Seq<Run>,
    fin: nat,
    tail: Seq<bool>,
    plain: Seq<u8>,
    delivered: Seq<u8>,
)
    requires
        header_ok(input),
        bits_of_bytes(input.subrange(8, input.len() as int)) == encode_runs(rs) + encode_final(
            fin,
        ) + tail,
        valid_runs(rs),
        fin < pow2(23),
        bits_of_bytes(plain) == runs_output(rs) + zero_bits(fin) + zero_bits(
            pad_len((runs_output(rs).len() + fin) as nat),
        ),
        decoded_bits(input) == Some(bits_of_bytes(delivered)),
    ensures
        delivered == plain,
{
    lemma_round_trip(input, rs, fin, tail, plain);
    lemma_bits_of_bytes_injective(delivered, plain);
}

/// Decoding is a function of the stream alone: two complete decodes of
/// the same stream deliver the same bytes, however the `read` calls were
/// sized or interleaved.
pub proof fn lemma_decode_deterministic(input: Seq<u8>, d1: Seq<u8>, d2: Seq<u8>)
    requires
        decoded_bits(input) == Some(bits_of_bytes(d1)),
        decoded_bits(input) == Some(bits_of_bytes(d2)),
    ensures
        d1 == d2,
{
    lemma_bits_of_bytes_injective(d1, d2);
}

} // verus!
