//! The command-driven state machine: owns one reader and one writer, pulls
//! commands off the compressed stream and drives the writer under
//! backpressure, resuming partially executed runs across `read` calls.
//!
//! The central invariant: the bits already handed to the caller, plus the
//! bits inside the writer, plus the bits the machine still owes from its
//! current state, are exactly what the whole stream decodes to.

use vstd::prelude::*;

verus! {

use crate::bits::{bits_of_bytes, zero_bits, lemma_bits_of_bytes_len, lemma_bits_of_bytes_add,
    lemma_bits_of_bytes_skip};
use crate::format::{Command, decoded_bits, header_ok, magic_byte, opt_prepend, pad_len,
    parse_command, partial_output, run_commands, spec_magic, yielded_bits};
use crate::reader::DecoderReader;
use crate::writer::DecoderWriter;

/// Why a decode stopped: a bad or missing magic, bits missing where a
/// command or data run needed them, or a call after an earlier failure.
#[derive(Debug, PartialEq, Eq, Structural, Clone, Copy)]
pub enum DecoderError {
    InvalidHeader,
    UnexpectedEof,
    InvalidState,
}

/// Where the state machine stands; the counts say how many bits of the
/// current run are still owed.
#[derive(Debug, PartialEq, Eq, Structural, Clone, Copy)]
enum DecoderState {
    Initial,
    Started,
    WriteZeroOne(u32),
    WriteZeroFinish(u32),
    WriteDataOne(u32),
    Finished,
    Error,
}

/// The bits the machine still owes, standing in `state` with `input` left
/// to read and `emitted` output bits already produced.
spec fn future_out(state: DecoderState, input: Seq<bool>, emitted: nat) -> Option<Seq<bool>> {
    match state {
        DecoderState::Started => run_commands(input, emitted),
        DecoderState::WriteZeroOne(n) => opt_prepend(
            zero_bits(n as nat) + seq![true],
            run_commands(input, (emitted + n + 1) as nat),
        ),
        DecoderState::WriteDataOne(n) => if input.len() < n {
            None
        } else {
            opt_prepend(
                input.take(n as int) + seq![true],
                run_commands(input.skip(n as int), (emitted + n + 1) as nat),
            )
        },
        DecoderState::WriteZeroFinish(n) => Some(
            zero_bits(n as nat) + zero_bits(pad_len((emitted + n) as nat)),
        ),
        DecoderState::Finished => Some(Seq::<bool>::empty()),
        _ => None,
    }
}

/// The bits the machine will still emit before the stream's end or its
/// first malformed command, standing in `state`; nothing once it has
/// finished or failed.
spec fn partial_future(state: DecoderState, input: Seq<bool>, emitted: nat) -> Seq<bool> {
    match state {
        DecoderState::Started => partial_output(input, emitted),
        DecoderState::WriteZeroOne(n) => zero_bits(n as nat) + seq![true] + partial_output(
            input,
            (emitted + n + 1) as nat,
        ),
        DecoderState::WriteDataOne(n) => if input.len() < n {
            Seq::empty()
        } else {
            input.take(n as int) + seq![true] + partial_output(
                input.skip(n as int),
                (emitted + n + 1) as nat,
            )
        },
        DecoderState::WriteZeroFinish(n) => zero_bits(n as nat) + zero_bits(
            pad_len((emitted + n) as nat),
        ),
        _ => Seq::empty(),
    }
}

/// Orders the states so that each step with writer capacity shrinks
/// (reader bits, owed count, rank) lexicographically.
spec fn state_rank(state: DecoderState) -> int {
    match state {
        DecoderState::Finished => 0,
        DecoderState::Error => 0,
        DecoderState::Started => 1,
        DecoderState::WriteZeroOne(_) => 2,
        DecoderState::WriteZeroFinish(_) => 2,
        DecoderState::WriteDataOne(_) => 2,
        DecoderState::Initial => 3,
    }
}

/// How many bits the current run still owes.
spec fn state_payload(state: DecoderState) -> int {
    match state {
        DecoderState::WriteZeroOne(n) => n as int,
        DecoderState::WriteZeroFinish(n) => n as int,
        DecoderState::WriteDataOne(n) => n as int,
        _ => 0,
    }
}

/// The command a parsed prefix starts executing.
spec fn state_of_command(cmd: Command) -> DecoderState {
    match cmd {
        Command::ZeroRun(n) => DecoderState::WriteZeroOne(n),
        Command::DataRun(n) => DecoderState::WriteDataOne(n),
        Command::FinalZeroRun(n) => DecoderState::WriteZeroFinish(n),
    }
}

/// Streaming decoder over a borrowed compressed slice.  Pull decoded bytes
/// with `read` until it reports zero bytes (clean end) or an error.
pub struct Decoder<'a> {
    reader: DecoderReader<'a>,
    writer: DecoderWriter,
    state: DecoderState,
    input: Ghost<Seq<u8>>,
    delivered: Ghost<Seq<u8>>,
}

impl<'a> Decoder<'a> {
    /// The whole compressed input this decoder was built over.
    pub closed spec fn input(&self) -> Seq<u8> {
        self.input@
    }

    /// Every byte handed to the caller so far, in order.
    pub closed spec fn delivered(&self) -> Seq<u8> {
        self.delivered@
    }

    /// The stream ended cleanly.
    pub closed spec fn is_finished(&self) -> bool {
        self.state is Finished
    }

    /// The decoder failed and will keep failing.
    pub closed spec fn is_errored(&self) -> bool {
        self.state is Error
    }

    /// No `read` call has decoded anything yet.
    pub closed spec fn is_fresh(&self) -> bool {
        self.state is Initial
    }

    /// Output bits produced so far: delivered bytes, then what the writer
    /// still holds.
    spec fn emitted_bits(&self) -> Seq<bool> {
        bits_of_bytes(self.delivered@) + self.writer.all_bits()
    }

    /// The central invariant; see the module header.
    pub closed spec fn wf(&self) -> bool {
        &&& self.reader.inv()
        &&& self.writer.inv()
        &&& match self.state {
            DecoderState::Initial => {
                &&& self.reader.remaining_bytes() == self.input@
                &&& self.reader.window_len() == 0
                &&& self.reader@ == bits_of_bytes(self.input@)
                &&& self.delivered@.len() == 0
                &&& self.writer.all_bits().len() == 0
                &&& self.writer.pending().len() == 0
                &&& self.writer.queued().len() == 0
            },
            DecoderState::Started | DecoderState::WriteZeroOne(_) | DecoderState::WriteZeroFinish(
                _,
            ) | DecoderState::WriteDataOne(_) => {
                &&& header_ok(self.input@)
                &&& decoded_bits(self.input@) == opt_prepend(
                    self.emitted_bits(),
                    future_out(self.state, self.reader@, self.emitted_bits().len()),
                )
                &&& yielded_bits(self.input@) == self.emitted_bits() + partial_future(
                    self.state,
                    self.reader@,
                    self.emitted_bits().len(),
                )
            },
            DecoderState::Finished => {
                &&& decoded_bits(self.input@) == Some(self.emitted_bits())
                &&& yielded_bits(self.input@) == self.emitted_bits()
                &&& self.writer.pending().len() % 8 == 0
            },
            DecoderState::Error => true,
        }
    }

    /// A fresh decoder over `compressed`.  The length bound keeps the
    /// total bit count inside a `usize`.
    pub fn new(compressed: &'a [u8]) -> (r: Decoder<'a>)
        requires
            8 * compressed@.len() + 32 <= usize::MAX,
        ensures
            r.wf(),
            r.is_fresh(),
            !r.is_errored(),
            !r.is_finished(),
            r.input() == compressed@,
            r.delivered() == Seq::<u8>::empty(),
    {
        let r = Decoder {
            reader: DecoderReader::new(compressed),
            writer: DecoderWriter::new(),
            state: DecoderState::Initial,
            input: Ghost(compressed@),
            delivered: Ghost(Seq::empty()),
        };
        r
    }

    /// One reader bit, or the end-of-stream error.
    fn read_bit(&mut self) -> (r: Result<bool, DecoderError>)
        requires
            old(self).reader.inv(),
        ensures
            final(self).reader.inv(),
            final(self).writer == old(self).writer,
            final(self).state == old(self).state,
            final(self).input == old(self).input,
            final(self).delivered == old(self).delivered,
            r is Ok <==> old(self).reader@.len() > 0,
            r matches Ok(b) ==> b == old(self).reader@[0] && final(self).reader@ == old(self).reader@.skip(1),
            r is Err ==> r == Err::<bool, DecoderError>(DecoderError::UnexpectedEof) && final(self).reader@ == old(self).reader@,
    {
        match self.reader.read_bit() {
            Some(b) => Ok(b),
            None => Err(DecoderError::UnexpectedEof),
        }
    }

    /// One fixed-width integer field, or the end-of-stream error.
    fn read_int(&mut self, bits: usize) -> (r: Result<u32, DecoderError>)
        requires
            old(self).reader.inv(),
            bits <= 25,
        ensures
            final(self).reader.inv(),
            final(self).writer == old(self).writer,
            final(self).state == old(self).state,
            final(self).input == old(self).input,
            final(self).delivered == old(self).delivered,
            r is Ok <==> old(self).reader@.len() >= bits,
            r matches Ok(v) ==> v == crate::bits::uint_of_bits(old(self).reader@.take(bits as int))
                && final(self).reader@ == old(self).reader@.skip(bits as int),
            r is Err ==> r == Err::<u32, DecoderError>(DecoderError::UnexpectedEof) && final(self).reader@ == old(self).reader@,
    {
        match self.reader.read_int(bits) {
            Some(v) => Ok(v),
            None => Err(DecoderError::UnexpectedEof),
        }
    }

    /// Reads one command prefix and its count field; consumes exactly the
    /// command's bits on success, and fails exactly when the spec-level
    /// parse does.
    fn decode_command(&mut self) -> (r: Result<DecoderState, DecoderError>)
        requires
            old(self).reader.inv(),
        ensures
            final(self).reader.inv(),
            final(self).writer == old(self).writer,
            final(self).state == old(self).state,
            final(self).input == old(self).input,
            final(self).delivered == old(self).delivered,
            match r {
                Ok(s) => match parse_command(old(self).reader@) {
                    Some((cmd, c)) => s == state_of_command(cmd) && final(self).reader@ == old(self).reader@.skip(c),
                    None => false,
                },
                Err(e) => e == DecoderError::UnexpectedEof && parse_command(old(self).reader@)
                    is None,
            },
    {
        let ghost v0 = self.reader@;
        let state = if self.read_bit()? {
            let n = self.read_int(2)?;
            proof {
                assert(v0.skip(1).take(2) =~= v0.subrange(1, 3));
                assert(v0.skip(1).skip(2) =~= v0.skip(3));
            }
            DecoderState::WriteZeroOne(n)
        } else if self.read_bit()? {
            let n = self.read_int(5)?;
            proof {
                assert(v0.skip(1)[0] == v0[1]);
                assert(v0.skip(2).take(5) =~= v0.subrange(2, 7));
                assert(v0.skip(1).skip(1) =~= v0.skip(2));
                assert(v0.skip(2).skip(5) =~= v0.skip(7));
            }
            DecoderState::WriteZeroOne(n)
        } else if self.read_bit()? {
            let n = self.read_int(8)?;
            proof {
                assert(v0.skip(1)[0] == v0[1]);
                assert(v0.skip(2)[0] == v0[2]);
                assert(v0.skip(1).skip(1) =~= v0.skip(2));
                assert(v0.skip(2).skip(1) =~= v0.skip(3));
                assert(v0.skip(3).take(8) =~= v0.subrange(3, 11));
                assert(v0.skip(3).skip(8) =~= v0.skip(11));
            }
            DecoderState::WriteZeroOne(n)
        } else if self.read_bit()? {
            let n = self.read_int(6)?;
            proof {
                assert(v0.skip(1)[0] == v0[1]);
                assert(v0.skip(2)[0] == v0[2]);
                assert(v0.skip(3)[0] == v0[3]);
                assert(v0.skip(1).skip(1) =~= v0.skip(2));
                assert(v0.skip(2).skip(1) =~= v0.skip(3));
                assert(v0.skip(3).skip(1) =~= v0.skip(4));
                assert(v0.skip(4).take(6) =~= v0.subrange(4, 10));
                assert(v0.skip(4).skip(6) =~= v0.skip(10));
            }
            DecoderState::WriteDataOne(n)
        } else if self.read_bit()? {
            let n = self.read_int(23)?;
            proof {
                assert(v0.skip(1)[0] == v0[1]);
                assert(v0.skip(2)[0] == v0[2]);
                assert(v0.skip(3)[0] == v0[3]);
                assert(v0.skip(4)[0] == v0[4]);
                assert(v0.skip(1).skip(1) =~= v0.skip(2));
                assert(v0.skip(2).skip(1) =~= v0.skip(3));
                assert(v0.skip(3).skip(1) =~= v0.skip(4));
                assert(v0.skip(4).skip(1) =~= v0.skip(5));
                assert(v0.skip(5).take(23) =~= v0.subrange(5, 28));
                assert(v0.skip(5).skip(23) =~= v0.skip(28));
            }
            DecoderState::WriteZeroOne(n)
        } else {
            let n = self.read_int(23)?;
            proof {
                assert(v0.skip(1)[0] == v0[1]);
                assert(v0.skip(2)[0] == v0[2]);
                assert(v0.skip(3)[0] == v0[3]);
                assert(v0.skip(4)[0] == v0[4]);
                assert(v0.skip(1).skip(1) =~= v0.skip(2));
                assert(v0.skip(2).skip(1) =~= v0.skip(3));
                assert(v0.skip(3).skip(1) =~= v0.skip(4));
                assert(v0.skip(4).skip(1) =~= v0.skip(5));
                assert(v0.skip(5).take(23) =~= v0.subrange(5, 28));
                assert(v0.skip(5).skip(23) =~= v0.skip(28));
            }
            DecoderState::WriteZeroFinish(n)
        };
        Ok(state)
    }
}

impl<'a> Decoder<'a> {
    /// Validates the magic and moves on to command reading, or records the
    /// header error.
    fn step_initial(&mut self) -> (r: Result<(), DecoderError>)
        requires
            old(self).wf(),
            old(self).state is Initial,
        ensures
            final(self).wf(),
            final(self).input == old(self).input,
            final(self).delivered == old(self).delivered,
            match r {
                Ok(_) => !(final(self).state is Error) && !(final(self).state is Initial),
                Err(e) => {
                    &&& final(self).state is Error
                    &&& (e is InvalidHeader || e is UnexpectedEof)
                    &&& (e is InvalidHeader ==> !header_ok(old(self).input@) && old(self).state is Initial)
                    &&& (e is UnexpectedEof ==> header_ok(old(self).input@) && decoded_bits(
                        old(self).input@,
                    ) is None)
                },
            },
            old(self).state is Initial && !header_ok(old(self).input@) ==> r == Err::<
                (),
                DecoderError,
            >(DecoderError::InvalidHeader),
            r is Ok && old(self).writer.spec_space() > 0 ==> (final(self).reader@.len()
                < old(self).reader@.len() || (final(self).reader@.len() == old(self).reader@.len()
                && (state_payload(final(self).state) < state_payload(old(self).state) || (
            state_payload(final(self).state) == state_payload(old(self).state) && state_rank(
                final(self).state,
            ) < state_rank(old(self).state))))),
    {
        let hdr_ok: bool;
        {
            let compressed = self.reader.inner();
            if compressed.len() < 8 {
                hdr_ok = false;
            } else {
                let mut ok = true;
                let mut i: usize = 0;
                while i < 8
                    invariant
                        i <= 8,
                        compressed@.len() >= 8,
                        compressed@ == old(self).input@,
                        ok <==> (forall|j: int|
                            0 <= j < i ==> compressed@[j] == spec_magic()[j]),
                    decreases 8 - i,
                {
                    if compressed[i] != magic_byte(i) {
                        ok = false;
                    }
                    i = i + 1;
                }
                hdr_ok = ok;
                proof {
                    if ok {
                        assert(compressed@.subrange(0, 8) =~= spec_magic());
                    } else {
                        let j = choose|j: int|
                            0 <= j < 8 && compressed@[j] != spec_magic()[j];
                        assert(compressed@.subrange(0, 8)[j] == compressed@[j]);
                    }
                    assert(hdr_ok <==> header_ok(self.input@));
                }
            }
        }
        if !hdr_ok {
            self.state = DecoderState::Error;
            return Err(DecoderError::InvalidHeader);
        }
        proof {
            lemma_bits_of_bytes_len(self.input@);
            lemma_bits_of_bytes_skip(self.input@, 8);
        }
        self.reader.skip_bytes(8);
        self.state = DecoderState::Started;
        proof {
            assert(self.delivered@ =~= Seq::<u8>::empty());
            assert(self.emitted_bits() =~= Seq::<bool>::empty());
            assert(self.input@.skip(8) =~= self.input@.subrange(8, self.input@.len() as int));
            assert(self.reader@ == bits_of_bytes(self.input@.subrange(8, self.input@.len() as int)));
            lemma_opt_prepend_empty(run_commands(self.reader@, 0));
            assert(decoded_bits(self.input@) == opt_prepend(
                self.emitted_bits(),
                future_out(self.state, self.reader@, self.emitted_bits().len()),
            ));
        }
        Ok(())
    }

    /// Decodes one command and enters its executing state.
    fn step_started(&mut self) -> (r: Result<(), DecoderError>)
        requires
            old(self).wf(),
            old(self).state is Started,
        ensures
            final(self).wf(),
            final(self).input == old(self).input,
            final(self).delivered == old(self).delivered,
            match r {
                Ok(_) => !(final(self).state is Error) && !(final(self).state is Initial),
                Err(e) => {
                    &&& final(self).state is Error
                    &&& (e is InvalidHeader || e is UnexpectedEof)
                    &&& (e is InvalidHeader ==> !header_ok(old(self).input@) && old(self).state is Initial)
                    &&& (e is UnexpectedEof ==> header_ok(old(self).input@) && decoded_bits(
                        old(self).input@,
                    ) is None)
                },
            },
            r is Ok && old(self).writer.spec_space() > 0 ==> (final(self).reader@.len()
                < old(self).reader@.len() || (final(self).reader@.len() == old(self).reader@.len()
                && (state_payload(final(self).state) < state_payload(old(self).state) || (
            state_payload(final(self).state) == state_payload(old(self).state) && state_rank(
                final(self).state,
            ) < state_rank(old(self).state))))),
    {
        let ghost v0 = self.reader@;
        let ghost em = self.emitted_bits();
        match self.decode_command() {
            Ok(s) => {
                self.state = s;
                proof {
                    lemma_parse_bounds(v0);
                    assert(self.emitted_bits() == em);
                    match parse_command(v0) {
                        Some((cmd, c)) => {
                            match cmd {
                                Command::ZeroRun(n) => {
                                },
                                Command::DataRun(n) => {
                                    if v0.len() - c >= n {
                                        assert(v0.skip(c).take(n as int) =~= v0.subrange(
                                            c,
                                            c + n,
                                        ));
                                        assert(v0.skip(c).skip(n as int) =~= v0.skip(
                                            c + n,
                                        ));
                                    }
                                },
                                Command::FinalZeroRun(n) => {
                                },
                            }
                        },
                        None => {
                            assert(false);
                        },
                    }
                    assert(future_out(self.state, self.reader@, em.len())
                        == run_commands(v0, em.len()));
                }
                Ok(())
            },
            Err(e) => {
                self.state = DecoderState::Error;
                proof {
                    assert(run_commands(v0, em.len()) is None);
                    assert(decoded_bits(self.input@) is None);
                }
                Err(e)
            },
        }
    }

    /// Moves a zero run forward as far as capacity allows, then its marker.
    #[verifier::rlimit(60)]
    #[verifier::spinoff_prover]
    fn step_zero_run(&mut self, count: u32) -> (r: Result<(), DecoderError>)
        requires
            old(self).wf(),
            old(self).state == DecoderState::WriteZeroOne(count),
        ensures
            final(self).wf(),
            final(self).input == old(self).input,
            final(self).delivered == old(self).delivered,
            match r {
                Ok(_) => !(final(self).state is Error) && !(final(self).state is Initial),
                Err(e) => {
                    &&& final(self).state is Error
                    &&& (e is InvalidHeader || e is UnexpectedEof)
                    &&& (e is InvalidHeader ==> !header_ok(old(self).input@) && old(self).state is Initial)
                    &&& (e is UnexpectedEof ==> header_ok(old(self).input@) && decoded_bits(
                        old(self).input@,
                    ) is None)
                },
            },
            r is Ok && old(self).writer.spec_space() > 0 ==> (final(self).reader@.len()
                < old(self).reader@.len() || (final(self).reader@.len() == old(self).reader@.len()
                && (state_payload(final(self).state) < state_payload(old(self).state) || (
            state_payload(final(self).state) == state_payload(old(self).state) && state_rank(
                final(self).state,
            ) < state_rank(old(self).state))))),
    {
        let ghost em = self.emitted_bits();
        let ghost v0 = self.reader@;
        let ghost lL = em.len();
        if count > 0 {
            let ghost rr = run_commands(v0, (lL + count + 1) as nat);
            let n = self.writer.write_zeros(count);
            if n > 0 {
                self.state = DecoderState::WriteZeroOne(count - n);
            }
            proof {
                assert(self.state == DecoderState::WriteZeroOne((count - n) as u32));
                assert(self.emitted_bits() =~= em + zero_bits(n as nat));
                lemma_opt_prepend_assoc(em, zero_bits(count as nat) + seq![true], rr);
                lemma_opt_prepend_assoc(
                    em + zero_bits(n as nat),
                    zero_bits((count - n) as nat) + seq![true],
                    rr,
                );
                assert(em + (zero_bits(count as nat) + seq![true]) =~= (em + zero_bits(
                    n as nat,
                )) + (zero_bits((count - n) as nat) + seq![true]));
                assert(self.emitted_bits().len() == lL + n);
                let ghost pp = partial_output(v0, (lL + count + 1) as nat);
                assert(em + (zero_bits(count as nat) + seq![true] + pp) =~= (em + zero_bits(
                    n as nat,
                )) + (zero_bits((count - n) as nat) + seq![true] + pp));
            }
            Ok(())
        } else {
            let ghost rr = run_commands(v0, (lL + 1) as nat);
            let res = self.writer.write_bit(true);
            if res.is_ok() {
                self.state = DecoderState::Started;
                proof {
                    assert(self.emitted_bits() =~= em.push(true));
                    lemma_opt_prepend_assoc(em, zero_bits(0) + seq![true], rr);
                    lemma_opt_prepend_assoc(em.push(true), Seq::<bool>::empty(), rr);
                    assert(em + (zero_bits(0) + seq![true]) =~= em.push(true)
                        + Seq::<bool>::empty());
                    lemma_opt_prepend_empty(rr);
                    assert(self.emitted_bits().len() == lL + 1);
                    let ghost pp = partial_output(v0, (lL + 1) as nat);
                    assert(em + (zero_bits(0) + seq![true] + pp) =~= em.push(true) + pp);
                }
            } else {
                proof {
                    assert(self.emitted_bits() =~= em);
                }
            }
            Ok(())
        }
    }

    /// Moves the final zero run forward; once done, pads and finishes.
    #[verifier::rlimit(60)]
    #[verifier::spinoff_prover]
    fn step_final_zero_run(&mut self, count: u32) -> (r: Result<(), DecoderError>)
        requires
            old(self).wf(),
            old(self).state == DecoderState::WriteZeroFinish(count),
        ensures
            final(self).wf(),
            final(self).input == old(self).input,
            final(self).delivered == old(self).delivered,
            match r {
                Ok(_) => !(final(self).state is Error) && !(final(self).state is Initial),
                Err(e) => {
                    &&& final(self).state is Error
                    &&& (e is InvalidHeader || e is UnexpectedEof)
                    &&& (e is InvalidHeader ==> !header_ok(old(self).input@) && old(self).state is Initial)
                    &&& (e is UnexpectedEof ==> header_ok(old(self).input@) && decoded_bits(
                        old(self).input@,
                    ) is None)
                },
            },
            r is Ok && old(self).writer.spec_space() > 0 ==> (final(self).reader@.len()
                < old(self).reader@.len() || (final(self).reader@.len() == old(self).reader@.len()
                && (state_payload(final(self).state) < state_payload(old(self).state) || (
            state_payload(final(self).state) == state_payload(old(self).state) && state_rank(
                final(self).state,
            ) < state_rank(old(self).state))))),
    {
        let ghost em = self.emitted_bits();
        let ghost lL = em.len();
        if count > 0 {
            let n = self.writer.write_zeros(count);
            if n > 0 {
                self.state = DecoderState::WriteZeroFinish(count - n);
            }
            proof {
                assert(self.state == DecoderState::WriteZeroFinish((count - n) as u32));
                assert(self.emitted_bits() =~= em + zero_bits(n as nat));
                assert(em + (zero_bits(count as nat) + zero_bits(
                    pad_len((lL + count) as nat),
                )) =~= (em + zero_bits(n as nat)) + (zero_bits((count - n) as nat)
                    + zero_bits(pad_len((lL + n + (count - n)) as nat))));
                assert(self.emitted_bits().len() == lL + n);
            }
            Ok(())
        } else {
            proof {
                lemma_bits_of_bytes_len(self.delivered@);
                assert(lL % 8 == self.writer.all_bits().len() % 8);
            }
            self.writer.write_trailing_zeros();
            self.state = DecoderState::Finished;
            proof {
                assert(self.emitted_bits() =~= em + zero_bits(pad_len(lL as nat)));
                assert(em + (zero_bits(0) + zero_bits(pad_len(lL as nat))) =~= em
                    + zero_bits(pad_len(lL as nat)));
                assert(decoded_bits(self.input@) == Some(self.emitted_bits()));
            }
            Ok(())
        }
    }

    /// Copies literal bits under capacity, then the marker; checks the reader holds enough first.
    #[verifier::rlimit(100)]
    #[verifier::spinoff_prover]
    fn step_data_run(&mut self, count: u32) -> (r: Result<(), DecoderError>)
        requires
            old(self).wf(),
            old(self).state == DecoderState::WriteDataOne(count),
        ensures
            final(self).wf(),
            final(self).input == old(self).input,
            final(self).delivered == old(self).delivered,
            match r {
                Ok(_) => !(final(self).state is Error) && !(final(self).state is Initial),
                Err(e) => {
                    &&& final(self).state is Error
                    &&& (e is InvalidHeader || e is UnexpectedEof)
                    &&& (e is InvalidHeader ==> !header_ok(old(self).input@) && old(self).state is Initial)
                    &&& (e is UnexpectedEof ==> header_ok(old(self).input@) && decoded_bits(
                        old(self).input@,
                    ) is None)
                },
            },
            r is Ok && old(self).writer.spec_space() > 0 ==> (final(self).reader@.len()
                < old(self).reader@.len() || (final(self).reader@.len() == old(self).reader@.len()
                && (state_payload(final(self).state) < state_payload(old(self).state) || (
            state_payload(final(self).state) == state_payload(old(self).state) && state_rank(
                final(self).state,
            ) < state_rank(old(self).state))))),
    {
        let ghost em = self.emitted_bits();
        let ghost v0 = self.reader@;
        let ghost lL = em.len();
        let ghost w0 = self.writer.all_bits();
        if self.reader.len_bits() < count as usize {
            self.state = DecoderState::Error;
            return Err(DecoderError::UnexpectedEof);
        }
        if count > 0 {
            let ghost rr = run_commands(v0.skip(count as int), (lL + count + 1) as nat);
            let mut written: u32 = 0;
            while written < count && self.writer.space_bits() > 0
                invariant
                    self.reader.inv(),
                    self.writer.inv(),
                    written <= count,
                    count <= v0.len(),
                    self.state == old(self).state,
                    self.input == old(self).input,
                    self.delivered == old(self).delivered,
                    self.reader@ == v0.skip(written as int),
                    self.writer.all_bits() == w0 + v0.take(written as int),
                    written == 0 ==> self.writer.spec_space() == old(self).writer.spec_space(),
                decreases count - written,
            {
                proof {
                    assert(self.reader@.len() > 0);
                }
                let bit = self.reader.read_bit().unwrap();
                let res = self.writer.write_bit(bit);
                proof {
                    assert(res is Ok);
                    assert(bit == v0[written as int]);
                    assert(v0.take(written + 1) =~= v0.take(written as int).push(
                        v0[written as int],
                    ));
                    assert(self.writer.all_bits() =~= w0 + v0.take(written + 1));
                }
                written = written + 1;
            }
            if written > 0 {
                self.state = DecoderState::WriteDataOne(count - written);
            }
            proof {
                let w = written as int;
                assert(self.state == DecoderState::WriteDataOne((count - written) as u32));
                assert(self.emitted_bits() =~= em + v0.take(w));
                assert(self.reader@.len() == v0.len() - w);
                assert(self.reader@.take(count - w) =~= v0.subrange(w, count as int));
                assert(self.reader@.skip(count - w) =~= v0.skip(count as int));
                lemma_opt_prepend_assoc(em, v0.take(count as int) + seq![true], rr);
                lemma_opt_prepend_assoc(
                    em + v0.take(w),
                    v0.subrange(w, count as int) + seq![true],
                    rr,
                );
                assert(em + (v0.take(count as int) + seq![true]) =~= (em + v0.take(w)) + (
                v0.subrange(w, count as int) + seq![true]));
                assert(self.emitted_bits().len() == lL + w);
                let ghost pp = partial_output(v0.skip(count as int), (lL + count + 1) as nat);
                assert(em + (v0.take(count as int) + seq![true] + pp) =~= (em + v0.take(w)) + (
                v0.subrange(w, count as int) + seq![true] + pp));
            }
            Ok(())
        } else {
            let ghost rr = run_commands(v0, (lL + 1) as nat);
            let res = self.writer.write_bit(true);
            if res.is_ok() {
                self.state = DecoderState::Started;
                proof {
                    assert(self.emitted_bits() =~= em.push(true));
                    assert(v0.take(0) =~= Seq::<bool>::empty());
                    assert(v0.skip(0) =~= v0);
                    lemma_opt_prepend_assoc(em, v0.take(0) + seq![true], rr);
                    lemma_opt_prepend_assoc(em.push(true), Seq::<bool>::empty(), rr);
                    assert(em + (v0.take(0) + seq![true]) =~= em.push(true)
                        + Seq::<bool>::empty());
                    lemma_opt_prepend_empty(rr);
                    assert(self.emitted_bits().len() == lL + 1);
                    let ghost pp = partial_output(v0, (lL + 1) as nat);
                    assert(partial_output(v0.skip(0), (lL + 1) as nat) == pp);
                    assert(em + (v0.take(0) + seq![true] + pp) =~= em.push(true) + pp);
                }
            } else {
                proof {
                    assert(self.emitted_bits() =~= em);
                }
            }
            Ok(())
        }
    }

    /// Advances the machine one step: validates the header, decodes one
    /// command, or moves the current run forward as far as writer capacity
    /// allows.  A failure is recorded in the state and returned.
    fn decode_one(&mut self) -> (r: Result<(), DecoderError>)
        requires
            old(self).wf(),
            !old(self).is_finished(),
            !old(self).is_errored(),
        ensures
            final(self).wf(),
            final(self).input == old(self).input,
            final(self).delivered == old(self).delivered,
            match r {
                Ok(_) => !(final(self).state is Error) && !(final(self).state is Initial),
                Err(e) => {
                    &&& final(self).state is Error
                    &&& (e is InvalidHeader || e is UnexpectedEof)
                    &&& (e is InvalidHeader ==> !header_ok(old(self).input@) && old(self).state is Initial)
                    &&& (e is UnexpectedEof ==> header_ok(old(self).input@) && decoded_bits(
                        old(self).input@,
                    ) is None)
                },
            },
            old(self).state is Initial && !header_ok(old(self).input@) ==> r == Err::<
                (),
                DecoderError,
            >(DecoderError::InvalidHeader),
            r is Ok && old(self).writer.spec_space() > 0 ==> (final(self).reader@.len()
                < old(self).reader@.len() || (final(self).reader@.len() == old(self).reader@.len()
                && (state_payload(final(self).state) < state_payload(old(self).state) || (
            state_payload(final(self).state) == state_payload(old(self).state) && state_rank(
                final(self).state,
            ) < state_rank(old(self).state))))),
    {
        match self.state {
            DecoderState::Initial => self.step_initial(),
            DecoderState::Started => self.step_started(),
            DecoderState::WriteZeroOne(count) => self.step_zero_run(count),
            DecoderState::WriteZeroFinish(count) => self.step_final_zero_run(count),
            DecoderState::WriteDataOne(count) => self.step_data_run(count),
            _ => {
                proof {
                    assert(false);
                }
                Err(DecoderError::InvalidState)
            },
        }
    }

    /// Fills `buf` from the front: drains bytes the writer already holds,
    /// and steps the state machine while room remains.  Returns how many
    /// bytes were produced; fewer than `buf.len()` — in particular zero —
    /// means the stream ended cleanly.  After a failure every call fails
    /// with `InvalidState` and changes nothing.
    pub fn read(&mut self, buf: &mut [u8]) -> (r: Result<usize, DecoderError>)
        requires
            old(self).wf(),
        ensures
            final(self).wf(),
            final(self).input() == old(self).input(),
            final(buf)@.len() == old(buf)@.len(),
            match r {
                Ok(k) => {
                    &&& k <= old(buf)@.len()
                    &&& final(self).delivered() == old(self).delivered() + final(buf)@.subrange(
                        0,
                        k as int,
                    )
                    &&& (forall|j: int|
                        k <= j < old(buf)@.len() ==> final(buf)@[j] == old(buf)@[j])
                    &&& !final(self).is_errored()
                    &&& (k < old(buf)@.len() ==> final(self).is_finished() && decoded_bits(
                        old(self).input(),
                    ) == Some(bits_of_bytes(final(self).delivered())))
                    &&& (old(self).is_finished() ==> final(self).is_finished())
                    &&& bits_of_bytes(final(self).delivered()).is_prefix_of(
                        yielded_bits(old(self).input()),
                    )
                },
                Err(e) => {
                    &&& final(self).is_errored()
                    &&& (e == DecoderError::InvalidState <==> old(self).is_errored())
                    &&& (old(self).is_errored() ==> *final(self) == *old(self) && final(buf)@ == old(buf)@)
                    &&& (e == DecoderError::InvalidHeader ==> !header_ok(old(self).input()))
                    &&& (e == DecoderError::UnexpectedEof ==> header_ok(old(self).input())
                        && decoded_bits(old(self).input()) is None)
                    &&& (exists|j: int|
                        0 <= j <= old(buf)@.len() && final(self).delivered() == old(self).delivered() + final(buf)@.subrange(0, j))
                },
            },
            old(self).is_fresh() && !header_ok(old(self).input()) && old(buf)@.len() > 0 ==> r
                == Err::<usize, DecoderError>(DecoderError::InvalidHeader),
            old(self).is_finished() ==> r is Ok,
            old(self).is_errored() ==> r is Err,
            r == Err::<usize, DecoderError>(DecoderError::InvalidHeader) ==> final(buf)@ == old(buf)@ && final(self).delivered() == old(self).delivered(),
    {
        if self.state == DecoderState::Error {
            proof {
                assert(self.delivered@ =~= self.delivered@ + buf@.subrange(0, 0));
            }
            return Err(DecoderError::InvalidState);
        }
        let mut offset: usize = 0;
        while offset < buf.len()
            invariant
                self.wf(),
                !(self.state is Error),
                !(old(self).state is Error),
                self.input@ == old(self).input@,
                offset <= buf@.len(),
                buf@.len() == old(buf)@.len(),
                self.delivered@ == old(self).delivered@ + buf@.subrange(0, offset as int),
                forall|j: int| offset <= j < buf@.len() ==> buf@[j] == old(buf)@[j],
                old(self).state is Finished ==> self.state is Finished,
                self.state is Initial ==> offset == 0,
                !(old(self).state is Initial && !header_ok(self.input@)) || (self.state is Initial
                    && offset == 0),
            ensures
                self.wf(),
                !(self.state is Error),
                self.input@ == old(self).input@,
                offset <= buf@.len(),
                buf@.len() == old(buf)@.len(),
                self.delivered@ == old(self).delivered@ + buf@.subrange(0, offset as int),
                forall|j: int| offset <= j < buf@.len() ==> buf@[j] == old(buf)@[j],
                old(self).state is Finished ==> self.state is Finished,
                offset < buf@.len() ==> self.state is Finished && decoded_bits(self.input@)
                    == Some(bits_of_bytes(self.delivered@)),
                !(old(self).state is Initial && !header_ok(self.input@) && buf@.len() > 0),
            decreases
                    buf@.len() - offset,
                    self.reader@.len(),
                    state_payload(self.state),
                    state_rank(self.state),
        {
            let ghost dpre = self.delivered@;
            let ghost wall = self.writer.all_bits();
            let ghost bufpre = buf@;
            let ghost offset0 = offset as int;
            proof {
                lemma_bits_of_bytes_len(self.writer.queued());
            }
            let k = self.writer.read_from(buf, offset);
            proof {
                let kk = k as int;
                let fresh_bytes = buf@.subrange(offset0, offset0 + kk);
                self.delivered@ = dpre + fresh_bytes;
                lemma_bits_of_bytes_add(dpre, fresh_bytes);
                assert(bits_of_bytes(fresh_bytes) == wall.take(8 * kk));
                assert(wall.take(8 * kk) + wall.skip(8 * kk) =~= wall);
                assert(self.emitted_bits() =~= bits_of_bytes(dpre) + wall);
                assert(buf@.subrange(0, offset0) =~= bufpre.subrange(0, offset0));
                assert(buf@.subrange(0, offset0 + kk) =~= buf@.subrange(0, offset0)
                    + fresh_bytes);
                assert(self.delivered@ =~= old(self).delivered@ + buf@.subrange(
                    0,
                    offset0 + kk,
                ));
                if self.state is Initial {
                    assert(k == 0);
                    assert(self.delivered@ =~= dpre);
                }
                lemma_bits_of_bytes_len(self.writer.queued());
            }
            offset = offset + k;
            if self.state == DecoderState::Finished {
                proof {
                    if offset < buf@.len() {
                        assert(self.writer.queued().len() == 0);
                        assert(self.writer.pending().len() == 0);
                        assert(self.writer.all_bits().len() == 0);
                        assert(self.emitted_bits() =~= bits_of_bytes(self.delivered@));
                    }
                }
                break ;
            }
            proof {
                if k == 0 {
                    assert(self.writer.queued().len() == 0);
                    assert(self.writer.pending().len() < 8);
                    assert(self.writer.spec_space() > 0);
                }
            }
            match self.decode_one() {
                Ok(_) => {
                },
                Err(e) => {
                    proof {
                        assert(0 <= offset <= buf@.len() && self.delivered@ == old(self).delivered@ + buf@.subrange(0, offset as int));
                        if e is InvalidHeader {
                            assert(offset == 0);
                            assert(buf@ =~= old(buf)@);
                            assert(buf@.subrange(0, 0) =~= Seq::<u8>::empty());
                            assert(self.delivered@ =~= old(self).delivered@);
                        }
                    }
                    return Err(e);
                },
            }
        }
        proof {
            assert(self.delivered@ == old(self).delivered@ + buf@.subrange(0, offset as int));
            let db = bits_of_bytes(self.delivered@);
            let em = self.emitted_bits();
            assert(db.is_prefix_of(em)) by {
                assert(db =~= em.subrange(0, db.len() as int));
            }
            match self.state {
                DecoderState::Initial => {
                    assert(self.delivered@ =~= Seq::<u8>::empty());
                    assert(db.is_prefix_of(yielded_bits(self.input@))) by {
                        assert(db =~= yielded_bits(self.input@).subrange(0, 0));
                    }
                },
                DecoderState::Finished => {
                },
                DecoderState::Error => {
                    assert(false);
                },
                _ => {
                    let y = yielded_bits(self.input@);
                    assert(db.is_prefix_of(y)) by {
                        assert(y == em + partial_future(self.state, self.reader@, em.len()));
                        assert(db =~= y.subrange(0, db.len() as int));
                    }
                },
            }
        }
        Ok(offset)
    }
}

/// An empty prefix changes nothing.
proof fn lemma_opt_prepend_empty(r: Option<Seq<bool>>)
    ensures
        opt_prepend(Seq::<bool>::empty(), r) == r,
{
    match r {
        None => {
        },
        Some(f) => {
            assert(Seq::<bool>::empty() + f =~= f);
        },
    }
}

/// A parsed command occupies between three bits and the whole input.
proof fn lemma_parse_bounds(s: Seq<bool>)
    ensures
        parse_command(s) matches Some(p) ==> 3 <= p.1 <= s.len(),
{
}

/// Chaining prefixes in front of an owed remainder is associative.
proof fn lemma_opt_prepend_assoc(a: Seq<bool>, b: Seq<bool>, r: Option<Seq<bool>>)
    ensures
        opt_prepend(a, opt_prepend(b, r)) == opt_prepend(a + b, r),
{
    match r {
        None => {
        },
        Some(f) => {
            assert(a + (b + f) =~= (a + b) + f);
        },
    }
}

} // verus!
