//! The container format, stated mathematically: the fixed magic prefix, the
//! prefix code that selects a command, and the output bits that a well-formed
//! command stream denotes.  The decoder's contracts are all phrased against
//! these functions.

use vstd::prelude::*;

verus! {

use crate::bits::{bits_of_bytes, uint_of_bits, zero_bits};

/// One decoded instruction of the command stream.
#[derive(PartialEq, Eq, Structural, Clone, Copy, Debug)]
pub enum Command {
    /// Emit this many zero bits, then one marker one bit.
    ZeroRun(u32),
    /// Copy this many bits verbatim from the input, then one marker one bit.
    DataRun(u32),
    /// Emit this many zero bits, pad the output to a byte boundary, stop.
    FinalZeroRun(u32),
}

/// The eight magic bytes that open every stream: the ASCII of "ICECOMPR".
pub open spec fn spec_magic() -> Seq<u8> {
    seq![0x49u8, 0x43u8, 0x45u8, 0x43u8, 0x4fu8, 0x4du8, 0x50u8, 0x52u8]
}

/// A stream opens with the magic; anything shorter or different is rejected
/// before any bit is read as a command.
pub open spec fn header_ok(input: Seq<u8>) -> bool {
    input.len() >= 8 && input.subrange(0, 8) == spec_magic()
}

/// Zero bits that bring a total of `emitted` output bits up to the next
/// byte boundary.
pub open spec fn pad_len(emitted: nat) -> nat {
    if emitted % 8 == 0 {
        0
    } else {
        (8 - emitted % 8) as nat
    }
}

/// Reads one command from the front of `s`: a prefix of up to five bits
/// selects the command and the width of the count field that follows.
/// Returns the command and how many bits it occupied, or nothing when the
/// bits run out mid-command.
pub open spec fn parse_command(s: Seq<bool>) -> Option<(Command, int)> {
    if s.len() < 1 {
        None
    } else if s[0] {
        if s.len() < 3 {
            None
        } else {
            Some((Command::ZeroRun(uint_of_bits(s.subrange(1, 3)) as u32), 3))
        }
    } else if s.len() < 2 {
        None
    } else if s[1] {
        if s.len() < 7 {
            None
        } else {
            Some((Command::ZeroRun(uint_of_bits(s.subrange(2, 7)) as u32), 7))
        }
    } else if s.len() < 3 {
        None
    } else if s[2] {
        if s.len() < 11 {
            None
        } else {
            Some((Command::ZeroRun(uint_of_bits(s.subrange(3, 11)) as u32), 11))
        }
    } else if s.len() < 4 {
        None
    } else if s[3] {
        if s.len() < 10 {
            None
        } else {
            Some((Command::DataRun(uint_of_bits(s.subrange(4, 10)) as u32), 10))
        }
    } else if s.len() < 5 {
        None
    } else if s[4] {
        if s.len() < 28 {
            None
        } else {
            Some((Command::ZeroRun(uint_of_bits(s.subrange(5, 28)) as u32), 28))
        }
    } else {
        if s.len() < 28 {
            None
        } else {
            Some((Command::FinalZeroRun(uint_of_bits(s.subrange(5, 28)) as u32), 28))
        }
    }
}

/// The output bits that the command stream `s` denotes, given that
/// `emitted` output bits came before it (the final padding depends on the
/// total).  `None` when a command cannot be read in full, or when a data
/// run asks for more bits than remain.
pub open spec fn run_commands(s: Seq<bool>, emitted: nat) -> Option<Seq<bool>>
    decreases s.len(),
{
    match parse_command(s) {
        None => None,
        Some((cmd, c)) => match cmd {
            Command::ZeroRun(n) => opt_prepend(
                zero_bits(n as nat) + seq![true],
                run_commands(s.skip(c), (emitted + n + 1) as nat),
            ),
            Command::DataRun(n) => if s.len() - c < n {
                None
            } else {
                opt_prepend(
                    s.subrange(c, c + n) + seq![true],
                    run_commands(s.skip(c + n), (emitted + n + 1) as nat),
                )
            },
            Command::FinalZeroRun(n) => Some(
                zero_bits(n as nat) + zero_bits(pad_len((emitted + n) as nat)),
            ),
        },
    }
}

/// What the whole stream decodes to, as bits: reject a bad header, then run
/// the command stream over the bits that follow the magic.
pub open spec fn decoded_bits(input: Seq<u8>) -> Option<Seq<bool>> {
    if header_ok(input) {
        run_commands(bits_of_bytes(input.subrange(8, input.len() as int)), 0)
    } else {
        None
    }
}

/// The output bits the command stream `s` yields before it stops: all of
/// its denotation when it is well formed, and everything emitted up to —
/// but not including — the first command that cannot be read in full or
/// whose data run overruns the input.
pub open spec fn partial_output(s: Seq<bool>, emitted: nat) -> Seq<bool>
    decreases s.len(),
{
    match parse_command(s) {
        None => Seq::empty(),
        Some((cmd, c)) => match cmd {
            Command::ZeroRun(n) => zero_bits(n as nat) + seq![true] + partial_output(
                s.skip(c),
                (emitted + n + 1) as nat,
            ),
            Command::DataRun(n) => if s.len() - c < n {
                Seq::empty()
            } else {
                s.subrange(c, c + n) + seq![true] + partial_output(
                    s.skip(c + n),
                    (emitted + n + 1) as nat,
                )
            },
            Command::FinalZeroRun(n) => zero_bits(n as nat) + zero_bits(
                pad_len((emitted + n) as nat),
            ),
        },
    }
}

/// The output bits the whole stream yields before its end or its first
/// malformed command; a stream without the magic yields nothing.
pub open spec fn yielded_bits(input: Seq<u8>) -> Seq<bool> {
    if header_ok(input) {
        partial_output(bits_of_bytes(input.subrange(8, input.len() as int)), 0)
    } else {
        Seq::empty()
    }
}

/// On a well-formed command stream the yield is the full denotation.
pub proof fn lemma_run_commands_yield(s: Seq<bool>, emitted: nat)
    ensures
        run_commands(s, emitted) is Some ==> run_commands(s, emitted) == Some(
            partial_output(s, emitted),
        ),
    decreases s.len(),
{
    match parse_command(s) {
        None => {
        },
        Some((cmd, c)) => match cmd {
            Command::ZeroRun(n) => {
                lemma_run_commands_yield(s.skip(c), (emitted + n + 1) as nat);
            },
            Command::DataRun(n) => {
                if s.len() - c >= n {
                    lemma_run_commands_yield(s.skip(c + n), (emitted + n + 1) as nat);
                }
            },
            Command::FinalZeroRun(n) => {
            },
        },
    }
}

/// On a well-formed stream the yield is exactly what it decodes to.
pub proof fn lemma_decoded_bits_yield(input: Seq<u8>)
    ensures
        decoded_bits(input) is Some ==> decoded_bits(input) == Some(yielded_bits(input)),
{
    if header_ok(input) {
        lemma_run_commands_yield(bits_of_bytes(input.subrange(8, input.len() as int)), 0);
    }
}

/// Prefix already emitted, rest still owed: `None` stays `None`.
pub open spec fn opt_prepend(prefix: Seq<bool>, rest: Option<Seq<bool>>) -> Option<Seq<bool>> {
    match rest {
        None => None,
        Some(f) => Some(prefix + f),
    }
}

/// The byte at position `i` of the magic.
pub fn magic_byte(i: usize) -> (r: u8)
    requires
        i < 8,
    ensures
        r == spec_magic()[i as int],
{
    match i {
        0 => 0x49,
        1 => 0x43,
        2 => 0x45,
        3 => 0x43,
        4 => 0x4f,
        5 => 0x4d,
        6 => 0x50,
        _ => 0x52,
    }
}

} // verus!
