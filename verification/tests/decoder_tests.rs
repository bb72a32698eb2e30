//! End-to-end decodes: the documented scenarios, error handling, clean
//! end-of-stream behaviour, and resumability under small buffers.

use icecompr::decoder::{Decoder, DecoderError};

/// Packs bits (most significant bit of each byte first) into bytes,
/// padding the last byte with zero bits.
fn pack(bits: &[u8]) -> Vec<u8> {
    let mut out = Vec::new();
    let mut acc: u8 = 0;
    let mut n = 0;
    for &b in bits {
        acc = (acc << 1) | (b & 1);
        n += 1;
        if n == 8 {
            out.push(acc);
            acc = 0;
            n = 0;
        }
    }
    if n > 0 {
        out.push(acc << (8 - n));
    }
    out
}

fn stream(payload_bits: &[u8]) -> Vec<u8> {
    let mut s = b"ICECOMPR".to_vec();
    s.extend(pack(payload_bits));
    s
}

/// Appends `value` as `width` bits, most significant first.
fn push_uint(bits: &mut Vec<u8>, value: u32, width: u32) {
    for i in (0..width).rev() {
        bits.push(((value >> i) & 1) as u8);
    }
}

#[test]
fn final_zero_run_of_zero_decodes_to_nothing() {
    // Prefix 00000, then a 23-bit count of zero: no output, clean end.
    let mut bits = vec![0, 0, 0, 0, 0];
    push_uint(&mut bits, 0, 23);
    let s = stream(&bits);
    let mut d = Decoder::new(&s);
    let mut buf = [0u8; 16];
    assert_eq!(d.read(&mut buf), Ok(0));
}

#[test]
fn zero_run_of_three_decodes_to_one_byte() {
    // Prefix 1 + 2-bit count 3, then the final run with count 0:
    // three zero bits, a one bit, and padding: 0b00010000.
    let mut bits = vec![1, 1, 1];
    bits.extend([0, 0, 0, 0, 0]);
    push_uint(&mut bits, 0, 23);
    let s = stream(&bits);
    let mut d = Decoder::new(&s);
    let mut buf = [0u8; 16];
    assert_eq!(d.read(&mut buf), Ok(1));
    assert_eq!(buf[0], 0b0001_0000);
    assert_eq!(d.read(&mut buf), Ok(0));
}

#[test]
fn short_input_fails_with_invalid_header() {
    let s = vec![0x49, 0x43];
    let mut d = Decoder::new(&s);
    let mut buf = [0xEEu8; 4];
    assert_eq!(d.read(&mut buf), Err(DecoderError::InvalidHeader));
    // A header failure writes nothing into the caller's buffer.
    assert_eq!(buf, [0xEE; 4]);
}

#[test]
fn wrong_magic_fails_with_invalid_header() {
    let mut s = b"ICECOMPX".to_vec();
    s.push(0);
    let mut d = Decoder::new(&s);
    let mut buf = [0xEEu8; 4];
    assert_eq!(d.read(&mut buf), Err(DecoderError::InvalidHeader));
    assert_eq!(buf, [0xEE; 4]);
}

#[test]
fn data_run_past_end_fails_with_unexpected_eof() {
    // A data run asking for 40 bits when only a few remain.
    let mut bits = vec![0, 0, 0, 1];
    push_uint(&mut bits, 40, 6);
    let s = stream(&bits);
    let mut d = Decoder::new(&s);
    let mut buf = [0u8; 16];
    assert_eq!(d.read(&mut buf), Err(DecoderError::UnexpectedEof));
}

#[test]
fn reads_after_an_error_fail_with_invalid_state() {
    let s = vec![1, 2, 3];
    let mut d = Decoder::new(&s);
    let mut buf = [0u8; 4];
    assert_eq!(d.read(&mut buf), Err(DecoderError::InvalidHeader));
    assert_eq!(d.read(&mut buf), Err(DecoderError::InvalidState));
    assert_eq!(d.read(&mut buf), Err(DecoderError::InvalidState));
    // Failing reads never touch the buffer after the error is recorded.
    let mut empty: [u8; 0] = [];
    assert_eq!(d.read(&mut empty), Err(DecoderError::InvalidState));
}

#[test]
fn reads_after_finish_keep_returning_zero_bytes() {
    let mut bits = vec![0, 0, 0, 0, 0];
    push_uint(&mut bits, 0, 23);
    let s = stream(&bits);
    let mut d = Decoder::new(&s);
    let mut buf = [0u8; 8];
    assert_eq!(d.read(&mut buf), Ok(0));
    assert_eq!(d.read(&mut buf), Ok(0));
    assert_eq!(d.read(&mut buf), Ok(0));
}

#[test]
fn data_run_copies_bits_verbatim() {
    // One data run carrying four whole bytes, a marker bit, then the
    // final run supplies seven zeros so the output stays byte-aligned:
    // 32 data bits + 1 + 7 = 40 bits = the 4 bytes then 0x80.
    let payload = [0xABu8, 0x00, 0xFF, 0x12];
    let mut bits = vec![0, 0, 0, 1];
    push_uint(&mut bits, 32, 6);
    for &byte in &payload {
        push_uint(&mut bits, byte as u32, 8);
    }
    bits.extend([0, 0, 0, 0, 0]);
    push_uint(&mut bits, 7, 23);
    let s = stream(&bits);
    let mut d = Decoder::new(&s);
    let mut buf = [0u8; 32];
    assert_eq!(d.read(&mut buf), Ok(5));
    assert_eq!(&buf[..4], &payload);
    assert_eq!(buf[4], 0x80);
    assert_eq!(d.read(&mut buf), Ok(0));
}

#[test]
fn long_zero_run_forces_backpressure() {
    // 200 zero bits overflow the 16-byte queue, so the run must resume
    // across reads: 200 zeros + marker + padding = 26 bytes.
    let mut bits = vec![0, 0, 1];
    push_uint(&mut bits, 200, 8);
    bits.extend([0, 0, 0, 0, 0]);
    push_uint(&mut bits, 0, 23);
    let s = stream(&bits);
    let mut d = Decoder::new(&s);
    let mut out = Vec::new();
    loop {
        let mut buf = [0xFFu8; 5];
        let n = d.read(&mut buf).expect("well-formed stream");
        if n == 0 {
            break;
        }
        out.extend_from_slice(&buf[..n]);
    }
    assert_eq!(out.len(), 26);
    assert!(out[..25].iter().all(|&b| b == 0));
    assert_eq!(out[25], 0x80);
}

#[test]
fn small_buffers_reproduce_the_large_buffer_output() {
    // The same stream decoded in one big read and byte by byte.
    let payload = [0x5Au8, 0xC3, 0x01];
    let mut bits = vec![0, 0, 0, 1];
    push_uint(&mut bits, 24, 6);
    for &byte in &payload {
        push_uint(&mut bits, byte as u32, 8);
    }
    bits.extend([0, 0, 0, 0, 0]);
    push_uint(&mut bits, 7, 23);
    let s = stream(&bits);

    let mut big = Decoder::new(&s);
    let mut big_buf = [0u8; 64];
    let n = big.read(&mut big_buf).unwrap();
    let whole: Vec<u8> = big_buf[..n].to_vec();

    let mut small = Decoder::new(&s);
    let mut piecewise = Vec::new();
    loop {
        let mut one = [0u8; 1];
        let k = small.read(&mut one).unwrap();
        if k == 0 {
            break;
        }
        piecewise.push(one[0]);
    }
    assert_eq!(whole, piecewise);
    assert_eq!(whole.len(), 4);
    assert_eq!(&whole[..3], &payload);
}

#[test]
fn alternating_zero_and_data_runs_round_trip() {
    // zeros(5)+1, data(01), zeros(2)+1, then final zeros bring the
    // output to a byte boundary: 5+1+2+1+2+1+4 = 16 bits.
    let mut bits = Vec::new();
    // zeros(5) via the 5-bit form: prefix 01 + count 5.
    bits.extend([0, 1]);
    push_uint(&mut bits, 5, 5);
    // data run of two bits 01: prefix 0001 + length 2 + bits.
    bits.extend([0, 0, 0, 1]);
    push_uint(&mut bits, 2, 6);
    bits.extend([0, 1]);
    // zeros(2) via the 2-bit form: prefix 1 + count 2.
    bits.push(1);
    push_uint(&mut bits, 2, 2);
    // final: 4 zeros, which exactly pads 12 output bits to 16.
    bits.extend([0, 0, 0, 0, 0]);
    push_uint(&mut bits, 4, 23);
    let s = stream(&bits);
    let mut d = Decoder::new(&s);
    let mut buf = [0u8; 8];
    // Output bits: 00000 1 01 1 00 1 0000 -> bytes 0b00000101, 0b10010000.
    assert_eq!(d.read(&mut buf), Ok(2));
    assert_eq!(buf[0], 0b0000_0101);
    assert_eq!(buf[1], 0b1001_0000);
    assert_eq!(d.read(&mut buf), Ok(0));
}

#[test]
fn empty_buffer_makes_no_progress() {
    let mut bits = vec![0, 0, 0, 0, 0];
    push_uint(&mut bits, 0, 23);
    let s = stream(&bits);
    let mut d = Decoder::new(&s);
    let mut empty: [u8; 0] = [];
    assert_eq!(d.read(&mut empty), Ok(0));
    let mut buf = [0u8; 4];
    assert_eq!(d.read(&mut buf), Ok(0));
}

#[test]
fn wide_zero_run_uses_the_23_bit_count() {
    // Prefix 00001 + 23-bit count 9, marker, then final zeros pad the
    // 10 output bits to 16: 0b00000000, 0b01100000... the marker is bit 9.
    let mut bits = vec![0, 0, 0, 0, 1];
    push_uint(&mut bits, 9, 23);
    // A zero-count run right after: its marker lands at bit 10.
    bits.push(1);
    push_uint(&mut bits, 0, 2);
    bits.extend([0, 0, 0, 0, 0]);
    push_uint(&mut bits, 5, 23);
    let s = stream(&bits);
    let mut d = Decoder::new(&s);
    let mut buf = [0u8; 8];
    // Output bits: 9 zeros, 1, 1, 5 zeros -> 0b00000000, 0b01100000.
    assert_eq!(d.read(&mut buf), Ok(2));
    assert_eq!(buf[0], 0b0000_0000);
    assert_eq!(buf[1], 0b0110_0000);
    assert_eq!(d.read(&mut buf), Ok(0));
}
