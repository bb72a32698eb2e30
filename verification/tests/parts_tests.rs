//! The two leaf components on their own: bit-level reads over a byte
//! slice, and bit-level writes with flushing and backpressure.

use icecompr::reader::DecoderReader;
use icecompr::ring::RingBuffer;
use icecompr::writer::DecoderWriter;

#[test]
fn reader_reads_bits_most_significant_first() {
    let data = [0b1011_0001u8];
    let mut r = DecoderReader::new(&data);
    assert_eq!(r.len_bits(), 8);
    assert!(!r.is_empty());
    let expect = [true, false, true, true, false, false, false, true];
    for &b in &expect {
        assert_eq!(r.read_bit(), Some(b));
    }
    assert_eq!(r.read_bit(), None);
    assert!(r.is_empty());
    assert_eq!(r.len_bits(), 0);
}

#[test]
fn reader_reads_integers_most_significant_first() {
    let data = [0xA5u8, 0x0F, 0x33];
    let mut r = DecoderReader::new(&data);
    assert_eq!(r.read_int(4), Some(0xA));
    assert_eq!(r.read_int(8), Some(0x50));
    assert_eq!(r.read_int(12), Some(0xF33));
    assert_eq!(r.read_int(1), None);
    assert!(r.is_empty());
}

#[test]
fn reader_refuses_an_integer_wider_than_whats_left() {
    let data = [0xFFu8];
    let mut r = DecoderReader::new(&data);
    assert_eq!(r.read_int(9), None);
    // Nothing was consumed by the refusal.
    assert_eq!(r.len_bits(), 8);
    assert_eq!(r.read_int(8), Some(0xFF));
}

#[test]
fn reader_inner_exposes_unread_bytes() {
    let data = [1u8, 2, 3, 4, 5, 6];
    let r = DecoderReader::new(&data);
    assert_eq!(r.inner(), &data[..]);
}

#[test]
fn reader_crosses_byte_boundaries() {
    // A 23-bit read spanning three bytes.
    let data = [0b0000_0001u8, 0xFF, 0b1000_0000];
    let mut r = DecoderReader::new(&data);
    assert_eq!(r.read_int(23), Some(0b0000_0001_1111_1111_1000_000));
    assert_eq!(r.len_bits(), 1);
}

#[test]
fn ring_buffer_is_first_in_first_out() {
    let mut q = RingBuffer::new();
    assert_eq!(q.space_available(), 16);
    for i in 0..16u8 {
        assert_eq!(q.write_byte(i), Ok(()));
    }
    assert_eq!(q.space_available(), 0);
    assert_eq!(q.write_byte(99), Err(()));
    let mut buf = [0u8; 20];
    assert_eq!(q.read(&mut buf), 16);
    for i in 0..16u8 {
        assert_eq!(buf[i as usize], i);
    }
    assert_eq!(q.read(&mut buf), 0);
    assert_eq!(q.space_available(), 16);
}

#[test]
fn writer_packs_the_first_bit_into_the_top_of_the_byte() {
    let mut w = DecoderWriter::new();
    // Write 1,0,1,1,0,0,0,1: the first bit lands at the most
    // significant position, so the byte is 0b10110001.
    for b in [true, false, true, true, false, false, false, true] {
        assert_eq!(w.write_bit(b), Ok(()));
    }
    let mut buf = [0u8; 4];
    assert_eq!(w.read(&mut buf), 1);
    assert_eq!(buf[0], 0b1011_0001);
}

#[test]
fn writer_zero_run_is_cut_to_capacity() {
    let mut w = DecoderWriter::new();
    assert_eq!(w.space_bits(), 160);
    // Capacity is 32 pending bits plus 16 queued bytes = 160 bits.
    assert_eq!(w.write_zeros(500), 160);
    assert_eq!(w.space_bits(), 0);
    assert_eq!(w.write_zeros(10), 0);
    assert_eq!(w.write_bit(true), Err(()));
    let mut buf = [0u8; 200];
    assert_eq!(w.read(&mut buf), 20);
    assert!(buf[..20].iter().all(|&b| b == 0));
    // Draining freed room, so writing works again.
    assert_eq!(w.write_bit(true), Ok(()));
}

#[test]
fn writer_trailing_zeros_pad_to_a_byte() {
    let mut w = DecoderWriter::new();
    assert_eq!(w.write_bit(true), Ok(()));
    assert_eq!(w.write_bit(false), Ok(()));
    assert_eq!(w.write_bit(true), Ok(()));
    let mut buf = [0u8; 4];
    // Only three bits so far: no whole byte to hand out yet.
    assert_eq!(w.read(&mut buf), 0);
    w.write_trailing_zeros();
    assert_eq!(w.read(&mut buf), 1);
    assert_eq!(buf[0], 0b1010_0000);
}

#[test]
fn writer_keeps_pending_bits_across_full_queue() {
    let mut w = DecoderWriter::new();
    // Fill the queue (16 bytes) and four more bytes of pending bits.
    assert_eq!(w.write_zeros(128), 128);
    for _ in 0..32 {
        assert_eq!(w.write_bit(true), Ok(()));
    }
    assert_eq!(w.space_bits(), 0);
    // Drain two bytes; exactly two pending bytes can flush after them.
    let mut two = [0u8; 2];
    assert_eq!(w.read(&mut two), 2);
    assert_eq!(two, [0, 0]);
    let mut rest = [0u8; 64];
    assert_eq!(w.read(&mut rest), 18);
    assert!(rest[..14].iter().all(|&b| b == 0));
    assert!(rest[14..18].iter().all(|&b| b == 0xFF));
}
