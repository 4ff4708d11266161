use dns_codec::buffer::BytePacketBuffer;
use dns_codec::error::DnsError;

#[test]
fn new_buffer_is_zeroed_with_cursor_at_start() {
    let mut buffer = BytePacketBuffer::new();
    assert_eq!(buffer.pos(), 0);
    assert_eq!(buffer.buf.len(), 512);
    assert!(buffer.buf.iter().all(|b| *b == 0));
    assert_eq!(buffer.get(0), Ok(0));
}

#[test]
fn step_and_seek_move_the_cursor_anywhere() {
    let mut buffer = BytePacketBuffer::new();
    assert_eq!(buffer.step(10), Ok(()));
    assert_eq!(buffer.pos(), 10);
    assert_eq!(buffer.step(5), Ok(()));
    assert_eq!(buffer.pos(), 15);
    assert_eq!(buffer.seek(3), Ok(()));
    assert_eq!(buffer.pos(), 3);
    assert_eq!(buffer.seek(4000), Ok(()));
    assert_eq!(buffer.pos(), 4000);
    assert_eq!(buffer.read(), Err(DnsError::OutOfBounds));
    assert_eq!(buffer.pos(), 4000);
}

#[test]
fn read_returns_the_byte_and_advances() {
    let mut buffer = BytePacketBuffer::new();
    buffer.buf[0] = 7;
    buffer.buf[1] = 9;
    assert_eq!(buffer.read(), Ok(7));
    assert_eq!(buffer.pos(), 1);
    assert_eq!(buffer.read(), Ok(9));
    assert_eq!(buffer.pos(), 2);
}

#[test]
fn read_at_last_index_succeeds_and_past_it_fails() {
    let mut buffer = BytePacketBuffer::new();
    buffer.buf[511] = 0xAB;
    buffer.seek(511).unwrap();
    assert_eq!(buffer.read(), Ok(0xAB));
    assert_eq!(buffer.pos(), 512);
    assert_eq!(buffer.read(), Err(DnsError::OutOfBounds));
    assert_eq!(buffer.pos(), 512);
}

#[test]
fn get_checks_the_position_and_keeps_the_cursor() {
    let mut buffer = BytePacketBuffer::new();
    buffer.buf[511] = 0xCD;
    buffer.seek(17).unwrap();
    assert_eq!(buffer.get(511), Ok(0xCD));
    assert_eq!(buffer.get(512), Err(DnsError::OutOfBounds));
    assert_eq!(buffer.get(usize::MAX), Err(DnsError::OutOfBounds));
    assert_eq!(buffer.pos(), 17);
}

#[test]
fn get_range_refuses_an_end_that_reaches_the_capacity() {
    let mut buffer = BytePacketBuffer::new();
    for i in 0..512 {
        buffer.buf[i] = (i % 251) as u8;
    }
    assert_eq!(buffer.get_range(500, 12), Err(DnsError::OutOfBounds));
    assert_eq!(buffer.get_range(0, 512), Err(DnsError::OutOfBounds));
    assert_eq!(buffer.get_range(512, 0), Err(DnsError::OutOfBounds));
    assert_eq!(buffer.get_range(usize::MAX, 2), Err(DnsError::OutOfBounds));
    assert_eq!(buffer.get_range(2, usize::MAX), Err(DnsError::OutOfBounds));
    let expected: Vec<u8> = (500..511).map(|i| (i % 251) as u8).collect();
    assert_eq!(buffer.get_range(500, 11), Ok(&expected[..]));
    assert_eq!(buffer.get_range(511, 1), Err(DnsError::OutOfBounds));
    assert_eq!(buffer.get_range(511, 0), Ok(&[][..]));
    assert_eq!(buffer.get_range(3, 2), Ok(&[3u8, 4u8][..]));
    assert_eq!(buffer.pos(), 0);
}

#[test]
fn read_u16_is_big_endian() {
    let mut buffer = BytePacketBuffer::new();
    buffer.buf[0] = 0x1A;
    buffer.buf[1] = 0x2B;
    assert_eq!(buffer.read_u16(), Ok(0x1A2B));
    assert_eq!(buffer.pos(), 2);
}

#[test]
fn read_u32_is_big_endian() {
    let mut buffer = BytePacketBuffer::new();
    buffer.buf[4] = 0xDE;
    buffer.buf[5] = 0xAD;
    buffer.buf[6] = 0xBE;
    buffer.buf[7] = 0xEF;
    buffer.seek(4).unwrap();
    assert_eq!(buffer.read_u32(), Ok(0xDEADBEEF));
    assert_eq!(buffer.pos(), 8);
}

#[test]
fn multi_byte_reads_fail_at_the_end_of_the_buffer() {
    let mut buffer = BytePacketBuffer::new();
    buffer.seek(511).unwrap();
    assert_eq!(buffer.read_u16(), Err(DnsError::OutOfBounds));
    assert_eq!(buffer.pos(), 512);
    buffer.seek(509).unwrap();
    assert_eq!(buffer.read_u32(), Err(DnsError::OutOfBounds));
    assert_eq!(buffer.pos(), 512);
    buffer.seek(510).unwrap();
    assert_eq!(buffer.read_u16(), Ok(0));
    buffer.seek(508).unwrap();
    assert_eq!(buffer.read_u32(), Ok(0));
}

#[test]
fn write_stores_the_byte_and_advances() {
    let mut buffer = BytePacketBuffer::new();
    assert_eq!(buffer.write(0x11), Ok(()));
    assert_eq!(buffer.write_u8(0x22), Ok(()));
    assert_eq!(buffer.pos(), 2);
    assert_eq!(&buffer.buf[0..3], &[0x11, 0x22, 0x00]);
}

#[test]
fn write_u16_and_u32_are_big_endian() {
    let mut buffer = BytePacketBuffer::new();
    assert_eq!(buffer.write_u16(0x1A2B), Ok(()));
    assert_eq!(buffer.write_u32(0x01020304), Ok(()));
    assert_eq!(buffer.pos(), 6);
    assert_eq!(&buffer.buf[0..6], &[0x1A, 0x2B, 0x01, 0x02, 0x03, 0x04]);
}

#[test]
fn writes_fail_at_the_end_and_keep_what_fitted() {
    let mut buffer = BytePacketBuffer::new();
    buffer.seek(512).unwrap();
    assert_eq!(buffer.write(1), Err(DnsError::OutOfBounds));
    assert_eq!(buffer.write_u8(1), Err(DnsError::OutOfBounds));
    assert_eq!(buffer.pos(), 512);
    buffer.seek(511).unwrap();
    assert_eq!(buffer.write_u16(0xA1B2), Err(DnsError::OutOfBounds));
    assert_eq!(buffer.pos(), 512);
    assert_eq!(buffer.buf[511], 0xA1);
    buffer.seek(510).unwrap();
    assert_eq!(buffer.write_u32(0x0A0B0C0D), Err(DnsError::OutOfBounds));
    assert_eq!(buffer.pos(), 512);
    assert_eq!(&buffer.buf[510..512], &[0x0A, 0x0B]);
    buffer.seek(511).unwrap();
    assert_eq!(buffer.write(0x77), Ok(()));
    assert_eq!(buffer.buf[511], 0x77);
}

#[test]
fn written_numbers_are_read_back() {
    let mut buffer = BytePacketBuffer::new();
    buffer.write_u16(0xFFFE).unwrap();
    buffer.write_u32(0x80000001).unwrap();
    buffer.write_u8(0x7F).unwrap();
    buffer.seek(0).unwrap();
    assert_eq!(buffer.read_u16(), Ok(0xFFFE));
    assert_eq!(buffer.read_u32(), Ok(0x80000001));
    assert_eq!(buffer.read(), Ok(0x7F));
}

#[test]
fn error_messages() {
    assert_eq!(DnsError::OutOfBounds.message(), "end of buffer");
    assert_eq!(DnsError::TooManyJumps.message(), "limit of 5 jumps exceeded");
    assert_eq!(
        DnsError::LabelTooLong.message(),
        "Single label exceeds 63 characters of length"
    );
}
