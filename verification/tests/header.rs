use dns_codec::buffer::BytePacketBuffer;
use dns_codec::error::DnsError;
use dns_codec::header::DnsHeader;
use dns_codec::result::ResultCode;

fn written(header: &DnsHeader) -> [u8; 12] {
    let mut buffer = BytePacketBuffer::new();
    assert_eq!(header.write(&mut buffer), Ok(()));
    assert_eq!(buffer.pos(), 12);
    let mut out = [0u8; 12];
    out.copy_from_slice(&buffer.buf[0..12]);
    out
}

fn read_from(bytes: &[u8; 12]) -> DnsHeader {
    let mut buffer = BytePacketBuffer::new();
    buffer.buf[0..12].copy_from_slice(bytes);
    let mut header = DnsHeader::new();
    assert_eq!(header.read(&mut buffer), Ok(()));
    assert_eq!(buffer.pos(), 12);
    header
}

#[test]
fn new_header_is_all_zero() {
    let header = DnsHeader::new();
    assert_eq!(header.id, 0);
    assert!(!header.recursion_desired);
    assert!(!header.truncated_message);
    assert!(!header.authoritative_answer);
    assert_eq!(header.opcode, 0);
    assert!(!header.response);
    assert_eq!(header.rescode, ResultCode::NOERROR);
    assert!(!header.checking_disabled);
    assert!(!header.authed_data);
    assert!(!header.z);
    assert!(!header.recursion_available);
    assert_eq!(header.questions, 0);
    assert_eq!(header.answers, 0);
    assert_eq!(header.authoritative_entries, 0);
    assert_eq!(header.resource_entries, 0);
    assert_eq!(written(&header), [0u8; 12]);
}

#[test]
fn header_bytes_of_a_query() {
    let mut header = DnsHeader::new();
    header.id = 0x1A2B;
    header.recursion_desired = true;
    header.questions = 1;
    assert_eq!(written(&header), [0x1A, 0x2B, 0x01, 0x00, 0, 1, 0, 0, 0, 0, 0, 0]);
}

#[test]
fn each_flag_has_its_bit() {
    let mut h = DnsHeader::new();
    h.recursion_desired = true;
    assert_eq!(written(&h)[2..4], [0x01, 0x00]);
    let mut h = DnsHeader::new();
    h.truncated_message = true;
    assert_eq!(written(&h)[2..4], [0x02, 0x00]);
    let mut h = DnsHeader::new();
    h.authoritative_answer = true;
    assert_eq!(written(&h)[2..4], [0x04, 0x00]);
    let mut h = DnsHeader::new();
    h.opcode = 0x0F;
    assert_eq!(written(&h)[2..4], [0x78, 0x00]);
    let mut h = DnsHeader::new();
    h.opcode = 0x01;
    assert_eq!(written(&h)[2..4], [0x08, 0x00]);
    let mut h = DnsHeader::new();
    h.response = true;
    assert_eq!(written(&h)[2..4], [0x80, 0x00]);
    let mut h = DnsHeader::new();
    h.rescode = ResultCode::REFUSED;
    assert_eq!(written(&h)[2..4], [0x00, 0x05]);
    let mut h = DnsHeader::new();
    h.checking_disabled = true;
    assert_eq!(written(&h)[2..4], [0x00, 0x10]);
    let mut h = DnsHeader::new();
    h.authed_data = true;
    assert_eq!(written(&h)[2..4], [0x00, 0x20]);
    let mut h = DnsHeader::new();
    h.z = true;
    assert_eq!(written(&h)[2..4], [0x00, 0x40]);
    let mut h = DnsHeader::new();
    h.recursion_available = true;
    assert_eq!(written(&h)[2..4], [0x00, 0x80]);
}

#[test]
fn each_bit_has_its_flag() {
    let h = read_from(&[0, 0, 0x01, 0, 0, 0, 0, 0, 0, 0, 0, 0]);
    assert!(h.recursion_desired && !h.truncated_message && !h.authoritative_answer && !h.response);
    let h = read_from(&[0, 0, 0x02, 0, 0, 0, 0, 0, 0, 0, 0, 0]);
    assert!(!h.recursion_desired && h.truncated_message && !h.authoritative_answer && !h.response);
    let h = read_from(&[0, 0, 0x04, 0, 0, 0, 0, 0, 0, 0, 0, 0]);
    assert!(!h.recursion_desired && !h.truncated_message && h.authoritative_answer && !h.response);
    let h = read_from(&[0, 0, 0x80, 0, 0, 0, 0, 0, 0, 0, 0, 0]);
    assert!(!h.recursion_desired && !h.truncated_message && !h.authoritative_answer && h.response);
    assert_eq!(h.opcode, 0);
    let h = read_from(&[0, 0, 0x78, 0, 0, 0, 0, 0, 0, 0, 0, 0]);
    assert_eq!(h.opcode, 15);
    assert!(!h.recursion_desired && !h.truncated_message && !h.authoritative_answer && !h.response);
    let h = read_from(&[0, 0, 0, 0x10, 0, 0, 0, 0, 0, 0, 0, 0]);
    assert!(h.checking_disabled && !h.authed_data && !h.z && !h.recursion_available);
    let h = read_from(&[0, 0, 0, 0x20, 0, 0, 0, 0, 0, 0, 0, 0]);
    assert!(!h.checking_disabled && h.authed_data && !h.z && !h.recursion_available);
    let h = read_from(&[0, 0, 0, 0x40, 0, 0, 0, 0, 0, 0, 0, 0]);
    assert!(!h.checking_disabled && !h.authed_data && h.z && !h.recursion_available);
    let h = read_from(&[0, 0, 0, 0x80, 0, 0, 0, 0, 0, 0, 0, 0]);
    assert!(!h.checking_disabled && !h.authed_data && !h.z && h.recursion_available);
    assert_eq!(h.rescode, ResultCode::NOERROR);
    let h = read_from(&[0, 0, 0, 0x03, 0, 0, 0, 0, 0, 0, 0, 0]);
    assert_eq!(h.rescode, ResultCode::NXDOMAIN);
}

#[test]
fn header_of_a_response_is_read() {
    let h = read_from(&[0x86, 0x2A, 0x81, 0x80, 0x00, 0x01, 0x00, 0x02, 0x00, 0x03, 0x01, 0x04]);
    assert_eq!(h.id, 0x862A);
    assert!(h.response);
    assert_eq!(h.opcode, 0);
    assert!(!h.authoritative_answer);
    assert!(!h.truncated_message);
    assert!(h.recursion_desired);
    assert!(h.recursion_available);
    assert!(!h.z);
    assert!(!h.authed_data);
    assert!(!h.checking_disabled);
    assert_eq!(h.rescode, ResultCode::NOERROR);
    assert_eq!(h.questions, 1);
    assert_eq!(h.answers, 2);
    assert_eq!(h.authoritative_entries, 3);
    assert_eq!(h.resource_entries, 0x0104);
}

#[test]
fn response_codes_without_a_name_count_as_noerror() {
    for code in 6u8..16 {
        let h = read_from(&[0, 0, 0, code, 0, 0, 0, 0, 0, 0, 0, 0]);
        assert_eq!(h.rescode, ResultCode::NOERROR);
    }
}

#[test]
fn headers_come_back_as_written() {
    let codes = [
        ResultCode::NOERROR,
        ResultCode::FORMERR,
        ResultCode::SERVFAIL,
        ResultCode::NXDOMAIN,
        ResultCode::NOTIMP,
        ResultCode::REFUSED,
    ];
    for opcode in 0u8..16 {
        for (k, rescode) in codes.iter().enumerate() {
            for flags in 0u32..512 {
                let bit = |n: u32| flags & (1 << n) != 0;
                let header = DnsHeader {
                    id: (flags as u16).wrapping_mul(127).wrapping_add(opcode as u16),
                    recursion_desired: bit(0),
                    truncated_message: bit(1),
                    authoritative_answer: bit(2),
                    opcode,
                    response: bit(3),
                    rescode: *rescode,
                    checking_disabled: bit(4),
                    authed_data: bit(5),
                    z: bit(6),
                    recursion_available: bit(7),
                    questions: if bit(8) { 0xFFFF } else { k as u16 },
                    answers: 0x0102,
                    authoritative_entries: 0x8000,
                    resource_entries: 7,
                };
                let mut buffer = BytePacketBuffer::new();
                buffer.seek(100).unwrap();
                assert_eq!(header.write(&mut buffer), Ok(()));
                assert_eq!(buffer.pos(), 112);
                buffer.seek(100).unwrap();
                let mut back = DnsHeader::new();
                assert_eq!(back.read(&mut buffer), Ok(()));
                assert_eq!(buffer.pos(), 112);
                assert_eq!(back, header);
            }
        }
    }
}

#[test]
fn opcode_above_fifteen_loses_its_high_bits() {
    let mut header = DnsHeader::new();
    header.opcode = 0x1F;
    assert_eq!(written(&header)[2], 0xF8);
    let back = read_from(&written(&header));
    assert_eq!(back.opcode, 15);
    assert!(back.response);
}

#[test]
fn header_at_the_end_of_the_buffer() {
    let mut header = DnsHeader::new();
    header.id = 0xBEEF;
    let mut buffer = BytePacketBuffer::new();
    buffer.seek(500).unwrap();
    assert_eq!(header.write(&mut buffer), Ok(()));
    assert_eq!(buffer.pos(), 512);
    buffer.seek(500).unwrap();
    let mut back = DnsHeader::new();
    assert_eq!(back.read(&mut buffer), Ok(()));
    assert_eq!(back.id, 0xBEEF);
    buffer.seek(501).unwrap();
    assert_eq!(back.read(&mut buffer), Err(DnsError::OutOfBounds));
    buffer.seek(501).unwrap();
    assert_eq!(header.write(&mut buffer), Err(DnsError::OutOfBounds));
    assert_eq!(buffer.pos(), 512);
    assert_eq!(&buffer.buf[501..503], &[0xBE, 0xEF]);
}
