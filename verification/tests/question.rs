use dns_codec::buffer::BytePacketBuffer;
use dns_codec::error::DnsError;
use dns_codec::query::QueryType;
use dns_codec::question::DnsQuestion;

#[test]
fn new_question_holds_its_arguments() {
    let question = DnsQuestion::new("example.com".to_string(), QueryType::MX);
    assert_eq!(question.name, "example.com");
    assert_eq!(question.qtype, QueryType::MX);
}

#[test]
fn question_is_written_as_name_type_and_class() {
    let question = DnsQuestion::new("example.com".to_string(), QueryType::A);
    let mut buffer = BytePacketBuffer::new();
    assert_eq!(question.write(&mut buffer), Ok(()));
    assert_eq!(buffer.pos(), 17);
    assert_eq!(
        &buffer.buf[0..17],
        &[7, b'e', b'x', b'a', b'm', b'p', b'l', b'e', 3, b'c', b'o', b'm', 0, 0, 1, 0, 1]
    );
}

#[test]
fn question_of_unknown_type_is_written_with_its_code() {
    let question = DnsQuestion::new("a".to_string(), QueryType::UNKNOWN(0x0121));
    let mut buffer = BytePacketBuffer::new();
    assert_eq!(question.write(&mut buffer), Ok(()));
    assert_eq!(&buffer.buf[0..7], &[1, b'a', 0, 0x01, 0x21, 0, 1]);
}

#[test]
fn question_is_read_and_its_class_dropped() {
    let mut buffer = BytePacketBuffer::new();
    buffer.buf[0..9].copy_from_slice(&[2, b'G', b'o', 0, 0, 28, 0xAB, 0xCD, 0x55]);
    let mut question = DnsQuestion::new(String::new(), QueryType::UNKNOWN(0));
    assert_eq!(question.read(&mut buffer), Ok(()));
    assert_eq!(question, DnsQuestion::new("go".to_string(), QueryType::AAAA));
    assert_eq!(buffer.pos(), 8);
}

#[test]
fn question_read_appends_to_the_name_it_holds() {
    let mut buffer = BytePacketBuffer::new();
    DnsQuestion::new("b.c".to_string(), QueryType::NS).write(&mut buffer).unwrap();
    buffer.seek(0).unwrap();
    let mut question = DnsQuestion::new("a.".to_string(), QueryType::A);
    assert_eq!(question.read(&mut buffer), Ok(()));
    assert_eq!(question.name, "a.b.c");
    assert_eq!(question.qtype, QueryType::NS);
}

#[test]
fn questions_come_back_as_written() {
    let types = [
        QueryType::A,
        QueryType::NS,
        QueryType::CNAME,
        QueryType::MX,
        QueryType::AAAA,
        QueryType::UNKNOWN(0),
        QueryType::UNKNOWN(255),
    ];
    for qtype in types {
        let question = DnsQuestion::new("mail.example.org".to_string(), qtype);
        let mut buffer = BytePacketBuffer::new();
        buffer.seek(12).unwrap();
        assert_eq!(question.write(&mut buffer), Ok(()));
        let end = buffer.pos();
        assert_eq!(end, 12 + 18 + 4);
        buffer.seek(12).unwrap();
        let mut back = DnsQuestion::new(String::new(), QueryType::UNKNOWN(0));
        assert_eq!(back.read(&mut buffer), Ok(()));
        assert_eq!(back, question);
        assert_eq!(buffer.pos(), end);
    }
}

#[test]
fn question_with_a_long_label_is_refused() {
    let question = DnsQuestion::new(format!("www.{}", "y".repeat(64)), QueryType::A);
    let mut buffer = BytePacketBuffer::new();
    assert_eq!(question.write(&mut buffer), Err(DnsError::LabelTooLong));
    assert_eq!(buffer.pos(), 4);
}

#[test]
fn question_cut_off_by_the_end_is_out_of_bounds() {
    let question = DnsQuestion::new("example.com".to_string(), QueryType::A);
    let mut buffer = BytePacketBuffer::new();
    buffer.seek(496).unwrap();
    assert_eq!(question.write(&mut buffer), Err(DnsError::OutOfBounds));
    assert_eq!(buffer.pos(), 512);
    buffer.seek(495).unwrap();
    assert_eq!(question.write(&mut buffer), Ok(()));
    assert_eq!(buffer.pos(), 512);
    buffer.seek(495).unwrap();
    let mut back = DnsQuestion::new(String::new(), QueryType::UNKNOWN(0));
    assert_eq!(back.read(&mut buffer), Ok(()));
    assert_eq!(back, question);
    buffer.buf[508] = 0;
    buffer.seek(509).unwrap();
    let mut back = DnsQuestion::new(String::new(), QueryType::UNKNOWN(0));
    assert_eq!(back.read(&mut buffer), Err(DnsError::OutOfBounds));
}
