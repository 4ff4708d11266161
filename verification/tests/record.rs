use dns_codec::buffer::BytePacketBuffer;
use dns_codec::error::DnsError;
use dns_codec::record::DnsRecord;

const NAME: [u8; 13] = [7, b'e', b'x', b'a', b'm', b'p', b'l', b'e', 3, b'c', b'o', b'm', 0];

fn buffer_of(parts: &[&[u8]]) -> (BytePacketBuffer, usize) {
    let mut buffer = BytePacketBuffer::new();
    let mut at = 0;
    for part in parts {
        buffer.buf[at..at + part.len()].copy_from_slice(part);
        at += part.len();
    }
    (buffer, at)
}

fn written(record: &DnsRecord) -> Vec<u8> {
    let mut buffer = BytePacketBuffer::new();
    assert_eq!(record.write(&mut buffer), Ok(()));
    buffer.buf[0..buffer.pos()].to_vec()
}

fn come_back(record: &DnsRecord) {
    let mut buffer = BytePacketBuffer::new();
    buffer.seek(30).unwrap();
    assert_eq!(record.write(&mut buffer), Ok(()));
    let end = buffer.pos();
    buffer.seek(30).unwrap();
    assert_eq!(DnsRecord::read(&mut buffer).as_ref(), Ok(record));
    assert_eq!(buffer.pos(), end);
}

#[test]
fn a_record_with_four_bytes_of_data_is_the_address() {
    let (mut buffer, end) =
        buffer_of(&[&NAME, &[0, 1, 0, 1, 0, 0, 0x0E, 0x10, 0, 4], &[192, 0, 2, 1]]);
    let record = DnsRecord::read(&mut buffer).unwrap();
    assert_eq!(
        record,
        DnsRecord::A { domain: "example.com".to_string(), addr: [192, 0, 2, 1], ttl: 3600 }
    );
    assert_eq!(buffer.pos(), end);
    assert_eq!(end, 27);
    let bytes = written(&record);
    assert_eq!(&bytes[23..27], &[192, 0, 2, 1]);
    assert_eq!(&bytes[..], &buffer.buf[0..27]);
}

#[test]
fn a_record_reads_four_bytes_whatever_the_length_says() {
    let (mut buffer, end) = buffer_of(&[&NAME, &[0, 1, 0, 1, 0, 0, 0, 5, 0, 9], &[10, 20, 30, 40]]);
    let record = DnsRecord::read(&mut buffer).unwrap();
    assert_eq!(
        record,
        DnsRecord::A { domain: "example.com".to_string(), addr: [10, 20, 30, 40], ttl: 5 }
    );
    assert_eq!(buffer.pos(), end);
}

#[test]
fn aaaa_record_is_read_and_written() {
    let addr = [0x20, 0x01, 0x0d, 0xb8, 0, 0, 0, 0, 0, 0, 0, 0, 0, 0, 0, 1];
    let (mut buffer, end) = buffer_of(&[&NAME, &[0, 28, 0, 1, 0, 1, 0x51, 0x80, 0, 16], &addr]);
    let record = DnsRecord::read(&mut buffer).unwrap();
    assert_eq!(
        record,
        DnsRecord::AAAA { domain: "example.com".to_string(), addr, ttl: 86400 }
    );
    assert_eq!(buffer.pos(), end);
    assert_eq!(&written(&record)[..], &buffer.buf[0..end]);
}

#[test]
fn ns_record_is_read_and_written() {
    let host = [2, b'n', b's', 7, b'e', b'x', b'a', b'm', b'p', b'l', b'e', 3, b'c', b'o', b'm', 0];
    let (mut buffer, end) = buffer_of(&[&NAME, &[0, 2, 0, 1, 0, 0, 0, 60, 0, 16], &host]);
    let record = DnsRecord::read(&mut buffer).unwrap();
    assert_eq!(
        record,
        DnsRecord::NS {
            domain: "example.com".to_string(),
            host: "ns.example.com".to_string(),
            ttl: 60
        }
    );
    assert_eq!(buffer.pos(), end);
    assert_eq!(&written(&record)[..], &buffer.buf[0..end]);
}

#[test]
fn cname_record_with_a_compressed_target_is_read() {
    // The target is "www" and a pointer to the owner's name at 0.
    let (mut buffer, end) =
        buffer_of(&[&NAME, &[0, 5, 0, 1, 0, 0, 1, 0, 0, 6], &[3, b'w', b'w', b'w', 0xC0, 0]]);
    let record = DnsRecord::read(&mut buffer).unwrap();
    assert_eq!(
        record,
        DnsRecord::CNAME {
            domain: "example.com".to_string(),
            host: "www.example.com".to_string(),
            ttl: 256
        }
    );
    assert_eq!(buffer.pos(), end);
    // Written in full, the target takes 17 bytes.
    let bytes = written(&record);
    assert_eq!(bytes.len(), 13 + 10 + 17);
    assert_eq!(&bytes[13..23], &[0, 5, 0, 1, 0, 0, 1, 0, 0, 17]);
    assert_eq!(&bytes[23..27], &[3, b'w', b'w', b'w']);
    assert_eq!(&bytes[27..40], &NAME);
}

#[test]
fn mx_record_is_read_and_written() {
    let host = [4, b'm', b'a', b'i', b'l', 0];
    let (mut buffer, end) = buffer_of(&[&NAME, &[0, 15, 0, 1, 0, 0, 0, 1, 0, 8], &[0, 10], &host]);
    let record = DnsRecord::read(&mut buffer).unwrap();
    assert_eq!(
        record,
        DnsRecord::MX {
            domain: "example.com".to_string(),
            priority: 10,
            host: "mail".to_string(),
            ttl: 1
        }
    );
    assert_eq!(buffer.pos(), end);
    assert_eq!(&written(&record)[..], &buffer.buf[0..end]);
}

#[test]
fn record_of_unknown_type_is_skipped_by_its_length() {
    let (mut buffer, end) = buffer_of(&[
        &NAME,
        &[0, 16, 0, 1, 0, 0, 0, 7, 0, 5],
        &[4, b't', b'e', b'x', b't'],
        &[0xAA],
    ]);
    let record = DnsRecord::read(&mut buffer).unwrap();
    assert_eq!(
        record,
        DnsRecord::UNKNOWN { domain: "example.com".to_string(), qtype: 16, data_len: 5, ttl: 7 }
    );
    assert_eq!(buffer.pos(), end - 1);
    assert_eq!(buffer.read(), Ok(0xAA));
}

#[test]
fn record_of_unknown_type_may_skip_past_the_end() {
    let (mut buffer, _) = buffer_of(&[&NAME, &[0xFF, 0xFF, 0, 1, 0, 0, 0, 0, 0xFF, 0xFF]]);
    let record = DnsRecord::read(&mut buffer).unwrap();
    assert_eq!(
        record,
        DnsRecord::UNKNOWN {
            domain: "example.com".to_string(),
            qtype: 0xFFFF,
            data_len: 0xFFFF,
            ttl: 0
        }
    );
    assert_eq!(buffer.pos(), 23 + 0xFFFF);
    assert_eq!(buffer.read(), Err(DnsError::OutOfBounds));
    assert_eq!(DnsRecord::read(&mut buffer), Err(DnsError::OutOfBounds));
}

#[test]
fn record_of_unknown_type_is_written_without_data() {
    let record =
        DnsRecord::UNKNOWN { domain: "example.com".to_string(), qtype: 16, data_len: 5, ttl: 7 };
    let bytes = written(&record);
    assert_eq!(bytes.len(), 23);
    assert_eq!(&bytes[0..13], &NAME);
    assert_eq!(&bytes[13..23], &[0, 16, 0, 1, 0, 0, 0, 7, 0, 0]);
    let mut buffer = BytePacketBuffer::new();
    record.write(&mut buffer).unwrap();
    buffer.seek(0).unwrap();
    assert_eq!(
        DnsRecord::read(&mut buffer),
        Ok(DnsRecord::UNKNOWN {
            domain: "example.com".to_string(),
            qtype: 16,
            data_len: 0,
            ttl: 7
        })
    );
}

#[test]
fn a_record_is_written_with_class_ttl_and_length() {
    let record =
        DnsRecord::A { domain: "a.bc".to_string(), addr: [127, 0, 0, 1], ttl: 0x01020304 };
    assert_eq!(
        written(&record),
        vec![1, b'a', 2, b'b', b'c', 0, 0, 1, 0, 1, 1, 2, 3, 4, 0, 4, 127, 0, 0, 1]
    );
}

#[test]
fn mx_record_is_written_with_the_length_of_priority_and_name() {
    let record = DnsRecord::MX {
        domain: "x".to_string(),
        priority: 0x0102,
        host: "mx.x".to_string(),
        ttl: 9,
    };
    assert_eq!(
        written(&record),
        vec![1, b'x', 0, 0, 15, 0, 1, 0, 0, 0, 9, 0, 8, 1, 2, 2, b'm', b'x', 1, b'x', 0]
    );
}

#[test]
fn records_come_back_as_written() {
    come_back(&DnsRecord::A { domain: "example.com".to_string(), addr: [192, 0, 2, 1], ttl: 1 });
    come_back(&DnsRecord::AAAA {
        domain: "example.com".to_string(),
        addr: [1, 2, 3, 4, 5, 6, 7, 8, 9, 10, 11, 12, 13, 14, 15, 16],
        ttl: u32::MAX,
    });
    come_back(&DnsRecord::NS {
        domain: "example.com".to_string(),
        host: "ns1.example.net".to_string(),
        ttl: 300,
    });
    come_back(&DnsRecord::CNAME {
        domain: "www.example.com".to_string(),
        host: "example.com".to_string(),
        ttl: 0,
    });
    come_back(&DnsRecord::MX {
        domain: "example.com".to_string(),
        priority: 65535,
        host: "mail.example.com".to_string(),
        ttl: 77,
    });
    come_back(&DnsRecord::UNKNOWN {
        domain: "example.com".to_string(),
        qtype: 99,
        data_len: 0,
        ttl: 5,
    });
}

#[test]
fn getters_give_the_shared_fields() {
    let record = DnsRecord::MX {
        domain: "example.com".to_string(),
        priority: 1,
        host: "mail.example.com".to_string(),
        ttl: 77,
    };
    assert_eq!(record.domain(), "example.com");
    assert_eq!(record.ttl(), 77);
    assert_eq!(record.type_code(), 15);
    assert_eq!(record.data_length(), 20);
    let record = DnsRecord::UNKNOWN { domain: "x".to_string(), qtype: 4711, data_len: 3, ttl: 2 };
    assert_eq!(record.type_code(), 4711);
    assert_eq!(record.data_length(), 0);
    let record = DnsRecord::NS { domain: "x".to_string(), host: "".to_string(), ttl: 2 };
    assert_eq!(record.type_code(), 2);
    assert_eq!(record.data_length(), 2);
    let record = DnsRecord::A { domain: "x".to_string(), addr: [0; 4], ttl: 2 };
    assert_eq!((record.type_code(), record.data_length()), (1, 4));
    let record = DnsRecord::AAAA { domain: "x".to_string(), addr: [0; 16], ttl: 2 };
    assert_eq!((record.type_code(), record.data_length()), (28, 16));
    let record = DnsRecord::CNAME { domain: "x".to_string(), host: "ab.c".to_string(), ttl: 2 };
    assert_eq!((record.type_code(), record.data_length()), (5, 6));
}

#[test]
fn record_with_a_long_label_is_refused() {
    let long = "z".repeat(64);
    let record = DnsRecord::A { domain: long.clone(), addr: [1, 2, 3, 4], ttl: 1 };
    let mut buffer = BytePacketBuffer::new();
    assert_eq!(record.write(&mut buffer), Err(DnsError::LabelTooLong));
    assert_eq!(buffer.pos(), 0);
    let record = DnsRecord::NS { domain: "ok".to_string(), host: long, ttl: 1 };
    let mut buffer = BytePacketBuffer::new();
    assert_eq!(record.write(&mut buffer), Err(DnsError::LabelTooLong));
    assert_eq!(buffer.pos(), 4 + 10);
    assert_eq!(&buffer.buf[12..14], &[0, 66]);
}

#[test]
fn record_cut_off_by_the_end_is_out_of_bounds() {
    let record = DnsRecord::A { domain: "example.com".to_string(), addr: [1, 2, 3, 4], ttl: 1 };
    let mut buffer = BytePacketBuffer::new();
    buffer.seek(485).unwrap();
    assert_eq!(record.write(&mut buffer), Ok(()));
    assert_eq!(buffer.pos(), 512);
    buffer.seek(485).unwrap();
    assert_eq!(DnsRecord::read(&mut buffer), Ok(record.clone()));
    buffer.seek(486).unwrap();
    assert_eq!(record.write(&mut buffer), Err(DnsError::OutOfBounds));
    assert_eq!(buffer.pos(), 512);
    buffer.seek(486).unwrap();
    assert_eq!(DnsRecord::read(&mut buffer), Err(DnsError::OutOfBounds));
    let (mut buffer, _) = buffer_of(&[&NAME, &[0, 28, 0, 1, 0, 0, 0, 0, 0, 16]]);
    buffer.seek(500).unwrap();
    buffer.buf[500..510].copy_from_slice(&[0, 0, 28, 0, 1, 0, 0, 0, 0, 0]);
    assert_eq!(DnsRecord::read(&mut buffer), Err(DnsError::OutOfBounds));
}
