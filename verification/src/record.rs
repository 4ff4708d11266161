use vstd::prelude::*;
use vstd::utf8::*;
use crate::buffer::{
    all_complete, holds, joined, lemma_holds_both, lemma_joined_next, lemma_u16_held,
    lemma_u32_held, low16, u16_at, u16_bytes, u32_at, u32_bytes, whole_piece, write_outcome,
    BytePacketBuffer, Piece,
};
use crate::error::DnsError;
use crate::name::{
    lemma_name_held, lemma_name_wire_len, name_at, name_piece, name_wire, plain_name,
};
use crate::text::ascii_lowercase;
use crate::query::QueryType;

verus! {

/// A resource record. All kinds share the name of their owner and a time
/// to live in seconds; the class is always 1, the Internet.
#[derive(Debug, Clone, PartialEq, Eq)]
#[allow(inconsistent_fields)]
pub enum DnsRecord {
    /// A record of a type without a variant of its own: the type's code
    /// and the length of the data, which is skipped and not kept.
    UNKNOWN { domain: String, qtype: u16, data_len: u16, ttl: u32 },
    /// An IPv4 address, its four bytes in the order of the dotted form.
    A { domain: String, addr: [u8; 4], ttl: u32 },
    /// A name server of the domain.
    NS { domain: String, host: String, ttl: u32 },
    /// The name that the domain is an alias of.
    CNAME { domain: String, host: String, ttl: u32 },
    /// A mail exchange of the domain and its priority.
    MX { domain: String, priority: u16, host: String, ttl: u32 },
    /// An IPv6 address, its sixteen bytes in network order.
    AAAA { domain: String, addr: [u8; 16], ttl: u32 },
}

/// A record as a value: names as text, addresses as bytes.
pub ghost enum RecordView {
    UNKNOWN { domain: Seq<char>, qtype: u16, data_len: u16, ttl: u32 },
    A { domain: Seq<char>, addr: Seq<u8>, ttl: u32 },
    NS { domain: Seq<char>, host: Seq<char>, ttl: u32 },
    CNAME { domain: Seq<char>, host: Seq<char>, ttl: u32 },
    MX { domain: Seq<char>, priority: u16, host: Seq<char>, ttl: u32 },
    AAAA { domain: Seq<char>, addr: Seq<u8>, ttl: u32 },
}

impl View for DnsRecord {
    type V = RecordView;

    open spec fn view(&self) -> RecordView {
        match *self {
            DnsRecord::UNKNOWN { domain, qtype, data_len, ttl } => RecordView::UNKNOWN {
                domain: domain@,
                qtype,
                data_len,
                ttl,
            },
            DnsRecord::A { domain, addr, ttl } => RecordView::A {
                domain: domain@,
                addr: addr@,
                ttl,
            },
            DnsRecord::NS { domain, host, ttl } => RecordView::NS {
                domain: domain@,
                host: host@,
                ttl,
            },
            DnsRecord::CNAME { domain, host, ttl } => RecordView::CNAME {
                domain: domain@,
                host: host@,
                ttl,
            },
            DnsRecord::MX { domain, priority, host, ttl } => RecordView::MX {
                domain: domain@,
                priority,
                host: host@,
                ttl,
            },
            DnsRecord::AAAA { domain, addr, ttl } => RecordView::AAAA {
                domain: domain@,
                addr: addr@,
                ttl,
            },
        }
    }
}

impl RecordView {
    /// The name of the record's owner.
    pub open spec fn domain(self) -> Seq<char> {
        match self {
            RecordView::UNKNOWN { domain, .. } => domain,
            RecordView::A { domain, .. } => domain,
            RecordView::NS { domain, .. } => domain,
            RecordView::CNAME { domain, .. } => domain,
            RecordView::MX { domain, .. } => domain,
            RecordView::AAAA { domain, .. } => domain,
        }
    }

    /// The time to live.
    pub open spec fn ttl(self) -> u32 {
        match self {
            RecordView::UNKNOWN { ttl, .. } => ttl,
            RecordView::A { ttl, .. } => ttl,
            RecordView::NS { ttl, .. } => ttl,
            RecordView::CNAME { ttl, .. } => ttl,
            RecordView::MX { ttl, .. } => ttl,
            RecordView::AAAA { ttl, .. } => ttl,
        }
    }

    /// The code of the record's type as it is written.
    pub open spec fn code(self) -> u16 {
        match self {
            RecordView::UNKNOWN { qtype, .. } => qtype,
            RecordView::A { .. } => QueryType::A.num(),
            RecordView::NS { .. } => QueryType::NS.num(),
            RecordView::CNAME { .. } => QueryType::CNAME.num(),
            RecordView::MX { .. } => QueryType::MX.num(),
            RecordView::AAAA { .. } => QueryType::AAAA.num(),
        }
    }

    /// The length of the record's data when all of it is written: a name
    /// takes two bytes more than its text. Of an unknown record no data is
    /// kept, and none is written.
    pub open spec fn data_len(self) -> nat {
        match self {
            RecordView::UNKNOWN { .. } => 0,
            RecordView::A { .. } => 4,
            RecordView::NS { host, .. } => encode_utf8(host).len() + 2,
            RecordView::CNAME { host, .. } => encode_utf8(host).len() + 2,
            RecordView::MX { host, .. } => encode_utf8(host).len() + 4,
            RecordView::AAAA { .. } => 16,
        }
    }

    /// The pieces of the record's data.
    pub open spec fn data_pieces(self) -> Seq<Piece> {
        match self {
            RecordView::UNKNOWN { .. } => Seq::empty(),
            RecordView::A { addr, .. } => seq![whole_piece(addr)],
            RecordView::NS { host, .. } => seq![name_piece(host)],
            RecordView::CNAME { host, .. } => seq![name_piece(host)],
            RecordView::MX { priority, host, .. } => seq![
                whole_piece(u16_bytes(priority)),
                name_piece(host),
            ],
            RecordView::AAAA { addr, .. } => seq![whole_piece(addr)],
        }
    }

    /// The pieces of the record in the order in which they are written:
    /// the owner's name, the type's code, the class 1, the time to live,
    /// the length of the data, the data.
    pub open spec fn pieces(self) -> Seq<Piece> {
        seq![
            name_piece(self.domain()),
            whole_piece(u16_bytes(self.code())),
            whole_piece(u16_bytes(1)),
            whole_piece(u32_bytes(self.ttl())),
            whole_piece(u16_bytes(low16(self.data_len()))),
        ] + self.data_pieces()
    }

    /// Can the whole record be written: is no label of its names too long?
    pub open spec fn complete(self) -> bool {
        all_complete(self.pieces())
    }

    /// The bytes that writing the record puts out: all of them, or those
    /// that come before the first label that is too long.
    pub open spec fn wire(self) -> Seq<u8> {
        joined(self.pieces())
    }

    /// The record as one piece of a message.
    pub open spec fn piece(self) -> Piece {
        Piece { bytes: self.wire(), complete: self.complete() }
    }
}

/// Of a record that can be written whole, with an address of the right
/// size, the length written before the data is the length of the data.
pub proof fn lemma_data_length(record: RecordView)
    requires
        record.complete(),
        record matches RecordView::A { addr, .. } ==> addr.len() == 4,
        record matches RecordView::AAAA { addr, .. } ==> addr.len() == 16,
    ensures
        joined(record.data_pieces()).len() == record.data_len(),
        record.data_len() < 0x10000 ==> low16(record.data_len()) == record.data_len(),
{
    reveal_with_fuel(joined, 3);
    let pieces = record.pieces();
    let data = record.data_pieces();
    assert forall|i: int| 0 <= i < data.len() implies (#[trigger] data[i]).complete by {
        assert(pieces[5 + i] == data[i]);
    }
    match record {
        RecordView::NS { host, .. } => {
            assert(data[0].complete);
            lemma_name_wire_len(encode_utf8(host), 0);
        },
        RecordView::CNAME { host, .. } => {
            assert(data[0].complete);
            lemma_name_wire_len(encode_utf8(host), 0);
        },
        RecordView::MX { host, .. } => {
            assert(data[1].complete);
            lemma_name_wire_len(encode_utf8(host), 0);
            assert(data.drop_first() =~= seq![name_piece(host)]);
        },
        _ => {},
    }
}

/// The `n` bytes at `pos` of a buffer and the position behind them.
pub open spec fn octets_at(buf: Seq<u8>, pos: int, n: int) -> Result<(Seq<u8>, int), DnsError> {
    if 0 <= pos && pos + n <= 512 {
        Ok((buf.subrange(pos, pos + n), pos + n))
    } else {
        Err(DnsError::OutOfBounds)
    }
}

/// The record whose data start at `pos` of a buffer, its preamble having
/// given the other arguments, and the position behind it. An address has
/// four or sixteen bytes whatever the length says; data of a type without
/// a variant are passed over by their length, wherever that leads.
pub open spec fn data_at(
    buf: Seq<u8>,
    pos: int,
    domain: Seq<char>,
    code: u16,
    ttl: u32,
    data_len: u16,
) -> Result<(RecordView, int), DnsError> {
    match QueryType::of_num(code) {
        QueryType::A => match octets_at(buf, pos, 4) {
            Err(e) => Err(e),
            Ok((addr, end)) => Ok((RecordView::A { domain, addr, ttl }, end)),
        },
        QueryType::AAAA => match octets_at(buf, pos, 16) {
            Err(e) => Err(e),
            Ok((addr, end)) => Ok((RecordView::AAAA { domain, addr, ttl }, end)),
        },
        QueryType::NS => match name_at(buf, pos, 0, true) {
            Err(e) => Err(e),
            Ok((host, end)) => Ok((RecordView::NS { domain, host, ttl }, end)),
        },
        QueryType::CNAME => match name_at(buf, pos, 0, true) {
            Err(e) => Err(e),
            Ok((host, end)) => Ok((RecordView::CNAME { domain, host, ttl }, end)),
        },
        QueryType::MX => match u16_at(buf, pos) {
            Err(e) => Err(e),
            Ok((priority, at_host)) => match name_at(buf, at_host, 0, true) {
                Err(e) => Err(e),
                Ok((host, end)) => Ok((RecordView::MX { domain, priority, host, ttl }, end)),
            },
        },
        QueryType::UNKNOWN(_) => Ok(
            (RecordView::UNKNOWN { domain, qtype: code, data_len, ttl }, pos + data_len),
        ),
    }
}

/// The record at `pos` of a buffer and the position behind it. The class
/// is read and dropped.
pub open spec fn record_at(buf: Seq<u8>, pos: int) -> Result<(RecordView, int), DnsError> {
    match name_at(buf, pos, 0, true) {
        Err(e) => Err(e),
        Ok((domain, at_type)) => match u16_at(buf, at_type) {
            Err(e) => Err(e),
            Ok((code, at_class)) => match u16_at(buf, at_class) {
                Err(e) => Err(e),
                Ok((_, at_ttl)) => match u32_at(buf, at_ttl) {
                    Err(e) => Err(e),
                    Ok((ttl, at_length)) => match u16_at(buf, at_length) {
                        Err(e) => Err(e),
                        Ok((data_len, at_data)) => data_at(
                            buf,
                            at_data,
                            domain,
                            code,
                            ttl,
                            data_len,
                        ),
                    },
                },
            },
        },
    }
}

/// Writes `octets` one after the other.
fn write_octets(buffer: &mut BytePacketBuffer, octets: &[u8]) -> (r: Result<(), DnsError>)
    ensures
        old(buffer).wrote(*final(buffer), octets@),
        r == write_outcome(old(buffer).room(), octets@.len(), true),
{
    let ghost b0 = *buffer;
    let mut i: usize = 0;
    proof {
        b0.lemma_wrote_nothing();
        assert(octets@.take(0) =~= Seq::<u8>::empty());
    }
    while i < octets.len()
        invariant
            i <= octets@.len(),
            b0 == *old(buffer),
            b0.wrote(*buffer, octets@.take(i as int)),
            i <= b0.room(),
        decreases octets@.len() - i,
    {
        let ghost mid = *buffer;
        let r = buffer.write_u8(octets[i]);
        proof {
            assert(octets@.subrange(i as int, i + 1) =~= seq![octets@[i as int]]);
            b0.lemma_wrote_step(mid, *buffer, octets@, i as int, i + 1);
        }
        r?;
        i += 1;
    }
    proof {
        assert(octets@.take(i as int) =~= octets@);
    }
    Ok(())
}

/// The length field of data that hold a name and `extra` bytes besides.
fn name_low16(host: &str, extra: usize) -> (len: u16)
    requires
        extra < 0x10000,
    ensures
        len == low16((encode_utf8(host@).len() + 2 + extra) as nat),
{
    let n = host.as_bytes().len();
    ((n % 0x10000 + 2 + extra) % 0x10000) as u16
}

impl RecordView {
    /// Are the names plain, has an address its four or sixteen bytes, and
    /// does an unknown record hold the code of no named type and count no data?
    pub open spec fn plain(self) -> bool {
        &&& plain_name(self.domain())
        &&& match self {
            RecordView::UNKNOWN { qtype, data_len, .. } => QueryType::of_num(qtype)
                is UNKNOWN && data_len == 0,
            RecordView::A { addr, .. } => addr.len() == 4,
            RecordView::NS { host, .. } => plain_name(host),
            RecordView::CNAME { host, .. } => plain_name(host),
            RecordView::MX { host, .. } => plain_name(host),
            RecordView::AAAA { addr, .. } => addr.len() == 16,
        }
    }

    /// The record with its names in lower case.
    pub open spec fn lowered(self) -> RecordView {
        match self {
            RecordView::UNKNOWN { domain, qtype, data_len, ttl } => RecordView::UNKNOWN {
                domain: ascii_lowercase(domain),
                qtype,
                data_len,
                ttl,
            },
            RecordView::A { domain, addr, ttl } => RecordView::A {
                domain: ascii_lowercase(domain),
                addr,
                ttl,
            },
            RecordView::NS { domain, host, ttl } => RecordView::NS {
                domain: ascii_lowercase(domain),
                host: ascii_lowercase(host),
                ttl,
            },
            RecordView::CNAME { domain, host, ttl } => RecordView::CNAME {
                domain: ascii_lowercase(domain),
                host: ascii_lowercase(host),
                ttl,
            },
            RecordView::MX { domain, priority, host, ttl } => RecordView::MX {
                domain: ascii_lowercase(domain),
                priority,
                host: ascii_lowercase(host),
                ttl,
            },
            RecordView::AAAA { domain, addr, ttl } => RecordView::AAAA {
                domain: ascii_lowercase(domain),
                addr,
                ttl,
            },
        }
    }

    /// The ten bytes between the owner's name and the data.
    pub open spec fn fixed_wire(self) -> Seq<u8> {
        u16_bytes(self.code()) + u16_bytes(1) + u32_bytes(self.ttl()) + u16_bytes(
            low16(self.data_len()),
        )
    }

    /// The bytes of the data of a record that is written whole.
    pub open spec fn data_wire(self) -> Seq<u8> {
        match self {
            RecordView::UNKNOWN { .. } => Seq::empty(),
            RecordView::A { addr, .. } => addr,
            RecordView::NS { host, .. } => name_wire(encode_utf8(host)),
            RecordView::CNAME { host, .. } => name_wire(encode_utf8(host)),
            RecordView::MX { priority, host, .. } => u16_bytes(priority) + name_wire(
                encode_utf8(host),
            ),
            RecordView::AAAA { addr, .. } => addr,
        }
    }
}

/// A record that can be written whole is written as the owner's name, the
/// ten bytes of type, class, time to live and length, and the data.
pub proof fn lemma_record_wire(record: RecordView)
    requires
        record.complete(),
    ensures
        record.wire() == name_wire(encode_utf8(record.domain())) + record.fixed_wire()
            + record.data_wire(),
{
    let pieces = record.pieces();
    let data = record.data_pieces();
    let n = pieces.len() as int;
    assert(n == 5 + data.len());
    assert forall|k: int| 0 <= k <= n implies all_complete(#[trigger] pieces.take(k)) by {
        assert forall|i: int| 0 <= i < k implies (#[trigger] pieces.take(k)[i]).complete by {
            assert(pieces[i].complete);
        }
    }
    assert(pieces.take(0) =~= Seq::<Piece>::empty());
    lemma_joined_next(pieces, 0);
    lemma_joined_next(pieces, 1);
    lemma_joined_next(pieces, 2);
    lemma_joined_next(pieces, 3);
    lemma_joined_next(pieces, 4);
    let name = name_wire(encode_utf8(record.domain()));
    assert(joined(pieces.take(5)) =~= name + record.fixed_wire());
    if data.len() >= 1 {
        lemma_joined_next(pieces, 5);
        assert(pieces[5] == data[0]);
    }
    if data.len() >= 2 {
        lemma_joined_next(pieces, 6);
        assert(pieces[6] == data[1]);
    }
    assert(pieces.take(n) =~= pieces);
    assert(joined(pieces) =~= name + record.fixed_wire() + record.data_wire());
}

/// A plain record can be written whole.
pub proof fn lemma_plain_is_complete(record: RecordView)
    requires
        record.plain(),
    ensures
        record.complete(),
{
    let pieces = record.pieces();
    assert forall|i: int| 0 <= i < pieces.len() implies (#[trigger] pieces[i]).complete by {
        if i >= 5 {
            assert(pieces[i] == record.data_pieces()[i - 5]);
        }
    }
}

/// The ten bytes behind the owner's name are read from where they are held.
proof fn lemma_fixed_held(record: RecordView, buf: Seq<u8>, pos: int)
    requires
        holds(buf, pos, record.fixed_wire()),
    ensures
        u16_at(buf, pos) == Ok::<(u16, int), DnsError>((record.code(), pos + 2)),
        u16_at(buf, pos + 2) == Ok::<(u16, int), DnsError>((1u16, pos + 4)),
        u32_at(buf, pos + 4) == Ok::<(u32, int), DnsError>((record.ttl(), pos + 8)),
        u16_at(buf, pos + 8) == Ok::<(u16, int), DnsError>(
            (low16(record.data_len()), pos + 10),
        ),
{
    let code = u16_bytes(record.code());
    let class = u16_bytes(1);
    let ttl = u32_bytes(record.ttl());
    let len = u16_bytes(low16(record.data_len()));
    lemma_holds_both(buf, pos, code + class + ttl, len);
    lemma_holds_both(buf, pos, code + class, ttl);
    lemma_holds_both(buf, pos, code, class);
    lemma_u16_held(buf, pos, record.code());
    lemma_u16_held(buf, pos + 2, 1);
    lemma_u32_held(buf, pos + 4, record.ttl());
    lemma_u16_held(buf, pos + 8, low16(record.data_len()));
}

/// The data of a plain record are read, a name in lower case, from where
/// their written bytes are held.
proof fn lemma_data_held(record: RecordView, buf: Seq<u8>, pos: int)
    requires
        record.plain(),
        holds(buf, pos, record.data_wire()),
    ensures
        data_at(
            buf,
            pos,
            ascii_lowercase(record.domain()),
            record.code(),
            record.ttl(),
            low16(record.data_len()),
        ) == Ok::<(RecordView, int), DnsError>(
            (record.lowered(), pos + record.data_wire().len()),
        ),
{
    reveal(holds);
    match record {
        RecordView::UNKNOWN { .. } => {},
        RecordView::A { addr, .. } => {
            assert(buf.subrange(pos, pos + 4) == addr);
        },
        RecordView::AAAA { addr, .. } => {
            assert(buf.subrange(pos, pos + 16) == addr);
        },
        RecordView::NS { host, .. } => {
            lemma_name_held(host, buf, pos);
        },
        RecordView::CNAME { host, .. } => {
            lemma_name_held(host, buf, pos);
        },
        RecordView::MX { priority, host, .. } => {
            lemma_holds_both(buf, pos, u16_bytes(priority), name_wire(encode_utf8(host)));
            lemma_u16_held(buf, pos, priority);
            lemma_name_held(host, buf, pos + 2);
        },
    }
}

/// A plain record is read, its names in lower case, from where its written
/// bytes are held, and the cursor rests behind them.
pub proof fn lemma_record_held(record: RecordView, buf: Seq<u8>, pos: int)
    requires
        record.plain(),
        holds(buf, pos, record.wire()),
    ensures
        record_at(buf, pos) == Ok::<(RecordView, int), DnsError>(
            (record.lowered(), pos + record.wire().len()),
        ),
{
    lemma_plain_is_complete(record);
    lemma_record_wire(record);
    let name = name_wire(encode_utf8(record.domain()));
    let fixed = record.fixed_wire();
    let data = record.data_wire();
    lemma_holds_both(buf, pos, name + fixed, data);
    lemma_holds_both(buf, pos, name, fixed);
    lemma_name_held(record.domain(), buf, pos);
    lemma_fixed_held(record, buf, pos + name.len());
    lemma_data_held(record, buf, pos + name.len() + 10);
}

impl DnsRecord {
    /// The name of the record's owner.
    pub fn domain(&self) -> (domain: &String)
        ensures
            domain@ == self@.domain(),
    {
        match self {
            DnsRecord::UNKNOWN { domain, .. } => domain,
            DnsRecord::A { domain, .. } => domain,
            DnsRecord::NS { domain, .. } => domain,
            DnsRecord::CNAME { domain, .. } => domain,
            DnsRecord::MX { domain, .. } => domain,
            DnsRecord::AAAA { domain, .. } => domain,
        }
    }

    /// The time to live.
    pub fn ttl(&self) -> (ttl: u32)
        ensures
            ttl == self@.ttl(),
    {
        match self {
            DnsRecord::UNKNOWN { ttl, .. } => *ttl,
            DnsRecord::A { ttl, .. } => *ttl,
            DnsRecord::NS { ttl, .. } => *ttl,
            DnsRecord::CNAME { ttl, .. } => *ttl,
            DnsRecord::MX { ttl, .. } => *ttl,
            DnsRecord::AAAA { ttl, .. } => *ttl,
        }
    }

    /// The code of the record's type as it is written.
    pub fn type_code(&self) -> (code: u16)
        ensures
            code == self@.code(),
    {
        match self {
            DnsRecord::UNKNOWN { qtype, .. } => *qtype,
            DnsRecord::A { .. } => QueryType::A.to_num(),
            DnsRecord::NS { .. } => QueryType::NS.to_num(),
            DnsRecord::CNAME { .. } => QueryType::CNAME.to_num(),
            DnsRecord::MX { .. } => QueryType::MX.to_num(),
            DnsRecord::AAAA { .. } => QueryType::AAAA.to_num(),
        }
    }

    /// What the length field of the written record holds.
    pub fn data_length(&self) -> (len: u16)
        ensures
            len == low16(self@.data_len()),
    {
        match self {
            DnsRecord::UNKNOWN { .. } => 0,
            DnsRecord::A { .. } => 4,
            DnsRecord::NS { host, .. } => name_low16(host.as_str(), 0),
            DnsRecord::CNAME { host, .. } => name_low16(host.as_str(), 0),
            DnsRecord::MX { host, .. } => name_low16(host.as_str(), 2),
            DnsRecord::AAAA { .. } => 16,
        }
    }

    /// Writes the record at the cursor: the owner's name, the type's code,
    /// the class 1, the time to live, the length of the data and the
    /// data. Names are written in full, without pointers. A record of a
    /// type without a variant holds no data, and is written with none.
    pub fn write(&self, buffer: &mut BytePacketBuffer) -> (r: Result<(), DnsError>)
        ensures
            old(buffer).wrote(*final(buffer), self@.wire()),
            r == write_outcome(old(buffer).room(), self@.wire().len(), self@.complete()),
    {
        let ghost pieces = self@.pieces();
        let ghost b0 = *buffer;
        proof {
            b0.lemma_wrote_none(pieces);
        }
        let r0 = buffer.write_qname(self.domain().as_str());
        proof {
            b0.lemma_wrote_piece(b0, *buffer, pieces, 0, r0);
        }
        r0?;
        let ghost b1 = *buffer;
        let r1 = buffer.write_u16(self.type_code());
        proof {
            b0.lemma_wrote_piece(b1, *buffer, pieces, 1, r1);
        }
        r1?;
        let ghost b2 = *buffer;
        let r2 = buffer.write_u16(1);
        proof {
            b0.lemma_wrote_piece(b2, *buffer, pieces, 2, r2);
        }
        r2?;
        let ghost b3 = *buffer;
        let r3 = buffer.write_u32(self.ttl());
        proof {
            b0.lemma_wrote_piece(b3, *buffer, pieces, 3, r3);
        }
        r3?;
        let ghost b4 = *buffer;
        let r4 = buffer.write_u16(self.data_length());
        proof {
            b0.lemma_wrote_piece(b4, *buffer, pieces, 4, r4);
        }
        r4?;
        let ghost b5 = *buffer;
        match self {
            DnsRecord::UNKNOWN { .. } => {},
            DnsRecord::A { addr, .. } => {
                let r5 = write_octets(buffer, addr.as_slice());
                proof {
                    b0.lemma_wrote_piece(b5, *buffer, pieces, 5, r5);
                }
                r5?;
            },
            DnsRecord::NS { host, .. } => {
                let r5 = buffer.write_qname(host.as_str());
                proof {
                    b0.lemma_wrote_piece(b5, *buffer, pieces, 5, r5);
                }
                r5?;
            },
            DnsRecord::CNAME { host, .. } => {
                let r5 = buffer.write_qname(host.as_str());
                proof {
                    b0.lemma_wrote_piece(b5, *buffer, pieces, 5, r5);
                }
                r5?;
            },
            DnsRecord::MX { priority, host, .. } => {
                let r5 = buffer.write_u16(*priority);
                proof {
                    b0.lemma_wrote_piece(b5, *buffer, pieces, 5, r5);
                }
                r5?;
                let ghost b6 = *buffer;
                let r6 = buffer.write_qname(host.as_str());
                proof {
                    b0.lemma_wrote_piece(b6, *buffer, pieces, 6, r6);
                }
                r6?;
            },
            DnsRecord::AAAA { addr, .. } => {
                let r5 = write_octets(buffer, addr.as_slice());
                proof {
                    b0.lemma_wrote_piece(b5, *buffer, pieces, 5, r5);
                }
                r5?;
            },
        }
        proof {
            b0.lemma_wrote_last(*buffer, pieces);
        }
        Ok(())
    }

    /// Reads the record at the cursor.
    pub fn read(buffer: &mut BytePacketBuffer) -> (r: Result<DnsRecord, DnsError>)
        ensures
            final(buffer).buf == old(buffer).buf,
            match record_at(old(buffer).buf@, old(buffer).pos as int) {
                Ok((record, end)) => {
                    &&& r is Ok
                    &&& r.unwrap()@ == record
                    &&& final(buffer).pos == end
                },
                Err(e) => r is Err && r.unwrap_err() == e,
            },
    {
        let mut domain = String::new();
        buffer.read_qname(&mut domain)?;
        let qtype_num = buffer.read_u16()?;
        let qtype = QueryType::from_num(qtype_num);
        let _ = buffer.read_u16()?;
        let ttl = buffer.read_u32()?;
        let data_len = buffer.read_u16()?;
        assert(domain@ =~= name_at(old(buffer).buf@, old(buffer).pos as int, 0, true)->Ok_0.0);
        match qtype {
            QueryType::A => {
                let ghost start = buffer.pos as int;
                let b0 = buffer.read()?;
                let b1 = buffer.read()?;
                let b2 = buffer.read()?;
                let b3 = buffer.read()?;
                let addr = [b0, b1, b2, b3];
                assert(addr@ =~= buffer.buf@.subrange(start, start + 4));
                Ok(DnsRecord::A { domain, addr, ttl })
            },
            QueryType::AAAA => {
                let ghost start = buffer.pos as int;
                let ghost whole = record_at(old(buffer).buf@, old(buffer).pos as int);
                let mut addr = [0u8;16];
                let mut i: usize = 0;
                while i < 16
                    invariant
                        i <= 16,
                        buffer.buf == old(buffer).buf,
                        0 <= start,
                        start + i <= 512,
                        buffer.pos == start + i,
                        forall|k: int| 0 <= k < i ==> addr@[k] == buffer.buf@[start + k],
                        whole == record_at(old(buffer).buf@, old(buffer).pos as int),
                        start + 16 > 512 ==> whole == Err::<(RecordView, int), DnsError>(
                            DnsError::OutOfBounds,
                        ),
                    decreases 16 - i,
                {
                    addr[i] = buffer.read()?;
                    i += 1;
                }
                assert(addr@ =~= buffer.buf@.subrange(start, start + 16));
                Ok(DnsRecord::AAAA { domain, addr, ttl })
            },
            QueryType::NS => {
                let mut host = String::new();
                let ghost start = buffer.pos as int;
                buffer.read_qname(&mut host)?;
                assert(host@ =~= name_at(buffer.buf@, start, 0, true)->Ok_0.0);
                Ok(DnsRecord::NS { domain, host, ttl })
            },
            QueryType::CNAME => {
                let mut host = String::new();
                let ghost start = buffer.pos as int;
                buffer.read_qname(&mut host)?;
                assert(host@ =~= name_at(buffer.buf@, start, 0, true)->Ok_0.0);
                Ok(DnsRecord::CNAME { domain, host, ttl })
            },
            QueryType::MX => {
                let priority = buffer.read_u16()?;
                let mut host = String::new();
                let ghost start = buffer.pos as int;
                buffer.read_qname(&mut host)?;
                assert(host@ =~= name_at(buffer.buf@, start, 0, true)->Ok_0.0);
                Ok(DnsRecord::MX { domain, priority, host, ttl })
            },
            QueryType::UNKNOWN(_) => {
                buffer.step(data_len as usize)?;
                Ok(DnsRecord::UNKNOWN { domain, qtype: qtype_num, data_len, ttl })
            },
        }
    }
}

} // verus!
