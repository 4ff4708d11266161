use vstd::prelude::*;
use crate::buffer::{be16, holds, u16_bytes, write_outcome, BytePacketBuffer};
use crate::error::DnsError;
use crate::result::ResultCode;

verus! {

/// The twelve bytes that open every message.
#[derive(Clone, Copy, Debug, PartialEq, Eq, Structural)]
pub struct DnsHeader {
    pub id: u16,
    pub recursion_desired: bool,
    pub truncated_message: bool,
    pub authoritative_answer: bool,
    pub opcode: u8,
    pub response: bool,
    pub rescode: ResultCode,
    pub checking_disabled: bool,
    pub authed_data: bool,
    pub z: bool,
    pub recursion_available: bool,
    pub questions: u16,
    pub answers: u16,
    pub authoritative_entries: u16,
    pub resource_entries: u16,
}

/// A flag as a bit.
pub open spec fn flag_bit(flag: bool) -> u8 {
    if flag {
        1
    } else {
        0
    }
}

/// The header that the twelve bytes `b` hold.
pub open spec fn header_of(b: Seq<u8>) -> DnsHeader {
    DnsHeader {
        id: be16(b[0], b[1]),
        recursion_desired: b[2] & 0x01 != 0,
        truncated_message: b[2] & 0x02 != 0,
        authoritative_answer: b[2] & 0x04 != 0,
        opcode: (b[2] >> 3) & 0x0F,
        response: b[2] & 0x80 != 0,
        rescode: ResultCode::of_num(b[3] & 0x0F),
        checking_disabled: b[3] & 0x10 != 0,
        authed_data: b[3] & 0x20 != 0,
        z: b[3] & 0x40 != 0,
        recursion_available: b[3] & 0x80 != 0,
        questions: be16(b[4], b[5]),
        answers: be16(b[6], b[7]),
        authoritative_entries: be16(b[8], b[9]),
        resource_entries: be16(b[10], b[11]),
    }
}

/// The header at `pos` of a buffer and the position behind it.
pub open spec fn header_at(buf: Seq<u8>, pos: int) -> Result<(DnsHeader, int), DnsError> {
    if 0 <= pos && pos + 12 <= 512 {
        Ok((header_of(buf.subrange(pos, pos + 12)), pos + 12))
    } else {
        Err(DnsError::OutOfBounds)
    }
}

/// The two big-endian bytes of a number give the number back.
pub proof fn lemma_be16_round_trip(v: u16)
    ensures
        be16(u16_bytes(v)[0], u16_bytes(v)[1]) == v,
{
    assert(((((v >> 8) as u8) as u16) << 8) | (((v & 0xFF) as u8) as u16) == v) by (bit_vector);
}

/// Five fields packed into the first flag byte come out again.
proof fn lemma_flags_hi(rd: u8, tc: u8, aa: u8, opcode: u8, qr: u8)
    by (bit_vector)
    requires
        rd <= 1,
        tc <= 1,
        aa <= 1,
        opcode <= 15,
        qr <= 1,
    ensures
        ({
            let a = rd | (tc << 1) | (aa << 2) | (opcode << 3) | (qr << 7);
            &&& (a & 0x01 != 0) == (rd == 1)
            &&& (a & 0x02 != 0) == (tc == 1)
            &&& (a & 0x04 != 0) == (aa == 1)
            &&& (a >> 3) & 0x0F == opcode
            &&& (a & 0x80 != 0) == (qr == 1)
        }),
{
}

/// Five fields packed into the second flag byte come out again.
proof fn lemma_flags_lo(rescode: u8, cd: u8, ad: u8, z: u8, ra: u8)
    by (bit_vector)
    requires
        rescode <= 15,
        cd <= 1,
        ad <= 1,
        z <= 1,
        ra <= 1,
    ensures
        ({
            let b = rescode | (cd << 4) | (ad << 5) | (z << 6) | (ra << 7);
            &&& b & 0x0F == rescode
            &&& (b & 0x10 != 0) == (cd == 1)
            &&& (b & 0x20 != 0) == (ad == 1)
            &&& (b & 0x40 != 0) == (z == 1)
            &&& (b & 0x80 != 0) == (ra == 1)
        }),
{
}

/// A header whose opcode fits its four bits comes back from its twelve
/// bytes as it was.
pub proof fn lemma_header_bytes(header: DnsHeader)
    requires
        header.opcode <= 15,
    ensures
        header.wire().len() == 12,
        header_of(header.wire()) == header,
{
    lemma_be16_round_trip(header.id);
    lemma_be16_round_trip(header.questions);
    lemma_be16_round_trip(header.answers);
    lemma_be16_round_trip(header.authoritative_entries);
    lemma_be16_round_trip(header.resource_entries);
    lemma_flags_hi(
        flag_bit(header.recursion_desired),
        flag_bit(header.truncated_message),
        flag_bit(header.authoritative_answer),
        header.opcode,
        flag_bit(header.response),
    );
    lemma_flags_lo(
        header.rescode.num(),
        flag_bit(header.checking_disabled),
        flag_bit(header.authed_data),
        flag_bit(header.z),
        flag_bit(header.recursion_available),
    );
    ResultCode::lemma_num_round_trip(header.rescode, 0);
}

/// A header whose opcode fits its four bits is read from where its twelve
/// bytes are held.
pub proof fn lemma_header_held(header: DnsHeader, buf: Seq<u8>, pos: int)
    requires
        header.opcode <= 15,
        holds(buf, pos, header.wire()),
    ensures
        header_at(buf, pos) == Ok::<(DnsHeader, int), DnsError>((header, pos + 12)),
{
    reveal(holds);
    lemma_header_bytes(header);
}

/// A header whose opcode fits its four bits comes back as it was from a
/// buffer into which it was written with room for its twelve bytes.
pub proof fn lemma_header_round_trip(
    header: DnsHeader,
    before: BytePacketBuffer,
    after: BytePacketBuffer,
)
    requires
        header.opcode <= 15,
        before.wrote(after, header.wire()),
        before.pos + 12 <= 512,
    ensures
        header_at(after.buf@, before.pos as int) == Ok::<(DnsHeader, int), DnsError>(
            (header, before.pos + 12),
        ),
        after.pos == before.pos + 12,
{
    lemma_header_bytes(header);
    before.lemma_wrote_holds(after, header.wire());
    lemma_header_held(header, after.buf@, before.pos as int);
}

fn bit(flag: bool) -> (b: u8)
    ensures
        b == flag_bit(flag),
{
    if flag {
        1
    } else {
        0
    }
}

impl DnsHeader {
    /// The first flag byte: RD, TC, AA, four bits of opcode, QR, from the lowest bit up.
    pub open spec fn flags_hi(self) -> u8 {
        flag_bit(self.recursion_desired) | (flag_bit(self.truncated_message) << 1) | (flag_bit(
            self.authoritative_answer,
        ) << 2) | (self.opcode << 3) | (flag_bit(self.response) << 7)
    }

    /// The second flag byte: four bits of response code, CD, AD, Z, RA, from the lowest bit up.
    pub open spec fn flags_lo(self) -> u8 {
        self.rescode.num() | (flag_bit(self.checking_disabled) << 4) | (flag_bit(self.authed_data)
            << 5) | (flag_bit(self.z) << 6) | (flag_bit(self.recursion_available) << 7)
    }

    /// The twelve bytes of the header.
    pub open spec fn wire(self) -> Seq<u8> {
        u16_bytes(self.id) + seq![self.flags_hi(), self.flags_lo()] + u16_bytes(self.questions)
            + u16_bytes(self.answers) + u16_bytes(self.authoritative_entries) + u16_bytes(
            self.resource_entries,
        )
    }

    /// The header of zeros: a query with no flag set and no entries.
    pub open spec fn new_header() -> DnsHeader {
        DnsHeader {
            id: 0,
            recursion_desired: false,
            truncated_message: false,
            authoritative_answer: false,
            opcode: 0,
            response: false,
            rescode: ResultCode::NOERROR,
            checking_disabled: false,
            authed_data: false,
            z: false,
            recursion_available: false,
            questions: 0,
            answers: 0,
            authoritative_entries: 0,
            resource_entries: 0,
        }
    }

    /// A header of zeros: a query with no flag set and no entries.
    pub fn new() -> (h: DnsHeader)
        ensures
            h == DnsHeader::new_header(),
    {
        DnsHeader {
            id: 0,
            recursion_desired: false,
            truncated_message: false,
            authoritative_answer: false,
            opcode: 0,
            response: false,
            rescode: ResultCode::NOERROR,
            checking_disabled: false,
            authed_data: false,
            z: false,
            recursion_available: false,
            questions: 0,
            answers: 0,
            authoritative_entries: 0,
            resource_entries: 0,
        }
    }

    /// Reads the header at the cursor into `self`.
    pub fn read(&mut self, buffer: &mut BytePacketBuffer) -> (r: Result<(), DnsError>)
        ensures
            final(buffer).buf == old(buffer).buf,
            match header_at(old(buffer).buf@, old(buffer).pos as int) {
                Ok((header, end)) => {
                    &&& r is Ok
                    &&& *final(self) == header
                    &&& final(buffer).pos == end
                },
                Err(e) => r == Err::<(), DnsError>(e),
            },
    {
        self.id = buffer.read_u16()?;
        let flags = buffer.read_u16()?;
        let a = (flags >> 8) as u8;
        let b = (flags & 0xFF) as u8;
        proof {
            let hi = buffer.buf@[old(buffer).pos + 2];
            let lo = buffer.buf@[old(buffer).pos + 3];
            assert((be16(hi, lo) >> 8) as u8 == hi && (be16(hi, lo) & 0xFF) as u8 == lo)
                by (bit_vector);
        }
        self.recursion_desired = (a & 0x01) > 0;
        self.truncated_message = (a & 0x02) > 0;
        self.authoritative_answer = (a & 0x04) > 0;
        self.opcode = (a >> 3) & 0x0F;
        self.response = (a & 0x80) > 0;
        self.rescode = ResultCode::from_num(b & 0x0F);
        self.checking_disabled = (b & 0x10) > 0;
        self.authed_data = (b & 0x20) > 0;
        self.z = (b & 0x40) > 0;
        self.recursion_available = (b & 0x80) > 0;
        self.questions = buffer.read_u16()?;
        self.answers = buffer.read_u16()?;
        self.authoritative_entries = buffer.read_u16()?;
        self.resource_entries = buffer.read_u16()?;
        Ok(())
    }

    /// Writes the twelve bytes of the header at the cursor.
    pub fn write(&self, buffer: &mut BytePacketBuffer) -> (r: Result<(), DnsError>)
        ensures
            old(buffer).wrote(*final(buffer), self.wire()),
            r == write_outcome(old(buffer).room(), 12, true),
    {
        let ghost w = self.wire();
        let ghost b0 = *buffer;
        proof {
            b0.lemma_wrote_nothing();
            assert(w.take(0) =~= Seq::<u8>::empty());
            assert(w.take(12) =~= w);
        }
        let r1 = buffer.write_u16(self.id);
        proof {
            assert(w.subrange(0, 2) =~= u16_bytes(self.id));
            b0.lemma_wrote_step(b0, *buffer, w, 0, 2);
        }
        r1?;
        let ghost b1 = *buffer;
        let r2 = buffer.write_u8(
            bit(self.recursion_desired) | (bit(self.truncated_message) << 1) | (bit(
                self.authoritative_answer,
            ) << 2) | (self.opcode << 3) | (bit(self.response) << 7),
        );
        proof {
            assert(w.subrange(2, 3) =~= seq![self.flags_hi()]);
            b0.lemma_wrote_step(b1, *buffer, w, 2, 3);
        }
        r2?;
        let ghost b2 = *buffer;
        let r3 = buffer.write_u8(
            self.rescode.to_num() | (bit(self.checking_disabled) << 4) | (bit(self.authed_data)
                << 5) | (bit(self.z) << 6) | (bit(self.recursion_available) << 7),
        );
        proof {
            assert(w.subrange(3, 4) =~= seq![self.flags_lo()]);
            b0.lemma_wrote_step(b2, *buffer, w, 3, 4);
        }
        r3?;
        let ghost b3 = *buffer;
        let r4 = buffer.write_u16(self.questions);
        proof {
            assert(w.subrange(4, 6) =~= u16_bytes(self.questions));
            b0.lemma_wrote_step(b3, *buffer, w, 4, 6);
        }
        r4?;
        let ghost b4 = *buffer;
        let r5 = buffer.write_u16(self.answers);
        proof {
            assert(w.subrange(6, 8) =~= u16_bytes(self.answers));
            b0.lemma_wrote_step(b4, *buffer, w, 6, 8);
        }
        r5?;
        let ghost b5 = *buffer;
        let r6 = buffer.write_u16(self.authoritative_entries);
        proof {
            assert(w.subrange(8, 10) =~= u16_bytes(self.authoritative_entries));
            b0.lemma_wrote_step(b5, *buffer, w, 8, 10);
        }
        r6?;
        let ghost b6 = *buffer;
        let r7 = buffer.write_u16(self.resource_entries);
        proof {
            assert(w.subrange(10, 12) =~= u16_bytes(self.resource_entries));
            b0.lemma_wrote_step(b6, *buffer, w, 10, 12);
        }
        r7?;
        Ok(())
    }
}

} // verus!
