use vstd::prelude::*;
use crate::buffer::{
    all_complete, holds, joined, lemma_holds_both, lemma_joined_both, low16, whole_piece,
    write_outcome, BytePacketBuffer, Piece,
};
use crate::error::DnsError;
use crate::header::{header_at, lemma_header_bytes, lemma_header_held, DnsHeader};
use crate::question::{lemma_question_held, question_at, DnsQuestion, QuestionView};
use crate::query::QueryType;
use crate::record::{
    lemma_plain_is_complete, lemma_record_held, record_at, DnsRecord, RecordView,
};

verus! {

/// A message: the header and the four sections, each in the order of the wire.
#[derive(Clone, Debug)]
pub struct DnsPacket {
    pub header: DnsHeader,
    pub questions: Vec<DnsQuestion>,
    pub answers: Vec<DnsRecord>,
    pub authorities: Vec<DnsRecord>,
    pub resources: Vec<DnsRecord>,
}

/// A message as a value.
pub ghost struct PacketView {
    pub header: DnsHeader,
    pub questions: Seq<QuestionView>,
    pub answers: Seq<RecordView>,
    pub authorities: Seq<RecordView>,
    pub resources: Seq<RecordView>,
}

/// Questions as values.
pub open spec fn question_views(questions: Seq<DnsQuestion>) -> Seq<QuestionView> {
    Seq::new(questions.len(), |i: int| questions[i]@)
}

/// Records as values.
pub open spec fn record_views(records: Seq<DnsRecord>) -> Seq<RecordView> {
    Seq::new(records.len(), |i: int| records[i]@)
}

impl View for DnsPacket {
    type V = PacketView;

    open spec fn view(&self) -> PacketView {
        PacketView {
            header: self.header,
            questions: question_views(self.questions@),
            answers: record_views(self.answers@),
            authorities: record_views(self.authorities@),
            resources: record_views(self.resources@),
        }
    }
}

/// Questions as pieces of a message.
pub open spec fn question_pieces(questions: Seq<QuestionView>) -> Seq<Piece> {
    Seq::new(questions.len(), |i: int| questions[i].piece())
}

/// Records as pieces of a message.
pub open spec fn record_pieces(records: Seq<RecordView>) -> Seq<Piece> {
    Seq::new(records.len(), |i: int| records[i].piece())
}

impl PacketView {
    /// The pieces of the message in the order in which they are written:
    /// the header, the questions, the answers, the authorities, the
    /// additional records.
    pub open spec fn pieces(self) -> Seq<Piece> {
        seq![whole_piece(self.header.wire())] + question_pieces(self.questions) + record_pieces(
            self.answers,
        ) + record_pieces(self.authorities) + record_pieces(self.resources)
    }

    /// Can the whole message be written: is no label of any name in it too long?
    pub open spec fn complete(self) -> bool {
        all_complete(self.pieces())
    }

    /// The bytes that writing the message puts out: all of them, or those
    /// that come before the first label that is too long.
    pub open spec fn wire(self) -> Seq<u8> {
        joined(self.pieces())
    }
}

/// What was read, `seen`, put before what the rest of a section gives.
pub open spec fn seen_before<T>(seen: Seq<T>, rest: Result<(Seq<T>, int), DnsError>) -> Result<
    (Seq<T>, int),
    DnsError,
> {
    match rest {
        Ok((more, end)) => Ok((seen + more, end)),
        Err(e) => Err(e),
    }
}

/// The `n` questions that follow one another from `pos` of a buffer on, and
/// the position behind them.
pub open spec fn questions_at(buf: Seq<u8>, pos: int, n: nat) -> Result<
    (Seq<QuestionView>, int),
    DnsError,
>
    decreases n,
{
    if n == 0 {
        Ok((Seq::empty(), pos))
    } else {
        match question_at(buf, pos) {
            Err(e) => Err(e),
            Ok((q, next)) => seen_before(seq![q], questions_at(buf, next, (n - 1) as nat)),
        }
    }
}

/// The `n` records that follow one another from `pos` of a buffer on, and
/// the position behind them.
pub open spec fn records_at(buf: Seq<u8>, pos: int, n: nat) -> Result<
    (Seq<RecordView>, int),
    DnsError,
>
    decreases n,
{
    if n == 0 {
        Ok((Seq::empty(), pos))
    } else {
        match record_at(buf, pos) {
            Err(e) => Err(e),
            Ok((r, next)) => seen_before(seq![r], records_at(buf, next, (n - 1) as nat)),
        }
    }
}

/// The message at `pos` of a buffer and the position behind it: the
/// header, and of each section as many entries as the header counts.
pub open spec fn packet_at(buf: Seq<u8>, pos: int) -> Result<(PacketView, int), DnsError> {
    match header_at(buf, pos) {
        Err(e) => Err(e),
        Ok((header, at_questions)) => match questions_at(
            buf,
            at_questions,
            header.questions as nat,
        ) {
            Err(e) => Err(e),
            Ok((questions, at_answers)) => match records_at(
                buf,
                at_answers,
                header.answers as nat,
            ) {
                Err(e) => Err(e),
                Ok((answers, at_authorities)) => match records_at(
                    buf,
                    at_authorities,
                    header.authoritative_entries as nat,
                ) {
                    Err(e) => Err(e),
                    Ok((authorities, at_resources)) => match records_at(
                        buf,
                        at_resources,
                        header.resource_entries as nat,
                    ) {
                        Err(e) => Err(e),
                        Ok((resources, end)) => Ok(
                            (
                                PacketView { header, questions, answers, authorities, resources },
                                end,
                            ),
                        ),
                    },
                },
            },
        },
    }
}

/// Questions with their names in lower case.
pub open spec fn lowered_questions(questions: Seq<QuestionView>) -> Seq<QuestionView> {
    Seq::new(questions.len(), |i: int| questions[i].lowered())
}

/// Records with their names in lower case.
pub open spec fn lowered_records(records: Seq<RecordView>) -> Seq<RecordView> {
    Seq::new(records.len(), |i: int| records[i].lowered())
}

impl PacketView {
    /// Does the header count the entries of each section, does its opcode
    /// fit four bits, and is every entry plain?
    pub open spec fn plain(self) -> bool {
        &&& self.header.opcode <= 15
        &&& self.header.questions == self.questions.len()
        &&& self.header.answers == self.answers.len()
        &&& self.header.authoritative_entries == self.authorities.len()
        &&& self.header.resource_entries == self.resources.len()
        &&& forall|i: int| 0 <= i < self.questions.len() ==> (#[trigger] self.questions[i]).plain()
        &&& forall|i: int| 0 <= i < self.answers.len() ==> (#[trigger] self.answers[i]).plain()
        &&& forall|i: int|
            0 <= i < self.authorities.len() ==> (#[trigger] self.authorities[i]).plain()
        &&& forall|i: int| 0 <= i < self.resources.len() ==> (#[trigger] self.resources[i]).plain()
    }

    /// The message with all its names in lower case.
    pub open spec fn lowered(self) -> PacketView {
        PacketView {
            header: self.header,
            questions: lowered_questions(self.questions),
            answers: lowered_records(self.answers),
            authorities: lowered_records(self.authorities),
            resources: lowered_records(self.resources),
        }
    }
}

/// Plain questions are read, their names in lower case, from where their
/// written bytes are held, and the cursor rests behind them.
pub proof fn lemma_questions_held(questions: Seq<QuestionView>, buf: Seq<u8>, pos: int)
    requires
        forall|i: int| 0 <= i < questions.len() ==> (#[trigger] questions[i]).plain(),
        holds(buf, pos, joined(question_pieces(questions))),
    ensures
        all_complete(question_pieces(questions)),
        questions_at(buf, pos, questions.len()) == Ok::<(Seq<QuestionView>, int), DnsError>(
            (lowered_questions(questions), pos + joined(question_pieces(questions)).len()),
        ),
    decreases questions.len(),
{
    let pieces = question_pieces(questions);
    assert forall|i: int| 0 <= i < pieces.len() implies (#[trigger] pieces[i]).complete by {
        assert(questions[i].plain());
    }
    if questions.len() == 0 {
        assert(lowered_questions(questions) =~= Seq::<QuestionView>::empty());
    } else {
        let q = questions[0];
        let rest = questions.drop_first();
        assert(q.plain());
        assert(pieces[0] == q.piece());
        assert(pieces.drop_first() =~= question_pieces(rest));
        assert forall|i: int| 0 <= i < rest.len() implies (#[trigger] rest[i]).plain() by {
            assert(questions[i + 1].plain());
        }
        lemma_holds_both(buf, pos, q.wire(), joined(question_pieces(rest)));
        lemma_question_held(q, buf, pos);
        lemma_questions_held(rest, buf, pos + q.wire().len());
        assert(seq![q.lowered()] + lowered_questions(rest) =~= lowered_questions(questions));
    }
}

/// Plain records are read, their names in lower case, from where their
/// written bytes are held, and the cursor rests behind them.
pub proof fn lemma_records_held(records: Seq<RecordView>, buf: Seq<u8>, pos: int)
    requires
        forall|i: int| 0 <= i < records.len() ==> (#[trigger] records[i]).plain(),
        holds(buf, pos, joined(record_pieces(records))),
    ensures
        all_complete(record_pieces(records)),
        records_at(buf, pos, records.len()) == Ok::<(Seq<RecordView>, int), DnsError>(
            (lowered_records(records), pos + joined(record_pieces(records)).len()),
        ),
    decreases records.len(),
{
    let pieces = record_pieces(records);
    if records.len() == 0 {
        assert(lowered_records(records) =~= Seq::<RecordView>::empty());
    } else {
        let r = records[0];
        let rest = records.drop_first();
        assert(r.plain());
        assert(pieces[0] == r.piece());
        assert(pieces.drop_first() =~= record_pieces(rest));
        assert forall|i: int| 0 <= i < rest.len() implies (#[trigger] rest[i]).plain() by {
            assert(records[i + 1].plain());
        }
        assert(r.complete()) by {
            lemma_plain_is_complete(r);
        }
        lemma_holds_both(buf, pos, r.wire(), joined(record_pieces(rest)));
        lemma_record_held(r, buf, pos);
        lemma_records_held(rest, buf, pos + r.wire().len());
        assert(seq![r.lowered()] + lowered_records(rest) =~= lowered_records(records));
        assert forall|i: int| 0 <= i < pieces.len() implies (#[trigger] pieces[i]).complete by {
            if i > 0 {
                assert(record_pieces(rest)[i - 1].complete);
            }
        }
    }
}

/// A plain message can be written whole, and is written as its header and
/// its four sections one after the other.
pub proof fn lemma_packet_wire(packet: PacketView)
    requires
        packet.plain(),
    ensures
        packet.complete(),
        packet.wire() == packet.header.wire() + joined(question_pieces(packet.questions))
            + joined(record_pieces(packet.answers)) + joined(record_pieces(packet.authorities))
            + joined(record_pieces(packet.resources)),
{
    let head = seq![whole_piece(packet.header.wire())];
    let q = question_pieces(packet.questions);
    let a = record_pieces(packet.answers);
    let u = record_pieces(packet.authorities);
    let r = record_pieces(packet.resources);
    lemma_all_plain_complete(packet);
    assert(head.drop_first() =~= Seq::<Piece>::empty());
    assert(joined(head) =~= packet.header.wire()) by {
        reveal_with_fuel(joined, 2);
    }
    lemma_joined_both(head, q);
    lemma_joined_both(head + q, a);
    lemma_joined_both(head + q + a, u);
    lemma_joined_both(head + q + a + u, r);
}

/// A plain message is read, its names in lower case, from where its
/// written bytes are held, and the cursor rests behind them.
pub proof fn lemma_packet_held(packet: PacketView, buf: Seq<u8>, pos: int)
    requires
        packet.plain(),
        holds(buf, pos, packet.wire()),
    ensures
        packet_at(buf, pos) == Ok::<(PacketView, int), DnsError>(
            (packet.lowered(), pos + packet.wire().len()),
        ),
{
    let hw = packet.header.wire();
    let q = joined(question_pieces(packet.questions));
    let a = joined(record_pieces(packet.answers));
    let u = joined(record_pieces(packet.authorities));
    let r = joined(record_pieces(packet.resources));
    let at_q = pos + 12;
    let at_a = at_q + q.len();
    let at_u = at_a + a.len();
    let at_r = at_u + u.len();
    assert(packet.wire().len() == 12 + q.len() + a.len() + u.len() + r.len() && holds(buf, pos, hw)
        && holds(buf, at_q, q) && holds(buf, at_a, a) && holds(buf, at_u, u) && holds(
        buf,
        at_r,
        r,
    )) by {
        lemma_packet_wire(packet);
        lemma_header_bytes(packet.header);
        lemma_holds_both(buf, pos, hw + q + a + u, r);
        lemma_holds_both(buf, pos, hw + q + a, u);
        lemma_holds_both(buf, pos, hw + q, a);
        lemma_holds_both(buf, pos, hw, q);
    }
    assert(header_at(buf, pos) == Ok::<(DnsHeader, int), DnsError>((packet.header, at_q))) by {
        lemma_header_held(packet.header, buf, pos);
    }
    assert(questions_at(buf, at_q, packet.header.questions as nat) == Ok::<
        (Seq<QuestionView>, int),
        DnsError,
    >((lowered_questions(packet.questions), at_a))) by {
        lemma_questions_held(packet.questions, buf, at_q);
    }
    assert(records_at(buf, at_a, packet.header.answers as nat) == Ok::<
        (Seq<RecordView>, int),
        DnsError,
    >((lowered_records(packet.answers), at_u))) by {
        lemma_records_held(packet.answers, buf, at_a);
    }
    assert(records_at(buf, at_u, packet.header.authoritative_entries as nat) == Ok::<
        (Seq<RecordView>, int),
        DnsError,
    >((lowered_records(packet.authorities), at_r))) by {
        lemma_records_held(packet.authorities, buf, at_u);
    }
    assert(records_at(buf, at_r, packet.header.resource_entries as nat) == Ok::<
        (Seq<RecordView>, int),
        DnsError,
    >((lowered_records(packet.resources), at_r + r.len()))) by {
        lemma_records_held(packet.resources, buf, at_r);
    }
}

/// Every section of a plain message can be written whole.
proof fn lemma_all_plain_complete(packet: PacketView)
    requires
        packet.plain(),
    ensures
        all_complete(question_pieces(packet.questions)),
        all_complete(record_pieces(packet.answers)),
        all_complete(record_pieces(packet.authorities)),
        all_complete(record_pieces(packet.resources)),
        all_complete(seq![whole_piece(packet.header.wire())]),
{
    assert forall|i: int| 0 <= i < packet.questions.len() implies (#[trigger] question_pieces(
        packet.questions,
    )[i]).complete by {
        assert(packet.questions[i].plain());
    }
    assert forall|i: int| 0 <= i < packet.answers.len() implies (#[trigger] record_pieces(
        packet.answers,
    )[i]).complete by {
        lemma_plain_is_complete(packet.answers[i]);
    }
    assert forall|i: int| 0 <= i < packet.authorities.len() implies (#[trigger] record_pieces(
        packet.authorities,
    )[i]).complete by {
        lemma_plain_is_complete(packet.authorities[i]);
    }
    assert forall|i: int| 0 <= i < packet.resources.len() implies (#[trigger] record_pieces(
        packet.resources,
    )[i]).complete by {
        lemma_plain_is_complete(packet.resources[i]);
    }
}

/// A plain message comes back, its names in lower case, from a buffer into
/// which it was written with room for all its bytes, and the cursor rests
/// behind what was written.
pub proof fn lemma_packet_round_trip(
    packet: PacketView,
    before: BytePacketBuffer,
    after: BytePacketBuffer,
)
    requires
        packet.plain(),
        before.wrote(after, packet.wire()),
        packet.wire().len() <= before.room(),
        before.pos <= 512,
    ensures
        packet_at(after.buf@, before.pos as int) == Ok::<(PacketView, int), DnsError>(
            (packet.lowered(), after.pos as int),
        ),
{
    before.lemma_wrote_holds(after, packet.wire());
    lemma_packet_held(packet, after.buf@, before.pos as int);
}

/// Reads `count` questions from the cursor on.
fn read_questions(buffer: &mut BytePacketBuffer, count: u16) -> (r: Result<
    Vec<DnsQuestion>,
    DnsError,
>)
    ensures
        final(buffer).buf == old(buffer).buf,
        match questions_at(old(buffer).buf@, old(buffer).pos as int, count as nat) {
            Ok((questions, end)) => {
                &&& r is Ok
                &&& question_views(r.unwrap()@) == questions
                &&& final(buffer).pos == end
            },
            Err(e) => r is Err && r.unwrap_err() == e,
        },
{
    let mut questions: Vec<DnsQuestion> = Vec::new();
    let mut i: u16 = 0;
    let ghost whole = questions_at(old(buffer).buf@, old(buffer).pos as int, count as nat);
    proof {
        let rest = questions_at(buffer.buf@, buffer.pos as int, count as nat);
        if rest is Ok {
            assert(question_views(questions@) + rest->Ok_0.0 =~= rest->Ok_0.0);
        }
    }
    while i < count
        invariant
            i <= count,
            buffer.buf == old(buffer).buf,
            whole == questions_at(old(buffer).buf@, old(buffer).pos as int, count as nat),
            whole == seen_before(
                question_views(questions@),
                questions_at(buffer.buf@, buffer.pos as int, (count - i) as nat),
            ),
        decreases count - i,
    {
        let ghost seen = question_views(questions@);
        let ghost pos = buffer.pos as int;
        let mut question = DnsQuestion::new(String::new(), QueryType::UNKNOWN(0));
        question.read(buffer)?;
        questions.push(question);
        proof {
            let q = question_at(buffer.buf@, pos)->Ok_0.0;
            assert(question@.name =~= q.name);
            assert(question_views(questions@) =~= seen.push(question@));
            let rest = questions_at(buffer.buf@, buffer.pos as int, (count - i - 1) as nat);
            if rest is Ok {
                assert(seen + (seq![q] + rest->Ok_0.0) =~= seen.push(q) + rest->Ok_0.0);
            }
        }
        i += 1;
    }
    proof {
        assert(question_views(questions@) + Seq::<QuestionView>::empty() =~= question_views(
            questions@,
        ));
    }
    Ok(questions)
}

/// Reads `count` records from the cursor on.
fn read_records(buffer: &mut BytePacketBuffer, count: u16) -> (r: Result<Vec<DnsRecord>, DnsError>)
    ensures
        final(buffer).buf == old(buffer).buf,
        match records_at(old(buffer).buf@, old(buffer).pos as int, count as nat) {
            Ok((records, end)) => {
                &&& r is Ok
                &&& record_views(r.unwrap()@) == records
                &&& final(buffer).pos == end
            },
            Err(e) => r is Err && r.unwrap_err() == e,
        },
{
    let mut records: Vec<DnsRecord> = Vec::new();
    let mut i: u16 = 0;
    let ghost whole = records_at(old(buffer).buf@, old(buffer).pos as int, count as nat);
    proof {
        let rest = records_at(buffer.buf@, buffer.pos as int, count as nat);
        if rest is Ok {
            assert(record_views(records@) + rest->Ok_0.0 =~= rest->Ok_0.0);
        }
    }
    while i < count
        invariant
            i <= count,
            buffer.buf == old(buffer).buf,
            whole == records_at(old(buffer).buf@, old(buffer).pos as int, count as nat),
            whole == seen_before(
                record_views(records@),
                records_at(buffer.buf@, buffer.pos as int, (count - i) as nat),
            ),
        decreases count - i,
    {
        let ghost seen = record_views(records@);
        let ghost pos = buffer.pos as int;
        let rec = DnsRecord::read(buffer)?;
        records.push(rec);
        proof {
            let r = record_at(buffer.buf@, pos)->Ok_0.0;
            assert(record_views(records@) =~= seen.push(r));
            let rest = records_at(buffer.buf@, buffer.pos as int, (count - i - 1) as nat);
            if rest is Ok {
                assert(seen + (seq![r] + rest->Ok_0.0) =~= seen.push(r) + rest->Ok_0.0);
            }
        }
        i += 1;
    }
    proof {
        assert(record_views(records@) + Seq::<RecordView>::empty() =~= record_views(records@));
    }
    Ok(records)
}

/// Writes `questions` as the pieces from `base` on of what `start` began to write.
fn write_questions(
    buffer: &mut BytePacketBuffer,
    questions: &Vec<DnsQuestion>,
    Ghost(start): Ghost<BytePacketBuffer>,
    Ghost(pieces): Ghost<Seq<Piece>>,
    Ghost(base): Ghost<int>,
) -> (r: Result<(), DnsError>)
    requires
        0 <= base,
        base + questions@.len() <= pieces.len(),
        forall|i: int| 0 <= i < questions@.len() ==> pieces[base + i] == questions@[i]@.piece(),
        start.wrote_first(*old(buffer), pieces, base),
    ensures
        r is Ok ==> start.wrote_first(*final(buffer), pieces, base + questions@.len()),
        r is Err ==> start.wrote_all(*final(buffer), pieces, r),
{
    let mut i: usize = 0;
    while i < questions.len()
        invariant
            i <= questions@.len(),
            0 <= base,
            base + questions@.len() <= pieces.len(),
            forall|i: int| 0 <= i < questions@.len() ==> pieces[base + i] == questions@[i]@.piece(),
            start.wrote_first(*buffer, pieces, base + i),
        decreases questions@.len() - i,
    {
        let ghost mid = *buffer;
        let r = questions[i].write(buffer);
        proof {
            start.lemma_wrote_piece(mid, *buffer, pieces, base + i, r);
        }
        r?;
        i += 1;
    }
    Ok(())
}

/// Writes `records` as the pieces from `base` on of what `start` began to write.
fn write_records(
    buffer: &mut BytePacketBuffer,
    records: &Vec<DnsRecord>,
    Ghost(start): Ghost<BytePacketBuffer>,
    Ghost(pieces): Ghost<Seq<Piece>>,
    Ghost(base): Ghost<int>,
) -> (r: Result<(), DnsError>)
    requires
        0 <= base,
        base + records@.len() <= pieces.len(),
        forall|i: int| 0 <= i < records@.len() ==> pieces[base + i] == records@[i]@.piece(),
        start.wrote_first(*old(buffer), pieces, base),
    ensures
        r is Ok ==> start.wrote_first(*final(buffer), pieces, base + records@.len()),
        r is Err ==> start.wrote_all(*final(buffer), pieces, r),
{
    let mut i: usize = 0;
    while i < records.len()
        invariant
            i <= records@.len(),
            0 <= base,
            base + records@.len() <= pieces.len(),
            forall|i: int| 0 <= i < records@.len() ==> pieces[base + i] == records@[i]@.piece(),
            start.wrote_first(*buffer, pieces, base + i),
        decreases records@.len() - i,
    {
        let ghost mid = *buffer;
        let r = records[i].write(buffer);
        proof {
            start.lemma_wrote_piece(mid, *buffer, pieces, base + i, r);
        }
        r?;
        i += 1;
    }
    Ok(())
}

impl DnsPacket {
    /// A message with a header of zeros and no entries.
    pub fn new() -> (packet: DnsPacket)
        ensures
            packet.header == DnsHeader::new_header(),
            packet.questions@.len() == 0,
            packet.answers@.len() == 0,
            packet.authorities@.len() == 0,
            packet.resources@.len() == 0,
    {
        DnsPacket {
            header: DnsHeader::new(),
            questions: Vec::new(),
            answers: Vec::new(),
            authorities: Vec::new(),
            resources: Vec::new(),
        }
    }

    /// Reads the message at the cursor: the header, then of each section
    /// as many entries as the header counts.
    pub fn from_buffer(buffer: &mut BytePacketBuffer) -> (r: Result<DnsPacket, DnsError>)
        ensures
            final(buffer).buf == old(buffer).buf,
            match packet_at(old(buffer).buf@, old(buffer).pos as int) {
                Ok((packet, end)) => {
                    &&& r is Ok
                    &&& r.unwrap()@ == packet
                    &&& final(buffer).pos == end
                },
                Err(e) => r is Err && r.unwrap_err() == e,
            },
    {
        let mut result = DnsPacket::new();
        result.header.read(buffer)?;
        result.questions = read_questions(buffer, result.header.questions)?;
        result.answers = read_records(buffer, result.header.answers)?;
        result.authorities = read_records(buffer, result.header.authoritative_entries)?;
        result.resources = read_records(buffer, result.header.resource_entries)?;
        Ok(result)
    }

    /// Sets the four counts of the header to the lengths of the sections,
    /// their low 16 bits, and writes the message at the cursor: the header
    /// and the sections' entries in their order.
    pub fn write(&mut self, buffer: &mut BytePacketBuffer) -> (r: Result<(), DnsError>)
        ensures
            final(self).header == (DnsHeader {
                questions: low16(old(self).questions@.len()),
                answers: low16(old(self).answers@.len()),
                authoritative_entries: low16(old(self).authorities@.len()),
                resource_entries: low16(old(self).resources@.len()),
                ..old(self).header
            }),
            final(self).questions == old(self).questions,
            final(self).answers == old(self).answers,
            final(self).authorities == old(self).authorities,
            final(self).resources == old(self).resources,
            old(buffer).wrote(*final(buffer), final(self)@.wire()),
            r == write_outcome(
                old(buffer).room(),
                final(self)@.wire().len(),
                final(self)@.complete(),
            ),
    {
        self.header.questions = (self.questions.len() % 0x10000) as u16;
        self.header.answers = (self.answers.len() % 0x10000) as u16;
        self.header.authoritative_entries = (self.authorities.len() % 0x10000) as u16;
        self.header.resource_entries = (self.resources.len() % 0x10000) as u16;
        let ghost pieces = self@.pieces();
        let ghost b0 = *buffer;
        let ghost nq = self.questions@.len() as int;
        let ghost na = self.answers@.len() as int;
        let ghost nu = self.authorities@.len() as int;
        proof {
            b0.lemma_wrote_none(pieces);
        }
        let r0 = self.header.write(buffer);
        proof {
            b0.lemma_wrote_piece(b0, *buffer, pieces, 0, r0);
        }
        r0?;
        write_questions(buffer, &self.questions, Ghost(b0), Ghost(pieces), Ghost(1))?;
        write_records(buffer, &self.answers, Ghost(b0), Ghost(pieces), Ghost(1 + nq))?;
        write_records(buffer, &self.authorities, Ghost(b0), Ghost(pieces), Ghost(1 + nq + na))?;
        write_records(buffer, &self.resources, Ghost(b0), Ghost(pieces), Ghost(1 + nq + na + nu))?;
        proof {
            b0.lemma_wrote_last(*buffer, pieces);
        }
        Ok(())
    }
}

} // verus!
