use vstd::prelude::*;
use vstd::utf8::*;
use crate::buffer::{
    holds, lemma_holds_both, lemma_u16_held, u16_at, u16_bytes, write_outcome, BytePacketBuffer,
    Piece,
};
use crate::error::DnsError;
use crate::name::{labels_fit, lemma_name_held, name_at, name_wire, plain_name};
use crate::text::ascii_lowercase;
use crate::query::QueryType;

verus! {

/// A question: the name asked about and the type of record asked for. The
/// class is always 1, the Internet.
#[derive(Debug, Clone, PartialEq, Eq)]
pub struct DnsQuestion {
    pub name: String,
    pub qtype: QueryType,
}

/// A question as a value: its name as text.
pub ghost struct QuestionView {
    pub name: Seq<char>,
    pub qtype: QueryType,
}

impl View for DnsQuestion {
    type V = QuestionView;

    open spec fn view(&self) -> QuestionView {
        QuestionView { name: self.name@, qtype: self.qtype }
    }
}

impl QuestionView {
    /// Can the whole question be written: is no label of its name too long?
    pub open spec fn complete(self) -> bool {
        labels_fit(encode_utf8(self.name))
    }

    /// The bytes that writing the question puts out: the name, the type
    /// and the class 1; of a name with a label that is too long, what is
    /// written of the name.
    pub open spec fn wire(self) -> Seq<u8> {
        let name = name_wire(encode_utf8(self.name));
        if self.complete() {
            name + u16_bytes(self.qtype.num()) + u16_bytes(1)
        } else {
            name
        }
    }
}

impl QuestionView {
    /// The question as one piece of a message.
    pub open spec fn piece(self) -> Piece {
        Piece { bytes: self.wire(), complete: self.complete() }
    }
}

impl QuestionView {
    /// Is the name plain, and the type not an `UNKNOWN` with the code of a
    /// named type?
    pub open spec fn plain(self) -> bool {
        plain_name(self.name) && self.qtype.is_canonical()
    }

    /// The question with its name in lower case.
    pub open spec fn lowered(self) -> QuestionView {
        QuestionView { name: ascii_lowercase(self.name), qtype: self.qtype }
    }
}

/// A plain question is read, its name in lower case, from where its
/// written bytes are held, and the cursor rests behind them.
pub proof fn lemma_question_held(q: QuestionView, buf: Seq<u8>, pos: int)
    requires
        q.plain(),
        holds(buf, pos, q.wire()),
    ensures
        q.complete(),
        q.wire().len() == q.name.len() + 6,
        question_at(buf, pos) == Ok::<(QuestionView, int), DnsError>(
            (q.lowered(), pos + q.wire().len()),
        ),
{
    let name = name_wire(encode_utf8(q.name));
    let code = u16_bytes(q.qtype.num());
    let class = u16_bytes(1);
    lemma_holds_both(buf, pos, name + code, class);
    lemma_holds_both(buf, pos, name, code);
    lemma_name_held(q.name, buf, pos);
    lemma_u16_held(buf, pos + name.len(), q.qtype.num());
    lemma_u16_held(buf, pos + name.len() + 2, 1);
    QueryType::lemma_num_round_trip(0, q.qtype);
}

/// The question at `pos` of a buffer and the position behind it. The class
/// is read and dropped.
pub open spec fn question_at(buf: Seq<u8>, pos: int) -> Result<(QuestionView, int), DnsError> {
    match name_at(buf, pos, 0, true) {
        Err(e) => Err(e),
        Ok((name, at_type)) => match u16_at(buf, at_type) {
            Err(e) => Err(e),
            Ok((code, at_class)) => match u16_at(buf, at_class) {
                Err(e) => Err(e),
                Ok((_, end)) => Ok((QuestionView { name, qtype: QueryType::of_num(code) }, end)),
            },
        },
    }
}

impl DnsQuestion {
    /// A question for `name` and `qtype`.
    pub fn new(name: String, qtype: QueryType) -> (q: DnsQuestion)
        ensures
            q == (DnsQuestion { name, qtype }),
    {
        DnsQuestion { name: name, qtype: qtype }
    }

    /// Reads the question at the cursor: its name is appended to the name
    /// that `self` holds, its type replaces the type.
    pub fn read(&mut self, buffer: &mut BytePacketBuffer) -> (r: Result<(), DnsError>)
        ensures
            final(buffer).buf == old(buffer).buf,
            match question_at(old(buffer).buf@, old(buffer).pos as int) {
                Ok((q, end)) => {
                    &&& r is Ok
                    &&& final(self)@ == (QuestionView {
                        name: old(self)@.name + q.name,
                        qtype: q.qtype,
                    })
                    &&& final(buffer).pos == end
                },
                Err(e) => r == Err::<(), DnsError>(e),
            },
    {
        buffer.read_qname(&mut self.name)?;
        self.qtype = QueryType::from_num(buffer.read_u16()?);
        let _ = buffer.read_u16()?;
        Ok(())
    }

    /// Writes the question at the cursor.
    pub fn write(&self, buffer: &mut BytePacketBuffer) -> (r: Result<(), DnsError>)
        ensures
            old(buffer).wrote(*final(buffer), self@.wire()),
            r == write_outcome(old(buffer).room(), self@.wire().len(), self@.complete()),
    {
        let ghost w = self@.wire();
        let ghost n = name_wire(encode_utf8(self.name@)).len() as int;
        let ghost b0 = *buffer;
        let r1 = buffer.write_qname(self.name.as_str());
        proof {
            if self@.complete() {
                assert(w.take(n) =~= name_wire(encode_utf8(self.name@)));
                assert(w.take(n) + w.skip(n) =~= w);
                if r1 is Err {
                    b0.lemma_wrote_full(*buffer, w.take(n), w.skip(n));
                }
            }
        }
        r1?;
        let typenum = self.qtype.to_num();
        let ghost b1 = *buffer;
        let r2 = buffer.write_u16(typenum);
        proof {
            assert(w.subrange(n, n + 2) =~= u16_bytes(typenum));
            b0.lemma_wrote_step(b1, *buffer, w, n, n + 2);
        }
        r2?;
        let ghost b2 = *buffer;
        let r3 = buffer.write_u16(1);
        proof {
            assert(w.subrange(n + 2, n + 4) =~= u16_bytes(1));
            assert(w.take(n + 4) =~= w);
            b0.lemma_wrote_step(b2, *buffer, w, n + 2, n + 4);
        }
        r3?;
        Ok(())
    }
}

} // verus!
