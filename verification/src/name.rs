use vstd::prelude::*;
use vstd::string::*;
use vstd::utf8::*;
use crate::buffer::{holds, write_outcome, BytePacketBuffer, Piece};
use crate::error::DnsError;
use crate::text::{
    ascii_lower, ascii_lowercase, lowercase, lowercase_text, utf8_lossy, utf8_lossy_text,
};

verus! {

/// The byte that parts the labels of a name: an ASCII dot.
pub const DOT: u8 = 0x2E;

/// The longest label that can be written.
pub const MAX_LABEL: usize = 0x3F;

/// The most compression pointers that one name may follow.
pub const MAX_JUMPS: usize = 5;

/// Are all of `bytes` ASCII?
pub open spec fn is_ascii_bytes(bytes: Seq<u8>) -> bool {
    forall|i: int| 0 <= i < bytes.len() ==> #[trigger] bytes[i] < 0x80
}

/// ASCII bytes as text, upper case folded to lower case.
pub open spec fn ascii_text(bytes: Seq<u8>) -> Seq<char> {
    Seq::new(bytes.len(), |i: int| ascii_lower(bytes[i] as char))
}

/// The text of a label read from a message. ASCII bytes stand for
/// themselves, upper case folded to lower case; of other bytes it is what
/// the standard library's lossy decoding and lowercasing make.
pub open spec fn label_text(bytes: Seq<u8>) -> Seq<char> {
    if is_ascii_bytes(bytes) {
        ascii_text(bytes)
    } else {
        lowercase_text(utf8_lossy_text(bytes))
    }
}

/// Does a length byte open a compression pointer?
pub open spec fn is_pointer(len: u8) -> bool {
    len & 0xC0 == 0xC0
}

/// The offset that the two bytes of a compression pointer name.
pub open spec fn pointer_target(len: u8, low: u8) -> int {
    ((((len as u16) ^ 0xC0) << 8) | (low as u16)) as int
}

/// What parts two labels of a decoded name: nothing before the first.
pub open spec fn delimiter(first: bool) -> Seq<char> {
    if first {
        Seq::empty()
    } else {
        seq!['.']
    }
}

/// The name that starts at `pos` of a buffer, after `jumps` pointers were
/// followed and with `first` telling whether its first label is still to
/// come: its text, and where the cursor rests after it. That is behind the
/// first pointer, if there is one, and behind the closing zero otherwise.
pub open spec fn name_at(buf: Seq<u8>, pos: int, jumps: nat, first: bool) -> Result<
    (Seq<char>, int),
    DnsError,
>
    decreases 6 - jumps, 512 - pos,
{
    if jumps > 5 {
        Err(DnsError::TooManyJumps)
    } else if !(0 <= pos < 512) {
        Err(DnsError::OutOfBounds)
    } else if is_pointer(buf[pos]) {
        if pos + 1 >= 512 {
            Err(DnsError::OutOfBounds)
        } else {
            match name_at(buf, pointer_target(buf[pos], buf[pos + 1]), jumps + 1, first) {
                Ok((text, _)) => Ok((text, pos + 2)),
                Err(e) => Err(e),
            }
        }
    } else if buf[pos] == 0 {
        Ok((Seq::empty(), pos + 1))
    } else if pos + 1 + buf[pos] >= 512 {
        Err(DnsError::OutOfBounds)
    } else {
        match name_at(buf, pos + 1 + buf[pos], jumps, false) {
            Ok((rest, end)) => Ok(
                (
                    delimiter(first) + label_text(buf.subrange(pos + 1, pos + 1 + buf[pos]))
                        + rest,
                    end,
                ),
            ),
            Err(e) => Err(e),
        }
    }
}

/// A name read so far, `seen`, put before what the rest of the message
/// gives: once a pointer was followed the cursor stays where it then was, at `kept`.
pub open spec fn name_after(
    seen: Seq<char>,
    jumped: bool,
    kept: int,
    rest: Result<(Seq<char>, int), DnsError>,
) -> Result<(Seq<char>, int), DnsError> {
    match rest {
        Ok((text, end)) => Ok(
            (
                seen + text,
                if jumped {
                    kept
                } else {
                    end
                },
            ),
        ),
        Err(e) => Err(e),
    }
}

/// The length of the label of `name` that starts at `from`: the bytes up to
/// the next dot or the end of the name.
pub open spec fn label_len(name: Seq<u8>, from: int) -> nat
    decreases name.len() - from,
{
    if from >= name.len() || name[from] == DOT {
        0
    } else {
        1 + label_len(name, from + 1)
    }
}

/// Is no label of `name`, from the one that starts at `from` on, longer than 63 bytes?
pub open spec fn labels_fit_from(name: Seq<u8>, from: int) -> bool
    decreases name.len() - from,
{
    let n = label_len(name, from);
    n <= 63 && (from + n >= name.len() || labels_fit_from(name, from + n + 1))
}

/// The bytes that writing `name` puts out from the label that starts at `from` on:
/// each label behind its length and a closing zero, or, where a label is too
/// long, the labels before that one and no more.
pub open spec fn name_wire_from(name: Seq<u8>, from: int) -> Seq<u8>
    decreases name.len() - from,
{
    let n = label_len(name, from);
    if n > 63 {
        Seq::empty()
    } else {
        let label = seq![n as u8] + name.subrange(from, from + n);
        if from + n >= name.len() {
            label + seq![0u8]
        } else {
            label + name_wire_from(name, from + n + 1)
        }
    }
}

/// Is no label of `name` longer than 63 bytes?
pub open spec fn labels_fit(name: Seq<u8>) -> bool {
    labels_fit_from(name, 0)
}

/// The bytes that writing `name` puts out; see `name_wire_from`.
pub open spec fn name_wire(name: Seq<u8>) -> Seq<u8> {
    name_wire_from(name, 0)
}

/// A name as a piece of what is written: complete where no label is too long.
pub open spec fn name_piece(name: Seq<char>) -> Piece {
    Piece { bytes: name_wire(encode_utf8(name)), complete: labels_fit(encode_utf8(name)) }
}

impl BytePacketBuffer {
    /// Writes `qname` label by label, each behind its length, and a closing
    /// zero; no pointers are written. A label of more than 63 bytes ends
    /// the writing with `LabelTooLong`, the end of the buffer with `OutOfBounds`.
    pub fn write_qname(&mut self, qname: &str) -> (r: Result<(), DnsError>)
        ensures
            old(self).wrote(*final(self), name_wire(encode_utf8(qname@))),
            r == write_outcome(
                old(self).room(),
                name_wire(encode_utf8(qname@)).len(),
                labels_fit(encode_utf8(qname@)),
            ),
    {
        let bytes = qname.as_bytes();
        let total = bytes.len();
        let mut start: usize = 0;
        let ghost mut done: Seq<u8> = Seq::empty();
        proof {
            self.lemma_wrote_nothing();
        }
        loop
            invariant_except_break
                name_wire(bytes@) == done + name_wire_from(bytes@, start as int),
                labels_fit(bytes@) == labels_fit_from(bytes@, start as int),
            invariant
                bytes@ == encode_utf8(qname@),
                total == bytes@.len(),
                start <= total,
                old(self).wrote(*self, done),
                done.len() <= old(self).room(),
            ensures
                name_wire(bytes@) == done + seq![0u8],
                labels_fit(bytes@),
            decreases total - start,
        {
            let mut end = start;
            while end < total && bytes[end] != DOT
                invariant
                    start <= end <= total,
                    total == bytes@.len(),
                    label_len(bytes@, start as int) == (end - start) + label_len(
                        bytes@,
                        end as int,
                    ),
                decreases total - end,
            {
                end += 1;
            }
            let len = end - start;
            if len > MAX_LABEL {
                proof {
                    assert(name_wire(bytes@) =~= done);
                }
                return Err(DnsError::LabelTooLong);
            }
            let ghost head = done;
            let ghost label = seq![len as u8] + bytes@.subrange(start as int, end as int);
            let ghost tail = if end >= total {
                seq![0u8]
            } else {
                name_wire_from(bytes@, end + 1)
            };
            let ghost before = *self;
            let written = self.write_u8(len as u8);
            proof {
                assert(name_wire(bytes@) =~= head + label + tail);
                done = head + seq![len as u8];
                old(self).lemma_wrote_both(before, *self, head, seq![len as u8]);
                if written is Err {
                    let more = label.skip(1) + tail;
                    old(self).lemma_wrote_full(*self, done, more);
                    assert(done + more =~= name_wire(bytes@));
                }
            }
            written?;
            let mut i = start;
            while i < end
                invariant
                    start <= i <= end <= total,
                    total == bytes@.len(),
                    bytes@ == encode_utf8(qname@),
                    old(self).wrote(*self, done),
                    done.len() <= old(self).room(),
                    done == head + label.take(1 + i - start),
                    label == seq![len as u8] + bytes@.subrange(start as int, end as int),
                    name_wire(bytes@) == head + label + tail,
                    len == end - start,
                    len <= 63,
                decreases end - i,
            {
                let ghost mid = *self;
                let ghost prev = done;
                let written = self.write_u8(bytes[i]);
                proof {
                    done = prev + seq![bytes@[i as int]];
                    assert(done =~= head + label.take(1 + (i + 1) - start));
                    old(self).lemma_wrote_both(mid, *self, prev, seq![bytes@[i as int]]);
                    if written is Err {
                        let more = label.skip(2 + i - start) + tail;
                        old(self).lemma_wrote_full(*self, done, more);
                        assert(done + more =~= name_wire(bytes@));
                    }
                }
                written?;
                i += 1;
            }
            proof {
                assert(label.take(1 + end - start) =~= label);
            }
            if end >= total {
                break ;
            }
            start = end + 1;
        }
        let ghost before = *self;
        let written = self.write_u8(0);
        proof {
            old(self).lemma_wrote_both(before, *self, done, seq![0u8]);
        }
        written?;
        Ok(())
    }

    /// Reads the name at the cursor and appends its text to `outstr`,
    /// following compression pointers, at most five of them.
    pub fn read_qname(&mut self, outstr: &mut String) -> (r: Result<(), DnsError>)
        ensures
            final(self).buf == old(self).buf,
            match name_at(old(self).buf@, old(self).pos as int, 0, true) {
                Ok((text, end)) => {
                    &&& r is Ok
                    &&& final(outstr)@ == old(outstr)@ + text
                    &&& final(self).pos == end
                },
                Err(e) => r == Err::<(), DnsError>(e),
            },
    {
        let mut pos = self.pos();
        let mut jumped = false;
        let mut jumps_performed: usize = 0;
        let mut delim = "";
        let ghost mut seen: Seq<char> = Seq::empty();
        let ghost mut first = true;
        let ghost whole = name_at(old(self).buf@, old(self).pos as int, 0, true);
        proof {
            reveal_strlit("");
            assert(seen + name_at(self.buf@, pos as int, 0, true)->Ok_0.0 =~= name_at(
                self.buf@,
                pos as int,
                0,
                true,
            )->Ok_0.0);
        }
        loop
            invariant_except_break
                whole == name_after(
                    seen,
                    jumped,
                    self.pos as int,
                    name_at(self.buf@, pos as int, jumps_performed as nat, first),
                ),
                delim@ == delimiter(first),
            invariant
                whole == name_at(old(self).buf@, old(self).pos as int, 0, true),
                self.buf == old(self).buf,
                outstr@ == old(outstr)@ + seen,
                jumps_performed <= 6,
            ensures
                whole == Ok::<(Seq<char>, int), DnsError>(
                    (
                        seen,
                        if jumped {
                            self.pos as int
                        } else {
                            pos as int
                        },
                    ),
                ),
            decreases 6 - jumps_performed, 512 - pos,
        {
            if jumps_performed > MAX_JUMPS {
                return Err(DnsError::TooManyJumps);
            }
            let len = self.get(pos)?;
            if (len & 0xC0) == 0xC0 {
                if !jumped {
                    self.seek(pos + 2)?;
                }
                let b2 = self.get(pos + 1)? as u16;
                let offset = (((len as u16) ^ 0xC0) << 8) | b2;
                pos = offset as usize;
                jumped = true;
                jumps_performed += 1;
                continue ;
            } else {
                pos += 1;
                if len == 0 {
                    break ;
                }
                outstr.append(delim);
                let str_buffer = self.get_range(pos, len as usize)?;
                let text = utf8_lossy(str_buffer);
                let lower = lowercase(text.as_str());
                proof {
                    lemma_label_text(str_buffer@, text@, lower@);
                    let rest = name_at(
                        self.buf@,
                        pos + len,
                        jumps_performed as nat,
                        false,
                    );
                    if rest is Ok {
                        assert(seen + (delimiter(first) + label_text(str_buffer@) + rest->Ok_0.0)
                            =~= (seen + delimiter(first) + label_text(str_buffer@))
                            + rest->Ok_0.0);
                    }
                    seen = seen + delimiter(first) + label_text(str_buffer@);
                    first = false;
                    reveal_strlit(".");
                }
                outstr.append(lower.as_str());
                delim = ".";
                pos += len as usize;
            }
        }
        if !jumped {
            self.seek(pos)?;
        }
        Ok(())
    }
}

/// Has `name`, from the label that starts at `from` on, no empty label?
pub open spec fn labels_nonempty_from(name: Seq<u8>, from: int) -> bool
    decreases name.len() - from,
{
    let n = label_len(name, from);
    n >= 1 && (from + n >= name.len() || labels_nonempty_from(name, from + n + 1))
}

/// Has `name` no empty label? The empty name has one, and so has a name
/// that starts or ends with a dot or holds two dots in a row.
pub open spec fn labels_nonempty(name: Seq<u8>) -> bool {
    labels_nonempty_from(name, 0)
}

/// A label ends at a dot or at the end of the name.
pub proof fn lemma_label_end(name: Seq<u8>, from: int)
    requires
        0 <= from <= name.len(),
    ensures
        from + label_len(name, from) <= name.len(),
        from + label_len(name, from) < name.len() ==> name[from + label_len(name, from)] == DOT,
    decreases name.len() - from,
{
    if from < name.len() && name[from] != DOT {
        lemma_label_end(name, from + 1);
    }
}

/// Of a name whose labels all fit, two bytes more than its own are
/// written: a length before each label in place of the dot, and the
/// closing zero.
pub proof fn lemma_name_wire_len(name: Seq<u8>, from: int)
    requires
        0 <= from <= name.len(),
        labels_fit_from(name, from),
    ensures
        name_wire_from(name, from).len() == name.len() - from + 2,
    decreases name.len() - from,
{
    lemma_label_end(name, from);
    let n = label_len(name, from) as int;
    if from + n < name.len() {
        lemma_name_wire_len(name, from + n + 1);
    }
}

/// A name without a dot is one label.
pub proof fn lemma_one_label(name: Seq<u8>, from: int)
    requires
        0 <= from <= name.len(),
        forall|i: int| from <= i < name.len() ==> name[i] != DOT,
    ensures
        label_len(name, from) == name.len() - from,
    decreases name.len() - from,
{
    if from < name.len() {
        lemma_one_label(name, from + 1);
    }
}

/// Writing a name of one label: with more than 63 bytes it is refused
/// with `LabelTooLong`, however much room there is; with 63 or fewer it
/// goes well where there is room for the label and two bytes more.
pub proof fn lemma_single_label(name: Seq<u8>, room: nat)
    requires
        forall|i: int| 0 <= i < name.len() ==> name[i] != DOT,
    ensures
        name.len() > 63 ==> write_outcome(room, name_wire(name).len(), labels_fit(name)) == Err::<
            (),
            DnsError,
        >(DnsError::LabelTooLong),
        name.len() <= 63 ==> labels_fit(name) && name_wire(name).len() == name.len() + 2,
        name.len() <= 63 ==> (write_outcome(room, name_wire(name).len(), labels_fit(name)) is Ok
            <==> name.len() + 2 <= room),
{
    lemma_one_label(name, 0);
    if name.len() <= 63 {
        lemma_name_wire_len(name, 0);
    }
}

/// A length byte of at most 63 opens no pointer.
proof fn lemma_short_is_no_pointer(len: u8)
    by (bit_vector)
    requires
        len <= 63,
    ensures
        len & 0xC0 != 0xC0,
{
}

/// The bytes of an ASCII name with labels of 1 to 63 bytes, found in a
/// buffer as writing puts them out, are read back as the lower-case text
/// of the name, and the cursor rests behind them.
pub proof fn lemma_wire_read_back(
    name: Seq<u8>,
    from: int,
    buf: Seq<u8>,
    pos: int,
    jumps: nat,
    first: bool,
)
    requires
        is_ascii_bytes(name),
        0 <= from <= name.len(),
        labels_fit_from(name, from),
        labels_nonempty_from(name, from),
        jumps <= 5,
        buf.len() == 512,
        0 <= pos,
        pos + name_wire_from(name, from).len() <= 512,
        buf.subrange(pos, pos + name_wire_from(name, from).len()) == name_wire_from(name, from),
    ensures
        name_at(buf, pos, jumps, first) == Ok::<(Seq<char>, int), DnsError>(
            (
                delimiter(first) + ascii_text(name.skip(from)),
                pos + name_wire_from(name, from).len(),
            ),
        ),
    decreases name.len() - from,
{
    lemma_label_end(name, from);
    let n = label_len(name, from) as int;
    let wire = name_wire_from(name, from);
    let label = name.subrange(from, from + n);
    lemma_short_is_no_pointer(n as u8);
    lemma_short_is_no_pointer(0);
    let found = buf.subrange(pos, pos + wire.len());
    lemma_name_wire_len(name, from);
    assert(buf[pos] == found[0]);
    assert(buf[pos] == n);
    assert(!is_pointer(buf[pos]));
    assert(pos + 1 + n < 512);
    assert(buf.subrange(pos + 1, pos + 1 + n) =~= label) by {
        assert forall|i: int| 0 <= i < n implies buf[pos + 1 + i] == label[i] by {
            assert(buf[pos + 1 + i] == found[1 + i]);
        }
    }
    assert(is_ascii_bytes(label));
    if from + n >= name.len() {
        assert(buf[pos + 1 + n] == found[1 + n]);
        assert(name_at(buf, pos + 1 + n, jumps, false) == Ok::<(Seq<char>, int), DnsError>(
            (Seq::<char>::empty(), pos + n + 2),
        ));
        assert(name.skip(from) =~= label);
        assert(label_text(label) == ascii_text(label));
        assert(delimiter(first) + label_text(label) + Seq::<char>::empty() =~= delimiter(first)
            + ascii_text(name.skip(from)));
    } else {
        let next = from + n + 1;
        let tail = name_wire_from(name, next);
        assert(wire =~= seq![n as u8] + label + tail);
        assert(buf.subrange(pos + 1 + n, pos + 1 + n + tail.len()) =~= tail) by {
            assert forall|i: int| 0 <= i < tail.len() implies buf[pos + 1 + n + i] == tail[i] by {
                assert(buf[pos + 1 + n + i] == found[1 + n + i]);
            }
        }
        lemma_wire_read_back(name, next, buf, pos + 1 + n, jumps, false);
        assert(delimiter(first) + label_text(label) + (delimiter(false) + ascii_text(
            name.skip(next),
        )) =~= delimiter(first) + ascii_text(name.skip(from)));
    }
}

/// Is `name` ASCII text whose labels have 1 to 63 bytes each? Such a name
/// is not empty and has no dot at either end and no two dots in a row.
pub open spec fn plain_name(name: Seq<char>) -> bool {
    &&& is_ascii_chars(name)
    &&& labels_fit(encode_utf8(name))
    &&& labels_nonempty(encode_utf8(name))
}

/// A plain name is read in lower case from where its written bytes are
/// held, two bytes more than its own.
pub proof fn lemma_name_held(name: Seq<char>, buf: Seq<u8>, pos: int)
    requires
        plain_name(name),
        holds(buf, pos, name_wire(encode_utf8(name))),
    ensures
        name_wire(encode_utf8(name)).len() == name.len() + 2,
        name_at(buf, pos, 0, true) == Ok::<(Seq<char>, int), DnsError>(
            (ascii_lowercase(name), pos + name.len() + 2),
        ),
{
    reveal(holds);
    let bytes = encode_utf8(name);
    is_ascii_chars_encode_utf8(name);
    assert(is_ascii_bytes(bytes));
    lemma_name_wire_len(bytes, 0);
    lemma_wire_read_back(bytes, 0, buf, pos, 0, true);
    assert(bytes.skip(0) =~= bytes);
    assert(delimiter(true) + ascii_text(bytes) =~= ascii_lowercase(name));
}

/// An ASCII name whose labels have 1 to 63 bytes, and the empty name, come
/// back in lower case from a buffer into which they were written with room
/// for all their bytes. The cursor then rests behind what was written; for
/// the empty name, of which two zero bytes are written, behind the first.
pub proof fn lemma_name_round_trip(
    name: Seq<char>,
    before: BytePacketBuffer,
    after: BytePacketBuffer,
)
    requires
        is_ascii_chars(name),
        labels_fit(encode_utf8(name)),
        name.len() == 0 || labels_nonempty(encode_utf8(name)),
        before.wrote(after, name_wire(encode_utf8(name))),
        name_wire(encode_utf8(name)).len() <= before.room(),
    ensures
        name_at(after.buf@, before.pos as int, 0, true) == Ok::<(Seq<char>, int), DnsError>(
            (
                ascii_lowercase(name),
                if name.len() == 0 {
                    before.pos + 1
                } else {
                    after.pos as int
                },
            ),
        ),
{
    let wire = name_wire(encode_utf8(name));
    before.lemma_wrote_holds(after, wire);
    if name.len() == 0 {
        reveal(holds);
        assert(wire =~= seq![0u8, 0u8]);
        assert(after.buf@[before.pos as int] == after.buf@.subrange(
            before.pos as int,
            before.pos + 2,
        )[0]);
        lemma_short_is_no_pointer(0);
        assert(ascii_lowercase(name) =~= Seq::<char>::empty());
    } else {
        lemma_name_held(name, after.buf@, before.pos as int);
    }
}

/// Do `n` pointers follow one another from `pos` on, each with both its
/// bytes inside the buffer?
pub open spec fn pointer_chain(buf: Seq<u8>, pos: int, n: nat) -> bool
    decreases n,
{
    n == 0 || (0 <= pos && pos + 1 < 512 && is_pointer(buf[pos]) && pointer_chain(
        buf,
        pointer_target(buf[pos], buf[pos + 1]),
        (n - 1) as nat,
    ))
}

/// Where the last of `n` pointers that follow one another from `pos` on leads.
pub open spec fn chain_end(buf: Seq<u8>, pos: int, n: nat) -> int
    decreases n,
{
    if n == 0 {
        pos
    } else {
        chain_end(buf, pointer_target(buf[pos], buf[pos + 1]), (n - 1) as nat)
    }
}

/// A name found behind pointers: its text, with the cursor behind the first pointer.
pub open spec fn behind_pointer(found: Result<(Seq<char>, int), DnsError>, pos: int) -> Result<
    (Seq<char>, int),
    DnsError,
> {
    match found {
        Ok((text, _)) => Ok((text, pos + 2)),
        Err(e) => Err(e),
    }
}

/// A name that opens with `n` pointers in a row, `jumps` pointers having
/// been followed before: with more than five in all the reading fails, and
/// with five or fewer it goes on where the last pointer leads.
pub proof fn lemma_pointer_chain_from(buf: Seq<u8>, pos: int, n: nat, jumps: nat, first: bool)
    requires
        pointer_chain(buf, pos, n),
    ensures
        jumps + n > 5 ==> name_at(buf, pos, jumps, first) == Err::<(Seq<char>, int), DnsError>(
            DnsError::TooManyJumps,
        ),
        jumps + n <= 5 && n >= 1 ==> name_at(buf, pos, jumps, first) == behind_pointer(
            name_at(buf, chain_end(buf, pos, n), jumps + n, first),
            pos,
        ),
    decreases n,
{
    if n >= 1 && jumps <= 5 {
        let target = pointer_target(buf[pos], buf[pos + 1]);
        lemma_pointer_chain_from(buf, target, (n - 1) as nat, jumps + 1, first);
        if n == 1 {
            assert(chain_end(buf, target, 0) == target);
        }
    }
}

/// A name that opens with more than five pointers in a row is refused
/// with `TooManyJumps`. One that opens with one to five is read where the
/// last of them leads, and the cursor rests behind the first.
pub proof fn lemma_pointer_chain(buf: Seq<u8>, pos: int, n: nat)
    requires
        pointer_chain(buf, pos, n),
        n >= 1,
    ensures
        n > 5 ==> name_at(buf, pos, 0, true) == Err::<(Seq<char>, int), DnsError>(
            DnsError::TooManyJumps,
        ),
        n <= 5 ==> name_at(buf, pos, 0, true) == behind_pointer(
            name_at(buf, chain_end(buf, pos, n), n, true),
            pos,
        ),
{
    lemma_pointer_chain_from(buf, pos, n, 0, true);
}

/// What the two library calls make of a label is its text.
proof fn lemma_label_text(bytes: Seq<u8>, text: Seq<char>, lower: Seq<char>)
    requires
        text == utf8_lossy_text(bytes),
        valid_utf8(bytes) ==> text == decode_utf8(bytes),
        lower == lowercase_text(text),
        is_ascii_chars(text) ==> lower == ascii_lowercase(text),
    ensures
        lower == label_text(bytes),
{
    if is_ascii_bytes(bytes) {
        let chars = Seq::new(bytes.len(), |i: int| bytes[i] as char);
        assert(is_ascii_chars(chars));
        is_ascii_chars_encode_utf8(chars);
        assert(encode_utf8(chars) =~= bytes);
        encode_utf8_valid_utf8(chars);
        encode_utf8_decode_utf8(chars);
        assert(text == chars);
        assert(lower =~= label_text(bytes));
    }
}

} // verus!
