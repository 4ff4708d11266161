use vstd::prelude::*;
use crate::error::DnsError;

verus! {

/// The 16-bit number whose big-endian bytes are `hi`, `lo`.
pub open spec fn be16(hi: u8, lo: u8) -> u16 {
    ((hi as u16) << 8) | (lo as u16)
}

/// The 32-bit number whose big-endian bytes are `b0`, `b1`, `b2`, `b3`.
pub open spec fn be32(b0: u8, b1: u8, b2: u8, b3: u8) -> u32 {
    ((b0 as u32) << 24) | ((b1 as u32) << 16) | ((b2 as u32) << 8) | (b3 as u32)
}

/// The two big-endian bytes of `v`.
pub open spec fn u16_bytes(v: u16) -> Seq<u8> {
    seq![(v >> 8) as u8, (v & 0xFF) as u8]
}

/// The four big-endian bytes of `v`.
pub open spec fn u32_bytes(v: u32) -> Seq<u8> {
    seq![
        ((v >> 24) & 0xFF) as u8,
        ((v >> 16) & 0xFF) as u8,
        ((v >> 8) & 0xFF) as u8,
        (v & 0xFF) as u8,
    ]
}

/// The low 16 bits of a count or a length: what a 16-bit field holds of it.
pub open spec fn low16(n: nat) -> u16 {
    (n % 0x10000) as u16
}

/// The big-endian 16-bit number at `pos` of a buffer and the position behind it.
pub open spec fn u16_at(buf: Seq<u8>, pos: int) -> Result<(u16, int), DnsError> {
    if 0 <= pos && pos + 2 <= 512 {
        Ok((be16(buf[pos], buf[pos + 1]), pos + 2))
    } else {
        Err(DnsError::OutOfBounds)
    }
}

/// The big-endian 32-bit number at `pos` of a buffer and the position behind it.
pub open spec fn u32_at(buf: Seq<u8>, pos: int) -> Result<(u32, int), DnsError> {
    if 0 <= pos && pos + 4 <= 512 {
        Ok((be32(buf[pos], buf[pos + 1], buf[pos + 2], buf[pos + 3]), pos + 4))
    } else {
        Err(DnsError::OutOfBounds)
    }
}

/// Does a buffer hold `bytes` from `pos` on?
#[verifier::opaque]
pub open spec fn holds(buf: Seq<u8>, pos: int, bytes: Seq<u8>) -> bool {
    &&& buf.len() == 512
    &&& 0 <= pos
    &&& pos + bytes.len() <= 512
    &&& buf.subrange(pos, pos + bytes.len()) == bytes
}

/// A buffer that holds two pieces in a row holds each of them.
pub proof fn lemma_holds_both(buf: Seq<u8>, pos: int, first: Seq<u8>, second: Seq<u8>)
    requires
        holds(buf, pos, first + second),
    ensures
        holds(buf, pos, first),
        holds(buf, pos + first.len(), second),
{
    reveal(holds);
    let both = buf.subrange(pos, pos + (first + second).len());
    assert(buf.subrange(pos, pos + first.len()) =~= first) by {
        assert forall|i: int| 0 <= i < first.len() implies buf[pos + i] == first[i] by {
            assert(both[i] == (first + second)[i]);
        }
    }
    assert(buf.subrange(pos + first.len(), pos + first.len() + second.len()) =~= second) by {
        assert forall|i: int| 0 <= i < second.len() implies buf[pos + first.len() + i]
            == second[i] by {
            assert(both[first.len() + i] == (first + second)[first.len() + i]);
        }
    }
}

/// A 16-bit number is read from where its two bytes are held.
pub proof fn lemma_u16_held(buf: Seq<u8>, pos: int, v: u16)
    requires
        holds(buf, pos, u16_bytes(v)),
    ensures
        u16_at(buf, pos) == Ok::<(u16, int), DnsError>((v, pos + 2)),
{
    reveal(holds);
    let found = buf.subrange(pos, pos + 2);
    assert(buf[pos] == found[0] && buf[pos + 1] == found[1]);
    assert(((((v >> 8) as u8) as u16) << 8) | (((v & 0xFF) as u8) as u16) == v) by (bit_vector);
}

/// A 32-bit number is read from where its four bytes are held.
pub proof fn lemma_u32_held(buf: Seq<u8>, pos: int, v: u32)
    requires
        holds(buf, pos, u32_bytes(v)),
    ensures
        u32_at(buf, pos) == Ok::<(u32, int), DnsError>((v, pos + 4)),
{
    reveal(holds);
    let found = buf.subrange(pos, pos + 4);
    assert(buf[pos] == found[0] && buf[pos + 1] == found[1] && buf[pos + 2] == found[2] && buf[pos
        + 3] == found[3]);
    assert((((((v >> 24) & 0xFF) as u8) as u32) << 24) | (((((v >> 16) & 0xFF) as u8) as u32)
        << 16) | (((((v >> 8) & 0xFF) as u8) as u32) << 8) | (((v & 0xFF) as u8) as u32) == v)
        by (bit_vector);
}

/// Where the cursor rests after a read from `pos` ran into the end of the buffer.
pub open spec fn stopped_at(pos: int) -> int {
    if pos < 512 {
        512
    } else {
        pos
    }
}

/// How a write of `len` bytes into `room` free bytes ends, the bytes being
/// all that was to be written (`complete`) or what came before a label that
/// is too long.
pub open spec fn write_outcome(room: nat, len: nat, complete: bool) -> Result<(), DnsError> {
    if len > room {
        Err(DnsError::OutOfBounds)
    } else if !complete {
        Err(DnsError::LabelTooLong)
    } else {
        Ok(())
    }
}

/// A piece of what is to be written: its bytes, and whether they are all of
/// it. The bytes of a name with a label that is too long are those before
/// that label, and not all of it.
pub ghost struct Piece {
    pub bytes: Seq<u8>,
    pub complete: bool,
}

/// The bytes that writing `pieces` one after the other puts out: those of
/// every piece up to the first that is not complete, that one included.
pub open spec fn joined(pieces: Seq<Piece>) -> Seq<u8>
    decreases pieces.len(),
{
    if pieces.len() == 0 {
        Seq::empty()
    } else if pieces[0].complete {
        pieces[0].bytes + joined(pieces.drop_first())
    } else {
        pieces[0].bytes
    }
}

/// Bytes that are a piece by themselves.
pub open spec fn whole_piece(bytes: Seq<u8>) -> Piece {
    Piece { bytes, complete: true }
}

/// Is every piece complete?
pub open spec fn all_complete(pieces: Seq<Piece>) -> bool {
    forall|i: int| 0 <= i < pieces.len() ==> (#[trigger] pieces[i]).complete
}

/// Behind `k` complete pieces the rest is joined as if it stood alone.
pub proof fn lemma_joined_split(pieces: Seq<Piece>, k: int)
    requires
        0 <= k <= pieces.len(),
        all_complete(pieces.take(k)),
    ensures
        joined(pieces) == joined(pieces.take(k)) + joined(pieces.skip(k)),
    decreases k,
{
    if k == 0 {
        assert(pieces.skip(0) =~= pieces);
        assert(pieces.take(0) =~= Seq::<Piece>::empty());
        assert(joined(pieces) =~= joined(pieces.take(0)) + joined(pieces.skip(0)));
    } else {
        let rest = pieces.drop_first();
        assert(pieces.take(k)[0] == pieces[0]);
        assert(rest.take(k - 1) =~= pieces.take(k).drop_first());
        assert(all_complete(rest.take(k - 1))) by {
            assert forall|i: int| 0 <= i < k - 1 implies (#[trigger] rest.take(
                k - 1,
            )[i]).complete by {
                assert(pieces.take(k)[i + 1].complete);
            }
        }
        lemma_joined_split(rest, k - 1);
        assert(rest.skip(k - 1) =~= pieces.skip(k));
        assert(joined(pieces) =~= joined(pieces.take(k)) + joined(pieces.skip(k)));
    }
}

/// Joined to `k` complete pieces, a complete piece `k` adds its bytes.
pub proof fn lemma_joined_next(pieces: Seq<Piece>, k: int)
    requires
        0 <= k < pieces.len(),
        all_complete(pieces.take(k + 1)),
    ensures
        all_complete(pieces.take(k)),
        joined(pieces.take(k + 1)) == joined(pieces.take(k)) + pieces[k].bytes,
{
    let upto = pieces.take(k + 1);
    assert(upto.take(k) =~= pieces.take(k));
    assert forall|i: int| 0 <= i < k implies (#[trigger] pieces.take(k)[i]).complete by {
        assert(upto[i].complete);
    }
    lemma_joined_split(upto, k);
    assert(upto.skip(k) =~= seq![pieces[k]]);
    assert(upto[k].complete);
    assert(seq![pieces[k]].drop_first() =~= Seq::<Piece>::empty());
    assert(joined(seq![pieces[k]]) =~= pieces[k].bytes) by {
        reveal_with_fuel(joined, 2);
    }
}

/// Behind pieces that are all complete, more pieces are joined as if
/// they stood alone.
pub proof fn lemma_joined_both(first: Seq<Piece>, second: Seq<Piece>)
    requires
        all_complete(first),
    ensures
        joined(first + second) == joined(first) + joined(second),
        all_complete(first + second) == all_complete(second),
{
    let both = first + second;
    let k = first.len() as int;
    assert(both.take(k) =~= first);
    assert(both.skip(k) =~= second);
    lemma_joined_split(both, k);
    if all_complete(second) {
        assert forall|i: int| 0 <= i < both.len() implies (#[trigger] both[i]).complete by {
            if i < k {
                assert(first[i].complete);
            } else {
                assert(second[i - k].complete);
            }
        }
    } else {
        let i = choose|i: int| 0 <= i < second.len() && !(#[trigger] second[i]).complete;
        assert(!both[k + i].complete);
    }
}

/// A message buffer: 512 bytes and a cursor.
///
/// The cursor is any `usize`; a read or a write with the cursor at or beyond
/// the end of the buffer fails and touches nothing.
pub struct BytePacketBuffer {
    pub buf: [u8; 512],
    pub pos: usize,
}

impl BytePacketBuffer {
    /// The number of bytes that can still be written at the cursor.
    pub open spec fn room(&self) -> nat {
        if self.pos <= 512 {
            (512 - self.pos) as nat
        } else {
            0
        }
    }

    /// `after` is this buffer once `bytes` were written at the cursor one
    /// after the other, as many of them as there was room for.
    #[verifier::opaque]
    pub open spec fn wrote(&self, after: Self, bytes: Seq<u8>) -> bool {
        let n = if bytes.len() <= self.room() {
            bytes.len()
        } else {
            self.room()
        };
        &&& after.pos == self.pos + n
        &&& forall|i: int|
            0 <= i < 512 ==> after.buf@[i] == if self.pos <= i < self.pos + n {
                bytes[i - self.pos]
            } else {
                self.buf@[i]
            }
    }

    /// Nothing written leaves the buffer as it is.
    pub proof fn lemma_wrote_nothing(self)
        ensures
            self.wrote(self, Seq::empty()),
    {
        reveal(BytePacketBuffer::wrote);
    }

    /// Writing `first` and then, from where that ended, `second` is writing
    /// the two in one piece.
    pub proof fn lemma_wrote_both(self, mid: Self, after: Self, first: Seq<u8>, second: Seq<u8>)
        requires
            self.wrote(mid, first),
            mid.wrote(after, second),
            first.len() <= self.room(),
        ensures
            self.wrote(after, first + second),
            mid.room() == self.room() - first.len(),
    {
        reveal(BytePacketBuffer::wrote);
    }

    /// Where `first` did not fit, or only just, nothing that follows it is written.
    pub proof fn lemma_wrote_full(self, after: Self, first: Seq<u8>, second: Seq<u8>)
        requires
            self.wrote(after, first),
            first.len() >= self.room(),
        ensures
            self.wrote(after, first + second),
    {
        reveal(BytePacketBuffer::wrote);
    }

    /// With the first `from` bytes of `whole` written and the bytes from
    /// there up to `to` written behind them, the first `to` bytes are
    /// written; and where those did not fit, all of `whole` is written as
    /// far as it ever will be.
    pub proof fn lemma_wrote_step(self, mid: Self, after: Self, whole: Seq<u8>, from: int, to: int)
        requires
            0 <= from <= to <= whole.len(),
            self.wrote(mid, whole.take(from)),
            from <= self.room(),
            mid.wrote(after, whole.subrange(from, to)),
        ensures
            self.wrote(after, whole.take(to)),
            mid.room() == self.room() - from,
            to > self.room() ==> self.wrote(after, whole),
    {
        self.lemma_wrote_both(mid, after, whole.take(from), whole.subrange(from, to));
        assert(whole.take(from) + whole.subrange(from, to) =~= whole.take(to));
        if to > self.room() {
            self.lemma_wrote_full(after, whole.take(to), whole.skip(to));
            assert(whole.take(to) + whole.skip(to) =~= whole);
        }
    }

    /// In `after` the first `k` of `pieces` are written, all of them whole.
    pub open spec fn wrote_first(&self, after: Self, pieces: Seq<Piece>, k: int) -> bool {
        &&& all_complete(pieces.take(k))
        &&& self.wrote(after, joined(pieces.take(k)))
        &&& joined(pieces.take(k)).len() <= self.room()
    }

    /// Writing `pieces` has ended in `after` with `r`.
    pub open spec fn wrote_all(
        &self,
        after: Self,
        pieces: Seq<Piece>,
        r: Result<(), DnsError>,
    ) -> bool {
        &&& self.wrote(after, joined(pieces))
        &&& r == write_outcome(self.room(), joined(pieces).len(), all_complete(pieces))
    }

    /// Before anything is written, none of the pieces is.
    pub proof fn lemma_wrote_none(self, pieces: Seq<Piece>)
        ensures
            self.wrote_first(self, pieces, 0),
    {
        self.lemma_wrote_nothing();
        assert(pieces.take(0) =~= Seq::<Piece>::empty());
    }

    /// With the first `k` pieces written whole and piece `k` written behind
    /// them: where that one went well, the first `k + 1` are written whole;
    /// where it failed, all the pieces are written as far as they ever
    /// will be, and its failure is theirs.
    pub proof fn lemma_wrote_piece(
        self,
        mid: Self,
        after: Self,
        pieces: Seq<Piece>,
        k: int,
        r: Result<(), DnsError>,
    )
        requires
            0 <= k < pieces.len(),
            self.wrote_first(mid, pieces, k),
            mid.wrote(after, pieces[k].bytes),
            r == write_outcome(mid.room(), pieces[k].bytes.len(), pieces[k].complete),
        ensures
            r is Ok ==> self.wrote_first(after, pieces, k + 1),
            r is Err ==> self.wrote_all(after, pieces, r),
    {
        let head = joined(pieces.take(k));
        let piece = pieces[k];
        lemma_joined_split(pieces, k);
        lemma_joined_split(pieces.take(k + 1), k);
        assert(pieces.take(k + 1).take(k) =~= pieces.take(k));
        assert(pieces.take(k + 1).skip(k) =~= seq![piece]);
        assert(pieces.skip(k)[0] == piece);
        assert(seq![piece].drop_first() =~= Seq::<Piece>::empty());
        assert(joined(seq![piece]) =~= piece.bytes) by {
            reveal_with_fuel(joined, 2);
        }
        self.lemma_wrote_both(mid, after, head, piece.bytes);
        if r is Ok {
            assert forall|i: int| 0 <= i < k + 1 implies (#[trigger] pieces.take(
                k + 1,
            )[i]).complete by {
                if i < k {
                    assert(pieces.take(k)[i].complete);
                }
            }
        } else if piece.complete {
            let more = joined(pieces.skip(k).drop_first());
            self.lemma_wrote_full(after, head + piece.bytes, more);
            assert(head + piece.bytes + more =~= joined(pieces));
        } else {
            assert(joined(pieces) =~= head + piece.bytes);
        }
    }

    /// With all the pieces written whole, the writing went well.
    pub proof fn lemma_wrote_last(self, after: Self, pieces: Seq<Piece>)
        requires
            self.wrote_first(after, pieces, pieces.len() as int),
        ensures
            self.wrote_all(after, pieces, Ok(())),
    {
        assert(pieces.take(pieces.len() as int) =~= pieces);
    }

    /// What was written with room for all of it is held where the cursor
    /// was, and the cursor rests behind it.
    pub proof fn lemma_wrote_holds(self, after: Self, bytes: Seq<u8>)
        requires
            self.wrote(after, bytes),
            bytes.len() <= self.room(),
            self.pos <= 512,
        ensures
            holds(after.buf@, self.pos as int, bytes),
            after.pos == self.pos + bytes.len(),
    {
        reveal(BytePacketBuffer::wrote);
        reveal(holds);
        assert(after.buf@.subrange(self.pos as int, self.pos + bytes.len()) =~= bytes);
    }

    /// A buffer of zero bytes with the cursor at the start.
    pub fn new() -> (b: BytePacketBuffer)
        ensures
            b.pos == 0,
            forall|i: int| 0 <= i < 512 ==> b.buf@[i] == 0u8,
    {
        BytePacketBuffer { buf: [0;512], pos: 0 }
    }

    /// The cursor.
    pub fn pos(&self) -> (p: usize)
        ensures
            p == self.pos,
    {
        self.pos
    }

    /// Moves the cursor forward by `steps`, wherever that leads.
    pub fn step(&mut self, steps: usize) -> (r: Result<(), DnsError>)
        requires
            old(self).pos + steps <= usize::MAX,
        ensures
            r is Ok,
            final(self).pos == old(self).pos + steps,
            final(self).buf == old(self).buf,
    {
        self.pos += steps;
        Ok(())
    }

    /// Sets the cursor to `pos`, wherever that is.
    pub fn seek(&mut self, pos: usize) -> (r: Result<(), DnsError>)
        ensures
            r is Ok,
            final(self).pos == pos,
            final(self).buf == old(self).buf,
    {
        self.pos = pos;
        Ok(())
    }

    /// Reads the byte under the cursor and moves the cursor past it.
    pub fn read(&mut self) -> (r: Result<u8, DnsError>)
        ensures
            final(self).buf == old(self).buf,
            old(self).pos < 512 ==> r == Ok::<u8, DnsError>(old(self).buf@[old(self).pos as int])
                && final(self).pos == old(self).pos + 1,
            old(self).pos >= 512 ==> r == Err::<u8, DnsError>(DnsError::OutOfBounds)
                && final(self).pos == old(self).pos,
    {
        if self.pos >= 512 {
            return Err(DnsError::OutOfBounds);
        }
        let res = self.buf[self.pos];
        self.pos += 1;
        Ok(res)
    }

    /// The byte at `pos`; the cursor stays.
    pub fn get(&mut self, pos: usize) -> (r: Result<u8, DnsError>)
        ensures
            *final(self) == *old(self),
            r == if pos < 512 {
                Ok::<u8, DnsError>(old(self).buf@[pos as int])
            } else {
                Err::<u8, DnsError>(DnsError::OutOfBounds)
            },
    {
        if pos >= 512 {
            return Err(DnsError::OutOfBounds);
        }
        Ok(self.buf[pos])
    }

    /// The `len` bytes from `start` on; the cursor stays. A range that
    /// reaches the last byte of the buffer is refused.
    pub fn get_range(&mut self, start: usize, len: usize) -> (r: Result<&[u8], DnsError>)
        ensures
            *final(self) == *old(self),
            start + len < 512 ==> r is Ok && r.unwrap()@ == old(self).buf@.subrange(
                start as int,
                start + len,
            ),
            start + len >= 512 ==> r == Err::<&[u8], DnsError>(DnsError::OutOfBounds),
    {
        if start >= 512 || len >= 512 - start {
            return Err(DnsError::OutOfBounds);
        }
        Ok(&self.buf[start..start + len])
    }

    /// Reads two bytes as a big-endian number and moves the cursor past them.
    pub fn read_u16(&mut self) -> (r: Result<u16, DnsError>)
        ensures
            final(self).buf == old(self).buf,
            match u16_at(old(self).buf@, old(self).pos as int) {
                Ok((v, p)) => r == Ok::<u16, DnsError>(v) && final(self).pos == p,
                Err(e) => r == Err::<u16, DnsError>(e) && final(self).pos == stopped_at(
                    old(self).pos as int,
                ),
            },
    {
        let hi = self.read()?;
        let lo = self.read()?;
        Ok(((hi as u16) << 8) | (lo as u16))
    }

    /// Reads four bytes as a big-endian number and moves the cursor past them.
    pub fn read_u32(&mut self) -> (r: Result<u32, DnsError>)
        ensures
            final(self).buf == old(self).buf,
            match u32_at(old(self).buf@, old(self).pos as int) {
                Ok((v, p)) => r == Ok::<u32, DnsError>(v) && final(self).pos == p,
                Err(e) => r == Err::<u32, DnsError>(e) && final(self).pos == stopped_at(
                    old(self).pos as int,
                ),
            },
    {
        let b0 = self.read()?;
        let b1 = self.read()?;
        let b2 = self.read()?;
        let b3 = self.read()?;
        Ok(((b0 as u32) << 24) | ((b1 as u32) << 16) | ((b2 as u32) << 8) | (b3 as u32))
    }

    /// Writes `val` under the cursor and moves the cursor past it.
    pub fn write(&mut self, val: u8) -> (r: Result<(), DnsError>)
        ensures
            old(self).wrote(*final(self), seq![val]),
            r == write_outcome(old(self).room(), 1, true),
    {
        proof {
            reveal(BytePacketBuffer::wrote);
        }
        if self.pos >= 512 {
            return Err(DnsError::OutOfBounds);
        }
        self.buf[self.pos] = val;
        self.pos += 1;
        Ok(())
    }

    /// Writes one byte, as `write` does.
    pub fn write_u8(&mut self, val: u8) -> (r: Result<(), DnsError>)
        ensures
            old(self).wrote(*final(self), seq![val]),
            r == write_outcome(old(self).room(), 1, true),
    {
        self.write(val)?;
        Ok(())
    }

    /// Writes `val` as two big-endian bytes.
    pub fn write_u16(&mut self, val: u16) -> (r: Result<(), DnsError>)
        ensures
            old(self).wrote(*final(self), u16_bytes(val)),
            r == write_outcome(old(self).room(), 2, true),
    {
        let ghost w = u16_bytes(val);
        let ghost b0 = *self;
        proof {
            b0.lemma_wrote_nothing();
            assert(w.take(0) =~= Seq::<u8>::empty());
            assert(w.take(2) =~= w);
        }
        let hi = self.write((val >> 8) as u8);
        proof {
            assert(w.subrange(0, 1) =~= seq![(val >> 8) as u8]);
            b0.lemma_wrote_step(b0, *self, w, 0, 1);
        }
        hi?;
        let ghost b1 = *self;
        let lo = self.write((val & 0xFF) as u8);
        proof {
            assert(w.subrange(1, 2) =~= seq![(val & 0xFF) as u8]);
            b0.lemma_wrote_step(b1, *self, w, 1, 2);
        }
        lo?;
        Ok(())
    }

    /// Writes `val` as four big-endian bytes.
    pub fn write_u32(&mut self, val: u32) -> (r: Result<(), DnsError>)
        ensures
            old(self).wrote(*final(self), u32_bytes(val)),
            r == write_outcome(old(self).room(), 4, true),
    {
        let ghost w = u32_bytes(val);
        let ghost b0 = *self;
        proof {
            b0.lemma_wrote_nothing();
            assert(w.take(0) =~= Seq::<u8>::empty());
            assert(w.take(4) =~= w);
        }
        let r0 = self.write(((val >> 24) & 0xFF) as u8);
        proof {
            assert(w.subrange(0, 1) =~= seq![((val >> 24) & 0xFF) as u8]);
            b0.lemma_wrote_step(b0, *self, w, 0, 1);
        }
        r0?;
        let ghost b1 = *self;
        let r1 = self.write(((val >> 16) & 0xFF) as u8);
        proof {
            assert(w.subrange(1, 2) =~= seq![((val >> 16) & 0xFF) as u8]);
            b0.lemma_wrote_step(b1, *self, w, 1, 2);
        }
        r1?;
        let ghost b2 = *self;
        let r2 = self.write(((val >> 8) & 0xFF) as u8);
        proof {
            assert(w.subrange(2, 3) =~= seq![((val >> 8) & 0xFF) as u8]);
            b0.lemma_wrote_step(b2, *self, w, 2, 3);
        }
        r2?;
        let ghost b3 = *self;
        let r3 = self.write((val & 0xFF) as u8);
        proof {
            assert(w.subrange(3, 4) =~= seq![(val & 0xFF) as u8]);
            b0.lemma_wrote_step(b3, *self, w, 3, 4);
        }
        r3?;
        Ok(())
    }
}

} // verus!
