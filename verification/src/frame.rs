//! The envelope that every packet travels in: the length of what follows as
//! a VarInt, then the packet id as a VarInt, then the payload.
//!
//! A stream hands over its bytes in pieces of any size.  What a run of bytes
//! amounts to is therefore stated for every prefix of a stream (`framing`),
//! and the reader that collects the pieces is proved to come to the same
//! envelope however the stream was cut.

use crate::error::CodecError;
use crate::groups::{
    lemma_read_groups_settled, lemma_read_groups_waiting, lemma_run_end, lemma_run_end_is,
    VarIntError,
};
use crate::mc_string::MAX_LEN;
use crate::varint::{
    lemma_signed32_unsigned32, lemma_varint_len, lemma_varint_roundtrip, read_var_int, unsigned32,
    varint_bytes, varint_decode, write_var_int, VarInt, VARINT_MAX_GROUPS,
};
use vstd::prelude::*;

verus! {

/// The bytes of the envelope with packet id `id` and payload `payload`.
pub open spec fn envelope_bytes(id: i32, payload: Seq<u8>) -> Seq<u8> {
    varint_bytes((varint_bytes(id).len() + payload.len()) as i32) + varint_bytes(id) + payload
}

/// Whether a VarInt can announce the length of this id and payload.
pub open spec fn envelope_fits(id: i32, payload: Seq<u8>) -> bool {
    varint_bytes(id).len() + payload.len() <= MAX_LEN
}

/// What the first bytes of a stream amount to.
pub enum Framing {
    /// The length does not decode: its first five bytes all ask for another.
    Malformed,
    /// More bytes are needed, `missing` of them at least: one where the
    /// length itself is not complete, and else what the frame still lacks.
    Short { missing: nat },
    /// The frame is there in full, from index `start` up to index `end`.
    Complete { start: nat, end: nat },
}

/// What the bytes `s` from the start of a stream amount to.  A length that
/// decodes to a negative number is read as the unsigned number with the same
/// bits.
pub open spec fn framing(s: Seq<u8>) -> Framing {
    match varint_decode(s) {
        Err(VarIntError::TooLong) => Framing::Malformed,
        Err(VarIntError::UnexpectedEnd) => Framing::Short { missing: 1 },
        Ok((len, used)) => if s.len() - used < unsigned32(len) {
            Framing::Short { missing: (unsigned32(len) - (s.len() - used)) as nat }
        } else {
            Framing::Complete { start: used, end: used + unsigned32(len) }
        },
    }
}

/// What is inside a frame: the packet id and the payload behind it.  A
/// packet id that the frame cuts off is malformed.
pub open spec fn body_decode(body: Seq<u8>) -> Result<(i32, Seq<u8>), CodecError> {
    match varint_decode(body) {
        Err(_) => Err(CodecError::MalformedVarInt),
        Ok((id, used)) => Ok((id, body.skip(used as int))),
    }
}

/// What parsing an envelope from `s` gives when nothing comes after `s`: the
/// packet id and the payload.
pub open spec fn envelope_decode(s: Seq<u8>) -> Result<(i32, Seq<u8>), CodecError> {
    match framing(s) {
        Framing::Malformed => Err(CodecError::MalformedVarInt),
        Framing::Short { .. } => Err(CodecError::IncompletePacket),
        Framing::Complete { start, end } => body_decode(s.subrange(start as int, end as int)),
    }
}

/// How many bytes from the start of `s` belong to the frame or show that
/// there is none: all of them while more are needed, the frame and its
/// length once it is complete, and the five bytes of a malformed length.
pub open spec fn cut(s: Seq<u8>) -> nat {
    match framing(s) {
        Framing::Malformed => VARINT_MAX_GROUPS as nat,
        Framing::Short { .. } => s.len(),
        Framing::Complete { start, end } => end,
    }
}

/// The bytes of `s` that a reader keeps.
pub open spec fn settle(s: Seq<u8>) -> Seq<u8> {
    s.take(cut(s) as int)
}

/// What a reader holds after it was handed `chunk`, when it held `received`
/// before: nothing new once the stream is closed, and else the bytes up to
/// the end of the frame.
pub open spec fn fed(received: Seq<u8>, closed: bool, chunk: Seq<u8>) -> Seq<u8> {
    if closed {
        received
    } else {
        settle(received + chunk)
    }
}

/// What a reader holds after it was handed the chunks one after another.
pub open spec fn fed_all(received: Seq<u8>, closed: bool, chunks: Seq<Seq<u8>>) -> Seq<u8>
    decreases chunks.len(),
{
    if chunks.len() == 0 {
        received
    } else {
        fed_all(fed(received, closed, chunks[0]), closed, chunks.drop_first())
    }
}

/// What a reader holds after it was handed the bytes one at a time.
pub open spec fn fed_each(received: Seq<u8>, closed: bool, bytes: Seq<u8>) -> Seq<u8>
    decreases bytes.len(),
{
    if bytes.len() == 0 {
        received
    } else {
        fed_each(fed(received, closed, seq![bytes[0]]), closed, bytes.drop_first())
    }
}

/// The chunks put together.
pub open spec fn joined(chunks: Seq<Seq<u8>>) -> Seq<u8>
    decreases chunks.len(),
{
    if chunks.len() == 0 {
        Seq::empty()
    } else {
        chunks[0] + joined(chunks.drop_first())
    }
}

/// What a reader that holds `received` has come to: nothing yet while more
/// bytes are needed and may come, and else what parsing gives.
pub open spec fn outcome(received: Seq<u8>, closed: bool) -> Option<
    Result<(i32, Seq<u8>), CodecError>,
> {
    if !closed && framing(received) is Short {
        None
    } else {
        Some(envelope_decode(received))
    }
}

/// Once the bytes are enough to tell, more bytes behind them change nothing.
pub proof fn lemma_framing_settled(s: Seq<u8>, more: Seq<u8>)
    requires
        !(framing(s) is Short),
    ensures
        framing(s + more) == framing(s),
        envelope_decode(s + more) == envelope_decode(s),
        cut(s + more) == cut(s) <= s.len(),
{
    lemma_read_groups_settled(s, more, VARINT_MAX_GROUPS as nat);
    lemma_run_end(s, 0);
    if let Framing::Complete { start, end } = framing(s) {
        assert((s + more).subrange(start as int, end as int) == s.subrange(
            start as int,
            end as int,
        ));
    }
}

/// The bytes that a reader keeps are all it needs: they amount to what the
/// whole amounts to, and keeping is idempotent.
pub proof fn lemma_settle(s: Seq<u8>)
    ensures
        cut(s) <= s.len(),
        settle(settle(s)) == settle(s),
        cut(settle(s)) == settle(s).len(),
        framing(s) is Short ==> settle(s) == s,
        !(framing(s) is Short) ==> framing(settle(s)) == framing(s) && envelope_decode(settle(s))
            == envelope_decode(s),
{
    let t = settle(s);
    lemma_run_end(s, 0);
    if framing(s) is Short {
        assert(t == s);
    } else {
        let rest = s.skip(cut(s) as int);
        assert(t + rest == s);
        if framing(t) is Short {
            // The kept bytes hold the whole length, and what they amount to
            // is what every longer run amounts to.
            lemma_read_groups_waiting(t, VARINT_MAX_GROUPS as nat);
            if varint_decode(t) is Err {
                assert forall|i: int| 0 <= i < t.len() implies s[i] >= 128 by {
                    assert(s[i] == t[i]);
                }
            } else {
                lemma_read_groups_settled(t, rest, VARINT_MAX_GROUPS as nat);
            }
            assert(false);
        }
        lemma_framing_settled(t, rest);
        assert(t.take(cut(t) as int) == t);
    }
}

/// Handing a reader two chunks one after the other leaves it where handing
/// it both at once does.
pub proof fn lemma_fed_split(received: Seq<u8>, closed: bool, a: Seq<u8>, b: Seq<u8>)
    requires
        settle(received) == received,
    ensures
        fed(fed(received, closed, a), closed, b) == fed(received, closed, a + b),
        settle(fed(received, closed, a)) == fed(received, closed, a),
{
    if !closed {
        let s = received + a;
        lemma_settle(s);
        assert((received + a) + b == received + (a + b));
        if framing(s) is Short {
        } else {
            let t = settle(s);
            let rest = s.skip(cut(s) as int);
            assert(t + rest == s);
            lemma_framing_settled(t, b);
            lemma_framing_settled(t, rest + b);
            assert(t + (rest + b) == s + b);
            assert((t + b).take(cut(t) as int) == t);
            assert((s + b).take(cut(t) as int) == t);
        }
    }
}

/// However a stream is cut into chunks, a reader that is handed the chunks
/// in order holds what it would hold had the stream come in one piece.
pub proof fn lemma_fed_all(received: Seq<u8>, closed: bool, chunks: Seq<Seq<u8>>)
    requires
        settle(received) == received,
    ensures
        fed_all(received, closed, chunks) == fed(received, closed, joined(chunks)),
        outcome(fed_all(received, closed, chunks), closed) == outcome(
            fed(received, closed, joined(chunks)),
            closed,
        ),
    decreases chunks.len(),
{
    if chunks.len() == 0 {
        assert(received + Seq::<u8>::empty() == received);
    } else {
        let first = chunks[0];
        let others = chunks.drop_first();
        lemma_fed_split(received, closed, first, joined(others));
        lemma_fed_all(fed(received, closed, first), closed, others);
    }
}

/// A reader that is handed a stream one byte at a time holds what it would
/// hold had the stream come in one piece.
pub proof fn lemma_fed_each(received: Seq<u8>, closed: bool, bytes: Seq<u8>)
    requires
        settle(received) == received,
    ensures
        fed_each(received, closed, bytes) == fed(received, closed, bytes),
        outcome(fed_each(received, closed, bytes), closed) == outcome(
            fed(received, closed, bytes),
            closed,
        ),
    decreases bytes.len(),
{
    if bytes.len() == 0 {
        assert(received + bytes == received);
    } else {
        let first = seq![bytes[0]];
        let others = bytes.drop_first();
        assert(first + others == bytes);
        lemma_fed_split(received, closed, first, others);
        lemma_fed_each(fed(received, closed, first), closed, others);
    }
}

/// Parsing the bytes of an envelope gives its packet id and payload back,
/// whatever follows them, and the frame ends where the envelope ends.
pub proof fn lemma_envelope_roundtrip(id: i32, payload: Seq<u8>, rest: Seq<u8>)
    requires
        envelope_fits(id, payload),
    ensures
        envelope_decode(envelope_bytes(id, payload) + rest) == Ok::<
            (i32, Seq<u8>),
            CodecError,
        >((id, payload)),
        cut(envelope_bytes(id, payload) + rest) == envelope_bytes(id, payload).len(),
        settle(envelope_bytes(id, payload) + rest) == envelope_bytes(id, payload),
{
    let body = varint_bytes(id) + payload;
    let len = body.len() as i32;
    let head = varint_bytes(len);
    let s = envelope_bytes(id, payload) + rest;
    lemma_varint_len(id);
    lemma_varint_roundtrip(len, body + rest);
    lemma_signed32_unsigned32(len);
    assert(head + (body + rest) == s);
    assert(s.subrange(head.len() as int, (head.len() + body.len()) as int) == body);
    lemma_varint_roundtrip(id, payload);
    assert(body.skip(varint_bytes(id).len() as int) == payload);
    assert(s.take((head.len() + body.len()) as int) == envelope_bytes(id, payload));
}

/// A stream that ends before the frame that its length announces is there
/// in full is an incomplete packet: every proper prefix of the bytes up to
/// the end of a frame is short, and parses as incomplete.
pub proof fn lemma_cut_short(s: Seq<u8>, k: int)
    requires
        framing(s) is Complete,
        0 <= k < cut(s),
    ensures
        framing(s.take(k)) is Short,
        envelope_decode(s.take(k)) == Err::<(i32, Seq<u8>), CodecError>(
            CodecError::IncompletePacket,
        ),
        outcome(s.take(k), true) == Some(
            Err::<(i32, Seq<u8>), CodecError>(CodecError::IncompletePacket),
        ),
{
    let t = s.take(k);
    let used = varint_decode(s)->Ok_0.1;
    lemma_run_end(s, 0);
    if k < used {
        assert forall|i: int| 0 <= i < t.len() implies t[i] >= 128 by {
            assert(t[i] == s[i]);
        }
        lemma_read_groups_waiting(t, VARINT_MAX_GROUPS as nat);
    } else {
        let head = s.take(used as int);
        assert(head.take(used as int) == head);
        lemma_run_end_is(head, 0, used - 1);
        lemma_read_groups_settled(head, s.subrange(used as int, k), VARINT_MAX_GROUPS as nat);
        assert(head + s.subrange(used as int, k) == t);
        lemma_read_groups_settled(head, s.skip(used as int), VARINT_MAX_GROUPS as nat);
        assert(head + s.skip(used as int) == s);
    }
}

/// An envelope as it was parsed.
#[derive(Debug)]
pub struct Envelope {
    /// The length that the envelope announced.
    pub len: VarInt,
    /// The packet id.
    pub packet_id: VarInt,
    /// The bytes behind the packet id.
    pub payload: Vec<u8>,
}

/// Builds the envelope of a packet: the length of id and payload, the id,
/// the payload.  The length is computed from what is handed in.
pub fn serialize_envelope(packet_id: &VarInt, payload: &[u8]) -> (out: Vec<u8>)
    requires
        envelope_fits(packet_id@, payload@),
    ensures
        out@ == envelope_bytes(packet_id@, payload@),
{
    let total: usize = packet_id.size() + payload.len();
    let len = VarInt::new(total as i32);
    let mut out: Vec<u8> = Vec::new();
    write_var_int(&mut out, &len);
    write_var_int(&mut out, packet_id);
    out.extend_from_slice(payload);
    assert(Seq::<u8>::empty() + varint_bytes(len@) == varint_bytes(len@));
    out
}

/// The number of bytes that a length announces.
fn announced(len: &VarInt) -> (want: u32)
    ensures
        want == unsigned32(len@),
{
    let n: i32 = len.value();
    assert(n as u32 == (if n >= 0 {
        n as int
    } else {
        n + 0x1_0000_0000
    })) by (bit_vector);
    n as u32
}

/// Parses an envelope from `bytes`, after which nothing more will come.
/// Fails with `MalformedVarInt` where the length or the packet id does not
/// decode, and with `IncompletePacket` where `bytes` ends before the length
/// is complete or before as many bytes as it announces have followed it.
/// Bytes behind the frame are left alone.
pub fn parse_envelope(bytes: &[u8]) -> (r: Result<Envelope, CodecError>)
    ensures
        match r {
            Ok(e) => envelope_decode(bytes@) == Ok::<(i32, Seq<u8>), CodecError>(
                (e.packet_id@, e.payload@),
            ) && varint_decode(bytes@) is Ok && e.len@ == varint_decode(bytes@)->Ok_0.0,
            Err(e) => envelope_decode(bytes@) == Err::<(i32, Seq<u8>), CodecError>(e),
        },
{
    match read_var_int(bytes) {
        Err(VarIntError::TooLong) => Err(CodecError::MalformedVarInt),
        Err(VarIntError::UnexpectedEnd) => Err(CodecError::IncompletePacket),
        Ok((len, used)) => {
            let want: u32 = announced(&len);
            proof {
                lemma_run_end(bytes@, 0);
            }
            let left: usize = bytes.len() - used;
            if (left as u64) < (want as u64) {
                return Err(CodecError::IncompletePacket);
            }
            let body = vstd::slice::slice_subrange(bytes, used, used + want as usize);
            match read_var_int(body) {
                Err(_) => Err(CodecError::MalformedVarInt),
                Ok((packet_id, k)) => {
                    proof {
                        lemma_run_end(body@, 0);
                    }
                    let rest = vstd::slice::slice_subrange(body, k, body.len());
                    let payload = vstd::slice::slice_to_vec(rest);
                    assert(body@.skip(k as int) == rest@);
                    Ok(Envelope { len, packet_id, payload })
                },
            }
        },
    }
}

/// A reader that holds a malformed length keeps nothing of what comes after.
proof fn lemma_kept_malformed(buf: Seq<u8>, more: Seq<u8>)
    requires
        settle(buf) == buf,
        framing(buf) is Malformed,
    ensures
        settle(buf + more) == buf,
{
    lemma_framing_settled(buf, more);
    assert((buf + more).take(buf.len() as int) == buf);
}

/// A reader that holds part of a length keeps the next byte.
proof fn lemma_kept_length_byte(buf: Seq<u8>, byte: u8)
    requires
        varint_decode(buf) == Err::<(i32, nat), VarIntError>(VarIntError::UnexpectedEnd),
    ensures
        settle(buf.push(byte)) == buf.push(byte),
{
    let after = buf.push(byte);
    lemma_settle(after);
    lemma_run_end(after, 0);
    lemma_read_groups_waiting(buf, VARINT_MAX_GROUPS as nat);
    lemma_read_groups_waiting(after, VARINT_MAX_GROUPS as nat);
    assert(after.take(after.len() as int) == after);
    if framing(after) is Complete {
        assert forall|i: int| 0 <= i < buf.len() implies after[i] >= 128 by {
            assert(after[i] == buf[i]);
        }
        lemma_run_end_is(after, 0, buf.len() as int);
    }
}

/// A reader that holds a whole length holds no more behind it than the
/// length announces.
proof fn lemma_kept_lacking(buf: Seq<u8>)
    requires
        settle(buf) == buf,
        varint_decode(buf) is Ok,
    ensures
        varint_decode(buf)->Ok_0.1 <= buf.len(),
        buf.len() - varint_decode(buf)->Ok_0.1 <= unsigned32(varint_decode(buf)->Ok_0.0),
{
    lemma_run_end(buf, 0);
    lemma_settle(buf);
}

/// A reader that holds a whole length keeps of what comes what the frame
/// still lacks: `piece` where that is all that lacks or all that comes.
proof fn lemma_kept_body(buf: Seq<u8>, piece: Seq<u8>, rest: Seq<u8>)
    requires
        settle(buf) == buf,
        varint_decode(buf) is Ok,
        buf.len() + piece.len() <= varint_decode(buf)->Ok_0.1 + unsigned32(
            varint_decode(buf)->Ok_0.0,
        ),
        buf.len() + piece.len() == varint_decode(buf)->Ok_0.1 + unsigned32(
            varint_decode(buf)->Ok_0.0,
        ) || rest.len() == 0,
    ensures
        settle(buf + piece) == buf + piece,
        settle((buf + piece) + rest) == buf + piece,
{
    let after = buf + piece;
    lemma_run_end(buf, 0);
    lemma_read_groups_settled(buf, piece, VARINT_MAX_GROUPS as nat);
    assert(after.take(after.len() as int) == after);
    if framing(after) is Complete {
        lemma_framing_settled(after, rest);
        assert((after + rest).take(after.len() as int) == after);
    } else {
        assert(after + rest == after);
    }
}

/// A reader whose length is malformed, or is open with nothing more coming,
/// keeps what it holds.
proof fn lemma_kept_nothing(buf: Seq<u8>, rest: Seq<u8>)
    requires
        settle(buf) == buf,
        varint_decode(buf) is Err,
        varint_decode(buf) == Err::<(i32, nat), VarIntError>(VarIntError::UnexpectedEnd)
            ==> rest.len() == 0,
    ensures
        buf == buf + rest.take(0),
        buf == settle(buf + rest),
{
    assert(buf + rest.take(0) == buf);
    if framing(buf) is Malformed {
        lemma_kept_malformed(buf, rest);
    } else {
        assert(buf + rest == buf);
    }
}

/// A reader that holds a whole length keeps of `rest` its first `took`
/// bytes, where that is what the frame lacks or all of `rest`.
proof fn lemma_kept_piece(buf: Seq<u8>, rest: Seq<u8>, took: nat)
    requires
        settle(buf) == buf,
        varint_decode(buf) is Ok,
        took <= rest.len(),
        buf.len() + took <= varint_decode(buf)->Ok_0.1 + unsigned32(varint_decode(buf)->Ok_0.0),
        buf.len() + took == varint_decode(buf)->Ok_0.1 + unsigned32(varint_decode(buf)->Ok_0.0)
            || took == rest.len(),
    ensures
        rest.subrange(0, took as int) == rest.take(took as int),
        settle(buf + rest.take(took as int)) == buf + rest.take(took as int),
        settle(buf + rest) == buf + rest.take(took as int),
{
    let piece = rest.take(took as int);
    lemma_kept_body(buf, piece, rest.skip(took as int));
    assert(piece + rest.skip(took as int) == rest);
    assert((buf + piece) + rest.skip(took as int) == buf + rest);
}

/// Collects the bytes of one envelope from a stream that hands them over in
/// pieces.  It keeps the bytes up to the end of the frame and no more, so
/// what it holds depends on the stream alone, not on how it was cut.
pub struct FrameReader {
    buf: Vec<u8>,
    closed: bool,
}

impl FrameReader {
    #[verifier::type_invariant]
    pub closed spec fn kept(&self) -> bool {
        settle(self.buf@) == self.buf@
    }

    /// The bytes taken from the stream so far.
    pub closed spec fn received(&self) -> Seq<u8> {
        self.buf@
    }

    /// Whether the stream has ended.
    pub closed spec fn is_closed(&self) -> bool {
        self.closed
    }

    /// What the reader has come to.
    pub open spec fn outcome(&self) -> Option<Result<(i32, Seq<u8>), CodecError>> {
        outcome(self.received(), self.is_closed())
    }

    /// A reader at the start of a stream.
    pub fn new() -> (r: FrameReader)
        ensures
            r.received() == Seq::<u8>::empty(),
            !r.is_closed(),
            settle(r.received()) == r.received(),
    {
        proof {
            lemma_settle(Seq::<u8>::empty());
            lemma_read_groups_waiting(Seq::<u8>::empty(), VARINT_MAX_GROUPS as nat);
        }
        FrameReader { buf: Vec::new(), closed: false }
    }

    /// Whether the reader holds the whole length of the envelope.
    pub fn has_length(&self) -> (known: bool)
        ensures
            known == varint_decode(self.received()) is Ok,
    {
        match read_var_int(self.buf.as_slice()) {
            Ok(_) => true,
            Err(_) => false,
        }
    }

    /// How many more bytes the reader needs at least: one while the length is
    /// not complete, then what the frame still lacks, and none once the frame
    /// is complete, the length is malformed or the stream has ended.
    pub fn missing(&self) -> (n: usize)
        ensures
            n == match framing(self.received()) {
                Framing::Short { missing } => if self.is_closed() {
                    0
                } else {
                    missing
                },
                _ => 0,
            },
            n == 0 <==> self.outcome() is Some,
    {
        proof {
            use_type_invariant(self);
            lemma_run_end(self.buf@, 0);
        }
        if self.closed {
            return 0;
        }
        match read_var_int(self.buf.as_slice()) {
            Err(VarIntError::TooLong) => 0,
            Err(VarIntError::UnexpectedEnd) => 1,
            Ok((len, used)) => {
                let want: u32 = announced(&len);
                let have: usize = self.buf.len() - used;
                want as usize - have
            },
        }
    }

    /// Takes from `chunk` what belongs to the frame, and returns how many
    /// bytes that were.  Nothing is taken once the frame is complete, the
    /// length is malformed or the stream has ended.
    pub fn feed(&mut self, chunk: &[u8]) -> (used: usize)
        ensures
            final(self).received() == fed(old(self).received(), old(self).is_closed(), chunk@),
            final(self).is_closed() == old(self).is_closed(),
            used <= chunk.len(),
            final(self).received() == old(self).received() + chunk@.take(used as int),
            settle(final(self).received()) == final(self).received(),
    {
        proof {
            use_type_invariant(&*self);
            assert(chunk@.take(0) == Seq::<u8>::empty());
            assert(self.buf@ + Seq::<u8>::empty() == self.buf@);
        }
        if self.closed {
            return 0;
        }
        let ghost start = self.buf@;
        let ghost whole = start + chunk@;
        let mut buf: Vec<u8> = Vec::new();
        proof {
            lemma_settle(Seq::<u8>::empty());
            lemma_read_groups_waiting(Seq::<u8>::empty(), VARINT_MAX_GROUPS as nat);
        }
        core::mem::swap(&mut buf, &mut self.buf);
        let used = FrameReader::fill(&mut buf, chunk);
        self.buf = buf;
        used
    }

    /// Appends to `buf` what belongs to the frame from `chunk`, and returns
    /// how many bytes that were.
    fn fill(buf: &mut Vec<u8>, chunk: &[u8]) -> (used: usize)
        requires
            settle(old(buf)@) == old(buf)@,
        ensures
            final(buf)@ == settle(old(buf)@ + chunk@),
            used <= chunk.len(),
            final(buf)@ == old(buf)@ + chunk@.take(used as int),
            settle(final(buf)@) == final(buf)@,
    {
        let i: usize = FrameReader::fill_length(buf, chunk);
        let ghost mid = buf@;
        assert(mid + chunk@.skip(i as int) == old(buf)@ + chunk@);
        let rest = vstd::slice::slice_subrange(chunk, i, chunk.len());
        let took = FrameReader::fill_body(buf, rest);
        assert(chunk@.take(i + took) == chunk@.take(i as int) + rest@.take(took as int));
        i + took
    }

    /// Appends to `buf`, which does not end inside the length, what the
    /// frame still lacks from `rest`, and returns how many bytes that were.
    fn fill_body(buf: &mut Vec<u8>, rest: &[u8]) -> (took: usize)
        requires
            settle(old(buf)@) == old(buf)@,
            varint_decode(old(buf)@) == Err::<(i32, nat), VarIntError>(VarIntError::UnexpectedEnd)
                ==> rest@.len() == 0,
        ensures
            took <= rest.len(),
            final(buf)@ == old(buf)@ + rest@.take(took as int),
            final(buf)@ == settle(old(buf)@ + rest@),
            settle(final(buf)@) == final(buf)@,
    {
        match read_var_int(buf.as_slice()) {
            Err(_) => {
                proof {
                    lemma_kept_nothing(buf@, rest@);
                }
                0
            },
            Ok((len, head)) => {
                proof {
                    lemma_kept_lacking(buf@);
                }
                let want: u32 = announced(&len);
                let have: usize = buf.len() - head;
                let lacking: usize = want as usize - have;
                let took: usize = if lacking < rest.len() {
                    lacking
                } else {
                    rest.len()
                };
                let piece = vstd::slice::slice_subrange(rest, 0, took);
                proof {
                    lemma_kept_piece(buf@, rest@, took as nat);
                }
                buf.extend_from_slice(piece);
                took
            },
        }
    }

    /// Appends bytes of `chunk` to `buf` until the length is complete or
    /// malformed, or the chunk is used up, and returns how many it appended.
    fn fill_length(buf: &mut Vec<u8>, chunk: &[u8]) -> (i: usize)
        requires
            settle(old(buf)@) == old(buf)@,
        ensures
            i <= chunk.len(),
            final(buf)@ == old(buf)@ + chunk@.take(i as int),
            settle(final(buf)@) == final(buf)@,
            varint_decode(final(buf)@) == Err::<(i32, nat), VarIntError>(
                VarIntError::UnexpectedEnd,
            ) ==> i == chunk.len(),
    {
        let mut i: usize = 0;
        assert(chunk@.take(0) == Seq::<u8>::empty());
        assert(buf@ + Seq::<u8>::empty() == buf@);
        while i < chunk.len() && FrameReader::length_is_open(buf)
            invariant
                i <= chunk.len(),
                buf@ == old(buf)@ + chunk@.take(i as int),
                settle(buf@) == buf@,
            decreases chunk.len() - i,
        {
            proof {
                lemma_kept_length_byte(buf@, chunk@[i as int]);
                assert(chunk@.take(i + 1) == chunk@.take(i as int).push(chunk@[i as int]));
            }
            buf.push(chunk[i]);
            i = i + 1;
        }
        i
    }

    /// Whether `buf` ends inside the length.
    fn length_is_open(buf: &Vec<u8>) -> (open: bool)
        ensures
            open == (varint_decode(buf@) == Err::<(i32, nat), VarIntError>(
                VarIntError::UnexpectedEnd,
            )),
    {
        match read_var_int(buf.as_slice()) {
            Err(VarIntError::UnexpectedEnd) => true,
            _ => false,
        }
    }

    /// Notes that the stream has ended: what is missing now will not come.
    pub fn close(&mut self)
        ensures
            final(self).received() == old(self).received(),
            final(self).is_closed(),
    {
        proof {
            use_type_invariant(&*self);
        }
        self.closed = true;
    }

    /// The envelope, once the frame is complete or cannot be completed, and
    /// nothing while more bytes are needed and may come.
    pub fn finish(&self) -> (r: Option<Result<Envelope, CodecError>>)
        ensures
            match r {
                None => self.outcome() is None,
                Some(Ok(e)) => self.outcome() == Some(
                    Ok::<(i32, Seq<u8>), CodecError>((e.packet_id@, e.payload@)),
                ),
                Some(Err(e)) => self.outcome() == Some(Err::<(i32, Seq<u8>), CodecError>(e)),
            },
            settle(self.received()) == self.received(),
    {
        proof {
            use_type_invariant(self);
        }
        if self.missing() > 0 {
            None
        } else {
            Some(parse_envelope(self.buf.as_slice()))
        }
    }
}

} // verus!
