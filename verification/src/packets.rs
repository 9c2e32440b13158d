//! The three packets of a status query: the handshake and the request that
//! the client sends, and the response that it reads.

use crate::error::CodecError;
use crate::frame::{
    envelope_bytes, envelope_decode, envelope_fits, lemma_envelope_roundtrip, parse_envelope,
    serialize_envelope, Envelope,
};
use crate::mc_string::{
    lemma_string_roundtrip, read_string, string_bytes, string_decode, write_string, MAX_LEN,
};
use crate::varint::{
    lemma_varint_len, read_var_int, varint_bytes, varint_decode, write_var_int, VarInt,
};
use vstd::prelude::*;
use vstd::utf8::encode_utf8;

verus! {

/// The protocol version that a handshake announces unless told otherwise.
pub const PROTOCOL_VERSION: i32 = 768;

/// The next state that asks for the status.
pub const NEXT_STATE_STATUS: i32 = 1;

/// The next state that asks to log in.
pub const NEXT_STATE_LOGIN: i32 = 2;

/// The packet id of the handshake, of the status request and of the status
/// response.
pub const PACKET_ID: i32 = 0;

/// The payload of a handshake: the protocol version, the address as a
/// string, the port with its high byte first, the next state.
pub open spec fn handshake_payload(
    protocol_version: i32,
    server_addr: Seq<char>,
    server_port: u16,
    next_state: i32,
) -> Seq<u8> {
    varint_bytes(protocol_version) + string_bytes(server_addr) + seq![
        (server_port / 256) as u8,
        (server_port % 256) as u8,
    ] + varint_bytes(next_state)
}

/// The length that the envelope of a handshake announces: the length of the
/// packet id and of the payload.  The port adds two bytes whatever it is.
pub open spec fn handshake_len(protocol_version: i32, server_addr: Seq<char>, next_state: i32)
    -> nat {
    varint_bytes(PACKET_ID).len() + handshake_payload(
        protocol_version,
        server_addr,
        0,
        next_state,
    ).len()
}

/// Whether a handshake with these fields can be built: the length of the
/// address and the length of the packet can each be announced by a VarInt.
pub open spec fn handshake_fits(protocol_version: i32, server_addr: Seq<char>, next_state: i32)
    -> bool {
    &&& encode_utf8(server_addr).len() <= MAX_LEN
    &&& handshake_len(protocol_version, server_addr, next_state) <= MAX_LEN
}

/// Whether the handshake of a status query to `server_addr` can be built.
pub open spec fn address_fits(server_addr: Seq<char>) -> bool {
    handshake_fits(PROTOCOL_VERSION, server_addr, NEXT_STATE_STATUS)
}

/// The bytes of the status request: an envelope of length one that holds the
/// packet id and no payload.
pub open spec fn status_query_bytes() -> Seq<u8> {
    seq![0x01u8, 0x00u8]
}

/// What the payload of a packet with the id `id` gives as a status response:
/// the text of the string at its start.
pub open spec fn payload_decode(id: i32, payload: Seq<u8>) -> Result<Seq<char>, CodecError> {
    if id != PACKET_ID {
        Err(CodecError::UnexpectedPacketId)
    } else {
        match string_decode(payload) {
            Err(e) => Err(e),
            Ok((text, _)) => Ok(text),
        }
    }
}

/// What parsing a status response from `s` gives when nothing comes after
/// `s`: the JSON text.
pub open spec fn response_decode(s: Seq<u8>) -> Result<Seq<char>, CodecError> {
    match envelope_decode(s) {
        Err(e) => Err(e),
        Ok((id, payload)) => payload_decode(id, payload),
    }
}

/// The status request is the envelope of packet id zero with no payload.
pub proof fn lemma_status_query_is_envelope()
    ensures
        status_query_bytes() == envelope_bytes(PACKET_ID, Seq::<u8>::empty()),
{
    lemma_varint_len(0);
    lemma_varint_len(1);
    assert(varint_bytes(1) == seq![1u8]);
    assert(envelope_bytes(PACKET_ID, Seq::<u8>::empty()) == seq![0x01u8, 0x00u8]);
}

/// A response that carries `text` parses to `text`, whatever follows it.
pub proof fn lemma_response_roundtrip(text: Seq<char>, rest: Seq<u8>)
    requires
        encode_utf8(text).len() <= MAX_LEN,
        envelope_fits(PACKET_ID, string_bytes(text)),
    ensures
        response_decode(envelope_bytes(PACKET_ID, string_bytes(text)) + rest) == Ok::<
            Seq<char>,
            CodecError,
        >(text),
{
    lemma_envelope_roundtrip(PACKET_ID, string_bytes(text), rest);
    lemma_string_roundtrip(text, Seq::<u8>::empty());
    assert(string_bytes(text) + Seq::<u8>::empty() == string_bytes(text));
}

/// The handshake that opens every exchange.
#[derive(Debug)]
pub struct ClientHandshake {
    /// The length of packet id and payload, as computed when the handshake
    /// was built.  The bytes that are sent carry the length of what is sent.
    pub len: VarInt,
    /// The packet id: zero.
    pub packet_id: VarInt,
    /// The protocol version.
    pub protocol_version: VarInt,
    /// The name or address of the server.
    pub server_addr: String,
    /// The port of the server.
    pub server_port: u16,
    /// What the client asks for next: the status, or to log in.
    pub next_state: VarInt,
}

impl ClientHandshake {
    /// The payload of this handshake.
    pub open spec fn payload(&self) -> Seq<u8> {
        handshake_payload(
            self.protocol_version@,
            self.server_addr@,
            self.server_port,
            self.next_state@,
        )
    }

    /// Whether this handshake can be sent: the length of the address and the
    /// length of the packet can each be announced by a VarInt.
    pub open spec fn encodable(&self) -> bool {
        &&& encode_utf8(self.server_addr@).len() <= MAX_LEN
        &&& envelope_fits(self.packet_id@, self.payload())
    }

    /// The bytes of this handshake.
    pub open spec fn wire(&self) -> Seq<u8> {
        envelope_bytes(self.packet_id@, self.payload())
    }

    /// Whether a handshake with these fields can be built.
    pub fn can_build(server_addr: &str, protocol_version: i32, next_state: i32) -> (ok: bool)
        ensures
            ok == handshake_fits(protocol_version, server_addr@, next_state),
    {
        let n: usize = server_addr.as_bytes().len();
        if n > MAX_LEN {
            return false;
        }
        proof {
            lemma_varint_len(PACKET_ID);
            lemma_varint_len(protocol_version);
            lemma_varint_len(next_state);
            lemma_varint_len(n as i32);
        }
        let fixed: usize = VarInt::new(PACKET_ID).size() + VarInt::new(protocol_version).size()
            + VarInt::new(n as i32).size() + 2 + VarInt::new(next_state).size();
        assert(handshake_len(protocol_version, server_addr@, next_state) == fixed + n);
        n <= MAX_LEN - fixed
    }

    /// Whether the handshake of a status query to `server_addr` can be built.
    pub fn accepts(server_addr: &str) -> (ok: bool)
        ensures
            ok == address_fits(server_addr@),
    {
        ClientHandshake::can_build(server_addr, PROTOCOL_VERSION, NEXT_STATE_STATUS)
    }

    /// The handshake to `server_addr` at `server_port` that announces
    /// `protocol_version` and asks for `next_state`.  Its packet id is zero,
    /// and its length is the length of what it holds.
    pub fn build(server_addr: String, server_port: u16, protocol_version: i32, next_state: i32) -> (h:
        ClientHandshake)
        requires
            handshake_fits(protocol_version, server_addr@, next_state),
        ensures
            h.packet_id@ == PACKET_ID,
            h.protocol_version@ == protocol_version,
            h.next_state@ == next_state,
            h.server_addr@ == server_addr@,
            h.server_port == server_port,
            h.len@ == handshake_len(protocol_version, server_addr@, next_state),
            h.len@ == varint_bytes(h.packet_id@).len() + h.payload().len(),
            h.encodable(),
    {
        let packet_id = VarInt::new(PACKET_ID);
        let protocol_version = VarInt::new(protocol_version);
        let next_state = VarInt::new(next_state);
        let addr_len: usize = server_addr.as_str().as_bytes().len();
        proof {
            lemma_varint_len(PACKET_ID);
            lemma_varint_len(protocol_version@);
            lemma_varint_len(next_state@);
            lemma_varint_len(addr_len as i32);
        }
        let len_val: usize = packet_id.size() + protocol_version.size() + VarInt::new(
            addr_len as i32,
        ).size() + addr_len + 2 + next_state.size();
        let len = VarInt::new(len_val as i32);
        ClientHandshake { len, packet_id, protocol_version, server_addr, server_port, next_state }
    }

    /// The handshake of a status query to `server_addr` at `server_port`:
    /// it announces the protocol version 768 and asks for the status.
    pub fn new(server_addr: String, server_port: u16) -> (h: ClientHandshake)
        requires
            address_fits(server_addr@),
        ensures
            h.packet_id@ == PACKET_ID,
            h.protocol_version@ == PROTOCOL_VERSION,
            h.next_state@ == NEXT_STATE_STATUS,
            h.server_addr@ == server_addr@,
            h.server_port == server_port,
            h.len@ == handshake_len(PROTOCOL_VERSION, server_addr@, NEXT_STATE_STATUS),
            h.len@ == varint_bytes(h.packet_id@).len() + h.payload().len(),
            h.encodable(),
    {
        ClientHandshake::build(server_addr, server_port, PROTOCOL_VERSION, NEXT_STATE_STATUS)
    }

    /// Whether this handshake can be sent.
    pub fn is_encodable(&self) -> (ok: bool)
        ensures
            ok == self.encodable(),
    {
        let n: usize = self.server_addr.as_str().as_bytes().len();
        if n > MAX_LEN {
            return false;
        }
        proof {
            lemma_varint_len(self.packet_id@);
            lemma_varint_len(self.protocol_version@);
            lemma_varint_len(self.next_state@);
            lemma_varint_len(n as i32);
        }
        let fixed: usize = self.packet_id.size() + self.protocol_version.size() + VarInt::new(
            n as i32,
        ).size() + 2 + self.next_state.size();
        assert(self.payload().len() == varint_bytes(self.protocol_version@).len() + (varint_bytes(
            n as i32,
        ).len() + n) + 2 + varint_bytes(self.next_state@).len());
        n <= MAX_LEN - fixed
    }

    /// The bytes to send: the envelope of the packet id and the payload, with
    /// the length of what is there.
    pub fn to_bytes(&self) -> (buf: Vec<u8>)
        requires
            self.encodable(),
        ensures
            buf@ == self.wire(),
    {
        let mut payload: Vec<u8> = Vec::new();
        write_var_int(&mut payload, &self.protocol_version);
        write_string(&mut payload, self.server_addr.as_str());
        let port: u16 = self.server_port;
        assert((port >> 8) as u8 == (port / 256) as u8) by (bit_vector);
        assert(port as u8 == (port % 256) as u8) by (bit_vector);
        payload.push((port >> 8) as u8);
        payload.push(port as u8);
        write_var_int(&mut payload, &self.next_state);
        assert(payload@ == self.payload());
        serialize_envelope(&self.packet_id, payload.as_slice())
    }
}

/// The request for the status, which follows the handshake.
pub struct StatusQuery {
    len: VarInt,
    packet_id: VarInt,
}

impl StatusQuery {
    #[verifier::type_invariant]
    pub closed spec fn fixed(&self) -> bool {
        self.len@ == 1 && self.packet_id@ == PACKET_ID
    }

    /// The length that the request announces.
    pub closed spec fn len(&self) -> i32 {
        self.len@
    }

    /// The packet id of the request.
    pub closed spec fn packet_id(&self) -> i32 {
        self.packet_id@
    }

    /// The status request: an envelope of length one with the packet id zero.
    pub fn new() -> (q: StatusQuery)
        ensures
            q.len() == 1,
            q.packet_id() == PACKET_ID,
    {
        StatusQuery { len: VarInt::new(1), packet_id: VarInt::new(PACKET_ID) }
    }

    /// The bytes to send: always `[0x01, 0x00]`, the envelope of the packet
    /// id with no payload.
    pub fn to_bytes(&self) -> (buf: Vec<u8>)
        ensures
            buf@ == status_query_bytes(),
            buf@ == envelope_bytes(PACKET_ID, Seq::<u8>::empty()),
    {
        proof {
            lemma_status_query_is_envelope();
        }
        let buf: Vec<u8> = vec![0x01, 0x00];
        assert(buf@ == status_query_bytes());
        buf
    }
}

/// The response of a server to the status request.
#[derive(Debug)]
pub struct ServerQueryResponse {
    /// The length that the envelope announced.
    pub len: VarInt,
    /// The packet id: zero.
    pub packet_id: VarInt,
    /// The length in bytes that the JSON text announced.
    pub json_len: VarInt,
    /// The JSON text that describes the server.
    pub json: String,
}

impl ServerQueryResponse {
    /// Reads the response out of an envelope.  Fails with
    /// `UnexpectedPacketId` where the packet id is not zero; else with
    /// `MalformedVarInt` where the length of the text does not decode, and
    /// with `TruncatedString` where it announces more bytes than the payload
    /// holds behind it.
    pub fn from_envelope(envelope: Envelope) -> (r: Result<ServerQueryResponse, CodecError>)
        ensures
            match r {
                Ok(response) => payload_decode(envelope.packet_id@, envelope.payload@) == Ok::<
                    Seq<char>,
                    CodecError,
                >(response.json@) && response.len == envelope.len && response.packet_id
                    == envelope.packet_id && varint_decode(envelope.payload@) is Ok
                    && response.json_len@ == varint_decode(envelope.payload@)->Ok_0.0,
                Err(e) => payload_decode(envelope.packet_id@, envelope.payload@) == Err::<
                    Seq<char>,
                    CodecError,
                >(e),
            },
    {
        if envelope.packet_id.value() != PACKET_ID {
            return Err(CodecError::UnexpectedPacketId);
        }
        let payload = envelope.payload.as_slice();
        match read_string(payload) {
            Err(e) => Err(e),
            Ok((json, _)) => {
                match read_var_int(payload) {
                    Ok((json_len, _)) => Ok(
                        ServerQueryResponse {
                            len: envelope.len,
                            packet_id: envelope.packet_id,
                            json_len,
                            json,
                        },
                    ),
                    Err(_) => Err(CodecError::MalformedVarInt),
                }
            },
        }
    }

    /// Parses a response from `bytes`, after which nothing more will come.
    /// Fails as `parse_envelope` does where the envelope is malformed or
    /// incomplete, and else as `from_envelope` does.
    pub fn from(bytes: &[u8]) -> (r: Result<ServerQueryResponse, CodecError>)
        ensures
            match r {
                Ok(response) => response_decode(bytes@) == Ok::<Seq<char>, CodecError>(
                    response.json@,
                ) && response.packet_id@ == PACKET_ID && varint_decode(bytes@) is Ok
                    && response.len@ == varint_decode(bytes@)->Ok_0.0,
                Err(e) => response_decode(bytes@) == Err::<Seq<char>, CodecError>(e),
            },
    {
        match parse_envelope(bytes) {
            Err(e) => Err(e),
            Ok(envelope) => ServerQueryResponse::from_envelope(envelope),
        }
    }
}

} // verus!
