//! Packets: the kind registry, the two error taxonomies, the packet sum
//! type, and the framing codec that turns datagram bytes into packet values
//! and back.

pub mod factory;
pub mod message;
pub mod simple;

use vstd::prelude::*;

use crate::bytes::{
    be16, be16_of, be32, be64, read_arr, read_u16, read_vec, write_bytes, write_u16, FieldError,
};
use crate::packet::message::{
    message_bytes, message_kind, message_wf, message_writable, mheader_at, mheader_bytes,
    mheader_wf, parse_message_body, parse_message_header, write_message_body,
    write_message_header, Message, MessageHeader, MessageModel,
};
use crate::packet::simple::{
    connect_request_unprotected_bytes, connect_request_unprotected_wf, connect_response_protected_bytes,
    discovery_request_bytes, discovery_response_bytes, discovery_response_wf, parse_connect_response_protected,
    parse_discovery_request, parse_discovery_response, parse_power_on_request, parse_simple_header,
    power_on_request_bytes, power_on_request_wf, sheader_at, sheader_bytes, sheader_wf,
    write_simple_header,
    ConnectRequestProtectedData, ConnectRequestProtectedDataModel, ConnectRequestUnprotectedData,
    ConnectRequestUnprotectedDataModel, ConnectResponseProtectedData, ConnectResponseUnprotectedData,
    DiscoveryRequestData, DiscoveryResponseData, DiscoveryResponseDataModel, PowerOnRequestData,
    PowerOnRequestDataModel, SimpleHeader,
};
use crate::sgcrypto::cbc_enc_of;
use crate::state::{InvalidState, SGState};

verus! {

/// The packet kinds, with their 16-bit wire codes.
#[derive(Clone, Copy, Debug, PartialEq, Eq, Structural)]
pub enum Type {
    ConnectRequest,
    ConnectResponse,
    DiscoveryRequest,
    DiscoveryResponse,
    PowerOnRequest,
    Message,
}

/// The wire code of a packet kind.
pub open spec fn type_code(t: Type) -> u16 {
    match t {
        Type::ConnectRequest => 0xCC00,
        Type::ConnectResponse => 0xCC01,
        Type::DiscoveryRequest => 0xDD00,
        Type::DiscoveryResponse => 0xDD01,
        Type::PowerOnRequest => 0xDD02,
        Type::Message => 0xD00D,
    }
}

/// The packet kind a wire code denotes, if any.
pub open spec fn type_of_code(c: u16) -> Option<Type> {
    if c == 0xCC00 {
        Some(Type::ConnectRequest)
    } else if c == 0xCC01 {
        Some(Type::ConnectResponse)
    } else if c == 0xDD00 {
        Some(Type::DiscoveryRequest)
    } else if c == 0xDD01 {
        Some(Type::DiscoveryResponse)
    } else if c == 0xDD02 {
        Some(Type::PowerOnRequest)
    } else if c == 0xD00D {
        Some(Type::Message)
    } else {
        None
    }
}

impl Type {
    /// Whether this kind carries a protected (encrypted) region.
    pub fn has_protected_data(&self) -> (r: bool)
        ensures
            r == spec_has_protected(*self),
    {
        match *self {
            Type::ConnectRequest | Type::ConnectResponse => true,
            _ => false,
        }
    }

    /// The wire code of this kind.
    pub fn code(&self) -> (r: u16)
        ensures
            r == type_code(*self),
    {
        match *self {
            Type::ConnectRequest => 0xCC00,
            Type::ConnectResponse => 0xCC01,
            Type::DiscoveryRequest => 0xDD00,
            Type::DiscoveryResponse => 0xDD01,
            Type::PowerOnRequest => 0xDD02,
            Type::Message => 0xD00D,
        }
    }

    /// The kind a wire code denotes, if any.
    pub fn from_code(c: u16) -> (r: Option<Type>)
        ensures
            r == type_of_code(c),
    {
        if c == 0xCC00 {
            Some(Type::ConnectRequest)
        } else if c == 0xCC01 {
            Some(Type::ConnectResponse)
        } else if c == 0xDD00 {
            Some(Type::DiscoveryRequest)
        } else if c == 0xDD01 {
            Some(Type::DiscoveryResponse)
        } else if c == 0xDD02 {
            Some(Type::PowerOnRequest)
        } else if c == 0xD00D {
            Some(Type::Message)
        } else {
            None
        }
    }
}

/// Whether a kind carries a protected region, at the specification level.
pub open spec fn spec_has_protected(t: Type) -> bool {
    t == Type::ConnectRequest || t == Type::ConnectResponse
}

/// Codes name their kinds uniquely.
pub proof fn lemma_type_code(t: Type)
    ensures
        type_of_code(type_code(t)) == Some(t),
{
}

/// Why a datagram could not be decoded.
#[derive(Clone, Copy, Debug, PartialEq, Eq, Structural)]
pub enum ReadError {
    /// The datagram ended before a region or field was complete, or a
    /// header length did not match its region.
    Truncated,
    /// The leading 16-bit code names no packet kind.
    UnknownKind,
    /// The message flags name no message kind.
    InvalidMessageKind,
    /// The packet kind is not legal in the current session state.
    State(InvalidState),
    /// The trailing 32 bytes are not the HMAC of the rest.
    Signature,
    /// The protected region was not a well-padded ciphertext of the
    /// announced length.
    Decrypt,
    /// A payload field was malformed.
    Payload(FieldError),
    /// Decoding a `ConnectRequest` acts as the console; this library is a
    /// client only.
    NotImplemented,
}

/// Why a packet could not be encoded.
#[derive(Clone, Copy, Debug, PartialEq, Eq, Structural)]
pub enum WriteError {
    /// The packet kind is not legal in the current session state.
    State(InvalidState),
    /// A payload did not fit its length prefixes, or has no wire form.
    Payload(FieldError),
    /// Payload encryption failed.
    Encrypt,
    /// Deriving the per-message IV failed.
    IvGen,
    /// Signing failed.
    Signature,
}


/// The key material of a connected state, at the specification level; empty
/// key images when disconnected, where no protected packet can stand.
pub open spec fn state_keys(s: SGState) -> crate::sgcrypto::CryptoModel {
    match s {
        SGState::Connected(st) => st.crypto@,
        SGState::Disconnected => crate::sgcrypto::CryptoModel {
            pub_key: Seq::empty(),
            aes: Seq::empty(),
            iv: Seq::empty(),
            hmac: Seq::empty(),
        },
    }
}

/// A decoded packet.
pub enum Packet {
    PowerOnRequest(SimpleHeader, PowerOnRequestData),
    DiscoveryRequest(SimpleHeader, DiscoveryRequestData),
    DiscoveryResponse(SimpleHeader, DiscoveryResponseData),
    ConnectRequest(SimpleHeader, ConnectRequestUnprotectedData, ConnectRequestProtectedData),
    ConnectResponse(SimpleHeader, ConnectResponseUnprotectedData, ConnectResponseProtectedData),
    Message(MessageHeader, Message),
}

/// The mathematical image of a packet.
pub ghost enum PacketModel {
    PowerOnRequest(SimpleHeader, PowerOnRequestDataModel),
    DiscoveryRequest(SimpleHeader, DiscoveryRequestData),
    DiscoveryResponse(SimpleHeader, DiscoveryResponseDataModel),
    ConnectRequest(SimpleHeader, ConnectRequestUnprotectedDataModel, ConnectRequestProtectedDataModel),
    ConnectResponse(SimpleHeader, Seq<u8>, ConnectResponseProtectedData),
    Message(MessageHeader, MessageModel),
}

impl View for Packet {
    type V = PacketModel;

    open spec fn view(&self) -> PacketModel {
        match self {
            Packet::PowerOnRequest(h, x) => PacketModel::PowerOnRequest(*h, x@),
            Packet::DiscoveryRequest(h, x) => PacketModel::DiscoveryRequest(*h, *x),
            Packet::DiscoveryResponse(h, x) => PacketModel::DiscoveryResponse(*h, x@),
            Packet::ConnectRequest(h, u, pr) => PacketModel::ConnectRequest(*h, u@, pr@),
            Packet::ConnectResponse(h, u, pr) => PacketModel::ConnectResponse(*h, u.iv@, *pr),
            Packet::Message(h, m) => PacketModel::Message(*h, m@),
        }
    }
}

/// The packet kind of a packet image.
pub open spec fn packet_kind(p: PacketModel) -> Type {
    match p {
        PacketModel::PowerOnRequest(..) => Type::PowerOnRequest,
        PacketModel::DiscoveryRequest(..) => Type::DiscoveryRequest,
        PacketModel::DiscoveryResponse(..) => Type::DiscoveryResponse,
        PacketModel::ConnectRequest(..) => Type::ConnectRequest,
        PacketModel::ConnectResponse(..) => Type::ConnectResponse,
        PacketModel::Message(..) => Type::Message,
    }
}

/// A packet image the wire can carry: headers name their kinds, length
/// fields equal the byte lengths of the regions they describe, and every
/// payload is well formed.
pub open spec fn packet_wf(p: PacketModel) -> bool {
    match p {
        PacketModel::PowerOnRequest(h, x) => h.pkt_type == Type::PowerOnRequest && sheader_wf(h)
            && power_on_request_wf(x) && h.unprotected_payload_length == power_on_request_bytes(
            x,
        ).len(),
        PacketModel::DiscoveryRequest(h, x) => h.pkt_type == Type::DiscoveryRequest && sheader_wf(h)
            && h.unprotected_payload_length == discovery_request_bytes(x).len(),
        PacketModel::DiscoveryResponse(h, x) => h.pkt_type == Type::DiscoveryResponse
            && sheader_wf(h) && discovery_response_wf(x) && h.unprotected_payload_length
            == discovery_response_bytes(x).len(),
        PacketModel::ConnectRequest(h, u, pr) => h.pkt_type == Type::ConnectRequest
            && connect_request_unprotected_wf(u),
        PacketModel::ConnectResponse(h, iv, pr) => h.pkt_type == Type::ConnectResponse && iv.len()
            == 16 && h.unprotected_payload_length == 16 && h.protected_payload_length
            == connect_response_protected_bytes(pr).len(),
        PacketModel::Message(h, m) => mheader_wf(h) && message_wf(m) && h.flags.msg_type
            == message_kind(m) && h.protected_payload_length == message_bytes(m).len(),
    }
}

/// The datagram a packet image serializes to, under the given keys.  The
/// two protected kinds carry a ciphertext and a trailing HMAC; the others
/// are cleartext.
pub open spec fn datagram_of(p: PacketModel, c: crate::sgcrypto::CryptoModel) -> Seq<u8> {
    match p {
        PacketModel::PowerOnRequest(h, x) => sheader_bytes(h) + power_on_request_bytes(x),
        PacketModel::DiscoveryRequest(h, x) => sheader_bytes(h) + discovery_request_bytes(x),
        PacketModel::DiscoveryResponse(h, x) => sheader_bytes(h) + discovery_response_bytes(x),
        PacketModel::ConnectRequest(h, u, pr) => sheader_bytes(h)
            + connect_request_unprotected_bytes(u),
        PacketModel::ConnectResponse(h, iv, pr) => {
            let head = sheader_bytes(h) + iv + cbc_enc_of(
                c.aes,
                iv,
                crate::sgcrypto::pad16(connect_response_protected_bytes(pr)),
            );
            head + crate::sgcrypto::hmac_of(c.hmac, head)
        },
        PacketModel::Message(h, m) => {
            let hb = mheader_bytes(h);
            let iv = cbc_enc_of(c.iv, crate::sgcrypto::zero16(), hb.subrange(0, 16));
            let head = hb + cbc_enc_of(c.aes, iv, crate::sgcrypto::pad16(message_bytes(m)));
            head + crate::sgcrypto::hmac_of(c.hmac, head)
        },
    }
}

/// The ciphertext pieces of the datagram have the block-aligned lengths the
/// reader deduces from the header; trivial for the cleartext kinds.
pub open spec fn datagram_sized(p: PacketModel, c: crate::sgcrypto::CryptoModel) -> bool {
    match p {
        PacketModel::ConnectResponse(h, iv, pr) => {
            let cipher = cbc_enc_of(
                c.aes,
                iv,
                crate::sgcrypto::pad16(connect_response_protected_bytes(pr)),
            );
            cipher.len() == crate::spec_aligned_len(connect_response_protected_bytes(pr).len())
                && crate::sgcrypto::hmac_of(c.hmac, sheader_bytes(h) + iv + cipher).len() == 32
        },
        PacketModel::Message(h, m) => {
            let hb = mheader_bytes(h);
            let iv = cbc_enc_of(c.iv, crate::sgcrypto::zero16(), hb.subrange(0, 16));
            let cipher = cbc_enc_of(c.aes, iv, crate::sgcrypto::pad16(message_bytes(m)));
            iv.len() == 16 && cipher.len() == crate::spec_aligned_len(message_bytes(m).len())
                && crate::sgcrypto::hmac_of(c.hmac, hb + cipher).len() == 32
        },
        _ => true,
    }
}

/// What decoding a datagram in a given state may yield: a well-formed
/// packet, legal in that state, whose serialization under the state's keys
/// is the datagram byte for byte.
pub open spec fn decode_rel(d: Seq<u8>, s: SGState, p: PacketModel) -> bool {
    &&& packet_wf(p)
    &&& datagram_sized(p, state_keys(s))
    &&& d == datagram_of(p, state_keys(s))
    &&& match packet_kind(p) {
        Type::ConnectResponse | Type::Message => s is Connected,
        Type::ConnectRequest => false,
        _ => s is Disconnected,
    }
}



/// A simple header's bytes begin with its kind code.
proof fn lemma_sheader_first2(h: SimpleHeader)
    ensures
        sheader_bytes(h).len() >= 6,
        sheader_bytes(h).subrange(0, 2) =~= be16(type_code(h.pkt_type)),
{
    let mid = if spec_has_protected(h.pkt_type) {
        be16(h.protected_payload_length)
    } else {
        Seq::<u8>::empty()
    };
    let rest = be16(h.unprotected_payload_length) + mid + be16(h.version);
    assert(sheader_bytes(h) =~= be16(type_code(h.pkt_type)) + rest);
    crate::bytes::lemma_split(sheader_bytes(h), be16(type_code(h.pkt_type)), rest);
}

/// A message header's bytes begin with its kind code.
proof fn lemma_mheader_first2(h: MessageHeader)
    ensures
        mheader_bytes(h).subrange(0, 2) =~= be16(type_code(h.pkt_type)),
{
    let rest = be16(h.protected_payload_length) + be32(h.sequence_number) + be32(
        h.target_participant_id,
    ) + be32(h.source_participant_id) + be16(crate::packet::message::flags_word(h.flags)) + be64(
        h.channel_id,
    );
    assert(mheader_bytes(h) =~= be16(type_code(h.pkt_type)) + rest);
    crate::bytes::lemma_split(mheader_bytes(h), be16(type_code(h.pkt_type)), rest);
}

/// Any packet standing behind a datagram pins its leading kind code and the
/// state gate.
#[verifier::rlimit(100)]
#[verifier::spinoff_prover]
pub proof fn lemma_rel_head(d: Seq<u8>, s: SGState, p: PacketModel)
    requires
        decode_rel(d, s, p),
    ensures
        d.len() >= 2,
        type_of_code(be16_of(d.subrange(0, 2)) as u16) == Some(packet_kind(p)),
{
    let c = state_keys(s);
    match p {
        PacketModel::PowerOnRequest(h, x) => {
            crate::bytes::lemma_split(d, sheader_bytes(h), power_on_request_bytes(x));
            lemma_sheader_first2(h);
            lemma_first2(d, sheader_bytes(h), h.pkt_type);
        },
        PacketModel::DiscoveryRequest(h, x) => {
            crate::bytes::lemma_split(d, sheader_bytes(h), discovery_request_bytes(x));
            lemma_sheader_first2(h);
            lemma_first2(d, sheader_bytes(h), h.pkt_type);
        },
        PacketModel::DiscoveryResponse(h, x) => {
            crate::bytes::lemma_split(d, sheader_bytes(h), discovery_response_bytes(x));
            lemma_sheader_first2(h);
            lemma_first2(d, sheader_bytes(h), h.pkt_type);
        },
        PacketModel::ConnectRequest(h, u, pr) => {
            assert(false);
        },
        PacketModel::ConnectResponse(h, iv, pr) => {
            let cipher = cbc_enc_of(
                c.aes,
                iv,
                crate::sgcrypto::pad16(connect_response_protected_bytes(pr)),
            );
            let head = sheader_bytes(h) + iv + cipher;
            crate::bytes::lemma_split(d, head, crate::sgcrypto::hmac_of(c.hmac, head));
            crate::bytes::lemma_region3(d, 0, sheader_bytes(h), iv, cipher);
            lemma_sheader_first2(h);
            assert(d.subrange(0, sheader_bytes(h).len() as int) =~= sheader_bytes(h));
            lemma_first2(d, sheader_bytes(h), h.pkt_type);
        },
        PacketModel::Message(h, m) => {
            let hb = mheader_bytes(h);
            let ivq = cbc_enc_of(c.iv, crate::sgcrypto::zero16(), hb.subrange(0, 16));
            let cipher = cbc_enc_of(c.aes, ivq, crate::sgcrypto::pad16(message_bytes(m)));
            let head = hb + cipher;
            crate::bytes::lemma_split(d, head, crate::sgcrypto::hmac_of(c.hmac, head));
            crate::bytes::lemma_region(d, 0, hb, cipher);
            crate::packet::message::lemma_mheader_len(h);
            lemma_mheader_first2(h);
            assert(d.subrange(0, hb.len() as int) =~= hb);
            lemma_first2(d, hb, h.pkt_type);
        },
    }
}

/// The first two bytes of a datagram whose header region leads it are the
/// big-endian code of the header's kind.
proof fn lemma_first2(d: Seq<u8>, hb: Seq<u8>, t: Type)
    requires
        2 <= hb.len() <= d.len(),
        d.subrange(0, hb.len() as int) == hb,
        hb.subrange(0, 2) == be16(type_code(t)),
    ensures
        d.len() >= 2,
        type_of_code(be16_of(d.subrange(0, 2)) as u16) == Some(t),
{
    assert(d.subrange(0, 2) =~= be16(type_code(t))) by {
        assert forall|i: int| 0 <= i < 2 implies d.subrange(0, 2)[i] == be16(type_code(t))[i] by {
            assert(d.subrange(0, hb.len() as int)[i] == hb[i]);
            assert(hb.subrange(0, 2)[i] == hb[i]);
        }
    }
    crate::bytes::lemma_be16_of(type_code(t));
    lemma_type_code(t);
}

/// The regions of a cleartext simple-kind datagram: header first, then the
/// payload bytes, whose length the header states.
pub proof fn lemma_rel_simple(d: Seq<u8>, s: SGState, p: PacketModel)
    requires
        decode_rel(d, s, p),
        packet_kind(p) == Type::PowerOnRequest || packet_kind(p) == Type::DiscoveryRequest
            || packet_kind(p) == Type::DiscoveryResponse,
    ensures
        s is Disconnected,
        p matches PacketModel::PowerOnRequest(h, x) ==> sheader_at(d, h, 6)
            && power_on_request_wf(x) && power_on_request_bytes(x) == d.subrange(6, d.len() as int)
            && h.unprotected_payload_length == d.len() - 6,
        p matches PacketModel::DiscoveryRequest(h, x) ==> sheader_at(d, h, 6)
            && discovery_request_bytes(x) == d.subrange(6, d.len() as int)
            && h.unprotected_payload_length == d.len() - 6,
        p matches PacketModel::DiscoveryResponse(h, x) ==> sheader_at(d, h, 6)
            && discovery_response_wf(x) && discovery_response_bytes(x) == d.subrange(
            6,
            d.len() as int,
        ) && h.unprotected_payload_length == d.len() - 6,
{
    match p {
        PacketModel::PowerOnRequest(h, x) => {
            crate::bytes::lemma_split(d, sheader_bytes(h), power_on_request_bytes(x));
            assert(sheader_bytes(h).len() == 6);
        },
        PacketModel::DiscoveryRequest(h, x) => {
            crate::bytes::lemma_split(d, sheader_bytes(h), discovery_request_bytes(x));
            assert(sheader_bytes(h).len() == 6);
        },
        PacketModel::DiscoveryResponse(h, x) => {
            crate::bytes::lemma_split(d, sheader_bytes(h), discovery_response_bytes(x));
            assert(sheader_bytes(h).len() == 6);
        },
        _ => {
            assert(false);
        },
    }
}

/// The regions of a connect response datagram: 8-byte header, 16-byte IV,
/// one ciphertext block, 32-byte HMAC trailer — 72 bytes in all.
pub proof fn lemma_rel_connect_response(d: Seq<u8>, s: SGState, p: PacketModel)
    requires
        decode_rel(d, s, p),
        packet_kind(p) == Type::ConnectResponse,
    ensures
        s is Connected,
        d.len() == 72,
        p matches PacketModel::ConnectResponse(h, iv, pr) ==> {
            &&& sheader_at(d, h, 8)
            &&& h.unprotected_payload_length == 16
            &&& h.protected_payload_length == 8
            &&& d.subrange(8, 24) == iv
            &&& d.subrange(24, 40) == cbc_enc_of(
                state_keys(s).aes,
                iv,
                crate::sgcrypto::pad16(connect_response_protected_bytes(pr)),
            )
            &&& d.subrange(40, 72) == crate::sgcrypto::hmac_of(
                state_keys(s).hmac,
                d.subrange(0, 40),
            )
        },
{
    let c = state_keys(s);
    match p {
        PacketModel::ConnectResponse(h, iv, pr) => {
            let cipher = cbc_enc_of(
                c.aes,
                iv,
                crate::sgcrypto::pad16(connect_response_protected_bytes(pr)),
            );
            let head = sheader_bytes(h) + iv + cipher;
            assert(cipher.len() == 16);
            assert(sheader_bytes(h).len() == 8);
            crate::bytes::lemma_split(d, head, crate::sgcrypto::hmac_of(c.hmac, head));
            assert(d.subrange(0, 40) =~= head);
            crate::bytes::lemma_region3(d, 0, sheader_bytes(h), iv, cipher);
            assert(sheader_at(d, h, 8));
        },
        _ => {
            assert(false);
        },
    }
}

/// The regions of a message datagram: 26-byte header, the block-aligned
/// ciphertext of the body, and the 32-byte HMAC trailer.
#[verifier::rlimit(100)]
#[verifier::spinoff_prover]
pub proof fn lemma_rel_message(d: Seq<u8>, s: SGState, p: PacketModel)
    requires
        decode_rel(d, s, p),
        packet_kind(p) == Type::Message,
    ensures
        s is Connected,
        p matches PacketModel::Message(h, m) ==> {
            &&& mheader_at(d, h)
            &&& crate::packet::message::mtype_carries_payload(h.flags.msg_type)
            &&& h.flags.msg_type == message_kind(m)
            &&& h.protected_payload_length == message_bytes(m).len()
            &&& d.len() == 26 + crate::spec_aligned_len(message_bytes(m).len()) + 32
            &&& d.subrange(26, d.len() - 32) == cbc_enc_of(
                state_keys(s).aes,
                cbc_enc_of(state_keys(s).iv, crate::sgcrypto::zero16(), d.subrange(0, 16)),
                crate::sgcrypto::pad16(message_bytes(m)),
            )
            &&& d.subrange(d.len() - 32, d.len() as int) == crate::sgcrypto::hmac_of(
                state_keys(s).hmac,
                d.subrange(0, d.len() - 32),
            )
        },
{
    let c = state_keys(s);
    match p {
        PacketModel::Message(h, m) => {
            let hb = mheader_bytes(h);
            let ivq = cbc_enc_of(c.iv, crate::sgcrypto::zero16(), hb.subrange(0, 16));
            let cipher = cbc_enc_of(c.aes, ivq, crate::sgcrypto::pad16(message_bytes(m)));
            let head = hb + cipher;
            crate::packet::message::lemma_mheader_len(h);
            crate::bytes::lemma_split(d, head, crate::sgcrypto::hmac_of(c.hmac, head));
            assert(d.subrange(0, d.len() - 32) =~= head);
            crate::bytes::lemma_split(head, hb, cipher);
            assert(d.subrange(0, 26) =~= hb);
            assert(mheader_at(d, h));
            assert(d.subrange(0, 16) =~= hb.subrange(0, 16)) by {
                assert forall|i: int| 0 <= i < 16 implies d.subrange(0, 16)[i] == hb.subrange(
                    0,
                    16,
                )[i] by {
                    assert(d.subrange(0, 26)[i] == hb[i]);
                }
            }
            assert(d.subrange(26, d.len() - 32) =~= cipher) by {
                assert forall|i: int| 0 <= i < cipher.len() implies d.subrange(
                    26,
                    d.len() - 32,
                )[i] == cipher[i] by {
                    assert(d.subrange(0, d.len() - 32)[26 + i] == head[26 + i]);
                }
            }
            crate::packet::message::lemma_message_wf_carries(m);
        },
        _ => {
            assert(false);
        },
    }
}

impl Packet {
    /// Decodes one datagram against the session state: the kind is peeked
    /// and gated on the state, the trailing HMAC of the protected kinds is
    /// verified, the protected region is decrypted, and the payload parsed.
    /// Whatever packet comes back re-serializes to the input, byte for
    /// byte; and whenever the input is the datagram image of a well-formed
    /// packet legal in the state, decoding succeeds — except that a
    /// discovery response may still fail on the certificate parser, whose
    /// domain the outside library decides.
    #[verifier::rlimit(100)]
    #[verifier::spinoff_prover]
    pub fn read(input: &[u8], state: &SGState) -> (r: Result<Packet, ReadError>)
        ensures
            r matches Ok(p) ==> decode_rel(input@, *state, p@),
            (exists|p: PacketModel| decode_rel(input@, *state, p)) ==> (r is Ok || r == Err::<
                Packet,
                ReadError,
            >(ReadError::Payload(FieldError::Certificate))),
            input@.len() < 2 ==> r == Err::<Packet, ReadError>(ReadError::Truncated),
            input@.len() >= 2 && type_of_code(be16_of(input@.subrange(0, 2)) as u16) is None ==> r
                == Err::<Packet, ReadError>(ReadError::UnknownKind),
            forall|k: Type|
                (input@.len() >= 2 && #[trigger] type_of_code(be16_of(input@.subrange(0, 2)) as u16)
                    == Some(k)) ==> {
                    &&& (k != Type::ConnectResponse && k != Type::Message && state is Connected)
                        ==> r == Err::<Packet, ReadError>(ReadError::State(InvalidState::Connected))
                    &&& ((k == Type::ConnectResponse || k == Type::Message)
                        && state is Disconnected) ==> r == Err::<Packet, ReadError>(
                        ReadError::State(InvalidState::Disconnected),
                    )
                    &&& (k == Type::ConnectRequest && state is Disconnected) ==> r == Err::<
                        Packet,
                        ReadError,
                    >(ReadError::NotImplemented)
                    &&& ((k == Type::ConnectResponse || k == Type::Message) && state is Connected
                        && input@.len() >= 34 && input@.subrange(
                        input@.len() - 32,
                        input@.len() as int,
                    ) != crate::sgcrypto::hmac_of(
                        state_keys(*state).hmac,
                        input@.subrange(0, input@.len() - 32),
                    )) ==> r == Err::<Packet, ReadError>(ReadError::Signature)
                },
            r == Err::<Packet, ReadError>(ReadError::Signature) ==> input@.len() >= 32
                && input@.subrange(input@.len() - 32, input@.len() as int)
                != crate::sgcrypto::hmac_of(
                state_keys(*state).hmac,
                input@.subrange(0, input@.len() - 32),
            ),
            forall|h: MessageHeader|
                (state is Connected && input@.len() >= 34 && input@.subrange(
                    input@.len() - 32,
                    input@.len() as int,
                ) == crate::sgcrypto::hmac_of(
                    state_keys(*state).hmac,
                    input@.subrange(0, input@.len() - 32),
                ) && #[trigger] mheader_at(input@, h)
                    && !crate::packet::message::mtype_carries_payload(h.flags.msg_type)) ==> r
                    == Err::<Packet, ReadError>(ReadError::InvalidMessageKind),
    {
        let n = input.len();
        proof {
            assert forall|p: PacketModel| #[trigger]
                decode_rel(input@, *state, p) implies input@.len() >= 2 && type_of_code(
                be16_of(input@.subrange(0, 2)) as u16,
            ) == Some(packet_kind(p)) by {
                lemma_rel_head(input@, *state, p);
            }
            assert forall|h2: MessageHeader| #[trigger]
                mheader_at(input@, h2) implies input@.len() >= 26 && be16_of(
                input@.subrange(0, 2),
            ) == 0xD00D by {
                crate::packet::message::lemma_mheader_len(h2);
                assert(input@.subrange(0, 2) =~= be16(type_code(h2.pkt_type))) by {
                    lemma_mheader_first2(h2);
                    assert forall|i: int| 0 <= i < 2 implies input@.subrange(0, 2)[i] == be16(
                        type_code(h2.pkt_type),
                    )[i] by {
                        assert(input@.subrange(0, 26)[i] == mheader_bytes(h2)[i]);
                        assert(mheader_bytes(h2).subrange(0, 2)[i] == mheader_bytes(h2)[i]);
                    }
                }
                crate::bytes::lemma_be16_of(type_code(h2.pkt_type));
            }
        }
        let (code, _p) = match read_u16(input, 0) {
            Ok(v) => v,
            Err(_) => {
                return Err(ReadError::Truncated);
            },
        };
        let kind = match Type::from_code(code) {
            Some(t) => t,
            None => {
                return Err(ReadError::UnknownKind);
            },
        };
        match kind {
            Type::PowerOnRequest | Type::DiscoveryRequest | Type::DiscoveryResponse
                | Type::ConnectRequest => {
                match state.ensure_disconnected() {
                    Ok(()) => (),
                    Err(e) => {
                        return Err(ReadError::State(e));
                    },
                }
                if let Type::ConnectRequest = kind {
                    return Err(ReadError::NotImplemented);
                }
                proof {
                    assert forall|p: PacketModel| #[trigger]
                        decode_rel(input@, *state, p) implies {
                        &&& (p matches PacketModel::PowerOnRequest(h2, x) ==> sheader_at(
                            input@,
                            h2,
                            6,
                        ))
                        &&& (p matches PacketModel::DiscoveryRequest(h2, x) ==> sheader_at(
                            input@,
                            h2,
                            6,
                        ))
                        &&& (p matches PacketModel::DiscoveryResponse(h2, x) ==> sheader_at(
                            input@,
                            h2,
                            6,
                        ))
                    } by {
                        lemma_rel_head(input@, *state, p);
                        lemma_rel_simple(input@, *state, p);
                    }
                }
                let (h, j) = match parse_simple_header(input) {
                    Ok(v) => v,
                    Err(e) => {
                        return Err(e);
                    },
                };
                let (body, _end) = match read_vec(input, j, n - j) {
                    Ok(v) => v,
                    Err(_) => {
                        return Err(ReadError::Truncated);
                    },
                };
                proof {
                    assert(input@.subrange(j as int, n as int) =~= body@);
                    assert forall|p: PacketModel| #[trigger]
                        decode_rel(input@, *state, p) implies {
                        &&& (p matches PacketModel::PowerOnRequest(h2, x) ==> h2 == h && j == 6
                            && power_on_request_wf(x) && power_on_request_bytes(x) == body@)
                        &&& (p matches PacketModel::DiscoveryRequest(h2, x) ==> h2 == h && j == 6
                            && discovery_request_bytes(x) == body@)
                        &&& (p matches PacketModel::DiscoveryResponse(h2, x) ==> h2 == h && j == 6
                            && discovery_response_wf(x) && discovery_response_bytes(x) == body@)
                    } by {
                        lemma_rel_head(input@, *state, p);
                        lemma_rel_simple(input@, *state, p);
                    }
                }
                if h.unprotected_payload_length as usize != n - j {
                    return Err(ReadError::Truncated);
                }
                match kind {
                    Type::PowerOnRequest => {
                        let x = match parse_power_on_request(body.as_slice()) {
                            Ok(v) => v,
                            Err(e) => {
                                return Err(lift_field_error(e));
                            },
                        };
                        let p = Packet::PowerOnRequest(h, x);
                        proof {
                            assert(input@ =~= sheader_bytes(h) + power_on_request_bytes(x@));
                        }
                        Ok(p)
                    },
                    Type::DiscoveryRequest => {
                        let x = match parse_discovery_request(body.as_slice()) {
                            Ok(v) => v,
                            Err(e) => {
                                return Err(lift_field_error(e));
                            },
                        };
                        let p = Packet::DiscoveryRequest(h, x);
                        proof {
                            assert(input@ =~= sheader_bytes(h) + discovery_request_bytes(x));
                        }
                        Ok(p)
                    },
                    _ => {
                        let x = match parse_discovery_response(body.as_slice()) {
                            Ok(v) => v,
                            Err(e) => {
                                if e == FieldError::Certificate {
                                    return Err(ReadError::Payload(FieldError::Certificate));
                                }
                                return Err(lift_field_error(e));
                            },
                        };
                        let p = Packet::DiscoveryResponse(h, x);
                        proof {
                            assert(input@ =~= sheader_bytes(h) + discovery_response_bytes(x@));
                        }
                        Ok(p)
                    },
                }
            },
            _ => {
                let st = match state.ensure_connected() {
                    Ok(v) => v,
                    Err(e) => {
                        return Err(ReadError::State(e));
                    },
                };
                proof {
                    assert forall|p: PacketModel| #[trigger]
                        decode_rel(input@, *state, p) implies input@.len() >= 34 && input@.subrange(
                        input@.len() - 32,
                        input@.len() as int,
                    ) == crate::sgcrypto::hmac_of(
                        state_keys(*state).hmac,
                        input@.subrange(0, input@.len() - 32),
                    ) by {
                        lemma_rel_head(input@, *state, p);
                        if packet_kind(p) == Type::ConnectResponse {
                            lemma_rel_connect_response(input@, *state, p);
                        } else {
                            lemma_rel_message(input@, *state, p);
                        }
                    }
                }
                if n < 34 {
                    return Err(ReadError::Truncated);
                }
                let head_len = n - 32;
                let (head, _e1) = match read_vec(input, 0, head_len) {
                    Ok(v) => v,
                    Err(_) => {
                        return Err(ReadError::Truncated);
                    },
                };
                let (tag, _e2) = match read_vec(input, head_len, 32) {
                    Ok(v) => v,
                    Err(_) => {
                        return Err(ReadError::Truncated);
                    },
                };
                proof {
                    assert(head@ =~= input@.subrange(0, head_len as int));
                    assert(tag@ =~= input@.subrange(head_len as int, n as int));
                }
                match st.crypto.verify(head.as_slice(), tag.as_slice()) {
                    Ok(()) => (),
                    Err(_) => {
                        return Err(ReadError::Signature);
                    },
                }
                if let Type::ConnectResponse = kind {
                    proof {
                        assert forall|p: PacketModel| #[trigger]
                            decode_rel(input@, *state, p) implies (p matches
                        PacketModel::ConnectResponse(h2, ivp, pr) && sheader_at(input@, h2, 8)) by {
                            lemma_rel_head(input@, *state, p);
                            lemma_rel_connect_response(input@, *state, p);
                        }
                    }
                    let (h, j) = match parse_simple_header(input) {
                        Ok(v) => v,
                        Err(e) => {
                            return Err(e);
                        },
                    };
                    proof {
                        assert forall|p: PacketModel| #[trigger]
                            decode_rel(input@, *state, p) implies (p matches
                        PacketModel::ConnectResponse(h2, ivp, pr) && h2 == h && j == 8 && n == 72
                            && input@.subrange(8, 24) == ivp && input@.subrange(24, 40)
                            == cbc_enc_of(
                            state_keys(*state).aes,
                            ivp,
                            crate::sgcrypto::pad16(connect_response_protected_bytes(pr)),
                        )) by {
                            lemma_rel_head(input@, *state, p);
                            lemma_rel_connect_response(input@, *state, p);
                        }
                    }
                    if h.unprotected_payload_length != 16 || h.protected_payload_length != 8 {
                        return Err(ReadError::Truncated);
                    }
                    if n != j + 16 + 16 + 32 {
                        return Err(ReadError::Truncated);
                    }
                    let (iv, civ) = match read_arr::<16>(input, j) {
                        Ok(v) => v,
                        Err(_) => {
                            return Err(ReadError::Truncated);
                        },
                    };
                    let (cipher, _c2) = match read_vec(input, civ, 16) {
                        Ok(v) => v,
                        Err(_) => {
                            return Err(ReadError::Truncated);
                        },
                    };
                    proof {
                        assert(iv@ =~= input@.subrange(8, 24));
                        assert(cipher@ =~= input@.subrange(24, 40));
                    }
                    let plain = match st.crypto.decrypt(iv.as_slice(), cipher.as_slice(), 8) {
                        Ok(v) => v,
                        Err(_) => {
                            return Err(ReadError::Decrypt);
                        },
                    };
                    let pr = match parse_connect_response_protected(plain.as_slice()) {
                        Ok(v) => v,
                        Err(e) => {
                            return Err(lift_field_error(e));
                        },
                    };
                    let u = ConnectResponseUnprotectedData { iv };
                    let p = Packet::ConnectResponse(h, u, pr);
                    proof {
                        let c = state_keys(*state);
                        let headq = sheader_bytes(h) + iv@ + cbc_enc_of(
                            c.aes,
                            iv@,
                            crate::sgcrypto::pad16(connect_response_protected_bytes(pr)),
                        );
                        assert(cipher@ == cbc_enc_of(
                            c.aes,
                            iv@,
                            crate::sgcrypto::pad16(plain@),
                        ));
                        assert(connect_response_protected_bytes(pr) == plain@);
                        assert(headq =~= head@);
                        assert(input@ =~= headq + crate::sgcrypto::hmac_of(c.hmac, headq));
                    }
                    Ok(p)
                } else {
                    proof {
                        assert forall|p: PacketModel| #[trigger]
                            decode_rel(input@, *state, p) implies (p matches PacketModel::Message(
                            h2,
                            m2,
                        ) && mheader_at(input@, h2)) by {
                            lemma_rel_head(input@, *state, p);
                            lemma_rel_message(input@, *state, p);
                        }
                    }
                    let h = match parse_message_header(input) {
                        Ok(v) => v,
                        Err(e) => {
                            return Err(e);
                        },
                    };
                    if !h.flags.msg_type.carries_payload() {
                        return Err(ReadError::InvalidMessageKind);
                    }
                    proof {
                        assert forall|p: PacketModel| #[trigger]
                            decode_rel(input@, *state, p) implies (p matches PacketModel::Message(
                            h2,
                            m2,
                        ) && h2 == h && message_wf(m2) && message_kind(m2) == h.flags.msg_type
                            && message_bytes(m2).len() == h.protected_payload_length && n == 26
                            + crate::spec_aligned_len(message_bytes(m2).len()) + 32
                            && input@.subrange(26, n - 32) == cbc_enc_of(
                            state_keys(*state).aes,
                            cbc_enc_of(
                                state_keys(*state).iv,
                                crate::sgcrypto::zero16(),
                                input@.subrange(0, 16),
                            ),
                            crate::sgcrypto::pad16(message_bytes(m2)),
                        )) by {
                            lemma_rel_head(input@, *state, p);
                            lemma_rel_message(input@, *state, p);
                        }
                    }
                    let (h16, _h16e) = match read_vec(input, 0, 16) {
                        Ok(v) => v,
                        Err(_) => {
                            return Err(ReadError::Truncated);
                        },
                    };
                    let iv = match st.crypto.generate_iv(h16.as_slice()) {
                        Ok(v) => v,
                        Err(_) => {
                            return Err(ReadError::Decrypt);
                        },
                    };
                    proof {
                        assert(h16@ =~= input@.subrange(0, 16));
                    }
                    let plen = h.protected_payload_length as usize;
                    let aligned = crate::sgcrypto::Crypto::aligned_len(plen);
                    if n != 26 + aligned + 32 {
                        return Err(ReadError::Truncated);
                    }
                    let (cipher, _c3) = match read_vec(input, 26, aligned) {
                        Ok(v) => v,
                        Err(_) => {
                            return Err(ReadError::Truncated);
                        },
                    };
                    proof {
                        assert(cipher@ =~= input@.subrange(26, n - 32));
                    }
                    let plain = match st.crypto.decrypt(iv.as_slice(), cipher.as_slice(), plen) {
                        Ok(v) => v,
                        Err(_) => {
                            return Err(ReadError::Decrypt);
                        },
                    };
                    let m = match parse_message_body(h.flags.msg_type, plain.as_slice()) {
                        Ok(v) => v,
                        Err(e) => {
                            if e == FieldError::Unsupported {
                                return Err(ReadError::InvalidMessageKind);
                            }
                            return Err(lift_field_error(e));
                        },
                    };
                    let p = Packet::Message(h, m);
                    proof {
                        let c = state_keys(*state);
                        let hb = mheader_bytes(h);
                        assert(hb.subrange(0, 16) =~= input@.subrange(0, 16));
                        let ivq = cbc_enc_of(c.iv, crate::sgcrypto::zero16(), hb.subrange(0, 16));
                        assert(iv@ == ivq);
                        assert(message_bytes(m@) == plain@);
                        let headq = hb + cbc_enc_of(
                            c.aes,
                            ivq,
                            crate::sgcrypto::pad16(message_bytes(m@)),
                        );
                        assert(cipher@ == cbc_enc_of(
                            c.aes,
                            iv@,
                            crate::sgcrypto::pad16(plain@),
                        ));
                        assert(hb =~= input@.subrange(0, 26));
                        assert(headq =~= head@);
                        assert(input@ =~= headq + crate::sgcrypto::hmac_of(c.hmac, headq));
                    }
                    Ok(p)
                }
            },
        }
    }
}

/// Lifts a payload field error to the decode taxonomy.
fn lift_field_error(e: FieldError) -> (r: ReadError)
    ensures
        e == FieldError::Truncated ==> r == ReadError::Truncated,
        e != FieldError::Truncated ==> r == ReadError::Payload(e),
{
    if e == FieldError::Truncated {
        ReadError::Truncated
    } else {
        ReadError::Payload(e)
    }
}


/// A packet whose every length prefix fits, so that it can be written out,
/// and whose headers name what they carry.
pub open spec fn packet_writable(p: PacketModel) -> bool {
    match p {
        PacketModel::PowerOnRequest(h, x) => h.pkt_type == Type::PowerOnRequest && x.live_id.len()
            <= 0xFFFF && power_on_request_bytes(x).len() <= 0xFFFF,
        PacketModel::DiscoveryRequest(h, x) => h.pkt_type == Type::DiscoveryRequest,
        PacketModel::DiscoveryResponse(h, x) => h.pkt_type == Type::DiscoveryResponse && x.name.len()
            <= 0xFFFF && x.certificate.der.len() <= 0xFFFF && discovery_response_bytes(x).len()
            <= 0xFFFF,
        PacketModel::ConnectRequest(h, u, pr) => h.pkt_type == Type::ConnectRequest,
        PacketModel::ConnectResponse(h, iv, pr) => h.pkt_type == Type::ConnectResponse && iv.len()
            == 16,
        PacketModel::Message(h, m) => h.pkt_type == Type::Message && crate::packet::message::flags_wf(
            h.flags,
        ) && h.flags.msg_type == message_kind(m) && message_writable(m) && message_bytes(m).len()
            <= 0xFFFF,
    }
}

/// The packet with its header length fields set to the byte lengths of the
/// regions it serializes; the lengths a decode of its datagram reports.
pub open spec fn patched(p: PacketModel) -> PacketModel {
    match p {
        PacketModel::PowerOnRequest(h, x) => PacketModel::PowerOnRequest(
            SimpleHeader {
                unprotected_payload_length: power_on_request_bytes(x).len() as u16,
                protected_payload_length: 0,
                ..h
            },
            x,
        ),
        PacketModel::DiscoveryRequest(h, x) => PacketModel::DiscoveryRequest(
            SimpleHeader {
                unprotected_payload_length: discovery_request_bytes(x).len() as u16,
                protected_payload_length: 0,
                ..h
            },
            x,
        ),
        PacketModel::DiscoveryResponse(h, x) => PacketModel::DiscoveryResponse(
            SimpleHeader {
                unprotected_payload_length: discovery_response_bytes(x).len() as u16,
                protected_payload_length: 0,
                ..h
            },
            x,
        ),
        PacketModel::ConnectRequest(h, u, pr) => PacketModel::ConnectRequest(h, u, pr),
        PacketModel::ConnectResponse(h, iv, pr) => PacketModel::ConnectResponse(
            SimpleHeader {
                unprotected_payload_length: 16,
                protected_payload_length: connect_response_protected_bytes(pr).len() as u16,
                ..h
            },
            iv,
            pr,
        ),
        PacketModel::Message(h, m) => PacketModel::Message(
            MessageHeader { protected_payload_length: message_bytes(m).len() as u16, ..h },
            m,
        ),
    }
}


/// Serializes a connect response: header, IV, ciphertext, HMAC.
#[verifier::rlimit(100)]
#[verifier::spinoff_prover]
fn encode_connect_response(
    h: &SimpleHeader,
    u: &ConnectResponseUnprotectedData,
    pr: &ConnectResponseProtectedData,
    state: &SGState,
) -> (r: Result<Vec<u8>, WriteError>)
    ensures
        r matches Ok(b) ==> packet_writable(PacketModel::ConnectResponse(*h, u.iv@, *pr))
            && datagram_sized(
            patched(PacketModel::ConnectResponse(*h, u.iv@, *pr)),
            state_keys(*state),
        ) && b@ == datagram_of(
            patched(PacketModel::ConnectResponse(*h, u.iv@, *pr)),
            state_keys(*state),
        ),
        (packet_writable(PacketModel::ConnectResponse(*h, u.iv@, *pr)) && state is Connected)
            ==> r is Ok,
        r matches Err(e) ==> ((e == WriteError::State(InvalidState::Disconnected)
            && state is Disconnected) || (e matches WriteError::Payload(_) && !packet_writable(
            PacketModel::ConnectResponse(*h, u.iv@, *pr),
        ))),
{
                if !matches!(h.pkt_type, Type::ConnectResponse) {
                    return Err(WriteError::Payload(FieldError::Unsupported));
                }
                let st = match state.ensure_connected() {
                    Ok(v) => v,
                    Err(e) => {
                        return Err(WriteError::State(e));
                    },
                };
                let mut tmp: Vec<u8> = Vec::new();
                crate::packet::simple::write_connect_response_protected(&mut tmp, pr);
                let h2 = SimpleHeader {
                    pkt_type: h.pkt_type,
                    unprotected_payload_length: 16,
                    protected_payload_length: tmp.len() as u16,
                    version: h.version,
                };
                let mut out: Vec<u8> = Vec::new();
                write_simple_header(&mut out, &h2);
                write_bytes(&mut out, u.iv.as_slice());
                let cipher = match st.crypto.encrypt(u.iv.as_slice(), tmp.as_slice()) {
                    Ok(v) => v,
                    Err(_) => {
                        return Err(WriteError::Encrypt);
                    },
                };
                write_bytes(&mut out, cipher.as_slice());
                let tag = st.crypto.sign(out.as_slice());
                proof {
                    let c = state_keys(*state);
                    let head = sheader_bytes(h2) + u.iv@ + cbc_enc_of(
                        c.aes,
                        u.iv@,
                        crate::sgcrypto::pad16(connect_response_protected_bytes(*pr)),
                    );
                    assert(tmp@ =~= connect_response_protected_bytes(*pr));
                    assert(out@ =~= head);
                }
                write_bytes(&mut out, tag.as_slice());
                proof {
                    assert(out@ =~= datagram_of(patched(PacketModel::ConnectResponse(*h, u.iv@, *pr)), state_keys(*state)));
                }
                Ok(out)
            
}

/// Serializes a message: header, derived IV, ciphertext, HMAC.
#[verifier::rlimit(100)]
#[verifier::spinoff_prover]
fn encode_message(h: &MessageHeader, m: &Message, state: &SGState) -> (r: Result<
    Vec<u8>,
    WriteError,
>)
    ensures
        r matches Ok(b) ==> packet_writable(PacketModel::Message(*h, m@)) && datagram_sized(
            patched(PacketModel::Message(*h, m@)),
            state_keys(*state),
        ) && b@ == datagram_of(patched(PacketModel::Message(*h, m@)), state_keys(*state)),
        (packet_writable(PacketModel::Message(*h, m@)) && state is Connected) ==> r is Ok,
        r matches Err(e) ==> ((e == WriteError::State(InvalidState::Disconnected)
            && state is Disconnected) || (e matches WriteError::Payload(_) && !packet_writable(
            PacketModel::Message(*h, m@),
        ))),
{
                if !matches!(h.pkt_type, Type::Message) {
                    return Err(WriteError::Payload(FieldError::Unsupported));
                }
                if !(h.flags.version < 4 && (h.flags.is_fragment == (h.flags.version % 2 == 1))) {
                    return Err(WriteError::Payload(FieldError::Unsupported));
                }
                if !m.kind_matches(h.flags.msg_type) {
                    return Err(WriteError::Payload(FieldError::Unsupported));
                }
                let st = match state.ensure_connected() {
                    Ok(v) => v,
                    Err(e) => {
                        return Err(WriteError::State(e));
                    },
                };
                let mut tmp: Vec<u8> = Vec::new();
                match write_message_body(&mut tmp, m) {
                    Ok(()) => (),
                    Err(e) => {
                        return Err(WriteError::Payload(e));
                    },
                }
                if tmp.len() > 0xFFFF {
                    return Err(WriteError::Payload(FieldError::Oversize));
                }
                let h2 = MessageHeader {
                    pkt_type: h.pkt_type,
                    protected_payload_length: tmp.len() as u16,
                    sequence_number: h.sequence_number,
                    target_participant_id: h.target_participant_id,
                    source_participant_id: h.source_participant_id,
                    flags: h.flags,
                    channel_id: h.channel_id,
                };
                let mut out: Vec<u8> = Vec::new();
                write_message_header(&mut out, &h2);
                let (h16, _e) = match read_vec(out.as_slice(), 0, 16) {
                    Ok(v) => v,
                    Err(_) => {
                        return Err(WriteError::IvGen);
                    },
                };
                let iv = match st.crypto.generate_iv(h16.as_slice()) {
                    Ok(v) => v,
                    Err(_) => {
                        return Err(WriteError::IvGen);
                    },
                };
                let cipher = match st.crypto.encrypt(iv.as_slice(), tmp.as_slice()) {
                    Ok(v) => v,
                    Err(_) => {
                        return Err(WriteError::Encrypt);
                    },
                };
                write_bytes(&mut out, cipher.as_slice());
                let tag = st.crypto.sign(out.as_slice());
                proof {
                    let c = state_keys(*state);
                    let hb = mheader_bytes(h2);
                    assert(h16@ =~= hb.subrange(0, 16));
                    let ivq = cbc_enc_of(c.iv, crate::sgcrypto::zero16(), hb.subrange(0, 16));
                    assert(iv@ == ivq);
                    assert(tmp@ =~= message_bytes(m@));
                    let head = hb + cbc_enc_of(
                        c.aes,
                        ivq,
                        crate::sgcrypto::pad16(message_bytes(m@)),
                    );
                    assert(out@ =~= head);
                }
                write_bytes(&mut out, tag.as_slice());
                proof {
                    assert(out@ =~= datagram_of(patched(PacketModel::Message(*h, m@)), state_keys(*state)));
                }
                Ok(out)
            
}

impl Packet {
    /// Serializes this packet against the session state: payloads are
    /// written with their true lengths in the headers, the protected kinds
    /// are encrypted under the session keys and signed, and the result is
    /// the exact datagram image of the length-patched packet.
    #[verifier::rlimit(100)]
    #[verifier::spinoff_prover]
    pub fn raw_bytes(&self, state: &SGState) -> (r: Result<Vec<u8>, WriteError>)
        ensures
            r matches Ok(b) ==> packet_writable(self@) && datagram_sized(
                patched(self@),
                state_keys(*state),
            ) && b@ == datagram_of(patched(self@), state_keys(*state)),
            (packet_writable(self@) && ((packet_kind(self@) == Type::ConnectResponse
                || packet_kind(self@) == Type::Message) ==> state is Connected)) ==> r is Ok,
            r matches Err(e) ==> ((e == WriteError::State(InvalidState::Disconnected)
                && (packet_kind(self@) == Type::ConnectResponse || packet_kind(self@)
                == Type::Message) && state is Disconnected) || (e matches WriteError::Payload(_)
                && !packet_writable(self@))),
    {
        match self {
            Packet::PowerOnRequest(h, x) => {
                if !matches!(h.pkt_type, Type::PowerOnRequest) {
                    return Err(WriteError::Payload(FieldError::Unsupported));
                }
                let mut tmp: Vec<u8> = Vec::new();
                match crate::packet::simple::write_power_on_request(&mut tmp, x) {
                    Ok(()) => (),
                    Err(e) => {
                        return Err(WriteError::Payload(e));
                    },
                }
                if tmp.len() > 0xFFFF {
                    return Err(WriteError::Payload(FieldError::Oversize));
                }
                let h2 = SimpleHeader {
                    pkt_type: h.pkt_type,
                    unprotected_payload_length: tmp.len() as u16,
                    protected_payload_length: 0,
                    version: h.version,
                };
                let mut out: Vec<u8> = Vec::new();
                write_simple_header(&mut out, &h2);
                write_bytes(&mut out, tmp.as_slice());
                proof {
                    assert(out@ =~= datagram_of(patched(self@), state_keys(*state)));
                }
                Ok(out)
            },
            Packet::DiscoveryRequest(h, x) => {
                if !matches!(h.pkt_type, Type::DiscoveryRequest) {
                    return Err(WriteError::Payload(FieldError::Unsupported));
                }
                let mut tmp: Vec<u8> = Vec::new();
                crate::packet::simple::write_discovery_request(&mut tmp, x);
                let h2 = SimpleHeader {
                    pkt_type: h.pkt_type,
                    unprotected_payload_length: tmp.len() as u16,
                    protected_payload_length: 0,
                    version: h.version,
                };
                let mut out: Vec<u8> = Vec::new();
                write_simple_header(&mut out, &h2);
                write_bytes(&mut out, tmp.as_slice());
                proof {
                    assert(out@ =~= datagram_of(patched(self@), state_keys(*state)));
                }
                Ok(out)
            },
            Packet::DiscoveryResponse(h, x) => {
                if !matches!(h.pkt_type, Type::DiscoveryResponse) {
                    return Err(WriteError::Payload(FieldError::Unsupported));
                }
                let mut tmp: Vec<u8> = Vec::new();
                match crate::packet::simple::write_discovery_response(&mut tmp, x) {
                    Ok(()) => (),
                    Err(e) => {
                        return Err(WriteError::Payload(e));
                    },
                }
                if tmp.len() > 0xFFFF {
                    return Err(WriteError::Payload(FieldError::Oversize));
                }
                let h2 = SimpleHeader {
                    pkt_type: h.pkt_type,
                    unprotected_payload_length: tmp.len() as u16,
                    protected_payload_length: 0,
                    version: h.version,
                };
                let mut out: Vec<u8> = Vec::new();
                write_simple_header(&mut out, &h2);
                write_bytes(&mut out, tmp.as_slice());
                proof {
                    assert(out@ =~= datagram_of(patched(self@), state_keys(*state)));
                }
                Ok(out)
            },
            Packet::ConnectRequest(h, u, pr) => {
                if !matches!(h.pkt_type, Type::ConnectRequest) {
                    return Err(WriteError::Payload(FieldError::Unsupported));
                }
                let mut out: Vec<u8> = Vec::new();
                write_simple_header(&mut out, h);
                crate::packet::simple::write_connect_request_unprotected(&mut out, u);
                proof {
                    assert(out@ =~= datagram_of(patched(self@), state_keys(*state)));
                }
                Ok(out)
            },
            Packet::ConnectResponse(h, u, pr) => encode_connect_response(h, u, pr, state),
            Packet::Message(h, m) => encode_message(h, m, state),
        }
    }
}


/// Round-trip identity: a packet that decoded from a datagram re-serializes
/// to that same datagram, byte for byte — its length fields already carry
/// the true region lengths, so patching changes nothing, and its datagram
/// image is exactly the input.
pub proof fn lemma_decode_encode(d: Seq<u8>, s: SGState, p: PacketModel)
    requires
        decode_rel(d, s, p),
    ensures
        patched(p) == p,
        datagram_of(patched(p), state_keys(s)) == d,
{
    match p {
        PacketModel::PowerOnRequest(h, x) => {
            assert(h == SimpleHeader {
                unprotected_payload_length: power_on_request_bytes(x).len() as u16,
                protected_payload_length: 0,
                ..h
            });
        },
        PacketModel::DiscoveryRequest(h, x) => {
            assert(h == SimpleHeader {
                unprotected_payload_length: discovery_request_bytes(x).len() as u16,
                protected_payload_length: 0,
                ..h
            });
        },
        PacketModel::DiscoveryResponse(h, x) => {
            assert(h == SimpleHeader {
                unprotected_payload_length: discovery_response_bytes(x).len() as u16,
                protected_payload_length: 0,
                ..h
            });
        },
        PacketModel::ConnectRequest(..) => {
            assert(false);
        },
        PacketModel::ConnectResponse(h, iv, pr) => {
            assert(h == SimpleHeader {
                unprotected_payload_length: 16,
                protected_payload_length: connect_response_protected_bytes(pr).len() as u16,
                ..h
            });
        },
        PacketModel::Message(h, m) => {
            assert(h == MessageHeader {
                protected_payload_length: message_bytes(m).len() as u16,
                ..h
            });
        },
    }
}

} // verus!
