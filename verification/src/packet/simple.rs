//! The simple packets: their header, whose layout depends on the packet
//! kind, and the payloads of the discovery, power-on and connect flows.

use vstd::prelude::*;

use crate::bytes::{
    be16, be32, lemma_be16_of, lemma_be32_of, read_arr, read_u16, read_u32, write_bytes, write_u16,
    write_u32, FieldError,
};
use crate::packet::{spec_has_protected, type_code, ReadError, Type};
use crate::util::{
    cert_at, cert_bytes, cert_wf, pk_bytes, read_certificate, read_publickey, read_sgstring,
    read_uuid, read_uuid_text, sg_at, sg_bytes, sg_wf, uuid_text_at, uuid_text_bytes,
    write_certificate, write_publickey, write_sgstring, write_uuid, write_uuid_text, CertModel,
    Certificate, PublicKey, SGString, UUID,
};

verus! {

// ---------------------------------------------------------------------------
// SimpleHeader
// ---------------------------------------------------------------------------
/// The header of every packet kind but `Message`: kind, unprotected region
/// length, protected region length (present only for the connect kinds),
/// and version.
#[derive(Clone, Copy, Debug, PartialEq, Eq, Structural)]
pub struct SimpleHeader {
    pub pkt_type: Type,
    pub unprotected_payload_length: u16,
    pub protected_payload_length: u16,
    pub version: u16,
}

impl SimpleHeader {
    /// A header for `pkt_type` with zero lengths; the codec fills the
    /// lengths in when it serializes the payloads.
    pub fn new(pkt_type: Type, version: u16) -> (r: SimpleHeader)
        ensures
            r == (SimpleHeader {
                pkt_type,
                unprotected_payload_length: 0,
                protected_payload_length: 0,
                version,
            }),
    {
        SimpleHeader {
            pkt_type,
            unprotected_payload_length: 0,
            protected_payload_length: 0,
            version,
        }
    }
}

/// A header value the wire can carry: the protected length field exists
/// only for the kinds with a protected region.
pub open spec fn sheader_wf(h: SimpleHeader) -> bool {
    !spec_has_protected(h.pkt_type) ==> h.protected_payload_length == 0
}

/// The wire image of a simple header: 8 bytes for the connect kinds, 6 for
/// the rest.
pub open spec fn sheader_bytes(h: SimpleHeader) -> Seq<u8> {
    be16(type_code(h.pkt_type)) + be16(h.unprotected_payload_length) + (if spec_has_protected(
        h.pkt_type,
    ) {
        be16(h.protected_payload_length)
    } else {
        Seq::empty()
    }) + be16(h.version)
}

/// The header region stands at the start of `d` and ends at `j`.
pub open spec fn sheader_at(d: Seq<u8>, h: SimpleHeader, j: int) -> bool {
    &&& sheader_wf(h)
    &&& j == sheader_bytes(h).len()
    &&& j <= d.len()
    &&& d.subrange(0, j) == sheader_bytes(h)
}

/// Reads the simple header at the start of `d`.
pub fn parse_simple_header(d: &[u8]) -> (r: Result<(SimpleHeader, usize), ReadError>)
    ensures
        r matches Ok((h, j)) ==> sheader_at(d@, h, j as int),
        forall|h: SimpleHeader, j: int|
            #[trigger] sheader_at(d@, h, j) ==> (r matches Ok(p) && p.0 == h && p.1 == j),
        r matches Err(e) ==> e == ReadError::Truncated || e == ReadError::UnknownKind,
{
    proof {
        assert forall|h: SimpleHeader, j: int| #[trigger]
            sheader_at(d@, h, j) implies d@.subrange(0, 2) =~= be16(type_code(h.pkt_type)) && (j
            == if spec_has_protected(h.pkt_type) {
            8int
        } else {
            6int
        }) && d@.subrange(2, 4) =~= be16(h.unprotected_payload_length) && (spec_has_protected(
            h.pkt_type,
        ) ==> d@.subrange(4, 6) =~= be16(h.protected_payload_length)) && d@.subrange(j - 2, j)
            =~= be16(h.version) by {
            let mid = if spec_has_protected(h.pkt_type) {
                be16(h.protected_payload_length)
            } else {
                Seq::<u8>::empty()
            };
            crate::bytes::lemma_region4(
                d@,
                0,
                be16(type_code(h.pkt_type)),
                be16(h.unprotected_payload_length),
                mid,
                be16(h.version),
            );
        }
    }
    let (code, p1) = match read_u16(d, 0) {
        Ok(v) => v,
        Err(_) => {
            return Err(ReadError::Truncated);
        },
    };
    let pkt_type = match Type::from_code(code) {
        Some(t) => t,
        None => {
            proof {
                assert forall|h: SimpleHeader, j: int| !sheader_at(d@, h, j) by {
                    if sheader_at(d@, h, j) {
                        crate::packet::lemma_type_code(h.pkt_type);
                        lemma_be16_of(type_code(h.pkt_type));
                    }
                }
            }
            return Err(ReadError::UnknownKind);
        },
    };
    let (unprotected_payload_length, p2) = match read_u16(d, p1) {
        Ok(v) => v,
        Err(_) => {
            return Err(ReadError::Truncated);
        },
    };
    let (protected_payload_length, p3) = if pkt_type.has_protected_data() {
        match read_u16(d, p2) {
            Ok(v) => v,
            Err(_) => {
                return Err(ReadError::Truncated);
            },
        }
    } else {
        (0u16, p2)
    };
    let (version, j) = match read_u16(d, p3) {
        Ok(v) => v,
        Err(_) => {
            return Err(ReadError::Truncated);
        },
    };
    let h = SimpleHeader { pkt_type, unprotected_payload_length, protected_payload_length, version };
    proof {
        crate::packet::lemma_type_code(pkt_type);
        lemma_be16_of(type_code(pkt_type));
        assert(sheader_bytes(h) =~= d@.subrange(0, j as int));
        assert forall|h2: SimpleHeader, j2: int| #[trigger]
            sheader_at(d@, h2, j2) implies h2 == h && j2 == j as int by {
            lemma_be16_of(type_code(h2.pkt_type));
            crate::packet::lemma_type_code(h2.pkt_type);
            lemma_be16_of(h2.unprotected_payload_length);
            lemma_be16_of(h2.protected_payload_length);
            lemma_be16_of(h2.version);
            assert(h2.pkt_type == pkt_type);
            assert(h2.unprotected_payload_length == unprotected_payload_length);
            assert(h2.protected_payload_length == protected_payload_length);
            assert(h2.version == version);
        }
    }
    Ok((h, j))
}

/// Appends the wire image of a simple header.
pub fn write_simple_header(out: &mut Vec<u8>, h: &SimpleHeader)
    ensures
        final(out)@ =~= old(out)@ + sheader_bytes(*h),
{
    write_u16(out, h.pkt_type.code());
    write_u16(out, h.unprotected_payload_length);
    if h.pkt_type.has_protected_data() {
        write_u16(out, h.protected_payload_length);
    }
    write_u16(out, h.version);
}

// ---------------------------------------------------------------------------
// DiscoveryRequestData
// ---------------------------------------------------------------------------
/// The discovery request payload.
#[derive(Clone, Copy, Debug, PartialEq, Eq, Structural)]
pub struct DiscoveryRequestData {
    pub flags: u32,
    pub client_type: u16,
    pub minimum_version: u16,
    pub maximum_version: u16,
}

/// The wire image of a discovery request payload: 10 bytes.
pub open spec fn discovery_request_bytes(q: DiscoveryRequestData) -> Seq<u8> {
    be32(q.flags) + be16(q.client_type) + be16(q.minimum_version) + be16(q.maximum_version)
}

/// Reads a whole discovery request payload.
pub fn parse_discovery_request(d: &[u8]) -> (r: Result<DiscoveryRequestData, FieldError>)
    ensures
        r matches Ok(p) ==> discovery_request_bytes(p) == d@,
        forall|q: DiscoveryRequestData|
            #[trigger] discovery_request_bytes(q) == d@ ==> (r matches Ok(p) && p == q),
        r matches Err(e) ==> e == FieldError::Truncated || e == FieldError::Leftover,
{
    proof {
        assert forall|q: DiscoveryRequestData|
            discovery_request_bytes(q) == d@ implies d@.len() == 10 && d@.subrange(0, 4) =~= be32(
            q.flags,
        ) && d@.subrange(4, 6) =~= be16(q.client_type) && d@.subrange(6, 8) =~= be16(
            q.minimum_version,
        ) && d@.subrange(8, 10) =~= be16(q.maximum_version) by {
            assert(d@.subrange(0, 10) =~= d@);
            crate::bytes::lemma_region4(
                d@,
                0,
                be32(q.flags),
                be16(q.client_type),
                be16(q.minimum_version),
                be16(q.maximum_version),
            );
        }
    }
    let (flags, p1) = match read_u32(d, 0) {
        Ok(v) => v,
        Err(e) => {
            return Err(e);
        },
    };
    let (client_type, p2) = match read_u16(d, p1) {
        Ok(v) => v,
        Err(e) => {
            return Err(e);
        },
    };
    let (minimum_version, p3) = match read_u16(d, p2) {
        Ok(v) => v,
        Err(e) => {
            return Err(e);
        },
    };
    let (maximum_version, p4) = match read_u16(d, p3) {
        Ok(v) => v,
        Err(e) => {
            return Err(e);
        },
    };
    if p4 != d.len() {
        return Err(FieldError::Leftover);
    }
    let p = DiscoveryRequestData { flags, client_type, minimum_version, maximum_version };
    proof {
        assert(discovery_request_bytes(p) =~= d@);
        assert forall|q: DiscoveryRequestData| #[trigger]
            discovery_request_bytes(q) == d@ implies q == p by {
            lemma_be32_of(q.flags);
            lemma_be16_of(q.client_type);
            lemma_be16_of(q.minimum_version);
            lemma_be16_of(q.maximum_version);
        }
    }
    Ok(p)
}

/// Appends the wire image of a discovery request payload.
pub fn write_discovery_request(out: &mut Vec<u8>, q: &DiscoveryRequestData)
    ensures
        final(out)@ =~= old(out)@ + discovery_request_bytes(*q),
{
    write_u32(out, q.flags);
    write_u16(out, q.client_type);
    write_u16(out, q.minimum_version);
    write_u16(out, q.maximum_version);
}

// ---------------------------------------------------------------------------
// ConnectResponseProtectedData
// ---------------------------------------------------------------------------
/// The protected half of a connect response.
#[derive(Clone, Copy, Debug, PartialEq, Eq, Structural)]
pub struct ConnectResponseProtectedData {
    pub connect_request: u16,
    pub pairing_state: u16,
    pub participant_id: u32,
}

/// The wire image of the protected half of a connect response: 8 bytes.
pub open spec fn connect_response_protected_bytes(q: ConnectResponseProtectedData) -> Seq<u8> {
    be16(q.connect_request) + be16(q.pairing_state) + be32(q.participant_id)
}

/// Reads a whole protected connect response half.
pub fn parse_connect_response_protected(d: &[u8]) -> (r: Result<
    ConnectResponseProtectedData,
    FieldError,
>)
    ensures
        r matches Ok(p) ==> connect_response_protected_bytes(p) == d@,
        forall|q: ConnectResponseProtectedData|
            #[trigger] connect_response_protected_bytes(q) == d@ ==> (r matches Ok(p) && p == q),
        r matches Err(e) ==> e == FieldError::Truncated || e == FieldError::Leftover,
{
    proof {
        assert forall|q: ConnectResponseProtectedData|
            connect_response_protected_bytes(q) == d@ implies d@.len() == 8 && d@.subrange(0, 2)
            =~= be16(q.connect_request) && d@.subrange(2, 4) =~= be16(q.pairing_state)
            && d@.subrange(4, 8) =~= be32(q.participant_id) by {
            assert(d@.subrange(0, 8) =~= d@);
            crate::bytes::lemma_region3(
                d@,
                0,
                be16(q.connect_request),
                be16(q.pairing_state),
                be32(q.participant_id),
            );
        }
    }
    let (connect_request, p1) = match read_u16(d, 0) {
        Ok(v) => v,
        Err(e) => {
            return Err(e);
        },
    };
    let (pairing_state, p2) = match read_u16(d, p1) {
        Ok(v) => v,
        Err(e) => {
            return Err(e);
        },
    };
    let (participant_id, p3) = match read_u32(d, p2) {
        Ok(v) => v,
        Err(e) => {
            return Err(e);
        },
    };
    if p3 != d.len() {
        return Err(FieldError::Leftover);
    }
    let p = ConnectResponseProtectedData { connect_request, pairing_state, participant_id };
    proof {
        assert(connect_response_protected_bytes(p) =~= d@);
        assert forall|q: ConnectResponseProtectedData| #[trigger]
            connect_response_protected_bytes(q) == d@ implies q == p by {
            lemma_be16_of(q.connect_request);
            lemma_be16_of(q.pairing_state);
            lemma_be32_of(q.participant_id);
        }
    }
    Ok(p)
}

/// Appends the wire image of a protected connect response half.
pub fn write_connect_response_protected(out: &mut Vec<u8>, q: &ConnectResponseProtectedData)
    ensures
        final(out)@ =~= old(out)@ + connect_response_protected_bytes(*q),
{
    write_u16(out, q.connect_request);
    write_u16(out, q.pairing_state);
    write_u32(out, q.participant_id);
}

// ---------------------------------------------------------------------------
// ConnectResponseUnprotectedData
// ---------------------------------------------------------------------------
/// The cleartext half of a connect response: the IV of its protected half.
#[derive(Clone, Copy, Debug, PartialEq, Eq)]
pub struct ConnectResponseUnprotectedData {
    pub iv: [u8; 16],
}

/// The wire image of the unprotected connect response half: the raw IV.
pub open spec fn connect_response_unprotected_bytes(iv: Seq<u8>) -> Seq<u8> {
    iv
}

/// Reads a whole unprotected connect response half.
pub fn parse_connect_response_unprotected(d: &[u8]) -> (r: Result<
    ConnectResponseUnprotectedData,
    FieldError,
>)
    ensures
        r matches Ok(p) ==> p.iv@ == d@,
        d@.len() == 16 ==> r matches Ok(p),
        r matches Err(e) ==> e == FieldError::Truncated || e == FieldError::Leftover,
{
    let (iv, j) = match read_arr::<16>(d, 0) {
        Ok(v) => v,
        Err(e) => {
            return Err(e);
        },
    };
    if j != d.len() {
        return Err(FieldError::Leftover);
    }
    proof {
        assert(iv@ =~= d@);
    }
    Ok(ConnectResponseUnprotectedData { iv })
}

/// Appends the wire image of an unprotected connect response half.
pub fn write_connect_response_unprotected(out: &mut Vec<u8>, q: &ConnectResponseUnprotectedData)
    ensures
        final(out)@ =~= old(out)@ + q.iv@,
{
    write_bytes(out, q.iv.as_slice());
}

/// The power-on request payload: the console's Live ID.
#[derive(Clone, Debug, PartialEq)]
pub struct PowerOnRequestData {
    pub live_id: SGString,
}

/// The mathematical image of a `PowerOnRequestData` value.
pub ghost struct PowerOnRequestDataModel {
    pub live_id: Seq<u8>,
}

impl View for PowerOnRequestData {
    type V = PowerOnRequestDataModel;

    open spec fn view(&self) -> PowerOnRequestDataModel {
        PowerOnRequestDataModel {
            live_id: self.live_id@,
        }
    }
}

/// A `PowerOnRequestData` image the wire can carry.
pub open spec fn power_on_request_wf(q: PowerOnRequestDataModel) -> bool {
    sg_wf(q.live_id)
}

/// The wire image of a `PowerOnRequestData`.
pub open spec fn power_on_request_bytes(q: PowerOnRequestDataModel) -> Seq<u8> {
    sg_bytes(q.live_id)
}

/// The field regions of a `PowerOnRequestData` image standing as all of `d`.
pub proof fn lemma_power_on_request_parts(d: Seq<u8>, q: PowerOnRequestDataModel)
    requires
        power_on_request_wf(q),
        power_on_request_bytes(q) == d,
    ensures
        d.len() == 0 + (sg_bytes(q.live_id).len() as int),
        d.subrange(0, 0 + (sg_bytes(q.live_id).len() as int)) =~= sg_bytes(q.live_id),
{
    assert(d.subrange(0, d.len() as int) =~= d);
    assert(d.subrange(0, d.len() as int) =~= sg_bytes(q.live_id));
}

/// Reads a whole `PowerOnRequestData` region.
pub fn parse_power_on_request(d: &[u8]) -> (r: Result<PowerOnRequestData, FieldError>)
    ensures
        r matches Ok(p) ==> power_on_request_wf(p@) && power_on_request_bytes(p@) == d@,
        forall|q: PowerOnRequestDataModel|
            (power_on_request_wf(q) && #[trigger] power_on_request_bytes(q) == d@) ==> (r matches Ok(p) && p@ == q),
{
    let (f0, p1) = match read_sgstring(d, 0) {
        Ok(v) => v,
        Err(e) => {
            proof {
                assert forall|q: PowerOnRequestDataModel| !(power_on_request_wf(q) && power_on_request_bytes(q) == d@) by {
                    if power_on_request_wf(q) && power_on_request_bytes(q) == d@ {
                        lemma_power_on_request_parts(d@, q);
                        assert(sg_at(d@, 0 as int, q.live_id, 0 + (sg_bytes(q.live_id).len() as int)));
                    }
                }
            }
            return Err(e);
        },
    };
    if p1 != d.len() {
        proof {
            assert forall|q: PowerOnRequestDataModel| !(power_on_request_wf(q) && power_on_request_bytes(q) == d@) by {
                if power_on_request_wf(q) && power_on_request_bytes(q) == d@ {
                    lemma_power_on_request_parts(d@, q);
                    assert(sg_at(d@, 0 as int, q.live_id, 0 + (sg_bytes(q.live_id).len() as int)));
                    assert(q.live_id == f0@);
                }
            }
        }
        return Err(FieldError::Leftover);
    }
    let p = PowerOnRequestData {
        live_id: f0,
    };
    proof {
        assert(power_on_request_bytes(p@) =~= d@);
        assert forall|q: PowerOnRequestDataModel| (power_on_request_wf(q) && power_on_request_bytes(q) == d@) implies p@ == q by {
            lemma_power_on_request_parts(d@, q);
            assert(sg_at(d@, 0 as int, q.live_id, 0 + (sg_bytes(q.live_id).len() as int)));
            assert(q.live_id == f0@);
            assert(q == (PowerOnRequestDataModel {
                live_id: f0@,
            }));
        }
    }
    Ok(p)
}

/// Appends the wire image of a `PowerOnRequestData`.
pub fn write_power_on_request(out: &mut Vec<u8>, q: &PowerOnRequestData) -> (r: Result<(), FieldError>)
    ensures
        r is Ok ==> final(out)@ =~= old(out)@ + power_on_request_bytes(q@),
        r is Ok <==> q@.live_id.len() <= 0xFFFF,
        r is Err ==> final(out)@ == old(out)@,
        r matches Err(e) ==> e == FieldError::Oversize,
{
    let mut tmp: Vec<u8> = Vec::new();
    match write_sgstring(&mut tmp, &q.live_id) {
        Ok(()) => (),
        Err(e) => {
            return Err(e);
        },
    }
    write_bytes(out, tmp.as_slice());
    Ok(())
}

/// The cleartext half of a connect request.
#[derive(Clone, Debug, PartialEq)]
pub struct ConnectRequestUnprotectedData {
    pub sg_uuid: UUID,
    pub public_key: PublicKey,
    pub iv: [u8; 16],
}

/// The mathematical image of a `ConnectRequestUnprotectedData` value.
pub ghost struct ConnectRequestUnprotectedDataModel {
    pub sg_uuid: Seq<u8>,
    pub public_key: PublicKey,
    pub iv: Seq<u8>,
}

impl View for ConnectRequestUnprotectedData {
    type V = ConnectRequestUnprotectedDataModel;

    open spec fn view(&self) -> ConnectRequestUnprotectedDataModel {
        ConnectRequestUnprotectedDataModel {
            sg_uuid: self.sg_uuid@,
            public_key: self.public_key,
            iv: self.iv@,
        }
    }
}

/// A `ConnectRequestUnprotectedData` image the wire can carry.
pub open spec fn connect_request_unprotected_wf(q: ConnectRequestUnprotectedDataModel) -> bool {
    &&& q.sg_uuid.len() == 16
    &&& q.iv.len() == 16
}

/// The wire image of a `ConnectRequestUnprotectedData`.
pub open spec fn connect_request_unprotected_bytes(q: ConnectRequestUnprotectedDataModel) -> Seq<u8> {
    q.sg_uuid + pk_bytes(q.public_key.key_type, q.public_key.key@) + q.iv
}

/// The field regions of a `ConnectRequestUnprotectedData` image standing as all of `d`.
pub proof fn lemma_connect_request_unprotected_parts(d: Seq<u8>, q: ConnectRequestUnprotectedDataModel)
    requires
        connect_request_unprotected_wf(q),
        connect_request_unprotected_bytes(q) == d,
    ensures
        d.len() == 0 + (q.sg_uuid.len() as int) + (pk_bytes(q.public_key.key_type, q.public_key.key@).len() as int) + (q.iv.len() as int),
        d.subrange(0, 0 + (q.sg_uuid.len() as int)) =~= q.sg_uuid,
        d.subrange(0 + (q.sg_uuid.len() as int), 0 + (q.sg_uuid.len() as int) + (pk_bytes(q.public_key.key_type, q.public_key.key@).len() as int)) =~= pk_bytes(q.public_key.key_type, q.public_key.key@),
        d.subrange(0 + (q.sg_uuid.len() as int) + (pk_bytes(q.public_key.key_type, q.public_key.key@).len() as int), 0 + (q.sg_uuid.len() as int) + (pk_bytes(q.public_key.key_type, q.public_key.key@).len() as int) + (q.iv.len() as int)) =~= q.iv,
{
    assert(d.subrange(0, d.len() as int) =~= d);
    crate::bytes::lemma_region3(
        d,
        0,
        q.sg_uuid,
        pk_bytes(q.public_key.key_type, q.public_key.key@),
        q.iv,
    );
}

/// Reads a whole `ConnectRequestUnprotectedData` region.
pub fn parse_connect_request_unprotected(d: &[u8]) -> (r: Result<ConnectRequestUnprotectedData, FieldError>)
    ensures
        r matches Ok(p) ==> connect_request_unprotected_wf(p@) && connect_request_unprotected_bytes(p@) == d@,
        forall|q: ConnectRequestUnprotectedDataModel|
            (connect_request_unprotected_wf(q) && #[trigger] connect_request_unprotected_bytes(q) == d@) ==> (r matches Ok(p) && p@ == q),
{
    let (f0, p1) = match read_uuid(d, 0) {
        Ok(v) => v,
        Err(e) => {
            proof {
                assert forall|q: ConnectRequestUnprotectedDataModel| !(connect_request_unprotected_wf(q) && connect_request_unprotected_bytes(q) == d@) by {
                    if connect_request_unprotected_wf(q) && connect_request_unprotected_bytes(q) == d@ {
                        lemma_connect_request_unprotected_parts(d@, q);
                    }
                }
            }
            return Err(e);
        },
    };
    let (f1, p2) = match read_publickey(d, p1) {
        Ok(v) => v,
        Err(e) => {
            proof {
                assert forall|q: ConnectRequestUnprotectedDataModel| !(connect_request_unprotected_wf(q) && connect_request_unprotected_bytes(q) == d@) by {
                    if connect_request_unprotected_wf(q) && connect_request_unprotected_bytes(q) == d@ {
                        lemma_connect_request_unprotected_parts(d@, q);
                        assert(q.sg_uuid =~= f0@);
                    }
                }
            }
            return Err(e);
        },
    };
    let (f2, p3) = match read_arr::<16>(d, p2) {
        Ok(v) => v,
        Err(e) => {
            proof {
                assert forall|q: ConnectRequestUnprotectedDataModel| !(connect_request_unprotected_wf(q) && connect_request_unprotected_bytes(q) == d@) by {
                    if connect_request_unprotected_wf(q) && connect_request_unprotected_bytes(q) == d@ {
                        lemma_connect_request_unprotected_parts(d@, q);
                        assert(q.sg_uuid =~= f0@);
                        crate::bytes::lemma_region(d@, p1 as int, be16(q.public_key.key_type), q.public_key.key@);
                        crate::bytes::lemma_region(d@, p1 as int, be16(f1.key_type), f1.key@);
                        crate::bytes::lemma_be16_of(q.public_key.key_type);
                        crate::bytes::lemma_be16_of(f1.key_type);
                        assert(q.public_key.key =~= f1.key);
                        assert(q.public_key == f1);
                    }
                }
            }
            return Err(e);
        },
    };
    if p3 != d.len() {
        proof {
            assert forall|q: ConnectRequestUnprotectedDataModel| !(connect_request_unprotected_wf(q) && connect_request_unprotected_bytes(q) == d@) by {
                if connect_request_unprotected_wf(q) && connect_request_unprotected_bytes(q) == d@ {
                    lemma_connect_request_unprotected_parts(d@, q);
                    assert(q.sg_uuid =~= f0@);
                    crate::bytes::lemma_region(d@, p1 as int, be16(q.public_key.key_type), q.public_key.key@);
                    crate::bytes::lemma_region(d@, p1 as int, be16(f1.key_type), f1.key@);
                    crate::bytes::lemma_be16_of(q.public_key.key_type);
                    crate::bytes::lemma_be16_of(f1.key_type);
                    assert(q.public_key.key =~= f1.key);
                    assert(q.public_key == f1);
                    assert(q.iv =~= f2@);
                }
            }
        }
        return Err(FieldError::Leftover);
    }
    let p = ConnectRequestUnprotectedData {
        sg_uuid: f0,
        public_key: f1,
        iv: f2,
    };
    proof {
        assert(connect_request_unprotected_bytes(p@) =~= d@);
        assert forall|q: ConnectRequestUnprotectedDataModel| (connect_request_unprotected_wf(q) && connect_request_unprotected_bytes(q) == d@) implies p@ == q by {
            lemma_connect_request_unprotected_parts(d@, q);
            assert(q.sg_uuid =~= f0@);
            crate::bytes::lemma_region(d@, p1 as int, be16(q.public_key.key_type), q.public_key.key@);
            crate::bytes::lemma_region(d@, p1 as int, be16(f1.key_type), f1.key@);
            crate::bytes::lemma_be16_of(q.public_key.key_type);
            crate::bytes::lemma_be16_of(f1.key_type);
            assert(q.public_key.key =~= f1.key);
            assert(q.public_key == f1);
            assert(q.iv =~= f2@);
            assert(q == (ConnectRequestUnprotectedDataModel {
                sg_uuid: f0@,
                public_key: f1,
                iv: f2@,
            }));
        }
    }
    Ok(p)
}

/// Appends the wire image of a `ConnectRequestUnprotectedData`.
pub fn write_connect_request_unprotected(out: &mut Vec<u8>, q: &ConnectRequestUnprotectedData)
    ensures
        final(out)@ =~= old(out)@ + connect_request_unprotected_bytes(q@),
{
    write_uuid(out, &q.sg_uuid);
    write_publickey(out, &q.public_key);
    write_bytes(out, q.iv.as_slice());
}

/// The protected half of a connect request.
#[derive(Clone, Debug, PartialEq)]
pub struct ConnectRequestProtectedData {
    pub userhash: SGString,
    pub jwt: SGString,
    pub request_num: u32,
    pub request_group_start: u32,
    pub request_group_end: u32,
}

/// The mathematical image of a `ConnectRequestProtectedData` value.
pub ghost struct ConnectRequestProtectedDataModel {
    pub userhash: Seq<u8>,
    pub jwt: Seq<u8>,
    pub request_num: u32,
    pub request_group_start: u32,
    pub request_group_end: u32,
}

impl View for ConnectRequestProtectedData {
    type V = ConnectRequestProtectedDataModel;

    open spec fn view(&self) -> ConnectRequestProtectedDataModel {
        ConnectRequestProtectedDataModel {
            userhash: self.userhash@,
            jwt: self.jwt@,
            request_num: self.request_num,
            request_group_start: self.request_group_start,
            request_group_end: self.request_group_end,
        }
    }
}

/// A `ConnectRequestProtectedData` image the wire can carry.
pub open spec fn connect_request_protected_wf(q: ConnectRequestProtectedDataModel) -> bool {
    &&& sg_wf(q.userhash)
    &&& sg_wf(q.jwt)
}

/// The wire image of a `ConnectRequestProtectedData`.
pub open spec fn connect_request_protected_bytes(q: ConnectRequestProtectedDataModel) -> Seq<u8> {
    sg_bytes(q.userhash) + sg_bytes(q.jwt) + be32(q.request_num) + be32(q.request_group_start) + be32(q.request_group_end)
}

/// The field regions of a `ConnectRequestProtectedData` image standing as all of `d`.
pub proof fn lemma_connect_request_protected_parts(d: Seq<u8>, q: ConnectRequestProtectedDataModel)
    requires
        connect_request_protected_wf(q),
        connect_request_protected_bytes(q) == d,
    ensures
        d.len() == 0 + (sg_bytes(q.userhash).len() as int) + (sg_bytes(q.jwt).len() as int) + (be32(q.request_num).len() as int) + (be32(q.request_group_start).len() as int) + (be32(q.request_group_end).len() as int),
        d.subrange(0, 0 + (sg_bytes(q.userhash).len() as int)) =~= sg_bytes(q.userhash),
        d.subrange(0 + (sg_bytes(q.userhash).len() as int), 0 + (sg_bytes(q.userhash).len() as int) + (sg_bytes(q.jwt).len() as int)) =~= sg_bytes(q.jwt),
        d.subrange(0 + (sg_bytes(q.userhash).len() as int) + (sg_bytes(q.jwt).len() as int), 0 + (sg_bytes(q.userhash).len() as int) + (sg_bytes(q.jwt).len() as int) + (be32(q.request_num).len() as int)) =~= be32(q.request_num),
        d.subrange(0 + (sg_bytes(q.userhash).len() as int) + (sg_bytes(q.jwt).len() as int) + (be32(q.request_num).len() as int), 0 + (sg_bytes(q.userhash).len() as int) + (sg_bytes(q.jwt).len() as int) + (be32(q.request_num).len() as int) + (be32(q.request_group_start).len() as int)) =~= be32(q.request_group_start),
        d.subrange(0 + (sg_bytes(q.userhash).len() as int) + (sg_bytes(q.jwt).len() as int) + (be32(q.request_num).len() as int) + (be32(q.request_group_start).len() as int), 0 + (sg_bytes(q.userhash).len() as int) + (sg_bytes(q.jwt).len() as int) + (be32(q.request_num).len() as int) + (be32(q.request_group_start).len() as int) + (be32(q.request_group_end).len() as int)) =~= be32(q.request_group_end),
{
    assert(d.subrange(0, d.len() as int) =~= d);
    crate::bytes::lemma_region5(
        d,
        0,
        sg_bytes(q.userhash),
        sg_bytes(q.jwt),
        be32(q.request_num),
        be32(q.request_group_start),
        be32(q.request_group_end),
    );
}

/// Reads a whole `ConnectRequestProtectedData` region.
#[verifier::rlimit(100)]
#[verifier::spinoff_prover]
pub fn parse_connect_request_protected(d: &[u8]) -> (r: Result<ConnectRequestProtectedData, FieldError>)
    ensures
        r matches Ok(p) ==> connect_request_protected_wf(p@) && connect_request_protected_bytes(p@) == d@,
        forall|q: ConnectRequestProtectedDataModel|
            (connect_request_protected_wf(q) && #[trigger] connect_request_protected_bytes(q) == d@) ==> (r matches Ok(p) && p@ == q),
{
    let (f0, p1) = match read_sgstring(d, 0) {
        Ok(v) => v,
        Err(e) => {
            proof {
                assert forall|q: ConnectRequestProtectedDataModel| !(connect_request_protected_wf(q) && connect_request_protected_bytes(q) == d@) by {
                    if connect_request_protected_wf(q) && connect_request_protected_bytes(q) == d@ {
                        lemma_connect_request_protected_parts(d@, q);
                        assert(sg_at(d@, 0 as int, q.userhash, 0 + (sg_bytes(q.userhash).len() as int)));
                    }
                }
            }
            return Err(e);
        },
    };
    let (f1, p2) = match read_sgstring(d, p1) {
        Ok(v) => v,
        Err(e) => {
            proof {
                assert forall|q: ConnectRequestProtectedDataModel| !(connect_request_protected_wf(q) && connect_request_protected_bytes(q) == d@) by {
                    if connect_request_protected_wf(q) && connect_request_protected_bytes(q) == d@ {
                        lemma_connect_request_protected_parts(d@, q);
                        assert(sg_at(d@, 0 as int, q.userhash, 0 + (sg_bytes(q.userhash).len() as int)));
                        assert(q.userhash == f0@);
                        assert(sg_at(d@, p1 as int, q.jwt, p1 + (sg_bytes(q.jwt).len() as int)));
                    }
                }
            }
            return Err(e);
        },
    };
    let (f2, p3) = match read_u32(d, p2) {
        Ok(v) => v,
        Err(e) => {
            proof {
                assert forall|q: ConnectRequestProtectedDataModel| !(connect_request_protected_wf(q) && connect_request_protected_bytes(q) == d@) by {
                    if connect_request_protected_wf(q) && connect_request_protected_bytes(q) == d@ {
                        lemma_connect_request_protected_parts(d@, q);
                        assert(sg_at(d@, 0 as int, q.userhash, 0 + (sg_bytes(q.userhash).len() as int)));
                        assert(q.userhash == f0@);
                        assert(sg_at(d@, p1 as int, q.jwt, p1 + (sg_bytes(q.jwt).len() as int)));
                        assert(q.jwt == f1@);
                    }
                }
            }
            return Err(e);
        },
    };
    let (f3, p4) = match read_u32(d, p3) {
        Ok(v) => v,
        Err(e) => {
            proof {
                assert forall|q: ConnectRequestProtectedDataModel| !(connect_request_protected_wf(q) && connect_request_protected_bytes(q) == d@) by {
                    if connect_request_protected_wf(q) && connect_request_protected_bytes(q) == d@ {
                        lemma_connect_request_protected_parts(d@, q);
                        assert(sg_at(d@, 0 as int, q.userhash, 0 + (sg_bytes(q.userhash).len() as int)));
                        assert(q.userhash == f0@);
                        assert(sg_at(d@, p1 as int, q.jwt, p1 + (sg_bytes(q.jwt).len() as int)));
                        assert(q.jwt == f1@);
                        crate::bytes::lemma_be32_of(q.request_num);
                        assert(q.request_num == f2);
                    }
                }
            }
            return Err(e);
        },
    };
    let (f4, p5) = match read_u32(d, p4) {
        Ok(v) => v,
        Err(e) => {
            proof {
                assert forall|q: ConnectRequestProtectedDataModel| !(connect_request_protected_wf(q) && connect_request_protected_bytes(q) == d@) by {
                    if connect_request_protected_wf(q) && connect_request_protected_bytes(q) == d@ {
                        lemma_connect_request_protected_parts(d@, q);
                        assert(sg_at(d@, 0 as int, q.userhash, 0 + (sg_bytes(q.userhash).len() as int)));
                        assert(q.userhash == f0@);
                        assert(sg_at(d@, p1 as int, q.jwt, p1 + (sg_bytes(q.jwt).len() as int)));
                        assert(q.jwt == f1@);
                        crate::bytes::lemma_be32_of(q.request_num);
                        assert(q.request_num == f2);
                        crate::bytes::lemma_be32_of(q.request_group_start);
                        assert(q.request_group_start == f3);
                    }
                }
            }
            return Err(e);
        },
    };
    if p5 != d.len() {
        proof {
            assert forall|q: ConnectRequestProtectedDataModel| !(connect_request_protected_wf(q) && connect_request_protected_bytes(q) == d@) by {
                if connect_request_protected_wf(q) && connect_request_protected_bytes(q) == d@ {
                    lemma_connect_request_protected_parts(d@, q);
                    assert(sg_at(d@, 0 as int, q.userhash, 0 + (sg_bytes(q.userhash).len() as int)));
                    assert(q.userhash == f0@);
                    assert(sg_at(d@, p1 as int, q.jwt, p1 + (sg_bytes(q.jwt).len() as int)));
                    assert(q.jwt == f1@);
                    crate::bytes::lemma_be32_of(q.request_num);
                    assert(q.request_num == f2);
                    crate::bytes::lemma_be32_of(q.request_group_start);
                    assert(q.request_group_start == f3);
                    crate::bytes::lemma_be32_of(q.request_group_end);
                    assert(q.request_group_end == f4);
                }
            }
        }
        return Err(FieldError::Leftover);
    }
    let p = ConnectRequestProtectedData {
        userhash: f0,
        jwt: f1,
        request_num: f2,
        request_group_start: f3,
        request_group_end: f4,
    };
    proof {
        assert(connect_request_protected_bytes(p@) =~= d@);
        assert forall|q: ConnectRequestProtectedDataModel| (connect_request_protected_wf(q) && connect_request_protected_bytes(q) == d@) implies p@ == q by {
            lemma_connect_request_protected_parts(d@, q);
            assert(sg_at(d@, 0 as int, q.userhash, 0 + (sg_bytes(q.userhash).len() as int)));
            assert(q.userhash == f0@);
            assert(sg_at(d@, p1 as int, q.jwt, p1 + (sg_bytes(q.jwt).len() as int)));
            assert(q.jwt == f1@);
            crate::bytes::lemma_be32_of(q.request_num);
            assert(q.request_num == f2);
            crate::bytes::lemma_be32_of(q.request_group_start);
            assert(q.request_group_start == f3);
            crate::bytes::lemma_be32_of(q.request_group_end);
            assert(q.request_group_end == f4);
            assert(q == (ConnectRequestProtectedDataModel {
                userhash: f0@,
                jwt: f1@,
                request_num: f2,
                request_group_start: f3,
                request_group_end: f4,
            }));
        }
    }
    Ok(p)
}

/// Appends the wire image of a `ConnectRequestProtectedData`.
pub fn write_connect_request_protected(out: &mut Vec<u8>, q: &ConnectRequestProtectedData) -> (r: Result<(), FieldError>)
    ensures
        r is Ok ==> final(out)@ =~= old(out)@ + connect_request_protected_bytes(q@),
        r is Ok <==> q@.userhash.len() <= 0xFFFF && q@.jwt.len() <= 0xFFFF,
        r is Err ==> final(out)@ == old(out)@,
        r matches Err(e) ==> e == FieldError::Oversize,
{
    let mut tmp: Vec<u8> = Vec::new();
    match write_sgstring(&mut tmp, &q.userhash) {
        Ok(()) => (),
        Err(e) => {
            return Err(e);
        },
    }
    match write_sgstring(&mut tmp, &q.jwt) {
        Ok(()) => (),
        Err(e) => {
            return Err(e);
        },
    }
    write_u32(&mut tmp, q.request_num);
    write_u32(&mut tmp, q.request_group_start);
    write_u32(&mut tmp, q.request_group_end);
    write_bytes(out, tmp.as_slice());
    Ok(())
}

/// The discovery response payload, certificate included.
#[derive(Clone, Debug, PartialEq)]
pub struct DiscoveryResponseData {
    pub flags: u32,
    pub client_type: u16,
    pub name: SGString,
    pub uuid: UUID,
    pub padding: [u8; 5],
    pub certificate: Certificate,
}

/// The mathematical image of a `DiscoveryResponseData` value.
pub ghost struct DiscoveryResponseDataModel {
    pub flags: u32,
    pub client_type: u16,
    pub name: Seq<u8>,
    pub uuid: Seq<u8>,
    pub padding: Seq<u8>,
    pub certificate: CertModel,
}

impl View for DiscoveryResponseData {
    type V = DiscoveryResponseDataModel;

    open spec fn view(&self) -> DiscoveryResponseDataModel {
        DiscoveryResponseDataModel {
            flags: self.flags,
            client_type: self.client_type,
            name: self.name@,
            uuid: self.uuid@,
            padding: self.padding@,
            certificate: self.certificate@,
        }
    }
}

/// A `DiscoveryResponseData` image the wire can carry.
pub open spec fn discovery_response_wf(q: DiscoveryResponseDataModel) -> bool {
    &&& sg_wf(q.name)
    &&& q.uuid.len() == 16
    &&& q.padding.len() == 5
    &&& cert_wf(q.certificate)
}

/// The wire image of a `DiscoveryResponseData`.
pub open spec fn discovery_response_bytes(q: DiscoveryResponseDataModel) -> Seq<u8> {
    be32(q.flags) + be16(q.client_type) + sg_bytes(q.name) + uuid_text_bytes(q.uuid) + q.padding + cert_bytes(q.certificate)
}

/// The field regions of a `DiscoveryResponseData` image standing as all of `d`.
pub proof fn lemma_discovery_response_parts(d: Seq<u8>, q: DiscoveryResponseDataModel)
    requires
        discovery_response_wf(q),
        discovery_response_bytes(q) == d,
    ensures
        d.len() == 0 + (be32(q.flags).len() as int) + (be16(q.client_type).len() as int) + (sg_bytes(q.name).len() as int) + (uuid_text_bytes(q.uuid).len() as int) + (q.padding.len() as int) + (cert_bytes(q.certificate).len() as int),
        d.subrange(0, 0 + (be32(q.flags).len() as int)) =~= be32(q.flags),
        d.subrange(0 + (be32(q.flags).len() as int), 0 + (be32(q.flags).len() as int) + (be16(q.client_type).len() as int)) =~= be16(q.client_type),
        d.subrange(0 + (be32(q.flags).len() as int) + (be16(q.client_type).len() as int), 0 + (be32(q.flags).len() as int) + (be16(q.client_type).len() as int) + (sg_bytes(q.name).len() as int)) =~= sg_bytes(q.name),
        d.subrange(0 + (be32(q.flags).len() as int) + (be16(q.client_type).len() as int) + (sg_bytes(q.name).len() as int), 0 + (be32(q.flags).len() as int) + (be16(q.client_type).len() as int) + (sg_bytes(q.name).len() as int) + (uuid_text_bytes(q.uuid).len() as int)) =~= uuid_text_bytes(q.uuid),
        d.subrange(0 + (be32(q.flags).len() as int) + (be16(q.client_type).len() as int) + (sg_bytes(q.name).len() as int) + (uuid_text_bytes(q.uuid).len() as int), 0 + (be32(q.flags).len() as int) + (be16(q.client_type).len() as int) + (sg_bytes(q.name).len() as int) + (uuid_text_bytes(q.uuid).len() as int) + (q.padding.len() as int)) =~= q.padding,
        d.subrange(0 + (be32(q.flags).len() as int) + (be16(q.client_type).len() as int) + (sg_bytes(q.name).len() as int) + (uuid_text_bytes(q.uuid).len() as int) + (q.padding.len() as int), 0 + (be32(q.flags).len() as int) + (be16(q.client_type).len() as int) + (sg_bytes(q.name).len() as int) + (uuid_text_bytes(q.uuid).len() as int) + (q.padding.len() as int) + (cert_bytes(q.certificate).len() as int)) =~= cert_bytes(q.certificate),
{
    assert(d.subrange(0, d.len() as int) =~= d);
    crate::bytes::lemma_region6(
        d,
        0,
        be32(q.flags),
        be16(q.client_type),
        sg_bytes(q.name),
        uuid_text_bytes(q.uuid),
        q.padding,
        cert_bytes(q.certificate),
    );
}

/// Reads a whole `DiscoveryResponseData` region.
pub fn parse_discovery_response(d: &[u8]) -> (r: Result<DiscoveryResponseData, FieldError>)
    ensures
        r matches Ok(p) ==> discovery_response_wf(p@) && discovery_response_bytes(p@) == d@,
        forall|q: DiscoveryResponseDataModel|
            (discovery_response_wf(q) && #[trigger] discovery_response_bytes(q) == d@) ==> ((r matches Ok(p) && p@ == q) || r == Err::<DiscoveryResponseData, FieldError>(FieldError::Certificate)),
{
    let (f0, p1) = match read_u32(d, 0) {
        Ok(v) => v,
        Err(e) => {
            proof {
                assert forall|q: DiscoveryResponseDataModel| !(discovery_response_wf(q) && discovery_response_bytes(q) == d@) by {
                    if discovery_response_wf(q) && discovery_response_bytes(q) == d@ {
                        lemma_discovery_response_parts(d@, q);
                    }
                }
            }
            return Err(e);
        },
    };
    let (f1, p2) = match read_u16(d, p1) {
        Ok(v) => v,
        Err(e) => {
            proof {
                assert forall|q: DiscoveryResponseDataModel| !(discovery_response_wf(q) && discovery_response_bytes(q) == d@) by {
                    if discovery_response_wf(q) && discovery_response_bytes(q) == d@ {
                        lemma_discovery_response_parts(d@, q);
                        crate::bytes::lemma_be32_of(q.flags);
                        assert(q.flags == f0);
                    }
                }
            }
            return Err(e);
        },
    };
    let (f2, p3) = match read_sgstring(d, p2) {
        Ok(v) => v,
        Err(e) => {
            proof {
                assert forall|q: DiscoveryResponseDataModel| !(discovery_response_wf(q) && discovery_response_bytes(q) == d@) by {
                    if discovery_response_wf(q) && discovery_response_bytes(q) == d@ {
                        lemma_discovery_response_parts(d@, q);
                        crate::bytes::lemma_be32_of(q.flags);
                        assert(q.flags == f0);
                        crate::bytes::lemma_be16_of(q.client_type);
                        assert(q.client_type == f1);
                        assert(sg_at(d@, p2 as int, q.name, p2 + (sg_bytes(q.name).len() as int)));
                    }
                }
            }
            return Err(e);
        },
    };
    let (f3, p4) = match read_uuid_text(d, p3) {
        Ok(v) => v,
        Err(e) => {
            proof {
                assert forall|q: DiscoveryResponseDataModel| !(discovery_response_wf(q) && discovery_response_bytes(q) == d@) by {
                    if discovery_response_wf(q) && discovery_response_bytes(q) == d@ {
                        lemma_discovery_response_parts(d@, q);
                        crate::bytes::lemma_be32_of(q.flags);
                        assert(q.flags == f0);
                        crate::bytes::lemma_be16_of(q.client_type);
                        assert(q.client_type == f1);
                        assert(sg_at(d@, p2 as int, q.name, p2 + (sg_bytes(q.name).len() as int)));
                        assert(q.name == f2@);
                        assert(uuid_text_at(d@, p3 as int, q.uuid, p3 + 38));
                    }
                }
            }
            return Err(e);
        },
    };
    let (f4, p5) = match read_arr::<5>(d, p4) {
        Ok(v) => v,
        Err(e) => {
            proof {
                assert forall|q: DiscoveryResponseDataModel| !(discovery_response_wf(q) && discovery_response_bytes(q) == d@) by {
                    if discovery_response_wf(q) && discovery_response_bytes(q) == d@ {
                        lemma_discovery_response_parts(d@, q);
                        crate::bytes::lemma_be32_of(q.flags);
                        assert(q.flags == f0);
                        crate::bytes::lemma_be16_of(q.client_type);
                        assert(q.client_type == f1);
                        assert(sg_at(d@, p2 as int, q.name, p2 + (sg_bytes(q.name).len() as int)));
                        assert(q.name == f2@);
                        assert(uuid_text_at(d@, p3 as int, q.uuid, p3 + 38));
                        assert(q.uuid == f3@);
                    }
                }
            }
            return Err(e);
        },
    };
    let (f5, p6) = match read_certificate(d, p5) {
        Ok(v) => v,
        Err(e) => {
            if e == FieldError::Certificate {
                return Err(FieldError::Certificate);
            }
            proof {
                assert forall|q: DiscoveryResponseDataModel| !(discovery_response_wf(q) && discovery_response_bytes(q) == d@) by {
                    if discovery_response_wf(q) && discovery_response_bytes(q) == d@ {
                        lemma_discovery_response_parts(d@, q);
                        crate::bytes::lemma_be32_of(q.flags);
                        assert(q.flags == f0);
                        crate::bytes::lemma_be16_of(q.client_type);
                        assert(q.client_type == f1);
                        assert(sg_at(d@, p2 as int, q.name, p2 + (sg_bytes(q.name).len() as int)));
                        assert(q.name == f2@);
                        assert(uuid_text_at(d@, p3 as int, q.uuid, p3 + 38));
                        assert(q.uuid == f3@);
                        assert(q.padding =~= f4@);
                        assert(cert_at(d@, p5 as int, q.certificate, p5 + (cert_bytes(q.certificate).len() as int)));
                    }
                }
            }
            return Err(e);
        },
    };
    if p6 != d.len() {
        proof {
            assert forall|q: DiscoveryResponseDataModel| !(discovery_response_wf(q) && discovery_response_bytes(q) == d@) by {
                if discovery_response_wf(q) && discovery_response_bytes(q) == d@ {
                    lemma_discovery_response_parts(d@, q);
                    crate::bytes::lemma_be32_of(q.flags);
                    assert(q.flags == f0);
                    crate::bytes::lemma_be16_of(q.client_type);
                    assert(q.client_type == f1);
                    assert(sg_at(d@, p2 as int, q.name, p2 + (sg_bytes(q.name).len() as int)));
                    assert(q.name == f2@);
                    assert(uuid_text_at(d@, p3 as int, q.uuid, p3 + 38));
                    assert(q.uuid == f3@);
                    assert(q.padding =~= f4@);
                    assert(cert_at(d@, p5 as int, q.certificate, p5 + (cert_bytes(q.certificate).len() as int)));
                    assert(q.certificate == f5@);
                }
            }
        }
        return Err(FieldError::Leftover);
    }
    let p = DiscoveryResponseData {
        flags: f0,
        client_type: f1,
        name: f2,
        uuid: f3,
        padding: f4,
        certificate: f5,
    };
    proof {
        assert(discovery_response_bytes(p@) =~= d@);
        assert forall|q: DiscoveryResponseDataModel| (discovery_response_wf(q) && discovery_response_bytes(q) == d@) implies p@ == q by {
            lemma_discovery_response_parts(d@, q);
            crate::bytes::lemma_be32_of(q.flags);
            assert(q.flags == f0);
            crate::bytes::lemma_be16_of(q.client_type);
            assert(q.client_type == f1);
            assert(sg_at(d@, p2 as int, q.name, p2 + (sg_bytes(q.name).len() as int)));
            assert(q.name == f2@);
            assert(uuid_text_at(d@, p3 as int, q.uuid, p3 + 38));
            assert(q.uuid == f3@);
            assert(q.padding =~= f4@);
            assert(cert_at(d@, p5 as int, q.certificate, p5 + (cert_bytes(q.certificate).len() as int)));
            assert(q.certificate == f5@);
            assert(q == (DiscoveryResponseDataModel {
                flags: f0,
                client_type: f1,
                name: f2@,
                uuid: f3@,
                padding: f4@,
                certificate: f5@,
            }));
        }
    }
    Ok(p)
}

/// Appends the wire image of a `DiscoveryResponseData`.
pub fn write_discovery_response(out: &mut Vec<u8>, q: &DiscoveryResponseData) -> (r: Result<(), FieldError>)
    ensures
        r is Ok ==> final(out)@ =~= old(out)@ + discovery_response_bytes(q@),
        r is Ok <==> q@.name.len() <= 0xFFFF && q@.certificate.der.len() <= 0xFFFF,
        r is Err ==> final(out)@ == old(out)@,
        r matches Err(e) ==> e == FieldError::Oversize,
{
    let mut tmp: Vec<u8> = Vec::new();
    write_u32(&mut tmp, q.flags);
    write_u16(&mut tmp, q.client_type);
    match write_sgstring(&mut tmp, &q.name) {
        Ok(()) => (),
        Err(e) => {
            return Err(e);
        },
    }
    write_uuid_text(&mut tmp, &q.uuid);
    write_bytes(&mut tmp, q.padding.as_slice());
    match write_certificate(&mut tmp, &q.certificate) {
        Ok(()) => (),
        Err(e) => {
            return Err(e);
        },
    }
    write_bytes(out, tmp.as_slice());
    Ok(())
}

} // verus!
