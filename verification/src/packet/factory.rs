//! Constructors for the packets a client sends.  Length fields are left
//! zero; the codec fills them in when it serializes.

use vstd::prelude::*;

use crate::packet::simple::{
    ConnectRequestProtectedData, ConnectRequestProtectedDataModel, ConnectRequestUnprotectedData,
    ConnectRequestUnprotectedDataModel, DiscoveryRequestData, PowerOnRequestData,
    PowerOnRequestDataModel, SimpleHeader,
};
use crate::packet::{Packet, PacketModel, Type};
use crate::util::{PublicKey, SGString, UUID};

verus! {

use vstd::utf8::encode_utf8;

/// A power-on request for the console with the given Live ID.
pub fn power_on_request(live_id: String) -> (r: Packet)
    ensures
        r@ == PacketModel::PowerOnRequest(
            SimpleHeader {
                pkt_type: Type::PowerOnRequest,
                unprotected_payload_length: 0,
                protected_payload_length: 0,
                version: 2,
            },
            PowerOnRequestDataModel { live_id: encode_utf8(live_id@) },
        ),
{
    let header = SimpleHeader::new(Type::PowerOnRequest, 2);
    let data = PowerOnRequestData { live_id: SGString::from_str(live_id) };
    Packet::PowerOnRequest(header, data)
}

/// A discovery request from a client of the given type.
pub fn discovery_request(client_type: u16) -> (r: Packet)
    ensures
        r@ == PacketModel::DiscoveryRequest(
            SimpleHeader {
                pkt_type: Type::DiscoveryRequest,
                unprotected_payload_length: 0,
                protected_payload_length: 0,
                version: 0,
            },
            DiscoveryRequestData { flags: 0, client_type, minimum_version: 0, maximum_version: 2 },
        ),
{
    let header = SimpleHeader::new(Type::DiscoveryRequest, 0);
    let data = DiscoveryRequestData {
        flags: 0,
        client_type,
        minimum_version: 0,
        maximum_version: 2,
    };
    Packet::DiscoveryRequest(header, data)
}

/// A connect request carrying the client's identity, ephemeral public key,
/// IV and credentials.
pub fn connect_request(
    sg_uuid: UUID,
    public_key: PublicKey,
    iv: [u8; 16],
    userhash: String,
    jwt: String,
    request_num: u32,
    request_group_start: u32,
    request_group_end: u32,
) -> (r: Packet)
    ensures
        r@ == PacketModel::ConnectRequest(
            SimpleHeader {
                pkt_type: Type::ConnectRequest,
                unprotected_payload_length: 0,
                protected_payload_length: 0,
                version: 2,
            },
            ConnectRequestUnprotectedDataModel { sg_uuid: sg_uuid@, public_key, iv: iv@ },
            ConnectRequestProtectedDataModel {
                userhash: encode_utf8(userhash@),
                jwt: encode_utf8(jwt@),
                request_num,
                request_group_start,
                request_group_end,
            },
        ),
{
    let header = SimpleHeader::new(Type::ConnectRequest, 2);
    let unprotected_data = ConnectRequestUnprotectedData { sg_uuid, public_key, iv };
    let protected_data = ConnectRequestProtectedData {
        userhash: SGString::from_str(userhash),
        jwt: SGString::from_str(jwt),
        request_num,
        request_group_start,
        request_group_end,
    };
    Packet::ConnectRequest(header, unprotected_data, protected_data)
}

} // verus!
