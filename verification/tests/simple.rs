//! The simple packets: discovery, connect response, state gating and the
//! whole-datagram integrity envelope.

use xbox_sg::packet::simple::{
    ConnectResponseProtectedData, ConnectResponseUnprotectedData, SimpleHeader,
};
use xbox_sg::packet::{Packet, ReadError, Type};
use xbox_sg::sgcrypto::from_secret;
use xbox_sg::state::{ConnectionState, PairingState, SGState, State};
use xbox_sg::util::{read_certificate, SGString, UUID};

fn test_secret() -> Vec<u8> {
    (0u8..64).collect()
}

fn new_connected_state() -> SGState {
    let crypto = from_secret(&test_secret()[..]);
    let state = State {
        connection_state: ConnectionState::Connecting,
        pairing_state: PairingState::NotPaired,
        crypto,
    };
    SGState::Connected(state)
}

fn discovery_request_datagram() -> Vec<u8> {
    // kind, unprotected length 10, version 0; then flags, client type 8
    // (Android), minimum version 0, maximum version 2.
    vec![
        0xDD, 0x00, 0x00, 0x0A, 0x00, 0x00, 0x00, 0x00, 0x00, 0x00, 0x00, 0x08, 0x00, 0x00, 0x00,
        0x02,
    ]
}

#[test]
fn parse_discovery_request_works() {
    let data = discovery_request_datagram();
    let packet = Packet::read(&data[..], &SGState::Disconnected).unwrap();

    match packet {
        Packet::DiscoveryRequest(header, data) => {
            assert_eq!(header.pkt_type, Type::DiscoveryRequest);
            assert_eq!(header.unprotected_payload_length, 10);
            assert_eq!(header.protected_payload_length, 0);
            assert_eq!(header.version, 0);

            assert_eq!(data.client_type, 8);
            assert_eq!(data.flags, 0);
            assert_eq!(data.maximum_version, 2);
        },
        _ => panic!("Wrong type"),
    }
}

#[test]
fn rebuild_discovery_request_works() {
    let data = discovery_request_datagram();
    let packet = Packet::read(&data[..], &SGState::Disconnected).unwrap();

    assert_eq!(data.to_vec(), packet.raw_bytes(&SGState::Disconnected).unwrap());
}

fn make_certificate() -> (xbox_sg::util::Certificate, Vec<u8>) {
    // A self-signed P-256 certificate whose subject CN is "FFFFFFFFFFF".
    let group =
        openssl::ec::EcGroup::from_curve_name(openssl::nid::Nid::X9_62_PRIME256V1).unwrap();
    let key = openssl::ec::EcKey::generate(&group).unwrap();
    let pkey = openssl::pkey::PKey::from_ec_key(key).unwrap();
    let mut name = openssl::x509::X509NameBuilder::new().unwrap();
    name.append_entry_by_nid(openssl::nid::Nid::COMMONNAME, "FFFFFFFFFFF").unwrap();
    let name = name.build();
    let mut builder = openssl::x509::X509Builder::new().unwrap();
    builder.set_version(2).unwrap();
    builder.set_subject_name(&name).unwrap();
    builder.set_issuer_name(&name).unwrap();
    builder.set_pubkey(&pkey).unwrap();
    let not_before = openssl::asn1::Asn1Time::days_from_now(0).unwrap();
    let not_after = openssl::asn1::Asn1Time::days_from_now(365).unwrap();
    builder.set_not_before(&not_before).unwrap();
    builder.set_not_after(&not_after).unwrap();
    builder.sign(&pkey, openssl::hash::MessageDigest::sha256()).unwrap();
    let der = builder.build().to_der().unwrap();
    let mut wire = Vec::new();
    wire.push((der.len() >> 8) as u8);
    wire.push((der.len() & 0xFF) as u8);
    wire.extend_from_slice(&der[..]);
    let (cert, _) = read_certificate(&wire[..], 0).unwrap();
    (cert, wire)
}

#[test]
fn parse_discovery_response_works() {
    let (cert, _wire) = make_certificate();
    let uuid = UUID::new([
        0xDE, 0x30, 0x5D, 0x54, 0x75, 0xB4, 0x43, 0x1B, 0xAD, 0xB2, 0xEB, 0x6B, 0x9E, 0x54, 0x60,
        0x14,
    ]);
    let payload = xbox_sg::packet::simple::DiscoveryResponseData {
        flags: 0,
        client_type: 0,
        name: SGString::from_str(String::from("XboxOne")),
        uuid,
        padding: [0u8; 5],
        certificate: cert.clone(),
    };
    let header = SimpleHeader::new(Type::DiscoveryResponse, 2);
    let data = Packet::DiscoveryResponse(header, payload)
        .raw_bytes(&SGState::Disconnected)
        .unwrap();
    let packet = Packet::read(&data[..], &SGState::Disconnected).unwrap();

    match packet {
        Packet::DiscoveryResponse(header, parsed) => {
            assert_eq!(header.pkt_type, Type::DiscoveryResponse);
            assert_eq!(header.version, 2);
            assert_eq!(header.unprotected_payload_length as usize, data.len() - 6);
            assert_eq!(parsed.name, SGString::from_str(String::from("XboxOne")));
            assert_eq!(parsed.uuid, uuid);
            assert_eq!(parsed.certificate.subject().as_str(), "FFFFFFFFFFF");
            assert_eq!(parsed.certificate.public_key_type(), 4);
        },
        _ => panic!("Wrong type"),
    }
}

#[test]
fn rebuild_discovery_response_works() {
    let (cert, _wire) = make_certificate();
    let payload = xbox_sg::packet::simple::DiscoveryResponseData {
        flags: 0,
        client_type: 0,
        name: SGString::from_str(String::from("XboxOne")),
        uuid: UUID::new([0x11u8; 16]),
        padding: [0u8; 5],
        certificate: cert,
    };
    let header = SimpleHeader::new(Type::DiscoveryResponse, 2);
    let data = Packet::DiscoveryResponse(header, payload)
        .raw_bytes(&SGState::Disconnected)
        .unwrap();
    let packet = Packet::read(&data[..], &SGState::Disconnected).unwrap();

    assert_eq!(data, packet.raw_bytes(&SGState::Disconnected).unwrap());
}

fn connect_response_datagram(state: &SGState) -> Vec<u8> {
    let header = SimpleHeader::new(Type::ConnectResponse, 2);
    let unprotected = ConnectResponseUnprotectedData {
        iv: [198, 55, 50, 2, 189, 253, 17, 103, 207, 150, 147, 73, 29, 34, 50, 42],
    };
    let protected = ConnectResponseProtectedData {
        connect_request: 0,
        pairing_state: 0,
        participant_id: 31,
    };
    Packet::ConnectResponse(header, unprotected, protected).raw_bytes(state).unwrap()
}

#[test]
fn parse_connect_response_works() {
    let sgstate = new_connected_state();
    let data = connect_response_datagram(&sgstate);
    let packet = Packet::read(&data[..], &sgstate).unwrap();

    match packet {
        Packet::ConnectResponse(header, unprotected_data, protected_data) => {
            assert_eq!(header.pkt_type, Type::ConnectResponse);
            assert_eq!(header.unprotected_payload_length, 16);
            assert_eq!(header.protected_payload_length, 8);
            assert_eq!(header.version, 2);
            assert_eq!(
                unprotected_data.iv,
                [198, 55, 50, 2, 189, 253, 17, 103, 207, 150, 147, 73, 29, 34, 50, 42]
            );

            assert_eq!(protected_data.connect_request, 0);
            assert_eq!(protected_data.pairing_state, 0);
            assert_eq!(protected_data.participant_id, 31);
        },
        _ => panic!("Wrong type"),
    }
}

#[test]
fn repack_connect_response_works() {
    let sgstate = new_connected_state();
    let data = connect_response_datagram(&sgstate);
    let packet = Packet::read(&data[..], &sgstate).unwrap();

    assert_eq!(data, packet.raw_bytes(&sgstate).unwrap());
}

#[test]
fn preconnect_kind_rejected_when_connected() {
    // A discovery request decoded in a connected state is an invalid-state
    // error, whatever else the datagram holds.
    let sgstate = new_connected_state();
    let data = discovery_request_datagram();
    match Packet::read(&data[..], &sgstate) {
        Err(ReadError::State(xbox_sg::state::InvalidState::Connected)) => (),
        other => panic!("expected a state error, got {:?}", other.is_ok()),
    }
}

#[test]
fn connect_request_not_implemented() {
    let data = vec![0xCC, 0x00, 0x00, 0x00, 0x00, 0x00, 0x00, 0x02];
    match Packet::read(&data[..], &SGState::Disconnected) {
        Err(ReadError::NotImplemented) => (),
        other => panic!("expected not-implemented, got {:?}", other.is_ok()),
    }
}

#[test]
fn unknown_kind_rejected() {
    let data = vec![0xAB, 0xCD, 0x00, 0x00];
    match Packet::read(&data[..], &SGState::Disconnected) {
        Err(ReadError::UnknownKind) => (),
        other => panic!("expected unknown kind, got {:?}", other.is_ok()),
    }
}
