//! Message packets end to end: encode under a known secret, decode back,
//! compare every field, and check byte identity and tamper rejection.

use xbox_sg::packet::message::{
    parse_fragment, write_fragment, FragmentData,
    AcknowledgeData, ConsoleStatusData, DisconnectData, JsonData, LocalJoinData, Message,
    MessageHeader, MessageHeaderFlags, MessageType, StartChannelRequestData,
    StartChannelResponseData, SystemTextAcknowledgeData, SystemTextDoneData, TextConfigurationData,
    TouchData, Touchpoint,
};
use xbox_sg::packet::{Packet, ReadError};
use xbox_sg::sgcrypto::from_secret;
use xbox_sg::state::{ConnectionState, PairingState, SGState, State};
use xbox_sg::util::SGString;

fn test_secret() -> Vec<u8> {
    (0u8..64).collect()
}

fn new_connected_state() -> SGState {
    let crypto = from_secret(&test_secret()[..]);
    let state = State {
        connection_state: ConnectionState::Connecting,
        pairing_state: PairingState::NotPaired,
        crypto,
    };
    SGState::Connected(state)
}

fn build(header: MessageHeader, message: Message) -> Vec<u8> {
    let sgstate = new_connected_state();
    Packet::Message(header, message).raw_bytes(&sgstate).unwrap()
}

fn test_message(data: &[u8], message: Message, header: MessageHeader) {
    let sgstate = new_connected_state();
    let packet = Packet::read(data, &sgstate).unwrap();

    match packet {
        Packet::Message(parsed_header, parsed_message) => {
            assert_eq!(parsed_header, header);
            assert_eq!(parsed_message, message);
        },
        _ => panic!("Wrong type"),
    }
}

fn test_repack(data: &[u8]) {
    let sgstate = new_connected_state();
    let packet = Packet::read(data, &sgstate).unwrap();

    assert_eq!(data.to_vec(), packet.raw_bytes(&sgstate).unwrap());
}

fn ack_header() -> MessageHeader {
    MessageHeader {
        pkt_type: xbox_sg::packet::Type::Message,
        protected_payload_length: 16,
        sequence_number: 1,
        target_participant_id: 31,
        source_participant_id: 0,
        flags: MessageHeaderFlags {
            msg_type: MessageType::Acknowledge,
            need_ack: false,
            is_fragment: false,
            version: 2,
            unk: false,
        },
        channel_id: 0x1000000000000000,
    }
}

fn ack_message() -> Message {
    Message::Acknowledge(AcknowledgeData {
        low_watermark: 0,
        processed_list: vec![1],
        rejected_list: vec![],
    })
}

#[test]
fn parse_ack_works() {
    let data = build(ack_header(), ack_message());
    test_message(&data[..], ack_message(), ack_header());
}

#[test]
fn repack_ack_works() {
    let data = build(ack_header(), ack_message());
    test_repack(&data[..]);
}

#[test]
fn tampered_ack_rejected() {
    // Flipping any single bit of the acknowledge datagram, before or
    // inside the trailing MAC, turns decoding into a signature error.
    let sgstate = new_connected_state();
    let data = build(ack_header(), ack_message());
    for byte in 0..data.len() {
        for bit in 0..8 {
            let mut tampered = data.clone();
            tampered[byte] ^= 1u8 << bit;
            match Packet::read(&tampered[..], &sgstate) {
                Err(ReadError::Signature) => (),
                Err(ReadError::UnknownKind) => {
                    // a flip inside the leading kind code is caught earlier
                    assert!(byte < 2);
                },
                other => panic!("bit flip survived: byte {} bit {} ok={}", byte, bit, other.is_ok()),
            }
        }
    }
    let untampered = Packet::read(&data[..], &sgstate);
    assert!(untampered.is_ok());
}

fn local_join_header() -> MessageHeader {
    MessageHeader {
        pkt_type: xbox_sg::packet::Type::Message,
        protected_payload_length: 50,
        sequence_number: 1,
        target_participant_id: 0,
        source_participant_id: 31,
        flags: MessageHeaderFlags {
            msg_type: MessageType::LocalJoin,
            need_ack: true,
            is_fragment: false,
            version: 0,
            unk: false,
        },
        channel_id: 0,
    }
}

fn local_join_message() -> Message {
    Message::LocalJoin(LocalJoinData {
        device_type: 8,
        native_width: 600,
        native_height: 1024,
        dpi_x: 160,
        dpi_y: 160,
        device_capabilities: 0xFFFFFFFFFFFFFFFF,
        client_version: 133713371,
        os_major_version: 42,
        os_minor_version: 0,
        display_name: SGString::from_str(String::from("package.name.here")),
    })
}

#[test]
fn parse_local_join_works() {
    let data = build(local_join_header(), local_join_message());
    test_message(&data[..], local_join_message(), local_join_header());
}

#[test]
fn repack_local_join_works() {
    let data = build(local_join_header(), local_join_message());
    test_repack(&data[..]);
}

fn scr_header() -> MessageHeader {
    MessageHeader {
        pkt_type: xbox_sg::packet::Type::Message,
        protected_payload_length: 28,
        sequence_number: 2,
        target_participant_id: 0,
        source_participant_id: 31,
        flags: MessageHeaderFlags {
            msg_type: MessageType::StartChannelRequest,
            need_ack: true,
            is_fragment: false,
            version: 2,
            unk: false,
        },
        channel_id: 0,
    }
}

fn scr_message() -> Message {
    Message::StartChannelRequest(StartChannelRequestData {
        channel_request_id: 1,
        title_id: 0,
        service: xbox_sg::constants::system_input(),
        activity_id: 0,
    })
}

#[test]
fn parse_start_channel_request_works() {
    let data = build(scr_header(), scr_message());
    test_message(&data[..], scr_message(), scr_header());
}

#[test]
fn repack_start_channel_request_works() {
    let data = build(scr_header(), scr_message());
    test_repack(&data[..]);
}

fn scresp_header() -> MessageHeader {
    MessageHeader {
        pkt_type: xbox_sg::packet::Type::Message,
        protected_payload_length: 16,
        sequence_number: 6,
        target_participant_id: 31,
        source_participant_id: 0,
        flags: MessageHeaderFlags {
            msg_type: MessageType::StartChannelResponse,
            need_ack: true,
            is_fragment: false,
            version: 2,
            unk: false,
        },
        channel_id: 0,
    }
}

fn scresp_message() -> Message {
    Message::StartChannelResponse(StartChannelResponseData {
        channel_request_id: 1,
        target_channel_id: 148,
        result: 0,
    })
}

#[test]
fn parse_start_channel_response_works() {
    let data = build(scresp_header(), scresp_message());
    test_message(&data[..], scresp_message(), scresp_header());
}

#[test]
fn repack_start_channel_response_works() {
    let data = build(scresp_header(), scresp_message());
    test_repack(&data[..]);
}

fn console_status_header() -> MessageHeader {
    MessageHeader {
        pkt_type: xbox_sg::packet::Type::Message,
        protected_payload_length: 112,
        sequence_number: 5,
        target_participant_id: 31,
        source_participant_id: 0,
        flags: MessageHeaderFlags {
            msg_type: MessageType::ConsoleStatus,
            need_ack: true,
            is_fragment: false,
            version: 2,
            unk: false,
        },
        channel_id: 0,
    }
}

fn console_status_message() -> Message {
    Message::ConsoleStatus(ConsoleStatusData {
        live_tv_provider: 0,
        major_version: 10,
        minor_version: 0,
        build_number: 14393,
        locale: SGString::from_str(String::from("en-US")),
        active_titles: vec![
            xbox_sg::packet::message::ActiveTitle {
                title_id: 714681658,
                title_disposition: 32771,
                product_id: xbox_sg::constants::none(),
                sandbox_id: xbox_sg::constants::none(),
                aum: SGString::from_str(String::from(
                    "Xbox.Home_8wekyb3d8bbwe!Xbox.Home.Application",
                )),
            },
        ],
    })
}

#[test]
fn parse_console_status_works() {
    let data = build(console_status_header(), console_status_message());
    test_message(&data[..], console_status_message(), console_status_header());
}

#[test]
fn repack_console_status_works() {
    let data = build(console_status_header(), console_status_message());
    test_repack(&data[..]);
}

fn disconnect_header() -> MessageHeader {
    MessageHeader {
        pkt_type: xbox_sg::packet::Type::Message,
        protected_payload_length: 8,
        sequence_number: 57,
        target_participant_id: 0,
        source_participant_id: 31,
        flags: MessageHeaderFlags {
            msg_type: MessageType::Disconnect,
            need_ack: false,
            is_fragment: false,
            version: 2,
            unk: false,
        },
        channel_id: 0,
    }
}

fn disconnect_message() -> Message {
    Message::Disconnect(DisconnectData { reason: 0, error_code: 0 })
}

#[test]
fn parse_disconnect_works() {
    let data = build(disconnect_header(), disconnect_message());
    test_message(&data[..], disconnect_message(), disconnect_header());
}

#[test]
fn repack_disconnect_works() {
    let data = build(disconnect_header(), disconnect_message());
    test_repack(&data[..]);
}

fn json_header() -> MessageHeader {
    MessageHeader {
        pkt_type: xbox_sg::packet::Type::Message,
        protected_payload_length: 54,
        sequence_number: 11,
        target_participant_id: 0,
        source_participant_id: 31,
        flags: MessageHeaderFlags {
            msg_type: MessageType::Json,
            need_ack: true,
            is_fragment: false,
            version: 2,
            unk: false,
        },
        channel_id: 151,
    }
}

fn json_message() -> Message {
    Message::Json(JsonData {
        text: SGString::from_str(String::from(
            r##"{"request":"GetConfiguration","msgid":"2ed6c0fd.2"}"##,
        )),
    })
}

#[test]
fn parse_json_works() {
    let data = build(json_header(), json_message());
    test_message(&data[..], json_message(), json_header());
}

#[test]
fn repack_json_works() {
    let data = build(json_header(), json_message());
    test_repack(&data[..]);
}

fn stc_header() -> MessageHeader {
    MessageHeader {
        pkt_type: xbox_sg::packet::Type::Message,
        protected_payload_length: 35,
        sequence_number: 91,
        target_participant_id: 32,
        source_participant_id: 0,
        flags: MessageHeaderFlags {
            msg_type: MessageType::SystemTextConfiguration,
            need_ack: true,
            is_fragment: false,
            version: 2,
            unk: false,
        },
        channel_id: 154,
    }
}

fn stc_message() -> Message {
    Message::SystemTextConfiguration(TextConfigurationData {
        session_id: 9,
        buffer_version: 0,
        options: 5,
        input_scope: 57,
        max_text_len: 0,
        locale: SGString::from_str(String::from("de-DE")),
        prompt: SGString::from_str(String::new()),
    })
}

#[test]
fn parse_system_text_configuration_works() {
    let data = build(stc_header(), stc_message());
    test_message(&data[..], stc_message(), stc_header());
}

#[test]
fn repack_system_text_configuration_works() {
    let data = build(stc_header(), stc_message());
    test_repack(&data[..]);
}

fn sta_header() -> MessageHeader {
    MessageHeader {
        pkt_type: xbox_sg::packet::Type::Message,
        protected_payload_length: 8,
        sequence_number: 46,
        target_participant_id: 32,
        source_participant_id: 0,
        flags: MessageHeaderFlags {
            msg_type: MessageType::SystemTextAcknowledge,
            need_ack: true,
            is_fragment: false,
            version: 2,
            unk: false,
        },
        channel_id: 154,
    }
}

fn sta_message() -> Message {
    Message::SystemTextAcknowledge(SystemTextAcknowledgeData { session_id: 8, version_ack: 2 })
}

#[test]
fn parse_system_text_ack_works() {
    let data = build(sta_header(), sta_message());
    test_message(&data[..], sta_message(), sta_header());
}

#[test]
fn repack_system_text_ack_works() {
    let data = build(sta_header(), sta_message());
    test_repack(&data[..]);
}

fn std_header() -> MessageHeader {
    MessageHeader {
        pkt_type: xbox_sg::packet::Type::Message,
        protected_payload_length: 16,
        sequence_number: 90,
        target_participant_id: 32,
        source_participant_id: 0,
        flags: MessageHeaderFlags {
            msg_type: MessageType::SystemTextDone,
            need_ack: true,
            is_fragment: false,
            version: 2,
            unk: false,
        },
        channel_id: 154,
    }
}

fn std_message() -> Message {
    Message::SystemTextDone(SystemTextDoneData { session_id: 0, version: 0, flags: 0, unk: 0 })
}

#[test]
fn parse_system_text_done_works() {
    let data = build(std_header(), std_message());
    test_message(&data[..], std_message(), std_header());
}

#[test]
fn repack_system_text_done_works() {
    let data = build(std_header(), std_message());
    test_repack(&data[..]);
}

fn touch_header() -> MessageHeader {
    MessageHeader {
        pkt_type: xbox_sg::packet::Type::Message,
        protected_payload_length: 20,
        sequence_number: 26,
        target_participant_id: 0,
        source_participant_id: 32,
        flags: MessageHeaderFlags {
            msg_type: MessageType::SystemTouch,
            need_ack: true,
            is_fragment: false,
            version: 2,
            unk: false,
        },
        channel_id: 152,
    }
}

fn touch_message() -> Message {
    Message::SystemTouch(TouchData {
        timestamp: 182459592,
        active_titles: vec![Touchpoint { id: 1, action: 1, x: 244, y: 255 }],
    })
}

#[test]
fn parse_system_touch_works() {
    let data = build(touch_header(), touch_message());
    test_message(&data[..], touch_message(), touch_header());
}

#[test]
fn repack_system_touch_works() {
    let data = build(touch_header(), touch_message());
    test_repack(&data[..]);
}

#[test]
fn message_rejected_when_disconnected() {
    let data = build(ack_header(), ack_message());
    match Packet::read(&data[..], &SGState::Disconnected) {
        Err(ReadError::State(xbox_sg::state::InvalidState::Disconnected)) => (),
        other => panic!("expected a state error, got ok={}", other.is_ok()),
    }
}

#[test]
fn flags_bit12_round_trips() {
    // A flags word with bit 12 set (0x1001: kind Acknowledge plus the one
    // unnamed bit) decodes, carries the bit, and re-encodes to the same
    // bytes.
    let mut header = ack_header();
    header.flags.unk = true;
    let data = build(header, ack_message());
    // bits 0-11 = 1 (Acknowledge), bit 12 set, version 2 in bits 14-15
    assert_eq!(data[16], 0x90);
    assert_eq!(data[17], 0x01);
    let sgstate = new_connected_state();
    let packet = Packet::read(&data[..], &sgstate).unwrap();
    match &packet {
        Packet::Message(parsed_header, _) => {
            assert!(parsed_header.flags.unk);
            assert_eq!(parsed_header.flags.msg_type, MessageType::Acknowledge);
        },
        _ => panic!("Wrong type"),
    }
    assert_eq!(data, packet.raw_bytes(&sgstate).unwrap());
}

#[test]
fn fragment_round_trips() {
    let fragment = FragmentData {
        sequence_begin: 7,
        sequence_end: 9,
        data: vec![0xAA, 0xBB, 0xCC],
    };
    let mut wire: Vec<u8> = Vec::new();
    write_fragment(&mut wire, &fragment).unwrap();
    assert_eq!(wire, vec![0, 0, 0, 7, 0, 0, 0, 9, 0, 3, 0xAA, 0xBB, 0xCC]);
    let parsed = parse_fragment(&wire[..]).unwrap();
    assert_eq!(parsed, fragment);
}
