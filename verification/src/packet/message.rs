//! Message packets: the message kind registry, the bit-packed flags word,
//! the 26-byte message header, and the typed payload of every message kind
//! the protocol speaks.
//!
//! Sensor payloads carry IEEE-754 values on the wire; the codec holds them
//! as their 32-bit big-endian bit patterns and never computes on them.

use vstd::prelude::*;

use crate::bytes::{
    be16, be16_of, be32, be32_of, be64, be64_of, lemma_be16_of, lemma_be32_of, lemma_be64_of,
    lemma_region, read_arr, read_u16, read_u32, read_u64, read_u8, write_bytes, write_u16,
    write_u32, write_u64, write_u8, FieldError,
};
use crate::packet::{type_code, Type};
use crate::util::{
    read_sgstring, read_uuid, sg_at, sg_bytes, sg_wf, write_sgstring, write_uuid, SGString, UUID,
};

verus! {

// ---------------------------------------------------------------------------
// MessageType
// ---------------------------------------------------------------------------
/// The message kinds, with their 12-bit wire codes.
#[derive(Clone, Copy, Debug, PartialEq, Eq, Structural)]
pub enum MessageType {
    Null,
    Acknowledge,
    Group,
    LocalJoin,
    StopActivity,
    AuxiliaryStream,
    ActiveSurfaceChange,
    Navigate,
    Json,
    Tunnel,
    ConsoleStatus,
    TitleTextConfiguration,
    TitleTextInput,
    TitleTextSelection,
    MirroringRequest,
    TitleLaunch,
    StartChannelRequest,
    StartChannelResponse,
    StopChannel,
    System,
    Disconnect,
    TitleTouch,
    Accelerometer,
    Gyrometer,
    Inclinometer,
    Compass,
    Orientation,
    PairedIdentityStateChanged,
    Unsnap,
    GameDvrRecord,
    PowerOff,
    MediaControllerRemoved,
    MediaCommand,
    MediaCommandResult,
    MediaState,
    Gamepad,
    SystemTextConfiguration,
    SystemTextInput,
    SystemTouch,
    SystemTextAcknowledge,
    SystemTextDone,
}

/// The wire code of a message kind.
pub open spec fn mtype_code(m: MessageType) -> u16 {
    match m {
        MessageType::Null => 0x0,
        MessageType::Acknowledge => 0x1,
        MessageType::Group => 0x2,
        MessageType::LocalJoin => 0x3,
        MessageType::StopActivity => 0x5,
        MessageType::AuxiliaryStream => 0x19,
        MessageType::ActiveSurfaceChange => 0x1a,
        MessageType::Navigate => 0x1b,
        MessageType::Json => 0x1c,
        MessageType::Tunnel => 0x1d,
        MessageType::ConsoleStatus => 0x1e,
        MessageType::TitleTextConfiguration => 0x1f,
        MessageType::TitleTextInput => 0x20,
        MessageType::TitleTextSelection => 0x21,
        MessageType::MirroringRequest => 0x22,
        MessageType::TitleLaunch => 0x23,
        MessageType::StartChannelRequest => 0x26,
        MessageType::StartChannelResponse => 0x27,
        MessageType::StopChannel => 0x28,
        MessageType::System => 0x29,
        MessageType::Disconnect => 0x2a,
        MessageType::TitleTouch => 0x2e,
        MessageType::Accelerometer => 0x2f,
        MessageType::Gyrometer => 0x30,
        MessageType::Inclinometer => 0x31,
        MessageType::Compass => 0x32,
        MessageType::Orientation => 0x33,
        MessageType::PairedIdentityStateChanged => 0x36,
        MessageType::Unsnap => 0x37,
        MessageType::GameDvrRecord => 0x38,
        MessageType::PowerOff => 0x39,
        MessageType::MediaControllerRemoved => 0xf00,
        MessageType::MediaCommand => 0xf01,
        MessageType::MediaCommandResult => 0xf02,
        MessageType::MediaState => 0xf03,
        MessageType::Gamepad => 0xf0a,
        MessageType::SystemTextConfiguration => 0xf2b,
        MessageType::SystemTextInput => 0xf2c,
        MessageType::SystemTouch => 0xf2e,
        MessageType::SystemTextAcknowledge => 0xf34,
        MessageType::SystemTextDone => 0xf35,
    }
}

/// The message kind a wire code denotes, if any.
pub open spec fn mtype_of_code(c: u16) -> Option<MessageType> {
    if c == 0x0 {
        Some(MessageType::Null)
    } else if c == 0x1 {
        Some(MessageType::Acknowledge)
    } else if c == 0x2 {
        Some(MessageType::Group)
    } else if c == 0x3 {
        Some(MessageType::LocalJoin)
    } else if c == 0x5 {
        Some(MessageType::StopActivity)
    } else if c == 0x19 {
        Some(MessageType::AuxiliaryStream)
    } else if c == 0x1a {
        Some(MessageType::ActiveSurfaceChange)
    } else if c == 0x1b {
        Some(MessageType::Navigate)
    } else if c == 0x1c {
        Some(MessageType::Json)
    } else if c == 0x1d {
        Some(MessageType::Tunnel)
    } else if c == 0x1e {
        Some(MessageType::ConsoleStatus)
    } else if c == 0x1f {
        Some(MessageType::TitleTextConfiguration)
    } else if c == 0x20 {
        Some(MessageType::TitleTextInput)
    } else if c == 0x21 {
        Some(MessageType::TitleTextSelection)
    } else if c == 0x22 {
        Some(MessageType::MirroringRequest)
    } else if c == 0x23 {
        Some(MessageType::TitleLaunch)
    } else if c == 0x26 {
        Some(MessageType::StartChannelRequest)
    } else if c == 0x27 {
        Some(MessageType::StartChannelResponse)
    } else if c == 0x28 {
        Some(MessageType::StopChannel)
    } else if c == 0x29 {
        Some(MessageType::System)
    } else if c == 0x2a {
        Some(MessageType::Disconnect)
    } else if c == 0x2e {
        Some(MessageType::TitleTouch)
    } else if c == 0x2f {
        Some(MessageType::Accelerometer)
    } else if c == 0x30 {
        Some(MessageType::Gyrometer)
    } else if c == 0x31 {
        Some(MessageType::Inclinometer)
    } else if c == 0x32 {
        Some(MessageType::Compass)
    } else if c == 0x33 {
        Some(MessageType::Orientation)
    } else if c == 0x36 {
        Some(MessageType::PairedIdentityStateChanged)
    } else if c == 0x37 {
        Some(MessageType::Unsnap)
    } else if c == 0x38 {
        Some(MessageType::GameDvrRecord)
    } else if c == 0x39 {
        Some(MessageType::PowerOff)
    } else if c == 0xf00 {
        Some(MessageType::MediaControllerRemoved)
    } else if c == 0xf01 {
        Some(MessageType::MediaCommand)
    } else if c == 0xf02 {
        Some(MessageType::MediaCommandResult)
    } else if c == 0xf03 {
        Some(MessageType::MediaState)
    } else if c == 0xf0a {
        Some(MessageType::Gamepad)
    } else if c == 0xf2b {
        Some(MessageType::SystemTextConfiguration)
    } else if c == 0xf2c {
        Some(MessageType::SystemTextInput)
    } else if c == 0xf2e {
        Some(MessageType::SystemTouch)
    } else if c == 0xf34 {
        Some(MessageType::SystemTextAcknowledge)
    } else if c == 0xf35 {
        Some(MessageType::SystemTextDone)
    } else {
        None
    }
}

/// Codes name their message kinds uniquely, and fit the 12-bit field.
pub proof fn lemma_mtype_code(m: MessageType)
    ensures
        mtype_of_code(mtype_code(m)) == Some(m),
        mtype_code(m) < 0x1000,
{
}

impl MessageType {
    /// The wire code of this kind.
    pub fn code(&self) -> (r: u16)
        ensures
            r == mtype_code(*self),
    {
        match *self {
            MessageType::Null => 0x0,
            MessageType::Acknowledge => 0x1,
            MessageType::Group => 0x2,
            MessageType::LocalJoin => 0x3,
            MessageType::StopActivity => 0x5,
            MessageType::AuxiliaryStream => 0x19,
            MessageType::ActiveSurfaceChange => 0x1a,
            MessageType::Navigate => 0x1b,
            MessageType::Json => 0x1c,
            MessageType::Tunnel => 0x1d,
            MessageType::ConsoleStatus => 0x1e,
            MessageType::TitleTextConfiguration => 0x1f,
            MessageType::TitleTextInput => 0x20,
            MessageType::TitleTextSelection => 0x21,
            MessageType::MirroringRequest => 0x22,
            MessageType::TitleLaunch => 0x23,
            MessageType::StartChannelRequest => 0x26,
            MessageType::StartChannelResponse => 0x27,
            MessageType::StopChannel => 0x28,
            MessageType::System => 0x29,
            MessageType::Disconnect => 0x2a,
            MessageType::TitleTouch => 0x2e,
            MessageType::Accelerometer => 0x2f,
            MessageType::Gyrometer => 0x30,
            MessageType::Inclinometer => 0x31,
            MessageType::Compass => 0x32,
            MessageType::Orientation => 0x33,
            MessageType::PairedIdentityStateChanged => 0x36,
            MessageType::Unsnap => 0x37,
            MessageType::GameDvrRecord => 0x38,
            MessageType::PowerOff => 0x39,
            MessageType::MediaControllerRemoved => 0xf00,
            MessageType::MediaCommand => 0xf01,
            MessageType::MediaCommandResult => 0xf02,
            MessageType::MediaState => 0xf03,
            MessageType::Gamepad => 0xf0a,
            MessageType::SystemTextConfiguration => 0xf2b,
            MessageType::SystemTextInput => 0xf2c,
            MessageType::SystemTouch => 0xf2e,
            MessageType::SystemTextAcknowledge => 0xf34,
            MessageType::SystemTextDone => 0xf35,
        }
    }

    /// The kind a wire code denotes, if any.
    pub fn from_code(c: u16) -> (r: Option<MessageType>)
        ensures
            r == mtype_of_code(c),
    {
        if c == 0x0 {
            Some(MessageType::Null)
        } else if c == 0x1 {
            Some(MessageType::Acknowledge)
        } else if c == 0x2 {
            Some(MessageType::Group)
        } else if c == 0x3 {
            Some(MessageType::LocalJoin)
        } else if c == 0x5 {
            Some(MessageType::StopActivity)
        } else if c == 0x19 {
            Some(MessageType::AuxiliaryStream)
        } else if c == 0x1a {
            Some(MessageType::ActiveSurfaceChange)
        } else if c == 0x1b {
            Some(MessageType::Navigate)
        } else if c == 0x1c {
            Some(MessageType::Json)
        } else if c == 0x1d {
            Some(MessageType::Tunnel)
        } else if c == 0x1e {
            Some(MessageType::ConsoleStatus)
        } else if c == 0x1f {
            Some(MessageType::TitleTextConfiguration)
        } else if c == 0x20 {
            Some(MessageType::TitleTextInput)
        } else if c == 0x21 {
            Some(MessageType::TitleTextSelection)
        } else if c == 0x22 {
            Some(MessageType::MirroringRequest)
        } else if c == 0x23 {
            Some(MessageType::TitleLaunch)
        } else if c == 0x26 {
            Some(MessageType::StartChannelRequest)
        } else if c == 0x27 {
            Some(MessageType::StartChannelResponse)
        } else if c == 0x28 {
            Some(MessageType::StopChannel)
        } else if c == 0x29 {
            Some(MessageType::System)
        } else if c == 0x2a {
            Some(MessageType::Disconnect)
        } else if c == 0x2e {
            Some(MessageType::TitleTouch)
        } else if c == 0x2f {
            Some(MessageType::Accelerometer)
        } else if c == 0x30 {
            Some(MessageType::Gyrometer)
        } else if c == 0x31 {
            Some(MessageType::Inclinometer)
        } else if c == 0x32 {
            Some(MessageType::Compass)
        } else if c == 0x33 {
            Some(MessageType::Orientation)
        } else if c == 0x36 {
            Some(MessageType::PairedIdentityStateChanged)
        } else if c == 0x37 {
            Some(MessageType::Unsnap)
        } else if c == 0x38 {
            Some(MessageType::GameDvrRecord)
        } else if c == 0x39 {
            Some(MessageType::PowerOff)
        } else if c == 0xf00 {
            Some(MessageType::MediaControllerRemoved)
        } else if c == 0xf01 {
            Some(MessageType::MediaCommand)
        } else if c == 0xf02 {
            Some(MessageType::MediaCommandResult)
        } else if c == 0xf03 {
            Some(MessageType::MediaState)
        } else if c == 0xf0a {
            Some(MessageType::Gamepad)
        } else if c == 0xf2b {
            Some(MessageType::SystemTextConfiguration)
        } else if c == 0xf2c {
            Some(MessageType::SystemTextInput)
        } else if c == 0xf2e {
            Some(MessageType::SystemTouch)
        } else if c == 0xf34 {
            Some(MessageType::SystemTextAcknowledge)
        } else if c == 0xf35 {
            Some(MessageType::SystemTextDone)
        } else {
            None
        }
    }
}

// ---------------------------------------------------------------------------
// MessageHeaderFlags
// ---------------------------------------------------------------------------
/// The decomposed 16-bit flags word of a message header: message kind in
/// bits 0–11, need-ack in bit 13, and the version in bits 14–15.  Bit 14
/// doubles as the fragment flag, so a carried value is consistent only when
/// `is_fragment` equals the low version bit.  Bit 12, which no field of the
/// protocol names, is carried in `unk` so that the literal word survives a
/// decode and re-encode unchanged.
#[derive(Clone, Copy, Debug, PartialEq, Eq, Structural)]
pub struct MessageHeaderFlags {
    pub msg_type: MessageType,
    pub need_ack: bool,
    pub is_fragment: bool,
    pub version: u16,
    pub unk: bool,
}

/// A flags value the word can carry.
pub open spec fn flags_wf(f: MessageHeaderFlags) -> bool {
    &&& f.version < 4
    &&& f.is_fragment == (f.version % 2 == 1)
}

/// The packed flags word.
pub open spec fn flags_word(f: MessageHeaderFlags) -> u16
    recommends
        flags_wf(f),
{
    (mtype_code(f.msg_type) + (if f.unk {
        0x1000int
    } else {
        0int
    }) + (if f.need_ack {
        0x2000int
    } else {
        0int
    }) + (f.version % 4) * 0x4000) as u16
}

/// Unpacks a flags word; fails exactly when the kind code in bits 0–11 is
/// unknown.
pub fn parse_flags(w: u16) -> (r: Option<MessageHeaderFlags>)
    ensures
        r matches Some(f) ==> flags_wf(f) && flags_word(f) == w,
        forall|f: MessageHeaderFlags|
            flags_wf(f) && #[trigger] flags_word(f) == w ==> r == Some(f),
        r is None <==> mtype_of_code(w % 0x1000) is None,
{
    let code: u16 = w % 0x1000;
    let unk: bool = (w / 0x1000) % 2 == 1;
    let need_ack: bool = (w / 0x2000) % 2 == 1;
    let version: u16 = w / 0x4000;
    let is_fragment: bool = version % 2 == 1;
    proof {
        assert forall|f: MessageHeaderFlags|
            flags_wf(f) && #[trigger] flags_word(f) == w implies mtype_code(f.msg_type) == code
            && (if f.need_ack {
            1int
        } else {
            0int
        }) == ((w / 0x2000) % 2) && (if f.unk {
            1int
        } else {
            0int
        }) == ((w / 0x1000) % 2) && f.version == w / 0x4000 by {
            lemma_mtype_code(f.msg_type);
            let c = mtype_code(f.msg_type) as int;
            let unkb: int = if f.unk {
                1int
            } else {
                0int
            };
            let ack: int = if f.need_ack {
                1int
            } else {
                0int
            };
            let v = f.version as int;
            crate::bytes::lemma_digit(w as int, 0x4000, v, c + unkb * 0x1000 + ack * 0x2000);
            crate::bytes::lemma_digit(w as int, 0x2000, v * 2 + ack, c + unkb * 0x1000);
            crate::bytes::lemma_digit(v * 2 + ack, 2, v, ack);
            crate::bytes::lemma_digit(w as int, 0x1000, v * 4 + ack * 2 + unkb, c);
            crate::bytes::lemma_digit(v * 4 + ack * 2 + unkb, 2, v * 2 + ack, unkb);
        }
    }
    let msg_type = match MessageType::from_code(code) {
        Some(m) => m,
        None => {
            proof {
                assert forall|f: MessageHeaderFlags|
                    !(flags_wf(f) && #[trigger] flags_word(f) == w) by {
                    if flags_wf(f) && flags_word(f) == w {
                        lemma_mtype_code(f.msg_type);
                    }
                }
            }
            return None;
        },
    };
    let f = MessageHeaderFlags { msg_type, need_ack, is_fragment, version, unk };
    proof {
        lemma_mtype_code(msg_type);
        crate::bytes::lemma_digit(w as int, 0x4000, version as int, w as int % 0x4000);
        assert(flags_word(f) == w) by {
            let c = mtype_code(msg_type) as int;
            let unkb: int = if unk {
                1int
            } else {
                0int
            };
            let ack: int = if need_ack {
                1int
            } else {
                0int
            };
            let v = version as int;
            assert(w as int == v * 0x4000 + (w as int % 0x4000));
            assert((w as int % 0x4000) / 0x2000 == ack && (w as int % 0x4000) % 0x2000 == w as int
                % 0x2000) by {
                crate::bytes::lemma_digit(w as int, 0x2000, v * 2 + ack, w as int % 0x2000);
                crate::bytes::lemma_digit(w as int % 0x4000, 0x2000, ack, w as int % 0x2000);
            }
            assert((w as int % 0x2000) / 0x1000 == unkb && (w as int % 0x2000) % 0x1000 == w as int
                % 0x1000) by {
                crate::bytes::lemma_digit(w as int, 0x1000, v * 4 + ack * 2 + unkb, w as int
                    % 0x1000);
                crate::bytes::lemma_digit(w as int % 0x2000, 0x1000, unkb, w as int % 0x1000);
                crate::bytes::lemma_digit(v * 4 + ack * 2 + unkb, 2, v * 2 + ack, unkb);
            }
            assert(w as int % 0x1000 == c) by {
                crate::bytes::lemma_digit(w as int, 0x1000, v * 4 + ack * 2 + unkb, c);
            }
        }
        assert forall|f2: MessageHeaderFlags|
            flags_wf(f2) && #[trigger] flags_word(f2) == w implies f2 == f by {
            lemma_mtype_code(f2.msg_type);
        }
    }
    Some(f)
}

/// Packs a flags value into its word.
pub fn build_flags(f: &MessageHeaderFlags) -> (r: u16)
    requires
        flags_wf(*f),
    ensures
        r == flags_word(*f),
{
    proof {
        lemma_mtype_code(f.msg_type);
    }
    f.msg_type.code() + (if f.unk {
        0x1000u16
    } else {
        0u16
    }) + (if f.need_ack {
        0x2000u16
    } else {
        0u16
    }) + (f.version % 4) * 0x4000
}

// ---------------------------------------------------------------------------
// MessageHeader
// ---------------------------------------------------------------------------
/// The 26-byte header of a message packet.
#[derive(Clone, Copy, Debug, PartialEq, Eq, Structural)]
pub struct MessageHeader {
    pub pkt_type: Type,
    pub protected_payload_length: u16,
    pub sequence_number: u32,
    pub target_participant_id: u32,
    pub source_participant_id: u32,
    pub flags: MessageHeaderFlags,
    pub channel_id: u64,
}

/// A header value the wire can carry.
pub open spec fn mheader_wf(h: MessageHeader) -> bool {
    &&& h.pkt_type == Type::Message
    &&& flags_wf(h.flags)
}

/// The wire image of a message header: always 26 bytes.
pub open spec fn mheader_bytes(h: MessageHeader) -> Seq<u8> {
    be16(type_code(h.pkt_type)) + be16(h.protected_payload_length) + be32(h.sequence_number)
        + be32(h.target_participant_id) + be32(h.source_participant_id) + be16(flags_word(h.flags))
        + be64(h.channel_id)
}

/// The header byte length is constant.
pub proof fn lemma_mheader_len(h: MessageHeader)
    ensures
        mheader_bytes(h).len() == 26,
{
}

/// The message header region stands at the start of `d`.
pub open spec fn mheader_at(d: Seq<u8>, h: MessageHeader) -> bool {
    &&& mheader_wf(h)
    &&& 26 <= d.len()
    &&& d.subrange(0, 26) == mheader_bytes(h)
}

/// Reads the message header at the start of `d`.
pub fn parse_message_header(d: &[u8]) -> (r: Result<MessageHeader, crate::packet::ReadError>)
    ensures
        r matches Ok(h) ==> mheader_at(d@, h),
        forall|h: MessageHeader| #[trigger] mheader_at(d@, h) ==> r == Ok::<
            MessageHeader,
            crate::packet::ReadError,
        >(h),
        r matches Err(e) ==> e == crate::packet::ReadError::Truncated || e
            == crate::packet::ReadError::UnknownKind || e
            == crate::packet::ReadError::InvalidMessageKind,
{
    proof {
        assert forall|h: MessageHeader| #[trigger]
            mheader_at(d@, h) implies d@.subrange(0, 2) =~= be16(type_code(h.pkt_type))
            && d@.subrange(2, 4) =~= be16(h.protected_payload_length) && d@.subrange(4, 8) =~= be32(
            h.sequence_number,
        ) && d@.subrange(8, 12) =~= be32(h.target_participant_id) && d@.subrange(12, 16) =~= be32(
            h.source_participant_id,
        ) && d@.subrange(16, 18) =~= be16(flags_word(h.flags)) && d@.subrange(18, 26) =~= be64(
            h.channel_id,
        ) by {
            crate::bytes::lemma_region7(
                d@,
                0,
                be16(type_code(h.pkt_type)),
                be16(h.protected_payload_length),
                be32(h.sequence_number),
                be32(h.target_participant_id),
                be32(h.source_participant_id),
                be16(flags_word(h.flags)),
                be64(h.channel_id),
            );
        }
    }
    let (code, p1) = match read_u16(d, 0) {
        Ok(v) => v,
        Err(_) => {
            return Err(crate::packet::ReadError::Truncated);
        },
    };
    if code != 0xD00D {
        proof {
            assert forall|h: MessageHeader| !mheader_at(d@, h) by {
                if mheader_at(d@, h) {
                    lemma_be16_of(type_code(h.pkt_type));
                }
            }
        }
        return Err(crate::packet::ReadError::UnknownKind);
    }
    let (protected_payload_length, p2) = match read_u16(d, p1) {
        Ok(v) => v,
        Err(_) => {
            return Err(crate::packet::ReadError::Truncated);
        },
    };
    let (sequence_number, p3) = match read_u32(d, p2) {
        Ok(v) => v,
        Err(_) => {
            return Err(crate::packet::ReadError::Truncated);
        },
    };
    let (target_participant_id, p4) = match read_u32(d, p3) {
        Ok(v) => v,
        Err(_) => {
            return Err(crate::packet::ReadError::Truncated);
        },
    };
    let (source_participant_id, p5) = match read_u32(d, p4) {
        Ok(v) => v,
        Err(_) => {
            return Err(crate::packet::ReadError::Truncated);
        },
    };
    let (flags_w, p6) = match read_u16(d, p5) {
        Ok(v) => v,
        Err(_) => {
            return Err(crate::packet::ReadError::Truncated);
        },
    };
    let flags = match parse_flags(flags_w) {
        Some(f) => f,
        None => {
            proof {
                assert forall|h: MessageHeader| !mheader_at(d@, h) by {
                    if mheader_at(d@, h) {
                        lemma_be16_of(flags_word(h.flags));
                    }
                }
            }
            return Err(crate::packet::ReadError::InvalidMessageKind);
        },
    };
    let (channel_id, _p7) = match read_u64(d, p6) {
        Ok(v) => v,
        Err(_) => {
            return Err(crate::packet::ReadError::Truncated);
        },
    };
    let h = MessageHeader {
        pkt_type: Type::Message,
        protected_payload_length,
        sequence_number,
        target_participant_id,
        source_participant_id,
        flags,
        channel_id,
    };
    proof {
        assert(mheader_bytes(h) =~= d@.subrange(0, 26));
        assert forall|h2: MessageHeader| #[trigger] mheader_at(d@, h2) implies h2 == h by {
            lemma_be16_of(type_code(h2.pkt_type));
            lemma_be16_of(h2.protected_payload_length);
            lemma_be32_of(h2.sequence_number);
            lemma_be32_of(h2.target_participant_id);
            lemma_be32_of(h2.source_participant_id);
            lemma_be16_of(flags_word(h2.flags));
            lemma_be64_of(h2.channel_id);
            assert(flags_word(h2.flags) == flags_w);
            assert(h2.flags == flags);
            assert(h2.pkt_type == Type::Message);
        }
    }
    Ok(h)
}

/// Appends the wire image of a message header.
pub fn write_message_header(out: &mut Vec<u8>, h: &MessageHeader)
    requires
        flags_wf(h.flags),
    ensures
        final(out)@ =~= old(out)@ + mheader_bytes(*h),
{
    write_u16(out, h.pkt_type.code());
    write_u16(out, h.protected_payload_length);
    write_u32(out, h.sequence_number);
    write_u32(out, h.target_participant_id);
    write_u32(out, h.source_participant_id);
    write_u16(out, build_flags(&h.flags));
    write_u64(out, h.channel_id);
}

/// The local-join payload a client sends when it joins a console.
#[derive(Clone, Debug, PartialEq)]
pub struct LocalJoinData {
    pub device_type: u16,
    pub native_width: u16,
    pub native_height: u16,
    pub dpi_x: u16,
    pub dpi_y: u16,
    pub device_capabilities: u64,
    pub client_version: u32,
    pub os_major_version: u32,
    pub os_minor_version: u32,
    pub display_name: SGString,
}

/// The mathematical image of a `LocalJoinData` value.
pub ghost struct LocalJoinDataModel {
    pub device_type: u16,
    pub native_width: u16,
    pub native_height: u16,
    pub dpi_x: u16,
    pub dpi_y: u16,
    pub device_capabilities: u64,
    pub client_version: u32,
    pub os_major_version: u32,
    pub os_minor_version: u32,
    pub display_name: Seq<u8>,
}

impl View for LocalJoinData {
    type V = LocalJoinDataModel;

    open spec fn view(&self) -> LocalJoinDataModel {
        LocalJoinDataModel {
            device_type: self.device_type,
            native_width: self.native_width,
            native_height: self.native_height,
            dpi_x: self.dpi_x,
            dpi_y: self.dpi_y,
            device_capabilities: self.device_capabilities,
            client_version: self.client_version,
            os_major_version: self.os_major_version,
            os_minor_version: self.os_minor_version,
            display_name: self.display_name@,
        }
    }
}

/// A `LocalJoinData` image the wire can carry.
pub open spec fn local_join_wf(q: LocalJoinDataModel) -> bool {
    sg_wf(q.display_name)
}

/// The wire image of a `LocalJoinData`.
pub open spec fn local_join_bytes(q: LocalJoinDataModel) -> Seq<u8> {
    be16(q.device_type) + be16(q.native_width) + be16(q.native_height) + be16(q.dpi_x) + be16(q.dpi_y) + be64(q.device_capabilities) + be32(q.client_version) + be32(q.os_major_version) + be32(q.os_minor_version) + sg_bytes(q.display_name)
}

/// The field regions of a `LocalJoinData` image standing as all of `d`.
pub proof fn lemma_local_join_parts(d: Seq<u8>, q: LocalJoinDataModel)
    requires
        local_join_wf(q),
        local_join_bytes(q) == d,
    ensures
        d.len() == 0 + (be16(q.device_type).len() as int) + (be16(q.native_width).len() as int) + (be16(q.native_height).len() as int) + (be16(q.dpi_x).len() as int) + (be16(q.dpi_y).len() as int) + (be64(q.device_capabilities).len() as int) + (be32(q.client_version).len() as int) + (be32(q.os_major_version).len() as int) + (be32(q.os_minor_version).len() as int) + (sg_bytes(q.display_name).len() as int),
        d.subrange(0, 0 + (be16(q.device_type).len() as int)) =~= be16(q.device_type),
        d.subrange(0 + (be16(q.device_type).len() as int), 0 + (be16(q.device_type).len() as int) + (be16(q.native_width).len() as int)) =~= be16(q.native_width),
        d.subrange(0 + (be16(q.device_type).len() as int) + (be16(q.native_width).len() as int), 0 + (be16(q.device_type).len() as int) + (be16(q.native_width).len() as int) + (be16(q.native_height).len() as int)) =~= be16(q.native_height),
        d.subrange(0 + (be16(q.device_type).len() as int) + (be16(q.native_width).len() as int) + (be16(q.native_height).len() as int), 0 + (be16(q.device_type).len() as int) + (be16(q.native_width).len() as int) + (be16(q.native_height).len() as int) + (be16(q.dpi_x).len() as int)) =~= be16(q.dpi_x),
        d.subrange(0 + (be16(q.device_type).len() as int) + (be16(q.native_width).len() as int) + (be16(q.native_height).len() as int) + (be16(q.dpi_x).len() as int), 0 + (be16(q.device_type).len() as int) + (be16(q.native_width).len() as int) + (be16(q.native_height).len() as int) + (be16(q.dpi_x).len() as int) + (be16(q.dpi_y).len() as int)) =~= be16(q.dpi_y),
        d.subrange(0 + (be16(q.device_type).len() as int) + (be16(q.native_width).len() as int) + (be16(q.native_height).len() as int) + (be16(q.dpi_x).len() as int) + (be16(q.dpi_y).len() as int), 0 + (be16(q.device_type).len() as int) + (be16(q.native_width).len() as int) + (be16(q.native_height).len() as int) + (be16(q.dpi_x).len() as int) + (be16(q.dpi_y).len() as int) + (be64(q.device_capabilities).len() as int)) =~= be64(q.device_capabilities),
        d.subrange(0 + (be16(q.device_type).len() as int) + (be16(q.native_width).len() as int) + (be16(q.native_height).len() as int) + (be16(q.dpi_x).len() as int) + (be16(q.dpi_y).len() as int) + (be64(q.device_capabilities).len() as int), 0 + (be16(q.device_type).len() as int) + (be16(q.native_width).len() as int) + (be16(q.native_height).len() as int) + (be16(q.dpi_x).len() as int) + (be16(q.dpi_y).len() as int) + (be64(q.device_capabilities).len() as int) + (be32(q.client_version).len() as int)) =~= be32(q.client_version),
        d.subrange(0 + (be16(q.device_type).len() as int) + (be16(q.native_width).len() as int) + (be16(q.native_height).len() as int) + (be16(q.dpi_x).len() as int) + (be16(q.dpi_y).len() as int) + (be64(q.device_capabilities).len() as int) + (be32(q.client_version).len() as int), 0 + (be16(q.device_type).len() as int) + (be16(q.native_width).len() as int) + (be16(q.native_height).len() as int) + (be16(q.dpi_x).len() as int) + (be16(q.dpi_y).len() as int) + (be64(q.device_capabilities).len() as int) + (be32(q.client_version).len() as int) + (be32(q.os_major_version).len() as int)) =~= be32(q.os_major_version),
        d.subrange(0 + (be16(q.device_type).len() as int) + (be16(q.native_width).len() as int) + (be16(q.native_height).len() as int) + (be16(q.dpi_x).len() as int) + (be16(q.dpi_y).len() as int) + (be64(q.device_capabilities).len() as int) + (be32(q.client_version).len() as int) + (be32(q.os_major_version).len() as int), 0 + (be16(q.device_type).len() as int) + (be16(q.native_width).len() as int) + (be16(q.native_height).len() as int) + (be16(q.dpi_x).len() as int) + (be16(q.dpi_y).len() as int) + (be64(q.device_capabilities).len() as int) + (be32(q.client_version).len() as int) + (be32(q.os_major_version).len() as int) + (be32(q.os_minor_version).len() as int)) =~= be32(q.os_minor_version),
        d.subrange(0 + (be16(q.device_type).len() as int) + (be16(q.native_width).len() as int) + (be16(q.native_height).len() as int) + (be16(q.dpi_x).len() as int) + (be16(q.dpi_y).len() as int) + (be64(q.device_capabilities).len() as int) + (be32(q.client_version).len() as int) + (be32(q.os_major_version).len() as int) + (be32(q.os_minor_version).len() as int), 0 + (be16(q.device_type).len() as int) + (be16(q.native_width).len() as int) + (be16(q.native_height).len() as int) + (be16(q.dpi_x).len() as int) + (be16(q.dpi_y).len() as int) + (be64(q.device_capabilities).len() as int) + (be32(q.client_version).len() as int) + (be32(q.os_major_version).len() as int) + (be32(q.os_minor_version).len() as int) + (sg_bytes(q.display_name).len() as int)) =~= sg_bytes(q.display_name),
{
    assert(d.subrange(0, d.len() as int) =~= d);
    crate::bytes::lemma_region10(
        d,
        0,
        be16(q.device_type),
        be16(q.native_width),
        be16(q.native_height),
        be16(q.dpi_x),
        be16(q.dpi_y),
        be64(q.device_capabilities),
        be32(q.client_version),
        be32(q.os_major_version),
        be32(q.os_minor_version),
        sg_bytes(q.display_name),
    );
}

/// Reads a whole `LocalJoinData` region.
#[verifier::rlimit(100)]
#[verifier::spinoff_prover]
pub fn parse_local_join(d: &[u8]) -> (r: Result<LocalJoinData, FieldError>)
    ensures
        r matches Ok(p) ==> local_join_wf(p@) && local_join_bytes(p@) == d@,
        forall|q: LocalJoinDataModel|
            (local_join_wf(q) && #[trigger] local_join_bytes(q) == d@) ==> (r matches Ok(p) && p@ == q),
{
    proof {
        assert forall|q: LocalJoinDataModel| local_join_wf(q) && local_join_bytes(q) == d@ implies local_join_bytes(q).len() == d@.len() by {
            lemma_local_join_parts(d@, q);
        }
        assert forall|q: LocalJoinDataModel| local_join_wf(q) && local_join_bytes(q) == d@ implies sg_at(d@, 30, q.display_name, 30 + (sg_bytes(q.display_name).len() as int)) by {
            lemma_local_join_parts(d@, q);
            assert(sg_at(d@, 30, q.display_name, 30 + (sg_bytes(q.display_name).len() as int)));
        }
    }
    let (f0, p1) = match read_u16(d, 0) {
        Ok(v) => v,
        Err(e) => {
            return Err(e);
        },
    };
    let (f1, p2) = match read_u16(d, p1) {
        Ok(v) => v,
        Err(e) => {
            return Err(e);
        },
    };
    let (f2, p3) = match read_u16(d, p2) {
        Ok(v) => v,
        Err(e) => {
            return Err(e);
        },
    };
    let (f3, p4) = match read_u16(d, p3) {
        Ok(v) => v,
        Err(e) => {
            return Err(e);
        },
    };
    let (f4, p5) = match read_u16(d, p4) {
        Ok(v) => v,
        Err(e) => {
            return Err(e);
        },
    };
    let (f5, p6) = match read_u64(d, p5) {
        Ok(v) => v,
        Err(e) => {
            return Err(e);
        },
    };
    let (f6, p7) = match read_u32(d, p6) {
        Ok(v) => v,
        Err(e) => {
            return Err(e);
        },
    };
    let (f7, p8) = match read_u32(d, p7) {
        Ok(v) => v,
        Err(e) => {
            return Err(e);
        },
    };
    let (f8, p9) = match read_u32(d, p8) {
        Ok(v) => v,
        Err(e) => {
            return Err(e);
        },
    };
    let (f9, p10) = match read_sgstring(d, p9) {
        Ok(v) => v,
        Err(e) => {
            return Err(e);
        },
    };
    proof {
        assert forall|q: LocalJoinDataModel| local_join_wf(q) && local_join_bytes(q) == d@ implies q.display_name == f9@ by {
            lemma_local_join_parts(d@, q);
            assert(sg_at(d@, p9 as int, q.display_name, p9 as int + (sg_bytes(q.display_name).len() as int)));
            assert(q.display_name == f9@);
        }
    }
    if p10 != d.len() {
        return Err(FieldError::Leftover);
    }
    let p = LocalJoinData {
        device_type: f0,
        native_width: f1,
        native_height: f2,
        dpi_x: f3,
        dpi_y: f4,
        device_capabilities: f5,
        client_version: f6,
        os_major_version: f7,
        os_minor_version: f8,
        display_name: f9,
    };
    proof {
        assert(local_join_bytes(p@) =~= d@);
        assert forall|q: LocalJoinDataModel| (local_join_wf(q) && local_join_bytes(q) == d@) implies p@ == q by {
            lemma_local_join_parts(d@, q);
            crate::bytes::lemma_be16_of(q.device_type);
            assert(q.device_type == f0);
            crate::bytes::lemma_be16_of(q.native_width);
            assert(q.native_width == f1);
            crate::bytes::lemma_be16_of(q.native_height);
            assert(q.native_height == f2);
            crate::bytes::lemma_be16_of(q.dpi_x);
            assert(q.dpi_x == f3);
            crate::bytes::lemma_be16_of(q.dpi_y);
            assert(q.dpi_y == f4);
            crate::bytes::lemma_be64_of(q.device_capabilities);
            assert(q.device_capabilities == f5);
            crate::bytes::lemma_be32_of(q.client_version);
            assert(q.client_version == f6);
            crate::bytes::lemma_be32_of(q.os_major_version);
            assert(q.os_major_version == f7);
            crate::bytes::lemma_be32_of(q.os_minor_version);
            assert(q.os_minor_version == f8);
            assert(sg_at(d@, p9 as int, q.display_name, p9 + (sg_bytes(q.display_name).len() as int)));
            assert(q.display_name == f9@);
            assert(q == (LocalJoinDataModel {
                device_type: f0,
                native_width: f1,
                native_height: f2,
                dpi_x: f3,
                dpi_y: f4,
                device_capabilities: f5,
                client_version: f6,
                os_major_version: f7,
                os_minor_version: f8,
                display_name: f9@,
            }));
        }
    }
    Ok(p)
}

/// Appends the wire image of a `LocalJoinData`.
pub fn write_local_join(out: &mut Vec<u8>, q: &LocalJoinData) -> (r: Result<(), FieldError>)
    ensures
        r is Ok ==> final(out)@ =~= old(out)@ + local_join_bytes(q@),
        r is Ok <==> q@.display_name.len() <= 0xFFFF,
        r is Err ==> final(out)@ == old(out)@,
        r matches Err(e) ==> e == FieldError::Oversize,
{
    let mut tmp: Vec<u8> = Vec::new();
    write_u16(&mut tmp, q.device_type);
    write_u16(&mut tmp, q.native_width);
    write_u16(&mut tmp, q.native_height);
    write_u16(&mut tmp, q.dpi_x);
    write_u16(&mut tmp, q.dpi_y);
    write_u64(&mut tmp, q.device_capabilities);
    write_u32(&mut tmp, q.client_version);
    write_u32(&mut tmp, q.os_major_version);
    write_u32(&mut tmp, q.os_minor_version);
    match write_sgstring(&mut tmp, &q.display_name) {
        Ok(()) => (),
        Err(e) => {
            return Err(e);
        },
    }
    write_bytes(out, tmp.as_slice());
    Ok(())
}

/// The auxiliary stream setup payload.
#[derive(Clone, Debug, PartialEq)]
pub struct AuxiliaryStreamData {
    pub connection_info_flag: u8,
    pub crypto_key: [u8; 16],
    pub server_iv: [u8; 16],
    pub client_iv: [u8; 16],
    pub sign_hash: [u8; 16],
    pub endpoints_size: u16,
    pub message: SGString,
}

/// The mathematical image of a `AuxiliaryStreamData` value.
pub ghost struct AuxiliaryStreamDataModel {
    pub connection_info_flag: u8,
    pub crypto_key: Seq<u8>,
    pub server_iv: Seq<u8>,
    pub client_iv: Seq<u8>,
    pub sign_hash: Seq<u8>,
    pub endpoints_size: u16,
    pub message: Seq<u8>,
}

impl View for AuxiliaryStreamData {
    type V = AuxiliaryStreamDataModel;

    open spec fn view(&self) -> AuxiliaryStreamDataModel {
        AuxiliaryStreamDataModel {
            connection_info_flag: self.connection_info_flag,
            crypto_key: self.crypto_key@,
            server_iv: self.server_iv@,
            client_iv: self.client_iv@,
            sign_hash: self.sign_hash@,
            endpoints_size: self.endpoints_size,
            message: self.message@,
        }
    }
}

/// A `AuxiliaryStreamData` image the wire can carry.
pub open spec fn auxiliary_stream_wf(q: AuxiliaryStreamDataModel) -> bool {
    &&& q.crypto_key.len() == 16
    &&& q.server_iv.len() == 16
    &&& q.client_iv.len() == 16
    &&& q.sign_hash.len() == 16
    &&& sg_wf(q.message)
}

/// The wire image of a `AuxiliaryStreamData`.
pub open spec fn auxiliary_stream_bytes(q: AuxiliaryStreamDataModel) -> Seq<u8> {
    seq![q.connection_info_flag] + q.crypto_key + q.server_iv + q.client_iv + q.sign_hash + be16(q.endpoints_size) + sg_bytes(q.message)
}

/// The field regions of a `AuxiliaryStreamData` image standing as all of `d`.
pub proof fn lemma_auxiliary_stream_parts(d: Seq<u8>, q: AuxiliaryStreamDataModel)
    requires
        auxiliary_stream_wf(q),
        auxiliary_stream_bytes(q) == d,
    ensures
        d.len() == 0 + (seq![q.connection_info_flag].len() as int) + (q.crypto_key.len() as int) + (q.server_iv.len() as int) + (q.client_iv.len() as int) + (q.sign_hash.len() as int) + (be16(q.endpoints_size).len() as int) + (sg_bytes(q.message).len() as int),
        d.subrange(0, 0 + (seq![q.connection_info_flag].len() as int)) =~= seq![q.connection_info_flag],
        d.subrange(0 + (seq![q.connection_info_flag].len() as int), 0 + (seq![q.connection_info_flag].len() as int) + (q.crypto_key.len() as int)) =~= q.crypto_key,
        d.subrange(0 + (seq![q.connection_info_flag].len() as int) + (q.crypto_key.len() as int), 0 + (seq![q.connection_info_flag].len() as int) + (q.crypto_key.len() as int) + (q.server_iv.len() as int)) =~= q.server_iv,
        d.subrange(0 + (seq![q.connection_info_flag].len() as int) + (q.crypto_key.len() as int) + (q.server_iv.len() as int), 0 + (seq![q.connection_info_flag].len() as int) + (q.crypto_key.len() as int) + (q.server_iv.len() as int) + (q.client_iv.len() as int)) =~= q.client_iv,
        d.subrange(0 + (seq![q.connection_info_flag].len() as int) + (q.crypto_key.len() as int) + (q.server_iv.len() as int) + (q.client_iv.len() as int), 0 + (seq![q.connection_info_flag].len() as int) + (q.crypto_key.len() as int) + (q.server_iv.len() as int) + (q.client_iv.len() as int) + (q.sign_hash.len() as int)) =~= q.sign_hash,
        d.subrange(0 + (seq![q.connection_info_flag].len() as int) + (q.crypto_key.len() as int) + (q.server_iv.len() as int) + (q.client_iv.len() as int) + (q.sign_hash.len() as int), 0 + (seq![q.connection_info_flag].len() as int) + (q.crypto_key.len() as int) + (q.server_iv.len() as int) + (q.client_iv.len() as int) + (q.sign_hash.len() as int) + (be16(q.endpoints_size).len() as int)) =~= be16(q.endpoints_size),
        d.subrange(0 + (seq![q.connection_info_flag].len() as int) + (q.crypto_key.len() as int) + (q.server_iv.len() as int) + (q.client_iv.len() as int) + (q.sign_hash.len() as int) + (be16(q.endpoints_size).len() as int), 0 + (seq![q.connection_info_flag].len() as int) + (q.crypto_key.len() as int) + (q.server_iv.len() as int) + (q.client_iv.len() as int) + (q.sign_hash.len() as int) + (be16(q.endpoints_size).len() as int) + (sg_bytes(q.message).len() as int)) =~= sg_bytes(q.message),
{
    assert(d.subrange(0, d.len() as int) =~= d);
    crate::bytes::lemma_region7(
        d,
        0,
        seq![q.connection_info_flag],
        q.crypto_key,
        q.server_iv,
        q.client_iv,
        q.sign_hash,
        be16(q.endpoints_size),
        sg_bytes(q.message),
    );
}

/// Reads a whole `AuxiliaryStreamData` region.
#[verifier::rlimit(100)]
#[verifier::spinoff_prover]
pub fn parse_auxiliary_stream(d: &[u8]) -> (r: Result<AuxiliaryStreamData, FieldError>)
    ensures
        r matches Ok(p) ==> auxiliary_stream_wf(p@) && auxiliary_stream_bytes(p@) == d@,
        forall|q: AuxiliaryStreamDataModel|
            (auxiliary_stream_wf(q) && #[trigger] auxiliary_stream_bytes(q) == d@) ==> (r matches Ok(p) && p@ == q),
{
    proof {
        assert forall|q: AuxiliaryStreamDataModel| auxiliary_stream_wf(q) && auxiliary_stream_bytes(q) == d@ implies auxiliary_stream_bytes(q).len() == d@.len() by {
            lemma_auxiliary_stream_parts(d@, q);
        }
        assert forall|q: AuxiliaryStreamDataModel| auxiliary_stream_wf(q) && auxiliary_stream_bytes(q) == d@ implies sg_at(d@, 67, q.message, 67 + (sg_bytes(q.message).len() as int)) by {
            lemma_auxiliary_stream_parts(d@, q);
            assert(sg_at(d@, 67, q.message, 67 + (sg_bytes(q.message).len() as int)));
        }
    }
    let (f0, p1) = match read_u8(d, 0) {
        Ok(v) => v,
        Err(e) => {
            return Err(e);
        },
    };
    let (f1, p2) = match read_arr::<16>(d, p1) {
        Ok(v) => v,
        Err(e) => {
            return Err(e);
        },
    };
    let (f2, p3) = match read_arr::<16>(d, p2) {
        Ok(v) => v,
        Err(e) => {
            return Err(e);
        },
    };
    let (f3, p4) = match read_arr::<16>(d, p3) {
        Ok(v) => v,
        Err(e) => {
            return Err(e);
        },
    };
    let (f4, p5) = match read_arr::<16>(d, p4) {
        Ok(v) => v,
        Err(e) => {
            return Err(e);
        },
    };
    let (f5, p6) = match read_u16(d, p5) {
        Ok(v) => v,
        Err(e) => {
            return Err(e);
        },
    };
    let (f6, p7) = match read_sgstring(d, p6) {
        Ok(v) => v,
        Err(e) => {
            return Err(e);
        },
    };
    proof {
        assert forall|q: AuxiliaryStreamDataModel| auxiliary_stream_wf(q) && auxiliary_stream_bytes(q) == d@ implies q.message == f6@ by {
            lemma_auxiliary_stream_parts(d@, q);
            assert(sg_at(d@, p6 as int, q.message, p6 as int + (sg_bytes(q.message).len() as int)));
            assert(q.message == f6@);
        }
    }
    if p7 != d.len() {
        return Err(FieldError::Leftover);
    }
    let p = AuxiliaryStreamData {
        connection_info_flag: f0,
        crypto_key: f1,
        server_iv: f2,
        client_iv: f3,
        sign_hash: f4,
        endpoints_size: f5,
        message: f6,
    };
    proof {
        assert(auxiliary_stream_bytes(p@) =~= d@);
        assert forall|q: AuxiliaryStreamDataModel| (auxiliary_stream_wf(q) && auxiliary_stream_bytes(q) == d@) implies p@ == q by {
            lemma_auxiliary_stream_parts(d@, q);
            assert(q.connection_info_flag == d@[0 as int]);
            assert(q.crypto_key =~= f1@);
            assert(q.server_iv =~= f2@);
            assert(q.client_iv =~= f3@);
            assert(q.sign_hash =~= f4@);
            crate::bytes::lemma_be16_of(q.endpoints_size);
            assert(q.endpoints_size == f5);
            assert(sg_at(d@, p6 as int, q.message, p6 + (sg_bytes(q.message).len() as int)));
            assert(q.message == f6@);
            assert(q == (AuxiliaryStreamDataModel {
                connection_info_flag: f0,
                crypto_key: f1@,
                server_iv: f2@,
                client_iv: f3@,
                sign_hash: f4@,
                endpoints_size: f5,
                message: f6@,
            }));
        }
    }
    Ok(p)
}

/// Appends the wire image of a `AuxiliaryStreamData`.
pub fn write_auxiliary_stream(out: &mut Vec<u8>, q: &AuxiliaryStreamData) -> (r: Result<(), FieldError>)
    ensures
        r is Ok ==> final(out)@ =~= old(out)@ + auxiliary_stream_bytes(q@),
        r is Ok <==> q@.message.len() <= 0xFFFF,
        r is Err ==> final(out)@ == old(out)@,
        r matches Err(e) ==> e == FieldError::Oversize,
{
    let mut tmp: Vec<u8> = Vec::new();
    write_u8(&mut tmp, q.connection_info_flag);
    write_bytes(&mut tmp, q.crypto_key.as_slice());
    write_bytes(&mut tmp, q.server_iv.as_slice());
    write_bytes(&mut tmp, q.client_iv.as_slice());
    write_bytes(&mut tmp, q.sign_hash.as_slice());
    write_u16(&mut tmp, q.endpoints_size);
    match write_sgstring(&mut tmp, &q.message) {
        Ok(()) => (),
        Err(e) => {
            return Err(e);
        },
    }
    write_bytes(out, tmp.as_slice());
    Ok(())
}

/// The active surface change payload.
#[derive(Clone, Debug, PartialEq)]
pub struct ActiveSurfaceChangeData {
    pub surface_type: u16,
    pub server_tcp_port: u16,
    pub server_udp_port: u16,
    pub session_id: UUID,
    pub render_width: u16,
    pub render_height: u16,
    pub master_session_key: [u8; 16],
}

/// The mathematical image of a `ActiveSurfaceChangeData` value.
pub ghost struct ActiveSurfaceChangeDataModel {
    pub surface_type: u16,
    pub server_tcp_port: u16,
    pub server_udp_port: u16,
    pub session_id: Seq<u8>,
    pub render_width: u16,
    pub render_height: u16,
    pub master_session_key: Seq<u8>,
}

impl View for ActiveSurfaceChangeData {
    type V = ActiveSurfaceChangeDataModel;

    open spec fn view(&self) -> ActiveSurfaceChangeDataModel {
        ActiveSurfaceChangeDataModel {
            surface_type: self.surface_type,
            server_tcp_port: self.server_tcp_port,
            server_udp_port: self.server_udp_port,
            session_id: self.session_id@,
            render_width: self.render_width,
            render_height: self.render_height,
            master_session_key: self.master_session_key@,
        }
    }
}

/// A `ActiveSurfaceChangeData` image the wire can carry.
pub open spec fn active_surface_change_wf(q: ActiveSurfaceChangeDataModel) -> bool {
    &&& q.session_id.len() == 16
    &&& q.master_session_key.len() == 16
}

/// The wire image of a `ActiveSurfaceChangeData`.
pub open spec fn active_surface_change_bytes(q: ActiveSurfaceChangeDataModel) -> Seq<u8> {
    be16(q.surface_type) + be16(q.server_tcp_port) + be16(q.server_udp_port) + q.session_id + be16(q.render_width) + be16(q.render_height) + q.master_session_key
}

/// The field regions of a `ActiveSurfaceChangeData` image standing as all of `d`.
pub proof fn lemma_active_surface_change_parts(d: Seq<u8>, q: ActiveSurfaceChangeDataModel)
    requires
        active_surface_change_wf(q),
        active_surface_change_bytes(q) == d,
    ensures
        d.len() == 0 + (be16(q.surface_type).len() as int) + (be16(q.server_tcp_port).len() as int) + (be16(q.server_udp_port).len() as int) + (q.session_id.len() as int) + (be16(q.render_width).len() as int) + (be16(q.render_height).len() as int) + (q.master_session_key.len() as int),
        d.subrange(0, 0 + (be16(q.surface_type).len() as int)) =~= be16(q.surface_type),
        d.subrange(0 + (be16(q.surface_type).len() as int), 0 + (be16(q.surface_type).len() as int) + (be16(q.server_tcp_port).len() as int)) =~= be16(q.server_tcp_port),
        d.subrange(0 + (be16(q.surface_type).len() as int) + (be16(q.server_tcp_port).len() as int), 0 + (be16(q.surface_type).len() as int) + (be16(q.server_tcp_port).len() as int) + (be16(q.server_udp_port).len() as int)) =~= be16(q.server_udp_port),
        d.subrange(0 + (be16(q.surface_type).len() as int) + (be16(q.server_tcp_port).len() as int) + (be16(q.server_udp_port).len() as int), 0 + (be16(q.surface_type).len() as int) + (be16(q.server_tcp_port).len() as int) + (be16(q.server_udp_port).len() as int) + (q.session_id.len() as int)) =~= q.session_id,
        d.subrange(0 + (be16(q.surface_type).len() as int) + (be16(q.server_tcp_port).len() as int) + (be16(q.server_udp_port).len() as int) + (q.session_id.len() as int), 0 + (be16(q.surface_type).len() as int) + (be16(q.server_tcp_port).len() as int) + (be16(q.server_udp_port).len() as int) + (q.session_id.len() as int) + (be16(q.render_width).len() as int)) =~= be16(q.render_width),
        d.subrange(0 + (be16(q.surface_type).len() as int) + (be16(q.server_tcp_port).len() as int) + (be16(q.server_udp_port).len() as int) + (q.session_id.len() as int) + (be16(q.render_width).len() as int), 0 + (be16(q.surface_type).len() as int) + (be16(q.server_tcp_port).len() as int) + (be16(q.server_udp_port).len() as int) + (q.session_id.len() as int) + (be16(q.render_width).len() as int) + (be16(q.render_height).len() as int)) =~= be16(q.render_height),
        d.subrange(0 + (be16(q.surface_type).len() as int) + (be16(q.server_tcp_port).len() as int) + (be16(q.server_udp_port).len() as int) + (q.session_id.len() as int) + (be16(q.render_width).len() as int) + (be16(q.render_height).len() as int), 0 + (be16(q.surface_type).len() as int) + (be16(q.server_tcp_port).len() as int) + (be16(q.server_udp_port).len() as int) + (q.session_id.len() as int) + (be16(q.render_width).len() as int) + (be16(q.render_height).len() as int) + (q.master_session_key.len() as int)) =~= q.master_session_key,
{
    assert(d.subrange(0, d.len() as int) =~= d);
    crate::bytes::lemma_region7(
        d,
        0,
        be16(q.surface_type),
        be16(q.server_tcp_port),
        be16(q.server_udp_port),
        q.session_id,
        be16(q.render_width),
        be16(q.render_height),
        q.master_session_key,
    );
}

/// Reads a whole `ActiveSurfaceChangeData` region.
#[verifier::rlimit(100)]
#[verifier::spinoff_prover]
pub fn parse_active_surface_change(d: &[u8]) -> (r: Result<ActiveSurfaceChangeData, FieldError>)
    ensures
        r matches Ok(p) ==> active_surface_change_wf(p@) && active_surface_change_bytes(p@) == d@,
        forall|q: ActiveSurfaceChangeDataModel|
            (active_surface_change_wf(q) && #[trigger] active_surface_change_bytes(q) == d@) ==> (r matches Ok(p) && p@ == q),
{
    proof {
        assert forall|q: ActiveSurfaceChangeDataModel| active_surface_change_wf(q) && active_surface_change_bytes(q) == d@ implies active_surface_change_bytes(q).len() == d@.len() by {
            lemma_active_surface_change_parts(d@, q);
        }
    }
    let (f0, p1) = match read_u16(d, 0) {
        Ok(v) => v,
        Err(e) => {
            return Err(e);
        },
    };
    let (f1, p2) = match read_u16(d, p1) {
        Ok(v) => v,
        Err(e) => {
            return Err(e);
        },
    };
    let (f2, p3) = match read_u16(d, p2) {
        Ok(v) => v,
        Err(e) => {
            return Err(e);
        },
    };
    let (f3, p4) = match read_uuid(d, p3) {
        Ok(v) => v,
        Err(e) => {
            return Err(e);
        },
    };
    let (f4, p5) = match read_u16(d, p4) {
        Ok(v) => v,
        Err(e) => {
            return Err(e);
        },
    };
    let (f5, p6) = match read_u16(d, p5) {
        Ok(v) => v,
        Err(e) => {
            return Err(e);
        },
    };
    let (f6, p7) = match read_arr::<16>(d, p6) {
        Ok(v) => v,
        Err(e) => {
            return Err(e);
        },
    };
    if p7 != d.len() {
        return Err(FieldError::Leftover);
    }
    let p = ActiveSurfaceChangeData {
        surface_type: f0,
        server_tcp_port: f1,
        server_udp_port: f2,
        session_id: f3,
        render_width: f4,
        render_height: f5,
        master_session_key: f6,
    };
    proof {
        assert(active_surface_change_bytes(p@) =~= d@);
        assert forall|q: ActiveSurfaceChangeDataModel| (active_surface_change_wf(q) && active_surface_change_bytes(q) == d@) implies p@ == q by {
            lemma_active_surface_change_parts(d@, q);
            crate::bytes::lemma_be16_of(q.surface_type);
            assert(q.surface_type == f0);
            crate::bytes::lemma_be16_of(q.server_tcp_port);
            assert(q.server_tcp_port == f1);
            crate::bytes::lemma_be16_of(q.server_udp_port);
            assert(q.server_udp_port == f2);
            assert(q.session_id =~= f3@);
            crate::bytes::lemma_be16_of(q.render_width);
            assert(q.render_width == f4);
            crate::bytes::lemma_be16_of(q.render_height);
            assert(q.render_height == f5);
            assert(q.master_session_key =~= f6@);
            assert(q == (ActiveSurfaceChangeDataModel {
                surface_type: f0,
                server_tcp_port: f1,
                server_udp_port: f2,
                session_id: f3@,
                render_width: f4,
                render_height: f5,
                master_session_key: f6@,
            }));
        }
    }
    Ok(p)
}

/// Appends the wire image of a `ActiveSurfaceChangeData`.
pub fn write_active_surface_change(out: &mut Vec<u8>, q: &ActiveSurfaceChangeData)
    ensures
        final(out)@ =~= old(out)@ + active_surface_change_bytes(q@),
{
    write_u16(out, q.surface_type);
    write_u16(out, q.server_tcp_port);
    write_u16(out, q.server_udp_port);
    write_uuid(out, &q.session_id);
    write_u16(out, q.render_width);
    write_u16(out, q.render_height);
    write_bytes(out, q.master_session_key.as_slice());
}

/// A JSON message: one string.
#[derive(Clone, Debug, PartialEq)]
pub struct JsonData {
    pub text: SGString,
}

/// The mathematical image of a `JsonData` value.
pub ghost struct JsonDataModel {
    pub text: Seq<u8>,
}

impl View for JsonData {
    type V = JsonDataModel;

    open spec fn view(&self) -> JsonDataModel {
        JsonDataModel {
            text: self.text@,
        }
    }
}

/// A `JsonData` image the wire can carry.
pub open spec fn json_wf(q: JsonDataModel) -> bool {
    sg_wf(q.text)
}

/// The wire image of a `JsonData`.
pub open spec fn json_bytes(q: JsonDataModel) -> Seq<u8> {
    sg_bytes(q.text)
}

/// The field regions of a `JsonData` image standing as all of `d`.
pub proof fn lemma_json_parts(d: Seq<u8>, q: JsonDataModel)
    requires
        json_wf(q),
        json_bytes(q) == d,
    ensures
        d.len() == 0 + (sg_bytes(q.text).len() as int),
        d.subrange(0, 0 + (sg_bytes(q.text).len() as int)) =~= sg_bytes(q.text),
{
    assert(d.subrange(0, d.len() as int) =~= d);
    assert(d.subrange(0, d.len() as int) =~= sg_bytes(q.text));
}

/// Reads a whole `JsonData` region.
#[verifier::rlimit(100)]
#[verifier::spinoff_prover]
pub fn parse_json(d: &[u8]) -> (r: Result<JsonData, FieldError>)
    ensures
        r matches Ok(p) ==> json_wf(p@) && json_bytes(p@) == d@,
        forall|q: JsonDataModel|
            (json_wf(q) && #[trigger] json_bytes(q) == d@) ==> (r matches Ok(p) && p@ == q),
{
    proof {
        assert forall|q: JsonDataModel| json_wf(q) && json_bytes(q) == d@ implies json_bytes(q).len() == d@.len() by {
            lemma_json_parts(d@, q);
        }
        assert forall|q: JsonDataModel| json_wf(q) && json_bytes(q) == d@ implies sg_at(d@, 0, q.text, 0 + (sg_bytes(q.text).len() as int)) by {
            lemma_json_parts(d@, q);
            assert(sg_at(d@, 0, q.text, 0 + (sg_bytes(q.text).len() as int)));
        }
    }
    let (f0, p1) = match read_sgstring(d, 0) {
        Ok(v) => v,
        Err(e) => {
            return Err(e);
        },
    };
    proof {
        assert forall|q: JsonDataModel| json_wf(q) && json_bytes(q) == d@ implies q.text == f0@ by {
            lemma_json_parts(d@, q);
            assert(sg_at(d@, 0 as int, q.text, 0 as int + (sg_bytes(q.text).len() as int)));
            assert(q.text == f0@);
        }
    }
    if p1 != d.len() {
        return Err(FieldError::Leftover);
    }
    let p = JsonData {
        text: f0,
    };
    proof {
        assert(json_bytes(p@) =~= d@);
        assert forall|q: JsonDataModel| (json_wf(q) && json_bytes(q) == d@) implies p@ == q by {
            lemma_json_parts(d@, q);
            assert(sg_at(d@, 0 as int, q.text, 0 + (sg_bytes(q.text).len() as int)));
            assert(q.text == f0@);
            assert(q == (JsonDataModel {
                text: f0@,
            }));
        }
    }
    Ok(p)
}

/// Appends the wire image of a `JsonData`.
pub fn write_json(out: &mut Vec<u8>, q: &JsonData) -> (r: Result<(), FieldError>)
    ensures
        r is Ok ==> final(out)@ =~= old(out)@ + json_bytes(q@),
        r is Ok <==> q@.text.len() <= 0xFFFF,
        r is Err ==> final(out)@ == old(out)@,
        r matches Err(e) ==> e == FieldError::Oversize,
{
    let mut tmp: Vec<u8> = Vec::new();
    match write_sgstring(&mut tmp, &q.text) {
        Ok(()) => (),
        Err(e) => {
            return Err(e);
        },
    }
    write_bytes(out, tmp.as_slice());
    Ok(())
}

/// A text-session configuration payload.
#[derive(Clone, Debug, PartialEq)]
pub struct TextConfigurationData {
    pub session_id: u64,
    pub buffer_version: u32,
    pub options: u32,
    pub input_scope: u32,
    pub max_text_len: u32,
    pub locale: SGString,
    pub prompt: SGString,
}

/// The mathematical image of a `TextConfigurationData` value.
pub ghost struct TextConfigurationDataModel {
    pub session_id: u64,
    pub buffer_version: u32,
    pub options: u32,
    pub input_scope: u32,
    pub max_text_len: u32,
    pub locale: Seq<u8>,
    pub prompt: Seq<u8>,
}

impl View for TextConfigurationData {
    type V = TextConfigurationDataModel;

    open spec fn view(&self) -> TextConfigurationDataModel {
        TextConfigurationDataModel {
            session_id: self.session_id,
            buffer_version: self.buffer_version,
            options: self.options,
            input_scope: self.input_scope,
            max_text_len: self.max_text_len,
            locale: self.locale@,
            prompt: self.prompt@,
        }
    }
}

/// A `TextConfigurationData` image the wire can carry.
pub open spec fn text_configuration_wf(q: TextConfigurationDataModel) -> bool {
    &&& sg_wf(q.locale)
    &&& sg_wf(q.prompt)
}

/// The wire image of a `TextConfigurationData`.
pub open spec fn text_configuration_bytes(q: TextConfigurationDataModel) -> Seq<u8> {
    be64(q.session_id) + be32(q.buffer_version) + be32(q.options) + be32(q.input_scope) + be32(q.max_text_len) + sg_bytes(q.locale) + sg_bytes(q.prompt)
}

/// The field regions of a `TextConfigurationData` image standing as all of `d`.
pub proof fn lemma_text_configuration_parts(d: Seq<u8>, q: TextConfigurationDataModel)
    requires
        text_configuration_wf(q),
        text_configuration_bytes(q) == d,
    ensures
        d.len() == 0 + (be64(q.session_id).len() as int) + (be32(q.buffer_version).len() as int) + (be32(q.options).len() as int) + (be32(q.input_scope).len() as int) + (be32(q.max_text_len).len() as int) + (sg_bytes(q.locale).len() as int) + (sg_bytes(q.prompt).len() as int),
        d.subrange(0, 0 + (be64(q.session_id).len() as int)) =~= be64(q.session_id),
        d.subrange(0 + (be64(q.session_id).len() as int), 0 + (be64(q.session_id).len() as int) + (be32(q.buffer_version).len() as int)) =~= be32(q.buffer_version),
        d.subrange(0 + (be64(q.session_id).len() as int) + (be32(q.buffer_version).len() as int), 0 + (be64(q.session_id).len() as int) + (be32(q.buffer_version).len() as int) + (be32(q.options).len() as int)) =~= be32(q.options),
        d.subrange(0 + (be64(q.session_id).len() as int) + (be32(q.buffer_version).len() as int) + (be32(q.options).len() as int), 0 + (be64(q.session_id).len() as int) + (be32(q.buffer_version).len() as int) + (be32(q.options).len() as int) + (be32(q.input_scope).len() as int)) =~= be32(q.input_scope),
        d.subrange(0 + (be64(q.session_id).len() as int) + (be32(q.buffer_version).len() as int) + (be32(q.options).len() as int) + (be32(q.input_scope).len() as int), 0 + (be64(q.session_id).len() as int) + (be32(q.buffer_version).len() as int) + (be32(q.options).len() as int) + (be32(q.input_scope).len() as int) + (be32(q.max_text_len).len() as int)) =~= be32(q.max_text_len),
        d.subrange(0 + (be64(q.session_id).len() as int) + (be32(q.buffer_version).len() as int) + (be32(q.options).len() as int) + (be32(q.input_scope).len() as int) + (be32(q.max_text_len).len() as int), 0 + (be64(q.session_id).len() as int) + (be32(q.buffer_version).len() as int) + (be32(q.options).len() as int) + (be32(q.input_scope).len() as int) + (be32(q.max_text_len).len() as int) + (sg_bytes(q.locale).len() as int)) =~= sg_bytes(q.locale),
        d.subrange(0 + (be64(q.session_id).len() as int) + (be32(q.buffer_version).len() as int) + (be32(q.options).len() as int) + (be32(q.input_scope).len() as int) + (be32(q.max_text_len).len() as int) + (sg_bytes(q.locale).len() as int), 0 + (be64(q.session_id).len() as int) + (be32(q.buffer_version).len() as int) + (be32(q.options).len() as int) + (be32(q.input_scope).len() as int) + (be32(q.max_text_len).len() as int) + (sg_bytes(q.locale).len() as int) + (sg_bytes(q.prompt).len() as int)) =~= sg_bytes(q.prompt),
{
    assert(d.subrange(0, d.len() as int) =~= d);
    crate::bytes::lemma_region7(
        d,
        0,
        be64(q.session_id),
        be32(q.buffer_version),
        be32(q.options),
        be32(q.input_scope),
        be32(q.max_text_len),
        sg_bytes(q.locale),
        sg_bytes(q.prompt),
    );
}

/// Reads a whole `TextConfigurationData` region.
#[verifier::rlimit(100)]
#[verifier::spinoff_prover]
pub fn parse_text_configuration(d: &[u8]) -> (r: Result<TextConfigurationData, FieldError>)
    ensures
        r matches Ok(p) ==> text_configuration_wf(p@) && text_configuration_bytes(p@) == d@,
        forall|q: TextConfigurationDataModel|
            (text_configuration_wf(q) && #[trigger] text_configuration_bytes(q) == d@) ==> (r matches Ok(p) && p@ == q),
{
    proof {
        assert forall|q: TextConfigurationDataModel| text_configuration_wf(q) && text_configuration_bytes(q) == d@ implies text_configuration_bytes(q).len() == d@.len() && crate::util::sg_pair_at(d@, 24, q.locale, q.prompt, 24 + (sg_bytes(q.locale).len() as int) + (sg_bytes(q.prompt).len() as int)) by {
            lemma_text_configuration_parts(d@, q);
            assert(sg_at(d@, 24, q.locale, 24 + (sg_bytes(q.locale).len() as int)));
            assert(sg_at(d@, 24 + (sg_bytes(q.locale).len() as int), q.prompt, 24 + (sg_bytes(q.locale).len() as int) + (sg_bytes(q.prompt).len() as int)));
        }
    }
    let (f0, p1) = match read_u64(d, 0) {
        Ok(v) => v,
        Err(e) => {
            return Err(e);
        },
    };
    let (f1, p2) = match read_u32(d, p1) {
        Ok(v) => v,
        Err(e) => {
            return Err(e);
        },
    };
    let (f2, p3) = match read_u32(d, p2) {
        Ok(v) => v,
        Err(e) => {
            return Err(e);
        },
    };
    let (f3, p4) = match read_u32(d, p3) {
        Ok(v) => v,
        Err(e) => {
            return Err(e);
        },
    };
    let (f4, p5) = match read_u32(d, p4) {
        Ok(v) => v,
        Err(e) => {
            return Err(e);
        },
    };
    let (pair, p7) = match crate::util::read_sgstring_pair(d, p5) {
        Ok(v) => v,
        Err(e) => {
            return Err(e);
        },
    };
    if p7 != d.len() {
        return Err(FieldError::Leftover);
    }
    let (f5, f6) = pair;
    let p = TextConfigurationData {
        session_id: f0,
        buffer_version: f1,
        options: f2,
        input_scope: f3,
        max_text_len: f4,
        locale: f5,
        prompt: f6,
    };
    proof {
        assert(text_configuration_bytes(p@) =~= d@);
        assert forall|q: TextConfigurationDataModel| (text_configuration_wf(q) && text_configuration_bytes(q) == d@) implies p@ == q by {
            lemma_text_configuration_parts(d@, q);
            crate::bytes::lemma_be64_of(q.session_id);
            crate::bytes::lemma_be32_of(q.buffer_version);
            crate::bytes::lemma_be32_of(q.options);
            crate::bytes::lemma_be32_of(q.input_scope);
            crate::bytes::lemma_be32_of(q.max_text_len);
            assert(q.locale == f5@ && q.prompt == f6@);
            assert(q == (TextConfigurationDataModel {
                session_id: f0,
                buffer_version: f1,
                options: f2,
                input_scope: f3,
                max_text_len: f4,
                locale: f5@,
                prompt: f6@,
            }));
        }
    }
    Ok(p)
}

/// Appends the wire image of a `TextConfigurationData`.
pub fn write_text_configuration(out: &mut Vec<u8>, q: &TextConfigurationData) -> (r: Result<(), FieldError>)
    ensures
        r is Ok ==> final(out)@ =~= old(out)@ + text_configuration_bytes(q@),
        r is Ok <==> q@.locale.len() <= 0xFFFF && q@.prompt.len() <= 0xFFFF,
        r is Err ==> final(out)@ == old(out)@,
        r matches Err(e) ==> e == FieldError::Oversize,
{
    let mut tmp: Vec<u8> = Vec::new();
    write_u64(&mut tmp, q.session_id);
    write_u32(&mut tmp, q.buffer_version);
    write_u32(&mut tmp, q.options);
    write_u32(&mut tmp, q.input_scope);
    write_u32(&mut tmp, q.max_text_len);
    match write_sgstring(&mut tmp, &q.locale) {
        Ok(()) => (),
        Err(e) => {
            return Err(e);
        },
    }
    match write_sgstring(&mut tmp, &q.prompt) {
        Ok(()) => (),
        Err(e) => {
            return Err(e);
        },
    }
    write_bytes(out, tmp.as_slice());
    Ok(())
}

/// A title text input payload.
#[derive(Clone, Debug, PartialEq)]
pub struct TitleTextInputData {
    pub session_id: u64,
    pub buffer_version: u32,
    pub result: u16,
    pub text: SGString,
}

/// The mathematical image of a `TitleTextInputData` value.
pub ghost struct TitleTextInputDataModel {
    pub session_id: u64,
    pub buffer_version: u32,
    pub result: u16,
    pub text: Seq<u8>,
}

impl View for TitleTextInputData {
    type V = TitleTextInputDataModel;

    open spec fn view(&self) -> TitleTextInputDataModel {
        TitleTextInputDataModel {
            session_id: self.session_id,
            buffer_version: self.buffer_version,
            result: self.result,
            text: self.text@,
        }
    }
}

/// A `TitleTextInputData` image the wire can carry.
pub open spec fn title_text_input_wf(q: TitleTextInputDataModel) -> bool {
    sg_wf(q.text)
}

/// The wire image of a `TitleTextInputData`.
pub open spec fn title_text_input_bytes(q: TitleTextInputDataModel) -> Seq<u8> {
    be64(q.session_id) + be32(q.buffer_version) + be16(q.result) + sg_bytes(q.text)
}

/// The field regions of a `TitleTextInputData` image standing as all of `d`.
pub proof fn lemma_title_text_input_parts(d: Seq<u8>, q: TitleTextInputDataModel)
    requires
        title_text_input_wf(q),
        title_text_input_bytes(q) == d,
    ensures
        d.len() == 0 + (be64(q.session_id).len() as int) + (be32(q.buffer_version).len() as int) + (be16(q.result).len() as int) + (sg_bytes(q.text).len() as int),
        d.subrange(0, 0 + (be64(q.session_id).len() as int)) =~= be64(q.session_id),
        d.subrange(0 + (be64(q.session_id).len() as int), 0 + (be64(q.session_id).len() as int) + (be32(q.buffer_version).len() as int)) =~= be32(q.buffer_version),
        d.subrange(0 + (be64(q.session_id).len() as int) + (be32(q.buffer_version).len() as int), 0 + (be64(q.session_id).len() as int) + (be32(q.buffer_version).len() as int) + (be16(q.result).len() as int)) =~= be16(q.result),
        d.subrange(0 + (be64(q.session_id).len() as int) + (be32(q.buffer_version).len() as int) + (be16(q.result).len() as int), 0 + (be64(q.session_id).len() as int) + (be32(q.buffer_version).len() as int) + (be16(q.result).len() as int) + (sg_bytes(q.text).len() as int)) =~= sg_bytes(q.text),
{
    assert(d.subrange(0, d.len() as int) =~= d);
    crate::bytes::lemma_region4(
        d,
        0,
        be64(q.session_id),
        be32(q.buffer_version),
        be16(q.result),
        sg_bytes(q.text),
    );
}

/// Reads a whole `TitleTextInputData` region.
#[verifier::rlimit(100)]
#[verifier::spinoff_prover]
pub fn parse_title_text_input(d: &[u8]) -> (r: Result<TitleTextInputData, FieldError>)
    ensures
        r matches Ok(p) ==> title_text_input_wf(p@) && title_text_input_bytes(p@) == d@,
        forall|q: TitleTextInputDataModel|
            (title_text_input_wf(q) && #[trigger] title_text_input_bytes(q) == d@) ==> (r matches Ok(p) && p@ == q),
{
    proof {
        assert forall|q: TitleTextInputDataModel| title_text_input_wf(q) && title_text_input_bytes(q) == d@ implies title_text_input_bytes(q).len() == d@.len() by {
            lemma_title_text_input_parts(d@, q);
        }
        assert forall|q: TitleTextInputDataModel| title_text_input_wf(q) && title_text_input_bytes(q) == d@ implies sg_at(d@, 14, q.text, 14 + (sg_bytes(q.text).len() as int)) by {
            lemma_title_text_input_parts(d@, q);
            assert(sg_at(d@, 14, q.text, 14 + (sg_bytes(q.text).len() as int)));
        }
    }
    let (f0, p1) = match read_u64(d, 0) {
        Ok(v) => v,
        Err(e) => {
            return Err(e);
        },
    };
    let (f1, p2) = match read_u32(d, p1) {
        Ok(v) => v,
        Err(e) => {
            return Err(e);
        },
    };
    let (f2, p3) = match read_u16(d, p2) {
        Ok(v) => v,
        Err(e) => {
            return Err(e);
        },
    };
    let (f3, p4) = match read_sgstring(d, p3) {
        Ok(v) => v,
        Err(e) => {
            return Err(e);
        },
    };
    proof {
        assert forall|q: TitleTextInputDataModel| title_text_input_wf(q) && title_text_input_bytes(q) == d@ implies q.text == f3@ by {
            lemma_title_text_input_parts(d@, q);
            assert(sg_at(d@, p3 as int, q.text, p3 as int + (sg_bytes(q.text).len() as int)));
            assert(q.text == f3@);
        }
    }
    if p4 != d.len() {
        return Err(FieldError::Leftover);
    }
    let p = TitleTextInputData {
        session_id: f0,
        buffer_version: f1,
        result: f2,
        text: f3,
    };
    proof {
        assert(title_text_input_bytes(p@) =~= d@);
        assert forall|q: TitleTextInputDataModel| (title_text_input_wf(q) && title_text_input_bytes(q) == d@) implies p@ == q by {
            lemma_title_text_input_parts(d@, q);
            crate::bytes::lemma_be64_of(q.session_id);
            assert(q.session_id == f0);
            crate::bytes::lemma_be32_of(q.buffer_version);
            assert(q.buffer_version == f1);
            crate::bytes::lemma_be16_of(q.result);
            assert(q.result == f2);
            assert(sg_at(d@, p3 as int, q.text, p3 + (sg_bytes(q.text).len() as int)));
            assert(q.text == f3@);
            assert(q == (TitleTextInputDataModel {
                session_id: f0,
                buffer_version: f1,
                result: f2,
                text: f3@,
            }));
        }
    }
    Ok(p)
}

/// Appends the wire image of a `TitleTextInputData`.
pub fn write_title_text_input(out: &mut Vec<u8>, q: &TitleTextInputData) -> (r: Result<(), FieldError>)
    ensures
        r is Ok ==> final(out)@ =~= old(out)@ + title_text_input_bytes(q@),
        r is Ok <==> q@.text.len() <= 0xFFFF,
        r is Err ==> final(out)@ == old(out)@,
        r matches Err(e) ==> e == FieldError::Oversize,
{
    let mut tmp: Vec<u8> = Vec::new();
    write_u64(&mut tmp, q.session_id);
    write_u32(&mut tmp, q.buffer_version);
    write_u16(&mut tmp, q.result);
    match write_sgstring(&mut tmp, &q.text) {
        Ok(()) => (),
        Err(e) => {
            return Err(e);
        },
    }
    write_bytes(out, tmp.as_slice());
    Ok(())
}

/// A title text selection payload.
#[derive(Clone, Copy, Debug, PartialEq, Eq, Structural)]
pub struct TitleTextSelectionData {
    pub session_id: u64,
    pub buffer_version: u32,
    pub start: u32,
    pub length: u32,
}

/// The wire image of a `TitleTextSelectionData`.
pub open spec fn title_text_selection_bytes(q: TitleTextSelectionData) -> Seq<u8> {
    be64(q.session_id) + be32(q.buffer_version) + be32(q.start) + be32(q.length)
}

/// The field regions of a `TitleTextSelectionData` image standing as all of `d`.
pub proof fn lemma_title_text_selection_parts(d: Seq<u8>, q: TitleTextSelectionData)
    requires
        title_text_selection_bytes(q) == d,
    ensures
        d.len() == 0 + (be64(q.session_id).len() as int) + (be32(q.buffer_version).len() as int) + (be32(q.start).len() as int) + (be32(q.length).len() as int),
        d.subrange(0, 0 + (be64(q.session_id).len() as int)) =~= be64(q.session_id),
        d.subrange(0 + (be64(q.session_id).len() as int), 0 + (be64(q.session_id).len() as int) + (be32(q.buffer_version).len() as int)) =~= be32(q.buffer_version),
        d.subrange(0 + (be64(q.session_id).len() as int) + (be32(q.buffer_version).len() as int), 0 + (be64(q.session_id).len() as int) + (be32(q.buffer_version).len() as int) + (be32(q.start).len() as int)) =~= be32(q.start),
        d.subrange(0 + (be64(q.session_id).len() as int) + (be32(q.buffer_version).len() as int) + (be32(q.start).len() as int), 0 + (be64(q.session_id).len() as int) + (be32(q.buffer_version).len() as int) + (be32(q.start).len() as int) + (be32(q.length).len() as int)) =~= be32(q.length),
{
    assert(d.subrange(0, d.len() as int) =~= d);
    crate::bytes::lemma_region4(
        d,
        0,
        be64(q.session_id),
        be32(q.buffer_version),
        be32(q.start),
        be32(q.length),
    );
}

/// Reads a whole `TitleTextSelectionData` region.
#[verifier::rlimit(100)]
#[verifier::spinoff_prover]
pub fn parse_title_text_selection(d: &[u8]) -> (r: Result<TitleTextSelectionData, FieldError>)
    ensures
        r matches Ok(p) ==> title_text_selection_bytes(p) == d@,
        forall|q: TitleTextSelectionData|
            (#[trigger] title_text_selection_bytes(q) == d@) ==> (r matches Ok(p) && p == q),
{
    proof {
        assert forall|q: TitleTextSelectionData| title_text_selection_bytes(q) == d@ implies title_text_selection_bytes(q).len() == d@.len() by {
            lemma_title_text_selection_parts(d@, q);
        }
    }
    let (f0, p1) = match read_u64(d, 0) {
        Ok(v) => v,
        Err(e) => {
            return Err(e);
        },
    };
    let (f1, p2) = match read_u32(d, p1) {
        Ok(v) => v,
        Err(e) => {
            return Err(e);
        },
    };
    let (f2, p3) = match read_u32(d, p2) {
        Ok(v) => v,
        Err(e) => {
            return Err(e);
        },
    };
    let (f3, p4) = match read_u32(d, p3) {
        Ok(v) => v,
        Err(e) => {
            return Err(e);
        },
    };
    if p4 != d.len() {
        return Err(FieldError::Leftover);
    }
    let p = TitleTextSelectionData {
        session_id: f0,
        buffer_version: f1,
        start: f2,
        length: f3,
    };
    proof {
        assert(title_text_selection_bytes(p) =~= d@);
        assert forall|q: TitleTextSelectionData| (title_text_selection_bytes(q) == d@) implies p == q by {
            lemma_title_text_selection_parts(d@, q);
            crate::bytes::lemma_be64_of(q.session_id);
            assert(q.session_id == f0);
            crate::bytes::lemma_be32_of(q.buffer_version);
            assert(q.buffer_version == f1);
            crate::bytes::lemma_be32_of(q.start);
            assert(q.start == f2);
            crate::bytes::lemma_be32_of(q.length);
            assert(q.length == f3);
        }
    }
    Ok(p)
}

/// Appends the wire image of a `TitleTextSelectionData`.
pub fn write_title_text_selection(out: &mut Vec<u8>, q: &TitleTextSelectionData)
    ensures
        final(out)@ =~= old(out)@ + title_text_selection_bytes(*q),
{
    write_u64(out, q.session_id);
    write_u32(out, q.buffer_version);
    write_u32(out, q.start);
    write_u32(out, q.length);
}

/// A title launch payload.
#[derive(Clone, Debug, PartialEq)]
pub struct TitleLaunchData {
    pub location: u16,
    pub uri: SGString,
}

/// The mathematical image of a `TitleLaunchData` value.
pub ghost struct TitleLaunchDataModel {
    pub location: u16,
    pub uri: Seq<u8>,
}

impl View for TitleLaunchData {
    type V = TitleLaunchDataModel;

    open spec fn view(&self) -> TitleLaunchDataModel {
        TitleLaunchDataModel {
            location: self.location,
            uri: self.uri@,
        }
    }
}

/// A `TitleLaunchData` image the wire can carry.
pub open spec fn title_launch_wf(q: TitleLaunchDataModel) -> bool {
    sg_wf(q.uri)
}

/// The wire image of a `TitleLaunchData`.
pub open spec fn title_launch_bytes(q: TitleLaunchDataModel) -> Seq<u8> {
    be16(q.location) + sg_bytes(q.uri)
}

/// The field regions of a `TitleLaunchData` image standing as all of `d`.
pub proof fn lemma_title_launch_parts(d: Seq<u8>, q: TitleLaunchDataModel)
    requires
        title_launch_wf(q),
        title_launch_bytes(q) == d,
    ensures
        d.len() == 0 + (be16(q.location).len() as int) + (sg_bytes(q.uri).len() as int),
        d.subrange(0, 0 + (be16(q.location).len() as int)) =~= be16(q.location),
        d.subrange(0 + (be16(q.location).len() as int), 0 + (be16(q.location).len() as int) + (sg_bytes(q.uri).len() as int)) =~= sg_bytes(q.uri),
{
    assert(d.subrange(0, d.len() as int) =~= d);
    crate::bytes::lemma_region(
        d,
        0,
        be16(q.location),
        sg_bytes(q.uri),
    );
}

/// Reads a whole `TitleLaunchData` region.
#[verifier::rlimit(100)]
#[verifier::spinoff_prover]
pub fn parse_title_launch(d: &[u8]) -> (r: Result<TitleLaunchData, FieldError>)
    ensures
        r matches Ok(p) ==> title_launch_wf(p@) && title_launch_bytes(p@) == d@,
        forall|q: TitleLaunchDataModel|
            (title_launch_wf(q) && #[trigger] title_launch_bytes(q) == d@) ==> (r matches Ok(p) && p@ == q),
{
    proof {
        assert forall|q: TitleLaunchDataModel| title_launch_wf(q) && title_launch_bytes(q) == d@ implies title_launch_bytes(q).len() == d@.len() by {
            lemma_title_launch_parts(d@, q);
        }
        assert forall|q: TitleLaunchDataModel| title_launch_wf(q) && title_launch_bytes(q) == d@ implies sg_at(d@, 2, q.uri, 2 + (sg_bytes(q.uri).len() as int)) by {
            lemma_title_launch_parts(d@, q);
            assert(sg_at(d@, 2, q.uri, 2 + (sg_bytes(q.uri).len() as int)));
        }
    }
    let (f0, p1) = match read_u16(d, 0) {
        Ok(v) => v,
        Err(e) => {
            return Err(e);
        },
    };
    let (f1, p2) = match read_sgstring(d, p1) {
        Ok(v) => v,
        Err(e) => {
            return Err(e);
        },
    };
    proof {
        assert forall|q: TitleLaunchDataModel| title_launch_wf(q) && title_launch_bytes(q) == d@ implies q.uri == f1@ by {
            lemma_title_launch_parts(d@, q);
            assert(sg_at(d@, p1 as int, q.uri, p1 as int + (sg_bytes(q.uri).len() as int)));
            assert(q.uri == f1@);
        }
    }
    if p2 != d.len() {
        return Err(FieldError::Leftover);
    }
    let p = TitleLaunchData {
        location: f0,
        uri: f1,
    };
    proof {
        assert(title_launch_bytes(p@) =~= d@);
        assert forall|q: TitleLaunchDataModel| (title_launch_wf(q) && title_launch_bytes(q) == d@) implies p@ == q by {
            lemma_title_launch_parts(d@, q);
            crate::bytes::lemma_be16_of(q.location);
            assert(q.location == f0);
            assert(sg_at(d@, p1 as int, q.uri, p1 + (sg_bytes(q.uri).len() as int)));
            assert(q.uri == f1@);
            assert(q == (TitleLaunchDataModel {
                location: f0,
                uri: f1@,
            }));
        }
    }
    Ok(p)
}

/// Appends the wire image of a `TitleLaunchData`.
pub fn write_title_launch(out: &mut Vec<u8>, q: &TitleLaunchData) -> (r: Result<(), FieldError>)
    ensures
        r is Ok ==> final(out)@ =~= old(out)@ + title_launch_bytes(q@),
        r is Ok <==> q@.uri.len() <= 0xFFFF,
        r is Err ==> final(out)@ == old(out)@,
        r matches Err(e) ==> e == FieldError::Oversize,
{
    let mut tmp: Vec<u8> = Vec::new();
    write_u16(&mut tmp, q.location);
    match write_sgstring(&mut tmp, &q.uri) {
        Ok(()) => (),
        Err(e) => {
            return Err(e);
        },
    }
    write_bytes(out, tmp.as_slice());
    Ok(())
}

/// A request to open a channel to a service.
#[derive(Clone, Debug, PartialEq)]
pub struct StartChannelRequestData {
    pub channel_request_id: u32,
    pub title_id: u32,
    pub service: UUID,
    pub activity_id: u32,
}

/// The mathematical image of a `StartChannelRequestData` value.
pub ghost struct StartChannelRequestDataModel {
    pub channel_request_id: u32,
    pub title_id: u32,
    pub service: Seq<u8>,
    pub activity_id: u32,
}

impl View for StartChannelRequestData {
    type V = StartChannelRequestDataModel;

    open spec fn view(&self) -> StartChannelRequestDataModel {
        StartChannelRequestDataModel {
            channel_request_id: self.channel_request_id,
            title_id: self.title_id,
            service: self.service@,
            activity_id: self.activity_id,
        }
    }
}

/// A `StartChannelRequestData` image the wire can carry.
pub open spec fn start_channel_request_wf(q: StartChannelRequestDataModel) -> bool {
    q.service.len() == 16
}

/// The wire image of a `StartChannelRequestData`.
pub open spec fn start_channel_request_bytes(q: StartChannelRequestDataModel) -> Seq<u8> {
    be32(q.channel_request_id) + be32(q.title_id) + q.service + be32(q.activity_id)
}

/// The field regions of a `StartChannelRequestData` image standing as all of `d`.
pub proof fn lemma_start_channel_request_parts(d: Seq<u8>, q: StartChannelRequestDataModel)
    requires
        start_channel_request_wf(q),
        start_channel_request_bytes(q) == d,
    ensures
        d.len() == 0 + (be32(q.channel_request_id).len() as int) + (be32(q.title_id).len() as int) + (q.service.len() as int) + (be32(q.activity_id).len() as int),
        d.subrange(0, 0 + (be32(q.channel_request_id).len() as int)) =~= be32(q.channel_request_id),
        d.subrange(0 + (be32(q.channel_request_id).len() as int), 0 + (be32(q.channel_request_id).len() as int) + (be32(q.title_id).len() as int)) =~= be32(q.title_id),
        d.subrange(0 + (be32(q.channel_request_id).len() as int) + (be32(q.title_id).len() as int), 0 + (be32(q.channel_request_id).len() as int) + (be32(q.title_id).len() as int) + (q.service.len() as int)) =~= q.service,
        d.subrange(0 + (be32(q.channel_request_id).len() as int) + (be32(q.title_id).len() as int) + (q.service.len() as int), 0 + (be32(q.channel_request_id).len() as int) + (be32(q.title_id).len() as int) + (q.service.len() as int) + (be32(q.activity_id).len() as int)) =~= be32(q.activity_id),
{
    assert(d.subrange(0, d.len() as int) =~= d);
    crate::bytes::lemma_region4(
        d,
        0,
        be32(q.channel_request_id),
        be32(q.title_id),
        q.service,
        be32(q.activity_id),
    );
}

/// Reads a whole `StartChannelRequestData` region.
#[verifier::rlimit(100)]
#[verifier::spinoff_prover]
pub fn parse_start_channel_request(d: &[u8]) -> (r: Result<StartChannelRequestData, FieldError>)
    ensures
        r matches Ok(p) ==> start_channel_request_wf(p@) && start_channel_request_bytes(p@) == d@,
        forall|q: StartChannelRequestDataModel|
            (start_channel_request_wf(q) && #[trigger] start_channel_request_bytes(q) == d@) ==> (r matches Ok(p) && p@ == q),
{
    proof {
        assert forall|q: StartChannelRequestDataModel| start_channel_request_wf(q) && start_channel_request_bytes(q) == d@ implies start_channel_request_bytes(q).len() == d@.len() by {
            lemma_start_channel_request_parts(d@, q);
        }
    }
    let (f0, p1) = match read_u32(d, 0) {
        Ok(v) => v,
        Err(e) => {
            return Err(e);
        },
    };
    let (f1, p2) = match read_u32(d, p1) {
        Ok(v) => v,
        Err(e) => {
            return Err(e);
        },
    };
    let (f2, p3) = match read_uuid(d, p2) {
        Ok(v) => v,
        Err(e) => {
            return Err(e);
        },
    };
    let (f3, p4) = match read_u32(d, p3) {
        Ok(v) => v,
        Err(e) => {
            return Err(e);
        },
    };
    if p4 != d.len() {
        return Err(FieldError::Leftover);
    }
    let p = StartChannelRequestData {
        channel_request_id: f0,
        title_id: f1,
        service: f2,
        activity_id: f3,
    };
    proof {
        assert(start_channel_request_bytes(p@) =~= d@);
        assert forall|q: StartChannelRequestDataModel| (start_channel_request_wf(q) && start_channel_request_bytes(q) == d@) implies p@ == q by {
            lemma_start_channel_request_parts(d@, q);
            crate::bytes::lemma_be32_of(q.channel_request_id);
            assert(q.channel_request_id == f0);
            crate::bytes::lemma_be32_of(q.title_id);
            assert(q.title_id == f1);
            assert(q.service =~= f2@);
            crate::bytes::lemma_be32_of(q.activity_id);
            assert(q.activity_id == f3);
            assert(q == (StartChannelRequestDataModel {
                channel_request_id: f0,
                title_id: f1,
                service: f2@,
                activity_id: f3,
            }));
        }
    }
    Ok(p)
}

/// Appends the wire image of a `StartChannelRequestData`.
pub fn write_start_channel_request(out: &mut Vec<u8>, q: &StartChannelRequestData)
    ensures
        final(out)@ =~= old(out)@ + start_channel_request_bytes(q@),
{
    write_u32(out, q.channel_request_id);
    write_u32(out, q.title_id);
    write_uuid(out, &q.service);
    write_u32(out, q.activity_id);
}

/// The console's answer to a channel request.
#[derive(Clone, Copy, Debug, PartialEq, Eq, Structural)]
pub struct StartChannelResponseData {
    pub channel_request_id: u32,
    pub target_channel_id: u64,
    pub result: u32,
}

/// The wire image of a `StartChannelResponseData`.
pub open spec fn start_channel_response_bytes(q: StartChannelResponseData) -> Seq<u8> {
    be32(q.channel_request_id) + be64(q.target_channel_id) + be32(q.result)
}

/// The field regions of a `StartChannelResponseData` image standing as all of `d`.
pub proof fn lemma_start_channel_response_parts(d: Seq<u8>, q: StartChannelResponseData)
    requires
        start_channel_response_bytes(q) == d,
    ensures
        d.len() == 0 + (be32(q.channel_request_id).len() as int) + (be64(q.target_channel_id).len() as int) + (be32(q.result).len() as int),
        d.subrange(0, 0 + (be32(q.channel_request_id).len() as int)) =~= be32(q.channel_request_id),
        d.subrange(0 + (be32(q.channel_request_id).len() as int), 0 + (be32(q.channel_request_id).len() as int) + (be64(q.target_channel_id).len() as int)) =~= be64(q.target_channel_id),
        d.subrange(0 + (be32(q.channel_request_id).len() as int) + (be64(q.target_channel_id).len() as int), 0 + (be32(q.channel_request_id).len() as int) + (be64(q.target_channel_id).len() as int) + (be32(q.result).len() as int)) =~= be32(q.result),
{
    assert(d.subrange(0, d.len() as int) =~= d);
    crate::bytes::lemma_region3(
        d,
        0,
        be32(q.channel_request_id),
        be64(q.target_channel_id),
        be32(q.result),
    );
}

/// Reads a whole `StartChannelResponseData` region.
#[verifier::rlimit(100)]
#[verifier::spinoff_prover]
pub fn parse_start_channel_response(d: &[u8]) -> (r: Result<StartChannelResponseData, FieldError>)
    ensures
        r matches Ok(p) ==> start_channel_response_bytes(p) == d@,
        forall|q: StartChannelResponseData|
            (#[trigger] start_channel_response_bytes(q) == d@) ==> (r matches Ok(p) && p == q),
{
    proof {
        assert forall|q: StartChannelResponseData| start_channel_response_bytes(q) == d@ implies start_channel_response_bytes(q).len() == d@.len() by {
            lemma_start_channel_response_parts(d@, q);
        }
    }
    let (f0, p1) = match read_u32(d, 0) {
        Ok(v) => v,
        Err(e) => {
            return Err(e);
        },
    };
    let (f1, p2) = match read_u64(d, p1) {
        Ok(v) => v,
        Err(e) => {
            return Err(e);
        },
    };
    let (f2, p3) = match read_u32(d, p2) {
        Ok(v) => v,
        Err(e) => {
            return Err(e);
        },
    };
    if p3 != d.len() {
        return Err(FieldError::Leftover);
    }
    let p = StartChannelResponseData {
        channel_request_id: f0,
        target_channel_id: f1,
        result: f2,
    };
    proof {
        assert(start_channel_response_bytes(p) =~= d@);
        assert forall|q: StartChannelResponseData| (start_channel_response_bytes(q) == d@) implies p == q by {
            lemma_start_channel_response_parts(d@, q);
            crate::bytes::lemma_be32_of(q.channel_request_id);
            assert(q.channel_request_id == f0);
            crate::bytes::lemma_be64_of(q.target_channel_id);
            assert(q.target_channel_id == f1);
            crate::bytes::lemma_be32_of(q.result);
            assert(q.result == f2);
        }
    }
    Ok(p)
}

/// Appends the wire image of a `StartChannelResponseData`.
pub fn write_start_channel_response(out: &mut Vec<u8>, q: &StartChannelResponseData)
    ensures
        final(out)@ =~= old(out)@ + start_channel_response_bytes(*q),
{
    write_u32(out, q.channel_request_id);
    write_u64(out, q.target_channel_id);
    write_u32(out, q.result);
}

/// A request to close a channel.
#[derive(Clone, Copy, Debug, PartialEq, Eq, Structural)]
pub struct StopChannelData {
    pub target_channel_id: u64,
}

/// The wire image of a `StopChannelData`.
pub open spec fn stop_channel_bytes(q: StopChannelData) -> Seq<u8> {
    be64(q.target_channel_id)
}

/// The field regions of a `StopChannelData` image standing as all of `d`.
pub proof fn lemma_stop_channel_parts(d: Seq<u8>, q: StopChannelData)
    requires
        stop_channel_bytes(q) == d,
    ensures
        d.len() == 0 + (be64(q.target_channel_id).len() as int),
        d.subrange(0, 0 + (be64(q.target_channel_id).len() as int)) =~= be64(q.target_channel_id),
{
    assert(d.subrange(0, d.len() as int) =~= d);
    assert(d.subrange(0, d.len() as int) =~= be64(q.target_channel_id));
}

/// Reads a whole `StopChannelData` region.
#[verifier::rlimit(100)]
#[verifier::spinoff_prover]
pub fn parse_stop_channel(d: &[u8]) -> (r: Result<StopChannelData, FieldError>)
    ensures
        r matches Ok(p) ==> stop_channel_bytes(p) == d@,
        forall|q: StopChannelData|
            (#[trigger] stop_channel_bytes(q) == d@) ==> (r matches Ok(p) && p == q),
{
    proof {
        assert forall|q: StopChannelData| stop_channel_bytes(q) == d@ implies stop_channel_bytes(q).len() == d@.len() by {
            lemma_stop_channel_parts(d@, q);
        }
    }
    let (f0, p1) = match read_u64(d, 0) {
        Ok(v) => v,
        Err(e) => {
            return Err(e);
        },
    };
    if p1 != d.len() {
        return Err(FieldError::Leftover);
    }
    let p = StopChannelData {
        target_channel_id: f0,
    };
    proof {
        assert(stop_channel_bytes(p) =~= d@);
        assert forall|q: StopChannelData| (stop_channel_bytes(q) == d@) implies p == q by {
            lemma_stop_channel_parts(d@, q);
            crate::bytes::lemma_be64_of(q.target_channel_id);
            assert(q.target_channel_id == f0);
        }
    }
    Ok(p)
}

/// Appends the wire image of a `StopChannelData`.
pub fn write_stop_channel(out: &mut Vec<u8>, q: &StopChannelData)
    ensures
        final(out)@ =~= old(out)@ + stop_channel_bytes(*q),
{
    write_u64(out, q.target_channel_id);
}

/// A disconnect notice.
#[derive(Clone, Copy, Debug, PartialEq, Eq, Structural)]
pub struct DisconnectData {
    pub reason: u32,
    pub error_code: u32,
}

/// The wire image of a `DisconnectData`.
pub open spec fn disconnect_bytes(q: DisconnectData) -> Seq<u8> {
    be32(q.reason) + be32(q.error_code)
}

/// The field regions of a `DisconnectData` image standing as all of `d`.
pub proof fn lemma_disconnect_parts(d: Seq<u8>, q: DisconnectData)
    requires
        disconnect_bytes(q) == d,
    ensures
        d.len() == 0 + (be32(q.reason).len() as int) + (be32(q.error_code).len() as int),
        d.subrange(0, 0 + (be32(q.reason).len() as int)) =~= be32(q.reason),
        d.subrange(0 + (be32(q.reason).len() as int), 0 + (be32(q.reason).len() as int) + (be32(q.error_code).len() as int)) =~= be32(q.error_code),
{
    assert(d.subrange(0, d.len() as int) =~= d);
    crate::bytes::lemma_region(
        d,
        0,
        be32(q.reason),
        be32(q.error_code),
    );
}

/// Reads a whole `DisconnectData` region.
#[verifier::rlimit(100)]
#[verifier::spinoff_prover]
pub fn parse_disconnect(d: &[u8]) -> (r: Result<DisconnectData, FieldError>)
    ensures
        r matches Ok(p) ==> disconnect_bytes(p) == d@,
        forall|q: DisconnectData|
            (#[trigger] disconnect_bytes(q) == d@) ==> (r matches Ok(p) && p == q),
{
    proof {
        assert forall|q: DisconnectData| disconnect_bytes(q) == d@ implies disconnect_bytes(q).len() == d@.len() by {
            lemma_disconnect_parts(d@, q);
        }
    }
    let (f0, p1) = match read_u32(d, 0) {
        Ok(v) => v,
        Err(e) => {
            return Err(e);
        },
    };
    let (f1, p2) = match read_u32(d, p1) {
        Ok(v) => v,
        Err(e) => {
            return Err(e);
        },
    };
    if p2 != d.len() {
        return Err(FieldError::Leftover);
    }
    let p = DisconnectData {
        reason: f0,
        error_code: f1,
    };
    proof {
        assert(disconnect_bytes(p) =~= d@);
        assert forall|q: DisconnectData| (disconnect_bytes(q) == d@) implies p == q by {
            lemma_disconnect_parts(d@, q);
            crate::bytes::lemma_be32_of(q.reason);
            assert(q.reason == f0);
            crate::bytes::lemma_be32_of(q.error_code);
            assert(q.error_code == f1);
        }
    }
    Ok(p)
}

/// Appends the wire image of a `DisconnectData`.
pub fn write_disconnect(out: &mut Vec<u8>, q: &DisconnectData)
    ensures
        final(out)@ =~= old(out)@ + disconnect_bytes(*q),
{
    write_u32(out, q.reason);
    write_u32(out, q.error_code);
}

/// Accelerometer samples; the axes are IEEE-754 bit patterns.
#[derive(Clone, Copy, Debug, PartialEq, Eq, Structural)]
pub struct AccelerometerData {
    pub timestamp: u64,
    pub acceleration_x: u32,
    pub acceleration_y: u32,
    pub acceleration_z: u32,
}

/// The wire image of a `AccelerometerData`.
pub open spec fn accelerometer_bytes(q: AccelerometerData) -> Seq<u8> {
    be64(q.timestamp) + be32(q.acceleration_x) + be32(q.acceleration_y) + be32(q.acceleration_z)
}

/// The field regions of a `AccelerometerData` image standing as all of `d`.
pub proof fn lemma_accelerometer_parts(d: Seq<u8>, q: AccelerometerData)
    requires
        accelerometer_bytes(q) == d,
    ensures
        d.len() == 0 + (be64(q.timestamp).len() as int) + (be32(q.acceleration_x).len() as int) + (be32(q.acceleration_y).len() as int) + (be32(q.acceleration_z).len() as int),
        d.subrange(0, 0 + (be64(q.timestamp).len() as int)) =~= be64(q.timestamp),
        d.subrange(0 + (be64(q.timestamp).len() as int), 0 + (be64(q.timestamp).len() as int) + (be32(q.acceleration_x).len() as int)) =~= be32(q.acceleration_x),
        d.subrange(0 + (be64(q.timestamp).len() as int) + (be32(q.acceleration_x).len() as int), 0 + (be64(q.timestamp).len() as int) + (be32(q.acceleration_x).len() as int) + (be32(q.acceleration_y).len() as int)) =~= be32(q.acceleration_y),
        d.subrange(0 + (be64(q.timestamp).len() as int) + (be32(q.acceleration_x).len() as int) + (be32(q.acceleration_y).len() as int), 0 + (be64(q.timestamp).len() as int) + (be32(q.acceleration_x).len() as int) + (be32(q.acceleration_y).len() as int) + (be32(q.acceleration_z).len() as int)) =~= be32(q.acceleration_z),
{
    assert(d.subrange(0, d.len() as int) =~= d);
    crate::bytes::lemma_region4(
        d,
        0,
        be64(q.timestamp),
        be32(q.acceleration_x),
        be32(q.acceleration_y),
        be32(q.acceleration_z),
    );
}

/// Reads a whole `AccelerometerData` region.
#[verifier::rlimit(100)]
#[verifier::spinoff_prover]
pub fn parse_accelerometer(d: &[u8]) -> (r: Result<AccelerometerData, FieldError>)
    ensures
        r matches Ok(p) ==> accelerometer_bytes(p) == d@,
        forall|q: AccelerometerData|
            (#[trigger] accelerometer_bytes(q) == d@) ==> (r matches Ok(p) && p == q),
{
    proof {
        assert forall|q: AccelerometerData| accelerometer_bytes(q) == d@ implies accelerometer_bytes(q).len() == d@.len() by {
            lemma_accelerometer_parts(d@, q);
        }
    }
    let (f0, p1) = match read_u64(d, 0) {
        Ok(v) => v,
        Err(e) => {
            return Err(e);
        },
    };
    let (f1, p2) = match read_u32(d, p1) {
        Ok(v) => v,
        Err(e) => {
            return Err(e);
        },
    };
    let (f2, p3) = match read_u32(d, p2) {
        Ok(v) => v,
        Err(e) => {
            return Err(e);
        },
    };
    let (f3, p4) = match read_u32(d, p3) {
        Ok(v) => v,
        Err(e) => {
            return Err(e);
        },
    };
    if p4 != d.len() {
        return Err(FieldError::Leftover);
    }
    let p = AccelerometerData {
        timestamp: f0,
        acceleration_x: f1,
        acceleration_y: f2,
        acceleration_z: f3,
    };
    proof {
        assert(accelerometer_bytes(p) =~= d@);
        assert forall|q: AccelerometerData| (accelerometer_bytes(q) == d@) implies p == q by {
            lemma_accelerometer_parts(d@, q);
            crate::bytes::lemma_be64_of(q.timestamp);
            assert(q.timestamp == f0);
            crate::bytes::lemma_be32_of(q.acceleration_x);
            assert(q.acceleration_x == f1);
            crate::bytes::lemma_be32_of(q.acceleration_y);
            assert(q.acceleration_y == f2);
            crate::bytes::lemma_be32_of(q.acceleration_z);
            assert(q.acceleration_z == f3);
        }
    }
    Ok(p)
}

/// Appends the wire image of a `AccelerometerData`.
pub fn write_accelerometer(out: &mut Vec<u8>, q: &AccelerometerData)
    ensures
        final(out)@ =~= old(out)@ + accelerometer_bytes(*q),
{
    write_u64(out, q.timestamp);
    write_u32(out, q.acceleration_x);
    write_u32(out, q.acceleration_y);
    write_u32(out, q.acceleration_z);
}

/// Gyrometer samples; the axes are IEEE-754 bit patterns.
#[derive(Clone, Copy, Debug, PartialEq, Eq, Structural)]
pub struct GyrometerData {
    pub timestamp: u64,
    pub angular_velocity_x: u32,
    pub angular_velocity_y: u32,
    pub angular_velocity_z: u32,
}

/// The wire image of a `GyrometerData`.
pub open spec fn gyrometer_bytes(q: GyrometerData) -> Seq<u8> {
    be64(q.timestamp) + be32(q.angular_velocity_x) + be32(q.angular_velocity_y) + be32(q.angular_velocity_z)
}

/// The field regions of a `GyrometerData` image standing as all of `d`.
pub proof fn lemma_gyrometer_parts(d: Seq<u8>, q: GyrometerData)
    requires
        gyrometer_bytes(q) == d,
    ensures
        d.len() == 0 + (be64(q.timestamp).len() as int) + (be32(q.angular_velocity_x).len() as int) + (be32(q.angular_velocity_y).len() as int) + (be32(q.angular_velocity_z).len() as int),
        d.subrange(0, 0 + (be64(q.timestamp).len() as int)) =~= be64(q.timestamp),
        d.subrange(0 + (be64(q.timestamp).len() as int), 0 + (be64(q.timestamp).len() as int) + (be32(q.angular_velocity_x).len() as int)) =~= be32(q.angular_velocity_x),
        d.subrange(0 + (be64(q.timestamp).len() as int) + (be32(q.angular_velocity_x).len() as int), 0 + (be64(q.timestamp).len() as int) + (be32(q.angular_velocity_x).len() as int) + (be32(q.angular_velocity_y).len() as int)) =~= be32(q.angular_velocity_y),
        d.subrange(0 + (be64(q.timestamp).len() as int) + (be32(q.angular_velocity_x).len() as int) + (be32(q.angular_velocity_y).len() as int), 0 + (be64(q.timestamp).len() as int) + (be32(q.angular_velocity_x).len() as int) + (be32(q.angular_velocity_y).len() as int) + (be32(q.angular_velocity_z).len() as int)) =~= be32(q.angular_velocity_z),
{
    assert(d.subrange(0, d.len() as int) =~= d);
    crate::bytes::lemma_region4(
        d,
        0,
        be64(q.timestamp),
        be32(q.angular_velocity_x),
        be32(q.angular_velocity_y),
        be32(q.angular_velocity_z),
    );
}

/// Reads a whole `GyrometerData` region.
#[verifier::rlimit(100)]
#[verifier::spinoff_prover]
pub fn parse_gyrometer(d: &[u8]) -> (r: Result<GyrometerData, FieldError>)
    ensures
        r matches Ok(p) ==> gyrometer_bytes(p) == d@,
        forall|q: GyrometerData|
            (#[trigger] gyrometer_bytes(q) == d@) ==> (r matches Ok(p) && p == q),
{
    proof {
        assert forall|q: GyrometerData| gyrometer_bytes(q) == d@ implies gyrometer_bytes(q).len() == d@.len() by {
            lemma_gyrometer_parts(d@, q);
        }
    }
    let (f0, p1) = match read_u64(d, 0) {
        Ok(v) => v,
        Err(e) => {
            return Err(e);
        },
    };
    let (f1, p2) = match read_u32(d, p1) {
        Ok(v) => v,
        Err(e) => {
            return Err(e);
        },
    };
    let (f2, p3) = match read_u32(d, p2) {
        Ok(v) => v,
        Err(e) => {
            return Err(e);
        },
    };
    let (f3, p4) = match read_u32(d, p3) {
        Ok(v) => v,
        Err(e) => {
            return Err(e);
        },
    };
    if p4 != d.len() {
        return Err(FieldError::Leftover);
    }
    let p = GyrometerData {
        timestamp: f0,
        angular_velocity_x: f1,
        angular_velocity_y: f2,
        angular_velocity_z: f3,
    };
    proof {
        assert(gyrometer_bytes(p) =~= d@);
        assert forall|q: GyrometerData| (gyrometer_bytes(q) == d@) implies p == q by {
            lemma_gyrometer_parts(d@, q);
            crate::bytes::lemma_be64_of(q.timestamp);
            assert(q.timestamp == f0);
            crate::bytes::lemma_be32_of(q.angular_velocity_x);
            assert(q.angular_velocity_x == f1);
            crate::bytes::lemma_be32_of(q.angular_velocity_y);
            assert(q.angular_velocity_y == f2);
            crate::bytes::lemma_be32_of(q.angular_velocity_z);
            assert(q.angular_velocity_z == f3);
        }
    }
    Ok(p)
}

/// Appends the wire image of a `GyrometerData`.
pub fn write_gyrometer(out: &mut Vec<u8>, q: &GyrometerData)
    ensures
        final(out)@ =~= old(out)@ + gyrometer_bytes(*q),
{
    write_u64(out, q.timestamp);
    write_u32(out, q.angular_velocity_x);
    write_u32(out, q.angular_velocity_y);
    write_u32(out, q.angular_velocity_z);
}

/// Inclinometer samples; the angles are IEEE-754 bit patterns.
#[derive(Clone, Copy, Debug, PartialEq, Eq, Structural)]
pub struct InclinometerData {
    pub timestamp: u64,
    pub pitch: u32,
    pub roll: u32,
    pub yaw: u32,
}

/// The wire image of a `InclinometerData`.
pub open spec fn inclinometer_bytes(q: InclinometerData) -> Seq<u8> {
    be64(q.timestamp) + be32(q.pitch) + be32(q.roll) + be32(q.yaw)
}

/// The field regions of a `InclinometerData` image standing as all of `d`.
pub proof fn lemma_inclinometer_parts(d: Seq<u8>, q: InclinometerData)
    requires
        inclinometer_bytes(q) == d,
    ensures
        d.len() == 0 + (be64(q.timestamp).len() as int) + (be32(q.pitch).len() as int) + (be32(q.roll).len() as int) + (be32(q.yaw).len() as int),
        d.subrange(0, 0 + (be64(q.timestamp).len() as int)) =~= be64(q.timestamp),
        d.subrange(0 + (be64(q.timestamp).len() as int), 0 + (be64(q.timestamp).len() as int) + (be32(q.pitch).len() as int)) =~= be32(q.pitch),
        d.subrange(0 + (be64(q.timestamp).len() as int) + (be32(q.pitch).len() as int), 0 + (be64(q.timestamp).len() as int) + (be32(q.pitch).len() as int) + (be32(q.roll).len() as int)) =~= be32(q.roll),
        d.subrange(0 + (be64(q.timestamp).len() as int) + (be32(q.pitch).len() as int) + (be32(q.roll).len() as int), 0 + (be64(q.timestamp).len() as int) + (be32(q.pitch).len() as int) + (be32(q.roll).len() as int) + (be32(q.yaw).len() as int)) =~= be32(q.yaw),
{
    assert(d.subrange(0, d.len() as int) =~= d);
    crate::bytes::lemma_region4(
        d,
        0,
        be64(q.timestamp),
        be32(q.pitch),
        be32(q.roll),
        be32(q.yaw),
    );
}

/// Reads a whole `InclinometerData` region.
#[verifier::rlimit(100)]
#[verifier::spinoff_prover]
pub fn parse_inclinometer(d: &[u8]) -> (r: Result<InclinometerData, FieldError>)
    ensures
        r matches Ok(p) ==> inclinometer_bytes(p) == d@,
        forall|q: InclinometerData|
            (#[trigger] inclinometer_bytes(q) == d@) ==> (r matches Ok(p) && p == q),
{
    proof {
        assert forall|q: InclinometerData| inclinometer_bytes(q) == d@ implies inclinometer_bytes(q).len() == d@.len() by {
            lemma_inclinometer_parts(d@, q);
        }
    }
    let (f0, p1) = match read_u64(d, 0) {
        Ok(v) => v,
        Err(e) => {
            return Err(e);
        },
    };
    let (f1, p2) = match read_u32(d, p1) {
        Ok(v) => v,
        Err(e) => {
            return Err(e);
        },
    };
    let (f2, p3) = match read_u32(d, p2) {
        Ok(v) => v,
        Err(e) => {
            return Err(e);
        },
    };
    let (f3, p4) = match read_u32(d, p3) {
        Ok(v) => v,
        Err(e) => {
            return Err(e);
        },
    };
    if p4 != d.len() {
        return Err(FieldError::Leftover);
    }
    let p = InclinometerData {
        timestamp: f0,
        pitch: f1,
        roll: f2,
        yaw: f3,
    };
    proof {
        assert(inclinometer_bytes(p) =~= d@);
        assert forall|q: InclinometerData| (inclinometer_bytes(q) == d@) implies p == q by {
            lemma_inclinometer_parts(d@, q);
            crate::bytes::lemma_be64_of(q.timestamp);
            assert(q.timestamp == f0);
            crate::bytes::lemma_be32_of(q.pitch);
            assert(q.pitch == f1);
            crate::bytes::lemma_be32_of(q.roll);
            assert(q.roll == f2);
            crate::bytes::lemma_be32_of(q.yaw);
            assert(q.yaw == f3);
        }
    }
    Ok(p)
}

/// Appends the wire image of a `InclinometerData`.
pub fn write_inclinometer(out: &mut Vec<u8>, q: &InclinometerData)
    ensures
        final(out)@ =~= old(out)@ + inclinometer_bytes(*q),
{
    write_u64(out, q.timestamp);
    write_u32(out, q.pitch);
    write_u32(out, q.roll);
    write_u32(out, q.yaw);
}

/// Compass samples; the headings are IEEE-754 bit patterns.
#[derive(Clone, Copy, Debug, PartialEq, Eq, Structural)]
pub struct CompassData {
    pub timestamp: u64,
    pub magnetic_north: u32,
    pub true_north: u32,
}

/// The wire image of a `CompassData`.
pub open spec fn compass_bytes(q: CompassData) -> Seq<u8> {
    be64(q.timestamp) + be32(q.magnetic_north) + be32(q.true_north)
}

/// The field regions of a `CompassData` image standing as all of `d`.
pub proof fn lemma_compass_parts(d: Seq<u8>, q: CompassData)
    requires
        compass_bytes(q) == d,
    ensures
        d.len() == 0 + (be64(q.timestamp).len() as int) + (be32(q.magnetic_north).len() as int) + (be32(q.true_north).len() as int),
        d.subrange(0, 0 + (be64(q.timestamp).len() as int)) =~= be64(q.timestamp),
        d.subrange(0 + (be64(q.timestamp).len() as int), 0 + (be64(q.timestamp).len() as int) + (be32(q.magnetic_north).len() as int)) =~= be32(q.magnetic_north),
        d.subrange(0 + (be64(q.timestamp).len() as int) + (be32(q.magnetic_north).len() as int), 0 + (be64(q.timestamp).len() as int) + (be32(q.magnetic_north).len() as int) + (be32(q.true_north).len() as int)) =~= be32(q.true_north),
{
    assert(d.subrange(0, d.len() as int) =~= d);
    crate::bytes::lemma_region3(
        d,
        0,
        be64(q.timestamp),
        be32(q.magnetic_north),
        be32(q.true_north),
    );
}

/// Reads a whole `CompassData` region.
#[verifier::rlimit(100)]
#[verifier::spinoff_prover]
pub fn parse_compass(d: &[u8]) -> (r: Result<CompassData, FieldError>)
    ensures
        r matches Ok(p) ==> compass_bytes(p) == d@,
        forall|q: CompassData|
            (#[trigger] compass_bytes(q) == d@) ==> (r matches Ok(p) && p == q),
{
    proof {
        assert forall|q: CompassData| compass_bytes(q) == d@ implies compass_bytes(q).len() == d@.len() by {
            lemma_compass_parts(d@, q);
        }
    }
    let (f0, p1) = match read_u64(d, 0) {
        Ok(v) => v,
        Err(e) => {
            return Err(e);
        },
    };
    let (f1, p2) = match read_u32(d, p1) {
        Ok(v) => v,
        Err(e) => {
            return Err(e);
        },
    };
    let (f2, p3) = match read_u32(d, p2) {
        Ok(v) => v,
        Err(e) => {
            return Err(e);
        },
    };
    if p3 != d.len() {
        return Err(FieldError::Leftover);
    }
    let p = CompassData {
        timestamp: f0,
        magnetic_north: f1,
        true_north: f2,
    };
    proof {
        assert(compass_bytes(p) =~= d@);
        assert forall|q: CompassData| (compass_bytes(q) == d@) implies p == q by {
            lemma_compass_parts(d@, q);
            crate::bytes::lemma_be64_of(q.timestamp);
            assert(q.timestamp == f0);
            crate::bytes::lemma_be32_of(q.magnetic_north);
            assert(q.magnetic_north == f1);
            crate::bytes::lemma_be32_of(q.true_north);
            assert(q.true_north == f2);
        }
    }
    Ok(p)
}

/// Appends the wire image of a `CompassData`.
pub fn write_compass(out: &mut Vec<u8>, q: &CompassData)
    ensures
        final(out)@ =~= old(out)@ + compass_bytes(*q),
{
    write_u64(out, q.timestamp);
    write_u32(out, q.magnetic_north);
    write_u32(out, q.true_north);
}

/// Orientation samples; the quaternion parts are IEEE-754 bit patterns.
#[derive(Clone, Copy, Debug, PartialEq, Eq, Structural)]
pub struct OrientationData {
    pub timestamp: u64,
    pub rotation_matrix_value: u64,
    pub w: u32,
    pub x: u32,
    pub y: u32,
    pub z: u32,
}

/// The wire image of a `OrientationData`.
pub open spec fn orientation_bytes(q: OrientationData) -> Seq<u8> {
    be64(q.timestamp) + be64(q.rotation_matrix_value) + be32(q.w) + be32(q.x) + be32(q.y) + be32(q.z)
}

/// The field regions of a `OrientationData` image standing as all of `d`.
pub proof fn lemma_orientation_parts(d: Seq<u8>, q: OrientationData)
    requires
        orientation_bytes(q) == d,
    ensures
        d.len() == 0 + (be64(q.timestamp).len() as int) + (be64(q.rotation_matrix_value).len() as int) + (be32(q.w).len() as int) + (be32(q.x).len() as int) + (be32(q.y).len() as int) + (be32(q.z).len() as int),
        d.subrange(0, 0 + (be64(q.timestamp).len() as int)) =~= be64(q.timestamp),
        d.subrange(0 + (be64(q.timestamp).len() as int), 0 + (be64(q.timestamp).len() as int) + (be64(q.rotation_matrix_value).len() as int)) =~= be64(q.rotation_matrix_value),
        d.subrange(0 + (be64(q.timestamp).len() as int) + (be64(q.rotation_matrix_value).len() as int), 0 + (be64(q.timestamp).len() as int) + (be64(q.rotation_matrix_value).len() as int) + (be32(q.w).len() as int)) =~= be32(q.w),
        d.subrange(0 + (be64(q.timestamp).len() as int) + (be64(q.rotation_matrix_value).len() as int) + (be32(q.w).len() as int), 0 + (be64(q.timestamp).len() as int) + (be64(q.rotation_matrix_value).len() as int) + (be32(q.w).len() as int) + (be32(q.x).len() as int)) =~= be32(q.x),
        d.subrange(0 + (be64(q.timestamp).len() as int) + (be64(q.rotation_matrix_value).len() as int) + (be32(q.w).len() as int) + (be32(q.x).len() as int), 0 + (be64(q.timestamp).len() as int) + (be64(q.rotation_matrix_value).len() as int) + (be32(q.w).len() as int) + (be32(q.x).len() as int) + (be32(q.y).len() as int)) =~= be32(q.y),
        d.subrange(0 + (be64(q.timestamp).len() as int) + (be64(q.rotation_matrix_value).len() as int) + (be32(q.w).len() as int) + (be32(q.x).len() as int) + (be32(q.y).len() as int), 0 + (be64(q.timestamp).len() as int) + (be64(q.rotation_matrix_value).len() as int) + (be32(q.w).len() as int) + (be32(q.x).len() as int) + (be32(q.y).len() as int) + (be32(q.z).len() as int)) =~= be32(q.z),
{
    assert(d.subrange(0, d.len() as int) =~= d);
    crate::bytes::lemma_region6(
        d,
        0,
        be64(q.timestamp),
        be64(q.rotation_matrix_value),
        be32(q.w),
        be32(q.x),
        be32(q.y),
        be32(q.z),
    );
}

/// Reads a whole `OrientationData` region.
#[verifier::rlimit(100)]
#[verifier::spinoff_prover]
pub fn parse_orientation(d: &[u8]) -> (r: Result<OrientationData, FieldError>)
    ensures
        r matches Ok(p) ==> orientation_bytes(p) == d@,
        forall|q: OrientationData|
            (#[trigger] orientation_bytes(q) == d@) ==> (r matches Ok(p) && p == q),
{
    proof {
        assert forall|q: OrientationData| orientation_bytes(q) == d@ implies orientation_bytes(q).len() == d@.len() by {
            lemma_orientation_parts(d@, q);
        }
    }
    let (f0, p1) = match read_u64(d, 0) {
        Ok(v) => v,
        Err(e) => {
            return Err(e);
        },
    };
    let (f1, p2) = match read_u64(d, p1) {
        Ok(v) => v,
        Err(e) => {
            return Err(e);
        },
    };
    let (f2, p3) = match read_u32(d, p2) {
        Ok(v) => v,
        Err(e) => {
            return Err(e);
        },
    };
    let (f3, p4) = match read_u32(d, p3) {
        Ok(v) => v,
        Err(e) => {
            return Err(e);
        },
    };
    let (f4, p5) = match read_u32(d, p4) {
        Ok(v) => v,
        Err(e) => {
            return Err(e);
        },
    };
    let (f5, p6) = match read_u32(d, p5) {
        Ok(v) => v,
        Err(e) => {
            return Err(e);
        },
    };
    if p6 != d.len() {
        return Err(FieldError::Leftover);
    }
    let p = OrientationData {
        timestamp: f0,
        rotation_matrix_value: f1,
        w: f2,
        x: f3,
        y: f4,
        z: f5,
    };
    proof {
        assert(orientation_bytes(p) =~= d@);
        assert forall|q: OrientationData| (orientation_bytes(q) == d@) implies p == q by {
            lemma_orientation_parts(d@, q);
            crate::bytes::lemma_be64_of(q.timestamp);
            assert(q.timestamp == f0);
            crate::bytes::lemma_be64_of(q.rotation_matrix_value);
            assert(q.rotation_matrix_value == f1);
            crate::bytes::lemma_be32_of(q.w);
            assert(q.w == f2);
            crate::bytes::lemma_be32_of(q.x);
            assert(q.x == f3);
            crate::bytes::lemma_be32_of(q.y);
            assert(q.y == f4);
            crate::bytes::lemma_be32_of(q.z);
            assert(q.z == f5);
        }
    }
    Ok(p)
}

/// Appends the wire image of a `OrientationData`.
pub fn write_orientation(out: &mut Vec<u8>, q: &OrientationData)
    ensures
        final(out)@ =~= old(out)@ + orientation_bytes(*q),
{
    write_u64(out, q.timestamp);
    write_u64(out, q.rotation_matrix_value);
    write_u32(out, q.w);
    write_u32(out, q.x);
    write_u32(out, q.y);
    write_u32(out, q.z);
}

/// A pairing state change notice.
#[derive(Clone, Copy, Debug, PartialEq, Eq, Structural)]
pub struct PairedIdentityStateChangedData {
    pub state: u16,
}

/// The wire image of a `PairedIdentityStateChangedData`.
pub open spec fn paired_identity_state_changed_bytes(q: PairedIdentityStateChangedData) -> Seq<u8> {
    be16(q.state)
}

/// The field regions of a `PairedIdentityStateChangedData` image standing as all of `d`.
pub proof fn lemma_paired_identity_state_changed_parts(d: Seq<u8>, q: PairedIdentityStateChangedData)
    requires
        paired_identity_state_changed_bytes(q) == d,
    ensures
        d.len() == 0 + (be16(q.state).len() as int),
        d.subrange(0, 0 + (be16(q.state).len() as int)) =~= be16(q.state),
{
    assert(d.subrange(0, d.len() as int) =~= d);
    assert(d.subrange(0, d.len() as int) =~= be16(q.state));
}

/// Reads a whole `PairedIdentityStateChangedData` region.
#[verifier::rlimit(100)]
#[verifier::spinoff_prover]
pub fn parse_paired_identity_state_changed(d: &[u8]) -> (r: Result<PairedIdentityStateChangedData, FieldError>)
    ensures
        r matches Ok(p) ==> paired_identity_state_changed_bytes(p) == d@,
        forall|q: PairedIdentityStateChangedData|
            (#[trigger] paired_identity_state_changed_bytes(q) == d@) ==> (r matches Ok(p) && p == q),
{
    proof {
        assert forall|q: PairedIdentityStateChangedData| paired_identity_state_changed_bytes(q) == d@ implies paired_identity_state_changed_bytes(q).len() == d@.len() by {
            lemma_paired_identity_state_changed_parts(d@, q);
        }
    }
    let (f0, p1) = match read_u16(d, 0) {
        Ok(v) => v,
        Err(e) => {
            return Err(e);
        },
    };
    if p1 != d.len() {
        return Err(FieldError::Leftover);
    }
    let p = PairedIdentityStateChangedData {
        state: f0,
    };
    proof {
        assert(paired_identity_state_changed_bytes(p) =~= d@);
        assert forall|q: PairedIdentityStateChangedData| (paired_identity_state_changed_bytes(q) == d@) implies p == q by {
            lemma_paired_identity_state_changed_parts(d@, q);
            crate::bytes::lemma_be16_of(q.state);
            assert(q.state == f0);
        }
    }
    Ok(p)
}

/// Appends the wire image of a `PairedIdentityStateChangedData`.
pub fn write_paired_identity_state_changed(out: &mut Vec<u8>, q: &PairedIdentityStateChangedData)
    ensures
        final(out)@ =~= old(out)@ + paired_identity_state_changed_bytes(*q),
{
    write_u16(out, q.state);
}

/// An unsnap notice.
#[derive(Clone, Copy, Debug, PartialEq, Eq, Structural)]
pub struct UnsnapData {
    pub unk: u8,
}

/// The wire image of a `UnsnapData`.
pub open spec fn unsnap_bytes(q: UnsnapData) -> Seq<u8> {
    seq![q.unk]
}

/// The field regions of a `UnsnapData` image standing as all of `d`.
pub proof fn lemma_unsnap_parts(d: Seq<u8>, q: UnsnapData)
    requires
        unsnap_bytes(q) == d,
    ensures
        d.len() == 0 + (seq![q.unk].len() as int),
        d.subrange(0, 0 + (seq![q.unk].len() as int)) =~= seq![q.unk],
{
    assert(d.subrange(0, d.len() as int) =~= d);
    assert(d.subrange(0, d.len() as int) =~= seq![q.unk]);
}

/// Reads a whole `UnsnapData` region.
#[verifier::rlimit(100)]
#[verifier::spinoff_prover]
pub fn parse_unsnap(d: &[u8]) -> (r: Result<UnsnapData, FieldError>)
    ensures
        r matches Ok(p) ==> unsnap_bytes(p) == d@,
        forall|q: UnsnapData|
            (#[trigger] unsnap_bytes(q) == d@) ==> (r matches Ok(p) && p == q),
{
    proof {
        assert forall|q: UnsnapData| unsnap_bytes(q) == d@ implies unsnap_bytes(q).len() == d@.len() by {
            lemma_unsnap_parts(d@, q);
        }
    }
    let (f0, p1) = match read_u8(d, 0) {
        Ok(v) => v,
        Err(e) => {
            return Err(e);
        },
    };
    if p1 != d.len() {
        return Err(FieldError::Leftover);
    }
    let p = UnsnapData {
        unk: f0,
    };
    proof {
        assert(unsnap_bytes(p) =~= d@);
        assert forall|q: UnsnapData| (unsnap_bytes(q) == d@) implies p == q by {
            lemma_unsnap_parts(d@, q);
            assert(q.unk == d@[0 as int]);
        }
    }
    Ok(p)
}

/// Appends the wire image of a `UnsnapData`.
pub fn write_unsnap(out: &mut Vec<u8>, q: &UnsnapData)
    ensures
        final(out)@ =~= old(out)@ + unsnap_bytes(*q),
{
    write_u8(out, q.unk);
}

/// A request to record a game DVR clip.
#[derive(Clone, Copy, Debug, PartialEq, Eq, Structural)]
pub struct GameDvrRecordData {
    pub start_time_delta: u32,
    pub end_time_delta: u32,
}

/// The wire image of a `GameDvrRecordData`.
pub open spec fn game_dvr_record_bytes(q: GameDvrRecordData) -> Seq<u8> {
    be32(q.start_time_delta) + be32(q.end_time_delta)
}

/// The field regions of a `GameDvrRecordData` image standing as all of `d`.
pub proof fn lemma_game_dvr_record_parts(d: Seq<u8>, q: GameDvrRecordData)
    requires
        game_dvr_record_bytes(q) == d,
    ensures
        d.len() == 0 + (be32(q.start_time_delta).len() as int) + (be32(q.end_time_delta).len() as int),
        d.subrange(0, 0 + (be32(q.start_time_delta).len() as int)) =~= be32(q.start_time_delta),
        d.subrange(0 + (be32(q.start_time_delta).len() as int), 0 + (be32(q.start_time_delta).len() as int) + (be32(q.end_time_delta).len() as int)) =~= be32(q.end_time_delta),
{
    assert(d.subrange(0, d.len() as int) =~= d);
    crate::bytes::lemma_region(
        d,
        0,
        be32(q.start_time_delta),
        be32(q.end_time_delta),
    );
}

/// Reads a whole `GameDvrRecordData` region.
#[verifier::rlimit(100)]
#[verifier::spinoff_prover]
pub fn parse_game_dvr_record(d: &[u8]) -> (r: Result<GameDvrRecordData, FieldError>)
    ensures
        r matches Ok(p) ==> game_dvr_record_bytes(p) == d@,
        forall|q: GameDvrRecordData|
            (#[trigger] game_dvr_record_bytes(q) == d@) ==> (r matches Ok(p) && p == q),
{
    proof {
        assert forall|q: GameDvrRecordData| game_dvr_record_bytes(q) == d@ implies game_dvr_record_bytes(q).len() == d@.len() by {
            lemma_game_dvr_record_parts(d@, q);
        }
    }
    let (f0, p1) = match read_u32(d, 0) {
        Ok(v) => v,
        Err(e) => {
            return Err(e);
        },
    };
    let (f1, p2) = match read_u32(d, p1) {
        Ok(v) => v,
        Err(e) => {
            return Err(e);
        },
    };
    if p2 != d.len() {
        return Err(FieldError::Leftover);
    }
    let p = GameDvrRecordData {
        start_time_delta: f0,
        end_time_delta: f1,
    };
    proof {
        assert(game_dvr_record_bytes(p) =~= d@);
        assert forall|q: GameDvrRecordData| (game_dvr_record_bytes(q) == d@) implies p == q by {
            lemma_game_dvr_record_parts(d@, q);
            crate::bytes::lemma_be32_of(q.start_time_delta);
            assert(q.start_time_delta == f0);
            crate::bytes::lemma_be32_of(q.end_time_delta);
            assert(q.end_time_delta == f1);
        }
    }
    Ok(p)
}

/// Appends the wire image of a `GameDvrRecordData`.
pub fn write_game_dvr_record(out: &mut Vec<u8>, q: &GameDvrRecordData)
    ensures
        final(out)@ =~= old(out)@ + game_dvr_record_bytes(*q),
{
    write_u32(out, q.start_time_delta);
    write_u32(out, q.end_time_delta);
}

/// A power-off request.
#[derive(Clone, Debug, PartialEq)]
pub struct PowerOffData {
    pub device_id: SGString,
}

/// The mathematical image of a `PowerOffData` value.
pub ghost struct PowerOffDataModel {
    pub device_id: Seq<u8>,
}

impl View for PowerOffData {
    type V = PowerOffDataModel;

    open spec fn view(&self) -> PowerOffDataModel {
        PowerOffDataModel {
            device_id: self.device_id@,
        }
    }
}

/// A `PowerOffData` image the wire can carry.
pub open spec fn power_off_wf(q: PowerOffDataModel) -> bool {
    sg_wf(q.device_id)
}

/// The wire image of a `PowerOffData`.
pub open spec fn power_off_bytes(q: PowerOffDataModel) -> Seq<u8> {
    sg_bytes(q.device_id)
}

/// The field regions of a `PowerOffData` image standing as all of `d`.
pub proof fn lemma_power_off_parts(d: Seq<u8>, q: PowerOffDataModel)
    requires
        power_off_wf(q),
        power_off_bytes(q) == d,
    ensures
        d.len() == 0 + (sg_bytes(q.device_id).len() as int),
        d.subrange(0, 0 + (sg_bytes(q.device_id).len() as int)) =~= sg_bytes(q.device_id),
{
    assert(d.subrange(0, d.len() as int) =~= d);
    assert(d.subrange(0, d.len() as int) =~= sg_bytes(q.device_id));
}

/// Reads a whole `PowerOffData` region.
#[verifier::rlimit(100)]
#[verifier::spinoff_prover]
pub fn parse_power_off(d: &[u8]) -> (r: Result<PowerOffData, FieldError>)
    ensures
        r matches Ok(p) ==> power_off_wf(p@) && power_off_bytes(p@) == d@,
        forall|q: PowerOffDataModel|
            (power_off_wf(q) && #[trigger] power_off_bytes(q) == d@) ==> (r matches Ok(p) && p@ == q),
{
    proof {
        assert forall|q: PowerOffDataModel| power_off_wf(q) && power_off_bytes(q) == d@ implies power_off_bytes(q).len() == d@.len() by {
            lemma_power_off_parts(d@, q);
        }
        assert forall|q: PowerOffDataModel| power_off_wf(q) && power_off_bytes(q) == d@ implies sg_at(d@, 0, q.device_id, 0 + (sg_bytes(q.device_id).len() as int)) by {
            lemma_power_off_parts(d@, q);
            assert(sg_at(d@, 0, q.device_id, 0 + (sg_bytes(q.device_id).len() as int)));
        }
    }
    let (f0, p1) = match read_sgstring(d, 0) {
        Ok(v) => v,
        Err(e) => {
            return Err(e);
        },
    };
    proof {
        assert forall|q: PowerOffDataModel| power_off_wf(q) && power_off_bytes(q) == d@ implies q.device_id == f0@ by {
            lemma_power_off_parts(d@, q);
            assert(sg_at(d@, 0 as int, q.device_id, 0 as int + (sg_bytes(q.device_id).len() as int)));
            assert(q.device_id == f0@);
        }
    }
    if p1 != d.len() {
        return Err(FieldError::Leftover);
    }
    let p = PowerOffData {
        device_id: f0,
    };
    proof {
        assert(power_off_bytes(p@) =~= d@);
        assert forall|q: PowerOffDataModel| (power_off_wf(q) && power_off_bytes(q) == d@) implies p@ == q by {
            lemma_power_off_parts(d@, q);
            assert(sg_at(d@, 0 as int, q.device_id, 0 + (sg_bytes(q.device_id).len() as int)));
            assert(q.device_id == f0@);
            assert(q == (PowerOffDataModel {
                device_id: f0@,
            }));
        }
    }
    Ok(p)
}

/// Appends the wire image of a `PowerOffData`.
pub fn write_power_off(out: &mut Vec<u8>, q: &PowerOffData) -> (r: Result<(), FieldError>)
    ensures
        r is Ok ==> final(out)@ =~= old(out)@ + power_off_bytes(q@),
        r is Ok <==> q@.device_id.len() <= 0xFFFF,
        r is Err ==> final(out)@ == old(out)@,
        r matches Err(e) ==> e == FieldError::Oversize,
{
    let mut tmp: Vec<u8> = Vec::new();
    match write_sgstring(&mut tmp, &q.device_id) {
        Ok(()) => (),
        Err(e) => {
            return Err(e);
        },
    }
    write_bytes(out, tmp.as_slice());
    Ok(())
}

/// A media controller removal notice.
#[derive(Clone, Copy, Debug, PartialEq, Eq, Structural)]
pub struct MediaControllerRemovedData {
    pub title_id: u32,
}

/// The wire image of a `MediaControllerRemovedData`.
pub open spec fn media_controller_removed_bytes(q: MediaControllerRemovedData) -> Seq<u8> {
    be32(q.title_id)
}

/// The field regions of a `MediaControllerRemovedData` image standing as all of `d`.
pub proof fn lemma_media_controller_removed_parts(d: Seq<u8>, q: MediaControllerRemovedData)
    requires
        media_controller_removed_bytes(q) == d,
    ensures
        d.len() == 0 + (be32(q.title_id).len() as int),
        d.subrange(0, 0 + (be32(q.title_id).len() as int)) =~= be32(q.title_id),
{
    assert(d.subrange(0, d.len() as int) =~= d);
    assert(d.subrange(0, d.len() as int) =~= be32(q.title_id));
}

/// Reads a whole `MediaControllerRemovedData` region.
#[verifier::rlimit(100)]
#[verifier::spinoff_prover]
pub fn parse_media_controller_removed(d: &[u8]) -> (r: Result<MediaControllerRemovedData, FieldError>)
    ensures
        r matches Ok(p) ==> media_controller_removed_bytes(p) == d@,
        forall|q: MediaControllerRemovedData|
            (#[trigger] media_controller_removed_bytes(q) == d@) ==> (r matches Ok(p) && p == q),
{
    proof {
        assert forall|q: MediaControllerRemovedData| media_controller_removed_bytes(q) == d@ implies media_controller_removed_bytes(q).len() == d@.len() by {
            lemma_media_controller_removed_parts(d@, q);
        }
    }
    let (f0, p1) = match read_u32(d, 0) {
        Ok(v) => v,
        Err(e) => {
            return Err(e);
        },
    };
    if p1 != d.len() {
        return Err(FieldError::Leftover);
    }
    let p = MediaControllerRemovedData {
        title_id: f0,
    };
    proof {
        assert(media_controller_removed_bytes(p) =~= d@);
        assert forall|q: MediaControllerRemovedData| (media_controller_removed_bytes(q) == d@) implies p == q by {
            lemma_media_controller_removed_parts(d@, q);
            crate::bytes::lemma_be32_of(q.title_id);
            assert(q.title_id == f0);
        }
    }
    Ok(p)
}

/// Appends the wire image of a `MediaControllerRemovedData`.
pub fn write_media_controller_removed(out: &mut Vec<u8>, q: &MediaControllerRemovedData)
    ensures
        final(out)@ =~= old(out)@ + media_controller_removed_bytes(*q),
{
    write_u32(out, q.title_id);
}

/// A media command.
#[derive(Clone, Copy, Debug, PartialEq, Eq, Structural)]
pub struct MediaCommandData {
    pub request_id: u64,
    pub title_id: u32,
    pub command: u32,
}

/// The wire image of a `MediaCommandData`.
pub open spec fn media_command_bytes(q: MediaCommandData) -> Seq<u8> {
    be64(q.request_id) + be32(q.title_id) + be32(q.command)
}

/// The field regions of a `MediaCommandData` image standing as all of `d`.
pub proof fn lemma_media_command_parts(d: Seq<u8>, q: MediaCommandData)
    requires
        media_command_bytes(q) == d,
    ensures
        d.len() == 0 + (be64(q.request_id).len() as int) + (be32(q.title_id).len() as int) + (be32(q.command).len() as int),
        d.subrange(0, 0 + (be64(q.request_id).len() as int)) =~= be64(q.request_id),
        d.subrange(0 + (be64(q.request_id).len() as int), 0 + (be64(q.request_id).len() as int) + (be32(q.title_id).len() as int)) =~= be32(q.title_id),
        d.subrange(0 + (be64(q.request_id).len() as int) + (be32(q.title_id).len() as int), 0 + (be64(q.request_id).len() as int) + (be32(q.title_id).len() as int) + (be32(q.command).len() as int)) =~= be32(q.command),
{
    assert(d.subrange(0, d.len() as int) =~= d);
    crate::bytes::lemma_region3(
        d,
        0,
        be64(q.request_id),
        be32(q.title_id),
        be32(q.command),
    );
}

/// Reads a whole `MediaCommandData` region.
#[verifier::rlimit(100)]
#[verifier::spinoff_prover]
pub fn parse_media_command(d: &[u8]) -> (r: Result<MediaCommandData, FieldError>)
    ensures
        r matches Ok(p) ==> media_command_bytes(p) == d@,
        forall|q: MediaCommandData|
            (#[trigger] media_command_bytes(q) == d@) ==> (r matches Ok(p) && p == q),
{
    proof {
        assert forall|q: MediaCommandData| media_command_bytes(q) == d@ implies media_command_bytes(q).len() == d@.len() by {
            lemma_media_command_parts(d@, q);
        }
    }
    let (f0, p1) = match read_u64(d, 0) {
        Ok(v) => v,
        Err(e) => {
            return Err(e);
        },
    };
    let (f1, p2) = match read_u32(d, p1) {
        Ok(v) => v,
        Err(e) => {
            return Err(e);
        },
    };
    let (f2, p3) = match read_u32(d, p2) {
        Ok(v) => v,
        Err(e) => {
            return Err(e);
        },
    };
    if p3 != d.len() {
        return Err(FieldError::Leftover);
    }
    let p = MediaCommandData {
        request_id: f0,
        title_id: f1,
        command: f2,
    };
    proof {
        assert(media_command_bytes(p) =~= d@);
        assert forall|q: MediaCommandData| (media_command_bytes(q) == d@) implies p == q by {
            lemma_media_command_parts(d@, q);
            crate::bytes::lemma_be64_of(q.request_id);
            assert(q.request_id == f0);
            crate::bytes::lemma_be32_of(q.title_id);
            assert(q.title_id == f1);
            crate::bytes::lemma_be32_of(q.command);
            assert(q.command == f2);
        }
    }
    Ok(p)
}

/// Appends the wire image of a `MediaCommandData`.
pub fn write_media_command(out: &mut Vec<u8>, q: &MediaCommandData)
    ensures
        final(out)@ =~= old(out)@ + media_command_bytes(*q),
{
    write_u64(out, q.request_id);
    write_u32(out, q.title_id);
    write_u32(out, q.command);
}

/// The result of a media command.
#[derive(Clone, Copy, Debug, PartialEq, Eq, Structural)]
pub struct MediaCommandResultData {
    pub request_id: u64,
    pub result: u32,
}

/// The wire image of a `MediaCommandResultData`.
pub open spec fn media_command_result_bytes(q: MediaCommandResultData) -> Seq<u8> {
    be64(q.request_id) + be32(q.result)
}

/// The field regions of a `MediaCommandResultData` image standing as all of `d`.
pub proof fn lemma_media_command_result_parts(d: Seq<u8>, q: MediaCommandResultData)
    requires
        media_command_result_bytes(q) == d,
    ensures
        d.len() == 0 + (be64(q.request_id).len() as int) + (be32(q.result).len() as int),
        d.subrange(0, 0 + (be64(q.request_id).len() as int)) =~= be64(q.request_id),
        d.subrange(0 + (be64(q.request_id).len() as int), 0 + (be64(q.request_id).len() as int) + (be32(q.result).len() as int)) =~= be32(q.result),
{
    assert(d.subrange(0, d.len() as int) =~= d);
    crate::bytes::lemma_region(
        d,
        0,
        be64(q.request_id),
        be32(q.result),
    );
}

/// Reads a whole `MediaCommandResultData` region.
#[verifier::rlimit(100)]
#[verifier::spinoff_prover]
pub fn parse_media_command_result(d: &[u8]) -> (r: Result<MediaCommandResultData, FieldError>)
    ensures
        r matches Ok(p) ==> media_command_result_bytes(p) == d@,
        forall|q: MediaCommandResultData|
            (#[trigger] media_command_result_bytes(q) == d@) ==> (r matches Ok(p) && p == q),
{
    proof {
        assert forall|q: MediaCommandResultData| media_command_result_bytes(q) == d@ implies media_command_result_bytes(q).len() == d@.len() by {
            lemma_media_command_result_parts(d@, q);
        }
    }
    let (f0, p1) = match read_u64(d, 0) {
        Ok(v) => v,
        Err(e) => {
            return Err(e);
        },
    };
    let (f1, p2) = match read_u32(d, p1) {
        Ok(v) => v,
        Err(e) => {
            return Err(e);
        },
    };
    if p2 != d.len() {
        return Err(FieldError::Leftover);
    }
    let p = MediaCommandResultData {
        request_id: f0,
        result: f1,
    };
    proof {
        assert(media_command_result_bytes(p) =~= d@);
        assert forall|q: MediaCommandResultData| (media_command_result_bytes(q) == d@) implies p == q by {
            lemma_media_command_result_parts(d@, q);
            crate::bytes::lemma_be64_of(q.request_id);
            assert(q.request_id == f0);
            crate::bytes::lemma_be32_of(q.result);
            assert(q.result == f1);
        }
    }
    Ok(p)
}

/// Appends the wire image of a `MediaCommandResultData`.
pub fn write_media_command_result(out: &mut Vec<u8>, q: &MediaCommandResultData)
    ensures
        final(out)@ =~= old(out)@ + media_command_result_bytes(*q),
{
    write_u64(out, q.request_id);
    write_u32(out, q.result);
}

/// A system text input payload.
#[derive(Clone, Debug, PartialEq)]
pub struct SystemTextInputData {
    pub session_id: u32,
    pub base_version: u32,
    pub submitted_version: u32,
    pub total_text_byte_len: u32,
    pub selection_start: u32,
    pub selection_end: u32,
    pub flags: u16,
    pub text_chunk_byte_start: u32,
    pub text_chunk: SGString,
}

/// The mathematical image of a `SystemTextInputData` value.
pub ghost struct SystemTextInputDataModel {
    pub session_id: u32,
    pub base_version: u32,
    pub submitted_version: u32,
    pub total_text_byte_len: u32,
    pub selection_start: u32,
    pub selection_end: u32,
    pub flags: u16,
    pub text_chunk_byte_start: u32,
    pub text_chunk: Seq<u8>,
}

impl View for SystemTextInputData {
    type V = SystemTextInputDataModel;

    open spec fn view(&self) -> SystemTextInputDataModel {
        SystemTextInputDataModel {
            session_id: self.session_id,
            base_version: self.base_version,
            submitted_version: self.submitted_version,
            total_text_byte_len: self.total_text_byte_len,
            selection_start: self.selection_start,
            selection_end: self.selection_end,
            flags: self.flags,
            text_chunk_byte_start: self.text_chunk_byte_start,
            text_chunk: self.text_chunk@,
        }
    }
}

/// A `SystemTextInputData` image the wire can carry.
pub open spec fn system_text_input_wf(q: SystemTextInputDataModel) -> bool {
    sg_wf(q.text_chunk)
}

/// The wire image of a `SystemTextInputData`.
pub open spec fn system_text_input_bytes(q: SystemTextInputDataModel) -> Seq<u8> {
    be32(q.session_id) + be32(q.base_version) + be32(q.submitted_version) + be32(q.total_text_byte_len) + be32(q.selection_start) + be32(q.selection_end) + be16(q.flags) + be32(q.text_chunk_byte_start) + sg_bytes(q.text_chunk)
}

/// The field regions of a `SystemTextInputData` image standing as all of `d`.
pub proof fn lemma_system_text_input_parts(d: Seq<u8>, q: SystemTextInputDataModel)
    requires
        system_text_input_wf(q),
        system_text_input_bytes(q) == d,
    ensures
        d.len() == 0 + (be32(q.session_id).len() as int) + (be32(q.base_version).len() as int) + (be32(q.submitted_version).len() as int) + (be32(q.total_text_byte_len).len() as int) + (be32(q.selection_start).len() as int) + (be32(q.selection_end).len() as int) + (be16(q.flags).len() as int) + (be32(q.text_chunk_byte_start).len() as int) + (sg_bytes(q.text_chunk).len() as int),
        d.subrange(0, 0 + (be32(q.session_id).len() as int)) =~= be32(q.session_id),
        d.subrange(0 + (be32(q.session_id).len() as int), 0 + (be32(q.session_id).len() as int) + (be32(q.base_version).len() as int)) =~= be32(q.base_version),
        d.subrange(0 + (be32(q.session_id).len() as int) + (be32(q.base_version).len() as int), 0 + (be32(q.session_id).len() as int) + (be32(q.base_version).len() as int) + (be32(q.submitted_version).len() as int)) =~= be32(q.submitted_version),
        d.subrange(0 + (be32(q.session_id).len() as int) + (be32(q.base_version).len() as int) + (be32(q.submitted_version).len() as int), 0 + (be32(q.session_id).len() as int) + (be32(q.base_version).len() as int) + (be32(q.submitted_version).len() as int) + (be32(q.total_text_byte_len).len() as int)) =~= be32(q.total_text_byte_len),
        d.subrange(0 + (be32(q.session_id).len() as int) + (be32(q.base_version).len() as int) + (be32(q.submitted_version).len() as int) + (be32(q.total_text_byte_len).len() as int), 0 + (be32(q.session_id).len() as int) + (be32(q.base_version).len() as int) + (be32(q.submitted_version).len() as int) + (be32(q.total_text_byte_len).len() as int) + (be32(q.selection_start).len() as int)) =~= be32(q.selection_start),
        d.subrange(0 + (be32(q.session_id).len() as int) + (be32(q.base_version).len() as int) + (be32(q.submitted_version).len() as int) + (be32(q.total_text_byte_len).len() as int) + (be32(q.selection_start).len() as int), 0 + (be32(q.session_id).len() as int) + (be32(q.base_version).len() as int) + (be32(q.submitted_version).len() as int) + (be32(q.total_text_byte_len).len() as int) + (be32(q.selection_start).len() as int) + (be32(q.selection_end).len() as int)) =~= be32(q.selection_end),
        d.subrange(0 + (be32(q.session_id).len() as int) + (be32(q.base_version).len() as int) + (be32(q.submitted_version).len() as int) + (be32(q.total_text_byte_len).len() as int) + (be32(q.selection_start).len() as int) + (be32(q.selection_end).len() as int), 0 + (be32(q.session_id).len() as int) + (be32(q.base_version).len() as int) + (be32(q.submitted_version).len() as int) + (be32(q.total_text_byte_len).len() as int) + (be32(q.selection_start).len() as int) + (be32(q.selection_end).len() as int) + (be16(q.flags).len() as int)) =~= be16(q.flags),
        d.subrange(0 + (be32(q.session_id).len() as int) + (be32(q.base_version).len() as int) + (be32(q.submitted_version).len() as int) + (be32(q.total_text_byte_len).len() as int) + (be32(q.selection_start).len() as int) + (be32(q.selection_end).len() as int) + (be16(q.flags).len() as int), 0 + (be32(q.session_id).len() as int) + (be32(q.base_version).len() as int) + (be32(q.submitted_version).len() as int) + (be32(q.total_text_byte_len).len() as int) + (be32(q.selection_start).len() as int) + (be32(q.selection_end).len() as int) + (be16(q.flags).len() as int) + (be32(q.text_chunk_byte_start).len() as int)) =~= be32(q.text_chunk_byte_start),
        d.subrange(0 + (be32(q.session_id).len() as int) + (be32(q.base_version).len() as int) + (be32(q.submitted_version).len() as int) + (be32(q.total_text_byte_len).len() as int) + (be32(q.selection_start).len() as int) + (be32(q.selection_end).len() as int) + (be16(q.flags).len() as int) + (be32(q.text_chunk_byte_start).len() as int), 0 + (be32(q.session_id).len() as int) + (be32(q.base_version).len() as int) + (be32(q.submitted_version).len() as int) + (be32(q.total_text_byte_len).len() as int) + (be32(q.selection_start).len() as int) + (be32(q.selection_end).len() as int) + (be16(q.flags).len() as int) + (be32(q.text_chunk_byte_start).len() as int) + (sg_bytes(q.text_chunk).len() as int)) =~= sg_bytes(q.text_chunk),
{
    assert(d.subrange(0, d.len() as int) =~= d);
    crate::bytes::lemma_region9(
        d,
        0,
        be32(q.session_id),
        be32(q.base_version),
        be32(q.submitted_version),
        be32(q.total_text_byte_len),
        be32(q.selection_start),
        be32(q.selection_end),
        be16(q.flags),
        be32(q.text_chunk_byte_start),
        sg_bytes(q.text_chunk),
    );
}

/// Reads a whole `SystemTextInputData` region.
#[verifier::rlimit(100)]
#[verifier::spinoff_prover]
pub fn parse_system_text_input(d: &[u8]) -> (r: Result<SystemTextInputData, FieldError>)
    ensures
        r matches Ok(p) ==> system_text_input_wf(p@) && system_text_input_bytes(p@) == d@,
        forall|q: SystemTextInputDataModel|
            (system_text_input_wf(q) && #[trigger] system_text_input_bytes(q) == d@) ==> (r matches Ok(p) && p@ == q),
{
    proof {
        assert forall|q: SystemTextInputDataModel| system_text_input_wf(q) && system_text_input_bytes(q) == d@ implies system_text_input_bytes(q).len() == d@.len() by {
            lemma_system_text_input_parts(d@, q);
        }
        assert forall|q: SystemTextInputDataModel| system_text_input_wf(q) && system_text_input_bytes(q) == d@ implies sg_at(d@, 30, q.text_chunk, 30 + (sg_bytes(q.text_chunk).len() as int)) by {
            lemma_system_text_input_parts(d@, q);
            assert(sg_at(d@, 30, q.text_chunk, 30 + (sg_bytes(q.text_chunk).len() as int)));
        }
    }
    let (f0, p1) = match read_u32(d, 0) {
        Ok(v) => v,
        Err(e) => {
            return Err(e);
        },
    };
    let (f1, p2) = match read_u32(d, p1) {
        Ok(v) => v,
        Err(e) => {
            return Err(e);
        },
    };
    let (f2, p3) = match read_u32(d, p2) {
        Ok(v) => v,
        Err(e) => {
            return Err(e);
        },
    };
    let (f3, p4) = match read_u32(d, p3) {
        Ok(v) => v,
        Err(e) => {
            return Err(e);
        },
    };
    let (f4, p5) = match read_u32(d, p4) {
        Ok(v) => v,
        Err(e) => {
            return Err(e);
        },
    };
    let (f5, p6) = match read_u32(d, p5) {
        Ok(v) => v,
        Err(e) => {
            return Err(e);
        },
    };
    let (f6, p7) = match read_u16(d, p6) {
        Ok(v) => v,
        Err(e) => {
            return Err(e);
        },
    };
    let (f7, p8) = match read_u32(d, p7) {
        Ok(v) => v,
        Err(e) => {
            return Err(e);
        },
    };
    let (f8, p9) = match read_sgstring(d, p8) {
        Ok(v) => v,
        Err(e) => {
            return Err(e);
        },
    };
    proof {
        assert forall|q: SystemTextInputDataModel| system_text_input_wf(q) && system_text_input_bytes(q) == d@ implies q.text_chunk == f8@ by {
            lemma_system_text_input_parts(d@, q);
            assert(sg_at(d@, p8 as int, q.text_chunk, p8 as int + (sg_bytes(q.text_chunk).len() as int)));
            assert(q.text_chunk == f8@);
        }
    }
    if p9 != d.len() {
        return Err(FieldError::Leftover);
    }
    let p = SystemTextInputData {
        session_id: f0,
        base_version: f1,
        submitted_version: f2,
        total_text_byte_len: f3,
        selection_start: f4,
        selection_end: f5,
        flags: f6,
        text_chunk_byte_start: f7,
        text_chunk: f8,
    };
    proof {
        assert(system_text_input_bytes(p@) =~= d@);
        assert forall|q: SystemTextInputDataModel| (system_text_input_wf(q) && system_text_input_bytes(q) == d@) implies p@ == q by {
            lemma_system_text_input_parts(d@, q);
            crate::bytes::lemma_be32_of(q.session_id);
            assert(q.session_id == f0);
            crate::bytes::lemma_be32_of(q.base_version);
            assert(q.base_version == f1);
            crate::bytes::lemma_be32_of(q.submitted_version);
            assert(q.submitted_version == f2);
            crate::bytes::lemma_be32_of(q.total_text_byte_len);
            assert(q.total_text_byte_len == f3);
            crate::bytes::lemma_be32_of(q.selection_start);
            assert(q.selection_start == f4);
            crate::bytes::lemma_be32_of(q.selection_end);
            assert(q.selection_end == f5);
            crate::bytes::lemma_be16_of(q.flags);
            assert(q.flags == f6);
            crate::bytes::lemma_be32_of(q.text_chunk_byte_start);
            assert(q.text_chunk_byte_start == f7);
            assert(sg_at(d@, p8 as int, q.text_chunk, p8 + (sg_bytes(q.text_chunk).len() as int)));
            assert(q.text_chunk == f8@);
            assert(q == (SystemTextInputDataModel {
                session_id: f0,
                base_version: f1,
                submitted_version: f2,
                total_text_byte_len: f3,
                selection_start: f4,
                selection_end: f5,
                flags: f6,
                text_chunk_byte_start: f7,
                text_chunk: f8@,
            }));
        }
    }
    Ok(p)
}

/// Appends the wire image of a `SystemTextInputData`.
pub fn write_system_text_input(out: &mut Vec<u8>, q: &SystemTextInputData) -> (r: Result<(), FieldError>)
    ensures
        r is Ok ==> final(out)@ =~= old(out)@ + system_text_input_bytes(q@),
        r is Ok <==> q@.text_chunk.len() <= 0xFFFF,
        r is Err ==> final(out)@ == old(out)@,
        r matches Err(e) ==> e == FieldError::Oversize,
{
    let mut tmp: Vec<u8> = Vec::new();
    write_u32(&mut tmp, q.session_id);
    write_u32(&mut tmp, q.base_version);
    write_u32(&mut tmp, q.submitted_version);
    write_u32(&mut tmp, q.total_text_byte_len);
    write_u32(&mut tmp, q.selection_start);
    write_u32(&mut tmp, q.selection_end);
    write_u16(&mut tmp, q.flags);
    write_u32(&mut tmp, q.text_chunk_byte_start);
    match write_sgstring(&mut tmp, &q.text_chunk) {
        Ok(()) => (),
        Err(e) => {
            return Err(e);
        },
    }
    write_bytes(out, tmp.as_slice());
    Ok(())
}

/// A system text acknowledgement.
#[derive(Clone, Copy, Debug, PartialEq, Eq, Structural)]
pub struct SystemTextAcknowledgeData {
    pub session_id: u32,
    pub version_ack: u32,
}

/// The wire image of a `SystemTextAcknowledgeData`.
pub open spec fn system_text_acknowledge_bytes(q: SystemTextAcknowledgeData) -> Seq<u8> {
    be32(q.session_id) + be32(q.version_ack)
}

/// The field regions of a `SystemTextAcknowledgeData` image standing as all of `d`.
pub proof fn lemma_system_text_acknowledge_parts(d: Seq<u8>, q: SystemTextAcknowledgeData)
    requires
        system_text_acknowledge_bytes(q) == d,
    ensures
        d.len() == 0 + (be32(q.session_id).len() as int) + (be32(q.version_ack).len() as int),
        d.subrange(0, 0 + (be32(q.session_id).len() as int)) =~= be32(q.session_id),
        d.subrange(0 + (be32(q.session_id).len() as int), 0 + (be32(q.session_id).len() as int) + (be32(q.version_ack).len() as int)) =~= be32(q.version_ack),
{
    assert(d.subrange(0, d.len() as int) =~= d);
    crate::bytes::lemma_region(
        d,
        0,
        be32(q.session_id),
        be32(q.version_ack),
    );
}

/// Reads a whole `SystemTextAcknowledgeData` region.
#[verifier::rlimit(100)]
#[verifier::spinoff_prover]
pub fn parse_system_text_acknowledge(d: &[u8]) -> (r: Result<SystemTextAcknowledgeData, FieldError>)
    ensures
        r matches Ok(p) ==> system_text_acknowledge_bytes(p) == d@,
        forall|q: SystemTextAcknowledgeData|
            (#[trigger] system_text_acknowledge_bytes(q) == d@) ==> (r matches Ok(p) && p == q),
{
    proof {
        assert forall|q: SystemTextAcknowledgeData| system_text_acknowledge_bytes(q) == d@ implies system_text_acknowledge_bytes(q).len() == d@.len() by {
            lemma_system_text_acknowledge_parts(d@, q);
        }
    }
    let (f0, p1) = match read_u32(d, 0) {
        Ok(v) => v,
        Err(e) => {
            return Err(e);
        },
    };
    let (f1, p2) = match read_u32(d, p1) {
        Ok(v) => v,
        Err(e) => {
            return Err(e);
        },
    };
    if p2 != d.len() {
        return Err(FieldError::Leftover);
    }
    let p = SystemTextAcknowledgeData {
        session_id: f0,
        version_ack: f1,
    };
    proof {
        assert(system_text_acknowledge_bytes(p) =~= d@);
        assert forall|q: SystemTextAcknowledgeData| (system_text_acknowledge_bytes(q) == d@) implies p == q by {
            lemma_system_text_acknowledge_parts(d@, q);
            crate::bytes::lemma_be32_of(q.session_id);
            assert(q.session_id == f0);
            crate::bytes::lemma_be32_of(q.version_ack);
            assert(q.version_ack == f1);
        }
    }
    Ok(p)
}

/// Appends the wire image of a `SystemTextAcknowledgeData`.
pub fn write_system_text_acknowledge(out: &mut Vec<u8>, q: &SystemTextAcknowledgeData)
    ensures
        final(out)@ =~= old(out)@ + system_text_acknowledge_bytes(*q),
{
    write_u32(out, q.session_id);
    write_u32(out, q.version_ack);
}

/// A system text completion notice.
#[derive(Clone, Copy, Debug, PartialEq, Eq, Structural)]
pub struct SystemTextDoneData {
    pub session_id: u32,
    pub version: u32,
    pub flags: u32,
    pub unk: u32,
}

/// The wire image of a `SystemTextDoneData`.
pub open spec fn system_text_done_bytes(q: SystemTextDoneData) -> Seq<u8> {
    be32(q.session_id) + be32(q.version) + be32(q.flags) + be32(q.unk)
}

/// The field regions of a `SystemTextDoneData` image standing as all of `d`.
pub proof fn lemma_system_text_done_parts(d: Seq<u8>, q: SystemTextDoneData)
    requires
        system_text_done_bytes(q) == d,
    ensures
        d.len() == 0 + (be32(q.session_id).len() as int) + (be32(q.version).len() as int) + (be32(q.flags).len() as int) + (be32(q.unk).len() as int),
        d.subrange(0, 0 + (be32(q.session_id).len() as int)) =~= be32(q.session_id),
        d.subrange(0 + (be32(q.session_id).len() as int), 0 + (be32(q.session_id).len() as int) + (be32(q.version).len() as int)) =~= be32(q.version),
        d.subrange(0 + (be32(q.session_id).len() as int) + (be32(q.version).len() as int), 0 + (be32(q.session_id).len() as int) + (be32(q.version).len() as int) + (be32(q.flags).len() as int)) =~= be32(q.flags),
        d.subrange(0 + (be32(q.session_id).len() as int) + (be32(q.version).len() as int) + (be32(q.flags).len() as int), 0 + (be32(q.session_id).len() as int) + (be32(q.version).len() as int) + (be32(q.flags).len() as int) + (be32(q.unk).len() as int)) =~= be32(q.unk),
{
    assert(d.subrange(0, d.len() as int) =~= d);
    crate::bytes::lemma_region4(
        d,
        0,
        be32(q.session_id),
        be32(q.version),
        be32(q.flags),
        be32(q.unk),
    );
}

/// Reads a whole `SystemTextDoneData` region.
#[verifier::rlimit(100)]
#[verifier::spinoff_prover]
pub fn parse_system_text_done(d: &[u8]) -> (r: Result<SystemTextDoneData, FieldError>)
    ensures
        r matches Ok(p) ==> system_text_done_bytes(p) == d@,
        forall|q: SystemTextDoneData|
            (#[trigger] system_text_done_bytes(q) == d@) ==> (r matches Ok(p) && p == q),
{
    proof {
        assert forall|q: SystemTextDoneData| system_text_done_bytes(q) == d@ implies system_text_done_bytes(q).len() == d@.len() by {
            lemma_system_text_done_parts(d@, q);
        }
    }
    let (f0, p1) = match read_u32(d, 0) {
        Ok(v) => v,
        Err(e) => {
            return Err(e);
        },
    };
    let (f1, p2) = match read_u32(d, p1) {
        Ok(v) => v,
        Err(e) => {
            return Err(e);
        },
    };
    let (f2, p3) = match read_u32(d, p2) {
        Ok(v) => v,
        Err(e) => {
            return Err(e);
        },
    };
    let (f3, p4) = match read_u32(d, p3) {
        Ok(v) => v,
        Err(e) => {
            return Err(e);
        },
    };
    if p4 != d.len() {
        return Err(FieldError::Leftover);
    }
    let p = SystemTextDoneData {
        session_id: f0,
        version: f1,
        flags: f2,
        unk: f3,
    };
    proof {
        assert(system_text_done_bytes(p) =~= d@);
        assert forall|q: SystemTextDoneData| (system_text_done_bytes(q) == d@) implies p == q by {
            lemma_system_text_done_parts(d@, q);
            crate::bytes::lemma_be32_of(q.session_id);
            assert(q.session_id == f0);
            crate::bytes::lemma_be32_of(q.version);
            assert(q.version == f1);
            crate::bytes::lemma_be32_of(q.flags);
            assert(q.flags == f2);
            crate::bytes::lemma_be32_of(q.unk);
            assert(q.unk == f3);
        }
    }
    Ok(p)
}

/// Appends the wire image of a `SystemTextDoneData`.
pub fn write_system_text_done(out: &mut Vec<u8>, q: &SystemTextDoneData)
    ensures
        final(out)@ =~= old(out)@ + system_text_done_bytes(*q),
{
    write_u32(out, q.session_id);
    write_u32(out, q.version);
    write_u32(out, q.flags);
    write_u32(out, q.unk);
}


// ---------------------------------------------------------------------------
// AcknowledgeData
// ---------------------------------------------------------------------------
/// The byte image of a run of 32-bit values, back to back.
pub open spec fn u32s_bytes(s: Seq<u32>) -> Seq<u8>
    decreases s.len(),
{
    if s.len() == 0 {
        Seq::empty()
    } else {
        be32(s[0]) + u32s_bytes(s.skip(1))
    }
}

/// Each element of the run stands at its place.
pub proof fn lemma_u32s(s: Seq<u32>)
    ensures
        u32s_bytes(s).len() == 4 * s.len(),
        forall|k: int|
            0 <= k < s.len() ==> #[trigger] u32s_bytes(s).subrange(4 * k, 4 * k + 4) =~= be32(s[k]),
    decreases s.len(),
{
    if s.len() > 0 {
        lemma_u32s(s.skip(1));
        assert forall|k: int|
            0 <= k < s.len() implies #[trigger] u32s_bytes(s).subrange(4 * k, 4 * k + 4) =~= be32(
            s[k],
        ) by {
            if k == 0 {
                assert(u32s_bytes(s).subrange(0, 4) =~= be32(s[0]));
            } else {
                assert(u32s_bytes(s.skip(1)).subrange(4 * (k - 1), 4 * (k - 1) + 4) =~= be32(s.skip(
                    1,
                )[k - 1]));
                assert forall|m: int|
                    0 <= m < 4 implies u32s_bytes(s).subrange(4 * k, 4 * k + 4)[m] == be32(
                    s[k],
                )[m] by {
                    assert(u32s_bytes(s)[4 * k + m] == u32s_bytes(s.skip(1))[4 * (k - 1) + m]);
                    assert(u32s_bytes(s.skip(1)).subrange(4 * (k - 1), 4 * (k - 1) + 4)[m]
                        == u32s_bytes(s.skip(1))[4 * (k - 1) + m]);
                }
            }
        }
    }
}

/// Appending one value appends its four bytes.
pub proof fn lemma_u32s_push(s: Seq<u32>, x: u32)
    ensures
        u32s_bytes(s.push(x)) =~= u32s_bytes(s) + be32(x),
    decreases s.len(),
{
    if s.len() == 0 {
        assert(s.push(x).skip(1) =~= Seq::<u32>::empty());
        assert(u32s_bytes(Seq::<u32>::empty()) =~= Seq::<u8>::empty());
        assert(u32s_bytes(s.push(x)) =~= be32(x));
    } else {
        assert(s.push(x).skip(1) =~= s.skip(1).push(x));
        lemma_u32s_push(s.skip(1), x);
    }
}

/// An acknowledgement: the low watermark, the sequence numbers processed,
/// and the sequence numbers rejected.
#[derive(Clone, Debug, PartialEq)]
pub struct AcknowledgeData {
    pub low_watermark: u32,
    pub processed_list: Vec<u32>,
    pub rejected_list: Vec<u32>,
}

/// The mathematical image of an `AcknowledgeData` value.
pub ghost struct AcknowledgeDataModel {
    pub low_watermark: u32,
    pub processed_list: Seq<u32>,
    pub rejected_list: Seq<u32>,
}

impl View for AcknowledgeData {
    type V = AcknowledgeDataModel;

    open spec fn view(&self) -> AcknowledgeDataModel {
        AcknowledgeDataModel {
            low_watermark: self.low_watermark,
            processed_list: self.processed_list@,
            rejected_list: self.rejected_list@,
        }
    }
}

/// An `AcknowledgeData` image the wire can carry.
pub open spec fn acknowledge_wf(q: AcknowledgeDataModel) -> bool {
    &&& q.processed_list.len() <= 0xFFFFFFFF
    &&& q.rejected_list.len() <= 0xFFFFFFFF
}

/// The wire image of an `AcknowledgeData`.
pub open spec fn acknowledge_bytes(q: AcknowledgeDataModel) -> Seq<u8> {
    be32(q.low_watermark) + be32(q.processed_list.len() as u32) + u32s_bytes(q.processed_list)
        + be32(q.rejected_list.len() as u32) + u32s_bytes(q.rejected_list)
}

/// The field regions of an `AcknowledgeData` image standing as all of `d`.
#[verifier::rlimit(100)]
#[verifier::spinoff_prover]
pub proof fn lemma_acknowledge_parts(d: Seq<u8>, q: AcknowledgeDataModel)
    requires
        acknowledge_wf(q),
        acknowledge_bytes(q) == d,
    ensures
        d.len() == 12 + 4 * q.processed_list.len() + 4 * q.rejected_list.len(),
        d.subrange(0, 4) =~= be32(q.low_watermark),
        d.subrange(4, 8) =~= be32(q.processed_list.len() as u32),
        forall|k: int|
            0 <= k < q.processed_list.len() ==> #[trigger] d.subrange(8 + 4 * k, 8 + 4 * k + 4)
                =~= be32(q.processed_list[k]),
        d.subrange(
            8 + 4 * (q.processed_list.len() as int),
            12 + 4 * (q.processed_list.len() as int),
        ) =~= be32(q.rejected_list.len() as u32),
        forall|k: int|
            0 <= k < q.rejected_list.len() ==> #[trigger] d.subrange(
                12 + 4 * (q.processed_list.len() as int) + 4 * k,
                12 + 4 * (q.processed_list.len() as int) + 4 * k + 4,
            ) =~= be32(q.rejected_list[k]),
{
    lemma_u32s(q.processed_list);
    lemma_u32s(q.rejected_list);
    let n1 = q.processed_list.len() as int;
    let n2 = q.rejected_list.len() as int;
    assert(u32s_bytes(q.processed_list).len() == 4 * n1);
    assert(u32s_bytes(q.rejected_list).len() == 4 * n2);
    assert(acknowledge_bytes(q).len() == (be32(q.low_watermark) + be32(
        q.processed_list.len() as u32,
    ) + u32s_bytes(q.processed_list) + be32(q.rejected_list.len() as u32)).len() + u32s_bytes(
        q.rejected_list,
    ).len());
    assert((be32(q.low_watermark) + be32(q.processed_list.len() as u32) + u32s_bytes(
        q.processed_list,
    ) + be32(q.rejected_list.len() as u32)).len() == (be32(q.low_watermark) + be32(
        q.processed_list.len() as u32,
    ) + u32s_bytes(q.processed_list)).len() + 4);
    assert((be32(q.low_watermark) + be32(q.processed_list.len() as u32) + u32s_bytes(
        q.processed_list,
    )).len() == 8 + 4 * n1);
    assert(d.len() == 12 + 4 * n1 + 4 * n2);
    assert(d.subrange(0, d.len() as int) =~= d);
    crate::bytes::lemma_region5(
        d,
        0,
        be32(q.low_watermark),
        be32(q.processed_list.len() as u32),
        u32s_bytes(q.processed_list),
        be32(q.rejected_list.len() as u32),
        u32s_bytes(q.rejected_list),
    );
    assert(d.subrange(8, 8 + 4 * n1) =~= u32s_bytes(q.processed_list));
    assert(d.subrange(12 + 4 * n1, 12 + 4 * n1 + 4 * n2) =~= u32s_bytes(q.rejected_list));
    assert forall|k: int|
        0 <= k < n1 implies #[trigger] d.subrange(8 + 4 * k, 8 + 4 * k + 4) =~= be32(
        q.processed_list[k],
    ) by {
        assert(u32s_bytes(q.processed_list).subrange(4 * k, 4 * k + 4) =~= be32(
            q.processed_list[k],
        ));
        assert forall|m: int|
            0 <= m < 4 implies d.subrange(8 + 4 * k, 8 + 4 * k + 4)[m] == be32(
            q.processed_list[k],
        )[m] by {
            assert(d.subrange(8 + 4 * k, 8 + 4 * k + 4)[m] == d[8 + 4 * k + m]);
            assert(d.subrange(8, 8 + 4 * n1)[4 * k + m] == d[8 + 4 * k + m]);
            assert(u32s_bytes(q.processed_list)[4 * k + m] == u32s_bytes(
                q.processed_list,
            ).subrange(4 * k, 4 * k + 4)[m]);
        }
    }
    assert forall|k: int|
        0 <= k < n2 implies #[trigger] d.subrange(12 + 4 * n1 + 4 * k, 12 + 4 * n1 + 4 * k + 4)
        =~= be32(q.rejected_list[k]) by {
        assert(u32s_bytes(q.rejected_list).subrange(4 * k, 4 * k + 4) =~= be32(q.rejected_list[k]));
        assert forall|m: int|
            0 <= m < 4 implies d.subrange(12 + 4 * n1 + 4 * k, 12 + 4 * n1 + 4 * k + 4)[m] == be32(
            q.rejected_list[k],
        )[m] by {
            assert(d.subrange(12 + 4 * n1 + 4 * k, 12 + 4 * n1 + 4 * k + 4)[m] == d[12 + 4 * n1 + 4
                * k + m]);
            assert(d.subrange(12 + 4 * n1, 12 + 4 * n1 + 4 * n2)[4 * k + m] == d[12 + 4 * n1 + 4 * k
                + m]);
            assert(u32s_bytes(q.rejected_list)[4 * k + m] == u32s_bytes(q.rejected_list).subrange(
                4 * k,
                4 * k + 4,
            )[m]);
        }
    }
}

/// Reads a run of `n` 32-bit values at `pos`.
fn read_u32_run(d: &[u8], pos: usize, n: u32) -> (r: Result<(Vec<u32>, usize), FieldError>)
    requires
        pos <= d@.len(),
    ensures
        r is Ok <==> pos + 4 * n <= d@.len(),
        r matches Ok((v, j)) ==> v@.len() == n && j == pos + 4 * n && (forall|k: int|
            0 <= k < n ==> be32(v@[k]) =~= d@.subrange(
                pos + 4 * k,
                pos + 4 * k + 4,
            )) && u32s_bytes(v@) =~= d@.subrange(pos as int, j as int),
        r matches Err(e) ==> e == FieldError::Truncated,
{
    if (d.len() - pos) / 4 < n as usize {
        return Err(FieldError::Truncated);
    }
    let mut v: Vec<u32> = Vec::new();
    let mut i: u32 = 0;
    let mut cur: usize = pos;
    while i < n
        invariant
            i <= n,
            cur == pos + 4 * i,
            pos + 4 * n <= d@.len(),
            v@.len() == i,
            forall|k: int| 0 <= k < i ==> be32(v@[k]) =~= d@.subrange(pos + 4 * k, pos + 4 * k + 4),
            u32s_bytes(v@) =~= d@.subrange(pos as int, cur as int),
        decreases n - i,
    {
        let (x, nxt) = match read_u32(d, cur) {
            Ok(t) => t,
            Err(_) => {
                proof {
                    assert(false);
                }
                return Err(FieldError::Truncated);
            },
        };
        proof {
            lemma_u32s_push(v@, x);
            assert(u32s_bytes(v@.push(x)) =~= d@.subrange(pos as int, nxt as int));
        }
        v.push(x);
        cur = nxt;
        i = i + 1;
    }
    Ok((v, cur))
}

/// Appends a run of 32-bit values.
fn write_u32_run(out: &mut Vec<u8>, v: &Vec<u32>)
    ensures
        final(out)@ =~= old(out)@ + u32s_bytes(v@),
{
    let mut i: usize = 0;
    while i < v.len()
        invariant
            i <= v@.len(),
            out@ =~= old(out)@ + u32s_bytes(v@.subrange(0, i as int)),
        decreases v@.len() - i,
    {
        write_u32(out, v[i]);
        proof {
            lemma_u32s_push(v@.subrange(0, i as int), v@[i as int]);
            assert(v@.subrange(0, i + 1) =~= v@.subrange(0, i as int).push(v@[i as int]));
        }
        i = i + 1;
    }
    proof {
        assert(v@.subrange(0, v@.len() as int) =~= v@);
    }
}

/// Reads a whole `AcknowledgeData` region.
#[verifier::rlimit(100)]
#[verifier::spinoff_prover]
pub fn parse_acknowledge(d: &[u8]) -> (r: Result<AcknowledgeData, FieldError>)
    ensures
        r matches Ok(p) ==> acknowledge_wf(p@) && acknowledge_bytes(p@) == d@,
        forall|q: AcknowledgeDataModel|
            (acknowledge_wf(q) && #[trigger] acknowledge_bytes(q) == d@) ==> (r matches Ok(p) && p@
                == q),
{
    proof {
        assert forall|q: AcknowledgeDataModel|
            acknowledge_wf(q) && acknowledge_bytes(q) == d@ implies d@.len() == 12 + 4
            * q.processed_list.len() + 4 * q.rejected_list.len() by {
            lemma_acknowledge_parts(d@, q);
        }
    }
    let (low_watermark, p1) = match read_u32(d, 0) {
        Ok(v) => v,
        Err(e) => {
            return Err(e);
        },
    };
    let (n1, p2) = match read_u32(d, p1) {
        Ok(v) => v,
        Err(e) => {
            return Err(e);
        },
    };
    proof {
        assert forall|q: AcknowledgeDataModel|
            acknowledge_wf(q) && acknowledge_bytes(q) == d@ implies q.processed_list.len()
            == n1 by {
            lemma_acknowledge_parts(d@, q);
            crate::bytes::lemma_be32_of(q.processed_list.len() as u32);
        }
    }
    let (processed_list, p3) = match read_u32_run(d, p2, n1) {
        Ok(v) => v,
        Err(e) => {
            return Err(e);
        },
    };
    let (n2, p4) = match read_u32(d, p3) {
        Ok(v) => v,
        Err(e) => {
            return Err(e);
        },
    };
    proof {
        assert forall|q: AcknowledgeDataModel|
            acknowledge_wf(q) && acknowledge_bytes(q) == d@ implies q.rejected_list.len() == n2 by {
            lemma_acknowledge_parts(d@, q);
            crate::bytes::lemma_be32_of(q.processed_list.len() as u32);
            crate::bytes::lemma_be32_of(q.rejected_list.len() as u32);
        }
    }
    let (rejected_list, p5) = match read_u32_run(d, p4, n2) {
        Ok(v) => v,
        Err(e) => {
            return Err(e);
        },
    };
    if p5 != d.len() {
        return Err(FieldError::Leftover);
    }
    let p = AcknowledgeData { low_watermark, processed_list, rejected_list };
    proof {
        assert(acknowledge_bytes(p@) =~= d@);
        assert forall|q: AcknowledgeDataModel|
            (acknowledge_wf(q) && acknowledge_bytes(q) == d@) implies p@ == q by {
            lemma_acknowledge_parts(d@, q);
            crate::bytes::lemma_be32_of(q.low_watermark);
            crate::bytes::lemma_be32_of(q.processed_list.len() as u32);
            crate::bytes::lemma_be32_of(q.rejected_list.len() as u32);
            assert(q.processed_list.len() == n1 && q.rejected_list.len() == n2);
            assert forall|k: int| 0 <= k < n1 implies q.processed_list[k]
                == processed_list@[k] by {
                assert(d@.subrange(8 + 4 * k, 8 + 4 * k + 4) =~= be32(q.processed_list[k]));
                assert(be32(processed_list@[k]) =~= d@.subrange(8 + 4 * k, 8 + 4 * k + 4));
                crate::bytes::lemma_be32_of(q.processed_list[k]);
                crate::bytes::lemma_be32_of(processed_list@[k]);
            }
            assert forall|k: int| 0 <= k < n2 implies q.rejected_list[k] == rejected_list@[k] by {
                assert(d@.subrange(12 + 4 * (n1 as int) + 4 * k, 12 + 4 * (n1 as int) + 4 * k + 4)
                    =~= be32(q.rejected_list[k]));
                assert(be32(rejected_list@[k]) =~= d@.subrange(
                    p4 + 4 * k,
                    p4 + 4 * k + 4,
                ));
                crate::bytes::lemma_be32_of(q.rejected_list[k]);
                crate::bytes::lemma_be32_of(rejected_list@[k]);
            }
            assert(q.processed_list =~= processed_list@);
            assert(q.rejected_list =~= rejected_list@);
            assert(q == (AcknowledgeDataModel {
                low_watermark,
                processed_list: processed_list@,
                rejected_list: rejected_list@,
            }));
        }
    }
    Ok(p)
}

/// Appends the wire image of an `AcknowledgeData`.
pub fn write_acknowledge(out: &mut Vec<u8>, q: &AcknowledgeData) -> (r: Result<(), FieldError>)
    ensures
        r is Ok <==> q@.processed_list.len() <= 0xFFFFFFFF && q@.rejected_list.len() <= 0xFFFFFFFF,
        r is Ok ==> final(out)@ =~= old(out)@ + acknowledge_bytes(q@),
        r is Err ==> final(out)@ == old(out)@,
        r matches Err(e) ==> e == FieldError::Oversize,
{
    if q.processed_list.len() > 0xFFFFFFFF || q.rejected_list.len() > 0xFFFFFFFF {
        return Err(FieldError::Oversize);
    }
    let mut tmp: Vec<u8> = Vec::new();
    write_u32(&mut tmp, q.low_watermark);
    write_u32(&mut tmp, q.processed_list.len() as u32);
    write_u32_run(&mut tmp, &q.processed_list);
    write_u32(&mut tmp, q.rejected_list.len() as u32);
    write_u32_run(&mut tmp, &q.rejected_list);
    write_bytes(out, tmp.as_slice());
    Ok(())
}


// ---------------------------------------------------------------------------
// TouchData
// ---------------------------------------------------------------------------
/// One touch point: identifier, action, and screen coordinates.
#[derive(Clone, Copy, Debug, PartialEq, Eq, Structural)]
pub struct Touchpoint {
    pub id: u32,
    pub action: u16,
    pub x: u32,
    pub y: u32,
}

/// The 14-byte wire image of a touch point.
pub open spec fn touchpoint_bytes(t: Touchpoint) -> Seq<u8> {
    be32(t.id) + be16(t.action) + be32(t.x) + be32(t.y)
}

/// Touch points with equal images are equal.
pub proof fn lemma_touchpoint_eq(t1: Touchpoint, t2: Touchpoint)
    requires
        touchpoint_bytes(t1) == touchpoint_bytes(t2),
    ensures
        t1 == t2,
{
    let d = touchpoint_bytes(t1);
    assert(d.subrange(0, 14) =~= d);
    crate::bytes::lemma_region4(d, 0, be32(t1.id), be16(t1.action), be32(t1.x), be32(t1.y));
    crate::bytes::lemma_region4(d, 0, be32(t2.id), be16(t2.action), be32(t2.x), be32(t2.y));
    lemma_be32_of(t1.id);
    lemma_be32_of(t2.id);
    lemma_be16_of(t1.action);
    lemma_be16_of(t2.action);
    lemma_be32_of(t1.x);
    lemma_be32_of(t2.x);
    lemma_be32_of(t1.y);
    lemma_be32_of(t2.y);
}

/// The byte image of a run of touch points, back to back.
pub open spec fn touchpoints_bytes(s: Seq<Touchpoint>) -> Seq<u8>
    decreases s.len(),
{
    if s.len() == 0 {
        Seq::empty()
    } else {
        touchpoint_bytes(s[0]) + touchpoints_bytes(s.skip(1))
    }
}

/// Each touch point of the run stands at its place.
pub proof fn lemma_touchpoints(s: Seq<Touchpoint>)
    ensures
        touchpoints_bytes(s).len() == 14 * s.len(),
        forall|k: int|
            0 <= k < s.len() ==> #[trigger] touchpoints_bytes(s).subrange(14 * k, 14 * k + 14)
                =~= touchpoint_bytes(s[k]),
    decreases s.len(),
{
    if s.len() > 0 {
        lemma_touchpoints(s.skip(1));
        assert forall|k: int|
            0 <= k < s.len() implies #[trigger] touchpoints_bytes(s).subrange(14 * k, 14 * k + 14)
            =~= touchpoint_bytes(s[k]) by {
            if k == 0 {
                assert(touchpoints_bytes(s).subrange(0, 14) =~= touchpoint_bytes(s[0]));
            } else {
                assert(touchpoints_bytes(s.skip(1)).subrange(14 * (k - 1), 14 * (k - 1) + 14)
                    =~= touchpoint_bytes(s.skip(1)[k - 1]));
                assert forall|m: int|
                    0 <= m < 14 implies touchpoints_bytes(s).subrange(14 * k, 14 * k + 14)[m]
                    == touchpoint_bytes(s[k])[m] by {
                    assert(touchpoints_bytes(s)[14 * k + m] == touchpoints_bytes(s.skip(1))[14 * (k
                        - 1) + m]);
                    assert(touchpoints_bytes(s.skip(1)).subrange(14 * (k - 1), 14 * (k - 1) + 14)[m]
                        == touchpoints_bytes(s.skip(1))[14 * (k - 1) + m]);
                }
            }
        }
    }
}

/// Appending one touch point appends its fourteen bytes.
pub proof fn lemma_touchpoints_push(s: Seq<Touchpoint>, x: Touchpoint)
    ensures
        touchpoints_bytes(s.push(x)) =~= touchpoints_bytes(s) + touchpoint_bytes(x),
    decreases s.len(),
{
    if s.len() == 0 {
        assert(s.push(x).skip(1) =~= Seq::<Touchpoint>::empty());
        assert(touchpoints_bytes(Seq::<Touchpoint>::empty()) =~= Seq::<u8>::empty());
        assert(touchpoints_bytes(s.push(x)) =~= touchpoint_bytes(x));
    } else {
        assert(s.push(x).skip(1) =~= s.skip(1).push(x));
        lemma_touchpoints_push(s.skip(1), x);
    }
}

/// A touch event: a timestamp and the active touch points.
#[derive(Clone, Debug, PartialEq)]
pub struct TouchData {
    pub timestamp: u32,
    pub active_titles: Vec<Touchpoint>,
}

/// The mathematical image of a `TouchData` value.
pub ghost struct TouchDataModel {
    pub timestamp: u32,
    pub active_titles: Seq<Touchpoint>,
}

impl View for TouchData {
    type V = TouchDataModel;

    open spec fn view(&self) -> TouchDataModel {
        TouchDataModel { timestamp: self.timestamp, active_titles: self.active_titles@ }
    }
}

/// A `TouchData` image the wire can carry.
pub open spec fn touch_wf(q: TouchDataModel) -> bool {
    q.active_titles.len() <= 0xFFFF
}

/// The wire image of a `TouchData`.
pub open spec fn touch_bytes(q: TouchDataModel) -> Seq<u8> {
    be32(q.timestamp) + be16(q.active_titles.len() as u16) + touchpoints_bytes(q.active_titles)
}

/// The field regions of a `TouchData` image standing as all of `d`.
#[verifier::rlimit(100)]
#[verifier::spinoff_prover]
pub proof fn lemma_touch_parts(d: Seq<u8>, q: TouchDataModel)
    requires
        touch_wf(q),
        touch_bytes(q) == d,
    ensures
        d.len() == 6 + 14 * q.active_titles.len(),
        d.subrange(0, 4) =~= be32(q.timestamp),
        d.subrange(4, 6) =~= be16(q.active_titles.len() as u16),
        forall|k: int|
            0 <= k < q.active_titles.len() ==> #[trigger] d.subrange(6 + 14 * k, 6 + 14 * k + 14)
                =~= touchpoint_bytes(q.active_titles[k]),
{
    lemma_touchpoints(q.active_titles);
    let n = q.active_titles.len() as int;
    assert(touch_bytes(q).len() == (be32(q.timestamp) + be16(q.active_titles.len() as u16)).len()
        + touchpoints_bytes(q.active_titles).len());
    assert(d.len() == 6 + 14 * n);
    assert(d.subrange(0, d.len() as int) =~= d);
    crate::bytes::lemma_region3(
        d,
        0,
        be32(q.timestamp),
        be16(q.active_titles.len() as u16),
        touchpoints_bytes(q.active_titles),
    );
    assert(d.subrange(6, 6 + 14 * n) =~= touchpoints_bytes(q.active_titles));
    assert forall|k: int|
        0 <= k < n implies #[trigger] d.subrange(6 + 14 * k, 6 + 14 * k + 14) =~= touchpoint_bytes(
        q.active_titles[k],
    ) by {
        assert(touchpoints_bytes(q.active_titles).subrange(14 * k, 14 * k + 14)
            =~= touchpoint_bytes(q.active_titles[k]));
        assert forall|m: int|
            0 <= m < 14 implies d.subrange(6 + 14 * k, 6 + 14 * k + 14)[m] == touchpoint_bytes(
            q.active_titles[k],
        )[m] by {
            assert(d.subrange(6 + 14 * k, 6 + 14 * k + 14)[m] == d[6 + 14 * k + m]);
            assert(d.subrange(6, 6 + 14 * n)[14 * k + m] == d[6 + 14 * k + m]);
            assert(touchpoints_bytes(q.active_titles)[14 * k + m] == touchpoints_bytes(
                q.active_titles,
            ).subrange(14 * k, 14 * k + 14)[m]);
        }
    }
}

/// Reads one touch point at `pos`.
fn read_touchpoint(d: &[u8], pos: usize) -> (r: Result<(Touchpoint, usize), FieldError>)
    requires
        pos <= d@.len(),
    ensures
        r is Ok <==> pos + 14 <= d@.len(),
        r matches Ok((t, j)) ==> j == pos + 14 && touchpoint_bytes(t) =~= d@.subrange(
            pos as int,
            j as int,
        ),
        r matches Err(e) ==> e == FieldError::Truncated,
{
    let (id, p1) = match read_u32(d, pos) {
        Ok(v) => v,
        Err(e) => {
            return Err(e);
        },
    };
    let (action, p2) = match read_u16(d, p1) {
        Ok(v) => v,
        Err(e) => {
            return Err(e);
        },
    };
    let (x, p3) = match read_u32(d, p2) {
        Ok(v) => v,
        Err(e) => {
            return Err(e);
        },
    };
    let (y, p4) = match read_u32(d, p3) {
        Ok(v) => v,
        Err(e) => {
            return Err(e);
        },
    };
    let t = Touchpoint { id, action, x, y };
    proof {
        assert(touchpoint_bytes(t) =~= d@.subrange(pos as int, pos + 14));
    }
    Ok((t, p4))
}

/// Reads a run of `n` touch points at `pos`.
fn read_touchpoint_run(d: &[u8], pos: usize, n: u16) -> (r: Result<
    (Vec<Touchpoint>, usize),
    FieldError,
>)
    requires
        pos <= d@.len(),
    ensures
        r is Ok <==> pos + 14 * n <= d@.len(),
        r matches Ok((v, j)) ==> v@.len() == n && j == pos + 14 * n && touchpoints_bytes(v@)
            =~= d@.subrange(pos as int, j as int),
        r matches Err(e) ==> e == FieldError::Truncated,
{
    if (d.len() - pos) / 14 < n as usize {
        return Err(FieldError::Truncated);
    }
    let mut v: Vec<Touchpoint> = Vec::new();
    let mut i: u16 = 0;
    let mut cur: usize = pos;
    while i < n
        invariant
            i <= n,
            cur == pos + 14 * i,
            pos + 14 * n <= d@.len(),
            v@.len() == i,
            touchpoints_bytes(v@) =~= d@.subrange(pos as int, cur as int),
        decreases n - i,
    {
        let (t, nxt) = match read_touchpoint(d, cur) {
            Ok(p) => p,
            Err(_) => {
                proof {
                    assert(false);
                }
                return Err(FieldError::Truncated);
            },
        };
        proof {
            lemma_touchpoints_push(v@, t);
            assert(touchpoints_bytes(v@.push(t)) =~= d@.subrange(pos as int, nxt as int));
        }
        v.push(t);
        cur = nxt;
        i = i + 1;
    }
    Ok((v, cur))
}

/// Appends a run of touch points.
fn write_touchpoint_run(out: &mut Vec<u8>, v: &Vec<Touchpoint>)
    ensures
        final(out)@ =~= old(out)@ + touchpoints_bytes(v@),
{
    let mut i: usize = 0;
    while i < v.len()
        invariant
            i <= v@.len(),
            out@ =~= old(out)@ + touchpoints_bytes(v@.subrange(0, i as int)),
        decreases v@.len() - i,
    {
        let t = v[i];
        write_u32(out, t.id);
        write_u16(out, t.action);
        write_u32(out, t.x);
        write_u32(out, t.y);
        proof {
            lemma_touchpoints_push(v@.subrange(0, i as int), v@[i as int]);
            assert(v@.subrange(0, i + 1) =~= v@.subrange(0, i as int).push(v@[i as int]));
            assert(touchpoints_bytes(v@.subrange(0, i + 1)) =~= touchpoints_bytes(
                v@.subrange(0, i as int),
            ) + touchpoint_bytes(v@[i as int]));
        }
        i = i + 1;
    }
    proof {
        assert(v@.subrange(0, v@.len() as int) =~= v@);
    }
}

/// A parsed run that covers the list region is the list itself.
#[verifier::rlimit(100)]
#[verifier::spinoff_prover]
pub proof fn lemma_touch_elems(d: Seq<u8>, q: TouchDataModel, v: Seq<Touchpoint>, end: int)
    requires
        touch_wf(q),
        touch_bytes(q) == d,
        v.len() == q.active_titles.len(),
        touchpoints_bytes(v) == d.subrange(6, end),
        end == 6 + 14 * v.len(),
    ensures
        q.active_titles =~= v,
{
    lemma_touch_parts(d, q);
    lemma_touchpoints(v);
    let n = v.len() as int;
    assert forall|k: int| 0 <= k < n implies q.active_titles[k] == v[k] by {
        assert(d.subrange(6 + 14 * k, 6 + 14 * k + 14) =~= touchpoint_bytes(q.active_titles[k]));
        assert(touchpoints_bytes(v).subrange(14 * k, 14 * k + 14) =~= touchpoint_bytes(v[k]));
        assert forall|m: int|
            0 <= m < 14 implies touchpoint_bytes(v[k])[m] == touchpoint_bytes(
            q.active_titles[k],
        )[m] by {
            assert(touchpoints_bytes(v)[14 * k + m] == touchpoints_bytes(v).subrange(
                14 * k,
                14 * k + 14,
            )[m]);
            assert(d.subrange(6, end)[14 * k + m] == d[6 + 14 * k + m]);
            assert(d.subrange(6 + 14 * k, 6 + 14 * k + 14)[m] == d[6 + 14 * k + m]);
        }
        assert(touchpoint_bytes(v[k]) =~= touchpoint_bytes(q.active_titles[k]));
        lemma_touchpoint_eq(q.active_titles[k], v[k]);
    }
}

/// Reads a whole `TouchData` region.
#[verifier::rlimit(100)]
#[verifier::spinoff_prover]
pub fn parse_touch(d: &[u8]) -> (r: Result<TouchData, FieldError>)
    ensures
        r matches Ok(p) ==> touch_wf(p@) && touch_bytes(p@) == d@,
        forall|q: TouchDataModel|
            (touch_wf(q) && #[trigger] touch_bytes(q) == d@) ==> (r matches Ok(p) && p@ == q),
{
    proof {
        assert forall|q: TouchDataModel| touch_wf(q) && touch_bytes(q) == d@ implies d@.len() == 6
            + 14 * q.active_titles.len() by {
            lemma_touch_parts(d@, q);
        }
    }
    let (timestamp, p1) = match read_u32(d, 0) {
        Ok(v) => v,
        Err(e) => {
            return Err(e);
        },
    };
    let (n, p2) = match read_u16(d, p1) {
        Ok(v) => v,
        Err(e) => {
            return Err(e);
        },
    };
    proof {
        assert forall|q: TouchDataModel|
            touch_wf(q) && touch_bytes(q) == d@ implies q.active_titles.len() == n by {
            lemma_touch_parts(d@, q);
            lemma_be16_of(q.active_titles.len() as u16);
        }
    }
    let (active_titles, p3) = match read_touchpoint_run(d, p2, n) {
        Ok(v) => v,
        Err(e) => {
            return Err(e);
        },
    };
    if p3 != d.len() {
        return Err(FieldError::Leftover);
    }
    let p = TouchData { timestamp, active_titles };
    proof {
        assert(touch_bytes(p@) =~= d@);
        assert forall|q: TouchDataModel| (touch_wf(q) && touch_bytes(q) == d@) implies p@ == q by {
            lemma_touch_parts(d@, q);
            lemma_be32_of(q.timestamp);
            lemma_be16_of(q.active_titles.len() as u16);
            assert(q.active_titles.len() == n);
            lemma_touch_elems(d@, q, active_titles@, p3 as int);
            assert(q == (TouchDataModel { timestamp, active_titles: active_titles@ }));
        }
    }
    Ok(p)
}

/// Appends the wire image of a `TouchData`.
pub fn write_touch(out: &mut Vec<u8>, q: &TouchData) -> (r: Result<(), FieldError>)
    ensures
        r is Ok <==> q@.active_titles.len() <= 0xFFFF,
        r is Ok ==> final(out)@ =~= old(out)@ + touch_bytes(q@),
        r is Err ==> final(out)@ == old(out)@,
        r matches Err(e) ==> e == FieldError::Oversize,
{
    if q.active_titles.len() > 0xFFFF {
        return Err(FieldError::Oversize);
    }
    let mut tmp: Vec<u8> = Vec::new();
    write_u32(&mut tmp, q.timestamp);
    write_u16(&mut tmp, q.active_titles.len() as u16);
    write_touchpoint_run(&mut tmp, &q.active_titles);
    write_bytes(out, tmp.as_slice());
    Ok(())
}


// ---------------------------------------------------------------------------
// ConsoleStatusData
// ---------------------------------------------------------------------------
/// One running title on the console.
#[derive(Clone, Debug, PartialEq)]
pub struct ActiveTitle {
    pub title_id: u32,
    pub title_disposition: u16,
    pub product_id: UUID,
    pub sandbox_id: UUID,
    pub aum: SGString,
}

/// The mathematical image of an `ActiveTitle` value.
pub ghost struct ActiveTitleModel {
    pub title_id: u32,
    pub title_disposition: u16,
    pub product_id: Seq<u8>,
    pub sandbox_id: Seq<u8>,
    pub aum: Seq<u8>,
}

impl View for ActiveTitle {
    type V = ActiveTitleModel;

    open spec fn view(&self) -> ActiveTitleModel {
        ActiveTitleModel {
            title_id: self.title_id,
            title_disposition: self.title_disposition,
            product_id: self.product_id@,
            sandbox_id: self.sandbox_id@,
            aum: self.aum@,
        }
    }
}

/// An `ActiveTitle` image the wire can carry.
pub open spec fn active_title_wf(e: ActiveTitleModel) -> bool {
    &&& e.product_id.len() == 16
    &&& e.sandbox_id.len() == 16
    &&& sg_wf(e.aum)
}

/// The wire image of an `ActiveTitle`.
pub open spec fn active_title_bytes(e: ActiveTitleModel) -> Seq<u8> {
    be32(e.title_id) + be16(e.title_disposition) + e.product_id + e.sandbox_id + sg_bytes(e.aum)
}

/// An `ActiveTitle` region stands at `pos` of `d`, ending at `j`.
pub open spec fn active_title_at(d: Seq<u8>, pos: int, e: ActiveTitleModel, j: int) -> bool {
    &&& 0 <= pos
    &&& active_title_wf(e)
    &&& pos + active_title_bytes(e).len() == j
    &&& j <= d.len()
    &&& d.subrange(pos, j) == active_title_bytes(e)
}

/// Two `ActiveTitle` regions at the same place are the same.
#[verifier::rlimit(100)]
#[verifier::spinoff_prover]
pub proof fn lemma_active_title_unique(
    d: Seq<u8>,
    pos: int,
    e1: ActiveTitleModel,
    j1: int,
    e2: ActiveTitleModel,
    j2: int,
)
    requires
        active_title_at(d, pos, e1, j1),
        active_title_at(d, pos, e2, j2),
    ensures
        e1 == e2,
        j1 == j2,
{
    crate::bytes::lemma_region5(
        d,
        pos,
        be32(e1.title_id),
        be16(e1.title_disposition),
        e1.product_id,
        e1.sandbox_id,
        sg_bytes(e1.aum),
    );
    crate::bytes::lemma_region5(
        d,
        pos,
        be32(e2.title_id),
        be16(e2.title_disposition),
        e2.product_id,
        e2.sandbox_id,
        sg_bytes(e2.aum),
    );
    crate::bytes::lemma_be32_of(e1.title_id);
    crate::bytes::lemma_be32_of(e2.title_id);
    crate::bytes::lemma_be16_of(e1.title_disposition);
    crate::bytes::lemma_be16_of(e2.title_disposition);
    assert(sg_at(d, pos + 38, e1.aum, j1));
    assert(sg_at(d, pos + 38, e2.aum, j2));
    crate::util::lemma_sg_unique(d, pos + 38, e1.aum, j1, e2.aum, j2);
}

/// Reads one `ActiveTitle` at `pos`.
#[verifier::rlimit(100)]
#[verifier::spinoff_prover]
fn read_active_title(d: &[u8], pos: usize) -> (r: Result<(ActiveTitle, usize), FieldError>)
    requires
        pos <= d@.len(),
    ensures
        r matches Ok((e, j)) ==> pos < j <= d@.len() && active_title_at(
            d@,
            pos as int,
            e@,
            j as int,
        ),
        forall|e: ActiveTitleModel, j: int|
            #[trigger] active_title_at(d@, pos as int, e, j) ==> (r matches Ok(p) && p.0@ == e
                && p.1 == j),
        r matches Err(e) ==> e == FieldError::Truncated || e == FieldError::Terminator || e
            == FieldError::Utf8,
{
    proof {
        assert forall|e: ActiveTitleModel, j: int| #[trigger]
            active_title_at(d@, pos as int, e, j) implies sg_at(d@, pos + 38, e.aum, j) && pos + 38
            <= d@.len() by {
            crate::bytes::lemma_region5(
                d@,
                pos as int,
                be32(e.title_id),
                be16(e.title_disposition),
                e.product_id,
                e.sandbox_id,
                sg_bytes(e.aum),
            );
        }
    }
    let (title_id, p1) = match read_u32(d, pos) {
        Ok(v) => v,
        Err(e) => {
            return Err(e);
        },
    };
    let (title_disposition, p2) = match read_u16(d, p1) {
        Ok(v) => v,
        Err(e) => {
            return Err(e);
        },
    };
    let (product_id, p3) = match read_uuid(d, p2) {
        Ok(v) => v,
        Err(e) => {
            return Err(e);
        },
    };
    let (sandbox_id, p4) = match read_uuid(d, p3) {
        Ok(v) => v,
        Err(e) => {
            return Err(e);
        },
    };
    let (aum, p5) = match read_sgstring(d, p4) {
        Ok(v) => v,
        Err(e) => {
            return Err(e);
        },
    };
    let e = ActiveTitle { title_id, title_disposition, product_id, sandbox_id, aum };
    proof {
        assert(active_title_bytes(e@) =~= d@.subrange(pos as int, p5 as int));
        assert forall|e2: ActiveTitleModel, j2: int| #[trigger]
            active_title_at(d@, pos as int, e2, j2) implies e2 == e@ && j2 == p5 as int by {
            crate::bytes::lemma_region5(
                d@,
                pos as int,
                be32(e2.title_id),
                be16(e2.title_disposition),
                e2.product_id,
                e2.sandbox_id,
                sg_bytes(e2.aum),
            );
            crate::bytes::lemma_be32_of(e2.title_id);
            crate::bytes::lemma_be16_of(e2.title_disposition);
            assert(e2.aum == aum@ && j2 == p5 as int);
            assert(e2 == (ActiveTitleModel {
                title_id,
                title_disposition,
                product_id: product_id@,
                sandbox_id: sandbox_id@,
                aum: aum@,
            }));
        }
    }
    Ok((e, p5))
}

/// Appends the wire image of an `ActiveTitle`.
fn write_active_title(out: &mut Vec<u8>, e: &ActiveTitle) -> (r: Result<(), FieldError>)
    ensures
        r is Ok <==> e@.aum.len() <= 0xFFFF,
        r is Ok ==> final(out)@ =~= old(out)@ + active_title_bytes(e@),
        r is Err ==> final(out)@ == old(out)@,
        r matches Err(e) ==> e == FieldError::Oversize,
{
    let mut tmp: Vec<u8> = Vec::new();
    write_u32(&mut tmp, e.title_id);
    write_u16(&mut tmp, e.title_disposition);
    write_uuid(&mut tmp, &e.product_id);
    write_uuid(&mut tmp, &e.sandbox_id);
    match write_sgstring(&mut tmp, &e.aum) {
        Ok(()) => (),
        Err(err) => {
            return Err(err);
        },
    }
    write_bytes(out, tmp.as_slice());
    Ok(())
}

/// The models of a vector of titles.
pub open spec fn active_title_models(s: Seq<ActiveTitle>) -> Seq<ActiveTitleModel> {
    s.map_values(|a: ActiveTitle| a@)
}

/// The byte image of a run of `ActiveTitle` values, back to back.
pub open spec fn active_titles_run_bytes(s: Seq<ActiveTitleModel>) -> Seq<u8>
    decreases s.len(),
{
    if s.len() == 0 {
        Seq::empty()
    } else {
        active_title_bytes(s[0]) + active_titles_run_bytes(s.skip(1))
    }
}

/// Every element of the run is one the wire can carry.
pub open spec fn active_titles_run_wf(s: Seq<ActiveTitleModel>) -> bool {
    forall|k: int| 0 <= k < s.len() ==> active_title_wf(#[trigger] s[k])
}

/// The run stands at `pos` of `d`, element after element, ending at `j`.
pub open spec fn active_titles_run_at(d: Seq<u8>, pos: int, s: Seq<ActiveTitleModel>, j: int) -> bool
    decreases s.len(),
{
    if s.len() == 0 {
        0 <= pos && pos == j && j <= d.len()
    } else {
        exists|m: int| #[trigger] active_title_at(d, pos, s[0], m) && active_titles_run_at(d, m, s.skip(1), j)
    }
}

/// A run standing somewhere is well formed and fills exactly its bytes.
pub proof fn lemma_active_titles_run_at_bytes(d: Seq<u8>, pos: int, s: Seq<ActiveTitleModel>, j: int)
    requires
        active_titles_run_at(d, pos, s, j),
    ensures
        active_titles_run_wf(s),
        pos <= j <= d.len(),
        j - pos == active_titles_run_bytes(s).len(),
        active_titles_run_bytes(s) =~= d.subrange(pos, j),
    decreases s.len(),
{
    if s.len() == 0 {
        assert(active_titles_run_bytes(s) =~= d.subrange(pos, j));
    } else {
        let m = choose|m: int| #[trigger] active_title_at(d, pos, s[0], m) && active_titles_run_at(
            d,
            m,
            s.skip(1),
            j,
        );
        lemma_active_titles_run_at_bytes(d, m, s.skip(1), j);
        assert forall|k: int| 0 <= k < s.len() implies active_title_wf(#[trigger] s[k]) by {
            if k > 0 {
                assert(s.skip(1)[k - 1] == s[k]);
            }
        }
        assert(active_titles_run_bytes(s) =~= d.subrange(pos, j)) by {
            assert(active_titles_run_bytes(s.skip(1)) =~= d.subrange(m, j));
            assert(active_title_bytes(s[0]) =~= d.subrange(pos, m));
        }
    }
}

/// Bytes that spell a well-formed run place that run there.
pub proof fn lemma_active_titles_run_bytes_at(d: Seq<u8>, pos: int, s: Seq<ActiveTitleModel>, ln: int)
    requires
        0 <= pos,
        pos + ln <= d.len(),
        active_titles_run_wf(s),
        ln == active_titles_run_bytes(s).len(),
        d.subrange(pos, pos + ln) == active_titles_run_bytes(s),
    ensures
        active_titles_run_at(d, pos, s, pos + ln),
    decreases s.len(),
{
    if s.len() > 0 {
        crate::bytes::lemma_region(d, pos, active_title_bytes(s[0]), active_titles_run_bytes(s.skip(1)));
        let m = pos + (active_title_bytes(s[0]).len() as int);
        assert(active_title_at(d, pos, s[0], m));
        assert forall|k: int| 0 <= k < s.skip(1).len() implies active_title_wf(
            #[trigger] s.skip(1)[k],
        ) by {
            assert(s.skip(1)[k] == s[k + 1]);
        }
        lemma_active_titles_run_bytes_at(d, m, s.skip(1), pos + ln - m);
    }
}

/// Appending one element extends the run by its region.
pub proof fn lemma_active_titles_run_push(d: Seq<u8>, pos: int, s: Seq<ActiveTitleModel>, mid: int, e: ActiveTitleModel, j: int)
    requires
        active_titles_run_at(d, pos, s, mid),
        active_title_at(d, mid, e, j),
    ensures
        active_titles_run_at(d, pos, s.push(e), j),
    decreases s.len(),
{
    if s.len() == 0 {
        assert(s.push(e)[0] == e);
        assert(s.push(e).skip(1) =~= Seq::<ActiveTitleModel>::empty());
        assert(active_titles_run_at(d, j, s.push(e).skip(1), j));
        assert(active_title_at(d, pos, s.push(e)[0], j) && active_titles_run_at(d, j, s.push(e).skip(1), j));
    } else {
        let m = choose|m: int| #[trigger] active_title_at(d, pos, s[0], m) && active_titles_run_at(
            d,
            m,
            s.skip(1),
            mid,
        );
        lemma_active_titles_run_push(d, m, s.skip(1), mid, e, j);
        assert(s.push(e).skip(1) =~= s.skip(1).push(e));
        assert(active_title_at(d, pos, s.push(e)[0], m) && active_titles_run_at(d, m, s.push(e).skip(1), j));
    }
}

/// A shorter run at the same place is a prefix of a longer one.
pub proof fn lemma_active_titles_run_prefix(
    d: Seq<u8>,
    pos: int,
    s: Seq<ActiveTitleModel>,
    j: int,
    t: Seq<ActiveTitleModel>,
    mid: int,
)
    requires
        active_titles_run_at(d, pos, s, j),
        active_titles_run_at(d, pos, t, mid),
        t.len() <= s.len(),
    ensures
        t =~= s.subrange(0, t.len() as int),
        active_titles_run_at(d, mid, s.skip(t.len() as int), j),
    decreases t.len(),
{
    if t.len() == 0 {
        assert(s.skip(0) =~= s);
    } else {
        let m1 = choose|m: int| #[trigger] active_title_at(d, pos, s[0], m) && active_titles_run_at(
            d,
            m,
            s.skip(1),
            j,
        );
        let m2 = choose|m: int| #[trigger] active_title_at(d, pos, t[0], m) && active_titles_run_at(
            d,
            m,
            t.skip(1),
            mid,
        );
        lemma_active_title_unique(d, pos, s[0], m1, t[0], m2);
        assert(m1 == m2);
        assert(active_titles_run_at(d, m1, t.skip(1), mid));
        lemma_active_titles_run_prefix(d, m1, s.skip(1), j, t.skip(1), mid);
        assert(t.skip(1).len() == t.len() - 1);
        assert(t.skip(1) =~= s.skip(1).subrange(0, t.len() - 1));
        assert(t =~= s.subrange(0, t.len() as int)) by {
            assert forall|k: int| 0 <= k < t.len() implies t[k] == s.subrange(
                0,
                t.len() as int,
            )[k] by {
                if k > 0 {
                    assert(t[k] == t.skip(1)[k - 1]);
                    assert(t.skip(1)[k - 1] == s.skip(1).subrange(0, t.len() - 1)[k - 1]);
                    assert(s.skip(1)[k - 1] == s[k]);
                }
            }
        }
        assert(s.skip(1).skip(t.len() - 1) =~= s.skip(t.len() as int));
    }
}

// ---------------------------------------------------------------------------
// MediaStateData
// ---------------------------------------------------------------------------
/// One name/value pair of media metadata.
#[derive(Clone, Debug, PartialEq)]
pub struct MediaStateMetadata {
    pub name: SGString,
    pub value: SGString,
}

/// The mathematical image of a `MediaStateMetadata` value.
pub ghost struct MediaStateMetadataModel {
    pub name: Seq<u8>,
    pub value: Seq<u8>,
}

impl View for MediaStateMetadata {
    type V = MediaStateMetadataModel;

    open spec fn view(&self) -> MediaStateMetadataModel {
        MediaStateMetadataModel { name: self.name@, value: self.value@ }
    }
}

/// A `MediaStateMetadata` image the wire can carry.
pub open spec fn media_metadata_wf(e: MediaStateMetadataModel) -> bool {
    sg_wf(e.name) && sg_wf(e.value)
}

/// The wire image of a `MediaStateMetadata`.
pub open spec fn media_metadata_bytes(e: MediaStateMetadataModel) -> Seq<u8> {
    sg_bytes(e.name) + sg_bytes(e.value)
}

/// A metadata region stands at `pos` of `d`, ending at `j`.
pub open spec fn media_metadata_at(d: Seq<u8>, pos: int, e: MediaStateMetadataModel, j: int) -> bool {
    &&& 0 <= pos
    &&& media_metadata_wf(e)
    &&& pos + media_metadata_bytes(e).len() == j
    &&& j <= d.len()
    &&& d.subrange(pos, j) == media_metadata_bytes(e)
}

/// Two metadata regions at the same place are the same.
pub proof fn lemma_media_metadata_unique(
    d: Seq<u8>,
    pos: int,
    e1: MediaStateMetadataModel,
    j1: int,
    e2: MediaStateMetadataModel,
    j2: int,
)
    requires
        media_metadata_at(d, pos, e1, j1),
        media_metadata_at(d, pos, e2, j2),
    ensures
        e1 == e2,
        j1 == j2,
{
    crate::bytes::lemma_region(d, pos, sg_bytes(e1.name), sg_bytes(e1.value));
    crate::bytes::lemma_region(d, pos, sg_bytes(e2.name), sg_bytes(e2.value));
    assert(sg_at(d, pos, e1.name, pos + (sg_bytes(e1.name).len() as int)));
    assert(sg_at(d, pos, e2.name, pos + (sg_bytes(e2.name).len() as int)));
    crate::util::lemma_sg_unique(
        d,
        pos,
        e1.name,
        pos + (sg_bytes(e1.name).len() as int),
        e2.name,
        pos + (sg_bytes(e2.name).len() as int),
    );
    assert(sg_at(d, pos + (sg_bytes(e1.name).len() as int), e1.value, j1));
    assert(sg_at(d, pos + (sg_bytes(e1.name).len() as int), e2.value, j2));
    crate::util::lemma_sg_unique(
        d,
        pos + (sg_bytes(e1.name).len() as int),
        e1.value,
        j1,
        e2.value,
        j2,
    );
}

/// Reads one metadata pair at `pos`.
fn read_media_metadata(d: &[u8], pos: usize) -> (r: Result<(MediaStateMetadata, usize), FieldError>)
    requires
        pos <= d@.len(),
    ensures
        r matches Ok((e, j)) ==> pos < j <= d@.len() && media_metadata_at(
            d@,
            pos as int,
            e@,
            j as int,
        ),
        forall|e: MediaStateMetadataModel, j: int|
            #[trigger] media_metadata_at(d@, pos as int, e, j) ==> (r matches Ok(p) && p.0@ == e
                && p.1 == j),
        r matches Err(e) ==> e == FieldError::Truncated || e == FieldError::Terminator || e
            == FieldError::Utf8,
{
    proof {
        assert forall|e: MediaStateMetadataModel, j: int| #[trigger]
            media_metadata_at(d@, pos as int, e, j) implies crate::util::sg_pair_at(
            d@,
            pos as int,
            e.name,
            e.value,
            j,
        ) by {
            crate::bytes::lemma_region(d@, pos as int, sg_bytes(e.name), sg_bytes(e.value));
        }
    }
    let (pair, j) = match crate::util::read_sgstring_pair(d, pos) {
        Ok(v) => v,
        Err(e) => {
            return Err(e);
        },
    };
    let (name, value) = pair;
    let e = MediaStateMetadata { name, value };
    proof {
        assert(media_metadata_bytes(e@) =~= d@.subrange(pos as int, j as int));
        assert forall|e2: MediaStateMetadataModel, j2: int| #[trigger]
            media_metadata_at(d@, pos as int, e2, j2) implies e2 == e@ && j2 == j as int by {
            assert(e2.name == name@ && e2.value == value@ && j2 == j as int);
            assert(e2 == (MediaStateMetadataModel { name: name@, value: value@ }));
        }
    }
    Ok((e, j))
}

/// Appends the wire image of one metadata pair.
fn write_media_metadata(out: &mut Vec<u8>, e: &MediaStateMetadata) -> (r: Result<(), FieldError>)
    ensures
        r is Ok <==> e@.name.len() <= 0xFFFF && e@.value.len() <= 0xFFFF,
        r is Ok ==> final(out)@ =~= old(out)@ + media_metadata_bytes(e@),
        r is Err ==> final(out)@ == old(out)@,
        r matches Err(e) ==> e == FieldError::Oversize,
{
    let mut tmp: Vec<u8> = Vec::new();
    match write_sgstring(&mut tmp, &e.name) {
        Ok(()) => (),
        Err(err) => {
            return Err(err);
        },
    }
    match write_sgstring(&mut tmp, &e.value) {
        Ok(()) => (),
        Err(err) => {
            return Err(err);
        },
    }
    write_bytes(out, tmp.as_slice());
    Ok(())
}

/// The models of a vector of metadata pairs.
pub open spec fn media_metadata_models(s: Seq<MediaStateMetadata>) -> Seq<MediaStateMetadataModel> {
    s.map_values(|a: MediaStateMetadata| a@)
}

/// The byte image of a run of `MediaStateMetadata` values, back to back.
pub open spec fn media_metadatas_run_bytes(s: Seq<MediaStateMetadataModel>) -> Seq<u8>
    decreases s.len(),
{
    if s.len() == 0 {
        Seq::empty()
    } else {
        media_metadata_bytes(s[0]) + media_metadatas_run_bytes(s.skip(1))
    }
}

/// Every element of the run is one the wire can carry.
pub open spec fn media_metadatas_run_wf(s: Seq<MediaStateMetadataModel>) -> bool {
    forall|k: int| 0 <= k < s.len() ==> media_metadata_wf(#[trigger] s[k])
}

/// The run stands at `pos` of `d`, element after element, ending at `j`.
pub open spec fn media_metadatas_run_at(d: Seq<u8>, pos: int, s: Seq<MediaStateMetadataModel>, j: int) -> bool
    decreases s.len(),
{
    if s.len() == 0 {
        0 <= pos && pos == j && j <= d.len()
    } else {
        exists|m: int| #[trigger] media_metadata_at(d, pos, s[0], m) && media_metadatas_run_at(d, m, s.skip(1), j)
    }
}

/// A run standing somewhere is well formed and fills exactly its bytes.
pub proof fn lemma_media_metadatas_run_at_bytes(d: Seq<u8>, pos: int, s: Seq<MediaStateMetadataModel>, j: int)
    requires
        media_metadatas_run_at(d, pos, s, j),
    ensures
        media_metadatas_run_wf(s),
        pos <= j <= d.len(),
        j - pos == media_metadatas_run_bytes(s).len(),
        media_metadatas_run_bytes(s) =~= d.subrange(pos, j),
    decreases s.len(),
{
    if s.len() == 0 {
        assert(media_metadatas_run_bytes(s) =~= d.subrange(pos, j));
    } else {
        let m = choose|m: int| #[trigger] media_metadata_at(d, pos, s[0], m) && media_metadatas_run_at(
            d,
            m,
            s.skip(1),
            j,
        );
        lemma_media_metadatas_run_at_bytes(d, m, s.skip(1), j);
        assert forall|k: int| 0 <= k < s.len() implies media_metadata_wf(#[trigger] s[k]) by {
            if k > 0 {
                assert(s.skip(1)[k - 1] == s[k]);
            }
        }
        assert(media_metadatas_run_bytes(s) =~= d.subrange(pos, j)) by {
            assert(media_metadatas_run_bytes(s.skip(1)) =~= d.subrange(m, j));
            assert(media_metadata_bytes(s[0]) =~= d.subrange(pos, m));
        }
    }
}

/// Bytes that spell a well-formed run place that run there.
pub proof fn lemma_media_metadatas_run_bytes_at(d: Seq<u8>, pos: int, s: Seq<MediaStateMetadataModel>, ln: int)
    requires
        0 <= pos,
        pos + ln <= d.len(),
        media_metadatas_run_wf(s),
        ln == media_metadatas_run_bytes(s).len(),
        d.subrange(pos, pos + ln) == media_metadatas_run_bytes(s),
    ensures
        media_metadatas_run_at(d, pos, s, pos + ln),
    decreases s.len(),
{
    if s.len() > 0 {
        crate::bytes::lemma_region(d, pos, media_metadata_bytes(s[0]), media_metadatas_run_bytes(s.skip(1)));
        let m = pos + (media_metadata_bytes(s[0]).len() as int);
        assert(media_metadata_at(d, pos, s[0], m));
        assert forall|k: int| 0 <= k < s.skip(1).len() implies media_metadata_wf(
            #[trigger] s.skip(1)[k],
        ) by {
            assert(s.skip(1)[k] == s[k + 1]);
        }
        lemma_media_metadatas_run_bytes_at(d, m, s.skip(1), pos + ln - m);
    }
}

/// Appending one element extends the run by its region.
pub proof fn lemma_media_metadatas_run_push(d: Seq<u8>, pos: int, s: Seq<MediaStateMetadataModel>, mid: int, e: MediaStateMetadataModel, j: int)
    requires
        media_metadatas_run_at(d, pos, s, mid),
        media_metadata_at(d, mid, e, j),
    ensures
        media_metadatas_run_at(d, pos, s.push(e), j),
    decreases s.len(),
{
    if s.len() == 0 {
        assert(s.push(e)[0] == e);
        assert(s.push(e).skip(1) =~= Seq::<MediaStateMetadataModel>::empty());
        assert(media_metadatas_run_at(d, j, s.push(e).skip(1), j));
        assert(media_metadata_at(d, pos, s.push(e)[0], j) && media_metadatas_run_at(d, j, s.push(e).skip(1), j));
    } else {
        let m = choose|m: int| #[trigger] media_metadata_at(d, pos, s[0], m) && media_metadatas_run_at(
            d,
            m,
            s.skip(1),
            mid,
        );
        lemma_media_metadatas_run_push(d, m, s.skip(1), mid, e, j);
        assert(s.push(e).skip(1) =~= s.skip(1).push(e));
        assert(media_metadata_at(d, pos, s.push(e)[0], m) && media_metadatas_run_at(d, m, s.push(e).skip(1), j));
    }
}

/// A shorter run at the same place is a prefix of a longer one.
pub proof fn lemma_media_metadatas_run_prefix(
    d: Seq<u8>,
    pos: int,
    s: Seq<MediaStateMetadataModel>,
    j: int,
    t: Seq<MediaStateMetadataModel>,
    mid: int,
)
    requires
        media_metadatas_run_at(d, pos, s, j),
        media_metadatas_run_at(d, pos, t, mid),
        t.len() <= s.len(),
    ensures
        t =~= s.subrange(0, t.len() as int),
        media_metadatas_run_at(d, mid, s.skip(t.len() as int), j),
    decreases t.len(),
{
    if t.len() == 0 {
        assert(s.skip(0) =~= s);
    } else {
        let m1 = choose|m: int| #[trigger] media_metadata_at(d, pos, s[0], m) && media_metadatas_run_at(
            d,
            m,
            s.skip(1),
            j,
        );
        let m2 = choose|m: int| #[trigger] media_metadata_at(d, pos, t[0], m) && media_metadatas_run_at(
            d,
            m,
            t.skip(1),
            mid,
        );
        lemma_media_metadata_unique(d, pos, s[0], m1, t[0], m2);
        assert(m1 == m2);
        assert(media_metadatas_run_at(d, m1, t.skip(1), mid));
        lemma_media_metadatas_run_prefix(d, m1, s.skip(1), j, t.skip(1), mid);
        assert(t.skip(1).len() == t.len() - 1);
        assert(t.skip(1) =~= s.skip(1).subrange(0, t.len() - 1));
        assert(t =~= s.subrange(0, t.len() as int)) by {
            assert forall|k: int| 0 <= k < t.len() implies t[k] == s.subrange(
                0,
                t.len() as int,
            )[k] by {
                if k > 0 {
                    assert(t[k] == t.skip(1)[k - 1]);
                    assert(t.skip(1)[k - 1] == s.skip(1).subrange(0, t.len() - 1)[k - 1]);
                    assert(s.skip(1)[k - 1] == s[k]);
                }
            }
        }
        assert(s.skip(1).skip(t.len() - 1) =~= s.skip(t.len() as int));
    }
}


/// What one title needs to fit its length prefixes on the way out.
pub open spec fn active_title_write_fits(e: ActiveTitleModel) -> bool {
    e.aum.len() <= 0xFFFF
}

/// What one metadata pair needs to fit its length prefixes on the way out.
pub open spec fn media_metadata_write_fits(e: MediaStateMetadataModel) -> bool {
    e.name.len() <= 0xFFFF && e.value.len() <= 0xFFFF
}

/// Reads a run of `n` `ActiveTitle` regions at `pos`.
#[verifier::rlimit(100)]
#[verifier::spinoff_prover]
fn read_active_titles_run(d: &[u8], pos: usize, n: u16) -> (r: Result<(Vec<ActiveTitle>, usize), FieldError>)
    requires
        pos <= d@.len(),
    ensures
        r matches Ok((v, j)) ==> v@.len() == n && pos <= j <= d@.len() && active_titles_run_at(
            d@,
            pos as int,
            active_title_models(v@),
            j as int,
        ),
        forall|s: Seq<ActiveTitleModel>, j: int|
            s.len() == n && #[trigger] active_titles_run_at(d@, pos as int, s, j) ==> (r matches Ok(p)
                && active_title_models(p.0@) == s && p.1 == j),
        r matches Err(e) ==> e == FieldError::Truncated || e == FieldError::Terminator || e
            == FieldError::Utf8,
{
    let mut v: Vec<ActiveTitle> = Vec::new();
    let ghost mut ms: Seq<ActiveTitleModel> = Seq::empty();
    let mut cur: usize = pos;
    let mut i: u16 = 0;
    while i < n
        invariant
            i <= n,
            pos <= cur <= d@.len(),
            v@.len() == i,
            ms =~= active_title_models(v@),
            ms.len() == i,
            active_titles_run_at(d@, pos as int, ms, cur as int),
        decreases n - i,
    {
        let (e, nxt) = match read_active_title(d, cur) {
            Ok(p) => p,
            Err(err) => {
                proof {
                    assert forall|s: Seq<ActiveTitleModel>, j: int|
                        !(s.len() == n && active_titles_run_at(d@, pos as int, s, j)) by {
                        if s.len() == n && active_titles_run_at(d@, pos as int, s, j) {
                            lemma_active_titles_run_prefix(d@, pos as int, s, j, ms, cur as int);
                            let rest = s.skip(i as int);
                            assert(active_titles_run_at(d@, cur as int, rest, j));
                            assert(rest.len() > 0);
                            let m = choose|m: int| #[trigger] active_title_at(d@, cur as int, rest[0], m)
                                && active_titles_run_at(d@, m, rest.skip(1), j);
                            assert(active_title_at(d@, cur as int, rest[0], m));
                        }
                    }
                }
                return Err(err);
            },
        };
        proof {
            lemma_active_titles_run_push(d@, pos as int, ms, cur as int, e@, nxt as int);
            ms = ms.push(e@);
            assert(ms =~= active_title_models(v@.push(e)));
        }
        v.push(e);
        cur = nxt;
        i = i + 1;
    }
    proof {
        assert forall|s: Seq<ActiveTitleModel>, j: int|
            s.len() == n && #[trigger] active_titles_run_at(d@, pos as int, s, j) implies ms == s && j
            == cur as int by {
            lemma_active_titles_run_prefix(d@, pos as int, s, j, ms, cur as int);
            assert(ms =~= s.subrange(0, n as int));
            assert(s.subrange(0, n as int) =~= s);
            assert(active_titles_run_at(d@, cur as int, s.skip(n as int), j));
            assert(s.skip(n as int).len() == 0);
        }
    }
    Ok((v, cur))
}

/// Appends a run of `ActiveTitle` values.
fn write_active_titles_run(out: &mut Vec<u8>, v: &Vec<ActiveTitle>) -> (r: Result<(), FieldError>)
    ensures
        r is Ok ==> final(out)@ =~= old(out)@ + active_titles_run_bytes(active_title_models(v@)),
        r is Err ==> final(out)@ == old(out)@,
        r matches Err(e) ==> e == FieldError::Oversize,
        r is Ok <==> (forall|k: int|
            0 <= k < active_title_models(v@).len() ==> active_title_write_fits(
                #[trigger] active_title_models(v@)[k],
            )),
    decreases v@.len(),
{
    let mut tmp: Vec<u8> = Vec::new();
    let mut i: usize = 0;
    while i < v.len()
        invariant
            i <= v@.len(),
            tmp@ =~= active_titles_run_bytes(active_title_models(v@.subrange(0, i as int))),
            forall|k: int| 0 <= k < i ==> active_title_write_fits(#[trigger] v@[k]@),
        decreases v@.len() - i,
    {
        let e = &v[i];
        match write_active_title(&mut tmp, e) {
            Ok(()) => (),
            Err(err) => {
                proof {
                    assert(active_title_models(v@)[i as int] == v@[i as int]@);
                }
                return Err(err);
            },
        }
        proof {
            lemma_active_titles_run_bytes_push(active_title_models(v@.subrange(0, i as int)), v@[i as int]@);
            assert(v@.subrange(0, i + 1) =~= v@.subrange(0, i as int).push(v@[i as int]));
            assert(active_title_models(v@.subrange(0, i + 1)) =~= active_title_models(
                v@.subrange(0, i as int),
            ).push(v@[i as int]@));
        }
        i = i + 1;
    }
    proof {
        assert(v@.subrange(0, v@.len() as int) =~= v@);
    }
    write_bytes(out, tmp.as_slice());
    Ok(())
}

/// Appending one model appends its bytes.
pub proof fn lemma_active_titles_run_bytes_push(s: Seq<ActiveTitleModel>, e: ActiveTitleModel)
    ensures
        active_titles_run_bytes(s.push(e)) =~= active_titles_run_bytes(s) + active_title_bytes(e),
    decreases s.len(),
{
    if s.len() == 0 {
        assert(s.push(e).skip(1) =~= Seq::<ActiveTitleModel>::empty());
        assert(active_titles_run_bytes(Seq::<ActiveTitleModel>::empty()) =~= Seq::<u8>::empty());
        assert(active_titles_run_bytes(s.push(e)) =~= active_title_bytes(e));
    } else {
        assert(s.push(e).skip(1) =~= s.skip(1).push(e));
        lemma_active_titles_run_bytes_push(s.skip(1), e);
    }
}

/// Reads a run of `n` `MediaStateMetadata` regions at `pos`.
#[verifier::rlimit(100)]
#[verifier::spinoff_prover]
fn read_media_metadatas_run(d: &[u8], pos: usize, n: u16) -> (r: Result<(Vec<MediaStateMetadata>, usize), FieldError>)
    requires
        pos <= d@.len(),
    ensures
        r matches Ok((v, j)) ==> v@.len() == n && pos <= j <= d@.len() && media_metadatas_run_at(
            d@,
            pos as int,
            media_metadata_models(v@),
            j as int,
        ),
        forall|s: Seq<MediaStateMetadataModel>, j: int|
            s.len() == n && #[trigger] media_metadatas_run_at(d@, pos as int, s, j) ==> (r matches Ok(p)
                && media_metadata_models(p.0@) == s && p.1 == j),
        r matches Err(e) ==> e == FieldError::Truncated || e == FieldError::Terminator || e
            == FieldError::Utf8,
{
    let mut v: Vec<MediaStateMetadata> = Vec::new();
    let ghost mut ms: Seq<MediaStateMetadataModel> = Seq::empty();
    let mut cur: usize = pos;
    let mut i: u16 = 0;
    while i < n
        invariant
            i <= n,
            pos <= cur <= d@.len(),
            v@.len() == i,
            ms =~= media_metadata_models(v@),
            ms.len() == i,
            media_metadatas_run_at(d@, pos as int, ms, cur as int),
        decreases n - i,
    {
        let (e, nxt) = match read_media_metadata(d, cur) {
            Ok(p) => p,
            Err(err) => {
                proof {
                    assert forall|s: Seq<MediaStateMetadataModel>, j: int|
                        !(s.len() == n && media_metadatas_run_at(d@, pos as int, s, j)) by {
                        if s.len() == n && media_metadatas_run_at(d@, pos as int, s, j) {
                            lemma_media_metadatas_run_prefix(d@, pos as int, s, j, ms, cur as int);
                            let rest = s.skip(i as int);
                            assert(media_metadatas_run_at(d@, cur as int, rest, j));
                            assert(rest.len() > 0);
                            let m = choose|m: int| #[trigger] media_metadata_at(d@, cur as int, rest[0], m)
                                && media_metadatas_run_at(d@, m, rest.skip(1), j);
                            assert(media_metadata_at(d@, cur as int, rest[0], m));
                        }
                    }
                }
                return Err(err);
            },
        };
        proof {
            lemma_media_metadatas_run_push(d@, pos as int, ms, cur as int, e@, nxt as int);
            ms = ms.push(e@);
            assert(ms =~= media_metadata_models(v@.push(e)));
        }
        v.push(e);
        cur = nxt;
        i = i + 1;
    }
    proof {
        assert forall|s: Seq<MediaStateMetadataModel>, j: int|
            s.len() == n && #[trigger] media_metadatas_run_at(d@, pos as int, s, j) implies ms == s && j
            == cur as int by {
            lemma_media_metadatas_run_prefix(d@, pos as int, s, j, ms, cur as int);
            assert(ms =~= s.subrange(0, n as int));
            assert(s.subrange(0, n as int) =~= s);
            assert(media_metadatas_run_at(d@, cur as int, s.skip(n as int), j));
            assert(s.skip(n as int).len() == 0);
        }
    }
    Ok((v, cur))
}

/// Appends a run of `MediaStateMetadata` values.
fn write_media_metadatas_run(out: &mut Vec<u8>, v: &Vec<MediaStateMetadata>) -> (r: Result<(), FieldError>)
    ensures
        r is Ok ==> final(out)@ =~= old(out)@ + media_metadatas_run_bytes(media_metadata_models(v@)),
        r is Err ==> final(out)@ == old(out)@,
        r matches Err(e) ==> e == FieldError::Oversize,
        r is Ok <==> (forall|k: int|
            0 <= k < media_metadata_models(v@).len() ==> media_metadata_write_fits(
                #[trigger] media_metadata_models(v@)[k],
            )),
    decreases v@.len(),
{
    let mut tmp: Vec<u8> = Vec::new();
    let mut i: usize = 0;
    while i < v.len()
        invariant
            i <= v@.len(),
            tmp@ =~= media_metadatas_run_bytes(media_metadata_models(v@.subrange(0, i as int))),
            forall|k: int| 0 <= k < i ==> media_metadata_write_fits(#[trigger] v@[k]@),
        decreases v@.len() - i,
    {
        let e = &v[i];
        match write_media_metadata(&mut tmp, e) {
            Ok(()) => (),
            Err(err) => {
                proof {
                    assert(media_metadata_models(v@)[i as int] == v@[i as int]@);
                }
                return Err(err);
            },
        }
        proof {
            lemma_media_metadatas_run_bytes_push(media_metadata_models(v@.subrange(0, i as int)), v@[i as int]@);
            assert(v@.subrange(0, i + 1) =~= v@.subrange(0, i as int).push(v@[i as int]));
            assert(media_metadata_models(v@.subrange(0, i + 1)) =~= media_metadata_models(
                v@.subrange(0, i as int),
            ).push(v@[i as int]@));
        }
        i = i + 1;
    }
    proof {
        assert(v@.subrange(0, v@.len() as int) =~= v@);
    }
    write_bytes(out, tmp.as_slice());
    Ok(())
}

/// Appending one model appends its bytes.
pub proof fn lemma_media_metadatas_run_bytes_push(s: Seq<MediaStateMetadataModel>, e: MediaStateMetadataModel)
    ensures
        media_metadatas_run_bytes(s.push(e)) =~= media_metadatas_run_bytes(s) + media_metadata_bytes(e),
    decreases s.len(),
{
    if s.len() == 0 {
        assert(s.push(e).skip(1) =~= Seq::<MediaStateMetadataModel>::empty());
        assert(media_metadatas_run_bytes(Seq::<MediaStateMetadataModel>::empty()) =~= Seq::<u8>::empty());
        assert(media_metadatas_run_bytes(s.push(e)) =~= media_metadata_bytes(e));
    } else {
        assert(s.push(e).skip(1) =~= s.skip(1).push(e));
        lemma_media_metadatas_run_bytes_push(s.skip(1), e);
    }
}


/// The console's status report.
#[derive(Clone, Debug, PartialEq)]
pub struct ConsoleStatusData {
    pub live_tv_provider: u32,
    pub major_version: u32,
    pub minor_version: u32,
    pub build_number: u32,
    pub locale: SGString,
    pub active_titles: Vec<ActiveTitle>,
}

/// The mathematical image of a `ConsoleStatusData` value.
pub ghost struct ConsoleStatusDataModel {
    pub live_tv_provider: u32,
    pub major_version: u32,
    pub minor_version: u32,
    pub build_number: u32,
    pub locale: Seq<u8>,
    pub active_titles: Seq<ActiveTitleModel>,
}

impl View for ConsoleStatusData {
    type V = ConsoleStatusDataModel;

    open spec fn view(&self) -> ConsoleStatusDataModel {
        ConsoleStatusDataModel {
            live_tv_provider: self.live_tv_provider,
            major_version: self.major_version,
            minor_version: self.minor_version,
            build_number: self.build_number,
            locale: self.locale@,
            active_titles: active_title_models(self.active_titles@),
        }
    }
}

/// A `ConsoleStatusData` image the wire can carry.
pub open spec fn console_status_wf(q: ConsoleStatusDataModel) -> bool {
    &&& sg_wf(q.locale)
    &&& q.active_titles.len() <= 0xFFFF
    &&& active_titles_run_wf(q.active_titles)
}

/// The wire image of a `ConsoleStatusData`.
pub open spec fn console_status_bytes(q: ConsoleStatusDataModel) -> Seq<u8> {
    be32(q.live_tv_provider) + be32(q.major_version) + be32(q.minor_version) + be32(q.build_number)
        + sg_bytes(q.locale) + be16(q.active_titles.len() as u16) + active_titles_run_bytes(
        q.active_titles,
    )
}

/// The field regions of a `ConsoleStatusData` image standing as all of `d`.
pub proof fn lemma_console_status_parts(d: Seq<u8>, q: ConsoleStatusDataModel)
    requires
        console_status_wf(q),
        console_status_bytes(q) == d,
    ensures
        d.len() == 18 + (sg_bytes(q.locale).len() as int) + (active_titles_run_bytes(
            q.active_titles,
        ).len() as int),
        d.subrange(0, 4) =~= be32(q.live_tv_provider),
        d.subrange(4, 8) =~= be32(q.major_version),
        d.subrange(8, 12) =~= be32(q.minor_version),
        d.subrange(12, 16) =~= be32(q.build_number),
        sg_at(d, 16, q.locale, 16 + (sg_bytes(q.locale).len() as int)),
        d.subrange(
            16 + (sg_bytes(q.locale).len() as int),
            18 + (sg_bytes(q.locale).len() as int),
        ) =~= be16(q.active_titles.len() as u16),
        active_titles_run_at(
            d,
            18 + (sg_bytes(q.locale).len() as int),
            q.active_titles,
            d.len() as int,
        ),
{
    assert(d.subrange(0, d.len() as int) =~= d);
    crate::bytes::lemma_region7(
        d,
        0,
        be32(q.live_tv_provider),
        be32(q.major_version),
        be32(q.minor_version),
        be32(q.build_number),
        sg_bytes(q.locale),
        be16(q.active_titles.len() as u16),
        active_titles_run_bytes(q.active_titles),
    );
    let sl = sg_bytes(q.locale).len() as int;
    let al = active_titles_run_bytes(q.active_titles).len() as int;
    lemma_active_titles_run_bytes_at(d, 18 + sl, q.active_titles, al);
}

/// Reads a whole `ConsoleStatusData` region.
#[verifier::rlimit(100)]
#[verifier::spinoff_prover]
pub fn parse_console_status(d: &[u8]) -> (r: Result<ConsoleStatusData, FieldError>)
    ensures
        r matches Ok(p) ==> console_status_wf(p@) && console_status_bytes(p@) == d@,
        forall|q: ConsoleStatusDataModel|
            (console_status_wf(q) && #[trigger] console_status_bytes(q) == d@) ==> (r matches Ok(p)
                && p@ == q),
{
    proof {
        assert forall|q: ConsoleStatusDataModel|
            console_status_wf(q) && console_status_bytes(q) == d@ implies sg_at(
            d@,
            16,
            q.locale,
            16 + (sg_bytes(q.locale).len() as int),
        ) by {
            lemma_console_status_parts(d@, q);
        }
    }
    let (live_tv_provider, p1) = match read_u32(d, 0) {
        Ok(v) => v,
        Err(e) => {
            return Err(e);
        },
    };
    let (major_version, p2) = match read_u32(d, p1) {
        Ok(v) => v,
        Err(e) => {
            return Err(e);
        },
    };
    let (minor_version, p3) = match read_u32(d, p2) {
        Ok(v) => v,
        Err(e) => {
            return Err(e);
        },
    };
    let (build_number, p4) = match read_u32(d, p3) {
        Ok(v) => v,
        Err(e) => {
            return Err(e);
        },
    };
    let (locale, p5) = match read_sgstring(d, p4) {
        Ok(v) => v,
        Err(e) => {
            return Err(e);
        },
    };
    proof {
        assert forall|q: ConsoleStatusDataModel|
            console_status_wf(q) && console_status_bytes(q) == d@ implies (q.locale == locale@
            && q.active_titles.len() <= 0xFFFF && d@.subrange(p5 as int, p5 + 2) =~= be16(
            q.active_titles.len() as u16,
        ) && active_titles_run_at(d@, p5 + 2, q.active_titles, d@.len() as int)) by {
            lemma_console_status_parts(d@, q);
        }
    }
    let (n, p6) = match read_u16(d, p5) {
        Ok(v) => v,
        Err(e) => {
            return Err(e);
        },
    };
    proof {
        assert forall|q: ConsoleStatusDataModel|
            console_status_wf(q) && console_status_bytes(q) == d@ implies q.active_titles.len()
            == n by {
            lemma_be16_of(q.active_titles.len() as u16);
        }
    }
    let (active_titles, p7) = match read_active_titles_run(d, p6, n) {
        Ok(v) => v,
        Err(e) => {
            return Err(e);
        },
    };
    if p7 != d.len() {
        return Err(FieldError::Leftover);
    }
    let p = ConsoleStatusData {
        live_tv_provider,
        major_version,
        minor_version,
        build_number,
        locale,
        active_titles,
    };
    proof {
        lemma_active_titles_run_at_bytes(
            d@,
            p6 as int,
            active_title_models(active_titles@),
            p7 as int,
        );
        assert(console_status_bytes(p@) =~= d@);
        assert forall|q: ConsoleStatusDataModel|
            (console_status_wf(q) && console_status_bytes(q) == d@) implies p@ == q by {
            lemma_console_status_parts(d@, q);
            crate::bytes::lemma_be32_of(q.live_tv_provider);
            crate::bytes::lemma_be32_of(q.major_version);
            crate::bytes::lemma_be32_of(q.minor_version);
            crate::bytes::lemma_be32_of(q.build_number);
            lemma_be16_of(q.active_titles.len() as u16);
            assert(q.active_titles == active_title_models(active_titles@));
            assert(q == (ConsoleStatusDataModel {
                live_tv_provider,
                major_version,
                minor_version,
                build_number,
                locale: locale@,
                active_titles: active_title_models(active_titles@),
            }));
        }
    }
    Ok(p)
}

/// Appends the wire image of a `ConsoleStatusData`.
pub fn write_console_status(out: &mut Vec<u8>, q: &ConsoleStatusData) -> (r: Result<
    (),
    FieldError,
>)
    ensures
        r is Ok ==> final(out)@ =~= old(out)@ + console_status_bytes(q@),
        r is Err ==> final(out)@ == old(out)@,
        r matches Err(e) ==> e == FieldError::Oversize,
        r is Ok <==> (q@.locale.len() <= 0xFFFF && q@.active_titles.len() <= 0xFFFF && (forall|
            k: int,
        |
            0 <= k < q@.active_titles.len() ==> active_title_write_fits(
                #[trigger] q@.active_titles[k],
            ))),
{
    if q.active_titles.len() > 0xFFFF {
        return Err(FieldError::Oversize);
    }
    let mut tmp: Vec<u8> = Vec::new();
    write_u32(&mut tmp, q.live_tv_provider);
    write_u32(&mut tmp, q.major_version);
    write_u32(&mut tmp, q.minor_version);
    write_u32(&mut tmp, q.build_number);
    match write_sgstring(&mut tmp, &q.locale) {
        Ok(()) => (),
        Err(e) => {
            return Err(e);
        },
    }
    write_u16(&mut tmp, q.active_titles.len() as u16);
    match write_active_titles_run(&mut tmp, &q.active_titles) {
        Ok(()) => (),
        Err(e) => {
            proof {
                assert forall|k: int|
                    0 <= k < q@.active_titles.len() implies q@.active_titles[k] == q.active_titles@[k]@ by {}
            }
            return Err(e);
        },
    }
    write_bytes(out, tmp.as_slice());
    Ok(())
}


/// The media playback state of a title.
#[derive(Clone, Debug, PartialEq)]
pub struct MediaStateData {
    pub title_id: u32,
    pub aum_id: SGString,
    pub asset_id: SGString,
    pub media_type: u16,
    pub sound_level: u16,
    pub enabled_commands: u32,
    pub playback_status: u16,
    pub rate: u32,
    pub position: u64,
    pub media_start: u64,
    pub media_end: u64,
    pub min_seek: u64,
    pub max_seek: u64,
    pub metadata: Vec<MediaStateMetadata>,
}

/// The mathematical image of a `MediaStateData` value; `rate` is an
/// IEEE-754 bit pattern.
pub ghost struct MediaStateDataModel {
    pub title_id: u32,
    pub aum_id: Seq<u8>,
    pub asset_id: Seq<u8>,
    pub media_type: u16,
    pub sound_level: u16,
    pub enabled_commands: u32,
    pub playback_status: u16,
    pub rate: u32,
    pub position: u64,
    pub media_start: u64,
    pub media_end: u64,
    pub min_seek: u64,
    pub max_seek: u64,
    pub metadata: Seq<MediaStateMetadataModel>,
}

impl View for MediaStateData {
    type V = MediaStateDataModel;

    open spec fn view(&self) -> MediaStateDataModel {
        MediaStateDataModel {
            title_id: self.title_id,
            aum_id: self.aum_id@,
            asset_id: self.asset_id@,
            media_type: self.media_type,
            sound_level: self.sound_level,
            enabled_commands: self.enabled_commands,
            playback_status: self.playback_status,
            rate: self.rate,
            position: self.position,
            media_start: self.media_start,
            media_end: self.media_end,
            min_seek: self.min_seek,
            max_seek: self.max_seek,
            metadata: media_metadata_models(self.metadata@),
        }
    }
}

/// A `MediaStateData` image the wire can carry.
pub open spec fn media_state_wf(q: MediaStateDataModel) -> bool {
    &&& sg_wf(q.aum_id)
    &&& sg_wf(q.asset_id)
    &&& q.metadata.len() <= 0xFFFF
    &&& media_metadatas_run_wf(q.metadata)
}

/// The wire image of a `MediaStateData`.
pub open spec fn media_state_bytes(q: MediaStateDataModel) -> Seq<u8> {
    be32(q.title_id) + sg_bytes(q.aum_id) + sg_bytes(q.asset_id) + be16(q.media_type) + be16(
        q.sound_level,
    ) + be32(q.enabled_commands) + be16(q.playback_status) + be32(q.rate) + be64(q.position)
        + be64(q.media_start) + be64(q.media_end) + be64(q.min_seek) + be64(q.max_seek) + be16(
        q.metadata.len() as u16,
    ) + media_metadatas_run_bytes(q.metadata)
}

/// The tail of a media state image, as one piece.
pub open spec fn media_state_tail(q: MediaStateDataModel) -> Seq<u8> {
    be16(q.media_type) + be16(q.sound_level) + be32(q.enabled_commands) + be16(q.playback_status)
        + be32(q.rate) + be64(q.position) + be64(q.media_start) + be64(q.media_end) + be64(
        q.min_seek,
    ) + be64(q.max_seek) + be16(q.metadata.len() as u16) + media_metadatas_run_bytes(q.metadata)
}

/// The leading string regions of a `MediaStateData` image.
#[verifier::rlimit(100)]
#[verifier::spinoff_prover]
pub proof fn lemma_media_state_head(d: Seq<u8>, q: MediaStateDataModel)
    requires
        media_state_wf(q),
        media_state_bytes(q) == d,
    ensures
        d.len() == 60 + (sg_bytes(q.aum_id).len() as int) + (sg_bytes(q.asset_id).len() as int) + (
        media_metadatas_run_bytes(q.metadata).len() as int),
        d.subrange(0, 4) =~= be32(q.title_id),
        crate::util::sg_pair_at(d, 4, q.aum_id, q.asset_id, pp(q)),
        d.subrange(pp(q), d.len() as int) =~= media_state_tail(q),
{
    assert(d.subrange(0, d.len() as int) =~= d);
    assert(media_state_bytes(q) =~= be32(q.title_id) + sg_bytes(q.aum_id) + sg_bytes(q.asset_id)
        + media_state_tail(q));
    crate::bytes::lemma_region4(
        d,
        0,
        be32(q.title_id),
        sg_bytes(q.aum_id),
        sg_bytes(q.asset_id),
        media_state_tail(q),
    );
    assert(sg_at(d, 4, q.aum_id, 4 + (sg_bytes(q.aum_id).len() as int)));
    assert(sg_at(
        d,
        4 + (sg_bytes(q.aum_id).len() as int),
        q.asset_id,
        4 + (sg_bytes(q.aum_id).len() as int) + (sg_bytes(q.asset_id).len() as int),
    ));
}

/// The fixed fields and the metadata run of a `MediaStateData` image.
#[verifier::rlimit(100)]
#[verifier::spinoff_prover]
pub proof fn lemma_media_state_parts(d: Seq<u8>, q: MediaStateDataModel)
    requires
        media_state_wf(q),
        media_state_bytes(q) == d,
    ensures
        d.len() == 60 + (sg_bytes(q.aum_id).len() as int) + (sg_bytes(q.asset_id).len() as int) + (
        media_metadatas_run_bytes(q.metadata).len() as int),
        d.subrange(0, 4) =~= be32(q.title_id),
        crate::util::sg_pair_at(d, 4, q.aum_id, q.asset_id, pp(q)),
        d.subrange(pp(q), pp(q) + 2) =~= be16(q.media_type),
        d.subrange(pp(q) + 2, pp(q) + 4) =~= be16(q.sound_level),
        d.subrange(pp(q) + 4, pp(q) + 8) =~= be32(q.enabled_commands),
        d.subrange(pp(q) + 8, pp(q) + 10) =~= be16(q.playback_status),
        d.subrange(pp(q) + 10, pp(q) + 14) =~= be32(q.rate),
        d.subrange(pp(q) + 14, pp(q) + 22) =~= be64(q.position),
        d.subrange(pp(q) + 22, pp(q) + 30) =~= be64(q.media_start),
        d.subrange(pp(q) + 30, pp(q) + 38) =~= be64(q.media_end),
        d.subrange(pp(q) + 38, pp(q) + 46) =~= be64(q.min_seek),
        d.subrange(pp(q) + 46, pp(q) + 54) =~= be64(q.max_seek),
        d.subrange(pp(q) + 54, pp(q) + 56) =~= be16(q.metadata.len() as u16),
        media_metadatas_run_at(d, pp(q) + 56, q.metadata, d.len() as int),
{
    lemma_media_state_head(d, q);
    crate::bytes::lemma_region12(
        d,
        pp(q),
        be16(q.media_type),
        be16(q.sound_level),
        be32(q.enabled_commands),
        be16(q.playback_status),
        be32(q.rate),
        be64(q.position),
        be64(q.media_start),
        be64(q.media_end),
        be64(q.min_seek),
        be64(q.max_seek),
        be16(q.metadata.len() as u16),
        media_metadatas_run_bytes(q.metadata),
    );
    lemma_media_metadatas_run_bytes_at(
        d,
        pp(q) + 56,
        q.metadata,
        media_metadatas_run_bytes(q.metadata).len() as int,
    );
}

/// Where the fixed middle of a media state image begins: after the two
/// leading strings.
pub open spec fn pp(q: MediaStateDataModel) -> int {
    4 + (sg_bytes(q.aum_id).len() as int) + (sg_bytes(q.asset_id).len() as int)
}

/// Reads a whole `MediaStateData` region.
#[verifier::rlimit(100)]
#[verifier::spinoff_prover]
pub fn parse_media_state(d: &[u8]) -> (r: Result<MediaStateData, FieldError>)
    ensures
        r matches Ok(p) ==> media_state_wf(p@) && media_state_bytes(p@) == d@,
        forall|q: MediaStateDataModel|
            (media_state_wf(q) && #[trigger] media_state_bytes(q) == d@) ==> (r matches Ok(p) && p@
                == q),
{
    proof {
        assert forall|q: MediaStateDataModel|
            media_state_wf(q) && media_state_bytes(q) == d@ implies crate::util::sg_pair_at(
            d@,
            4,
            q.aum_id,
            q.asset_id,
            pp(q),
        ) by {
            lemma_media_state_head(d@, q);
        }
    }
    let (title_id, p1) = match read_u32(d, 0) {
        Ok(v) => v,
        Err(e) => {
            return Err(e);
        },
    };
    let (pair, p2) = match crate::util::read_sgstring_pair(d, p1) {
        Ok(v) => v,
        Err(e) => {
            return Err(e);
        },
    };
    let (aum_id, asset_id) = pair;
    proof {
        assert forall|q: MediaStateDataModel|
            media_state_wf(q) && media_state_bytes(q) == d@ implies (q.aum_id == aum_id@
            && q.asset_id == asset_id@ && pp(q) == p2 as int && d@.subrange(p2 + 54, p2 + 56)
            =~= be16(q.metadata.len() as u16) && media_metadatas_run_at(
            d@,
            p2 + 56,
            q.metadata,
            d@.len() as int,
        )) by {
            lemma_media_state_parts(d@, q);
        }
    }
    let (media_type, p3) = match read_u16(d, p2) {
        Ok(v) => v,
        Err(e) => {
            return Err(e);
        },
    };
    let (sound_level, p4) = match read_u16(d, p3) {
        Ok(v) => v,
        Err(e) => {
            return Err(e);
        },
    };
    let (enabled_commands, p5) = match read_u32(d, p4) {
        Ok(v) => v,
        Err(e) => {
            return Err(e);
        },
    };
    let (playback_status, p6) = match read_u16(d, p5) {
        Ok(v) => v,
        Err(e) => {
            return Err(e);
        },
    };
    let (rate, p7) = match read_u32(d, p6) {
        Ok(v) => v,
        Err(e) => {
            return Err(e);
        },
    };
    let (position, p8) = match read_u64(d, p7) {
        Ok(v) => v,
        Err(e) => {
            return Err(e);
        },
    };
    let (media_start, p9) = match read_u64(d, p8) {
        Ok(v) => v,
        Err(e) => {
            return Err(e);
        },
    };
    let (media_end, p10) = match read_u64(d, p9) {
        Ok(v) => v,
        Err(e) => {
            return Err(e);
        },
    };
    let (min_seek, p11) = match read_u64(d, p10) {
        Ok(v) => v,
        Err(e) => {
            return Err(e);
        },
    };
    let (max_seek, p12) = match read_u64(d, p11) {
        Ok(v) => v,
        Err(e) => {
            return Err(e);
        },
    };
    let (n, p13) = match read_u16(d, p12) {
        Ok(v) => v,
        Err(e) => {
            return Err(e);
        },
    };
    proof {
        assert forall|q: MediaStateDataModel|
            media_state_wf(q) && media_state_bytes(q) == d@ implies q.metadata.len() == n by {
            lemma_be16_of(q.metadata.len() as u16);
        }
    }
    let (metadata, p14) = match read_media_metadatas_run(d, p13, n) {
        Ok(v) => v,
        Err(e) => {
            return Err(e);
        },
    };
    if p14 != d.len() {
        return Err(FieldError::Leftover);
    }
    let p = MediaStateData {
        title_id,
        aum_id,
        asset_id,
        media_type,
        sound_level,
        enabled_commands,
        playback_status,
        rate,
        position,
        media_start,
        media_end,
        min_seek,
        max_seek,
        metadata,
    };
    proof {
        lemma_media_metadatas_run_at_bytes(
            d@,
            p13 as int,
            media_metadata_models(metadata@),
            p14 as int,
        );
        assert(media_state_bytes(p@) =~= d@);
        assert forall|q: MediaStateDataModel|
            (media_state_wf(q) && media_state_bytes(q) == d@) implies p@ == q by {
            lemma_media_state_parts(d@, q);
            crate::bytes::lemma_be32_of(q.title_id);
            lemma_be16_of(q.media_type);
            lemma_be16_of(q.sound_level);
            crate::bytes::lemma_be32_of(q.enabled_commands);
            lemma_be16_of(q.playback_status);
            crate::bytes::lemma_be32_of(q.rate);
            lemma_be64_of(q.position);
            lemma_be64_of(q.media_start);
            lemma_be64_of(q.media_end);
            lemma_be64_of(q.min_seek);
            lemma_be64_of(q.max_seek);
            lemma_be16_of(q.metadata.len() as u16);
            assert(q.metadata == media_metadata_models(metadata@));
            assert(q == (MediaStateDataModel {
                title_id,
                aum_id: aum_id@,
                asset_id: asset_id@,
                media_type,
                sound_level,
                enabled_commands,
                playback_status,
                rate,
                position,
                media_start,
                media_end,
                min_seek,
                max_seek,
                metadata: media_metadata_models(metadata@),
            }));
        }
    }
    Ok(p)
}

/// Appends the wire image of a `MediaStateData`.
pub fn write_media_state(out: &mut Vec<u8>, q: &MediaStateData) -> (r: Result<(), FieldError>)
    ensures
        r is Ok ==> final(out)@ =~= old(out)@ + media_state_bytes(q@),
        r is Err ==> final(out)@ == old(out)@,
        r matches Err(e) ==> e == FieldError::Oversize,
        r is Ok <==> (q@.aum_id.len() <= 0xFFFF && q@.asset_id.len() <= 0xFFFF && q@.metadata.len()
            <= 0xFFFF && (forall|k: int|
            0 <= k < q@.metadata.len() ==> media_metadata_write_fits(#[trigger] q@.metadata[k]))),
{
    if q.metadata.len() > 0xFFFF {
        return Err(FieldError::Oversize);
    }
    let mut tmp: Vec<u8> = Vec::new();
    write_u32(&mut tmp, q.title_id);
    match write_sgstring(&mut tmp, &q.aum_id) {
        Ok(()) => (),
        Err(e) => {
            return Err(e);
        },
    }
    match write_sgstring(&mut tmp, &q.asset_id) {
        Ok(()) => (),
        Err(e) => {
            return Err(e);
        },
    }
    write_u16(&mut tmp, q.media_type);
    write_u16(&mut tmp, q.sound_level);
    write_u32(&mut tmp, q.enabled_commands);
    write_u16(&mut tmp, q.playback_status);
    write_u32(&mut tmp, q.rate);
    write_u64(&mut tmp, q.position);
    write_u64(&mut tmp, q.media_start);
    write_u64(&mut tmp, q.media_end);
    write_u64(&mut tmp, q.min_seek);
    write_u64(&mut tmp, q.max_seek);
    write_u16(&mut tmp, q.metadata.len() as u16);
    match write_media_metadatas_run(&mut tmp, &q.metadata) {
        Ok(()) => (),
        Err(e) => {
            return Err(e);
        },
    }
    write_bytes(out, tmp.as_slice());
    Ok(())
}

/// Gamepad input; the axes are IEEE-754 bit patterns.
#[derive(Clone, Copy, Debug, PartialEq, Eq, Structural)]
pub struct GamepadData {
    pub timestamp: u64,
    pub buttons: u16,
    pub left_trigger: u32,
    pub right_trigger: u32,
    pub left_thumbstick_x: u32,
    pub left_thumbstick_y: u32,
    pub right_thumbstick_x: u32,
    pub right_thumbstick_y: u32,
}

/// The wire image of a `GamepadData`.
pub open spec fn gamepad_bytes(q: GamepadData) -> Seq<u8> {
    be64(q.timestamp) + be16(q.buttons) + be32(q.left_trigger) + be32(q.right_trigger) + be32(q.left_thumbstick_x) + be32(q.left_thumbstick_y) + be32(q.right_thumbstick_x) + be32(q.right_thumbstick_y)
}

/// The field regions of a `GamepadData` image standing as all of `d`.
pub proof fn lemma_gamepad_parts(d: Seq<u8>, q: GamepadData)
    requires
        gamepad_bytes(q) == d,
    ensures
        d.len() == 0 + (be64(q.timestamp).len() as int) + (be16(q.buttons).len() as int) + (be32(q.left_trigger).len() as int) + (be32(q.right_trigger).len() as int) + (be32(q.left_thumbstick_x).len() as int) + (be32(q.left_thumbstick_y).len() as int) + (be32(q.right_thumbstick_x).len() as int) + (be32(q.right_thumbstick_y).len() as int),
        d.subrange(0, 0 + (be64(q.timestamp).len() as int)) =~= be64(q.timestamp),
        d.subrange(0 + (be64(q.timestamp).len() as int), 0 + (be64(q.timestamp).len() as int) + (be16(q.buttons).len() as int)) =~= be16(q.buttons),
        d.subrange(0 + (be64(q.timestamp).len() as int) + (be16(q.buttons).len() as int), 0 + (be64(q.timestamp).len() as int) + (be16(q.buttons).len() as int) + (be32(q.left_trigger).len() as int)) =~= be32(q.left_trigger),
        d.subrange(0 + (be64(q.timestamp).len() as int) + (be16(q.buttons).len() as int) + (be32(q.left_trigger).len() as int), 0 + (be64(q.timestamp).len() as int) + (be16(q.buttons).len() as int) + (be32(q.left_trigger).len() as int) + (be32(q.right_trigger).len() as int)) =~= be32(q.right_trigger),
        d.subrange(0 + (be64(q.timestamp).len() as int) + (be16(q.buttons).len() as int) + (be32(q.left_trigger).len() as int) + (be32(q.right_trigger).len() as int), 0 + (be64(q.timestamp).len() as int) + (be16(q.buttons).len() as int) + (be32(q.left_trigger).len() as int) + (be32(q.right_trigger).len() as int) + (be32(q.left_thumbstick_x).len() as int)) =~= be32(q.left_thumbstick_x),
        d.subrange(0 + (be64(q.timestamp).len() as int) + (be16(q.buttons).len() as int) + (be32(q.left_trigger).len() as int) + (be32(q.right_trigger).len() as int) + (be32(q.left_thumbstick_x).len() as int), 0 + (be64(q.timestamp).len() as int) + (be16(q.buttons).len() as int) + (be32(q.left_trigger).len() as int) + (be32(q.right_trigger).len() as int) + (be32(q.left_thumbstick_x).len() as int) + (be32(q.left_thumbstick_y).len() as int)) =~= be32(q.left_thumbstick_y),
        d.subrange(0 + (be64(q.timestamp).len() as int) + (be16(q.buttons).len() as int) + (be32(q.left_trigger).len() as int) + (be32(q.right_trigger).len() as int) + (be32(q.left_thumbstick_x).len() as int) + (be32(q.left_thumbstick_y).len() as int), 0 + (be64(q.timestamp).len() as int) + (be16(q.buttons).len() as int) + (be32(q.left_trigger).len() as int) + (be32(q.right_trigger).len() as int) + (be32(q.left_thumbstick_x).len() as int) + (be32(q.left_thumbstick_y).len() as int) + (be32(q.right_thumbstick_x).len() as int)) =~= be32(q.right_thumbstick_x),
        d.subrange(0 + (be64(q.timestamp).len() as int) + (be16(q.buttons).len() as int) + (be32(q.left_trigger).len() as int) + (be32(q.right_trigger).len() as int) + (be32(q.left_thumbstick_x).len() as int) + (be32(q.left_thumbstick_y).len() as int) + (be32(q.right_thumbstick_x).len() as int), 0 + (be64(q.timestamp).len() as int) + (be16(q.buttons).len() as int) + (be32(q.left_trigger).len() as int) + (be32(q.right_trigger).len() as int) + (be32(q.left_thumbstick_x).len() as int) + (be32(q.left_thumbstick_y).len() as int) + (be32(q.right_thumbstick_x).len() as int) + (be32(q.right_thumbstick_y).len() as int)) =~= be32(q.right_thumbstick_y),
{
    assert(d.subrange(0, d.len() as int) =~= d);
    crate::bytes::lemma_region8(
        d,
        0,
        be64(q.timestamp),
        be16(q.buttons),
        be32(q.left_trigger),
        be32(q.right_trigger),
        be32(q.left_thumbstick_x),
        be32(q.left_thumbstick_y),
        be32(q.right_thumbstick_x),
        be32(q.right_thumbstick_y),
    );
}

/// Reads a whole `GamepadData` region.
#[verifier::rlimit(100)]
#[verifier::spinoff_prover]
pub fn parse_gamepad(d: &[u8]) -> (r: Result<GamepadData, FieldError>)
    ensures
        r matches Ok(p) ==> gamepad_bytes(p) == d@,
        forall|q: GamepadData|
            (#[trigger] gamepad_bytes(q) == d@) ==> (r matches Ok(p) && p == q),
{
    proof {
        assert forall|q: GamepadData| gamepad_bytes(q) == d@ implies gamepad_bytes(q).len() == d@.len() by {
            lemma_gamepad_parts(d@, q);
        }
    }
    let (f0, p1) = match read_u64(d, 0) {
        Ok(v) => v,
        Err(e) => {
            return Err(e);
        },
    };
    let (f1, p2) = match read_u16(d, p1) {
        Ok(v) => v,
        Err(e) => {
            return Err(e);
        },
    };
    let (f2, p3) = match read_u32(d, p2) {
        Ok(v) => v,
        Err(e) => {
            return Err(e);
        },
    };
    let (f3, p4) = match read_u32(d, p3) {
        Ok(v) => v,
        Err(e) => {
            return Err(e);
        },
    };
    let (f4, p5) = match read_u32(d, p4) {
        Ok(v) => v,
        Err(e) => {
            return Err(e);
        },
    };
    let (f5, p6) = match read_u32(d, p5) {
        Ok(v) => v,
        Err(e) => {
            return Err(e);
        },
    };
    let (f6, p7) = match read_u32(d, p6) {
        Ok(v) => v,
        Err(e) => {
            return Err(e);
        },
    };
    let (f7, p8) = match read_u32(d, p7) {
        Ok(v) => v,
        Err(e) => {
            return Err(e);
        },
    };
    if p8 != d.len() {
        return Err(FieldError::Leftover);
    }
    let p = GamepadData {
        timestamp: f0,
        buttons: f1,
        left_trigger: f2,
        right_trigger: f3,
        left_thumbstick_x: f4,
        left_thumbstick_y: f5,
        right_thumbstick_x: f6,
        right_thumbstick_y: f7,
    };
    proof {
        assert(gamepad_bytes(p) =~= d@);
        assert forall|q: GamepadData| (gamepad_bytes(q) == d@) implies p == q by {
            lemma_gamepad_parts(d@, q);
            crate::bytes::lemma_be64_of(q.timestamp);
            assert(q.timestamp == f0);
            crate::bytes::lemma_be16_of(q.buttons);
            assert(q.buttons == f1);
            crate::bytes::lemma_be32_of(q.left_trigger);
            assert(q.left_trigger == f2);
            crate::bytes::lemma_be32_of(q.right_trigger);
            assert(q.right_trigger == f3);
            crate::bytes::lemma_be32_of(q.left_thumbstick_x);
            assert(q.left_thumbstick_x == f4);
            crate::bytes::lemma_be32_of(q.left_thumbstick_y);
            assert(q.left_thumbstick_y == f5);
            crate::bytes::lemma_be32_of(q.right_thumbstick_x);
            assert(q.right_thumbstick_x == f6);
            crate::bytes::lemma_be32_of(q.right_thumbstick_y);
            assert(q.right_thumbstick_y == f7);
        }
    }
    Ok(p)
}

/// Appends the wire image of a `GamepadData`.
pub fn write_gamepad(out: &mut Vec<u8>, q: &GamepadData)
    ensures
        final(out)@ =~= old(out)@ + gamepad_bytes(*q),
{
    write_u64(out, q.timestamp);
    write_u16(out, q.buttons);
    write_u32(out, q.left_trigger);
    write_u32(out, q.right_trigger);
    write_u32(out, q.left_thumbstick_x);
    write_u32(out, q.left_thumbstick_y);
    write_u32(out, q.right_thumbstick_x);
    write_u32(out, q.right_thumbstick_y);
}

/// A decoded message body: one variant per message kind that carries a
/// payload, and `Null` for the carrier kinds that carry none.
#[derive(Clone, Debug, PartialEq)]
pub enum Message {
    Null,
    Acknowledge(AcknowledgeData),
    Group,
    LocalJoin(LocalJoinData),
    StopActivity,
    AuxiliaryStream(AuxiliaryStreamData),
    ActiveSurfaceChange(ActiveSurfaceChangeData),
    Navigate,
    Json(JsonData),
    Tunnel,
    ConsoleStatus(ConsoleStatusData),
    TitleTextConfiguration(TextConfigurationData),
    TitleTextInput(TitleTextInputData),
    TitleTextSelection(TitleTextSelectionData),
    MirroringRequest,
    TitleLaunch(TitleLaunchData),
    StartChannelRequest(StartChannelRequestData),
    StartChannelResponse(StartChannelResponseData),
    StopChannel(StopChannelData),
    System,
    Disconnect(DisconnectData),
    TitleTouch(TouchData),
    Accelerometer(AccelerometerData),
    Gyrometer(GyrometerData),
    Inclinometer(InclinometerData),
    Compass(CompassData),
    Orientation(OrientationData),
    PairedIdentityStateChanged(PairedIdentityStateChangedData),
    Unsnap(UnsnapData),
    GameDvrRecord(GameDvrRecordData),
    PowerOff(PowerOffData),
    MediaControllerRemoved(MediaControllerRemovedData),
    MediaCommand(MediaCommandData),
    MediaCommandResult(MediaCommandResultData),
    MediaState(MediaStateData),
    Gamepad(GamepadData),
    SystemTextConfiguration(TextConfigurationData),
    SystemTextInput(SystemTextInputData),
    SystemTouch(TouchData),
    SystemTextAcknowledge(SystemTextAcknowledgeData),
    SystemTextDone(SystemTextDoneData),
}

/// The mathematical image of a message body.
pub ghost enum MessageModel {
    Null,
    Acknowledge(AcknowledgeDataModel),
    Group,
    LocalJoin(LocalJoinDataModel),
    StopActivity,
    AuxiliaryStream(AuxiliaryStreamDataModel),
    ActiveSurfaceChange(ActiveSurfaceChangeDataModel),
    Navigate,
    Json(JsonDataModel),
    Tunnel,
    ConsoleStatus(ConsoleStatusDataModel),
    TitleTextConfiguration(TextConfigurationDataModel),
    TitleTextInput(TitleTextInputDataModel),
    TitleTextSelection(TitleTextSelectionData),
    MirroringRequest,
    TitleLaunch(TitleLaunchDataModel),
    StartChannelRequest(StartChannelRequestDataModel),
    StartChannelResponse(StartChannelResponseData),
    StopChannel(StopChannelData),
    System,
    Disconnect(DisconnectData),
    TitleTouch(TouchDataModel),
    Accelerometer(AccelerometerData),
    Gyrometer(GyrometerData),
    Inclinometer(InclinometerData),
    Compass(CompassData),
    Orientation(OrientationData),
    PairedIdentityStateChanged(PairedIdentityStateChangedData),
    Unsnap(UnsnapData),
    GameDvrRecord(GameDvrRecordData),
    PowerOff(PowerOffDataModel),
    MediaControllerRemoved(MediaControllerRemovedData),
    MediaCommand(MediaCommandData),
    MediaCommandResult(MediaCommandResultData),
    MediaState(MediaStateDataModel),
    Gamepad(GamepadData),
    SystemTextConfiguration(TextConfigurationDataModel),
    SystemTextInput(SystemTextInputDataModel),
    SystemTouch(TouchDataModel),
    SystemTextAcknowledge(SystemTextAcknowledgeData),
    SystemTextDone(SystemTextDoneData),
}

impl View for Message {
    type V = MessageModel;

    open spec fn view(&self) -> MessageModel {
        match self {
            Message::Null => MessageModel::Null,
            Message::Acknowledge(x) => MessageModel::Acknowledge(x@),
            Message::Group => MessageModel::Group,
            Message::LocalJoin(x) => MessageModel::LocalJoin(x@),
            Message::StopActivity => MessageModel::StopActivity,
            Message::AuxiliaryStream(x) => MessageModel::AuxiliaryStream(x@),
            Message::ActiveSurfaceChange(x) => MessageModel::ActiveSurfaceChange(x@),
            Message::Navigate => MessageModel::Navigate,
            Message::Json(x) => MessageModel::Json(x@),
            Message::Tunnel => MessageModel::Tunnel,
            Message::ConsoleStatus(x) => MessageModel::ConsoleStatus(x@),
            Message::TitleTextConfiguration(x) => MessageModel::TitleTextConfiguration(x@),
            Message::TitleTextInput(x) => MessageModel::TitleTextInput(x@),
            Message::TitleTextSelection(x) => MessageModel::TitleTextSelection(*x),
            Message::MirroringRequest => MessageModel::MirroringRequest,
            Message::TitleLaunch(x) => MessageModel::TitleLaunch(x@),
            Message::StartChannelRequest(x) => MessageModel::StartChannelRequest(x@),
            Message::StartChannelResponse(x) => MessageModel::StartChannelResponse(*x),
            Message::StopChannel(x) => MessageModel::StopChannel(*x),
            Message::System => MessageModel::System,
            Message::Disconnect(x) => MessageModel::Disconnect(*x),
            Message::TitleTouch(x) => MessageModel::TitleTouch(x@),
            Message::Accelerometer(x) => MessageModel::Accelerometer(*x),
            Message::Gyrometer(x) => MessageModel::Gyrometer(*x),
            Message::Inclinometer(x) => MessageModel::Inclinometer(*x),
            Message::Compass(x) => MessageModel::Compass(*x),
            Message::Orientation(x) => MessageModel::Orientation(*x),
            Message::PairedIdentityStateChanged(x) => MessageModel::PairedIdentityStateChanged(*x),
            Message::Unsnap(x) => MessageModel::Unsnap(*x),
            Message::GameDvrRecord(x) => MessageModel::GameDvrRecord(*x),
            Message::PowerOff(x) => MessageModel::PowerOff(x@),
            Message::MediaControllerRemoved(x) => MessageModel::MediaControllerRemoved(*x),
            Message::MediaCommand(x) => MessageModel::MediaCommand(*x),
            Message::MediaCommandResult(x) => MessageModel::MediaCommandResult(*x),
            Message::MediaState(x) => MessageModel::MediaState(x@),
            Message::Gamepad(x) => MessageModel::Gamepad(*x),
            Message::SystemTextConfiguration(x) => MessageModel::SystemTextConfiguration(x@),
            Message::SystemTextInput(x) => MessageModel::SystemTextInput(x@),
            Message::SystemTouch(x) => MessageModel::SystemTouch(x@),
            Message::SystemTextAcknowledge(x) => MessageModel::SystemTextAcknowledge(*x),
            Message::SystemTextDone(x) => MessageModel::SystemTextDone(*x),
        }
    }
}

/// The message kind a body belongs to.
pub open spec fn message_kind(m: MessageModel) -> MessageType {
    match m {
        MessageModel::Null => MessageType::Null,
        MessageModel::Acknowledge(_) => MessageType::Acknowledge,
        MessageModel::Group => MessageType::Group,
        MessageModel::LocalJoin(_) => MessageType::LocalJoin,
        MessageModel::StopActivity => MessageType::StopActivity,
        MessageModel::AuxiliaryStream(_) => MessageType::AuxiliaryStream,
        MessageModel::ActiveSurfaceChange(_) => MessageType::ActiveSurfaceChange,
        MessageModel::Navigate => MessageType::Navigate,
        MessageModel::Json(_) => MessageType::Json,
        MessageModel::Tunnel => MessageType::Tunnel,
        MessageModel::ConsoleStatus(_) => MessageType::ConsoleStatus,
        MessageModel::TitleTextConfiguration(_) => MessageType::TitleTextConfiguration,
        MessageModel::TitleTextInput(_) => MessageType::TitleTextInput,
        MessageModel::TitleTextSelection(_) => MessageType::TitleTextSelection,
        MessageModel::MirroringRequest => MessageType::MirroringRequest,
        MessageModel::TitleLaunch(_) => MessageType::TitleLaunch,
        MessageModel::StartChannelRequest(_) => MessageType::StartChannelRequest,
        MessageModel::StartChannelResponse(_) => MessageType::StartChannelResponse,
        MessageModel::StopChannel(_) => MessageType::StopChannel,
        MessageModel::System => MessageType::System,
        MessageModel::Disconnect(_) => MessageType::Disconnect,
        MessageModel::TitleTouch(_) => MessageType::TitleTouch,
        MessageModel::Accelerometer(_) => MessageType::Accelerometer,
        MessageModel::Gyrometer(_) => MessageType::Gyrometer,
        MessageModel::Inclinometer(_) => MessageType::Inclinometer,
        MessageModel::Compass(_) => MessageType::Compass,
        MessageModel::Orientation(_) => MessageType::Orientation,
        MessageModel::PairedIdentityStateChanged(_) => MessageType::PairedIdentityStateChanged,
        MessageModel::Unsnap(_) => MessageType::Unsnap,
        MessageModel::GameDvrRecord(_) => MessageType::GameDvrRecord,
        MessageModel::PowerOff(_) => MessageType::PowerOff,
        MessageModel::MediaControllerRemoved(_) => MessageType::MediaControllerRemoved,
        MessageModel::MediaCommand(_) => MessageType::MediaCommand,
        MessageModel::MediaCommandResult(_) => MessageType::MediaCommandResult,
        MessageModel::MediaState(_) => MessageType::MediaState,
        MessageModel::Gamepad(_) => MessageType::Gamepad,
        MessageModel::SystemTextConfiguration(_) => MessageType::SystemTextConfiguration,
        MessageModel::SystemTextInput(_) => MessageType::SystemTextInput,
        MessageModel::SystemTouch(_) => MessageType::SystemTouch,
        MessageModel::SystemTextAcknowledge(_) => MessageType::SystemTextAcknowledge,
        MessageModel::SystemTextDone(_) => MessageType::SystemTextDone,
    }
}

/// A body the wire can carry: a payload-bearing variant whose payload is
/// well formed.
pub open spec fn message_wf(m: MessageModel) -> bool {
    match m {
        MessageModel::Null => false,
        MessageModel::Acknowledge(x) => acknowledge_wf(x),
        MessageModel::Group => false,
        MessageModel::LocalJoin(x) => local_join_wf(x),
        MessageModel::StopActivity => false,
        MessageModel::AuxiliaryStream(x) => auxiliary_stream_wf(x),
        MessageModel::ActiveSurfaceChange(x) => active_surface_change_wf(x),
        MessageModel::Navigate => false,
        MessageModel::Json(x) => json_wf(x),
        MessageModel::Tunnel => false,
        MessageModel::ConsoleStatus(x) => console_status_wf(x),
        MessageModel::TitleTextConfiguration(x) => text_configuration_wf(x),
        MessageModel::TitleTextInput(x) => title_text_input_wf(x),
        MessageModel::TitleTextSelection(x) => true,
        MessageModel::MirroringRequest => false,
        MessageModel::TitleLaunch(x) => title_launch_wf(x),
        MessageModel::StartChannelRequest(x) => start_channel_request_wf(x),
        MessageModel::StartChannelResponse(x) => true,
        MessageModel::StopChannel(x) => true,
        MessageModel::System => false,
        MessageModel::Disconnect(x) => true,
        MessageModel::TitleTouch(x) => touch_wf(x),
        MessageModel::Accelerometer(x) => true,
        MessageModel::Gyrometer(x) => true,
        MessageModel::Inclinometer(x) => true,
        MessageModel::Compass(x) => true,
        MessageModel::Orientation(x) => true,
        MessageModel::PairedIdentityStateChanged(x) => true,
        MessageModel::Unsnap(x) => true,
        MessageModel::GameDvrRecord(x) => true,
        MessageModel::PowerOff(x) => power_off_wf(x),
        MessageModel::MediaControllerRemoved(x) => true,
        MessageModel::MediaCommand(x) => true,
        MessageModel::MediaCommandResult(x) => true,
        MessageModel::MediaState(x) => media_state_wf(x),
        MessageModel::Gamepad(x) => true,
        MessageModel::SystemTextConfiguration(x) => text_configuration_wf(x),
        MessageModel::SystemTextInput(x) => system_text_input_wf(x),
        MessageModel::SystemTouch(x) => touch_wf(x),
        MessageModel::SystemTextAcknowledge(x) => true,
        MessageModel::SystemTextDone(x) => true,
    }
}

/// The payload bytes of a body (meaningful only for well-formed bodies).
pub open spec fn message_bytes(m: MessageModel) -> Seq<u8> {
    match m {
        MessageModel::Null => Seq::empty(),
        MessageModel::Acknowledge(x) => acknowledge_bytes(x),
        MessageModel::Group => Seq::empty(),
        MessageModel::LocalJoin(x) => local_join_bytes(x),
        MessageModel::StopActivity => Seq::empty(),
        MessageModel::AuxiliaryStream(x) => auxiliary_stream_bytes(x),
        MessageModel::ActiveSurfaceChange(x) => active_surface_change_bytes(x),
        MessageModel::Navigate => Seq::empty(),
        MessageModel::Json(x) => json_bytes(x),
        MessageModel::Tunnel => Seq::empty(),
        MessageModel::ConsoleStatus(x) => console_status_bytes(x),
        MessageModel::TitleTextConfiguration(x) => text_configuration_bytes(x),
        MessageModel::TitleTextInput(x) => title_text_input_bytes(x),
        MessageModel::TitleTextSelection(x) => title_text_selection_bytes(x),
        MessageModel::MirroringRequest => Seq::empty(),
        MessageModel::TitleLaunch(x) => title_launch_bytes(x),
        MessageModel::StartChannelRequest(x) => start_channel_request_bytes(x),
        MessageModel::StartChannelResponse(x) => start_channel_response_bytes(x),
        MessageModel::StopChannel(x) => stop_channel_bytes(x),
        MessageModel::System => Seq::empty(),
        MessageModel::Disconnect(x) => disconnect_bytes(x),
        MessageModel::TitleTouch(x) => touch_bytes(x),
        MessageModel::Accelerometer(x) => accelerometer_bytes(x),
        MessageModel::Gyrometer(x) => gyrometer_bytes(x),
        MessageModel::Inclinometer(x) => inclinometer_bytes(x),
        MessageModel::Compass(x) => compass_bytes(x),
        MessageModel::Orientation(x) => orientation_bytes(x),
        MessageModel::PairedIdentityStateChanged(x) => paired_identity_state_changed_bytes(x),
        MessageModel::Unsnap(x) => unsnap_bytes(x),
        MessageModel::GameDvrRecord(x) => game_dvr_record_bytes(x),
        MessageModel::PowerOff(x) => power_off_bytes(x),
        MessageModel::MediaControllerRemoved(x) => media_controller_removed_bytes(x),
        MessageModel::MediaCommand(x) => media_command_bytes(x),
        MessageModel::MediaCommandResult(x) => media_command_result_bytes(x),
        MessageModel::MediaState(x) => media_state_bytes(x),
        MessageModel::Gamepad(x) => gamepad_bytes(x),
        MessageModel::SystemTextConfiguration(x) => text_configuration_bytes(x),
        MessageModel::SystemTextInput(x) => system_text_input_bytes(x),
        MessageModel::SystemTouch(x) => touch_bytes(x),
        MessageModel::SystemTextAcknowledge(x) => system_text_acknowledge_bytes(x),
        MessageModel::SystemTextDone(x) => system_text_done_bytes(x),
    }
}

/// A body whose length prefixes all fit, so that it can be written out.
pub open spec fn message_writable(m: MessageModel) -> bool {
    match m {
        MessageModel::Null => false,
        MessageModel::Acknowledge(x) => x.processed_list.len() <= 0xFFFFFFFF && x.rejected_list.len() <= 0xFFFFFFFF,
        MessageModel::Group => false,
        MessageModel::LocalJoin(x) => x.display_name.len() <= 0xFFFF,
        MessageModel::StopActivity => false,
        MessageModel::AuxiliaryStream(x) => x.message.len() <= 0xFFFF,
        MessageModel::ActiveSurfaceChange(x) => true,
        MessageModel::Navigate => false,
        MessageModel::Json(x) => x.text.len() <= 0xFFFF,
        MessageModel::Tunnel => false,
        MessageModel::ConsoleStatus(x) => x.locale.len() <= 0xFFFF && x.active_titles.len() <= 0xFFFF && (forall|k: int| 0 <= k < x.active_titles.len() ==> active_title_write_fits(#[trigger] x.active_titles[k])),
        MessageModel::TitleTextConfiguration(x) => x.locale.len() <= 0xFFFF && x.prompt.len() <= 0xFFFF,
        MessageModel::TitleTextInput(x) => x.text.len() <= 0xFFFF,
        MessageModel::TitleTextSelection(x) => true,
        MessageModel::MirroringRequest => false,
        MessageModel::TitleLaunch(x) => x.uri.len() <= 0xFFFF,
        MessageModel::StartChannelRequest(x) => true,
        MessageModel::StartChannelResponse(x) => true,
        MessageModel::StopChannel(x) => true,
        MessageModel::System => false,
        MessageModel::Disconnect(x) => true,
        MessageModel::TitleTouch(x) => x.active_titles.len() <= 0xFFFF,
        MessageModel::Accelerometer(x) => true,
        MessageModel::Gyrometer(x) => true,
        MessageModel::Inclinometer(x) => true,
        MessageModel::Compass(x) => true,
        MessageModel::Orientation(x) => true,
        MessageModel::PairedIdentityStateChanged(x) => true,
        MessageModel::Unsnap(x) => true,
        MessageModel::GameDvrRecord(x) => true,
        MessageModel::PowerOff(x) => x.device_id.len() <= 0xFFFF,
        MessageModel::MediaControllerRemoved(x) => true,
        MessageModel::MediaCommand(x) => true,
        MessageModel::MediaCommandResult(x) => true,
        MessageModel::MediaState(x) => x.aum_id.len() <= 0xFFFF && x.asset_id.len() <= 0xFFFF && x.metadata.len() <= 0xFFFF && (forall|k: int| 0 <= k < x.metadata.len() ==> media_metadata_write_fits(#[trigger] x.metadata[k])),
        MessageModel::Gamepad(x) => true,
        MessageModel::SystemTextConfiguration(x) => x.locale.len() <= 0xFFFF && x.prompt.len() <= 0xFFFF,
        MessageModel::SystemTextInput(x) => x.text_chunk.len() <= 0xFFFF,
        MessageModel::SystemTouch(x) => x.active_titles.len() <= 0xFFFF,
        MessageModel::SystemTextAcknowledge(x) => true,
        MessageModel::SystemTextDone(x) => true,
    }
}

/// A body of kind `Acknowledge` is that variant, with its payload's bytes.
proof fn lemma_body_acknowledge(d: Seq<u8>, q: MessageModel)
    requires
        message_wf(q),
        message_kind(q) == MessageType::Acknowledge,
        message_bytes(q) == d,
    ensures
        q matches MessageModel::Acknowledge(x) && acknowledge_bytes(x) == d && acknowledge_wf(x),
{
}

/// A body of kind `LocalJoin` is that variant, with its payload's bytes.
proof fn lemma_body_localjoin(d: Seq<u8>, q: MessageModel)
    requires
        message_wf(q),
        message_kind(q) == MessageType::LocalJoin,
        message_bytes(q) == d,
    ensures
        q matches MessageModel::LocalJoin(x) && local_join_bytes(x) == d && local_join_wf(x),
{
}

/// A body of kind `AuxiliaryStream` is that variant, with its payload's bytes.
proof fn lemma_body_auxiliarystream(d: Seq<u8>, q: MessageModel)
    requires
        message_wf(q),
        message_kind(q) == MessageType::AuxiliaryStream,
        message_bytes(q) == d,
    ensures
        q matches MessageModel::AuxiliaryStream(x) && auxiliary_stream_bytes(x) == d && auxiliary_stream_wf(x),
{
}

/// A body of kind `ActiveSurfaceChange` is that variant, with its payload's bytes.
proof fn lemma_body_activesurfacechange(d: Seq<u8>, q: MessageModel)
    requires
        message_wf(q),
        message_kind(q) == MessageType::ActiveSurfaceChange,
        message_bytes(q) == d,
    ensures
        q matches MessageModel::ActiveSurfaceChange(x) && active_surface_change_bytes(x) == d && active_surface_change_wf(x),
{
}

/// A body of kind `Json` is that variant, with its payload's bytes.
proof fn lemma_body_json(d: Seq<u8>, q: MessageModel)
    requires
        message_wf(q),
        message_kind(q) == MessageType::Json,
        message_bytes(q) == d,
    ensures
        q matches MessageModel::Json(x) && json_bytes(x) == d && json_wf(x),
{
}

/// A body of kind `ConsoleStatus` is that variant, with its payload's bytes.
proof fn lemma_body_consolestatus(d: Seq<u8>, q: MessageModel)
    requires
        message_wf(q),
        message_kind(q) == MessageType::ConsoleStatus,
        message_bytes(q) == d,
    ensures
        q matches MessageModel::ConsoleStatus(x) && console_status_bytes(x) == d && console_status_wf(x),
{
}

/// A body of kind `TitleTextConfiguration` is that variant, with its payload's bytes.
proof fn lemma_body_titletextconfiguration(d: Seq<u8>, q: MessageModel)
    requires
        message_wf(q),
        message_kind(q) == MessageType::TitleTextConfiguration,
        message_bytes(q) == d,
    ensures
        q matches MessageModel::TitleTextConfiguration(x) && text_configuration_bytes(x) == d && text_configuration_wf(x),
{
}

/// A body of kind `TitleTextInput` is that variant, with its payload's bytes.
proof fn lemma_body_titletextinput(d: Seq<u8>, q: MessageModel)
    requires
        message_wf(q),
        message_kind(q) == MessageType::TitleTextInput,
        message_bytes(q) == d,
    ensures
        q matches MessageModel::TitleTextInput(x) && title_text_input_bytes(x) == d && title_text_input_wf(x),
{
}

/// A body of kind `TitleTextSelection` is that variant, with its payload's bytes.
proof fn lemma_body_titletextselection(d: Seq<u8>, q: MessageModel)
    requires
        message_wf(q),
        message_kind(q) == MessageType::TitleTextSelection,
        message_bytes(q) == d,
    ensures
        q matches MessageModel::TitleTextSelection(x) && title_text_selection_bytes(x) == d,
{
}

/// A body of kind `TitleLaunch` is that variant, with its payload's bytes.
proof fn lemma_body_titlelaunch(d: Seq<u8>, q: MessageModel)
    requires
        message_wf(q),
        message_kind(q) == MessageType::TitleLaunch,
        message_bytes(q) == d,
    ensures
        q matches MessageModel::TitleLaunch(x) && title_launch_bytes(x) == d && title_launch_wf(x),
{
}

/// A body of kind `StartChannelRequest` is that variant, with its payload's bytes.
proof fn lemma_body_startchannelrequest(d: Seq<u8>, q: MessageModel)
    requires
        message_wf(q),
        message_kind(q) == MessageType::StartChannelRequest,
        message_bytes(q) == d,
    ensures
        q matches MessageModel::StartChannelRequest(x) && start_channel_request_bytes(x) == d && start_channel_request_wf(x),
{
}

/// A body of kind `StartChannelResponse` is that variant, with its payload's bytes.
proof fn lemma_body_startchannelresponse(d: Seq<u8>, q: MessageModel)
    requires
        message_wf(q),
        message_kind(q) == MessageType::StartChannelResponse,
        message_bytes(q) == d,
    ensures
        q matches MessageModel::StartChannelResponse(x) && start_channel_response_bytes(x) == d,
{
}

/// A body of kind `StopChannel` is that variant, with its payload's bytes.
proof fn lemma_body_stopchannel(d: Seq<u8>, q: MessageModel)
    requires
        message_wf(q),
        message_kind(q) == MessageType::StopChannel,
        message_bytes(q) == d,
    ensures
        q matches MessageModel::StopChannel(x) && stop_channel_bytes(x) == d,
{
}

/// A body of kind `Disconnect` is that variant, with its payload's bytes.
proof fn lemma_body_disconnect(d: Seq<u8>, q: MessageModel)
    requires
        message_wf(q),
        message_kind(q) == MessageType::Disconnect,
        message_bytes(q) == d,
    ensures
        q matches MessageModel::Disconnect(x) && disconnect_bytes(x) == d,
{
}

/// A body of kind `TitleTouch` is that variant, with its payload's bytes.
proof fn lemma_body_titletouch(d: Seq<u8>, q: MessageModel)
    requires
        message_wf(q),
        message_kind(q) == MessageType::TitleTouch,
        message_bytes(q) == d,
    ensures
        q matches MessageModel::TitleTouch(x) && touch_bytes(x) == d && touch_wf(x),
{
}

/// A body of kind `Accelerometer` is that variant, with its payload's bytes.
proof fn lemma_body_accelerometer(d: Seq<u8>, q: MessageModel)
    requires
        message_wf(q),
        message_kind(q) == MessageType::Accelerometer,
        message_bytes(q) == d,
    ensures
        q matches MessageModel::Accelerometer(x) && accelerometer_bytes(x) == d,
{
}

/// A body of kind `Gyrometer` is that variant, with its payload's bytes.
proof fn lemma_body_gyrometer(d: Seq<u8>, q: MessageModel)
    requires
        message_wf(q),
        message_kind(q) == MessageType::Gyrometer,
        message_bytes(q) == d,
    ensures
        q matches MessageModel::Gyrometer(x) && gyrometer_bytes(x) == d,
{
}

/// A body of kind `Inclinometer` is that variant, with its payload's bytes.
proof fn lemma_body_inclinometer(d: Seq<u8>, q: MessageModel)
    requires
        message_wf(q),
        message_kind(q) == MessageType::Inclinometer,
        message_bytes(q) == d,
    ensures
        q matches MessageModel::Inclinometer(x) && inclinometer_bytes(x) == d,
{
}

/// A body of kind `Compass` is that variant, with its payload's bytes.
proof fn lemma_body_compass(d: Seq<u8>, q: MessageModel)
    requires
        message_wf(q),
        message_kind(q) == MessageType::Compass,
        message_bytes(q) == d,
    ensures
        q matches MessageModel::Compass(x) && compass_bytes(x) == d,
{
}

/// A body of kind `Orientation` is that variant, with its payload's bytes.
proof fn lemma_body_orientation(d: Seq<u8>, q: MessageModel)
    requires
        message_wf(q),
        message_kind(q) == MessageType::Orientation,
        message_bytes(q) == d,
    ensures
        q matches MessageModel::Orientation(x) && orientation_bytes(x) == d,
{
}

/// A body of kind `PairedIdentityStateChanged` is that variant, with its payload's bytes.
proof fn lemma_body_pairedidentitystatechanged(d: Seq<u8>, q: MessageModel)
    requires
        message_wf(q),
        message_kind(q) == MessageType::PairedIdentityStateChanged,
        message_bytes(q) == d,
    ensures
        q matches MessageModel::PairedIdentityStateChanged(x) && paired_identity_state_changed_bytes(x) == d,
{
}

/// A body of kind `Unsnap` is that variant, with its payload's bytes.
proof fn lemma_body_unsnap(d: Seq<u8>, q: MessageModel)
    requires
        message_wf(q),
        message_kind(q) == MessageType::Unsnap,
        message_bytes(q) == d,
    ensures
        q matches MessageModel::Unsnap(x) && unsnap_bytes(x) == d,
{
}

/// A body of kind `GameDvrRecord` is that variant, with its payload's bytes.
proof fn lemma_body_gamedvrrecord(d: Seq<u8>, q: MessageModel)
    requires
        message_wf(q),
        message_kind(q) == MessageType::GameDvrRecord,
        message_bytes(q) == d,
    ensures
        q matches MessageModel::GameDvrRecord(x) && game_dvr_record_bytes(x) == d,
{
}

/// A body of kind `PowerOff` is that variant, with its payload's bytes.
proof fn lemma_body_poweroff(d: Seq<u8>, q: MessageModel)
    requires
        message_wf(q),
        message_kind(q) == MessageType::PowerOff,
        message_bytes(q) == d,
    ensures
        q matches MessageModel::PowerOff(x) && power_off_bytes(x) == d && power_off_wf(x),
{
}

/// A body of kind `MediaControllerRemoved` is that variant, with its payload's bytes.
proof fn lemma_body_mediacontrollerremoved(d: Seq<u8>, q: MessageModel)
    requires
        message_wf(q),
        message_kind(q) == MessageType::MediaControllerRemoved,
        message_bytes(q) == d,
    ensures
        q matches MessageModel::MediaControllerRemoved(x) && media_controller_removed_bytes(x) == d,
{
}

/// A body of kind `MediaCommand` is that variant, with its payload's bytes.
proof fn lemma_body_mediacommand(d: Seq<u8>, q: MessageModel)
    requires
        message_wf(q),
        message_kind(q) == MessageType::MediaCommand,
        message_bytes(q) == d,
    ensures
        q matches MessageModel::MediaCommand(x) && media_command_bytes(x) == d,
{
}

/// A body of kind `MediaCommandResult` is that variant, with its payload's bytes.
proof fn lemma_body_mediacommandresult(d: Seq<u8>, q: MessageModel)
    requires
        message_wf(q),
        message_kind(q) == MessageType::MediaCommandResult,
        message_bytes(q) == d,
    ensures
        q matches MessageModel::MediaCommandResult(x) && media_command_result_bytes(x) == d,
{
}

/// A body of kind `MediaState` is that variant, with its payload's bytes.
proof fn lemma_body_mediastate(d: Seq<u8>, q: MessageModel)
    requires
        message_wf(q),
        message_kind(q) == MessageType::MediaState,
        message_bytes(q) == d,
    ensures
        q matches MessageModel::MediaState(x) && media_state_bytes(x) == d && media_state_wf(x),
{
}

/// A body of kind `Gamepad` is that variant, with its payload's bytes.
proof fn lemma_body_gamepad(d: Seq<u8>, q: MessageModel)
    requires
        message_wf(q),
        message_kind(q) == MessageType::Gamepad,
        message_bytes(q) == d,
    ensures
        q matches MessageModel::Gamepad(x) && gamepad_bytes(x) == d,
{
}

/// A body of kind `SystemTextConfiguration` is that variant, with its payload's bytes.
proof fn lemma_body_systemtextconfiguration(d: Seq<u8>, q: MessageModel)
    requires
        message_wf(q),
        message_kind(q) == MessageType::SystemTextConfiguration,
        message_bytes(q) == d,
    ensures
        q matches MessageModel::SystemTextConfiguration(x) && text_configuration_bytes(x) == d && text_configuration_wf(x),
{
}

/// A body of kind `SystemTextInput` is that variant, with its payload's bytes.
proof fn lemma_body_systemtextinput(d: Seq<u8>, q: MessageModel)
    requires
        message_wf(q),
        message_kind(q) == MessageType::SystemTextInput,
        message_bytes(q) == d,
    ensures
        q matches MessageModel::SystemTextInput(x) && system_text_input_bytes(x) == d && system_text_input_wf(x),
{
}

/// A body of kind `SystemTouch` is that variant, with its payload's bytes.
proof fn lemma_body_systemtouch(d: Seq<u8>, q: MessageModel)
    requires
        message_wf(q),
        message_kind(q) == MessageType::SystemTouch,
        message_bytes(q) == d,
    ensures
        q matches MessageModel::SystemTouch(x) && touch_bytes(x) == d && touch_wf(x),
{
}

/// A body of kind `SystemTextAcknowledge` is that variant, with its payload's bytes.
proof fn lemma_body_systemtextacknowledge(d: Seq<u8>, q: MessageModel)
    requires
        message_wf(q),
        message_kind(q) == MessageType::SystemTextAcknowledge,
        message_bytes(q) == d,
    ensures
        q matches MessageModel::SystemTextAcknowledge(x) && system_text_acknowledge_bytes(x) == d,
{
}

/// A body of kind `SystemTextDone` is that variant, with its payload's bytes.
proof fn lemma_body_systemtextdone(d: Seq<u8>, q: MessageModel)
    requires
        message_wf(q),
        message_kind(q) == MessageType::SystemTextDone,
        message_bytes(q) == d,
    ensures
        q matches MessageModel::SystemTextDone(x) && system_text_done_bytes(x) == d,
{
}

/// One quarter of the message kind dispatch.
#[verifier::rlimit(100)]
#[verifier::spinoff_prover]
fn parse_message_body_0(kind: MessageType, d: &[u8]) -> (r: Result<Message, FieldError>)
    requires
        kind == MessageType::Acknowledge || kind == MessageType::Json || kind == MessageType::TitleTextSelection || kind == MessageType::StopChannel || kind == MessageType::Gyrometer || kind == MessageType::PairedIdentityStateChanged || kind == MessageType::MediaControllerRemoved || kind == MessageType::Gamepad || kind == MessageType::SystemTextAcknowledge,
    ensures
        r matches Ok(m) ==> message_wf(m@) && message_kind(m@) == kind && message_bytes(m@)
            == d@,
        forall|q: MessageModel|
            (message_wf(q) && message_kind(q) == kind && #[trigger] message_bytes(q) == d@)
                ==> (r matches Ok(m) && m@ == q),
{
    match kind {
        MessageType::Acknowledge => {
            let r2 = parse_acknowledge(d);
            proof {
                assert forall|q: MessageModel|
                    (message_wf(q) && message_kind(q) == kind && message_bytes(q) == d@) implies (
                r2 matches Ok(p) && MessageModel::Acknowledge(p@) == q) by {
                    lemma_body_acknowledge(d@, q);
                }
            }
            match r2 {
                Ok(p) => Ok(Message::Acknowledge(p)),
                Err(e) => Err(e),
            }
        },
        MessageType::Json => {
            let r2 = parse_json(d);
            proof {
                assert forall|q: MessageModel|
                    (message_wf(q) && message_kind(q) == kind && message_bytes(q) == d@) implies (
                r2 matches Ok(p) && MessageModel::Json(p@) == q) by {
                    lemma_body_json(d@, q);
                }
            }
            match r2 {
                Ok(p) => Ok(Message::Json(p)),
                Err(e) => Err(e),
            }
        },
        MessageType::TitleTextSelection => {
            let r2 = parse_title_text_selection(d);
            proof {
                assert forall|q: MessageModel|
                    (message_wf(q) && message_kind(q) == kind && message_bytes(q) == d@) implies (
                r2 matches Ok(p) && MessageModel::TitleTextSelection(p) == q) by {
                    lemma_body_titletextselection(d@, q);
                }
            }
            match r2 {
                Ok(p) => Ok(Message::TitleTextSelection(p)),
                Err(e) => Err(e),
            }
        },
        MessageType::StopChannel => {
            let r2 = parse_stop_channel(d);
            proof {
                assert forall|q: MessageModel|
                    (message_wf(q) && message_kind(q) == kind && message_bytes(q) == d@) implies (
                r2 matches Ok(p) && MessageModel::StopChannel(p) == q) by {
                    lemma_body_stopchannel(d@, q);
                }
            }
            match r2 {
                Ok(p) => Ok(Message::StopChannel(p)),
                Err(e) => Err(e),
            }
        },
        MessageType::Gyrometer => {
            let r2 = parse_gyrometer(d);
            proof {
                assert forall|q: MessageModel|
                    (message_wf(q) && message_kind(q) == kind && message_bytes(q) == d@) implies (
                r2 matches Ok(p) && MessageModel::Gyrometer(p) == q) by {
                    lemma_body_gyrometer(d@, q);
                }
            }
            match r2 {
                Ok(p) => Ok(Message::Gyrometer(p)),
                Err(e) => Err(e),
            }
        },
        MessageType::PairedIdentityStateChanged => {
            let r2 = parse_paired_identity_state_changed(d);
            proof {
                assert forall|q: MessageModel|
                    (message_wf(q) && message_kind(q) == kind && message_bytes(q) == d@) implies (
                r2 matches Ok(p) && MessageModel::PairedIdentityStateChanged(p) == q) by {
                    lemma_body_pairedidentitystatechanged(d@, q);
                }
            }
            match r2 {
                Ok(p) => Ok(Message::PairedIdentityStateChanged(p)),
                Err(e) => Err(e),
            }
        },
        MessageType::MediaControllerRemoved => {
            let r2 = parse_media_controller_removed(d);
            proof {
                assert forall|q: MessageModel|
                    (message_wf(q) && message_kind(q) == kind && message_bytes(q) == d@) implies (
                r2 matches Ok(p) && MessageModel::MediaControllerRemoved(p) == q) by {
                    lemma_body_mediacontrollerremoved(d@, q);
                }
            }
            match r2 {
                Ok(p) => Ok(Message::MediaControllerRemoved(p)),
                Err(e) => Err(e),
            }
        },
        MessageType::Gamepad => {
            let r2 = parse_gamepad(d);
            proof {
                assert forall|q: MessageModel|
                    (message_wf(q) && message_kind(q) == kind && message_bytes(q) == d@) implies (
                r2 matches Ok(p) && MessageModel::Gamepad(p) == q) by {
                    lemma_body_gamepad(d@, q);
                }
            }
            match r2 {
                Ok(p) => Ok(Message::Gamepad(p)),
                Err(e) => Err(e),
            }
        },
        MessageType::SystemTextAcknowledge => {
            let r2 = parse_system_text_acknowledge(d);
            proof {
                assert forall|q: MessageModel|
                    (message_wf(q) && message_kind(q) == kind && message_bytes(q) == d@) implies (
                r2 matches Ok(p) && MessageModel::SystemTextAcknowledge(p) == q) by {
                    lemma_body_systemtextacknowledge(d@, q);
                }
            }
            match r2 {
                Ok(p) => Ok(Message::SystemTextAcknowledge(p)),
                Err(e) => Err(e),
            }
        },
        _ => {
            proof {
                assert(false);
            }
            Err(FieldError::Unsupported)
        },
    }
}

/// One quarter of the message kind dispatch.
#[verifier::rlimit(100)]
#[verifier::spinoff_prover]
fn parse_message_body_1(kind: MessageType, d: &[u8]) -> (r: Result<Message, FieldError>)
    requires
        kind == MessageType::LocalJoin || kind == MessageType::ConsoleStatus || kind == MessageType::TitleLaunch || kind == MessageType::Disconnect || kind == MessageType::Inclinometer || kind == MessageType::Unsnap || kind == MessageType::MediaCommand || kind == MessageType::SystemTextConfiguration || kind == MessageType::SystemTextDone,
    ensures
        r matches Ok(m) ==> message_wf(m@) && message_kind(m@) == kind && message_bytes(m@)
            == d@,
        forall|q: MessageModel|
            (message_wf(q) && message_kind(q) == kind && #[trigger] message_bytes(q) == d@)
                ==> (r matches Ok(m) && m@ == q),
{
    match kind {
        MessageType::LocalJoin => {
            let r2 = parse_local_join(d);
            proof {
                assert forall|q: MessageModel|
                    (message_wf(q) && message_kind(q) == kind && message_bytes(q) == d@) implies (
                r2 matches Ok(p) && MessageModel::LocalJoin(p@) == q) by {
                    lemma_body_localjoin(d@, q);
                }
            }
            match r2 {
                Ok(p) => Ok(Message::LocalJoin(p)),
                Err(e) => Err(e),
            }
        },
        MessageType::ConsoleStatus => {
            let r2 = parse_console_status(d);
            proof {
                assert forall|q: MessageModel|
                    (message_wf(q) && message_kind(q) == kind && message_bytes(q) == d@) implies (
                r2 matches Ok(p) && MessageModel::ConsoleStatus(p@) == q) by {
                    lemma_body_consolestatus(d@, q);
                }
            }
            match r2 {
                Ok(p) => Ok(Message::ConsoleStatus(p)),
                Err(e) => Err(e),
            }
        },
        MessageType::TitleLaunch => {
            let r2 = parse_title_launch(d);
            proof {
                assert forall|q: MessageModel|
                    (message_wf(q) && message_kind(q) == kind && message_bytes(q) == d@) implies (
                r2 matches Ok(p) && MessageModel::TitleLaunch(p@) == q) by {
                    lemma_body_titlelaunch(d@, q);
                }
            }
            match r2 {
                Ok(p) => Ok(Message::TitleLaunch(p)),
                Err(e) => Err(e),
            }
        },
        MessageType::Disconnect => {
            let r2 = parse_disconnect(d);
            proof {
                assert forall|q: MessageModel|
                    (message_wf(q) && message_kind(q) == kind && message_bytes(q) == d@) implies (
                r2 matches Ok(p) && MessageModel::Disconnect(p) == q) by {
                    lemma_body_disconnect(d@, q);
                }
            }
            match r2 {
                Ok(p) => Ok(Message::Disconnect(p)),
                Err(e) => Err(e),
            }
        },
        MessageType::Inclinometer => {
            let r2 = parse_inclinometer(d);
            proof {
                assert forall|q: MessageModel|
                    (message_wf(q) && message_kind(q) == kind && message_bytes(q) == d@) implies (
                r2 matches Ok(p) && MessageModel::Inclinometer(p) == q) by {
                    lemma_body_inclinometer(d@, q);
                }
            }
            match r2 {
                Ok(p) => Ok(Message::Inclinometer(p)),
                Err(e) => Err(e),
            }
        },
        MessageType::Unsnap => {
            let r2 = parse_unsnap(d);
            proof {
                assert forall|q: MessageModel|
                    (message_wf(q) && message_kind(q) == kind && message_bytes(q) == d@) implies (
                r2 matches Ok(p) && MessageModel::Unsnap(p) == q) by {
                    lemma_body_unsnap(d@, q);
                }
            }
            match r2 {
                Ok(p) => Ok(Message::Unsnap(p)),
                Err(e) => Err(e),
            }
        },
        MessageType::MediaCommand => {
            let r2 = parse_media_command(d);
            proof {
                assert forall|q: MessageModel|
                    (message_wf(q) && message_kind(q) == kind && message_bytes(q) == d@) implies (
                r2 matches Ok(p) && MessageModel::MediaCommand(p) == q) by {
                    lemma_body_mediacommand(d@, q);
                }
            }
            match r2 {
                Ok(p) => Ok(Message::MediaCommand(p)),
                Err(e) => Err(e),
            }
        },
        MessageType::SystemTextConfiguration => {
            let r2 = parse_text_configuration(d);
            proof {
                assert forall|q: MessageModel|
                    (message_wf(q) && message_kind(q) == kind && message_bytes(q) == d@) implies (
                r2 matches Ok(p) && MessageModel::SystemTextConfiguration(p@) == q) by {
                    lemma_body_systemtextconfiguration(d@, q);
                }
            }
            match r2 {
                Ok(p) => Ok(Message::SystemTextConfiguration(p)),
                Err(e) => Err(e),
            }
        },
        MessageType::SystemTextDone => {
            let r2 = parse_system_text_done(d);
            proof {
                assert forall|q: MessageModel|
                    (message_wf(q) && message_kind(q) == kind && message_bytes(q) == d@) implies (
                r2 matches Ok(p) && MessageModel::SystemTextDone(p) == q) by {
                    lemma_body_systemtextdone(d@, q);
                }
            }
            match r2 {
                Ok(p) => Ok(Message::SystemTextDone(p)),
                Err(e) => Err(e),
            }
        },
        _ => {
            proof {
                assert(false);
            }
            Err(FieldError::Unsupported)
        },
    }
}

/// One quarter of the message kind dispatch.
#[verifier::rlimit(100)]
#[verifier::spinoff_prover]
fn parse_message_body_2(kind: MessageType, d: &[u8]) -> (r: Result<Message, FieldError>)
    requires
        kind == MessageType::AuxiliaryStream || kind == MessageType::TitleTextConfiguration || kind == MessageType::StartChannelRequest || kind == MessageType::TitleTouch || kind == MessageType::Compass || kind == MessageType::GameDvrRecord || kind == MessageType::MediaCommandResult || kind == MessageType::SystemTextInput,
    ensures
        r matches Ok(m) ==> message_wf(m@) && message_kind(m@) == kind && message_bytes(m@)
            == d@,
        forall|q: MessageModel|
            (message_wf(q) && message_kind(q) == kind && #[trigger] message_bytes(q) == d@)
                ==> (r matches Ok(m) && m@ == q),
{
    match kind {
        MessageType::AuxiliaryStream => {
            let r2 = parse_auxiliary_stream(d);
            proof {
                assert forall|q: MessageModel|
                    (message_wf(q) && message_kind(q) == kind && message_bytes(q) == d@) implies (
                r2 matches Ok(p) && MessageModel::AuxiliaryStream(p@) == q) by {
                    lemma_body_auxiliarystream(d@, q);
                }
            }
            match r2 {
                Ok(p) => Ok(Message::AuxiliaryStream(p)),
                Err(e) => Err(e),
            }
        },
        MessageType::TitleTextConfiguration => {
            let r2 = parse_text_configuration(d);
            proof {
                assert forall|q: MessageModel|
                    (message_wf(q) && message_kind(q) == kind && message_bytes(q) == d@) implies (
                r2 matches Ok(p) && MessageModel::TitleTextConfiguration(p@) == q) by {
                    lemma_body_titletextconfiguration(d@, q);
                }
            }
            match r2 {
                Ok(p) => Ok(Message::TitleTextConfiguration(p)),
                Err(e) => Err(e),
            }
        },
        MessageType::StartChannelRequest => {
            let r2 = parse_start_channel_request(d);
            proof {
                assert forall|q: MessageModel|
                    (message_wf(q) && message_kind(q) == kind && message_bytes(q) == d@) implies (
                r2 matches Ok(p) && MessageModel::StartChannelRequest(p@) == q) by {
                    lemma_body_startchannelrequest(d@, q);
                }
            }
            match r2 {
                Ok(p) => Ok(Message::StartChannelRequest(p)),
                Err(e) => Err(e),
            }
        },
        MessageType::TitleTouch => {
            let r2 = parse_touch(d);
            proof {
                assert forall|q: MessageModel|
                    (message_wf(q) && message_kind(q) == kind && message_bytes(q) == d@) implies (
                r2 matches Ok(p) && MessageModel::TitleTouch(p@) == q) by {
                    lemma_body_titletouch(d@, q);
                }
            }
            match r2 {
                Ok(p) => Ok(Message::TitleTouch(p)),
                Err(e) => Err(e),
            }
        },
        MessageType::Compass => {
            let r2 = parse_compass(d);
            proof {
                assert forall|q: MessageModel|
                    (message_wf(q) && message_kind(q) == kind && message_bytes(q) == d@) implies (
                r2 matches Ok(p) && MessageModel::Compass(p) == q) by {
                    lemma_body_compass(d@, q);
                }
            }
            match r2 {
                Ok(p) => Ok(Message::Compass(p)),
                Err(e) => Err(e),
            }
        },
        MessageType::GameDvrRecord => {
            let r2 = parse_game_dvr_record(d);
            proof {
                assert forall|q: MessageModel|
                    (message_wf(q) && message_kind(q) == kind && message_bytes(q) == d@) implies (
                r2 matches Ok(p) && MessageModel::GameDvrRecord(p) == q) by {
                    lemma_body_gamedvrrecord(d@, q);
                }
            }
            match r2 {
                Ok(p) => Ok(Message::GameDvrRecord(p)),
                Err(e) => Err(e),
            }
        },
        MessageType::MediaCommandResult => {
            let r2 = parse_media_command_result(d);
            proof {
                assert forall|q: MessageModel|
                    (message_wf(q) && message_kind(q) == kind && message_bytes(q) == d@) implies (
                r2 matches Ok(p) && MessageModel::MediaCommandResult(p) == q) by {
                    lemma_body_mediacommandresult(d@, q);
                }
            }
            match r2 {
                Ok(p) => Ok(Message::MediaCommandResult(p)),
                Err(e) => Err(e),
            }
        },
        MessageType::SystemTextInput => {
            let r2 = parse_system_text_input(d);
            proof {
                assert forall|q: MessageModel|
                    (message_wf(q) && message_kind(q) == kind && message_bytes(q) == d@) implies (
                r2 matches Ok(p) && MessageModel::SystemTextInput(p@) == q) by {
                    lemma_body_systemtextinput(d@, q);
                }
            }
            match r2 {
                Ok(p) => Ok(Message::SystemTextInput(p)),
                Err(e) => Err(e),
            }
        },
        _ => {
            proof {
                assert(false);
            }
            Err(FieldError::Unsupported)
        },
    }
}

/// One quarter of the message kind dispatch.
#[verifier::rlimit(100)]
#[verifier::spinoff_prover]
fn parse_message_body_3(kind: MessageType, d: &[u8]) -> (r: Result<Message, FieldError>)
    requires
        kind == MessageType::ActiveSurfaceChange || kind == MessageType::TitleTextInput || kind == MessageType::StartChannelResponse || kind == MessageType::Accelerometer || kind == MessageType::Orientation || kind == MessageType::PowerOff || kind == MessageType::MediaState || kind == MessageType::SystemTouch,
    ensures
        r matches Ok(m) ==> message_wf(m@) && message_kind(m@) == kind && message_bytes(m@)
            == d@,
        forall|q: MessageModel|
            (message_wf(q) && message_kind(q) == kind && #[trigger] message_bytes(q) == d@)
                ==> (r matches Ok(m) && m@ == q),
{
    match kind {
        MessageType::ActiveSurfaceChange => {
            let r2 = parse_active_surface_change(d);
            proof {
                assert forall|q: MessageModel|
                    (message_wf(q) && message_kind(q) == kind && message_bytes(q) == d@) implies (
                r2 matches Ok(p) && MessageModel::ActiveSurfaceChange(p@) == q) by {
                    lemma_body_activesurfacechange(d@, q);
                }
            }
            match r2 {
                Ok(p) => Ok(Message::ActiveSurfaceChange(p)),
                Err(e) => Err(e),
            }
        },
        MessageType::TitleTextInput => {
            let r2 = parse_title_text_input(d);
            proof {
                assert forall|q: MessageModel|
                    (message_wf(q) && message_kind(q) == kind && message_bytes(q) == d@) implies (
                r2 matches Ok(p) && MessageModel::TitleTextInput(p@) == q) by {
                    lemma_body_titletextinput(d@, q);
                }
            }
            match r2 {
                Ok(p) => Ok(Message::TitleTextInput(p)),
                Err(e) => Err(e),
            }
        },
        MessageType::StartChannelResponse => {
            let r2 = parse_start_channel_response(d);
            proof {
                assert forall|q: MessageModel|
                    (message_wf(q) && message_kind(q) == kind && message_bytes(q) == d@) implies (
                r2 matches Ok(p) && MessageModel::StartChannelResponse(p) == q) by {
                    lemma_body_startchannelresponse(d@, q);
                }
            }
            match r2 {
                Ok(p) => Ok(Message::StartChannelResponse(p)),
                Err(e) => Err(e),
            }
        },
        MessageType::Accelerometer => {
            let r2 = parse_accelerometer(d);
            proof {
                assert forall|q: MessageModel|
                    (message_wf(q) && message_kind(q) == kind && message_bytes(q) == d@) implies (
                r2 matches Ok(p) && MessageModel::Accelerometer(p) == q) by {
                    lemma_body_accelerometer(d@, q);
                }
            }
            match r2 {
                Ok(p) => Ok(Message::Accelerometer(p)),
                Err(e) => Err(e),
            }
        },
        MessageType::Orientation => {
            let r2 = parse_orientation(d);
            proof {
                assert forall|q: MessageModel|
                    (message_wf(q) && message_kind(q) == kind && message_bytes(q) == d@) implies (
                r2 matches Ok(p) && MessageModel::Orientation(p) == q) by {
                    lemma_body_orientation(d@, q);
                }
            }
            match r2 {
                Ok(p) => Ok(Message::Orientation(p)),
                Err(e) => Err(e),
            }
        },
        MessageType::PowerOff => {
            let r2 = parse_power_off(d);
            proof {
                assert forall|q: MessageModel|
                    (message_wf(q) && message_kind(q) == kind && message_bytes(q) == d@) implies (
                r2 matches Ok(p) && MessageModel::PowerOff(p@) == q) by {
                    lemma_body_poweroff(d@, q);
                }
            }
            match r2 {
                Ok(p) => Ok(Message::PowerOff(p)),
                Err(e) => Err(e),
            }
        },
        MessageType::MediaState => {
            let r2 = parse_media_state(d);
            proof {
                assert forall|q: MessageModel|
                    (message_wf(q) && message_kind(q) == kind && message_bytes(q) == d@) implies (
                r2 matches Ok(p) && MessageModel::MediaState(p@) == q) by {
                    lemma_body_mediastate(d@, q);
                }
            }
            match r2 {
                Ok(p) => Ok(Message::MediaState(p)),
                Err(e) => Err(e),
            }
        },
        MessageType::SystemTouch => {
            let r2 = parse_touch(d);
            proof {
                assert forall|q: MessageModel|
                    (message_wf(q) && message_kind(q) == kind && message_bytes(q) == d@) implies (
                r2 matches Ok(p) && MessageModel::SystemTouch(p@) == q) by {
                    lemma_body_systemtouch(d@, q);
                }
            }
            match r2 {
                Ok(p) => Ok(Message::SystemTouch(p)),
                Err(e) => Err(e),
            }
        },
        _ => {
            proof {
                assert(false);
            }
            Err(FieldError::Unsupported)
        },
    }
}

/// Reads the payload of the given message kind from a whole plaintext
/// region; kinds that carry no payload are refused.
#[verifier::rlimit(100)]
#[verifier::spinoff_prover]
pub fn parse_message_body(kind: MessageType, d: &[u8]) -> (r: Result<Message, FieldError>)
    ensures
        r matches Ok(m) ==> message_wf(m@) && message_kind(m@) == kind && message_bytes(m@)
            == d@,
        forall|q: MessageModel|
            (message_wf(q) && message_kind(q) == kind && #[trigger] message_bytes(q) == d@)
                ==> (r matches Ok(m) && m@ == q),
{
    match kind {
        MessageType::Acknowledge => parse_message_body_0(kind, d),
        MessageType::LocalJoin => parse_message_body_1(kind, d),
        MessageType::AuxiliaryStream => parse_message_body_2(kind, d),
        MessageType::ActiveSurfaceChange => parse_message_body_3(kind, d),
        MessageType::Json => parse_message_body_0(kind, d),
        MessageType::ConsoleStatus => parse_message_body_1(kind, d),
        MessageType::TitleTextConfiguration => parse_message_body_2(kind, d),
        MessageType::TitleTextInput => parse_message_body_3(kind, d),
        MessageType::TitleTextSelection => parse_message_body_0(kind, d),
        MessageType::TitleLaunch => parse_message_body_1(kind, d),
        MessageType::StartChannelRequest => parse_message_body_2(kind, d),
        MessageType::StartChannelResponse => parse_message_body_3(kind, d),
        MessageType::StopChannel => parse_message_body_0(kind, d),
        MessageType::Disconnect => parse_message_body_1(kind, d),
        MessageType::TitleTouch => parse_message_body_2(kind, d),
        MessageType::Accelerometer => parse_message_body_3(kind, d),
        MessageType::Gyrometer => parse_message_body_0(kind, d),
        MessageType::Inclinometer => parse_message_body_1(kind, d),
        MessageType::Compass => parse_message_body_2(kind, d),
        MessageType::Orientation => parse_message_body_3(kind, d),
        MessageType::PairedIdentityStateChanged => parse_message_body_0(kind, d),
        MessageType::Unsnap => parse_message_body_1(kind, d),
        MessageType::GameDvrRecord => parse_message_body_2(kind, d),
        MessageType::PowerOff => parse_message_body_3(kind, d),
        MessageType::MediaControllerRemoved => parse_message_body_0(kind, d),
        MessageType::MediaCommand => parse_message_body_1(kind, d),
        MessageType::MediaCommandResult => parse_message_body_2(kind, d),
        MessageType::MediaState => parse_message_body_3(kind, d),
        MessageType::Gamepad => parse_message_body_0(kind, d),
        MessageType::SystemTextConfiguration => parse_message_body_1(kind, d),
        MessageType::SystemTextInput => parse_message_body_2(kind, d),
        MessageType::SystemTouch => parse_message_body_3(kind, d),
        MessageType::SystemTextAcknowledge => parse_message_body_0(kind, d),
        MessageType::SystemTextDone => parse_message_body_1(kind, d),
        MessageType::Null => {
            proof {
                assert forall|q: MessageModel|
                    !(message_wf(q) && message_kind(q) == kind && message_bytes(q) == d@) by {}
            }
            Err(FieldError::Unsupported)
        },
        MessageType::Group => {
            proof {
                assert forall|q: MessageModel|
                    !(message_wf(q) && message_kind(q) == kind && message_bytes(q) == d@) by {}
            }
            Err(FieldError::Unsupported)
        },
        MessageType::StopActivity => {
            proof {
                assert forall|q: MessageModel|
                    !(message_wf(q) && message_kind(q) == kind && message_bytes(q) == d@) by {}
            }
            Err(FieldError::Unsupported)
        },
        MessageType::Navigate => {
            proof {
                assert forall|q: MessageModel|
                    !(message_wf(q) && message_kind(q) == kind && message_bytes(q) == d@) by {}
            }
            Err(FieldError::Unsupported)
        },
        MessageType::Tunnel => {
            proof {
                assert forall|q: MessageModel|
                    !(message_wf(q) && message_kind(q) == kind && message_bytes(q) == d@) by {}
            }
            Err(FieldError::Unsupported)
        },
        MessageType::MirroringRequest => {
            proof {
                assert forall|q: MessageModel|
                    !(message_wf(q) && message_kind(q) == kind && message_bytes(q) == d@) by {}
            }
            Err(FieldError::Unsupported)
        },
        MessageType::System => {
            proof {
                assert forall|q: MessageModel|
                    !(message_wf(q) && message_kind(q) == kind && message_bytes(q) == d@) by {}
            }
            Err(FieldError::Unsupported)
        },
    }
}

/// Appends the payload bytes of a body; fails exactly when the body is
/// not writable.
#[verifier::rlimit(100)]
#[verifier::spinoff_prover]
pub fn write_message_body(out: &mut Vec<u8>, m: &Message) -> (r: Result<(), FieldError>)
    ensures
        r is Ok <==> message_writable(m@),
        r is Ok ==> final(out)@ =~= old(out)@ + message_bytes(m@),
        r is Err ==> final(out)@ == old(out)@,
        r matches Err(e) ==> e == FieldError::Oversize || e == FieldError::Unsupported,
{
    match m {
        Message::Null => Err(FieldError::Unsupported),
        Message::Acknowledge(x) => write_acknowledge(out, x),
        Message::Group => Err(FieldError::Unsupported),
        Message::LocalJoin(x) => write_local_join(out, x),
        Message::StopActivity => Err(FieldError::Unsupported),
        Message::AuxiliaryStream(x) => write_auxiliary_stream(out, x),
        Message::ActiveSurfaceChange(x) => {
            write_active_surface_change(out, x);
            Ok(())
        },
        Message::Navigate => Err(FieldError::Unsupported),
        Message::Json(x) => write_json(out, x),
        Message::Tunnel => Err(FieldError::Unsupported),
        Message::ConsoleStatus(x) => write_console_status(out, x),
        Message::TitleTextConfiguration(x) => write_text_configuration(out, x),
        Message::TitleTextInput(x) => write_title_text_input(out, x),
        Message::TitleTextSelection(x) => {
            write_title_text_selection(out, x);
            Ok(())
        },
        Message::MirroringRequest => Err(FieldError::Unsupported),
        Message::TitleLaunch(x) => write_title_launch(out, x),
        Message::StartChannelRequest(x) => {
            write_start_channel_request(out, x);
            Ok(())
        },
        Message::StartChannelResponse(x) => {
            write_start_channel_response(out, x);
            Ok(())
        },
        Message::StopChannel(x) => {
            write_stop_channel(out, x);
            Ok(())
        },
        Message::System => Err(FieldError::Unsupported),
        Message::Disconnect(x) => {
            write_disconnect(out, x);
            Ok(())
        },
        Message::TitleTouch(x) => write_touch(out, x),
        Message::Accelerometer(x) => {
            write_accelerometer(out, x);
            Ok(())
        },
        Message::Gyrometer(x) => {
            write_gyrometer(out, x);
            Ok(())
        },
        Message::Inclinometer(x) => {
            write_inclinometer(out, x);
            Ok(())
        },
        Message::Compass(x) => {
            write_compass(out, x);
            Ok(())
        },
        Message::Orientation(x) => {
            write_orientation(out, x);
            Ok(())
        },
        Message::PairedIdentityStateChanged(x) => {
            write_paired_identity_state_changed(out, x);
            Ok(())
        },
        Message::Unsnap(x) => {
            write_unsnap(out, x);
            Ok(())
        },
        Message::GameDvrRecord(x) => {
            write_game_dvr_record(out, x);
            Ok(())
        },
        Message::PowerOff(x) => write_power_off(out, x),
        Message::MediaControllerRemoved(x) => {
            write_media_controller_removed(out, x);
            Ok(())
        },
        Message::MediaCommand(x) => {
            write_media_command(out, x);
            Ok(())
        },
        Message::MediaCommandResult(x) => {
            write_media_command_result(out, x);
            Ok(())
        },
        Message::MediaState(x) => write_media_state(out, x),
        Message::Gamepad(x) => {
            write_gamepad(out, x);
            Ok(())
        },
        Message::SystemTextConfiguration(x) => write_text_configuration(out, x),
        Message::SystemTextInput(x) => write_system_text_input(out, x),
        Message::SystemTouch(x) => write_touch(out, x),
        Message::SystemTextAcknowledge(x) => {
            write_system_text_acknowledge(out, x);
            Ok(())
        },
        Message::SystemTextDone(x) => {
            write_system_text_done(out, x);
            Ok(())
        },
    }
}

impl Message {
    /// Whether this body belongs to the given message kind.
    pub fn kind_matches(&self, kind: MessageType) -> (r: bool)
        ensures
            r == (message_kind(self@) == kind),
    {
        let k = match self {
            Message::Null => MessageType::Null,
            Message::Acknowledge(_) => MessageType::Acknowledge,
            Message::Group => MessageType::Group,
            Message::LocalJoin(_) => MessageType::LocalJoin,
            Message::StopActivity => MessageType::StopActivity,
            Message::AuxiliaryStream(_) => MessageType::AuxiliaryStream,
            Message::ActiveSurfaceChange(_) => MessageType::ActiveSurfaceChange,
            Message::Navigate => MessageType::Navigate,
            Message::Json(_) => MessageType::Json,
            Message::Tunnel => MessageType::Tunnel,
            Message::ConsoleStatus(_) => MessageType::ConsoleStatus,
            Message::TitleTextConfiguration(_) => MessageType::TitleTextConfiguration,
            Message::TitleTextInput(_) => MessageType::TitleTextInput,
            Message::TitleTextSelection(_) => MessageType::TitleTextSelection,
            Message::MirroringRequest => MessageType::MirroringRequest,
            Message::TitleLaunch(_) => MessageType::TitleLaunch,
            Message::StartChannelRequest(_) => MessageType::StartChannelRequest,
            Message::StartChannelResponse(_) => MessageType::StartChannelResponse,
            Message::StopChannel(_) => MessageType::StopChannel,
            Message::System => MessageType::System,
            Message::Disconnect(_) => MessageType::Disconnect,
            Message::TitleTouch(_) => MessageType::TitleTouch,
            Message::Accelerometer(_) => MessageType::Accelerometer,
            Message::Gyrometer(_) => MessageType::Gyrometer,
            Message::Inclinometer(_) => MessageType::Inclinometer,
            Message::Compass(_) => MessageType::Compass,
            Message::Orientation(_) => MessageType::Orientation,
            Message::PairedIdentityStateChanged(_) => MessageType::PairedIdentityStateChanged,
            Message::Unsnap(_) => MessageType::Unsnap,
            Message::GameDvrRecord(_) => MessageType::GameDvrRecord,
            Message::PowerOff(_) => MessageType::PowerOff,
            Message::MediaControllerRemoved(_) => MessageType::MediaControllerRemoved,
            Message::MediaCommand(_) => MessageType::MediaCommand,
            Message::MediaCommandResult(_) => MessageType::MediaCommandResult,
            Message::MediaState(_) => MessageType::MediaState,
            Message::Gamepad(_) => MessageType::Gamepad,
            Message::SystemTextConfiguration(_) => MessageType::SystemTextConfiguration,
            Message::SystemTextInput(_) => MessageType::SystemTextInput,
            Message::SystemTouch(_) => MessageType::SystemTouch,
            Message::SystemTextAcknowledge(_) => MessageType::SystemTextAcknowledge,
            Message::SystemTextDone(_) => MessageType::SystemTextDone,
        };
        k == kind
    }
}


/// Whether a message kind has a payload shape; the carrier kinds that have
/// none cannot stand in a well-formed body.
pub open spec fn mtype_carries_payload(k: MessageType) -> bool {
    match k {
        MessageType::Null | MessageType::Group | MessageType::StopActivity | MessageType::Navigate
            | MessageType::Tunnel | MessageType::MirroringRequest | MessageType::System => false,
        _ => true,
    }
}

/// A well-formed body always belongs to a payload-carrying kind.
pub proof fn lemma_message_wf_carries(m: MessageModel)
    requires
        message_wf(m),
    ensures
        mtype_carries_payload(message_kind(m)),
{
}

impl MessageType {
    /// Whether this kind has a payload shape.
    pub fn carries_payload(&self) -> (r: bool)
        ensures
            r == mtype_carries_payload(*self),
    {
        match *self {
            MessageType::Null | MessageType::Group | MessageType::StopActivity
                | MessageType::Navigate | MessageType::Tunnel | MessageType::MirroringRequest
                | MessageType::System => false,
            _ => true,
        }
    }
}


// ---------------------------------------------------------------------------
// FragmentData
// ---------------------------------------------------------------------------
/// A fragment of a message split across datagrams: the sequence range it
/// covers and the carried bytes.
#[derive(Clone, Debug, PartialEq)]
pub struct FragmentData {
    pub sequence_begin: u32,
    pub sequence_end: u32,
    pub data: Vec<u8>,
}

/// The mathematical image of a `FragmentData` value.
pub ghost struct FragmentDataModel {
    pub sequence_begin: u32,
    pub sequence_end: u32,
    pub data: Seq<u8>,
}

impl View for FragmentData {
    type V = FragmentDataModel;

    open spec fn view(&self) -> FragmentDataModel {
        FragmentDataModel {
            sequence_begin: self.sequence_begin,
            sequence_end: self.sequence_end,
            data: self.data@,
        }
    }
}

/// A `FragmentData` image the wire can carry.
pub open spec fn fragment_wf(q: FragmentDataModel) -> bool {
    q.data.len() <= 0xFFFF
}

/// The wire image of a `FragmentData`.
pub open spec fn fragment_bytes(q: FragmentDataModel) -> Seq<u8> {
    be32(q.sequence_begin) + be32(q.sequence_end) + crate::util::blob_bytes(q.data)
}

/// The field regions of a `FragmentData` image standing as all of `d`.
pub proof fn lemma_fragment_parts(d: Seq<u8>, q: FragmentDataModel)
    requires
        fragment_wf(q),
        fragment_bytes(q) == d,
    ensures
        d.len() == 10 + q.data.len(),
        d.subrange(0, 4) =~= be32(q.sequence_begin),
        d.subrange(4, 8) =~= be32(q.sequence_end),
        crate::util::blob_at(d, 8, q.data, d.len() as int),
{
    assert(d.subrange(0, d.len() as int) =~= d);
    crate::bytes::lemma_region3(
        d,
        0,
        be32(q.sequence_begin),
        be32(q.sequence_end),
        crate::util::blob_bytes(q.data),
    );
}

/// Reads a whole `FragmentData` region.
#[verifier::rlimit(100)]
#[verifier::spinoff_prover]
pub fn parse_fragment(d: &[u8]) -> (r: Result<FragmentData, FieldError>)
    ensures
        r matches Ok(p) ==> fragment_wf(p@) && fragment_bytes(p@) == d@,
        forall|q: FragmentDataModel|
            (fragment_wf(q) && #[trigger] fragment_bytes(q) == d@) ==> (r matches Ok(p) && p@ == q),
{
    proof {
        assert forall|q: FragmentDataModel|
            fragment_wf(q) && fragment_bytes(q) == d@ implies d@.len() == 10 + q.data.len()
            && crate::util::blob_at(d@, 8, q.data, d@.len() as int) by {
            lemma_fragment_parts(d@, q);
        }
    }
    let (sequence_begin, p1) = match read_u32(d, 0) {
        Ok(v) => v,
        Err(e) => {
            return Err(e);
        },
    };
    let (sequence_end, p2) = match read_u32(d, p1) {
        Ok(v) => v,
        Err(e) => {
            return Err(e);
        },
    };
    let (data, p3) = match crate::util::read_blob(d, p2) {
        Ok(v) => v,
        Err(e) => {
            return Err(e);
        },
    };
    if p3 != d.len() {
        return Err(FieldError::Leftover);
    }
    let p = FragmentData { sequence_begin, sequence_end, data };
    proof {
        assert(fragment_bytes(p@) =~= d@);
        assert forall|q: FragmentDataModel|
            (fragment_wf(q) && fragment_bytes(q) == d@) implies p@ == q by {
            lemma_fragment_parts(d@, q);
            crate::bytes::lemma_be32_of(q.sequence_begin);
            crate::bytes::lemma_be32_of(q.sequence_end);
            assert(q.data == data@);
            assert(q == (FragmentDataModel { sequence_begin, sequence_end, data: data@ }));
        }
    }
    Ok(p)
}

/// Appends the wire image of a `FragmentData`.
pub fn write_fragment(out: &mut Vec<u8>, q: &FragmentData) -> (r: Result<(), FieldError>)
    ensures
        r is Ok <==> q@.data.len() <= 0xFFFF,
        r is Ok ==> final(out)@ =~= old(out)@ + fragment_bytes(q@),
        r is Err ==> final(out)@ == old(out)@,
        r matches Err(e) ==> e == FieldError::Oversize,
{
    if q.data.len() > 0xFFFF {
        return Err(FieldError::Oversize);
    }
    let mut tmp: Vec<u8> = Vec::new();
    write_u32(&mut tmp, q.sequence_begin);
    write_u32(&mut tmp, q.sequence_end);
    match crate::util::write_blob(&mut tmp, &q.data) {
        Ok(()) => (),
        Err(e) => {
            return Err(e);
        },
    }
    write_bytes(out, tmp.as_slice());
    Ok(())
}

} // verus!
