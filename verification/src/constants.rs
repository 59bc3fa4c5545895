//! Well-known service identifiers for channel requests.

use vstd::prelude::*;

use crate::util::UUID;

verus! {

/// The nil UUID.
pub fn none() -> (r: UUID)
    ensures
        r@ =~= Seq::new(16, |i: int| 0u8),
{
    let u = UUID::new([0u8; 16]);
    proof {
        assert(u@ =~= Seq::new(16, |i: int| 0u8));
    }
    u
}

/// The system input service.
pub fn system_input() -> (r: UUID)
    ensures
        r@ =~= seq![0xFAu8, 0x20u8, 0xB8u8, 0xCAu8, 0x66u8, 0xFBu8, 0x46u8, 0xE0u8, 0xADu8, 0xB6u8, 0x0Bu8, 0x97u8, 0x8Au8, 0x59u8, 0xD3u8, 0x5Fu8],
{
    UUID::new(
        [0xFA, 0x20, 0xB8, 0xCA, 0x66, 0xFB, 0x46, 0xE0, 0xAD, 0xB6, 0x0B, 0x97, 0x8A, 0x59, 0xD3,
            0x5F],
    )
}

/// The TV-remote input service.
pub fn system_input_tv_remote() -> (r: UUID)
    ensures
        r@ =~= seq![0xD4u8, 0x51u8, 0xE3u8, 0xB3u8, 0x60u8, 0xBBu8, 0x4Cu8, 0x71u8, 0xB3u8, 0xDBu8, 0xF9u8, 0x94u8, 0xB1u8, 0xACu8, 0xA3u8, 0xA7u8],
{
    UUID::new(
        [0xD4, 0x51, 0xE3, 0xB3, 0x60, 0xBB, 0x4C, 0x71, 0xB3, 0xDB, 0xF9, 0x94, 0xB1, 0xAC, 0xA3,
            0xA7],
    )
}

/// The media service.
pub fn system_media() -> (r: UUID)
    ensures
        r@ =~= seq![0x48u8, 0xA9u8, 0xCAu8, 0x24u8, 0xEBu8, 0x6Du8, 0x4Eu8, 0x12u8, 0x8Cu8, 0x43u8, 0xD5u8, 0x74u8, 0x69u8, 0xEDu8, 0xD3u8, 0xCDu8],
{
    UUID::new(
        [0x48, 0xA9, 0xCA, 0x24, 0xEB, 0x6D, 0x4E, 0x12, 0x8C, 0x43, 0xD5, 0x74, 0x69, 0xED, 0xD3,
            0xCD],
    )
}

/// The text entry service.
pub fn system_text() -> (r: UUID)
    ensures
        r@ =~= seq![0x7Au8, 0xF3u8, 0xE6u8, 0xA2u8, 0x48u8, 0x8Bu8, 0x40u8, 0xCBu8, 0xA9u8, 0x31u8, 0x79u8, 0xC0u8, 0x4Bu8, 0x7Du8, 0xA3u8, 0xA0u8],
{
    UUID::new(
        [0x7A, 0xF3, 0xE6, 0xA2, 0x48, 0x8B, 0x40, 0xCB, 0xA9, 0x31, 0x79, 0xC0, 0x4B, 0x7D, 0xA3,
            0xA0],
    )
}

/// The broadcast service.
pub fn system_broadcast() -> (r: UUID)
    ensures
        r@ =~= seq![0xB6u8, 0xA1u8, 0x17u8, 0xD8u8, 0xF5u8, 0xE2u8, 0x45u8, 0xD7u8, 0x86u8, 0x2Eu8, 0x8Fu8, 0xD8u8, 0xE3u8, 0x15u8, 0x64u8, 0x76u8],
{
    UUID::new(
        [0xB6, 0xA1, 0x17, 0xD8, 0xF5, 0xE2, 0x45, 0xD7, 0x86, 0x2E, 0x8F, 0xD8, 0xE3, 0x15, 0x64,
            0x76],
    )
}

} // verus!
