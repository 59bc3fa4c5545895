//! The protocol's small value types: length-prefixed null-terminated strings,
//! UUIDs in their byte and hyphenated-text wire forms, public keys, and the
//! X.509 certificate wrapper of the discovery response.

use vstd::prelude::*;

use crate::bytes::{
    be16, be16_of, lemma_be16_of, read_arr, read_u16, read_vec, write_bytes, write_u16, write_u8,
    FieldError,
};
use openssl::bn::BigNumContext;
use openssl::ec::{EcGroup, PointConversionForm};
use openssl::nid::Nid;
use openssl::x509::X509;

verus! {

use vstd::utf8::{encode_utf8, valid_utf8};

// ---------------------------------------------------------------------------
// SGString
// ---------------------------------------------------------------------------
/// A SmartGlass string: on the wire a 16-bit byte count, that many UTF-8
/// bytes, and one 0x00 terminator.  The count covers only the UTF-8 bytes.
#[derive(Clone, Debug, PartialEq)]
pub struct SGString {
    bytes: Vec<u8>,
}

impl View for SGString {
    type V = Seq<u8>;

    closed spec fn view(&self) -> Seq<u8> {
        self.bytes@
    }
}

/// A byte sequence that an `SGString` region may hold: it fits the 16-bit
/// count and is valid UTF-8.
#[verifier::opaque]
pub open spec fn sg_wf(s: Seq<u8>) -> bool {
    s.len() <= 0xFFFF && valid_utf8(s)
}

/// The wire image of an `SGString` whose UTF-8 bytes are `s`.
pub open spec fn sg_bytes(s: Seq<u8>) -> Seq<u8>
    recommends
        s.len() <= 0xFFFF,
{
    be16(s.len() as u16) + s + seq![0u8]
}

/// There is an `SGString` region at `pos` of `d` holding `t`, ending at `j`.
pub open spec fn sg_at(d: Seq<u8>, pos: int, t: Seq<u8>, j: int) -> bool {
    &&& 0 <= pos
    &&& sg_wf(t)
    &&& pos + sg_bytes(t).len() == j
    &&& j <= d.len()
    &&& d.subrange(pos, j) == sg_bytes(t)
}

/// Relies on `str::from_utf8` (via `String::from_utf8`): it accepts exactly
/// the valid UTF-8 byte sequences and returns the string they encode.
#[verifier::external_body]
fn utf8_to_string(v: Vec<u8>) -> (r: String)
    requires
        valid_utf8(v@),
    ensures
        encode_utf8(r@) == v@,
{
    match String::from_utf8(v) {
        Ok(s) => s,
        Err(_) => String::new(),
    }
}

/// Relies on `str::from_utf8`: it returns `Ok` exactly on valid UTF-8 input.
#[verifier::external_body]
fn check_utf8(v: &[u8]) -> (r: bool)
    ensures
        r == valid_utf8(v@),
{
    core::str::from_utf8(v).is_ok()
}

impl SGString {
    /// Wraps a Rust `String` as an `SGString`.
    pub fn from_str(string: String) -> (r: SGString)
        ensures
            r@ == encode_utf8(string@),
            valid_utf8(r@),
    {
        proof {
            vstd::utf8::encode_utf8_valid_utf8(string@);
        }
        SGString { bytes: string.as_str().as_bytes_vec() }
    }

    /// The string held, as a Rust `String`.
    pub fn to_str(&self) -> (r: String)
        requires
            valid_utf8(self@),
        ensures
            encode_utf8(r@) == self@,
    {
        utf8_to_string(self.bytes.clone())
    }

    /// The UTF-8 bytes held.
    pub fn value(&self) -> (r: &Vec<u8>)
        ensures
            r@ == self@,
    {
        &self.bytes
    }
}

/// Reads an `SGString` region at `pos`.
pub fn read_sgstring(d: &[u8], pos: usize) -> (r: Result<(SGString, usize), FieldError>)
    requires
        pos <= d@.len(),
    ensures
        r matches Ok((s, j)) ==> pos < j <= d@.len() && sg_at(d@, pos as int, s@, j as int),
        forall|t: Seq<u8>, j: int|
            #[trigger] sg_at(d@, pos as int, t, j) ==> (r matches Ok(p) && p.0@ == t && p.1 == j),
        r matches Err(e) ==> e == FieldError::Truncated || e == FieldError::Terminator || e
            == FieldError::Utf8,
{
    proof {
        reveal(sg_wf);
    }
    let (n, body) = match read_u16(d, pos) {
        Ok(v) => v,
        Err(e) => {
            proof {
                assert forall|t: Seq<u8>, j: int| !sg_at(d@, pos as int, t, j) by {}
            }
            return Err(e);
        },
    };
    let n: usize = n as usize;
    if d.len() - body < n + 1 {
        proof {
            assert forall|t: Seq<u8>, j: int| !sg_at(d@, pos as int, t, j) by {
                if sg_at(d@, pos as int, t, j) {
                    crate::bytes::lemma_mid(sg_bytes(t), be16(t.len() as u16), t, seq![0u8]);
                    assert(d@.subrange(pos as int, pos + 2) =~= sg_bytes(t).subrange(0, 2));
                    assert(t.len() == n);
                }
            }
        }
        return Err(FieldError::Truncated);
    }
    let (body_bytes, term_pos) = match read_vec(d, body, n) {
        Ok(v) => v,
        Err(_) => {
            return Err(FieldError::Truncated);
        },
    };
    let term = d[term_pos];
    let j = term_pos + 1;
    proof {
        assert forall|t: Seq<u8>, jj: int| #[trigger]
            sg_at(d@, pos as int, t, jj) implies t == body_bytes@ && jj == j as int by {
            crate::bytes::lemma_mid(sg_bytes(t), be16(t.len() as u16), t, seq![0u8]);
            assert(d@.subrange(pos as int, pos + 2) =~= sg_bytes(t).subrange(0, 2));
            assert(t.len() == n);
            assert(t =~= d@.subrange(pos + 2, pos + 2 + n));
        }
    }
    if term != 0 {
        proof {
            assert forall|t: Seq<u8>, jj: int| !sg_at(d@, pos as int, t, jj) by {
                if sg_at(d@, pos as int, t, jj) {
                    crate::bytes::lemma_mid(sg_bytes(t), be16(t.len() as u16), t, seq![0u8]);
                    assert(d@.subrange(pos as int, pos + 2) =~= sg_bytes(t).subrange(0, 2));
                    assert(t.len() == n);
                    assert(sg_bytes(t)[2 + t.len() as int] == 0u8);
                    assert(d@.subrange(pos as int, jj)[2 + t.len() as int] == d@[pos + 2 + t.len() as int]);
                }
            }
        }
        return Err(FieldError::Terminator);
    }
    if !check_utf8(body_bytes.as_slice()) {
        return Err(FieldError::Utf8);
    }
    let s = SGString { bytes: body_bytes };
    proof {
        lemma_be16_of(n as u16);
        assert(sg_bytes(s@) =~= d@.subrange(pos as int, j as int));
    }
    Ok((s, j))
}

/// Two `SGString` regions at the same place hold the same string.
pub proof fn lemma_sg_unique(d: Seq<u8>, pos: int, t1: Seq<u8>, j1: int, t2: Seq<u8>, j2: int)
    requires
        sg_at(d, pos, t1, j1),
        sg_at(d, pos, t2, j2),
    ensures
        t1 == t2,
        j1 == j2,
{
    reveal(sg_wf);
    crate::bytes::lemma_mid(sg_bytes(t1), be16(t1.len() as u16), t1, seq![0u8]);
    crate::bytes::lemma_mid(sg_bytes(t2), be16(t2.len() as u16), t2, seq![0u8]);
    assert(d.subrange(pos, pos + 2) =~= be16(t1.len() as u16)) by {
        assert forall|m: int| 0 <= m < 2 implies #[trigger] d.subrange(pos, pos + 2)[m] == be16(
            t1.len() as u16,
        )[m] by {
            assert(d.subrange(pos, j1)[m] == sg_bytes(t1)[m]);
            assert(sg_bytes(t1).subrange(0, 2)[m] == sg_bytes(t1)[m]);
        }
    }
    assert(d.subrange(pos, pos + 2) =~= be16(t2.len() as u16)) by {
        assert forall|m: int| 0 <= m < 2 implies #[trigger] d.subrange(pos, pos + 2)[m] == be16(
            t2.len() as u16,
        )[m] by {
            assert(d.subrange(pos, j2)[m] == sg_bytes(t2)[m]);
            assert(sg_bytes(t2).subrange(0, 2)[m] == sg_bytes(t2)[m]);
        }
    }
    crate::bytes::lemma_be16_of(t1.len() as u16);
    crate::bytes::lemma_be16_of(t2.len() as u16);
    assert(t1.len() == t2.len());
    assert(t1 =~= t2) by {
        assert forall|m: int| 0 <= m < t1.len() implies t1[m] == t2[m] by {
            assert(d.subrange(pos, j1)[2 + m] == sg_bytes(t1)[2 + m]);
            assert(d.subrange(pos, j2)[2 + m] == sg_bytes(t2)[2 + m]);
            assert(sg_bytes(t1).subrange(2, 2 + t1.len() as int)[m] == sg_bytes(t1)[2 + m]);
            assert(sg_bytes(t2).subrange(2, 2 + t2.len() as int)[m] == sg_bytes(t2)[2 + m]);
        }
    }
}

/// Two `SGString` regions standing back to back at `pos`.
pub open spec fn sg_pair_at(d: Seq<u8>, pos: int, t1: Seq<u8>, t2: Seq<u8>, j: int) -> bool {
    sg_at(d, pos, t1, pos + (sg_bytes(t1).len() as int)) && sg_at(
        d,
        pos + (sg_bytes(t1).len() as int),
        t2,
        j,
    )
}

/// Reads two consecutive `SGString` regions at `pos`.
pub fn read_sgstring_pair(d: &[u8], pos: usize) -> (r: Result<
    ((SGString, SGString), usize),
    FieldError,
>)
    requires
        pos <= d@.len(),
    ensures
        r matches Ok(((a, b), j)) ==> pos < j <= d@.len() && sg_pair_at(
            d@,
            pos as int,
            a@,
            b@,
            j as int,
        ),
        forall|t1: Seq<u8>, t2: Seq<u8>, j: int|
            #[trigger] sg_pair_at(d@, pos as int, t1, t2, j) ==> (r matches Ok(p) && p.0.0@ == t1
                && p.0.1@ == t2 && p.1 == j),
        r matches Err(e) ==> e == FieldError::Truncated || e == FieldError::Terminator || e
            == FieldError::Utf8,
{
    let (a, m) = match read_sgstring(d, pos) {
        Ok(v) => v,
        Err(e) => {
            proof {
                assert forall|t1: Seq<u8>, t2: Seq<u8>, j: int|
                    !sg_pair_at(d@, pos as int, t1, t2, j) by {
                    if sg_pair_at(d@, pos as int, t1, t2, j) {
                        assert(sg_at(d@, pos as int, t1, pos + (sg_bytes(t1).len() as int)));
                    }
                }
            }
            return Err(e);
        },
    };
    let (b, j) = match read_sgstring(d, m) {
        Ok(v) => v,
        Err(e) => {
            proof {
                assert forall|t1: Seq<u8>, t2: Seq<u8>, j: int|
                    !sg_pair_at(d@, pos as int, t1, t2, j) by {
                    if sg_pair_at(d@, pos as int, t1, t2, j) {
                        assert(sg_at(d@, pos as int, t1, pos + (sg_bytes(t1).len() as int)));
                        assert(t1 == a@);
                        assert(sg_at(d@, m as int, t2, pos + (sg_bytes(t1).len() as int) + (
                        sg_bytes(t2).len() as int)));
                    }
                }
            }
            return Err(e);
        },
    };
    proof {
        assert forall|t1: Seq<u8>, t2: Seq<u8>, jj: int| #[trigger]
            sg_pair_at(d@, pos as int, t1, t2, jj) implies t1 == a@ && t2 == b@ && jj == j as int by {
            assert(sg_at(d@, pos as int, t1, pos + (sg_bytes(t1).len() as int)));
            assert(t1 == a@);
            assert(sg_at(d@, m as int, t2, jj));
        }
        assert(sg_pair_at(d@, pos as int, a@, b@, j as int));
    }
    Ok(((a, b), j))
}

// ---------------------------------------------------------------------------
// UUID
// ---------------------------------------------------------------------------
/// A UUID, held as its 16 bytes in RFC 4122 order.  On the wire it appears
/// either as those raw bytes, or as a length-prefixed upper-case hyphenated
/// ASCII text.
#[derive(Clone, Copy, Debug, PartialEq, Eq)]
pub struct UUID {
    pub bytes: [u8; 16],
}

impl View for UUID {
    type V = Seq<u8>;

    open spec fn view(&self) -> Seq<u8> {
        self.bytes@
    }
}

impl UUID {
    /// Wraps 16 raw bytes.
    pub fn new(bytes: [u8; 16]) -> (r: UUID)
        ensures
            r@ == bytes@,
    {
        UUID { bytes }
    }
}

/// The ASCII code of one upper-case hexadecimal digit.
pub open spec fn hexu(n: int) -> u8
    recommends
        0 <= n < 16,
{
    if n < 10 {
        (0x30 + n) as u8
    } else {
        (0x37 + n) as u8
    }
}

/// The two upper-case hexadecimal digits of a byte.
pub open spec fn hex2(x: u8) -> Seq<u8> {
    seq![hexu(x as int / 16), hexu(x as int % 16)]
}

/// Which byte of the UUID the text position `i` belongs to.
pub open spec fn uuid_byte_ix(i: int) -> int {
    if i < 8 {
        i / 2
    } else if i < 14 {
        4 + (i - 9) / 2
    } else if i < 19 {
        6 + (i - 14) / 2
    } else if i < 24 {
        8 + (i - 19) / 2
    } else {
        10 + (i - 24) / 2
    }
}

/// Whether text position `i` carries the high nibble of its byte.
pub open spec fn uuid_hi(i: int) -> bool {
    if i < 8 {
        i % 2 == 0
    } else if i < 14 {
        i % 2 == 1
    } else if i < 19 {
        i % 2 == 0
    } else if i < 24 {
        i % 2 == 1
    } else {
        i % 2 == 0
    }
}

/// The byte at text position `i` of the canonical hyphenated form.
pub open spec fn uuid_text_char(u: Seq<u8>, i: int) -> u8
    recommends
        u.len() == 16,
        0 <= i < 36,
{
    if i == 8 || i == 13 || i == 18 || i == 23 {
        0x2Du8
    } else if uuid_hi(i) {
        hexu(u[uuid_byte_ix(i)] as int / 16)
    } else {
        hexu(u[uuid_byte_ix(i)] as int % 16)
    }
}

/// The 36 ASCII bytes of the canonical upper-case hyphenated form.
pub open spec fn uuid_text(u: Seq<u8>) -> Seq<u8>
    recommends
        u.len() == 16,
{
    Seq::new(36, |i: int| uuid_text_char(u, i))
}

/// The text wire form: a 16-bit count of 36, then the hyphenated ASCII.
pub open spec fn uuid_text_bytes(u: Seq<u8>) -> Seq<u8>
    recommends
        u.len() == 16,
{
    be16(36) + uuid_text(u)
}

/// There is a text-form UUID region at `pos` of `d` holding `u`, ending at `j`.
pub open spec fn uuid_text_at(d: Seq<u8>, pos: int, u: Seq<u8>, j: int) -> bool {
    &&& 0 <= pos
    &&& u.len() == 16
    &&& pos + 38 == j
    &&& j <= d.len()
    &&& d.subrange(pos, j) == uuid_text_bytes(u)
}

/// Where the text digits of byte `k` begin, within the 36-byte text.
pub open spec fn uuid_off(k: int) -> int {
    2 * k + if k >= 10 {
        4int
    } else if k >= 8 {
        3int
    } else if k >= 6 {
        2int
    } else if k >= 4 {
        1int
    } else {
        0int
    }
}

/// Each byte of the UUID stands at its place in the text.
pub proof fn lemma_uuid_text_parts(u: Seq<u8>)
    requires
        u.len() == 16,
    ensures
        uuid_text(u).len() == 36,
        forall|k: int|
            0 <= k < 16 ==> #[trigger] uuid_text(u).subrange(uuid_off(k), uuid_off(k) + 2) =~= hex2(
                u[k],
            ),
        uuid_text(u)[8] == 0x2Du8,
        uuid_text(u)[13] == 0x2Du8,
        uuid_text(u)[18] == 0x2Du8,
        uuid_text(u)[23] == 0x2Du8,
{
    assert forall|k: int| 0 <= k < 16 implies #[trigger] uuid_text(u).subrange(
        uuid_off(k),
        uuid_off(k) + 2,
    ) =~= hex2(u[k]) by {
        assert(uuid_byte_ix(uuid_off(k)) == k && uuid_hi(uuid_off(k)));
        assert(uuid_byte_ix(uuid_off(k) + 1) == k && !uuid_hi(uuid_off(k) + 1));
    }
}

/// All that a matching text-form region pins down: the count, the four
/// hyphens, and the digit pair of each byte.
pub proof fn lemma_uuid_pin(d: Seq<u8>, pos: int, t: Seq<u8>, j: int)
    requires
        uuid_text_at(d, pos, t, j),
    ensures
        t.len() == 16,
        pos + 38 <= d.len(),
        d.subrange(pos, pos + 2) =~= be16(36),
        forall|k: int|
            0 <= k < 16 ==> hex2(t[k]) =~= #[trigger] d.subrange(
                pos + 2 + uuid_off(k),
                pos + 2 + uuid_off(k) + 2,
            ),
        d[pos + 10] == 0x2Du8,
        d[pos + 15] == 0x2Du8,
        d[pos + 20] == 0x2Du8,
        d[pos + 25] == 0x2Du8,
{
    lemma_uuid_text_parts(t);
    assert(d.subrange(pos, pos + 2) =~= be16(36)) by {
        assert forall|m: int| 0 <= m < 2 implies d.subrange(pos, pos + 2)[m] == be16(36)[m] by {
            assert(d.subrange(pos, j)[m] == uuid_text_bytes(t)[m]);
        }
    }
    assert forall|k: int|
        0 <= k < 16 implies hex2(t[k]) =~= #[trigger] d.subrange(
        pos + 2 + uuid_off(k),
        pos + 2 + uuid_off(k) + 2,
    ) by {
        assert(uuid_text(t).subrange(uuid_off(k), uuid_off(k) + 2) =~= hex2(t[k]));
        assert forall|m: int| 0 <= m < 2 implies d.subrange(
            pos + 2 + uuid_off(k),
            pos + 2 + uuid_off(k) + 2,
        )[m] == hex2(t[k])[m] by {
            assert(d.subrange(pos, j)[2 + uuid_off(k) + m] == uuid_text_bytes(t)[2 + uuid_off(k)
                + m]);
            assert(uuid_text_bytes(t)[2 + uuid_off(k) + m] == uuid_text(t)[uuid_off(k) + m]);
            assert(uuid_text(t).subrange(uuid_off(k), uuid_off(k) + 2)[m] == uuid_text(
                t,
            )[uuid_off(k) + m]);
        }
    }
    assert(d[pos + 10] == uuid_text(t)[8]) by {
        assert(d.subrange(pos, j)[10] == uuid_text_bytes(t)[10]);
    }
    assert(d[pos + 15] == uuid_text(t)[13]) by {
        assert(d.subrange(pos, j)[15] == uuid_text_bytes(t)[15]);
    }
    assert(d[pos + 20] == uuid_text(t)[18]) by {
        assert(d.subrange(pos, j)[20] == uuid_text_bytes(t)[20]);
    }
    assert(d[pos + 25] == uuid_text(t)[23]) by {
        assert(d.subrange(pos, j)[25] == uuid_text_bytes(t)[25]);
    }
}

/// Decodes one upper-case hexadecimal digit.
fn hexv(c: u8) -> (r: Result<u8, FieldError>)
    ensures
        r matches Ok(v) ==> v < 16 && hexu(v as int) == c,
        forall|x: u8| x < 16 && hexu(x as int) == c ==> r == Ok::<u8, FieldError>(x),
        r matches Err(e) ==> e == FieldError::Uuid,
{
    if 0x30 <= c && c <= 0x39 {
        Ok(c - 0x30)
    } else if 0x41 <= c && c <= 0x46 {
        Ok(c - 0x37)
    } else {
        Err(FieldError::Uuid)
    }
}

/// Decodes the two hexadecimal digits at `p`.
fn hex_pair_at(d: &[u8], p: usize) -> (r: Result<u8, FieldError>)
    requires
        p + 2 <= d@.len(),
    ensures
        r matches Ok(v) ==> hex2(v) =~= d@.subrange(p as int, p + 2),
        forall|x: u8| hex2(x) == d@.subrange(p as int, p + 2) ==> r == Ok::<u8, FieldError>(x),
        r matches Err(e) ==> e == FieldError::Uuid,
{
    let hi = match hexv(d[p]) {
        Ok(v) => v,
        Err(e) => {
            proof {
                assert forall|x: u8| hex2(x) != d@.subrange(p as int, p + 2) by {
                    if hex2(x) == d@.subrange(p as int, p + 2) {
                        assert(hexu(x as int / 16) == d@[p as int]);
                    }
                }
            }
            return Err(e);
        },
    };
    let lo = match hexv(d[p + 1]) {
        Ok(v) => v,
        Err(e) => {
            proof {
                assert forall|x: u8| hex2(x) != d@.subrange(p as int, p + 2) by {
                    if hex2(x) == d@.subrange(p as int, p + 2) {
                        assert(hexu(x as int % 16) == d@[p + 1]);
                    }
                }
            }
            return Err(e);
        },
    };
    let v: u8 = hi * 16 + lo;
    proof {
        crate::bytes::lemma_digit(v as int, 16, hi as int, lo as int);
        assert(hex2(v) =~= d@.subrange(p as int, p + 2));
        assert forall|x: u8| hex2(x) == d@.subrange(p as int, p + 2) implies x == v by {
            assert(hexu(x as int / 16) == d@[p as int] && hexu(x as int % 16) == d@[p + 1]);
            vstd::arithmetic::div_mod::lemma_fundamental_div_mod(x as int, 16);
        }
    }
    Ok(v)
}

/// Reads a raw 16-byte UUID at `pos`.
pub fn read_uuid(d: &[u8], pos: usize) -> (r: Result<(UUID, usize), FieldError>)
    requires
        pos <= d@.len(),
    ensures
        r is Ok <==> pos + 16 <= d@.len(),
        r matches Ok((u, j)) ==> j == pos + 16 && u@ =~= d@.subrange(pos as int, j as int),
        r matches Err(e) ==> e == FieldError::Truncated,
{
    let (bytes, j) = match read_arr::<16>(d, pos) {
        Ok(v) => v,
        Err(e) => {
            return Err(e);
        },
    };
    Ok((UUID { bytes }, j))
}

/// Appends the raw 16 bytes of a UUID.
pub fn write_uuid(out: &mut Vec<u8>, u: &UUID)
    ensures
        final(out)@ =~= old(out)@ + u@,
{
    write_bytes(out, u.bytes.as_slice());
}

/// Reads a text-form UUID region at `pos`; only the canonical upper-case
/// hyphenated form is accepted.
#[verifier::rlimit(100)]
pub fn read_uuid_text(d: &[u8], pos: usize) -> (r: Result<(UUID, usize), FieldError>)
    requires
        pos <= d@.len(),
    ensures
        r matches Ok((u, j)) ==> uuid_text_at(d@, pos as int, u@, j as int),
        forall|t: Seq<u8>, j: int|
            #[trigger] uuid_text_at(d@, pos as int, t, j) ==> (r matches Ok(p) && p.0@ == t && p.1
                == j),
        r matches Err(e) ==> e == FieldError::Truncated || e == FieldError::Uuid,
{
    let (n, body) = match read_u16(d, pos) {
        Ok(v) => v,
        Err(e) => {
            proof {
                assert forall|t: Seq<u8>, j: int| !uuid_text_at(d@, pos as int, t, j) by {
                    if uuid_text_at(d@, pos as int, t, j) {
                        lemma_uuid_pin(d@, pos as int, t, j);
                    }
                }
            }
            return Err(e);
        },
    };
    if n != 36 || d.len() - body < 36 {
        proof {
            assert forall|t: Seq<u8>, j: int| !uuid_text_at(d@, pos as int, t, j) by {
                if uuid_text_at(d@, pos as int, t, j) {
                    lemma_uuid_pin(d@, pos as int, t, j);
                    crate::bytes::lemma_be16_of(36);
                }
            }
        }
        if n != 36 {
            return Err(FieldError::Uuid);
        }
        return Err(FieldError::Truncated);
    }
    if d[body + 8] != 0x2D || d[body + 13] != 0x2D || d[body + 18] != 0x2D || d[body + 23] != 0x2D {
        proof {
            assert forall|t: Seq<u8>, j: int| !uuid_text_at(d@, pos as int, t, j) by {
                if uuid_text_at(d@, pos as int, t, j) {
                    lemma_uuid_pin(d@, pos as int, t, j);
                }
            }
        }
        return Err(FieldError::Uuid);
    }
    let b0 = match hex_pair_at(d, body + 0) {
        Ok(v) => v,
        Err(e) => {
            proof {
                assert forall|t: Seq<u8>, j: int| !uuid_text_at(d@, pos as int, t, j) by {
                    if uuid_text_at(d@, pos as int, t, j) {
                        lemma_uuid_pin(d@, pos as int, t, j);
                        assert(hex2(t[0]) =~= d@.subrange(
                            pos + 2 + uuid_off(0),
                            pos + 2 + uuid_off(0) + 2,
                        ));
                    }
                }
            }
            return Err(e);
        },
    };
    let b1 = match hex_pair_at(d, body + 2) {
        Ok(v) => v,
        Err(e) => {
            proof {
                assert forall|t: Seq<u8>, j: int| !uuid_text_at(d@, pos as int, t, j) by {
                    if uuid_text_at(d@, pos as int, t, j) {
                        lemma_uuid_pin(d@, pos as int, t, j);
                        assert(hex2(t[1]) =~= d@.subrange(
                            pos + 2 + uuid_off(1),
                            pos + 2 + uuid_off(1) + 2,
                        ));
                    }
                }
            }
            return Err(e);
        },
    };
    let b2 = match hex_pair_at(d, body + 4) {
        Ok(v) => v,
        Err(e) => {
            proof {
                assert forall|t: Seq<u8>, j: int| !uuid_text_at(d@, pos as int, t, j) by {
                    if uuid_text_at(d@, pos as int, t, j) {
                        lemma_uuid_pin(d@, pos as int, t, j);
                        assert(hex2(t[2]) =~= d@.subrange(
                            pos + 2 + uuid_off(2),
                            pos + 2 + uuid_off(2) + 2,
                        ));
                    }
                }
            }
            return Err(e);
        },
    };
    let b3 = match hex_pair_at(d, body + 6) {
        Ok(v) => v,
        Err(e) => {
            proof {
                assert forall|t: Seq<u8>, j: int| !uuid_text_at(d@, pos as int, t, j) by {
                    if uuid_text_at(d@, pos as int, t, j) {
                        lemma_uuid_pin(d@, pos as int, t, j);
                        assert(hex2(t[3]) =~= d@.subrange(
                            pos + 2 + uuid_off(3),
                            pos + 2 + uuid_off(3) + 2,
                        ));
                    }
                }
            }
            return Err(e);
        },
    };
    let b4 = match hex_pair_at(d, body + 9) {
        Ok(v) => v,
        Err(e) => {
            proof {
                assert forall|t: Seq<u8>, j: int| !uuid_text_at(d@, pos as int, t, j) by {
                    if uuid_text_at(d@, pos as int, t, j) {
                        lemma_uuid_pin(d@, pos as int, t, j);
                        assert(hex2(t[4]) =~= d@.subrange(
                            pos + 2 + uuid_off(4),
                            pos + 2 + uuid_off(4) + 2,
                        ));
                    }
                }
            }
            return Err(e);
        },
    };
    let b5 = match hex_pair_at(d, body + 11) {
        Ok(v) => v,
        Err(e) => {
            proof {
                assert forall|t: Seq<u8>, j: int| !uuid_text_at(d@, pos as int, t, j) by {
                    if uuid_text_at(d@, pos as int, t, j) {
                        lemma_uuid_pin(d@, pos as int, t, j);
                        assert(hex2(t[5]) =~= d@.subrange(
                            pos + 2 + uuid_off(5),
                            pos + 2 + uuid_off(5) + 2,
                        ));
                    }
                }
            }
            return Err(e);
        },
    };
    let b6 = match hex_pair_at(d, body + 14) {
        Ok(v) => v,
        Err(e) => {
            proof {
                assert forall|t: Seq<u8>, j: int| !uuid_text_at(d@, pos as int, t, j) by {
                    if uuid_text_at(d@, pos as int, t, j) {
                        lemma_uuid_pin(d@, pos as int, t, j);
                        assert(hex2(t[6]) =~= d@.subrange(
                            pos + 2 + uuid_off(6),
                            pos + 2 + uuid_off(6) + 2,
                        ));
                    }
                }
            }
            return Err(e);
        },
    };
    let b7 = match hex_pair_at(d, body + 16) {
        Ok(v) => v,
        Err(e) => {
            proof {
                assert forall|t: Seq<u8>, j: int| !uuid_text_at(d@, pos as int, t, j) by {
                    if uuid_text_at(d@, pos as int, t, j) {
                        lemma_uuid_pin(d@, pos as int, t, j);
                        assert(hex2(t[7]) =~= d@.subrange(
                            pos + 2 + uuid_off(7),
                            pos + 2 + uuid_off(7) + 2,
                        ));
                    }
                }
            }
            return Err(e);
        },
    };
    let b8 = match hex_pair_at(d, body + 19) {
        Ok(v) => v,
        Err(e) => {
            proof {
                assert forall|t: Seq<u8>, j: int| !uuid_text_at(d@, pos as int, t, j) by {
                    if uuid_text_at(d@, pos as int, t, j) {
                        lemma_uuid_pin(d@, pos as int, t, j);
                        assert(hex2(t[8]) =~= d@.subrange(
                            pos + 2 + uuid_off(8),
                            pos + 2 + uuid_off(8) + 2,
                        ));
                    }
                }
            }
            return Err(e);
        },
    };
    let b9 = match hex_pair_at(d, body + 21) {
        Ok(v) => v,
        Err(e) => {
            proof {
                assert forall|t: Seq<u8>, j: int| !uuid_text_at(d@, pos as int, t, j) by {
                    if uuid_text_at(d@, pos as int, t, j) {
                        lemma_uuid_pin(d@, pos as int, t, j);
                        assert(hex2(t[9]) =~= d@.subrange(
                            pos + 2 + uuid_off(9),
                            pos + 2 + uuid_off(9) + 2,
                        ));
                    }
                }
            }
            return Err(e);
        },
    };
    let b10 = match hex_pair_at(d, body + 24) {
        Ok(v) => v,
        Err(e) => {
            proof {
                assert forall|t: Seq<u8>, j: int| !uuid_text_at(d@, pos as int, t, j) by {
                    if uuid_text_at(d@, pos as int, t, j) {
                        lemma_uuid_pin(d@, pos as int, t, j);
                        assert(hex2(t[10]) =~= d@.subrange(
                            pos + 2 + uuid_off(10),
                            pos + 2 + uuid_off(10) + 2,
                        ));
                    }
                }
            }
            return Err(e);
        },
    };
    let b11 = match hex_pair_at(d, body + 26) {
        Ok(v) => v,
        Err(e) => {
            proof {
                assert forall|t: Seq<u8>, j: int| !uuid_text_at(d@, pos as int, t, j) by {
                    if uuid_text_at(d@, pos as int, t, j) {
                        lemma_uuid_pin(d@, pos as int, t, j);
                        assert(hex2(t[11]) =~= d@.subrange(
                            pos + 2 + uuid_off(11),
                            pos + 2 + uuid_off(11) + 2,
                        ));
                    }
                }
            }
            return Err(e);
        },
    };
    let b12 = match hex_pair_at(d, body + 28) {
        Ok(v) => v,
        Err(e) => {
            proof {
                assert forall|t: Seq<u8>, j: int| !uuid_text_at(d@, pos as int, t, j) by {
                    if uuid_text_at(d@, pos as int, t, j) {
                        lemma_uuid_pin(d@, pos as int, t, j);
                        assert(hex2(t[12]) =~= d@.subrange(
                            pos + 2 + uuid_off(12),
                            pos + 2 + uuid_off(12) + 2,
                        ));
                    }
                }
            }
            return Err(e);
        },
    };
    let b13 = match hex_pair_at(d, body + 30) {
        Ok(v) => v,
        Err(e) => {
            proof {
                assert forall|t: Seq<u8>, j: int| !uuid_text_at(d@, pos as int, t, j) by {
                    if uuid_text_at(d@, pos as int, t, j) {
                        lemma_uuid_pin(d@, pos as int, t, j);
                        assert(hex2(t[13]) =~= d@.subrange(
                            pos + 2 + uuid_off(13),
                            pos + 2 + uuid_off(13) + 2,
                        ));
                    }
                }
            }
            return Err(e);
        },
    };
    let b14 = match hex_pair_at(d, body + 32) {
        Ok(v) => v,
        Err(e) => {
            proof {
                assert forall|t: Seq<u8>, j: int| !uuid_text_at(d@, pos as int, t, j) by {
                    if uuid_text_at(d@, pos as int, t, j) {
                        lemma_uuid_pin(d@, pos as int, t, j);
                        assert(hex2(t[14]) =~= d@.subrange(
                            pos + 2 + uuid_off(14),
                            pos + 2 + uuid_off(14) + 2,
                        ));
                    }
                }
            }
            return Err(e);
        },
    };
    let b15 = match hex_pair_at(d, body + 34) {
        Ok(v) => v,
        Err(e) => {
            proof {
                assert forall|t: Seq<u8>, j: int| !uuid_text_at(d@, pos as int, t, j) by {
                    if uuid_text_at(d@, pos as int, t, j) {
                        lemma_uuid_pin(d@, pos as int, t, j);
                        assert(hex2(t[15]) =~= d@.subrange(
                            pos + 2 + uuid_off(15),
                            pos + 2 + uuid_off(15) + 2,
                        ));
                    }
                }
            }
            return Err(e);
        },
    };
    let u = UUID {
        bytes: [b0, b1, b2, b3, b4, b5, b6, b7, b8, b9, b10, b11, b12, b13, b14, b15],
    };
    let j = body + 36;
    proof {
        lemma_uuid_text_parts(u@);
        assert forall|k: int|
            0 <= k < 16 implies hex2(u@[k]) =~= #[trigger] d@.subrange(
            pos + 2 + uuid_off(k),
            pos + 2 + uuid_off(k) + 2,
        ) by {
            if k == 0 {
                assert(u@[0] == b0);
                assert(hex2(b0) =~= d@.subrange(body + 0, body + 0 + 2));
            } else if k == 1 {
                assert(u@[1] == b1);
                assert(hex2(b1) =~= d@.subrange(body + 2, body + 2 + 2));
            } else if k == 2 {
                assert(u@[2] == b2);
                assert(hex2(b2) =~= d@.subrange(body + 4, body + 4 + 2));
            } else if k == 3 {
                assert(u@[3] == b3);
                assert(hex2(b3) =~= d@.subrange(body + 6, body + 6 + 2));
            } else if k == 4 {
                assert(u@[4] == b4);
                assert(hex2(b4) =~= d@.subrange(body + 9, body + 9 + 2));
            } else if k == 5 {
                assert(u@[5] == b5);
                assert(hex2(b5) =~= d@.subrange(body + 11, body + 11 + 2));
            } else if k == 6 {
                assert(u@[6] == b6);
                assert(hex2(b6) =~= d@.subrange(body + 14, body + 14 + 2));
            } else if k == 7 {
                assert(u@[7] == b7);
                assert(hex2(b7) =~= d@.subrange(body + 16, body + 16 + 2));
            } else if k == 8 {
                assert(u@[8] == b8);
                assert(hex2(b8) =~= d@.subrange(body + 19, body + 19 + 2));
            } else if k == 9 {
                assert(u@[9] == b9);
                assert(hex2(b9) =~= d@.subrange(body + 21, body + 21 + 2));
            } else if k == 10 {
                assert(u@[10] == b10);
                assert(hex2(b10) =~= d@.subrange(body + 24, body + 24 + 2));
            } else if k == 11 {
                assert(u@[11] == b11);
                assert(hex2(b11) =~= d@.subrange(body + 26, body + 26 + 2));
            } else if k == 12 {
                assert(u@[12] == b12);
                assert(hex2(b12) =~= d@.subrange(body + 28, body + 28 + 2));
            } else if k == 13 {
                assert(u@[13] == b13);
                assert(hex2(b13) =~= d@.subrange(body + 30, body + 30 + 2));
            } else if k == 14 {
                assert(u@[14] == b14);
                assert(hex2(b14) =~= d@.subrange(body + 32, body + 32 + 2));
            } else if k == 15 {
                assert(u@[15] == b15);
                assert(hex2(b15) =~= d@.subrange(body + 34, body + 34 + 2));
            } else {
            }
        }
        assert(uuid_text(u@) =~= d@.subrange(pos + 2, pos + 38)) by {
            assert forall|i: int| 0 <= i < 36 implies uuid_text(u@)[i] == d@.subrange(
                pos + 2,
                pos + 38,
            )[i] by {
                if i == 8 || i == 13 || i == 18 || i == 23 {
                } else {
                    let k = uuid_byte_ix(i);
                    assert(uuid_off(k) == i || uuid_off(k) + 1 == i);
                    assert(hex2(u@[k]) =~= d@.subrange(
                        pos + 2 + uuid_off(k),
                        pos + 2 + uuid_off(k) + 2,
                    ));
                    assert(uuid_text(u@).subrange(uuid_off(k), uuid_off(k) + 2) =~= hex2(u@[k]));
                    assert(uuid_text(u@).subrange(uuid_off(k), uuid_off(k) + 2)[i - uuid_off(k)]
                        == uuid_text(u@)[i]);
                    assert(d@.subrange(pos + 2 + uuid_off(k), pos + 2 + uuid_off(k) + 2)[i
                        - uuid_off(k)] == d@.subrange(pos + 2, pos + 38)[i]);
                }
            }
        }
        assert(uuid_text_bytes(u@) =~= d@.subrange(pos as int, pos + 38));
        assert forall|t: Seq<u8>, jj: int| #[trigger]
            uuid_text_at(d@, pos as int, t, jj) implies t =~= u@ && jj == j as int by {
            lemma_uuid_pin(d@, pos as int, t, jj);
            assert forall|k: int| 0 <= k < 16 implies t[k] == u@[k] by {
                assert(hex2(t[k]) =~= d@.subrange(
                    pos + 2 + uuid_off(k),
                    pos + 2 + uuid_off(k) + 2,
                ));
                assert(hex2(u@[k]) =~= d@.subrange(
                    pos + 2 + uuid_off(k),
                    pos + 2 + uuid_off(k) + 2,
                ));
                assert(hexu(t[k] as int / 16) == hexu(u@[k] as int / 16) && hexu(
                    t[k] as int % 16,
                ) == hexu(u@[k] as int % 16));
                vstd::arithmetic::div_mod::lemma_fundamental_div_mod(t[k] as int, 16);
                vstd::arithmetic::div_mod::lemma_fundamental_div_mod(u@[k] as int, 16);
            }
        }
    }
    Ok((u, j))
}

/// Appends the two upper-case hexadecimal digits of a byte.
fn push_hex2(out: &mut Vec<u8>, x: u8)
    ensures
        final(out)@ =~= old(out)@ + hex2(x),
{
    let hi = x / 16;
    let lo = x % 16;
    write_u8(out, if hi < 10 { 0x30 + hi } else { 0x37 + hi });
    write_u8(out, if lo < 10 { 0x30 + lo } else { 0x37 + lo });
}

/// Appends the text wire form of a UUID.
pub fn write_uuid_text(out: &mut Vec<u8>, u: &UUID)
    ensures
        final(out)@ =~= old(out)@ + uuid_text_bytes(u@),
{
    let ghost t = uuid_text(u@);
    proof {
        lemma_uuid_text_parts(u@);
    }
    let mut tmp: Vec<u8> = Vec::new();
    push_hex2(&mut tmp, u.bytes[0]);
    proof {
        assert(uuid_off(0) == 0);
        assert(t.subrange(0 as int, 2 as int) =~= hex2(u@[0]));
        assert(t.subrange(0, 2 as int) =~= t.subrange(0, 0 as int) + t.subrange(0 as int, 2 as int));
        assert(tmp@ =~= t.subrange(0, 2 as int));
    }
    push_hex2(&mut tmp, u.bytes[1]);
    proof {
        assert(uuid_off(1) == 2);
        assert(t.subrange(2 as int, 4 as int) =~= hex2(u@[1]));
        assert(t.subrange(0, 4 as int) =~= t.subrange(0, 2 as int) + t.subrange(2 as int, 4 as int));
        assert(tmp@ =~= t.subrange(0, 4 as int));
    }
    push_hex2(&mut tmp, u.bytes[2]);
    proof {
        assert(uuid_off(2) == 4);
        assert(t.subrange(4 as int, 6 as int) =~= hex2(u@[2]));
        assert(t.subrange(0, 6 as int) =~= t.subrange(0, 4 as int) + t.subrange(4 as int, 6 as int));
        assert(tmp@ =~= t.subrange(0, 6 as int));
    }
    push_hex2(&mut tmp, u.bytes[3]);
    proof {
        assert(uuid_off(3) == 6);
        assert(t.subrange(6 as int, 8 as int) =~= hex2(u@[3]));
        assert(t.subrange(0, 8 as int) =~= t.subrange(0, 6 as int) + t.subrange(6 as int, 8 as int));
        assert(tmp@ =~= t.subrange(0, 8 as int));
    }
    write_u8(&mut tmp, 0x2D);
    proof {
        assert(t.subrange(8 as int, 9 as int) =~= seq![0x2Du8]);
        assert(t.subrange(0, 9 as int) =~= t.subrange(0, 8 as int) + t.subrange(8 as int, 9 as int));
        assert(tmp@ =~= t.subrange(0, 9 as int));
    }
    push_hex2(&mut tmp, u.bytes[4]);
    proof {
        assert(uuid_off(4) == 9);
        assert(t.subrange(9 as int, 11 as int) =~= hex2(u@[4]));
        assert(t.subrange(0, 11 as int) =~= t.subrange(0, 9 as int) + t.subrange(9 as int, 11 as int));
        assert(tmp@ =~= t.subrange(0, 11 as int));
    }
    push_hex2(&mut tmp, u.bytes[5]);
    proof {
        assert(uuid_off(5) == 11);
        assert(t.subrange(11 as int, 13 as int) =~= hex2(u@[5]));
        assert(t.subrange(0, 13 as int) =~= t.subrange(0, 11 as int) + t.subrange(11 as int, 13 as int));
        assert(tmp@ =~= t.subrange(0, 13 as int));
    }
    write_u8(&mut tmp, 0x2D);
    proof {
        assert(t.subrange(13 as int, 14 as int) =~= seq![0x2Du8]);
        assert(t.subrange(0, 14 as int) =~= t.subrange(0, 13 as int) + t.subrange(13 as int, 14 as int));
        assert(tmp@ =~= t.subrange(0, 14 as int));
    }
    push_hex2(&mut tmp, u.bytes[6]);
    proof {
        assert(uuid_off(6) == 14);
        assert(t.subrange(14 as int, 16 as int) =~= hex2(u@[6]));
        assert(t.subrange(0, 16 as int) =~= t.subrange(0, 14 as int) + t.subrange(14 as int, 16 as int));
        assert(tmp@ =~= t.subrange(0, 16 as int));
    }
    push_hex2(&mut tmp, u.bytes[7]);
    proof {
        assert(uuid_off(7) == 16);
        assert(t.subrange(16 as int, 18 as int) =~= hex2(u@[7]));
        assert(t.subrange(0, 18 as int) =~= t.subrange(0, 16 as int) + t.subrange(16 as int, 18 as int));
        assert(tmp@ =~= t.subrange(0, 18 as int));
    }
    write_u8(&mut tmp, 0x2D);
    proof {
        assert(t.subrange(18 as int, 19 as int) =~= seq![0x2Du8]);
        assert(t.subrange(0, 19 as int) =~= t.subrange(0, 18 as int) + t.subrange(18 as int, 19 as int));
        assert(tmp@ =~= t.subrange(0, 19 as int));
    }
    push_hex2(&mut tmp, u.bytes[8]);
    proof {
        assert(uuid_off(8) == 19);
        assert(t.subrange(19 as int, 21 as int) =~= hex2(u@[8]));
        assert(t.subrange(0, 21 as int) =~= t.subrange(0, 19 as int) + t.subrange(19 as int, 21 as int));
        assert(tmp@ =~= t.subrange(0, 21 as int));
    }
    push_hex2(&mut tmp, u.bytes[9]);
    proof {
        assert(uuid_off(9) == 21);
        assert(t.subrange(21 as int, 23 as int) =~= hex2(u@[9]));
        assert(t.subrange(0, 23 as int) =~= t.subrange(0, 21 as int) + t.subrange(21 as int, 23 as int));
        assert(tmp@ =~= t.subrange(0, 23 as int));
    }
    write_u8(&mut tmp, 0x2D);
    proof {
        assert(t.subrange(23 as int, 24 as int) =~= seq![0x2Du8]);
        assert(t.subrange(0, 24 as int) =~= t.subrange(0, 23 as int) + t.subrange(23 as int, 24 as int));
        assert(tmp@ =~= t.subrange(0, 24 as int));
    }
    push_hex2(&mut tmp, u.bytes[10]);
    proof {
        assert(uuid_off(10) == 24);
        assert(t.subrange(24 as int, 26 as int) =~= hex2(u@[10]));
        assert(t.subrange(0, 26 as int) =~= t.subrange(0, 24 as int) + t.subrange(24 as int, 26 as int));
        assert(tmp@ =~= t.subrange(0, 26 as int));
    }
    push_hex2(&mut tmp, u.bytes[11]);
    proof {
        assert(uuid_off(11) == 26);
        assert(t.subrange(26 as int, 28 as int) =~= hex2(u@[11]));
        assert(t.subrange(0, 28 as int) =~= t.subrange(0, 26 as int) + t.subrange(26 as int, 28 as int));
        assert(tmp@ =~= t.subrange(0, 28 as int));
    }
    push_hex2(&mut tmp, u.bytes[12]);
    proof {
        assert(uuid_off(12) == 28);
        assert(t.subrange(28 as int, 30 as int) =~= hex2(u@[12]));
        assert(t.subrange(0, 30 as int) =~= t.subrange(0, 28 as int) + t.subrange(28 as int, 30 as int));
        assert(tmp@ =~= t.subrange(0, 30 as int));
    }
    push_hex2(&mut tmp, u.bytes[13]);
    proof {
        assert(uuid_off(13) == 30);
        assert(t.subrange(30 as int, 32 as int) =~= hex2(u@[13]));
        assert(t.subrange(0, 32 as int) =~= t.subrange(0, 30 as int) + t.subrange(30 as int, 32 as int));
        assert(tmp@ =~= t.subrange(0, 32 as int));
    }
    push_hex2(&mut tmp, u.bytes[14]);
    proof {
        assert(uuid_off(14) == 32);
        assert(t.subrange(32 as int, 34 as int) =~= hex2(u@[14]));
        assert(t.subrange(0, 34 as int) =~= t.subrange(0, 32 as int) + t.subrange(32 as int, 34 as int));
        assert(tmp@ =~= t.subrange(0, 34 as int));
    }
    push_hex2(&mut tmp, u.bytes[15]);
    proof {
        assert(uuid_off(15) == 34);
        assert(t.subrange(34 as int, 36 as int) =~= hex2(u@[15]));
        assert(t.subrange(0, 36 as int) =~= t.subrange(0, 34 as int) + t.subrange(34 as int, 36 as int));
        assert(tmp@ =~= t.subrange(0, 36 as int));
    }
    proof {
        assert(t.subrange(0, 36) =~= t);
    }
    write_u16(out, 36);
    write_bytes(out, tmp.as_slice());
}


// ---------------------------------------------------------------------------
// Length-prefixed byte runs
// ---------------------------------------------------------------------------
/// The wire image of a plain length-prefixed byte run: a 16-bit count, then
/// the bytes verbatim — no terminator, any content.
pub open spec fn blob_bytes(t: Seq<u8>) -> Seq<u8>
    recommends
        t.len() <= 0xFFFF,
{
    be16(t.len() as u16) + t
}

/// There is a byte-run region at `pos` of `d` holding `t`, ending at `j`.
pub open spec fn blob_at(d: Seq<u8>, pos: int, t: Seq<u8>, j: int) -> bool {
    &&& 0 <= pos
    &&& t.len() <= 0xFFFF
    &&& pos + (blob_bytes(t).len() as int) == j
    &&& j <= d.len()
    &&& d.subrange(pos, j) == blob_bytes(t)
}

/// Reads a length-prefixed byte run at `pos`.
pub fn read_blob(d: &[u8], pos: usize) -> (r: Result<(Vec<u8>, usize), FieldError>)
    requires
        pos <= d@.len(),
    ensures
        r matches Ok((v, j)) ==> pos < j <= d@.len() && blob_at(d@, pos as int, v@, j as int),
        forall|t: Seq<u8>, j: int|
            #[trigger] blob_at(d@, pos as int, t, j) ==> (r matches Ok(p) && p.0@ == t && p.1 == j),
        r matches Err(e) ==> e == FieldError::Truncated,
{
    let (n, body) = match read_u16(d, pos) {
        Ok(v) => v,
        Err(e) => {
            proof {
                assert forall|t: Seq<u8>, j: int| !blob_at(d@, pos as int, t, j) by {
                    if blob_at(d@, pos as int, t, j) {
                        crate::bytes::lemma_split(blob_bytes(t), be16(t.len() as u16), t);
                    }
                }
            }
            return Err(e);
        },
    };
    let n: usize = n as usize;
    if d.len() - body < n {
        proof {
            assert forall|t: Seq<u8>, j: int| !blob_at(d@, pos as int, t, j) by {
                if blob_at(d@, pos as int, t, j) {
                    crate::bytes::lemma_split(blob_bytes(t), be16(t.len() as u16), t);
                    assert(d@.subrange(pos as int, pos + 2) =~= be16(t.len() as u16));
                    assert(t.len() == n);
                }
            }
        }
        return Err(FieldError::Truncated);
    }
    let (v, j) = match read_vec(d, body, n) {
        Ok(p) => p,
        Err(_) => {
            return Err(FieldError::Truncated);
        },
    };
    proof {
        lemma_be16_of(n as u16);
        assert(blob_bytes(v@) =~= d@.subrange(pos as int, j as int));
        assert forall|t: Seq<u8>, jj: int| #[trigger]
            blob_at(d@, pos as int, t, jj) implies t == v@ && jj == j as int by {
            crate::bytes::lemma_split(blob_bytes(t), be16(t.len() as u16), t);
            assert(d@.subrange(pos as int, pos + 2) =~= be16(t.len() as u16));
            assert(t.len() == n);
            assert(t =~= d@.subrange(pos + 2, pos + 2 + n));
        }
    }
    Ok((v, j))
}

/// Appends a length-prefixed byte run; fails only when the count does not
/// fit the 16-bit prefix.
pub fn write_blob(out: &mut Vec<u8>, t: &Vec<u8>) -> (r: Result<(), FieldError>)
    ensures
        r is Ok <==> t@.len() <= 0xFFFF,
        r is Ok ==> final(out)@ =~= old(out)@ + blob_bytes(t@),
        r is Err ==> final(out)@ == old(out)@,
        r matches Err(e) ==> e == FieldError::Oversize,
{
    if t.len() > 0xFFFF {
        return Err(FieldError::Oversize);
    }
    write_u16(out, t.len() as u16);
    write_bytes(out, t.as_slice());
    Ok(())
}

// ---------------------------------------------------------------------------
// PublicKey
// ---------------------------------------------------------------------------
/// An elliptic-curve public key as the protocol carries it: a 16-bit key
/// type and the 64-byte uncompressed point without its leading tag.
#[derive(Clone, Copy, Debug, PartialEq, Eq)]
pub struct PublicKey {
    pub key_type: u16,
    pub key: [u8; 64],
}

/// The wire image of a public key.
pub open spec fn pk_bytes(key_type: u16, key: Seq<u8>) -> Seq<u8>
    recommends
        key.len() == 64,
{
    be16(key_type) + key
}

impl PublicKey {
    /// Wraps a key type and raw point bytes.
    pub fn new(key_type: u16, key: [u8; 64]) -> (r: PublicKey)
        ensures
            r.key_type == key_type,
            r.key@ == key@,
    {
        PublicKey { key_type, key }
    }
}

/// Reads a public key at `pos`.
pub fn read_publickey(d: &[u8], pos: usize) -> (r: Result<(PublicKey, usize), FieldError>)
    requires
        pos <= d@.len(),
    ensures
        r is Ok <==> pos + 66 <= d@.len(),
        r matches Ok((k, j)) ==> j == pos + 66 && pk_bytes(k.key_type, k.key@) =~= d@.subrange(
            pos as int,
            j as int,
        ),
        r matches Err(e) ==> e == FieldError::Truncated,
{
    let (key_type, p2) = match read_u16(d, pos) {
        Ok(v) => v,
        Err(e) => {
            return Err(e);
        },
    };
    let (key, j) = match read_arr::<64>(d, p2) {
        Ok(v) => v,
        Err(e) => {
            return Err(e);
        },
    };
    proof {
        assert(pk_bytes(key_type, key@) =~= d@.subrange(pos as int, pos + 66));
    }
    Ok((PublicKey { key_type, key }, j))
}

/// Appends the wire image of a public key.
pub fn write_publickey(out: &mut Vec<u8>, k: &PublicKey)
    ensures
        final(out)@ =~= old(out)@ + pk_bytes(k.key_type, k.key@),
{
    write_u16(out, k.key_type);
    write_bytes(out, k.key.as_slice());
}

// ---------------------------------------------------------------------------
// Certificate
// ---------------------------------------------------------------------------
/// What the library knows of an X.509 certificate: the common name of its
/// subject, the P-256 public point split into tag and 64 bytes, and the DER
/// bytes kept verbatim so that re-encoding is lossless.
#[derive(Clone, Debug, PartialEq)]
pub struct Certificate {
    subject: String,
    public_key_type: u8,
    public_key: [u8; 64],
    data: Vec<u8>,
}

/// The mathematical image of a certificate value.
pub ghost struct CertModel {
    pub subject: Seq<char>,
    pub key_type: u8,
    pub key: Seq<u8>,
    pub der: Seq<u8>,
}

impl View for Certificate {
    type V = CertModel;

    closed spec fn view(&self) -> CertModel {
        CertModel {
            subject: self.subject@,
            key_type: self.public_key_type,
            key: self.public_key@,
            der: self.data@,
        }
    }
}

/// The common name in the subject of the certificate that `der` encodes.
pub uninterp spec fn x509_subject_of(der: Seq<u8>) -> Seq<char>;

/// The uncompressed elliptic-curve public point, tag byte included, of the
/// certificate that `der` encodes.
pub uninterp spec fn x509_point_of(der: Seq<u8>) -> Seq<u8>;

/// A certificate value agrees with what its DER encodes.
pub open spec fn cert_wf(c: CertModel) -> bool {
    &&& c.der.len() <= 0xFFFF
    &&& c.subject == x509_subject_of(c.der)
    &&& x509_point_of(c.der).len() == 65
    &&& c.key_type == x509_point_of(c.der)[0]
    &&& c.key == x509_point_of(c.der).skip(1)
}

/// The wire image of a certificate: a 16-bit count, then the DER verbatim.
pub open spec fn cert_bytes(c: CertModel) -> Seq<u8>
    recommends
        c.der.len() <= 0xFFFF,
{
    be16(c.der.len() as u16) + c.der
}

/// There is a certificate region at `pos` of `d` holding `c`, ending at `j`.
pub open spec fn cert_at(d: Seq<u8>, pos: int, c: CertModel, j: int) -> bool {
    &&& 0 <= pos
    &&& cert_wf(c)
    &&& pos + cert_bytes(c).len() == j
    &&& j <= d.len()
    &&& d.subrange(pos, j) == cert_bytes(c)
}

/// Relies on `openssl::x509::X509::from_der` and the accessors around it:
/// on success the first common-name entry of the subject is returned, and
/// the public key as an uncompressed P-256 point.  Which DER inputs succeed
/// is left open.
#[verifier::external_body]
fn x509_extract(der: &[u8]) -> (r: Result<(String, Vec<u8>), FieldError>)
    ensures
        r matches Ok(p) ==> p.0@ == x509_subject_of(der@) && p.1@ == x509_point_of(der@),
        r matches Err(e) ==> e == FieldError::Certificate,
{
    let e = FieldError::Certificate;
    let cert = X509::from_der(der).map_err(|_| e)?;
    let name = cert.subject_name();
    let entry = name.entries_by_nid(Nid::COMMONNAME).next().ok_or(e)?;
    let subject = String::from_utf8(entry.data().as_slice().to_vec()).map_err(|_| e)?;
    let group = EcGroup::from_curve_name(Nid::X9_62_PRIME256V1).map_err(|_| e)?;
    let mut ctx = BigNumContext::new().map_err(|_| e)?;
    let key = cert.public_key().and_then(|k| k.ec_key()).map_err(|_| e)?;
    let point = key.public_key().to_bytes(&group, PointConversionForm::UNCOMPRESSED, &mut ctx);
    Ok((subject, point.map_err(|_| e)?))
}

impl Certificate {
    /// The common name of the certificate's subject.
    pub fn subject(&self) -> (r: &String)
        ensures
            r@ == self@.subject,
    {
        &self.subject
    }

    /// The tag byte of the uncompressed public point.
    pub fn public_key_type(&self) -> (r: u8)
        ensures
            r == self@.key_type,
    {
        self.public_key_type
    }

    /// The 64 bytes of the public point after the tag.
    pub fn public_key(&self) -> (r: &[u8; 64])
        ensures
            r@ == self@.key,
    {
        &self.public_key
    }
}

/// Reads a certificate region at `pos`.  Parsing of the DER itself is done
/// by the OpenSSL library, so whether a region that carries well-formed
/// lengths is accepted is up to it: the second clause therefore allows the
/// certificate error where it allows nothing else.
pub fn read_certificate(d: &[u8], pos: usize) -> (r: Result<(Certificate, usize), FieldError>)
    requires
        pos <= d@.len(),
    ensures
        r matches Ok((c, j)) ==> pos < j <= d@.len() && cert_at(d@, pos as int, c@, j as int),
        forall|c: CertModel, j: int|
            #[trigger] cert_at(d@, pos as int, c, j) ==> ((r matches Ok(p) && p.0@ == c && p.1 == j)
                || r == Err::<(Certificate, usize), FieldError>(FieldError::Certificate)),
        r matches Err(e) ==> e == FieldError::Truncated || e == FieldError::Certificate,
{
    let (n, body) = match read_u16(d, pos) {
        Ok(v) => v,
        Err(e) => {
            proof {
                assert forall|c: CertModel, j: int| !cert_at(d@, pos as int, c, j) by {
                    if cert_at(d@, pos as int, c, j) {
                        crate::bytes::lemma_split(cert_bytes(c), be16(c.der.len() as u16), c.der);
                    }
                }
            }
            return Err(e);
        },
    };
    let n: usize = n as usize;
    if d.len() - body < n {
        proof {
            assert forall|c: CertModel, j: int| !cert_at(d@, pos as int, c, j) by {
                if cert_at(d@, pos as int, c, j) {
                    crate::bytes::lemma_split(cert_bytes(c), be16(c.der.len() as u16), c.der);
                    assert(d@.subrange(pos as int, pos + 2) =~= be16(c.der.len() as u16));
                    assert(c.der.len() == n);
                }
            }
        }
        return Err(FieldError::Truncated);
    }
    let (der, j) = match read_vec(d, body, n) {
        Ok(v) => v,
        Err(_) => {
            return Err(FieldError::Truncated);
        },
    };
    proof {
        assert forall|c: CertModel, jj: int| #[trigger]
            cert_at(d@, pos as int, c, jj) implies c.der == der@ && jj == j as int by {
            crate::bytes::lemma_split(cert_bytes(c), be16(c.der.len() as u16), c.der);
            assert(d@.subrange(pos as int, pos + 2) =~= be16(c.der.len() as u16));
            assert(c.der.len() == n);
            assert(c.der =~= d@.subrange(pos + 2, pos + 2 + n));
        }
    }
    let (subject, point) = match x509_extract(der.as_slice()) {
        Ok(v) => v,
        Err(e) => {
            return Err(e);
        },
    };
    if point.len() != 65 {
        return Err(FieldError::Certificate);
    }
    let mut public_key: [u8; 64] = [0u8; 64];
    let mut i: usize = 0;
    while i < 64
        invariant
            i <= 64,
            point@.len() == 65,
            forall|k: int| 0 <= k < i ==> public_key@[k] == point@[1 + k],
        decreases 64 - i,
    {
        public_key[i] = point[1 + i];
        i = i + 1;
    }
    let c = Certificate { subject, public_key_type: point[0], public_key, data: der };
    proof {
        lemma_be16_of(n as u16);
        assert(c@.key =~= x509_point_of(c@.der).skip(1));
        assert(cert_bytes(c@) =~= d@.subrange(pos as int, j as int));
    }
    Ok((c, j))
}

/// Appends the wire image of a certificate: its stored DER, verbatim.
pub fn write_certificate(out: &mut Vec<u8>, c: &Certificate) -> (r: Result<(), FieldError>)
    ensures
        r is Ok <==> c@.der.len() <= 0xFFFF,
        r is Ok ==> final(out)@ =~= old(out)@ + cert_bytes(c@),
        r is Err ==> final(out)@ == old(out)@,
        r matches Err(e) ==> e == FieldError::Oversize,
{
    if c.data.len() > 0xFFFF {
        return Err(FieldError::Oversize);
    }
    write_u16(out, c.data.len() as u16);
    write_bytes(out, c.data.as_slice());
    Ok(())
}

/// Appends the wire image of an `SGString`; fails only when the byte count
/// does not fit the 16-bit prefix.
pub fn write_sgstring(out: &mut Vec<u8>, s: &SGString) -> (r: Result<(), FieldError>)
    ensures
        r is Ok <==> s@.len() <= 0xFFFF,
        r is Ok ==> final(out)@ =~= old(out)@ + sg_bytes(s@),
        r is Err ==> final(out)@ == old(out)@,
        r matches Err(e) ==> e == FieldError::Oversize,
{
    if s.bytes.len() > 0xFFFF {
        return Err(FieldError::Oversize);
    }
    write_u16(out, s.bytes.len() as u16);
    write_bytes(out, s.bytes.as_slice());
    write_u8(out, 0);
    Ok(())
}

} // verus!
