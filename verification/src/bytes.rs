//! Big-endian wire primitives: specification-level byte images of the
//! fixed-width integers, and executable readers and writers proved against
//! them.  Every multi-byte integer of the protocol is big-endian.

use vstd::prelude::*;

verus! {

/// Error produced while reading or writing a single field of a payload.
#[derive(Clone, Copy, Debug, PartialEq, Eq, Structural)]
pub enum FieldError {
    /// The input ended before the field was complete.
    Truncated,
    /// A string terminator byte was not 0x00.
    Terminator,
    /// A string region was not valid UTF-8.
    Utf8,
    /// A text-form UUID was not in canonical hyphenated form.
    Uuid,
    /// A region was left over after the payload was fully read.
    Leftover,
    /// A value too large for its length prefix was to be written.
    Oversize,
    /// The value has no wire form (a bare message kind with no payload).
    Unsupported,
    /// An embedded X.509 certificate could not be parsed.
    Certificate,
}

// ---------------------------------------------------------------------------
// Byte images of the integers
// ---------------------------------------------------------------------------
/// The two big-endian bytes of a `u16`.
pub open spec fn be16(v: u16) -> Seq<u8> {
    seq![(v / 0x100) as u8, (v % 0x100) as u8]
}

/// The four big-endian bytes of a `u32`.
pub open spec fn be32(v: u32) -> Seq<u8> {
    seq![
        (v / 0x1000000) as u8,
        ((v / 0x10000) % 0x100) as u8,
        ((v / 0x100) % 0x100) as u8,
        (v % 0x100) as u8,
    ]
}

/// The eight big-endian bytes of a `u64`.
pub open spec fn be64(v: u64) -> Seq<u8> {
    seq![
        (v / 0x100000000000000) as u8,
        ((v / 0x1000000000000) % 0x100) as u8,
        ((v / 0x10000000000) % 0x100) as u8,
        ((v / 0x100000000) % 0x100) as u8,
        ((v / 0x1000000) % 0x100) as u8,
        ((v / 0x10000) % 0x100) as u8,
        ((v / 0x100) % 0x100) as u8,
        (v % 0x100) as u8,
    ]
}

/// The integer denoted by two big-endian bytes.
pub open spec fn be16_of(b: Seq<u8>) -> int
    recommends
        b.len() == 2,
{
    b[0] * 0x100 + b[1]
}

/// The integer denoted by four big-endian bytes.
pub open spec fn be32_of(b: Seq<u8>) -> int
    recommends
        b.len() == 4,
{
    b[0] * 0x1000000 + b[1] * 0x10000 + b[2] * 0x100 + b[3]
}

/// The integer denoted by eight big-endian bytes.
pub open spec fn be64_of(b: Seq<u8>) -> int
    recommends
        b.len() == 8,
{
    b[0] * 0x100000000000000 + b[1] * 0x1000000000000 + b[2] * 0x10000000000 + b[3] * 0x100000000
        + b[4] * 0x1000000 + b[5] * 0x10000 + b[6] * 0x100 + b[7]
}

// ---------------------------------------------------------------------------
// Round-trip facts
// ---------------------------------------------------------------------------
pub proof fn lemma_be16_of(v: u16)
    ensures
        be16(v).len() == 2,
        be16_of(be16(v)) == v,
{
}

pub proof fn lemma_be32_of(v: u32)
    ensures
        be32(v).len() == 4,
        be32_of(be32(v)) == v,
{
}

pub proof fn lemma_be64_of(v: u64)
    ensures
        be64(v).len() == 8,
        be64_of(be64(v)) == v,
{
    let w = 0x100;
    let q1 = v / 0x100;
    let q2 = v / 0x10000;
    let q3 = v / 0x1000000;
    let q4 = v / 0x100000000;
    let q5 = v / 0x10000000000;
    let q6 = v / 0x1000000000000;
    let q7 = v / 0x100000000000000;
    vstd::arithmetic::div_mod::lemma_div_denominator(v as int, 0x100, 0x100);
    vstd::arithmetic::div_mod::lemma_div_denominator(v as int, 0x10000, 0x100);
    vstd::arithmetic::div_mod::lemma_div_denominator(v as int, 0x1000000, 0x100);
    vstd::arithmetic::div_mod::lemma_div_denominator(v as int, 0x100000000, 0x100);
    vstd::arithmetic::div_mod::lemma_div_denominator(v as int, 0x10000000000, 0x100);
    vstd::arithmetic::div_mod::lemma_div_denominator(v as int, 0x1000000000000, 0x100);
    vstd::arithmetic::div_mod::lemma_fundamental_div_mod(v as int, w);
    vstd::arithmetic::div_mod::lemma_fundamental_div_mod(q1 as int, w);
    vstd::arithmetic::div_mod::lemma_fundamental_div_mod(q2 as int, w);
    vstd::arithmetic::div_mod::lemma_fundamental_div_mod(q3 as int, w);
    vstd::arithmetic::div_mod::lemma_fundamental_div_mod(q4 as int, w);
    vstd::arithmetic::div_mod::lemma_fundamental_div_mod(q5 as int, w);
    vstd::arithmetic::div_mod::lemma_fundamental_div_mod(q6 as int, w);
    assert(q7 < 0x100) by {
        vstd::arithmetic::div_mod::lemma_div_is_ordered(
            v as int,
            0xFFFFFFFFFFFFFFFF,
            0x100000000000000,
        );
    }
}

/// Two bytes are recovered from the integer they denote.
pub proof fn lemma_be16_bytes(b: Seq<u8>)
    requires
        b.len() == 2,
    ensures
        0 <= be16_of(b) <= 0xFFFF,
        be16(be16_of(b) as u16) =~= b,
{
}

pub proof fn lemma_be32_bytes(b: Seq<u8>)
    requires
        b.len() == 4,
    ensures
        0 <= be32_of(b) <= 0xFFFFFFFF,
        be32(be32_of(b) as u32) =~= b,
{
    let v = be32_of(b);
    lemma_digit(v, 0x1000000, b[0] as int, b[1] * 0x10000 + b[2] * 0x100 + b[3]);
    lemma_digit(v, 0x10000, b[0] * 0x100 + b[1], b[2] * 0x100 + b[3]);
    lemma_digit(b[0] * 0x100 + b[1], 0x100, b[0] as int, b[1] as int);
    lemma_digit(v, 0x100, b[0] * 0x10000 + b[1] * 0x100 + b[2], b[3] as int);
    lemma_digit(b[0] * 0x10000 + b[1] * 0x100 + b[2], 0x100, b[0] * 0x100 + b[1], b[2] as int);
}

pub proof fn lemma_be64_bytes(b: Seq<u8>)
    requires
        b.len() == 8,
    ensures
        0 <= be64_of(b) <= 0xFFFFFFFFFFFFFFFF,
        be64(be64_of(b) as u64) =~= b,
{
    let v = be64_of(b);
    let d1 = b[1] * 0x1000000000000 + b[2] * 0x10000000000 + b[3] * 0x100000000 + b[4] * 0x1000000
        + b[5] * 0x10000 + b[6] * 0x100 + b[7];
    let d2 = b[2] * 0x10000000000 + b[3] * 0x100000000 + b[4] * 0x1000000 + b[5] * 0x10000 + b[6]
        * 0x100 + b[7];
    let d3 = b[3] * 0x100000000 + b[4] * 0x1000000 + b[5] * 0x10000 + b[6] * 0x100 + b[7];
    let d4 = b[4] * 0x1000000 + b[5] * 0x10000 + b[6] * 0x100 + b[7];
    let d5 = b[5] * 0x10000 + b[6] * 0x100 + b[7];
    let d6 = b[6] * 0x100 + b[7];
    let q1 = b[0] as int;
    let q2 = b[0] * 0x100 + b[1];
    let q3 = b[0] * 0x10000 + b[1] * 0x100 + b[2];
    let q4 = b[0] * 0x1000000 + b[1] * 0x10000 + b[2] * 0x100 + b[3];
    let q5 = b[0] * 0x100000000 + b[1] * 0x1000000 + b[2] * 0x10000 + b[3] * 0x100 + b[4];
    let q6 = b[0] * 0x10000000000 + b[1] * 0x100000000 + b[2] * 0x1000000 + b[3] * 0x10000 + b[4]
        * 0x100 + b[5];
    let q7 = b[0] * 0x1000000000000 + b[1] * 0x10000000000 + b[2] * 0x100000000 + b[3] * 0x1000000
        + b[4] * 0x10000 + b[5] * 0x100 + b[6];
    lemma_digit(v, 0x100000000000000, q1, d1);
    lemma_digit(v, 0x1000000000000, q2, d2);
    lemma_digit(q2, 0x100, q1, b[1] as int);
    lemma_digit(v, 0x10000000000, q3, d3);
    lemma_digit(q3, 0x100, q2, b[2] as int);
    lemma_digit(v, 0x100000000, q4, d4);
    lemma_digit(q4, 0x100, q3, b[3] as int);
    lemma_digit(v, 0x1000000, q5, d5);
    lemma_digit(q5, 0x100, q4, b[4] as int);
    lemma_digit(v, 0x10000, q6, d6);
    lemma_digit(q6, 0x100, q5, b[5] as int);
    lemma_digit(v, 0x100, q7, b[7] as int);
    lemma_digit(q7, 0x100, q6, b[6] as int);
}

/// `hi` and `lo` are the quotient and remainder of `v` by `w`.
pub proof fn lemma_digit(v: int, w: int, hi: int, lo: int)
    requires
        0 < w,
        0 <= lo < w,
        v == hi * w + lo,
    ensures
        v / w == hi,
        v % w == lo,
{
    vstd::arithmetic::div_mod::lemma_fundamental_div_mod_converse(v, w, hi, lo);
}

// ---------------------------------------------------------------------------
// Decomposing a concatenation
// ---------------------------------------------------------------------------
/// A sequence equal to `a + b` splits back into `a` and `b`.
pub proof fn lemma_split(s: Seq<u8>, a: Seq<u8>, b: Seq<u8>)
    requires
        s == a + b,
    ensures
        s.len() == a.len() + b.len(),
        s.subrange(0, a.len() as int) =~= a,
        s.subrange(a.len() as int, s.len() as int) =~= b,
{
}

/// The middle piece of a three-way concatenation.
pub proof fn lemma_mid(s: Seq<u8>, a: Seq<u8>, b: Seq<u8>, c: Seq<u8>)
    requires
        s == a + b + c,
    ensures
        s.len() == a.len() + b.len() + c.len(),
        s.subrange(a.len() as int, (a.len() + b.len()) as int) =~= b,
        s.subrange((a.len() + b.len()) as int, s.len() as int) =~= c,
{
}

/// A region of `d` equal to a two-part concatenation splits in place.
pub proof fn lemma_region(d: Seq<u8>, l: int, a: Seq<u8>, b: Seq<u8>)
    requires
        0 <= l,
        l + a.len() + b.len() <= d.len(),
        d.subrange(l, l + a.len() + b.len()) == a + b,
    ensures
        d.subrange(l, l + a.len()) =~= a,
        d.subrange(l + a.len(), l + a.len() + b.len()) =~= b,
{
    assert forall|m: int| 0 <= m < a.len() implies d.subrange(l, l + a.len())[m] == a[m] by {
        assert(d.subrange(l, l + a.len() + b.len())[m] == (a + b)[m]);
        assert(d.subrange(l, l + a.len() + b.len())[m] == d[l + m]);
        assert(d.subrange(l, l + a.len())[m] == d[l + m]);
    }
    assert forall|m: int|
        0 <= m < b.len() implies d.subrange(l + a.len(), l + a.len() + b.len())[m] == b[m] by {
        assert(d.subrange(l, l + a.len() + b.len())[a.len() + m] == (a + b)[a.len() + m]);
        assert(d.subrange(l, l + a.len() + b.len())[a.len() + m] == d[l + a.len() + m]);
        assert(d.subrange(l + a.len(), l + a.len() + b.len())[m] == d[l + a.len() + m]);
    }
}

/// A region equal to a three-part concatenation splits in place.
pub proof fn lemma_region3(d: Seq<u8>, l: int, a: Seq<u8>, b: Seq<u8>, c: Seq<u8>)
    requires
        0 <= l,
        l + a.len() + b.len() + c.len() <= d.len(),
        d.subrange(l, l + a.len() + b.len() + c.len()) == a + b + c,
    ensures
        d.subrange(l, l + a.len()) =~= a,
        d.subrange(l + a.len(), l + a.len() + b.len()) =~= b,
        d.subrange(l + a.len() + b.len(), l + a.len() + b.len() + c.len()) =~= c,
{
    lemma_region(d, l, a + b, c);
    lemma_region(d, l, a, b);
}

/// A region equal to a four-part concatenation splits in place.
pub proof fn lemma_region4(d: Seq<u8>, l: int, a: Seq<u8>, b: Seq<u8>, c: Seq<u8>, e: Seq<u8>)
    requires
        0 <= l,
        l + a.len() + b.len() + c.len() + e.len() <= d.len(),
        d.subrange(l, l + a.len() + b.len() + c.len() + e.len()) == a + b + c + e,
    ensures
        d.subrange(l, l + a.len()) =~= a,
        d.subrange(l + a.len(), l + a.len() + b.len()) =~= b,
        d.subrange(l + a.len() + b.len(), l + a.len() + b.len() + c.len()) =~= c,
        d.subrange(l + a.len() + b.len() + c.len(), l + a.len() + b.len() + c.len() + e.len())
            =~= e,
{
    lemma_region(d, l, a + b + c, e);
    lemma_region3(d, l, a, b, c);
}

/// A region equal to a five-part concatenation splits in place.
pub proof fn lemma_region5(
    d: Seq<u8>,
    l: int,
    a: Seq<u8>,
    b: Seq<u8>,
    c: Seq<u8>,
    e: Seq<u8>,
    f: Seq<u8>,
)
    requires
        0 <= l,
        l + a.len() + b.len() + c.len() + e.len() + f.len() <= d.len(),
        d.subrange(l, l + a.len() + b.len() + c.len() + e.len() + f.len()) == a + b + c + e + f,
    ensures
        d.subrange(l, l + a.len()) =~= a,
        d.subrange(l + a.len(), l + a.len() + b.len()) =~= b,
        d.subrange(l + a.len() + b.len(), l + a.len() + b.len() + c.len()) =~= c,
        d.subrange(l + a.len() + b.len() + c.len(), l + a.len() + b.len() + c.len() + e.len())
            =~= e,
        d.subrange(
            l + a.len() + b.len() + c.len() + e.len(),
            l + a.len() + b.len() + c.len() + e.len() + f.len(),
        ) =~= f,
{
    lemma_region(d, l, a + b + c + e, f);
    lemma_region4(d, l, a, b, c, e);
}

/// A region equal to a six-part concatenation splits in place.
pub proof fn lemma_region6(
    d: Seq<u8>,
    l: int,
    a: Seq<u8>,
    b: Seq<u8>,
    c: Seq<u8>,
    e: Seq<u8>,
    f: Seq<u8>,
    g: Seq<u8>,
)
    requires
        0 <= l,
        l + a.len() + b.len() + c.len() + e.len() + f.len() + g.len() <= d.len(),
        d.subrange(l, l + a.len() + b.len() + c.len() + e.len() + f.len() + g.len()) == a + b + c
            + e + f + g,
    ensures
        d.subrange(l, l + a.len()) =~= a,
        d.subrange(l + a.len(), l + a.len() + b.len()) =~= b,
        d.subrange(l + a.len() + b.len(), l + a.len() + b.len() + c.len()) =~= c,
        d.subrange(l + a.len() + b.len() + c.len(), l + a.len() + b.len() + c.len() + e.len())
            =~= e,
        d.subrange(
            l + a.len() + b.len() + c.len() + e.len(),
            l + a.len() + b.len() + c.len() + e.len() + f.len(),
        ) =~= f,
        d.subrange(
            l + a.len() + b.len() + c.len() + e.len() + f.len(),
            l + a.len() + b.len() + c.len() + e.len() + f.len() + g.len(),
        ) =~= g,
{
    lemma_region(d, l, a + b + c + e + f, g);
    lemma_region5(d, l, a, b, c, e, f);
}

/// A region equal to a 7-part concatenation splits in place.
pub proof fn lemma_region7(
    d: Seq<u8>,
    l: int,
    a: Seq<u8>,
    b: Seq<u8>,
    c: Seq<u8>,
    e: Seq<u8>,
    f: Seq<u8>,
    g: Seq<u8>,
    h: Seq<u8>,
)
    requires
        0 <= l,
        l + a.len() + b.len() + c.len() + e.len() + f.len() + g.len() + h.len() <= d.len(),
        d.subrange(l, l + a.len() + b.len() + c.len() + e.len() + f.len() + g.len() + h.len()) == a + b + c + e + f + g + h,
    ensures
        d.subrange(l, l + a.len()) =~= a,
        d.subrange(l + a.len(), l + a.len() + b.len()) =~= b,
        d.subrange(l + a.len() + b.len(), l + a.len() + b.len() + c.len()) =~= c,
        d.subrange(l + a.len() + b.len() + c.len(), l + a.len() + b.len() + c.len() + e.len()) =~= e,
        d.subrange(l + a.len() + b.len() + c.len() + e.len(), l + a.len() + b.len() + c.len() + e.len() + f.len()) =~= f,
        d.subrange(l + a.len() + b.len() + c.len() + e.len() + f.len(), l + a.len() + b.len() + c.len() + e.len() + f.len() + g.len()) =~= g,
        d.subrange(l + a.len() + b.len() + c.len() + e.len() + f.len() + g.len(), l + a.len() + b.len() + c.len() + e.len() + f.len() + g.len() + h.len()) =~= h,
{
    lemma_region(d, l, a + b + c + e + f + g, h);
    lemma_region6(d, l, a, b, c, e, f, g);
}

/// A region equal to a 8-part concatenation splits in place.
pub proof fn lemma_region8(
    d: Seq<u8>,
    l: int,
    a: Seq<u8>,
    b: Seq<u8>,
    c: Seq<u8>,
    e: Seq<u8>,
    f: Seq<u8>,
    g: Seq<u8>,
    h: Seq<u8>,
    i: Seq<u8>,
)
    requires
        0 <= l,
        l + a.len() + b.len() + c.len() + e.len() + f.len() + g.len() + h.len() + i.len() <= d.len(),
        d.subrange(l, l + a.len() + b.len() + c.len() + e.len() + f.len() + g.len() + h.len() + i.len()) == a + b + c + e + f + g + h + i,
    ensures
        d.subrange(l, l + a.len()) =~= a,
        d.subrange(l + a.len(), l + a.len() + b.len()) =~= b,
        d.subrange(l + a.len() + b.len(), l + a.len() + b.len() + c.len()) =~= c,
        d.subrange(l + a.len() + b.len() + c.len(), l + a.len() + b.len() + c.len() + e.len()) =~= e,
        d.subrange(l + a.len() + b.len() + c.len() + e.len(), l + a.len() + b.len() + c.len() + e.len() + f.len()) =~= f,
        d.subrange(l + a.len() + b.len() + c.len() + e.len() + f.len(), l + a.len() + b.len() + c.len() + e.len() + f.len() + g.len()) =~= g,
        d.subrange(l + a.len() + b.len() + c.len() + e.len() + f.len() + g.len(), l + a.len() + b.len() + c.len() + e.len() + f.len() + g.len() + h.len()) =~= h,
        d.subrange(l + a.len() + b.len() + c.len() + e.len() + f.len() + g.len() + h.len(), l + a.len() + b.len() + c.len() + e.len() + f.len() + g.len() + h.len() + i.len()) =~= i,
{
    lemma_region(d, l, a + b + c + e + f + g + h, i);
    lemma_region7(d, l, a, b, c, e, f, g, h);
}

/// A region equal to a 9-part concatenation splits in place.
pub proof fn lemma_region9(
    d: Seq<u8>,
    l: int,
    a: Seq<u8>,
    b: Seq<u8>,
    c: Seq<u8>,
    e: Seq<u8>,
    f: Seq<u8>,
    g: Seq<u8>,
    h: Seq<u8>,
    i: Seq<u8>,
    j: Seq<u8>,
)
    requires
        0 <= l,
        l + a.len() + b.len() + c.len() + e.len() + f.len() + g.len() + h.len() + i.len() + j.len() <= d.len(),
        d.subrange(l, l + a.len() + b.len() + c.len() + e.len() + f.len() + g.len() + h.len() + i.len() + j.len()) == a + b + c + e + f + g + h + i + j,
    ensures
        d.subrange(l, l + a.len()) =~= a,
        d.subrange(l + a.len(), l + a.len() + b.len()) =~= b,
        d.subrange(l + a.len() + b.len(), l + a.len() + b.len() + c.len()) =~= c,
        d.subrange(l + a.len() + b.len() + c.len(), l + a.len() + b.len() + c.len() + e.len()) =~= e,
        d.subrange(l + a.len() + b.len() + c.len() + e.len(), l + a.len() + b.len() + c.len() + e.len() + f.len()) =~= f,
        d.subrange(l + a.len() + b.len() + c.len() + e.len() + f.len(), l + a.len() + b.len() + c.len() + e.len() + f.len() + g.len()) =~= g,
        d.subrange(l + a.len() + b.len() + c.len() + e.len() + f.len() + g.len(), l + a.len() + b.len() + c.len() + e.len() + f.len() + g.len() + h.len()) =~= h,
        d.subrange(l + a.len() + b.len() + c.len() + e.len() + f.len() + g.len() + h.len(), l + a.len() + b.len() + c.len() + e.len() + f.len() + g.len() + h.len() + i.len()) =~= i,
        d.subrange(l + a.len() + b.len() + c.len() + e.len() + f.len() + g.len() + h.len() + i.len(), l + a.len() + b.len() + c.len() + e.len() + f.len() + g.len() + h.len() + i.len() + j.len()) =~= j,
{
    lemma_region(d, l, a + b + c + e + f + g + h + i, j);
    lemma_region8(d, l, a, b, c, e, f, g, h, i);
}

/// A region equal to a 10-part concatenation splits in place.
pub proof fn lemma_region10(
    d: Seq<u8>,
    l: int,
    a: Seq<u8>,
    b: Seq<u8>,
    c: Seq<u8>,
    e: Seq<u8>,
    f: Seq<u8>,
    g: Seq<u8>,
    h: Seq<u8>,
    i: Seq<u8>,
    j: Seq<u8>,
    k: Seq<u8>,
)
    requires
        0 <= l,
        l + a.len() + b.len() + c.len() + e.len() + f.len() + g.len() + h.len() + i.len() + j.len() + k.len() <= d.len(),
        d.subrange(l, l + a.len() + b.len() + c.len() + e.len() + f.len() + g.len() + h.len() + i.len() + j.len() + k.len()) == a + b + c + e + f + g + h + i + j + k,
    ensures
        d.subrange(l, l + a.len()) =~= a,
        d.subrange(l + a.len(), l + a.len() + b.len()) =~= b,
        d.subrange(l + a.len() + b.len(), l + a.len() + b.len() + c.len()) =~= c,
        d.subrange(l + a.len() + b.len() + c.len(), l + a.len() + b.len() + c.len() + e.len()) =~= e,
        d.subrange(l + a.len() + b.len() + c.len() + e.len(), l + a.len() + b.len() + c.len() + e.len() + f.len()) =~= f,
        d.subrange(l + a.len() + b.len() + c.len() + e.len() + f.len(), l + a.len() + b.len() + c.len() + e.len() + f.len() + g.len()) =~= g,
        d.subrange(l + a.len() + b.len() + c.len() + e.len() + f.len() + g.len(), l + a.len() + b.len() + c.len() + e.len() + f.len() + g.len() + h.len()) =~= h,
        d.subrange(l + a.len() + b.len() + c.len() + e.len() + f.len() + g.len() + h.len(), l + a.len() + b.len() + c.len() + e.len() + f.len() + g.len() + h.len() + i.len()) =~= i,
        d.subrange(l + a.len() + b.len() + c.len() + e.len() + f.len() + g.len() + h.len() + i.len(), l + a.len() + b.len() + c.len() + e.len() + f.len() + g.len() + h.len() + i.len() + j.len()) =~= j,
        d.subrange(l + a.len() + b.len() + c.len() + e.len() + f.len() + g.len() + h.len() + i.len() + j.len(), l + a.len() + b.len() + c.len() + e.len() + f.len() + g.len() + h.len() + i.len() + j.len() + k.len()) =~= k,
{
    lemma_region(d, l, a + b + c + e + f + g + h + i + j, k);
    lemma_region9(d, l, a, b, c, e, f, g, h, i, j);
}

/// A region equal to a 11-part concatenation splits in place.
pub proof fn lemma_region11(
    d: Seq<u8>,
    l: int,
    a: Seq<u8>,
    b: Seq<u8>,
    c: Seq<u8>,
    e: Seq<u8>,
    f: Seq<u8>,
    g: Seq<u8>,
    h: Seq<u8>,
    i: Seq<u8>,
    j: Seq<u8>,
    k: Seq<u8>,
    m: Seq<u8>,
)
    requires
        0 <= l,
        l + a.len() + b.len() + c.len() + e.len() + f.len() + g.len() + h.len() + i.len() + j.len() + k.len() + m.len() <= d.len(),
        d.subrange(l, l + a.len() + b.len() + c.len() + e.len() + f.len() + g.len() + h.len() + i.len() + j.len() + k.len() + m.len()) == a + b + c + e + f + g + h + i + j + k + m,
    ensures
        d.subrange(l, l + a.len()) =~= a,
        d.subrange(l + a.len(), l + a.len() + b.len()) =~= b,
        d.subrange(l + a.len() + b.len(), l + a.len() + b.len() + c.len()) =~= c,
        d.subrange(l + a.len() + b.len() + c.len(), l + a.len() + b.len() + c.len() + e.len()) =~= e,
        d.subrange(l + a.len() + b.len() + c.len() + e.len(), l + a.len() + b.len() + c.len() + e.len() + f.len()) =~= f,
        d.subrange(l + a.len() + b.len() + c.len() + e.len() + f.len(), l + a.len() + b.len() + c.len() + e.len() + f.len() + g.len()) =~= g,
        d.subrange(l + a.len() + b.len() + c.len() + e.len() + f.len() + g.len(), l + a.len() + b.len() + c.len() + e.len() + f.len() + g.len() + h.len()) =~= h,
        d.subrange(l + a.len() + b.len() + c.len() + e.len() + f.len() + g.len() + h.len(), l + a.len() + b.len() + c.len() + e.len() + f.len() + g.len() + h.len() + i.len()) =~= i,
        d.subrange(l + a.len() + b.len() + c.len() + e.len() + f.len() + g.len() + h.len() + i.len(), l + a.len() + b.len() + c.len() + e.len() + f.len() + g.len() + h.len() + i.len() + j.len()) =~= j,
        d.subrange(l + a.len() + b.len() + c.len() + e.len() + f.len() + g.len() + h.len() + i.len() + j.len(), l + a.len() + b.len() + c.len() + e.len() + f.len() + g.len() + h.len() + i.len() + j.len() + k.len()) =~= k,
        d.subrange(l + a.len() + b.len() + c.len() + e.len() + f.len() + g.len() + h.len() + i.len() + j.len() + k.len(), l + a.len() + b.len() + c.len() + e.len() + f.len() + g.len() + h.len() + i.len() + j.len() + k.len() + m.len()) =~= m,
{
    lemma_region(d, l, a + b + c + e + f + g + h + i + j + k, m);
    lemma_region10(d, l, a, b, c, e, f, g, h, i, j, k);
}

/// A region equal to a 12-part concatenation splits in place.
pub proof fn lemma_region12(
    d: Seq<u8>,
    l: int,
    a: Seq<u8>,
    b: Seq<u8>,
    c: Seq<u8>,
    e: Seq<u8>,
    f: Seq<u8>,
    g: Seq<u8>,
    h: Seq<u8>,
    i: Seq<u8>,
    j: Seq<u8>,
    k: Seq<u8>,
    m: Seq<u8>,
    n: Seq<u8>,
)
    requires
        0 <= l,
        l + a.len() + b.len() + c.len() + e.len() + f.len() + g.len() + h.len() + i.len() + j.len() + k.len() + m.len() + n.len() <= d.len(),
        d.subrange(l, l + a.len() + b.len() + c.len() + e.len() + f.len() + g.len() + h.len() + i.len() + j.len() + k.len() + m.len() + n.len()) == a + b + c + e + f + g + h + i + j + k + m + n,
    ensures
        d.subrange(l, l + a.len()) =~= a,
        d.subrange(l + a.len(), l + a.len() + b.len()) =~= b,
        d.subrange(l + a.len() + b.len(), l + a.len() + b.len() + c.len()) =~= c,
        d.subrange(l + a.len() + b.len() + c.len(), l + a.len() + b.len() + c.len() + e.len()) =~= e,
        d.subrange(l + a.len() + b.len() + c.len() + e.len(), l + a.len() + b.len() + c.len() + e.len() + f.len()) =~= f,
        d.subrange(l + a.len() + b.len() + c.len() + e.len() + f.len(), l + a.len() + b.len() + c.len() + e.len() + f.len() + g.len()) =~= g,
        d.subrange(l + a.len() + b.len() + c.len() + e.len() + f.len() + g.len(), l + a.len() + b.len() + c.len() + e.len() + f.len() + g.len() + h.len()) =~= h,
        d.subrange(l + a.len() + b.len() + c.len() + e.len() + f.len() + g.len() + h.len(), l + a.len() + b.len() + c.len() + e.len() + f.len() + g.len() + h.len() + i.len()) =~= i,
        d.subrange(l + a.len() + b.len() + c.len() + e.len() + f.len() + g.len() + h.len() + i.len(), l + a.len() + b.len() + c.len() + e.len() + f.len() + g.len() + h.len() + i.len() + j.len()) =~= j,
        d.subrange(l + a.len() + b.len() + c.len() + e.len() + f.len() + g.len() + h.len() + i.len() + j.len(), l + a.len() + b.len() + c.len() + e.len() + f.len() + g.len() + h.len() + i.len() + j.len() + k.len()) =~= k,
        d.subrange(l + a.len() + b.len() + c.len() + e.len() + f.len() + g.len() + h.len() + i.len() + j.len() + k.len(), l + a.len() + b.len() + c.len() + e.len() + f.len() + g.len() + h.len() + i.len() + j.len() + k.len() + m.len()) =~= m,
        d.subrange(l + a.len() + b.len() + c.len() + e.len() + f.len() + g.len() + h.len() + i.len() + j.len() + k.len() + m.len(), l + a.len() + b.len() + c.len() + e.len() + f.len() + g.len() + h.len() + i.len() + j.len() + k.len() + m.len() + n.len()) =~= n,
{
    lemma_region(d, l, a + b + c + e + f + g + h + i + j + k + m, n);
    lemma_region11(d, l, a, b, c, e, f, g, h, i, j, k, m);
}

/// A region equal to a 13-part concatenation splits in place.
pub proof fn lemma_region13(
    d: Seq<u8>,
    l: int,
    a: Seq<u8>,
    b: Seq<u8>,
    c: Seq<u8>,
    e: Seq<u8>,
    f: Seq<u8>,
    g: Seq<u8>,
    h: Seq<u8>,
    i: Seq<u8>,
    j: Seq<u8>,
    k: Seq<u8>,
    m: Seq<u8>,
    n: Seq<u8>,
    o: Seq<u8>,
)
    requires
        0 <= l,
        l + a.len() + b.len() + c.len() + e.len() + f.len() + g.len() + h.len() + i.len() + j.len() + k.len() + m.len() + n.len() + o.len() <= d.len(),
        d.subrange(l, l + a.len() + b.len() + c.len() + e.len() + f.len() + g.len() + h.len() + i.len() + j.len() + k.len() + m.len() + n.len() + o.len()) == a + b + c + e + f + g + h + i + j + k + m + n + o,
    ensures
        d.subrange(l, l + a.len()) =~= a,
        d.subrange(l + a.len(), l + a.len() + b.len()) =~= b,
        d.subrange(l + a.len() + b.len(), l + a.len() + b.len() + c.len()) =~= c,
        d.subrange(l + a.len() + b.len() + c.len(), l + a.len() + b.len() + c.len() + e.len()) =~= e,
        d.subrange(l + a.len() + b.len() + c.len() + e.len(), l + a.len() + b.len() + c.len() + e.len() + f.len()) =~= f,
        d.subrange(l + a.len() + b.len() + c.len() + e.len() + f.len(), l + a.len() + b.len() + c.len() + e.len() + f.len() + g.len()) =~= g,
        d.subrange(l + a.len() + b.len() + c.len() + e.len() + f.len() + g.len(), l + a.len() + b.len() + c.len() + e.len() + f.len() + g.len() + h.len()) =~= h,
        d.subrange(l + a.len() + b.len() + c.len() + e.len() + f.len() + g.len() + h.len(), l + a.len() + b.len() + c.len() + e.len() + f.len() + g.len() + h.len() + i.len()) =~= i,
        d.subrange(l + a.len() + b.len() + c.len() + e.len() + f.len() + g.len() + h.len() + i.len(), l + a.len() + b.len() + c.len() + e.len() + f.len() + g.len() + h.len() + i.len() + j.len()) =~= j,
        d.subrange(l + a.len() + b.len() + c.len() + e.len() + f.len() + g.len() + h.len() + i.len() + j.len(), l + a.len() + b.len() + c.len() + e.len() + f.len() + g.len() + h.len() + i.len() + j.len() + k.len()) =~= k,
        d.subrange(l + a.len() + b.len() + c.len() + e.len() + f.len() + g.len() + h.len() + i.len() + j.len() + k.len(), l + a.len() + b.len() + c.len() + e.len() + f.len() + g.len() + h.len() + i.len() + j.len() + k.len() + m.len()) =~= m,
        d.subrange(l + a.len() + b.len() + c.len() + e.len() + f.len() + g.len() + h.len() + i.len() + j.len() + k.len() + m.len(), l + a.len() + b.len() + c.len() + e.len() + f.len() + g.len() + h.len() + i.len() + j.len() + k.len() + m.len() + n.len()) =~= n,
        d.subrange(l + a.len() + b.len() + c.len() + e.len() + f.len() + g.len() + h.len() + i.len() + j.len() + k.len() + m.len() + n.len(), l + a.len() + b.len() + c.len() + e.len() + f.len() + g.len() + h.len() + i.len() + j.len() + k.len() + m.len() + n.len() + o.len()) =~= o,
{
    lemma_region(d, l, a + b + c + e + f + g + h + i + j + k + m + n, o);
    lemma_region12(d, l, a, b, c, e, f, g, h, i, j, k, m, n);
}

/// A region equal to a 14-part concatenation splits in place.
pub proof fn lemma_region14(
    d: Seq<u8>,
    l: int,
    a: Seq<u8>,
    b: Seq<u8>,
    c: Seq<u8>,
    e: Seq<u8>,
    f: Seq<u8>,
    g: Seq<u8>,
    h: Seq<u8>,
    i: Seq<u8>,
    j: Seq<u8>,
    k: Seq<u8>,
    m: Seq<u8>,
    n: Seq<u8>,
    o: Seq<u8>,
    p: Seq<u8>,
)
    requires
        0 <= l,
        l + a.len() + b.len() + c.len() + e.len() + f.len() + g.len() + h.len() + i.len() + j.len() + k.len() + m.len() + n.len() + o.len() + p.len() <= d.len(),
        d.subrange(l, l + a.len() + b.len() + c.len() + e.len() + f.len() + g.len() + h.len() + i.len() + j.len() + k.len() + m.len() + n.len() + o.len() + p.len()) == a + b + c + e + f + g + h + i + j + k + m + n + o + p,
    ensures
        d.subrange(l, l + a.len()) =~= a,
        d.subrange(l + a.len(), l + a.len() + b.len()) =~= b,
        d.subrange(l + a.len() + b.len(), l + a.len() + b.len() + c.len()) =~= c,
        d.subrange(l + a.len() + b.len() + c.len(), l + a.len() + b.len() + c.len() + e.len()) =~= e,
        d.subrange(l + a.len() + b.len() + c.len() + e.len(), l + a.len() + b.len() + c.len() + e.len() + f.len()) =~= f,
        d.subrange(l + a.len() + b.len() + c.len() + e.len() + f.len(), l + a.len() + b.len() + c.len() + e.len() + f.len() + g.len()) =~= g,
        d.subrange(l + a.len() + b.len() + c.len() + e.len() + f.len() + g.len(), l + a.len() + b.len() + c.len() + e.len() + f.len() + g.len() + h.len()) =~= h,
        d.subrange(l + a.len() + b.len() + c.len() + e.len() + f.len() + g.len() + h.len(), l + a.len() + b.len() + c.len() + e.len() + f.len() + g.len() + h.len() + i.len()) =~= i,
        d.subrange(l + a.len() + b.len() + c.len() + e.len() + f.len() + g.len() + h.len() + i.len(), l + a.len() + b.len() + c.len() + e.len() + f.len() + g.len() + h.len() + i.len() + j.len()) =~= j,
        d.subrange(l + a.len() + b.len() + c.len() + e.len() + f.len() + g.len() + h.len() + i.len() + j.len(), l + a.len() + b.len() + c.len() + e.len() + f.len() + g.len() + h.len() + i.len() + j.len() + k.len()) =~= k,
        d.subrange(l + a.len() + b.len() + c.len() + e.len() + f.len() + g.len() + h.len() + i.len() + j.len() + k.len(), l + a.len() + b.len() + c.len() + e.len() + f.len() + g.len() + h.len() + i.len() + j.len() + k.len() + m.len()) =~= m,
        d.subrange(l + a.len() + b.len() + c.len() + e.len() + f.len() + g.len() + h.len() + i.len() + j.len() + k.len() + m.len(), l + a.len() + b.len() + c.len() + e.len() + f.len() + g.len() + h.len() + i.len() + j.len() + k.len() + m.len() + n.len()) =~= n,
        d.subrange(l + a.len() + b.len() + c.len() + e.len() + f.len() + g.len() + h.len() + i.len() + j.len() + k.len() + m.len() + n.len(), l + a.len() + b.len() + c.len() + e.len() + f.len() + g.len() + h.len() + i.len() + j.len() + k.len() + m.len() + n.len() + o.len()) =~= o,
        d.subrange(l + a.len() + b.len() + c.len() + e.len() + f.len() + g.len() + h.len() + i.len() + j.len() + k.len() + m.len() + n.len() + o.len(), l + a.len() + b.len() + c.len() + e.len() + f.len() + g.len() + h.len() + i.len() + j.len() + k.len() + m.len() + n.len() + o.len() + p.len()) =~= p,
{
    lemma_region(d, l, a + b + c + e + f + g + h + i + j + k + m + n + o, p);
    lemma_region13(d, l, a, b, c, e, f, g, h, i, j, k, m, n, o);
}

// ---------------------------------------------------------------------------
// Executable readers
// ---------------------------------------------------------------------------
/// Reads one byte at `pos`.
pub fn read_u8(d: &[u8], pos: usize) -> (r: Result<(u8, usize), FieldError>)
    requires
        pos <= d@.len(),
    ensures
        r is Ok <==> pos + 1 <= d@.len(),
        r matches Ok((v, j)) ==> j == pos + 1 && seq![v] =~= d@.subrange(pos as int, j as int),
        r matches Err(e) ==> e == FieldError::Truncated,
{
    if d.len() - pos >= 1 {
        Ok((d[pos], pos + 1))
    } else {
        Err(FieldError::Truncated)
    }
}

/// Reads a big-endian `u16` at `pos`.
pub fn read_u16(d: &[u8], pos: usize) -> (r: Result<(u16, usize), FieldError>)
    requires
        pos <= d@.len(),
    ensures
        r is Ok <==> pos + 2 <= d@.len(),
        r matches Ok((v, j)) ==> j == pos + 2 && be16(v) =~= d@.subrange(pos as int, j as int)
            && v == be16_of(d@.subrange(pos as int, j as int)),
        r matches Err(e) ==> e == FieldError::Truncated,
{
    if d.len() - pos >= 2 {
        let v: u16 = (d[pos] as u16) * 0x100 + (d[pos + 1] as u16);
        proof {
            lemma_be16_bytes(d@.subrange(pos as int, pos + 2));
        }
        Ok((v, pos + 2))
    } else {
        Err(FieldError::Truncated)
    }
}

/// Reads a big-endian `u32` at `pos`.
pub fn read_u32(d: &[u8], pos: usize) -> (r: Result<(u32, usize), FieldError>)
    requires
        pos <= d@.len(),
    ensures
        r is Ok <==> pos + 4 <= d@.len(),
        r matches Ok((v, j)) ==> j == pos + 4 && be32(v) =~= d@.subrange(pos as int, j as int)
            && v == be32_of(d@.subrange(pos as int, j as int)),
        r matches Err(e) ==> e == FieldError::Truncated,
{
    if d.len() - pos >= 4 {
        let v: u32 = (d[pos] as u32) * 0x1000000 + (d[pos + 1] as u32) * 0x10000 + (d[pos
            + 2] as u32) * 0x100 + (d[pos + 3] as u32);
        proof {
            lemma_be32_bytes(d@.subrange(pos as int, pos + 4));
        }
        Ok((v, pos + 4))
    } else {
        Err(FieldError::Truncated)
    }
}

/// Reads a big-endian `u64` at `pos`.
pub fn read_u64(d: &[u8], pos: usize) -> (r: Result<(u64, usize), FieldError>)
    requires
        pos <= d@.len(),
    ensures
        r is Ok <==> pos + 8 <= d@.len(),
        r matches Ok((v, j)) ==> j == pos + 8 && be64(v) =~= d@.subrange(pos as int, j as int)
            && v == be64_of(d@.subrange(pos as int, j as int)),
        r matches Err(e) ==> e == FieldError::Truncated,
{
    if d.len() - pos >= 8 {
        let v: u64 = (d[pos] as u64) * 0x100000000000000 + (d[pos + 1] as u64) * 0x1000000000000 + (
        d[pos + 2] as u64) * 0x10000000000 + (d[pos + 3] as u64) * 0x100000000 + (d[pos
            + 4] as u64) * 0x1000000 + (d[pos + 5] as u64) * 0x10000 + (d[pos + 6] as u64) * 0x100
            + (d[pos + 7] as u64);
        proof {
            lemma_be64_bytes(d@.subrange(pos as int, pos + 8));
        }
        Ok((v, pos + 8))
    } else {
        Err(FieldError::Truncated)
    }
}

/// Reads `N` raw bytes at `pos` into a fixed array.
pub fn read_arr<const N: usize>(d: &[u8], pos: usize) -> (r: Result<([u8; N], usize), FieldError>)
    requires
        pos <= d@.len(),
    ensures
        r is Ok <==> pos + N <= d@.len(),
        r matches Ok((v, j)) ==> j == pos + N && v@ =~= d@.subrange(pos as int, j as int),
        r matches Err(e) ==> e == FieldError::Truncated,
{
    if d.len() - pos >= N {
        let mut out: [u8; N] = [0u8; N];
        let mut i: usize = 0;
        while i < N
            invariant
                i <= N,
                pos + N <= d@.len(),
                d@.len() <= usize::MAX,
                forall|k: int| 0 <= k < i ==> out@[k] == d@[pos + k],
            decreases N - i,
        {
            out[i] = d[pos + i];
            i = i + 1;
        }
        Ok((out, pos + N))
    } else {
        Err(FieldError::Truncated)
    }
}

/// Reads `n` raw bytes at `pos` into a vector.
pub fn read_vec(d: &[u8], pos: usize, n: usize) -> (r: Result<(Vec<u8>, usize), FieldError>)
    requires
        pos <= d@.len(),
    ensures
        r is Ok <==> pos + n <= d@.len(),
        r matches Ok((v, j)) ==> j == pos + n && v@ =~= d@.subrange(pos as int, j as int),
        r matches Err(e) ==> e == FieldError::Truncated,
{
    if d.len() - pos >= n {
        let mut out: Vec<u8> = Vec::new();
        let mut i: usize = 0;
        while i < n
            invariant
                i <= n,
                pos + n <= d@.len(),
                d@.len() <= usize::MAX,
                out@.len() == i,
                forall|k: int| 0 <= k < i ==> out@[k] == d@[pos + k],
            decreases n - i,
        {
            out.push(d[pos + i]);
            i = i + 1;
        }
        Ok((out, pos + n))
    } else {
        Err(FieldError::Truncated)
    }
}

/// Compares two byte slices for equality.
pub fn bytes_eq(a: &[u8], b: &[u8]) -> (r: bool)
    ensures
        r == (a@ == b@),
{
    if a.len() != b.len() {
        return false;
    }
    let mut i: usize = 0;
    while i < a.len()
        invariant
            i <= a@.len(),
            a@.len() == b@.len(),
            forall|k: int| 0 <= k < i ==> a@[k] == b@[k],
        decreases a@.len() - i,
    {
        if a[i] != b[i] {
            return false;
        }
        i = i + 1;
    }
    proof {
        assert(a@ =~= b@);
    }
    true
}

// ---------------------------------------------------------------------------
// Executable writers
// ---------------------------------------------------------------------------
/// Appends one byte.
pub fn write_u8(out: &mut Vec<u8>, v: u8)
    ensures
        final(out)@ =~= old(out)@ + seq![v],
{
    out.push(v);
}

/// Appends a `u16` in big-endian order.
pub fn write_u16(out: &mut Vec<u8>, v: u16)
    ensures
        final(out)@ =~= old(out)@ + be16(v),
{
    out.push((v / 0x100) as u8);
    out.push((v % 0x100) as u8);
}

/// Appends a `u32` in big-endian order.
pub fn write_u32(out: &mut Vec<u8>, v: u32)
    ensures
        final(out)@ =~= old(out)@ + be32(v),
{
    out.push((v / 0x1000000) as u8);
    out.push(((v / 0x10000) % 0x100) as u8);
    out.push(((v / 0x100) % 0x100) as u8);
    out.push((v % 0x100) as u8);
}

/// Appends a `u64` in big-endian order.
pub fn write_u64(out: &mut Vec<u8>, v: u64)
    ensures
        final(out)@ =~= old(out)@ + be64(v),
{
    out.push((v / 0x100000000000000) as u8);
    out.push(((v / 0x1000000000000) % 0x100) as u8);
    out.push(((v / 0x10000000000) % 0x100) as u8);
    out.push(((v / 0x100000000) % 0x100) as u8);
    out.push(((v / 0x1000000) % 0x100) as u8);
    out.push(((v / 0x10000) % 0x100) as u8);
    out.push(((v / 0x100) % 0x100) as u8);
    out.push((v % 0x100) as u8);
}

/// Appends a whole slice.
pub fn write_bytes(out: &mut Vec<u8>, b: &[u8])
    ensures
        final(out)@ =~= old(out)@ + b@,
{
    let mut i: usize = 0;
    while i < b.len()
        invariant
            i <= b@.len(),
            out@ =~= old(out)@ + b@.subrange(0, i as int),
        decreases b@.len() - i,
    {
        out.push(b[i]);
        proof {
            assert(b@.subrange(0, i + 1) =~= b@.subrange(0, i as int) + seq![b@[i as int]]);
        }
        i = i + 1;
    }
    proof {
        assert(b@.subrange(0, b@.len() as int) =~= b@);
    }
}

} // verus!
