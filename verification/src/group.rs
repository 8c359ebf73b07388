//! The arithmetic of one block: three bytes and four 6-bit fields are two
//! ways to write the same 24-bit number.

use vstd::prelude::*;

verus! {

/// The 24-bit number whose big-endian bytes are `b0`, `b1`, `b2`.
pub open spec fn triple_value(b0: int, b1: int, b2: int) -> int {
    b0 * 65536 + b1 * 256 + b2
}

/// The 24-bit number whose 6-bit fields are `s0`, `s1`, `s2`, `s3`, most
/// significant first.
pub open spec fn quad_value(s0: int, s1: int, s2: int, s3: int) -> int {
    s0 * 262144 + s1 * 4096 + s2 * 64 + s3
}

/// The 6-bit field of `value` at position `k`; position 0 holds the most
/// significant six of its 24 bits, position 3 the least significant.
pub open spec fn field(value: int, k: int) -> int {
    if k == 0 {
        (value / 262144) % 64
    } else if k == 1 {
        (value / 4096) % 64
    } else if k == 2 {
        (value / 64) % 64
    } else {
        value % 64
    }
}

/// The byte of `value` at position `k`; position 0 holds the most
/// significant eight of its 24 bits, position 2 the least significant.
pub open spec fn octet(value: int, k: int) -> int {
    if k == 0 {
        (value / 65536) % 256
    } else if k == 1 {
        (value / 256) % 256
    } else {
        value % 256
    }
}

/// A value that fits in six bits.
pub open spec fn is_sextet(s: int) -> bool {
    0 <= s < 64
}

/// The fields of three bytes, written with the bytes alone.
pub proof fn lemma_fields_of_triple(b0: int, b1: int, b2: int)
    requires
        0 <= b0 < 256,
        0 <= b1 < 256,
        0 <= b2 < 256,
    ensures
        field(triple_value(b0, b1, b2), 0) == b0 / 4,
        field(triple_value(b0, b1, b2), 1) == (b0 % 4) * 16 + b1 / 16,
        field(triple_value(b0, b1, b2), 2) == (b1 % 16) * 4 + b2 / 64,
        field(triple_value(b0, b1, b2), 3) == b2 % 64,
{
    let x0: u32 = b0 as u32;
    let x1: u32 = b1 as u32;
    let x2: u32 = b2 as u32;
    assert(((x0 * 65536 + x1 * 256 + x2) / 262144) % 64 == x0 / 4
        && ((x0 * 65536 + x1 * 256 + x2) / 4096) % 64 == (x0 % 4) * 16 + x1 / 16
        && ((x0 * 65536 + x1 * 256 + x2) / 64) % 64 == (x1 % 16) * 4 + x2 / 64
        && (x0 * 65536 + x1 * 256 + x2) % 64 == x2 % 64) by (bit_vector)
        requires
            x0 < 256,
            x1 < 256,
            x2 < 256,
    ;
}

/// The bytes of four fields, written with the fields alone.
pub proof fn lemma_octets_of_quad(s0: int, s1: int, s2: int, s3: int)
    requires
        is_sextet(s0),
        is_sextet(s1),
        is_sextet(s2),
        is_sextet(s3),
    ensures
        octet(quad_value(s0, s1, s2, s3), 0) == s0 * 4 + s1 / 16,
        octet(quad_value(s0, s1, s2, s3), 1) == (s1 % 16) * 16 + s2 / 4,
        octet(quad_value(s0, s1, s2, s3), 2) == (s2 % 4) * 64 + s3,
{
    let x0: u32 = s0 as u32;
    let x1: u32 = s1 as u32;
    let x2: u32 = s2 as u32;
    let x3: u32 = s3 as u32;
    assert(((x0 * 262144 + x1 * 4096 + x2 * 64 + x3) / 65536) % 256 == x0 * 4 + x1 / 16
        && ((x0 * 262144 + x1 * 4096 + x2 * 64 + x3) / 256) % 256 == (x1 % 16) * 16 + x2 / 4
        && (x0 * 262144 + x1 * 4096 + x2 * 64 + x3) % 256 == (x2 % 4) * 64 + x3) by (bit_vector)
        requires
            x0 < 64,
            x1 < 64,
            x2 < 64,
            x3 < 64,
    ;
}

/// Every field is a 6-bit value, and the four fields of a 24-bit number
/// give the number back.
pub proof fn lemma_fields_rebuild(value: int)
    requires
        0 <= value < 16777216,
    ensures
        is_sextet(field(value, 0)),
        is_sextet(field(value, 1)),
        is_sextet(field(value, 2)),
        is_sextet(field(value, 3)),
        quad_value(field(value, 0), field(value, 1), field(value, 2), field(value, 3)) == value,
{
}

/// The three bytes of the number that three bytes spell are those bytes.
pub proof fn lemma_octets_of_triple(b0: int, b1: int, b2: int)
    requires
        0 <= b0 < 256,
        0 <= b1 < 256,
        0 <= b2 < 256,
    ensures
        0 <= triple_value(b0, b1, b2) < 16777216,
        octet(triple_value(b0, b1, b2), 0) == b0,
        octet(triple_value(b0, b1, b2), 1) == b1,
        octet(triple_value(b0, b1, b2), 2) == b2,
{
    let x0: u32 = b0 as u32;
    let x1: u32 = b1 as u32;
    let x2: u32 = b2 as u32;
    assert(((x0 * 65536 + x1 * 256 + x2) / 65536) % 256 == x0
        && ((x0 * 65536 + x1 * 256 + x2) / 256) % 256 == x1
        && (x0 * 65536 + x1 * 256 + x2) % 256 == x2) by (bit_vector)
        requires
            x0 < 256,
            x1 < 256,
            x2 < 256,
    ;
}

/// Splits three bytes into their four 6-bit fields, most significant first.
pub fn split_group(b0: u8, b1: u8, b2: u8) -> (f: (u8, u8, u8, u8))
    ensures
        f.0 as int == field(triple_value(b0 as int, b1 as int, b2 as int), 0),
        f.1 as int == field(triple_value(b0 as int, b1 as int, b2 as int), 1),
        f.2 as int == field(triple_value(b0 as int, b1 as int, b2 as int), 2),
        f.3 as int == field(triple_value(b0 as int, b1 as int, b2 as int), 3),
        f.0 == b0 >> 2,
        f.1 == ((b0 & 0x03) << 4) | (b1 >> 4),
        f.2 == ((b1 & 0x0F) << 2) | (b2 >> 6),
        f.3 == b2 & 0x3F,
        f.0 < 64 && f.1 < 64 && f.2 < 64 && f.3 < 64,
{
    let f0: u8 = b0 >> 2;
    let f1: u8 = ((b0 & 0x03) << 4) | (b1 >> 4);
    let f2: u8 = ((b1 & 0x0F) << 2) | (b2 >> 6);
    let f3: u8 = b2 & 0x3F;
    proof {
        assert(b0 >> 2 == b0 / 4) by (bit_vector);
        assert(((b0 & 0x03) << 4) | (b1 >> 4) == (b0 % 4) * 16 + b1 / 16) by (bit_vector);
        assert(((b1 & 0x0F) << 2) | (b2 >> 6) == (b1 % 16) * 4 + b2 / 64) by (bit_vector);
        assert(b2 & 0x3F == b2 % 64) by (bit_vector);
        lemma_fields_of_triple(b0 as int, b1 as int, b2 as int);
    }
    (f0, f1, f2, f3)
}

/// Joins four 6-bit fields, most significant first, into their three bytes.
pub fn join_group(s0: u8, s1: u8, s2: u8, s3: u8) -> (b: (u8, u8, u8))
    requires
        s0 < 64,
        s1 < 64,
        s2 < 64,
        s3 < 64,
    ensures
        b.0 as int == octet(quad_value(s0 as int, s1 as int, s2 as int, s3 as int), 0),
        b.1 as int == octet(quad_value(s0 as int, s1 as int, s2 as int, s3 as int), 1),
        b.2 as int == octet(quad_value(s0 as int, s1 as int, s2 as int, s3 as int), 2),
        b.0 == (s0 << 2) | (s1 >> 4),
        b.1 == ((s1 & 0x0F) << 4) | (s2 >> 2),
        b.2 == ((s2 & 0x03) << 6) | s3,
{
    let b0: u8 = (s0 << 2) | (s1 >> 4);
    let b1: u8 = ((s1 & 0x0F) << 4) | (s2 >> 2);
    let b2: u8 = ((s2 & 0x03) << 6) | s3;
    proof {
        assert((s0 << 2) | (s1 >> 4) == s0 * 4 + s1 / 16) by (bit_vector)
            requires
                s0 < 64,
                s1 < 64,
        ;
        assert(((s1 & 0x0F) << 4) | (s2 >> 2) == (s1 % 16) * 16 + s2 / 4) by (bit_vector)
            requires
                s2 < 64,
        ;
        assert(((s2 & 0x03) << 6) | s3 == (s2 % 4) * 64 + s3) by (bit_vector)
            requires
                s3 < 64,
        ;
        lemma_octets_of_quad(s0 as int, s1 as int, s2 as int, s3 as int);
    }
    (b0, b1, b2)
}

} // verus!
