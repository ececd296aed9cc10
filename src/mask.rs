//! The tags of a schema node, as bits of a `u32`.

use vstd::prelude::*;

verus! {

/// An open (unbounded) string occurred.
pub const STRING: u32 = 0x1;

pub const BOOLEAN: u32 = 0x2;

pub const NULL: u32 = 0x4;

pub const ARRAY: u32 = 0x8;

/// An object whose properties are described.
pub const OBJECT: u32 = 0x10;

/// An integer that fits `i64`.
pub const I64: u32 = 0x20;

/// An integer above `i64::MAX`.
pub const U64: u32 = 0x40;

/// A number that is not an integer.
pub const F64: u32 = 0x80;

/// The property was missing from at least one observed object.
pub const ABSENT: u32 = 0x100;

/// An object whose properties were dropped because there were too many.
pub const LARGE_OBJECT: u32 = 0x200;

/// Only short strings from a bounded set were observed; the set is carried.
pub const STRING_SET: u32 = 0x400;

/// The tags that go with a payload or exclude one another:
/// `STRING`, `OBJECT`, `LARGE_OBJECT` and `STRING_SET`.
pub const SHAPE_TAGS: u32 = 0x611;

/// Whether mask `m` holds any bit of `t`.
pub open spec fn has_tag(m: u32, t: u32) -> bool {
    m & t != 0
}

/// The bits of `m` that are not shape tags.
pub open spec fn plain_bits(m: u32) -> u32 {
    m & !0x611u32
}

pub fn contains(m: u32, t: u32) -> (r: bool)
    ensures
        r == has_tag(m, t),
{
    m & t != 0
}

/// Bits of a union: a bit is in `x | y` exactly when it is in one of them.
pub proof fn lemma_has_union(x: u32, y: u32, t: u32)
    ensures
        has_tag(x | y, t) == (has_tag(x, t) || has_tag(y, t)),
        plain_bits(x | y) == plain_bits(x) | plain_bits(y),
{
    assert((x | y) & t != 0 <==> (x & t != 0 || y & t != 0)) by (bit_vector);
    assert((x | y) & !0x611u32 == (x & !0x611u32) | (y & !0x611u32)) by (bit_vector);
}

/// A mask built from plain bits and at most one string tag and one object tag
/// gives those parts back.
pub proof fn lemma_compose(p: u32, s: u32, o: u32)
    requires
        p & 0x611u32 == 0,
        s == 0 || s == 0x1 || s == 0x400,
        o == 0 || o == 0x10 || o == 0x200,
    ensures
        plain_bits(p | s | o) == p,
        has_tag(p | s | o, STRING) == (s == STRING),
        has_tag(p | s | o, STRING_SET) == (s == STRING_SET),
        has_tag(p | s | o, OBJECT) == (o == OBJECT),
        has_tag(p | s | o, LARGE_OBJECT) == (o == LARGE_OBJECT),
        has_tag(p | s | o, ARRAY) == has_tag(p, ARRAY),
{
    assert(((p | s | o) & 0x8 != 0) == (p & 0x8 != 0)) by (bit_vector)
        requires
            s == 0 || s == 0x1 || s == 0x400,
            o == 0 || o == 0x10 || o == 0x200,
    ;
    assert((p | s | o) & !0x611u32 == p) by (bit_vector)
        requires
            p & 0x611u32 == 0,
            s == 0 || s == 0x1 || s == 0x400,
            o == 0 || o == 0x10 || o == 0x200,
    ;
    assert(((p | s | o) & 0x1 != 0) == (s == 0x1) && ((p | s | o) & 0x400 != 0) == (s == 0x400)
        && ((p | s | o) & 0x10 != 0) == (o == 0x10) && ((p | s | o) & 0x200 != 0) == (o == 0x200))
        by (bit_vector)
        requires
            p & 0x611u32 == 0,
            s == 0 || s == 0x1 || s == 0x400,
            o == 0 || o == 0x10 || o == 0x200,
    ;
}

/// The single tags read back from themselves.
pub proof fn lemma_tags()
    ensures
        has_tag(STRING, STRING),
        !has_tag(STRING, STRING_SET),
        !has_tag(STRING_SET, STRING),
        has_tag(STRING_SET, STRING_SET),
        !has_tag(0, STRING),
        !has_tag(0, STRING_SET),
        has_tag(OBJECT, OBJECT),
        !has_tag(OBJECT, LARGE_OBJECT),
        !has_tag(LARGE_OBJECT, OBJECT),
        has_tag(LARGE_OBJECT, LARGE_OBJECT),
        !has_tag(0, OBJECT),
        !has_tag(0, LARGE_OBJECT),
        plain_bits(STRING) == 0,
        plain_bits(STRING_SET) == 0,
        plain_bits(OBJECT) == 0,
        !has_tag(STRING, OBJECT),
        !has_tag(STRING, LARGE_OBJECT),
        !has_tag(STRING_SET, OBJECT),
        !has_tag(STRING_SET, LARGE_OBJECT),
        !has_tag(OBJECT, STRING),
        !has_tag(OBJECT, STRING_SET),
        !has_tag(STRING, ARRAY),
        !has_tag(STRING_SET, ARRAY),
        !has_tag(OBJECT, ARRAY),
{
    assert(0x1u32 & !0x611u32 == 0 && 0x400u32 & !0x611u32 == 0 && 0x10u32 & !0x611u32 == 0) by (bit_vector);
    assert(0x1u32 & 0x10u32 == 0 && 0x1u32 & 0x200u32 == 0 && 0x400u32 & 0x10u32 == 0 && 0x400u32 & 0x200u32 == 0
        && 0x10u32 & 0x1u32 == 0 && 0x10u32 & 0x400u32 == 0 && 0x1u32 & 0x8u32 == 0 && 0x400u32 & 0x8u32 == 0
        && 0x10u32 & 0x8u32 == 0) by (bit_vector);
    assert(0x1u32 & 0x1u32 != 0 && 0x1u32 & 0x400u32 == 0 && 0x400u32 & 0x1u32 == 0 && 0x400u32 & 0x400u32 != 0
        && 0u32 & 0x1u32 == 0 && 0u32 & 0x400u32 == 0) by (bit_vector);
    assert(0x10u32 & 0x10u32 != 0 && 0x10u32 & 0x200u32 == 0 && 0x200u32 & 0x10u32 == 0 && 0x200u32 & 0x200u32 != 0
        && 0u32 & 0x10u32 == 0 && 0u32 & 0x200u32 == 0) by (bit_vector);
}

/// A tag without payload is all plain bits.
pub proof fn lemma_leaf_tag(t: u32)
    requires
        t == BOOLEAN || t == NULL || t == ARRAY || t == I64 || t == U64 || t == F64,
    ensures
        plain_bits(t) == t,
        !has_tag(t, STRING),
        !has_tag(t, STRING_SET),
        !has_tag(t, OBJECT),
        !has_tag(t, LARGE_OBJECT),
        has_tag(t, ARRAY) == (t == ARRAY),
{
    assert(t & !0x611u32 == t && t & 0x1 == 0 && t & 0x400 == 0 && t & 0x10 == 0 && t & 0x200 == 0 && ((t
        & 0x8 != 0) == (t == 0x8))) by (bit_vector)
        requires
            t == 0x2 || t == 0x4 || t == 0x8 || t == 0x20 || t == 0x40 || t == 0x80,
    ;
}

/// Plain tags survive in the plain bits.
pub proof fn lemma_plain_keeps(m: u32, t: u32)
    requires
        t == BOOLEAN || t == NULL || t == ARRAY || t == I64 || t == U64 || t == F64 || t == ABSENT,
    ensures
        has_tag(plain_bits(m), t) == has_tag(m, t),
{
    assert(((m & !0x611u32) & t != 0) == (m & t != 0)) by (bit_vector)
        requires
            t == 0x2 || t == 0x4 || t == 0x8 || t == 0x20 || t == 0x40 || t == 0x80 || t == 0x100,
    ;
}

/// The plain bits of any mask hold no shape tag.
pub proof fn lemma_plain_bits(m: u32)
    ensures
        plain_bits(m) & 0x611u32 == 0,
        plain_bits(m | ABSENT) == plain_bits(m) | ABSENT,
        has_tag(m | ABSENT, STRING) == has_tag(m, STRING),
        has_tag(m | ABSENT, STRING_SET) == has_tag(m, STRING_SET),
        has_tag(m | ABSENT, OBJECT) == has_tag(m, OBJECT),
        has_tag(m | ABSENT, LARGE_OBJECT) == has_tag(m, LARGE_OBJECT),
        has_tag(m | ABSENT, ARRAY) == has_tag(m, ARRAY),
        has_tag(m | ABSENT, ABSENT),
        has_tag(plain_bits(m), ARRAY) == has_tag(m, ARRAY),
{
    assert(((m & !0x611u32) & 0x8 != 0) == (m & 0x8 != 0)) by (bit_vector);
    assert((m & !0x611u32) & 0x611u32 == 0) by (bit_vector);
    assert((m | 0x100) & !0x611u32 == (m & !0x611u32) | 0x100) by (bit_vector);
    assert(((m | 0x100) & 0x1 != 0) == (m & 0x1 != 0) && ((m | 0x100) & 0x400 != 0) == (m & 0x400 != 0)
        && ((m | 0x100) & 0x10 != 0) == (m & 0x10 != 0) && ((m | 0x100) & 0x200 != 0) == (m & 0x200 != 0)
        && ((m | 0x100) & 0x8 != 0) == (m & 0x8 != 0) && (m | 0x100) & 0x100 != 0) by (bit_vector);
}

} // verus!
