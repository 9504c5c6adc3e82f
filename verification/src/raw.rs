//! Unpacking the raw (unscaled) field values of a message body, given the
//! types of the message's fields in the order in which they are stored.

use crate::wire::{
    be_u16, be_u32, be_u64, lemma_be_u16_value, lemma_be_u32_value, lemma_be_u64_value,
    read_be_i16, read_be_i32, read_be_i64, read_be_u16, read_be_u32, read_be_u64,
};
use vstd::prelude::*;
use vstd::slice::slice_subrange;

verus! {

/// The integer type of one field of a message, as a message definition names it.
#[derive(Clone, Copy, Debug, PartialEq, Eq, Structural)]
pub enum FieldType {
    U8,
    U16,
    I16,
    U32,
    I32,
    U64,
    I64,
}

/// One raw field value, as stored in a message body.
#[derive(Clone, Copy, Debug, PartialEq, Eq, Structural)]
pub enum RawValue {
    U8(u8),
    U16(u16),
    I16(i16),
    U32(u32),
    I32(i32),
    U64(u64),
    I64(i64),
}

/// The number of bytes a field of type `t` takes in a body.
pub open spec fn field_width(t: FieldType) -> nat {
    match t {
        FieldType::U8 => 1,
        FieldType::U16 | FieldType::I16 => 2,
        FieldType::U32 | FieldType::I32 => 4,
        FieldType::U64 | FieldType::I64 => 8,
    }
}

/// The number of bytes the fields of `layout` take, one after the other.
pub open spec fn layout_width(layout: Seq<FieldType>) -> nat
    decreases layout.len(),
{
    if layout.len() == 0 {
        0
    } else {
        layout_width(layout.drop_last()) + field_width(layout.last())
    }
}

/// The value of a field of type `t` stored big-endian at the start of `s`.
pub open spec fn field_value(t: FieldType, s: Seq<u8>) -> RawValue {
    match t {
        FieldType::U8 => RawValue::U8(s[0]),
        FieldType::U16 => RawValue::U16(be_u16(s)),
        FieldType::I16 => RawValue::I16(be_u16(s) as i16),
        FieldType::U32 => RawValue::U32(be_u32(s)),
        FieldType::I32 => RawValue::I32(be_u32(s) as i32),
        FieldType::U64 => RawValue::U64(be_u64(s)),
        FieldType::I64 => RawValue::I64(be_u64(s) as i64),
    }
}

/// The raw values of the fields of `layout`, read one after the other from
/// the start of `body`.
pub open spec fn raw_values(layout: Seq<FieldType>, body: Seq<u8>) -> Seq<RawValue> {
    Seq::new(
        layout.len(),
        |i: int| field_value(layout[i], body.skip(layout_width(layout.take(i)) as int)),
    )
}

/// The width of a prefix of a layout is the width of a shorter prefix plus
/// the fields between them, and never more than the width of the whole.
proof fn lemma_layout_width_prefix(layout: Seq<FieldType>, i: int)
    requires
        0 <= i < layout.len(),
    ensures
        layout_width(layout.take(i + 1)) == layout_width(layout.take(i)) + field_width(layout[i]),
        layout_width(layout.take(i + 1)) <= layout_width(layout),
    decreases layout.len(),
{
    assert(layout.take(i + 1).drop_last() =~= layout.take(i));
    if i + 1 == layout.len() {
        assert(layout.take(i + 1) =~= layout);
    } else {
        lemma_layout_width_prefix(layout.drop_last(), i);
        assert(layout.drop_last().take(i + 1) =~= layout.take(i + 1));
    }
}

/// Reads one field of type `t` from the start of `buf`.
fn read_field(t: FieldType, buf: &[u8]) -> (r: RawValue)
    requires
        buf@.len() >= field_width(t),
    ensures
        r == field_value(t, buf@),
{
    match t {
        FieldType::U8 => RawValue::U8(buf[0]),
        FieldType::U16 => RawValue::U16(read_be_u16(buf)),
        FieldType::I16 => RawValue::I16(read_be_i16(buf)),
        FieldType::U32 => RawValue::U32(read_be_u32(buf)),
        FieldType::I32 => RawValue::I32(read_be_i32(buf)),
        FieldType::U64 => RawValue::U64(read_be_u64(buf)),
        FieldType::I64 => RawValue::I64(read_be_i64(buf)),
    }
}

/// Reads the body and returns the unpacked raw values of the fields of
/// `layout`, in order.
pub fn read_raw(layout: &[FieldType], body: Vec<u8>) -> (r: Vec<RawValue>)
    requires
        layout_width(layout@) <= body@.len(),
    ensures
        r@ == raw_values(layout@, body@),
{
    let mut out: Vec<RawValue> = Vec::new();
    let mut pos: usize = 0;
    let mut i: usize = 0;
    assert(layout@.take(0) =~= Seq::<FieldType>::empty());
    while i < layout.len()
        invariant
            i <= layout@.len(),
            layout_width(layout@) <= body@.len(),
            pos == layout_width(layout@.take(i as int)),
            pos <= body@.len(),
            out@.len() == i,
            forall|j: int| 0 <= j < i ==> #[trigger] out@[j] == raw_values(layout@, body@)[j],
        decreases layout@.len() - i,
    {
        proof {
            lemma_layout_width_prefix(layout@, i as int);
            assert(body@.subrange(pos as int, body@.len() as int) =~= body@.skip(pos as int));
        }
        let t = layout[i];
        let v = read_field(t, slice_subrange(body.as_slice(), pos, body.len()));
        out.push(v);
        pos = pos + field_width_exec(t);
        i = i + 1;
    }
    assert(out@ =~= raw_values(layout@, body@));
    out
}

/// The width of a field type, for executable code.
fn field_width_exec(t: FieldType) -> (r: usize)
    ensures
        r == field_width(t),
{
    match t {
        FieldType::U8 => 1,
        FieldType::U16 | FieldType::I16 => 2,
        FieldType::U32 | FieldType::I32 => 4,
        FieldType::U64 | FieldType::I64 => 8,
    }
}

/// The value of a field is read from its bytes, most significant first: an
/// unsigned field is their base-256 value `u`, and a signed field of `n`
/// bytes is `u`, less `256^n` when the first byte has its top bit set (two's
/// complement).
pub proof fn lemma_field_value_of_bytes(t: FieldType, s: Seq<u8>)
    requires
        s.len() >= field_width(t),
    ensures
        match field_value(t, s) {
            RawValue::U8(v) => t == FieldType::U8 && v == s[0],
            RawValue::U16(v) => t == FieldType::U16 && v as int == s[0] * 0x100 + s[1],
            RawValue::I16(v) => t == FieldType::I16 && v as int == s[0] * 0x100 + s[1] - if s[0]
                >= 0x80 {
                0x1_0000int
            } else {
                0int
            },
            RawValue::U32(v) => t == FieldType::U32 && v as int == s[0] * 0x100_0000 + s[1]
                * 0x1_0000 + s[2] * 0x100 + s[3],
            RawValue::I32(v) => t == FieldType::I32 && v as int == s[0] * 0x100_0000 + s[1]
                * 0x1_0000 + s[2] * 0x100 + s[3] - if s[0] >= 0x80 {
                0x1_0000_0000int
            } else {
                0int
            },
            RawValue::U64(v) => t == FieldType::U64 && v as int == s[0] * 0x100_0000_0000_0000
                + s[1] * 0x1_0000_0000_0000 + s[2] * 0x100_0000_0000 + s[3] * 0x1_0000_0000 + s[4]
                * 0x100_0000 + s[5] * 0x1_0000 + s[6] * 0x100 + s[7],
            RawValue::I64(v) => t == FieldType::I64 && v as int == s[0] * 0x100_0000_0000_0000
                + s[1] * 0x1_0000_0000_0000 + s[2] * 0x100_0000_0000 + s[3] * 0x1_0000_0000 + s[4]
                * 0x100_0000 + s[5] * 0x1_0000 + s[6] * 0x100 + s[7] - if s[0] >= 0x80 {
                0x1_0000_0000_0000_0000int
            } else {
                0int
            },
        },
{
    match t {
        FieldType::U8 => {},
        FieldType::U16 => {
            lemma_be_u16_value(s);
        },
        FieldType::I16 => {
            lemma_be_u16_value(s);
            let x = be_u16(s);
            let (a, b) = (s[0], s[1]);
            assert(x < 0x8000 ==> (x as i16) == x) by (bit_vector);
            assert(x >= 0x8000 ==> (x as i16) + 0x1_0000 == x) by (bit_vector);
            assert(x == ((a as u16) << 8u16) | (b as u16) ==> (x >= 0x8000 <==> a >= 0x80))
                by (bit_vector);
        },
        FieldType::U32 => {
            lemma_be_u32_value(s);
        },
        FieldType::I32 => {
            lemma_be_u32_value(s);
            let x = be_u32(s);
            let (a, b, c, d) = (s[0], s[1], s[2], s[3]);
            assert(x < 0x8000_0000 ==> (x as i32) == x) by (bit_vector);
            assert(x >= 0x8000_0000 ==> (x as i32) + 0x1_0000_0000 == x) by (bit_vector);
            assert(x == ((a as u32) << 24u32) | ((b as u32) << 16u32) | ((c as u32) << 8u32)
                | (d as u32) ==> (x >= 0x8000_0000 <==> a >= 0x80)) by (bit_vector);
        },
        FieldType::U64 => {
            lemma_be_u64_value(s);
        },
        FieldType::I64 => {
            lemma_be_u64_value(s);
            let x = be_u64(s);
            let (a, b, c, d, e, f, g, h) = (s[0], s[1], s[2], s[3], s[4], s[5], s[6], s[7]);
            assert(x < 0x8000_0000_0000_0000 ==> (x as i64) == x) by (bit_vector);
            assert(x >= 0x8000_0000_0000_0000 ==> (x as i64) + 0x1_0000_0000_0000_0000 == x)
                by (bit_vector);
            assert(x == ((a as u64) << 56u64) | ((b as u64) << 48u64) | ((c as u64) << 40u64) | ((
            d as u64) << 32u64) | ((e as u64) << 24u64) | ((f as u64) << 16u64) | ((g as u64) << 8u64)
                | (h as u64) ==> (x >= 0x8000_0000_0000_0000 <==> a
                >= 0x80)) by (bit_vector);
        },
    }
}

} // verus!
