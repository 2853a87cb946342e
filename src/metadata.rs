//! Fixed-size records of the game's compiled metadata, as little-endian bytes.

use vstd::prelude::*;

verus! {

/// The four little-endian bytes of `x`.
pub open spec fn le_bytes(x: u32) -> Seq<u8> {
    seq![
        (x % 256) as u8,
        ((x / 256) % 256) as u8,
        ((x / 65536) % 256) as u8,
        (x / 16777216) as u8,
    ]
}

/// The number that four little-endian bytes hold.
pub open spec fn le_value(b: Seq<u8>) -> int {
    b[0] as int + b[1] as int * 256 + b[2] as int * 65536 + b[3] as int * 16777216
}

/// Appends the four little-endian bytes of `x`.
pub fn push_le(out: &mut Vec<u8>, x: u32)
    ensures
        final(out)@ == old(out)@ + le_bytes(x),
{
    out.push((x % 256) as u8);
    out.push(((x / 256) % 256) as u8);
    out.push(((x / 65536) % 256) as u8);
    out.push((x / 16777216) as u8);
    assert(final(out)@ =~= old(out)@ + le_bytes(x));
}

/// Reads four little-endian bytes from `b[at..at + 4]`.
pub fn read_le(b: &[u8], at: usize) -> (r: u32)
    requires
        at + 4 <= b@.len(),
    ensures
        r as int == le_value(b@.subrange(at as int, at + 4)),
{
    let v = b[at] as u32 + b[at + 1] as u32 * 256 + b[at + 2] as u32 * 65536 + b[at + 3] as u32
        * 16777216;
    v
}

/// A field definition record.
#[derive(Debug, Clone, Copy, PartialEq, Eq, Structural)]
pub struct FieldDefinition {
    pub name_index: u32,
    pub type_index: u32,
    pub token: u32,
}

impl FieldDefinition {
    /// The twelve bytes of the record: each field little-endian, in order.
    pub fn to_bytes(&self) -> (r: Vec<u8>)
        ensures
            r@ == le_bytes(self.name_index) + le_bytes(self.type_index) + le_bytes(self.token),
    {
        let mut r: Vec<u8> = Vec::new();
        push_le(&mut r, self.name_index);
        push_le(&mut r, self.type_index);
        push_le(&mut r, self.token);
        r
    }
}

/// A field default value record.
#[derive(Debug, Clone, Copy, PartialEq, Eq, Structural)]
pub struct FieldDefaultValue {
    pub field_index: u32,
    pub type_index: u32,
    pub data_index: u32,
}

impl FieldDefaultValue {
    /// The twelve bytes of the record: each field little-endian, in order.
    pub fn to_bytes(&self) -> (r: Vec<u8>)
        ensures
            r@ == le_bytes(self.field_index) + le_bytes(self.type_index) + le_bytes(self.data_index),
    {
        let mut r: Vec<u8> = Vec::new();
        push_le(&mut r, self.field_index);
        push_le(&mut r, self.type_index);
        push_le(&mut r, self.data_index);
        r
    }

    /// The record held by the first twelve bytes.
    pub fn from_bytes(bytes: &[u8]) -> (r: FieldDefaultValue)
        requires
            bytes@.len() >= 12,
        ensures
            r.field_index as int == le_value(bytes@.subrange(0, 4)),
            r.type_index as int == le_value(bytes@.subrange(4, 8)),
            r.data_index as int == le_value(bytes@.subrange(8, 12)),
    {
        FieldDefaultValue {
            field_index: read_le(bytes, 0),
            type_index: read_le(bytes, 4),
            data_index: read_le(bytes, 8),
        }
    }
}

/// Appends `element` and gives its index.
pub fn vec_push_idx<T>(v: &mut Vec<T>, element: T) -> (r: usize)
    requires
        old(v)@.len() < usize::MAX,
    ensures
        final(v)@ == old(v)@.push(element),
        r == old(v)@.len(),
{
    v.push(element);
    v.len() - 1
}

} // verus!
