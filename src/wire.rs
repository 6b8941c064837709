use vstd::prelude::*;

verus! {

pub const WIRE_TYPE_VARINT: u8 = 0;

pub const WIRE_TYPE_I64: u8 = 1;

pub const WIRE_TYPE_LEN: u8 = 2;

pub const WIRE_TYPE_I32: u8 = 5;

/// Largest field number plus one: a field number takes the 29 bits above the
/// wire type in a 32-bit tag.
pub open spec fn field_num_bound() -> int {
    0x2000_0000
}

/// A field key: the field number and the wire type of the value that follows.
#[derive(Debug, Clone, Copy, PartialEq, Eq, Structural)]
pub struct Tag {
    pub field_num: u32,
    pub wire_type: u8,
}

impl Tag {
    /// A tag that fits in the 32-bit packed form.
    pub open spec fn wf(&self) -> bool {
        &&& self.field_num < field_num_bound()
        &&& self.wire_type <= 7
    }

    /// The packed form `field_num * 8 + wire_type`, as it goes on the wire.
    pub open spec fn packed(&self) -> int {
        self.field_num * 8 + self.wire_type
    }

    /// Builds a tag; a field number keeps its low 29 bits, as in the packed form.
    pub fn from_parts(field_num: u32, wire_type: u8) -> (r: Tag)
        requires
            wire_type <= 7,
        ensures
            r.wf(),
            r.field_num == field_num as int % field_num_bound(),
            r.wire_type == wire_type,
    {
        let f = field_num & 0x1FFF_FFFF;
        assert(field_num & 0x1FFF_FFFF == field_num % 0x2000_0000) by (bit_vector);
        Tag { field_num: f, wire_type }
    }

    pub fn wire_type(&self) -> (r: u8)
        ensures
            r == self.wire_type,
    {
        self.wire_type
    }

    pub fn field_num(&self) -> (r: u32)
        ensures
            r == self.field_num,
    {
        self.field_num
    }

    /// The tag as the 32-bit integer that is written as a varint.
    pub fn varint(&self) -> (r: u32)
        ensures
            self.wf() ==> r == self.packed(),
            r == (self.field_num << 3) | (self.wire_type as u32),
    {
        let f = self.field_num;
        let w = self.wire_type as u32;
        assert(f < 0x2000_0000 && w <= 7 ==> (f << 3) | w == f * 8 + w) by (bit_vector);
        (f << 3) | w
    }

    /// Splits a packed tag into its field number and wire type.
    pub fn from_varint(u: u32) -> (r: Tag)
        ensures
            r.wf(),
            r.field_num == u / 8,
            r.wire_type == u % 8,
            r.packed() == u,
    {
        assert(u >> 3 == u / 8 && u & 7 == u % 8) by (bit_vector);
        Tag { field_num: u >> 3, wire_type: (u & 7) as u8 }
    }
}

} // verus!
