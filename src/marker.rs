use vstd::prelude::*;

verus! {

/// Wire id of a signed 64-bit integer.
pub const MARKER_I64: u8 = 1;
/// Wire id of a signed 32-bit integer.
pub const MARKER_I32: u8 = 2;
/// Wire id of a signed 16-bit integer.
pub const MARKER_I16: u8 = 3;
/// Wire id of a signed 8-bit integer.
pub const MARKER_I8: u8 = 4;
/// Wire id of an unsigned 64-bit integer.
pub const MARKER_U64: u8 = 5;
/// Wire id of an unsigned 32-bit integer.
pub const MARKER_U32: u8 = 6;
/// Wire id of an unsigned 16-bit integer.
pub const MARKER_U16: u8 = 7;
/// Wire id of an unsigned 8-bit integer.
pub const MARKER_U8: u8 = 8;
/// Wire id of a 64-bit float.
pub const MARKER_F64: u8 = 9;
/// Wire id of a string or byte buffer.
pub const MARKER_STRING: u8 = 10;
/// Wire id of a boolean.
pub const MARKER_BOOL: u8 = 11;
/// Wire id of a nested field map.
pub const MARKER_STRUCT: u8 = 12;
/// Flag bit that turns an element id into "sequence of that element".
pub const MARKER_ARRAY_ELEMENT: u8 = 0x80;

/// A one-byte type tag.
#[derive(Debug, Clone, Copy, PartialEq, Eq, Structural)]
pub enum Marker {
    Single { value: u8 },
    Sequence { element: u8 },
}

/// The marker that a byte decodes to.
pub open spec fn spec_from_byte(b: u8) -> Marker {
    if b >= 0x80 {
        Marker::Sequence { element: (b - 0x80) as u8 }
    } else {
        Marker::Single { value: b }
    }
}

/// The byte that a marker encodes to.
pub open spec fn spec_to_byte(m: Marker) -> u8 {
    match m {
        Marker::Single { value } => value,
        Marker::Sequence { element } => if element >= 0x80 {
            element
        } else {
            (element + 0x80) as u8
        },
    }
}

impl Marker {
    pub fn from_byte(value: u8) -> (r: Marker)
        ensures
            r == spec_from_byte(value),
    {
        let is_sequence = value & MARKER_ARRAY_ELEMENT > 0;
        assert(is_sequence == (value >= 0x80)) by (bit_vector)
            requires
                is_sequence == (value & 0x80u8 > 0),
        ;
        if is_sequence {
            let element = value ^ MARKER_ARRAY_ELEMENT;
            assert(element == value - 0x80) by (bit_vector)
                requires
                    element == value ^ 0x80u8,
                    value >= 0x80,
            ;
            return Marker::Sequence { element };
        }
        Marker::Single { value }
    }

    pub fn to_sequence(&self) -> (r: Marker)
        ensures
            r == (match *self {
                Marker::Single { value } => Marker::Sequence { element: value },
                Marker::Sequence { element } => Marker::Sequence { element },
            }),
    {
        match *self {
            Marker::Single { value } => Marker::Sequence { element: value },
            Marker::Sequence { element } => Marker::Sequence { element },
        }
    }

    pub fn to_byte(&self) -> (r: u8)
        ensures
            r == spec_to_byte(*self),
    {
        match *self {
            Marker::Single { value } => value,
            Marker::Sequence { element } => {
                let r = element | MARKER_ARRAY_ELEMENT;
                assert(r == if element >= 0x80 {
                    element
                } else {
                    (element + 0x80) as u8
                }) by (bit_vector)
                    requires
                        r == element | 0x80u8,
                ;
                r
            },
        }
    }
}

/// Reading a byte as a marker and writing the marker back gives the same byte.
pub proof fn lemma_marker_byte_round_trip(b: u8)
    ensures
        spec_to_byte(spec_from_byte(b)) == b,
{
}

/// A marker whose id has no flag bit is read back from its byte unchanged.
pub proof fn lemma_marker_round_trip(m: Marker)
    requires
        match m {
            Marker::Single { value } => value < 0x80,
            Marker::Sequence { element } => element < 0x80,
        },
    ensures
        spec_from_byte(spec_to_byte(m)) == m,
{
}

} // verus!
