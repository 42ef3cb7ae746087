use vstd::prelude::*;

use crate::error::{Error, Result};
use crate::marker::{
    spec_from_byte, Marker, MARKER_BOOL, MARKER_F64, MARKER_I16, MARKER_I32, MARKER_I64, MARKER_I8,
    MARKER_STRING, MARKER_STRUCT, MARKER_U16, MARKER_U32, MARKER_U64, MARKER_U8,
};
use crate::read_ext::{le_bytes, le_value, spec_bool};
use crate::value::ValueModel;
use crate::varint::{spec_decode as varint_parse, spec_encode as varint_bytes, VARINT_LIMIT};
use vstd::utf8::{decode_utf8, encode_utf8, valid_utf8};

verus! {

broadcast use vstd::seq::axiom_seq_index_decreases;

/// The longest string or byte buffer that a decoder accepts.
pub const MAX_STRING_LEN_POSSIBLE: u64 = 2000000000;

/// The type id of a value that is not a sequence.
pub open spec fn single_id(v: ValueModel) -> u8 {
    match v {
        ValueModel::I64(_) => MARKER_I64,
        ValueModel::I32(_) => MARKER_I32,
        ValueModel::I16(_) => MARKER_I16,
        ValueModel::I8(_) => MARKER_I8,
        ValueModel::U64(_) => MARKER_U64,
        ValueModel::U32(_) => MARKER_U32,
        ValueModel::U16(_) => MARKER_U16,
        ValueModel::U8(_) => MARKER_U8,
        ValueModel::F64(_) => MARKER_F64,
        ValueModel::Str(_) => MARKER_STRING,
        ValueModel::Bytes(_) => MARKER_STRING,
        ValueModel::Bool(_) => MARKER_BOOL,
        ValueModel::Object(_) => MARKER_STRUCT,
        ValueModel::List(_) => 0,
    }
}

/// The marker byte written before a value. A sequence carries the id of its
/// first element with the flag bit; an empty one is written as bytes.
pub open spec fn marker_byte(v: ValueModel) -> u8 {
    match v {
        ValueModel::List(items) => if items.len() == 0 {
            (MARKER_U8 + 0x80) as u8
        } else {
            (single_id(items[0]) + 0x80) as u8
        },
        _ => single_id(v),
    }
}

/// The bytes of a value after its marker.
pub open spec fn enc_payload(v: ValueModel) -> Seq<u8>
    decreases v,
{
    match v {
        ValueModel::I64(x) => le_bytes(x as u64 as nat, 8),
        ValueModel::I32(x) => le_bytes(x as u32 as nat, 4),
        ValueModel::I16(x) => le_bytes(x as u16 as nat, 2),
        ValueModel::I8(x) => le_bytes(x as u8 as nat, 1),
        ValueModel::U64(x) => le_bytes(x as nat, 8),
        ValueModel::U32(x) => le_bytes(x as nat, 4),
        ValueModel::U16(x) => le_bytes(x as nat, 2),
        ValueModel::U8(x) => le_bytes(x as nat, 1),
        ValueModel::F64(x) => le_bytes(x as nat, 8),
        ValueModel::Str(s) => varint_bytes(encode_utf8(s).len()) + encode_utf8(s),
        ValueModel::Bytes(b) => varint_bytes(b.len()) + b,
        ValueModel::Bool(b) => seq![if b { 1u8 } else { 0u8 }],
        ValueModel::Object(fs) => varint_bytes(fs.len()) + enc_fields(fs),
        ValueModel::List(items) => varint_bytes(items.len()) + enc_items(items),
    }
}

/// Fields in order: name length, name bytes, marker, payload.
pub open spec fn enc_fields(fs: Seq<(Seq<char>, ValueModel)>) -> Seq<u8>
    decreases fs,
{
    if fs.len() == 0 {
        Seq::empty()
    } else {
        let name = encode_utf8(fs.last().0);
        enc_fields(fs.drop_last()) + seq![name.len() as u8] + name + seq![marker_byte(fs.last().1)]
            + enc_payload(fs.last().1)
    }
}

/// Elements of a sequence in order, without markers of their own.
pub open spec fn enc_items(items: Seq<ValueModel>) -> Seq<u8>
    decreases items,
{
    if items.len() == 0 {
        Seq::empty()
    } else {
        enc_items(items.drop_last()) + enc_payload(items.last())
    }
}

/// A value with its marker.
pub open spec fn enc_value(v: ValueModel) -> Seq<u8> {
    seq![marker_byte(v)] + enc_payload(v)
}

/// What the format can carry: field maps with distinct names of at most 255 bytes, strings of at most
/// `limit` bytes, and sequences whose elements are not sequences and share
/// one type id.
pub open spec fn encodable(v: ValueModel, limit: nat) -> bool
    decreases v,
{
    match v {
        ValueModel::Str(s) => encode_utf8(s).len() <= limit,
        ValueModel::Bytes(b) => b.len() <= limit,
        ValueModel::Object(fs) => fs.len() < VARINT_LIMIT && fields_encodable(fs, limit),
        ValueModel::List(items) => items.len() < VARINT_LIMIT && (items.len() == 0
            || items_encodable(items, single_id(items[0]), limit)),
        _ => true,
    }
}

pub open spec fn fields_encodable(fs: Seq<(Seq<char>, ValueModel)>, limit: nat) -> bool
    decreases fs,
{
    if fs.len() == 0 {
        true
    } else {
        &&& fields_encodable(fs.drop_last(), limit)
        &&& encode_utf8(fs.last().0).len() <= 255
        &&& forall|i: int| 0 <= i < fs.len() - 1 ==> fs[i].0 != fs.last().0
        &&& encodable(fs.last().1, limit)
    }
}

pub open spec fn items_encodable(items: Seq<ValueModel>, id: u8, limit: nat) -> bool
    decreases items,
{
    if items.len() == 0 {
        true
    } else {
        &&& items_encodable(items.drop_last(), id, limit)
        &&& !(items.last() is List)
        &&& single_id(items.last()) == id
        &&& encodable(items.last(), limit)
    }
}

/// The longest string that the encoder can write: its length must fit a varint.
pub open spec fn encode_bound() -> nat {
    (VARINT_LIMIT - 1) as nat
}

/// The value that decoding gives back: strings come back as bytes.
pub open spec fn canon(v: ValueModel) -> ValueModel
    decreases v,
{
    match v {
        ValueModel::Str(s) => ValueModel::Bytes(encode_utf8(s)),
        ValueModel::Object(fs) => ValueModel::Object(canon_fields(fs)),
        ValueModel::List(items) => ValueModel::List(canon_items(items)),
        _ => v,
    }
}

pub open spec fn canon_fields(fs: Seq<(Seq<char>, ValueModel)>) -> Seq<(Seq<char>, ValueModel)>
    decreases fs,
{
    if fs.len() == 0 {
        Seq::empty()
    } else {
        canon_fields(fs.drop_last()).push((fs.last().0, canon(fs.last().1)))
    }
}

pub open spec fn canon_items(items: Seq<ValueModel>) -> Seq<ValueModel>
    decreases items,
{
    if items.len() == 0 {
        Seq::empty()
    } else {
        canon_items(items.drop_last()).push(canon(items.last()))
    }
}

/// Adds a field read from the wire, as a map would: a name seen before takes
/// the new value in its place.
pub open spec fn put_field(fs: Seq<(Seq<char>, ValueModel)>, name: Seq<char>, v: ValueModel) -> Seq<
    (Seq<char>, ValueModel),
> {
    if exists|i: int| 0 <= i < fs.len() && fs[i].0 == name {
        let i = choose|i: int| 0 <= i < fs.len() && fs[i].0 == name;
        fs.update(i, (name, v))
    } else {
        fs.push((name, v))
    }
}

/// No two fields share a name.
pub open spec fn unique_names(fs: Seq<(Seq<char>, ValueModel)>) -> bool {
    forall|i: int, j: int| 0 <= i < j < fs.len() ==> fs[i].0 != fs[j].0
}

/// Reads `width` bytes as a little-endian number.
pub open spec fn parse_fixed(s: Seq<u8>, width: nat) -> Result<(nat, Seq<u8>)> {
    if s.len() < width {
        Err(Error::UnexpectedEof)
    } else {
        Ok((le_value(s.take(width as int)), s.skip(width as int)))
    }
}

/// Reads a varint length and then that many bytes.
pub open spec fn parse_buffer(s: Seq<u8>) -> Result<(Seq<u8>, Seq<u8>)> {
    match varint_parse(s) {
        Err(e) => Err(e),
        Ok((n, w)) => {
            let r = s.skip(w as int);
            if n > MAX_STRING_LEN_POSSIBLE {
                Err(Error::MarkedStringExceededMaxLength)
            } else if r.len() < n {
                Err(Error::UnexpectedEof)
            } else {
                Ok((r.take(n as int), r.skip(n as int)))
            }
        },
    }
}

/// The bytes left after reading a length-prefixed buffer, whether the read
/// succeeds or not: a bad varint takes nothing, a refused length takes the
/// varint only.
pub open spec fn buffer_stop(s: Seq<u8>) -> Seq<u8> {
    match varint_parse(s) {
        Err(_) => s,
        Ok((n, w)) => {
            let r = s.skip(w as int);
            if n > MAX_STRING_LEN_POSSIBLE || r.len() < n {
                r
            } else {
                r.skip(n as int)
            }
        },
    }
}

/// The bytes left after reading a marker byte, if there is one.
pub open spec fn marker_stop(s: Seq<u8>) -> Seq<u8> {
    if s.len() == 0 {
        s
    } else {
        s.skip(1)
    }
}

/// What decoding the payload of a value with marker `m` from the front of `s`
/// gives: the value and the bytes after it.
pub open spec fn parse_payload(m: Marker, s: Seq<u8>) -> Result<(ValueModel, Seq<u8>)>
    decreases s.len(), 0nat, 0nat,
{
    match m {
        Marker::Sequence { element } => match varint_parse(s) {
            Err(e) => Err(e),
            Ok((n, w)) => if 1 <= w <= s.len() {
                match parse_items(element, n, s.skip(w as int)) {
                    Err(e) => Err(e),
                    Ok((items, r)) => Ok((ValueModel::List(items), r)),
                }
            } else {
                Err(Error::UnexpectedEof)
            },
        },
        Marker::Single { value } => if value == MARKER_STRUCT {
            match varint_parse(s) {
                Err(e) => Err(e),
                Ok((n, w)) => if 1 <= w <= s.len() {
                    match parse_fields(n, s.skip(w as int)) {
                        Err(e) => Err(e),
                        Ok((fs, r)) => Ok((ValueModel::Object(fs), r)),
                    }
                } else {
                    Err(Error::UnexpectedEof)
                },
            }
        } else if value == MARKER_STRING {
            match parse_buffer(s) {
                Err(e) => Err(e),
                Ok((b, r)) => Ok((ValueModel::Bytes(b), r)),
            }
        } else if value == MARKER_BOOL {
            if s.len() < 1 {
                Err(Error::UnexpectedEof)
            } else {
                match spec_bool(s[0]) {
                    Err(e) => Err(e),
                    Ok(b) => Ok((ValueModel::Bool(b), s.skip(1))),
                }
            }
        } else if MARKER_I64 <= value <= MARKER_F64 {
            let width: nat = if value == MARKER_I64 || value == MARKER_U64 || value == MARKER_F64 {
                8
            } else if value == MARKER_I32 || value == MARKER_U32 {
                4
            } else if value == MARKER_I16 || value == MARKER_U16 {
                2
            } else {
                1
            };
            match parse_fixed(s, width) {
                Err(e) => Err(e),
                Ok((x, r)) => Ok((scalar_of(value, x), r)),
            }
        } else {
            Err(Error::UnknownMarker(m))
        },
    }
}

/// The scalar value that a fixed-width id and its little-endian number denote.
pub open spec fn scalar_of(id: u8, x: nat) -> ValueModel {
    if id == MARKER_I64 {
        ValueModel::I64(x as u64 as i64)
    } else if id == MARKER_I32 {
        ValueModel::I32(x as u32 as i32)
    } else if id == MARKER_I16 {
        ValueModel::I16(x as u16 as i16)
    } else if id == MARKER_I8 {
        ValueModel::I8(x as u8 as i8)
    } else if id == MARKER_U64 {
        ValueModel::U64(x as u64)
    } else if id == MARKER_U32 {
        ValueModel::U32(x as u32)
    } else if id == MARKER_U16 {
        ValueModel::U16(x as u16)
    } else if id == MARKER_U8 {
        ValueModel::U8(x as u8)
    } else {
        ValueModel::F64(x as u64)
    }
}

/// Decoding `k` elements of one id, each without a marker of its own.
pub open spec fn parse_items(element: u8, k: nat, s: Seq<u8>) -> Result<(Seq<ValueModel>, Seq<u8>)>
    decreases s.len(), 1nat, k,
{
    if k == 0 {
        Ok((Seq::empty(), s))
    } else {
        match parse_items(element, (k - 1) as nat, s) {
            Err(e) => Err(e),
            // What is left never outgrows the input; the bound shows termination.
            Ok((items, r)) => if r.len() <= s.len() {
                match parse_payload(Marker::Single { value: element }, r) {
                    Err(e) => Err(e),
                    Ok((v, r2)) => Ok((items.push(v), r2)),
                }
            } else {
                Err(Error::UnexpectedEof)
            },
        }
    }
}

/// Decoding `k` fields: name length byte, UTF-8 name, marker, payload.
pub open spec fn parse_fields(k: nat, s: Seq<u8>) -> Result<(Seq<(Seq<char>, ValueModel)>, Seq<u8>)>
    decreases s.len(), 1nat, k,
{
    if k == 0 {
        Ok((Seq::empty(), s))
    } else {
        match parse_fields((k - 1) as nat, s) {
            Err(e) => Err(e),
            // What is left never outgrows the input; the bound shows termination.
            Ok((fs, r)) => if 1 <= r.len() <= s.len() {
                let l = r[0] as nat;
                let t = r.skip(1);
                if t.len() < l {
                    Err(Error::UnexpectedEof)
                } else if !valid_utf8(t.take(l as int)) {
                    Err(Error::InvalidString)
                } else if t.len() < l + 1 {
                    Err(Error::UnexpectedEof)
                } else {
                    let m = spec_from_byte(t[l as int]);
                    match parse_payload(m, t.skip((l + 1) as int)) {
                        Err(e) => Err(e),
                        Ok((v, r2)) => Ok((put_field(fs, decode_utf8(t.take(l as int)), v), r2)),
                    }
                }
            } else {
                Err(Error::UnexpectedEof)
            },
        }
    }
}

/// Where reading a fixed-width number stops: a short input is left as it is.
pub open spec fn fixed_stop(s: Seq<u8>, width: nat) -> Seq<u8> {
    if s.len() < width {
        s
    } else {
        s.skip(width as int)
    }
}

/// The bytes left after decoding the payload of a value with marker `m`,
/// whether decoding succeeds or fails: a failed read stands after the bytes
/// that were taken before the failure. A short read takes nothing.
pub open spec fn payload_stop(m: Marker, s: Seq<u8>) -> Seq<u8>
    decreases s.len(), 0nat, 0nat,
{
    match m {
        Marker::Sequence { element } => match varint_parse(s) {
            Err(_) => s,
            Ok((n, w)) => if 1 <= w <= s.len() {
                items_stop(element, n, s.skip(w as int))
            } else {
                s
            },
        },
        Marker::Single { value } => if value == MARKER_STRUCT {
            match varint_parse(s) {
                Err(_) => s,
                Ok((n, w)) => if 1 <= w <= s.len() {
                    fields_stop(n, s.skip(w as int))
                } else {
                    s
                },
            }
        } else if value == MARKER_STRING {
            buffer_stop(s)
        } else if value == MARKER_BOOL {
            fixed_stop(s, 1)
        } else if MARKER_I64 <= value <= MARKER_F64 {
            fixed_stop(s, fixed_width(value))
        } else {
            s
        },
    }
}

/// Bytes taken by a fixed-width scalar id.
pub open spec fn fixed_width(value: u8) -> nat {
    if value == MARKER_I64 || value == MARKER_U64 || value == MARKER_F64 {
        8
    } else if value == MARKER_I32 || value == MARKER_U32 {
        4
    } else if value == MARKER_I16 || value == MARKER_U16 {
        2
    } else {
        1
    }
}

/// The bytes left after decoding `k` elements, on success or failure.
pub open spec fn items_stop(element: u8, k: nat, s: Seq<u8>) -> Seq<u8>
    decreases s.len(), 1nat, k,
{
    if k == 0 {
        s
    } else {
        match parse_items(element, (k - 1) as nat, s) {
            Err(_) => items_stop(element, (k - 1) as nat, s),
            Ok((_, r)) => if r.len() <= s.len() {
                payload_stop(Marker::Single { value: element }, r)
            } else {
                r
            },
        }
    }
}

/// The bytes left after decoding `k` fields, on success or failure.
pub open spec fn fields_stop(k: nat, s: Seq<u8>) -> Seq<u8>
    decreases s.len(), 1nat, k,
{
    if k == 0 {
        s
    } else {
        match parse_fields((k - 1) as nat, s) {
            Err(_) => fields_stop((k - 1) as nat, s),
            Ok((_, r)) => if 1 <= r.len() <= s.len() {
                let l = r[0] as nat;
                let t = r.skip(1);
                if t.len() < l {
                    t
                } else if !valid_utf8(t.take(l as int)) || t.len() < l + 1 {
                    t.skip(l as int)
                } else {
                    payload_stop(spec_from_byte(t[l as int]), t.skip((l + 1) as int))
                }
            } else {
                r
            },
        }
    }
}

} // verus!
