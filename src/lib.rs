//! A compact, self-describing binary encoding for structured data: a fixed
//! preamble, one-byte type markers, size-classed varints and nested field maps.
mod de;
mod error;
pub mod laws;
mod marker;
mod read_ext;
mod ser;
mod value;
mod varint;
pub mod wire;

pub use de::Deserializer;
pub use error::{Error, Result};
pub use marker::Marker;
pub use ser::{is_encodable, marker_byte_of};
pub use value::{Value, ValueModel};
pub use varint::{decode as varint_decode, encode as varint_encode};

use vstd::prelude::*;

use crate::marker::MARKER_STRUCT;
use crate::ser::encode_payload;
use crate::wire::{enc_payload, encodable, encode_bound, parse_payload};

verus! {

/// The version byte that follows the preamble.
pub const PORTABLE_STORAGE_VERSION: u8 = 1;

/// The eight fixed bytes that start every payload.
pub open spec fn preamble() -> Seq<u8> {
    seq![0x01u8, 0x11u8, 0x01u8, 0x01u8, 0x01u8, 0x01u8, 0x02u8, 0x01u8]
}

/// What decoding a whole payload gives.
pub open spec fn spec_from_bytes(s: Seq<u8>) -> Result<ValueModel> {
    if s.len() < 8 || s.take(8) != preamble() {
        Err(Error::MissingHeader)
    } else if s.len() < 9 {
        Err(Error::UnexpectedEof)
    } else if s[8] != PORTABLE_STORAGE_VERSION {
        Err(Error::InvalidVersion(s[8]))
    } else {
        match parse_payload(Marker::Single { value: MARKER_STRUCT }, s.skip(9)) {
            Ok((v, _)) => Ok(v),
            Err(e) => Err(e),
        }
    }
}

/// Encodes a field map: preamble, version, then its fields with no marker.
pub fn to_bytes(object: &Value) -> (r: Result<Vec<u8>>)
    requires
        object@ is Object ==> encodable(object@, encode_bound()),
    ensures
        !(object@ is Object) ==> r == Err::<Vec<u8>, Error>(Error::RootValueIsNotStruct),
        object@ is Object ==> r is Ok && r->Ok_0@ == preamble() + seq![PORTABLE_STORAGE_VERSION]
            + enc_payload(object@),
{
    match object {
        Value::Object(_) => {},
        _ => {
            return Err(Error::RootValueIsNotStruct);
        },
    }
    let mut buffer: Vec<u8> = Vec::new();
    buffer.push(0x01);
    buffer.push(0x11);
    buffer.push(0x01);
    buffer.push(0x01);
    buffer.push(0x01);
    buffer.push(0x01);
    buffer.push(0x02);
    buffer.push(0x01);
    buffer.push(PORTABLE_STORAGE_VERSION);
    assert(buffer@ =~= preamble() + seq![PORTABLE_STORAGE_VERSION]);
    encode_payload(object, &mut buffer);
    Ok(buffer)
}

/// Decodes a whole payload into a field map. Bytes after the top-level map
/// are not read.
pub fn from_bytes(bytes: &[u8]) -> (r: Result<Value>)
    ensures
        match spec_from_bytes(bytes@) {
            Ok(v) => r is Ok && r->Ok_0@ == v,
            Err(e) => r is Err && r->Err_0 == e,
        },
{
    let len = bytes.len();
    if len < 8 || bytes[0] != 0x01 || bytes[1] != 0x11 || bytes[2] != 0x01 || bytes[3] != 0x01
        || bytes[4] != 0x01 || bytes[5] != 0x01 || bytes[6] != 0x02 || bytes[7] != 0x01 {
        proof {
            if len >= 8 {
                assert(bytes@.take(8)[0] == bytes@[0]);
                assert(bytes@.take(8)[1] == bytes@[1]);
                assert(bytes@.take(8)[2] == bytes@[2]);
                assert(bytes@.take(8)[3] == bytes@[3]);
                assert(bytes@.take(8)[4] == bytes@[4]);
                assert(bytes@.take(8)[5] == bytes@[5]);
                assert(bytes@.take(8)[6] == bytes@[6]);
                assert(bytes@.take(8)[7] == bytes@[7]);
            }
        }
        return Err(Error::MissingHeader);
    }
    assert(bytes@.take(8) =~= preamble());
    if len < 9 {
        return Err(Error::UnexpectedEof);
    }
    let version = bytes[8];
    if version != PORTABLE_STORAGE_VERSION {
        return Err(Error::InvalidVersion(version));
    }
    let mut deserializer = Deserializer::from_bytes(bytes);
    let _preamble = deserializer.read_bytes(9);
    deserializer.deserialize_any()
}

} // verus!
