use vstd::prelude::*;

use crate::error::{Error, Result};
use crate::marker::{
    spec_from_byte, Marker, MARKER_BOOL, MARKER_F64, MARKER_I16, MARKER_I32, MARKER_I64, MARKER_I8,
    MARKER_STRING, MARKER_STRUCT, MARKER_U16, MARKER_U32, MARKER_U64, MARKER_U8,
};
use crate::read_ext::{read_bool, read_le};
use crate::value::{fields_model, items_model, lemma_fields_model, same_text, Value, ValueModel};
use crate::ser::marker_byte_of;
use crate::varint;
use crate::wire::{
    buffer_stop, fields_stop, fixed_width, items_stop, marker_stop, payload_stop, put_field, unique_names, parse_buffer, parse_fields, parse_items, parse_payload, scalar_of,
    marker_byte, MAX_STRING_LEN_POSSIBLE,
};
use vstd::utf8::{decode_utf8, encode_utf8, valid_utf8};

verus! {

broadcast use vstd::utf8::encode_utf8_decode_utf8;

/// The bytes of `data` from `pos` on.
pub open spec fn tail(data: Seq<u8>, pos: int) -> Seq<u8> {
    data.subrange(pos, data.len() as int)
}

/// Relies on `String::from_utf8`: it succeeds exactly on valid UTF-8, and the
/// string it returns holds those bytes.
#[verifier::external_body]
fn utf8_string(bytes: Vec<u8>) -> (r: Option<String>)
    ensures
        r is Some <==> valid_utf8(bytes@),
        r is Some ==> encode_utf8(r->0@) == bytes@,
{
    String::from_utf8(bytes).ok()
}

/// Copies `n` bytes of `data` from `pos` on.
fn copy_bytes(data: &[u8], pos: usize, n: usize) -> (r: Vec<u8>)
    requires
        pos + n <= data@.len(),
    ensures
        r@ == data@.subrange(pos as int, pos + n),
{
    let len = data.len();
    let mut out: Vec<u8> = Vec::new();
    let mut i: usize = 0;
    while i < n
        invariant
            i <= n,
            len == data@.len(),
            pos + n <= len,
            pos + n <= data@.len(),
            out@ == data@.subrange(pos as int, pos + i),
        decreases n - i,
    {
        out.push(data[pos + i]);
        i = i + 1;
        assert(out@ =~= data@.subrange(pos as int, pos + i));
    }
    out
}

/// Decodes bytes that must be UTF-8.
fn bytes_to_string(bytes: Vec<u8>) -> (r: Result<String>)
    ensures
        valid_utf8(bytes@) ==> r is Ok && r->Ok_0@ == decode_utf8(bytes@),
        !valid_utf8(bytes@) ==> r == Err::<String, Error>(Error::InvalidString),
{
    match utf8_string(bytes) {
        Some(s) => Ok(s),
        None => Err(Error::InvalidString),
    }
}

/// A decoding step: the value and where it ends, or the error and where the
/// failed read stopped.
pub type Step<T> = core::result::Result<(T, usize), (Error, usize)>;

/// Maps a spec parse result, and where a failed parse stops, onto an exec step.
pub open spec fn matches_parse<T, M>(
    spec_r: Result<(M, Seq<u8>)>,
    stop: Seq<u8>,
    r: Step<T>,
    model: spec_fn(T) -> M,
    data: Seq<u8>,
) -> bool {
    match r {
        Ok((v, p)) => p <= data.len() && spec_r == Ok::<(M, Seq<u8>), Error>(
            (model(v), tail(data, p as int)),
        ),
        Err((e, p)) => p <= data.len() && spec_r == Err::<(M, Seq<u8>), Error>(e) && tail(
            data,
            p as int,
        ) == stop,
    }
}

proof fn lemma_items_error_sticks(element: u8, j: nat, k: nat, s: Seq<u8>)
    requires
        j <= k,
        parse_items(element, j, s) is Err,
    ensures
        parse_items(element, k, s) == parse_items(element, j, s),
        items_stop(element, k, s) == items_stop(element, j, s),
    decreases k,
{
    if j < k {
        lemma_items_error_sticks(element, j, (k - 1) as nat, s);
    }
}

proof fn lemma_fields_error_sticks(j: nat, k: nat, s: Seq<u8>)
    requires
        j <= k,
        parse_fields(j, s) is Err,
    ensures
        parse_fields(k, s) == parse_fields(j, s),
        fields_stop(k, s) == fields_stop(j, s),
    decreases k,
{
    if j < k {
        lemma_fields_error_sticks(j, (k - 1) as nat, s);
    }
}

fn decode_payload(data: &[u8], pos: usize, m: Marker) -> (r: Step<Value>)
    requires
        pos <= data@.len(),
    ensures
        matches_parse(
            parse_payload(m, tail(data@, pos as int)),
            payload_stop(m, tail(data@, pos as int)),
            r,
            |v: Value| v@,
            data@,
        ),
        r is Ok ==> pos < r->Ok_0.1,
    decreases data@.len() - pos, 0nat, 0nat,
{
    let ghost s = tail(data@, pos as int);
    let len = data.len();
    match m {
        Marker::Sequence { element } => {
            let (n, w) = match varint::decode(data, pos) {
                Ok(x) => x,
                Err(e) => return Err((e, pos)),
            };
            assert(tail(data@, pos + w) =~= s.skip(w as int));
            match decode_items(data, pos + w, element, n) {
                Ok((items, p)) => Ok((Value::List(items), p)),
                Err(x) => Err(x),
            }
        },
        Marker::Single { value } => {
            if value == MARKER_STRUCT {
                let (n, w) = match varint::decode(data, pos) {
                    Ok(x) => x,
                    Err(e) => return Err((e, pos)),
                };
                assert(tail(data@, pos + w) =~= s.skip(w as int));
                match decode_fields(data, pos + w, n) {
                    Ok((fields, p)) => Ok((Value::Object(fields), p)),
                    Err(x) => Err(x),
                }
            } else if value == MARKER_STRING {
                match decode_buffer(data, pos) {
                    Ok((b, p)) => Ok((Value::Bytes(b), p)),
                    Err(x) => Err(x),
                }
            } else if value == MARKER_BOOL {
                if pos >= len {
                    return Err((Error::UnexpectedEof, pos));
                }
                assert(tail(data@, pos + 1) =~= s.skip(1));
                match read_bool(data[pos]) {
                    Ok(b) => Ok((Value::Bool(b), pos + 1)),
                    Err(e) => Err((e, pos + 1)),
                }
            } else if MARKER_I64 <= value && value <= MARKER_F64 {
                let width: usize = if value == MARKER_I64 || value == MARKER_U64 || value
                    == MARKER_F64 {
                    8
                } else if value == MARKER_I32 || value == MARKER_U32 {
                    4
                } else if value == MARKER_I16 || value == MARKER_U16 {
                    2
                } else {
                    1
                };
                assert(width == fixed_width(value));
                let x = match read_le(data, pos, width) {
                    Ok(x) => x,
                    Err(e) => return Err((e, pos)),
                };
                proof {
                    assert(data@.subrange(pos as int, pos + width) =~= s.take(width as int));
                    assert(tail(data@, pos + width) =~= s.skip(width as int));
                    crate::read_ext::lemma_pow256_facts();
                    crate::read_ext::lemma_pow_mono(width as nat, 8);
                }
                let v = if value == MARKER_I64 {
                    Value::I64(#[verifier::truncate] (x as i64))
                } else if value == MARKER_I32 {
                    Value::I32(#[verifier::truncate] (#[verifier::truncate] (x as u32) as i32))
                } else if value == MARKER_I16 {
                    Value::I16(#[verifier::truncate] (#[verifier::truncate] (x as u16) as i16))
                } else if value == MARKER_I8 {
                    Value::I8(#[verifier::truncate] (#[verifier::truncate] (x as u8) as i8))
                } else if value == MARKER_U64 {
                    Value::U64(x)
                } else if value == MARKER_U32 {
                    Value::U32(#[verifier::truncate] (x as u32))
                } else if value == MARKER_U16 {
                    Value::U16(#[verifier::truncate] (x as u16))
                } else if value == MARKER_U8 {
                    Value::U8(#[verifier::truncate] (x as u8))
                } else {
                    Value::F64(x)
                };
                assert(v@ == scalar_of(value, x as nat));
                Ok((v, pos + width))
            } else {
                Err((Error::UnknownMarker(m), pos))
            }
        },
    }
}

/// Reads a varint length and that many bytes.
fn decode_buffer(data: &[u8], pos: usize) -> (r: Step<Vec<u8>>)
    requires
        pos <= data@.len(),
    ensures
        matches_parse(
            parse_buffer(tail(data@, pos as int)),
            buffer_stop(tail(data@, pos as int)),
            r,
            |b: Vec<u8>| b@,
            data@,
        ),
        r is Ok ==> pos < r->Ok_0.1,
{
    let ghost s = tail(data@, pos as int);
    let len = data.len();
    let (n, w) = match varint::decode(data, pos) {
        Ok(x) => x,
        Err(e) => return Err((e, pos)),
    };
    let start = pos + w;
    assert(s.skip(w as int) =~= tail(data@, start as int));
    if n > MAX_STRING_LEN_POSSIBLE {
        return Err((Error::MarkedStringExceededMaxLength, start));
    }
    let n = n as usize;
    if len - start < n {
        return Err((Error::UnexpectedEof, start));
    }
    let b = copy_bytes(data, start, n);
    proof {
        let r = s.skip(w as int);
        assert(b@ =~= r.take(n as int));
        assert(tail(data@, start + n) =~= r.skip(n as int));
    }
    Ok((b, start + n))
}

fn decode_items(data: &[u8], pos: usize, element: u8, k: u64) -> (r: Step<Vec<Value>>)
    requires
        pos <= data@.len(),
    ensures
        matches_parse(
            parse_items(element, k as nat, tail(data@, pos as int)),
            items_stop(element, k as nat, tail(data@, pos as int)),
            r,
            |vs: Vec<Value>| items_model(vs@),
            data@,
        ),
        r is Ok ==> pos <= r->Ok_0.1,
    decreases data@.len() - pos, 1nat, k,
{
    let ghost s = tail(data@, pos as int);
    let mut items: Vec<Value> = Vec::new();
    let mut p: usize = pos;
    let mut i: u64 = 0;
    assert(items_model(items@) =~= Seq::<ValueModel>::empty());
    while i < k
        invariant
            i <= k,
            pos <= p <= data@.len(),
            s == tail(data@, pos as int),
            parse_items(element, i as nat, s) == Ok::<(Seq<ValueModel>, Seq<u8>), Error>(
                (items_model(items@), tail(data@, p as int)),
            ),
        decreases k - i,
    {
        let res = decode_payload(data, p, Marker::Single { value: element });
        match res {
            Ok((v, q)) => {
                let ghost before = items@;
                items.push(v);
                proof {
                    assert(items@.drop_last() =~= before);
                }
                p = q;
                i = i + 1;
            },
            Err((e, q)) => {
                proof {
                    lemma_items_error_sticks(element, (i + 1) as nat, k as nat, s);
                }
                return Err((e, q));
            },
        }
    }
    Ok((items, p))
}

fn decode_fields(data: &[u8], pos: usize, k: u64) -> (r: Step<Vec<(String, Value)>>)
    requires
        pos <= data@.len(),
    ensures
        matches_parse(
            parse_fields(k as nat, tail(data@, pos as int)),
            fields_stop(k as nat, tail(data@, pos as int)),
            r,
            |fs: Vec<(String, Value)>| fields_model(fs@),
            data@,
        ),
        r is Ok ==> pos <= r->Ok_0.1,
    decreases data@.len() - pos, 1nat, k,
{
    let ghost s = tail(data@, pos as int);
    let mut fields: Vec<(String, Value)> = Vec::new();
    let mut p: usize = pos;
    let mut i: u64 = 0;
    assert(fields_model(fields@) =~= Seq::<(Seq<char>, ValueModel)>::empty());
    while i < k
        invariant
            i <= k,
            pos <= p <= data@.len(),
            s == tail(data@, pos as int),
            parse_fields(i as nat, s) == Ok::<(Seq<(Seq<char>, ValueModel)>, Seq<u8>), Error>(
                (fields_model(fields@), tail(data@, p as int)),
            ),
            unique_names(fields_model(fields@)),
        decreases k - i,
    {
        let res = decode_field(data, p);
        proof {
            let r = tail(data@, p as int);
            if r.len() >= 1 {
                assert(r.skip(1) =~= tail(data@, p + 1));
            }
        }
        match res {
            Ok((name, v, q)) => {
                put_field_exec(&mut fields, name, v);
                p = q;
                i = i + 1;
            },
            Err((e, q)) => {
                proof {
                    lemma_fields_error_sticks((i + 1) as nat, k as nat, s);
                }
                return Err((e, q));
            },
        }
    }
    Ok((fields, p))
}

/// Adds a decoded field: a name seen before takes the new value in its place.
fn put_field_exec(fields: &mut Vec<(String, Value)>, name: String, v: Value)
    requires
        unique_names(fields_model(old(fields)@)),
    ensures
        fields_model(final(fields)@) == put_field(fields_model(old(fields)@), name@, v@),
        unique_names(fields_model(final(fields)@)),
{
    let ghost m = fields_model(fields@);
    proof {
        lemma_fields_model(fields@);
    }
    let mut j: usize = 0;
    while j < fields.len()
        invariant
            j <= fields@.len(),
            m == fields_model(fields@),
            fields@ == old(fields)@,
            m.len() == fields@.len(),
            unique_names(m),
            forall|i: int| 0 <= i < fields@.len() ==> #[trigger] m[i] == (fields@[i].0@, fields@[i].1@),
            forall|i: int| 0 <= i < j ==> m[i].0 != name@,
        decreases fields@.len() - j,
    {
        if same_text(fields[j].0.as_str(), name.as_str()) {
            let ghost n = name@;
            let ghost nv = v@;
            proof {
                assert(0 <= j < m.len() && m[j as int].0 == n);
                let c = choose|i: int| 0 <= i < m.len() && m[i].0 == n;
                if c < j {
                    assert(m[c].0 != m[j as int].0);
                } else if c > j {
                    assert(m[j as int].0 != m[c].0);
                }
                assert(put_field(m, n, nv) == m.update(j as int, (n, nv)));
            }
            fields.set(j, (name, v));
            proof {
                lemma_fields_model(fields@);
                assert(fields_model(fields@) =~= m.update(j as int, (n, nv)));
            }
            return;
        }
        j = j + 1;
    }
    let ghost n = name@;
    let ghost nv = v@;
    let ghost before = fields@;
    fields.push((name, v));
    proof {
        assert(fields@.drop_last() =~= before);
        assert(fields_model(fields@) == m.push((n, nv)));
    }
}

/// One field of a map: name length byte, UTF-8 name, marker, payload.
pub open spec fn parse_field(r: Seq<u8>) -> Result<(Seq<char>, ValueModel, Seq<u8>)> {
    if r.len() < 1 {
        Err(Error::UnexpectedEof)
    } else {
        let l = r[0] as nat;
        let t = r.skip(1);
        if t.len() < l {
            Err(Error::UnexpectedEof)
        } else if !valid_utf8(t.take(l as int)) {
            Err(Error::InvalidString)
        } else if t.len() < l + 1 {
            Err(Error::UnexpectedEof)
        } else {
            match parse_payload(spec_from_byte(t[l as int]), t.skip((l + 1) as int)) {
                Err(e) => Err(e),
                Ok((v, r2)) => Ok((decode_utf8(t.take(l as int)), v, r2)),
            }
        }
    }
}

/// Where reading one field stops, on success or failure.
pub open spec fn field_stop(r: Seq<u8>) -> Seq<u8> {
    if r.len() < 1 {
        r
    } else {
        let l = r[0] as nat;
        let t = r.skip(1);
        if t.len() < l {
            t
        } else if !valid_utf8(t.take(l as int)) || t.len() < l + 1 {
            t.skip(l as int)
        } else {
            payload_stop(spec_from_byte(t[l as int]), t.skip((l + 1) as int))
        }
    }
}

fn decode_field(data: &[u8], pos: usize) -> (r: core::result::Result<
    (String, Value, usize),
    (Error, usize),
>)
    requires
        pos <= data@.len(),
    ensures
        match r {
            Ok((name, v, p)) => pos < p <= data@.len() && parse_field(tail(data@, pos as int))
                == Ok::<(Seq<char>, ValueModel, Seq<u8>), Error>(
                (name@, v@, tail(data@, p as int)),
            ),
            Err((e, p)) => p <= data@.len() && parse_field(tail(data@, pos as int)) == Err::<
                (Seq<char>, ValueModel, Seq<u8>),
                Error,
            >(e) && tail(data@, p as int) == field_stop(tail(data@, pos as int)),
        },
    decreases data@.len() - pos, 0nat, 1nat,
{
    let ghost s = tail(data@, pos as int);
    if pos >= data.len() {
        return Err((Error::UnexpectedEof, pos));
    }
    let l = data[pos] as usize;
    let start = pos + 1;
    assert(s.skip(1) =~= tail(data@, start as int));
    if data.len() - start < l {
        return Err((Error::UnexpectedEof, start));
    }
    let name_bytes = copy_bytes(data, start, l);
    assert(name_bytes@ =~= s.skip(1).take(l as int));
    let mpos = start + l;
    assert(s.skip(1).skip(l as int) =~= tail(data@, mpos as int));
    let name = match bytes_to_string(name_bytes) {
        Ok(n) => n,
        Err(e) => return Err((e, mpos)),
    };
    if mpos >= data.len() {
        return Err((Error::UnexpectedEof, mpos));
    }
    let m = Marker::from_byte(data[mpos]);
    assert(tail(data@, mpos + 1) =~= s.skip(1).skip((l + 1) as int));
    match decode_payload(data, mpos + 1, m) {
        Ok((v, p)) => Ok((name, v, p)),
        Err(x) => Err(x),
    }
}

/// A value with its marker byte in front.
pub open spec fn parse_marked(s: Seq<u8>) -> Result<(ValueModel, Seq<u8>)> {
    if s.len() == 0 {
        Err(Error::UnexpectedEof)
    } else {
        parse_payload(spec_from_byte(s[0]), s.skip(1))
    }
}

/// Where reading a value with its marker stops, on success or failure.
pub open spec fn marked_stop(s: Seq<u8>) -> Seq<u8> {
    if s.len() == 0 {
        s
    } else {
        payload_stop(spec_from_byte(s[0]), s.skip(1))
    }
}

/// A marker that must equal `expected`, and the bytes after it.
pub open spec fn parse_expected_marker(expected: Marker, s: Seq<u8>) -> Result<Seq<u8>> {
    if s.len() == 0 {
        Err(Error::UnexpectedEof)
    } else if spec_from_byte(s[0]) != expected {
        Err(Error::UnexpectedMarker { expected, actual: spec_from_byte(s[0]) })
    } else {
        Ok(s.skip(1))
    }
}

/// Reads values out of a byte buffer, one call at a time.
///
/// The first call of [`Deserializer::deserialize_any`] reads the top-level
/// field map, which has no marker; every later read starts at a marker.
pub struct Deserializer<'a> {
    buffer: &'a [u8],
    pos: usize,
    header_read: bool,
}

impl<'a> Deserializer<'a> {
    /// The bytes not read yet.
    pub closed spec fn rest(&self) -> Seq<u8> {
        tail(self.buffer@, self.pos as int)
    }

    /// Whether the top-level field map has been entered.
    pub closed spec fn root_entered(&self) -> bool {
        self.header_read
    }

    pub closed spec fn wf(&self) -> bool {
        self.pos <= self.buffer@.len()
    }

    pub fn from_bytes(buffer: &'a [u8]) -> (r: Deserializer<'a>)
        ensures
            r.wf(),
            r.rest() == buffer@,
            !r.root_entered(),
    {
        let r = Deserializer { buffer, pos: 0, header_read: false };
        assert(r.rest() =~= buffer@);
        r
    }

    pub fn read_bytes(&mut self, length: usize) -> (r: Result<Vec<u8>>)
        requires
            old(self).wf(),
        ensures
            final(self).wf(),
            final(self).root_entered() == old(self).root_entered(),
            length <= old(self).rest().len() ==> r is Ok && r->Ok_0@ == old(self).rest().take(
                length as int,
            ) && final(self).rest() == old(self).rest().skip(length as int),
            length > old(self).rest().len() ==> r == Err::<Vec<u8>, Error>(Error::UnexpectedEof),
            r is Err ==> final(self).rest() == old(self).rest(),
    {
        if self.buffer.len() - self.pos < length {
            return Err(Error::UnexpectedEof);
        }
        let ghost s = self.rest();
        let b = copy_bytes(self.buffer, self.pos, length);
        self.pos = self.pos + length;
        assert(b@ =~= s.take(length as int));
        assert(self.rest() =~= s.skip(length as int));
        Ok(b)
    }

    pub fn read_varint(&mut self) -> (r: Result<u64>)
        requires
            old(self).wf(),
        ensures
            final(self).wf(),
            final(self).root_entered() == old(self).root_entered(),
            match varint::spec_decode(old(self).rest()) {
                Ok((n, w)) => r == Ok::<u64, Error>(n as u64) && final(self).rest() == old(
                    self,
                ).rest().skip(w as int),
                Err(e) => r == Err::<u64, Error>(e),
            },
            r is Err ==> final(self).rest() == old(self).rest(),
    {
        let ghost s = self.rest();
        let len = self.buffer.len();
        let (n, w) = varint::decode(self.buffer, self.pos)?;
        assert(self.pos + w <= len);
        self.pos = self.pos + w;
        assert(self.rest() =~= s.skip(w as int));
        Ok(n)
    }

    pub fn read_marked_string(&mut self, length: u64) -> (r: Result<Vec<u8>>)
        requires
            old(self).wf(),
        ensures
            final(self).wf(),
            final(self).root_entered() == old(self).root_entered(),
            length > MAX_STRING_LEN_POSSIBLE ==> r == Err::<Vec<u8>, Error>(
                Error::MarkedStringExceededMaxLength,
            ),
            length <= MAX_STRING_LEN_POSSIBLE && length <= old(self).rest().len() ==> r is Ok
                && r->Ok_0@ == old(self).rest().take(length as int) && final(self).rest() == old(
                self,
            ).rest().skip(length as int),
            length <= MAX_STRING_LEN_POSSIBLE && length > old(self).rest().len() ==> r == Err::<
                Vec<u8>,
                Error,
            >(Error::UnexpectedEof),
            r is Err ==> final(self).rest() == old(self).rest(),
    {
        if length > MAX_STRING_LEN_POSSIBLE {
            return Err(Error::MarkedStringExceededMaxLength);
        }
        self.read_bytes(length as usize)
    }

    pub fn read_varint_marked_string(&mut self) -> (r: Result<Vec<u8>>)
        requires
            old(self).wf(),
        ensures
            final(self).wf(),
            final(self).root_entered() == old(self).root_entered(),
            match parse_buffer(old(self).rest()) {
                Ok((b, rest)) => r is Ok && r->Ok_0@ == b && final(self).rest() == rest,
                Err(e) => r == Err::<Vec<u8>, Error>(e),
            },
            final(self).rest() == buffer_stop(old(self).rest()),
    {
        proof {
            varint::lemma_decode_bound(old(self).rest());
        }
        let length = self.read_varint()?;
        self.read_marked_string(length)
    }

    pub fn read_string(&mut self, length: u64) -> (r: Result<String>)
        requires
            old(self).wf(),
        ensures
            final(self).wf(),
            final(self).root_entered() == old(self).root_entered(),
            length > MAX_STRING_LEN_POSSIBLE ==> r == Err::<String, Error>(
                Error::MarkedStringExceededMaxLength,
            ),
            length <= MAX_STRING_LEN_POSSIBLE && length > old(self).rest().len() ==> r == Err::<
                String,
                Error,
            >(Error::UnexpectedEof),
            length <= MAX_STRING_LEN_POSSIBLE && length <= old(self).rest().len() ==> {
                let b = old(self).rest().take(length as int);
                &&& valid_utf8(b) ==> r is Ok && r->Ok_0@ == decode_utf8(b)
                &&& !valid_utf8(b) ==> r == Err::<String, Error>(Error::InvalidString)
            },
            length > MAX_STRING_LEN_POSSIBLE || length > old(self).rest().len()
                ==> final(self).rest() == old(self).rest(),
            length <= MAX_STRING_LEN_POSSIBLE && length <= old(self).rest().len()
                ==> final(self).rest() == old(self).rest().skip(length as int),
    {
        let b = self.read_marked_string(length)?;
        bytes_to_string(b)
    }

    pub fn read_marker(&mut self) -> (r: Result<Marker>)
        requires
            old(self).wf(),
        ensures
            final(self).wf(),
            final(self).root_entered() == old(self).root_entered(),
            old(self).rest().len() == 0 ==> r == Err::<Marker, Error>(Error::UnexpectedEof),
            old(self).rest().len() > 0 ==> r == Ok::<Marker, Error>(
                spec_from_byte(old(self).rest()[0]),
            ) && final(self).rest() == old(self).rest().skip(1),
            r is Err ==> final(self).rest() == old(self).rest(),
    {
        if self.pos >= self.buffer.len() {
            return Err(Error::UnexpectedEof);
        }
        let ghost s = self.rest();
        let m = Marker::from_byte(self.buffer[self.pos]);
        self.pos = self.pos + 1;
        assert(self.rest() =~= s.skip(1));
        Ok(m)
    }

    pub fn read_expected_marker(&mut self, expected_marker: Marker) -> (r: Result<()>)
        requires
            old(self).wf(),
        ensures
            final(self).wf(),
            final(self).root_entered() == old(self).root_entered(),
            match parse_expected_marker(expected_marker, old(self).rest()) {
                Ok(rest) => r is Ok && final(self).rest() == rest,
                Err(e) => r == Err::<(), Error>(e),
            },
            final(self).rest() == marker_stop(old(self).rest()),
    {
        let actual_marker = self.read_marker()?;
        if expected_marker != actual_marker {
            return Err(Error::UnexpectedMarker { expected: expected_marker, actual: actual_marker });
        }
        Ok(())
    }

    /// Reads the payload of a value whose marker has been read already.
    pub fn dispatch_based_on_marker(&mut self, marker: Marker) -> (r: Result<Value>)
        requires
            old(self).wf(),
        ensures
            final(self).wf(),
            final(self).root_entered() == old(self).root_entered(),
            match parse_payload(marker, old(self).rest()) {
                Ok((v, rest)) => r is Ok && r->Ok_0@ == v && final(self).rest() == rest,
                Err(e) => r is Err && r->Err_0 == e,
            },
            r is Err ==> final(self).rest() == payload_stop(marker, old(self).rest()),
    {
        match decode_payload(self.buffer, self.pos, marker) {
            Ok((v, p)) => {
                self.pos = p;
                Ok(v)
            },
            Err((e, p)) => {
                self.pos = p;
                Err(e)
            },
        }
    }

    /// Reads the next value: the top-level field map on the first call, a
    /// marked value on every later one.
    pub fn deserialize_any(&mut self) -> (r: Result<Value>)
        requires
            old(self).wf(),
        ensures
            final(self).wf(),
            final(self).root_entered(),
            match (if old(self).root_entered() {
                parse_marked(old(self).rest())
            } else {
                parse_payload(Marker::Single { value: MARKER_STRUCT }, old(self).rest())
            }) {
                Ok((v, rest)) => r is Ok && r->Ok_0@ == v && final(self).rest() == rest,
                Err(e) => r is Err && r->Err_0 == e,
            },
            r is Err ==> final(self).rest() == (if old(self).root_entered() {
                marked_stop(old(self).rest())
            } else {
                payload_stop(Marker::Single { value: MARKER_STRUCT }, old(self).rest())
            }),
    {
        if !self.header_read {
            self.header_read = true;
            self.dispatch_based_on_marker(Marker::Single { value: MARKER_STRUCT })
        } else {
            let marker = self.read_marker()?;
            self.dispatch_based_on_marker(marker)
        }
    }

    /// Reads a marked byte as a character.
    pub fn deserialize_char(&mut self) -> (r: Result<char>)
        requires
            old(self).wf(),
        ensures
            final(self).wf(),
            final(self).root_entered() == old(self).root_entered(),
            match parse_expected_marker(Marker::Single { value: MARKER_U8 }, old(self).rest()) {
                Ok(rest) => if rest.len() == 0 {
                    r == Err::<char, Error>(Error::UnexpectedEof)
                } else {
                    r == Ok::<char, Error>(rest[0] as char) && final(self).rest() == rest.skip(1)
                },
                Err(e) => r == Err::<char, Error>(e),
            },
            r is Err ==> final(self).rest() == marker_stop(old(self).rest()),
    {
        self.read_expected_marker(Marker::Single { value: MARKER_U8 })?;
        let b = self.read_bytes(1)?;
        Ok(b[0] as char)
    }

    /// Reads a marked string, which must be UTF-8.
    pub fn deserialize_string(&mut self) -> (r: Result<String>)
        requires
            old(self).wf(),
        ensures
            final(self).wf(),
            final(self).root_entered() == old(self).root_entered(),
            match parse_expected_marker(Marker::Single { value: MARKER_STRING }, old(self).rest()) {
                Ok(rest) => match parse_buffer(rest) {
                    Ok((b, rest2)) => if valid_utf8(b) {
                        r is Ok && r->Ok_0@ == decode_utf8(b) && final(self).rest() == rest2
                    } else {
                        r == Err::<String, Error>(Error::InvalidString)
                    },
                    Err(e) => r == Err::<String, Error>(e),
                },
                Err(e) => r == Err::<String, Error>(e),
            },
            r is Err ==> final(self).rest() == (if parse_expected_marker(
                Marker::Single { value: MARKER_STRING },
                old(self).rest(),
            ) is Ok {
                buffer_stop(old(self).rest().skip(1))
            } else {
                marker_stop(old(self).rest())
            }),
    {
        self.read_expected_marker(Marker::Single { value: MARKER_STRING })?;
        let b = self.read_varint_marked_string()?;
        bytes_to_string(b)
    }

    /// Reads a tuple of `expected_length` bytes, which the format writes as a
    /// string of exactly that length.
    pub fn deserialize_tuple(&mut self, expected_length: usize) -> (r: Result<Vec<u8>>)
        requires
            old(self).wf(),
        ensures
            final(self).wf(),
            final(self).root_entered() == old(self).root_entered(),
            ({
                let s = old(self).rest();
                if s.len() == 0 {
                    r == Err::<Vec<u8>, Error>(Error::UnexpectedEof) && final(self).rest() == s
                } else if spec_from_byte(s[0]) != (Marker::Single { value: MARKER_STRING }) {
                    r == Err::<Vec<u8>, Error>(Error::TuplesOfTypeNotSupported(spec_from_byte(s[0])))
                        && final(self).rest() == s.skip(1)
                } else {
                    match varint::spec_decode(s.skip(1)) {
                        Err(e) => r == Err::<Vec<u8>, Error>(e) && final(self).rest() == s.skip(1),
                        Ok((n, w)) => {
                            let t = s.skip(1).skip(w as int);
                            if n != expected_length {
                                r == Err::<Vec<u8>, Error>(
                                    Error::LengthMismatch { declared: expected_length as u64, got: n as u64 },
                                ) && final(self).rest() == t
                            } else if t.len() < n {
                                r == Err::<Vec<u8>, Error>(Error::UnexpectedEof) && final(self).rest() == t
                            } else {
                                r is Ok && r->Ok_0@ == t.take(n as int) && final(self).rest() == t.skip(n as int)
                            }
                        },
                    }
                }
            }),
    {
        proof {
            if old(self).rest().len() > 0 {
                varint::lemma_decode_bound(old(self).rest().skip(1));
            }
        }
        let marker = self.read_marker()?;
        if marker != (Marker::Single { value: MARKER_STRING }) {
            return Err(Error::TuplesOfTypeNotSupported(marker));
        }
        let got_length = self.read_varint()?;
        if expected_length as u64 != got_length {
            return Err(Error::LengthMismatch { declared: expected_length as u64, got: got_length });
        }
        self.read_bytes(expected_length)
    }
}

/// Narrowing of an already decoded value to the shapes that typed readers ask for.
impl Value {
    /// The character that a byte value stands for; any other value is the
    /// wrong marker.
    pub fn into_char(self) -> (r: Result<char>)
        ensures
            match self@ {
                ValueModel::U8(b) => r == Ok::<char, Error>(b as char),
                _ => r == Err::<char, Error>(
                    Error::UnexpectedMarker {
                        expected: Marker::Single { value: MARKER_U8 },
                        actual: spec_from_byte(marker_byte(self@)),
                    },
                ),
            },
    {
        match self {
            Value::U8(b) => Ok(b as char),
            other => {
                let actual = Marker::from_byte(marker_byte_of(&other));
                Err(Error::UnexpectedMarker { expected: Marker::Single { value: MARKER_U8 }, actual })
            },
        }
    }

    /// The text of a string or of a byte buffer, which must be UTF-8; any
    /// other value is the wrong marker.
    pub fn into_text(self) -> (r: Result<String>)
        ensures
            match self@ {
                ValueModel::Str(t) => r is Ok && r->Ok_0@ == t,
                ValueModel::Bytes(b) => if valid_utf8(b) {
                    r is Ok && r->Ok_0@ == decode_utf8(b)
                } else {
                    r == Err::<String, Error>(Error::InvalidString)
                },
                _ => r == Err::<String, Error>(
                    Error::UnexpectedMarker {
                        expected: Marker::Single { value: MARKER_STRING },
                        actual: spec_from_byte(marker_byte(self@)),
                    },
                ),
            },
    {
        match self {
            Value::String(t) => Ok(t),
            Value::Bytes(b) => bytes_to_string(b),
            other => {
                let actual = Marker::from_byte(marker_byte_of(&other));
                Err(Error::UnexpectedMarker { expected: Marker::Single { value: MARKER_STRING }, actual })
            },
        }
    }

    /// The bytes of a tuple of `expected_length` elements, which travels as a
    /// byte buffer of exactly that length.
    pub fn into_tuple(self, expected_length: usize) -> (r: Result<Vec<u8>>)
        ensures
            match self@ {
                ValueModel::Bytes(b) => if b.len() == expected_length {
                    r is Ok && r->Ok_0@ == b
                } else {
                    r == Err::<Vec<u8>, Error>(
                        Error::LengthMismatch { declared: expected_length as u64, got: b.len() as u64 },
                    )
                },
                _ => r == Err::<Vec<u8>, Error>(
                    Error::TuplesOfTypeNotSupported(spec_from_byte(marker_byte(self@))),
                ),
            },
    {
        match self {
            Value::Bytes(b) => {
                if b.len() != expected_length {
                    return Err(Error::LengthMismatch { declared: expected_length as u64, got: b.len() as u64 });
                }
                Ok(b)
            },
            other => {
                let actual = Marker::from_byte(marker_byte_of(&other));
                Err(Error::TuplesOfTypeNotSupported(actual))
            },
        }
    }
}

} // verus!
