use vstd::prelude::*;

use crate::error::Error;
use crate::marker::{spec_from_byte, Marker, MARKER_STRING, MARKER_STRUCT};
use crate::read_ext::{le_bytes, lemma_le_round_trip, lemma_pow256_facts};
use crate::value::ValueModel;
use crate::varint::{lemma_varint_round_trip, spec_decode as varint_parse, spec_encode as varint_bytes};
use crate::wire::{
    canon, canon_fields, canon_items, enc_fields, enc_items, enc_payload, enc_value, encodable,
    fields_encodable, items_encodable, marker_byte, parse_buffer, parse_fields, parse_fixed,
    parse_items, parse_payload, put_field, single_id, MAX_STRING_LEN_POSSIBLE,
};
use crate::de::parse_marked;
use crate::{preamble, spec_from_bytes, PORTABLE_STORAGE_VERSION};
use vstd::utf8::{encode_utf8, valid_utf8};

verus! {

broadcast use {
    vstd::seq::axiom_seq_index_decreases,
    vstd::seq::axiom_seq_subrange_decreases,
    vstd::utf8::encode_utf8_decode_utf8,
    vstd::utf8::encode_utf8_valid_utf8,
};

proof fn lemma_fixed_round_trip(x: nat, width: nat, rest: Seq<u8>)
    requires
        x < crate::read_ext::pow256(width),
    ensures
        parse_fixed(le_bytes(x, width) + rest, width) == Ok::<(nat, Seq<u8>), Error>((x, rest)),
{
    lemma_le_round_trip(x, width);
    let s = le_bytes(x, width) + rest;
    assert(s.take(width as int) =~= le_bytes(x, width));
    assert(s.skip(width as int) =~= rest);
}

proof fn lemma_buffer_round_trip(b: Seq<u8>, rest: Seq<u8>)
    requires
        b.len() <= MAX_STRING_LEN_POSSIBLE,
    ensures
        parse_buffer(varint_bytes(b.len()) + b + rest) == Ok::<(Seq<u8>, Seq<u8>), Error>((b, rest)),
{
    lemma_varint_round_trip(b.len(), b + rest);
    let s = varint_bytes(b.len()) + b + rest;
    assert(s =~= varint_bytes(b.len()) + (b + rest));
    let w = varint_bytes(b.len()).len();
    assert(s.skip(w as int) =~= b + rest);
    assert((b + rest).take(b.len() as int) =~= b);
    assert((b + rest).skip(b.len() as int) =~= rest);
}

/// An encodable value is read back from its payload as its canonical form,
/// whatever follows it.
pub proof fn lemma_payload_round_trip(v: ValueModel, rest: Seq<u8>)
    requires
        encodable(v, MAX_STRING_LEN_POSSIBLE as nat),
    ensures
        parse_payload(spec_from_byte(marker_byte(v)), enc_payload(v) + rest) == Ok::<
            (ValueModel, Seq<u8>),
            Error,
        >((canon(v), rest)),
    decreases v, 0nat,
{
    lemma_pow256_facts();
    match v {
        ValueModel::I64(x) => {
            lemma_fixed_round_trip(x as u64 as nat, 8, rest);
            assert((x as u64) as i64 == x) by (bit_vector);
        },
        ValueModel::I32(x) => {
            lemma_fixed_round_trip(x as u32 as nat, 4, rest);
            assert((x as u32) as i32 == x) by (bit_vector);
        },
        ValueModel::I16(x) => {
            lemma_fixed_round_trip(x as u16 as nat, 2, rest);
            assert((x as u16) as i16 == x) by (bit_vector);
        },
        ValueModel::I8(x) => {
            lemma_fixed_round_trip(x as u8 as nat, 1, rest);
            assert((x as u8) as i8 == x) by (bit_vector);
        },
        ValueModel::U64(x) => lemma_fixed_round_trip(x as nat, 8, rest),
        ValueModel::U32(x) => lemma_fixed_round_trip(x as nat, 4, rest),
        ValueModel::U16(x) => lemma_fixed_round_trip(x as nat, 2, rest),
        ValueModel::U8(x) => lemma_fixed_round_trip(x as nat, 1, rest),
        ValueModel::F64(x) => lemma_fixed_round_trip(x as nat, 8, rest),
        ValueModel::Bool(b) => {
            let s = enc_payload(v) + rest;
            assert(s.skip(1) =~= rest);
        },
        ValueModel::Str(s) => {
            lemma_buffer_round_trip(encode_utf8(s), rest);
            assert(enc_payload(v) + rest =~= varint_bytes(encode_utf8(s).len()) + encode_utf8(s)
                + rest);
        },
        ValueModel::Bytes(b) => {
            lemma_buffer_round_trip(b, rest);
        },
        ValueModel::Object(fs) => {
            lemma_varint_round_trip(fs.len(), enc_fields(fs) + rest);
            let s = enc_payload(v) + rest;
            assert(s =~= varint_bytes(fs.len()) + (enc_fields(fs) + rest));
            assert(s.skip(varint_bytes(fs.len()).len() as int) =~= enc_fields(fs) + rest);
            lemma_fields_round_trip(fs, rest);
        },
        ValueModel::List(items) => {
            lemma_varint_round_trip(items.len(), enc_items(items) + rest);
            let s = enc_payload(v) + rest;
            assert(s =~= varint_bytes(items.len()) + (enc_items(items) + rest));
            assert(s.skip(varint_bytes(items.len()).len() as int) =~= enc_items(items) + rest);
            let e: u8 = if items.len() == 0 {
                8
            } else {
                single_id(items[0])
            };
            assert(spec_from_byte(marker_byte(v)) == Marker::Sequence { element: e });
            lemma_items_round_trip(items, e, rest);
        },
    }
}

pub proof fn lemma_fields_round_trip(fs: Seq<(Seq<char>, ValueModel)>, rest: Seq<u8>)
    requires
        fields_encodable(fs, MAX_STRING_LEN_POSSIBLE as nat),
    ensures
        parse_fields(fs.len(), enc_fields(fs) + rest) == Ok::<
            (Seq<(Seq<char>, ValueModel)>, Seq<u8>),
            Error,
        >((canon_fields(fs), rest)),
    decreases fs, 1nat,
{
    if fs.len() == 0 {
        assert(enc_fields(fs) + rest =~= rest);
    } else {
        let init = fs.drop_last();
        let (key, val) = fs.last();
        let name = encode_utf8(key);
        let tailb = seq![name.len() as u8] + name + seq![marker_byte(val)] + enc_payload(val) + rest;
        assert(enc_fields(fs) + rest =~= enc_fields(init) + tailb);
        lemma_fields_round_trip(init, tailb);
        let t = tailb.skip(1);
        let l = name.len();
        assert(t.take(l as int) =~= name);
        assert(t[l as int] == marker_byte(val));
        assert(t.skip((l + 1) as int) =~= enc_payload(val) + rest);
        lemma_payload_round_trip(val, rest);
        lemma_canon_fields_names(init);
        let c = canon_fields(init);
        assert forall|i: int| 0 <= i < c.len() implies c[i].0 != key by {
            assert(init[i] == fs[i]);
        }
        assert(put_field(c, key, canon(val)) == c.push((key, canon(val))));
    }
}

proof fn lemma_canon_fields_names(fs: Seq<(Seq<char>, ValueModel)>)
    ensures
        canon_fields(fs).len() == fs.len(),
        forall|i: int| 0 <= i < fs.len() ==> (#[trigger] canon_fields(fs)[i]).0 == fs[i].0,
    decreases fs.len(),
{
    if fs.len() > 0 {
        lemma_canon_fields_names(fs.drop_last());
    }
}

pub proof fn lemma_items_round_trip(items: Seq<ValueModel>, e: u8, rest: Seq<u8>)
    requires
        items.len() == 0 || items_encodable(items, e, MAX_STRING_LEN_POSSIBLE as nat),
    ensures
        parse_items(e, items.len(), enc_items(items) + rest) == Ok::<
            (Seq<ValueModel>, Seq<u8>),
            Error,
        >((canon_items(items), rest)),
    decreases items, 1nat,
{
    if items.len() == 0 {
        assert(enc_items(items) + rest =~= rest);
    } else {
        let init = items.drop_last();
        let last = items.last();
        let tailb = enc_payload(last) + rest;
        assert(enc_items(items) + rest =~= enc_items(init) + tailb);
        lemma_items_round_trip(init, e, tailb);
        lemma_payload_round_trip(last, rest);
    }
}

/// A value written with its marker is read back as its canonical form.
pub proof fn lemma_value_round_trip(v: ValueModel, rest: Seq<u8>)
    requires
        encodable(v, MAX_STRING_LEN_POSSIBLE as nat),
    ensures
        parse_marked(enc_value(v) + rest) == Ok::<(ValueModel, Seq<u8>), Error>((canon(v), rest)),
{
    let s = enc_value(v) + rest;
    assert(s.skip(1) =~= enc_payload(v) + rest);
    lemma_payload_round_trip(v, rest);
}

/// Decoding what encoding a field map wrote gives the map back, field for
/// field, with strings as their UTF-8 bytes.
pub proof fn lemma_round_trip(v: ValueModel)
    requires
        v is Object,
        encodable(v, MAX_STRING_LEN_POSSIBLE as nat),
    ensures
        spec_from_bytes(preamble() + seq![PORTABLE_STORAGE_VERSION] + enc_payload(v)) == Ok::<
            ValueModel,
            Error,
        >(canon(v)),
{
    let s = preamble() + seq![PORTABLE_STORAGE_VERSION] + enc_payload(v);
    assert(s.take(8) =~= preamble());
    assert(s.skip(9) =~= enc_payload(v) + Seq::<u8>::empty());
    lemma_payload_round_trip(v, Seq::empty());
}

/// Input that does not start with the preamble is refused as such; a wrong
/// version byte after it is refused with that byte.
pub proof fn lemma_header_rejection(s: Seq<u8>)
    ensures
        !(s.len() >= 8 && s.take(8) == preamble()) ==> spec_from_bytes(s) == Err::<ValueModel, Error>(
            Error::MissingHeader,
        ),
        s.len() >= 9 && s.take(8) == preamble() && s[8] != PORTABLE_STORAGE_VERSION
            ==> spec_from_bytes(s) == Err::<ValueModel, Error>(Error::InvalidVersion(s[8])),
{
}

/// A string whose declared length is over the bound is refused before any of
/// its bytes are read, however few follow.
pub proof fn lemma_length_guard(s: Seq<u8>)
    requires
        varint_parse(s) is Ok,
        varint_parse(s)->Ok_0.0 > MAX_STRING_LEN_POSSIBLE,
    ensures
        parse_payload(Marker::Single { value: MARKER_STRING }, s) == Err::<(ValueModel, Seq<u8>), Error>(
            Error::MarkedStringExceededMaxLength,
        ),
{
}

/// Decoding never leaves more input than it was given; a value takes at
/// least one byte.
pub proof fn lemma_payload_shrinks(m: Marker, s: Seq<u8>)
    ensures
        parse_payload(m, s) is Ok ==> parse_payload(m, s)->Ok_0.1.len() < s.len(),
    decreases s.len(), 0nat, 0nat,
{
    match m {
        Marker::Sequence { element } => {
            if let Ok((n, w)) = varint_parse(s) {
                if 1 <= w <= s.len() {
                    lemma_items_shrink(element, n, s.skip(w as int));
                }
            }
        },
        Marker::Single { value } => {
            if value == MARKER_STRUCT {
                if let Ok((n, w)) = varint_parse(s) {
                    if 1 <= w <= s.len() {
                        lemma_fields_shrink(n, s.skip(w as int));
                    }
                }
            }
        },
    }
}

pub proof fn lemma_items_shrink(element: u8, k: nat, s: Seq<u8>)
    ensures
        parse_items(element, k, s) is Ok ==> parse_items(element, k, s)->Ok_0.1.len() <= s.len(),
    decreases s.len(), 1nat, k,
{
    if k > 0 {
        lemma_items_shrink(element, (k - 1) as nat, s);
        if let Ok((_, r)) = parse_items(element, (k - 1) as nat, s) {
            if r.len() <= s.len() {
                lemma_payload_shrinks(Marker::Single { value: element }, r);
            }
        }
    }
}

pub proof fn lemma_fields_shrink(k: nat, s: Seq<u8>)
    ensures
        parse_fields(k, s) is Ok ==> parse_fields(k, s)->Ok_0.1.len() <= s.len(),
    decreases s.len(), 1nat, k,
{
    if k > 0 {
        lemma_fields_shrink((k - 1) as nat, s);
        if let Ok((_, r)) = parse_fields((k - 1) as nat, s) {
            if 1 <= r.len() <= s.len() {
                let l = r[0] as nat;
                let t = r.skip(1);
                if t.len() >= l + 1 {
                    lemma_payload_shrinks(spec_from_byte(t[l as int]), t.skip((l + 1) as int));
                }
            }
        }
    }
}

/// Wherever it stands in a map, a field name whose bytes are not UTF-8 is
/// refused: once the fields before it are read, reading it fails.
pub proof fn lemma_any_field_name_must_be_utf8(j: nat, k: nat, s: Seq<u8>)
    requires
        j < k,
        parse_fields(j, s) is Ok,
        ({
            let r = parse_fields(j, s)->Ok_0.1;
            &&& r.len() >= 1
            &&& r.len() >= 1 + r[0]
            &&& !valid_utf8(r.skip(1).take(r[0] as int))
        }),
    ensures
        parse_fields(k, s) == Err::<(Seq<(Seq<char>, ValueModel)>, Seq<u8>), Error>(
            Error::InvalidString,
        ),
    decreases k,
{
    lemma_fields_shrink(j, s);
    if k > j + 1 {
        lemma_any_field_name_must_be_utf8(j, (k - 1) as nat, s);
    }
}

} // verus!
