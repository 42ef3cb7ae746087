use vstd::prelude::*;

use crate::marker::{
    MARKER_ARRAY_ELEMENT, MARKER_BOOL, MARKER_F64, MARKER_I16, MARKER_I32, MARKER_I64, MARKER_I8,
    MARKER_STRING, MARKER_STRUCT, MARKER_U16, MARKER_U32, MARKER_U64, MARKER_U8,
};
use crate::read_ext::write_le;
use crate::value::{
    fields_model, items_model, lemma_fields_model, lemma_items_model, value_model, Value, ValueModel,
};
use crate::varint::{self, VARINT_LIMIT};
use crate::wire::encode_bound;
use crate::wire::{
    enc_fields, enc_items, enc_payload, encodable, fields_encodable, items_encodable, marker_byte,
    single_id, MAX_STRING_LEN_POSSIBLE,
};
use vstd::utf8::encode_utf8;

verus! {

broadcast use {vstd::std_specs::vec::axiom_vec_index_decreases, vstd::seq::axiom_seq_index_decreases};

pub proof fn lemma_fields_encodable(fs: Seq<(Seq<char>, ValueModel)>)
    requires
        fields_encodable(fs, encode_bound()),
    ensures
        forall|i: int|
            0 <= i < fs.len() ==> encode_utf8(#[trigger] fs[i].0).len() <= 255 && encodable(
                fs[i].1, encode_bound()),
        forall|j: int| 0 <= j <= fs.len() ==> fields_encodable(#[trigger] fs.take(j), encode_bound()),
    decreases fs.len(),
{
    if fs.len() > 0 {
        lemma_fields_encodable(fs.drop_last());
        assert forall|i: int| 0 <= i < fs.len() implies encode_utf8(#[trigger] fs[i].0).len() <= 255
            && encodable(fs[i].1, encode_bound()) by {
            if i < fs.len() - 1 {
                assert(fs[i] == fs.drop_last()[i]);
            }
        }
        assert forall|j: int| 0 <= j <= fs.len() implies fields_encodable(#[trigger] fs.take(j), encode_bound()) by {
            if j == fs.len() {
                assert(fs.take(j) =~= fs);
            } else {
                assert(fs.take(j) =~= fs.drop_last().take(j));
            }
        }
    }
}

pub proof fn lemma_items_encodable(items: Seq<ValueModel>, id: u8)
    requires
        items_encodable(items, id, encode_bound()),
    ensures
        forall|i: int|
            0 <= i < items.len() ==> !(#[trigger] items[i] is List) && single_id(items[i]) == id
                && encodable(items[i], encode_bound()),
    decreases items.len(),
{
    if items.len() > 0 {
        lemma_items_encodable(items.drop_last(), id);
        assert forall|i: int| 0 <= i < items.len() implies !(#[trigger] items[i] is List)
            && single_id(items[i]) == id && encodable(items[i], encode_bound()) by {
            if i < items.len() - 1 {
                assert(items[i] == items.drop_last()[i]);
            }
        }
    }
}

/// Appends bytes to `out`.
fn push_bytes(out: &mut Vec<u8>, b: &[u8])
    ensures
        final(out)@ == old(out)@ + b@,
{
    let ghost start = old(out)@;
    let mut i: usize = 0;
    while i < b.len()
        invariant
            i <= b@.len(),
            out@ == start + b@.take(i as int),
        decreases b@.len() - i,
    {
        out.push(b[i]);
        i = i + 1;
        assert(out@ =~= start + b@.take(i as int));
    }
    assert(b@.take(b@.len() as int) =~= b@);
}

/// The type id of a value that is not a sequence.
pub fn single_id_of(v: &Value) -> (r: u8)
    ensures
        r == single_id(v@),
{
    match v {
        Value::I64(_) => MARKER_I64,
        Value::I32(_) => MARKER_I32,
        Value::I16(_) => MARKER_I16,
        Value::I8(_) => MARKER_I8,
        Value::U64(_) => MARKER_U64,
        Value::U32(_) => MARKER_U32,
        Value::U16(_) => MARKER_U16,
        Value::U8(_) => MARKER_U8,
        Value::F64(_) => MARKER_F64,
        Value::String(_) => MARKER_STRING,
        Value::Bytes(_) => MARKER_STRING,
        Value::Bool(_) => MARKER_BOOL,
        Value::Object(_) => MARKER_STRUCT,
        Value::List(_) => 0,
    }
}

/// The marker byte written before a value.
pub fn marker_byte_of(v: &Value) -> (r: u8)
    ensures
        r == marker_byte(v@),
{
    match v {
        Value::List(items) => {
            proof {
                lemma_items_model(items@);
            }
            if items.len() == 0 {
                assert(8u8 | 0x80u8 == 0x88u8) by (bit_vector);
                MARKER_U8 | MARKER_ARRAY_ELEMENT
            } else {
                let id = single_id_of(&items[0]);
                assert(id < 13);
                let r = id | MARKER_ARRAY_ELEMENT;
                assert(r == id + 0x80) by (bit_vector)
                    requires
                        id < 13,
                        r == id | 0x80u8,
                ;
                r
            }
        },
        _ => single_id_of(v),
    }
}

/// Appends the payload of `v`: everything after its marker.
pub fn encode_payload(v: &Value, out: &mut Vec<u8>)
    requires
        encodable(v@, encode_bound()),
    ensures
        final(out)@ == old(out)@ + enc_payload(v@),
    decreases v,
{
    let ghost start = old(out)@;
    match v {
        Value::I64(x) => write_le(out, #[verifier::truncate] (*x as u64), 8),
        Value::I32(x) => write_le(out, (#[verifier::truncate] (*x as u32)) as u64, 4),
        Value::I16(x) => write_le(out, (#[verifier::truncate] (*x as u16)) as u64, 2),
        Value::I8(x) => write_le(out, (#[verifier::truncate] (*x as u8)) as u64, 1),
        Value::U64(x) => write_le(out, *x, 8),
        Value::U32(x) => write_le(out, *x as u64, 4),
        Value::U16(x) => write_le(out, *x as u64, 2),
        Value::U8(x) => write_le(out, *x as u64, 1),
        Value::F64(x) => write_le(out, *x, 8),
        Value::Bool(b) => out.push(if *b { 1u8 } else { 0u8 }),
        Value::String(s) => {
            let b = s.as_str().as_bytes();
            let n = varint::encode(b.len());
            push_bytes(out, n.as_slice());
            push_bytes(out, b);
            assert(out@ =~= start + enc_payload(v@));
        },
        Value::Bytes(b) => {
            let n = varint::encode(b.len());
            push_bytes(out, n.as_slice());
            push_bytes(out, b.as_slice());
            assert(out@ =~= start + enc_payload(v@));
        },
        Value::Object(fs) => {
            proof {
                lemma_fields_model(fs@);
            }
            let n = varint::encode(fs.len());
            push_bytes(out, n.as_slice());
            encode_fields(fs, out);
            assert(out@ =~= start + enc_payload(v@));
        },
        Value::List(items) => {
            proof {
                lemma_items_model(items@);
                let m = items_model(items@);
                if m.len() > 0 {
                    lemma_items_encodable(m, single_id(m[0]));
                }
                assert forall|j: int| 0 <= j < items@.len() implies encodable(#[trigger] items@[j]@, encode_bound()) by {
                    assert(m[j] == value_model(items@[j]));
                }
            }
            let n = varint::encode(items.len());
            push_bytes(out, n.as_slice());
            encode_items(items, out);
            assert(out@ =~= start + enc_payload(v@));
        },
    }
}

/// Appends each field: name length, name bytes, marker, payload.
fn encode_fields(fs: &Vec<(String, Value)>, out: &mut Vec<u8>)
    requires
        fields_encodable(fields_model(fs@), encode_bound()),
    ensures
        final(out)@ == old(out)@ + enc_fields(fields_model(fs@)),
    decreases fs,
{
    let ghost m = fields_model(fs@);
    proof {
        lemma_fields_model(fs@);
        lemma_fields_encodable(m);
    }
    let ghost mid = old(out)@;
    let mut i: usize = 0;
    assert(enc_fields(m.take(0)) =~= Seq::<u8>::empty());
    while i < fs.len()
        invariant
            i <= fs@.len(),
            m == fields_model(fs@),
            m.len() == fs@.len(),
            forall|j: int| 0 <= j < fs@.len() ==> #[trigger] m[j] == (fs@[j].0@, value_model(fs@[j].1)),
            forall|j: int|
                0 <= j < m.len() ==> encode_utf8(#[trigger] m[j].0).len() <= 255 && encodable(m[j].1, encode_bound()),
            out@ == mid + enc_fields(m.take(i as int)),
        decreases fs@.len() - i,
    {
        let name = fs[i].0.as_str().as_bytes();
        let value = &fs[i].1;
        assert(m[i as int].0 == fs@[i as int].0@);
        proof {
            assert(decreases_to!(*fs => fs@));
            assert(decreases_to!(fs@ => fs@[i as int]));
            assert(decreases_to!(fs@[i as int] => fs@[i as int].1));
        }
        out.push(name.len() as u8);
        push_bytes(out, name);
        out.push(marker_byte_of(value));
        encode_payload(value, out);
        proof {
            assert(m.take(i + 1).drop_last() =~= m.take(i as int));
            assert(m.take(i + 1).last() == m[i as int]);
        }
        i = i + 1;
        assert(out@ =~= mid + enc_fields(m.take(i as int)));
    }
    assert(m.take(fs@.len() as int) =~= m);
}

/// Appends the payload of each element, without markers.
fn encode_items(items: &Vec<Value>, out: &mut Vec<u8>)
    requires
        forall|j: int| 0 <= j < items@.len() ==> encodable(#[trigger] items@[j]@, encode_bound()),
    ensures
        final(out)@ == old(out)@ + enc_items(items_model(items@)),
    decreases items,
{
    let ghost m = items_model(items@);
    proof {
        lemma_items_model(items@);
    }
    let ghost mid = old(out)@;
    let mut i: usize = 0;
    assert(enc_items(m.take(0)) =~= Seq::<u8>::empty());
    while i < items.len()
        invariant
            i <= items@.len(),
            m == items_model(items@),
            m.len() == items@.len(),
            forall|j: int| 0 <= j < items@.len() ==> #[trigger] m[j] == value_model(items@[j]),
            forall|j: int| 0 <= j < items@.len() ==> encodable(#[trigger] items@[j]@, encode_bound()),
            out@ == mid + enc_items(m.take(i as int)),
        decreases items@.len() - i,
    {
        let item = &items[i];
        assert(encodable(items@[i as int]@, encode_bound()));
        proof {
            assert(decreases_to!(*items => items@));
            assert(decreases_to!(items@ => items@[i as int]));
        }
        encode_payload(item, out);
        proof {
            assert(m.take(i + 1).drop_last() =~= m.take(i as int));
            assert(m.take(i + 1).last() == m[i as int]);
        }
        i = i + 1;
        assert(out@ =~= mid + enc_items(m.take(i as int)));
    }
    assert(m.take(items@.len() as int) =~= m);
}

/// Whether the encoder can write a value: names of at most 255 bytes, string
/// lengths that fit a varint, sequences of one element type that are not
/// sequences themselves.
pub fn is_encodable(v: &Value) -> (r: bool)
    ensures
        r == encodable(v@, encode_bound()),
    decreases v,
{
    match v {
        Value::String(s) => (s.as_str().as_bytes().len() as u64) < VARINT_LIMIT,
        Value::Bytes(b) => (b.len() as u64) < VARINT_LIMIT,
        Value::Object(fs) => {
            proof {
                lemma_fields_model(fs@);
            }
            (fs.len() as u64) < VARINT_LIMIT && fields_encodable_exec(fs)
        },
        Value::List(items) => {
            proof {
                lemma_items_model(items@);
            }
            if (items.len() as u64) >= VARINT_LIMIT {
                false
            } else if items.len() == 0 {
                true
            } else {
                let id = single_id_of(&items[0]);
                items_encodable_exec(items, id)
            }
        },
        _ => true,
    }
}

fn fields_encodable_exec(fs: &Vec<(String, Value)>) -> (r: bool)
    ensures
        r == fields_encodable(fields_model(fs@), encode_bound()),
    decreases fs,
{
    let ghost m = fields_model(fs@);
    proof {
        lemma_fields_model(fs@);
    }
    let mut i: usize = 0;
    assert(m.take(0) =~= Seq::<(Seq<char>, ValueModel)>::empty());
    while i < fs.len()
        invariant
            i <= fs@.len(),
            m == fields_model(fs@),
            m.len() == fs@.len(),
            forall|j: int| 0 <= j < fs@.len() ==> #[trigger] m[j] == (fs@[j].0@, value_model(fs@[j].1)),
            fields_encodable(m.take(i as int), encode_bound()),
        decreases fs@.len() - i,
    {
        proof {
            assert(decreases_to!(*fs => fs@));
            assert(decreases_to!(fs@ => fs@[i as int]));
            assert(decreases_to!(fs@[i as int] => fs@[i as int].1));
            assert(m.take(i + 1).drop_last() =~= m.take(i as int));
            assert(m.take(i + 1).last() == m[i as int]);
        }
        let ok = fs[i].0.as_str().as_bytes().len() <= 255 && is_encodable(&fs[i].1)
            && name_is_new(fs, i);
        if !ok {
            proof {
                if fields_encodable(m, encode_bound()) {
                    lemma_fields_encodable(m);
                    let t = m.take(i + 1);
                    assert(fields_encodable(t, encode_bound()));
                    assert(t.drop_last() =~= m.take(i as int));
                    assert(t.last() == m[i as int]);
                    assert forall|j: int| 0 <= j < i implies fs@[j].0@ != fs@[i as int].0@ by {
                        assert(t[j] == m[j]);
                        assert(m[j].0 == fs@[j].0@);
                        assert(m[i as int].0 == fs@[i as int].0@);
                    }
                }
            }
            return false;
        }
        i = i + 1;
    }
    assert(m.take(fs@.len() as int) =~= m);
    true
}

/// Whether the name of field `i` differs from every earlier field name.
fn name_is_new(fs: &Vec<(String, Value)>, i: usize) -> (r: bool)
    requires
        i < fs@.len(),
    ensures
        r == (forall|j: int| 0 <= j < i ==> fs@[j].0@ != fs@[i as int].0@),
{
    let mut j: usize = 0;
    while j < i
        invariant
            j <= i < fs@.len(),
            forall|jj: int| 0 <= jj < j ==> fs@[jj].0@ != fs@[i as int].0@,
        decreases i - j,
    {
        if crate::value::same_text(fs[j].0.as_str(), fs[i].0.as_str()) {
            return false;
        }
        j = j + 1;
    }
    true
}

fn items_encodable_exec(items: &Vec<Value>, id: u8) -> (r: bool)
    ensures
        r == items_encodable(items_model(items@), id, encode_bound()),
    decreases items,
{
    let ghost m = items_model(items@);
    proof {
        lemma_items_model(items@);
    }
    let mut i: usize = 0;
    assert(m.take(0) =~= Seq::<ValueModel>::empty());
    while i < items.len()
        invariant
            i <= items@.len(),
            m == items_model(items@),
            m.len() == items@.len(),
            forall|j: int| 0 <= j < items@.len() ==> #[trigger] m[j] == value_model(items@[j]),
            items_encodable(m.take(i as int), id, encode_bound()),
        decreases items@.len() - i,
    {
        proof {
            assert(decreases_to!(*items => items@));
            assert(decreases_to!(items@ => items@[i as int]));
            assert(m.take(i + 1).drop_last() =~= m.take(i as int));
            assert(m.take(i + 1).last() == m[i as int]);
        }
        let item = &items[i];
        let is_list = match item {
            Value::List(_) => true,
            _ => false,
        };
        let ok = !is_list && single_id_of(item) == id && is_encodable(item);
        if !ok {
            proof {
                if items_encodable(m, id, encode_bound()) {
                    lemma_items_encodable(m, id);
                }
            }
            return false;
        }
        i = i + 1;
    }
    assert(m.take(items@.len() as int) =~= m);
    true
}

} // verus!
