use vstd::prelude::*;

use vstd::utf8::{decode_utf8, encode_utf8};

verus! {

broadcast use {vstd::std_specs::vec::axiom_vec_decreases_to_view, vstd::seq::axiom_seq_index_decreases, vstd::seq::axiom_seq_subrange_decreases};

/// A decoded message of any shape.
///
/// `F64` holds the IEEE-754 bit pattern of the number. `Object` holds its
/// fields in the order their names first appear. Decoding keeps names
/// distinct (a repeated name takes the later value); a map built by hand may
/// repeat a name, and lookups then find the first field that has it.
#[derive(Debug)]
pub enum Value {
    I64(i64),
    I32(i32),
    I16(i16),
    I8(i8),
    U64(u64),
    U32(u32),
    U16(u16),
    U8(u8),
    F64(u64),
    String(String),
    Bytes(Vec<u8>),
    Bool(bool),
    Object(Vec<(String, Value)>),
    List(Vec<Value>),
}

/// The mathematical form of a [`Value`].
pub enum ValueModel {
    I64(i64),
    I32(i32),
    I16(i16),
    I8(i8),
    U64(u64),
    U32(u32),
    U16(u16),
    U8(u8),
    F64(u64),
    Str(Seq<char>),
    Bytes(Seq<u8>),
    Bool(bool),
    Object(Seq<(Seq<char>, ValueModel)>),
    List(Seq<ValueModel>),
}

pub open spec fn value_model(v: Value) -> ValueModel
    decreases v,
{
    match v {
        Value::I64(x) => ValueModel::I64(x),
        Value::I32(x) => ValueModel::I32(x),
        Value::I16(x) => ValueModel::I16(x),
        Value::I8(x) => ValueModel::I8(x),
        Value::U64(x) => ValueModel::U64(x),
        Value::U32(x) => ValueModel::U32(x),
        Value::U16(x) => ValueModel::U16(x),
        Value::U8(x) => ValueModel::U8(x),
        Value::F64(x) => ValueModel::F64(x),
        Value::String(s) => ValueModel::Str(s@),
        Value::Bytes(b) => ValueModel::Bytes(b@),
        Value::Bool(b) => ValueModel::Bool(b),
        Value::Object(fs) => ValueModel::Object(fields_model(fs@)),
        Value::List(items) => ValueModel::List(items_model(items@)),
    }
}

pub open spec fn fields_model(s: Seq<(String, Value)>) -> Seq<(Seq<char>, ValueModel)>
    decreases s,
{
    if s.len() == 0 {
        Seq::empty()
    } else {
        fields_model(s.drop_last()).push((s.last().0@, value_model(s.last().1)))
    }
}

pub open spec fn items_model(s: Seq<Value>) -> Seq<ValueModel>
    decreases s,
{
    if s.len() == 0 {
        Seq::empty()
    } else {
        items_model(s.drop_last()).push(value_model(s.last()))
    }
}

impl View for Value {
    type V = ValueModel;

    open spec fn view(&self) -> ValueModel {
        value_model(*self)
    }
}

/// The value of the first field named `key`, if `v` is a field map that has one.
pub open spec fn spec_get(v: ValueModel, key: Seq<char>) -> Option<ValueModel> {
    match v {
        ValueModel::Object(fs) => lookup(fs, key),
        _ => None,
    }
}

pub open spec fn lookup(fs: Seq<(Seq<char>, ValueModel)>, key: Seq<char>) -> Option<ValueModel>
    decreases fs.len(),
{
    if fs.len() == 0 {
        None
    } else if fs[0].0 == key {
        Some(fs[0].1)
    } else {
        lookup(fs.drop_first(), key)
    }
}

/// Whether two strings hold the same characters.
pub(crate) fn same_text(a: &str, b: &str) -> (r: bool)
    ensures
        r == (a@ == b@),
{
    broadcast use {vstd::utf8::encode_utf8_decode_utf8, vstd::utf8::encode_utf8_valid_utf8};

    let x = a.as_bytes();
    let y = b.as_bytes();
    proof {
        assert(decode_utf8(encode_utf8(a@)) == a@);
        assert(decode_utf8(encode_utf8(b@)) == b@);
        assert(x@ == encode_utf8(a@));
        assert(y@ == encode_utf8(b@));
    }
    if x.len() != y.len() {
        return false;
    }
    let mut i: usize = 0;
    while i < x.len()
        invariant
            i <= x@.len(),
            x@.len() == y@.len(),
            x@ == encode_utf8(a@),
            y@ == encode_utf8(b@),
            x@.take(i as int) == y@.take(i as int),
        decreases x@.len() - i,
    {
        if x[i] != y[i] {
            assert(x@[i as int] != y@[i as int]);
            assert(x@ != y@);
            return false;
        }
        i = i + 1;
        assert(x@.take(i as int) =~= x@.take(i - 1).push(x@[i - 1]));
        assert(y@.take(i as int) =~= y@.take(i - 1).push(y@[i - 1]));
    }
    assert(x@ =~= x@.take(x@.len() as int));
    assert(y@ =~= y@.take(y@.len() as int));
    true
}

pub proof fn lemma_items_model(s: Seq<Value>)
    ensures
        items_model(s).len() == s.len(),
        forall|i: int| 0 <= i < s.len() ==> #[trigger] items_model(s)[i] == value_model(s[i]),
    decreases s.len(),
{
    if s.len() > 0 {
        lemma_items_model(s.drop_last());
    }
}

pub proof fn lemma_fields_model(s: Seq<(String, Value)>)
    ensures
        fields_model(s).len() == s.len(),
        forall|i: int|
            0 <= i < s.len() ==> #[trigger] fields_model(s)[i] == (s[i].0@, value_model(s[i].1)),
    decreases s.len(),
{
    if s.len() > 0 {
        lemma_fields_model(s.drop_last());
    }
}

proof fn lemma_lookup_skip(fs: Seq<(Seq<char>, ValueModel)>, key: Seq<char>, i: int)
    requires
        0 <= i < fs.len(),
        fs[i].0 != key,
    ensures
        lookup(fs.skip(i), key) == lookup(fs.skip(i + 1), key),
{
    assert(fs.skip(i).drop_first() =~= fs.skip(i + 1));
}

impl Value {
    /// The value of the first field named `key`; `None` unless this is a
    /// field map with such a field. Where a name occurs twice, the first wins.
    pub fn get(&self, key: &str) -> (r: Option<&Value>)
        ensures
            match r {
                Some(x) => spec_get(self@, key@) == Some(x@),
                None => spec_get(self@, key@) is None,
            },
    {
        match self {
            Value::Object(fs) => {
                let ghost m = fields_model(fs@);
                proof {
                    lemma_fields_model(fs@);
                    assert(m.skip(0) =~= m);
                }
                let mut i: usize = 0;
                while i < fs.len()
                    invariant
                        i <= fs@.len(),
                        m == fields_model(fs@),
                        m.len() == fs@.len(),
                        forall|j: int| 0 <= j < fs@.len() ==> #[trigger] m[j] == (fs@[j].0@, value_model(fs@[j].1)),
                        lookup(m, key@) == lookup(m.skip(i as int), key@),
                        spec_get(self@, key@) == lookup(m, key@),
                    decreases fs@.len() - i,
                {
                    if same_text(fs[i].0.as_str(), key) {
                        assert(m[i as int].0 == key@);
                        assert(m.skip(i as int).len() > 0);
                        assert(m.skip(i as int)[0] == m[i as int]);
                        assert(lookup(m.skip(i as int), key@) == Some(m[i as int].1));
                        return Some(&fs[i].1);
                    }
                    proof {
                        lemma_lookup_skip(m, key@, i as int);
                    }
                    i = i + 1;
                }
                assert(m.skip(i as int).len() == 0);
                None
            },
            _ => None,
        }
    }

    /// Mutable access to the value of the first field named `key`; `None`
    /// unless this is a field map with such a field. Where a name occurs
    /// twice, the first wins.
    pub fn get_mut(&mut self, key: &str) -> (r: Option<&mut Value>)
        ensures
            r is Some <==> spec_get(old(self)@, key@) is Some,
            r is Some ==> spec_get(old(self)@, key@) == Some((*r->0)@),
    {
        let found = match &*self {
            Value::Object(_) => self.get(key).is_some(),
            _ => false,
        };
        if !found {
            return None;
        }
        match self {
            Value::Object(fs) => {
                let ghost m = fields_model(fs@);
                proof {
                    lemma_fields_model(fs@);
                    assert(m.skip(0) =~= m);
                }
                let mut i: usize = 0;
                while i < fs.len()
                    invariant
                        i <= fs@.len(),
                        m == fields_model(fs@),
                        m.len() == fs@.len(),
                        forall|j: int| 0 <= j < fs@.len() ==> #[trigger] m[j] == (fs@[j].0@, value_model(fs@[j].1)),
                        lookup(m, key@) == lookup(m.skip(i as int), key@),
                        spec_get(old(self)@, key@) == lookup(m, key@),
                        lookup(m, key@) is Some,
                    decreases fs@.len() - i,
                {
                    if same_text(fs[i].0.as_str(), key) {
                        assert(m[i as int].0 == key@);
                        assert(m.skip(i as int).len() > 0);
                        assert(m.skip(i as int)[0] == m[i as int]);
                        assert(lookup(m.skip(i as int), key@) == Some(m[i as int].1));
                        return Some(&mut fs[i].1);
                    }
                    proof {
                        lemma_lookup_skip(m, key@, i as int);
                    }
                    i = i + 1;
                }
                assert(m.skip(i as int).len() == 0);
                None
            },
            _ => None,
        }
    }
}

} // verus!
