//! Sortable keys: how field values become bytes whose order is that of the values.

use vstd::prelude::*;
use vstd::string::*;
use vstd::utf8::*;

use crate::error::{EngineError, ErrorView, Got, GotView};
use crate::float_bits::{F64_INFINITY, F64_SIGN};
use crate::text;
use crate::text::{cat3, cat4, decimal_i64, decimal_usize, own};
use crate::types::FieldType;
use crate::value::{LogicalId, Val, Value};

verus! {

/// The `n` low bytes of `x`, the most significant first.
pub open spec fn big_endian(x: nat, n: nat) -> Seq<u8>
    decreases n,
{
    if n == 0 {
        Seq::empty()
    } else {
        big_endian(x / 256, (n - 1) as nat).push((x % 256) as u8)
    }
}

/// The number that stands for a double in a key: it grows with the double, and is
/// the same for the two zeros. A pattern that is not a number stands for no place in
/// the order.
pub open spec fn float_rank(f: u64) -> u64 {
    if f <= F64_INFINITY {
        (f + F64_SIGN) as u64
    } else if f == F64_SIGN {
        F64_SIGN
    } else {
        (u64::MAX - f) as u64
    }
}

/// The number that stands for an integer in a key.
pub open spec fn int_rank(n: i64) -> u64 {
    (n + F64_SIGN) as u64
}

/// The key bytes of a value of a declared type, where the two go together.
pub open spec fn sortable(v: Val, t: FieldType) -> Option<Seq<u8>> {
    match (v, t) {
        (Val::Str(s), FieldType::Text) => Some(encode_utf8(s).push(0)),
        (Val::Str(s), FieldType::EntityRef(_)) => Some(encode_utf8(s).push(0)),
        (Val::Str(s), FieldType::DateTime) => Some(encode_utf8(s).push(0)),
        (Val::Bool(b), FieldType::Bool) => Some(
            seq![
                if b {
                    1u8
                } else {
                    0u8
                },
            ],
        ),
        (Val::Int(n), FieldType::Int) => Some(big_endian(int_rank(n) as nat, 8)),
        (Val::Float(f), FieldType::Float) => Some(big_endian(float_rank(f) as nat, 8)),
        _ => None,
    }
}

fn be_bytes(x: u64) -> (v: Vec<u8>)
    ensures
        v@ == big_endian(x as nat, 8),
{
    be_bytes_of(x, 8)
}

fn be_bytes_of(x: u64, n: u64) -> (v: Vec<u8>)
    ensures
        v@ == big_endian(x as nat, n as nat),
    decreases n,
{
    if n == 0 {
        let v: Vec<u8> = Vec::new();
        assert(v@ =~= big_endian(x as nat, 0));
        v
    } else {
        let mut v = be_bytes_of(x / 256, n - 1);
        v.push((x % 256) as u8);
        v
    }
}

fn bytes_of(s: &str) -> (v: Vec<u8>)
    ensures
        v@ == encode_utf8(s@),
{
    let b = s.as_bytes();
    let mut v: Vec<u8> = Vec::new();
    let mut i: usize = 0;
    while i < b.len()
        invariant
            i <= b.len(),
            v@ == b@.subrange(0, i as int),
        decreases b.len() - i,
    {
        v.push(b[i]);
        proof {
            assert(b@.subrange(0, i as int + 1) =~= b@.subrange(0, i as int).push(b@[i as int]));
        }
        i += 1;
    }
    assert(v@ =~= b@);
    v
}

/// What the standard library's `Debug` writes for a text.
pub uninterp spec fn quoted_text(s: Seq<char>) -> Seq<char>;

/// Calls the `Debug` formatting of `str` in the standard library. The result is
/// the text in double quotes, with the characters escaped that `Debug` escapes.
#[verifier::external_body]
fn quoted(s: &str) -> (r: String)
    ensures
        r@ == quoted_text(s@),
{
    format!("{:?}", s)
}

/// How a field type is written in an error.
pub open spec fn type_text(t: FieldType) -> Seq<char> {
    match t {
        FieldType::Text => "Text"@,
        FieldType::DateTime => "DateTime"@,
        FieldType::Bool => "Bool"@,
        FieldType::Int => "Int"@,
        FieldType::Float => "Float"@,
        FieldType::EntityRef(s) => "EntityRef("@ + quoted_text(s@) + ")"@,
    }
}

/// What an error holds of a value: the value written out, but for a float.
pub open spec fn value_shown(v: Val) -> GotView {
    match v {
        Val::Str(s) => GotView::Text("String("@ + quoted_text(s) + ")"@),
        Val::Int(n) => GotView::Text("Int("@ + text::dec_int(n as int) + ")"@),
        Val::Float(f) => GotView::Float(f),
        Val::Bool(b) => GotView::Text(
            if b {
                "Bool(true)"@
            } else {
                "Bool(false)"@
            },
        ),
        Val::Null => GotView::Text("Null"@),
    }
}

fn show_type(t: &FieldType) -> (s: String)
    ensures
        s@ == type_text(*t),
{
    match t {
        FieldType::Text => own("Text"),
        FieldType::DateTime => own("DateTime"),
        FieldType::Bool => own("Bool"),
        FieldType::Int => own("Int"),
        FieldType::Float => own("Float"),
        FieldType::EntityRef(s) => {
            let q = quoted(s.as_str());
            cat3("EntityRef(", q.as_str(), ")")
        },
    }
}

fn show_value(v: &Value) -> (g: Got)
    ensures
        g@ == value_shown(v@),
{
    match v {
        Value::String(s) => {
            let q = quoted(s.as_str());
            Got::Text(cat3("String(", q.as_str(), ")"))
        },
        Value::Int(n) => {
            let d = decimal_i64(*n);
            Got::Text(cat3("Int(", d.as_str(), ")"))
        },
        Value::Float(f) => Got::Float(*f),
        Value::Bool(b) => if *b {
            Got::Text(own("Bool(true)"))
        } else {
            Got::Text(own("Bool(false)"))
        },
        Value::Null => Got::Text(own("Null")),
    }
}

/// The error of a value that does not go with a declared type.
pub open spec fn type_error(v: Val, t: FieldType) -> ErrorView {
    ErrorView::InvalidFieldType { field: type_text(t), expected: type_text(t), got: value_shown(v) }
}

/// The key bytes of a value.
pub fn encode_sortable(value: &Value, field_type: &FieldType) -> (r: Result<Vec<u8>, EngineError>)
    ensures
        match r {
            Ok(b) => sortable(value@, *field_type) == Some(b@),
            Err(e) => sortable(value@, *field_type) is None && e@ == type_error(value@, *field_type),
        },
{
    match (value, field_type) {
        (Value::String(s), FieldType::Text) | (Value::String(s), FieldType::EntityRef(_)) | (
            Value::String(s),
            FieldType::DateTime,
        ) => {
            let mut b = bytes_of(s.as_str());
            b.push(0);
            Ok(b)
        },
        (Value::Bool(x), FieldType::Bool) => {
            let mut b: Vec<u8> = Vec::new();
            b.push(
                if *x {
                    1
                } else {
                    0
                },
            );
            assert(sortable(value@, *field_type)->0 =~= b@);
            Ok(b)
        },
        (Value::Int(n), FieldType::Int) => {
            let k: u64 = if *n >= 0 {
                *n as u64 + F64_SIGN
            } else {
                (*n - i64::MIN) as u64
            };
            assert(k == int_rank(*n));
            Ok(be_bytes(k))
        },
        (Value::Float(f), FieldType::Float) => {
            let k: u64 = if *f <= F64_INFINITY {
                *f + F64_SIGN
            } else if *f == F64_SIGN {
                F64_SIGN
            } else {
                u64::MAX - *f
            };
            Ok(be_bytes(k))
        },
        _ => Err(
            EngineError::InvalidFieldType {
                field: show_type(field_type),
                expected: show_type(field_type),
                got: show_value(value),
            },
        ),
    }
}

/// The views of a sequence of values.
pub open spec fn vals(s: Seq<Value>) -> Seq<Val> {
    s.map_values(|v: Value| v@)
}

/// The key bytes of values that are taken in pairs with types, one after the
/// other; or the first pair that does not go together.
pub open spec fn compound(values: Seq<Val>, types: Seq<FieldType>) -> Result<Seq<u8>, ErrorView>
    decreases values.len(),
{
    if values.len() == 0 || types.len() == 0 {
        Ok(Seq::empty())
    } else {
        match sortable(values[0], types[0]) {
            None => Err(type_error(values[0], types[0])),
            Some(b) => match compound(values.drop_first(), types.drop_first()) {
                Ok(rest) => Ok(b + rest),
                Err(e) => Err(e),
            },
        }
    }
}

/// The key bytes of several values.
pub fn encode_compound_key(values: &[Value], field_types: &[FieldType]) -> (r: Result<Vec<u8>, EngineError>)
    ensures
        match r {
            Ok(b) => compound(vals(values@), field_types@) == Ok::<Seq<u8>, ErrorView>(b@),
            Err(e) => compound(vals(values@), field_types@) == Err::<Seq<u8>, ErrorView>(e@),
        },
{
    let ghost vs = vals(values@);
    let ghost ts = field_types@;
    let mut key: Vec<u8> = Vec::new();
    let mut i: usize = 0;
    proof {
        assert(vs.skip(0) =~= vs);
        assert(ts.skip(0) =~= ts);
        if compound(vs, ts) is Ok {
            assert(compound(vs, ts)->Ok_0 =~= key@ + compound(vs, ts)->Ok_0);
        }
    }
    while i < values.len() && i < field_types.len()
        invariant
            i <= values.len(),
            i <= field_types.len(),
            vs == vals(values@),
            ts == field_types@,
            match compound(vs.skip(i as int), ts.skip(i as int)) {
                Ok(rest) => compound(vs, ts) == Ok::<Seq<u8>, ErrorView>(key@ + rest),
                Err(e) => compound(vs, ts) == Err::<Seq<u8>, ErrorView>(e),
            },
        decreases values.len() - i,
    {
        let ghost before = key@;
        proof {
            assert(vs.skip(i as int)[0] == values@[i as int]@);
            assert(ts.skip(i as int)[0] == ts[i as int]);
            assert(vs.skip(i as int).drop_first() =~= vs.skip(i as int + 1));
            assert(ts.skip(i as int).drop_first() =~= ts.skip(i as int + 1));
        }
        match encode_sortable(&values[i], &field_types[i]) {
            Ok(b) => {
                extend_bytes(&mut key, b.as_slice());
                proof {
                    let rest = compound(vs.skip(i as int + 1), ts.skip(i as int + 1));
                    if rest is Ok {
                        assert(before + (b@ + rest->Ok_0) =~= key@ + rest->Ok_0);
                    }
                }
            },
            Err(e) => {
                return Err(e);
            },
        }
        i += 1;
    }
    proof {
        assert(key@ + Seq::<u8>::empty() =~= key@);
    }
    Ok(key)
}

fn extend_bytes(v: &mut Vec<u8>, b: &[u8])
    ensures
        final(v)@ == old(v)@ + b@,
{
    let ghost before = v@;
    let mut i: usize = 0;
    proof {
        assert(before + b@.subrange(0, 0) =~= before);
    }
    while i < b.len()
        invariant
            i <= b.len(),
            v@ == before + b@.subrange(0, i as int),
        decreases b.len() - i,
    {
        v.push(b[i]);
        proof {
            assert(before + b@.subrange(0, i as int + 1) =~= (before + b@.subrange(0, i as int)).push(
                b@[i as int],
            ));
        }
        i += 1;
    }
    assert(b@.subrange(0, b@.len() as int) =~= b@);
}

/// Calls `std::str::from_utf8`: the text whose UTF-8 bytes these are, or nothing
/// where they are not UTF-8.
#[verifier::external_body]
fn utf8_text(b: &[u8]) -> (r: Option<String>)
    ensures
        match r {
            Some(s) => encode_utf8(s@) == b@,
            None => !valid_utf8(b@),
        },
{
    match std::str::from_utf8(b) {
        Ok(s) => Some(String::from(s)),
        Err(_) => None,
    }
}

/// How an ordered store of key and value bytes is used as an index on declared
/// fields.
#[derive(Debug)]
pub struct FieldIndex {
    field_types: Vec<(String, FieldType)>,
}

/// The key under which an entity is stored: the key of its values, a separator
/// and its id.
pub open spec fn entry_bytes(key: Seq<u8>, id: Seq<char>) -> Seq<u8> {
    key.push(0) + encode_utf8(id)
}

/// The last key of a range: the key of its upper values and a padding that no
/// separator and id exceed.
pub open spec fn range_end(key: Seq<u8>) -> Seq<u8> {
    key + Seq::new(65, |i: int| 0xFFu8)
}

/// What an outcome of keys is where the values go with the types, and the error
/// where they do not.
pub open spec fn keyed<A>(key: Result<Seq<u8>, ErrorView>, f: spec_fn(Seq<u8>) -> A) -> Result<A, ErrorView> {
    match key {
        Ok(b) => Ok(f(b)),
        Err(e) => Err(e),
    }
}

/// The model of an outcome that is bytes or an error.
pub open spec fn bytes_outcome(r: Result<Vec<u8>, EngineError>) -> Result<Seq<u8>, ErrorView> {
    match r {
        Ok(b) => Ok(b@),
        Err(e) => Err(e@),
    }
}

/// The texts of those byte strings that are UTF-8.
pub open spec fn utf8_texts(items: Seq<Seq<u8>>) -> Seq<Seq<char>>
    decreases items.len(),
{
    if items.len() == 0 {
        Seq::empty()
    } else {
        let before = utf8_texts(items.drop_last());
        if valid_utf8(items.last()) {
            before.push(decode_utf8(items.last()))
        } else {
            before
        }
    }
}

/// The views of a sequence of ids.
pub open spec fn id_views(s: Seq<LogicalId>) -> Seq<Seq<char>> {
    s.map_values(|id: LogicalId| id@)
}

impl FieldIndex {
    /// The declared types, in order.
    pub closed spec fn types(&self) -> Seq<FieldType> {
        self.field_types@.map_values(|f: (String, FieldType)| f.1)
    }

    /// The names of the declared fields, in order.
    pub closed spec fn names(&self) -> Seq<Seq<char>> {
        self.field_types@.map_values(|f: (String, FieldType)| f.0@)
    }

    /// An index on the given fields.
    pub fn new(field_types: Vec<(String, FieldType)>) -> (r: Self)
        ensures
            r.types() == field_types@.map_values(|f: (String, FieldType)| f.1),
            r.names() == field_types@.map_values(|f: (String, FieldType)| f.0@),
    {
        FieldIndex { field_types }
    }

    /// The declared fields.
    pub fn field_types(&self) -> (r: &Vec<(String, FieldType)>)
        ensures
            self.types() == r@.map_values(|f: (String, FieldType)| f.1),
            self.names() == r@.map_values(|f: (String, FieldType)| f.0@),
    {
        &self.field_types
    }

    fn type_list(&self) -> (r: Vec<FieldType>)
        ensures
            r@ == self.types(),
    {
        let mut r: Vec<FieldType> = Vec::new();
        let mut i: usize = 0;
        while i < self.field_types.len()
            invariant
                i <= self.field_types.len(),
                r@ == self.types().subrange(0, i as int),
            decreases self.field_types.len() - i,
        {
            r.push(self.field_types[i].1.clone());
            proof {
                assert(self.types().subrange(0, i as int + 1) =~= self.types().subrange(0, i as int).push(
                    self.types()[i as int],
                ));
            }
            i += 1;
        }
        assert(r@ =~= self.types());
        r
    }

    /// The key under which an entity with the given values is stored; removing
    /// the entry uses the same key.
    pub fn entry_key(&self, entity_id: &LogicalId, values: &[Value]) -> (r: Result<Vec<u8>, EngineError>)
        ensures
            bytes_outcome(r) == keyed(
                compound(vals(values@), self.types()),
                |b: Seq<u8>| entry_bytes(b, entity_id@),
            ),
    {
        let types = self.type_list();
        match encode_compound_key(values, types.as_slice()) {
            Ok(mut key) => {
                key.push(0);
                extend_bytes(&mut key, entity_id.as_str().as_bytes());
                Ok(key)
            },
            Err(e) => Err(e),
        }
    }

    /// The bytes that are stored under the key of an entity.
    pub fn entry_value(&self, entity_id: &LogicalId) -> (r: Vec<u8>)
        ensures
            r@ == encode_utf8(entity_id@),
    {
        bytes_of(entity_id.as_str())
    }

    /// The beginning of every key whose entity has exactly the given values.
    pub fn lookup_eq(&self, values: &[Value]) -> (r: Result<Vec<u8>, EngineError>)
        ensures
            bytes_outcome(r) == (if values@.len() != self.types().len() {
                Err(
                    ErrorView::InvalidQuery(
                        "lookup_eq requires "@ + text::dec(self.types().len()) + " values, got "@ + text::dec(
                            values@.len(),
                        ),
                    ),
                )
            } else {
                compound(vals(values@), self.types())
            }),
    {
        if values.len() != self.field_types.len() {
            let n = decimal_usize(self.field_types.len());
            let m = decimal_usize(values.len());
            return Err(
                EngineError::InvalidQuery(
                    cat4("lookup_eq requires ", n.as_str(), " values, got ", m.as_str()),
                ),
            );
        }
        let types = self.type_list();
        encode_compound_key(values, types.as_slice())
    }

    /// The beginning of every key whose entity has the given values in its first
    /// fields.
    pub fn lookup_prefix(&self, values: &[Value]) -> (r: Result<Vec<u8>, EngineError>)
        ensures
            bytes_outcome(r) == compound(vals(values@), self.types()),
    {
        let types = self.type_list();
        encode_compound_key(values, types.as_slice())
    }

    /// The first and the last key of a range, both inclusive.
    pub fn lookup_range(&self, from: &[Value], to: &[Value]) -> (r: Result<(Vec<u8>, Vec<u8>), EngineError>)
        ensures
            match r {
                Ok((a, b)) => compound(vals(from@), self.types()) == Ok::<Seq<u8>, ErrorView>(a@) && keyed(
                    compound(vals(to@), self.types()),
                    |k: Seq<u8>| range_end(k),
                ) == Ok::<Seq<u8>, ErrorView>(b@),
                Err(e) => {
                    ||| compound(vals(from@), self.types()) == Err::<Seq<u8>, ErrorView>(e@)
                    ||| compound(vals(from@), self.types()) is Ok && compound(vals(to@), self.types())
                        == Err::<Seq<u8>, ErrorView>(e@)
                },
            },
    {
        let types = self.type_list();
        let from_key = match encode_compound_key(from, types.as_slice()) {
            Ok(k) => k,
            Err(e) => return Err(e),
        };
        let mut to_key = match encode_compound_key(to, types.as_slice()) {
            Ok(k) => k,
            Err(e) => return Err(e),
        };
        let ghost k = to_key@;
        let mut i: usize = 0;
        while i < 65
            invariant
                i <= 65,
                to_key@ == k + Seq::new(i as nat, |j: int| 0xFFu8),
            decreases 65 - i,
        {
            to_key.push(0xFF);
            proof {
                assert(k + Seq::new(i as nat + 1, |j: int| 0xFFu8) =~= (k + Seq::new(
                    i as nat,
                    |j: int| 0xFFu8,
                )).push(0xFF));
            }
            i += 1;
        }
        Ok((from_key, to_key))
    }

    /// The ids that stored values hold, those that are not text left out.
    pub fn stored_ids(&self, stored: &Vec<Vec<u8>>) -> (ids: Vec<LogicalId>)
        ensures
            id_views(ids@) == utf8_texts(stored@.map_values(|b: Vec<u8>| b@)),
    {
        let ghost all = stored@.map_values(|b: Vec<u8>| b@);
        let mut ids: Vec<LogicalId> = Vec::new();
        let mut i: usize = 0;
        proof {
            assert(id_views(ids@) =~= utf8_texts(all.subrange(0, 0)));
        }
        while i < stored.len()
            invariant
                i <= stored.len(),
                all == stored@.map_values(|b: Vec<u8>| b@),
                id_views(ids@) == utf8_texts(all.subrange(0, i as int)),
            decreases stored.len() - i,
        {
            let ghost before = id_views(ids@);
            proof {
                let next = all.subrange(0, i as int + 1);
                assert(next.drop_last() =~= all.subrange(0, i as int));
                assert(next.last() == stored@[i as int]@);
            }
            match utf8_text(stored[i].as_slice()) {
                Some(s) => {
                    ids.push(LogicalId::from_string(s.as_str()));
                    proof {
                        encode_utf8_valid_utf8(s@);
                        encode_utf8_decode_utf8(s@);
                        assert(id_views(ids@) =~= before.push(s@));
                    }
                },
                None => {},
            }
            i += 1;
        }
        assert(all.subrange(0, all.len() as int) =~= all);
        ids
    }
}

} // verus!
