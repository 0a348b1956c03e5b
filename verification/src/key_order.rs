//! What holds of sortable keys: their order is that of the values, and a key
//! tells its values apart from all others.

use vstd::prelude::*;
use vstd::utf8::*;

use crate::field_index;
use crate::float_bits;
use crate::text;
use crate::types::FieldType;
use crate::value;
use crate::value::{Rank, Val};

verus! {

/// Whether `a` is smaller than `b` at the first byte in which they differ.
/// Whatever follows either of them, they stay in that order.
pub open spec fn below(a: Seq<u8>, b: Seq<u8>) -> bool {
    exists|k: int| #[trigger] below_at(a, b, k)
}

/// Whether `a` is smaller than `b` at `k`, where they first differ.
pub open spec fn below_at(a: Seq<u8>, b: Seq<u8>, k: int) -> bool {
    &&& 0 <= k < a.len()
    &&& k < b.len()
    &&& a[k] < b[k]
    &&& forall|i: int| 0 <= i < k ==> a[i] == b[i]
}

/// Strings of which one is below the other are in byte order, whatever follows them.
pub proof fn lemma_below_extends(a: Seq<u8>, b: Seq<u8>, s: Seq<u8>, t: Seq<u8>)
    requires
        below(a, b),
    ensures
        below(a + s, b + t),
        text::bytes_lt(a + s, b + t),
        a + s != b + t,
{
    let k = choose|k: int| below_at(a, b, k);
    assert(below_at(a + s, b + t, k));
    text::lemma_bytes_lt_at(a + s, b + t, k);
}

/// A shared beginning does not change which string is below.
pub proof fn lemma_below_prefix(p: Seq<u8>, a: Seq<u8>, b: Seq<u8>)
    requires
        below(a, b),
    ensures
        below(p + a, p + b),
{
    let k = choose|k: int| below_at(a, b, k);
    assert(below_at(p + a, p + b, p.len() + k));
}

proof fn lemma_below_of_lt(a: Seq<u8>, b: Seq<u8>)
    requires
        a.len() == b.len(),
        text::bytes_lt(a, b),
    ensures
        below(a, b),
    decreases a.len(),
{
    if a[0] != b[0] {
        assert(below_at(a, b, 0));
    } else {
        lemma_below_of_lt(a.drop_first(), b.drop_first());
        lemma_below_prefix(seq![a[0]], a.drop_first(), b.drop_first());
        assert(a =~= seq![a[0]] + a.drop_first());
        assert(b =~= seq![b[0]] + b.drop_first());
    }
}

spec fn base(n: nat) -> nat
    decreases n,
{
    if n == 0 {
        1
    } else {
        256 * base((n - 1) as nat)
    }
}

proof fn lemma_big_endian_len(x: nat, n: nat)
    ensures
        field_index::big_endian(x, n).len() == n,
    decreases n,
{
    if n > 0 {
        lemma_big_endian_len(x / 256, (n - 1) as nat);
    }
}

proof fn lemma_big_endian_below(x: nat, y: nat, n: nat)
    requires
        x < y < base(n),
    ensures
        below(field_index::big_endian(x, n), field_index::big_endian(y, n)),
    decreases n,
{
    let a = field_index::big_endian(x / 256, (n - 1) as nat);
    let b = field_index::big_endian(y / 256, (n - 1) as nat);
    let u = (x % 256) as u8;
    let v = (y % 256) as u8;
    lemma_big_endian_len(x / 256, (n - 1) as nat);
    lemma_big_endian_len(y / 256, (n - 1) as nat);
    if x / 256 == y / 256 {
        assert(u < v);
        assert(below_at(a.push(u), b.push(v), n - 1));
    } else {
        assert(x / 256 < y / 256);
        lemma_big_endian_below(x / 256, y / 256, (n - 1) as nat);
        lemma_below_extends(a, b, seq![u], seq![v]);
        assert(a.push(u) =~= a + seq![u]);
        assert(b.push(v) =~= b + seq![v]);
    }
}

proof fn lemma_base_8()
    ensures
        base(8) == 0x1_0000_0000_0000_0000,
{
    reveal_with_fuel(base, 9);
}

/// Whether a value has a place of its own among keys: a text holds no NUL
/// character, and a float is a number.
pub open spec fn plain(v: Val) -> bool {
    match v {
        Val::Str(s) => !s.contains('\0'),
        Val::Float(f) => !float_bits::f64_is_nan(f),
        _ => true,
    }
}

/// Whether values are equal one by one.
pub open spec fn alike(vs: Seq<Val>, ws: Seq<Val>) -> bool {
    vs.len() == ws.len() && forall|i: int| 0 <= i < vs.len() ==> value::val_eq(#[trigger] vs[i], ws[i])
}

proof fn lemma_scalar_bytes_nonzero(c: u32)
    requires
        is_scalar(c),
        c != 0,
    ensures
        forall|i: int| 0 <= i < encode_scalar(c).len() ==> #[trigger] encode_scalar(c)[i] != 0,
{
    assert(c != 0 && c <= 0x7F ==> (c & 0x7F) as u8 != 0) by (bit_vector);
    assert(0xC0u8 | ((c >> 6) & 0x1F) as u8 != 0) by (bit_vector);
    assert(0xE0u8 | ((c >> 12) & 0x0F) as u8 != 0) by (bit_vector);
    assert(0xF0u8 | ((c >> 18) & 0x7) as u8 != 0) by (bit_vector);
    assert(0x80u8 | (c & 0x3F) as u8 != 0) by (bit_vector);
    assert(0x80u8 | ((c >> 6) & 0x3F) as u8 != 0) by (bit_vector);
    assert(0x80u8 | ((c >> 12) & 0x3F) as u8 != 0) by (bit_vector);
}

proof fn lemma_utf8_nonzero(s: Seq<char>)
    requires
        !s.contains('\0'),
    ensures
        forall|i: int| 0 <= i < encode_utf8(s).len() ==> #[trigger] encode_utf8(s)[i] != 0,
    decreases s.len(),
{
    if s.len() > 0 {
        let rest = s.drop_first();
        assert(!rest.contains('\0')) by {
            if rest.contains('\0') {
                let i = choose|i: int| 0 <= i < rest.len() && rest[i] == '\0';
                assert(s[i + 1] == '\0');
            }
        }
        lemma_utf8_nonzero(rest);
        char_is_scalar(s[0]);
        assert(s[0] != '\0') by {
            if s[0] == '\0' {
                assert(s.contains(s[0]));
            }
        }
        assert(s[0] as u32 != 0) by {
            if s[0] as u32 == 0 {
                char_u32_cast(s[0], 0);
                char_u32_cast('\0', 0);
            }
        }
        lemma_scalar_bytes_nonzero(s[0] as u32);
        let a = encode_scalar(s[0] as u32);
        let b = encode_utf8(rest);
        assert forall|i: int| 0 <= i < encode_utf8(s).len() implies #[trigger] encode_utf8(s)[i] != 0 by {
            if i < a.len() {
                assert(encode_utf8(s)[i] == a[i]);
            } else {
                assert(encode_utf8(s)[i] == b[i - a.len()]);
            }
        }
    }
}

proof fn lemma_terminated_below(a: Seq<u8>, b: Seq<u8>)
    requires
        text::bytes_lt(a, b),
        forall|i: int| 0 <= i < b.len() ==> #[trigger] b[i] != 0,
    ensures
        below(a.push(0), b.push(0)),
    decreases a.len(),
{
    if a.len() == 0 {
        assert(below_at(a.push(0), b.push(0), 0));
    } else if a[0] != b[0] {
        assert(below_at(a.push(0), b.push(0), 0));
    } else {
        let a1 = a.drop_first();
        let b1 = b.drop_first();
        assert forall|i: int| 0 <= i < b1.len() implies #[trigger] b1[i] != 0 by {
            assert(b[i + 1] != 0);
        }
        lemma_terminated_below(a1, b1);
        lemma_below_prefix(seq![a[0]], a1.push(0), b1.push(0));
        assert(a.push(0) =~= seq![a[0]] + a1.push(0));
        assert(b.push(0) =~= seq![b[0]] + b1.push(0));
    }
}

/// Keys preserve order: of two values of one declared type, the key of the smaller
/// comes before the key of the other. Where the other is no text with a NUL character,
/// the two keys differ within both of them.
pub proof fn lemma_key_order(v: Val, w: Val, t: FieldType)
    requires
        field_index::sortable(v, t) is Some,
        field_index::sortable(w, t) is Some,
        value::val_rank(Some(v), Some(w)) == Rank::Less,
    ensures
        text::bytes_lt(field_index::sortable(v, t)->0, field_index::sortable(w, t)->0),
        plain(w) ==> below(field_index::sortable(v, t)->0, field_index::sortable(w, t)->0),
{
    let a = field_index::sortable(v, t)->0;
    let b = field_index::sortable(w, t)->0;
    lemma_base_8();
    match (v, w) {
        (Val::Str(x), Val::Str(y)) => {
            lemma_terminated_lt(encode_utf8(x), encode_utf8(y));
            if plain(w) {
                lemma_utf8_nonzero(y);
                lemma_terminated_below(encode_utf8(x), encode_utf8(y));
            }
        },
        (Val::Bool(x), Val::Bool(y)) => {
            assert(below_at(a, b, 0));
            lemma_lt_of_below(a, b);
        },
        (Val::Int(x), Val::Int(y)) => {
            lemma_big_endian_below(field_index::int_rank(x) as nat, field_index::int_rank(y) as nat, 8);
            lemma_lt_of_below(a, b);
        },
        (Val::Float(x), Val::Float(y)) => {
            lemma_big_endian_below(field_index::float_rank(x) as nat, field_index::float_rank(y) as nat, 8);
            lemma_lt_of_below(a, b);
        },
        _ => {},
    }
}

proof fn lemma_lt_of_below(a: Seq<u8>, b: Seq<u8>)
    requires
        below(a, b),
    ensures
        text::bytes_lt(a, b),
{
    lemma_below_extends(a, b, Seq::empty(), Seq::empty());
    assert(a + Seq::<u8>::empty() =~= a);
    assert(b + Seq::<u8>::empty() =~= b);
}

/// Keys of doubles preserve order: of two numbers, whatever their signs, the smaller has
/// the key that comes first.
pub proof fn lemma_float_key_order(x: u64, y: u64)
    requires
        !float_bits::f64_is_nan(x),
        !float_bits::f64_is_nan(y),
        float_bits::f64_lt(x, y),
    ensures
        field_index::sortable(Val::Float(x), FieldType::Float) matches Some(a) && field_index::sortable(
            Val::Float(y),
            FieldType::Float,
        ) matches Some(b) && text::bytes_lt(a, b),
{
    lemma_key_order(Val::Float(x), Val::Float(y), FieldType::Float);
}

proof fn lemma_terminated_lt(a: Seq<u8>, b: Seq<u8>)
    requires
        text::bytes_lt(a, b),
    ensures
        text::bytes_lt(a.push(0), b.push(0)),
    decreases a.len(),
{
    if a.len() == 0 {
        assert(a.push(0).drop_first() =~= Seq::<u8>::empty());
        assert(b.push(0).drop_first() =~= b.drop_first().push(0));
        assert(text::bytes_lt(a.push(0).drop_first(), b.push(0).drop_first()));
    } else if a[0] == b[0] {
        lemma_terminated_lt(a.drop_first(), b.drop_first());
        assert(a.push(0).drop_first() =~= a.drop_first().push(0));
        assert(b.push(0).drop_first() =~= b.drop_first().push(0));
    }
}

/// Of two values of one declared type, one is smaller or they are equal.
pub proof fn lemma_plain_values_total(v: Val, w: Val, t: FieldType)
    requires
        field_index::sortable(v, t) is Some,
        field_index::sortable(w, t) is Some,
        plain(v),
        plain(w),
    ensures
        value::val_rank(Some(v), Some(w)) == Rank::Less || value::val_rank(Some(w), Some(v)) == Rank::Less
            || value::val_eq(v, w),
{
    match (v, w) {
        (Val::Str(x), Val::Str(y)) => {
            text::lemma_bytes_lt_total(encode_utf8(x), encode_utf8(y));
            if encode_utf8(x) == encode_utf8(y) {
                text::lemma_encode_utf8_injective(x, y);
            }
        },
        _ => {},
    }
}

/// A key tells its value apart: two values of one declared type have the same key if
/// and only if they are equal. A text with a NUL character and what is not a number are
/// left out.
pub proof fn lemma_key_injective(v: Val, w: Val, t: FieldType)
    requires
        field_index::sortable(v, t) is Some,
        field_index::sortable(w, t) is Some,
        plain(v),
        plain(w),
    ensures
        field_index::sortable(v, t) == field_index::sortable(w, t) <==> value::val_eq(v, w),
{
    lemma_plain_values_total(v, w, t);
    text::lemma_bytes_lt_irreflexive(field_index::sortable(v, t)->0);
    text::lemma_bytes_lt_irreflexive(field_index::sortable(w, t)->0);
    if value::val_rank(Some(v), Some(w)) == Rank::Less {
        lemma_key_order(v, w, t);
        lemma_rank_asymmetric(v, w);
    } else if value::val_rank(Some(w), Some(v)) == Rank::Less {
        lemma_key_order(w, v, t);
        lemma_rank_asymmetric(w, v);
    }
}

/// The key of several values is the key of the first of them followed by the
/// key of the others.
pub proof fn lemma_compound_split(vs: Seq<Val>, ts: Seq<FieldType>, n: int)
    requires
        0 <= n <= vs.len(),
        vs.len() <= ts.len(),
        field_index::compound(vs, ts) is Ok,
    ensures
        field_index::compound(vs.take(n), ts) is Ok,
        field_index::compound(vs.skip(n), ts.skip(n)) is Ok,
        field_index::compound(vs, ts)->Ok_0 == field_index::compound(vs.take(n), ts)->Ok_0
            + field_index::compound(vs.skip(n), ts.skip(n))->Ok_0,
    decreases n,
{
    if n == 0 {
        assert(vs.skip(0) =~= vs);
        assert(ts.skip(0) =~= ts);
        assert(field_index::compound(vs, ts)->Ok_0 =~= Seq::<u8>::empty() + field_index::compound(
            vs,
            ts,
        )->Ok_0);
    } else {
        let v1 = vs.drop_first();
        let t1 = ts.drop_first();
        lemma_compound_split(v1, t1, n - 1);
        assert(v1.skip(n - 1) =~= vs.skip(n));
        assert(t1.skip(n - 1) =~= ts.skip(n));
        assert(vs.take(n).drop_first() =~= v1.take(n - 1));
        assert(vs.take(n)[0] == vs[0]);
        let b = field_index::sortable(vs[0], ts[0])->0;
        assert(b + (field_index::compound(v1.take(n - 1), t1)->Ok_0 + field_index::compound(
            v1.skip(n - 1),
            t1.skip(n - 1),
        )->Ok_0) =~= field_index::compound(vs.take(n), ts)->Ok_0 + field_index::compound(
            vs.skip(n),
            ts.skip(n),
        )->Ok_0);
    }
}

/// Compound keys are ordered by the first value in which they differ.
pub proof fn lemma_compound_order(vs: Seq<Val>, ws: Seq<Val>, ts: Seq<FieldType>, k: int)
    requires
        0 <= k < vs.len(),
        k < ws.len(),
        k < ts.len(),
        field_index::compound(vs, ts) is Ok,
        field_index::compound(ws, ts) is Ok,
        forall|i: int| 0 <= i < k ==> plain(vs[i]) && plain(ws[i]) && value::val_eq(#[trigger] vs[i], ws[i]),
        plain(ws[k]),
        value::val_rank(Some(vs[k]), Some(ws[k])) == Rank::Less,
    ensures
        below(field_index::compound(vs, ts)->Ok_0, field_index::compound(ws, ts)->Ok_0),
        text::bytes_lt(field_index::compound(vs, ts)->Ok_0, field_index::compound(ws, ts)->Ok_0),
    decreases k,
{
    let v1 = vs.drop_first();
    let w1 = ws.drop_first();
    let t1 = ts.drop_first();
    let a = field_index::sortable(vs[0], ts[0])->0;
    let b = field_index::sortable(ws[0], ts[0])->0;
    let x = field_index::compound(v1, t1)->Ok_0;
    let y = field_index::compound(w1, t1)->Ok_0;
    if k == 0 {
        lemma_key_order(vs[0], ws[0], ts[0]);
        lemma_below_extends(a, b, x, y);
    } else {
        assert forall|i: int| 0 <= i < k - 1 implies plain(v1[i]) && plain(w1[i]) && value::val_eq(
            #[trigger] v1[i],
            w1[i],
        ) by {
            assert(value::val_eq(vs[i + 1], ws[i + 1]));
        }
        assert(value::val_eq(vs[0], ws[0]));
        lemma_key_injective(vs[0], ws[0], ts[0]);
        lemma_compound_order(v1, w1, t1, k - 1);
        lemma_below_prefix(a, x, y);
    }
    lemma_below_extends(a + x, b + y, Seq::empty(), Seq::empty());
    assert((a + x) + Seq::<u8>::empty() =~= a + x);
    assert((b + y) + Seq::<u8>::empty() =~= b + y);
}

/// Whether each value goes with its type and is plain.
pub open spec fn indexable(vs: Seq<Val>, ts: Seq<FieldType>) -> bool {
    &&& vs.len() == ts.len()
    &&& forall|i: int| 0 <= i < vs.len() ==> field_index::sortable(#[trigger] vs[i], ts[i]) is Some && plain(vs[i])
}

proof fn lemma_indexable_ok(vs: Seq<Val>, ts: Seq<FieldType>)
    requires
        indexable(vs, ts),
    ensures
        field_index::compound(vs, ts) is Ok,
    decreases vs.len(),
{
    if vs.len() > 0 {
        let v1 = vs.drop_first();
        let t1 = ts.drop_first();
        assert forall|i: int| 0 <= i < v1.len() implies field_index::sortable(#[trigger] v1[i], t1[i]) is Some
            && plain(v1[i]) by {
            assert(vs[i + 1] == v1[i]);
        }
        assert(field_index::sortable(vs[0], ts[0]) is Some);
        lemma_indexable_ok(v1, t1);
    }
}

/// Whether `p` is the beginning of `s`.
pub open spec fn begins(s: Seq<u8>, p: Seq<u8>) -> bool {
    p.len() <= s.len() && s.subrange(0, p.len() as int) == p
}

proof fn lemma_begins_extend(s: Seq<u8>, t: Seq<u8>, a: Seq<u8>, b: Seq<u8>)
    requires
        begins(s + a, t + b),
    ensures
        !below(s, t),
        !below(t, s),
{
    let x = s + a;
    let y = t + b;
    assert forall|i: int| 0 <= i < y.len() implies x[i] == y[i] by {
        assert(x.subrange(0, y.len() as int)[i] == y[i]);
    }
    if below(s, t) {
        let k = choose|k: int| below_at(s, t, k);
        assert(x[k] == s[k]);
        assert(y[k] == t[k]);
    }
    if below(t, s) {
        let k = choose|k: int| below_at(t, s, k);
        assert(x[k] == s[k]);
        assert(y[k] == t[k]);
    }
}

/// Equal values have one key.
pub proof fn lemma_alike_same_key(vs: Seq<Val>, ws: Seq<Val>, ts: Seq<FieldType>)
    requires
        indexable(vs, ts),
        indexable(ws, ts),
        alike(vs, ws),
    ensures
        field_index::compound(vs, ts) == field_index::compound(ws, ts),
    decreases vs.len(),
{
    if vs.len() > 0 {
        let v1 = vs.drop_first();
        let w1 = ws.drop_first();
        let t1 = ts.drop_first();
        lemma_indexable_rest(vs, ts);
        lemma_indexable_rest(ws, ts);
        assert(value::val_eq(vs[0], ws[0]));
        assert forall|i: int| 0 <= i < v1.len() implies value::val_eq(#[trigger] v1[i], w1[i]) by {
            assert(value::val_eq(vs[i + 1], ws[i + 1]));
        }
        lemma_key_injective(vs[0], ws[0], ts[0]);
        lemma_alike_same_key(v1, w1, t1);
    }
}

proof fn lemma_indexable_rest(vs: Seq<Val>, ts: Seq<FieldType>)
    requires
        indexable(vs, ts),
        vs.len() > 0,
    ensures
        indexable(vs.drop_first(), ts.drop_first()),
        field_index::sortable(vs[0], ts[0]) is Some,
        plain(vs[0]),
{
    let v1 = vs.drop_first();
    let t1 = ts.drop_first();
    assert forall|i: int| 0 <= i < v1.len() implies field_index::sortable(#[trigger] v1[i], t1[i]) is Some
        && plain(v1[i]) by {
        assert(vs[i + 1] == v1[i]);
    }
    assert(field_index::sortable(vs[0], ts[0]) is Some);
}

proof fn lemma_prefix_same(vs: Seq<Val>, ws: Seq<Val>, ts: Seq<FieldType>, tail: Seq<u8>)
    requires
        indexable(vs, ts),
        indexable(ws, ts),
        begins(field_index::compound(vs, ts)->Ok_0 + tail, field_index::compound(ws, ts)->Ok_0),
    ensures
        alike(vs, ws),
    decreases vs.len(),
{
    if vs.len() > 0 {
        let v1 = vs.drop_first();
        let w1 = ws.drop_first();
        let t1 = ts.drop_first();
        lemma_indexable_rest(vs, ts);
        lemma_indexable_rest(ws, ts);
        lemma_indexable_ok(v1, t1);
        lemma_indexable_ok(w1, t1);
        let v = vs[0];
        let w = ws[0];
        let t = ts[0];
        let a = field_index::sortable(v, t)->0;
        let b = field_index::sortable(w, t)->0;
        let x = field_index::compound(v1, t1)->Ok_0;
        let y = field_index::compound(w1, t1)->Ok_0;
        assert((a + x) + tail =~= a + (x + tail));
        lemma_begins_extend(a, b, x + tail, y);
        lemma_plain_values_total(v, w, t);
        if value::val_rank(Some(v), Some(w)) == Rank::Less {
            lemma_key_order(v, w, t);
        } else if value::val_rank(Some(w), Some(v)) == Rank::Less {
            lemma_key_order(w, v, t);
        }
        lemma_key_injective(v, w, t);
        assert(begins(x + tail, y)) by {
            let l = a + (x + tail);
            let r = b + y;
            assert(l.subrange(0, r.len() as int) == r);
            assert forall|i: int| 0 <= i < y.len() implies (x + tail)[i] == y[i] by {
                assert(l[a.len() + i] == (x + tail)[i]);
                assert(r[a.len() + i] == y[i]);
                assert(l.subrange(0, r.len() as int)[a.len() + i] == r[a.len() + i]);
            }
            assert((x + tail).subrange(0, y.len() as int) =~= y);
        }
        lemma_prefix_same(v1, w1, t1, tail);
        assert forall|i: int| 0 <= i < vs.len() implies value::val_eq(#[trigger] vs[i], ws[i]) by {
            if i > 0 {
                assert(value::val_eq(v1[i - 1], w1[i - 1]));
            }
        }
    }
}

/// An equality lookup finds exactly the entries that were stored with those
/// values: the key of an entry begins with the bytes looked up if and only if
/// its values equal the ones asked for.
pub proof fn lemma_lookup_eq_exact(vs: Seq<Val>, ws: Seq<Val>, ts: Seq<FieldType>, id: Seq<char>)
    requires
        indexable(vs, ts),
        indexable(ws, ts),
    ensures
        field_index::compound(vs, ts) is Ok,
        field_index::compound(ws, ts) is Ok,
        begins(
            field_index::entry_bytes(field_index::compound(vs, ts)->Ok_0, id),
            field_index::compound(ws, ts)->Ok_0,
        ) <==> alike(vs, ws),
{
    lemma_indexable_ok(vs, ts);
    lemma_indexable_ok(ws, ts);
    let a = field_index::compound(vs, ts)->Ok_0;
    let b = field_index::compound(ws, ts)->Ok_0;
    let tail = seq![0u8] + encode_utf8(id);
    assert(field_index::entry_bytes(a, id) =~= a + tail);
    if begins(a + tail, b) {
        lemma_prefix_same(vs, ws, ts, tail);
    }
    if alike(vs, ws) {
        lemma_alike_same_key(vs, ws, ts);
        assert((a + tail).subrange(0, b.len() as int) =~= b);
    }
}

/// `v <= w` among values of one declared type.
pub open spec fn at_most(v: Val, w: Val) -> bool {
    value::val_rank(Some(v), Some(w)) == Rank::Less || value::val_eq(v, w)
}

/// A range lookup on one field finds exactly the entries whose value lies
/// between the two bounds, both inclusive.
pub proof fn lemma_lookup_range_exact(v: Val, from: Val, to: Val, t: FieldType, id: Seq<char>)
    requires
        field_index::sortable(v, t) is Some,
        field_index::sortable(from, t) is Some,
        field_index::sortable(to, t) is Some,
        plain(v),
        plain(from),
        plain(to),
    ensures
        ({
            let key = field_index::entry_bytes(field_index::sortable(v, t)->0, id);
            let first = field_index::sortable(from, t)->0;
            let last = field_index::range_end(field_index::sortable(to, t)->0);
            (!text::bytes_lt(key, first) && !text::bytes_lt(last, key)) <==> at_most(from, v) && at_most(v, to)
        }),
{
    let a = field_index::sortable(v, t)->0;
    let first = field_index::sortable(from, t)->0;
    let z = field_index::sortable(to, t)->0;
    let tail = seq![0u8] + encode_utf8(id);
    let pad = Seq::new(65, |i: int| 0xFFu8);
    let key = a + tail;
    let last = z + pad;
    assert(field_index::entry_bytes(a, id) =~= key);
    assert(first + Seq::<u8>::empty() =~= first);
    lemma_plain_values_total(v, from, t);
    lemma_plain_values_total(v, to, t);
    text::lemma_bytes_lt_irreflexive(first);
    text::lemma_bytes_lt_irreflexive(last);
    // The lower bound.
    if value::val_rank(Some(v), Some(from)) == Rank::Less {
        lemma_key_order(v, from, t);
        lemma_below_extends(a, first, tail, Seq::empty());
        lemma_rank_asymmetric(v, from);
    } else if value::val_rank(Some(from), Some(v)) == Rank::Less {
        lemma_key_order(from, v, t);
        lemma_below_extends(first, a, Seq::empty(), tail);
        lemma_lt_asymmetric(first, key);
    } else {
        lemma_key_injective(v, from, t);
        assert(value::val_eq(from, v));
        text::lemma_bytes_lt_prefix(a, tail, Seq::empty());
    }
    // The upper bound.
    if value::val_rank(Some(v), Some(to)) == Rank::Less {
        lemma_key_order(v, to, t);
        lemma_below_extends(a, z, tail, pad);
        lemma_lt_asymmetric(key, last);
    } else if value::val_rank(Some(to), Some(v)) == Rank::Less {
        lemma_key_order(to, v, t);
        lemma_below_extends(z, a, pad, tail);
        lemma_rank_asymmetric(to, v);
    } else {
        lemma_key_injective(v, to, t);
        text::lemma_bytes_lt_prefix(a, pad, tail);
        text::lemma_bytes_lt_at(pad, tail, 0);
    }
}

proof fn lemma_lt_asymmetric(a: Seq<u8>, b: Seq<u8>)
    requires
        text::bytes_lt(a, b),
    ensures
        !text::bytes_lt(b, a),
{
    if text::bytes_lt(b, a) {
        text::lemma_bytes_lt_transitive(a, b, a);
        text::lemma_bytes_lt_irreflexive(a);
    }
}

proof fn lemma_rank_asymmetric(v: Val, w: Val)
    requires
        value::val_rank(Some(v), Some(w)) == Rank::Less,
    ensures
        value::val_rank(Some(w), Some(v)) != Rank::Less,
        !value::val_eq(v, w),
        !value::val_eq(w, v),
{
    match (v, w) {
        (Val::Str(x), Val::Str(y)) => {
            lemma_lt_asymmetric(encode_utf8(x), encode_utf8(y));
            text::lemma_bytes_lt_irreflexive(encode_utf8(x));
        },
        _ => {},
    }
}

} // verus!
