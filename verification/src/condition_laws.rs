//! What conditions and patterns mean.

use vstd::prelude::*;
use vstd::string::*;

use crate::filter;
use crate::filter::WhereClause;
use crate::float_bits;
use crate::text;
use crate::value;
use crate::value::{Literal, Rank, Val};

verus! {

/// A disjunction selects an entity exactly where its left or its right condition does, a
/// conjunction exactly where both do, and a negation exactly where its condition does not.
/// So the negation of a disjunction selects exactly where both negations do, and that of a
/// conjunction exactly where one of them does.
pub proof fn lemma_connectives(id: Seq<char>, m: Map<Seq<char>, Val>, a: WhereClause, b: WhereClause)
    ensures
        ({
            let either = WhereClause::Or(Box::new(a), Box::new(b));
            let both = WhereClause::And(Box::new(a), Box::new(b));
            let not_a = WhereClause::Not(Box::new(a));
            let not_b = WhereClause::Not(Box::new(b));
            let neither = WhereClause::And(Box::new(not_a), Box::new(not_b));
            let not_both = WhereClause::Or(Box::new(not_a), Box::new(not_b));
            &&& filter::entity_sat(id, m, either) <==> filter::entity_sat(id, m, a) || filter::entity_sat(id, m, b)
            &&& filter::entity_sat(id, m, both) <==> filter::entity_sat(id, m, a) && filter::entity_sat(id, m, b)
            &&& filter::entity_sat(id, m, not_a) <==> !filter::entity_sat(id, m, a)
            &&& filter::entity_sat(id, m, WhereClause::Not(Box::new(either))) <==> filter::entity_sat(id, m, neither)
            &&& filter::entity_sat(id, m, WhereClause::Not(Box::new(both))) <==> filter::entity_sat(id, m, not_both)
            &&& filter::row_sat(m, either) <==> filter::row_sat(m, a) || filter::row_sat(m, b)
            &&& filter::row_sat(m, both) <==> filter::row_sat(m, a) && filter::row_sat(m, b)
            &&& filter::row_sat(m, not_a) <==> !filter::row_sat(m, a)
            &&& filter::row_sat(m, WhereClause::Not(Box::new(either))) <==> filter::row_sat(m, neither)
            &&& filter::row_sat(m, WhereClause::Not(Box::new(both))) <==> filter::row_sat(m, not_both)
        }),
{
    reveal_with_fuel(filter::entity_sat, 4);
    reveal_with_fuel(filter::row_sat, 4);
}

/// Whether two values are the same: of one kind, and equal as such. Floats are compared as
/// numbers, and what is not a number is the same as nothing.
pub open spec fn same(v: Val, w: Val) -> bool {
    ||| v == w && !(v is Float)
    ||| v is Float && w is Float && !float_bits::f64_is_nan(v->Float_0) && !float_bits::f64_is_nan(w->Float_0)
        && float_bits::f64_key(v->Float_0) == float_bits::f64_key(w->Float_0)
}

/// Whether a value is above another: numbers by value, an integer beside a float as a
/// float, texts by their bytes, and nothing else.
pub open spec fn above(v: Val, w: Val) -> bool {
    match v {
        Val::Int(x) => match w {
            Val::Int(y) => y < x,
            Val::Float(y) => !float_bits::f64_is_nan(y) && float_bits::f64_key(y) < float_bits::f64_key(
                float_bits::int_to_f64(x),
            ) && !float_bits::f64_is_nan(float_bits::int_to_f64(x)),
            _ => false,
        },
        Val::Float(x) => match w {
            Val::Float(y) => !float_bits::f64_is_nan(x) && !float_bits::f64_is_nan(y) && float_bits::f64_key(y)
                < float_bits::f64_key(x),
            Val::Int(y) => !float_bits::f64_is_nan(x) && float_bits::f64_key(float_bits::int_to_f64(y))
                < float_bits::f64_key(x) && !float_bits::f64_is_nan(float_bits::int_to_f64(y)),
            _ => false,
        },
        Val::Str(s) => w is Str && text::text_lt(w->Str_0, s),
        _ => false,
    }
}

/// The comparisons of a stored field, other than the id, with a literal: it is equal, or
/// not, where the two are the same; greater or less where one is above the other; at least
/// or at most where either of those holds. An entity without the field is selected by not
/// equal alone.
pub proof fn lemma_comparisons(id: Seq<char>, m: Map<Seq<char>, Val>, f: String, lit: Literal)
    ensures
        f@ != "id"@ && m.contains_key(f@) ==> {
            &&& filter::entity_sat(id, m, WhereClause::Eq(f, lit)) <==> same(m[f@], lit@)
            &&& filter::entity_sat(id, m, WhereClause::Neq(f, lit)) <==> !same(m[f@], lit@)
        },
        m.contains_key(f@) ==> {
            &&& filter::entity_sat(id, m, WhereClause::Gt(f, lit)) <==> above(m[f@], lit@)
            &&& filter::entity_sat(id, m, WhereClause::Lt(f, lit)) <==> above(lit@, m[f@])
            &&& filter::entity_sat(id, m, WhereClause::Gte(f, lit)) <==> above(m[f@], lit@) || same(m[f@], lit@)
            &&& filter::entity_sat(id, m, WhereClause::Lte(f, lit)) <==> above(lit@, m[f@]) || same(m[f@], lit@)
            &&& filter::row_sat(m, WhereClause::Eq(f, lit)) <==> same(m[f@], lit@)
            &&& filter::row_sat(m, WhereClause::Neq(f, lit)) <==> !same(m[f@], lit@)
            &&& filter::row_sat(m, WhereClause::Gt(f, lit)) <==> above(m[f@], lit@)
            &&& filter::row_sat(m, WhereClause::Lt(f, lit)) <==> above(lit@, m[f@])
            &&& filter::row_sat(m, WhereClause::Gte(f, lit)) <==> above(m[f@], lit@) || same(m[f@], lit@)
            &&& filter::row_sat(m, WhereClause::Lte(f, lit)) <==> above(lit@, m[f@]) || same(m[f@], lit@)
        },
        f@ != "id"@ && !m.contains_key(f@) ==> {
            &&& !filter::entity_sat(id, m, WhereClause::Eq(f, lit))
            &&& filter::entity_sat(id, m, WhereClause::Neq(f, lit))
        },
        !m.contains_key(f@) ==> {
            &&& !filter::entity_sat(id, m, WhereClause::Gt(f, lit))
            &&& !filter::entity_sat(id, m, WhereClause::Lt(f, lit))
            &&& !filter::entity_sat(id, m, WhereClause::Gte(f, lit))
            &&& !filter::entity_sat(id, m, WhereClause::Lte(f, lit))
            &&& !filter::row_sat(m, WhereClause::Eq(f, lit))
            &&& filter::row_sat(m, WhereClause::Neq(f, lit))
            &&& !filter::row_sat(m, WhereClause::Gt(f, lit))
            &&& !filter::row_sat(m, WhereClause::Lt(f, lit))
            &&& !filter::row_sat(m, WhereClause::Gte(f, lit))
            &&& !filter::row_sat(m, WhereClause::Lte(f, lit))
        },
        f@ == "id"@ ==> {
            &&& filter::entity_sat(id, m, WhereClause::Eq(f, lit)) <==> lit@ == Val::Str(id)
            &&& filter::entity_sat(id, m, WhereClause::Neq(f, lit)) <==> lit@ != Val::Str(id)
        },
{
}

/// A condition on the id alone or on a field that may be missing: an id is never null; a
/// field is null where it is missing or holds a null; and a pattern selects texts that
/// match it, the id among them.
pub proof fn lemma_null_and_like(id: Seq<char>, m: Map<Seq<char>, Val>, f: String, p: String)
    ensures
        f@ == "id"@ ==> {
            &&& !filter::entity_sat(id, m, WhereClause::IsNull(f))
            &&& filter::entity_sat(id, m, WhereClause::IsNotNull(f))
            &&& filter::entity_sat(id, m, WhereClause::Like(f, p)) <==> filter::like(id, p@)
        },
        f@ != "id"@ ==> {
            &&& filter::entity_sat(id, m, WhereClause::IsNull(f)) <==> !m.contains_key(f@) || m[f@] == Val::Null
            &&& filter::entity_sat(id, m, WhereClause::IsNotNull(f)) <==> m.contains_key(f@) && m[f@] != Val::Null
            &&& filter::entity_sat(id, m, WhereClause::Like(f, p)) <==> m.contains_key(f@) && m[f@] is Str
                && filter::like(m[f@]->Str_0, p@)
        },
        filter::row_sat(m, WhereClause::IsNull(f)) <==> !m.contains_key(f@) || m[f@] == Val::Null,
        filter::row_sat(m, WhereClause::IsNotNull(f)) <==> m.contains_key(f@) && m[f@] != Val::Null,
        filter::row_sat(m, WhereClause::Like(f, p)) <==> m.contains_key(f@) && m[f@] is Str && filter::like(
            m[f@]->Str_0,
            p@,
        ),
{
}

/// A field is one of some literals exactly where it is equal to one of them.
pub proof fn lemma_in_is_some_equal(id: Seq<char>, m: Map<Seq<char>, Val>, f: String, lits: Vec<Literal>)
    ensures
        filter::entity_sat(id, m, WhereClause::In(f, lits)) <==> exists|i: int|
            0 <= i < lits@.len() && filter::entity_sat(id, m, WhereClause::Eq(f, #[trigger] lits@[i])),
        filter::row_sat(m, WhereClause::In(f, lits)) <==> exists|i: int|
            0 <= i < lits@.len() && filter::row_sat(m, WhereClause::Eq(f, #[trigger] lits@[i])),
{
    if let Some(v) = filter::entity_field(id, m, f@) {
        assert forall|i: int| 0 <= i < lits@.len() implies (value::val_eq((#[trigger] lits@[i])@, v)
            <==> filter::entity_sat(id, m, WhereClause::Eq(f, lits@[i]))) by {}
        if filter::listed(v, lits@) {
            let i = choose|i: int| 0 <= i < lits@.len() && value::val_eq((#[trigger] lits@[i])@, v);
            assert(filter::entity_sat(id, m, WhereClause::Eq(f, lits@[i])));
        }
    }
    if let Some(v) = filter::field_of(m, f@) {
        assert forall|i: int| 0 <= i < lits@.len() implies (value::val_eq((#[trigger] lits@[i])@, v)
            <==> filter::row_sat(m, WhereClause::Eq(f, lits@[i]))) by {}
        if filter::listed(v, lits@) {
            let i = choose|i: int| 0 <= i < lits@.len() && value::val_eq((#[trigger] lits@[i])@, v);
            assert(filter::row_sat(m, WhereClause::Eq(f, lits@[i])));
        }
    }
}

/// What each part of a pattern matches: nothing at all the empty text, a percent sign every
/// text, an underscore every single character, and any other character itself.
pub proof fn lemma_like_parts(v: Seq<char>, c: char)
    ensures
        filter::like(v, Seq::empty()) <==> v.len() == 0,
        filter::like(v, seq!['%']),
        filter::like(v, seq!['_']) <==> v.len() == 1,
        c != '%' && c != '_' ==> (filter::like(v, seq![c]) <==> v == seq![c]),
{
    assert(seq!['%'].drop_first() =~= Seq::empty());
    assert(seq!['_'].drop_first() =~= Seq::empty());
    assert(seq![c].drop_first() =~= Seq::empty());
    assert(v.skip(v.len() as int).len() == 0);
    assert(filter::like(v.skip(v.len() as int), seq!['%'].drop_first()));
    if v.len() > 0 {
        assert(filter::like(v.drop_first(), Seq::empty()) <==> v.len() == 1);
        if v.len() == 1 && v[0] == c {
            assert(v =~= seq![c]);
        }
    }
}

/// Whether a text falls into two parts that match two patterns.
pub open spec fn splits(v: Seq<char>, p: Seq<char>, q: Seq<char>) -> bool {
    exists|i: int| 0 <= i <= v.len() && filter::like(#[trigger] v.take(i), p) && filter::like(v.skip(i), q)
}

/// A text matches a pattern followed by another exactly where it falls into two parts, one
/// that matches the first and one that matches the second.
pub proof fn lemma_like_concat(v: Seq<char>, p: Seq<char>, q: Seq<char>)
    ensures
        filter::like(v, p + q) <==> splits(v, p, q),
    decreases p.len(),
{
    let w = p + q;
    if p.len() == 0 {
        assert(w =~= q);
        assert(v.skip(0) =~= v);
        assert(v.take(0).len() == 0);
        if filter::like(v, w) {
            assert(filter::like(v.take(0), p) && filter::like(v.skip(0), q));
        }
        if splits(v, p, q) {
            let i = choose|i: int|
                0 <= i <= v.len() && filter::like(#[trigger] v.take(i), p) && filter::like(v.skip(i), q);
            assert(i == 0);
        }
    } else {
        let p1 = p.drop_first();
        assert(w.drop_first() =~= p1 + q);
        assert(w[0] == p[0]);
        if p[0] == '%' {
            if filter::like(v, w) {
                let k = choose|k: int| 0 <= k <= v.len() && filter::like(#[trigger] v.skip(k), w.drop_first());
                let u = v.skip(k);
                lemma_like_concat(u, p1, q);
                let i = choose|i: int|
                    0 <= i <= u.len() && filter::like(#[trigger] u.take(i), p1) && filter::like(u.skip(i), q);
                assert(v.take(k + i).skip(k) =~= u.take(i));
                assert(filter::like(v.take(k + i).skip(k), p1));
                assert(v.skip(k + i) =~= u.skip(i));
                assert(filter::like(v.take(k + i), p) && filter::like(v.skip(k + i), q));
            }
            if splits(v, p, q) {
                let i = choose|i: int|
                    0 <= i <= v.len() && filter::like(#[trigger] v.take(i), p) && filter::like(v.skip(i), q);
                let t = v.take(i);
                let k = choose|k: int| 0 <= k <= t.len() && filter::like(#[trigger] t.skip(k), p1);
                let u = v.skip(k);
                assert(u.take(i - k) =~= t.skip(k));
                assert(u.skip(i - k) =~= v.skip(i));
                assert(filter::like(u.take(i - k), p1) && filter::like(u.skip(i - k), q));
                lemma_like_concat(u, p1, q);
                assert(filter::like(v.skip(k), w.drop_first()));
            }
        } else {
            if v.len() > 0 {
                let u = v.drop_first();
                lemma_like_concat(u, p1, q);
                if filter::like(v, w) {
                    let i = choose|i: int|
                        0 <= i <= u.len() && filter::like(#[trigger] u.take(i), p1) && filter::like(u.skip(i), q);
                    assert(v.take(i + 1).drop_first() =~= u.take(i));
                    assert(v.take(i + 1)[0] == v[0]);
                    assert(v.skip(i + 1) =~= u.skip(i));
                    assert(filter::like(v.take(i + 1), p) && filter::like(v.skip(i + 1), q));
                }
                if splits(v, p, q) {
                    let i = choose|i: int|
                        0 <= i <= v.len() && filter::like(#[trigger] v.take(i), p) && filter::like(v.skip(i), q);
                    assert(i > 0);
                    assert(v.take(i).drop_first() =~= u.take(i - 1));
                    assert(v.take(i)[0] == v[0]);
                    assert(v.skip(i) =~= u.skip(i - 1));
                    assert(filter::like(u.take(i - 1), p1) && filter::like(u.skip(i - 1), q));
                }
            } else if splits(v, p, q) {
                let i = choose|i: int|
                    0 <= i <= v.len() && filter::like(#[trigger] v.take(i), p) && filter::like(v.skip(i), q);
                assert(v.take(i).len() == 0);
            }
        }
    }
}

/// How ORDER BY ranks two fields: a lesser integer, float or text first, false before true,
/// and what is missing or null last. Two things are equal where neither is above the other.
pub proof fn lemma_field_order(v: Val, w: Val)
    requires
        v != Val::Null,
        w != Val::Null,
    ensures
        !(v is Bool && w is Bool) ==> {
            &&& value::val_rank(Some(v), Some(w)) == Rank::Less <==> above(w, v)
            &&& value::val_rank(Some(v), Some(w)) == Rank::Greater <==> above(v, w) && !above(w, v)
        },
        v is Bool && w is Bool ==> {
            &&& value::val_rank(Some(v), Some(w)) == Rank::Less <==> !v->Bool_0 && w->Bool_0
            &&& value::val_rank(Some(v), Some(w)) == Rank::Greater <==> v->Bool_0 && !w->Bool_0
        },
        value::val_rank(Some(v), None) == Rank::Less,
        value::val_rank(Some(v), Some(Val::Null)) == Rank::Less,
        value::val_rank(None, Some(w)) == Rank::Greater,
        value::val_rank(Some(Val::Null), Some(w)) == Rank::Greater,
        value::val_rank(None, None) == Rank::Equal,
        value::val_rank(Some(Val::Null), Some(Val::Null)) == Rank::Equal,
{
}

/// A literal denotes the value that is written.
pub proof fn lemma_literal_denotes(lit: Literal)
    ensures
        match lit {
            Literal::String(s) => lit@ == Val::Str(s@),
            Literal::Int(n) => lit@ == Val::Int(n),
            Literal::Float(b) => lit@ == Val::Float(b),
            Literal::Bool(b) => lit@ == Val::Bool(b),
            Literal::Null => lit@ == Val::Null,
        },
{
}

/// Turning an outcome round exchanges less and greater, and its name in the standard library
/// is the same.
pub proof fn lemma_ranks(r: Rank)
    ensures
        r.flipped() == Rank::Less <==> r == Rank::Greater,
        r.flipped() == Rank::Greater <==> r == Rank::Less,
        r.flipped().flipped() == r,
        value::rank_ordering(r) == core::cmp::Ordering::Less <==> r == Rank::Less,
        value::rank_ordering(r) == core::cmp::Ordering::Greater <==> r == Rank::Greater,
{
}

} // verus!
