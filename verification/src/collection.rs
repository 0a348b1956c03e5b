//! CREATE COLLECTION and DROP COLLECTION.

use vstd::prelude::*;
use vstd::string::*;

use crate::error::{EngineError, ErrorView};
use crate::fetch;
use crate::fetch::scoped_key;
use crate::result;
use crate::result::{message_result, QueryResult};
use crate::text;
use crate::text::{cat3, cat4, cat5, clone_texts, contains_text, decimal_usize, starts_with, text_equal};
use crate::types::{
    clone_opt_text, CollectionSchema, FieldType, Metric, StoredField, StoredIndex, StoredRepresentation,
    VectoriserConfig,
};

verus! {

/// A REPRESENTATION clause.
#[derive(Debug)]
pub struct RepresentationDecl {
    pub name: String,
    pub model: Option<String>,
    pub dimensions: Option<usize>,
    pub metric: Metric,
    pub sparse: bool,
    pub fields: Vec<String>,
}

/// A FIELD clause.
#[derive(Debug)]
pub struct FieldDecl {
    pub name: String,
    pub field_type: FieldType,
}

/// An INDEX clause; a partial condition is kept as it is written out.
#[derive(Debug)]
pub struct IndexDecl {
    pub name: String,
    pub fields: Vec<String>,
    pub partial_condition: Option<String>,
}

/// A planned CREATE COLLECTION.
#[derive(Debug)]
pub struct CreateCollectionPlan {
    pub name: String,
    pub representations: Vec<RepresentationDecl>,
    pub fields: Vec<FieldDecl>,
    pub indexes: Vec<IndexDecl>,
    pub vectoriser_config: Option<VectoriserConfig>,
}

/// The first item that already occurs before it.
pub open spec fn first_repeat(names: Seq<Seq<char>>) -> Option<Seq<char>>
    decreases names.len(),
{
    if names.len() == 0 {
        None
    } else {
        match first_repeat(names.drop_last()) {
            Some(n) => Some(n),
            None => if names.drop_last().contains(names.last()) {
                Some(names.last())
            } else {
                None
            },
        }
    }
}

fn find_repeat(names: &Vec<String>) -> (r: Option<String>)
    ensures
        match r {
            Some(n) => first_repeat(text::views(names@)) == Some(n@),
            None => first_repeat(text::views(names@)) is None,
        },
{
    let ghost all = text::views(names@);
    let mut seen: Vec<String> = Vec::new();
    let mut i: usize = 0;
    proof {
        assert(text::views(seen@) =~= all.subrange(0, 0));
    }
    while i < names.len()
        invariant
            i <= names.len(),
            all == text::views(names@),
            all.len() == names@.len(),
            text::views(seen@) == all.subrange(0, i as int),
            first_repeat(all.subrange(0, i as int)) is None,
        decreases names.len() - i,
    {
        let ghost next = all.subrange(0, i as int + 1);
        proof {
            assert(next.drop_last() =~= all.subrange(0, i as int));
            assert(next.last() == names@[i as int]@);
        }
        if contains_text(&seen, names[i].as_str()) {
            proof {
                lemma_repeat_stays(all, i as int + 1);
            }
            return Some(names[i].clone());
        }
        let ghost before = text::views(seen@);
        seen.push(names[i].clone());
        proof {
            assert(text::views(seen@) =~= before.push(names@[i as int]@));
            assert(next =~= all.subrange(0, i as int).push(names@[i as int]@));
        }
        i += 1;
    }
    assert(all.subrange(0, all.len() as int) =~= all);
    None
}

proof fn lemma_repeat_stays(names: Seq<Seq<char>>, i: int)
    requires
        0 <= i <= names.len(),
        first_repeat(names.subrange(0, i)) is Some,
    ensures
        first_repeat(names) == first_repeat(names.subrange(0, i)),
    decreases names.len() - i,
{
    if i < names.len() {
        assert(names.subrange(0, i + 1).drop_last() =~= names.subrange(0, i));
        lemma_repeat_stays(names, i + 1);
    } else {
        assert(names.subrange(0, i) =~= names);
    }
}

/// A sequence has no repeat exactly where its items are distinct.
pub proof fn lemma_no_repeat_is_distinct(names: Seq<Seq<char>>)
    ensures
        first_repeat(names) is None <==> names.no_duplicates(),
    decreases names.len(),
{
    if names.len() > 0 {
        let head = names.drop_last();
        lemma_no_repeat_is_distinct(head);
        if names.no_duplicates() {
            assert forall|i: int, j: int| 0 <= i < head.len() && 0 <= j < head.len() && i != j implies head[i]
                != head[j] by {
                assert(names[i] != names[j]);
            }
            if head.contains(names.last()) {
                let i = choose|i: int| 0 <= i < head.len() && head[i] == names.last();
                assert(names[i] == names[names.len() - 1]);
            }
        }
        if first_repeat(names) is None {
            assert forall|i: int, j: int| 0 <= i < names.len() && 0 <= j < names.len() && i != j implies names[i]
                != names[j] by {
                if i < head.len() {
                    assert(head[i] == names[i]);
                }
                if j < head.len() {
                    assert(head[j] == names[j]);
                }
            }
        }
    }
}

/// The names of representations.
pub open spec fn repr_names(ds: Seq<RepresentationDecl>) -> Seq<Seq<char>> {
    ds.map_values(|d: RepresentationDecl| d.name@)
}

/// The names of fields.
pub open spec fn field_names(ds: Seq<FieldDecl>) -> Seq<Seq<char>> {
    ds.map_values(|d: FieldDecl| d.name@)
}

/// The names of indexes.
pub open spec fn index_names(ds: Seq<IndexDecl>) -> Seq<Seq<char>> {
    ds.map_values(|d: IndexDecl| d.name@)
}

/// Why a CREATE COLLECTION is refused: a name that is declared twice.
pub open spec fn refusal(p: CreateCollectionPlan) -> Option<ErrorView> {
    if first_repeat(repr_names(p.representations@)) is Some {
        Some(ErrorView::DuplicateRepresentation(first_repeat(repr_names(p.representations@))->0))
    } else if first_repeat(field_names(p.fields@)) is Some {
        Some(ErrorView::DuplicateField(first_repeat(field_names(p.fields@))->0))
    } else if first_repeat(index_names(p.indexes@)) is Some {
        Some(ErrorView::DuplicateIndex(first_repeat(index_names(p.indexes@))->0))
    } else {
        None
    }
}

fn check_names(p: &CreateCollectionPlan) -> (r: Result<(), EngineError>)
    ensures
        r is Err == refusal(*p) is Some,
        r is Err ==> r->Err_0@ == refusal(*p)->0,
{
    let mut reprs: Vec<String> = Vec::new();
    let mut i: usize = 0;
    while i < p.representations.len()
        invariant
            i <= p.representations.len(),
            reprs@.len() == i,
            forall|j: int| 0 <= j < i ==> (#[trigger] reprs@[j])@ == p.representations@[j].name@,
        decreases p.representations.len() - i,
    {
        reprs.push(p.representations[i].name.clone());
        i += 1;
    }
    assert(text::views(reprs@) =~= repr_names(p.representations@));
    if let Some(n) = find_repeat(&reprs) {
        return Err(EngineError::DuplicateRepresentation(n));
    }
    let mut fields: Vec<String> = Vec::new();
    let mut i: usize = 0;
    while i < p.fields.len()
        invariant
            i <= p.fields.len(),
            fields@.len() == i,
            forall|j: int| 0 <= j < i ==> (#[trigger] fields@[j])@ == p.fields@[j].name@,
        decreases p.fields.len() - i,
    {
        fields.push(p.fields[i].name.clone());
        i += 1;
    }
    assert(text::views(fields@) =~= field_names(p.fields@));
    if let Some(n) = find_repeat(&fields) {
        return Err(EngineError::DuplicateField(n));
    }
    let mut indexes: Vec<String> = Vec::new();
    let mut i: usize = 0;
    while i < p.indexes.len()
        invariant
            i <= p.indexes.len(),
            indexes@.len() == i,
            forall|j: int| 0 <= j < i ==> (#[trigger] indexes@[j])@ == p.indexes@[j].name@,
        decreases p.indexes.len() - i,
    {
        indexes.push(p.indexes[i].name.clone());
        i += 1;
    }
    assert(text::views(indexes@) =~= index_names(p.indexes@));
    if let Some(n) = find_repeat(&indexes) {
        return Err(EngineError::DuplicateIndex(n));
    }
    Ok(())
}

/// Whether a stored representation is what a clause declares, not computed yet.
pub open spec fn repr_declared(s: StoredRepresentation, d: RepresentationDecl) -> bool {
    &&& s.name == d.name
    &&& s.model == d.model
    &&& s.dimensions == d.dimensions
    &&& s.metric == d.metric
    &&& s.sparse == d.sparse
    &&& s.fields@ == d.fields@
    &&& s.computed_at == 0
    &&& s.model_version@ == Seq::<char>::empty()
}

/// Whether a stored index is what a clause declares.
pub open spec fn index_declared(s: StoredIndex, d: IndexDecl) -> bool {
    &&& s.name == d.name
    &&& s.fields@ == d.fields@
    &&& s.partial_condition == d.partial_condition
}

/// Whether a schema is what a CREATE COLLECTION declares, clause by clause.
pub open spec fn declared(s: CollectionSchema, p: CreateCollectionPlan) -> bool {
    &&& s.name == p.name
    &&& s.representations@.len() == p.representations@.len()
    &&& forall|i: int|
        0 <= i < s.representations@.len() ==> repr_declared(#[trigger] s.representations@[i], p.representations@[i])
    &&& s.fields@.len() == p.fields@.len()
    &&& forall|i: int|
        0 <= i < s.fields@.len() ==> (#[trigger] s.fields@[i]).name == p.fields@[i].name && s.fields@[i].field_type
            == p.fields@[i].field_type
    &&& s.indexes@.len() == p.indexes@.len()
    &&& forall|i: int| 0 <= i < s.indexes@.len() ==> index_declared(#[trigger] s.indexes@[i], p.indexes@[i])
    &&& s.vectoriser_config == p.vectoriser_config
}

/// The schema that a CREATE COLLECTION declares.
pub fn build_collection_schema(p: &CreateCollectionPlan) -> (s: CollectionSchema)
    ensures
        declared(s, *p),
{
    let mut representations: Vec<StoredRepresentation> = Vec::new();
    let mut i: usize = 0;
    while i < p.representations.len()
        invariant
            i <= p.representations.len(),
            representations@.len() == i,
            forall|j: int| 0 <= j < i ==> repr_declared(#[trigger] representations@[j], p.representations@[j]),
        decreases p.representations.len() - i,
    {
        let d = &p.representations[i];
        let empty = String::new();
        assert(empty@ =~= Seq::<char>::empty());
        representations.push(
            StoredRepresentation {
                name: d.name.clone(),
                model: clone_opt_text(&d.model),
                dimensions: d.dimensions,
                metric: d.metric,
                sparse: d.sparse,
                fields: clone_texts(&d.fields),
                computed_at: 0,
                model_version: empty,
            },
        );
        i += 1;
    }
    let mut fields: Vec<StoredField> = Vec::new();
    let mut i: usize = 0;
    while i < p.fields.len()
        invariant
            i <= p.fields.len(),
            fields@.len() == i,
            forall|j: int|
                0 <= j < i ==> (#[trigger] fields@[j]).name == p.fields@[j].name && fields@[j].field_type
                    == p.fields@[j].field_type,
        decreases p.fields.len() - i,
    {
        fields.push(StoredField { name: p.fields[i].name.clone(), field_type: p.fields[i].field_type.clone() });
        i += 1;
    }
    let mut indexes: Vec<StoredIndex> = Vec::new();
    let mut i: usize = 0;
    while i < p.indexes.len()
        invariant
            i <= p.indexes.len(),
            indexes@.len() == i,
            forall|j: int| 0 <= j < i ==> index_declared(#[trigger] indexes@[j], p.indexes@[j]),
        decreases p.indexes.len() - i,
    {
        let d = &p.indexes[i];
        indexes.push(
            StoredIndex {
                name: d.name.clone(),
                fields: clone_texts(&d.fields),
                partial_condition: clone_opt_text(&d.partial_condition),
            },
        );
        i += 1;
    }
    let vectoriser_config = match &p.vectoriser_config {
        Some(vc) => Some(
            VectoriserConfig {
                model: clone_opt_text(&vc.model),
                model_path: clone_opt_text(&vc.model_path),
                device: clone_opt_text(&vc.device),
                vectoriser_type: clone_opt_text(&vc.vectoriser_type),
                endpoint: clone_opt_text(&vc.endpoint),
                auth: clone_opt_text(&vc.auth),
            },
        ),
        None => None,
    };
    CollectionSchema { name: p.name.clone(), representations, fields, indexes, vectoriser_config }
}

/// The schema of a new collection, or why it is refused.
pub fn create_collection(p: &CreateCollectionPlan) -> (r: Result<CollectionSchema, EngineError>)
    ensures
        match r {
            Ok(s) => refusal(*p) is None && declared(s, *p),
            Err(e) => refusal(*p) == Some(e@),
        },
{
    match check_names(p) {
        Ok(()) => Ok(build_collection_schema(p)),
        Err(e) => Err(e),
    }
}

/// What a CREATE COLLECTION reports.
pub fn created_collection(p: &CreateCollectionPlan) -> (r: QueryResult)
    ensures
        result::is_message(
            r,
            "result"@,
            "Collection '"@ + p.name@ + "' created ("@ + (text::dec(p.representations@.len())
                + " representations, "@ + text::dec(p.fields@.len()) + " fields, "@) + (text::dec(
                p.indexes@.len(),
            ) + " indexes)"@),
            "Fjall"@,
        ),
{
    let reprs = decimal_usize(p.representations.len());
    let fields = decimal_usize(p.fields.len());
    let indexes = decimal_usize(p.indexes.len());
    let first = cat4(reprs.as_str(), " representations, ", fields.as_str(), " fields, ");
    let second = text::cat2(indexes.as_str(), " indexes)");
    let message = cat5("Collection '", p.name.as_str(), "' created (", first.as_str(), second.as_str());
    message_result("result", message, "Fjall")
}

/// The dense vector indexes of a collection, by key, each with its dimensions.
pub open spec fn dense_keys(name: Seq<char>, reprs: Seq<StoredRepresentation>) -> Seq<(Seq<char>, usize)>
    decreases reprs.len(),
{
    if reprs.len() == 0 {
        Seq::empty()
    } else {
        let before = dense_keys(name, reprs.drop_last());
        let r = reprs.last();
        match r.dimensions {
            Some(d) if !r.sparse => before.push((fetch::scoped(name, r.name@), d)),
            _ => before,
        }
    }
}

/// The dense vector indexes of a collection, by key, each with its dimensions.
pub fn dense_indexes(schema: &CollectionSchema) -> (r: Vec<(String, usize)>)
    ensures
        r@.map_values(|x: (String, usize)| (x.0@, x.1)) == dense_keys(schema.name@, schema.representations@),
{
    let mut r: Vec<(String, usize)> = Vec::new();
    let ghost f = |x: (String, usize)| (x.0@, x.1);
    let ghost all = schema.representations@;
    let mut i: usize = 0;
    proof {
        assert(r@.map_values(f) =~= dense_keys(schema.name@, all.subrange(0, 0)));
    }
    while i < schema.representations.len()
        invariant
            i <= schema.representations.len(),
            all == schema.representations@,
            f == (|x: (String, usize)| (x.0@, x.1)),
            r@.map_values(f) == dense_keys(schema.name@, all.subrange(0, i as int)),
        decreases schema.representations.len() - i,
    {
        let ghost before = r@.map_values(f);
        proof {
            let next = all.subrange(0, i as int + 1);
            assert(next.drop_last() =~= all.subrange(0, i as int));
            assert(next.last() == all[i as int]);
        }
        let repr = &schema.representations[i];
        if !repr.sparse {
            if let Some(d) = repr.dimensions {
                let key = scoped_key(schema.name.as_str(), repr.name.as_str());
                r.push((key, d));
                proof {
                    assert(r@.map_values(f) =~= before.push((key@, d)));
                }
            }
        }
        i += 1;
    }
    assert(all.subrange(0, all.len() as int) =~= all);
    r
}

/// The sparse vector indexes of a collection, by key.
pub open spec fn sparse_keys(name: Seq<char>, reprs: Seq<StoredRepresentation>) -> Seq<Seq<char>>
    decreases reprs.len(),
{
    if reprs.len() == 0 {
        Seq::empty()
    } else {
        let before = sparse_keys(name, reprs.drop_last());
        if reprs.last().sparse {
            before.push(fetch::scoped(name, reprs.last().name@))
        } else {
            before
        }
    }
}

/// The sparse vector indexes of a collection, by key.
pub fn sparse_indexes(schema: &CollectionSchema) -> (r: Vec<String>)
    ensures
        text::views(r@) == sparse_keys(schema.name@, schema.representations@),
{
    let mut r: Vec<String> = Vec::new();
    let ghost all = schema.representations@;
    let mut i: usize = 0;
    proof {
        assert(text::views(r@) =~= sparse_keys(schema.name@, all.subrange(0, 0)));
    }
    while i < schema.representations.len()
        invariant
            i <= schema.representations.len(),
            all == schema.representations@,
            text::views(r@) == sparse_keys(schema.name@, all.subrange(0, i as int)),
        decreases schema.representations.len() - i,
    {
        let ghost before = text::views(r@);
        proof {
            let next = all.subrange(0, i as int + 1);
            assert(next.drop_last() =~= all.subrange(0, i as int));
            assert(next.last() == all[i as int]);
        }
        let repr = &schema.representations[i];
        if repr.sparse {
            let key = scoped_key(schema.name.as_str(), repr.name.as_str());
            r.push(key);
            proof {
                assert(text::views(r@) =~= before.push(key@));
            }
        }
        i += 1;
    }
    assert(all.subrange(0, all.len() as int) =~= all);
    r
}

/// The place of the first declared field with a name.
pub open spec fn field_place(fields: Seq<StoredField>, name: Seq<char>) -> Option<int>
    decreases fields.len(),
{
    if fields.len() == 0 {
        None
    } else {
        match field_place(fields.drop_last(), name) {
            Some(i) => Some(i),
            None => if fields.last().name@ == name {
                Some(fields.len() - 1)
            } else {
                None
            },
        }
    }
}

fn find_field(fields: &Vec<StoredField>, name: &str) -> (r: Option<usize>)
    ensures
        match r {
            Some(i) => i < fields.len() && field_place(fields@, name@) == Some(i as int) && fields@[i as int].name@
                == name@,
            None => field_place(fields@, name@) is None,
        },
{
    let ghost all = fields@;
    let mut i: usize = 0;
    while i < fields.len()
        invariant
            i <= fields.len(),
            all == fields@,
            field_place(all.subrange(0, i as int), name@) is None,
        decreases fields.len() - i,
    {
        proof {
            let next = all.subrange(0, i as int + 1);
            assert(next.drop_last() =~= all.subrange(0, i as int));
            assert(next.last() == all[i as int]);
        }
        if text_equal(fields[i].name.as_str(), name) {
            proof {
                lemma_place_stays(all, name@, i as int + 1);
            }
            return Some(i);
        }
        i += 1;
    }
    assert(all.subrange(0, all.len() as int) =~= all);
    None
}

proof fn lemma_place_stays(fields: Seq<StoredField>, name: Seq<char>, i: int)
    requires
        0 <= i <= fields.len(),
        field_place(fields.subrange(0, i), name) is Some,
    ensures
        field_place(fields, name) == field_place(fields.subrange(0, i), name),
    decreases fields.len() - i,
{
    if i < fields.len() {
        assert(fields.subrange(0, i + 1).drop_last() =~= fields.subrange(0, i));
        lemma_place_stays(fields, name, i + 1);
    } else {
        assert(fields.subrange(0, i) =~= fields);
    }
}

/// The fields of an index with their declared types. A name that is not declared is
/// passed over.
pub open spec fn typed_fields(fields: Seq<StoredField>, names: Seq<Seq<char>>) -> Seq<(Seq<char>, FieldType)>
    decreases names.len(),
{
    if names.len() == 0 {
        Seq::empty()
    } else {
        let before = typed_fields(fields, names.drop_last());
        match field_place(fields, names.last()) {
            Some(i) => before.push((names.last(), fields[i].field_type)),
            None => before,
        }
    }
}

/// The fields of an index with their declared types.
pub fn index_field_types(schema: &CollectionSchema, index: &StoredIndex) -> (r: Vec<(String, FieldType)>)
    ensures
        r@.map_values(|x: (String, FieldType)| (x.0@, x.1)) == typed_fields(
            schema.fields@,
            text::views(index.fields@),
        ),
{
    let mut r: Vec<(String, FieldType)> = Vec::new();
    let ghost f = |x: (String, FieldType)| (x.0@, x.1);
    let ghost all = text::views(index.fields@);
    let mut i: usize = 0;
    proof {
        assert(r@.map_values(f) =~= typed_fields(schema.fields@, all.subrange(0, 0)));
    }
    while i < index.fields.len()
        invariant
            i <= index.fields.len(),
            all == text::views(index.fields@),
            f == (|x: (String, FieldType)| (x.0@, x.1)),
            r@.map_values(f) == typed_fields(schema.fields@, all.subrange(0, i as int)),
        decreases index.fields.len() - i,
    {
        let ghost before = r@.map_values(f);
        proof {
            let next = all.subrange(0, i as int + 1);
            assert(next.drop_last() =~= all.subrange(0, i as int));
            assert(next.last() == index.fields@[i as int]@);
        }
        if let Some(at) = find_field(&schema.fields, index.fields[i].as_str()) {
            let t = schema.fields[at].field_type.clone();
            r.push((schema.fields[at].name.clone(), t));
            proof {
                assert(r@.map_values(f) =~= before.push((index.fields@[i as int]@, t)));
            }
        }
        i += 1;
    }
    assert(all.subrange(0, all.len() as int) =~= all);
    r
}

/// Whether an index key does not belong to a collection.
pub open spec fn outside(name: Seq<char>) -> spec_fn(Seq<char>) -> bool {
    |k: Seq<char>| !text::has_prefix(k, name + ":"@)
}

/// The index keys that stay when a collection is dropped: those outside it.
pub fn keys_kept(keys: &Vec<String>, name: &str) -> (r: Vec<String>)
    ensures
        text::views(r@) == text::views(keys@).filter(outside(name@)),
{
    let prefix = text::cat2(name, ":");
    let ghost keep = outside(name@);
    let ghost all = text::views(keys@);
    let mut r: Vec<String> = Vec::new();
    let mut i: usize = 0;
    proof {
        reveal(Seq::filter);
        assert(text::views(r@) =~= all.subrange(0, 0).filter(keep));
    }
    while i < keys.len()
        invariant
            i <= keys.len(),
            prefix@ == name@ + ":"@,
            keep == outside(name@),
            all == text::views(keys@),
            text::views(r@) == all.subrange(0, i as int).filter(keep),
        decreases keys.len() - i,
    {
        let ghost before = text::views(r@);
        proof {
            let next = all.subrange(0, i as int + 1);
            assert(next.drop_last() =~= all.subrange(0, i as int));
            assert(next.last() == keys@[i as int]@);
            reveal(Seq::filter);
        }
        if !starts_with(keys[i].as_str(), prefix.as_str()) {
            r.push(keys[i].clone());
            proof {
                assert(text::views(r@) =~= before.push(keys@[i as int]@));
            }
        }
        i += 1;
    }
    assert(all.subrange(0, all.len() as int) =~= all);
    r
}

/// What a DROP COLLECTION answers: an error where the collection is not known.
pub fn dropped_collection(name: &str, known: bool) -> (r: Result<QueryResult, EngineError>)
    ensures
        match r {
            Ok(q) => known && result::is_message(q, "result"@, "Collection '"@ + name@ + "' dropped"@, "Fjall"@),
            Err(e) => !known && e@ == ErrorView::CollectionNotFound(name@),
        },
{
    if !known {
        return Err(EngineError::CollectionNotFound(text::own(name)));
    }
    Ok(message_result("result", cat3("Collection '", name, "' dropped"), "Fjall"))
}

} // verus!
