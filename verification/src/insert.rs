//! INSERT: checking, building and placing a new entity.

use vstd::prelude::*;
use vstd::string::*;

use crate::edge::EdgeType;
use crate::error::{EngineError, ErrorView};
use crate::fields::FieldMap;
use crate::filter;
use crate::location::{Encoding, LocState, LocationDescriptor, ReprKey, ReprKeyView, Tier};
use crate::result;
use crate::result::{message_result, QueryResult};
use crate::text;
use crate::text::{cat3, cat5, clone_texts, contains_text, decimal_usize, own, starts_with, text_equal};
use crate::types::{CollectionSchema, Entity, FieldType, ReprState, ReprType, Representation, StoredRepresentation, VectorData};
use crate::value::{literal_to_value, Literal, LogicalId, Val, Value};

verus! {

/// A planned INSERT: fields with their values, and vectors by representation.
#[derive(Debug)]
pub struct InsertPlan {
    pub collection: String,
    pub fields: Vec<String>,
    pub values: Vec<Literal>,
    pub vectors: Vec<(String, VectorData)>,
}

/// The place of the first representation with a name.
pub open spec fn repr_place(reprs: Seq<StoredRepresentation>, name: Seq<char>) -> Option<int>
    decreases reprs.len(),
{
    if reprs.len() == 0 {
        None
    } else {
        match repr_place(reprs.drop_last(), name) {
            Some(i) => Some(i),
            None => if reprs.last().name@ == name {
                Some(reprs.len() - 1)
            } else {
                None
            },
        }
    }
}

proof fn lemma_place_stays(reprs: Seq<StoredRepresentation>, name: Seq<char>, i: int)
    requires
        0 <= i <= reprs.len(),
        repr_place(reprs.subrange(0, i), name) is Some,
    ensures
        repr_place(reprs, name) == repr_place(reprs.subrange(0, i), name),
    decreases reprs.len() - i,
{
    if i < reprs.len() {
        assert(reprs.subrange(0, i + 1).drop_last() =~= reprs.subrange(0, i));
        lemma_place_stays(reprs, name, i + 1);
    } else {
        assert(reprs.subrange(0, i) =~= reprs);
    }
}

/// The place of the first representation with a name.
pub fn find_representation(reprs: &Vec<StoredRepresentation>, name: &str) -> (r: Option<usize>)
    ensures
        match r {
            Some(i) => i < reprs.len() && repr_place(reprs@, name@) == Some(i as int) && reprs@[i as int].name@
                == name@,
            None => repr_place(reprs@, name@) is None,
        },
{
    let ghost all = reprs@;
    let mut i: usize = 0;
    while i < reprs.len()
        invariant
            i <= reprs.len(),
            all == reprs@,
            repr_place(all.subrange(0, i as int), name@) is None,
        decreases reprs.len() - i,
    {
        proof {
            let next = all.subrange(0, i as int + 1);
            assert(next.drop_last() =~= all.subrange(0, i as int));
            assert(next.last() == all[i as int]);
        }
        if text_equal(reprs[i].name.as_str(), name) {
            proof {
                lemma_place_stays(all, name@, i as int + 1);
            }
            return Some(i);
        }
        i += 1;
    }
    assert(all.subrange(0, all.len() as int) =~= all);
    None
}

/// Why one vector is refused: its representation is not declared, or it is dense and
/// has another number of dimensions than declared.
pub open spec fn vector_fault(
    name: Seq<char>,
    v: VectorData,
    reprs: Seq<StoredRepresentation>,
    collection: Seq<char>,
) -> Option<ErrorView> {
    match repr_place(reprs, name) {
        None => Some(
            ErrorView::InvalidQuery("no representation '"@ + name + "' in collection '"@ + collection + "'"@),
        ),
        Some(i) => match (v, reprs[i].dimensions) {
            (VectorData::Dense(d), Some(n)) if d@.len() != n => Some(
                ErrorView::InvalidQuery(
                    "representation '"@ + name + "' expects "@ + text::dec(n as nat) + (" dimensions, got "@
                        + text::dec(d@.len())),
                ),
            ),
            _ => None,
        },
    }
}

/// Why vectors are refused: the fault of the first that has one.
pub open spec fn vectors_fault(
    vs: Seq<(String, VectorData)>,
    reprs: Seq<StoredRepresentation>,
    collection: Seq<char>,
) -> Option<ErrorView>
    decreases vs.len(),
{
    if vs.len() == 0 {
        None
    } else {
        match vectors_fault(vs.drop_last(), reprs, collection) {
            Some(e) => Some(e),
            None => vector_fault(vs.last().0@, vs.last().1, reprs, collection),
        }
    }
}

proof fn lemma_fault_stays(
    vs: Seq<(String, VectorData)>,
    reprs: Seq<StoredRepresentation>,
    collection: Seq<char>,
    i: int,
)
    requires
        0 <= i <= vs.len(),
        vectors_fault(vs.subrange(0, i), reprs, collection) is Some,
    ensures
        vectors_fault(vs, reprs, collection) == vectors_fault(vs.subrange(0, i), reprs, collection),
    decreases vs.len() - i,
{
    if i < vs.len() {
        assert(vs.subrange(0, i + 1).drop_last() =~= vs.subrange(0, i));
        lemma_fault_stays(vs, reprs, collection, i + 1);
    } else {
        assert(vs.subrange(0, i) =~= vs);
    }
}

fn check_vector(name: &str, v: &VectorData, reprs: &Vec<StoredRepresentation>, collection: &str) -> (r: Result<
    (),
    EngineError,
>)
    ensures
        match r {
            Ok(_) => vector_fault(name@, *v, reprs@, collection@) is None,
            Err(e) => vector_fault(name@, *v, reprs@, collection@) == Some(e@),
        },
{
    match find_representation(reprs, name) {
        None => Err(
            EngineError::InvalidQuery(cat5("no representation '", name, "' in collection '", collection, "'")),
        ),
        Some(i) => match (v, reprs[i].dimensions) {
            (VectorData::Dense(d), Some(n)) => {
                if d.len() != n {
                    let want = decimal_usize(n);
                    let got = decimal_usize(d.len());
                    let tail = text::cat2(" dimensions, got ", got.as_str());
                    Err(
                        EngineError::InvalidQuery(
                            cat5("representation '", name, "' expects ", want.as_str(), tail.as_str()),
                        ),
                    )
                } else {
                    Ok(())
                }
            },
            _ => Ok(()),
        },
    }
}

/// Why an INSERT is refused: its collection is not known, or a vector is at fault.
pub open spec fn insert_fault(p: InsertPlan, schema: Option<&CollectionSchema>) -> Option<ErrorView> {
    match schema {
        None => Some(ErrorView::CollectionNotFound(p.collection@)),
        Some(s) => vectors_fault(p.vectors@, s.representations@, p.collection@),
    }
}

/// Whether an INSERT is accepted, given the schema of its collection where that is
/// known.
pub fn check_insert(p: &InsertPlan, schema: Option<&CollectionSchema>) -> (r: Result<(), EngineError>)
    ensures
        match r {
            Ok(_) => insert_fault(*p, schema) is None,
            Err(e) => insert_fault(*p, schema) == Some(e@),
        },
{
    match schema {
        None => Err(EngineError::CollectionNotFound(p.collection.clone())),
        Some(s) => {
            let ghost all = p.vectors@;
            let mut i: usize = 0;
            while i < p.vectors.len()
                invariant
                    i <= p.vectors.len(),
                    schema == Some(s),
                    all == p.vectors@,
                    vectors_fault(all.subrange(0, i as int), s.representations@, p.collection@) is None,
                decreases p.vectors.len() - i,
            {
                proof {
                    let next = all.subrange(0, i as int + 1);
                    assert(next.drop_last() =~= all.subrange(0, i as int));
                    assert(next.last() == all[i as int]);
                }
                match check_vector(
                    p.vectors[i].0.as_str(),
                    &p.vectors[i].1,
                    &s.representations,
                    p.collection.as_str(),
                ) {
                    Ok(_) => {},
                    Err(e) => {
                        proof {
                            lemma_fault_stays(all, s.representations@, p.collection@, i as int + 1);
                        }
                        return Err(e);
                    },
                }
                i += 1;
            }
            assert(all.subrange(0, all.len() as int) =~= all);
            Ok(())
        },
    }
}

/// How many fields have a value.
pub open spec fn paired(fields: Seq<String>, values: Seq<Literal>) -> nat {
    if fields.len() < values.len() {
        fields.len()
    } else {
        values.len()
    }
}

/// The first text given for the id among the first `n` fields.
pub open spec fn given_id(fields: Seq<String>, values: Seq<Literal>, n: nat) -> Option<Seq<char>>
    decreases n,
{
    if n == 0 {
        None
    } else {
        match given_id(fields, values, (n - 1) as nat) {
            Some(s) => Some(s),
            None => match values[n - 1] {
                Literal::String(s) if fields[n - 1]@ == filter::id_field() => Some(s@),
                _ => None,
            },
        }
    }
}

proof fn lemma_id_stays(fields: Seq<String>, values: Seq<Literal>, i: nat, n: nat)
    requires
        i <= n,
        given_id(fields, values, i) is Some,
    ensures
        given_id(fields, values, n) == given_id(fields, values, i),
    decreases n - i,
{
    if i < n {
        lemma_id_stays(fields, values, i, (n - 1) as nat);
    }
}

/// The id that the fields give, where they give one as a text.
pub fn find_id_in_fields(fields: &Vec<String>, values: &Vec<Literal>) -> (r: Option<LogicalId>)
    ensures
        match r {
            Some(id) => given_id(fields@, values@, paired(fields@, values@)) == Some(id@),
            None => given_id(fields@, values@, paired(fields@, values@)) is None,
        },
{
    let n = if fields.len() < values.len() {
        fields.len()
    } else {
        values.len()
    };
    let mut i: usize = 0;
    while i < n
        invariant
            i <= n,
            n <= fields.len(),
            n <= values.len(),
            n == paired(fields@, values@),
            given_id(fields@, values@, i as nat) is None,
        decreases n - i,
    {
        if text_equal(fields[i].as_str(), "id") {
            match &values[i] {
                Literal::String(s) => {
                    proof {
                        lemma_id_stays(fields@, values@, (i + 1) as nat, n as nat);
                    }
                    return Some(LogicalId::from_string(s.as_str()));
                },
                _ => {},
            }
        }
        i += 1;
    }
    None
}

/// The fields that an INSERT stores: its first `n`, a later one of a name in place of
/// an earlier one, without the id.
pub open spec fn stored_fields(fields: Seq<String>, values: Seq<Literal>, n: nat) -> Map<Seq<char>, Val>
    decreases n,
{
    if n == 0 {
        Map::empty()
    } else {
        let before = stored_fields(fields, values, (n - 1) as nat);
        if fields[n - 1]@ == filter::id_field() {
            before
        } else {
            before.insert(fields[n - 1]@, values[n - 1]@)
        }
    }
}

fn build_metadata(fields: &Vec<String>, values: &Vec<Literal>) -> (m: FieldMap)
    ensures
        m@ == stored_fields(fields@, values@, paired(fields@, values@)),
{
    let n = if fields.len() < values.len() {
        fields.len()
    } else {
        values.len()
    };
    let mut m = FieldMap::new();
    let mut i: usize = 0;
    while i < n
        invariant
            i <= n,
            n <= fields.len(),
            n <= values.len(),
            m@ == stored_fields(fields@, values@, i as nat),
        decreases n - i,
    {
        if !text_equal(fields[i].as_str(), "id") {
            m.insert(fields[i].clone(), literal_to_value(&values[i]));
        }
        i += 1;
    }
    m
}

/// The model with which the vectors of a representation are to be computed; none
/// where it is not computed from fields.
pub open spec fn recipe_model(schema: CollectionSchema, name: Seq<char>) -> Option<Seq<char>> {
    match repr_place(schema.representations@, name) {
        Some(i) if schema.representations@[i].fields@.len() > 0 => Some(
            match schema.vectoriser_config {
                Some(vc) => match vc.model {
                    Some(m) => m@,
                    None => "unknown"@,
                },
                None => "unknown"@,
            },
        ),
        _ => None,
    }
}

/// The model with which the vectors of a representation are to be computed.
pub fn model_of_recipe(schema: &CollectionSchema, name: &str) -> (r: Option<String>)
    ensures
        match r {
            Some(m) => recipe_model(*schema, name@) == Some(m@),
            None => recipe_model(*schema, name@) is None,
        },
{
    match find_representation(&schema.representations, name) {
        Some(i) => {
            if schema.representations[i].fields.len() > 0 {
                let model = match &schema.vectoriser_config {
                    Some(vc) => match &vc.model {
                        Some(m) => m.clone(),
                        None => own("unknown"),
                    },
                    None => own("unknown"),
                };
                Some(model)
            } else {
                None
            }
        },
        None => None,
    }
}

/// Whether a representation is one that an INSERT gives the vector of. The hash of
/// its recipe is zero where it has none.
pub open spec fn is_given(
    r: Representation,
    name: Seq<char>,
    v: VectorData,
    fields: Seq<String>,
    hash: Option<[u8; 32]>,
) -> bool {
    &&& r.name@ == name
    &&& r.repr_type == ReprType::Atomic
    &&& text::views(r.fields@) == text::views(fields)
    &&& r.vector.same(v)
    &&& r.recipe_hash@ == (match hash {
        Some(h) => h@,
        None => Seq::new(32, |i: int| 0u8),
    })
    &&& r.state == ReprState::Clean
    &&& r.computed_at == 0
    &&& r.model_version@ == Seq::<char>::empty()
}

/// Whether an entity is what an INSERT gives, its vectors in order.
pub open spec fn is_inserted(e: Entity, p: InsertPlan, id: Seq<char>, hashes: Seq<Option<[u8; 32]>>) -> bool {
    &&& e.id@ == id
    &&& e.metadata@ == stored_fields(p.fields@, p.values@, paired(p.fields@, p.values@))
    &&& e.representations@.len() == p.vectors@.len()
    &&& forall|i: int|
        0 <= i < e.representations@.len() ==> is_given(
            #[trigger] e.representations@[i],
            p.vectors@[i].0@,
            p.vectors@[i].1,
            p.fields@,
            hashes[i],
        )
}

/// The entity that an INSERT gives, with the recipe hash of each vector.
pub fn build_entity(p: &InsertPlan, id: &LogicalId, hashes: &Vec<Option<[u8; 32]>>) -> (e: Entity)
    requires
        hashes.len() == p.vectors.len(),
    ensures
        is_inserted(e, *p, id@, hashes@),
{
    let metadata = build_metadata(&p.fields, &p.values);
    let mut representations: Vec<Representation> = Vec::new();
    let mut i: usize = 0;
    while i < p.vectors.len()
        invariant
            i <= p.vectors.len(),
            hashes.len() == p.vectors.len(),
            representations@.len() == i,
            forall|j: int|
                0 <= j < i ==> is_given(
                    #[trigger] representations@[j],
                    p.vectors@[j].0@,
                    p.vectors@[j].1,
                    p.fields@,
                    hashes@[j],
                ),
        decreases p.vectors.len() - i,
    {
        let recipe_hash: [u8; 32] = match hashes[i] {
            Some(h) => h,
            None => [0u8;32],
        };
        let empty = String::new();
        assert(empty@ =~= Seq::<char>::empty());
        let repr = Representation {
            name: p.vectors[i].0.clone(),
            repr_type: ReprType::Atomic,
            fields: clone_texts(&p.fields),
            vector: p.vectors[i].1.clone(),
            recipe_hash,
            state: ReprState::Clean,
            computed_at: 0,
            model_version: empty,
        };
        assert(hashes@[i as int] is None ==> recipe_hash@ =~= Seq::new(32, |k: int| 0u8));
        representations.push(repr);
        i += 1;
    }
    Entity { id: id.clone(), metadata, representations }
}

/// The names of vectors.
pub open spec fn vector_names(vs: Seq<(String, VectorData)>) -> Seq<Seq<char>> {
    vs.map_values(|v: (String, VectorData)| v.0@)
}

/// Whether some of the fields of a representation are stored.
pub open spec fn some_stored(names: Seq<Seq<char>>, m: Map<Seq<char>, Val>) -> bool {
    exists|i: int| 0 <= i < names.len() && m.contains_key(#[trigger] names[i])
}

/// Whether a representation is to be computed: it has fields, no vector is given for
/// it, and some of its fields are stored.
pub open spec fn computed(r: StoredRepresentation, given: Seq<Seq<char>>, m: Map<Seq<char>, Val>) -> bool {
    &&& r.fields@.len() > 0
    &&& !given.contains(r.name@)
    &&& some_stored(text::views(r.fields@), m)
}

/// The places of the representations that are to be computed, in increasing order.
pub open spec fn computed_places(reprs: Seq<StoredRepresentation>, given: Seq<Seq<char>>, m: Map<Seq<char>, Val>) -> Seq<
    int,
>
    decreases reprs.len(),
{
    if reprs.len() == 0 {
        Seq::empty()
    } else {
        let before = computed_places(reprs.drop_last(), given, m);
        if computed(reprs.last(), given, m) {
            before.push(reprs.len() - 1)
        } else {
            before
        }
    }
}

/// The stored fields of a representation with their values, in its order.
pub open spec fn field_set(names: Seq<Seq<char>>, m: Map<Seq<char>, Val>) -> Seq<(Seq<char>, Val)>
    decreases names.len(),
{
    if names.len() == 0 {
        Seq::empty()
    } else {
        let before = field_set(names.drop_last(), m);
        if m.contains_key(names.last()) {
            before.push((names.last(), m[names.last()]))
        } else {
            before
        }
    }
}

/// The views of fields with their values.
pub open spec fn field_views(s: Seq<(String, Value)>) -> Seq<(Seq<char>, Val)> {
    s.map_values(|f: (String, Value)| (f.0@, f.1@))
}

/// The stored fields of a representation with their values: what its vector is
/// computed from.
pub fn fields_to_encode(repr: &StoredRepresentation, metadata: &FieldMap) -> (r: Vec<(String, Value)>)
    ensures
        field_views(r@) == field_set(text::views(repr.fields@), metadata@),
{
    let ghost all = text::views(repr.fields@);
    let mut r: Vec<(String, Value)> = Vec::new();
    let mut i: usize = 0;
    proof {
        assert(field_views(r@) =~= field_set(all.subrange(0, 0), metadata@));
    }
    while i < repr.fields.len()
        invariant
            i <= repr.fields.len(),
            all == text::views(repr.fields@),
            field_views(r@) == field_set(all.subrange(0, i as int), metadata@),
        decreases repr.fields.len() - i,
    {
        let ghost before = field_views(r@);
        proof {
            let next = all.subrange(0, i as int + 1);
            assert(next.drop_last() =~= all.subrange(0, i as int));
            assert(next.last() == repr.fields@[i as int]@);
        }
        if let Some(v) = metadata.get(repr.fields[i].as_str()) {
            let value = v.clone();
            r.push((repr.fields[i].clone(), value));
            proof {
                assert(field_views(r@) =~= before.push((repr.fields@[i as int]@, value@)));
            }
        }
        i += 1;
    }
    assert(all.subrange(0, all.len() as int) =~= all);
    r
}

proof fn lemma_field_set_empty(names: Seq<Seq<char>>, m: Map<Seq<char>, Val>)
    ensures
        field_set(names, m).len() > 0 <==> some_stored(names, m),
    decreases names.len(),
{
    if names.len() > 0 {
        let head = names.drop_last();
        lemma_field_set_empty(head, m);
        if some_stored(head, m) {
            let i = choose|i: int| 0 <= i < head.len() && m.contains_key(#[trigger] head[i]);
            assert(m.contains_key(names[i]));
        }
        if m.contains_key(names.last()) {
            assert(m.contains_key(names[names.len() - 1]));
        }
        if some_stored(names, m) {
            let i = choose|i: int| 0 <= i < names.len() && m.contains_key(#[trigger] names[i]);
            if i < head.len() {
                assert(m.contains_key(head[i]));
            }
        }
    }
}

fn names_of_vectors(vs: &Vec<(String, VectorData)>) -> (r: Vec<String>)
    ensures
        text::views(r@) == vector_names(vs@),
{
    let mut r: Vec<String> = Vec::new();
    let mut i: usize = 0;
    while i < vs.len()
        invariant
            i <= vs.len(),
            r@.len() == i,
            forall|j: int| 0 <= j < i ==> (#[trigger] r@[j])@ == vs@[j].0@,
        decreases vs.len() - i,
    {
        r.push(vs[i].0.clone());
        i += 1;
    }
    assert(text::views(r@) =~= vector_names(vs@));
    r
}

/// The places of the representations of a new entity that are to be computed.
pub fn representations_to_compute(p: &InsertPlan, schema: &CollectionSchema, metadata: &FieldMap) -> (r: Vec<usize>)
    ensures
        r@.map_values(|i: usize| i as int) == computed_places(
            schema.representations@,
            vector_names(p.vectors@),
            metadata@,
        ),
        forall|i: int| 0 <= i < r@.len() ==> (#[trigger] r@[i]) < schema.representations@.len(),
{
    let given = names_of_vectors(&p.vectors);
    let ghost gs = vector_names(p.vectors@);
    let ghost all = schema.representations@;
    let ghost f = |i: usize| i as int;
    let mut r: Vec<usize> = Vec::new();
    let mut i: usize = 0;
    proof {
        assert(r@.map_values(f) =~= computed_places(all.subrange(0, 0), gs, metadata@));
    }
    while i < schema.representations.len()
        invariant
            i <= schema.representations.len(),
            all == schema.representations@,
            text::views(given@) == gs,
            f == (|i: usize| i as int),
            r@.map_values(f) == computed_places(all.subrange(0, i as int), gs, metadata@),
            forall|k: int| 0 <= k < r@.len() ==> (#[trigger] r@[k]) < i,
        decreases schema.representations.len() - i,
    {
        let ghost before = r@.map_values(f);
        proof {
            let next = all.subrange(0, i as int + 1);
            assert(next.drop_last() =~= all.subrange(0, i as int));
            assert(next.last() == all[i as int]);
            lemma_field_set_empty(text::views(all[i as int].fields@), metadata@);
        }
        let repr = &schema.representations[i];
        if repr.fields.len() > 0 && !contains_text(&given, repr.name.as_str()) {
            let set = fields_to_encode(repr, metadata);
            assert(set@.len() == field_views(set@).len());
            if set.len() > 0 {
                r.push(i);
                proof {
                    assert(r@.map_values(f) =~= before.push(i as int));
                }
            }
        }
        i += 1;
    }
    assert(all.subrange(0, all.len() as int) =~= all);
    r
}

/// The error of a representation that is to be computed with nothing to compute it.
pub fn vectoriser_missing(repr: &StoredRepresentation, collection: &str) -> (e: EngineError)
    ensures
        e@ == ErrorView::InvalidQuery(
            "representation '"@ + repr.name@ + "' has FIELDS but no vectoriser registered for collection '"@
                + collection@ + "'"@,
        ),
{
    EngineError::InvalidQuery(
        cat5(
            "representation '",
            repr.name.as_str(),
            "' has FIELDS but no vectoriser registered for collection '",
            collection,
            "'",
        ),
    )
}

/// The representation with a vector that was computed from its fields. It is
/// composite where it has more than one.
pub fn computed_representation(repr: &StoredRepresentation, vector: VectorData, recipe_hash: [u8; 32]) -> (r:
    Representation)
    ensures
        r.name@ == repr.name@,
        r.repr_type == (if repr.fields@.len() > 1 {
            ReprType::Composite
        } else {
            ReprType::Atomic
        }),
        text::views(r.fields@) == text::views(repr.fields@),
        r.vector == vector,
        r.recipe_hash == recipe_hash,
        r.state == ReprState::Clean,
        r.computed_at == 0,
        r.model_version@ == Seq::<char>::empty(),
{
    let repr_type = if repr.fields.len() > 1 {
        ReprType::Composite
    } else {
        ReprType::Atomic
    };
    let empty = String::new();
    assert(empty@ =~= Seq::<char>::empty());
    Representation {
        name: repr.name.clone(),
        repr_type,
        fields: clone_texts(&repr.fields),
        vector,
        recipe_hash,
        state: ReprState::Clean,
        computed_at: 0,
        model_version: empty,
    }
}

/// Where a new vector is stored.
pub open spec fn placed(v: VectorData) -> LocationDescriptor {
    LocationDescriptor {
        tier: Tier::Fjall,
        state: LocState::Clean,
        version: 1,
        encoding: match v {
            VectorData::Sparse(_) => Encoding::Sparse,
            VectorData::Dense(_) => Encoding::Float32,
        },
        last_accessed: 0,
    }
}

/// Where the vectors of a new entity are stored, each under its place.
pub fn placements(e: &Entity) -> (r: Vec<(ReprKey, LocationDescriptor)>)
    ensures
        r@.len() == e.representations@.len(),
        forall|i: int|
            0 <= i < r@.len() ==> (#[trigger] r@[i]).0@ == (ReprKeyView { entity_id: e.id@, repr_index: i as u32 })
                && r@[i].1 == placed(e.representations@[i].vector),
{
    let mut r: Vec<(ReprKey, LocationDescriptor)> = Vec::new();
    let mut i: usize = 0;
    while i < e.representations.len()
        invariant
            i <= e.representations.len(),
            r@.len() == i,
            forall|j: int|
                0 <= j < i ==> (#[trigger] r@[j]).0@ == (ReprKeyView { entity_id: e.id@, repr_index: j as u32 })
                    && r@[j].1 == placed(e.representations@[j].vector),
        decreases e.representations.len() - i,
    {
        let encoding = match &e.representations[i].vector {
            VectorData::Sparse(_) => Encoding::Sparse,
            VectorData::Dense(_) => Encoding::Float32,
        };
        r.push(
            (
                ReprKey { entity_id: e.id.clone(), repr_index: i as u32 },
                LocationDescriptor {
                    tier: Tier::Fjall,
                    state: LocState::Clean,
                    version: 1,
                    encoding,
                    last_accessed: 0,
                },
            ),
        );
        i += 1;
    }
    r
}

/// Whether an index key belongs to a collection.
pub fn belongs_to(key: &str, collection: &str) -> (b: bool)
    ensures
        b == text::has_prefix(key@, collection@ + ":"@),
{
    let prefix = text::cat2(collection, ":");
    starts_with(key, prefix.as_str())
}

/// The names of the fields of an index.
pub open spec fn typed_names(fields: Seq<(String, FieldType)>) -> Seq<Seq<char>> {
    fields.map_values(|f: (String, FieldType)| f.0@)
}

/// Whether every name has a stored field.
pub open spec fn all_stored(names: Seq<Seq<char>>, m: Map<Seq<char>, Val>) -> bool {
    forall|i: int| 0 <= i < names.len() ==> m.contains_key(#[trigger] names[i])
}

/// The values under which an entity stands in an index: those of its fields, where
/// it has them all.
pub fn indexed_values(fields: &Vec<(String, FieldType)>, metadata: &FieldMap) -> (r: Option<Vec<Value>>)
    ensures
        match r {
            Some(v) => all_stored(typed_names(fields@), metadata@) && v@.len() == fields@.len() && forall|i: int|
                0 <= i < v@.len() ==> (#[trigger] v@[i])@ == metadata@[fields@[i].0@],
            None => !all_stored(typed_names(fields@), metadata@),
        },
{
    let ghost ns = typed_names(fields@);
    let mut v: Vec<Value> = Vec::new();
    let mut i: usize = 0;
    while i < fields.len()
        invariant
            i <= fields.len(),
            ns == typed_names(fields@),
            v@.len() == i,
            forall|j: int| 0 <= j < i ==> metadata@.contains_key(#[trigger] ns[j]),
            forall|j: int| 0 <= j < i ==> (#[trigger] v@[j])@ == metadata@[fields@[j].0@],
        decreases fields.len() - i,
    {
        assert(ns[i as int] == fields@[i as int].0@);
        match metadata.get(fields[i].0.as_str()) {
            Some(x) => {
                v.push(x.clone());
            },
            None => {
                return None;
            },
        }
        i += 1;
    }
    Some(v)
}

/// Whether edges are inferred for entities of a collection when they change.
pub open spec fn infers(types: Seq<EdgeType>, collection: Seq<char>) -> bool {
    exists|i: int|
        0 <= i < types.len() && (#[trigger] types[i]).inference_config.auto && types[i].from_collection@
            == collection
}

/// Whether edges are inferred for entities of a collection when they change.
pub fn wants_inference(types: &Vec<EdgeType>, collection: &str) -> (b: bool)
    ensures
        b == infers(types@, collection@),
{
    let mut i: usize = 0;
    while i < types.len()
        invariant
            i <= types.len(),
            forall|j: int|
                0 <= j < i ==> !((#[trigger] types@[j]).inference_config.auto && types@[j].from_collection@
                    == collection@),
        decreases types.len() - i,
    {
        if types[i].inference_config.auto && text_equal(types[i].from_collection.as_str(), collection) {
            return true;
        }
        i += 1;
    }
    false
}

/// What an INSERT reports.
pub fn inserted_entity(id: &LogicalId) -> (r: QueryResult)
    ensures
        result::is_message(r, "result"@, "Inserted entity '"@ + id@ + "'"@, "Fjall"@),
{
    message_result("result", cat3("Inserted entity '", id.as_str(), "'"), "Fjall")
}

/// What an INSERT stores under a name is the last value that it gives for the name.
pub proof fn lemma_insert_stores(fields: Seq<String>, values: Seq<Literal>, n: nat, i: int)
    requires
        n <= paired(fields, values),
        0 <= i < n,
        fields[i]@ != filter::id_field(),
        forall|j: int| i < j < n ==> (#[trigger] fields[j])@ != fields[i]@,
    ensures
        stored_fields(fields, values, n).contains_key(fields[i]@),
        stored_fields(fields, values, n)[fields[i]@] == values[i]@,
    decreases n,
{
    if i < n - 1 {
        lemma_insert_stores(fields, values, (n - 1) as nat, i);
        assert(fields[n - 1]@ != fields[i]@);
    }
}

/// An INSERT stores nothing but what it gives, and never the id.
pub proof fn lemma_insert_stores_only(fields: Seq<String>, values: Seq<Literal>, n: nat, k: Seq<char>)
    requires
        n <= paired(fields, values),
        stored_fields(fields, values, n).contains_key(k),
    ensures
        k != filter::id_field(),
        exists|i: int|
            0 <= i < n && (#[trigger] fields[i])@ == k && stored_fields(fields, values, n)[k] == values[i]@,
    decreases n,
{
    if n > 0 {
        let before = stored_fields(fields, values, (n - 1) as nat);
        if fields[n - 1]@ == k {
            if k == filter::id_field() {
                lemma_insert_stores_only(fields, values, (n - 1) as nat, k);
            }
        } else {
            lemma_insert_stores_only(fields, values, (n - 1) as nat, k);
            let i = choose|i: int| 0 <= i < n - 1 && (#[trigger] fields[i])@ == k && before[k] == values[i]@;
            assert(fields[i]@ == k);
        }
    }
}

} // verus!
