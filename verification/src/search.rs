//! SEARCH: what is looked for, and which hits are answered.

use vstd::prelude::*;
use vstd::string::*;

use crate::error::{EngineError, ErrorView};
use crate::fetch;
use crate::fetch::scoped_key;
use crate::filter::WhereClause;
use crate::float_bits;
use crate::float_bits::{double_less, double_of_single};
use crate::location::LocState;
use crate::result::{QueryMode, QueryResult};
use crate::rows;
use crate::rows::{build_columns, entity_to_row, FieldList, Row, RowView};
use crate::text;
use crate::text::{cat2, cat3, cat4, own, starts_with, text_equal};
use crate::types::{CollectionSchema, Entity, StoredRepresentation};
use crate::value::{ids_equal, literal_to_value, LogicalId, Value};

verus! {

/// Which indexes a SEARCH uses.
#[derive(Clone, Copy, PartialEq, Eq, Structural, Debug)]
pub enum SearchStrategy {
    Hnsw,
    Sparse,
    Hybrid,
    NaturalLanguage,
}

/// A scalar condition that narrows a SEARCH through a field index.
#[derive(Debug)]
pub struct PreFilter {
    pub index_name: String,
    pub clause: WhereClause,
}

/// A search that fetches more than it answers and scores again.
#[derive(Debug)]
pub struct TwoPass {
    pub first_pass_k: usize,
    pub use_binary_first_pass: bool,
}

/// A planned SEARCH. Vectors are the bits of singles, the threshold the bits of
/// a double; `confidence_shown` is the threshold as it is written out.
#[derive(Debug)]
pub struct SearchPlan {
    pub collection: String,
    pub fields: FieldList,
    pub dense_vector: Option<Vec<u32>>,
    pub sparse_vector: Option<Vec<(u32, u32)>>,
    pub pre_filter: Option<PreFilter>,
    pub k: usize,
    pub confidence_threshold: u64,
    pub confidence_shown: String,
    pub strategy: SearchStrategy,
    pub query_text: Option<String>,
    pub using_repr: Option<String>,
    pub hints: Vec<String>,
    pub two_pass: Option<TwoPass>,
}

/// The value that the pre-filter of a SEARCH looks up, if it has one.
/// `index_exists` says whether the index that it names is registered.
pub fn search_pre_filter(p: &SearchPlan, has_collection: bool, index_exists: bool) -> (r: Result<
    Option<Value>,
    EngineError,
>)
    ensures
        if !has_collection {
            r is Err && r->Err_0@ == ErrorView::CollectionNotFound(p.collection@)
        } else {
            match p.pre_filter {
                None => r is Ok && r->Ok_0 is None,
                Some(pf) => if !index_exists {
                    r is Err && r->Err_0@ == ErrorView::InvalidQuery(
                        "pre-filter index '"@ + pf.index_name@ + "' not found"@,
                    )
                } else {
                    match pf.clause {
                        WhereClause::Eq(_, lit) => r matches Ok(Some(v)) && v@ == lit@,
                        _ => r is Err && r->Err_0@ == ErrorView::InvalidQuery("pre-filter only supports Eq"@),
                    }
                },
            }
        },
{
    if !has_collection {
        return Err(EngineError::CollectionNotFound(p.collection.clone()));
    }
    match &p.pre_filter {
        None => Ok(None),
        Some(pf) => {
            if !index_exists {
                return Err(
                    EngineError::InvalidQuery(
                        cat3("pre-filter index '", pf.index_name.as_str(), "' not found"),
                    ),
                );
            }
            match &pf.clause {
                WhereClause::Eq(_, lit) => Ok(Some(literal_to_value(lit))),
                _ => Err(EngineError::InvalidQuery(own("pre-filter only supports Eq"))),
            }
        },
    }
}

/// How many hits to ask an index for: four times as many where hits will be
/// filtered afterwards.
pub open spec fn fetch_count(p: SearchPlan) -> int {
    if p.pre_filter is Some {
        p.k * 4
    } else {
        p.k as int
    }
}

/// How many hits to ask an index for.
pub fn search_fetch_k(p: &SearchPlan) -> (n: usize)
    requires
        fetch_count(*p) <= usize::MAX,
    ensures
        n == fetch_count(*p),
{
    if p.pre_filter.is_some() {
        p.k * 4
    } else {
        p.k
    }
}

/// The place of the first key that begins with a prefix.
pub open spec fn first_scoped(keys: Seq<Seq<char>>, prefix: Seq<char>) -> Option<int>
    decreases keys.len(),
{
    if keys.len() == 0 {
        None
    } else {
        match first_scoped(keys.drop_last(), prefix) {
            Some(i) => Some(i),
            None => if text::has_prefix(keys.last(), prefix) {
                Some(keys.len() - 1)
            } else {
                None
            },
        }
    }
}

/// The place of the first key that begins with a prefix.
pub fn find_scoped(keys: &Vec<String>, prefix: &str) -> (r: Option<usize>)
    ensures
        match r {
            Some(i) => first_scoped(text::views(keys@), prefix@) == Some(i as int) && i < keys@.len()
                && text::has_prefix(keys@[i as int]@, prefix@),
            None => first_scoped(text::views(keys@), prefix@) is None,
        },
{
    let ghost all = text::views(keys@);
    let mut i: usize = 0;
    while i < keys.len()
        invariant
            i <= keys.len(),
            all == text::views(keys@),
            first_scoped(all.subrange(0, i as int), prefix@) is None,
        decreases keys.len() - i,
    {
        proof {
            let next = all.subrange(0, i as int + 1);
            assert(next.drop_last() =~= all.subrange(0, i as int));
            assert(next.last() == keys@[i as int]@);
        }
        if starts_with(keys[i].as_str(), prefix) {
            proof {
                lemma_first_scoped_grows(all, i as int + 1, prefix@);
            }
            return Some(i);
        }
        i += 1;
    }
    assert(all.subrange(0, all.len() as int) =~= all);
    None
}

proof fn lemma_first_scoped_grows(keys: Seq<Seq<char>>, n: int, prefix: Seq<char>)
    requires
        0 <= n <= keys.len(),
        first_scoped(keys.subrange(0, n), prefix) is Some,
    ensures
        first_scoped(keys, prefix) == first_scoped(keys.subrange(0, n), prefix),
    decreases keys.len(),
{
    if n == keys.len() {
        assert(keys.subrange(0, n) =~= keys);
    } else {
        assert(keys.drop_last().subrange(0, n) =~= keys.subrange(0, n));
        lemma_first_scoped_grows(keys.drop_last(), n, prefix);
    }
}

/// The prefix of the keys of a collection's indexes.
pub open spec fn scope(collection: Seq<char>) -> Seq<char> {
    collection + ":"@
}

/// What to ask of the indexes.
#[derive(Debug)]
pub enum SearchAction {
    /// Search a vector index for the dense vector of the plan.
    Dense { key: String, k: usize },
    /// Search a sparse index for the sparse vector of the plan.
    Sparse { key: String, k: usize },
    /// Search both and fuse the ranks.
    Hybrid { dense_key: String, sparse_key: String, k: usize },
    /// Encode the query text with the vectoriser of a representation, and
    /// search its vector index.
    Encode { repr: String, k: usize },
}

/// How many hits to ask a vector index for.
pub open spec fn dense_count(p: SearchPlan) -> int {
    match p.two_pass {
        Some(tp) => tp.first_pass_k as int,
        None => fetch_count(p),
    }
}

/// The first representation that is computed from fields and is not sparse.
pub open spec fn managed_dense(reprs: Seq<StoredRepresentation>) -> Option<Seq<char>>
    decreases reprs.len(),
{
    if reprs.len() == 0 {
        None
    } else {
        match managed_dense(reprs.drop_last()) {
            Some(n) => Some(n),
            None => if reprs.last().fields@.len() > 0 && !reprs.last().sparse {
                Some(reprs.last().name@)
            } else {
                None
            },
        }
    }
}

fn find_managed_dense(reprs: &Vec<StoredRepresentation>) -> (r: Option<String>)
    ensures
        match r {
            Some(n) => managed_dense(reprs@) == Some(n@),
            None => managed_dense(reprs@) is None,
        },
{
    let mut i: usize = 0;
    while i < reprs.len()
        invariant
            i <= reprs.len(),
            managed_dense(reprs@.subrange(0, i as int)) is None,
        decreases reprs.len() - i,
    {
        proof {
            let next = reprs@.subrange(0, i as int + 1);
            assert(next.drop_last() =~= reprs@.subrange(0, i as int));
            assert(next.last() == reprs@[i as int]);
        }
        if reprs[i].fields.len() > 0 && !reprs[i].sparse {
            proof {
                lemma_managed_dense_grows(reprs@, i as int + 1);
            }
            return Some(reprs[i].name.clone());
        }
        i += 1;
    }
    assert(reprs@.subrange(0, reprs@.len() as int) =~= reprs@);
    None
}

proof fn lemma_managed_dense_grows(reprs: Seq<StoredRepresentation>, n: int)
    requires
        0 <= n <= reprs.len(),
        managed_dense(reprs.subrange(0, n)) is Some,
    ensures
        managed_dense(reprs) == managed_dense(reprs.subrange(0, n)),
    decreases reprs.len(),
{
    if n == reprs.len() {
        assert(reprs.subrange(0, n) =~= reprs);
    } else {
        assert(reprs.drop_last().subrange(0, n) =~= reprs.subrange(0, n));
        lemma_managed_dense_grows(reprs.drop_last(), n);
    }
}

/// The representation that a text query is encoded for.
pub open spec fn text_repr(p: SearchPlan, schema: CollectionSchema) -> Option<Seq<char>> {
    match p.using_repr {
        Some(n) => Some(n@),
        None => managed_dense(schema.representations@),
    }
}

/// What [`search_action`] answers.
pub open spec fn action_of(
    p: SearchPlan,
    schema: Option<CollectionSchema>,
    dense: Seq<Seq<char>>,
    sparse: Seq<Seq<char>>,
    r: Result<SearchAction, EngineError>,
) -> bool {
    let d = first_scoped(dense, scope(p.collection@));
    let s = first_scoped(sparse, scope(p.collection@));
    match p.strategy {
        SearchStrategy::Hnsw => if p.dense_vector is None {
            r is Err && r->Err_0@ == ErrorView::InvalidQuery("HNSW requires dense vector"@)
        } else if d is None {
            r is Err && r->Err_0@ == ErrorView::InvalidQuery("no HNSW index for collection"@)
        } else {
            r matches Ok(SearchAction::Dense { key, k }) && key@ == dense[d->0] && k == dense_count(p)
        },
        SearchStrategy::Sparse => if p.sparse_vector is None {
            r is Err && r->Err_0@ == ErrorView::InvalidQuery("Sparse requires sparse vector"@)
        } else if s is None {
            r is Err && r->Err_0@ == ErrorView::InvalidQuery("no SparseIndex for collection"@)
        } else {
            r matches Ok(SearchAction::Sparse { key, k }) && key@ == sparse[s->0] && k == fetch_count(p)
        },
        SearchStrategy::Hybrid => if p.dense_vector is None {
            r is Err && r->Err_0@ == ErrorView::InvalidQuery("Hybrid requires dense vector"@)
        } else if p.sparse_vector is None {
            r is Err && r->Err_0@ == ErrorView::InvalidQuery("Hybrid requires sparse vector"@)
        } else if d is None {
            r is Err && r->Err_0@ == ErrorView::InvalidQuery("no HNSW index for collection"@)
        } else if s is None {
            r is Err && r->Err_0@ == ErrorView::InvalidQuery("no SparseIndex for collection"@)
        } else {
            r matches Ok(SearchAction::Hybrid { dense_key, sparse_key, k }) && dense_key@ == dense[d->0]
                && sparse_key@ == sparse[s->0] && k == fetch_count(p)
        },
        SearchStrategy::NaturalLanguage => if p.query_text is None {
            r is Err && r->Err_0@ == ErrorView::InvalidQuery("NaturalLanguage strategy requires query_text"@)
        } else {
            match schema {
                None => r is Err && r->Err_0@ == ErrorView::CollectionNotFound(p.collection@),
                Some(sc) => match text_repr(p, sc) {
                    None => r is Err && r->Err_0@ == ErrorView::InvalidQuery(
                        "no managed dense representation found for natural language SEARCH"@,
                    ),
                    Some(n) => r matches Ok(SearchAction::Encode { repr, k }) && repr@ == n && k
                        == dense_count(p),
                },
            }
        },
    }
}

fn invalid(s: &str) -> (e: EngineError)
    ensures
        e@ == ErrorView::InvalidQuery(s@),
{
    EngineError::InvalidQuery(own(s))
}

/// What to ask of the indexes, given the keys of those that are registered.
pub fn search_action(
    p: &SearchPlan,
    schema: Option<&CollectionSchema>,
    dense_keys: &Vec<String>,
    sparse_keys: &Vec<String>,
) -> (r: Result<SearchAction, EngineError>)
    requires
        fetch_count(*p) <= usize::MAX,
    ensures
        action_of(
            *p,
            match schema {
                Some(s) => Some(*s),
                None => None,
            },
            text::views(dense_keys@),
            text::views(sparse_keys@),
            r,
        ),
{
    let k = search_fetch_k(p);
    let dense_k = match &p.two_pass {
        Some(tp) => tp.first_pass_k,
        None => k,
    };
    let prefix = cat2(p.collection.as_str(), ":");
    match p.strategy {
        SearchStrategy::Hnsw => {
            if p.dense_vector.is_none() {
                return Err(invalid("HNSW requires dense vector"));
            }
            match find_scoped(dense_keys, prefix.as_str()) {
                Some(i) => Ok(SearchAction::Dense { key: dense_keys[i].clone(), k: dense_k }),
                None => Err(invalid("no HNSW index for collection")),
            }
        },
        SearchStrategy::Sparse => {
            if p.sparse_vector.is_none() {
                return Err(invalid("Sparse requires sparse vector"));
            }
            match find_scoped(sparse_keys, prefix.as_str()) {
                Some(i) => Ok(SearchAction::Sparse { key: sparse_keys[i].clone(), k }),
                None => Err(invalid("no SparseIndex for collection")),
            }
        },
        SearchStrategy::Hybrid => {
            if p.dense_vector.is_none() {
                return Err(invalid("Hybrid requires dense vector"));
            }
            if p.sparse_vector.is_none() {
                return Err(invalid("Hybrid requires sparse vector"));
            }
            match find_scoped(dense_keys, prefix.as_str()) {
                None => Err(invalid("no HNSW index for collection")),
                Some(i) => match find_scoped(sparse_keys, prefix.as_str()) {
                    None => Err(invalid("no SparseIndex for collection")),
                    Some(j) => Ok(
                        SearchAction::Hybrid {
                            dense_key: dense_keys[i].clone(),
                            sparse_key: sparse_keys[j].clone(),
                            k,
                        },
                    ),
                },
            }
        },
        SearchStrategy::NaturalLanguage => {
            if p.query_text.is_none() {
                return Err(invalid("NaturalLanguage strategy requires query_text"));
            }
            let sc = match schema {
                Some(s) => s,
                None => return Err(EngineError::CollectionNotFound(p.collection.clone())),
            };
            let name = match &p.using_repr {
                Some(n) => Some(n.clone()),
                None => find_managed_dense(&sc.representations),
            };
            match name {
                Some(repr) => Ok(SearchAction::Encode { repr, k: dense_k }),
                None => Err(invalid("no managed dense representation found for natural language SEARCH")),
            }
        },
    }
}

/// The vector index that an encoded text query is searched in, given whether the
/// representation has a vectoriser, whether that vectoriser made a dense vector,
/// and whether the index is registered.
pub fn text_search_key(
    p: &SearchPlan,
    repr: &str,
    has_vectoriser: bool,
    dense: bool,
    has_index: bool,
) -> (r: Result<String, EngineError>)
    ensures
        if !has_vectoriser {
            r is Err && r->Err_0@ == ErrorView::InvalidQuery(
                "no vectoriser registered for "@ + p.collection@ + ":"@ + repr@,
            )
        } else if !dense {
            r is Err && r->Err_0@ == ErrorView::InvalidQuery(
                "natural language SEARCH requires a dense vectoriser"@,
            )
        } else if !has_index {
            r is Err && r->Err_0@ == ErrorView::InvalidQuery(
                "no HNSW index for "@ + fetch::scoped(p.collection@, repr@),
            )
        } else {
            r is Ok && r->Ok_0@ == fetch::scoped(p.collection@, repr@)
        },
{
    if !has_vectoriser {
        return Err(
            EngineError::InvalidQuery(cat4("no vectoriser registered for ", p.collection.as_str(), ":", repr)),
        );
    }
    if !dense {
        return Err(invalid("natural language SEARCH requires a dense vectoriser"));
    }
    let key = scoped_key(p.collection.as_str(), repr);
    if !has_index {
        return Err(EngineError::InvalidQuery(cat2("no HNSW index for ", key.as_str())));
    }
    Ok(key)
}

/// An entity that an index found, with its score as the bits of a single.
#[derive(Debug)]
pub struct Hit {
    pub id: LogicalId,
    pub score: u32,
}

/// The model of a [`Hit`].
pub struct HitView {
    pub id: Seq<char>,
    pub score: u32,
}

impl View for Hit {
    type V = HitView;

    open spec fn view(&self) -> HitView {
        HitView { id: self.id@, score: self.score }
    }
}

impl Clone for Hit {
    fn clone(&self) -> (r: Self)
        ensures
            r == *self,
    {
        Hit { id: self.id.clone(), score: self.score }
    }
}

/// The views of a sequence of hits.
pub open spec fn hit_views(s: Seq<Hit>) -> Seq<HitView> {
    s.map_values(|h: Hit| h@)
}

/// Whether a score reaches the threshold of a plan; a threshold that is not
/// positive is none.
pub open spec fn reaches(score: u32, threshold: u64) -> bool {
    !float_bits::f64_lt(0, threshold) || float_bits::f64_le(threshold, float_bits::f32_to_f64(score))
}

/// Whether a score reaches the threshold of a plan.
pub fn score_reaches(score: u32, threshold: u64) -> (r: bool)
    ensures
        r == reaches(score, threshold),
{
    let s = double_of_single(score);
    !double_less(0, threshold) || double_less(threshold, s) || float_bits::double_equal(threshold, s)
}

/// Those hits that reach the threshold, in order.
pub open spec fn reaching(hits: Seq<HitView>, threshold: u64) -> Seq<HitView>
    decreases hits.len(),
{
    if hits.len() == 0 {
        Seq::empty()
    } else {
        let before = reaching(hits.drop_last(), threshold);
        if reaches(hits.last().score, threshold) {
            before.push(hits.last())
        } else {
            before
        }
    }
}

/// The hits of a vector index that a SEARCH goes on with: after a two-pass
/// search the first `k`, and of those the ones that reach the threshold.
pub open spec fn dense_hits(hits: Seq<HitView>, p: SearchPlan) -> Seq<HitView> {
    reaching(
        if p.two_pass is Some {
            rows::limited(hits, Some(p.k))
        } else {
            hits
        },
        p.confidence_threshold,
    )
}

/// The hits of a vector index that a SEARCH goes on with.
pub fn accept_dense(hits: &Vec<Hit>, p: &SearchPlan) -> (r: Vec<Hit>)
    ensures
        hit_views(r@) == dense_hits(hit_views(hits@), *p),
{
    let n: usize = if p.two_pass.is_some() && p.k < hits.len() {
        p.k
    } else {
        hits.len()
    };
    let ghost all = hit_views(hits@);
    let ghost kept = if p.two_pass is Some {
        rows::limited(all, Some(p.k))
    } else {
        all
    };
    let mut r: Vec<Hit> = Vec::new();
    let mut i: usize = 0;
    proof {
        assert(kept =~= all.subrange(0, n as int));
        assert(hit_views(r@) =~= reaching(all.subrange(0, 0), p.confidence_threshold));
    }
    while i < n
        invariant
            i <= n,
            n <= hits.len(),
            all == hit_views(hits@),
            hit_views(r@) == reaching(all.subrange(0, i as int), p.confidence_threshold),
        decreases n - i,
    {
        let ghost before = hit_views(r@);
        proof {
            let next = all.subrange(0, i as int + 1);
            assert(next.drop_last() =~= all.subrange(0, i as int));
            assert(next.last() == hits@[i as int]@);
        }
        if score_reaches(hits[i].score, p.confidence_threshold) {
            r.push(hits[i].clone());
            proof {
                assert(hit_views(r@) =~= before.push(hits@[i as int]@));
            }
        }
        i += 1;
    }
    r
}

/// The place of the representation that a key of a collection's index names.
pub open spec fn repr_named(reprs: Seq<StoredRepresentation>, collection: Seq<char>, key: Seq<char>) -> Option<int>
    decreases reprs.len(),
{
    if reprs.len() == 0 {
        None
    } else {
        match repr_named(reprs.drop_last(), collection, key) {
            Some(i) => Some(i),
            None => if fetch::scoped(collection, reprs.last().name@) == key {
                Some(reprs.len() - 1)
            } else {
                None
            },
        }
    }
}

fn find_repr_named(reprs: &Vec<StoredRepresentation>, collection: &str, key: &str) -> (r: Option<usize>)
    ensures
        match r {
            Some(i) => repr_named(reprs@, collection@, key@) == Some(i as int) && i < reprs@.len(),
            None => repr_named(reprs@, collection@, key@) is None,
        },
{
    let mut i: usize = 0;
    while i < reprs.len()
        invariant
            i <= reprs.len(),
            repr_named(reprs@.subrange(0, i as int), collection@, key@) is None,
        decreases reprs.len() - i,
    {
        proof {
            let next = reprs@.subrange(0, i as int + 1);
            assert(next.drop_last() =~= reprs@.subrange(0, i as int));
            assert(next.last() == reprs@[i as int]);
        }
        let k = scoped_key(collection, reprs[i].name.as_str());
        if text_equal(k.as_str(), key) {
            proof {
                lemma_repr_named_grows(reprs@, i as int + 1, collection@, key@);
            }
            return Some(i);
        }
        i += 1;
    }
    assert(reprs@.subrange(0, reprs@.len() as int) =~= reprs@);
    None
}

proof fn lemma_repr_named_grows(reprs: Seq<StoredRepresentation>, n: int, collection: Seq<char>, key: Seq<char>)
    requires
        0 <= n <= reprs.len(),
        repr_named(reprs.subrange(0, n), collection, key) is Some,
    ensures
        repr_named(reprs, collection, key) == repr_named(reprs.subrange(0, n), collection, key),
    decreases reprs.len(),
{
    if n == reprs.len() {
        assert(reprs.subrange(0, n) =~= reprs);
    } else {
        assert(reprs.drop_last().subrange(0, n) =~= reprs.subrange(0, n));
        lemma_repr_named_grows(reprs.drop_last(), n, collection, key);
    }
}

/// The place of the representation whose staleness excludes hits: the one that
/// the collection's first index of the strategy's kind belongs to.
pub open spec fn searched_index(
    p: SearchPlan,
    schema: CollectionSchema,
    dense: Seq<Seq<char>>,
    sparse: Seq<Seq<char>>,
) -> Option<int> {
    let keys = if p.strategy == SearchStrategy::Sparse {
        sparse
    } else {
        dense
    };
    match first_scoped(keys, scope(p.collection@)) {
        Some(i) => repr_named(schema.representations@, p.collection@, keys[i]),
        None => None,
    }
}

/// The place of the representation whose staleness excludes hits.
pub fn searched_repr_index(
    p: &SearchPlan,
    schema: &CollectionSchema,
    dense_keys: &Vec<String>,
    sparse_keys: &Vec<String>,
) -> (r: Option<u32>)
    ensures
        r == (match searched_index(*p, *schema, text::views(dense_keys@), text::views(sparse_keys@)) {
            Some(i) => Some(i as u32),
            None => None,
        }),
{
    let prefix = cat2(p.collection.as_str(), ":");
    let keys = match p.strategy {
        SearchStrategy::Sparse => sparse_keys,
        _ => dense_keys,
    };
    match find_scoped(keys, prefix.as_str()) {
        None => None,
        Some(i) => match find_repr_named(&schema.representations, p.collection.as_str(), keys[i].as_str()) {
            Some(j) => Some(j as u32),
            None => None,
        },
    }
}

/// A hit with what the location table says of its representation.
#[derive(Debug)]
pub struct Candidate {
    pub hit: Hit,
    pub state: Option<LocState>,
}

/// Whether ids hold `x`.
pub fn contains_id(ids: &Vec<LogicalId>, x: &LogicalId) -> (b: bool)
    ensures
        b == crate::field_index::id_views(ids@).contains(x@),
{
    let ghost all = crate::field_index::id_views(ids@);
    let mut i: usize = 0;
    while i < ids.len()
        invariant
            i <= ids.len(),
            all == crate::field_index::id_views(ids@),
            forall|j: int| 0 <= j < i ==> all[j] != x@,
        decreases ids.len() - i,
    {
        if ids_equal(&ids[i], x) {
            assert(all[i as int] == x@);
            return true;
        }
        assert(all[i as int] != x@);
        i += 1;
    }
    false
}

/// Whether a hit may be answered: its representation is not being replaced, and
/// it is among the ids that the pre-filter allows.
pub open spec fn answerable(c: Candidate, allowed: Option<Seq<Seq<char>>>) -> bool {
    &&& c.state != Some(LocState::Dirty)
    &&& c.state != Some(LocState::Recomputing)
    &&& match allowed {
        Some(ids) => ids.contains(c.hit@.id),
        None => true,
    }
}

/// Those hits that may be answered, in order.
pub open spec fn answerable_hits(cs: Seq<Candidate>, allowed: Option<Seq<Seq<char>>>) -> Seq<HitView>
    decreases cs.len(),
{
    if cs.len() == 0 {
        Seq::empty()
    } else {
        let before = answerable_hits(cs.drop_last(), allowed);
        if answerable(cs.last(), allowed) {
            before.push(cs.last().hit@)
        } else {
            before
        }
    }
}

/// The model of an optional list of ids.
pub open spec fn opt_ids(o: Option<&Vec<LogicalId>>) -> Option<Seq<Seq<char>>> {
    match o {
        Some(v) => Some(crate::field_index::id_views(v@)),
        None => None,
    }
}

/// The hits that a SEARCH answers: the first `k` that may be answered.
pub fn answered_hits(candidates: &Vec<Candidate>, allowed: Option<&Vec<LogicalId>>, k: usize) -> (r: Vec<Hit>)
    ensures
        hit_views(r@) == rows::limited(answerable_hits(candidates@, opt_ids(allowed)), Some(k)),
{
    let ghost ids = opt_ids(allowed);
    let mut r: Vec<Hit> = Vec::new();
    let mut i: usize = 0;
    proof {
        assert(hit_views(r@) =~= answerable_hits(candidates@.subrange(0, 0), ids));
    }
    while i < candidates.len()
        invariant
            i <= candidates.len(),
            ids == opt_ids(allowed),
            hit_views(r@) == answerable_hits(candidates@.subrange(0, i as int), ids),
        decreases candidates.len() - i,
    {
        let ghost before = hit_views(r@);
        let c = &candidates[i];
        proof {
            let next = candidates@.subrange(0, i as int + 1);
            assert(next.drop_last() =~= candidates@.subrange(0, i as int));
            assert(next.last() == *c);
        }
        let current = match c.state {
            Some(LocState::Dirty) => false,
            Some(LocState::Recomputing) => false,
            _ => true,
        };
        let permitted = match allowed {
            Some(v) => contains_id(v, &c.hit.id),
            None => true,
        };
        if current && permitted {
            r.push(c.hit.clone());
            proof {
                assert(hit_views(r@) =~= before.push(c.hit@));
            }
        }
        i += 1;
    }
    assert(candidates@.subrange(0, candidates@.len() as int) =~= candidates@);
    let ghost full = hit_views(r@);
    r.truncate(k);
    assert(hit_views(r@) =~= rows::limited(full, Some(k)));
    r
}

/// The row of a hit whose entity is still stored.
pub open spec fn hit_row(h: HitView, e: Entity, fields: FieldList) -> RowView {
    RowView { values: rows::projected(e.id@, e.metadata@, fields), score: Some(h.score) }
}

/// The rows of those hits whose entities are still stored, in order.
pub open spec fn hit_rows(hits: Seq<HitView>, found: Seq<Option<Entity>>, fields: FieldList) -> Seq<RowView>
    decreases hits.len(),
{
    if hits.len() == 0 {
        Seq::empty()
    } else {
        let before = hit_rows(hits.drop_last(), found.drop_last(), fields);
        match found.last() {
            Some(e) => before.push(hit_row(hits.last(), e, fields)),
            None => before,
        }
    }
}

/// The answer of a SEARCH: a row for each hit whose entity is still stored.
pub fn search_answer(hits: &Vec<Hit>, found: &Vec<Option<Entity>>, p: &SearchPlan) -> (r: QueryResult)
    requires
        hits@.len() == found@.len(),
    ensures
        rows::row_views(r.rows@) == hit_rows(hit_views(hits@), found@, p.fields),
        match p.fields {
            FieldList::Named(names) => text::views(r.columns@) == rows::named_columns(text::views(names@)),
            FieldList::All => rows::all_columns(r.rows@, text::views(r.columns@)),
        },
        r.entities_scanned == hits@.len(),
        r.mode == QueryMode::Probabilistic,
        r.tier@ == "Ram"@,
{
    let ghost all = hit_views(hits@);
    let mut rows: Vec<Row> = Vec::new();
    let mut i: usize = 0;
    proof {
        assert(rows::row_views(rows@) =~= hit_rows(all.subrange(0, 0), found@.subrange(0, 0), p.fields));
    }
    while i < hits.len()
        invariant
            i <= hits.len(),
            hits@.len() == found@.len(),
            all == hit_views(hits@),
            rows::row_views(rows@) == hit_rows(
                all.subrange(0, i as int),
                found@.subrange(0, i as int),
                p.fields,
            ),
        decreases hits.len() - i,
    {
        let ghost before = rows::row_views(rows@);
        proof {
            let next = all.subrange(0, i as int + 1);
            assert(next.drop_last() =~= all.subrange(0, i as int));
            assert(next.last() == hits@[i as int]@);
            let f = found@.subrange(0, i as int + 1);
            assert(f.drop_last() =~= found@.subrange(0, i as int));
            assert(f.last() == found@[i as int]);
        }
        if let Some(e) = &found[i] {
            let mut row = entity_to_row(e, &p.fields);
            row.score = Some(hits[i].score);
            rows.push(row);
            proof {
                assert(rows::row_views(rows@) =~= before.push(hit_row(hits@[i as int]@, *e, p.fields)));
            }
        }
        i += 1;
    }
    assert(all.subrange(0, all.len() as int) =~= all);
    assert(found@.subrange(0, found@.len() as int) =~= found@);
    let columns = build_columns(&rows, &p.fields);
    QueryResult {
        columns,
        rows,
        entities_scanned: hits.len(),
        mode: QueryMode::Probabilistic,
        tier: own("Ram"),
    }
}

} // verus!
