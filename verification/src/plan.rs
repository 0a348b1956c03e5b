//! Planned statements, and what EXPLAIN says of them.

use vstd::prelude::*;
use vstd::string::*;

use crate::collection::CreateCollectionPlan;
use crate::confirm::ConfirmPlan;
use crate::fetch::{FetchPlan, FetchStrategy};
use crate::fields::FieldMap;
use crate::graph::{CreateEdgeTypePlan, DeleteEdgePlan, InsertEdgePlan};
use crate::infer::InferPlan;
use crate::insert::InsertPlan;
use crate::join::{JoinClause, JoinPlan, JoinType};
use crate::result::{QueryMode, QueryResult};
use crate::rows;
use crate::rows::{OrderByClause, Row, RowView, SortDirection};
use crate::search;
use crate::search::{find_scoped, SearchPlan, SearchStrategy};
use crate::text;
use crate::text::{cat2, cat3, cat4, cat5, decimal_usize, join, own};
use crate::traverse::{EdgeDirection, TraverseMatchPlan, TraversePlan};
use crate::update::{DeletePlan, UpdatePlan};
use crate::value::{Val, Value};

verus! {

/// A planned statement.
#[derive(Debug)]
pub enum Plan {
    CreateCollection(CreateCollectionPlan),
    Insert(InsertPlan),
    Fetch(FetchPlan),
    Search(SearchPlan),
    Explain(Box<Plan>),
    CreateEdgeType(CreateEdgeTypePlan),
    InsertEdge(InsertEdgePlan),
    DeleteEdge(DeleteEdgePlan),
    Traverse(TraversePlan),
    CreateAffinityGroup(AffinityPlan),
    AlterEntityDropAffinity(EntityPlan),
    Demote(TierPlan),
    Promote(TierPlan),
    DeleteEntity(DeletePlan),
    ExplainTiers(CollectionPlan),
    UpdateEntity(UpdatePlan),
    Infer(InferPlan),
    ConfirmEdge(ConfirmPlan),
    ExplainHistory(HistoryPlan),
    DropCollection(DropPlan),
    DropEdgeType(DropPlan),
    Join(JoinPlan),
    TraverseMatch(TraverseMatchPlan),
}

/// A planned CREATE AFFINITY GROUP.
#[derive(Debug)]
pub struct AffinityPlan {
    pub name: String,
}

/// A statement on one entity.
#[derive(Debug)]
pub struct EntityPlan {
    pub entity_id: String,
}

/// A planned DEMOTE or PROMOTE.
#[derive(Debug)]
pub struct TierPlan {
    pub collection: String,
    pub entity_id: String,
}

/// A statement on one collection.
#[derive(Debug)]
pub struct CollectionPlan {
    pub collection: String,
}

/// A planned EXPLAIN HISTORY.
#[derive(Debug)]
pub struct HistoryPlan {
    pub entity_id: String,
    pub limit: Option<usize>,
}

/// A planned DROP.
#[derive(Debug)]
pub struct DropPlan {
    pub name: String,
}

/// The collection that the cost of a plan depends on.
pub open spec fn costed_collection(p: Plan) -> Option<Seq<char>> {
    match p {
        Plan::Fetch(p) => Some(p.collection@),
        Plan::Search(p) => Some(p.collection@),
        Plan::Insert(p) => Some(p.collection@),
        Plan::DeleteEntity(p) => Some(p.collection@),
        Plan::UpdateEntity(p) => Some(p.collection@),
        Plan::Demote(p) => Some(p.collection@),
        Plan::Promote(p) => Some(p.collection@),
        Plan::ExplainTiers(p) => Some(p.collection@),
        Plan::Join(p) => Some(p.from_collection@),
        _ => None,
    }
}

/// The collection that the cost of a plan depends on.
pub fn plan_collection_name(plan: &Plan) -> (r: Option<&str>)
    ensures
        match r {
            Some(s) => costed_collection(*plan) == Some(s@),
            None => costed_collection(*plan) is None,
        },
{
    match plan {
        Plan::Fetch(p) => Some(p.collection.as_str()),
        Plan::Search(p) => Some(p.collection.as_str()),
        Plan::Insert(p) => Some(p.collection.as_str()),
        Plan::DeleteEntity(p) => Some(p.collection.as_str()),
        Plan::UpdateEntity(p) => Some(p.collection.as_str()),
        Plan::Demote(p) => Some(p.collection.as_str()),
        Plan::Promote(p) => Some(p.collection.as_str()),
        Plan::ExplainTiers(p) => Some(p.collection.as_str()),
        Plan::Join(p) => Some(p.from_collection.as_str()),
        _ => None,
    }
}

/// The size of a collection, for its cost: that of its first vector index, where it has
/// one, or else the number of its entities.
pub fn collection_size(index_keys: &Vec<String>, index_sizes: &Vec<usize>, collection: &str, entities: usize) -> (n:
    usize)
    requires
        index_sizes.len() == index_keys.len(),
    ensures
        n == (match search::first_scoped(text::views(index_keys@), collection@ + ":"@) {
            Some(i) => index_sizes@[i],
            None => entities,
        }),
{
    let prefix = cat2(collection, ":");
    match find_scoped(index_keys, prefix.as_str()) {
        Some(i) => index_sizes[i],
        None => entities,
    }
}

/// A property and its value.
pub type Prop = (Seq<char>, Seq<char>);

/// The view of properties.
pub open spec fn prop_views(s: Seq<(String, String)>) -> Seq<Prop> {
    s.map_values(|p: (String, String)| (p.0@, p.1@))
}

/// The mode and the verb of a statement that is answered exactly.
pub open spec fn exact(verb: Seq<char>) -> Seq<Prop> {
    seq![("mode"@, "Deterministic"@), ("verb"@, verb)]
}

/// The text of a term of ORDER BY.
pub open spec fn order_text(c: OrderByClause) -> Seq<char> {
    c.field@ + " "@ + match c.direction {
        SortDirection::Asc => "ASC"@,
        SortDirection::Desc => "DESC"@,
    }
}

/// The properties of a FETCH.
pub open spec fn fetch_props(p: FetchPlan) -> Seq<Prop> {
    let way = match p.strategy {
        FetchStrategy::FullScan => seq![("strategy"@, "FullScan"@), ("tier"@, "Fjall"@)],
        FetchStrategy::FieldIndexLookup(n) => seq![
            ("strategy"@, "FieldIndexLookup ("@ + n@ + ")"@),
            ("tier"@, "FieldIndex"@),
        ],
        FetchStrategy::FieldIndexRange(n) => seq![
            ("strategy"@, "FieldIndexRange ("@ + n@ + ")"@),
            ("tier"@, "FieldIndex"@),
        ],
    };
    let order = if p.order_by@.len() > 0 {
        seq![
            ("order_by"@, text::joined(p.order_by@.map_values(|c: OrderByClause| order_text(c)), ", "@)),
        ]
    } else {
        Seq::empty()
    };
    let limit = match p.limit {
        Some(n) => seq![("limit"@, text::dec(n as nat))],
        None => Seq::empty(),
    };
    exact("FETCH"@).push(("collection"@, p.collection@)) + way + order + limit + hint_props(p.hints@)
}

/// The hints of a statement, as they are written out.
pub open spec fn hint_props(hints: Seq<String>) -> Seq<Prop> {
    if hints.len() > 0 {
        seq![("hints"@, text::joined(text::views(hints), ", "@))]
    } else {
        Seq::empty()
    }
}

/// The name of the way in which a SEARCH is answered.
pub open spec fn strategy_name(s: SearchStrategy) -> Seq<char> {
    match s {
        SearchStrategy::Hnsw => "HnswSearch"@,
        SearchStrategy::Sparse => "SparseSearch"@,
        SearchStrategy::Hybrid => "HybridSearch"@,
        SearchStrategy::NaturalLanguage => "NaturalLanguageSearch"@,
    }
}

/// The text of a truth value.
pub open spec fn bool_text(b: bool) -> Seq<char> {
    if b {
        "true"@
    } else {
        "false"@
    }
}

/// The properties of a SEARCH.
pub open spec fn search_props(p: SearchPlan) -> Seq<Prop> {
    let head = seq![
        ("mode"@, "Probabilistic"@),
        ("verb"@, "SEARCH"@),
        ("collection"@, p.collection@),
        ("tier"@, "Ram"@),
        ("strategy"@, strategy_name(p.strategy)),
        ("k"@, text::dec(p.k as nat)),
        ("confidence_threshold"@, p.confidence_shown@),
    ];
    let pre = match p.pre_filter {
        Some(f) => seq![("pre_filter"@, "ScalarPreFilter ("@ + f.index_name@ + ")"@)],
        None => Seq::empty(),
    };
    let two = match p.two_pass {
        Some(t) => seq![
            (
                "two_pass"@,
                "first_pass_k="@ + text::dec(t.first_pass_k as nat) + ", binary="@ + bool_text(
                    t.use_binary_first_pass,
                ),
            ),
        ],
        None => Seq::empty(),
    };
    head + pre + two + hint_props(p.hints@)
}

/// The name of a kind of JOIN.
pub open spec fn join_name(t: JoinType) -> Seq<char> {
    match t {
        JoinType::Inner => "Inner"@,
        JoinType::Left => "Left"@,
        JoinType::Right => "Right"@,
        JoinType::Full => "Full"@,
    }
}

/// The text of a JOIN clause.
pub open spec fn join_text(j: JoinClause) -> Seq<char> {
    join_name(j.join_type) + " "@ + j.collection@ + " AS "@ + j.alias@
}

/// The name of a direction.
pub open spec fn direction_name(d: EdgeDirection) -> Seq<char> {
    match d {
        EdgeDirection::Forward => "Forward"@,
        EdgeDirection::Backward => "Backward"@,
        EdgeDirection::Undirected => "Undirected"@,
    }
}

/// The properties of a TRAVERSE MATCH.
pub open spec fn match_props(p: TraverseMatchPlan) -> Seq<Prop> {
    let head = exact("TRAVERSE MATCH"@).push(("from_id"@, p.from_id@));
    let along = match p.edge_type {
        Some(t) => seq![("edge_type"@, t@)],
        None => Seq::empty(),
    };
    let path = seq![
        ("direction"@, direction_name(p.direction)),
        ("depth"@, text::dec(p.min_depth as nat) + ".."@ + text::dec(p.max_depth as nat)),
    ];
    let least = match p.confidence_shown {
        Some(c) => seq![("confidence_threshold"@, c@)],
        None => Seq::empty(),
    };
    head + along + path + least + seq![("tier"@, "Ram"@)]
}

/// What EXPLAIN says of a plan, before its cost.
pub open spec fn props_of(p: Plan) -> Seq<Prop> {
    match p {
        Plan::Fetch(p) => fetch_props(p),
        Plan::Search(p) => search_props(p),
        Plan::Insert(p) => exact("INSERT"@) + seq![("collection"@, p.collection@), ("tier"@, "Fjall"@)],
        Plan::CreateCollection(p) => exact("CREATE COLLECTION"@) + seq![
            ("collection"@, p.name@),
            ("representations"@, text::dec(p.representations@.len())),
            ("fields"@, text::dec(p.fields@.len())),
            ("indexes"@, text::dec(p.indexes@.len())),
        ],
        Plan::Explain(_) => exact("EXPLAIN"@),
        Plan::CreateEdgeType(p) => exact("CREATE EDGE"@) + seq![
            ("edge_type"@, p.name@),
            ("from_collection"@, p.from_collection@),
            ("to_collection"@, p.to_collection@),
        ],
        Plan::InsertEdge(p) => exact("INSERT EDGE"@) + seq![("edge_type"@, p.edge_type@), ("tier"@, "Fjall"@)],
        Plan::DeleteEdge(p) => exact("DELETE EDGE"@) + seq![("edge_type"@, p.edge_type@), ("tier"@, "Fjall"@)],
        Plan::Traverse(p) => exact("TRAVERSE"@) + seq![
            ("edge_type"@, p.edge_type@),
            ("tier"@, "Ram"@),
            ("strategy"@, "AdjacencyIndex"@),
            ("depth"@, text::dec(p.depth as nat)),
        ],
        Plan::CreateAffinityGroup(p) => exact("CREATE AFFINITY GROUP"@) + seq![
            ("name"@, p.name@),
            ("tier"@, "Routing"@),
        ],
        Plan::AlterEntityDropAffinity(p) => exact("ALTER ENTITY DROP AFFINITY"@) + seq![
            ("entity_id"@, p.entity_id@),
            ("tier"@, "Routing"@),
        ],
        Plan::Demote(_) => seq![("operation"@, "Demote"@), ("tier"@, "Routing"@)],
        Plan::Promote(_) => seq![("operation"@, "Promote"@), ("tier"@, "Routing"@)],
        Plan::DeleteEntity(p) => exact("DELETE"@) + seq![("collection"@, p.collection@), ("tier"@, "Fjall"@)],
        Plan::ExplainTiers(_) => seq![("operation"@, "ExplainTiers"@)],
        Plan::UpdateEntity(p) => exact("UPDATE"@) + seq![("collection"@, p.collection@), ("tier"@, "Fjall"@)],
        Plan::Infer(p) => seq![("mode"@, "Probabilistic"@), ("verb"@, "INFER"@), ("from_id"@, p.from_id@)],
        Plan::ConfirmEdge(p) => exact("CONFIRM EDGE"@) + seq![("edge_type"@, p.edge_type@)],
        Plan::ExplainHistory(p) => exact("EXPLAIN HISTORY"@) + seq![("entity_id"@, p.entity_id@)],
        Plan::DropCollection(p) => exact("DROP COLLECTION"@) + seq![("collection"@, p.name@), ("tier"@, "Fjall"@)],
        Plan::DropEdgeType(p) => exact("DROP EDGE TYPE"@) + seq![("edge_type"@, p.name@), ("tier"@, "Fjall"@)],
        Plan::Join(p) => exact("FETCH JOIN"@) + seq![
            ("from_collection"@, p.from_collection@),
            ("from_alias"@, p.from_alias@),
            ("joins"@, text::joined(p.joins@.map_values(|j: JoinClause| join_text(j)), ", "@)),
            ("tier"@, "Fjall"@),
        ],
        Plan::TraverseMatch(p) => match_props(p),
    }
}

fn put(props: &mut Vec<(String, String)>, name: &str, value: String)
    ensures
        prop_views(final(props)@) == prop_views(old(props)@).push((name@, value@)),
{
    let ghost before = prop_views(props@);
    props.push((own(name), value));
    assert(prop_views(props@) =~= before.push((name@, value@)));
}

fn put_exact(props: &mut Vec<(String, String)>, verb: &str)
    ensures
        prop_views(final(props)@) == prop_views(old(props)@) + exact(verb@),
{
    let ghost before = prop_views(props@);
    put(props, "mode", own("Deterministic"));
    put(props, "verb", own(verb));
    assert(prop_views(props@) =~= before + exact(verb@));
}

fn put_hints(props: &mut Vec<(String, String)>, hints: &Vec<String>)
    ensures
        prop_views(final(props)@) == prop_views(old(props)@) + hint_props(hints@),
{
    let ghost before = prop_views(props@);
    if hints.len() > 0 {
        put(props, "hints", join(hints, ", "));
    }
    assert(prop_views(props@) =~= before + hint_props(hints@));
}

fn order_terms(order_by: &Vec<OrderByClause>) -> (r: Vec<String>)
    ensures
        text::views(r@) == order_by@.map_values(|c: OrderByClause| order_text(c)),
{
    let mut r: Vec<String> = Vec::new();
    let mut i: usize = 0;
    while i < order_by.len()
        invariant
            i <= order_by.len(),
            r@.len() == i,
            forall|j: int| 0 <= j < i ==> (#[trigger] r@[j])@ == order_text(order_by@[j]),
        decreases order_by.len() - i,
    {
        let way = match order_by[i].direction {
            SortDirection::Asc => "ASC",
            SortDirection::Desc => "DESC",
        };
        r.push(cat3(order_by[i].field.as_str(), " ", way));
        i += 1;
    }
    assert(text::views(r@) =~= order_by@.map_values(|c: OrderByClause| order_text(c)));
    r
}

fn explain_fetch(p: &FetchPlan) -> (r: Vec<(String, String)>)
    ensures
        prop_views(r@) == fetch_props(*p),
{
    let mut props: Vec<(String, String)> = Vec::new();
    put_exact(&mut props, "FETCH");
    put(&mut props, "collection", p.collection.clone());
    match &p.strategy {
        FetchStrategy::FullScan => {
            put(&mut props, "strategy", own("FullScan"));
            put(&mut props, "tier", own("Fjall"));
        },
        FetchStrategy::FieldIndexLookup(n) => {
            put(&mut props, "strategy", cat3("FieldIndexLookup (", n.as_str(), ")"));
            put(&mut props, "tier", own("FieldIndex"));
        },
        FetchStrategy::FieldIndexRange(n) => {
            put(&mut props, "strategy", cat3("FieldIndexRange (", n.as_str(), ")"));
            put(&mut props, "tier", own("FieldIndex"));
        },
    }
    if p.order_by.len() > 0 {
        let terms = order_terms(&p.order_by);
        put(&mut props, "order_by", join(&terms, ", "));
    }
    if let Some(n) = p.limit {
        put(&mut props, "limit", decimal_usize(n));
    }
    put_hints(&mut props, &p.hints);
    assert(prop_views(props@) =~= fetch_props(*p));
    props
}

fn explain_search(p: &SearchPlan) -> (r: Vec<(String, String)>)
    ensures
        prop_views(r@) == search_props(*p),
{
    let mut props: Vec<(String, String)> = Vec::new();
    put(&mut props, "mode", own("Probabilistic"));
    put(&mut props, "verb", own("SEARCH"));
    put(&mut props, "collection", p.collection.clone());
    put(&mut props, "tier", own("Ram"));
    let strategy = match p.strategy {
        SearchStrategy::Hnsw => "HnswSearch",
        SearchStrategy::Sparse => "SparseSearch",
        SearchStrategy::Hybrid => "HybridSearch",
        SearchStrategy::NaturalLanguage => "NaturalLanguageSearch",
    };
    put(&mut props, "strategy", own(strategy));
    put(&mut props, "k", decimal_usize(p.k));
    put(&mut props, "confidence_threshold", p.confidence_shown.clone());
    if let Some(f) = &p.pre_filter {
        put(&mut props, "pre_filter", cat3("ScalarPreFilter (", f.index_name.as_str(), ")"));
    }
    if let Some(t) = &p.two_pass {
        let k = decimal_usize(t.first_pass_k);
        let binary = if t.use_binary_first_pass {
            "true"
        } else {
            "false"
        };
        put(&mut props, "two_pass", cat4("first_pass_k=", k.as_str(), ", binary=", binary));
    }
    put_hints(&mut props, &p.hints);
    assert(prop_views(props@) =~= search_props(*p));
    props
}

fn join_terms(joins: &Vec<JoinClause>) -> (r: Vec<String>)
    ensures
        text::views(r@) == joins@.map_values(|j: JoinClause| join_text(j)),
{
    let mut r: Vec<String> = Vec::new();
    let mut i: usize = 0;
    while i < joins.len()
        invariant
            i <= joins.len(),
            r@.len() == i,
            forall|j: int| 0 <= j < i ==> (#[trigger] r@[j])@ == join_text(joins@[j]),
        decreases joins.len() - i,
    {
        let j = &joins[i];
        let kind = match j.join_type {
            JoinType::Inner => "Inner",
            JoinType::Left => "Left",
            JoinType::Right => "Right",
            JoinType::Full => "Full",
        };
        r.push(cat5(kind, " ", j.collection.as_str(), " AS ", j.alias.as_str()));
        i += 1;
    }
    assert(text::views(r@) =~= joins@.map_values(|j: JoinClause| join_text(j)));
    r
}

fn explain_match(p: &TraverseMatchPlan) -> (r: Vec<(String, String)>)
    ensures
        prop_views(r@) == match_props(*p),
{
    let mut props: Vec<(String, String)> = Vec::new();
    put_exact(&mut props, "TRAVERSE MATCH");
    put(&mut props, "from_id", p.from_id.clone());
    if let Some(t) = &p.edge_type {
        put(&mut props, "edge_type", t.clone());
    }
    let direction = match p.direction {
        EdgeDirection::Forward => "Forward",
        EdgeDirection::Backward => "Backward",
        EdgeDirection::Undirected => "Undirected",
    };
    put(&mut props, "direction", own(direction));
    let least = decimal_usize(p.min_depth);
    let most = decimal_usize(p.max_depth);
    put(&mut props, "depth", cat3(least.as_str(), "..", most.as_str()));
    if let Some(c) = &p.confidence_shown {
        put(&mut props, "confidence_threshold", c.clone());
    }
    put(&mut props, "tier", own("Ram"));
    assert(prop_views(props@) =~= match_props(*p));
    props
}

fn explain_props(plan: &Plan) -> (r: Vec<(String, String)>)
    ensures
        prop_views(r@) == props_of(*plan),
{
    let mut props: Vec<(String, String)> = Vec::new();
    match plan {
        Plan::Fetch(p) => {
            props = explain_fetch(p);
        },
        Plan::Search(p) => {
            props = explain_search(p);
        },
        Plan::Insert(p) => {
            put_exact(&mut props, "INSERT");
            put(&mut props, "collection", p.collection.clone());
            put(&mut props, "tier", own("Fjall"));
        },
        Plan::CreateCollection(p) => {
            put_exact(&mut props, "CREATE COLLECTION");
            put(&mut props, "collection", p.name.clone());
            put(&mut props, "representations", decimal_usize(p.representations.len()));
            put(&mut props, "fields", decimal_usize(p.fields.len()));
            put(&mut props, "indexes", decimal_usize(p.indexes.len()));
        },
        Plan::Explain(_) => {
            put_exact(&mut props, "EXPLAIN");
        },
        Plan::CreateEdgeType(p) => {
            put_exact(&mut props, "CREATE EDGE");
            put(&mut props, "edge_type", p.name.clone());
            put(&mut props, "from_collection", p.from_collection.clone());
            put(&mut props, "to_collection", p.to_collection.clone());
        },
        Plan::InsertEdge(p) => {
            put_exact(&mut props, "INSERT EDGE");
            put(&mut props, "edge_type", p.edge_type.clone());
            put(&mut props, "tier", own("Fjall"));
        },
        Plan::DeleteEdge(p) => {
            put_exact(&mut props, "DELETE EDGE");
            put(&mut props, "edge_type", p.edge_type.clone());
            put(&mut props, "tier", own("Fjall"));
        },
        Plan::Traverse(p) => {
            put_exact(&mut props, "TRAVERSE");
            put(&mut props, "edge_type", p.edge_type.clone());
            put(&mut props, "tier", own("Ram"));
            put(&mut props, "strategy", own("AdjacencyIndex"));
            put(&mut props, "depth", decimal_usize(p.depth));
        },
        Plan::CreateAffinityGroup(p) => {
            put_exact(&mut props, "CREATE AFFINITY GROUP");
            put(&mut props, "name", p.name.clone());
            put(&mut props, "tier", own("Routing"));
        },
        Plan::AlterEntityDropAffinity(p) => {
            put_exact(&mut props, "ALTER ENTITY DROP AFFINITY");
            put(&mut props, "entity_id", p.entity_id.clone());
            put(&mut props, "tier", own("Routing"));
        },
        Plan::Demote(_) => {
            put(&mut props, "operation", own("Demote"));
            put(&mut props, "tier", own("Routing"));
        },
        Plan::Promote(_) => {
            put(&mut props, "operation", own("Promote"));
            put(&mut props, "tier", own("Routing"));
        },
        Plan::DeleteEntity(p) => {
            put_exact(&mut props, "DELETE");
            put(&mut props, "collection", p.collection.clone());
            put(&mut props, "tier", own("Fjall"));
        },
        Plan::ExplainTiers(_) => {
            put(&mut props, "operation", own("ExplainTiers"));
        },
        Plan::UpdateEntity(p) => {
            put_exact(&mut props, "UPDATE");
            put(&mut props, "collection", p.collection.clone());
            put(&mut props, "tier", own("Fjall"));
        },
        Plan::Infer(p) => {
            put(&mut props, "mode", own("Probabilistic"));
            put(&mut props, "verb", own("INFER"));
            put(&mut props, "from_id", p.from_id.clone());
        },
        Plan::ConfirmEdge(p) => {
            put_exact(&mut props, "CONFIRM EDGE");
            put(&mut props, "edge_type", p.edge_type.clone());
        },
        Plan::ExplainHistory(p) => {
            put_exact(&mut props, "EXPLAIN HISTORY");
            put(&mut props, "entity_id", p.entity_id.clone());
        },
        Plan::DropCollection(p) => {
            put_exact(&mut props, "DROP COLLECTION");
            put(&mut props, "collection", p.name.clone());
            put(&mut props, "tier", own("Fjall"));
        },
        Plan::DropEdgeType(p) => {
            put_exact(&mut props, "DROP EDGE TYPE");
            put(&mut props, "edge_type", p.name.clone());
            put(&mut props, "tier", own("Fjall"));
        },
        Plan::Join(p) => {
            put_exact(&mut props, "FETCH JOIN");
            put(&mut props, "from_collection", p.from_collection.clone());
            put(&mut props, "from_alias", p.from_alias.clone());
            let terms = join_terms(&p.joins);
            put(&mut props, "joins", join(&terms, ", "));
            put(&mut props, "tier", own("Fjall"));
        },
        Plan::TraverseMatch(p) => {
            props = explain_match(p);
        },
    }
    assert(prop_views(props@) =~= props_of(*plan));
    props
}

/// The row of a property.
pub open spec fn prop_row(p: Prop) -> RowView {
    RowView {
        values: Map::empty().insert("property"@, Val::Str(p.0)).insert("value"@, Val::Str(p.1)),
        score: None,
    }
}

/// The rows of properties.
pub open spec fn prop_rows(ps: Seq<Prop>) -> Seq<RowView> {
    ps.map_values(|p: Prop| prop_row(p))
}

fn rows_of_props(props: &Vec<(String, String)>) -> (r: Vec<Row>)
    ensures
        rows::row_views(r@) == prop_rows(prop_views(props@)),
{
    let mut r: Vec<Row> = Vec::new();
    let mut i: usize = 0;
    while i < props.len()
        invariant
            i <= props.len(),
            r@.len() == i,
            forall|j: int| 0 <= j < i ==> (#[trigger] r@[j])@ == prop_row((props@[j].0@, props@[j].1@)),
        decreases props.len() - i,
    {
        let mut values = FieldMap::new();
        values.insert(own("property"), Value::String(props[i].0.clone()));
        values.insert(own("value"), Value::String(props[i].1.clone()));
        r.push(Row { values, score: None });
        i += 1;
    }
    assert(rows::row_views(r@) =~= prop_rows(prop_views(props@)));
    r
}

/// What EXPLAIN says of a plan, before its cost.
pub fn explain_plan(plan: &Plan) -> (r: Vec<Row>)
    ensures
        rows::row_views(r@) == prop_rows(props_of(*plan)),
{
    let props = explain_props(plan);
    rows_of_props(&props)
}

/// The cost of a plan and what the optimiser says of it. Numbers are as they are
/// written out.
#[derive(Debug)]
pub struct PlanNotes {
    pub estimated_acu: String,
    pub cost_breakdown: String,
    pub rules_applied: Vec<String>,
    pub warnings: Vec<String>,
}

/// What EXPLAIN says of a plan with its cost, its rules and its warnings.
pub open spec fn noted_props(p: Plan, n: PlanNotes) -> Seq<Prop> {
    let cost = seq![("estimated_acu"@, n.estimated_acu@), ("cost_breakdown"@, n.cost_breakdown@)];
    let rules = if n.rules_applied@.len() > 0 {
        seq![("rules_applied"@, text::joined(text::views(n.rules_applied@), ", "@))]
    } else {
        Seq::empty()
    };
    let warnings = if n.warnings@.len() > 0 {
        seq![("warnings"@, text::joined(text::views(n.warnings@), "; "@))]
    } else {
        Seq::empty()
    };
    props_of(p) + cost + rules + warnings
}

/// What EXPLAIN answers.
pub fn explain_answer(plan: &Plan, notes: &PlanNotes) -> (r: QueryResult)
    ensures
        text::views(r.columns@) == seq!["property"@, "value"@],
        rows::row_views(r.rows@) == prop_rows(noted_props(*plan, *notes)),
        r.entities_scanned == 0,
        r.mode == QueryMode::Deterministic,
        r.tier@ == "Fjall"@,
{
    let mut props = explain_props(plan);
    put(&mut props, "estimated_acu", notes.estimated_acu.clone());
    put(&mut props, "cost_breakdown", notes.cost_breakdown.clone());
    if notes.rules_applied.len() > 0 {
        put(&mut props, "rules_applied", join(&notes.rules_applied, ", "));
    }
    if notes.warnings.len() > 0 {
        put(&mut props, "warnings", join(&notes.warnings, "; "));
    }
    assert(prop_views(props@) =~= noted_props(*plan, *notes));
    let rows = rows_of_props(&props);
    let mut columns: Vec<String> = Vec::new();
    columns.push(own("property"));
    columns.push(own("value"));
    assert(text::views(columns@) =~= seq!["property"@, "value"@]);
    QueryResult { columns, rows, entities_scanned: 0, mode: QueryMode::Deterministic, tier: own("Fjall") }
}

} // verus!
