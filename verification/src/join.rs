//! JOIN: rows that combine entities of several collections.

use vstd::prelude::*;
use vstd::string::*;

use crate::edge;
use crate::edge::{AdjEntry, AdjacencyIndex, EdgeType, EntryView};
use crate::fields::FieldMap;
use crate::filter;
use crate::filter::{join_row_matches, WhereClause};
use crate::float_bits;
use crate::float_bits::{double_of_single, single_less, F32_ONE};
use crate::result::{QueryMode, QueryResult};
use crate::rows;
use crate::rows::{every_column, Row, RowView};
use crate::text;
use crate::text::{cat3, own, text_equal};
use crate::traverse::Gate;
use crate::types::Entity;
use crate::value::{id_value, LogicalId, Val, Value};

verus! {

/// What becomes of an entity without a partner.
#[derive(Clone, Copy, PartialEq, Eq, Structural, Debug)]
pub enum JoinType {
    Inner,
    Left,
    Right,
    Full,
}

/// A field of the collection that an alias stands for.
#[derive(Debug)]
pub struct QualifiedField {
    pub alias: String,
    pub field: String,
}

/// The fields that a JOIN asks for.
#[derive(Debug)]
pub enum JoinFieldList {
    All,
    Named(Vec<QualifiedField>),
}

/// One JOIN clause. A confidence threshold, the bits of a single, makes it follow
/// edges.
#[derive(Debug)]
pub struct JoinClause {
    pub join_type: JoinType,
    pub collection: String,
    pub alias: String,
    pub on_left: QualifiedField,
    pub on_right: QualifiedField,
    pub confidence_threshold: Option<u32>,
}

/// A planned JOIN.
#[derive(Debug)]
pub struct JoinPlan {
    pub from_collection: String,
    pub from_alias: String,
    pub joins: Vec<JoinClause>,
    pub fields: JoinFieldList,
    pub filter: Option<WhereClause>,
    pub limit: Option<usize>,
}

/// The name of a field under an alias.
pub open spec fn qualified(alias: Seq<char>, field: Seq<char>) -> Seq<char> {
    alias + "."@ + field
}

/// The field that a name stands for under an alias.
pub open spec fn unqualified(alias: Seq<char>, name: Seq<char>) -> Seq<char> {
    name.skip((alias + "."@).len() as int)
}

/// Whether a name is that of a field under an alias.
pub open spec fn is_qualified(alias: Seq<char>, name: Seq<char>) -> bool {
    text::has_prefix(name, alias + "."@)
}

/// A row with the id and the fields of an entity under an alias.
pub open spec fn with_fields(
    row: Map<Seq<char>, Val>,
    alias: Seq<char>,
    id: Seq<char>,
    m: Map<Seq<char>, Val>,
) -> Map<Seq<char>, Val> {
    Map::new(
        |k: Seq<char>|
            row.contains_key(k) || (is_qualified(alias, k) && (unqualified(alias, k) == filter::id_field()
                || m.contains_key(unqualified(alias, k)))),
        |k: Seq<char>|
            if is_qualified(alias, k) && m.contains_key(unqualified(alias, k)) {
                m[unqualified(alias, k)]
            } else if is_qualified(alias, k) && unqualified(alias, k) == filter::id_field() {
                Val::Str(id)
            } else {
                row[k]
            },
    )
}

proof fn lemma_qualified(alias: Seq<char>, field: Seq<char>)
    ensures
        is_qualified(alias, qualified(alias, field)),
        unqualified(alias, qualified(alias, field)) == field,
{
    let p = alias + "."@;
    let q = qualified(alias, field);
    assert(q.subrange(0, p.len() as int) =~= p);
    assert(q.skip(p.len() as int) =~= field);
}

proof fn lemma_unqualified(alias: Seq<char>, name: Seq<char>)
    requires
        is_qualified(alias, name),
    ensures
        qualified(alias, unqualified(alias, name)) == name,
{
    let p = alias + "."@;
    assert(p + name.skip(p.len() as int) =~= name.subrange(0, p.len() as int) + name.skip(p.len() as int));
    assert(name.subrange(0, p.len() as int) + name.skip(p.len() as int) =~= name);
}

fn add_fields(row: &mut FieldMap, alias: &str, e: &Entity)
    ensures
        final(row)@ == with_fields(old(row)@, alias@, e.id@, e.metadata@),
{
    let ghost start = row@;
    let ghost m = e.metadata@;
    let keys = e.metadata.keys();
    let ghost ks = text::views(keys@);
    let id_key = cat3(alias, ".", "id");
    proof {
        lemma_qualified(alias@, filter::id_field());
    }
    row.insert(id_key, id_value(&e.id));
    let ghost with_id = row@;
    let mut i: usize = 0;
    while i < keys.len()
        invariant
            i <= keys.len(),
            ks == text::views(keys@),
            ks.len() == keys@.len(),
            m == e.metadata@,
            forall|k: Seq<char>| ks.contains(k) <==> #[trigger] m.contains_key(k),
            forall|k: Seq<char>| #[trigger]
                row@.contains_key(k) <==> with_id.contains_key(k) || (is_qualified(alias@, k)
                    && ks.subrange(0, i as int).contains(unqualified(alias@, k))),
            forall|k: Seq<char>| #[trigger]
                row@.contains_key(k) ==> row@[k] == (if is_qualified(alias@, k) && ks.subrange(
                    0,
                    i as int,
                ).contains(unqualified(alias@, k)) {
                    m[unqualified(alias@, k)]
                } else {
                    with_id[k]
                }),
        decreases keys.len() - i,
    {
        let ghost before = row@;
        let ghost done = ks.subrange(0, i as int);
        let ghost next = ks.subrange(0, i as int + 1);
        let key = cat3(alias, ".", keys[i].as_str());
        proof {
            assert(ks[i as int] == keys@[i as int]@);
            assert(ks.contains(keys@[i as int]@));
            assert(next =~= done.push(ks[i as int]));
        }
        match e.metadata.get(keys[i].as_str()) {
            Some(v) => {
                row.insert(key, v.clone());
            },
            None => {
                assert(false);
            },
        }
        proof {
            let f = ks[i as int];
            let q = qualified(alias@, f);
            lemma_qualified(alias@, f);
            assert(row@ == before.insert(q, m[f]));
            assert forall|x: Seq<char>| next.contains(x) <==> done.contains(x) || x == f by {
                if done.contains(x) {
                    let a = choose|a: int| 0 <= a < done.len() && done[a] == x;
                    assert(next[a] == x);
                }
                if x == f {
                    assert(next[i as int] == x);
                }
                if next.contains(x) {
                    let a = choose|a: int| 0 <= a < next.len() && next[a] == x;
                    if a < i {
                        assert(done[a] == x);
                    }
                }
            }
            assert forall|k: Seq<char>| is_qualified(alias@, k) && unqualified(alias@, k) == f implies k == q by {
                lemma_unqualified(alias@, k);
            }
        }
        i += 1;
    }
    proof {
        assert(ks.subrange(0, ks.len() as int) =~= ks);
        let want = with_fields(start, alias@, e.id@, m);
        assert forall|k: Seq<char>| is_qualified(alias@, k) && unqualified(alias@, k) == filter::id_field() implies k
            == qualified(alias@, filter::id_field()) by {
            lemma_unqualified(alias@, k);
        }
        assert(with_id == start.insert(qualified(alias@, filter::id_field()), Val::Str(e.id@)));
        assert(row@ =~= want);
    }
}

/// The collection that an alias stands for: that of the last JOIN clause with the
/// alias, or that of FROM; no collection has the empty name.
pub open spec fn alias_collection(
    from_alias: Seq<char>,
    from_collection: Seq<char>,
    joins: Seq<JoinClause>,
    alias: Seq<char>,
) -> Seq<char>
    decreases joins.len(),
{
    if joins.len() == 0 {
        if alias == from_alias {
            from_collection
        } else {
            Seq::empty()
        }
    } else if joins.last().alias@ == alias {
        joins.last().collection@
    } else {
        alias_collection(from_alias, from_collection, joins.drop_last(), alias)
    }
}

fn collection_of_alias(plan: &JoinPlan, alias: &str) -> (r: String)
    ensures
        r@ == alias_collection(plan.from_alias@, plan.from_collection@, plan.joins@, alias@),
{
    let mut r = if text_equal(alias, plan.from_alias.as_str()) {
        plan.from_collection.clone()
    } else {
        String::new()
    };
    let ghost all = plan.joins@;
    proof {
        assert(r@ =~= alias_collection(plan.from_alias@, plan.from_collection@, all.subrange(0, 0), alias@));
    }
    let mut i: usize = 0;
    while i < plan.joins.len()
        invariant
            i <= plan.joins.len(),
            all == plan.joins@,
            r@ == alias_collection(plan.from_alias@, plan.from_collection@, all.subrange(0, i as int), alias@),
        decreases plan.joins.len() - i,
    {
        proof {
            let next = all.subrange(0, i as int + 1);
            assert(next.drop_last() =~= all.subrange(0, i as int));
            assert(next.last() == all[i as int]);
        }
        if text_equal(plan.joins[i].alias.as_str(), alias) {
            r = plan.joins[i].collection.clone();
        }
        i += 1;
    }
    assert(all.subrange(0, all.len() as int) =~= all);
    r
}

/// Whether a field of an entity, its id included, is a given text.
pub open spec fn has_text(e: Entity, field: Seq<char>, s: Seq<char>) -> bool {
    filter::entity_field(e.id@, e.metadata@, field) == Some(Val::Str(s))
}

/// The text that a field of an entity holds.
pub open spec fn text_at(e: Entity, field: Seq<char>) -> Option<Seq<char>> {
    match filter::entity_field(e.id@, e.metadata@, field) {
        Some(Val::Str(s)) => Some(s),
        _ => None,
    }
}

fn text_field(e: &Entity, field: &str) -> (r: Option<String>)
    ensures
        r is Some == text_at(*e, field@) is Some,
        r is Some ==> r->0@ == text_at(*e, field@)->0,
{
    if text_equal(field, "id") {
        return Some(own(e.id.as_str()));
    }
    match e.metadata.get(field) {
        Some(Value::String(s)) => Some(s.clone()),
        _ => None,
    }
}

/// The place of the first entity whose field is a given text.
pub open spec fn first_with(es: Seq<Entity>, field: Seq<char>, s: Seq<char>) -> Option<int>
    decreases es.len(),
{
    if es.len() == 0 {
        None
    } else {
        match first_with(es.drop_last(), field, s) {
            Some(i) => Some(i),
            None => if has_text(es.last(), field, s) {
                Some(es.len() - 1)
            } else {
                None
            },
        }
    }
}

proof fn lemma_first_with(es: Seq<Entity>, field: Seq<char>, s: Seq<char>, i: int)
    requires
        0 <= i < es.len(),
        has_text(es[i], field, s),
        forall|j: int| 0 <= j < i ==> !has_text(#[trigger] es[j], field, s),
    ensures
        first_with(es, field, s) == Some(i),
    decreases es.len(),
{
    let head = es.drop_last();
    if i < es.len() - 1 {
        assert(head[i] == es[i]);
        assert forall|j: int| 0 <= j < i implies !has_text(#[trigger] head[j], field, s) by {
            assert(head[j] == es[j]);
        }
        lemma_first_with(head, field, s, i);
    } else {
        lemma_first_with_none(head, field, s);
    }
}

proof fn lemma_first_with_none(es: Seq<Entity>, field: Seq<char>, s: Seq<char>)
    requires
        forall|j: int| 0 <= j < es.len() ==> !has_text(#[trigger] es[j], field, s),
    ensures
        first_with(es, field, s) is None,
    decreases es.len(),
{
    if es.len() > 0 {
        let head = es.drop_last();
        assert forall|j: int| 0 <= j < head.len() implies !has_text(#[trigger] head[j], field, s) by {
            assert(head[j] == es[j]);
        }
        lemma_first_with_none(head, field, s);
    }
}

fn find_with(es: &Vec<Entity>, field: &str, s: &str) -> (r: Option<usize>)
    ensures
        match r {
            Some(i) => i < es.len() && first_with(es@, field@, s@) == Some(i as int),
            None => first_with(es@, field@, s@) is None,
        },
{
    let mut i: usize = 0;
    while i < es.len()
        invariant
            i <= es.len(),
            forall|j: int| 0 <= j < i ==> !has_text(#[trigger] es@[j], field@, s@),
        decreases es.len() - i,
    {
        match text_field(&es[i], field) {
            Some(t) => {
                if text_equal(t.as_str(), s) {
                    proof {
                        lemma_first_with(es@, field@, s@, i as int);
                    }
                    return Some(i);
                }
            },
            None => {},
        }
        i += 1;
    }
    proof {
        lemma_first_with_none(es@, field@, s@);
    }
    None
}

/// The edges of the types that lead from one collection to another, from a source.
pub open spec fn joining_edges(
    v: edge::AdjView,
    types: Seq<EdgeType>,
    from: Seq<char>,
    to: Seq<char>,
    source: Seq<char>,
) -> Seq<EntryView>
    decreases types.len(),
{
    if types.len() == 0 {
        Seq::empty()
    } else {
        let before = joining_edges(v, types.drop_last(), from, to, source);
        let t = types.last();
        if t.from_collection@ == from && t.to_collection@ == to {
            before + edge::list_at(v.forward, (source, t.name@))
        } else {
            before
        }
    }
}

/// The partner that edges give: of those to a stored entity whose confidence is at
/// least the threshold, the first of the greatest confidence.
pub open spec fn best_edge(edges: Seq<EntryView>, threshold: u32, es: Seq<Entity>) -> Option<(int, u32)>
    decreases edges.len(),
{
    if edges.len() == 0 {
        None
    } else {
        let best = best_edge(edges.drop_last(), threshold, es);
        let e = edges.last();
        match first_with(es, filter::id_field(), e.to_id) {
            Some(i) => if Gate::AtLeast(threshold).admits(e.confidence) && (match best {
                Some(b) => float_bits::f32_lt(b.1, e.confidence),
                None => true,
            }) {
                Some((i, e.confidence))
            } else {
                best
            },
            None => best,
        }
    }
}

fn gather_edges(
    adjacency: &AdjacencyIndex,
    types: &Vec<EdgeType>,
    from: &str,
    to: &str,
    source: &LogicalId,
) -> (r: Vec<AdjEntry>)
    ensures
        edge::entry_views(r@) == joining_edges(adjacency@, types@, from@, to@, source@),
{
    let mut r: Vec<AdjEntry> = Vec::new();
    let ghost all = types@;
    let mut i: usize = 0;
    proof {
        assert(edge::entry_views(r@) =~= joining_edges(adjacency@, all.subrange(0, 0), from@, to@, source@));
    }
    while i < types.len()
        invariant
            i <= types.len(),
            all == types@,
            edge::entry_views(r@) == joining_edges(adjacency@, all.subrange(0, i as int), from@, to@, source@),
        decreases types.len() - i,
    {
        let ghost before = edge::entry_views(r@);
        proof {
            let next = all.subrange(0, i as int + 1);
            assert(next.drop_last() =~= all.subrange(0, i as int));
            assert(next.last() == all[i as int]);
        }
        let t = &types[i];
        if text_equal(t.from_collection.as_str(), from) && text_equal(t.to_collection.as_str(), to) {
            let mut more = adjacency.get(source, t.name.as_str());
            let ghost given = more@;
            r.append(&mut more);
            proof {
                assert(edge::entry_views(r@) =~= before + edge::entry_views(given));
            }
        }
        i += 1;
    }
    assert(all.subrange(0, all.len() as int) =~= all);
    r
}

fn find_best(edges: &Vec<AdjEntry>, threshold: u32, es: &Vec<Entity>) -> (r: Option<(usize, u32)>)
    ensures
        match r {
            Some(b) => b.0 < es.len() && best_edge(edge::entry_views(edges@), threshold, es@) == Some(
                (b.0 as int, b.1),
            ),
            None => best_edge(edge::entry_views(edges@), threshold, es@) is None,
        },
{
    let mut best: Option<(usize, u32)> = None;
    let ghost all = edge::entry_views(edges@);
    let mut i: usize = 0;
    while i < edges.len()
        invariant
            i <= edges.len(),
            all == edge::entry_views(edges@),
            match best {
                Some(b) => b.0 < es.len() && best_edge(all.subrange(0, i as int), threshold, es@) == Some(
                    (b.0 as int, b.1),
                ),
                None => best_edge(all.subrange(0, i as int), threshold, es@) is None,
            },
        decreases edges.len() - i,
    {
        proof {
            let next = all.subrange(0, i as int + 1);
            assert(next.drop_last() =~= all.subrange(0, i as int));
            assert(next.last() == edges@[i as int]@);
        }
        let e = &edges[i];
        if let Some(at) = find_with(es, "id", e.to_id.as_str()) {
            if Gate::AtLeast(threshold).lets_pass(e.confidence) {
                let better = match best {
                    Some(b) => single_less(b.1, e.confidence),
                    None => true,
                };
                if better {
                    best = Some((at, e.confidence));
                }
            }
        }
        i += 1;
    }
    assert(all.subrange(0, all.len() as int) =~= all);
    best
}

/// What a JOIN reads besides its plan.
pub struct JoinSources<'a> {
    /// The entities of the FROM collection.
    pub left: &'a Vec<Entity>,
    /// For each JOIN clause the entities of its collection.
    pub right: &'a Vec<Vec<Entity>>,
    /// The declared edge types.
    pub edge_types: &'a Vec<EdgeType>,
    /// The edges.
    pub adjacency: &'a AdjacencyIndex,
}

/// The partner of an entity under a JOIN clause, with the confidence of the match.
/// Only a text can be joined on.
pub open spec fn partner(plan: JoinPlan, n: int, e: Entity, src: JoinSources<'_>) -> Option<(int, u32)> {
    let join = plan.joins@[n];
    let es = src.right@[n]@;
    match text_at(e, join.on_left.field@) {
        None => None,
        Some(s) => match join.confidence_threshold {
            Some(threshold) => best_edge(
                joining_edges(
                    src.adjacency@,
                    src.edge_types@,
                    alias_collection(plan.from_alias@, plan.from_collection@, plan.joins@, join.on_left.alias@),
                    join.collection@,
                    s,
                ),
                threshold,
                es,
            ),
            None => match first_with(es, join.on_right.field@, s) {
                Some(i) => Some((i, F32_ONE)),
                None => None,
            },
        },
    }
}

fn find_partner(plan: &JoinPlan, n: usize, e: &Entity, src: &JoinSources<'_>) -> (r: Option<(usize, u32)>)
    requires
        n < plan.joins.len(),
        src.right.len() == plan.joins.len(),
    ensures
        match r {
            Some(b) => b.0 < src.right@[n as int].len() && partner(*plan, n as int, *e, *src) == Some(
                (b.0 as int, b.1),
            ),
            None => partner(*plan, n as int, *e, *src) is None,
        },
{
    let join = &plan.joins[n];
    let es = &src.right[n];
    match text_field(e, join.on_left.field.as_str()) {
        None => None,
        Some(s) => match join.confidence_threshold {
            Some(threshold) => {
                let from = collection_of_alias(plan, join.on_left.alias.as_str());
                let source = LogicalId::from_string(s.as_str());
                let edges = gather_edges(
                    src.adjacency,
                    src.edge_types,
                    from.as_str(),
                    join.collection.as_str(),
                    &source,
                );
                find_best(&edges, threshold, es)
            },
            None => match find_with(es, join.on_right.field.as_str(), s.as_str()) {
                Some(i) => Some((i, F32_ONE)),
                None => None,
            },
        },
    }
}

/// The row of an entity combined with its partners under the first `n` clauses;
/// none where an INNER or a RIGHT clause finds no partner.
pub open spec fn combined(plan: JoinPlan, n: nat, e: Entity, src: JoinSources<'_>) -> Option<Map<Seq<char>, Val>>
    decreases n,
{
    if n == 0 {
        Some(with_fields(Map::empty(), plan.from_alias@, e.id@, e.metadata@))
    } else {
        match combined(plan, (n - 1) as nat, e, src) {
            None => None,
            Some(row) => {
                let join = plan.joins@[n - 1];
                match partner(plan, n - 1, e, src) {
                    Some(b) => {
                        let right = src.right@[n - 1]@[b.0];
                        let wide = with_fields(row, join.alias@, right.id@, right.metadata@);
                        Some(
                            if join.confidence_threshold is Some {
                                wide.insert("_edge.confidence"@, Val::Float(float_bits::f32_to_f64(b.1)))
                            } else {
                                wide
                            },
                        )
                    },
                    None => match join.join_type {
                        JoinType::Inner | JoinType::Right => None,
                        JoinType::Left | JoinType::Full => Some(
                            row.insert(qualified(join.alias@, filter::id_field()), Val::Null),
                        ),
                    },
                }
            },
        }
    }
}

fn combine(plan: &JoinPlan, e: &Entity, src: &JoinSources<'_>) -> (r: Option<FieldMap>)
    requires
        src.right.len() == plan.joins.len(),
    ensures
        match r {
            Some(m) => combined(*plan, plan.joins@.len(), *e, *src) == Some(m@),
            None => combined(*plan, plan.joins@.len(), *e, *src) is None,
        },
{
    let mut row = FieldMap::new();
    add_fields(&mut row, plan.from_alias.as_str(), e);
    let mut n: usize = 0;
    while n < plan.joins.len()
        invariant
            n <= plan.joins.len(),
            src.right.len() == plan.joins.len(),
            combined(*plan, n as nat, *e, *src) == Some(row@),
        decreases plan.joins.len() - n,
    {
        let join = &plan.joins[n];
        match find_partner(plan, n, e, src) {
            Some(b) => {
                add_fields(&mut row, join.alias.as_str(), &src.right[n][b.0]);
                if join.confidence_threshold.is_some() {
                    row.insert(own("_edge.confidence"), Value::Float(double_of_single(b.1)));
                }
            },
            None => match join.join_type {
                JoinType::Inner | JoinType::Right => {
                    proof {
                        lemma_dropped(*plan, (n + 1) as nat, plan.joins@.len(), *e, *src);
                    }
                    return None;
                },
                JoinType::Left | JoinType::Full => {
                    row.insert(cat3(join.alias.as_str(), ".", "id"), Value::Null);
                },
            },
        }
        n += 1;
    }
    Some(row)
}

proof fn lemma_dropped(plan: JoinPlan, n: nat, m: nat, e: Entity, src: JoinSources<'_>)
    requires
        n <= m,
        combined(plan, n, e, src) is None,
    ensures
        combined(plan, m, e, src) is None,
    decreases m - n,
{
    if n < m {
        lemma_dropped(plan, n, (m - 1) as nat, e, src);
    }
}

/// The names of the fields asked for.
pub open spec fn qualified_names(qfs: Seq<QualifiedField>) -> Seq<Seq<char>> {
    qfs.map_values(|q: QualifiedField| qualified(q.alias@, q.field@))
}

/// The fields of a combined row that a JOIN answers: all of them, or those named, a
/// field that is absent being null.
pub open spec fn join_projected(m: Map<Seq<char>, Val>, fields: JoinFieldList) -> Map<Seq<char>, Val> {
    match fields {
        JoinFieldList::All => m,
        JoinFieldList::Named(qfs) => Map::new(
            |k: Seq<char>| qualified_names(qfs@).contains(k),
            |k: Seq<char>|
                if m.contains_key(k) {
                    m[k]
                } else {
                    Val::Null
                },
        ),
    }
}

/// The row that a JOIN answers for a combined row.
pub fn project_join_row(combined: &FieldMap, fields: &JoinFieldList) -> (r: Row)
    ensures
        r@ == (RowView { values: join_projected(combined@, *fields), score: None }),
{
    match fields {
        JoinFieldList::All => Row { values: combined.clone(), score: None },
        JoinFieldList::Named(qfs) => {
            let ghost ns = qualified_names(qfs@);
            let mut values = FieldMap::new();
            let mut i: usize = 0;
            while i < qfs.len()
                invariant
                    i <= qfs.len(),
                    ns == qualified_names(qfs@),
                    ns.len() == qfs@.len(),
                    forall|k: Seq<char>| #[trigger] values@.contains_key(k) <==> ns.subrange(0, i as int).contains(k),
                    forall|k: Seq<char>| #[trigger]
                        values@.contains_key(k) ==> values@[k] == (if combined@.contains_key(k) {
                            combined@[k]
                        } else {
                            Val::Null
                        }),
                decreases qfs.len() - i,
            {
                let ghost done = ns.subrange(0, i as int);
                let ghost next = ns.subrange(0, i as int + 1);
                let key = cat3(qfs[i].alias.as_str(), ".", qfs[i].field.as_str());
                proof {
                    assert(ns[i as int] == key@);
                    assert forall|k: Seq<char>| next.contains(k) <==> done.contains(k) || k == ns[i as int] by {
                        if done.contains(k) {
                            let a = choose|a: int| 0 <= a < done.len() && done[a] == k;
                            assert(next[a] == k);
                        }
                        if k == ns[i as int] {
                            assert(next[i as int] == k);
                        }
                        if next.contains(k) {
                            let a = choose|a: int| 0 <= a < next.len() && next[a] == k;
                            if a < i {
                                assert(done[a] == k);
                            }
                        }
                    }
                }
                let value = match combined.get(key.as_str()) {
                    Some(v) => v.clone(),
                    None => Value::Null,
                };
                values.insert(key, value);
                i += 1;
            }
            assert(ns.subrange(0, ns.len() as int) =~= ns);
            assert(values@ =~= join_projected(combined@, *fields));
            Row { values, score: None }
        },
    }
}

/// The columns of a JOIN: those named, in order, or every field in increasing order.
pub fn build_join_columns(rows: &Vec<Row>, fields: &JoinFieldList) -> (cols: Vec<String>)
    ensures
        match *fields {
            JoinFieldList::Named(qfs) => text::views(cols@) == qualified_names(qfs@),
            JoinFieldList::All => rows::sorted_columns(rows@, text::views(cols@)),
        },
{
    match fields {
        JoinFieldList::Named(qfs) => {
            let mut cols: Vec<String> = Vec::new();
            let mut i: usize = 0;
            while i < qfs.len()
                invariant
                    i <= qfs.len(),
                    cols@.len() == i,
                    forall|j: int| 0 <= j < i ==> (#[trigger] cols@[j])@ == qualified(qfs@[j].alias@, qfs@[j].field@),
                decreases qfs.len() - i,
            {
                cols.push(cat3(qfs[i].alias.as_str(), ".", qfs[i].field.as_str()));
                i += 1;
            }
            assert(text::views(cols@) =~= qualified_names(qfs@));
            cols
        },
        JoinFieldList::All => every_column(rows),
    }
}

/// The row that a combined row gives where the filter selects it.
pub open spec fn answered(m: Map<Seq<char>, Val>, plan: JoinPlan) -> Option<RowView> {
    match plan.filter {
        Some(f) if !filter::row_sat(m, f) => None,
        _ => Some(RowView { values: join_projected(m, plan.fields), score: None }),
    }
}

fn answer_row(m: &FieldMap, plan: &JoinPlan) -> (r: Option<Row>)
    ensures
        match r {
            Some(row) => answered(m@, *plan) == Some(row@),
            None => answered(m@, *plan) is None,
        },
{
    match &plan.filter {
        Some(f) => {
            if !join_row_matches(m, f) {
                return None;
            }
        },
        None => {},
    }
    Some(project_join_row(m, &plan.fields))
}

/// Whether rows have reached the limit of a plan.
pub open spec fn full(n: nat, limit: Option<usize>) -> bool {
    match limit {
        Some(l) => n >= l,
        None => n >= usize::MAX,
    }
}

/// The rows of the FROM entities. They end with the row that reaches the limit.
pub open spec fn left_rows(plan: JoinPlan, es: Seq<Entity>, src: JoinSources<'_>) -> Seq<RowView>
    decreases es.len(),
{
    if es.len() == 0 {
        Seq::empty()
    } else {
        let before = left_rows(plan, es.drop_last(), src);
        if before.len() > 0 && full(before.len(), plan.limit) {
            before
        } else {
            match combined(plan, plan.joins@.len(), es.last(), src) {
                None => before,
                Some(m) => match answered(m, plan) {
                    None => before,
                    Some(r) => before.push(r),
                },
            }
        }
    }
}

/// Whether some row holds an id under an alias.
pub open spec fn id_answered(rows: Seq<RowView>, alias: Seq<char>, id: Seq<char>) -> bool {
    exists|i: int|
        0 <= i < rows.len() && filter::field_of(
            (#[trigger] rows[i]).values,
            qualified(alias, filter::id_field()),
        ) == Some(Val::Str(id))
}

/// The combined row of an entity that no row holds.
pub open spec fn unmatched(plan: JoinPlan, join: JoinClause, e: Entity) -> Map<Seq<char>, Val> {
    with_fields(
        Map::empty().insert(qualified(plan.from_alias@, filter::id_field()), Val::Null),
        join.alias@,
        e.id@,
        e.metadata@,
    )
}

/// Rows followed by those of the entities of a clause that no row holds. They end
/// with the row that reaches the limit.
pub open spec fn right_rows(plan: JoinPlan, join: JoinClause, start: Seq<RowView>, es: Seq<Entity>) -> Seq<RowView>
    decreases es.len(),
{
    if es.len() == 0 {
        start
    } else {
        let before = right_rows(plan, join, start, es.drop_last());
        if before.len() > start.len() && full(before.len(), plan.limit) {
            before
        } else if id_answered(before, join.alias@, es.last().id@) {
            before
        } else {
            match answered(unmatched(plan, join, es.last()), plan) {
                None => before,
                Some(r) => before.push(r),
            }
        }
    }
}

/// The rows of a JOIN under its first `n` clauses: those of the FROM entities, and
/// for each RIGHT or FULL clause those of its entities without a row.
pub open spec fn join_rows(plan: JoinPlan, n: nat, src: JoinSources<'_>) -> Seq<RowView>
    decreases n,
{
    if n == 0 {
        left_rows(plan, src.left@, src)
    } else {
        let before = join_rows(plan, (n - 1) as nat, src);
        let join = plan.joins@[n - 1];
        match join.join_type {
            JoinType::Right | JoinType::Full => right_rows(plan, join, before, src.right@[n - 1]@),
            _ => before,
        }
    }
}

fn is_full(n: usize, limit: Option<usize>) -> (r: bool)
    ensures
        r == full(n as nat, limit),
{
    match limit {
        Some(l) => n >= l,
        None => n >= usize::MAX,
    }
}

proof fn lemma_left_done(plan: JoinPlan, es: Seq<Entity>, i: int, src: JoinSources<'_>)
    requires
        0 <= i <= es.len(),
        left_rows(plan, es.subrange(0, i), src).len() > 0,
        full(left_rows(plan, es.subrange(0, i), src).len(), plan.limit),
    ensures
        left_rows(plan, es, src) == left_rows(plan, es.subrange(0, i), src),
    decreases es.len() - i,
{
    if i < es.len() {
        let next = es.subrange(0, i + 1);
        assert(next.drop_last() =~= es.subrange(0, i));
        lemma_left_done(plan, es, i + 1, src);
    } else {
        assert(es.subrange(0, i) =~= es);
    }
}

fn rows_of_left(plan: &JoinPlan, src: &JoinSources<'_>) -> (r: Vec<Row>)
    requires
        src.right.len() == plan.joins.len(),
    ensures
        rows::row_views(r@) == left_rows(*plan, src.left@, *src),
{
    let mut r: Vec<Row> = Vec::new();
    let ghost all = src.left@;
    proof {
        assert(rows::row_views(r@) =~= left_rows(*plan, all.subrange(0, 0), *src));
    }
    let mut i: usize = 0;
    while i < src.left.len()
        invariant
            i <= src.left.len(),
            src.right.len() == plan.joins.len(),
            all == src.left@,
            rows::row_views(r@) == left_rows(*plan, all.subrange(0, i as int), *src),
        decreases src.left.len() - i,
    {
        let ghost before = rows::row_views(r@);
        if r.len() > 0 && is_full(r.len(), plan.limit) {
            proof {
                lemma_left_done(*plan, all, i as int, *src);
            }
            return r;
        }
        proof {
            let next = all.subrange(0, i as int + 1);
            assert(next.drop_last() =~= all.subrange(0, i as int));
            assert(next.last() == all[i as int]);
        }
        if let Some(m) = combine(plan, &src.left[i], src) {
            if let Some(row) = answer_row(&m, plan) {
                r.push(row);
                proof {
                    assert(rows::row_views(r@) =~= before.push(row@));
                }
            }
        }
        i += 1;
    }
    assert(all.subrange(0, all.len() as int) =~= all);
    r
}

fn holds_id(rows: &Vec<Row>, alias: &str, id: &LogicalId) -> (b: bool)
    ensures
        b == id_answered(rows::row_views(rows@), alias@, id@),
{
    let key = cat3(alias, ".", "id");
    let ghost all = rows::row_views(rows@);
    let mut i: usize = 0;
    while i < rows.len()
        invariant
            i <= rows.len(),
            all == rows::row_views(rows@),
            key@ == qualified(alias@, filter::id_field()),
            forall|j: int|
                0 <= j < i ==> filter::field_of((#[trigger] all[j]).values, key@) != Some(Val::Str(id@)),
        decreases rows.len() - i,
    {
        assert(all[i as int] == rows@[i as int]@);
        match rows[i].values.get(key.as_str()) {
            Some(Value::String(s)) => {
                if text_equal(s.as_str(), id.as_str()) {
                    return true;
                }
            },
            _ => {},
        }
        i += 1;
    }
    false
}

proof fn lemma_right_done(plan: JoinPlan, join: JoinClause, start: Seq<RowView>, es: Seq<Entity>, i: int)
    requires
        0 <= i <= es.len(),
        right_rows(plan, join, start, es.subrange(0, i)).len() > start.len(),
        full(right_rows(plan, join, start, es.subrange(0, i)).len(), plan.limit),
    ensures
        right_rows(plan, join, start, es) == right_rows(plan, join, start, es.subrange(0, i)),
    decreases es.len() - i,
{
    if i < es.len() {
        let next = es.subrange(0, i + 1);
        assert(next.drop_last() =~= es.subrange(0, i));
        lemma_right_done(plan, join, start, es, i + 1);
    } else {
        assert(es.subrange(0, i) =~= es);
    }
}

fn add_unmatched(plan: &JoinPlan, join: &JoinClause, es: &Vec<Entity>, r: &mut Vec<Row>)
    ensures
        rows::row_views(final(r)@) == right_rows(*plan, *join, rows::row_views(old(r)@), es@),
{
    let ghost start = rows::row_views(r@);
    let ghost all = es@;
    let had = r.len();
    let mut i: usize = 0;
    while i < es.len()
        invariant
            i <= es.len(),
            all == es@,
            had == start.len(),
            start == rows::row_views(old(r)@),
            rows::row_views(r@) == right_rows(*plan, *join, start, all.subrange(0, i as int)),
        decreases es.len() - i,
    {
        let ghost before = rows::row_views(r@);
        if r.len() > had && is_full(r.len(), plan.limit) {
            proof {
                lemma_right_done(*plan, *join, start, all, i as int);
            }
            return;
        }
        proof {
            let next = all.subrange(0, i as int + 1);
            assert(next.drop_last() =~= all.subrange(0, i as int));
            assert(next.last() == all[i as int]);
        }
        if !holds_id(r, join.alias.as_str(), &es[i].id) {
            let mut m = FieldMap::new();
            m.insert(cat3(plan.from_alias.as_str(), ".", "id"), Value::Null);
            add_fields(&mut m, join.alias.as_str(), &es[i]);
            if let Some(row) = answer_row(&m, plan) {
                r.push(row);
                proof {
                    assert(rows::row_views(r@) =~= before.push(row@));
                }
            }
        }
        i += 1;
    }
    assert(all.subrange(0, all.len() as int) =~= all);
}

/// The answer of a JOIN.
pub fn join_answer(plan: &JoinPlan, src: &JoinSources<'_>) -> (r: QueryResult)
    requires
        src.right.len() == plan.joins.len(),
    ensures
        rows::row_views(r.rows@) == join_rows(*plan, plan.joins@.len(), *src),
        match plan.fields {
            JoinFieldList::Named(qfs) => text::views(r.columns@) == qualified_names(qfs@),
            JoinFieldList::All => rows::sorted_columns(r.rows@, text::views(r.columns@)),
        },
        r.entities_scanned == r.rows.len(),
        r.mode == QueryMode::Deterministic,
        r.tier@ == "Fjall"@,
{
    let mut rows = rows_of_left(plan, src);
    let mut n: usize = 0;
    while n < plan.joins.len()
        invariant
            n <= plan.joins.len(),
            src.right.len() == plan.joins.len(),
            rows::row_views(rows@) == join_rows(*plan, n as nat, *src),
        decreases plan.joins.len() - n,
    {
        let join = &plan.joins[n];
        match join.join_type {
            JoinType::Right | JoinType::Full => {
                add_unmatched(plan, join, &src.right[n], &mut rows);
            },
            _ => {},
        }
        n += 1;
    }
    let columns = build_join_columns(&rows, &plan.fields);
    let scanned = rows.len();
    QueryResult {
        columns,
        rows,
        entities_scanned: scanned,
        mode: QueryMode::Deterministic,
        tier: own("Fjall"),
    }
}

/// Whether every clause of a plan keeps FROM entities without a partner.
pub open spec fn keeps_left(plan: JoinPlan) -> bool {
    forall|i: int|
        0 <= i < plan.joins@.len() ==> ((#[trigger] plan.joins@[i]).join_type == JoinType::Left
            || plan.joins@[i].join_type == JoinType::Full)
}

proof fn lemma_combined_kept(plan: JoinPlan, n: nat, e: Entity, src: JoinSources<'_>)
    requires
        keeps_left(plan),
        n <= plan.joins@.len(),
    ensures
        combined(plan, n, e, src) is Some,
    decreases n,
{
    if n > 0 {
        lemma_combined_kept(plan, (n - 1) as nat, e, src);
        assert(plan.joins@[n - 1].join_type == JoinType::Left || plan.joins@[n - 1].join_type == JoinType::Full);
    }
}

/// LEFT and FULL clauses alone, with no filter and no limit reached, answer exactly
/// one row for each FROM entity, in order.
pub proof fn lemma_left_join_keeps_all(plan: JoinPlan, es: Seq<Entity>, src: JoinSources<'_>)
    requires
        keeps_left(plan),
        plan.filter is None,
        !full(es.len(), plan.limit),
    ensures
        left_rows(plan, es, src).len() == es.len(),
        forall|i: int|
            0 <= i < es.len() ==> combined(plan, plan.joins@.len(), #[trigger] es[i], src) is Some && left_rows(
                plan,
                es,
                src,
            )[i].values == join_projected(combined(plan, plan.joins@.len(), es[i], src)->0, plan.fields),
    decreases es.len(),
{
    if es.len() > 0 {
        let head = es.drop_last();
        lemma_left_join_keeps_all(plan, head, src);
        lemma_combined_kept(plan, plan.joins@.len(), es.last(), src);
        assert forall|i: int| 0 <= i < es.len() implies combined(plan, plan.joins@.len(), #[trigger] es[i], src) is Some
            && left_rows(plan, es, src)[i].values == join_projected(
            combined(plan, plan.joins@.len(), es[i], src)->0,
            plan.fields,
        ) by {
            if i < head.len() {
                assert(head[i] == es[i]);
            }
        }
    }
}

/// A row that an INNER clause takes part in has a partner under that clause.
pub proof fn lemma_inner_join_matches(plan: JoinPlan, n: nat, e: Entity, src: JoinSources<'_>)
    requires
        n < plan.joins@.len(),
        plan.joins@[n as int].join_type == JoinType::Inner || plan.joins@[n as int].join_type == JoinType::Right,
        combined(plan, plan.joins@.len(), e, src) is Some,
    ensures
        partner(plan, n as int, e, src) is Some,
{
    if partner(plan, n as int, e, src) is None {
        assert(combined(plan, (n + 1) as nat, e, src) is None);
        lemma_dropped(plan, (n + 1) as nat, plan.joins@.len(), e, src);
    }
}

/// Whether the fields asked for include the id under an alias.
pub open spec fn asks_id(fields: JoinFieldList, alias: Seq<char>) -> bool {
    match fields {
        JoinFieldList::All => true,
        JoinFieldList::Named(qfs) => qualified_names(qfs@).contains(qualified(alias, filter::id_field())),
    }
}

proof fn lemma_answered_push(rows: Seq<RowView>, r: RowView, alias: Seq<char>, id: Seq<char>)
    ensures
        id_answered(rows, alias, id) ==> id_answered(rows.push(r), alias, id),
        filter::field_of(r.values, qualified(alias, filter::id_field())) == Some(Val::Str(id)) ==> id_answered(
            rows.push(r),
            alias,
            id,
        ),
{
    let more = rows.push(r);
    if id_answered(rows, alias, id) {
        let i = choose|i: int|
            0 <= i < rows.len() && filter::field_of(
                (#[trigger] rows[i]).values,
                qualified(alias, filter::id_field()),
            ) == Some(Val::Str(id));
        assert(more[i] == rows[i]);
    }
    assert(more[rows.len() as int] == r);
}

/// A RIGHT or FULL clause, with no filter and no limit reached, leaves no entity of
/// its collection out, where the id is asked for and no field of an entity is named
/// as the id is.
pub proof fn lemma_right_join_keeps_all(plan: JoinPlan, join: JoinClause, start: Seq<RowView>, es: Seq<Entity>)
    requires
        plan.filter is None,
        asks_id(plan.fields, join.alias@),
        !full(right_rows(plan, join, start, es).len(), plan.limit),
        forall|i: int| 0 <= i < es.len() ==> !(#[trigger] es[i]).metadata@.contains_key(filter::id_field()),
    ensures
        forall|i: int|
            0 <= i < es.len() ==> id_answered(
                right_rows(plan, join, start, es),
                join.alias@,
                (#[trigger] es[i]).id@,
            ),
        right_rows(plan, join, start, es).len() <= start.len() + es.len(),
    decreases es.len(),
{
    if es.len() > 0 {
        let head = es.drop_last();
        let before = right_rows(plan, join, start, head);
        let after = right_rows(plan, join, start, es);
        let e = es.last();
        assert(before.len() <= after.len());
        assert forall|i: int| 0 <= i < head.len() implies !(#[trigger] head[i]).metadata@.contains_key(
            filter::id_field(),
        ) by {
            assert(head[i] == es[i]);
        }
        lemma_right_join_keeps_all(plan, join, start, head);
        lemma_qualified(join.alias@, filter::id_field());
        let m = unmatched(plan, join, e);
        assert(es[es.len() - 1] == e);
        assert(m[qualified(join.alias@, filter::id_field())] == Val::Str(e.id@));
        let r = RowView { values: join_projected(m, plan.fields), score: None };
        assert forall|i: int| 0 <= i < es.len() implies id_answered(after, join.alias@, (#[trigger] es[i]).id@) by {
            lemma_answered_push(before, r, join.alias@, es[i].id@);
            if i < head.len() {
                assert(head[i] == es[i]);
            }
        }
    }
}

} // verus!
