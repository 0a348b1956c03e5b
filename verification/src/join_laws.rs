//! What a JOIN answers: its partners, its combined rows and their order.

use vstd::prelude::*;
use vstd::string::*;

use crate::edge;
use crate::edge::{AdjView, EdgeType, EntryView};
use crate::filter;
use crate::float_bits;
use crate::join;
use crate::join::{JoinClause, JoinFieldList, JoinPlan, JoinSources, JoinType};
use crate::rows::RowView;
use crate::selection;
use crate::types::Entity;
use crate::value::Val;

verus! {

/// Whether an entity with an id is stored.
pub open spec fn stored(es: Seq<Entity>, id: Seq<char>) -> bool {
    exists|i: int| 0 <= i < es.len() && (#[trigger] es[i]).id@ == id
}

/// Whether a confidence is a number and at least a threshold, which is one too.
pub open spec fn at_least(confidence: u32, threshold: u32) -> bool {
    &&& !float_bits::f32_is_nan(confidence)
    &&& !float_bits::f32_is_nan(threshold)
    &&& float_bits::f32_key(threshold) <= float_bits::f32_key(confidence)
}

/// Whether a clause with a threshold may follow an edge: it leads to a stored entity with
/// at least that confidence.
pub open spec fn followable(e: EntryView, threshold: u32, es: Seq<Entity>) -> bool {
    stored(es, e.to_id) && at_least(e.confidence, threshold)
}

/// Whether an edge of a type that leads from one collection to another leaves a source.
pub open spec fn joins_from(
    v: AdjView,
    types: Seq<EdgeType>,
    from: Seq<char>,
    to: Seq<char>,
    source: Seq<char>,
    e: EntryView,
) -> bool {
    exists|k: int|
        0 <= k < types.len() && (#[trigger] types[k]).from_collection@ == from && types[k].to_collection@ == to
            && edge::list_at(v.forward, (source, types[k].name@)).contains(e)
}

proof fn lemma_joining_edges(
    v: AdjView,
    types: Seq<EdgeType>,
    from: Seq<char>,
    to: Seq<char>,
    source: Seq<char>,
    e: EntryView,
)
    ensures
        join::joining_edges(v, types, from, to, source).contains(e) <==> joins_from(v, types, from, to, source, e),
    decreases types.len(),
{
    let all = join::joining_edges(v, types, from, to, source);
    if types.len() > 0 {
        let head = types.drop_last();
        let t = types.last();
        let before = join::joining_edges(v, head, from, to, source);
        let list = edge::list_at(v.forward, (source, t.name@));
        lemma_joining_edges(v, head, from, to, source, e);
        if joins_from(v, head, from, to, source, e) {
            let k = choose|k: int|
                0 <= k < head.len() && (#[trigger] head[k]).from_collection@ == from && head[k].to_collection@ == to
                    && edge::list_at(v.forward, (source, head[k].name@)).contains(e);
            assert(types[k] == head[k]);
            let i = choose|i: int| 0 <= i < before.len() && before[i] == e;
            assert(all[i] == e);
        }
        if t.from_collection@ == from && t.to_collection@ == to && list.contains(e) {
            let i = choose|i: int| 0 <= i < list.len() && list[i] == e;
            assert(all[before.len() + i] == e);
            assert(types[types.len() - 1] == t);
        }
        if all.contains(e) {
            let i = choose|i: int| 0 <= i < all.len() && all[i] == e;
            if i < before.len() {
                assert(before[i] == e);
            } else {
                assert(list[i - before.len()] == e);
                assert(types[types.len() - 1] == t);
            }
        }
        if joins_from(v, types, from, to, source, e) {
            let k = choose|k: int|
                0 <= k < types.len() && (#[trigger] types[k]).from_collection@ == from && types[k].to_collection@ == to
                    && edge::list_at(v.forward, (source, types[k].name@)).contains(e);
            if k < head.len() {
                assert(head[k] == types[k]);
            }
        }
    }
}

proof fn lemma_first_is_stored(es: Seq<Entity>, id: Seq<char>)
    ensures
        match join::first_with(es, filter::id_field(), id) {
            Some(i) => 0 <= i < es.len() && es[i].id@ == id,
            None => !stored(es, id),
        },
    decreases es.len(),
{
    if es.len() > 0 {
        let head = es.drop_last();
        lemma_first_is_stored(head, id);
        assert(es[es.len() - 1] == es.last());
        if stored(es, id) && !stored(head, id) {
            let i = choose|i: int| 0 <= i < es.len() && (#[trigger] es[i]).id@ == id;
            if i < head.len() {
                assert(head[i] == es[i]);
            }
        }
    }
}

/// Whether the edge at a place is the one that a clause follows: no other that it may
/// follow has a greater confidence, and none before it has one as great.
pub open spec fn is_best(edges: Seq<EntryView>, threshold: u32, es: Seq<Entity>, at: int) -> bool {
    &&& 0 <= at < edges.len()
    &&& followable(edges[at], threshold, es)
    &&& forall|j: int|
        0 <= j < edges.len() && followable(#[trigger] edges[j], threshold, es) ==> float_bits::f32_key(
            edges[j].confidence,
        ) <= float_bits::f32_key(edges[at].confidence)
    &&& forall|j: int|
        0 <= j < at && followable(#[trigger] edges[j], threshold, es) ==> float_bits::f32_key(edges[j].confidence)
            < float_bits::f32_key(edges[at].confidence)
}

/// The edge that a clause follows is the strongest that it may follow, the first of them
/// where some are as strong; none is followed exactly where none may be.
pub proof fn lemma_best_edge(edges: Seq<EntryView>, threshold: u32, es: Seq<Entity>)
    ensures
        match join::best_edge(edges, threshold, es) {
            Some(b) => exists|at: int| #[trigger] is_best(edges, threshold, es, at) && edges[at].confidence == b.1
                && 0 <= b.0 < es.len() && es[b.0].id@ == edges[at].to_id,
            None => forall|j: int| 0 <= j < edges.len() ==> !followable(#[trigger] edges[j], threshold, es),
        },
    decreases edges.len(),
{
    if edges.len() > 0 {
        let head = edges.drop_last();
        let n = head.len() as int;
        let e = edges.last();
        assert(edges[n] == e);
        lemma_best_edge(head, threshold, es);
        lemma_first_is_stored(es, e.to_id);
        match join::best_edge(head, threshold, es) {
            Some(b) => {
                let at = choose|at: int| #[trigger] is_best(head, threshold, es, at) && head[at].confidence == b.1
                    && 0 <= b.0 < es.len() && es[b.0].id@ == head[at].to_id;
                assert(edges[at] == head[at]);
                if followable(e, threshold, es) && float_bits::f32_key(b.1) < float_bits::f32_key(e.confidence) {
                    assert forall|j: int|
                        0 <= j < n && followable(#[trigger] edges[j], threshold, es) implies float_bits::f32_key(
                        edges[j].confidence,
                    ) < float_bits::f32_key(e.confidence) by {
                        assert(head[j] == edges[j]);
                    }
                    assert(is_best(edges, threshold, es, n));
                } else {
                    assert forall|j: int|
                        0 <= j < edges.len() && followable(#[trigger] edges[j], threshold, es) implies float_bits::f32_key(
                        edges[j].confidence,
                    ) <= float_bits::f32_key(edges[at].confidence) by {
                        if j < n {
                            assert(head[j] == edges[j]);
                        }
                    }
                    assert forall|j: int|
                        0 <= j < at && followable(#[trigger] edges[j], threshold, es) implies float_bits::f32_key(
                        edges[j].confidence,
                    ) < float_bits::f32_key(edges[at].confidence) by {
                        assert(head[j] == edges[j]);
                    }
                    assert(is_best(edges, threshold, es, at));
                }
            },
            None => {
                assert forall|j: int| 0 <= j < n implies !followable(#[trigger] edges[j], threshold, es) by {
                    assert(head[j] == edges[j]);
                }
                if followable(e, threshold, es) {
                    assert(is_best(edges, threshold, es, n));
                }
            },
        }
    }
}

/// Whether an entity joins on a text: its id, or the text that the field holds.
pub open spec fn joins_on(e: Entity, field: Seq<char>, s: Seq<char>) -> bool {
    if field == "id"@ {
        e.id@ == s
    } else {
        e.metadata@.contains_key(field) && e.metadata@[field] == Val::Str(s)
    }
}

/// A clause with a threshold joins an entity with the strongest of the edges that it may
/// follow. Where it finds a partner with a confidence, no edge of the joining types from
/// the source to a stored entity, with at least the confidence of the threshold, has a
/// greater confidence; and the confidence is that of such an edge to the partner. Where
/// it finds none there is no such edge.
pub proof fn lemma_strongest_edge_joins(plan: JoinPlan, n: int, e: Entity, src: JoinSources<'_>, threshold: u32, s: Seq<char>)
    requires
        0 <= n < plan.joins@.len(),
        plan.joins@[n].confidence_threshold == Some(threshold),
        joins_on(e, plan.joins@[n].on_left.field@, s),
    ensures
        ({
            let from = join::alias_collection(
                plan.from_alias@,
                plan.from_collection@,
                plan.joins@,
                plan.joins@[n].on_left.alias@,
            );
            let to = plan.joins@[n].collection@;
            let es = src.right@[n]@;
            match join::partner(plan, n, e, src) {
                Some(b) => {
                    &&& 0 <= b.0 < es.len()
                    &&& at_least(b.1, threshold)
                    &&& exists|x: EntryView| #[trigger]
                        joins_from(src.adjacency@, src.edge_types@, from, to, s, x) && x.to_id == es[b.0].id@
                            && x.confidence == b.1
                    &&& forall|x: EntryView| #[trigger]
                        joins_from(src.adjacency@, src.edge_types@, from, to, s, x) && followable(x, threshold, es)
                            ==> !float_bits::f32_lt(b.1, x.confidence)
                },
                None => forall|x: EntryView| #[trigger]
                    joins_from(src.adjacency@, src.edge_types@, from, to, s, x) ==> !followable(x, threshold, es),
            }
        }),
{
    let from = join::alias_collection(
        plan.from_alias@,
        plan.from_collection@,
        plan.joins@,
        plan.joins@[n].on_left.alias@,
    );
    let to = plan.joins@[n].collection@;
    let es = src.right@[n]@;
    let edges = join::joining_edges(src.adjacency@, src.edge_types@, from, to, s);
    assert(join::text_at(e, plan.joins@[n].on_left.field@) == Some(s));
    lemma_best_edge(edges, threshold, es);
    match join::partner(plan, n, e, src) {
        Some(b) => {
            let at = choose|at: int| #[trigger] is_best(edges, threshold, es, at) && edges[at].confidence == b.1 && 0
                <= b.0 < es.len() && es[b.0].id@ == edges[at].to_id;
            assert(edges.contains(edges[at]));
            lemma_joining_edges(src.adjacency@, src.edge_types@, from, to, s, edges[at]);
            assert forall|x: EntryView| #[trigger]
                joins_from(src.adjacency@, src.edge_types@, from, to, s, x) && followable(x, threshold, es)
                implies !float_bits::f32_lt(b.1, x.confidence) by {
                lemma_joining_edges(src.adjacency@, src.edge_types@, from, to, s, x);
                let j = choose|j: int| 0 <= j < edges.len() && edges[j] == x;
                assert(followable(edges[j], threshold, es));
            }
        },
        None => {
            assert forall|x: EntryView| #[trigger]
                joins_from(src.adjacency@, src.edge_types@, from, to, s, x) implies !followable(x, threshold, es) by {
                lemma_joining_edges(src.adjacency@, src.edge_types@, from, to, s, x);
                let j = choose|j: int| 0 <= j < edges.len() && edges[j] == x;
                assert(!followable(edges[j], threshold, es));
            }
        },
    }
}

/// A clause without a threshold joins an entity with the first entity of its collection
/// that joins on the same text, with full confidence; and with none where there is none,
/// or where the entity has no text to join on.
pub proof fn lemma_first_equal_joins(plan: JoinPlan, n: int, e: Entity, src: JoinSources<'_>)
    requires
        0 <= n < plan.joins@.len(),
        plan.joins@[n].confidence_threshold is None,
    ensures
        ({
            let left = plan.joins@[n].on_left.field@;
            let right = plan.joins@[n].on_right.field@;
            let es = src.right@[n]@;
            match join::partner(plan, n, e, src) {
                Some(b) => {
                    &&& b.1 == 0x3f80_0000u32
                    &&& 0 <= b.0 < es.len()
                    &&& exists|s: Seq<char>| #[trigger] joins_on(e, left, s) && joins_on(es[b.0], right, s)
                    &&& forall|s: Seq<char>, i: int|
                        #![trigger joins_on(e, left, s), es[i]]
                        joins_on(e, left, s) && 0 <= i < b.0 ==> !joins_on(es[i], right, s)
                },
                None => forall|s: Seq<char>, i: int|
                    #![trigger joins_on(e, left, s), es[i]]
                    joins_on(e, left, s) && 0 <= i < es.len() ==> !joins_on(es[i], right, s),
            }
        }),
{
    let left = plan.joins@[n].on_left.field@;
    let right = plan.joins@[n].on_right.field@;
    let es = src.right@[n]@;
    match join::text_at(e, left) {
        Some(s) => {
            assert(joins_on(e, left, s));
            lemma_first_with(es, right, s);
        },
        None => {},
    }
}

proof fn lemma_first_with(es: Seq<Entity>, field: Seq<char>, s: Seq<char>)
    ensures
        match join::first_with(es, field, s) {
            Some(i) => 0 <= i < es.len() && joins_on(es[i], field, s) && forall|j: int|
                0 <= j < i ==> !joins_on(#[trigger] es[j], field, s),
            None => forall|j: int| 0 <= j < es.len() ==> !joins_on(#[trigger] es[j], field, s),
        },
    decreases es.len(),
{
    if es.len() > 0 {
        let head = es.drop_last();
        lemma_first_with(head, field, s);
        assert forall|j: int| 0 <= j < head.len() implies head[j] == #[trigger] es[j] by {}
        assert(es[es.len() - 1] == es.last());
    }
}

/// An alias stands for the collection of the last clause that declares it, or else for
/// that of FROM where it is its alias, and for none where nothing declares it.
pub proof fn lemma_alias_stands_for(plan: JoinPlan, alias: Seq<char>)
    ensures
        forall|i: int|
            0 <= i < plan.joins@.len() && (#[trigger] plan.joins@[i]).alias@ == alias && (forall|j: int|
                i < j < plan.joins@.len() ==> (#[trigger] plan.joins@[j]).alias@ != alias) ==> join::alias_collection(
                plan.from_alias@,
                plan.from_collection@,
                plan.joins@,
                alias,
            ) == plan.joins@[i].collection@,
        (forall|j: int| 0 <= j < plan.joins@.len() ==> (#[trigger] plan.joins@[j]).alias@ != alias) ==> (alias
            == plan.from_alias@ ==> join::alias_collection(plan.from_alias@, plan.from_collection@, plan.joins@, alias)
            == plan.from_collection@),
        (forall|j: int| 0 <= j < plan.joins@.len() ==> (#[trigger] plan.joins@[j]).alias@ != alias) ==> (alias
            != plan.from_alias@ ==> join::alias_collection(
            plan.from_alias@,
            plan.from_collection@,
            plan.joins@,
            alias,
        ).len() == 0),
{
    lemma_alias(plan.from_alias@, plan.from_collection@, plan.joins@, alias);
}

proof fn lemma_alias(from_alias: Seq<char>, from: Seq<char>, joins: Seq<JoinClause>, alias: Seq<char>)
    ensures
        forall|i: int|
            0 <= i < joins.len() && (#[trigger] joins[i]).alias@ == alias && (forall|j: int|
                i < j < joins.len() ==> (#[trigger] joins[j]).alias@ != alias) ==> join::alias_collection(
                from_alias,
                from,
                joins,
                alias,
            ) == joins[i].collection@,
        (forall|j: int| 0 <= j < joins.len() ==> (#[trigger] joins[j]).alias@ != alias) && alias == from_alias
            ==> join::alias_collection(from_alias, from, joins, alias) == from,
        (forall|j: int| 0 <= j < joins.len() ==> (#[trigger] joins[j]).alias@ != alias) && alias != from_alias
            ==> join::alias_collection(from_alias, from, joins, alias).len() == 0,
    decreases joins.len(),
{
    if joins.len() > 0 {
        let head = joins.drop_last();
        lemma_alias(from_alias, from, head, alias);
        assert(joins[joins.len() - 1] == joins.last());
        assert forall|j: int| 0 <= j < head.len() implies #[trigger] head[j] == joins[j] by {}
        assert forall|i: int|
            0 <= i < joins.len() && (#[trigger] joins[i]).alias@ == alias && (forall|j: int|
                i < j < joins.len() ==> (#[trigger] joins[j]).alias@ != alias) implies join::alias_collection(
            from_alias,
            from,
            joins,
            alias,
        ) == joins[i].collection@ by {
            if i < head.len() {
                assert(head[i] == joins[i]);
                assert forall|j: int| i < j < head.len() implies (#[trigger] head[j]).alias@ != alias by {
                    assert(head[j] == joins[j]);
                }
            }
        }
        if joins.last().alias@ != alias && alias == from_alias && (forall|j: int|
            0 <= j < joins.len() ==> (#[trigger] joins[j]).alias@ != alias) {
            assert forall|j: int| 0 <= j < head.len() implies (#[trigger] head[j]).alias@ != alias by {
                assert(head[j] == joins[j]);
            }
        }
    }
}

/// Whether a name is one that a clause writes: a field under its alias, or the confidence
/// of its edge.
pub open spec fn writes(join: JoinClause, name: Seq<char>) -> bool {
    ||| join.alias@ + "."@ == name.take((join.alias@ + "."@).len() as int) && (join.alias@ + "."@).len()
        <= name.len()
    ||| name == "_edge.confidence"@
}

/// Whether a row holds an entity under an alias, as far as a name goes: its id, and each
/// of its fields.
pub open spec fn holds_under(row: Map<Seq<char>, Val>, alias: Seq<char>, e: Entity, f: Seq<char>) -> bool {
    let name = alias + "."@ + f;
    &&& e.metadata@.contains_key(f) ==> row.contains_key(name) && row[name] == e.metadata@[f]
    &&& !e.metadata@.contains_key(f) && f == "id"@ ==> row.contains_key(name) && row[name] == Val::Str(e.id@)
}

proof fn lemma_name_under(alias: Seq<char>, f: Seq<char>)
    ensures
        join::is_qualified(alias, alias + "."@ + f),
        join::unqualified(alias, alias + "."@ + f) == f,
{
    let p = alias + "."@;
    let q = alias + "."@ + f;
    assert(q.subrange(0, p.len() as int) =~= p);
    assert(q.skip(p.len() as int) =~= f);
}

proof fn lemma_row_keeps(plan: JoinPlan, n: nat, m: nat, e: Entity, src: JoinSources<'_>, name: Seq<char>)
    requires
        n <= m <= plan.joins@.len(),
        combined_is(plan, m, e, src),
        forall|j: int| n <= j < m ==> !writes(#[trigger] plan.joins@[j], name),
    ensures
        combined_is(plan, n, e, src),
        join::combined(plan, m, e, src)->0.contains_key(name) == join::combined(plan, n, e, src)->0.contains_key(name),
        join::combined(plan, n, e, src)->0.contains_key(name) ==> join::combined(plan, m, e, src)->0[name]
            == join::combined(plan, n, e, src)->0[name],
    decreases m - n,
{
    if n < m {
        let k = (m - 1) as nat;
        assert(combined_is(plan, k, e, src));
        lemma_row_keeps(plan, n, k, e, src, name);
        let join = plan.joins@[k as int];
        assert(!writes(join, name));
        let p = join.alias@ + "."@;
        if p.len() <= name.len() {
            assert(name.take(p.len() as int) =~= name.subrange(0, p.len() as int));
        }
        assert(!join::is_qualified(join.alias@, name));
        lemma_name_under(join.alias@, "id"@);
        assert(name != join.alias@ + "."@ + "id"@);
    }
}

/// Whether an entity has a combined row under the first clauses of a plan.
pub open spec fn combined_is(plan: JoinPlan, n: nat, e: Entity, src: JoinSources<'_>) -> bool {
    join::combined(plan, n, e, src) is Some
}

/// A combined row holds the FROM entity under its alias: its id and each of its fields,
/// where no clause writes the same name.
pub proof fn lemma_row_holds_left(plan: JoinPlan, e: Entity, src: JoinSources<'_>, f: Seq<char>)
    requires
        combined_is(plan, plan.joins@.len(), e, src),
        forall|j: int|
            0 <= j < plan.joins@.len() ==> !writes(#[trigger] plan.joins@[j], plan.from_alias@ + "."@ + f),
    ensures
        holds_under(join::combined(plan, plan.joins@.len(), e, src)->0, plan.from_alias@, e, f),
{
    lemma_row_keeps(plan, 0, plan.joins@.len(), e, src, plan.from_alias@ + "."@ + f);
    lemma_name_under(plan.from_alias@, f);
}

/// A combined row holds the partner under each clause that found one, under the alias of
/// the clause: its id and each of its fields, where no later clause writes the same name
/// and it is not that of the confidence of an edge.
pub proof fn lemma_row_holds_partner(
    plan: JoinPlan,
    n: int,
    e: Entity,
    src: JoinSources<'_>,
    b: (int, u32),
    f: Seq<char>,
)
    requires
        0 <= n < plan.joins@.len(),
        combined_is(plan, plan.joins@.len(), e, src),
        join::partner(plan, n, e, src) == Some(b),
        plan.joins@[n].alias@ + "."@ + f != "_edge.confidence"@,
        forall|j: int|
            n < j < plan.joins@.len() ==> !writes(#[trigger] plan.joins@[j], plan.joins@[n].alias@ + "."@ + f),
    ensures
        holds_under(
            join::combined(plan, plan.joins@.len(), e, src)->0,
            plan.joins@[n].alias@,
            src.right@[n]@[b.0],
            f,
        ),
{
    let name = plan.joins@[n].alias@ + "."@ + f;
    lemma_row_keeps(plan, (n + 1) as nat, plan.joins@.len(), e, src, name);
    lemma_name_under(plan.joins@[n].alias@, f);
    assert(combined_is(plan, n as nat, e, src));
}

/// A combined row holds, under the name of the confidence of an edge, that of the last
/// clause with a threshold that found a partner, where no other field goes by that name.
pub proof fn lemma_row_holds_confidence(plan: JoinPlan, n: int, e: Entity, src: JoinSources<'_>, b: (int, u32))
    requires
        0 <= n < plan.joins@.len(),
        combined_is(plan, plan.joins@.len(), e, src),
        plan.joins@[n].confidence_threshold is Some,
        join::partner(plan, n, e, src) == Some(b),
        forall|j: int|
            n < j < plan.joins@.len() ==> (#[trigger] plan.joins@[j]).confidence_threshold is None || join::partner(
                plan,
                j,
                e,
                src,
            ) is None,
        forall|j: int|
            n < j < plan.joins@.len() ==> !join::is_qualified(
                (#[trigger] plan.joins@[j]).alias@,
                "_edge.confidence"@,
            ),
    ensures
        join::combined(plan, plan.joins@.len(), e, src)->0.contains_key("_edge.confidence"@),
        join::combined(plan, plan.joins@.len(), e, src)->0["_edge.confidence"@] == Val::Float(
            float_bits::f32_to_f64(b.1),
        ),
{
    lemma_confidence_keeps(plan, n, plan.joins@.len(), e, src, b);
}

proof fn lemma_confidence_keeps(plan: JoinPlan, n: int, m: nat, e: Entity, src: JoinSources<'_>, b: (int, u32))
    requires
        0 <= n < m <= plan.joins@.len(),
        combined_is(plan, m, e, src),
        plan.joins@[n].confidence_threshold is Some,
        join::partner(plan, n, e, src) == Some(b),
        forall|j: int|
            n < j < plan.joins@.len() ==> (#[trigger] plan.joins@[j]).confidence_threshold is None || join::partner(
                plan,
                j,
                e,
                src,
            ) is None,
        forall|j: int|
            n < j < plan.joins@.len() ==> !join::is_qualified(
                (#[trigger] plan.joins@[j]).alias@,
                "_edge.confidence"@,
            ),
    ensures
        join::combined(plan, m, e, src)->0.contains_key("_edge.confidence"@),
        join::combined(plan, m, e, src)->0["_edge.confidence"@] == Val::Float(
            float_bits::f32_to_f64(b.1),
        ),
    decreases m,
{
    let k = (m - 1) as nat;
    assert(combined_is(plan, k, e, src));
    if n < k {
        lemma_confidence_keeps(plan, n, k, e, src, b);
        let join = plan.joins@[k as int];
        assert(!join::is_qualified(join.alias@, "_edge.confidence"@));
        lemma_name_under(join.alias@, "id"@);
    }
}

/// A LEFT or FULL clause without a partner leaves a null for its id, where no later clause
/// writes that name.
pub proof fn lemma_row_without_partner(plan: JoinPlan, n: int, e: Entity, src: JoinSources<'_>)
    requires
        0 <= n < plan.joins@.len(),
        combined_is(plan, plan.joins@.len(), e, src),
        join::partner(plan, n, e, src) is None,
        forall|j: int|
            n < j < plan.joins@.len() ==> !writes(#[trigger] plan.joins@[j], plan.joins@[n].alias@ + "."@ + "id"@),
    ensures
        plan.joins@[n].join_type == JoinType::Left || plan.joins@[n].join_type == JoinType::Full,
        join::combined(plan, plan.joins@.len(), e, src)->0.contains_key(plan.joins@[n].alias@ + "."@ + "id"@),
        join::combined(plan, plan.joins@.len(), e, src)->0[plan.joins@[n].alias@ + "."@ + "id"@] == Val::Null,
{
    lemma_row_keeps(plan, (n + 1) as nat, plan.joins@.len(), e, src, plan.joins@[n].alias@ + "."@ + "id"@);
}

/// A JOIN answers the fields of a combined row that are asked for: all, or those named and
/// no other, a field that is absent being null.
pub proof fn lemma_join_projects(m: Map<Seq<char>, Val>, fields: JoinFieldList)
    ensures
        match fields {
            JoinFieldList::All => join::join_projected(m, fields) == m,
            JoinFieldList::Named(qfs) => {
                &&& forall|i: int|
                    0 <= i < qfs@.len() ==> {
                        let name = (#[trigger] qfs@[i]).alias@ + "."@ + qfs@[i].field@;
                        &&& join::join_projected(m, fields).contains_key(name)
                        &&& m.contains_key(name) ==> join::join_projected(m, fields)[name] == m[name]
                        &&& !m.contains_key(name) ==> join::join_projected(m, fields)[name] == Val::Null
                    }
                &&& forall|k: Seq<char>| #[trigger]
                    join::join_projected(m, fields).contains_key(k) ==> exists|i: int|
                        0 <= i < qfs@.len() && k == (#[trigger] qfs@[i]).alias@ + "."@ + qfs@[i].field@
            },
        },
{
    if let JoinFieldList::Named(qfs) = fields {
        let ns = join::qualified_names(qfs@);
        assert forall|i: int| 0 <= i < qfs@.len() implies {
            let name = (#[trigger] qfs@[i]).alias@ + "."@ + qfs@[i].field@;
            join::join_projected(m, fields).contains_key(name)
        } by {
            assert(ns[i] == qfs@[i].alias@ + "."@ + qfs@[i].field@);
            assert(ns.contains(ns[i]));
        }
        assert forall|k: Seq<char>| #[trigger] join::join_projected(m, fields).contains_key(k) implies exists|i: int|
            0 <= i < qfs@.len() && k == (#[trigger] qfs@[i]).alias@ + "."@ + qfs@[i].field@ by {
            let i = choose|i: int| 0 <= i < ns.len() && ns[i] == k;
            assert(qfs@[i].alias@ + "."@ + qfs@[i].field@ == k);
        }
    }
}

/// Whether a combined row is one that the condition of a plan selects, if it has one.
pub open spec fn row_passes(m: Map<Seq<char>, Val>, plan: JoinPlan) -> bool {
    plan.filter matches Some(c) ==> filter::row_sat(m, c)
}

/// The rows of the FROM entities are, while the limit is not reached, those of exactly the
/// entities that have a combined row which the condition selects, in the order of the
/// entities, with the fields asked for and no score.
pub proof fn lemma_left_rows_in_order(plan: JoinPlan, es: Seq<Entity>, src: JoinSources<'_>)
    requires
        join::left_rows(plan, es, src).len() < (match plan.limit {
            Some(l) => l as nat,
            None => usize::MAX as nat,
        }),
    ensures
        selection::is_selection(
            es,
            join::left_rows(plan, es, src),
            |e: Entity| combined_is(plan, plan.joins@.len(), e, src) && row_passes(
                join::combined(plan, plan.joins@.len(), e, src)->0,
                plan,
            ),
            |e: Entity|
                RowView {
                    values: join::join_projected(join::combined(plan, plan.joins@.len(), e, src)->0, plan.fields),
                    score: None,
                },
        ),
    decreases es.len(),
{
    let keep = |e: Entity| combined_is(plan, plan.joins@.len(), e, src) && row_passes(
        join::combined(plan, plan.joins@.len(), e, src)->0,
        plan,
    );
    let make = |e: Entity|
        RowView {
            values: join::join_projected(join::combined(plan, plan.joins@.len(), e, src)->0, plan.fields),
            score: None,
        };
    let after = join::left_rows(plan, es, src);
    if es.len() == 0 {
        selection::lemma_selection_empty(es, after, keep, make);
    } else {
        let before = join::left_rows(plan, es.drop_last(), src);
        assert(before.len() <= after.len());
        lemma_left_rows_in_order(plan, es.drop_last(), src);
        selection::lemma_selection_grows(es, before, after, keep, make);
    }
}

/// The limit of a plan leaves no more rows of the FROM entities than it says, but for one
/// where it is zero; and what more entities add comes after the rows of those before.
pub proof fn lemma_left_rows_limited(plan: JoinPlan, es: Seq<Entity>, src: JoinSources<'_>, i: int)
    requires
        0 <= i <= es.len(),
    ensures
        plan.limit matches Some(l) ==> join::left_rows(plan, es, src).len() <= (if l == 0 {
            1
        } else {
            l as nat
        }),
        join::left_rows(plan, es.take(i), src).is_prefix_of(join::left_rows(plan, es, src)),
        join::left_rows(plan, es.take(i), src).len() > 0 && plan.limit == Some(
            join::left_rows(plan, es.take(i), src).len() as usize,
        ) && join::left_rows(plan, es.take(i), src).len() <= usize::MAX ==> join::left_rows(plan, es, src)
            == join::left_rows(plan, es.take(i), src),
    decreases es.len(),
{
    let all = join::left_rows(plan, es, src);
    let part = join::left_rows(plan, es.take(i), src);
    if i == es.len() {
        assert(es.take(i) =~= es);
        if es.len() > 0 {
            lemma_left_rows_limited(plan, es.drop_last(), src, es.len() - 1);
        }
    } else {
        let head = es.drop_last();
        assert(head.take(i) =~= es.take(i));
        lemma_left_rows_limited(plan, head, src, i);
        let before = join::left_rows(plan, head, src);
        assert(before.is_prefix_of(all));
    }
}

/// The rows added for a RIGHT or FULL clause come after those there were, which stay as
/// they are. Each is that of an entity of the clause whose id no row before it holds, with
/// the fields of the entity under the alias of the clause and a null for the id of FROM,
/// where the condition selects that; and no entity before another in the collection comes
/// after it.
pub proof fn lemma_right_rows_added(plan: JoinPlan, join: JoinClause, start: Seq<RowView>, es: Seq<Entity>)
    ensures
        start.is_prefix_of(join::right_rows(plan, join, start, es)),
        exists|p: Seq<int>| #[trigger] adds_rows(plan, join, start, es, join::right_rows(plan, join, start, es), p),
    decreases es.len(),
{
    let after = join::right_rows(plan, join, start, es);
    if es.len() == 0 {
        assert(adds_rows(plan, join, start, es, after, Seq::empty()));
    } else {
        let head = es.drop_last();
        let before = join::right_rows(plan, join, start, head);
        lemma_right_rows_added(plan, join, start, head);
        let p = choose|p: Seq<int>| #[trigger] adds_rows(plan, join, start, head, before, p);
        let n = head.len() as int;
        let e = es.last();
        assert(es[n] == e);
        let q = if after == before {
            p
        } else {
            p.push(n)
        };
        assert forall|i: int| 0 <= i < p.len() implies es[#[trigger] p[i]] == head[p[i]] by {}
        if after != before {
            let r = RowView { values: join::join_projected(join::unmatched(plan, join, e), plan.fields), score: None };
            assert(after == before.push(r));
            assert(after.take((start.len() + p.len()) as int) =~= before);
        }
        assert forall|i: int| 0 <= i < q.len() implies added_row(
            plan,
            join,
            after.take(start.len() + i),
            es[#[trigger] q[i]],
            after[start.len() + i],
        ) && 0 <= q[i] < es.len() by {
            if i < p.len() {
                assert(q[i] == p[i]);
                assert(after.take(start.len() + i) =~= before.take(start.len() + i));
                assert(added_row(
                    plan,
                    join,
                    before.take(start.len() + i),
                    head[p[i]],
                    before[start.len() + i],
                ));
            }
        }
        assert forall|i: int, j: int| 0 <= i < j < q.len() implies #[trigger] q[i] < #[trigger] q[j] by {
            assert(q[i] == p[i]);
            if j < p.len() {
                assert(q[j] == p[j]);
            }
        }
        assert(adds_rows(plan, join, start, es, after, q));
    }
}

/// Whether a row is that of an entity of a clause that no row before it holds.
pub open spec fn added_row(plan: JoinPlan, join: JoinClause, before: Seq<RowView>, e: Entity, r: RowView) -> bool {
    &&& forall|i: int|
        0 <= i < before.len() ==> !((#[trigger] before[i]).values.contains_key(join.alias@ + "."@ + "id"@)
            && before[i].values[join.alias@ + "."@ + "id"@] == Val::Str(e.id@))
    &&& row_passes(join::unmatched(plan, join, e), plan)
    &&& r.values == join::join_projected(join::unmatched(plan, join, e), plan.fields)
    &&& r.score is None
}

/// Whether rows are those there were followed by rows of the entities at the places `p`.
pub open spec fn adds_rows(
    plan: JoinPlan,
    join: JoinClause,
    start: Seq<RowView>,
    es: Seq<Entity>,
    rs: Seq<RowView>,
    p: Seq<int>,
) -> bool {
    &&& rs.len() == start.len() + p.len()
    &&& start.is_prefix_of(rs)
    &&& forall|i: int|
        0 <= i < p.len() ==> added_row(
            plan,
            join,
            rs.take(start.len() + i),
            es[#[trigger] p[i]],
            rs[start.len() + i],
        ) && 0 <= p[i] < es.len()
    &&& forall|i: int, j: int| 0 <= i < j < p.len() ==> #[trigger] p[i] < #[trigger] p[j]
}

/// The row of an entity that no row holds has the entity under the alias of its clause, and
/// a null for the id of FROM where the clause does not write that name.
pub proof fn lemma_unmatched_row(plan: JoinPlan, join: JoinClause, e: Entity, f: Seq<char>)
    ensures
        holds_under(join::unmatched(plan, join, e), join.alias@, e, f),
        !writes(join, plan.from_alias@ + "."@ + "id"@) ==> join::unmatched(plan, join, e).contains_key(
            plan.from_alias@ + "."@ + "id"@,
        ) && join::unmatched(plan, join, e)[plan.from_alias@ + "."@ + "id"@] == Val::Null,
{
    lemma_name_under(join.alias@, f);
    let name = plan.from_alias@ + "."@ + "id"@;
    let p = join.alias@ + "."@;
    if p.len() <= name.len() {
        assert(name.take(p.len() as int) =~= name.subrange(0, p.len() as int));
    }
}

/// A JOIN answers the rows of its FROM entities first. Each of its clauses then adds rows
/// at the end where it is a RIGHT or a FULL one, and no others.
pub proof fn lemma_join_rows_follow(plan: JoinPlan, n: nat, src: JoinSources<'_>)
    requires
        n <= plan.joins@.len(),
    ensures
        join::left_rows(plan, src.left@, src).is_prefix_of(join::join_rows(plan, n, src)),
        (forall|i: int|
            0 <= i < n ==> ((#[trigger] plan.joins@[i]).join_type == JoinType::Inner || plan.joins@[i].join_type
                == JoinType::Left)) ==> join::join_rows(plan, n, src) == join::left_rows(plan, src.left@, src),
        n > 0 && (plan.joins@[n - 1].join_type == JoinType::Right || plan.joins@[n - 1].join_type == JoinType::Full)
            ==> join::join_rows(plan, n, src) == join::right_rows(
            plan,
            plan.joins@[n - 1],
            join::join_rows(plan, (n - 1) as nat, src),
            src.right@[n - 1]@,
        ),
    decreases n,
{
    if n > 0 {
        lemma_join_rows_follow(plan, (n - 1) as nat, src);
        let before = join::join_rows(plan, (n - 1) as nat, src);
        lemma_right_rows_added(plan, plan.joins@[n - 1], before, src.right@[n - 1]@);
    }
}

/// Whether a name is one under which a combined row may hold something: the id or a field of
/// the FROM entity or of a partner under its alias, the id of a clause without a partner,
/// or the confidence of an edge that a clause followed.
pub open spec fn may_hold(plan: JoinPlan, n: nat, e: Entity, src: JoinSources<'_>, name: Seq<char>) -> bool {
    ||| is_under(plan.from_alias@, e, name)
    ||| exists|j: int| 0 <= j < n && #[trigger] clause_holds(plan, j, e, src, name)
}

/// Whether a name is that of the id or a field of an entity under an alias.
pub open spec fn is_under(alias: Seq<char>, e: Entity, name: Seq<char>) -> bool {
    exists|f: Seq<char>| name == #[trigger] (alias + "."@ + f) && (f == "id"@ || e.metadata@.contains_key(f))
}

/// Whether a clause may put something under a name.
pub open spec fn clause_holds(plan: JoinPlan, j: int, e: Entity, src: JoinSources<'_>, name: Seq<char>) -> bool {
    match join::partner(plan, j, e, src) {
        Some(b) => {
            ||| is_under(plan.joins@[j].alias@, src.right@[j]@[b.0], name)
            ||| plan.joins@[j].confidence_threshold is Some && name == "_edge.confidence"@
        },
        None => name == plan.joins@[j].alias@ + "."@ + "id"@,
    }
}

/// A combined row holds nothing but the FROM entity and the partners under their aliases,
/// nulls for the ids of clauses without a partner, and the confidence of edges followed.
pub proof fn lemma_row_holds_only(plan: JoinPlan, n: nat, e: Entity, src: JoinSources<'_>, name: Seq<char>)
    requires
        n <= plan.joins@.len(),
        combined_is(plan, n, e, src),
        join::combined(plan, n, e, src)->0.contains_key(name),
    ensures
        may_hold(plan, n, e, src, name),
    decreases n,
{
    if n == 0 {
        lemma_is_under(plan.from_alias@, e, name);
    } else {
        let k = (n - 1) as nat;
        assert(combined_is(plan, k, e, src));
        if join::combined(plan, k, e, src)->0.contains_key(name) {
            lemma_row_holds_only(plan, k, e, src, name);
            if !is_under(plan.from_alias@, e, name) {
                let j = choose|j: int| 0 <= j < k && #[trigger] clause_holds(plan, j, e, src, name);
                assert(clause_holds(plan, j, e, src, name));
            }
        } else {
            if let Some(b) = join::partner(plan, k as int, e, src) {
                if name != "_edge.confidence"@ || plan.joins@[k as int].confidence_threshold is None {
                    lemma_is_under(plan.joins@[k as int].alias@, src.right@[k as int]@[b.0], name);
                }
            }
            assert(clause_holds(plan, k as int, e, src, name));
        }
    }
}

proof fn lemma_is_under(alias: Seq<char>, e: Entity, name: Seq<char>)
    requires
        join::is_qualified(alias, name),
        join::unqualified(alias, name) == "id"@ || e.metadata@.contains_key(join::unqualified(alias, name)),
    ensures
        is_under(alias, e, name),
{
    let p = alias + "."@;
    let f = join::unqualified(alias, name);
    assert(name.subrange(0, p.len() as int) == p);
    assert(name =~= alias + "."@ + f);
}

/// The limit of a plan cuts the rows of a clause off at their end. Those that a clause adds
/// bring the rows to no more than the limit, but for one row where they were there already;
/// and where the limit is not reached, every entity of the clause has its id in a row, or
/// its own row, unless the condition leaves that out.
pub proof fn lemma_right_rows_limited(plan: JoinPlan, join: JoinClause, start: Seq<RowView>, es: Seq<Entity>)
    ensures
        plan.limit matches Some(l) ==> join::right_rows(plan, join, start, es).len() <= (if l <= start.len() {
            start.len() + 1
        } else {
            l as nat
        }),
        join::right_rows(plan, join, start, es).len() < (match plan.limit {
            Some(l) => l as nat,
            None => usize::MAX as nat,
        }) ==> forall|i: int|
            0 <= i < es.len() ==> is_answered(plan, join, join::right_rows(plan, join, start, es), #[trigger] es[i]),
    decreases es.len(),
{
    let after = join::right_rows(plan, join, start, es);
    if es.len() > 0 {
        let head = es.drop_last();
        let e = es.last();
        let before = join::right_rows(plan, join, start, head);
        lemma_right_rows_limited(plan, join, start, head);
        assert(before.is_prefix_of(after));
        if after.len() < (match plan.limit {
            Some(l) => l as nat,
            None => usize::MAX as nat,
        }) {
            assert forall|i: int| 0 <= i < es.len() implies is_answered(plan, join, after, #[trigger] es[i]) by {
                if i < head.len() {
                    assert(head[i] == es[i]);
                    assert(is_answered(plan, join, before, es[i]));
                    lemma_answered_grows(plan, join, before, after, es[i]);
                } else {
                    if join::id_answered(before, join.alias@, e.id@) {
                        assert(is_answered(plan, join, after, e));
                    } else if row_passes(join::unmatched(plan, join, e), plan) {
                        assert(after[before.len() as int] == RowView {
                            values: join::join_projected(join::unmatched(plan, join, e), plan.fields),
                            score: None,
                        });
                    }
                }
            }
        }
    }
}

/// Whether rows hold the id of an entity of a clause, or its row, unless the condition of
/// the plan leaves that out.
pub open spec fn is_answered(plan: JoinPlan, join: JoinClause, rs: Seq<RowView>, e: Entity) -> bool {
    ||| join::id_answered(rs, join.alias@, e.id@)
    ||| !row_passes(join::unmatched(plan, join, e), plan)
    ||| rs.contains(RowView { values: join::join_projected(join::unmatched(plan, join, e), plan.fields), score: None })
}

proof fn lemma_answered_grows(plan: JoinPlan, join: JoinClause, a: Seq<RowView>, b: Seq<RowView>, e: Entity)
    requires
        a.is_prefix_of(b),
        is_answered(plan, join, a, e),
    ensures
        is_answered(plan, join, b, e),
{
    assert forall|i: int| 0 <= i < a.len() implies a[i] == #[trigger] b[i] by {}
    if join::id_answered(a, join.alias@, e.id@) {
        let i = choose|i: int|
            0 <= i < a.len() && filter::field_of(
                (#[trigger] a[i]).values,
                join::qualified(join.alias@, filter::id_field()),
            ) == Some(Val::Str(e.id@));
        assert(b[i] == a[i]);
    } else if row_passes(join::unmatched(plan, join, e), plan) {
        let r = RowView { values: join::join_projected(join::unmatched(plan, join, e), plan.fields), score: None };
        let i = choose|i: int| 0 <= i < a.len() && a[i] == r;
        assert(b[i] == r);
    }
}

/// A row holds an id under an alias exactly where the field of that name holds that text.
pub proof fn lemma_id_answered(rs: Seq<RowView>, alias: Seq<char>, id: Seq<char>)
    ensures
        join::id_answered(rs, alias, id) <==> exists|i: int|
            0 <= i < rs.len() && (#[trigger] rs[i]).values.contains_key(alias + "."@ + "id"@) && rs[i].values[alias
                + "."@ + "id"@] == Val::Str(id),
{
    if join::id_answered(rs, alias, id) {
        let i = choose|i: int|
            0 <= i < rs.len() && filter::field_of(
                (#[trigger] rs[i]).values,
                join::qualified(alias, filter::id_field()),
            ) == Some(Val::Str(id));
        assert(rs[i].values.contains_key(alias + "."@ + "id"@));
    }
}

/// The first rows, no more than `n`.
pub open spec fn first_rows(all: Seq<RowView>, n: nat) -> Seq<RowView> {
    if all.len() <= n {
        all
    } else {
        all.take(n as int)
    }
}

proof fn lemma_combined_free(plan: JoinPlan, free: JoinPlan, n: nat, e: Entity, src: JoinSources<'_>)
    requires
        free == (JoinPlan { limit: None, ..plan }),
    ensures
        join::combined(plan, n, e, src) == join::combined(free, n, e, src),
    decreases n,
{
    if n > 0 {
        lemma_combined_free(plan, free, (n - 1) as nat, e, src);
        assert(join::partner(plan, n - 1, e, src) == join::partner(free, n - 1, e, src));
    }
}

/// The limit of a plan leaves the first so many of the rows that the FROM entities have
/// without it, and the first of all where it is zero.
pub proof fn lemma_limit_cuts_left(plan: JoinPlan, free: JoinPlan, limit: usize, es: Seq<Entity>, src: JoinSources<'_>)
    requires
        free == (JoinPlan { limit: None, ..plan }),
        plan.limit == Some(limit),
        join::left_rows(free, es, src).len() < usize::MAX,
    ensures
        join::left_rows(plan, es, src) == first_rows(
            join::left_rows(free, es, src),
            if limit == 0 {
                1
            } else {
                limit as nat
            },
        ),
    decreases es.len(),
{
    let k: nat = if limit == 0 {
        1
    } else {
        limit as nat
    };
    let all = join::left_rows(free, es, src);
    if es.len() > 0 {
        let head = es.drop_last();
        let before = join::left_rows(free, head, src);
        assert(before.is_prefix_of(all));
        lemma_limit_cuts_left(plan, free, limit, head, src);
        lemma_combined_free(plan, free, plan.joins@.len(), es.last(), src);
        if before.len() >= k {
            assert(first_rows(all, k) =~= first_rows(before, k));
        } else {
            assert(first_rows(all, k) =~= all);
        }
    }
}

/// The limit of a plan leaves, of the rows that a RIGHT or FULL clause adds without it, the
/// first that bring the rows to the limit, and always the first of all.
pub proof fn lemma_limit_cuts_right(
    plan: JoinPlan,
    free: JoinPlan,
    limit: usize,
    join: JoinClause,
    start: Seq<RowView>,
    es: Seq<Entity>,
)
    requires
        free == (JoinPlan { limit: None, ..plan }),
        plan.limit == Some(limit),
        join::right_rows(free, join, start, es).len() < usize::MAX,
    ensures
        join::right_rows(plan, join, start, es) == first_rows(
            join::right_rows(free, join, start, es),
            if limit <= start.len() {
                start.len() + 1
            } else {
                limit as nat
            },
        ),
    decreases es.len(),
{
    let k: nat = if limit <= start.len() {
        start.len() + 1
    } else {
        limit as nat
    };
    let all = join::right_rows(free, join, start, es);
    if es.len() > 0 {
        let head = es.drop_last();
        let before = join::right_rows(free, join, start, head);
        assert(before.is_prefix_of(all));
        lemma_limit_cuts_right(plan, free, limit, join, start, head);
        assert(join::unmatched(plan, join, es.last()) == join::unmatched(free, join, es.last()));
        if before.len() >= k {
            assert(first_rows(all, k) =~= first_rows(before, k));
        } else {
            assert(first_rows(all, k) =~= all);
        }
    }
}

} // verus!
