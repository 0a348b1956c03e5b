//! Which links a node has, and in which order a hop takes its neighbours in.

use vstd::prelude::*;
use vstd::string::*;

use crate::edge;
use crate::edge::{AdjView, EdgeType, EntryView};
use crate::filter;
use crate::float_bits;
use crate::rows;
use crate::search_laws;
use crate::selection;
use crate::traverse;
use crate::traverse::{EdgeDirection, Gate, LinkView, Neighbour, TraverseMatchPlan, Walk, WalkRule, WalkView};
use crate::types::Entity;
use crate::value::Val;

verus! {

/// Whether the index holds an edge of a type from a source to a target, on both sides.
pub open spec fn comes_from(v: AdjView, source: Seq<char>, edge_type: Seq<char>, node: Seq<char>, e: EntryView) -> bool {
    &&& edge::list_at(v.backward, (node, edge_type)).contains(source)
    &&& edge::list_at(v.forward, (source, edge_type)).contains(e)
    &&& e.to_id == node
}

proof fn lemma_links_from(es: Seq<EntryView>, source: Seq<char>, node: Seq<char>, l: LinkView)
    ensures
        traverse::links_from(es, source, node).contains(l) <==> es.contains(l.entry) && l.entry.to_id == node && l.id
            == source && !l.forward,
    decreases es.len(),
{
    let all = traverse::links_from(es, source, node);
    if es.len() > 0 {
        let head = es.drop_last();
        let before = traverse::links_from(head, source, node);
        lemma_links_from(head, source, node, l);
        if before.contains(l) {
            let i = choose|i: int| 0 <= i < before.len() && before[i] == l;
            assert(all[i] == l);
            let j = choose|j: int| 0 <= j < head.len() && head[j] == l.entry;
            assert(es[j] == l.entry);
        }
        if es.contains(l.entry) && l.entry.to_id == node && l.id == source && !l.forward {
            let j = choose|j: int| 0 <= j < es.len() && es[j] == l.entry;
            if j < head.len() {
                assert(head[j] == l.entry);
            } else {
                assert(all[before.len() as int] == l);
            }
        }
        if all.contains(l) {
            let i = choose|i: int| 0 <= i < all.len() && all[i] == l;
            if i < before.len() {
                assert(before[i] == l);
            } else {
                assert(es[es.len() - 1] == l.entry);
            }
        }
    }
}

proof fn lemma_backward_links(v: AdjView, sources: Seq<Seq<char>>, edge_type: Seq<char>, node: Seq<char>, l: LinkView)
    ensures
        traverse::backward_links(v, sources, edge_type, node).contains(l) <==> sources.contains(l.id) && edge::list_at(
            v.forward,
            (l.id, edge_type),
        ).contains(l.entry) && l.entry.to_id == node && !l.forward,
    decreases sources.len(),
{
    let all = traverse::backward_links(v, sources, edge_type, node);
    if sources.len() > 0 {
        let head = sources.drop_last();
        let s = sources.last();
        let before = traverse::backward_links(v, head, edge_type, node);
        let more = traverse::links_from(edge::list_at(v.forward, (s, edge_type)), s, node);
        lemma_backward_links(v, head, edge_type, node, l);
        lemma_links_from(edge::list_at(v.forward, (s, edge_type)), s, node, l);
        if before.contains(l) {
            let i = choose|i: int| 0 <= i < before.len() && before[i] == l;
            assert(all[i] == l);
            let j = choose|j: int| 0 <= j < head.len() && head[j] == l.id;
            assert(sources[j] == l.id);
        }
        if more.contains(l) {
            let i = choose|i: int| 0 <= i < more.len() && more[i] == l;
            assert(all[before.len() + i] == l);
            assert(sources[sources.len() - 1] == s);
        }
        if all.contains(l) {
            let i = choose|i: int| 0 <= i < all.len() && all[i] == l;
            if i < before.len() {
                assert(before[i] == l);
            } else {
                assert(more[i - before.len()] == l);
            }
        }
        if sources.contains(l.id) && edge::list_at(v.forward, (l.id, edge_type)).contains(l.entry) && l.entry.to_id
            == node && !l.forward {
            let j = choose|j: int| 0 <= j < sources.len() && sources[j] == l.id;
            if j < head.len() {
                assert(head[j] == l.id);
            }
        }
    }
}

/// The links at a node are exactly its edges. Forward, there is one along each of its
/// outgoing edges, in order, to the node that it leads to. Backward, there is one for every
/// source that the index lists for the node and every edge of that source that leads to
/// the node, with the id of that source and that edge. Undirected, there are both, the
/// outgoing ones first.
pub proof fn lemma_links_are_edges(v: AdjView, node: Seq<char>, edge_type: Seq<char>)
    ensures
        ({
            let out = edge::list_at(v.forward, (node, edge_type));
            let forth = traverse::links_at(v, node, edge_type, EdgeDirection::Forward);
            let back = traverse::links_at(v, node, edge_type, EdgeDirection::Backward);
            let both = traverse::links_at(v, node, edge_type, EdgeDirection::Undirected);
            &&& forth.len() == out.len()
            &&& forall|i: int|
                0 <= i < out.len() ==> (#[trigger] forth[i]).entry == out[i] && forth[i].id == out[i].to_id
                    && forth[i].forward
            &&& forall|source: Seq<char>, e: EntryView| #[trigger]
                comes_from(v, source, edge_type, node, e) ==> back.contains(
                    LinkView { id: source, entry: e, forward: false },
                )
            &&& forall|i: int|
                0 <= i < back.len() ==> comes_from(v, (#[trigger] back[i]).id, edge_type, node, back[i].entry)
                    && !back[i].forward
            &&& both.len() == forth.len() + back.len()
            &&& forall|i: int| 0 <= i < forth.len() ==> #[trigger] both[i] == forth[i]
            &&& forall|i: int| 0 <= i < back.len() ==> both[forth.len() + i] == #[trigger] back[i]
            &&& forall|source: Seq<char>, e: EntryView| #[trigger]
                comes_from(v, source, edge_type, node, e) ==> both.contains(
                    LinkView { id: source, entry: e, forward: false },
                )
        }),
{
    let forth = traverse::links_at(v, node, edge_type, EdgeDirection::Forward);
    let sources = edge::list_at(v.backward, (node, edge_type));
    let back = traverse::links_at(v, node, edge_type, EdgeDirection::Backward);
    let both = traverse::links_at(v, node, edge_type, EdgeDirection::Undirected);
    assert forall|source: Seq<char>, e: EntryView| #[trigger]
        comes_from(v, source, edge_type, node, e) implies back.contains(
        LinkView { id: source, entry: e, forward: false },
    ) && both.contains(LinkView { id: source, entry: e, forward: false }) by {
        let l = LinkView { id: source, entry: e, forward: false };
        lemma_backward_links(v, sources, edge_type, node, l);
        let i = choose|i: int| 0 <= i < back.len() && back[i] == l;
        assert(both[forth.len() + i] == l);
    }
    assert forall|i: int| 0 <= i < back.len() implies comes_from(
        v,
        (#[trigger] back[i]).id,
        edge_type,
        node,
        back[i].entry,
    ) && !back[i].forward by {
        assert(back.contains(back[i]));
        lemma_backward_links(v, sources, edge_type, node, back[i]);
    }
}

proof fn lemma_counted_is_listed(es: Seq<EntryView>, ids: Seq<Seq<char>>, to: Seq<char>, from: Seq<char>)
    ensures
        edge::target_count(es, to) > 0 <==> exists|i: int| 0 <= i < es.len() && (#[trigger] es[i]).to_id == to,
        edge::id_count(ids, from) > 0 <==> ids.contains(from),
    decreases es.len() + ids.len(),
{
    if es.len() > 0 {
        lemma_counted_is_listed(es.drop_last(), ids, to, from);
        let head = es.drop_last();
        if exists|i: int| 0 <= i < head.len() && (#[trigger] head[i]).to_id == to {
            let i = choose|i: int| 0 <= i < head.len() && (#[trigger] head[i]).to_id == to;
            assert(es[i].to_id == to);
        }
        if exists|i: int| 0 <= i < es.len() && (#[trigger] es[i]).to_id == to {
            let i = choose|i: int| 0 <= i < es.len() && (#[trigger] es[i]).to_id == to;
            if i < head.len() {
                assert(head[i].to_id == to);
            }
        }
        if es.last().to_id == to {
            assert(es[es.len() - 1].to_id == to);
        }
    } else if ids.len() > 0 {
        let head = ids.drop_last();
        lemma_counted_is_listed(es, head, to, from);
        assert(head.push(ids.last()) =~= ids);
        if head.contains(from) {
            let i = choose|i: int| 0 <= i < head.len() && head[i] == from;
            assert(ids[i] == from);
        }
        if ids.contains(from) {
            let i = choose|i: int| 0 <= i < ids.len() && ids[i] == from;
            if i < head.len() {
                assert(head[i] == from);
            }
        }
    }
}

/// In a consistent index an edge is a link at either end: a node has a link forward to
/// another along an edge exactly where the other has a link back to it along that edge.
pub proof fn lemma_links_both_ways(v: AdjView, a: Seq<char>, b: Seq<char>, edge_type: Seq<char>, e: EntryView)
    requires
        v.consistent(),
    ensures
        traverse::links_at(v, a, edge_type, EdgeDirection::Forward).contains(LinkView { id: b, entry: e, forward: true })
            <==> traverse::links_at(v, b, edge_type, EdgeDirection::Backward).contains(
            LinkView { id: a, entry: e, forward: false },
        ),
{
    let out = edge::list_at(v.forward, (a, edge_type));
    let sources = edge::list_at(v.backward, (b, edge_type));
    let forth = traverse::links_at(v, a, edge_type, EdgeDirection::Forward);
    let l = LinkView { id: b, entry: e, forward: true };
    lemma_backward_links(v, sources, edge_type, b, LinkView { id: a, entry: e, forward: false });
    lemma_counted_is_listed(out, sources, b, a);
    assert(edge::target_count(out, b) == edge::id_count(sources, a));
    if forth.contains(l) {
        let i = choose|i: int| 0 <= i < forth.len() && forth[i] == l;
        assert(out[i] == e && e.to_id == b);
    }
    if out.contains(e) && e.to_id == b {
        let i = choose|i: int| 0 <= i < out.len() && out[i] == e;
        assert(forth[i] == l);
    }
}

/// Which edges are followed: all; those whose confidence is not below a number, or is not
/// one; or those whose confidence is a number and at least another.
pub proof fn lemma_gate(confidence: u32, t: u32)
    ensures
        Gate::Open.admits(confidence),
        !float_bits::f32_is_nan(confidence) && !float_bits::f32_is_nan(t) ==> (Gate::NotBelow(t).admits(confidence)
            <==> float_bits::f32_key(t) <= float_bits::f32_key(confidence)),
        float_bits::f32_is_nan(confidence) ==> Gate::NotBelow(t).admits(confidence) && !Gate::AtLeast(t).admits(
            confidence,
        ),
        !float_bits::f32_is_nan(confidence) && !float_bits::f32_is_nan(t) ==> (Gate::AtLeast(t).admits(confidence)
            <==> float_bits::f32_key(t) <= float_bits::f32_key(confidence)),
        float_bits::f32_is_nan(t) ==> !Gate::AtLeast(t).admits(confidence),
{
}

/// A MATCH walks along the edge type that it names, and only that, where it is known; along
/// none where it is not; and along all where it names none.
pub proof fn lemma_match_walks(p: TraverseMatchPlan, types: Seq<EdgeType>)
    ensures
        p.edge_type is None ==> traverse::walked_types(p, types) == types,
        p.edge_type matches Some(name) ==> {
            let walked = traverse::walked_types(p, types);
            &&& walked.len() <= 1
            &&& walked.len() == 1 ==> walked[0].name@ == name@ && types.contains(walked[0])
            &&& walked.len() == 0 ==> forall|i: int| 0 <= i < types.len() ==> (#[trigger] types[i]).name@ != name@
        },
{
    if let Some(name) = p.edge_type {
        lemma_type_found(types, name@);
    }
}

proof fn lemma_type_found(types: Seq<EdgeType>, name: Seq<char>)
    ensures
        match crate::infer::type_place(types, name) {
            Some(i) => 0 <= i < types.len() && types[i].name@ == name,
            None => forall|i: int| 0 <= i < types.len() ==> (#[trigger] types[i]).name@ != name,
        },
    decreases types.len(),
{
    if types.len() > 0 {
        let head = types.drop_last();
        lemma_type_found(head, name);
        assert forall|i: int| 0 <= i < head.len() implies head[i] == #[trigger] types[i] by {}
        assert(types[types.len() - 1] == types.last());
    }
}

/// The row of a node holds its entity; that of a MATCH also the confidence of the edge that
/// found it, the depth at which it was found and the edge type that the match names, where
/// no field of the entity goes by those names.
pub proof fn lemma_node_row(e: Entity, confidence: u32, depth: int, rule: WalkRule)
    requires
        0 <= depth <= i64::MAX,
    ensures
        ({
            let r = traverse::node_row(e, confidence, depth, rule);
            &&& r.score is None
            &&& !rule.annotate ==> search_laws::shows(r.values, e.id@, e.metadata@, rows::FieldList::All)
            &&& rule.annotate ==> {
                &&& r.values.contains_key("_edge.confidence"@)
                &&& r.values["_edge.confidence"@] == Val::Float(float_bits::f32_to_f64(confidence))
                &&& r.values.contains_key("_depth"@)
                &&& r.values["_depth"@] == Val::Int(depth as i64)
                &&& rule.edge_type matches Some(t) ==> r.values.contains_key("_edge.type"@)
                    && r.values["_edge.type"@] == Val::Str(t@)
                &&& forall|k: Seq<char>|
                    k != "_edge.confidence"@ && k != "_edge.type"@ && k != "_depth"@ && #[trigger]
                    e.metadata@.contains_key(k) ==> r.values.contains_key(k) && r.values[k] == e.metadata@[k]
                &&& !e.metadata@.contains_key(filter::id_field()) ==> r.values.contains_key("id"@) && r.values["id"@]
                    == Val::Str(e.id@)
            }
        }),
{
    reveal_strlit("_edge.confidence");
    reveal_strlit("_edge.type");
    reveal_strlit("_depth");
    reveal_strlit("id");
    assert("_edge.confidence"@.len() != "_depth"@.len());
    assert("_edge.confidence"@.len() != "_edge.type"@.len());
    assert("_edge.type"@.len() != "_depth"@.len());
    assert("id"@.len() == 2);
    search_laws::lemma_row_shows_entity(e.id@, e.metadata@, rows::FieldList::All);
}

/// Whether places in a sequence of neighbours are in increasing order.
pub open spec fn rising(p: Seq<int>, n: int) -> bool {
    &&& forall|i: int| 0 <= i < p.len() ==> 0 <= #[trigger] p[i] < n
    &&& forall|i: int, j: int| 0 <= i < j < p.len() ==> #[trigger] p[i] < #[trigger] p[j]
}

/// Whether a hop visits the neighbours at the places `p`, after the nodes visited before.
pub open spec fn visits(v: WalkView, w: WalkView, ns: Seq<Neighbour>, p: Seq<int>) -> bool {
    &&& rising(p, ns.len() as int)
    &&& w.visited.len() == v.visited.len() + p.len()
    &&& v.visited.is_prefix_of(w.visited)
    &&& forall|i: int| 0 <= i < p.len() ==> w.visited[v.visited.len() + i] == ns[#[trigger] p[i]].id@
}

/// Whether a hop answers the neighbours at the places `p`, after the rows found before.
pub open spec fn answers(
    v: WalkView,
    w: WalkView,
    ns: Seq<Neighbour>,
    depth: int,
    rule: WalkRule,
    p: Seq<int>,
) -> bool {
    &&& rising(p, ns.len() as int)
    &&& w.rows.len() == v.rows.len() + p.len()
    &&& v.rows.is_prefix_of(w.rows)
    &&& forall|i: int|
        0 <= i < p.len() ==> ns[#[trigger] p[i]].entity is Some && w.rows[v.rows.len() + i] == traverse::node_row(
            ns[p[i]].entity->0,
            ns[p[i]].confidence,
            depth,
            rule,
        )
}

/// Whether a hop goes on from the neighbours at the places `p`.
pub open spec fn goes_on(w: WalkView, ns: Seq<Neighbour>, p: Seq<int>) -> bool {
    &&& rising(p, ns.len() as int)
    &&& w.frontier.len() == p.len()
    &&& forall|i: int| 0 <= i < p.len() ==> w.frontier[i] == ns[#[trigger] p[i]].id@
}

proof fn lemma_rising_push(p: Seq<int>, n: int)
    requires
        rising(p, n),
        n >= 0,
    ensures
        rising(p, n + 1),
        rising(p.push(n), n + 1),
{
    let q = p.push(n);
    assert forall|i: int| 0 <= i < q.len() implies 0 <= #[trigger] q[i] < n + 1 by {
        if i < p.len() {
            assert(q[i] == p[i]);
        }
    }
    assert forall|i: int, j: int| 0 <= i < j < q.len() implies #[trigger] q[i] < #[trigger] q[j] by {
        assert(q[i] == p[i]);
        if j < p.len() {
            assert(q[j] == p[j]);
        }
    }
}

/// A hop takes the neighbours of the frontier in as they come: what it visits, the rows
/// that it adds and the nodes from which the next hop goes on all stand in the order of the
/// neighbours, after what was there before.
pub proof fn lemma_hop_in_order(v: WalkView, ns: Seq<Neighbour>, depth: int, rule: WalkRule)
    ensures
        exists|p: Seq<int>| #[trigger] visits(v, traverse::hopped(v, ns, depth, rule), ns, p),
        exists|p: Seq<int>| #[trigger] answers(v, traverse::hopped(v, ns, depth, rule), ns, depth, rule, p),
        exists|p: Seq<int>| #[trigger] goes_on(traverse::hopped(v, ns, depth, rule), ns, p),
    decreases ns.len(),
{
    let w = traverse::hopped(v, ns, depth, rule);
    if ns.len() == 0 {
        let p = Seq::<int>::empty();
        assert(visits(v, w, ns, p));
        assert(answers(v, w, ns, depth, rule, p));
        assert(goes_on(w, ns, p));
    } else {
        let head = ns.drop_last();
        let n = head.len() as int;
        let u = traverse::hopped(v, head, depth, rule);
        lemma_hop_in_order(v, head, depth, rule);
        assert(ns[n] == ns.last());
        assert(w == traverse::walked(u, ns.last(), depth, rule));
        let p = choose|p: Seq<int>| #[trigger] visits(v, u, head, p);
        let q = choose|q: Seq<int>| #[trigger] answers(v, u, head, depth, rule, q);
        let r = choose|r: Seq<int>| #[trigger] goes_on(u, head, r);
        lemma_rising_push(p, n);
        lemma_rising_push(q, n);
        lemma_rising_push(r, n);
        let p2 = if w.visited == u.visited {
            p
        } else {
            p.push(n)
        };
        assert forall|i: int| 0 <= i < p2.len() implies w.visited[v.visited.len() + i] == ns[#[trigger] p2[i]].id@ by {
            if i < p.len() {
                assert(p2[i] == p[i]);
                assert(ns[p[i]] == head[p[i]]);
            }
        }
        assert(visits(v, w, ns, p2));
        let q2 = if w.rows == u.rows {
            q
        } else {
            q.push(n)
        };
        assert forall|i: int|
            0 <= i < q2.len() implies ns[#[trigger] q2[i]].entity is Some && w.rows[v.rows.len() + i]
            == traverse::node_row(ns[q2[i]].entity->0, ns[q2[i]].confidence, depth, rule) by {
            if i < q.len() {
                assert(q2[i] == q[i]);
                assert(ns[q[i]] == head[q[i]]);
            }
        }
        assert(answers(v, w, ns, depth, rule, q2));
        let r2 = if w.frontier == u.frontier {
            r
        } else {
            r.push(n)
        };
        assert forall|i: int| 0 <= i < r2.len() implies w.frontier[i] == ns[#[trigger] r2[i]].id@ by {
            if i < r.len() {
                assert(r2[i] == r[i]);
                assert(ns[r[i]] == head[r[i]]);
            }
        }
        assert(goes_on(w, ns, r2));
    }
}

/// The links back to some sources and then others are those back to the first and then
/// those back to the others; and the links back to one source are its edges to the node,
/// in order.
pub proof fn lemma_links_back_in_order(
    v: AdjView,
    a: Seq<Seq<char>>,
    b: Seq<Seq<char>>,
    edge_type: Seq<char>,
    node: Seq<char>,
    source: Seq<char>,
)
    ensures
        traverse::backward_links(v, a + b, edge_type, node) == traverse::backward_links(v, a, edge_type, node)
            + traverse::backward_links(v, b, edge_type, node),
        selection::is_selection(
            edge::list_at(v.forward, (source, edge_type)),
            traverse::backward_links(v, seq![source], edge_type, node),
            |e: EntryView| e.to_id == node,
            |e: EntryView| LinkView { id: source, entry: e, forward: false },
        ),
    decreases b.len(),
{
    let one = seq![source];
    let es = edge::list_at(v.forward, (source, edge_type));
    assert(one.drop_last() =~= Seq::empty());
    assert(traverse::backward_links(v, one.drop_last(), edge_type, node) =~= Seq::<LinkView>::empty());
    assert(traverse::backward_links(v, one, edge_type, node) =~= traverse::links_from(es, source, node));
    lemma_links_from_in_order(es, source, node);
    if b.len() == 0 {
        assert(a + b =~= a);
        assert(traverse::backward_links(v, a, edge_type, node) + traverse::backward_links(v, b, edge_type, node)
            =~= traverse::backward_links(v, a, edge_type, node));
    } else {
        assert((a + b).drop_last() =~= a + b.drop_last());
        lemma_links_back_in_order(v, a, b.drop_last(), edge_type, node, source);
        assert(traverse::backward_links(v, a + b, edge_type, node) =~= traverse::backward_links(v, a, edge_type, node)
            + traverse::backward_links(v, b, edge_type, node));
    }
}

proof fn lemma_links_from_in_order(es: Seq<EntryView>, source: Seq<char>, node: Seq<char>)
    ensures
        selection::is_selection(
            es,
            traverse::links_from(es, source, node),
            |e: EntryView| e.to_id == node,
            |e: EntryView| LinkView { id: source, entry: e, forward: false },
        ),
    decreases es.len(),
{
    let keep = |e: EntryView| e.to_id == node;
    let make = |e: EntryView| LinkView { id: source, entry: e, forward: false };
    let after = traverse::links_from(es, source, node);
    if es.len() == 0 {
        selection::lemma_selection_empty(es, after, keep, make);
    } else {
        lemma_links_from_in_order(es.drop_last(), source, node);
        selection::lemma_selection_grows(es, traverse::links_from(es.drop_last(), source, node), after, keep, make);
    }
}

/// The neighbours of some nodes and then others are those of the first and then those of
/// the others.
pub proof fn lemma_neighbours_in_order(
    g: spec_fn(Seq<char>) -> Seq<Neighbour>,
    a: Seq<Seq<char>>,
    b: Seq<Seq<char>>,
    node: Seq<char>,
)
    ensures
        traverse::neighbours_of(g, seq![node]) == g(node),
        traverse::neighbours_of(g, a + b) == traverse::neighbours_of(g, a) + traverse::neighbours_of(g, b),
    decreases b.len(),
{
    let one = seq![node];
    assert(one.drop_last() =~= Seq::empty());
    assert(traverse::neighbours_of(g, one.drop_last()) =~= Seq::<Neighbour>::empty());
    assert(one.last() == node);
    assert(traverse::neighbours_of(g, one) =~= g(node));
    if b.len() == 0 {
        assert(a + b =~= a);
        assert(traverse::neighbours_of(g, a) + traverse::neighbours_of(g, b) =~= traverse::neighbours_of(g, a));
    } else {
        assert((a + b).drop_last() =~= a + b.drop_last());
        lemma_neighbours_in_order(g, a, b.drop_last(), node);
        assert(traverse::neighbours_of(g, a + b) =~= traverse::neighbours_of(g, a) + traverse::neighbours_of(g, b));
    }
}

/// A plan without a limit may answer any number of rows, and one with a limit so many.
pub proof fn lemma_row_limit(limit: Option<usize>, n: usize)
    ensures
        limit is None ==> n <= traverse::row_limit(limit),
        limit matches Some(l) ==> (n <= traverse::row_limit(limit) <==> n <= l),
{
}

/// A walk goes on while it has nodes to go on from, hops left and room for rows, and no
/// longer.
pub proof fn lemma_walk_stops(w: Walk)
    ensures
        w.hops_made() >= w.hops_allowed() ==> !w.due(),
        w@.frontier.len() == 0 ==> !w.due(),
        w@.rows.len() >= w.rule_of().limit ==> !w.due(),
        w.hops_made() < w.hops_allowed() && w@.frontier.len() > 0 && w@.rows.len() < w.rule_of().limit ==> w.due(),
{
}

/// The limit of a walk leaves the first so many of the rows that a hop finds without it.
pub proof fn lemma_hop_limited(v: WalkView, ns: Seq<Neighbour>, depth: int, rule: WalkRule, free: WalkRule)
    requires
        free == (WalkRule { limit: usize::MAX, ..rule }),
        v.rows.len() <= rule.limit,
        traverse::hopped(v, ns, depth, free).rows.len() < usize::MAX,
    ensures
        traverse::hopped(v, ns, depth, rule).rows == (if traverse::hopped(v, ns, depth, free).rows.len()
            <= rule.limit {
            traverse::hopped(v, ns, depth, free).rows
        } else {
            traverse::hopped(v, ns, depth, free).rows.take(rule.limit as int)
        }),
        traverse::hopped(v, ns, depth, free).rows.len() < rule.limit ==> traverse::hopped(v, ns, depth, rule)
            == traverse::hopped(v, ns, depth, free),
    decreases ns.len(),
{
    if ns.len() > 0 {
        let head = ns.drop_last();
        let n = ns.last();
        let a = traverse::hopped(v, head, depth, rule);
        let b = traverse::hopped(v, head, depth, free);
        let w = traverse::hopped(v, ns, depth, free);
        assert(w == traverse::walked(b, n, depth, free));
        assert(traverse::hopped(v, ns, depth, rule) == traverse::walked(a, n, depth, rule));
        assert(b.rows.is_prefix_of(w.rows));
        lemma_hop_limited(v, head, depth, rule, free);
        if n.entity is Some {
            assert(traverse::node_row(n.entity->0, n.confidence, depth, rule) == traverse::node_row(
                n.entity->0,
                n.confidence,
                depth,
                free,
            ));
        }
        if b.rows.len() >= rule.limit {
            assert(w.rows.take(rule.limit as int) =~= b.rows.take(rule.limit as int));
            assert(b.rows.take(b.rows.len() as int) =~= b.rows);
        }
    }
}

} // verus!
