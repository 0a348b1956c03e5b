//! TRAVERSE: walking the graph hop by hop.

use vstd::prelude::*;
use vstd::string::*;

use crate::edge;
use crate::edge::{AdjEntry, AdjView, AdjacencyIndex, EdgeType, EntryView};
use crate::field_index;
use crate::float_bits;
use crate::float_bits::{double_of_single, single_is_nan, single_less};
use crate::infer;
use crate::infer::find_type;
use crate::result::{QueryMode, QueryResult};
use crate::rows;
use crate::rows::{build_columns, entity_to_row, FieldList, Row, RowView};
use crate::search::contains_id;
use crate::text;
use crate::text::own;
use crate::types::{clone_opt_text, Entity};
use crate::value::{ids_equal, LogicalId, Val, Value};

verus! {

/// The most hops that a traversal makes.
pub const MAX_HOPS: usize = 10;

/// The way in which edges are followed.
#[derive(Clone, Copy, PartialEq, Eq, Structural, Debug)]
pub enum EdgeDirection {
    Forward,
    Backward,
    Undirected,
}

/// An edge at a node, with the node at its other end.
#[derive(Debug)]
pub struct Link {
    pub id: LogicalId,
    pub entry: AdjEntry,
    pub forward: bool,
}

/// The model of a [`Link`].
pub struct LinkView {
    pub id: Seq<char>,
    pub entry: EntryView,
    pub forward: bool,
}

impl View for Link {
    type V = LinkView;

    open spec fn view(&self) -> LinkView {
        LinkView { id: self.id@, entry: self.entry@, forward: self.forward }
    }
}

/// The views of a sequence of links.
pub open spec fn link_views(s: Seq<Link>) -> Seq<LinkView> {
    s.map_values(|l: Link| l@)
}

/// The links along outgoing edges.
pub open spec fn forward_links(es: Seq<EntryView>) -> Seq<LinkView> {
    es.map_values(|e: EntryView| LinkView { id: e.to_id, entry: e, forward: true })
}

/// The links from a node back to one source: its edges that lead to the node.
pub open spec fn links_from(es: Seq<EntryView>, source: Seq<char>, node: Seq<char>) -> Seq<LinkView>
    decreases es.len(),
{
    if es.len() == 0 {
        Seq::empty()
    } else {
        let before = links_from(es.drop_last(), source, node);
        if es.last().to_id == node {
            before.push(LinkView { id: source, entry: es.last(), forward: false })
        } else {
            before
        }
    }
}

/// The links from a node back to each of its sources.
pub open spec fn backward_links(
    v: AdjView,
    sources: Seq<Seq<char>>,
    edge_type: Seq<char>,
    node: Seq<char>,
) -> Seq<LinkView>
    decreases sources.len(),
{
    if sources.len() == 0 {
        Seq::empty()
    } else {
        backward_links(v, sources.drop_last(), edge_type, node) + links_from(
            edge::list_at(v.forward, (sources.last(), edge_type)),
            sources.last(),
            node,
        )
    }
}

/// The links of a type at a node, in a direction.
pub open spec fn links_at(v: AdjView, node: Seq<char>, edge_type: Seq<char>, direction: EdgeDirection) -> Seq<
    LinkView,
> {
    let out = forward_links(edge::list_at(v.forward, (node, edge_type)));
    let back = backward_links(v, edge::list_at(v.backward, (node, edge_type)), edge_type, node);
    match direction {
        EdgeDirection::Forward => out,
        EdgeDirection::Backward => back,
        EdgeDirection::Undirected => out + back,
    }
}

fn push_forward(adjacency: &AdjacencyIndex, node: &LogicalId, edge_type: &str, links: &mut Vec<Link>)
    ensures
        link_views(final(links)@) == link_views(old(links)@) + forward_links(
            edge::list_at(adjacency@.forward, (node@, edge_type@)),
        ),
{
    let ghost before = link_views(links@);
    let entries = adjacency.get(node, edge_type);
    let ghost all = forward_links(edge::entry_views(entries@));
    let mut i: usize = 0;
    proof {
        assert(before + all.subrange(0, 0) =~= before);
    }
    while i < entries.len()
        invariant
            i <= entries.len(),
            all == forward_links(edge::entry_views(entries@)),
            link_views(links@) == before + all.subrange(0, i as int),
        decreases entries.len() - i,
    {
        let ghost prev = link_views(links@);
        let e = entries[i].clone();
        links.push(Link { id: e.to_id.clone(), entry: e, forward: true });
        proof {
            assert(link_views(links@) =~= prev.push(all[i as int]));
            assert(before + all.subrange(0, i as int + 1) =~= (before + all.subrange(0, i as int)).push(
                all[i as int],
            ));
        }
        i += 1;
    }
    assert(all.subrange(0, all.len() as int) =~= all);
}

fn push_links_from(
    adjacency: &AdjacencyIndex,
    source: &LogicalId,
    node: &LogicalId,
    edge_type: &str,
    links: &mut Vec<Link>,
)
    ensures
        link_views(final(links)@) == link_views(old(links)@) + links_from(
            edge::list_at(adjacency@.forward, (source@, edge_type@)),
            source@,
            node@,
        ),
{
    let ghost before = link_views(links@);
    let entries = adjacency.get(source, edge_type);
    let ghost all = edge::entry_views(entries@);
    let mut i: usize = 0;
    proof {
        assert(before + links_from(all.subrange(0, 0), source@, node@) =~= before);
    }
    while i < entries.len()
        invariant
            i <= entries.len(),
            all == edge::entry_views(entries@),
            link_views(links@) == before + links_from(all.subrange(0, i as int), source@, node@),
        decreases entries.len() - i,
    {
        let ghost prev = link_views(links@);
        let ghost l = LinkView { id: source@, entry: entries@[i as int]@, forward: false };
        proof {
            let next = all.subrange(0, i as int + 1);
            assert(next.drop_last() =~= all.subrange(0, i as int));
            assert(next.last() == entries@[i as int]@);
            assert(before + links_from(all.subrange(0, i as int), source@, node@).push(l) =~= prev.push(l));
        }
        if ids_equal(&entries[i].to_id, node) {
            links.push(Link { id: source.clone(), entry: entries[i].clone(), forward: false });
            proof {
                assert(link_views(links@) =~= prev.push(l));
            }
        }
        i += 1;
    }
    assert(all.subrange(0, all.len() as int) =~= all);
}

fn push_backward(adjacency: &AdjacencyIndex, node: &LogicalId, edge_type: &str, links: &mut Vec<Link>)
    ensures
        link_views(final(links)@) == link_views(old(links)@) + backward_links(
            adjacency@,
            edge::list_at(adjacency@.backward, (node@, edge_type@)),
            edge_type@,
            node@,
        ),
{
    let ghost before = link_views(links@);
    let sources = adjacency.get_backward(node, edge_type);
    let ghost all = field_index::id_views(sources@);
    let mut i: usize = 0;
    proof {
        assert(before + backward_links(adjacency@, all.subrange(0, 0), edge_type@, node@) =~= before);
    }
    while i < sources.len()
        invariant
            i <= sources.len(),
            all == field_index::id_views(sources@),
            link_views(links@) == before + backward_links(
                adjacency@,
                all.subrange(0, i as int),
                edge_type@,
                node@,
            ),
        decreases sources.len() - i,
    {
        let ghost prev = link_views(links@);
        proof {
            let next = all.subrange(0, i as int + 1);
            assert(next.drop_last() =~= all.subrange(0, i as int));
            assert(next.last() == sources@[i as int]@);
        }
        push_links_from(adjacency, &sources[i], node, edge_type, links);
        proof {
            let a = backward_links(adjacency@, all.subrange(0, i as int), edge_type@, node@);
            let b = links_from(
                edge::list_at(adjacency@.forward, (sources@[i as int]@, edge_type@)),
                sources@[i as int]@,
                node@,
            );
            assert((before + a) + b =~= before + (a + b));
        }
        i += 1;
    }
    assert(all.subrange(0, all.len() as int) =~= all);
}

/// The links of a type at a node, in a direction.
pub fn links(adjacency: &AdjacencyIndex, node: &LogicalId, edge_type: &str, direction: EdgeDirection) -> (r: Vec<
    Link,
>)
    ensures
        link_views(r@) == links_at(adjacency@, node@, edge_type@, direction),
{
    let mut r: Vec<Link> = Vec::new();
    proof {
        assert(link_views(r@) =~= Seq::<LinkView>::empty());
    }
    match direction {
        EdgeDirection::Forward => {
            push_forward(adjacency, node, edge_type, &mut r);
        },
        EdgeDirection::Backward => {
            push_backward(adjacency, node, edge_type, &mut r);
        },
        EdgeDirection::Undirected => {
            push_forward(adjacency, node, edge_type, &mut r);
            push_backward(adjacency, node, edge_type, &mut r);
        },
    }
    proof {
        assert(link_views(r@) =~= links_at(adjacency@, node@, edge_type@, direction));
    }
    r
}

/// How long an edge has been decaying: not at all where its age is not known.
pub fn edge_age(created_at: u64, now_millis: u64) -> (r: Option<u64>)
    ensures
        r == (if created_at == 0 {
            None
        } else if now_millis >= created_at {
            Some((now_millis - created_at) as u64)
        } else {
            Some(0u64)
        }),
{
    if created_at > 0 {
        Some(now_millis.saturating_sub(created_at))
    } else {
        None
    }
}

/// A node next to the frontier: its id, the effective confidence of the edge to
/// it as the bits of a single, and its entity where that is stored.
#[derive(Debug)]
pub struct Neighbour {
    pub id: LogicalId,
    pub confidence: u32,
    pub entity: Option<Entity>,
}

/// Which edges a walk follows.
#[derive(Clone, Copy, PartialEq, Eq, Structural, Debug)]
pub enum Gate {
    /// Every edge.
    Open,
    /// Edges whose confidence is not below this.
    NotBelow(u32),
    /// Edges whose confidence is at least this.
    AtLeast(u32),
}

impl Gate {
    /// Whether an edge of the given confidence is followed.
    pub open spec fn admits(self, confidence: u32) -> bool {
        match self {
            Gate::Open => true,
            Gate::NotBelow(t) => !float_bits::f32_lt(confidence, t),
            Gate::AtLeast(t) => !float_bits::f32_is_nan(confidence) && !float_bits::f32_is_nan(t)
                && !float_bits::f32_lt(confidence, t),
        }
    }

    /// Whether an edge of the given confidence is followed.
    pub fn lets_pass(self, confidence: u32) -> (r: bool)
        ensures
            r == self.admits(confidence),
    {
        match self {
            Gate::Open => true,
            Gate::NotBelow(t) => !single_less(confidence, t),
            Gate::AtLeast(t) => !single_is_nan(confidence) && !single_is_nan(t) && !single_less(confidence, t),
        }
    }
}

/// What a traversal does at each node.
#[derive(Debug)]
pub struct WalkRule {
    /// Which edges are followed.
    pub gate: Gate,
    /// The depth at which nodes begin to be answered.
    pub min_depth: usize,
    /// The most rows.
    pub limit: usize,
    /// Whether rows carry the confidence and the depth of the match.
    pub annotate: bool,
    /// The edge type that a match names.
    pub edge_type: Option<String>,
}

/// A planned TRAVERSE.
#[derive(Debug)]
pub struct TraversePlan {
    pub edge_type: String,
    pub from_id: String,
    pub depth: usize,
    pub limit: Option<usize>,
}

/// A planned TRAVERSE MATCH. The threshold is the bits of a single;
/// `confidence_shown` is how it is written out.
#[derive(Debug)]
pub struct TraverseMatchPlan {
    pub from_id: String,
    pub edge_type: Option<String>,
    pub direction: EdgeDirection,
    pub min_depth: usize,
    pub max_depth: usize,
    pub confidence_threshold: Option<u32>,
    pub confidence_shown: Option<String>,
    pub limit: Option<usize>,
}

/// The most rows, where a plan says so or not.
pub open spec fn row_limit(limit: Option<usize>) -> usize {
    match limit {
        Some(n) => n,
        None => usize::MAX,
    }
}

/// What a TRAVERSE does: edges below the prune threshold of their type, if it has one,
/// are not followed.
pub fn traverse_rule(p: &TraversePlan, prune_threshold: Option<u32>) -> (r: WalkRule)
    ensures
        r.gate == (match prune_threshold {
            Some(t) => Gate::NotBelow(t),
            None => Gate::Open,
        }),
        r.min_depth == 0,
        r.limit == row_limit(p.limit),
        !r.annotate,
        r.edge_type is None,
{
    let gate = match prune_threshold {
        Some(t) => Gate::NotBelow(t),
        None => Gate::Open,
    };
    let limit = match p.limit {
        Some(n) => n,
        None => usize::MAX,
    };
    WalkRule { gate, min_depth: 0, limit, annotate: false, edge_type: None }
}

/// What a TRAVERSE MATCH does: edges whose confidence is not at least the threshold, or
/// zero, are not followed.
pub fn match_rule(p: &TraverseMatchPlan) -> (r: WalkRule)
    ensures
        r.gate == Gate::AtLeast(
            match p.confidence_threshold {
                Some(t) => t,
                None => 0,
            },
        ),
        r.min_depth == p.min_depth,
        r.limit == row_limit(p.limit),
        r.annotate,
        r.edge_type == p.edge_type,
{
    let threshold = match p.confidence_threshold {
        Some(t) => t,
        None => 0,
    };
    let limit = match p.limit {
        Some(n) => n,
        None => usize::MAX,
    };
    WalkRule {
        gate: Gate::AtLeast(threshold),
        min_depth: p.min_depth,
        limit,
        annotate: true,
        edge_type: clone_opt_text(&p.edge_type),
    }
}

/// The edge types along which a TRAVERSE MATCH walks: the one that it names, where that
/// is known, or all.
pub open spec fn walked_types(p: TraverseMatchPlan, types: Seq<EdgeType>) -> Seq<EdgeType> {
    match p.edge_type {
        None => types,
        Some(name) => match infer::type_place(types, name@) {
            Some(i) => seq![types[i]],
            None => Seq::empty(),
        },
    }
}

/// The edge types along which a TRAVERSE MATCH walks.
pub fn types_to_walk(p: &TraverseMatchPlan, types: &Vec<EdgeType>) -> (r: Vec<EdgeType>)
    ensures
        r@ == walked_types(*p, types@),
{
    let mut r: Vec<EdgeType> = Vec::new();
    match &p.edge_type {
        None => {
            let mut i: usize = 0;
            while i < types.len()
                invariant
                    i <= types.len(),
                    r@ == types@.subrange(0, i as int),
                decreases types.len() - i,
            {
                r.push(types[i].clone());
                proof {
                    assert(types@.subrange(0, i as int + 1) =~= types@.subrange(0, i as int).push(types@[i as int]));
                }
                i += 1;
            }
            assert(r@ =~= types@);
        },
        Some(name) => {
            if let Some(at) = find_type(types, name.as_str()) {
                r.push(types[at].clone());
            }
            assert(r@ =~= walked_types(*p, types@));
        },
    }
    r
}

/// The row of a node that is found at a depth.
pub open spec fn node_row(e: Entity, confidence: u32, depth: int, rule: WalkRule) -> RowView {
    let plain = rows::projected(e.id@, e.metadata@, FieldList::All);
    if !rule.annotate {
        RowView { values: plain, score: None }
    } else {
        let scored = plain.insert("_edge.confidence"@, Val::Float(float_bits::f32_to_f64(confidence)));
        let typed = match rule.edge_type {
            Some(t) => scored.insert("_edge.type"@, Val::Str(t@)),
            None => scored,
        };
        RowView { values: typed.insert("_depth"@, Val::Int(depth as i64)), score: None }
    }
}

fn build_node_row(e: &Entity, confidence: u32, depth: usize, rule: &WalkRule) -> (r: Row)
    requires
        depth <= MAX_HOPS,
    ensures
        r@ == node_row(*e, confidence, depth as int, *rule),
{
    let mut row = entity_to_row(e, &FieldList::All);
    if rule.annotate {
        row.values.insert(own("_edge.confidence"), Value::Float(double_of_single(confidence)));
        if let Some(t) = &rule.edge_type {
            row.values.insert(own("_edge.type"), Value::String(t.clone()));
        }
        row.values.insert(own("_depth"), Value::Int(depth as i64));
    }
    row
}

/// The state of a traversal.
pub struct WalkView {
    /// The nodes seen, the start first.
    pub visited: Seq<Seq<char>>,
    /// The nodes reached in the current hop.
    pub frontier: Seq<Seq<char>>,
    /// The rows found.
    pub rows: Seq<RowView>,
}

/// What a neighbour changes: it is taken in where its edge is followed, it is
/// new, and the limit is not reached.
pub open spec fn walked(v: WalkView, n: Neighbour, depth: int, rule: WalkRule) -> WalkView {
    if v.rows.len() >= rule.limit || !rule.gate.admits(n.confidence) || v.visited.contains(n.id@) {
        v
    } else {
        let rows = if depth >= rule.min_depth && n.entity is Some {
            v.rows.push(node_row(n.entity->0, n.confidence, depth, rule))
        } else {
            v.rows
        };
        WalkView {
            visited: v.visited.push(n.id@),
            frontier: if rows.len() >= rule.limit {
                v.frontier
            } else {
                v.frontier.push(n.id@)
            },
            rows,
        }
    }
}

/// What neighbours change, one after the other.
pub open spec fn walked_all(v: WalkView, ns: Seq<Neighbour>, depth: int, rule: WalkRule) -> WalkView
    decreases ns.len(),
{
    if ns.len() == 0 {
        v
    } else {
        walked(walked_all(v, ns.drop_last(), depth, rule), ns.last(), depth, rule)
    }
}

/// The state after a hop: the neighbours of the frontier are taken in, and those
/// that are new become the frontier.
pub open spec fn hopped(v: WalkView, ns: Seq<Neighbour>, depth: int, rule: WalkRule) -> WalkView {
    walked_all(WalkView { visited: v.visited, frontier: Seq::empty(), rows: v.rows }, ns, depth, rule)
}

/// A traversal under way.
pub struct Walk {
    visited: Vec<LogicalId>,
    frontier: Vec<LogicalId>,
    rows: Vec<Row>,
    hops: usize,
    max_hops: usize,
    rule: WalkRule,
}

impl View for Walk {
    type V = WalkView;

    closed spec fn view(&self) -> WalkView {
        WalkView {
            visited: field_index::id_views(self.visited@),
            frontier: field_index::id_views(self.frontier@),
            rows: rows::row_views(self.rows@),
        }
    }
}

impl Walk {
    /// The hops made.
    pub closed spec fn hops_made(&self) -> nat {
        self.hops as nat
    }

    /// The hops that may be made.
    pub closed spec fn hops_allowed(&self) -> nat {
        self.max_hops as nat
    }

    /// The rule of the walk.
    pub closed spec fn rule_of(&self) -> WalkRule {
        self.rule
    }

    /// Whether another hop is due.
    pub open spec fn due(&self) -> bool {
        &&& self.hops_made() < self.hops_allowed()
        &&& self@.frontier.len() > 0
        &&& self@.rows.len() < self.rule_of().limit
    }

    /// A traversal from a node, of at most `depth` hops and never more than the
    /// engine allows.
    pub fn start(from_id: &LogicalId, depth: usize, rule: WalkRule) -> (w: Self)
        ensures
            w@.visited == seq![from_id@],
            w@.frontier == seq![from_id@],
            w@.rows.len() == 0,
            w.hops_made() == 0,
            w.hops_allowed() == (if depth < MAX_HOPS {
                depth
            } else {
                MAX_HOPS
            }),
            w.rule_of() == rule,
    {
        let mut visited: Vec<LogicalId> = Vec::new();
        visited.push(from_id.clone());
        let mut frontier: Vec<LogicalId> = Vec::new();
        frontier.push(from_id.clone());
        let max_hops = if depth < MAX_HOPS {
            depth
        } else {
            MAX_HOPS
        };
        let w = Walk { visited, frontier, rows: Vec::new(), hops: 0, max_hops, rule };
        assert(w@.visited =~= seq![from_id@]);
        assert(w@.frontier =~= seq![from_id@]);
        w
    }

    /// Whether another hop is due.
    pub fn is_due(&self) -> (r: bool)
        ensures
            r == self.due(),
    {
        self.hops < self.max_hops && self.frontier.len() > 0 && self.rows.len() < self.rule.limit
    }

    /// The nodes whose neighbours the next hop asks for.
    pub fn frontier(&self) -> (r: &Vec<LogicalId>)
        ensures
            field_index::id_views(r@) == self@.frontier,
    {
        &self.frontier
    }

    /// Makes a hop, given the neighbours of the frontier in order.
    pub fn hop(&mut self, neighbours: &Vec<Neighbour>)
        requires
            old(self).due(),
            old(self).hops_allowed() <= MAX_HOPS,
        ensures
            final(self)@ == hopped(
                old(self)@,
                neighbours@,
                (old(self).hops_made() + 1) as int,
                old(self).rule_of(),
            ),
            final(self).hops_made() == (old(self).hops_made() + 1) as int,
            final(self).hops_allowed() == old(self).hops_allowed(),
            final(self).rule_of() == old(self).rule_of(),
    {
        let ghost rule = self.rule;
        let depth = self.hops + 1;
        self.hops = depth;
        self.frontier = Vec::new();
        let ghost start = self@;
        let ghost allowed = self.max_hops;
        proof {
            assert(start.frontier =~= Seq::empty());
            assert(walked_all(start, neighbours@.subrange(0, 0), depth as int, rule) == start);
        }
        let mut i: usize = 0;
        while i < neighbours.len()
            invariant
                i <= neighbours.len(),
                depth <= MAX_HOPS,
                self.rule == rule,
                self.hops == depth,
                self.max_hops == allowed,
                self@ == walked_all(start, neighbours@.subrange(0, i as int), depth as int, rule),
            decreases neighbours.len() - i,
        {
            let ghost before = self@;
            let n = &neighbours[i];
            proof {
                let next = neighbours@.subrange(0, i as int + 1);
                assert(next.drop_last() =~= neighbours@.subrange(0, i as int));
                assert(next.last() == *n);
            }
            if self.rows.len() < self.rule.limit && self.rule.gate.lets_pass(n.confidence) && !contains_id(
                &self.visited,
                &n.id,
            ) {
                self.visited.push(n.id.clone());
                if depth >= self.rule.min_depth {
                    if let Some(e) = &n.entity {
                        let row = build_node_row(e, n.confidence, depth, &self.rule);
                        self.rows.push(row);
                    }
                }
                if self.rows.len() < self.rule.limit {
                    self.frontier.push(n.id.clone());
                }
                proof {
                    let after = walked(before, *n, depth as int, rule);
                    assert(self@.visited =~= after.visited);
                    assert(self@.frontier =~= after.frontier);
                    assert(self@.rows =~= after.rows);
                }
            }
            i += 1;
        }
        assert(neighbours@.subrange(0, neighbours@.len() as int) =~= neighbours@);
    }

    /// The answer of the traversal.
    pub fn finish(self) -> (r: QueryResult)
        ensures
            rows::row_views(r.rows@) == self@.rows,
            rows::all_columns(r.rows@, text::views(r.columns@)),
            r.entities_scanned == self@.rows.len(),
            r.mode == QueryMode::Deterministic,
            r.tier@ == "Ram"@,
    {
        let columns = build_columns(&self.rows, &FieldList::All);
        let n = self.rows.len();
        QueryResult {
            columns,
            rows: self.rows,
            entities_scanned: n,
            mode: QueryMode::Deterministic,
            tier: own("Ram"),
        }
    }
}

/// The neighbours of each of some nodes, in order.
pub open spec fn neighbours_of(g: spec_fn(Seq<char>) -> Seq<Neighbour>, nodes: Seq<Seq<char>>) -> Seq<Neighbour>
    decreases nodes.len(),
{
    if nodes.len() == 0 {
        Seq::empty()
    } else {
        neighbours_of(g, nodes.drop_last()) + g(nodes.last())
    }
}

/// The state of a traversal of a graph after a number of hops.
pub open spec fn after_hops(
    g: spec_fn(Seq<char>) -> Seq<Neighbour>,
    from: Seq<char>,
    hops: nat,
    rule: WalkRule,
) -> WalkView
    decreases hops,
{
    if hops == 0 {
        WalkView { visited: seq![from], frontier: seq![from], rows: Seq::empty() }
    } else {
        let v = after_hops(g, from, (hops - 1) as nat, rule);
        hopped(v, neighbours_of(g, v.frontier), hops as int, rule)
    }
}

/// Whether some edge that is followed leads to a node.
pub open spec fn offered(ns: Seq<Neighbour>, gate: Gate, x: Seq<char>) -> bool {
    exists|i: int| 0 <= i < ns.len() && (#[trigger] ns[i]).id@ == x && gate.admits(ns[i].confidence)
}

/// Whether a node is reached from another in at most a number of hops, along edges
/// that are followed.
pub open spec fn within(
    g: spec_fn(Seq<char>) -> Seq<Neighbour>,
    gate: Gate,
    from: Seq<char>,
    x: Seq<char>,
    hops: nat,
) -> bool
    decreases hops,
{
    if hops == 0 {
        x == from
    } else {
        ||| within(g, gate, from, x, (hops - 1) as nat)
        ||| exists|y: Seq<char>|
            within(g, gate, from, y, (hops - 1) as nat) && offered(#[trigger] g(y), gate, x)
    }
}

proof fn lemma_walked_all(v: WalkView, ns: Seq<Neighbour>, depth: int, rule: WalkRule)
    requires
        v.frontier.len() == 0,
        v.visited.no_duplicates(),
    ensures
        ({
            let w = walked_all(v, ns, depth, rule);
            &&& w.visited.no_duplicates()
            &&& v.rows.len() <= w.rows.len()
            &&& w.rows.len() - v.rows.len() <= w.visited.len() - v.visited.len()
            &&& v.rows.len() <= rule.limit ==> w.rows.len() <= rule.limit
            &&& w.rows.len() < rule.limit ==> {
                &&& forall|x: Seq<char>| #[trigger]
                    w.visited.contains(x) <==> v.visited.contains(x) || offered(ns, rule.gate, x)
                &&& forall|x: Seq<char>| #[trigger]
                    w.frontier.contains(x) <==> w.visited.contains(x) && !v.visited.contains(x)
            }
        }),
    decreases ns.len(),
{
    if ns.len() == 0 {
    } else {
        let head = ns.drop_last();
        let n = ns.last();
        lemma_walked_all(v, head, depth, rule);
        let u = walked_all(v, head, depth, rule);
        let w = walked_all(v, ns, depth, rule);
        assert(w == walked(u, n, depth, rule));
        if w != u {
            assert(w.visited == u.visited.push(n.id@));
        }
        if w.rows.len() < rule.limit {
            assert forall|x: Seq<char>| #[trigger] w.visited.contains(x) <==> v.visited.contains(x) || offered(
                ns,
                rule.gate,
                x,
            ) by {
                lemma_offered_push(ns, rule.gate, x);
                lemma_contains_push(u.visited, n.id@, x);
                assert(u.visited.contains(x) <==> v.visited.contains(x) || offered(head, rule.gate, x));
            }
            assert forall|x: Seq<char>| #[trigger] w.frontier.contains(x) <==> w.visited.contains(x)
                && !v.visited.contains(x) by {
                lemma_contains_push(u.visited, n.id@, x);
                lemma_contains_push(u.frontier, n.id@, x);
                assert(u.frontier.contains(x) <==> u.visited.contains(x) && !v.visited.contains(x));
                assert(u.visited.contains(n.id@) <==> v.visited.contains(n.id@) || offered(
                    head,
                    rule.gate,
                    n.id@,
                ));
            }
        }
    }
}

proof fn lemma_contains_push(s: Seq<Seq<char>>, a: Seq<char>, x: Seq<char>)
    ensures
        s.push(a).contains(x) <==> s.contains(x) || x == a,
{
    let t = s.push(a);
    if s.contains(x) {
        let i = choose|i: int| 0 <= i < s.len() && s[i] == x;
        assert(t[i] == x);
    }
    if x == a {
        assert(t[s.len() as int] == x);
    }
}

proof fn lemma_offered_push(ns: Seq<Neighbour>, gate: Gate, x: Seq<char>)
    requires
        ns.len() > 0,
    ensures
        offered(ns, gate, x) <==> offered(ns.drop_last(), gate, x) || (ns.last().id@ == x && gate.admits(
            ns.last().confidence,
        )),
{
    let head = ns.drop_last();
    if offered(head, gate, x) {
        let i = choose|i: int| 0 <= i < head.len() && (#[trigger] head[i]).id@ == x && gate.admits(head[i].confidence);
        assert(ns[i] == head[i]);
    }
    if ns.last().id@ == x && gate.admits(ns.last().confidence) {
        assert(ns[ns.len() - 1] == ns.last());
    }
    if offered(ns, gate, x) {
        let i = choose|i: int| 0 <= i < ns.len() && (#[trigger] ns[i]).id@ == x && gate.admits(ns[i].confidence);
        if i < ns.len() - 1 {
            assert(head[i] == ns[i]);
        }
    }
}

proof fn lemma_offered_concat(a: Seq<Neighbour>, b: Seq<Neighbour>, gate: Gate, x: Seq<char>)
    ensures
        offered(a + b, gate, x) <==> offered(a, gate, x) || offered(b, gate, x),
{
    let s = a + b;
    if offered(s, gate, x) {
        let i = choose|i: int| 0 <= i < s.len() && (#[trigger] s[i]).id@ == x && gate.admits(s[i].confidence);
        if i < a.len() {
            assert(a[i] == s[i]);
        } else {
            assert(b[i - a.len()] == s[i]);
        }
    }
    if offered(a, gate, x) {
        let i = choose|i: int| 0 <= i < a.len() && (#[trigger] a[i]).id@ == x && gate.admits(a[i].confidence);
        assert(s[i] == a[i]);
    }
    if offered(b, gate, x) {
        let i = choose|i: int| 0 <= i < b.len() && (#[trigger] b[i]).id@ == x && gate.admits(b[i].confidence);
        assert(s[i + a.len()] == b[i]);
    }
}

proof fn lemma_neighbours_of(
    g: spec_fn(Seq<char>) -> Seq<Neighbour>,
    nodes: Seq<Seq<char>>,
    gate: Gate,
    x: Seq<char>,
)
    ensures
        offered(neighbours_of(g, nodes), gate, x) <==> exists|y: Seq<char>|
            nodes.contains(y) && offered(#[trigger] g(y), gate, x),
    decreases nodes.len(),
{
    if nodes.len() == 0 {
    } else {
        let head = nodes.drop_last();
        lemma_neighbours_of(g, head, gate, x);
        lemma_offered_concat(neighbours_of(g, head), g(nodes.last()), gate, x);
        assert(head.push(nodes.last()) =~= nodes);
        if exists|y: Seq<char>| nodes.contains(y) && offered(#[trigger] g(y), gate, x) {
            let y = choose|y: Seq<char>| nodes.contains(y) && offered(#[trigger] g(y), gate, x);
            lemma_contains_push(head, nodes.last(), y);
        }
        if offered(neighbours_of(g, head), gate, x) {
            let y = choose|y: Seq<char>| head.contains(y) && offered(#[trigger] g(y), gate, x);
            lemma_contains_push(head, nodes.last(), y);
            assert(nodes.contains(y) && offered(g(y), gate, x));
        }
        if offered(g(nodes.last()), gate, x) {
            lemma_contains_push(head, nodes.last(), nodes.last());
            assert(nodes.contains(nodes.last()));
        }
    }
}

/// A traversal answers no node twice: it never visits one again, and adds at most
/// one row for each. It never answers more rows than its limit.
pub proof fn lemma_no_revisit(
    g: spec_fn(Seq<char>) -> Seq<Neighbour>,
    from: Seq<char>,
    hops: nat,
    rule: WalkRule,
)
    ensures
        after_hops(g, from, hops, rule).visited.no_duplicates(),
        after_hops(g, from, hops, rule).rows.len() < after_hops(g, from, hops, rule).visited.len(),
        after_hops(g, from, hops, rule).rows.len() <= rule.limit,
    decreases hops,
{
    if hops > 0 {
        lemma_no_revisit(g, from, (hops - 1) as nat, rule);
        let v = after_hops(g, from, (hops - 1) as nat, rule);
        lemma_walked_all(
            WalkView { visited: v.visited, frontier: Seq::empty(), rows: v.rows },
            neighbours_of(g, v.frontier),
            hops as int,
            rule,
        );
    }
}

/// While the limit is not reached, what a traversal has visited after some hops is
/// exactly what lies within that many hops of its start, along the edges followed.
pub proof fn lemma_breadth_first(
    g: spec_fn(Seq<char>) -> Seq<Neighbour>,
    from: Seq<char>,
    hops: nat,
    rule: WalkRule,
)
    requires
        after_hops(g, from, hops, rule).rows.len() < rule.limit,
    ensures
        forall|x: Seq<char>| #[trigger]
            after_hops(g, from, hops, rule).visited.contains(x) <==> within(g, rule.gate, from, x, hops),
{
    lemma_frontier_closed(g, from, hops, rule);
}

proof fn lemma_frontier_closed(
    g: spec_fn(Seq<char>) -> Seq<Neighbour>,
    from: Seq<char>,
    hops: nat,
    rule: WalkRule,
)
    requires
        after_hops(g, from, hops, rule).rows.len() < rule.limit,
    ensures
        ({
            let v = after_hops(g, from, hops, rule);
            &&& forall|x: Seq<char>| #[trigger] v.visited.contains(x) <==> within(g, rule.gate, from, x, hops)
            &&& forall|x: Seq<char>| #[trigger] v.frontier.contains(x) ==> v.visited.contains(x)
            &&& forall|y: Seq<char>, x: Seq<char>|
                v.visited.contains(y) && !v.frontier.contains(y) && #[trigger] offered(g(y), rule.gate, x)
                    ==> v.visited.contains(x)
        }),
    decreases hops,
{
    let gate = rule.gate;
    if hops == 0 {
        let v = after_hops(g, from, hops, rule);
        assert forall|x: Seq<char>| #[trigger] v.visited.contains(x) <==> within(g, gate, from, x, hops) by {
            if x == from {
                assert(v.visited[0] == x);
            }
        }
        assert(v.visited =~= v.frontier);
    } else {
        let less = (hops - 1) as nat;
        let v = after_hops(g, from, less, rule);
        let base = WalkView { visited: v.visited, frontier: Seq::empty(), rows: v.rows };
        let ns = neighbours_of(g, v.frontier);
        let w = after_hops(g, from, hops, rule);
        lemma_no_revisit(g, from, less, rule);
        lemma_walked_all(base, ns, hops as int, rule);
        assert(w == walked_all(base, ns, hops as int, rule));
        lemma_frontier_closed(g, from, less, rule);
        assert forall|x: Seq<char>| #[trigger] w.visited.contains(x) <==> within(g, gate, from, x, hops) by {
            lemma_neighbours_of(g, v.frontier, gate, x);
            assert(base.visited.contains(x) <==> within(g, gate, from, x, less));
            if offered(ns, gate, x) {
                let y = choose|y: Seq<char>| v.frontier.contains(y) && offered(#[trigger] g(y), gate, x);
                assert(v.visited.contains(y));
                assert(within(g, gate, from, y, less) && offered(g(y), gate, x));
            }
            if exists|y: Seq<char>| within(g, gate, from, y, less) && offered(#[trigger] g(y), gate, x) {
                let y = choose|y: Seq<char>| within(g, gate, from, y, less) && offered(#[trigger] g(y), gate, x);
                assert(v.visited.contains(y));
                if v.frontier.contains(y) {
                    assert(offered(ns, gate, x));
                } else {
                    assert(v.visited.contains(x));
                }
            }
        }
        assert forall|y: Seq<char>, x: Seq<char>|
            w.visited.contains(y) && !w.frontier.contains(y) && #[trigger] offered(g(y), gate, x) implies w.visited.contains(
            x,
        ) by {
            assert(v.visited.contains(y));
            lemma_neighbours_of(g, v.frontier, gate, x);
            if !v.frontier.contains(y) {
                assert(v.visited.contains(x));
            }
        }
    }
}

/// Whether a node lies at a distance from another, along edges that are followed: so many
/// hops reach it and no fewer do.
pub open spec fn at_distance(
    g: spec_fn(Seq<char>) -> Seq<Neighbour>,
    gate: Gate,
    from: Seq<char>,
    x: Seq<char>,
    d: nat,
) -> bool {
    within(g, gate, from, x, d) && (d > 0 ==> !within(g, gate, from, x, (d - 1) as nat))
}

/// A node that a row was made of, and the hop that found it.
pub struct Stop {
    pub node: Neighbour,
    pub depth: nat,
}

/// The row of a stop.
pub open spec fn stop_row(s: Stop, rule: WalkRule) -> RowView {
    node_row(s.node.entity->0, s.node.confidence, s.depth as int, rule)
}

/// The stops of a hop: the neighbours of which rows are made.
pub open spec fn fresh_stops(v: WalkView, ns: Seq<Neighbour>, depth: nat, rule: WalkRule) -> Seq<Stop>
    decreases ns.len(),
{
    if ns.len() == 0 {
        Seq::empty()
    } else {
        let before = fresh_stops(v, ns.drop_last(), depth, rule);
        let u = walked_all(v, ns.drop_last(), depth as int, rule);
        let n = ns.last();
        if u.rows.len() < rule.limit && rule.gate.admits(n.confidence) && !u.visited.contains(n.id@) && depth
            >= rule.min_depth && n.entity is Some {
            before.push(Stop { node: n, depth })
        } else {
            before
        }
    }
}

/// The stops of a traversal of a graph after a number of hops, in the order of its rows.
pub open spec fn stops_of(
    g: spec_fn(Seq<char>) -> Seq<Neighbour>,
    from: Seq<char>,
    hops: nat,
    rule: WalkRule,
) -> Seq<Stop>
    decreases hops,
{
    if hops == 0 {
        Seq::empty()
    } else {
        let v = after_hops(g, from, (hops - 1) as nat, rule);
        stops_of(g, from, (hops - 1) as nat, rule) + fresh_stops(
            WalkView { visited: v.visited, frontier: Seq::empty(), rows: v.rows },
            neighbours_of(g, v.frontier),
            hops,
            rule,
        )
    }
}

/// Whether every edge to a stored node, and no other, comes with its entity.
pub open spec fn brings(ns: Seq<Neighbour>, stored: Set<Seq<char>>) -> bool {
    forall|i: int| 0 <= i < ns.len() ==> ((#[trigger] ns[i]).entity is Some <==> stored.contains(ns[i].id@))
}

/// Whether a row is made of a node.
pub open spec fn stops_at(stops: Seq<Stop>, x: Seq<char>) -> bool {
    exists|i: int| 0 <= i < stops.len() && (#[trigger] stops[i]).node.id@ == x
}

proof fn lemma_fresh_stops(v: WalkView, ns: Seq<Neighbour>, depth: nat, rule: WalkRule)
    ensures
        ({
            let w = walked_all(v, ns, depth as int, rule);
            let fresh = fresh_stops(v, ns, depth, rule);
            &&& w.rows == v.rows + fresh.map_values(|s: Stop| stop_row(s, rule))
            &&& forall|x: Seq<char>| #[trigger] v.visited.contains(x) ==> w.visited.contains(x)
            &&& forall|i: int|
                0 <= i < fresh.len() ==> {
                    &&& (#[trigger] fresh[i]).node.entity is Some
                    &&& fresh[i].depth == depth
                    &&& depth >= rule.min_depth
                    &&& !v.visited.contains(fresh[i].node.id@)
                    &&& w.visited.contains(fresh[i].node.id@)
                    &&& offered(ns, rule.gate, fresh[i].node.id@)
                }
            &&& forall|i: int, j: int|
                0 <= i < j < fresh.len() ==> (#[trigger] fresh[i]).node.id@ != (#[trigger] fresh[j]).node.id@
            &&& v.rows.len() >= rule.limit ==> fresh.len() == 0
        }),
    decreases ns.len(),
{
    let f = |s: Stop| stop_row(s, rule);
    let fresh = fresh_stops(v, ns, depth, rule);
    if ns.len() == 0 {
        assert(v.rows =~= v.rows + fresh.map_values(f));
    } else {
        let head = ns.drop_last();
        let n = ns.last();
        lemma_fresh_stops(v, head, depth, rule);
        let before = fresh_stops(v, head, depth, rule);
        let u = walked_all(v, head, depth as int, rule);
        let w = walked(u, n, depth as int, rule);
        assert(w.rows =~= v.rows + fresh.map_values(f));
        assert forall|x: Seq<char>| #[trigger] v.visited.contains(x) implies w.visited.contains(x) by {
            lemma_contains_push(u.visited, n.id@, x);
        }
        assert forall|i: int| 0 <= i < fresh.len() implies {
            &&& (#[trigger] fresh[i]).node.entity is Some
            &&& fresh[i].depth == depth
            &&& depth >= rule.min_depth
            &&& !v.visited.contains(fresh[i].node.id@)
            &&& w.visited.contains(fresh[i].node.id@)
            &&& offered(ns, rule.gate, fresh[i].node.id@)
        } by {
            let x = fresh[i].node.id@;
            lemma_contains_push(u.visited, n.id@, x);
            lemma_offered_push(ns, rule.gate, x);
            if i < before.len() {
                assert(fresh[i] == before[i]);
            }
        }
        assert forall|i: int, j: int| 0 <= i < j < fresh.len() implies (#[trigger] fresh[i]).node.id@ != (
        #[trigger] fresh[j]).node.id@ by {
            assert(fresh[i] == before[i]);
            if j < before.len() {
                assert(fresh[j] == before[j]);
            } else {
                assert(u.visited.contains(before[i].node.id@));
            }
        }
    }
}

proof fn lemma_fresh_stops_all(
    v: WalkView,
    ns: Seq<Neighbour>,
    depth: nat,
    rule: WalkRule,
    stored: Set<Seq<char>>,
    x: Seq<char>,
)
    requires
        brings(ns, stored),
        depth >= rule.min_depth,
        stored.contains(x),
        walked_all(v, ns, depth as int, rule).visited.contains(x),
        !v.visited.contains(x),
    ensures
        stops_at(fresh_stops(v, ns, depth, rule), x),
    decreases ns.len(),
{
    if ns.len() > 0 {
        let head = ns.drop_last();
        let n = ns.last();
        let u = walked_all(v, head, depth as int, rule);
        let before = fresh_stops(v, head, depth, rule);
        let fresh = fresh_stops(v, ns, depth, rule);
        assert forall|i: int| 0 <= i < head.len() implies ((#[trigger] head[i]).entity is Some <==> stored.contains(
            head[i].id@,
        )) by {
            assert(head[i] == ns[i]);
        }
        lemma_contains_push(u.visited, n.id@, x);
        if u.visited.contains(x) {
            lemma_fresh_stops_all(v, head, depth, rule, stored, x);
            let i = choose|i: int| 0 <= i < before.len() && (#[trigger] before[i]).node.id@ == x;
            assert(fresh[i] == before[i]);
        } else {
            assert(ns[ns.len() - 1] == n);
            assert(fresh[before.len() as int].node.id@ == x);
        }
    }
}

/// A traversal answers nearer nodes first. The rows that it has found after some hops are
/// those of different nodes, each at the distance at which it was found, in order of
/// distance, and none nearer than the depth asked for or farther than the hops made.
pub proof fn lemma_nearer_first(
    g: spec_fn(Seq<char>) -> Seq<Neighbour>,
    from: Seq<char>,
    hops: nat,
    rule: WalkRule,
)
    ensures
        after_hops(g, from, hops, rule).rows == stops_of(g, from, hops, rule).map_values(
            |s: Stop| stop_row(s, rule),
        ),
        forall|i: int|
            0 <= i < stops_of(g, from, hops, rule).len() ==> {
                let stop = #[trigger] stops_of(g, from, hops, rule)[i];
                &&& stop.node.entity is Some
                &&& 0 < stop.depth <= hops
                &&& rule.min_depth <= stop.depth
                &&& at_distance(g, rule.gate, from, stop.node.id@, stop.depth)
                &&& after_hops(g, from, hops, rule).visited.contains(stop.node.id@)
            },
        forall|i: int, j: int|
            0 <= i < j < stops_of(g, from, hops, rule).len() ==> {
                let a = #[trigger] stops_of(g, from, hops, rule)[i];
                let b = #[trigger] stops_of(g, from, hops, rule)[j];
                a.depth <= b.depth && a.node.id@ != b.node.id@
            },
    decreases hops,
{
    let f = |s: Stop| stop_row(s, rule);
    let gate = rule.gate;
    let stops = stops_of(g, from, hops, rule);
    let w = after_hops(g, from, hops, rule);
    if hops == 0 {
        assert(w.rows =~= stops.map_values(f));
    } else {
        let less = (hops - 1) as nat;
        let v = after_hops(g, from, less, rule);
        let base = WalkView { visited: v.visited, frontier: Seq::empty(), rows: v.rows };
        let ns = neighbours_of(g, v.frontier);
        lemma_nearer_first(g, from, less, rule);
        lemma_fresh_stops(base, ns, hops, rule);
        let before = stops_of(g, from, less, rule);
        let fresh = fresh_stops(base, ns, hops, rule);
        assert(w.rows =~= stops.map_values(f));
        if v.rows.len() < rule.limit {
            lemma_frontier_closed(g, from, less, rule);
        }
        assert forall|i: int| 0 <= i < stops.len() implies {
            let stop = #[trigger] stops[i];
            &&& stop.node.entity is Some
            &&& 0 < stop.depth <= hops
            &&& rule.min_depth <= stop.depth
            &&& at_distance(g, gate, from, stop.node.id@, stop.depth)
            &&& w.visited.contains(stop.node.id@)
        } by {
            let x = stops[i].node.id@;
            if i < before.len() {
                assert(stops[i] == before[i]);
                assert(base.visited.contains(x));
            } else {
                assert(stops[i] == fresh[i - before.len()]);
                lemma_neighbours_of(g, v.frontier, gate, x);
                let y = choose|y: Seq<char>| v.frontier.contains(y) && offered(#[trigger] g(y), gate, x);
                assert(v.visited.contains(y));
                assert(within(g, gate, from, y, less) && offered(g(y), gate, x));
                assert(!v.visited.contains(x));
            }
        }
        assert forall|i: int, j: int| 0 <= i < j < stops.len() implies {
            let a = #[trigger] stops[i];
            let b = #[trigger] stops[j];
            a.depth <= b.depth && a.node.id@ != b.node.id@
        } by {
            if j < before.len() {
                assert(stops[i] == before[i] && stops[j] == before[j]);
            } else if i < before.len() {
                assert(stops[i] == before[i] && stops[j] == fresh[j - before.len()]);
                assert(v.visited.contains(stops[i].node.id@));
            } else {
                assert(stops[i] == fresh[i - before.len()] && stops[j] == fresh[j - before.len()]);
            }
        }
    }
}

/// A traversal answers every node that it should: while the limit is not reached, a row
/// is made of a node exactly where the node is stored and lies at a distance that is
/// asked for and within the hops made. The start itself is at no distance.
pub proof fn lemma_every_node_answered(
    g: spec_fn(Seq<char>) -> Seq<Neighbour>,
    from: Seq<char>,
    hops: nat,
    rule: WalkRule,
    stored: Set<Seq<char>>,
    x: Seq<char>,
)
    requires
        after_hops(g, from, hops, rule).rows.len() < rule.limit,
        forall|y: Seq<char>| brings(#[trigger] g(y), stored),
    ensures
        stops_at(stops_of(g, from, hops, rule), x) <==> stored.contains(x) && exists|d: nat|
            0 < d <= hops && rule.min_depth <= d && #[trigger] at_distance(g, rule.gate, from, x, d),
    decreases hops,
{
    let gate = rule.gate;
    let stops = stops_of(g, from, hops, rule);
    lemma_nearer_first(g, from, hops, rule);
    if stops_at(stops, x) {
        let i = choose|i: int| 0 <= i < stops.len() && (#[trigger] stops[i]).node.id@ == x;
        lemma_stop_stored(g, from, hops, rule, stored, i);
        assert(at_distance(g, gate, from, x, stops[i].depth));
    }
    if stored.contains(x) && exists|d: nat|
        0 < d <= hops && rule.min_depth <= d && #[trigger] at_distance(g, gate, from, x, d) {
        let d = choose|d: nat| 0 < d <= hops && rule.min_depth <= d && #[trigger] at_distance(g, gate, from, x, d);
        let less = (hops - 1) as nat;
        let v = after_hops(g, from, less, rule);
        let base = WalkView { visited: v.visited, frontier: Seq::empty(), rows: v.rows };
        let ns = neighbours_of(g, v.frontier);
        let before = stops_of(g, from, less, rule);
        let fresh = fresh_stops(base, ns, hops, rule);
        lemma_fresh_stops(base, ns, hops, rule);
        if d < hops {
            lemma_every_node_answered(g, from, less, rule, stored, x);
            let i = choose|i: int| 0 <= i < before.len() && (#[trigger] before[i]).node.id@ == x;
            assert(stops[i] == before[i]);
        } else {
            lemma_frontier_closed(g, from, less, rule);
            lemma_frontier_closed(g, from, hops, rule);
            lemma_neighbours_bring(g, v.frontier, stored);
            assert(after_hops(g, from, hops, rule).visited.contains(x));
            lemma_fresh_stops_all(base, ns, hops, rule, stored, x);
            let i = choose|i: int| 0 <= i < fresh.len() && (#[trigger] fresh[i]).node.id@ == x;
            assert(stops[before.len() + i] == fresh[i]);
        }
    }
}

proof fn lemma_neighbours_bring(g: spec_fn(Seq<char>) -> Seq<Neighbour>, nodes: Seq<Seq<char>>, stored: Set<Seq<char>>)
    requires
        forall|y: Seq<char>| brings(#[trigger] g(y), stored),
    ensures
        brings(neighbours_of(g, nodes), stored),
    decreases nodes.len(),
{
    if nodes.len() > 0 {
        lemma_neighbours_bring(g, nodes.drop_last(), stored);
        let a = neighbours_of(g, nodes.drop_last());
        let b = g(nodes.last());
        let s = a + b;
        assert(brings(b, stored));
        assert forall|i: int| 0 <= i < s.len() implies ((#[trigger] s[i]).entity is Some <==> stored.contains(
            s[i].id@,
        )) by {
            if i < a.len() {
                assert(s[i] == a[i]);
            } else {
                assert(s[i] == b[i - a.len()]);
            }
        }
    }
}

proof fn lemma_fresh_stored(v: WalkView, ns: Seq<Neighbour>, depth: nat, rule: WalkRule, stored: Set<Seq<char>>, i: int)
    requires
        brings(ns, stored),
        0 <= i < fresh_stops(v, ns, depth, rule).len(),
    ensures
        stored.contains(fresh_stops(v, ns, depth, rule)[i].node.id@),
    decreases ns.len(),
{
    if ns.len() > 0 {
        let head = ns.drop_last();
        assert forall|k: int| 0 <= k < head.len() implies ((#[trigger] head[k]).entity is Some <==> stored.contains(
            head[k].id@,
        )) by {
            assert(head[k] == ns[k]);
        }
        assert(ns[ns.len() - 1] == ns.last());
        if i < fresh_stops(v, head, depth, rule).len() {
            lemma_fresh_stored(v, head, depth, rule, stored, i);
        }
    }
}

proof fn lemma_stop_stored(
    g: spec_fn(Seq<char>) -> Seq<Neighbour>,
    from: Seq<char>,
    hops: nat,
    rule: WalkRule,
    stored: Set<Seq<char>>,
    i: int,
)
    requires
        forall|y: Seq<char>| brings(#[trigger] g(y), stored),
        0 <= i < stops_of(g, from, hops, rule).len(),
    ensures
        stored.contains(stops_of(g, from, hops, rule)[i].node.id@),
    decreases hops,
{
    if hops > 0 {
        let less = (hops - 1) as nat;
        let v = after_hops(g, from, less, rule);
        let base = WalkView { visited: v.visited, frontier: Seq::empty(), rows: v.rows };
        let n = stops_of(g, from, less, rule).len();
        if i < n {
            lemma_stop_stored(g, from, less, rule, stored, i);
        } else {
            lemma_neighbours_bring(g, v.frontier, stored);
            lemma_fresh_stored(base, neighbours_of(g, v.frontier), hops, rule, stored, i - n);
        }
    }
}

} // verus!
