//! Edges, edge types and the index of who is connected to whom.

use vstd::prelude::*;
use vstd::string::*;

use dashmap::DashMap;

use crate::fields::FieldMap;
use crate::float_bits;
use crate::float_bits::{double_is_nan, double_less, double_of_single, F32_HALF, F64_ONE};
use crate::text;
use crate::text::{own, text_equal};
use crate::value::{ids_equal, LogicalId, Val};

verus! {

/// Where an edge comes from.
#[derive(Clone, Copy, PartialEq, Eq, Structural, Debug)]
pub enum EdgeSource {
    StructuralEdge,
    Inferred,
    Confirmed,
}

impl Default for EdgeSource {
    fn default() -> (r: Self)
        ensures
            r == EdgeSource::StructuralEdge,
    {
        EdgeSource::StructuralEdge
    }
}

/// A directed relationship between two entities. The confidence is the bits of
/// a single.
#[derive(Debug)]
pub struct Edge {
    pub from_id: LogicalId,
    pub to_id: LogicalId,
    pub edge_type: String,
    pub confidence: u32,
    pub metadata: FieldMap,
    pub created_at: u64,
    pub source: EdgeSource,
}

/// The model of an [`Edge`].
pub struct EdgeView {
    pub from_id: Seq<char>,
    pub to_id: Seq<char>,
    pub edge_type: Seq<char>,
    pub confidence: u32,
    pub metadata: Map<Seq<char>, Val>,
    pub created_at: u64,
    pub source: EdgeSource,
}

impl View for Edge {
    type V = EdgeView;

    open spec fn view(&self) -> EdgeView {
        EdgeView {
            from_id: self.from_id@,
            to_id: self.to_id@,
            edge_type: self.edge_type@,
            confidence: self.confidence,
            metadata: self.metadata@,
            created_at: self.created_at,
            source: self.source,
        }
    }
}

impl Clone for Edge {
    fn clone(&self) -> (r: Self)
        ensures
            r@ == self@,
    {
        Edge {
            from_id: self.from_id.clone(),
            to_id: self.to_id.clone(),
            edge_type: self.edge_type.clone(),
            confidence: self.confidence,
            metadata: self.metadata.clone(),
            created_at: self.created_at,
            source: self.source,
        }
    }
}

/// How confidence falls with time.
#[derive(Clone, Copy, PartialEq, Eq, Structural, Debug)]
pub enum DecayFn {
    Exponential,
    Linear,
    Step,
}

/// The decay of an edge type. Numbers are the bits of doubles.
#[derive(Clone, Copy, PartialEq, Eq, Structural, Debug)]
pub struct DecayConfig {
    pub decay_fn: Option<DecayFn>,
    pub decay_rate: Option<u64>,
    pub floor: Option<u64>,
    pub promote_threshold: Option<u64>,
    pub prune_threshold: Option<u64>,
}

impl Default for DecayConfig {
    fn default() -> (r: Self)
        ensures
            r.decay_fn is None,
            r.decay_rate is None,
            r.floor is None,
            r.promote_threshold is None,
            r.prune_threshold is None,
    {
        DecayConfig {
            decay_fn: None,
            decay_rate: None,
            floor: None,
            promote_threshold: None,
            prune_threshold: None,
        }
    }
}

/// How edges of a type are inferred. The floor is the bits of a single.
#[derive(Clone, Copy, PartialEq, Eq, Structural, Debug)]
pub struct InferenceConfig {
    pub auto: bool,
    pub confidence_floor: u32,
    pub limit: usize,
}

impl Default for InferenceConfig {
    fn default() -> (r: Self)
        ensures
            !r.auto,
            r.confidence_floor == F32_HALF,
            r.limit == 10,
    {
        InferenceConfig { auto: false, confidence_floor: F32_HALF, limit: 10 }
    }
}

/// The declaration of a class of edges.
#[derive(Debug)]
pub struct EdgeType {
    pub name: String,
    pub from_collection: String,
    pub to_collection: String,
    pub decay_config: DecayConfig,
    pub inference_config: InferenceConfig,
}

impl Clone for EdgeType {
    fn clone(&self) -> (r: Self)
        ensures
            r == *self,
    {
        EdgeType {
            name: self.name.clone(),
            from_collection: self.from_collection.clone(),
            to_collection: self.to_collection.clone(),
            decay_config: self.decay_config,
            inference_config: self.inference_config,
        }
    }
}

/// How the effective confidence of an edge is found.
#[derive(Clone, Copy, PartialEq, Eq, Structural, Debug)]
pub enum DecayRule {
    /// The stored confidence, unchanged.
    Unchanged,
    /// The stored confidence, multiplied by the exponential of minus rate times seconds.
    Exponential,
    /// The stored confidence, less its product with rate times seconds.
    Linear,
    /// The stored confidence until `rate` seconds have passed, and the floor after.
    Step,
}

/// How the effective confidence of an edge is found: nothing decays at once or
/// without a decay function.
pub fn decay_rule(elapsed_millis: u64, config: &DecayConfig) -> (r: DecayRule)
    ensures
        r == (if elapsed_millis == 0 || config.decay_fn is None {
            DecayRule::Unchanged
        } else {
            match config.decay_fn->0 {
                DecayFn::Exponential => DecayRule::Exponential,
                DecayFn::Linear => DecayRule::Linear,
                DecayFn::Step => DecayRule::Step,
            }
        }),
{
    if elapsed_millis == 0 {
        return DecayRule::Unchanged;
    }
    match config.decay_fn {
        None => DecayRule::Unchanged,
        Some(DecayFn::Exponential) => DecayRule::Exponential,
        Some(DecayFn::Linear) => DecayRule::Linear,
        Some(DecayFn::Step) => DecayRule::Step,
    }
}

/// The rate and the floor of a decay, the bits of doubles: zero where they are not set.
pub fn decay_parameters(config: &DecayConfig) -> (r: (u64, u64))
    ensures
        r.0 == (match config.decay_rate {
            Some(x) => x,
            None => 0,
        }),
        r.1 == (match config.floor {
            Some(x) => x,
            None => 0,
        }),
{
    let rate = match config.decay_rate {
        Some(x) => x,
        None => 0,
    };
    let floor = match config.floor {
        Some(x) => x,
        None => 0,
    };
    (rate, floor)
}

/// The confidence under a step, the bits of a double: the stored one until more than
/// `rate` seconds have passed, and the floor after.
pub open spec fn step_value(confidence: u32, elapsed_secs: u64, rate: u64, floor: u64) -> u64 {
    if float_bits::f64_lt(rate, elapsed_secs) {
        floor
    } else {
        float_bits::f32_to_f64(confidence)
    }
}

/// The confidence under a step.
pub fn step_decayed(confidence: u32, elapsed_secs: u64, rate: u64, floor: u64) -> (r: u64)
    ensures
        r == step_value(confidence, elapsed_secs, rate, floor),
{
    if double_less(rate, elapsed_secs) {
        floor
    } else {
        double_of_single(confidence)
    }
}

/// The greater of two doubles; the other one where one is not a number.
pub open spec fn greater(a: u64, b: u64) -> u64 {
    if float_bits::f64_is_nan(a) || float_bits::f64_lt(a, b) {
        b
    } else {
        a
    }
}

/// The lesser of two doubles; the other one where one is not a number.
pub open spec fn lesser(a: u64, b: u64) -> u64 {
    if float_bits::f64_is_nan(a) || float_bits::f64_lt(b, a) {
        b
    } else {
        a
    }
}

/// A decayed confidence, the bits of a double, brought between the floor and one.
pub open spec fn bounded(decayed: u64, floor: u64) -> u64 {
    lesser(greater(decayed, floor), F64_ONE)
}

/// A decayed confidence brought between the floor and one.
pub fn bounded_confidence(decayed: u64, floor: u64) -> (r: u64)
    ensures
        r == bounded(decayed, floor),
{
    let least = if double_is_nan(decayed) || double_less(decayed, floor) {
        floor
    } else {
        decayed
    };
    if double_is_nan(least) || double_less(F64_ONE, least) {
        F64_ONE
    } else {
        least
    }
}

/// An effective confidence is a number between the floor and one, whatever the decay
/// gave, where the floor is a number and at most one.
pub proof fn lemma_confidence_bounded(decayed: u64, floor: u64)
    requires
        float_bits::f64_le(floor, F64_ONE),
    ensures
        float_bits::f64_le(floor, bounded(decayed, floor)),
        float_bits::f64_le(bounded(decayed, floor), F64_ONE),
{
}

/// Bringing decayed confidences between the floor and one keeps their order: of two
/// numbers the lesser does not become the greater. Where a decay never gave more than the
/// confidence it began with, the effective confidence is no more than that either.
pub proof fn lemma_bounding_keeps_order(later: u64, earlier: u64, floor: u64, base: u64)
    requires
        float_bits::f64_le(floor, base),
        float_bits::f64_le(base, F64_ONE),
        float_bits::f64_le(later, earlier),
        float_bits::f64_le(earlier, base),
    ensures
        float_bits::f64_le(floor, bounded(later, floor)),
        float_bits::f64_le(bounded(later, floor), bounded(earlier, floor)),
        float_bits::f64_le(bounded(earlier, floor), base),
{
}

/// Under a step confidence never rises with time, never falls below the floor, and is
/// never more than the stored one.
pub proof fn lemma_step_never_rises(confidence: u32, earlier_secs: u64, later_secs: u64, rate: u64, floor: u64)
    requires
        float_bits::f64_le(floor, float_bits::f32_to_f64(confidence)),
        float_bits::f64_le(float_bits::f32_to_f64(confidence), F64_ONE),
        float_bits::f64_le(earlier_secs, later_secs),
    ensures
        ({
            let earlier = bounded(step_value(confidence, earlier_secs, rate, floor), floor);
            let later = bounded(step_value(confidence, later_secs, rate, floor), floor);
            &&& float_bits::f64_le(floor, later)
            &&& float_bits::f64_le(later, earlier)
            &&& float_bits::f64_le(earlier, float_bits::f32_to_f64(confidence))
        }),
{
}

/// One outgoing edge, as the index holds it.
#[derive(Debug)]
pub struct AdjEntry {
    pub to_id: LogicalId,
    pub confidence: u32,
    pub created_at: u64,
    pub source: EdgeSource,
}

/// The model of an [`AdjEntry`].
pub struct EntryView {
    pub to_id: Seq<char>,
    pub confidence: u32,
    pub created_at: u64,
    pub source: EdgeSource,
}

impl View for AdjEntry {
    type V = EntryView;

    open spec fn view(&self) -> EntryView {
        EntryView {
            to_id: self.to_id@,
            confidence: self.confidence,
            created_at: self.created_at,
            source: self.source,
        }
    }
}

impl Clone for AdjEntry {
    fn clone(&self) -> (r: Self)
        ensures
            r == *self,
    {
        AdjEntry {
            to_id: self.to_id.clone(),
            confidence: self.confidence,
            created_at: self.created_at,
            source: self.source,
        }
    }
}

/// The views of a sequence of entries.
pub open spec fn entry_views(s: Seq<AdjEntry>) -> Seq<EntryView> {
    s.map_values(|e: AdjEntry| e@)
}

/// An entity and an edge type.
pub type EdgeKey = (Seq<char>, Seq<char>);

/// The model of a key.
pub open spec fn key_view(k: (String, String)) -> EdgeKey {
    (k.0@, k.1@)
}

/// The views of a sequence of keys.
pub open spec fn key_views(s: Seq<(String, String)>) -> Seq<EdgeKey> {
    s.map_values(|k: (String, String)| key_view(k))
}

/// A map of the `dashmap` crate.
#[verifier::external_type_specification]
#[verifier::external_body]
#[verifier::reject_recursive_types(K)]
#[verifier::reject_recursive_types(V)]
#[verifier::reject_recursive_types(S)]
pub struct ExDashMap<K, V, S>(dashmap::DashMap<K, V, S>);

/// What a map of outgoing edges holds.
pub uninterp spec fn forward_contents(m: DashMap<(String, String), Vec<AdjEntry>>) -> Map<
    (Seq<char>, Seq<char>),
    Seq<EntryView>,
>;

/// What a map of incoming edges holds.
pub uninterp spec fn backward_contents(m: DashMap<(String, String), Vec<String>>) -> Map<
    (Seq<char>, Seq<char>),
    Seq<Seq<char>>,
>;

/// Calls `DashMap::new`: the map is empty.
#[verifier::external_body]
fn forward_new() -> (m: DashMap<(String, String), Vec<AdjEntry>>)
    ensures
        forward_contents(m).dom() == Set::<EdgeKey>::empty(),
{
    DashMap::new()
}

/// Calls `DashMap::get`: a copy of what is held under a key, if anything is.
#[verifier::external_body]
fn forward_get(m: &DashMap<(String, String), Vec<AdjEntry>>, key: &(String, String)) -> (r: Option<Vec<AdjEntry>>)
    ensures
        match r {
            Some(v) => forward_contents(*m).contains_key(key_view(*key)) && forward_contents(
                *m,
            )[key_view(*key)] == entry_views(v@),
            None => !forward_contents(*m).contains_key(key_view(*key)),
        },
{
    m.get(key).map(|v| v.value().clone())
}

/// Calls `DashMap::insert`: what was held under the key, if anything, is
/// replaced, and nothing else changes.
#[verifier::external_body]
fn forward_insert(m: &mut DashMap<(String, String), Vec<AdjEntry>>, key: (String, String), value: Vec<AdjEntry>)
    ensures
        forward_contents(*final(m)) == forward_contents(*old(m)).insert(key_view(key), entry_views(value@)),
{
    m.insert(key, value);
}

/// Calls `DashMap::remove`: nothing is held under the key any more, and nothing
/// else changes.
#[verifier::external_body]
fn forward_remove(m: &mut DashMap<(String, String), Vec<AdjEntry>>, key: &(String, String))
    ensures
        forward_contents(*final(m)) == forward_contents(*old(m)).remove(key_view(*key)),
{
    m.remove(key);
}

/// Calls `DashMap::iter`: the keys, each once, in an order that is left open.
#[verifier::external_body]
fn forward_keys(m: &DashMap<(String, String), Vec<AdjEntry>>) -> (r: Vec<(String, String)>)
    ensures
        key_views(r@).no_duplicates(),
        key_views(r@).to_set() == forward_contents(*m).dom(),
{
    m.iter().map(|e| e.key().clone()).collect()
}

/// Calls `DashMap::new`: the map is empty.
#[verifier::external_body]
fn backward_new() -> (m: DashMap<(String, String), Vec<String>>)
    ensures
        backward_contents(m).dom() == Set::<EdgeKey>::empty(),
{
    DashMap::new()
}

/// Calls `DashMap::get`: a copy of what is held under a key, if anything is.
#[verifier::external_body]
fn backward_get(m: &DashMap<(String, String), Vec<String>>, key: &(String, String)) -> (r: Option<Vec<String>>)
    ensures
        match r {
            Some(v) => backward_contents(*m).contains_key(key_view(*key)) && backward_contents(
                *m,
            )[key_view(*key)] == text::views(v@),
            None => !backward_contents(*m).contains_key(key_view(*key)),
        },
{
    m.get(key).map(|v| v.value().clone())
}

/// Calls `DashMap::insert`: what was held under the key, if anything, is
/// replaced, and nothing else changes.
#[verifier::external_body]
fn backward_insert(m: &mut DashMap<(String, String), Vec<String>>, key: (String, String), value: Vec<String>)
    ensures
        backward_contents(*final(m)) == backward_contents(*old(m)).insert(key_view(key), text::views(value@)),
{
    m.insert(key, value);
}

/// Calls `DashMap::remove`: nothing is held under the key any more, and nothing
/// else changes.
#[verifier::external_body]
fn backward_remove(m: &mut DashMap<(String, String), Vec<String>>, key: &(String, String))
    ensures
        backward_contents(*final(m)) == backward_contents(*old(m)).remove(key_view(*key)),
{
    m.remove(key);
}

/// Calls `DashMap::iter`: the keys, each once, in an order that is left open.
#[verifier::external_body]
fn backward_keys(m: &DashMap<(String, String), Vec<String>>) -> (r: Vec<(String, String)>)
    ensures
        key_views(r@).no_duplicates(),
        key_views(r@).to_set() == backward_contents(*m).dom(),
{
    m.iter().map(|e| e.key().clone()).collect()
}

/// The model of an [`AdjacencyIndex`]: the outgoing edges by source and type,
/// and the sources of incoming edges by target and type.
pub struct AdjView {
    pub forward: Map<EdgeKey, Seq<EntryView>>,
    pub backward: Map<EdgeKey, Seq<Seq<char>>>,
}

/// What is held under a key, or nothing.
pub open spec fn list_at<A>(m: Map<EdgeKey, Seq<A>>, k: EdgeKey) -> Seq<A> {
    if m.contains_key(k) {
        m[k]
    } else {
        Seq::empty()
    }
}

/// The map with `x` added at the end of what is held under a key.
pub open spec fn pushed<A>(m: Map<EdgeKey, Seq<A>>, k: EdgeKey, x: A) -> Map<EdgeKey, Seq<A>> {
    m.insert(k, list_at(m, k).push(x))
}

/// The map with the list under a key replaced, and the key gone where the list is empty.
pub open spec fn replaced<A>(m: Map<EdgeKey, Seq<A>>, k: EdgeKey, s: Seq<A>) -> Map<EdgeKey, Seq<A>> {
    if !m.contains_key(k) {
        m
    } else if s.len() == 0 {
        m.remove(k)
    } else {
        m.insert(k, s)
    }
}

/// The map without the keys of an edge type.
pub open spec fn without_type<A>(m: Map<EdgeKey, Seq<A>>, edge_type: Seq<char>) -> Map<EdgeKey, Seq<A>> {
    Map::new(|k: EdgeKey| m.contains_key(k) && k.1 != edge_type, |k: EdgeKey| m[k])
}

/// The entries that do not lead to `to`.
pub open spec fn without_target(s: Seq<EntryView>, to: Seq<char>) -> Seq<EntryView>
    decreases s.len(),
{
    if s.len() == 0 {
        Seq::empty()
    } else {
        let before = without_target(s.drop_last(), to);
        if s.last().to_id == to {
            before
        } else {
            before.push(s.last())
        }
    }
}

/// The ids other than `from`.
pub open spec fn without_id(s: Seq<Seq<char>>, from: Seq<char>) -> Seq<Seq<char>>
    decreases s.len(),
{
    if s.len() == 0 {
        Seq::empty()
    } else {
        let before = without_id(s.drop_last(), from);
        if s.last() == from {
            before
        } else {
            before.push(s.last())
        }
    }
}

/// How many entries lead to `to`.
pub open spec fn target_count(s: Seq<EntryView>, to: Seq<char>) -> nat
    decreases s.len(),
{
    if s.len() == 0 {
        0
    } else {
        target_count(s.drop_last(), to) + if s.last().to_id == to {
            1nat
        } else {
            0nat
        }
    }
}

/// How many of the ids are `from`.
pub open spec fn id_count(s: Seq<Seq<char>>, from: Seq<char>) -> nat
    decreases s.len(),
{
    if s.len() == 0 {
        0
    } else {
        id_count(s.drop_last(), from) + if s.last() == from {
            1nat
        } else {
            0nat
        }
    }
}

/// How many items a map holds under all its keys.
pub open spec fn total<A>(m: Map<EdgeKey, Seq<A>>) -> nat
    decreases m.dom().len(),
    when m.dom().finite()
{
    if m.dom().len() == 0 {
        0
    } else {
        let k = m.dom().choose();
        m[k].len() + total(m.remove(k))
    }
}

/// The total does not depend on the order of counting.
pub proof fn lemma_total_remove<A>(m: Map<EdgeKey, Seq<A>>, k: EdgeKey)
    requires
        m.dom().finite(),
        m.contains_key(k),
    ensures
        total(m) == m[k].len() + total(m.remove(k)),
    decreases m.dom().len(),
{
    let c = m.dom().choose();
    assert(m.dom().contains(k));
    assert(m.dom().len() > 0);
    assert(m.dom().contains(c));
    if c != k {
        lemma_total_remove(m.remove(c), k);
        lemma_total_remove(m.remove(k), c);
        assert(m.remove(c).remove(k) =~= m.remove(k).remove(c));
    }
}

impl AdjView {
    /// The index with an edge added.
    pub open spec fn inserted(self, from: Seq<char>, edge_type: Seq<char>, e: EntryView) -> AdjView {
        AdjView {
            forward: pushed(self.forward, (from, edge_type), e),
            backward: pushed(self.backward, (e.to_id, edge_type), from),
        }
    }

    /// The index without the edges of a type from one entity to another.
    pub open spec fn removed(self, from: Seq<char>, edge_type: Seq<char>, to: Seq<char>) -> AdjView {
        AdjView {
            forward: replaced(
                self.forward,
                (from, edge_type),
                without_target(list_at(self.forward, (from, edge_type)), to),
            ),
            backward: replaced(
                self.backward,
                (to, edge_type),
                without_id(list_at(self.backward, (to, edge_type)), from),
            ),
        }
    }

    /// The index without the edges of a type.
    pub open spec fn type_removed(self, edge_type: Seq<char>) -> AdjView {
        AdjView {
            forward: without_type(self.forward, edge_type),
            backward: without_type(self.backward, edge_type),
        }
    }

    /// The index without the edges from an entity and those to it: its own lists are gone,
    /// every other list has lost it, and a list that has lost all is gone too.
    pub open spec fn detached(self, id: Seq<char>) -> AdjView {
        AdjView {
            forward: Map::new(
                |k: EdgeKey|
                    self.forward.contains_key(k) && k.0 != id && without_target(self.forward[k], id).len() > 0,
                |k: EdgeKey| without_target(self.forward[k], id),
            ),
            backward: Map::new(
                |k: EdgeKey|
                    self.backward.contains_key(k) && k.0 != id && without_id(self.backward[k], id).len() > 0,
                |k: EdgeKey| without_id(self.backward[k], id),
            ),
        }
    }

    /// How many edges of a type lead from one entity to another.
    pub open spec fn edge_count(self, from: Seq<char>, edge_type: Seq<char>, to: Seq<char>) -> nat {
        target_count(list_at(self.forward, (from, edge_type)), to)
    }

    /// Whether each edge stands once on either side, no list is empty, and there are
    /// finitely many.
    pub open spec fn consistent(self) -> bool {
        &&& self.forward.dom().finite()
        &&& self.backward.dom().finite()
        &&& forall|from: Seq<char>, t: Seq<char>, to: Seq<char>|
            #![trigger target_count(list_at(self.forward, (from, t)), to)]
            #![trigger id_count(list_at(self.backward, (to, t)), from)]
            target_count(list_at(self.forward, (from, t)), to) == id_count(
                list_at(self.backward, (to, t)),
                from,
            )
        &&& forall|k: EdgeKey| #[trigger] self.forward.contains_key(k) ==> self.forward[k].len() > 0
        &&& forall|k: EdgeKey| #[trigger] self.backward.contains_key(k) ==> self.backward[k].len() > 0
    }
}

/// The index of outgoing and incoming edges.
pub struct AdjacencyIndex {
    forward: DashMap<(String, String), Vec<AdjEntry>>,
    backward: DashMap<(String, String), Vec<String>>,
}

impl View for AdjacencyIndex {
    type V = AdjView;

    closed spec fn view(&self) -> AdjView {
        AdjView { forward: forward_contents(self.forward), backward: backward_contents(self.backward) }
    }
}

impl Default for AdjacencyIndex {
    fn default() -> (r: Self)
        ensures
            r@.forward == Map::<EdgeKey, Seq<EntryView>>::empty(),
            r@.backward == Map::<EdgeKey, Seq<Seq<char>>>::empty(),
    {
        AdjacencyIndex::new()
    }
}

fn pair(a: &str, b: &str) -> (k: (String, String))
    ensures
        key_view(k) == (a@, b@),
{
    (own(a), own(b))
}

fn drop_target(s: &Vec<AdjEntry>, to: &LogicalId) -> (r: Vec<AdjEntry>)
    ensures
        entry_views(r@) == without_target(entry_views(s@), to@),
{
    let ghost all = entry_views(s@);
    let mut r: Vec<AdjEntry> = Vec::new();
    let mut i: usize = 0;
    proof {
        assert(entry_views(r@) =~= without_target(all.subrange(0, 0), to@));
    }
    while i < s.len()
        invariant
            i <= s.len(),
            all == entry_views(s@),
            entry_views(r@) == without_target(all.subrange(0, i as int), to@),
        decreases s.len() - i,
    {
        let ghost before = entry_views(r@);
        proof {
            let next = all.subrange(0, i as int + 1);
            assert(next.drop_last() =~= all.subrange(0, i as int));
            assert(next.last() == s@[i as int]@);
        }
        if !ids_equal(&s[i].to_id, to) {
            r.push(s[i].clone());
            proof {
                assert(entry_views(r@) =~= before.push(s@[i as int]@));
            }
        }
        i += 1;
    }
    assert(all.subrange(0, all.len() as int) =~= all);
    r
}

fn drop_source(s: &Vec<String>, from: &LogicalId) -> (r: Vec<String>)
    ensures
        text::views(r@) == without_id(text::views(s@), from@),
{
    let ghost all = text::views(s@);
    let mut r: Vec<String> = Vec::new();
    let mut i: usize = 0;
    proof {
        assert(text::views(r@) =~= without_id(all.subrange(0, 0), from@));
    }
    while i < s.len()
        invariant
            i <= s.len(),
            all == text::views(s@),
            text::views(r@) == without_id(all.subrange(0, i as int), from@),
        decreases s.len() - i,
    {
        let ghost before = text::views(r@);
        proof {
            let next = all.subrange(0, i as int + 1);
            assert(next.drop_last() =~= all.subrange(0, i as int));
            assert(next.last() == s@[i as int]@);
        }
        if !text_equal(s[i].as_str(), from.as_str()) {
            r.push(s[i].clone());
            proof {
                assert(text::views(r@) =~= before.push(s@[i as int]@));
            }
        }
        i += 1;
    }
    assert(all.subrange(0, all.len() as int) =~= all);
    r
}

impl AdjacencyIndex {
    /// The index without edges.
    pub fn new() -> (r: Self)
        ensures
            r@.forward == Map::<EdgeKey, Seq<EntryView>>::empty(),
            r@.backward == Map::<EdgeKey, Seq<Seq<char>>>::empty(),
            r@.consistent(),
    {
        let r = AdjacencyIndex { forward: forward_new(), backward: backward_new() };
        assert(r@.forward =~= Map::<EdgeKey, Seq<EntryView>>::empty());
        assert(r@.backward =~= Map::<EdgeKey, Seq<Seq<char>>>::empty());
        r
    }

    /// Adds an edge.
    pub fn insert(
        &mut self,
        from_id: &LogicalId,
        edge_type: &str,
        to_id: &LogicalId,
        confidence: u32,
        created_at: u64,
        source: EdgeSource,
    )
        ensures
            final(self)@ == old(self)@.inserted(
                from_id@,
                edge_type@,
                (EntryView { to_id: to_id@, confidence, created_at, source }),
            ),
            old(self)@.consistent() ==> final(self)@.consistent(),
    {
        let ghost before = self@;
        let entry = AdjEntry { to_id: to_id.clone(), confidence, created_at, source };
        let ghost e = entry@;
        let key = pair(from_id.as_str(), edge_type);
        let mut list = match forward_get(&self.forward, &key) {
            Some(v) => v,
            None => Vec::new(),
        };
        proof {
            assert(entry_views(list@) =~= list_at(before.forward, (from_id@, edge_type@)));
        }
        list.push(entry);
        proof {
            assert(entry_views(list@) =~= list_at(before.forward, (from_id@, edge_type@)).push(e));
        }
        forward_insert(&mut self.forward, key, list);
        let back = pair(to_id.as_str(), edge_type);
        let mut sources = match backward_get(&self.backward, &back) {
            Some(v) => v,
            None => Vec::new(),
        };
        proof {
            assert(text::views(sources@) =~= list_at(before.backward, (to_id@, edge_type@)));
        }
        sources.push(own(from_id.as_str()));
        proof {
            assert(text::views(sources@) =~= list_at(before.backward, (to_id@, edge_type@)).push(from_id@));
        }
        backward_insert(&mut self.backward, back, sources);
        proof {
            if before.consistent() {
                lemma_insert_consistent(before, from_id@, edge_type@, e);
            }
        }
    }

    /// Removes every edge of a type from one entity to another.
    pub fn remove(&mut self, from_id: &LogicalId, edge_type: &str, to_id: &LogicalId)
        ensures
            final(self)@ == old(self)@.removed(from_id@, edge_type@, to_id@),
            old(self)@.consistent() ==> final(self)@.consistent(),
    {
        let ghost before = self@;
        let key = pair(from_id.as_str(), edge_type);
        if let Some(list) = forward_get(&self.forward, &key) {
            let kept = drop_target(&list, to_id);
            if kept.len() == 0 {
                forward_remove(&mut self.forward, &key);
            } else {
                forward_insert(&mut self.forward, key, kept);
            }
        }
        let back = pair(to_id.as_str(), edge_type);
        if let Some(list) = backward_get(&self.backward, &back) {
            let kept = drop_source(&list, from_id);
            if kept.len() == 0 {
                backward_remove(&mut self.backward, &back);
            } else {
                backward_insert(&mut self.backward, back, kept);
            }
        }
        proof {
            if before.consistent() {
                lemma_remove_consistent(before, from_id@, edge_type@, to_id@);
            }
        }
    }

    /// The edges of a type from an entity, in the order in which they were added.
    pub fn get(&self, from_id: &LogicalId, edge_type: &str) -> (r: Vec<AdjEntry>)
        ensures
            entry_views(r@) == list_at(self@.forward, (from_id@, edge_type@)),
    {
        let key = pair(from_id.as_str(), edge_type);
        match forward_get(&self.forward, &key) {
            Some(v) => v,
            None => {
                let v: Vec<AdjEntry> = Vec::new();
                assert(entry_views(v@) =~= Seq::<EntryView>::empty());
                v
            },
        }
    }

    /// The sources of the edges of a type to an entity, in the order in which
    /// they were added.
    pub fn get_backward(&self, to_id: &LogicalId, edge_type: &str) -> (r: Vec<LogicalId>)
        ensures
            crate::field_index::id_views(r@) == list_at(self@.backward, (to_id@, edge_type@)),
    {
        let key = pair(to_id.as_str(), edge_type);
        let mut r: Vec<LogicalId> = Vec::new();
        match backward_get(&self.backward, &key) {
            Some(v) => {
                let mut i: usize = 0;
                while i < v.len()
                    invariant
                        i <= v.len(),
                        r@.len() == i,
                        forall|j: int| 0 <= j < i ==> (#[trigger] r@[j])@ == v@[j]@,
                    decreases v.len() - i,
                {
                    r.push(LogicalId::from_string(v[i].as_str()));
                    i += 1;
                }
                assert(crate::field_index::id_views(r@) =~= text::views(v@));
                r
            },
            None => {
                assert(crate::field_index::id_views(r@) =~= Seq::<Seq<char>>::empty());
                r
            },
        }
    }

    /// Removes every edge of a type.
    pub fn remove_edge_type(&mut self, edge_type: &str)
        ensures
            final(self)@ == old(self)@.type_removed(edge_type@),
            old(self)@.consistent() ==> final(self)@.consistent(),
    {
        let ghost before = self@;
        let keys = forward_keys(&self.forward);
        let mut i: usize = 0;
        while i < keys.len()
            invariant
                i <= keys.len(),
                key_views(keys@).to_set() == before.forward.dom(),
                self@.backward == before.backward,
                forall|k: EdgeKey| #[trigger]
                    self@.forward.contains_key(k) <==> before.forward.contains_key(k) && !(k.1 == edge_type@
                        && key_views(keys@).subrange(0, i as int).contains(k)),
                forall|k: EdgeKey| #[trigger]
                    self@.forward.contains_key(k) ==> self@.forward[k] == before.forward[k],
            decreases keys.len() - i,
        {
            let ghost ks = key_views(keys@);
            let ghost prev = self@.forward;
            proof {
                lemma_contains_next(ks, i as int);
                assert(ks[i as int] == key_view(keys@[i as int]));
            }
            if text_equal(keys[i].1.as_str(), edge_type) {
                forward_remove(&mut self.forward, &keys[i]);
                assert(self@.forward == prev.remove(ks[i as int]));
            }
            proof {
                let next = ks.subrange(0, i as int + 1);
                assert forall|k: EdgeKey| #[trigger]
                    self@.forward.contains_key(k) <==> before.forward.contains_key(k) && !(k.1 == edge_type@
                        && next.contains(k)) by {
                    assert(next.contains(k) <==> ks.subrange(0, i as int).contains(k) || k == ks[i as int]);
                    assert(prev.contains_key(k) <==> before.forward.contains_key(k) && !(k.1 == edge_type@
                        && ks.subrange(0, i as int).contains(k)));
                }
            }
            i += 1;
        }
        proof {
            let ks = key_views(keys@);
            assert(ks.subrange(0, ks.len() as int) =~= ks);
            assert forall|k: EdgeKey| before.forward.contains_key(k) implies ks.contains(k) by {
                assert(ks.to_set().contains(k));
            }
            assert(self@.forward =~= without_type(before.forward, edge_type@));
        }
        let keys = backward_keys(&self.backward);
        let mut i: usize = 0;
        while i < keys.len()
            invariant
                i <= keys.len(),
                key_views(keys@).to_set() == before.backward.dom(),
                self@.forward == without_type(before.forward, edge_type@),
                forall|k: EdgeKey| #[trigger]
                    self@.backward.contains_key(k) <==> before.backward.contains_key(k) && !(k.1 == edge_type@
                        && key_views(keys@).subrange(0, i as int).contains(k)),
                forall|k: EdgeKey| #[trigger]
                    self@.backward.contains_key(k) ==> self@.backward[k] == before.backward[k],
            decreases keys.len() - i,
        {
            let ghost ks = key_views(keys@);
            let ghost prev = self@.backward;
            proof {
                lemma_contains_next(ks, i as int);
                assert(ks[i as int] == key_view(keys@[i as int]));
            }
            if text_equal(keys[i].1.as_str(), edge_type) {
                backward_remove(&mut self.backward, &keys[i]);
                assert(self@.backward == prev.remove(ks[i as int]));
            }
            proof {
                let next = ks.subrange(0, i as int + 1);
                assert forall|k: EdgeKey| #[trigger]
                    self@.backward.contains_key(k) <==> before.backward.contains_key(k) && !(k.1 == edge_type@
                        && next.contains(k)) by {
                    assert(next.contains(k) <==> ks.subrange(0, i as int).contains(k) || k == ks[i as int]);
                    assert(prev.contains_key(k) <==> before.backward.contains_key(k) && !(k.1 == edge_type@
                        && ks.subrange(0, i as int).contains(k)));
                }
            }
            i += 1;
        }
        proof {
            let ks = key_views(keys@);
            assert(ks.subrange(0, ks.len() as int) =~= ks);
            assert forall|k: EdgeKey| before.backward.contains_key(k) implies ks.contains(k) by {
                assert(ks.to_set().contains(k));
            }
            assert(self@.backward =~= without_type(before.backward, edge_type@));
            if before.consistent() {
                lemma_type_removed_consistent(before, edge_type@);
            }
        }
    }

    /// The number of edges.
    pub fn len(&self) -> (n: usize)
        requires
            total(self@.forward) <= usize::MAX,
        ensures
            n == total(self@.forward),
    {
        let keys = forward_keys(&self.forward);
        let ghost ks = key_views(keys@);
        let mut n: usize = 0;
        let mut i: usize = 0;
        let ghost mut rest = self@.forward;
        while i < keys.len()
            invariant
                i <= keys.len(),
                ks == key_views(keys@),
                ks.no_duplicates(),
                ks.to_set() == self@.forward.dom(),
                rest.dom().finite(),
                n + total(rest) == total(self@.forward),
                total(self@.forward) <= usize::MAX,
                forall|k: EdgeKey| #[trigger]
                    rest.contains_key(k) <==> self@.forward.contains_key(k) && !ks.subrange(0, i as int).contains(
                        k,
                    ),
                forall|k: EdgeKey| #[trigger] rest.contains_key(k) ==> rest[k] == self@.forward[k],
            decreases keys.len() - i,
        {
            proof {
                lemma_contains_next(ks, i as int);
                let k = ks[i as int];
                assert(k == key_view(keys@[i as int]));
                assert(ks.to_set().contains(k));
                assert(!ks.subrange(0, i as int).contains(k)) by {
                    if ks.subrange(0, i as int).contains(k) {
                        let j = choose|j: int|
                            0 <= j < ks.subrange(0, i as int).len() && ks.subrange(0, i as int)[j] == k;
                        assert(ks[j] == ks[i as int]);
                    }
                }
                assert(rest.contains_key(k));
                lemma_total_remove(rest, k);
                rest = rest.remove(k);
            }
            match forward_get(&self.forward, &keys[i]) {
                Some(v) => {
                    assert(entry_views(v@).len() == v@.len());
                    n += v.len();
                },
                None => {
                    assert(false);
                },
            }
            i += 1;
        }
        proof {
            assert(ks.subrange(0, ks.len() as int) =~= ks);
            assert(rest.dom() =~= Set::empty()) by {
                assert forall|k: EdgeKey| !rest.contains_key(k) by {
                    if self@.forward.contains_key(k) {
                        assert(ks.to_set().contains(k));
                    }
                }
            }
        }
        n
    }

    /// Whether there are no edges.
    pub fn is_empty(&self) -> (r: bool)
        ensures
            r == (forall|k: EdgeKey| !self@.forward.contains_key(k)),
    {
        let keys = forward_keys(&self.forward);
        proof {
            let ks = key_views(keys@);
            if keys@.len() == 0 {
                assert forall|k: EdgeKey| !self@.forward.contains_key(k) by {
                    if self@.forward.contains_key(k) {
                        assert(ks.to_set().contains(k));
                    }
                }
            } else {
                assert(ks.to_set().contains(ks[0]));
                assert(self@.forward.contains_key(ks[0]));
            }
        }
        keys.len() == 0
    }
}

proof fn lemma_contains_next(ks: Seq<EdgeKey>, i: int)
    requires
        0 <= i < ks.len(),
    ensures
        forall|k: EdgeKey| #[trigger]
            ks.subrange(0, i + 1).contains(k) <==> ks.subrange(0, i).contains(k) || k == ks[i],
{
    let done = ks.subrange(0, i);
    let next = ks.subrange(0, i + 1);
    assert forall|k: EdgeKey| #[trigger] next.contains(k) <==> done.contains(k) || k == ks[i] by {
        if done.contains(k) {
            let a = choose|a: int| 0 <= a < done.len() && done[a] == k;
            assert(next[a] == k);
        }
        if k == ks[i] {
            assert(next[i] == k);
        }
        if next.contains(k) {
            let a = choose|a: int| 0 <= a < next.len() && next[a] == k;
            if a < i {
                assert(done[a] == k);
            }
        }
    }
}

proof fn lemma_target_count_push(s: Seq<EntryView>, e: EntryView, to: Seq<char>)
    ensures
        target_count(s.push(e), to) == target_count(s, to) + if e.to_id == to {
            1nat
        } else {
            0nat
        },
{
    assert(s.push(e).drop_last() =~= s);
}

proof fn lemma_id_count_push(s: Seq<Seq<char>>, x: Seq<char>, from: Seq<char>)
    ensures
        id_count(s.push(x), from) == id_count(s, from) + if x == from {
            1nat
        } else {
            0nat
        },
{
    assert(s.push(x).drop_last() =~= s);
}

pub(crate) proof fn lemma_target_count_without(s: Seq<EntryView>, x: Seq<char>, to: Seq<char>)
    ensures
        target_count(without_target(s, x), to) == if to == x {
            0
        } else {
            target_count(s, to)
        },
    decreases s.len(),
{
    if s.len() > 0 {
        lemma_target_count_without(s.drop_last(), x, to);
        if s.last().to_id != x {
            lemma_target_count_push(without_target(s.drop_last(), x), s.last(), to);
        }
    }
}

pub(crate) proof fn lemma_id_count_without(s: Seq<Seq<char>>, x: Seq<char>, from: Seq<char>)
    ensures
        id_count(without_id(s, x), from) == if from == x {
            0
        } else {
            id_count(s, from)
        },
    decreases s.len(),
{
    if s.len() > 0 {
        lemma_id_count_without(s.drop_last(), x, from);
        if s.last() != x {
            lemma_id_count_push(without_id(s.drop_last(), x), s.last(), from);
        }
    }
}

/// Adding an edge keeps the two sides of the index in step.
pub proof fn lemma_insert_consistent(v: AdjView, from: Seq<char>, t: Seq<char>, e: EntryView)
    requires
        v.consistent(),
    ensures
        v.inserted(from, t, e).consistent(),
{
    let w = v.inserted(from, t, e);
    assert forall|f: Seq<char>, u: Seq<char>, to: Seq<char>|
        #![trigger target_count(list_at(w.forward, (f, u)), to)]
        #![trigger id_count(list_at(w.backward, (to, u)), f)]
        target_count(list_at(w.forward, (f, u)), to) == id_count(list_at(w.backward, (to, u)), f) by {
        assert(target_count(list_at(v.forward, (f, u)), to) == id_count(list_at(v.backward, (to, u)), f));
        lemma_target_count_push(list_at(v.forward, (from, t)), e, to);
        lemma_id_count_push(list_at(v.backward, (e.to_id, t)), from, f);
    }
}

/// Removing edges keeps the two sides of the index in step.
pub proof fn lemma_remove_consistent(v: AdjView, from: Seq<char>, t: Seq<char>, to: Seq<char>)
    requires
        v.consistent(),
    ensures
        v.removed(from, t, to).consistent(),
{
    let w = v.removed(from, t, to);
    let a = list_at(v.forward, (from, t));
    let b = list_at(v.backward, (to, t));
    assert forall|f: Seq<char>, u: Seq<char>, x: Seq<char>|
        #![trigger target_count(list_at(w.forward, (f, u)), x)]
        #![trigger id_count(list_at(w.backward, (x, u)), f)]
        target_count(list_at(w.forward, (f, u)), x) == id_count(list_at(w.backward, (x, u)), f) by {
        assert(target_count(list_at(v.forward, (f, u)), x) == id_count(list_at(v.backward, (x, u)), f));
        lemma_target_count_without(a, to, x);
        lemma_id_count_without(b, from, f);
        if (f, u) == (from, t) {
            assert(list_at(w.forward, (f, u)) =~= without_target(a, to));
        } else {
            assert(list_at(w.forward, (f, u)) == list_at(v.forward, (f, u)));
        }
        if (x, u) == (to, t) {
            assert(list_at(w.backward, (x, u)) =~= without_id(b, from));
        } else {
            assert(list_at(w.backward, (x, u)) == list_at(v.backward, (x, u)));
        }
        assert(target_count(a, to) == id_count(b, from));
    }
}

/// Removing a type keeps the two sides of the index in step.
pub proof fn lemma_type_removed_consistent(v: AdjView, t: Seq<char>)
    requires
        v.consistent(),
    ensures
        v.type_removed(t).consistent(),
{
    let w = v.type_removed(t);
    vstd::set_lib::lemma_len_subset(w.forward.dom(), v.forward.dom());
    vstd::set_lib::lemma_len_subset(w.backward.dom(), v.backward.dom());
    assert forall|f: Seq<char>, u: Seq<char>, x: Seq<char>|
        #![trigger target_count(list_at(w.forward, (f, u)), x)]
        #![trigger id_count(list_at(w.backward, (x, u)), f)]
        target_count(list_at(w.forward, (f, u)), x) == id_count(list_at(w.backward, (x, u)), f) by {
        assert(target_count(list_at(v.forward, (f, u)), x) == id_count(list_at(v.backward, (x, u)), f));
    }
}

/// After a removal no edge of that type leads from the one entity to the other,
/// and all other edges are as many as before.
pub proof fn lemma_removed_edges(
    v: AdjView,
    from: Seq<char>,
    t: Seq<char>,
    to: Seq<char>,
    f: Seq<char>,
    u: Seq<char>,
    x: Seq<char>,
)
    ensures
        v.removed(from, t, to).edge_count(f, u, x) == if f == from && u == t && x == to {
            0
        } else {
            v.edge_count(f, u, x)
        },
{
    let a = list_at(v.forward, (from, t));
    lemma_target_count_without(a, to, x);
    if (f, u) == (from, t) {
        assert(list_at(v.removed(from, t, to).forward, (f, u)) =~= without_target(a, to));
    }
}

/// A removal takes from the one list of outgoing edges and the one list of incoming edges
/// that it is about, and leaves every other list as it was.
pub proof fn lemma_removed_lists(v: AdjView, from: Seq<char>, t: Seq<char>, to: Seq<char>, k: EdgeKey)
    ensures
        list_at(v.removed(from, t, to).forward, k) == (if k == (from, t) {
            without_target(list_at(v.forward, k), to)
        } else {
            list_at(v.forward, k)
        }),
        list_at(v.removed(from, t, to).backward, k) == (if k == (to, t) {
            without_id(list_at(v.backward, k), from)
        } else {
            list_at(v.backward, k)
        }),
{
    if k == (from, t) {
        assert(list_at(v.removed(from, t, to).forward, k) =~= without_target(list_at(v.forward, k), to));
    }
    if k == (to, t) {
        assert(list_at(v.removed(from, t, to).backward, k) =~= without_id(list_at(v.backward, k), from));
    }
}

/// What is left of the lists when an entity is detached: none of its own, and of every
/// other list all that does not lead to it or come from it, as it was and in its order.
pub proof fn lemma_detached_lists(v: AdjView, id: Seq<char>, k: EdgeKey)
    ensures
        list_at(v.detached(id).forward, k) == (if k.0 == id {
            Seq::empty()
        } else {
            without_target(list_at(v.forward, k), id)
        }),
        list_at(v.detached(id).backward, k) == (if k.0 == id {
            Seq::empty()
        } else {
            without_id(list_at(v.backward, k), id)
        }),
{
    if k.0 != id {
        assert(list_at(v.detached(id).forward, k) =~= without_target(list_at(v.forward, k), id));
        assert(list_at(v.detached(id).backward, k) =~= without_id(list_at(v.backward, k), id));
    }
}

/// When an entity is detached no edge is found that involves it, whatever the order in
/// which types are gone through.
pub proof fn lemma_detached_involves_none(v: AdjView, id: Seq<char>, ts: Seq<Seq<char>>, us: Seq<Seq<char>>)
    requires
        lists_types(v.detached(id).forward, id, ts),
        lists_types(v.detached(id).backward, id, us),
    ensures
        outgoing(v.detached(id).forward, id, ts) == Seq::<(Seq<char>, Seq<char>)>::empty(),
        incoming(v.detached(id).backward, id, us) == Seq::<(Seq<char>, Seq<char>)>::empty(),
{
    if ts.len() > 0 {
        assert(ts.contains(ts[0]));
        assert(!v.detached(id).forward.contains_key((id, ts[0])));
    }
    if us.len() > 0 {
        assert(us.contains(us[0]));
        assert(!v.detached(id).backward.contains_key((id, us[0])));
    }
}

/// When an entity is detached no edge leads from it or to it, and all other edges are as
/// many as before.
pub proof fn lemma_detached_edges(v: AdjView, id: Seq<char>, f: Seq<char>, t: Seq<char>, x: Seq<char>)
    ensures
        v.detached(id).edge_count(f, t, x) == if f == id || x == id {
            0
        } else {
            v.edge_count(f, t, x)
        },
{
    lemma_detached_lists(v, id, (f, t));
    lemma_target_count_without(list_at(v.forward, (f, t)), id, x);
}

/// After an edge is added there is one more of it, and all other edges are as
/// many as before.
pub proof fn lemma_inserted_edges(
    v: AdjView,
    from: Seq<char>,
    t: Seq<char>,
    e: EntryView,
    f: Seq<char>,
    u: Seq<char>,
    x: Seq<char>,
)
    ensures
        v.inserted(from, t, e).edge_count(f, u, x) == v.edge_count(f, u, x) + if f == from && u == t && x
            == e.to_id {
            1nat
        } else {
            0nat
        },
{
    lemma_target_count_push(list_at(v.forward, (from, t)), e, x);
}

pub(crate) proof fn lemma_without_target_absent(s: Seq<EntryView>, to: Seq<char>)
    requires
        target_count(s, to) == 0,
    ensures
        without_target(s, to) == s,
    decreases s.len(),
{
    if s.len() > 0 {
        lemma_without_target_absent(s.drop_last(), to);
        assert(s.drop_last().push(s.last()) =~= s);
    } else {
        assert(s =~= Seq::empty());
    }
}

pub(crate) proof fn lemma_without_id_absent(s: Seq<Seq<char>>, from: Seq<char>)
    requires
        id_count(s, from) == 0,
    ensures
        without_id(s, from) == s,
    decreases s.len(),
{
    if s.len() > 0 {
        lemma_without_id_absent(s.drop_last(), from);
        assert(s.drop_last().push(s.last()) =~= s);
    } else {
        assert(s =~= Seq::empty());
    }
}

/// Removing an edge that has just been added gives the index back as it was,
/// where no edge of that type led from the one entity to the other before.
pub proof fn lemma_remove_undoes_insert(v: AdjView, from: Seq<char>, t: Seq<char>, e: EntryView)
    requires
        v.consistent(),
        v.edge_count(from, t, e.to_id) == 0,
    ensures
        v.inserted(from, t, e).removed(from, t, e.to_id).forward == v.forward,
        v.inserted(from, t, e).removed(from, t, e.to_id).backward == v.backward,
{
    let w = v.inserted(from, t, e);
    let a = list_at(v.forward, (from, t));
    let b = list_at(v.backward, (e.to_id, t));
    lemma_without_target_absent(a, e.to_id);
    lemma_without_id_absent(b, from);
    assert(a.push(e).drop_last() =~= a);
    assert(b.push(from).drop_last() =~= b);
    assert(without_target(a.push(e), e.to_id) == a);
    assert(without_id(b.push(from), from) == b);
    assert(w.removed(from, t, e.to_id).forward =~= v.forward);
    assert(w.removed(from, t, e.to_id).backward =~= v.backward);
}

/// A consistent index is empty exactly where it counts no edges.
pub proof fn lemma_empty_iff_no_edges(v: AdjView)
    requires
        v.consistent(),
    ensures
        (forall|k: EdgeKey| !v.forward.contains_key(k)) <==> total(v.forward) == 0,
{
    if v.forward.dom().len() == 0 {
        assert(v.forward.dom() =~= Set::empty());
        assert forall|k: EdgeKey| !v.forward.contains_key(k) by {}
    } else {
        let k = v.forward.dom().choose();
        assert(v.forward.dom().contains(k));
        assert(v.forward.contains_key(k));
    }
}

/// Pairs of an edge type and an entity.
pub type EdgeList = Vec<(String, LogicalId)>;

/// The model of an [`EdgeList`].
pub open spec fn edge_list_view(s: Seq<(String, LogicalId)>) -> Seq<(Seq<char>, Seq<char>)> {
    s.map_values(|p: (String, LogicalId)| (p.0@, p.1@))
}

/// Whether `ts` lists the edge types under which a map holds something for an entity, each once.
pub open spec fn lists_types<A>(m: Map<EdgeKey, Seq<A>>, id: Seq<char>, ts: Seq<Seq<char>>) -> bool {
    &&& ts.no_duplicates()
    &&& forall|t: Seq<char>| #[trigger] ts.contains(t) <==> m.contains_key((id, t))
}

/// For each of the types, each target of an outgoing edge, with the type.
pub open spec fn outgoing(m: Map<EdgeKey, Seq<EntryView>>, id: Seq<char>, ts: Seq<Seq<char>>) -> Seq<
    (Seq<char>, Seq<char>),
>
    decreases ts.len(),
{
    if ts.len() == 0 {
        Seq::empty()
    } else {
        let t = ts.last();
        outgoing(m, id, ts.drop_last()) + m[(id, t)].map_values(|e: EntryView| (t, e.to_id))
    }
}

/// For each of the types, each source of an incoming edge, with the type.
pub open spec fn incoming(m: Map<EdgeKey, Seq<Seq<char>>>, id: Seq<char>, ts: Seq<Seq<char>>) -> Seq<
    (Seq<char>, Seq<char>),
>
    decreases ts.len(),
{
    if ts.len() == 0 {
        Seq::empty()
    } else {
        let t = ts.last();
        incoming(m, id, ts.drop_last()) + m[(id, t)].map_values(|f: Seq<char>| (t, f))
    }
}

proof fn lemma_lists_next(ks: Seq<EdgeKey>, i: int, id: Seq<char>, ts: Seq<Seq<char>>)
    requires
        0 <= i < ks.len(),
        ks.no_duplicates(),
        ts.no_duplicates(),
        forall|t: Seq<char>| #[trigger] ts.contains(t) <==> ks.subrange(0, i).contains((id, t)),
    ensures
        ks[i].0 != id ==> (forall|t: Seq<char>| #[trigger]
            ts.contains(t) <==> ks.subrange(0, i + 1).contains((id, t))),
        ks[i].0 == id ==> ts.push(ks[i].1).no_duplicates() && (forall|t: Seq<char>| #[trigger]
            ts.push(ks[i].1).contains(t) <==> ks.subrange(0, i + 1).contains((id, t))),
{
    lemma_contains_next(ks, i);
    if ks[i].0 == id {
        let us = ts.push(ks[i].1);
        let done = ks.subrange(0, i);
        if ts.contains(ks[i].1) {
            assert(done.contains((id, ks[i].1)));
            let a = choose|a: int| 0 <= a < done.len() && done[a] == (id, ks[i].1);
            assert(ks[a] == ks[i]);
        }
        assert forall|t: Seq<char>| #[trigger] us.contains(t) <==> ks.subrange(0, i + 1).contains((id, t)) by {
            if us.contains(t) && t != ks[i].1 {
                let a = choose|a: int| 0 <= a < us.len() && us[a] == t;
                assert(ts[a] == t);
                assert(ts.contains(t));
            }
            if ts.contains(t) {
                let a = choose|a: int| 0 <= a < ts.len() && ts[a] == t;
                assert(us[a] == t);
            }
            if t == ks[i].1 {
                assert(us[ts.len() as int] == t);
            }
        }
    }
}

impl AdjacencyIndex {
    /// The edges from an entity and those to it, as pairs of a type and the
    /// other end. Edges of one type stand together in the order in which they
    /// were added; the order of the types is left open.
    pub fn edges_involving(&self, entity_id: &LogicalId) -> (r: (EdgeList, EdgeList))
        ensures
            exists|ts: Seq<Seq<char>>| #[trigger]
                lists_types(self@.forward, entity_id@, ts) && edge_list_view(r.0@) == outgoing(
                    self@.forward,
                    entity_id@,
                    ts,
                ),
            exists|ts: Seq<Seq<char>>| #[trigger]
                lists_types(self@.backward, entity_id@, ts) && edge_list_view(r.1@) == incoming(
                    self@.backward,
                    entity_id@,
                    ts,
                ),
    {
        let ghost id = entity_id@;
        let mut out: EdgeList = Vec::new();
        let keys = forward_keys(&self.forward);
        let ghost ks = key_views(keys@);
        let ghost mut ts: Seq<Seq<char>> = Seq::empty();
        let mut i: usize = 0;
        proof {
            assert(edge_list_view(out@) =~= outgoing(self@.forward, id, ts));
        }
        while i < keys.len()
            invariant
                i <= keys.len(),
                id == entity_id@,
                ks == key_views(keys@),
                ks.no_duplicates(),
                ks.to_set() == self@.forward.dom(),
                ts.no_duplicates(),
                forall|t: Seq<char>| #[trigger] ts.contains(t) <==> ks.subrange(0, i as int).contains((id, t)),
                edge_list_view(out@) == outgoing(self@.forward, id, ts),
            decreases keys.len() - i,
        {
            proof {
                lemma_lists_next(ks, i as int, id, ts);
                assert(ks[i as int] == key_view(keys@[i as int]));
                assert(ks.to_set().contains(ks[i as int]));
            }
            if text_equal(keys[i].0.as_str(), entity_id.as_str()) {
                let ghost before = edge_list_view(out@);
                let ghost t = ks[i as int].1;
                if let Some(v) = forward_get(&self.forward, &keys[i]) {
                    let ghost all = entry_views(v@).map_values(|e: EntryView| (t, e.to_id));
                    let mut j: usize = 0;
                    proof {
                        assert(before + all.subrange(0, 0) =~= before);
                    }
                    while j < v.len()
                        invariant
                            j <= v.len(),
                            i < keys.len(),
                            t == keys@[i as int].1@,
                            all == entry_views(v@).map_values(|e: EntryView| (t, e.to_id)),
                            edge_list_view(out@) == before + all.subrange(0, j as int),
                        decreases v.len() - j,
                    {
                        let ghost prev = edge_list_view(out@);
                        out.push((keys[i].1.clone(), v[j].to_id.clone()));
                        proof {
                            assert(edge_list_view(out@) =~= prev.push(all[j as int]));
                            assert(before + all.subrange(0, j as int + 1) =~= (before + all.subrange(
                                0,
                                j as int,
                            )).push(all[j as int]));
                        }
                        j += 1;
                    }
                    proof {
                        assert(all.subrange(0, all.len() as int) =~= all);
                        assert(ts.push(t).drop_last() =~= ts);
                    }
                }
                proof {
                    ts = ts.push(t);
                }
            }
            i += 1;
        }
        proof {
            assert(ks.subrange(0, ks.len() as int) =~= ks);
            assert forall|t: Seq<char>| #[trigger] ts.contains(t) <==> self@.forward.contains_key((id, t)) by {
                assert(ks.to_set().contains((id, t)) <==> ks.contains((id, t)));
            }
            assert(lists_types(self@.forward, id, ts));
        }
        let mut back: EdgeList = Vec::new();
        let keys = backward_keys(&self.backward);
        let ghost ks = key_views(keys@);
        let ghost mut us: Seq<Seq<char>> = Seq::empty();
        let mut i: usize = 0;
        proof {
            assert(edge_list_view(back@) =~= incoming(self@.backward, id, us));
        }
        while i < keys.len()
            invariant
                i <= keys.len(),
                id == entity_id@,
                ks == key_views(keys@),
                ks.no_duplicates(),
                ks.to_set() == self@.backward.dom(),
                us.no_duplicates(),
                forall|t: Seq<char>| #[trigger] us.contains(t) <==> ks.subrange(0, i as int).contains((id, t)),
                edge_list_view(back@) == incoming(self@.backward, id, us),
            decreases keys.len() - i,
        {
            proof {
                lemma_lists_next(ks, i as int, id, us);
                assert(ks[i as int] == key_view(keys@[i as int]));
                assert(ks.to_set().contains(ks[i as int]));
            }
            if text_equal(keys[i].0.as_str(), entity_id.as_str()) {
                let ghost before = edge_list_view(back@);
                let ghost t = ks[i as int].1;
                if let Some(v) = backward_get(&self.backward, &keys[i]) {
                    let ghost all = text::views(v@).map_values(|f: Seq<char>| (t, f));
                    let mut j: usize = 0;
                    proof {
                        assert(before + all.subrange(0, 0) =~= before);
                    }
                    while j < v.len()
                        invariant
                            j <= v.len(),
                            i < keys.len(),
                            t == keys@[i as int].1@,
                            all == text::views(v@).map_values(|f: Seq<char>| (t, f)),
                            edge_list_view(back@) == before + all.subrange(0, j as int),
                        decreases v.len() - j,
                    {
                        let ghost prev = edge_list_view(back@);
                        back.push((keys[i].1.clone(), LogicalId::from_string(v[j].as_str())));
                        proof {
                            assert(edge_list_view(back@) =~= prev.push(all[j as int]));
                            assert(before + all.subrange(0, j as int + 1) =~= (before + all.subrange(
                                0,
                                j as int,
                            )).push(all[j as int]));
                        }
                        j += 1;
                    }
                    proof {
                        assert(all.subrange(0, all.len() as int) =~= all);
                        assert(us.push(t).drop_last() =~= us);
                    }
                }
                proof {
                    us = us.push(t);
                }
            }
            i += 1;
        }
        proof {
            assert(ks.subrange(0, ks.len() as int) =~= ks);
            assert forall|t: Seq<char>| #[trigger] us.contains(t) <==> self@.backward.contains_key((id, t)) by {
                assert(ks.to_set().contains((id, t)) <==> ks.contains((id, t)));
            }
            assert(lists_types(self@.backward, id, us));
        }
        (out, back)
    }
}

} // verus!
