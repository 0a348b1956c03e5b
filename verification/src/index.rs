//! The bookkeeping of a dense vector index.
//!
//! The graph of the vectors itself is floating point and belongs to the caller. Each
//! vector stands in it under a slot; this is what says which entity a slot is of and
//! which entities are gone.

use dashmap::DashMap;

use vstd::prelude::*;
use vstd::string::*;

use crate::hybrid;
use crate::hybrid::sort_hits;
use crate::search;
use crate::search::{Hit, HitView};
use crate::sort;
use crate::text;
use crate::text::{own, text_equal};
use crate::value::LogicalId;

verus! {

/// The number of neighbours of a node of the graph.
pub const MAX_NB_CONNECTION: usize = 16;

/// The number of nodes that the graph is made for.
pub const MAX_ELEMENTS: usize = 100_000;

/// The number of layers of the graph.
pub const MAX_LAYER: usize = 16;

/// How widely the graph is searched when a node is added.
pub const EF_CONSTRUCTION: usize = 200;

/// How widely the graph is searched for a query.
pub const EF_SEARCH: usize = 50;

/// What a map from entities to slots holds.
pub uninterp spec fn slot_contents(m: DashMap<String, usize>) -> Map<Seq<char>, usize>;

/// What a map from slots to entities holds.
pub uninterp spec fn id_contents(m: DashMap<usize, String>) -> Map<usize, Seq<char>>;

/// What a set of entities, kept as a map to nothing, holds.
pub uninterp spec fn set_contents(m: DashMap<String, ()>) -> Set<Seq<char>>;

/// Calls `DashMap::new`: the map is empty.
#[verifier::external_body]
fn slots_new() -> (m: DashMap<String, usize>)
    ensures
        slot_contents(m).dom() == Set::<Seq<char>>::empty(),
{
    DashMap::new()
}

/// Calls `DashMap::contains_key`: whether something is held under the key.
#[verifier::external_body]
fn slots_contain(m: &DashMap<String, usize>, id: &str) -> (b: bool)
    ensures
        b == slot_contents(*m).contains_key(id@),
{
    m.contains_key(id)
}

/// Calls `DashMap::insert`: what was held under the key, if anything, is replaced, and
/// nothing else changes.
#[verifier::external_body]
fn slots_insert(m: &mut DashMap<String, usize>, id: String, slot: usize)
    ensures
        slot_contents(*final(m)) == slot_contents(*old(m)).insert(id@, slot),
{
    m.insert(id, slot);
}

/// Calls `DashMap::get`: what is held under a key, if anything is.
#[verifier::external_body]
fn slots_get(m: &DashMap<String, usize>, id: &str) -> (r: Option<usize>)
    ensures
        match r {
            Some(slot) => slot_contents(*m).contains_key(id@) && slot_contents(*m)[id@] == slot,
            None => !slot_contents(*m).contains_key(id@),
        },
{
    m.get(id).map(|v| *v.value())
}

/// Calls `DashMap::iter`: the keys, each once, in an order that is left open.
#[verifier::external_body]
fn slots_keys(m: &DashMap<String, usize>) -> (r: Vec<String>)
    ensures
        text::views(r@).no_duplicates(),
        text::views(r@).to_set() == slot_contents(*m).dom(),
{
    m.iter().map(|e| e.key().clone()).collect()
}

/// Calls `DashMap::len`: the number of keys.
#[verifier::external_body]
fn slots_len(m: &DashMap<String, usize>) -> (n: usize)
    ensures
        n == slot_contents(*m).dom().len(),
{
    m.len()
}

/// Calls `DashMap::new`: the map is empty.
#[verifier::external_body]
fn ids_new() -> (m: DashMap<usize, String>)
    ensures
        id_contents(m).dom() == Set::<usize>::empty(),
{
    DashMap::new()
}

/// Calls `DashMap::insert`: what was held under the key, if anything, is replaced, and
/// nothing else changes.
#[verifier::external_body]
fn ids_insert(m: &mut DashMap<usize, String>, slot: usize, id: String)
    ensures
        id_contents(*final(m)) == id_contents(*old(m)).insert(slot, id@),
{
    m.insert(slot, id);
}

/// Calls `DashMap::get`: a copy of what is held under a key, if anything is.
#[verifier::external_body]
fn ids_get(m: &DashMap<usize, String>, slot: usize) -> (r: Option<String>)
    ensures
        match r {
            Some(id) => id_contents(*m).contains_key(slot) && id_contents(*m)[slot] == id@,
            None => !id_contents(*m).contains_key(slot),
        },
{
    m.get(&slot).map(|v| v.value().clone())
}

/// Calls `DashMap::iter`: the keys, each once, in an order that is left open.
#[verifier::external_body]
fn ids_keys(m: &DashMap<usize, String>) -> (r: Vec<usize>)
    ensures
        r@.no_duplicates(),
        r@.to_set() == id_contents(*m).dom(),
{
    m.iter().map(|e| *e.key()).collect()
}

/// Calls `DashMap::new`: the map is empty.
#[verifier::external_body]
pub(crate) fn set_new() -> (m: DashMap<String, ()>)
    ensures
        set_contents(m) == Set::<Seq<char>>::empty(),
{
    DashMap::new()
}

/// Calls `DashMap::contains_key`: whether the key is held.
#[verifier::external_body]
pub(crate) fn set_contains(m: &DashMap<String, ()>, id: &str) -> (b: bool)
    ensures
        b == set_contents(*m).contains(id@),
{
    m.contains_key(id)
}

/// Calls `DashMap::insert`: the key is held, and nothing else changes.
#[verifier::external_body]
pub(crate) fn set_insert(m: &mut DashMap<String, ()>, id: String)
    ensures
        set_contents(*final(m)) == set_contents(*old(m)).insert(id@),
{
    m.insert(id, ());
}

/// Calls `DashMap::iter`: the keys, each once, in an order that is left open.
#[verifier::external_body]
pub(crate) fn set_members(m: &DashMap<String, ()>) -> (r: Vec<String>)
    ensures
        text::views(r@).no_duplicates(),
        text::views(r@).to_set() == set_contents(*m),
{
    m.iter().map(|e| e.key().clone()).collect()
}

/// The model of an [`HnswIndex`].
pub struct IndexView {
    /// The slot of each entity that was ever added, gone or not.
    pub slots: Map<Seq<char>, usize>,
    /// The entity of each slot.
    pub ids: Map<usize, Seq<char>>,
    /// The entities that are gone.
    pub dead: Set<Seq<char>>,
    /// The next slot.
    pub next: nat,
}

impl IndexView {
    /// Whether slots and entities agree, and only entities that were added are gone.
    pub open spec fn well_formed(self) -> bool {
        &&& self.slots.dom().finite()
        &&& self.dead.finite()
        &&& self.dead.subset_of(self.slots.dom())
        &&& forall|id: Seq<char>| #[trigger]
            self.slots.contains_key(id) ==> self.slots[id] < self.next && self.ids.contains_key(self.slots[id])
                && self.ids[self.slots[id]] == id
        &&& forall|s: usize| #[trigger]
            self.ids.contains_key(s) ==> s < self.next && self.slots.contains_key(self.ids[s])
    }

    /// Whether an entity is there.
    pub open spec fn live(self, id: Seq<char>) -> bool {
        self.slots.contains_key(id) && !self.dead.contains(id)
    }

    /// How many entities are there.
    pub open spec fn live_count(self) -> int {
        self.slots.dom().len() - self.dead.len()
    }

    /// The index with an entity added under the next slot.
    pub open spec fn added(self, id: Seq<char>) -> IndexView {
        IndexView {
            slots: self.slots.insert(id, self.next as usize),
            ids: self.ids.insert(self.next as usize, id),
            dead: self.dead,
            next: self.next + 1,
        }
    }

    /// The index with an entity added where it was not added before.
    pub open spec fn inserted(self, id: Seq<char>) -> IndexView {
        if self.slots.contains_key(id) {
            self
        } else {
            self.added(id)
        }
    }

    /// The index with an entity taken out where it was added.
    pub open spec fn removed(self, id: Seq<char>) -> IndexView {
        IndexView {
            dead: if self.slots.contains_key(id) {
                self.dead.insert(id)
            } else {
                self.dead
            },
            ..self
        }
    }

    /// The index without entities.
    pub open spec fn nothing() -> IndexView {
        IndexView { slots: Map::empty(), ids: Map::empty(), dead: Set::empty(), next: 0 }
    }
}

/// The index with entities added one after the other.
pub open spec fn added_all(v: IndexView, ids: Seq<Seq<char>>) -> IndexView
    decreases ids.len(),
{
    if ids.len() == 0 {
        v
    } else {
        added_all(v, ids.drop_last()).added(ids.last())
    }
}

/// What the graph found: a slot, and the similarity as the bits of a single.
#[derive(Clone, Copy, PartialEq, Eq, Structural, Debug)]
pub struct Found {
    pub slot: usize,
    pub similarity: u32,
}

/// The hits for what the graph found: the slots of entities that are there.
pub open spec fn resolved(v: IndexView, found: Seq<Found>) -> Seq<HitView>
    decreases found.len(),
{
    if found.len() == 0 {
        Seq::empty()
    } else {
        let before = resolved(v, found.drop_last());
        let f = found.last();
        if v.ids.contains_key(f.slot) && !v.dead.contains(v.ids[f.slot]) {
            before.push(HitView { id: v.ids[f.slot], score: f.similarity })
        } else {
            before
        }
    }
}

/// The index of the dense vectors of one representation of a collection.
pub struct HnswIndex {
    dimensions: usize,
    id_to_idx: DashMap<String, usize>,
    idx_to_id: DashMap<usize, String>,
    next_idx: usize,
    tombstones: DashMap<String, ()>,
    tombstone_count: usize,
}

impl View for HnswIndex {
    type V = IndexView;

    closed spec fn view(&self) -> IndexView {
        IndexView {
            slots: slot_contents(self.id_to_idx),
            ids: id_contents(self.idx_to_id),
            dead: set_contents(self.tombstones),
            next: self.next_idx as nat,
        }
    }
}

proof fn lemma_added(v: IndexView, id: Seq<char>)
    requires
        v.well_formed(),
        v.next < usize::MAX,
    ensures
        v.added(id).well_formed(),
{
    let w = v.added(id);
    assert(w.slots.dom() =~= v.slots.dom().insert(id));
    assert forall|x: Seq<char>| #[trigger] w.slots.contains_key(x) implies w.slots[x] < w.next && w.ids.contains_key(
        w.slots[x],
    ) && w.ids[w.slots[x]] == x by {
        if x != id {
            assert(v.slots.contains_key(x));
        }
    }
    assert forall|s: usize| #[trigger] w.ids.contains_key(s) implies s < w.next && w.slots.contains_key(w.ids[s]) by {
        if s != v.next as usize {
            assert(v.ids.contains_key(s));
        }
    }
}

impl HnswIndex {
    /// Whether the counts and the maps agree.
    pub closed spec fn counted(&self) -> bool {
        self@.well_formed() && self.tombstone_count == self@.dead.len()
    }

    /// The dimensions of the vectors.
    pub closed spec fn dims(&self) -> usize {
        self.dimensions
    }

    /// An index without entities.
    pub fn new(dimensions: usize) -> (r: Self)
        ensures
            r@ == IndexView::nothing(),
            r.counted(),
            r.dims() == dimensions,
    {
        let r = HnswIndex {
            dimensions,
            id_to_idx: slots_new(),
            idx_to_id: ids_new(),
            next_idx: 0,
            tombstones: set_new(),
            tombstone_count: 0,
        };
        assert(r@.slots =~= Map::empty());
        assert(r@.ids =~= Map::empty());
        r
    }

    /// Adds an entity, and gives the slot under which its vector is to be added to the
    /// graph. An entity that was added before, gone or not, is left as it is.
    pub fn insert(&mut self, id: &LogicalId) -> (r: Option<usize>)
        requires
            old(self).counted(),
            old(self)@.next < usize::MAX,
        ensures
            final(self).counted(),
            final(self).dims() == old(self).dims(),
            final(self)@ == old(self)@.inserted(id@),
            match r {
                Some(slot) => !old(self)@.slots.contains_key(id@) && slot == old(self)@.next,
                None => old(self)@.slots.contains_key(id@),
            },
    {
        if slots_contain(&self.id_to_idx, id.as_str()) {
            return None;
        }
        let ghost before = self@;
        let slot = self.next_idx;
        self.next_idx = slot + 1;
        slots_insert(&mut self.id_to_idx, own(id.as_str()), slot);
        ids_insert(&mut self.idx_to_id, slot, own(id.as_str()));
        proof {
            lemma_added(before, id@);
        }
        Some(slot)
    }

    /// Whether there is a slot left for another entity.
    pub fn has_room(&self) -> (b: bool)
        ensures
            b == (self@.next < usize::MAX),
    {
        self.next_idx < usize::MAX
    }

    /// Takes an entity out. Its vector stays in the graph and is passed over from then
    /// on. An entity that was never added, or is gone, is left as it is.
    pub fn remove(&mut self, id: &LogicalId)
        requires
            old(self).counted(),
        ensures
            final(self).counted(),
            final(self).dims() == old(self).dims(),
            final(self)@ == old(self)@.removed(id@),
    {
        if !slots_contain(&self.id_to_idx, id.as_str()) {
            return;
        }
        if set_contains(&self.tombstones, id.as_str()) {
            assert(self@.dead.insert(id@) =~= self@.dead);
            return;
        }
        proof {
            assert(self@.dead.len() < self@.slots.dom().len()) by {
                vstd::set_lib::lemma_len_subset(self@.dead.insert(id@), self@.slots.dom());
            }
            assert(self@.slots.dom().len() <= usize::MAX) by {
                lemma_slots_fit(self@);
            }
        }
        set_insert(&mut self.tombstones, own(id.as_str()));
        self.tombstone_count = self.tombstone_count + 1;
    }

    /// How many entities are gone.
    pub fn tombstone_count(&self) -> (n: usize)
        requires
            self.counted(),
        ensures
            n == self@.dead.len(),
    {
        self.tombstone_count
    }

    /// Whether the graph is to be rebuilt: more than a tenth as many entities are gone as
    /// are there.
    pub fn needs_rebuild(&self) -> (b: bool)
        requires
            self.counted(),
        ensures
            b == (10 * self@.dead.len() > self@.live_count()),
    {
        proof {
            vstd::set_lib::lemma_len_subset(self@.dead, self@.slots.dom());
        }
        let there = slots_len(&self.id_to_idx) - self.tombstone_count;
        10 * (self.tombstone_count as u128) > there as u128
    }

    /// Whether slots and entities agree, and only entities that were added are gone.
    pub fn is_well_formed(&self) -> (b: bool)
        ensures
            b == self@.well_formed(),
    {
        let ghost v = self@;
        let keys = slots_keys(&self.id_to_idx);
        let ghost ks = text::views(keys@);
        let slots = ids_keys(&self.idx_to_id);
        let gone = set_members(&self.tombstones);
        let ghost gs = text::views(gone@);
        proof {
            vstd::seq_lib::seq_to_set_is_finite(ks);
            vstd::seq_lib::seq_to_set_is_finite(gs);
        }
        let mut i: usize = 0;
        while i < keys.len()
            invariant
                i <= keys.len(),
                v == self@,
                ks == text::views(keys@),
                ks.to_set() == v.slots.dom(),
                forall|j: int|
                    0 <= j < i ==> v.slots[#[trigger] ks[j]] < v.next && v.ids.contains_key(v.slots[ks[j]])
                        && v.ids[v.slots[ks[j]]] == ks[j],
            decreases keys.len() - i,
        {
            assert(ks[i as int] == keys@[i as int]@);
            assert(ks.to_set().contains(ks[i as int]));
            assert(v.slots.contains_key(ks[i as int]));
            let agrees = match slots_get(&self.id_to_idx, keys[i].as_str()) {
                Some(slot) => slot < self.next_idx && match ids_get(&self.idx_to_id, slot) {
                    Some(id) => text_equal(id.as_str(), keys[i].as_str()),
                    None => false,
                },
                None => false,
            };
            if !agrees {
                return false;
            }
            i += 1;
        }
        let mut i: usize = 0;
        while i < slots.len()
            invariant
                i <= slots.len(),
                v == self@,
                slots@.to_set() == v.ids.dom(),
                forall|j: int|
                    0 <= j < i ==> #[trigger] slots@[j] < v.next && v.slots.contains_key(v.ids[slots@[j]]),
            decreases slots.len() - i,
        {
            assert(slots@.to_set().contains(slots@[i as int]));
            assert(v.ids.contains_key(slots@[i as int]));
            let agrees = slots[i] < self.next_idx && match ids_get(&self.idx_to_id, slots[i]) {
                Some(id) => slots_contain(&self.id_to_idx, id.as_str()),
                None => false,
            };
            if !agrees {
                return false;
            }
            i += 1;
        }
        let mut i: usize = 0;
        while i < gone.len()
            invariant
                i <= gone.len(),
                v == self@,
                gs == text::views(gone@),
                gs.to_set() == v.dead,
                forall|j: int| 0 <= j < i ==> v.slots.contains_key(#[trigger] gs[j]),
            decreases gone.len() - i,
        {
            assert(gs[i as int] == gone@[i as int]@);
            assert(gs.to_set().contains(gs[i as int]));
            if !slots_contain(&self.id_to_idx, gone[i].as_str()) {
                assert(v.dead.contains(gs[i as int]) && !v.slots.dom().contains(gs[i as int]));
                return false;
            }
            i += 1;
        }
        proof {
            assert forall|id: Seq<char>| #[trigger] v.slots.contains_key(id) implies v.slots[id] < v.next
                && v.ids.contains_key(v.slots[id]) && v.ids[v.slots[id]] == id by {
                assert(ks.to_set().contains(id));
                let j = choose|j: int| 0 <= j < ks.len() && ks[j] == id;
            }
            assert forall|s: usize| #[trigger] v.ids.contains_key(s) implies s < v.next && v.slots.contains_key(
                v.ids[s],
            ) by {
                assert(slots@.to_set().contains(s));
                let j = choose|j: int| 0 <= j < slots@.len() && slots@[j] == s;
            }
            assert forall|id: Seq<char>| v.dead.contains(id) implies v.slots.dom().contains(id) by {
                assert(gs.to_set().contains(id));
                let j = choose|j: int| 0 <= j < gs.len() && gs[j] == id;
                assert(v.slots.contains_key(gs[j]));
            }
        }
        true
    }

    /// Starts over with some entities, and gives the slot of each.
    pub fn rebuild(&mut self, live: &Vec<LogicalId>) -> (r: Vec<usize>)
        requires
            live@.len() < usize::MAX,
        ensures
            final(self).counted(),
            final(self).dims() == old(self).dims(),
            final(self)@ == added_all(IndexView::nothing(), crate::field_index::id_views(live@)),
            r@.len() == live@.len(),
            forall|i: int| 0 <= i < r@.len() ==> #[trigger] r@[i] == i,
    {
        let ghost all = crate::field_index::id_views(live@);
        self.id_to_idx = slots_new();
        self.idx_to_id = ids_new();
        self.tombstones = set_new();
        self.tombstone_count = 0;
        self.next_idx = 0;
        proof {
            assert(self@.slots =~= Map::empty());
            assert(self@.ids =~= Map::empty());
        }
        let mut r: Vec<usize> = Vec::new();
        let mut i: usize = 0;
        while i < live.len()
            invariant
                i <= live.len(),
                live@.len() < usize::MAX,
                all == crate::field_index::id_views(live@),
                self.dims() == old(self).dims(),
                self.counted(),
                self@ == added_all(IndexView::nothing(), all.subrange(0, i as int)),
                self@.next == i,
                r@.len() == i,
                forall|j: int| 0 <= j < i ==> #[trigger] r@[j] == j,
            decreases live.len() - i,
        {
            let ghost before = self@;
            proof {
                let next = all.subrange(0, i as int + 1);
                assert(next.drop_last() =~= all.subrange(0, i as int));
                assert(next.last() == live@[i as int]@);
                lemma_added(before, live@[i as int]@);
            }
            let slot = self.next_idx;
            self.next_idx = slot + 1;
            slots_insert(&mut self.id_to_idx, own(live[i].as_str()), slot);
            ids_insert(&mut self.idx_to_id, slot, own(live[i].as_str()));
            r.push(slot);
            i += 1;
        }
        assert(all.subrange(0, all.len() as int) =~= all);
        r
    }

    /// The hits for what the graph found, the most similar first. Entities that are gone
    /// are left out.
    pub fn resolve(&self, found: &Vec<Found>) -> (r: Vec<Hit>)
        ensures
            sort::stably_sorted(resolved(self@, found@), search::hit_views(r@), hybrid::hit_order()),
    {
        let mut r: Vec<Hit> = Vec::new();
        let ghost all = found@;
        let mut i: usize = 0;
        proof {
            assert(search::hit_views(r@) =~= resolved(self@, all.subrange(0, 0)));
        }
        while i < found.len()
            invariant
                i <= found.len(),
                all == found@,
                search::hit_views(r@) == resolved(self@, all.subrange(0, i as int)),
            decreases found.len() - i,
        {
            let ghost before = search::hit_views(r@);
            proof {
                let next = all.subrange(0, i as int + 1);
                assert(next.drop_last() =~= all.subrange(0, i as int));
                assert(next.last() == all[i as int]);
            }
            if let Some(id) = ids_get(&self.idx_to_id, found[i].slot) {
                if !set_contains(&self.tombstones, id.as_str()) {
                    let hit = Hit { id: LogicalId::from_string(id.as_str()), score: found[i].similarity };
                    r.push(hit);
                    proof {
                        assert(search::hit_views(r@) =~= before.push(hit@));
                    }
                }
            }
            i += 1;
        }
        assert(all.subrange(0, all.len() as int) =~= all);
        sort_hits(&mut r);
        r
    }

    /// How many entities are there.
    pub fn len(&self) -> (n: usize)
        requires
            self.counted(),
        ensures
            n == self@.live_count(),
    {
        let all = slots_len(&self.id_to_idx);
        proof {
            vstd::set_lib::lemma_len_subset(self@.dead, self@.slots.dom());
        }
        all - self.tombstone_count
    }

    /// Whether no entity is there.
    pub fn is_empty(&self) -> (b: bool)
        requires
            self.counted(),
        ensures
            b == (self@.live_count() == 0),
    {
        self.len() == 0
    }

    /// The dimensions of the vectors.
    pub fn dimensions(&self) -> (n: usize)
        ensures
            n == self.dims(),
    {
        self.dimensions
    }
}

/// In an index whose counts agree slots and entities agree too, and no more entities are
/// gone than were added.
pub proof fn lemma_counted(i: HnswIndex)
    requires
        i.counted(),
    ensures
        i@.well_formed(),
        i@.next <= usize::MAX,
        0 <= i@.live_count() <= i@.next,
{
    vstd::set_lib::lemma_len_subset(i@.dead, i@.slots.dom());
    lemma_slots_fit(i@);
}

proof fn lemma_slots_fit(v: IndexView)
    requires
        v.well_formed(),
        v.next <= usize::MAX,
    ensures
        v.slots.dom().len() <= v.next,
{
    let all = vstd::set_lib::set_int_range(0, v.next as int);
    vstd::set_lib::lemma_int_range(0, v.next as int);
    let f = |id: Seq<char>| v.slots[id] as int;
    let image = v.slots.dom().map(f);
    assert forall|a: Seq<char>, b: Seq<char>|
        v.slots.dom().contains(a) && v.slots.dom().contains(b) && #[trigger] f(a) == #[trigger] f(b) implies a == b by {
        assert(v.slots.contains_key(a));
        assert(v.slots.contains_key(b));
        assert(v.ids[v.slots[a]] == a);
        assert(v.ids[v.slots[b]] == b);
    }
    vstd::set_lib::lemma_map_size(v.slots.dom(), image, f);
    assert(image.subset_of(all)) by {
        assert forall|x: int| image.contains(x) implies all.contains(x) by {
            let id = choose|id: Seq<char>| v.slots.dom().contains(id) && f(id) == x;
            assert(v.slots.contains_key(id));
        }
    }
    vstd::set_lib::lemma_len_subset(image, all);
}

/// What is saved of an index beside its graph.
#[derive(Debug)]
pub struct HnswIdMap {
    pub id_to_idx: Vec<(String, usize)>,
    pub idx_to_id: Vec<(usize, String)>,
    pub next_idx: usize,
    pub tombstones: Vec<String>,
}

/// The map of pairs of an entity and a slot.
pub open spec fn slots_of(s: Seq<(String, usize)>) -> Map<Seq<char>, usize>
    decreases s.len(),
{
    if s.len() == 0 {
        Map::empty()
    } else {
        slots_of(s.drop_last()).insert(s.last().0@, s.last().1)
    }
}

/// The map of pairs of a slot and an entity.
pub open spec fn ids_of(s: Seq<(usize, String)>) -> Map<usize, Seq<char>>
    decreases s.len(),
{
    if s.len() == 0 {
        Map::empty()
    } else {
        ids_of(s.drop_last()).insert(s.last().0, s.last().1@)
    }
}

/// The set of names.
pub open spec fn names_of(s: Seq<String>) -> Set<Seq<char>>
    decreases s.len(),
{
    if s.len() == 0 {
        Set::empty()
    } else {
        names_of(s.drop_last()).insert(s.last()@)
    }
}

impl View for HnswIdMap {
    type V = IndexView;

    open spec fn view(&self) -> IndexView {
        IndexView {
            slots: slots_of(self.id_to_idx@),
            ids: ids_of(self.idx_to_id@),
            dead: names_of(self.tombstones@),
            next: self.next_idx as nat,
        }
    }
}

proof fn lemma_next_key<K>(ks: Seq<K>, i: int, k: K)
    requires
        0 <= i < ks.len(),
    ensures
        ks.subrange(0, i + 1).contains(k) <==> ks.subrange(0, i).contains(k) || k == ks[i],
{
    let next = ks.subrange(0, i + 1);
    let done = ks.subrange(0, i);
    if done.contains(k) {
        let a = choose|a: int| 0 <= a < done.len() && done[a] == k;
        assert(next[a] == k);
    }
    if k == ks[i] {
        assert(next[i] == k);
    }
    if next.contains(k) {
        let a = choose|a: int| 0 <= a < next.len() && next[a] == k;
        if a < i {
            assert(done[a] == k);
        }
    }
}

impl HnswIndex {
    /// What is saved of the index beside its graph. Nothing is lost.
    pub fn snapshot_id_maps(&self) -> (r: HnswIdMap)
        ensures
            r@ == self@,
    {
        let keys = slots_keys(&self.id_to_idx);
        let ghost ks = text::views(keys@);
        let ghost held = self@.slots;
        let mut id_to_idx: Vec<(String, usize)> = Vec::new();
        let mut i: usize = 0;
        while i < keys.len()
            invariant
                i <= keys.len(),
                ks == text::views(keys@),
                held == slot_contents(self.id_to_idx),
                ks.to_set() == held.dom(),
                forall|k: Seq<char>| #[trigger]
                    slots_of(id_to_idx@).contains_key(k) <==> ks.subrange(0, i as int).contains(k),
                forall|k: Seq<char>| #[trigger]
                    slots_of(id_to_idx@).contains_key(k) ==> slots_of(id_to_idx@)[k] == held[k],
            decreases keys.len() - i,
        {
            let ghost before = id_to_idx@;
            proof {
                assert(ks[i as int] == keys@[i as int]@);
                assert(ks.to_set().contains(ks[i as int]));
                assert(held.contains_key(keys@[i as int]@));
            }
            if let Some(slot) = slots_get(&self.id_to_idx, keys[i].as_str()) {
                id_to_idx.push((keys[i].clone(), slot));
            }
            proof {
                assert(id_to_idx@.drop_last() =~= before);
                assert forall|k: Seq<char>| #[trigger] slots_of(id_to_idx@).contains_key(k) <==> ks.subrange(
                    0,
                    i as int + 1,
                ).contains(k) by {
                    lemma_next_key(ks, i as int, k);
                    assert(slots_of(before).contains_key(k) <==> ks.subrange(0, i as int).contains(k));
                }
                assert forall|k: Seq<char>| #[trigger] slots_of(id_to_idx@).contains_key(k) implies slots_of(
                    id_to_idx@,
                )[k] == held[k] by {
                    if k != ks[i as int] {
                        assert(slots_of(before).contains_key(k));
                    }
                }
            }
            i += 1;
        }
        proof {
            assert(ks.subrange(0, ks.len() as int) =~= ks);
            assert forall|k: Seq<char>| #[trigger] slots_of(id_to_idx@).contains_key(k) <==> held.contains_key(k) by {
                assert(ks.to_set().contains(k) <==> ks.contains(k));
            }
            assert(slots_of(id_to_idx@) =~= held);
        }
        let slots = ids_keys(&self.idx_to_id);
        let ghost ss = slots@;
        let ghost names = self@.ids;
        let mut idx_to_id: Vec<(usize, String)> = Vec::new();
        let mut i: usize = 0;
        while i < slots.len()
            invariant
                i <= slots.len(),
                ss == slots@,
                names == id_contents(self.idx_to_id),
                ss.to_set() == names.dom(),
                forall|k: usize| #[trigger]
                    ids_of(idx_to_id@).contains_key(k) <==> ss.subrange(0, i as int).contains(k),
                forall|k: usize| #[trigger]
                    ids_of(idx_to_id@).contains_key(k) ==> ids_of(idx_to_id@)[k] == names[k],
            decreases slots.len() - i,
        {
            let ghost before = idx_to_id@;
            proof {
                assert(ss.to_set().contains(ss[i as int]));
                assert(names.contains_key(slots@[i as int]));
            }
            if let Some(id) = ids_get(&self.idx_to_id, slots[i]) {
                idx_to_id.push((slots[i], id));
            }
            proof {
                assert(idx_to_id@.drop_last() =~= before);
                assert forall|k: usize| #[trigger] ids_of(idx_to_id@).contains_key(k) <==> ss.subrange(
                    0,
                    i as int + 1,
                ).contains(k) by {
                    lemma_next_key(ss, i as int, k);
                    assert(ids_of(before).contains_key(k) <==> ss.subrange(0, i as int).contains(k));
                }
                assert forall|k: usize| #[trigger] ids_of(idx_to_id@).contains_key(k) implies ids_of(
                    idx_to_id@,
                )[k] == names[k] by {
                    if k != ss[i as int] {
                        assert(ids_of(before).contains_key(k));
                    }
                }
            }
            i += 1;
        }
        proof {
            assert(ss.subrange(0, ss.len() as int) =~= ss);
            assert forall|k: usize| #[trigger] ids_of(idx_to_id@).contains_key(k) <==> names.contains_key(k) by {
                assert(ss.to_set().contains(k) <==> ss.contains(k));
            }
            assert(ids_of(idx_to_id@) =~= names);
        }
        let tombstones = set_members(&self.tombstones);
        proof {
            lemma_names_of(tombstones@);
            assert(names_of(tombstones@) =~= self@.dead);
        }
        HnswIdMap { id_to_idx, idx_to_id, next_idx: self.next_idx, tombstones }
    }

    /// The index that was saved.
    pub fn from_snapshot(dimensions: usize, map: &HnswIdMap) -> (r: Self)
        ensures
            r@ == map@,
            r.dims() == dimensions,
            map@.well_formed() ==> r.counted(),
    {
        let mut id_to_idx = slots_new();
        let ghost all = map.id_to_idx@;
        let mut i: usize = 0;
        proof {
            assert(slot_contents(id_to_idx) =~= slots_of(all.subrange(0, 0)));
        }
        while i < map.id_to_idx.len()
            invariant
                i <= map.id_to_idx.len(),
                all == map.id_to_idx@,
                slot_contents(id_to_idx) == slots_of(all.subrange(0, i as int)),
            decreases map.id_to_idx.len() - i,
        {
            proof {
                let next = all.subrange(0, i as int + 1);
                assert(next.drop_last() =~= all.subrange(0, i as int));
                assert(next.last() == all[i as int]);
            }
            slots_insert(&mut id_to_idx, map.id_to_idx[i].0.clone(), map.id_to_idx[i].1);
            i += 1;
        }
        assert(all.subrange(0, all.len() as int) =~= all);
        let mut idx_to_id = ids_new();
        let ghost all = map.idx_to_id@;
        let mut i: usize = 0;
        proof {
            assert(id_contents(idx_to_id) =~= ids_of(all.subrange(0, 0)));
        }
        while i < map.idx_to_id.len()
            invariant
                i <= map.idx_to_id.len(),
                all == map.idx_to_id@,
                id_contents(idx_to_id) == ids_of(all.subrange(0, i as int)),
            decreases map.idx_to_id.len() - i,
        {
            proof {
                let next = all.subrange(0, i as int + 1);
                assert(next.drop_last() =~= all.subrange(0, i as int));
                assert(next.last() == all[i as int]);
            }
            ids_insert(&mut idx_to_id, map.idx_to_id[i].0, map.idx_to_id[i].1.clone());
            i += 1;
        }
        assert(all.subrange(0, all.len() as int) =~= all);
        let mut tombstones = set_new();
        let mut tombstone_count: usize = 0;
        let ghost all = map.tombstones@;
        let mut i: usize = 0;
        while i < map.tombstones.len()
            invariant
                i <= map.tombstones.len(),
                all == map.tombstones@,
                tombstone_count <= i,
                set_contents(tombstones) == names_of(all.subrange(0, i as int)),
                set_contents(tombstones).finite(),
                tombstone_count == set_contents(tombstones).len(),
            decreases map.tombstones.len() - i,
        {
            proof {
                let next = all.subrange(0, i as int + 1);
                assert(next.drop_last() =~= all.subrange(0, i as int));
                assert(next.last() == all[i as int]);
            }
            if set_contains(&tombstones, map.tombstones[i].as_str()) {
                proof {
                    let had = set_contents(tombstones);
                    assert(had.insert(all[i as int]@) =~= had);
                }
            } else {
                set_insert(&mut tombstones, map.tombstones[i].clone());
                tombstone_count = tombstone_count + 1;
            }
            i += 1;
        }
        assert(all.subrange(0, all.len() as int) =~= all);
        HnswIndex { dimensions, id_to_idx, idx_to_id, next_idx: map.next_idx, tombstones, tombstone_count }
    }
}

proof fn lemma_names_of(s: Seq<String>)
    ensures
        names_of(s) == text::views(s).to_set(),
    decreases s.len(),
{
    if s.len() == 0 {
        assert(names_of(s) =~= text::views(s).to_set());
    } else {
        let head = s.drop_last();
        lemma_names_of(head);
        assert(text::views(s) =~= text::views(head).push(s.last()@));
        assert forall|x: Seq<char>| names_of(s).contains(x) <==> text::views(s).to_set().contains(x) by {
            let hv = text::views(head);
            let sv = text::views(s);
            assert(hv.to_set().contains(x) <==> hv.contains(x));
            if hv.contains(x) {
                let i = choose|i: int| 0 <= i < hv.len() && hv[i] == x;
                assert(sv[i] == x);
            }
            if sv.contains(x) {
                let i = choose|i: int| 0 <= i < sv.len() && sv[i] == x;
                if i < hv.len() {
                    assert(hv[i] == x);
                }
            }
            assert(sv[sv.len() - 1] == s.last()@);
        }
        assert(names_of(s) =~= text::views(s).to_set());
    }
}

/// A search never finds an entity that is gone, or one that was never added.
pub proof fn lemma_only_live_found(v: IndexView, found: Seq<Found>, i: int)
    requires
        v.well_formed(),
        0 <= i < resolved(v, found).len(),
    ensures
        v.live(resolved(v, found)[i].id),
    decreases found.len(),
{
    if found.len() > 0 {
        let before = resolved(v, found.drop_last());
        if i < before.len() {
            lemma_only_live_found(v, found.drop_last(), i);
        }
    }
}

/// A new entity is there once it is added, and no other comes or goes.
pub proof fn lemma_added_is_live(v: IndexView, id: Seq<char>, other: Seq<char>)
    requires
        v.well_formed(),
        !v.slots.contains_key(id),
        v.next < usize::MAX,
    ensures
        v.added(id).live(id),
        other != id ==> v.added(id).live(other) == v.live(other),
        v.added(id).live_count() == v.live_count() + 1,
{
    assert(v.added(id).slots.dom() =~= v.slots.dom().insert(id));
    assert(!v.slots.dom().contains(id));
}

proof fn lemma_added_all(ids: Seq<Seq<char>>)
    requires
        ids.len() < usize::MAX,
    ensures
        added_all(IndexView::nothing(), ids).well_formed(),
        added_all(IndexView::nothing(), ids).next == ids.len(),
        added_all(IndexView::nothing(), ids).dead == Set::<Seq<char>>::empty(),
        forall|x: Seq<char>| #[trigger]
            added_all(IndexView::nothing(), ids).slots.contains_key(x) <==> ids.contains(x),
    decreases ids.len(),
{
    let v = added_all(IndexView::nothing(), ids);
    if ids.len() > 0 {
        let head = ids.drop_last();
        let u = added_all(IndexView::nothing(), head);
        lemma_added_all(head);
        lemma_added(u, ids.last());
        assert forall|x: Seq<char>| #[trigger] v.slots.contains_key(x) <==> ids.contains(x) by {
            assert(u.slots.contains_key(x) <==> head.contains(x));
            if head.contains(x) {
                let i = choose|i: int| 0 <= i < head.len() && head[i] == x;
                assert(ids[i] == x);
            }
            if ids.contains(x) {
                let i = choose|i: int| 0 <= i < ids.len() && ids[i] == x;
                if i < head.len() {
                    assert(head[i] == x);
                }
            }
            assert(ids[ids.len() - 1] == ids.last());
        }
    }
}

/// After a rebuild exactly the given entities are there, and none is gone.
pub proof fn lemma_rebuilt(ids: Seq<Seq<char>>, x: Seq<char>)
    requires
        ids.len() < usize::MAX,
    ensures
        added_all(IndexView::nothing(), ids).well_formed(),
        added_all(IndexView::nothing(), ids).live(x) <==> ids.contains(x),
        added_all(IndexView::nothing(), ids).dead.len() == 0,
{
    lemma_added_all(ids);
}

/// What is done to an index.
pub enum IndexStep {
    Insert(Seq<char>),
    Remove(Seq<char>),
    Rebuild(Seq<Seq<char>>),
}

/// What an index has become that was new and then changed step by step.
pub open spec fn built(steps: Seq<IndexStep>) -> IndexView
    decreases steps.len(),
{
    if steps.len() == 0 {
        IndexView::nothing()
    } else {
        let before = built(steps.drop_last());
        match steps.last() {
            IndexStep::Insert(id) => before.inserted(id),
            IndexStep::Remove(id) => before.removed(id),
            IndexStep::Rebuild(ids) => added_all(IndexView::nothing(), ids),
        }
    }
}

/// Whether an entity was added since the index was new or was last rebuilt, or when it
/// was.
pub open spec fn ever_added(steps: Seq<IndexStep>, id: Seq<char>) -> bool
    decreases steps.len(),
{
    if steps.len() == 0 {
        false
    } else {
        match steps.last() {
            IndexStep::Insert(x) => x == id || ever_added(steps.drop_last(), id),
            IndexStep::Remove(_) => ever_added(steps.drop_last(), id),
            IndexStep::Rebuild(ids) => ids.contains(id),
        }
    }
}

/// Whether the slots of an index are never used up on the way.
pub open spec fn slots_last(steps: Seq<IndexStep>) -> bool
    decreases steps.len(),
{
    steps.len() > 0 ==> slots_last(steps.drop_last()) && match steps.last() {
        IndexStep::Insert(_) => built(steps.drop_last()).next < usize::MAX,
        IndexStep::Remove(_) => true,
        IndexStep::Rebuild(ids) => ids.len() < usize::MAX,
    }
}

/// However an index was built, its slots and entities agree, and it knows the entities
/// that were added.
pub proof fn lemma_built(steps: Seq<IndexStep>)
    requires
        slots_last(steps),
    ensures
        built(steps).well_formed(),
        forall|id: Seq<char>| #[trigger] built(steps).slots.contains_key(id) <==> ever_added(steps, id),
    decreases steps.len(),
{
    if steps.len() > 0 {
        let head = steps.drop_last();
        let before = built(head);
        lemma_built(head);
        match steps.last() {
            IndexStep::Insert(id) => {
                lemma_added(before, id);
                assert forall|x: Seq<char>| #[trigger] built(steps).slots.contains_key(x) <==> ever_added(steps, x) by {
                    assert(before.slots.contains_key(x) <==> ever_added(head, x));
                }
            },
            IndexStep::Remove(id) => {
                assert forall|x: Seq<char>| #[trigger] built(steps).slots.contains_key(x) <==> ever_added(steps, x) by {
                    assert(before.slots.contains_key(x) <==> ever_added(head, x));
                }
            },
            IndexStep::Rebuild(ids) => {
                lemma_added_all(ids);
            },
        }
    } else {
        assert(built(steps).slots.dom() =~= Set::empty());
    }
}

/// Adding an entity to an index, however that was built: one that was not added since the
/// index was new or rebuilt makes one more, and another changes nothing. Either way none
/// is gone that was not gone before.
pub proof fn lemma_insert_counts(steps: Seq<IndexStep>, id: Seq<char>)
    requires
        slots_last(steps.push(IndexStep::Insert(id))),
    ensures
        built(steps.push(IndexStep::Insert(id))).live_count() == built(steps).live_count() + if ever_added(steps, id) {
            0int
        } else {
            1int
        },
        built(steps.push(IndexStep::Insert(id))).dead == built(steps).dead,
        ever_added(steps, id) ==> built(steps.push(IndexStep::Insert(id))) == built(steps),
        !ever_added(steps, id) ==> built(steps.push(IndexStep::Insert(id))).live(id),
{
    let more = steps.push(IndexStep::Insert(id));
    assert(more.drop_last() =~= steps);
    lemma_built(steps);
    if !ever_added(steps, id) {
        lemma_added_is_live(built(steps), id, id);
        assert(!built(steps).dead.contains(id));
    }
}

/// Taking an entity out of an index, however that was built: one that is there makes one
/// fewer and one more that is gone, and another changes neither.
pub proof fn lemma_remove_counts(steps: Seq<IndexStep>, id: Seq<char>)
    requires
        slots_last(steps),
    ensures
        !built(steps.push(IndexStep::Remove(id))).live(id),
        built(steps.push(IndexStep::Remove(id))).dead.len() == built(steps).dead.len() + if built(steps).live(id) {
            1int
        } else {
            0int
        },
        built(steps.push(IndexStep::Remove(id))).live_count() == built(steps).live_count() - if built(steps).live(id) {
            1int
        } else {
            0int
        },
{
    let more = steps.push(IndexStep::Remove(id));
    assert(more.drop_last() =~= steps);
    lemma_built(steps);
    let v = built(steps);
    if v.slots.contains_key(id) && v.dead.contains(id) {
        assert(v.dead.insert(id) =~= v.dead);
    }
}

} // verus!
