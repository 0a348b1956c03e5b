//! Which collection an entity belongs to, and which entities wait for inference.

use dashmap::DashMap;

use vstd::prelude::*;

use crate::background::find_collection_for_entity;
use crate::error::{EngineError, ErrorView};
use crate::field_index;
use crate::index;
use crate::index::{set_contains, set_insert, set_members, set_new};
use crate::text;
use crate::text::{own, text_equal};
use crate::value::LogicalId;

verus! {

/// What a map from entities to collections holds.
pub uninterp spec fn home_contents(m: DashMap<String, String>) -> Map<Seq<char>, Seq<char>>;

/// Calls `DashMap::new`: the map is empty.
#[verifier::external_body]
fn homes_new() -> (m: DashMap<String, String>)
    ensures
        home_contents(m).dom() == Set::<Seq<char>>::empty(),
{
    DashMap::new()
}

/// Calls `DashMap::insert`: what was held under the key, if anything, is replaced, and
/// nothing else changes.
#[verifier::external_body]
fn homes_insert(m: &mut DashMap<String, String>, id: String, collection: String)
    ensures
        home_contents(*final(m)) == home_contents(*old(m)).insert(id@, collection@),
{
    m.insert(id, collection);
}

/// Calls `DashMap::get`: what is held under the key, if anything.
#[verifier::external_body]
fn homes_get(m: &DashMap<String, String>, id: &str) -> (r: Option<String>)
    ensures
        match r {
            Some(c) => home_contents(*m).contains_key(id@) && home_contents(*m)[id@] == c@,
            None => !home_contents(*m).contains_key(id@),
        },
{
    m.get(id).map(|v| v.value().clone())
}

/// Calls `DashMap::remove`: nothing is held under the key any more, and nothing else
/// changes.
#[verifier::external_body]
fn homes_remove(m: &mut DashMap<String, String>, id: &str)
    ensures
        home_contents(*final(m)) == home_contents(*old(m)).remove(id@),
{
    m.remove(id);
}

/// Calls `DashMap::iter`: each key once, in no particular order.
#[verifier::external_body]
fn homes_keys(m: &DashMap<String, String>) -> (r: Vec<String>)
    ensures
        text::views(r@).no_duplicates(),
        text::views(r@).to_set() == home_contents(*m).dom(),
{
    m.iter().map(|e| e.key().clone()).collect()
}

/// The collection of each entity.
pub struct EntityCollections {
    homes: DashMap<String, String>,
}

impl View for EntityCollections {
    type V = Map<Seq<char>, Seq<char>>;

    closed spec fn view(&self) -> Map<Seq<char>, Seq<char>> {
        home_contents(self.homes)
    }
}

/// What is left when a collection is dropped.
pub open spec fn others(m: Map<Seq<char>, Seq<char>>, collection: Seq<char>) -> Map<Seq<char>, Seq<char>> {
    m.restrict(Set::new(|id: Seq<char>| m.contains_key(id) && m[id] != collection))
}

/// Whether ids are those of the entities of a collection, each once.
pub open spec fn lists_members(ids: Seq<Seq<char>>, m: Map<Seq<char>, Seq<char>>, collection: Seq<char>) -> bool {
    &&& ids.no_duplicates()
    &&& forall|id: Seq<char>| #[trigger] ids.contains(id) <==> m.contains_key(id) && m[id] == collection
}

/// Those of some entities that belong to a collection, in order.
pub open spec fn members(ids: Seq<Seq<char>>, m: Map<Seq<char>, Seq<char>>, collection: Seq<char>) -> Seq<Seq<char>>
    decreases ids.len(),
{
    if ids.len() == 0 {
        Seq::empty()
    } else {
        let before = members(ids.drop_last(), m, collection);
        if m[ids.last()] == collection {
            before.push(ids.last())
        } else {
            before
        }
    }
}

proof fn lemma_members(ids: Seq<Seq<char>>, m: Map<Seq<char>, Seq<char>>, collection: Seq<char>)
    requires
        ids.no_duplicates(),
    ensures
        members(ids, m, collection).no_duplicates(),
        forall|id: Seq<char>| #[trigger]
            members(ids, m, collection).contains(id) <==> ids.contains(id) && m[id] == collection,
    decreases ids.len(),
{
    if ids.len() > 0 {
        let head = ids.drop_last();
        let before = members(head, m, collection);
        let after = members(ids, m, collection);
        assert forall|i: int, j: int| 0 <= i < head.len() && 0 <= j < head.len() && i != j implies head[i] != head[j] by {
            assert(ids[i] != ids[j]);
        }
        lemma_members(head, m, collection);
        assert forall|id: Seq<char>| ids.contains(id) <==> head.contains(id) || id == ids.last() by {
            if ids.contains(id) {
                let a = choose|a: int| 0 <= a < ids.len() && ids[a] == id;
                if a < head.len() {
                    assert(head[a] == id);
                }
            }
            if head.contains(id) {
                let a = choose|a: int| 0 <= a < head.len() && head[a] == id;
                assert(ids[a] == id);
            }
            if id == ids.last() {
                assert(ids[ids.len() - 1] == id);
            }
        }
        assert forall|id: Seq<char>| #[trigger] after.contains(id) <==> before.contains(id) || (m[ids.last()]
            == collection && id == ids.last()) by {
            if after.contains(id) {
                let a = choose|a: int| 0 <= a < after.len() && after[a] == id;
                if a < before.len() {
                    assert(before[a] == id);
                }
            }
            if before.contains(id) {
                let a = choose|a: int| 0 <= a < before.len() && before[a] == id;
                assert(after[a] == id);
            }
            if m[ids.last()] == collection && id == ids.last() {
                assert(after[after.len() - 1] == id);
            }
        }
        assert(!head.contains(ids.last())) by {
            if head.contains(ids.last()) {
                let a = choose|a: int| 0 <= a < head.len() && head[a] == ids.last();
                assert(ids[a] == ids[ids.len() - 1]);
            }
        }
        assert(!before.contains(ids.last()));
        assert forall|i: int, j: int| 0 <= i < after.len() && 0 <= j < after.len() && i != j implies after[i]
            != after[j] by {
            if i < before.len() && j < before.len() {
                assert(before[i] != before[j]);
            } else if i < before.len() {
                assert(before.contains(before[i]));
            } else if j < before.len() {
                assert(before.contains(before[j]));
            }
        }
    }
}

impl EntityCollections {
    /// No entities.
    pub fn new() -> (r: Self)
        ensures
            r@ == Map::<Seq<char>, Seq<char>>::empty(),
    {
        EntityCollections { homes: homes_new() }
    }

    /// Notes the collection of an entity.
    pub fn track(&mut self, id: &LogicalId, collection: &str)
        ensures
            final(self)@ == old(self)@.insert(id@, collection@),
    {
        homes_insert(&mut self.homes, own(id.as_str()), own(collection));
    }

    /// The collection of an entity, if it has been noted.
    pub fn get(&self, id: &LogicalId) -> (r: Option<String>)
        ensures
            match r {
                Some(c) => self@.contains_key(id@) && self@[id@] == c@,
                None => !self@.contains_key(id@),
            },
    {
        homes_get(&self.homes, id.as_str())
    }

    /// The collection of an entity.
    pub fn find_collection_for_entity(&self, id: &LogicalId) -> (r: Result<String, EngineError>)
        ensures
            match r {
                Ok(c) => self@.contains_key(id@) && self@[id@] == c@,
                Err(e) => !self@.contains_key(id@) && e@ == ErrorView::EntityNotFound(id@),
            },
    {
        let known = self.get(id);
        find_collection_for_entity(id, known.as_ref())
    }

    /// Forgets the entities of a collection, and gives them.
    pub fn forget_collection(&mut self, collection: &str) -> (r: Vec<LogicalId>)
        ensures
            final(self)@ == others(old(self)@, collection@),
            lists_members(field_index::id_views(r@), old(self)@, collection@),
    {
        let ghost before = self@;
        let keys = homes_keys(&self.homes);
        let ghost ks = text::views(keys@);
        let mut gone: Vec<LogicalId> = Vec::new();
        let mut i: usize = 0;
        proof {
            assert(field_index::id_views(gone@) =~= members(ks.subrange(0, 0), before, collection@));
            assert(self@ =~= before.remove_keys(field_index::id_views(gone@).to_set()));
        }
        while i < keys.len()
            invariant
                i <= keys.len(),
                ks == text::views(keys@),
                ks.len() == keys@.len(),
                ks.no_duplicates(),
                ks.to_set() == before.dom(),
                field_index::id_views(gone@) == members(ks.subrange(0, i as int), before, collection@),
                self@ == before.remove_keys(field_index::id_views(gone@).to_set()),
            decreases keys.len() - i,
        {
            let ghost done = ks.subrange(0, i as int);
            let ghost id = ks[i as int];
            let ghost found = field_index::id_views(gone@);
            proof {
                let next = ks.subrange(0, i as int + 1);
                assert(next.drop_last() =~= done);
                assert(next.last() == id);
                assert(ks.to_set().contains(id));
                lemma_members(done, before, collection@);
                if found.contains(id) {
                    let a = choose|a: int| 0 <= a < done.len() && done[a] == id;
                    assert(ks[a] == ks[i as int]);
                }
                assert(!found.to_set().contains(id));
            }
            if let Some(home) = homes_get(&self.homes, keys[i].as_str()) {
                if text_equal(home.as_str(), collection) {
                    homes_remove(&mut self.homes, keys[i].as_str());
                    gone.push(LogicalId::from_string(keys[i].as_str()));
                    proof {
                        assert(field_index::id_views(gone@) =~= found.push(id));
                        assert forall|x: Seq<char>| found.push(id).contains(x) <==> found.contains(x) || x == id by {
                            if found.contains(x) {
                                let a = choose|a: int| 0 <= a < found.len() && found[a] == x;
                                assert(found.push(id)[a] == x);
                            }
                            assert(found.push(id)[found.len() as int] == id);
                        }
                        assert(found.push(id).to_set() =~= found.to_set().insert(id));
                        assert(self@ =~= before.remove_keys(found.to_set().insert(id)));
                    }
                }
            }
            i += 1;
        }
        proof {
            assert(ks.subrange(0, ks.len() as int) =~= ks);
            lemma_members(ks, before, collection@);
            let found = field_index::id_views(gone@);
            assert forall|id: Seq<char>| #[trigger] found.contains(id) <==> before.contains_key(id) && before[id]
                == collection@ by {
                assert(ks.contains(id) <==> ks.to_set().contains(id));
            }
            assert(self@ =~= others(before, collection@));
        }
        gone
    }
}

/// The entities that wait for inference.
pub struct InferenceQueue {
    waiting: DashMap<String, ()>,
}

impl View for InferenceQueue {
    type V = Set<Seq<char>>;

    closed spec fn view(&self) -> Set<Seq<char>> {
        index::set_contents(self.waiting)
    }
}

impl InferenceQueue {
    /// No entities.
    pub fn new() -> (r: Self)
        ensures
            r@ == Set::<Seq<char>>::empty(),
    {
        InferenceQueue { waiting: set_new() }
    }

    /// Lets an entity wait; one that waits already goes on waiting.
    pub fn enqueue(&mut self, id: &LogicalId)
        ensures
            final(self)@ == old(self)@.insert(id@),
    {
        set_insert(&mut self.waiting, own(id.as_str()));
    }

    /// Whether an entity waits.
    pub fn contains(&self, id: &LogicalId) -> (b: bool)
        ensures
            b == self@.contains(id@),
    {
        set_contains(&self.waiting, id.as_str())
    }

    /// Takes every entity that waits, each once.
    pub fn take_all(&mut self) -> (r: Vec<LogicalId>)
        ensures
            final(self)@ == Set::<Seq<char>>::empty(),
            field_index::id_views(r@).no_duplicates(),
            field_index::id_views(r@).to_set() == old(self)@,
    {
        let keys = set_members(&self.waiting);
        self.waiting = set_new();
        let mut r: Vec<LogicalId> = Vec::new();
        let mut i: usize = 0;
        while i < keys.len()
            invariant
                i <= keys.len(),
                r@.len() == i,
                forall|j: int| 0 <= j < i ==> (#[trigger] r@[j])@ == keys@[j]@,
            decreases keys.len() - i,
        {
            r.push(LogicalId::from_string(keys[i].as_str()));
            i += 1;
        }
        assert(field_index::id_views(r@) =~= text::views(keys@));
        r
    }
}

} // verus!
