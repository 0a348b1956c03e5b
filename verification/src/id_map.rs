//! The map of ids of a vector index as bytes.

use vstd::prelude::*;

use crate::index;
use crate::index::{HnswIdMap, HnswIndex, IndexView};
use crate::text;
use crate::text::{cat2, clone_texts, own};

verus! {

/// What is written of a map of ids: its pairs of an entity and a slot, its pairs of a
/// slot and an entity, the next slot, and the entities that are gone.
pub type Plain = (Seq<(Seq<char>, u64)>, Seq<(u64, Seq<char>)>, u64, Seq<Seq<char>>);

/// Texts and numbers.
pub open spec fn text_numbers(s: Seq<(String, u64)>) -> Seq<(Seq<char>, u64)> {
    Seq::new(s.len(), |i: int| (s[i].0@, s[i].1))
}

/// Numbers and texts.
pub open spec fn number_texts(s: Seq<(u64, String)>) -> Seq<(u64, Seq<char>)> {
    Seq::new(s.len(), |i: int| (s[i].0, s[i].1@))
}

/// What is written of a map of ids.
pub open spec fn plain(m: HnswIdMap) -> Plain {
    (
        Seq::new(m.id_to_idx@.len(), |i: int| (m.id_to_idx@[i].0@, m.id_to_idx@[i].1 as u64)),
        Seq::new(m.idx_to_id@.len(), |i: int| (m.idx_to_id@[i].0 as u64, m.idx_to_id@[i].1@)),
        m.next_idx as u64,
        text::views(m.tombstones@),
    )
}

/// Whether every number is one of this machine's.
pub open spec fn fits(p: Plain) -> bool {
    &&& forall|i: int| 0 <= i < p.0.len() ==> (#[trigger] p.0[i]).1 <= usize::MAX
    &&& forall|i: int| 0 <= i < p.1.len() ==> (#[trigger] p.1[i]).0 <= usize::MAX
    &&& p.2 <= usize::MAX
}

/// The bytes that a map of ids is written as.
pub uninterp spec fn packed(p: Plain) -> Seq<u8>;

/// What bytes are read as, if they can be read.
pub uninterp spec fn unpacked(bytes: Seq<u8>) -> Option<Plain>;

/// What was written, if it was.
pub open spec fn written(r: Result<Vec<u8>, String>) -> Option<Seq<u8>> {
    match r {
        Ok(b) => Some(b@),
        Err(_) => None,
    }
}

/// The four parts of a map of ids.
pub open spec fn parts(
    id_to_idx: Seq<(String, u64)>,
    idx_to_id: Seq<(u64, String)>,
    next_idx: u64,
    tombstones: Seq<String>,
) -> Plain {
    (text_numbers(id_to_idx), number_texts(idx_to_id), next_idx, text::views(tombstones))
}

/// What was read, if it was.
pub open spec fn read(
    r: Result<(Vec<(String, u64)>, Vec<(u64, String)>, u64, Vec<String>), String>,
) -> Option<Plain> {
    match r {
        Ok(p) => Some(parts(p.0@, p.1@, p.2, p.3@)),
        Err(_) => None,
    }
}

/// Whether bytes are read as given parts.
pub open spec fn reads_as(bytes: Seq<u8>, p: Plain) -> bool {
    unpacked(bytes) == Some(p)
}

/// Calls `bincode::serialize` on the four parts of a map of ids as one tuple. It does not
/// fail: it writes texts, numbers and sequences whose lengths are known to memory, without
/// a limit on their size. What it writes, `bincode::deserialize` reads back as it was.
/// What the bytes are is not said.
#[verifier::external_body]
fn pack(
    id_to_idx: &Vec<(String, u64)>,
    idx_to_id: &Vec<(u64, String)>,
    next_idx: u64,
    tombstones: &Vec<String>,
) -> (r: Result<Vec<u8>, String>)
    ensures
        written(r) == Some(packed(parts(id_to_idx@, idx_to_id@, next_idx, tombstones@))),
        r matches Ok(b) ==> reads_as(b@, parts(id_to_idx@, idx_to_id@, next_idx, tombstones@)),
{
    bincode::serialize(&(id_to_idx, idx_to_id, next_idx, tombstones)).map_err(|e| e.to_string())
}

/// Calls `bincode::deserialize` for the four parts of a map of ids as one tuple, and
/// turns its error into text. What is read from given bytes is not said here, nor the
/// text of an error, which depends on the machine.
#[verifier::external_body]
fn unpack(bytes: &[u8]) -> (r: Result<(Vec<(String, u64)>, Vec<(u64, String)>, u64, Vec<String>), String>)
    ensures
        read(r) == unpacked(bytes@),
{
    bincode::deserialize(bytes).map_err(|e| e.to_string())
}

/// The bytes of a map of ids. Every map has some, and they are read as the map.
pub fn encode_id_map(m: &HnswIdMap) -> (r: Result<Vec<u8>, String>)
    ensures
        written(r) == Some(packed(plain(*m))),
        reads_as(packed(plain(*m)), plain(*m)),
{
    let mut id_to_idx: Vec<(String, u64)> = Vec::new();
    let mut i: usize = 0;
    while i < m.id_to_idx.len()
        invariant
            i <= m.id_to_idx.len(),
            id_to_idx.len() == i,
            forall|j: int| 0 <= j < i ==> (#[trigger] id_to_idx@[j]).0@ == m.id_to_idx@[j].0@ && id_to_idx@[j].1
                == m.id_to_idx@[j].1,
        decreases m.id_to_idx.len() - i,
    {
        id_to_idx.push((own(m.id_to_idx[i].0.as_str()), m.id_to_idx[i].1 as u64));
        i += 1;
    }
    let mut idx_to_id: Vec<(u64, String)> = Vec::new();
    let mut i: usize = 0;
    while i < m.idx_to_id.len()
        invariant
            i <= m.idx_to_id.len(),
            idx_to_id.len() == i,
            forall|j: int| 0 <= j < i ==> (#[trigger] idx_to_id@[j]).0 == m.idx_to_id@[j].0 && idx_to_id@[j].1@
                == m.idx_to_id@[j].1@,
        decreases m.idx_to_id.len() - i,
    {
        idx_to_id.push((m.idx_to_id[i].0 as u64, own(m.idx_to_id[i].1.as_str())));
        i += 1;
    }
    proof {
        assert(text_numbers(id_to_idx@) =~= plain(*m).0);
        assert(number_texts(idx_to_id@) =~= plain(*m).1);
    }
    match pack(&id_to_idx, &idx_to_id, m.next_idx as u64, &m.tombstones) {
        Ok(b) => Ok(b),
        Err(e) => Err(cat2("idmap serialisation failed: ", e.as_str())),
    }
}

/// The map of ids of what was read, where every number is one of this machine's.
pub fn id_map_of(
    id_to_idx: &Vec<(String, u64)>,
    idx_to_id: &Vec<(u64, String)>,
    next_idx: u64,
    tombstones: &Vec<String>,
) -> (r: Option<HnswIdMap>)
    ensures
        r matches Some(m) ==> plain(m) == parts(id_to_idx@, idx_to_id@, next_idx, tombstones@),
        r is Some <==> fits(parts(id_to_idx@, idx_to_id@, next_idx, tombstones@)),
{
    let ghost p = parts(id_to_idx@, idx_to_id@, next_idx, tombstones@);
    let most: u64 = usize::MAX as u64;
    if next_idx > most {
        return None;
    }
    let mut slots: Vec<(String, usize)> = Vec::new();
    let mut i: usize = 0;
    while i < id_to_idx.len()
        invariant
            i <= id_to_idx.len(),
            most == usize::MAX,
            p == parts(id_to_idx@, idx_to_id@, next_idx, tombstones@),
            slots.len() == i,
            forall|j: int| 0 <= j < i ==> (#[trigger] slots@[j]).0@ == id_to_idx@[j].0@ && slots@[j].1
                == id_to_idx@[j].1,
        decreases id_to_idx.len() - i,
    {
        let n: u64 = id_to_idx[i].1;
        if n > most {
            assert(p.0[i as int].1 > usize::MAX);
            return None;
        }
        slots.push((own(id_to_idx[i].0.as_str()), n as usize));
        i += 1;
    }
    let mut ids: Vec<(usize, String)> = Vec::new();
    let mut i: usize = 0;
    while i < idx_to_id.len()
        invariant
            i <= idx_to_id.len(),
            most == usize::MAX,
            p == parts(id_to_idx@, idx_to_id@, next_idx, tombstones@),
            ids.len() == i,
            forall|j: int| 0 <= j < i ==> (#[trigger] ids@[j]).0 == idx_to_id@[j].0 && ids@[j].1@ == idx_to_id@[j].1@,
        decreases idx_to_id.len() - i,
    {
        let n: u64 = idx_to_id[i].0;
        if n > most {
            assert(p.1[i as int].0 > usize::MAX);
            return None;
        }
        ids.push((n as usize, own(idx_to_id[i].1.as_str())));
        i += 1;
    }
    let m = HnswIdMap {
        id_to_idx: slots,
        idx_to_id: ids,
        next_idx: next_idx as usize,
        tombstones: clone_texts(tombstones),
    };
    proof {
        assert(plain(m).0 =~= p.0);
        assert(plain(m).1 =~= p.1);
        assert forall|i: int| 0 <= i < p.0.len() implies (#[trigger] p.0[i]).1 <= usize::MAX by {
            assert(slots@[i].1 == id_to_idx@[i].1);
        }
        assert forall|i: int| 0 <= i < p.1.len() implies (#[trigger] p.1[i]).0 <= usize::MAX by {
            assert(ids@[i].0 == idx_to_id@[i].0);
        }
    }
    Some(m)
}

/// Whether bytes are refused with a message: they cannot be read, or a number in them is
/// not one of this machine's.
pub open spec fn refused(bytes: Seq<u8>, message: Seq<char>) -> bool {
    match unpacked(bytes) {
        Some(p) => !fits(p) && message == "idmap deserialise failed: slot out of range"@,
        None => text::has_prefix(message, "idmap deserialise failed: "@),
    }
}

/// The map of ids that bytes hold.
pub fn decode_id_map(bytes: &[u8]) -> (r: Result<HnswIdMap, String>)
    ensures
        match r {
            Ok(m) => reads_as(bytes@, plain(m)),
            Err(e) => refused(bytes@, e@),
        },
{
    match unpack(bytes) {
        Ok(p) => match id_map_of(&p.0, &p.1, p.2, &p.3) {
            Some(m) => Ok(m),
            None => Err(own("idmap deserialise failed: slot out of range")),
        },
        Err(e) => {
            let told = cat2("idmap deserialise failed: ", e.as_str());
            assert(told@.subrange(0, "idmap deserialise failed: "@.len() as int) =~= "idmap deserialise failed: "@);
            Err(told)
        },
    }
}

/// Whether bytes hold a map of ids that stands for an index.
pub open spec fn holds(bytes: Seq<u8>, v: IndexView) -> bool {
    exists|m: HnswIdMap| #[trigger] reads_as(bytes, plain(m)) && m@ == v
}

/// The bytes of what is saved of an index beside its graph.
pub fn saved_id_map(index: &HnswIndex) -> (r: Result<Vec<u8>, String>)
    ensures
        r matches Ok(b) && holds(b@, index@),
{
    let m = index.snapshot_id_maps();
    encode_id_map(&m)
}

/// The index that was saved, from the bytes beside its graph.
pub fn restored_index(dimensions: usize, bytes: &[u8]) -> (r: Result<HnswIndex, String>)
    ensures
        match r {
            Ok(i) => holds(bytes@, i@) && i.dims() == dimensions && (i@.well_formed() ==> i.counted()),
            Err(e) => refused(bytes@, e@),
        },
{
    match decode_id_map(bytes) {
        Ok(m) => {
            proof {
                assert(reads_as(bytes@, plain(m)));
            }
            Ok(HnswIndex::from_snapshot(dimensions, &m))
        },
        Err(e) => Err(e),
    }
}

proof fn lemma_same_slots(a: Seq<(String, usize)>, b: Seq<(String, usize)>)
    requires
        a.len() == b.len(),
        forall|i: int| 0 <= i < a.len() ==> (#[trigger] a[i]).0@ == b[i].0@ && a[i].1 == b[i].1,
    ensures
        index::slots_of(a) == index::slots_of(b),
    decreases a.len(),
{
    if a.len() > 0 {
        lemma_same_slots(a.drop_last(), b.drop_last());
        assert(a.last() == a[a.len() - 1]);
    }
}

proof fn lemma_same_ids(a: Seq<(usize, String)>, b: Seq<(usize, String)>)
    requires
        a.len() == b.len(),
        forall|i: int| 0 <= i < a.len() ==> (#[trigger] a[i]).1@ == b[i].1@ && a[i].0 == b[i].0,
    ensures
        index::ids_of(a) == index::ids_of(b),
    decreases a.len(),
{
    if a.len() > 0 {
        lemma_same_ids(a.drop_last(), b.drop_last());
        assert(a.last() == a[a.len() - 1]);
    }
}

proof fn lemma_same_names(a: Seq<String>, b: Seq<String>)
    requires
        text::views(a) == text::views(b),
    ensures
        index::names_of(a) == index::names_of(b),
    decreases a.len(),
{
    assert(text::views(a).len() == a.len());
    assert(text::views(b).len() == b.len());
    if a.len() > 0 {
        assert(text::views(a.drop_last()) =~= text::views(a).drop_last());
        assert(text::views(b.drop_last()) =~= text::views(b).drop_last());
        lemma_same_names(a.drop_last(), b.drop_last());
        assert(text::views(a)[a.len() - 1] == a.last()@);
        assert(text::views(b)[a.len() - 1] == b.last()@);
    }
}

/// Maps of ids of which the same is written stand for the same index.
pub proof fn lemma_plain_determines(a: HnswIdMap, b: HnswIdMap)
    requires
        plain(a) == plain(b),
    ensures
        a@ == b@,
{
    assert(plain(a).0.len() == a.id_to_idx@.len());
    assert(plain(b).0.len() == b.id_to_idx@.len());
    assert forall|i: int| 0 <= i < a.id_to_idx@.len() implies (#[trigger] a.id_to_idx@[i]).0@ == b.id_to_idx@[i].0@
        && a.id_to_idx@[i].1 == b.id_to_idx@[i].1 by {
        assert(plain(a).0[i] == plain(b).0[i]);
    }
    lemma_same_slots(a.id_to_idx@, b.id_to_idx@);
    assert(plain(a).1.len() == a.idx_to_id@.len());
    assert(plain(b).1.len() == b.idx_to_id@.len());
    assert forall|i: int| 0 <= i < a.idx_to_id@.len() implies (#[trigger] a.idx_to_id@[i]).1@ == b.idx_to_id@[i].1@
        && a.idx_to_id@[i].0 == b.idx_to_id@[i].0 by {
        assert(plain(a).1[i] == plain(b).1[i]);
    }
    lemma_same_ids(a.idx_to_id@, b.idx_to_id@);
    lemma_same_names(a.tombstones@, b.tombstones@);
}

/// An index is restored from the bytes that were saved of it, and as it was: its bytes
/// hold no other index, and they are read.
pub proof fn lemma_saved_is_restored(bytes: Seq<u8>, saved: IndexView, restored: IndexView)
    requires
        holds(bytes, saved),
        holds(bytes, restored),
    ensures
        restored == saved,
        unpacked(bytes) matches Some(p) && fits(p),
{
    let a = choose|m: HnswIdMap| #[trigger] reads_as(bytes, plain(m)) && m@ == saved;
    let b = choose|m: HnswIdMap| #[trigger] reads_as(bytes, plain(m)) && m@ == restored;
    lemma_plain_determines(a, b);
}

/// What is saved of an index and read again is the index as it was, with counts that
/// agree.
pub proof fn lemma_round_trip(bytes: Seq<u8>, saved: HnswIndex, restored: HnswIndex)
    requires
        saved.counted(),
        holds(bytes, saved@),
        holds(bytes, restored@),
        restored@.well_formed() ==> restored.counted(),
    ensures
        restored@ == saved@,
        restored.counted(),
{
    index::lemma_counted(saved);
    lemma_saved_is_restored(bytes, saved@, restored@);
}

} // verus!
