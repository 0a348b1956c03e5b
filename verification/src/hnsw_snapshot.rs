//! Snapshots of vector indexes: their names, their checksum and when one is accepted.

use sha2::{Digest, Sha256};

use vstd::prelude::*;
use vstd::string::*;

use crate::index::{HnswIndex, EF_CONSTRUCTION, MAX_ELEMENTS, MAX_NB_CONNECTION};
use crate::text;
use crate::text::{cat2, cat3, cat4, cat5, chars_of, decimal, decimal_usize, own, text_equal};

verus! {

/// The hexadecimal digit of a number below sixteen.
pub open spec fn hex_digit(d: nat) -> char {
    if d < 10 {
        text::digit_char(d)
    } else if d == 10 {
        'a'
    } else if d == 11 {
        'b'
    } else if d == 12 {
        'c'
    } else if d == 13 {
        'd'
    } else if d == 14 {
        'e'
    } else {
        'f'
    }
}

/// The last `n` digits of the hexadecimal numeral of `x`.
pub open spec fn hex(x: nat, n: nat) -> Seq<char>
    decreases n,
{
    if n == 0 {
        Seq::empty()
    } else {
        hex(x / 16, (n - 1) as nat).push(hex_digit(x % 16))
    }
}

fn hex_digit_str(d: u64) -> (s: &'static str)
    requires
        d < 16,
    ensures
        s@ == seq![hex_digit(d as nat)],
{
    proof {
        reveal_strlit("0");
        reveal_strlit("1");
        reveal_strlit("2");
        reveal_strlit("3");
        reveal_strlit("4");
        reveal_strlit("5");
        reveal_strlit("6");
        reveal_strlit("7");
        reveal_strlit("8");
        reveal_strlit("9");
        reveal_strlit("a");
        reveal_strlit("b");
        reveal_strlit("c");
        reveal_strlit("d");
        reveal_strlit("e");
        reveal_strlit("f");
    }
    let s = match d {
        0 => "0",
        1 => "1",
        2 => "2",
        3 => "3",
        4 => "4",
        5 => "5",
        6 => "6",
        7 => "7",
        8 => "8",
        9 => "9",
        10 => "a",
        11 => "b",
        12 => "c",
        13 => "d",
        14 => "e",
        _ => "f",
    };
    assert(s@ =~= seq![hex_digit(d as nat)]);
    s
}

/// The last `n` digits of the hexadecimal numeral of `x`.
pub fn hexadecimal(x: u64, n: u64) -> (s: String)
    ensures
        s@ == hex(x as nat, n as nat),
    decreases n,
{
    if n == 0 {
        let s = String::new();
        assert(s@ =~= hex(x as nat, 0));
        s
    } else {
        let mut s = hexadecimal(x / 16, n - 1);
        s.append(hex_digit_str(x % 16));
        assert(s@ =~= hex(x as nat, n as nat));
        s
    }
}

/// The version of the snapshots that are written.
pub const SNAPSHOT_VERSION: u32 = 1;

/// What is written beside a snapshot.
#[derive(Debug)]
pub struct HnswSnapshotMeta {
    pub version: u32,
    pub entity_count: usize,
    pub lsn: u64,
    pub checksum: String,
    pub max_nb_connection: usize,
    pub max_elements: usize,
    pub ef_construction: usize,
    pub dimensions: usize,
}

/// The digest of bytes under SHA-256.
pub uninterp spec fn sha256(bytes: Seq<u8>) -> Seq<u8>;

/// Calls `Sha256::new`, `update` on each part and `finalize` of the `sha2` crate: the
/// digest, of 32 bytes, of the parts put together. What the digest is of given bytes is
/// not said.
#[verifier::external_body]
fn digest_parts(first: &[u8], second: &[u8], third: &[u8]) -> (r: Vec<u8>)
    ensures
        r@ == sha256(first@ + second@ + third@),
        r@.len() == 32,
{
    let mut hasher = Sha256::new();
    hasher.update(first);
    hasher.update(second);
    hasher.update(third);
    hasher.finalize().to_vec()
}

/// Bytes as hexadecimal numerals, two digits each.
pub open spec fn hex_bytes(b: Seq<u8>) -> Seq<char>
    decreases b.len(),
{
    if b.len() == 0 {
        Seq::empty()
    } else {
        hex_bytes(b.drop_last()) + hex(b.last() as nat, 2)
    }
}

/// Bytes as hexadecimal numerals.
pub fn hex_of(b: &Vec<u8>) -> (s: String)
    ensures
        s@ == hex_bytes(b@),
{
    let mut s = String::new();
    let ghost all = b@;
    let mut i: usize = 0;
    proof {
        assert(s@ =~= hex_bytes(all.subrange(0, 0)));
    }
    while i < b.len()
        invariant
            i <= b.len(),
            all == b@,
            s@ == hex_bytes(all.subrange(0, i as int)),
        decreases b.len() - i,
    {
        proof {
            let next = all.subrange(0, i as int + 1);
            assert(next.drop_last() =~= all.subrange(0, i as int));
            assert(next.last() == all[i as int]);
        }
        let digits = hexadecimal(b[i] as u64, 2);
        s.append(digits.as_str());
        i += 1;
    }
    assert(all.subrange(0, all.len() as int) =~= all);
    s
}

/// The checksum of a snapshot, given the digest of its files.
pub open spec fn checksum_text(digest: Seq<u8>) -> Seq<char> {
    "sha256:"@ + hex_bytes(digest)
}

/// The checksum of a snapshot, given the digest of its files.
pub fn checksum_of_digest(digest: &Vec<u8>) -> (s: String)
    ensures
        s@ == checksum_text(digest@),
{
    let hex = hex_of(digest);
    cat2("sha256:", hex.as_str())
}

/// The checksum of a snapshot: of its graph, its data and its map of ids.
pub fn checksum(graph: &[u8], data: &[u8], idmap: &[u8]) -> (s: String)
    ensures
        s@ == checksum_text(sha256(graph@ + data@ + idmap@)),
{
    let digest = digest_parts(graph, data, idmap);
    checksum_of_digest(&digest)
}

/// What is written beside a snapshot of an index.
pub fn snapshot_meta(index: &HnswIndex, lsn: u64, checksum: String) -> (m: HnswSnapshotMeta)
    requires
        index.counted(),
    ensures
        m.version == SNAPSHOT_VERSION,
        m.entity_count == index@.live_count(),
        m.lsn == lsn,
        m.checksum == checksum,
        m.max_nb_connection == MAX_NB_CONNECTION,
        m.max_elements == MAX_ELEMENTS,
        m.ef_construction == EF_CONSTRUCTION,
        m.dimensions == index.dims(),
{
    HnswSnapshotMeta {
        version: SNAPSHOT_VERSION,
        entity_count: index.len(),
        lsn,
        checksum,
        max_nb_connection: MAX_NB_CONNECTION,
        max_elements: MAX_ELEMENTS,
        ef_construction: EF_CONSTRUCTION,
        dimensions: index.dimensions(),
    }
}

/// Three numbers with commas between them.
pub open spec fn three(a: nat, b: nat, c: nat) -> Seq<char> {
    text::dec(a) + ","@ + text::dec(b) + ","@ + text::dec(c)
}

/// Why a snapshot does not fit this engine: its version, or how its graph was made.
pub open spec fn misfit(m: HnswSnapshotMeta) -> Option<Seq<char>> {
    if m.version != SNAPSHOT_VERSION {
        Some("unsupported snapshot version: "@ + text::dec(m.version as nat))
    } else if m.max_nb_connection != MAX_NB_CONNECTION || m.max_elements != MAX_ELEMENTS || m.ef_construction
        != EF_CONSTRUCTION {
        Some(
            "HNSW parameter mismatch: snapshot("@ + three(
                m.max_nb_connection as nat,
                m.max_elements as nat,
                m.ef_construction as nat,
            ) + ") != current("@ + three(
                MAX_NB_CONNECTION as nat,
                MAX_ELEMENTS as nat,
                EF_CONSTRUCTION as nat,
            ) + ")"@,
        )
    } else {
        None
    }
}

/// Why a snapshot is refused, given the checksum of its files.
pub open spec fn fault(m: HnswSnapshotMeta, computed: Seq<char>) -> Option<Seq<char>> {
    match misfit(m) {
        Some(e) => Some(e),
        None => if computed != m.checksum@ {
            Some("checksum mismatch: computed "@ + computed + " != stored "@ + m.checksum@)
        } else {
            None
        },
    }
}

fn three_text(a: usize, b: usize, c: usize) -> (s: String)
    ensures
        s@ == three(a as nat, b as nat, c as nat),
{
    let x = decimal_usize(a);
    let y = decimal_usize(b);
    let z = decimal_usize(c);
    cat5(x.as_str(), ",", y.as_str(), ",", z.as_str())
}

/// Whether a snapshot is accepted, given the checksum of its files.
pub fn check_meta(m: &HnswSnapshotMeta, computed: &str) -> (r: Result<(), String>)
    ensures
        match r {
            Ok(_) => fault(*m, computed@) is None,
            Err(e) => fault(*m, computed@) == Some(e@),
        },
{
    if m.version != SNAPSHOT_VERSION {
        let v = decimal(m.version as u64);
        return Err(cat2("unsupported snapshot version: ", v.as_str()));
    }
    if m.max_nb_connection != MAX_NB_CONNECTION || m.max_elements != MAX_ELEMENTS || m.ef_construction
        != EF_CONSTRUCTION {
        let theirs = three_text(m.max_nb_connection, m.max_elements, m.ef_construction);
        let ours = three_text(MAX_NB_CONNECTION, MAX_ELEMENTS, EF_CONSTRUCTION);
        return Err(
            cat5(
                "HNSW parameter mismatch: snapshot(",
                theirs.as_str(),
                ") != current(",
                ours.as_str(),
                ")",
            ),
        );
    }
    if !text_equal(computed, m.checksum.as_str()) {
        return Err(cat4("checksum mismatch: computed ", computed, " != stored ", m.checksum.as_str()));
    }
    Ok(())
}

/// Whether a snapshot is accepted, given its files.
pub fn check_snapshot(m: &HnswSnapshotMeta, graph: &[u8], data: &[u8], idmap: &[u8]) -> (r: Result<(), String>)
    ensures
        match r {
            Ok(_) => fault(*m, checksum_text(sha256(graph@ + data@ + idmap@))) is None,
            Err(e) => fault(*m, checksum_text(sha256(graph@ + data@ + idmap@))) == Some(e@),
        },
{
    let computed = checksum(graph, data, idmap);
    check_meta(m, computed.as_str())
}

/// The name that the files of a snapshot begin with.
pub fn basename(collection: &str, repr_name: &str) -> (s: String)
    ensures
        s@ == collection@ + "_"@ + repr_name@,
{
    cat3(collection, "_", repr_name)
}

/// The place of the first colon.
pub open spec fn colon_place(s: Seq<char>) -> Option<int>
    decreases s.len(),
{
    if s.len() == 0 {
        None
    } else {
        match colon_place(s.drop_last()) {
            Some(i) => Some(i),
            None => if s.last() == ':' {
                Some(s.len() - 1)
            } else {
                None
            },
        }
    }
}

proof fn lemma_colon(s: Seq<char>, i: int)
    requires
        0 <= i < s.len(),
        s[i] == ':',
        forall|j: int| 0 <= j < i ==> s[j] != ':',
    ensures
        colon_place(s) == Some(i),
    decreases s.len(),
{
    if i < s.len() - 1 {
        lemma_colon(s.drop_last(), i);
    } else {
        lemma_no_colon(s.drop_last());
    }
}

proof fn lemma_no_colon(s: Seq<char>)
    requires
        forall|j: int| 0 <= j < s.len() ==> s[j] != ':',
    ensures
        colon_place(s) is None,
    decreases s.len(),
{
    if s.len() > 0 {
        lemma_no_colon(s.drop_last());
    }
}

/// The collection and the representation of the key of a vector index: what stands
/// before and after its first colon.
pub fn split_key(key: &str) -> (r: Option<(String, String)>)
    ensures
        match r {
            Some(p) => colon_place(key@) matches Some(i) && p.0@ == key@.subrange(0, i) && p.1@ == key@.subrange(
                i + 1,
                key@.len() as int,
            ),
            None => colon_place(key@) is None,
        },
{
    let cs = chars_of(key);
    let mut i: usize = 0;
    while i < cs.len()
        invariant
            i <= cs.len(),
            cs@ == key@,
            forall|j: int| 0 <= j < i ==> cs@[j] != ':',
        decreases cs.len() - i,
    {
        if cs[i] == ':' {
            proof {
                lemma_colon(key@, i as int);
            }
            let before = own(key.substring_char(0, i));
            let after = own(key.substring_char(i + 1, cs.len()));
            return Some((before, after));
        }
        i += 1;
    }
    proof {
        lemma_no_colon(key@);
    }
    None
}

proof fn lemma_hex_digit_injective(a: nat, b: nat)
    requires
        a < 16,
        b < 16,
        hex_digit(a) == hex_digit(b),
    ensures
        a == b,
{
}

proof fn lemma_hex_byte(x: u8)
    ensures
        hex(x as nat, 2) == seq![
            hex_digit((x / 16) as nat),
            hex_digit((x % 16) as nat),
        ],
{
    reveal_with_fuel(hex, 3);
    assert(hex(x as nat, 2) =~= seq![
        hex_digit((x / 16) as nat),
        hex_digit((x % 16) as nat),
    ]);
}

/// Bytes are told apart by their numerals.
pub proof fn lemma_hex_bytes_injective(a: Seq<u8>, b: Seq<u8>)
    requires
        a.len() == b.len(),
        hex_bytes(a) == hex_bytes(b),
    ensures
        a == b,
    decreases a.len(),
{
    if a.len() == 0 {
        assert(a =~= b);
    } else {
        let x = a.last();
        let y = b.last();
        lemma_hex_byte(x);
        lemma_hex_byte(y);
        let n = hex_bytes(a).len() as int;
        let ha = hex_bytes(a.drop_last());
        let hb = hex_bytes(b.drop_last());
        assert(ha =~= hex_bytes(a).subrange(0, n - 2));
        assert(hb =~= hex_bytes(b).subrange(0, n - 2));
        assert(hex_bytes(a)[n - 2] == hex_digit((x / 16) as nat));
        assert(hex_bytes(b)[n - 2] == hex_digit((y / 16) as nat));
        assert(hex_bytes(a)[n - 1] == hex_digit((x % 16) as nat));
        assert(hex_bytes(b)[n - 1] == hex_digit((y % 16) as nat));
        lemma_hex_digit_injective((x / 16) as nat, (y / 16) as nat);
        lemma_hex_digit_injective((x % 16) as nat, (y % 16) as nat);
        lemma_hex_bytes_injective(a.drop_last(), b.drop_last());
        assert(a =~= a.drop_last().push(x));
        assert(b =~= b.drop_last().push(y));
    }
}

/// A snapshot that was saved is accepted exactly where its files have the digest that
/// they had: always where they are what they were.
pub proof fn lemma_saved_is_accepted(m: HnswSnapshotMeta, saved: Seq<u8>, found: Seq<u8>)
    requires
        m.version == SNAPSHOT_VERSION,
        m.max_nb_connection == MAX_NB_CONNECTION,
        m.max_elements == MAX_ELEMENTS,
        m.ef_construction == EF_CONSTRUCTION,
        m.checksum@ == checksum_text(sha256(saved)),
        sha256(saved).len() == sha256(found).len(),
    ensures
        saved == found ==> fault(m, checksum_text(sha256(found))) is None,
        fault(m, checksum_text(sha256(found))) is None <==> sha256(found) == sha256(saved),
{
    let a = sha256(saved);
    let b = sha256(found);
    if checksum_text(a) == checksum_text(b) {
        let p = "sha256:"@;
        assert(hex_bytes(a) =~= checksum_text(a).subrange(p.len() as int, checksum_text(a).len() as int));
        assert(hex_bytes(b) =~= checksum_text(b).subrange(p.len() as int, checksum_text(b).len() as int));
        lemma_hex_bytes_injective(a, b);
    }
}

/// The key of a vector index splits into its collection and its representation, where
/// the collection has no colon in its name.
pub proof fn lemma_split_key(collection: Seq<char>, repr_name: Seq<char>)
    requires
        !collection.contains(':'),
    ensures
        colon_place(crate::fetch::scoped(collection, repr_name)) == Some(collection.len() as int),
        crate::fetch::scoped(collection, repr_name).subrange(0, collection.len() as int) == collection,
        crate::fetch::scoped(collection, repr_name).subrange(
            collection.len() as int + 1,
            crate::fetch::scoped(collection, repr_name).len() as int,
        ) == repr_name,
{
    reveal_strlit(":");
    let key = crate::fetch::scoped(collection, repr_name);
    assert(key[collection.len() as int] == ':');
    assert forall|j: int| 0 <= j < collection.len() implies key[j] != ':' by {
        assert(collection[j] == key[j]);
        assert(collection.contains(collection[j]));
    }
    lemma_colon(key, collection.len() as int);
    assert(key.subrange(0, collection.len() as int) =~= collection);
    assert(key.subrange(collection.len() as int + 1, key.len() as int) =~= repr_name);
}

} // verus!
