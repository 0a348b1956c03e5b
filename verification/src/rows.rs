//! Result rows: projection, ordering and column lists.

use vstd::prelude::*;
use vstd::string::*;

use crate::fields::FieldMap;
use crate::filter;
use crate::sort;
use crate::sort::{stable_sort, Comparator};
use crate::text;
use crate::text::{contains_text, own, text_equal, text_less};
use crate::types::Entity;
use crate::value;
use crate::value::{id_value, rank_values, Rank, Val, Value};

verus! {

/// One row of a result. A score is held as the bits of a single.
#[derive(Debug)]
pub struct Row {
    pub values: FieldMap,
    pub score: Option<u32>,
}

/// The model of a [`Row`].
pub struct RowView {
    pub values: Map<Seq<char>, Val>,
    pub score: Option<u32>,
}

impl View for Row {
    type V = RowView;

    open spec fn view(&self) -> RowView {
        RowView { values: self.values@, score: self.score }
    }
}

impl Clone for Row {
    fn clone(&self) -> (r: Self)
        ensures
            r@ == self@,
    {
        Row { values: self.values.clone(), score: self.score }
    }
}

/// The views of a sequence of rows.
pub open spec fn row_views(s: Seq<Row>) -> Seq<RowView> {
    s.map_values(|r: Row| r@)
}

/// The fields that a query asks for.
#[derive(Debug)]
pub enum FieldList {
    All,
    Named(Vec<String>),
}

/// The fields of the row of an entity: its id, and its stored fields or those
/// named, a named field that is not stored being null.
pub open spec fn projected(id: Seq<char>, m: Map<Seq<char>, Val>, fields: FieldList) -> Map<Seq<char>, Val> {
    match fields {
        FieldList::All => Map::new(
            |k: Seq<char>| k == filter::id_field() || m.contains_key(k),
            |k: Seq<char>|
                if m.contains_key(k) {
                    m[k]
                } else {
                    Val::Str(id)
                },
        ),
        FieldList::Named(names) => Map::new(
            |k: Seq<char>| k == filter::id_field() || text::views(names@).contains(k),
            |k: Seq<char>|
                if k == filter::id_field() {
                    Val::Str(id)
                } else if m.contains_key(k) {
                    m[k]
                } else {
                    Val::Null
                },
        ),
    }
}

/// The row of an entity.
pub fn entity_to_row(entity: &Entity, fields: &FieldList) -> (r: Row)
    ensures
        r@.values == projected(entity.id@, entity.metadata@, *fields),
        r@.score is None,
{
    let ghost id = entity.id@;
    let ghost m = entity.metadata@;
    let mut values = FieldMap::new();
    values.insert(own("id"), id_value(&entity.id));
    match fields {
        FieldList::All => {
            let keys = entity.metadata.keys();
            let ghost ks = text::views(keys@);
            let mut i: usize = 0;
            while i < keys.len()
                invariant
                    i <= keys.len(),
                    ks == text::views(keys@),
                    ks.len() == keys@.len(),
                    id == entity.id@,
                    m == entity.metadata@,
                    forall|k: Seq<char>| ks.contains(k) <==> #[trigger] m.contains_key(k),
                    forall|k: Seq<char>| #[trigger]
                        values@.contains_key(k) <==> k == filter::id_field() || ks.subrange(0, i as int).contains(
                            k,
                        ),
                    forall|k: Seq<char>| #[trigger]
                        values@.contains_key(k) ==> values@[k] == (if ks.subrange(0, i as int).contains(k) {
                            m[k]
                        } else {
                            Val::Str(id)
                        }),
                decreases keys.len() - i,
            {
                let ghost done = ks.subrange(0, i as int);
                let ghost next = ks.subrange(0, i as int + 1);
                proof {
                    assert(ks[i as int] == keys@[i as int]@);
                    assert(ks.contains(keys@[i as int]@));
                    assert(next =~= done.push(ks[i as int]));
                    assert forall|k: Seq<char>| next.contains(k) <==> done.contains(k) || k == ks[i as int] by {
                        if done.contains(k) {
                            let a = choose|a: int| 0 <= a < done.len() && done[a] == k;
                            assert(next[a] == k);
                        }
                        if k == ks[i as int] {
                            assert(next[i as int] == k);
                        }
                        if next.contains(k) {
                            let a = choose|a: int| 0 <= a < next.len() && next[a] == k;
                            if a < i {
                                assert(done[a] == k);
                            }
                        }
                    }
                }
                match entity.metadata.get(keys[i].as_str()) {
                    Some(v) => {
                        values.insert(keys[i].clone(), v.clone());
                    },
                    None => {
                        assert(false);
                    },
                }
                i += 1;
            }
            assert(ks.subrange(0, ks.len() as int) =~= ks);
            assert(values@ =~= projected(id, m, *fields));
        },
        FieldList::Named(names) => {
            let ghost ns = text::views(names@);
            let mut i: usize = 0;
            while i < names.len()
                invariant
                    i <= names.len(),
                    ns == text::views(names@),
                    ns.len() == names@.len(),
                    id == entity.id@,
                    m == entity.metadata@,
                    forall|k: Seq<char>| #[trigger]
                        values@.contains_key(k) <==> k == filter::id_field() || ns.subrange(0, i as int).contains(
                            k,
                        ),
                    forall|k: Seq<char>| #[trigger]
                        values@.contains_key(k) ==> values@[k] == (if k == filter::id_field() {
                            Val::Str(id)
                        } else if m.contains_key(k) {
                            m[k]
                        } else {
                            Val::Null
                        }),
                decreases names.len() - i,
            {
                let ghost done = ns.subrange(0, i as int);
                let ghost next = ns.subrange(0, i as int + 1);
                proof {
                    assert(ns[i as int] == names@[i as int]@);
                    assert forall|k: Seq<char>| next.contains(k) <==> done.contains(k) || k == ns[i as int] by {
                        if done.contains(k) {
                            let a = choose|a: int| 0 <= a < done.len() && done[a] == k;
                            assert(next[a] == k);
                        }
                        if k == ns[i as int] {
                            assert(next[i as int] == k);
                        }
                        if next.contains(k) {
                            let a = choose|a: int| 0 <= a < next.len() && next[a] == k;
                            if a < i {
                                assert(done[a] == k);
                            }
                        }
                    }
                }
                if !text_equal(names[i].as_str(), "id") {
                    match entity.metadata.get(names[i].as_str()) {
                        Some(v) => {
                            values.insert(names[i].clone(), v.clone());
                        },
                        None => {
                            values.insert(names[i].clone(), Value::Null);
                        },
                    }
                }
                i += 1;
            }
            assert(ns.subrange(0, ns.len() as int) =~= ns);
            assert(values@ =~= projected(id, m, *fields));
        },
    }
    Row { values, score: None }
}

/// The direction of an ORDER BY term.
#[derive(Clone, Copy, PartialEq, Eq, Structural, Debug)]
pub enum SortDirection {
    Asc,
    Desc,
}

/// One ORDER BY term.
#[derive(Debug)]
pub struct OrderByClause {
    pub field: String,
    pub direction: SortDirection,
}

/// How two rows are ordered by one term.
pub open spec fn clause_rank(a: Map<Seq<char>, Val>, b: Map<Seq<char>, Val>, c: OrderByClause) -> Rank {
    let r = value::val_rank(filter::field_of(a, c.field@), filter::field_of(b, c.field@));
    match c.direction {
        SortDirection::Asc => r,
        SortDirection::Desc => r.flipped(),
    }
}

/// How two rows are ordered: by the first term that tells them apart.
pub open spec fn order_rank(a: Map<Seq<char>, Val>, b: Map<Seq<char>, Val>, order_by: Seq<OrderByClause>) -> Rank
    decreases order_by.len(),
{
    if order_by.len() == 0 {
        Rank::Equal
    } else {
        let r = clause_rank(a, b, order_by[0]);
        if r == Rank::Equal {
            order_rank(a, b, order_by.drop_first())
        } else {
            r
        }
    }
}

struct RowOrder<'a> {
    order_by: &'a Vec<OrderByClause>,
}

impl<'a> Comparator<Row> for RowOrder<'a> {
    closed spec fn rank(&self, a: Row, b: Row) -> Rank {
        order_rank(a.values@, b.values@, self.order_by@)
    }

    fn compare(&self, a: &Row, b: &Row) -> (r: Rank) {
        let mut i: usize = 0;
        let ghost order = self.order_by@;
        proof {
            assert(order.skip(0) =~= order);
        }
        while i < self.order_by.len()
            invariant
                i <= self.order_by.len(),
                order == self.order_by@,
                order_rank(a.values@, b.values@, order) == order_rank(
                    a.values@,
                    b.values@,
                    order.skip(i as int),
                ),
            decreases self.order_by.len() - i,
        {
            let c = &self.order_by[i];
            let r = rank_values(a.values.get(c.field.as_str()), b.values.get(c.field.as_str()));
            let r = match c.direction {
                SortDirection::Asc => r,
                SortDirection::Desc => r.flip(),
            };
            proof {
                assert(order.skip(i as int)[0] == order[i as int]);
                assert(order.skip(i as int).drop_first() =~= order.skip(i as int + 1));
            }
            if r != Rank::Equal {
                return r;
            }
            i += 1;
        }
        Rank::Equal
    }
}

/// The comparison of rows that ORDER BY terms define.
pub open spec fn row_rank(order_by: Seq<OrderByClause>) -> spec_fn(RowView, RowView) -> Rank {
    |a: RowView, b: RowView| order_rank(a.values, b.values, order_by)
}

/// Orders rows by ORDER BY terms. Rows that no term tells apart keep their order.
pub fn sort_rows(rows: &mut Vec<Row>, order_by: &Vec<OrderByClause>)
    ensures
        sort::stably_sorted(row_views(old(rows)@), row_views(final(rows)@), row_rank(order_by@)),
        order_by@.len() == 0 ==> final(rows)@ == old(rows)@,
{
    let ghost before = rows@;
    let ghost bv = row_views(before);
    let ghost rank = row_rank(order_by@);
    if order_by.len() == 0 {
        proof {
            let p = Seq::new(before.len(), |i: int| i);
            assert(sort::arrangement(bv, row_views(rows@), p));
            assert(sort::in_order(row_views(rows@), p, rank));
        }
        return;
    }
    let by = RowOrder { order_by };
    stable_sort(rows, &by);
    proof {
        let f = |a: Row, b: Row| by.rank(a, b);
        let view = |r: Row| r@;
        assert forall|a: Row, b: Row| #[trigger] f(a, b) == rank(view(a), view(b)) by {}
        sort::lemma_sorted_views(before, rows@, f, view, rank);
    }
}

/// Keeps at most `limit` rows, from the front.
pub fn limit_rows(rows: &mut Vec<Row>, limit: Option<usize>)
    ensures
        final(rows)@ == limited(old(rows)@, limit),
{
    if let Some(n) = limit {
        rows.truncate(n);
    }
}

/// The first `limit` items, or all where there is no limit.
pub open spec fn limited<A>(s: Seq<A>, limit: Option<usize>) -> Seq<A> {
    match limit {
        Some(n) => if n <= s.len() {
            s.subrange(0, n as int)
        } else {
            s
        },
        None => s,
    }
}

struct TextOrder;

impl Comparator<String> for TextOrder {
    closed spec fn rank(&self, a: String, b: String) -> Rank {
        value::rank_by(text::text_lt(a@, b@), text::text_lt(b@, a@))
    }

    fn compare(&self, a: &String, b: &String) -> (r: Rank) {
        if text_less(a.as_str(), b.as_str()) {
            Rank::Less
        } else if text_less(b.as_str(), a.as_str()) {
            Rank::Greater
        } else {
            Rank::Equal
        }
    }
}

/// Whether texts stand in strictly increasing order.
pub open spec fn strictly_increasing(s: Seq<Seq<char>>) -> bool {
    forall|i: int, j: int|
        #![trigger s[i], s[j]]
        0 <= i < j < s.len() ==> text::text_lt(s[i], s[j])
}

proof fn lemma_text_order_total(items: Seq<String>)
    ensures
        sort::total_on(items, |a: String, b: String| TextOrder.rank(a, b)),
{
    let rank = |a: String, b: String| TextOrder.rank(a, b);
    assert forall|i: int, j: int|
        #![trigger items[i], items[j]]
        0 <= i < items.len() && 0 <= j < items.len() implies rank(items[j], items[i]) == rank(
        items[i],
        items[j],
    ).flipped() by {
        let a = vstd::utf8::encode_utf8(items[i]@);
        let b = vstd::utf8::encode_utf8(items[j]@);
        if text::bytes_lt(a, b) && text::bytes_lt(b, a) {
            text::lemma_bytes_lt_transitive(a, b, a);
            text::lemma_bytes_lt_irreflexive(a);
        }
    }
    assert forall|i: int, j: int, k: int|
        #![trigger items[i], items[j], items[k]]
        0 <= i < items.len() && 0 <= j < items.len() && 0 <= k < items.len() && rank(items[i], items[j])
            != Rank::Greater && rank(items[j], items[k]) != Rank::Greater implies rank(items[i], items[k])
        != Rank::Greater by {
        let a = vstd::utf8::encode_utf8(items[i]@);
        let b = vstd::utf8::encode_utf8(items[j]@);
        let c = vstd::utf8::encode_utf8(items[k]@);
        text::lemma_bytes_lt_total(a, b);
        text::lemma_bytes_lt_total(b, c);
        if text::bytes_lt(c, a) && !text::bytes_lt(a, c) {
            if text::bytes_lt(a, b) && text::bytes_lt(b, c) {
                text::lemma_bytes_lt_transitive(a, b, c);
            } else if a == b {
            } else if b == c {
            }
        }
    }
}

/// Puts distinct texts in increasing order.
fn sort_names(names: &mut Vec<String>)
    requires
        text::views(old(names)@).no_duplicates(),
    ensures
        strictly_increasing(text::views(final(names)@)),
        final(names)@.len() == old(names)@.len(),
        forall|k: Seq<char>| #[trigger]
            text::views(final(names)@).contains(k) <==> text::views(old(names)@).contains(k),
{
    let ghost before = names@;
    let by = TextOrder;
    stable_sort(names, &by);
    proof {
        let rank = |a: String, b: String| by.rank(a, b);
        assert(rank =~= (|a: String, b: String| TextOrder.rank(a, b)));
        let after = names@;
        lemma_text_order_total(before);
        let p = choose|p: Seq<int>|
            #[trigger] sort::arrangement(before, after, p) && (sort::total_on(before, rank) ==> sort::in_order(
                after,
                p,
                rank,
            ));
        let bv = text::views(before);
        let av = text::views(after);
        assert forall|i: int, j: int|
            #![trigger av[i], av[j]]
            0 <= i < j < av.len() implies text::text_lt(av[i], av[j]) by {
            assert(after[i] == before[p[i]]);
            assert(after[j] == before[p[j]]);
            assert(p[i] != p[j]);
            assert(bv[p[i]] != bv[p[j]]);
            let a = vstd::utf8::encode_utf8(av[i]);
            let b = vstd::utf8::encode_utf8(av[j]);
            text::lemma_bytes_lt_total(a, b);
            if a == b {
                text::lemma_encode_utf8_injective(av[i], av[j]);
            }
            assert(rank(after[i], after[j]) != Rank::Greater);
        }
        assert forall|k: Seq<char>| #[trigger] av.contains(k) <==> bv.contains(k) by {
            if av.contains(k) {
                let i = choose|i: int| 0 <= i < av.len() && av[i] == k;
                assert(after[i] == before[p[i]]);
                assert(bv[p[i]] == k);
            }
            if bv.contains(k) {
                let i = choose|i: int| 0 <= i < bv.len() && bv[i] == k;
                sort::lemma_arrangement_onto(p, i);
                let j = choose|j: int| 0 <= j < p.len() && p[j] == i;
                assert(after[j] == before[p[j]]);
                assert(av[j] == k);
            }
        }
    }
}

/// Whether some row has the field `k`.
pub open spec fn some_row_has(rows: Seq<Row>, k: Seq<char>) -> bool {
    exists|i: int| 0 <= i < rows.len() && (#[trigger] rows[i]).values@.contains_key(k)
}

/// The names of the fields that occur in rows, each once.
fn field_names(rows: &Vec<Row>, without_id: bool) -> (names: Vec<String>)
    ensures
        text::views(names@).no_duplicates(),
        forall|k: Seq<char>| #[trigger]
            text::views(names@).contains(k) <==> some_row_has(rows@, k) && !(without_id && k
                == filter::id_field()),
{
    let mut names: Vec<String> = Vec::new();
    let mut i: usize = 0;
    while i < rows.len()
        invariant
            i <= rows.len(),
            text::views(names@).no_duplicates(),
            forall|k: Seq<char>| #[trigger]
                text::views(names@).contains(k) <==> some_row_has(rows@.subrange(0, i as int), k) && !(
                without_id && k == filter::id_field()),
        decreases rows.len() - i,
    {
        let keys = rows[i].values.keys();
        let ghost ks = text::views(keys@);
        let ghost m = rows@[i as int].values@;
        let ghost start = text::views(names@);
        let mut j: usize = 0;
        while j < keys.len()
            invariant
                j <= keys.len(),
                ks == text::views(keys@),
                ks.len() == keys@.len(),
                text::views(names@).no_duplicates(),
                forall|k: Seq<char>| #[trigger]
                    text::views(names@).contains(k) <==> start.contains(k) || (ks.subrange(0, j as int).contains(k)
                        && !(without_id && k == filter::id_field())),
            decreases keys.len() - j,
        {
            let ghost done = ks.subrange(0, j as int);
            let ghost next = ks.subrange(0, j as int + 1);
            let ghost before = text::views(names@);
            proof {
                assert(ks[j as int] == keys@[j as int]@);
                assert forall|k: Seq<char>| next.contains(k) <==> done.contains(k) || k == ks[j as int] by {
                    if done.contains(k) {
                        let a = choose|a: int| 0 <= a < done.len() && done[a] == k;
                        assert(next[a] == k);
                    }
                    if k == ks[j as int] {
                        assert(next[j as int] == k);
                    }
                    if next.contains(k) {
                        let a = choose|a: int| 0 <= a < next.len() && next[a] == k;
                        if a < j {
                            assert(done[a] == k);
                        }
                    }
                }
            }
            if !(without_id && text_equal(keys[j].as_str(), "id")) && !contains_text(&names, keys[j].as_str()) {
                names.push(keys[j].clone());
                proof {
                    lemma_push_name(before, text::views(names@), ks[j as int]);
                }
            }
            j += 1;
        }
        proof {
            assert(ks.subrange(0, ks.len() as int) =~= ks);
            let sub = rows@.subrange(0, i as int);
            let sub1 = rows@.subrange(0, i as int + 1);
            assert forall|k: Seq<char>| #[trigger] some_row_has(sub1, k) <==> some_row_has(sub, k)
                || m.contains_key(k) by {
                if some_row_has(sub, k) {
                    let a = choose|a: int| 0 <= a < sub.len() && (#[trigger] sub[a]).values@.contains_key(k);
                    assert(sub1[a].values@.contains_key(k));
                }
                if m.contains_key(k) {
                    assert(sub1[i as int].values@.contains_key(k));
                }
                if some_row_has(sub1, k) {
                    let a = choose|a: int| 0 <= a < sub1.len() && (#[trigger] sub1[a]).values@.contains_key(k);
                    if a < i {
                        assert(sub[a].values@.contains_key(k));
                    }
                }
            }
        }
        i += 1;
    }
    assert(rows@.subrange(0, rows@.len() as int) =~= rows@);
    names
}

proof fn lemma_push_name(before: Seq<Seq<char>>, after: Seq<Seq<char>>, x: Seq<char>)
    requires
        after =~= before.push(x),
        !before.contains(x),
        before.no_duplicates(),
    ensures
        after.no_duplicates(),
        forall|k: Seq<char>| #[trigger] after.contains(k) <==> before.contains(k) || k == x,
{
    assert forall|k: Seq<char>| #[trigger] after.contains(k) <==> before.contains(k) || k == x by {
        if before.contains(k) {
            let a = choose|a: int| 0 <= a < before.len() && before[a] == k;
            assert(after[a] == k);
        }
        if k == x {
            assert(after[before.len() as int] == k);
        }
    }
}

/// The columns of named fields: the id, then each other name where it first occurs.
pub open spec fn named_columns(names: Seq<Seq<char>>) -> Seq<Seq<char>>
    decreases names.len(),
{
    if names.len() == 0 {
        seq![filter::id_field()]
    } else {
        let cols = named_columns(names.drop_last());
        if cols.contains(names.last()) {
            cols
        } else {
            cols.push(names.last())
        }
    }
}

/// Whether `cols` is the id followed by every other field of the rows, in
/// increasing order.
pub open spec fn all_columns(rows: Seq<Row>, cols: Seq<Seq<char>>) -> bool {
    &&& cols.len() > 0
    &&& cols[0] == filter::id_field()
    &&& strictly_increasing(cols.drop_first())
    &&& forall|k: Seq<char>| #[trigger]
        cols.drop_first().contains(k) <==> some_row_has(rows, k) && k != filter::id_field()
}

/// The columns of a result.
pub fn build_columns(rows: &Vec<Row>, fields: &FieldList) -> (cols: Vec<String>)
    ensures
        match *fields {
            FieldList::Named(names) => text::views(cols@) == named_columns(text::views(names@)),
            FieldList::All => all_columns(rows@, text::views(cols@)),
        },
{
    match fields {
        FieldList::Named(names) => {
            let mut cols: Vec<String> = Vec::new();
            cols.push(own("id"));
            let ghost ns = text::views(names@);
            proof {
                assert(text::views(cols@) =~= named_columns(ns.subrange(0, 0)));
                assert(text::views(cols@)[0] == filter::id_field());
            }
            let mut i: usize = 0;
            while i < names.len()
                invariant
                    i <= names.len(),
                    ns == text::views(names@),
                    ns.len() == names@.len(),
                    text::views(cols@) == named_columns(ns.subrange(0, i as int)),
                    text::views(cols@).contains(filter::id_field()),
                decreases names.len() - i,
            {
                let ghost before = text::views(cols@);
                proof {
                    let next = ns.subrange(0, i as int + 1);
                    assert(next.drop_last() =~= ns.subrange(0, i as int));
                    assert(next.last() == names@[i as int]@);
                }
                if !text_equal(names[i].as_str(), "id") && !contains_text(&cols, names[i].as_str()) {
                    cols.push(names[i].clone());
                    proof {
                        assert(text::views(cols@) =~= before.push(names@[i as int]@));
                        let a = choose|a: int| 0 <= a < before.len() && before[a] == filter::id_field();
                        assert(text::views(cols@)[a] == filter::id_field());
                    }
                }
                i += 1;
            }
            assert(ns.subrange(0, ns.len() as int) =~= ns);
            cols
        },
        FieldList::All => {
            let mut cols = field_names(rows, true);
            sort_names(&mut cols);
            let ghost sorted = text::views(cols@);
            cols.insert(0, own("id"));
            proof {
                assert(text::views(cols@).drop_first() =~= sorted);
            }
            cols
        },
    }
}

/// Whether `cols` is every field of the rows, in increasing order.
pub open spec fn sorted_columns(rows: Seq<Row>, cols: Seq<Seq<char>>) -> bool {
    &&& strictly_increasing(cols)
    &&& forall|k: Seq<char>| #[trigger] cols.contains(k) <==> some_row_has(rows, k)
}

/// Every field of the rows, in increasing order.
pub fn every_column(rows: &Vec<Row>) -> (cols: Vec<String>)
    ensures
        sorted_columns(rows@, text::views(cols@)),
{
    let mut cols = field_names(rows, false);
    sort_names(&mut cols);
    cols
}

} // verus!
