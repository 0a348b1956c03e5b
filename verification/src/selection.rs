//! Sequences that hold what is made of some items of another, in order.

use vstd::prelude::*;

verus! {

/// Whether `out` is made of the items of `src` at the places `p`, which are those of the
/// items to keep, in increasing order.
pub open spec fn picks<A, B>(
    src: Seq<A>,
    out: Seq<B>,
    p: Seq<int>,
    keep: spec_fn(A) -> bool,
    make: spec_fn(A) -> B,
) -> bool {
    &&& p.len() == out.len()
    &&& forall|i: int| 0 <= i < p.len() ==> 0 <= #[trigger] p[i] < src.len()
    &&& forall|i: int| 0 <= i < p.len() ==> keep(src[#[trigger] p[i]])
    &&& forall|i: int| 0 <= i < p.len() ==> #[trigger] out[i] == make(src[p[i]])
    &&& forall|i: int, j: int| 0 <= i < j < p.len() ==> #[trigger] p[i] < #[trigger] p[j]
    &&& forall|k: int| 0 <= k < src.len() && keep(#[trigger] src[k]) ==> p.contains(k)
}

/// Whether `out` is made of exactly the items of `src` to keep, each once and in their
/// order.
pub open spec fn is_selection<A, B>(
    src: Seq<A>,
    out: Seq<B>,
    keep: spec_fn(A) -> bool,
    make: spec_fn(A) -> B,
) -> bool {
    exists|p: Seq<int>| #[trigger] picks(src, out, p, keep, make)
}

/// Nothing is selected from nothing.
pub proof fn lemma_selection_empty<A, B>(src: Seq<A>, out: Seq<B>, keep: spec_fn(A) -> bool, make: spec_fn(A) -> B)
    requires
        src.len() == 0,
        out.len() == 0,
    ensures
        is_selection(src, out, keep, make),
{
    assert(picks(src, out, Seq::empty(), keep, make));
}

/// A selection grows with its source: by what is made of the item added, where that is
/// to keep.
pub proof fn lemma_selection_grows<A, B>(
    src: Seq<A>,
    before: Seq<B>,
    after: Seq<B>,
    keep: spec_fn(A) -> bool,
    make: spec_fn(A) -> B,
)
    requires
        src.len() > 0,
        is_selection(src.drop_last(), before, keep, make),
        after == (if keep(src.last()) {
            before.push(make(src.last()))
        } else {
            before
        }),
    ensures
        is_selection(src, after, keep, make),
{
    let head = src.drop_last();
    let n = head.len() as int;
    let p = choose|p: Seq<int>| #[trigger] picks(head, before, p, keep, make);
    let q = if keep(src.last()) {
        p.push(n)
    } else {
        p
    };
    assert(src[n] == src.last());
    assert forall|i: int| 0 <= i < q.len() implies 0 <= #[trigger] q[i] < src.len() by {
        if i < p.len() {
            assert(q[i] == p[i]);
        }
    }
    assert forall|i: int| 0 <= i < q.len() implies keep(src[#[trigger] q[i]]) && after[i] == make(src[q[i]]) by {
        if i < p.len() {
            assert(q[i] == p[i]);
            assert(keep(head[p[i]]));
            assert(before[i] == make(head[p[i]]));
            assert(src[p[i]] == head[p[i]]);
        }
    }
    assert forall|i: int, j: int| 0 <= i < j < q.len() implies #[trigger] q[i] < #[trigger] q[j] by {
        assert(q[i] == p[i]);
        if j < p.len() {
            assert(q[j] == p[j]);
        }
    }
    assert forall|k: int| 0 <= k < src.len() && keep(#[trigger] src[k]) implies q.contains(k) by {
        if k < n {
            assert(head[k] == src[k]);
            let i = choose|i: int| 0 <= i < p.len() && p[i] == k;
            assert(q[i] == k);
        } else {
            assert(q[p.len() as int] == k);
        }
    }
    assert(picks(src, after, q, keep, make));
}

/// What is to keep and stands before another item to keep is selected before it.
pub proof fn lemma_selection_order<A, B>(
    src: Seq<A>,
    out: Seq<B>,
    keep: spec_fn(A) -> bool,
    make: spec_fn(A) -> B,
    a: int,
    b: int,
)
    requires
        is_selection(src, out, keep, make),
        0 <= a < b < src.len(),
        keep(src[a]),
        keep(src[b]),
    ensures
        exists|i: int, j: int|
            #![trigger out[i], out[j]]
            0 <= i < j < out.len() && out[i] == make(src[a]) && out[j] == make(src[b]),
{
    let p = choose|p: Seq<int>| #[trigger] picks(src, out, p, keep, make);
    let i = choose|i: int| 0 <= i < p.len() && p[i] == a;
    let j = choose|j: int| 0 <= j < p.len() && p[j] == b;
    if j < i {
        assert(p[j] < p[i]);
    }
    assert(out[i] == make(src[p[i]]) && out[j] == make(src[p[j]]));
}

/// Whether `b` is made of an item of `src` that is to keep.
pub open spec fn made_of<A, B>(src: Seq<A>, b: B, keep: spec_fn(A) -> bool, make: spec_fn(A) -> B) -> bool {
    exists|k: int| 0 <= k < src.len() && keep(#[trigger] src[k]) && b == make(src[k])
}

/// Exactly what is made of the items to keep is selected.
pub proof fn lemma_selection_members<A, B>(src: Seq<A>, out: Seq<B>, keep: spec_fn(A) -> bool, make: spec_fn(A) -> B)
    requires
        is_selection(src, out, keep, make),
    ensures
        out.len() <= src.len(),
        forall|k: int| 0 <= k < src.len() && keep(#[trigger] src[k]) ==> out.contains(make(src[k])),
        forall|i: int| 0 <= i < out.len() ==> made_of(src, #[trigger] out[i], keep, make),
{
    let p = choose|p: Seq<int>| #[trigger] picks(src, out, p, keep, make);
    assert forall|k: int| 0 <= k < src.len() && keep(#[trigger] src[k]) implies out.contains(make(src[k])) by {
        let i = choose|i: int| 0 <= i < p.len() && p[i] == k;
        assert(out[i] == make(src[p[i]]));
    }
    assert forall|i: int| 0 <= i < out.len() implies made_of(src, #[trigger] out[i], keep, make) by {
        assert(keep(src[p[i]]) && out[i] == make(src[p[i]]));
    }
    lemma_increasing_bounded(p, src.len() as int);
}

proof fn lemma_increasing_bounded(p: Seq<int>, n: int)
    requires
        forall|i: int| 0 <= i < p.len() ==> 0 <= #[trigger] p[i] < n,
        forall|i: int, j: int| 0 <= i < j < p.len() ==> #[trigger] p[i] < #[trigger] p[j],
        n >= 0,
    ensures
        p.len() <= n,
    decreases p.len(),
{
    if p.len() > 0 {
        let head = p.drop_last();
        assert forall|i: int| 0 <= i < head.len() implies 0 <= #[trigger] head[i] < p.last() by {
            assert(head[i] == p[i]);
            assert(p[i] < p[p.len() - 1]);
        }
        assert forall|i: int, j: int| 0 <= i < j < head.len() implies #[trigger] head[i] < #[trigger] head[j] by {
            assert(p[i] < p[j]);
        }
        assert(0 <= p[p.len() - 1] < n);
        lemma_increasing_bounded(head, p.last());
    }
}

/// Where every item is to keep, each is selected at its own place.
pub proof fn lemma_selection_all<A, B>(src: Seq<A>, out: Seq<B>, keep: spec_fn(A) -> bool, make: spec_fn(A) -> B)
    requires
        is_selection(src, out, keep, make),
        forall|k: int| 0 <= k < src.len() ==> keep(#[trigger] src[k]),
    ensures
        out.len() == src.len(),
        forall|k: int| 0 <= k < src.len() ==> #[trigger] out[k] == make(src[k]),
{
    let p = choose|p: Seq<int>| #[trigger] picks(src, out, p, keep, make);
    lemma_selection_members(src, out, keep, make);
    assert forall|k: int| 0 <= k < src.len() implies #[trigger] p.contains(k) by {
        assert(keep(src[k]));
    }
    lemma_places_all(p, src.len() as int);
    assert forall|k: int| 0 <= k < src.len() implies #[trigger] out[k] == make(src[k]) by {
        assert(p[k] == k);
    }
}

proof fn lemma_places_all(p: Seq<int>, n: int)
    requires
        n >= 0,
        forall|i: int| 0 <= i < p.len() ==> 0 <= #[trigger] p[i] < n,
        forall|i: int, j: int| 0 <= i < j < p.len() ==> #[trigger] p[i] < #[trigger] p[j],
        forall|k: int| 0 <= k < n ==> #[trigger] p.contains(k),
    ensures
        p.len() == n,
        forall|k: int| 0 <= k < n ==> #[trigger] p[k] == k,
    decreases n,
{
    if n > 0 {
        assert(p.contains(n - 1));
        let a = choose|a: int| 0 <= a < p.len() && p[a] == n - 1;
        if a < p.len() - 1 {
            assert(p[a] < p[p.len() - 1]);
        }
        let head = p.drop_last();
        assert forall|i: int| 0 <= i < head.len() implies 0 <= #[trigger] head[i] < n - 1 by {
            assert(head[i] == p[i]);
            assert(p[i] < p[p.len() - 1]);
        }
        assert forall|i: int, j: int| 0 <= i < j < head.len() implies #[trigger] head[i] < #[trigger] head[j] by {
            assert(p[i] < p[j]);
        }
        assert forall|k: int| 0 <= k < n - 1 implies #[trigger] head.contains(k) by {
            assert(p.contains(k));
            let i = choose|i: int| 0 <= i < p.len() && p[i] == k;
            assert(head[i] == k);
        }
        lemma_places_all(head, n - 1);
        assert forall|k: int| 0 <= k < n implies #[trigger] p[k] == k by {
            if k < n - 1 {
                assert(head[k] == k);
            }
        }
    } else if p.len() > 0 {
        assert(0 <= p[0] < n);
    }
}

} // verus!
