//! A stable sort by a comparison.

use vstd::prelude::*;

use crate::value::Rank;

verus! {

/// A comparison of two items.
pub trait Comparator<T> {
    /// How `a` stands to `b`.
    spec fn rank(&self, a: T, b: T) -> Rank;

    /// How `a` stands to `b`.
    fn compare(&self, a: &T, b: &T) -> (r: Rank)
        ensures
            r == self.rank(*a, *b),
    ;
}

/// Whether `new` holds the items of `old`, item `i` of it being item `p[i]` of `old`.
pub open spec fn arrangement<T>(old_items: Seq<T>, new_items: Seq<T>, p: Seq<int>) -> bool {
    &&& p.len() == old_items.len()
    &&& new_items.len() == old_items.len()
    &&& forall|i: int| 0 <= i < p.len() ==> 0 <= #[trigger] p[i] < old_items.len()
    &&& forall|i: int, j: int| 0 <= i < j < p.len() ==> #[trigger] p[i] != #[trigger] p[j]
    &&& forall|i: int| 0 <= i < p.len() ==> #[trigger] new_items[i] == old_items[p[i]]
}

/// Whether each item comes before every later one, or is equal to it and came
/// first before the sort.
pub open spec fn in_order<T>(new_items: Seq<T>, p: Seq<int>, rank: spec_fn(T, T) -> Rank) -> bool {
    forall|i: int, j: int|
        #![trigger new_items[i], new_items[j]]
        0 <= i < j < new_items.len() ==> {
            ||| rank(new_items[i], new_items[j]) == Rank::Less
            ||| rank(new_items[i], new_items[j]) == Rank::Equal && p[i] < p[j]
        }
}

/// Whether the comparison is a total preorder on the items.
pub open spec fn total_on<T>(items: Seq<T>, rank: spec_fn(T, T) -> Rank) -> bool {
    &&& forall|i: int, j: int|
        #![trigger items[i], items[j]]
        0 <= i < items.len() && 0 <= j < items.len() ==> rank(items[j], items[i]) == rank(
            items[i],
            items[j],
        ).flipped()
    &&& forall|i: int, j: int, k: int|
        #![trigger items[i], items[j], items[k]]
        0 <= i < items.len() && 0 <= j < items.len() && 0 <= k < items.len() && rank(items[i], items[j])
            != Rank::Greater && rank(items[j], items[k]) != Rank::Greater ==> rank(items[i], items[k])
            != Rank::Greater
}

/// Whether `new` is `old`, rearranged; and where the comparison is a total
/// preorder, in order, with equal items as they stood before.
pub open spec fn stably_sorted<T>(old_items: Seq<T>, new_items: Seq<T>, rank: spec_fn(T, T) -> Rank) -> bool {
    exists|p: Seq<int>|
        #[trigger] arrangement(old_items, new_items, p) && (total_on(old_items, rank) ==> in_order(
            new_items,
            p,
            rank,
        ))
}

/// What the first `n` items of a partly sorted vector satisfy.
spec fn sorted_prefix<T>(s: Seq<T>, p: Seq<int>, n: int, rank: spec_fn(T, T) -> Rank) -> bool {
    forall|i: int, j: int|
        #![trigger s[i], s[j]]
        0 <= i < j < n ==> {
            ||| rank(s[i], s[j]) == Rank::Less
            ||| rank(s[i], s[j]) == Rank::Equal && p[i] < p[j]
        }
}

proof fn lemma_total_on_arrangement<T>(
    old_items: Seq<T>,
    new_items: Seq<T>,
    p: Seq<int>,
    rank: spec_fn(T, T) -> Rank,
)
    requires
        arrangement(old_items, new_items, p),
        total_on(old_items, rank),
    ensures
        total_on(new_items, rank),
{
    assert forall|i: int, j: int|
        #![trigger new_items[i], new_items[j]]
        0 <= i < new_items.len() && 0 <= j < new_items.len() implies rank(new_items[j], new_items[i]) == rank(
        new_items[i],
        new_items[j],
    ).flipped() by {
        assert(new_items[i] == old_items[p[i]]);
        assert(new_items[j] == old_items[p[j]]);
    }
    assert forall|i: int, j: int, k: int|
        #![trigger new_items[i], new_items[j], new_items[k]]
        0 <= i < new_items.len() && 0 <= j < new_items.len() && 0 <= k < new_items.len() && rank(
            new_items[i],
            new_items[j],
        ) != Rank::Greater && rank(new_items[j], new_items[k]) != Rank::Greater implies rank(
        new_items[i],
        new_items[k],
    ) != Rank::Greater by {
        assert(new_items[i] == old_items[p[i]]);
        assert(new_items[j] == old_items[p[j]]);
        assert(new_items[k] == old_items[p[k]]);
    }
}

/// Moving item `i` of a sequence down to `j`.
spec fn moved<A>(s: Seq<A>, i: int, j: int) -> Seq<A> {
    s.remove(i).insert(j, s[i])
}

proof fn lemma_moved<A>(s: Seq<A>, i: int, j: int)
    requires
        0 <= j <= i < s.len(),
    ensures
        moved(s, i, j).len() == s.len(),
        forall|k: int|
            #![trigger moved(s, i, j)[k]]
            0 <= k < s.len() ==> moved(s, i, j)[k] == (if k < j {
                s[k]
            } else if k == j {
                s[i]
            } else if k <= i {
                s[k - 1]
            } else {
                s[k]
            }),
{
}

proof fn lemma_insert_step<T>(
    old_items: Seq<T>,
    s: Seq<T>,
    p: Seq<int>,
    i: int,
    j: int,
    rank: spec_fn(T, T) -> Rank,
)
    requires
        arrangement(old_items, s, p),
        0 <= j <= i < s.len(),
        forall|k: int| 0 <= k < i ==> 0 <= #[trigger] p[k] < i,
        forall|k: int| i <= k < s.len() ==> #[trigger] p[k] == k,
        total_on(old_items, rank) ==> sorted_prefix(s, p, i, rank),
        forall|k: int| j <= k < i ==> #[trigger] rank(s[k], s[i]) == Rank::Greater,
        j > 0 ==> rank(s[j - 1], s[i]) != Rank::Greater,
    ensures
        arrangement(old_items, moved(s, i, j), moved(p, i, j)),
        forall|k: int| 0 <= k < i + 1 ==> 0 <= #[trigger] moved(p, i, j)[k] < i + 1,
        forall|k: int| i + 1 <= k < s.len() ==> #[trigger] moved(p, i, j)[k] == k,
        total_on(old_items, rank) ==> sorted_prefix(moved(s, i, j), moved(p, i, j), i + 1, rank),
{
    let t = moved(s, i, j);
    let q = moved(p, i, j);
    lemma_moved(s, i, j);
    lemma_moved(p, i, j);
    assert(p[i] == i);
    assert forall|a: int, b: int| 0 <= a < b < q.len() implies #[trigger] q[a] != #[trigger] q[b] by {
        let a0 = if a < j { a } else if a == j { i } else if a <= i { a - 1 } else { a };
        let b0 = if b < j { b } else if b == j { i } else if b <= i { b - 1 } else { b };
        assert(q[a] == p[a0]);
        assert(q[b] == p[b0]);
        assert(a0 != b0);
        if a0 < b0 {
            assert(p[a0] != p[b0]);
        } else {
            assert(p[b0] != p[a0]);
        }
    }
    if total_on(old_items, rank) {
        lemma_total_on_arrangement(old_items, s, p, rank);
        assert forall|a: int, b: int|
            #![trigger t[a], t[b]]
            0 <= a < b < i + 1 implies {
            ||| rank(t[a], t[b]) == Rank::Less
            ||| rank(t[a], t[b]) == Rank::Equal && q[a] < q[b]
        } by {
            if a == j {
                assert(t[b] == s[b - 1]);
                assert(rank(s[b - 1], s[i]) == Rank::Greater);
                assert(rank(s[i], s[b - 1]) == rank(s[b - 1], s[i]).flipped());
            } else if b == j {
                assert(t[a] == s[a]);
                assert(rank(s[j - 1], s[i]) != Rank::Greater);
                if a < j - 1 {
                    assert(rank(s[a], s[j - 1]) != Rank::Greater);
                }
                assert(rank(s[a], s[i]) != Rank::Greater);
                assert(q[a] == p[a]);
                assert(q[b] == i);
            } else {
                let a0 = if a < j { a } else { a - 1 };
                let b0 = if b < j { b } else { b - 1 };
                assert(t[a] == s[a0]);
                assert(t[b] == s[b0]);
                assert(q[a] == p[a0]);
                assert(q[b] == p[b0]);
            }
        }
    }
}

/// Sorts items by a comparison. Equal items keep their order.
pub fn stable_sort<T, C: Comparator<T>>(items: &mut Vec<T>, by: &C)
    ensures
        stably_sorted(old(items)@, final(items)@, |a: T, b: T| by.rank(a, b)),
{
    let ghost before = items@;
    let ghost rank = |a: T, b: T| by.rank(a, b);
    let ghost mut p: Seq<int> = Seq::new(items@.len(), |i: int| i);
    let mut i: usize = 0;
    while i < items.len()
        invariant
            i <= items.len(),
            items@.len() == before.len(),
            rank == (|a: T, b: T| by.rank(a, b)),
            arrangement(before, items@, p),
            forall|k: int| 0 <= k < i ==> 0 <= #[trigger] p[k] < i,
            forall|k: int| i <= k < items@.len() ==> #[trigger] p[k] == k,
            total_on(before, rank) ==> sorted_prefix(items@, p, i as int, rank),
        decreases items.len() - i,
    {
        let mut j: usize = i;
        while j > 0 && by.compare(&items[j - 1], &items[i]) == Rank::Greater
            invariant
                j <= i,
                i < items.len(),
                rank == (|a: T, b: T| by.rank(a, b)),
                forall|k: int| j <= k < i ==> #[trigger] rank(items@[k], items@[i as int]) == Rank::Greater,
            decreases j,
        {
            j -= 1;
        }
        proof {
            lemma_insert_step(before, items@, p, i as int, j as int, rank);
            p = moved(p, i as int, j as int);
        }
        let x = items.remove(i);
        items.insert(j, x);
        i += 1;
    }
    proof {
        if total_on(before, rank) {
            assert(in_order(items@, p, rank));
        }
        assert(arrangement(before, items@, p));
    }
}

/// An injection of `0..n` into itself reaches every index.
pub proof fn lemma_arrangement_onto(p: Seq<int>, i: int)
    requires
        forall|k: int| 0 <= k < p.len() ==> 0 <= #[trigger] p[k] < p.len(),
        forall|a: int, b: int| 0 <= a < b < p.len() ==> #[trigger] p[a] != #[trigger] p[b],
        0 <= i < p.len(),
    ensures
        exists|j: int| 0 <= j < p.len() && p[j] == i,
{
    let n = p.len() as int;
    let all = vstd::set_lib::set_int_range(0, n);
    vstd::set_lib::lemma_int_range(0, n);
    assert(p.no_duplicates());
    p.unique_seq_to_set();
    assert(p.to_set().subset_of(all));
    vstd::set_lib::lemma_subset_equality(p.to_set(), all);
    assert(p.to_set().contains(i));
}

/// A rearrangement holds the same items, each as often.
pub proof fn lemma_arrangement_multiset<T>(old_items: Seq<T>, new_items: Seq<T>, p: Seq<int>)
    requires
        arrangement(old_items, new_items, p),
    ensures
        old_items.to_multiset() == new_items.to_multiset(),
    decreases old_items.len(),
{
    broadcast use vstd::seq_lib::group_to_multiset_ensures;

    if old_items.len() == 0 {
        assert(old_items =~= new_items);
    } else {
        let last = old_items.len() - 1;
        let at = p[last];
        let fewer = old_items.remove(at);
        let head = new_items.drop_last();
        let q = Seq::new(
            last as nat,
            |i: int|
                if p[i] > at {
                    p[i] - 1
                } else {
                    p[i]
                },
        );
        assert forall|i: int| 0 <= i < q.len() implies #[trigger] head[i] == fewer[q[i]] by {
            assert(p[i] != p[last]);
            assert(new_items[i] == old_items[p[i]]);
        }
        assert forall|i: int| 0 <= i < q.len() implies 0 <= #[trigger] q[i] < fewer.len() by {
            assert(p[i] != p[last]);
            assert(0 <= p[i] < old_items.len());
        }
        assert forall|i: int, j: int| 0 <= i < j < q.len() implies #[trigger] q[i] != #[trigger] q[j] by {
            assert(p[i] != p[j]);
            assert(p[i] != p[last]);
            assert(p[j] != p[last]);
        }
        assert(arrangement(fewer, head, q));
        lemma_arrangement_multiset(fewer, head, q);
        assert(new_items[last] == old_items[at]);
        assert(head.push(new_items.last()) =~= new_items);
        assert(fewer.to_multiset().insert(old_items[at]) =~= old_items.to_multiset());
        assert(head.push(new_items.last()).to_multiset() =~= head.to_multiset().insert(new_items.last()));
    }
}

/// A sort by what is seen of the items sorts what is seen of them.
pub proof fn lemma_sorted_views<T, V>(
    old_items: Seq<T>,
    new_items: Seq<T>,
    rank: spec_fn(T, T) -> Rank,
    view: spec_fn(T) -> V,
    view_rank: spec_fn(V, V) -> Rank,
)
    requires
        stably_sorted(old_items, new_items, rank),
        forall|a: T, b: T| #[trigger] rank(a, b) == view_rank(view(a), view(b)),
    ensures
        stably_sorted(old_items.map_values(view), new_items.map_values(view), view_rank),
{
    let bv = old_items.map_values(view);
    let av = new_items.map_values(view);
    let p = choose|p: Seq<int>|
        #[trigger] arrangement(old_items, new_items, p) && (total_on(old_items, rank) ==> in_order(
            new_items,
            p,
            rank,
        ));
    assert forall|i: int| 0 <= i < p.len() implies #[trigger] av[i] == bv[p[i]] by {
        assert(new_items[i] == old_items[p[i]]);
    }
    assert(arrangement(bv, av, p));
    if total_on(bv, view_rank) {
        assert forall|i: int, j: int|
            #![trigger old_items[i], old_items[j]]
            0 <= i < old_items.len() && 0 <= j < old_items.len() implies rank(old_items[j], old_items[i]) == rank(
            old_items[i],
            old_items[j],
        ).flipped() by {
            assert(view_rank(bv[j], bv[i]) == view_rank(bv[i], bv[j]).flipped());
        }
        assert forall|i: int, j: int, k: int|
            #![trigger old_items[i], old_items[j], old_items[k]]
            0 <= i < old_items.len() && 0 <= j < old_items.len() && 0 <= k < old_items.len() && rank(
                old_items[i],
                old_items[j],
            ) != Rank::Greater && rank(old_items[j], old_items[k]) != Rank::Greater implies rank(
            old_items[i],
            old_items[k],
        ) != Rank::Greater by {
            assert(view_rank(bv[i], bv[j]) != Rank::Greater);
            assert(view_rank(bv[j], bv[k]) != Rank::Greater);
            assert(view_rank(bv[i], bv[k]) != Rank::Greater);
        }
        assert(total_on(old_items, rank));
        assert forall|i: int, j: int|
            #![trigger av[i], av[j]]
            0 <= i < j < av.len() implies {
            ||| view_rank(av[i], av[j]) == Rank::Less
            ||| view_rank(av[i], av[j]) == Rank::Equal && p[i] < p[j]
        } by {
            assert(rank(new_items[i], new_items[j]) == view_rank(av[i], av[j]));
        }
        assert(in_order(av, p, view_rank));
    }
}

proof fn lemma_same_start<T>(
    old_items: Seq<T>,
    a: Seq<T>,
    b: Seq<T>,
    p: Seq<int>,
    q: Seq<int>,
    rank: spec_fn(T, T) -> Rank,
    k: int,
)
    requires
        arrangement(old_items, a, p),
        arrangement(old_items, b, q),
        in_order(a, p, rank),
        in_order(b, q, rank),
        total_on(old_items, rank),
        0 <= k <= p.len(),
    ensures
        forall|i: int| 0 <= i < k ==> #[trigger] p[i] == q[i],
    decreases k,
{
    if k > 0 {
        let m = k - 1;
        lemma_same_start(old_items, a, b, p, q, rank, m);
        if p[m] != q[m] {
            lemma_arrangement_onto(q, p[m]);
            lemma_arrangement_onto(p, q[m]);
            let u = choose|j: int| 0 <= j < q.len() && q[j] == p[m];
            let w = choose|j: int| 0 <= j < p.len() && p[j] == q[m];
            if u < m {
                assert(p[u] == q[u]);
            }
            if w < m {
                assert(p[w] == q[w]);
            }
            assert(a[m] == old_items[p[m]] && a[w] == old_items[q[m]]);
            assert(b[m] == old_items[q[m]] && b[u] == old_items[p[m]]);
            assert(rank(a[m], a[w]) == rank(a[w], a[m]).flipped());
            assert(rank(old_items[p[m]], old_items[q[m]]) == rank(old_items[q[m]], old_items[p[m]]).flipped());
        }
    }
}

/// There is only one stable order: two sorts of the same items agree.
pub proof fn lemma_stable_order_unique<T>(old_items: Seq<T>, a: Seq<T>, b: Seq<T>, rank: spec_fn(T, T) -> Rank)
    requires
        stably_sorted(old_items, a, rank),
        stably_sorted(old_items, b, rank),
        total_on(old_items, rank),
    ensures
        a == b,
{
    let p = choose|p: Seq<int>| #[trigger] arrangement(old_items, a, p) && in_order(a, p, rank);
    let q = choose|q: Seq<int>| #[trigger] arrangement(old_items, b, q) && in_order(b, q, rank);
    lemma_same_start(old_items, a, b, p, q, rank, p.len() as int);
    assert forall|i: int| 0 <= i < a.len() implies a[i] == b[i] by {
        assert(p[i] == q[i]);
        assert(a[i] == old_items[p[i]]);
        assert(b[i] == old_items[q[i]]);
    }
    assert(a =~= b);
}

} // verus!
