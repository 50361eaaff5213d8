//! Stable sorting by a strict order.
use vstd::prelude::*;

verus! {

/// `x` put into `s`: after every item that it need not stand before.
pub open spec fn inserted<T>(s: Seq<T>, x: T, before: spec_fn(T, T) -> bool) -> Seq<T>
    decreases s.len(),
{
    if s.len() > 0 && before(x, s.last()) {
        inserted(s.drop_last(), x, before).push(s.last())
    } else {
        s.push(x)
    }
}

/// The items in order, those that neither stand before the other as they were.
pub open spec fn stably_sorted<T>(s: Seq<T>, before: spec_fn(T, T) -> bool) -> Seq<T>
    decreases s.len(),
{
    if s.len() == 0 {
        s
    } else {
        inserted(stably_sorted(s.drop_last(), before), s.last(), before)
    }
}

/// Whether `before` orders the items of `s` up to ties: nothing stands before itself,
/// and what stands before an item stands before one of its tied items or behind them.
pub open spec fn orders<T>(s: Seq<T>, before: spec_fn(T, T) -> bool) -> bool {
    &&& forall|x: T| #![trigger s.contains(x)] s.contains(x) ==> !before(x, x)
    &&& forall|x: T, y: T, z: T|
        #![trigger s.contains(x), s.contains(y), s.contains(z)]
        s.contains(x) && s.contains(y) && s.contains(z) && before(x, z) ==> before(x, y) || before(
            y,
            z,
        )
    &&& forall|x: T, y: T|
        #![trigger s.contains(x), s.contains(y)]
        s.contains(x) && s.contains(y) && before(x, y) ==> !before(y, x)
}

/// No item stands before an earlier one.
pub open spec fn in_order<T>(s: Seq<T>, before: spec_fn(T, T) -> bool) -> bool {
    forall|i: int, j: int|
        #![trigger s[i], s[j]]
        0 <= i < j < s.len() ==> !before(s[j], s[i])
}

/// Whether `x` and `y` are tied.
pub open spec fn tied<T>(x: T, y: T, before: spec_fn(T, T) -> bool) -> bool {
    !before(x, y) && !before(y, x)
}

proof fn lemma_inserted_items<T>(s: Seq<T>, x: T, before: spec_fn(T, T) -> bool)
    ensures
        inserted(s, x, before).to_multiset() == s.to_multiset().insert(x),
        inserted(s, x, before).len() == s.len() + 1,
    decreases s.len(),
{
    broadcast use vstd::seq_lib::group_to_multiset_ensures;

    if s.len() > 0 && before(x, s.last()) {
        lemma_inserted_items(s.drop_last(), x, before);
        assert(s.drop_last().push(s.last()) =~= s);
        assert(inserted(s, x, before).to_multiset() =~= s.to_multiset().insert(x));
    } else {
        assert(inserted(s, x, before).to_multiset() =~= s.to_multiset().insert(x));
    }
}

/// Sorting keeps every item as often as it was there.
pub proof fn sorting_keeps_items<T>(s: Seq<T>, before: spec_fn(T, T) -> bool)
    ensures
        stably_sorted(s, before).to_multiset() == s.to_multiset(),
        stably_sorted(s, before).len() == s.len(),
    decreases s.len(),
{
    broadcast use vstd::seq_lib::group_to_multiset_ensures;

    if s.len() > 0 {
        let rest = stably_sorted(s.drop_last(), before);
        sorting_keeps_items(s.drop_last(), before);
        lemma_inserted_items(rest, s.last(), before);
        assert(s.drop_last().push(s.last()) =~= s);
        assert(stably_sorted(s, before).to_multiset() =~= s.to_multiset());
    }
}

proof fn lemma_inserted_contains<T>(s: Seq<T>, x: T, before: spec_fn(T, T) -> bool)
    ensures
        forall|y: T| #[trigger] inserted(s, x, before).contains(y) <==> s.contains(y) || y == x,
{
    broadcast use vstd::seq_lib::group_to_multiset_ensures;

    lemma_inserted_items(s, x, before);
    let t = inserted(s, x, before);
    assert forall|y: T| #[trigger] t.contains(y) <==> s.contains(y) || y == x by {
        assert(t.contains(y) <==> t.to_multiset().count(y) > 0);
        assert(s.contains(y) <==> s.to_multiset().count(y) > 0);
    }
}

/// A sorted sequence holds the same items.
pub proof fn lemma_sorted_contains<T>(s: Seq<T>, before: spec_fn(T, T) -> bool)
    ensures
        forall|y: T| #[trigger] stably_sorted(s, before).contains(y) <==> s.contains(y),
{
    broadcast use vstd::seq_lib::group_to_multiset_ensures;

    sorting_keeps_items(s, before);
    let t = stably_sorted(s, before);
    assert forall|y: T| #[trigger] t.contains(y) <==> s.contains(y) by {
        assert(t.contains(y) <==> t.to_multiset().count(y) > 0);
        assert(s.contains(y) <==> s.to_multiset().count(y) > 0);
    }
}

proof fn lemma_inserted_in_order<T>(
    all: Seq<T>,
    s: Seq<T>,
    x: T,
    before: spec_fn(T, T) -> bool,
)
    requires
        orders(all, before),
        all.contains(x),
        forall|y: T| s.contains(y) ==> #[trigger] all.contains(y),
        in_order(s, before),
    ensures
        in_order(inserted(s, x, before), before),
    decreases s.len(),
{
    let t = inserted(s, x, before);
    if s.len() > 0 && before(x, s.last()) {
        let d = s.drop_last();
        assert forall|y: T| d.contains(y) implies #[trigger] all.contains(y) by {
            let k = d.index_of(y);
            assert(s[k] == y);
            assert(s.contains(y));
        }
        assert forall|i: int, j: int|
            #![trigger d[i], d[j]]
            0 <= i < j < d.len() implies !before(d[j], d[i]) by {
            assert(d[i] == s[i] && d[j] == s[j]);
        }
        lemma_inserted_in_order(all, d, x, before);
        let u = inserted(d, x, before);
        lemma_inserted_contains(d, x, before);
        assert forall|i: int, j: int| #![trigger t[i], t[j]] 0 <= i < j < t.len() implies !before(
            t[j],
            t[i],
        ) by {
            if j == t.len() - 1 {
                assert(t[j] == s.last());
                assert(u.contains(u[i]));
                if u[i] == x {
                    assert(s.contains(s.last()));
                    assert(all.contains(s.last()));
                } else {
                    let k = d.index_of(u[i]);
                    assert(s[k] == u[i] && s[s.len() - 1] == s.last());
                }
            } else {
                assert(t[i] == u[i] && t[j] == u[j]);
            }
        }
    } else {
        assert forall|i: int, j: int| #![trigger t[i], t[j]] 0 <= i < j < t.len() implies !before(
            t[j],
            t[i],
        ) by {
            if j == s.len() {
                if s.len() > 0 && before(x, s[i]) {
                    assert(s.contains(s[i]) && s.contains(s.last()));
                    assert(all.contains(s[i]) && all.contains(s.last()));
                    assert(before(x, s.last()) || before(s.last(), s[i]));
                    if i < s.len() - 1 {
                        assert(!before(s[s.len() - 1], s[i]));
                    }
                }
            } else {
                assert(t[i] == s[i] && t[j] == s[j]);
            }
        }
    }
}

proof fn lemma_prefix_in_order<T>(all: Seq<T>, s: Seq<T>, before: spec_fn(T, T) -> bool)
    requires
        orders(all, before),
        forall|y: T| s.contains(y) ==> #[trigger] all.contains(y),
    ensures
        in_order(stably_sorted(s, before), before),
    decreases s.len(),
{
    if s.len() > 0 {
        let d = s.drop_last();
        assert forall|y: T| d.contains(y) implies #[trigger] all.contains(y) by {
            let k = d.index_of(y);
            assert(s[k] == y);
            assert(s.contains(y));
        }
        lemma_prefix_in_order(all, d, before);
        lemma_sorted_contains(d, before);
        assert(s.contains(s.last()));
        lemma_inserted_in_order(all, stably_sorted(d, before), s.last(), before);
    }
}

/// Sorting puts the items in order.
pub proof fn sorting_orders<T>(s: Seq<T>, before: spec_fn(T, T) -> bool)
    requires
        orders(s, before),
    ensures
        in_order(stably_sorted(s, before), before),
{
    lemma_prefix_in_order(s, s, before);
}

proof fn lemma_inserted_filtered<T>(
    all: Seq<T>,
    s: Seq<T>,
    x: T,
    before: spec_fn(T, T) -> bool,
    y: T,
)
    requires
        orders(all, before),
        all.contains(x),
        all.contains(y),
        forall|z: T| s.contains(z) ==> #[trigger] all.contains(z),
    ensures
        inserted(s, x, before).filter(|z: T| tied(y, z, before)) == (if tied(y, x, before) {
            s.filter(|z: T| tied(y, z, before)).push(x)
        } else {
            s.filter(|z: T| tied(y, z, before))
        }),
    decreases s.len(),
{
    let p = |z: T| tied(y, z, before);
    reveal(Seq::filter);
    let t = inserted(s, x, before);
    if s.len() > 0 && before(x, s.last()) {
        let d = s.drop_last();
        assert forall|z: T| d.contains(z) implies #[trigger] all.contains(z) by {
            let k = d.index_of(z);
            assert(s[k] == z);
            assert(s.contains(z));
        }
        lemma_inserted_filtered(all, d, x, before, y);
        assert(s.contains(s.last()));
        assert(all.contains(s.last()));
        assert(t.drop_last() =~= inserted(d, x, before));
        if p(x) {
            assert(!p(s.last()));
        }
    } else {
        assert(t.drop_last() =~= s);
    }
}

proof fn lemma_prefix_stable<T>(all: Seq<T>, s: Seq<T>, before: spec_fn(T, T) -> bool, y: T)
    requires
        orders(all, before),
        all.contains(y),
        forall|z: T| s.contains(z) ==> #[trigger] all.contains(z),
    ensures
        stably_sorted(s, before).filter(|z: T| tied(y, z, before)) == s.filter(
            |z: T| tied(y, z, before),
        ),
    decreases s.len(),
{
    reveal(Seq::filter);
    if s.len() > 0 {
        let d = s.drop_last();
        assert forall|z: T| d.contains(z) implies #[trigger] all.contains(z) by {
            let k = d.index_of(z);
            assert(s[k] == z);
            assert(s.contains(z));
        }
        lemma_prefix_stable(all, d, before, y);
        lemma_sorted_contains(d, before);
        assert(s.contains(s.last()));
        lemma_inserted_filtered(all, stably_sorted(d, before), s.last(), before, y);
    }
}

/// Sorting is stable: the items tied with any one of them keep their order.
pub proof fn sorting_is_stable<T>(s: Seq<T>, before: spec_fn(T, T) -> bool, y: T)
    requires
        orders(s, before),
        s.contains(y),
    ensures
        stably_sorted(s, before).filter(|z: T| tied(y, z, before)) == s.filter(
            |z: T| tied(y, z, before),
        ),
{
    lemma_prefix_stable(s, s, before, y);
}

/// Sorting leaves items alone that are in order.
pub proof fn sorting_leaves_what_is_in_order<T>(s: Seq<T>, before: spec_fn(T, T) -> bool)
    requires
        in_order(s, before),
    ensures
        stably_sorted(s, before) == s,
    decreases s.len(),
{
    if s.len() > 0 {
        let d = s.drop_last();
        assert forall|i: int, j: int|
            #![trigger d[i], d[j]]
            0 <= i < j < d.len() implies !before(d[j], d[i]) by {
            assert(d[i] == s[i] && d[j] == s[j]);
        }
        sorting_leaves_what_is_in_order(d, before);
        if d.len() > 0 {
            assert(!before(s[s.len() - 1], s[s.len() - 2]));
        }
        assert(d.push(s.last()) =~= s);
    }
}

/// Whether items that are tied are the same.
pub open spec fn ties_are_equal<T>(s: Seq<T>, before: spec_fn(T, T) -> bool) -> bool {
    forall|x: T, y: T|
        #![trigger s.contains(x), s.contains(y)]
        s.contains(x) && s.contains(y) && tied(x, y, before) ==> x == y
}

/// Sequences with the same items as often have the same length and hold the same.
pub proof fn lemma_same_items<T>(a: Seq<T>, b: Seq<T>)
    requires
        a.to_multiset() == b.to_multiset(),
    ensures
        a.len() == b.len(),
        forall|x: T| #[trigger] a.contains(x) <==> b.contains(x),
{
    broadcast use vstd::seq_lib::group_to_multiset_ensures;

    assert(a.to_multiset().len() == a.len() && b.to_multiset().len() == b.len());
    assert forall|x: T| #[trigger] a.contains(x) <==> b.contains(x) by {
        assert(a.contains(x) <==> a.to_multiset().count(x) > 0);
        assert(b.contains(x) <==> b.to_multiset().count(x) > 0);
    }
}

proof fn lemma_one_order<T>(s: Seq<T>, t: Seq<T>, before: spec_fn(T, T) -> bool)
    requires
        s.to_multiset() == t.to_multiset(),
        in_order(s, before),
        in_order(t, before),
        ties_are_equal(s, before),
        forall|x: T| #![trigger s.contains(x)] s.contains(x) ==> !before(x, x),
    ensures
        s == t,
    decreases s.len(),
{
    broadcast use vstd::seq_lib::group_to_multiset_ensures;

    lemma_same_items(s, t);
    if s.len() > 0 {
        let n = s.len() - 1;
        let x = s[n];
        let y = t[n];
        assert(s.contains(x) && t.contains(y));
        assert(t.contains(x) && s.contains(y));
        let k = t.index_of(x);
        let j = s.index_of(y);
        assert(t[k] == x && s[j] == y);
        assert(!before(y, x));
        assert(!before(x, y));
        assert(x == y);
        let d = s.drop_last();
        let e = t.drop_last();
        assert(d.push(x) =~= s && e.push(x) =~= t);
        assert(d.to_multiset() =~= s.to_multiset().remove(x));
        assert(e.to_multiset() =~= t.to_multiset().remove(x));
        assert forall|z: T| #![trigger d.contains(z)] d.contains(z) implies s.contains(z) by {
            let i = d.index_of(z);
            assert(s[i] == z);
        }
        assert forall|u: int, v: int|
            #![trigger d[u], d[v]]
            0 <= u < v < d.len() implies !before(d[v], d[u]) by {
            assert(d[u] == s[u] && d[v] == s[v]);
        }
        assert forall|u: int, v: int|
            #![trigger e[u], e[v]]
            0 <= u < v < e.len() implies !before(e[v], e[u]) by {
            assert(e[u] == t[u] && e[v] == t[v]);
        }
        lemma_one_order(d, e, before);
    } else {
        assert(s =~= t);
    }
}

/// The order in which items come does not matter to sorting, where items that are tied
/// are the same.
pub proof fn sorting_forgets_the_order<T>(a: Seq<T>, b: Seq<T>, before: spec_fn(T, T) -> bool)
    requires
        a.to_multiset() == b.to_multiset(),
        orders(a, before),
        ties_are_equal(a, before),
    ensures
        stably_sorted(a, before) == stably_sorted(b, before),
{
    lemma_same_items(a, b);
    assert forall|x: T| #![trigger b.contains(x)] b.contains(x) implies a.contains(x) by {
        assert(a.contains(x) <==> b.contains(x));
    }
    sorting_orders(a, before);
    sorting_orders(b, before);
    sorting_keeps_items(a, before);
    sorting_keeps_items(b, before);
    let s = stably_sorted(a, before);
    lemma_same_items(a, s);
    assert forall|x: T| #![trigger s.contains(x)] s.contains(x) implies a.contains(x) by {
        assert(a.contains(x) <==> s.contains(x));
    }
    lemma_one_order(s, stably_sorted(b, before), before);
}

/// Two sequences merged from their ends: of two last items that of the second comes last,
/// unless it must stand before that of the first.
pub open spec fn merged<T>(s: Seq<T>, t: Seq<T>, before: spec_fn(T, T) -> bool) -> Seq<T>
    decreases s.len() + t.len(),
{
    if t.len() == 0 {
        s
    } else if s.len() == 0 {
        t
    } else if before(t.last(), s.last()) {
        merged(s.drop_last(), t, before).push(s.last())
    } else {
        merged(s, t.drop_last(), before).push(t.last())
    }
}

proof fn lemma_contains_last<T>(s: Seq<T>, all: Seq<T>)
    requires
        forall|y: T| s.contains(y) ==> #[trigger] all.contains(y),
    ensures
        s.len() > 0 ==> all.contains(s.last()),
        s.len() > 0 ==> forall|y: T| s.drop_last().contains(y) ==> #[trigger] all.contains(y),
{
    if s.len() > 0 {
        assert(s[s.len() - 1] == s.last());
        assert(s.contains(s.last()));
        let d = s.drop_last();
        assert forall|y: T| d.contains(y) implies #[trigger] all.contains(y) by {
            let k = d.index_of(y);
            assert(s[k] == y);
            assert(s.contains(y));
        }
    }
}

/// Putting an item into the second of two sequences and merging them is putting it into what
/// they merge to.
proof fn lemma_merged_inserted<T>(
    all: Seq<T>,
    s: Seq<T>,
    t: Seq<T>,
    x: T,
    before: spec_fn(T, T) -> bool,
)
    requires
        orders(all, before),
        all.contains(x),
        forall|y: T| s.contains(y) ==> #[trigger] all.contains(y),
        forall|y: T| t.contains(y) ==> #[trigger] all.contains(y),
    ensures
        merged(s, inserted(t, x, before), before) == inserted(merged(s, t, before), x, before),
    decreases s.len() + t.len(),
{
    let u = inserted(t, x, before);
    let m = merged(s, t, before);
    lemma_contains_last(s, all);
    lemma_contains_last(t, all);
    if s.len() == 0 {
        assert(m == t || (t.len() == 0 && m =~= t));
    } else if t.len() > 0 && before(x, t.last()) {
        assert(u.drop_last() =~= inserted(t.drop_last(), x, before));
        assert(u.last() == t.last());
        if before(t.last(), s.last()) {
            lemma_merged_inserted(all, s.drop_last(), t, x, before);
            assert(before(x, s.last()));
            assert(m.drop_last() =~= merged(s.drop_last(), t, before));
        } else {
            lemma_merged_inserted(all, s, t.drop_last(), x, before);
            assert(m.drop_last() =~= merged(s, t.drop_last(), before));
        }
    } else {
        assert(u == t.push(x));
        assert(u.drop_last() =~= t);
        if before(x, s.last()) {
            lemma_merged_inserted(all, s.drop_last(), t, x, before);
            if t.len() > 0 {
                assert(before(t.last(), s.last()));
            }
            assert(m.drop_last() =~= merged(s.drop_last(), t, before));
            assert(m.last() == s.last());
        } else {
            assert(m.len() > 0 && (m.last() == s.last() || (t.len() > 0 && m.last() == t.last())));
        }
    }
}

proof fn lemma_merged_prefix<T>(
    all: Seq<T>,
    a: Seq<T>,
    b: Seq<T>,
    before: spec_fn(T, T) -> bool,
)
    requires
        orders(all, before),
        forall|y: T| a.contains(y) ==> #[trigger] all.contains(y),
        forall|y: T| b.contains(y) ==> #[trigger] all.contains(y),
    ensures
        merged(stably_sorted(a, before), stably_sorted(b, before), before) == stably_sorted(
            a + b,
            before,
        ),
    decreases b.len(),
{
    if b.len() == 0 {
        assert(a + b =~= a);
    } else {
        let d = b.drop_last();
        lemma_contains_last(b, all);
        lemma_merged_prefix(all, a, d, before);
        lemma_sorted_contains(a, before);
        lemma_sorted_contains(d, before);
        assert forall|y: T| stably_sorted(a, before).contains(y) implies #[trigger] all.contains(
            y,
        ) by {
            assert(a.contains(y));
        }
        assert forall|y: T| stably_sorted(d, before).contains(y) implies #[trigger] all.contains(
            y,
        ) by {
            assert(d.contains(y));
        }
        lemma_merged_inserted(
            all,
            stably_sorted(a, before),
            stably_sorted(d, before),
            b.last(),
            before,
        );
        assert((a + b).drop_last() =~= a + d);
        assert((a + b).last() == b.last());
    }
}

/// Sorting two sequences and merging them is sorting one after the other.
pub proof fn merging_sorts<T>(a: Seq<T>, b: Seq<T>, before: spec_fn(T, T) -> bool)
    requires
        orders(a + b, before),
    ensures
        merged(stably_sorted(a, before), stably_sorted(b, before), before) == stably_sorted(
            a + b,
            before,
        ),
{
    let all = a + b;
    assert forall|y: T| a.contains(y) implies #[trigger] all.contains(y) by {
        assert(all[a.index_of(y)] == y);
    }
    assert forall|y: T| b.contains(y) implies #[trigger] all.contains(y) by {
        assert(all[a.len() + b.index_of(y)] == y);
    }
    lemma_merged_prefix(all, a, b, before);
}

/// A part of a sequence that is ordered is ordered.
proof fn lemma_part_ordered<T>(s: Seq<T>, from: int, to: int, before: spec_fn(T, T) -> bool)
    requires
        orders(s, before),
        0 <= from <= to <= s.len(),
    ensures
        orders(s.subrange(from, to), before),
{
    let part = s.subrange(from, to);
    assert forall|y: T| #![trigger part.contains(y)] part.contains(y) implies s.contains(y) by {
        assert(s[from + part.index_of(y)] == y);
    }
}

/// The items that the positions stand for.
pub open spec fn items_at<T>(items: Seq<T>, positions: Seq<usize>) -> Seq<T> {
    positions.map_values(|p: usize| items[p as int])
}

/// Whether every position is one of the items.
pub open spec fn are_positions<T>(items: Seq<T>, positions: Seq<usize>) -> bool {
    forall|j: int| 0 <= j < positions.len() ==> (#[trigger] positions[j]) < items.len()
}

/// Whether `precedes` can be called on all items and tells which stands before the other.
pub open spec fn decides<T, F: Fn(&T, &T) -> bool>(
    precedes: F,
    before: spec_fn(T, T) -> bool,
) -> bool {
    &&& forall|x: &T, y: &T| #[trigger] call_requires(precedes, (x, y))
    &&& forall|x: &T, y: &T, r: bool| #[trigger]
        call_ensures(precedes, (x, y), r) ==> r == before(*x, *y)
}

/// The positions that are merged, in reverse.
fn merge_from_the_ends<T, F: Fn(&T, &T) -> bool>(
    items: &[T],
    a: &Vec<usize>,
    b: &Vec<usize>,
    precedes: &F,
    Ghost(before): Ghost<spec_fn(T, T) -> bool>,
) -> (r: Vec<usize>)
    requires
        are_positions(items@, a@),
        are_positions(items@, b@),
        decides(*precedes, before),
    ensures
        are_positions(items@, r@),
        items_at(items@, r@.reverse()) == merged(
            items_at(items@, a@),
            items_at(items@, b@),
            before,
        ),
{
    let ghost s = items_at(items@, a@);
    let ghost t = items_at(items@, b@);
    let mut out: Vec<usize> = Vec::new();
    let mut i: usize = a.len();
    let mut j: usize = b.len();
    assert(s.take(i as int) =~= s);
    assert(t.take(j as int) =~= t);
    assert(merged(s, t, before) + items_at(items@, out@.reverse()) =~= merged(s, t, before));
    while i > 0 || j > 0
        invariant
            i <= a.len(),
            j <= b.len(),
            s == items_at(items@, a@),
            t == items_at(items@, b@),
            are_positions(items@, a@),
            are_positions(items@, b@),
            are_positions(items@, out@),
            decides(*precedes, before),
            merged(s, t, before) == merged(s.take(i as int), t.take(j as int), before) + items_at(
                items@,
                out@.reverse(),
            ),
        decreases i + j,
    {
        let ghost u = s.take(i as int);
        let ghost v = t.take(j as int);
        let ghost left = merged(u, v, before);
        let ghost done = out@;
        let first: bool = if j == 0 {
            true
        } else if i == 0 {
            false
        } else {
            precedes(&items[b[j - 1]], &items[a[i - 1]])
        };
        let p: usize = if first {
            i = i - 1;
            a[i]
        } else {
            j = j - 1;
            b[j]
        };
        out.push(p);
        proof {
            if first {
                assert(u.drop_last() =~= s.take(i as int));
            } else {
                assert(v.drop_last() =~= t.take(j as int));
            }
            let rest = merged(s.take(i as int), t.take(j as int), before);
            assert(left =~= rest.push(items@[p as int]));
            assert(items_at(items@, out@.reverse()) =~= seq![items@[p as int]] + items_at(
                items@,
                done.reverse(),
            ));
            assert(left + items_at(items@, done.reverse()) =~= rest + items_at(
                items@,
                out@.reverse(),
            ));
        }
    }
    assert(merged(s, t, before) =~= items_at(items@, out@.reverse()));
    out
}

/// The positions in reverse.
fn reversed(positions: &Vec<usize>) -> (r: Vec<usize>)
    ensures
        r@ == positions@.reverse(),
{
    let mut out: Vec<usize> = Vec::new();
    let mut k: usize = positions.len();
    while k > 0
        invariant
            k <= positions.len(),
            out@ == positions@.reverse().take(positions.len() - k),
        decreases k,
    {
        k = k - 1;
        out.push(positions[k]);
        assert(out@ =~= positions@.reverse().take(positions.len() - k));
    }
    assert(out@ =~= positions@.reverse());
    out
}

/// The positions from `from` up to `to` in the order of their items, by halves that are
/// sorted and merged.
fn sort_part<T, F: Fn(&T, &T) -> bool>(
    items: &[T],
    from: usize,
    to: usize,
    precedes: &F,
    Ghost(before): Ghost<spec_fn(T, T) -> bool>,
) -> (r: Vec<usize>)
    requires
        from <= to <= items.len(),
        orders(items@, before),
        decides(*precedes, before),
    ensures
        are_positions(items@, r@),
        items_at(items@, r@) == stably_sorted(items@.subrange(from as int, to as int), before),
    decreases to - from,
{
    let ghost part = items@.subrange(from as int, to as int);
    if to - from <= 1 {
        let mut out: Vec<usize> = Vec::new();
        if from < to {
            out.push(from);
            assert(part.drop_last() =~= Seq::empty());
            assert(stably_sorted(part.drop_last(), before).len() == 0);
        }
        assert(items_at(items@, out@) =~= stably_sorted(part, before));
        return out;
    }
    let middle: usize = from + (to - from) / 2;
    let low: Vec<usize> = sort_part(items, from, middle, precedes, Ghost(before));
    let high: Vec<usize> = sort_part(items, middle, to, precedes, Ghost(before));
    proof {
        let a = items@.subrange(from as int, middle as int);
        let b = items@.subrange(middle as int, to as int);
        assert(a + b =~= part);
        lemma_part_ordered(items@, from as int, to as int, before);
        merging_sorts(a, b, before);
    }
    let ends: Vec<usize> = merge_from_the_ends(items, &low, &high, precedes, Ghost(before));
    reversed(&ends)
}

/// Whether no item stands before its predecessor.
fn is_in_order<T, F: Fn(&T, &T) -> bool>(
    items: &[T],
    precedes: &F,
    Ghost(before): Ghost<spec_fn(T, T) -> bool>,
) -> (r: bool)
    requires
        orders(items@, before),
        decides(*precedes, before),
    ensures
        r == in_order(items@, before),
{
    let mut i: usize = 1;
    while i < items.len()
        invariant
            1 <= i,
            items.len() > 0 ==> i <= items.len(),
            orders(items@, before),
            decides(*precedes, before),
            forall|a: int, b: int|
                #![trigger items@[a], items@[b]]
                0 <= a < b < i && b < items.len() ==> !before(items@[b], items@[a]),
        decreases items.len() - i,
    {
        if precedes(&items[i], &items[i - 1]) {
            assert(before(items@[i as int], items@[i - 1]));
            return false;
        }
        assert forall|a: int, b: int|
            #![trigger items@[a], items@[b]]
            0 <= a < b < i + 1 && b < items.len() implies !before(items@[b], items@[a]) by {
            if b == i && a < i - 1 {
                assert(!before(items@[i - 1], items@[a]));
                assert(items@.contains(items@[b]) && items@.contains(items@[a])
                    && items@.contains(items@[i - 1]));
            }
        }
        i = i + 1;
    }
    true
}

/// The positions of the items in their order, tied ones as they come: in one pass where the
/// items are in order, and otherwise by merging.
pub(crate) fn sorted_positions<T, F: Fn(&T, &T) -> bool>(
    items: &[T],
    precedes: F,
    Ghost(before): Ghost<spec_fn(T, T) -> bool>,
) -> (r: Vec<usize>)
    requires
        orders(items@, before),
        decides(precedes, before),
    ensures
        are_positions(items@, r@),
        items_at(items@, r@) == stably_sorted(items@, before),
{
    if is_in_order(items, &precedes, Ghost(before)) {
        let mut out: Vec<usize> = Vec::new();
        let mut i: usize = 0;
        while i < items.len()
            invariant
                i <= items.len(),
                out.len() == i,
                forall|j: int| 0 <= j < i ==> #[trigger] out@[j] == j,
            decreases items.len() - i,
        {
            out.push(i);
            i = i + 1;
        }
        proof {
            sorting_leaves_what_is_in_order(items@, before);
            assert(items_at(items@, out@) =~= items@);
        }
        return out;
    }
    assert(items@.subrange(0, items.len() as int) =~= items@);
    sort_part(items, 0, items.len(), &precedes, Ghost(before))
}

} // verus!
