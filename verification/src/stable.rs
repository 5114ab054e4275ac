//! Stable sorting, as a mathematical function on sequences.
//!
//! An order is given as a relation `before(a, b)`: "`a` may stand in front of
//! `b`". The sorted sequence is built by inserting the items one after the
//! other, each behind every item that may stand in front of it; so items that
//! the order does not tell apart keep the order in which they came.

use vstd::prelude::*;

verus! {

/// `s` with `x` inserted behind the last item that may stand in front of it.
pub open spec fn insert_stable<T>(s: Seq<T>, x: T, before: spec_fn(T, T) -> bool) -> Seq<T>
    decreases s.len(),
{
    if s.len() == 0 || before(s.last(), x) {
        s.push(x)
    } else {
        insert_stable(s.drop_last(), x, before).push(s.last())
    }
}

/// The items of `s` in the order `before`; items that it does not tell apart
/// stay in the order they have in `s`.
pub open spec fn sort_stable<T>(s: Seq<T>, before: spec_fn(T, T) -> bool) -> Seq<T>
    decreases s.len(),
{
    if s.len() == 0 {
        s
    } else {
        insert_stable(sort_stable(s.drop_last(), before), s.last(), before)
    }
}

/// Whether every item of `s` may stand in front of every later one.
pub open spec fn is_ordered<T>(s: Seq<T>, before: spec_fn(T, T) -> bool) -> bool {
    forall|i: int, j: int| 0 <= i < j < s.len() ==> #[trigger] before(s[i], s[j])
}

/// Whether `before` compares any two items one way or the other.
pub open spec fn is_total<T>(before: spec_fn(T, T) -> bool) -> bool {
    forall|a: T, b: T| #[trigger] before(a, b) || #[trigger] before(b, a)
}

/// Whether `before` carries over a middle item.
pub open spec fn is_transitive<T>(before: spec_fn(T, T) -> bool) -> bool {
    forall|a: T, b: T, c: T|
        #[trigger] before(a, b) && #[trigger] before(b, c) ==> #[trigger] before(a, c)
}

/// Where the insertion puts the item: behind an item that may stand in front of
/// it, and in front of the items from there on, none of which may.
pub proof fn lemma_insert_stable_at<T>(s: Seq<T>, x: T, before: spec_fn(T, T) -> bool, at: int)
    requires
        0 <= at <= s.len(),
        at > 0 ==> before(s[at - 1], x),
        forall|k: int| at <= k < s.len() ==> !#[trigger] before(s[k], x),
    ensures
        insert_stable(s, x, before) == s.insert(at, x),
    decreases s.len(),
{
    if at == s.len() {
        assert(s.push(x) =~= s.insert(at, x));
    } else {
        assert(!before(s[s.len() - 1], x));
        let t = s.drop_last();
        lemma_insert_stable_at(t, x, before, at);
        assert(t.insert(at, x).push(s.last()) =~= s.insert(at, x));
    }
}

/// Inserting adds the item and nothing else.
pub proof fn lemma_insert_stable_items<T>(s: Seq<T>, x: T, before: spec_fn(T, T) -> bool)
    ensures
        insert_stable(s, x, before).len() == s.len() + 1,
        insert_stable(s, x, before).to_multiset() == s.to_multiset().insert(x),
    decreases s.len(),
{
    broadcast use vstd::seq_lib::group_to_multiset_ensures;

    if s.len() == 0 || before(s.last(), x) {
    } else {
        let t = s.drop_last();
        lemma_insert_stable_items(t, x, before);
        assert(t.push(s.last()) == s);
        assert(insert_stable(s, x, before).to_multiset() =~= s.to_multiset().insert(x));
    }
}

/// Sorting keeps every item, as often as it occurs.
pub proof fn lemma_sort_stable_items<T>(s: Seq<T>, before: spec_fn(T, T) -> bool)
    ensures
        sort_stable(s, before).len() == s.len(),
        sort_stable(s, before).to_multiset() == s.to_multiset(),
    decreases s.len(),
{
    broadcast use vstd::seq_lib::group_to_multiset_ensures;

    if s.len() > 0 {
        let t = s.drop_last();
        lemma_sort_stable_items(t, before);
        lemma_insert_stable_items(sort_stable(t, before), s.last(), before);
        assert(t.push(s.last()) == s);
    }
}

/// Inserting into an ordered sequence leaves it ordered.
pub proof fn lemma_insert_stable_ordered<T>(s: Seq<T>, x: T, before: spec_fn(T, T) -> bool)
    requires
        is_total(before),
        is_transitive(before),
        is_ordered(s, before),
    ensures
        is_ordered(insert_stable(s, x, before), before),
    decreases s.len(),
{
    let r = insert_stable(s, x, before);
    if s.len() == 0 {
    } else if before(s.last(), x) {
        assert forall|i: int, j: int| 0 <= i < j < r.len() implies #[trigger] before(
            r[i],
            r[j],
        ) by {
            if j == s.len() {
                if i < s.len() - 1 {
                    assert(before(s[i], s[s.len() - 1]));
                }
                assert(before(s[i], x));
            } else {
                assert(before(s[i], s[j]));
            }
        }
    } else {
        let t = s.drop_last();
        let last = s.last();
        assert(is_ordered(t, before)) by {
            assert forall|i: int, j: int| 0 <= i < j < t.len() implies #[trigger] before(
                t[i],
                t[j],
            ) by {
                assert(before(s[i], s[j]));
            }
        }
        lemma_insert_stable_ordered(t, x, before);
        let u = insert_stable(t, x, before);
        assert(before(x, last));
        assert forall|i: int| 0 <= i < t.len() implies #[trigger] before(t[i], last) by {
            assert(before(s[i], s[s.len() - 1]));
        }
        assert forall|i: int, j: int| 0 <= i < j < r.len() implies #[trigger] before(
            r[i],
            r[j],
        ) by {
            if j == u.len() {
                lemma_insert_stable_member(t, x, before, i);
                if u[i] != x {
                    let k = choose|k: int| 0 <= k < t.len() && t[k] == u[i];
                    assert(before(t[k], last));
                }
            } else {
                assert(before(u[i], u[j]));
            }
        }
    }
}

/// Every item of the result is the inserted one or an item of `s`.
pub proof fn lemma_insert_stable_member<T>(
    s: Seq<T>,
    x: T,
    before: spec_fn(T, T) -> bool,
    i: int,
)
    requires
        0 <= i < insert_stable(s, x, before).len(),
    ensures
        insert_stable(s, x, before)[i] == x || exists|k: int|
            0 <= k < s.len() && s[k] == insert_stable(s, x, before)[i],
    decreases s.len(),
{
    let r = insert_stable(s, x, before);
    if s.len() == 0 || before(s.last(), x) {
        if i < s.len() {
            assert(s[i] == r[i]);
        }
    } else {
        let t = s.drop_last();
        lemma_insert_stable_items(t, x, before);
        let u = insert_stable(t, x, before);
        if i < u.len() {
            lemma_insert_stable_member(t, x, before, i);
            if u[i] != x {
                let k = choose|k: int| 0 <= k < t.len() && t[k] == u[i];
                assert(s[k] == r[i]);
            }
        } else {
            assert(s[s.len() - 1] == r[i]);
        }
    }
}

/// A sorted sequence is in order.
pub proof fn lemma_sort_stable_ordered<T>(s: Seq<T>, before: spec_fn(T, T) -> bool)
    requires
        is_total(before),
        is_transitive(before),
    ensures
        is_ordered(sort_stable(s, before), before),
    decreases s.len(),
{
    if s.len() > 0 {
        lemma_sort_stable_ordered(s.drop_last(), before);
        lemma_insert_stable_ordered(sort_stable(s.drop_last(), before), s.last(), before);
    }
}

/// Taking the item at `from` out and putting it back in at an earlier place `to`
/// changes the stretch in front of `from` alone.
pub proof fn lemma_move_forward<T>(s: Seq<T>, from: int, to: int)
    requires
        0 <= to <= from < s.len(),
    ensures
        s.remove(from).insert(to, s[from]) == s.take(from).insert(to, s[from]) + s.skip(from + 1),
{
    assert(s.remove(from).insert(to, s[from]) =~= s.take(from).insert(to, s[from]) + s.skip(
        from + 1,
    ));
}

/// The place at which the insertion puts the item.
pub open spec fn insertion_place<T>(s: Seq<T>, x: T, before: spec_fn(T, T) -> bool) -> int
    decreases s.len(),
{
    if s.len() == 0 || before(s.last(), x) {
        s.len() as int
    } else {
        insertion_place(s.drop_last(), x, before)
    }
}

/// The insertion puts the item behind an item that may stand in front of it, in
/// front of items that may not, and moves nothing else.
pub proof fn lemma_insertion_place<T>(s: Seq<T>, x: T, before: spec_fn(T, T) -> bool)
    ensures
        0 <= insertion_place(s, x, before) <= s.len(),
        insertion_place(s, x, before) > 0 ==> before(s[insertion_place(s, x, before) - 1], x),
        forall|k: int|
            insertion_place(s, x, before) <= k < s.len() ==> !#[trigger] before(s[k], x),
        insert_stable(s, x, before) == s.insert(insertion_place(s, x, before), x),
    decreases s.len(),
{
    if s.len() == 0 || before(s.last(), x) {
    } else {
        lemma_insertion_place(s.drop_last(), x, before);
        let at = insertion_place(s, x, before);
        assert forall|k: int| at <= k < s.len() implies !#[trigger] before(s[k], x) by {
            if k < s.len() - 1 {
                assert(s[k] == s.drop_last()[k]);
            }
        }
        if at > 0 {
            assert(s[at - 1] == s.drop_last()[at - 1]);
        }
    }
    lemma_insert_stable_at(s, x, before, insertion_place(s, x, before));
}

/// The positions `0, 1, ..` of a sequence of length `n`.
pub open spec fn positions(n: nat) -> Seq<int> {
    Seq::new(n, |i: int| i)
}

/// The order of the positions of `s` by the items that stand at them.
pub open spec fn by_item<T>(s: Seq<T>, before: spec_fn(T, T) -> bool) -> spec_fn(int, int) -> bool {
    |x: int, y: int| before(s[x], s[y])
}

/// The positions of the first `n` items of `s`, in the order in which sorting
/// puts those items.
pub open spec fn order_among<T>(s: Seq<T>, before: spec_fn(T, T) -> bool, n: nat) -> Seq<int> {
    sort_stable(positions(n), by_item(s, before))
}

/// The positions of `s` in the order in which sorting puts its items: the item
/// that stands first after sorting stood at `order_of(s, before)[0]`.
pub open spec fn order_of<T>(s: Seq<T>, before: spec_fn(T, T) -> bool) -> Seq<int> {
    order_among(s, before, s.len())
}

/// The items of `s` read in the order of the positions `order`.
pub open spec fn arranged<T>(s: Seq<T>, order: Seq<int>) -> Seq<T> {
    Seq::new(order.len(), |p: int| s[order[p]])
}

/// Where the item at position `x` of `s` stands after sorting.
pub open spec fn place_of<T>(s: Seq<T>, before: spec_fn(T, T) -> bool, x: int) -> int {
    choose|p: int| 0 <= p < s.len() && order_of(s, before)[p] == x
}

/// Whether `order` lists the positions `0 .. n` of `s`, each once, in an order
/// that `before` allows and that keeps items it does not tell apart as they were.
pub open spec fn is_stable_order<T>(
    s: Seq<T>,
    before: spec_fn(T, T) -> bool,
    order: Seq<int>,
    n: int,
) -> bool {
    &&& order.len() == n
    &&& forall|p: int| 0 <= p < n ==> 0 <= #[trigger] order[p] < n
    &&& forall|p: int, q: int| 0 <= p < q < n ==> #[trigger] order[p] != #[trigger] order[q]
    &&& forall|x: int| 0 <= x < n ==> #[trigger] order.contains(x)
    &&& forall|p: int, q: int|
        0 <= p < q < n ==> before(s[#[trigger] order[p]], s[#[trigger] order[q]])
    &&& forall|p: int, q: int|
        0 <= p < q < n && before(s[#[trigger] order[q]], s[#[trigger] order[p]]) ==> order[p]
            < order[q]
}

/// Sorting the first `n` items is reading them in the order of their sorted
/// positions, and that order is stable.
pub proof fn lemma_order_among<T>(s: Seq<T>, before: spec_fn(T, T) -> bool, n: nat)
    requires
        n <= s.len(),
        is_total(before),
        is_transitive(before),
    ensures
        is_stable_order(s, before, order_among(s, before, n), n as int),
        sort_stable(s.take(n as int), before) == arranged(s, order_among(s, before, n)),
    decreases n,
{
    let rel = by_item(s, before);
    if n == 0 {
        assert(sort_stable(s.take(0), before) =~= arranged(s, order_among(s, before, 0)));
    } else {
        let m = (n - 1) as nat;
        lemma_order_among(s, before, m);
        let earlier = order_among(s, before, m);
        assert(positions(n).drop_last() =~= positions(m));
        assert(positions(n).last() == m);
        let at = insertion_place(earlier, m as int, rel);
        lemma_insertion_place(earlier, m as int, rel);
        let order = order_among(s, before, n);
        assert(order == earlier.insert(at, m as int));
        // the items follow their positions
        let sorted = sort_stable(s.take(m as int), before);
        assert(s.take(n as int).drop_last() =~= s.take(m as int));
        assert(s.take(n as int).last() == s[m as int]);
        if at > 0 {
            assert(before(sorted[at - 1], s[m as int])) by {
                assert(rel(earlier[at - 1], m as int));
            }
        }
        assert forall|k: int| at <= k < sorted.len() implies !#[trigger] before(
            sorted[k],
            s[m as int],
        ) by {
            assert(!rel(earlier[k], m as int));
        }
        lemma_insert_stable_at(sorted, s[m as int], before, at);
        assert(sorted.insert(at, s[m as int]) =~= arranged(s, order));
        // the order is stable
        assert forall|p: int| 0 <= p < n implies 0 <= #[trigger] order[p] < n by {
            if p < at {
                assert(order[p] == earlier[p]);
            } else if p > at {
                assert(order[p] == earlier[p - 1]);
            }
        }
        assert forall|p: int, q: int| 0 <= p < q < n implies #[trigger] order[p]
            != #[trigger] order[q] by {
            let a = if p < at {
                p
            } else {
                p - 1
            };
            let b = if q < at {
                q
            } else {
                q - 1
            };
            if p != at && q != at {
                assert(order[p] == earlier[a] && order[q] == earlier[b]);
                assert(earlier[a] != earlier[b]);
            } else if p == at {
                assert(order[q] == earlier[b]);
            } else {
                assert(order[p] == earlier[a]);
            }
        }
        assert forall|x: int| 0 <= x < n implies #[trigger] order.contains(x) by {
            if x == m {
                assert(order[at] == x);
            } else {
                assert(earlier.contains(x));
                let p = choose|p: int| 0 <= p < earlier.len() && earlier[p] == x;
                if p < at {
                    assert(order[p] == x);
                } else {
                    assert(order[p + 1] == x);
                }
            }
        }
        assert(is_total(rel)) by {
            assert forall|x: int, y: int| #[trigger] rel(x, y) || #[trigger] rel(y, x) by {
                assert(before(s[x], s[y]) || before(s[y], s[x]));
            }
        }
        assert(is_transitive(rel)) by {
            assert forall|x: int, y: int, z: int| #[trigger]
                rel(x, y) && #[trigger] rel(y, z) implies #[trigger] rel(x, z) by {
                assert(before(s[x], s[y]) && before(s[y], s[z]) ==> before(s[x], s[z]));
            }
        }
        lemma_sort_stable_ordered(positions(n), rel);
        assert forall|p: int, q: int| 0 <= p < q < n implies before(
            s[#[trigger] order[p]],
            s[#[trigger] order[q]],
        ) by {
            assert(rel(order[p], order[q]));
        }
        assert forall|p: int, q: int|
            0 <= p < q < n && before(
                s[#[trigger] order[q]],
                s[#[trigger] order[p]],
            ) implies order[p] < order[q] by {
            if q == at {
                assert(order[p] == earlier[p]);
            } else if p == at {
                assert(order[q] == earlier[q - 1]);
                assert(!rel(earlier[q - 1], m as int));
            } else {
                let a = if p < at {
                    p
                } else {
                    p - 1
                };
                let b = if q < at {
                    q
                } else {
                    q - 1
                };
                assert(order[p] == earlier[a] && order[q] == earlier[b]);
            }
        }
    }
}

/// Sorting is stable: the sorted sequence is `s` read in an order of its
/// positions that takes each position once, that `before` allows, and in which
/// items that `before` does not tell apart stay as they were.
pub proof fn law_sort_is_stable<T>(s: Seq<T>, before: spec_fn(T, T) -> bool)
    requires
        is_total(before),
        is_transitive(before),
    ensures
        is_stable_order(s, before, order_of(s, before), s.len() as int),
        sort_stable(s, before) == arranged(s, order_of(s, before)),
{
    lemma_order_among(s, before, s.len());
    assert(s.take(s.len() as int) == s);
}

/// The item at position `x` stands at its place after sorting, and at no other.
pub proof fn lemma_place_of<T>(s: Seq<T>, before: spec_fn(T, T) -> bool, x: int)
    requires
        is_total(before),
        is_transitive(before),
        0 <= x < s.len(),
    ensures
        0 <= place_of(s, before, x) < s.len(),
        order_of(s, before)[place_of(s, before, x)] == x,
        sort_stable(s, before)[place_of(s, before, x)] == s[x],
        forall|p: int|
            0 <= p < s.len() && #[trigger] order_of(s, before)[p] == x ==> p == place_of(
                s,
                before,
                x,
            ),
{
    law_sort_is_stable(s, before);
    let order = order_of(s, before);
    assert(order.contains(x));
    let place = place_of(s, before, x);
    assert(0 <= place < s.len() && order[place] == x);
    assert forall|p: int| 0 <= p < s.len() && #[trigger] order[p] == x implies p == place by {
        if p < place {
            assert(order[p] != order[place]);
        } else if place < p {
            assert(order[place] != order[p]);
        }
    }
}

} // verus!
