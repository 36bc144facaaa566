//! Ordering by a key, where items with one key keep the order in which they
//! stood.

use vstd::prelude::*;
use vstd::seq_lib::seq_to_set_is_finite;
use vstd::set_lib::{lemma_int_range, lemma_subset_equality, set_int_range};

verus! {

/// Whether position `a` comes before position `b`: by the key first, and
/// among equal keys by the position itself.
pub open spec fn comes_before(key: spec_fn(int) -> int, a: int, b: int) -> bool {
    key(a) < key(b) || (key(a) == key(b) && a < b)
}

/// Whether `order` lists the positions below `n` so that each comes before
/// the next. Such a list holds every position once: it is the one stable
/// ordering of the `n` positions by their keys.
pub open spec fn is_stable_order(n: nat, key: spec_fn(int) -> int, order: Seq<usize>) -> bool {
    &&& order.len() == n
    &&& forall|i: int| 0 <= i < n ==> #[trigger] order[i] < n
    &&& forall|i: int, j: int|
        0 <= i < j < n ==> comes_before(key, #[trigger] order[i] as int, #[trigger] order[j] as int)
}

/// The items at the positions that `order` lists, in that order.
pub open spec fn permuted<T>(items: Seq<T>, order: Seq<usize>) -> Seq<T> {
    Seq::new(order.len(), |i: int| items[order[i] as int])
}

/// The key that a list of numbers gives to each of its positions.
pub open spec fn key_of(keys: Seq<i128>) -> spec_fn(int) -> int {
    |i: int| keys[i] as int
}

/// A stable ordering holds every position below `n`.
pub proof fn lemma_order_holds_each(n: nat, key: spec_fn(int) -> int, order: Seq<usize>, x: int)
    requires
        is_stable_order(n, key, order),
        0 <= x < n,
    ensures
        exists|i: int| 0 <= i < n && #[trigger] order[i] == x,
{
    let places = Seq::new(n, |i: int| order[i] as int);
    assert forall|i: int, j: int|
        0 <= i < places.len() && 0 <= j < places.len() && i != j implies places[i]
        != places[j] by {
        if i < j {
            assert(comes_before(key, order[i] as int, order[j] as int));
        } else {
            assert(comes_before(key, order[j] as int, order[i] as int));
        }
    }
    places.unique_seq_to_set();
    seq_to_set_is_finite(places);
    lemma_int_range(0, n as int);
    assert forall|v: int| places.to_set().contains(v) implies set_int_range(0, n as int).contains(
        v,
    ) by {
        let i = choose|i: int| 0 <= i < places.len() && places[i] == v;
        assert(order[i] < n);
    }
    lemma_subset_equality(places.to_set(), set_int_range(0, n as int));
    assert(set_int_range(0, n as int).contains(x));
    assert(places.to_set().contains(x));
    let at = choose|i: int| 0 <= i < places.len() && places[i] == x;
    assert(order[at] == x);
}

/// Two stable orderings of the same positions by the same keys agree on
/// their first `m` places.
proof fn lemma_orders_agree(
    n: nat,
    key: spec_fn(int) -> int,
    a: Seq<usize>,
    b: Seq<usize>,
    m: int,
)
    requires
        is_stable_order(n, key, a),
        is_stable_order(n, key, b),
        0 <= m <= n,
    ensures
        forall|i: int| 0 <= i < m ==> a[i] == b[i],
    decreases m,
{
    if m > 0 {
        lemma_orders_agree(n, key, a, b, m - 1);
        let at = m - 1;
        if a[at] != b[at] {
            lemma_order_holds_each(n, key, b, a[at] as int);
            let j = choose|j: int| 0 <= j < n && #[trigger] b[j] == a[at] as int;
            if j < at {
                assert(comes_before(key, a[j] as int, a[at] as int));
            } else {
                assert(comes_before(key, b[at] as int, b[j] as int));
            }
            lemma_order_holds_each(n, key, a, b[at] as int);
            let k = choose|k: int| 0 <= k < n && #[trigger] a[k] == b[at] as int;
            if k < at {
                assert(comes_before(key, b[k] as int, b[at] as int));
            } else {
                assert(comes_before(key, a[at] as int, a[k] as int));
            }
        }
    }
}

/// There is one stable ordering only: two lists that both are one are the
/// same list.
pub proof fn lemma_stable_order_is_one(
    n: nat,
    key: spec_fn(int) -> int,
    a: Seq<usize>,
    b: Seq<usize>,
)
    requires
        is_stable_order(n, key, a),
        is_stable_order(n, key, b),
    ensures
        a == b,
{
    lemma_orders_agree(n, key, a, b, n as int);
    assert(a =~= b);
}

/// Where the keys never fall from one position to the next, the stable
/// ordering leaves every position where it is.
pub proof fn lemma_ordered_stays(n: nat, key: spec_fn(int) -> int, order: Seq<usize>)
    requires
        is_stable_order(n, key, order),
        forall|i: int, j: int| 0 <= i <= j < n ==> #[trigger] key(i) <= #[trigger] key(j),
    ensures
        forall|i: int| 0 <= i < n ==> order[i] == i,
{
    assert forall|i: int, j: int| 0 <= i < j < n implies order[i] < order[j] by {
        assert(comes_before(key, order[i] as int, order[j] as int));
        if order[i] >= order[j] {
            assert(key(order[j] as int) <= key(order[i] as int));
        }
    }
    lemma_rising_from_below(n, order, n as int);
    assert forall|i: int| 0 <= i < n implies order[i] == i by {
        lemma_rising_from_above(n, order, i);
    }
}

/// A strictly rising list of positions is at each place at least as far as
/// the place.
proof fn lemma_rising_from_below(n: nat, order: Seq<usize>, upto: int)
    requires
        order.len() == n,
        0 <= upto <= n,
        forall|i: int, j: int| 0 <= i < j < n ==> order[i] < order[j],
    ensures
        forall|i: int| 0 <= i < upto ==> order[i] >= i,
    decreases upto,
{
    if upto > 0 {
        lemma_rising_from_below(n, order, upto - 1);
        if upto - 1 > 0 {
            assert(order[upto - 2] < order[upto - 1]);
        }
    }
}

/// A strictly rising list of positions below `n` is at each place no
/// farther than the place.
proof fn lemma_rising_from_above(n: nat, order: Seq<usize>, at: int)
    requires
        order.len() == n,
        0 <= at < n,
        forall|i: int| 0 <= i < n ==> #[trigger] order[i] < n,
        forall|i: int, j: int| 0 <= i < j < n ==> order[i] < order[j],
    ensures
        order[at] <= at,
    decreases n - at,
{
    if at + 1 < n {
        lemma_rising_from_above(n, order, at + 1);
        assert(order[at] < order[at + 1]);
    }
}

/// The stable ordering of the positions of `keys` by their keys: the
/// positions with the least key first, and positions with one key in rising
/// order.
pub fn stable_order(keys: &Vec<i128>) -> (order: Vec<usize>)
    ensures
        is_stable_order(keys@.len(), key_of(keys@), order@),
{
    let ghost key = key_of(keys@);
    let mut order: Vec<usize> = Vec::new();
    let mut next: usize = 0;
    while next < keys.len()
        invariant
            next <= keys.len(),
            key == key_of(keys@),
            order@.len() == next,
            forall|i: int| 0 <= i < next ==> #[trigger] order@[i] < next,
            forall|i: int, j: int|
                0 <= i < j < next ==> comes_before(
                    key,
                    #[trigger] order@[i] as int,
                    #[trigger] order@[j] as int,
                ),
        decreases keys.len() - next,
    {
        let mut at: usize = order.len();
        while at > 0 && keys[order[at - 1]] > keys[next]
            invariant
                at <= order@.len(),
                order@.len() == next,
                next < keys.len(),
                forall|i: int| 0 <= i < next ==> #[trigger] order@[i] < next,
                forall|i: int| at <= i < next ==> keys@[#[trigger] order@[i] as int] > keys@[next as int],
            decreases at,
        {
            at -= 1;
        }
        let ghost before = order@;
        order.insert(at, next);
        proof {
            let after = order@;
            assert forall|i: int, j: int| 0 <= i < j < next + 1 implies comes_before(
                key,
                #[trigger] after[i] as int,
                #[trigger] after[j] as int,
            ) by {
                if j < at {
                    assert(after[i] == before[i] && after[j] == before[j]);
                } else if j == at {
                    assert(after[i] == before[i]);
                    assert(after[j] == next);
                    if i < at - 1 {
                        assert(comes_before(key, before[i] as int, before[at - 1] as int));
                    }
                    assert(keys@[before[at - 1] as int] <= keys@[next as int]);
                    assert(before[i] < next);
                } else if i < at {
                    assert(after[i] == before[i] && after[j] == before[j - 1]);
                } else if i == at {
                    assert(after[i] == next && after[j] == before[j - 1]);
                    assert(keys@[before[j - 1] as int] > keys@[next as int]);
                } else {
                    assert(after[i] == before[i - 1] && after[j] == before[j - 1]);
                }
            }
            assert forall|i: int| 0 <= i < next + 1 implies #[trigger] after[i] < next + 1 by {
                if i < at {
                    assert(after[i] == before[i]);
                } else if i > at {
                    assert(after[i] == before[i - 1]);
                }
            }
        }
        next += 1;
    }
    order
}

/// The items of `items` that `keep` keeps, in order.
pub open spec fn kept<T>(items: Seq<T>, keep: spec_fn(T) -> bool) -> Seq<T>
    decreases items.len(),
{
    if items.len() == 0 {
        items
    } else if keep(items.last()) {
        kept(items.drop_last(), keep).push(items.last())
    } else {
        kept(items.drop_last(), keep)
    }
}

/// The kept items among the first `upto` of the reordered list that stood
/// among the first `below` of the list as it was.
spec fn kept_below<T>(
    items: Seq<T>,
    order: Seq<usize>,
    keep: spec_fn(T) -> bool,
    below: int,
    upto: int,
) -> Seq<T>
    decreases upto,
{
    if upto <= 0 || upto > order.len() {
        Seq::empty()
    } else if order[upto - 1] < below && keep(items[order[upto - 1] as int]) {
        kept_below(items, order, keep, below, upto - 1).push(items[order[upto - 1] as int])
    } else {
        kept_below(items, order, keep, below, upto - 1)
    }
}

/// Places that hold nothing kept from below the bound add nothing.
proof fn lemma_kept_below_stops<T>(
    items: Seq<T>,
    order: Seq<usize>,
    keep: spec_fn(T) -> bool,
    below: int,
    from: int,
    upto: int,
)
    requires
        0 <= from <= upto <= order.len(),
        forall|i: int|
            from <= i < upto ==> !(#[trigger] order[i] < below && keep(items[order[i] as int])),
    ensures
        kept_below(items, order, keep, below, upto) == kept_below(items, order, keep, below, from),
    decreases upto - from,
{
    if from < upto {
        lemma_kept_below_stops(items, order, keep, below, from, upto - 1);
    }
}

/// Raising the bound by one changes nothing before the place that holds the
/// item at the bound.
proof fn lemma_kept_below_same<T>(
    items: Seq<T>,
    order: Seq<usize>,
    keep: spec_fn(T) -> bool,
    below: int,
    upto: int,
)
    requires
        0 <= upto <= order.len(),
        forall|i: int| 0 <= i < upto ==> #[trigger] order[i] != below,
    ensures
        kept_below(items, order, keep, below + 1, upto) == kept_below(
            items,
            order,
            keep,
            below,
            upto,
        ),
    decreases upto,
{
    if upto > 0 {
        lemma_kept_below_same(items, order, keep, below, upto - 1);
    }
}

/// With the bound at the end, the kept items of the reordered list are
/// counted in full.
proof fn lemma_kept_below_all<T>(
    items: Seq<T>,
    order: Seq<usize>,
    keep: spec_fn(T) -> bool,
    upto: int,
)
    requires
        0 <= upto <= order.len(),
        forall|i: int| 0 <= i < order.len() ==> #[trigger] order[i] < items.len(),
    ensures
        kept_below(items, order, keep, items.len() as int, upto) == kept(
            permuted(items, order).take(upto),
            keep,
        ),
    decreases upto,
{
    let moved = permuted(items, order);
    if upto > 0 {
        lemma_kept_below_all(items, order, keep, upto - 1);
        assert(moved.take(upto).drop_last() =~= moved.take(upto - 1));
        assert(moved.take(upto).last() == items[order[upto - 1] as int]);
    } else {
        assert(moved.take(0) =~= Seq::<T>::empty());
    }
}

/// The kept items of the reordered list that stood among the first `below`
/// are the kept items of the first `below`, where the reordering leaves the
/// kept items in the order in which they stood.
proof fn lemma_kept_below_is_kept<T>(
    n: nat,
    key: spec_fn(int) -> int,
    items: Seq<T>,
    order: Seq<usize>,
    keep: spec_fn(T) -> bool,
    below: int,
)
    requires
        items.len() == n,
        is_stable_order(n, key, order),
        0 <= below <= n,
        forall|i: int, j: int|
            0 <= i < j < n && keep(items[#[trigger] order[i] as int]) && keep(
                items[#[trigger] order[j] as int],
            ) ==> order[i] < order[j],
    ensures
        kept_below(items, order, keep, below, n as int) == kept(items.take(below), keep),
    decreases below,
{
    if below == 0 {
        lemma_kept_below_stops(items, order, keep, 0, 0, n as int);
        assert(items.take(0) =~= Seq::<T>::empty());
    } else {
        let m = below - 1;
        lemma_kept_below_is_kept(n, key, items, order, keep, m);
        assert(items.take(below).drop_last() =~= items.take(m));
        assert(items.take(below).last() == items[m]);
        lemma_order_holds_each(n, key, order, m);
        let at = choose|at: int| 0 <= at < n && #[trigger] order[at] == m;
        assert forall|i: int| 0 <= i < n && i != at implies #[trigger] order[i] != m by {
            if i < at {
                assert(comes_before(key, order[i] as int, order[at] as int));
            } else {
                assert(comes_before(key, order[at] as int, order[i] as int));
            }
        }
        if keep(items[m]) {
            assert forall|i: int| at < i < n implies !(#[trigger] order[i] < below && keep(
                items[order[i] as int],
            )) by {
                if keep(items[order[i] as int]) {
                    assert(order[at] < order[i]);
                }
            }
            lemma_kept_below_stops(items, order, keep, below, at + 1, n as int);
            lemma_kept_below_same(items, order, keep, m, at);
            assert forall|i: int| at <= i < n implies !(#[trigger] order[i] < m && keep(
                items[order[i] as int],
            )) by {
                if i > at && keep(items[order[i] as int]) {
                    assert(order[at] < order[i]);
                }
            }
            lemma_kept_below_stops(items, order, keep, m, at, n as int);
        } else {
            lemma_kept_below_same(items, order, keep, m, at);
            lemma_kept_below_step(items, order, keep, m, at, n as int);
        }
    }
}

/// Raising the bound by one over an item that is not kept changes nothing.
proof fn lemma_kept_below_step<T>(
    items: Seq<T>,
    order: Seq<usize>,
    keep: spec_fn(T) -> bool,
    below: int,
    at: int,
    upto: int,
)
    requires
        0 <= at < upto <= order.len(),
        order[at] == below,
        !keep(items[below]),
        forall|i: int| 0 <= i < order.len() && i != at ==> #[trigger] order[i] != below,
        kept_below(items, order, keep, below + 1, at) == kept_below(items, order, keep, below, at),
    ensures
        kept_below(items, order, keep, below + 1, upto) == kept_below(
            items,
            order,
            keep,
            below,
            upto,
        ),
    decreases upto - at,
{
    if upto - 1 > at {
        lemma_kept_below_step(items, order, keep, below, at, upto - 1);
    }
}

/// A stable ordering that leaves the kept items in the order in which they
/// stood keeps what is kept: the kept items of the reordered list are the
/// kept items of the list as it was.
pub proof fn lemma_kept_of_permuted<T>(
    n: nat,
    key: spec_fn(int) -> int,
    items: Seq<T>,
    order: Seq<usize>,
    keep: spec_fn(T) -> bool,
)
    requires
        items.len() == n,
        is_stable_order(n, key, order),
        forall|i: int, j: int|
            0 <= i < j < n && keep(items[#[trigger] order[i] as int]) && keep(
                items[#[trigger] order[j] as int],
            ) ==> order[i] < order[j],
    ensures
        kept(permuted(items, order), keep) == kept(items, keep),
{
    lemma_kept_below_is_kept(n, key, items, order, keep, n as int);
    lemma_kept_below_all(items, order, keep, n as int);
    assert(items.take(n as int) =~= items);
    assert(permuted(items, order).take(n as int) =~= permuted(items, order));
}

/// A stable ordering leaves in their order all items that rank no lower
/// than those before them: where of two kept items the later never ranks
/// below the earlier, the reordering keeps what is kept.
pub proof fn lemma_kept_of_ordered<T>(
    n: nat,
    key: spec_fn(int) -> int,
    items: Seq<T>,
    order: Seq<usize>,
    keep: spec_fn(T) -> bool,
)
    requires
        items.len() == n,
        is_stable_order(n, key, order),
        forall|x: int, y: int|
            0 <= x < y < n && keep(#[trigger] items[x]) && keep(#[trigger] items[y]) ==> key(x)
                <= key(y),
    ensures
        kept(permuted(items, order), keep) == kept(items, keep),
{
    assert forall|i: int, j: int|
        0 <= i < j < n && keep(items[#[trigger] order[i] as int]) && keep(
            items[#[trigger] order[j] as int],
        ) implies order[i] < order[j] by {
        assert(comes_before(key, order[i] as int, order[j] as int));
        if order[i] > order[j] {
            assert(keep(items[order[j] as int]) && keep(items[order[i] as int]));
            assert(key(order[j] as int) <= key(order[i] as int));
        }
    }
    lemma_kept_of_permuted(n, key, items, order, keep);
}

} // verus!
