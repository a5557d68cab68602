//! A stable sort by keys that are sequences of numbers.
use vstd::prelude::*;

verus! {

/// `a[i..]` comes before `b[i..]` in lexicographic order: the first numbers
/// that differ decide, and a sequence comes before its continuations.
pub open spec fn lex_lt(a: Seq<u32>, b: Seq<u32>, i: int) -> bool
    decreases b.len() - i,
{
    if i >= b.len() {
        false
    } else if i >= a.len() {
        true
    } else if a[i] != b[i] {
        a[i] < b[i]
    } else {
        lex_lt(a, b, i + 1)
    }
}

/// The keys of a list.
pub open spec fn key_views(keys: Seq<Vec<u32>>) -> Seq<Seq<u32>> {
    keys.map_values(|k: Vec<u32>| k@)
}

/// Item `x` comes before item `y`: by its key, and among equal keys by its
/// place.
pub open spec fn comes_before(keys: Seq<Seq<u32>>, x: int, y: int) -> bool {
    lex_lt(keys[x], keys[y], 0) || (keys[x] == keys[y] && x < y)
}

/// `order` lists the places of all items, each item before those that come
/// after it.
pub open spec fn is_stable_order(keys: Seq<Seq<u32>>, order: Seq<usize>) -> bool {
    &&& order.len() == keys.len()
    &&& forall|i: int| 0 <= i < order.len() ==> (#[trigger] order[i]) < keys.len()
    &&& forall|i: int, j: int|
        0 <= i < j < order.len() ==> comes_before(
            keys,
            #[trigger] order[i] as int,
            #[trigger] order[j] as int,
        )
    &&& forall|k: usize| k < keys.len() ==> #[trigger] order.contains(k)
}

/// The stable order of a list by its keys.
pub open spec fn the_order(keys: Seq<Seq<u32>>) -> Seq<usize> {
    choose|order: Seq<usize>| is_stable_order(keys, order)
}

/// The items in the order in which their places are listed.
pub open spec fn arranged<T>(items: Seq<T>, order: Seq<usize>) -> Seq<T> {
    Seq::new(order.len(), |i: int| items[order[i] as int])
}

proof fn lemma_lex_irreflexive(a: Seq<u32>, i: int)
    ensures
        !lex_lt(a, a, i),
    decreases a.len() - i,
{
    if i < a.len() {
        lemma_lex_irreflexive(a, i + 1);
    }
}

proof fn lemma_lex_transitive(a: Seq<u32>, b: Seq<u32>, c: Seq<u32>, i: int)
    requires
        lex_lt(a, b, i),
        lex_lt(b, c, i),
    ensures
        lex_lt(a, c, i),
    decreases c.len() - i,
{
    if i < a.len() && i < b.len() && i < c.len() && a[i] == b[i] && b[i] == c[i] {
        lemma_lex_transitive(a, b, c, i + 1);
    }
}

proof fn lemma_lex_total(a: Seq<u32>, b: Seq<u32>, i: int)
    requires
        0 <= i,
        !lex_lt(a, b, i),
        !lex_lt(b, a, i),
        i <= a.len(),
        i <= b.len(),
    ensures
        a.len() == b.len(),
        forall|k: int| i <= k < a.len() ==> a[k] == b[k],
    decreases a.len() - i,
{
    if i < a.len() && i < b.len() {
        lemma_lex_total(a, b, i + 1);
    }
}

proof fn lemma_before_transitive(keys: Seq<Seq<u32>>, x: int, y: int, z: int)
    requires
        comes_before(keys, x, y),
        comes_before(keys, y, z),
    ensures
        comes_before(keys, x, z),
{
    if lex_lt(keys[x], keys[y], 0) && lex_lt(keys[y], keys[z], 0) {
        lemma_lex_transitive(keys[x], keys[y], keys[z], 0);
    }
}

proof fn lemma_before_irreflexive(keys: Seq<Seq<u32>>, x: int)
    ensures
        !comes_before(keys, x, x),
{
    lemma_lex_irreflexive(keys[x], 0);
}

/// A list of keys has one stable order only.
pub proof fn lemma_stable_order_is_unique(keys: Seq<Seq<u32>>, a: Seq<usize>, b: Seq<usize>)
    requires
        is_stable_order(keys, a),
        is_stable_order(keys, b),
    ensures
        a == b,
{
    assert forall|i: int| 0 <= i < a.len() implies a[i] == b[i] by {
        lemma_same_at(keys, a, b, i);
    }
    assert(a =~= b);
}

proof fn lemma_same_at(keys: Seq<Seq<u32>>, a: Seq<usize>, b: Seq<usize>, i: int)
    requires
        is_stable_order(keys, a),
        is_stable_order(keys, b),
        0 <= i < a.len(),
    ensures
        a[i] == b[i],
    decreases i,
{
    let x = a[i];
    let y = b[i];
    if x != y {
        assert(b.contains(x));
        let j = choose|j: int| 0 <= j < b.len() && b[j] == x;
        if j < i {
            lemma_same_at(keys, a, b, j);
            assert(comes_before(keys, a[j] as int, a[i] as int));
            lemma_before_irreflexive(keys, x as int);
        }
        assert(comes_before(keys, b[i] as int, b[j] as int));
        assert(a.contains(y));
        let k = choose|k: int| 0 <= k < a.len() && a[k] == y;
        if k < i {
            lemma_same_at(keys, a, b, k);
            assert(comes_before(keys, b[k] as int, b[i] as int));
            lemma_before_irreflexive(keys, y as int);
        }
        assert(comes_before(keys, a[i] as int, a[k] as int));
        lemma_before_transitive(keys, x as int, y as int, x as int);
        lemma_before_irreflexive(keys, x as int);
    }
}

/// `order` lists the places of the first `m` items, each item before those that
/// come after it.
spec fn orders(keys: Seq<Seq<u32>>, order: Seq<usize>, m: int) -> bool {
    &&& order.len() == m
    &&& forall|i: int| 0 <= i < m ==> (#[trigger] order[i]) < m
    &&& forall|i: int, j: int|
        0 <= i < j < m ==> comes_before(
            keys,
            #[trigger] order[i] as int,
            #[trigger] order[j] as int,
        )
    &&& forall|k: usize| k < m ==> #[trigger] order.contains(k)
}

/// Item `m` can be put at place `p` of `order`: the items from there on have
/// greater keys, and the one before does not.
spec fn fits_at(keys: Seq<Seq<u32>>, order: Seq<usize>, m: int, p: int) -> bool {
    &&& 0 <= p <= m
    &&& forall|k: int| p <= k < m ==> lex_lt(keys[m], keys[(#[trigger] order[k]) as int], 0)
    &&& p > 0 ==> !lex_lt(keys[m], keys[order[p - 1] as int], 0)
}

/// An item that is put where it fits extends the order.
proof fn lemma_insert(keys: Seq<Seq<u32>>, before: Seq<usize>, m: usize, p: int)
    requires
        m < keys.len(),
        orders(keys, before, m as int),
        fits_at(keys, before, m as int, p),
    ensures
        orders(keys, before.insert(p, m), m + 1),
{
    let order = before.insert(p, m);
    assert forall|i: int, j: int| 0 <= i < j < m + 1 implies comes_before(
        keys,
        #[trigger] order[i] as int,
        #[trigger] order[j] as int,
    ) by {
        if j == p {
            assert(order[i] == before[i]);
            let x = before[p - 1] as int;
            if !lex_lt(keys[x], keys[m as int], 0) {
                lemma_lex_total(keys[x], keys[m as int], 0);
                assert(keys[x] =~= keys[m as int]);
            }
            assert(comes_before(keys, x, m as int));
            if i < p - 1 {
                assert(comes_before(keys, before[i] as int, before[p - 1] as int));
                lemma_before_transitive(keys, before[i] as int, x, m as int);
            }
        } else if i == p {
            assert(order[j] == before[j - 1]);
        } else {
            let a = if i < p {
                i
            } else {
                i - 1
            };
            let b = if j < p {
                j
            } else {
                j - 1
            };
            assert(order[i] == before[a]);
            assert(order[j] == before[b]);
        }
    }
    assert forall|k: usize| k < m + 1 implies #[trigger] order.contains(k) by {
        if k == m {
            assert(order[p] == m);
        } else {
            assert(before.contains(k));
            let i = choose|i: int| 0 <= i < before.len() && before[i] == k;
            if i < p {
                assert(order[i] == k);
            } else {
                assert(order[i + 1] == k);
            }
        }
    }
    assert forall|i: int| 0 <= i < m + 1 implies (#[trigger] order[i]) < m + 1 by {
        if i < p {
            assert(order[i] == before[i]);
        } else if i > p {
            assert(order[i] == before[i - 1]);
        }
    }
}

/// There is a place where item `m` fits, at `p` or before it.
proof fn lemma_place_exists(keys: Seq<Seq<u32>>, order: Seq<usize>, m: int, p: int) -> (r: int)
    requires
        0 <= p <= m,
        forall|k: int| p <= k < m ==> lex_lt(keys[m], keys[(#[trigger] order[k]) as int], 0),
    ensures
        fits_at(keys, order, m, r),
    decreases p,
{
    if p > 0 && lex_lt(keys[m], keys[order[p - 1] as int], 0) {
        lemma_place_exists(keys, order, m, p - 1)
    } else {
        p
    }
}

proof fn lemma_orders_exist(keys: Seq<Seq<u32>>, m: int) -> (order: Seq<usize>)
    requires
        0 <= m <= keys.len() <= usize::MAX,
    ensures
        orders(keys, order, m),
    decreases m,
{
    if m == 0 {
        Seq::empty()
    } else {
        let before = lemma_orders_exist(keys, m - 1);
        let p = lemma_place_exists(keys, before, m - 1, m - 1);
        lemma_insert(keys, before, (m - 1) as usize, p);
        before.insert(p, (m - 1) as usize)
    }
}

/// Every list that fits into memory has a stable order.
pub proof fn lemma_stable_order_exists(keys: Seq<Seq<u32>>)
    requires
        keys.len() <= usize::MAX,
    ensures
        is_stable_order(keys, the_order(keys)),
{
    let order = lemma_orders_exist(keys, keys.len() as int);
    assert(is_stable_order(keys, order));
}

/// Whether `a` comes before `b` in lexicographic order.
fn less(a: &Vec<u32>, b: &Vec<u32>) -> (r: bool)
    ensures
        r == lex_lt(a@, b@, 0),
{
    let mut i: usize = 0;
    while i < b.len()
        invariant
            i <= b@.len(),
            i <= a@.len(),
            lex_lt(a@, b@, 0) == lex_lt(a@, b@, i as int),
        decreases b@.len() - i,
    {
        if i >= a.len() {
            return true;
        }
        if a[i] != b[i] {
            return a[i] < b[i];
        }
        i += 1;
    }
    false
}

/// Sorts a list by its keys; items with equal keys keep their order.
pub fn stable_order(keys: &Vec<Vec<u32>>) -> (order: Vec<usize>)
    ensures
        is_stable_order(key_views(keys@), order@),
        order@ == the_order(key_views(keys@)),
{
    let ghost ks = key_views(keys@);
    let mut order: Vec<usize> = Vec::with_capacity(keys.len());
    let mut m: usize = 0;
    while m < keys.len()
        invariant
            m <= keys@.len(),
            ks == key_views(keys@),
            orders(ks, order@, m as int),
        decreases keys@.len() - m,
    {
        let mut p: usize = m;
        let mut going: bool = true;
        while going && p > 0
            invariant
                p <= m < keys@.len(),
                ks == key_views(keys@),
                orders(ks, order@, m as int),
                forall|k: int|
                    p <= k < m ==> lex_lt(ks[m as int], ks[(#[trigger] order@[k]) as int], 0),
                !going ==> p > 0 && !lex_lt(ks[m as int], ks[order@[p - 1] as int], 0),
            decreases
                p + (if going {
                    1int
                } else {
                    0
                }),
        {
            if less(&keys[m], &keys[order[p - 1]]) {
                p -= 1;
            } else {
                going = false;
            }
        }
        proof {
            lemma_insert(ks, order@, m, p as int);
        }
        order.insert(p, m);
        m += 1;
    }
    proof {
        assert(is_stable_order(ks, order@));
        lemma_stable_order_is_unique(ks, order@, the_order(ks));
    }
    order
}

} // verus!
