//! Stable sorting by keys that are compared lexicographically.
use vstd::prelude::*;

verus! {

/// `a` comes before `b` in lexicographic order.
pub open spec fn lex_less(a: Seq<u32>, b: Seq<u32>) -> bool
    decreases a.len(),
{
    if b.len() == 0 {
        false
    } else if a.len() == 0 {
        true
    } else {
        a[0] < b[0] || (a[0] == b[0] && lex_less(a.drop_first(), b.drop_first()))
    }
}

/// The sort key of a text: its characters, in the order of their code points.
pub open spec fn text_key(s: Seq<char>) -> Seq<u32> {
    s.map_values(|c: char| c as u32)
}

/// `order` with the index `x` put behind every index whose key is not greater.
pub open spec fn inserted(order: Seq<int>, keys: Seq<Seq<u32>>, x: int) -> Seq<int>
    decreases order.len(),
{
    if order.len() > 0 && lex_less(keys[x], keys[order.last()]) {
        inserted(order.drop_last(), keys, x).push(order.last())
    } else {
        order.push(x)
    }
}

/// The indices of the keys, in the order of the keys; equal keys keep their order.
pub open spec fn sorted_order(keys: Seq<Seq<u32>>) -> Seq<int>
    decreases keys.len(),
{
    if keys.len() == 0 {
        Seq::empty()
    } else {
        inserted(sorted_order(keys.drop_last()), keys, keys.len() - 1)
    }
}

/// The items at the given indices.
pub open spec fn arranged<T>(items: Seq<T>, order: Seq<int>) -> Seq<T> {
    order.map_values(|i: int| items[i])
}

/// The items sorted by their keys; items with equal keys keep their order.
pub open spec fn sorted_by<T>(items: Seq<T>, keys: Seq<Seq<u32>>) -> Seq<T> {
    arranged(items, sorted_order(keys))
}

/// `order` lists every index of `keys` once, by ascending key, and equal keys by ascending index.
pub open spec fn is_stable_order(keys: Seq<Seq<u32>>, order: Seq<int>) -> bool {
    &&& order.len() == keys.len()
    &&& forall|i: int| 0 <= i < order.len() ==> 0 <= #[trigger] order[i] < keys.len()
    &&& forall|k: int| 0 <= k < keys.len() ==> #[trigger] order.contains(k)
    &&& forall|i: int, j: int|
        0 <= i < j < order.len() ==> order[i] != order[j] && !lex_less(
            keys[#[trigger] order[j]],
            keys[#[trigger] order[i]],
        ) && (lex_less(keys[order[i]], keys[order[j]]) || order[i] < order[j])
}

/// The lexicographic order is irreflexive and transitive, and two keys that are not before each
/// other are equal.
pub proof fn lemma_lex_order(a: Seq<u32>, b: Seq<u32>, c: Seq<u32>)
    ensures
        !lex_less(a, a),
        lex_less(a, b) && lex_less(b, c) ==> lex_less(a, c),
        !lex_less(a, b) && !lex_less(b, a) ==> a == b,
        !(lex_less(a, b) && lex_less(b, a)),
    decreases a.len(),
{
    if a.len() > 0 {
        let a1 = a.drop_first();
        let b1 = b.drop_first();
        let c1 = c.drop_first();
        lemma_lex_order(a1, b1, c1);
        if b.len() > 0 && a[0] == b[0] && a1 == b1 {
            assert(a =~= seq![a[0]] + a1);
            assert(b =~= seq![b[0]] + b1);
        }
    } else if b.len() == 0 {
        assert(a =~= b);
    }
}

/// Where an index lands: the indices before and behind it keep their order.
proof fn lemma_inserted_at(order: Seq<int>, keys: Seq<Seq<u32>>, x: int) -> (at: int)
    ensures
        0 <= at <= order.len(),
        inserted(order, keys, x) == order.insert(at, x),
        forall|i: int| at <= i < order.len() ==> lex_less(keys[x], keys[#[trigger] order[i]]),
        at > 0 ==> !lex_less(keys[x], keys[order[at - 1]]),
    decreases order.len(),
{
    if order.len() > 0 && lex_less(keys[x], keys[order.last()]) {
        let front = order.drop_last();
        let at = lemma_inserted_at(front, keys, x);
        assert(order.insert(at, x) =~= front.insert(at, x).push(order.last()));
        assert forall|i: int| at <= i < order.len() implies lex_less(
            keys[x],
            keys[#[trigger] order[i]],
        ) by {
            if i < front.len() {
                assert(front[i] == order[i]);
            }
        }
        if at > 0 {
            assert(front[at - 1] == order[at - 1]);
        }
        at
    } else {
        assert(order.insert(order.len() as int, x) =~= order.push(x));
        order.len() as int
    }
}

/// The keys at indices below the last one do not depend on the last key.
proof fn lemma_inserted_keys(order: Seq<int>, keys: Seq<Seq<u32>>, more: Seq<Seq<u32>>, x: int)
    requires
        forall|i: int| 0 <= i < order.len() ==> keys[#[trigger] order[i]] == more[order[i]],
        keys[x] == more[x],
    ensures
        inserted(order, keys, x) == inserted(order, more, x),
    decreases order.len(),
{
    if order.len() > 0 {
        let front = order.drop_last();
        assert forall|i: int| 0 <= i < front.len() implies keys[#[trigger] front[i]]
            == more[front[i]] by {
            assert(front[i] == order[i]);
        }
        assert(keys[order.last()] == more[order.last()]) by {
            assert(order[order.len() - 1] == order.last());
        }
        lemma_inserted_keys(front, keys, more, x);
    }
}

/// The sorted order is the stable order of the keys.
pub proof fn lemma_sorted_order(keys: Seq<Seq<u32>>)
    ensures
        is_stable_order(keys, sorted_order(keys)),
    decreases keys.len(),
{
    if keys.len() > 0 {
        let front = keys.drop_last();
        let order = sorted_order(front);
        let x = keys.len() - 1;
        lemma_sorted_order(front);
        let at = lemma_inserted_at(order, keys, x);
        let all = order.insert(at, x);
        assert forall|i: int| 0 <= i < all.len() implies 0 <= #[trigger] all[i] < keys.len() by {
            if i < at {
                assert(all[i] == order[i]);
            } else if i > at {
                assert(all[i] == order[i - 1]);
            }
        }
        assert forall|k: int| 0 <= k < keys.len() implies #[trigger] all.contains(k) by {
            if k == x {
                assert(all[at] == x);
            } else {
                assert(order.contains(k));
                let i = choose|i: int| 0 <= i < order.len() && order[i] == k;
                if i < at {
                    assert(all[i] == k);
                } else {
                    assert(all[i + 1] == k);
                }
            }
        }
        assert forall|i: int, j: int| 0 <= i < j < all.len() implies all[i] != all[j] && !lex_less(
            keys[#[trigger] all[j]],
            keys[#[trigger] all[i]],
        ) && (lex_less(keys[all[i]], keys[all[j]]) || all[i] < all[j]) by {
            let oi = if i < at { i } else { i - 1 };
            let oj = if j < at { j } else { j - 1 };
            if i != at {
                assert(all[i] == order[oi]);
                assert(front[order[oi]] == keys[order[oi]]);
            }
            if j != at {
                assert(all[j] == order[oj]);
                assert(front[order[oj]] == keys[order[oj]]);
            }
            if i == at {
                assert(lex_less(keys[x], keys[order[oj]]));
                lemma_lex_order(keys[x], keys[order[oj]], keys[x]);
            } else if j == at {
                assert(!lex_less(keys[x], keys[order[at - 1]]));
                if oi < at - 1 {
                    assert(front[order[at - 1]] == keys[order[at - 1]]);
                    assert(!lex_less(keys[order[at - 1]], keys[order[oi]]));
                    lemma_lex_order(keys[x], keys[order[oi]], keys[order[at - 1]]);
                    lemma_lex_order(keys[order[at - 1]], keys[x], keys[order[oi]]);
                    lemma_lex_order(keys[order[oi]], keys[order[at - 1]], keys[x]);
                }
            }
        }
    }
}

/// There is only one stable order.
pub proof fn lemma_stable_order_unique(keys: Seq<Seq<u32>>, a: Seq<int>, b: Seq<int>)
    requires
        is_stable_order(keys, a),
        is_stable_order(keys, b),
    ensures
        a == b,
{
    if a != b {
        assert(!(a =~= b));
        lemma_first_difference(keys, a, b, 0);
    }
}

proof fn lemma_first_difference(keys: Seq<Seq<u32>>, a: Seq<int>, b: Seq<int>, n: int)
    requires
        is_stable_order(keys, a),
        is_stable_order(keys, b),
        0 <= n <= a.len(),
        forall|i: int| 0 <= i < n ==> a[i] == b[i],
    ensures
        a == b,
    decreases a.len() - n,
{
    if n == a.len() {
        assert(a =~= b);
    } else {
        if a[n] != b[n] {
            assert(b.contains(a[n]));
            let j = choose|j: int| 0 <= j < b.len() && b[j] == a[n];
            assert(a.contains(b[n]));
            let i = choose|i: int| 0 <= i < a.len() && a[i] == b[n];
            if j < n {
                assert(a[j] == b[j]);
                assert(false);
            }
            if i < n {
                assert(a[i] == b[i]);
                assert(false);
            }
            // b[n] stands before a[n] in b, and a[n] before b[n] in a
            assert(n < j && n < i);
            lemma_lex_order(keys[a[n]], keys[b[n]], keys[a[n]]);
            assert(lex_less(keys[a[n]], keys[a[i]]) || a[n] < a[i]);
            assert(lex_less(keys[b[n]], keys[b[j]]) || b[n] < b[j]);
            assert(!lex_less(keys[a[i]], keys[a[n]]));
            assert(!lex_less(keys[b[j]], keys[b[n]]));
            assert(false);
        }
        lemma_first_difference(keys, a, b, n + 1);
    }
}

/// Sorting goes by the keys alone: it commutes with whatever is done to each item.
pub proof fn lemma_sorted_by_map<T, U>(items: Seq<T>, keys: Seq<Seq<u32>>, f: spec_fn(T) -> U)
    requires
        items.len() == keys.len(),
    ensures
        sorted_by(items, keys).map_values(f) == sorted_by(items.map_values(f), keys),
{
    lemma_sorted_order(keys);
    let order = sorted_order(keys);
    assert forall|i: int| 0 <= i < order.len() implies sorted_by(items, keys).map_values(f)[i]
        == sorted_by(items.map_values(f), keys)[i] by {
        assert(0 <= order[i] < keys.len());
    }
    assert(sorted_by(items, keys).map_values(f) =~= sorted_by(items.map_values(f), keys));
}

/// The keys that a vector of key vectors holds.
pub open spec fn key_views(keys: Seq<Vec<u32>>) -> Seq<Seq<u32>> {
    keys.map_values(|k: Vec<u32>| k@)
}

/// Whether `a` comes before `b`.
pub(crate) fn key_less(a: &Vec<u32>, b: &Vec<u32>) -> (r: bool)
    ensures
        r == lex_less(a@, b@),
{
    let mut i: usize = 0;
    proof {
        assert(a@.skip(0) == a@);
        assert(b@.skip(0) == b@);
    }
    while i < a.len() && i < b.len()
        invariant
            i <= a@.len(),
            i <= b@.len(),
            lex_less(a@, b@) == lex_less(a@.skip(i as int), b@.skip(i as int)),
        decreases a@.len() - i,
    {
        proof {
            assert(a@.skip(i as int)[0] == a@[i as int]);
            assert(b@.skip(i as int)[0] == b@[i as int]);
            assert(a@.skip(i as int).drop_first() == a@.skip(i + 1));
            assert(b@.skip(i as int).drop_first() == b@.skip(i + 1));
        }
        if a[i] < b[i] {
            return true;
        }
        if a[i] > b[i] {
            return false;
        }
        i = i + 1;
    }
    i < b.len()
}

/// The sort key of a text.
pub(crate) fn key_of_chars(s: &[char]) -> (r: Vec<u32>)
    ensures
        r@ == text_key(s@),
{
    let mut r: Vec<u32> = Vec::new();
    let mut i: usize = 0;
    while i < s.len()
        invariant
            i <= s@.len(),
            r@ == text_key(s@).take(i as int),
        decreases s@.len() - i,
    {
        r.push(s[i] as u32);
        i = i + 1;
        assert(text_key(s@).take(i as int) == text_key(s@).take(i - 1).push(s@[i - 1] as u32));
    }
    assert(text_key(s@).take(i as int) == text_key(s@));
    r
}

/// Sorts items by their keys; items with equal keys keep their order.
pub(crate) fn sort_by_keys<T>(items: Vec<T>, keys: Vec<Vec<u32>>) -> (r: Vec<T>)
    requires
        items@.len() == keys@.len(),
    ensures
        r@ == sorted_by(items@, key_views(keys@)),
{
    let ghost all = items@;
    let ghost ks = key_views(keys@);
    let mut left = items;
    let mut order: Vec<usize> = Vec::new();
    let mut r: Vec<T> = Vec::new();
    let n: usize = keys.len();
    let mut done: usize = 0;
    proof {
        assert(all.skip(0) == all);
        assert(ks.take(0).len() == 0);
        assert(order@.map_values(|i: usize| i as int) =~= sorted_order(ks.take(0)));
        assert(r@ =~= arranged(all, sorted_order(ks.take(0))));
    }
    while done < n
        invariant
            done <= n == keys@.len() == all.len(),
            ks == key_views(keys@),
            left@ == all.skip(done as int),
            order@.len() == done == r@.len(),
            order@.map_values(|i: usize| i as int) == sorted_order(ks.take(done as int)),
            forall|i: int| 0 <= i < done ==> #[trigger] order@[i] < done,
            r@ == arranged(all, sorted_order(ks.take(done as int))),
        decreases n - done,
    {
        let ghost before = sorted_order(ks.take(done as int));
        let item = left.remove(0);
        proof {
            assert(item == all[done as int]);
            assert(left@ =~= all.skip(done + 1));
            assert(before.len() == done);
            assert(before =~= order@.map_values(|i: usize| i as int));
            assert(before.take(done as int) =~= before);
            assert(before.skip(done as int) =~= Seq::<int>::empty());
        }
        let mut at: usize = done;
        assert(inserted(before, ks, done as int) =~= inserted(
            before.take(at as int),
            ks,
            done as int,
        ) + before.skip(at as int));
        while at > 0 && key_less(&keys[done], &keys[order[at - 1]])
            invariant
                at <= done < n == keys@.len(),
                ks == key_views(keys@),
                order@.len() == done,
                before.len() == done,
                forall|i: int| 0 <= i < done ==> before[i] == #[trigger] order@[i] as int,
                forall|i: int| 0 <= i < done ==> #[trigger] order@[i] < done,
                inserted(before, ks, done as int) == inserted(
                    before.take(at as int),
                    ks,
                    done as int,
                ) + before.skip(at as int),
            decreases at,
        {
            proof {
                let head = before.take(at as int);
                assert(head.last() == before[at - 1]);
                assert(before[at - 1] == order@[at - 1] as int);
                assert(ks[done as int] == keys@[done as int]@);
                assert(ks[before[at - 1]] == keys@[order@[at - 1] as int]@);
                assert(head.drop_last() == before.take(at - 1));
                assert(inserted(before.take(at - 1), ks, done as int).push(before[at - 1])
                    + before.skip(at as int) =~= inserted(before.take(at - 1), ks, done as int)
                    + before.skip(at - 1));
            }
            at = at - 1;
        }
        proof {
            let head = before.take(at as int);
            if at > 0 {
                assert(head.last() == before[at - 1]);
                assert(before[at - 1] == order@[at - 1] as int);
                assert(ks[done as int] == keys@[done as int]@);
                assert(ks[before[at - 1]] == keys@[order@[at - 1] as int]@);
            }
            assert(inserted(head, ks, done as int) == head.push(done as int));
            assert(head.push(done as int) + before.skip(at as int) =~= before.insert(
                at as int,
                done as int,
            ));
            let next = ks.take(done + 1);
            assert(next.drop_last() =~= ks.take(done as int));
            assert forall|i: int| 0 <= i < before.len() implies next[#[trigger] before[i]]
                == ks[before[i]] by {
                assert(before[i] == order@[i] as int);
            }
            lemma_inserted_keys(before, next, ks, done as int);
            assert(sorted_order(next) == before.insert(at as int, done as int));
        }
        let ghost old_order = order@;
        let ghost old_r = r@;
        order.insert(at, done);
        r.insert(at, item);
        proof {
            assert(order@.map_values(|i: usize| i as int) =~= before.insert(
                at as int,
                done as int,
            ));
            assert(r@ =~= arranged(all, before.insert(at as int, done as int)));
            assert forall|i: int| 0 <= i < done + 1 implies #[trigger] order@[i] < done + 1 by {
                if i < at {
                    assert(order@[i] == old_order[i]);
                } else if i > at {
                    assert(order@[i] == old_order[i - 1]);
                }
            }
        }
        done = done + 1;
    }
    assert(ks.take(done as int) == ks);
    r
}

/// Two keys agree up to index `i`, where the first ends or holds the smaller number.
pub open spec fn differs_at(a: Seq<u32>, b: Seq<u32>, i: int) -> bool {
    &&& 0 <= i <= a.len()
    &&& i < b.len()
    &&& forall|j: int| 0 <= j < i ==> #[trigger] a[j] == b[j]
    &&& i < a.len() ==> a[i] < b[i]
}

/// A key comes before another exactly where it holds the smaller number at their first difference,
/// or ends there.
pub proof fn lemma_first_difference_decides(a: Seq<u32>, b: Seq<u32>)
    ensures
        lex_less(a, b) <==> exists|i: int| #[trigger] differs_at(a, b, i),
    decreases a.len(),
{
    if b.len() > 0 && a.len() > 0 {
        let a1 = a.drop_first();
        let b1 = b.drop_first();
        lemma_first_difference_decides(a1, b1);
        if a[0] < b[0] {
            assert(differs_at(a, b, 0));
        } else if lex_less(a, b) {
            let i = choose|i: int| #[trigger] differs_at(a1, b1, i);
            assert forall|j: int| 0 <= j < i + 1 implies #[trigger] a[j] == b[j] by {
                if j > 0 {
                    assert(a1[j - 1] == b1[j - 1]);
                }
            }
            assert(differs_at(a, b, i + 1));
        }
        if exists|i: int| #[trigger] differs_at(a, b, i) {
            let i = choose|i: int| #[trigger] differs_at(a, b, i);
            if i > 0 {
                assert(a[0] == b[0]);
                assert forall|j: int| 0 <= j < i - 1 implies #[trigger] a1[j] == b1[j] by {
                    assert(a[j + 1] == b[j + 1]);
                }
                assert(differs_at(a1, b1, i - 1));
            }
        }
    } else if b.len() > 0 {
        assert(differs_at(a, b, 0));
    }
}

/// Sorting keeps the items: what comes out is what went in, arranged by the keys; items with equal
/// keys stay in their order.
pub proof fn lemma_sorted_by<T>(items: Seq<T>, keys: Seq<Seq<u32>>)
    requires
        items.len() == keys.len(),
    ensures
        is_arrangement(items, keys, sorted_by(items, keys)),
{
    lemma_sorted_order(keys);
    let order = sorted_order(keys);
    assert forall|k: int| 0 <= k < order.len() implies (#[trigger] sorted_by(items, keys)[k])
        == items[order[k]] by {}
    assert(is_stable_order(keys, order));
}

/// Items are arranged by their keys, those with equal keys in their order.
pub open spec fn is_arrangement<T>(items: Seq<T>, keys: Seq<Seq<u32>>, all: Seq<T>) -> bool {
    exists|order: Seq<int>| #[trigger]
        is_stable_order(keys, order) && all.len() == items.len() && forall|k: int|
            0 <= k < all.len() ==> (#[trigger] all[k]) == items[order[k]]
}

} // verus!
