//! Searching and filtering sequences.
use vstd::prelude::*;

verus! {

/// What is kept of the first `i + 1` items.
pub proof fn lemma_filter_next<T>(s: Seq<T>, i: int, keep: spec_fn(T) -> bool)
    requires
        0 <= i < s.len(),
    ensures
        s.take(i + 1).filter(keep) == if keep(s[i]) {
            s.take(i).filter(keep).push(s[i])
        } else {
            s.take(i).filter(keep)
        },
{
    reveal(Seq::filter);
    assert(s.take(i + 1).drop_last() =~= s.take(i));
    assert(s.take(i + 1).last() == s[i]);
}

/// Nothing is kept of no items, and all items are the first `s.len()`.
pub proof fn lemma_filter_ends<T>(s: Seq<T>, keep: spec_fn(T) -> bool)
    ensures
        s.take(0).filter(keep) == Seq::<T>::empty(),
        s.take(s.len() as int).filter(keep) == s.filter(keep),
{
    reveal(Seq::filter);
    assert(s.take(0).len() == 0);
    assert(s.take(0).filter(keep) =~= Seq::<T>::empty());
    assert(s.take(s.len() as int) =~= s);
}

/// What a filter keeps stands in the sequence and passes the test, and all that passes is kept.
pub proof fn lemma_filter_members<T>(s: Seq<T>, keep: spec_fn(T) -> bool)
    ensures
        s.filter(keep).len() <= s.len(),
        forall|x: T| #[trigger] s.filter(keep).contains(x) <==> s.contains(x) && keep(x),
    decreases s.len(),
{
    reveal(Seq::filter);
    if s.len() > 0 {
        let front = s.drop_last();
        let last = s.last();
        lemma_filter_members(front, keep);
        assert forall|x: T| #[trigger] s.filter(keep).contains(x) implies s.contains(x) && keep(
            x,
        ) by {
            let i = choose|i: int| 0 <= i < s.filter(keep).len() && s.filter(keep)[i] == x;
            if i < front.filter(keep).len() {
                assert(front.filter(keep)[i] == x);
                assert(front.filter(keep).contains(x));
                let j = choose|j: int| 0 <= j < front.len() && front[j] == x;
                assert(s[j] == x);
            } else {
                assert(s[s.len() - 1] == x);
            }
        }
        assert forall|x: T| s.contains(x) && keep(x) implies #[trigger] s.filter(keep).contains(
            x,
        ) by {
            let i = choose|i: int| 0 <= i < s.len() && s[i] == x;
            if i < front.len() {
                assert(front[i] == x);
                assert(front.contains(x));
                assert(front.filter(keep).contains(x));
                let j = choose|j: int|
                    0 <= j < front.filter(keep).len() && front.filter(keep)[j] == x;
                assert(s.filter(keep)[j] == x);
            } else {
                assert(s.filter(keep)[front.filter(keep).len() as int] == x);
            }
        }
    } else {
        assert(s.filter(keep) =~= s);
    }
}

/// The index of the first item that passes a test.
pub open spec fn position<T>(s: Seq<T>, test: spec_fn(T) -> bool) -> Option<int>
    decreases s.len(),
{
    if s.len() == 0 {
        None
    } else if test(s[0]) {
        Some(0)
    } else {
        match position(s.drop_first(), test) {
            Some(i) => Some(i + 1),
            None => None,
        }
    }
}

/// The first item that passes a test.
pub open spec fn first<T>(s: Seq<T>, test: spec_fn(T) -> bool) -> Option<T> {
    match position(s, test) {
        Some(i) => Some(s[i]),
        None => None,
    }
}

/// The index of the first item that passes a test is the least one of those that pass.
pub proof fn lemma_position<T>(s: Seq<T>, test: spec_fn(T) -> bool)
    ensures
        (match position(s, test) {
            Some(i) => 0 <= i < s.len() && test(s[i]) && forall|j: int|
                0 <= j < i ==> !test(#[trigger] s[j]),
            None => forall|j: int| 0 <= j < s.len() ==> !test(#[trigger] s[j]),
        }),
    decreases s.len(),
{
    if s.len() > 0 && !test(s[0]) {
        let rest = s.drop_first();
        lemma_position(rest, test);
        assert forall|j: int| 0 < j < s.len() && test(#[trigger] s[j]) implies test(
            rest[j - 1],
        ) by {}
    }
}

/// Where the items before an index fail the test, and the item at it passes, that index is the
/// position; where all items fail, there is none.
pub proof fn lemma_position_is<T>(s: Seq<T>, test: spec_fn(T) -> bool, i: int)
    requires
        0 <= i <= s.len(),
        forall|j: int| 0 <= j < i ==> !test(#[trigger] s[j]),
        i < s.len() ==> test(s[i]),
    ensures
        position(s, test) == if i < s.len() {
            Some(i)
        } else {
            None
        },
{
    lemma_position(s, test);
    match position(s, test) {
        Some(k) => {
            if k < i {
                assert(!test(s[k]));
            }
        },
        None => {},
    }
}

/// `kept` is what a test keeps of `all`, each item in its place: `at` gives the indices of the kept
/// items, which grow, and an index is among them exactly where its item passes the test.
pub open spec fn selects<T>(
    all: Seq<T>,
    kept: Seq<T>,
    test: spec_fn(T) -> bool,
    at: Seq<int>,
) -> bool {
    &&& at.len() == kept.len()
    &&& forall|k: int|
        0 <= k < at.len() ==> 0 <= #[trigger] at[k] < all.len() && all[at[k]] == kept[k]
    &&& forall|k: int, l: int| 0 <= k < l < at.len() ==> #[trigger] at[k] < #[trigger] at[l]
    &&& forall|i: int|
        0 <= i < all.len() ==> (test(#[trigger] all[i]) <==> at.contains(i))
}

/// `kept` is what a test keeps of `all`, in the order of `all`.
pub open spec fn is_selection<T>(all: Seq<T>, kept: Seq<T>, test: spec_fn(T) -> bool) -> bool {
    exists|at: Seq<int>| selects(all, kept, test, at)
}

/// A filter keeps what passes its test, each item in its place, and nothing else.
pub proof fn lemma_filter_selects<T>(all: Seq<T>, test: spec_fn(T) -> bool)
    ensures
        is_selection(all, all.filter(test), test),
    decreases all.len(),
{
    reveal(Seq::filter);
    if all.len() == 0 {
        assert(selects(all, all.filter(test), test, Seq::<int>::empty()));
    } else {
        let front = all.drop_last();
        lemma_filter_selects(front, test);
        let before = choose|at: Seq<int>| selects(front, front.filter(test), test, at);
        let at = if test(all.last()) {
            before.push(all.len() - 1)
        } else {
            before
        };
        let kept = all.filter(test);
        assert forall|k: int| 0 <= k < at.len() implies 0 <= #[trigger] at[k] < all.len()
            && all[at[k]] == kept[k] by {
            if k < before.len() {
                assert(at[k] == before[k]);
                assert(front[before[k]] == front.filter(test)[k]);
            }
        }
        assert forall|k: int, l: int| 0 <= k < l < at.len() implies #[trigger] at[k]
            < #[trigger] at[l] by {
            assert(at[k] == before[k]);
            if l < before.len() {
                assert(at[l] == before[l]);
            }
        }
        assert forall|i: int| 0 <= i < all.len() implies (test(#[trigger] all[i])
            <==> at.contains(i)) by {
            if i < front.len() {
                assert(front[i] == all[i]);
                if before.contains(i) {
                    let k = choose|k: int| 0 <= k < before.len() && before[k] == i;
                    assert(at[k] == i);
                }
                if at.contains(i) {
                    let k = choose|k: int| 0 <= k < at.len() && at[k] == i;
                    assert(before[k] == i);
                }
            } else {
                if test(all[i]) {
                    assert(at[before.len() as int] == i);
                }
                if at.contains(i) {
                    let k = choose|k: int| 0 <= k < at.len() && at[k] == i;
                    if k < before.len() {
                        assert(before[k] == i);
                    }
                }
            }
        }
        assert(selects(all, kept, test, at));
    }
}

/// What is selected depends only on what the test says of each item.
pub proof fn lemma_selection_by<T>(
    all: Seq<T>,
    kept: Seq<T>,
    test: spec_fn(T) -> bool,
    other: spec_fn(T) -> bool,
)
    requires
        is_selection(all, kept, test),
        forall|i: int| 0 <= i < all.len() ==> test(#[trigger] all[i]) == other(all[i]),
    ensures
        is_selection(all, kept, other),
{
    let at = choose|at: Seq<int>| selects(all, kept, test, at);
    assert(selects(all, kept, other, at));
}

} // verus!
