//! Sets of marked object ids.
use std::collections::HashSet;

use vstd::prelude::*;

verus! {

/// Whether an object is marked.
pub(crate) fn is_marked(marks: &HashSet<u32>, id: u32) -> (r: bool)
    ensures
        r == marks@.contains(id),
{
    broadcast use vstd::std_specs::hash::group_hash_axioms;

    marks.contains(&id)
}

/// Whether nothing is marked.
pub(crate) fn no_marks(marks: &HashSet<u32>) -> (r: bool)
    ensures
        r == (marks@ == Set::<u32>::empty()),
{
    marks.is_empty()
}

/// Marks an object.
pub(crate) fn mark(marks: &mut HashSet<u32>, id: u32)
    ensures
        final(marks)@ == old(marks)@.insert(id),
{
    broadcast use vstd::std_specs::hash::group_hash_axioms;

    marks.insert(id);
}

/// Removes the mark of an object.
pub(crate) fn unmark(marks: &mut HashSet<u32>, id: u32)
    ensures
        final(marks)@ == old(marks)@.remove(id),
{
    broadcast use vstd::std_specs::hash::group_hash_axioms;

    let removed = marks.remove(&id);
    proof {
        if !removed {
            assert(old(marks)@.remove(id) =~= old(marks)@);
        } else {
            assert(marks@ =~= old(marks)@.remove(id));
        }
    }
}

/// The marks once the mark of one object is switched.
pub open spec fn switched(marks: Set<u32>, id: u32) -> Set<u32> {
    if marks.contains(id) {
        marks.remove(id)
    } else {
        marks.insert(id)
    }
}

/// Switches the mark of an object.
pub(crate) fn switch_mark(marks: &mut HashSet<u32>, id: u32)
    ensures
        final(marks)@ == switched(old(marks)@, id),
{
    if is_marked(marks, id) {
        unmark(marks, id);
    } else {
        mark(marks, id);
    }
}

/// All of a group is marked, and the group is not empty.
pub open spec fn group_marked(ids: Seq<u32>, marks: Set<u32>) -> bool {
    ids.len() > 0 && forall|i: int| 0 <= i < ids.len() ==> marks.contains(#[trigger] ids[i])
}

/// The marks once a group is switched: a group that is all marked loses its marks, any other
/// group gets them all.
pub open spec fn group_switched(marks: Set<u32>, ids: Seq<u32>) -> Set<u32> {
    if group_marked(ids, marks) {
        marks.difference(ids.to_set())
    } else {
        marks.union(ids.to_set())
    }
}

/// Whether a group is not empty and all of it is marked.
pub fn group_is_fully_marked(track_ids: &[u32], marks: &HashSet<u32>) -> (r: bool)
    ensures
        r == group_marked(track_ids@, marks@),
{
    if track_ids.len() == 0 {
        return false;
    }
    let mut i: usize = 0;
    while i < track_ids.len()
        invariant
            i <= track_ids@.len(),
            forall|j: int| 0 <= j < i ==> marks@.contains(#[trigger] track_ids@[j]),
        decreases track_ids@.len() - i,
    {
        if !is_marked(marks, track_ids[i]) {
            assert(!marks@.contains(track_ids@[i as int]));
            return false;
        }
        i = i + 1;
    }
    true
}

/// Marks all of a group.
pub(crate) fn mark_group(marks: &mut HashSet<u32>, ids: &[u32])
    ensures
        final(marks)@ == old(marks)@.union(ids@.to_set()),
{
    let ghost before = marks@;
    let mut i: usize = 0;
    assert(marks@ =~= before.union(ids@.take(0).to_set()));
    while i < ids.len()
        invariant
            i <= ids@.len(),
            marks@ == before.union(ids@.take(i as int).to_set()),
        decreases ids@.len() - i,
    {
        mark(marks, ids[i]);
        proof {
            let head = ids@.take(i as int);
            assert(ids@.take(i + 1) == head.push(ids@[i as int]));
            lemma_pushed_set(head, ids@[i as int]);
            assert(marks@ =~= before.union(ids@.take(i + 1).to_set()));
        }
        i = i + 1;
    }
    assert(ids@.take(i as int) == ids@);
}

/// Removes the marks of all of a group.
pub(crate) fn unmark_group(marks: &mut HashSet<u32>, ids: &[u32])
    ensures
        final(marks)@ == old(marks)@.difference(ids@.to_set()),
{
    let ghost before = marks@;
    let mut i: usize = 0;
    assert(marks@ =~= before.difference(ids@.take(0).to_set()));
    while i < ids.len()
        invariant
            i <= ids@.len(),
            marks@ == before.difference(ids@.take(i as int).to_set()),
        decreases ids@.len() - i,
    {
        unmark(marks, ids[i]);
        proof {
            let head = ids@.take(i as int);
            assert(ids@.take(i + 1) == head.push(ids@[i as int]));
            lemma_pushed_set(head, ids@[i as int]);
            assert(marks@ =~= before.difference(ids@.take(i + 1).to_set()));
        }
        i = i + 1;
    }
    assert(ids@.take(i as int) == ids@);
}

/// The set of a sequence with one more item.
pub proof fn lemma_pushed_set<T>(s: Seq<T>, x: T)
    ensures
        s.push(x).to_set() == s.to_set().insert(x),
{
    assert forall|y: T| s.push(x).to_set().contains(y) == s.to_set().insert(x).contains(y) by {
        if s.contains(y) {
            let i = choose|i: int| 0 <= i < s.len() && s[i] == y;
            assert(s.push(x)[i] == y);
        }
        if y == x {
            assert(s.push(x)[s.len() as int] == x);
        }
        if s.push(x).contains(y) && y != x {
            let i = choose|i: int| 0 <= i < s.push(x).len() && s.push(x)[i] == y;
            assert(s[i] == y);
        }
    }
    assert(s.push(x).to_set() =~= s.to_set().insert(x));
}

/// Switches the marks of a group: a group that is all marked loses its marks, any other group gets
/// them all.
pub fn toggle_track_group(marks: &mut HashSet<u32>, track_ids: &[u32])
    ensures
        final(marks)@ == group_switched(old(marks)@, track_ids@),
{
    if group_is_fully_marked(track_ids, marks) {
        unmark_group(marks, track_ids);
    } else {
        mark_group(marks, track_ids);
    }
}

/// A group that is not empty is all marked once it is switched, unless it was all marked before:
/// then none of it is.
pub proof fn lemma_group_switched(marks: Set<u32>, ids: Seq<u32>)
    requires
        ids.len() > 0,
    ensures
        group_marked(ids, group_switched(marks, ids)) == !group_marked(ids, marks),
        group_marked(ids, marks) ==> forall|i: int|
            0 <= i < ids.len() ==> !group_switched(marks, ids).contains(#[trigger] ids[i]),
        forall|id: u32|
            !ids.contains(id) ==> #[trigger] group_switched(marks, ids).contains(id)
                == marks.contains(id),
{
    assert forall|i: int| 0 <= i < ids.len() implies group_switched(marks, ids).contains(
        #[trigger] ids[i],
    ) == !group_marked(ids, marks) by {
        assert(ids.to_set().contains(ids[i]));
    }
    assert(ids.to_set().contains(ids[0]));
    assert(group_switched(marks, ids).contains(ids[0]) == !group_marked(ids, marks));
}

/// Switching a group twice changes nothing where all of it, or none of it, was marked.
pub proof fn lemma_group_switched_twice(marks: Set<u32>, ids: Seq<u32>)
    requires
        group_marked(ids, marks) || forall|i: int|
            0 <= i < ids.len() ==> !marks.contains(#[trigger] ids[i]),
    ensures
        group_switched(group_switched(marks, ids), ids) == marks,
{
    if ids.len() > 0 {
        lemma_group_switched(marks, ids);
    }
    let once = group_switched(marks, ids);
    assert forall|id: u32| group_switched(once, ids).contains(id) == marks.contains(id) by {
        if ids.contains(id) {
            let i = choose|i: int| 0 <= i < ids.len() && ids[i] == id;
            assert(ids.to_set().contains(ids[i]));
            assert(marks.contains(ids[i]) == group_marked(ids, marks));
        } else {
            assert(!ids.to_set().contains(id));
        }
    }
    assert(group_switched(once, ids) =~= marks);
}

/// Switching a mark changes that mark and no other; switching it twice changes nothing.
pub proof fn lemma_switched(marks: Set<u32>, id: u32)
    ensures
        switched(marks, id).contains(id) == !marks.contains(id),
        forall|x: u32| x != id ==> #[trigger] switched(marks, id).contains(x) == marks.contains(x),
        switched(switched(marks, id), id) == marks,
{
    assert(switched(switched(marks, id), id) =~= marks);
}

/// A group is marked where it is not empty and all of it is marked.
pub proof fn lemma_group_marked(ids: Seq<u32>, marks: Set<u32>)
    ensures
        group_marked(ids, marks) <==> ids.len() > 0 && ids.to_set().subset_of(marks),
{
    if group_marked(ids, marks) {
        assert forall|x: u32| ids.to_set().contains(x) implies marks.contains(x) by {
            let i = choose|i: int| 0 <= i < ids.len() && ids[i] == x;
            assert(marks.contains(ids[i]));
        }
    }
    if ids.len() > 0 && ids.to_set().subset_of(marks) {
        assert forall|i: int| 0 <= i < ids.len() implies marks.contains(#[trigger] ids[i]) by {
            assert(ids.to_set().contains(ids[i]));
        }
    }
}

} // verus!
