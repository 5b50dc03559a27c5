//! Trees of labelled items, and which of them are visible.
use vstd::prelude::*;

use crate::local_path;
use crate::local_path::LocalPath;

verus! {

/// What an item of a tree is found by.
pub trait ItemId: Sized + View {
    /// Two identifiers stand for one item.
    spec fn same_id(a: Self::V, b: Self::V) -> bool;

    fn is_same_id(&self, other: &Self) -> (r: bool)
        ensures
            r == Self::same_id(self@, other@),
    ;

    fn copy_id(&self) -> (r: Self)
        ensures
            r@ == self@,
    ;
}

impl ItemId for LocalPath {
    open spec fn same_id(a: Seq<u8>, b: Seq<u8>) -> bool {
        local_path::same_path(a, b)
    }

    fn is_same_id(&self, other: &Self) -> (r: bool) {
        self.is_same(other)
    }

    fn copy_id(&self) -> (r: Self) {
        self.clone()
    }
}

/// An object of the device that is shown in a tree.
#[derive(Debug, Clone, Copy, PartialEq, Eq, Hash, Structural)]
pub enum DeviceItemId {
    Folder(u32),
    Track(u32),
}

impl View for DeviceItemId {
    type V = DeviceItemId;

    open spec fn view(&self) -> DeviceItemId {
        *self
    }
}

impl ItemId for DeviceItemId {
    open spec fn same_id(a: DeviceItemId, b: DeviceItemId) -> bool {
        a == b
    }

    fn is_same_id(&self, other: &Self) -> (r: bool) {
        *self == *other
    }

    fn copy_id(&self) -> (r: Self) {
        *self
    }
}

/// An item of a tree.
#[derive(Debug)]
pub struct TreeNode<I> {
    pub id: I,
    pub label: String,
    pub children: Vec<TreeNode<I>>,
}

/// An item of a tree, as a mathematical value.
#[verifier::ext_equal]
pub struct NodeView<J> {
    pub id: J,
    pub label: Seq<char>,
    pub children: Seq<NodeView<J>>,
}

/// An item as a mathematical value.
pub open spec fn node_view<I: View>(node: TreeNode<I>) -> NodeView<I::V>
    decreases node,
{
    NodeView { id: node.id@, label: node.label@, children: node_views(node.children@) }
}

/// Items as mathematical values.
pub open spec fn node_views<I: View>(nodes: Seq<TreeNode<I>>) -> Seq<NodeView<I::V>>
    decreases nodes,
{
    Seq::new(
        nodes.len(),
        |i: int|
            if 0 <= i < nodes.len() {
                node_view(nodes[i])
            } else {
                arbitrary()
            },
    )
}

/// The identifiers that a vector holds.
pub open spec fn id_views<I: View>(ids: Seq<I>) -> Seq<I::V> {
    ids.map_values(|i: I| i@)
}

/// The paths of identifiers that a vector holds.
pub open spec fn id_paths<I: View>(paths: Seq<Vec<I>>) -> Seq<Seq<I::V>> {
    paths.map_values(|p: Vec<I>| id_views(p@))
}

/// Two paths of identifiers lead to one item.
pub open spec fn same_ids<I: ItemId>(a: Seq<I::V>, b: Seq<I::V>) -> bool {
    a.len() == b.len() && forall|i: int| 0 <= i < a.len() ==> #[trigger] I::same_id(a[i], b[i])
}

/// The item that a path leads to is open.
pub open spec fn is_open<I: ItemId>(opened: Seq<Seq<I::V>>, path: Seq<I::V>) -> bool {
    exists|i: int| 0 <= i < opened.len() && #[trigger] same_ids::<I>(opened[i], path)
}

/// The identifiers of the visible items, from the top down. The items in an item are visible
/// exactly where it is visible and open.
pub open spec fn visible<I: ItemId>(
    nodes: Seq<NodeView<I::V>>,
    opened: Seq<Seq<I::V>>,
    above: Seq<I::V>,
) -> Seq<I::V>
    decreases nodes,
{
    if nodes.len() == 0 {
        Seq::empty()
    } else {
        let path = above.push(nodes[0].id);
        let inner = if is_open::<I>(opened, path) {
            visible::<I>(nodes[0].children, opened, path)
        } else {
            Seq::empty()
        };
        seq![nodes[0].id] + inner + visible::<I>(nodes.drop_first(), opened, above)
    }
}

/// Which item of a tree is selected, and which items are open.
#[derive(Debug)]
pub struct TreeCursor<I> {
    pub path: Vec<I>,
    pub opened: Vec<Vec<I>>,
}

/// A `TreeCursor` as a mathematical value.
#[verifier::ext_equal]
pub struct CursorView<J> {
    pub path: Seq<J>,
    pub opened: Seq<Seq<J>>,
}

impl<I: View> View for TreeCursor<I> {
    type V = CursorView<I::V>;

    open spec fn view(&self) -> CursorView<I::V> {
        CursorView { path: id_views(self.path@), opened: id_paths(self.opened@) }
    }
}

impl<J> CursorView<J> {
    /// The item that is selected.
    pub open spec fn current(self) -> Option<J> {
        if self.path.len() > 0 {
            Some(self.path.last())
        } else {
            None
        }
    }
}

/// A cursor of a tree in which nothing is selected and nothing is open.
pub open spec fn fresh_cursor<J>() -> CursorView<J> {
    CursorView { path: Seq::empty(), opened: Seq::empty() }
}

impl<I: ItemId> TreeCursor<I> {
    /// A cursor of a tree in which nothing is selected and nothing is open.
    pub fn new() -> (r: Self)
        ensures
            r@ == fresh_cursor::<I::V>(),
    {
        let r = TreeCursor { path: Vec::new(), opened: Vec::new() };
        proof {
            assert(id_views(r.path@) =~= Seq::<I::V>::empty());
            assert(id_paths(r.opened@) =~= Seq::<Seq<I::V>>::empty());
        }
        r
    }

    /// Selects the item that a path leads to.
    pub fn select(&mut self, path: Vec<I>)
        ensures
            final(self)@ == (CursorView { path: id_views(path@), ..old(self)@ }),
    {
        self.path = path;
    }

    /// Opens the item that a path leads to; an empty path leads to none.
    pub fn open(&mut self, path: Vec<I>)
        ensures
            final(self)@ == (CursorView {
                opened: if path@.len() > 0 {
                    old(self)@.opened.push(id_views(path@))
                } else {
                    old(self)@.opened
                },
                ..old(self)@
            }),
    {
        let ghost before = self@.opened;
        if path.len() > 0 {
            self.opened.push(path);
            assert(self@.opened =~= before.push(id_views(path@)));
        }
    }

    /// The item that is selected.
    pub fn selected(&self) -> (r: Option<I>)
        ensures
            (match r {
                Some(id) => self@.current() == Some(id@),
                None => self@.current() is None,
            }),
    {
        let n: usize = self.path.len();
        if n == 0 {
            None
        } else {
            assert(self@.path[n - 1] == self.path@[n - 1]@);
            Some(self.path[n - 1].copy_id())
        }
    }
}

/// Whether two paths of identifiers lead to one item.
fn leads_to_same<I: ItemId>(a: &Vec<I>, b: &Vec<I>) -> (r: bool)
    ensures
        r == same_ids::<I>(id_views(a@), id_views(b@)),
{
    if a.len() != b.len() {
        return false;
    }
    let mut i: usize = 0;
    while i < a.len()
        invariant
            i <= a@.len() == b@.len(),
            forall|j: int|
                0 <= j < i ==> #[trigger] I::same_id(id_views(a@)[j], id_views(b@)[j]),
        decreases a@.len() - i,
    {
        proof {
            assert(id_views(a@)[i as int] == a@[i as int]@);
            assert(id_views(b@)[i as int] == b@[i as int]@);
        }
        if !a[i].is_same_id(&b[i]) {
            assert(!I::same_id(id_views(a@)[i as int], id_views(b@)[i as int]));
            return false;
        }
        i = i + 1;
    }
    true
}

/// Whether the item that a path leads to is open.
fn holds_path<I: ItemId>(opened: &Vec<Vec<I>>, path: &Vec<I>) -> (r: bool)
    ensures
        r == is_open::<I>(id_paths(opened@), id_views(path@)),
{
    let ghost all = id_paths(opened@);
    let mut i: usize = 0;
    while i < opened.len()
        invariant
            i <= opened@.len(),
            all == id_paths(opened@),
            forall|j: int| 0 <= j < i ==> !#[trigger] same_ids::<I>(all[j], id_views(path@)),
        decreases opened@.len() - i,
    {
        assert(all[i as int] == id_views(opened@[i as int]@));
        if leads_to_same(&opened[i], path) {
            assert(same_ids::<I>(all[i as int], id_views(path@)));
            return true;
        }
        i = i + 1;
    }
    false
}

/// A path of identifiers with one more.
fn extended<I: ItemId>(above: &Vec<I>, id: &I) -> (r: Vec<I>)
    ensures
        id_views(r@) == id_views(above@).push(id@),
{
    let ghost all = id_views(above@);
    let mut r: Vec<I> = Vec::new();
    let mut i: usize = 0;
    assert(id_views(r@) =~= all.take(0));
    while i < above.len()
        invariant
            i <= above@.len(),
            all == id_views(above@),
            id_views(r@) == all.take(i as int),
        decreases above@.len() - i,
    {
        let ghost before = id_views(r@);
        let copy = above[i].copy_id();
        r.push(copy);
        proof {
            assert(id_views(r@) =~= before.push(copy@));
            assert(all.take(i + 1) =~= all.take(i as int).push(all[i as int]));
        }
        i = i + 1;
    }
    assert(all.take(i as int) =~= all);
    let copy = id.copy_id();
    r.push(copy);
    assert(id_views(r@) =~= all.push(copy@));
    r
}

/// The identifiers of the visible items, from the top down.
pub fn flatten<I: ItemId>(nodes: &Vec<TreeNode<I>>, opened: &Vec<Vec<I>>, above: &Vec<I>) -> (r:
    Vec<I>)
    ensures
        id_views(r@) == visible::<I>(node_views(nodes@), id_paths(opened@), id_views(above@)),
    decreases nodes@,
{
    let ghost all = node_views(nodes@);
    let ghost open = id_paths(opened@);
    let ghost top = id_views(above@);
    let mut r: Vec<I> = Vec::new();
    let mut i: usize = 0;
    proof {
        assert(all.skip(0) =~= all);
        assert(id_views(r@) + visible::<I>(all, open, top) =~= visible::<I>(all, open, top));
    }
    while i < nodes.len()
        invariant
            i <= nodes@.len(),
            all == node_views(nodes@),
            open == id_paths(opened@),
            top == id_views(above@),
            visible::<I>(all, open, top) == id_views(r@) + visible::<I>(
                all.skip(i as int),
                open,
                top,
            ),
        decreases nodes@.len() - i,
    {
        let node = &nodes[i];
        let ghost so_far = id_views(r@);
        let ghost rest = visible::<I>(all.skip(i + 1), open, top);
        proof {
            assert(all.skip(i as int)[0] == node_view(nodes@[i as int]));
            assert(all.skip(i as int).drop_first() =~= all.skip(i + 1));
        }
        let path = extended(above, &node.id);
        let own = node.id.copy_id();
        r.push(own);
        assert(id_views(r@) =~= so_far.push(own@));
        let ghost mut inner_ids = Seq::<I::V>::empty();
        if holds_path(opened, &path) {
            let mut inner = flatten(&node.children, opened, &path);
            let ghost head = id_views(r@);
            proof {
                inner_ids = id_views(inner@);
            }
            r.append(&mut inner);
            assert(id_views(r@) =~= head + inner_ids);
        }
        proof {
            assert(id_views(r@) =~= so_far + (seq![node.id@] + inner_ids));
            assert(so_far + (seq![node.id@] + inner_ids + rest) =~= (so_far + (seq![node.id@]
                + inner_ids)) + rest);
        }
        i = i + 1;
    }
    proof {
        assert(all.skip(i as int).len() == 0);
        assert(id_views(r@) + visible::<I>(all.skip(i as int), open, top) =~= id_views(r@));
    }
    r
}

// ---------------------------------------------------------------------------
// What holds of visible items
// ---------------------------------------------------------------------------

/// Items that stand side by side are visible one after the other.
pub proof fn lemma_visible_side_by_side<I: ItemId>(
    a: Seq<NodeView<I::V>>,
    b: Seq<NodeView<I::V>>,
    opened: Seq<Seq<I::V>>,
    above: Seq<I::V>,
)
    ensures
        visible::<I>(a + b, opened, above) == visible::<I>(a, opened, above) + visible::<I>(
            b,
            opened,
            above,
        ),
    decreases a.len(),
{
    if a.len() == 0 {
        assert(a + b =~= b);
        assert(visible::<I>(a, opened, above) =~= Seq::<I::V>::empty());
    } else {
        lemma_visible_side_by_side::<I>(a.drop_first(), b, opened, above);
        assert((a + b)[0] == a[0]);
        assert((a + b).drop_first() =~= a.drop_first() + b);
    }
    assert(visible::<I>(a + b, opened, above) =~= visible::<I>(a, opened, above) + visible::<I>(
        b,
        opened,
        above,
    ));
}

/// A closed item is visible alone; below an open one stand the items in it.
pub proof fn lemma_visible_item<I: ItemId>(
    node: NodeView<I::V>,
    opened: Seq<Seq<I::V>>,
    above: Seq<I::V>,
)
    ensures
        ({
            let all = visible::<I>(seq![node], opened, above);
            let path = above.push(node.id);
            &&& all.len() > 0 && all[0] == node.id
            &&& is_open::<I>(opened, path) ==> all.drop_first() == visible::<I>(
                node.children,
                opened,
                path,
            )
            &&& !is_open::<I>(opened, path) ==> all.len() == 1
        }),
{
    let all = visible::<I>(seq![node], opened, above);
    let path = above.push(node.id);
    assert(seq![node].drop_first() =~= Seq::<NodeView<I::V>>::empty());
    assert(visible::<I>(seq![node].drop_first(), opened, above) =~= Seq::<I::V>::empty());
    if is_open::<I>(opened, path) {
        assert(all.drop_first() =~= visible::<I>(node.children, opened, path));
    }
}

/// Where nothing is open, the items at the top are visible, in their order, and no others.
pub proof fn lemma_visible_closed<I: ItemId>(nodes: Seq<NodeView<I::V>>, above: Seq<I::V>)
    ensures
        visible::<I>(nodes, Seq::empty(), above).len() == nodes.len(),
        forall|i: int|
            0 <= i < nodes.len() ==> #[trigger] visible::<I>(nodes, Seq::empty(), above)[i]
                == nodes[i].id,
    decreases nodes.len(),
{
    if nodes.len() > 0 {
        let none = Seq::<Seq<I::V>>::empty();
        let rest = nodes.drop_first();
        lemma_visible_closed::<I>(rest, above);
        let all = visible::<I>(nodes, none, above);
        assert(!is_open::<I>(none, above.push(nodes[0].id)));
        assert(all =~= seq![nodes[0].id] + visible::<I>(rest, none, above));
        assert forall|i: int| 0 <= i < nodes.len() implies #[trigger] all[i] == nodes[i].id by {
            if i > 0 {
                assert(all[i] == visible::<I>(rest, none, above)[i - 1]);
                assert(rest[i - 1] == nodes[i]);
            }
        }
    }
}

} // verus!
