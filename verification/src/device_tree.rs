//! The device as it is shown: its folder tree, its playlists, and ranges of marked tracks.
use std::collections::HashSet;

use vstd::prelude::*;

use crate::browser;
use crate::browser::write_boxed;
use crate::deletion;
use crate::device;
use crate::device::{DeviceSnapshot, Folder, FolderView, Playlist, PlaylistView, Track, TrackView};
use crate::folders;
use crate::folders::{has_id, is_music_folder};
use crate::library;
use crate::library::{collect_track_ids, key_of_artist, PhysicalAlbum, PhysicalView};
use crate::marks;
use crate::marks::{group_is_fully_marked, is_marked, mark, mark_group};
use crate::order;
use crate::order::sort_by_keys;
use crate::seqs;
use crate::text;
use crate::text::{copy_text, same_ignoring_ascii_case};
use crate::tree;
use crate::tree::{DeviceItemId, NodeView, TreeNode};

verus! {

// ---------------------------------------------------------------------------
// The folder tree
// ---------------------------------------------------------------------------

/// A folder that holds the device's own album objects.
pub open spec fn is_albums(folder: FolderView) -> bool {
    text::eq_ignoring_ascii_case(folder.name, "Albums"@)
}

/// Whether a folder holds the device's own album objects.
pub fn is_album_object_folder(folder: &Folder) -> (r: bool)
    ensures
        r == is_albums(folder@),
{
    same_ignoring_ascii_case(&folder.name, "Albums")
}

/// The ids of the folders in the given folders.
pub open spec fn inner_ids(artists: Seq<FolderView>) -> Seq<u32>
    decreases artists.len(),
{
    if artists.len() == 0 {
        Seq::empty()
    } else {
        inner_ids(artists.drop_last()) + artists.last().children.map_values(|f: FolderView| f.id)
    }
}

/// The ids of the album folders, that is Music/Artist/Album.
pub open spec fn album_ids(tree: Seq<FolderView>) -> Seq<u32>
    decreases tree.len(),
{
    if tree.len() == 0 {
        Seq::empty()
    } else {
        let before = album_ids(tree.drop_last());
        if folders::is_music(tree.last()) {
            before + inner_ids(tree.last().children)
        } else {
            before
        }
    }
}

/// The item of a track.
pub open spec fn track_node(track: TrackView, marked: Set<u32>) -> NodeView<DeviceItemId> {
    NodeView {
        id: DeviceItemId::Track(track.id),
        label: browser::boxed(marked.contains(track.id), track.name),
        children: Seq::empty(),
    }
}

/// The label of a folder: where it is an album folder with tracks, there is a box in front of it,
/// which is marked where all its tracks are.
pub open spec fn folder_label(
    folder: FolderView,
    tracks: Seq<TrackView>,
    marked: Set<u32>,
    albums: Seq<u32>,
) -> Seq<char> {
    let ids = library::track_ids_in(tracks, folder.id);
    if albums.contains(folder.id) && ids.len() > 0 {
        browser::boxed(marks::group_marked(ids, marked), folder.name)
    } else {
        folder.name
    }
}

/// The item of a folder: its folders, then its tracks. In a folder "Music" the folders are sorted
/// as artists.
pub open spec fn folder_node(
    folder: FolderView,
    tracks: Seq<TrackView>,
    marked: Set<u32>,
    albums: Seq<u32>,
) -> NodeView<DeviceItemId>
    decreases folder,
{
    let nodes = folder_nodes(folder.children, tracks, marked, albums);
    let arranged = if folders::is_music(folder) {
        order::sorted_by(
            nodes,
            folder.children.map_values(|f: FolderView| library::artist_order(f.name)),
        )
    } else {
        nodes
    };
    NodeView {
        id: DeviceItemId::Folder(folder.id),
        label: folder_label(folder, tracks, marked, albums),
        children: arranged + library::tracks_in(tracks, folder.id).map_values(
            |t: TrackView| track_node(t, marked),
        ),
    }
}

/// The items of folders.
pub open spec fn folder_nodes(
    list: Seq<FolderView>,
    tracks: Seq<TrackView>,
    marked: Set<u32>,
    albums: Seq<u32>,
) -> Seq<NodeView<DeviceItemId>>
    decreases list,
{
    Seq::new(
        list.len(),
        |i: int|
            if 0 <= i < list.len() {
                folder_node(list[i], tracks, marked, albums)
            } else {
                arbitrary()
            },
    )
}

/// The items of the device: all top folders but those that hold its own album objects.
pub open spec fn device_nodes(
    list: Seq<FolderView>,
    tracks: Seq<TrackView>,
    marked: Set<u32>,
) -> Seq<NodeView<DeviceItemId>> {
    folder_nodes(list.filter(|f: FolderView| !is_albums(f)), tracks, marked, album_ids(list))
}

/// The ids of the album folders.
fn collect_album_ids(list: &Vec<Folder>) -> (r: Vec<u32>)
    ensures
        r@ == album_ids(device::folder_views(list@)),
{
    let ghost all = device::folder_views(list@);
    let mut r: Vec<u32> = Vec::new();
    let mut m: usize = 0;
    proof {
        assert(all.take(0).len() == 0);
        assert(r@ =~= album_ids(all.take(0)));
    }
    while m < list.len()
        invariant
            m <= list@.len(),
            all == device::folder_views(list@),
            r@ == album_ids(all.take(m as int)),
        decreases list@.len() - m,
    {
        let music = &list[m];
        let ghost before = r@;
        proof {
            assert(all[m as int] == device::folder_view(list@[m as int]));
            assert(all.take(m + 1).drop_last() =~= all.take(m as int));
            assert(all.take(m + 1).last() == all[m as int]);
        }
        if is_music_folder(music) {
            let ghost artists = music@.children;
            let mut a: usize = 0;
            proof {
                assert(artists.take(0).len() == 0);
                assert(before + inner_ids(artists.take(0)) =~= before);
            }
            while a < music.children.len()
                invariant
                    a <= music.children@.len(),
                    artists == music@.children,
                    r@ == before + inner_ids(artists.take(a as int)),
                decreases music.children@.len() - a,
            {
                let artist = &music.children[a];
                let ghost head = r@;
                let ghost ids = artist@.children.map_values(|f: FolderView| f.id);
                proof {
                    assert(artists[a as int] == device::folder_view(music.children@[a as int]));
                    assert(artists.take(a + 1).drop_last() =~= artists.take(a as int));
                    assert(artists.take(a + 1).last() == artists[a as int]);
                    assert(head + ids.take(0) =~= head);
                }
                let mut b: usize = 0;
                while b < artist.children.len()
                    invariant
                        b <= artist.children@.len(),
                        ids == artist@.children.map_values(|f: FolderView| f.id),
                        r@ == head + ids.take(b as int),
                    decreases artist.children@.len() - b,
                {
                    r.push(artist.children[b].id);
                    proof {
                        assert(artist@.children[b as int] == device::folder_view(
                            artist.children@[b as int],
                        ));
                        assert(ids.take(b + 1) =~= ids.take(b as int).push(ids[b as int]));
                        assert(head + ids.take(b + 1) =~= (head + ids.take(b as int)).push(
                            ids[b as int],
                        ));
                    }
                    b = b + 1;
                }
                proof {
                    assert(ids.take(b as int) =~= ids);
                    let first = inner_ids(artists.take(a as int));
                    assert(before + first + ids =~= before + (first + ids));
                }
                a = a + 1;
            }
            assert(artists.take(a as int) =~= artists);
        }
        m = m + 1;
    }
    assert(all.take(m as int) =~= all);
    r
}

/// Adds the items of the tracks in a folder.
fn add_track_nodes(
    out: &mut Vec<TreeNode<DeviceItemId>>,
    tracks: &Vec<Track>,
    folder_id: u32,
    marked: &HashSet<u32>,
)
    ensures
        tree::node_views(final(out)@) == tree::node_views(old(out)@) + library::tracks_in(
            device::track_views(tracks@),
            folder_id,
        ).map_values(|t: TrackView| track_node(t, marked@)),
{
    let ghost before = tree::node_views(out@);
    let ghost all = device::track_views(tracks@);
    let ghost keep = |t: TrackView| t.parent_id == folder_id;
    let ghost make = |t: TrackView| track_node(t, marked@);
    let mut i: usize = 0;
    proof {
        seqs::lemma_filter_ends(all, keep);
        assert(before + all.take(0).filter(keep).map_values(make) =~= before);
    }
    while i < tracks.len()
        invariant
            i <= tracks@.len(),
            all == device::track_views(tracks@),
            keep == (|t: TrackView| t.parent_id == folder_id),
            make == (|t: TrackView| track_node(t, marked@)),
            tree::node_views(out@) == before + all.take(i as int).filter(keep).map_values(make),
        decreases tracks@.len() - i,
    {
        let track = &tracks[i];
        proof {
            seqs::lemma_filter_next(all, i as int, keep);
            assert(all[i as int] == track@);
        }
        if track.parent_id == folder_id {
            let ghost kept = all.take(i as int).filter(keep);
            let ghost so_far = tree::node_views(out@);
            let leaf = TreeNode {
                id: DeviceItemId::Track(track.id),
                label: write_boxed(is_marked(marked, track.id), &track.name),
                children: Vec::new(),
            };
            proof {
                assert(tree::node_views(leaf.children@) =~= Seq::<
                    NodeView<DeviceItemId>,
                >::empty());
                assert(tree::node_view(leaf) == make(track@));
            }
            out.push(leaf);
            proof {
                assert(tree::node_views(out@) =~= so_far.push(make(track@)));
                assert(kept.push(track@).map_values(make) =~= kept.map_values(make).push(
                    make(track@),
                ));
                assert(before + kept.map_values(make).push(make(track@)) =~= (before
                    + kept.map_values(make)).push(make(track@)));
            }
        }
        i = i + 1;
    }
}

/// Items as mathematical values, one for each.
proof fn lemma_node_views(nodes: Seq<TreeNode<DeviceItemId>>)
    ensures
        tree::node_views(nodes) == nodes.map_values(
            |n: TreeNode<DeviceItemId>| tree::node_view(n),
        ),
{
    assert(tree::node_views(nodes) =~= nodes.map_values(
        |n: TreeNode<DeviceItemId>| tree::node_view(n),
    ));
}

/// The item of a folder.
pub fn folder_item(
    folder: &Folder,
    tracks: &Vec<Track>,
    marked: &HashSet<u32>,
    album_folder_ids: &Vec<u32>,
) -> (r: TreeNode<DeviceItemId>)
    ensures
        tree::node_view(r) == folder_node(
            folder@,
            device::track_views(tracks@),
            marked@,
            album_folder_ids@,
        ),
    decreases *folder,
{
    let ghost known = device::track_views(tracks@);
    let ghost all = folder@.children;
    let ghost key_of = |f: FolderView| library::artist_order(f.name);
    let mut nodes: Vec<TreeNode<DeviceItemId>> = Vec::new();
    let mut keys: Vec<Vec<u32>> = Vec::new();
    let mut i: usize = 0;
    assert(order::key_views(keys@) =~= all.map_values(key_of).take(0));
    while i < folder.children.len()
        invariant
            i <= folder.children@.len(),
            nodes@.len() == i,
            all == folder@.children,
            known == device::track_views(tracks@),
            key_of == (|f: FolderView| library::artist_order(f.name)),
            forall|j: int|
                0 <= j < i ==> tree::node_view(#[trigger] nodes@[j]) == folder_node(
                    all[j],
                    known,
                    marked@,
                    album_folder_ids@,
                ),
            order::key_views(keys@) == all.map_values(key_of).take(i as int),
        decreases folder.children@.len() - i,
    {
        let child = &folder.children[i];
        let ghost keys_before = order::key_views(keys@);
        assert(all[i as int] == device::folder_view(folder.children@[i as int]));
        let key = key_of_artist(&child.name);
        keys.push(key);
        nodes.push(folder_item(child, tracks, marked, album_folder_ids));
        proof {
            let wanted = all.map_values(key_of);
            assert(order::key_views(keys@) =~= keys_before.push(key@));
            assert(wanted.take(i + 1) =~= wanted.take(i as int).push(wanted[i as int]));
        }
        i = i + 1;
    }
    let ghost unsorted = nodes@;
    let ghost ks = all.map_values(key_of);
    proof {
        assert(ks.take(i as int) =~= ks);
        assert(tree::node_views(unsorted) =~= folder_nodes(
            all,
            known,
            marked@,
            album_folder_ids@,
        ));
    }
    if is_music_folder(folder) {
        assert(ks.len() == unsorted.len());
        nodes = sort_by_keys(nodes, keys);
        proof {
            order::lemma_sorted_by_map(
                unsorted,
                ks,
                |n: TreeNode<DeviceItemId>| tree::node_view(n),
            );
            lemma_node_views(unsorted);
            lemma_node_views(nodes@);
        }
    }
    add_track_nodes(&mut nodes, tracks, folder.id, marked);
    let ids = collect_track_ids(tracks, folder.id);
    let label = if has_id(album_folder_ids, folder.id) && ids.len() > 0 {
        write_boxed(group_is_fully_marked(&ids, marked), &folder.name)
    } else {
        folder.name.clone()
    };
    TreeNode { id: DeviceItemId::Folder(folder.id), label, children: nodes }
}

/// The items of the device: all top folders but those that hold its own album objects.
pub fn folder_items(list: &Vec<Folder>, tracks: &Vec<Track>, marked: &HashSet<u32>) -> (r: Vec<
    TreeNode<DeviceItemId>,
>)
    ensures
        tree::node_views(r@) == device_nodes(
            device::folder_views(list@),
            device::track_views(tracks@),
            marked@,
        ),
{
    let ghost all = device::folder_views(list@);
    let ghost known = device::track_views(tracks@);
    let ghost keep = |f: FolderView| !is_albums(f);
    let albums = collect_album_ids(list);
    let mut r: Vec<TreeNode<DeviceItemId>> = Vec::new();
    let mut i: usize = 0;
    proof {
        seqs::lemma_filter_ends(all, keep);
        assert(tree::node_views(r@) =~= folder_nodes(
            all.take(0).filter(keep),
            known,
            marked@,
            albums@,
        ));
    }
    while i < list.len()
        invariant
            i <= list@.len(),
            all == device::folder_views(list@),
            known == device::track_views(tracks@),
            keep == (|f: FolderView| !is_albums(f)),
            tree::node_views(r@) == folder_nodes(
                all.take(i as int).filter(keep),
                known,
                marked@,
                albums@,
            ),
        decreases list@.len() - i,
    {
        let folder = &list[i];
        proof {
            seqs::lemma_filter_next(all, i as int, keep);
            assert(all[i as int] == device::folder_view(list@[i as int]));
        }
        if !is_album_object_folder(folder) {
            let ghost kept = all.take(i as int).filter(keep);
            let ghost before = tree::node_views(r@);
            let node = folder_item(folder, tracks, marked, &albums);
            r.push(node);
            proof {
                assert(tree::node_views(r@) =~= before.push(tree::node_view(node)));
                assert(folder_nodes(kept.push(folder@), known, marked@, albums@)
                    =~= folder_nodes(kept, known, marked@, albums@).push(
                    tree::node_view(node),
                ));
            }
        }
        i = i + 1;
    }
    r
}

// ---------------------------------------------------------------------------
// Ranges
// ---------------------------------------------------------------------------

/// The items between two others, both included; none where either is not visible.
pub open spec fn range_between<T>(
    visible: Seq<T>,
    is_anchor: spec_fn(T) -> bool,
    is_current: spec_fn(T) -> bool,
) -> Seq<T> {
    match (seqs::position(visible, is_anchor), seqs::position(visible, is_current)) {
        (Some(a), Some(b)) => if a <= b {
            visible.subrange(a, b + 1)
        } else {
            visible.subrange(b, a + 1)
        },
        _ => Seq::empty(),
    }
}

/// The test that one item passes.
pub open spec fn is_item(item: DeviceItemId) -> spec_fn(DeviceItemId) -> bool {
    |v: DeviceItemId| v == item
}

/// The items of the device between two others, both included.
pub open spec fn item_range(
    visible: Seq<DeviceItemId>,
    anchor: DeviceItemId,
    current: DeviceItemId,
) -> Seq<DeviceItemId> {
    range_between(visible, is_item(anchor), is_item(current))
}

/// The marks once the tracks of an item are marked: a track marks itself, an album folder all its
/// tracks, and any other folder nothing.
pub open spec fn item_marked(
    marked: Set<u32>,
    item: DeviceItemId,
    albums: Seq<PhysicalView>,
) -> Set<u32> {
    match item {
        DeviceItemId::Track(id) => marked.insert(id),
        DeviceItemId::Folder(id) => match library::physical_with_id(albums, id) {
            Some(album) => marked.union(album.track_ids.to_set()),
            None => marked,
        },
    }
}

/// The marks once the tracks of several items are marked.
pub open spec fn items_marked(
    marked: Set<u32>,
    items: Seq<DeviceItemId>,
    albums: Seq<PhysicalView>,
) -> Set<u32>
    decreases items.len(),
{
    if items.len() == 0 {
        marked
    } else {
        item_marked(items_marked(marked, items.drop_last(), albums), items.last(), albums)
    }
}

/// The index of an item among others.
fn position_of_item(visible: &Vec<DeviceItemId>, item: DeviceItemId) -> (r: Option<usize>)
    ensures
        (match r {
            Some(i) => seqs::position(visible@, is_item(item)) == Some(i as int) && i
                < visible@.len(),
            None => seqs::position(visible@, is_item(item)) is None,
        }),
{
    let ghost test = is_item(item);
    let mut i: usize = 0;
    while i < visible.len() && visible[i] != item
        invariant
            i <= visible@.len(),
            test == is_item(item),
            forall|j: int| 0 <= j < i ==> !test(#[trigger] visible@[j]),
        decreases visible@.len() - i,
    {
        i = i + 1;
    }
    proof {
        seqs::lemma_position_is(visible@, test, i as int);
    }
    if i < visible.len() {
        Some(i)
    } else {
        None
    }
}

/// Marks the tracks of the first album folder with the given id.
fn mark_album(marked: &mut HashSet<u32>, id: u32, albums: &Vec<PhysicalAlbum>)
    ensures
        final(marked)@ == item_marked(
            old(marked)@,
            DeviceItemId::Folder(id),
            library::physical_views(albums@),
        ),
{
    let ghost all = library::physical_views(albums@);
    let ghost test = |a: PhysicalView| a.folder_id == id;
    let mut i: usize = 0;
    while i < albums.len() && albums[i].folder_id != id
        invariant
            i <= albums@.len(),
            all == library::physical_views(albums@),
            test == (|a: PhysicalView| a.folder_id == id),
            forall|j: int| 0 <= j < i ==> !test(#[trigger] all[j]),
        decreases albums@.len() - i,
    {
        assert(all[i as int] == albums@[i as int]@);
        i = i + 1;
    }
    proof {
        if i < albums@.len() {
            assert(all[i as int] == albums@[i as int]@);
        }
        seqs::lemma_position_is(all, test, i as int);
    }
    if i < albums.len() {
        mark_group(marked, &albums[i].track_ids);
    }
}

/// Marks the tracks of the items between two others, both included.
pub fn mark_track_range(
    marked: &mut HashSet<u32>,
    visible: &Vec<DeviceItemId>,
    anchor: DeviceItemId,
    current: DeviceItemId,
    albums: &Vec<PhysicalAlbum>,
)
    ensures
        final(marked)@ == items_marked(
            old(marked)@,
            item_range(visible@, anchor, current),
            library::physical_views(albums@),
        ),
{
    let ghost known = library::physical_views(albums@);
    let (start, end) = match (position_of_item(visible, anchor), position_of_item(
        visible,
        current,
    )) {
        (Some(a), Some(b)) => if a <= b {
            (a, b)
        } else {
            (b, a)
        },
        _ => {
            return;
        },
    };
    let total: usize = visible.len();
    let ghost range = visible@.subrange(start as int, end + 1);
    let ghost before = marked@;
    let mut i: usize = start;
    assert(range.take(0).len() == 0);
    while i <= end
        invariant
            start <= i <= end + 1,
            end < total == visible@.len(),
            range == visible@.subrange(start as int, end + 1),
            known == library::physical_views(albums@),
            marked@ == items_marked(before, range.take(i - start), known),
        decreases end + 1 - i,
    {
        proof {
            let k = i - start;
            assert(range[k] == visible@[i as int]);
            assert(range.take(k + 1).drop_last() =~= range.take(k));
            assert(range.take(k + 1).last() == range[k]);
        }
        match visible[i] {
            DeviceItemId::Track(id) => {
                mark(marked, id);
            },
            DeviceItemId::Folder(id) => {
                mark_album(marked, id, albums);
            },
        }
        i = i + 1;
    }
    assert(range.take(i - start) =~= range);
}

/// Marking a range marks each of its tracks and takes no mark away.
pub proof fn lemma_items_marked(
    marked: Set<u32>,
    items: Seq<DeviceItemId>,
    albums: Seq<PhysicalView>,
)
    ensures
        marked.subset_of(items_marked(marked, items, albums)),
        forall|id: u32| #[trigger]
            items.contains(DeviceItemId::Track(id)) ==> items_marked(marked, items, albums).contains(
                id,
            ),
    decreases items.len(),
{
    if items.len() > 0 {
        let front = items.drop_last();
        lemma_items_marked(marked, front, albums);
        assert forall|id: u32| #[trigger]
            items.contains(DeviceItemId::Track(id)) implies items_marked(
            marked,
            items,
            albums,
        ).contains(id) by {
            let i = choose|i: int| 0 <= i < items.len() && items[i] == DeviceItemId::Track(id);
            if i < front.len() {
                assert(front[i] == DeviceItemId::Track(id));
                assert(front.contains(DeviceItemId::Track(id)));
            }
        }
    }
}

/// A range does not depend on which of its ends is the anchor.
pub proof fn lemma_range_symmetric<T>(
    visible: Seq<T>,
    is_anchor: spec_fn(T) -> bool,
    is_current: spec_fn(T) -> bool,
)
    ensures
        range_between(visible, is_anchor, is_current) == range_between(
            visible,
            is_current,
            is_anchor,
        ),
{
}

// ---------------------------------------------------------------------------
// Playlists and storage
// ---------------------------------------------------------------------------

/// The first track with the given id.
pub open spec fn track_with_id(tracks: Seq<TrackView>, id: u32) -> Option<TrackView> {
    seqs::first(tracks, |t: TrackView| t.id == id)
}

/// The tracks with the given ids, as far as they are known.
pub open spec fn tracks_with_ids(tracks: Seq<TrackView>, ids: Seq<u32>) -> Seq<TrackView>
    decreases ids.len(),
{
    if ids.len() == 0 {
        Seq::empty()
    } else {
        let before = tracks_with_ids(tracks, ids.drop_last());
        match track_with_id(tracks, ids.last()) {
            Some(track) => before.push(track),
            None => before,
        }
    }
}

/// The index of the first track with the given id.
fn position_of_track(tracks: &Vec<Track>, id: u32) -> (r: Option<usize>)
    ensures
        (match r {
            Some(i) => i < tracks@.len() && track_with_id(device::track_views(tracks@), id) == Some(
                tracks@[i as int]@,
            ),
            None => track_with_id(device::track_views(tracks@), id) is None,
        }),
{
    let ghost all = device::track_views(tracks@);
    let ghost test = |t: TrackView| t.id == id;
    let mut i: usize = 0;
    while i < tracks.len() && tracks[i].id != id
        invariant
            i <= tracks@.len(),
            all == device::track_views(tracks@),
            test == (|t: TrackView| t.id == id),
            forall|j: int| 0 <= j < i ==> !test(#[trigger] all[j]),
        decreases tracks@.len() - i,
    {
        assert(all[i as int] == tracks@[i as int]@);
        i = i + 1;
    }
    proof {
        if i < tracks@.len() {
            assert(all[i as int] == tracks@[i as int]@);
        }
        seqs::lemma_position_is(all, test, i as int);
    }
    if i < tracks.len() {
        Some(i)
    } else {
        None
    }
}

/// The tracks of a playlist, as far as the device lists them.
pub fn playlist_tracks(tracks: &Vec<Track>, ids: &Vec<u32>) -> (r: Vec<Track>)
    ensures
        device::track_views(r@) == tracks_with_ids(device::track_views(tracks@), ids@),
{
    let ghost all = device::track_views(tracks@);
    let mut r: Vec<Track> = Vec::new();
    let mut i: usize = 0;
    proof {
        assert(ids@.take(0).len() == 0);
        assert(device::track_views(r@) =~= tracks_with_ids(all, ids@.take(0)));
    }
    while i < ids.len()
        invariant
            i <= ids@.len(),
            all == device::track_views(tracks@),
            device::track_views(r@) == tracks_with_ids(all, ids@.take(i as int)),
        decreases ids@.len() - i,
    {
        proof {
            assert(ids@.take(i + 1).drop_last() =~= ids@.take(i as int));
            assert(ids@.take(i + 1).last() == ids@[i as int]);
        }
        if let Some(k) = position_of_track(tracks, ids[i]) {
            let ghost before = device::track_views(r@);
            let copy = tracks[k].clone();
            r.push(copy);
            assert(device::track_views(r@) =~= before.push(copy@));
        }
        i = i + 1;
    }
    assert(ids@.take(i as int) =~= ids@);
    r
}

/// The rows of a playlist's tracks: each with a box in front of it.
pub fn playlist_track_rows(snapshot: &DeviceSnapshot, playlist: &Playlist, marked: &HashSet<u32>)
    -> (r: Vec<String>)
    ensures
        text::strings(r@) == tracks_with_ids(
            snapshot@.tracks,
            playlist@.track_ids,
        ).map_values(|t: TrackView| browser::boxed(marked@.contains(t.id), t.name)),
{
    let tracks = playlist_tracks(&snapshot.tracks, &playlist.track_ids);
    let ghost all = device::track_views(tracks@);
    let ghost row = |t: TrackView| browser::boxed(marked@.contains(t.id), t.name);
    let mut r: Vec<String> = Vec::new();
    let mut i: usize = 0;
    assert(text::strings(r@) =~= all.map_values(row).take(0));
    while i < tracks.len()
        invariant
            i <= tracks@.len(),
            all == device::track_views(tracks@),
            row == (|t: TrackView| browser::boxed(marked@.contains(t.id), t.name)),
            text::strings(r@) == all.map_values(row).take(i as int),
        decreases tracks@.len() - i,
    {
        let ghost before = text::strings(r@);
        let line = write_boxed(is_marked(marked, tracks[i].id), &tracks[i].name);
        r.push(line);
        proof {
            let wanted = all.map_values(row);
            assert(all[i as int] == tracks@[i as int]@);
            assert(text::strings(r@) =~= before.push(line@));
            assert(wanted.take(i + 1) =~= wanted.take(i as int).push(wanted[i as int]));
        }
        i = i + 1;
    }
    assert(all.map_values(row).take(i as int) =~= all.map_values(row));
    r
}

/// The row of a playlist.
#[derive(Debug)]
pub struct PlaylistRow {
    pub mark: String,
    pub active: bool,
    pub name: String,
}

/// The row of a playlist, as a mathematical value.
#[verifier::ext_equal]
pub struct RowView {
    pub mark: Seq<char>,
    pub active: bool,
    pub name: Seq<char>,
}

impl View for PlaylistRow {
    type V = RowView;

    open spec fn view(&self) -> RowView {
        RowView { mark: self.mark@, active: self.active, name: self.name@ }
    }
}

/// The row of a playlist.
pub open spec fn row_of(playlist: PlaylistView, marked: Set<u32>, active: Option<u32>) -> RowView {
    RowView {
        mark: browser::mark_box(marked.contains(playlist.id)) + " "@,
        active: active == Some(playlist.id),
        name: playlist.name,
    }
}

/// The rows of the playlists.
pub fn playlist_rows(playlists: &Vec<Playlist>, marked: &HashSet<u32>, active: Option<u32>) -> (r:
    Vec<PlaylistRow>)
    ensures
        r@.map_values(|w: PlaylistRow| w@) == device::playlist_views(playlists@).map_values(
            |p: PlaylistView| row_of(p, marked@, active),
        ),
{
    let ghost all = device::playlist_views(playlists@).map_values(
        |p: PlaylistView| row_of(p, marked@, active),
    );
    let ghost view = |w: PlaylistRow| w@;
    let mut r: Vec<PlaylistRow> = Vec::new();
    let mut i: usize = 0;
    assert(r@.map_values(view) =~= all.take(0));
    while i < playlists.len()
        invariant
            i <= playlists@.len(),
            all == device::playlist_views(playlists@).map_values(
                |p: PlaylistView| row_of(p, marked@, active),
            ),
            view == (|w: PlaylistRow| w@),
            r@.map_values(view) == all.take(i as int),
        decreases playlists@.len() - i,
    {
        let ghost before = r@.map_values(view);
        let playlist = &playlists[i];
        let mut box_text = if is_marked(marked, playlist.id) {
            copy_text("[x]")
        } else {
            copy_text("[ ]")
        };
        box_text.append(" ");
        let is_active = match active {
            Some(id) => id == playlist.id,
            None => false,
        };
        let row = PlaylistRow {
            mark: box_text,
            active: is_active,
            name: playlist.name.clone(),
        };
        r.push(row);
        proof {
            assert(r@.map_values(view) =~= before.push(row@));
            assert(all.take(i + 1) =~= all.take(i as int).push(all[i as int]));
        }
        i = i + 1;
    }
    assert(all.take(i as int) =~= all);
    r
}

/// The storage that a new playlist goes to: that of the first playlist, or else of the first
/// track, or else of the first folder.
pub open spec fn storage_of(snapshot: device::SnapshotView) -> Option<u32> {
    if snapshot.playlists.len() > 0 {
        Some(snapshot.playlists[0].storage_id)
    } else if snapshot.tracks.len() > 0 {
        Some(snapshot.tracks[0].storage_id)
    } else if snapshot.folders.len() > 0 {
        Some(snapshot.folders[0].storage_id)
    } else {
        None
    }
}

/// The storage of the first folder.
pub fn first_folder_storage_id(list: &Vec<Folder>) -> (r: Option<u32>)
    ensures
        r == if list@.len() > 0 {
            Some(list@[0].storage_id)
        } else {
            None
        },
{
    if list.len() > 0 {
        Some(list[0].storage_id)
    } else {
        None
    }
}

/// The storage that a new playlist goes to.
pub fn snapshot_storage_id(snapshot: &DeviceSnapshot) -> (r: Option<u32>)
    ensures
        r == storage_of(snapshot@),
{
    if snapshot.playlists.len() > 0 {
        Some(snapshot.playlists[0].storage_id)
    } else if snapshot.tracks.len() > 0 {
        Some(snapshot.tracks[0].storage_id)
    } else {
        first_folder_storage_id(&snapshot.folders)
    }
}

// ---------------------------------------------------------------------------
// What holds of the device as it is shown
// ---------------------------------------------------------------------------

/// A label shows a box with its mark, a space and a name.
pub open spec fn shows_box(label: Seq<char>, marked: bool, name: Seq<char>) -> bool {
    &&& label.len() == 4 + name.len()
    &&& label[0] == '['
    &&& label[1] == if marked {
        'x'
    } else {
        ' '
    }
    &&& label[2] == ']'
    &&& label[3] == ' '
    &&& label.skip(4) == name
}

/// A box shows whether something is marked, and what stands behind it is the name.
pub proof fn lemma_shows_box(marked: bool, name: Seq<char>)
    ensures
        shows_box(browser::boxed(marked, name), marked, name),
{
    reveal_strlit("[x]");
    reveal_strlit("[ ]");
    reveal_strlit(" ");
    assert(browser::boxed(marked, name).skip(4) =~= name);
}

/// The folders that count as albums are the folders in the artists' folders.
pub proof fn lemma_album_ids(tree: Seq<FolderView>)
    ensures
        album_ids(tree) == library::album_folders(library::artists_in(tree)).map_values(
            |p: (FolderView, FolderView)| p.1.id,
        ),
    decreases tree.len(),
{
    let own = |p: (FolderView, FolderView)| p.1.id;
    if tree.len() == 0 {
        lemma_inner_ids(library::artists_in(tree));
    } else {
        let front = tree.drop_last();
        lemma_album_ids(front);
        if folders::is_music(tree.last()) {
            let more = tree.last().children;
            lemma_inner_ids(library::artists_in(front));
            lemma_inner_ids(more);
            lemma_inner_ids(library::artists_in(front) + more);
            lemma_inner_ids_of_more(library::artists_in(front), more);
        }
    }
}

proof fn lemma_inner_ids(artists: Seq<FolderView>)
    ensures
        inner_ids(artists) == library::album_folders(artists).map_values(
            |p: (FolderView, FolderView)| p.1.id,
        ),
    decreases artists.len(),
{
    let own = |p: (FolderView, FolderView)| p.1.id;
    let pairs = |a: FolderView| a.children.map_values(|c: FolderView| (a, c));
    if artists.len() == 0 {
        assert(artists.map_values(pairs) =~= Seq::<Seq<(FolderView, FolderView)>>::empty());
        assert(library::album_folders(artists).map_values(own) =~= Seq::<u32>::empty());
    } else {
        let front = artists.drop_last();
        let last = artists.last();
        lemma_inner_ids(front);
        let before = front.map_values(pairs);
        let mine = last.children.map_values(|c: FolderView| (last, c));
        assert(artists.map_values(pairs) =~= before.push(mine));
        before.lemma_flatten_push(mine);
        assert(library::album_folders(artists) == library::album_folders(front) + mine);
        assert(library::album_folders(artists).map_values(own) =~= inner_ids(front)
            + last.children.map_values(|f: FolderView| f.id));
    }
}

proof fn lemma_inner_ids_of_more(a: Seq<FolderView>, b: Seq<FolderView>)
    ensures
        inner_ids(a + b) == inner_ids(a) + inner_ids(b),
    decreases b.len(),
{
    if b.len() == 0 {
        assert(a + b =~= a);
        assert(inner_ids(a) + inner_ids(b) =~= inner_ids(a));
    } else {
        lemma_inner_ids_of_more(a, b.drop_last());
        assert((a + b).drop_last() =~= a + b.drop_last());
        assert(inner_ids(a + b) =~= inner_ids(a) + inner_ids(b));
    }
}

/// Whether every one of the tracks that lie directly in a folder is marked, and there is one.
pub open spec fn is_full(tracks: Seq<TrackView>, marked: Set<u32>, folder_id: u32) -> bool {
    library::holds_track(tracks, folder_id) && forall|i: int|
        0 <= i < tracks.len() && (#[trigger] tracks[i]).parent_id == folder_id ==> marked.contains(
            tracks[i].id,
        )
}

/// A folder is shown under its own name. A box stands before it exactly where the folder is an
/// album's and holds a track, and it is marked exactly where every track in the folder is.
pub proof fn lemma_folder_label(
    folder: FolderView,
    tracks: Seq<TrackView>,
    marked: Set<u32>,
    albums: Seq<u32>,
)
    ensures
        ({
            let label = folder_label(folder, tracks, marked, albums);
            if albums.contains(folder.id) && library::holds_track(tracks, folder.id) {
                shows_box(label, is_full(tracks, marked, folder.id), folder.name)
            } else {
                label == folder.name
            }
        }),
{
    library::lemma_tracks_in(tracks, folder.id);
    deletion::lemma_folder_marked(tracks, marked, folder.id);
    lemma_shows_box(is_full(tracks, marked, folder.id), folder.name);
}

/// The item of a folder stands for that folder. Below it are first the items of the folders in it,
/// in their order, or in the order of their names where it is a Music folder; then the tracks that
/// lie directly in it, in the order of the device, each with a box that shows whether it is marked.
pub proof fn lemma_folder_node(
    folder: FolderView,
    tracks: Seq<TrackView>,
    marked: Set<u32>,
    albums: Seq<u32>,
)
    ensures
        ({
            let node = folder_node(folder, tracks, marked, albums);
            let n = folder.children.len() as int;
            &&& node.id == DeviceItemId::Folder(folder.id)
            &&& node.label == folder_label(folder, tracks, marked, albums)
            &&& exists|inner: Seq<TrackView>| #[trigger]
                library::are_tracks_in(inner, tracks, folder.id) && node.children.len() == n
                    + inner.len() && forall|k: int|
                    0 <= k < inner.len() ==> {
                        let item = #[trigger] node.children[n + k];
                        &&& item.id == DeviceItemId::Track(inner[k].id)
                        &&& shows_box(item.label, marked.contains(inner[k].id), inner[k].name)
                        &&& item.children.len() == 0
                    }
            &&& !folders::is_music(folder) ==> forall|i: int|
                0 <= i < n ==> #[trigger] node.children[i] == folder_node(
                    folder.children[i],
                    tracks,
                    marked,
                    albums,
                )
            &&& folders::is_music(folder) ==> order::is_arrangement(
                folder.children.map_values(
                    |f: FolderView| folder_node(f, tracks, marked, albums),
                ),
                folder.children.map_values(
                    |f: FolderView| order::text_key(folders::normalized(f.name)),
                ),
                node.children.take(n),
            )
        }),
{
    let node = folder_node(folder, tracks, marked, albums);
    let n = folder.children.len() as int;
    let nodes = folder_nodes(folder.children, tracks, marked, albums);
    let keys = folder.children.map_values(|f: FolderView| library::artist_order(f.name));
    assert(nodes =~= folder.children.map_values(
        |f: FolderView| folder_node(f, tracks, marked, albums),
    ));
    assert(keys =~= folder.children.map_values(
        |f: FolderView| order::text_key(folders::normalized(f.name)),
    ));
    order::lemma_sorted_by(nodes, keys);
    order::lemma_sorted_order(keys);
    let inner = library::tracks_in(tracks, folder.id);
    library::lemma_tracks_in(tracks, folder.id);
    assert forall|k: int| 0 <= k < inner.len() implies {
        let item = #[trigger] node.children[n + k];
        &&& item.id == DeviceItemId::Track(inner[k].id)
        &&& shows_box(item.label, marked.contains(inner[k].id), inner[k].name)
        &&& item.children.len() == 0
    } by {
        assert(node.children[n + k] == track_node(inner[k], marked));
        lemma_shows_box(marked.contains(inner[k].id), inner[k].name);
    }
    assert(library::are_tracks_in(inner, tracks, folder.id));
    if folders::is_music(folder) {
        assert(node.children.take(n) =~= order::sorted_by(nodes, keys));
    }
}

/// The device is shown as its folders at the top, in their order, without those that hold its album
/// objects.
pub proof fn lemma_device_nodes(
    list: Seq<FolderView>,
    tracks: Seq<TrackView>,
    marked: Set<u32>,
)
    ensures
        exists|kept: Seq<FolderView>|
            #![trigger kept.len()]
            {
                let nodes = device_nodes(list, tracks, marked);
                &&& seqs::is_selection(
                    list,
                    kept,
                    |f: FolderView| !text::eq_ignoring_ascii_case(f.name, "Albums"@),
                )
                &&& nodes.len() == kept.len()
                &&& forall|i: int|
                    0 <= i < nodes.len() ==> #[trigger] nodes[i] == folder_node(
                        kept[i],
                        tracks,
                        marked,
                        album_ids(list),
                    )
            },
{
    let test = |f: FolderView| !is_albums(f);
    let other = |f: FolderView| !text::eq_ignoring_ascii_case(f.name, "Albums"@);
    let kept = list.filter(test);
    seqs::lemma_filter_selects(list, test);
    seqs::lemma_selection_by(list, kept, test, other);
    assert(device_nodes(list, tracks, marked).len() == kept.len());
}

/// An item stands for a track: the track itself, or the first album with a folder's id that lists it.
pub open spec fn stands_for(item: DeviceItemId, albums: Seq<PhysicalView>, id: u32) -> bool {
    match item {
        DeviceItemId::Track(own) => own == id,
        DeviceItemId::Folder(folder) => exists|k: int|
            0 <= k < albums.len() && (#[trigger] albums[k]).folder_id == folder
                && albums[k].track_ids.contains(id) && forall|j: int|
                0 <= j < k ==> (#[trigger] albums[j]).folder_id != folder,
    }
}

/// Marking items marks the tracks that they stand for, and leaves every other mark as it is.
pub proof fn lemma_items_mark_exactly(
    marked: Set<u32>,
    items: Seq<DeviceItemId>,
    albums: Seq<PhysicalView>,
    id: u32,
)
    ensures
        items_marked(marked, items, albums).contains(id) <==> marked.contains(id) || exists|i: int|
            0 <= i < items.len() && stands_for(#[trigger] items[i], albums, id),
    decreases items.len(),
{
    if items.len() > 0 {
        let front = items.drop_last();
        let last = items.last();
        lemma_items_mark_exactly(marked, front, albums, id);
        if let DeviceItemId::Folder(folder) = last {
            library::lemma_physical_with_id(albums, folder);
            if let Some(album) = library::physical_with_id(albums, folder) {
                assert(album.track_ids.to_set().contains(id) == album.track_ids.contains(id));
                let k = choose|k: int|
                    0 <= k < albums.len() && #[trigger] albums[k] == album && albums[k].folder_id
                        == folder && forall|j: int|
                        0 <= j < k ==> (#[trigger] albums[j]).folder_id != folder;
                if stands_for(last, albums, id) {
                    let l = choose|l: int|
                        0 <= l < albums.len() && (#[trigger] albums[l]).folder_id == folder
                            && albums[l].track_ids.contains(id) && forall|j: int|
                            0 <= j < l ==> (#[trigger] albums[j]).folder_id != folder;
                    if l < k {
                        assert(albums[l].folder_id != folder);
                    } else if k < l {
                        assert(albums[k].folder_id != folder);
                    }
                } else {
                    assert(albums[k].folder_id == folder);
                }
            }
        }
        assert(item_marked(items_marked(marked, front, albums), last, albums).contains(id)
            <==> items_marked(marked, front, albums).contains(id) || stands_for(last, albums, id));
        if exists|i: int| 0 <= i < front.len() && stands_for(#[trigger] front[i], albums, id) {
            let i = choose|i: int|
                0 <= i < front.len() && stands_for(#[trigger] front[i], albums, id);
            assert(stands_for(items[i], albums, id));
        }
        if stands_for(last, albums, id) {
            assert(stands_for(items[items.len() - 1], albums, id));
        }
        if exists|i: int| 0 <= i < items.len() && stands_for(#[trigger] items[i], albums, id) {
            let i = choose|i: int|
                0 <= i < items.len() && stands_for(#[trigger] items[i], albums, id);
            if i < front.len() {
                assert(stands_for(front[i], albums, id));
            }
        }
    }
}

/// The item at index `i` is the first that passes a test.
pub open spec fn first_passing<T>(all: Seq<T>, test: spec_fn(T) -> bool, i: int) -> bool {
    0 <= i < all.len() && test(all[i]) && forall|j: int| 0 <= j < i ==> !test(#[trigger] all[j])
}

/// A range runs over all visible items from the anchor to the current one, both ends taken in,
/// whichever stands first; it is empty where one of the two is not visible.
pub proof fn lemma_range_between<T>(
    visible: Seq<T>,
    is_anchor: spec_fn(T) -> bool,
    is_current: spec_fn(T) -> bool,
)
    ensures
        ({
            let range = range_between(visible, is_anchor, is_current);
            &&& forall|a: int, b: int| #[trigger]
                first_passing(visible, is_anchor, a) && #[trigger] first_passing(
                    visible,
                    is_current,
                    b,
                ) ==> {
                    let low = if a < b {
                        a
                    } else {
                        b
                    };
                    let high = if a < b {
                        b
                    } else {
                        a
                    };
                    &&& range.len() == high - low + 1
                    &&& forall|k: int| low <= k <= high ==> range[k - low] == #[trigger] visible[k]
                }
            &&& (forall|i: int| 0 <= i < visible.len() ==> !is_anchor(#[trigger] visible[i])) || (
            forall|i: int| 0 <= i < visible.len() ==> !is_current(#[trigger] visible[i]))
                ==> range.len() == 0
        }),
{
    seqs::lemma_position(visible, is_anchor);
    seqs::lemma_position(visible, is_current);
    assert forall|a: int| #[trigger] first_passing(visible, is_anchor, a) implies seqs::position(
        visible,
        is_anchor,
    ) == Some(a) by {
        seqs::lemma_position_is(visible, is_anchor, a);
    }
    assert forall|b: int| #[trigger] first_passing(visible, is_current, b) implies seqs::position(
        visible,
        is_current,
    ) == Some(b) by {
        seqs::lemma_position_is(visible, is_current, b);
    }
}

/// Items are compared by what they are.
pub proof fn lemma_is_item(item: DeviceItemId, other: DeviceItemId)
    ensures
        is_item(item)(other) <==> other == item,
{
}

/// A track is the first with its id.
pub open spec fn is_first_with_id(track: TrackView, tracks: Seq<TrackView>, id: u32) -> bool {
    exists|k: int|
        0 <= k < tracks.len() && #[trigger] tracks[k] == track && tracks[k].id == id && forall|
            j: int,
        | 0 <= j < k ==> (#[trigger] tracks[j]).id != id
}

/// The tracks that are looked up by their ids come in the order of the ids, each the first with its
/// id; an id that no track has is passed over.
pub proof fn lemma_tracks_with_ids(tracks: Seq<TrackView>, ids: Seq<u32>)
    ensures
        exists|kept: Seq<u32>|
            #![trigger kept.len()]
            {
                let chosen = tracks_with_ids(tracks, ids);
                &&& seqs::is_selection(
                    ids,
                    kept,
                    |id: u32|
                        exists|k: int| 0 <= k < tracks.len() && (#[trigger] tracks[k]).id == id,
                )
                &&& chosen.len() == kept.len()
                &&& forall|i: int|
                    0 <= i < chosen.len() ==> is_first_with_id(
                        #[trigger] chosen[i],
                        tracks,
                        kept[i],
                    )
            },
{
    let test = |id: u32| track_with_id(tracks, id) is Some;
    let known = |id: u32| exists|k: int| 0 <= k < tracks.len() && (#[trigger] tracks[k]).id == id;
    let kept = ids.filter(test);
    seqs::lemma_filter_selects(ids, test);
    assert forall|i: int| 0 <= i < ids.len() implies test(#[trigger] ids[i]) == known(ids[i]) by {
        seqs::lemma_position(tracks, |t: TrackView| t.id == ids[i]);
    }
    seqs::lemma_selection_by(ids, kept, test, known);
    lemma_tracks_looked_up(tracks, ids);
    assert(tracks_with_ids(tracks, ids).len() == kept.len());
}

proof fn lemma_tracks_looked_up(tracks: Seq<TrackView>, ids: Seq<u32>)
    ensures
        ({
            let kept = ids.filter(|id: u32| track_with_id(tracks, id) is Some);
            let chosen = tracks_with_ids(tracks, ids);
            &&& chosen.len() == kept.len()
            &&& forall|i: int|
                0 <= i < chosen.len() ==> is_first_with_id(#[trigger] chosen[i], tracks, kept[i])
        }),
    decreases ids.len(),
{
    reveal(Seq::filter);
    let test = |id: u32| track_with_id(tracks, id) is Some;
    if ids.len() > 0 {
        lemma_tracks_looked_up(tracks, ids.drop_last());
        let id = ids.last();
        seqs::lemma_position(tracks, |t: TrackView| t.id == id);
        if let Some(k) = seqs::position(tracks, |t: TrackView| t.id == id) {
            assert(tracks[k] == track_with_id(tracks, id)->0);
            assert(is_first_with_id(tracks[k], tracks, id));
        }
        let before = ids.drop_last().filter(test);
        let kept = ids.filter(test);
        let chosen = tracks_with_ids(tracks, ids);
        assert forall|i: int| 0 <= i < chosen.len() implies is_first_with_id(
            #[trigger] chosen[i],
            tracks,
            kept[i],
        ) by {
            if i < before.len() {
                assert(kept[i] == before[i]);
                assert(chosen[i] == tracks_with_ids(tracks, ids.drop_last())[i]);
            }
        }
    }
}

/// A playlist is shown under its name, with a box that shows whether it is marked, and is told from
/// the others where it is the active one.
pub proof fn lemma_row(playlist: PlaylistView, marked: Set<u32>, active: Option<u32>)
    ensures
        ({
            let row = row_of(playlist, marked, active);
            &&& row.name == playlist.name
            &&& shows_box(row.mark + row.name, marked.contains(playlist.id), playlist.name)
            &&& row.mark.len() == 4
            &&& row.active <==> (active matches Some(id) && id == playlist.id)
        }),
{
    lemma_shows_box(marked.contains(playlist.id), playlist.name);
    reveal_strlit("[x]");
    reveal_strlit("[ ]");
    reveal_strlit(" ");
}

/// A playlist is created on a storage of the device: that of its first playlist, else of its first
/// track, else of its first folder.
pub proof fn lemma_storage_of(snapshot: device::SnapshotView)
    ensures
        snapshot.playlists.len() > 0 ==> storage_of(snapshot) == Some(
            snapshot.playlists.first().storage_id,
        ),
        snapshot.playlists.len() == 0 && snapshot.tracks.len() > 0 ==> storage_of(snapshot)
            == Some(snapshot.tracks.first().storage_id),
        snapshot.playlists.len() == 0 && snapshot.tracks.len() == 0 && snapshot.folders.len() > 0
            ==> storage_of(snapshot) == Some(snapshot.folders.first().storage_id),
        storage_of(snapshot) is None <==> snapshot.playlists.len() == 0 && snapshot.tracks.len()
            == 0 && snapshot.folders.len() == 0,
{
}

} // verus!
