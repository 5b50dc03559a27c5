//! What a deletion reaches, and the questions that are asked before a change.
use std::collections::HashSet;

use vstd::prelude::*;

use crate::device;
use crate::device::{
    Album, AlbumView, DeviceSnapshot, Folder, FolderView, Playlist, PlaylistView, SnapshotView,
    Track, TrackView,
};
use crate::folders;
use crate::library;
use crate::library::{
    collect_artists, collect_track_ids, key_of_artist, physical_albums, PhysicalAlbum,
    PhysicalView,
};
use crate::marks;
use crate::marks::{group_is_fully_marked, is_marked};
use crate::order;
use crate::order::sort_by_keys;
use crate::seqs;
use crate::text;
use crate::text::{copy_text, decimal_string, join_strings};

verus! {

// ---------------------------------------------------------------------------
// What a deletion reaches
// ---------------------------------------------------------------------------

/// An object that is to be deleted.
#[derive(Debug)]
pub struct DeleteItem {
    pub object_id: u32,
    pub name: String,
}

/// An object that is to be deleted, as a mathematical value.
#[verifier::ext_equal]
pub struct ItemView {
    pub object_id: u32,
    pub name: Seq<char>,
}

impl View for DeleteItem {
    type V = ItemView;

    open spec fn view(&self) -> ItemView {
        ItemView { object_id: self.object_id, name: self.name@ }
    }
}

/// The objects that a vector holds.
pub open spec fn item_views(items: Seq<DeleteItem>) -> Seq<ItemView> {
    items.map_values(|i: DeleteItem| i@)
}

impl Clone for DeleteItem {
    fn clone(&self) -> (r: Self)
        ensures
            r@ == self@,
    {
        DeleteItem { object_id: self.object_id, name: self.name.clone() }
    }
}

/// What a deletion reaches.
#[derive(Debug)]
pub struct DeleteScope {
    pub items: Vec<DeleteItem>,
    pub track_count: usize,
    pub album_count: usize,
    pub artist_names: Vec<String>,
}

/// What a deletion reaches, as a mathematical value.
#[verifier::ext_equal]
pub struct ScopeView {
    pub items: Seq<ItemView>,
    pub track_count: nat,
    pub album_count: nat,
    pub artist_names: Seq<Seq<char>>,
}

impl View for DeleteScope {
    type V = ScopeView;

    open spec fn view(&self) -> ScopeView {
        ScopeView {
            items: item_views(self.items@),
            track_count: self.track_count as nat,
            album_count: self.album_count as nat,
            artist_names: text::strings(self.artist_names@),
        }
    }
}

/// The tracks that are marked.
pub open spec fn marked_tracks(tracks: Seq<TrackView>, marks: Set<u32>) -> Seq<TrackView> {
    tracks.filter(|t: TrackView| marks.contains(t.id))
}

/// The album objects all of whose tracks are marked.
pub open spec fn marked_objects(albums: Seq<AlbumView>, marks: Set<u32>) -> Seq<AlbumView> {
    albums.filter(|a: AlbumView| marks::group_marked(a.track_ids, marks))
}

/// The album folders all of whose tracks are marked.
pub open spec fn marked_albums(albums: Seq<PhysicalView>, marks: Set<u32>) -> Seq<PhysicalView> {
    albums.filter(|a: PhysicalView| marks::group_marked(a.track_ids, marks))
}

/// An artist's folder becomes empty: tracks lie directly in each of its album folders, and all of
/// them are marked, as are the tracks that lie directly in the artist's folder. A folder that is
/// empty already does not become so.
pub open spec fn artist_is_gone(
    artist: FolderView,
    tracks: Seq<TrackView>,
    marks: Set<u32>,
) -> bool {
    let loose = library::track_ids_in(tracks, artist.id);
    &&& forall|i: int|
        0 <= i < artist.children.len() ==> marks::group_marked(
            library::track_ids_in(tracks, (#[trigger] artist.children[i]).id),
            marks,
        )
    &&& if loose.len() > 0 {
        marks::group_marked(loose, marks)
    } else {
        artist.children.len() > 0
    }
}

/// Those of the first `n` artists' folders that become empty, each id once.
pub open spec fn gone_artists(
    artists: Seq<FolderView>,
    tracks: Seq<TrackView>,
    marks: Set<u32>,
    n: int,
) -> Seq<FolderView>
    decreases n,
{
    if n <= 0 {
        Seq::empty()
    } else {
        let before = gone_artists(artists, tracks, marks, n - 1);
        let artist = artists[n - 1];
        if artist_is_gone(artist, tracks, marks) && !(exists|i: int|
            0 <= i < before.len() && (#[trigger] before[i]).id == artist.id) {
            before.push(artist)
        } else {
            before
        }
    }
}

/// The objects that a deletion reaches: the album objects and the tracks, then the album folders,
/// then the folders of the artists that become empty.
pub open spec fn scope(snapshot: SnapshotView, marks: Set<u32>) -> ScopeView {
    let selected = marked_albums(library::physical(snapshot), marks);
    let all_artists = library::artists_in(snapshot.folders);
    let artists = gone_artists(all_artists, snapshot.tracks, marks, all_artists.len() as int);
    let names = artists.map_values(|a: FolderView| a.name);
    let objects = marked_objects(snapshot.albums, marks);
    let tracks = marked_tracks(snapshot.tracks, marks);
    ScopeView {
        items: objects.map_values(
            |a: AlbumView| ItemView { object_id: a.id, name: "album "@ + a.name },
        ) + tracks.map_values(|t: TrackView| ItemView { object_id: t.id, name: t.name })
            + selected.map_values(
            |a: PhysicalView|
                ItemView { object_id: a.folder_id, name: "album folder "@ + a.name },
        ) + artists.map_values(
            |a: FolderView| ItemView { object_id: a.id, name: "artist folder "@ + a.name },
        ),
        track_count: tracks.len(),
        album_count: selected.len(),
        artist_names: order::sorted_by(
            names,
            names.map_values(|n: Seq<char>| library::artist_order(n)),
        ),
    }
}

/// Whether an album object has tracks and all of them are marked.
pub fn album_is_fully_marked(album: &Album, marks: &HashSet<u32>) -> (r: bool)
    ensures
        r == marks::group_marked(album@.track_ids, marks@),
{
    group_is_fully_marked(&album.track_ids, marks)
}

/// A text with another one behind it.
fn put_together(a: &str, b: &str) -> (r: String)
    ensures
        r@ == a@ + b@,
{
    let mut r = copy_text(a);
    r.append(b);
    r
}

/// The objects of the album objects all of whose tracks are marked.
fn object_items(albums: &Vec<Album>, marks: &HashSet<u32>) -> (r: Vec<DeleteItem>)
    ensures
        item_views(r@) == marked_objects(device::album_views(albums@), marks@).map_values(
            |a: AlbumView| ItemView { object_id: a.id, name: "album "@ + a.name },
        ),
{
    let ghost all = device::album_views(albums@);
    let ghost keep = |a: AlbumView| marks::group_marked(a.track_ids, marks@);
    let ghost make = |a: AlbumView| ItemView { object_id: a.id, name: "album "@ + a.name };
    let mut r: Vec<DeleteItem> = Vec::new();
    let mut i: usize = 0;
    proof {
        seqs::lemma_filter_ends(all, keep);
        assert(item_views(r@) =~= all.take(0).filter(keep).map_values(make));
    }
    while i < albums.len()
        invariant
            i <= albums@.len(),
            all == device::album_views(albums@),
            keep == (|a: AlbumView| marks::group_marked(a.track_ids, marks@)),
            make == (|a: AlbumView| ItemView { object_id: a.id, name: "album "@ + a.name }),
            item_views(r@) == all.take(i as int).filter(keep).map_values(make),
        decreases albums@.len() - i,
    {
        proof {
            seqs::lemma_filter_next(all, i as int, keep);
            assert(all[i as int] == albums@[i as int]@);
        }
        if album_is_fully_marked(&albums[i], marks) {
            let ghost kept = all.take(i as int).filter(keep);
            let ghost before = item_views(r@);
            let item = DeleteItem {
                object_id: albums[i].id,
                name: put_together("album ", &albums[i].name),
            };
            r.push(item);
            proof {
                assert(item_views(r@) =~= before.push(item@));
                assert(kept.push(all[i as int]).map_values(make) =~= kept.map_values(make).push(
                    make(all[i as int]),
                ));
            }
        }
        i = i + 1;
    }
    r
}

/// The objects of the tracks that are marked.
fn track_items(tracks: &Vec<Track>, marks: &HashSet<u32>) -> (r: Vec<DeleteItem>)
    ensures
        item_views(r@) == marked_tracks(device::track_views(tracks@), marks@).map_values(
            |t: TrackView| ItemView { object_id: t.id, name: t.name },
        ),
{
    let ghost all = device::track_views(tracks@);
    let ghost keep = |t: TrackView| marks@.contains(t.id);
    let ghost make = |t: TrackView| ItemView { object_id: t.id, name: t.name };
    let mut r: Vec<DeleteItem> = Vec::new();
    let mut i: usize = 0;
    proof {
        seqs::lemma_filter_ends(all, keep);
        assert(item_views(r@) =~= all.take(0).filter(keep).map_values(make));
    }
    while i < tracks.len()
        invariant
            i <= tracks@.len(),
            all == device::track_views(tracks@),
            keep == (|t: TrackView| marks@.contains(t.id)),
            make == (|t: TrackView| ItemView { object_id: t.id, name: t.name }),
            item_views(r@) == all.take(i as int).filter(keep).map_values(make),
        decreases tracks@.len() - i,
    {
        proof {
            seqs::lemma_filter_next(all, i as int, keep);
            assert(all[i as int] == tracks@[i as int]@);
        }
        if is_marked(marks, tracks[i].id) {
            let ghost kept = all.take(i as int).filter(keep);
            let ghost before = item_views(r@);
            let item = DeleteItem { object_id: tracks[i].id, name: tracks[i].name.clone() };
            r.push(item);
            proof {
                assert(item_views(r@) =~= before.push(item@));
                assert(kept.push(all[i as int]).map_values(make) =~= kept.map_values(make).push(
                    make(all[i as int]),
                ));
            }
        }
        i = i + 1;
    }
    r
}

/// The album folders all of whose tracks are marked.
fn select_albums(albums: Vec<PhysicalAlbum>, marks: &HashSet<u32>) -> (r: Vec<PhysicalAlbum>)
    ensures
        library::physical_views(r@) == marked_albums(library::physical_views(albums@), marks@),
{
    let ghost all = library::physical_views(albums@);
    let ghost keep = |a: PhysicalView| marks::group_marked(a.track_ids, marks@);
    let mut left = albums;
    let n: usize = left.len();
    let mut r: Vec<PhysicalAlbum> = Vec::new();
    let mut i: usize = 0;
    proof {
        seqs::lemma_filter_ends(all, keep);
        assert(library::physical_views(r@) =~= all.take(0).filter(keep));
        assert(library::physical_views(left@) =~= all.skip(0));
    }
    while i < n
        invariant
            i <= n == all.len(),
            keep == (|a: PhysicalView| marks::group_marked(a.track_ids, marks@)),
            library::physical_views(left@) == all.skip(i as int),
            library::physical_views(r@) == all.take(i as int).filter(keep),
        decreases n - i,
    {
        proof {
            assert(library::physical_views(left@).len() == left@.len());
        }
        let ghost rest = left@;
        let album = left.remove(0);
        proof {
            seqs::lemma_filter_next(all, i as int, keep);
            assert(library::physical_views(rest)[0] == album@);
            assert(all[i as int] == album@);
            assert forall|j: int| 0 <= j < left@.len() implies library::physical_views(left@)[j]
                == all.skip(i + 1)[j] by {
                assert(left@[j] == rest[j + 1]);
                assert(library::physical_views(rest)[j + 1] == all.skip(i as int)[j + 1]);
            }
            assert(library::physical_views(left@) =~= all.skip(i + 1));
        }
        if group_is_fully_marked(&album.track_ids, marks) {
            let ghost before = library::physical_views(r@);
            r.push(album);
            assert(library::physical_views(r@) =~= before.push(album@));
        }
        i = i + 1;
    }
    r
}

/// Whether an artist's folder becomes empty.
fn becomes_empty(artist: &Folder, tracks: &Vec<Track>, marks: &HashSet<u32>) -> (r: bool)
    ensures
        r == artist_is_gone(artist@, device::track_views(tracks@), marks@),
{
    let ghost listed = device::track_views(tracks@);
    let total: usize = artist.children.len();
    let mut i: usize = 0;
    while i < total
        invariant
            i <= total == artist.children@.len(),
            listed == device::track_views(tracks@),
            forall|j: int|
                0 <= j < i ==> marks::group_marked(
                    library::track_ids_in(listed, (#[trigger] artist@.children[j]).id),
                    marks@,
                ),
        decreases total - i,
    {
        assert(artist@.children[i as int] == device::folder_view(artist.children@[i as int]));
        let ids = collect_track_ids(tracks, artist.children[i].id);
        if !group_is_fully_marked(&ids, marks) {
            return false;
        }
        i = i + 1;
    }
    let loose = collect_track_ids(tracks, artist.id);
    if loose.len() > 0 {
        group_is_fully_marked(&loose, marks)
    } else {
        total > 0
    }
}

/// The artists' folders that become empty.
fn find_gone_artists<'a>(
    artists: &Vec<&'a Folder>,
    tracks: &Vec<Track>,
    marks: &HashSet<u32>,
) -> (r: Vec<&'a Folder>)
    ensures
        folders::ref_views(r@) == gone_artists(
            folders::ref_views(artists@),
            device::track_views(tracks@),
            marks@,
            artists@.len() as int,
        ),
{
    let ghost all = folders::ref_views(artists@);
    let ghost listed = device::track_views(tracks@);
    let mut r: Vec<&'a Folder> = Vec::new();
    let mut n: usize = 0;
    assert(folders::ref_views(r@) =~= gone_artists(all, listed, marks@, 0));
    while n < artists.len()
        invariant
            n <= artists@.len(),
            all == folders::ref_views(artists@),
            listed == device::track_views(tracks@),
            folders::ref_views(r@) == gone_artists(all, listed, marks@, n as int),
        decreases artists@.len() - n,
    {
        let artist = artists[n];
        let ghost before = folders::ref_views(r@);
        assert(all[n as int] == device::folder_view(*artist));
        let mut seen = false;
        let mut k: usize = 0;
        while k < r.len()
            invariant
                k <= r@.len(),
                before == folders::ref_views(r@),
                seen == (exists|i: int| 0 <= i < k && (#[trigger] before[i]).id == artist.id),
            decreases r@.len() - k,
        {
            assert(before[k as int] == device::folder_view(*r@[k as int]));
            if r[k].id == artist.id {
                assert(before[k as int].id == artist.id);
                seen = true;
            }
            k = k + 1;
        }
        if becomes_empty(artist, tracks, marks) && !seen {
            r.push(artist);
            assert(folders::ref_views(r@) =~= before.push(all[n as int]));
        }
        n = n + 1;
    }
    r
}

/// The objects that a deletion of the marked tracks reaches.
pub fn delete_scope(snapshot: &DeviceSnapshot, marks: &HashSet<u32>) -> (r: DeleteScope)
    ensures
        r@ == scope(snapshot@, marks@),
{
    let mut items = object_items(&snapshot.albums, marks);
    let ghost objects = item_views(items@);
    let mut tracks = track_items(&snapshot.tracks, marks);
    let track_count: usize = tracks.len();
    let ghost track_part = item_views(tracks@);
    assert(track_part.len() == track_count);
    items.append(&mut tracks);
    assert(item_views(items@) =~= objects + track_part);
    let selected = select_albums(physical_albums(snapshot), marks);
    let ghost chosen = library::physical_views(selected@);
    let ghost folder_of = |a: PhysicalView|
        ItemView { object_id: a.folder_id, name: "album folder "@ + a.name };
    let ghost head = item_views(items@);
    let mut i: usize = 0;
    assert(head + chosen.map_values(folder_of).take(0) =~= head);
    while i < selected.len()
        invariant
            i <= selected@.len(),
            chosen == library::physical_views(selected@),
            folder_of == (|a: PhysicalView|
                ItemView { object_id: a.folder_id, name: "album folder "@ + a.name }),
            item_views(items@) == head + chosen.map_values(folder_of).take(i as int),
        decreases selected@.len() - i,
    {
        let ghost before = item_views(items@);
        let item = DeleteItem {
            object_id: selected[i].folder_id,
            name: put_together("album folder ", &selected[i].name),
        };
        items.push(item);
        proof {
            let wanted = chosen.map_values(folder_of);
            assert(chosen[i as int] == selected@[i as int]@);
            assert(item_views(items@) =~= before.push(item@));
            assert(wanted.take(i + 1) =~= wanted.take(i as int).push(wanted[i as int]));
            assert(head + wanted.take(i + 1) =~= (head + wanted.take(i as int)).push(
                wanted[i as int],
            ));
        }
        i = i + 1;
    }
    assert(chosen.map_values(folder_of).take(i as int) =~= chosen.map_values(folder_of));
    let known = collect_artists(&snapshot.folders);
    let gone = find_gone_artists(&known, &snapshot.tracks, marks);
    let ghost artists = folders::ref_views(gone@);
    let ghost names = artists.map_values(|a: FolderView| a.name);
    let ghost artist_folder_of = |a: FolderView|
        ItemView { object_id: a.id, name: "artist folder "@ + a.name };
    let ghost with_albums = item_views(items@);
    let ghost key_of = |n: Seq<char>| library::artist_order(n);
    let mut artist_names: Vec<String> = Vec::new();
    let mut keys: Vec<Vec<u32>> = Vec::new();
    let mut k: usize = 0;
    proof {
        assert(gone@.len() == artists.len());
        assert(with_albums + artists.map_values(artist_folder_of).take(0) =~= with_albums);
        assert(text::strings(artist_names@) =~= names.take(0));
        assert(order::key_views(keys@) =~= names.map_values(key_of).take(0));
    }
    while k < gone.len()
        invariant
            k <= gone@.len() == artists.len(),
            artists == folders::ref_views(gone@),
            names == artists.map_values(|a: FolderView| a.name),
            key_of == (|n: Seq<char>| library::artist_order(n)),
            artist_folder_of == (|a: FolderView|
                ItemView { object_id: a.id, name: "artist folder "@ + a.name }),
            item_views(items@) == with_albums + artists.map_values(artist_folder_of).take(
                k as int,
            ),
            text::strings(artist_names@) == names.take(k as int),
            order::key_views(keys@) == names.map_values(key_of).take(k as int),
        decreases gone@.len() - k,
    {
        let ghost before = item_views(items@);
        let ghost names_before = text::strings(artist_names@);
        let ghost keys_before = order::key_views(keys@);
        let artist = gone[k];
        assert(artists[k as int] == device::folder_view(*artist));
        let item = DeleteItem {
            object_id: artist.id,
            name: put_together("artist folder ", &artist.name),
        };
        items.push(item);
        let key = key_of_artist(&artist.name);
        keys.push(key);
        let name = artist.name.clone();
        artist_names.push(name);
        proof {
            let wanted = artists.map_values(artist_folder_of);
            assert(item_views(items@) =~= before.push(item@));
            assert(wanted.take(k + 1) =~= wanted.take(k as int).push(wanted[k as int]));
            assert(with_albums + wanted.take(k + 1) =~= (with_albums + wanted.take(
                k as int,
            )).push(wanted[k as int]));
            assert(text::strings(artist_names@) =~= names_before.push(name@));
            assert(names.take(k + 1) =~= names.take(k as int).push(names[k as int]));
            assert(order::key_views(keys@) =~= keys_before.push(key@));
            let all_keys = names.map_values(key_of);
            assert(all_keys.take(k + 1) =~= all_keys.take(k as int).push(all_keys[k as int]));
        }
        k = k + 1;
    }
    let ghost unsorted = artist_names@;
    let ghost ks = order::key_views(keys@);
    proof {
        assert(artists.map_values(artist_folder_of).take(k as int) =~= artists.map_values(
            artist_folder_of,
        ));
        assert(names.take(k as int) =~= names);
        assert(names.map_values(key_of).take(k as int) =~= names.map_values(key_of));
        assert(text::strings(unsorted).len() == unsorted.len());
        order::lemma_sorted_by_map(unsorted, ks, |t: String| t@);
    }
    let artist_names = sort_by_keys(artist_names, keys);
    let r = DeleteScope { items, track_count, album_count: selected.len(), artist_names };
    proof {
        let full = scope(snapshot@, marks@);
        assert(r@.items =~= full.items);
        assert(r@.track_count == full.track_count);
    }
    r
}

/// An artist's folder is deleted exactly where it becomes empty, and no id is deleted twice.
pub proof fn lemma_gone_artists(
    artists: Seq<FolderView>,
    tracks: Seq<TrackView>,
    marks: Set<u32>,
    n: int,
)
    requires
        0 <= n <= artists.len(),
    ensures
        forall|id: u32|
            (exists|i: int|
                0 <= i < gone_artists(artists, tracks, marks, n).len() && (
                #[trigger] gone_artists(artists, tracks, marks, n)[i]).id == id)
                <==> #[trigger] has_gone(artists, tracks, marks, n, id),
        forall|i: int, j: int|
            0 <= i < j < gone_artists(artists, tracks, marks, n).len() ==> (
            #[trigger] gone_artists(artists, tracks, marks, n)[i]).id != (#[trigger] gone_artists(
                artists,
                tracks,
                marks,
                n,
            )[j]).id,
    decreases n,
{
    let all = gone_artists(artists, tracks, marks, n);
    if n > 0 {
        let before = gone_artists(artists, tracks, marks, n - 1);
        lemma_gone_artists(artists, tracks, marks, n - 1);
        assert forall|id: u32|
            (exists|i: int| 0 <= i < all.len() && (#[trigger] all[i]).id == id)
                <==> #[trigger] has_gone(artists, tracks, marks, n, id) by {
            if has_gone(artists, tracks, marks, n - 1, id) {
                let j = choose|j: int|
                    0 <= j < n - 1 && (#[trigger] artists[j]).id == id && artist_is_gone(
                        artists[j],
                        tracks,
                        marks,
                    );
                assert(artists[j].id == id);
                assert(has_gone(artists, tracks, marks, n, id));
                let i = choose|i: int| 0 <= i < before.len() && (#[trigger] before[i]).id == id;
                assert(all[i] == before[i]);
            }
            if has_gone(artists, tracks, marks, n, id) && !has_gone(
                artists,
                tracks,
                marks,
                n - 1,
                id,
            ) {
                let j = choose|j: int|
                    0 <= j < n && (#[trigger] artists[j]).id == id && artist_is_gone(
                        artists[j],
                        tracks,
                        marks,
                    );
                assert(j == n - 1);
                assert(all[before.len() as int].id == id);
            }
            if exists|i: int| 0 <= i < all.len() && (#[trigger] all[i]).id == id {
                let i = choose|i: int| 0 <= i < all.len() && (#[trigger] all[i]).id == id;
                if i < before.len() {
                    assert(before[i].id == id);
                    assert(has_gone(artists, tracks, marks, n - 1, id));
                } else {
                    assert(artists[n - 1].id == id);
                }
            }
        }
        assert forall|i: int, j: int| 0 <= i < j < all.len() implies (#[trigger] all[i]).id != (
        #[trigger] all[j]).id by {
            assert(all[i] == before[i]);
            if j < before.len() {
                assert(all[j] == before[j]);
            }
        }
    }
}

/// Among the first `n` artists' folders, one with this id becomes empty.
pub open spec fn has_gone(
    artists: Seq<FolderView>,
    tracks: Seq<TrackView>,
    marks: Set<u32>,
    n: int,
    id: u32,
) -> bool {
    exists|j: int|
        0 <= j < n && (#[trigger] artists[j]).id == id && artist_is_gone(
            artists[j],
            tracks,
            marks,
        )
}

/// The tracks that a deletion names are those that are marked.
pub proof fn lemma_scope_tracks(snapshot: SnapshotView, marks: Set<u32>, track: TrackView)
    requires
        snapshot.tracks.contains(track),
    ensures
        marked_tracks(snapshot.tracks, marks).contains(track) == marks.contains(track.id),
        marks.contains(track.id) ==> scope(snapshot, marks).items.contains(
            ItemView { object_id: track.id, name: track.name },
        ),
{
    let keep = |t: TrackView| marks.contains(t.id);
    seqs::lemma_filter_members(snapshot.tracks, keep);
    let chosen = marked_tracks(snapshot.tracks, marks);
    if marks.contains(track.id) {
        assert(keep(track));
        assert(chosen.contains(track));
        let i = choose|i: int| 0 <= i < chosen.len() && chosen[i] == track;
        let n = marked_objects(snapshot.albums, marks).len();
        assert(scope(snapshot, marks).items[n + i] == (ItemView {
            object_id: track.id,
            name: track.name,
        }));
    }
}

/// An album folder is deleted only where every track that lies directly in it is marked.
pub proof fn lemma_deleted_album_is_marked(
    snapshot: SnapshotView,
    marks: Set<u32>,
    album: PhysicalView,
    track: TrackView,
)
    requires
        marked_albums(library::physical(snapshot), marks).contains(album),
        snapshot.tracks.contains(track),
        track.parent_id == album.folder_id,
    ensures
        marks.contains(track.id),
{
    let all = library::physical(snapshot);
    let artists = library::artists_in(snapshot.folders);
    seqs::lemma_filter_members(all, |a: PhysicalView| marks::group_marked(a.track_ids, marks));
    library::lemma_albums_are_those_of_artists(snapshot.folders, snapshot.tracks);
    let i = choose|i: int| 0 <= i < all.len() && all[i] == album;
    library::lemma_album_of_artists(artists, snapshot.tracks, i);
    lemma_marked_folder(snapshot.tracks, marks, album.folder_id, track);
}

/// Where all tracks that lie directly in a folder are marked, each of them is.
proof fn lemma_marked_folder(
    tracks: Seq<TrackView>,
    marks: Set<u32>,
    folder_id: u32,
    track: TrackView,
)
    requires
        marks::group_marked(library::track_ids_in(tracks, folder_id), marks),
        tracks.contains(track),
        track.parent_id == folder_id,
    ensures
        marks.contains(track.id),
{
    let inner = library::tracks_in(tracks, folder_id);
    seqs::lemma_filter_members(tracks, |t: TrackView| t.parent_id == folder_id);
    assert(inner.contains(track));
    let j = choose|j: int| 0 <= j < inner.len() && inner[j] == track;
    assert(library::track_ids_in(tracks, folder_id)[j] == track.id);
}

/// An artist's folder becomes empty only where every track that lies directly in it, or directly in
/// one of its album folders, is marked, and where each of these album folders is deleted.
pub proof fn lemma_deleted_artist_is_marked(
    snapshot: SnapshotView,
    marks: Set<u32>,
    artist: FolderView,
)
    requires
        library::artists_in(snapshot.folders).contains(artist),
        artist_is_gone(artist, snapshot.tracks, marks),
    ensures
        forall|track: TrackView|
            snapshot.tracks.contains(track) && lies_in_artist(track, artist)
                ==> #[trigger] marks.contains(track.id),
        forall|i: int|
            0 <= i < artist.children.len() ==> deletes_album(
                snapshot,
                marks,
                (#[trigger] artist.children[i]).id,
            ),
{
    let tracks = snapshot.tracks;
    let all = library::physical(snapshot);
    let selected = marked_albums(all, marks);
    assert forall|track: TrackView|
        snapshot.tracks.contains(track) && lies_in_artist(
            track,
            artist,
        ) implies #[trigger] marks.contains(track.id) by {
        if track.parent_id == artist.id {
            let loose = library::tracks_in(tracks, artist.id);
            seqs::lemma_filter_members(tracks, |t: TrackView| t.parent_id == artist.id);
            assert(loose.contains(track));
            lemma_marked_folder(tracks, marks, artist.id, track);
        } else {
            let i = choose|i: int|
                0 <= i < artist.children.len() && (#[trigger] artist.children[i]).id
                    == track.parent_id;
            lemma_marked_folder(tracks, marks, artist.children[i].id, track);
        }
    }
    assert forall|i: int| 0 <= i < artist.children.len() implies deletes_album(
        snapshot,
        marks,
        (#[trigger] artist.children[i]).id,
    ) by {
        library::lemma_albums_are_those_of_artists(snapshot.folders, tracks);
        library::lemma_album_is_listed(
            library::artists_in(snapshot.folders),
            tracks,
            artist,
            artist.children[i],
        );
        let album = choose|album: PhysicalView| #[trigger]
            all.contains(album) && album.folder_id == artist.children[i].id && album.track_ids
                == library::track_ids_in(tracks, album.folder_id);
        seqs::lemma_filter_members(
            all,
            |a: PhysicalView| marks::group_marked(a.track_ids, marks),
        );
        assert(selected.contains(album));
        let k = choose|k: int| 0 <= k < selected.len() && selected[k] == album;
        assert(selected[k].folder_id == artist.children[i].id);
    }
}

/// A folder is one of the album folders that a deletion reaches.
pub open spec fn deletes_album(snapshot: SnapshotView, marks: Set<u32>, folder_id: u32) -> bool {
    exists|k: int|
        0 <= k < marked_albums(library::physical(snapshot), marks).len() && (
        #[trigger] marked_albums(library::physical(snapshot), marks)[k]).folder_id == folder_id
}

/// A track lies directly in an artist's folder, or directly in one of its album folders.
pub open spec fn lies_in_artist(track: TrackView, artist: FolderView) -> bool {
    track.parent_id == artist.id || exists|i: int|
        0 <= i < artist.children.len() && (#[trigger] artist.children[i]).id == track.parent_id
}

// ---------------------------------------------------------------------------
// Confirmations
// ---------------------------------------------------------------------------

/// A deletion that waits to be confirmed.
#[derive(Debug)]
pub struct DeleteConfirmation {
    pub device_name: String,
    pub items: Vec<DeleteItem>,
    pub track_count: usize,
    pub album_count: usize,
    pub artist_names: Vec<String>,
}

/// A deletion that waits to be confirmed, as a mathematical value.
#[verifier::ext_equal]
pub struct DeleteConfirmationView {
    pub device_name: Seq<char>,
    pub scope: ScopeView,
}

impl View for DeleteConfirmation {
    type V = DeleteConfirmationView;

    open spec fn view(&self) -> DeleteConfirmationView {
        DeleteConfirmationView {
            device_name: self.device_name@,
            scope: ScopeView {
                items: item_views(self.items@),
                track_count: self.track_count as nat,
                album_count: self.album_count as nat,
                artist_names: text::strings(self.artist_names@),
            },
        }
    }
}

/// A number of things.
pub open spec fn count_noun(count: nat, singular: Seq<char>) -> Seq<char> {
    text::decimal(count) + " "@ + singular + if count == 1 {
        ""@
    } else {
        "s"@
    }
}

/// A name in quotes.
pub open spec fn quoted(name: Seq<char>) -> Seq<char> {
    "'"@ + name + "'"@
}

/// What is to be deleted, in words.
pub open spec fn scope_text(scope: ScopeView) -> Seq<char> {
    let tracks = count_noun(scope.track_count, "track"@);
    let albums = count_noun(scope.album_count, "album"@);
    let counts = if scope.album_count == 0 {
        tracks
    } else if scope.artist_names.len() > 0 {
        tracks + ", "@ + albums
    } else {
        tracks + " and "@ + albums
    };
    if scope.artist_names.len() == 0 {
        counts
    } else {
        let names = text::joined(
            scope.artist_names.map_values(|n: Seq<char>| quoted(n)),
            ", "@,
        );
        if scope.artist_names.len() == 1 {
            counts + ", and the artist folder "@ + names
        } else {
            counts + ", and the artist folders "@ + names
        }
    }
}

/// The question that is asked before a deletion.
pub open spec fn delete_question(confirmation: DeleteConfirmationView) -> Seq<char> {
    "Delete "@ + scope_text(confirmation.scope) + " from "@ + confirmation.device_name
        + "'s Zune? [y/N]"@
}

/// A number of things.
fn write_count(count: usize, singular: &str) -> (r: String)
    ensures
        r@ == count_noun(count as nat, singular@),
{
    let mut r = decimal_string(count as u64);
    r.append(" ");
    r.append(singular);
    if count == 1 {
        r.append("");
    } else {
        r.append("s");
    }
    r
}

/// Names in quotes, one behind the other.
fn write_names(names: &Vec<String>) -> (r: String)
    ensures
        r@ == text::joined(
            text::strings(names@).map_values(|n: Seq<char>| quoted(n)),
            ", "@,
        ),
{
    let ghost all = text::strings(names@).map_values(|n: Seq<char>| quoted(n));
    let mut parts: Vec<String> = Vec::new();
    let mut i: usize = 0;
    assert(text::strings(parts@) =~= all.take(0));
    while i < names.len()
        invariant
            i <= names@.len(),
            all == text::strings(names@).map_values(|n: Seq<char>| quoted(n)),
            text::strings(parts@) == all.take(i as int),
        decreases names@.len() - i,
    {
        let ghost before = text::strings(parts@);
        let mut part = copy_text("'");
        part.append(&names[i]);
        part.append("'");
        parts.push(part);
        proof {
            assert(text::strings(names@)[i as int] == names@[i as int]@);
            assert(text::strings(parts@) =~= before.push(part@));
            assert(all.take(i + 1) =~= all.take(i as int).push(all[i as int]));
        }
        i = i + 1;
    }
    assert(all.take(i as int) =~= all);
    join_strings(&parts, ", ")
}

/// The question that is asked before a deletion.
pub fn delete_confirmation_message(confirmation: &DeleteConfirmation) -> (r: String)
    ensures
        r@ == delete_question(confirmation@),
{
    let mut scope = write_count(confirmation.track_count, "track");
    let has_artists = confirmation.artist_names.len() > 0;
    assert(text::strings(confirmation.artist_names@).len() == confirmation.artist_names@.len());
    if confirmation.album_count != 0 {
        if has_artists {
            scope.append(", ");
        } else {
            scope.append(" and ");
        }
        scope.append(&write_count(confirmation.album_count, "album"));
    }
    if has_artists {
        if confirmation.artist_names.len() == 1 {
            scope.append(", and the artist folder ");
        } else {
            scope.append(", and the artist folders ");
        }
        scope.append(&write_names(&confirmation.artist_names));
    }
    let mut r = copy_text("Delete ");
    r.append(&scope);
    r.append(" from ");
    r.append(&confirmation.device_name);
    r.append("'s Zune? [y/N]");
    r
}

/// A change of playlists that waits to be confirmed.
#[derive(Debug)]
pub enum PlaylistConfirmation {
    DeletePlaylists(Vec<Playlist>),
    RemoveTracks { playlist: Playlist, track_ids: Vec<u32> },
}

/// A change of playlists that waits to be confirmed, as a mathematical value.
pub enum PlaylistConfirmationView {
    DeletePlaylists(Seq<PlaylistView>),
    RemoveTracks { playlist: PlaylistView, track_ids: Seq<u32> },
}

impl View for PlaylistConfirmation {
    type V = PlaylistConfirmationView;

    open spec fn view(&self) -> PlaylistConfirmationView {
        match self {
            PlaylistConfirmation::DeletePlaylists(playlists) => {
                PlaylistConfirmationView::DeletePlaylists(device::playlist_views(playlists@))
            },
            PlaylistConfirmation::RemoveTracks { playlist, track_ids } => {
                PlaylistConfirmationView::RemoveTracks {
                    playlist: playlist@,
                    track_ids: track_ids@,
                }
            },
        }
    }
}

/// The question that is asked before a change of playlists.
pub open spec fn playlist_question(confirmation: PlaylistConfirmationView) -> Seq<char> {
    match confirmation {
        PlaylistConfirmationView::DeletePlaylists(playlists) => {
            "Delete "@ + text::decimal(playlists.len()) + " playlist(s): "@ + text::joined(
                playlists.map_values(|p: PlaylistView| p.name).map_values(
                    |n: Seq<char>| quoted(n),
                ),
                ", "@,
            ) + "? [y/N]"@
        },
        PlaylistConfirmationView::RemoveTracks { playlist, track_ids } => {
            "Remove "@ + text::decimal(track_ids.len()) + " track(s) from '"@ + playlist.name
                + "'? [y/N]"@
        },
    }
}

/// The question that is asked before a change of playlists.
pub fn playlist_confirmation_message(confirmation: &PlaylistConfirmation) -> (r: String)
    ensures
        r@ == playlist_question(confirmation@),
{
    match confirmation {
        PlaylistConfirmation::DeletePlaylists(playlists) => {
            let ghost all = device::playlist_views(playlists@).map_values(
                |p: PlaylistView| p.name,
            );
            let mut names: Vec<String> = Vec::new();
            let mut i: usize = 0;
            assert(text::strings(names@) =~= all.take(0));
            while i < playlists.len()
                invariant
                    i <= playlists@.len(),
                    all == device::playlist_views(playlists@).map_values(
                        |p: PlaylistView| p.name,
                    ),
                    text::strings(names@) == all.take(i as int),
                decreases playlists@.len() - i,
            {
                let ghost before = text::strings(names@);
                let name = playlists[i].name.clone();
                names.push(name);
                proof {
                    assert(text::strings(names@) =~= before.push(name@));
                    assert(all.take(i + 1) =~= all.take(i as int).push(all[i as int]));
                }
                i = i + 1;
            }
            assert(all.take(i as int) =~= all);
            let mut r = copy_text("Delete ");
            r.append(&decimal_string(playlists.len() as u64));
            r.append(" playlist(s): ");
            r.append(&write_names(&names));
            r.append("? [y/N]");
            r
        },
        PlaylistConfirmation::RemoveTracks { playlist, track_ids } => {
            let mut r = copy_text("Remove ");
            r.append(&decimal_string(track_ids.len() as u64));
            r.append(" track(s) from '");
            r.append(&playlist.name);
            r.append("'? [y/N]");
            r
        },
    }
}

// ---------------------------------------------------------------------------
// What holds of a deletion
// ---------------------------------------------------------------------------

/// Tracks are listed, and each of them is marked.
pub open spec fn lists_only_marked(track_ids: Seq<u32>, marks: Set<u32>) -> bool {
    track_ids.len() > 0 && forall|id: u32| #[trigger] track_ids.contains(id) ==> marks.contains(id)
}

/// Album objects are those that list tracks, all of them marked, in the order of the device.
pub open spec fn are_emptied_objects(
    objects: Seq<AlbumView>,
    albums: Seq<AlbumView>,
    marks: Set<u32>,
) -> bool {
    seqs::is_selection(albums, objects, |a: AlbumView| lists_only_marked(a.track_ids, marks))
}

/// Tracks are the marked ones, in the order of the device.
pub open spec fn are_marked(
    chosen: Seq<TrackView>,
    tracks: Seq<TrackView>,
    marks: Set<u32>,
) -> bool {
    seqs::is_selection(tracks, chosen, |t: TrackView| marks.contains(t.id))
}

/// Album folders are those whose tracks are all marked, in the order of the device.
pub open spec fn are_emptied_albums(
    emptied: Seq<PhysicalView>,
    albums: Seq<PhysicalView>,
    marks: Set<u32>,
) -> bool {
    seqs::is_selection(albums, emptied, |a: PhysicalView| lists_only_marked(a.track_ids, marks))
}

/// A deletion leaves nothing in an artist's folder: each folder in it holds a track, every track in
/// these folders and in the artist's own is marked, and there is something to delete.
pub open spec fn is_left_empty(
    artist: FolderView,
    tracks: Seq<TrackView>,
    marks: Set<u32>,
) -> bool {
    &&& forall|i: int|
        0 <= i < artist.children.len() ==> library::holds_track(
            tracks,
            (#[trigger] artist.children[i]).id,
        )
    &&& forall|i: int|
        0 <= i < tracks.len() && lies_in_artist(#[trigger] tracks[i], artist) ==> marks.contains(
            tracks[i].id,
        )
    &&& artist.children.len() > 0 || library::holds_track(tracks, artist.id)
}

/// The artist's folder at index `i` is the first with its id that becomes empty.
pub open spec fn first_emptied(
    artists: Seq<FolderView>,
    tracks: Seq<TrackView>,
    marks: Set<u32>,
    i: int,
) -> bool {
    &&& is_left_empty(artists[i], tracks, marks)
    &&& forall|j: int|
        0 <= j < i && (#[trigger] artists[j]).id == artists[i].id ==> !is_left_empty(
            artists[j],
            tracks,
            marks,
        )
}

/// Artists' folders are those that become empty, each id once, in the order of the device; `at`
/// gives their indices.
pub open spec fn are_emptied_at(
    emptied: Seq<FolderView>,
    artists: Seq<FolderView>,
    tracks: Seq<TrackView>,
    marks: Set<u32>,
    at: Seq<int>,
) -> bool {
    &&& at.len() == emptied.len()
    &&& forall|k: int|
        0 <= k < at.len() ==> 0 <= #[trigger] at[k] < artists.len() && artists[at[k]] == emptied[k]
    &&& forall|k: int, l: int| 0 <= k < l < at.len() ==> #[trigger] at[k] < #[trigger] at[l]
    &&& forall|i: int|
        0 <= i < artists.len() ==> (#[trigger] at.contains(i) <==> first_emptied(
            artists,
            tracks,
            marks,
            i,
        ))
}

/// Artists' folders are those that become empty, each id once, in the order of the device.
pub open spec fn are_emptied_artists(
    emptied: Seq<FolderView>,
    artists: Seq<FolderView>,
    tracks: Seq<TrackView>,
    marks: Set<u32>,
) -> bool {
    exists|at: Seq<int>| are_emptied_at(emptied, artists, tracks, marks, at)
}

/// What a deletion consists of: album objects, tracks, album folders and artists' folders, in this
/// order, each under its own id and name.
pub open spec fn consists_of(
    items: Seq<ItemView>,
    objects: Seq<AlbumView>,
    tracks: Seq<TrackView>,
    albums: Seq<PhysicalView>,
    artists: Seq<FolderView>,
) -> bool {
    let a = objects.len() as int;
    let b = a + tracks.len();
    let c = b + albums.len();
    &&& items.len() == c + artists.len()
    &&& forall|i: int|
        0 <= i < a ==> (#[trigger] items[i]).object_id == objects[i].id && items[i].name
            == "album "@ + objects[i].name
    &&& forall|i: int|
        a <= i < b ==> (#[trigger] items[i]).object_id == tracks[i - a].id && items[i].name
            == tracks[i - a].name
    &&& forall|i: int|
        b <= i < c ==> (#[trigger] items[i]).object_id == albums[i - b].folder_id && items[i].name
            == "album folder "@ + albums[i - b].name
    &&& forall|i: int|
        c <= i < items.len() ==> (#[trigger] items[i]).object_id == artists[i - c].id
            && items[i].name == "artist folder "@ + artists[i - c].name
}

/// A deletion reaches exactly this: the album objects that list tracks, all of them marked; the
/// marked tracks; the album folders whose tracks are all marked; and the artists' folders that it
/// leaves empty. It counts the tracks and the album folders, and names the artists in the order of
/// their names.
pub proof fn lemma_deletion_reaches(snapshot: SnapshotView, marks: Set<u32>)
    ensures
        exists|
            objects: Seq<AlbumView>,
            tracks: Seq<TrackView>,
            albums: Seq<PhysicalView>,
            artists: Seq<FolderView>,
        | #[trigger]
            consists_of(scope(snapshot, marks).items, objects, tracks, albums, artists)
                && are_emptied_objects(objects, snapshot.albums, marks) && are_marked(
                tracks,
                snapshot.tracks,
                marks,
            ) && are_emptied_albums(albums, library::physical(snapshot), marks)
                && are_emptied_artists(
                artists,
                library::artists_in(snapshot.folders),
                snapshot.tracks,
                marks,
            ) && scope(snapshot, marks).track_count == tracks.len() && scope(
                snapshot,
                marks,
            ).album_count == albums.len() && order::is_arrangement(
                artists.map_values(|a: FolderView| a.name),
                artists.map_values(
                    |a: FolderView| order::text_key(folders::normalized(a.name)),
                ),
                scope(snapshot, marks).artist_names,
            ),
{
    let objects = marked_objects(snapshot.albums, marks);
    let tracks = marked_tracks(snapshot.tracks, marks);
    let albums = marked_albums(library::physical(snapshot), marks);
    let all_artists = library::artists_in(snapshot.folders);
    let n = all_artists.len() as int;
    let artists = gone_artists(all_artists, snapshot.tracks, marks, n);
    let items = scope(snapshot, marks).items;
    assert(consists_of(items, objects, tracks, albums, artists));
    lemma_lists_only_marked(marks);
    let of_object = |a: AlbumView| lists_only_marked(a.track_ids, marks);
    let object_test = |a: AlbumView| marks::group_marked(a.track_ids, marks);
    seqs::lemma_filter_selects(snapshot.albums, object_test);
    seqs::lemma_selection_by(snapshot.albums, objects, object_test, of_object);
    seqs::lemma_filter_selects(snapshot.tracks, |t: TrackView| marks.contains(t.id));
    let of_album = |a: PhysicalView| lists_only_marked(a.track_ids, marks);
    let album_test = |a: PhysicalView| marks::group_marked(a.track_ids, marks);
    seqs::lemma_filter_selects(library::physical(snapshot), album_test);
    seqs::lemma_selection_by(library::physical(snapshot), albums, album_test, of_album);
    lemma_emptied_artists(all_artists, snapshot.tracks, marks, n);
    assert(all_artists.take(n) =~= all_artists);
    let names = artists.map_values(|a: FolderView| a.name);
    let keys = names.map_values(|s: Seq<char>| library::artist_order(s));
    assert(keys =~= artists.map_values(
        |a: FolderView| order::text_key(folders::normalized(a.name)),
    ));
    order::lemma_sorted_by(names, keys);
}

/// A group is marked where it is not empty and each of its tracks is marked.
proof fn lemma_lists_only_marked(marks: Set<u32>)
    ensures
        forall|ids: Seq<u32>| #[trigger]
            marks::group_marked(ids, marks) == lists_only_marked(ids, marks),
{
    assert forall|ids: Seq<u32>| #[trigger]
        marks::group_marked(ids, marks) == lists_only_marked(ids, marks) by {
        if marks::group_marked(ids, marks) {
            assert forall|id: u32| #[trigger] ids.contains(id) implies marks.contains(id) by {
                let i = choose|i: int| 0 <= i < ids.len() && ids[i] == id;
                assert(marks.contains(ids[i]));
            }
        }
        if lists_only_marked(ids, marks) {
            assert forall|i: int| 0 <= i < ids.len() implies marks.contains(#[trigger] ids[i]) by {
                assert(ids.contains(ids[i]));
            }
        }
    }
}

/// The tracks that lie directly in a folder are a marked group where there is one and each of them
/// is marked.
pub proof fn lemma_folder_marked(tracks: Seq<TrackView>, marks: Set<u32>, folder_id: u32)
    ensures
        marks::group_marked(library::track_ids_in(tracks, folder_id), marks)
            <==> library::holds_track(tracks, folder_id) && forall|i: int|
            0 <= i < tracks.len() && (#[trigger] tracks[i]).parent_id == folder_id
                ==> marks.contains(tracks[i].id),
{
    let test = |t: TrackView| t.parent_id == folder_id;
    let inner = library::tracks_in(tracks, folder_id);
    let ids = library::track_ids_in(tracks, folder_id);
    library::lemma_tracks_in(tracks, folder_id);
    seqs::lemma_filter_selects(tracks, test);
    let at = choose|at: Seq<int>| seqs::selects(tracks, inner, test, at);
    if marks::group_marked(ids, marks) {
        assert forall|i: int|
            0 <= i < tracks.len() && (#[trigger] tracks[i]).parent_id
                == folder_id implies marks.contains(tracks[i].id) by {
            assert(test(tracks[i]));
            let k = choose|k: int| 0 <= k < at.len() && at[k] == i;
            assert(marks.contains(ids[k]));
        }
    } else if library::holds_track(tracks, folder_id) {
        let k = choose|k: int| 0 <= k < ids.len() && !marks.contains(#[trigger] ids[k]);
        assert(at.contains(at[k]));
        assert(test(tracks[at[k]]));
        assert(tracks[at[k]].id == ids[k]);
    }
}

/// An artist counts as gone where a deletion leaves nothing in the artist's folder.
proof fn lemma_is_left_empty(artist: FolderView, tracks: Seq<TrackView>, marks: Set<u32>)
    ensures
        artist_is_gone(artist, tracks, marks) == is_left_empty(artist, tracks, marks),
{
    let loose = library::track_ids_in(tracks, artist.id);
    library::lemma_tracks_in(tracks, artist.id);
    lemma_folder_marked(tracks, marks, artist.id);
    assert forall|i: int| 0 <= i < artist.children.len() implies marks::group_marked(
        library::track_ids_in(tracks, (#[trigger] artist.children[i]).id),
        marks,
    ) == (library::holds_track(tracks, artist.children[i].id) && forall|j: int|
        0 <= j < tracks.len() && (#[trigger] tracks[j]).parent_id == artist.children[i].id
            ==> marks.contains(tracks[j].id)) by {
        lemma_folder_marked(tracks, marks, artist.children[i].id);
    }
    if artist_is_gone(artist, tracks, marks) {
        assert forall|j: int|
            0 <= j < tracks.len() && lies_in_artist(
                #[trigger] tracks[j],
                artist,
            ) implies marks.contains(tracks[j].id) by {
            if tracks[j].parent_id == artist.id {
                assert(library::holds_track(tracks, artist.id));
            } else {
                let i = choose|i: int|
                    0 <= i < artist.children.len() && (#[trigger] artist.children[i]).id
                        == tracks[j].parent_id;
                assert(marks::group_marked(
                    library::track_ids_in(tracks, artist.children[i].id),
                    marks,
                ));
            }
        }
    }
    if is_left_empty(artist, tracks, marks) {
        assert forall|i: int| 0 <= i < artist.children.len() implies marks::group_marked(
            library::track_ids_in(tracks, (#[trigger] artist.children[i]).id),
            marks,
        ) by {
            assert forall|j: int|
                0 <= j < tracks.len() && (#[trigger] tracks[j]).parent_id
                    == artist.children[i].id implies marks.contains(tracks[j].id) by {
                assert(lies_in_artist(tracks[j], artist));
            }
        }
        assert forall|j: int|
            0 <= j < tracks.len() && (#[trigger] tracks[j]).parent_id
                == artist.id implies marks.contains(tracks[j].id) by {
            assert(lies_in_artist(tracks[j], artist));
        }
    }
}

/// The artists' folders that are deleted are those that become empty, each id once.
proof fn lemma_emptied_artists(
    artists: Seq<FolderView>,
    tracks: Seq<TrackView>,
    marks: Set<u32>,
    n: int,
)
    requires
        0 <= n <= artists.len(),
    ensures
        are_emptied_artists(
            gone_artists(artists, tracks, marks, n),
            artists.take(n),
            tracks,
            marks,
        ),
    decreases n,
{
    let part = artists.take(n);
    if n == 0 {
        assert(are_emptied_at(
            gone_artists(artists, tracks, marks, n),
            part,
            tracks,
            marks,
            Seq::<int>::empty(),
        ));
    } else {
        lemma_emptied_artists(artists, tracks, marks, n - 1);
        lemma_gone_artists(artists, tracks, marks, n - 1);
        let before = gone_artists(artists, tracks, marks, n - 1);
        let front = artists.take(n - 1);
        let artist = artists[n - 1];
        let old = choose|at: Seq<int>| are_emptied_at(before, front, tracks, marks, at);
        assert forall|i: int| 0 <= i < n implies artist_is_gone(
            #[trigger] artists[i],
            tracks,
            marks,
        ) == is_left_empty(artists[i], tracks, marks) by {
            lemma_is_left_empty(artists[i], tracks, marks);
        }
        assert forall|i: int| 0 <= i < n - 1 implies #[trigger] front[i] == part[i] && front[i]
            == artists[i] by {}
        assert(part[n - 1] == artist);
        let fresh = first_emptied(part, tracks, marks, n - 1);
        assert(has_gone(artists, tracks, marks, n - 1, artist.id) <==> exists|j: int|
            0 <= j < n - 1 && (#[trigger] part[j]).id == artist.id && is_left_empty(
                part[j],
                tracks,
                marks,
            )) by {
            if has_gone(artists, tracks, marks, n - 1, artist.id) {
                let j = choose|j: int|
                    0 <= j < n - 1 && (#[trigger] artists[j]).id == artist.id && artist_is_gone(
                        artists[j],
                        tracks,
                        marks,
                    );
                assert(part[j].id == artist.id);
            }
            if exists|j: int|
                0 <= j < n - 1 && (#[trigger] part[j]).id == artist.id && is_left_empty(
                    part[j],
                    tracks,
                    marks,
                ) {
                let j = choose|j: int|
                    0 <= j < n - 1 && (#[trigger] part[j]).id == artist.id && is_left_empty(
                        part[j],
                        tracks,
                        marks,
                    );
                assert(artists[j].id == artist.id);
            }
        }
        let now = gone_artists(artists, tracks, marks, n);
        let at = if fresh {
            old.push(n - 1)
        } else {
            old
        };
        assert(now == if fresh {
            before.push(artist)
        } else {
            before
        });
        assert forall|k: int| 0 <= k < at.len() implies 0 <= #[trigger] at[k] < part.len()
            && part[at[k]] == now[k] by {
            if k < old.len() {
                assert(at[k] == old[k]);
                assert(front[old[k]] == before[k]);
            }
        }
        assert forall|k: int, l: int| 0 <= k < l < at.len() implies #[trigger] at[k]
            < #[trigger] at[l] by {
            assert(at[k] == old[k]);
            if l < old.len() {
                assert(at[l] == old[l]);
            }
        }
        assert forall|i: int| 0 <= i < part.len() implies (#[trigger] at.contains(i)
            <==> first_emptied(part, tracks, marks, i)) by {
            if i < n - 1 {
                assert(first_emptied(part, tracks, marks, i) == first_emptied(
                    front,
                    tracks,
                    marks,
                    i,
                )) by {
                    assert(front[i] == part[i]);
                    assert forall|j: int| 0 <= j < i implies #[trigger] front[j]
                        == part[j] by {}
                    if first_emptied(front, tracks, marks, i) {
                        assert forall|j: int|
                            0 <= j < i && (#[trigger] part[j]).id
                                == part[i].id implies !is_left_empty(part[j], tracks, marks) by {
                            assert(front[j].id == front[i].id);
                        }
                    }
                }
                assert(at.contains(i) == old.contains(i)) by {
                    if old.contains(i) {
                        let k = choose|k: int| 0 <= k < old.len() && old[k] == i;
                        assert(at[k] == i);
                    }
                    if at.contains(i) {
                        let k = choose|k: int| 0 <= k < at.len() && at[k] == i;
                        assert(old[k] == i);
                    }
                }
            } else {
                if fresh {
                    assert(at[old.len() as int] == i);
                } else if at.contains(i) {
                    let k = choose|k: int| 0 <= k < at.len() && at[k] == i;
                    assert(old[k] < front.len());
                }
            }
        }
        assert(are_emptied_at(now, part, tracks, marks, at));
    }
}

/// What a text says of a count: the number, and what is counted, in the plural unless it is one.
pub open spec fn says_count(said: Seq<char>, count: nat, one: Seq<char>, many: Seq<char>) -> bool {
    said == text::decimal(count) + if count == 1 {
        one
    } else {
        many
    }
}

/// A count names what is counted, in the plural unless it is one.
pub proof fn lemma_count_noun(count: nat)
    ensures
        says_count(count_noun(count, "track"@), count, " track"@, " tracks"@),
        says_count(count_noun(count, "album"@), count, " album"@, " albums"@),
{
    reveal_strlit(" ");
    reveal_strlit("");
    reveal_strlit("s");
    reveal_strlit("track");
    reveal_strlit("album");
    reveal_strlit(" track");
    reveal_strlit(" tracks");
    reveal_strlit(" album");
    reveal_strlit(" albums");
    assert(" "@ + "track"@ + ""@ =~= " track"@);
    assert(" "@ + "track"@ + "s"@ =~= " tracks"@);
    assert(" "@ + "album"@ + ""@ =~= " album"@);
    assert(" "@ + "album"@ + "s"@ =~= " albums"@);
    let end = if count == 1 {
        ""@
    } else {
        "s"@
    };
    assert(count_noun(count, "track"@) =~= text::decimal(count) + (" "@ + "track"@ + end));
    assert(count_noun(count, "album"@) =~= text::decimal(count) + (" "@ + "album"@ + end));
}

/// The question before a deletion tells how many tracks are deleted, how many albums where there are
/// any, and the names of the artists whose folders are deleted, in their order; and from whose device.
pub proof fn lemma_delete_question(
    confirmation: DeleteConfirmationView,
    tracks: Seq<char>,
    albums: Seq<char>,
    names: Seq<Seq<char>>,
)
    requires
        says_count(tracks, confirmation.scope.track_count, " track"@, " tracks"@),
        says_count(albums, confirmation.scope.album_count, " album"@, " albums"@),
        names.len() == confirmation.scope.artist_names.len(),
        forall|i: int|
            0 <= i < names.len() ==> #[trigger] names[i] == seq!['\'']
                + confirmation.scope.artist_names[i] + seq!['\''],
    ensures
        ({
            let n = names.len();
            let some = confirmation.scope.album_count > 0;
            let what = scope_text(confirmation.scope);
            &&& delete_question(confirmation) == "Delete "@ + what + " from "@
                + confirmation.device_name + "'s Zune? [y/N]"@
            &&& n == 0 && !some ==> what == tracks
            &&& n == 0 && some ==> what == tracks + " and "@ + albums
            &&& n == 1 && !some ==> what == tracks + ", and the artist folder "@ + names[0]
            &&& n == 1 && some ==> what == tracks + ", "@ + albums + ", and the artist folder "@
                + names[0]
            &&& n > 1 && !some ==> what == tracks + ", and the artist folders "@ + text::joined(
                names,
                ", "@,
            )
            &&& n > 1 && some ==> what == tracks + ", "@ + albums + ", and the artist folders "@
                + text::joined(names, ", "@)
        }),
{
    let scope = confirmation.scope;
    lemma_count_noun(scope.track_count);
    lemma_count_noun(scope.album_count);
    reveal_strlit("'");
    assert("'"@ =~= seq!['\'']);
    assert(scope.artist_names.map_values(|s: Seq<char>| quoted(s)) =~= names);
}

/// The question before a change of playlists tells how many playlists are deleted, and their names in
/// their order; or how many tracks are removed, and from which playlist.
pub proof fn lemma_playlist_question(
    confirmation: PlaylistConfirmationView,
    names: Seq<Seq<char>>,
)
    ensures
        confirmation matches PlaylistConfirmationView::DeletePlaylists(playlists) ==> {
            names.len() == playlists.len() && (forall|i: int|
                0 <= i < names.len() ==> #[trigger] names[i] == seq!['\''] + playlists[i].name
                    + seq!['\'']) ==> playlist_question(confirmation) == "Delete "@
                + text::decimal(playlists.len()) + " playlist(s): "@ + text::joined(names, ", "@)
                + "? [y/N]"@
        },
        confirmation matches PlaylistConfirmationView::RemoveTracks { playlist, track_ids }
            ==> playlist_question(confirmation) == "Remove "@ + text::decimal(track_ids.len())
            + " track(s) from '"@ + playlist.name + "'? [y/N]"@,
{
    reveal_strlit("'");
    assert("'"@ =~= seq!['\'']);
    if let PlaylistConfirmationView::DeletePlaylists(playlists) = confirmation {
        let shown = playlists.map_values(|p: PlaylistView| p.name).map_values(
            |n: Seq<char>| quoted(n),
        );
        if names.len() == playlists.len() && (forall|i: int|
            0 <= i < names.len() ==> #[trigger] names[i] == seq!['\''] + playlists[i].name + seq![
                '\'',
            ]) {
            assert(shown =~= names);
        }
    }
}

} // verus!
