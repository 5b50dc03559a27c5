//! The device's library: album folders and artists.
use vstd::prelude::*;

use crate::device;
use crate::device::{DeviceSnapshot, Folder, FolderView, SnapshotView, Track, TrackView};
use crate::folders;
use crate::folders::{is_music_folder, normalized_folder_name};
use crate::order;
use crate::order::key_of_chars;
use crate::seqs;
use crate::text::chars_of;

verus! {

// ---------------------------------------------------------------------------
// Albums in the folder tree
// ---------------------------------------------------------------------------

/// An album folder, that is Music/Artist/Album, with the tracks in it.
#[derive(Debug)]
pub struct PhysicalAlbum {
    pub folder_id: u32,
    pub name: String,
    pub artist_id: u32,
    pub artist_name: String,
    pub track_ids: Vec<u32>,
    pub artist_album_count: usize,
}

/// An album folder as a mathematical value.
#[verifier::ext_equal]
pub struct PhysicalView {
    pub folder_id: u32,
    pub name: Seq<char>,
    pub artist_id: u32,
    pub artist_name: Seq<char>,
    pub track_ids: Seq<u32>,
    pub artist_album_count: nat,
}

impl View for PhysicalAlbum {
    type V = PhysicalView;

    open spec fn view(&self) -> PhysicalView {
        PhysicalView {
            folder_id: self.folder_id,
            name: self.name@,
            artist_id: self.artist_id,
            artist_name: self.artist_name@,
            track_ids: self.track_ids@,
            artist_album_count: self.artist_album_count as nat,
        }
    }
}

/// The album folders that a vector holds.
pub open spec fn physical_views(albums: Seq<PhysicalAlbum>) -> Seq<PhysicalView> {
    albums.map_values(|a: PhysicalAlbum| a@)
}

/// The tracks in a folder.
pub open spec fn tracks_in(tracks: Seq<TrackView>, folder_id: u32) -> Seq<TrackView> {
    tracks.filter(|t: TrackView| t.parent_id == folder_id)
}

/// The ids of the tracks in a folder.
pub open spec fn track_ids_in(tracks: Seq<TrackView>, folder_id: u32) -> Seq<u32> {
    tracks_in(tracks, folder_id).map_values(|t: TrackView| t.id)
}

/// The folders of an artist that hold tracks.
pub open spec fn albums_of_artist(
    children: Seq<FolderView>,
    artist: FolderView,
    tracks: Seq<TrackView>,
) -> Seq<PhysicalView>
    decreases children.len(),
{
    if children.len() == 0 {
        Seq::empty()
    } else {
        let before = albums_of_artist(children.drop_last(), artist, tracks);
        let album = children.last();
        let ids = track_ids_in(tracks, album.id);
        if ids.len() == 0 {
            before
        } else {
            before.push(
                PhysicalView {
                    folder_id: album.id,
                    name: album.name,
                    artist_id: artist.id,
                    artist_name: artist.name,
                    track_ids: ids,
                    artist_album_count: artist.children.len(),
                },
            )
        }
    }
}

/// The album folders of several artists.
pub open spec fn albums_of_artists(artists: Seq<FolderView>, tracks: Seq<TrackView>) -> Seq<
    PhysicalView,
>
    decreases artists.len(),
{
    if artists.len() == 0 {
        Seq::empty()
    } else {
        albums_of_artists(artists.drop_last(), tracks) + albums_of_artist(
            artists.last().children,
            artists.last(),
            tracks,
        )
    }
}

/// The album folders below the top folders named "Music".
pub open spec fn albums_in(tree: Seq<FolderView>, tracks: Seq<TrackView>) -> Seq<PhysicalView>
    decreases tree.len(),
{
    if tree.len() == 0 {
        Seq::empty()
    } else {
        let before = albums_in(tree.drop_last(), tracks);
        if folders::is_music(tree.last()) {
            before + albums_of_artists(tree.last().children, tracks)
        } else {
            before
        }
    }
}

/// The album folders of a device.
pub open spec fn physical(snapshot: SnapshotView) -> Seq<PhysicalView> {
    albums_in(snapshot.folders, snapshot.tracks)
}

/// The artists' folders: those in the top folders named "Music".
pub open spec fn artists_in(tree: Seq<FolderView>) -> Seq<FolderView>
    decreases tree.len(),
{
    if tree.len() == 0 {
        Seq::empty()
    } else if folders::is_music(tree.last()) {
        artists_in(tree.drop_last()) + tree.last().children
    } else {
        artists_in(tree.drop_last())
    }
}

/// The album folders of some artists and of more are those of all of them.
proof fn lemma_more_artists(some: Seq<FolderView>, more: Seq<FolderView>, tracks: Seq<TrackView>)
    ensures
        albums_of_artists(some + more, tracks) == albums_of_artists(some, tracks)
            + albums_of_artists(more, tracks),
    decreases more.len(),
{
    if more.len() == 0 {
        assert(some + more =~= some);
        assert(albums_of_artists(some, tracks) + albums_of_artists(more, tracks)
            =~= albums_of_artists(some, tracks));
    } else {
        lemma_more_artists(some, more.drop_last(), tracks);
        assert((some + more).drop_last() =~= some + more.drop_last());
        let last = albums_of_artist(more.last().children, more.last(), tracks);
        assert((albums_of_artists(some, tracks) + albums_of_artists(more.drop_last(), tracks))
            + last =~= albums_of_artists(some, tracks) + (albums_of_artists(
            more.drop_last(),
            tracks,
        ) + last));
    }
}

/// The album folders of a tree are those of its artists.
pub proof fn lemma_albums_are_those_of_artists(tree: Seq<FolderView>, tracks: Seq<TrackView>)
    ensures
        albums_in(tree, tracks) == albums_of_artists(artists_in(tree), tracks),
    decreases tree.len(),
{
    if tree.len() > 0 {
        lemma_albums_are_those_of_artists(tree.drop_last(), tracks);
        if folders::is_music(tree.last()) {
            lemma_more_artists(artists_in(tree.drop_last()), tree.last().children, tracks);
        }
    }
}

/// An album folder of an artist lists the tracks that lie in it.
proof fn lemma_album_of_artist(
    children: Seq<FolderView>,
    artist: FolderView,
    tracks: Seq<TrackView>,
    i: int,
)
    requires
        0 <= i < albums_of_artist(children, artist, tracks).len(),
    ensures
        ({
            let album = albums_of_artist(children, artist, tracks)[i];
            album.track_ids == track_ids_in(tracks, album.folder_id)
        }),
    decreases children.len(),
{
    if children.len() > 0 {
        let before = albums_of_artist(children.drop_last(), artist, tracks);
        if i < before.len() {
            lemma_album_of_artist(children.drop_last(), artist, tracks, i);
        }
    }
}

/// Each album folder of some artists lists the tracks that lie in it.
pub proof fn lemma_album_of_artists(artists: Seq<FolderView>, tracks: Seq<TrackView>, i: int)
    requires
        0 <= i < albums_of_artists(artists, tracks).len(),
    ensures
        ({
            let album = albums_of_artists(artists, tracks)[i];
            album.track_ids == track_ids_in(tracks, album.folder_id)
        }),
    decreases artists.len(),
{
    if artists.len() > 0 {
        let before = albums_of_artists(artists.drop_last(), tracks);
        let last = artists.last();
        if i < before.len() {
            lemma_album_of_artists(artists.drop_last(), tracks, i);
        } else {
            lemma_album_of_artist(last.children, last, tracks, i - before.len());
        }
    }
}

/// A folder of an artist that holds tracks is one of the artist's album folders.
proof fn lemma_child_is_listed(
    children: Seq<FolderView>,
    artist: FolderView,
    tracks: Seq<TrackView>,
    child: FolderView,
)
    requires
        children.contains(child),
        track_ids_in(tracks, child.id).len() > 0,
    ensures
        exists|i: int|
            0 <= i < albums_of_artist(children, artist, tracks).len() && (
            #[trigger] albums_of_artist(children, artist, tracks)[i]).folder_id == child.id,
    decreases children.len(),
{
    let all = albums_of_artist(children, artist, tracks);
    let before = albums_of_artist(children.drop_last(), artist, tracks);
    if children.last() == child {
        assert(all[before.len() as int].folder_id == child.id);
    } else {
        let c = choose|c: int| 0 <= c < children.len() && children[c] == child;
        assert(children.drop_last()[c] == child);
        lemma_child_is_listed(children.drop_last(), artist, tracks, child);
        let i = choose|i: int|
            0 <= i < before.len() && (#[trigger] before[i]).folder_id == child.id;
        assert(all[i] == before[i]);
    }
}

/// A folder of one of some artists that holds tracks is one of their album folders.
pub proof fn lemma_album_is_listed(
    artists: Seq<FolderView>,
    tracks: Seq<TrackView>,
    artist: FolderView,
    child: FolderView,
)
    requires
        artists.contains(artist),
        artist.children.contains(child),
        track_ids_in(tracks, child.id).len() > 0,
    ensures
        exists|album: PhysicalView| #[trigger]
            albums_of_artists(artists, tracks).contains(album) && album.folder_id == child.id
                && album.track_ids == track_ids_in(tracks, album.folder_id),
    decreases artists.len(),
{
    let all = albums_of_artists(artists, tracks);
    let before = albums_of_artists(artists.drop_last(), tracks);
    let last = artists.last();
    if last == artist {
        let own = albums_of_artist(last.children, last, tracks);
        lemma_child_is_listed(last.children, last, tracks, child);
        let i = choose|i: int| 0 <= i < own.len() && (#[trigger] own[i]).folder_id == child.id;
        lemma_album_of_artist(last.children, last, tracks, i);
        assert(all[before.len() + i] == own[i]);
        assert(all.contains(own[i]));
    } else {
        let a = choose|a: int| 0 <= a < artists.len() && artists[a] == artist;
        assert(artists.drop_last()[a] == artist);
        lemma_album_is_listed(artists.drop_last(), tracks, artist, child);
        let album = choose|album: PhysicalView| #[trigger]
            before.contains(album) && album.folder_id == child.id && album.track_ids
                == track_ids_in(tracks, album.folder_id);
        let i = choose|i: int| 0 <= i < before.len() && before[i] == album;
        assert(all[i] == album);
        assert(all.contains(album));
    }
}

/// The first album folder with the given id.
pub open spec fn physical_with_id(albums: Seq<PhysicalView>, id: u32) -> Option<PhysicalView> {
    seqs::first(albums, |a: PhysicalView| a.folder_id == id)
}

/// The artists' folders.
pub(crate) fn collect_artists(tree: &Vec<Folder>) -> (r: Vec<&Folder>)
    ensures
        folders::ref_views(r@) == artists_in(device::folder_views(tree@)),
{
    let ghost all = device::folder_views(tree@);
    let mut r: Vec<&Folder> = Vec::new();
    let mut m: usize = 0;
    proof {
        assert(all.take(0).len() == 0);
        assert(folders::ref_views(r@) =~= artists_in(all.take(0)));
    }
    while m < tree.len()
        invariant
            m <= tree@.len(),
            all == device::folder_views(tree@),
            folders::ref_views(r@) == artists_in(all.take(m as int)),
        decreases tree@.len() - m,
    {
        let music = &tree[m];
        let ghost before = folders::ref_views(r@);
        proof {
            assert(all[m as int] == device::folder_view(tree@[m as int]));
            assert(all.take(m + 1).drop_last() =~= all.take(m as int));
            assert(all.take(m + 1).last() == all[m as int]);
        }
        if is_music_folder(music) {
            let ghost children = music@.children;
            let mut a: usize = 0;
            assert(before + children.take(0) =~= before);
            while a < music.children.len()
                invariant
                    a <= music.children@.len(),
                    children == music@.children,
                    folders::ref_views(r@) == before + children.take(a as int),
                decreases music.children@.len() - a,
            {
                let ghost so_far = folders::ref_views(r@);
                let artist = &music.children[a];
                r.push(artist);
                proof {
                    assert(children[a as int] == device::folder_view(*artist));
                    assert(folders::ref_views(r@) =~= so_far.push(device::folder_view(*artist)));
                    assert(before + children.take(a + 1) =~= (before + children.take(
                        a as int,
                    )).push(children[a as int]));
                }
                a = a + 1;
            }
            assert(children.take(a as int) =~= children);
        }
        m = m + 1;
    }
    assert(all.take(m as int) =~= all);
    r
}

/// The ids of the tracks in a folder.
pub(crate) fn collect_track_ids(tracks: &Vec<Track>, folder_id: u32) -> (r: Vec<u32>)
    ensures
        r@ == track_ids_in(device::track_views(tracks@), folder_id),
{
    let ghost all = device::track_views(tracks@);
    let ghost keep = |t: TrackView| t.parent_id == folder_id;
    let ghost id_of = |t: TrackView| t.id;
    let mut r: Vec<u32> = Vec::new();
    let mut i: usize = 0;
    proof {
        seqs::lemma_filter_ends(all, keep);
        assert(r@ =~= all.take(0).filter(keep).map_values(id_of));
    }
    while i < tracks.len()
        invariant
            i <= tracks@.len(),
            all == device::track_views(tracks@),
            keep == (|t: TrackView| t.parent_id == folder_id),
            id_of == (|t: TrackView| t.id),
            r@ == all.take(i as int).filter(keep).map_values(id_of),
        decreases tracks@.len() - i,
    {
        proof {
            seqs::lemma_filter_next(all, i as int, keep);
            assert(all[i as int] == tracks@[i as int]@);
        }
        if tracks[i].parent_id == folder_id {
            let ghost kept = all.take(i as int).filter(keep);
            r.push(tracks[i].id);
            assert(kept.push(all[i as int]).map_values(id_of) =~= kept.map_values(id_of).push(
                all[i as int].id,
            ));
        }
        i = i + 1;
    }
    r
}

/// Adds the folders of an artist that hold tracks.
fn add_albums_of_artist(out: &mut Vec<PhysicalAlbum>, artist: &Folder, tracks: &Vec<Track>)
    ensures
        physical_views(final(out)@) == physical_views(old(out)@) + albums_of_artist(
            artist@.children,
            artist@,
            device::track_views(tracks@),
        ),
{
    let ghost before = physical_views(out@);
    let ghost all = artist@.children;
    let ghost known = device::track_views(tracks@);
    let mut i: usize = 0;
    proof {
        assert(all.take(0).len() == 0);
        assert(before + albums_of_artist(all.take(0), artist@, known) =~= before);
    }
    while i < artist.children.len()
        invariant
            i <= artist.children@.len(),
            all == artist@.children,
            known == device::track_views(tracks@),
            physical_views(out@) == before + albums_of_artist(
                all.take(i as int),
                artist@,
                known,
            ),
        decreases artist.children@.len() - i,
    {
        let album = &artist.children[i];
        proof {
            assert(all[i as int] == device::folder_view(artist.children@[i as int]));
            assert(all.take(i + 1).drop_last() =~= all.take(i as int));
            assert(all.take(i + 1).last() == all[i as int]);
        }
        let track_ids = collect_track_ids(tracks, album.id);
        if track_ids.len() > 0 {
            let ghost so_far = physical_views(out@);
            let found = PhysicalAlbum {
                folder_id: album.id,
                name: album.name.clone(),
                artist_id: artist.id,
                artist_name: artist.name.clone(),
                track_ids,
                artist_album_count: artist.children.len(),
            };
            out.push(found);
            proof {
                assert(physical_views(out@) =~= so_far.push(found@));
                let head = albums_of_artist(all.take(i as int), artist@, known);
                assert(before + head.push(found@) =~= (before + head).push(found@));
            }
        }
        i = i + 1;
    }
    assert(all.take(i as int) =~= all);
}

/// The album folders of a device: the folders Music/Artist/Album that hold tracks.
pub fn physical_albums(snapshot: &DeviceSnapshot) -> (r: Vec<PhysicalAlbum>)
    ensures
        physical_views(r@) == physical(snapshot@),
{
    let ghost tree = device::folder_views(snapshot.folders@);
    let ghost known = device::track_views(snapshot.tracks@);
    let mut r: Vec<PhysicalAlbum> = Vec::new();
    let mut m: usize = 0;
    proof {
        assert(tree.take(0).len() == 0);
        assert(physical_views(r@) =~= albums_in(tree.take(0), known));
    }
    while m < snapshot.folders.len()
        invariant
            m <= snapshot.folders@.len(),
            tree == device::folder_views(snapshot.folders@),
            known == device::track_views(snapshot.tracks@),
            physical_views(r@) == albums_in(tree.take(m as int), known),
        decreases snapshot.folders@.len() - m,
    {
        let music = &snapshot.folders[m];
        let ghost before = physical_views(r@);
        proof {
            assert(tree[m as int] == device::folder_view(snapshot.folders@[m as int]));
            assert(tree.take(m + 1).drop_last() =~= tree.take(m as int));
            assert(tree.take(m + 1).last() == tree[m as int]);
        }
        if is_music_folder(music) {
            let ghost artists = music@.children;
            let mut a: usize = 0;
            proof {
                assert(artists.take(0).len() == 0);
                assert(before + albums_of_artists(artists.take(0), known) =~= before);
            }
            while a < music.children.len()
                invariant
                    a <= music.children@.len(),
                    artists == music@.children,
                    known == device::track_views(snapshot.tracks@),
                    physical_views(r@) == before + albums_of_artists(
                        artists.take(a as int),
                        known,
                    ),
                decreases music.children@.len() - a,
            {
                let artist = &music.children[a];
                proof {
                    assert(artists[a as int] == device::folder_view(music.children@[a as int]));
                    assert(artists.take(a + 1).drop_last() =~= artists.take(a as int));
                    assert(artists.take(a + 1).last() == artists[a as int]);
                }
                add_albums_of_artist(&mut r, artist, &snapshot.tracks);
                proof {
                    let head = albums_of_artists(artists.take(a as int), known);
                    let own = albums_of_artist(artist@.children, artist@, known);
                    assert(before + head + own =~= before + (head + own));
                }
                a = a + 1;
            }
            assert(artists.take(a as int) =~= artists);
        }
        m = m + 1;
    }
    assert(tree.take(m as int) =~= tree);
    r
}

/// The album folder with the given id.
pub fn physical_album(snapshot: &DeviceSnapshot, folder_id: u32) -> (r: Option<PhysicalAlbum>)
    ensures
        (match r {
            Some(album) => physical_with_id(physical(snapshot@), folder_id) == Some(album@),
            None => physical_with_id(physical(snapshot@), folder_id) is None,
        }),
{
    let mut albums = physical_albums(snapshot);
    let ghost all = physical_views(albums@);
    let ghost test = |a: PhysicalView| a.folder_id == folder_id;
    let mut i: usize = 0;
    while i < albums.len() && albums[i].folder_id != folder_id
        invariant
            i <= albums@.len(),
            all == physical_views(albums@),
            test == (|a: PhysicalView| a.folder_id == folder_id),
            forall|j: int| 0 <= j < i ==> !test(#[trigger] all[j]),
        decreases albums@.len() - i,
    {
        assert(all[i as int] == albums@[i as int]@);
        i = i + 1;
    }
    proof {
        if i < albums@.len() {
            assert(all[i as int] == albums@[i as int]@);
        }
        seqs::lemma_position_is(all, test, i as int);
    }
    if i < albums.len() {
        Some(albums.remove(i))
    } else {
        None
    }
}

/// The name that artists are sorted by.
pub fn artist_sort_key(name: &str) -> (r: String)
    ensures
        r@ == folders::normalized(name@),
{
    normalized_folder_name(name)
}

/// The sort key of an artist's name.
pub open spec fn artist_order(name: Seq<char>) -> Seq<u32> {
    order::text_key(folders::normalized(name))
}

/// The sort key of an artist's name.
pub(crate) fn key_of_artist(name: &str) -> (r: Vec<u32>)
    ensures
        r@ == artist_order(name@),
{
    let chars = chars_of(&artist_sort_key(name));
    key_of_chars(&chars)
}

// ---------------------------------------------------------------------------
// What holds of the library
// ---------------------------------------------------------------------------

/// The artists' folders are the folders directly in the Music folders at the top, one Music folder
/// after the other.
pub proof fn lemma_artists_in(tree: Seq<FolderView>)
    ensures
        artists_in(tree) == tree.filter(|f: FolderView| folders::is_music(f)).flat_map(
            |f: FolderView| f.children,
        ),
    decreases tree.len(),
{
    reveal(Seq::filter);
    let test = |f: FolderView| folders::is_music(f);
    let inner = |f: FolderView| f.children;
    if tree.len() == 0 {
        assert(tree.filter(test).map_values(inner) =~= Seq::<Seq<FolderView>>::empty());
        assert(tree.filter(test).flat_map(inner) =~= Seq::<FolderView>::empty());
    } else {
        let front = tree.drop_last();
        lemma_artists_in(front);
        if folders::is_music(tree.last()) {
            let before = front.filter(test).map_values(inner);
            assert(tree.filter(test) == front.filter(test).push(tree.last()));
            assert(tree.filter(test).map_values(inner) =~= before.push(tree.last().children));
            before.lemma_flatten_push(tree.last().children);
        }
    }
}

/// The folders directly in the artists' folders, each with its artist's folder.
pub open spec fn album_folders(artists: Seq<FolderView>) -> Seq<(FolderView, FolderView)> {
    artists.flat_map(|a: FolderView| a.children.map_values(|c: FolderView| (a, c)))
}

/// A track lies directly in a folder.
pub open spec fn holds_track(tracks: Seq<TrackView>, folder_id: u32) -> bool {
    exists|i: int| 0 <= i < tracks.len() && (#[trigger] tracks[i]).parent_id == folder_id
}

/// An album is described as its folder and its artist's folder are.
pub open spec fn describes(
    album: PhysicalView,
    artist: FolderView,
    folder: FolderView,
    tracks: Seq<TrackView>,
) -> bool {
    &&& album.folder_id == folder.id
    &&& album.name == folder.name
    &&& album.artist_id == artist.id
    &&& album.artist_name == artist.name
    &&& album.artist_album_count == artist.children.len()
    &&& lists_tracks_in(album.track_ids, tracks, folder.id)
}

/// Ids are those of the tracks that lie directly in a folder, in the order of the tracks.
pub open spec fn lists_tracks_in(
    ids: Seq<u32>,
    tracks: Seq<TrackView>,
    folder_id: u32,
) -> bool {
    exists|inner: Seq<TrackView>| #[trigger]
        are_tracks_in(inner, tracks, folder_id) && ids.len() == inner.len() && forall|i: int|
            0 <= i < ids.len() ==> #[trigger] ids[i] == inner[i].id
}

/// Tracks are those that lie directly in a folder, in the order of all tracks.
pub open spec fn are_tracks_in(
    inner: Seq<TrackView>,
    tracks: Seq<TrackView>,
    folder_id: u32,
) -> bool {
    seqs::is_selection(tracks, inner, |t: TrackView| t.parent_id == folder_id)
}

/// Folders are those that hold a track, in the order of all folders.
pub open spec fn are_albums_with_tracks(
    kept: Seq<(FolderView, FolderView)>,
    all: Seq<(FolderView, FolderView)>,
    tracks: Seq<TrackView>,
) -> bool {
    seqs::is_selection(all, kept, |p: (FolderView, FolderView)| holds_track(tracks, p.1.id))
}

/// The tracks of a folder are those that lie directly in it, in the order of the device.
pub proof fn lemma_tracks_in(tracks: Seq<TrackView>, folder_id: u32)
    ensures
        lists_tracks_in(track_ids_in(tracks, folder_id), tracks, folder_id),
        are_tracks_in(tracks_in(tracks, folder_id), tracks, folder_id),
        track_ids_in(tracks, folder_id).len() > 0 <==> holds_track(tracks, folder_id),
{
    let test = |t: TrackView| t.parent_id == folder_id;
    let inner = tracks.filter(test);
    seqs::lemma_filter_selects(tracks, test);
    let at = choose|at: Seq<int>| seqs::selects(tracks, inner, test, at);
    assert(are_tracks_in(inner, tracks, folder_id));
    if inner.len() > 0 {
        assert(tracks[at[0]] == inner[0]);
        assert(at.contains(at[0]));
    }
    if holds_track(tracks, folder_id) {
        let i = choose|i: int| 0 <= i < tracks.len() && (#[trigger] tracks[i]).parent_id == folder_id;
        assert(test(tracks[i]));
        assert(at.contains(i));
    }
}

/// The albums of the device are the folders in the artists' folders that hold a track, in the order
/// of the folder tree, each with the tracks that lie in it.
pub proof fn lemma_physical_albums(snapshot: SnapshotView)
    ensures
        exists|kept: Seq<(FolderView, FolderView)>| #[trigger]
            are_albums_with_tracks(
                kept,
                album_folders(artists_in(snapshot.folders)),
                snapshot.tracks,
            ) && physical(snapshot).len() == kept.len() && forall|i: int|
                0 <= i < kept.len() ==> describes(
                    #[trigger] physical(snapshot)[i],
                    kept[i].0,
                    kept[i].1,
                    snapshot.tracks,
                ),
{
    let tracks = snapshot.tracks;
    let artists = artists_in(snapshot.folders);
    let test = |p: (FolderView, FolderView)| holds_track(tracks, p.1.id);
    lemma_albums_are_those_of_artists(snapshot.folders, tracks);
    lemma_albums_by_folder(artists, tracks);
    let kept = album_folders(artists).filter(test);
    seqs::lemma_filter_selects(album_folders(artists), test);
    assert(are_albums_with_tracks(kept, album_folders(artists), tracks));
    assert forall|i: int| 0 <= i < kept.len() implies describes(
        #[trigger] physical(snapshot)[i],
        kept[i].0,
        kept[i].1,
        tracks,
    ) by {
        lemma_tracks_in(tracks, kept[i].1.id);
    }
}

/// What is said of a folder in an artist's folder.
spec fn album_entry(p: (FolderView, FolderView), tracks: Seq<TrackView>) -> PhysicalView {
    PhysicalView {
        folder_id: p.1.id,
        name: p.1.name,
        artist_id: p.0.id,
        artist_name: p.0.name,
        track_ids: track_ids_in(tracks, p.1.id),
        artist_album_count: p.0.children.len(),
    }
}

proof fn lemma_albums_by_folder(artists: Seq<FolderView>, tracks: Seq<TrackView>)
    ensures
        albums_of_artists(artists, tracks) == album_folders(artists).filter(
            |p: (FolderView, FolderView)| holds_track(tracks, p.1.id),
        ).map_values(|p: (FolderView, FolderView)| album_entry(p, tracks)),
    decreases artists.len(),
{
    let test = |p: (FolderView, FolderView)| holds_track(tracks, p.1.id);
    let entry = |p: (FolderView, FolderView)| album_entry(p, tracks);
    let pairs = |a: FolderView| a.children.map_values(|c: FolderView| (a, c));
    reveal(Seq::filter);
    if artists.len() == 0 {
        assert(artists.map_values(pairs) =~= Seq::<Seq<(FolderView, FolderView)>>::empty());
        assert(album_folders(artists) =~= Seq::<(FolderView, FolderView)>::empty());
        assert(album_folders(artists).filter(test).map_values(entry) =~= Seq::<
            PhysicalView,
        >::empty());
    } else {
        let front = artists.drop_last();
        let last = artists.last();
        lemma_albums_by_folder(front, tracks);
        lemma_albums_by_child(last.children, last, tracks);
        let before = front.map_values(pairs);
        let own = last.children.map_values(|c: FolderView| (last, c));
        assert(artists.map_values(pairs) =~= before.push(own));
        before.lemma_flatten_push(own);
        assert(album_folders(artists) == album_folders(front) + own);
        Seq::filter_distributes_over_add(album_folders(front), own, test);
        assert(album_folders(artists).filter(test).map_values(entry) =~= album_folders(
            front,
        ).filter(test).map_values(entry) + own.filter(test).map_values(entry));
    }
}

proof fn lemma_albums_by_child(
    children: Seq<FolderView>,
    artist: FolderView,
    tracks: Seq<TrackView>,
)
    ensures
        albums_of_artist(children, artist, tracks) == children.map_values(
            |c: FolderView| (artist, c),
        ).filter(|p: (FolderView, FolderView)| holds_track(tracks, p.1.id)).map_values(
            |p: (FolderView, FolderView)| album_entry(p, tracks),
        ),
    decreases children.len(),
{
    let test = |p: (FolderView, FolderView)| holds_track(tracks, p.1.id);
    let entry = |p: (FolderView, FolderView)| album_entry(p, tracks);
    let pair = |c: FolderView| (artist, c);
    reveal(Seq::filter);
    let all = children.map_values(pair);
    if children.len() == 0 {
        assert(all.filter(test).map_values(entry) =~= Seq::<PhysicalView>::empty());
    } else {
        let front = children.drop_last();
        let last = children.last();
        lemma_albums_by_child(front, artist, tracks);
        lemma_tracks_in(tracks, last.id);
        assert(all.drop_last() =~= front.map_values(pair));
        assert(all.last() == (artist, last));
        let before = front.map_values(pair).filter(test);
        if test(all.last()) {
            assert(all.filter(test) == before.push(all.last()));
            assert(all.filter(test).map_values(entry) =~= before.map_values(entry).push(
                album_entry(all.last(), tracks),
            ));
        } else {
            assert(all.filter(test) == before);
        }
    }
}

/// An album that is asked for by its folder's id is the first with that id.
pub proof fn lemma_physical_with_id(albums: Seq<PhysicalView>, id: u32)
    ensures
        (match physical_with_id(albums, id) {
            Some(album) => exists|i: int|
                0 <= i < albums.len() && #[trigger] albums[i] == album && albums[i].folder_id == id
                    && forall|j: int| 0 <= j < i ==> (#[trigger] albums[j]).folder_id != id,
            None => forall|j: int|
                0 <= j < albums.len() ==> (#[trigger] albums[j]).folder_id != id,
        }),
{
    let test = |a: PhysicalView| a.folder_id == id;
    seqs::lemma_position(albums, test);
}

} // verus!
