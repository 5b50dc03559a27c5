//! Uploads: where a track goes, what is sent, and the album object that it joins.
use vstd::prelude::*;

use crate::audio;
use crate::audio::{
    filetype_for, local_album_folder_name, FileType, MetadataView, UploadTrackMetadata,
};
use crate::device;
use crate::device::{
    copy_borrowed_string, copy_ids, Device, Folder, FolderView, Playlist, PlaylistView, RawAlbum,
    Track, TrackView, UploadResult,
};
use crate::folders;
use crate::folders::{
    explicit_destination, find_folder_mut, find_folder_ref, has_id, is_music_folder,
    matching_folder_index, name_without_leading_the, ExplicitDestination,
};
use crate::local_path::LocalPath;
use crate::path;
use crate::path::{bytes_to_text, copy_range, last_name};
use crate::text;
use crate::text::{chars_of, copy_text, same_text};

verus! {

// ---------------------------------------------------------------------------
// Texts that the device can take
// ---------------------------------------------------------------------------

/// A text holds a NUL character.
pub open spec fn has_nul(s: Seq<char>) -> bool {
    s.contains('\0')
}

/// A path holds a NUL byte.
pub open spec fn has_zero(bytes: Seq<u8>) -> bool {
    bytes.contains(0u8)
}

/// A text that is handed to the device: one that is empty or holds a NUL character is left out.
pub open spec fn device_field(value: Option<Seq<char>>) -> Option<Seq<char>> {
    match value {
        Some(s) if s.len() > 0 && !has_nul(s) => Some(s),
        _ => None,
    }
}

/// Whether a text holds a NUL character.
pub(crate) fn holds_nul(s: &str) -> (r: bool)
    ensures
        r == has_nul(s@),
{
    let chars = chars_of(s);
    let mut i: usize = 0;
    while i < chars.len()
        invariant
            i <= chars@.len(),
            chars@ == s@,
            forall|j: int| 0 <= j < i ==> #[trigger] chars@[j] != '\0',
        decreases chars@.len() - i,
    {
        if chars[i] == '\0' {
            assert(s@[i as int] == '\0');
            return true;
        }
        i = i + 1;
    }
    false
}

/// Whether a path holds a NUL byte.
pub(crate) fn holds_zero(bytes: &Vec<u8>) -> (r: bool)
    ensures
        r == has_zero(bytes@),
{
    let mut i: usize = 0;
    while i < bytes.len()
        invariant
            i <= bytes@.len(),
            forall|j: int| 0 <= j < i ==> #[trigger] bytes@[j] != 0,
        decreases bytes@.len() - i,
    {
        if bytes[i] == 0 {
            assert(bytes@[i as int] == 0);
            return true;
        }
        i = i + 1;
    }
    false
}

/// A text that is handed to the device.
pub fn strdup_optional(value: &Option<String>) -> (r: Option<String>)
    ensures
        text::text_of(r) == device_field(text::text_of(*value)),
{
    match value {
        Some(s) => {
            if s.as_str().is_empty() || holds_nul(s) {
                None
            } else {
                Some(s.clone())
            }
        },
        None => None,
    }
}

// ---------------------------------------------------------------------------
// The destination
// ---------------------------------------------------------------------------

/// Where an artist's folder stands in the folder tree.
#[derive(Debug, Clone, Copy, PartialEq, Eq, Structural)]
pub enum ArtistSite {
    /// The first folder with this id.
    Folder(u32),
    /// A folder in one of the top folders.
    MusicChild { music: usize, artist: usize },
}

/// What is to be done to place an upload.
#[derive(Debug)]
pub enum Placement {
    /// The track goes into this folder.
    Place { folder_id: u32, storage_id: u32 },
    /// A folder for the artist is to be created first.
    CreateArtist { music: usize, parent_id: u32, storage_id: u32, name: String, album: String },
    /// A folder for the album is to be created first.
    CreateAlbum { site: ArtistSite, parent_id: u32, storage_id: u32, name: String },
    /// The upload cannot be placed.
    Refuse(String),
}

/// A `Placement` as a mathematical value.
pub enum PlacementView {
    Place { folder_id: u32, storage_id: u32 },
    CreateArtist {
        music: usize,
        parent_id: u32,
        storage_id: u32,
        name: Seq<char>,
        album: Seq<char>,
    },
    CreateAlbum { site: ArtistSite, parent_id: u32, storage_id: u32, name: Seq<char> },
    Refuse(Seq<char>),
}

impl View for Placement {
    type V = PlacementView;

    open spec fn view(&self) -> PlacementView {
        match self {
            Placement::Place { folder_id, storage_id } => PlacementView::Place {
                folder_id: *folder_id,
                storage_id: *storage_id,
            },
            Placement::CreateArtist { music, parent_id, storage_id, name, album } => {
                PlacementView::CreateArtist {
                    music: *music,
                    parent_id: *parent_id,
                    storage_id: *storage_id,
                    name: name@,
                    album: album@,
                }
            },
            Placement::CreateAlbum { site, parent_id, storage_id, name } => {
                PlacementView::CreateAlbum {
                    site: *site,
                    parent_id: *parent_id,
                    storage_id: *storage_id,
                    name: name@,
                }
            },
            Placement::Refuse(error) => PlacementView::Refuse(error@),
        }
    }
}

/// The placement of an album among an artist's folders: in the first folder that matches, or in a
/// new one.
pub open spec fn album_placement(
    children: Seq<FolderView>,
    site: ArtistSite,
    parent_id: u32,
    storage_id: u32,
    album: Seq<char>,
) -> PlacementView {
    match folders::matching_index(children, album) {
        Some(i) => PlacementView::Place { folder_id: children[i as int].id, storage_id },
        None => {
            let name = folders::dropped_the(album);
            if has_nul(name) {
                PlacementView::Refuse("folder name contains a null byte"@)
            } else {
                PlacementView::CreateAlbum { site, parent_id, storage_id, name }
            }
        },
    }
}

/// The placement below the first top folder named "Music", by artist and album.
pub open spec fn music_placement(
    tree: Seq<FolderView>,
    artist: Seq<char>,
    album: Seq<char>,
) -> PlacementView {
    let m = folders::music_index(tree) as int;
    if m >= tree.len() {
        PlacementView::Refuse("device has no top-level Music folder"@)
    } else {
        let music = tree[m];
        match folders::matching_index(music.children, artist) {
            Some(i) => album_placement(
                music.children[i as int].children,
                ArtistSite::MusicChild { music: m as usize, artist: i as usize },
                music.children[i as int].id,
                music.storage_id,
                album,
            ),
            None => {
                let name = folders::dropped_the(artist);
                if has_nul(name) {
                    PlacementView::Refuse("folder name contains a null byte"@)
                } else {
                    PlacementView::CreateArtist {
                        music: m as usize,
                        parent_id: music.id,
                        storage_id: music.storage_id,
                        name,
                        album,
                    }
                }
            },
        }
    }
}

/// The placement of an upload. An artist or album folder that was picked counts before the tags;
/// otherwise artist and album decide, or the picked folder where either is missing.
pub open spec fn placement(
    tree: Seq<FolderView>,
    source: Seq<u8>,
    picked_id: u32,
    picked_storage_id: u32,
    artist: Option<Seq<char>>,
    album: Option<Seq<char>>,
) -> PlacementView {
    match folders::destination(tree, picked_id) {
        ExplicitDestination::Album { folder_id, storage_id } => PlacementView::Place {
            folder_id,
            storage_id,
        },
        ExplicitDestination::Artist { artist_folder_id, storage_id } => {
            match folders::found(tree, artist_folder_id) {
                Some(folder) => album_placement(
                    folder.children,
                    ArtistSite::Folder(artist_folder_id),
                    folder.id,
                    storage_id,
                    match album {
                        Some(name) => name,
                        None => audio::local_album_name(source),
                    },
                ),
                None => PlacementView::Refuse("selected artist folder is no longer available"@),
            }
        },
        ExplicitDestination::Unspecified => match (artist, album) {
            (Some(artist_name), Some(album_name)) => music_placement(
                tree,
                artist_name,
                album_name,
            ),
            _ => PlacementView::Place { folder_id: picked_id, storage_id: picked_storage_id },
        },
    }
}

/// The placement of an album among an artist's folders.
pub fn find_or_create_album_under_artist(
    children: &Vec<Folder>,
    site: ArtistSite,
    parent_id: u32,
    storage_id: u32,
    album: &str,
) -> (r: Placement)
    ensures
        r@ == album_placement(
            device::folder_views(children@),
            site,
            parent_id,
            storage_id,
            album@,
        ),
{
    match matching_folder_index(children, album) {
        Some(i) => {
            assert(device::folder_views(children@)[i as int] == device::folder_view(
                children@[i as int],
            ));
            Placement::Place { folder_id: children[i].id, storage_id }
        },
        None => {
            let name = name_without_leading_the(album);
            if holds_nul(&name) {
                Placement::Refuse(copy_text("folder name contains a null byte"))
            } else {
                Placement::CreateAlbum { site, parent_id, storage_id, name }
            }
        },
    }
}

/// The index of the first top folder named "Music"; the number of folders where none is.
fn find_music(tree: &Vec<Folder>) -> (r: usize)
    ensures
        r == folders::music_index(device::folder_views(tree@)),
        r <= tree@.len(),
        r < tree@.len() ==> folders::is_music(device::folder_view(tree@[r as int])),
{
    let ghost all = device::folder_views(tree@);
    let mut i: usize = 0;
    assert(all.skip(0) == all);
    while i < tree.len() && !is_music_folder(&tree[i])
        invariant
            i <= tree@.len(),
            all == device::folder_views(tree@),
            folders::music_index(all) == i + folders::music_index(all.skip(i as int)),
        decreases tree@.len() - i,
    {
        proof {
            assert(all.skip(i as int)[0] == device::folder_view(tree@[i as int]));
            assert(all.skip(i as int).drop_first() == all.skip(i + 1));
        }
        i = i + 1;
    }
    proof {
        if i < tree@.len() {
            assert(all.skip(i as int)[0] == device::folder_view(tree@[i as int]));
        } else {
            assert(all.skip(i as int).len() == 0);
        }
    }
    i
}

/// The placement below the first top folder named "Music".
pub fn resolve_music_destination(tree: &Vec<Folder>, artist: &str, album: &str) -> (r: Placement)
    ensures
        r@ == music_placement(device::folder_views(tree@), artist@, album@),
{
    let m = find_music(tree);
    if m == tree.len() {
        return Placement::Refuse(copy_text("device has no top-level Music folder"));
    }
    let music = &tree[m];
    assert(device::folder_views(tree@)[m as int] == device::folder_view(tree@[m as int]));
    match matching_folder_index(&music.children, artist) {
        Some(i) => {
            let found = &music.children[i];
            assert(device::folder_views(music.children@)[i as int] == device::folder_view(
                music.children@[i as int],
            ));
            find_or_create_album_under_artist(
                &found.children,
                ArtistSite::MusicChild { music: m, artist: i },
                found.id,
                music.storage_id,
                album,
            )
        },
        None => {
            let name = name_without_leading_the(artist);
            if holds_nul(&name) {
                Placement::Refuse(copy_text("folder name contains a null byte"))
            } else {
                Placement::CreateArtist {
                    music: m,
                    parent_id: music.id,
                    storage_id: music.storage_id,
                    name,
                    album: copy_text(album),
                }
            }
        },
    }
}

/// The placement of an upload. An artist or album folder that was picked counts before the tags;
/// otherwise artist and album decide, or the picked folder where either is missing.
pub fn resolve_upload_destination(
    tree: &Vec<Folder>,
    source: &LocalPath,
    picked_id: u32,
    picked_storage_id: u32,
    artist: &Option<String>,
    album: &Option<String>,
) -> (r: Placement)
    ensures
        r@ == placement(
            device::folder_views(tree@),
            source@,
            picked_id,
            picked_storage_id,
            text::text_of(*artist),
            text::text_of(*album),
        ),
{
    match explicit_destination(tree, picked_id) {
        ExplicitDestination::Album { folder_id, storage_id } => Placement::Place {
            folder_id,
            storage_id,
        },
        ExplicitDestination::Artist { artist_folder_id, storage_id } => {
            let name = match album {
                Some(name) => name.clone(),
                None => local_album_folder_name(source),
            };
            match find_folder_ref(tree, artist_folder_id) {
                Some(folder) => find_or_create_album_under_artist(
                    &folder.children,
                    ArtistSite::Folder(artist_folder_id),
                    folder.id,
                    storage_id,
                    &name,
                ),
                None => Placement::Refuse(
                    copy_text("selected artist folder is no longer available"),
                ),
            }
        },
        ExplicitDestination::Unspecified => match (artist, album) {
            (Some(artist_name), Some(album_name)) => resolve_music_destination(
                tree,
                artist_name,
                album_name,
            ),
            _ => Placement::Place { folder_id: picked_id, storage_id: picked_storage_id },
        },
    }
}

/// A new folder.
pub open spec fn new_folder(id: u32, storage_id: u32, name: Seq<char>) -> FolderView {
    FolderView { id, storage_id, name, children: Seq::empty() }
}

/// A folder with one more folder in it.
pub open spec fn with_child(folder: FolderView, child: FolderView) -> FolderView {
    FolderView { children: folder.children.push(child), ..folder }
}

/// The tree with one more folder in the top folder at `music`.
pub open spec fn with_artist(tree: Seq<FolderView>, music: int, child: FolderView) -> Seq<
    FolderView,
> {
    tree.update(music, with_child(tree[music], child))
}

/// There is a folder at a site.
pub open spec fn site_exists(tree: Seq<FolderView>, site: ArtistSite) -> bool {
    match site {
        ArtistSite::Folder(id) => folders::found(tree, id) is Some,
        ArtistSite::MusicChild { music, artist } => music < tree.len() && artist
            < tree[music as int].children.len(),
    }
}

/// The tree with one more folder in the folder at a site.
pub open spec fn with_album(tree: Seq<FolderView>, site: ArtistSite, child: FolderView) -> Seq<
    FolderView,
> {
    match site {
        ArtistSite::Folder(id) => folders::replaced(
            tree,
            id,
            with_child(folders::found(tree, id)->0, child),
        ),
        ArtistSite::MusicChild { music, artist } => {
            let top = tree[music as int];
            tree.update(
                music as int,
                FolderView {
                    children: top.children.update(
                        artist as int,
                        with_child(top.children[artist as int], child),
                    ),
                    ..top
                },
            )
        },
    }
}

/// A new folder.
fn make_folder(id: u32, storage_id: u32, name: &str) -> (r: Folder)
    ensures
        r@ == new_folder(id, storage_id, name@),
{
    let r = Folder { id, storage_id, name: copy_text(name), children: Vec::new() };
    assert(device::folder_views(r.children@) =~= Seq::<FolderView>::empty());
    r
}

/// Enters the folder that was created for an artist, and places the album in it.
pub fn artist_folder_created(
    tree: &mut Vec<Folder>,
    music: usize,
    storage_id: u32,
    name: &str,
    album: &str,
    id: u32,
) -> (r: Placement)
    requires
        music < old(tree)@.len(),
    ensures
        device::folder_views(final(tree)@) == with_artist(
            device::folder_views(old(tree)@),
            music as int,
            new_folder(id, storage_id, name@),
        ),
        r@ == album_placement(
            Seq::empty(),
            ArtistSite::MusicChild {
                music,
                artist: device::folder_views(old(tree)@)[music as int].children.len() as usize,
            },
            id,
            storage_id,
            album@,
        ),
{
    let ghost before = device::folder_views(tree@);
    let ghost top = tree@[music as int];
    let artist: usize = tree[music].children.len();
    let child = make_folder(id, storage_id, name);
    tree[music].children.push(child);
    proof {
        let now = tree@[music as int];
        assert(before[music as int] == device::folder_view(top));
        assert(device::folder_views(now.children@) =~= device::folder_views(
            top.children@,
        ).push(child@));
        assert(device::folder_views(tree@) =~= with_artist(before, music as int, child@));
    }
    let none: Vec<Folder> = Vec::new();
    assert(device::folder_views(none@) =~= Seq::<FolderView>::empty());
    find_or_create_album_under_artist(
        &none,
        ArtistSite::MusicChild { music, artist },
        id,
        storage_id,
        album,
    )
}

/// Enters the folder that was created for an album; the upload goes into it.
pub fn album_folder_created(
    tree: &mut Vec<Folder>,
    site: ArtistSite,
    storage_id: u32,
    name: &str,
    id: u32,
) -> (r: Placement)
    requires
        site_exists(device::folder_views(old(tree)@), site),
    ensures
        device::folder_views(final(tree)@) == with_album(
            device::folder_views(old(tree)@),
            site,
            new_folder(id, storage_id, name@),
        ),
        r@ == (PlacementView::Place { folder_id: id, storage_id }),
{
    let ghost before = device::folder_views(tree@);
    let child = make_folder(id, storage_id, name);
    match site {
        ArtistSite::Folder(artist_id) => {
            if let Some(folder) = find_folder_mut(tree, artist_id) {
                let ghost old_children = device::folder_views(folder.children@);
                folder.children.push(child);
                assert(device::folder_views(folder.children@) =~= old_children.push(child@));
            }
        },
        ArtistSite::MusicChild { music, artist } => {
            let ghost top = tree@[music as int];
            let ghost own = top.children@[artist as int];
            proof {
                assert(before[music as int] == device::folder_view(top));
                assert(before[music as int].children[artist as int] == device::folder_view(own));
            }
            tree[music].children[artist].children.push(child);
            proof {
                let now = tree@[music as int];
                let mine = now.children@[artist as int];
                assert(device::folder_views(mine.children@) =~= device::folder_views(
                    own.children@,
                ).push(child@));
                assert(device::folder_views(now.children@) =~= device::folder_views(
                    top.children@,
                ).update(artist as int, with_child(device::folder_view(own), child@)));
                assert(device::folder_views(tree@) =~= with_album(before, site, child@));
            }
        },
    }
    Placement::Place { folder_id: id, storage_id }
}

/// An album folder that was picked is the destination, whatever the tags say.
pub proof fn lemma_picked_album_counts(
    tree: Seq<FolderView>,
    source: Seq<u8>,
    picked_id: u32,
    picked_storage_id: u32,
    artist: Option<Seq<char>>,
    album: Option<Seq<char>>,
)
    requires
        folders::destination(tree, picked_id) is Album,
    ensures
        placement(tree, source, picked_id, picked_storage_id, artist, album) == (
        PlacementView::Place {
            folder_id: picked_id,
            storage_id: folders::found(tree, picked_id)->0.storage_id,
        }),
{
    folders::lemma_path_ends_at_folder(tree, picked_id);
}

/// An artist folder that was picked is where the album is placed, whatever artist the tags name.
pub proof fn lemma_picked_artist_counts(
    tree: Seq<FolderView>,
    source: Seq<u8>,
    picked_id: u32,
    picked_storage_id: u32,
    artist: Option<Seq<char>>,
    other_artist: Option<Seq<char>>,
    album: Option<Seq<char>>,
)
    requires
        folders::destination(tree, picked_id) is Artist,
    ensures
        placement(tree, source, picked_id, picked_storage_id, artist, album) == placement(
            tree,
            source,
            picked_id,
            picked_storage_id,
            other_artist,
            album,
        ),
        placement(tree, source, picked_id, picked_storage_id, artist, album) matches
            PlacementView::CreateAlbum { parent_id, .. } ==> parent_id == picked_id,
        !(placement(tree, source, picked_id, picked_storage_id, artist, album) is CreateArtist),
{
    folders::lemma_path_ends_at_folder(tree, picked_id);
}

/// The folder that was created for a name is the one that the name is found in next.
proof fn lemma_created_folder_matches(
    children: Seq<FolderView>,
    id: u32,
    storage_id: u32,
    wanted: Seq<char>,
)
    requires
        folders::matching_index(children, wanted) is None,
        folders::is_found_again(wanted),
    ensures
        folders::matching_index(
            children.push(new_folder(id, storage_id, folders::dropped_the(wanted))),
            wanted,
        ) == Some(children.len()),
    decreases children.len(),
{
    let child = new_folder(id, storage_id, folders::dropped_the(wanted));
    let more = children.push(child);
    if children.len() > 0 {
        assert(more[0] == children[0]);
        assert(more.drop_first() =~= children.drop_first().push(child));
        lemma_created_folder_matches(children.drop_first(), id, storage_id, wanted);
    } else {
        assert(more[0] == child);
    }
}

/// The folder that was created for an album is the one that the album is placed in next.
pub proof fn lemma_created_album_is_found(
    children: Seq<FolderView>,
    site: ArtistSite,
    parent_id: u32,
    storage_id: u32,
    album: Seq<char>,
    id: u32,
)
    requires
        folders::is_found_again(album),
    ensures
        album_placement(children, site, parent_id, storage_id, album) matches
            PlacementView::CreateAlbum { name, .. } ==> album_placement(
            children.push(new_folder(id, storage_id, name)),
            site,
            parent_id,
            storage_id,
            album,
        ) == (PlacementView::Place { folder_id: id, storage_id }),
{
    if folders::matching_index(children, album) is None {
        lemma_created_folder_matches(children, id, storage_id, album);
    }
}

/// There are no more top folders, nor folders in one of them, than an index can count.
pub open spec fn is_countable(tree: Seq<FolderView>) -> bool {
    tree.len() <= usize::MAX && forall|i: int|
        0 <= i < tree.len() ==> (#[trigger] tree[i]).children.len() < usize::MAX
}

/// The folders that were created for an artist and an album are the ones that the next upload with
/// these names finds: once the artist's folder is there, only the album's is missing, and once both
/// are there, the upload goes into the album's folder.
pub proof fn lemma_created_folders_are_found(
    tree: Seq<FolderView>,
    artist: Seq<char>,
    album: Seq<char>,
    artist_id: u32,
    album_id: u32,
)
    requires
        folders::is_found_again(artist),
        folders::is_found_again(album),
        is_countable(tree),
    ensures
        (match music_placement(tree, artist, album) {
            PlacementView::CreateArtist { music, storage_id, name, .. } => {
                let now = with_artist(
                    tree,
                    music as int,
                    new_folder(artist_id, storage_id, name),
                );
                let site = ArtistSite::MusicChild {
                    music,
                    artist: tree[music as int].children.len() as usize,
                };
                let next = album_placement(Seq::empty(), site, artist_id, storage_id, album);
                &&& music_placement(now, artist, album) == next
                &&& next matches PlacementView::CreateAlbum { name: album_name, .. }
                    ==> music_placement(
                    with_album(now, site, new_folder(album_id, storage_id, album_name)),
                    artist,
                    album,
                ) == (PlacementView::Place { folder_id: album_id, storage_id })
            },
            PlacementView::CreateAlbum { site, storage_id, name, .. } => music_placement(
                with_album(tree, site, new_folder(album_id, storage_id, name)),
                artist,
                album,
            ) == (PlacementView::Place { folder_id: album_id, storage_id }),
            _ => true,
        }),
{
    folders::lemma_music_index_by_names(tree, tree);
    let m = folders::music_index(tree) as int;
    if m < tree.len() {
        let music = tree[m];
        let storage_id = music.storage_id;
        match folders::matching_index(music.children, artist) {
            Some(i) => {
                lemma_created_below_music(tree, artist, album, album_id);
            },
            None => {
                let name = folders::dropped_the(artist);
                if !has_nul(name) {
                    let child = new_folder(artist_id, storage_id, name);
                    let now = with_artist(tree, m, child);
                    folders::lemma_music_index_by_names(tree, now);
                    lemma_created_folder_matches(music.children, artist_id, storage_id, artist);
                    assert(now[m].children == music.children.push(child));
                    assert(now[m].children[music.children.len() as int] == child);
                    lemma_created_below_music(now, artist, album, album_id);
                }
            },
        }
    }
}

/// The folder that was created for an album in an artist's folder is found below "Music".
proof fn lemma_created_below_music(
    tree: Seq<FolderView>,
    artist: Seq<char>,
    album: Seq<char>,
    id: u32,
)
    requires
        folders::is_found_again(album),
        folders::music_index(tree) < tree.len() <= usize::MAX,
        ({
            let music = tree[folders::music_index(tree) as int];
            music.children.len() <= usize::MAX && folders::matching_index(
                music.children,
                artist,
            ) is Some
        }),
    ensures
        music_placement(tree, artist, album) matches PlacementView::CreateAlbum {
            site,
            storage_id,
            name,
            ..
        } ==> music_placement(
            with_album(tree, site, new_folder(id, storage_id, name)),
            artist,
            album,
        ) == (PlacementView::Place { folder_id: id, storage_id }),
{
    let m = folders::music_index(tree) as int;
    let music = tree[m];
    folders::lemma_matching_index(music.children, artist);
    let i = folders::matching_index(music.children, artist)->0 as int;
    let folder = music.children[i];
    let site = ArtistSite::MusicChild { music: m as usize, artist: i as usize };
    lemma_created_album_is_found(
        folder.children,
        site,
        folder.id,
        music.storage_id,
        album,
        id,
    );
    if let PlacementView::CreateAlbum { name, .. } = music_placement(tree, artist, album) {
        let child = new_folder(id, music.storage_id, name);
        let now = with_album(tree, site, child);
        folders::lemma_music_index_by_names(tree, now);
        folders::lemma_matching_index_by_names(music.children, now[m].children, artist);
        assert(now[m].children[i] == with_child(folder, child));
    }
}

/// The folder that was created for an album in an artist's folder that was picked is the one that
/// the next upload of the album to that artist goes into.
pub proof fn lemma_created_under_picked_artist(
    tree: Seq<FolderView>,
    source: Seq<u8>,
    picked_id: u32,
    picked_storage_id: u32,
    artist: Option<Seq<char>>,
    album: Option<Seq<char>>,
    id: u32,
)
    requires
        folders::destination(tree, picked_id) is Artist,
        folders::is_found_again(
            match album {
                Some(name) => name,
                None => audio::local_album_name(source),
            },
        ),
    ensures
        placement(tree, source, picked_id, picked_storage_id, artist, album) matches
            PlacementView::CreateAlbum { site, storage_id, name, .. } ==> placement(
            with_album(tree, site, new_folder(id, storage_id, name)),
            source,
            picked_id,
            picked_storage_id,
            artist,
            album,
        ) == (PlacementView::Place { folder_id: id, storage_id }),
{
    let wanted = match album {
        Some(name) => name,
        None => audio::local_album_name(source),
    };
    if let PlacementView::CreateAlbum { site, storage_id, name, .. } = placement(
        tree,
        source,
        picked_id,
        picked_storage_id,
        artist,
        album,
    ) {
        folders::lemma_path_ends_at_folder(tree, picked_id);
        let folder = folders::found(tree, picked_id)->0;
        let new = with_child(folder, new_folder(id, storage_id, name));
        let now = with_album(tree, site, new_folder(id, storage_id, name));
        folders::lemma_replaced_is_found(tree, picked_id, new);
        folders::lemma_music_index_by_names(
            folders::path_to(tree, picked_id)->0,
            folders::path_to(now, picked_id)->0,
        );
        assert(folders::destination(now, picked_id) == folders::destination(tree, picked_id));
        lemma_created_album_is_found(
            folder.children,
            site,
            folder.id,
            storage_id,
            wanted,
            id,
        );
    }
}

// ---------------------------------------------------------------------------
// What is sent
// ---------------------------------------------------------------------------

/// The name of a source file, or why it cannot be sent.
pub open spec fn source_name(is_file: bool, source: Seq<u8>) -> Result<Seq<u8>, Seq<char>> {
    if !is_file {
        Err("source is not a regular file"@)
    } else if has_zero(source) {
        Err("path contains a NUL byte"@)
    } else {
        match path::file_name(path::components(source)) {
            Some(name) => Ok(name),
            None => Err("source has no filename"@),
        }
    }
}

/// The name of a source file, or why it cannot be sent.
pub fn check_source(is_file: bool, source: &LocalPath) -> (r: Result<Vec<u8>, String>)
    ensures
        (match r {
            Ok(name) => source_name(is_file, source@) == Ok::<Seq<u8>, Seq<char>>(name@),
            Err(error) => source_name(is_file, source@) == Err::<Seq<u8>, Seq<char>>(error@),
        }),
{
    if !is_file {
        return Err(copy_text("source is not a regular file"));
    }
    if holds_zero(&source.bytes) {
        return Err(copy_text("path contains a NUL byte"));
    }
    match last_name(&source.bytes) {
        Some(name) => Ok(name),
        None => Err(copy_text("source has no filename")),
    }
}

/// A track with this title is already in the folder.
pub open spec fn is_duplicate(tracks: Seq<TrackView>, parent_id: u32, title: Seq<char>) -> bool {
    exists|i: int|
        0 <= i < tracks.len() && (#[trigger] tracks[i]).parent_id == parent_id && tracks[i].name
            == title
}

/// Whether a track with this title is already in the folder.
pub fn duplicate_track_exists(tracks: &Vec<Track>, parent_id: u32, title: &str) -> (r: bool)
    ensures
        r == is_duplicate(device::track_views(tracks@), parent_id, title@),
{
    let ghost all = device::track_views(tracks@);
    let mut i: usize = 0;
    while i < tracks.len()
        invariant
            i <= tracks@.len(),
            all == device::track_views(tracks@),
            forall|j: int|
                0 <= j < i ==> !((#[trigger] all[j]).parent_id == parent_id && all[j].name
                    == title@),
        decreases tracks@.len() - i,
    {
        assert(all[i as int] == tracks@[i as int]@);
        if tracks[i].parent_id == parent_id && same_text(&tracks[i].name, title) {
            assert(all[i as int].parent_id == parent_id);
            return true;
        }
        i = i + 1;
    }
    false
}

/// What the device is sent for a track.
#[derive(Debug)]
pub struct TrackRecord {
    pub filename: Vec<u8>,
    pub title: String,
    pub artist: Option<String>,
    pub album: Option<String>,
    pub genre: Option<String>,
    pub date: Option<String>,
    pub tracknumber: u16,
    pub duration: u32,
    pub samplerate: u32,
    pub nochannels: u16,
    pub wavecodec: u32,
    pub bitrate: u32,
    pub bitratetype: u16,
    pub filesize: u64,
    pub parent_id: u32,
    pub storage_id: u32,
    pub filetype: FileType,
}

/// What the device is sent for a track, as a mathematical value.
#[verifier::ext_equal]
pub struct RecordView {
    pub filename: Seq<u8>,
    pub title: Seq<char>,
    pub artist: Option<Seq<char>>,
    pub album: Option<Seq<char>>,
    pub genre: Option<Seq<char>>,
    pub date: Option<Seq<char>>,
    pub tracknumber: u16,
    pub duration: u32,
    pub samplerate: u32,
    pub nochannels: u16,
    pub wavecodec: u32,
    pub bitrate: u32,
    pub bitratetype: u16,
    pub filesize: u64,
    pub parent_id: u32,
    pub storage_id: u32,
    pub filetype: FileType,
}

impl View for TrackRecord {
    type V = RecordView;

    open spec fn view(&self) -> RecordView {
        RecordView {
            filename: self.filename@,
            title: self.title@,
            artist: text::text_of(self.artist),
            album: text::text_of(self.album),
            genre: text::text_of(self.genre),
            date: text::text_of(self.date),
            tracknumber: self.tracknumber,
            duration: self.duration,
            samplerate: self.samplerate,
            nochannels: self.nochannels,
            wavecodec: self.wavecodec,
            bitrate: self.bitrate,
            bitratetype: self.bitratetype,
            filesize: self.filesize,
            parent_id: self.parent_id,
            storage_id: self.storage_id,
            filetype: self.filetype,
        }
    }
}

/// What is to be done with a track whose destination is known.
#[derive(Debug)]
pub enum UploadPlan {
    /// The destination holds a track with the same title.
    Skip,
    /// The track is to be sent.
    Send(TrackRecord),
    /// The track cannot be sent.
    Refuse(String),
}

/// An `UploadPlan` as a mathematical value.
pub enum PlanView {
    Skip,
    Send(RecordView),
    Refuse(Seq<char>),
}

impl View for UploadPlan {
    type V = PlanView;

    open spec fn view(&self) -> PlanView {
        match self {
            UploadPlan::Skip => PlanView::Skip,
            UploadPlan::Send(record) => PlanView::Send(record@),
            UploadPlan::Refuse(error) => PlanView::Refuse(error@),
        }
    }
}

/// The title of a track; empty where there is none.
pub open spec fn title_of(metadata: MetadataView) -> Seq<char> {
    match metadata.title {
        Some(title) => title,
        None => Seq::empty(),
    }
}

/// What is to be done with a track whose destination is known.
pub open spec fn upload_plan(
    tracks: Seq<TrackView>,
    source: Seq<u8>,
    filename: Seq<u8>,
    filesize: u64,
    metadata: MetadataView,
    parent_id: u32,
    storage_id: u32,
) -> PlanView {
    if is_duplicate(tracks, parent_id, title_of(metadata)) {
        PlanView::Skip
    } else {
        match device_field(metadata.title) {
            None => PlanView::Refuse("could not allocate track strings"@),
            Some(title) => PlanView::Send(
                RecordView {
                    filename,
                    title,
                    artist: device_field(metadata.artist),
                    album: device_field(metadata.album),
                    genre: device_field(metadata.genre),
                    date: device_field(metadata.date),
                    tracknumber: metadata.tracknumber,
                    duration: metadata.duration,
                    samplerate: metadata.samplerate,
                    nochannels: metadata.nochannels,
                    wavecodec: metadata.wavecodec,
                    bitrate: metadata.bitrate,
                    bitratetype: metadata.bitratetype,
                    filesize,
                    parent_id,
                    storage_id,
                    filetype: audio::type_of_extension(audio::lower_extension(source)),
                },
            ),
        }
    }
}

/// The track that an upload adds to the device.
pub open spec fn uploaded_track(
    id: u32,
    filename: Seq<u8>,
    metadata: MetadataView,
    parent_id: u32,
    storage_id: u32,
) -> TrackView {
    TrackView {
        id,
        parent_id,
        storage_id,
        name: title_of(metadata),
        filename: path::lossy_text(filename),
    }
}

impl Device {
    /// What is to be done with a track whose destination is known: a title that the destination
    /// already holds is skipped.
    pub fn upload_track_resolved(
        tracks: &Vec<Track>,
        source: &LocalPath,
        filename: &Vec<u8>,
        filesize: u64,
        metadata: &UploadTrackMetadata,
        parent_id: u32,
        storage_id: u32,
    ) -> (r: UploadPlan)
        ensures
            r@ == upload_plan(
                device::track_views(tracks@),
                source@,
                filename@,
                filesize,
                metadata@,
                parent_id,
                storage_id,
            ),
    {
        let title = match &metadata.title {
            Some(title) => title.clone(),
            None => String::new(),
        };
        if duplicate_track_exists(tracks, parent_id, &title) {
            return UploadPlan::Skip;
        }
        let title = match strdup_optional(&metadata.title) {
            Some(title) => title,
            None => return UploadPlan::Refuse(copy_text("could not allocate track strings")),
        };
        let name = copy_range(filename, 0, filename.len());
        assert(name@ == filename@);
        UploadPlan::Send(
            TrackRecord {
                filename: name,
                title,
                artist: strdup_optional(&metadata.artist),
                album: strdup_optional(&metadata.album),
                genre: strdup_optional(&metadata.genre),
                date: strdup_optional(&metadata.date),
                tracknumber: metadata.tracknumber,
                duration: metadata.duration,
                samplerate: metadata.samplerate,
                nochannels: metadata.nochannels,
                wavecodec: metadata.wavecodec,
                bitrate: metadata.bitrate,
                bitratetype: metadata.bitratetype,
                filesize,
                parent_id,
                storage_id,
                filetype: filetype_for(source),
            },
        )
    }
}

/// What follows once a track was handed to the device.
#[derive(Debug)]
pub enum AfterSending {
    /// The track could not be sent, and the upload has failed.
    Failed(String),
    /// The track is to join the album with this name.
    Associate(String),
    /// The track is to be entered.
    Entered,
}

/// What follows once a track was handed to the device, as a mathematical value.
pub enum AfterSendingView {
    Failed(Seq<char>),
    Associate(Seq<char>),
    Entered,
}

impl View for AfterSending {
    type V = AfterSendingView;

    open spec fn view(&self) -> AfterSendingView {
        match self {
            AfterSending::Failed(error) => AfterSendingView::Failed(error@),
            AfterSending::Associate(album) => AfterSendingView::Associate(album@),
            AfterSending::Entered => AfterSendingView::Entered,
        }
    }
}

/// What follows once a track was handed to the device: an error ends the upload, and a track that
/// was sent joins an album where its metadata name one.
pub open spec fn sending_followed(
    album: Option<Seq<char>>,
    sending: Option<Seq<char>>,
) -> AfterSendingView {
    match (sending, album) {
        (Some(error), _) => AfterSendingView::Failed(error),
        (None, Some(name)) => AfterSendingView::Associate(name),
        (None, None) => AfterSendingView::Entered,
    }
}

/// What follows once a track was handed to the device, given what went wrong, if anything did.
pub fn after_sending(metadata: &UploadTrackMetadata, sending: Option<String>) -> (r: AfterSending)
    ensures
        r@ == sending_followed(metadata@.album, text::text_of(sending)),
{
    match sending {
        Some(error) => AfterSending::Failed(error),
        None => match &metadata.album {
            Some(album) => AfterSending::Associate(album.clone()),
            None => AfterSending::Entered,
        },
    }
}

/// Why an upload has failed, if it has: the track could not be sent, or it could not join its
/// album.
pub open spec fn failure_of(
    step: AfterSendingView,
    association: Option<Seq<char>>,
) -> Option<Seq<char>> {
    match step {
        AfterSendingView::Failed(error) => Some(error),
        AfterSendingView::Associate(_) => association,
        AfterSendingView::Entered => None,
    }
}

/// Why an upload has failed, if it has, given what went wrong while the track was to join its
/// album, if anything did.
pub fn upload_failure(step: AfterSending, association: Option<String>) -> (r: Option<String>)
    ensures
        text::text_of(r) == failure_of(step@, text::text_of(association)),
{
    match step {
        AfterSending::Failed(error) => Some(error),
        AfterSending::Associate(_) => association,
        AfterSending::Entered => None,
    }
}

/// An upload succeeds exactly where the track was sent and, if its metadata name an album, has
/// joined it. An error while the track is sent is what is reported, whatever else would have come.
pub proof fn lemma_upload_succeeds(
    album: Option<Seq<char>>,
    sending: Option<Seq<char>>,
    association: Option<Seq<char>>,
)
    ensures
        failure_of(sending_followed(album, sending), association) is None <==> sending is None && (
        album is None || association is None),
        sending is Some ==> failure_of(sending_followed(album, sending), association) == sending,
        sending is None && album is Some ==> failure_of(
            sending_followed(album, sending),
            association,
        ) == association,
{
}

/// Enters a track that was sent, unless something failed.
pub fn track_sent(
    tracks: &mut Vec<Track>,
    id: u32,
    filename: &Vec<u8>,
    metadata: &UploadTrackMetadata,
    parent_id: u32,
    storage_id: u32,
    failure: Option<String>,
) -> (r: Result<UploadResult, String>)
    ensures
        (match failure {
            None => r == Ok::<UploadResult, String>(UploadResult::Uploaded) && device::track_views(
                final(tracks)@,
            ) == device::track_views(old(tracks)@).push(
                uploaded_track(id, filename@, metadata@, parent_id, storage_id),
            ),
            Some(error) => r == Err::<UploadResult, String>(error) && *final(tracks) == *old(
                tracks,
            ),
        }),
{
    match failure {
        None => {
            let name = match &metadata.title {
                Some(title) => title.clone(),
                None => String::new(),
            };
            let track = Track {
                id,
                parent_id,
                storage_id,
                name,
                filename: bytes_to_text(filename),
            };
            tracks.push(track);
            assert(device::track_views(tracks@) =~= device::track_views(old(tracks)@).push(track@));
            Ok(UploadResult::Uploaded)
        },
        Some(error) => Err(error),
    }
}

/// A track that was uploaded is skipped when a file with the same title is to go into the same
/// folder; in any other folder, and under any other title, it changes nothing.
pub proof fn lemma_uploaded_is_duplicate(
    tracks: Seq<TrackView>,
    id: u32,
    filename: Seq<u8>,
    metadata: MetadataView,
    parent_id: u32,
    storage_id: u32,
    other_parent: u32,
    other_title: Seq<char>,
)
    ensures
        is_duplicate(
            tracks.push(uploaded_track(id, filename, metadata, parent_id, storage_id)),
            other_parent,
            other_title,
        ) == (is_duplicate(tracks, other_parent, other_title) || (other_parent == parent_id
            && other_title == title_of(metadata))),
{
    let more = tracks.push(uploaded_track(id, filename, metadata, parent_id, storage_id));
    if is_duplicate(tracks, other_parent, other_title) {
        let i = choose|i: int|
            0 <= i < tracks.len() && (#[trigger] tracks[i]).parent_id == other_parent
                && tracks[i].name == other_title;
        assert(more[i] == tracks[i]);
    }
    if other_parent == parent_id && other_title == title_of(metadata) {
        assert(more[tracks.len() as int].parent_id == other_parent);
    }
    if is_duplicate(more, other_parent, other_title) {
        let i = choose|i: int|
            0 <= i < more.len() && (#[trigger] more[i]).parent_id == other_parent && more[i].name
                == other_title;
        if i < tracks.len() {
            assert(tracks[i] == more[i]);
        }
    }
}

// ---------------------------------------------------------------------------
// Album objects
// ---------------------------------------------------------------------------

/// An album object is the one that a track joins: it has the album's name, and the artist's where
/// both have one.
pub open spec fn is_album_of(raw: RawAlbum, name: Seq<char>, artist: Option<Seq<char>>) -> bool {
    let listed = device::device_text(device::bytes_of(raw.artist));
    device::device_text(device::bytes_of(raw.name)) == name && (match artist {
        Some(expected) => listed.len() == 0 || listed == expected,
        None => true,
    })
}

/// The index of the first album object that a track joins; the number of objects where it joins
/// none.
pub open spec fn album_index(
    albums: Seq<RawAlbum>,
    name: Seq<char>,
    artist: Option<Seq<char>>,
) -> nat
    decreases albums.len(),
{
    if albums.len() == 0 || is_album_of(albums[0], name, artist) {
        0
    } else {
        1 + album_index(albums.drop_first(), name, artist)
    }
}

/// What is to be done for a track to join its album.
#[derive(Debug)]
pub enum AlbumStep {
    /// The album object already lists the track.
    Keep,
    /// The album object at this index is to list these tracks.
    Update { index: usize, track_ids: Vec<u32> },
    /// A new album object is to be created, which lists the one track.
    Create { name: String, artist: Option<String>, genre: Option<String>, storage_id: u32 },
    /// The track cannot join its album.
    Refuse(String),
}

/// An `AlbumStep` as a mathematical value.
pub enum AlbumStepView {
    Keep,
    Update { index: nat, track_ids: Seq<u32> },
    Create {
        name: Seq<char>,
        artist: Option<Seq<char>>,
        genre: Option<Seq<char>>,
        storage_id: u32,
    },
    Refuse(Seq<char>),
}

impl View for AlbumStep {
    type V = AlbumStepView;

    open spec fn view(&self) -> AlbumStepView {
        match self {
            AlbumStep::Keep => AlbumStepView::Keep,
            AlbumStep::Update { index, track_ids } => AlbumStepView::Update {
                index: *index as nat,
                track_ids: track_ids@,
            },
            AlbumStep::Create { name, artist, genre, storage_id } => AlbumStepView::Create {
                name: name@,
                artist: text::text_of(*artist),
                genre: text::text_of(*genre),
                storage_id: *storage_id,
            },
            AlbumStep::Refuse(error) => AlbumStepView::Refuse(error@),
        }
    }
}

/// What is to be done for an album object at `index` to list a track.
pub open spec fn append_step(index: nat, track_ids: Seq<u32>, track_id: u32) -> AlbumStepView {
    if track_ids.contains(track_id) {
        AlbumStepView::Keep
    } else if track_ids.len() + 1 > u32::MAX {
        AlbumStepView::Refuse("track uploaded, but the album has too many tracks"@)
    } else {
        AlbumStepView::Update { index, track_ids: track_ids.push(track_id) }
    }
}

/// What is to be done for a track to join its album.
pub open spec fn album_step(
    albums: Seq<RawAlbum>,
    name: Seq<char>,
    metadata: MetadataView,
    storage_id: u32,
    track_id: u32,
) -> AlbumStepView {
    let index = album_index(albums, name, metadata.artist);
    if index < albums.len() {
        append_step(index, albums[index as int].track_ids@, track_id)
    } else {
        match device_field(Some(name)) {
            Some(known) => AlbumStepView::Create {
                name: known,
                artist: device_field(metadata.artist),
                genre: device_field(metadata.genre),
                storage_id,
            },
            None => AlbumStepView::Refuse(
                "track uploaded, but album metadata allocation failed"@,
            ),
        }
    }
}

/// What is to be done for an album object to list a track.
pub fn append_track_to_album(index: usize, track_ids: &Vec<u32>, track_id: u32) -> (r: AlbumStep)
    ensures
        r@ == append_step(index as nat, track_ids@, track_id),
{
    if has_id(track_ids, track_id) {
        return AlbumStep::Keep;
    }
    if track_ids.len() >= u32::MAX as usize {
        return AlbumStep::Refuse(copy_text("track uploaded, but the album has too many tracks"));
    }
    let mut more = copy_ids(track_ids);
    more.push(track_id);
    AlbumStep::Update { index, track_ids: more }
}

/// What is to be done for a track to join its album.
pub fn associate_album(
    albums: &Vec<RawAlbum>,
    name: &str,
    metadata: &UploadTrackMetadata,
    storage_id: u32,
    track_id: u32,
) -> (r: AlbumStep)
    ensures
        r@ == album_step(albums@, name@, metadata@, storage_id, track_id),
{
    let mut i: usize = 0;
    assert(albums@.skip(0) == albums@);
    while i < albums.len()
        invariant
            i <= albums@.len(),
            album_index(albums@, name@, metadata@.artist) == i + album_index(
                albums@.skip(i as int),
                name@,
                metadata@.artist,
            ),
        decreases albums@.len() - i,
    {
        proof {
            assert(albums@.skip(i as int)[0] == albums@[i as int]);
            assert(albums@.skip(i as int).drop_first() == albums@.skip(i + 1));
        }
        let listed_name = copy_borrowed_string(&albums[i].name);
        let listed_artist = copy_borrowed_string(&albums[i].artist);
        let artist_fits = match &metadata.artist {
            Some(expected) => listed_artist.as_str().is_empty() || same_text(
                &listed_artist,
                expected,
            ),
            None => true,
        };
        if same_text(&listed_name, name) && artist_fits {
            return append_track_to_album(i, &albums[i].track_ids, track_id);
        }
        i = i + 1;
    }
    assert(albums@.skip(i as int).len() == 0);
    match strdup_optional(&Some(copy_text(name))) {
        Some(known) => AlbumStep::Create {
            name: known,
            artist: strdup_optional(&metadata.artist),
            genre: strdup_optional(&metadata.genre),
            storage_id,
        },
        None => AlbumStep::Refuse(
            copy_text("track uploaded, but album metadata allocation failed"),
        ),
    }
}

/// What is reported when an album object could not be created.
pub fn album_creation_failure(error: &str) -> (r: String)
    ensures
        r@ == "track uploaded, but album creation failed: "@ + error@,
{
    let mut r = copy_text("track uploaded, but album creation failed: ");
    r.append(error);
    r
}

/// What is reported when an album object could not be updated.
pub fn album_update_failure(error: &str) -> (r: String)
    ensures
        r@ == "track uploaded, but album update failed: "@ + error@,
{
    let mut r = copy_text("track uploaded, but album update failed: ");
    r.append(error);
    r
}

// ---------------------------------------------------------------------------
// Playlists and downloads
// ---------------------------------------------------------------------------

/// What the device is sent for a playlist.
#[derive(Debug)]
pub struct PlaylistRecord {
    pub playlist_id: u32,
    pub parent_id: u32,
    pub storage_id: u32,
    pub name: String,
    pub no_tracks: u32,
    pub track_ids: Vec<u32>,
}

/// What the device is sent for a playlist, as a mathematical value.
pub open spec fn record_view(record: PlaylistRecord) -> PlaylistView {
    PlaylistView {
        id: record.playlist_id,
        parent_id: record.parent_id,
        storage_id: record.storage_id,
        name: record.name@,
        track_ids: record.track_ids@,
    }
}

/// What the device is sent for a playlist that is to hold the given tracks, or why it cannot be.
pub open spec fn playlist_request(playlist: PlaylistView, track_ids: Seq<u32>) -> Result<
    PlaylistView,
    Seq<char>,
> {
    if has_nul(playlist.name) {
        Err("playlist name contains a NUL byte"@)
    } else if track_ids.len() > u32::MAX {
        Err("playlist has too many tracks"@)
    } else {
        Ok(PlaylistView { track_ids, ..playlist })
    }
}

impl Device {
    /// What the device is sent to create an empty playlist, or why it cannot be created.
    pub fn create_playlist(name: &str, storage_id: u32) -> (r: Result<PlaylistRecord, String>)
        ensures
            (match r {
                Ok(record) => !has_nul(name@) && record_view(record) == (PlaylistView {
                    id: 0,
                    parent_id: 0,
                    storage_id,
                    name: name@,
                    track_ids: Seq::empty(),
                }) && record.no_tracks == 0,
                Err(error) => has_nul(name@) && error@ == "playlist name contains a NUL byte"@,
            }),
    {
        if holds_nul(name) {
            return Err(copy_text("playlist name contains a NUL byte"));
        }
        let r = PlaylistRecord {
            playlist_id: 0,
            parent_id: 0,
            storage_id,
            name: copy_text(name),
            no_tracks: 0,
            track_ids: Vec::new(),
        };
        assert(r.track_ids@ =~= Seq::<u32>::empty());
        Ok(r)
    }

    /// What the device is sent for a playlist to hold the given tracks, or why it cannot be.
    pub fn update_playlist_tracks(playlist: &Playlist, track_ids: &Vec<u32>) -> (r: Result<
        PlaylistRecord,
        String,
    >)
        ensures
            (match r {
                Ok(record) => playlist_request(playlist@, track_ids@) == Ok::<
                    PlaylistView,
                    Seq<char>,
                >(record_view(record)) && record.no_tracks == track_ids@.len(),
                Err(error) => playlist_request(playlist@, track_ids@) == Err::<
                    PlaylistView,
                    Seq<char>,
                >(error@),
            }),
    {
        if holds_nul(&playlist.name) {
            return Err(copy_text("playlist name contains a NUL byte"));
        }
        let n: usize = track_ids.len();
        if n > u32::MAX as usize {
            return Err(copy_text("playlist has too many tracks"));
        }
        Ok(
            PlaylistRecord {
                playlist_id: playlist.id,
                parent_id: playlist.parent_id,
                storage_id: playlist.storage_id,
                name: playlist.name.clone(),
                no_tracks: n as u32,
                track_ids: copy_ids(track_ids),
            },
        )
    }

    /// The object that is copied to a file, or why it cannot be.
    pub fn download_track(track: &Track, destination: &LocalPath, exists: bool) -> (r: Result<
        u32,
        String,
    >)
        ensures
            (match r {
                Ok(id) => download_request(track@, destination@, exists) == Ok::<u32, Seq<char>>(
                    id,
                ),
                Err(error) => download_request(track@, destination@, exists) == Err::<
                    u32,
                    Seq<char>,
                >(error@),
            }),
    {
        if exists {
            return Err(copy_text("destination file already exists"));
        }
        if holds_zero(&destination.bytes) {
            return Err(copy_text("path contains a NUL byte"));
        }
        Ok(track.id)
    }

    /// What follows once the device has answered a download.
    pub fn track_received(status: i32, error: &str) -> (r: Received)
        ensures
            r@ == reception(status, error@),
    {
        if status == 0 {
            Received { result: Ok(()), remove_file: false }
        } else {
            Received { result: Err(copy_text(error)), remove_file: true }
        }
    }
}

/// The object that is copied to a file, or why it cannot be: a file that is there is not touched.
pub open spec fn download_request(
    track: TrackView,
    destination: Seq<u8>,
    exists: bool,
) -> Result<u32, Seq<char>> {
    if exists {
        Err("destination file already exists"@)
    } else if has_zero(destination) {
        Err("path contains a NUL byte"@)
    } else {
        Ok(track.id)
    }
}

/// What follows once the device has answered a download: how it ended, and whether the file that
/// was begun is to be removed.
#[derive(Debug)]
pub struct Received {
    pub result: Result<(), String>,
    pub remove_file: bool,
}

/// What follows once the device has answered a download, as a mathematical value.
pub struct ReceivedView {
    pub result: Result<(), Seq<char>>,
    pub remove_file: bool,
}

impl View for Received {
    type V = ReceivedView;

    open spec fn view(&self) -> ReceivedView {
        ReceivedView {
            result: match self.result {
                Ok(_) => Ok(()),
                Err(error) => Err(error@),
            },
            remove_file: self.remove_file,
        }
    }
}

/// What follows from the status that the device answers a download with, which is zero where it
/// has succeeded, and from what it reports where it has not.
pub open spec fn reception(status: i32, error: Seq<char>) -> ReceivedView {
    if status == 0 {
        ReceivedView { result: Ok(()), remove_file: false }
    } else {
        ReceivedView { result: Err(error), remove_file: true }
    }
}

/// A whole download: the device is asked only where the request is not refused.
pub open spec fn download_outcome(
    track: TrackView,
    destination: Seq<u8>,
    exists: bool,
    status: i32,
    error: Seq<char>,
) -> ReceivedView {
    match download_request(track, destination, exists) {
        Ok(_) => reception(status, error),
        Err(refusal) => ReceivedView { result: Err(refusal), remove_file: false },
    }
}

/// A download succeeds exactly where no file was there, the path can be handed to the device, and
/// the device reports success. Where a file was there, the device is not asked and the file stays;
/// where the device reports a failure, the file that was begun is removed.
pub proof fn lemma_download(
    track: TrackView,
    destination: Seq<u8>,
    exists: bool,
    status: i32,
    error: Seq<char>,
)
    ensures
        ({
            let r = download_outcome(track, destination, exists, status, error);
            &&& r.result is Ok <==> !exists && !has_zero(destination) && status == 0
            &&& exists ==> download_request(track, destination, exists) is Err && !r.remove_file
                && r.result == Err::<(), Seq<char>>("destination file already exists"@)
            &&& !exists && !has_zero(destination) && status != 0 ==> r.remove_file && r.result
                == Err::<(), Seq<char>>(error)
        }),
{
}

// ---------------------------------------------------------------------------
// What holds of uploads
// ---------------------------------------------------------------------------

/// The folder at index `i` is the first whose name is compared as equal to `wanted`.
pub open spec fn first_match(children: Seq<FolderView>, wanted: Seq<char>, i: int) -> bool {
    &&& 0 <= i < children.len()
    &&& folders::normalized(children[i].name) == folders::normalized(wanted)
    &&& forall|j: int|
        0 <= j < i ==> folders::normalized((#[trigger] children[j]).name) != folders::normalized(
            wanted,
        )
}

/// No folder has a name that is compared as equal to `wanted`.
pub open spec fn no_match(children: Seq<FolderView>, wanted: Seq<char>) -> bool {
    forall|j: int|
        0 <= j < children.len() ==> folders::normalized((#[trigger] children[j]).name)
            != folders::normalized(wanted)
}

/// What is right for an album below an artist's folder: the first folder there that has the
/// album's name; where none has it, a new one in the artist's folder, unless its name cannot be
/// handed to the device.
pub open spec fn is_right_below(
    answer: PlacementView,
    artist: FolderView,
    storage: u32,
    album: Seq<char>,
) -> bool {
    match answer {
        PlacementView::Place { folder_id, storage_id } => storage_id == storage && exists|i: int|
            #[trigger] first_match(artist.children, album, i) && artist.children[i].id
                == folder_id,
        PlacementView::CreateAlbum { parent_id, storage_id, name, .. } => {
            &&& no_match(artist.children, album)
            &&& parent_id == artist.id
            &&& storage_id == storage
            &&& name == folders::dropped_the(album)
            &&& !name.contains('\0')
        },
        PlacementView::Refuse(error) => no_match(artist.children, album) && folders::dropped_the(
            album,
        ).contains('\0') && error == "folder name contains a null byte"@,
        PlacementView::CreateArtist { .. } => false,
    }
}

/// Below an artist's folder an album goes into the first folder that has its name, and a new folder
/// is made exactly where none has it.
pub proof fn lemma_album_goes_to_its_folder(
    artist: FolderView,
    site: ArtistSite,
    storage_id: u32,
    album: Seq<char>,
)
    ensures
        is_right_below(
            album_placement(artist.children, site, artist.id, storage_id, album),
            artist,
            storage_id,
            album,
        ),
        album_placement(artist.children, site, artist.id, storage_id, album) matches
            PlacementView::CreateAlbum { site: at, .. } ==> at == site,
        album_placement(artist.children, site, artist.id, storage_id, album) is Place <==> exists|
            i: int,
        | #[trigger] first_match(artist.children, album, i),
{
    folders::lemma_matching_index(artist.children, album);
    match folders::matching_index(artist.children, album) {
        Some(i) => {
            assert(first_match(artist.children, album, i as int));
        },
        None => {
            assert(no_match(artist.children, album));
            assert forall|i: int| !#[trigger] first_match(artist.children, album, i) by {
                if 0 <= i < artist.children.len() {
                    assert(folders::normalized(artist.children[i].name) != folders::normalized(
                        album,
                    ));
                }
            }
        },
    }
}

/// Where the tags decide, the artist is looked for in the first Music folder at the top, and the
/// album below the first folder there that has the artist's name. Without such a folder the artist
/// gets a new one in that Music folder; without a Music folder the upload is refused.
pub proof fn lemma_tags_decide(tree: Seq<FolderView>, artist: Seq<char>, album: Seq<char>)
    requires
        is_countable(tree),
    ensures
        (forall|m: int| 0 <= m < tree.len() ==> !folders::is_music(#[trigger] tree[m]))
            ==> music_placement(tree, artist, album) == PlacementView::Refuse(
            "device has no top-level Music folder"@,
        ),
        forall|m: int, i: int| #[trigger]
            folders::first_music(tree, m) && #[trigger] first_match(tree[m].children, artist, i)
                ==> is_right_below(
                music_placement(tree, artist, album),
                tree[m].children[i],
                tree[m].storage_id,
                album,
            ) && (music_placement(tree, artist, album) matches PlacementView::CreateAlbum {
                site,
                ..
            } ==> (site matches ArtistSite::MusicChild { music, artist: at } && music == m && at
                == i)),
        forall|m: int| #[trigger]
            folders::first_music(tree, m) && no_match(tree[m].children, artist) ==> (
            match music_placement(tree, artist, album) {
                PlacementView::CreateArtist { music, parent_id, storage_id, name, album: under } => {
                    &&& music == m
                    &&& parent_id == tree[m].id
                    &&& storage_id == tree[m].storage_id
                    &&& name == folders::dropped_the(artist)
                    &&& !name.contains('\0')
                    &&& under == album
                },
                PlacementView::Refuse(error) => folders::dropped_the(artist).contains('\0')
                    && error == "folder name contains a null byte"@,
                _ => false,
            }),
{
    folders::lemma_music_index(tree);
    let first = folders::music_index(tree) as int;
    assert forall|m: int| #[trigger] folders::first_music(tree, m) implies m == first by {
        if m < first {
            assert(!folders::is_music(tree[m]));
        } else if first < m {
            assert(!folders::is_music(tree[first]));
        }
    }
    if first < tree.len() {
        let music = tree[first];
        assert(folders::is_music(tree[first]));
        folders::lemma_matching_index(music.children, artist);
        if let Some(k) = folders::matching_index(music.children, artist) {
            let site = ArtistSite::MusicChild { music: first as usize, artist: k as usize };
            lemma_album_goes_to_its_folder(
                music.children[k as int],
                site,
                music.storage_id,
                album,
            );
            assert forall|i: int| #[trigger] first_match(music.children, artist, i) implies i
                == k by {
                if i < k {
                    assert(folders::normalized(music.children[i].name) != folders::normalized(
                        artist,
                    ));
                } else if k < i {
                    assert(folders::normalized(music.children[k as int].name)
                        != folders::normalized(artist));
                }
            }
            assert(!no_match(music.children, artist));
        } else {
            assert forall|i: int| !#[trigger] first_match(music.children, artist, i) by {
                if 0 <= i < music.children.len() {
                    assert(folders::normalized(music.children[i].name) != folders::normalized(
                        artist,
                    ));
                }
            }
        }
    }
}

/// Where an upload goes is decided by the folder that was picked: below an artist's folder the album
/// is looked for, under the name of the tags or else of the file's own directory. The tags decide
/// only where the picked folder is neither an artist's nor an album's and both tags are there;
/// without them the picked folder is taken as it is.
pub proof fn lemma_picked_folder_decides(
    tree: Seq<FolderView>,
    source: Seq<u8>,
    picked_id: u32,
    picked_storage_id: u32,
    artist: Option<Seq<char>>,
    album: Option<Seq<char>>,
)
    ensures
        ({
            let answer = placement(tree, source, picked_id, picked_storage_id, artist, album);
            match folders::destination(tree, picked_id) {
                ExplicitDestination::Album { .. } => folders::found(tree, picked_id) matches Some(
                    folder,
                ) && answer == (PlacementView::Place {
                    folder_id: picked_id,
                    storage_id: folder.storage_id,
                }),
                ExplicitDestination::Artist { .. } => folders::found(tree, picked_id) matches Some(
                    folder,
                ) && is_right_below(
                    answer,
                    folder,
                    folder.storage_id,
                    match album {
                        Some(name) => name,
                        None => audio::local_album_name(source),
                    },
                ) && (answer matches PlacementView::CreateAlbum { site, .. } ==> site
                    == ArtistSite::Folder(picked_id)),
                ExplicitDestination::Unspecified => if artist is Some && album is Some {
                    answer == music_placement(tree, artist->0, album->0)
                } else {
                    answer == (PlacementView::Place {
                        folder_id: picked_id,
                        storage_id: picked_storage_id,
                    })
                },
            }
        }),
{
    folders::lemma_destination_by_depth(tree, picked_id);
    folders::lemma_path_ends_at_folder(tree, picked_id);
    if folders::destination(tree, picked_id) is Artist {
        let folder = folders::found(tree, picked_id)->0;
        lemma_album_goes_to_its_folder(
            folder,
            ArtistSite::Folder(picked_id),
            folder.storage_id,
            match album {
                Some(name) => name,
                None => audio::local_album_name(source),
            },
        );
    }
}

/// A folder has one folder more than before, behind the others, and is otherwise the same.
pub open spec fn has_gained(now: FolderView, before: FolderView, child: FolderView) -> bool {
    &&& now.id == before.id
    &&& now.storage_id == before.storage_id
    &&& now.name == before.name
    &&& now.children.len() == before.children.len() + 1
    &&& now.children.drop_last() == before.children
    &&& now.children.last() == child
}

/// A new artist's folder is entered in the Music folder it was created in, and nowhere else.
pub proof fn lemma_artist_is_entered(tree: Seq<FolderView>, music: int, child: FolderView)
    requires
        0 <= music < tree.len(),
    ensures
        with_artist(tree, music, child).len() == tree.len(),
        has_gained(with_artist(tree, music, child)[music], tree[music], child),
        forall|i: int|
            0 <= i < tree.len() && i != music ==> #[trigger] with_artist(tree, music, child)[i]
                == tree[i],
{
    assert(with_artist(tree, music, child)[music].children.drop_last() =~= tree[music].children);
}

/// A new album's folder is entered in the artist's folder it was created in, and nowhere else.
pub proof fn lemma_album_is_entered(tree: Seq<FolderView>, site: ArtistSite, child: FolderView)
    requires
        site_exists(tree, site),
    ensures
        with_album(tree, site, child).len() == tree.len(),
        (match site {
            ArtistSite::Folder(id) => {
                let now = with_album(tree, site, child);
                let before = folders::found(tree, id)->0;
                &&& folders::found(tree, id) is Some
                &&& folders::found(now, id) is Some
                &&& has_gained(folders::found(now, id)->0, before, child)
                &&& folders::replaced(now, id, before) == tree
            },
            ArtistSite::MusicChild { music, artist } => {
                let top = tree[music as int];
                let now = with_album(tree, site, child)[music as int];
                &&& music < tree.len() && artist < top.children.len()
                &&& forall|i: int|
                    0 <= i < tree.len() && i != music ==> #[trigger] with_album(tree, site, child)[i]
                        == tree[i]
                &&& now.id == top.id && now.storage_id == top.storage_id && now.name == top.name
                &&& now.children.len() == top.children.len()
                &&& has_gained(now.children[artist as int], top.children[artist as int], child)
                &&& forall|j: int|
                    0 <= j < top.children.len() && j != artist ==> #[trigger] now.children[j]
                        == top.children[j]
            },
        }),
{
    match site {
        ArtistSite::Folder(id) => {
            let before = folders::found(tree, id)->0;
            let folder = with_child(before, child);
            folders::lemma_path_ends_at_folder(tree, id);
            folders::lemma_replaced_twice(tree, id, folder, before);
            folders::lemma_replaced_elsewhere(tree, id, folder);
            assert(folder.children.drop_last() =~= before.children);
        },
        ArtistSite::MusicChild { music, artist } => {
            let below = tree[music as int].children[artist as int];
            assert(with_child(below, child).children.drop_last() =~= below.children);
        },
    }
}

/// A text can be handed to the device: it is not empty and holds no NUL character.
pub open spec fn is_sendable(value: Option<Seq<char>>) -> bool {
    value matches Some(s) && s.len() > 0 && !s.contains('\0')
}

/// What is sent of a text of the tags: the text itself, or nothing where the device cannot take it.
pub open spec fn is_sent_of(sent: Option<Seq<char>>, tag: Option<Seq<char>>) -> bool {
    (sent is Some <==> is_sendable(tag)) && (sent is Some ==> sent == tag)
}

/// An upload is skipped exactly where a track with its title stands in the destination, refused
/// exactly where its title cannot be sent, and otherwise sent with the tags of the file, its own
/// name and size, to the folder and storage it is placed in.
pub proof fn lemma_sent_record(
    tracks: Seq<TrackView>,
    source: Seq<u8>,
    filename: Seq<u8>,
    filesize: u64,
    metadata: MetadataView,
    parent_id: u32,
    storage_id: u32,
)
    ensures
        ({
            let plan = upload_plan(
                tracks,
                source,
                filename,
                filesize,
                metadata,
                parent_id,
                storage_id,
            );
            let title = match metadata.title {
                Some(title) => title,
                None => Seq::empty(),
            };
            &&& plan is Skip <==> exists|i: int|
                0 <= i < tracks.len() && (#[trigger] tracks[i]).parent_id == parent_id
                    && tracks[i].name == title
            &&& !(plan is Skip) ==> (plan is Send <==> is_sendable(metadata.title))
            &&& plan matches PlanView::Refuse(error) ==> error
                == "could not allocate track strings"@
            &&& plan matches PlanView::Send(record) ==> {
                &&& Some(record.title) == metadata.title
                &&& is_sent_of(record.artist, metadata.artist)
                &&& is_sent_of(record.album, metadata.album)
                &&& is_sent_of(record.genre, metadata.genre)
                &&& is_sent_of(record.date, metadata.date)
                &&& record.filename == filename
                &&& record.filesize == filesize
                &&& record.parent_id == parent_id
                &&& record.storage_id == storage_id
                &&& record.tracknumber == metadata.tracknumber
                &&& record.duration == metadata.duration
                &&& record.samplerate == metadata.samplerate
                &&& record.nochannels == metadata.nochannels
                &&& record.wavecodec == metadata.wavecodec
                &&& record.bitrate == metadata.bitrate
                &&& record.bitratetype == metadata.bitratetype
                &&& record.filetype == audio::type_of_extension(audio::lower_extension(source))
            }
        }),
{
}

/// A track is entered as it was sent: under the id that the device gave it, its title and its file
/// name, in the folder and storage it was placed in.
pub proof fn lemma_entered_track(
    id: u32,
    filename: Seq<u8>,
    metadata: MetadataView,
    parent_id: u32,
    storage_id: u32,
)
    ensures
        ({
            let track = uploaded_track(id, filename, metadata, parent_id, storage_id);
            &&& track.id == id
            &&& track.parent_id == parent_id
            &&& track.storage_id == storage_id
            &&& metadata.title matches Some(title) ==> track.name == title
            &&& vstd::utf8::valid_utf8(filename) ==> vstd::utf8::encode_utf8(track.filename)
                == filename
        }),
{
    if vstd::utf8::valid_utf8(filename) {
        vstd::utf8::decode_utf8_encode_utf8(filename);
    }
}

/// What is sent is the regular file at the path that was given, under the last name of that path.
pub proof fn lemma_source_name(is_file: bool, source: Seq<u8>)
    ensures
        ({
            let own = path::components(source);
            match source_name(is_file, source) {
                Ok(name) => is_file && !source.contains(0u8) && own.len() > 0 && own.last()
                    == path::Component::Normal(name),
                Err(error) => {
                    ||| !is_file && error == "source is not a regular file"@
                    ||| is_file && source.contains(0u8) && error == "path contains a NUL byte"@
                    ||| is_file && !source.contains(0u8) && !(own.len() > 0 && own.last() is Normal)
                        && error == "source has no filename"@
                },
            }
        }),
{
}

/// The album object at index `i` is the first that a track belongs to.
pub open spec fn first_album(
    albums: Seq<RawAlbum>,
    name: Seq<char>,
    artist: Option<Seq<char>>,
    i: int,
) -> bool {
    &&& 0 <= i < albums.len()
    &&& is_album_of(albums[i], name, artist)
    &&& forall|j: int| 0 <= j < i ==> !is_album_of(#[trigger] albums[j], name, artist)
}

/// A track joins the first album object with its album's name whose artist is its own or not given.
/// The tracks that the object lists stay, in their order, and the new one stands behind them; an
/// object that lists it already is kept. A new object is made exactly where there is none.
pub proof fn lemma_track_joins_album(
    albums: Seq<RawAlbum>,
    name: Seq<char>,
    metadata: MetadataView,
    storage_id: u32,
    track_id: u32,
)
    ensures
        ({
            let step = album_step(albums, name, metadata, storage_id, track_id);
            &&& forall|i: int| #[trigger]
                first_album(albums, name, metadata.artist, i) ==> {
                    let listed = albums[i].track_ids@;
                    &&& listed.contains(track_id) ==> step is Keep
                    &&& !listed.contains(track_id) && listed.len() < u32::MAX ==> (
                    step matches AlbumStepView::Update { index, track_ids } && index == i
                        && track_ids.len() == listed.len() + 1 && track_ids.drop_last() == listed
                        && track_ids.last() == track_id)
                    &&& !listed.contains(track_id) && listed.len() >= u32::MAX ==> step
                        == AlbumStepView::Refuse(
                        "track uploaded, but the album has too many tracks"@,
                    )
                }
            &&& (forall|i: int|
                0 <= i < albums.len() ==> !is_album_of(
                    #[trigger] albums[i],
                    name,
                    metadata.artist,
                )) ==> (match step {
                AlbumStepView::Create { name: called, artist, genre, storage_id: on } => {
                    &&& is_sendable(Some(name))
                    &&& called == name
                    &&& is_sent_of(artist, metadata.artist)
                    &&& is_sent_of(genre, metadata.genre)
                    &&& on == storage_id
                },
                AlbumStepView::Refuse(error) => !is_sendable(Some(name)) && error
                    == "track uploaded, but album metadata allocation failed"@,
                _ => false,
            })
        }),
{
    lemma_album_index(albums, name, metadata.artist);
    let k = album_index(albums, name, metadata.artist) as int;
    assert forall|i: int| #[trigger] first_album(albums, name, metadata.artist, i) implies i
        == k by {
        if i < k {
            assert(!is_album_of(albums[i], name, metadata.artist));
        } else if k < i {
            assert(!is_album_of(albums[k], name, metadata.artist));
        }
    }
    if k < albums.len() {
        let listed = albums[k].track_ids@;
        assert(listed.push(track_id).drop_last() =~= listed);
        assert(is_album_of(albums[k], name, metadata.artist));
    }
}

/// The index that is given of an album object is that of the first one a track belongs to; where
/// there is none, it is the number of objects.
proof fn lemma_album_index(albums: Seq<RawAlbum>, name: Seq<char>, artist: Option<Seq<char>>)
    ensures
        album_index(albums, name, artist) <= albums.len(),
        album_index(albums, name, artist) < albums.len() ==> first_album(
            albums,
            name,
            artist,
            album_index(albums, name, artist) as int,
        ),
        forall|j: int|
            0 <= j < album_index(albums, name, artist) ==> !is_album_of(
                #[trigger] albums[j],
                name,
                artist,
            ),
    decreases albums.len(),
{
    if albums.len() > 0 && !is_album_of(albums[0], name, artist) {
        let rest = albums.drop_first();
        lemma_album_index(rest, name, artist);
        let k = album_index(rest, name, artist) as int;
        assert forall|j: int| 0 <= j < k + 1 implies !is_album_of(
            #[trigger] albums[j],
            name,
            artist,
        ) by {
            if j > 0 {
                assert(albums[j] == rest[j - 1]);
            }
        }
        if k < rest.len() {
            assert(albums[k + 1] == rest[k]);
        }
    }
}

/// A track without a tag for its artist joins any album object of its album's name; one with such a
/// tag joins no object of another artist.
pub proof fn lemma_album_of_artist(raw: RawAlbum, name: Seq<char>, artist: Option<Seq<char>>)
    ensures
        ({
            let called = device::device_text(device::bytes_of(raw.name));
            let listed = device::device_text(device::bytes_of(raw.artist));
            &&& is_album_of(raw, name, artist) ==> called == name
            &&& called == name && artist is None ==> is_album_of(raw, name, artist)
            &&& called == name && listed.len() == 0 ==> is_album_of(raw, name, artist)
            &&& called == name && listed.len() > 0 && artist is Some ==> (is_album_of(
                raw,
                name,
                artist,
            ) <==> artist == Some(listed))
        }),
{
}

/// What the device is asked to store of a playlist is the playlist itself with the tracks that were
/// given, in their order.
pub proof fn lemma_playlist_request(playlist: PlaylistView, track_ids: Seq<u32>)
    ensures
        (match playlist_request(playlist, track_ids) {
            Ok(asked) => {
                &&& asked.id == playlist.id
                &&& asked.parent_id == playlist.parent_id
                &&& asked.storage_id == playlist.storage_id
                &&& asked.name == playlist.name
                &&& asked.track_ids == track_ids
                &&& !playlist.name.contains('\0')
                &&& track_ids.len() <= u32::MAX
            },
            Err(error) => {
                ||| playlist.name.contains('\0') && error == "playlist name contains a NUL byte"@
                ||| !playlist.name.contains('\0') && track_ids.len() > u32::MAX && error
                    == "playlist has too many tracks"@
            },
        }),
{
}

/// A download asks for the track itself, and only where its destination is free and can be named;
/// a file that was only partly received is removed, and no other.
pub proof fn lemma_download_answers(
    track: TrackView,
    destination: Seq<u8>,
    exists: bool,
    status: i32,
    error: Seq<char>,
)
    ensures
        ({
            let free = !exists && !destination.contains(0u8);
            let outcome = download_outcome(track, destination, exists, status, error);
            &&& download_request(track, destination, exists) is Ok <==> free
            &&& free ==> download_request(track, destination, exists) == Ok::<u32, Seq<char>>(
                track.id,
            )
            &&& exists ==> outcome.result == Err::<(), Seq<char>>(
                "destination file already exists"@,
            )
            &&& !exists && !free ==> outcome.result == Err::<(), Seq<char>>(
                "path contains a NUL byte"@,
            )
            &&& outcome.result is Ok <==> free && status == 0
            &&& free && status != 0 ==> outcome.result == Err::<(), Seq<char>>(error)
            &&& outcome.remove_file <==> free && status != 0
        }),
{
}

/// A new folder has the id that the device gave it, the storage and the name it was created with, and
/// nothing in it.
pub proof fn lemma_new_folder(id: u32, storage_id: u32, name: Seq<char>)
    ensures
        new_folder(id, storage_id, name).id == id,
        new_folder(id, storage_id, name).storage_id == storage_id,
        new_folder(id, storage_id, name).name == name,
        new_folder(id, storage_id, name).children.len() == 0,
{
}

} // verus!
