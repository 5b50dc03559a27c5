//! The device's library: what is read from a connected device, and the records made of it.
use vstd::prelude::*;

use crate::path;
use crate::path::bytes_to_text;
use crate::seqs;
use crate::text;
use crate::text::{copy_text, join_strings};

verus! {

/// No MTP device answered.
#[derive(Debug, Clone, Copy)]
pub struct ZuneNotFound;

impl ZuneNotFound {
    /// What the user can check.
    pub open spec fn message_text() -> Seq<char> {
        "No MTP device found. Checklist:\n - Zune plugged in and its screen awake\n - `mtp-detect` (from mtp-tools) sees it\n - you have permission to open the USB device (try sudo once to confirm, then fix with a udev rule)"@
    }

    /// What the user can check.
    pub fn message(&self) -> (r: String)
        ensures
            r@ == Self::message_text(),
    {
        copy_text(
            "No MTP device found. Checklist:\n - Zune plugged in and its screen awake\n - `mtp-detect` (from mtp-tools) sees it\n - you have permission to open the USB device (try sudo once to confirm, then fix with a udev rule)",
        )
    }
}

/// The device that was found, if one was.
pub fn open_device(first: Option<Device>) -> (r: Result<Device, ZuneNotFound>)
    ensures
        (match first {
            Some(device) => r == Ok::<Device, ZuneNotFound>(device),
            None => r is Err,
        }),
{
    match first {
        Some(device) => Ok(device),
        None => Err(ZuneNotFound),
    }
}

/// What the device says of itself.
#[derive(Debug)]
pub struct DeviceInfo {
    pub friendly_name: String,
    pub model: String,
    pub serial: String,
    pub version: String,
    pub capacity_bytes: u64,
    pub free_bytes: u64,
}

/// A folder of the device, with the folders in it.
#[derive(Debug)]
pub struct Folder {
    pub id: u32,
    pub storage_id: u32,
    pub name: String,
    pub children: Vec<Folder>,
}

/// A track of the device.
#[derive(Debug)]
pub struct Track {
    pub id: u32,
    pub parent_id: u32,
    pub storage_id: u32,
    pub name: String,
    pub filename: String,
}

/// An album object of the device.
#[derive(Debug)]
pub struct Album {
    pub id: u32,
    pub name: String,
    pub track_ids: Vec<u32>,
}

/// A playlist of the device.
#[derive(Debug)]
pub struct Playlist {
    pub id: u32,
    pub parent_id: u32,
    pub storage_id: u32,
    pub name: String,
    pub track_ids: Vec<u32>,
}

/// Everything that is known of a connected device.
#[derive(Debug)]
pub struct DeviceSnapshot {
    pub info: DeviceInfo,
    pub folders: Vec<Folder>,
    pub tracks: Vec<Track>,
    pub albums: Vec<Album>,
    pub playlists: Vec<Playlist>,
}

/// What became of an upload.
#[derive(Debug, Clone, Copy, PartialEq, Eq, Structural)]
pub enum UploadResult {
    Uploaded,
    SkippedDuplicate,
}

// ---------------------------------------------------------------------------
// The records as mathematical values
// ---------------------------------------------------------------------------

#[verifier::ext_equal]
pub struct InfoView {
    pub friendly_name: Seq<char>,
    pub model: Seq<char>,
    pub serial: Seq<char>,
    pub version: Seq<char>,
    pub capacity_bytes: u64,
    pub free_bytes: u64,
}

#[verifier::ext_equal]
pub struct FolderView {
    pub id: u32,
    pub storage_id: u32,
    pub name: Seq<char>,
    pub children: Seq<FolderView>,
}

#[verifier::ext_equal]
pub struct TrackView {
    pub id: u32,
    pub parent_id: u32,
    pub storage_id: u32,
    pub name: Seq<char>,
    pub filename: Seq<char>,
}

#[verifier::ext_equal]
pub struct AlbumView {
    pub id: u32,
    pub name: Seq<char>,
    pub track_ids: Seq<u32>,
}

#[verifier::ext_equal]
pub struct PlaylistView {
    pub id: u32,
    pub parent_id: u32,
    pub storage_id: u32,
    pub name: Seq<char>,
    pub track_ids: Seq<u32>,
}

#[verifier::ext_equal]
pub struct SnapshotView {
    pub info: InfoView,
    pub folders: Seq<FolderView>,
    pub tracks: Seq<TrackView>,
    pub albums: Seq<AlbumView>,
    pub playlists: Seq<PlaylistView>,
}

impl View for DeviceInfo {
    type V = InfoView;

    open spec fn view(&self) -> InfoView {
        InfoView {
            friendly_name: self.friendly_name@,
            model: self.model@,
            serial: self.serial@,
            version: self.version@,
            capacity_bytes: self.capacity_bytes,
            free_bytes: self.free_bytes,
        }
    }
}

/// A folder as a mathematical value.
pub open spec fn folder_view(folder: Folder) -> FolderView
    decreases folder,
{
    FolderView {
        id: folder.id,
        storage_id: folder.storage_id,
        name: folder.name@,
        children: folder_views(folder.children@),
    }
}

/// Folders as mathematical values.
pub open spec fn folder_views(folders: Seq<Folder>) -> Seq<FolderView>
    decreases folders,
{
    Seq::new(
        folders.len(),
        |i: int|
            if 0 <= i < folders.len() {
                folder_view(folders[i])
            } else {
                arbitrary()
            },
    )
}

impl View for Folder {
    type V = FolderView;

    open spec fn view(&self) -> FolderView {
        folder_view(*self)
    }
}

impl View for Track {
    type V = TrackView;

    open spec fn view(&self) -> TrackView {
        TrackView {
            id: self.id,
            parent_id: self.parent_id,
            storage_id: self.storage_id,
            name: self.name@,
            filename: self.filename@,
        }
    }
}

impl View for Album {
    type V = AlbumView;

    open spec fn view(&self) -> AlbumView {
        AlbumView { id: self.id, name: self.name@, track_ids: self.track_ids@ }
    }
}

impl View for Playlist {
    type V = PlaylistView;

    open spec fn view(&self) -> PlaylistView {
        PlaylistView {
            id: self.id,
            parent_id: self.parent_id,
            storage_id: self.storage_id,
            name: self.name@,
            track_ids: self.track_ids@,
        }
    }
}

pub open spec fn track_views(tracks: Seq<Track>) -> Seq<TrackView> {
    tracks.map_values(|t: Track| t@)
}

pub open spec fn album_views(albums: Seq<Album>) -> Seq<AlbumView> {
    albums.map_values(|a: Album| a@)
}

pub open spec fn playlist_views(playlists: Seq<Playlist>) -> Seq<PlaylistView> {
    playlists.map_values(|p: Playlist| p@)
}

impl View for DeviceSnapshot {
    type V = SnapshotView;

    open spec fn view(&self) -> SnapshotView {
        SnapshotView {
            info: self.info@,
            folders: folder_views(self.folders@),
            tracks: track_views(self.tracks@),
            albums: album_views(self.albums@),
            playlists: playlist_views(self.playlists@),
        }
    }
}

/// A copy of a list of ids.
pub(crate) fn copy_ids(ids: &[u32]) -> (r: Vec<u32>)
    ensures
        r@ == ids@,
{
    let mut r: Vec<u32> = Vec::new();
    let mut i: usize = 0;
    while i < ids.len()
        invariant
            i <= ids@.len(),
            r@ == ids@.take(i as int),
        decreases ids@.len() - i,
    {
        r.push(ids[i]);
        i = i + 1;
        assert(ids@.take(i as int) == ids@.take(i - 1).push(ids@[i - 1]));
    }
    assert(ids@.take(i as int) == ids@);
    r
}

impl Clone for Track {
    fn clone(&self) -> (r: Self)
        ensures
            r@ == self@,
    {
        Track {
            id: self.id,
            parent_id: self.parent_id,
            storage_id: self.storage_id,
            name: self.name.clone(),
            filename: self.filename.clone(),
        }
    }
}

impl Clone for Playlist {
    fn clone(&self) -> (r: Self)
        ensures
            r@ == self@,
    {
        Playlist {
            id: self.id,
            parent_id: self.parent_id,
            storage_id: self.storage_id,
            name: self.name.clone(),
            track_ids: copy_ids(&self.track_ids),
        }
    }
}

// ---------------------------------------------------------------------------
// What a device hands over
// ---------------------------------------------------------------------------

/// The text of a C string that the device lends: empty where there is none.
pub open spec fn device_text(value: Option<Seq<u8>>) -> Seq<char> {
    match value {
        Some(bytes) => path::lossy_text(bytes),
        None => Seq::empty(),
    }
}

/// The bytes of an optional byte string.
pub open spec fn bytes_of(value: Option<Vec<u8>>) -> Option<Seq<u8>> {
    match value {
        Some(bytes) => Some(bytes@),
        None => None,
    }
}

/// The text of a string that the device lends.
pub fn copy_borrowed_string(value: &Option<Vec<u8>>) -> (r: String)
    ensures
        r@ == device_text(bytes_of(*value)),
{
    match value {
        Some(bytes) => bytes_to_text(bytes),
        None => String::new(),
    }
}

/// The text of a string that the device gives away.
pub fn take_string(value: Option<Vec<u8>>) -> (r: String)
    ensures
        r@ == device_text(bytes_of(value)),
{
    match value {
        Some(bytes) => bytes_to_text(&bytes),
        None => String::new(),
    }
}

/// One storage of the device.
#[derive(Debug, Clone, Copy)]
pub struct RawStorage {
    pub capacity_bytes: u64,
    pub free_bytes: u64,
}

/// A folder as the device lists it.
#[derive(Debug)]
pub struct RawFolder {
    pub id: u32,
    pub storage_id: u32,
    pub name: Option<Vec<u8>>,
    pub children: Vec<RawFolder>,
}

/// A track as the device lists it.
#[derive(Debug)]
pub struct RawTrack {
    pub id: u32,
    pub parent_id: u32,
    pub storage_id: u32,
    pub title: Option<Vec<u8>>,
    pub filename: Option<Vec<u8>>,
}

/// An album object as the device lists it.
#[derive(Debug)]
pub struct RawAlbum {
    pub id: u32,
    pub name: Option<Vec<u8>>,
    pub artist: Option<Vec<u8>>,
    pub track_ids: Vec<u32>,
}

/// A playlist as the device lists it.
#[derive(Debug)]
pub struct RawPlaylist {
    pub id: u32,
    pub parent_id: u32,
    pub storage_id: u32,
    pub name: Option<Vec<u8>>,
    pub track_ids: Vec<u32>,
}

/// What was read from a connected device. A listing that the device refused is empty.
#[derive(Debug)]
pub struct Device {
    pub friendly_name: Option<Vec<u8>>,
    pub model: Option<Vec<u8>>,
    pub serial: Option<Vec<u8>>,
    pub version: Option<Vec<u8>>,
    pub storages: Vec<RawStorage>,
    pub folders: Vec<RawFolder>,
    pub tracks: Vec<RawTrack>,
    pub albums: Vec<RawAlbum>,
    pub playlists: Vec<RawPlaylist>,
}

/// The sum of the capacities.
pub open spec fn total_capacity(storages: Seq<RawStorage>) -> nat
    decreases storages.len(),
{
    if storages.len() == 0 {
        0
    } else {
        total_capacity(storages.drop_last()) + storages.last().capacity_bytes as nat
    }
}

/// The sum of the free space.
pub open spec fn total_free(storages: Seq<RawStorage>) -> nat
    decreases storages.len(),
{
    if storages.len() == 0 {
        0
    } else {
        total_free(storages.drop_last()) + storages.last().free_bytes as nat
    }
}

/// A number of bytes, or the largest one that can be held.
pub open spec fn capped(bytes: nat) -> u64 {
    if bytes <= u64::MAX {
        bytes as u64
    } else {
        u64::MAX
    }
}

/// The folder that a listed folder stands for.
pub open spec fn folder_of(raw: RawFolder) -> FolderView
    decreases raw,
{
    FolderView {
        id: raw.id,
        storage_id: raw.storage_id,
        name: device_text(bytes_of(raw.name)),
        children: folders_of(raw.children@),
    }
}

/// The folders that listed folders stand for.
pub open spec fn folders_of(raw: Seq<RawFolder>) -> Seq<FolderView>
    decreases raw,
{
    Seq::new(
        raw.len(),
        |i: int|
            if 0 <= i < raw.len() {
                folder_of(raw[i])
            } else {
                arbitrary()
            },
    )
}

/// The track that a listed track stands for: it is named by its title, or by its file name where
/// the title is empty.
pub open spec fn track_of(raw: RawTrack) -> TrackView {
    let title = device_text(bytes_of(raw.title));
    let filename = device_text(bytes_of(raw.filename));
    TrackView {
        id: raw.id,
        parent_id: raw.parent_id,
        storage_id: raw.storage_id,
        name: if title.len() == 0 {
            filename
        } else {
            title
        },
        filename,
    }
}

/// The album that a listed album stands for.
pub open spec fn album_of(raw: RawAlbum) -> AlbumView {
    AlbumView { id: raw.id, name: device_text(bytes_of(raw.name)), track_ids: raw.track_ids@ }
}

/// The playlist that a listed playlist stands for.
pub open spec fn playlist_of(raw: RawPlaylist) -> PlaylistView {
    PlaylistView {
        id: raw.id,
        parent_id: raw.parent_id,
        storage_id: raw.storage_id,
        name: device_text(bytes_of(raw.name)),
        track_ids: raw.track_ids@,
    }
}

impl Device {
    /// What the device says of itself.
    pub open spec fn info_view(&self) -> InfoView {
        InfoView {
            friendly_name: device_text(bytes_of(self.friendly_name)),
            model: device_text(bytes_of(self.model)),
            serial: device_text(bytes_of(self.serial)),
            version: device_text(bytes_of(self.version)),
            capacity_bytes: capped(total_capacity(self.storages@)),
            free_bytes: capped(total_free(self.storages@)),
        }
    }

    /// Everything that is known of the device.
    pub open spec fn snapshot_view(&self) -> SnapshotView {
        SnapshotView {
            info: self.info_view(),
            folders: folders_of(self.folders@),
            tracks: self.tracks@.map_values(|t: RawTrack| track_of(t)),
            albums: self.albums@.map_values(|a: RawAlbum| album_of(a)),
            playlists: self.playlists@.map_values(|p: RawPlaylist| playlist_of(p)),
        }
    }

    /// Everything that is known of the device.
    pub fn snapshot(&self) -> (r: DeviceSnapshot)
        ensures
            r@ == self.snapshot_view(),
    {
        DeviceSnapshot {
            info: self.info(),
            folders: self.folders(),
            tracks: self.tracks(),
            albums: self.albums(),
            playlists: self.playlists(),
        }
    }

    /// What the device says of itself; capacities that exceed the largest number are capped.
    pub fn info(&self) -> (r: DeviceInfo)
        ensures
            r@ == self.info_view(),
    {
        let mut capacity_bytes: u64 = 0;
        let mut free_bytes: u64 = 0;
        let mut i: usize = 0;
        assert(self.storages@.take(0).len() == 0);
        while i < self.storages.len()
            invariant
                i <= self.storages@.len(),
                capacity_bytes == capped(total_capacity(self.storages@.take(i as int))),
                free_bytes == capped(total_free(self.storages@.take(i as int))),
            decreases self.storages@.len() - i,
        {
            let storage = self.storages[i];
            proof {
                let next = self.storages@.take(i + 1);
                assert(next.drop_last() == self.storages@.take(i as int));
                assert(next.last() == storage);
            }
            capacity_bytes = capacity_bytes.saturating_add(storage.capacity_bytes);
            free_bytes = free_bytes.saturating_add(storage.free_bytes);
            i = i + 1;
        }
        assert(self.storages@.take(i as int) == self.storages@);
        DeviceInfo {
            friendly_name: copy_borrowed_string(&self.friendly_name),
            model: copy_borrowed_string(&self.model),
            serial: copy_borrowed_string(&self.serial),
            version: copy_borrowed_string(&self.version),
            capacity_bytes,
            free_bytes,
        }
    }

    /// The device's folder tree.
    pub fn folders(&self) -> (r: Vec<Folder>)
        ensures
            folder_views(r@) == folders_of(self.folders@),
    {
        copy_folder_list(&self.folders)
    }

    /// The device's tracks.
    pub fn tracks(&self) -> (r: Vec<Track>)
        ensures
            track_views(r@) == self.tracks@.map_values(|t: RawTrack| track_of(t)),
    {
        let ghost wanted = self.tracks@.map_values(|t: RawTrack| track_of(t));
        let mut r: Vec<Track> = Vec::new();
        let mut i: usize = 0;
        assert(track_views(r@) =~= wanted.take(0));
        while i < self.tracks.len()
            invariant
                i <= self.tracks@.len(),
                wanted == self.tracks@.map_values(|t: RawTrack| track_of(t)),
                track_views(r@) == wanted.take(i as int),
            decreases self.tracks@.len() - i,
        {
            let raw = &self.tracks[i];
            let title = copy_borrowed_string(&raw.title);
            let filename = copy_borrowed_string(&raw.filename);
            let name = if title.as_str().is_empty() {
                filename.clone()
            } else {
                title
            };
            let ghost before = track_views(r@);
            let track = Track {
                id: raw.id,
                parent_id: raw.parent_id,
                storage_id: raw.storage_id,
                name,
                filename,
            };
            assert(track@ == track_of(*raw));
            r.push(track);
            proof {
                assert(track_views(r@) =~= before.push(track@));
                assert(wanted.take(i + 1) =~= wanted.take(i as int).push(wanted[i as int]));
            }
            i = i + 1;
        }
        assert(wanted.take(i as int) == wanted);
        r
    }

    /// The device's album objects.
    pub fn albums(&self) -> (r: Vec<Album>)
        ensures
            album_views(r@) == self.albums@.map_values(|a: RawAlbum| album_of(a)),
    {
        let ghost wanted = self.albums@.map_values(|a: RawAlbum| album_of(a));
        let mut r: Vec<Album> = Vec::new();
        let mut i: usize = 0;
        assert(album_views(r@) =~= wanted.take(0));
        while i < self.albums.len()
            invariant
                i <= self.albums@.len(),
                wanted == self.albums@.map_values(|a: RawAlbum| album_of(a)),
                album_views(r@) == wanted.take(i as int),
            decreases self.albums@.len() - i,
        {
            let raw = &self.albums[i];
            let ghost before = album_views(r@);
            let album = Album {
                id: raw.id,
                name: copy_borrowed_string(&raw.name),
                track_ids: copy_ids(&raw.track_ids),
            };
            assert(album@ == album_of(*raw));
            r.push(album);
            proof {
                assert(album_views(r@) =~= before.push(album@));
                assert(wanted.take(i + 1) =~= wanted.take(i as int).push(wanted[i as int]));
            }
            i = i + 1;
        }
        assert(wanted.take(i as int) == wanted);
        r
    }

    /// The device's playlists.
    pub fn playlists(&self) -> (r: Vec<Playlist>)
        ensures
            playlist_views(r@) == self.playlists@.map_values(|p: RawPlaylist| playlist_of(p)),
    {
        let ghost wanted = self.playlists@.map_values(|p: RawPlaylist| playlist_of(p));
        let mut r: Vec<Playlist> = Vec::new();
        let mut i: usize = 0;
        assert(playlist_views(r@) =~= wanted.take(0));
        while i < self.playlists.len()
            invariant
                i <= self.playlists@.len(),
                wanted == self.playlists@.map_values(|p: RawPlaylist| playlist_of(p)),
                playlist_views(r@) == wanted.take(i as int),
            decreases self.playlists@.len() - i,
        {
            let raw = &self.playlists[i];
            let ghost before = playlist_views(r@);
            let playlist = Playlist {
                id: raw.id,
                parent_id: raw.parent_id,
                storage_id: raw.storage_id,
                name: copy_borrowed_string(&raw.name),
                track_ids: copy_ids(&raw.track_ids),
            };
            assert(playlist@ == playlist_of(*raw));
            r.push(playlist);
            proof {
                assert(playlist_views(r@) =~= before.push(playlist@));
                assert(wanted.take(i + 1) =~= wanted.take(i as int).push(wanted[i as int]));
            }
            i = i + 1;
        }
        assert(wanted.take(i as int) == wanted);
        r
    }
}

/// The folders that listed folders stand for.
pub fn copy_folder_list(raw: &Vec<RawFolder>) -> (r: Vec<Folder>)
    ensures
        folder_views(r@) == folders_of(raw@),
    decreases raw@,
{
    let mut r: Vec<Folder> = Vec::new();
    let mut i: usize = 0;
    while i < raw.len()
        invariant
            i <= raw@.len(),
            r@.len() == i,
            forall|j: int| 0 <= j < i ==> folder_view(#[trigger] r@[j]) == folder_of(raw@[j]),
        decreases raw@.len() - i,
    {
        let folder = &raw[i];
        let copy = Folder {
            id: folder.id,
            storage_id: folder.storage_id,
            name: copy_borrowed_string(&folder.name),
            children: copy_folder_list(&folder.children),
        };
        assert(folder_view(copy) == folder_of(raw@[i as int]));
        r.push(copy);
        i = i + 1;
    }
    assert(folder_views(r@) =~= folders_of(raw@));
    r
}

// ---------------------------------------------------------------------------
// Errors that the device reports
// ---------------------------------------------------------------------------

/// The messages that say something.
pub open spec fn messages_of(stack: Seq<Option<Vec<u8>>>) -> Seq<Seq<char>>
    decreases stack.len(),
{
    if stack.len() == 0 {
        Seq::empty()
    } else {
        let message = device_text(bytes_of(stack.last()));
        if message.len() == 0 {
            messages_of(stack.drop_last())
        } else {
            messages_of(stack.drop_last()).push(message)
        }
    }
}

/// The error that an error stack stands for: its messages, or a fixed text where it has none.
pub open spec fn error_text(stack: Seq<Option<Vec<u8>>>) -> Seq<char> {
    if messages_of(stack).len() == 0 {
        "libmtp transfer failed without an error-stack message"@
    } else {
        text::joined(messages_of(stack), ": "@)
    }
}

/// The error that the device's error stack stands for.
pub fn take_error_stack(stack: &Vec<Option<Vec<u8>>>) -> (r: String)
    ensures
        r@ == error_text(stack@),
{
    let mut messages: Vec<String> = Vec::new();
    let mut i: usize = 0;
    proof {
        assert(stack@.take(0).len() == 0);
        assert(text::strings(messages@) =~= messages_of(stack@.take(0)));
    }
    while i < stack.len()
        invariant
            i <= stack@.len(),
            text::strings(messages@) == messages_of(stack@.take(i as int)),
        decreases stack@.len() - i,
    {
        let message = copy_borrowed_string(&stack[i]);
        proof {
            assert(stack@.take(i + 1).drop_last() == stack@.take(i as int));
            assert(stack@.take(i + 1).last() == stack@[i as int]);
        }
        if !message.as_str().is_empty() {
            let ghost before = text::strings(messages@);
            messages.push(message);
            assert(text::strings(messages@) =~= before.push(message@));
        }
        i = i + 1;
    }
    proof {
        assert(stack@.take(i as int) == stack@);
        assert(text::strings(messages@).len() == messages@.len());
    }
    if messages.len() == 0 {
        copy_text("libmtp transfer failed without an error-stack message")
    } else {
        join_strings(&messages, ": ")
    }
}

// ---------------------------------------------------------------------------
// What holds of a snapshot
// ---------------------------------------------------------------------------

/// What the device gives as text is taken as it is; what it leaves out is empty.
pub proof fn lemma_device_text(s: Seq<char>)
    ensures
        device_text(Some(vstd::utf8::encode_utf8(s))) == s,
        device_text(None).len() == 0,
{
    path::lemma_lossy_text(s);
}

/// Folders keep their ids, storages, names and order, at every depth.
pub proof fn lemma_folders_of(raw: Seq<RawFolder>)
    ensures
        folders_of(raw).len() == raw.len(),
        forall|i: int|
            0 <= i < raw.len() ==> {
                let folder = #[trigger] folders_of(raw)[i];
                &&& folder.id == raw[i].id
                &&& folder.storage_id == raw[i].storage_id
                &&& folder.name == device_text(bytes_of(raw[i].name))
                &&& folder.children == folders_of(raw[i].children@)
            },
{
}

/// A snapshot holds the tracks, albums and playlists of the device, each with its own ids, and in the
/// order of the device. A track without a title is called by its file name.
pub proof fn lemma_snapshot(raw: Device)
    ensures
        ({
            let s = raw.snapshot_view();
            &&& s.folders == folders_of(raw.folders@)
            &&& s.info.friendly_name == device_text(bytes_of(raw.friendly_name))
            &&& s.info.model == device_text(bytes_of(raw.model))
            &&& s.info.serial == device_text(bytes_of(raw.serial))
            &&& s.info.version == device_text(bytes_of(raw.version))
            &&& s.tracks.len() == raw.tracks@.len()
            &&& forall|i: int|
                0 <= i < s.tracks.len() ==> {
                    let track = #[trigger] s.tracks[i];
                    let title = device_text(bytes_of(raw.tracks@[i].title));
                    &&& track.id == raw.tracks@[i].id
                    &&& track.parent_id == raw.tracks@[i].parent_id
                    &&& track.storage_id == raw.tracks@[i].storage_id
                    &&& track.filename == device_text(bytes_of(raw.tracks@[i].filename))
                    &&& title.len() > 0 ==> track.name == title
                    &&& title.len() == 0 ==> track.name == track.filename
                }
            &&& s.albums.len() == raw.albums@.len()
            &&& forall|i: int|
                0 <= i < s.albums.len() ==> {
                    let album = #[trigger] s.albums[i];
                    &&& album.id == raw.albums@[i].id
                    &&& album.name == device_text(bytes_of(raw.albums@[i].name))
                    &&& album.track_ids == raw.albums@[i].track_ids@
                }
            &&& s.playlists.len() == raw.playlists@.len()
            &&& forall|i: int|
                0 <= i < s.playlists.len() ==> {
                    let playlist = #[trigger] s.playlists[i];
                    &&& playlist.id == raw.playlists@[i].id
                    &&& playlist.parent_id == raw.playlists@[i].parent_id
                    &&& playlist.storage_id == raw.playlists@[i].storage_id
                    &&& playlist.name == device_text(bytes_of(raw.playlists@[i].name))
                    &&& playlist.track_ids == raw.playlists@[i].track_ids@
                }
        }),
{
}

/// The capacity and the free space of several storages are the sums of theirs, up to the largest
/// number that is counted.
pub proof fn lemma_space(a: Seq<RawStorage>, b: Seq<RawStorage>)
    ensures
        total_capacity(a + b) == total_capacity(a) + total_capacity(b),
        total_free(a + b) == total_free(a) + total_free(b),
        a.len() == 0 ==> total_capacity(a) == 0 && total_free(a) == 0,
        a.len() == 1 ==> total_capacity(a) == a[0].capacity_bytes && total_free(a)
            == a[0].free_bytes,
        capped(total_capacity(a)) <= total_capacity(a),
        total_capacity(a) <= u64::MAX ==> capped(total_capacity(a)) == total_capacity(a),
        total_capacity(a) > u64::MAX ==> capped(total_capacity(a)) == u64::MAX,
    decreases b.len(),
{
    if b.len() == 0 {
        assert(a + b =~= a);
    } else {
        lemma_space(a, b.drop_last());
        assert((a + b).drop_last() =~= a + b.drop_last());
    }
    if a.len() == 1 {
        assert(a.drop_last().len() == 0);
        assert(total_capacity(a.drop_last()) == 0);
        assert(total_free(a.drop_last()) == 0);
    }
}

/// The space of a device is that of its storages.
pub proof fn lemma_info_space(raw: Device)
    ensures
        total_capacity(raw.storages@) <= u64::MAX ==> raw.info_view().capacity_bytes
            == total_capacity(raw.storages@),
        total_free(raw.storages@) <= u64::MAX ==> raw.info_view().free_bytes == total_free(
            raw.storages@,
        ),
        total_capacity(raw.storages@) > u64::MAX ==> raw.info_view().capacity_bytes == u64::MAX,
        total_free(raw.storages@) > u64::MAX ==> raw.info_view().free_bytes == u64::MAX,
{
}

/// Entries of the error stack are those that say something, in their order.
pub open spec fn are_messages(
    kept: Seq<Option<Vec<u8>>>,
    stack: Seq<Option<Vec<u8>>>,
) -> bool {
    seqs::is_selection(stack, kept, |m: Option<Vec<u8>>| device_text(bytes_of(m)).len() > 0)
}

/// What is said of an error are all messages of the error stack, the first in front, with a colon
/// and a space between them; where there is none, it says so.
pub proof fn lemma_error_text(stack: Seq<Option<Vec<u8>>>)
    ensures
        exists|kept: Seq<Option<Vec<u8>>>| #[trigger]
            are_messages(kept, stack) && error_text(stack) == if kept.len() == 0 {
                "libmtp transfer failed without an error-stack message"@
            } else {
                text::joined(
                    kept.map_values(|m: Option<Vec<u8>>| device_text(bytes_of(m))),
                    ": "@,
                )
            },
{
    let test = |m: Option<Vec<u8>>| device_text(bytes_of(m)).len() > 0;
    let kept = stack.filter(test);
    seqs::lemma_filter_selects(stack, test);
    assert(are_messages(kept, stack));
    lemma_messages(stack);
}

proof fn lemma_messages(stack: Seq<Option<Vec<u8>>>)
    ensures
        messages_of(stack) == stack.filter(
            |m: Option<Vec<u8>>| device_text(bytes_of(m)).len() > 0,
        ).map_values(|m: Option<Vec<u8>>| device_text(bytes_of(m))),
    decreases stack.len(),
{
    reveal(Seq::filter);
    let test = |m: Option<Vec<u8>>| device_text(bytes_of(m)).len() > 0;
    let said = |m: Option<Vec<u8>>| device_text(bytes_of(m));
    if stack.len() == 0 {
        assert(stack.filter(test).map_values(said) =~= Seq::<Seq<char>>::empty());
    } else {
        let front = stack.drop_last();
        lemma_messages(front);
        if test(stack.last()) {
            assert(stack.filter(test) == front.filter(test).push(stack.last()));
            assert(stack.filter(test).map_values(said) =~= front.filter(test).map_values(said).push(
                said(stack.last()),
            ));
        }
    }
}

} // verus!
