//! The local side: directories as far as they were read, mounted volumes, and audio files.
use vstd::prelude::*;

use crate::audio;
use crate::audio::is_audio_file;
use crate::local_path;
use crate::local_path::{key_of_path, LocalPath, PathSet};
use crate::order;
use crate::order::{key_of_chars, sort_by_keys};
use crate::path;
use crate::path::{bytes_to_text, last_name};
use crate::seqs;
use crate::text;
use crate::text::{
    chars_of, continues_with, copy_text, find_text, part_of, replace_chars, same_chars,
    split_lines, split_words, str_to_lowercase, string_of,
};
use crate::tree;
use crate::tree::{NodeView, TreeNode};

verus! {

// ---------------------------------------------------------------------------
// Directories
// ---------------------------------------------------------------------------

/// What an entry of a directory is.
#[derive(Debug, Clone, Copy, PartialEq, Eq, Structural)]
pub enum EntryKind {
    Directory,
    File,
    Other,
}

/// An entry of a directory.
#[derive(Debug)]
pub struct DirEntry {
    pub path: LocalPath,
    pub kind: EntryKind,
}

/// An entry of a directory, as a mathematical value.
pub struct EntryView {
    pub path: Seq<u8>,
    pub kind: EntryKind,
}

impl View for DirEntry {
    type V = EntryView;

    open spec fn view(&self) -> EntryView {
        EntryView { path: self.path@, kind: self.kind }
    }
}

/// The entries that a vector holds.
pub open spec fn entry_views(entries: Seq<DirEntry>) -> Seq<EntryView> {
    entries.map_values(|e: DirEntry| e@)
}

/// The entries of an optional listing.
pub open spec fn listing_view(listing: Option<Vec<DirEntry>>) -> Option<Seq<EntryView>> {
    match listing {
        Some(entries) => Some(entry_views(entries@)),
        None => None,
    }
}

/// A directory; what is in it is known once it was read.
#[derive(Debug)]
pub struct Directory {
    pub path: LocalPath,
    pub name: String,
    pub children: Option<Vec<Directory>>,
    pub files: Vec<LocalPath>,
}

/// A directory as a mathematical value.
#[verifier::ext_equal]
pub struct DirView {
    pub path: Seq<u8>,
    pub name: Seq<char>,
    pub children: Option<Seq<DirView>>,
    pub files: Seq<Seq<u8>>,
}

/// A directory as a mathematical value.
pub open spec fn dir_view(dir: Directory) -> DirView
    decreases dir,
{
    DirView {
        path: dir.path@,
        name: dir.name@,
        children: match dir.children {
            Some(children) => Some(dir_views(children@)),
            None => None,
        },
        files: local_path::path_views(dir.files@),
    }
}

/// Directories as mathematical values.
pub open spec fn dir_views(dirs: Seq<Directory>) -> Seq<DirView>
    decreases dirs,
{
    Seq::new(
        dirs.len(),
        |i: int|
            if 0 <= i < dirs.len() {
                dir_view(dirs[i])
            } else {
                arbitrary()
            },
    )
}

impl View for Directory {
    type V = DirView;

    open spec fn view(&self) -> DirView {
        dir_view(*self)
    }
}

/// The name of a directory: the last component of its path, or "/" where that is not a name.
pub open spec fn directory_name(p: Seq<u8>) -> Seq<char> {
    match path::file_name(path::components(p)) {
        Some(name) => path::lossy_text(name),
        None => "/"@,
    }
}

/// A directory that was not read yet.
pub open spec fn unread(p: Seq<u8>) -> DirView {
    DirView { path: p, name: directory_name(p), children: None, files: Seq::empty() }
}

/// The sort key of a name: its characters in lower case.
pub open spec fn name_order(name: Seq<char>) -> Seq<u32> {
    order::text_key(text::lowercase(name))
}

/// The directories in a listing, by name.
pub open spec fn listed_directories(entries: Seq<EntryView>) -> Seq<DirView> {
    let dirs = entries.filter(|e: EntryView| e.kind == EntryKind::Directory).map_values(
        |e: EntryView| unread(e.path),
    );
    order::sorted_by(dirs, dirs.map_values(|d: DirView| name_order(d.name)))
}

/// The files in a listing, by name.
pub open spec fn listed_files(entries: Seq<EntryView>) -> Seq<Seq<u8>> {
    let files = entries.filter(|e: EntryView| e.kind == EntryKind::File).map_values(
        |e: EntryView| e.path,
    );
    order::sorted_by(files, files.map_values(|f: Seq<u8>| name_order(local_path::name_text(f))))
}

/// A directory once it was read, unless that was done before or failed.
pub open spec fn loaded(dir: DirView, listing: Option<Seq<EntryView>>) -> DirView {
    if dir.children is Some {
        dir
    } else {
        match listing {
            Some(entries) => DirView {
                children: Some(listed_directories(entries)),
                files: listed_files(entries),
                ..dir
            },
            None => dir,
        }
    }
}

/// A directory once it was read again.
pub open spec fn reloaded(dir: DirView, listing: Option<Seq<EntryView>>) -> DirView {
    loaded(DirView { children: None, files: Seq::empty(), ..dir }, listing)
}

/// The sort key of a name.
fn key_of_name(name: &str) -> (r: Vec<u32>)
    ensures
        r@ == name_order(name@),
{
    let lower = chars_of(&str_to_lowercase(name));
    key_of_chars(&lower)
}

impl Directory {
    /// A directory that was not read yet.
    pub fn new(p: LocalPath) -> (r: Self)
        ensures
            r@ == unread(p@),
    {
        let name = match last_name(&p.bytes) {
            Some(name) => bytes_to_text(&name),
            None => copy_text("/"),
        };
        let r = Directory { path: p, name, children: None, files: Vec::new() };
        assert(local_path::path_views(r.files@) =~= Seq::<Seq<u8>>::empty());
        r
    }
    /// Reads the directory, unless that was done before; a listing that could not be had changes
    /// nothing.
    pub fn load(&mut self, listing: &Option<Vec<DirEntry>>)
        ensures
            final(self)@ == loaded(old(self)@, listing_view(*listing)),
    {
        if self.children.is_some() {
            return;
        }
        if let Some(entries) = listing {
            let children = read_directories(entries);
            let files = read_files(entries);
            self.children = Some(children);
            self.files = files;
        }
    }

    /// Reads the directory again.
    pub fn reload(&mut self, listing: &Option<Vec<DirEntry>>)
        ensures
            final(self)@ == reloaded(old(self)@, listing_view(*listing)),
    {
        self.children = None;
        self.files = Vec::new();
        assert(local_path::path_views(self.files@) =~= Seq::<Seq<u8>>::empty());
        self.load(listing);
    }
}

/// Directories as mathematical values, one for each.
proof fn lemma_dir_views(dirs: Seq<Directory>)
    ensures
        dir_views(dirs) == dirs.map_values(|d: Directory| dir_view(d)),
{
    assert(dir_views(dirs) =~= dirs.map_values(|d: Directory| dir_view(d)));
}

/// The directories in a listing, by name.
fn read_directories(entries: &Vec<DirEntry>) -> (r: Vec<Directory>)
    ensures
        dir_views(r@) == listed_directories(entry_views(entries@)),
{
    let ghost all = entry_views(entries@);
    let ghost keep = |e: EntryView| e.kind == EntryKind::Directory;
    let ghost make = |e: EntryView| unread(e.path);
    let mut dirs: Vec<Directory> = Vec::new();
    let mut keys: Vec<Vec<u32>> = Vec::new();
    let mut i: usize = 0;
    proof {
        seqs::lemma_filter_ends(all, keep);
        assert(dir_views(dirs@) =~= all.take(0).filter(keep).map_values(make));
        assert(order::key_views(keys@) =~= dir_views(dirs@).map_values(
            |d: DirView| name_order(d.name),
        ));
    }
    while i < entries.len()
        invariant
            i <= entries@.len(),
            all == entry_views(entries@),
            keep == (|e: EntryView| e.kind == EntryKind::Directory),
            make == (|e: EntryView| unread(e.path)),
            dir_views(dirs@) == all.take(i as int).filter(keep).map_values(make),
            order::key_views(keys@) == dir_views(dirs@).map_values(
                |d: DirView| name_order(d.name),
            ),
        decreases entries@.len() - i,
    {
        let entry = &entries[i];
        proof {
            seqs::lemma_filter_next(all, i as int, keep);
            assert(all[i as int] == entry@);
        }
        if entry.kind == EntryKind::Directory {
            let ghost kept = all.take(i as int).filter(keep);
            let ghost before = dir_views(dirs@);
            let ghost keys_before = order::key_views(keys@);
            let dir = Directory::new(entry.path.clone());
            let key = key_of_name(&dir.name);
            keys.push(key);
            dirs.push(dir);
            proof {
                assert(dir_views(dirs@) =~= before.push(dir@));
                assert(kept.push(entry@).map_values(make) =~= kept.map_values(make).push(
                    make(entry@),
                ));
                assert(order::key_views(keys@) =~= keys_before.push(key@));
                assert(before.push(dir@).map_values(|d: DirView| name_order(d.name))
                    =~= before.map_values(|d: DirView| name_order(d.name)).push(key@));
            }
        }
        i = i + 1;
    }
    let ghost unsorted = dirs@;
    let ghost ks = order::key_views(keys@);
    assert(ks.len() == unsorted.len());
    let r = sort_by_keys(dirs, keys);
    proof {
        order::lemma_sorted_by_map(unsorted, ks, |d: Directory| dir_view(d));
        lemma_dir_views(unsorted);
        lemma_dir_views(r@);
    }
    r
}

/// The files in a listing, by name.
fn read_files(entries: &Vec<DirEntry>) -> (r: Vec<LocalPath>)
    ensures
        local_path::path_views(r@) == listed_files(entry_views(entries@)),
{
    let ghost all = entry_views(entries@);
    let ghost keep = |e: EntryView| e.kind == EntryKind::File;
    let ghost make = |e: EntryView| e.path;
    let ghost key_of = |f: Seq<u8>| name_order(local_path::name_text(f));
    let mut files: Vec<LocalPath> = Vec::new();
    let mut keys: Vec<Vec<u32>> = Vec::new();
    let mut i: usize = 0;
    proof {
        seqs::lemma_filter_ends(all, keep);
        assert(local_path::path_views(files@) =~= all.take(0).filter(keep).map_values(make));
        assert(order::key_views(keys@) =~= local_path::path_views(files@).map_values(key_of));
    }
    while i < entries.len()
        invariant
            i <= entries@.len(),
            all == entry_views(entries@),
            keep == (|e: EntryView| e.kind == EntryKind::File),
            make == (|e: EntryView| e.path),
            key_of == (|f: Seq<u8>| name_order(local_path::name_text(f))),
            local_path::path_views(files@) == all.take(i as int).filter(keep).map_values(make),
            order::key_views(keys@) == local_path::path_views(files@).map_values(key_of),
        decreases entries@.len() - i,
    {
        let entry = &entries[i];
        proof {
            seqs::lemma_filter_next(all, i as int, keep);
            assert(all[i as int] == entry@);
        }
        if entry.kind == EntryKind::File {
            let ghost kept = all.take(i as int).filter(keep);
            let ghost before = local_path::path_views(files@);
            let ghost keys_before = order::key_views(keys@);
            let file = entry.path.clone();
            let key = key_of_name(&file.name());
            keys.push(key);
            files.push(file);
            proof {
                assert(local_path::path_views(files@) =~= before.push(file@));
                assert(kept.push(entry@).map_values(make) =~= kept.map_values(make).push(
                    make(entry@),
                ));
                assert(order::key_views(keys@) =~= keys_before.push(key@));
                assert(before.push(file@).map_values(key_of) =~= before.map_values(key_of).push(
                    key@,
                ));
            }
        }
        i = i + 1;
    }
    let ghost unsorted = files@;
    let ghost ks = order::key_views(keys@);
    assert(ks.len() == unsorted.len());
    let r = sort_by_keys(files, keys);
    proof {
        order::lemma_sorted_by_map(unsorted, ks, |p: LocalPath| p@);
    }
    r
}

// ---------------------------------------------------------------------------
// Audio files of a directory
// ---------------------------------------------------------------------------

/// The audio files in a listing, in the order of their paths.
pub open spec fn audio_files(entries: Seq<EntryView>) -> Seq<Seq<u8>> {
    let files = entries.filter(
        |e: EntryView| e.kind == EntryKind::File && audio::is_audio(e.path),
    ).map_values(|e: EntryView| e.path);
    order::sorted_by(
        files,
        files.map_values(|f: Seq<u8>| local_path::path_key(path::components(f))),
    )
}

/// The audio files of a directory; none where it has none or could not be read.
pub open spec fn album_files(listing: Option<Seq<EntryView>>) -> Option<Seq<Seq<u8>>> {
    match listing {
        Some(entries) if audio_files(entries).len() > 0 => Some(audio_files(entries)),
        _ => None,
    }
}

/// The spellings of an optional list of paths.
pub open spec fn optional_paths(paths: Option<Vec<LocalPath>>) -> Option<Seq<Seq<u8>>> {
    match paths {
        Some(p) => Some(local_path::path_views(p@)),
        None => None,
    }
}

/// The audio files of a directory, in the order of their paths; none where it has none or could
/// not be read.
pub fn album_audio_files(listing: &Option<Vec<DirEntry>>) -> (r: Option<Vec<LocalPath>>)
    ensures
        optional_paths(r) == album_files(listing_view(*listing)),
{
    let entries = match listing {
        Some(entries) => entries,
        None => return None,
    };
    let ghost all = entry_views(entries@);
    let ghost keep = |e: EntryView| e.kind == EntryKind::File && audio::is_audio(e.path);
    let ghost make = |e: EntryView| e.path;
    let ghost key_of = |f: Seq<u8>| local_path::path_key(path::components(f));
    let mut files: Vec<LocalPath> = Vec::new();
    let mut keys: Vec<Vec<u32>> = Vec::new();
    let mut i: usize = 0;
    proof {
        seqs::lemma_filter_ends(all, keep);
        assert(local_path::path_views(files@) =~= all.take(0).filter(keep).map_values(make));
        assert(order::key_views(keys@) =~= local_path::path_views(files@).map_values(key_of));
    }
    while i < entries.len()
        invariant
            i <= entries@.len(),
            all == entry_views(entries@),
            keep == (|e: EntryView| e.kind == EntryKind::File && audio::is_audio(e.path)),
            make == (|e: EntryView| e.path),
            key_of == (|f: Seq<u8>| local_path::path_key(path::components(f))),
            local_path::path_views(files@) == all.take(i as int).filter(keep).map_values(make),
            order::key_views(keys@) == local_path::path_views(files@).map_values(key_of),
        decreases entries@.len() - i,
    {
        let entry = &entries[i];
        proof {
            seqs::lemma_filter_next(all, i as int, keep);
            assert(all[i as int] == entry@);
        }
        if entry.kind == EntryKind::File && is_audio_file(&entry.path) {
            let ghost kept = all.take(i as int).filter(keep);
            let ghost before = local_path::path_views(files@);
            let ghost keys_before = order::key_views(keys@);
            let file = entry.path.clone();
            let key = key_of_path(&file);
            keys.push(key);
            files.push(file);
            proof {
                assert(local_path::path_views(files@) =~= before.push(file@));
                assert(kept.push(entry@).map_values(make) =~= kept.map_values(make).push(
                    make(entry@),
                ));
                assert(order::key_views(keys@) =~= keys_before.push(key@));
                assert(before.push(file@).map_values(key_of) =~= before.map_values(key_of).push(
                    key@,
                ));
            }
        }
        i = i + 1;
    }
    let ghost unsorted = files@;
    let ghost ks = order::key_views(keys@);
    assert(ks.len() == unsorted.len());
    let r = sort_by_keys(files, keys);
    proof {
        order::lemma_sorted_by_map(unsorted, ks, |p: LocalPath| p@);
        assert(local_path::path_views(r@) == audio_files(all));
        assert(r@.len() == audio_files(all).len());
    }
    if r.len() == 0 {
        None
    } else {
        Some(r)
    }
}

// ---------------------------------------------------------------------------
// The tree of directories
// ---------------------------------------------------------------------------

/// The directories in a directory, as far as they are known.
pub open spec fn inner(dir: DirView) -> Seq<DirView> {
    match dir.children {
        Some(children) => children,
        None => Seq::empty(),
    }
}

/// The first directory with the given path, outer directories before inner ones.
pub open spec fn found_dir(dirs: Seq<DirView>, p: Seq<u8>) -> Option<DirView>
    decreases dirs,
{
    if dirs.len() == 0 {
        None
    } else if local_path::same_path(dirs[0].path, p) {
        Some(dirs[0])
    } else {
        let below = match dirs[0].children {
            Some(children) => found_dir(children, p),
            None => None,
        };
        match below {
            Some(dir) => Some(dir),
            None => found_dir(dirs.drop_first(), p),
        }
    }
}

/// The tree with another directory in place of the first one with the given path.
pub open spec fn replaced_dir(dirs: Seq<DirView>, p: Seq<u8>, new: DirView) -> Seq<DirView>
    decreases dirs,
{
    if dirs.len() == 0 {
        dirs
    } else if local_path::same_path(dirs[0].path, p) {
        seq![new] + dirs.drop_first()
    } else {
        match dirs[0].children {
            Some(children) if found_dir(children, p) is Some => {
                let first = DirView { children: Some(replaced_dir(children, p, new)), ..dirs[0] };
                seq![first] + dirs.drop_first()
            },
            _ => seq![dirs[0]] + replaced_dir(dirs.drop_first(), p, new),
        }
    }
}

/// A directory is the given one, or holds it.
pub open spec fn reaches(dir: DirView, p: Seq<u8>) -> bool {
    local_path::same_path(dir.path, p) || found_dir(inner(dir), p) is Some
}

/// The first directory with the given path.
pub fn find_directory<'a>(dirs: &'a Vec<Directory>, p: &LocalPath) -> (r: Option<&'a Directory>)
    ensures
        (match r {
            Some(dir) => found_dir(dir_views(dirs@), p@) == Some(dir@),
            None => found_dir(dir_views(dirs@), p@) is None,
        }),
    decreases dirs@,
{
    let ghost all = dir_views(dirs@);
    let mut i: usize = 0;
    assert(all.skip(0) == all);
    while i < dirs.len()
        invariant
            i <= dirs@.len(),
            all == dir_views(dirs@),
            found_dir(all, p@) == found_dir(all.skip(i as int), p@),
        decreases dirs@.len() - i,
    {
        let dir = &dirs[i];
        proof {
            assert(all.skip(i as int)[0] == dir_view(dirs@[i as int]));
            assert(all.skip(i as int).drop_first() == all.skip(i + 1));
        }
        if dir.path.is_same(p) {
            return Some(dir);
        }
        if let Some(children) = &dir.children {
            assert(dir_view(*dir).children == Some(dir_views(children@)));
            if let Some(below) = find_directory(children, p) {
                return Some(below);
            }
        }
        i = i + 1;
    }
    None
}

/// What replacing a directory does where it lies in the directory at index `i`.
proof fn lemma_replaced_dir_at(dirs: Seq<DirView>, i: int, p: Seq<u8>, new: DirView)
    requires
        0 <= i < dirs.len(),
        forall|j: int| 0 <= j < i ==> !reaches(#[trigger] dirs[j], p),
        reaches(dirs[i], p),
    ensures
        replaced_dir(dirs, p, new) == dirs.update(
            i,
            if local_path::same_path(dirs[i].path, p) {
                new
            } else {
                DirView { children: Some(replaced_dir(inner(dirs[i]), p, new)), ..dirs[i] }
            },
        ),
        found_dir(dirs, p) == if local_path::same_path(dirs[i].path, p) {
            Some(dirs[i])
        } else {
            found_dir(inner(dirs[i]), p)
        },
    decreases i,
{
    if i > 0 {
        let rest = dirs.drop_first();
        assert forall|j: int| 0 <= j < i - 1 implies !reaches(#[trigger] rest[j], p) by {
            assert(rest[j] == dirs[j + 1]);
        }
        assert(!reaches(dirs[0], p));
        lemma_replaced_dir_at(rest, i - 1, p, new);
    }
    assert(replaced_dir(dirs, p, new) =~= dirs.update(
        i,
        if local_path::same_path(dirs[i].path, p) {
            new
        } else {
            DirView { children: Some(replaced_dir(inner(dirs[i]), p, new)), ..dirs[i] }
        },
    ));
}

/// Whether a directory is the given one, or holds it.
fn leads_to(dir: &Directory, p: &LocalPath) -> (r: bool)
    ensures
        r == reaches(dir@, p@),
{
    if dir.path.is_same(p) {
        return true;
    }
    match &dir.children {
        Some(children) => {
            assert(dir_view(*dir).children == Some(dir_views(children@)));
            find_directory(children, p).is_some()
        },
        None => false,
    }
}

/// The first directory with the given path, to be changed.
pub fn find_directory_mut<'a>(dirs: &'a mut Vec<Directory>, p: &LocalPath) -> (r: Option<
    &'a mut Directory,
>)
    ensures
        (match r {
            Some(dir) => found_dir(dir_views(old(dirs)@), p@) == Some(dir_view(*dir)) && dir_views(
                final(dirs)@,
            ) == replaced_dir(dir_views(old(dirs)@), p@, dir_view(*final(dir))),
            None => found_dir(dir_views(old(dirs)@), p@) is None && *final(dirs) == *old(dirs),
        }),
    decreases old(dirs)@,
{
    let ghost all = dir_views(dirs@);
    let mut i: usize = 0;
    assert(all.skip(0) == all);
    while i < dirs.len() && !leads_to(&dirs[i], p)
        invariant
            i <= dirs@.len(),
            *dirs == *old(dirs),
            all == dir_views(dirs@),
            found_dir(all, p@) == found_dir(all.skip(i as int), p@),
            forall|j: int| 0 <= j < i ==> !reaches(#[trigger] all[j], p@),
        decreases dirs@.len() - i,
    {
        proof {
            assert(all[i as int] == dir_view(dirs@[i as int]));
            assert(all.skip(i as int)[0] == all[i as int]);
            assert(all.skip(i as int).drop_first() == all.skip(i + 1));
        }
        i = i + 1;
    }
    if i == dirs.len() {
        assert(all.skip(i as int).len() == 0);
        return None;
    }
    proof {
        assert(all[i as int] == dir_view(dirs@[i as int]));
        assert forall|new: DirView| #[trigger] replaced_dir(all, p@, new) == all.update(
            i as int,
            if local_path::same_path(all[i as int].path, p@) {
                new
            } else {
                DirView {
                    children: Some(replaced_dir(inner(all[i as int]), p@, new)),
                    ..all[i as int]
                }
            },
        ) by {
            lemma_replaced_dir_at(all, i as int, p@, new);
        }
        lemma_replaced_dir_at(all, i as int, p@, all[i as int]);
    }
    if dirs[i].path.is_same(p) {
        Some(&mut dirs[i])
    } else {
        match &mut dirs[i].children {
            Some(children) => find_directory_mut(children, p),
            None => None,
        }
    }
}

/// The local directories: the mounted volumes, and the home directory.
#[derive(Debug)]
pub struct LocalTree {
    pub roots: Vec<Directory>,
    pub home: LocalPath,
    pub mounts_root: LocalPath,
}

/// The local directories, as mathematical values.
#[verifier::ext_equal]
pub struct LocalTreeView {
    pub roots: Seq<DirView>,
    pub home: Seq<u8>,
    pub mounts_root: Seq<u8>,
}

impl View for LocalTree {
    type V = LocalTreeView;

    open spec fn view(&self) -> LocalTreeView {
        LocalTreeView {
            roots: dir_views(self.roots@),
            home: self.home@,
            mounts_root: self.mounts_root@,
        }
    }
}

/// The path that stands for the list of mounted volumes.
pub const MOUNTS_ROOT_ID: &'static str = "zunetui://mounted-drives";

/// The tree once a directory was read.
pub open spec fn tree_loaded(
    t: LocalTreeView,
    p: Seq<u8>,
    listing: Option<Seq<EntryView>>,
) -> LocalTreeView {
    match found_dir(t.roots, p) {
        Some(dir) => LocalTreeView {
            roots: replaced_dir(t.roots, p, loaded(dir, listing)),
            ..t
        },
        None => t,
    }
}

/// The tree once a directory was read again.
pub open spec fn tree_refreshed(
    t: LocalTreeView,
    p: Seq<u8>,
    listing: Option<Seq<EntryView>>,
) -> LocalTreeView {
    match found_dir(t.roots, p) {
        Some(dir) => LocalTreeView {
            roots: replaced_dir(t.roots, p, reloaded(dir, listing)),
            ..t
        },
        None => t,
    }
}

impl LocalTree {
    /// Whether a directory is in the tree and was not read yet.
    pub fn wants_listing(&self, p: &LocalPath) -> (r: bool)
        ensures
            r == (match found_dir(self@.roots, p@) {
                Some(dir) => dir.children is None,
                None => false,
            }),
    {
        match find_directory(&self.roots, p) {
            Some(dir) => dir.children.is_none(),
            None => false,
        }
    }

    /// Enters what a directory holds, unless that is known.
    pub fn load(&mut self, p: &LocalPath, listing: &Option<Vec<DirEntry>>)
        ensures
            final(self)@ == tree_loaded(old(self)@, p@, listing_view(*listing)),
    {
        if let Some(dir) = find_directory_mut(&mut self.roots, p) {
            dir.load(listing);
        }
    }

    /// Enters what a directory holds now.
    pub fn refresh(&mut self, p: &LocalPath, listing: &Option<Vec<DirEntry>>)
        ensures
            final(self)@ == tree_refreshed(old(self)@, p@, listing_view(*listing)),
    {
        if let Some(dir) = find_directory_mut(&mut self.roots, p) {
            dir.reload(listing);
        }
    }

    /// The home directory.
    pub fn root_path(&self) -> (r: LocalPath)
        ensures
            r@ == self@.home,
    {
        self.home.clone()
    }

    /// The path that stands for the list of mounted volumes.
    pub fn mounts_root_path(&self) -> (r: LocalPath)
        ensures
            r@ == self@.mounts_root,
    {
        self.mounts_root.clone()
    }
}

/// Reading a directory a second time changes nothing.
pub proof fn lemma_loaded_twice(
    dir: DirView,
    listing: Option<Seq<EntryView>>,
    again: Option<Seq<EntryView>>,
)
    ensures
        listing is Some ==> loaded(loaded(dir, listing), again) == loaded(dir, listing),
        loaded(dir, listing).path == dir.path,
        loaded(dir, listing).name == dir.name,
        listing is Some ==> reloaded(dir, listing).children == Some(
            listed_directories(listing->0),
        ) && reloaded(dir, listing).files == listed_files(listing->0),
{
}

// ---------------------------------------------------------------------------
// Mounted volumes
// ---------------------------------------------------------------------------

/// A file system that is reached over a network.
pub open spec fn is_network(filesystem: Seq<char>) -> bool {
    filesystem == "cifs"@ || filesystem == "nfs"@ || filesystem == "nfs4"@ || filesystem
        == "smb3"@ || filesystem == "sshfs"@ || text::starts_with(filesystem, "fuse.sshfs"@)
}

/// A field of the mount table without its escapes.
pub open spec fn unescaped_field(value: Seq<char>) -> Seq<char> {
    text::replaced(
        text::replaced(
            text::replaced(text::replaced(value, "\\040"@, " "@), "\\011"@, "\t"@),
            "\\012"@,
            "\n"@,
        ),
        "\\134"@,
        "\\"@,
    )
}

/// The mount point that a line of the mount table names, if it is one of storage: a device, or a
/// file system that is reached over a network.
pub open spec fn mount_of_line(line: Seq<char>) -> Option<Seq<char>> {
    match text::index_of_text(line, " - "@) {
        Some(i) => {
            let before = text::words_of(line.take(i));
            let behind = text::words_of(line.skip(i + 3));
            if before.len() < 5 || behind.len() < 2 {
                None
            } else if before[4] == "/"@ || !(text::starts_with(behind[1], "/dev/"@) || is_network(
                behind[0],
            )) {
                None
            } else {
                Some(unescaped_field(before[4]))
            }
        },
        None => None,
    }
}

/// The mount points of storage that lines of the mount table name: the absolute ones, each once.
pub open spec fn mounts_of_lines(lines: Seq<Seq<char>>) -> Seq<Seq<u8>>
    decreases lines.len(),
{
    if lines.len() == 0 {
        Seq::empty()
    } else {
        let before = mounts_of_lines(lines.drop_last());
        match mount_of_line(lines.last()) {
            Some(mount) => {
                let p = vstd::utf8::encode_utf8(mount);
                if path::is_absolute(p) {
                    local_path::with_path(before, p)
                } else {
                    before
                }
            },
            None => before,
        }
    }
}

/// The mount points of storage, in the order of their names.
pub open spec fn mounts_of(mountinfo: Seq<char>) -> Seq<Seq<u8>> {
    let mounts = mounts_of_lines(text::lines_of(mountinfo));
    order::sorted_by(
        mounts,
        mounts.map_values(|p: Seq<u8>| name_order(path::lossy_text(p))),
    )
}

/// Whether characters spell a text.
fn spells(chars: &Vec<char>, wanted: &str) -> (r: bool)
    ensures
        r == (chars@ == wanted@),
{
    let w = chars_of(wanted);
    same_chars(chars, &w)
}

/// Whether characters start with a text.
fn starts_like(chars: &Vec<char>, wanted: &str) -> (r: bool)
    ensures
        r == text::starts_with(chars@, wanted@),
{
    let w = chars_of(wanted);
    assert(chars@.skip(0) == chars@);
    continues_with(chars, 0, &w)
}

/// Whether a file system is reached over a network.
pub fn is_network_filesystem(filesystem: &str) -> (r: bool)
    ensures
        r == is_network(filesystem@),
{
    let name = chars_of(filesystem);
    spells(&name, "cifs") || spells(&name, "nfs") || spells(&name, "nfs4") || spells(&name, "smb3")
        || spells(&name, "sshfs") || starts_like(&name, "fuse.sshfs")
}

/// Every occurrence of a text replaced.
fn replace_text(s: &Vec<char>, from: &str, to: &str) -> (r: Vec<char>)
    requires
        from@.len() > 0,
    ensures
        r@ == text::replaced(s@, from@, to@),
{
    let f = chars_of(from);
    let t = chars_of(to);
    replace_chars(s, &f, &t)
}

/// A field of the mount table without its escapes.
pub fn unescape_mount_field(value: &str) -> (r: String)
    ensures
        r@ == unescaped_field(value@),
{
    proof {
        reveal_strlit("\\040");
        reveal_strlit("\\011");
        reveal_strlit("\\012");
        reveal_strlit("\\134");
    }
    let chars = chars_of(value);
    let a = replace_text(&chars, "\\040", " ");
    let b = replace_text(&a, "\\011", "\t");
    let c = replace_text(&b, "\\012", "\n");
    let d = replace_text(&c, "\\134", "\\");
    string_of(&d)
}

/// The mount point that a line of the mount table names, if it is one of storage.
fn read_mount(line: &Vec<char>) -> (r: Option<String>)
    ensures
        text::text_of(r) == mount_of_line(line@),
{
    let dash = chars_of(" - ");
    proof {
        reveal_strlit(" - ");
        assert(dash@.len() == 3);
    }
    let at = match find_text(line, &dash) {
        Some(at) => at,
        None => return None,
    };
    let total: usize = line.len();
    let head = part_of(line, 0, at);
    let tail = part_of(line, at + 3, total);
    proof {
        assert(head@ == line@.take(at as int));
        assert(tail@ == line@.skip(at + 3));
    }
    let before = split_words(&head);
    let behind = split_words(&tail);
    proof {
        assert(text::texts(before@).len() == before@.len());
        assert(text::texts(behind@).len() == behind@.len());
    }
    if before.len() < 5 || behind.len() < 2 {
        return None;
    }
    proof {
        assert(text::texts(before@)[4] == before@[4]@);
        assert(text::texts(behind@)[0] == behind@[0]@);
        assert(text::texts(behind@)[1] == behind@[1]@);
    }
    if spells(&before[4], "/") || !(starts_like(&behind[1], "/dev/") || is_network_filesystem(
        &string_of(&behind[0]),
    )) {
        return None;
    }
    Some(unescape_mount_field(&string_of(&before[4])))
}

/// The mount points of storage, in the order of their names.
pub fn mounted_volumes_from(mountinfo: &str) -> (r: Vec<LocalPath>)
    ensures
        local_path::path_views(r@) == mounts_of(mountinfo@),
{
    let chars = chars_of(mountinfo);
    let lines = split_lines(&chars);
    let ghost all = text::lines_of(mountinfo@);
    let mut mounts = PathSet::new();
    let mut i: usize = 0;
    assert(all.take(0).len() == 0);
    while i < lines.len()
        invariant
            i <= lines@.len(),
            text::texts(lines@) == all,
            mounts@ == mounts_of_lines(all.take(i as int)),
        decreases lines@.len() - i,
    {
        proof {
            assert(all.take(i + 1).drop_last() =~= all.take(i as int));
            assert(all.take(i + 1).last() == lines@[i as int]@);
        }
        if let Some(mount) = read_mount(&lines[i]) {
            let p = LocalPath::from_text(&mount);
            if p.is_absolute() {
                mounts.insert(p);
            }
        }
        i = i + 1;
    }
    proof {
        assert(lines@.len() == all.len());
        assert(all.take(i as int) =~= all);
    }
    let ghost unsorted = mounts.paths@;
    let ghost key_of = |p: Seq<u8>| name_order(path::lossy_text(p));
    let mut keys: Vec<Vec<u32>> = Vec::new();
    let mut k: usize = 0;
    assert(order::key_views(keys@) =~= mounts@.map_values(key_of).take(0));
    while k < mounts.paths.len()
        invariant
            k <= mounts.paths@.len(),
            key_of == (|p: Seq<u8>| name_order(path::lossy_text(p))),
            order::key_views(keys@) == mounts@.map_values(key_of).take(k as int),
        decreases mounts.paths@.len() - k,
    {
        let ghost before = order::key_views(keys@);
        let key = key_of_name(&mounts.paths[k].display());
        keys.push(key);
        proof {
            let wanted = mounts@.map_values(key_of);
            assert(mounts@[k as int] == mounts.paths@[k as int]@);
            assert(order::key_views(keys@) =~= before.push(key@));
            assert(wanted.take(k + 1) =~= wanted.take(k as int).push(wanted[k as int]));
        }
        k = k + 1;
    }
    let ghost ks = order::key_views(keys@);
    proof {
        assert(mounts@.map_values(key_of).take(k as int) =~= mounts@.map_values(key_of));
        assert(ks.len() == unsorted.len());
        order::lemma_sorted_by_map(unsorted, ks, |p: LocalPath| p@);
    }
    sort_by_keys(mounts.paths, keys)
}

proof fn lemma_mounts_of_lines(lines: Seq<Seq<char>>)
    ensures
        local_path::distinct_paths(mounts_of_lines(lines)),
        forall|i: int|
            0 <= i < mounts_of_lines(lines).len() ==> path::is_absolute(
                #[trigger] mounts_of_lines(lines)[i],
            ),
    decreases lines.len(),
{
    if lines.len() > 0 {
        lemma_mounts_of_lines(lines.drop_last());
        let before = mounts_of_lines(lines.drop_last());
        let now = mounts_of_lines(lines);
        if now != before {
            assert forall|i: int, j: int| 0 <= i < j < now.len() implies !local_path::same_path(
                #[trigger] now[i],
                #[trigger] now[j],
            ) by {
                assert(now[i] == before[i]);
                if j < before.len() {
                    assert(now[j] == before[j]);
                }
            }
            assert forall|i: int| 0 <= i < now.len() implies path::is_absolute(
                #[trigger] now[i],
            ) by {
                if i < before.len() {
                    assert(now[i] == before[i]);
                }
            }
        }
    }
}

/// The mount points are absolute, and none of them is listed twice.
pub proof fn lemma_mounts(mountinfo: Seq<char>)
    ensures
        local_path::distinct_paths(mounts_of(mountinfo)),
        forall|i: int|
            0 <= i < mounts_of(mountinfo).len() ==> path::is_absolute(
                #[trigger] mounts_of(mountinfo)[i],
            ),
{
    let mounts = mounts_of_lines(text::lines_of(mountinfo));
    let keys = mounts.map_values(|p: Seq<u8>| name_order(path::lossy_text(p)));
    let sorted = mounts_of(mountinfo);
    let ord = order::sorted_order(keys);
    lemma_mounts_of_lines(text::lines_of(mountinfo));
    order::lemma_sorted_order(keys);
    assert forall|i: int, j: int| 0 <= i < j < sorted.len() implies !local_path::same_path(
        #[trigger] sorted[i],
        #[trigger] sorted[j],
    ) by {
        assert(0 <= ord[i] < mounts.len());
        assert(0 <= ord[j] < mounts.len());
        assert(ord[i] != ord[j]);
        assert(sorted[i] == mounts[ord[i]]);
        assert(sorted[j] == mounts[ord[j]]);
    }
    assert forall|i: int| 0 <= i < sorted.len() implies path::is_absolute(#[trigger] sorted[i]) by {
        assert(0 <= ord[i] < mounts.len());
        assert(sorted[i] == mounts[ord[i]]);
    }
}

// ---------------------------------------------------------------------------
// The first tree, and its items
// ---------------------------------------------------------------------------

/// A name with the path behind it in brackets.
pub open spec fn name_and_path(name: Seq<char>, p: Seq<u8>) -> Seq<char> {
    name + " ("@ + path::lossy_text(p) + ")"@
}

/// A mounted volume that was not read yet.
pub open spec fn volume(p: Seq<u8>) -> DirView {
    DirView { name: name_and_path(directory_name(p), p), ..unread(p) }
}

/// The mounted volumes that do not lie in the home directory.
pub open spec fn volumes(mountinfo: Seq<char>, home: Seq<u8>) -> Seq<DirView> {
    mounts_of(mountinfo).filter(|p: Seq<u8>| !local_path::lies_in(p, home)).map_values(
        |p: Seq<u8>| volume(p),
    )
}

/// The tree before anything else was read: the mounted volumes, and the home directory.
pub open spec fn first_tree(
    home: Seq<u8>,
    entries: Seq<EntryView>,
    mountinfo: Seq<char>,
) -> LocalTreeView {
    let mounts_root = vstd::utf8::encode_utf8(MOUNTS_ROOT_ID@);
    LocalTreeView {
        roots: seq![
            DirView {
                path: mounts_root,
                name: "Mounted Drives"@,
                children: Some(volumes(mountinfo, home)),
                files: Seq::empty(),
            },
            loaded(
                DirView { name: name_and_path("Home"@, home), ..unread(home) },
                Some(entries),
            ),
        ],
        home,
        mounts_root,
    }
}

/// The home directory: the given one, or the root.
pub open spec fn home_or_root(home: Option<Seq<u8>>) -> Seq<u8> {
    match home {
        Some(p) => p,
        None => vstd::utf8::encode_utf8("/"@),
    }
}

/// The home directory: the given one, or the root.
pub fn home_directory(home: Option<LocalPath>) -> (r: LocalPath)
    ensures
        r@ == home_or_root(
            match home {
                Some(p) => Some(p@),
                None => None,
            },
        ),
{
    match home {
        Some(p) => p,
        None => LocalPath::from_text("/"),
    }
}

/// A name with the path behind it in brackets.
fn write_name_and_path(name: &str, p: &LocalPath) -> (r: String)
    ensures
        r@ == name_and_path(name@, p@),
{
    let mut r = copy_text(name);
    r.append(" (");
    r.append(&p.display());
    r.append(")");
    r
}

/// The mounted volumes that do not lie in the home directory.
fn read_volumes(mountinfo: &str, home: &LocalPath) -> (r: Vec<Directory>)
    ensures
        dir_views(r@) == volumes(mountinfo@, home@),
{
    let mounts = mounted_volumes_from(mountinfo);
    let ghost all = mounts_of(mountinfo@);
    let ghost keep = |p: Seq<u8>| !local_path::lies_in(p, home@);
    let ghost make = |p: Seq<u8>| volume(p);
    let mut r: Vec<Directory> = Vec::new();
    let mut i: usize = 0;
    proof {
        seqs::lemma_filter_ends(all, keep);
        assert(dir_views(r@) =~= all.take(0).filter(keep).map_values(make));
        assert(mounts@.len() == all.len());
    }
    while i < mounts.len()
        invariant
            i <= mounts@.len() == all.len(),
            all == local_path::path_views(mounts@),
            keep == (|p: Seq<u8>| !local_path::lies_in(p, home@)),
            make == (|p: Seq<u8>| volume(p)),
            dir_views(r@) == all.take(i as int).filter(keep).map_values(make),
        decreases mounts@.len() - i,
    {
        let mount = &mounts[i];
        proof {
            seqs::lemma_filter_next(all, i as int, keep);
            assert(all[i as int] == mount@);
        }
        if !mount.starts_with(home) {
            let ghost kept = all.take(i as int).filter(keep);
            let ghost before = dir_views(r@);
            let mut dir = Directory::new(mount.clone());
            dir.name = write_name_and_path(&dir.name, mount);
            r.push(dir);
            proof {
                assert(dir_views(r@) =~= before.push(dir@));
                assert(kept.push(mount@).map_values(make) =~= kept.map_values(make).push(
                    make(mount@),
                ));
            }
        }
        i = i + 1;
    }
    r
}

impl LocalTree {
    /// The tree of the home directory, whose entries are given, and of the mounted volumes that
    /// the mount table names. A volume in the home directory is reached from there.
    pub fn home(home: LocalPath, entries: Vec<DirEntry>, mountinfo: &str) -> (r: Self)
        ensures
            r@ == first_tree(home@, entry_views(entries@), mountinfo@),
    {
        let mut home_dir = Directory::new(home.clone());
        home_dir.name = write_name_and_path("Home", &home);
        home_dir.load(&Some(entries));
        let mounts_root = LocalPath::from_text(MOUNTS_ROOT_ID);
        let mounted = Directory {
            path: mounts_root.clone(),
            name: copy_text("Mounted Drives"),
            children: Some(read_volumes(mountinfo, &home)),
            files: Vec::new(),
        };
        proof {
            assert(local_path::path_views(mounted.files@) =~= Seq::<Seq<u8>>::empty());
        }
        let mut roots: Vec<Directory> = Vec::new();
        roots.push(mounted);
        roots.push(home_dir);
        let r = LocalTree { roots, home, mounts_root };
        assert(r@.roots =~= first_tree(home@, entry_views(entries@), mountinfo@).roots);
        r
    }
}

/// The box in front of an item that can be marked.
pub open spec fn mark_box(marked: bool) -> Seq<char> {
    if marked {
        "[x]"@
    } else {
        "[ ]"@
    }
}

/// A name with a box in front of it.
pub open spec fn boxed(marked: bool, name: Seq<char>) -> Seq<char> {
    mark_box(marked) + " "@ + name
}

/// A name with a box in front of it.
pub(crate) fn write_boxed(marked: bool, name: &str) -> (r: String)
    ensures
        r@ == boxed(marked, name@),
{
    let mut r = if marked {
        copy_text("[x]")
    } else {
        copy_text("[ ]")
    };
    r.append(" ");
    r.append(name);
    r
}

/// The audio files among others.
pub open spec fn audio_among(files: Seq<Seq<u8>>) -> Seq<Seq<u8>> {
    files.filter(|f: Seq<u8>| audio::is_audio(f))
}

/// The item of a file.
pub open spec fn file_node(f: Seq<u8>, marked: Seq<Seq<u8>>) -> NodeView<Seq<u8>> {
    NodeView {
        id: f,
        label: boxed(local_path::has_path(marked, f), local_path::name_text(f)),
        children: Seq::empty(),
    }
}

/// The label of a directory: where it holds audio files, there is a box in front of it, which is
/// marked where all of them are.
pub open spec fn directory_label(dir: DirView, marked: Seq<Seq<u8>>) -> Seq<char> {
    let files = audio_among(dir.files);
    if files.len() == 0 {
        dir.name
    } else {
        boxed(local_path::has_paths(marked, files), dir.name)
    }
}

/// The item of a directory: its directories, then its files.
pub open spec fn directory_node(dir: DirView, marked: Seq<Seq<u8>>) -> NodeView<Seq<u8>>
    decreases dir,
{
    let dirs = match dir.children {
        Some(children) => directory_nodes(children, marked),
        None => Seq::empty(),
    };
    NodeView {
        id: dir.path,
        label: directory_label(dir, marked),
        children: dirs + dir.files.map_values(|f: Seq<u8>| file_node(f, marked)),
    }
}

/// The items of directories.
pub open spec fn directory_nodes(dirs: Seq<DirView>, marked: Seq<Seq<u8>>) -> Seq<
    NodeView<Seq<u8>>,
>
    decreases dirs,
{
    Seq::new(
        dirs.len(),
        |i: int|
            if 0 <= i < dirs.len() {
                directory_node(dirs[i], marked)
            } else {
                arbitrary()
            },
    )
}

/// The label of a directory.
fn write_label(dir: &Directory, marked: &PathSet) -> (r: String)
    ensures
        r@ == directory_label(dir@, marked@),
{
    let ghost all = local_path::path_views(dir.files@);
    let ghost keep = |f: Seq<u8>| audio::is_audio(f);
    let mut files: Vec<LocalPath> = Vec::new();
    let mut i: usize = 0;
    proof {
        seqs::lemma_filter_ends(all, keep);
        assert(local_path::path_views(files@) =~= all.take(0).filter(keep));
    }
    while i < dir.files.len()
        invariant
            i <= dir.files@.len(),
            all == local_path::path_views(dir.files@),
            keep == (|f: Seq<u8>| audio::is_audio(f)),
            local_path::path_views(files@) == all.take(i as int).filter(keep),
        decreases dir.files@.len() - i,
    {
        proof {
            seqs::lemma_filter_next(all, i as int, keep);
            assert(all[i as int] == dir.files@[i as int]@);
        }
        if is_audio_file(&dir.files[i]) {
            let ghost before = local_path::path_views(files@);
            let file = dir.files[i].clone();
            files.push(file);
            assert(local_path::path_views(files@) =~= before.push(file@));
        }
        i = i + 1;
    }
    assert(local_path::path_views(files@).len() == files@.len());
    if files.len() == 0 {
        dir.name.clone()
    } else {
        write_boxed(marked.contains_all(&files), &dir.name)
    }
}

/// The items of directories.
fn make_items(dirs: &Vec<Directory>, marked: &PathSet) -> (r: Vec<TreeNode<LocalPath>>)
    ensures
        tree::node_views(r@) == directory_nodes(dir_views(dirs@), marked@),
    decreases dirs@,
{
    let ghost all = dir_views(dirs@);
    let mut r: Vec<TreeNode<LocalPath>> = Vec::new();
    let mut i: usize = 0;
    while i < dirs.len()
        invariant
            i <= dirs@.len(),
            r@.len() == i,
            all == dir_views(dirs@),
            forall|j: int|
                0 <= j < i ==> tree::node_view(#[trigger] r@[j]) == directory_node(
                    all[j],
                    marked@,
                ),
        decreases dirs@.len() - i,
    {
        let dir = &dirs[i];
        assert(all[i as int] == dir_view(*dir));
        let mut children: Vec<TreeNode<LocalPath>> = Vec::new();
        assert(tree::node_views(children@) =~= Seq::<NodeView<Seq<u8>>>::empty());
        if let Some(inner_dirs) = &dir.children {
            assert(dir_view(*dir).children == Some(dir_views(inner_dirs@)));
            children = make_items(inner_dirs, marked);
        }
        let ghost first = tree::node_views(children@);
        let ghost files = local_path::path_views(dir.files@);
        let ghost wanted = files.map_values(|f: Seq<u8>| file_node(f, marked@));
        let mut k: usize = 0;
        assert(first + wanted.take(0) =~= first);
        while k < dir.files.len()
            invariant
                k <= dir.files@.len(),
                files == local_path::path_views(dir.files@),
                wanted == files.map_values(|f: Seq<u8>| file_node(f, marked@)),
                tree::node_views(children@) == first + wanted.take(k as int),
            decreases dir.files@.len() - k,
        {
            let ghost before = tree::node_views(children@);
            let file = &dir.files[k];
            let leaf = TreeNode {
                id: file.clone(),
                label: write_boxed(marked.contains(file), &file.name()),
                children: Vec::new(),
            };
            proof {
                assert(files[k as int] == file@);
                assert(tree::node_views(leaf.children@) =~= Seq::<NodeView<Seq<u8>>>::empty());
                assert(tree::node_view(leaf) == wanted[k as int]);
            }
            children.push(leaf);
            proof {
                assert(tree::node_views(children@) =~= before.push(wanted[k as int]));
                assert(wanted.take(k + 1) =~= wanted.take(k as int).push(wanted[k as int]));
                assert(first + wanted.take(k + 1) =~= (first + wanted.take(k as int)).push(
                    wanted[k as int],
                ));
            }
            k = k + 1;
        }
        assert(wanted.take(k as int) =~= wanted);
        let node = TreeNode {
            id: dir.path.clone(),
            label: write_label(dir, marked),
            children,
        };
        assert(tree::node_view(node) == directory_node(all[i as int], marked@));
        r.push(node);
        i = i + 1;
    }
    assert(tree::node_views(r@) =~= directory_nodes(all, marked@));
    r
}

impl LocalTree {
    /// The items of the tree, given which files are marked.
    pub fn items(&self, marked: &PathSet) -> (r: Vec<TreeNode<LocalPath>>)
        ensures
            tree::node_views(r@) == directory_nodes(self@.roots, marked@),
    {
        make_items(&self.roots, marked)
    }
}

// ---------------------------------------------------------------------------
// What holds of the local side
// ---------------------------------------------------------------------------

/// Entries are those of one kind, in the order of the listing.
pub open spec fn are_entries_of(
    kept: Seq<EntryView>,
    entries: Seq<EntryView>,
    kind: EntryKind,
) -> bool {
    seqs::is_selection(entries, kept, |e: EntryView| e.kind == kind)
}

/// The last component of a path as text; `otherwise` where it has none.
pub open spec fn last_text(p: Seq<u8>, otherwise: Seq<char>) -> Seq<char> {
    let all = path::components(p);
    if all.len() > 0 && all.last() is Normal {
        path::lossy_text(all.last()->Normal_0)
    } else {
        otherwise
    }
}

/// A directory that was not read yet stands for its path, under the last component of it.
pub proof fn lemma_unread(p: Seq<u8>)
    ensures
        unread(p).path == p,
        unread(p).name == last_text(p, "/"@),
        unread(p).children is None,
        unread(p).files.len() == 0,
        local_path::name_text(p) == last_text(p, Seq::empty()),
{
}

/// A listing gives each directory entry, and no other, as a directory that was not read yet. They
/// come in the order of their names in lower case, those with equal names in the order of the
/// listing.
pub proof fn lemma_listed_directories(entries: Seq<EntryView>)
    ensures
        exists|kept: Seq<EntryView>| #[trigger]
            are_entries_of(kept, entries, EntryKind::Directory) && order::is_arrangement(
                kept.map_values(|e: EntryView| unread(e.path)),
                kept.map_values(
                    |e: EntryView| order::text_key(text::lowercase(last_text(e.path, "/"@))),
                ),
                listed_directories(entries),
            ),
{
    let test = |e: EntryView| e.kind == EntryKind::Directory;
    let kept = entries.filter(test);
    seqs::lemma_filter_selects(entries, test);
    assert(are_entries_of(kept, entries, EntryKind::Directory));
    let dirs = kept.map_values(|e: EntryView| unread(e.path));
    let keys = dirs.map_values(|d: DirView| name_order(d.name));
    assert(keys =~= kept.map_values(
        |e: EntryView| order::text_key(text::lowercase(last_text(e.path, "/"@))),
    ));
    order::lemma_sorted_by(dirs, keys);
}

/// A listing gives the path of each file entry, and no other, in the order of their names in lower
/// case.
pub proof fn lemma_listed_files(entries: Seq<EntryView>)
    ensures
        exists|kept: Seq<EntryView>| #[trigger]
            are_entries_of(kept, entries, EntryKind::File) && order::is_arrangement(
                kept.map_values(|e: EntryView| e.path),
                kept.map_values(
                    |e: EntryView|
                        order::text_key(text::lowercase(last_text(e.path, Seq::empty()))),
                ),
                listed_files(entries),
            ),
{
    let test = |e: EntryView| e.kind == EntryKind::File;
    let kept = entries.filter(test);
    seqs::lemma_filter_selects(entries, test);
    assert(are_entries_of(kept, entries, EntryKind::File));
    let files = kept.map_values(|e: EntryView| e.path);
    let keys = files.map_values(|f: Seq<u8>| name_order(local_path::name_text(f)));
    assert(keys =~= kept.map_values(
        |e: EntryView| order::text_key(text::lowercase(last_text(e.path, Seq::empty()))),
    ));
    order::lemma_sorted_by(files, keys);
}

/// Reading a directory gives it what stands in it and leaves its path and name; one that was read
/// stays as it is, and so does one that cannot be read. Reading it again forgets what stood in it.
pub proof fn lemma_reading(dir: DirView, listing: Option<Seq<EntryView>>)
    ensures
        ({
            let read = loaded(dir, listing);
            let again = reloaded(dir, listing);
            &&& dir.children is Some || listing is None ==> read == dir
            &&& dir.children is None && listing is Some ==> read.children == Some(
                listed_directories(listing->0),
            ) && read.files == listed_files(listing->0) && read.path == dir.path && read.name
                == dir.name
            &&& again.path == dir.path && again.name == dir.name
            &&& listing is None ==> again.children is None && again.files.len() == 0
            &&& listing is Some ==> again.children == Some(listed_directories(listing->0))
                && again.files == listed_files(listing->0)
        }),
{
}

/// Entries are the files with an audio extension, in the order of the listing.
pub open spec fn are_audio_entries(kept: Seq<EntryView>, entries: Seq<EntryView>) -> bool {
    seqs::is_selection(
        entries,
        kept,
        |e: EntryView| e.kind == EntryKind::File && audio::is_audio(e.path),
    )
}

/// The files of an album are the audio files of its directory, and no others, in the order of their
/// paths. A directory without any, or one that cannot be read, is no album.
pub proof fn lemma_album_files(listing: Option<Seq<EntryView>>)
    ensures
        listing is None ==> album_files(listing) is None,
        listing matches Some(entries) ==> exists|kept: Seq<EntryView>| #[trigger]
            are_audio_entries(kept, entries) && (album_files(listing) is Some <==> kept.len() > 0)
                && (album_files(listing) matches Some(files) ==> order::is_arrangement(
                kept.map_values(|e: EntryView| e.path),
                kept.map_values(
                    |e: EntryView| local_path::path_key(path::components(e.path)),
                ),
                files,
            )),
{
    if let Some(entries) = listing {
        let test = |e: EntryView| e.kind == EntryKind::File && audio::is_audio(e.path);
        let kept = entries.filter(test);
        seqs::lemma_filter_selects(entries, test);
        assert(are_audio_entries(kept, entries));
        let files = kept.map_values(|e: EntryView| e.path);
        let keys = files.map_values(|f: Seq<u8>| local_path::path_key(path::components(f)));
        assert(keys =~= kept.map_values(
            |e: EntryView| local_path::path_key(path::components(e.path)),
        ));
        order::lemma_sorted_by(files, keys);
    }
}

/// All directories that were read or listed, each before the directories in it.
pub open spec fn all_dirs(dirs: Seq<DirView>) -> Seq<DirView>
    decreases dirs,
{
    if dirs.len() == 0 {
        Seq::empty()
    } else {
        let below = match dirs[0].children {
            Some(children) => all_dirs(children),
            None => Seq::empty(),
        };
        seq![dirs[0]] + below + all_dirs(dirs.drop_first())
    }
}

/// A directory stands at index `i`, and none before it has its path.
pub open spec fn first_with_path(dirs: Seq<DirView>, p: Seq<u8>, i: int) -> bool {
    0 <= i < dirs.len() && local_path::same_path(dirs[i].path, p) && forall|j: int|
        0 <= j < i ==> !local_path::same_path((#[trigger] dirs[j]).path, p)
}

/// What is found by a path is the first directory that has it, at any depth; nothing is found only
/// where no directory has it.
pub proof fn lemma_found_dir_is_first(dirs: Seq<DirView>, p: Seq<u8>)
    ensures
        (match found_dir(dirs, p) {
            Some(dir) => exists|i: int| #[trigger]
                first_with_path(all_dirs(dirs), p, i) && all_dirs(dirs)[i] == dir,
            None => forall|i: int|
                0 <= i < all_dirs(dirs).len() ==> !local_path::same_path(
                    (#[trigger] all_dirs(dirs)[i]).path,
                    p,
                ),
        }),
    decreases dirs,
{
    if dirs.len() > 0 {
        let all = all_dirs(dirs);
        let below = match dirs[0].children {
            Some(children) => all_dirs(children),
            None => Seq::empty(),
        };
        let found_below = match dirs[0].children {
            Some(children) => found_dir(children, p),
            None => None,
        };
        let behind = all_dirs(dirs.drop_first());
        if let Some(children) = dirs[0].children {
            lemma_found_dir_is_first(children, p);
        }
        lemma_found_dir_is_first(dirs.drop_first(), p);
        let n = below.len() as int;
        assert(all == seq![dirs[0]] + below + behind);
        assert(all[0] == dirs[0]);
        assert forall|k: int| 0 <= k < n implies #[trigger] all[k + 1] == below[k] by {}
        assert forall|k: int| 0 <= k < behind.len() implies #[trigger] all[k + 1 + n]
            == behind[k] by {}
        if local_path::same_path(dirs[0].path, p) {
            assert(first_with_path(all, p, 0));
        } else if found_below is Some {
            let k = choose|k: int| #[trigger]
                first_with_path(below, p, k) && below[k] == found_below->0;
            assert(all[k + 1] == below[k]);
            assert forall|j: int| 0 <= j < k + 1 implies !local_path::same_path(
                (#[trigger] all[j]).path,
                p,
            ) by {
                if j > 0 {
                    assert(all[(j - 1) + 1] == below[j - 1]);
                }
            }
            assert(first_with_path(all, p, k + 1));
        } else {
            assert forall|j: int| 0 <= j < n + 1 implies !local_path::same_path(
                (#[trigger] all[j]).path,
                p,
            ) by {
                if j > 0 {
                    assert(all[(j - 1) + 1] == below[j - 1]);
                }
            }
            if found_dir(dirs.drop_first(), p) is Some {
                let k = choose|k: int| #[trigger]
                    first_with_path(behind, p, k) && behind[k] == found_dir(
                        dirs.drop_first(),
                        p,
                    )->0;
                assert(all[k + 1 + n] == behind[k]);
                assert forall|j: int| 0 <= j < k + 1 + n implies !local_path::same_path(
                    (#[trigger] all[j]).path,
                    p,
                ) by {
                    if j >= n + 1 {
                        assert(all[(j - 1 - n) + 1 + n] == behind[j - 1 - n]);
                    }
                }
                assert(first_with_path(all, p, k + 1 + n));
            } else {
                assert forall|j: int| 0 <= j < all.len() implies !local_path::same_path(
                    (#[trigger] all[j]).path,
                    p,
                ) by {
                    if j >= n + 1 {
                        assert(all[(j - 1 - n) + 1 + n] == behind[j - 1 - n]);
                    }
                }
            }
        }
    }
}

/// Putting a directory in the place of itself changes nothing; the directory that was put in a place
/// is found there; and of two that are put in the same place only the second counts.
pub proof fn lemma_replaced_dir_twice(dirs: Seq<DirView>, p: Seq<u8>, a: DirView, b: DirView)
    requires
        local_path::same_path(a.path, p),
    ensures
        found_dir(dirs, p) matches Some(dir) ==> replaced_dir(dirs, p, dir) == dirs,
        found_dir(dirs, p) is None ==> replaced_dir(dirs, p, b) == dirs,
        found_dir(dirs, p) is Some ==> found_dir(replaced_dir(dirs, p, a), p) == Some(a),
        replaced_dir(replaced_dir(dirs, p, a), p, b) == replaced_dir(dirs, p, b),
    decreases dirs,
{
    if dirs.len() > 0 {
        let rest = dirs.drop_first();
        let first = dirs[0];
        if let Some(children) = first.children {
            lemma_replaced_dir_twice(children, p, a, b);
        }
        lemma_replaced_dir_twice(rest, p, a, b);
        let once = replaced_dir(dirs, p, a);
        assert(seq![first] + rest =~= dirs);
        if local_path::same_path(first.path, p) {
            assert(once[0] == a);
            assert(once.drop_first() =~= rest);
        } else if reaches(first, p) {
            assert(once[0].path == first.path);
            assert(once.drop_first() =~= rest);
            if first.children is None {
                assert(inner(first) =~= Seq::<DirView>::empty());
            }
        } else {
            assert(once[0] == first);
            assert(once.drop_first() =~= replaced_dir(rest, p, a));
        }
    }
}

/// Reading a directory of the tree changes that directory and nothing else: putting back what stood
/// there gives the tree as it was.
pub proof fn lemma_tree_reading(t: LocalTreeView, p: Seq<u8>, listing: Option<Seq<EntryView>>)
    ensures
        found_dir(t.roots, p) is None ==> tree_loaded(t, p, listing) == t && tree_refreshed(
            t,
            p,
            listing,
        ) == t,
        tree_loaded(t, p, listing).home == t.home,
        tree_loaded(t, p, listing).mounts_root == t.mounts_root,
        tree_refreshed(t, p, listing).home == t.home,
        tree_refreshed(t, p, listing).mounts_root == t.mounts_root,
        found_dir(t.roots, p) matches Some(dir) ==> {
            &&& found_dir(tree_loaded(t, p, listing).roots, p) == Some(loaded(dir, listing))
            &&& found_dir(tree_refreshed(t, p, listing).roots, p) == Some(reloaded(dir, listing))
            &&& replaced_dir(tree_loaded(t, p, listing).roots, p, dir) == t.roots
            &&& replaced_dir(tree_refreshed(t, p, listing).roots, p, dir) == t.roots
        },
{
    if let Some(dir) = found_dir(t.roots, p) {
        lemma_found_dir_is_first(t.roots, p);
        lemma_replaced_dir_twice(t.roots, p, loaded(dir, listing), dir);
        lemma_replaced_dir_twice(t.roots, p, reloaded(dir, listing), dir);
    }
}

/// The item of a directory stands for its path. Below it are the items of the directories in it and
/// then its files, each with a box that shows whether the file is marked. A box stands before the
/// directory's name exactly where it holds audio files, and it is marked exactly where each of
/// these is.
pub proof fn lemma_directory_node(dir: DirView, marked: Seq<Seq<u8>>)
    ensures
        ({
            let node = directory_node(dir, marked);
            let n = inner(dir).len() as int;
            let has_audio = exists|i: int|
                0 <= i < dir.files.len() && audio::is_audio(#[trigger] dir.files[i]);
            let all_marked = forall|i: int|
                0 <= i < dir.files.len() && audio::is_audio(#[trigger] dir.files[i])
                    ==> local_path::has_path(marked, dir.files[i]);
            &&& node.id == dir.path
            &&& !has_audio ==> node.label == dir.name
            &&& has_audio ==> node.label == if all_marked {
                "[x] "@ + dir.name
            } else {
                "[ ] "@ + dir.name
            }
            &&& node.children.len() == n + dir.files.len()
            &&& forall|i: int|
                0 <= i < n ==> #[trigger] node.children[i] == directory_node(inner(dir)[i], marked)
            &&& forall|k: int|
                0 <= k < dir.files.len() ==> {
                    let item = #[trigger] node.children[n + k];
                    &&& item.id == dir.files[k]
                    &&& item.children.len() == 0
                    &&& item.label == if local_path::has_path(marked, dir.files[k]) {
                        "[x] "@ + last_text(dir.files[k], Seq::empty())
                    } else {
                        "[ ] "@ + last_text(dir.files[k], Seq::empty())
                    }
                }
        }),
{
    let node = directory_node(dir, marked);
    let n = inner(dir).len() as int;
    let test = |f: Seq<u8>| audio::is_audio(f);
    let files = audio_among(dir.files);
    seqs::lemma_filter_selects(dir.files, test);
    let at = choose|at: Seq<int>| seqs::selects(dir.files, files, test, at);
    lemma_boxed_text();
    if files.len() > 0 {
        assert(at.contains(at[0]));
        assert(audio::is_audio(dir.files[at[0]]));
        if local_path::has_paths(marked, files) {
            assert forall|i: int|
                0 <= i < dir.files.len() && audio::is_audio(
                    #[trigger] dir.files[i],
                ) implies local_path::has_path(marked, dir.files[i]) by {
                assert(test(dir.files[i]));
                let k = choose|k: int| 0 <= k < at.len() && at[k] == i;
                assert(files[k] == dir.files[i]);
            }
        } else {
            let k = choose|k: int|
                0 <= k < files.len() && !local_path::has_path(marked, #[trigger] files[k]);
            assert(at.contains(at[k]));
            assert(audio::is_audio(dir.files[at[k]]));
        }
    } else {
        assert forall|i: int| 0 <= i < dir.files.len() implies !audio::is_audio(
            #[trigger] dir.files[i],
        ) by {
            if test(dir.files[i]) {
                assert(at.contains(i));
            }
        }
    }
    assert forall|k: int| 0 <= k < dir.files.len() implies {
        let item = #[trigger] node.children[n + k];
        &&& item.id == dir.files[k]
        &&& item.children.len() == 0
        &&& item.label == if local_path::has_path(marked, dir.files[k]) {
            "[x] "@ + last_text(dir.files[k], Seq::empty())
        } else {
            "[ ] "@ + last_text(dir.files[k], Seq::empty())
        }
    } by {
        assert(node.children[n + k] == file_node(dir.files[k], marked));
    }
}

proof fn lemma_boxed_text()
    ensures
        forall|name: Seq<char>| #[trigger] boxed(true, name) == "[x] "@ + name,
        forall|name: Seq<char>| #[trigger] boxed(false, name) == "[ ] "@ + name,
{
    reveal_strlit("[x]");
    reveal_strlit("[ ]");
    reveal_strlit(" ");
    reveal_strlit("[x] ");
    reveal_strlit("[ ] ");
    assert forall|name: Seq<char>| #[trigger] boxed(true, name) == "[x] "@ + name by {
        assert(boxed(true, name) =~= "[x] "@ + name);
    }
    assert forall|name: Seq<char>| #[trigger] boxed(false, name) == "[ ] "@ + name by {
        assert(boxed(false, name) =~= "[ ] "@ + name);
    }
}

/// Volumes are the mounts that do not lie in the home directory, in their order.
pub open spec fn are_outside_home(
    kept: Seq<Seq<u8>>,
    mounts: Seq<Seq<u8>>,
    home: Seq<u8>,
) -> bool {
    seqs::is_selection(
        mounts,
        kept,
        |p: Seq<u8>| !path::components(home).is_prefix_of(path::components(p)),
    )
}

/// The tree starts with the mounted drives outside the home directory, in the order of the mounts,
/// each under its name and path, and then the home directory with what stands in it.
pub proof fn lemma_first_tree(home: Seq<u8>, entries: Seq<EntryView>, mountinfo: Seq<char>)
    ensures
        ({
            let t = first_tree(home, entries, mountinfo);
            &&& t.home == home
            &&& t.roots.len() == 2
            &&& t.roots[0].path == t.mounts_root
            &&& t.roots[0].name == "Mounted Drives"@
            &&& t.roots[0].files.len() == 0
            &&& t.roots[0].children is Some
            &&& exists|kept: Seq<Seq<u8>>| #[trigger]
                are_outside_home(kept, mounts_of(mountinfo), home) && t.roots[0].children->0.len()
                    == kept.len() && forall|i: int|
                    0 <= i < kept.len() ==> {
                        let drive = #[trigger] t.roots[0].children->0[i];
                        &&& drive.path == kept[i]
                        &&& drive.name == last_text(kept[i], "/"@) + " ("@ + path::lossy_text(
                            kept[i],
                        ) + ")"@
                        &&& drive.children is None
                        &&& drive.files.len() == 0
                    }
            &&& t.roots[1].path == home
            &&& t.roots[1].name == "Home"@ + " ("@ + path::lossy_text(home) + ")"@
            &&& t.roots[1].children == Some(listed_directories(entries))
            &&& t.roots[1].files == listed_files(entries)
        }),
{
    let test = |p: Seq<u8>| !local_path::lies_in(p, home);
    let outside = |p: Seq<u8>| !path::components(home).is_prefix_of(path::components(p));
    let mounts = mounts_of(mountinfo);
    let kept = mounts.filter(test);
    seqs::lemma_filter_selects(mounts, test);
    seqs::lemma_selection_by(mounts, kept, test, outside);
    assert(are_outside_home(kept, mounts, home));
    let drives = first_tree(home, entries, mountinfo).roots[0].children->0;
    assert(drives == kept.map_values(|p: Seq<u8>| volume(p)));
    assert forall|i: int| 0 <= i < kept.len() implies {
        let drive = #[trigger] drives[i];
        &&& drive.path == kept[i]
        &&& drive.name == last_text(kept[i], "/"@) + " ("@ + path::lossy_text(kept[i]) + ")"@
        &&& drive.children is None
        &&& drive.files.len() == 0
    } by {
        assert(drives[i] == volume(kept[i]));
    }
}

/// A line of the mount table names a mount where " - " stands in it and there are at least five
/// words before the first such mark and two behind it; where the second word behind it is a device
/// or the first a network file system; and where it is not the root. The mount is the fifth word,
/// its escapes undone.
pub proof fn lemma_mount_of_line(line: Seq<char>)
    ensures
        (match mount_of_line(line) {
            Some(mount) => exists|i: int|
                {
                    let before = text::words_of(line.take(i));
                    let behind = text::words_of(line.skip(i + 3));
                    &&& #[trigger] text::stands_at(line, " - "@, i)
                    &&& forall|j: int| 0 <= j < i ==> !#[trigger] text::stands_at(line, " - "@, j)
                    &&& names_mount(before, behind)
                    &&& mount == unescaped_field(before[4])
                },
            None => forall|i: int|
                {
                    let before = text::words_of(line.take(i));
                    let behind = text::words_of(line.skip(i + 3));
                    #[trigger] text::stands_at(line, " - "@, i) && (forall|j: int|
                        0 <= j < i ==> !#[trigger] text::stands_at(line, " - "@, j))
                        ==> !names_mount(before, behind)
                },
        }),
{
    text::lemma_index_of_text(line, " - "@);
    if let Some(i) = text::index_of_text(line, " - "@) {
        assert(text::stands_at(line, " - "@, i));
        assert forall|k: int|
            #[trigger] text::stands_at(line, " - "@, k) && (forall|j: int|
                0 <= j < k ==> !#[trigger] text::stands_at(line, " - "@, j)) implies k == i by {}
    }
}

/// The words of a line of the mount table name a mount that is shown.
pub open spec fn names_mount(before: Seq<Seq<char>>, behind: Seq<Seq<char>>) -> bool {
    &&& before.len() >= 5
    &&& behind.len() >= 2
    &&& before[4] != "/"@
    &&& {
        ||| text::starts_with(behind[1], "/dev/"@)
        ||| behind[0] == "cifs"@
        ||| behind[0] == "nfs"@
        ||| behind[0] == "nfs4"@
        ||| behind[0] == "smb3"@
        ||| behind[0] == "sshfs"@
        ||| text::starts_with(behind[0], "fuse.sshfs"@)
    }
}

/// A line gives a mount whose path is absolute and the same as `p`.
pub open spec fn gives_mount(line: Seq<char>, p: Seq<u8>) -> bool {
    mount_of_line(line) matches Some(mount) && vstd::utf8::encode_utf8(mount).len() > 0
        && vstd::utf8::encode_utf8(mount)[0] == 47 && local_path::same_path(
        vstd::utf8::encode_utf8(mount),
        p,
    )
}

/// The mounts are those of all lines of the table, each once, in the order of their names in lower
/// case.
pub proof fn lemma_mounts_are_those_of_lines(mountinfo: Seq<char>, p: Seq<u8>)
    ensures
        local_path::has_path(mounts_of(mountinfo), p) <==> exists|i: int|
            0 <= i < text::lines_of(mountinfo).len() && gives_mount(
                #[trigger] text::lines_of(mountinfo)[i],
                p,
            ),
        forall|i: int, j: int|
            0 <= i < j < mounts_of(mountinfo).len() ==> !order::lex_less(
                order::text_key(
                    text::lowercase(path::lossy_text(#[trigger] mounts_of(mountinfo)[j])),
                ),
                order::text_key(
                    text::lowercase(path::lossy_text(#[trigger] mounts_of(mountinfo)[i])),
                ),
            ),
{
    let lines = text::lines_of(mountinfo);
    let mounts = mounts_of_lines(lines);
    let keys = mounts.map_values(|q: Seq<u8>| name_order(path::lossy_text(q)));
    let all = mounts_of(mountinfo);
    lemma_mounts_by_line(lines, p);
    order::lemma_sorted_order(keys);
    let order = order::sorted_order(keys);
    assert forall|k: int| 0 <= k < all.len() implies #[trigger] all[k] == mounts[order[k]] by {}
    if local_path::has_path(all, p) {
        let k = choose|k: int| 0 <= k < all.len() && local_path::same_path(#[trigger] all[k], p);
        assert(local_path::same_path(mounts[order[k]], p));
    }
    if local_path::has_path(mounts, p) {
        let m = choose|m: int|
            0 <= m < mounts.len() && local_path::same_path(#[trigger] mounts[m], p);
        assert(order.contains(m));
        let k = choose|k: int| 0 <= k < order.len() && order[k] == m;
        assert(local_path::same_path(all[k], p));
    }
    assert forall|i: int, j: int| 0 <= i < j < all.len() implies !order::lex_less(
        order::text_key(text::lowercase(path::lossy_text(#[trigger] all[j]))),
        order::text_key(text::lowercase(path::lossy_text(#[trigger] all[i]))),
    ) by {
        assert(0 <= order[i] < keys.len() && 0 <= order[j] < keys.len());
        assert(keys[order[i]] == name_order(path::lossy_text(all[i])));
        assert(keys[order[j]] == name_order(path::lossy_text(all[j])));
    }
}

proof fn lemma_mounts_by_line(lines: Seq<Seq<char>>, p: Seq<u8>)
    ensures
        local_path::has_path(mounts_of_lines(lines), p) <==> exists|i: int|
            0 <= i < lines.len() && gives_mount(#[trigger] lines[i], p),
    decreases lines.len(),
{
    if lines.len() > 0 {
        let front = lines.drop_last();
        let last = lines.last();
        lemma_mounts_by_line(front, p);
        if let Some(mount) = mount_of_line(last) {
            local_path::lemma_with_path(
                mounts_of_lines(front),
                vstd::utf8::encode_utf8(mount),
                p,
            );
        }
        assert(local_path::has_path(mounts_of_lines(lines), p) <==> local_path::has_path(
            mounts_of_lines(front),
            p,
        ) || gives_mount(last, p));
        if exists|i: int| 0 <= i < front.len() && gives_mount(#[trigger] front[i], p) {
            let i = choose|i: int| 0 <= i < front.len() && gives_mount(#[trigger] front[i], p);
            assert(gives_mount(lines[i], p));
        }
        if gives_mount(last, p) {
            assert(gives_mount(lines[lines.len() - 1], p));
        }
        if exists|i: int| 0 <= i < lines.len() && gives_mount(#[trigger] lines[i], p) {
            let i = choose|i: int| 0 <= i < lines.len() && gives_mount(#[trigger] lines[i], p);
            if i < front.len() {
                assert(gives_mount(front[i], p));
            }
        }
    }
}

/// A mount point without a backslash is taken as it is written.
pub proof fn lemma_plain_field(value: Seq<char>)
    requires
        forall|i: int| 0 <= i < value.len() ==> #[trigger] value[i] != '\\',
    ensures
        unescaped_field(value) == value,
{
    reveal_strlit("\\040");
    reveal_strlit("\\011");
    reveal_strlit("\\012");
    reveal_strlit("\\134");
    lemma_holds_no_escape(value, "\\040"@);
    lemma_holds_no_escape(value, "\\011"@);
    lemma_holds_no_escape(value, "\\012"@);
    lemma_holds_no_escape(value, "\\134"@);
    text::lemma_replaced_nowhere(value, "\\040"@, " "@);
    text::lemma_replaced_nowhere(value, "\\011"@, "\t"@);
    text::lemma_replaced_nowhere(value, "\\012"@, "\n"@);
    text::lemma_replaced_nowhere(value, "\\134"@, "\\"@);
}

proof fn lemma_holds_no_escape(value: Seq<char>, escape: Seq<char>)
    requires
        escape.len() > 0,
        escape[0] == '\\',
        forall|i: int| 0 <= i < value.len() ==> #[trigger] value[i] != '\\',
    ensures
        forall|i: int| !#[trigger] text::stands_at(value, escape, i),
{
    assert forall|i: int| !#[trigger] text::stands_at(value, escape, i) by {
        if text::stands_at(value, escape, i) {
            assert(value.subrange(i, i + escape.len())[0] == value[i]);
        }
    }
}

/// An escape in a mount point stands for one character: a space, a tabulator, a line break or a
/// backslash.
pub proof fn lemma_escaped_field(before: Seq<char>, behind: Seq<char>)
    requires
        forall|i: int| 0 <= i < before.len() ==> #[trigger] before[i] != '\\',
        forall|i: int| 0 <= i < behind.len() ==> #[trigger] behind[i] != '\\',
    ensures
        unescaped_field(before + "\\040"@ + behind) == before + seq![' '] + behind,
        unescaped_field(before + "\\011"@ + behind) == before + seq!['\t'] + behind,
        unescaped_field(before + "\\012"@ + behind) == before + seq!['\n'] + behind,
        unescaped_field(before + "\\134"@ + behind) == before + seq!['\\'] + behind,
{
    reveal_strlit("\\040");
    reveal_strlit("\\011");
    reveal_strlit("\\012");
    reveal_strlit("\\134");
    reveal_strlit(" ");
    reveal_strlit("\t");
    reveal_strlit("\n");
    reveal_strlit("\\");
    assert(" "@ =~= seq![' ']);
    assert("\t"@ =~= seq!['\t']);
    assert("\n"@ =~= seq!['\n']);
    assert("\\"@ =~= seq!['\\']);
    let space = "\\040"@;
    let tab = "\\011"@;
    let feed = "\\012"@;
    let slash = "\\134"@;
    lemma_one_escape(before, space, behind, space, " "@);
    lemma_one_escape(before, tab, behind, tab, "\t"@);
    lemma_one_escape(before, feed, behind, feed, "\n"@);
    lemma_one_escape(before, slash, behind, slash, "\\"@);
    assert(space[2] != tab[2] && space[2] != feed[2] && space[1] != slash[1]);
    assert(tab[3] != feed[3] && tab[1] != slash[1] && feed[1] != slash[1]);
    lemma_one_escape(before, tab, behind, space, " "@);
    lemma_one_escape(before, feed, behind, space, " "@);
    lemma_one_escape(before, feed, behind, tab, "\t"@);
    lemma_one_escape(before, slash, behind, space, " "@);
    lemma_one_escape(before, slash, behind, tab, "\t"@);
    lemma_one_escape(before, slash, behind, feed, "\n"@);
    let a = before + " "@ + behind;
    let b = before + "\t"@ + behind;
    let c = before + "\n"@ + behind;
    lemma_holds_no_escape(a, tab);
    lemma_holds_no_escape(a, feed);
    lemma_holds_no_escape(a, slash);
    lemma_holds_no_escape(b, feed);
    lemma_holds_no_escape(b, slash);
    lemma_holds_no_escape(c, slash);
    text::lemma_replaced_nowhere(a, tab, "\t"@);
    text::lemma_replaced_nowhere(a, feed, "\n"@);
    text::lemma_replaced_nowhere(a, slash, "\\"@);
    text::lemma_replaced_nowhere(b, feed, "\n"@);
    text::lemma_replaced_nowhere(b, slash, "\\"@);
    text::lemma_replaced_nowhere(c, slash, "\\"@);
}

/// An escape between texts without a backslash is replaced where it is looked for, and stays where
/// another one is.
proof fn lemma_one_escape(
    before: Seq<char>,
    escape: Seq<char>,
    behind: Seq<char>,
    from: Seq<char>,
    to: Seq<char>,
)
    requires
        forall|i: int| 0 <= i < before.len() ==> #[trigger] before[i] != '\\',
        forall|i: int| 0 <= i < behind.len() ==> #[trigger] behind[i] != '\\',
        escape.len() == 4,
        from.len() == 4,
        from[0] == '\\',
        escape[0] == '\\',
        forall|i: int| 0 < i < 4 ==> #[trigger] escape[i] != '\\',
    ensures
        text::replaced(before + escape + behind, from, to) == if from == escape {
            before + to + behind
        } else {
            before + escape + behind
        },
{
    let s = before + escape + behind;
    let n = before.len() as int;
    assert forall|i: int| 0 <= i < s.len() && i != n implies #[trigger] s[i] != '\\' by {
        if n < i < n + 4 {
            assert(s[i] == escape[i - n]);
        }
    }
    assert forall|i: int| i != n implies !#[trigger] text::stands_at(s, from, i) by {
        if text::stands_at(s, from, i) {
            assert(s.subrange(i, i + 4)[0] == s[i]);
        }
    }
    if from == escape {
        text::lemma_replaced_first(before, from, to, behind);
        lemma_holds_no_escape(behind, from);
        text::lemma_replaced_nowhere(behind, from, to);
    } else {
        assert(!text::stands_at(s, from, n)) by {
            assert(s.subrange(n, n + 4) =~= escape);
        }
        text::lemma_replaced_nowhere(s, from, to);
    }
}

/// The items at the top stand for the directories at the top, in their order.
pub proof fn lemma_directory_nodes(dirs: Seq<DirView>, marked: Seq<Seq<u8>>)
    ensures
        directory_nodes(dirs, marked).len() == dirs.len(),
        forall|i: int|
            0 <= i < dirs.len() ==> #[trigger] directory_nodes(dirs, marked)[i] == directory_node(
                dirs[i],
                marked,
            ),
{
}

/// Without a home directory the root takes its place.
pub proof fn lemma_home_or_root(home: Option<Seq<u8>>)
    ensures
        home matches Some(p) ==> home_or_root(home) == p,
        home is None ==> path::components(home_or_root(home)) == seq![path::Component::<u8>::Root],
{
    let root = vstd::utf8::encode_utf8("/"@);
    lemma_root_spelling();
    let rest = root.drop_first();
    assert(path::relative_components(rest, false) =~= Seq::<path::Component<u8>>::empty());
    assert(path::components(root) =~= seq![path::Component::<u8>::Root]);
}

proof fn lemma_root_spelling()
    ensures
        vstd::utf8::encode_utf8("/"@) == seq![47u8],
{
    reveal_strlit("/");
    let s = "/"@;
    reveal_with_fuel(vstd::utf8::encode_utf8, 2);
    assert(s.drop_first() =~= Seq::<char>::empty());
    assert((47u32 & 0x7f) as u8 == 47) by (bit_vector);
    assert(s[0] as u32 == 47);
    assert(vstd::utf8::encode_utf8(s) =~= seq![47u8]);
}

} // verus!
