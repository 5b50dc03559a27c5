use zunetui::browser::{
    album_audio_files, home_directory, is_network_filesystem, mounted_volumes_from,
    unescape_mount_field, DirEntry, EntryKind, LocalTree,
};
use zunetui::local_path::{LocalPath, PathSet};
use zunetui::text::is_white_space;
use zunetui::tree::{flatten, TreeNode};

fn path(text: &str) -> LocalPath {
    LocalPath::from_text(text)
}

fn file(text: &str) -> DirEntry {
    DirEntry { path: path(text), kind: EntryKind::File }
}

fn directory(text: &str) -> DirEntry {
    DirEntry { path: path(text), kind: EntryKind::Directory }
}

fn labels(nodes: &[TreeNode<LocalPath>]) -> Vec<String> {
    nodes.iter().map(|node| node.label.clone()).collect()
}

#[test]
fn album_audio_files_accepts_any_folder_with_audio_files() {
    let album = Some(vec![file("/A/Artist/Album/song.mp3"), file("/A/Artist/Album/cover.jpg")]);
    assert_eq!(album_audio_files(&album).unwrap(), vec![path("/A/Artist/Album/song.mp3")]);

    let loose = Some(vec![file("/Music/_Country/Jake Owen/American Love/song.mp3")]);
    assert_eq!(
        album_audio_files(&loose).unwrap(),
        vec![path("/Music/_Country/Jake Owen/American Love/song.mp3")]
    );

    let empty = Some(vec![directory("/Music/_Country/Jake Owen/American Love")]);
    assert!(album_audio_files(&empty).is_none());
    assert!(album_audio_files(&None).is_none());
}

#[test]
fn audio_files_come_in_the_order_of_their_paths() {
    let listing = Some(vec![
        file("/m/b.MP3"),
        file("/m/B.ogg"),
        file("/m/a.flac"),
        directory("/m/a.mp3"),
        DirEntry { path: path("/m/link.mp3"), kind: EntryKind::Other },
        DirEntry {
            path: LocalPath::from_bytes(b"/m/odd.mp\xff".to_vec()),
            kind: EntryKind::File,
        },
    ]);
    assert_eq!(
        album_audio_files(&listing).unwrap(),
        vec![path("/m/B.ogg"), path("/m/a.flac"), path("/m/b.MP3")]
    );
}

#[test]
fn mounted_volumes_selects_storage_and_unescapes_paths() {
    let mountinfo = "36 25 0:32 / /proc rw - proc proc rw\n\
                     37 25 8:1 / / rw - ext4 /dev/sda1 rw\n\
                     38 25 8:17 / /run/media/me/My\\040Music rw - exfat /dev/sdb1 rw\n\
                     39 25 0:48 / /mnt/server rw - nfs4 server:/music rw\n";
    assert_eq!(
        mounted_volumes_from(mountinfo),
        vec![path("/mnt/server"), path("/run/media/me/My Music")]
    );
}

#[test]
fn mounts_are_absolute_and_listed_once() {
    let mountinfo = "1 2 3 / /b rw - ext4 /dev/a rw\n\
                     1 2 3 / /b/ rw - ext4 /dev/b rw\n\
                     1 2 3 / relative rw - ext4 /dev/c rw\n\
                     1 2 3 / /A rw - fuse.sshfs-x host rw\n\
                     too short - ext4 /dev/d\n\
                     no separator at all\n";
    assert_eq!(mounted_volumes_from(mountinfo), vec![path("/A"), path("/b")]);
}

#[test]
fn mount_fields_are_unescaped() {
    assert_eq!(unescape_mount_field("a\\040b\\011c\\012d\\134e"), "a b\tc\nd\\e");
    assert!(is_network_filesystem("cifs"));
    assert!(is_network_filesystem("fuse.sshfs"));
    assert!(!is_network_filesystem("ext4"));
}

#[test]
fn home_tree_lists_volumes_and_home() {
    let mountinfo = "1 2 3 / /mnt/stick rw - vfat /dev/a rw\n\
                     1 2 3 / /home/me/inner rw - vfat /dev/b rw\n";
    let mut tree = LocalTree::home(
        path("/home/me"),
        vec![file("/home/me/b.mp3"), directory("/home/me/Zoo"), directory("/home/me/alpha")],
        mountinfo,
    );
    assert_eq!(tree.root_path(), path("/home/me"));
    assert_eq!(tree.mounts_root_path(), path("zunetui://mounted-drives"));
    let mut marks = PathSet::new();
    let items = tree.items(&marks);
    assert_eq!(labels(&items), ["Mounted Drives", "[ ] Home (/home/me)"]);
    assert_eq!(labels(&items[0].children), ["stick (/mnt/stick)"]);
    assert_eq!(labels(&items[1].children), ["alpha", "Zoo", "[ ] b.mp3"]);

    marks.insert(path("/home/me/b.mp3"));
    let items = tree.items(&marks);
    assert_eq!(items[1].label, "[x] Home (/home/me)");
    assert_eq!(items[1].children[2].label, "[x] b.mp3");

    assert!(tree.wants_listing(&path("/home/me/alpha")));
    tree.load(&path("/home/me/alpha"), &Some(vec![file("/home/me/alpha/x.txt")]));
    assert!(!tree.wants_listing(&path("/home/me/alpha")));
    assert!(!tree.wants_listing(&path("/nowhere")));
    tree.load(&path("/home/me/alpha"), &Some(Vec::new()));
    let items = tree.items(&marks);
    assert_eq!(labels(&items[1].children[0].children), ["[ ] x.txt"]);

    tree.refresh(&path("/home/me/alpha"), &Some(vec![file("/home/me/alpha/y.txt")]));
    let items = tree.items(&marks);
    assert_eq!(labels(&items[1].children[0].children), ["[ ] y.txt"]);
    tree.refresh(&path("/home/me/alpha"), &None);
    let items = tree.items(&marks);
    assert_eq!(items[1].children[0].children.len(), 0);
}

#[test]
fn home_defaults_to_the_root() {
    assert_eq!(home_directory(None), path("/"));
    assert_eq!(home_directory(Some(path("/x"))), path("/x"));
}

#[test]
fn only_open_items_are_walked() {
    let leaf = |id: &str| TreeNode { id: path(id), label: String::new(), children: Vec::new() };
    let nodes = vec![
        TreeNode {
            id: path("/a"),
            label: String::new(),
            children: vec![
                TreeNode { id: path("/a/b"), label: String::new(), children: vec![leaf("/a/b/c")] },
                leaf("/a/d"),
            ],
        },
        leaf("/e"),
    ];
    let opened = vec![vec![path("/a")], vec![path("/a"), path("/a/b")]];
    assert_eq!(flatten(&nodes, &Vec::new(), &Vec::new()), vec![path("/a"), path("/e")]);
    assert_eq!(
        flatten(&nodes, &opened, &Vec::new()),
        vec![path("/a"), path("/a/b"), path("/a/b/c"), path("/a/d"), path("/e")]
    );
}

#[test]
fn paths_are_compared_by_their_components() {
    assert_eq!(path("/a//b/./c/"), path("/a/b/c"));
    assert_ne!(path("./a"), path("a"));
    assert_ne!(path("/a/../b"), path("/b"));
    assert!(path("/a/b/c").starts_with(&path("/a/b/")));
    assert!(!path("/a/bc").starts_with(&path("/a/b")));
    for text in ["", "/", "a", "./a/..", "//x/./y", "../z/."] {
        for other in ["", "/", "a", ".", "/x/y", "..", "a/."] {
            let same = std::path::Path::new(text) == std::path::Path::new(other);
            assert_eq!(path(text) == path(other), same, "{text} {other}");
            let inside = std::path::Path::new(text).starts_with(other);
            assert_eq!(path(text).starts_with(&path(other)), inside, "{text} {other}");
            let joined = std::path::Path::new(text).join(other);
            assert_eq!(path(text).join(&path(other)).display(), joined.display().to_string());
        }
    }
}

#[test]
fn paths_that_are_not_utf8_are_shown_with_a_replacement() {
    let odd = LocalPath::from_bytes(b"/music/f\xffo".to_vec());
    assert_eq!(odd.display(), "/music/f\u{fffd}o");
    assert_eq!(odd.name(), "f\u{fffd}o");
    assert_eq!(path("/music/Bj\u{f6}rk").name(), "Bj\u{f6}rk");
    assert_eq!(path("/").name(), "");
}

#[test]
fn path_sets_hold_each_path_once() {
    let mut set = PathSet::new();
    assert!(set.is_empty());
    set.insert(path("/a"));
    set.insert(path("/a/"));
    set.insert(path("/b"));
    assert_eq!(set.to_paths(), vec![path("/a"), path("/b")]);
    assert!(set.contains_all(&vec![path("/b"), path("/a")]));
    set.remove(&path("//a"));
    assert!(!set.contains(&path("/a")));
    assert!(set.contains(&path("/b")));
    set.insert_all(&vec![path("/c"), path("/b")]);
    set.remove_all(&vec![path("/b"), path("/x")]);
    assert_eq!(set.to_paths(), vec![path("/c")]);
    set.clear();
    assert!(set.is_empty());
}

#[test]
fn white_space_is_that_of_unicode() {
    for number in 0..=0x10ffff_u32 {
        if let Some(c) = char::from_u32(number) {
            assert_eq!(is_white_space(c), c.is_whitespace(), "{number:x}");
        }
    }
}
