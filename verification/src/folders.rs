//! The device's folder tree: how folders are found, named and emptied.
use vstd::prelude::*;

use crate::device;
use crate::device::{Device, Folder, FolderView};
use crate::seqs;
use crate::text;
use crate::text::{
    chars_of, continues_with, copy_text, part_of, same_chars, same_ignoring_ascii_case,
    str_to_lowercase, string_of,
};

verus! {

// ---------------------------------------------------------------------------
// Finding folders
// ---------------------------------------------------------------------------

/// The first folder with the given id, parents before their children.
pub open spec fn found(folders: Seq<FolderView>, id: u32) -> Option<FolderView>
    decreases folders,
{
    if folders.len() == 0 {
        None
    } else if folders[0].id == id {
        Some(folders[0])
    } else {
        match found(folders[0].children, id) {
            Some(folder) => Some(folder),
            None => found(folders.drop_first(), id),
        }
    }
}

/// The folders from the top down to the first folder with the given id.
pub open spec fn path_to(folders: Seq<FolderView>, id: u32) -> Option<Seq<FolderView>>
    decreases folders,
{
    if folders.len() == 0 {
        None
    } else if folders[0].id == id {
        Some(seq![folders[0]])
    } else {
        match path_to(folders[0].children, id) {
            Some(path) => Some(seq![folders[0]] + path),
            None => path_to(folders.drop_first(), id),
        }
    }
}

/// The tree with another folder in place of the first folder with the given id.
pub open spec fn replaced(folders: Seq<FolderView>, id: u32, new: FolderView) -> Seq<FolderView>
    decreases folders,
{
    if folders.len() == 0 {
        folders
    } else if folders[0].id == id {
        seq![new] + folders.drop_first()
    } else if found(folders[0].children, id) is Some {
        let first = FolderView {
            children: replaced(folders[0].children, id, new),
            ..folders[0]
        };
        seq![first] + folders.drop_first()
    } else {
        seq![folders[0]] + replaced(folders.drop_first(), id, new)
    }
}

/// The path to a folder ends with that folder, and it is there exactly where the folder is.
pub proof fn lemma_path_ends_at_folder(folders: Seq<FolderView>, id: u32)
    ensures
        path_to(folders, id) is Some == found(folders, id) is Some,
        path_to(folders, id) matches Some(path) ==> path.len() > 0 && found(folders, id) == Some(
            path.last(),
        ),
        found(folders, id) matches Some(folder) ==> folder.id == id,
    decreases folders,
{
    if folders.len() > 0 && folders[0].id != id {
        lemma_path_ends_at_folder(folders[0].children, id);
        lemma_path_ends_at_folder(folders.drop_first(), id);
    }
}

/// A folder that is put in the place of one with its id and name is found in its stead, and the
/// names on the path to it stay.
pub proof fn lemma_replaced_is_found(folders: Seq<FolderView>, id: u32, new: FolderView)
    requires
        found(folders, id) matches Some(folder) && new.id == folder.id && new.name == folder.name,
    ensures
        found(replaced(folders, id, new), id) == Some(new),
        path_to(folders, id) matches Some(path) && path_to(replaced(folders, id, new), id) matches Some(
            now,
        ) && now.len() == path.len() && now.last() == new && forall|i: int|
            0 <= i < path.len() ==> (#[trigger] now[i]).name == path[i].name,
    decreases folders,
{
    lemma_path_ends_at_folder(folders, id);
    let changed = replaced(folders, id, new);
    if folders[0].id == id {
        assert(changed[0] == new);
        assert(path_to(changed, id) == Some(seq![new]));
    } else if found(folders[0].children, id) is Some {
        lemma_replaced_is_found(folders[0].children, id, new);
        lemma_path_ends_at_folder(folders[0].children, id);
        assert(changed[0].id == folders[0].id);
        assert(changed[0].children == replaced(folders[0].children, id, new));
        let inner = path_to(folders[0].children, id)->0;
        let inner_now = path_to(changed[0].children, id)->0;
        let path = path_to(folders, id)->0;
        let now = path_to(changed, id)->0;
        assert(path =~= seq![folders[0]] + inner);
        assert(now =~= seq![changed[0]] + inner_now);
        assert forall|i: int| 0 <= i < path.len() implies (#[trigger] now[i]).name
            == path[i].name by {
            if i > 0 {
                assert(now[i] == inner_now[i - 1]);
                assert(path[i] == inner[i - 1]);
            }
        }
    } else {
        lemma_path_ends_at_folder(folders[0].children, id);
        lemma_replaced_is_found(folders.drop_first(), id, new);
        assert(changed[0] == folders[0]);
        assert(changed.drop_first() =~= replaced(folders.drop_first(), id, new));
    }
}

/// A folder of a tree, at any depth.
pub open spec fn within(folders: Seq<FolderView>, folder: FolderView) -> bool
    decreases folders,
{
    folders.len() > 0 && (folders[0] == folder || within(folders[0].children, folder) || within(
        folders.drop_first(),
        folder,
    ))
}

/// The folder that is found stands in the tree.
pub proof fn lemma_found_within(folders: Seq<FolderView>, id: u32)
    ensures
        found(folders, id) matches Some(folder) ==> within(folders, folder),
    decreases folders,
{
    if folders.len() > 0 && folders[0].id != id {
        lemma_found_within(folders[0].children, id);
        lemma_found_within(folders.drop_first(), id);
    }
}

/// The first folder with the given id.
pub fn find_folder_ref(folders: &Vec<Folder>, target: u32) -> (r: Option<&Folder>)
    ensures
        (match r {
            Some(folder) => found(device::folder_views(folders@), target) == Some(folder@),
            None => found(device::folder_views(folders@), target) is None,
        }),
    decreases folders@,
{
    let ghost all = device::folder_views(folders@);
    let mut i: usize = 0;
    assert(all.skip(0) == all);
    while i < folders.len()
        invariant
            i <= folders@.len(),
            all == device::folder_views(folders@),
            found(all, target) == found(all.skip(i as int), target),
        decreases folders@.len() - i,
    {
        let folder = &folders[i];
        proof {
            assert(all.skip(i as int)[0] == device::folder_view(folders@[i as int]));
            assert(all.skip(i as int).drop_first() == all.skip(i + 1));
        }
        if folder.id == target {
            return Some(folder);
        }
        if let Some(inner) = find_folder_ref(&folder.children, target) {
            return Some(inner);
        }
        i = i + 1;
    }
    None
}

/// The folders that a path of references holds.
pub open spec fn ref_views(path: Seq<&Folder>) -> Seq<FolderView> {
    path.map_values(|f: &Folder| device::folder_view(*f))
}

/// The folders from the top down to the first folder with the given id.
pub fn folder_path(folders: &Vec<Folder>, target: u32) -> (r: Option<Vec<&Folder>>)
    ensures
        (match r {
            Some(path) => path_to(device::folder_views(folders@), target) == Some(
                ref_views(path@),
            ),
            None => path_to(device::folder_views(folders@), target) is None,
        }),
    decreases folders@,
{
    let ghost all = device::folder_views(folders@);
    let mut i: usize = 0;
    assert(all.skip(0) == all);
    while i < folders.len()
        invariant
            i <= folders@.len(),
            all == device::folder_views(folders@),
            path_to(all, target) == path_to(all.skip(i as int), target),
        decreases folders@.len() - i,
    {
        let folder = &folders[i];
        proof {
            assert(all.skip(i as int)[0] == device::folder_view(folders@[i as int]));
            assert(all.skip(i as int).drop_first() == all.skip(i + 1));
        }
        if folder.id == target {
            let mut path: Vec<&Folder> = Vec::new();
            path.push(folder);
            assert(ref_views(path@) == seq![device::folder_view(*folder)]);
            return Some(path);
        }
        if let Some(inner) = folder_path(&folder.children, target) {
            let ghost below = ref_views(inner@);
            let mut path = inner;
            path.insert(0, folder);
            assert(ref_views(path@) == seq![device::folder_view(*folder)] + below);
            return Some(path);
        }
        i = i + 1;
    }
    None
}

/// What replacing a folder does where it lies in the folder at index `i`.
proof fn lemma_replaced_at(folders: Seq<FolderView>, i: int, id: u32, new: FolderView)
    requires
        0 <= i < folders.len(),
        forall|j: int|
            0 <= j < i ==> (#[trigger] folders[j]).id != id && found(folders[j].children, id) is None,
        folders[i].id == id || found(folders[i].children, id) is Some,
    ensures
        replaced(folders, id, new) == folders.update(
            i,
            if folders[i].id == id {
                new
            } else {
                FolderView { children: replaced(folders[i].children, id, new), ..folders[i] }
            },
        ),
        found(folders, id) == if folders[i].id == id {
            Some(folders[i])
        } else {
            found(folders[i].children, id)
        },
    decreases i,
{
    if i > 0 {
        let rest = folders.drop_first();
        assert forall|j: int| 0 <= j < i - 1 implies (#[trigger] rest[j]).id != id && found(
            rest[j].children,
            id,
        ) is None by {
            assert(rest[j] == folders[j + 1]);
        }
        assert(folders[0].id != id);
        lemma_replaced_at(rest, i - 1, id, new);
    }
    assert(replaced(folders, id, new) =~= folders.update(
        i,
        if folders[i].id == id {
            new
        } else {
            FolderView { children: replaced(folders[i].children, id, new), ..folders[i] }
        },
    ));
}

/// The first folder with the given id, to be changed.
pub fn find_folder_mut(folders: &mut Vec<Folder>, target: u32) -> (r: Option<&mut Folder>)
    ensures
        (match r {
            Some(folder) => found(device::folder_views(old(folders)@), target) == Some(
                device::folder_view(*folder),
            ) && device::folder_views(final(folders)@) == replaced(
                device::folder_views(old(folders)@),
                target,
                device::folder_view(*final(folder)),
            ),
            None => found(device::folder_views(old(folders)@), target) is None && *final(folders)
                == *old(folders),
        }),
    decreases old(folders)@,
{
    let ghost all = device::folder_views(folders@);
    let mut i: usize = 0;
    assert(all.skip(0) == all);
    while i < folders.len() && folders[i].id != target && find_folder_ref(
        &folders[i].children,
        target,
    ).is_none()
        invariant
            i <= folders@.len(),
            *folders == *old(folders),
            all == device::folder_views(folders@),
            found(all, target) == found(all.skip(i as int), target),
            forall|j: int|
                0 <= j < i ==> (#[trigger] all[j]).id != target && found(
                    all[j].children,
                    target,
                ) is None,
        decreases folders@.len() - i,
    {
        proof {
            assert(all[i as int] == device::folder_view(folders@[i as int]));
            assert(all.skip(i as int)[0] == all[i as int]);
            assert(all.skip(i as int).drop_first() == all.skip(i + 1));
        }
        i = i + 1;
    }
    if i == folders.len() {
        assert(all.skip(i as int).len() == 0);
        return None;
    }
    proof {
        assert(all[i as int] == device::folder_view(folders@[i as int]));
        assert forall|new: FolderView| #[trigger] replaced(all, target, new) == all.update(
            i as int,
            if all[i as int].id == target {
                new
            } else {
                FolderView {
                    children: replaced(all[i as int].children, target, new),
                    ..all[i as int]
                }
            },
        ) by {
            lemma_replaced_at(all, i as int, target, new);
        }
        lemma_replaced_at(all, i as int, target, all[i as int]);
    }
    if folders[i].id == target {
        Some(&mut folders[i])
    } else {
        find_folder_mut(&mut folders[i].children, target)
    }
}

// ---------------------------------------------------------------------------
// Names
// ---------------------------------------------------------------------------

/// The name of a folder is "Music", in whatever case.
pub open spec fn is_music(folder: FolderView) -> bool {
    text::eq_ignoring_ascii_case(folder.name, "Music"@)
}

/// Whether a folder is named "Music", in whatever case.
pub(crate) fn is_music_folder(folder: &Folder) -> (r: bool)
    ensures
        r == is_music(folder@),
{
    same_ignoring_ascii_case(&folder.name, "Music")
}

/// A text without "the " at its start.
pub open spec fn without_the(s: Seq<char>) -> Seq<char> {
    if text::starts_with(s, "the "@) {
        s.skip(4)
    } else {
        s
    }
}

/// The name that folders and artists are compared by: in lower case, without "the " at its start.
pub open spec fn normalized(name: Seq<char>) -> Seq<char> {
    without_the(text::lowercase(name))
}

/// A name without "the " at its start, in whatever case.
pub open spec fn dropped_the(name: Seq<char>) -> Seq<char> {
    if name.len() >= 4 && text::eq_ignoring_ascii_case(name.take(4), "the "@) {
        name.skip(4)
    } else {
        name
    }
}

/// The name that folders and artists are compared by.
pub fn normalized_folder_name(name: &str) -> (r: String)
    ensures
        r@ == normalized(name@),
{
    let lower = str_to_lowercase(name);
    let chars = chars_of(&lower);
    let the = chars_of("the ");
    proof {
        reveal_strlit("the ");
        assert(chars@.skip(0) == chars@);
    }
    if continues_with(&chars, 0, &the) {
        let rest = part_of(&chars, 4, chars.len());
        assert(rest@ == chars@.skip(4));
        string_of(&rest)
    } else {
        lower
    }
}

/// Whether two names are those of one artist: the case and a leading "the " do not count.
pub fn same_artist_name(a: &str, b: &str) -> (r: bool)
    ensures
        r == (normalized(a@) == normalized(b@)),
{
    let x = chars_of(&normalized_folder_name(a));
    let y = chars_of(&normalized_folder_name(b));
    same_chars(&x, &y)
}

/// A name without "the " at its start, in whatever case.
pub fn name_without_leading_the(name: &str) -> (r: String)
    ensures
        r@ == dropped_the(name@),
{
    let chars = chars_of(name);
    proof {
        reveal_strlit("the ");
    }
    if chars.len() >= 4 {
        let head = part_of(&chars, 0, 4);
        assert(head@ == chars@.take(4));
        if same_ignoring_ascii_case(&string_of(&head), "the ") {
            let rest = part_of(&chars, 4, chars.len());
            assert(rest@ == chars@.skip(4));
            return string_of(&rest);
        }
    }
    string_of(&chars)
}

/// The index of the first folder whose name is compared as equal to `wanted`.
pub open spec fn matching_index(folders: Seq<FolderView>, wanted: Seq<char>) -> Option<nat>
    decreases folders.len(),
{
    if folders.len() == 0 {
        None
    } else if normalized(folders[0].name) == normalized(wanted) {
        Some(0)
    } else {
        match matching_index(folders.drop_first(), wanted) {
            Some(i) => Some(1 + i),
            None => None,
        }
    }
}

/// The index of a matching folder is the first one that matches.
pub proof fn lemma_matching_index(folders: Seq<FolderView>, wanted: Seq<char>)
    ensures
        (match matching_index(folders, wanted) {
            Some(i) => i < folders.len() && normalized(folders[i as int].name) == normalized(wanted)
                && forall|j: int|
                0 <= j < i ==> normalized((#[trigger] folders[j]).name) != normalized(wanted),
            None => forall|j: int|
                0 <= j < folders.len() ==> normalized((#[trigger] folders[j]).name) != normalized(
                    wanted,
                ),
        }),
    decreases folders.len(),
{
    if folders.len() > 0 && normalized(folders[0].name) != normalized(wanted) {
        let rest = folders.drop_first();
        lemma_matching_index(rest, wanted);
        assert forall|j: int|
            0 < j < folders.len() && normalized((#[trigger] folders[j]).name) == normalized(
                wanted,
            ) implies normalized(rest[j - 1].name) == normalized(wanted) by {}
    }
}

/// The index of the first folder whose name is compared as equal to `wanted`.
pub fn matching_folder_index(folders: &Vec<Folder>, wanted: &str) -> (r: Option<usize>)
    ensures
        (match r {
            Some(i) => matching_index(device::folder_views(folders@), wanted@) == Some(i as nat),
            None => matching_index(device::folder_views(folders@), wanted@) is None,
        }),
        r matches Some(i) ==> i < folders@.len(),
{
    let ghost all = device::folder_views(folders@);
    let wanted_name = chars_of(&normalized_folder_name(wanted));
    let mut i: usize = 0;
    assert(all.skip(0) == all);
    while i < folders.len()
        invariant
            i <= folders@.len(),
            all == device::folder_views(folders@),
            wanted_name@ == normalized(wanted@),
            matching_index(all, wanted@) == (match matching_index(all.skip(i as int), wanted@) {
                Some(k) => Some((i + k) as nat),
                None => None,
            }),
        decreases folders@.len() - i,
    {
        proof {
            assert(all.skip(i as int)[0] == device::folder_view(folders@[i as int]));
            assert(all.skip(i as int).drop_first() == all.skip(i + 1));
        }
        let name = chars_of(&normalized_folder_name(&folders[i].name));
        if same_chars(&name, &wanted_name) {
            return Some(i);
        }
        i = i + 1;
    }
    None
}

/// The name that a folder is created under is compared as equal to the name it is created for.
pub open spec fn is_found_again(name: Seq<char>) -> bool {
    normalized(dropped_the(name)) == normalized(name)
}

/// A folder is found again by an ASCII name unless what follows a leading "the " starts with
/// another one.
pub proof fn lemma_created_name_matches(name: Seq<char>)
    requires
        text::is_ascii_text(name),
        dropped_the(dropped_the(name)) == dropped_the(name),
    ensures
        is_found_again(name),
{
    reveal_strlit("the ");
    let lower = text::ascii_lower_text(name);
    lemma_ascii_dropped_the(name);
    let rest = dropped_the(name);
    assert(text::is_ascii_text(rest)) by {
        assert forall|i: int| 0 <= i < rest.len() implies (#[trigger] rest[i]) as u32 <= 127 by {
            if rest != name {
                assert(rest[i] == name[i + 4]);
            } else {
                assert(rest[i] == name[i]);
            }
        }
    }
    lemma_ascii_dropped_the(rest);
    assert(text::ascii_lower_text(rest) =~= without_the(lower));
}

/// An ASCII name starts with "the " in whatever case exactly where its lower case starts with it.
proof fn lemma_ascii_dropped_the(name: Seq<char>)
    requires
        text::is_ascii_text(name),
    ensures
        text::lowercase(name) == text::ascii_lower_text(name),
        text::ascii_lower_text(dropped_the(name)) == without_the(text::ascii_lower_text(name)),
        dropped_the(name) != name ==> text::starts_with(text::ascii_lower_text(name), "the "@),
        text::starts_with(text::ascii_lower_text(name), "the "@) ==> dropped_the(name)
            == name.skip(4) && name.len() >= 4,
{
    reveal_strlit("the ");
    let lower = text::ascii_lower_text(name);
    let the = "the "@;
    assert(text::ascii_lower_text(the) =~= the);
    if name.len() >= 4 {
        assert(text::ascii_lower_text(name.take(4)) =~= lower.take(4));
        assert(text::ascii_lower_text(name.skip(4)) =~= lower.skip(4));
    }
}

/// ASCII names that differ only in case are those of one artist, and a leading "the " does not
/// count unless another one follows it.
pub proof fn lemma_same_artist(a: Seq<char>, b: Seq<char>)
    requires
        text::is_ascii_text(a),
        text::is_ascii_text(b),
        text::eq_ignoring_ascii_case(a, b),
    ensures
        normalized(a) == normalized(b),
        dropped_the(a) == a ==> normalized("The "@ + a) == normalized(b),
{
    reveal_strlit("the ");
    reveal_strlit("The ");
    lemma_ascii_dropped_the(a);
    lemma_ascii_dropped_the(b);
    if dropped_the(a) == a {
        let with = "The "@ + a;
        assert forall|i: int| 0 <= i < with.len() implies (#[trigger] with[i]) as u32 <= 127 by {
            if i >= 4 {
                assert(with[i] == a[i - 4]);
            }
        }
        lemma_ascii_dropped_the(with);
        assert(text::ascii_lower_text(with.take(4)) =~= "the "@);
        assert(text::ascii_lower_text("the "@) =~= "the "@);
        assert(with.skip(4) =~= a);
        assert(dropped_the(with) == a);
    }
}

// ---------------------------------------------------------------------------
// Where an upload was asked to go
// ---------------------------------------------------------------------------

/// What a picked folder says of the destination of an upload.
#[derive(Debug, Clone, Copy, PartialEq, Eq, Structural)]
pub enum ExplicitDestination {
    /// An album folder, that is Music/Artist/Album: the upload goes into it as it is.
    Album { folder_id: u32, storage_id: u32 },
    /// An artist folder, that is Music/Artist: only the album is looked up below it.
    Artist { artist_folder_id: u32, storage_id: u32 },
    /// Any other folder: the tags decide.
    Unspecified,
}

/// The index of the first folder of a path that is named "Music"; the length where none is.
pub open spec fn music_index(path: Seq<FolderView>) -> nat
    decreases path.len(),
{
    if path.len() == 0 || is_music(path[0]) {
        0
    } else {
        1 + music_index(path.drop_first())
    }
}

/// Which folder of a path is named "Music" depends on the names alone.
pub proof fn lemma_music_index_by_names(path: Seq<FolderView>, other: Seq<FolderView>)
    requires
        path.len() == other.len(),
        forall|i: int| 0 <= i < path.len() ==> (#[trigger] other[i]).name == path[i].name,
    ensures
        music_index(other) == music_index(path),
        music_index(path) <= path.len(),
    decreases path.len(),
{
    if path.len() > 0 {
        assert(other[0].name == path[0].name);
        let rest = path.drop_first();
        let other_rest = other.drop_first();
        assert forall|i: int| 0 <= i < rest.len() implies (#[trigger] other_rest[i]).name
            == rest[i].name by {
            assert(other[i + 1].name == path[i + 1].name);
        }
        lemma_music_index_by_names(rest, other_rest);
    }
}

/// Which folder matches a name depends on the names alone.
pub proof fn lemma_matching_index_by_names(
    folders: Seq<FolderView>,
    other: Seq<FolderView>,
    wanted: Seq<char>,
)
    requires
        folders.len() == other.len(),
        forall|i: int| 0 <= i < folders.len() ==> (#[trigger] other[i]).name == folders[i].name,
    ensures
        matching_index(other, wanted) == matching_index(folders, wanted),
    decreases folders.len(),
{
    if folders.len() > 0 {
        assert(other[0].name == folders[0].name);
        let rest = folders.drop_first();
        let other_rest = other.drop_first();
        assert forall|i: int| 0 <= i < rest.len() implies (#[trigger] other_rest[i]).name
            == rest[i].name by {
            assert(other[i + 1].name == folders[i + 1].name);
        }
        lemma_matching_index_by_names(rest, other_rest, wanted);
    }
}

/// What the folder at the end of a path says of the destination.
pub open spec fn destination_of_path(path: Seq<FolderView>, id: u32) -> ExplicitDestination {
    let depth = path.len() - 1 - music_index(path);
    if depth == 1 {
        ExplicitDestination::Artist { artist_folder_id: id, storage_id: path.last().storage_id }
    } else if depth == 2 {
        ExplicitDestination::Album { folder_id: id, storage_id: path.last().storage_id }
    } else {
        ExplicitDestination::Unspecified
    }
}

/// What a folder says of the destination: it depends on how far it lies below a folder "Music".
pub open spec fn destination(folders: Seq<FolderView>, id: u32) -> ExplicitDestination {
    match path_to(folders, id) {
        Some(path) => destination_of_path(path, id),
        None => ExplicitDestination::Unspecified,
    }
}

/// What a picked folder says of the destination of an upload.
pub fn explicit_destination(folders: &Vec<Folder>, folder_id: u32) -> (r: ExplicitDestination)
    ensures
        r == destination(device::folder_views(folders@), folder_id),
{
    proof {
        lemma_path_ends_at_folder(device::folder_views(folders@), folder_id);
    }
    let path = match folder_path(folders, folder_id) {
        Some(path) => path,
        None => return ExplicitDestination::Unspecified,
    };
    let ghost views = ref_views(path@);
    let mut at: usize = 0;
    assert(views.skip(0) == views);
    while at < path.len() && !is_music_folder(path[at])
        invariant
            at <= path@.len(),
            views == ref_views(path@),
            music_index(views) == at + music_index(views.skip(at as int)),
        decreases path@.len() - at,
    {
        proof {
            assert(views.skip(at as int)[0] == device::folder_view(*path@[at as int]));
            assert(views.skip(at as int).drop_first() == views.skip(at + 1));
        }
        at = at + 1;
    }
    proof {
        if at < path@.len() {
            assert(views.skip(at as int)[0] == device::folder_view(*path@[at as int]));
        } else {
            assert(views.skip(at as int).len() == 0);
        }
        assert(music_index(views) == at);
        assert(views.last() == device::folder_view(*path@.last()));
    }
    if at == path.len() {
        return ExplicitDestination::Unspecified;
    }
    let depth: usize = path.len() - 1 - at;
    let storage_id: u32 = path[path.len() - 1].storage_id;
    if depth == 1 {
        ExplicitDestination::Artist { artist_folder_id: folder_id, storage_id }
    } else if depth == 2 {
        ExplicitDestination::Album { folder_id, storage_id }
    } else {
        ExplicitDestination::Unspecified
    }
}

/// Whether a folder is an artist folder, that is Music/Artist.
pub fn is_artist_folder(folders: &Vec<Folder>, folder_id: u32) -> (r: bool)
    ensures
        r == (destination(device::folder_views(folders@), folder_id) is Artist),
{
    match explicit_destination(folders, folder_id) {
        ExplicitDestination::Artist { .. } => true,
        _ => false,
    }
}

// ---------------------------------------------------------------------------
// Emptying and deleting
// ---------------------------------------------------------------------------

/// The ids of folders and all folders in them, the inner ones before the outer one.
pub open spec fn post_order(folders: Seq<FolderView>) -> Seq<u32>
    decreases folders,
{
    if folders.len() == 0 {
        Seq::empty()
    } else {
        post_order(folders[0].children) + seq![folders[0].id] + post_order(folders.drop_first())
    }
}

/// Adds the ids of all folders in a folder, the inner ones before the outer one.
pub fn collect_descendant_ids_post_order(folder: &Folder, out: &mut Vec<u32>)
    ensures
        final(out)@ == old(out)@ + post_order(folder@.children),
    decreases *folder,
{
    let ghost all = device::folder_views(folder.children@);
    let ghost before = out@;
    let mut i: usize = 0;
    proof {
        assert(all.skip(0) == all);
    }
    while i < folder.children.len()
        invariant
            i <= folder.children@.len(),
            all == device::folder_views(folder.children@),
            before + post_order(all) == out@ + post_order(all.skip(i as int)),
        decreases folder.children@.len() - i,
    {
        let child = &folder.children[i];
        let ghost so_far = out@;
        let ghost rest = post_order(all.skip(i + 1));
        proof {
            assert(all.skip(i as int)[0] == device::folder_view(folder.children@[i as int]));
            assert(all.skip(i as int).drop_first() == all.skip(i + 1));
        }
        collect_descendant_ids_post_order(child, out);
        out.push(child.id);
        proof {
            let inner = post_order(child@.children);
            assert(so_far + (inner + seq![child.id] + rest) == out@ + rest);
        }
        i = i + 1;
    }
    proof {
        assert(all.skip(i as int).len() == 0);
        assert(out@ + post_order(all.skip(i as int)) == out@);
    }
}

/// The id of every folder in a tree directly follows the ids of all folders in it, so that each
/// folder is empty of folders when its turn comes.
pub proof fn lemma_inner_folders_first(folders: Seq<FolderView>, folder: FolderView)
    requires
        within(folders, folder),
    ensures
        exists|before: Seq<u32>, behind: Seq<u32>|
            #![trigger before + post_order(folder.children) + seq![folder.id] + behind]
            post_order(folders) == before + post_order(folder.children) + seq![folder.id] + behind,
    decreases folders,
{
    let first = folders[0];
    let inner = post_order(first.children);
    let rest = post_order(folders.drop_first());
    let own = post_order(folder.children) + seq![folder.id];
    if first == folder {
        assert(post_order(folders) =~= Seq::<u32>::empty() + post_order(folder.children)
            + seq![folder.id] + rest);
    } else if within(first.children, folder) {
        lemma_inner_folders_first(first.children, folder);
        let (a, b) = choose|a: Seq<u32>, b: Seq<u32>|
            #![trigger a + post_order(folder.children) + seq![folder.id] + b]
            inner == a + post_order(folder.children) + seq![folder.id] + b;
        assert(post_order(folders) =~= a + post_order(folder.children) + seq![folder.id] + (b
            + seq![first.id] + rest));
    } else {
        lemma_inner_folders_first(folders.drop_first(), folder);
        let (a, b) = choose|a: Seq<u32>, b: Seq<u32>|
            #![trigger a + post_order(folder.children) + seq![folder.id] + b]
            rest == a + post_order(folder.children) + seq![folder.id] + b;
        assert(post_order(folders) =~= (inner + seq![first.id] + a) + post_order(folder.children)
            + seq![folder.id] + b);
    }
}

/// An entry of the device's file listing.
#[derive(Debug, Clone, Copy, PartialEq, Eq, Structural)]
pub struct FileEntry {
    pub item_id: u32,
    pub parent_id: u32,
    pub is_folder: bool,
}

/// What is deleted by a step of a deletion.
#[derive(Debug, Clone, Copy, PartialEq, Eq, Structural)]
pub enum StepKind {
    /// A file in the folder that is to be deleted, or in a folder in it.
    StrayFile,
    /// A folder in the folder that is to be deleted.
    Subfolder,
    /// The object itself.
    Target,
}

/// One object to be deleted.
#[derive(Debug, Clone, Copy, PartialEq, Eq, Structural)]
pub struct DeleteStep {
    pub object_id: u32,
    pub kind: StepKind,
}

/// The ids of all folders in a folder, the inner ones first; none where the folder is not there.
pub open spec fn subfolder_ids(folders: Seq<FolderView>, id: u32) -> Seq<u32> {
    match found(folders, id) {
        Some(folder) => post_order(folder.children),
        None => Seq::empty(),
    }
}

/// A file lies in a folder or in one of its subfolders.
pub open spec fn is_stray(file: FileEntry, id: u32, subfolders: Seq<u32>) -> bool {
    !file.is_folder && (file.parent_id == id || subfolders.contains(file.parent_id))
}

/// The steps that empty a folder: its files at any depth, then its folders, the inner ones first.
pub open spec fn emptying_steps(
    folders: Seq<FolderView>,
    files: Seq<FileEntry>,
    id: u32,
) -> Seq<DeleteStep> {
    let subfolders = subfolder_ids(folders, id);
    files.filter(|f: FileEntry| is_stray(f, id, subfolders)).map_values(
        |f: FileEntry| DeleteStep { object_id: f.item_id, kind: StepKind::StrayFile },
    ) + subfolders.map_values(|s: u32| DeleteStep { object_id: s, kind: StepKind::Subfolder })
}

/// The steps that delete an object; a folder is emptied first.
pub open spec fn deletion(
    folders: Seq<FolderView>,
    files: Seq<FileEntry>,
    id: u32,
    is_folder: bool,
) -> Seq<DeleteStep> {
    let own = DeleteStep { object_id: id, kind: StepKind::Target };
    if is_folder {
        emptying_steps(folders, files, id).push(own)
    } else {
        seq![own]
    }
}

/// Whether an id is among others.
pub(crate) fn has_id(ids: &Vec<u32>, id: u32) -> (r: bool)
    ensures
        r == ids@.contains(id),
{
    let mut i: usize = 0;
    while i < ids.len()
        invariant
            i <= ids@.len(),
            forall|j: int| 0 <= j < i ==> #[trigger] ids@[j] != id,
        decreases ids@.len() - i,
    {
        if ids[i] == id {
            assert(ids@[i as int] == id);
            return true;
        }
        i = i + 1;
    }
    false
}

/// The steps that empty a folder.
pub fn wipe_folder_contents(folders: &Vec<Folder>, files: &Vec<FileEntry>, folder_id: u32) -> (r:
    Vec<DeleteStep>)
    ensures
        r@ == emptying_steps(device::folder_views(folders@), files@, folder_id),
{
    let mut subfolders: Vec<u32> = Vec::new();
    if let Some(target) = find_folder_ref(folders, folder_id) {
        collect_descendant_ids_post_order(target, &mut subfolders);
        assert(subfolders@ =~= post_order(target@.children));
    } else {
        assert(subfolders@ =~= Seq::<u32>::empty());
    }
    let ghost ids = subfolders@;
    let ghost keep = |f: FileEntry| is_stray(f, folder_id, ids);
    let ghost step = |f: FileEntry|
        DeleteStep { object_id: f.item_id, kind: StepKind::StrayFile };
    let mut r: Vec<DeleteStep> = Vec::new();
    let mut i: usize = 0;
    proof {
        seqs::lemma_filter_ends(files@, keep);
        assert(r@ =~= files@.take(0).filter(keep).map_values(step));
    }
    while i < files.len()
        invariant
            i <= files@.len(),
            ids == subfolders@,
            keep == (|f: FileEntry| is_stray(f, folder_id, ids)),
            step == (|f: FileEntry|
                DeleteStep { object_id: f.item_id, kind: StepKind::StrayFile }),
            r@ == files@.take(i as int).filter(keep).map_values(step),
        decreases files@.len() - i,
    {
        let file = files[i];
        proof {
            seqs::lemma_filter_next(files@, i as int, keep);
        }
        if !file.is_folder && (file.parent_id == folder_id || has_id(&subfolders, file.parent_id)) {
            let ghost before = files@.take(i as int).filter(keep);
            r.push(DeleteStep { object_id: file.item_id, kind: StepKind::StrayFile });
            assert(before.push(file).map_values(step) =~= before.map_values(step).push(
                step(file),
            ));
        }
        i = i + 1;
    }
    let ghost cleared = r@;
    let ghost named = ids.map_values(
        |s: u32| DeleteStep { object_id: s, kind: StepKind::Subfolder },
    );
    let mut k: usize = 0;
    assert(cleared + named.take(0) == cleared);
    while k < subfolders.len()
        invariant
            k <= subfolders@.len(),
            ids == subfolders@,
            named == ids.map_values(
                |s: u32| DeleteStep { object_id: s, kind: StepKind::Subfolder },
            ),
            r@ == cleared + named.take(k as int),
        decreases subfolders@.len() - k,
    {
        r.push(DeleteStep { object_id: subfolders[k], kind: StepKind::Subfolder });
        proof {
            assert(named.take(k + 1) =~= named.take(k as int).push(named[k as int]));
            assert(cleared + named.take(k + 1) =~= (cleared + named.take(k as int)).push(
                named[k as int],
            ));
        }
        k = k + 1;
    }
    assert(named.take(k as int) == named);
    r
}

impl Device {
    /// Whether an object is one of the folders that the device lists.
    pub fn lists_folder(&self, object_id: u32) -> (r: bool)
        ensures
            r == (found(device::folders_of(self.folders@), object_id) is Some),
    {
        find_folder_ref(&self.folders(), object_id).is_some()
    }

    /// The steps that delete an object; a folder is emptied first.
    pub fn delete_object(&self, files: &Vec<FileEntry>, object_id: u32, is_folder: bool) -> (r: Vec<
        DeleteStep,
    >)
        ensures
            r@ == deletion(device::folders_of(self.folders@), files@, object_id, is_folder),
    {
        let mut r: Vec<DeleteStep> = Vec::new();
        if is_folder {
            r = wipe_folder_contents(&self.folders(), files, object_id);
        }
        r.push(DeleteStep { object_id, kind: StepKind::Target });
        r
    }
}

/// What is reported when a step of a deletion fails.
pub open spec fn step_failure_text(kind: StepKind, error: Seq<char>) -> Seq<char> {
    match kind {
        StepKind::StrayFile => {
            "could not clear a stray file inside the folder before deleting it: "@ + error
        },
        StepKind::Subfolder => "could not delete an emptied subfolder: "@ + error,
        StepKind::Target => error,
    }
}

/// What is reported when a step of a deletion fails.
pub fn step_failure(kind: StepKind, error: &str) -> (r: String)
    ensures
        r@ == step_failure_text(kind, error@),
{
    match kind {
        StepKind::StrayFile => {
            let mut r = copy_text(
                "could not clear a stray file inside the folder before deleting it: ",
            );
            r.append(error);
            r
        },
        StepKind::Subfolder => {
            let mut r = copy_text("could not delete an emptied subfolder: ");
            r.append(error);
            r
        },
        StepKind::Target => copy_text(error),
    }
}

/// A deletion ends with the object itself. Every file that lies in the folder or in one of its
/// subfolders is deleted, no other file is, and all files are deleted before any folder.
pub proof fn lemma_deletion(
    folders: Seq<FolderView>,
    files: Seq<FileEntry>,
    id: u32,
    is_folder: bool,
)
    ensures
        deletion(folders, files, id, is_folder).len() > 0,
        deletion(folders, files, id, is_folder).last().object_id == id,
        forall|f: FileEntry| #[trigger]
            files.contains(f) && is_folder && is_stray(f, id, subfolder_ids(folders, id))
                ==> deletion(folders, files, id, is_folder).contains(
                DeleteStep { object_id: f.item_id, kind: StepKind::StrayFile },
            ),
        forall|i: int|
            0 <= i < deletion(folders, files, id, is_folder).len() && (#[trigger] deletion(
                folders,
                files,
                id,
                is_folder,
            )[i]).kind == StepKind::StrayFile ==> exists|f: FileEntry| #[trigger]
                files.contains(f) && is_stray(f, id, subfolder_ids(folders, id)) && f.item_id
                    == deletion(folders, files, id, is_folder)[i].object_id,
        forall|i: int, j: int|
            0 <= i < j < deletion(folders, files, id, is_folder).len() && (#[trigger] deletion(
                folders,
                files,
                id,
                is_folder,
            )[j]).kind == StepKind::StrayFile ==> (#[trigger] deletion(
                folders,
                files,
                id,
                is_folder,
            )[i]).kind == StepKind::StrayFile,
{
    let subfolders = subfolder_ids(folders, id);
    let keep = |f: FileEntry| is_stray(f, id, subfolders);
    let step = |f: FileEntry| DeleteStep { object_id: f.item_id, kind: StepKind::StrayFile };
    let stray = files.filter(keep);
    let steps = deletion(folders, files, id, is_folder);
    seqs::lemma_filter_members(files, keep);
    if is_folder {
        assert forall|f: FileEntry| #[trigger]
            files.contains(f) && is_stray(f, id, subfolders) implies steps.contains(
            DeleteStep { object_id: f.item_id, kind: StepKind::StrayFile },
        ) by {
            assert(keep(f));
            assert(stray.contains(f));
            let i = choose|i: int| 0 <= i < stray.len() && stray[i] == f;
            assert(steps[i] == step(f));
        }
        assert forall|i: int|
            0 <= i < steps.len() && (#[trigger] steps[i]).kind
                == StepKind::StrayFile implies exists|f: FileEntry| #[trigger]
            files.contains(f) && is_stray(f, id, subfolders) && f.item_id
                == steps[i].object_id by {
            assert(i < stray.len());
            assert(steps[i] == step(stray[i]));
            assert(stray.contains(stray[i]));
            assert(files.contains(stray[i]) && keep(stray[i]));
        }
    }
}

// ---------------------------------------------------------------------------
// The course of a deletion
// ---------------------------------------------------------------------------

/// Where a deletion stands.
#[derive(Debug)]
pub enum DeleteProgress {
    /// The step at this index is to be performed.
    Perform(usize),
    /// Every step has succeeded.
    Done,
    /// A step has failed, and no further one is to be performed.
    Failed(String),
}

/// Where a deletion stands, as a mathematical value.
pub enum ProgressView {
    Perform(int),
    Done,
    Failed(Seq<char>),
}

impl View for DeleteProgress {
    type V = ProgressView;

    open spec fn view(&self) -> ProgressView {
        match self {
            DeleteProgress::Perform(index) => ProgressView::Perform(*index as int),
            DeleteProgress::Done => ProgressView::Done,
            DeleteProgress::Failed(error) => ProgressView::Failed(error@),
        }
    }
}

/// Where a deletion stands once the first `count` steps have succeeded.
pub open spec fn progress_after(steps: Seq<DeleteStep>, count: int) -> ProgressView {
    if count < steps.len() {
        ProgressView::Perform(count)
    } else {
        ProgressView::Done
    }
}

/// What the device answers to a step: a status, which is zero where the step has succeeded, and
/// what it reports where it has not.
pub struct AnswerView {
    pub status: i32,
    pub error: Seq<char>,
}

/// Where a deletion stands once the step at `index` was answered.
pub open spec fn step_answer(
    steps: Seq<DeleteStep>,
    index: int,
    answer: AnswerView,
) -> ProgressView {
    if answer.status == 0 {
        progress_after(steps, index + 1)
    } else {
        ProgressView::Failed(step_failure_text(steps[index].kind, answer.error))
    }
}

/// Where a deletion stands before its first step.
pub fn deletion_started(steps: &Vec<DeleteStep>) -> (r: DeleteProgress)
    ensures
        r@ == progress_after(steps@, 0),
{
    if steps.len() > 0 {
        DeleteProgress::Perform(0)
    } else {
        DeleteProgress::Done
    }
}

/// Where a deletion stands once the step at `index` was answered: the first step that fails ends
/// it, and it is done once every step has succeeded.
pub fn step_answered(steps: &Vec<DeleteStep>, index: usize, status: i32, error: &str) -> (r:
    DeleteProgress)
    requires
        index < steps@.len(),
    ensures
        r@ == step_answer(steps@, index as int, AnswerView { status, error: error@ }),
{
    let total: usize = steps.len();
    if status != 0 {
        DeleteProgress::Failed(step_failure(steps[index].kind, error))
    } else if index + 1 < total {
        DeleteProgress::Perform(index + 1)
    } else {
        DeleteProgress::Done
    }
}

/// A deletion as it went: the objects that the device was asked to delete, and how it ended.
pub struct CourseView {
    pub asked: Seq<u32>,
    pub end: ProgressView,
}

/// How a deletion goes from where it stands, given what the device answers.
pub open spec fn course(
    steps: Seq<DeleteStep>,
    progress: ProgressView,
    answers: Seq<AnswerView>,
) -> CourseView
    decreases answers.len(),
{
    match progress {
        ProgressView::Perform(index) if answers.len() > 0 => {
            let rest = course(
                steps,
                step_answer(steps, index, answers[0]),
                answers.drop_first(),
            );
            CourseView { asked: seq![steps[index].object_id] + rest.asked, end: rest.end }
        },
        _ => CourseView { asked: Seq::empty(), end: progress },
    }
}

/// The objects of steps.
pub open spec fn step_objects(steps: Seq<DeleteStep>) -> Seq<u32> {
    steps.map_values(|s: DeleteStep| s.object_id)
}

/// The number of answers before the first one that is a failure.
pub open spec fn successes(answers: Seq<AnswerView>) -> int
    decreases answers.len(),
{
    if answers.len() == 0 || answers[0].status != 0 {
        0
    } else {
        1 + successes(answers.drop_first())
    }
}

/// The first step that fails ends a deletion: nothing behind it is deleted, and its failure is
/// what is reported. A deletion is done exactly where every step has succeeded.
pub proof fn lemma_course(steps: Seq<DeleteStep>, answers: Seq<AnswerView>)
    requires
        answers.len() == steps.len(),
    ensures
        0 <= successes(answers) <= steps.len(),
        ({
            let went = course(steps, progress_after(steps, 0), answers);
            let n = successes(answers);
            if n == steps.len() {
                went.asked == step_objects(steps) && went.end == ProgressView::Done
            } else {
                went.asked == step_objects(steps.take(n + 1)) && went.end == ProgressView::Failed(
                    step_failure_text(steps[n].kind, answers[n].error),
                )
            }
        }),
        (course(steps, progress_after(steps, 0), answers).end is Done) == (forall|i: int|
            0 <= i < answers.len() ==> (#[trigger] answers[i]).status == 0),
{
    assert(answers.skip(0) =~= answers);
    lemma_course_from(steps, answers, 0);
    lemma_successes(answers);
    let n = successes(answers);
    if n == steps.len() {
        assert(step_objects(steps.subrange(0, steps.len() as int)) =~= step_objects(steps));
    } else {
        assert(steps.subrange(0, n + 1) =~= steps.take(n + 1));
    }
}

/// The answers before the first failure are successes, and the next one is a failure.
proof fn lemma_successes(answers: Seq<AnswerView>)
    ensures
        0 <= successes(answers) <= answers.len(),
        forall|i: int| 0 <= i < successes(answers) ==> (#[trigger] answers[i]).status == 0,
        successes(answers) < answers.len() ==> answers[successes(answers)].status != 0,
    decreases answers.len(),
{
    if answers.len() > 0 && answers[0].status == 0 {
        let rest = answers.drop_first();
        lemma_successes(rest);
        assert forall|i: int| 0 <= i < successes(answers) implies (#[trigger] answers[i]).status
            == 0 by {
            if i > 0 {
                assert(answers[i] == rest[i - 1]);
            }
        }
        if successes(rest) < rest.len() {
            assert(answers[successes(answers)] == rest[successes(rest)]);
        }
    }
}

/// How a deletion goes on once the first `count` steps have succeeded.
proof fn lemma_course_from(steps: Seq<DeleteStep>, answers: Seq<AnswerView>, count: int)
    requires
        answers.len() == steps.len(),
        0 <= count <= steps.len(),
    ensures
        ({
            let left = answers.skip(count);
            let went = course(steps, progress_after(steps, count), left);
            let n = count + successes(left);
            &&& n <= steps.len()
            &&& n == steps.len() ==> went.asked == step_objects(
                steps.subrange(count, steps.len() as int),
            ) && went.end == ProgressView::Done
            &&& n < steps.len() ==> went.asked == step_objects(steps.subrange(count, n + 1))
                && went.end == ProgressView::Failed(
                step_failure_text(steps[n].kind, answers[n].error),
            )
        }),
    decreases steps.len() - count,
{
    let left = answers.skip(count);
    let went = course(steps, progress_after(steps, count), left);
    if count == steps.len() {
        assert(went.asked =~= step_objects(steps.subrange(count, steps.len() as int)));
    } else {
        assert(left[0] == answers[count]);
        assert(left.drop_first() =~= answers.skip(count + 1));
        lemma_successes(left);
        if left[0].status == 0 {
            lemma_course_from(steps, answers, count + 1);
            let n = count + successes(left);
            let to = if n == steps.len() {
                n
            } else {
                n + 1
            };
            assert(went.asked =~= step_objects(steps.subrange(count, to)));
        } else {
            assert(course(
                steps,
                step_answer(steps, count, left[0]),
                left.drop_first(),
            ).asked =~= Seq::<u32>::empty());
            assert(went.asked =~= step_objects(steps.subrange(count, count + 1)));
        }
    }
}

// ---------------------------------------------------------------------------
// What holds of the folder tree
// ---------------------------------------------------------------------------

/// All folders of a tree, each before the folders in it.
pub open spec fn all_folders(folders: Seq<FolderView>) -> Seq<FolderView>
    decreases folders,
{
    if folders.len() == 0 {
        Seq::empty()
    } else {
        seq![folders[0]] + all_folders(folders[0].children) + all_folders(folders.drop_first())
    }
}

/// A folder stands at index `i`, and none before it has its id.
pub open spec fn first_with_id(folders: Seq<FolderView>, id: u32, i: int) -> bool {
    0 <= i < folders.len() && folders[i].id == id && forall|j: int|
        0 <= j < i ==> (#[trigger] folders[j]).id != id
}

/// What is found by an id is the first folder that has it, at any depth; nothing is found only where
/// no folder has it.
pub proof fn lemma_found_is_first(folders: Seq<FolderView>, id: u32)
    ensures
        (match found(folders, id) {
            Some(folder) => exists|i: int| #[trigger]
                first_with_id(all_folders(folders), id, i) && all_folders(folders)[i] == folder,
            None => forall|i: int|
                0 <= i < all_folders(folders).len() ==> (#[trigger] all_folders(folders)[i]).id
                    != id,
        }),
    decreases folders,
{
    if folders.len() > 0 {
        let all = all_folders(folders);
        let inner = all_folders(folders[0].children);
        let behind = all_folders(folders.drop_first());
        let head = seq![folders[0]];
        lemma_found_is_first(folders[0].children, id);
        lemma_found_is_first(folders.drop_first(), id);
        assert(all == head + inner + behind);
        assert(all[0] == folders[0]);
        assert forall|k: int| 0 <= k < inner.len() implies #[trigger] all[k + 1] == inner[k] by {}
        assert forall|k: int| 0 <= k < behind.len() implies #[trigger] all[k + 1 + inner.len()]
            == behind[k] by {}
        if folders[0].id == id {
            assert(first_with_id(all, id, 0));
        } else if found(folders[0].children, id) is Some {
            let k = choose|k: int| #[trigger]
                first_with_id(inner, id, k) && inner[k] == found(folders[0].children, id)->0;
            assert(all[k + 1] == inner[k]);
            assert forall|j: int| 0 <= j < k + 1 implies (#[trigger] all[j]).id != id by {
                if j > 0 {
                    assert(all[(j - 1) + 1] == inner[j - 1]);
                }
            }
            assert(first_with_id(all, id, k + 1));
        } else {
            let n = inner.len() as int;
            assert forall|j: int| 0 <= j < n + 1 implies (#[trigger] all[j]).id != id by {
                if j > 0 {
                    assert(all[(j - 1) + 1] == inner[j - 1]);
                }
            }
            if found(folders.drop_first(), id) is Some {
                let k = choose|k: int| #[trigger]
                    first_with_id(behind, id, k) && behind[k] == found(
                        folders.drop_first(),
                        id,
                    )->0;
                assert(all[k + 1 + n] == behind[k]);
                assert forall|j: int| 0 <= j < k + 1 + n implies (#[trigger] all[j]).id != id by {
                    if j >= n + 1 {
                        assert(all[(j - 1 - n) + 1 + n] == behind[j - 1 - n]);
                    }
                }
                assert(first_with_id(all, id, k + 1 + n));
            } else {
                assert forall|j: int| 0 <= j < all.len() implies (#[trigger] all[j]).id != id by {
                    if j >= n + 1 {
                        assert(all[(j - 1 - n) + 1 + n] == behind[j - 1 - n]);
                    }
                }
            }
        }
    }
}

/// A path leads from the top of a tree down: each folder of it stands directly in the one before.
pub open spec fn leads_down(folders: Seq<FolderView>, path: Seq<FolderView>) -> bool {
    &&& path.len() > 0
    &&& folders.contains(path[0])
    &&& forall|k: int|
        0 <= k < path.len() - 1 ==> (#[trigger] path[k]).children.contains(path[k + 1])
}

/// The path to a folder leads down to it, and passes no other folder with its id.
pub proof fn lemma_path_leads_down(folders: Seq<FolderView>, id: u32)
    ensures
        path_to(folders, id) matches Some(path) ==> leads_down(folders, path) && path.last().id
            == id && forall|k: int|
            0 <= k < path.len() - 1 ==> (#[trigger] path[k]).id != id,
    decreases folders,
{
    if folders.len() > 0 {
        assert(folders.contains(folders[0]));
        if folders[0].id == id {
        } else if path_to(folders[0].children, id) is Some {
            lemma_path_leads_down(folders[0].children, id);
            let below = path_to(folders[0].children, id)->0;
            let path = seq![folders[0]] + below;
            assert forall|k: int| 0 <= k < path.len() - 1 implies (
            #[trigger] path[k]).children.contains(path[k + 1]) && path[k].id != id by {
                if k > 0 {
                    assert(path[k] == below[k - 1]);
                    assert(path[k + 1] == below[(k - 1) + 1]);
                }
            }
        } else {
            lemma_path_leads_down(folders.drop_first(), id);
            if let Some(path) = path_to(folders.drop_first(), id) {
                let k = choose|k: int|
                    0 <= k < folders.drop_first().len() && folders.drop_first()[k] == path[0];
                assert(folders[k + 1] == path[0]);
            }
        }
    }
}

/// Putting a folder in the place of itself changes nothing, and of two folders that are put in the
/// same place one after the other only the second counts.
pub proof fn lemma_replaced_twice(
    folders: Seq<FolderView>,
    id: u32,
    a: FolderView,
    b: FolderView,
)
    requires
        a.id == id,
    ensures
        found(folders, id) matches Some(folder) ==> replaced(folders, id, folder) == folders,
        found(folders, id) is None ==> replaced(folders, id, b) == folders,
        replaced(replaced(folders, id, a), id, b) == replaced(folders, id, b),
        found(folders, id) is Some ==> found(replaced(folders, id, a), id) == Some(a),
    decreases folders,
{
    if folders.len() > 0 {
        let rest = folders.drop_first();
        let first = folders[0];
        lemma_replaced_twice(first.children, id, a, b);
        lemma_replaced_twice(rest, id, a, b);
        let once = replaced(folders, id, a);
        if first.id == id {
            assert(once[0] == a);
            assert(once.drop_first() =~= rest);
            assert(seq![first] + rest =~= folders);
        } else if found(first.children, id) is Some {
            assert(once[0].children == replaced(first.children, id, a));
            assert(once[0].id == first.id);
            assert(once.drop_first() =~= rest);
            assert(seq![first] + rest =~= folders);
        } else {
            assert(once[0] == first);
            assert(once.drop_first() =~= replaced(rest, id, a));
            assert(seq![first] + rest =~= folders);
        }
    }
}

/// Replacing a folder leaves all folders at the top but at most one as they are; that one is the
/// folder itself or one that it lies in, which keeps its id, storage and name.
pub proof fn lemma_replaced_elsewhere(folders: Seq<FolderView>, id: u32, new: FolderView)
    ensures
        replaced(folders, id, new).len() == folders.len(),
        forall|i: int|
            0 <= i < folders.len() ==> {
                let now = #[trigger] replaced(folders, id, new)[i];
                ||| now == folders[i]
                ||| folders[i].id == id && now == new
                ||| folders[i].id != id && found(folders[i].children, id) is Some && now.id
                    == folders[i].id && now.storage_id == folders[i].storage_id && now.name
                    == folders[i].name && now.children == replaced(folders[i].children, id, new)
            },
        forall|i: int, j: int|
            0 <= i < j < folders.len() && #[trigger] replaced(folders, id, new)[i] != folders[i]
                ==> #[trigger] replaced(folders, id, new)[j] == folders[j],
    decreases folders.len(),
{
    if folders.len() > 0 {
        let rest = folders.drop_first();
        let all = replaced(folders, id, new);
        lemma_replaced_elsewhere(rest, id, new);
        assert forall|i: int| 0 < i < folders.len() implies folders[i] == #[trigger] rest[i
            - 1] by {}
        if folders[0].id != id && found(folders[0].children, id) is None {
            let behind = replaced(rest, id, new);
            assert forall|i: int| 0 < i < folders.len() implies #[trigger] all[i] == behind[i
                - 1] by {}
            assert forall|i: int| 0 <= i < folders.len() implies {
                let now = #[trigger] all[i];
                ||| now == folders[i]
                ||| folders[i].id == id && now == new
                ||| folders[i].id != id && found(folders[i].children, id) is Some && now.id
                    == folders[i].id && now.storage_id == folders[i].storage_id && now.name
                    == folders[i].name && now.children == replaced(folders[i].children, id, new)
            } by {
                if i > 0 {
                    assert(all[i] == behind[i - 1]);
                    assert(rest[i - 1] == folders[i]);
                }
            }
            assert forall|i: int, j: int|
                0 <= i < j < folders.len() && #[trigger] all[i] != folders[i] implies
                #[trigger] all[j] == folders[j] by {
                assert(all[j] == behind[j - 1] && rest[j - 1] == folders[j]);
                assert(all[i] == behind[i - 1] && rest[i - 1] == folders[i]);
            }
        } else {
            assert forall|i: int| 0 < i < folders.len() implies #[trigger] all[i]
                == folders[i] by {
                assert(all[i] == rest[i - 1]);
            }
        }
    }
}

/// A folder is a Music folder exactly where its name is one of the ways to write that word in small
/// and capital letters.
pub proof fn lemma_is_music(folder: FolderView)
    ensures
        is_music(folder) <==> {
            let n = folder.name;
            &&& n.len() == 5
            &&& n[0] == 'M' || n[0] == 'm'
            &&& n[1] == 'U' || n[1] == 'u'
            &&& n[2] == 'S' || n[2] == 's'
            &&& n[3] == 'I' || n[3] == 'i'
            &&& n[4] == 'C' || n[4] == 'c'
        },
{
    reveal_strlit("Music");
    let n = folder.name;
    let a = text::ascii_lower_text(n);
    let b = text::ascii_lower_text("Music"@);
    assert(b.len() == 5 && b[0] == 'm' && b[1] == 'u' && b[2] == 's' && b[3] == 'i' && b[4]
        == 'c');
    if is_music(folder) {
        assert(a.len() == n.len());
        assert(a[0] == b[0] && a[1] == b[1] && a[2] == b[2] && a[3] == b[3] && a[4] == b[4]);
    } else if n.len() == 5 && a[0] == 'm' && a[1] == 'u' && a[2] == 's' && a[3] == 'i' && a[4]
        == 'c' {
        assert(a =~= b);
    }
}

/// The folder at index `m` of a path is the first Music folder on it.
pub open spec fn first_music(path: Seq<FolderView>, m: int) -> bool {
    0 <= m < path.len() && is_music(path[m]) && forall|j: int|
        0 <= j < m ==> !is_music(#[trigger] path[j])
}

/// The index that is given of a Music folder is that of the first one; where there is none, it is
/// the length.
pub proof fn lemma_music_index(path: Seq<FolderView>)
    ensures
        music_index(path) < path.len() ==> first_music(path, music_index(path) as int),
        music_index(path) <= path.len(),
        music_index(path) == path.len() ==> forall|j: int|
            0 <= j < path.len() ==> !is_music(#[trigger] path[j]),
    decreases path.len(),
{
    if path.len() > 0 && !is_music(path[0]) {
        let rest = path.drop_first();
        lemma_music_index(rest);
        let m = music_index(rest) as int;
        assert forall|j: int| 0 <= j < m + 1 && j < path.len() implies !is_music(
            #[trigger] path[j],
        ) by {
            if j > 0 {
                assert(path[j] == rest[j - 1]);
            }
        }
        if m < rest.len() {
            assert(path[m + 1] == rest[m]);
        }
    }
}

/// A picked folder stands for an artist exactly where it lies directly in the first Music folder
/// on the way down to it, and for an album exactly where it lies one level deeper. What is
/// answered is the folder that was picked, with its own storage.
pub proof fn lemma_destination_by_depth(folders: Seq<FolderView>, id: u32)
    ensures
        path_to(folders, id) is None ==> destination(folders, id) is Unspecified,
        path_to(folders, id) matches Some(path) ==> {
            &&& destination(folders, id) is Artist <==> path.len() >= 2 && first_music(
                path,
                path.len() - 2,
            )
            &&& destination(folders, id) is Album <==> path.len() >= 3 && first_music(
                path,
                path.len() - 3,
            )
        },
        destination(folders, id) matches ExplicitDestination::Artist {
            artist_folder_id,
            storage_id,
        } ==> artist_folder_id == id && found(folders, id) is Some && storage_id == found(
            folders,
            id,
        )->0.storage_id,
        destination(folders, id) matches ExplicitDestination::Album { folder_id, storage_id }
            ==> folder_id == id && found(folders, id) is Some && storage_id == found(
            folders,
            id,
        )->0.storage_id,
{
    lemma_path_ends_at_folder(folders, id);
    if let Some(path) = path_to(folders, id) {
        lemma_music_index(path);
        let m = music_index(path) as int;
        let k = path.len() as int;
        assert(forall|n: int| #[trigger] first_music(path, n) ==> n == m) by {
            assert forall|n: int| #[trigger] first_music(path, n) implies n == m by {
                if n < m {
                    assert(!is_music(path[n]));
                } else if m < n {
                    assert(!is_music(path[m]));
                }
            }
        }
    }
}

/// A folder is created under the name that was asked for, without a leading "the " in whatever
/// case.
pub proof fn lemma_dropped_the(name: Seq<char>)
    ensures
        ({
            let leading = {
                &&& name.len() >= 4
                &&& name[0] == 'T' || name[0] == 't'
                &&& name[1] == 'H' || name[1] == 'h'
                &&& name[2] == 'E' || name[2] == 'e'
                &&& name[3] == ' '
            };
            &&& leading ==> name == name.take(4) + dropped_the(name)
            &&& !leading ==> dropped_the(name) == name
        }),
{
    reveal_strlit("the ");
    let a = text::ascii_lower_text(name.take(4));
    let b = text::ascii_lower_text("the "@);
    if name.len() >= 4 {
        assert(b[0] == 't' && b[1] == 'h' && b[2] == 'e' && b[3] == ' ');
        assert(name == name.take(4) + name.skip(4));
        assert(a[0] == text::ascii_lower(name[0]));
        assert(a[1] == text::ascii_lower(name[1]));
        assert(a[2] == text::ascii_lower(name[2]));
        assert(a[3] == text::ascii_lower(name[3]));
        if a[0] == 't' && a[1] == 'h' && a[2] == 'e' && a[3] == ' ' {
            assert(a =~= b);
        }
    }
}

/// Two ASCII names are those of one folder exactly where they differ in nothing but case once a
/// leading "the " is dropped from each.
pub proof fn lemma_same_name(a: Seq<char>, b: Seq<char>)
    requires
        text::is_ascii_text(a),
        text::is_ascii_text(b),
    ensures
        normalized(a) == normalized(b) <==> text::eq_ignoring_ascii_case(
            dropped_the(a),
            dropped_the(b),
        ),
{
    lemma_ascii_dropped_the(a);
    lemma_ascii_dropped_the(b);
}

/// The folders in a folder are deleted once each: their ids are those of all folders below it, in
/// another order.
pub proof fn lemma_post_order_holds_all(folders: Seq<FolderView>)
    ensures
        post_order(folders).to_multiset() == all_folders(folders).map_values(
            |f: FolderView| f.id,
        ).to_multiset(),
        post_order(folders).len() == all_folders(folders).len(),
    decreases folders,
{
    let ids = |f: FolderView| f.id;
    if folders.len() == 0 {
        assert(all_folders(folders).map_values(ids) =~= Seq::<u32>::empty());
        assert(post_order(folders) =~= Seq::<u32>::empty());
    } else {
        let inner = folders[0].children;
        let behind = folders.drop_first();
        lemma_post_order_holds_all(inner);
        lemma_post_order_holds_all(behind);
        let head = seq![folders[0].id];
        let a = all_folders(inner).map_values(ids);
        let b = all_folders(behind).map_values(ids);
        assert(all_folders(folders).map_values(ids) =~= head + a + b);
        vstd::seq_lib::lemma_multiset_commutative(post_order(inner), head);
        vstd::seq_lib::lemma_multiset_commutative(post_order(inner) + head, post_order(behind));
        vstd::seq_lib::lemma_multiset_commutative(head, a);
        vstd::seq_lib::lemma_multiset_commutative(head + a, b);
        assert((post_order(inner) + head).to_multiset() =~= (head + a).to_multiset());
        assert(post_order(folders).to_multiset() =~= (head + a + b).to_multiset());
    }
}

/// What a deletion of a folder asks for: first the files that stand in the folder or in one below
/// it, in the order of the listing and no others; then the folders below it; at last the folder
/// itself. Of anything else, only the object itself is deleted.
pub proof fn lemma_deletion_parts(
    folders: Seq<FolderView>,
    files: Seq<FileEntry>,
    id: u32,
    is_folder: bool,
)
    ensures
        !is_folder ==> deletion(folders, files, id, is_folder) == seq![
            DeleteStep { object_id: id, kind: StepKind::Target },
        ],
        is_folder ==> exists|stray: Seq<FileEntry>|
            #![trigger stray.len()]
            {
                let steps = deletion(folders, files, id, is_folder);
                let below = match found(folders, id) {
                    Some(folder) => all_folders(folder.children),
                    None => Seq::empty(),
                };
                let n = stray.len() as int;
                &&& seqs::is_selection(
                    files,
                    stray,
                    |f: FileEntry|
                        !f.is_folder && (f.parent_id == id || below.map_values(
                            |g: FolderView| g.id,
                        ).contains(f.parent_id)),
                )
                &&& steps.len() == n + below.len() + 1
                &&& forall|i: int|
                    0 <= i < n ==> (#[trigger] steps[i]).object_id == stray[i].item_id
                        && steps[i].kind == StepKind::StrayFile
                &&& forall|i: int|
                    n <= i < n + below.len() ==> (#[trigger] steps[i]).kind == StepKind::Subfolder
                &&& steps.subrange(n, n + below.len()).map_values(
                    |d: DeleteStep| d.object_id,
                ).to_multiset() == below.map_values(|g: FolderView| g.id).to_multiset()
                &&& steps.last() == (DeleteStep { object_id: id, kind: StepKind::Target })
            },
{
    if is_folder {
        let steps = deletion(folders, files, id, is_folder);
        let below = match found(folders, id) {
            Some(folder) => all_folders(folder.children),
            None => Seq::empty(),
        };
        let ids = below.map_values(|g: FolderView| g.id);
        let subfolders = subfolder_ids(folders, id);
        if let Some(folder) = found(folders, id) {
            lemma_post_order_holds_all(folder.children);
        } else {
            assert(ids =~= Seq::<u32>::empty());
        }
        assert(subfolders.to_multiset() == ids.to_multiset());
        let test = |f: FileEntry| is_stray(f, id, subfolders);
        let wanted = |f: FileEntry|
            !f.is_folder && (f.parent_id == id || below.map_values(
                |g: FolderView| g.id,
            ).contains(f.parent_id));
        let stray = files.filter(test);
        seqs::lemma_filter_selects(files, test);
        let at = choose|at: Seq<int>| seqs::selects(files, stray, test, at);
        assert forall|f: FileEntry| #[trigger] test(f) == wanted(f) by {
            subfolders.to_multiset_ensures();
            ids.to_multiset_ensures();
            assert(subfolders.contains(f.parent_id) <==> subfolders.to_multiset().count(
                f.parent_id,
            ) > 0);
            assert(ids.contains(f.parent_id) <==> ids.to_multiset().count(f.parent_id) > 0);
        }
        assert(seqs::selects(files, stray, wanted, at)) by {
            assert forall|i: int| 0 <= i < files.len() implies (wanted(#[trigger] files[i])
                <==> at.contains(i)) by {
                assert(test(files[i]) == wanted(files[i]));
            }
        }
        assert(seqs::is_selection(files, stray, wanted));
        let n = stray.len() as int;
        assert(steps.subrange(n, n + below.len()).map_values(|d: DeleteStep| d.object_id)
            =~= subfolders);
        assert(stray.len() == n);
    }
}

/// What is said of a failed step ends with what the device said. Nothing stands before that where
/// the object itself could not be deleted.
pub proof fn lemma_step_failure_text(kind: StepKind, error: Seq<char>)
    ensures
        ({
            let said = step_failure_text(kind, error);
            let before = match kind {
                StepKind::StrayFile => {
                    "could not clear a stray file inside the folder before deleting it: "@
                },
                StepKind::Subfolder => "could not delete an emptied subfolder: "@,
                StepKind::Target => Seq::empty(),
            };
            &&& said.len() == before.len() + error.len()
            &&& said.take(before.len() as int) == before
            &&& said.skip(before.len() as int) == error
        }),
{
    let said = step_failure_text(kind, error);
    let before = match kind {
        StepKind::StrayFile => {
            "could not clear a stray file inside the folder before deleting it: "@
        },
        StepKind::Subfolder => "could not delete an emptied subfolder: "@,
        StepKind::Target => Seq::empty(),
    };
    assert(said =~= before + error);
    assert(said.take(before.len() as int) =~= before);
    assert(said.skip(before.len() as int) =~= error);
}

} // verus!
