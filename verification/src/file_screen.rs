//! The file screen: marking, deleting, and copying between the two panes.
use vstd::prelude::*;

use crate::browser;
use crate::browser::{album_audio_files, DirEntry, EntryView};
use crate::deletion;
use crate::deletion::{delete_scope, DeleteConfirmation, DeleteConfirmationView};
use crate::device::{SnapshotView, Track, TrackView};
use crate::device_tree;
use crate::device_tree::{folder_items, mark_track_range};
use crate::folders;
use crate::folders::find_folder_ref;
use crate::keys::Key;
use crate::library;
use crate::library::{physical_album, physical_albums, PhysicalView};
use crate::local_path;
use crate::local_path::{position_of_path, LocalPath, PathSet};
use crate::marks;
use crate::marks::{is_marked, no_marks, switch_mark, toggle_track_group};
use crate::path;
use crate::seqs;
use crate::session;
use crate::session::{
    Action, ActionView, App, AppView, Connection, ConnectionView, Motion, Pane, TreeName,
    NOT_FOUND_SHORT,
};
use crate::text::{copy_text, decimal_string};
use crate::text;
use crate::transfer::{JobView, TransferJob};
use crate::tree;
use crate::tree::{flatten, DeviceItemId};

verus! {

/// A state of the session, and what is to be done outside.
pub struct Reaction {
    pub state: AppView,
    pub action: ActionView,
}

/// Nothing is to be done outside.
pub open spec fn quiet(state: AppView) -> Reaction {
    Reaction { state, action: ActionView::Nothing }
}

/// The session with another status.
pub open spec fn with_status(a: AppView, status: Seq<char>) -> AppView {
    AppView { transfer_status: Some(status), ..a }
}

/// What is known of a local path.
#[derive(Debug)]
pub struct PathFacts {
    pub path: LocalPath,
    pub is_file: bool,
    pub listing: Option<Vec<DirEntry>>,
}

/// What is known of a local path, as a mathematical value.
pub struct FactsView {
    pub path: Seq<u8>,
    pub is_file: bool,
    pub listing: Option<Seq<EntryView>>,
}

impl View for PathFacts {
    type V = FactsView;

    open spec fn view(&self) -> FactsView {
        FactsView {
            path: self.path@,
            is_file: self.is_file,
            listing: browser::listing_view(self.listing),
        }
    }
}

/// What is known of local paths.
pub open spec fn facts_views(facts: Seq<PathFacts>) -> Seq<FactsView> {
    facts.map_values(|f: PathFacts| f@)
}

// ---------------------------------------------------------------------------
// Marking
// ---------------------------------------------------------------------------

/// The album folder with the given id on the device that is connected.
pub open spec fn album_of(a: AppView, id: u32) -> Option<PhysicalView> {
    match session::snapshot_of(a.connection) {
        Some(snapshot) => library::physical_with_id(library::physical(snapshot), id),
        None => None,
    }
}

/// The session once the mark of the selected item is switched; it takes a look outside where that
/// is a local path.
pub open spec fn mark_toggled(a: AppView) -> Reaction {
    match a.focused_pane {
        Pane::Local => match a.local_state.current() {
            Some(p) => Reaction { state: a, action: ActionView::InspectSelection(p) },
            None => quiet(a),
        },
        Pane::Device => match a.device_state.current() {
            Some(item) => quiet(
                match item {
                    DeviceItemId::Track(id) => AppView {
                        device_marks: marks::switched(a.device_marks, id),
                        device_anchor: Some(item),
                        ..a
                    },
                    DeviceItemId::Folder(id) => match album_of(a, id) {
                        Some(album) => AppView {
                            device_marks: marks::group_switched(a.device_marks, album.track_ids),
                            device_anchor: Some(item),
                            ..a
                        },
                        None => with_status(a, "Only device albums and tracks can be marked."@),
                    },
                },
            ),
            None => quiet(a),
        },
    }
}

/// The session once the mark of a local path is switched: that of a file, or those of all audio
/// files of a directory.
pub open spec fn local_mark_toggled(a: AppView, facts: FactsView) -> AppView {
    if facts.is_file {
        AppView {
            local_marks: if local_path::has_path(a.local_marks, facts.path) {
                local_path::without_path(a.local_marks, facts.path)
            } else {
                local_path::with_path(a.local_marks, facts.path)
            },
            local_anchor: Some(facts.path),
            ..a
        }
    } else {
        match browser::album_files(facts.listing) {
            Some(files) => AppView {
                local_marks: if local_path::has_paths(a.local_marks, files) {
                    local_path::without_paths(a.local_marks, files)
                } else {
                    local_path::with_paths(a.local_marks, files)
                },
                local_anchor: Some(facts.path),
                ..a
            },
            None => with_status(
                a,
                "Only files and Letter/Artist/Album folders can be marked."@,
            ),
        }
    }
}

/// The marks once local paths are marked: a file marks itself, and a directory its audio files.
pub open spec fn paths_marked(marked: Seq<Seq<u8>>, facts: Seq<FactsView>) -> Seq<Seq<u8>>
    decreases facts.len(),
{
    if facts.len() == 0 {
        marked
    } else {
        let before = paths_marked(marked, facts.drop_last());
        let last = facts.last();
        if last.is_file {
            local_path::with_path(before, last.path)
        } else {
            match browser::album_files(last.listing) {
                Some(files) => local_path::with_paths(before, files),
                None => before,
            }
        }
    }
}

/// The local paths that are visible.
pub open spec fn visible_paths(a: AppView) -> Seq<Seq<u8>> {
    tree::visible::<LocalPath>(
        browser::directory_nodes(a.local_tree.roots, a.local_marks),
        a.local_state.opened,
        Seq::empty(),
    )
}

/// The local paths between two others, both included.
pub open spec fn path_range(visible: Seq<Seq<u8>>, anchor: Seq<u8>, current: Seq<u8>) -> Seq<
    Seq<u8>,
> {
    device_tree::range_between(
        visible,
        |p: Seq<u8>| local_path::same_path(p, anchor),
        |p: Seq<u8>| local_path::same_path(p, current),
    )
}

/// The items of the device that are visible on the file screen.
pub open spec fn visible_items(a: AppView, snapshot: SnapshotView) -> Seq<DeviceItemId> {
    tree::visible::<DeviceItemId>(
        device_tree::device_nodes(snapshot.folders, snapshot.tracks, a.device_marks),
        a.device_state.opened,
        Seq::empty(),
    )
}

/// The session once the visible items between the anchor and the selected item are marked.
pub open spec fn range_marked(a: AppView) -> Reaction {
    match a.focused_pane {
        Pane::Local => match (a.local_anchor, a.local_state.current()) {
            (None, _) => mark_toggled(a),
            (Some(anchor), Some(current)) => Reaction {
                state: a,
                action: ActionView::InspectRange(path_range(visible_paths(a), anchor, current)),
            },
            _ => quiet(a),
        },
        Pane::Device => match (a.device_anchor, a.device_state.current()) {
            (None, _) => mark_toggled(a),
            (Some(anchor), Some(current)) => match session::snapshot_of(a.connection) {
                Some(snapshot) => quiet(
                    AppView {
                        device_marks: device_tree::items_marked(
                            a.device_marks,
                            device_tree::item_range(visible_items(a, snapshot), anchor, current),
                            library::physical(snapshot),
                        ),
                        ..a
                    },
                ),
                None => quiet(a),
            },
            _ => quiet(a),
        },
    }
}

/// Marks local paths: a file marks itself, and a directory its audio files.
pub fn mark_path_range(marked: &mut PathSet, facts: &Vec<PathFacts>)
    ensures
        final(marked)@ == paths_marked(old(marked)@, facts_views(facts@)),
        old(marked).wf() ==> final(marked).wf(),
{
    let ghost before = marked@;
    let ghost distinct = marked.wf();
    let ghost all = facts_views(facts@);
    let mut i: usize = 0;
    assert(all.take(0).len() == 0);
    while i < facts.len()
        invariant
            i <= facts@.len(),
            all == facts_views(facts@),
            marked@ == paths_marked(before, all.take(i as int)),
            distinct ==> marked.wf(),
        decreases facts@.len() - i,
    {
        proof {
            assert(all.take(i + 1).drop_last() =~= all.take(i as int));
            assert(all.take(i + 1).last() == facts@[i as int]@);
        }
        if facts[i].is_file {
            marked.insert(facts[i].path.clone());
        } else if let Some(files) = album_audio_files(&facts[i].listing) {
            marked.insert_all(&files);
        }
        i = i + 1;
    }
    assert(all.take(i as int) =~= all);
}

/// The index of a local path among those that are visible.
fn visible_position(visible: &Vec<LocalPath>, p: &LocalPath) -> (r: Option<usize>)
    ensures
        (match r {
            Some(i) => seqs::position(
                local_path::path_views(visible@),
                |q: Seq<u8>| local_path::same_path(q, p@),
            ) == Some(i as int) && i < visible@.len(),
            None => seqs::position(
                local_path::path_views(visible@),
                |q: Seq<u8>| local_path::same_path(q, p@),
            ) is None,
        }),
{
    let ghost all = local_path::path_views(visible@);
    let ghost test = |q: Seq<u8>| local_path::same_path(q, p@);
    let r = position_of_path(visible, p);
    proof {
        assert(all.len() == visible@.len());
        match r {
            Some(i) => {
                assert forall|j: int| 0 <= j < i implies !test(#[trigger] all[j]) by {
                    assert(all[j] == visible@[j]@);
                }
                assert(all[i as int] == visible@[i as int]@);
                seqs::lemma_position_is(all, test, i as int);
            },
            None => {
                assert forall|j: int| 0 <= j < all.len() implies !test(#[trigger] all[j]) by {
                    if test(all[j]) {
                        assert(local_path::same_path(all[j], p@));
                    }
                }
                seqs::lemma_position_is(all, test, all.len() as int);
            },
        }
    }
    r
}

/// The local paths between two others, both included.
fn collect_path_range(visible: &Vec<LocalPath>, anchor: &LocalPath, current: &LocalPath) -> (r:
    Vec<LocalPath>)
    ensures
        local_path::path_views(r@) == path_range(
            local_path::path_views(visible@),
            anchor@,
            current@,
        ),
{
    let ghost all = local_path::path_views(visible@);
    let mut r: Vec<LocalPath> = Vec::new();
    assert(local_path::path_views(r@) =~= Seq::<Seq<u8>>::empty());
    let (start, end) = match (visible_position(visible, anchor), visible_position(
        visible,
        current,
    )) {
        (Some(a), Some(b)) => if a <= b {
            (a, b)
        } else {
            (b, a)
        },
        _ => {
            return r;
        },
    };
    let total: usize = visible.len();
    let ghost range = all.subrange(start as int, end + 1);
    let mut i: usize = start;
    assert(local_path::path_views(r@) =~= range.take(0));
    while i <= end
        invariant
            start <= i <= end + 1,
            end < total == visible@.len(),
            all == local_path::path_views(visible@),
            range == all.subrange(start as int, end + 1),
            local_path::path_views(r@) == range.take(i - start),
        decreases end + 1 - i,
    {
        let ghost before = local_path::path_views(r@);
        let copy = visible[i].clone();
        r.push(copy);
        proof {
            let k = i - start;
            assert(range[k] == visible@[i as int]@);
            assert(local_path::path_views(r@) =~= before.push(copy@));
            assert(range.take(k + 1) =~= range.take(k).push(range[k]));
        }
        i = i + 1;
    }
    assert(range.take(i - start) =~= range);
    r
}

impl App {
    /// Switches the mark of the selected item.
    pub fn toggle_mark(&mut self) -> (r: Action)
        ensures
            final(self)@ == mark_toggled(old(self)@).state,
            r@ == mark_toggled(old(self)@).action,
            final(self).wf() == old(self).wf(),
    {
        match self.focused_pane {
            Pane::Local => match self.local_state.selected() {
                Some(p) => Action::InspectSelection(p),
                None => Action::Nothing,
            },
            Pane::Device => {
                let item = match self.device_state.selected() {
                    Some(item) => item,
                    None => return Action::Nothing,
                };
                match item {
                    DeviceItemId::Track(id) => {
                        switch_mark(&mut self.device_marks, id);
                    },
                    DeviceItemId::Folder(id) => {
                        let album = match &self.connection {
                            Connection::Connected(snapshot) => physical_album(snapshot, id),
                            _ => None,
                        };
                        match album {
                            Some(album) => {
                                toggle_track_group(&mut self.device_marks, &album.track_ids);
                            },
                            None => {
                                self.transfer_status = Some(
                                    copy_text("Only device albums and tracks can be marked."),
                                );
                                return Action::Nothing;
                            },
                        }
                    },
                }
                self.device_anchor = Some(item);
                Action::Nothing
            },
        }
    }

    /// Switches the mark of a local path, once it is known what the path is.
    pub fn toggle_local_mark(&mut self, facts: &PathFacts)
        ensures
            final(self)@ == local_mark_toggled(old(self)@, facts@),
            old(self).wf() ==> final(self).wf(),
    {
        if facts.is_file {
            if self.local_marks.contains(&facts.path) {
                self.local_marks.remove(&facts.path);
            } else {
                self.local_marks.insert(facts.path.clone());
            }
        } else {
            match album_audio_files(&facts.listing) {
                Some(files) => {
                    if self.local_marks.contains_all(&files) {
                        self.local_marks.remove_all(&files);
                    } else {
                        self.local_marks.insert_all(&files);
                    }
                },
                None => {
                    self.transfer_status = Some(
                        copy_text("Only files and Letter/Artist/Album folders can be marked."),
                    );
                    return;
                },
            }
        }
        self.local_anchor = Some(facts.path.clone());
    }

    /// Marks the local paths of a range, once it is known what they are.
    pub fn mark_local_range(&mut self, facts: &Vec<PathFacts>)
        ensures
            final(self)@ == (AppView {
                local_marks: paths_marked(old(self)@.local_marks, facts_views(facts@)),
                ..old(self)@
            }),
            old(self).wf() ==> final(self).wf(),
    {
        mark_path_range(&mut self.local_marks, facts);
    }

    /// Marks the visible items between the anchor and the selected item.
    pub fn mark_range(&mut self) -> (r: Action)
        ensures
            final(self)@ == range_marked(old(self)@).state,
            r@ == range_marked(old(self)@).action,
            final(self).wf() == old(self).wf(),
    {
        match self.focused_pane {
            Pane::Local => {
                let anchor = match &self.local_anchor {
                    Some(anchor) => anchor.clone(),
                    None => return self.toggle_mark(),
                };
                let current = match self.local_state.selected() {
                    Some(current) => current,
                    None => return Action::Nothing,
                };
                let items = self.local_tree.items(&self.local_marks);
                let top: Vec<LocalPath> = Vec::new();
                assert(tree::id_views(top@) =~= Seq::<Seq<u8>>::empty());
                let visible = flatten(&items, &self.local_state.opened, &top);
                assert(tree::id_views(visible@) =~= local_path::path_views(visible@));
                Action::InspectRange(collect_path_range(&visible, &anchor, &current))
            },
            Pane::Device => {
                let anchor = match self.device_anchor {
                    Some(anchor) => anchor,
                    None => return self.toggle_mark(),
                };
                let current = match self.device_state.selected() {
                    Some(current) => current,
                    None => return Action::Nothing,
                };
                if let Connection::Connected(snapshot) = &self.connection {
                    let items = folder_items(
                        &snapshot.folders,
                        &snapshot.tracks,
                        &self.device_marks,
                    );
                    let top: Vec<DeviceItemId> = Vec::new();
                    assert(tree::id_views(top@) =~= Seq::<DeviceItemId>::empty());
                    let visible = flatten(&items, &self.device_state.opened, &top);
                    assert(tree::id_views(visible@) =~= visible@);
                    let albums = physical_albums(snapshot);
                    mark_track_range(
                        &mut self.device_marks,
                        &visible,
                        anchor,
                        current,
                        &albums,
                    );
                }
                Action::Nothing
            },
        }
    }
}

// ---------------------------------------------------------------------------
// Deleting
// ---------------------------------------------------------------------------

/// The name of a device: the one its owner gave it, or else its model.
pub open spec fn device_name(snapshot: SnapshotView) -> Seq<char> {
    if snapshot.info.friendly_name.len() == 0 {
        snapshot.info.model
    } else {
        snapshot.info.friendly_name
    }
}

/// The session once the marked tracks are to be deleted: the question is asked where the device
/// pane is in use, there is something to delete and no transfer is under way.
pub open spec fn deletion_requested(a: AppView) -> AppView {
    match session::snapshot_of(a.connection) {
        Some(snapshot) if a.focused_pane == Pane::Device && a.device_marks != Set::<u32>::empty()
            && !a.transfer_running && deletion::scope(snapshot, a.device_marks).items.len() > 0 => {
            AppView {
                delete_confirmation: Some(
                    DeleteConfirmationView {
                        device_name: device_name(snapshot),
                        scope: deletion::scope(snapshot, a.device_marks),
                    },
                ),
                ..a
            }
        },
        _ => a,
    }
}

/// A key that confirms.
pub open spec fn confirms(key: Key) -> bool {
    key == Key::Char('y') || key == Key::Char('Y') || key == Key::Enter
}

/// A key that cancels.
pub open spec fn cancels(key: Key) -> bool {
    key == Key::Char('n') || key == Key::Char('N') || key == Key::Esc
}

/// The session once a key answers the question before a deletion.
pub open spec fn deletion_answered(a: AppView, key: Key) -> AppView {
    if confirms(key) {
        match a.delete_confirmation {
            Some(confirmation) => AppView {
                delete_confirmation: None,
                pending_transfer: Some(JobView::Delete { items: confirmation.scope.items }),
                transfer_status: Some(
                    "Deleting "@ + text::decimal(confirmation.scope.items.len())
                        + " item(s) from "@ + confirmation.device_name + "'s Zune..."@,
                ),
                ..a
            },
            None => a,
        }
    } else if cancels(key) {
        AppView {
            delete_confirmation: None,
            transfer_status: Some("Delete cancelled."@),
            ..a
        }
    } else {
        a
    }
}

/// Whether a key confirms.
pub(crate) fn is_confirming(key: Key) -> (r: bool)
    ensures
        r == confirms(key),
{
    key == Key::Char('y') || key == Key::Char('Y') || key == Key::Enter
}

/// Whether a key cancels.
pub(crate) fn is_cancelling(key: Key) -> (r: bool)
    ensures
        r == cancels(key),
{
    key == Key::Char('n') || key == Key::Char('N') || key == Key::Esc
}

impl App {
    /// Asks before the marked tracks are deleted.
    pub fn request_delete(&mut self)
        ensures
            final(self)@ == deletion_requested(old(self)@),
            final(self).wf() == old(self).wf(),
    {
        if self.focused_pane != Pane::Device || no_marks(&self.device_marks)
            || self.transfer_running {
            return;
        }
        if let Connection::Connected(snapshot) = &self.connection {
            let scope = delete_scope(snapshot, &self.device_marks);
            assert(deletion::item_views(scope.items@).len() == scope.items@.len());
            if scope.items.len() == 0 {
                return;
            }
            let name = if snapshot.info.friendly_name.as_str().is_empty() {
                snapshot.info.model.clone()
            } else {
                snapshot.info.friendly_name.clone()
            };
            self.delete_confirmation = Some(
                DeleteConfirmation {
                    device_name: name,
                    items: scope.items,
                    track_count: scope.track_count,
                    album_count: scope.album_count,
                    artist_names: scope.artist_names,
                },
            );
        }
    }

    /// Takes the answer to the question before a deletion.
    pub fn handle_delete_confirmation(&mut self, key: Key)
        ensures
            final(self)@ == deletion_answered(old(self)@, key),
            final(self).wf() == old(self).wf(),
    {
        if is_confirming(key) {
            let confirmation = match self.delete_confirmation.take() {
                Some(confirmation) => confirmation,
                None => return,
            };
            let mut status = copy_text("Deleting ");
            status.append(&decimal_string(confirmation.items.len() as u64));
            status.append(" item(s) from ");
            status.append(&confirmation.device_name);
            status.append("'s Zune...");
            assert(deletion::item_views(confirmation.items@).len() == confirmation.items@.len());
            self.pending_transfer = Some(TransferJob::Delete { items: confirmation.items });
            self.transfer_status = Some(status);
        } else if is_cancelling(key) {
            self.delete_confirmation = None;
            self.transfer_status = Some(copy_text("Delete cancelled."));
        }
    }
}

/// A deletion that is cancelled leaves all marks as they are, and no job comes of it.
pub proof fn lemma_cancelled_deletion(a: AppView, key: Key)
    requires
        cancels(key),
    ensures
        deletion_answered(a, key).device_marks == a.device_marks,
        deletion_answered(a, key).local_marks == a.local_marks,
        deletion_answered(a, key).pending_transfer == a.pending_transfer,
        deletion_answered(a, key).delete_confirmation is None,
{
}

/// What is deleted is what was asked about: exactly the objects that the marked tracks reach.
pub proof fn lemma_confirmed_deletion(a: AppView, key: Key)
    requires
        confirms(key),
        a.delete_confirmation is None,
        deletion_requested(a).delete_confirmation is Some,
    ensures
        session::snapshot_of(a.connection) matches Some(snapshot) && deletion_answered(
            deletion_requested(a),
            key,
        ).pending_transfer == Some(
            JobView::Delete { items: deletion::scope(snapshot, a.device_marks).items },
        ),
{
}

// ---------------------------------------------------------------------------
// Copying
// ---------------------------------------------------------------------------

/// The session once a transfer was started.
pub open spec fn started(a: AppView, job: JobView) -> Reaction {
    Reaction {
        state: AppView {
            transfer_running: true,
            transfer_status: Some("Starting transfer..."@),
            ..a
        },
        action: ActionView::Start(job),
    }
}

/// The session once the marked local files are to be copied to the selected folder of the device.
pub open spec fn upload_started(a: AppView) -> Reaction {
    match a.device_state.current() {
        Some(DeviceItemId::Folder(id)) => match session::snapshot_of(a.connection) {
            Some(snapshot) => match folders::found(snapshot.folders, id) {
                Some(folder) => started(
                    a,
                    JobView::Upload {
                        files: a.local_marks,
                        folder_id: id,
                        storage_id: folder.storage_id,
                    },
                ),
                None => quiet(with_status(a, "The selected Zune folder is unavailable."@)),
            },
            None => quiet(with_status(a, NOT_FOUND_SHORT@)),
        },
        _ => quiet(with_status(a, "Select a destination folder in the Zune pane."@)),
    }
}

/// The session once what is marked is to be copied to the other pane.
pub open spec fn transfer_started(a: AppView) -> Reaction {
    if a.transfer_running {
        quiet(with_status(a, "A transfer is already in progress."@))
    } else {
        match a.focused_pane {
            Pane::Local => upload_started(a),
            Pane::Device => match a.local_state.current() {
                Some(directory) => Reaction {
                    state: a,
                    action: ActionView::InspectDestination(directory),
                },
                None => quiet(with_status(a, "Select a local destination folder."@)),
            },
        }
    }
}

/// The session once the marked tracks are to be copied to a local path.
pub open spec fn download_started(a: AppView, directory: Seq<u8>, is_dir: bool) -> Reaction {
    if !is_dir {
        quiet(with_status(a, "Select a local destination folder."@))
    } else {
        match session::snapshot_of(a.connection) {
            Some(snapshot) => started(
                AppView { download_directory: Some(directory), ..a },
                JobView::Download {
                    tracks: deletion::marked_tracks(snapshot.tracks, a.device_marks),
                    directory,
                },
            ),
            None => quiet(with_status(a, NOT_FOUND_SHORT@)),
        }
    }
}

impl App {
    /// Copies what is marked to the other pane.
    pub fn start_transfer(&mut self) -> (r: Action)
        ensures
            final(self)@ == transfer_started(old(self)@).state,
            r@ == transfer_started(old(self)@).action,
            final(self).wf() == old(self).wf(),
    {
        if self.transfer_running {
            self.transfer_status = Some(copy_text("A transfer is already in progress."));
            return Action::Nothing;
        }
        match self.focused_pane {
            Pane::Local => {
                let folder_id = match self.device_state.selected() {
                    Some(DeviceItemId::Folder(id)) => id,
                    _ => {
                        self.transfer_status = Some(
                            copy_text("Select a destination folder in the Zune pane."),
                        );
                        return Action::Nothing;
                    },
                };
                let storage = match &self.connection {
                    Connection::Connected(snapshot) => match find_folder_ref(
                        &snapshot.folders,
                        folder_id,
                    ) {
                        Some(folder) => Some(folder.storage_id),
                        None => None,
                    },
                    _ => {
                        self.transfer_status = Some(copy_text(NOT_FOUND_SHORT));
                        return Action::Nothing;
                    },
                };
                match storage {
                    Some(storage_id) => {
                        let job = TransferJob::Upload {
                            files: self.local_marks.to_paths(),
                            folder_id,
                            storage_id,
                        };
                        self.transfer_running = true;
                        self.transfer_status = Some(copy_text("Starting transfer..."));
                        Action::Start(job)
                    },
                    None => {
                        self.transfer_status = Some(
                            copy_text("The selected Zune folder is unavailable."),
                        );
                        Action::Nothing
                    },
                }
            },
            Pane::Device => match self.local_state.selected() {
                Some(directory) => Action::InspectDestination(directory),
                None => {
                    self.transfer_status = Some(copy_text("Select a local destination folder."));
                    Action::Nothing
                },
            },
        }
    }

    /// Copies the marked tracks to a local path, once it is known whether that is a directory.
    pub fn start_download(&mut self, directory: LocalPath, is_dir: bool) -> (r: Action)
        ensures
            final(self)@ == download_started(old(self)@, directory@, is_dir).state,
            r@ == download_started(old(self)@, directory@, is_dir).action,
            final(self).wf() == old(self).wf(),
    {
        if !is_dir {
            self.transfer_status = Some(copy_text("Select a local destination folder."));
            return Action::Nothing;
        }
        let tracks = match &self.connection {
            Connection::Connected(snapshot) => select_tracks(
                &snapshot.tracks,
                &self.device_marks,
            ),
            _ => {
                self.transfer_status = Some(copy_text(NOT_FOUND_SHORT));
                return Action::Nothing;
            },
        };
        self.download_directory = Some(directory.clone());
        self.transfer_running = true;
        self.transfer_status = Some(copy_text("Starting transfer..."));
        Action::Start(TransferJob::Download { tracks, directory })
    }
}

/// The tracks that are marked.
fn select_tracks(tracks: &Vec<Track>, marked: &std::collections::HashSet<u32>) -> (r: Vec<Track>)
    ensures
        crate::device::track_views(r@) == deletion::marked_tracks(
            crate::device::track_views(tracks@),
            marked@,
        ),
{
    let ghost all = crate::device::track_views(tracks@);
    let ghost keep = |t: TrackView| marked@.contains(t.id);
    let mut r: Vec<Track> = Vec::new();
    let mut i: usize = 0;
    proof {
        seqs::lemma_filter_ends(all, keep);
        assert(crate::device::track_views(r@) =~= all.take(0).filter(keep));
    }
    while i < tracks.len()
        invariant
            i <= tracks@.len(),
            all == crate::device::track_views(tracks@),
            keep == (|t: TrackView| marked@.contains(t.id)),
            crate::device::track_views(r@) == all.take(i as int).filter(keep),
        decreases tracks@.len() - i,
    {
        proof {
            seqs::lemma_filter_next(all, i as int, keep);
            assert(all[i as int] == tracks@[i as int]@);
        }
        if is_marked(marked, tracks[i].id) {
            let ghost before = crate::device::track_views(r@);
            let copy = tracks[i].clone();
            r.push(copy);
            assert(crate::device::track_views(r@) =~= before.push(copy@));
        }
        i = i + 1;
    }
    r
}

// ---------------------------------------------------------------------------
// Keys
// ---------------------------------------------------------------------------

/// The pane in use holds marks.
pub open spec fn focused_has_marks(a: AppView) -> bool {
    match a.focused_pane {
        Pane::Local => a.local_marks.len() > 0,
        Pane::Device => a.device_marks != Set::<u32>::empty(),
    }
}

/// How a key moves the cursor of the local tree; a directory is read before it is opened.
pub open spec fn local_motion(key: Key) -> ActionView {
    match key {
        Key::Up => ActionView::Move { tree: TreeName::Local, motion: Motion::Up },
        Key::Down => ActionView::Move { tree: TreeName::Local, motion: Motion::Down },
        Key::Left => ActionView::Move { tree: TreeName::Local, motion: Motion::Left },
        Key::Right => ActionView::LoadAndMove { motion: Motion::Right },
        Key::Enter => ActionView::LoadAndMove { motion: Motion::Toggle },
        _ => ActionView::Nothing,
    }
}

/// How a key moves the cursor of the device's tree.
pub open spec fn device_motion(key: Key) -> ActionView {
    match key {
        Key::Up => ActionView::Move { tree: TreeName::Device, motion: Motion::Up },
        Key::Down => ActionView::Move { tree: TreeName::Device, motion: Motion::Down },
        Key::Left => ActionView::Move { tree: TreeName::Device, motion: Motion::Left },
        Key::Right => ActionView::Move { tree: TreeName::Device, motion: Motion::Right },
        Key::Enter => ActionView::Move { tree: TreeName::Device, motion: Motion::Toggle },
        _ => ActionView::Nothing,
    }
}

/// The session once a key was pressed on the file screen.
pub open spec fn file_key(a: AppView, key: Key, shift: bool) -> Reaction {
    if key == Key::Tab {
        quiet(
            AppView {
                focused_pane: match a.focused_pane {
                    Pane::Local => Pane::Device,
                    Pane::Device => Pane::Local,
                },
                ..a
            },
        )
    } else if key == Key::Char('c') {
        quiet(with_status(session::unmarked(a), "Cleared all marks."@))
    } else if key == Key::Char(' ') {
        if shift {
            range_marked(a)
        } else {
            mark_toggled(a)
        }
    } else if key == Key::Delete {
        quiet(deletion_requested(a))
    } else if key == Key::Enter && focused_has_marks(a) {
        transfer_started(a)
    } else {
        Reaction {
            state: a,
            action: match a.focused_pane {
                Pane::Local => local_motion(key),
                Pane::Device => device_motion(key),
            },
        }
    }
}

impl App {
    /// Handles a key on the file screen.
    pub fn handle_file_key(&mut self, key: Key, shift: bool) -> (r: Action)
        ensures
            final(self)@ == file_key(old(self)@, key, shift).state,
            r@ == file_key(old(self)@, key, shift).action,
            old(self).wf() ==> final(self).wf(),
    {
        if key == Key::Tab {
            self.focused_pane = match self.focused_pane {
                Pane::Local => Pane::Device,
                Pane::Device => Pane::Local,
            };
            return Action::Nothing;
        }
        if key == Key::Char('c') {
            self.clear_marks();
            self.transfer_status = Some(copy_text("Cleared all marks."));
            return Action::Nothing;
        }
        if key == Key::Char(' ') {
            if shift {
                return self.mark_range();
            } else {
                return self.toggle_mark();
            }
        }
        if key == Key::Delete {
            self.request_delete();
            return Action::Nothing;
        }
        let has_marks = match self.focused_pane {
            Pane::Local => !self.local_marks.is_empty(),
            Pane::Device => !no_marks(&self.device_marks),
        };
        if key == Key::Enter && has_marks {
            return self.start_transfer();
        }
        match self.focused_pane {
            Pane::Local => match key {
                Key::Up => Action::Move { tree: TreeName::Local, motion: Motion::Up },
                Key::Down => Action::Move { tree: TreeName::Local, motion: Motion::Down },
                Key::Left => Action::Move { tree: TreeName::Local, motion: Motion::Left },
                Key::Right => Action::LoadAndMove { motion: Motion::Right },
                Key::Enter => Action::LoadAndMove { motion: Motion::Toggle },
                _ => Action::Nothing,
            },
            Pane::Device => match key {
                Key::Up => Action::Move { tree: TreeName::Device, motion: Motion::Up },
                Key::Down => Action::Move { tree: TreeName::Device, motion: Motion::Down },
                Key::Left => Action::Move { tree: TreeName::Device, motion: Motion::Left },
                Key::Right => Action::Move { tree: TreeName::Device, motion: Motion::Right },
                Key::Enter => Action::Move { tree: TreeName::Device, motion: Motion::Toggle },
                _ => Action::Nothing,
            },
        }
    }
}

/// A transfer that is under way keeps what is marked from being copied, and no deletion is asked
/// about.
pub proof fn lemma_one_transfer_at_a_time(a: AppView)
    requires
        a.transfer_running,
    ensures
        transfer_started(a).action == ActionView::Nothing,
        transfer_started(a).state == with_status(a, "A transfer is already in progress."@),
        deletion_requested(a) == a,
{
}

// ---------------------------------------------------------------------------
// What holds of marks and transfers
// ---------------------------------------------------------------------------

/// Switching the mark of a track on the device changes that mark and no other, and the track becomes
/// the anchor. Switching it twice gives the marks there were.
pub proof fn lemma_toggled_track(a: AppView, id: u32)
    requires
        a.focused_pane == Pane::Device,
        a.device_state.current() == Some(DeviceItemId::Track(id)),
    ensures
        ({
            let now = mark_toggled(a).state;
            &&& mark_toggled(a).action is Nothing
            &&& forall|x: u32| #[trigger]
                now.device_marks.contains(x) <==> (if x == id {
                    !a.device_marks.contains(x)
                } else {
                    a.device_marks.contains(x)
                })
            &&& now.device_anchor == Some(DeviceItemId::Track(id))
            &&& now == (AppView {
                device_marks: now.device_marks,
                device_anchor: now.device_anchor,
                ..a
            })
            &&& mark_toggled(now).state.device_marks == a.device_marks
        }),
{
    let now = mark_toggled(a).state;
    assert(mark_toggled(now).state.device_marks =~= a.device_marks);
}

/// Switching the mark of an album on the device marks all of its tracks, or unmarks them where all
/// of them are marked, and leaves every other track as it is.
pub proof fn lemma_toggled_album(a: AppView, id: u32)
    requires
        a.focused_pane == Pane::Device,
        a.device_state.current() == Some(DeviceItemId::Folder(id)),
        album_of(a, id) is Some,
    ensures
        ({
            let now = mark_toggled(a).state;
            let tracks = album_of(a, id)->0.track_ids;
            let full = tracks.len() > 0 && forall|t: u32| #[trigger]
                tracks.contains(t) ==> a.device_marks.contains(t);
            &&& mark_toggled(a).action is Nothing
            &&& forall|x: u32| #[trigger]
                now.device_marks.contains(x) <==> (if tracks.contains(x) {
                    !full
                } else {
                    a.device_marks.contains(x)
                })
            &&& now.device_anchor == Some(DeviceItemId::Folder(id))
            &&& now == (AppView {
                device_marks: now.device_marks,
                device_anchor: now.device_anchor,
                ..a
            })
        }),
{
    lemma_group_switched_exactly(a.device_marks, album_of(a, id)->0.track_ids);
}

/// Switching a group of tracks marks them all, or unmarks them where all are marked.
pub proof fn lemma_group_switched_exactly(marked: Set<u32>, ids: Seq<u32>)
    ensures
        ({
            let now = marks::group_switched(marked, ids);
            let full = ids.len() > 0 && forall|t: u32| #[trigger]
                ids.contains(t) ==> marked.contains(t);
            &&& marks::group_marked(ids, marked) == full
            &&& forall|x: u32| #[trigger]
                now.contains(x) <==> (if ids.contains(x) {
                    !full
                } else {
                    marked.contains(x)
                })
        }),
{
    if marks::group_marked(ids, marked) {
        assert forall|t: u32| #[trigger] ids.contains(t) implies marked.contains(t) by {
            let i = choose|i: int| 0 <= i < ids.len() && ids[i] == t;
            assert(marked.contains(ids[i]));
        }
    }
    if ids.len() > 0 && forall|t: u32| #[trigger] ids.contains(t) ==> marked.contains(t) {
        assert forall|i: int| 0 <= i < ids.len() implies marked.contains(#[trigger] ids[i]) by {
            assert(ids.contains(ids[i]));
        }
    }
    assert forall|x: u32| ids.to_set().contains(x) == #[trigger] ids.contains(x) by {}
}

/// The album of a folder is the first of the device's albums that has the folder's id; without a
/// device there is none.
pub proof fn lemma_album_of(a: AppView, id: u32)
    ensures
        (match album_of(a, id) {
            Some(album) => a.connection matches ConnectionView::Connected(snapshot) && exists|
                i: int,
            |
                0 <= i < library::physical(snapshot).len() && #[trigger] library::physical(
                    snapshot,
                )[i] == album && album.folder_id == id && forall|j: int|
                    0 <= j < i ==> (#[trigger] library::physical(snapshot)[j]).folder_id != id,
            None => a.connection matches ConnectionView::Connected(snapshot) ==> forall|j: int|
                0 <= j < library::physical(snapshot).len() ==> (#[trigger] library::physical(
                    snapshot,
                )[j]).folder_id != id,
        }),
{
    if let ConnectionView::Connected(snapshot) = a.connection {
        library::lemma_physical_with_id(library::physical(snapshot), id);
    }
}

/// A folder that is no album cannot be marked: nothing changes but the status.
pub proof fn lemma_toggled_other_folder(a: AppView, id: u32)
    requires
        a.focused_pane == Pane::Device,
        a.device_state.current() == Some(DeviceItemId::Folder(id)),
        album_of(a, id) is None,
    ensures
        mark_toggled(a).action is Nothing,
        mark_toggled(a).state == (AppView {
            transfer_status: Some("Only device albums and tracks can be marked."@),
            ..a
        }),
{
}

/// In the local pane the selected path is first looked at; where nothing is selected, nothing
/// happens.
pub proof fn lemma_toggled_local(a: AppView)
    ensures
        a.focused_pane == Pane::Local ==> mark_toggled(a).state == a,
        a.focused_pane == Pane::Local && a.local_state.path.len() > 0 ==> mark_toggled(a).action
            == ActionView::InspectSelection(a.local_state.path.last()),
        a.focused_pane == Pane::Local && a.local_state.path.len() == 0 ==> mark_toggled(a).action
            is Nothing,
        a.focused_pane == Pane::Device && a.device_state.path.len() == 0 ==> mark_toggled(a)
            == quiet(a) && mark_toggled(a).action is Nothing,
{
}

/// A path stands for a path to be marked: a file for itself, a directory for the audio files in it.
pub open spec fn path_stands_for(facts: FactsView, q: Seq<u8>) -> bool {
    if facts.is_file {
        local_path::same_path(facts.path, q)
    } else {
        browser::album_files(facts.listing) matches Some(files) && local_path::has_path(files, q)
    }
}

/// Switching the mark of a local file changes that mark and no other. Switching that of a directory
/// marks the audio files in it, or unmarks them where all of them are marked, and no others; one
/// without audio files cannot be marked.
pub proof fn lemma_toggled_path(a: AppView, facts: FactsView, q: Seq<u8>)
    ensures
        ({
            let now = local_mark_toggled(a, facts);
            let album = browser::album_files(facts.listing);
            let full = if facts.is_file {
                local_path::has_path(a.local_marks, facts.path)
            } else {
                album is Some && forall|i: int|
                    0 <= i < album->0.len() ==> local_path::has_path(
                        a.local_marks,
                        #[trigger] album->0[i],
                    )
            };
            if facts.is_file || album is Some {
                &&& local_path::has_path(now.local_marks, q) <==> (if path_stands_for(facts, q) {
                    !full
                } else {
                    local_path::has_path(a.local_marks, q)
                })
                &&& now.local_anchor == Some(facts.path)
                &&& now == (AppView {
                    local_marks: now.local_marks,
                    local_anchor: now.local_anchor,
                    ..a
                })
            } else {
                now == (AppView {
                    transfer_status: Some(
                        "Only files and Letter/Artist/Album folders can be marked."@,
                    ),
                    ..a
                })
            }
        }),
{
    let album = browser::album_files(facts.listing);
    local_path::lemma_with_path(a.local_marks, facts.path, q);
    local_path::lemma_without_path(a.local_marks, facts.path, q);
    if let Some(files) = album {
        local_path::lemma_with_paths(a.local_marks, files, q);
        local_path::lemma_without_paths(a.local_marks, files, q);
    }
}

/// Marking a range of local paths marks what they stand for, and leaves every other mark as it is.
pub proof fn lemma_marked_path_range(marked: Seq<Seq<u8>>, facts: Seq<FactsView>, q: Seq<u8>)
    ensures
        local_path::has_path(paths_marked(marked, facts), q) <==> local_path::has_path(marked, q)
            || exists|i: int| 0 <= i < facts.len() && path_stands_for(#[trigger] facts[i], q),
    decreases facts.len(),
{
    if facts.len() > 0 {
        let front = facts.drop_last();
        let last = facts.last();
        lemma_marked_path_range(marked, front, q);
        let before = paths_marked(marked, front);
        local_path::lemma_with_path(before, last.path, q);
        if let Some(files) = browser::album_files(last.listing) {
            local_path::lemma_with_paths(before, files, q);
        }
        assert(local_path::has_path(paths_marked(marked, facts), q) <==> local_path::has_path(
            before,
            q,
        ) || path_stands_for(last, q));
        if exists|i: int| 0 <= i < front.len() && path_stands_for(#[trigger] front[i], q) {
            let i = choose|i: int| 0 <= i < front.len() && path_stands_for(#[trigger] front[i], q);
            assert(path_stands_for(facts[i], q));
        }
        if path_stands_for(last, q) {
            assert(path_stands_for(facts[facts.len() - 1], q));
        }
        if exists|i: int| 0 <= i < facts.len() && path_stands_for(#[trigger] facts[i], q) {
            let i = choose|i: int| 0 <= i < facts.len() && path_stands_for(#[trigger] facts[i], q);
            if i < front.len() {
                assert(path_stands_for(front[i], q));
            }
        }
    }
}

/// Marking a range on the device marks what the visible items from the anchor to the selected one
/// stand for, and nothing else; the anchor stays.
pub proof fn lemma_marked_device_range(a: AppView, a_at: int, b_at: int, id: u32)
    requires
        a.focused_pane == Pane::Device,
        a.connection is Connected,
        a.device_anchor is Some,
        a.device_state.current() is Some,
        ({
            let visible = visible_items(a, a.connection->Connected_0);
            &&& device_tree::first_passing(
                visible,
                device_tree::is_item(a.device_anchor->0),
                a_at,
            )
            &&& device_tree::first_passing(
                visible,
                device_tree::is_item(a.device_state.current()->0),
                b_at,
            )
        }),
    ensures
        ({
            let snapshot = a.connection->Connected_0;
            let visible = visible_items(a, snapshot);
            let now = range_marked(a).state;
            &&& range_marked(a).action is Nothing
            &&& now == (AppView { device_marks: now.device_marks, ..a })
            &&& now.device_marks.contains(id) <==> a.device_marks.contains(id) || exists|k: int|
                (a_at <= k <= b_at || b_at <= k <= a_at) && device_tree::stands_for(
                    #[trigger] visible[k],
                    library::physical(snapshot),
                    id,
                )
        }),
{
    let snapshot = a.connection->Connected_0;
    let visible = visible_items(a, snapshot);
    let albums = library::physical(snapshot);
    let anchor = a.device_anchor->0;
    let current = a.device_state.current()->0;
    let range = device_tree::item_range(visible, anchor, current);
    device_tree::lemma_range_between(
        visible,
        device_tree::is_item(anchor),
        device_tree::is_item(current),
    );
    device_tree::lemma_items_mark_exactly(a.device_marks, range, albums, id);
    let low = if a_at < b_at {
        a_at
    } else {
        b_at
    };
    if exists|i: int| 0 <= i < range.len() && device_tree::stands_for(#[trigger] range[i], albums, id)
    {
        let i = choose|i: int|
            0 <= i < range.len() && device_tree::stands_for(#[trigger] range[i], albums, id);
        assert(range[(low + i) - low] == visible[low + i]);
    }
    if exists|k: int|
        (a_at <= k <= b_at || b_at <= k <= a_at) && device_tree::stands_for(
            #[trigger] visible[k],
            albums,
            id,
        ) {
        let k = choose|k: int|
            (a_at <= k <= b_at || b_at <= k <= a_at) && device_tree::stands_for(
                #[trigger] visible[k],
                albums,
                id,
            );
        assert(range[k - low] == visible[k]);
    }
}

/// Without an anchor, marking a range switches the mark of the selected item; in the local pane the
/// visible paths from the anchor to the selected one are first looked at.
pub proof fn lemma_range_starts(a: AppView)
    ensures
        a.focused_pane == Pane::Device && a.device_anchor is None ==> range_marked(a)
            == mark_toggled(a),
        a.focused_pane == Pane::Local && a.local_anchor is None ==> range_marked(a)
            == mark_toggled(a),
        a.focused_pane == Pane::Local && a.local_anchor is Some ==> range_marked(a).state == a,
        a.focused_pane == Pane::Local && a.local_anchor is Some && a.local_state.path.len() > 0
            ==> range_marked(a).action == ActionView::InspectRange(
            path_range(visible_paths(a), a.local_anchor->0, a.local_state.path.last()),
        ),
        a.focused_pane == Pane::Device && a.device_anchor is Some && !(a.connection is Connected)
            ==> range_marked(a) == quiet(a),
{
}

/// The paths of a range are the visible ones from the anchor to the selected one, both taken in.
pub proof fn lemma_path_range(
    visible: Seq<Seq<u8>>,
    anchor: Seq<u8>,
    current: Seq<u8>,
    i: int,
    j: int,
)
    requires
        device_tree::first_passing(
            visible,
            |p: Seq<u8>| path::components(p) == path::components(anchor),
            i,
        ),
        device_tree::first_passing(
            visible,
            |p: Seq<u8>| path::components(p) == path::components(current),
            j,
        ),
    ensures
        ({
            let low = if i < j {
                i
            } else {
                j
            };
            let high = if i < j {
                j
            } else {
                i
            };
            path_range(visible, anchor, current) == visible.subrange(low, high + 1)
        }),
{
    let is_anchor = |p: Seq<u8>| local_path::same_path(p, anchor);
    let is_current = |p: Seq<u8>| local_path::same_path(p, current);
    let as_anchor = |p: Seq<u8>| path::components(p) == path::components(anchor);
    let as_current = |p: Seq<u8>| path::components(p) == path::components(current);
    assert forall|k: int| 0 <= k < i implies !is_anchor(#[trigger] visible[k]) by {
        assert(!as_anchor(visible[k]));
    }
    assert forall|k: int| 0 <= k < j implies !is_current(#[trigger] visible[k]) by {
        assert(!as_current(visible[k]));
    }
    assert(device_tree::first_passing(visible, is_anchor, i));
    assert(device_tree::first_passing(visible, is_current, j));
    device_tree::lemma_range_between(visible, is_anchor, is_current);
    let low = if i < j {
        i
    } else {
        j
    };
    let high = if i < j {
        j
    } else {
        i
    };
    let range = path_range(visible, anchor, current);
    assert forall|k: int| 0 <= k < range.len() implies range[k] == visible.subrange(
        low,
        high + 1,
    )[k] by {
        assert(range[(low + k) - low] == visible[low + k]);
    }
    assert(range =~= visible.subrange(low, high + 1));
}

/// Before a deletion it is asked about all that the marks reach, and nothing else changes. Nothing is
/// asked without a device, without marks, in the local pane or while a transfer is under way.
pub proof fn lemma_requested_deletion(a: AppView)
    ensures
        ({
            let now = deletion_requested(a);
            let possible = a.focused_pane == Pane::Device && !a.transfer_running && a.connection is Connected
                && (exists|id: u32| #[trigger] a.device_marks.contains(id)) && deletion::scope(
                a.connection->Connected_0,
                a.device_marks,
            ).items.len() > 0;
            &&& !possible ==> now == a
            &&& possible ==> {
                let snapshot = a.connection->Connected_0;
                &&& now.delete_confirmation matches Some(asked) && asked.scope == deletion::scope(
                    snapshot,
                    a.device_marks,
                ) && (snapshot.info.friendly_name.len() > 0 ==> asked.device_name
                    == snapshot.info.friendly_name) && (snapshot.info.friendly_name.len() == 0
                    ==> asked.device_name == snapshot.info.model)
                &&& now == (AppView { delete_confirmation: now.delete_confirmation, ..a })
            }
        }),
{
    if exists|id: u32| #[trigger] a.device_marks.contains(id) {
        let id = choose|id: u32| #[trigger] a.device_marks.contains(id);
        assert(a.device_marks != Set::<u32>::empty());
    } else {
        assert(a.device_marks =~= Set::<u32>::empty());
    }
}

/// The question before a deletion is answered by yes or no: y and the enter key make the deletion of
/// what was asked about the next job, n and the escape key make none; every other key changes
/// nothing.
pub proof fn lemma_answered_deletion(a: AppView, key: Key)
    requires
        a.delete_confirmation is Some,
    ensures
        ({
            let now = deletion_answered(a, key);
            let yes = key == Key::Char('y') || key == Key::Char('Y') || key == Key::Enter;
            let no = key == Key::Char('n') || key == Key::Char('N') || key == Key::Esc;
            &&& yes ==> now.delete_confirmation is None && now.pending_transfer == Some(
                JobView::Delete { items: a.delete_confirmation->0.scope.items },
            )
            &&& no ==> now.delete_confirmation is None && now.pending_transfer
                == a.pending_transfer && now.transfer_status == Some("Delete cancelled."@)
            &&& !yes && !no ==> now == a
            &&& now == (AppView {
                delete_confirmation: now.delete_confirmation,
                pending_transfer: now.pending_transfer,
                transfer_status: now.transfer_status,
                ..a
            })
        }),
{
}

/// An upload is started from the local pane: it sends the marked files, in their order, to the folder
/// that is selected on the device, on that folder's storage. Where no folder is selected, or the
/// device does not have it, only a status is shown.
pub proof fn lemma_started_upload(a: AppView)
    requires
        a.focused_pane == Pane::Local,
        !a.transfer_running,
    ensures
        ({
            let r = transfer_started(a);
            let target = a.device_state.current();
            let ready = target matches Some(DeviceItemId::Folder(id)) && a.connection is Connected
                && folders::found(a.connection->Connected_0.folders, id) is Some;
            &&& ready ==> {
                let id = target->0->Folder_0;
                &&& r.action == ActionView::Start(
                    JobView::Upload {
                        files: a.local_marks,
                        folder_id: id,
                        storage_id: folders::found(
                            a.connection->Connected_0.folders,
                            id,
                        )->0.storage_id,
                    },
                )
                &&& r.state.transfer_running
                &&& r.state == (AppView {
                    transfer_running: true,
                    transfer_status: Some("Starting transfer..."@),
                    ..a
                })
            }
            &&& !ready ==> r.action is Nothing && r.state.transfer_status is Some && r.state == (
            AppView { transfer_status: r.state.transfer_status, ..a })
        }),
{
}

/// A download is started from the device pane: it asks for the marked tracks, in the order of the
/// device, and writes them into the local directory that is selected. Where that is no directory,
/// or there is no device, only a status is shown.
pub proof fn lemma_started_download(a: AppView, directory: Seq<u8>, is_dir: bool)
    ensures
        a.focused_pane == Pane::Device && !a.transfer_running && a.local_state.path.len() > 0
            ==> transfer_started(a).state == a && transfer_started(a).action
            == ActionView::InspectDestination(a.local_state.path.last()),
        a.focused_pane == Pane::Device && !a.transfer_running && a.local_state.path.len() == 0
            ==> transfer_started(a).action is Nothing && transfer_started(a).state == (AppView {
            transfer_status: Some("Select a local destination folder."@),
            ..a
        }),
        ({
            let r = download_started(a, directory, is_dir);
            let ready = is_dir && a.connection is Connected;
            &&& ready ==> {
                &&& r.action matches ActionView::Start(JobView::Download { tracks, directory: to })
                    && to == directory && seqs::is_selection(
                    a.connection->Connected_0.tracks,
                    tracks,
                    |t: TrackView| a.device_marks.contains(t.id),
                )
                &&& r.state == (AppView {
                    download_directory: Some(directory),
                    transfer_running: true,
                    transfer_status: Some("Starting transfer..."@),
                    ..a
                })
            }
            &&& !ready ==> r.action is Nothing && r.state.transfer_status is Some && r.state == (
            AppView { transfer_status: r.state.transfer_status, ..a })
        }),
{
    if let ConnectionView::Connected(snapshot) = a.connection {
        seqs::lemma_filter_selects(
            snapshot.tracks,
            |t: TrackView| a.device_marks.contains(t.id),
        );
    }
}

/// The tabulator changes between the two panes and nothing else; pressed twice, it changes nothing.
/// The c key takes away all marks and anchors of both panes and leaves the rest.
pub proof fn lemma_pane_keys(a: AppView, shift: bool)
    ensures
        ({
            let once = file_key(a, Key::Tab, shift);
            let cleared = file_key(a, Key::Char('c'), shift);
            &&& once.action is Nothing
            &&& once.state.focused_pane != a.focused_pane
            &&& once.state == (AppView { focused_pane: once.state.focused_pane, ..a })
            &&& file_key(once.state, Key::Tab, shift).state == a
            &&& cleared.action is Nothing
            &&& cleared.state.local_marks.len() == 0
            &&& forall|id: u32| !#[trigger] cleared.state.device_marks.contains(id)
            &&& cleared.state.local_anchor is None && cleared.state.device_anchor is None
            &&& cleared.state == (AppView {
                local_marks: cleared.state.local_marks,
                device_marks: cleared.state.device_marks,
                local_anchor: None,
                device_anchor: None,
                transfer_status: Some("Cleared all marks."@),
                ..a
            })
        }),
{
}

/// A key that moves through a tree moves through that of the pane in use, in its own direction, and
/// changes nothing else. The local directory is read before it is opened. The enter key opens and
/// closes only where nothing is marked in the pane; otherwise it starts a transfer.
pub proof fn lemma_moving_keys(a: AppView, key: Key, shift: bool)
    ensures
        ({
            let r = file_key(a, key, shift);
            let tree = match a.focused_pane {
                Pane::Local => TreeName::Local,
                Pane::Device => TreeName::Device,
            };
            let has_marks = match a.focused_pane {
                Pane::Local => a.local_marks.len() > 0,
                Pane::Device => exists|id: u32| #[trigger] a.device_marks.contains(id),
            };
            &&& key == Key::Up ==> r.state == a && r.action == (ActionView::Move {
                tree,
                motion: Motion::Up,
            })
            &&& key == Key::Down ==> r.state == a && r.action == (ActionView::Move {
                tree,
                motion: Motion::Down,
            })
            &&& key == Key::Left ==> r.state == a && r.action == (ActionView::Move {
                tree,
                motion: Motion::Left,
            })
            &&& key == Key::Right ==> r.state == a && r.action == (if tree == TreeName::Local {
                ActionView::LoadAndMove { motion: Motion::Right }
            } else {
                ActionView::Move { tree, motion: Motion::Right }
            })
            &&& key == Key::Enter && !has_marks ==> r.state == a && r.action == (if tree
                == TreeName::Local {
                ActionView::LoadAndMove { motion: Motion::Toggle }
            } else {
                ActionView::Move { tree, motion: Motion::Toggle }
            })
            &&& key == Key::Enter && has_marks ==> r == transfer_started(a)
            &&& key == Key::Delete ==> r.action is Nothing && r.state == deletion_requested(a)
            &&& key == Key::Char(' ') && shift ==> r == range_marked(a)
            &&& key == Key::Char(' ') && !shift ==> r == mark_toggled(a)
            &&& key == Key::PageUp || key == Key::PageDown || key == Key::Backspace || key
                == Key::Other ==> r.state == a && r.action is Nothing
            &&& (key matches Key::Char(c) && c != 'c' && c != ' ') ==> r.state == a
                && r.action is Nothing
        }),
{
    if exists|id: u32| #[trigger] a.device_marks.contains(id) {
        let id = choose|id: u32| #[trigger] a.device_marks.contains(id);
        assert(a.device_marks != Set::<u32>::empty());
    } else {
        assert(a.device_marks =~= Set::<u32>::empty());
    }
}

} // verus!
