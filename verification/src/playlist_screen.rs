//! The playlist screens and the settings.
use std::collections::HashSet;

use vstd::prelude::*;

use crate::deletion;
use crate::deletion::{PlaylistConfirmation, PlaylistConfirmationView};
use crate::device;
use crate::device::{Playlist, PlaylistView, Track, TrackView};
use crate::device_tree;
use crate::device_tree::{playlist_tracks, snapshot_storage_id};
use crate::file_screen;
use crate::file_screen::{is_cancelling, is_confirming};
use crate::keys::Key;
use crate::library::physical_album;
use crate::marks;
use crate::marks::{is_marked, no_marks, switch_mark, toggle_track_group};
use crate::palette::Theme;
use crate::seqs;
use crate::session;
use crate::session::{
    Action, ActionView, App, AppView, Connection, ConnectionView, Motion, PlaylistPane, TreeName,
};
use crate::text;
use crate::text::{chars_of, copy_text, string_of, trim_chars};
use crate::transfer::{JobView, TransferJob};
use crate::tree::DeviceItemId;

verus! {

// ---------------------------------------------------------------------------
// Lists
// ---------------------------------------------------------------------------

/// The row behind the selected one; the first row where none is selected.
pub open spec fn next_row(selected: Option<usize>) -> usize {
    match selected {
        Some(i) => if i < usize::MAX {
            (i + 1) as usize
        } else {
            i
        },
        None => 0,
    }
}

/// The row before the selected one; the last row that a list can have where none is selected.
pub open spec fn previous_row(selected: Option<usize>) -> usize {
    match selected {
        Some(i) => if i > 0 {
            (i - 1) as usize
        } else {
            0
        },
        None => usize::MAX,
    }
}

/// `ratatui::widgets::ListState::select_next`: selects the row behind the selected one, or the
/// first row where none is selected; the number of rows does not count.
#[verifier::external_body]
fn select_next(selected: Option<usize>) -> (r: Option<usize>)
    ensures
        r == Some(next_row(selected)),
{
    let mut state = ratatui::widgets::ListState::default().with_selected(selected);
    state.select_next();
    state.selected()
}

/// `ratatui::widgets::ListState::select_previous`: selects the row before the selected one, the
/// first row where that is selected, or the largest number where none is selected.
#[verifier::external_body]
fn select_previous(selected: Option<usize>) -> (r: Option<usize>)
    ensures
        r == Some(previous_row(selected)),
{
    let mut state = ratatui::widgets::ListState::default().with_selected(selected);
    state.select_previous();
    state.selected()
}

/// The row behind the selected one, but none behind the last of `length` rows.
pub open spec fn next_within(selected: Option<usize>, length: int) -> usize {
    if next_row(selected) >= length {
        (length - 1) as usize
    } else {
        next_row(selected)
    }
}

// ---------------------------------------------------------------------------
// The list of playlists
// ---------------------------------------------------------------------------

/// The number of rows: one for each playlist, and one to create one.
pub open spec fn row_count(a: AppView) -> int {
    match session::snapshot_of(a.connection) {
        Some(snapshot) => snapshot.playlists.len() as int + 1,
        None => 1,
    }
}

/// The session with another row of the playlist list selected.
pub open spec fn row_selected(a: AppView, row: usize) -> AppView {
    AppView {
        playlist_state: Some(row),
        playlist_track_state: None,
        playlist_track_marks: Set::empty(),
        ..a
    }
}

/// The playlists that are marked.
pub open spec fn marked_playlists(a: AppView) -> Seq<PlaylistView> {
    match session::snapshot_of(a.connection) {
        Some(snapshot) => snapshot.playlists.filter(
            |p: PlaylistView| a.playlist_delete_marks.contains(p.id),
        ),
        None => Seq::empty(),
    }
}

/// The session once a key was pressed in the list of playlists.
pub open spec fn list_key(a: AppView, key: Key) -> file_screen::Reaction {
    match key {
        Key::Up => file_screen::quiet(row_selected(a, previous_row(a.playlist_state))),
        Key::Down => file_screen::quiet(
            row_selected(a, next_within(a.playlist_state, row_count(a))),
        ),
        Key::Enter => file_screen::quiet(
            if a.playlist_state == Some(0usize) {
                AppView { playlist_name_input: Some(Seq::empty()), ..a }
            } else {
                a
            },
        ),
        Key::Char(' ') => file_screen::quiet(
            match session::selected_of(a) {
                Some(playlist) => AppView {
                    playlist_delete_marks: marks::switched(a.playlist_delete_marks, playlist.id),
                    ..a
                },
                None => a,
            },
        ),
        Key::Char('a') => match session::selected_of(a) {
            Some(playlist) => file_screen::Reaction {
                state: session::activated(a, playlist),
                action: ActionView::Save,
            },
            None => file_screen::quiet(a),
        },
        Key::Delete => file_screen::quiet(
            if marked_playlists(a).len() > 0 {
                AppView {
                    playlist_confirmation: Some(
                        PlaylistConfirmationView::DeletePlaylists(marked_playlists(a)),
                    ),
                    ..a
                }
            } else {
                a
            },
        ),
        _ => file_screen::quiet(a),
    }
}

/// The playlists that are marked.
fn select_playlists(playlists: &Vec<Playlist>, marked: &HashSet<u32>) -> (r: Vec<Playlist>)
    ensures
        device::playlist_views(r@) == device::playlist_views(playlists@).filter(
            |p: PlaylistView| marked@.contains(p.id),
        ),
{
    let ghost all = device::playlist_views(playlists@);
    let ghost keep = |p: PlaylistView| marked@.contains(p.id);
    let mut r: Vec<Playlist> = Vec::new();
    let mut i: usize = 0;
    proof {
        seqs::lemma_filter_ends(all, keep);
        assert(device::playlist_views(r@) =~= all.take(0).filter(keep));
    }
    while i < playlists.len()
        invariant
            i <= playlists@.len(),
            all == device::playlist_views(playlists@),
            keep == (|p: PlaylistView| marked@.contains(p.id)),
            device::playlist_views(r@) == all.take(i as int).filter(keep),
        decreases playlists@.len() - i,
    {
        proof {
            seqs::lemma_filter_next(all, i as int, keep);
            assert(all[i as int] == playlists@[i as int]@);
        }
        if is_marked(marked, playlists[i].id) {
            let ghost before = device::playlist_views(r@);
            let copy = playlists[i].clone();
            r.push(copy);
            assert(device::playlist_views(r@) =~= before.push(copy@));
        }
        i = i + 1;
    }
    r
}

impl App {
    /// Handles a key in the list of playlists.
    pub fn handle_playlist_list_key(&mut self, key: Key) -> (r: Action)
        ensures
            final(self)@ == list_key(old(self)@, key).state,
            r@ == list_key(old(self)@, key).action,
            final(self).wf() == old(self).wf(),
    {
        match key {
            Key::Up => {
                self.playlist_state = select_previous(self.playlist_state);
                self.playlist_track_state = None;
                self.playlist_track_marks.clear();
                Action::Nothing
            },
            Key::Down => {
                let last: usize = match &self.connection {
                    Connection::Connected(snapshot) => snapshot.playlists.len(),
                    _ => 0,
                };
                self.playlist_state = select_next(self.playlist_state);
                if let Some(row) = self.playlist_state {
                    if row > last {
                        self.playlist_state = Some(last);
                    }
                }
                self.playlist_track_state = None;
                self.playlist_track_marks.clear();
                Action::Nothing
            },
            Key::Enter => {
                if let Some(row) = self.playlist_state {
                    if row == 0 {
                        let empty = String::new();
                        assert(empty@ =~= Seq::<char>::empty());
                        self.playlist_name_input = Some(empty);
                    }
                }
                Action::Nothing
            },
            Key::Char(' ') => {
                if let Some(playlist) = self.selected_playlist() {
                    switch_mark(&mut self.playlist_delete_marks, playlist.id);
                }
                Action::Nothing
            },
            Key::Char('a') => match self.selected_playlist() {
                Some(playlist) => self.set_active_playlist(&playlist),
                None => Action::Nothing,
            },
            Key::Delete => {
                if let Connection::Connected(snapshot) = &self.connection {
                    let playlists = select_playlists(
                        &snapshot.playlists,
                        &self.playlist_delete_marks,
                    );
                    assert(device::playlist_views(playlists@).len() == playlists@.len());
                    if playlists.len() > 0 {
                        self.playlist_confirmation = Some(
                            PlaylistConfirmation::DeletePlaylists(playlists),
                        );
                    }
                }
                Action::Nothing
            },
            _ => Action::Nothing,
        }
    }
}

// ---------------------------------------------------------------------------
// The tracks of a playlist
// ---------------------------------------------------------------------------

/// The tracks of a playlist that the device lists.
pub open spec fn shown_tracks(a: AppView, playlist: Option<PlaylistView>) -> Seq<TrackView> {
    match (playlist, session::snapshot_of(a.connection)) {
        (Some(p), Some(snapshot)) => device_tree::tracks_with_ids(snapshot.tracks, p.track_ids),
        _ => Seq::empty(),
    }
}

/// The tracks of a playlist that are marked.
pub open spec fn marked_of(playlist: PlaylistView, marked: Set<u32>) -> Seq<u32> {
    playlist.track_ids.filter(|id: u32| marked.contains(id))
}

/// The session once a key was pressed in the tracks of a playlist.
pub open spec fn tracks_key(a: AppView, key: Key, playlist: Option<PlaylistView>) -> AppView {
    let tracks = shown_tracks(a, playlist);
    match key {
        Key::Up => AppView {
            playlist_track_state: Some(previous_row(a.playlist_track_state)),
            ..a
        },
        Key::Down => if tracks.len() > 0 {
            AppView {
                playlist_track_state: Some(
                    next_within(a.playlist_track_state, tracks.len() as int),
                ),
                ..a
            }
        } else {
            a
        },
        Key::Char(' ') => match a.playlist_track_state {
            Some(i) if i < tracks.len() => AppView {
                playlist_track_marks: marks::switched(
                    a.playlist_track_marks,
                    tracks[i as int].id,
                ),
                ..a
            },
            _ => a,
        },
        Key::Delete => match playlist {
            Some(p) if a.playlist_track_marks != Set::<u32>::empty() => AppView {
                playlist_confirmation: Some(
                    PlaylistConfirmationView::RemoveTracks {
                        playlist: p,
                        track_ids: marked_of(p, a.playlist_track_marks),
                    },
                ),
                ..a
            },
            _ => a,
        },
        _ => a,
    }
}

/// The ids that are marked.
fn select_ids(ids: &Vec<u32>, marked: &HashSet<u32>) -> (r: Vec<u32>)
    ensures
        r@ == ids@.filter(|id: u32| marked@.contains(id)),
{
    let ghost keep = |id: u32| marked@.contains(id);
    let mut r: Vec<u32> = Vec::new();
    let mut i: usize = 0;
    proof {
        seqs::lemma_filter_ends(ids@, keep);
    }
    while i < ids.len()
        invariant
            i <= ids@.len(),
            keep == (|id: u32| marked@.contains(id)),
            r@ == ids@.take(i as int).filter(keep),
        decreases ids@.len() - i,
    {
        proof {
            seqs::lemma_filter_next(ids@, i as int, keep);
        }
        if is_marked(marked, ids[i]) {
            r.push(ids[i]);
        }
        i = i + 1;
    }
    r
}

/// An optional playlist as a mathematical value.
pub open spec fn playlist_of(playlist: Option<Playlist>) -> Option<PlaylistView> {
    match playlist {
        Some(p) => Some(p@),
        None => None,
    }
}

impl App {
    /// Handles a key in the tracks of a playlist.
    pub fn handle_playlist_tracks_for(&mut self, key: Key, playlist: Option<Playlist>)
        ensures
            final(self)@ == tracks_key(old(self)@, key, playlist_of(playlist)),
            final(self).wf() == old(self).wf(),
    {
        let tracks: Vec<Track> = match (&playlist, &self.connection) {
            (Some(p), Connection::Connected(snapshot)) => playlist_tracks(
                &snapshot.tracks,
                &p.track_ids,
            ),
            _ => Vec::new(),
        };
        proof {
            assert(device::track_views(tracks@) =~= shown_tracks(self@, playlist_of(playlist)));
            assert(device::track_views(tracks@).len() == tracks@.len());
        }
        match key {
            Key::Up => {
                self.playlist_track_state = select_previous(self.playlist_track_state);
            },
            Key::Down => {
                if tracks.len() > 0 {
                    self.playlist_track_state = select_next(self.playlist_track_state);
                    if let Some(row) = self.playlist_track_state {
                        if row >= tracks.len() {
                            self.playlist_track_state = Some(tracks.len() - 1);
                        }
                    }
                }
            },
            Key::Char(' ') => {
                if let Some(row) = self.playlist_track_state {
                    if row < tracks.len() {
                        assert(device::track_views(tracks@)[row as int] == tracks@[row as int]@);
                        switch_mark(&mut self.playlist_track_marks, tracks[row].id);
                    }
                }
            },
            Key::Delete => {
                if !no_marks(&self.playlist_track_marks) {
                    if let Some(p) = playlist {
                        let track_ids = select_ids(&p.track_ids, &self.playlist_track_marks);
                        self.playlist_confirmation = Some(
                            PlaylistConfirmation::RemoveTracks { playlist: p, track_ids },
                        );
                    }
                }
            },
            _ => {},
        }
    }

    /// Handles a key in the tracks of the selected playlist.
    pub fn handle_playlist_track_key(&mut self, key: Key)
        ensures
            final(self)@ == tracks_key(old(self)@, key, session::selected_of(old(self)@)),
            final(self).wf() == old(self).wf(),
    {
        let playlist = self.selected_playlist();
        self.handle_playlist_tracks_for(key, playlist);
    }
}

/// The other pane.
pub open spec fn other_pane(pane: PlaylistPane) -> PlaylistPane {
    match pane {
        PlaylistPane::Playlists => PlaylistPane::Tracks,
        PlaylistPane::Tracks => PlaylistPane::Playlists,
    }
}

/// The session once a key was pressed on the playlist screen.
pub open spec fn playlist_key(a: AppView, key: Key) -> file_screen::Reaction {
    if key == Key::Tab {
        file_screen::quiet(AppView { playlist_focus: other_pane(a.playlist_focus), ..a })
    } else {
        match a.playlist_focus {
            PlaylistPane::Playlists => list_key(a, key),
            PlaylistPane::Tracks => file_screen::quiet(
                tracks_key(a, key, session::selected_of(a)),
            ),
        }
    }
}

/// The other pane.
fn swap_pane(pane: PlaylistPane) -> (r: PlaylistPane)
    ensures
        r == other_pane(pane),
{
    match pane {
        PlaylistPane::Playlists => PlaylistPane::Tracks,
        PlaylistPane::Tracks => PlaylistPane::Playlists,
    }
}

impl App {
    /// Handles a key on the playlist screen.
    pub fn handle_playlist_key(&mut self, key: Key) -> (r: Action)
        ensures
            final(self)@ == playlist_key(old(self)@, key).state,
            r@ == playlist_key(old(self)@, key).action,
            final(self).wf() == old(self).wf(),
    {
        if key == Key::Tab {
            self.playlist_focus = swap_pane(self.playlist_focus);
            return Action::Nothing;
        }
        match self.playlist_focus {
            PlaylistPane::Playlists => self.handle_playlist_list_key(key),
            PlaylistPane::Tracks => {
                self.handle_playlist_track_key(key);
                Action::Nothing
            },
        }
    }
}

// ---------------------------------------------------------------------------
// Adding tracks to the active playlist
// ---------------------------------------------------------------------------

/// The session once the mark of the selected item is switched on the screen on which tracks are
/// added.
pub open spec fn add_to_toggled(a: AppView) -> AppView {
    match a.add_to_device_state.current() {
        Some(DeviceItemId::Track(id)) => AppView {
            add_to_marks: marks::switched(a.add_to_marks, id),
            ..a
        },
        Some(DeviceItemId::Folder(id)) => match file_screen::album_of(a, id) {
            Some(album) => AppView {
                add_to_marks: marks::group_switched(a.add_to_marks, album.track_ids),
                ..a
            },
            None => file_screen::with_status(
                a,
                "Only device albums and tracks can be marked."@,
            ),
        },
        None => a,
    }
}

/// The ids of the tracks that are marked to be added, in the order of the device.
pub open spec fn ids_to_add(a: AppView) -> Seq<u32> {
    match session::snapshot_of(a.connection) {
        Some(snapshot) => snapshot.tracks.filter(
            |t: TrackView| a.add_to_marks.contains(t.id),
        ).map_values(|t: TrackView| t.id),
        None => Seq::empty(),
    }
}

/// The session once the marked tracks are to be added to the active playlist.
pub open spec fn addition_requested(a: AppView) -> AppView {
    match session::active_of(a) {
        None => file_screen::with_status(
            a,
            "No active playlist — set one with 'a' on the CRUD Playlist screen."@,
        ),
        Some(playlist) => if a.add_to_marks == Set::<u32>::empty() {
            file_screen::with_status(a, "Mark one or more tracks to add."@)
        } else {
            AppView {
                pending_transfer: Some(
                    JobView::AddPlaylistTracks { playlist, track_ids: ids_to_add(a) },
                ),
                transfer_status: Some("Adding tracks to playlist..."@),
                ..a
            }
        },
    }
}

/// How a key moves the cursor of the tree on the screen on which tracks are added.
pub open spec fn add_to_motion(motion: Motion) -> ActionView {
    ActionView::Move { tree: TreeName::AddTo, motion }
}

/// The session once a key was pressed on the screen on which tracks are added.
pub open spec fn add_to_key(a: AppView, key: Key) -> file_screen::Reaction {
    if key == Key::Tab {
        file_screen::quiet(AppView { add_to_focus: other_pane(a.add_to_focus), ..a })
    } else if a.add_to_focus == PlaylistPane::Tracks {
        file_screen::quiet(tracks_key(a, key, session::active_of(a)))
    } else {
        match key {
            Key::Up => file_screen::Reaction { state: a, action: add_to_motion(Motion::Up) },
            Key::Down => file_screen::Reaction { state: a, action: add_to_motion(Motion::Down) },
            Key::Left => file_screen::Reaction { state: a, action: add_to_motion(Motion::Left) },
            Key::Right => file_screen::Reaction {
                state: a,
                action: add_to_motion(Motion::Right),
            },
            Key::Char(' ') => file_screen::quiet(add_to_toggled(a)),
            Key::Enter => file_screen::quiet(addition_requested(a)),
            _ => file_screen::quiet(a),
        }
    }
}

/// The ids of the tracks that are marked, in the order of the device.
fn select_track_ids(tracks: &Vec<Track>, marked: &HashSet<u32>) -> (r: Vec<u32>)
    ensures
        r@ == device::track_views(tracks@).filter(
            |t: TrackView| marked@.contains(t.id),
        ).map_values(|t: TrackView| t.id),
{
    let ghost all = device::track_views(tracks@);
    let ghost keep = |t: TrackView| marked@.contains(t.id);
    let ghost id_of = |t: TrackView| t.id;
    let mut r: Vec<u32> = Vec::new();
    let mut i: usize = 0;
    proof {
        seqs::lemma_filter_ends(all, keep);
        assert(r@ =~= all.take(0).filter(keep).map_values(id_of));
    }
    while i < tracks.len()
        invariant
            i <= tracks@.len(),
            all == device::track_views(tracks@),
            keep == (|t: TrackView| marked@.contains(t.id)),
            id_of == (|t: TrackView| t.id),
            r@ == all.take(i as int).filter(keep).map_values(id_of),
        decreases tracks@.len() - i,
    {
        proof {
            seqs::lemma_filter_next(all, i as int, keep);
            assert(all[i as int] == tracks@[i as int]@);
        }
        if is_marked(marked, tracks[i].id) {
            let ghost kept = all.take(i as int).filter(keep);
            r.push(tracks[i].id);
            assert(kept.push(all[i as int]).map_values(id_of) =~= kept.map_values(id_of).push(
                all[i as int].id,
            ));
        }
        i = i + 1;
    }
    r
}

impl App {
    /// Switches the mark of the selected item on the screen on which tracks are added.
    pub fn toggle_add_to_mark(&mut self)
        ensures
            final(self)@ == add_to_toggled(old(self)@),
            final(self).wf() == old(self).wf(),
    {
        match self.add_to_device_state.selected() {
            Some(DeviceItemId::Track(id)) => {
                switch_mark(&mut self.add_to_marks, id);
            },
            Some(DeviceItemId::Folder(id)) => {
                let album = match &self.connection {
                    Connection::Connected(snapshot) => physical_album(snapshot, id),
                    _ => None,
                };
                match album {
                    Some(album) => {
                        toggle_track_group(&mut self.add_to_marks, &album.track_ids);
                    },
                    None => {
                        self.transfer_status = Some(
                            copy_text("Only device albums and tracks can be marked."),
                        );
                    },
                }
            },
            None => {},
        }
    }

    /// Adds the marked tracks to the active playlist.
    pub fn add_marked_tracks_to_active_playlist(&mut self)
        ensures
            final(self)@ == addition_requested(old(self)@),
            final(self).wf() == old(self).wf(),
    {
        let playlist = match self.active_playlist() {
            Some(playlist) => playlist,
            None => {
                self.transfer_status = Some(
                    copy_text("No active playlist — set one with 'a' on the CRUD Playlist screen."),
                );
                return;
            },
        };
        if no_marks(&self.add_to_marks) {
            self.transfer_status = Some(copy_text("Mark one or more tracks to add."));
            return;
        }
        let track_ids: Vec<u32> = match &self.connection {
            Connection::Connected(snapshot) => select_track_ids(
                &snapshot.tracks,
                &self.add_to_marks,
            ),
            _ => Vec::new(),
        };
        self.pending_transfer = Some(TransferJob::AddPlaylistTracks { playlist, track_ids });
        self.transfer_status = Some(copy_text("Adding tracks to playlist..."));
    }

    /// Handles a key on the screen on which tracks are added.
    pub fn handle_add_to_playlist_key(&mut self, key: Key) -> (r: Action)
        ensures
            final(self)@ == add_to_key(old(self)@, key).state,
            r@ == add_to_key(old(self)@, key).action,
            final(self).wf() == old(self).wf(),
    {
        if key == Key::Tab {
            self.add_to_focus = swap_pane(self.add_to_focus);
            return Action::Nothing;
        }
        if self.add_to_focus == PlaylistPane::Tracks {
            let playlist = self.active_playlist();
            self.handle_playlist_tracks_for(key, playlist);
            return Action::Nothing;
        }
        match key {
            Key::Up => Action::Move { tree: TreeName::AddTo, motion: Motion::Up },
            Key::Down => Action::Move { tree: TreeName::AddTo, motion: Motion::Down },
            Key::Left => Action::Move { tree: TreeName::AddTo, motion: Motion::Left },
            Key::Right => Action::Move { tree: TreeName::AddTo, motion: Motion::Right },
            Key::Char(' ') => {
                self.toggle_add_to_mark();
                Action::Nothing
            },
            Key::Enter => {
                self.add_marked_tracks_to_active_playlist();
                Action::Nothing
            },
            _ => Action::Nothing,
        }
    }
}

// ---------------------------------------------------------------------------
// Names, confirmations and settings
// ---------------------------------------------------------------------------

/// The session once the name of a new playlist was given.
pub open spec fn name_given(a: AppView) -> AppView {
    match a.playlist_name_input {
        None => a,
        Some(input) => {
            let name = text::trimmed(input);
            let taken = AppView { playlist_name_input: None, ..a };
            let storage = match session::snapshot_of(a.connection) {
                Some(snapshot) => device_tree::storage_of(snapshot),
                None => None,
            };
            if name.len() == 0 {
                file_screen::with_status(taken, "Playlist name cannot be empty."@)
            } else {
                match storage {
                    Some(storage_id) => AppView {
                        pending_transfer: Some(JobView::CreatePlaylist { name, storage_id }),
                        transfer_status: Some("Creating playlist..."@),
                        ..taken
                    },
                    None => file_screen::with_status(taken, "No Zune storage is available."@),
                }
            }
        },
    }
}

/// The session once a key was pressed while a name is typed.
pub open spec fn name_key(a: AppView, key: Key) -> AppView {
    match key {
        Key::Enter => name_given(a),
        Key::Esc => AppView { playlist_name_input: None, ..a },
        Key::Backspace => match a.playlist_name_input {
            Some(input) if input.len() > 0 => AppView {
                playlist_name_input: Some(input.drop_last()),
                ..a
            },
            _ => a,
        },
        Key::Char(c) => match a.playlist_name_input {
            Some(input) => AppView { playlist_name_input: Some(input.push(c)), ..a },
            None => a,
        },
        _ => a,
    }
}

/// The job that a change of playlists asks for.
pub open spec fn job_of_change(confirmation: PlaylistConfirmationView) -> JobView {
    match confirmation {
        PlaylistConfirmationView::DeletePlaylists(playlists) => JobView::DeletePlaylists {
            playlists,
        },
        PlaylistConfirmationView::RemoveTracks { playlist, track_ids } => {
            JobView::RemovePlaylistTracks { playlist, track_ids }
        },
    }
}

/// The session once a key answers the question before a change of playlists.
pub open spec fn change_answered(a: AppView, key: Key) -> AppView {
    if file_screen::confirms(key) {
        match a.playlist_confirmation {
            Some(confirmation) => AppView {
                playlist_confirmation: None,
                pending_transfer: Some(job_of_change(confirmation)),
                transfer_status: Some("Updating playlists..."@),
                ..a
            },
            None => a,
        }
    } else if file_screen::cancels(key) {
        AppView {
            playlist_confirmation: None,
            transfer_status: Some("Playlist change cancelled."@),
            ..a
        }
    } else {
        a
    }
}

/// The row of the settings that is selected; the first one where none is.
pub open spec fn settings_row(a: AppView) -> usize {
    match a.settings_state {
        Some(row) => row,
        None => 0,
    }
}

/// The row of the settings that a key leads to.
pub open spec fn settings_target(row: usize, key: Key) -> Option<usize> {
    match key {
        Key::Up => Some(if row > 0 {
            (row - 1) as usize
        } else {
            0
        }),
        Key::Down => Some(if row < 4 {
            (row + 1) as usize
        } else {
            4
        }),
        Key::Enter => Some(row),
        _ => None,
    }
}

/// A key on the settings leads to a row that a theme stands in, or to none.
pub open spec fn leads_to_theme(a: AppView, key: Key) -> bool {
    &&& key == Key::Up ==> settings_row(a) <= 5
    &&& key == Key::Enter ==> settings_row(a) < 5
}

/// The session once a key was pressed on the settings: the theme is that of the selected row.
pub open spec fn settings_key(a: AppView, key: Key) -> file_screen::Reaction {
    match settings_target(settings_row(a), key) {
        Some(row) => file_screen::Reaction {
            state: AppView {
                settings_state: Some(row),
                persisted: crate::app_state::StateView {
                    theme: Theme::ALL[row as int],
                    ..a.persisted
                },
                transfer_status: Some("Theme: "@ + Theme::ALL[row as int].name_text()),
                ..a
            },
            action: ActionView::ApplyTheme,
        },
        None => file_screen::quiet(a),
    }
}

impl App {
    /// Handles a key while the name of a new playlist is typed.
    pub fn handle_playlist_name_input(&mut self, key: Key)
        ensures
            final(self)@ == name_key(old(self)@, key),
            final(self).wf() == old(self).wf(),
    {
        match key {
            Key::Enter => {
                let input = match self.playlist_name_input.take() {
                    Some(input) => input,
                    None => return,
                };
                let chars = chars_of(&input);
                let name = string_of(&trim_chars(&chars));
                if name.as_str().is_empty() {
                    self.transfer_status = Some(copy_text("Playlist name cannot be empty."));
                    return;
                }
                let storage = match &self.connection {
                    Connection::Connected(snapshot) => snapshot_storage_id(snapshot),
                    _ => None,
                };
                match storage {
                    Some(storage_id) => {
                        self.pending_transfer = Some(
                            TransferJob::CreatePlaylist { name, storage_id },
                        );
                        self.transfer_status = Some(copy_text("Creating playlist..."));
                    },
                    None => {
                        self.transfer_status = Some(copy_text("No Zune storage is available."));
                    },
                }
            },
            Key::Esc => {
                self.playlist_name_input = None;
            },
            Key::Backspace => {
                if let Some(input) = &mut self.playlist_name_input {
                    input.pop();
                }
            },
            Key::Char(c) => {
                if let Some(input) = &mut self.playlist_name_input {
                    input.push(c);
                }
            },
            _ => {},
        }
    }

    /// Takes the answer to the question before a change of playlists.
    pub fn handle_playlist_confirmation(&mut self, key: Key)
        ensures
            final(self)@ == change_answered(old(self)@, key),
            final(self).wf() == old(self).wf(),
    {
        if is_confirming(key) {
            let confirmation = match self.playlist_confirmation.take() {
                Some(confirmation) => confirmation,
                None => return,
            };
            self.pending_transfer = Some(
                match confirmation {
                    PlaylistConfirmation::DeletePlaylists(playlists) => {
                        TransferJob::DeletePlaylists { playlists }
                    },
                    PlaylistConfirmation::RemoveTracks { playlist, track_ids } => {
                        TransferJob::RemovePlaylistTracks { playlist, track_ids }
                    },
                },
            );
            self.transfer_status = Some(copy_text("Updating playlists..."));
        } else if is_cancelling(key) {
            self.playlist_confirmation = None;
            self.transfer_status = Some(copy_text("Playlist change cancelled."));
        }
    }

    /// Handles a key on the settings.
    pub fn handle_settings_key(&mut self, key: Key) -> (r: Action)
        requires
            leads_to_theme(old(self)@, key),
        ensures
            final(self)@ == settings_key(old(self)@, key).state,
            r@ == settings_key(old(self)@, key).action,
            old(self).wf() ==> final(self).wf(),
    {
        let row: usize = match self.settings_state {
            Some(row) => row,
            None => 0,
        };
        let next: usize = match key {
            Key::Up => if row > 0 {
                row - 1
            } else {
                0
            },
            Key::Down => if row < 4 {
                row + 1
            } else {
                4
            },
            Key::Enter => row,
            _ => {
                return Action::Nothing;
            },
        };
        let theme = Theme::ALL[next];
        self.settings_state = Some(next);
        self.persisted.theme = theme;
        let mut status = copy_text("Theme: ");
        status.append(theme.name());
        self.transfer_status = Some(status);
        Action::ApplyTheme
    }
}

/// The theme is always that of the row that a key on the settings leads to.
pub proof fn lemma_settings_follow_selection(a: AppView, key: Key)
    requires
        leads_to_theme(a, key),
    ensures
        settings_key(a, key).action == ActionView::ApplyTheme ==> {
            let now = settings_key(a, key).state;
            &&& now.settings_state is Some
            &&& now.settings_state->0 < 5
            &&& now.persisted.theme == Theme::ALL[now.settings_state->0 as int]
        },
        settings_key(a, key).state.persisted.active_playlist_id
            == a.persisted.active_playlist_id,
        settings_key(a, key).state.persisted.active_playlist_name
            == a.persisted.active_playlist_name,
{
}

/// The row behind the selected one is one of those there are.
pub proof fn lemma_next_within(selected: Option<usize>, length: int)
    requires
        0 < length <= usize::MAX,
    ensures
        next_within(selected, length) < length,
        selected matches Some(i) ==> i < length ==> i <= next_within(selected, length) <= i + 1,
{
}

/// Which playlist is active does not depend on which ones are marked, and marking one does not
/// change the active one.
pub proof fn lemma_active_and_marked_are_independent(a: AppView)
    ensures
        list_key(a, Key::Char(' ')).state.active_playlist == a.active_playlist,
        list_key(a, Key::Char(' ')).state.persisted == a.persisted,
        list_key(a, Key::Char('a')).state.playlist_delete_marks == a.playlist_delete_marks,
{
}

/// A change of playlists that is cancelled leaves all marks as they are, and no job comes of it.
pub proof fn lemma_cancelled_change(a: AppView, key: Key)
    requires
        file_screen::cancels(key),
    ensures
        change_answered(a, key).playlist_delete_marks == a.playlist_delete_marks,
        change_answered(a, key).playlist_track_marks == a.playlist_track_marks,
        change_answered(a, key).pending_transfer == a.pending_transfer,
        change_answered(a, key).playlist_confirmation is None,
{
}

// ---------------------------------------------------------------------------
// What holds of the playlist screens
// ---------------------------------------------------------------------------

/// The down key selects the next row and stays at the last one; the up key selects the row before
/// and stays at the first one. Away from the ends one undoes the other.
pub proof fn lemma_rows(i: usize, length: int)
    requires
        i < length <= usize::MAX,
    ensures
        i + 1 < length ==> next_within(Some(i), length) == i + 1 && previous_row(
            Some(next_within(Some(i), length)),
        ) == i,
        i + 1 == length ==> next_within(Some(i), length) == i,
        i > 0 ==> previous_row(Some(i)) == i - 1 && next_within(Some(previous_row(Some(i))), length)
            == i,
        previous_row(Some(0)) == 0,
        next_within(None, length) == 0,
{
}

/// There is a row for each playlist, and one more before them to create one.
pub proof fn lemma_selected_playlist(a: AppView)
    ensures
        row_count(a) >= 1,
        a.connection matches ConnectionView::Connected(snapshot) ==> {
            &&& row_count(a) == snapshot.playlists.len() + 1
            &&& forall|i: int|
                0 <= i < snapshot.playlists.len() && a.playlist_state is Some
                    && a.playlist_state->0 == i + 1 ==> session::selected_of(a) == Some(
                    #[trigger] snapshot.playlists[i],
                )
            &&& a.playlist_state is None || a.playlist_state->0 == 0 || a.playlist_state->0
                > snapshot.playlists.len() ==> session::selected_of(a) is None
        },
        !(a.connection is Connected) ==> row_count(a) == 1 && session::selected_of(a) is None,
{
}

/// Moving through the playlists selects a row, and takes away the marks in the playlist that was
/// shown; nothing else changes.
pub proof fn lemma_moving_through_playlists(a: AppView, key: Key)
    requires
        key == Key::Up || key == Key::Down,
    ensures
        ({
            let r = list_key(a, key);
            &&& r.action is Nothing
            &&& r.state.playlist_state == Some(
                if key == Key::Up {
                    previous_row(a.playlist_state)
                } else {
                    next_within(a.playlist_state, row_count(a))
                },
            )
            &&& r.state.playlist_track_state is None
            &&& forall|id: u32| !#[trigger] r.state.playlist_track_marks.contains(id)
            &&& r.state == (AppView {
                playlist_state: r.state.playlist_state,
                playlist_track_state: None,
                playlist_track_marks: r.state.playlist_track_marks,
                ..a
            })
        }),
{
}

/// The space key switches the mark of the selected playlist and of no other; the a key makes the
/// selected playlist the active one and stores it by its id and name; the enter key asks for a name
/// where the first row is selected. Nothing else changes.
pub proof fn lemma_playlist_keys(a: AppView)
    ensures
        ({
            let r = list_key(a, Key::Char(' '));
            &&& r.action is Nothing
            &&& forall|id: u32| #[trigger]
                r.state.playlist_delete_marks.contains(id) <==> (if session::selected_of(
                    a,
                ) is Some && session::selected_of(a)->0.id == id {
                    !a.playlist_delete_marks.contains(id)
                } else {
                    a.playlist_delete_marks.contains(id)
                })
            &&& r.state == (AppView {
                playlist_delete_marks: r.state.playlist_delete_marks,
                ..a
            })
        }),
        ({
            let r = list_key(a, Key::Char('a'));
            match session::selected_of(a) {
                Some(playlist) => {
                    &&& r.action is Save
                    &&& r.state.active_playlist == Some(playlist.id)
                    &&& r.state.persisted.active_playlist_id == Some(playlist.id)
                    &&& r.state.persisted.active_playlist_name == Some(playlist.name)
                    &&& r.state.persisted.theme == a.persisted.theme
                    &&& r.state == (AppView {
                        active_playlist: r.state.active_playlist,
                        persisted: r.state.persisted,
                        ..a
                    })
                },
                None => r.action is Nothing && r.state == a,
            }
        }),
        ({
            let r = list_key(a, Key::Enter);
            &&& r.action is Nothing
            &&& a.playlist_state == Some(0usize) ==> r.state == (AppView {
                playlist_name_input: r.state.playlist_name_input,
                ..a
            }) && (r.state.playlist_name_input matches Some(name) && name.len() == 0)
            &&& a.playlist_state != Some(0usize) ==> r.state == a
        }),
{
}

/// The playlists of the device.
pub open spec fn known_playlists(a: AppView) -> Seq<PlaylistView> {
    match a.connection {
        ConnectionView::Connected(snapshot) => snapshot.playlists,
        _ => Seq::empty(),
    }
}

/// Before playlists are deleted it is asked about the marked ones, in the order of the device, and
/// about no others; where none is marked, nothing is asked.
pub proof fn lemma_requested_playlist_deletion(a: AppView)
    ensures
        list_key(a, Key::Delete).action is Nothing,
        (exists|i: int|
            0 <= i < known_playlists(a).len() && a.playlist_delete_marks.contains(
                (#[trigger] known_playlists(a)[i]).id,
            )) ==> {
            let now = list_key(a, Key::Delete).state;
            &&& now == (AppView { playlist_confirmation: now.playlist_confirmation, ..a })
            &&& now.playlist_confirmation matches Some(
                PlaylistConfirmationView::DeletePlaylists(asked),
            ) && seqs::is_selection(
                known_playlists(a),
                asked,
                |p: PlaylistView| a.playlist_delete_marks.contains(p.id),
            )
        },
        (forall|i: int|
            0 <= i < known_playlists(a).len() ==> !a.playlist_delete_marks.contains(
                (#[trigger] known_playlists(a)[i]).id,
            )) ==> list_key(a, Key::Delete).state == a,
{
    let known = known_playlists(a);
    let test = |p: PlaylistView| a.playlist_delete_marks.contains(p.id);
    let asked = marked_playlists(a);
    seqs::lemma_filter_selects(known, test);
    reveal(Seq::filter);
    assert(asked == known.filter(test));
    let at = choose|at: Seq<int>| seqs::selects(known, asked, test, at);
    if exists|i: int|
        0 <= i < known.len() && a.playlist_delete_marks.contains((#[trigger] known[i]).id) {
        let i = choose|i: int|
            0 <= i < known.len() && a.playlist_delete_marks.contains((#[trigger] known[i]).id);
        assert(test(known[i]));
        assert(at.contains(i));
        assert(asked.len() > 0);
    } else if asked.len() > 0 {
        assert(at.contains(at[0]));
        assert(test(known[at[0]]));
    }
}

/// In a playlist, the space key switches the mark of the selected track and of no other; the delete
/// key asks about the marked tracks of that same playlist, in its order; moving selects a row. No
/// other key changes anything.
pub proof fn lemma_playlist_track_keys(a: AppView, key: Key, playlist: Option<PlaylistView>)
    ensures
        ({
            let now = tracks_key(a, key, playlist);
            let tracks = shown_tracks(a, playlist);
            let row = a.playlist_track_state;
            let marked = exists|id: u32| #[trigger] a.playlist_track_marks.contains(id);
            &&& key == Key::Up ==> now == (AppView {
                playlist_track_state: Some(previous_row(row)),
                ..a
            })
            &&& key == Key::Down && tracks.len() > 0 ==> now == (AppView {
                playlist_track_state: Some(next_within(row, tracks.len() as int)),
                ..a
            })
            &&& key == Key::Down && tracks.len() == 0 ==> now == a
            &&& key == Key::Char(' ') ==> {
                &&& now == (AppView { playlist_track_marks: now.playlist_track_marks, ..a })
                &&& forall|id: u32| #[trigger]
                    now.playlist_track_marks.contains(id) <==> (if row is Some && row->0
                        < tracks.len() && tracks[row->0 as int].id == id {
                        !a.playlist_track_marks.contains(id)
                    } else {
                        a.playlist_track_marks.contains(id)
                    })
            }
            &&& key == Key::Delete && (playlist is None || !marked) ==> now == a
            &&& key == Key::Delete && playlist is Some && marked ==> {
                &&& now == (AppView { playlist_confirmation: now.playlist_confirmation, ..a })
                &&& now.playlist_confirmation matches Some(
                    PlaylistConfirmationView::RemoveTracks { playlist: asked, track_ids },
                ) && asked == playlist->0 && seqs::is_selection(
                    playlist->0.track_ids,
                    track_ids,
                    |id: u32| a.playlist_track_marks.contains(id),
                )
            }
            &&& key != Key::Up && key != Key::Down && key != Key::Char(' ') && key != Key::Delete
                ==> now == a
        }),
{
    if exists|id: u32| #[trigger] a.playlist_track_marks.contains(id) {
        let id = choose|id: u32| #[trigger] a.playlist_track_marks.contains(id);
        assert(a.playlist_track_marks != Set::<u32>::empty());
    } else {
        assert(a.playlist_track_marks =~= Set::<u32>::empty());
    }
    if let Some(p) = playlist {
        seqs::lemma_filter_selects(p.track_ids, |id: u32| a.playlist_track_marks.contains(id));
    }
}

/// The tracks that are shown of a playlist are those of the device that it lists, in its own order.
pub proof fn lemma_shown_tracks(a: AppView, playlist: Option<PlaylistView>)
    ensures
        playlist is Some && a.connection is Connected ==> shown_tracks(a, playlist)
            == device_tree::tracks_with_ids(
            a.connection->Connected_0.tracks,
            playlist->0.track_ids,
        ),
        playlist is None || !(a.connection is Connected) ==> shown_tracks(a, playlist).len() == 0,
{
}

/// The tabulator changes between the two panes of a playlist screen and nothing else. The other keys
/// go to the pane in use: in that of the tracks, to those of the selected or of the active playlist.
pub proof fn lemma_playlist_panes(a: AppView, key: Key)
    ensures
        ({
            let once = playlist_key(a, Key::Tab);
            let other = add_to_key(a, Key::Tab);
            &&& once.action is Nothing && other.action is Nothing
            &&& once.state.playlist_focus != a.playlist_focus
            &&& once.state == (AppView { playlist_focus: once.state.playlist_focus, ..a })
            &&& other.state.add_to_focus != a.add_to_focus
            &&& other.state == (AppView { add_to_focus: other.state.add_to_focus, ..a })
        }),
        key != Key::Tab && a.playlist_focus == PlaylistPane::Playlists ==> playlist_key(a, key)
            == list_key(a, key),
        key != Key::Tab && a.playlist_focus == PlaylistPane::Tracks ==> playlist_key(
            a,
            key,
        ).action is Nothing && playlist_key(a, key).state == tracks_key(
            a,
            key,
            session::selected_of(a),
        ),
        key != Key::Tab && a.add_to_focus == PlaylistPane::Tracks ==> add_to_key(
            a,
            key,
        ).action is Nothing && add_to_key(a, key).state == tracks_key(
            a,
            key,
            session::active_of(a),
        ),
{
}

/// Among the tracks to be added, the arrow keys move in their own directions, the space key switches
/// marks and the enter key asks for the addition.
pub proof fn lemma_add_to_keys(a: AppView, key: Key)
    requires
        a.add_to_focus == PlaylistPane::Playlists,
    ensures
        ({
            let r = add_to_key(a, key);
            &&& key == Key::Up ==> r.state == a && r.action == (ActionView::Move {
                tree: TreeName::AddTo,
                motion: Motion::Up,
            })
            &&& key == Key::Down ==> r.state == a && r.action == (ActionView::Move {
                tree: TreeName::AddTo,
                motion: Motion::Down,
            })
            &&& key == Key::Left ==> r.state == a && r.action == (ActionView::Move {
                tree: TreeName::AddTo,
                motion: Motion::Left,
            })
            &&& key == Key::Right ==> r.state == a && r.action == (ActionView::Move {
                tree: TreeName::AddTo,
                motion: Motion::Right,
            })
            &&& key == Key::Char(' ') ==> r.action is Nothing && r.state == add_to_toggled(a)
            &&& key == Key::Enter ==> r.action is Nothing && r.state == addition_requested(a)
            &&& !(key == Key::Up || key == Key::Down || key == Key::Left || key == Key::Right || key
                == Key::Char(' ') || key == Key::Enter || key == Key::Tab) ==> r.state == a
                && r.action is Nothing
        }),
{
}

/// Switching the mark of a track to be added changes that mark and no other; switching that of an
/// album marks all of its tracks, or unmarks them where all are marked. Another folder cannot be
/// marked.
pub proof fn lemma_toggled_addition(a: AppView)
    ensures
        ({
            let now = add_to_toggled(a);
            match a.add_to_device_state.current() {
                None => now == a,
                Some(DeviceItemId::Track(id)) => {
                    &&& now == (AppView { add_to_marks: now.add_to_marks, ..a })
                    &&& forall|x: u32| #[trigger]
                        now.add_to_marks.contains(x) <==> (if x == id {
                            !a.add_to_marks.contains(x)
                        } else {
                            a.add_to_marks.contains(x)
                        })
                },
                Some(DeviceItemId::Folder(id)) => match file_screen::album_of(a, id) {
                    None => now == (AppView {
                        transfer_status: Some("Only device albums and tracks can be marked."@),
                        ..a
                    }),
                    Some(album) => {
                        let full = album.track_ids.len() > 0 && forall|t: u32| #[trigger]
                            album.track_ids.contains(t) ==> a.add_to_marks.contains(t);
                        &&& now == (AppView { add_to_marks: now.add_to_marks, ..a })
                        &&& forall|x: u32| #[trigger]
                            now.add_to_marks.contains(x) <==> (if album.track_ids.contains(x) {
                                !full
                            } else {
                                a.add_to_marks.contains(x)
                            })
                    },
                },
            }
        }),
{
    if let Some(DeviceItemId::Folder(id)) = a.add_to_device_state.current() {
        if let Some(album) = file_screen::album_of(a, id) {
            file_screen::lemma_group_switched_exactly(a.add_to_marks, album.track_ids);
        }
    }
}

/// Ids are those of the marked tracks, in the order of the device.
pub open spec fn are_marked_ids(ids: Seq<u32>, tracks: Seq<TrackView>, marked: Set<u32>) -> bool {
    exists|kept: Seq<TrackView>| #[trigger]
        deletion::are_marked(kept, tracks, marked) && ids.len() == kept.len() && forall|
            i: int,
        | 0 <= i < ids.len() ==> #[trigger] ids[i] == kept[i].id
}

/// What is added to a playlist are the marked tracks, in the order of the device, and it is added to
/// the active playlist. Without an active playlist or without marks, only a status is shown.
pub proof fn lemma_requested_addition(a: AppView)
    ensures
        ({
            let now = addition_requested(a);
            let marked = exists|id: u32| #[trigger] a.add_to_marks.contains(id);
            let ready = session::active_of(a) is Some && marked;
            &&& ready ==> {
                &&& a.connection is Connected
                &&& now.pending_transfer matches Some(
                    JobView::AddPlaylistTracks { playlist, track_ids },
                ) && playlist == session::active_of(a)->0 && are_marked_ids(
                    track_ids,
                    a.connection->Connected_0.tracks,
                    a.add_to_marks,
                )
                &&& now == (AppView {
                    pending_transfer: now.pending_transfer,
                    transfer_status: Some("Adding tracks to playlist..."@),
                    ..a
                })
            }
            &&& !ready ==> now.transfer_status is Some && now == (AppView {
                transfer_status: now.transfer_status,
                ..a
            })
        }),
{
    if exists|id: u32| #[trigger] a.add_to_marks.contains(id) {
        let id = choose|id: u32| #[trigger] a.add_to_marks.contains(id);
        assert(a.add_to_marks != Set::<u32>::empty());
    } else {
        assert(a.add_to_marks =~= Set::<u32>::empty());
    }
    if let ConnectionView::Connected(snapshot) = a.connection {
        let test = |t: TrackView| a.add_to_marks.contains(t.id);
        let kept = snapshot.tracks.filter(test);
        seqs::lemma_filter_selects(snapshot.tracks, test);
        assert(deletion::are_marked(kept, snapshot.tracks, a.add_to_marks));
        assert(are_marked_ids(ids_to_add(a), snapshot.tracks, a.add_to_marks));
    }
}

/// The active playlist is the first of the device's playlists that has the stored id.
pub proof fn lemma_active_playlist(a: AppView)
    ensures
        (match session::active_of(a) {
            Some(playlist) => a.connection matches ConnectionView::Connected(snapshot)
                && a.active_playlist == Some(playlist.id) && exists|i: int|
                0 <= i < snapshot.playlists.len() && #[trigger] snapshot.playlists[i] == playlist
                    && forall|j: int|
                    0 <= j < i ==> (#[trigger] snapshot.playlists[j]).id != playlist.id,
            None => a.connection matches ConnectionView::Connected(snapshot) ==> (
            a.active_playlist is Some ==> forall|j: int|
                0 <= j < snapshot.playlists.len() ==> (#[trigger] snapshot.playlists[j]).id
                    != a.active_playlist->0),
        }),
{
    if let (Some(id), ConnectionView::Connected(snapshot)) = (a.active_playlist, a.connection) {
        seqs::lemma_position(snapshot.playlists, |p: PlaylistView| p.id == id);
    }
}

/// A playlist is created under the name that was typed, without the white space around it, on a
/// storage of the device. The input ends either way; without a name or a storage only a status is
/// shown.
pub proof fn lemma_given_name(a: AppView)
    requires
        a.playlist_name_input is Some,
    ensures
        ({
            let now = name_given(a);
            let name = text::trimmed(a.playlist_name_input->0);
            let storage = match a.connection {
                ConnectionView::Connected(snapshot) => device_tree::storage_of(snapshot),
                _ => None,
            };
            &&& now.playlist_name_input is None
            &&& name.len() > 0 && storage is Some ==> now == (AppView {
                playlist_name_input: None,
                pending_transfer: Some(
                    JobView::CreatePlaylist { name, storage_id: storage->0 },
                ),
                transfer_status: Some("Creating playlist..."@),
                ..a
            })
            &&& name.len() == 0 || storage is None ==> now.transfer_status is Some && now == (
            AppView { playlist_name_input: None, transfer_status: now.transfer_status, ..a })
        }),
{
}

/// A character that is typed stands behind the name so far, and the backspace key takes the last one
/// away; the escape key ends the input and nothing comes of it.
pub proof fn lemma_typing(a: AppView, c: char)
    requires
        a.playlist_name_input is Some,
    ensures
        ({
            let name = a.playlist_name_input->0;
            let typed = name_key(a, Key::Char(c));
            &&& typed.playlist_name_input matches Some(longer) && longer == name + seq![c]
            &&& typed == (AppView { playlist_name_input: typed.playlist_name_input, ..a })
            &&& name_key(typed, Key::Backspace) == a
            &&& name.len() == 0 ==> name_key(a, Key::Backspace) == a
            &&& name_key(a, Key::Esc) == (AppView { playlist_name_input: None, ..a })
            &&& name_key(a, Key::Enter) == name_given(a)
        }),
{
    let name = a.playlist_name_input->0;
    assert(name.push(c) =~= name + seq![c]);
    assert(name.push(c).drop_last() =~= name);
}

/// No other key than those of a name changes a name that is typed.
pub proof fn lemma_typing_other_keys(a: AppView, key: Key)
    requires
        !(key is Char) && key != Key::Enter && key != Key::Esc && key != Key::Backspace,
    ensures
        name_key(a, key) == a,
{
}

/// The question before a change of playlists is answered by yes or no: yes makes the change that was
/// asked about the next job, of the same playlists and tracks; no makes none; every other key changes
/// nothing.
pub proof fn lemma_answered_change(a: AppView, key: Key)
    requires
        a.playlist_confirmation is Some,
    ensures
        ({
            let now = change_answered(a, key);
            let yes = key == Key::Char('y') || key == Key::Char('Y') || key == Key::Enter;
            let no = key == Key::Char('n') || key == Key::Char('N') || key == Key::Esc;
            &&& yes ==> now.playlist_confirmation is None && (match a.playlist_confirmation->0 {
                PlaylistConfirmationView::DeletePlaylists(asked) => {
                    now.pending_transfer matches Some(JobView::DeletePlaylists { playlists })
                        && playlists == asked
                },
                PlaylistConfirmationView::RemoveTracks { playlist: asked, track_ids: ids } => {
                    now.pending_transfer matches Some(
                        JobView::RemovePlaylistTracks { playlist, track_ids },
                    ) && playlist == asked && track_ids == ids
                },
            })
            &&& no ==> now.playlist_confirmation is None && now.pending_transfer
                == a.pending_transfer && now.transfer_status == Some("Playlist change cancelled."@)
            &&& !yes && !no ==> now == a
            &&& now == (AppView {
                playlist_confirmation: now.playlist_confirmation,
                pending_transfer: now.pending_transfer,
                transfer_status: now.transfer_status,
                ..a
            })
        }),
{
}

/// In the settings, the arrow keys select the theme before or behind the selected one and stay at the
/// ends; the enter key takes the selected one again. The theme of the selected row is stored and
/// applied, and nothing else changes.
pub proof fn lemma_settings_keys(a: AppView, key: Key, row: usize)
    requires
        a.settings_state == Some(row),
        row < 5,
    ensures
        ({
            let r = settings_key(a, key);
            let target = if key == Key::Up {
                if row == 0 {
                    0
                } else {
                    row - 1
                }
            } else if key == Key::Down {
                if row == 4 {
                    4
                } else {
                    row + 1
                }
            } else {
                row as int
            };
            if key == Key::Up || key == Key::Down || key == Key::Enter {
                &&& r.action is ApplyTheme
                &&& r.state.settings_state is Some && r.state.settings_state->0 == target
                &&& session::theme_index(r.state.persisted.theme) == target
                &&& r.state.persisted.active_playlist_id == a.persisted.active_playlist_id
                &&& r.state.persisted.active_playlist_name == a.persisted.active_playlist_name
                &&& r.state == (AppView {
                    settings_state: r.state.settings_state,
                    persisted: r.state.persisted,
                    transfer_status: r.state.transfer_status,
                    ..a
                })
            } else {
                r.state == a && r.action is Nothing
            }
        }),
{
}

} // verus!
