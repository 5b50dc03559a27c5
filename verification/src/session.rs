//! The state of a session: the screens, what is marked on them, and the device behind them.
use std::collections::HashSet;

use vstd::prelude::*;

use crate::app_state::{PersistedState, StateView};
use crate::browser::{LocalTree, LocalTreeView};
use crate::deletion::{
    DeleteConfirmation, DeleteConfirmationView, PlaylistConfirmation, PlaylistConfirmationView,
};
use crate::device::{DeviceSnapshot, Playlist, PlaylistView, SnapshotView, ZuneNotFound};
use crate::local_path::{LocalPath, PathSet};
use crate::palette::Theme;
use crate::seqs;
use crate::text;
use crate::text::{copy_text, same_text};
use crate::transfer;
use crate::transfer::{event_status, EventView, JobView, TransferEvent, TransferJob};
use crate::tree;
use crate::tree::{CursorView, DeviceItemId, TreeCursor};

verus! {

/// The screens.
#[derive(Debug, Clone, Copy, PartialEq, Eq, Structural)]
pub enum Screen {
    Splash { continue_pressed: bool },
    Files,
    Playlists,
    AddToPlaylist,
    Settings,
}

/// The panes of the file screen.
#[derive(Debug, Clone, Copy, PartialEq, Eq, Structural)]
pub enum Pane {
    Local,
    Device,
}

/// The panes of the playlist screens.
#[derive(Debug, Clone, Copy, PartialEq, Eq, Structural)]
pub enum PlaylistPane {
    Playlists,
    Tracks,
}

/// The device, as far as it is known.
#[derive(Debug)]
pub enum Connection {
    Loading(&'static str),
    Connected(DeviceSnapshot),
    NotFound,
}

/// The device, as far as it is known, as a mathematical value.
pub enum ConnectionView {
    Loading(Seq<char>),
    Connected(SnapshotView),
    NotFound,
}

impl View for Connection {
    type V = ConnectionView;

    open spec fn view(&self) -> ConnectionView {
        match self {
            Connection::Loading(message) => ConnectionView::Loading(message@),
            Connection::Connected(snapshot) => ConnectionView::Connected(snapshot@),
            Connection::NotFound => ConnectionView::NotFound,
        }
    }
}

/// What is shown where no device was found.
pub const NOT_FOUND_SHORT: &'static str = "Dude, I can't find your Zune, is it connected?";

/// The state of a session.
#[derive(Debug)]
pub struct App {
    pub screen: Screen,
    pub connection: Connection,
    /// An attempt to connect is under way.
    pub connecting: bool,
    pub local_tree: LocalTree,
    pub local_state: TreeCursor<LocalPath>,
    pub device_state: TreeCursor<DeviceItemId>,
    pub focused_pane: Pane,
    pub local_marks: PathSet,
    pub device_marks: HashSet<u32>,
    pub local_anchor: Option<LocalPath>,
    pub device_anchor: Option<DeviceItemId>,
    /// A transfer is under way.
    pub transfer_running: bool,
    pub pending_transfer: Option<TransferJob>,
    pub transfer_status: Option<String>,
    pub download_directory: Option<LocalPath>,
    pub debug_open: bool,
    pub debug_scroll: usize,
    pub delete_confirmation: Option<DeleteConfirmation>,
    pub playlist_state: Option<usize>,
    pub playlist_track_state: Option<usize>,
    pub playlist_focus: PlaylistPane,
    pub playlist_delete_marks: HashSet<u32>,
    pub playlist_track_marks: HashSet<u32>,
    pub active_playlist: Option<u32>,
    pub playlist_name_input: Option<String>,
    pub playlist_confirmation: Option<PlaylistConfirmation>,
    pub add_to_device_state: TreeCursor<DeviceItemId>,
    pub add_to_marks: HashSet<u32>,
    pub add_to_focus: PlaylistPane,
    pub help_open: bool,
    pub persisted: PersistedState,
    pub settings_state: Option<usize>,
}

/// The state of a session, as a mathematical value.
#[verifier::ext_equal]
pub struct AppView {
    pub screen: Screen,
    pub connection: ConnectionView,
    pub connecting: bool,
    pub local_tree: LocalTreeView,
    pub local_state: CursorView<Seq<u8>>,
    pub device_state: CursorView<DeviceItemId>,
    pub focused_pane: Pane,
    pub local_marks: Seq<Seq<u8>>,
    pub device_marks: Set<u32>,
    pub local_anchor: Option<Seq<u8>>,
    pub device_anchor: Option<DeviceItemId>,
    pub transfer_running: bool,
    pub pending_transfer: Option<JobView>,
    pub transfer_status: Option<Seq<char>>,
    pub download_directory: Option<Seq<u8>>,
    pub debug_open: bool,
    pub debug_scroll: usize,
    pub delete_confirmation: Option<DeleteConfirmationView>,
    pub playlist_state: Option<usize>,
    pub playlist_track_state: Option<usize>,
    pub playlist_focus: PlaylistPane,
    pub playlist_delete_marks: Set<u32>,
    pub playlist_track_marks: Set<u32>,
    pub active_playlist: Option<u32>,
    pub playlist_name_input: Option<Seq<char>>,
    pub playlist_confirmation: Option<PlaylistConfirmationView>,
    pub add_to_device_state: CursorView<DeviceItemId>,
    pub add_to_marks: Set<u32>,
    pub add_to_focus: PlaylistPane,
    pub help_open: bool,
    pub persisted: StateView,
    pub settings_state: Option<usize>,
}

/// The spelling of an optional path.
pub open spec fn path_of(p: Option<LocalPath>) -> Option<Seq<u8>> {
    match p {
        Some(path) => Some(path@),
        None => None,
    }
}

/// The value of an optional job.
pub open spec fn job_of(job: Option<TransferJob>) -> Option<JobView> {
    match job {
        Some(j) => Some(j@),
        None => None,
    }
}

/// The value of an optional deletion that waits to be confirmed.
pub open spec fn deletion_of(c: Option<DeleteConfirmation>) -> Option<DeleteConfirmationView> {
    match c {
        Some(confirmation) => Some(confirmation@),
        None => None,
    }
}

/// The value of an optional change of playlists that waits to be confirmed.
pub open spec fn change_of(c: Option<PlaylistConfirmation>) -> Option<PlaylistConfirmationView> {
    match c {
        Some(confirmation) => Some(confirmation@),
        None => None,
    }
}

impl View for App {
    type V = AppView;

    open spec fn view(&self) -> AppView {
        AppView {
            screen: self.screen,
            connection: self.connection@,
            connecting: self.connecting,
            local_tree: self.local_tree@,
            local_state: self.local_state@,
            device_state: self.device_state@,
            focused_pane: self.focused_pane,
            local_marks: self.local_marks@,
            device_marks: self.device_marks@,
            local_anchor: path_of(self.local_anchor),
            device_anchor: self.device_anchor,
            transfer_running: self.transfer_running,
            pending_transfer: job_of(self.pending_transfer),
            transfer_status: text::text_of(self.transfer_status),
            download_directory: path_of(self.download_directory),
            debug_open: self.debug_open,
            debug_scroll: self.debug_scroll,
            delete_confirmation: deletion_of(self.delete_confirmation),
            playlist_state: self.playlist_state,
            playlist_track_state: self.playlist_track_state,
            playlist_focus: self.playlist_focus,
            playlist_delete_marks: self.playlist_delete_marks@,
            playlist_track_marks: self.playlist_track_marks@,
            active_playlist: self.active_playlist,
            playlist_name_input: text::text_of(self.playlist_name_input),
            playlist_confirmation: change_of(self.playlist_confirmation),
            add_to_device_state: self.add_to_device_state@,
            add_to_marks: self.add_to_marks@,
            add_to_focus: self.add_to_focus,
            help_open: self.help_open,
            persisted: self.persisted@,
            settings_state: self.settings_state,
        }
    }
}

/// What is to be done outside once a key or an event was handled.
#[derive(Debug)]
pub enum Action {
    Nothing,
    Quit,
    /// The settings are to be written; a failure is to be reported.
    Save,
    /// The settings are to be written, whatever comes of it, and the theme is to be applied.
    ApplyTheme,
    /// The cursor of a tree is to be moved.
    Move { tree: TreeName, motion: Motion },
    /// The selected local directory is to be read, and then the cursor is to be moved.
    LoadAndMove { motion: Motion },
    /// It is to be found out what the selected local path is, for it to be marked.
    InspectSelection(LocalPath),
    /// It is to be found out what local paths are, for them to be marked.
    InspectRange(Vec<LocalPath>),
    /// It is to be found out whether a local path is a directory that tracks can be copied to.
    InspectDestination(LocalPath),
    /// A transfer is to be started.
    Start(TransferJob),
}

/// What is to be done outside, as a mathematical value.
pub enum ActionView {
    Nothing,
    Quit,
    Save,
    ApplyTheme,
    Move { tree: TreeName, motion: Motion },
    LoadAndMove { motion: Motion },
    InspectSelection(Seq<u8>),
    InspectRange(Seq<Seq<u8>>),
    InspectDestination(Seq<u8>),
    Start(JobView),
}

impl View for Action {
    type V = ActionView;

    open spec fn view(&self) -> ActionView {
        match self {
            Action::Nothing => ActionView::Nothing,
            Action::Quit => ActionView::Quit,
            Action::Save => ActionView::Save,
            Action::ApplyTheme => ActionView::ApplyTheme,
            Action::Move { tree, motion } => ActionView::Move { tree: *tree, motion: *motion },
            Action::LoadAndMove { motion } => ActionView::LoadAndMove { motion: *motion },
            Action::InspectSelection(p) => ActionView::InspectSelection(p@),
            Action::InspectRange(paths) => ActionView::InspectRange(
                crate::local_path::path_views(paths@),
            ),
            Action::InspectDestination(p) => ActionView::InspectDestination(p@),
            Action::Start(job) => ActionView::Start(job@),
        }
    }
}

/// The trees.
#[derive(Debug, Clone, Copy, PartialEq, Eq, Structural)]
pub enum TreeName {
    Local,
    Device,
    AddTo,
}

/// The ways in which the cursor of a tree moves.
#[derive(Debug, Clone, Copy, PartialEq, Eq, Structural)]
pub enum Motion {
    Up,
    Down,
    Left,
    Right,
    Toggle,
}

/// A theme's index among all.
pub open spec fn theme_index(theme: Theme) -> int {
    match theme {
        Theme::TronBlue => 0,
        Theme::CherryRed => 1,
        Theme::Orange => 2,
        Theme::Green => 3,
        Theme::System => 4,
    }
}

/// The state of a session before anything was done.
pub open spec fn first_state(persisted: StateView, local_tree: LocalTreeView) -> AppView {
    AppView {
        screen: Screen::Splash { continue_pressed: false },
        connection: ConnectionView::Loading("Connecting..."@),
        connecting: false,
        local_tree,
        local_state: CursorView {
            path: seq![local_tree.home],
            opened: seq![seq![local_tree.home]],
        },
        device_state: tree::fresh_cursor(),
        focused_pane: Pane::Local,
        local_marks: Seq::empty(),
        device_marks: Set::empty(),
        local_anchor: None,
        device_anchor: None,
        transfer_running: false,
        pending_transfer: None,
        transfer_status: None,
        download_directory: None,
        debug_open: false,
        debug_scroll: 0,
        delete_confirmation: None,
        playlist_state: Some(0),
        playlist_track_state: None,
        playlist_focus: PlaylistPane::Playlists,
        playlist_delete_marks: Set::empty(),
        playlist_track_marks: Set::empty(),
        active_playlist: None,
        playlist_name_input: None,
        playlist_confirmation: None,
        add_to_device_state: tree::fresh_cursor(),
        add_to_marks: Set::empty(),
        add_to_focus: PlaylistPane::Playlists,
        help_open: false,
        persisted,
        settings_state: Some(theme_index(persisted.theme) as usize),
    }
}

/// The snapshot of the device that is connected.
pub open spec fn snapshot_of(connection: ConnectionView) -> Option<SnapshotView> {
    match connection {
        ConnectionView::Connected(snapshot) => Some(snapshot),
        _ => None,
    }
}

/// A playlist with this id, and with this name where one is given, is there.
pub open spec fn knows_playlist(
    playlists: Seq<PlaylistView>,
    id: u32,
    name: Option<Seq<char>>,
) -> bool {
    exists|i: int|
        0 <= i < playlists.len() && (#[trigger] playlists[i]).id == id && (match name {
            Some(n) => playlists[i].name == n,
            None => true,
        })
}

/// The stored active playlist is one of the device's.
pub open spec fn stored_playlist_is_known(persisted: StateView, snapshot: SnapshotView) -> bool {
    persisted.active_playlist_id is Some && knows_playlist(
        snapshot.playlists,
        persisted.active_playlist_id->0,
        persisted.active_playlist_name,
    )
}

/// The state without an active playlist in what is kept between sessions.
pub open spec fn forgotten(persisted: StateView) -> StateView {
    StateView { active_playlist_id: None, active_playlist_name: None, ..persisted }
}

/// The session once the stored active playlist was looked for on a device: it is active again
/// where it is found by id and name, and forgotten where it is not.
pub open spec fn restored(a: AppView, snapshot: SnapshotView) -> AppView {
    if stored_playlist_is_known(a.persisted, snapshot) {
        AppView { active_playlist: a.persisted.active_playlist_id, ..a }
    } else if a.persisted.active_playlist_id is Some {
        AppView { active_playlist: None, persisted: forgotten(a.persisted), ..a }
    } else {
        AppView { active_playlist: None, ..a }
    }
}

/// The settings are to be written once the stored active playlist was looked for.
pub open spec fn restored_action(a: AppView, snapshot: SnapshotView) -> ActionView {
    if a.persisted.active_playlist_id is Some && !stored_playlist_is_known(
        a.persisted,
        snapshot,
    ) {
        ActionView::Save
    } else {
        ActionView::Nothing
    }
}

/// The session once an attempt to connect has come out.
pub open spec fn connected(a: AppView, result: Option<SnapshotView>) -> AppView {
    let screen = if a.screen == (Screen::Splash { continue_pressed: true }) {
        Screen::Playlists
    } else {
        a.screen
    };
    match result {
        Some(snapshot) => AppView {
            connecting: false,
            connection: ConnectionView::Connected(snapshot),
            screen,
            ..restored(a, snapshot)
        },
        None => AppView {
            connecting: false,
            connection: ConnectionView::NotFound,
            screen,
            ..a
        },
    }
}

/// The session without marks on the file screen.
pub open spec fn unmarked(a: AppView) -> AppView {
    AppView {
        local_marks: Seq::empty(),
        device_marks: Set::empty(),
        local_anchor: None,
        device_anchor: None,
        ..a
    }
}

/// The playlist that is selected in the list: the first row creates one.
pub open spec fn selected_of(a: AppView) -> Option<PlaylistView> {
    match (a.playlist_state, snapshot_of(a.connection)) {
        (Some(i), Some(snapshot)) => if 0 < i <= snapshot.playlists.len() {
            Some(snapshot.playlists[i - 1])
        } else {
            None
        },
        _ => None,
    }
}

/// The active playlist, where the device has it.
pub open spec fn active_of(a: AppView) -> Option<PlaylistView> {
    match (a.active_playlist, snapshot_of(a.connection)) {
        (Some(id), Some(snapshot)) => seqs::first(
            snapshot.playlists,
            |p: PlaylistView| p.id == id,
        ),
        _ => None,
    }
}

/// The session once a playlist was made the active one.
pub open spec fn activated(a: AppView, playlist: PlaylistView) -> AppView {
    AppView {
        active_playlist: Some(playlist.id),
        persisted: StateView {
            active_playlist_id: Some(playlist.id),
            active_playlist_name: Some(playlist.name),
            ..a.persisted
        },
        ..a
    }
}

/// The active playlist is not among those of a device.
pub open spec fn active_is_lost(a: AppView, snapshot: SnapshotView) -> bool {
    a.active_playlist is Some && !knows_playlist(
        snapshot.playlists,
        a.active_playlist->0,
        None,
    )
}

/// The session once something was told of a transfer.
pub open spec fn after_event(a: AppView, event: EventView) -> AppView {
    let status = Some(transfer::event_text(event));
    match event {
        EventView::Progress { .. } => AppView { transfer_status: status, ..a },
        EventView::Finished { snapshot, .. } => {
            let seen = match snapshot {
                Some(s) => if active_is_lost(a, s) {
                    AppView {
                        active_playlist: None,
                        persisted: forgotten(a.persisted),
                        connection: ConnectionView::Connected(s),
                        ..a
                    }
                } else {
                    AppView { connection: ConnectionView::Connected(s), ..a }
                },
                None => a,
            };
            AppView {
                transfer_running: false,
                download_directory: None,
                playlist_delete_marks: Set::empty(),
                playlist_track_marks: Set::empty(),
                add_to_marks: Set::empty(),
                transfer_status: status,
                ..unmarked(seen)
            }
        },
    }
}

/// What is to be done outside once something was told of a transfer.
#[derive(Debug)]
pub struct TransferEffects {
    /// The settings are to be written, whatever comes of it.
    pub save: bool,
    /// The directory that is to be read again.
    pub refresh: Option<LocalPath>,
}

impl App {
    /// The row of the settings that is selected is one of those there are, and no path is marked
    /// twice.
    pub open spec fn wf(&self) -> bool {
        &&& self.settings_state matches Some(i) ==> i < 5
        &&& self.local_marks.wf()
    }

    /// A session before anything was done.
    pub fn new(persisted: PersistedState, local_tree: LocalTree) -> (r: Self)
        ensures
            r@ == first_state(persisted@, local_tree@),
            r.wf(),
    {
        let settings_state: usize = match persisted.theme {
            Theme::TronBlue => 0,
            Theme::CherryRed => 1,
            Theme::Orange => 2,
            Theme::Green => 3,
            Theme::System => 4,
        };
        let root = local_tree.root_path();
        let mut local_state: TreeCursor<LocalPath> = TreeCursor::new();
        let mut path: Vec<LocalPath> = Vec::new();
        path.push(root.clone());
        assert(tree::id_views(path@) =~= seq![root@]);
        local_state.select(path);
        let mut opened: Vec<LocalPath> = Vec::new();
        opened.push(root);
        assert(tree::id_views(opened@) =~= seq![root@]);
        local_state.open(opened);
        assert(local_state@.opened =~= seq![seq![root@]]);
        let r = App {
            screen: Screen::Splash { continue_pressed: false },
            connection: Connection::Loading("Connecting..."),
            connecting: false,
            local_tree,
            local_state,
            device_state: TreeCursor::new(),
            focused_pane: Pane::Local,
            local_marks: PathSet::new(),
            device_marks: HashSet::new(),
            local_anchor: None,
            device_anchor: None,
            transfer_running: false,
            pending_transfer: None,
            transfer_status: None,
            download_directory: None,
            debug_open: false,
            debug_scroll: 0,
            delete_confirmation: None,
            playlist_state: Some(0),
            playlist_track_state: None,
            playlist_focus: PlaylistPane::Playlists,
            playlist_delete_marks: HashSet::new(),
            playlist_track_marks: HashSet::new(),
            active_playlist: None,
            playlist_name_input: None,
            playlist_confirmation: None,
            add_to_device_state: TreeCursor::new(),
            add_to_marks: HashSet::new(),
            add_to_focus: PlaylistPane::Playlists,
            help_open: false,
            persisted,
            settings_state: Some(settings_state),
        };
        r
    }

    /// The snapshot of the device that is connected.
    pub fn connected_snapshot(&self) -> (r: Option<&DeviceSnapshot>)
        ensures
            (match r {
                Some(snapshot) => snapshot_of(self@.connection) == Some(snapshot@),
                None => snapshot_of(self@.connection) is None,
            }),
    {
        match &self.connection {
            Connection::Connected(snapshot) => Some(snapshot),
            _ => None,
        }
    }

    /// Enters that an attempt to connect is under way.
    pub fn start_connection(&mut self, message: &'static str)
        ensures
            final(self)@ == (AppView {
                connecting: true,
                connection: ConnectionView::Loading(message@),
                ..old(self)@
            }),
            final(self).wf() == old(self).wf(),
    {
        self.connecting = true;
        self.connection = Connection::Loading(message);
    }

    /// Enters how an attempt to connect has come out.
    pub fn collect_connection_result(&mut self, result: Result<DeviceSnapshot, ZuneNotFound>) -> (r:
        Action)
        ensures
            (match result {
                Ok(snapshot) => final(self)@ == connected(old(self)@, Some(snapshot@)) && r@
                    == restored_action(old(self)@, snapshot@),
                Err(_) => final(self)@ == connected(old(self)@, None) && r@
                    == ActionView::Nothing,
            }),
            final(self).wf() == old(self).wf(),
    {
        let mut r = Action::Nothing;
        self.connecting = false;
        match result {
            Ok(snapshot) => {
                r = self.restore_active_playlist(&snapshot);
                self.connection = Connection::Connected(snapshot);
            },
            Err(_) => {
                self.connection = Connection::NotFound;
            },
        }
        if self.screen == (Screen::Splash { continue_pressed: true }) {
            self.screen = Screen::Playlists;
        }
        r
    }

    /// Leaves the splash screen, or notes that it is to be left once the device has answered.
    pub fn continue_from_splash(&mut self)
        ensures
            final(self)@ == (AppView {
                screen: if old(self)@.connection is Loading {
                    Screen::Splash { continue_pressed: true }
                } else {
                    Screen::Playlists
                },
                ..old(self)@
            }),
            final(self).wf() == old(self).wf(),
    {
        match self.connection {
            Connection::Loading(_) => {
                self.screen = Screen::Splash { continue_pressed: true };
            },
            _ => {
                self.screen = Screen::Playlists;
            },
        }
    }

    /// Removes all marks of the file screen.
    pub fn clear_marks(&mut self)
        ensures
            final(self)@ == unmarked(old(self)@),
            old(self).wf() ==> final(self).wf(),
    {
        self.local_marks.clear();
        self.device_marks.clear();
        self.local_anchor = None;
        self.device_anchor = None;
    }

    /// Shows the file screen; the marks are removed where it was not shown before.
    pub fn enter_files(&mut self)
        ensures
            final(self)@ == (AppView {
                screen: Screen::Files,
                ..if old(self)@.screen == Screen::Files {
                    old(self)@
                } else {
                    unmarked(old(self)@)
                }
            }),
            old(self).wf() ==> final(self).wf(),
    {
        if self.screen != Screen::Files {
            self.clear_marks();
        }
        self.screen = Screen::Files;
    }

    /// Shows the playlist screen, with its first row selected.
    pub fn enter_playlists(&mut self)
        ensures
            final(self)@ == (AppView {
                screen: Screen::Playlists,
                playlist_state: Some(0),
                playlist_track_state: None,
                playlist_track_marks: Set::empty(),
                ..old(self)@
            }),
            final(self).wf() == old(self).wf(),
    {
        self.screen = Screen::Playlists;
        self.playlist_state = Some(0);
        self.playlist_track_state = None;
        self.playlist_track_marks.clear();
    }

    /// Shows the screen on which tracks are added to the active playlist.
    pub fn enter_add_to_playlist(&mut self)
        ensures
            final(self)@ == (AppView {
                screen: Screen::AddToPlaylist,
                add_to_focus: PlaylistPane::Playlists,
                add_to_marks: Set::empty(),
                playlist_track_marks: Set::empty(),
                playlist_track_state: None,
                ..old(self)@
            }),
            final(self).wf() == old(self).wf(),
    {
        self.screen = Screen::AddToPlaylist;
        self.add_to_focus = PlaylistPane::Playlists;
        self.add_to_marks.clear();
        self.playlist_track_marks.clear();
        self.playlist_track_state = None;
    }

    /// Shows the settings.
    pub fn enter_settings(&mut self)
        ensures
            final(self)@ == (AppView { screen: Screen::Settings, ..old(self)@ }),
            final(self).wf() == old(self).wf(),
    {
        self.screen = Screen::Settings;
    }

    /// The playlist that is selected in the list.
    pub fn selected_playlist(&self) -> (r: Option<Playlist>)
        ensures
            (match r {
                Some(playlist) => selected_of(self@) == Some(playlist@),
                None => selected_of(self@) is None,
            }),
    {
        match (self.playlist_state, self.connected_snapshot()) {
            (Some(i), Some(snapshot)) => {
                if i > 0 && i <= snapshot.playlists.len() {
                    Some(snapshot.playlists[i - 1].clone())
                } else {
                    None
                }
            },
            _ => None,
        }
    }

    /// The active playlist, where the device has it.
    pub fn active_playlist(&self) -> (r: Option<Playlist>)
        ensures
            (match r {
                Some(playlist) => active_of(self@) == Some(playlist@),
                None => active_of(self@) is None,
            }),
    {
        match (self.active_playlist, self.connected_snapshot()) {
            (Some(id), Some(snapshot)) => {
                let ghost all = snapshot@.playlists;
                let ghost test = |p: PlaylistView| p.id == id;
                let mut i: usize = 0;
                while i < snapshot.playlists.len() && snapshot.playlists[i].id != id
                    invariant
                        i <= snapshot.playlists@.len(),
                        all == snapshot@.playlists,
                        test == (|p: PlaylistView| p.id == id),
                        forall|j: int| 0 <= j < i ==> !test(#[trigger] all[j]),
                    decreases snapshot.playlists@.len() - i,
                {
                    assert(all[i as int] == snapshot.playlists@[i as int]@);
                    i = i + 1;
                }
                proof {
                    if i < snapshot.playlists@.len() {
                        assert(all[i as int] == snapshot.playlists@[i as int]@);
                    }
                    seqs::lemma_position_is(all, test, i as int);
                }
                if i < snapshot.playlists.len() {
                    Some(snapshot.playlists[i].clone())
                } else {
                    None
                }
            },
            _ => None,
        }
    }

    /// Looks for the stored active playlist on a device: it is active again where it is found by
    /// id and name, and forgotten where it is not.
    pub fn restore_active_playlist(&mut self, snapshot: &DeviceSnapshot) -> (r: Action)
        ensures
            final(self)@ == restored(old(self)@, snapshot@),
            r@ == restored_action(old(self)@, snapshot@),
            final(self).wf() == old(self).wf(),
    {
        match self.persisted.active_playlist_id {
            Some(id) => {
                if has_playlist(&snapshot.playlists, id, &self.persisted.active_playlist_name) {
                    self.active_playlist = Some(id);
                    Action::Nothing
                } else {
                    self.active_playlist = None;
                    self.persisted.active_playlist_id = None;
                    self.persisted.active_playlist_name = None;
                    Action::Save
                }
            },
            None => {
                self.active_playlist = None;
                Action::Nothing
            },
        }
    }

    /// Makes a playlist the active one.
    pub fn set_active_playlist(&mut self, playlist: &Playlist) -> (r: Action)
        ensures
            final(self)@ == activated(old(self)@, playlist@),
            r@ == ActionView::Save,
            final(self).wf() == old(self).wf(),
    {
        self.active_playlist = Some(playlist.id);
        self.persisted.active_playlist_id = Some(playlist.id);
        self.persisted.active_playlist_name = Some(playlist.name.clone());
        Action::Save
    }

    /// Reports that the settings could not be written.
    pub fn save_failed(&mut self, error: &str)
        ensures
            final(self)@ == (AppView {
                transfer_status: Some("Could not save settings: "@ + error@),
                ..old(self)@
            }),
            final(self).wf() == old(self).wf(),
    {
        let mut status = copy_text("Could not save settings: ");
        status.append(error);
        self.transfer_status = Some(status);
    }

    /// Enters what was told of a transfer.
    pub fn collect_transfer_events(&mut self, event: TransferEvent) -> (r: TransferEffects)
        ensures
            final(self)@ == after_event(old(self)@, event@),
            r.save == (match event@ {
                EventView::Finished { snapshot: Some(s), .. } => active_is_lost(old(self)@, s),
                _ => false,
            }),
            path_of(r.refresh) == (match event@ {
                EventView::Finished { .. } => old(self)@.download_directory,
                _ => None,
            }),
            old(self).wf() ==> final(self).wf(),
    {
        let status = event_status(&event);
        let mut save = false;
        let mut refresh: Option<LocalPath> = None;
        if let TransferEvent::Finished { snapshot, .. } = event {
            self.transfer_running = false;
            if let Some(s) = snapshot {
                if let Some(active) = self.active_playlist {
                    if !has_playlist(&s.playlists, active, &None) {
                        self.active_playlist = None;
                        self.persisted.active_playlist_id = None;
                        self.persisted.active_playlist_name = None;
                        save = true;
                    }
                }
                self.connection = Connection::Connected(s);
            }
            refresh = self.download_directory.take();
            self.clear_marks();
            self.playlist_delete_marks.clear();
            self.playlist_track_marks.clear();
            self.add_to_marks.clear();
        }
        self.transfer_status = Some(status);
        TransferEffects { save, refresh }
    }

    /// The transfer that waits to be started, which is under way from then on.
    pub fn take_pending(&mut self) -> (r: Option<TransferJob>)
        ensures
            job_of(r) == old(self)@.pending_transfer,
            final(self)@ == (AppView {
                pending_transfer: None,
                transfer_running: old(self)@.transfer_running
                    || old(self)@.pending_transfer is Some,
                ..old(self)@
            }),
            final(self).wf() == old(self).wf(),
    {
        let job = self.pending_transfer.take();
        if job.is_some() {
            self.transfer_running = true;
        }
        job
    }
}

/// Whether a playlist with this id, and with this name where one is given, is there.
fn has_playlist(playlists: &Vec<Playlist>, id: u32, name: &Option<String>) -> (r: bool)
    ensures
        r == knows_playlist(
            crate::device::playlist_views(playlists@),
            id,
            text::text_of(*name),
        ),
{
    let ghost all = crate::device::playlist_views(playlists@);
    let mut i: usize = 0;
    while i < playlists.len()
        invariant
            i <= playlists@.len(),
            all == crate::device::playlist_views(playlists@),
            forall|j: int|
                0 <= j < i ==> !((#[trigger] all[j]).id == id && (match text::text_of(*name) {
                    Some(n) => all[j].name == n,
                    None => true,
                })),
        decreases playlists@.len() - i,
    {
        assert(all[i as int] == playlists@[i as int]@);
        let name_fits = match name {
            Some(n) => same_text(&playlists[i].name, n),
            None => true,
        };
        if playlists[i].id == id && name_fits {
            assert(all[i as int].id == id);
            return true;
        }
        i = i + 1;
    }
    false
}

/// The stored active playlist becomes active again exactly where the device has a playlist with
/// its id, and with its name where one is stored; otherwise nothing is active and it is forgotten.
pub proof fn lemma_restored(a: AppView, snapshot: SnapshotView)
    ensures
        restored(a, snapshot).active_playlist is Some <==> stored_playlist_is_known(
            a.persisted,
            snapshot,
        ),
        restored(a, snapshot).active_playlist is Some ==> restored(a, snapshot).persisted
            == a.persisted && restored(a, snapshot).active_playlist
            == a.persisted.active_playlist_id,
        restored(a, snapshot).active_playlist is None ==> restored(
            a,
            snapshot,
        ).persisted.active_playlist_id is None,
        restored(restored(a, snapshot), snapshot).active_playlist == restored(
            a,
            snapshot,
        ).active_playlist,
{
}

/// A playlist that was made active is active again when the same device is connected in a later
/// session.
pub proof fn lemma_active_playlist_comes_back(
    a: AppView,
    later: AppView,
    snapshot: SnapshotView,
    playlist: PlaylistView,
)
    requires
        snapshot.playlists.contains(playlist),
        later.persisted == activated(a, playlist).persisted,
    ensures
        restored(later, snapshot).active_playlist == Some(playlist.id),
        restored_action(later, snapshot) == ActionView::Nothing,
{
    let i = choose|i: int| 0 <= i < snapshot.playlists.len() && snapshot.playlists[i] == playlist;
    assert(snapshot.playlists[i].id == playlist.id);
}

/// A session starts on the splash screen with the home directory selected and open, with nothing
/// marked, nothing asked and nothing under way, and with the stored theme selected in the settings.
pub proof fn lemma_first_state(persisted: StateView, local_tree: LocalTreeView)
    ensures
        ({
            let a = first_state(persisted, local_tree);
            &&& a.screen == (Screen::Splash { continue_pressed: false })
            &&& a.connection == ConnectionView::Loading("Connecting..."@)
            &&& !a.connecting && !a.transfer_running && !a.help_open && !a.debug_open
            &&& a.local_tree == local_tree
            &&& a.persisted == persisted
            &&& a.local_state.current() == Some(local_tree.home)
            &&& a.local_state.opened.len() == 1 && a.local_state.opened[0] == a.local_state.path
            &&& a.device_state.current() is None && a.device_state.opened.len() == 0
            &&& a.add_to_device_state.current() is None && a.add_to_device_state.opened.len() == 0
            &&& a.focused_pane == Pane::Local
            &&& a.playlist_focus == PlaylistPane::Playlists
            &&& a.add_to_focus == PlaylistPane::Playlists
            &&& a.local_marks.len() == 0
            &&& forall|id: u32| !#[trigger] a.device_marks.contains(id)
            &&& forall|id: u32| !#[trigger] a.playlist_delete_marks.contains(id)
            &&& forall|id: u32| !#[trigger] a.playlist_track_marks.contains(id)
            &&& forall|id: u32| !#[trigger] a.add_to_marks.contains(id)
            &&& a.local_anchor is None && a.device_anchor is None
            &&& a.pending_transfer is None && a.transfer_status is None
            &&& a.download_directory is None
            &&& a.delete_confirmation is None && a.playlist_confirmation is None
            &&& a.playlist_name_input is None
            &&& a.playlist_state == Some(0usize) && a.playlist_track_state is None
            &&& a.debug_scroll == 0
            &&& a.active_playlist is None
            &&& a.settings_state matches Some(row) && row < 5 && Theme::ALL[row as int]
                == persisted.theme
        }),
{
}

/// A stored playlist is known where the device has one with its id, and with its name where a name
/// was stored.
pub proof fn lemma_stored_playlist(persisted: StateView, snapshot: SnapshotView)
    ensures
        stored_playlist_is_known(persisted, snapshot) <==> exists|i: int|
            {
                &&& 0 <= i < snapshot.playlists.len()
                &&& persisted.active_playlist_id == Some((#[trigger] snapshot.playlists[i]).id)
                &&& persisted.active_playlist_name is Some ==> persisted.active_playlist_name
                    == Some(snapshot.playlists[i].name)
            },
{
    if stored_playlist_is_known(persisted, snapshot) {
        let i = choose|i: int|
            0 <= i < snapshot.playlists.len() && (#[trigger] snapshot.playlists[i]).id
                == persisted.active_playlist_id->0 && (match persisted.active_playlist_name {
                Some(n) => snapshot.playlists[i].name == n,
                None => true,
            });
        assert(persisted.active_playlist_id == Some(snapshot.playlists[i].id));
    }
}

/// Once the search for a device has ended, the session holds what was found. The splash screen is
/// left where the user asked to go on; marks, panes and trees stay as they are. A stored playlist
/// that the device does not have is forgotten, and only then the state is stored.
pub proof fn lemma_connected(a: AppView, result: Option<SnapshotView>)
    ensures
        ({
            let now = connected(a, result);
            &&& !now.connecting
            &&& result is None ==> now.connection is NotFound && now.active_playlist
                == a.active_playlist && now.persisted == a.persisted
            &&& result matches Some(snapshot) ==> {
                &&& now.connection == ConnectionView::Connected(snapshot)
                &&& now.active_playlist is Some <==> stored_playlist_is_known(
                    a.persisted,
                    snapshot,
                )
                &&& now.active_playlist is Some ==> now.active_playlist
                    == a.persisted.active_playlist_id && now.persisted == a.persisted
                &&& now.active_playlist is None ==> now.persisted.active_playlist_id is None
                &&& now.persisted.theme == a.persisted.theme
                &&& a.persisted.active_playlist_id is None ==> now.persisted == a.persisted
                &&& restored_action(a, snapshot) is Save <==> now.persisted.active_playlist_id
                    != a.persisted.active_playlist_id
                &&& restored_action(a, snapshot) is Save || restored_action(
                    a,
                    snapshot,
                ) is Nothing
                &&& restored_action(a, snapshot) is Save ==> now.persisted.active_playlist_name is None
            }
            &&& a.screen == (Screen::Splash { continue_pressed: true }) ==> now.screen
                == Screen::Playlists
            &&& a.screen != (Screen::Splash { continue_pressed: true }) ==> now.screen == a.screen
            &&& now == (AppView {
                screen: now.screen,
                connection: now.connection,
                connecting: false,
                active_playlist: now.active_playlist,
                persisted: now.persisted,
                ..a
            })
        }),
{
}

/// While a transfer is under way only what is said of it changes. Once it has ended, nothing is
/// marked any more, another transfer can start, and the session holds the device as it is then; an
/// active playlist that the device has lost is forgotten.
pub proof fn lemma_after_event(a: AppView, event: EventView)
    ensures
        ({
            let now = after_event(a, event);
            &&& now.transfer_status == Some(transfer::event_text(event))
            &&& event is Progress ==> now == (AppView { transfer_status: now.transfer_status, ..a })
            &&& event matches EventView::Finished { snapshot, .. } ==> {
                let lost = snapshot is Some && a.active_playlist is Some && forall|i: int|
                    0 <= i < snapshot->0.playlists.len() ==> (#[trigger] snapshot->0.playlists[i]).id
                        != a.active_playlist->0;
                &&& !now.transfer_running
                &&& now.download_directory is None
                &&& now.local_marks.len() == 0
                &&& forall|id: u32| !#[trigger] now.device_marks.contains(id)
                &&& forall|id: u32| !#[trigger] now.playlist_delete_marks.contains(id)
                &&& forall|id: u32| !#[trigger] now.playlist_track_marks.contains(id)
                &&& forall|id: u32| !#[trigger] now.add_to_marks.contains(id)
                &&& now.local_anchor is None && now.device_anchor is None
                &&& snapshot matches Some(s) ==> now.connection == ConnectionView::Connected(s)
                &&& snapshot is None ==> now.connection == a.connection
                &&& !lost ==> now.active_playlist == a.active_playlist && now.persisted
                    == a.persisted
                &&& lost ==> now.active_playlist is None && now.persisted == (StateView {
                    theme: a.persisted.theme,
                    active_playlist_id: None,
                    active_playlist_name: None,
                })
                &&& now == (AppView {
                    transfer_running: false,
                    download_directory: None,
                    local_marks: now.local_marks,
                    device_marks: now.device_marks,
                    local_anchor: None,
                    device_anchor: None,
                    playlist_delete_marks: now.playlist_delete_marks,
                    playlist_track_marks: now.playlist_track_marks,
                    add_to_marks: now.add_to_marks,
                    connection: now.connection,
                    active_playlist: now.active_playlist,
                    persisted: now.persisted,
                    transfer_status: now.transfer_status,
                    ..a
                })
            }
        }),
{
    if let EventView::Finished { snapshot, .. } = event {
        if let (Some(s), Some(id)) = (snapshot, a.active_playlist) {
            if knows_playlist(s.playlists, id, None) {
                let i = choose|i: int|
                    0 <= i < s.playlists.len() && (#[trigger] s.playlists[i]).id == id;
                assert(s.playlists[i].id == id);
            } else {
                assert forall|i: int| 0 <= i < s.playlists.len() implies (
                #[trigger] s.playlists[i]).id != id by {}
            }
        }
    }
}

} // verus!
