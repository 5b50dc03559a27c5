//! The keys, and what each of them does on the screen that is shown.
use vstd::prelude::*;

use crate::device::PlaylistView;
use crate::file_screen;
use crate::playlist_screen;
use crate::session;
use crate::session::{Action, ActionView, App, AppView, PlaylistPane, Screen};

verus! {

/// A key.
#[derive(Debug, Clone, Copy, PartialEq, Eq, Structural)]
pub enum Key {
    Tab,
    Enter,
    Esc,
    Backspace,
    Delete,
    Up,
    Down,
    Left,
    Right,
    PageUp,
    PageDown,
    Char(char),
    Other,
}

/// Whether a key ends the session.
pub fn should_quit(key: Key) -> (r: bool)
    ensures
        r == (key == Key::Char('q') || key == Key::Esc),
{
    key == Key::Char('q') || key == Key::Esc
}

/// How far a key scrolls the debug panel.
pub open spec fn scrolled(scroll: usize, key: Key) -> usize {
    match key {
        Key::Up => if scroll < usize::MAX {
            (scroll + 1) as usize
        } else {
            scroll
        },
        Key::Down => if scroll > 0 {
            (scroll - 1) as usize
        } else {
            0
        },
        Key::PageUp => if scroll <= usize::MAX - 10 {
            (scroll + 10) as usize
        } else {
            usize::MAX
        },
        Key::PageDown => if scroll > 10 {
            (scroll - 10) as usize
        } else {
            0
        },
        _ => scroll,
    }
}

/// The session once a screen was chosen by its number.
pub open spec fn screen_chosen(a: AppView, key: Key) -> Option<AppView> {
    match key {
        Key::Char('1') => Some(
            AppView {
                screen: Screen::Files,
                ..if a.screen == Screen::Files {
                    a
                } else {
                    session::unmarked(a)
                }
            },
        ),
        Key::Char('2') => Some(
            AppView {
                screen: Screen::Playlists,
                playlist_state: Some(0),
                playlist_track_state: None,
                playlist_track_marks: Set::empty(),
                ..a
            },
        ),
        Key::Char('3') => Some(
            AppView {
                screen: Screen::AddToPlaylist,
                add_to_focus: PlaylistPane::Playlists,
                add_to_marks: Set::empty(),
                playlist_track_marks: Set::empty(),
                playlist_track_state: None,
                ..a
            },
        ),
        Key::Char('4') => Some(AppView { screen: Screen::Settings, ..a }),
        _ => None,
    }
}

/// The session once a key was pressed that no dialog takes.
pub open spec fn screen_key(a: AppView, key: Key, shift: bool) -> file_screen::Reaction {
    match screen_chosen(a, key) {
        Some(state) => file_screen::quiet(state),
        None => match a.screen {
            Screen::Splash { .. } => file_screen::quiet(
                AppView {
                    screen: if a.connection is Loading {
                        Screen::Splash { continue_pressed: true }
                    } else {
                        Screen::Playlists
                    },
                    ..a
                },
            ),
            Screen::Files => file_screen::file_key(a, key, shift),
            Screen::Playlists => playlist_screen::playlist_key(a, key),
            Screen::AddToPlaylist => playlist_screen::add_to_key(a, key),
            Screen::Settings => playlist_screen::settings_key(a, key),
        },
    }
}

/// The session once a key was pressed: the help comes first, then what is being typed or asked,
/// then the debug panel, and then the screen.
pub open spec fn pressed(a: AppView, key: Key, shift: bool) -> file_screen::Reaction {
    if a.help_open {
        file_screen::quiet(
            AppView { help_open: key != Key::Char('?') && key != Key::Esc, ..a },
        )
    } else if key == Key::Char('?') {
        file_screen::quiet(AppView { help_open: true, ..a })
    } else if a.playlist_name_input is Some {
        file_screen::quiet(playlist_screen::name_key(a, key))
    } else if a.playlist_confirmation is Some {
        file_screen::quiet(playlist_screen::change_answered(a, key))
    } else if a.delete_confirmation is Some {
        file_screen::quiet(file_screen::deletion_answered(a, key))
    } else if key == Key::Char('q') || key == Key::Esc {
        file_screen::Reaction { state: a, action: ActionView::Quit }
    } else if key == Key::Char('`') {
        file_screen::quiet(AppView { debug_open: !a.debug_open, debug_scroll: 0, ..a })
    } else if a.debug_open {
        file_screen::quiet(AppView { debug_scroll: scrolled(a.debug_scroll, key), ..a })
    } else {
        screen_key(a, key, shift)
    }
}

impl App {
    /// Handles a key that no dialog takes.
    fn handle_screen_key(&mut self, key: Key, shift: bool) -> (r: Action)
        requires
            old(self).wf(),
        ensures
            final(self)@ == screen_key(old(self)@, key, shift).state,
            r@ == screen_key(old(self)@, key, shift).action,
            final(self).wf(),
    {
        match key {
            Key::Char('1') => {
                self.enter_files();
                Action::Nothing
            },
            Key::Char('2') => {
                self.enter_playlists();
                Action::Nothing
            },
            Key::Char('3') => {
                self.enter_add_to_playlist();
                Action::Nothing
            },
            Key::Char('4') => {
                self.enter_settings();
                Action::Nothing
            },
            _ => match self.screen {
                Screen::Splash { .. } => {
                    self.continue_from_splash();
                    Action::Nothing
                },
                Screen::Files => self.handle_file_key(key, shift),
                Screen::Playlists => self.handle_playlist_key(key),
                Screen::AddToPlaylist => self.handle_add_to_playlist_key(key),
                Screen::Settings => self.handle_settings_key(key),
            },
        }
    }

    /// Handles a key.
    pub fn handle_key(&mut self, key: Key, shift: bool) -> (r: Action)
        requires
            old(self).wf(),
        ensures
            final(self)@ == pressed(old(self)@, key, shift).state,
            r@ == pressed(old(self)@, key, shift).action,
            final(self).wf(),
    {
        if self.help_open {
            if key == Key::Char('?') || key == Key::Esc {
                self.help_open = false;
            }
            return Action::Nothing;
        }
        if key == Key::Char('?') {
            self.help_open = true;
            return Action::Nothing;
        }
        if self.playlist_name_input.is_some() {
            self.handle_playlist_name_input(key);
            return Action::Nothing;
        }
        if self.playlist_confirmation.is_some() {
            self.handle_playlist_confirmation(key);
            return Action::Nothing;
        }
        if self.delete_confirmation.is_some() {
            self.handle_delete_confirmation(key);
            return Action::Nothing;
        }
        if should_quit(key) {
            return Action::Quit;
        }
        if key == Key::Char('`') {
            self.debug_open = !self.debug_open;
            self.debug_scroll = 0;
            return Action::Nothing;
        }
        if self.debug_open {
            match key {
                Key::Up => {
                    self.debug_scroll = self.debug_scroll.saturating_add(1);
                },
                Key::Down => {
                    self.debug_scroll = self.debug_scroll.saturating_sub(1);
                },
                Key::PageUp => {
                    self.debug_scroll = self.debug_scroll.saturating_add(10);
                },
                Key::PageDown => {
                    self.debug_scroll = self.debug_scroll.saturating_sub(10);
                },
                _ => {},
            }
            return Action::Nothing;
        }
        self.handle_screen_key(key, shift)
    }
}

/// Nothing is asked of the device by a key alone while a question waits for an answer: only a key
/// that confirms makes a job wait, and no key starts one or ends the session.
pub proof fn lemma_questions_come_first(a: AppView, key: Key, shift: bool)
    requires
        a.delete_confirmation is Some || a.playlist_confirmation is Some,
    ensures
        pressed(a, key, shift).action == ActionView::Nothing,
        !file_screen::confirms(key) ==> pressed(a, key, shift).state.pending_transfer
            == a.pending_transfer,
        pressed(a, key, shift).state.screen == a.screen,
{
}

/// Leaving the file screen and coming back removes its marks; choosing it again while it is shown
/// keeps them.
pub proof fn lemma_file_marks(a: AppView)
    ensures
        a.screen == Screen::Files ==> screen_chosen(a, Key::Char('1')) == Some(a),
        a.screen != Screen::Files ==> (screen_chosen(a, Key::Char('1')) matches Some(now)
            && now.local_marks.len() == 0 && now.device_marks == Set::<u32>::empty()),
{
}

/// The up keys scroll the debug panel up, by one line or by ten, the down keys down, and never below
/// the last line. A page up undoes a page down that was not cut short.
pub proof fn lemma_scrolled(scroll: usize)
    requires
        scroll + 10 <= usize::MAX,
    ensures
        scrolled(scroll, Key::Up) == scroll + 1,
        scrolled(scroll, Key::PageUp) == scroll + 10,
        scroll > 0 ==> scrolled(scroll, Key::Down) == scroll - 1,
        scroll >= 10 ==> scrolled(scroll, Key::PageDown) == scroll - 10,
        scrolled(0, Key::Down) == 0,
        scroll < 10 ==> scrolled(scroll, Key::PageDown) == 0,
        scrolled(scrolled(scroll, Key::Up), Key::Down) == scroll,
        scrolled(scrolled(scroll, Key::PageUp), Key::PageDown) == scroll,
        forall|key: Key|
            key != Key::Up && key != Key::Down && key != Key::PageUp && key != Key::PageDown
                ==> #[trigger] scrolled(scroll, key) == scroll,
{
}

/// The keys from one to four lead to the four screens, from each of them. Going to the files takes
/// away the marks there, unless they are shown; going to the playlists selects the first row; going
/// to the playlists or to the additions takes away the marks in a playlist. Nothing else changes.
pub proof fn lemma_chosen_screens(a: AppView)
    ensures
        screen_chosen(a, Key::Char('1')) matches Some(now) && now.screen == Screen::Files && now == (
        AppView {
            screen: Screen::Files,
            local_marks: now.local_marks,
            device_marks: now.device_marks,
            local_anchor: now.local_anchor,
            device_anchor: now.device_anchor,
            ..a
        }) && (a.screen != Screen::Files ==> now.local_anchor is None && now.device_anchor is None),
        screen_chosen(a, Key::Char('2')) matches Some(now) && now.playlist_state == Some(0usize)
            && now.playlist_track_state is None && (forall|id: u32|
            !#[trigger] now.playlist_track_marks.contains(id)) && now == (AppView {
            screen: Screen::Playlists,
            playlist_state: now.playlist_state,
            playlist_track_state: None,
            playlist_track_marks: now.playlist_track_marks,
            ..a
        }),
        screen_chosen(a, Key::Char('3')) matches Some(now) && now.playlist_track_state is None && (
        forall|id: u32| !#[trigger] now.playlist_track_marks.contains(id)) && (forall|id: u32|
            !#[trigger] now.add_to_marks.contains(id)) && now == (AppView {
            screen: Screen::AddToPlaylist,
            add_to_focus: PlaylistPane::Playlists,
            add_to_marks: now.add_to_marks,
            playlist_track_marks: now.playlist_track_marks,
            playlist_track_state: None,
            ..a
        }),
        screen_chosen(a, Key::Char('4')) matches Some(now) && now == (AppView {
            screen: Screen::Settings,
            ..a
        }),
        forall|key: Key|
            key != Key::Char('1') && key != Key::Char('2') && key != Key::Char('3') && key
                != Key::Char('4') ==> #[trigger] screen_chosen(a, key) is None,
{
}

/// Who gets a key: the help where it is open, which only its own keys close; then the name that is
/// typed, a question, the keys to quit and to open the debug panel, that panel where it is open, and
/// at last the screen.
pub proof fn lemma_who_gets_a_key(a: AppView, key: Key, shift: bool)
    ensures
        ({
            let r = pressed(a, key, shift);
            let busy = a.help_open || key == Key::Char('?');
            let asked = a.playlist_name_input is Some || a.playlist_confirmation is Some
                || a.delete_confirmation is Some;
            &&& a.help_open && (key == Key::Char('?') || key == Key::Esc) ==> r.action is Nothing
                && r.state == (AppView { help_open: false, ..a })
            &&& a.help_open && key != Key::Char('?') && key != Key::Esc ==> r.action is Nothing
                && r.state == a
            &&& !a.help_open && key == Key::Char('?') ==> r.action is Nothing && r.state == (
            AppView { help_open: true, ..a })
            &&& !busy && a.playlist_name_input is Some ==> r.action is Nothing && r.state
                == playlist_screen::name_key(a, key)
            &&& !busy && a.playlist_name_input is None && a.playlist_confirmation is Some
                ==> r.action is Nothing && r.state == playlist_screen::change_answered(a, key)
            &&& !busy && a.playlist_name_input is None && a.playlist_confirmation is None
                && a.delete_confirmation is Some ==> r.action is Nothing && r.state
                == file_screen::deletion_answered(a, key)
            &&& !busy && !asked && (key == Key::Char('q') || key == Key::Esc) ==> r.action is Quit
                && r.state == a
            &&& r.action is Quit ==> !busy && !asked && (key == Key::Char('q') || key == Key::Esc)
            &&& !busy && !asked && key == Key::Char('`') ==> r.action is Nothing && r.state == (
            AppView { debug_open: !a.debug_open, debug_scroll: 0, ..a })
            &&& !busy && !asked && a.debug_open && key != Key::Char('q') && key != Key::Esc && key
                != Key::Char('`') ==> r.action is Nothing && r.state == (AppView {
                debug_scroll: scrolled(a.debug_scroll, key),
                ..a
            })
        }),
{
}

/// Nothing under way: no help, name, question or debug panel takes the keys.
pub open spec fn screen_gets_keys(a: AppView) -> bool {
    &&& !a.help_open
    &&& !a.debug_open
    &&& a.playlist_name_input is None
    &&& a.playlist_confirmation is None
    &&& a.delete_confirmation is None
}

/// A key that no dialog and no panel takes goes to the screen that is shown, unless it leads to
/// another screen. On the splash screen any such key goes on to the playlists, at once or as soon as
/// the search for a device has ended.
pub proof fn lemma_keys_of_screens(a: AppView, key: Key, shift: bool)
    requires
        screen_gets_keys(a),
        key != Key::Char('?') && key != Key::Char('q') && key != Key::Esc && key != Key::Char('`'),
    ensures
        screen_chosen(a, key) matches Some(now) ==> pressed(a, key, shift).action is Nothing
            && pressed(a, key, shift).state == now,
        screen_chosen(a, key) is None ==> {
            let r = pressed(a, key, shift);
            &&& a.screen == Screen::Files ==> r == file_screen::file_key(a, key, shift)
            &&& a.screen == Screen::Playlists ==> r == playlist_screen::playlist_key(a, key)
            &&& a.screen == Screen::AddToPlaylist ==> r == playlist_screen::add_to_key(a, key)
            &&& a.screen == Screen::Settings ==> r == playlist_screen::settings_key(a, key)
            &&& a.screen is Splash ==> r.action is Nothing && r.state == (AppView {
                screen: r.state.screen,
                ..a
            })
            &&& a.screen is Splash && a.connection is Loading ==> r.state.screen == (
            Screen::Splash { continue_pressed: true })
            &&& a.screen is Splash && !(a.connection is Loading) ==> r.state.screen
                == Screen::Playlists
        },
{
}

/// What is known of the device, where the cursors stand and where a transfer writes stay as they
/// are; a transfer is only started where none is under way; and what is stored changes only where it
/// is then stored.
pub open spec fn keeps_device(a: AppView, r: file_screen::Reaction) -> bool {
    &&& r.state.connection == a.connection
    &&& r.state.connecting == a.connecting
    &&& r.state.local_tree == a.local_tree
    &&& r.state.local_state == a.local_state
    &&& r.state.device_state == a.device_state
    &&& r.state.add_to_device_state == a.add_to_device_state
    &&& r.state.download_directory == a.download_directory
    &&& r.action is Start ==> !a.transfer_running && r.state.transfer_running
    &&& !(r.action is Start) ==> r.state.transfer_running == a.transfer_running
    &&& r.state.persisted == a.persisted || r.action is Save || r.action is ApplyTheme
}

/// No key changes what is known of the device, where the cursors stand or where a transfer writes. A
/// key starts a transfer only where none is under way, and what is to be stored is then stored.
pub proof fn lemma_keys_keep_the_device(a: AppView, key: Key, shift: bool)
    ensures
        keeps_device(a, pressed(a, key, shift)),
{
    lemma_screens_keep_the_device(a, key, shift);
    lemma_dialogs_keep_the_device(a, key);
}

proof fn lemma_file_keys_keep_the_device(a: AppView, key: Key, shift: bool)
    ensures
        keeps_device(a, file_screen::file_key(a, key, shift)),
{
    let toggled = file_screen::mark_toggled(a);
    assert(keeps_device(a, toggled));
    let ranged = file_screen::range_marked(a);
    assert(keeps_device(a, ranged));
    let started = file_screen::transfer_started(a);
    assert(keeps_device(a, started));
    let asked = file_screen::deletion_requested(a);
    assert(keeps_device(a, file_screen::quiet(asked)));
}

proof fn lemma_playlist_keys_keep_the_device(a: AppView, key: Key, playlist: Option<PlaylistView>)
    ensures
        keeps_device(
            a,
            file_screen::quiet(playlist_screen::tracks_key(a, key, playlist)),
        ),
        keeps_device(a, playlist_screen::list_key(a, key)),
{
}

proof fn lemma_dialogs_keep_the_device(a: AppView, key: Key)
    ensures
        keeps_device(a, file_screen::quiet(playlist_screen::name_key(a, key))),
        keeps_device(a, file_screen::quiet(playlist_screen::change_answered(a, key))),
        keeps_device(a, file_screen::quiet(file_screen::deletion_answered(a, key))),
{
}

proof fn lemma_screens_keep_the_device(a: AppView, key: Key, shift: bool)
    ensures
        keeps_device(a, screen_key(a, key, shift)),
{
    lemma_file_keys_keep_the_device(a, key, shift);
    lemma_playlist_keys_keep_the_device(a, key, session::selected_of(a));
    lemma_playlist_keys_keep_the_device(a, key, session::active_of(a));
    let toggled = playlist_screen::add_to_toggled(a);
    assert(keeps_device(a, file_screen::quiet(toggled)));
    let added = playlist_screen::addition_requested(a);
    assert(keeps_device(a, file_screen::quiet(added)));
    assert(keeps_device(a, playlist_screen::add_to_key(a, key)));
    assert(keeps_device(a, playlist_screen::playlist_key(a, key)));
    assert(keeps_device(a, playlist_screen::settings_key(a, key)));
    if let Some(now) = screen_chosen(a, key) {
        assert(keeps_device(a, file_screen::quiet(now)));
    }
}

} // verus!
