use std::collections::HashSet;

use zunetui::app_state::PersistedState;
use zunetui::browser::{DirEntry, EntryKind, LocalTree};
use zunetui::debug_log;
use zunetui::deletion::{
    delete_confirmation_message, delete_scope, playlist_confirmation_message, DeleteConfirmation,
    DeleteItem, PlaylistConfirmation,
};
use zunetui::device::{
    Album, DeviceInfo, DeviceSnapshot, Folder, Playlist, Track, ZuneNotFound,
};
use zunetui::device_tree::{
    folder_items, is_album_object_folder, mark_track_range, playlist_rows, playlist_track_rows,
    snapshot_storage_id,
};
use zunetui::file_screen::{mark_path_range, PathFacts};
use zunetui::keys::{should_quit, Key};
use zunetui::library::artist_sort_key;
use zunetui::local_path::{LocalPath, PathSet};
use zunetui::marks::{group_is_fully_marked, toggle_track_group};
use zunetui::palette::Theme;
use zunetui::screen::{
    centered, debug_panel, debug_window, dialog_size, message_width, status_line,
    wrap_debug_lines, Area, Tone,
};
use zunetui::session::{
    Action, App, Connection, Motion, Pane, PlaylistPane, Screen, TreeName,
};
use zunetui::transfer::{
    append_unique_track_ids, event_status, no_device, safe_download_name, DeviceCall, Outcome,
    Transfer, TransferEvent, TransferJob,
};
use zunetui::tree::DeviceItemId;

fn path(text: &str) -> LocalPath {
    LocalPath::from_text(text)
}

fn file(text: &str) -> DirEntry {
    DirEntry { path: path(text), kind: EntryKind::File }
}

fn new_app() -> App {
    let tree = LocalTree::home(
        path("/home/me"),
        vec![file("/home/me/a.mp3"), file("/home/me/b.txt"), file("/home/me/c.ogg")],
        "",
    );
    App::new(PersistedState::default(), tree)
}

fn copy_of(snapshot: &DeviceSnapshot) -> DeviceSnapshot {
    fn folders(list: &[Folder]) -> Vec<Folder> {
        list.iter()
            .map(|folder| Folder {
                id: folder.id,
                storage_id: folder.storage_id,
                name: folder.name.clone(),
                children: folders(&folder.children),
            })
            .collect()
    }
    DeviceSnapshot {
        info: DeviceInfo {
            friendly_name: snapshot.info.friendly_name.clone(),
            model: snapshot.info.model.clone(),
            serial: snapshot.info.serial.clone(),
            version: snapshot.info.version.clone(),
            capacity_bytes: snapshot.info.capacity_bytes,
            free_bytes: snapshot.info.free_bytes,
        },
        folders: folders(&snapshot.folders),
        tracks: snapshot.tracks.clone(),
        albums: snapshot
            .albums
            .iter()
            .map(|album| Album {
                id: album.id,
                name: album.name.clone(),
                track_ids: album.track_ids.clone(),
            })
            .collect(),
        playlists: snapshot.playlists.clone(),
    }
}

fn track(id: u32, parent_id: u32, name: &str, filename: &str) -> Track {
    Track {
        id,
        parent_id,
        storage_id: 2,
        name: name.to_owned(),
        filename: filename.to_owned(),
    }
}

#[test]
fn device_filename_cannot_escape_download_directory() {
    let track = Track {
        id: 42,
        parent_id: 1,
        storage_id: 2,
        name: "Unsafe".to_owned(),
        filename: "../../outside.wma".to_owned(),
    };
    assert_eq!(safe_download_name(&track), "outside.wma");
}

#[test]
fn a_track_without_a_usable_filename_is_named_by_its_id() {
    assert_eq!(safe_download_name(&track(42, 1, "x", "..")), "track-42");
    assert_eq!(safe_download_name(&track(42, 1, "x", "")), "track-42");
    assert_eq!(safe_download_name(&track(42, 1, "x", "a/b/")), "b");
}

#[test]
fn track_range_marks_only_tracks_inclusive() {
    let visible = vec![
        DeviceItemId::Folder(1),
        DeviceItemId::Track(2),
        DeviceItemId::Folder(3),
        DeviceItemId::Track(4),
    ];
    let mut marks = HashSet::new();
    mark_track_range(
        &mut marks,
        &visible,
        DeviceItemId::Track(2),
        DeviceItemId::Track(4),
        &Vec::new(),
    );
    assert_eq!(marks, HashSet::from([2, 4]));
}

#[test]
fn only_the_top_level_albums_object_folder_is_filtered() {
    let albums = Folder {
        id: 1,
        storage_id: 2,
        name: "Albums".to_owned(),
        children: Vec::new(),
    };
    let artist_named_albums = Folder {
        id: 3,
        storage_id: 2,
        name: "The Albums".to_owned(),
        children: Vec::new(),
    };
    assert!(is_album_object_folder(&albums));
    assert!(!is_album_object_folder(&artist_named_albums));
}

#[test]
fn artist_sorting_ignores_the_without_changing_names() {
    let mut names = vec!["The Kingston Trio", "Beatles", "Andrew Lloyd Webber"];
    names.sort_by_key(|name| artist_sort_key(name));
    assert_eq!(names, vec!["Andrew Lloyd Webber", "Beatles", "The Kingston Trio"]);
}

#[test]
fn fully_marked_only_album_cascades_through_artist_with_full_confirmation() {
    let snapshot = physical_delete_snapshot(false);
    let scope = delete_scope(&snapshot, &HashSet::from([20, 21]));
    assert_eq!(scope.track_count, 2);
    assert_eq!(scope.album_count, 1);
    assert_eq!(scope.artist_names, vec!["Beatles"]);
    assert_eq!(
        scope.items.iter().map(|item| item.object_id).collect::<Vec<_>>(),
        vec![100, 20, 21, 12, 11]
    );
    let confirmation = DeleteConfirmation {
        device_name: "PAUL".to_owned(),
        items: scope.items,
        track_count: scope.track_count,
        album_count: scope.album_count,
        artist_names: scope.artist_names,
    };
    assert_eq!(
        delete_confirmation_message(&confirmation),
        "Delete 2 tracks, 1 album, and the artist folder 'Beatles' from PAUL's Zune? [y/N]"
    );
}

#[test]
fn artist_folder_is_preserved_when_another_album_remains() {
    let snapshot = physical_delete_snapshot(true);
    let scope = delete_scope(&snapshot, &HashSet::from([20, 21]));
    assert!(scope.artist_names.is_empty());
    assert!(!scope.items.iter().any(|item| item.object_id == 11));
}

#[test]
fn an_artist_folder_with_an_unmarked_track_stays() {
    let mut snapshot = physical_delete_snapshot(false);
    snapshot.albums.clear();
    snapshot.tracks.push(track(22, 11, "Loose", "loose.mp3"));
    let scope = delete_scope(&snapshot, &HashSet::from([20, 21]));
    let ids: Vec<_> = scope.items.iter().map(|item| item.object_id).collect();
    assert_eq!(ids, vec![20, 21, 12]);
    assert!(scope.artist_names.is_empty());

    let scope = delete_scope(&snapshot, &HashSet::from([20, 21, 22]));
    let ids: Vec<_> = scope.items.iter().map(|item| item.object_id).collect();
    assert_eq!(ids, vec![20, 21, 22, 12, 11]);
    assert_eq!(scope.artist_names, vec!["Beatles"]);
}

#[test]
fn an_artist_folder_without_albums_goes_with_its_last_track() {
    let mut snapshot = physical_delete_snapshot(false);
    snapshot.folders[0].children.push(Folder {
        id: 30,
        storage_id: 2,
        name: "Singles".to_owned(),
        children: Vec::new(),
    });
    let scope = delete_scope(&snapshot, &HashSet::from([20]));
    assert!(scope.artist_names.is_empty());
    snapshot.tracks.push(track(31, 30, "Only", "only.mp3"));
    let scope = delete_scope(&snapshot, &HashSet::from([31]));
    let ids: Vec<_> = scope.items.iter().map(|item| item.object_id).collect();
    assert_eq!(ids, vec![31, 30]);
    assert_eq!(scope.artist_names, vec!["Singles"]);
}

#[test]
fn an_album_with_an_unmarked_track_stays() {
    let snapshot = physical_delete_snapshot(false);
    let scope = delete_scope(&snapshot, &HashSet::from([20]));
    let ids: Vec<_> = scope.items.iter().map(|item| item.object_id).collect();
    assert_eq!(ids, vec![20]);
    assert_eq!((scope.track_count, scope.album_count), (1, 0));
    assert!(scope.artist_names.is_empty());
}

#[test]
fn deletions_are_put_into_words() {
    let mut confirmation = DeleteConfirmation {
        device_name: "PAUL".to_owned(),
        items: Vec::new(),
        track_count: 1,
        album_count: 0,
        artist_names: Vec::new(),
    };
    assert_eq!(
        delete_confirmation_message(&confirmation),
        "Delete 1 track from PAUL's Zune? [y/N]"
    );
    confirmation.album_count = 2;
    assert_eq!(
        delete_confirmation_message(&confirmation),
        "Delete 1 track and 2 albums from PAUL's Zune? [y/N]"
    );
    confirmation.artist_names = vec!["A".to_owned(), "B".to_owned()];
    assert_eq!(
        delete_confirmation_message(&confirmation),
        "Delete 1 track, 2 albums, and the artist folders 'A', 'B' from PAUL's Zune? [y/N]"
    );
}

fn physical_delete_snapshot(with_second_album: bool) -> DeviceSnapshot {
    let mut albums = vec![Folder {
        id: 12,
        storage_id: 2,
        name: "Abbey Road".to_owned(),
        children: Vec::new(),
    }];
    if with_second_album {
        albums.push(Folder {
            id: 13,
            storage_id: 2,
            name: "Revolver".to_owned(),
            children: Vec::new(),
        });
    }
    DeviceSnapshot {
        info: DeviceInfo {
            friendly_name: "PAUL".to_owned(),
            model: "Zune".to_owned(),
            serial: String::new(),
            version: String::new(),
            capacity_bytes: 0,
            free_bytes: 0,
        },
        folders: vec![Folder {
            id: 10,
            storage_id: 2,
            name: "Music".to_owned(),
            children: vec![Folder {
                id: 11,
                storage_id: 2,
                name: "Beatles".to_owned(),
                children: albums,
            }],
        }],
        tracks: vec![
            Track {
                id: 20,
                parent_id: 12,
                storage_id: 2,
                name: "One".to_owned(),
                filename: "one.mp3".to_owned(),
            },
            Track {
                id: 21,
                parent_id: 12,
                storage_id: 2,
                name: "Two".to_owned(),
                filename: "two.mp3".to_owned(),
            },
        ],
        albums: vec![Album {
            id: 100,
            name: "Abbey Road".to_owned(),
            track_ids: vec![20, 21],
        }],
        playlists: Vec::new(),
    }
}

#[test]
fn delete_confirmation_uses_device_name_count_and_cancel_preserves_marks() {
    let mut app = new_app();
    app.focused_pane = Pane::Device;
    app.device_marks = HashSet::from([20, 21]);
    app.connection = Connection::Connected(DeviceSnapshot {
        info: DeviceInfo {
            friendly_name: "TEST ZUNE".to_owned(),
            model: "Zune".to_owned(),
            serial: String::new(),
            version: String::new(),
            capacity_bytes: 0,
            free_bytes: 0,
        },
        folders: Vec::new(),
        tracks: vec![
            Track {
                id: 20,
                parent_id: 1,
                storage_id: 2,
                name: "One".to_owned(),
                filename: "one.mp3".to_owned(),
            },
            Track {
                id: 21,
                parent_id: 1,
                storage_id: 2,
                name: "Two".to_owned(),
                filename: "two.mp3".to_owned(),
            },
        ],
        albums: vec![Album {
            id: 10,
            name: "Album".to_owned(),
            track_ids: vec![20, 21],
        }],
        playlists: Vec::new(),
    });

    app.request_delete();
    let confirmation = app.delete_confirmation.as_ref().expect("confirmation");
    assert_eq!(confirmation.device_name, "TEST ZUNE");
    assert_eq!(confirmation.items.len(), 3);

    app.handle_delete_confirmation(Key::Esc);
    assert!(app.delete_confirmation.is_none());
    assert_eq!(app.device_marks, HashSet::from([20, 21]));
    assert!(!app.transfer_running);
}

#[test]
fn delete_is_ignored_for_local_focus_or_no_device_marks() {
    let mut app = new_app();
    app.request_delete();
    assert!(app.delete_confirmation.is_none());

    app.device_marks.insert(20);
    app.request_delete();
    assert!(app.delete_confirmation.is_none());
}

#[test]
fn delete_confirmation_queues_worker_after_setting_immediate_status() {
    let mut app = new_app();
    app.delete_confirmation = Some(DeleteConfirmation {
        device_name: "PAUL".to_owned(),
        items: vec![DeleteItem {
            object_id: 42,
            name: "Song".to_owned(),
        }],
        track_count: 1,
        album_count: 0,
        artist_names: Vec::new(),
    });

    app.handle_delete_confirmation(Key::Char('y'));

    assert_eq!(
        app.transfer_status.as_deref(),
        Some("Deleting 1 item(s) from PAUL's Zune...")
    );
    assert!(app.pending_transfer.is_some());
    assert!(!app.transfer_running);
}

fn playlist_test_app() -> App {
    let mut app = new_app();
    let mut snapshot = physical_delete_snapshot(false);
    snapshot.playlists = vec![
        Playlist {
            id: 30,
            parent_id: 0,
            storage_id: 2,
            name: "Road Trip".to_owned(),
            track_ids: vec![20, 21],
        },
        Playlist {
            id: 31,
            parent_id: 0,
            storage_id: 2,
            name: "Favorites".to_owned(),
            track_ids: vec![21],
        },
    ];
    app.connection = Connection::Connected(snapshot);
    app.screen = Screen::Playlists;
    app.playlist_state = Some(1);
    app
}

#[test]
fn active_playlist_moves_independently_of_delete_marks() {
    let mut app = playlist_test_app();
    app.handle_playlist_list_key(Key::Char(' '));
    app.handle_playlist_list_key(Key::Char('a'));
    assert_eq!(app.active_playlist, Some(30));
    assert_eq!(app.playlist_delete_marks, HashSet::from([30]));

    app.playlist_state = Some(2);
    app.handle_playlist_list_key(Key::Char('a'));
    assert_eq!(app.active_playlist, Some(31));
    assert_eq!(app.playlist_delete_marks, HashSet::from([30]));

    app.handle_playlist_list_key(Key::Delete);
    let PlaylistConfirmation::DeletePlaylists(playlists) =
        app.playlist_confirmation.as_ref().expect("confirmation")
    else {
        panic!("wrong confirmation type");
    };
    assert_eq!(
        playlists.iter().map(|playlist| playlist.id).collect::<Vec<_>>(),
        vec![30]
    );
    assert_eq!(
        playlist_confirmation_message(app.playlist_confirmation.as_ref().unwrap()),
        "Delete 1 playlist(s): 'Road Trip'? [y/N]"
    );
}

#[test]
fn right_pane_removal_targets_displayed_playlist() {
    let mut app = playlist_test_app();
    app.playlist_focus = PlaylistPane::Tracks;
    app.playlist_track_state = Some(1);
    app.handle_playlist_track_key(Key::Char(' '));
    app.handle_playlist_track_key(Key::Delete);
    let PlaylistConfirmation::RemoveTracks { playlist, track_ids } =
        app.playlist_confirmation.as_ref().expect("confirmation")
    else {
        panic!("wrong confirmation type");
    };
    assert_eq!(playlist.id, 30);
    assert_eq!(track_ids, &vec![21]);
    assert_eq!(
        playlist_confirmation_message(app.playlist_confirmation.as_ref().unwrap()),
        "Remove 1 track(s) from 'Road Trip'? [y/N]"
    );
}

#[test]
fn new_playlist_input_queues_empty_playlist_creation() {
    let mut app = playlist_test_app();
    app.playlist_state = Some(0);
    app.handle_playlist_list_key(Key::Enter);
    for character in "Morning Mix".chars() {
        app.handle_playlist_name_input(Key::Char(character));
    }
    app.handle_playlist_name_input(Key::Enter);
    assert!(matches!(
        app.pending_transfer,
        Some(TransferJob::CreatePlaylist { ref name, storage_id: 2 }) if name == "Morning Mix"
    ));
}

#[test]
fn names_can_be_corrected_and_must_not_be_blank() {
    let mut app = playlist_test_app();
    app.playlist_name_input = Some(String::new());
    app.handle_playlist_name_input(Key::Backspace);
    assert_eq!(app.playlist_name_input.as_deref(), Some(""));
    app.handle_playlist_name_input(Key::Char('x'));
    app.handle_playlist_name_input(Key::Char('\u{e9}'));
    app.handle_playlist_name_input(Key::Backspace);
    assert_eq!(app.playlist_name_input.as_deref(), Some("x"));
    app.handle_playlist_name_input(Key::Backspace);
    app.handle_playlist_name_input(Key::Char(' '));
    app.handle_playlist_name_input(Key::Enter);
    assert_eq!(app.playlist_name_input, None);
    assert_eq!(app.transfer_status.as_deref(), Some("Playlist name cannot be empty."));
    app.playlist_name_input = Some("x".to_owned());
    app.handle_playlist_name_input(Key::Esc);
    assert_eq!(app.playlist_name_input, None);

    let mut app = new_app();
    app.playlist_name_input = Some("x".to_owned());
    app.handle_playlist_name_input(Key::Enter);
    assert_eq!(app.transfer_status.as_deref(), Some("No Zune storage is available."));
    assert!(app.pending_transfer.is_none());
}

#[test]
fn appending_playlist_tracks_preserves_order_and_skips_duplicates() {
    let (updated, added) = append_unique_track_ids(&vec![20, 21], &vec![21, 22, 20, 23, 22]);
    assert_eq!(updated, vec![20, 21, 22, 23]);
    assert_eq!(added, 2);
}

#[test]
fn appending_twice_adds_nothing() {
    let (updated, _) = append_unique_track_ids(&vec![1], &vec![2, 3]);
    let (again, added) = append_unique_track_ids(&updated, &vec![3, 2]);
    assert_eq!(again, vec![1, 2, 3]);
    assert_eq!(added, 0);
}

#[test]
fn add_to_playlist_requires_the_shared_active_playlist() {
    let mut app = playlist_test_app();
    app.active_playlist = None;
    app.add_to_marks.insert(20);
    app.add_marked_tracks_to_active_playlist();
    assert!(app.pending_transfer.is_none());
    assert_eq!(
        app.transfer_status.as_deref(),
        Some("No active playlist — set one with 'a' on the CRUD Playlist screen.")
    );
}

#[test]
fn add_to_playlist_album_mark_queues_every_album_track() {
    let mut app = playlist_test_app();
    app.active_playlist = Some(31);
    app.add_to_device_state.select(vec![
        DeviceItemId::Folder(10),
        DeviceItemId::Folder(11),
        DeviceItemId::Folder(12),
    ]);
    app.toggle_add_to_mark();
    assert_eq!(app.add_to_marks, HashSet::from([20, 21]));

    app.add_marked_tracks_to_active_playlist();
    let Some(TransferJob::AddPlaylistTracks { playlist, track_ids }) = app.pending_transfer else {
        panic!("add job was not queued");
    };
    assert_eq!(playlist.id, 31);
    assert_eq!(track_ids, vec![20, 21]);
}

#[test]
fn adding_needs_marks_on_albums_or_tracks() {
    let mut app = playlist_test_app();
    app.active_playlist = Some(31);
    app.add_marked_tracks_to_active_playlist();
    assert_eq!(app.transfer_status.as_deref(), Some("Mark one or more tracks to add."));
    app.add_to_device_state.select(vec![DeviceItemId::Folder(10)]);
    app.toggle_add_to_mark();
    assert_eq!(
        app.transfer_status.as_deref(),
        Some("Only device albums and tracks can be marked.")
    );
    app.add_to_device_state.select(vec![DeviceItemId::Track(20)]);
    app.toggle_add_to_mark();
    assert_eq!(app.add_to_marks, HashSet::from([20]));
    app.toggle_add_to_mark();
    assert!(app.add_to_marks.is_empty());
}

#[test]
fn add_to_right_pane_removal_uses_active_playlist() {
    let mut app = playlist_test_app();
    app.active_playlist = Some(31);
    app.playlist_track_state = Some(0);
    let active = app.active_playlist();
    app.handle_playlist_tracks_for(Key::Char(' '), active);
    let active = app.active_playlist();
    app.handle_playlist_tracks_for(Key::Delete, active);
    let PlaylistConfirmation::RemoveTracks { playlist, track_ids } =
        app.playlist_confirmation.as_ref().expect("confirmation")
    else {
        panic!("wrong confirmation type");
    };
    assert_eq!(playlist.id, 31);
    assert_eq!(track_ids, &vec![21]);
}

#[test]
fn persisted_active_playlist_restores_only_when_id_and_name_match() {
    let mut app = playlist_test_app();
    let snapshot = match &app.connection {
        Connection::Connected(snapshot) => copy_of(snapshot),
        _ => unreachable!(),
    };
    app.active_playlist = None;
    app.persisted.active_playlist_id = Some(30);
    app.persisted.active_playlist_name = Some("Road Trip".to_owned());
    app.restore_active_playlist(&snapshot);
    assert_eq!(app.active_playlist, Some(30));

    app.persisted.active_playlist_name = Some("Playlist from another Zune".to_owned());
    app.restore_active_playlist(&snapshot);
    assert_eq!(app.active_playlist, None);
    assert_eq!(app.persisted.active_playlist_id, None);
    assert_eq!(app.persisted.active_playlist_name, None);
}

#[test]
fn settings_selection_updates_shared_persisted_theme() {
    let mut app = playlist_test_app();
    app.settings_state = Some(0);
    app.handle_settings_key(Key::Down);
    assert_eq!(app.persisted.theme, Theme::CherryRed);
    assert_eq!(app.settings_state, Some(1));
}

#[test]
fn settings_stay_within_the_themes() {
    let mut app = new_app();
    assert_eq!(app.settings_state, Some(0));
    app.handle_settings_key(Key::Up);
    assert_eq!(app.persisted.theme, Theme::TronBlue);
    for _ in 0..9 {
        assert!(matches!(app.handle_settings_key(Key::Down), Action::ApplyTheme));
    }
    assert_eq!(app.settings_state, Some(4));
    assert_eq!(app.persisted.theme, Theme::System);
    assert_eq!(app.transfer_status.as_deref(), Some("Theme: System"));
    assert!(matches!(app.handle_settings_key(Key::Left), Action::Nothing));
    app.settings_state = Some(9);
    app.handle_settings_key(Key::Down);
    assert_eq!((app.settings_state, app.persisted.theme), (Some(4), Theme::System));
    app.settings_state = Some(5);
    app.handle_settings_key(Key::Up);
    assert_eq!(app.settings_state, Some(4));
}

#[test]
fn rows_are_selected_one_by_one() {
    let mut app = playlist_test_app();
    app.playlist_state = None;
    app.handle_playlist_list_key(Key::Down);
    assert_eq!(app.playlist_state, Some(0));
    app.handle_playlist_list_key(Key::Down);
    app.handle_playlist_list_key(Key::Down);
    app.handle_playlist_list_key(Key::Down);
    assert_eq!(app.playlist_state, Some(2));
    app.handle_playlist_list_key(Key::Up);
    assert_eq!(app.playlist_state, Some(1));
    app.handle_playlist_list_key(Key::Up);
    app.handle_playlist_list_key(Key::Up);
    assert_eq!(app.playlist_state, Some(0));
    app.playlist_state = None;
    app.handle_playlist_list_key(Key::Up);
    assert_eq!(app.playlist_state, Some(usize::MAX));
    app.handle_playlist_list_key(Key::Down);
    assert_eq!(app.playlist_state, Some(2));

    app.playlist_state = Some(1);
    app.handle_playlist_track_key(Key::Down);
    app.handle_playlist_track_key(Key::Down);
    app.handle_playlist_track_key(Key::Down);
    assert_eq!(app.playlist_track_state, Some(1));
    app.handle_playlist_track_key(Key::Up);
    assert_eq!(app.playlist_track_state, Some(0));
}

#[test]
fn groups_are_switched_as_a_whole() {
    let mut marks = HashSet::from([1, 9]);
    toggle_track_group(&mut marks, &[1, 2]);
    assert_eq!(marks, HashSet::from([1, 2, 9]));
    assert!(group_is_fully_marked(&[1, 2], &marks));
    toggle_track_group(&mut marks, &[1, 2]);
    assert_eq!(marks, HashSet::from([9]));
    toggle_track_group(&mut marks, &[]);
    assert_eq!(marks, HashSet::from([9]));
    assert!(!group_is_fully_marked(&[], &marks));
}

#[test]
fn device_items_show_artists_in_order() {
    let mut snapshot = physical_delete_snapshot(true);
    snapshot.folders[0].children.push(Folder {
        id: 14,
        storage_id: 2,
        name: "The Animals".to_owned(),
        children: Vec::new(),
    });
    snapshot.folders.push(Folder {
        id: 50,
        storage_id: 2,
        name: "ALBUMS".to_owned(),
        children: Vec::new(),
    });
    let items = folder_items(&snapshot.folders, &snapshot.tracks, &HashSet::from([20]));
    assert_eq!(items.len(), 1);
    assert_eq!(items[0].id, DeviceItemId::Folder(10));
    assert_eq!(items[0].label, "Music");
    let artists: Vec<_> = items[0].children.iter().map(|node| node.label.as_str()).collect();
    assert_eq!(artists, ["The Animals", "Beatles"]);
    let albums: Vec<_> =
        items[0].children[1].children.iter().map(|node| node.label.as_str()).collect();
    assert_eq!(albums, ["[ ] Abbey Road", "Revolver"]);
    let tracks: Vec<_> = items[0].children[1].children[0]
        .children
        .iter()
        .map(|node| (node.id, node.label.as_str()))
        .collect();
    assert_eq!(
        tracks,
        [(DeviceItemId::Track(20), "[x] One"), (DeviceItemId::Track(21), "[ ] Two")]
    );
    let items = folder_items(&snapshot.folders, &snapshot.tracks, &HashSet::from([20, 21]));
    assert_eq!(items[0].children[1].children[0].label, "[x] Abbey Road");
}

#[test]
fn playlist_rows_show_marks_and_the_active_one() {
    let app = playlist_test_app();
    let Connection::Connected(snapshot) = &app.connection else { unreachable!() };
    let rows = playlist_rows(&snapshot.playlists, &HashSet::from([31]), Some(30));
    assert_eq!((rows[0].mark.as_str(), rows[0].active), ("[ ] ", true));
    assert_eq!((rows[1].mark.as_str(), rows[1].active), ("[x] ", false));
    assert_eq!(rows[1].name, "Favorites");
    assert_eq!(
        playlist_track_rows(snapshot, &snapshot.playlists[0], &HashSet::from([21])),
        vec!["[ ] One", "[x] Two"]
    );
    assert_eq!(snapshot_storage_id(snapshot), Some(2));
}

#[test]
fn device_marks_are_switched_and_ranges_marked() {
    let mut app = playlist_test_app();
    app.screen = Screen::Files;
    app.handle_key(Key::Tab, false);
    assert_eq!(app.focused_pane, Pane::Device);
    app.device_state.opened = vec![
        vec![DeviceItemId::Folder(10)],
        vec![DeviceItemId::Folder(10), DeviceItemId::Folder(11)],
        vec![DeviceItemId::Folder(10), DeviceItemId::Folder(11), DeviceItemId::Folder(12)],
    ];
    let album = [DeviceItemId::Folder(10), DeviceItemId::Folder(11), DeviceItemId::Folder(12)];
    let at = |id: DeviceItemId| {
        let mut all = album.to_vec();
        all.push(id);
        all
    };
    app.device_state.select(at(DeviceItemId::Track(20)));
    app.handle_key(Key::Char(' '), false);
    assert_eq!(app.device_marks, HashSet::from([20]));
    assert_eq!(app.device_anchor, Some(DeviceItemId::Track(20)));
    app.device_state.select(at(DeviceItemId::Track(21)));
    app.handle_key(Key::Char(' '), true);
    assert_eq!(app.device_marks, HashSet::from([20, 21]));
    app.device_state.select(album.to_vec());
    app.handle_key(Key::Char(' '), false);
    assert!(app.device_marks.is_empty());
    app.device_state.select(vec![DeviceItemId::Folder(10)]);
    app.handle_key(Key::Char(' '), false);
    assert_eq!(
        app.transfer_status.as_deref(),
        Some("Only device albums and tracks can be marked.")
    );
    app.handle_key(Key::Char('c'), false);
    assert_eq!(app.transfer_status.as_deref(), Some("Cleared all marks."));
    assert_eq!(app.device_anchor, None);
}

#[test]
fn local_marks_are_switched_and_ranges_marked() {
    let mut app = new_app();
    app.screen = Screen::Files;
    let home = path("/home/me");
    app.local_state.select(vec![home.clone(), path("/home/me/a.mp3")]);
    let Action::InspectSelection(selected) = app.handle_key(Key::Char(' '), false) else {
        panic!("no look outside");
    };
    assert_eq!(selected, path("/home/me/a.mp3"));
    app.toggle_local_mark(&PathFacts { path: selected.clone(), is_file: true, listing: None });
    assert_eq!(app.local_marks.to_paths(), vec![selected.clone()]);
    assert_eq!(app.local_anchor, Some(selected.clone()));

    app.local_state.select(vec![home.clone(), path("/home/me/c.ogg")]);
    let Action::InspectRange(range) = app.handle_key(Key::Char(' '), true) else {
        panic!("no look outside");
    };
    assert_eq!(
        range,
        vec![path("/home/me/a.mp3"), path("/home/me/b.txt"), path("/home/me/c.ogg")]
    );
    let facts = range
        .iter()
        .map(|p| PathFacts { path: p.clone(), is_file: true, listing: None })
        .collect();
    app.mark_local_range(&facts);
    assert_eq!(app.local_marks.to_paths(), range);

    app.toggle_local_mark(&PathFacts { path: selected.clone(), is_file: true, listing: None });
    assert!(!app.local_marks.contains(&selected));
    let folder = PathFacts {
        path: home.clone(),
        is_file: false,
        listing: Some(vec![file("/home/me/a.mp3"), file("/home/me/c.ogg")]),
    };
    app.toggle_local_mark(&folder);
    assert!(app.local_marks.contains(&selected));
    app.toggle_local_mark(&folder);
    assert_eq!(app.local_marks.to_paths(), vec![path("/home/me/b.txt")]);
    app.toggle_local_mark(&PathFacts { path: home, is_file: false, listing: None });
    assert_eq!(
        app.transfer_status.as_deref(),
        Some("Only files and Letter/Artist/Album folders can be marked.")
    );
    let mut set = PathSet::new();
    mark_path_range(
        &mut set,
        &vec![PathFacts { path: path("/x"), is_file: false, listing: Some(vec![file("/x/y.wav")]) }],
    );
    assert_eq!(set.to_paths(), vec![path("/x/y.wav")]);
}

#[test]
fn copying_starts_where_both_ends_are_known() {
    let mut app = playlist_test_app();
    app.screen = Screen::Files;
    app.local_marks.insert(path("/home/me/a.mp3"));
    assert!(matches!(app.handle_key(Key::Enter, false), Action::Nothing));
    assert_eq!(
        app.transfer_status.as_deref(),
        Some("Select a destination folder in the Zune pane.")
    );
    app.device_state.select(vec![DeviceItemId::Folder(99)]);
    app.handle_key(Key::Enter, false);
    assert_eq!(
        app.transfer_status.as_deref(),
        Some("The selected Zune folder is unavailable.")
    );
    app.device_state.select(vec![DeviceItemId::Folder(10)]);
    match app.handle_key(Key::Enter, false) {
        Action::Start(TransferJob::Upload { files, folder_id, storage_id }) => {
            assert_eq!(files, vec![path("/home/me/a.mp3")]);
            assert_eq!((folder_id, storage_id), (10, 2));
        }
        other => panic!("{other:?}"),
    }
    assert!(app.transfer_running);
    assert_eq!(app.transfer_status.as_deref(), Some("Starting transfer..."));
    app.handle_key(Key::Enter, false);
    assert_eq!(
        app.transfer_status.as_deref(),
        Some("A transfer is already in progress.")
    );

    app.transfer_running = false;
    app.focused_pane = Pane::Device;
    app.device_marks = HashSet::from([21]);
    let Action::InspectDestination(directory) = app.handle_key(Key::Enter, false) else {
        panic!("no look outside");
    };
    assert_eq!(directory, path("/home/me"));
    app.start_download(directory.clone(), false);
    assert_eq!(
        app.transfer_status.as_deref(),
        Some("Select a local destination folder.")
    );
    match app.start_download(directory.clone(), true) {
        Action::Start(TransferJob::Download { tracks, directory }) => {
            assert_eq!(tracks[0].id, 21);
            assert_eq!(directory, path("/home/me"));
        }
        other => panic!("{other:?}"),
    }
    assert_eq!(app.download_directory, Some(directory));
    let mut app = new_app();
    app.start_download(path("/home/me"), true);
    assert_eq!(
        app.transfer_status.as_deref(),
        Some("Dude, I can't find your Zune, is it connected?")
    );
}

#[test]
fn keys_move_the_trees() {
    let mut app = new_app();
    app.screen = Screen::Files;
    assert!(matches!(
        app.handle_key(Key::Up, false),
        Action::Move { tree: TreeName::Local, motion: Motion::Up }
    ));
    assert!(matches!(
        app.handle_key(Key::Right, false),
        Action::LoadAndMove { motion: Motion::Right }
    ));
    assert!(matches!(
        app.handle_key(Key::Enter, false),
        Action::LoadAndMove { motion: Motion::Toggle }
    ));
    app.handle_key(Key::Tab, false);
    assert!(matches!(
        app.handle_key(Key::Left, false),
        Action::Move { tree: TreeName::Device, motion: Motion::Left }
    ));
    app.handle_key(Key::Char('3'), false);
    assert!(matches!(
        app.handle_key(Key::Down, false),
        Action::Move { tree: TreeName::AddTo, motion: Motion::Down }
    ));
}

#[test]
fn dialogs_take_keys_before_screens() {
    let mut app = playlist_test_app();
    app.handle_key(Key::Char('?'), false);
    assert!(app.help_open);
    assert!(matches!(app.handle_key(Key::Char('q'), false), Action::Nothing));
    app.handle_key(Key::Esc, false);
    assert!(!app.help_open);
    assert!(matches!(app.handle_key(Key::Esc, false), Action::Quit));
    assert!(should_quit(Key::Char('q')));
    assert!(!should_quit(Key::Char('Q')));

    app.handle_key(Key::Char('`'), false);
    assert!(app.debug_open);
    app.handle_key(Key::PageUp, false);
    app.handle_key(Key::Up, false);
    app.handle_key(Key::Down, false);
    assert_eq!(app.debug_scroll, 10);
    app.handle_key(Key::PageDown, false);
    app.handle_key(Key::PageDown, false);
    assert_eq!(app.debug_scroll, 0);
    app.handle_key(Key::Char('`'), false);
    assert!(!app.debug_open);

    app.playlist_delete_marks.insert(30);
    app.handle_key(Key::Delete, false);
    app.handle_key(Key::Char('2'), false);
    assert!(app.playlist_confirmation.is_some());
    app.handle_key(Key::Char('n'), false);
    assert_eq!(app.transfer_status.as_deref(), Some("Playlist change cancelled."));
    assert!(app.pending_transfer.is_none());
    assert_eq!(app.playlist_delete_marks, HashSet::from([30]));
    app.playlist_state = Some(1);
    app.handle_key(Key::Delete, false);
    app.handle_key(Key::Enter, false);
    assert_eq!(app.transfer_status.as_deref(), Some("Updating playlists..."));
    assert!(matches!(app.take_pending(), Some(TransferJob::DeletePlaylists { .. })));
    assert!(app.transfer_running);
}

#[test]
fn screens_are_chosen_by_number() {
    let mut app = new_app();
    app.device_marks.insert(1);
    app.handle_key(Key::Char('1'), false);
    assert_eq!(app.screen, Screen::Files);
    assert!(app.device_marks.is_empty());
    app.device_marks.insert(1);
    app.handle_key(Key::Char('1'), false);
    assert_eq!(app.device_marks, HashSet::from([1]));
    app.handle_key(Key::Char('4'), false);
    assert_eq!(app.screen, Screen::Settings);
    app.playlist_state = Some(7);
    app.handle_key(Key::Char('2'), false);
    assert_eq!(app.screen, Screen::Playlists);
    assert_eq!(app.playlist_state, Some(0));
}

#[test]
fn the_splash_waits_for_the_device() {
    let mut app = new_app();
    app.start_connection("Connecting...");
    assert!(app.connecting);
    app.handle_key(Key::Enter, false);
    assert_eq!(app.screen, Screen::Splash { continue_pressed: true });
    let action = app.collect_connection_result(Ok(physical_delete_snapshot(false)));
    assert!(matches!(action, Action::Nothing));
    assert_eq!(app.screen, Screen::Playlists);
    assert!(!app.connecting);
    assert_eq!(status_line(&app).content, "✓ Connected to Zune — PAUL");
    assert_eq!(status_line(&app).tone, Tone::Success);

    let mut app = new_app();
    assert_eq!(status_line(&app).tone, Tone::Muted);
    app.collect_connection_result(Err(ZuneNotFound));
    assert_eq!(
        status_line(&app).content,
        "Dude, I can't find your Zune, is it connected?"
    );
    assert_eq!(status_line(&app).tone, Tone::Error);
    app.handle_key(Key::Enter, false);
    assert_eq!(app.screen, Screen::Playlists);
    app.save_failed("disk full");
    assert_eq!(status_line(&app).content, "Could not save settings: disk full");
    assert_eq!(status_line(&app).tone, Tone::Accent);
}

#[test]
fn forgotten_playlists_are_saved() {
    let mut app = new_app();
    app.persisted.active_playlist_id = Some(5);
    let action = app.collect_connection_result(Ok(physical_delete_snapshot(false)));
    assert!(matches!(action, Action::Save));
    assert_eq!(app.persisted.active_playlist_id, None);
}

#[test]
fn transfers_report_progress_and_failures() {
    let mut transfer = Transfer::new(TransferJob::Download {
        tracks: vec![track(1, 2, "A", "../a.mp3"), track(7, 2, "B", ".."), track(8, 2, "C", "c")],
        directory: path("/home/me"),
    });
    let step = transfer.current().expect("first step");
    assert_eq!(event_status(&step.progress()), "Copying 01/03: a.mp3...");
    let DeviceCall::Download { destination, .. } = &step.call else { panic!("wrong call") };
    assert_eq!(destination.display(), "/home/me/a.mp3");
    transfer.record(Outcome::Done);
    assert_eq!(transfer.current().unwrap().name, "track-7");
    transfer.record(Outcome::Failed("no space".to_owned()));
    transfer.record(Outcome::SkippedDuplicate);
    assert!(transfer.current().is_none());
    let finished = transfer.finish(None);
    assert_eq!(
        event_status(&finished),
        "Copied 1; failures: track-7: no space | \
         c: skipped (same title already exists in destination)"
    );
    assert_eq!(
        event_status(&no_device("gone".to_owned())),
        "Processed 0; failures: gone"
    );
}

#[test]
fn playlist_jobs_are_one_step() {
    let playlist = Playlist {
        id: 30,
        parent_id: 0,
        storage_id: 2,
        name: "Mix".to_owned(),
        track_ids: vec![1, 2, 3],
    };
    let mut transfer = Transfer::new(TransferJob::RemovePlaylistTracks {
        playlist: playlist.clone(),
        track_ids: vec![1, 3],
    });
    let step = transfer.current().unwrap();
    let DeviceCall::UpdatePlaylist { track_ids, .. } = &step.call else { panic!("wrong call") };
    assert_eq!(track_ids, &vec![2]);
    assert_eq!(event_status(&step.progress()), "Updating 01/01: Mix...");
    transfer.record(Outcome::Done);
    assert_eq!(event_status(&transfer.finish(None)), "Removed 2 item(s) successfully.");

    let transfer = Transfer::new(TransferJob::AddPlaylistTracks {
        playlist: playlist.clone(),
        track_ids: vec![3, 4],
    });
    let step = transfer.current().unwrap();
    assert_eq!(event_status(&step.progress()), "Adding 01/02: Mix...");
    let DeviceCall::UpdatePlaylist { track_ids, .. } = &step.call else { panic!("wrong call") };
    assert_eq!(track_ids, &vec![1, 2, 3, 4]);

    let mut transfer =
        Transfer::new(TransferJob::AddPlaylistTracks { playlist, track_ids: vec![1] });
    assert!(matches!(transfer.current().unwrap().call, DeviceCall::Nothing));
    transfer.record(Outcome::Done);
    assert_eq!(event_status(&transfer.finish(None)), "Added 0 item(s) successfully.");

    let mut transfer =
        Transfer::new(TransferJob::CreatePlaylist { name: "New".to_owned(), storage_id: 2 });
    assert_eq!(
        event_status(&transfer.current().unwrap().progress()),
        "Creating 01/01: New..."
    );
    transfer.record(Outcome::Done);
    assert_eq!(event_status(&transfer.finish(None)), "Created 1 item(s) successfully.");
}

#[test]
fn uploads_and_deletions_go_item_by_item() {
    let mut transfer = Transfer::new(TransferJob::Upload {
        files: vec![path("/m/x.mp3"), path("/m/y.mp3")],
        folder_id: 10,
        storage_id: 2,
    });
    assert_eq!(
        event_status(&transfer.current().unwrap().progress()),
        "Copying 01/02: x.mp3..."
    );
    transfer.record(Outcome::Done);
    let DeviceCall::Upload { source, folder_id, .. } = &transfer.current().unwrap().call else {
        panic!("wrong call")
    };
    assert_eq!((source, *folder_id), (&path("/m/y.mp3"), 10));

    let transfer = Transfer::new(TransferJob::Delete {
        items: vec![DeleteItem { object_id: 5, name: "album X".to_owned() }],
    });
    assert_eq!(
        event_status(&transfer.current().unwrap().progress()),
        "Deleting 01/01: album X..."
    );
    assert!(matches!(
        transfer.current().unwrap().call,
        DeviceCall::Delete { object_id: 5, .. }
    ));
}

#[test]
fn a_finished_transfer_clears_marks() {
    let mut app = playlist_test_app();
    app.transfer_running = true;
    app.active_playlist = Some(31);
    app.persisted.active_playlist_id = Some(31);
    app.download_directory = Some(path("/home/me"));
    app.device_marks.insert(20);
    app.add_to_marks.insert(20);
    let effects = app.collect_transfer_events(TransferEvent::Progress {
        current: 1,
        total: 12,
        name: "x".to_owned(),
        verb: "Copying",
    });
    assert!(!effects.save && effects.refresh.is_none());
    assert_eq!(app.transfer_status.as_deref(), Some("Copying 01/12: x..."));
    assert!(app.transfer_running);
    let effects = app.collect_transfer_events(TransferEvent::Finished {
        completed: 2,
        failures: Vec::new(),
        snapshot: Some(physical_delete_snapshot(false)),
        verb: "Copied",
    });
    assert!(effects.save);
    assert_eq!(effects.refresh, Some(path("/home/me")));
    assert_eq!(app.active_playlist, None);
    assert_eq!(app.persisted.active_playlist_id, None);
    assert!(app.device_marks.is_empty() && app.add_to_marks.is_empty());
    assert!(!app.transfer_running);
    assert_eq!(app.transfer_status.as_deref(), Some("Copied 2 item(s) successfully."));
}

#[test]
fn dialogs_are_centered() {
    let screen = Area { x: 0, y: 0, width: 100, height: 40 };
    assert_eq!(
        centered(screen, 78, 14),
        Area { x: 11, y: 13, width: 78, height: 14 }
    );
    let small = Area { x: 4, y: 2, width: 10, height: 5 };
    assert_eq!(centered(small, 78, 14), Area { x: 5, y: 3, width: 8, height: 3 });
    let odd = Area { x: 0, y: 0, width: 11, height: 8 };
    assert_eq!(centered(odd, 8, 5), Area { x: 2, y: 2, width: 8, height: 5 });
    assert_eq!(dialog_size(1, 5), 0);
    assert_eq!(message_width("abc"), 5);
    assert_eq!(message_width(&"x".repeat(70_000)), u16::MAX);
}

#[test]
fn dialogs_of_every_size_are_centered() {
    let expected = |start: u16, length: u16, wanted: u16| {
        let room = start.saturating_add(length) - start;
        let size = wanted.min(length.saturating_sub(2)).min(room);
        (start + (room - size).div_ceil(2), size)
    };
    let lengths = [0, 1, 2, 3, 4, 7, 10, 23, 24, 79, 80, 133, 1000, 30_001, 65_535];
    for start in [0, 1, 17, 40_000, 65_535] {
        for length in lengths {
            for wanted in lengths {
                let (x, width) = expected(start, length, wanted);
                let columns = Area { x: start, y: 0, width: length, height: 9 };
                assert_eq!(centered(columns, wanted, 3), Area { x, y: 3, width, height: 3 });
                let rows = Area { x: 2, y: start, width: 8, height: length };
                assert_eq!(
                    centered(rows, 4, wanted),
                    Area { x: 4, y: x, width: 4, height: width }
                );
            }
        }
    }
}

#[test]
fn the_debug_panel_takes_the_last_rows() {
    let panel = |height| debug_panel(Area { x: 0, y: 0, width: 80, height });
    assert_eq!(panel(60), Area { x: 0, y: 40, width: 80, height: 20 });
    assert_eq!(panel(12), Area { x: 0, y: 5, width: 80, height: 7 });
    assert_eq!(panel(5), Area { x: 0, y: 0, width: 80, height: 5 });
}

#[test]
fn debug_lines_are_cut_and_scrolled() {
    let lines = vec!["abcdefg".to_owned(), String::new(), "xyz".to_owned()];
    let cut = wrap_debug_lines(&lines, 3);
    assert_eq!(cut, vec!["abc", "def", "g", "", "xyz"]);
    assert_eq!(wrap_debug_lines(&vec!["ab".to_owned()], 0), vec!["a", "b"]);
    assert_eq!(debug_window(&cut, 2, 0), vec!["", "xyz"]);
    assert_eq!(debug_window(&cut, 2, 1), vec!["g", ""]);
    assert_eq!(debug_window(&cut, 2, 99), vec!["abc", "def"]);
    assert_eq!(debug_window(&cut, 9, 3), cut);
}

#[test]
fn the_log_keeps_the_last_lines() {
    let mut logger = debug_log::init();
    let time = debug_log::timestamp(12, 7);
    assert_eq!(time, "12.007");
    assert_eq!(debug_log::session_start(&time), "=== session start: 12.007 ===");
    for number in 0..501 {
        debug_log::log(&mut logger, &time, &format!("line {number}"));
    }
    let lines = debug_log::lines(&logger);
    assert_eq!(lines.len(), 500);
    assert_eq!(lines[0], "[12.007] line 1");
    assert_eq!(lines[499], "[12.007] line 500");
    let home = Some(path("/home/me"));
    assert_eq!(
        debug_log::log_path(&None, &home).display(),
        "/home/me/.local/state/com.columbiafoundry.ZuneTUI/zunetui.log"
    );
    assert_eq!(
        debug_log::log_path(&Some(path("/s")), &home).display(),
        "/s/com.columbiafoundry.ZuneTUI/zunetui.log"
    );
}
