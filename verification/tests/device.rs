use zunetui::audio::{
    detect_artist, filetype_for, folder_artist_album, is_audio_file, local_album_folder_name,
    mp3_audio_offset, mp3_bitrate_type, AudioProperties, FileType, TagDate, TagFields,
    UploadTrackMetadata,
};
use zunetui::device::{
    copy_borrowed_string, open_device, take_error_stack, take_string, Device, Folder, Playlist,
    RawAlbum, RawFolder, RawPlaylist, RawStorage, RawTrack, Track, UploadResult, ZuneNotFound,
};
use zunetui::folders::{
    collect_descendant_ids_post_order, deletion_started, explicit_destination, find_folder_mut,
    find_folder_ref, is_artist_folder, matching_folder_index, name_without_leading_the,
    normalized_folder_name, same_artist_name, step_answered, step_failure, wipe_folder_contents,
    DeleteProgress, DeleteStep, ExplicitDestination, FileEntry, StepKind,
};
use zunetui::local_path::LocalPath;
use zunetui::upload::{
    after_sending, album_creation_failure, album_folder_created, album_update_failure,
    append_track_to_album, artist_folder_created, associate_album, check_source,
    duplicate_track_exists, resolve_upload_destination, strdup_optional, track_sent,
    upload_failure, AfterSending, AlbumStep, ArtistSite, Placement, UploadPlan,
};

fn path(text: &str) -> LocalPath {
    LocalPath::from_text(text)
}

fn bytes(text: &str) -> Option<Vec<u8>> {
    Some(text.as_bytes().to_vec())
}

fn folder(id: u32, name: &str, children: Vec<Folder>) -> Folder {
    Folder { id, storage_id: 9, name: name.to_owned(), children }
}

fn music_tree() -> Vec<Folder> {
    vec![folder(
        1,
        "Music",
        vec![folder(2, "Neil Diamond", vec![folder(3, "Hot August Night", Vec::new())])],
    )]
}

#[test]
fn null_string_is_empty() {
    assert_eq!(take_string(None), "");
    assert_eq!(copy_borrowed_string(&None), "");
}

#[test]
fn device_strings_are_decoded() {
    assert_eq!(take_string(bytes("Zune")), "Zune");
    assert_eq!(copy_borrowed_string(&Some(vec![b'Z', 0xff])), "Z\u{fffd}");
}

#[test]
fn not_found_message_is_stable() {
    assert_eq!(
        ZuneNotFound.message(),
        "No MTP device found. Checklist:\n \
         - Zune plugged in and its screen awake\n \
         - `mtp-detect` (from mtp-tools) sees it\n \
         - you have permission to open the USB device (try sudo once to confirm, then fix with a udev rule)"
    );
    assert!(open_device(None).is_err());
}

#[test]
fn folder_metadata_uses_letter_artist_album_shape() {
    assert_eq!(
        folder_artist_album(&path("/music/A/All Them Witches/ATW/Fishbelley.mp3")),
        (Some("All Them Witches".to_owned()), Some("ATW".to_owned()))
    );
}

#[test]
fn real_tags_take_precedence_over_folder_metadata() {
    let (folder_artist, folder_album) =
        folder_artist_album(&path("/music/A/Wrong Artist/Wrong Album/song.mp3"));
    let artist = Some("Tagged Artist".to_owned()).or(folder_artist);
    let album = Some("Tagged Album".to_owned()).or(folder_album);

    assert_eq!(artist.as_deref(), Some("Tagged Artist"));
    assert_eq!(album.as_deref(), Some("Tagged Album"));
}

#[test]
fn folder_metadata_rejects_unexpected_shape() {
    assert_eq!(
        folder_artist_album(&path("/music/1234/10,000 Days/Vicarious.mp3")),
        (None, None)
    );
    assert_eq!(folder_artist_album(&path("/music/_assets/loose.mp3")), (None, None));
}

#[test]
fn folder_metadata_rejects_blank_and_unreadable_names() {
    assert_eq!(folder_artist_album(&path("/A/ /Album/x.mp3")), (None, None));
    let odd = LocalPath::from_bytes(b"/A/Artist/Al\xff/x.mp3".to_vec());
    assert_eq!(folder_artist_album(&odd), (None, None));
    assert_eq!(folder_artist_album(&path("Artist/Album/x.mp3")), (None, None));
}

#[test]
fn folder_matching_only_case_folds_and_drops_leading_the() {
    let folders = vec![Folder {
        id: 1,
        storage_id: 2,
        name: "Beatles".to_owned(),
        children: Vec::new(),
    }];
    assert_eq!(matching_folder_index(&folders, "The Beatles"), Some(0));
    assert_eq!(matching_folder_index(&folders, "the beatles"), Some(0));
    assert_eq!(matching_folder_index(&folders, "BEATLES"), Some(0));
    assert_eq!(matching_folder_index(&folders, "Beatles!"), None);
    assert_eq!(name_without_leading_the("The Beatles"), "Beatles");
}

#[test]
fn names_fold_case_beyond_ascii() {
    assert_eq!(normalized_folder_name("The \u{c4}RZTE"), "\u{e4}rzte");
    assert!(same_artist_name("BJ\u{d6}RK", "bj\u{f6}rk"));
    assert_eq!(name_without_leading_the("Th\u{e9} X"), "Th\u{e9} X");
    assert_eq!(name_without_leading_the("The"), "The");
    assert_eq!(name_without_leading_the("THE The X"), "The X");
}

#[test]
fn duplicate_titles_are_scoped_to_destination_folder() {
    let tracks = vec![Track {
        id: 1,
        parent_id: 10,
        storage_id: 2,
        name: "Song".to_owned(),
        filename: "song.mp3".to_owned(),
    }];
    assert!(duplicate_track_exists(&tracks, 10, "Song"));
    assert!(!duplicate_track_exists(&tracks, 11, "Song"));
    assert!(!duplicate_track_exists(&tracks, 10, "song"));
}

#[test]
fn explicit_destination_recognizes_artist_and_album_folders_under_music() {
    let folders = music_tree();
    assert!(matches!(
        explicit_destination(&folders, 2),
        ExplicitDestination::Artist { artist_folder_id: 2, storage_id: 9 }
    ));
    assert!(matches!(
        explicit_destination(&folders, 3),
        ExplicitDestination::Album { folder_id: 3, storage_id: 9 }
    ));
}

#[test]
fn explicit_destination_ignores_music_itself_and_unrelated_folders() {
    let folders = music_tree();
    assert!(matches!(explicit_destination(&folders, 1), ExplicitDestination::Unspecified));
    assert!(matches!(explicit_destination(&folders, 42), ExplicitDestination::Unspecified));
}

#[test]
fn find_folder_mut_locates_nested_folder() {
    let mut folders = music_tree();
    let found = find_folder_mut(&mut folders, 3).expect("album folder exists");
    assert_eq!(found.name, "Hot August Night");
    found.children.push(Folder {
        id: 4,
        storage_id: 9,
        name: "extra".to_owned(),
        children: Vec::new(),
    });
    assert_eq!(folders[0].children[0].children[0].children.len(), 1);
    assert!(find_folder_mut(&mut folders, 99).is_none());
}

#[test]
fn local_album_folder_name_uses_parent_directory() {
    assert_eq!(
        local_album_folder_name(&path("/music/Neil Diamond/Hot August Night/song.mp3")),
        "Hot August Night"
    );
    assert_eq!(local_album_folder_name(&path("song.mp3")), "Unknown Album");
}

#[test]
fn is_artist_folder_matches_only_artist_level() {
    let folders = music_tree();
    assert!(is_artist_folder(&folders, 2));
    assert!(!is_artist_folder(&folders, 3));
    assert!(!is_artist_folder(&folders, 1));
}

#[test]
fn same_artist_name_folds_case_and_leading_the() {
    assert!(same_artist_name("The Beatles", "beatles"));
    assert!(same_artist_name("Neil Diamond", "Neil Diamond"));
    assert!(!same_artist_name("Neil Diamond", "Neil Young"));
}

#[test]
fn detect_artist_falls_back_to_letter_bucket_folder_when_file_is_unreadable() {
    assert_eq!(
        detect_artist(&None, &path("/music/A/All Them Witches/ATW/Fishbelley.mp3")).as_deref(),
        Some("All Them Witches")
    );
    assert_eq!(detect_artist(&None, &path("/music/_assets/loose.mp3")), None);
    let blank = Some(" \t".to_owned());
    assert_eq!(detect_artist(&blank, &path("/A/Band/Disc/x.mp3")).as_deref(), Some("Band"));
    let tagged = Some("Tagged".to_owned());
    assert_eq!(detect_artist(&tagged, &path("/A/Band/Disc/x.mp3")).as_deref(), Some("Tagged"));
}

#[test]
fn find_folder_ref_locates_nested_folder_immutably() {
    let folders = music_tree();
    assert_eq!(find_folder_ref(&folders, 3).unwrap().name, "Hot August Night");
    assert!(find_folder_ref(&folders, 999).is_none());
}

#[test]
fn descendant_ids_are_collected_children_before_parent() {
    let folders = vec![folder(
        1,
        "Music",
        vec![folder(
            2,
            "Artist",
            vec![folder(3, "Album A", Vec::new()), folder(4, "Album B", Vec::new())],
        )],
    )];
    let artist = find_folder_ref(&folders, 2).unwrap();
    let mut out = Vec::new();
    collect_descendant_ids_post_order(artist, &mut out);
    assert_eq!(out, vec![3, 4]);
    let mut all = Vec::new();
    collect_descendant_ids_post_order(&folders[0], &mut all);
    assert_eq!(all, vec![3, 4, 2]);
}

#[test]
fn folders_are_emptied_before_they_are_deleted() {
    let files = vec![
        FileEntry { item_id: 50, parent_id: 3, is_folder: false },
        FileEntry { item_id: 51, parent_id: 7, is_folder: false },
        FileEntry { item_id: 3, parent_id: 2, is_folder: true },
        FileEntry { item_id: 52, parent_id: 2, is_folder: false },
    ];
    let step = |object_id, kind| DeleteStep { object_id, kind };
    assert_eq!(
        wipe_folder_contents(&music_tree(), &files, 2),
        vec![
            step(50, StepKind::StrayFile),
            step(52, StepKind::StrayFile),
            step(3, StepKind::Subfolder),
        ]
    );
    assert_eq!(
        wipe_folder_contents(&Vec::new(), &files, 7),
        vec![step(51, StepKind::StrayFile)]
    );
    let device = raw_device();
    assert!(device.lists_folder(3));
    assert!(!device.lists_folder(20));
    assert_eq!(
        device.delete_object(&files, 2, true).last(),
        Some(&step(2, StepKind::Target))
    );
    assert_eq!(device.delete_object(&files, 2, false), vec![step(2, StepKind::Target)]);
    assert!(matches!(deletion_started(&Vec::new()), DeleteProgress::Done));
    let steps = device.delete_object(&files, 2, true);
    assert!(matches!(deletion_started(&steps), DeleteProgress::Perform(0)));
    assert!(matches!(step_answered(&steps, 0, 0, ""), DeleteProgress::Perform(1)));
    let last = steps.len() - 1;
    assert!(matches!(step_answered(&steps, last, 0, ""), DeleteProgress::Done));
    match step_answered(&steps, 2, -1, "busy") {
        DeleteProgress::Failed(error) => {
            assert_eq!(error, "could not delete an emptied subfolder: busy")
        }
        other => panic!("{other:?}"),
    }
    assert_eq!(
        step_failure(StepKind::StrayFile, "no"),
        "could not clear a stray file inside the folder before deleting it: no"
    );
    assert_eq!(
        step_failure(StepKind::Subfolder, "no"),
        "could not delete an emptied subfolder: no"
    );
    assert_eq!(step_failure(StepKind::Target, "no"), "no");
}

fn raw_device() -> Device {
    Device {
        friendly_name: bytes("PAUL"),
        model: bytes("Zune"),
        serial: None,
        version: bytes("3.30"),
        storages: vec![
            RawStorage { capacity_bytes: u64::MAX, free_bytes: 5 },
            RawStorage { capacity_bytes: 10, free_bytes: 7 },
        ],
        folders: vec![RawFolder {
            id: 2,
            storage_id: 9,
            name: bytes("Artist"),
            children: vec![RawFolder {
                id: 3,
                storage_id: 9,
                name: None,
                children: Vec::new(),
            }],
        }],
        tracks: vec![
            RawTrack {
                id: 20,
                parent_id: 3,
                storage_id: 9,
                title: None,
                filename: bytes("one.mp3"),
            },
            RawTrack {
                id: 21,
                parent_id: 3,
                storage_id: 9,
                title: bytes("Two"),
                filename: bytes("two.mp3"),
            },
        ],
        albums: vec![RawAlbum {
            id: 100,
            name: bytes("Disc"),
            artist: None,
            track_ids: vec![20, 21],
        }],
        playlists: vec![RawPlaylist {
            id: 30,
            parent_id: 0,
            storage_id: 9,
            name: bytes("Mix"),
            track_ids: vec![21],
        }],
    }
}

#[test]
fn a_snapshot_copies_what_the_device_lists() {
    let snapshot = raw_device().snapshot();
    assert_eq!(snapshot.info.friendly_name, "PAUL");
    assert_eq!(snapshot.info.serial, "");
    assert_eq!(snapshot.info.capacity_bytes, u64::MAX);
    assert_eq!(snapshot.info.free_bytes, 12);
    assert_eq!(snapshot.folders[0].name, "Artist");
    assert_eq!(snapshot.folders[0].children[0].id, 3);
    assert_eq!(snapshot.folders[0].children[0].name, "");
    assert_eq!(snapshot.tracks[0].name, "one.mp3");
    assert_eq!(snapshot.tracks[1].name, "Two");
    assert_eq!(snapshot.tracks[1].filename, "two.mp3");
    assert_eq!(snapshot.albums[0].track_ids, vec![20, 21]);
    assert_eq!(snapshot.playlists[0].name, "Mix");
}

#[test]
fn error_stacks_are_joined() {
    assert_eq!(
        take_error_stack(&vec![bytes("first"), None, bytes(""), bytes("second")]),
        "first: second"
    );
    assert_eq!(
        take_error_stack(&vec![None]),
        "libmtp transfer failed without an error-stack message"
    );
}

#[test]
fn picked_folders_count_before_tags() {
    let tree = music_tree();
    let artist = Some("Someone Else".to_owned());
    let album = Some("the hot august night".to_owned());
    let source = path("/x/Disc/song.mp3");
    assert!(matches!(
        resolve_upload_destination(&tree, &source, 3, 5, &artist, &album),
        Placement::Place { folder_id: 3, storage_id: 9 }
    ));
    assert!(matches!(
        resolve_upload_destination(&tree, &source, 2, 5, &artist, &album),
        Placement::Place { folder_id: 3, storage_id: 9 }
    ));
    match resolve_upload_destination(&tree, &source, 2, 5, &artist, &None) {
        Placement::CreateAlbum { site, parent_id, storage_id, name } => {
            assert_eq!(site, ArtistSite::Folder(2));
            assert_eq!((parent_id, storage_id), (2, 9));
            assert_eq!(name, "Disc");
        }
        other => panic!("{other:?}"),
    }
}

#[test]
fn tags_place_an_upload_below_music() {
    let mut tree = music_tree();
    let source = path("/x/song.mp3");
    let artist = Some("The Band".to_owned());
    let album = Some("The Last Waltz".to_owned());
    let (music, storage_id, name, album_name) =
        match resolve_upload_destination(&tree, &source, 1, 5, &artist, &album) {
            Placement::CreateArtist { music, parent_id, storage_id, name, album } => {
                assert_eq!(parent_id, 1);
                (music, storage_id, name, album)
            }
            other => panic!("{other:?}"),
        };
    assert_eq!(name, "Band");
    let (site, name) =
        match artist_folder_created(&mut tree, music, storage_id, &name, &album_name, 70) {
            Placement::CreateAlbum { site, parent_id, name, .. } => {
                assert_eq!(parent_id, 70);
                (site, name)
            }
            other => panic!("{other:?}"),
        };
    assert_eq!(name, "Last Waltz");
    assert!(matches!(
        album_folder_created(&mut tree, site, storage_id, &name, 71),
        Placement::Place { folder_id: 71, storage_id: 9 }
    ));
    assert_eq!(tree[0].children[1].children[0].id, 71);
    assert!(matches!(
        resolve_upload_destination(&tree, &source, 1, 5, &artist, &album),
        Placement::Place { folder_id: 71, storage_id: 9 }
    ));
    let other = Some("Other".to_owned());
    match resolve_upload_destination(&tree, &source, 1, 5, &artist, &other) {
        Placement::CreateAlbum { site, name, storage_id, .. } => {
            album_folder_created(&mut tree, site, storage_id, &name, 72);
        }
        other => panic!("{other:?}"),
    }
    assert_eq!(tree[0].children[1].children[1].id, 72);
    match resolve_upload_destination(&tree, &source, 2, 5, &artist, &other) {
        Placement::CreateAlbum { site, name, storage_id, .. } => {
            album_folder_created(&mut tree, site, storage_id, &name, 73);
        }
        other => panic!("{other:?}"),
    }
    assert_eq!(tree[0].children[0].children[1].id, 73);
}

#[test]
fn uploads_that_cannot_be_placed_are_refused() {
    let source = path("/x/song.mp3");
    let artist = Some("A".to_owned());
    let album = Some("B".to_owned());
    match resolve_upload_destination(&Vec::new(), &source, 1, 5, &artist, &album) {
        Placement::Refuse(error) => assert_eq!(error, "device has no top-level Music folder"),
        other => panic!("{other:?}"),
    }
    let broken = Some("A\0".to_owned());
    match resolve_upload_destination(&music_tree(), &source, 1, 5, &broken, &album) {
        Placement::Refuse(error) => assert_eq!(error, "folder name contains a null byte"),
        other => panic!("{other:?}"),
    }
    assert!(matches!(
        resolve_upload_destination(&music_tree(), &source, 1, 5, &artist, &None),
        Placement::Place { folder_id: 1, storage_id: 5 }
    ));
}

fn properties() -> AudioProperties {
    AudioProperties {
        duration_millis: 61_000,
        sample_rate: Some(44_100),
        channels: Some(2),
        bitrate_kbps: Some(192),
    }
}

fn tags() -> TagFields {
    TagFields {
        title: Some("Song".to_owned()),
        artist: Some("Tagged".to_owned()),
        album: Some("  ".to_owned()),
        genre: Some("Rock".to_owned()),
        date: Some(TagDate {
            year: 1999,
            month: Some(3),
            day: None,
            hour: None,
            minute: Some(59),
            second: None,
        }),
        track: Some(7),
    }
}

#[test]
fn metadata_is_read_from_tags_and_path() {
    let source = path("/A/Band/Disc/01 song.mp3");
    let name = b"01 song.mp3".to_vec();
    let read = UploadTrackMetadata::read(&source, &name, &Some(tags()), &properties(), Ok(2))
        .expect("metadata");
    assert_eq!(read.title.as_deref(), Some("Song"));
    assert_eq!(read.artist.as_deref(), Some("Tagged"));
    assert_eq!(read.album.as_deref(), Some("Disc"));
    assert_eq!(read.genre.as_deref(), Some("Rock"));
    assert_eq!(read.date.as_deref(), Some("19990301T005900.0"));
    assert_eq!(read.tracknumber, 7);
    assert_eq!(read.duration, 61_000);
    assert_eq!(read.samplerate, 44_100);
    assert_eq!(read.nochannels, 2);
    assert_eq!(read.wavecodec, 0x0055);
    assert_eq!(read.bitrate, 192_000);
    assert_eq!(read.bitratetype, 2);

    let bare =
        UploadTrackMetadata::read(&source, &name, &None, &properties(), Ok(1)).expect("metadata");
    assert_eq!(bare.title.as_deref(), Some("01 song"));
    assert_eq!(bare.artist.as_deref(), Some("Band"));
    assert_eq!(bare.date, None);
    assert_eq!(bare.tracknumber, 0);
}

#[test]
fn metadata_errors_come_in_order() {
    let source = path("/x.mp3");
    let name = b"x.mp3".to_vec();
    let error = |tag: Option<TagFields>, facts: AudioProperties, kind: Result<u16, String>| {
        UploadTrackMetadata::read(&source, &name, &tag, &facts, kind).unwrap_err()
    };
    let mut facts = properties();
    facts.duration_millis = u128::from(u32::MAX) + 1;
    facts.sample_rate = None;
    assert_eq!(error(None, facts, Ok(1)), "audio duration is too large for MTP metadata");
    facts.duration_millis = 1;
    assert_eq!(error(None, facts, Ok(1)), "audio sample rate could not be determined");
    facts.sample_rate = Some(1);
    facts.channels = Some(0);
    assert_eq!(error(None, facts, Ok(1)), "audio channel count could not be determined");
    facts.channels = Some(1);
    facts.bitrate_kbps = Some(0);
    assert_eq!(error(None, facts, Ok(1)), "audio bitrate could not be determined");
    facts.bitrate_kbps = Some(u32::MAX);
    assert_eq!(error(None, facts, Ok(1)), "audio bitrate is too large for MTP metadata");
    let mut tag = tags();
    tag.track = Some(70_000);
    assert_eq!(
        error(Some(tag), properties(), Err("later".to_owned())),
        "track number is too large for MTP metadata"
    );
    assert_eq!(error(None, properties(), Err("unreadable".to_owned())), "unreadable");
}

#[test]
fn mp3_headers_are_read() {
    let plain = [0xff, 0xfb, 0, 0, 0, 0, 0, 0, 0, 0];
    assert_eq!(mp3_audio_offset(&plain), 0);
    let tagged = [b'I', b'D', b'3', 4, 0, 0, 0, 0, 0x02, 0x01];
    assert_eq!(mp3_audio_offset(&tagged), 10 + 257);
    let footer = [b'I', b'D', b'3', 4, 0, 0x10, 0x7f, 0x7f, 0x7f, 0x7f];
    assert_eq!(mp3_audio_offset(&footer), 10 + 268_435_455 + 10);
    assert_eq!(mp3_bitrate_type(b"....Xing"), 2);
    assert_eq!(mp3_bitrate_type(b"VBRI"), 2);
    assert_eq!(mp3_bitrate_type(b"Info"), 1);
    assert_eq!(mp3_bitrate_type(b"Xin"), 1);
}

#[test]
fn file_types_follow_the_extension() {
    assert_eq!(filetype_for(&path("/a.WAV")), FileType::Wav);
    assert_eq!(filetype_for(&path("/a.mp3")), FileType::Mp3);
    assert_eq!(filetype_for(&path("/a.wma")), FileType::Wma);
    assert_eq!(filetype_for(&path("/a.ogg")), FileType::Ogg);
    assert_eq!(filetype_for(&path("/a.aac")), FileType::Aac);
    assert_eq!(filetype_for(&path("/a.Flac")), FileType::Flac);
    assert_eq!(filetype_for(&path("/a.m4a")), FileType::M4a);
    assert_eq!(filetype_for(&path("/a.txt")), FileType::Unknown);
    assert!(!is_audio_file(&path("/.mp3")));
    assert!(is_audio_file(&path("/x.mp3/")));
    assert!(!is_audio_file(&LocalPath::from_bytes(b"/x.mp3\xff".to_vec())));
}

#[test]
fn sources_are_checked_before_they_are_sent() {
    assert_eq!(check_source(true, &path("/a/b.mp3")), Ok(b"b.mp3".to_vec()));
    assert_eq!(
        check_source(false, &path("/a/b.mp3")),
        Err("source is not a regular file".to_owned())
    );
    assert_eq!(check_source(true, &path("/a/\0")), Err("path contains a NUL byte".to_owned()));
    assert_eq!(check_source(true, &path("/..")), Err("source has no filename".to_owned()));
}

#[test]
fn a_track_is_sent_once() {
    let source = path("/A/Band/Disc/song.mp3");
    let name = b"song.mp3".to_vec();
    let metadata = UploadTrackMetadata::read(&source, &name, &Some(tags()), &properties(), Ok(1))
        .expect("metadata");
    let mut tracks = Vec::new();
    match Device::upload_track_resolved(&tracks, &source, &name, 77, &metadata, 3, 9) {
        UploadPlan::Send(record) => {
            assert_eq!(record.filename, name);
            assert_eq!(record.title, "Song");
            assert_eq!(record.filesize, 77);
            assert_eq!((record.parent_id, record.storage_id), (3, 9));
            assert_eq!(record.filetype, FileType::Mp3);
        }
        other => panic!("{other:?}"),
    }
    let failed =
        track_sent(&mut tracks, 80, &name, &metadata, 3, 9, Some("broken cable".to_owned()));
    assert_eq!(failed, Err("broken cable".to_owned()));
    assert!(tracks.is_empty());
    assert_eq!(
        track_sent(&mut tracks, 80, &name, &metadata, 3, 9, None),
        Ok(UploadResult::Uploaded)
    );
    assert_eq!(tracks[0].name, "Song");
    assert_eq!(tracks[0].filename, "song.mp3");
    assert!(matches!(
        Device::upload_track_resolved(&tracks, &source, &name, 77, &metadata, 3, 9),
        UploadPlan::Skip
    ));
    assert!(matches!(
        Device::upload_track_resolved(&tracks, &source, &name, 77, &metadata, 4, 9),
        UploadPlan::Send(_)
    ));
    let mut broken = tags();
    broken.title = Some("a\0b".to_owned());
    let metadata = UploadTrackMetadata::read(&source, &name, &Some(broken), &properties(), Ok(1))
        .expect("metadata");
    match Device::upload_track_resolved(&tracks, &source, &name, 77, &metadata, 4, 9) {
        UploadPlan::Refuse(error) => assert_eq!(error, "could not allocate track strings"),
        other => panic!("{other:?}"),
    }
    assert_eq!(strdup_optional(&Some(String::new())), None);
    assert_eq!(strdup_optional(&Some("x".to_owned())), Some("x".to_owned()));
}

#[test]
fn a_sent_track_joins_its_album_where_it_has_one() {
    let read = |source: &str| {
        UploadTrackMetadata::read(&path(source), &Vec::new(), &None, &properties(), Ok(1))
            .expect("metadata")
    };
    let with_album = read("/A/Band/Disc/song.mp3");
    let without_album = read("/song.mp3");
    let error = |text: &str| Some(text.to_owned());

    let next = after_sending(&with_album, error("unplugged"));
    assert!(matches!(&next, AfterSending::Failed(text) if text == "unplugged"));
    assert_eq!(upload_failure(next, error("other")), error("unplugged"));

    let next = after_sending(&with_album, None);
    assert!(matches!(&next, AfterSending::Associate(name) if name == "Disc"));
    assert_eq!(upload_failure(next, None), None);
    let next = after_sending(&with_album, None);
    assert_eq!(upload_failure(next, error("full")), error("full"));

    let next = after_sending(&without_album, None);
    assert!(matches!(next, AfterSending::Entered));
    assert_eq!(upload_failure(next, None), None);
}

fn album(name: &str, artist: &str, track_ids: Vec<u32>) -> RawAlbum {
    RawAlbum { id: 1, name: bytes(name), artist: bytes(artist), track_ids }
}

#[test]
fn tracks_join_their_album() {
    let source = path("/x.mp3");
    let metadata =
        UploadTrackMetadata::read(&source, &Vec::new(), &Some(tags()), &properties(), Ok(1))
            .expect("metadata");
    let albums = vec![
        album("Disc", "Someone", vec![1]),
        album("Disc", "", vec![2]),
        album("Disc", "Tagged", vec![3]),
    ];
    match associate_album(&albums, "Disc", &metadata, 9, 80) {
        AlbumStep::Update { index, track_ids } => {
            assert_eq!(index, 1);
            assert_eq!(track_ids, vec![2, 80]);
        }
        other => panic!("{other:?}"),
    }
    assert!(matches!(associate_album(&albums, "Disc", &metadata, 9, 2), AlbumStep::Keep));
    match associate_album(&albums, "disc", &metadata, 9, 80) {
        AlbumStep::Create { name, artist, genre, storage_id } => {
            assert_eq!(name, "disc");
            assert_eq!(artist.as_deref(), Some("Tagged"));
            assert_eq!(genre.as_deref(), Some("Rock"));
            assert_eq!(storage_id, 9);
        }
        other => panic!("{other:?}"),
    }
    match associate_album(&albums, "", &metadata, 9, 80) {
        AlbumStep::Refuse(error) => {
            assert_eq!(error, "track uploaded, but album metadata allocation failed")
        }
        other => panic!("{other:?}"),
    }
    assert!(matches!(append_track_to_album(0, &vec![5], 5), AlbumStep::Keep));
    assert_eq!(
        album_creation_failure("x"),
        "track uploaded, but album creation failed: x"
    );
    assert_eq!(album_update_failure("x"), "track uploaded, but album update failed: x");
}

#[test]
fn playlists_and_downloads_are_checked() {
    let record = Device::create_playlist("Mix", 9).expect("record");
    assert_eq!((record.name.as_str(), record.storage_id, record.no_tracks), ("Mix", 9, 0));
    assert_eq!(
        Device::create_playlist("a\0", 9).unwrap_err(),
        "playlist name contains a NUL byte"
    );
    let mut playlist = Playlist {
        id: 30,
        parent_id: 4,
        storage_id: 9,
        name: "Mix".to_owned(),
        track_ids: vec![1],
    };
    let record = Device::update_playlist_tracks(&playlist, &vec![5, 6]).expect("record");
    assert_eq!((record.playlist_id, record.parent_id, record.no_tracks), (30, 4, 2));
    assert_eq!(record.track_ids, vec![5, 6]);
    playlist.name = "\0".to_owned();
    assert_eq!(
        Device::update_playlist_tracks(&playlist, &Vec::new()).unwrap_err(),
        "playlist name contains a NUL byte"
    );
    let track = Track {
        id: 42,
        parent_id: 1,
        storage_id: 2,
        name: "x".to_owned(),
        filename: "x".to_owned(),
    };
    assert_eq!(Device::download_track(&track, &path("/d/x"), false), Ok(42));
    assert_eq!(
        Device::download_track(&track, &path("/d/x"), true),
        Err("destination file already exists".to_owned())
    );
    let received = Device::track_received(0, "");
    assert_eq!((received.result, received.remove_file), (Ok(()), false));
    let received = Device::track_received(1, "unplugged");
    assert_eq!((received.result, received.remove_file), (Err("unplugged".to_owned()), true));
    assert_eq!(
        Device::download_track(&track, &path("/d\0"), false),
        Err("path contains a NUL byte".to_owned())
    );
}
