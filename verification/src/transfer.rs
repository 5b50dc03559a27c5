//! Transfers: what a job asks of the device step by step, and what is reported of it.
use vstd::prelude::*;

use crate::deletion;
use crate::deletion::{DeleteItem, ItemView};
use crate::device;
use crate::device::{
    copy_ids, DeviceSnapshot, Playlist, PlaylistView, SnapshotView, Track, TrackView,
};
use crate::folders::has_id;
use crate::local_path;
use crate::local_path::LocalPath;
use crate::path;
use crate::path::last_name;
use crate::seqs;
use crate::text;
use crate::text::{
    chars_of, copy_text, decimal_string, join_strings, padded_string, string_of,
};

verus! {

// ---------------------------------------------------------------------------
// Names and playlists
// ---------------------------------------------------------------------------

/// The name of the file that a track is copied to: the last component of its file name, or one
/// made of its id.
pub open spec fn download_name(track: TrackView) -> Seq<char> {
    match path::file_name(path::components(track.filename)) {
        Some(name) => name,
        None => "track-"@ + text::decimal(track.id as nat),
    }
}

/// The name of the file that a track is copied to.
pub fn safe_download_name(track: &Track) -> (r: String)
    ensures
        r@ == download_name(track@),
{
    let chars = chars_of(&track.filename);
    match last_name(&chars) {
        Some(name) => string_of(&name),
        None => {
            let mut r = copy_text("track-");
            r.append(&decimal_string(track.id as u64));
            r
        },
    }
}

/// The file that a track is copied to lies directly in the directory that was asked for, whatever
/// file name the device gives.
pub proof fn lemma_download_stays_in_directory(track: TrackView, directory: Seq<u8>)
    ensures
        path::is_proper_name(download_name(track)),
        path::parent(
            path::components(
                local_path::joined_path(
                    directory,
                    vstd::utf8::encode_utf8(download_name(track)),
                ),
            ),
        ) == Some(path::components(directory)),
        path::file_name(
            path::components(
                local_path::joined_path(
                    directory,
                    vstd::utf8::encode_utf8(download_name(track)),
                ),
            ),
        ) == Some(vstd::utf8::encode_utf8(download_name(track))),
{
    let name = download_name(track);
    path::lemma_names_are_proper(track.filename);
    if path::file_name(path::components(track.filename)) is None {
        reveal_strlit("track-");
        let digits = text::decimal(track.id as nat);
        text::lemma_decimal(track.id as nat);
        assert(name[0] == 't');
        assert forall|i: int| 0 <= i < name.len() implies (#[trigger] name[i]) != '/' by {
            if i >= 6 {
                assert(name[i] == digits[i - 6]);
            }
        }
        lemma_no_slash_is_proper(name);
    }
    let bytes = vstd::utf8::encode_utf8(name);
    local_path::lemma_utf8_name(name);
    local_path::lemma_joined_name(directory, bytes);
    let all = path::components(directory).push(path::Component::Normal(bytes));
    assert(all.drop_last() =~= path::components(directory));
}

proof fn lemma_no_slash_is_proper(name: Seq<char>)
    requires
        name.len() > 2,
        forall|i: int| 0 <= i < name.len() ==> #[trigger] name[i] != '/',
    ensures
        path::is_proper_name(name),
{
    assert forall|i: int| 0 <= i < name.len() implies !path::PathUnit::slash(
        #[trigger] name[i],
    ) by {}
}

/// The tracks of a playlist with more of them behind, each of which is added only where it is not
/// yet there.
pub open spec fn unique_appended(existing: Seq<u32>, additions: Seq<u32>) -> Seq<u32>
    decreases additions.len(),
{
    if additions.len() == 0 {
        existing
    } else {
        let before = unique_appended(existing, additions.drop_last());
        if before.contains(additions.last()) {
            before
        } else {
            before.push(additions.last())
        }
    }
}

/// The tracks that were there stay in front, every addition is there, nothing else is, and no
/// track is there twice unless it was before.
pub proof fn lemma_unique_appended(existing: Seq<u32>, additions: Seq<u32>)
    ensures
        existing.is_prefix_of(unique_appended(existing, additions)),
        forall|id: u32| #[trigger]
            unique_appended(existing, additions).contains(id) <==> existing.contains(id)
                || additions.contains(id),
        existing.no_duplicates() ==> unique_appended(existing, additions).no_duplicates(),
    decreases additions.len(),
{
    let all = unique_appended(existing, additions);
    if additions.len() > 0 {
        let front = additions.drop_last();
        let last = additions.last();
        let before = unique_appended(existing, front);
        lemma_unique_appended(existing, front);
        assert(existing =~= all.subrange(0, existing.len() as int)) by {
            assert(existing =~= before.subrange(0, existing.len() as int));
        }
        assert forall|id: u32| #[trigger] all.contains(id) <==> existing.contains(id)
            || additions.contains(id) by {
            if additions.contains(id) {
                let i = choose|i: int| 0 <= i < additions.len() && additions[i] == id;
                if i < front.len() {
                    assert(front[i] == id);
                    assert(front.contains(id));
                }
            }
            if front.contains(id) {
                let i = choose|i: int| 0 <= i < front.len() && front[i] == id;
                assert(additions[i] == id);
            }
            if before.contains(id) {
                let i = choose|i: int| 0 <= i < before.len() && before[i] == id;
                assert(all[i] == id);
            }
            if id == last {
                assert(additions[additions.len() - 1] == id);
                if !before.contains(id) {
                    assert(all[before.len() as int] == id);
                }
            }
            if all.contains(id) && id != last {
                let i = choose|i: int| 0 <= i < all.len() && all[i] == id;
                assert(before[i] == id);
                assert(before.contains(id));
            }
        }
    } else {
        assert(existing =~= all.subrange(0, existing.len() as int));
    }
}

/// Adding the same tracks again adds none.
pub proof fn lemma_append_twice(existing: Seq<u32>, additions: Seq<u32>)
    ensures
        unique_appended(unique_appended(existing, additions), additions) == unique_appended(
            existing,
            additions,
        ),
{
    lemma_unique_appended(existing, additions);
    lemma_append_known(unique_appended(existing, additions), additions);
}

proof fn lemma_append_known(existing: Seq<u32>, additions: Seq<u32>)
    requires
        forall|i: int| 0 <= i < additions.len() ==> existing.contains(#[trigger] additions[i]),
    ensures
        unique_appended(existing, additions) == existing,
    decreases additions.len(),
{
    if additions.len() > 0 {
        let front = additions.drop_last();
        assert forall|i: int| 0 <= i < front.len() implies existing.contains(
            #[trigger] front[i],
        ) by {
            assert(front[i] == additions[i]);
        }
        lemma_append_known(existing, front);
        assert(existing.contains(additions[additions.len() - 1]));
    }
}

/// The tracks of a playlist with more of them behind, and how many were added.
pub fn append_unique_track_ids(existing: &Vec<u32>, additions: &Vec<u32>) -> (r: (
    Vec<u32>,
    usize,
))
    ensures
        r.0@ == unique_appended(existing@, additions@),
        r.1 == unique_appended(existing@, additions@).len() - existing@.len(),
{
    let mut updated = copy_ids(existing);
    let mut i: usize = 0;
    assert(additions@.take(0).len() == 0);
    while i < additions.len()
        invariant
            i <= additions@.len(),
            updated@ == unique_appended(existing@, additions@.take(i as int)),
        decreases additions@.len() - i,
    {
        proof {
            assert(additions@.take(i + 1).drop_last() =~= additions@.take(i as int));
            assert(additions@.take(i + 1).last() == additions@[i as int]);
        }
        if !has_id(&updated, additions[i]) {
            updated.push(additions[i]);
        }
        i = i + 1;
    }
    proof {
        assert(additions@.take(i as int) =~= additions@);
        lemma_unique_appended(existing@, additions@);
    }
    let added: usize = updated.len() - existing.len();
    (updated, added)
}

/// The tracks of a playlist without some of them.
pub open spec fn retained(track_ids: Seq<u32>, removed: Seq<u32>) -> Seq<u32> {
    track_ids.filter(|id: u32| !removed.contains(id))
}

/// The tracks of a playlist without some of them.
fn retain_ids(track_ids: &Vec<u32>, removed: &Vec<u32>) -> (r: Vec<u32>)
    ensures
        r@ == retained(track_ids@, removed@),
{
    let ghost keep = |id: u32| !removed@.contains(id);
    let mut r: Vec<u32> = Vec::new();
    let mut i: usize = 0;
    proof {
        seqs::lemma_filter_ends(track_ids@, keep);
    }
    while i < track_ids.len()
        invariant
            i <= track_ids@.len(),
            keep == (|id: u32| !removed@.contains(id)),
            r@ == track_ids@.take(i as int).filter(keep),
        decreases track_ids@.len() - i,
    {
        proof {
            seqs::lemma_filter_next(track_ids@, i as int, keep);
        }
        if !has_id(removed, track_ids[i]) {
            r.push(track_ids[i]);
        }
        i = i + 1;
    }
    r
}

// ---------------------------------------------------------------------------
// Jobs
// ---------------------------------------------------------------------------

/// What is asked of the device.
#[derive(Debug)]
pub enum TransferJob {
    Upload { files: Vec<LocalPath>, folder_id: u32, storage_id: u32 },
    Download { tracks: Vec<Track>, directory: LocalPath },
    Delete { items: Vec<DeleteItem> },
    CreatePlaylist { name: String, storage_id: u32 },
    DeletePlaylists { playlists: Vec<Playlist> },
    RemovePlaylistTracks { playlist: Playlist, track_ids: Vec<u32> },
    AddPlaylistTracks { playlist: Playlist, track_ids: Vec<u32> },
}

/// What is asked of the device, as a mathematical value.
pub enum JobView {
    Upload { files: Seq<Seq<u8>>, folder_id: u32, storage_id: u32 },
    Download { tracks: Seq<TrackView>, directory: Seq<u8> },
    Delete { items: Seq<ItemView> },
    CreatePlaylist { name: Seq<char>, storage_id: u32 },
    DeletePlaylists { playlists: Seq<PlaylistView> },
    RemovePlaylistTracks { playlist: PlaylistView, track_ids: Seq<u32> },
    AddPlaylistTracks { playlist: PlaylistView, track_ids: Seq<u32> },
}

impl View for TransferJob {
    type V = JobView;

    open spec fn view(&self) -> JobView {
        match self {
            TransferJob::Upload { files, folder_id, storage_id } => JobView::Upload {
                files: local_path::path_views(files@),
                folder_id: *folder_id,
                storage_id: *storage_id,
            },
            TransferJob::Download { tracks, directory } => JobView::Download {
                tracks: device::track_views(tracks@),
                directory: directory@,
            },
            TransferJob::Delete { items } => JobView::Delete {
                items: deletion::item_views(items@),
            },
            TransferJob::CreatePlaylist { name, storage_id } => JobView::CreatePlaylist {
                name: name@,
                storage_id: *storage_id,
            },
            TransferJob::DeletePlaylists { playlists } => JobView::DeletePlaylists {
                playlists: device::playlist_views(playlists@),
            },
            TransferJob::RemovePlaylistTracks { playlist, track_ids } => {
                JobView::RemovePlaylistTracks { playlist: playlist@, track_ids: track_ids@ }
            },
            TransferJob::AddPlaylistTracks { playlist, track_ids } => {
                JobView::AddPlaylistTracks { playlist: playlist@, track_ids: track_ids@ }
            },
        }
    }
}

/// One thing that is asked of the device.
#[derive(Debug)]
pub enum DeviceCall {
    Upload { source: LocalPath, folder_id: u32, storage_id: u32 },
    Download { track: Track, destination: LocalPath },
    Delete { object_id: u32, name: String },
    DeletePlaylist { object_id: u32, name: String },
    CreatePlaylist { name: String, storage_id: u32 },
    UpdatePlaylist { playlist: Playlist, track_ids: Vec<u32> },
    /// Nothing is to be done.
    Nothing,
}

/// One thing that is asked of the device, as a mathematical value.
pub enum CallView {
    Upload { source: Seq<u8>, folder_id: u32, storage_id: u32 },
    Download { track: TrackView, destination: Seq<u8> },
    Delete { object_id: u32, name: Seq<char> },
    DeletePlaylist { object_id: u32, name: Seq<char> },
    CreatePlaylist { name: Seq<char>, storage_id: u32 },
    UpdatePlaylist { playlist: PlaylistView, track_ids: Seq<u32> },
    Nothing,
}

impl View for DeviceCall {
    type V = CallView;

    open spec fn view(&self) -> CallView {
        match self {
            DeviceCall::Upload { source, folder_id, storage_id } => CallView::Upload {
                source: source@,
                folder_id: *folder_id,
                storage_id: *storage_id,
            },
            DeviceCall::Download { track, destination } => CallView::Download {
                track: track@,
                destination: destination@,
            },
            DeviceCall::Delete { object_id, name } => CallView::Delete {
                object_id: *object_id,
                name: name@,
            },
            DeviceCall::DeletePlaylist { object_id, name } => CallView::DeletePlaylist {
                object_id: *object_id,
                name: name@,
            },
            DeviceCall::CreatePlaylist { name, storage_id } => CallView::CreatePlaylist {
                name: name@,
                storage_id: *storage_id,
            },
            DeviceCall::UpdatePlaylist { playlist, track_ids } => CallView::UpdatePlaylist {
                playlist: playlist@,
                track_ids: track_ids@,
            },
            DeviceCall::Nothing => CallView::Nothing,
        }
    }
}

/// A step of a transfer: what is shown, what is asked of the device, and how many items it counts
/// for where it succeeds.
#[derive(Debug)]
pub struct TransferStep {
    pub current: usize,
    pub total: usize,
    pub name: String,
    pub verb: &'static str,
    pub call: DeviceCall,
    pub credit: usize,
}

/// A step of a transfer, as a mathematical value.
pub struct StepView {
    pub current: nat,
    pub total: nat,
    pub name: Seq<char>,
    pub verb: Seq<char>,
    pub call: CallView,
    pub credit: nat,
}

impl View for TransferStep {
    type V = StepView;

    open spec fn view(&self) -> StepView {
        StepView {
            current: self.current as nat,
            total: self.total as nat,
            name: self.name@,
            verb: self.verb@,
            call: self.call@,
            credit: self.credit as nat,
        }
    }
}

/// The steps that a vector holds.
pub open spec fn step_views(steps: Seq<TransferStep>) -> Seq<StepView> {
    steps.map_values(|s: TransferStep| s@)
}

/// The step of an upload.
pub open spec fn upload_step(
    files: Seq<Seq<u8>>,
    folder_id: u32,
    storage_id: u32,
    i: int,
) -> StepView {
    StepView {
        current: (i + 1) as nat,
        total: files.len(),
        name: local_path::name_text(files[i]),
        verb: "Copying"@,
        call: CallView::Upload { source: files[i], folder_id, storage_id },
        credit: 1,
    }
}

/// The step of a download.
pub open spec fn download_step(tracks: Seq<TrackView>, directory: Seq<u8>, i: int) -> StepView {
    let name = download_name(tracks[i]);
    StepView {
        current: (i + 1) as nat,
        total: tracks.len(),
        name,
        verb: "Copying"@,
        call: CallView::Download {
            track: tracks[i],
            destination: local_path::joined_path(directory, vstd::utf8::encode_utf8(name)),
        },
        credit: 1,
    }
}

/// The step of a deletion.
pub open spec fn delete_step(items: Seq<ItemView>, i: int) -> StepView {
    StepView {
        current: (i + 1) as nat,
        total: items.len(),
        name: items[i].name,
        verb: "Deleting"@,
        call: CallView::Delete { object_id: items[i].object_id, name: items[i].name },
        credit: 1,
    }
}

/// The step of a deletion of a playlist.
pub open spec fn delete_playlist_step(playlists: Seq<PlaylistView>, i: int) -> StepView {
    StepView {
        current: (i + 1) as nat,
        total: playlists.len(),
        name: playlists[i].name,
        verb: "Deleting"@,
        call: CallView::DeletePlaylist { object_id: playlists[i].id, name: playlists[i].name },
        credit: 1,
    }
}

/// The step that takes tracks out of a playlist.
pub open spec fn remove_step(playlist: PlaylistView, track_ids: Seq<u32>) -> StepView {
    StepView {
        current: 1,
        total: 1,
        name: playlist.name,
        verb: "Updating"@,
        call: CallView::UpdatePlaylist {
            playlist,
            track_ids: retained(playlist.track_ids, track_ids),
        },
        credit: track_ids.len(),
    }
}

/// The step that adds tracks to a playlist; nothing is asked of the device where all of them are
/// there.
pub open spec fn add_step(playlist: PlaylistView, track_ids: Seq<u32>) -> StepView {
    let updated = unique_appended(playlist.track_ids, track_ids);
    let added = (updated.len() - playlist.track_ids.len()) as nat;
    StepView {
        current: added,
        total: track_ids.len(),
        name: playlist.name,
        verb: "Adding"@,
        call: if added == 0 {
            CallView::Nothing
        } else {
            CallView::UpdatePlaylist { playlist, track_ids: updated }
        },
        credit: added,
    }
}

/// The steps of a job.
pub open spec fn steps_of(job: JobView) -> Seq<StepView> {
    match job {
        JobView::Upload { files, folder_id, storage_id } => Seq::new(
            files.len(),
            |i: int| upload_step(files, folder_id, storage_id, i),
        ),
        JobView::Download { tracks, directory } => Seq::new(
            tracks.len(),
            |i: int| download_step(tracks, directory, i),
        ),
        JobView::Delete { items } => Seq::new(items.len(), |i: int| delete_step(items, i)),
        JobView::CreatePlaylist { name, storage_id } => seq![
            StepView {
                current: 1,
                total: 1,
                name,
                verb: "Creating"@,
                call: CallView::CreatePlaylist { name, storage_id },
                credit: 1,
            },
        ],
        JobView::DeletePlaylists { playlists } => Seq::new(
            playlists.len(),
            |i: int| delete_playlist_step(playlists, i),
        ),
        JobView::RemovePlaylistTracks { playlist, track_ids } => seq![
            remove_step(playlist, track_ids),
        ],
        JobView::AddPlaylistTracks { playlist, track_ids } => seq![add_step(playlist, track_ids)],
    }
}

/// What was done, once a job is finished.
pub open spec fn finished_verb(job: JobView) -> Seq<char> {
    match job {
        JobView::Upload { .. } => "Copied"@,
        JobView::Download { .. } => "Copied"@,
        JobView::Delete { .. } => "Deleted"@,
        JobView::CreatePlaylist { .. } => "Created"@,
        JobView::DeletePlaylists { .. } => "Deleted"@,
        JobView::RemovePlaylistTracks { .. } => "Removed"@,
        JobView::AddPlaylistTracks { .. } => "Added"@,
    }
}

/// The items that steps count for.
pub open spec fn credits(steps: Seq<StepView>) -> nat
    decreases steps.len(),
{
    if steps.len() == 0 {
        0
    } else {
        credits(steps.drop_last()) + steps.last().credit
    }
}

/// Steps that count for one item each count for as many items as there are steps.
proof fn lemma_unit_credits(steps: Seq<StepView>)
    requires
        forall|i: int| 0 <= i < steps.len() ==> (#[trigger] steps[i]).credit == 1,
    ensures
        credits(steps) == steps.len(),
    decreases steps.len(),
{
    if steps.len() > 0 {
        let front = steps.drop_last();
        assert forall|i: int| 0 <= i < front.len() implies (#[trigger] front[i]).credit == 1 by {
            assert(front[i] == steps[i]);
        }
        assert(steps[steps.len() - 1].credit == 1);
        lemma_unit_credits(front);
    }
}

/// The items that the first steps count for are no more than all.
proof fn lemma_credits_grow(steps: Seq<StepView>, n: int)
    requires
        0 <= n <= steps.len(),
    ensures
        credits(steps.take(n)) <= credits(steps),
    decreases steps.len(),
{
    if n < steps.len() {
        lemma_credits_grow(steps.drop_last(), n);
        assert(steps.drop_last().take(n) =~= steps.take(n));
    } else {
        assert(steps.take(n) =~= steps);
    }
}

// ---------------------------------------------------------------------------
// Running a job
// ---------------------------------------------------------------------------

/// What became of a step.
#[derive(Debug)]
pub enum Outcome {
    Done,
    SkippedDuplicate,
    Failed(String),
}

/// A job that is being worked on.
#[derive(Debug)]
pub struct Transfer {
    pub steps: Vec<TransferStep>,
    pub next: usize,
    pub completed: usize,
    pub failures: Vec<String>,
    pub verb: &'static str,
}

/// A job that is being worked on, as a mathematical value.
#[verifier::ext_equal]
pub struct TransferView {
    pub steps: Seq<StepView>,
    pub next: nat,
    pub completed: nat,
    pub failures: Seq<Seq<char>>,
    pub verb: Seq<char>,
}

impl View for Transfer {
    type V = TransferView;

    open spec fn view(&self) -> TransferView {
        TransferView {
            steps: step_views(self.steps@),
            next: self.next as nat,
            completed: self.completed as nat,
            failures: text::strings(self.failures@),
            verb: self.verb@,
        }
    }
}

/// What is reported of a step that did not succeed.
pub open spec fn failure_text(name: Seq<char>, outcome: Outcome) -> Option<Seq<char>> {
    match outcome {
        Outcome::Done => None,
        Outcome::SkippedDuplicate => Some(
            name + ": skipped (same title already exists in destination)"@,
        ),
        Outcome::Failed(error) => Some(name + ": "@ + error@),
    }
}

/// A transfer once its next step has come out.
pub open spec fn after_step(t: TransferView, outcome: Outcome) -> TransferView {
    let step = t.steps[t.next as int];
    TransferView {
        next: t.next + 1,
        completed: match outcome {
            Outcome::Done => t.completed + step.credit,
            _ => t.completed,
        },
        failures: match failure_text(step.name, outcome) {
            Some(failure) => t.failures.push(failure),
            None => t.failures,
        },
        ..t
    }
}

/// A job before its first step.
pub open spec fn new_transfer(job: JobView) -> TransferView {
    TransferView {
        steps: steps_of(job),
        next: 0,
        completed: 0,
        failures: Seq::empty(),
        verb: finished_verb(job),
    }
}

/// Every step that comes out is counted, or it is reported as a failure, and never both.
pub proof fn lemma_step_is_counted_or_reported(t: TransferView, outcome: Outcome)
    requires
        t.next < t.steps.len(),
    ensures
        (after_step(t, outcome).completed == t.completed + t.steps[t.next as int].credit && after_step(
            t,
            outcome,
        ).failures == t.failures) || (after_step(t, outcome).completed == t.completed && after_step(
            t,
            outcome,
        ).failures.len() == t.failures.len() + 1),
        after_step(t, outcome).steps == t.steps,
        after_step(t, outcome).verb == t.verb,
{
}

/// A transfer once its steps have come out one after the other.
pub open spec fn run(t: TransferView, outcomes: Seq<Outcome>) -> TransferView
    decreases outcomes.len(),
{
    if outcomes.len() == 0 {
        t
    } else {
        after_step(run(t, outcomes.drop_last()), outcomes.last())
    }
}

/// The items that the steps count for that have succeeded.
pub open spec fn earned(steps: Seq<StepView>, outcomes: Seq<Outcome>) -> nat
    decreases outcomes.len(),
{
    if outcomes.len() == 0 {
        0
    } else {
        earned(steps, outcomes.drop_last()) + match outcomes.last() {
            Outcome::Done => steps[outcomes.len() - 1].credit,
            _ => 0,
        }
    }
}

/// What is reported of the steps that have not succeeded, in their order.
pub open spec fn reports(steps: Seq<StepView>, outcomes: Seq<Outcome>) -> Seq<Seq<char>>
    decreases outcomes.len(),
{
    if outcomes.len() == 0 {
        Seq::empty()
    } else {
        let before = reports(steps, outcomes.drop_last());
        match failure_text(steps[outcomes.len() - 1].name, outcomes.last()) {
            Some(failure) => before.push(failure),
            None => before,
        }
    }
}

/// A job counts what its successful steps count for and reports the others, in their order. Where
/// each step counts for one item, every step is counted or reported.
pub proof fn lemma_run(job: JobView, outcomes: Seq<Outcome>)
    requires
        outcomes.len() <= steps_of(job).len(),
    ensures
        run(new_transfer(job), outcomes) == (TransferView {
            next: outcomes.len(),
            completed: earned(steps_of(job), outcomes),
            failures: reports(steps_of(job), outcomes),
            ..new_transfer(job)
        }),
        (forall|i: int| 0 <= i < steps_of(job).len() ==> (#[trigger] steps_of(job)[i]).credit == 1)
            ==> earned(steps_of(job), outcomes) + reports(steps_of(job), outcomes).len()
            == outcomes.len(),
    decreases outcomes.len(),
{
    if outcomes.len() > 0 {
        lemma_run(job, outcomes.drop_last());
        if forall|i: int| 0 <= i < steps_of(job).len() ==> (#[trigger] steps_of(job)[i]).credit
            == 1 {
            assert(steps_of(job)[outcomes.len() - 1].credit == 1);
        }
    }
}

/// What is told of a transfer.
#[derive(Debug)]
pub enum TransferEvent {
    Progress { current: usize, total: usize, name: String, verb: &'static str },
    Finished {
        completed: usize,
        failures: Vec<String>,
        snapshot: Option<DeviceSnapshot>,
        verb: &'static str,
    },
}

/// What is told of a transfer, as a mathematical value.
pub enum EventView {
    Progress { current: nat, total: nat, name: Seq<char>, verb: Seq<char> },
    Finished {
        completed: nat,
        failures: Seq<Seq<char>>,
        snapshot: Option<SnapshotView>,
        verb: Seq<char>,
    },
}

/// What is known of a device that may be there.
pub open spec fn optional_snapshot(snapshot: Option<DeviceSnapshot>) -> Option<SnapshotView> {
    match snapshot {
        Some(s) => Some(s@),
        None => None,
    }
}

impl View for TransferEvent {
    type V = EventView;

    open spec fn view(&self) -> EventView {
        match self {
            TransferEvent::Progress { current, total, name, verb } => EventView::Progress {
                current: *current as nat,
                total: *total as nat,
                name: name@,
                verb: verb@,
            },
            TransferEvent::Finished { completed, failures, snapshot, verb } => {
                EventView::Finished {
                    completed: *completed as nat,
                    failures: text::strings(failures@),
                    snapshot: optional_snapshot(*snapshot),
                    verb: verb@,
                }
            },
        }
    }
}

/// What is told when no device was found.
pub fn no_device(message: String) -> (r: TransferEvent)
    ensures
        r@ == (EventView::Finished {
            completed: 0,
            failures: seq![message@],
            snapshot: None,
            verb: "Processed"@,
        }),
{
    let mut failures: Vec<String> = Vec::new();
    failures.push(message);
    assert(text::strings(failures@) =~= seq![message@]);
    TransferEvent::Finished { completed: 0, failures, snapshot: None, verb: "Processed" }
}

impl Transfer {
    /// The steps that are done are among those there are, and no more items are counted than they
    /// stand for.
    pub open spec fn wf(&self) -> bool {
        &&& self.next <= self.steps@.len()
        &&& self.completed <= credits(self@.steps.take(self.next as int))
        &&& credits(self@.steps) <= usize::MAX
    }

    /// A job before its first step.
    pub fn new(job: TransferJob) -> (r: Self)
        ensures
            r@ == new_transfer(job@),
            r.wf(),
    {
        let verb = match &job {
            TransferJob::Upload { .. } => "Copied",
            TransferJob::Download { .. } => "Copied",
            TransferJob::Delete { .. } => "Deleted",
            TransferJob::CreatePlaylist { .. } => "Created",
            TransferJob::DeletePlaylists { .. } => "Deleted",
            TransferJob::RemovePlaylistTracks { .. } => "Removed",
            TransferJob::AddPlaylistTracks { .. } => "Added",
        };
        let ghost asked = job@;
        let steps = match job {
            TransferJob::Upload { files, folder_id, storage_id } => upload_steps(
                &files,
                folder_id,
                storage_id,
            ),
            TransferJob::Download { tracks, directory } => download_steps(&tracks, &directory),
            TransferJob::Delete { items } => delete_steps(&items),
            TransferJob::CreatePlaylist { name, storage_id } => {
                let step = TransferStep {
                    current: 1,
                    total: 1,
                    name: name.clone(),
                    verb: "Creating",
                    call: DeviceCall::CreatePlaylist { name, storage_id },
                    credit: 1,
                };
                one_step(step)
            },
            TransferJob::DeletePlaylists { playlists } => delete_playlist_steps(&playlists),
            TransferJob::RemovePlaylistTracks { playlist, track_ids } => {
                let kept = retain_ids(&playlist.track_ids, &track_ids);
                let step = TransferStep {
                    current: 1,
                    total: 1,
                    name: playlist.name.clone(),
                    verb: "Updating",
                    call: DeviceCall::UpdatePlaylist { playlist, track_ids: kept },
                    credit: track_ids.len(),
                };
                one_step(step)
            },
            TransferJob::AddPlaylistTracks { playlist, track_ids } => {
                let (updated, added) = append_unique_track_ids(&playlist.track_ids, &track_ids);
                let name = playlist.name.clone();
                let call = if added == 0 {
                    DeviceCall::Nothing
                } else {
                    DeviceCall::UpdatePlaylist { playlist, track_ids: updated }
                };
                let step = TransferStep {
                    current: added,
                    total: track_ids.len(),
                    name,
                    verb: "Adding",
                    call,
                    credit: added,
                };
                one_step(step)
            },
        };
        let r = Transfer { steps, next: 0, completed: 0, failures: Vec::new(), verb };
        proof {
            assert(r@.steps =~= steps_of(asked));
            assert(r@.failures =~= Seq::<Seq<char>>::empty());
        }
        r
    }

    /// What is told before the next step, and what it asks of the device.
    pub fn current(&self) -> (r: Option<&TransferStep>)
        ensures
            (match r {
                Some(step) => self@.next < self@.steps.len() && step@
                    == self@.steps[self@.next as int],
                None => self@.next >= self@.steps.len(),
            }),
    {
        if self.next < self.steps.len() {
            Some(&self.steps[self.next])
        } else {
            None
        }
    }

    /// Enters what became of the next step.
    pub fn record(&mut self, outcome: Outcome)
        requires
            old(self).wf(),
            old(self)@.next < old(self)@.steps.len(),
        ensures
            final(self)@ == after_step(old(self)@, outcome),
            final(self).wf(),
    {
        let ghost before = self@;
        let at: usize = self.next;
        let total: usize = self.steps.len();
        proof {
            assert(at < total);
            lemma_credits_grow(before.steps, at + 1);
            assert(before.steps.take(at + 1).drop_last() =~= before.steps.take(at as int));
            assert(before.steps.take(at + 1).last() == before.steps[at as int]);
            assert(before.steps[at as int] == self.steps@[at as int]@);
        }
        match outcome {
            Outcome::Done => {
                self.completed = self.completed + self.steps[at].credit;
            },
            Outcome::SkippedDuplicate => {
                let mut failure = self.steps[at].name.clone();
                failure.append(": skipped (same title already exists in destination)");
                self.failures.push(failure);
                assert(text::strings(self.failures@) =~= before.failures.push(failure@));
            },
            Outcome::Failed(error) => {
                let mut failure = self.steps[at].name.clone();
                failure.append(": ");
                failure.append(&error);
                self.failures.push(failure);
                assert(text::strings(self.failures@) =~= before.failures.push(failure@));
            },
        }
        self.next = at + 1;
    }

    /// What is told once all steps have come out.
    pub fn finish(self, snapshot: Option<DeviceSnapshot>) -> (r: TransferEvent)
        ensures
            r@ == (EventView::Finished {
                completed: self@.completed,
                failures: self@.failures,
                snapshot: optional_snapshot(snapshot),
                verb: self@.verb,
            }),
    {
        TransferEvent::Finished {
            completed: self.completed,
            failures: self.failures,
            snapshot,
            verb: self.verb,
        }
    }
}

impl TransferStep {
    /// What is told before the step.
    pub fn progress(&self) -> (r: TransferEvent)
        ensures
            r@ == (EventView::Progress {
                current: self@.current,
                total: self@.total,
                name: self@.name,
                verb: self@.verb,
            }),
    {
        TransferEvent::Progress {
            current: self.current,
            total: self.total,
            name: self.name.clone(),
            verb: self.verb,
        }
    }
}

/// A job of one step.
fn one_step(step: TransferStep) -> (r: Vec<TransferStep>)
    ensures
        step_views(r@) == seq![step@],
        credits(step_views(r@)) <= usize::MAX,
{
    let mut r: Vec<TransferStep> = Vec::new();
    r.push(step);
    proof {
        assert(step_views(r@) =~= seq![step@]);
        assert(credits(seq![step@].drop_last()) == 0);
    }
    r
}

/// The steps of an upload.
fn upload_steps(files: &Vec<LocalPath>, folder_id: u32, storage_id: u32) -> (r: Vec<TransferStep>)
    ensures
        step_views(r@) == Seq::new(
            files@.len(),
            |i: int|
                upload_step(local_path::path_views(files@), folder_id, storage_id, i),
        ),
        credits(step_views(r@)) <= usize::MAX,
{
    let ghost all = local_path::path_views(files@);
    let total: usize = files.len();
    let mut r: Vec<TransferStep> = Vec::new();
    let mut i: usize = 0;
    while i < total
        invariant
            i <= total == files@.len(),
            r@.len() == i,
            all == local_path::path_views(files@),
            forall|j: int|
                0 <= j < i ==> (#[trigger] r@[j])@ == upload_step(all, folder_id, storage_id, j),
        decreases total - i,
    {
        let step = TransferStep {
            current: i + 1,
            total,
            name: files[i].name(),
            verb: "Copying",
            call: DeviceCall::Upload { source: files[i].clone(), folder_id, storage_id },
            credit: 1,
        };
        assert(all[i as int] == files@[i as int]@);
        r.push(step);
        i = i + 1;
    }
    proof {
        lemma_unit_credits(step_views(r@));
    }
    r
}

/// The steps of a download.
fn download_steps(tracks: &Vec<Track>, directory: &LocalPath) -> (r: Vec<TransferStep>)
    ensures
        step_views(r@) == Seq::new(
            tracks@.len(),
            |i: int| download_step(device::track_views(tracks@), directory@, i),
        ),
        credits(step_views(r@)) <= usize::MAX,
{
    let ghost all = device::track_views(tracks@);
    let total: usize = tracks.len();
    let mut r: Vec<TransferStep> = Vec::new();
    let mut i: usize = 0;
    while i < total
        invariant
            i <= total == tracks@.len(),
            r@.len() == i,
            all == device::track_views(tracks@),
            forall|j: int|
                0 <= j < i ==> (#[trigger] r@[j])@ == download_step(all, directory@, j),
        decreases total - i,
    {
        let name = safe_download_name(&tracks[i]);
        let destination = directory.join(&LocalPath::from_text(&name));
        let step = TransferStep {
            current: i + 1,
            total,
            name,
            verb: "Copying",
            call: DeviceCall::Download { track: tracks[i].clone(), destination },
            credit: 1,
        };
        assert(all[i as int] == tracks@[i as int]@);
        r.push(step);
        i = i + 1;
    }
    proof {
        lemma_unit_credits(step_views(r@));
    }
    r
}

/// The steps of a deletion.
fn delete_steps(items: &Vec<DeleteItem>) -> (r: Vec<TransferStep>)
    ensures
        step_views(r@) == Seq::new(
            items@.len(),
            |i: int| delete_step(deletion::item_views(items@), i),
        ),
        credits(step_views(r@)) <= usize::MAX,
{
    let ghost all = deletion::item_views(items@);
    let total: usize = items.len();
    let mut r: Vec<TransferStep> = Vec::new();
    let mut i: usize = 0;
    while i < total
        invariant
            i <= total == items@.len(),
            r@.len() == i,
            all == deletion::item_views(items@),
            forall|j: int| 0 <= j < i ==> (#[trigger] r@[j])@ == delete_step(all, j),
        decreases total - i,
    {
        let step = TransferStep {
            current: i + 1,
            total,
            name: items[i].name.clone(),
            verb: "Deleting",
            call: DeviceCall::Delete {
                object_id: items[i].object_id,
                name: items[i].name.clone(),
            },
            credit: 1,
        };
        assert(all[i as int] == items@[i as int]@);
        r.push(step);
        i = i + 1;
    }
    proof {
        lemma_unit_credits(step_views(r@));
    }
    r
}

/// The steps of a deletion of playlists.
fn delete_playlist_steps(playlists: &Vec<Playlist>) -> (r: Vec<TransferStep>)
    ensures
        step_views(r@) == Seq::new(
            playlists@.len(),
            |i: int| delete_playlist_step(device::playlist_views(playlists@), i),
        ),
        credits(step_views(r@)) <= usize::MAX,
{
    let ghost all = device::playlist_views(playlists@);
    let total: usize = playlists.len();
    let mut r: Vec<TransferStep> = Vec::new();
    let mut i: usize = 0;
    while i < total
        invariant
            i <= total == playlists@.len(),
            r@.len() == i,
            all == device::playlist_views(playlists@),
            forall|j: int| 0 <= j < i ==> (#[trigger] r@[j])@ == delete_playlist_step(all, j),
        decreases total - i,
    {
        let step = TransferStep {
            current: i + 1,
            total,
            name: playlists[i].name.clone(),
            verb: "Deleting",
            call: DeviceCall::DeletePlaylist {
                object_id: playlists[i].id,
                name: playlists[i].name.clone(),
            },
            credit: 1,
        };
        assert(all[i as int] == playlists@[i as int]@);
        r.push(step);
        i = i + 1;
    }
    proof {
        lemma_unit_credits(step_views(r@));
    }
    r
}

// ---------------------------------------------------------------------------
// What is shown of a transfer
// ---------------------------------------------------------------------------

/// What is shown of an event.
pub open spec fn event_text(event: EventView) -> Seq<char> {
    match event {
        EventView::Progress { current, total, name, verb } => {
            verb + " "@ + text::decimal_padded(current, 2) + "/"@ + text::decimal_padded(total, 2)
                + ": "@ + name + "..."@
        },
        EventView::Finished { completed, failures, verb, .. } => {
            if failures.len() == 0 {
                verb + " "@ + text::decimal(completed) + " item(s) successfully."@
            } else {
                verb + " "@ + text::decimal(completed) + "; failures: "@ + text::joined(
                    failures,
                    " | "@,
                )
            }
        },
    }
}

/// What is shown of an event.
pub fn event_status(event: &TransferEvent) -> (r: String)
    ensures
        r@ == event_text(event@),
{
    match event {
        TransferEvent::Progress { current, total, name, verb } => {
            let mut r = copy_text(verb);
            r.append(" ");
            r.append(&padded_string(*current as u64, 2));
            r.append("/");
            r.append(&padded_string(*total as u64, 2));
            r.append(": ");
            r.append(name);
            r.append("...");
            r
        },
        TransferEvent::Finished { completed, failures, verb, .. } => {
            let mut r = copy_text(verb);
            r.append(" ");
            r.append(&decimal_string(*completed as u64));
            assert(text::strings(failures@).len() == failures@.len());
            if failures.len() == 0 {
                r.append(" item(s) successfully.");
            } else {
                r.append("; failures: ");
                r.append(&join_strings(failures, " | "));
            }
            r
        },
    }
}

// ---------------------------------------------------------------------------
// What jobs ask of the device
// ---------------------------------------------------------------------------

/// The i-th step of an upload hands the i-th file of the job to the folder that was picked.
pub proof fn lemma_upload_job(files: Seq<Seq<u8>>, folder_id: u32, storage_id: u32)
    ensures
        ({
            let steps = steps_of(JobView::Upload { files, folder_id, storage_id });
            &&& steps.len() == files.len()
            &&& forall|i: int|
                0 <= i < files.len() ==> ((#[trigger] steps[i]).call matches CallView::Upload {
                    source,
                    folder_id: to,
                    storage_id: on,
                } && source == files[i] && to == folder_id && on == storage_id)
            &&& forall|i: int|
                0 <= i < files.len() && path::components(files[i]).len() > 0 && path::components(
                    files[i],
                ).last() is Normal ==> (#[trigger] steps[i]).name == path::lossy_text(
                    path::components(files[i]).last()->Normal_0,
                )
        }),
{
}

/// The i-th step of a download asks for the i-th track of the job, and writes it into the directory
/// that was asked for, under the last component of that same track's file name. Only a track whose
/// file name has none is named by its own id.
pub proof fn lemma_download_job(tracks: Seq<TrackView>, directory: Seq<u8>)
    ensures
        ({
            let steps = steps_of(JobView::Download { tracks, directory });
            &&& steps.len() == tracks.len()
            &&& forall|i: int|
                0 <= i < tracks.len() ==> ((#[trigger] steps[i]).call matches CallView::Download {
                    track,
                    destination,
                } && track == tracks[i] && written_to(destination, directory, tracks[i])
                    && path::components(destination).last() == path::Component::Normal(
                    vstd::utf8::encode_utf8(steps[i].name),
                ))
        }),
{
    let steps = steps_of(JobView::Download { tracks, directory });
    assert forall|i: int| 0 <= i < tracks.len() implies ((
    #[trigger] steps[i]).call matches CallView::Download { track, destination } && track
        == tracks[i] && written_to(destination, directory, tracks[i]) && path::components(
        destination,
    ).last() == path::Component::Normal(vstd::utf8::encode_utf8(steps[i].name))) by {
        lemma_download_stays_in_directory(tracks[i], directory);
    }
}

/// A path leads to an entry of a directory that is named after a track.
pub open spec fn written_to(destination: Seq<u8>, directory: Seq<u8>, track: TrackView) -> bool {
    let own = path::components(track.filename);
    let all = path::components(destination);
    &&& all.len() == path::components(directory).len() + 1
    &&& all.drop_last() == path::components(directory)
    &&& if own.len() > 0 && own.last() is Normal {
        all.last() == path::Component::Normal(vstd::utf8::encode_utf8(own.last()->Normal_0))
    } else {
        all.last() == path::Component::Normal(
            vstd::utf8::encode_utf8("track-"@ + text::decimal(track.id as nat)),
        )
    }
}

/// The objects that a deletion asks the device to delete are those of the items, in their order.
pub proof fn lemma_delete_job(items: Seq<ItemView>)
    ensures
        ({
            let steps = steps_of(JobView::Delete { items });
            &&& steps.len() == items.len()
            &&& forall|i: int|
                0 <= i < items.len() ==> ((#[trigger] steps[i]).call matches CallView::Delete {
                    object_id,
                    name,
                } && object_id == items[i].object_id && name == items[i].name && steps[i].name
                    == items[i].name)
        }),
{
}

/// The objects that a deletion of playlists asks the device to delete are the playlists themselves,
/// in their order.
pub proof fn lemma_delete_playlists_job(playlists: Seq<PlaylistView>)
    ensures
        ({
            let steps = steps_of(JobView::DeletePlaylists { playlists });
            &&& steps.len() == playlists.len()
            &&& forall|i: int|
                0 <= i < playlists.len() ==> ((
                #[trigger] steps[i]).call matches CallView::DeletePlaylist { object_id, name }
                    && object_id == playlists[i].id && name == playlists[i].name
                    && steps[i].name == playlists[i].name)
        }),
{
}

/// A playlist is created once, under the name and on the storage that were given.
pub proof fn lemma_create_playlist_job(name: Seq<char>, storage_id: u32)
    ensures
        ({
            let steps = steps_of(JobView::CreatePlaylist { name, storage_id });
            &&& steps.len() == 1
            &&& steps[0].credit == 1
            &&& steps[0].call matches CallView::CreatePlaylist { name: given, storage_id: on }
                && given == name && on == storage_id
        }),
{
}

/// A removal leaves of a playlist exactly the tracks that are not removed, each in its place.
pub proof fn lemma_removal_keeps_order(playlist: PlaylistView, removed: Seq<u32>)
    ensures
        ({
            let steps = steps_of(
                JobView::RemovePlaylistTracks { playlist, track_ids: removed },
            );
            &&& steps.len() == 1
            &&& steps[0].credit == removed.len()
            &&& steps[0].call matches CallView::UpdatePlaylist { playlist: changed, track_ids }
                && changed == playlist && seqs::is_selection(
                playlist.track_ids,
                track_ids,
                |id: u32| !removed.contains(id),
            )
        }),
{
    seqs::lemma_filter_selects(playlist.track_ids, |id: u32| !removed.contains(id));
    let kept = playlist.track_ids.filter(|id: u32| !removed.contains(id));
    assert(steps_of(JobView::RemovePlaylistTracks { playlist, track_ids: removed })[0].call
        == CallView::UpdatePlaylist { playlist, track_ids: kept });
}

/// A track stands in a list, and not before index `i`.
pub open spec fn first_at(ids: Seq<u32>, id: u32, i: int) -> bool {
    0 <= i < ids.len() && ids[i] == id && forall|j: int| 0 <= j < i ==> #[trigger] ids[j] != id
}

/// A track is given that the playlist does not hold.
pub open spec fn is_new(existing: Seq<u32>, additions: Seq<u32>, id: u32) -> bool {
    additions.contains(id) && !existing.contains(id)
}

/// What an addition puts behind the tracks of a playlist is each new track once, in the order in
/// which the new tracks are first given. Where there is none, the device is not asked; otherwise
/// the same playlist is updated, and as many items are counted as there are new tracks.
pub proof fn lemma_addition_keeps_order(playlist: PlaylistView, additions: Seq<u32>)
    ensures
        ({
            let steps = steps_of(
                JobView::AddPlaylistTracks { playlist, track_ids: additions },
            );
            &&& steps.len() == 1
            &&& (forall|id: u32| !#[trigger] is_new(playlist.track_ids, additions, id)) ==> steps[0].call is Nothing && steps[0].credit == 0
            &&& (exists|id: u32| #[trigger] is_new(playlist.track_ids, additions, id)) ==> (steps[0].call matches CallView::UpdatePlaylist {
                playlist: changed,
                track_ids,
            } && changed == playlist && exists|tail: Seq<u32>|
                {
                    &&& #[trigger] (playlist.track_ids + tail) == track_ids
                    &&& steps[0].credit == tail.len()
                    &&& tail.no_duplicates()
                    &&& forall|id: u32| #[trigger] tail.contains(id) <==> is_new(playlist.track_ids, additions, id)
                    &&& forall|a: int, b: int, i: int, j: int|
                        0 <= a < b < tail.len() && #[trigger] first_at(additions, tail[a], i)
                            && #[trigger] first_at(additions, tail[b], j) ==> i < j
                })
        }),
{
    let existing = playlist.track_ids;
    let updated = unique_appended(existing, additions);
    lemma_unique_appended(existing, additions);
    let tail = updated.skip(existing.len() as int);
    assert(existing + tail =~= updated);
    lemma_appended_tail(existing, additions);
    if exists|id: u32| #[trigger] is_new(playlist.track_ids, additions, id) {
        let id = choose|id: u32| #[trigger] is_new(playlist.track_ids, additions, id);
        assert(tail.contains(id));
    } else if tail.len() > 0 {
        assert(tail.contains(tail[0]));
        assert(is_new(existing, additions, tail[0]));
    }
}

/// What is appended: each new track once, in the order in which the new tracks are first given.
proof fn lemma_appended_tail(existing: Seq<u32>, additions: Seq<u32>)
    ensures
        ({
            let tail = unique_appended(existing, additions).skip(existing.len() as int);
            &&& existing.is_prefix_of(unique_appended(existing, additions))
            &&& tail.no_duplicates()
            &&& forall|id: u32| #[trigger]
                tail.contains(id) <==> additions.contains(id) && !existing.contains(id)
            &&& forall|a: int, b: int, i: int, j: int|
                0 <= a < b < tail.len() && #[trigger] first_at(additions, tail[a], i)
                    && #[trigger] first_at(additions, tail[b], j) ==> i < j
        }),
    decreases additions.len(),
{
    let n = existing.len() as int;
    let updated = unique_appended(existing, additions);
    let tail = updated.skip(n);
    if additions.len() == 0 {
        assert(tail =~= Seq::<u32>::empty());
    } else {
        let front = additions.drop_last();
        let last = additions.last();
        lemma_appended_tail(existing, front);
        lemma_unique_appended(existing, front);
        let before = unique_appended(existing, front);
        let old_tail = before.skip(n);
        assert(before =~= existing + old_tail);
        if before.contains(last) {
            assert(tail =~= old_tail);
        } else {
            assert(tail =~= old_tail.push(last));
        }
        assert(additions =~= front.push(last));
        assert forall|id: u32| #[trigger] tail.contains(id) <==> additions.contains(id)
            && !existing.contains(id) by {
            assert(additions.contains(id) <==> front.contains(id) || id == last) by {
                if front.contains(id) {
                    let k = choose|k: int| 0 <= k < front.len() && front[k] == id;
                    assert(additions[k] == id);
                }
                if id == last {
                    assert(additions[additions.len() - 1] == id);
                }
                if additions.contains(id) {
                    let k = choose|k: int| 0 <= k < additions.len() && additions[k] == id;
                    if k < front.len() {
                        assert(front[k] == id);
                    }
                }
            }
            if before.contains(last) {
            } else {
                assert(!existing.contains(last)) by {
                    if existing.contains(last) {
                        let k = choose|k: int| 0 <= k < existing.len() && existing[k] == last;
                        assert(before[k] == last);
                    }
                }
                if tail.contains(id) {
                    let k = choose|k: int| 0 <= k < tail.len() && tail[k] == id;
                    if k < old_tail.len() {
                        assert(old_tail[k] == id);
                        assert(old_tail.contains(id));
                    }
                }
                if old_tail.contains(id) {
                    let k = choose|k: int| 0 <= k < old_tail.len() && old_tail[k] == id;
                    assert(tail[k] == id);
                }
                if id == last {
                    assert(tail[old_tail.len() as int] == id);
                }
            }
        }
        assert(tail.no_duplicates()) by {
            if !before.contains(last) {
                assert forall|a: int, b: int| 0 <= a < tail.len() && 0 <= b < tail.len() && a
                    != b implies tail[a] != tail[b] by {
                    if a == old_tail.len() {
                        assert(tail[b] == old_tail[b]);
                        assert(before[n + b] == old_tail[b]);
                    } else if b == old_tail.len() {
                        assert(tail[a] == old_tail[a]);
                        assert(before[n + a] == old_tail[a]);
                    } else {
                        assert(tail[a] == old_tail[a] && tail[b] == old_tail[b]);
                    }
                }
            }
        }
        assert forall|a: int, b: int, i: int, j: int|
            0 <= a < b < tail.len() && #[trigger] first_at(additions, tail[a], i)
                && #[trigger] first_at(additions, tail[b], j) implies i < j by {
            assert(tail[a] == old_tail[a]);
            assert(old_tail.contains(old_tail[a]));
            let k = choose|k: int| 0 <= k < front.len() && front[k] == tail[a];
            assert(additions[k] == tail[a]);
            assert(i <= k);
            assert(front[i] == additions[i]);
            assert forall|l: int| 0 <= l < i implies #[trigger] front[l] != tail[a] by {
                assert(additions[l] != tail[a]);
            }
            assert(first_at(front, old_tail[a], i));
            if b < old_tail.len() {
                assert(tail[b] == old_tail[b]);
                assert(old_tail.contains(old_tail[b]));
                let m = choose|m: int| 0 <= m < front.len() && front[m] == tail[b];
                assert(additions[m] == tail[b]);
                assert(j <= m);
                assert(front[j] == additions[j]);
                assert forall|l: int| 0 <= l < j implies #[trigger] front[l] != tail[b] by {
                    assert(additions[l] != tail[b]);
                }
                assert(first_at(front, old_tail[b], j));
            } else {
                assert(tail[b] == last);
                if j < front.len() {
                    assert(front[j] == last);
                    assert(front.contains(last));
                    assert(before.contains(last));
                }
            }
        }
    }
}

/// Before the i-th step of a job on several items it is told that it is step i + 1 of as many as
/// there are items, and each of these steps counts for one item.
pub proof fn lemma_progress_counts(job: JobView, i: int)
    requires
        0 <= i < steps_of(job).len(),
        job is Upload || job is Download || job is Delete || job is DeletePlaylists,
    ensures
        steps_of(job)[i].current == i + 1,
        steps_of(job)[i].total == steps_of(job).len(),
        steps_of(job)[i].credit == 1,
        job is Upload || job is Download ==> steps_of(job)[i].verb == "Copying"@,
        job is Delete || job is DeletePlaylists ==> steps_of(job)[i].verb == "Deleting"@,
{
}

/// A step counts exactly where it has succeeded. One that has not is reported under its own name,
/// with what went wrong behind it.
pub proof fn lemma_outcome(t: TransferView, outcome: Outcome)
    requires
        t.next < t.steps.len(),
    ensures
        ({
            let now = after_step(t, outcome);
            let step = t.steps[t.next as int];
            &&& now.next == t.next + 1
            &&& outcome is Done ==> now.completed == t.completed + step.credit && now.failures
                == t.failures
            &&& !(outcome is Done) ==> now.completed == t.completed && now.failures.len()
                == t.failures.len() + 1 && now.failures.drop_last() == t.failures
                && now.failures.last().take(step.name.len() as int) == step.name
            &&& outcome matches Outcome::Failed(error) ==> now.failures.last().len()
                == step.name.len() + 2 + error@.len() && now.failures.last().skip(
                step.name.len() as int + 2,
            ) == error@
            &&& outcome is SkippedDuplicate ==> now.failures.last() == step.name
                + ": skipped (same title already exists in destination)"@
            &&& now.steps == t.steps && now.verb == t.verb
        }),
{
    reveal_strlit(": ");
    let now = after_step(t, outcome);
    let step = t.steps[t.next as int];
    if !(outcome is Done) {
        assert(now.failures.drop_last() =~= t.failures);
        assert(now.failures.last().take(step.name.len() as int) =~= step.name);
    }
    if let Outcome::Failed(error) = outcome {
        assert(now.failures.last() =~= step.name + ": "@ + error@);
        assert(now.failures.last().skip(step.name.len() as int + 2) =~= error@);
    }
}

/// What a finished job is said to have done fits what was asked.
pub proof fn lemma_finished_verbs(job: JobView)
    ensures
        job is Upload || job is Download ==> finished_verb(job) == "Copied"@,
        job is Delete || job is DeletePlaylists ==> finished_verb(job) == "Deleted"@,
        job is CreatePlaylist ==> finished_verb(job) == "Created"@,
        job is RemovePlaylistTracks ==> finished_verb(job) == "Removed"@,
        job is AddPlaylistTracks ==> finished_verb(job) == "Added"@,
        new_transfer(job).verb == finished_verb(job),
        new_transfer(job).steps == steps_of(job),
        new_transfer(job).next == 0,
        new_transfer(job).completed == 0,
        new_transfer(job).failures.len() == 0,
{
}

/// Before a step, the text says what is done, the number of the step and of all steps, each with at
/// least two digits, and the name. At the end it says how many items were done and, where something
/// failed, each report in turn.
pub proof fn lemma_event_text(event: EventView)
    ensures
        event matches EventView::Progress { current, total, name, verb } ==> {
            let said = event_text(event);
            let now = text::decimal_padded(current, 2);
            let all = text::decimal_padded(total, 2);
            let v = verb.len() as int;
            let c = v + 1 + now.len();
            let t = c + 1 + all.len();
            &&& said.len() == t + 2 + name.len() + 3
            &&& said.take(v) == verb
            &&& said[v] == ' '
            &&& said.subrange(v + 1, c) == now
            &&& said[c] == '/'
            &&& said.subrange(c + 1, t) == all
            &&& said[t] == ':'
            &&& said[t + 1] == ' '
            &&& said.subrange(t + 2, t + 2 + name.len()) == name
            &&& said.skip(t + 2 + name.len()) == seq!['.', '.', '.']
        },
        event matches EventView::Finished { completed, failures, verb, .. } ==> {
            let head = verb + seq![' '] + text::decimal(completed);
            &&& failures.len() == 0 ==> event_text(event) == head + " item(s) successfully."@
            &&& failures.len() == 1 ==> event_text(event) == head + "; failures: "@ + failures[0]
            &&& failures.len() > 1 ==> event_text(event) == head + "; failures: "@ + text::joined(
                failures,
                " | "@,
            )
        },
{
    reveal_strlit(" ");
    reveal_strlit("/");
    reveal_strlit(": ");
    reveal_strlit("...");
    assert(" "@ =~= seq![' ']);
    match event {
        EventView::Progress { current, total, name, verb } => {
            let said = event_text(event);
            let now = text::decimal_padded(current, 2);
            let all = text::decimal_padded(total, 2);
            let v = verb.len() as int;
            let c = v + 1 + now.len();
            let t = c + 1 + all.len();
            assert(said.take(v) =~= verb);
            assert(said.subrange(v + 1, c) =~= now);
            assert(said.subrange(c + 1, t) =~= all);
            assert(said.subrange(t + 2, t + 2 + name.len()) =~= name);
            assert(said.skip(t + 2 + name.len()) =~= seq!['.', '.', '.']);
        },
        EventView::Finished { .. } => {},
    }
}

/// A job on one playlist is told under that playlist's name. One that adds tracks tells how many are
/// new and how many were given; the others are a single step.
pub proof fn lemma_playlist_progress(
    name: Seq<char>,
    storage_id: u32,
    playlist: PlaylistView,
    track_ids: Seq<u32>,
)
    ensures
        ({
            let step = steps_of(JobView::CreatePlaylist { name, storage_id })[0];
            &&& step.current == 1 && step.total == 1
            &&& step.name == name
            &&& step.verb == "Creating"@
        }),
        ({
            let step = steps_of(JobView::RemovePlaylistTracks { playlist, track_ids })[0];
            &&& step.current == 1 && step.total == 1
            &&& step.name == playlist.name
            &&& step.verb == "Updating"@
        }),
        ({
            let step = steps_of(JobView::AddPlaylistTracks { playlist, track_ids })[0];
            &&& step.current == step.credit && step.total == track_ids.len()
            &&& step.name == playlist.name
            &&& step.verb == "Adding"@
        }),
{
}

} // verus!
