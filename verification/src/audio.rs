//! What an audio file says of itself, and what its path says where its tags are silent.
use vstd::prelude::*;

use crate::local_path;
use crate::local_path::LocalPath;
use crate::path;
use crate::path::{
    bytes_to_text, last_name, name_at, name_extension, name_stem, split_path, utf8_to_text,
    Component, Part,
};
use crate::text;
use crate::text::{
    chars_of, copy_optional, copy_text, lower_chars, padded_string, same_chars, trim_chars,
};

verus! {

// ---------------------------------------------------------------------------
// File types
// ---------------------------------------------------------------------------

/// The type of an audio file.
#[derive(Debug, Clone, Copy, PartialEq, Eq, Structural)]
pub enum FileType {
    Wav,
    Mp3,
    Wma,
    Ogg,
    Aac,
    Flac,
    M4a,
    Unknown,
}

/// The extension of a path in ASCII lower case; empty where it has none, or none that is UTF-8.
pub open spec fn lower_extension(source: Seq<u8>) -> Seq<char> {
    match path::file_name(path::components(source)) {
        Some(name) => match path::extension(name) {
            Some(extension) if vstd::utf8::valid_utf8(extension) => text::ascii_lower_text(
                vstd::utf8::decode_utf8(extension),
            ),
            _ => Seq::empty(),
        },
        None => Seq::empty(),
    }
}

/// The type of a file with the given extension.
pub open spec fn type_of_extension(extension: Seq<char>) -> FileType {
    if extension == "wav"@ {
        FileType::Wav
    } else if extension == "mp3"@ {
        FileType::Mp3
    } else if extension == "wma"@ {
        FileType::Wma
    } else if extension == "ogg"@ {
        FileType::Ogg
    } else if extension == "aac"@ {
        FileType::Aac
    } else if extension == "flac"@ {
        FileType::Flac
    } else if extension == "m4a"@ {
        FileType::M4a
    } else {
        FileType::Unknown
    }
}

/// The extension of a path in ASCII lower case.
fn read_extension(source: &LocalPath) -> (r: Vec<char>)
    ensures
        r@ == lower_extension(source@),
{
    match last_name(&source.bytes) {
        Some(name) => match name_extension(&name) {
            Some(extension) => match utf8_to_text(extension) {
                Some(known) => {
                    let chars = chars_of(&known);
                    lower_chars(&chars)
                },
                None => Vec::new(),
            },
            None => Vec::new(),
        },
        None => Vec::new(),
    }
}

/// Whether characters spell a text.
fn spells(chars: &Vec<char>, wanted: &str) -> (r: bool)
    ensures
        r == (chars@ == wanted@),
{
    let w = chars_of(wanted);
    same_chars(chars, &w)
}

/// The type of a file, by its extension.
pub fn filetype_for(source: &LocalPath) -> (r: FileType)
    ensures
        r == type_of_extension(lower_extension(source@)),
{
    let extension = read_extension(source);
    if spells(&extension, "wav") {
        FileType::Wav
    } else if spells(&extension, "mp3") {
        FileType::Mp3
    } else if spells(&extension, "wma") {
        FileType::Wma
    } else if spells(&extension, "ogg") {
        FileType::Ogg
    } else if spells(&extension, "aac") {
        FileType::Aac
    } else if spells(&extension, "flac") {
        FileType::Flac
    } else if spells(&extension, "m4a") {
        FileType::M4a
    } else {
        FileType::Unknown
    }
}

/// The extension of a path is one of those that audio files have.
pub open spec fn is_audio(source: Seq<u8>) -> bool {
    type_of_extension(lower_extension(source)) != FileType::Unknown
}

/// Whether the extension of a path is one of those that audio files have.
pub fn is_audio_file(source: &LocalPath) -> (r: bool)
    ensures
        r == is_audio(source@),
{
    match filetype_for(source) {
        FileType::Unknown => false,
        _ => true,
    }
}

// ---------------------------------------------------------------------------
// The first bytes of an MP3 file
// ---------------------------------------------------------------------------

/// The number of bytes that an ID3 header is long, with the byte that says what flags it has.
pub open spec fn id3_size(header: Seq<u8>) -> int {
    (((header[6] % 128) * 128 + header[7] % 128) * 128 + header[8] % 128) * 128 + header[9] % 128
}

/// Where the audio of an MP3 file starts: behind its ID3 tag and the footer of the tag.
pub open spec fn audio_offset(header: Seq<u8>) -> int {
    if header[0] == 73 && header[1] == 68 && header[2] == 51 {
        10 + id3_size(header) + if (header[5] / 16) % 2 == 1 {
            10int
        } else {
            0int
        }
    } else {
        0
    }
}

/// Where the audio of an MP3 file starts, from the first ten bytes of the file.
pub fn mp3_audio_offset(header: &[u8]) -> (r: u64)
    requires
        header@.len() == 10,
    ensures
        r == audio_offset(header@),
{
    if header[0] == 73 && header[1] == 68 && header[2] == 51 {
        let size: u64 = (((header[6] % 128) as u64 * 128 + (header[7] % 128) as u64) * 128
            + (header[8] % 128) as u64) * 128 + (header[9] % 128) as u64;
        let footer: u64 = if (header[5] / 16) % 2 == 1 {
            10
        } else {
            0
        };
        10 + size + footer
    } else {
        0
    }
}

/// The four bytes at `i` are those of a header of a file with a variable bit rate.
pub open spec fn vbr_header_at(frames: Seq<u8>, i: int) -> bool {
    (frames[i] == 88 && frames[i + 1] == 105 && frames[i + 2] == 110 && frames[i + 3] == 103) || (
    frames[i] == 86 && frames[i + 1] == 66 && frames[i + 2] == 82 && frames[i + 3] == 73)
}

/// The frames hold a header of a file with a variable bit rate.
pub open spec fn has_vbr_header(frames: Seq<u8>) -> bool {
    exists|i: int| 0 <= i && i + 4 <= frames.len() && #[trigger] vbr_header_at(frames, i)
}

/// The kind of bit rate: 2 where the first frames hold a header "Xing" or "VBRI", that is where
/// the rate is variable, and 1 otherwise.
pub fn mp3_bitrate_type(first_frames: &[u8]) -> (r: u16)
    ensures
        r == if has_vbr_header(first_frames@) {
            2u16
        } else {
            1u16
        },
{
    let n: usize = first_frames.len();
    if n < 4 {
        return 1;
    }
    let mut i: usize = 0;
    while i < n - 3
        invariant
            n == first_frames@.len(),
            i <= n - 3,
            n >= 4,
            forall|j: int| 0 <= j < i ==> !#[trigger] vbr_header_at(first_frames@, j),
        decreases n - i,
    {
        let a = first_frames[i];
        let b = first_frames[i + 1];
        let c = first_frames[i + 2];
        let d = first_frames[i + 3];
        if (a == 88 && b == 105 && c == 110 && d == 103) || (a == 86 && b == 66 && c == 82 && d
            == 73) {
            assert(vbr_header_at(first_frames@, i as int));
            return 2;
        }
        i = i + 1;
    }
    1
}

// ---------------------------------------------------------------------------
// What a path says of artist and album
// ---------------------------------------------------------------------------

/// A name that is UTF-8 and not blank, as a text.
pub open spec fn proper_text(name: Seq<u8>) -> Option<Seq<char>> {
    if vstd::utf8::valid_utf8(name) && text::trimmed(vstd::utf8::decode_utf8(name)).len() > 0 {
        Some(vstd::utf8::decode_utf8(name))
    } else {
        None
    }
}

/// A single ASCII letter.
pub open spec fn is_letter(name: Seq<u8>) -> bool {
    name.len() == 1 && ((65 <= name[0] && name[0] <= 90) || (97 <= name[0] && name[0] <= 122))
}

/// The artist and the album of a path of the form Letter/Artist/Album/File.
pub open spec fn artist_album_of(components: Seq<Component<u8>>) -> Option<
    (Seq<char>, Seq<char>),
> {
    let n = components.len();
    if n < 4 || components[n - 1] is Root {
        None
    } else {
        match (components[n - 4], components[n - 3], components[n - 2]) {
            (Component::Normal(letter), Component::Normal(artist), Component::Normal(album)) => {
                if is_letter(letter) {
                    match (proper_text(artist), proper_text(album)) {
                        (Some(a), Some(b)) => Some((a, b)),
                        _ => None,
                    }
                } else {
                    None
                }
            },
            _ => None,
        }
    }
}

/// The artist of a path of the form Letter/Artist/Album/File.
pub open spec fn artist_of_path(source: Seq<u8>) -> Option<Seq<char>> {
    match artist_album_of(path::components(source)) {
        Some(both) => Some(both.0),
        None => None,
    }
}

/// The album of a path of the form Letter/Artist/Album/File.
pub open spec fn album_of_path(source: Seq<u8>) -> Option<Seq<char>> {
    match artist_album_of(path::components(source)) {
        Some(both) => Some(both.1),
        None => None,
    }
}

/// Whether a text is not blank.
pub(crate) fn is_not_blank(s: &str) -> (r: bool)
    ensures
        r == (text::trimmed(s@).len() > 0),
{
    let chars = chars_of(s);
    trim_chars(&chars).len() > 0
}

/// A name that is UTF-8 and not blank, as a text.
fn read_proper_text(name: Vec<u8>) -> (r: Option<String>)
    ensures
        text::text_of(r) == proper_text(name@),
{
    match utf8_to_text(name) {
        Some(known) => {
            if is_not_blank(&known) {
                Some(known)
            } else {
                None
            }
        },
        None => None,
    }
}

/// The artist and the album of a path of the form Letter/Artist/Album/File.
pub fn folder_artist_album(source: &LocalPath) -> (r: (Option<String>, Option<String>))
    ensures
        text::text_of(r.0) == artist_of_path(source@),
        text::text_of(r.1) == album_of_path(source@),
{
    let parts = split_path(&source.bytes);
    let ghost all = path::components(source@);
    let n: usize = parts.len();
    assert(n == all.len());
    if n < 4 {
        return (None, None);
    }
    proof {
        assert(all[n - 1] == parts@[n - 1]@);
        assert(all[n - 2] == parts@[n - 2]@);
        assert(all[n - 3] == parts@[n - 3]@);
        assert(all[n - 4] == parts@[n - 4]@);
    }
    match &parts[n - 1] {
        Part::Root => return (None, None),
        _ => {},
    }
    match (name_at(&parts, n - 4), name_at(&parts, n - 3), name_at(&parts, n - 2)) {
        (Some(letter), Some(artist), Some(album)) => {
            if letter.len() == 1 && ((65 <= letter[0] && letter[0] <= 90) || (97 <= letter[0]
                && letter[0] <= 122)) {
                match (read_proper_text(artist), read_proper_text(album)) {
                    (Some(a), Some(b)) => (Some(a), Some(b)),
                    _ => (None, None),
                }
            } else {
                (None, None)
            }
        },
        _ => (None, None),
    }
}

/// The name of the directory that a file lies in.
pub open spec fn local_album_name(source: Seq<u8>) -> Seq<char> {
    match path::parent_name(path::components(source)) {
        Some(name) => path::lossy_text(name),
        None => "Unknown Album"@,
    }
}

/// The name of the directory that a file lies in.
pub fn local_album_folder_name(source: &LocalPath) -> (r: String)
    ensures
        r@ == local_album_name(source@),
{
    let parts = split_path(&source.bytes);
    let ghost all = path::components(source@);
    let n: usize = parts.len();
    proof {
        assert(n == all.len());
        if n >= 1 {
            assert(all.last() == parts@[n - 1]@);
        }
        if n >= 2 {
            assert(all.drop_last().last() == parts@[n - 2]@);
        }
    }
    if n < 2 {
        return copy_text("Unknown Album");
    }
    match &parts[n - 1] {
        Part::Root => return copy_text("Unknown Album"),
        _ => {},
    }
    match name_at(&parts, n - 2) {
        Some(name) => bytes_to_text(&name),
        None => copy_text("Unknown Album"),
    }
}

// ---------------------------------------------------------------------------
// Tags and properties
// ---------------------------------------------------------------------------

/// A date of a tag.
#[derive(Debug, Clone, Copy)]
pub struct TagDate {
    pub year: u16,
    pub month: Option<u8>,
    pub day: Option<u8>,
    pub hour: Option<u8>,
    pub minute: Option<u8>,
    pub second: Option<u8>,
}

/// The fields of a tag.
#[derive(Debug)]
pub struct TagFields {
    pub title: Option<String>,
    pub artist: Option<String>,
    pub album: Option<String>,
    pub genre: Option<String>,
    pub date: Option<TagDate>,
    pub track: Option<u32>,
}

/// The properties of an audio stream.
#[derive(Debug, Clone, Copy)]
pub struct AudioProperties {
    pub duration_millis: u128,
    pub sample_rate: Option<u32>,
    pub channels: Option<u8>,
    pub bitrate_kbps: Option<u32>,
}

/// What the device is told of a track.
#[derive(Debug)]
pub struct UploadTrackMetadata {
    pub title: Option<String>,
    pub artist: Option<String>,
    pub album: Option<String>,
    pub genre: Option<String>,
    pub date: Option<String>,
    pub tracknumber: u16,
    pub duration: u32,
    pub samplerate: u32,
    pub nochannels: u16,
    pub wavecodec: u32,
    pub bitrate: u32,
    pub bitratetype: u16,
}

/// What the device is told of a track, as a mathematical value.
#[verifier::ext_equal]
pub struct MetadataView {
    pub title: Option<Seq<char>>,
    pub artist: Option<Seq<char>>,
    pub album: Option<Seq<char>>,
    pub genre: Option<Seq<char>>,
    pub date: Option<Seq<char>>,
    pub tracknumber: u16,
    pub duration: u32,
    pub samplerate: u32,
    pub nochannels: u16,
    pub wavecodec: u32,
    pub bitrate: u32,
    pub bitratetype: u16,
}

impl View for UploadTrackMetadata {
    type V = MetadataView;

    open spec fn view(&self) -> MetadataView {
        MetadataView {
            title: text::text_of(self.title),
            artist: text::text_of(self.artist),
            album: text::text_of(self.album),
            genre: text::text_of(self.genre),
            date: text::text_of(self.date),
            tracknumber: self.tracknumber,
            duration: self.duration,
            samplerate: self.samplerate,
            nochannels: self.nochannels,
            wavecodec: self.wavecodec,
            bitrate: self.bitrate,
            bitratetype: self.bitratetype,
        }
    }
}

/// A number, or a default where there is none.
pub open spec fn number_or(value: Option<u8>, default: nat) -> nat {
    match value {
        Some(v) => v as nat,
        None => default,
    }
}

/// A date as the device writes it: the parts that are missing are the first ones there are.
pub open spec fn date_text(date: TagDate) -> Seq<char> {
    text::decimal_padded(date.year as nat, 4) + text::decimal_padded(number_or(date.month, 1), 2)
        + text::decimal_padded(number_or(date.day, 1), 2) + "T"@ + text::decimal_padded(
        number_or(date.hour, 0),
        2,
    ) + text::decimal_padded(number_or(date.minute, 0), 2) + text::decimal_padded(
        number_or(date.second, 0),
        2,
    ) + ".0"@
}

/// A text that is not blank.
pub open spec fn not_blank(s: Option<Seq<char>>) -> Option<Seq<char>> {
    match s {
        Some(t) if text::trimmed(t).len() > 0 => Some(t),
        _ => None,
    }
}

/// The first text that is there.
pub open spec fn first_of(a: Option<Seq<char>>, b: Option<Seq<char>>) -> Option<Seq<char>> {
    match a {
        Some(t) => Some(t),
        None => b,
    }
}

/// The title of a file without one: its name without the extension.
pub open spec fn fallback_title(source: Seq<u8>, filename: Seq<u8>) -> Seq<char> {
    match path::file_name(path::components(source)) {
        Some(name) => path::lossy_text(path::stem(name)),
        None => path::lossy_text(filename),
    }
}

/// The fields of a tag, as mathematical values.
#[verifier::ext_equal]
pub struct TagView {
    pub title: Option<Seq<char>>,
    pub artist: Option<Seq<char>>,
    pub album: Option<Seq<char>>,
    pub genre: Option<Seq<char>>,
    pub date: Option<TagDate>,
    pub track: Option<u32>,
}

/// The fields of a file's tag: all of them empty where it has no tag.
pub open spec fn tag_view(tag: Option<TagFields>) -> TagView {
    match tag {
        Some(t) => TagView {
            title: text::text_of(t.title),
            artist: text::text_of(t.artist),
            album: text::text_of(t.album),
            genre: text::text_of(t.genre),
            date: t.date,
            track: t.track,
        },
        None => TagView {
            title: None,
            artist: None,
            album: None,
            genre: None,
            date: None,
            track: None,
        },
    }
}

/// What the device is told of a track. The tags count before what the path says, and a property
/// that is missing or too large is an error.
pub open spec fn metadata_of(
    source: Seq<u8>,
    filename: Seq<u8>,
    tag: TagView,
    properties: AudioProperties,
    bitratetype: Result<u16, Seq<char>>,
) -> Result<MetadataView, Seq<char>> {
    if properties.duration_millis > u32::MAX {
        Err("audio duration is too large for MTP metadata"@)
    } else if properties.sample_rate is None || properties.sample_rate == Some(0u32) {
        Err("audio sample rate could not be determined"@)
    } else if properties.channels is None || properties.channels == Some(0u8) {
        Err("audio channel count could not be determined"@)
    } else if properties.bitrate_kbps is None || properties.bitrate_kbps == Some(0u32) {
        Err("audio bitrate could not be determined"@)
    } else if properties.bitrate_kbps->0 * 1000 > u32::MAX {
        Err("audio bitrate is too large for MTP metadata"@)
    } else if tag.track is Some && tag.track->0 > u16::MAX {
        Err("track number is too large for MTP metadata"@)
    } else {
        match bitratetype {
            Err(error) => Err(error),
            Ok(kind) => Ok(
                MetadataView {
                    title: Some(
                        match tag.title {
                            Some(t) if t.len() > 0 => t,
                            _ => fallback_title(source, filename),
                        },
                    ),
                    artist: first_of(not_blank(tag.artist), artist_of_path(source)),
                    album: first_of(not_blank(tag.album), album_of_path(source)),
                    genre: tag.genre,
                    date: match tag.date {
                        Some(date) => Some(date_text(date)),
                        None => None,
                    },
                    tracknumber: match tag.track {
                        Some(track) => track as u16,
                        None => 0,
                    },
                    duration: properties.duration_millis as u32,
                    samplerate: properties.sample_rate->0,
                    nochannels: properties.channels->0 as u16,
                    wavecodec: 0x55,
                    bitrate: (properties.bitrate_kbps->0 * 1000) as u32,
                    bitratetype: kind,
                },
            ),
        }
    }
}

/// A number, or a default where there is none.
fn read_number_or(value: Option<u8>, default: u8) -> (r: u64)
    ensures
        r == number_or(value, default as nat),
{
    match value {
        Some(v) => v as u64,
        None => default as u64,
    }
}

/// A date as the device writes it.
fn write_date(date: &TagDate) -> (r: String)
    ensures
        r@ == date_text(*date),
{
    let mut r = padded_string(date.year as u64, 4);
    r.append(&padded_string(read_number_or(date.month, 1), 2));
    r.append(&padded_string(read_number_or(date.day, 1), 2));
    r.append("T");
    r.append(&padded_string(read_number_or(date.hour, 0), 2));
    r.append(&padded_string(read_number_or(date.minute, 0), 2));
    r.append(&padded_string(read_number_or(date.second, 0), 2));
    r.append(".0");
    r
}

/// A text that is not blank, or another one.
fn not_blank_or(s: &Option<String>, other: Option<String>) -> (r: Option<String>)
    ensures
        text::text_of(r) == first_of(not_blank(text::text_of(*s)), text::text_of(other)),
{
    match s {
        Some(t) => {
            if is_not_blank(t) {
                Some(t.clone())
            } else {
                other
            }
        },
        None => other,
    }
}

/// The title of a file: that of its tag, or its name without the extension.
fn read_title(title: &Option<String>, source: &LocalPath, filename: &Vec<u8>) -> (r: String)
    ensures
        r@ == (match text::text_of(*title) {
            Some(t) if t.len() > 0 => t,
            _ => fallback_title(source@, filename@),
        }),
{
    if let Some(t) = title {
        if !t.as_str().is_empty() {
            return t.clone();
        }
    }
    match last_name(&source.bytes) {
        Some(name) => bytes_to_text(&name_stem(&name)),
        None => bytes_to_text(filename),
    }
}

/// The text of a result's error.
pub open spec fn reading_of(r: Result<u16, String>) -> Result<u16, Seq<char>> {
    match r {
        Ok(kind) => Ok(kind),
        Err(error) => Err(error@),
    }
}

impl UploadTrackMetadata {
    /// What the device is told of a track, from the file's tag, its audio properties and the kind
    /// of its bit rate.
    pub fn read(
        source: &LocalPath,
        filename: &Vec<u8>,
        tag: &Option<TagFields>,
        properties: &AudioProperties,
        bitratetype: Result<u16, String>,
    ) -> (r: Result<Self, String>)
        ensures
            (match r {
                Ok(metadata) => metadata_of(
                    source@,
                    filename@,
                    tag_view(*tag),
                    *properties,
                    reading_of(bitratetype),
                ) == Ok::<MetadataView, Seq<char>>(metadata@),
                Err(error) => metadata_of(
                    source@,
                    filename@,
                    tag_view(*tag),
                    *properties,
                    reading_of(bitratetype),
                ) == Err::<MetadataView, Seq<char>>(error@),
            }),
    {
        if properties.duration_millis > u32::MAX as u128 {
            return Err(copy_text("audio duration is too large for MTP metadata"));
        }
        let samplerate: u32 = match properties.sample_rate {
            Some(rate) => rate,
            None => 0,
        };
        if samplerate == 0 {
            return Err(copy_text("audio sample rate could not be determined"));
        }
        let nochannels: u8 = match properties.channels {
            Some(channels) => channels,
            None => 0,
        };
        if nochannels == 0 {
            return Err(copy_text("audio channel count could not be determined"));
        }
        let bitrate_kbps: u32 = match properties.bitrate_kbps {
            Some(rate) => rate,
            None => 0,
        };
        if bitrate_kbps == 0 {
            return Err(copy_text("audio bitrate could not be determined"));
        }
        let bitrate: u32 = match bitrate_kbps.checked_mul(1000) {
            Some(bitrate) => bitrate,
            None => return Err(copy_text("audio bitrate is too large for MTP metadata")),
        };
        let empty = TagFields {
            title: None,
            artist: None,
            album: None,
            genre: None,
            date: None,
            track: None,
        };
        let fields: &TagFields = match tag {
            Some(fields) => fields,
            None => &empty,
        };
        let tracknumber: u16 = match fields.track {
            Some(track) => {
                if track > u16::MAX as u32 {
                    return Err(copy_text("track number is too large for MTP metadata"));
                }
                track as u16
            },
            None => 0,
        };
        let kind: u16 = match bitratetype {
            Ok(kind) => kind,
            Err(error) => return Err(error),
        };
        let (folder_artist, folder_album) = folder_artist_album(source);
        let date = match &fields.date {
            Some(date) => Some(write_date(date)),
            None => None,
        };
        Ok(
            UploadTrackMetadata {
                title: Some(read_title(&fields.title, source, filename)),
                artist: not_blank_or(&fields.artist, folder_artist),
                album: not_blank_or(&fields.album, folder_album),
                genre: copy_optional(&fields.genre),
                date,
                tracknumber,
                duration: properties.duration_millis as u32,
                samplerate,
                nochannels: nochannels as u16,
                wavecodec: 0x55,
                bitrate,
                bitratetype: kind,
            },
        )
    }
}

/// The artist of a file: that of its tag, or that of its path.
pub fn detect_artist(tag_artist: &Option<String>, source: &LocalPath) -> (r: Option<String>)
    ensures
        text::text_of(r) == first_of(not_blank(text::text_of(*tag_artist)), artist_of_path(source@)),
{
    not_blank_or(tag_artist, folder_artist_album(source).0)
}

/// A tag that names an artist and an album counts before what the path says of them.
pub proof fn lemma_tags_take_precedence(
    source: Seq<u8>,
    filename: Seq<u8>,
    tag: TagView,
    properties: AudioProperties,
    bitratetype: Result<u16, Seq<char>>,
)
    ensures
        metadata_of(source, filename, tag, properties, bitratetype) matches Ok(m) ==> {
            &&& not_blank(tag.artist) is Some ==> m.artist == tag.artist
            &&& not_blank(tag.artist) is None ==> m.artist == artist_of_path(source)
            &&& not_blank(tag.album) is Some ==> m.album == tag.album
            &&& not_blank(tag.album) is None ==> m.album == album_of_path(source)
            &&& m.title is Some
        },
{
}

// ---------------------------------------------------------------------------
// What holds of audio files
// ---------------------------------------------------------------------------

/// The type of a file is told by its extension alone, and each of the seven known extensions has its
/// own.
pub proof fn lemma_file_types(extension: Seq<char>)
    ensures
        type_of_extension(extension) == FileType::Wav <==> extension == "wav"@,
        type_of_extension(extension) == FileType::Mp3 <==> extension == "mp3"@,
        type_of_extension(extension) == FileType::Wma <==> extension == "wma"@,
        type_of_extension(extension) == FileType::Ogg <==> extension == "ogg"@,
        type_of_extension(extension) == FileType::Aac <==> extension == "aac"@,
        type_of_extension(extension) == FileType::Flac <==> extension == "flac"@,
        type_of_extension(extension) == FileType::M4a <==> extension == "m4a"@,
        type_of_extension(extension) == FileType::Unknown <==> extension != "wav"@ && extension
            != "mp3"@ && extension != "wma"@ && extension != "ogg"@ && extension != "aac"@
            && extension != "flac"@ && extension != "m4a"@,
{
    reveal_strlit("wav");
    reveal_strlit("mp3");
    reveal_strlit("wma");
    reveal_strlit("ogg");
    reveal_strlit("aac");
    reveal_strlit("flac");
    reveal_strlit("m4a");
    assert("wav"@[0] != "mp3"@[0] && "wav"@[1] != "wma"@[1] && "wav"@[0] != "ogg"@[0]);
    assert("wav"@[0] != "aac"@[0] && "wav"@[0] != "m4a"@[0]);
    assert("mp3"@[0] != "wma"@[0] && "mp3"@[0] != "ogg"@[0] && "mp3"@[0] != "aac"@[0]);
    assert("mp3"@[1] != "m4a"@[1]);
    assert("wma"@[0] != "ogg"@[0] && "wma"@[0] != "aac"@[0] && "wma"@[0] != "m4a"@[0]);
    assert("ogg"@[0] != "aac"@[0] && "ogg"@[0] != "m4a"@[0] && "aac"@[0] != "m4a"@[0]);
    assert("flac"@.len() == 4);
}

/// A file counts by the extension of its own name, in whatever case and wherever it lies.
pub proof fn lemma_extension_of_name(base: Seq<u8>, name: Seq<u8>)
    requires
        path::is_proper_name(name),
    ensures
        ({
            let source = local_path::joined_path(base, name);
            match path::extension(name) {
                Some(extension) => vstd::utf8::valid_utf8(extension)
                    ==> text::eq_ignoring_ascii_case(
                    lower_extension(source),
                    vstd::utf8::decode_utf8(extension),
                ) && forall|i: int|
                    0 <= i < lower_extension(source).len() ==> !('A' <= #[trigger] lower_extension(
                        source,
                    )[i] <= 'Z'),
                None => lower_extension(source).len() == 0,
            }
        }),
{
    local_path::lemma_joined_name(base, name);
    let source = local_path::joined_path(base, name);
    assert(path::components(source).last() == Component::Normal(name));
    if let Some(extension) = path::extension(name) {
        if vstd::utf8::valid_utf8(extension) {
            let s = vstd::utf8::decode_utf8(extension);
            assert(text::ascii_lower_text(text::ascii_lower_text(s)) =~= text::ascii_lower_text(
                s,
            ));
        }
    }
}

/// A tag at the start of a file ends where the sizes in its header say: ten bytes for the header, the
/// size of the tag in four groups of seven bits, the highest first, and ten bytes more where the
/// flag for a footer is set. Without a tag the sound starts at once.
pub proof fn lemma_audio_offset(header: Seq<u8>)
    requires
        header.len() >= 10,
    ensures
        !(header[0] == 0x49 && header[1] == 0x44 && header[2] == 0x33) ==> audio_offset(header)
            == 0,
        header[0] == 0x49 && header[1] == 0x44 && header[2] == 0x33 ==> {
            let footer: int = if header[5] & 0x10u8 != 0 {
                10
            } else {
                0
            };
            let size = audio_offset(header) - 10 - footer;
            &&& 0 <= size < 0x1000_0000
            &&& size / 0x20_0000 == header[6] & 0x7fu8
            &&& (size / 0x4000) % 0x80 == header[7] & 0x7fu8
            &&& (size / 0x80) % 0x80 == header[8] & 0x7fu8
            &&& size % 0x80 == header[9] & 0x7fu8
        },
{
    lemma_low_bits(header[6]);
    lemma_low_bits(header[7]);
    lemma_low_bits(header[8]);
    lemma_low_bits(header[9]);
    let flags = header[5];
    assert((flags & 0x10u8 != 0) == ((flags / 16u8) % 2u8 == 1)) by (bit_vector);
}

proof fn lemma_low_bits(b: u8)
    ensures
        b & 0x7fu8 == b % 128,
{
    assert(b & 0x7fu8 == b % 128u8) by (bit_vector);
}

/// A header for a variable bitrate is found wherever one of its two marks stands in the frames.
pub proof fn lemma_vbr_header(frames: Seq<u8>)
    ensures
        has_vbr_header(frames) <==> exists|i: int|
            {
                &&& 0 <= i
                &&& i + 4 <= frames.len()
                &&& {
                    ||| #[trigger] frames.subrange(i, i + 4) == seq![0x58u8, 0x69u8, 0x6eu8, 0x67u8]
                    ||| frames.subrange(i, i + 4) == seq![0x56u8, 0x42u8, 0x52u8, 0x49u8]
                }
            },
{
    let xing = seq![0x58u8, 0x69u8, 0x6eu8, 0x67u8];
    let vbri = seq![0x56u8, 0x42u8, 0x52u8, 0x49u8];
    assert forall|i: int| 0 <= i && i + 4 <= frames.len() implies #[trigger] vbr_header_at(
        frames,
        i,
    ) == (frames.subrange(i, i + 4) == xing || frames.subrange(i, i + 4) == vbri) by {
        let part = frames.subrange(i, i + 4);
        assert(part[0] == frames[i] && part[1] == frames[i + 1] && part[2] == frames[i + 2]
            && part[3] == frames[i + 3]);
        if vbr_header_at(frames, i) {
            assert(part =~= xing || part =~= vbri);
        }
    }
    if has_vbr_header(frames) {
        let i = choose|i: int|
            0 <= i && i + 4 <= frames.len() && #[trigger] vbr_header_at(frames, i);
        assert(frames.subrange(i, i + 4) == xing || frames.subrange(i, i + 4) == vbri);
    }
    if exists|i: int|
        {
            &&& 0 <= i
            &&& i + 4 <= frames.len()
            &&& #[trigger] frames.subrange(i, i + 4) == xing || frames.subrange(i, i + 4) == vbri
        } {
        let i = choose|i: int|
            {
                &&& 0 <= i
                &&& i + 4 <= frames.len()
                &&& #[trigger] frames.subrange(i, i + 4) == xing || frames.subrange(i, i + 4)
                    == vbri
            };
        assert(vbr_header_at(frames, i));
    }
}

/// A name is UTF-8 and holds a character that is not white space.
pub open spec fn is_named(name: Seq<u8>) -> bool {
    vstd::utf8::valid_utf8(name) && !text::is_blank(vstd::utf8::decode_utf8(name))
}

/// A file that lies in a directory of an album, this in one of an artist, and this in one named by a
/// letter, is by that artist and of that album, whatever stands above. Where the uppermost of the
/// three is no letter, or one of the other two has no proper name, the path tells nothing.
pub proof fn lemma_artist_and_album_of_path(
    base: Seq<u8>,
    letter: Seq<u8>,
    artist: Seq<u8>,
    album: Seq<u8>,
    file: Seq<u8>,
)
    requires
        path::is_proper_name(letter),
        path::is_proper_name(artist),
        path::is_proper_name(album),
        path::is_proper_name(file),
    ensures
        ({
            let source = local_path::joined_path(
                local_path::joined_path(
                    local_path::joined_path(local_path::joined_path(base, letter), artist),
                    album,
                ),
                file,
            );
            let is_letter = letter.len() == 1 && (0x41 <= letter[0] <= 0x5a || 0x61 <= letter[0]
                <= 0x7a);
            if is_letter && is_named(artist) && is_named(album) {
                artist_of_path(source) == Some(vstd::utf8::decode_utf8(artist)) && album_of_path(
                    source,
                ) == Some(vstd::utf8::decode_utf8(album))
            } else {
                artist_of_path(source) is None && album_of_path(source) is None
            }
        }),
{
    let one = local_path::joined_path(base, letter);
    let two = local_path::joined_path(one, artist);
    let three = local_path::joined_path(two, album);
    let source = local_path::joined_path(three, file);
    local_path::lemma_joined_name(base, letter);
    local_path::lemma_joined_name(one, artist);
    local_path::lemma_joined_name(two, album);
    local_path::lemma_joined_name(three, file);
    let all = path::components(source);
    let n = all.len() as int;
    assert(all[n - 1] == Component::Normal(file));
    assert(all[n - 2] == Component::Normal(album));
    assert(all[n - 3] == Component::Normal(artist));
    assert(all[n - 4] == Component::Normal(letter));
    lemma_proper_text(artist);
    lemma_proper_text(album);
}

proof fn lemma_proper_text(name: Seq<u8>)
    ensures
        proper_text(name) is Some <==> is_named(name),
        is_named(name) ==> proper_text(name) == Some(vstd::utf8::decode_utf8(name)),
{
    lemma_trimmed_is_empty(vstd::utf8::decode_utf8(name));
}

/// Nothing is left of a text when it is trimmed exactly where it is blank.
proof fn lemma_trimmed_is_empty(s: Seq<char>)
    ensures
        text::trimmed(s).len() == 0 <==> text::is_blank(s),
{
    text::lemma_trimmed(s);
    let (before, behind) = choose|before: Seq<char>, behind: Seq<char>|
        s == #[trigger] (before + text::trimmed(s) + behind) && text::is_blank(before)
            && text::is_blank(behind);
    let n = before.len() as int;
    if text::trimmed(s).len() > 0 {
        assert(s[n] == text::trimmed(s)[0]);
    } else {
        assert forall|i: int| 0 <= i < s.len() implies text::white_space(#[trigger] s[i]) by {
            if i < n {
                assert(s[i] == before[i]);
            } else {
                assert(s[i] == behind[i - n]);
            }
        }
    }
}

/// A path with fewer than four components names no artist and no album.
pub proof fn lemma_short_path_tells_nothing(source: Seq<u8>)
    requires
        path::components(source).len() < 4,
    ensures
        artist_of_path(source) is None,
        album_of_path(source) is None,
{
}

/// The album of a file without a tag is named after the directory it lies in; its title, after the
/// file itself without the extension.
pub proof fn lemma_names_without_tags(base: Seq<u8>, album: Seq<u8>, file: Seq<u8>, sent: Seq<u8>)
    requires
        path::is_proper_name(album),
        path::is_proper_name(file),
    ensures
        ({
            let source = local_path::joined_path(local_path::joined_path(base, album), file);
            &&& local_album_name(source) == path::lossy_text(album)
            &&& fallback_title(source, sent) == path::lossy_text(path::stem(file))
        }),
{
    let one = local_path::joined_path(base, album);
    let source = local_path::joined_path(one, file);
    local_path::lemma_joined_name(base, album);
    local_path::lemma_joined_name(one, file);
    assert(path::components(source).drop_last() =~= path::components(one));
}

/// A file whose directory has no name is of an unknown album.
pub proof fn lemma_unknown_album(source: Seq<u8>)
    ensures
        ({
            let all = path::components(source);
            let n = all.len() as int;
            n < 2 || all[n - 1] is Root || !(all[n - 2] is Normal) ==> local_album_name(source)
                == "Unknown Album"@
        }),
{
}

/// A date is given as eight digits, a T, six digits and ".0": the year, month and day, and the hour,
/// minute and second. What a tag leaves out is the first month or day, or zero.
pub proof fn lemma_date_text(date: TagDate)
    requires
        date.year < 10000,
        date.month matches Some(v) ==> v < 100,
        date.day matches Some(v) ==> v < 100,
        date.hour matches Some(v) ==> v < 100,
        date.minute matches Some(v) ==> v < 100,
        date.second matches Some(v) ==> v < 100,
    ensures
        ({
            let s = date_text(date);
            &&& s.len() == 17
            &&& text::digits_value(s.subrange(0, 4), 10) == Some(date.year as nat)
            &&& text::digits_value(s.subrange(4, 6), 10) == Some(
                (if date.month is Some {
                    date.month->0 as nat
                } else {
                    1
                }),
            )
            &&& text::digits_value(s.subrange(6, 8), 10) == Some(
                (if date.day is Some {
                    date.day->0 as nat
                } else {
                    1
                }),
            )
            &&& s[8] == 'T'
            &&& text::digits_value(s.subrange(9, 11), 10) == Some(
                (if date.hour is Some {
                    date.hour->0 as nat
                } else {
                    0
                }),
            )
            &&& text::digits_value(s.subrange(11, 13), 10) == Some(
                (if date.minute is Some {
                    date.minute->0 as nat
                } else {
                    0
                }),
            )
            &&& text::digits_value(s.subrange(13, 15), 10) == Some(
                (if date.second is Some {
                    date.second->0 as nat
                } else {
                    0
                }),
            )
            &&& s[15] == '.'
            &&& s[16] == '0'
        }),
{
    reveal_strlit("T");
    reveal_strlit(".0");
    let s = date_text(date);
    let year = text::decimal_padded(date.year as nat, 4);
    let month = text::decimal_padded(number_or(date.month, 1), 2);
    let day = text::decimal_padded(number_or(date.day, 1), 2);
    let hour = text::decimal_padded(number_or(date.hour, 0), 2);
    let minute = text::decimal_padded(number_or(date.minute, 0), 2);
    let second = text::decimal_padded(number_or(date.second, 0), 2);
    lemma_fixed_width(date.year as nat, 4);
    lemma_fixed_width(number_or(date.month, 1), 2);
    lemma_fixed_width(number_or(date.day, 1), 2);
    lemma_fixed_width(number_or(date.hour, 0), 2);
    lemma_fixed_width(number_or(date.minute, 0), 2);
    lemma_fixed_width(number_or(date.second, 0), 2);
    assert(s.subrange(0, 4) =~= year);
    assert(s.subrange(4, 6) =~= month);
    assert(s.subrange(6, 8) =~= day);
    assert(s.subrange(9, 11) =~= hour);
    assert(s.subrange(11, 13) =~= minute);
    assert(s.subrange(13, 15) =~= second);
}

/// A number of few digits that is padded to two or four places has that many, and its value.
proof fn lemma_fixed_width(n: nat, width: nat)
    requires
        width == 2 && n < 100 || width == 4 && n < 10000,
    ensures
        text::decimal_padded(n, width).len() == width,
        text::digits_value(text::decimal_padded(n, width), 10) == Some(n),
{
    let digits = text::decimal(n);
    reveal_with_fuel(text::decimal, 4);
    assert(digits.len() <= width);
    text::lemma_decimal(n);
    lemma_leading_zeros(digits, (width - digits.len()) as nat, n);
}

proof fn lemma_leading_zeros(digits: Seq<char>, more: nat, n: nat)
    requires
        text::digits_value(digits, 10) == Some(n),
    ensures
        text::digits_value(Seq::new(more, |i: int| '0') + digits, 10) == Some(n),
    decreases digits.len(), more,
{
    let zeros = Seq::new(more, |i: int| '0');
    let all = zeros + digits;
    if digits.len() > 0 {
        let front = digits.drop_last();
        assert(all.drop_last() =~= zeros + front);
        lemma_leading_zeros(front, more, text::digits_value(front, 10)->0);
    } else if more > 0 {
        let fewer = Seq::new((more - 1) as nat, |i: int| '0');
        assert(all.drop_last() =~= fewer + digits);
        lemma_leading_zeros(digits, (more - 1) as nat, n);
    } else {
        assert(all =~= digits);
    }
}

/// What is sent of a file's tags and properties: the tags as they are, and the properties in the
/// units of the device. A file is refused exactly where a property is missing or too large.
pub proof fn lemma_metadata(
    source: Seq<u8>,
    filename: Seq<u8>,
    tag: TagView,
    properties: AudioProperties,
    bitratetype: Result<u16, Seq<char>>,
)
    ensures
        ({
            let known = {
                &&& properties.sample_rate matches Some(v) && v > 0
                &&& properties.channels matches Some(v) && v > 0
                &&& properties.bitrate_kbps matches Some(v) && v > 0
            };
            let fits = {
                &&& properties.duration_millis <= u32::MAX
                &&& properties.bitrate_kbps matches Some(v) ==> v * 1000 <= u32::MAX
                &&& tag.track matches Some(v) ==> v <= u16::MAX
            };
            match metadata_of(source, filename, tag, properties, bitratetype) {
                Ok(m) => {
                    &&& known && fits && bitratetype == Ok::<u16, Seq<char>>(m.bitratetype)
                    &&& (tag.title matches Some(t) && t.len() > 0) ==> m.title == tag.title
                    &&& !(tag.title matches Some(t) && t.len() > 0) ==> m.title == Some(
                        fallback_title(source, filename),
                    )
                    &&& (tag.artist matches Some(t) && !text::is_blank(t)) ==> m.artist
                        == tag.artist
                    &&& !(tag.artist matches Some(t) && !text::is_blank(t)) ==> m.artist
                        == artist_of_path(source)
                    &&& (tag.album matches Some(t) && !text::is_blank(t)) ==> m.album == tag.album
                    &&& !(tag.album matches Some(t) && !text::is_blank(t)) ==> m.album
                        == album_of_path(source)
                    &&& m.genre == tag.genre
                    &&& tag.date is None <==> m.date is None
                    &&& tag.date matches Some(date) ==> m.date == Some(date_text(date))
                    &&& tag.track is None ==> m.tracknumber == 0
                    &&& tag.track matches Some(v) ==> m.tracknumber == v
                    &&& m.duration == properties.duration_millis
                    &&& properties.sample_rate == Some(m.samplerate)
                    &&& m.nochannels == properties.channels->0
                    &&& m.bitrate == properties.bitrate_kbps->0 * 1000
                    &&& m.wavecodec == 0x55
                },
                Err(error) => {
                    ||| !known
                    ||| !fits
                    ||| bitratetype == Err::<u16, Seq<char>>(error)
                },
            }
        }),
{
    if let Some(t) = tag.artist {
        lemma_trimmed_is_empty(t);
    }
    if let Some(t) = tag.album {
        lemma_trimmed_is_empty(t);
    }
}

/// What is said of a file that is refused names what is wrong with it: the first that is missing or
/// too large.
pub proof fn lemma_metadata_errors(
    source: Seq<u8>,
    filename: Seq<u8>,
    tag: TagView,
    properties: AudioProperties,
    bitratetype: Result<u16, Seq<char>>,
)
    ensures
        metadata_of(source, filename, tag, properties, bitratetype) matches Err(error) ==> {
            let lasts = properties.duration_millis <= u32::MAX;
            let sampled = properties.sample_rate matches Some(v) && v > 0;
            let channelled = properties.channels matches Some(v) && v > 0;
            let rated = properties.bitrate_kbps matches Some(v) && v > 0;
            &&& !lasts ==> error == "audio duration is too large for MTP metadata"@
            &&& lasts && !sampled ==> error == "audio sample rate could not be determined"@
            &&& lasts && sampled && !channelled ==> error
                == "audio channel count could not be determined"@
            &&& lasts && sampled && channelled && !rated ==> error
                == "audio bitrate could not be determined"@
            &&& lasts && sampled && channelled && rated && properties.bitrate_kbps->0 * 1000
                > u32::MAX ==> error == "audio bitrate is too large for MTP metadata"@
            &&& lasts && sampled && channelled && rated && properties.bitrate_kbps->0 * 1000
                <= u32::MAX && tag.track is Some && tag.track->0 > u16::MAX ==> error
                == "track number is too large for MTP metadata"@
        },
{
}

/// A file counts as audio exactly where its extension, in lower case, is one of the seven known ones.
pub proof fn lemma_is_audio(source: Seq<u8>)
    ensures
        is_audio(source) <==> {
            let extension = lower_extension(source);
            ||| extension == "wav"@
            ||| extension == "mp3"@
            ||| extension == "wma"@
            ||| extension == "ogg"@
            ||| extension == "aac"@
            ||| extension == "flac"@
            ||| extension == "m4a"@
        },
{
    lemma_file_types(lower_extension(source));
}

} // verus!
