//! Normalized metadata of an audio file, assembled from what a probe of the
//! file gave.

use vstd::prelude::*;
use vstd::utf8::is_ascii_chars;
use crate::codec::{codec_short_name, registered_short_name};
use crate::tags::{merge_tag, merged_value, Tag, TagKey};
use crate::text::{
    ascii_lowercased, chars_of, contains_text, holds_text, lowercase, lowercased, text_of,
};

verus! {

/// A length of audio as a count of frames at a sample rate: `frames` divided
/// by `sample_rate` is the length in seconds.
#[derive(Debug, Clone, Copy, PartialEq, Eq)]
pub struct FrameSpan {
    /// The number of frames.
    pub frames: u64,
    /// Frames per second; never 0.
    pub sample_rate: u32,
}

/// The metadata of one audio file.
#[derive(Debug, Clone, PartialEq, Eq)]
pub struct AudioMetadata {
    /// The path under which the file was asked for.
    pub path: String,
    /// The length of the default track, where frame count and sample rate
    /// are both known.
    pub duration: Option<FrameSpan>,
    /// Frames per second.
    pub sample_rate: Option<u32>,
    /// The number of channels.
    pub channels: Option<u32>,
    /// Bits per sample.
    pub bit_depth: Option<u32>,
    /// The short name of the codec, where it is registered.
    pub codec: Option<String>,
    /// Whether the codec keeps the audio without loss.
    pub is_lossless: bool,
    /// The title of the track.
    pub title: Option<String>,
    /// The artist.
    pub artist: Option<String>,
    /// The album.
    pub album: Option<String>,
}

/// The mathematical value of an `AudioMetadata`.
pub ghost struct MetadataView {
    pub path: Seq<char>,
    pub duration: Option<FrameSpan>,
    pub sample_rate: Option<u32>,
    pub channels: Option<u32>,
    pub bit_depth: Option<u32>,
    pub codec: Option<Seq<char>>,
    pub is_lossless: bool,
    pub title: Option<Seq<char>>,
    pub artist: Option<Seq<char>>,
    pub album: Option<Seq<char>>,
}

impl View for AudioMetadata {
    type V = MetadataView;

    open spec fn view(&self) -> MetadataView {
        MetadataView {
            path: self.path@,
            duration: self.duration,
            sample_rate: self.sample_rate,
            channels: self.channels,
            bit_depth: self.bit_depth,
            codec: text_of(self.codec),
            is_lossless: self.is_lossless,
            title: text_of(self.title),
            artist: text_of(self.artist),
            album: text_of(self.album),
        }
    }
}

/// The record of a file of which nothing but the path is known.
pub open spec fn unknown(path: Seq<char>) -> MetadataView {
    MetadataView {
        path,
        duration: None,
        sample_rate: None,
        channels: None,
        bit_depth: None,
        codec: None,
        is_lossless: false,
        title: None,
        artist: None,
        album: None,
    }
}

impl AudioMetadata {
    /// The record of a file of which nothing but the path is known.
    pub fn unknown(path: String) -> (r: AudioMetadata)
        ensures
            r@ == unknown(path@),
    {
        AudioMetadata {
            path,
            duration: None,
            sample_rate: None,
            channels: None,
            bit_depth: None,
            codec: None,
            is_lossless: false,
            title: None,
            artist: None,
            album: None,
        }
    }
}

impl Default for AudioMetadata {
    fn default() -> (r: AudioMetadata)
        ensures
            r@ == unknown(Seq::empty()),
    {
        AudioMetadata::unknown(String::new())
    }
}

/// The parameters of a track, as the container gives them.
#[derive(Debug, PartialEq, Eq)]
pub struct TrackParams {
    /// Frames per second.
    pub sample_rate: Option<u32>,
    /// The number of channels.
    pub channels: Option<u32>,
    /// Bits per sample.
    pub bits_per_sample: Option<u32>,
    /// The number of frames.
    pub n_frames: Option<u64>,
    /// The codec of the track.
    pub codec: symphonia::core::codecs::CodecType,
}

/// What a probe of a file gave.
#[derive(Debug, PartialEq, Eq)]
pub struct Probed {
    /// The parameters of the default track, if the file has one.
    pub track: Option<TrackParams>,
    /// The tags at the level of the stream, in the order of the file.
    pub stream_tags: Vec<Tag>,
    /// The tags inside the container, in the order of the file.
    pub container_tags: Vec<Tag>,
}

/// The length of a track: known where frame count and sample rate are, and
/// the rate is not 0.
pub open spec fn duration_of(n_frames: Option<u64>, sample_rate: Option<u32>) -> Option<FrameSpan> {
    match (n_frames, sample_rate) {
        (Some(frames), Some(rate)) if rate > 0 => Some(FrameSpan { frames, sample_rate: rate }),
        _ => None,
    }
}

/// Whether a lowercase codec name belongs to a family that keeps the audio
/// without loss.
pub open spec fn is_lossless_name(name: Seq<char>) -> bool {
    ||| contains_text(name, "flac"@)
    ||| contains_text(name, "alac"@)
    ||| contains_text(name, "pcm"@)
    ||| contains_text(name, "wav"@)
    ||| contains_text(name, "aiff"@)
}

/// Whether a codec of this name, if it has one, keeps the audio without loss.
pub open spec fn is_lossless_codec(name: Option<Seq<char>>) -> bool {
    match name {
        Some(n) => is_lossless_name(lowercased(n)),
        None => false,
    }
}

/// The record of the file at `path`, from what the probe gave and the name
/// of the default track's codec.
pub open spec fn described(path: Seq<char>, probed: Probed, codec_name: Option<Seq<char>>) -> MetadataView {
    let title = merged_value(probed.stream_tags@, probed.container_tags@, TagKey::TrackTitle);
    let artist = merged_value(probed.stream_tags@, probed.container_tags@, TagKey::Artist);
    let album = merged_value(probed.stream_tags@, probed.container_tags@, TagKey::Album);
    match probed.track {
        Some(track) => MetadataView {
            path,
            duration: duration_of(track.n_frames, track.sample_rate),
            sample_rate: track.sample_rate,
            channels: track.channels,
            bit_depth: track.bits_per_sample,
            codec: codec_name,
            is_lossless: is_lossless_codec(codec_name),
            title,
            artist,
            album,
        },
        None => MetadataView { title, artist, album, ..unknown(path) },
    }
}

/// The name under which the codec of the default track is registered.
pub open spec fn track_codec_name(probed: Probed) -> Option<Seq<char>> {
    match probed.track {
        Some(track) => registered_short_name(track.codec),
        None => None,
    }
}

/// The length of a track with this frame count and sample rate.
pub fn track_duration(n_frames: Option<u64>, sample_rate: Option<u32>) -> (r: Option<FrameSpan>)
    ensures
        r == duration_of(n_frames, sample_rate),
        r matches Some(span) ==> span.sample_rate > 0,
{
    match (n_frames, sample_rate) {
        (Some(frames), Some(rate)) => {
            if rate > 0 {
                Some(FrameSpan { frames, sample_rate: rate })
            } else {
                None
            }
        },
        _ => None,
    }
}

/// Whether a codec of this name keeps the audio without loss.
pub fn is_lossless(codec_name: &str) -> (r: bool)
    ensures
        r == is_lossless_name(lowercased(codec_name@)),
        is_ascii_chars(codec_name@) ==> r == is_lossless_name(ascii_lowercased(codec_name@)),
{
    let lower = chars_of(lowercase(codec_name).as_str());
    holds_text(&lower, "flac") || holds_text(&lower, "alac") || holds_text(&lower, "pcm")
        || holds_text(&lower, "wav") || holds_text(&lower, "aiff")
}

/// Why the metadata of a file could not be extracted. Each variant carries
/// the cause as text.
#[derive(Debug, Clone, PartialEq, Eq)]
pub enum ExtractError {
    /// The file could not be opened or read.
    Io(String),
    /// The content matched no known container or codec.
    Probe(String),
}

impl ExtractError {
    /// The text of the message for this error.
    pub open spec fn message_text(&self) -> Seq<char> {
        match self {
            ExtractError::Io(cause) => "Failed to open file: "@ + cause@,
            ExtractError::Probe(cause) => "Failed to probe audio file: "@ + cause@,
        }
    }

    /// The message for this error: what failed, then the cause.
    pub fn message(&self) -> (r: String)
        ensures
            r@ == self.message_text(),
    {
        match self {
            ExtractError::Io(cause) => "Failed to open file: ".to_owned().concat(cause.as_str()),
            ExtractError::Probe(cause) => "Failed to probe audio file: ".to_owned().concat(
                cause.as_str(),
            ),
        }
    }
}

/// A path together with what opening and probing the file there gave.
#[derive(Debug, PartialEq, Eq)]
pub struct ProbeOutcome {
    /// The path under which the file was asked for.
    pub path: String,
    /// What the probe gave, or why there is none.
    pub outcome: Result<Probed, ExtractError>,
}

/// The record that a batch holds for one outcome: the described file where
/// the probe succeeded, else the record of an unknown file.
pub open spec fn batch_record(item: ProbeOutcome) -> MetadataView {
    match item.outcome {
        Ok(probed) => described(item.path@, probed, track_codec_name(probed)),
        Err(_) => unknown(item.path@),
    }
}

/// Assembles the record of the file at `path` from what the probe gave and
/// the name of the default track's codec. Without a default track the name
/// is not used.
pub fn assemble_metadata(path: &str, probed: &Probed, codec_name: Option<String>) -> (r:
    AudioMetadata)
    ensures
        r@ == described(path@, *probed, text_of(codec_name)),
        r.duration matches Some(span) ==> span.sample_rate > 0,
        probed.track is Some && codec_name is Some && is_ascii_chars(codec_name->0@)
            ==> r.is_lossless == is_lossless_name(ascii_lowercased(codec_name->0@)),
{
    let title = merge_tag(&probed.stream_tags, &probed.container_tags, TagKey::TrackTitle);
    let artist = merge_tag(&probed.stream_tags, &probed.container_tags, TagKey::Artist);
    let album = merge_tag(&probed.stream_tags, &probed.container_tags, TagKey::Album);
    match &probed.track {
        Some(track) => {
            let lossless = match &codec_name {
                Some(name) => is_lossless(name.as_str()),
                None => false,
            };
            AudioMetadata {
                path: path.to_owned(),
                duration: track_duration(track.n_frames, track.sample_rate),
                sample_rate: track.sample_rate,
                channels: track.channels,
                bit_depth: track.bits_per_sample,
                codec: codec_name,
                is_lossless: lossless,
                title,
                artist,
                album,
            }
        },
        None => AudioMetadata {
            path: path.to_owned(),
            duration: None,
            sample_rate: None,
            channels: None,
            bit_depth: None,
            codec: None,
            is_lossless: false,
            title,
            artist,
            album,
        },
    }
}

/// The record of the file at `path` from what the probe gave; the codec of
/// the default track is looked up in the registry.
pub fn describe(path: &str, probed: &Probed) -> (r: AudioMetadata)
    ensures
        r@ == described(path@, *probed, track_codec_name(*probed)),
        r.duration matches Some(span) ==> span.sample_rate > 0,
{
    let codec_name = match &probed.track {
        Some(track) => codec_short_name(track.codec),
        None => None,
    };
    assemble_metadata(path, probed, codec_name)
}

/// The record of the file at `path`, or the error with which opening or
/// probing it failed.
pub fn extract_metadata(path: &str, outcome: Result<Probed, ExtractError>) -> (r: Result<
    AudioMetadata,
    ExtractError,
>)
    ensures
        match outcome {
            Ok(probed) => r matches Ok(record) && record@ == described(
                path@,
                probed,
                track_codec_name(probed),
            ),
            Err(error) => r == Err::<AudioMetadata, ExtractError>(error),
        },
{
    match outcome {
        Ok(probed) => Ok(describe(path, &probed)),
        Err(error) => Err(error),
    }
}

/// The record of the file at `path`, or the message of the error with which
/// opening or probing it failed.
pub fn get_audio_metadata(path: String, outcome: Result<Probed, ExtractError>) -> (r: Result<
    AudioMetadata,
    String,
>)
    ensures
        match outcome {
            Ok(probed) => r matches Ok(record) && record@ == described(
                path@,
                probed,
                track_codec_name(probed),
            ),
            Err(error) => r matches Err(message) && message@ == error.message_text(),
        },
{
    match extract_metadata(path.as_str(), outcome) {
        Ok(record) => Ok(record),
        Err(error) => Err(error.message()),
    }
}

/// The records of a batch of files, one for each outcome and in the same
/// order. A file whose probe failed gets the record of an unknown file; the
/// batch itself never fails.
pub fn get_audio_metadata_batch(items: Vec<ProbeOutcome>) -> (r: Result<Vec<AudioMetadata>, String>)
    ensures
        r matches Ok(records) && records@.len() == items@.len() && forall|i: int|
            0 <= i < items@.len() ==> (#[trigger] records@[i])@ == batch_record(items@[i]),
{
    let mut records: Vec<AudioMetadata> = Vec::new();
    let mut i: usize = 0;
    while i < items.len()
        invariant
            i <= items.len(),
            records@.len() == i,
            forall|j: int| 0 <= j < i ==> (#[trigger] records@[j])@ == batch_record(items@[j]),
        decreases items.len() - i,
    {
        let item = &items[i];
        let record = match &item.outcome {
            Ok(probed) => describe(item.path.as_str(), probed),
            Err(_) => AudioMetadata::unknown(item.path.clone()),
        };
        records.push(record);
        i += 1;
    }
    Ok(records)
}

/// Without a sample rate a record has no duration, whatever the frame count.
pub proof fn lemma_no_rate_no_duration(path: Seq<char>, probed: Probed, codec_name: Option<Seq<char>>)
    requires
        probed.track matches Some(track) ==> track.sample_rate is None,
    ensures
        described(path, probed, codec_name).duration is None,
{
}

/// A record has a duration exactly when its track has a frame count and a
/// sample rate other than 0, and the duration then holds both.
pub proof fn lemma_duration(path: Seq<char>, probed: Probed, codec_name: Option<Seq<char>>)
    ensures
        match described(path, probed, codec_name).duration {
            Some(span) => {
                &&& span.sample_rate > 0
                &&& probed.track matches Some(track) && track.n_frames == Some(span.frames)
                    && track.sample_rate == Some(span.sample_rate)
            },
            None => probed.track matches Some(track) ==> track.n_frames is None
                || track.sample_rate is None || track.sample_rate == Some(0u32),
        },
{
}

/// A record without a codec name is not lossless.
pub proof fn lemma_unnamed_codec_is_not_lossless(path: Seq<char>, probed: Probed)
    ensures
        !described(path, probed, None).is_lossless,
        described(path, probed, None).codec is None,
{
}

} // verus!
