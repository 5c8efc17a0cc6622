use audio_catalog::metadata::{
    assemble_metadata, describe, extract_metadata, get_audio_metadata, get_audio_metadata_batch,
    is_lossless, track_duration, AudioMetadata, ExtractError, FrameSpan, ProbeOutcome, Probed,
    TrackParams,
};
use audio_catalog::tags::{first_tagged, last_tagged, merge_tag, Tag, TagKey};

type Codec = symphonia::core::codecs::CodecType;

const FLAC: Codec = symphonia::core::codecs::CODEC_TYPE_FLAC;
const ALAC: Codec = symphonia::core::codecs::CODEC_TYPE_ALAC;
const PCM_S16LE: Codec = symphonia::core::codecs::CODEC_TYPE_PCM_S16LE;
const MP3: Codec = symphonia::core::codecs::CODEC_TYPE_MP3;
const AAC: Codec = symphonia::core::codecs::CODEC_TYPE_AAC;
const VORBIS: Codec = symphonia::core::codecs::CODEC_TYPE_VORBIS;
const NULL: Codec = symphonia::core::codecs::CODEC_TYPE_NULL;

fn tag(key: TagKey, value: &str) -> Tag {
    Tag { key, value: value.to_string() }
}

fn track(codec: Codec) -> TrackParams {
    TrackParams {
        sample_rate: Some(44_100),
        channels: Some(2),
        bits_per_sample: Some(16),
        n_frames: Some(441_000),
        codec,
    }
}

fn probed(codec: Codec) -> Probed {
    Probed { track: Some(track(codec)), stream_tags: Vec::new(), container_tags: Vec::new() }
}

fn seconds(span: FrameSpan) -> f64 {
    span.frames as f64 / span.sample_rate as f64
}

#[test]
fn a_lossless_file_has_its_duration_and_is_lossless() {
    let mut p = probed(FLAC);
    p.track = Some(TrackParams {
        sample_rate: Some(48_000),
        channels: Some(2),
        bits_per_sample: Some(24),
        n_frames: Some(120_000),
        codec: FLAC,
    });
    let m = describe("/music/a.flac", &p);
    assert_eq!(m.duration, Some(FrameSpan { frames: 120_000, sample_rate: 48_000 }));
    assert!((seconds(m.duration.unwrap()) - 2.5).abs() < 1e-12);
    assert!(m.is_lossless);
    assert_eq!(m.codec, Some("flac".to_string()));
    assert_eq!(m.sample_rate, Some(48_000));
    assert_eq!(m.channels, Some(2));
    assert_eq!(m.bit_depth, Some(24));
    assert_eq!(m.path, "/music/a.flac");
}

#[test]
fn registered_codecs_get_their_short_names() {
    assert_eq!(describe("a", &probed(FLAC)).codec, Some("flac".to_string()));
    assert_eq!(describe("a", &probed(MP3)).codec, Some("mp3".to_string()));
    assert_eq!(describe("a", &probed(AAC)).codec, Some("aac".to_string()));
    assert_eq!(describe("a", &probed(ALAC)).codec, Some("alac".to_string()));
    assert_eq!(describe("a", &probed(VORBIS)).codec, Some("vorbis".to_string()));
    assert_eq!(describe("a", &probed(PCM_S16LE)).codec, Some("pcm_s16le".to_string()));
}

#[test]
fn lossless_follows_the_codec() {
    assert!(describe("a", &probed(FLAC)).is_lossless);
    assert!(describe("a", &probed(ALAC)).is_lossless);
    assert!(describe("a", &probed(PCM_S16LE)).is_lossless);
    assert!(!describe("a", &probed(MP3)).is_lossless);
    assert!(!describe("a", &probed(AAC)).is_lossless);
    assert!(!describe("a", &probed(VORBIS)).is_lossless);
}

#[test]
fn an_unregistered_codec_has_no_name_and_is_not_lossless() {
    for codec in [NULL, symphonia::core::codecs::decl_codec_type(b"zzzzz")] {
        let m = describe("a", &probed(codec));
        assert_eq!(m.codec, None);
        assert!(!m.is_lossless);
        assert_eq!(m.sample_rate, Some(44_100));
        assert_eq!(m.duration, Some(FrameSpan { frames: 441_000, sample_rate: 44_100 }));
    }
}

#[test]
fn lossless_names() {
    assert!(is_lossless("flac"));
    assert!(is_lossless("FLAC"));
    assert!(is_lossless("alac"));
    assert!(is_lossless("pcm_s24le"));
    assert!(is_lossless("PCM_F32BE"));
    assert!(is_lossless("wavpack"));
    assert!(is_lossless("aiff"));
    assert!(is_lossless("my-Flac-variant"));
    assert!(!is_lossless("mp3"));
    assert!(!is_lossless("vorbis"));
    assert!(!is_lossless("aac"));
    assert!(!is_lossless(""));
    assert!(!is_lossless("fla"));
    assert!(!is_lossless("aif"));
}

#[test]
fn duration_needs_frames_and_a_positive_rate() {
    assert_eq!(
        track_duration(Some(88_200), Some(44_100)),
        Some(FrameSpan { frames: 88_200, sample_rate: 44_100 })
    );
    assert_eq!(track_duration(Some(0), Some(1)), Some(FrameSpan { frames: 0, sample_rate: 1 }));
    assert_eq!(track_duration(Some(88_200), None), None);
    assert_eq!(track_duration(Some(88_200), Some(0)), None);
    assert_eq!(track_duration(None, Some(44_100)), None);
    assert_eq!(track_duration(None, None), None);
}

#[test]
fn without_a_sample_rate_there_is_no_duration() {
    for frames in [None, Some(0), Some(1), Some(u64::MAX)] {
        let p = Probed {
            track: Some(TrackParams {
                sample_rate: None,
                channels: Some(1),
                bits_per_sample: None,
                n_frames: frames,
                codec: MP3,
            }),
            stream_tags: Vec::new(),
            container_tags: Vec::new(),
        };
        let m = describe("a.mp3", &p);
        assert_eq!(m.duration, None);
        assert_eq!(m.sample_rate, None);
        assert_eq!(m.channels, Some(1));
    }
}

#[test]
fn without_a_track_only_path_and_tags_are_set() {
    let p = Probed {
        track: None,
        stream_tags: vec![tag(TagKey::Artist, "X")],
        container_tags: vec![tag(TagKey::Album, "Y")],
    };
    let m = describe("p", &p);
    let mut expected = AudioMetadata::unknown("p".to_string());
    expected.artist = Some("X".to_string());
    expected.album = Some("Y".to_string());
    assert_eq!(m, expected);
    let m = assemble_metadata("p", &p, Some("flac".to_string()));
    assert_eq!(m, expected);
}

#[test]
fn the_stream_title_wins() {
    let p = Probed {
        track: None,
        stream_tags: vec![tag(TagKey::TrackTitle, "A")],
        container_tags: vec![tag(TagKey::TrackTitle, "B")],
    };
    assert_eq!(describe("p", &p).title, Some("A".to_string()));
}

#[test]
fn the_container_title_fills_in() {
    let p = Probed {
        track: None,
        stream_tags: vec![tag(TagKey::Artist, "someone")],
        container_tags: vec![tag(TagKey::TrackTitle, "B")],
    };
    let m = describe("p", &p);
    assert_eq!(m.title, Some("B".to_string()));
    assert_eq!(m.artist, Some("someone".to_string()));
}

#[test]
fn without_a_title_tag_there_is_no_title() {
    let p = Probed {
        track: None,
        stream_tags: vec![tag(TagKey::Other, "x")],
        container_tags: vec![tag(TagKey::Album, "B")],
    };
    assert_eq!(describe("p", &p).title, None);
}

#[test]
fn each_field_is_merged_on_its_own() {
    let stream = vec![tag(TagKey::TrackTitle, "T1"), tag(TagKey::Other, "zz")];
    let container =
        vec![tag(TagKey::TrackTitle, "T2"), tag(TagKey::Artist, "A2"), tag(TagKey::Other, "yy")];
    assert_eq!(merge_tag(&stream, &container, TagKey::TrackTitle), Some("T1".to_string()));
    assert_eq!(merge_tag(&stream, &container, TagKey::Artist), Some("A2".to_string()));
    assert_eq!(merge_tag(&stream, &container, TagKey::Album), None);
}

#[test]
fn the_stream_gives_its_last_and_the_container_its_first() {
    let tags = vec![
        tag(TagKey::Artist, "one"),
        tag(TagKey::Album, "x"),
        tag(TagKey::Artist, "two"),
        tag(TagKey::Artist, "three"),
    ];
    assert_eq!(last_tagged(&tags, TagKey::Artist), Some("three".to_string()));
    assert_eq!(first_tagged(&tags, TagKey::Artist), Some("one".to_string()));
    assert_eq!(last_tagged(&tags, TagKey::Album), Some("x".to_string()));
    assert_eq!(first_tagged(&tags, TagKey::TrackTitle), None);
    assert_eq!(last_tagged(&Vec::new(), TagKey::Album), None);
    assert_eq!(merge_tag(&tags, &tags, TagKey::Artist), Some("three".to_string()));
    assert_eq!(merge_tag(&Vec::new(), &tags, TagKey::Artist), Some("one".to_string()));
}

#[test]
fn extraction_passes_the_error_on() {
    let r = extract_metadata("x.mp3", Err(ExtractError::Io("not found".to_string())));
    assert_eq!(r, Err(ExtractError::Io("not found".to_string())));
    let r = extract_metadata("x.mp3", Err(ExtractError::Probe("unsupported".to_string())));
    assert_eq!(r, Err(ExtractError::Probe("unsupported".to_string())));
}

#[test]
fn extraction_describes_a_probed_file() {
    let r = extract_metadata("x.mp3", Ok(probed(MP3))).unwrap();
    assert_eq!(r, describe("x.mp3", &probed(MP3)));
    assert_eq!(r.codec, Some("mp3".to_string()));
}

#[test]
fn a_single_file_reports_its_error_as_text() {
    let r = get_audio_metadata("x".to_string(), Err(ExtractError::Io("gone".to_string())));
    assert_eq!(r, Err("Failed to open file: gone".to_string()));
    let r = get_audio_metadata("x".to_string(), Err(ExtractError::Probe("junk".to_string())));
    assert_eq!(r, Err("Failed to probe audio file: junk".to_string()));
    let r = get_audio_metadata("x".to_string(), Ok(probed(FLAC))).unwrap();
    assert_eq!(r.path, "x");
    assert!(r.is_lossless);
}

#[test]
fn extract_error_messages() {
    assert_eq!(ExtractError::Io("a".to_string()).message(), "Failed to open file: a");
    assert_eq!(ExtractError::Probe("b".to_string()).message(), "Failed to probe audio file: b");
}

#[test]
fn a_batch_keeps_going_after_a_failure() {
    let items = vec![
        ProbeOutcome { path: "/m/good.flac".to_string(), outcome: Ok(probed(FLAC)) },
        ProbeOutcome {
            path: "/m/missing.mp3".to_string(),
            outcome: Err(ExtractError::Io("No such file".to_string())),
        },
    ];
    let records = get_audio_metadata_batch(items).unwrap();
    assert_eq!(records.len(), 2);
    assert_eq!(records[0], describe("/m/good.flac", &probed(FLAC)));
    assert_eq!(records[0].codec, Some("flac".to_string()));
    assert_eq!(records[1], AudioMetadata::unknown("/m/missing.mp3".to_string()));
    assert_eq!(records[1].path, "/m/missing.mp3");
    assert_eq!(records[1].duration, None);
    assert_eq!(records[1].sample_rate, None);
    assert_eq!(records[1].channels, None);
    assert_eq!(records[1].bit_depth, None);
    assert_eq!(records[1].codec, None);
    assert!(!records[1].is_lossless);
    assert_eq!(records[1].title, None);
    assert_eq!(records[1].artist, None);
    assert_eq!(records[1].album, None);
}

#[test]
fn a_batch_keeps_the_order_of_its_items() {
    let items: Vec<ProbeOutcome> = ["c", "a", "b", "a"]
        .iter()
        .map(|p| ProbeOutcome {
            path: p.to_string(),
            outcome: Err(ExtractError::Probe("x".to_string())),
        })
        .collect();
    let records = get_audio_metadata_batch(items).unwrap();
    let paths: Vec<&str> = records.iter().map(|r| r.path.as_str()).collect();
    assert_eq!(paths, vec!["c", "a", "b", "a"]);
    assert_eq!(get_audio_metadata_batch(Vec::new()), Ok(Vec::new()));
}

#[test]
fn the_default_record_is_empty() {
    assert_eq!(AudioMetadata::default(), AudioMetadata::unknown(String::new()));
    assert_eq!(AudioMetadata::default().path, "");
}
