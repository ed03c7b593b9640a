use lib::boxes::{SampleEntry, UnknownBox};
use lib::mux::{estimate_maximum_moov_box_size, Mp4FileMuxer, Mp4FileMuxerOptions, MuxError, Sample};
use lib::{BoxSize, BoxType, NonZeroU32, TrackKind};

fn create_avc1_sample_entry() -> SampleEntry {
    SampleEntry::Unknown(UnknownBox {
        box_type: BoxType::Normal(*b"avc1"),
        box_size: BoxSize::U32(16),
        payload: vec![0, 0, 0, 0, 0, 0, 0, 1],
    })
}

fn create_opus_sample_entry() -> SampleEntry {
    SampleEntry::Unknown(UnknownBox {
        box_type: BoxType::Normal(*b"Opus"),
        box_size: BoxSize::U32(12),
        payload: vec![0, 0, 0, 1],
    })
}

fn ms() -> NonZeroU32 {
    NonZeroU32::new(1000).unwrap()
}

fn video(entry: Option<SampleEntry>, keyframe: bool, offset: u64, size: usize) -> Sample {
    Sample {
        track_kind: TrackKind::Video,
        sample_entry: entry,
        keyframe,
        timescale: ms(),
        duration: 33,
        data_offset: offset,
        data_size: size,
    }
}

#[test]
fn test_muxer_creation() {
    let muxer = Mp4FileMuxer::new().expect("failed to create muxer");
    assert!(muxer.initial_boxes_bytes().len() > 0);
    assert!(muxer.finalized_boxes().is_none());

    let options = Mp4FileMuxerOptions { reserved_moov_box_size: 4096, creation_timestamp: 0 };
    let muxer = Mp4FileMuxer::with_options(options).expect("failed to create muxer with options");
    assert!(muxer.initial_boxes_bytes().len() > 0);
}

#[test]
fn test_append_sample_and_finalize() {
    let mut muxer = Mp4FileMuxer::new().expect("failed to create muxer");
    let initial_size = muxer.initial_boxes_bytes().len() as u64;

    let sample = video(Some(create_avc1_sample_entry()), true, initial_size, 1024);
    muxer.append_sample(&sample).expect("failed to append sample");

    let sample2 = video(None, false, initial_size + 1024, 512);
    muxer.append_sample(&sample2).expect("failed to append sample");

    let finalized = muxer.finalize().expect("failed to finalize");
    assert!(finalized.moov_box_size() > 0);
    let pairs = finalized.offset_and_bytes_pairs();
    assert!(pairs[1].1.len() > 0);
}

#[test]
fn test_position_mismatch_error() {
    let mut muxer = Mp4FileMuxer::new().expect("failed to create muxer");
    let initial_size = muxer.initial_boxes_bytes().len() as u64;

    let sample = video(Some(create_avc1_sample_entry()), true, initial_size + 100, 1024);
    assert!(matches!(
        muxer.append_sample(&sample),
        Err(MuxError::PositionMismatch { expected, actual })
        if expected == initial_size && actual == initial_size + 100
    ));
}

#[test]
fn test_missing_sample_entry_error() {
    let mut muxer = Mp4FileMuxer::new().expect("failed to create muxer");
    let initial_size = muxer.initial_boxes_bytes().len() as u64;

    let sample = Sample {
        track_kind: TrackKind::Audio,
        sample_entry: None,
        keyframe: false,
        timescale: ms(),
        duration: 20,
        data_offset: initial_size,
        data_size: 512,
    };
    assert!(matches!(
        muxer.append_sample(&sample),
        Err(MuxError::MissingSampleEntry { track_kind: TrackKind::Audio })
    ));
}

#[test]
fn test_already_finalized_error() {
    let mut muxer = Mp4FileMuxer::new().expect("failed to create muxer");
    let initial_size = muxer.initial_boxes_bytes().len() as u64;

    let sample = video(Some(create_avc1_sample_entry()), true, initial_size, 1024);
    muxer.append_sample(&sample).expect("failed to append sample");
    muxer.finalize().expect("failed to finalize");

    let sample2 = video(None, false, initial_size + 1024, 512);
    assert!(matches!(muxer.append_sample(&sample2), Err(MuxError::AlreadyFinalized)));
}

#[test]
fn test_audio_and_video_tracks() {
    let mut muxer = Mp4FileMuxer::new().expect("failed to create muxer");
    let initial_size = muxer.initial_boxes_bytes().len() as u64;

    let video_sample = video(Some(create_avc1_sample_entry()), true, initial_size, 1024);
    muxer.append_sample(&video_sample).expect("failed to append video sample");

    let audio_sample = Sample {
        track_kind: TrackKind::Audio,
        sample_entry: Some(create_opus_sample_entry()),
        keyframe: false,
        timescale: ms(),
        duration: 20,
        data_offset: initial_size + 1024,
        data_size: 256,
    };
    muxer.append_sample(&audio_sample).expect("failed to append audio sample");

    let finalized = muxer.finalize().expect("failed to finalize");
    assert!(finalized.moov_box_size() > 0);
    assert_eq!(finalized.moov_box().trak_boxes.len(), 2);
}

#[test]
fn test_faststart_enabled() {
    let options = Mp4FileMuxerOptions { reserved_moov_box_size: 8192, ..Default::default() };
    let mut muxer = Mp4FileMuxer::with_options(options).expect("failed to create muxer with options");
    let initial_size = muxer.initial_boxes_bytes().len() as u64;

    let sample = video(Some(create_avc1_sample_entry()), true, initial_size, 1024);
    muxer.append_sample(&sample).expect("failed to append sample");

    let finalized = muxer.finalize().expect("failed to finalize");
    assert!(finalized.is_faststart_enabled());
}

#[test]
fn test_multiple_video_samples() {
    let mut muxer = Mp4FileMuxer::new().expect("failed to create muxer");
    let initial_size = muxer.initial_boxes_bytes().len() as u64;

    let mut sample_entry = Some(create_avc1_sample_entry());
    for i in 0..5 {
        let sample = video(sample_entry.take(), i % 2 == 0, initial_size + (i as u64 * 1024), 1024);
        muxer.append_sample(&sample).expect("failed to append sample");
    }

    let finalized = muxer.finalize().expect("failed to finalize");
    assert!(finalized.moov_box_size() > 0);
}

#[test]
fn faststart_disabled_without_reserved_room() {
    let options = Mp4FileMuxerOptions { reserved_moov_box_size: 0, creation_timestamp: 0 };
    let mut muxer = Mp4FileMuxer::with_options(options).unwrap();
    let initial_size = muxer.initial_boxes_bytes().len() as u64;
    let sample = video(Some(create_avc1_sample_entry()), true, initial_size, 10);
    muxer.append_sample(&sample).unwrap();
    let finalized = muxer.finalize().unwrap();
    assert!(!finalized.is_faststart_enabled());
    let pairs = finalized.offset_and_bytes_pairs();
    // Without room kept, the moov box goes after the media data.
    assert_eq!(pairs[0].0, initial_size + 10);
}

#[test]
fn finalize_twice_is_refused() {
    let mut muxer = Mp4FileMuxer::new().unwrap();
    muxer.finalize().unwrap();
    assert!(matches!(muxer.finalize(), Err(MuxError::AlreadyFinalized)));
    assert!(muxer.finalized_boxes().is_some());
}

#[test]
fn timescale_mismatch_is_refused() {
    let mut muxer = Mp4FileMuxer::new().unwrap();
    let initial_size = muxer.initial_boxes_bytes().len() as u64;
    muxer.append_sample(&video(Some(create_avc1_sample_entry()), true, initial_size, 10)).unwrap();
    let mut sample = video(None, true, initial_size + 10, 10);
    sample.timescale = NonZeroU32::new(90000).unwrap();
    assert!(matches!(
        muxer.append_sample(&sample),
        Err(MuxError::TimescaleMismatch { track_kind: TrackKind::Video, .. })
    ));
}

#[test]
fn initial_boxes_start_with_ftyp() {
    let muxer = Mp4FileMuxer::new().unwrap();
    let bytes = muxer.initial_boxes_bytes();
    assert_eq!(&bytes[4..8], b"ftyp");
}

#[test]
fn reserved_room_is_a_free_box() {
    let options = Mp4FileMuxerOptions { reserved_moov_box_size: 100, creation_timestamp: 0 };
    let muxer = Mp4FileMuxer::with_options(options).unwrap();
    let bytes = muxer.initial_boxes_bytes();
    let ftyp_size = u32::from_be_bytes([bytes[0], bytes[1], bytes[2], bytes[3]]) as usize;
    assert_eq!(&bytes[ftyp_size + 4..ftyp_size + 8], b"free");
    let free_size = u32::from_be_bytes([
        bytes[ftyp_size],
        bytes[ftyp_size + 1],
        bytes[ftyp_size + 2],
        bytes[ftyp_size + 3],
    ]);
    assert_eq!(free_size, 108);
}

#[test]
fn estimate_grows_with_sample_count() {
    let none = estimate_maximum_moov_box_size(&[]);
    let small = estimate_maximum_moov_box_size(&[10]);
    let large = estimate_maximum_moov_box_size(&[1000]);
    let two = estimate_maximum_moov_box_size(&[10, 10]);
    assert!(none < small);
    assert!(small < large);
    assert!(small < two);
}
