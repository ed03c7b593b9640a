use lib::boxes::{FtypBox, MoofBox, MoovBox, SampleEntry, UnknownBox};
use lib::mux::{
    FragmentSample, Fmp4MuxError, Mp4FragmentedFileMuxer, Mp4FragmentedFileMuxerOptions,
    TrackConfig,
};
use lib::{BoxHeader, BoxSize, BoxType, Decode, NonZeroU32, SampleFlags, TrackKind};

fn entry(tag: &[u8; 4]) -> SampleEntry {
    SampleEntry::Unknown(UnknownBox {
        box_type: BoxType::Normal(*tag),
        box_size: BoxSize::U32(12),
        payload: vec![0, 0, 0, 1],
    })
}

fn track(id: u32, kind: TrackKind, timescale: u32) -> TrackConfig {
    let tag = match kind {
        TrackKind::Video => b"avc1",
        TrackKind::Audio => b"Opus",
    };
    TrackConfig {
        track_id: id,
        kind,
        timescale: NonZeroU32::new(timescale).unwrap(),
        sample_entry: entry(tag),
    }
}

fn sample(track_id: u32, duration: u32, data_size: u32, keyframe: bool) -> FragmentSample {
    FragmentSample {
        track_id,
        duration,
        data_size,
        keyframe,
        composition_time_offset: None,
        sample_flags: None,
    }
}

fn two_tracks() -> Mp4FragmentedFileMuxer {
    Mp4FragmentedFileMuxer::new(vec![
        track(1, TrackKind::Video, 90000),
        track(2, TrackKind::Audio, 48000),
    ])
    .unwrap()
}

#[test]
fn init_segment_holds_ftyp_and_moov() {
    let muxer = two_tracks();
    let bytes = muxer.init_segment_bytes();
    let (ftyp, n) = FtypBox::decode(bytes).unwrap();
    assert_eq!(ftyp.major_brand.get(), *b"isom");
    assert_eq!(ftyp.compatible_brands.len(), 5);
    let (moov, m) = MoovBox::decode(&bytes[n..]).unwrap();
    assert_eq!(n + m, bytes.len());
    assert_eq!(moov.trak_boxes.len(), 2);
    assert_eq!(moov.trak_boxes[0].tkhd_box.track_id, 1);
    assert_eq!(moov.trak_boxes[1].tkhd_box.track_id, 2);
    assert_eq!(moov.mvhd_box.timescale.get(), 90000);
    assert_eq!(moov.mvhd_box.next_track_id, 3);
    let mvex = moov.mvex_box.expect("mvex box");
    assert_eq!(mvex.trex_boxes.len(), 2);
    assert_eq!(mvex.trex_boxes[1].track_id, 2);
    assert_eq!(mvex.trex_boxes[1].default_sample_description_index, 1);
}

#[test]
fn fragment_layout_and_offsets() {
    let mut muxer = two_tracks();
    let samples = vec![
        sample(1, 3000, 100, true),
        sample(1, 3000, 50, false),
        sample(2, 960, 20, false),
    ];
    let out = muxer.build_fragment(&samples).unwrap();
    assert_eq!(out.media_data_size(), 170);
    let (moof, n) = MoofBox::decode(out.moof_bytes()).unwrap();
    assert_eq!(n, out.moof_bytes().len());
    assert_eq!(moof.mfhd_box.sequence_number, 1);
    assert_eq!(moof.traf_boxes.len(), 2);

    let (header, hn) = BoxHeader::decode(out.mdat_header_bytes()).unwrap();
    assert_eq!(hn, 8);
    assert_eq!(header.box_size, BoxSize::U32(178));

    let base = (out.moof_bytes().len() + out.mdat_header_bytes().len()) as i32;
    let video = &moof.traf_boxes[0];
    assert_eq!(video.tfhd_box.track_id, 1);
    assert!(video.tfhd_box.default_base_is_moof);
    assert_eq!(video.tfdt_box.unwrap().base_media_decode_time, 0);
    assert_eq!(video.trun_boxes[0].data_offset, Some(base));
    assert_eq!(video.trun_boxes[0].samples.len(), 2);
    assert_eq!(video.trun_boxes[0].samples[0].duration, Some(3000));
    assert_eq!(video.trun_boxes[0].samples[1].size, Some(50));
    let audio = &moof.traf_boxes[1];
    assert_eq!(audio.tfhd_box.track_id, 2);
    assert_eq!(audio.trun_boxes[0].data_offset, Some(base + 150));
}

#[test]
fn decode_times_advance_per_track() {
    let mut muxer = two_tracks();
    muxer
        .build_fragment(&[sample(1, 3000, 10, true), sample(2, 960, 10, false)])
        .unwrap();
    let out = muxer
        .build_fragment(&[sample(2, 960, 10, false), sample(1, 3000, 10, true)])
        .unwrap();
    let moof = out.moof_box();
    assert_eq!(moof.mfhd_box.sequence_number, 2);
    assert_eq!(moof.traf_boxes[0].tfhd_box.track_id, 2);
    assert_eq!(moof.traf_boxes[0].tfdt_box.unwrap().base_media_decode_time, 960);
    assert_eq!(moof.traf_boxes[1].tfdt_box.unwrap().base_media_decode_time, 3000);
}

#[test]
fn keyframe_flags_are_derived() {
    let mut muxer = two_tracks();
    let mut s = sample(1, 1, 1, false);
    s.sample_flags = Some(SampleFlags::new(0x1234));
    let out = muxer
        .build_fragment(&[sample(1, 1, 1, true), sample(1, 1, 1, false), s])
        .unwrap();
    let run = &out.moof_box().traf_boxes[0].trun_boxes[0];
    let key = run.samples[0].flags.unwrap();
    assert_eq!(key.sample_depends_on(), 2);
    assert!(!key.sample_is_non_sync_sample());
    let other = run.samples[1].flags.unwrap();
    assert_eq!(other.sample_depends_on(), 1);
    assert!(other.sample_is_non_sync_sample());
    assert_eq!(run.samples[2].flags.unwrap().get(), 0x1234);
    assert!(run.samples[0].composition_time_offset.is_none());
}

#[test]
fn composition_offsets_fill_with_zero() {
    let mut muxer = two_tracks();
    let mut s = sample(1, 1, 1, true);
    s.composition_time_offset = Some(-5);
    let out = muxer.build_fragment(&[s, sample(1, 1, 1, false)]).unwrap();
    let run = &out.moof_box().traf_boxes[0].trun_boxes[0];
    assert_eq!(run.samples[0].composition_time_offset, Some(-5));
    assert_eq!(run.samples[1].composition_time_offset, Some(0));
}

#[test]
fn invalid_tracks_are_refused() {
    assert!(matches!(Mp4FragmentedFileMuxer::new(vec![]), Err(Fmp4MuxError::EmptyTracks)));
    assert!(matches!(
        Mp4FragmentedFileMuxer::new(vec![track(0, TrackKind::Video, 1)]),
        Err(Fmp4MuxError::InvalidTrackId { track_id: 0 })
    ));
    assert!(matches!(
        Mp4FragmentedFileMuxer::new(vec![
            track(3, TrackKind::Video, 1),
            track(3, TrackKind::Audio, 1)
        ]),
        Err(Fmp4MuxError::DuplicateTrackId { track_id: 3 })
    ));
    assert!(matches!(
        Mp4FragmentedFileMuxer::new(vec![track(u32::MAX, TrackKind::Video, 1)]),
        Err(Fmp4MuxError::NextTrackIdOverflow)
    ));
}

#[test]
fn fragment_errors() {
    let mut muxer = two_tracks();
    assert!(matches!(muxer.build_fragment(&[]), Err(Fmp4MuxError::EmptyFragment)));
    assert!(matches!(
        muxer.build_fragment(&[sample(7, 1, 1, true)]),
        Err(Fmp4MuxError::UnknownTrackId { track_id: 7 })
    ));
    assert!(matches!(
        muxer.build_fragment(&[sample(1, 1, 1, true), sample(2, 1, 1, true), sample(1, 1, 1, true)]),
        Err(Fmp4MuxError::InterleavedSamples { track_id: 1 })
    ));
    // Failures change nothing: the next fragment is still the first.
    let out = muxer.build_fragment(&[sample(2, 1, 1, true)]).unwrap();
    assert_eq!(out.moof_box().mfhd_box.sequence_number, 1);
}

#[test]
fn options_set_the_ftyp_box() {
    let mut options = Mp4FragmentedFileMuxerOptions::default();
    options.minor_version = 7;
    options.compatible_brands.truncate(1);
    let muxer =
        Mp4FragmentedFileMuxer::with_options(vec![track(1, TrackKind::Audio, 48000)], options)
            .unwrap();
    let (ftyp, _) = FtypBox::decode(muxer.init_segment_bytes()).unwrap();
    assert_eq!(ftyp.minor_version, 7);
    assert_eq!(ftyp.compatible_brands.len(), 1);
}
