use lib::boxes::{MoofBox, MoovBox, SampleEntry, UnknownBox};
use lib::mux::{Mp4HybridFileMuxer, Mp4HybridFileMuxerOptions, Mp4HybridSample, MuxError};
use lib::{BoxSize, BoxType, Decode, NonZeroU32, TrackKind};

fn avc1_entry() -> SampleEntry {
    SampleEntry::Unknown(UnknownBox {
        box_type: BoxType::Normal(*b"avc1"),
        box_size: BoxSize::U32(16),
        payload: vec![0, 0, 0, 0, 0, 0, 0, 1],
    })
}

fn opus_entry() -> SampleEntry {
    SampleEntry::Unknown(UnknownBox {
        box_type: BoxType::Normal(*b"Opus"),
        box_size: BoxSize::U32(12),
        payload: vec![0, 0, 0, 1],
    })
}

fn ms() -> NonZeroU32 {
    NonZeroU32::new(1000).unwrap()
}

fn video(entry: Option<SampleEntry>, keyframe: bool, duration_ms: u32, size: usize) -> Mp4HybridSample {
    Mp4HybridSample {
        track_kind: TrackKind::Video,
        sample_entry: entry,
        keyframe,
        timescale: ms(),
        duration: duration_ms,
        data_size: size,
    }
}

fn audio(entry: Option<SampleEntry>, duration_ms: u32, size: usize) -> Mp4HybridSample {
    Mp4HybridSample {
        track_kind: TrackKind::Audio,
        sample_entry: entry,
        keyframe: true,
        timescale: ms(),
        duration: duration_ms,
        data_size: size,
    }
}

fn drain(muxer: &mut Mp4HybridFileMuxer) -> Vec<(u64, Vec<u8>)> {
    let mut out = Vec::new();
    while let Some((offset, bytes)) = muxer.next_output() {
        out.push((offset, bytes.to_vec()));
    }
    out
}

fn box_type(bytes: &[u8]) -> [u8; 4] {
    [bytes[4], bytes[5], bytes[6], bytes[7]]
}

fn box_size(bytes: &[u8]) -> u32 {
    u32::from_be_bytes([bytes[0], bytes[1], bytes[2], bytes[3]])
}

const FTYP_LEN: u64 = 40;

#[test]
fn hybrid_new_outputs_ftyp_only() {
    let mut muxer = Mp4HybridFileMuxer::new().expect("muxer");
    let outs = drain(&mut muxer);
    assert_eq!(outs.len(), 1);
    assert_eq!(outs[0].0, 0);
    assert_eq!(outs[0].1.len() as u64, FTYP_LEN);
    assert_eq!(&box_type(&outs[0].1), b"ftyp");
    assert_eq!(&outs[0].1[8..12], b"isom");
    assert_eq!(&outs[0].1[16..20], b"isom");
    assert_eq!(&outs[0].1[20..24], b"iso2");
    assert_eq!(&outs[0].1[24..28], b"mp41");
    assert_eq!(&outs[0].1[28..32], b"avc1");
    assert_eq!(&outs[0].1[32..36], b"av01");
    assert_eq!(&outs[0].1[36..40], b"iso6");
    assert!(muxer.next_output().is_none());
}

#[test]
fn hybrid_reserved_room_is_a_free_box() {
    let options = Mp4HybridFileMuxerOptions {
        reserved_moov_box_size: 100,
        creation_timestamp: 0,
        fragment_duration: None,
    };
    let mut muxer = Mp4HybridFileMuxer::with_options(options).expect("muxer");
    let outs = drain(&mut muxer);
    assert_eq!(outs.len(), 2);
    assert_eq!(outs[1].0, FTYP_LEN);
    assert_eq!(outs[1].1.len(), 108);
    assert_eq!(box_size(&outs[1].1), 108);
    assert_eq!(&box_type(&outs[1].1), b"free");
    assert!(outs[1].1[8..].iter().all(|b| *b == 0));
}

#[test]
fn hybrid_reserved_room_too_large() {
    let options = Mp4HybridFileMuxerOptions {
        reserved_moov_box_size: u32::MAX as usize,
        creation_timestamp: 0,
        fragment_duration: None,
    };
    assert!(matches!(Mp4HybridFileMuxer::with_options(options), Err(MuxError::EncodeError(_))));
}

#[test]
fn hybrid_default_options() {
    let options = Mp4HybridFileMuxerOptions::default();
    assert_eq!(options.reserved_moov_box_size, 0);
    assert_eq!(options.creation_timestamp, 0);
    assert_eq!(options.fragment_duration, Some(2_000_000_000));
}

#[test]
fn hybrid_fragment_cut_at_video_keyframe() {
    let mut muxer = Mp4HybridFileMuxer::new().expect("muxer");
    drain(&mut muxer);

    muxer.append_sample(&video(Some(avc1_entry()), true, 1000, 1024)).expect("first");
    assert!(muxer.next_output().is_none());

    // A key frame that makes the fragment two seconds long starts a new fragment.
    muxer.append_sample(&video(None, true, 1000, 512)).expect("second");
    let outs = drain(&mut muxer);
    assert_eq!(outs.len(), 2);
    let (moof_offset, moof_bytes) = &outs[0];
    let (mdat_offset, mdat_header) = &outs[1];
    assert_eq!(*moof_offset, FTYP_LEN);
    assert_eq!(&box_type(moof_bytes), b"moof");
    assert_eq!(*mdat_offset, FTYP_LEN + moof_bytes.len() as u64);
    assert_eq!(mdat_header.len(), 8);
    assert_eq!(box_size(mdat_header), 8 + 1024);
    assert_eq!(&box_type(mdat_header), b"mdat");

    let (moof, n) = MoofBox::decode(moof_bytes).expect("moof decodes");
    assert_eq!(n, moof_bytes.len());
    assert_eq!(moof.mfhd_box.sequence_number, 1);
    assert_eq!(moof.traf_boxes.len(), 1);
    let traf = &moof.traf_boxes[0];
    assert_eq!(traf.tfhd_box.track_id, 1);
    assert_eq!(traf.tfhd_box.sample_description_index, Some(1));
    assert!(traf.tfhd_box.default_base_is_moof);
    assert_eq!(traf.tfdt_box.as_ref().map(|t| t.base_media_decode_time), Some(0));
    assert_eq!(traf.trun_boxes.len(), 1);
    let trun = &traf.trun_boxes[0];
    assert_eq!(trun.data_offset, Some(moof_bytes.len() as i32 + 8));
    assert_eq!(trun.samples.len(), 1);
    assert_eq!(trun.samples[0].duration, Some(1000));
    assert_eq!(trun.samples[0].size, Some(1024));
    assert_eq!(trun.samples[0].flags.map(|f| f.get()), Some(7 << 17));
}

#[test]
fn hybrid_non_keyframe_does_not_cut() {
    let mut muxer = Mp4HybridFileMuxer::new().expect("muxer");
    drain(&mut muxer);
    muxer.append_sample(&video(Some(avc1_entry()), true, 1500, 10)).expect("first");
    muxer.append_sample(&video(None, false, 1500, 10)).expect("second");
    assert!(muxer.next_output().is_none());
    // The fragment is long enough now: the next key frame ends it.
    muxer.append_sample(&video(None, false, 1500, 10)).expect("third");
    assert!(muxer.next_output().is_none());
    muxer.append_sample(&video(None, true, 1500, 10)).expect("fourth");
    let outs = drain(&mut muxer);
    assert_eq!(outs.len(), 2);
    let (moof, _) = MoofBox::decode(&outs[0].1).expect("moof");
    let trun = &moof.traf_boxes[0].trun_boxes[0];
    assert_eq!(trun.samples.len(), 3);
    assert_eq!(trun.samples[1].flags.map(|f| f.get()), Some((7 << 17) | (1 << 16)));
    assert_eq!(box_size(&outs[1].1), 8 + 30);
}

#[test]
fn hybrid_audio_only_cuts_after_duration() {
    let mut muxer = Mp4HybridFileMuxer::new().expect("muxer");
    drain(&mut muxer);
    muxer.append_sample(&audio(Some(opus_entry()), 2000, 100)).expect("first");
    assert!(muxer.next_output().is_none());
    muxer.append_sample(&audio(None, 20, 100)).expect("second");
    let outs = drain(&mut muxer);
    assert_eq!(outs.len(), 2);
    assert_eq!(box_size(&outs[1].1), 8 + 100);
}

#[test]
fn hybrid_new_sample_entry_cuts() {
    let mut muxer = Mp4HybridFileMuxer::new().expect("muxer");
    drain(&mut muxer);
    muxer.append_sample(&video(Some(avc1_entry()), true, 10, 10)).expect("first");
    let other = SampleEntry::Unknown(UnknownBox {
        box_type: BoxType::Normal(*b"avc1"),
        box_size: BoxSize::U32(16),
        payload: vec![0, 0, 0, 0, 0, 0, 0, 2],
    });
    muxer.append_sample(&video(Some(other), false, 10, 10)).expect("second");
    let outs = drain(&mut muxer);
    assert_eq!(outs.len(), 2);
    muxer.append_sample(&video(None, true, 10, 10)).expect("third");
    assert!(muxer.next_output().is_none());
}

#[test]
fn hybrid_interleaved_tracks_in_one_fragment() {
    let mut muxer = Mp4HybridFileMuxer::new().expect("muxer");
    drain(&mut muxer);
    muxer.append_sample(&audio(Some(opus_entry()), 20, 100)).expect("a1");
    muxer.append_sample(&video(Some(avc1_entry()), true, 33, 1000)).expect("v1");
    muxer.append_sample(&audio(None, 20, 100)).expect("a2");
    muxer.finalize().expect("finalize");
    let outs = drain(&mut muxer);
    assert_eq!(outs.len(), 4);
    let moof_bytes = &outs[0].1;
    let (moof, _) = MoofBox::decode(moof_bytes).expect("moof");
    assert_eq!(moof.traf_boxes.len(), 2);
    // The audio track came first, so it has id 1.
    assert_eq!(moof.traf_boxes[0].tfhd_box.track_id, 1);
    assert_eq!(moof.traf_boxes[1].tfhd_box.track_id, 2);
    let audio_runs = &moof.traf_boxes[0].trun_boxes;
    assert_eq!(audio_runs.len(), 2);
    let base = moof_bytes.len() as i32 + 8;
    assert_eq!(audio_runs[0].data_offset, Some(base));
    assert_eq!(audio_runs[1].data_offset, Some(base + 1100));
    assert_eq!(moof.traf_boxes[1].trun_boxes[0].data_offset, Some(base + 100));
    assert_eq!(box_size(&outs[1].1), 8 + 1200);
}

#[test]
fn hybrid_finalize_outputs_mdat_header_and_moov() {
    let mut muxer = Mp4HybridFileMuxer::new().expect("muxer");
    drain(&mut muxer);
    muxer.append_sample(&video(Some(avc1_entry()), true, 1000, 1024)).expect("first");
    muxer.append_sample(&video(None, true, 1000, 512)).expect("second");
    let first = drain(&mut muxer);
    let fragment_end = FTYP_LEN + first[0].1.len() as u64 + 8 + 1024;
    muxer.finalize().expect("finalize");
    let outs = drain(&mut muxer);
    assert_eq!(outs.len(), 4);
    assert_eq!(outs[0].0, fragment_end);
    assert_eq!(&box_type(&outs[0].1), b"moof");
    let file_end = fragment_end + outs[0].1.len() as u64 + 8 + 512;
    assert_eq!(outs[2].0, FTYP_LEN);
    assert_eq!(&box_type(&outs[2].1), b"mdat");
    assert_eq!(box_size(&outs[2].1) as u64, file_end - FTYP_LEN + 8);
    assert_eq!(outs[3].0, file_end);
    let (moov, n) = MoovBox::decode(&outs[3].1).expect("moov decodes");
    assert_eq!(n, outs[3].1.len());
    assert_eq!(moov.trak_boxes.len(), 1);
    assert!(moov.mvex_box.is_none());
    assert_eq!(moov.mvhd_box.next_track_id, 2);
    assert_eq!(moov.mvhd_box.duration, 2000);
    assert_eq!(moov.mvhd_box.timescale.get(), 1000);
}

#[test]
fn hybrid_reserved_room_gets_the_moov_box() {
    let options = Mp4HybridFileMuxerOptions {
        reserved_moov_box_size: 4096,
        creation_timestamp: 0,
        fragment_duration: None,
    };
    let mut muxer = Mp4HybridFileMuxer::with_options(options).expect("muxer");
    let initial = drain(&mut muxer);
    let moov_end = FTYP_LEN + initial[1].1.len() as u64;
    muxer.append_sample(&video(Some(avc1_entry()), true, 1000, 1024)).expect("first");
    muxer.append_sample(&video(None, true, 1000, 512)).expect("second");
    let outs = drain(&mut muxer);
    assert_eq!(outs.len(), 4);
    assert_eq!(outs[0].0, moov_end);
    assert_eq!(&box_type(&outs[0].1), b"moof");
    let (size_offset, size_bytes) = &outs[2];
    let (moov_offset, moov_bytes) = &outs[3];
    assert_eq!(*size_offset, FTYP_LEN);
    assert_eq!(*moov_offset + moov_bytes.len() as u64, moov_end);
    assert_eq!(box_size(size_bytes) as u64, *moov_offset - FTYP_LEN);
    let (moov, _) = MoovBox::decode(moov_bytes).expect("moov");
    assert_eq!(moov.trak_boxes.len(), 1);
    assert!(moov.mvex_box.is_some());
}

#[test]
fn hybrid_errors() {
    let mut muxer = Mp4HybridFileMuxer::new().expect("muxer");
    assert!(matches!(
        muxer.append_sample(&video(None, true, 10, 10)),
        Err(MuxError::MissingSampleEntry { track_kind: TrackKind::Video })
    ));
    muxer.append_sample(&video(Some(avc1_entry()), true, 10, 10)).expect("first");
    let mut wrong = video(None, true, 10, 10);
    wrong.timescale = NonZeroU32::new(90000).unwrap();
    assert!(matches!(
        muxer.append_sample(&wrong),
        Err(MuxError::TimescaleMismatch { track_kind: TrackKind::Video, expected, actual })
        if expected.get() == 1000 && actual.get() == 90000
    ));
    muxer.finalize().expect("finalize");
    assert!(matches!(muxer.finalize(), Err(MuxError::AlreadyFinalized)));
    assert!(matches!(
        muxer.append_sample(&video(None, true, 10, 10)),
        Err(MuxError::AlreadyFinalized)
    ));
}
