use lib::boxes::{SampleEntry, UnknownBox};
use lib::demux::{DemuxError, Input, Mp4FileDemuxer};
use lib::mux::{Mp4FileMuxer, Mp4FileMuxerOptions, Sample};
use lib::{BoxSize, BoxType, Encode, FullBoxFlags, NonZeroU32, TrackKind, Uint};

const FTYP: &[u8] = &[
    0x00, 0x00, 0x00, 0x18, b'f', b't', b'y', b'p', b'i', b's', b'o', b'm', 0x00, 0x00, 0x00, 0x00,
    b'i', b's', b'o', b'm', b'i', b's', b'o', b'2',
];

#[test]
fn demuxer_keeps_its_error_state() {
    let mut demuxer = Mp4FileDemuxer::new();
    // The demuxer asks for bytes from position 0; bytes from 100 do not hold them.
    demuxer.handle_input(Input { position: 100, data: &[0u8; 64] });
    assert!(demuxer.required_input().is_none());
    assert!(matches!(demuxer.tracks(), Err(DemuxError::DecodeError(_))));
    assert!(demuxer.required_input().is_none());
    assert!(matches!(demuxer.tracks(), Err(DemuxError::DecodeError(_))));
    assert!(matches!(demuxer.next_sample(), Err(DemuxError::DecodeError(_))));
    assert!(demuxer.required_input().is_none());
}

#[test]
fn demuxer_box_size_near_u64_max_fails() {
    let mut data = FTYP.to_vec();
    data.extend_from_slice(&[0, 0, 0, 1, b'f', b'r', b'e', b'e']);
    data.extend_from_slice(&[0xFF, 0xFF, 0xFF, 0xFF, 0xFF, 0xFF, 0xFF, 0xF0]);
    data.extend_from_slice(&[0u8; 24]);
    let mut demuxer = Mp4FileDemuxer::new();
    demuxer.handle_input(Input { position: 0, data: &data });
    assert!(demuxer.tracks().is_err());
    assert!(demuxer.required_input().is_none());
}

#[test]
fn full_box_flags_from_flags_sets_bits() {
    let flags = FullBoxFlags::from_flags(&[(0, true), (0, true), (3, false), (40, false)]);
    assert_eq!(flags.get(), 1);
    assert!(flags.is_set(0));
    assert!(!flags.is_set(3));
    let flags = FullBoxFlags::from_flags(&[(1, true), (4, true), (1, true)]);
    assert_eq!(flags.get(), 0b10010);
    assert!(flags.is_set(4) && flags.is_set(1) && !flags.is_set(0));
    assert_eq!(FullBoxFlags::new(0x0102_0304).get(), 0x0102_0304);
    assert_eq!(FullBoxFlags::empty().get(), 0);
}

#[test]
fn moov_box_size_is_the_size_of_the_moov_box() {
    let entry = SampleEntry::Unknown(UnknownBox {
        box_type: BoxType::Normal(*b"avc1"),
        box_size: BoxSize::U32(12),
        payload: vec![0, 0, 0, 1],
    });
    for reserved in [0usize, 4096] {
        let options = Mp4FileMuxerOptions { reserved_moov_box_size: reserved, creation_timestamp: 0 };
        let mut muxer = Mp4FileMuxer::with_options(options).expect("muxer");
        let offset = muxer.initial_boxes_bytes().len() as u64;
        let sample = Sample {
            track_kind: TrackKind::Video,
            sample_entry: Some(entry.clone()),
            keyframe: true,
            timescale: NonZeroU32::new(30).unwrap(),
            duration: 1,
            data_offset: offset,
            data_size: 100,
        };
        muxer.append_sample(&sample).expect("append");
        let finalized = muxer.finalize().expect("finalize");
        let moov_len = finalized.moov_box().encode_to_vec().unwrap().len();
        assert_eq!(finalized.moov_box_size(), moov_len);
        let pairs = finalized.offset_and_bytes_pairs();
        if reserved > 0 {
            assert_eq!(pairs[0].1.len(), moov_len + 8);
            assert!(moov_len < reserved);
        } else {
            assert_eq!(pairs[0].1.len(), moov_len);
        }
    }
}

#[test]
fn demuxed_samples_cover_every_track_once_in_time_order() {
    let video_entry = SampleEntry::Unknown(UnknownBox {
        box_type: BoxType::Normal(*b"avc1"),
        box_size: BoxSize::U32(12),
        payload: vec![0, 0, 0, 1],
    });
    let audio_entry = SampleEntry::Unknown(UnknownBox {
        box_type: BoxType::Normal(*b"mp4a"),
        box_size: BoxSize::U32(12),
        payload: vec![0, 0, 0, 2],
    });
    let mut muxer = Mp4FileMuxer::new().unwrap();
    let start = muxer.initial_boxes_bytes().len() as u64;
    let mut offset = start;
    // Video: 3 samples of 1/30 s; audio: 4 samples of 1/48 s (timescale 48).
    let plan: [(TrackKind, u32, u32); 7] = [
        (TrackKind::Video, 30, 1),
        (TrackKind::Audio, 48, 1),
        (TrackKind::Audio, 48, 1),
        (TrackKind::Video, 30, 1),
        (TrackKind::Audio, 48, 1),
        (TrackKind::Video, 30, 1),
        (TrackKind::Audio, 48, 1),
    ];
    let mut first_video = true;
    let mut first_audio = true;
    for (kind, scale, duration) in plan.iter() {
        let sample_entry = match kind {
            TrackKind::Video if first_video => {
                first_video = false;
                Some(video_entry.clone())
            }
            TrackKind::Audio if first_audio => {
                first_audio = false;
                Some(audio_entry.clone())
            }
            _ => None,
        };
        let sample = Sample {
            track_kind: *kind,
            sample_entry,
            keyframe: true,
            timescale: NonZeroU32::new(*scale).unwrap(),
            duration: *duration,
            data_offset: offset,
            data_size: 10,
        };
        muxer.append_sample(&sample).unwrap();
        offset += 10;
    }
    let initial = muxer.initial_boxes_bytes().to_vec();
    let finalized = muxer.finalize().unwrap();
    let mut file = vec![0u8; offset as usize];
    file[..initial.len()].copy_from_slice(&initial);
    for (at, bytes) in finalized.offset_and_bytes_pairs() {
        let at = at as usize;
        if file.len() < at + bytes.len() {
            file.resize(at + bytes.len(), 0);
        }
        file[at..at + bytes.len()].copy_from_slice(bytes);
    }
    let mut demuxer = Mp4FileDemuxer::new();
    demuxer.handle_input(Input { position: 0, data: &file });
    assert_eq!(demuxer.tracks().unwrap().len(), 2);
    let mut seen: Vec<(u32, u64)> = Vec::new();
    let mut last_ns: u128 = 0;
    while let Some(s) = demuxer.next_sample().unwrap() {
        let ns = s.timestamp as u128 * 1_000_000_000 / s.track.timescale.get() as u128;
        assert!(ns >= last_ns);
        last_ns = ns;
        seen.push((s.track.track_id, s.timestamp));
    }
    assert_eq!(seen.len(), 7);
    let video: Vec<u64> = seen.iter().filter(|x| x.0 == seen[0].0).map(|x| x.1).collect();
    let audio: Vec<u64> = seen.iter().filter(|x| x.0 != seen[0].0).map(|x| x.1).collect();
    assert_eq!(video.len() + audio.len(), 7);
    let (v, a) = if video.len() == 3 { (video, audio) } else { (audio, video) };
    assert_eq!(v, vec![0, 1, 2]);
    assert_eq!(a, vec![0, 1, 2, 3]);
}

#[test]
fn uint_reads_back_its_bits() {
    let x = Uint::<u32, 5, 3>::new(21);
    assert_eq!(Uint::<u32, 5, 3>::from_bits(x.to_bits()).get(), 21);
    let y = Uint::<u8, 2, 4>::new(3);
    assert_eq!(Uint::<u8, 2, 4>::from_bits(y.to_bits()).get(), 3);
    assert_eq!(Uint::<u8, 1, 7>::from_bits(0x80).get(), 1);
    assert_eq!(Uint::<u8, 5, 0>::from_bits(0xFF).get(), 31);
}
