use lib::boxes::{SampleEntry, UnknownBox};
use lib::demux::{Input, Mp4FileDemuxer};
use lib::mux::{
    estimate_maximum_moov_box_size, FinalizedBoxes, Mp4FileMuxer, Mp4FileMuxerOptions, Sample,
};
use lib::{BoxSize, BoxType, NonZeroU32, TrackKind};

// The video sample entry is kept as a box whose payload is not interpreted.
fn create_video_sample_entry() -> SampleEntry {
    SampleEntry::Unknown(UnknownBox {
        box_type: BoxType::Normal(*b"avc1"),
        box_size: BoxSize::U32(12),
        payload: vec![0, 0, 0, 1],
    })
}

fn build_file_data(initial_bytes: &[u8], finalized: &FinalizedBoxes, sample_data_size: usize) -> Vec<u8> {
    let total_size = initial_bytes.len() + sample_data_size + finalized.moov_box_size() + 1024;
    let mut file_data = vec![0u8; total_size];
    file_data[..initial_bytes.len()].copy_from_slice(initial_bytes);
    for (offset, bytes) in finalized.offset_and_bytes_pairs() {
        let offset = offset as usize;
        file_data[offset..offset + bytes.len()].copy_from_slice(bytes);
    }
    let mut max_end = initial_bytes.len() + sample_data_size;
    for (offset, bytes) in finalized.offset_and_bytes_pairs() {
        let end = offset as usize + bytes.len();
        if end > max_end {
            max_end = end;
        }
    }
    file_data.truncate(max_end);
    file_data
}

#[test]
fn minimal_video_file() {
    let mut muxer = Mp4FileMuxer::new().expect("failed to create muxer");
    let data_offset = muxer.initial_boxes_bytes().len() as u64;

    let sample = Sample {
        track_kind: TrackKind::Video,
        sample_entry: Some(create_video_sample_entry()),
        keyframe: true,
        timescale: NonZeroU32::new(30).unwrap(),
        duration: 1,
        data_offset,
        data_size: 100,
    };
    muxer.append_sample(&sample).expect("failed to append sample");

    let initial_bytes = muxer.initial_boxes_bytes().to_vec();
    let finalized = muxer.finalize().expect("failed to finalize");

    let file_data = build_file_data(&initial_bytes, finalized, 100);

    let mut demuxer = Mp4FileDemuxer::new();
    demuxer.handle_input(Input { position: 0, data: &file_data });

    let tracks = demuxer.tracks().expect("failed to get tracks");
    assert_eq!(tracks.len(), 1);
    assert!(matches!(tracks[0].kind, TrackKind::Video));

    let sample = demuxer.next_sample().expect("failed").expect("no sample");
    assert!(sample.keyframe);
    assert_eq!(sample.data_size, 100);
}

#[test]
fn faststart_enabled_roundtrip() {
    let options = Mp4FileMuxerOptions { reserved_moov_box_size: 8192, ..Default::default() };
    let mut muxer = Mp4FileMuxer::with_options(options).expect("failed to create muxer");
    let data_offset = muxer.initial_boxes_bytes().len() as u64;

    let sample = Sample {
        track_kind: TrackKind::Video,
        sample_entry: Some(create_video_sample_entry()),
        keyframe: true,
        timescale: NonZeroU32::new(30).unwrap(),
        duration: 1,
        data_offset,
        data_size: 1024,
    };
    muxer.append_sample(&sample).expect("failed to append sample");

    let initial_bytes = muxer.initial_boxes_bytes().to_vec();
    let finalized = muxer.finalize().expect("failed to finalize");
    assert!(finalized.is_faststart_enabled());

    let file_data = build_file_data(&initial_bytes, finalized, 1024);

    let mut demuxer = Mp4FileDemuxer::new();
    demuxer.handle_input(Input { position: 0, data: &file_data });

    let tracks = demuxer.tracks().expect("failed to get tracks");
    assert_eq!(tracks.len(), 1);
}

#[test]
fn estimate_empty_tracks() {
    let result = estimate_maximum_moov_box_size(&[]);
    assert!(result > 0);
}

#[test]
fn estimate_single_track_no_samples() {
    let result = estimate_maximum_moov_box_size(&[0]);
    assert!(result > 0);
}

#[test]
fn estimate_large_sample_count() {
    let result = estimate_maximum_moov_box_size(&[100000, 100000]);
    assert!(result > 0);
}

#[test]
fn muxed_samples_read_back_in_order() {
    let mut muxer = Mp4FileMuxer::new().unwrap();
    let mut offset = muxer.initial_boxes_bytes().len() as u64;
    let mut entry = Some(create_video_sample_entry());
    for i in 0..4u32 {
        let sample = Sample {
            track_kind: TrackKind::Video,
            sample_entry: entry.take(),
            keyframe: i == 0,
            timescale: NonZeroU32::new(30).unwrap(),
            duration: 1 + i,
            data_offset: offset,
            data_size: 10 + i as usize,
        };
        muxer.append_sample(&sample).unwrap();
        offset += 10 + i as u64;
    }
    let initial_bytes = muxer.initial_boxes_bytes().to_vec();
    let finalized = muxer.finalize().unwrap();
    let file_data = build_file_data(&initial_bytes, finalized, 10 + 11 + 12 + 13);

    let mut demuxer = Mp4FileDemuxer::new();
    demuxer.handle_input(Input { position: 0, data: &file_data });
    let mut timestamp = 0;
    for i in 0..4u32 {
        let s = demuxer.next_sample().unwrap().expect("sample");
        assert_eq!(s.duration, 1 + i);
        assert_eq!(s.timestamp, timestamp);
        assert_eq!(s.data_size, 10 + i as usize);
        assert_eq!(s.keyframe, i == 0);
        timestamp += (1 + i) as u64;
    }
    assert!(demuxer.next_sample().unwrap().is_none());
}
