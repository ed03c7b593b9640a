use lib::boxes::{
    EdtsBox, ElstBox, ElstEntry, MehdBox, MvexBox, TrexBox,
    DinfBox, HdlrBox, MdhdBox, MdiaBox, MinfBox, MoovBox, MvhdBox, SampleEntry, SmhdBox, StblBox,
    StcoBox, StscBox, StsdBox, StszBox, SttsBox, TkhdBox, TrakBox, UnknownBox,
};
use lib::{BoxSize, BoxType, Decode, Either, Encode, FixedPointNumber, Mp4FileTime, NonZeroU32, SampleFlags};

fn minimal_mvhd_box() -> MvhdBox {
    MvhdBox {
        creation_time: Mp4FileTime::from_secs(0),
        modification_time: Mp4FileTime::from_secs(0),
        timescale: NonZeroU32::new(1000).unwrap(),
        duration: 0,
        rate: MvhdBox::DEFAULT_RATE(),
        volume: MvhdBox::DEFAULT_VOLUME(),
        matrix: MvhdBox::DEFAULT_MATRIX(),
        next_track_id: 1,
    }
}

fn minimal_tkhd_box(track_id: u32) -> TkhdBox {
    TkhdBox {
        flag_track_enabled: true,
        flag_track_in_movie: true,
        flag_track_in_preview: false,
        flag_track_size_is_aspect_ratio: false,
        creation_time: Mp4FileTime::from_secs(0),
        modification_time: Mp4FileTime::from_secs(0),
        track_id,
        duration: 0,
        layer: TkhdBox::DEFAULT_LAYER(),
        alternate_group: TkhdBox::DEFAULT_ALTERNATE_GROUP(),
        volume: TkhdBox::DEFAULT_AUDIO_VOLUME(),
        matrix: TkhdBox::DEFAULT_MATRIX(),
        width: FixedPointNumber::new(0, 0),
        height: FixedPointNumber::new(0, 0),
    }
}

fn minimal_mdhd_box() -> MdhdBox {
    MdhdBox {
        creation_time: Mp4FileTime::from_secs(0),
        modification_time: Mp4FileTime::from_secs(0),
        timescale: NonZeroU32::new(48000).unwrap(),
        duration: 0,
        language: MdhdBox::LANGUAGE_UNDEFINED(),
    }
}

fn minimal_hdlr_box_audio() -> HdlrBox {
    HdlrBox { handler_type: HdlrBox::HANDLER_TYPE_SOUN(), name: vec![] }
}

// The audio sample entry is kept as a box whose payload is not interpreted.
fn minimal_audio_entry() -> SampleEntry {
    SampleEntry::Unknown(UnknownBox {
        box_type: BoxType::Normal(*b"Opus"),
        box_size: BoxSize::U32(12),
        payload: vec![0, 0, 0, 1],
    })
}

fn minimal_stbl_box_audio() -> StblBox {
    StblBox {
        stsd_box: StsdBox { entries: vec![minimal_audio_entry()] },
        stts_box: SttsBox { entries: vec![] },
        stsc_box: StscBox { entries: vec![] },
        stsz_box: StszBox::Variable { entry_sizes: vec![] },
        stco_or_co64_box: Either::A(StcoBox { chunk_offsets: vec![] }),
        stss_box: None,
        unknown_boxes: vec![],
    }
}

fn minimal_minf_box_audio() -> MinfBox {
    MinfBox {
        smhd_or_vmhd_box: Some(Either::A(SmhdBox { balance: SmhdBox::DEFAULT_BALANCE() })),
        dinf_box: DinfBox::LOCAL_FILE(),
        stbl_box: minimal_stbl_box_audio(),
        unknown_boxes: vec![],
    }
}

fn minimal_mdia_box_audio() -> MdiaBox {
    MdiaBox {
        mdhd_box: minimal_mdhd_box(),
        hdlr_box: minimal_hdlr_box_audio(),
        minf_box: minimal_minf_box_audio(),
        unknown_boxes: vec![],
    }
}

fn minimal_trak_box_audio(track_id: u32) -> TrakBox {
    TrakBox {
        tkhd_box: minimal_tkhd_box(track_id),
        edts_box: None,
        mdia_box: minimal_mdia_box_audio(),
        unknown_boxes: vec![],
    }
}

fn minimal_moov_box() -> MoovBox {
    MoovBox {
        mvhd_box: minimal_mvhd_box(),
        trak_boxes: vec![minimal_trak_box_audio(1)],
        mvex_box: None,
        unknown_boxes: vec![],
    }
}

#[test]
fn moov_box_minimal() {
    let moov = minimal_moov_box();
    let encoded = moov.encode_to_vec().unwrap();
    let (decoded, _) = MoovBox::decode(&encoded).unwrap();
    assert_eq!(decoded.trak_boxes.len(), 1);
}

#[test]
fn moov_box_multiple_tracks() {
    let moov = MoovBox {
        mvhd_box: minimal_mvhd_box(),
        trak_boxes: vec![
            minimal_trak_box_audio(1),
            minimal_trak_box_audio(2),
            minimal_trak_box_audio(3),
        ],
        mvex_box: None,
        unknown_boxes: vec![],
    };
    let encoded = moov.encode_to_vec().unwrap();
    let (decoded, _) = MoovBox::decode(&encoded).unwrap();
    assert_eq!(decoded.trak_boxes.len(), 3);
    assert_eq!(decoded.trak_boxes[0].tkhd_box.track_id, 1);
    assert_eq!(decoded.trak_boxes[1].tkhd_box.track_id, 2);
    assert_eq!(decoded.trak_boxes[2].tkhd_box.track_id, 3);
}

#[test]
fn trak_box_minimal() {
    let trak = minimal_trak_box_audio(1);
    let encoded = trak.encode_to_vec().unwrap();
    let (decoded, _) = TrakBox::decode(&encoded).unwrap();
    assert_eq!(decoded.tkhd_box.track_id, 1);
    assert!(decoded.edts_box.is_none());
}

#[test]
fn mdia_box_minimal() {
    let mdia = minimal_mdia_box_audio();
    let encoded = mdia.encode_to_vec().unwrap();
    let (decoded, _) = MdiaBox::decode(&encoded).unwrap();
    assert_eq!(decoded.hdlr_box.handler_type, HdlrBox::HANDLER_TYPE_SOUN());
}

#[test]
fn minf_box_audio_minimal() {
    let minf = minimal_minf_box_audio();
    let encoded = minf.encode_to_vec().unwrap();
    let (decoded, _) = MinfBox::decode(&encoded).unwrap();
    assert!(matches!(decoded.smhd_or_vmhd_box, Some(Either::A(_))));
}

#[test]
fn stbl_box_empty_samples() {
    let stbl = minimal_stbl_box_audio();
    let encoded = stbl.encode_to_vec().unwrap();
    let (decoded, _) = StblBox::decode(&encoded).unwrap();
    assert!(decoded.stts_box.entries.is_empty());
    assert!(decoded.stsc_box.entries.is_empty());
    match &decoded.stco_or_co64_box {
        Either::A(stco) => assert!(stco.chunk_offsets.is_empty()),
        Either::B(_) => panic!("Expected StcoBox"),
    }
}

#[test]
fn stsd_box_multiple_entries() {
    let stsd = StsdBox { entries: vec![minimal_audio_entry(), minimal_audio_entry()] };
    let encoded = stsd.encode_to_vec().unwrap();
    let (decoded, _) = StsdBox::decode(&encoded).unwrap();
    assert_eq!(decoded.entries.len(), 2);
}

fn framed(box_type: &[u8; 4], payload: &[u8]) -> Vec<u8> {
    let mut v = ((8 + payload.len()) as u32).to_be_bytes().to_vec();
    v.extend_from_slice(box_type);
    v.extend_from_slice(payload);
    v
}

#[test]
fn stbl_children_are_walked_in_order() {
    let base = minimal_stbl_box_audio();
    let stss = lib::boxes::StssBox { sample_numbers: vec![NonZeroU32::new(1).unwrap()] };
    let extra_stsd = StsdBox { entries: vec![minimal_audio_entry()] };
    let mut payload = Vec::new();
    payload.extend(base.stsd_box.encode_to_vec().unwrap());
    payload.extend(framed(b"abcd", &[1, 2]));
    payload.extend(base.stts_box.encode_to_vec().unwrap());
    payload.extend(base.stsc_box.encode_to_vec().unwrap());
    payload.extend(base.stsz_box.encode_to_vec().unwrap());
    let co64 = lib::boxes::Co64Box { chunk_offsets: vec![7] };
    payload.extend(co64.encode_to_vec().unwrap());
    payload.extend(StcoBox { chunk_offsets: vec![9] }.encode_to_vec().unwrap());
    payload.extend(stss.encode_to_vec().unwrap());
    payload.extend(extra_stsd.encode_to_vec().unwrap());
    payload.extend(framed(b"wxyz", &[3]));
    let bytes = framed(b"stbl", &payload);
    let (d, n) = StblBox::decode(&bytes).unwrap();
    assert_eq!(n, bytes.len());
    // The stco box wins over the co64 box that came first.
    match &d.stco_or_co64_box {
        Either::A(b) => assert_eq!(b.chunk_offsets, vec![9]),
        Either::B(_) => panic!("expected the stco box"),
    }
    assert_eq!(d.stss_box.as_ref().map(|b| b.sample_numbers.len()), Some(1));
    // Unknown children, and the second stsd box, are kept in order.
    let types: Vec<BoxType> = d.unknown_boxes.iter().map(|u| u.box_type).collect();
    assert_eq!(
        types,
        vec![BoxType::Normal(*b"abcd"), BoxType::Normal(*b"stsd"), BoxType::Normal(*b"wxyz")]
    );
}

#[test]
fn mvex_box_reads_back_its_children() {
    let trex = |id: u32| TrexBox {
        track_id: id,
        default_sample_description_index: 1,
        default_sample_duration: 100 + id,
        default_sample_size: 7,
        default_sample_flags: SampleFlags::new(0x0101_0000),
    };
    for mehd in [None, Some(MehdBox { fragment_duration: 5000 })] {
        let b = MvexBox { mehd_box: mehd.clone(), trex_boxes: vec![trex(1), trex(2)], unknown_boxes: Vec::new() };
        let bytes = b.encode_to_vec().unwrap();
        let (v, n) = MvexBox::decode(&bytes).unwrap();
        assert_eq!(n, bytes.len());
        assert_eq!(v.mehd_box.map(|m| m.fragment_duration), mehd.map(|m| m.fragment_duration));
        assert_eq!(v.trex_boxes.len(), 2);
        for (i, t) in v.trex_boxes.iter().enumerate() {
            assert_eq!(t.track_id, i as u32 + 1);
            assert_eq!(t.default_sample_duration, 101 + i as u32);
            assert_eq!(t.default_sample_size, 7);
            assert_eq!(t.default_sample_flags.get(), 0x0101_0000);
        }
        assert!(v.unknown_boxes.is_empty());
    }
}

#[test]
fn edts_box_reads_back_its_edit_list() {
    let elst = ElstBox {
        entries: vec![ElstEntry {
            edit_duration: 1000,
            media_time: -1,
            media_rate: FixedPointNumber::new(1i16, 0i16),
        }],
    };
    let b = EdtsBox { elst_box: Some(elst), unknown_boxes: Vec::new() };
    let bytes = b.encode_to_vec().unwrap();
    let (v, n) = EdtsBox::decode(&bytes).unwrap();
    assert_eq!(n, bytes.len());
    let e = v.elst_box.expect("elst");
    assert_eq!(e.entries.len(), 1);
    assert_eq!(e.entries[0].edit_duration, 1000);
    assert_eq!(e.entries[0].media_time, -1);
    let empty = EdtsBox { elst_box: None, unknown_boxes: Vec::new() };
    let bytes = empty.encode_to_vec().unwrap();
    let (v, _) = EdtsBox::decode(&bytes).unwrap();
    assert!(v.elst_box.is_none() && v.unknown_boxes.is_empty());
}
