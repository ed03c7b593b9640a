use lib::boxes::{
    MehdBox, MfhdBox, MoofBox, MvexBox, SidxBox, SidxReference, TfdtBox, TfhdBox, TrafBox,
    TrexBox, TrunBox, TrunSample,
};
use lib::{BoxType, Decode, Encode, FullBox, SampleFlags};

#[test]
fn mehd_box_version0() {
    let mehd = MehdBox {
        fragment_duration: u32::MAX as u64,
    };
    assert_eq!(mehd.full_box_version(), 0);

    let encoded = mehd.encode_to_vec().unwrap();
    let (decoded, _) = MehdBox::decode(&encoded).unwrap();
    assert_eq!(decoded.fragment_duration, u32::MAX as u64);
}

#[test]
fn mehd_box_version1() {
    let mehd = MehdBox {
        fragment_duration: u32::MAX as u64 + 1,
    };
    assert_eq!(mehd.full_box_version(), 1);

    let encoded = mehd.encode_to_vec().unwrap();
    let (decoded, _) = MehdBox::decode(&encoded).unwrap();
    assert_eq!(decoded.fragment_duration, u32::MAX as u64 + 1);
}

#[test]
fn tfdt_box_version0() {
    let tfdt = TfdtBox {
        version: 0,
        base_media_decode_time: u32::MAX as u64,
    };
    assert_eq!(tfdt.full_box_version(), 0);

    let encoded = tfdt.encode_to_vec().unwrap();
    let (decoded, _) = TfdtBox::decode(&encoded).unwrap();
    assert_eq!(decoded.base_media_decode_time, u32::MAX as u64);
}

#[test]
fn tfdt_box_version1() {
    let tfdt = TfdtBox {
        version: 1,
        base_media_decode_time: u32::MAX as u64 + 1,
    };
    assert_eq!(tfdt.full_box_version(), 1);

    let encoded = tfdt.encode_to_vec().unwrap();
    let (decoded, _) = TfdtBox::decode(&encoded).unwrap();
    assert_eq!(decoded.base_media_decode_time, u32::MAX as u64 + 1);
}

#[test]
fn tfhd_box_no_flags() {
    let tfhd = TfhdBox {
        track_id: 1,
        base_data_offset: None,
        sample_description_index: None,
        default_sample_duration: None,
        default_sample_size: None,
        default_sample_flags: None,
        duration_is_empty: false,
        default_base_is_moof: false,
    };
    assert_eq!(tfhd.full_box_flags().get(), 0);

    let encoded = tfhd.encode_to_vec().unwrap();
    let (decoded, _) = TfhdBox::decode(&encoded).unwrap();
    assert_eq!(decoded.track_id, 1);
    assert!(decoded.base_data_offset.is_none());
}

#[test]
fn tfhd_box_all_flags() {
    let tfhd = TfhdBox {
        track_id: 1,
        base_data_offset: Some(100),
        sample_description_index: Some(1),
        default_sample_duration: Some(1024),
        default_sample_size: Some(512),
        default_sample_flags: Some(SampleFlags::new(0x01010000)),
        duration_is_empty: true,
        default_base_is_moof: true,
    };

    let flags = tfhd.full_box_flags().get();
    assert!(flags & TfhdBox::FLAG_BASE_DATA_OFFSET_PRESENT != 0);
    assert!(flags & TfhdBox::FLAG_SAMPLE_DESCRIPTION_INDEX_PRESENT != 0);
    assert!(flags & TfhdBox::FLAG_DEFAULT_SAMPLE_DURATION_PRESENT != 0);
    assert!(flags & TfhdBox::FLAG_DEFAULT_SAMPLE_SIZE_PRESENT != 0);
    assert!(flags & TfhdBox::FLAG_DEFAULT_SAMPLE_FLAGS_PRESENT != 0);
    assert!(flags & TfhdBox::FLAG_DURATION_IS_EMPTY != 0);
    assert!(flags & TfhdBox::FLAG_DEFAULT_BASE_IS_MOOF != 0);

    let encoded = tfhd.encode_to_vec().unwrap();
    let (decoded, _) = TfhdBox::decode(&encoded).unwrap();
    assert_eq!(decoded.base_data_offset, Some(100));
    assert_eq!(decoded.sample_description_index, Some(1));
    assert_eq!(decoded.default_sample_duration, Some(1024));
    assert_eq!(decoded.default_sample_size, Some(512));
    assert!(decoded.duration_is_empty);
    assert!(decoded.default_base_is_moof);
}

#[test]
fn trun_box_empty_samples() {
    let trun = TrunBox {
        data_offset: Some(8),
        first_sample_flags: None,
        samples: vec![],
    };

    let encoded = trun.encode_to_vec().unwrap();
    let (decoded, _) = TrunBox::decode(&encoded).unwrap();
    assert!(decoded.samples.is_empty());
    assert_eq!(decoded.data_offset, Some(8));
}

#[test]
fn trun_box_multiple_samples() {
    let trun = TrunBox {
        data_offset: None,
        first_sample_flags: Some(SampleFlags::new(0x02000000)),
        samples: vec![
            TrunSample {
                duration: Some(1024),
                size: Some(512),
                flags: Some(SampleFlags::new(0x01010000)),
                composition_time_offset: Some(0),
            },
            TrunSample {
                duration: Some(1024),
                size: Some(256),
                flags: Some(SampleFlags::new(0x01010000)),
                composition_time_offset: Some(1024),
            },
        ],
    };

    let encoded = trun.encode_to_vec().unwrap();
    let (decoded, _) = TrunBox::decode(&encoded).unwrap();
    assert_eq!(decoded.samples.len(), 2);
    assert_eq!(decoded.samples[0].duration, Some(1024));
    assert_eq!(decoded.samples[1].size, Some(256));
}

#[test]
fn trun_box_negative_cto() {
    let trun = TrunBox {
        data_offset: None,
        first_sample_flags: None,
        samples: vec![TrunSample {
            duration: Some(1024),
            size: Some(512),
            flags: None,
            composition_time_offset: Some(-100),
        }],
    };

    assert_eq!(trun.full_box_version(), 1);

    let encoded = trun.encode_to_vec().unwrap();
    let (decoded, _) = TrunBox::decode(&encoded).unwrap();
    assert_eq!(decoded.samples[0].composition_time_offset, Some(-100));
}

#[test]
fn sidx_box_version0() {
    let sidx = SidxBox {
        reference_id: 1,
        timescale: 90000,
        earliest_presentation_time: u32::MAX as u64,
        first_offset: u32::MAX as u64,
        references: vec![],
    };
    assert_eq!(sidx.full_box_version(), 0);

    let encoded = sidx.encode_to_vec().unwrap();
    let (decoded, _) = SidxBox::decode(&encoded).unwrap();
    assert_eq!(decoded.earliest_presentation_time, u32::MAX as u64);
}

#[test]
fn sidx_box_version1() {
    let sidx = SidxBox {
        reference_id: 1,
        timescale: 90000,
        earliest_presentation_time: u32::MAX as u64 + 1,
        first_offset: 0,
        references: vec![],
    };
    assert_eq!(sidx.full_box_version(), 1);

    let encoded = sidx.encode_to_vec().unwrap();
    let (decoded, _) = SidxBox::decode(&encoded).unwrap();
    assert_eq!(decoded.earliest_presentation_time, u32::MAX as u64 + 1);
}

#[test]
fn sidx_box_multiple_references() {
    let sidx = SidxBox {
        reference_id: 1,
        timescale: 90000,
        earliest_presentation_time: 0,
        first_offset: 0,
        references: vec![
            SidxReference {
                reference_type: false,
                referenced_size: 10000,
                subsegment_duration: 90000,
                starts_with_sap: true,
                sap_type: 1,
                sap_delta_time: 0,
            },
            SidxReference {
                reference_type: true,
                referenced_size: 5000,
                subsegment_duration: 45000,
                starts_with_sap: false,
                sap_type: 0,
                sap_delta_time: 1000,
            },
        ],
    };

    let encoded = sidx.encode_to_vec().unwrap();
    let (decoded, _) = SidxBox::decode(&encoded).unwrap();
    assert_eq!(decoded.references.len(), 2);
    assert!(!decoded.references[0].reference_type);
    assert!(decoded.references[1].reference_type);
    assert_eq!(decoded.references[0].referenced_size, 10000);
    assert_eq!(decoded.references[1].sap_delta_time, 1000);
}

#[test]
fn moof_box_minimal() {
    let moof = MoofBox {
        mfhd_box: MfhdBox { sequence_number: 1 },
        traf_boxes: vec![],
        unknown_boxes: vec![],
    };

    let encoded = moof.encode_to_vec().unwrap();
    let (decoded, _) = MoofBox::decode(&encoded).unwrap();
    assert_eq!(decoded.mfhd_box.sequence_number, 1);
    assert!(decoded.traf_boxes.is_empty());
}

#[test]
fn moof_box_multiple_traf() {
    let moof = MoofBox {
        mfhd_box: MfhdBox { sequence_number: 1 },
        traf_boxes: vec![
            TrafBox {
                tfhd_box: TfhdBox {
                    track_id: 1,
                    base_data_offset: None,
                    sample_description_index: None,
                    default_sample_duration: None,
                    default_sample_size: None,
                    default_sample_flags: None,
                    duration_is_empty: false,
                    default_base_is_moof: true,
                },
                tfdt_box: Some(TfdtBox {
                    version: 0,
                    base_media_decode_time: 0,
                }),
                trun_boxes: vec![],
                unknown_boxes: vec![],
            },
            TrafBox {
                tfhd_box: TfhdBox {
                    track_id: 2,
                    base_data_offset: None,
                    sample_description_index: None,
                    default_sample_duration: None,
                    default_sample_size: None,
                    default_sample_flags: None,
                    duration_is_empty: false,
                    default_base_is_moof: true,
                },
                tfdt_box: None,
                trun_boxes: vec![],
                unknown_boxes: vec![],
            },
        ],
        unknown_boxes: vec![],
    };

    let encoded = moof.encode_to_vec().unwrap();
    let (decoded, _) = MoofBox::decode(&encoded).unwrap();
    assert_eq!(decoded.traf_boxes.len(), 2);
    assert_eq!(decoded.traf_boxes[0].tfhd_box.track_id, 1);
    assert_eq!(decoded.traf_boxes[1].tfhd_box.track_id, 2);
    assert!(decoded.traf_boxes[0].tfdt_box.is_some());
    assert!(decoded.traf_boxes[1].tfdt_box.is_none());
}

#[test]
fn mvex_box_minimal() {
    let mvex = MvexBox {
        mehd_box: None,
        trex_boxes: vec![],
        unknown_boxes: vec![],
    };

    let encoded = mvex.encode_to_vec().unwrap();
    let (decoded, _) = MvexBox::decode(&encoded).unwrap();
    assert!(decoded.mehd_box.is_none());
    assert!(decoded.trex_boxes.is_empty());
}

#[test]
fn mvex_box_full() {
    let mvex = MvexBox {
        mehd_box: Some(MehdBox {
            fragment_duration: 1000000,
        }),
        trex_boxes: vec![
            TrexBox {
                track_id: 1,
                default_sample_description_index: 1,
                default_sample_duration: 1024,
                default_sample_size: 0,
                default_sample_flags: SampleFlags::new(0x01010000),
            },
            TrexBox {
                track_id: 2,
                default_sample_description_index: 1,
                default_sample_duration: 1024,
                default_sample_size: 0,
                default_sample_flags: SampleFlags::new(0x02000000),
            },
        ],
        unknown_boxes: vec![],
    };

    let encoded = mvex.encode_to_vec().unwrap();
    let (decoded, _) = MvexBox::decode(&encoded).unwrap();
    assert!(decoded.mehd_box.is_some());
    assert_eq!(decoded.mehd_box.unwrap().fragment_duration, 1000000);
    assert_eq!(decoded.trex_boxes.len(), 2);
    assert_eq!(decoded.trex_boxes[0].track_id, 1);
    assert_eq!(decoded.trex_boxes[1].track_id, 2);
}

#[test]
fn fmp4_box_types() {
    assert_eq!(MoofBox::TYPE(), BoxType::Normal(*b"moof"));
    assert_eq!(MfhdBox::TYPE(), BoxType::Normal(*b"mfhd"));
    assert_eq!(TrafBox::TYPE(), BoxType::Normal(*b"traf"));
    assert_eq!(TfhdBox::TYPE(), BoxType::Normal(*b"tfhd"));
    assert_eq!(TrunBox::TYPE(), BoxType::Normal(*b"trun"));
    assert_eq!(TfdtBox::TYPE(), BoxType::Normal(*b"tfdt"));
    assert_eq!(SidxBox::TYPE(), BoxType::Normal(*b"sidx"));
    assert_eq!(MvexBox::TYPE(), BoxType::Normal(*b"mvex"));
    assert_eq!(MehdBox::TYPE(), BoxType::Normal(*b"mehd"));
    assert_eq!(TrexBox::TYPE(), BoxType::Normal(*b"trex"));
}

#[test]
fn traf_box_reads_back_its_children() {
    let sample = |d: u32| TrunSample {
        duration: Some(d),
        size: Some(100 + d),
        flags: None,
        composition_time_offset: None,
    };
    for with_tfdt in [false, true] {
        let traf = TrafBox {
            tfhd_box: TfhdBox {
                track_id: 3,
                base_data_offset: None,
                sample_description_index: Some(1),
                default_sample_duration: None,
                default_sample_size: None,
                default_sample_flags: None,
                duration_is_empty: false,
                default_base_is_moof: true,
            },
            tfdt_box: if with_tfdt {
                Some(TfdtBox { version: 1, base_media_decode_time: 90_000 })
            } else {
                None
            },
            trun_boxes: vec![
                TrunBox { data_offset: Some(8), first_sample_flags: None, samples: vec![sample(1), sample(2)] },
                TrunBox { data_offset: Some(208), first_sample_flags: None, samples: vec![sample(3)] },
            ],
            unknown_boxes: Vec::new(),
        };
        let bytes = traf.encode_to_vec().unwrap();
        let (v, n) = TrafBox::decode(&bytes).unwrap();
        assert_eq!(n, bytes.len());
        assert_eq!(v.tfhd_box.track_id, 3);
        assert_eq!(v.tfhd_box.sample_description_index, Some(1));
        assert!(v.tfhd_box.default_base_is_moof);
        assert_eq!(v.tfdt_box.map(|d| d.base_media_decode_time), if with_tfdt { Some(90_000) } else { None });
        assert_eq!(v.trun_boxes.len(), 2);
        assert_eq!(v.trun_boxes[0].data_offset, Some(8));
        assert_eq!(v.trun_boxes[1].data_offset, Some(208));
        assert_eq!(v.trun_boxes[0].samples.len(), 2);
        assert_eq!(v.trun_boxes[0].samples[1].duration, Some(2));
        assert_eq!(v.trun_boxes[1].samples[0].size, Some(103));
        assert!(v.unknown_boxes.is_empty());
    }
}

#[test]
fn moof_box_reads_back_its_fragments() {
    let traf = |id: u32, offset: i32| TrafBox {
        tfhd_box: TfhdBox {
            track_id: id,
            base_data_offset: None,
            sample_description_index: None,
            default_sample_duration: Some(1000),
            default_sample_size: None,
            default_sample_flags: None,
            duration_is_empty: false,
            default_base_is_moof: true,
        },
        tfdt_box: Some(TfdtBox { version: 0, base_media_decode_time: 42 }),
        trun_boxes: vec![TrunBox {
            data_offset: Some(offset),
            first_sample_flags: None,
            samples: vec![TrunSample { duration: None, size: Some(10), flags: None, composition_time_offset: None }],
        }],
        unknown_boxes: Vec::new(),
    };
    let moof = MoofBox {
        mfhd_box: MfhdBox { sequence_number: 7 },
        traf_boxes: vec![traf(1, 100), traf(2, 110)],
        unknown_boxes: Vec::new(),
    };
    let bytes = moof.encode_to_vec().unwrap();
    let (v, n) = MoofBox::decode(&bytes).unwrap();
    assert_eq!(n, bytes.len());
    assert_eq!(v.mfhd_box.sequence_number, 7);
    assert_eq!(v.traf_boxes.len(), 2);
    for (i, t) in v.traf_boxes.iter().enumerate() {
        assert_eq!(t.tfhd_box.track_id, i as u32 + 1);
        assert_eq!(t.tfhd_box.default_sample_duration, Some(1000));
        assert_eq!(t.tfdt_box.as_ref().map(|d| d.base_media_decode_time), Some(42));
        assert_eq!(t.trun_boxes[0].data_offset, Some(100 + 10 * i as i32));
        assert_eq!(t.trun_boxes[0].samples[0].size, Some(10));
    }
    assert!(v.unknown_boxes.is_empty());
}
