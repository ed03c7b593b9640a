use lib::boxes::{
    Brand, Co64Box, ElstBox, ElstEntry, FtypBox, HdlrBox, MdhdBox, MehdBox, MfhdBox, MfroBox,
    MvhdBox, SidxBox, SidxReference, SmhdBox, StcoBox, StscBox, StscEntry, StssBox, StszBox, SttsBox, SttsEntry, TfdtBox,
    TfhdBox, TfraBox, TfraEntry, TkhdBox, TrexBox, TrunBox, TrunSample, UrlBox, VmhdBox,
};
use lib::descriptors::{DecoderConfigDescriptor, DecoderSpecificInfo, SlConfigDescriptor};
use lib::{Decode, Encode, Uint, FixedPointNumber, Mp4FileTime, NonZeroU32, SampleFlags, Utf8String};

fn with_tail(mut bytes: Vec<u8>) -> (Vec<u8>, usize) {
    let n = bytes.len();
    bytes.extend_from_slice(&[0xaa, 0xbb, 0xcc]);
    (bytes, n)
}

#[test]
fn mfhd_roundtrip_with_trailing_bytes() {
    let b = MfhdBox { sequence_number: 0x0102_0304 };
    let (bytes, n) = with_tail(b.encode_to_vec().unwrap());
    assert_eq!(n, 16);
    let (d, m) = MfhdBox::decode(&bytes).unwrap();
    assert_eq!(m, n);
    assert_eq!(d.sequence_number, 0x0102_0304);
}

#[test]
fn mfro_roundtrip() {
    let b = MfroBox { size: 77 };
    let (bytes, n) = with_tail(b.encode_to_vec().unwrap());
    let (d, m) = MfroBox::decode(&bytes).unwrap();
    assert_eq!((d.size, m), (77, n));
}

#[test]
fn tfdt_roundtrip_keeps_version() {
    let b = TfdtBox { version: 0, base_media_decode_time: 90_000 };
    let bytes = b.encode_to_vec().unwrap();
    assert_eq!(bytes.len(), 16);
    let (d, _) = TfdtBox::decode(&bytes).unwrap();
    assert_eq!((d.version, d.base_media_decode_time), (0, 90_000));
}

#[test]
fn tfdt_large_time_is_written_with_version_1() {
    let b = TfdtBox { version: 0, base_media_decode_time: 1 << 40 };
    let bytes = b.encode_to_vec().unwrap();
    assert_eq!(bytes.len(), 20);
    let (d, _) = TfdtBox::decode(&bytes).unwrap();
    assert_eq!((d.version, d.base_media_decode_time), (1, 1 << 40));
}

#[test]
fn mehd_roundtrip_both_versions() {
    for v in [1000u64, 1 << 33] {
        let b = MehdBox { fragment_duration: v };
        let (bytes, n) = with_tail(b.encode_to_vec().unwrap());
        let (d, m) = MehdBox::decode(&bytes).unwrap();
        assert_eq!((d.fragment_duration, m), (v, n));
    }
}

#[test]
fn trex_roundtrip() {
    let b = TrexBox {
        track_id: 2,
        default_sample_description_index: 1,
        default_sample_duration: 1024,
        default_sample_size: 512,
        default_sample_flags: SampleFlags::new(0x0101_0000),
    };
    let (bytes, n) = with_tail(b.encode_to_vec().unwrap());
    let (d, m) = TrexBox::decode(&bytes).unwrap();
    assert_eq!(m, n);
    assert_eq!(d.track_id, 2);
    assert_eq!(d.default_sample_description_index, 1);
    assert_eq!(d.default_sample_duration, 1024);
    assert_eq!(d.default_sample_size, 512);
    assert_eq!(d.default_sample_flags.get(), 0x0101_0000);
}

#[test]
fn stco_and_co64_roundtrip() {
    let b = StcoBox { chunk_offsets: vec![0, 1, u32::MAX] };
    let (bytes, _) = with_tail(b.encode_to_vec().unwrap());
    let (d, _) = StcoBox::decode(&bytes).unwrap();
    assert_eq!(d.chunk_offsets, vec![0, 1, u32::MAX]);

    let b = Co64Box { chunk_offsets: vec![u64::MAX, 5] };
    let (bytes, _) = with_tail(b.encode_to_vec().unwrap());
    let (d, _) = Co64Box::decode(&bytes).unwrap();
    assert_eq!(d.chunk_offsets, vec![u64::MAX, 5]);
}

#[test]
fn stss_roundtrip() {
    let nums = vec![NonZeroU32::new(1).unwrap(), NonZeroU32::new(31).unwrap()];
    let b = StssBox { sample_numbers: nums.clone() };
    let (bytes, _) = with_tail(b.encode_to_vec().unwrap());
    let (d, _) = StssBox::decode(&bytes).unwrap();
    assert_eq!(d.sample_numbers, nums);
}

#[test]
fn stts_roundtrip() {
    let entries = vec![
        SttsEntry { sample_count: 3, sample_delta: 1000 },
        SttsEntry { sample_count: u32::MAX, sample_delta: u32::MAX },
    ];
    let b = SttsBox { entries: entries.clone() };
    let (bytes, n) = with_tail(b.encode_to_vec().unwrap());
    let (d, m) = SttsBox::decode(&bytes).unwrap();
    assert_eq!(m, n);
    assert_eq!(d.entries, entries);
}

#[test]
fn stsz_roundtrip_fixed_and_variable() {
    let b = StszBox::Fixed { sample_size: NonZeroU32::new(256).unwrap(), sample_count: 10 };
    let (bytes, _) = with_tail(b.encode_to_vec().unwrap());
    match StszBox::decode(&bytes).unwrap().0 {
        StszBox::Fixed { sample_size, sample_count } => {
            assert_eq!((sample_size.get(), sample_count), (256, 10));
        }
        StszBox::Variable { .. } => panic!("expected a fixed size"),
    }
    let b = StszBox::Variable { entry_sizes: vec![7, 8, 9] };
    let (bytes, _) = with_tail(b.encode_to_vec().unwrap());
    match StszBox::decode(&bytes).unwrap().0 {
        StszBox::Variable { entry_sizes } => assert_eq!(entry_sizes, vec![7, 8, 9]),
        StszBox::Fixed { .. } => panic!("expected sizes"),
    }
}

#[test]
fn smhd_roundtrip() {
    let b = SmhdBox { balance: FixedPointNumber::new(1u8, 128u8) };
    let (bytes, _) = with_tail(b.encode_to_vec().unwrap());
    let (d, _) = SmhdBox::decode(&bytes).unwrap();
    assert_eq!((d.balance.integer, d.balance.fraction), (1, 128));
}

#[test]
fn ftyp_roundtrip() {
    let b = FtypBox {
        major_brand: Brand::new(*b"isom"),
        minor_version: 512,
        compatible_brands: vec![Brand::new(*b"iso2"), Brand::new(*b"mp41")],
    };
    let (bytes, n) = with_tail(b.encode_to_vec().unwrap());
    let (d, m) = FtypBox::decode(&bytes).unwrap();
    assert_eq!(m, n);
    assert_eq!(d.major_brand.get(), *b"isom");
    assert_eq!(d.minor_version, 512);
    let brands: Vec<[u8; 4]> = d.compatible_brands.iter().map(|b| b.get()).collect();
    assert_eq!(brands, vec![*b"iso2", *b"mp41"]);
}

fn identity_matrix() -> [i32; 9] {
    [0x0001_0000, 0, 0, 0, 0x0001_0000, 0, 0, 0, 0x4000_0000]
}

#[test]
fn mvhd_roundtrip_both_versions() {
    for (created, duration) in [(5u64, 1000u64), (0x1_0000_0000, 7)] {
        let b = MvhdBox {
            creation_time: Mp4FileTime::from_secs(created),
            modification_time: Mp4FileTime::from_secs(created + 1),
            timescale: NonZeroU32::new(1000).unwrap(),
            duration,
            rate: FixedPointNumber::new(-2i16, 3u16),
            volume: FixedPointNumber::new(-1i8, 9u8),
            matrix: [1, -2, 3, -4, 5, -6, 7, -8, 9],
            next_track_id: 3,
        };
        let (bytes, n) = with_tail(b.encode_to_vec().unwrap());
        assert_eq!(n, if created > u32::MAX as u64 { 120 } else { 108 });
        let (d, m) = MvhdBox::decode(&bytes).unwrap();
        assert_eq!(m, n);
        assert_eq!(d.creation_time.as_secs(), created);
        assert_eq!(d.modification_time.as_secs(), created + 1);
        assert_eq!(d.timescale.get(), 1000);
        assert_eq!(d.duration, duration);
        assert_eq!((d.rate.integer, d.rate.fraction), (-2, 3));
        assert_eq!((d.volume.integer, d.volume.fraction), (-1, 9));
        assert_eq!(d.matrix, [1, -2, 3, -4, 5, -6, 7, -8, 9]);
        assert_eq!(d.next_track_id, 3);
    }
}

#[test]
fn tkhd_roundtrip_keeps_flags() {
    let b = TkhdBox {
        flag_track_enabled: true,
        flag_track_in_movie: false,
        flag_track_in_preview: true,
        flag_track_size_is_aspect_ratio: false,
        creation_time: Mp4FileTime::from_secs(10),
        modification_time: Mp4FileTime::from_secs(11),
        track_id: 2,
        duration: 0x2_0000_0000,
        layer: -1,
        alternate_group: 4,
        volume: FixedPointNumber::new(1i8, 0u8),
        matrix: identity_matrix(),
        width: FixedPointNumber::new(640i16, 5u16),
        height: FixedPointNumber::new(480i16, 6u16),
    };
    let (bytes, n) = with_tail(b.encode_to_vec().unwrap());
    assert_eq!(n, 8 + 36 + 60);
    let (d, m) = TkhdBox::decode(&bytes).unwrap();
    assert_eq!(m, n);
    assert!(d.flag_track_enabled && !d.flag_track_in_movie && d.flag_track_in_preview);
    assert!(!d.flag_track_size_is_aspect_ratio);
    assert_eq!((d.track_id, d.duration, d.layer, d.alternate_group), (2, 0x2_0000_0000, -1, 4));
    assert_eq!(d.matrix, identity_matrix());
    assert_eq!((d.width.integer, d.width.fraction), (640, 5));
    assert_eq!((d.height.integer, d.height.fraction), (480, 6));
}

#[test]
fn mdhd_roundtrip_language() {
    let b = MdhdBox {
        creation_time: Mp4FileTime::from_secs(0),
        modification_time: Mp4FileTime::from_secs(0),
        timescale: NonZeroU32::new(48000).unwrap(),
        duration: 96000,
        language: *b"jpn",
    };
    let (bytes, n) = with_tail(b.encode_to_vec().unwrap());
    let (d, m) = MdhdBox::decode(&bytes).unwrap();
    assert_eq!(m, n);
    assert_eq!(d.language, *b"jpn");
    assert_eq!((d.timescale.get(), d.duration), (48000, 96000));
}

#[test]
fn hdlr_vmhd_roundtrip() {
    let b = HdlrBox { handler_type: *b"vide", name: b"Video\0".to_vec() };
    let (bytes, n) = with_tail(b.encode_to_vec().unwrap());
    let (d, m) = HdlrBox::decode(&bytes).unwrap();
    assert_eq!(m, n);
    assert_eq!(d.handler_type, *b"vide");
    assert_eq!(d.name, b"Video\0".to_vec());

    let v = VmhdBox { graphicsmode: 3, opcolor: [1, 2, 0xffff] };
    let (bytes, n) = with_tail(v.encode_to_vec().unwrap());
    let (d, m) = VmhdBox::decode(&bytes).unwrap();
    assert_eq!(m, n);
    assert_eq!((d.graphicsmode, d.opcolor), (3, [1, 2, 0xffff]));
}

#[test]
fn stsc_roundtrip() {
    let e = |a: u32, s: u32, i: u32| StscEntry {
        first_chunk: NonZeroU32::new(a).unwrap(),
        sample_per_chunk: s,
        sample_description_index: NonZeroU32::new(i).unwrap(),
    };
    let b = StscBox { entries: vec![e(1, 10, 1), e(5, 3, 2)] };
    let (bytes, n) = with_tail(b.encode_to_vec().unwrap());
    assert_eq!(n, 16 + 24);
    let (d, m) = StscBox::decode(&bytes).unwrap();
    assert_eq!(m, n);
    let got: Vec<(u32, u32, u32)> = d
        .entries
        .iter()
        .map(|x| (x.first_chunk.get(), x.sample_per_chunk, x.sample_description_index.get()))
        .collect();
    assert_eq!(got, vec![(1, 10, 1), (5, 3, 2)]);
}

#[test]
fn elst_roundtrip_both_layouts() {
    for (dur, time) in [(100u64, -1i64), (0x1_0000_0000, 5)] {
        let b = ElstBox {
            entries: vec![ElstEntry {
                edit_duration: dur,
                media_time: time,
                media_rate: FixedPointNumber::new(1i16, -3i16),
            }],
        };
        let (bytes, n) = with_tail(b.encode_to_vec().unwrap());
        let (d, m) = ElstBox::decode(&bytes).unwrap();
        assert_eq!(m, n);
        assert_eq!(d.entries.len(), 1);
        let x = &d.entries[0];
        assert_eq!((x.edit_duration, x.media_time), (dur, time));
        assert_eq!((x.media_rate.integer, x.media_rate.fraction), (1, -3));
    }
}

#[test]
fn url_roundtrip() {
    let b = UrlBox { location: None };
    let (bytes, n) = with_tail(b.encode_to_vec().unwrap());
    let (d, m) = UrlBox::decode(&bytes).unwrap();
    assert_eq!(m, n);
    assert!(d.location.is_none());

    let b = UrlBox { location: Some(Utf8String::new("http://x").unwrap()) };
    let (bytes, n) = with_tail(b.encode_to_vec().unwrap());
    let (d, m) = UrlBox::decode(&bytes).unwrap();
    assert_eq!(m, n);
    assert_eq!(d.location.unwrap().get(), "http://x");
}

#[test]
fn tfhd_roundtrip_optional_fields() {
    let b = TfhdBox {
        track_id: 7,
        base_data_offset: Some(0x1_0000_0001),
        sample_description_index: None,
        default_sample_duration: Some(1024),
        default_sample_size: None,
        default_sample_flags: Some(SampleFlags::new(0x0101_0000)),
        duration_is_empty: false,
        default_base_is_moof: true,
    };
    let (bytes, n) = with_tail(b.encode_to_vec().unwrap());
    assert_eq!(n, 8 + 8 + 8 + 4 + 4);
    let (d, m) = TfhdBox::decode(&bytes).unwrap();
    assert_eq!(m, n);
    assert_eq!(d.track_id, 7);
    assert_eq!(d.base_data_offset, Some(0x1_0000_0001));
    assert_eq!(d.sample_description_index, None);
    assert_eq!(d.default_sample_duration, Some(1024));
    assert_eq!(d.default_sample_size, None);
    assert_eq!(d.default_sample_flags.map(|f| f.get()), Some(0x0101_0000));
    assert!(!d.duration_is_empty && d.default_base_is_moof);
}

#[test]
fn trun_roundtrip_uniform_samples() {
    let sample = |d: u32, s: u32, c: i32| TrunSample {
        duration: Some(d),
        size: Some(s),
        flags: None,
        composition_time_offset: Some(c),
    };
    let b = TrunBox {
        data_offset: Some(-8),
        first_sample_flags: Some(SampleFlags::new(0x0200_0000)),
        samples: vec![sample(10, 100, 0), sample(20, 200, -5)],
    };
    let (bytes, n) = with_tail(b.encode_to_vec().unwrap());
    assert_eq!(n, 8 + 8 + 4 + 4 + 2 * 12);
    let (d, m) = TrunBox::decode(&bytes).unwrap();
    assert_eq!(m, n);
    assert_eq!(d.data_offset, Some(-8));
    assert_eq!(d.first_sample_flags.map(|f| f.get()), Some(0x0200_0000));
    assert_eq!(d.samples.len(), 2);
    assert_eq!((d.samples[1].duration, d.samples[1].size), (Some(20), Some(200)));
    assert_eq!(d.samples[1].composition_time_offset, Some(-5));
    assert!(d.samples[0].flags.is_none());
}

#[test]
fn sidx_roundtrip_both_versions() {
    for first_offset in [16u64, 0x1_0000_0000] {
        let b = SidxBox {
            reference_id: 1,
            timescale: 90_000,
            earliest_presentation_time: 3000,
            first_offset,
            references: vec![SidxReference {
                reference_type: true,
                referenced_size: 0x7fff_fff0,
                subsegment_duration: 180_000,
                starts_with_sap: true,
                sap_type: 3,
                sap_delta_time: 0x0fff_ffff,
            }],
        };
        let (bytes, n) = with_tail(b.encode_to_vec().unwrap());
        let (d, m) = SidxBox::decode(&bytes).unwrap();
        assert_eq!(m, n);
        assert_eq!((d.reference_id, d.timescale), (1, 90_000));
        assert_eq!((d.earliest_presentation_time, d.first_offset), (3000, first_offset));
        let r = &d.references[0];
        assert!(r.reference_type && r.starts_with_sap);
        assert_eq!((r.referenced_size, r.subsegment_duration), (0x7fff_fff0, 180_000));
        assert_eq!((r.sap_type, r.sap_delta_time), (3, 0x0fff_ffff));
    }
}

#[test]
fn tfra_roundtrip_sizes_and_version() {
    let entry = |time: u64| TfraEntry {
        time,
        moof_offset: 1000,
        traf_number: 0xff,
        trun_number: 0x1234,
        sample_number: 0x01_0203,
    };
    for (time, version) in [(10u64, 0u8), (0x1_0000_0000, 1)] {
        let b = TfraBox {
            version: 0,
            track_id: 1,
            length_size_of_traf_num: 0,
            length_size_of_trun_num: 1,
            length_size_of_sample_num: 2,
            entries: vec![entry(time)],
        };
        let (bytes, n) = with_tail(b.encode_to_vec().unwrap());
        let (d, m) = TfraBox::decode(&bytes).unwrap();
        assert_eq!(m, n);
        assert_eq!((d.version, d.track_id), (version, 1));
        assert_eq!(
            (d.length_size_of_traf_num, d.length_size_of_trun_num, d.length_size_of_sample_num),
            (0, 1, 2)
        );
        let e = &d.entries[0];
        assert_eq!((e.time, e.moof_offset), (time, 1000));
        assert_eq!((e.traf_number, e.trun_number, e.sample_number), (0xff, 0x1234, 0x01_0203));
    }
}

#[test]
fn descriptors_roundtrip() {
    let info = DecoderSpecificInfo { payload: vec![0x12, 0x10] };
    let (bytes, n) = with_tail(info.encode_to_vec().unwrap());
    let (d, m) = DecoderSpecificInfo::decode(&bytes).unwrap();
    assert_eq!((d.payload, m), (vec![0x12, 0x10], n));

    let (bytes, n) = with_tail(SlConfigDescriptor.encode_to_vec().unwrap());
    let (_, m) = SlConfigDescriptor::decode(&bytes).unwrap();
    assert_eq!(m, n);

    let c = DecoderConfigDescriptor {
        object_type_indication: 0x40,
        stream_type: Uint::<u8, 6, 2>::new(5),
        up_stream: Uint::<u8, 1, 1>::new(1),
        buffer_size_db: Uint::<u32, 24, 0>::new(0xab_cdef),
        max_bitrate: 128_000,
        avg_bitrate: 96_000,
        dec_specific_info: Some(DecoderSpecificInfo { payload: vec![1, 2, 3] }),
    };
    let (bytes, n) = with_tail(c.encode_to_vec().unwrap());
    let (d, m) = DecoderConfigDescriptor::decode(&bytes).unwrap();
    assert_eq!(m, n);
    assert_eq!(d.object_type_indication, 0x40);
    assert_eq!((d.stream_type.get(), d.up_stream.get(), d.buffer_size_db.get()), (5, 1, 0xab_cdef));
    assert_eq!((d.max_bitrate, d.avg_bitrate), (128_000, 96_000));
    assert_eq!(d.dec_specific_info.unwrap().payload, vec![1, 2, 3]);
}
