use lib::aux::SampleTableAccessor;
use lib::boxes::{
    SampleEntry, StblBox, StcoBox, StscBox, StscEntry, StsdBox, StssBox, StszBox, SttsBox,
    SttsEntry, UnknownBox,
};
use lib::{BoxSize, BoxType, Either, NonZeroU32};

fn nz(i: u32) -> NonZeroU32 {
    NonZeroU32::new(i).expect("invalid index")
}

fn entry() -> SampleEntry {
    SampleEntry::Unknown(UnknownBox {
        box_type: BoxType::Normal(*b"test"),
        box_size: BoxSize::U32(8),
        payload: Vec::new(),
    })
}

/// Nine samples: two of 10 ticks, seven of 3; three samples per chunk; sync samples 1, 1, 4.
fn table() -> StblBox {
    StblBox {
        stsd_box: StsdBox { entries: vec![entry()] },
        stts_box: SttsBox {
            entries: vec![
                SttsEntry { sample_count: 2, sample_delta: 10 },
                SttsEntry { sample_count: 0, sample_delta: 99 },
                SttsEntry { sample_count: 7, sample_delta: 3 },
            ],
        },
        stsc_box: StscBox {
            entries: vec![StscEntry {
                first_chunk: nz(1),
                sample_per_chunk: 3,
                sample_description_index: nz(1),
            }],
        },
        stsz_box: StszBox::Variable { entry_sizes: vec![5, 6, 7, 8, 9, 10, 11, 12, 13] },
        stco_or_co64_box: Either::A(StcoBox { chunk_offsets: vec![100, 200, 300] }),
        stss_box: Some(StssBox { sample_numbers: vec![nz(1), nz(1), nz(4)] }),
        unknown_boxes: Vec::new(),
    }
}

#[test]
fn time_before_the_end_falls_on_a_sample() {
    let a = SampleTableAccessor::new(table()).unwrap();
    // Total duration: 2 * 10 + 7 * 3 = 41.
    for t in 0..41u64 {
        let s = a.get_sample_by_timestamp(t).expect("a sample");
        assert!(s.timestamp() <= t && t < s.timestamp() + s.duration() as u64);
    }
    assert!(a.get_sample_by_timestamp(41).is_none());
    assert!(a.get_sample_by_timestamp(1000).is_none());
}

#[test]
fn durations_follow_the_expanded_deltas() {
    let a = SampleTableAccessor::new(table()).unwrap();
    let deltas = [10u32, 10, 3, 3, 3, 3, 3, 3, 3];
    let mut t = 0u64;
    for (i, d) in deltas.iter().enumerate() {
        let s = a.get_sample(nz(i as u32 + 1)).unwrap();
        assert_eq!(s.duration(), *d);
        assert_eq!(s.timestamp(), t);
        t += *d as u64;
    }
}

#[test]
fn single_entry_chunk_of_sample() {
    let a = SampleTableAccessor::new(table()).unwrap();
    for n in 1..=9u32 {
        let s = a.get_sample(nz(n)).unwrap();
        let c = s.chunk();
        assert_eq!(c.index().get(), (n - 1) / 3 + 1);
        assert!(c.samples().iter().any(|x| x.index().get() == n));
    }
    // Sample 5 is the second of chunk 2: it starts after sample 4 (8 bytes).
    assert_eq!(a.get_sample(nz(5)).unwrap().data_offset(), 208);
}

#[test]
fn sync_numbers_that_repeat() {
    let a = SampleTableAccessor::new(table()).unwrap();
    let sync: Vec<bool> = (1..=9u32)
        .map(|n| a.get_sample(nz(n)).unwrap().is_sync_sample())
        .collect();
    assert_eq!(sync, vec![true, false, false, true, false, false, false, false, false]);
}
