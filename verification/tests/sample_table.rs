use lib::aux::{SampleTableAccessor, SampleTableAccessorError};
use lib::boxes::{
    Co64Box, SampleEntry, StblBox, StcoBox, StscBox, StscEntry, StsdBox, StssBox, StszBox, SttsBox,
    SttsEntry, UnknownBox,
};
use lib::{BaseBox, BoxSize, BoxType, Either, NonZeroU32};

fn dummy_sample_entry() -> SampleEntry {
    SampleEntry::Unknown(UnknownBox {
        box_type: BoxType::Normal(*b"test"),
        box_size: BoxSize::U32(8),
        payload: Vec::new(),
    })
}

fn nz(i: u32) -> NonZeroU32 {
    NonZeroU32::new(i).expect("invalid index")
}

#[test]
fn inconsistent_sample_count_stts_vs_stsz() {
    let stbl_box = StblBox {
        stsd_box: StsdBox {
            entries: vec![dummy_sample_entry()],
        },
        stts_box: SttsBox {
            entries: vec![SttsEntry {
                sample_count: 10,
                sample_delta: 1,
            }],
        },
        stsc_box: StscBox {
            entries: vec![StscEntry {
                first_chunk: nz(1),
                sample_per_chunk: 10,
                sample_description_index: nz(1),
            }],
        },
        stsz_box: StszBox::Variable {
            entry_sizes: vec![100; 5],
        },
        stco_or_co64_box: Either::A(StcoBox {
            chunk_offsets: vec![0],
        }),
        stss_box: None,
        unknown_boxes: Vec::new(),
    };

    let result = SampleTableAccessor::new(stbl_box);
    assert!(
        matches!(
            result,
            Err(SampleTableAccessorError::InconsistentSampleCount { .. })
        ),
        "Expected InconsistentSampleCount error, got {:?}",
        result
    );
}

#[test]
fn inconsistent_sample_count_stts_vs_stsc() {
    let stbl_box = StblBox {
        stsd_box: StsdBox {
            entries: vec![dummy_sample_entry()],
        },
        stts_box: SttsBox {
            entries: vec![SttsEntry {
                sample_count: 10,
                sample_delta: 1,
            }],
        },
        stsc_box: StscBox {
            entries: vec![StscEntry {
                first_chunk: nz(1),
                sample_per_chunk: 5,
                sample_description_index: nz(1),
            }],
        },
        stsz_box: StszBox::Variable {
            entry_sizes: vec![100; 10],
        },
        stco_or_co64_box: Either::A(StcoBox {
            chunk_offsets: vec![0],
        }),
        stss_box: None,
        unknown_boxes: Vec::new(),
    };

    let result = SampleTableAccessor::new(stbl_box);
    assert!(
        matches!(
            result,
            Err(SampleTableAccessorError::InconsistentSampleCount { .. })
        ),
        "Expected InconsistentSampleCount error, got {:?}",
        result
    );
}

#[test]
fn chunks_exist_but_no_samples() {
    let stbl_box = StblBox {
        stsd_box: StsdBox {
            entries: vec![dummy_sample_entry()],
        },
        stts_box: SttsBox { entries: vec![] },
        stsc_box: StscBox { entries: vec![] },
        stsz_box: StszBox::Variable {
            entry_sizes: vec![],
        },
        stco_or_co64_box: Either::A(StcoBox {
            chunk_offsets: vec![100],
        }),
        stss_box: None,
        unknown_boxes: Vec::new(),
    };

    let result = SampleTableAccessor::new(stbl_box);
    assert!(
        matches!(
            result,
            Err(SampleTableAccessorError::ChunksExistButNoSamples { .. })
        ),
        "Expected ChunksExistButNoSamples error, got {:?}",
        result
    );
}

#[test]
fn first_chunk_index_is_not_one() {
    let stbl_box = StblBox {
        stsd_box: StsdBox {
            entries: vec![dummy_sample_entry()],
        },
        stts_box: SttsBox {
            entries: vec![SttsEntry {
                sample_count: 5,
                sample_delta: 1,
            }],
        },
        stsc_box: StscBox {
            entries: vec![StscEntry {
                first_chunk: nz(2),
                sample_per_chunk: 5,
                sample_description_index: nz(1),
            }],
        },
        stsz_box: StszBox::Variable {
            entry_sizes: vec![100; 5],
        },
        stco_or_co64_box: Either::A(StcoBox {
            chunk_offsets: vec![0, 100],
        }),
        stss_box: None,
        unknown_boxes: Vec::new(),
    };

    let result = SampleTableAccessor::new(stbl_box);
    assert!(
        matches!(
            result,
            Err(SampleTableAccessorError::FirstChunkIndexIsNotOne { .. })
        ),
        "Expected FirstChunkIndexIsNotOne error, got {:?}",
        result
    );
}

#[test]
fn missing_sample_entry() {
    let stbl_box = StblBox {
        stsd_box: StsdBox {
            entries: vec![dummy_sample_entry()],
        },
        stts_box: SttsBox {
            entries: vec![SttsEntry {
                sample_count: 5,
                sample_delta: 1,
            }],
        },
        stsc_box: StscBox {
            entries: vec![StscEntry {
                first_chunk: nz(1),
                sample_per_chunk: 5,
                sample_description_index: nz(2),
            }],
        },
        stsz_box: StszBox::Variable {
            entry_sizes: vec![100; 5],
        },
        stco_or_co64_box: Either::A(StcoBox {
            chunk_offsets: vec![0],
        }),
        stss_box: None,
        unknown_boxes: Vec::new(),
    };

    let result = SampleTableAccessor::new(stbl_box);
    assert!(
        matches!(
            result,
            Err(SampleTableAccessorError::MissingSampleEntry { .. })
        ),
        "Expected MissingSampleEntry error, got {:?}",
        result
    );
}

#[test]
fn chunk_indices_not_monotonically_increasing() {
    let stbl_box = StblBox {
        stsd_box: StsdBox {
            entries: vec![dummy_sample_entry()],
        },
        stts_box: SttsBox {
            entries: vec![SttsEntry {
                sample_count: 10,
                sample_delta: 1,
            }],
        },
        stsc_box: StscBox {
            entries: vec![
                StscEntry {
                    first_chunk: nz(1),
                    sample_per_chunk: 5,
                    sample_description_index: nz(1),
                },
                StscEntry {
                    first_chunk: nz(1),
                    sample_per_chunk: 5,
                    sample_description_index: nz(1),
                },
            ],
        },
        stsz_box: StszBox::Variable {
            entry_sizes: vec![100; 10],
        },
        stco_or_co64_box: Either::A(StcoBox {
            chunk_offsets: vec![0, 500],
        }),
        stss_box: None,
        unknown_boxes: Vec::new(),
    };

    let result = SampleTableAccessor::new(stbl_box);
    assert!(
        matches!(
            result,
            Err(SampleTableAccessorError::ChunkIndicesNotMonotonicallyIncreasing)
        ),
        "Expected ChunkIndicesNotMonotonicallyIncreasing error, got {:?}",
        result
    );
}

#[test]
fn last_chunk_index_is_too_large() {
    let stbl_box = StblBox {
        stsd_box: StsdBox {
            entries: vec![dummy_sample_entry()],
        },
        stts_box: SttsBox {
            entries: vec![SttsEntry {
                sample_count: 10,
                sample_delta: 1,
            }],
        },
        stsc_box: StscBox {
            entries: vec![
                StscEntry {
                    first_chunk: nz(1),
                    sample_per_chunk: 5,
                    sample_description_index: nz(1),
                },
                StscEntry {
                    first_chunk: nz(10),
                    sample_per_chunk: 5,
                    sample_description_index: nz(1),
                },
            ],
        },
        stsz_box: StszBox::Variable {
            entry_sizes: vec![100; 10],
        },
        stco_or_co64_box: Either::A(StcoBox {
            chunk_offsets: vec![0, 500],
        }),
        stss_box: None,
        unknown_boxes: Vec::new(),
    };

    let result = SampleTableAccessor::new(stbl_box);
    assert!(
        matches!(
            result,
            Err(SampleTableAccessorError::LastChunkIndexIsTooLarge { .. })
        ),
        "Expected LastChunkIndexIsTooLarge error, got {:?}",
        result
    );
}

#[test]
fn get_sample_by_timestamp_basic() {
    let sample_durations = [10u32, 20, 30, 40, 50];
    let stbl_box = StblBox {
        stsd_box: StsdBox {
            entries: vec![dummy_sample_entry()],
        },
        stts_box: SttsBox::from_sample_deltas(&sample_durations),
        stsc_box: StscBox {
            entries: vec![StscEntry {
                first_chunk: nz(1),
                sample_per_chunk: 5,
                sample_description_index: nz(1),
            }],
        },
        stsz_box: StszBox::Variable {
            entry_sizes: vec![100; 5],
        },
        stco_or_co64_box: Either::A(StcoBox {
            chunk_offsets: vec![0],
        }),
        stss_box: None,
        unknown_boxes: Vec::new(),
    };

    let accessor = SampleTableAccessor::new(stbl_box).expect("failed to create accessor");

    // sample 1: timestamp 0-9
    // sample 2: timestamp 10-29
    // sample 3: timestamp 30-59
    // sample 4: timestamp 60-99
    // sample 5: timestamp 100-149

    let sample = accessor
        .get_sample_by_timestamp(0)
        .expect("sample not found");
    assert_eq!(sample.index().get(), 1);

    let sample = accessor
        .get_sample_by_timestamp(9)
        .expect("sample not found");
    assert_eq!(sample.index().get(), 1);

    let sample = accessor
        .get_sample_by_timestamp(10)
        .expect("sample not found");
    assert_eq!(sample.index().get(), 2);

    let sample = accessor
        .get_sample_by_timestamp(29)
        .expect("sample not found");
    assert_eq!(sample.index().get(), 2);

    let sample = accessor
        .get_sample_by_timestamp(30)
        .expect("sample not found");
    assert_eq!(sample.index().get(), 3);

    let sample = accessor
        .get_sample_by_timestamp(100)
        .expect("sample not found");
    assert_eq!(sample.index().get(), 5);

    let sample = accessor
        .get_sample_by_timestamp(149)
        .expect("sample not found");
    assert_eq!(sample.index().get(), 5);

    assert!(accessor.get_sample_by_timestamp(150).is_none());
    assert!(accessor.get_sample_by_timestamp(1000).is_none());
}

#[test]
fn samples_iterator() {
    let stbl_box = StblBox {
        stsd_box: StsdBox {
            entries: vec![dummy_sample_entry()],
        },
        stts_box: SttsBox {
            entries: vec![SttsEntry {
                sample_count: 5,
                sample_delta: 10,
            }],
        },
        stsc_box: StscBox {
            entries: vec![StscEntry {
                first_chunk: nz(1),
                sample_per_chunk: 5,
                sample_description_index: nz(1),
            }],
        },
        stsz_box: StszBox::Variable {
            entry_sizes: vec![100, 200, 300, 400, 500],
        },
        stco_or_co64_box: Either::A(StcoBox {
            chunk_offsets: vec![0],
        }),
        stss_box: None,
        unknown_boxes: Vec::new(),
    };

    let accessor = SampleTableAccessor::new(stbl_box).expect("failed to create accessor");
    let mut count = 0;
    for (i, sample) in accessor.samples().into_iter().enumerate() {
        assert_eq!(sample.index().get(), i as u32 + 1);
        assert_eq!(sample.duration(), 10);
        assert_eq!(sample.timestamp(), i as u64 * 10);
        assert_eq!(sample.data_size(), (i as u32 + 1) * 100);
        count += 1;
    }
    assert_eq!(count, 5);
}

#[test]
fn sample_and_chunk_count() {
    let stbl_box = StblBox {
        stsd_box: StsdBox {
            entries: vec![dummy_sample_entry()],
        },
        stts_box: SttsBox {
            entries: vec![SttsEntry {
                sample_count: 20,
                sample_delta: 10,
            }],
        },
        stsc_box: StscBox {
            entries: vec![StscEntry {
                first_chunk: nz(1),
                sample_per_chunk: 5,
                sample_description_index: nz(1),
            }],
        },
        stsz_box: StszBox::Variable {
            entry_sizes: vec![100; 20],
        },
        stco_or_co64_box: Either::A(StcoBox {
            chunk_offsets: vec![0, 500, 1000, 1500],
        }),
        stss_box: None,
        unknown_boxes: Vec::new(),
    };

    let accessor = SampleTableAccessor::new(stbl_box).expect("failed to create accessor");
    assert_eq!(accessor.sample_count(), 20);
    assert_eq!(accessor.chunk_count(), 4);
}

#[test]
fn sample_accessor_with_co64() {
    let stbl_box = StblBox {
        stsd_box: StsdBox {
            entries: vec![dummy_sample_entry()],
        },
        stts_box: SttsBox {
            entries: vec![SttsEntry {
                sample_count: 5,
                sample_delta: 10,
            }],
        },
        stsc_box: StscBox {
            entries: vec![StscEntry {
                first_chunk: nz(1),
                sample_per_chunk: 5,
                sample_description_index: nz(1),
            }],
        },
        stsz_box: StszBox::Variable {
            entry_sizes: vec![100; 5],
        },
        stco_or_co64_box: Either::B(Co64Box {
            chunk_offsets: vec![0x100000000],
        }),
        stss_box: None,
        unknown_boxes: Vec::new(),
    };

    let accessor = SampleTableAccessor::new(stbl_box).expect("failed to create accessor");
    assert_eq!(accessor.sample_count(), 5);
    assert_eq!(accessor.chunk_count(), 1);

    let chunk = accessor.get_chunk(nz(1)).expect("chunk not found");
    assert_eq!(chunk.offset(), 0x100000000);
}

#[test]
fn sync_sample_search() {
    let stbl_box = StblBox {
        stsd_box: StsdBox {
            entries: vec![dummy_sample_entry()],
        },
        stts_box: SttsBox {
            entries: vec![SttsEntry {
                sample_count: 10,
                sample_delta: 10,
            }],
        },
        stsc_box: StscBox {
            entries: vec![StscEntry {
                first_chunk: nz(1),
                sample_per_chunk: 10,
                sample_description_index: nz(1),
            }],
        },
        stsz_box: StszBox::Variable {
            entry_sizes: vec![100; 10],
        },
        stco_or_co64_box: Either::A(StcoBox {
            chunk_offsets: vec![0],
        }),
        stss_box: Some(StssBox {
            sample_numbers: vec![nz(1), nz(5), nz(9)],
        }),
        unknown_boxes: Vec::new(),
    };

    let accessor = SampleTableAccessor::new(stbl_box).expect("failed to create accessor");

    let sample1 = accessor.get_sample(nz(1)).expect("sample not found");
    assert!(sample1.is_sync_sample());
    assert_eq!(sample1.sync_sample().expect("sync sample").index().get(), 1);

    let sample2 = accessor.get_sample(nz(2)).expect("sample not found");
    assert!(!sample2.is_sync_sample());
    assert_eq!(sample2.sync_sample().expect("sync sample").index().get(), 1);

    let sample4 = accessor.get_sample(nz(4)).expect("sample not found");
    assert!(!sample4.is_sync_sample());
    assert_eq!(sample4.sync_sample().expect("sync sample").index().get(), 1);

    let sample5 = accessor.get_sample(nz(5)).expect("sample not found");
    assert!(sample5.is_sync_sample());
    assert_eq!(sample5.sync_sample().expect("sync sample").index().get(), 5);

    let sample6 = accessor.get_sample(nz(6)).expect("sample not found");
    assert!(!sample6.is_sync_sample());
    assert_eq!(sample6.sync_sample().expect("sync sample").index().get(), 5);

    let sample9 = accessor.get_sample(nz(9)).expect("sample not found");
    assert!(sample9.is_sync_sample());
    assert_eq!(sample9.sync_sample().expect("sync sample").index().get(), 9);

    let sample10 = accessor.get_sample(nz(10)).expect("sample not found");
    assert!(!sample10.is_sync_sample());
    assert_eq!(
        sample10.sync_sample().expect("sync sample").index().get(),
        9
    );
}

#[test]
fn no_stss_all_sync() {
    let stbl_box = StblBox {
        stsd_box: StsdBox {
            entries: vec![dummy_sample_entry()],
        },
        stts_box: SttsBox {
            entries: vec![SttsEntry {
                sample_count: 5,
                sample_delta: 10,
            }],
        },
        stsc_box: StscBox {
            entries: vec![StscEntry {
                first_chunk: nz(1),
                sample_per_chunk: 5,
                sample_description_index: nz(1),
            }],
        },
        stsz_box: StszBox::Variable {
            entry_sizes: vec![100; 5],
        },
        stco_or_co64_box: Either::A(StcoBox {
            chunk_offsets: vec![0],
        }),
        stss_box: None,
        unknown_boxes: Vec::new(),
    };

    let accessor = SampleTableAccessor::new(stbl_box).expect("failed to create accessor");

    for i in 1..=5 {
        let sample = accessor.get_sample(nz(i)).expect("sample not found");
        assert!(sample.is_sync_sample());
        assert_eq!(sample.sync_sample().expect("sync sample").index().get(), i);
    }
}

#[test]
fn fixed_sample_size() {
    let stbl_box = StblBox {
        stsd_box: StsdBox {
            entries: vec![dummy_sample_entry()],
        },
        stts_box: SttsBox {
            entries: vec![SttsEntry {
                sample_count: 5,
                sample_delta: 10,
            }],
        },
        stsc_box: StscBox {
            entries: vec![StscEntry {
                first_chunk: nz(1),
                sample_per_chunk: 5,
                sample_description_index: nz(1),
            }],
        },
        stsz_box: StszBox::Fixed {
            sample_size: NonZeroU32::new(256).expect("invalid"),
            sample_count: 5,
        },
        stco_or_co64_box: Either::A(StcoBox {
            chunk_offsets: vec![1000],
        }),
        stss_box: None,
        unknown_boxes: Vec::new(),
    };

    let accessor = SampleTableAccessor::new(stbl_box).expect("failed to create accessor");
    assert_eq!(accessor.sample_count(), 5);

    for i in 1..=5 {
        let sample = accessor.get_sample(nz(i)).expect("sample not found");
        assert_eq!(sample.data_size(), 256);
        assert_eq!(sample.data_offset(), 1000 + (i as u64 - 1) * 256);
    }
}

#[test]
fn multiple_stts_entries() {
    let stbl_box = StblBox {
        stsd_box: StsdBox {
            entries: vec![dummy_sample_entry()],
        },
        stts_box: SttsBox {
            entries: vec![
                SttsEntry {
                    sample_count: 3,
                    sample_delta: 10,
                },
                SttsEntry {
                    sample_count: 2,
                    sample_delta: 20,
                },
                SttsEntry {
                    sample_count: 2,
                    sample_delta: 5,
                },
            ],
        },
        stsc_box: StscBox {
            entries: vec![StscEntry {
                first_chunk: nz(1),
                sample_per_chunk: 7,
                sample_description_index: nz(1),
            }],
        },
        stsz_box: StszBox::Variable {
            entry_sizes: vec![100; 7],
        },
        stco_or_co64_box: Either::A(StcoBox {
            chunk_offsets: vec![0],
        }),
        stss_box: None,
        unknown_boxes: Vec::new(),
    };

    let accessor = SampleTableAccessor::new(stbl_box).expect("failed to create accessor");
    assert_eq!(accessor.sample_count(), 7);

    // sample 1: duration=10, timestamp=0
    // sample 2: duration=10, timestamp=10
    // sample 3: duration=10, timestamp=20
    // sample 4: duration=20, timestamp=30
    // sample 5: duration=20, timestamp=50
    // sample 6: duration=5, timestamp=70
    // sample 7: duration=5, timestamp=75

    let expected = [
        (1, 10, 0),
        (2, 10, 10),
        (3, 10, 20),
        (4, 20, 30),
        (5, 20, 50),
        (6, 5, 70),
        (7, 5, 75),
    ];

    for (index, duration, timestamp) in expected {
        let sample = accessor.get_sample(nz(index)).expect("sample not found");
        assert_eq!(sample.duration(), duration, "sample {} duration", index);
        assert_eq!(sample.timestamp(), timestamp, "sample {} timestamp", index);
    }
}

#[test]
fn multiple_chunks() {
    let stbl_box = StblBox {
        stsd_box: StsdBox {
            entries: vec![dummy_sample_entry()],
        },
        stts_box: SttsBox {
            entries: vec![SttsEntry {
                sample_count: 9,
                sample_delta: 10,
            }],
        },
        stsc_box: StscBox {
            entries: vec![
                StscEntry {
                    first_chunk: nz(1),
                    sample_per_chunk: 2,
                    sample_description_index: nz(1),
                },
                StscEntry {
                    first_chunk: nz(3),
                    sample_per_chunk: 5,
                    sample_description_index: nz(1),
                },
            ],
        },
        stsz_box: StszBox::Variable {
            entry_sizes: vec![100; 9],
        },
        stco_or_co64_box: Either::A(StcoBox {
            chunk_offsets: vec![0, 200, 400],
        }),
        stss_box: None,
        unknown_boxes: Vec::new(),
    };

    let accessor = SampleTableAccessor::new(stbl_box).expect("failed to create accessor");
    assert_eq!(accessor.chunk_count(), 3);

    // chunk 1: 2 samples (sample 1-2)
    let chunk1 = accessor.get_chunk(nz(1)).expect("chunk not found");
    assert_eq!(chunk1.offset(), 0);
    assert_eq!(chunk1.sample_count(), 2);

    // chunk 2: 2 samples (sample 3-4)
    let chunk2 = accessor.get_chunk(nz(2)).expect("chunk not found");
    assert_eq!(chunk2.offset(), 200);
    assert_eq!(chunk2.sample_count(), 2);

    // chunk 3: 5 samples (sample 5-9)
    let chunk3 = accessor.get_chunk(nz(3)).expect("chunk not found");
    assert_eq!(chunk3.offset(), 400);
    assert_eq!(chunk3.sample_count(), 5);

    let sample1 = accessor.get_sample(nz(1)).expect("sample not found");
    assert_eq!(sample1.chunk().index().get(), 1);

    let sample3 = accessor.get_sample(nz(3)).expect("sample not found");
    assert_eq!(sample3.chunk().index().get(), 2);

    let sample5 = accessor.get_sample(nz(5)).expect("sample not found");
    assert_eq!(sample5.chunk().index().get(), 3);
}

fn index(i: u32) -> NonZeroU32 {
    NonZeroU32::new(i).expect("invalid index")
}

#[test]
fn sample_table_accessor() {
    let sample_durations = [10u32, 5, 5, 20, 20, 20, 1, 1, 1, 1];
    let chunk_offsets = [100u32, 200, 300, 400];
    let stbl_box = StblBox {
        stsd_box: StsdBox {
            entries: vec![SampleEntry::Unknown(UnknownBox {
                box_type: BoxType::Normal(*b"test"),
                box_size: BoxSize::U32(8),
                payload: Vec::new(),
            })],
        },
        stts_box: SttsBox::from_sample_deltas(&sample_durations),
        stsc_box: StscBox {
            entries: [(index(1), 2, index(1)), (index(3), 3, index(1))]
                .into_iter()
                .map(
                    |(first_chunk, sample_per_chunk, sample_description_index)| StscEntry {
                        first_chunk,
                        sample_per_chunk,
                        sample_description_index,
                    },
                )
                .collect(),
        },
        stsz_box: StszBox::Variable {
            entry_sizes: vec![1, 2, 3, 4, 5, 6, 7, 8, 9, 10],
        },
        stco_or_co64_box: Either::A(StcoBox {
            chunk_offsets: chunk_offsets.to_vec(),
        }),
        stss_box: Some(StssBox {
            sample_numbers: vec![index(1), index(3), index(5), index(7), index(9)],
        }),
        unknown_boxes: Vec::new(),
    };

    let sample_table = SampleTableAccessor::new(stbl_box).expect("bug");
    assert_eq!(sample_table.sample_count(), 10);
    assert_eq!(sample_table.chunk_count(), 4);

    let sample_chunks = [1, 1, 2, 2, 3, 3, 3, 4, 4, 4];
    let sample_offsets = [100, 101, 200, 203, 300, 305, 311, 400, 408, 417];
    for i in 0..10 {
        let sample = sample_table.get_sample(index(i as u32 + 1)).expect("bug");
        assert_eq!(sample.duration(), sample_durations[i]);
        assert_eq!(
            sample.timestamp(),
            sample_durations.iter().copied().take(i).sum::<u32>() as u64
        );
        assert_eq!(sample.data_size(), i as u32 + 1);
        assert_eq!(sample.data_offset(), sample_offsets[i] as u64);
        assert_eq!(sample.is_sync_sample(), (i + 1) % 2 == 1);
        assert_eq!(
            sample.sync_sample().map(|s| s.index()),
            Some(NonZeroU32::MIN().saturating_add(i as u32 / 2 * 2))
        );
        assert_eq!(sample.chunk().index().get(), sample_chunks[i]);
    }
    assert!(sample_table.get_sample(index(11)).is_none());

    let sample_counts = [2, 2, 3, 3];
    for i in 0..4 {
        let chunk = sample_table.get_chunk(index(i as u32 + 1)).expect("bug");
        assert_eq!(chunk.offset(), chunk_offsets[i] as u64);
        assert_eq!(chunk.sample_entry().box_type().as_bytes(), b"test");
        assert_eq!(chunk.sample_count(), sample_counts[i]);
        assert_eq!(chunk.samples().len(), sample_counts[i] as usize);
    }
    assert!(sample_table.get_chunk(index(5)).is_none());

    let file_duraiton = sample_durations.iter().copied().sum::<u32>() as u64;
    for t in 0..file_duraiton {
        let index = sample_table.get_sample_by_timestamp(t).expect("bug").index();
        let start_time = sample_table.get_sample(index).expect("bug").timestamp();
        let end_time = start_time + sample_table.get_sample(index).expect("bug").duration() as u64;
        assert!((start_time..end_time).contains(&t));
    }
    assert!(sample_table.get_sample_by_timestamp(file_duraiton + 1).is_none());
}
