//! Round trips: a box that is written reads back as the same box, whatever bytes follow it.
use crate::basic_types::{has_nul, lemma_first_nul, Utf8String, lemma_file_time_eq, lemma_nonzero_eq, lemma_sample_flags_eq, NonZeroU32};
use crate::boxes_fmp4::{
    flag_set, opt_field, opt_i32_bits, opt_len, opt_u32_at, opt_u32_bytes, opt_u64_bytes, opt_flags_value,
    get_var_uint, tfra_entries_bytes, tfra_entry_bytes, tfra_entry_large, tfra_entry_read, tfra_entry_size,
    var_uint_bytes, payload_flags, sidx_reference_bytes, sidx_reference_read, sidx_references_bytes, sidx_word1,
    sidx_word3, trun_flags_layout, trun_sample_bytes, trun_sample_layout, trun_sample_read,
    trun_sample_size, trun_samples_bytes, TrunLayout, traf_child_kind, traf_scan, traf_walk, TrafBox, moof_child_kind, moof_scan,
    moof_walk, MoofBox,
};
use crate::boxes::{
    all_encodable, concat, encodings, spec_is_type,
    TfraBox, TfraEntry, SidxBox, SidxReference, TfhdBox, TrunBox, TrunSample, UnknownBox,
    full_header_bytes, lemma_box_frame, lemma_fourcc, lemma_u32s_read, lemma_u64s_read,
    spec_box_bytes, spec_payload, u32s_bytes, u64s_bytes, Co64Box, MehdBox, MfhdBox, MfroBox,
    StcoBox, StssBox, TfdtBox, TrexBox, FtypBox, SmhdBox, brands_bytes, Brand,
};
use crate::boxes_moov_tree::{
    edts_scan, edts_walk, mvex_child_kind, mvex_scan, mvex_walk, unknown_boxes_bytes, EdtsBox, MvexBox,
    elst_entries_bytes, elst_entry_bytes, elst_entry_large, elst_entry_size, ElstBox, ElstEntry, UrlBox,
    stsc_entries_bytes, stsc_entry_bytes, HdlrBox, StscBox, StscEntry, VmhdBox, language_bits, language_letters, matrix_bytes, mdhd_base, MdhdBox, mvhd_base, payload_flag, tkhd_base, zeros, MvhdBox, TkhdBox, nonzero_u32s_bytes, stts_entries_bytes, stts_entry_bytes, StszBox, SttsBox, SttsEntry,
};
use crate::descriptors::{
    dcd_flags_byte, get_u24, lemma_tag_and_size_roundtrip, lemma_uint32_eq, lemma_uint8_eq, spec_starts_with_tag,
    tag_size_bytes, DecoderConfigDescriptor, DecoderSpecificInfo, SlConfigDescriptor, Uint,
};
use crate::codec::{
    be_u16, be_u32, be_u64, get_u16, get_u32, get_u64, i16_bits, i16_of, i32_bits, i32_of, i64_bits, i64_of,
    i8_bits, lemma_be_u16,
    lemma_be_u32, lemma_be_u64, lemma_signed_bits, Decode, Encode,
};
use vstd::prelude::*;

verus! {

/// The payload of a box written with type `t` and payload `p`, followed by `rest`, is `p`.
#[verifier::spinoff_prover]
proof fn lemma_frame(t: Seq<u8>, p: Seq<u8>, rest: Seq<u8>)
    requires
        t.len() == 4,
        t != crate::basic_types::uuid_tag(),
        8 + p.len() <= 0xffff_ffff,
    ensures
        ({
            let s = spec_box_bytes(t, p) + rest;
            &&& crate::boxes::spec_can_split(s)
            &&& crate::boxes::spec_is_type(s, t)
            &&& spec_payload(s) == p
            &&& crate::boxes::spec_box_end(s) == spec_box_bytes(t, p).len()
        }),
{
    lemma_box_frame(t, p, rest);
    lemma_be_u32((8 + p.len()) as u32);
}

/// A 32-bit value written at offset 4 of a full box payload reads back.
#[verifier::spinoff_prover]
proof fn lemma_u32_at_4(version: u8, flags: u32, v: u32, q: Seq<u8>)
    ensures
        get_u32(full_header_bytes(version, flags) + be_u32(v) + q, 4) == v,
        (full_header_bytes(version, flags) + be_u32(v) + q).len() == 8 + q.len(),
{
    lemma_be_u32(flags);
    lemma_be_u32(v);
    let s = full_header_bytes(version, flags) + be_u32(v) + q;
    assert(s.subrange(4, 8) =~= be_u32(v));
}

/// A 64-bit value written at offset 4 of a full box payload reads back.
#[verifier::spinoff_prover]
proof fn lemma_u64_at_4(version: u8, flags: u32, v: u64)
    ensures
        get_u64(full_header_bytes(version, flags) + be_u64(v), 4) == v,
        (full_header_bytes(version, flags) + be_u64(v)).len() == 12,
{
    lemma_be_u32(flags);
    lemma_be_u64(v);
    let s = full_header_bytes(version, flags) + be_u64(v);
    assert(s.subrange(4, 12) =~= be_u64(v));
}

/// An `mfhd` box reads back as the box that was written.
#[verifier::spinoff_prover]
pub proof fn lemma_mfhd_roundtrip(b: MfhdBox, rest: Seq<u8>)
    requires
        b.spec_encodable(),
    ensures
        ({
            let s = b.spec_encoding() + rest;
            &&& MfhdBox::spec_can_decode(s)
            &&& MfhdBox::spec_decoded_len(s) == b.spec_encoding().len()
            &&& forall|v: MfhdBox| MfhdBox::spec_decoded(s, v) ==> v == b
        }),
{
    lemma_fourcc(0x6d, 0x66, 0x68, 0x64);
    lemma_frame(MfhdBox::spec_type().spec_bytes(), b.spec_payload_bytes(), rest);
    lemma_u32_at_4(0, 0, b.sequence_number, Seq::empty());
    assert(b.spec_payload_bytes() =~= full_header_bytes(0, 0) + be_u32(b.sequence_number)
        + Seq::<u8>::empty());
}

/// An `mfro` box reads back as the box that was written.
#[verifier::spinoff_prover]
pub proof fn lemma_mfro_roundtrip(b: MfroBox, rest: Seq<u8>)
    requires
        b.spec_encodable(),
    ensures
        ({
            let s = b.spec_encoding() + rest;
            &&& MfroBox::spec_can_decode(s)
            &&& MfroBox::spec_decoded_len(s) == b.spec_encoding().len()
            &&& forall|v: MfroBox| MfroBox::spec_decoded(s, v) ==> v == b
        }),
{
    lemma_fourcc(0x6d, 0x66, 0x72, 0x6f);
    lemma_frame(MfroBox::spec_type().spec_bytes(), b.spec_payload_bytes(), rest);
    lemma_u32_at_4(0, 0, b.size, Seq::empty());
    assert(b.spec_payload_bytes() =~= full_header_bytes(0, 0) + be_u32(b.size)
        + Seq::<u8>::empty());
}

/// A `tfdt` box reads back with its time, and with the version it was written with: its own,
/// unless the time needs 64 bits, then 1.
#[verifier::spinoff_prover]
pub proof fn lemma_tfdt_roundtrip(b: TfdtBox, rest: Seq<u8>)
    requires
        b.spec_encodable(),
    ensures
        ({
            let s = b.spec_encoding() + rest;
            &&& TfdtBox::spec_can_decode(s)
            &&& TfdtBox::spec_decoded_len(s) == b.spec_encoding().len()
            &&& forall|v: TfdtBox| #[trigger] TfdtBox::spec_decoded(s, v) ==> v == TfdtBox {
                version: b.spec_version(),
                ..b
            }
        }),
{
    lemma_fourcc(0x74, 0x66, 0x64, 0x74);
    let p = b.spec_payload_bytes();
    lemma_frame(TfdtBox::spec_type().spec_bytes(), p, rest);
    lemma_be_u32(0);
    assert(p[0] == b.spec_version());
    if b.spec_version() == 1 {
        lemma_u64_at_4(1, 0, b.base_media_decode_time);
    } else {
        lemma_u32_at_4(b.spec_version(), 0, b.base_media_decode_time as u32, Seq::empty());
        assert(p =~= full_header_bytes(b.spec_version(), 0) + be_u32(
            b.base_media_decode_time as u32,
        ) + Seq::<u8>::empty());
    }
}

/// A list payload: version and flags 0, a 32-bit count, then `body`.
#[verifier::spinoff_prover]
proof fn lemma_list_payload(n: u32, body: Seq<u8>)
    ensures
        ({
            let p = full_header_bytes(0, 0) + be_u32(n) + body;
            &&& p.len() == 8 + body.len()
            &&& get_u32(p, 4) == n
            &&& p.subrange(8, 8 + body.len() as int) == body
        }),
{
    lemma_u32_at_4(0, 0, n, body);
    let p = full_header_bytes(0, 0) + be_u32(n) + body;
    assert(p.subrange(8, 8 + body.len() as int) =~= body);
}

/// An `mehd` box reads back as the box that was written.
#[verifier::spinoff_prover]
pub proof fn lemma_mehd_roundtrip(b: MehdBox, rest: Seq<u8>)
    requires
        b.spec_encodable(),
    ensures
        ({
            let s = b.spec_encoding() + rest;
            &&& MehdBox::spec_can_decode(s)
            &&& MehdBox::spec_decoded_len(s) == b.spec_encoding().len()
            &&& forall|v: MehdBox| MehdBox::spec_decoded(s, v) ==> v == b
        }),
{
    lemma_fourcc(0x6d, 0x65, 0x68, 0x64);
    let p = b.spec_payload_bytes();
    lemma_frame(MehdBox::spec_type().spec_bytes(), p, rest);
    lemma_be_u32(0);
    assert(p[0] == b.spec_version());
    if b.spec_version() == 1 {
        lemma_u64_at_4(1, 0, b.fragment_duration);
    } else {
        lemma_u32_at_4(0, 0, b.fragment_duration as u32, Seq::empty());
        assert(p =~= full_header_bytes(0, 0) + be_u32(b.fragment_duration as u32)
            + Seq::<u8>::empty());
    }
}

/// A `trex` box reads back as the box that was written.
#[verifier::spinoff_prover]
pub proof fn lemma_trex_roundtrip(b: TrexBox, rest: Seq<u8>)
    requires
        b.spec_encodable(),
    ensures
        ({
            let s = b.spec_encoding() + rest;
            &&& TrexBox::spec_can_decode(s)
            &&& TrexBox::spec_decoded_len(s) == b.spec_encoding().len()
            &&& forall|v: TrexBox| TrexBox::spec_decoded(s, v) ==> v == b
        }),
{
    lemma_fourcc(0x74, 0x72, 0x65, 0x78);
    let p = b.spec_payload_bytes();
    lemma_frame(TrexBox::spec_type().spec_bytes(), p, rest);
    let vals = seq![
        b.track_id,
        b.default_sample_description_index,
        b.default_sample_duration,
        b.default_sample_size,
        b.default_sample_flags.spec_get(),
    ];
    lemma_be_u32(0);
    assert(u32s_bytes(vals) == be_u32(vals[0]) + be_u32(vals[1]) + be_u32(vals[2]) + be_u32(
        vals[3],
    ) + be_u32(vals[4])) by {
        let items = vals.map_values(|x: u32| be_u32(x));
        reveal_with_fuel(crate::boxes::concat, 6);
        assert(items.drop_last().drop_last().drop_last().drop_last().drop_last() =~= Seq::<
            Seq<u8>,
        >::empty());
        assert(items.drop_last().drop_last().drop_last().drop_last() =~= seq![items[0]]);
        assert(items.drop_last().drop_last().drop_last() =~= seq![items[0], items[1]]);
        assert(items.drop_last().drop_last() =~= seq![items[0], items[1], items[2]]);
        assert(items.drop_last() =~= seq![items[0], items[1], items[2], items[3]]);
        assert(crate::boxes::concat(seq![items[0]]) =~= items[0]);
    }
    lemma_be_u32(vals[0]);
    lemma_be_u32(vals[1]);
    lemma_be_u32(vals[2]);
    lemma_be_u32(vals[3]);
    lemma_be_u32(vals[4]);
    assert(p.subrange(4, 24) =~= u32s_bytes(vals));
    assert(p.len() == 24);
    lemma_u32s_read(vals, p, 4);
    assert(get_u32(p, 4 + 4 * 0int) == vals[0]);
    assert(get_u32(p, 4 + 4 * 1int) == vals[1]);
    assert(get_u32(p, 4 + 4 * 2int) == vals[2]);
    assert(get_u32(p, 4 + 4 * 3int) == vals[3]);
    assert(get_u32(p, 4 + 4 * 4int) == vals[4]);
    assert forall|v: TrexBox| TrexBox::spec_decoded(b.spec_encoding() + rest, v) implies v == b by {
        lemma_sample_flags_eq(v.default_sample_flags, b.default_sample_flags);
    }
}

/// An `stco` box reads back with the offsets that were written.
#[verifier::spinoff_prover]
pub proof fn lemma_stco_roundtrip(b: StcoBox, rest: Seq<u8>)
    requires
        b.spec_encodable(),
    ensures
        ({
            let s = b.spec_encoding() + rest;
            &&& StcoBox::spec_can_decode(s)
            &&& StcoBox::spec_decoded_len(s) == b.spec_encoding().len()
            &&& forall|v: StcoBox| StcoBox::spec_decoded(s, v) ==> v.chunk_offsets@
                == b.chunk_offsets@
        }),
{
    lemma_fourcc(0x73, 0x74, 0x63, 0x6f);
    let p = b.spec_payload_bytes();
    let xs = b.chunk_offsets@;
    lemma_frame(StcoBox::spec_type().spec_bytes(), p, rest);
    let items = xs.map_values(|x: u32| be_u32(x));
    assert forall|j: int| 0 <= j < items.len() implies (#[trigger] items[j]).len() == 4 by {
        lemma_be_u32(xs[j]);
    }
    crate::boxes::lemma_concat_fixed(items, 4);
    lemma_list_payload(xs.len() as u32, u32s_bytes(xs));
    lemma_u32s_read(xs, p, 8);
    assert forall|v: StcoBox| StcoBox::spec_decoded(b.spec_encoding() + rest, v) implies v.chunk_offsets@
        == xs by {
        assert(v.chunk_offsets@ =~= xs);
    }
}

/// A `co64` box reads back with the offsets that were written.
#[verifier::spinoff_prover]
pub proof fn lemma_co64_roundtrip(b: Co64Box, rest: Seq<u8>)
    requires
        b.spec_encodable(),
    ensures
        ({
            let s = b.spec_encoding() + rest;
            &&& Co64Box::spec_can_decode(s)
            &&& Co64Box::spec_decoded_len(s) == b.spec_encoding().len()
            &&& forall|v: Co64Box| Co64Box::spec_decoded(s, v) ==> v.chunk_offsets@
                == b.chunk_offsets@
        }),
{
    lemma_fourcc(0x63, 0x6f, 0x36, 0x34);
    let p = b.spec_payload_bytes();
    let xs = b.chunk_offsets@;
    lemma_frame(Co64Box::spec_type().spec_bytes(), p, rest);
    let items = xs.map_values(|x: u64| be_u64(x));
    assert forall|j: int| 0 <= j < items.len() implies (#[trigger] items[j]).len() == 8 by {
        lemma_be_u64(xs[j]);
    }
    crate::boxes::lemma_concat_fixed(items, 8);
    lemma_list_payload(xs.len() as u32, u64s_bytes(xs));
    lemma_u64s_read(xs, p, 8);
    assert forall|v: Co64Box| Co64Box::spec_decoded(b.spec_encoding() + rest, v) implies v.chunk_offsets@
        == xs by {
        assert(v.chunk_offsets@ =~= xs);
    }
}

/// An `stss` box reads back with the sample numbers that were written.
#[verifier::spinoff_prover]
pub proof fn lemma_stss_roundtrip(b: StssBox, rest: Seq<u8>)
    requires
        b.spec_encodable(),
        forall|i: int|
            0 <= i < b.sample_numbers@.len() ==> (#[trigger] b.sample_numbers@[i]).spec_get() != 0,
    ensures
        ({
            let s = b.spec_encoding() + rest;
            &&& StssBox::spec_can_decode(s)
            &&& StssBox::spec_decoded_len(s) == b.spec_encoding().len()
            &&& forall|v: StssBox| StssBox::spec_decoded(s, v) ==> v.sample_numbers@
                == b.sample_numbers@
        }),
{
    lemma_fourcc(0x73, 0x74, 0x73, 0x73);
    let p = b.spec_payload_bytes();
    let ns = b.sample_numbers@;
    let xs = ns.map_values(|x: NonZeroU32| x.spec_get());
    lemma_frame(StssBox::spec_type().spec_bytes(), p, rest);
    let items = xs.map_values(|x: u32| be_u32(x));
    assert forall|j: int| 0 <= j < items.len() implies (#[trigger] items[j]).len() == 4 by {
        lemma_be_u32(xs[j]);
    }
    crate::boxes::lemma_concat_fixed(items, 4);
    assert(nonzero_u32s_bytes(ns) == u32s_bytes(xs));
    lemma_list_payload(ns.len() as u32, u32s_bytes(xs));
    lemma_u32s_read(xs, p, 8);
    assert forall|i: int| 0 <= i < get_u32(p, 4) implies #[trigger] get_u32(p, 8 + 4 * i) != 0 by {
        assert(xs[i] == ns[i].spec_get());
    }
    assert forall|v: StssBox| StssBox::spec_decoded(b.spec_encoding() + rest, v) implies v.sample_numbers@
        == ns by {
        assert forall|i: int| 0 <= i < ns.len() implies v.sample_numbers@[i] == ns[i] by {
            assert(xs[i] == ns[i].spec_get());
            assert(get_u32(p, 8 + 4 * i) == xs[i]);
            lemma_nonzero_eq(v.sample_numbers@[i], ns[i]);
        }
        assert(v.sample_numbers@ =~= ns);
    }
}

/// The bytes of `stts` entries: eight per entry.
#[verifier::spinoff_prover]
proof fn lemma_stts_entries_len(es: Seq<SttsEntry>)
    ensures
        stts_entries_bytes(es).len() == 8 * es.len(),
        forall|i: int|
            0 <= i < es.len() ==> stts_entries_bytes(es).subrange(8 * i, 8 * i + 8)
                == stts_entry_bytes(#[trigger] es[i]),
{
    let items = es.map_values(|e: SttsEntry| stts_entry_bytes(e));
    assert forall|j: int| 0 <= j < items.len() implies (#[trigger] items[j]).len() == 8 by {
        lemma_be_u32(es[j].sample_count);
        lemma_be_u32(es[j].sample_delta);
    }
    crate::boxes::lemma_concat_fixed(items, 8);
    assert forall|i: int| 0 <= i < es.len() implies stts_entries_bytes(es).subrange(8 * i, 8 * i + 8)
        == stts_entry_bytes(#[trigger] es[i]) by {
        assert(items[i] == stts_entry_bytes(es[i]));
    }
}

/// `stts` entries read back from their bytes at `off`.
#[verifier::spinoff_prover]
proof fn lemma_stts_entries_read(es: Seq<SttsEntry>, p: Seq<u8>, off: int)
    requires
        0 <= off,
        off + 8 * es.len() <= p.len(),
        p.subrange(off, off + 8 * es.len()) == stts_entries_bytes(es),
    ensures
        forall|i: int|
            0 <= i < es.len() ==> get_u32(p, off + 8 * i) == (#[trigger] es[i]).sample_count
                && get_u32(p, off + 4 + 8 * i) == es[i].sample_delta,
{
    lemma_stts_entries_len(es);
    assert forall|i: int| 0 <= i < es.len() implies get_u32(p, off + 8 * i) == (
    #[trigger] es[i]).sample_count && get_u32(p, off + 4 + 8 * i) == es[i].sample_delta by {
        let e = es[i];
        lemma_be_u32(e.sample_count);
        lemma_be_u32(e.sample_delta);
        assert(p.subrange(off + 8 * i, off + 8 * i + 8) =~= stts_entries_bytes(es).subrange(
            8 * i,
            8 * i + 8,
        ));
        let w = p.subrange(off + 8 * i, off + 8 * i + 8);
        assert(w == stts_entry_bytes(e));
        assert(p.subrange(off + 8 * i, off + 8 * i + 4) =~= w.subrange(0, 4));
        assert(p.subrange(off + 4 + 8 * i, off + 8 + 8 * i) =~= w.subrange(4, 8));
        assert(w.subrange(0, 4) =~= be_u32(e.sample_count));
        assert(w.subrange(4, 8) =~= be_u32(e.sample_delta));
        assert(p.subrange(off + 4 + 8 * i, off + 8 + 8 * i) =~= be_u32(e.sample_delta));
    }
}

/// An `stts` box reads back with the entries that were written.
#[verifier::spinoff_prover]
pub proof fn lemma_stts_roundtrip(b: SttsBox, rest: Seq<u8>)
    requires
        b.spec_encodable(),
    ensures
        ({
            let s = b.spec_encoding() + rest;
            &&& SttsBox::spec_can_decode(s)
            &&& SttsBox::spec_decoded_len(s) == b.spec_encoding().len()
            &&& forall|v: SttsBox| SttsBox::spec_decoded(s, v) ==> v.entries@ == b.entries@
        }),
{
    lemma_fourcc(0x73, 0x74, 0x74, 0x73);
    let p = b.spec_payload_bytes();
    let es = b.entries@;
    lemma_frame(SttsBox::spec_type().spec_bytes(), p, rest);
    lemma_stts_entries_len(es);
    lemma_list_payload(es.len() as u32, stts_entries_bytes(es));
    lemma_stts_entries_read(es, p, 8);
    assert forall|v: SttsBox| SttsBox::spec_decoded(b.spec_encoding() + rest, v) implies v.entries@
        == es by {
        assert(v.entries@ =~= es);
    }
}

/// An `stsz` box reads back as the box that was written: a fixed size with its count, or
/// the list of sizes.
#[verifier::spinoff_prover]
pub proof fn lemma_stsz_roundtrip(b: StszBox, rest: Seq<u8>)
    requires
        b.spec_encodable(),
        b matches StszBox::Fixed { sample_size, .. } ==> sample_size.spec_get() != 0,
    ensures
        ({
            let s = b.spec_encoding() + rest;
            &&& StszBox::spec_can_decode(s)
            &&& StszBox::spec_decoded_len(s) == b.spec_encoding().len()
            &&& forall|v: StszBox| #[trigger] StszBox::spec_decoded(s, v) ==> match (v, b) {
                (
                    StszBox::Fixed { sample_size: a, sample_count: n },
                    StszBox::Fixed { sample_size: c, sample_count: m },
                ) => a == c && n == m,
                (StszBox::Variable { entry_sizes: a }, StszBox::Variable { entry_sizes: c }) => a@
                    == c@,
                _ => false,
            }
        }),
{
    lemma_fourcc(0x73, 0x74, 0x73, 0x7a);
    let p = b.spec_payload_bytes();
    lemma_frame(StszBox::spec_type().spec_bytes(), p, rest);
    lemma_be_u32(0);
    match b {
        StszBox::Fixed { sample_size, sample_count } => {
            lemma_u32_at_4(0, 0, sample_size.spec_get(), be_u32(sample_count));
            lemma_be_u32(sample_count);
            assert(p =~= full_header_bytes(0, 0) + be_u32(sample_size.spec_get()) + be_u32(
                sample_count,
            ));
            assert(p.subrange(8, 12) =~= be_u32(sample_count));
            assert forall|v: StszBox| #[trigger] StszBox::spec_decoded(b.spec_encoding() + rest, v) implies (
            v matches StszBox::Fixed { sample_size: a, sample_count: n } && a == sample_size && n
                == sample_count) by {
                if let StszBox::Fixed { sample_size: a, .. } = v {
                    lemma_nonzero_eq(a, sample_size);
                }
            }
        },
        StszBox::Variable { entry_sizes } => {
            let xs = entry_sizes@;
            let q = be_u32(xs.len() as u32) + u32s_bytes(xs);
            lemma_u32_at_4(0, 0, 0, q);
            assert(p =~= full_header_bytes(0, 0) + be_u32(0) + q);
            let items = xs.map_values(|x: u32| be_u32(x));
            assert forall|j: int| 0 <= j < items.len() implies (#[trigger] items[j]).len() == 4 by {
                lemma_be_u32(xs[j]);
            }
            crate::boxes::lemma_concat_fixed(items, 4);
            lemma_be_u32(xs.len() as u32);
            assert(p.subrange(8, 12) =~= be_u32(xs.len() as u32));
            assert(p.subrange(12, 12 + 4 * xs.len() as int) =~= u32s_bytes(xs));
            lemma_u32s_read(xs, p, 12);
            assert forall|v: StszBox| #[trigger] StszBox::spec_decoded(b.spec_encoding() + rest, v) implies (
            v matches StszBox::Variable { entry_sizes: a } && a@ == xs) by {
                if let StszBox::Variable { entry_sizes: a } = v {
                    assert(a@ =~= xs);
                }
            }
        },
    }
}

/// An `smhd` box reads back as the box that was written.
#[verifier::spinoff_prover]
pub proof fn lemma_smhd_roundtrip(b: SmhdBox, rest: Seq<u8>)
    requires
        b.spec_encodable(),
    ensures
        ({
            let s = b.spec_encoding() + rest;
            &&& SmhdBox::spec_can_decode(s)
            &&& SmhdBox::spec_decoded_len(s) == b.spec_encoding().len()
            &&& forall|v: SmhdBox| SmhdBox::spec_decoded(s, v) ==> v == b
        }),
{
    lemma_fourcc(0x73, 0x6d, 0x68, 0x64);
    let p = b.spec_payload_bytes();
    lemma_frame(SmhdBox::spec_type().spec_bytes(), p, rest);
    lemma_be_u32(0);
    assert(p[4] == b.balance.integer);
    assert(p[5] == b.balance.fraction);
}

/// An `ftyp` box reads back with the brands and minor version that were written.
#[verifier::spinoff_prover]
pub proof fn lemma_ftyp_roundtrip(b: FtypBox, rest: Seq<u8>)
    requires
        b.spec_encodable(),
    ensures
        ({
            let s = b.spec_encoding() + rest;
            &&& FtypBox::spec_can_decode(s)
            &&& FtypBox::spec_decoded_len(s) == b.spec_encoding().len()
            &&& forall|v: FtypBox| #[trigger] FtypBox::spec_decoded(s, v) ==> {
                &&& v.major_brand.spec_bytes() == b.major_brand.spec_bytes()
                &&& v.minor_version == b.minor_version
                &&& v.compatible_brands@.len() == b.compatible_brands@.len()
                &&& forall|i: int|
                    0 <= i < b.compatible_brands@.len() ==> (#[trigger] v.compatible_brands@[i]).spec_bytes()
                        == b.compatible_brands@[i].spec_bytes()
            }
        }),
{
    lemma_fourcc(0x66, 0x74, 0x79, 0x70);
    let p = b.spec_payload_bytes();
    let bs = b.compatible_brands@;
    lemma_frame(FtypBox::spec_type().spec_bytes(), p, rest);
    b.major_brand.lemma_len();
    lemma_be_u32(b.minor_version);
    let items = bs.map_values(|x: Brand| x.spec_bytes());
    assert forall|j: int| 0 <= j < items.len() implies (#[trigger] items[j]).len() == 4 by {
        bs[j].lemma_len();
    }
    crate::boxes::lemma_concat_fixed(items, 4);
    assert(brands_bytes(bs).len() == 4 * bs.len());
    assert(p.subrange(0, 4) =~= b.major_brand.spec_bytes());
    assert(p.subrange(4, 8) =~= be_u32(b.minor_version));
    assert(p.len() == 8 + 4 * bs.len());
    assert((p.len() - 8) / 4 == bs.len()) by (nonlinear_arith)
        requires
            p.len() == 8 + 4 * bs.len(),
    ;
    assert((p.len() - 8) % 4 == 0) by (nonlinear_arith)
        requires
            p.len() == 8 + 4 * bs.len(),
    ;
    assert forall|i: int| 0 <= i < bs.len() implies p.subrange(8 + 4 * i, 12 + 4 * i) == (
    #[trigger] bs[i]).spec_bytes() by {
        assert(items[i] == bs[i].spec_bytes());
        assert(p.subrange(8 + 4 * i, 12 + 4 * i) =~= brands_bytes(bs).subrange(4 * i, 4 * i + 4));
    }
}


/// The nine values of a matrix read back from its bytes.
#[verifier::spinoff_prover]
proof fn lemma_matrix_read(mx: Seq<i32>, p: Seq<u8>, off: int)
    requires
        mx.len() == 9,
        0 <= off,
        off + matrix_bytes(mx).len() <= p.len(),
        p.subrange(off, off + matrix_bytes(mx).len()) == matrix_bytes(mx),
    ensures
        matrix_bytes(mx).len() == 36,
        forall|k: int| 0 <= k < 9 ==> i32_of(get_u32(p, off + 4 * k)) == #[trigger] mx[k],
{
    let items = mx.map_values(|x: i32| be_u32(i32_bits(x)));
    assert forall|j: int| 0 <= j < items.len() implies (#[trigger] items[j]).len() == 4 by {
        lemma_be_u32(i32_bits(mx[j]));
    }
    crate::boxes::lemma_concat_fixed(items, 4);
    lemma_signed_bits();
    assert forall|k: int| 0 <= k < 9 implies i32_of(get_u32(p, off + 4 * k)) == #[trigger] mx[k] by {
        lemma_be_u32(i32_bits(mx[k]));
        assert(items[k] == be_u32(i32_bits(mx[k])));
        assert(p.subrange(off + 4 * k, off + 4 * k + 4) =~= matrix_bytes(mx).subrange(4 * k, 4 * k + 4));
        assert(i32_of(i32_bits(mx[k])) == mx[k]);
    }
}

/// An `mvhd` box reads back as the box that was written.
#[verifier::spinoff_prover]
pub proof fn lemma_mvhd_roundtrip(b: MvhdBox, rest: Seq<u8>)
    requires
        b.spec_encodable(),
        b.timescale.spec_get() != 0,
    ensures
        ({
            let s = b.spec_encoding() + rest;
            &&& MvhdBox::spec_can_decode(s)
            &&& MvhdBox::spec_decoded_len(s) == b.spec_encoding().len()
            &&& forall|v: MvhdBox| MvhdBox::spec_decoded(s, v) ==> v == b
        }),
{
    lemma_fourcc(0x6d, 0x76, 0x68, 0x64);
    reveal(MvhdBox::spec_payload_bytes);
    let p = b.spec_payload_bytes();
    lemma_frame(MvhdBox::spec_type().spec_bytes(), p, rest);
    let ver = b.spec_version();
    let c = b.creation_time.spec_secs();
    let m = b.modification_time.spec_secs();
    let t = b.timescale.spec_get();
    let d = b.duration;
    let base = mvhd_base(ver);
    let mx = b.matrix@;
    lemma_be_u32(0);
    lemma_be_u32(t);
    lemma_be_u16(i16_bits(b.rate.integer));
    lemma_be_u16(b.rate.fraction);
    lemma_be_u32(b.next_track_id);
    lemma_signed_bits();
    let times = if ver == 1 {
        be_u64(c) + be_u64(m) + be_u32(t) + be_u64(d)
    } else {
        be_u32(c as u32) + be_u32(m as u32) + be_u32(t) + be_u32(d as u32)
    };
    let tail = be_u16(i16_bits(b.rate.integer)) + be_u16(b.rate.fraction) + seq![
        i8_bits(b.volume.integer),
        b.volume.fraction,
    ] + zeros(10);
    let mb = matrix_bytes(mx);
    let items = mx.map_values(|x: i32| be_u32(i32_bits(x)));
    assert forall|j: int| 0 <= j < items.len() implies (#[trigger] items[j]).len() == 4 by {
        lemma_be_u32(i32_bits(mx[j]));
    }
    crate::boxes::lemma_concat_fixed(items, 4);
    assert(mb.len() == 36);
    assert(p == full_header_bytes(ver, 0) + times + tail + mb + zeros(24) + be_u32(b.next_track_id));
    if ver == 1 {
        lemma_be_u64(c);
        lemma_be_u64(m);
        lemma_be_u64(d);
        assert(p.subrange(4, 12) =~= be_u64(c));
        assert(p.subrange(12, 20) =~= be_u64(m));
        assert(p.subrange(20, 24) =~= be_u32(t));
        assert(p.subrange(24, 32) =~= be_u64(d));
    } else {
        lemma_be_u32(c as u32);
        lemma_be_u32(m as u32);
        lemma_be_u32(d as u32);
        assert(p.subrange(4, 8) =~= be_u32(c as u32));
        assert(p.subrange(8, 12) =~= be_u32(m as u32));
        assert(p.subrange(12, 16) =~= be_u32(t));
        assert(p.subrange(16, 20) =~= be_u32(d as u32));
    }
    assert(p[0] == ver);
    assert(p.len() == base + 80);
    assert(p.subrange(base, base + 2) =~= be_u16(i16_bits(b.rate.integer)));
    assert(p.subrange(base + 2, base + 4) =~= be_u16(b.rate.fraction));
    assert(p[base + 4] == i8_bits(b.volume.integer));
    assert(p[base + 5] == b.volume.fraction);
    assert(p.subrange(base + 16, base + 52) =~= mb);
    lemma_matrix_read(mx, p, base + 16);
    assert(p.subrange(base + 76, base + 80) =~= be_u32(b.next_track_id));
    assert forall|v: MvhdBox| MvhdBox::spec_decoded(b.spec_encoding() + rest, v) implies v == b by {
        lemma_file_time_eq(v.creation_time, b.creation_time);
        lemma_file_time_eq(v.modification_time, b.modification_time);
        lemma_nonzero_eq(v.timescale, b.timescale);
        assert forall|k: int| 0 <= k < 9 implies v.matrix@[k] == b.matrix@[k] by {
            assert(v.matrix@[k] == i32_of(get_u32(p, base + 16 + 4 * k)));
        }
        assert(v.matrix =~= b.matrix);
        assert(v.rate == b.rate);
        assert(v.volume == b.volume);
    }
}


/// The flags of a full box payload read back from its first word.
#[verifier::spinoff_prover]
proof fn lemma_header_flags(version: u8, flags: u32, q: Seq<u8>)
    requires
        flags < 0x100_0000,
    ensures
        (get_u32(full_header_bytes(version, flags) + q, 0) % 0x100_0000) as u32 == flags,
{
    let s = full_header_bytes(version, flags) + q;
    lemma_be_u32(flags);
    let b1 = s[1];
    let b2 = s[2];
    let b3 = s[3];
    assert(b1 == ((flags / 0x1_0000) % 0x100) as u8);
    assert(b2 == ((flags / 0x100) % 0x100) as u8);
    assert(b3 == (flags % 0x100) as u8);
    assert(get_u32(s, 0) == s[0] * 0x100_0000 + b1 * 0x1_0000 + b2 * 0x100 + b3);
    assert(b1 * 0x1_0000 + b2 * 0x100 + b3 == flags);
    assert((s[0] * 0x100_0000 + flags) % 0x100_0000 == flags) by (nonlinear_arith)
        requires
            flags < 0x100_0000,
            s[0] >= 0,
    ;
}

/// The four flag bits of a `tkhd` box read back from its flags.
#[verifier::spinoff_prover]
proof fn lemma_tkhd_flags(b: TkhdBox, p: Seq<u8>)
    requires
        (get_u32(p, 0) % 0x100_0000) as u32 == b.spec_flags(),
    ensures
        payload_flag(p, 0) == b.flag_track_enabled,
        payload_flag(p, 1) == b.flag_track_in_movie,
        payload_flag(p, 2) == b.flag_track_in_preview,
        payload_flag(p, 3) == b.flag_track_size_is_aspect_ratio,
{
}

/// A `tkhd` box reads back as the box that was written.
#[verifier::spinoff_prover]
#[verifier::rlimit(60)]
pub proof fn lemma_tkhd_roundtrip(b: TkhdBox, rest: Seq<u8>)
    requires
        b.spec_encodable(),
    ensures
        ({
            let s = b.spec_encoding() + rest;
            &&& TkhdBox::spec_can_decode(s)
            &&& TkhdBox::spec_decoded_len(s) == b.spec_encoding().len()
            &&& forall|v: TkhdBox| TkhdBox::spec_decoded(s, v) ==> v == b
        }),
{
    lemma_fourcc(0x74, 0x6b, 0x68, 0x64);
    reveal(TkhdBox::spec_payload_bytes);
    let p = b.spec_payload_bytes();
    lemma_frame(TkhdBox::spec_type().spec_bytes(), p, rest);
    let ver = b.spec_version();
    let c = b.creation_time.spec_secs();
    let m = b.modification_time.spec_secs();
    let d = b.duration;
    let base = tkhd_base(ver);
    let mx = b.matrix@;
    let flags = b.spec_flags();
    lemma_be_u32(b.track_id);
    lemma_be_u16(i16_bits(b.layer));
    lemma_be_u16(i16_bits(b.alternate_group));
    lemma_be_u16(i16_bits(b.width.integer));
    lemma_be_u16(b.width.fraction);
    lemma_be_u16(i16_bits(b.height.integer));
    lemma_be_u16(b.height.fraction);
    lemma_signed_bits();
    let times = if ver == 1 {
        be_u64(c) + be_u64(m) + be_u32(b.track_id) + zeros(4) + be_u64(d)
    } else {
        be_u32(c as u32) + be_u32(m as u32) + be_u32(b.track_id) + zeros(4) + be_u32(d as u32)
    };
    let mid = zeros(8) + be_u16(i16_bits(b.layer)) + be_u16(i16_bits(b.alternate_group)) + seq![
        i8_bits(b.volume.integer),
        b.volume.fraction,
    ] + zeros(2);
    let mb = matrix_bytes(mx);
    let items = mx.map_values(|x: i32| be_u32(i32_bits(x)));
    assert forall|j: int| 0 <= j < items.len() implies (#[trigger] items[j]).len() == 4 by {
        lemma_be_u32(i32_bits(mx[j]));
    }
    crate::boxes::lemma_concat_fixed(items, 4);
    let size = be_u16(i16_bits(b.width.integer)) + be_u16(b.width.fraction) + be_u16(
        i16_bits(b.height.integer),
    ) + be_u16(b.height.fraction);
    let body = times + mid + mb + size;
    assert(p == full_header_bytes(ver, flags) + body);
    lemma_header_flags(ver, flags, body);
    if ver == 1 {
        lemma_be_u64(c);
        lemma_be_u64(m);
        lemma_be_u64(d);
        assert(p.subrange(4, 12) =~= be_u64(c));
        assert(p.subrange(12, 20) =~= be_u64(m));
        assert(p.subrange(20, 24) =~= be_u32(b.track_id));
        assert(p.subrange(28, 36) =~= be_u64(d));
    } else {
        lemma_be_u32(c as u32);
        lemma_be_u32(m as u32);
        lemma_be_u32(d as u32);
        assert(p.subrange(4, 8) =~= be_u32(c as u32));
        assert(p.subrange(8, 12) =~= be_u32(m as u32));
        assert(p.subrange(12, 16) =~= be_u32(b.track_id));
        assert(p.subrange(20, 24) =~= be_u32(d as u32));
    }
    assert(p[0] == ver);
    assert(p.len() == base + 60);
    assert(p.subrange(base + 8, base + 10) =~= be_u16(i16_bits(b.layer)));
    assert(p.subrange(base + 10, base + 12) =~= be_u16(i16_bits(b.alternate_group)));
    assert(p[base + 12] == i8_bits(b.volume.integer));
    assert(p[base + 13] == b.volume.fraction);
    assert(p.subrange(base + 16, base + 52) =~= mb);
    lemma_matrix_read(mx, p, base + 16);
    assert(p.subrange(base + 52, base + 54) =~= be_u16(i16_bits(b.width.integer)));
    assert(p.subrange(base + 54, base + 56) =~= be_u16(b.width.fraction));
    assert(p.subrange(base + 56, base + 58) =~= be_u16(i16_bits(b.height.integer)));
    assert(p.subrange(base + 58, base + 60) =~= be_u16(b.height.fraction));
    lemma_tkhd_flags(b, p);
    assert forall|v: TkhdBox| TkhdBox::spec_decoded(b.spec_encoding() + rest, v) implies v == b by {
        lemma_file_time_eq(v.creation_time, b.creation_time);
        lemma_file_time_eq(v.modification_time, b.modification_time);
        assert forall|k: int| 0 <= k < 9 implies v.matrix@[k] == b.matrix@[k] by {
            assert(v.matrix@[k] == i32_of(get_u32(p, base + 16 + 4 * k)));
        }
        assert(v.matrix =~= b.matrix);
        assert(v.volume == b.volume);
        assert(v.width == b.width);
        assert(v.height == b.height);
    }
}


/// A language code of letters from `0x60` to `0x7f` reads back from its packed form.
#[verifier::spinoff_prover]
proof fn lemma_language(l: Seq<u8>)
    requires
        l.len() == 3,
        forall|k: int| 0 <= k < 3 ==> 0x60 <= #[trigger] l[k] <= 0x7f,
    ensures
        language_letters(language_bits(l)) == l,
{
    let c0 = (l[0] - 0x60) as u16;
    let c1 = (l[1] - 0x60) as u16;
    let c2 = (l[2] - 0x60) as u16;
    assert(0x60 <= l[0] <= 0x7f && 0x60 <= l[1] <= 0x7f && 0x60 <= l[2] <= 0x7f);
    let v = ((((c0 << 5u16) | c1) << 5u16) | c2) as u16;
    assert(((v >> 10u16) & 0x1f) == c0 && ((v >> 5u16) & 0x1f) == c1 && (v & 0x1f) == c2) by (bit_vector)
        requires
            c0 < 32,
            c1 < 32,
            c2 < 32,
            v == ((((c0 << 5u16) | c1) << 5u16) | c2) as u16,
    ;
    assert(language_letters(language_bits(l)) =~= l);
}

/// An `mdhd` box reads back as the box that was written, when the letters of its language
/// fit five bits (`0x60` to `0x7f`).
#[verifier::spinoff_prover]
pub proof fn lemma_mdhd_roundtrip(b: MdhdBox, rest: Seq<u8>)
    requires
        b.spec_encodable(),
        b.timescale.spec_get() != 0,
        forall|k: int| 0 <= k < 3 ==> #[trigger] b.language@[k] <= 0x7f,
    ensures
        ({
            let s = b.spec_encoding() + rest;
            &&& MdhdBox::spec_can_decode(s)
            &&& MdhdBox::spec_decoded_len(s) == b.spec_encoding().len()
            &&& forall|v: MdhdBox| MdhdBox::spec_decoded(s, v) ==> v == b
        }),
{
    lemma_fourcc(0x6d, 0x64, 0x68, 0x64);
    reveal(MdhdBox::spec_payload_bytes);
    let p = b.spec_payload_bytes();
    lemma_frame(MdhdBox::spec_type().spec_bytes(), p, rest);
    let ver = b.spec_version();
    let c = b.creation_time.spec_secs();
    let m = b.modification_time.spec_secs();
    let t = b.timescale.spec_get();
    let d = b.duration;
    let base = mdhd_base(ver);
    let lang = language_bits(b.language@);
    lemma_be_u32(0);
    lemma_be_u32(t);
    lemma_be_u16(lang);
    if ver == 1 {
        lemma_be_u64(c);
        lemma_be_u64(m);
        lemma_be_u64(d);
        assert(p.subrange(4, 12) =~= be_u64(c));
        assert(p.subrange(12, 20) =~= be_u64(m));
        assert(p.subrange(20, 24) =~= be_u32(t));
        assert(p.subrange(24, 32) =~= be_u64(d));
    } else {
        lemma_be_u32(c as u32);
        lemma_be_u32(m as u32);
        lemma_be_u32(d as u32);
        assert(p.subrange(4, 8) =~= be_u32(c as u32));
        assert(p.subrange(8, 12) =~= be_u32(m as u32));
        assert(p.subrange(12, 16) =~= be_u32(t));
        assert(p.subrange(16, 20) =~= be_u32(d as u32));
    }
    assert(p[0] == ver);
    assert(p.len() == base + 4);
    assert(p.subrange(base, base + 2) =~= be_u16(lang));
    assert forall|k: int| 0 <= k < 3 implies 0x60 <= #[trigger] b.language@[k] <= 0x7f by {
        assert(b.spec_payload_encodable());
    }
    lemma_language(b.language@);
    assert forall|v: MdhdBox| MdhdBox::spec_decoded(b.spec_encoding() + rest, v) implies v == b by {
        lemma_file_time_eq(v.creation_time, b.creation_time);
        lemma_file_time_eq(v.modification_time, b.modification_time);
        lemma_nonzero_eq(v.timescale, b.timescale);
        assert(v.language =~= b.language);
    }
}


/// An `hdlr` box reads back with the handler type and name that were written.
#[verifier::spinoff_prover]
pub proof fn lemma_hdlr_roundtrip(b: HdlrBox, rest: Seq<u8>)
    requires
        b.spec_encodable(),
    ensures
        ({
            let s = b.spec_encoding() + rest;
            &&& HdlrBox::spec_can_decode(s)
            &&& HdlrBox::spec_decoded_len(s) == b.spec_encoding().len()
            &&& forall|v: HdlrBox| #[trigger] HdlrBox::spec_decoded(s, v) ==> v.handler_type == b.handler_type
                && v.name@ == b.name@
        }),
{
    lemma_fourcc(0x68, 0x64, 0x6c, 0x72);
    let p = b.spec_payload_bytes();
    lemma_frame(HdlrBox::spec_type().spec_bytes(), p, rest);
    lemma_be_u32(0);
    assert(p.subrange(8, 12) =~= b.handler_type@);
    assert(p.skip(24) =~= b.name@);
    assert forall|v: HdlrBox| #[trigger] HdlrBox::spec_decoded(b.spec_encoding() + rest, v) implies v.handler_type
        == b.handler_type && v.name@ == b.name@ by {
        assert(v.handler_type =~= b.handler_type);
    }
}

/// A `vmhd` box reads back as the box that was written.
#[verifier::spinoff_prover]
pub proof fn lemma_vmhd_roundtrip(b: VmhdBox, rest: Seq<u8>)
    requires
        b.spec_encodable(),
    ensures
        ({
            let s = b.spec_encoding() + rest;
            &&& VmhdBox::spec_can_decode(s)
            &&& VmhdBox::spec_decoded_len(s) == b.spec_encoding().len()
            &&& forall|v: VmhdBox| VmhdBox::spec_decoded(s, v) ==> v == b
        }),
{
    lemma_fourcc(0x76, 0x6d, 0x68, 0x64);
    let p = b.spec_payload_bytes();
    lemma_frame(VmhdBox::spec_type().spec_bytes(), p, rest);
    lemma_be_u32(1);
    lemma_be_u16(b.graphicsmode);
    lemma_be_u16(b.opcolor@[0]);
    lemma_be_u16(b.opcolor@[1]);
    lemma_be_u16(b.opcolor@[2]);
    assert(p.subrange(4, 6) =~= be_u16(b.graphicsmode));
    assert(p.subrange(6, 8) =~= be_u16(b.opcolor@[0]));
    assert(p.subrange(8, 10) =~= be_u16(b.opcolor@[1]));
    assert(p.subrange(10, 12) =~= be_u16(b.opcolor@[2]));
    assert forall|v: VmhdBox| VmhdBox::spec_decoded(b.spec_encoding() + rest, v) implies v == b by {
        assert(v.opcolor@ =~= b.opcolor@);
        assert(v.opcolor =~= b.opcolor);
    }
}

/// `stsc` entries read back from their bytes at `off`.
#[verifier::spinoff_prover]
proof fn lemma_stsc_entries_read(es: Seq<StscEntry>, p: Seq<u8>, off: int)
    requires
        0 <= off,
        off + 12 * es.len() <= p.len(),
        p.subrange(off, off + 12 * es.len()) == stsc_entries_bytes(es),
    ensures
        stsc_entries_bytes(es).len() == 12 * es.len(),
        forall|i: int|
            0 <= i < es.len() ==> get_u32(p, off + 12 * i) == (#[trigger] es[i]).first_chunk.spec_get()
                && get_u32(p, off + 4 + 12 * i) == es[i].sample_per_chunk && get_u32(p, off + 8 + 12 * i)
                == es[i].sample_description_index.spec_get(),
{
    let items = es.map_values(|e: StscEntry| stsc_entry_bytes(e));
    assert forall|j: int| 0 <= j < items.len() implies (#[trigger] items[j]).len() == 12 by {
        lemma_be_u32(es[j].first_chunk.spec_get());
        lemma_be_u32(es[j].sample_per_chunk);
        lemma_be_u32(es[j].sample_description_index.spec_get());
    }
    crate::boxes::lemma_concat_fixed(items, 12);
    assert forall|i: int| 0 <= i < es.len() implies get_u32(p, off + 12 * i) == (
    #[trigger] es[i]).first_chunk.spec_get() && get_u32(p, off + 4 + 12 * i) == es[i].sample_per_chunk
        && get_u32(p, off + 8 + 12 * i) == es[i].sample_description_index.spec_get() by {
        let e = es[i];
        lemma_be_u32(e.first_chunk.spec_get());
        lemma_be_u32(e.sample_per_chunk);
        lemma_be_u32(e.sample_description_index.spec_get());
        assert(items[i] == stsc_entry_bytes(e));
        let w = p.subrange(off + 12 * i, off + 12 * i + 12);
        assert(w =~= stsc_entries_bytes(es).subrange(12 * i, 12 * i + 12));
        assert(p.subrange(off + 12 * i, off + 12 * i + 4) =~= w.subrange(0, 4));
        assert(p.subrange(off + 4 + 12 * i, off + 8 + 12 * i) =~= w.subrange(4, 8));
        assert(p.subrange(off + 8 + 12 * i, off + 12 + 12 * i) =~= w.subrange(8, 12));
        assert(w.subrange(0, 4) =~= be_u32(e.first_chunk.spec_get()));
        assert(w.subrange(4, 8) =~= be_u32(e.sample_per_chunk));
        assert(w.subrange(8, 12) =~= be_u32(e.sample_description_index.spec_get()));
    }
}

/// The bytes of `stsc` entries: twelve per entry.
#[verifier::spinoff_prover]
proof fn lemma_stsc_entries_len(es: Seq<StscEntry>)
    ensures
        stsc_entries_bytes(es).len() == 12 * es.len(),
{
    let items = es.map_values(|e: StscEntry| stsc_entry_bytes(e));
    assert forall|j: int| 0 <= j < items.len() implies (#[trigger] items[j]).len() == 12 by {
        lemma_be_u32(es[j].first_chunk.spec_get());
        lemma_be_u32(es[j].sample_per_chunk);
        lemma_be_u32(es[j].sample_description_index.spec_get());
    }
    crate::boxes::lemma_concat_fixed(items, 12);
}

/// An `stsc` box reads back with the entries that were written.
#[verifier::spinoff_prover]
pub proof fn lemma_stsc_roundtrip(b: StscBox, rest: Seq<u8>)
    requires
        b.spec_encodable(),
        forall|i: int|
            0 <= i < b.entries@.len() ==> (#[trigger] b.entries@[i]).first_chunk.spec_get() != 0
                && b.entries@[i].sample_description_index.spec_get() != 0,
    ensures
        ({
            let s = b.spec_encoding() + rest;
            &&& StscBox::spec_can_decode(s)
            &&& StscBox::spec_decoded_len(s) == b.spec_encoding().len()
            &&& forall|v: StscBox| StscBox::spec_decoded(s, v) ==> v.entries@ == b.entries@
        }),
{
    lemma_fourcc(0x73, 0x74, 0x73, 0x63);
    let p = b.spec_payload_bytes();
    let es = b.entries@;
    lemma_frame(StscBox::spec_type().spec_bytes(), p, rest);
    lemma_stsc_entries_len(es);
    lemma_list_payload(es.len() as u32, stsc_entries_bytes(es));
    assert(es.len() <= u32::MAX);
    lemma_stsc_entries_read(es, p, 8);
    assert(get_u32(p, 4) == es.len());
    assert forall|i: int| 0 <= i < get_u32(p, 4) implies #[trigger] get_u32(p, 8 + 12 * i) != 0 && get_u32(
        p,
        16 + 12 * i,
    ) != 0 by {
        assert(get_u32(p, 8 + 12 * i) == es[i].first_chunk.spec_get());
        assert(get_u32(p, 8 + 8 + 12 * i) == es[i].sample_description_index.spec_get());
    }
    assert(StscBox::spec_payload_ok(p));
    assert forall|v: StscBox| StscBox::spec_decoded(b.spec_encoding() + rest, v) implies v.entries@
        == es by {
        assert forall|i: int| 0 <= i < es.len() implies v.entries@[i] == es[i] by {
            assert(get_u32(p, 8 + 12 * i) == es[i].first_chunk.spec_get());
            lemma_nonzero_eq(v.entries@[i].first_chunk, es[i].first_chunk);
            lemma_nonzero_eq(v.entries@[i].sample_description_index, es[i].sample_description_index);
        }
        assert(v.entries@ =~= es);
    }
}


/// The bytes of edits: twenty per edit in version 1, twelve in version 0.
#[verifier::spinoff_prover]
proof fn lemma_elst_entries_len(ver: u8, es: Seq<ElstEntry>)
    ensures
        elst_entries_bytes(ver, es).len() == elst_entry_size(ver) * es.len(),
        forall|i: int|
            0 <= i < es.len() ==> elst_entries_bytes(ver, es).subrange(
                elst_entry_size(ver) * i,
                elst_entry_size(ver) * i + elst_entry_size(ver),
            ) == elst_entry_bytes(ver, #[trigger] es[i]),
{
    let n = elst_entry_size(ver);
    let items = es.map_values(|e: ElstEntry| elst_entry_bytes(ver, e));
    assert forall|j: int| 0 <= j < items.len() implies (#[trigger] items[j]).len() == n by {
        let e = es[j];
        lemma_be_u64(e.edit_duration);
        lemma_be_u64(i64_bits(e.media_time));
        lemma_be_u32(e.edit_duration as u32);
        lemma_be_u32(i32_bits(e.media_time as i32));
        lemma_be_u16(i16_bits(e.media_rate.integer));
        lemma_be_u16(i16_bits(e.media_rate.fraction));
    }
    crate::boxes::lemma_concat_fixed(items, n);
    assert forall|i: int| 0 <= i < es.len() implies elst_entries_bytes(ver, es).subrange(n * i, n * i + n)
        == elst_entry_bytes(ver, #[trigger] es[i]) by {
        assert(items[i] == elst_entry_bytes(ver, es[i]));
    }
}

/// An edit reads back from its bytes at `o`, in the layout of its version.
#[verifier::spinoff_prover]
proof fn lemma_elst_entry_read(ver: u8, e: ElstEntry, p: Seq<u8>, o: int)
    requires
        0 <= o,
        o + elst_entry_size(ver) <= p.len(),
        p.subrange(o, o + elst_entry_size(ver)) == elst_entry_bytes(ver, e),
        ver != 1 ==> !elst_entry_large(e),
    ensures
        ver == 1 ==> get_u64(p, o) == e.edit_duration && i64_of(get_u64(p, o + 8)) == e.media_time,
        ver != 1 ==> get_u32(p, o) == e.edit_duration && i32_of(get_u32(p, o + 4)) == e.media_time,
        i16_of(get_u16(p, o + elst_entry_size(ver) - 4)) == e.media_rate.integer,
        i16_of(get_u16(p, o + elst_entry_size(ver) - 2)) == e.media_rate.fraction,
{
    let n = elst_entry_size(ver);
    let w = p.subrange(o, o + n);
    lemma_signed_bits();
    lemma_be_u16(i16_bits(e.media_rate.integer));
    lemma_be_u16(i16_bits(e.media_rate.fraction));
    if ver == 1 {
        lemma_be_u64(e.edit_duration);
        lemma_be_u64(i64_bits(e.media_time));
        assert(p.subrange(o, o + 8) =~= w.subrange(0, 8));
        assert(p.subrange(o + 8, o + 16) =~= w.subrange(8, 16));
        assert(w.subrange(0, 8) =~= be_u64(e.edit_duration));
        assert(w.subrange(8, 16) =~= be_u64(i64_bits(e.media_time)));
    } else {
        lemma_be_u32(e.edit_duration as u32);
        lemma_be_u32(i32_bits(e.media_time as i32));
        assert(p.subrange(o, o + 4) =~= w.subrange(0, 4));
        assert(p.subrange(o + 4, o + 8) =~= w.subrange(4, 8));
        assert(w.subrange(0, 4) =~= be_u32(e.edit_duration as u32));
        assert(w.subrange(4, 8) =~= be_u32(i32_bits(e.media_time as i32)));
        assert(i32_of(i32_bits(e.media_time as i32)) == e.media_time as i32);
    }
    assert(p.subrange(o + n - 4, o + n - 2) =~= w.subrange(n - 4, n - 2));
    assert(p.subrange(o + n - 2, o + n) =~= w.subrange(n - 2, n));
    assert(w.subrange(n - 4, n - 2) =~= be_u16(i16_bits(e.media_rate.integer)));
    assert(w.subrange(n - 2, n) =~= be_u16(i16_bits(e.media_rate.fraction)));
}

/// An `elst` box reads back with the edits that were written.
#[verifier::spinoff_prover]
pub proof fn lemma_elst_roundtrip(b: ElstBox, rest: Seq<u8>)
    requires
        b.spec_encodable(),
    ensures
        ({
            let s = b.spec_encoding() + rest;
            &&& ElstBox::spec_can_decode(s)
            &&& ElstBox::spec_decoded_len(s) == b.spec_encoding().len()
            &&& forall|v: ElstBox| ElstBox::spec_decoded(s, v) ==> v.entries@ == b.entries@
        }),
{
    lemma_fourcc(0x65, 0x6c, 0x73, 0x74);
    let p = b.spec_payload_bytes();
    let es = b.entries@;
    let ver = b.spec_version();
    let n = elst_entry_size(ver);
    lemma_frame(ElstBox::spec_type().spec_bytes(), p, rest);
    lemma_elst_entries_len(ver, es);
    let body = elst_entries_bytes(ver, es);
    lemma_u32_at_4(ver, 0, es.len() as u32, body);
    assert(p == full_header_bytes(ver, 0) + be_u32(es.len() as u32) + body);
    assert(p.subrange(8, 8 + body.len() as int) =~= body);
    assert(es.len() <= u32::MAX) by {
        assert(n * es.len() >= es.len()) by (nonlinear_arith)
            requires
                n >= 12,
        ;
    }
    assert(p[0] == ver);
    assert(get_u32(p, 4) == es.len());
    assert forall|i: int| 0 <= i < es.len() implies {
        let o = 8 + n * i;
        &&& (ver == 1 ==> get_u64(p, o) == (#[trigger] es[i]).edit_duration && i64_of(get_u64(p, o + 8)) == es[i].media_time)
        &&& (ver != 1 ==> get_u32(p, o) == es[i].edit_duration && i32_of(get_u32(p, o + 4)) == es[i].media_time)
        &&& i16_of(get_u16(p, o + n - 4)) == es[i].media_rate.integer
        &&& i16_of(get_u16(p, o + n - 2)) == es[i].media_rate.fraction
    } by {
        let o = 8 + n * i;
        assert(n * i + n <= n * es.len()) by (nonlinear_arith)
            requires
                0 <= i < es.len(),
                n >= 0,
        ;
        assert(0 <= n * i) by (nonlinear_arith)
            requires
                0 <= i,
                n >= 0,
        ;
        assert(p.subrange(o, o + n) =~= body.subrange(n * i, n * i + n));
        if ver != 1 {
            assert(!elst_entry_large(es[i]));
        }
        lemma_elst_entry_read(ver, es[i], p, o);
    }
    assert forall|v: ElstBox| ElstBox::spec_decoded(b.spec_encoding() + rest, v) implies v.entries@
        == es by {
        assert forall|i: int| 0 <= i < es.len() implies v.entries@[i] == es[i] by {
            let e = v.entries@[i];
            assert(e.media_rate == es[i].media_rate);
        }
        assert(v.entries@ =~= es);
    }
}

/// A `url ` box reads back with its location: none, or the same characters, when the
/// location holds no zero byte.
#[verifier::spinoff_prover]
pub proof fn lemma_url_roundtrip(b: UrlBox, rest: Seq<u8>)
    requires
        b.spec_encodable(),
        b.location matches Some(l) ==> !has_nul(vstd::utf8::encode_utf8(l.spec_chars())),
    ensures
        ({
            let s = b.spec_encoding() + rest;
            &&& UrlBox::spec_can_decode(s)
            &&& UrlBox::spec_decoded_len(s) == b.spec_encoding().len()
            &&& forall|v: UrlBox| #[trigger] UrlBox::spec_decoded(s, v) ==> match b.location {
                None => v.location is None,
                Some(l) => v.location matches Some(x) && x.spec_chars() == l.spec_chars(),
            }
        }),
{
    lemma_fourcc(0x75, 0x72, 0x6c, 0x20);
    let p = b.spec_payload_bytes();
    lemma_frame(UrlBox::spec_type().spec_bytes(), p, rest);
    let tail = match b.location {
        Some(l) => l.spec_encoding(),
        None => Seq::<u8>::empty(),
    };
    lemma_header_flags(0, b.spec_flags(), tail);
    assert(p.skip(4) =~= tail);
    match b.location {
        Some(l) => {
            let enc = vstd::utf8::encode_utf8(l.spec_chars());
            vstd::utf8::encode_utf8_valid_utf8(l.spec_chars());
            assert(tail[enc.len() as int] == 0);
            assert(has_nul(tail));
            assert forall|j: int| 0 <= j < enc.len() implies #[trigger] tail[j] != 0 by {
                assert(tail[j] == enc[j]);
                if enc[j] == 0 {
                    assert(has_nul(enc));
                }
            }
            lemma_first_nul(tail, enc.len() as int);
            assert(tail.subrange(0, enc.len() as int) =~= enc);
            assert(Utf8String::spec_can_decode(p.skip(4)));
            assert(!crate::boxes_moov_tree::payload_flag(p, 0));
            vstd::utf8::encode_utf8_valid_utf8(l.spec_chars());
            assert forall|v: UrlBox| #[trigger] UrlBox::spec_decoded(b.spec_encoding() + rest, v) implies (v.location matches Some(
                x,
            ) && x.spec_chars() == l.spec_chars()) by {
                let x = v.location->Some_0;
                vstd::utf8::encode_utf8_decode_utf8(x.spec_chars());
                vstd::utf8::encode_utf8_decode_utf8(l.spec_chars());
            }
        },
        None => {},
    }
}


/// The flags of a `tfhd` box: each of its seven bits reads back.
#[verifier::spinoff_prover]
proof fn lemma_tfhd_flags(b: TfhdBox)
    ensures
        flag_set(b.spec_flags(), 0x1) == b.base_data_offset is Some,
        flag_set(b.spec_flags(), 0x2) == b.sample_description_index is Some,
        flag_set(b.spec_flags(), 0x8) == b.default_sample_duration is Some,
        flag_set(b.spec_flags(), 0x10) == b.default_sample_size is Some,
        flag_set(b.spec_flags(), 0x20) == b.default_sample_flags is Some,
        flag_set(b.spec_flags(), 0x1_0000) == b.duration_is_empty,
        flag_set(b.spec_flags(), 0x2_0000) == b.default_base_is_moof,
        b.spec_flags() < 0x100_0000,
{
    let x1 = b.base_data_offset is Some;
    let x2 = b.sample_description_index is Some;
    let x8 = b.default_sample_duration is Some;
    let x10 = b.default_sample_size is Some;
    let x20 = b.default_sample_flags is Some;
    let x10000 = b.duration_is_empty;
    let x20000 = b.default_base_is_moof;
    let f: u32 = b.spec_flags();
    let f1: u32 = if x1 { 1 } else { 0 };
    let f2: u32 = if x2 { 2 } else { 0 };
    let f8: u32 = if x8 { 8 } else { 0 };
    let f10: u32 = if x10 { 0x10 } else { 0 };
    let f20: u32 = if x20 { 0x20 } else { 0 };
    let f10000: u32 = if x10000 { 0x1_0000 } else { 0 };
    let f20000: u32 = if x20000 { 0x2_0000 } else { 0 };
    assert(f == f1 + f2 + f8 + f10 + f20 + f10000 + f20000);
    assert({
        let g = f1 + f2 + f8 + f10 + f20 + f10000 + f20000;
        &&& ((g / 1) % 2 == 1) == (f1 == 1)
        &&& ((g / 2) % 2 == 1) == (f2 == 2)
        &&& ((g / 8) % 2 == 1) == (f8 == 8)
        &&& ((g / 0x10) % 2 == 1) == (f10 == 0x10)
        &&& ((g / 0x20) % 2 == 1) == (f20 == 0x20)
        &&& ((g / 0x1_0000) % 2 == 1) == (f10000 == 0x1_0000)
        &&& ((g / 0x2_0000) % 2 == 1) == (f20000 == 0x2_0000)
        &&& g < 0x100_0000
    }) by (bit_vector)
        requires
            f1 == 0 || f1 == 1,
            f2 == 0 || f2 == 2,
            f8 == 0 || f8 == 8,
            f10 == 0 || f10 == 0x10,
            f20 == 0 || f20 == 0x20,
            f10000 == 0 || f10000 == 0x1_0000,
            f20000 == 0 || f20000 == 0x2_0000,
    ;
}

/// The part `t` of `s + t` sits right after `s`.
#[verifier::spinoff_prover]
proof fn lemma_suffix(s: Seq<u8>, t: Seq<u8>)
    ensures
        (s + t).subrange(s.len() as int, (s.len() + t.len()) as int) == t,
{
    assert((s + t).subrange(s.len() as int, (s.len() + t.len()) as int) =~= t);
}

/// Bytes `i .. j` of `s + t` within `s` are those of `s`.
#[verifier::spinoff_prover]
proof fn lemma_prefix_sub(s: Seq<u8>, t: Seq<u8>, i: int, j: int)
    requires
        0 <= i <= j <= s.len(),
    ensures
        (s + t).subrange(i, j) == s.subrange(i, j),
{
    assert((s + t).subrange(i, j) =~= s.subrange(i, j));
}

/// The payload of a `tfhd` box holds each of its fields where the flags place it.
#[verifier::spinoff_prover]
#[verifier::rlimit(40)]
proof fn lemma_tfhd_payload(b: TfhdBox)
    ensures
        TfhdBox::spec_payload_ok(b.spec_payload_bytes()),
        forall|v: TfhdBox| TfhdBox::spec_payload_decoded(b.spec_payload_bytes(), v) ==> v == b,
{
    let p = b.spec_payload_bytes();
    lemma_tfhd_flags(b);
    let f = b.spec_flags();
    let x1 = opt_u64_bytes(b.base_data_offset);
    let x2 = opt_u32_bytes(b.sample_description_index);
    let x3 = opt_u32_bytes(b.default_sample_duration);
    let x4 = opt_u32_bytes(b.default_sample_size);
    let x5 = opt_u32_bytes(opt_flags_value(b.default_sample_flags));
    let q0 = full_header_bytes(0, f) + be_u32(b.track_id);
    let q1 = q0 + x1;
    let q2 = q1 + x2;
    let q3 = q2 + x3;
    let q4 = q3 + x4;
    assert(p == q4 + x5);
    lemma_header_flags(0, f, be_u32(b.track_id));
    lemma_be_u32(b.track_id);
    assert(q0.len() == 8);
    assert(p[0] == q0[0] && p[1] == q0[1] && p[2] == q0[2] && p[3] == q0[3]);
    assert(get_u32(p, 0) == get_u32(q0, 0));
    assert(payload_flags(p) == f);
    lemma_suffix(full_header_bytes(0, f), be_u32(b.track_id));
    lemma_prefix_sub(q0, x1, 4, 8);
    lemma_prefix_sub(q1, x2, 4, 8);
    lemma_prefix_sub(q2, x3, 4, 8);
    lemma_prefix_sub(q3, x4, 4, 8);
    lemma_prefix_sub(q4, x5, 4, 8);
    lemma_opt_u64_len(b.base_data_offset);
    lemma_opt_u32_len(b.sample_description_index);
    lemma_opt_u32_len(b.default_sample_duration);
    lemma_opt_u32_len(b.default_sample_size);
    lemma_opt_u32_len(opt_flags_value(b.default_sample_flags));
    let o1 = q1.len() as int;
    let o2 = q2.len() as int;
    let o3 = q3.len() as int;
    let o4 = q4.len() as int;
    assert(o1 == TfhdBox::spec_end1(f));
    assert(o2 == TfhdBox::spec_end2(f));
    assert(o3 == TfhdBox::spec_end3(f));
    assert(o4 == TfhdBox::spec_end4(f));
    assert(p.len() == TfhdBox::spec_end5(f));
    // x1
    lemma_suffix(q0, x1);
    lemma_prefix_sub(q1, x2, 8, o1);
    lemma_prefix_sub(q2, x3, 8, o1);
    lemma_prefix_sub(q3, x4, 8, o1);
    lemma_prefix_sub(q4, x5, 8, o1);
    // x2
    lemma_suffix(q1, x2);
    lemma_prefix_sub(q2, x3, o1, o2);
    lemma_prefix_sub(q3, x4, o1, o2);
    lemma_prefix_sub(q4, x5, o1, o2);
    // x3
    lemma_suffix(q2, x3);
    lemma_prefix_sub(q3, x4, o2, o3);
    lemma_prefix_sub(q4, x5, o2, o3);
    // x4
    lemma_suffix(q3, x4);
    lemma_prefix_sub(q4, x5, o3, o4);
    // x5
    lemma_suffix(q4, x5);
    lemma_sub_u64(p, 8, b.base_data_offset);
    lemma_sub_u32(p, o1, b.sample_description_index);
    lemma_sub_u32(p, o2, b.default_sample_duration);
    lemma_sub_u32(p, o3, b.default_sample_size);
    lemma_sub_u32(p, o4, opt_flags_value(b.default_sample_flags));
    assert forall|v: TfhdBox| TfhdBox::spec_payload_decoded(p, v) implies v == b by {
        if let Some(x) = b.default_sample_flags {
            lemma_sample_flags_eq(v.default_sample_flags->Some_0, x);
        }
    }
}

/// The length of an optional 32-bit field.
#[verifier::spinoff_prover]
proof fn lemma_opt_u32_len(o: Option<u32>)
    ensures
        opt_u32_bytes(o).len() == opt_len(o is Some, 4),
{
    if let Some(v) = o {
        lemma_be_u32(v);
    }
}

/// The length of an optional 64-bit field.
#[verifier::spinoff_prover]
proof fn lemma_opt_u64_len(o: Option<u64>)
    ensures
        opt_u64_bytes(o).len() == opt_len(o is Some, 8),
{
    if let Some(v) = o {
        lemma_be_u64(v);
    }
}

/// An optional 32-bit field reads back from its bytes at `lo`.
#[verifier::spinoff_prover]
proof fn lemma_sub_u32(p: Seq<u8>, lo: int, o: Option<u32>)
    requires
        0 <= lo,
        lo + opt_u32_bytes(o).len() <= p.len(),
        p.subrange(lo, lo + opt_u32_bytes(o).len()) == opt_u32_bytes(o),
    ensures
        o matches Some(v) ==> get_u32(p, lo) == v,
{
    if let Some(v) = o {
        lemma_be_u32(v);
    }
}

/// An optional 64-bit field reads back from its bytes at `lo`.
#[verifier::spinoff_prover]
proof fn lemma_sub_u64(p: Seq<u8>, lo: int, o: Option<u64>)
    requires
        0 <= lo,
        lo + opt_u64_bytes(o).len() <= p.len(),
        p.subrange(lo, lo + opt_u64_bytes(o).len()) == opt_u64_bytes(o),
    ensures
        o matches Some(v) ==> get_u64(p, lo) == v,
{
    if let Some(v) = o {
        lemma_be_u64(v);
    }
}

/// A `tfhd` box reads back as the box that was written.
#[verifier::spinoff_prover]
pub proof fn lemma_tfhd_roundtrip(b: TfhdBox, rest: Seq<u8>)
    requires
        b.spec_encodable(),
    ensures
        ({
            let s = b.spec_encoding() + rest;
            &&& TfhdBox::spec_can_decode(s)
            &&& TfhdBox::spec_decoded_len(s) == b.spec_encoding().len()
            &&& forall|v: TfhdBox| TfhdBox::spec_decoded(s, v) ==> v == b
        }),
{
    lemma_fourcc(0x74, 0x66, 0x68, 0x64);
    lemma_frame(TfhdBox::spec_type().spec_bytes(), b.spec_payload_bytes(), rest);
    lemma_tfhd_payload(b);
}


/// The flags of a `trun` box: each of its six bits reads back.
#[verifier::spinoff_prover]
proof fn lemma_trun_flags(b: TrunBox)
    ensures
        flag_set(b.spec_flags(), 0x1) == b.data_offset is Some,
        flag_set(b.spec_flags(), 0x4) == b.first_sample_flags is Some,
        trun_flags_layout(b.spec_flags()) == b.spec_layout(),
        b.spec_flags() < 0x100_0000,
{
    let l = b.spec_layout();
    let f: u32 = b.spec_flags();
    let f1: u32 = if b.data_offset is Some { 1 } else { 0 };
    let f4: u32 = if b.first_sample_flags is Some { 4 } else { 0 };
    let f100: u32 = if l.0 { 0x100 } else { 0 };
    let f200: u32 = if l.1 { 0x200 } else { 0 };
    let f400: u32 = if l.2 { 0x400 } else { 0 };
    let f800: u32 = if l.3 { 0x800 } else { 0 };
    assert(f == f1 + f4 + f100 + f200 + f400 + f800);
    assert({
        let g = f1 + f4 + f100 + f200 + f400 + f800;
        &&& ((g / 1) % 2 == 1) == (f1 == 1)
        &&& ((g / 4) % 2 == 1) == (f4 == 4)
        &&& ((g / 0x100) % 2 == 1) == (f100 == 0x100)
        &&& ((g / 0x200) % 2 == 1) == (f200 == 0x200)
        &&& ((g / 0x400) % 2 == 1) == (f400 == 0x400)
        &&& ((g / 0x800) % 2 == 1) == (f800 == 0x800)
        &&& g < 0x100_0000
    }) by (bit_vector)
        requires
            f1 == 0 || f1 == 1,
            f4 == 0 || f4 == 4,
            f100 == 0 || f100 == 0x100,
            f200 == 0 || f200 == 0x200,
            f400 == 0 || f400 == 0x400,
            f800 == 0 || f800 == 0x800,
    ;
}

/// The bytes of a sample of a track run in a layout: the size of the layout.
#[verifier::spinoff_prover]
proof fn lemma_trun_sample_len(l: TrunLayout, x: TrunSample)
    ensures
        trun_sample_bytes(l, x).len() == trun_sample_size(l),
{
    reveal(opt_field);
    lemma_be_u32(0);
    if let Some(v) = x.duration {
        lemma_be_u32(v);
    }
    if let Some(v) = x.size {
        lemma_be_u32(v);
    }
    if let Some(v) = x.flags {
        lemma_be_u32(v.spec_get());
    }
    if let Some(v) = x.composition_time_offset {
        lemma_be_u32(i32_bits(v));
    }
}

/// A sample of a track run with the run's layout reads back from its bytes at `o`.
#[verifier::spinoff_prover]
proof fn lemma_trun_sample_read(l: TrunLayout, x: TrunSample, y: TrunSample, p: Seq<u8>, o: int)
    requires
        trun_sample_layout(x) == l,
        0 <= o,
        o + trun_sample_size(l) <= p.len(),
        p.subrange(o, o + trun_sample_size(l)) == trun_sample_bytes(l, x),
        trun_sample_read(p, o, l, y),
    ensures
        y == x,
{
    reveal(opt_field);
    lemma_trun_sample_len(l, x);
    lemma_signed_bits();
    let d = opt_field(l.0, match x.duration { Some(v) => v, None => 0 });
    let z = opt_field(l.1, match x.size { Some(v) => v, None => 0 });
    let g = opt_field(l.2, match x.flags { Some(v) => v.spec_get(), None => 0 });
    let h = opt_field(l.3, i32_bits(match x.composition_time_offset { Some(v) => v, None => 0 }));
    lemma_be_u32(match x.duration { Some(v) => v, None => 0 });
    lemma_be_u32(match x.size { Some(v) => v, None => 0 });
    lemma_be_u32(match x.flags { Some(v) => v.spec_get(), None => 0 });
    lemma_be_u32(i32_bits(match x.composition_time_offset { Some(v) => v, None => 0 }));
    let w = p.subrange(o, o + trun_sample_size(l));
    assert(w == d + z + g + h);
    let o1 = o + opt_len(l.0, 4);
    let o2 = o1 + opt_len(l.1, 4);
    let o3 = o2 + opt_len(l.2, 4);
    let a1 = d.len() as int;
    let a2 = a1 + z.len();
    let a3 = a2 + g.len();
    assert(o1 == o + a1 && o2 == o + a2 && o3 == o + a3);
    lemma_prefix_sub(d + z + g, h, 0, a1);
    lemma_prefix_sub(d + z, g, 0, a1);
    lemma_prefix_sub(d, z, 0, a1);
    lemma_prefix_sub(d + z + g, h, a1, a2);
    lemma_prefix_sub(d + z, g, a1, a2);
    lemma_suffix(d, z);
    lemma_prefix_sub(d + z + g, h, a2, a3);
    lemma_suffix(d + z, g);
    lemma_suffix(d + z + g, h);
    assert(d.subrange(0, a1) =~= d);
    if let Some(v) = x.duration {
        assert(p.subrange(o, o + 4) =~= w.subrange(0, 4));
    }
    if let Some(v) = x.size {
        assert(p.subrange(o1, o1 + 4) =~= w.subrange(a1, a1 + 4));
    }
    if let Some(v) = x.flags {
        assert(p.subrange(o2, o2 + 4) =~= w.subrange(a2, a2 + 4));
        lemma_sample_flags_eq(y.flags->Some_0, v);
    }
    if let Some(v) = x.composition_time_offset {
        assert(p.subrange(o3, o3 + 4) =~= w.subrange(a3, a3 + 4));
    }
}

/// A `trun` box whose samples all carry the fields of its first sample, and whose count fits
/// 32 bits, reads back with the data offset, first sample flags and samples that were written.
#[verifier::spinoff_prover]
#[verifier::rlimit(40)]
pub proof fn lemma_trun_roundtrip(b: TrunBox, rest: Seq<u8>)
    requires
        b.spec_encodable(),
        forall|i: int| 0 <= i < b.samples@.len() ==> trun_sample_layout(#[trigger] b.samples@[i]) == b.spec_layout(),
        b.samples@.len() <= u32::MAX,
    ensures
        ({
            let s = b.spec_encoding() + rest;
            &&& TrunBox::spec_can_decode(s)
            &&& TrunBox::spec_decoded_len(s) == b.spec_encoding().len()
            &&& forall|v: TrunBox| #[trigger] TrunBox::spec_decoded(s, v) ==> v.data_offset == b.data_offset
                && v.first_sample_flags == b.first_sample_flags && v.samples@ == b.samples@
        }),
{
    lemma_fourcc(0x74, 0x72, 0x75, 0x6e);
    let p = b.spec_payload_bytes();
    lemma_frame(TrunBox::spec_type().spec_bytes(), p, rest);
    lemma_trun_payload(b);
}

/// The payload of a `trun` box holds its fields and samples where its flags place them.
#[verifier::spinoff_prover]
#[verifier::rlimit(60)]
proof fn lemma_trun_payload(b: TrunBox)
    requires
        b.spec_encodable(),
        forall|i: int| 0 <= i < b.samples@.len() ==> trun_sample_layout(#[trigger] b.samples@[i]) == b.spec_layout(),
        b.samples@.len() <= u32::MAX,
    ensures
        TrunBox::spec_payload_ok(b.spec_payload_bytes()),
        forall|v: TrunBox| #[trigger] TrunBox::spec_payload_decoded(b.spec_payload_bytes(), v) ==> v.data_offset
            == b.data_offset && v.first_sample_flags == b.first_sample_flags && v.samples@ == b.samples@,
{
    let p = b.spec_payload_bytes();
    let ss = b.samples@;
    let l = b.spec_layout();
    let n = trun_sample_size(l);
    lemma_trun_flags(b);
    let f = b.spec_flags();
    let x1 = opt_u32_bytes(opt_i32_bits(b.data_offset));
    let x2 = opt_u32_bytes(opt_flags_value(b.first_sample_flags));
    let body = trun_samples_bytes(l, ss);
    let q0 = full_header_bytes(b.spec_version(), f) + be_u32(ss.len() as u32);
    let q1 = q0 + x1;
    let q2 = q1 + x2;
    assert(p == q2 + body);
    lemma_header_flags(b.spec_version(), f, be_u32(ss.len() as u32));
    lemma_be_u32(ss.len() as u32);
    assert(q0.len() == 8);
    assert(p[0] == q0[0] && p[1] == q0[1] && p[2] == q0[2] && p[3] == q0[3]);
    assert(get_u32(p, 0) == get_u32(q0, 0));
    assert(payload_flags(p) == f);
    lemma_opt_u32_len(opt_i32_bits(b.data_offset));
    lemma_opt_u32_len(opt_flags_value(b.first_sample_flags));
    let items = ss.map_values(|x: TrunSample| trun_sample_bytes(l, x));
    assert forall|j: int| 0 <= j < items.len() implies (#[trigger] items[j]).len() == n by {
        lemma_trun_sample_len(l, ss[j]);
    }
    crate::boxes::lemma_concat_fixed(items, n);
    assert(body.len() == n * ss.len());
    let start = q2.len() as int;
    assert(start == TrunBox::spec_samples_start(f));
    // the count
    lemma_suffix(full_header_bytes(b.spec_version(), f), be_u32(ss.len() as u32));
    lemma_prefix_sub(q0, x1, 4, 8);
    lemma_prefix_sub(q1, x2, 4, 8);
    lemma_prefix_sub(q2, body, 4, 8);
    assert(get_u32(p, 4) == ss.len());
    // the optional fields
    lemma_suffix(q0, x1);
    lemma_prefix_sub(q1, x2, 8, q1.len() as int);
    lemma_prefix_sub(q2, body, 8, q1.len() as int);
    lemma_suffix(q1, x2);
    lemma_prefix_sub(q2, body, q1.len() as int, start);
    lemma_sub_u32(p, 8, opt_i32_bits(b.data_offset));
    lemma_sub_u32(p, q1.len() as int, opt_flags_value(b.first_sample_flags));
    lemma_suffix(q2, body);
    assert(p.len() == start + n * ss.len());
    assert forall|v: TrunBox| #[trigger] TrunBox::spec_payload_decoded(p, v) implies v.data_offset == b.data_offset
        && v.first_sample_flags == b.first_sample_flags && v.samples@ == ss by {
        lemma_signed_bits();
        if let Some(x) = b.first_sample_flags {
            lemma_sample_flags_eq(v.first_sample_flags->Some_0, x);
        }
        if let Some(x) = b.data_offset {
            assert(i32_of(i32_bits(v.data_offset->Some_0)) == i32_of(i32_bits(x)));
        }
        assert forall|i: int| 0 <= i < ss.len() implies v.samples@[i] == ss[i] by {
            assert(n * i + n <= n * ss.len()) by (nonlinear_arith)
                requires
                    0 <= i < ss.len(),
                    n >= 0,
            ;
            assert(0 <= n * i) by (nonlinear_arith)
                requires
                    0 <= i,
                    n >= 0,
            ;
            assert(items[i] == trun_sample_bytes(l, ss[i]));
            assert(p.subrange(start + n * i, start + n * i + n) =~= body.subrange(n * i, n * i + n));
            assert(trun_sample_read(p, start + n * i, l, v.samples@[i]));
            lemma_trun_sample_read(l, ss[i], v.samples@[i], p, start + n * i);
        }
        assert(v.samples@ =~= ss);
    }
}


/// Whether the fields of a reference fit their bits: 31 for the size, 3 for the access point
/// type and 28 for its time.
pub open spec fn sidx_reference_fits(r: SidxReference) -> bool {
    &&& r.referenced_size < 0x8000_0000
    &&& r.sap_type < 8
    &&& r.sap_delta_time < 0x1000_0000
}

/// The words of a reference whose fields fit give back its fields.
#[verifier::spinoff_prover]
proof fn lemma_sidx_words(r: SidxReference)
    requires
        sidx_reference_fits(r),
    ensures
        r.reference_type == (sidx_word1(r) >= 0x8000_0000),
        r.referenced_size == sidx_word1(r) % 0x8000_0000,
        r.starts_with_sap == (sidx_word3(r) >= 0x8000_0000),
        r.sap_type == (sidx_word3(r) / 0x1000_0000) % 8,
        r.sap_delta_time == sidx_word3(r) % 0x1000_0000,
{
    let sp: int = if r.starts_with_sap { 1 } else { 0 };
    let ty = r.sap_type as int;
    let dt = r.sap_delta_time as int;
    assert(sidx_word3(r) == sp * 0x8000_0000 + ty * 0x1000_0000 + dt);
    assert((sp * 0x8000_0000 + ty * 0x1000_0000 + dt) / 0x1000_0000 == sp * 8 + ty) by (nonlinear_arith)
        requires
            0 <= dt < 0x1000_0000,
            0 <= ty < 8,
            0 <= sp <= 1,
    ;
    assert((sp * 8 + ty) % 8 == ty) by (nonlinear_arith)
        requires
            0 <= ty < 8,
            0 <= sp <= 1,
    ;
    assert((sp * 0x8000_0000 + ty * 0x1000_0000 + dt) % 0x1000_0000 == dt) by (nonlinear_arith)
        requires
            0 <= dt < 0x1000_0000,
            0 <= ty < 8,
            0 <= sp <= 1,
    ;
}

/// A reference whose fields fit reads back from its bytes at `o`.
#[verifier::spinoff_prover]
proof fn lemma_sidx_reference_read(r: SidxReference, x: SidxReference, p: Seq<u8>, o: int)
    requires
        sidx_reference_fits(r),
        0 <= o,
        o + 12 <= p.len(),
        p.subrange(o, o + 12) == sidx_reference_bytes(r),
        sidx_reference_read(p, o, x),
    ensures
        x == r,
{
    let w1 = sidx_word1(r);
    let w3 = sidx_word3(r);
    lemma_be_u32(w1);
    lemma_be_u32(r.subsegment_duration);
    lemma_be_u32(w3);
    let w = p.subrange(o, o + 12);
    assert(p.subrange(o, o + 4) =~= w.subrange(0, 4));
    assert(p.subrange(o + 4, o + 8) =~= w.subrange(4, 8));
    assert(p.subrange(o + 8, o + 12) =~= w.subrange(8, 12));
    assert(w.subrange(0, 4) =~= be_u32(w1));
    assert(w.subrange(4, 8) =~= be_u32(r.subsegment_duration));
    assert(w.subrange(8, 12) =~= be_u32(w3));
    assert(get_u32(p, o) == w1);
    assert(get_u32(p, o + 8) == w3);
    lemma_sidx_words(r);
}

/// The bytes of references: twelve per reference.
#[verifier::spinoff_prover]
proof fn lemma_sidx_references_len(rs: Seq<SidxReference>)
    ensures
        sidx_references_bytes(rs).len() == 12 * rs.len(),
        forall|i: int|
            0 <= i < rs.len() ==> sidx_references_bytes(rs).subrange(12 * i, 12 * i + 12)
                == sidx_reference_bytes(#[trigger] rs[i]),
{
    let items = rs.map_values(|r: SidxReference| sidx_reference_bytes(r));
    assert forall|j: int| 0 <= j < items.len() implies (#[trigger] items[j]).len() == 12 by {
        lemma_be_u32(sidx_word1(rs[j]));
        lemma_be_u32(rs[j].subsegment_duration);
        lemma_be_u32(sidx_word3(rs[j]));
    }
    crate::boxes::lemma_concat_fixed(items, 12);
    assert forall|i: int| 0 <= i < rs.len() implies sidx_references_bytes(rs).subrange(12 * i, 12 * i + 12)
        == sidx_reference_bytes(#[trigger] rs[i]) by {
        assert(items[i] == sidx_reference_bytes(rs[i]));
    }
}

/// An `sidx` box reads back as the box that was written, when it has at most 65535
/// references and their fields fit their bits.
#[verifier::spinoff_prover]
#[verifier::rlimit(40)]
pub proof fn lemma_sidx_roundtrip(b: SidxBox, rest: Seq<u8>)
    requires
        b.spec_encodable(),
        b.references@.len() <= u16::MAX,
        forall|i: int| 0 <= i < b.references@.len() ==> sidx_reference_fits(#[trigger] b.references@[i]),
    ensures
        ({
            let s = b.spec_encoding() + rest;
            &&& SidxBox::spec_can_decode(s)
            &&& SidxBox::spec_decoded_len(s) == b.spec_encoding().len()
            &&& forall|v: SidxBox| #[trigger] SidxBox::spec_decoded(s, v) ==> v.reference_id == b.reference_id
                && v.timescale == b.timescale && v.earliest_presentation_time == b.earliest_presentation_time
                && v.first_offset == b.first_offset && v.references@ == b.references@
        }),
{
    lemma_fourcc(0x73, 0x69, 0x64, 0x78);
    let p = b.spec_payload_bytes();
    lemma_frame(SidxBox::spec_type().spec_bytes(), p, rest);
    let rs = b.references@;
    let ver = b.spec_version();
    let base = SidxBox::spec_base(ver);
    let e = b.earliest_presentation_time;
    let f = b.first_offset;
    lemma_be_u32(0);
    lemma_be_u32(b.reference_id);
    lemma_be_u32(b.timescale);
    lemma_be_u16(0);
    lemma_be_u16(rs.len() as u16);
    lemma_sidx_references_len(rs);
    let times = if ver == 1 {
        be_u64(e) + be_u64(f)
    } else {
        be_u32(e as u32) + be_u32(f as u32)
    };
    let body = sidx_references_bytes(rs);
    let q = full_header_bytes(ver, 0) + be_u32(b.reference_id) + be_u32(b.timescale) + times + be_u16(0)
        + be_u16(rs.len() as u16);
    assert(p == q + body);
    if ver == 1 {
        lemma_be_u64(e);
        lemma_be_u64(f);
        assert(p.subrange(12, 20) =~= be_u64(e));
        assert(p.subrange(20, 28) =~= be_u64(f));
    } else {
        lemma_be_u32(e as u32);
        lemma_be_u32(f as u32);
        assert(p.subrange(12, 16) =~= be_u32(e as u32));
        assert(p.subrange(16, 20) =~= be_u32(f as u32));
    }
    assert(q.len() == base + 4);
    assert(p[0] == ver);
    assert(p.subrange(4, 8) =~= be_u32(b.reference_id));
    assert(p.subrange(8, 12) =~= be_u32(b.timescale));
    assert(p.subrange(base + 2, base + 4) =~= be_u16(rs.len() as u16));
    assert(get_u16(p, base + 2) == rs.len());
    lemma_suffix(q, body);
    assert(p.len() == base + 4 + 12 * rs.len());
    assert forall|v: SidxBox| #[trigger] SidxBox::spec_decoded(b.spec_encoding() + rest, v) implies v.reference_id
        == b.reference_id && v.timescale == b.timescale && v.earliest_presentation_time == e
        && v.first_offset == f && v.references@ == rs by {
        assert forall|i: int| 0 <= i < rs.len() implies v.references@[i] == rs[i] by {
            let o = base + 4 + 12 * i;
            assert(p.subrange(o, o + 12) =~= body.subrange(12 * i, 12 * i + 12));
            assert(sidx_reference_read(p, o, v.references@[i]));
            lemma_sidx_reference_read(rs[i], v.references@[i], p, o);
        }
        assert(v.references@ =~= rs);
    }
}


/// Whether `v` fits `n` bytes (1 to 4).
pub open spec fn var_uint_fits(v: u32, n: int) -> bool {
    if n == 1 {
        v < 0x100
    } else if n == 2 {
        v < 0x1_0000
    } else if n == 3 {
        v < 0x100_0000
    } else {
        true
    }
}

/// A number written in `n` bytes that it fits reads back.
#[verifier::spinoff_prover]
proof fn lemma_var_uint_read(v: u32, n: int, p: Seq<u8>, o: int)
    requires
        1 <= n <= 4,
        var_uint_fits(v, n),
        0 <= o,
        o + n <= p.len(),
        p.subrange(o, o + n) == var_uint_bytes(v, n),
    ensures
        var_uint_bytes(v, n).len() == n,
        get_var_uint(p, o, n) == v,
{
    let w = var_uint_bytes(v, n);
    let b = be_u32(v);
    assert(w.len() == n);
    let q = p.subrange(o, o + n);
    assert(p[o] == q[0]);
    if n >= 2 {
        assert(p[o + 1] == q[1]);
    }
    if n >= 3 {
        assert(p[o + 2] == q[2]);
    }
    if n >= 4 {
        assert(p[o + 3] == q[3]);
    }
    let b0 = (v / 0x100_0000) as int;
    let b1 = ((v / 0x1_0000) % 0x100) as int;
    let b2 = ((v / 0x100) % 0x100) as int;
    let b3 = (v % 0x100) as int;
    assert(v == b0 * 0x100_0000 + b1 * 0x1_0000 + b2 * 0x100 + b3);
    if n == 1 {
        assert(b0 == 0 && b1 == 0 && b2 == 0);
    } else if n == 2 {
        assert(b0 == 0 && b1 == 0);
    } else if n == 3 {
        assert(b0 == 0);
    }
}

/// Bytes `i .. j` of the part of `p` at `o .. o + n`.
proof fn lemma_sub_sub(p: Seq<u8>, o: int, n: int, i: int, j: int)
    requires
        0 <= o,
        0 <= i <= j <= n,
        o + n <= p.len(),
    ensures
        p.subrange(o + i, o + j) == p.subrange(o, o + n).subrange(i, j),
{
    assert(p.subrange(o + i, o + j) =~= p.subrange(o, o + n).subrange(i, j));
}

/// The bytes of a `tfra` entry: the size of its layout.
#[verifier::spinoff_prover]
proof fn lemma_tfra_entry_len(ver: u8, a: int, b: int, c: int, e: TfraEntry)
    requires
        0 <= a <= 3,
        0 <= b <= 3,
        0 <= c <= 3,
    ensures
        tfra_entry_bytes(ver, a, b, c, e).len() == tfra_entry_size(ver, a, b, c),
{
    lemma_be_u64(e.time);
    lemma_be_u64(e.moof_offset);
    lemma_be_u32(e.time as u32);
    lemma_be_u32(e.moof_offset as u32);
    lemma_be_u32(e.traf_number);
    lemma_be_u32(e.trun_number);
    lemma_be_u32(e.sample_number);
}

/// Whether the numbers of an entry fit the sizes of a `tfra` box.
pub open spec fn tfra_entry_fits(e: TfraEntry, a: int, b: int, c: int) -> bool {
    &&& var_uint_fits(e.traf_number, a + 1)
    &&& var_uint_fits(e.trun_number, b + 1)
    &&& var_uint_fits(e.sample_number, c + 1)
}

/// A `tfra` entry whose numbers fit reads back from its bytes at `o`.
#[verifier::spinoff_prover]
#[verifier::rlimit(40)]
proof fn lemma_tfra_entry_read(ver: u8, a: int, b: int, c: int, e: TfraEntry, x: TfraEntry, p: Seq<u8>, o: int)
    requires
        0 <= a <= 3,
        0 <= b <= 3,
        0 <= c <= 3,
        ver != 1 ==> !tfra_entry_large(e),
        tfra_entry_fits(e, a, b, c),
        0 <= o,
        o + tfra_entry_size(ver, a, b, c) <= p.len(),
        p.subrange(o, o + tfra_entry_size(ver, a, b, c)) == tfra_entry_bytes(ver, a, b, c, e),
        tfra_entry_read(p, o, ver, a, b, c, x),
    ensures
        x == e,
{
    lemma_tfra_entry_len(ver, a, b, c, e);
    let tt = if ver == 1 { be_u64(e.time) + be_u64(e.moof_offset) } else { be_u32(e.time as u32) + be_u32(e.moof_offset as u32) };
    let y1 = var_uint_bytes(e.traf_number, a + 1);
    let y2 = var_uint_bytes(e.trun_number, b + 1);
    let y3 = var_uint_bytes(e.sample_number, c + 1);
    lemma_be_u32(e.traf_number);
    lemma_be_u32(e.trun_number);
    lemma_be_u32(e.sample_number);
    let n = tfra_entry_size(ver, a, b, c);
    let w = p.subrange(o, o + n);
    assert(w == tt + y1 + y2 + y3);
    let t = if ver == 1 { 16int } else { 8 };
    let l1 = t + a + 1;
    let l2 = l1 + b + 1;
    assert(tt.len() == t);
    lemma_prefix_sub(tt + y1 + y2, y3, 0, t);
    lemma_prefix_sub(tt + y1, y2, 0, t);
    lemma_prefix_sub(tt, y1, 0, t);
    assert(tt.subrange(0, t) =~= tt);
    lemma_prefix_sub(tt + y1 + y2, y3, t, l1);
    lemma_prefix_sub(tt + y1, y2, t, l1);
    lemma_suffix(tt, y1);
    lemma_prefix_sub(tt + y1 + y2, y3, l1, l2);
    lemma_suffix(tt + y1, y2);
    lemma_suffix(tt + y1 + y2, y3);
    lemma_sub_sub(p, o, n, 0, t);
    lemma_sub_sub(p, o, n, t, l1);
    lemma_sub_sub(p, o, n, l1, l2);
    lemma_sub_sub(p, o, n, l2, n);
    let h = p.subrange(o, o + t);
    if ver == 1 {
        lemma_be_u64(e.time);
        lemma_be_u64(e.moof_offset);
        assert(p.subrange(o, o + 8) =~= h.subrange(0, 8));
        assert(p.subrange(o + 8, o + 16) =~= h.subrange(8, 16));
        assert(h.subrange(0, 8) =~= be_u64(e.time));
        assert(h.subrange(8, 16) =~= be_u64(e.moof_offset));
    } else {
        lemma_be_u32(e.time as u32);
        lemma_be_u32(e.moof_offset as u32);
        assert(p.subrange(o, o + 4) =~= h.subrange(0, 4));
        assert(p.subrange(o + 4, o + 8) =~= h.subrange(4, 8));
        assert(h.subrange(0, 4) =~= be_u32(e.time as u32));
        assert(h.subrange(4, 8) =~= be_u32(e.moof_offset as u32));
    }
    lemma_var_uint_read(e.traf_number, a + 1, p, o + t);
    lemma_var_uint_read(e.trun_number, b + 1, p, o + l1);
    lemma_var_uint_read(e.sample_number, c + 1, p, o + l2);
}


/// The three number sizes of a `tfra` box read back from their word.
#[verifier::spinoff_prover]
proof fn lemma_tfra_lengths(a: int, b: int, c: int)
    requires
        0 <= a <= 3,
        0 <= b <= 3,
        0 <= c <= 3,
    ensures
        ((a * 16 + b * 4 + c) / 16) % 4 == a,
        ((a * 16 + b * 4 + c) / 4) % 4 == b,
        (a * 16 + b * 4 + c) % 4 == c,
{
    assert(((a * 16 + b * 4 + c) / 16) % 4 == a) by (nonlinear_arith)
        requires
            0 <= a <= 3,
            0 <= b <= 3,
            0 <= c <= 3,
    ;
    assert(((a * 16 + b * 4 + c) / 4) % 4 == b) by (nonlinear_arith)
        requires
            0 <= a <= 3,
            0 <= b <= 3,
            0 <= c <= 3,
    ;
    assert((a * 16 + b * 4 + c) % 4 == c) by (nonlinear_arith)
        requires
            0 <= a <= 3,
            0 <= b <= 3,
            0 <= c <= 3,
    ;
}

/// A `tfra` box whose number sizes are at most 3 and whose entries' numbers fit them reads
/// back with its track, sizes and entries, and with the version it was written with: its own,
/// unless an entry needs 64 bits, then 1.
#[verifier::spinoff_prover]
#[verifier::rlimit(60)]
pub proof fn lemma_tfra_roundtrip(b: TfraBox, rest: Seq<u8>)
    requires
        b.spec_encodable(),
        b.length_size_of_traf_num <= 3,
        b.length_size_of_trun_num <= 3,
        b.length_size_of_sample_num <= 3,
        forall|i: int|
            0 <= i < b.entries@.len() ==> tfra_entry_fits(
                #[trigger] b.entries@[i],
                b.length_size_of_traf_num as int,
                b.length_size_of_trun_num as int,
                b.length_size_of_sample_num as int,
            ),
    ensures
        ({
            let s = b.spec_encoding() + rest;
            &&& TfraBox::spec_can_decode(s)
            &&& TfraBox::spec_decoded_len(s) == b.spec_encoding().len()
            &&& forall|v: TfraBox| #[trigger] TfraBox::spec_decoded(s, v) ==> v.version == b.spec_version()
                && v.track_id == b.track_id && v.length_size_of_traf_num == b.length_size_of_traf_num
                && v.length_size_of_trun_num == b.length_size_of_trun_num
                && v.length_size_of_sample_num == b.length_size_of_sample_num && v.entries@ == b.entries@
        }),
{
    lemma_fourcc(0x74, 0x66, 0x72, 0x61);
    let p = b.spec_payload_bytes();
    lemma_frame(TfraBox::spec_type().spec_bytes(), p, rest);
    let es = b.entries@;
    let ver = b.spec_version();
    let a = b.length_size_of_traf_num as int;
    let bb = b.length_size_of_trun_num as int;
    let c = b.length_size_of_sample_num as int;
    let n = tfra_entry_size(ver, a, bb, c);
    let lens = b.spec_lengths();
    lemma_tfra_lengths(a, bb, c);
    assert(lens == a * 16 + bb * 4 + c);
    let items = es.map_values(|e: TfraEntry| tfra_entry_bytes(ver, a, bb, c, e));
    assert forall|j: int| 0 <= j < items.len() implies (#[trigger] items[j]).len() == n by {
        lemma_tfra_entry_len(ver, a, bb, c, es[j]);
    }
    crate::boxes::lemma_concat_fixed(items, n);
    let body = tfra_entries_bytes(ver, a, bb, c, es);
    assert(body.len() == n * es.len());
    lemma_be_u32(0);
    lemma_be_u32(b.track_id);
    lemma_be_u32(lens);
    lemma_be_u32(es.len() as u32);
    let q = full_header_bytes(ver, 0) + be_u32(b.track_id) + be_u32(lens) + be_u32(es.len() as u32);
    assert(p == q + body);
    assert(q.len() == 16);
    assert(es.len() <= u32::MAX) by {
        assert(n * es.len() >= es.len()) by (nonlinear_arith)
            requires
                n >= 1,
        ;
    }
    assert(p[0] == ver);
    assert(p.subrange(4, 8) =~= be_u32(b.track_id));
    assert(p.subrange(8, 12) =~= be_u32(lens));
    assert(p.subrange(12, 16) =~= be_u32(es.len() as u32));
    assert(TfraBox::spec_a(p) == a && TfraBox::spec_b(p) == bb && TfraBox::spec_c(p) == c);
    assert(TfraBox::spec_entry_size(p) == n);
    lemma_suffix(q, body);
    assert(p.len() == 16 + n * es.len());
    assert forall|v: TfraBox| #[trigger] TfraBox::spec_decoded(b.spec_encoding() + rest, v) implies v.version
        == ver && v.track_id == b.track_id && v.length_size_of_traf_num == b.length_size_of_traf_num
        && v.length_size_of_trun_num == b.length_size_of_trun_num && v.length_size_of_sample_num
        == b.length_size_of_sample_num && v.entries@ == es by {
        assert forall|i: int| 0 <= i < es.len() implies v.entries@[i] == es[i] by {
            let o = 16 + n * i;
            assert(n * i + n <= n * es.len()) by (nonlinear_arith)
                requires
                    0 <= i < es.len(),
                    n >= 0,
            ;
            assert(0 <= n * i) by (nonlinear_arith)
                requires
                    0 <= i,
                    n >= 0,
            ;
            assert(items[i] == tfra_entry_bytes(ver, a, bb, c, es[i]));
            assert(p.subrange(o, o + n) =~= body.subrange(n * i, n * i + n));
            assert(tfra_entry_read(p, o, ver, a, bb, c, v.entries@[i]));
            if ver != 1 {
                assert(!tfra_entry_large(es[i]));
            }
            lemma_tfra_entry_read(ver, a, bb, c, es[i], v.entries@[i], p, o);
        }
        assert(v.entries@ =~= es);
    }
}


/// A decoder specific information descriptor reads back with its payload.
#[verifier::spinoff_prover]
pub proof fn lemma_decoder_specific_info_roundtrip(b: DecoderSpecificInfo, rest: Seq<u8>)
    requires
        b.payload@.len() <= usize::MAX,
    ensures
        ({
            let s = b.spec_encoding() + rest;
            &&& DecoderSpecificInfo::spec_can_decode(s)
            &&& DecoderSpecificInfo::spec_decoded_len(s) == b.spec_encoding().len()
            &&& forall|v: DecoderSpecificInfo| #[trigger] DecoderSpecificInfo::spec_decoded(s, v) ==> v.payload@
                == b.payload@
        }),
{
    let q = b.payload@;
    let h = tag_size_bytes(5, q.len());
    lemma_tag_and_size_roundtrip(5, q.len() as usize, q + rest);
    let s = b.spec_encoding() + rest;
    assert(s == h + (q + rest));
    assert(s.subrange(h.len() as int, (h.len() + q.len()) as int) =~= q);
}

/// A sync layer configuration descriptor reads back.
#[verifier::spinoff_prover]
pub proof fn lemma_sl_config_roundtrip(b: SlConfigDescriptor, rest: Seq<u8>)
    ensures
        ({
            let s = b.spec_encoding() + rest;
            &&& SlConfigDescriptor::spec_can_decode(s)
            &&& SlConfigDescriptor::spec_decoded_len(s) == b.spec_encoding().len()
        }),
{
    let q = seq![2u8];
    let h = tag_size_bytes(6, 1);
    lemma_tag_and_size_roundtrip(6, 1, q + rest);
    let s = b.spec_encoding() + rest;
    assert(s == h + (q + rest));
    assert(s[h.len() as int] == 2);
}


/// The packed fields of a decoder configuration read back.
#[verifier::spinoff_prover]
proof fn lemma_dcd_bits(st: u8, us: u8, buf: u32)
    requires
        st < 64,
        us < 2,
        buf < 0x100_0000,
    ensures
        Uint::<u8, 6, 2>::spec_from_bits(dcd_flags_byte(st, us)) == st,
        Uint::<u8, 1, 1>::spec_from_bits(dcd_flags_byte(st, us)) == us,
        Uint::<u32, 24, 0>::spec_from_bits(buf) == buf,
{
    let f = dcd_flags_byte(st, us);
    assert(((f >> 2u32) & (((1u8 << 6u32) - 1) as u8)) == st && ((f >> 1u32) & (((1u8 << 1u32) - 1) as u8)) == us)
        by (bit_vector)
        requires
            st < 64,
            us < 2,
            f == (st << 2u32) | (us << 1u32) | 1u8,
    ;
    assert(((buf >> 0u32) & (((1u32 << 24u32) - 1) as u32)) == buf) by (bit_vector)
        requires
            buf < 0x100_0000,
    ;
}

/// A decoder configuration descriptor reads back as the one that was written, when its packed
/// fields fit their bits, and, without decoder specific information, the bytes after it do
/// not start with the tag of one.
#[verifier::spinoff_prover]
#[verifier::rlimit(40)]
pub proof fn lemma_decoder_config_roundtrip(b: DecoderConfigDescriptor, rest: Seq<u8>)
    requires
        b.stream_type.spec_get() < 64,
        b.up_stream.spec_get() < 2,
        b.buffer_size_db.spec_get() < 0x100_0000,
        b.spec_payload().len() <= usize::MAX,
        b.dec_specific_info is None ==> !spec_starts_with_tag(rest, 5),
    ensures
        ({
            let s = b.spec_encoding() + rest;
            &&& DecoderConfigDescriptor::spec_can_decode(s)
            &&& DecoderConfigDescriptor::spec_decoded_len(s) == b.spec_encoding().len()
            &&& forall|v: DecoderConfigDescriptor| #[trigger] DecoderConfigDescriptor::spec_decoded(s, v) ==> {
                &&& v.object_type_indication == b.object_type_indication
                &&& v.stream_type == b.stream_type
                &&& v.up_stream == b.up_stream
                &&& v.buffer_size_db == b.buffer_size_db
                &&& v.max_bitrate == b.max_bitrate
                &&& v.avg_bitrate == b.avg_bitrate
                &&& (v.dec_specific_info is Some <==> b.dec_specific_info is Some)
                &&& (b.dec_specific_info matches Some(d) ==> v.dec_specific_info->Some_0.payload@ == d.payload@)
            }
        }),
{
    let q = b.spec_payload();
    let st = b.stream_type.spec_get();
    let us = b.up_stream.spec_get();
    let buf = b.buffer_size_db.spec_get();
    let info = match b.dec_specific_info {
        Some(d) => d.spec_encoding(),
        None => Seq::<u8>::empty(),
    };
    let fixed = seq![b.object_type_indication, dcd_flags_byte(st, us)] + be_u32(buf).skip(1) + be_u32(
        b.max_bitrate,
    ) + be_u32(b.avg_bitrate);
    lemma_be_u32(buf);
    lemma_be_u32(b.max_bitrate);
    lemma_be_u32(b.avg_bitrate);
    assert(fixed.len() == 13);
    assert(q == fixed + info);
    let h = tag_size_bytes(4, q.len());
    lemma_tag_and_size_roundtrip(4, q.len() as usize, q + rest);
    let s = b.spec_encoding() + rest;
    let o = h.len() as int;
    assert(s == h + (q + rest));
    assert(s.skip(o + 13) =~= info + rest);
    assert(s[o] == b.object_type_indication);
    assert(s[o + 1] == dcd_flags_byte(st, us));
    assert(get_u24(s, o + 2) == buf);
    assert(s.subrange(o + 5, o + 9) =~= be_u32(b.max_bitrate));
    assert(s.subrange(o + 9, o + 13) =~= be_u32(b.avg_bitrate));
    lemma_dcd_bits(st, us, buf);
    match b.dec_specific_info {
        Some(d) => {
            assert(d.payload@.len() <= usize::MAX) by {
                assert(d.spec_encoding().len() >= d.payload@.len());
            }
            lemma_decoder_specific_info_roundtrip(d, rest);
            assert(d.spec_encoding()[0] == 5);
        },
        None => {
            assert(info + rest =~= rest);
        },
    }
    assert forall|v: DecoderConfigDescriptor| #[trigger] DecoderConfigDescriptor::spec_decoded(s, v) implies {
        &&& v.stream_type == b.stream_type
        &&& v.up_stream == b.up_stream
        &&& v.buffer_size_db == b.buffer_size_db
    } by {
        lemma_uint8_eq(v.stream_type, b.stream_type);
        lemma_uint8_eq(v.up_stream, b.up_stream);
        lemma_uint32_eq(v.buffer_size_db, b.buffer_size_db);
    }
}

/// An `edts` box without unknown children reads back with the same edit list (or none).
#[verifier::spinoff_prover]
pub proof fn lemma_edts_roundtrip(b: EdtsBox, rest: Seq<u8>)
    requires
        b.spec_encodable(),
        b.unknown_boxes@.len() == 0,
    ensures
        ({
            let s = b.spec_encoding() + rest;
            &&& EdtsBox::spec_can_decode(s)
            &&& EdtsBox::spec_decoded_len(s) == b.spec_encoding().len()
            &&& forall|v: EdtsBox|
                EdtsBox::spec_decoded(s, v) ==> v.unknown_boxes@.len() == 0 && (v.elst_box is Some
                    <==> b.elst_box is Some) && (v.elst_box matches Some(e) ==> e.entries@
                    == b.elst_box.unwrap().entries@)
        }),
{
    lemma_fourcc(0x65, 0x64, 0x74, 0x73);
    lemma_fourcc(0x65, 0x6c, 0x73, 0x74);
    let p = b.spec_payload_bytes();
    assert(unknown_boxes_bytes(b.unknown_boxes@) =~= Seq::<u8>::empty()) by {
        assert(b.unknown_boxes@.map_values(|x: UnknownBox| x.spec_encoding()) =~= Seq::<Seq<u8>>::empty());
    }
    lemma_frame(EdtsBox::spec_type().spec_bytes(), p, rest);
    let s = b.spec_encoding() + rest;
    assert(spec_payload(s) == p);
    match b.elst_box {
        None => {
            assert(p =~= Seq::<u8>::empty());
            assert(edts_scan(p, Set::empty()));
            assert forall|v: EdtsBox| EdtsBox::spec_decoded(s, v) implies v.unknown_boxes@.len() == 0
                && (v.elst_box is Some <==> b.elst_box is Some) && (v.elst_box matches Some(e)
                ==> e.entries@ == b.elst_box.unwrap().entries@) by {
                assert(edts_walk(p, Set::empty(), 0, 0, v));
            }
        },
        Some(e) => {
            let q = e.spec_encoding();
            assert(p =~= q);
            lemma_elst_roundtrip(e, Seq::empty());
            assert(q + Seq::<u8>::empty() =~= q);
            assert(q.skip(q.len() as int) =~= Seq::<u8>::empty());
            assert(edts_scan(q.skip(q.len() as int), Set::empty().insert(0int)));
            assert(edts_scan(p, Set::empty()));
            assert forall|v: EdtsBox| EdtsBox::spec_decoded(s, v) implies v.unknown_boxes@.len() == 0
                && (v.elst_box is Some <==> b.elst_box is Some) && (v.elst_box matches Some(e2)
                ==> e2.entries@ == b.elst_box.unwrap().entries@) by {
                assert(edts_walk(p, Set::empty(), 0, 0, v));
                assert(edts_walk(q.skip(q.len() as int), Set::empty().insert(0int), 0, 0, v));
            }
        },
    }
}

/// The bytes of a list of byte strings start with those of the first.
#[verifier::spinoff_prover]
proof fn lemma_concat_first(items: Seq<Seq<u8>>)
    requires
        items.len() > 0,
    ensures
        concat(items) == items[0] + concat(items.subrange(1, items.len() as int)),
    decreases items.len(),
{
    let n = items.len() as int;
    if n == 1 {
        assert(items.drop_last() =~= Seq::<Seq<u8>>::empty());
        assert(items.subrange(1, 1) =~= Seq::<Seq<u8>>::empty());
        assert(concat(items.drop_last()) =~= Seq::<u8>::empty());
        assert(concat(items.subrange(1, 1)) =~= Seq::<u8>::empty());
        assert(concat(items) =~= items[0]);
    } else {
        lemma_concat_first(items.drop_last());
        assert(items.subrange(1, n).drop_last() =~= items.drop_last().subrange(1, n - 1));
        assert(items.subrange(1, n).last() == items.last());
        assert(concat(items) =~= items[0] + concat(items.subrange(1, n)));
    }
}

/// The bytes of a list of boxes: those of the first, then those of the others.
#[verifier::spinoff_prover]
proof fn lemma_list_bytes<T: Encode>(l: Seq<T>)
    requires
        l.len() > 0,
        all_encodable(l),
    ensures
        encodings(l) == l[0].spec_encoding() + encodings(l.subrange(1, l.len() as int)),
        all_encodable(l.subrange(1, l.len() as int)),
        l[0].spec_encodable(),
{
    let n = l.len() as int;
    let tail = l.subrange(1, n);
    let encs = l.map_values(|x: T| x.spec_encoding());
    lemma_concat_first(encs);
    assert(encs.subrange(1, n) =~= tail.map_values(|x: T| x.spec_encoding()));
    assert(l[0].spec_encodable());
    assert forall|k: int| 0 <= k < tail.len() implies (#[trigger] tail[k]).spec_encodable() by {
        assert(tail[k] == l[k + 1]);
    }
}

/// The bytes of an empty list of boxes: none.
proof fn lemma_list_bytes_empty<T: Encode>(l: Seq<T>)
    requires
        l.len() == 0,
    ensures
        encodings(l) == Seq::<u8>::empty(),
{
    assert(l.map_values(|x: T| x.spec_encoding()) =~= Seq::<Seq<u8>>::empty());
    assert(encodings(l) =~= Seq::<u8>::empty());
}

/// A `trex` box at the start of `q`, followed by `rest`, is a child of kind `trex` that spans
/// its own bytes.
#[verifier::spinoff_prover]
proof fn lemma_trex_child(b: TrexBox, rest: Seq<u8>)
    requires
        b.spec_encodable(),
    ensures
        ({
            let q = b.spec_encoding() + rest;
            &&& mvex_child_kind(q) == 1
            &&& q.len() > 0
            &&& crate::boxes::spec_can_split(q)
            &&& crate::boxes::spec_box_end(q) == b.spec_encoding().len() > 0
            &&& q.skip(b.spec_encoding().len() as int) == rest
            &&& TrexBox::spec_can_decode(q)
            &&& forall|v: TrexBox| TrexBox::spec_decoded(q, v) ==> v == b
        }),
{
    let q = b.spec_encoding() + rest;
    lemma_trex_roundtrip(b, rest);
    lemma_fourcc(0x74, 0x72, 0x65, 0x78);
    lemma_fourcc(0x6d, 0x65, 0x68, 0x64);
    assert(!spec_is_type(q, MehdBox::spec_type().spec_bytes())) by {
        assert(q.subrange(4, 8)[0] == 0x74);
    }
    assert(q.skip(b.spec_encoding().len() as int) =~= rest);
    lemma_frame(TrexBox::spec_type().spec_bytes(), b.spec_payload_bytes(), rest);
}

/// The `trex` children of an `mvex` box, written one after another, can be read.
#[verifier::spinoff_prover]
proof fn lemma_mvex_trex_scan(l: Seq<TrexBox>, seen: Set<int>)
    requires
        all_encodable(l),
    ensures
        mvex_scan(encodings(l), seen),
    decreases l.len(),
{
    if l.len() == 0 {
        assert(l.map_values(|x: TrexBox| x.spec_encoding()) =~= Seq::<Seq<u8>>::empty());
        assert(encodings(l) =~= Seq::<u8>::empty());
    } else {
        let tail = l.subrange(1, l.len() as int);
        lemma_list_bytes(l);
        lemma_trex_child(l[0], encodings(tail));
        lemma_mvex_trex_scan(tail, seen.insert(1));
    }
}

/// Walking the children of an `mvex` box from a `trex` box reads it into the list at `m`, and
/// goes on after it.
#[verifier::spinoff_prover]
proof fn lemma_mvex_walk_trex_step(l: Seq<TrexBox>, seen: Set<int>, m: int, v: MvexBox)
    requires
        l.len() > 0,
        all_encodable(l),
        mvex_walk(encodings(l), seen, m, 0, v),
    ensures
        0 <= m < v.trex_boxes@.len(),
        v.trex_boxes@[m] == l[0],
        mvex_walk(encodings(l.subrange(1, l.len() as int)), seen.insert(1), m + 1, 0, v),
{
    let tail = l.subrange(1, l.len() as int);
    let q = encodings(l);
    let e = l[0].spec_encoding();
    lemma_list_bytes(l);
    lemma_trex_child(l[0], encodings(tail));
    assert(q.len() > 0);
    assert(crate::boxes::spec_can_split(q));
    assert(crate::boxes::spec_box_end(q) == e.len());
    assert(mvex_child_kind(q) == 1);
    assert(q.skip(crate::boxes::spec_box_end(q)) == encodings(tail));
}

/// The `trex` children of an `mvex` box, written one after another, are read back in order
/// into the list, from position `m` on.
#[verifier::spinoff_prover]
#[verifier::rlimit(40)]
proof fn lemma_mvex_trex_walk(l: Seq<TrexBox>, seen: Set<int>, m: int, v: MvexBox)
    requires
        all_encodable(l),
        m >= 0,
        mvex_walk(encodings(l), seen, m, 0, v),
    ensures
        v.trex_boxes@.len() == m + l.len(),
        v.unknown_boxes@.len() == 0,
        v.mehd_box is Some <==> seen.contains(0),
        forall|j: int| m <= j < m + l.len() ==> #[trigger] v.trex_boxes@[j] == l[j - m],
    decreases l.len(),
{
    if l.len() == 0 {
        lemma_mvex_walk_end(l, seen, m, v);
    } else {
        let tail = l.subrange(1, l.len() as int);
        lemma_mvex_walk_trex_step(l, seen, m, v);
        lemma_mvex_trex_walk(tail, seen.insert(1), m + 1, v);
        assert(seen.insert(1).contains(0) == seen.contains(0));
        assert forall|j: int| m <= j < m + l.len() implies #[trigger] v.trex_boxes@[j] == l[j - m] by {
            if j > m {
                assert(v.trex_boxes@[j] == tail[j - (m + 1)]);
            }
        }
    }
}

/// Walking the children of an `mvex` box to their end closes the lists.
#[verifier::spinoff_prover]
proof fn lemma_mvex_walk_end(l: Seq<TrexBox>, seen: Set<int>, m: int, v: MvexBox)
    requires
        l.len() == 0,
        mvex_walk(encodings(l), seen, m, 0, v),
    ensures
        v.trex_boxes@.len() == m,
        v.unknown_boxes@.len() == 0,
        v.mehd_box is Some <==> seen.contains(0),
{
    assert(l.map_values(|x: TrexBox| x.spec_encoding()) =~= Seq::<Seq<u8>>::empty());
    assert(encodings(l) =~= Seq::<u8>::empty());
}

/// An `mehd` box at the start of the children of an `mvex` box, before `t`: the children can
/// be read when `t` can, and walking them reads the `mehd` box and goes on with `t`.
#[verifier::spinoff_prover]
proof fn lemma_mvex_mehd_first(h: MehdBox, t: Seq<u8>)
    requires
        h.spec_encodable(),
        mvex_scan(t, Set::empty().insert(0int)),
    ensures
        mvex_scan(h.spec_encoding() + t, Set::empty()),
        forall|v: MvexBox|
            #[trigger] mvex_walk(h.spec_encoding() + t, Set::empty(), 0, 0, v) ==> v.mehd_box == Some(h)
                && mvex_walk(t, Set::empty().insert(0int), 0, 0, v),
{
    let q = h.spec_encoding() + t;
    lemma_mehd_roundtrip(h, t);
    lemma_fourcc(0x6d, 0x65, 0x68, 0x64);
    lemma_frame(MehdBox::spec_type().spec_bytes(), h.spec_payload_bytes(), t);
    assert(mvex_child_kind(q) == 0);
    assert(q.skip(h.spec_encoding().len() as int) =~= t);
}

/// An `mvex` box without unknown children reads back with the same `mehd` box (or none) and
/// the same `trex` boxes, in order.
#[verifier::spinoff_prover]
pub proof fn lemma_mvex_roundtrip(b: MvexBox, rest: Seq<u8>)
    requires
        b.spec_encodable(),
        b.unknown_boxes@.len() == 0,
    ensures
        ({
            let s = b.spec_encoding() + rest;
            &&& MvexBox::spec_can_decode(s)
            &&& MvexBox::spec_decoded_len(s) == b.spec_encoding().len()
            &&& forall|v: MvexBox|
                MvexBox::spec_decoded(s, v) ==> v.unknown_boxes@.len() == 0 && v.mehd_box
                    == b.mehd_box && v.trex_boxes@ == b.trex_boxes@
        }),
{
    lemma_fourcc(0x6d, 0x76, 0x65, 0x78);
    let p = b.spec_payload_bytes();
    let t = encodings(b.trex_boxes@);
    assert(unknown_boxes_bytes(b.unknown_boxes@) =~= Seq::<u8>::empty()) by {
        assert(b.unknown_boxes@.map_values(|x: UnknownBox| x.spec_encoding()) =~= Seq::<Seq<u8>>::empty());
    }
    lemma_frame(MvexBox::spec_type().spec_bytes(), p, rest);
    let s = b.spec_encoding() + rest;
    assert(spec_payload(s) == p);
    match b.mehd_box {
        None => {
            assert(p =~= t);
            lemma_mvex_trex_scan(b.trex_boxes@, Set::empty());
            assert forall|v: MvexBox| MvexBox::spec_decoded(s, v) implies v.unknown_boxes@.len() == 0
                && v.mehd_box == b.mehd_box && v.trex_boxes@ == b.trex_boxes@ by {
                lemma_mvex_trex_walk(b.trex_boxes@, Set::empty(), 0, v);
                assert(v.trex_boxes@ =~= b.trex_boxes@);
            }
        },
        Some(h) => {
            assert(p =~= h.spec_encoding() + t);
            lemma_mvex_trex_scan(b.trex_boxes@, Set::empty().insert(0int));
            lemma_mvex_mehd_first(h, t);
            assert forall|v: MvexBox| MvexBox::spec_decoded(s, v) implies v.unknown_boxes@.len() == 0
                && v.mehd_box == b.mehd_box && v.trex_boxes@ == b.trex_boxes@ by {
                assert(mvex_walk(h.spec_encoding() + t, Set::empty(), 0, 0, v));
                lemma_mvex_trex_walk(b.trex_boxes@, Set::empty().insert(0int), 0, v);
                assert(v.trex_boxes@ =~= b.trex_boxes@);
            }
        },
    }
}

/// Whether every `trun` box of a list writes all its samples with its own layout and counts
/// them in 32 bits (what [`lemma_trun_roundtrip`] needs).
pub open spec fn truns_uniform(l: Seq<TrunBox>) -> bool {
    forall|k: int|
        0 <= k < l.len() ==> {
            &&& (#[trigger] l[k]).samples@.len() <= u32::MAX
            &&& forall|i: int|
                0 <= i < l[k].samples@.len() ==> trun_sample_layout(#[trigger] l[k].samples@[i])
                    == l[k].spec_layout()
        }
}

/// A `trun` box at the start of `q`, followed by `rest`, is a child of kind `trun` that spans
/// its own bytes.
#[verifier::spinoff_prover]
proof fn lemma_trun_child(b: TrunBox, rest: Seq<u8>)
    requires
        b.spec_encodable(),
        forall|i: int| 0 <= i < b.samples@.len() ==> trun_sample_layout(#[trigger] b.samples@[i]) == b.spec_layout(),
        b.samples@.len() <= u32::MAX,
    ensures
        ({
            let q = b.spec_encoding() + rest;
            &&& traf_child_kind(q) == 2
            &&& q.len() > 0
            &&& crate::boxes::spec_can_split(q)
            &&& crate::boxes::spec_box_end(q) == b.spec_encoding().len() > 0
            &&& q.skip(b.spec_encoding().len() as int) == rest
            &&& TrunBox::spec_can_decode(q)
            &&& forall|v: TrunBox| #[trigger] TrunBox::spec_decoded(q, v) ==> v.data_offset == b.data_offset
                && v.first_sample_flags == b.first_sample_flags && v.samples@ == b.samples@
        }),
{
    let q = b.spec_encoding() + rest;
    lemma_trun_roundtrip(b, rest);
    lemma_fourcc(0x74, 0x72, 0x75, 0x6e);
    lemma_fourcc(0x74, 0x66, 0x68, 0x64);
    lemma_fourcc(0x74, 0x66, 0x64, 0x74);
    assert(q.subrange(4, 8)[1] == 0x72);
    assert(!spec_is_type(q, TfhdBox::spec_type().spec_bytes()));
    assert(!spec_is_type(q, crate::boxes::TfdtBox::spec_type().spec_bytes()));
    assert(q.skip(b.spec_encoding().len() as int) =~= rest);
    lemma_frame(TrunBox::spec_type().spec_bytes(), b.spec_payload_bytes(), rest);
}

/// The `trun` children of a `traf` box, written one after another after its `tfhd` box, can be
/// read.
#[verifier::spinoff_prover]
proof fn lemma_traf_trun_scan(l: Seq<TrunBox>, seen: Set<int>)
    requires
        all_encodable(l),
        truns_uniform(l),
        seen.contains(0),
    ensures
        traf_scan(encodings(l), seen),
    decreases l.len(),
{
    if l.len() == 0 {
        lemma_list_bytes_empty(l);
    } else {
        let tail = l.subrange(1, l.len() as int);
        lemma_list_bytes(l);
        assert(truns_uniform(tail)) by {
            assert forall|k: int| 0 <= k < tail.len() implies #[trigger] tail[k] == l[k + 1] by {}
        }
        lemma_trun_child(l[0], encodings(tail));
        lemma_traf_trun_scan(tail, seen.insert(2));
    }
}

/// Walking the children of a `traf` box from a `trun` box reads it into the list at `m`, and
/// goes on after it.
#[verifier::spinoff_prover]
proof fn lemma_traf_walk_trun_step(l: Seq<TrunBox>, seen: Set<int>, m: int, v: TrafBox)
    requires
        l.len() > 0,
        all_encodable(l),
        truns_uniform(l),
        traf_walk(encodings(l), seen, m, 0, v),
    ensures
        0 <= m < v.trun_boxes@.len(),
        v.trun_boxes@[m].data_offset == l[0].data_offset,
        v.trun_boxes@[m].first_sample_flags == l[0].first_sample_flags,
        v.trun_boxes@[m].samples@ == l[0].samples@,
        traf_walk(encodings(l.subrange(1, l.len() as int)), seen.insert(2), m + 1, 0, v),
{
    let tail = l.subrange(1, l.len() as int);
    let q = encodings(l);
    let e = l[0].spec_encoding();
    lemma_list_bytes(l);
    lemma_trun_child(l[0], encodings(tail));
    assert(q.len() > 0);
    assert(crate::boxes::spec_can_split(q));
    assert(crate::boxes::spec_box_end(q) == e.len());
    assert(traf_child_kind(q) == 2);
    assert(q.skip(crate::boxes::spec_box_end(q)) == encodings(tail));
    assert(TrunBox::spec_decoded(q, v.trun_boxes@[m]));
}

/// Walking the children of a `traf` box to their end closes the lists.
#[verifier::spinoff_prover]
proof fn lemma_traf_walk_end(l: Seq<TrunBox>, seen: Set<int>, m: int, v: TrafBox)
    requires
        l.len() == 0,
        traf_walk(encodings(l), seen, m, 0, v),
    ensures
        v.trun_boxes@.len() == m,
        v.unknown_boxes@.len() == 0,
        v.tfdt_box is Some <==> seen.contains(1),
{
    lemma_list_bytes_empty(l);
}

/// The `trun` children of a `traf` box, written one after another, are read back in order
/// into the list, from position `m` on.
#[verifier::spinoff_prover]
#[verifier::rlimit(40)]
proof fn lemma_traf_trun_walk(l: Seq<TrunBox>, seen: Set<int>, m: int, v: TrafBox)
    requires
        all_encodable(l),
        truns_uniform(l),
        m >= 0,
        traf_walk(encodings(l), seen, m, 0, v),
    ensures
        v.trun_boxes@.len() == m + l.len(),
        v.unknown_boxes@.len() == 0,
        v.tfdt_box is Some <==> seen.contains(1),
        forall|j: int|
            m <= j < m + l.len() ==> (#[trigger] v.trun_boxes@[j]).samples@ == l[j - m].samples@
                && v.trun_boxes@[j].data_offset == l[j - m].data_offset
                && v.trun_boxes@[j].first_sample_flags == l[j - m].first_sample_flags,
    decreases l.len(),
{
    if l.len() == 0 {
        lemma_traf_walk_end(l, seen, m, v);
    } else {
        let tail = l.subrange(1, l.len() as int);
        lemma_traf_walk_trun_step(l, seen, m, v);
        assert(truns_uniform(tail)) by {
            assert forall|k: int| 0 <= k < tail.len() implies #[trigger] tail[k] == l[k + 1] by {}
        }
        lemma_list_bytes(l);
        lemma_traf_trun_walk(tail, seen.insert(2), m + 1, v);
        assert(seen.insert(2).contains(1) == seen.contains(1));
        assert forall|j: int| m <= j < m + l.len() implies (#[trigger] v.trun_boxes@[j]).samples@
            == l[j - m].samples@ && v.trun_boxes@[j].data_offset == l[j - m].data_offset
            && v.trun_boxes@[j].first_sample_flags == l[j - m].first_sample_flags by {
            if j > m {
                assert(tail[j - (m + 1)] == l[j - m]);
            }
        }
    }
}

/// A `tfhd` box at the start of the children of a `traf` box, before `t`: the children can be
/// read when `t` can, and walking them reads the `tfhd` box and goes on with `t`.
#[verifier::spinoff_prover]
proof fn lemma_traf_tfhd_first(h: TfhdBox, t: Seq<u8>)
    requires
        h.spec_encodable(),
        traf_scan(t, Set::empty().insert(0int)),
    ensures
        traf_scan(h.spec_encoding() + t, Set::empty()),
        forall|v: TrafBox|
            #[trigger] traf_walk(h.spec_encoding() + t, Set::empty(), 0, 0, v) ==> v.tfhd_box == h
                && traf_walk(t, Set::empty().insert(0int), 0, 0, v),
{
    let q = h.spec_encoding() + t;
    lemma_tfhd_roundtrip(h, t);
    lemma_fourcc(0x74, 0x66, 0x68, 0x64);
    lemma_frame(TfhdBox::spec_type().spec_bytes(), h.spec_payload_bytes(), t);
    assert(traf_child_kind(q) == 0);
    assert(q.skip(h.spec_encoding().len() as int) =~= t);
}

/// A `tfdt` box after the `tfhd` box of a `traf` box, before `t`: the children can be read when
/// `t` can, and walking them reads the `tfdt` box (with the version it was written with) and
/// goes on with `t`.
#[verifier::spinoff_prover]
proof fn lemma_traf_tfdt_second(d: TfdtBox, t: Seq<u8>)
    requires
        d.spec_encodable(),
        traf_scan(t, Set::empty().insert(0int).insert(1int)),
    ensures
        traf_scan(d.spec_encoding() + t, Set::empty().insert(0int)),
        forall|v: TrafBox|
            #[trigger] traf_walk(d.spec_encoding() + t, Set::empty().insert(0int), 0, 0, v)
                ==> v.tfdt_box == Some(TfdtBox { version: d.spec_version(), ..d }) && traf_walk(
                t,
                Set::empty().insert(0int).insert(1int),
                0,
                0,
                v,
            ),
{
    let q = d.spec_encoding() + t;
    lemma_tfdt_roundtrip(d, t);
    lemma_fourcc(0x74, 0x66, 0x64, 0x74);
    lemma_fourcc(0x74, 0x66, 0x68, 0x64);
    lemma_frame(TfdtBox::spec_type().spec_bytes(), d.spec_payload_bytes(), t);
    assert(q.subrange(4, 8)[2] == 0x64);
    assert(!spec_is_type(q, TfhdBox::spec_type().spec_bytes()));
    assert(traf_child_kind(q) == 1);
    assert(!Set::<int>::empty().insert(0int).contains(1));
    assert(q.skip(d.spec_encoding().len() as int) =~= t);
}

/// Whether the `traf` box `v` is what reading back the written box `b` gives: the same `tfhd`
/// box, the same `tfdt` box (or none; with the version it was written with), the same `trun`
/// boxes in order, and no unknown children.
#[verifier::opaque]
pub open spec fn traf_read_back(v: TrafBox, b: TrafBox) -> bool {
    &&& v.unknown_boxes@.len() == 0
    &&& v.tfhd_box == b.tfhd_box
    &&& (v.tfdt_box is Some <==> b.tfdt_box is Some)
    &&& (b.tfdt_box matches Some(d) ==> v.tfdt_box == Some(TfdtBox { version: d.spec_version(), ..d }))
    &&& v.trun_boxes@.len() == b.trun_boxes@.len()
    &&& forall|j: int|
        0 <= j < b.trun_boxes@.len() ==> (#[trigger] v.trun_boxes@[j]).samples@
            == b.trun_boxes@[j].samples@ && v.trun_boxes@[j].data_offset
            == b.trun_boxes@[j].data_offset && v.trun_boxes@[j].first_sample_flags
            == b.trun_boxes@[j].first_sample_flags
}

/// A `traf` box without unknown children, whose `trun` boxes each write all their samples with
/// their own layout, reads back with the same `tfhd` box, the same `tfdt` box (or none; with
/// the version it was written with) and the same `trun` boxes, in order.
#[verifier::spinoff_prover]
pub proof fn lemma_traf_roundtrip(b: TrafBox, rest: Seq<u8>)
    requires
        b.spec_encodable(),
        b.unknown_boxes@.len() == 0,
        truns_uniform(b.trun_boxes@),
    ensures
        ({
            let s = b.spec_encoding() + rest;
            &&& TrafBox::spec_can_decode(s)
            &&& TrafBox::spec_decoded_len(s) == b.spec_encoding().len()
            &&& forall|v: TrafBox| TrafBox::spec_decoded(s, v) ==> traf_read_back(v, b)
        }),
{
    lemma_fourcc(0x74, 0x72, 0x61, 0x66);
    let p = b.spec_payload_bytes();
    let t = encodings(b.trun_boxes@);
    let h = b.tfhd_box;
    assert(unknown_boxes_bytes(b.unknown_boxes@) =~= Seq::<u8>::empty()) by {
        assert(b.unknown_boxes@.map_values(|x: UnknownBox| x.spec_encoding()) =~= Seq::<Seq<u8>>::empty());
    }
    lemma_frame(TrafBox::spec_type().spec_bytes(), p, rest);
    let s = b.spec_encoding() + rest;
    assert(spec_payload(s) == p);
    match b.tfdt_box {
        None => {
            assert(p =~= h.spec_encoding() + t);
            lemma_traf_trun_scan(b.trun_boxes@, Set::empty().insert(0int));
            lemma_traf_tfhd_first(h, t);
            assert forall|v: TrafBox| TrafBox::spec_decoded(s, v) implies traf_read_back(v, b) by {
                reveal(traf_read_back);
                assert(traf_walk(h.spec_encoding() + t, Set::empty(), 0, 0, v));
                lemma_traf_trun_walk(b.trun_boxes@, Set::empty().insert(0int), 0, v);
                assert(!Set::<int>::empty().insert(0int).contains(1));
            }
        },
        Some(d) => {
            let dt = d.spec_encoding() + t;
            assert(p =~= h.spec_encoding() + dt);
            lemma_traf_trun_scan(b.trun_boxes@, Set::empty().insert(0int).insert(1int));
            lemma_traf_tfdt_second(d, t);
            lemma_traf_tfhd_first(h, dt);
            assert forall|v: TrafBox| TrafBox::spec_decoded(s, v) implies traf_read_back(v, b) by {
                reveal(traf_read_back);
                assert(traf_walk(h.spec_encoding() + dt, Set::empty(), 0, 0, v));
                assert(traf_walk(dt, Set::empty().insert(0int), 0, 0, v));
                lemma_traf_trun_walk(b.trun_boxes@, Set::empty().insert(0int).insert(1int), 0, v);
            }
        },
    }
}

/// Whether every `traf` box of a list meets what [`lemma_traf_roundtrip`] needs.
#[verifier::opaque]
pub open spec fn trafs_uniform(l: Seq<TrafBox>) -> bool {
    forall|k: int|
        0 <= k < l.len() ==> (#[trigger] l[k]).unknown_boxes@.len() == 0 && truns_uniform(
            l[k].trun_boxes@,
        )
}

/// A `traf` box at the start of `q`, followed by `rest`, is a child of kind `traf` of a `moof`
/// box that spans its own bytes.
#[verifier::spinoff_prover]
proof fn lemma_traf_child(b: TrafBox, rest: Seq<u8>)
    requires
        b.spec_encodable(),
        b.unknown_boxes@.len() == 0,
        truns_uniform(b.trun_boxes@),
    ensures
        ({
            let q = b.spec_encoding() + rest;
            &&& moof_child_kind(q) == 1
            &&& q.len() > 0
            &&& crate::boxes::spec_can_split(q)
            &&& crate::boxes::spec_box_end(q) == b.spec_encoding().len() > 0
            &&& q.skip(b.spec_encoding().len() as int) == rest
            &&& TrafBox::spec_can_decode(q)
            &&& forall|v: TrafBox| #[trigger] TrafBox::spec_decoded(q, v) ==> traf_read_back(v, b)
        }),
{
    let q = b.spec_encoding() + rest;
    lemma_traf_roundtrip(b, rest);
    lemma_fourcc(0x74, 0x72, 0x61, 0x66);
    lemma_fourcc(0x6d, 0x66, 0x68, 0x64);
    assert(q.subrange(4, 8)[0] == 0x74);
    assert(!spec_is_type(q, MfhdBox::spec_type().spec_bytes()));
    assert(q.skip(b.spec_encoding().len() as int) =~= rest);
    lemma_frame(TrafBox::spec_type().spec_bytes(), b.spec_payload_bytes(), rest);
}

proof fn lemma_trafs_tail(l: Seq<TrafBox>)
    requires
        l.len() > 0,
        trafs_uniform(l),
    ensures
        trafs_uniform(l.subrange(1, l.len() as int)),
        l[0].unknown_boxes@.len() == 0,
        truns_uniform(l[0].trun_boxes@),
{
    reveal(trafs_uniform);
    let tail = l.subrange(1, l.len() as int);
    assert forall|k: int| 0 <= k < tail.len() implies #[trigger] tail[k] == l[k + 1] by {}
}

/// The `traf` children of a `moof` box, written one after another after its `mfhd` box, can be
/// read.
#[verifier::spinoff_prover]
proof fn lemma_moof_traf_scan(l: Seq<TrafBox>, seen: Set<int>)
    requires
        all_encodable(l),
        trafs_uniform(l),
        seen.contains(0),
    ensures
        moof_scan(encodings(l), seen),
    decreases l.len(),
{
    if l.len() == 0 {
        lemma_list_bytes_empty(l);
    } else {
        let tail = l.subrange(1, l.len() as int);
        lemma_list_bytes(l);
        lemma_trafs_tail(l);
        lemma_traf_child(l[0], encodings(tail));
        lemma_moof_traf_scan(tail, seen.insert(1));
    }
}

/// Whether `v` is what walking the children of a `moof` box at the start of `q` gives, from
/// the `m`-th `traf` box on and before any unknown box, the kinds in `seen` read before.
#[verifier::opaque]
spec fn moof_walked(q: Seq<u8>, seen: Set<int>, m: int, v: MoofBox) -> bool {
    moof_walk(q, seen, m, 0, v)
}

/// Walking the children of a `moof` box from a `traf` box reads it into the list at `m`, and
/// goes on after it.
#[verifier::spinoff_prover]
proof fn lemma_moof_walk_traf_step(l: Seq<TrafBox>, seen: Set<int>, m: int, v: MoofBox)
    requires
        l.len() > 0,
        all_encodable(l),
        trafs_uniform(l),
        moof_walked(encodings(l), seen, m, v),
    ensures
        0 <= m < v.traf_boxes@.len(),
        traf_read_back(v.traf_boxes@[m], l[0]),
        moof_walked(encodings(l.subrange(1, l.len() as int)), seen.insert(1), m + 1, v),
        all_encodable(l.subrange(1, l.len() as int)),
        trafs_uniform(l.subrange(1, l.len() as int)),
{
    reveal(moof_walked);
    let tail = l.subrange(1, l.len() as int);
    let q = encodings(l);
    let e = l[0].spec_encoding();
    lemma_list_bytes(l);
    lemma_trafs_tail(l);
    lemma_traf_child(l[0], encodings(tail));
    assert(q.len() > 0);
    assert(crate::boxes::spec_can_split(q));
    assert(crate::boxes::spec_box_end(q) == e.len());
    assert(moof_child_kind(q) == 1);
    assert(q.skip(crate::boxes::spec_box_end(q)) == encodings(tail));
    assert(TrafBox::spec_decoded(q, v.traf_boxes@[m]));
}

#[verifier::spinoff_prover]
proof fn lemma_moof_walk_end(l: Seq<TrafBox>, seen: Set<int>, m: int, v: MoofBox)
    requires
        l.len() == 0,
        moof_walked(encodings(l), seen, m, v),
    ensures
        v.traf_boxes@.len() == m,
        v.unknown_boxes@.len() == 0,
{
    reveal(moof_walked);
    lemma_list_bytes_empty(l);
}

/// The `traf` children of a `moof` box, written one after another, are read back in order into
/// the list, from position `m` on.
#[verifier::spinoff_prover]
proof fn lemma_moof_traf_walk(l: Seq<TrafBox>, seen: Set<int>, m: int, v: MoofBox)
    requires
        all_encodable(l),
        trafs_uniform(l),
        m >= 0,
        moof_walked(encodings(l), seen, m, v),
    ensures
        v.traf_boxes@.len() == m + l.len(),
        v.unknown_boxes@.len() == 0,
        forall|j: int| m <= j < m + l.len() ==> traf_read_back(#[trigger] v.traf_boxes@[j], l[j - m]),
    decreases l.len(),
{
    if l.len() == 0 {
        lemma_moof_walk_end(l, seen, m, v);
    } else {
        let tail = l.subrange(1, l.len() as int);
        lemma_moof_walk_traf_step(l, seen, m, v);
        lemma_moof_traf_walk(tail, seen.insert(1), m + 1, v);
        assert forall|j: int| m <= j < m + l.len() implies traf_read_back(
            #[trigger] v.traf_boxes@[j],
            l[j - m],
        ) by {
            if j > m {
                assert(tail[j - (m + 1)] == l[j - m]);
            }
        }
    }
}

/// An `mfhd` box at the start of the children of a `moof` box, before `t`: the children can be
/// read when `t` can, and walking them reads the `mfhd` box and goes on with `t`.
#[verifier::spinoff_prover]
proof fn lemma_moof_mfhd_first(h: MfhdBox, t: Seq<u8>)
    requires
        h.spec_encodable(),
        moof_scan(t, Set::empty().insert(0int)),
    ensures
        moof_scan(h.spec_encoding() + t, Set::empty()),
        forall|v: MoofBox|
            #[trigger] moof_walk(h.spec_encoding() + t, Set::empty(), 0, 0, v) ==> v.mfhd_box == h
                && moof_walk(t, Set::empty().insert(0int), 0, 0, v),
{
    let q = h.spec_encoding() + t;
    lemma_mfhd_roundtrip(h, t);
    lemma_fourcc(0x6d, 0x66, 0x68, 0x64);
    lemma_frame(MfhdBox::spec_type().spec_bytes(), h.spec_payload_bytes(), t);
    assert(moof_child_kind(q) == 0);
    assert(q.skip(h.spec_encoding().len() as int) =~= t);
}

/// A `moof` box without unknown children, whose `traf` boxes meet what
/// [`lemma_traf_roundtrip`] needs, reads back with the same `mfhd` box and its `traf` boxes in
/// order, each read back as that law says.
#[verifier::spinoff_prover]
pub proof fn lemma_moof_roundtrip(b: MoofBox, rest: Seq<u8>)
    requires
        b.spec_encodable(),
        b.unknown_boxes@.len() == 0,
        trafs_uniform(b.traf_boxes@),
    ensures
        ({
            let s = b.spec_encoding() + rest;
            &&& MoofBox::spec_can_decode(s)
            &&& MoofBox::spec_decoded_len(s) == b.spec_encoding().len()
            &&& forall|v: MoofBox|
                MoofBox::spec_decoded(s, v) ==> v.unknown_boxes@.len() == 0 && v.mfhd_box
                    == b.mfhd_box && v.traf_boxes@.len() == b.traf_boxes@.len() && forall|j: int|
                    0 <= j < b.traf_boxes@.len() ==> traf_read_back(
                        #[trigger] v.traf_boxes@[j],
                        b.traf_boxes@[j],
                    )
        }),
{
    lemma_fourcc(0x6d, 0x6f, 0x6f, 0x66);
    let p = b.spec_payload_bytes();
    let t = encodings(b.traf_boxes@);
    let h = b.mfhd_box;
    assert(unknown_boxes_bytes(b.unknown_boxes@) =~= Seq::<u8>::empty()) by {
        assert(b.unknown_boxes@.map_values(|x: UnknownBox| x.spec_encoding()) =~= Seq::<Seq<u8>>::empty());
    }
    lemma_frame(MoofBox::spec_type().spec_bytes(), p, rest);
    let s = b.spec_encoding() + rest;
    assert(spec_payload(s) == p);
    assert(p =~= h.spec_encoding() + t);
    lemma_moof_traf_scan(b.traf_boxes@, Set::empty().insert(0int));
    lemma_moof_mfhd_first(h, t);
    assert forall|v: MoofBox| MoofBox::spec_decoded(s, v) implies v.unknown_boxes@.len() == 0
        && v.mfhd_box == b.mfhd_box && v.traf_boxes@.len() == b.traf_boxes@.len() && forall|j: int|
        0 <= j < b.traf_boxes@.len() ==> traf_read_back(
            #[trigger] v.traf_boxes@[j],
            b.traf_boxes@[j],
        ) by {
        assert(moof_walk(h.spec_encoding() + t, Set::empty(), 0, 0, v));
        assert(moof_walked(t, Set::empty().insert(0int), 0, v)) by {
            reveal(moof_walked);
        }
        lemma_moof_traf_walk(b.traf_boxes@, Set::empty().insert(0int), 0, v);
    }
}

} // verus!
