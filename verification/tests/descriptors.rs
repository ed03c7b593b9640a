use lib::boxes::EsdsBox;
use lib::descriptors::{
    decode_tag_and_size, encode_tag_and_size, DecoderConfigDescriptor, DecoderSpecificInfo,
    EsDescriptor, SlConfigDescriptor, Uint,
};
use lib::{Decode, Encode, ErrorKind};

#[test]
fn tag_and_size() {
    let mut buf = [0; 32];
    let encoded_size = encode_tag_and_size(&mut buf, 12, 123456).unwrap();

    let (tag, size, consumed) = decode_tag_and_size(&buf).unwrap();
    assert_eq!(tag, 12);
    assert_eq!(size, 123456);
    assert_eq!(consumed, encoded_size);
}

#[test]
fn decoder_specific_info_size_overflow() {
    let crash_input: &[u8] = &[
        0, 0, 0, 171, 101, 115, 100, 115, 224, 206, 255, 64, 3, 93, 47, 115, 224, 202, 191, 0, 0,
        1, 4, 10, 0, 254, 255, 0, 0, 0, 0, 0, 0, 0, 27, 0, 0, 5, 255, 255, 255, 255, 255, 145,
        145, 145, 145, 145, 145, 145, 145, 145, 145, 145, 145, 145, 145, 145, 145, 145, 145, 145,
        145, 145, 145, 145, 145, 145, 145, 145, 145, 145, 145, 145, 145, 145, 145, 145, 145, 145,
        145, 145, 145, 145, 145, 145, 145, 145, 145, 145, 145, 145, 145, 145, 145, 145, 145, 145,
        145, 145, 145, 145, 145, 145, 145, 145, 145, 255, 255, 255, 255, 255, 255, 255, 255, 255,
        255, 255, 255, 255, 255, 255, 255, 255, 255, 255, 255, 255, 255, 255, 255, 255, 255, 255,
        255, 255, 111, 255, 255, 255, 255, 255, 255, 255, 255, 145, 145, 145, 0, 0, 0, 0, 0, 0, 0,
        19, 145, 145, 145, 145, 145, 145, 145, 145, 145, 145, 145, 145, 145, 145, 145, 145, 145,
        145, 145, 145, 145, 145, 145, 145, 145, 145, 145, 145, 145, 145, 145, 145, 145, 145, 145,
        145, 145, 145, 145, 145, 145, 145, 145, 145, 145, 145, 145, 145, 145, 145,
    ];
    assert!(EsdsBox::decode(crash_input).is_err());
}

#[test]
fn tag_and_size_small_and_zero() {
    let mut buf = [0xffu8; 4];
    assert_eq!(encode_tag_and_size(&mut buf, 5, 0).unwrap(), 2);
    assert_eq!(&buf[..2], &[5, 0]);
    assert_eq!(encode_tag_and_size(&mut buf, 5, 127).unwrap(), 2);
    assert_eq!(&buf[..2], &[5, 127]);
    assert_eq!(encode_tag_and_size(&mut buf, 5, 128).unwrap(), 3);
    assert_eq!(&buf[..3], &[5, 0x81, 0x00]);
    assert_eq!(decode_tag_and_size(&buf[..3]).unwrap(), (5, 128, 3));
}

#[test]
fn tag_and_size_errors() {
    let mut buf = [0u8; 2];
    let e = encode_tag_and_size(&mut buf, 1, 1 << 20).unwrap_err();
    assert_eq!(e.kind, ErrorKind::InsufficientBuffer);
    assert_eq!(decode_tag_and_size(&[]).unwrap_err().kind, ErrorKind::InsufficientBuffer);
    assert_eq!(decode_tag_and_size(&[3, 0x80]).unwrap_err().kind, ErrorKind::InsufficientBuffer);
}

#[test]
fn uint_bits() {
    let v = Uint::<u8, 2, 4>::from_bits(0b1011_0110);
    assert_eq!(v.get(), 0b11);
    assert_eq!(v.to_bits(), 0b0011_0000);
    let w = Uint::<u32, 24, 0>::from_bits(0x1234_5678);
    assert_eq!(w.get(), 0x34_5678);
    assert_eq!(Uint::<u8, 5, 0>::new(7).get(), 7);
}

fn sample_es() -> EsDescriptor {
    EsDescriptor {
        es_id: 1,
        stream_priority: Uint::<u8, 5, 0>::new(3),
        depends_on_es_id: Some(9),
        url_string: Some("http://x".to_string()),
        ocr_es_id: None,
        dec_config_descr: DecoderConfigDescriptor {
            object_type_indication: DecoderConfigDescriptor::OBJECT_TYPE_INDICATION_AUDIO_ISO_IEC_14496_3,
            stream_type: DecoderConfigDescriptor::STREAM_TYPE_AUDIO(),
            up_stream: DecoderConfigDescriptor::UP_STREAM_FALSE(),
            buffer_size_db: Uint::<u32, 24, 0>::new(0x1234),
            max_bitrate: 128000,
            avg_bitrate: 96000,
            dec_specific_info: Some(DecoderSpecificInfo { payload: vec![0x12, 0x10] }),
        },
        sl_config_descr: SlConfigDescriptor,
    }
}

#[test]
fn es_descriptor_roundtrip() {
    let es = sample_es();
    let bytes = es.encode_to_vec().unwrap();
    assert_eq!(bytes[0], 3);
    let (d, n) = EsDescriptor::decode(&bytes).unwrap();
    assert_eq!(n, bytes.len());
    assert_eq!(d.es_id, 1);
    assert_eq!(d.stream_priority.get(), 3);
    assert_eq!(d.depends_on_es_id, Some(9));
    assert_eq!(d.url_string.as_deref(), Some("http://x"));
    assert_eq!(d.ocr_es_id, None);
    assert_eq!(d.dec_config_descr.object_type_indication, 0x40);
    assert_eq!(d.dec_config_descr.stream_type.get(), 5);
    assert_eq!(d.dec_config_descr.up_stream.get(), 0);
    assert_eq!(d.dec_config_descr.buffer_size_db.get(), 0x1234);
    assert_eq!(d.dec_config_descr.max_bitrate, 128000);
    assert_eq!(d.dec_config_descr.avg_bitrate, 96000);
    assert_eq!(d.dec_config_descr.dec_specific_info.unwrap().payload, vec![0x12, 0x10]);
}

#[test]
fn esds_box_roundtrip() {
    let b = EsdsBox { es: sample_es() };
    let bytes = b.encode_to_vec().unwrap();
    assert_eq!(&bytes[4..8], b"esds");
    let (d, n) = EsdsBox::decode(&bytes).unwrap();
    assert_eq!(n, bytes.len());
    assert_eq!(d.es.es_id, 1);
}

#[test]
fn sl_config_other_than_two_is_unsupported() {
    let e = SlConfigDescriptor::decode(&[6, 1, 1]).unwrap_err();
    assert_eq!(e.kind, ErrorKind::Unsupported);
    assert!(SlConfigDescriptor::decode(&[6, 1, 2]).is_ok());
    assert_eq!(SlConfigDescriptor::decode(&[7, 1, 2]).unwrap_err().kind, ErrorKind::InvalidData);
}

#[test]
fn decoder_specific_info_beyond_buffer_is_invalid() {
    let e = DecoderSpecificInfo::decode(&[5, 4, 1, 2]).unwrap_err();
    assert_eq!(e.kind, ErrorKind::InvalidData);
    let (d, n) = DecoderSpecificInfo::decode(&[5, 2, 1, 2, 9]).unwrap();
    assert_eq!(d.payload, vec![1, 2]);
    assert_eq!(n, 4);
}

#[test]
fn url_must_be_utf8() {
    let mut es = sample_es();
    es.url_string = Some("ab".to_string());
    let mut bytes = es.encode_to_vec().unwrap();
    // The URL bytes follow: tag, size (1 byte), es_id (2), flags (1), dependency (2), length (1).
    let at = 2 + 2 + 1 + 2 + 1;
    assert_eq!(&bytes[at..at + 2], b"ab");
    bytes[at] = 0xff;
    assert_eq!(EsDescriptor::decode(&bytes).unwrap_err().kind, ErrorKind::InvalidData);
}

#[test]
fn tag_and_size_over_64_bits_is_invalid() {
    let mut buf = vec![3u8];
    buf.extend_from_slice(&[0xFF; 9]);
    assert_eq!(decode_tag_and_size(&buf).unwrap_err().kind, ErrorKind::InsufficientBuffer);
    buf.push(0x01);
    assert_eq!(decode_tag_and_size(&buf).unwrap_err().kind, ErrorKind::InvalidData);
    // Nine groups still fit: 2^63 - 1.
    let mut ok = vec![3u8];
    ok.extend_from_slice(&[0xFF; 8]);
    ok.push(0x7F);
    assert_eq!(decode_tag_and_size(&ok).unwrap(), (3, (u64::MAX >> 1) as usize, 10));
}
