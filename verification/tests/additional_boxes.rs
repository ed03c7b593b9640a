use lib::boxes::{Brand, FreeBox, MdatBox, RootBox, UnknownBox};
use lib::{BaseBox, BoxSize, BoxType, Decode, Encode};

#[test]
fn unknown_box_empty_payload() {
    let unknown = UnknownBox {
        box_type: BoxType::Normal(*b"test"),
        box_size: BoxSize::with_payload_size(BoxType::Normal(*b"test"), 0),
        payload: vec![],
    };
    let encoded = unknown.encode_to_vec().unwrap();
    let (decoded, _) = UnknownBox::decode(&encoded).unwrap();
    assert!(decoded.payload.is_empty());
}

#[test]
fn free_box_empty_payload() {
    let free = FreeBox { payload: vec![] };
    let encoded = free.encode_to_vec().unwrap();
    let (decoded, _) = FreeBox::decode(&encoded).unwrap();
    assert!(decoded.payload.is_empty());
}

#[test]
fn mdat_box_empty_payload() {
    let mdat = MdatBox { payload: vec![] };
    let encoded = mdat.encode_to_vec().unwrap();
    let (decoded, _) = MdatBox::decode(&encoded).unwrap();
    assert!(decoded.payload.is_empty());
}

#[test]
fn root_box_free_roundtrip() {
    let free = FreeBox { payload: vec![0u8; 100] };
    let root = RootBox::Free(free);

    let encoded = root.encode_to_vec().unwrap();
    let (decoded, size) = RootBox::decode(&encoded).unwrap();

    assert_eq!(size, encoded.len());
    assert!(matches!(decoded, RootBox::Free(_)));
    assert_eq!(decoded.box_type(), FreeBox::TYPE());
    assert!(!decoded.is_unknown_box());
}

#[test]
fn root_box_mdat_roundtrip() {
    let mdat = MdatBox { payload: vec![1, 2, 3, 4, 5] };
    let root = RootBox::Mdat(mdat);

    let encoded = root.encode_to_vec().unwrap();
    let (decoded, size) = RootBox::decode(&encoded).unwrap();

    assert_eq!(size, encoded.len());
    assert!(matches!(decoded, RootBox::Mdat(_)));
    assert_eq!(decoded.box_type(), MdatBox::TYPE());
    assert!(!decoded.is_unknown_box());
}

#[test]
fn root_box_unknown_roundtrip() {
    let unknown = UnknownBox {
        box_type: BoxType::Normal(*b"test"),
        box_size: BoxSize::with_payload_size(BoxType::Normal(*b"test"), 10),
        payload: vec![0u8; 10],
    };
    let root = RootBox::Unknown(unknown);

    let encoded = root.encode_to_vec().unwrap();
    let (decoded, size) = RootBox::decode(&encoded).unwrap();

    assert_eq!(size, encoded.len());
    assert!(matches!(decoded, RootBox::Unknown(_)));
    assert_eq!(decoded.box_type(), BoxType::Normal(*b"test"));
    assert!(decoded.is_unknown_box());
}

#[test]
fn brand_debug_invalid_utf8() {
    let brand = Brand::new([0xFF, 0xFE, 0x00, 0x01]);
    let debug_str = format!("{:?}", brand);
    assert!(debug_str.contains("Brand"));
}

#[test]
fn brand_constants() {
    assert_eq!(Brand::ISOM().get(), *b"isom");
    assert_eq!(Brand::AVC1().get(), *b"avc1");
    assert_eq!(Brand::ISO2().get(), *b"iso2");
    assert_eq!(Brand::MP71().get(), *b"mp71");
    assert_eq!(Brand::ISO3().get(), *b"iso3");
    assert_eq!(Brand::ISO4().get(), *b"iso4");
    assert_eq!(Brand::ISO5().get(), *b"iso5");
    assert_eq!(Brand::ISO6().get(), *b"iso6");
    assert_eq!(Brand::ISO7().get(), *b"iso7");
    assert_eq!(Brand::ISO8().get(), *b"iso8");
    assert_eq!(Brand::ISO9().get(), *b"iso9");
    assert_eq!(Brand::ISOA().get(), *b"isoa");
    assert_eq!(Brand::ISOB().get(), *b"isob");
    assert_eq!(Brand::RELO().get(), *b"relo");
    assert_eq!(Brand::MP41().get(), *b"mp41");
    assert_eq!(Brand::AV01().get(), *b"av01");
}

#[test]
fn brand_roundtrip() {
    let brand = Brand::new(*b"test");
    let encoded = brand.encode_to_vec().unwrap();
    let (decoded, size) = Brand::decode(&encoded).unwrap();

    assert_eq!(size, 4);
    assert_eq!(decoded.get(), *b"test");
}
