use surfer_cxxrtl::encoding::decode_base64;
use surfer_cxxrtl::encoding::item_values_of_base64;
use surfer_cxxrtl::encoding::timestamp_of_text;
use surfer_cxxrtl::encoding::words_of_bytes;
use surfer_cxxrtl::protocol::CxxrtlTimestamp;

#[test]
fn base64_groups_and_padding() {
    assert_eq!(decode_base64(b""), Some(vec![]));
    assert_eq!(decode_base64(b"TWFu"), Some(b"Man".to_vec()));
    assert_eq!(decode_base64(b"TWE="), Some(b"Ma".to_vec()));
    assert_eq!(decode_base64(b"TQ=="), Some(b"M".to_vec()));
    assert_eq!(decode_base64(b"+/+/"), Some(vec![0xFB, 0xFF, 0xBF]));
    assert_eq!(decode_base64(b"TQ"), None);
    assert_eq!(decode_base64(b"TQ==TWFu"), None);
    assert_eq!(decode_base64(b"T!=="), None);
}

#[test]
fn words_are_little_endian() {
    assert_eq!(words_of_bytes(&vec![1, 0, 0, 0, 0x78, 0x56, 0x34, 0x12]), Some(vec![1, 0x12345678]));
    assert_eq!(words_of_bytes(&vec![1, 2, 3]), None);
}

#[test]
fn item_values_from_text() {
    assert_eq!(item_values_of_base64("AQAAAP////8="), Some(vec![1, 0xFFFF_FFFF]));
    assert_eq!(item_values_of_base64("AQAAAAIAAAA="), Some(vec![1, 2]));
    assert_eq!(item_values_of_base64("AQAAAA=="), Some(vec![1]));
    assert_eq!(item_values_of_base64("eFY0Eg=="), Some(vec![0x12345678]));
    assert_eq!(item_values_of_base64("AQAAAP////8A"), None);
    assert_eq!(item_values_of_base64("AQAAAAIAAAA"), None);
    assert_eq!(item_values_of_base64(""), Some(vec![]));
}

#[test]
fn times_from_text() {
    assert_eq!(timestamp_of_text("0.000000000000000"), Some(CxxrtlTimestamp::zero()));
    assert_eq!(timestamp_of_text("1.000000000000002"), Some(CxxrtlTimestamp::from_femtoseconds(1_000_000_000_000_002)));
    assert_eq!(timestamp_of_text("2.5"), Some(CxxrtlTimestamp::from_femtoseconds(2_500_000_000_000_000)));
    assert_eq!(timestamp_of_text("12"), None);
    assert_eq!(timestamp_of_text(".5"), None);
    assert_eq!(timestamp_of_text("1."), None);
    assert_eq!(timestamp_of_text("1.0000000000000000"), None);
    assert_eq!(timestamp_of_text("1a.5"), None);
    assert_eq!(timestamp_of_text("1.5.0"), None);
    assert_eq!(timestamp_of_text("999999999999999999999999999999.0"), None);
}

#[test]
fn times_to_text() {
    assert_eq!(CxxrtlTimestamp::zero().to_cxxrtl_text(), "0.000000000000000");
    assert_eq!(CxxrtlTimestamp::from_femtoseconds(105_000_000).to_cxxrtl_text(), "0.000000105000000");
    assert_eq!(
        CxxrtlTimestamp::from_femtoseconds(12_000_000_000_000_345).to_cxxrtl_text(),
        "12.000000000000345"
    );
    assert_eq!(CxxrtlTimestamp::from_femtoseconds(999_999_999_999_999).to_cxxrtl_text(), "0.999999999999999");
    let t = CxxrtlTimestamp::from_femtoseconds(u128::MAX);
    assert_eq!(timestamp_of_text(&t.to_cxxrtl_text()), Some(t));
}
