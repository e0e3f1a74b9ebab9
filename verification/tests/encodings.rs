use aether::encoding::{codec_for, decode, entry_at, static_label, ENCODING_COUNT};

#[test]
fn every_label_is_kept_and_has_its_codec() {
    for k in 0..ENCODING_COUNT {
        let (label, codec) = entry_at(k);
        assert_eq!(static_label(label), label);
        assert_eq!(codec_for(label).name(), codec);
    }
    assert_eq!(static_label("Klingon"), "UTF-8");
    assert_eq!(codec_for("Klingon").name(), "UTF-8");
    assert_eq!(static_label(static_label("Klingon")), static_label("Klingon"));
}

#[test]
fn bytes_are_read_in_their_encoding() {
    assert_eq!(decode("UTF-8", "h€".as_bytes()), "h€");
    assert_eq!(decode("UTF-16 LE", &[0x41, 0x00, 0xac, 0x20]), "A€");
    assert_eq!(decode("UTF-16 BE", &[0x00, 0x41, 0x20, 0xac]), "A€");
    assert_eq!(decode("Western (Windows 1252)", &[0x80]), "€");
    assert_eq!(decode("Western (ISO 8859-1)", &[0xe9]), "é");
    assert_eq!(decode("Cyrillic (Windows 1251)", &[0xc4]), "Д");
    assert_eq!(decode("Greek (Windows 1253)", &[0xe1]), "α");
    assert_eq!(decode("Turkish (Windows 1254)", &[0xfe]), "ş");
    assert_eq!(decode("Central European (Windows 1250)", &[0xe8]), "č");
    assert_eq!(decode("Japanese (Shift JIS)", &[0x82, 0xa0]), "あ");
    assert_eq!(decode("Japanese (EUC-JP)", &[0xa4, 0xa2]), "あ");
    assert_eq!(decode("Chinese (GBK)", &[0xc4, 0xe3]), "你");
    assert_eq!(decode("Chinese (Big5)", &[0xa7, 0x41]), "你");
    assert_eq!(decode("Korean (EUC-KR)", &[0xb0, 0xa1]), "가");
}

#[test]
fn what_is_malformed_is_replaced() {
    assert_eq!(decode("UTF-8", &[0x41, 0xff]), "A\u{FFFD}");
    assert_eq!(decode("ASCII", &[0x41, 0x80, 0xff]), "A\u{FFFD}\u{FFFD}");
    assert_eq!(decode("nobody knows", &[0x41, 0xff]), "A\u{FFFD}");
}
