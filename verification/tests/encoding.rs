use sarnaut::encoding::{decode, Encoding};

fn utf16le(text: &str) -> Vec<u8> {
    let mut bytes = vec![0xFF, 0xFE];
    for unit in text.encode_utf16() {
        bytes.extend_from_slice(&unit.to_le_bytes());
    }
    bytes
}

#[test]
fn picks_the_encoding_from_the_byte_order_mark_and_falls_back_to_cyrillic() {
    assert_eq!(
        decode(&utf16le("Зомби")),
        ("Зомби".to_owned(), Encoding::Utf16Le)
    );

    let mut big_endian = vec![0xFE, 0xFF];
    for unit in "Зомби".encode_utf16() {
        big_endian.extend_from_slice(&unit.to_be_bytes());
    }
    assert_eq!(decode(&big_endian), ("Зомби".to_owned(), Encoding::Utf16Be));

    let mut utf8_bom = vec![0xEF, 0xBB, 0xBF];
    utf8_bom.extend_from_slice("Зомби".as_bytes());
    assert_eq!(decode(&utf8_bom), ("Зомби".to_owned(), Encoding::Utf8Bom));

    assert_eq!(decode(b"Rat"), ("Rat".to_owned(), Encoding::Utf8));

    // 0xC7 0xEE 0xEC 0xE1 0xE8 is "Зомби" in Windows-1251 and is not valid UTF-8.
    assert_eq!(
        decode(&[0xC7, 0xEE, 0xEC, 0xE1, 0xE8]),
        ("Зомби".to_owned(), Encoding::Windows1251)
    );
}

#[test]
fn tolerates_a_trailing_odd_byte_in_a_utf16_payload() {
    let mut bytes = utf16le("Rat");
    bytes.push(0x00);
    assert_eq!(decode(&bytes).0, "Rat");
}

#[test]
fn unpaired_surrogates_become_replacement_characters() {
    // A lone high surrogate, then 'A', then a valid pair for U+1F600.
    let bytes = vec![0xFF, 0xFE, 0x00, 0xD8, 0x41, 0x00, 0x3D, 0xD8, 0x00, 0xDE];
    assert_eq!(decode(&bytes), ("\u{FFFD}A\u{1F600}".to_owned(), Encoding::Utf16Le));
}

#[test]
fn windows_1251_high_table_and_empty_payload() {
    // 0x80 is Ђ, 0xA8 is Ё, 0x98 is unassigned.
    assert_eq!(
        decode(&[0x80, 0xA8, 0x98]),
        ("\u{0402}\u{0401}\u{FFFD}".to_owned(), Encoding::Windows1251)
    );
    assert_eq!(decode(&[]), (String::new(), Encoding::Utf8));
}

#[test]
fn invalid_utf8_after_a_bom_is_replaced_not_reinterpreted() {
    assert_eq!(
        decode(&[0xEF, 0xBB, 0xBF, 0x41, 0xFF]),
        ("A\u{FFFD}".to_owned(), Encoding::Utf8Bom)
    );
}

#[test]
fn labels_name_each_rung() {
    assert_eq!(Encoding::Utf16Le.label(), "utf-16le");
    assert_eq!(Encoding::Utf16Be.label(), "utf-16be");
    assert_eq!(Encoding::Utf8Bom.label(), "utf-8-bom");
    assert_eq!(Encoding::Utf8.label(), "utf-8");
    assert_eq!(Encoding::Windows1251.label(), "windows-1251");
}
