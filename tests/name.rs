use otspec::name::{get_encoding, name, NameRecord, NameRecordID, TextEncoding};
use otspec::{from_bytes, to_bytes, DeserializationError, SerializationError};

fn six_records() -> name {
    name {
        records: vec![
            NameRecord {
                platformID: 1,
                encodingID: 0,
                languageID: 0,
                nameID: 17,
                string: "Regular".to_string(),
            },
            NameRecord {
                platformID: 1,
                encodingID: 0,
                languageID: 0,
                nameID: 256,
                string: "weight".to_string(),
            },
            NameRecord {
                platformID: 1,
                encodingID: 0,
                languageID: 0,
                nameID: 257,
                string: "slant".to_string(),
            },
            NameRecord {
                platformID: 3,
                encodingID: 1,
                nameID: 17,
                languageID: 0x409,
                string: "Regular".to_string(),
            },
            NameRecord {
                platformID: 3,
                encodingID: 1,
                nameID: 256,
                languageID: 0x409,
                string: "weight".to_string(),
            },
            NameRecord {
                platformID: 3,
                encodingID: 1,
                nameID: 257,
                languageID: 0x409,
                string: "slant".to_string(),
            },
        ],
    }
}

fn six_records_bytes() -> Vec<u8> {
    vec![
        0x00, 0x00, 0x00, 0x06, 0x00, 0x4e, 0x00, 0x01, 0x00, 0x00, 0x00, 0x00, 0x00, 0x11,
        0x00, 0x07, 0x00, 0x00, 0x00, 0x01, 0x00, 0x00, 0x00, 0x00, 0x01, 0x00, 0x00, 0x06,
        0x00, 0x07, 0x00, 0x01, 0x00, 0x00, 0x00, 0x00, 0x01, 0x01, 0x00, 0x05, 0x00, 0x0d,
        0x00, 0x03, 0x00, 0x01, 0x04, 0x09, 0x00, 0x11, 0x00, 0x0e, 0x00, 0x12, 0x00, 0x03,
        0x00, 0x01, 0x04, 0x09, 0x01, 0x00, 0x00, 0x0c, 0x00, 0x20, 0x00, 0x03, 0x00, 0x01,
        0x04, 0x09, 0x01, 0x01, 0x00, 0x0a, 0x00, 0x2c, 0x52, 0x65, 0x67, 0x75, 0x6c, 0x61,
        0x72, 0x77, 0x65, 0x69, 0x67, 0x68, 0x74, 0x73, 0x6c, 0x61, 0x6e, 0x74, 0x00, 0x52,
        0x00, 0x65, 0x00, 0x67, 0x00, 0x75, 0x00, 0x6c, 0x00, 0x61, 0x00, 0x72, 0x00, 0x77,
        0x00, 0x65, 0x00, 0x69, 0x00, 0x67, 0x00, 0x68, 0x00, 0x74, 0x00, 0x73, 0x00, 0x6c,
        0x00, 0x61, 0x00, 0x6e, 0x00, 0x74,
    ]
}

#[test]
fn name_otspec() {
    let fname = six_records();
    let binary_name = six_records_bytes();
    let deserialized: name = from_bytes(&binary_name).unwrap();
    let serialized = to_bytes(&deserialized).unwrap();
    assert_eq!(deserialized, fname);
    assert_eq!(serialized, binary_name);
}

#[test]
fn name_encodes_six_records_exactly() {
    let bytes = to_bytes(&six_records()).unwrap();
    assert_eq!(bytes.len(), 0x84);
    assert_eq!(&bytes[0..6], &[0x00, 0x00, 0x00, 0x06, 0x00, 0x4e]);
    assert_eq!(bytes, six_records_bytes());
}

#[test]
fn name_empty_table_round_trips() {
    let empty = name { records: vec![] };
    let bytes = to_bytes(&empty).unwrap();
    assert_eq!(bytes, [0, 0, 0, 0, 0, 6]);
    let back: name = from_bytes(&bytes).unwrap();
    assert_eq!(back, empty);
}

#[test]
fn name_longest_string_round_trips() {
    let text: String = std::iter::repeat('a').take(0x7FFF).collect();
    let table = name { records: vec![NameRecord::windows_unicode(1, text.clone())] };
    let bytes = to_bytes(&table).unwrap();
    assert_eq!(bytes.len(), 18 + 0xFFFE);
    let back: name = from_bytes(&bytes).unwrap();
    assert_eq!(back, table);
}

#[test]
fn name_string_too_long_is_width_overflow() {
    let text: String = std::iter::repeat('a').take(0x8000).collect();
    let table = name { records: vec![NameRecord::windows_unicode(1, text)] };
    assert_eq!(to_bytes(&table), Err(SerializationError::WidthOverflow));
}

#[test]
fn name_record_past_string_pool_is_reported() {
    let mut bytes = six_records_bytes();
    bytes.truncate(bytes.len() - 1);
    let r: Result<name, DeserializationError> = from_bytes(&bytes);
    assert_eq!(r.unwrap_err(), DeserializationError::UnexpectedEof);
    let mut bytes = six_records_bytes();
    bytes[5] = 0xff;
    let r: Result<name, DeserializationError> = from_bytes(&bytes);
    assert_eq!(r.unwrap_err(), DeserializationError::OffsetOutOfRange);
}

#[test]
fn name_unsupported_encoding_is_reported() {
    let table = name {
        records: vec![NameRecord {
            platformID: 3,
            encodingID: 6,
            languageID: 0,
            nameID: 1,
            string: "x".to_string(),
        }],
    };
    assert_eq!(to_bytes(&table), Err(SerializationError::UnsupportedEncoding));
    let bytes = vec![0, 0, 0, 1, 0, 18, 0, 3, 0, 6, 0, 0, 0, 1, 0, 1, 0, 0, b'x'];
    let r: Result<name, DeserializationError> = from_bytes(&bytes);
    assert_eq!(r.unwrap_err(), DeserializationError::UnsupportedEncoding);
}

#[test]
fn encoding_selection_table() {
    assert_eq!(get_encoding(0, 99), Some(TextEncoding::Utf16Be));
    assert_eq!(get_encoding(1, 0), Some(TextEncoding::MacRoman));
    assert_eq!(get_encoding(1, 7), Some(TextEncoding::MacCyrillic));
    assert_eq!(get_encoding(1, 3), Some(TextEncoding::MacRoman));
    assert_eq!(get_encoding(2, 0), Some(TextEncoding::Windows1252));
    assert_eq!(get_encoding(2, 1), Some(TextEncoding::Utf16Be));
    assert_eq!(get_encoding(2, 3), None);
    assert_eq!(get_encoding(3, 2), Some(TextEncoding::Windows31J));
    assert_eq!(get_encoding(3, 5), Some(TextEncoding::Windows949));
    assert_eq!(get_encoding(3, 6), None);
    assert_eq!(get_encoding(3, 10), Some(TextEncoding::Utf16Be));
    assert_eq!(get_encoding(4, 0), None);
}

#[test]
fn mac_cyrillic_and_replacement() {
    let table = name {
        records: vec![
            NameRecord {
                platformID: 1,
                encodingID: 7,
                languageID: 0,
                nameID: 1,
                string: "Да".to_string(),
            },
            NameRecord {
                platformID: 1,
                encodingID: 0,
                languageID: 0,
                nameID: 2,
                string: "Д".to_string(),
            },
        ],
    };
    let bytes = to_bytes(&table).unwrap();
    assert_eq!(&bytes[30..], &[0x84, 0xe0, b'?']);
    let back: name = from_bytes(&bytes).unwrap();
    assert_eq!(back.records[0].string, "Да");
    assert_eq!(back.records[1].string, "?");
}

#[test]
fn windows_unicode_picks_encoding() {
    let r = NameRecord::windows_unicode(u16::from(NameRecordID::FontFamilyName), "Test".to_string());
    assert_eq!((r.platformID, r.encodingID, r.languageID, r.nameID), (3, 1, 0x409, 1));
    let r = NameRecord::windows_unicode(u16::from(NameRecordID::VariationsPostScriptNamePrefix), "\u{1F600}".to_string());
    assert_eq!((r.encodingID, r.nameID), (10, 25));
}
