use bencode::text::is_valid_text;
use bencode::DictKey;

fn agrees_with_std(bytes: &[u8]) {
    assert_eq!(
        std::str::from_utf8(bytes).is_ok(),
        is_valid_text(bytes),
        "disagreement on {:?}",
        bytes
    );
}

#[test]
fn utf8_validity_matches_the_standard_library() {
    let cases: Vec<Vec<u8>> = vec![
        vec![],
        b"hello".to_vec(),
        "héllo wörld".as_bytes().to_vec(),
        "日本語".as_bytes().to_vec(),
        "𐍈".as_bytes().to_vec(),
        vec![0x7F],
        vec![0x80],
        vec![0xBF],
        vec![0xC0, 0x80],
        vec![0xC1, 0xBF],
        vec![0xC2, 0x7F],
        vec![0xC2, 0x80],
        vec![0xDF, 0xBF],
        vec![0xDF, 0xC0],
        vec![0xE0, 0x9F, 0x80],
        vec![0xE0, 0xA0, 0x80],
        vec![0xE0, 0xBF, 0xBF],
        vec![0xED, 0x9F, 0xBF],
        vec![0xED, 0xA0, 0x80],
        vec![0xED, 0xBF, 0xBF],
        vec![0xEE, 0x80, 0x80],
        vec![0xEF, 0xBF, 0xBF],
        vec![0xF0, 0x8F, 0xBF, 0xBF],
        vec![0xF0, 0x90, 0x80, 0x80],
        vec![0xF4, 0x8F, 0xBF, 0xBF],
        vec![0xF4, 0x90, 0x80, 0x80],
        vec![0xF5, 0x80, 0x80, 0x80],
        vec![0xFE],
        vec![0xFF],
        vec![0xE2, 0x82],
        vec![0xE2, 0x82, 0xAC],
        vec![0xF0, 0x9F],
        vec![0x41, 0xC2],
        vec![0xC2, 0xA9, 0x41],
    ];
    for case in &cases {
        agrees_with_std(case);
    }
}

#[test]
fn utf8_validity_on_every_two_byte_sequence() {
    for a in 0u8..=255 {
        for b in [0x00u8, 0x7F, 0x80, 0x9F, 0xA0, 0xBF, 0xC0, 0xFF] {
            agrees_with_std(&[a, b]);
        }
    }
}

#[test]
fn dict_key_construction_validates_text() {
    let k = DictKey::new(b"announce".to_vec()).unwrap();
    assert_eq!(b"announce".to_vec(), *k.bytes());
    assert_eq!(None, DictKey::new(vec![0xFF]));
    assert_eq!(None, DictKey::new(vec![0xED, 0xA0, 0x80]));
    assert!(DictKey::new("ünïcødé".as_bytes().to_vec()).is_some());
    assert!(DictKey::new(vec![]).is_some());
}
