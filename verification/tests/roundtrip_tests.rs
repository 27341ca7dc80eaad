use bencode::decode;
use bencode::AsBencodeBytes;
use bencode::BencodeItem;
use bencode::ByteString;
use bencode::DictKey;

fn bencode_string(s: &str) -> ByteString {
    ByteString::new(s.as_bytes().to_vec())
}

fn key(s: &str) -> DictKey {
    DictKey::new(s.as_bytes().to_vec()).unwrap()
}

#[test]
fn dict_decodes_and_reencodes_byte_identically() {
    let input = b"d3:cow3:moo4:spam4:eggse".to_vec();
    let v = decode(&input).unwrap();
    assert_eq!(
        BencodeItem::Dict(vec![
            (key("cow"), BencodeItem::String(bencode_string("moo"))),
            (
                key("spam"),
                BencodeItem::String(bencode_string("eggs"))
            ),
        ]),
        v
    );
    assert_eq!(input, v.as_bytes());
}

#[test]
fn nested_value_round_trips() {
    let build = || {
        BencodeItem::Dict(vec![
            (
                key("files"),
                BencodeItem::List(vec![
                    BencodeItem::String(ByteString::new(vec![0x00, 0xFF, 0x8A])),
                    BencodeItem::Int(-42),
                    BencodeItem::Dict(vec![]),
                    BencodeItem::List(vec![BencodeItem::Int(i64::MIN)]),
                ]),
            ),
            (key(""), BencodeItem::Int(0)),
            (key("héllo"), BencodeItem::String(bencode_string(""))),
        ])
    };
    let bytes = build().as_bytes();
    assert_eq!(Ok(build()), decode(&bytes));
}

#[test]
fn canonical_integer_round_trips() {
    for n in [0i64, 1, 9, 10, 1337, 1663024293, i64::MAX, -1, -7, i64::MIN] {
        let bytes = BencodeItem::Int(n).as_bytes();
        assert_eq!(Ok(BencodeItem::Int(n)), decode(&bytes));
    }
}

#[test]
fn string_with_raw_bytes_round_trips() {
    let payload: Vec<u8> = (0u8..=255).collect();
    let v = BencodeItem::String(ByteString::new(payload.clone()));
    let bytes = v.as_bytes();
    assert_eq!(
        Ok(BencodeItem::String(ByteString::new(payload))),
        decode(&bytes)
    );
}
