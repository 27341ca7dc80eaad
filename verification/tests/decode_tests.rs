use bencode::parse_bytes;
use bencode::BencodeError;
use bencode::BencodeItem;
use bencode::ByteString;
use bencode::DictKey;

fn parsed(bytes: &[u8]) -> BencodeItem {
    match parse_bytes(bytes, 0) {
        Ok((v, _)) => v,
        Err(e) => panic!("Unexpected err: {:?}", e),
    }
}

fn parse_err(bytes: &[u8]) -> BencodeError {
    match parse_bytes(bytes, 0) {
        Ok((v, _)) => panic!("Unexpected ok: {:?}", v),
        Err(e) => e,
    }
}

fn bencode_string(s: &str) -> ByteString {
    ByteString::new(s.as_bytes().to_vec())
}

fn key(s: &str) -> DictKey {
    DictKey::new(s.as_bytes().to_vec()).unwrap()
}

#[test]
fn dict() {
    assert_eq!(BencodeItem::Dict(vec![]), parsed(&[0x64, 0x65]));

    assert_eq!(
        BencodeItem::Dict(vec![
            (
                key("Hello"),
                BencodeItem::String(bencode_string("World"))
            ),
            (
                key("World"),
                BencodeItem::String(bencode_string("Hello"))
            ),
        ]),
        parsed(&[
            0x64, 0x35, 0x3A, 0x48, 0x65, 0x6C, 0x6C, 0x6F, 0x35, 0x3A, 0x57, 0x6F, 0x72, 0x6C,
            0x64, 0x35, 0x3A, 0x57, 0x6F, 0x72, 0x6C, 0x64, 0x35, 0x3A, 0x48, 0x65, 0x6C, 0x6C,
            0x6F, 0x65,
        ])
    );

    assert_eq!(
        BencodeItem::Dict(vec![(key("Hello"), BencodeItem::Int(123))]),
        parsed(&[
            0x64, 0x35, 0x3A, 0x48, 0x65, 0x6C, 0x6C, 0x6F, 0x69, 0x31, 0x32, 0x33, 0x65, 0x65,
        ])
    );
}

#[test]
fn list() {
    assert_eq!(BencodeItem::List(vec![]), parsed(&[0x6C, 0x65]));
    assert_eq!(
        BencodeItem::List(vec![BencodeItem::List(vec![])]),
        parsed(&[0x6C, 0x6C, 0x65, 0x65])
    );
    assert_eq!(
        BencodeItem::List(vec![BencodeItem::String(bencode_string("Hello"))]),
        parsed(&[0x6C, 0x35, 0x3A, 0x48, 0x65, 0x6C, 0x6C, 0x6F, 0x65])
    );
    assert_eq!(
        BencodeItem::List(vec![
            BencodeItem::String(bencode_string("")),
            BencodeItem::Int(1337),
            BencodeItem::String(bencode_string("Hello")),
        ]),
        parsed(&[
            0x6C, 0x30, 0x3A, 0x69, 0x31, 0x33, 0x33, 0x37, 0x65, 0x35, 0x3A, 0x48, 0x65, 0x6C,
            0x6C, 0x6F, 0x65,
        ])
    );
}

#[test]
fn string() {
    assert_eq!(
        BencodeItem::String(bencode_string("Hello")),
        parsed(&[0x35, 0x3A, 0x48, 0x65, 0x6C, 0x6C, 0x6F])
    );
    assert_eq!(
        BencodeItem::String(bencode_string("Hello World")),
        parsed(&[
            0x31, 0x31, 0x3A, 0x48, 0x65, 0x6C, 0x6C, 0x6F, 0x20, 0x57, 0x6F, 0x72, 0x6C, 0x64,
        ])
    );
    assert_eq!(BencodeItem::String(bencode_string("")), parsed(&[0x30, 0x3A]));
    assert_eq!(BencodeItem::String(bencode_string("x")), parsed(&[0x31, 0x3A, 0x78]));
    assert_eq!(
        BencodeError::MalformedStringLength,
        parse_err(&[0x31, 0x30, 0x78, 0x3A, 0x7A])
    );
    assert_eq!(
        BencodeItem::String(ByteString::new(vec![0x8A])),
        parsed(&[0x31, 0x3A, 0x8A])
    );
    assert_eq!(BencodeError::UnexpectedEnd, parse_err(&[0x31, 0x30, 0x3A, 0x7A]));
}

#[test]
fn int_values() {
    assert_eq!(
        BencodeItem::Int(1337),
        parsed(&[0x69, 0x31, 0x33, 0x33, 0x37, 0x65])
    );
    assert_eq!(BencodeItem::Int(7), parsed(&[0x69, 0x37, 0x65]));
    assert_eq!(
        BencodeItem::Int(1663024293),
        parsed(&[0x69, 0x31, 0x36, 0x36, 0x33, 0x30, 0x32, 0x34, 0x32, 0x39, 0x33, 0x65])
    );
    assert_eq!(BencodeItem::Int(-7), parsed(&[0x69, 0x2D, 0x37, 0x65]));
    assert_eq!(BencodeItem::Int(0), parsed(&[0x69, 0x30, 0x65]));
    assert_eq!(
        BencodeError::MalformedInteger,
        parse_err(&[0x69, 0x2D, 0x30, 0x65])
    );
    assert_eq!(
        BencodeError::MalformedInteger,
        parse_err(&[0x69, 0x30, 0x30, 0x30, 0x65])
    );
    assert_eq!(
        BencodeError::MalformedInteger,
        parse_err(&[0x69, 0x30, 0x30, 0x31, 0x65])
    );
    assert_eq!(BencodeError::MalformedInteger, parse_err(&[0x69, 0x3A, 0x65]));
    assert_eq!(BencodeError::UnexpectedTerminator, parse_err(&[0x69, 0x65]));
    assert_eq!(BencodeError::UnexpectedTerminator, parse_err(&[0x65, 0x69]));
}

#[test]
fn decode_simple_values() {
    assert_eq!(
        Ok(BencodeItem::String(bencode_string(""))),
        bencode::decode(b"0:")
    );
    assert_eq!(
        Ok(BencodeItem::String(bencode_string("spam"))),
        bencode::decode(b"4:spam")
    );
    assert_eq!(Ok(BencodeItem::Int(42)), bencode::decode(b"i42e"));
}

#[test]
fn decode_list_of_strings() {
    assert_eq!(
        Ok(BencodeItem::List(vec![
            BencodeItem::String(bencode_string("spam")),
            BencodeItem::String(bencode_string("eggs")),
        ])),
        bencode::decode(b"l4:spam4:eggse")
    );
}

#[test]
fn decode_ignores_trailing_bytes() {
    assert_eq!(Ok(BencodeItem::Int(7)), bencode::decode(b"i7exxx"));
    match parse_bytes(b"i42etrailing", 0) {
        Ok((v, end)) => {
            assert_eq!(BencodeItem::Int(42), v);
            assert_eq!(4, end);
        }
        Err(e) => panic!("Unexpected err: {:?}", e),
    }
}

#[test]
fn decode_duplicate_keys_preserved() {
    let v = parsed(b"d1:ai1e1:ai2ee");
    assert_eq!(
        BencodeItem::Dict(vec![
            (key("a"), BencodeItem::Int(1)),
            (key("a"), BencodeItem::Int(2)),
        ]),
        v
    );
}

#[test]
fn decode_integer_extremes() {
    assert_eq!(
        Ok(BencodeItem::Int(i64::MAX)),
        bencode::decode(b"i9223372036854775807e")
    );
    assert_eq!(
        Ok(BencodeItem::Int(i64::MIN)),
        bencode::decode(b"i-9223372036854775808e")
    );
    assert_eq!(
        Err(BencodeError::MalformedInteger),
        bencode::decode(b"i9223372036854775808e")
    );
    assert_eq!(
        Err(BencodeError::MalformedInteger),
        bencode::decode(b"i-9223372036854775809e")
    );
    assert_eq!(
        Err(BencodeError::MalformedInteger),
        bencode::decode(b"i18446744073709551617e")
    );
}

#[test]
fn decode_rejects_plus_sign() {
    assert_eq!(
        Err(BencodeError::MalformedInteger),
        bencode::decode(b"i+5e")
    );
}

#[test]
fn decode_huge_declared_length() {
    assert_eq!(
        Err(BencodeError::UnexpectedEnd),
        bencode::decode(b"99:x")
    );
    assert_eq!(
        Err(BencodeError::UnexpectedEnd),
        bencode::decode(b"18446744073709551616:x")
    );
}
