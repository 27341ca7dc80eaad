use bencode::decode;
use bencode::BencodeError;

#[test]
fn truncated_input_fails_with_unexpected_end() {
    assert_eq!(Err(BencodeError::UnexpectedEnd), decode(b""));
    assert_eq!(Err(BencodeError::UnexpectedEnd), decode(b"d3:cow3:moo"));
    assert_eq!(Err(BencodeError::UnexpectedEnd), decode(b"5:abc"));
    assert_eq!(Err(BencodeError::UnexpectedEnd), decode(b"i13"));
    assert_eq!(Err(BencodeError::UnexpectedEnd), decode(b"i"));
    assert_eq!(Err(BencodeError::UnexpectedEnd), decode(b"i0"));
    assert_eq!(Err(BencodeError::UnexpectedEnd), decode(b"i-"));
    assert_eq!(Err(BencodeError::UnexpectedEnd), decode(b"0"));
    assert_eq!(Err(BencodeError::UnexpectedEnd), decode(b"10:"));
    assert_eq!(Err(BencodeError::UnexpectedEnd), decode(b"l4:spam"));
    assert_eq!(Err(BencodeError::UnexpectedEnd), decode(b"l4:spam4:eggs"));
    assert_eq!(Err(BencodeError::UnexpectedEnd), decode(b"d"));
    assert_eq!(Err(BencodeError::UnexpectedEnd), decode(b"d3:cow"));
    assert_eq!(Err(BencodeError::UnexpectedEnd), decode(b"d3:cow3:mo"));
}

#[test]
fn bare_terminator_fails_with_unexpected_terminator() {
    assert_eq!(Err(BencodeError::UnexpectedTerminator), decode(b"e"));
    assert_eq!(Err(BencodeError::UnexpectedTerminator), decode(b"liee"));
    assert_eq!(Err(BencodeError::UnexpectedTerminator), decode(b"d3:cowe"));
}

#[test]
fn unknown_first_byte_fails_with_unknown_tag() {
    assert_eq!(Err(BencodeError::UnknownTag(b'x')), decode(b"x"));
    assert_eq!(Err(BencodeError::UnknownTag(b':')), decode(b":"));
    assert_eq!(Err(BencodeError::UnknownTag(b'-')), decode(b"-7e"));
    assert_eq!(Err(BencodeError::UnknownTag(b'q')), decode(b"lqe"));
}

#[test]
fn dict_key_that_is_not_text_fails() {
    assert_eq!(
        Err(BencodeError::DictKeyNotText),
        decode(&[b'd', b'1', b':', 0xFF, b'i', b'1', b'e', b'e'])
    );
    assert_eq!(
        Err(BencodeError::DictKeyNotText),
        decode(&[b'd', b'2', b':', 0xED, 0xA0, b'0', b':', b'e'])
    );
}

#[test]
fn dict_key_must_be_a_string() {
    assert_eq!(Err(BencodeError::MalformedStringLength), decode(b"die"));
    assert_eq!(Err(BencodeError::MalformedStringLength), decode(b"d::e"));
}

#[test]
fn malformed_string_lengths() {
    assert_eq!(Err(BencodeError::MalformedStringLength), decode(b"01:x"));
    assert_eq!(Err(BencodeError::MalformedStringLength), decode(b"00:"));
    assert_eq!(Err(BencodeError::MalformedStringLength), decode(b"l01:xe"));
}

#[test]
fn malformed_integers_inside_containers() {
    assert_eq!(Err(BencodeError::MalformedInteger), decode(b"li-0ee"));
    assert_eq!(Err(BencodeError::MalformedInteger), decode(b"d1:ai01ee"));
    assert_eq!(Err(BencodeError::MalformedInteger), decode(b"i1-2e"));
    assert_eq!(Err(BencodeError::MalformedInteger), decode(b"i--5e"));
    assert_eq!(Err(BencodeError::MalformedInteger), decode(b"i-e"));
}
