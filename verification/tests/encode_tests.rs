use bencode::AsBencodeBytes;
use bencode::BencodeItem;
use bencode::ByteString;
use bencode::DictKey;

fn bencode_string(s: &str) -> ByteString {
    ByteString::new(s.as_bytes().to_vec())
}

fn key(s: &str) -> DictKey {
    DictKey::new(s.as_bytes().to_vec()).unwrap()
}

#[test]
fn read_dict() {
    assert_eq!(vec![0x64, 0x65], BencodeItem::Dict(vec![]).as_bytes());

    assert_eq!(
        vec![
            0x64, 0x35, 0x3A, 0x48, 0x65, 0x6C, 0x6C, 0x6F, 0x35, 0x3A, 0x57, 0x6F, 0x72, 0x6C,
            0x64, 0x35, 0x3A, 0x57, 0x6F, 0x72, 0x6C, 0x64, 0x35, 0x3A, 0x48, 0x65, 0x6C, 0x6C,
            0x6F, 0x65,
        ],
        BencodeItem::Dict(vec![
            (
                key("Hello"),
                BencodeItem::String(bencode_string("World"))
            ),
            (
                key("World"),
                BencodeItem::String(bencode_string("Hello"))
            ),
        ])
        .as_bytes()
    );

    assert_eq!(
        vec![
            0x64, 0x35, 0x3A, 0x48, 0x65, 0x6C, 0x6C, 0x6F, 0x69, 0x31, 0x32, 0x33, 0x65, 0x65,
        ],
        BencodeItem::Dict(vec![(key("Hello"), BencodeItem::Int(123))]).as_bytes()
    );
}

#[test]
fn read_list() {
    assert_eq!(vec![0x6C, 0x65], BencodeItem::List(vec![]).as_bytes());
    assert_eq!(
        vec![0x6C, 0x6C, 0x65, 0x65],
        BencodeItem::List(vec![BencodeItem::List(vec![])]).as_bytes()
    );
    assert_eq!(
        vec![0x6C, 0x35, 0x3A, 0x48, 0x65, 0x6C, 0x6C, 0x6F, 0x65],
        BencodeItem::List(vec![BencodeItem::String(bencode_string("Hello"))]).as_bytes()
    );
    assert_eq!(
        vec![
            0x6C, 0x30, 0x3A, 0x69, 0x31, 0x33, 0x33, 0x37, 0x65, 0x35, 0x3A, 0x48, 0x65, 0x6C,
            0x6C, 0x6F, 0x65,
        ],
        BencodeItem::List(vec![
            BencodeItem::String(bencode_string("")),
            BencodeItem::Int(1337),
            BencodeItem::String(bencode_string("Hello")),
        ])
        .as_bytes()
    );
}

#[test]
fn read_string() {
    assert_eq!(
        vec![0x35, 0x3A, 0x48, 0x65, 0x6C, 0x6C, 0x6F],
        BencodeItem::String(bencode_string("Hello")).as_bytes()
    );
    assert_eq!(
        vec![
            0x31, 0x31, 0x3A, 0x48, 0x65, 0x6C, 0x6C, 0x6F, 0x20, 0x57, 0x6F, 0x72, 0x6C, 0x64,
        ],
        BencodeItem::String(bencode_string("Hello World")).as_bytes()
    );
    assert_eq!(
        vec![0x30, 0x3A],
        BencodeItem::String(bencode_string("")).as_bytes()
    );
    assert_eq!(
        vec![0x31, 0x3A, 0x78],
        BencodeItem::String(bencode_string("x")).as_bytes()
    );
    assert_eq!(
        vec![0x31, 0x3A, 0x8A],
        BencodeItem::String(ByteString::new(vec![0x8A])).as_bytes()
    );
}

#[test]
fn read_int() {
    assert_eq!(
        vec![0x69, 0x31, 0x33, 0x33, 0x37, 0x65],
        BencodeItem::Int(1337).as_bytes()
    );
    assert_eq!(vec![0x69, 0x37, 0x65], BencodeItem::Int(7).as_bytes());
    assert_eq!(
        vec![0x69, 0x31, 0x36, 0x36, 0x33, 0x30, 0x32, 0x34, 0x32, 0x39, 0x33, 0x65],
        BencodeItem::Int(1663024293).as_bytes()
    );
    assert_eq!(vec![0x69, 0x2D, 0x37, 0x65], BencodeItem::Int(-7).as_bytes());
    assert_eq!(vec![0x69, 0x30, 0x65], BencodeItem::Int(0).as_bytes());
}

#[test]
fn encode_integer_extremes() {
    assert_eq!(
        b"i9223372036854775807e".to_vec(),
        BencodeItem::Int(i64::MAX).as_bytes()
    );
    assert_eq!(
        b"i-9223372036854775808e".to_vec(),
        BencodeItem::Int(i64::MIN).as_bytes()
    );
}

#[test]
fn encode_preserves_pair_order() {
    let v = BencodeItem::Dict(vec![
        (key("b"), BencodeItem::Int(2)),
        (key("a"), BencodeItem::Int(1)),
        (key("a"), BencodeItem::Int(3)),
    ]);
    assert_eq!(b"d1:bi2e1:ai1e1:ai3ee".to_vec(), v.as_bytes());
}
