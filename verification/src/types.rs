//! The Bencode value model and its error taxonomy.
//!
//! `BencodeItem` is the executable value tree; `BValue` is its
//! specification-level counterpart, with byte sequences and unbounded
//! integers, reached through the view functions below. Contracts throughout
//! the crate speak of `BValue`.

use vstd::prelude::*;

use crate::text::is_utf8;

verus! {

/// Why a decode (or a read handed to the decoder) failed. Every failure is
/// returned as a value; no failure is a panic.
#[derive(Debug, PartialEq, Eq)]
pub enum BencodeError {
    /// Acquiring the raw bytes from an external source failed; carries a
    /// diagnostic message. Never produced by the decoder itself.
    SourceReadFailed(String),
    /// The input ended while a construct was still expected to continue.
    UnexpectedEnd,
    /// A byte that opens no construct appeared where a value was expected;
    /// carries the offending byte.
    UnknownTag(u8),
    /// An end-of-construct marker appeared where a value was expected.
    UnexpectedTerminator,
    /// An integer body failed validation or did not fit a signed 64-bit
    /// integer.
    MalformedInteger,
    /// A string's length prefix was invalid.
    MalformedStringLength,
    /// A dictionary key's raw bytes were not valid text.
    DictKeyNotText,
}

/// An arbitrary sequence of raw bytes, the payload of a Bencode string.
/// Equality is byte-exact; the bytes need not be valid text.
#[derive(Debug, PartialEq, Eq)]
pub struct ByteString {
    pub bytes: Vec<u8>,
}

impl View for ByteString {
    type V = Seq<u8>;

    open spec fn view(&self) -> Seq<u8> {
        self.bytes@
    }
}

impl ByteString {
    pub fn new(bytes: Vec<u8>) -> (r: ByteString)
        ensures
            r@ == bytes@,
    {
        ByteString { bytes }
    }
}

/// A dictionary key: a byte sequence that is valid text. The field is
/// private and every constructor validates, so a key whose bytes are not
/// valid text cannot be built.
#[derive(Debug, PartialEq, Eq)]
pub struct DictKey {
    bytes: Vec<u8>,
}

impl View for DictKey {
    type V = Seq<u8>;

    closed spec fn view(&self) -> Seq<u8> {
        self.bytes@
    }
}

impl DictKey {
    /// Builds a key from raw bytes; `None` exactly when they are not valid
    /// text.
    pub fn new(bytes: Vec<u8>) -> (r: Option<DictKey>)
        ensures
            match r {
                Some(k) => is_utf8(bytes@) && k@ == bytes@,
                None => !is_utf8(bytes@),
            },
    {
        if crate::text::is_valid_text(bytes.as_slice()) {
            Some(DictKey { bytes })
        } else {
            None
        }
    }

    /// Builds a key from bytes already known to be valid text.
    pub(crate) fn from_valid(bytes: Vec<u8>) -> (r: DictKey)
        requires
            is_utf8(bytes@),
        ensures
            r@ == bytes@,
    {
        DictKey { bytes }
    }

    /// The key's bytes.
    pub fn bytes(&self) -> (r: &Vec<u8>)
        ensures
            r@ == self@,
    {
        &self.bytes
    }
}

/// A decoded Bencode value: a byte string, a signed 64-bit integer, an
/// ordered list of values, or an ordered sequence of key/value pairs.
#[derive(Debug, PartialEq, Eq)]
pub enum BencodeItem {
    String(ByteString),
    Int(i64),
    List(Vec<BencodeItem>),
    Dict(Vec<(DictKey, BencodeItem)>),
}

/// The specification-level value tree.
pub enum BValue {
    Str(Seq<u8>),
    Int(int),
    List(Seq<BValue>),
    Dict(Seq<(Seq<u8>, BValue)>),
}

/// The model of an executable value.
pub open spec fn item_view(v: BencodeItem) -> BValue
    decreases v, 0int,
{
    match v {
        BencodeItem::String(bs) => BValue::Str(bs@),
        BencodeItem::Int(i) => BValue::Int(i as int),
        BencodeItem::List(l) => BValue::List(items_view(l@)),
        BencodeItem::Dict(d) => BValue::Dict(pairs_view(d@)),
    }
}

/// The models of a sequence of values, elementwise.
pub open spec fn items_view(s: Seq<BencodeItem>) -> Seq<BValue>
    decreases s, 1int,
{
    if s.len() == 0 {
        Seq::empty()
    } else {
        items_view(s.drop_last()).push(item_view(s.last()))
    }
}

/// The models of a sequence of key/value pairs, elementwise.
pub open spec fn pairs_view(s: Seq<(DictKey, BencodeItem)>) -> Seq<(Seq<u8>, BValue)>
    decreases s, 1int,
{
    if s.len() == 0 {
        Seq::empty()
    } else {
        pairs_view(s.drop_last()).push((s.last().0@, item_view(s.last().1)))
    }
}

impl View for BencodeItem {
    type V = BValue;

    open spec fn view(&self) -> BValue {
        item_view(*self)
    }
}

/// `items_view` maps elementwise.
pub proof fn lemma_items_view(s: Seq<BencodeItem>)
    ensures
        items_view(s).len() == s.len(),
        forall|i: int| 0 <= i < s.len() ==> items_view(s)[i] == item_view(#[trigger] s[i]),
    decreases s.len(),
{
    if s.len() > 0 {
        lemma_items_view(s.drop_last());
        assert forall|i: int| 0 <= i < s.len() implies items_view(s)[i] == item_view(
            #[trigger] s[i],
        ) by {
            if i < s.len() - 1 {
                assert(s.drop_last()[i] == s[i]);
            }
        }
    }
}

/// `pairs_view` maps elementwise.
pub proof fn lemma_pairs_view(s: Seq<(DictKey, BencodeItem)>)
    ensures
        pairs_view(s).len() == s.len(),
        forall|i: int| 0 <= i < s.len() ==> pairs_view(s)[i] == ((#[trigger] s[i]).0@,
        item_view(s[i].1)),
    decreases s.len(),
{
    if s.len() > 0 {
        lemma_pairs_view(s.drop_last());
        assert forall|i: int| 0 <= i < s.len() implies pairs_view(s)[i] == ((#[trigger] s[i]).0@,
        item_view(s[i].1)) by {
            if i < s.len() - 1 {
                assert(s.drop_last()[i] == s[i]);
            }
        }
    }
}

} // verus!
