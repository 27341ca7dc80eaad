//! The executable encoder: the canonical byte form of a value.
//!
//! Every function is proved to produce exactly the byte sequence that
//! `grammar::spec_encode` assigns to the value's model. Encoding cannot
//! fail: every representable value has a canonical form.

use vstd::prelude::*;

use crate::grammar::dec_digits;
use crate::grammar::enc_str;
use crate::grammar::encode_items;
use crate::grammar::encode_pairs;
use crate::grammar::int_digits;
use crate::grammar::lemma_encode_items_cat;
use crate::grammar::lemma_encode_pairs_cat;
use crate::grammar::spec_encode;
use crate::grammar::DASH;
use crate::grammar::DIGIT_0;
use crate::grammar::SEP_COLON;
use crate::grammar::TAG_DICT;
use crate::grammar::TAG_END;
use crate::grammar::TAG_INT;
use crate::grammar::TAG_LIST;
use crate::types::items_view;
use crate::types::BValue;
use crate::types::lemma_items_view;
use crate::types::lemma_pairs_view;
use crate::types::pairs_view;
use crate::types::BencodeItem;
use crate::types::ByteString;

verus! {

/// Conversion to the canonical Bencode byte form.
pub trait AsBencodeBytes {
    /// The byte sequence the value encodes to.
    spec fn bencoding(&self) -> Seq<u8>;

    /// Encodes the value, consuming it.
    fn as_bytes(self) -> (r: Vec<u8>)
        ensures
            r@ == self.bencoding(),
    ;
}

impl AsBencodeBytes for BencodeItem {
    open spec fn bencoding(&self) -> Seq<u8> {
        spec_encode((*self)@)
    }

    fn as_bytes(self) -> (r: Vec<u8>) {
        encode_item(&self)
    }
}

/// The canonical digits of `n`, as bytes.
fn usize_digits(n: usize) -> (r: Vec<u8>)
    ensures
        r@ == dec_digits(n as int),
    decreases n,
{
    if n < 10 {
        let mut out: Vec<u8> = Vec::new();
        out.push(DIGIT_0 + (n as u8));
        proof {
            assert(out@ =~= dec_digits(n as int));
        }
        out
    } else {
        let mut out = usize_digits(n / 10);
        out.push(DIGIT_0 + ((n % 10) as u8));
        proof {
            assert(out@ =~= dec_digits(n as int));
        }
        out
    }
}

/// The canonical digits of `n`, as bytes.
fn u64_digits(n: u64) -> (r: Vec<u8>)
    ensures
        r@ == dec_digits(n as int),
    decreases n,
{
    if n < 10 {
        let mut out: Vec<u8> = Vec::new();
        out.push(DIGIT_0 + (n as u8));
        proof {
            assert(out@ =~= dec_digits(n as int));
        }
        out
    } else {
        let mut out = u64_digits(n / 10);
        out.push(DIGIT_0 + ((n % 10) as u8));
        proof {
            assert(out@ =~= dec_digits(n as int));
        }
        out
    }
}

/// Encodes raw bytes as a string construct: decimal length, separator,
/// payload verbatim.
fn encode_bytes(b: &Vec<u8>) -> (r: Vec<u8>)
    ensures
        r@ == enc_str(b@),
{
    let mut out = usize_digits(b.len());
    out.push(SEP_COLON);
    out.extend_from_slice(b.as_slice());
    proof {
        assert(out@ =~= enc_str(b@));
    }
    out
}

/// Encodes a byte string value.
fn encode_string(s: &ByteString) -> (r: Vec<u8>)
    ensures
        r@ == enc_str(s@),
{
    encode_bytes(&s.bytes)
}

/// Encodes an integer value: `i`, canonical signed decimal, `e`.
fn encode_int(i: i64) -> (r: Vec<u8>)
    ensures
        r@ == seq![TAG_INT] + int_digits(i as int) + seq![TAG_END],
{
    let mut out: Vec<u8> = Vec::new();
    out.push(TAG_INT);
    let mag: u64 = if i < 0 {
        (-(i + 1)) as u64 + 1
    } else {
        i as u64
    };
    if i < 0 {
        out.push(DASH);
    }
    proof {
        if i < 0 {
            assert(mag as int == -(i as int));
        }
    }
    let mut digs = u64_digits(mag);
    out.append(&mut digs);
    out.push(TAG_END);
    proof {
        assert(out@ =~= seq![TAG_INT] + int_digits(i as int) + seq![TAG_END]);
    }
    out
}

/// Encodes one value, dispatching on its variant.
fn encode_item(v: &BencodeItem) -> (r: Vec<u8>)
    ensures
        r@ == spec_encode(v@),
    decreases v, 0int,
{
    match v {
        BencodeItem::String(bs) => encode_string(bs),
        BencodeItem::Int(i) => encode_int(*i),
        BencodeItem::List(l) => encode_list(l),
        BencodeItem::Dict(d) => encode_dict(d),
    }
}

/// Encodes a list value: `l`, each element's encoding in order, `e`.
fn encode_list(l: &Vec<BencodeItem>) -> (r: Vec<u8>)
    ensures
        r@ == seq![TAG_LIST] + encode_items(items_view(l@)) + seq![TAG_END],
    decreases l, 1int,
{
    let mut out: Vec<u8> = Vec::new();
    out.push(TAG_LIST);
    proof {
        lemma_items_view(l@);
        assert(items_view(l@).take(0) =~= Seq::<BValue>::empty());
        assert(out@ =~= seq![TAG_LIST] + encode_items(items_view(l@).take(0)));
    }
    let mut k: usize = 0;
    while k < l.len()
        invariant
            k <= l@.len(),
            items_view(l@).len() == l@.len(),
            forall|i: int| 0 <= i < l@.len() ==> items_view(l@)[i] == (#[trigger] l@[i])@,
            out@ == seq![TAG_LIST] + encode_items(items_view(l@).take(k as int)),
        decreases l@.len() - k,
    {
        let mut e = encode_item(&l[k]);
        let ghost before = items_view(l@).take(k as int);
        out.append(&mut e);
        proof {
            assert(items_view(l@).take(k + 1) =~= before + seq![items_view(l@)[k as int]]);
            lemma_encode_items_cat(before, seq![items_view(l@)[k as int]]);
            assert(seq![items_view(l@)[k as int]].drop_first() =~= Seq::<BValue>::empty());
            assert(seq![items_view(l@)[k as int]][0] == items_view(l@)[k as int]);
            assert(encode_items(Seq::<BValue>::empty()) == Seq::<u8>::empty());
            assert(encode_items(seq![items_view(l@)[k as int]]) =~= spec_encode(
                items_view(l@)[k as int],
            ));
            assert(out@ =~= seq![TAG_LIST] + encode_items(items_view(l@).take(k + 1)));
        }
        k = k + 1;
    }
    out.push(TAG_END);
    proof {
        assert(items_view(l@).take(l@.len() as int) =~= items_view(l@));
        assert(out@ =~= seq![TAG_LIST] + encode_items(items_view(l@)) + seq![TAG_END]);
    }
    out
}

/// Encodes a dictionary value: `d`, then for each pair the key as a string
/// construct followed by the value's encoding, in stored order, then `e`.
/// Nothing is sorted and nothing is deduplicated.
fn encode_dict(d: &Vec<(crate::types::DictKey, BencodeItem)>) -> (r: Vec<u8>)
    ensures
        r@ == seq![TAG_DICT] + encode_pairs(pairs_view(d@)) + seq![TAG_END],
    decreases d, 1int,
{
    let mut out: Vec<u8> = Vec::new();
    out.push(TAG_DICT);
    proof {
        lemma_pairs_view(d@);
        assert(pairs_view(d@).take(0) =~= Seq::<(Seq<u8>, BValue)>::empty());
        assert(out@ =~= seq![TAG_DICT] + encode_pairs(pairs_view(d@).take(0)));
    }
    let mut k: usize = 0;
    while k < d.len()
        invariant
            k <= d@.len(),
            pairs_view(d@).len() == d@.len(),
            forall|i: int| 0 <= i < d@.len() ==> pairs_view(d@)[i] == ((#[trigger] d@[i]).0@,
            (d@[i].1)@),
            out@ == seq![TAG_DICT] + encode_pairs(pairs_view(d@).take(k as int)),
        decreases d@.len() - k,
    {
        let pair = &d[k];
        let mut ek = encode_bytes(pair.0.bytes());
        out.append(&mut ek);
        let mut ev = encode_item(&pair.1);
        let ghost before = pairs_view(d@).take(k as int);
        out.append(&mut ev);
        proof {
            assert(pairs_view(d@).take(k + 1) =~= before + seq![pairs_view(d@)[k as int]]);
            lemma_encode_pairs_cat(before, seq![pairs_view(d@)[k as int]]);
            assert(seq![pairs_view(d@)[k as int]].drop_first() =~= Seq::<
                (Seq<u8>, BValue),
            >::empty());
            assert(seq![pairs_view(d@)[k as int]][0] == pairs_view(d@)[k as int]);
            assert(encode_pairs(Seq::<(Seq<u8>, BValue)>::empty()) == Seq::<u8>::empty());
            assert(encode_pairs(seq![pairs_view(d@)[k as int]]) =~= enc_str(
                pairs_view(d@)[k as int].0,
            ) + spec_encode(pairs_view(d@)[k as int].1));
            assert(out@ =~= seq![TAG_DICT] + encode_pairs(pairs_view(d@).take(k + 1)));
        }
        k = k + 1;
    }
    out.push(TAG_END);
    proof {
        assert(pairs_view(d@).take(d@.len() as int) =~= pairs_view(d@));
        assert(out@ =~= seq![TAG_DICT] + encode_pairs(pairs_view(d@)) + seq![TAG_END]);
    }
    out
}

} // verus!
