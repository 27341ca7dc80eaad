//! The Bencode wire grammar, as specification functions.
//!
//! `spec_parse` is the ground truth for the decoder: a recursive-descent
//! parser over a byte sequence, reading one value starting at a position and
//! returning the value and the position one past it, or the error the
//! grammar assigns to the input. `spec_encode` is the ground truth for the
//! encoder: the canonical byte sequence of a value. The executable code in
//! `decoder` and `encoder` is proved to return exactly what these say;
//! `laws` proves that they are inverse to one another.

use vstd::prelude::*;

use crate::text::is_utf8;
use crate::types::BValue;
use crate::types::BencodeError;

verus! {

/// Opens a dictionary (`d`).
pub const TAG_DICT: u8 = 100;

/// Ends a dictionary, list or integer (`e`).
pub const TAG_END: u8 = 101;

/// Opens an integer (`i`).
pub const TAG_INT: u8 = 105;

/// Opens a list (`l`).
pub const TAG_LIST: u8 = 108;

/// Separates a string's length prefix from its payload (`:`).
pub const SEP_COLON: u8 = 58;

/// A minus sign (`-`).
pub const DASH: u8 = 45;

/// The digit `0`.
pub const DIGIT_0: u8 = 48;

/// The digit `9`.
pub const DIGIT_9: u8 = 57;

/// An ASCII decimal digit.
pub open spec fn is_ascii_digit(b: u8) -> bool {
    DIGIT_0 <= b <= DIGIT_9
}

/// Every byte of `s` is an ASCII decimal digit.
pub open spec fn all_digits(s: Seq<u8>) -> bool {
    forall|i: int| 0 <= i < s.len() ==> is_ascii_digit(#[trigger] s[i])
}

/// The number denoted by a string of decimal digits (most significant
/// first).
pub open spec fn dec_val(s: Seq<u8>) -> int
    decreases s.len(),
{
    if s.len() == 0 {
        0
    } else {
        dec_val(s.drop_last()) * 10 + (s.last() - DIGIT_0)
    }
}

/// The canonical decimal digits of `n >= 0`: no sign, no leading zeros, a
/// bare `0` for zero.
pub open spec fn dec_digits(n: int) -> Seq<u8>
    decreases n,
{
    if n < 10 {
        seq![(DIGIT_0 + if n >= 0 { n } else { 0 }) as u8]
    } else {
        dec_digits(n / 10).push((DIGIT_0 + n % 10) as u8)
    }
}

/// The canonical decimal form of a signed integer: `-` exactly for strictly
/// negative values, then the digits of the magnitude.
pub open spec fn int_digits(n: int) -> Seq<u8> {
    if n < 0 {
        seq![DASH] + dec_digits(-n)
    } else {
        dec_digits(n)
    }
}

/// What a digit span parses to as a signed 64-bit integer: an optional
/// single leading `-`, then one or more digits, the value in `i64` range.
/// `None` on any other shape, including magnitude overflow.
pub open spec fn spec_parse_i64(s: Seq<u8>) -> Option<int> {
    if s.len() >= 2 && s[0] == DASH && all_digits(s.skip(1)) && -dec_val(s.skip(1)) >= i64::MIN {
        Some(-dec_val(s.skip(1)))
    } else if s.len() >= 1 && all_digits(s) && dec_val(s) <= i64::MAX {
        Some(dec_val(s))
    } else {
        None
    }
}

/// The canonical encoding of a byte string: decimal length, `:`, payload.
pub open spec fn enc_str(b: Seq<u8>) -> Seq<u8> {
    dec_digits(b.len() as int) + seq![SEP_COLON] + b
}

/// The canonical encoding of a value.
pub open spec fn spec_encode(v: BValue) -> Seq<u8>
    decreases v, 0int,
{
    match v {
        BValue::Str(b) => enc_str(b),
        BValue::Int(i) => seq![TAG_INT] + int_digits(i) + seq![TAG_END],
        BValue::List(items) => seq![TAG_LIST] + encode_items(items) + seq![TAG_END],
        BValue::Dict(pairs) => seq![TAG_DICT] + encode_pairs(pairs) + seq![TAG_END],
    }
}

/// The concatenated encodings of a sequence of values, in order.
pub open spec fn encode_items(items: Seq<BValue>) -> Seq<u8>
    decreases items, 1int,
{
    if items.len() == 0 {
        Seq::empty()
    } else {
        spec_encode(items[0]) + encode_items(items.drop_first())
    }
}

/// The concatenated encodings of a sequence of key/value pairs, in order:
/// each key as a byte string, then its value.
pub open spec fn encode_pairs(pairs: Seq<(Seq<u8>, BValue)>) -> Seq<u8>
    decreases pairs, 1int,
{
    if pairs.len() == 0 {
        Seq::empty()
    } else {
        enc_str(pairs[0].0) + spec_encode(pairs[0].1) + encode_pairs(pairs.drop_first())
    }
}

/// Element encoding distributes over concatenation.
pub proof fn lemma_encode_items_cat(a: Seq<BValue>, b: Seq<BValue>)
    ensures
        encode_items(a + b) == encode_items(a) + encode_items(b),
    decreases a.len(),
{
    if a.len() == 0 {
        assert(a + b =~= b);
        assert(encode_items(a) == Seq::<u8>::empty());
        assert(Seq::<u8>::empty() + encode_items(b) =~= encode_items(b));
    } else {
        assert((a + b)[0] == a[0]);
        assert((a + b).drop_first() =~= a.drop_first() + b);
        lemma_encode_items_cat(a.drop_first(), b);
        assert(spec_encode(a[0]) + (encode_items(a.drop_first()) + encode_items(b)) =~= (
        spec_encode(a[0]) + encode_items(a.drop_first())) + encode_items(b));
    }
}

/// Pair encoding distributes over concatenation.
pub proof fn lemma_encode_pairs_cat(a: Seq<(Seq<u8>, BValue)>, b: Seq<(Seq<u8>, BValue)>)
    ensures
        encode_pairs(a + b) == encode_pairs(a) + encode_pairs(b),
    decreases a.len(),
{
    if a.len() == 0 {
        assert(a + b =~= b);
        assert(encode_pairs(a) == Seq::<u8>::empty());
        assert(Seq::<u8>::empty() + encode_pairs(b) =~= encode_pairs(b));
    } else {
        assert((a + b)[0] == a[0]);
        assert((a + b).drop_first() =~= a.drop_first() + b);
        lemma_encode_pairs_cat(a.drop_first(), b);
        assert((enc_str(a[0].0) + spec_encode(a[0].1)) + (encode_pairs(a.drop_first())
            + encode_pairs(b)) =~= ((enc_str(a[0].0) + spec_encode(a[0].1)) + encode_pairs(
            a.drop_first(),
        )) + encode_pairs(b));
        assert(enc_str(a[0].0) + spec_encode(a[0].1) + encode_pairs(a.drop_first() + b)
            =~= (enc_str(a[0].0) + spec_encode(a[0].1)) + (encode_pairs(a.drop_first())
            + encode_pairs(b)));
        assert(encode_pairs(a) + encode_pairs(b) =~= ((enc_str(a[0].0) + spec_encode(a[0].1))
            + encode_pairs(a.drop_first())) + encode_pairs(b));
    }
}

/// A well-formed value: every dictionary key is valid text and every
/// integer fits a signed 64-bit integer. Exactly the values the decoder can
/// produce.
pub open spec fn wf_bval(v: BValue) -> bool
    decreases v,
{
    match v {
        BValue::Str(_) => true,
        BValue::Int(i) => i64::MIN <= i <= i64::MAX,
        BValue::List(items) => forall|k: int|
            0 <= k < items.len() ==> wf_bval(#[trigger] items[k]),
        BValue::Dict(pairs) => forall|k: int|
            0 <= k < pairs.len() ==> is_utf8((#[trigger] pairs[k]).0) && wf_bval(pairs[k].1),
    }
}

/// The value of a digit string is nonnegative.
pub proof fn lemma_dec_val_nonneg(s: Seq<u8>)
    requires
        all_digits(s),
    ensures
        dec_val(s) >= 0,
    decreases s.len(),
{
    if s.len() > 0 {
        assert forall|i: int| 0 <= i < s.drop_last().len() implies is_ascii_digit(
            #[trigger] s.drop_last()[i],
        ) by {
            assert(s.drop_last()[i] == s[i]);
        }
        lemma_dec_val_nonneg(s.drop_last());
        assert(is_ascii_digit(s[s.len() - 1]));
    }
}

/// A prefix of a digit string denotes at most what the whole denotes.
pub proof fn lemma_dec_val_prefix(s: Seq<u8>, k: int)
    requires
        0 <= k <= s.len(),
        all_digits(s),
    ensures
        dec_val(s.subrange(0, k)) <= dec_val(s),
    decreases s.len() - k,
{
    if k == s.len() {
        assert(s.subrange(0, k) =~= s);
    } else {
        lemma_dec_val_prefix(s, k + 1);
        assert(s.subrange(0, k + 1).drop_last() =~= s.subrange(0, k));
        assert(s.subrange(0, k + 1).last() == s[k]);
        assert forall|i: int| 0 <= i < k implies is_ascii_digit(
            #[trigger] s.subrange(0, k)[i],
        ) by {
            assert(s.subrange(0, k)[i] == s[i]);
        }
        lemma_dec_val_nonneg(s.subrange(0, k));
        assert(is_ascii_digit(s[k]));
        assert(dec_val(s.subrange(0, k + 1)) == dec_val(s.subrange(0, k)) * 10 + (s[k]
            - DIGIT_0));
    }
}

/// The canonical digits of `n` are digits, nonempty, start with `0` only
/// for zero itself, and denote `n`.
pub proof fn lemma_dec_digits(n: int)
    requires
        n >= 0,
    ensures
        dec_digits(n).len() >= 1,
        all_digits(dec_digits(n)),
        dec_val(dec_digits(n)) == n,
        n >= 1 ==> dec_digits(n)[0] != DIGIT_0,
    decreases n,
{
    if n < 10 {
        let d = (DIGIT_0 + n) as u8;
        assert(d == DIGIT_0 + n);
        assert(seq![d].drop_last() =~= Seq::<u8>::empty());
        assert(dec_val(Seq::<u8>::empty()) == 0);
        assert(seq![d].last() == d);
        assert(dec_val(seq![d]) == n);
    } else {
        lemma_dec_digits(n / 10);
        let d = (DIGIT_0 + n % 10) as u8;
        assert(dec_digits(n).drop_last() =~= dec_digits(n / 10));
        assert(dec_val(dec_digits(n)) == dec_val(dec_digits(n / 10)) * 10 + (d - DIGIT_0));
        assert(dec_digits(n)[0] == dec_digits(n / 10)[0]);
        assert forall|i: int| 0 <= i < dec_digits(n).len() implies is_ascii_digit(
            #[trigger] dec_digits(n)[i],
        ) by {
            if i < dec_digits(n).len() - 1 {
                assert(dec_digits(n)[i] == dec_digits(n / 10)[i]);
            }
        }
    }
}

/// The scan of an integer body. `start` is the position right after the
/// opening `i`; `j` is the current position. Each byte is checked before it
/// is accepted: a bare terminator ends no integer, a `-` directly before a
/// `0` is negative zero, and a leading `0` must be the whole body. At the
/// terminator the accumulated span must parse as a signed 64-bit integer.
pub open spec fn scan_int(s: Seq<u8>, start: int, j: int) -> Result<(int, int), BencodeError>
    decreases s.len() - j, 0int,
{
    if j >= s.len() {
        Err(BencodeError::UnexpectedEnd)
    } else if j == start && s[j] == TAG_END {
        Err(BencodeError::UnexpectedTerminator)
    } else if s[j] == TAG_END {
        match spec_parse_i64(s.subrange(start, j)) {
            Some(n) => Ok((n, j + 1)),
            None => Err(BencodeError::MalformedInteger),
        }
    } else if s[j] == DASH && j + 1 < s.len() && s[j + 1] == DIGIT_0 {
        Err(BencodeError::MalformedInteger)
    } else if j == start && s[j] == DIGIT_0 && j + 1 < s.len() && s[j + 1] != TAG_END {
        Err(BencodeError::MalformedInteger)
    } else {
        scan_int(s, start, j + 1)
    }
}

/// The scan of a string: a length prefix from `start`, with `j` the current
/// position, then the payload. A digit span ending in `:` gives the length;
/// a leading `0` must be the whole span (the empty string); any other byte
/// before the separator is malformed. The payload is the declared number of
/// bytes, verbatim; fewer available is an unexpected end.
pub open spec fn scan_str(s: Seq<u8>, start: int, j: int) -> Result<(Seq<u8>, int), BencodeError>
    decreases s.len() - j, 0int,
{
    if j >= s.len() {
        Err(BencodeError::UnexpectedEnd)
    } else if s[j] == SEP_COLON {
        if j == start {
            Err(BencodeError::MalformedStringLength)
        } else {
            let len = dec_val(s.subrange(start, j));
            if j + 1 + len <= s.len() {
                Ok((s.subrange(j + 1, j + 1 + len), j + 1 + len))
            } else {
                Err(BencodeError::UnexpectedEnd)
            }
        }
    } else if is_ascii_digit(s[j]) {
        if j == start && s[j] == DIGIT_0 {
            if j + 1 >= s.len() {
                Err(BencodeError::UnexpectedEnd)
            } else if s[j + 1] == SEP_COLON {
                Ok((Seq::empty(), j + 2))
            } else {
                Err(BencodeError::MalformedStringLength)
            }
        } else {
            scan_str(s, start, j + 1)
        }
    } else {
        Err(BencodeError::MalformedStringLength)
    }
}

/// One value parsed from `s` at position `j`: dispatch on the first byte.
pub open spec fn spec_parse(s: Seq<u8>, j: int) -> Result<(BValue, int), BencodeError>
    decreases s.len() - j, 1int,
{
    if j >= s.len() {
        Err(BencodeError::UnexpectedEnd)
    } else if s[j] == TAG_DICT {
        spec_dict(s, j)
    } else if s[j] == TAG_INT {
        match scan_int(s, j + 1, j + 1) {
            Ok((n, end)) => Ok((BValue::Int(n), end)),
            Err(e) => Err(e),
        }
    } else if s[j] == TAG_LIST {
        match list_items(s, j + 1) {
            Ok((items, end)) => Ok((BValue::List(items), end)),
            Err(e) => Err(e),
        }
    } else if is_ascii_digit(s[j]) {
        match scan_str(s, j, j) {
            Ok((b, end)) => Ok((BValue::Str(b), end)),
            Err(e) => Err(e),
        }
    } else if s[j] == TAG_END {
        Err(BencodeError::UnexpectedTerminator)
    } else {
        Err(BencodeError::UnknownTag(s[j]))
    }
}

/// A dictionary parsed from its opening `d` at `j`: empty if the next byte
/// is the terminator, else its pairs.
pub open spec fn spec_dict(s: Seq<u8>, j: int) -> Result<(BValue, int), BencodeError>
    decreases s.len() - j, 0int,
{
    if j + 1 >= s.len() {
        Err(BencodeError::UnexpectedEnd)
    } else if s[j + 1] == TAG_END {
        Ok((BValue::Dict(Seq::empty()), j + 2))
    } else {
        match dict_items(s, j + 1) {
            Ok((pairs, end)) => Ok((BValue::Dict(pairs), end)),
            Err(e) => Err(e),
        }
    }
}

/// The elements of a list from `j` up to and including the terminator.
pub open spec fn list_items(s: Seq<u8>, j: int) -> Result<(Seq<BValue>, int), BencodeError>
    decreases s.len() - j, 2int,
{
    if j >= s.len() {
        Err(BencodeError::UnexpectedEnd)
    } else if s[j] == TAG_END {
        Ok((Seq::empty(), j + 1))
    } else {
        match spec_parse(s, j) {
            Ok((v, end)) => if j < end && end <= s.len() {
                match list_items(s, end) {
                    Ok((rest, end2)) => Ok((seq![v] + rest, end2)),
                    Err(e) => Err(e),
                }
            } else {
                Err(BencodeError::UnexpectedEnd)
            },
            Err(e) => Err(e),
        }
    }
}

/// One or more key/value pairs from `j` up to and including the terminator.
/// The key is read as a string and must be valid text; after each pair the
/// terminator ends the dictionary, and anything else starts the next key.
pub open spec fn dict_items(s: Seq<u8>, j: int) -> Result<
    (Seq<(Seq<u8>, BValue)>, int),
    BencodeError,
>
    decreases s.len() - j, 2int,
{
    if j >= s.len() {
        Err(BencodeError::UnexpectedEnd)
    } else {
        match scan_str(s, j, j) {
            Ok((kb, kend)) => if !is_utf8(kb) {
                Err(BencodeError::DictKeyNotText)
            } else if j < kend && kend <= s.len() {
                match spec_parse(s, kend) {
                    Ok((v, vend)) => if kend < vend && vend <= s.len() {
                        if vend == s.len() {
                            Err(BencodeError::UnexpectedEnd)
                        } else if s[vend] == TAG_END {
                            Ok((seq![(kb, v)], vend + 1))
                        } else {
                            match dict_items(s, vend) {
                                Ok((rest, end2)) => Ok((seq![(kb, v)] + rest, end2)),
                                Err(e) => Err(e),
                            }
                        }
                    } else {
                        Err(BencodeError::UnexpectedEnd)
                    },
                    Err(e) => Err(e),
                }
            } else {
                Err(BencodeError::UnexpectedEnd)
            },
            Err(e) => Err(e),
        }
    }
}

} // verus!
