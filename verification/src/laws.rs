//! The theorems that tie the grammar together: the decoder and the encoder
//! are inverse to one another, every decoded value is well-formed, and the
//! grammar assigns the documented errors.

use vstd::prelude::*;

use crate::grammar::all_digits;
use crate::grammar::dec_digits;
use crate::grammar::dec_val;
use crate::grammar::dict_items;
use crate::grammar::enc_str;
use crate::grammar::encode_items;
use crate::grammar::encode_pairs;
use crate::grammar::int_digits;
use crate::grammar::is_ascii_digit;
use crate::grammar::lemma_dec_digits;
use crate::grammar::lemma_dec_val_nonneg;
use crate::grammar::list_items;
use crate::grammar::scan_int;
use crate::grammar::scan_str;
use crate::grammar::spec_dict;
use crate::grammar::spec_encode;
use crate::grammar::spec_parse;
use crate::grammar::spec_parse_i64;
use crate::grammar::wf_bval;
use crate::grammar::DASH;
use crate::grammar::DIGIT_0;
use crate::grammar::SEP_COLON;
use crate::grammar::TAG_DICT;
use crate::grammar::TAG_END;
use crate::grammar::TAG_INT;
use crate::grammar::TAG_LIST;
use crate::text::is_utf8;
use crate::types::BValue;
use crate::types::BencodeError;

verus! {

/// A subrange of a region known byte for byte is the matching subrange of
/// its content.
proof fn lemma_subrange_of_region(s: Seq<u8>, j: int, t: Seq<u8>, a: int, b: int)
    requires
        0 <= j,
        j + t.len() <= s.len(),
        s.subrange(j, j + t.len()) == t,
        0 <= a <= b <= t.len(),
    ensures
        s.subrange(j + a, j + b) == t.subrange(a, b),
{
    assert forall|i: int| 0 <= i < b - a implies s.subrange(j + a, j + b)[i] == t.subrange(
        a,
        b,
    )[i] by {
        assert(s.subrange(j + a, j + b)[i] == s[j + a + i]);
        assert(s.subrange(j, j + t.len())[a + i] == s[j + a + i]);
    }
    assert(s.subrange(j + a, j + b) =~= t.subrange(a, b));
}

/// One byte of a region known byte for byte.
proof fn lemma_index_of_region(s: Seq<u8>, j: int, t: Seq<u8>, a: int)
    requires
        0 <= j,
        j + t.len() <= s.len(),
        s.subrange(j, j + t.len()) == t,
        0 <= a < t.len(),
    ensures
        s[j + a] == t[a],
{
    assert(s.subrange(j, j + t.len())[a] == s[j + a]);
}

/// The canonical decimal form of an integer in range parses back to it.
proof fn lemma_parse_i64_canonical(i: int)
    requires
        i64::MIN <= i <= i64::MAX,
    ensures
        spec_parse_i64(int_digits(i)) == Some(i),
{
    if i < 0 {
        lemma_dec_digits(-i);
        let s = int_digits(i);
        assert(s.len() == 1 + dec_digits(-i).len());
        assert(s[0] == DASH);
        assert(s.skip(1) =~= dec_digits(-i));
        assert(all_digits(s.skip(1)));
        assert(dec_val(s.skip(1)) == -i);
    } else {
        lemma_dec_digits(i);
        let s = int_digits(i);
        assert(s == dec_digits(i));
        assert(!is_ascii_digit(DASH));
        assert(s[0] != DASH);
    }
}

/// Every encoding is at least two bytes and opens with a construct marker
/// or a digit; in particular it never opens with the terminator.
proof fn lemma_encode_shape(v: BValue)
    ensures
        spec_encode(v).len() >= 2,
        spec_encode(v)[0] == TAG_DICT || spec_encode(v)[0] == TAG_INT || spec_encode(v)[0]
            == TAG_LIST || is_ascii_digit(spec_encode(v)[0]),
        spec_encode(v)[0] != TAG_END,
        spec_encode(v)[0] != SEP_COLON,
{
    match v {
        BValue::Str(b) => {
            lemma_dec_digits(b.len() as int);
            let dd = dec_digits(b.len() as int);
            assert(spec_encode(v)[0] == dd[0]);
            assert(is_ascii_digit(dd[0]));
        },
        BValue::Int(i) => {
            assert(spec_encode(v)[0] == TAG_INT);
            if i < 0 {
                lemma_dec_digits(-i);
            } else {
                lemma_dec_digits(i);
            }
            assert(int_digits(i).len() >= 1);
        },
        BValue::List(items) => {
            assert(spec_encode(v)[0] == TAG_LIST);
        },
        BValue::Dict(pairs) => {
            assert(spec_encode(v)[0] == TAG_DICT);
        },
    }
}

/// Scanning an integer body over the canonical digits of `i`, with the
/// terminator right after them, accepts and yields `i`.
proof fn lemma_scan_int_run(s: Seq<u8>, start: int, epos: int, i: int, j: int)
    requires
        i64::MIN <= i <= i64::MAX,
        0 <= start <= j <= epos < s.len(),
        epos - start == int_digits(i).len(),
        s.subrange(start, epos) == int_digits(i),
        s[epos] == TAG_END,
    ensures
        scan_int(s, start, j) == Ok::<(int, int), BencodeError>((i, epos + 1)),
    decreases epos - j,
{
    let d = int_digits(i);
    if i < 0 {
        lemma_dec_digits(-i);
    } else {
        lemma_dec_digits(i);
    }
    if j == epos {
        assert(j != start);
        assert(s.subrange(start, j) == d);
        lemma_parse_i64_canonical(i);
    } else {
        lemma_index_of_region(s, start, d, j - start);
        let bj = d[j - start];
        if i < 0 {
            if j == start {
                assert(bj == DASH);
                lemma_index_of_region(s, start, d, 1);
                assert(s[j + 1] == dec_digits(-i)[0]);
                assert(dec_digits(-i)[0] != DIGIT_0);
            } else {
                assert(bj == dec_digits(-i)[j - start - 1]);
                assert(is_ascii_digit(bj));
            }
        } else {
            assert(bj == dec_digits(i)[j - start]);
            assert(is_ascii_digit(bj));
        }
        assert(bj != TAG_END);
        if s[j] == DASH && j + 1 < s.len() && s[j + 1] == DIGIT_0 {
            assert(i < 0 && j == start);
            assert(s[j + 1] == dec_digits(-i)[0]);
            assert(false);
        }
        if j == start && s[j] == DIGIT_0 {
            // Only zero itself opens with a zero digit, and then the next
            // byte is already the terminator.
            assert(i >= 0);
            assert(dec_digits(i)[0] == DIGIT_0);
            assert(i == 0);
            assert(d.len() == 1);
            assert(j + 1 == epos);
        }
        lemma_scan_int_run(s, start, epos, i, j + 1);
    }
}

/// Scanning a string over the canonical encoding of payload `b` accepts
/// and yields `b`. `j` may stand anywhere in the length prefix, at its
/// start for the empty payload.
proof fn lemma_scan_str_run(s: Seq<u8>, start: int, j: int, b: Seq<u8>)
    requires
        0 <= start <= j,
        j <= start + dec_digits(b.len() as int).len(),
        b.len() == 0 ==> j == start,
        start + enc_str(b).len() <= s.len(),
        s.subrange(start, start + enc_str(b).len()) == enc_str(b),
    ensures
        scan_str(s, start, j) == Ok::<(Seq<u8>, int), BencodeError>((
            b,
            start + enc_str(b).len(),
        )),
    decreases start + dec_digits(b.len() as int).len() - j,
{
    let e = enc_str(b);
    let dd = dec_digits(b.len() as int);
    lemma_dec_digits(b.len() as int);
    assert(e.len() == dd.len() + 1 + b.len());
    let cpos = start + dd.len();
    lemma_index_of_region(s, start, e, cpos - start);
    assert(e[cpos - start] == SEP_COLON);
    if b.len() == 0 {
        // The prefix is the single digit zero, directly before its
        // separator.
        assert(dd =~= seq![DIGIT_0]);
        lemma_index_of_region(s, start, e, 0);
        assert(s[start] == DIGIT_0);
        assert(s[start + 1] == SEP_COLON);
        assert(start + 1 < s.len());
        assert(b =~= Seq::<u8>::empty());
    } else {
        if j == cpos {
            assert(s[j] == SEP_COLON);
            assert(j != start);
            lemma_subrange_of_region(s, start, e, 0, dd.len() as int);
            assert(dd.subrange(0, dd.len() as int) =~= dd);
            assert(s.subrange(start, j) == dd);
            assert(dec_val(s.subrange(start, j)) == b.len());
            lemma_subrange_of_region(s, start, e, dd.len() as int + 1, e.len() as int);
            assert(e.subrange(dd.len() as int + 1, e.len() as int) =~= b);
            assert(s.subrange(j + 1, j + 1 + b.len()) == b);
        } else {
            lemma_index_of_region(s, start, e, j - start);
            assert(s[j] == dd[j - start]);
            assert(is_ascii_digit(s[j]));
            assert(s[j] != SEP_COLON);
            if j == start {
                assert(dd[0] != DIGIT_0);
            }
            lemma_scan_str_run(s, start, j + 1, b);
        }
    }
}

/// Parsing at the start of an embedded canonical encoding of a
/// well-formed value accepts exactly that value and stops right after it.
pub proof fn lemma_parse_encoded(s: Seq<u8>, j: int, v: BValue)
    requires
        wf_bval(v),
        0 <= j,
        j + spec_encode(v).len() <= s.len(),
        s.subrange(j, j + spec_encode(v).len()) == spec_encode(v),
    ensures
        spec_parse(s, j) == Ok::<(BValue, int), BencodeError>((v, j + spec_encode(v).len())),
    decreases v,
{
    let e = spec_encode(v);
    lemma_encode_shape(v);
    lemma_index_of_region(s, j, e, 0);
    assert(s[j] == e[0]);
    match v {
        BValue::Str(b) => {
            lemma_dec_digits(b.len() as int);
            assert(e[0] == dec_digits(b.len() as int)[0]);
            assert(is_ascii_digit(s[j]));
            lemma_scan_str_run(s, j, j, b);
        },
        BValue::Int(i) => {
            assert(s[j] == TAG_INT);
            let d = int_digits(i);
            assert(e.len() == d.len() + 2);
            lemma_subrange_of_region(s, j, e, 1, 1 + d.len() as int);
            assert(e.subrange(1, 1 + d.len() as int) =~= d);
            lemma_index_of_region(s, j, e, 1 + d.len() as int);
            assert(e[1 + d.len() as int] == TAG_END);
            lemma_scan_int_run(s, j + 1, j + 1 + d.len() as int, i, j + 1);
        },
        BValue::List(items) => {
            assert(s[j] == TAG_LIST);
            assert(e.len() == encode_items(items).len() + 2);
            lemma_subrange_of_region(s, j, e, 1, e.len() as int);
            assert(e.subrange(1, e.len() as int) =~= encode_items(items) + seq![TAG_END]);
            lemma_list_items_encoded(s, j + 1, items);
        },
        BValue::Dict(pairs) => {
            assert(s[j] == TAG_DICT);
            assert(e.len() == encode_pairs(pairs).len() + 2);
            lemma_index_of_region(s, j, e, 1);
            if pairs.len() == 0 {
                assert(encode_pairs(pairs) == Seq::<u8>::empty());
                assert(e[1] == TAG_END);
                assert(pairs =~= Seq::<(Seq<u8>, BValue)>::empty());
            } else {
                assert(encode_pairs(pairs) == enc_str(pairs[0].0) + spec_encode(pairs[0].1)
                    + encode_pairs(pairs.drop_first()));
                lemma_dec_digits(pairs[0].0.len() as int);
                assert(e[1] == dec_digits(pairs[0].0.len() as int)[0]);
                assert(is_ascii_digit(e[1]));
                assert(s[j + 1] != TAG_END);
                lemma_subrange_of_region(s, j, e, 1, e.len() as int);
                assert(e.subrange(1, e.len() as int) =~= encode_pairs(pairs) + seq![TAG_END]);
                lemma_dict_items_encoded(s, j + 1, pairs);
            }
        },
    }
}

/// List elements embedded as their concatenated encodings followed by the
/// terminator parse back to exactly those elements.
proof fn lemma_list_items_encoded(s: Seq<u8>, j: int, items: Seq<BValue>)
    requires
        forall|k: int| 0 <= k < items.len() ==> wf_bval(#[trigger] items[k]),
        0 <= j,
        j + encode_items(items).len() + 1 <= s.len(),
        s.subrange(j, j + encode_items(items).len() + 1) == encode_items(items)
            + seq![TAG_END],
    ensures
        list_items(s, j) == Ok::<(Seq<BValue>, int), BencodeError>((
            items,
            j + encode_items(items).len() + 1,
        )),
    decreases items,
{
    let t = encode_items(items) + seq![TAG_END];
    if items.len() == 0 {
        assert(encode_items(items) == Seq::<u8>::empty());
        lemma_index_of_region(s, j, t, 0);
        assert(t[0] == TAG_END);
        assert(items =~= Seq::<BValue>::empty());
    } else {
        let v0 = items[0];
        let e0 = spec_encode(v0);
        let rest = items.drop_first();
        assert(encode_items(items) == e0 + encode_items(rest));
        lemma_encode_shape(v0);
        lemma_index_of_region(s, j, t, 0);
        assert(t[0] == e0[0]);
        assert(s[j] != TAG_END);
        lemma_subrange_of_region(s, j, t, 0, e0.len() as int);
        assert(t.subrange(0, e0.len() as int) =~= e0);
        lemma_parse_encoded(s, j, v0);
        let j2 = j + e0.len();
        lemma_subrange_of_region(s, j, t, e0.len() as int, t.len() as int);
        assert(t.subrange(e0.len() as int, t.len() as int) =~= encode_items(rest)
            + seq![TAG_END]);
        assert forall|k: int| 0 <= k < rest.len() implies wf_bval(#[trigger] rest[k]) by {
            assert(rest[k] == items[k + 1]);
        }
        lemma_list_items_encoded(s, j2, rest);
        assert(seq![v0] + rest =~= items);
    }
}

/// Dictionary pairs embedded as their concatenated encodings followed by
/// the terminator parse back to exactly those pairs.
proof fn lemma_dict_items_encoded(s: Seq<u8>, j: int, pairs: Seq<(Seq<u8>, BValue)>)
    requires
        pairs.len() >= 1,
        forall|k: int|
            0 <= k < pairs.len() ==> is_utf8((#[trigger] pairs[k]).0) && wf_bval(pairs[k].1),
        0 <= j,
        j + encode_pairs(pairs).len() + 1 <= s.len(),
        s.subrange(j, j + encode_pairs(pairs).len() + 1) == encode_pairs(pairs)
            + seq![TAG_END],
    ensures
        dict_items(s, j) == Ok::<(Seq<(Seq<u8>, BValue)>, int), BencodeError>((
            pairs,
            j + encode_pairs(pairs).len() + 1,
        )),
    decreases pairs,
{
    let t = encode_pairs(pairs) + seq![TAG_END];
    let kb = pairs[0].0;
    let v0 = pairs[0].1;
    let ek = enc_str(kb);
    let e0 = spec_encode(v0);
    let rest = pairs.drop_first();
    assert(encode_pairs(pairs) == ek + e0 + encode_pairs(rest));
    lemma_dec_digits(kb.len() as int);
    lemma_encode_shape(v0);
    lemma_subrange_of_region(s, j, t, 0, ek.len() as int);
    assert(t.subrange(0, ek.len() as int) =~= ek);
    lemma_scan_str_run(s, j, j, kb);
    assert(is_utf8((pairs[0]).0));
    let kend = j + ek.len();
    lemma_subrange_of_region(s, j, t, ek.len() as int, (ek.len() + e0.len()) as int);
    assert(t.subrange(ek.len() as int, (ek.len() + e0.len()) as int) =~= e0);
    lemma_parse_encoded(s, kend, v0);
    let vend = kend + e0.len();
    if rest.len() == 0 {
        assert(encode_pairs(rest) == Seq::<u8>::empty());
        assert(encode_pairs(pairs).len() == ek.len() + e0.len());
        lemma_index_of_region(s, j, t, vend - j);
        assert(t[vend - j] == TAG_END);
        assert((kb, v0) == pairs[0]);
        assert(seq![(kb, v0)] =~= pairs);
    } else {
        lemma_index_of_region(s, j, t, vend - j);
        assert(t[vend - j] == encode_pairs(rest)[0]);
        assert(encode_pairs(rest) == enc_str(rest[0].0) + spec_encode(rest[0].1)
            + encode_pairs(rest.drop_first()));
        lemma_dec_digits(rest[0].0.len() as int);
        assert(encode_pairs(rest)[0] == dec_digits(rest[0].0.len() as int)[0]);
        assert(is_ascii_digit(s[vend]));
        assert(s[vend] != TAG_END);
        lemma_subrange_of_region(s, j, t, (ek.len() + e0.len()) as int, t.len() as int);
        assert(t.subrange((ek.len() + e0.len()) as int, t.len() as int) =~= encode_pairs(rest)
            + seq![TAG_END]);
        assert forall|k: int| 0 <= k < rest.len() implies is_utf8((#[trigger] rest[k]).0)
            && wf_bval(rest[k].1) by {
            assert(rest[k] == pairs[k + 1]);
        }
        lemma_dict_items_encoded(s, vend, rest);
        assert((kb, v0) == pairs[0]);
        assert(seq![(kb, v0)] + rest =~= pairs);
    }
}

proof fn lemma_scan_int_wf(s: Seq<u8>, start: int, j: int)
    requires
        0 <= start <= j,
    ensures
        scan_int(s, start, j) matches Ok((n, end)) ==> i64::MIN <= n <= i64::MAX && j < end
            <= s.len(),
    decreases s.len() - j,
{
    if j >= s.len() {
    } else if j == start && s[j] == TAG_END {
    } else if s[j] == TAG_END {
        let span = s.subrange(start, j);
        if span.len() >= 2 && span[0] == DASH && all_digits(span.skip(1)) && -dec_val(
            span.skip(1),
        ) >= i64::MIN {
            lemma_dec_val_nonneg(span.skip(1));
        } else if span.len() >= 1 && all_digits(span) && dec_val(span) <= i64::MAX {
            lemma_dec_val_nonneg(span);
        }
    } else if s[j] == DASH && j + 1 < s.len() && s[j + 1] == DIGIT_0 {
    } else if j == start && s[j] == DIGIT_0 && j + 1 < s.len() && s[j + 1] != TAG_END {
    } else {
        lemma_scan_int_wf(s, start, j + 1);
    }
}

proof fn lemma_scan_str_wf(s: Seq<u8>, start: int, j: int)
    requires
        0 <= start <= j,
        forall|t: int| start <= t < j ==> is_ascii_digit(#[trigger] s[t]),
    ensures
        scan_str(s, start, j) matches Ok((b, end)) ==> j < end <= s.len(),
    decreases s.len() - j,
{
    if j >= s.len() {
    } else if s[j] == SEP_COLON {
        if j != start {
            assert forall|t: int| 0 <= t < j - start implies is_ascii_digit(
                #[trigger] s.subrange(start, j)[t],
            ) by {
                assert(s.subrange(start, j)[t] == s[start + t]);
            }
            lemma_dec_val_nonneg(s.subrange(start, j));
        }
    } else if is_ascii_digit(s[j]) {
        if j == start && s[j] == DIGIT_0 {
        } else {
            lemma_scan_str_wf(s, start, j + 1);
        }
    } else {
    }
}

proof fn lemma_list_items_wf(s: Seq<u8>, j: int)
    requires
        0 <= j,
    ensures
        list_items(s, j) matches Ok((items, end)) ==> (forall|k: int|
            0 <= k < items.len() ==> wf_bval(#[trigger] items[k])) && j < end <= s.len(),
    decreases s.len() - j, 2int,
{
    if j >= s.len() {
    } else if s[j] == TAG_END {
    } else {
        lemma_parse_wf(s, j);
        match spec_parse(s, j) {
            Ok((v, end)) => {
                if j < end && end <= s.len() {
                    lemma_list_items_wf(s, end);
                    match list_items(s, end) {
                        Ok((rest, e2)) => {
                            assert forall|k: int| 0 <= k < (seq![v] + rest).len() implies wf_bval(
                                #[trigger] (seq![v] + rest)[k],
                            ) by {
                                if k > 0 {
                                    assert((seq![v] + rest)[k] == rest[k - 1]);
                                }
                            }
                        },
                        Err(_) => {},
                    }
                }
            },
            Err(_) => {},
        }
    }
}

proof fn lemma_dict_items_wf(s: Seq<u8>, j: int)
    requires
        0 <= j,
    ensures
        dict_items(s, j) matches Ok((pairs, end)) ==> (forall|k: int|
            0 <= k < pairs.len() ==> is_utf8((#[trigger] pairs[k]).0) && wf_bval(pairs[k].1))
            && j < end <= s.len(),
    decreases s.len() - j, 2int,
{
    if j >= s.len() {
        return ;
    }
    lemma_scan_str_wf(s, j, j);
    match scan_str(s, j, j) {
        Ok((kb, kend)) => {
            if is_utf8(kb) && j < kend && kend <= s.len() {
                lemma_parse_wf(s, kend);
                match spec_parse(s, kend) {
                    Ok((v, vend)) => {
                        if kend < vend && vend <= s.len() && vend < s.len() && s[vend]
                            != TAG_END {
                            lemma_dict_items_wf(s, vend);
                            match dict_items(s, vend) {
                                Ok((rest, e2)) => {
                                    assert forall|k: int|
                                        0 <= k < (seq![(kb, v)] + rest).len() implies is_utf8(
                                        (#[trigger] (seq![(kb, v)] + rest)[k]).0,
                                    ) && wf_bval((seq![(kb, v)] + rest)[k].1) by {
                                        if k > 0 {
                                            assert((seq![(kb, v)] + rest)[k] == rest[k - 1]);
                                        }
                                    }
                                },
                                Err(_) => {},
                            }
                        }
                    },
                    Err(_) => {},
                }
            }
        },
        Err(_) => {},
    }
}

/// Every value the grammar accepts is well-formed — every integer fits a
/// signed 64-bit integer and every dictionary key is valid text — and its
/// encoding occupies at least one byte: the decoder only produces
/// well-formed values.
pub proof fn lemma_parse_wf(s: Seq<u8>, j: int)
    requires
        0 <= j,
    ensures
        spec_parse(s, j) matches Ok((v, end)) ==> wf_bval(v) && j < end <= s.len(),
    decreases s.len() - j, 1int,
{
    if j >= s.len() {
    } else if s[j] == TAG_DICT {
        if j + 1 >= s.len() {
        } else if s[j + 1] == TAG_END {
        } else {
            lemma_dict_items_wf(s, j + 1);
        }
    } else if s[j] == TAG_INT {
        lemma_scan_int_wf(s, j + 1, j + 1);
    } else if s[j] == TAG_LIST {
        lemma_list_items_wf(s, j + 1);
    } else if is_ascii_digit(s[j]) {
        lemma_scan_str_wf(s, j, j);
    } else {
    }
}

/// Round trip: the canonical encoding of a well-formed value — and by
/// `lemma_parse_wf` every decoder-produced value is well-formed — parses
/// back to exactly that value, consuming exactly its encoding.
pub proof fn lemma_round_trip(v: BValue)
    requires
        wf_bval(v),
    ensures
        spec_parse(spec_encode(v), 0) == Ok::<(BValue, int), BencodeError>((
            v,
            spec_encode(v).len() as int,
        )),
{
    let e = spec_encode(v);
    assert(e.subrange(0, e.len() as int) =~= e);
    lemma_parse_encoded(e, 0, v);
}

/// A canonical nonnegative integer on the wire — `i`, digits with no
/// leading zero, `e` — decodes to exactly that integer.
pub proof fn lemma_decode_canonical_integer(n: int)
    requires
        0 <= n <= i64::MAX,
    ensures
        spec_parse(seq![TAG_INT] + dec_digits(n) + seq![TAG_END], 0) == Ok::<
            (BValue, int),
            BencodeError,
        >((BValue::Int(n), dec_digits(n).len() as int + 2)),
{
    lemma_round_trip(BValue::Int(n));
    assert(int_digits(n) == dec_digits(n));
}

/// A terminator where a value is expected is rejected as such.
pub proof fn lemma_bare_terminator(s: Seq<u8>)
    requires
        s.len() >= 1,
        s[0] == TAG_END,
    ensures
        spec_parse(s, 0) == Err::<(BValue, int), BencodeError>(
            BencodeError::UnexpectedTerminator,
        ),
{
}

/// A first byte that opens no construct is rejected as an unknown tag.
pub proof fn lemma_unknown_tag(s: Seq<u8>)
    requires
        s.len() >= 1,
        s[0] != TAG_DICT,
        s[0] != TAG_INT,
        s[0] != TAG_LIST,
        s[0] != TAG_END,
        !is_ascii_digit(s[0]),
    ensures
        spec_parse(s, 0) == Err::<(BValue, int), BencodeError>(BencodeError::UnknownTag(s[0])),
{
}

/// A dictionary whose first key is not valid text is rejected as such,
/// whatever follows the key.
pub proof fn lemma_dict_key_not_text(kb: Seq<u8>, tail: Seq<u8>)
    requires
        !is_utf8(kb),
    ensures
        spec_parse(seq![TAG_DICT] + enc_str(kb) + tail, 0) == Err::<
            (BValue, int),
            BencodeError,
        >(BencodeError::DictKeyNotText),
{
    let s = seq![TAG_DICT] + enc_str(kb) + tail;
    let ek = enc_str(kb);
    lemma_dec_digits(kb.len() as int);
    assert(s[0] == TAG_DICT);
    assert(s[1] == ek[0]);
    assert(ek[0] == dec_digits(kb.len() as int)[0]);
    assert(is_ascii_digit(s[1]));
    assert(s[1] != TAG_END);
    assert(s.subrange(1, 1 + ek.len() as int) =~= ek);
    lemma_scan_str_run(s, 1, 1, kb);
    assert(scan_str(s, 1, 1) == Ok::<(Seq<u8>, int), BencodeError>((kb, 1 + ek.len() as int)));
    assert(dict_items(s, 1) == Err::<(Seq<(Seq<u8>, BValue)>, int), BencodeError>(
        BencodeError::DictKeyNotText,
    ));
    assert(spec_dict(s, 0) == Err::<(BValue, int), BencodeError>(BencodeError::DictKeyNotText));
}

/// A subrange of a region whose known content is a prefix of `t`.
proof fn lemma_prefix_region(s: Seq<u8>, j: int, t: Seq<u8>, a: int, b: int)
    requires
        0 <= j <= s.len(),
        s.len() - j <= t.len(),
        s.subrange(j, s.len() as int) == t.subrange(0, s.len() - j),
        0 <= a <= b <= s.len() - j,
    ensures
        s.subrange(j + a, j + b) == t.subrange(a, b),
{
    assert forall|i: int| 0 <= i < b - a implies s.subrange(j + a, j + b)[i] == t.subrange(
        a,
        b,
    )[i] by {
        assert(s.subrange(j + a, j + b)[i] == s[j + a + i]);
        assert(s.subrange(j, s.len() as int)[a + i] == s[j + a + i]);
        assert(t.subrange(0, s.len() - j)[a + i] == t[a + i]);
    }
    assert(s.subrange(j + a, j + b) =~= t.subrange(a, b));
}

/// One byte of a region whose known content is a prefix of `t`.
proof fn lemma_prefix_index(s: Seq<u8>, j: int, t: Seq<u8>, a: int)
    requires
        0 <= j <= s.len(),
        s.len() - j <= t.len(),
        s.subrange(j, s.len() as int) == t.subrange(0, s.len() - j),
        0 <= a < s.len() - j,
    ensures
        s[j + a] == t[a],
{
    assert(s.subrange(j, s.len() as int)[a] == s[j + a]);
    assert(t.subrange(0, s.len() - j)[a] == t[a]);
}

/// Scanning a string whose input ends strictly inside its canonical
/// encoding runs out of input.
proof fn lemma_scan_str_trunc(s: Seq<u8>, start: int, j: int, b: Seq<u8>)
    requires
        0 <= start <= j <= s.len(),
        s.len() - start < enc_str(b).len(),
        s.subrange(start, s.len() as int) == enc_str(b).subrange(0, s.len() - start),
        j <= start + dec_digits(b.len() as int).len(),
        b.len() == 0 ==> j == start,
    ensures
        scan_str(s, start, j) == Err::<(Seq<u8>, int), BencodeError>(
            BencodeError::UnexpectedEnd,
        ),
    decreases s.len() - j,
{
    let e = enc_str(b);
    let dd = dec_digits(b.len() as int);
    lemma_dec_digits(b.len() as int);
    assert(e.len() == dd.len() + 1 + b.len());
    if j >= s.len() {
    } else {
        let a = j - start;
        lemma_prefix_index(s, start, e, a);
        assert(s[j] == e[a]);
        if a == dd.len() {
            assert(e[a] == SEP_COLON);
            assert(j != start);
            lemma_prefix_region(s, start, e, 0, dd.len() as int);
            assert(e.subrange(0, dd.len() as int) =~= dd);
            assert(dec_val(s.subrange(start, j)) == b.len());
            assert(j + 1 + b.len() > s.len());
        } else {
            assert(e[a] == dd[a]);
            assert(is_ascii_digit(s[j]));
            assert(s[j] != SEP_COLON);
            if j == start && s[j] == DIGIT_0 {
                assert(b.len() == 0);
                assert(e.len() == 2);
                assert(s.len() - start == 1);
                assert(j + 1 >= s.len());
            } else {
                assert(b.len() >= 1);
                lemma_scan_str_trunc(s, start, j + 1, b);
            }
        }
    }
}

/// Scanning an integer body whose input ends strictly before the
/// terminator runs out of input.
proof fn lemma_scan_int_trunc(s: Seq<u8>, start: int, j: int, i: int)
    requires
        i64::MIN <= i <= i64::MAX,
        0 <= start <= j <= s.len(),
        s.len() - start <= int_digits(i).len(),
        s.subrange(start, s.len() as int) == int_digits(i).subrange(0, s.len() - start),
    ensures
        scan_int(s, start, j) == Err::<(int, int), BencodeError>(BencodeError::UnexpectedEnd),
    decreases s.len() - j,
{
    let d = int_digits(i);
    if i < 0 {
        lemma_dec_digits(-i);
    } else {
        lemma_dec_digits(i);
    }
    if j >= s.len() {
    } else {
        let a = j - start;
        lemma_prefix_index(s, start, d, a);
        assert(s[j] == d[a]);
        if i < 0 {
            if a == 0 {
                assert(d[0] == DASH);
            } else {
                assert(d[a] == dec_digits(-i)[a - 1]);
                assert(is_ascii_digit(d[a]));
            }
        } else {
            assert(d[a] == dec_digits(i)[a]);
            assert(is_ascii_digit(d[a]));
        }
        assert(s[j] != TAG_END);
        if s[j] == DASH && j + 1 < s.len() && s[j + 1] == DIGIT_0 {
            assert(i < 0 && a == 0);
            lemma_prefix_index(s, start, d, 1);
            assert(s[j + 1] == dec_digits(-i)[0]);
            assert(dec_digits(-i)[0] != DIGIT_0);
            assert(false);
        }
        if j == start && s[j] == DIGIT_0 && j + 1 < s.len() && s[j + 1] != TAG_END {
            assert(i >= 0 && dec_digits(i)[0] == DIGIT_0);
            assert(i == 0);
            assert(d.len() == 1);
            assert(s.len() - start <= 1);
            assert(false);
        }
        lemma_scan_int_trunc(s, start, j + 1, i);
    }
}

/// List elements whose input ends strictly inside their encodings (or
/// before the terminator) run out of input.
proof fn lemma_list_items_trunc(s: Seq<u8>, j: int, items: Seq<BValue>)
    requires
        forall|k: int| 0 <= k < items.len() ==> wf_bval(#[trigger] items[k]),
        0 <= j <= s.len(),
        s.len() - j < encode_items(items).len() + 1,
        s.subrange(j, s.len() as int) == (encode_items(items) + seq![TAG_END]).subrange(
            0,
            s.len() - j,
        ),
    ensures
        list_items(s, j) == Err::<(Seq<BValue>, int), BencodeError>(
            BencodeError::UnexpectedEnd,
        ),
    decreases items,
{
    let t = encode_items(items) + seq![TAG_END];
    let avail = s.len() - j;
    if avail == 0 {
    } else {
        if items.len() == 0 {
            assert(encode_items(items) == Seq::<u8>::empty());
            assert(false);
        }
        let v0 = items[0];
        let e0 = spec_encode(v0);
        let rest = items.drop_first();
        assert(encode_items(items) == e0 + encode_items(rest));
        lemma_encode_shape(v0);
        lemma_prefix_index(s, j, t, 0);
        assert(t[0] == e0[0]);
        assert(s[j] != TAG_END);
        if avail < e0.len() {
            assert forall|x: int| 0 <= x < avail implies t.subrange(0, avail)[x] == e0.subrange(
                0,
                avail,
            )[x] by {
                assert(t.subrange(0, avail)[x] == t[x]);
                assert(t[x] == e0[x]);
            }
            assert(t.subrange(0, avail) =~= e0.subrange(0, avail));
            lemma_parse_truncated(s, j, v0);
        } else {
            lemma_prefix_region(s, j, t, 0, e0.len() as int);
            assert(t.subrange(0, e0.len() as int) =~= e0);
            lemma_parse_encoded(s, j, v0);
            let j2 = j + e0.len();
            lemma_prefix_region(s, j, t, e0.len() as int, avail);
            let t2 = encode_items(rest) + seq![TAG_END];
            assert(t.subrange(e0.len() as int, avail) =~= t2.subrange(0, avail - e0.len()));
            assert forall|k: int| 0 <= k < rest.len() implies wf_bval(#[trigger] rest[k]) by {
                assert(rest[k] == items[k + 1]);
            }
            lemma_list_items_trunc(s, j2, rest);
        }
    }
}

/// Dictionary pairs whose input ends strictly inside their encodings (or
/// before the terminator) run out of input.
proof fn lemma_dict_items_trunc(s: Seq<u8>, j: int, pairs: Seq<(Seq<u8>, BValue)>)
    requires
        forall|k: int|
            0 <= k < pairs.len() ==> is_utf8((#[trigger] pairs[k]).0) && wf_bval(pairs[k].1),
        0 <= j <= s.len(),
        s.len() - j < encode_pairs(pairs).len() + 1,
        s.subrange(j, s.len() as int) == (encode_pairs(pairs) + seq![TAG_END]).subrange(
            0,
            s.len() - j,
        ),
    ensures
        dict_items(s, j) == Err::<(Seq<(Seq<u8>, BValue)>, int), BencodeError>(
            BencodeError::UnexpectedEnd,
        ),
    decreases pairs,
{
    let t = encode_pairs(pairs) + seq![TAG_END];
    let avail = s.len() - j;
    if avail == 0 {
    } else {
        if pairs.len() == 0 {
            assert(encode_pairs(pairs) == Seq::<u8>::empty());
            assert(false);
        }
        let kb = pairs[0].0;
        let v0 = pairs[0].1;
        let ek = enc_str(kb);
        let e0 = spec_encode(v0);
        let rest = pairs.drop_first();
        assert(encode_pairs(pairs) == ek + e0 + encode_pairs(rest));
        lemma_dec_digits(kb.len() as int);
        lemma_encode_shape(v0);
        assert(is_utf8((pairs[0]).0));
        if avail < ek.len() {
            assert forall|x: int| 0 <= x < avail implies t.subrange(0, avail)[x] == ek.subrange(
                0,
                avail,
            )[x] by {
                assert(t.subrange(0, avail)[x] == t[x]);
                assert(t[x] == ek[x]);
            }
            assert(t.subrange(0, avail) =~= ek.subrange(0, avail));
            lemma_scan_str_trunc(s, j, j, kb);
        } else {
            lemma_prefix_region(s, j, t, 0, ek.len() as int);
            assert(t.subrange(0, ek.len() as int) =~= ek);
            lemma_scan_str_run(s, j, j, kb);
            let kend = j + ek.len();
            if avail < ek.len() + e0.len() {
                lemma_prefix_region(s, j, t, ek.len() as int, avail);
                assert(t.subrange(ek.len() as int, avail) =~= e0.subrange(0, avail - ek.len()));
                lemma_parse_truncated(s, kend, v0);
            } else {
                lemma_prefix_region(s, j, t, ek.len() as int, (ek.len() + e0.len()) as int);
                assert(t.subrange(ek.len() as int, (ek.len() + e0.len()) as int) =~= e0);
                lemma_parse_encoded(s, kend, v0);
                let vend = kend + e0.len();
                if avail == ek.len() + e0.len() {
                    assert(vend == s.len());
                } else {
                    if rest.len() == 0 {
                        assert(encode_pairs(rest) == Seq::<u8>::empty());
                        assert(false);
                    }
                    lemma_prefix_index(s, j, t, vend - j);
                    assert(t[vend - j] == encode_pairs(rest)[0]);
                    assert(encode_pairs(rest) == enc_str(rest[0].0) + spec_encode(rest[0].1)
                        + encode_pairs(rest.drop_first()));
                    lemma_dec_digits(rest[0].0.len() as int);
                    assert(encode_pairs(rest)[0] == dec_digits(rest[0].0.len() as int)[0]);
                    assert(is_ascii_digit(s[vend]));
                    assert(s[vend] != TAG_END);
                    lemma_prefix_region(s, j, t, (ek.len() + e0.len()) as int, avail);
                    let t2 = encode_pairs(rest) + seq![TAG_END];
                    assert(t.subrange((ek.len() + e0.len()) as int, avail) =~= t2.subrange(
                        0,
                        avail - ek.len() - e0.len(),
                    ));
                    assert forall|k: int| 0 <= k < rest.len() implies is_utf8(
                        (#[trigger] rest[k]).0,
                    ) && wf_bval(rest[k].1) by {
                        assert(rest[k] == pairs[k + 1]);
                    }
                    lemma_dict_items_trunc(s, vend, rest);
                }
            }
        }
    }
}

/// Parsing input that ends strictly inside the canonical encoding of a
/// well-formed value — truncation at any nesting depth — runs out of
/// input.
pub proof fn lemma_parse_truncated(s: Seq<u8>, j: int, v: BValue)
    requires
        wf_bval(v),
        0 <= j <= s.len(),
        s.len() - j < spec_encode(v).len(),
        s.subrange(j, s.len() as int) == spec_encode(v).subrange(0, s.len() - j),
    ensures
        spec_parse(s, j) == Err::<(BValue, int), BencodeError>(BencodeError::UnexpectedEnd),
    decreases v,
{
    let e = spec_encode(v);
    let avail = s.len() - j;
    if avail == 0 {
    } else {
        lemma_prefix_index(s, j, e, 0);
        assert(s[j] == e[0]);
        lemma_encode_shape(v);
        match v {
            BValue::Str(b) => {
                lemma_dec_digits(b.len() as int);
                assert(e[0] == dec_digits(b.len() as int)[0]);
                assert(is_ascii_digit(s[j]));
                lemma_scan_str_trunc(s, j, j, b);
            },
            BValue::Int(i) => {
                assert(s[j] == TAG_INT);
                let d = int_digits(i);
                lemma_prefix_region(s, j, e, 1, avail);
                assert(e.subrange(1, avail) =~= d.subrange(0, avail - 1));
                lemma_scan_int_trunc(s, j + 1, j + 1, i);
            },
            BValue::List(items) => {
                assert(s[j] == TAG_LIST);
                lemma_prefix_region(s, j, e, 1, avail);
                let t = encode_items(items) + seq![TAG_END];
                assert(e.subrange(1, avail) =~= t.subrange(0, avail - 1));
                lemma_list_items_trunc(s, j + 1, items);
            },
            BValue::Dict(pairs) => {
                assert(s[j] == TAG_DICT);
                if j + 1 >= s.len() {
                } else {
                    if pairs.len() == 0 {
                        assert(encode_pairs(pairs) == Seq::<u8>::empty());
                        assert(e.len() == 2);
                        assert(false);
                    }
                    let t = encode_pairs(pairs) + seq![TAG_END];
                    lemma_prefix_index(s, j, e, 1);
                    assert(e[1] == encode_pairs(pairs)[0]);
                    assert(encode_pairs(pairs) == enc_str(pairs[0].0) + spec_encode(pairs[0].1)
                        + encode_pairs(pairs.drop_first()));
                    lemma_dec_digits(pairs[0].0.len() as int);
                    assert(encode_pairs(pairs)[0] == dec_digits(pairs[0].0.len() as int)[0]);
                    assert(is_ascii_digit(s[j + 1]));
                    assert(s[j + 1] != TAG_END);
                    lemma_prefix_region(s, j, e, 1, avail);
                    assert(e.subrange(1, avail) =~= t.subrange(0, avail - 1));
                    lemma_dict_items_trunc(s, j + 1, pairs);
                }
            },
        }
    }
}

/// Truncated input at any nesting depth: every strict prefix of the
/// canonical encoding of a well-formed value fails with `UnexpectedEnd`.
pub proof fn lemma_truncated_input(v: BValue, k: int)
    requires
        wf_bval(v),
        0 <= k < spec_encode(v).len(),
    ensures
        spec_parse(spec_encode(v).subrange(0, k), 0) == Err::<(BValue, int), BencodeError>(
            BencodeError::UnexpectedEnd,
        ),
{
    let s = spec_encode(v).subrange(0, k);
    assert(s.subrange(0, s.len() as int) =~= s);
    lemma_parse_truncated(s, 0, v);
}

} // verus!
