//! The executable decoder: a recursive-descent parser over a byte slice.
//!
//! Every function is proved to return exactly what the corresponding
//! specification function in `grammar` says, value and error alike. The
//! cursor is a position into the slice; a reader returns the value it read
//! together with the position one past it.

use vstd::prelude::*;

use crate::grammar::all_digits;
use crate::grammar::dec_val;
use crate::grammar::dict_items;
use crate::grammar::is_ascii_digit;
use crate::grammar::lemma_dec_val_nonneg;
use crate::grammar::lemma_dec_val_prefix;
use crate::grammar::list_items;
use crate::grammar::scan_int;
use crate::grammar::scan_str;
use crate::grammar::spec_dict;
use crate::grammar::spec_parse;
use crate::grammar::spec_parse_i64;
use crate::grammar::DASH;
use crate::grammar::DIGIT_0;
use crate::grammar::DIGIT_9;
use crate::grammar::SEP_COLON;
use crate::grammar::TAG_DICT;
use crate::grammar::TAG_END;
use crate::grammar::TAG_INT;
use crate::grammar::TAG_LIST;
use crate::types::items_view;
use crate::types::pairs_view;
use crate::types::BValue;
use crate::types::BencodeError;
use crate::types::BencodeItem;
use crate::types::ByteString;
use crate::types::DictKey;

verus! {

/// The decoder's result agrees with the grammar's: same value (through the
/// view) and same end position, or the very same error.
pub open spec fn parse_matches(
    r: Result<(BencodeItem, usize), BencodeError>,
    sp: Result<(BValue, int), BencodeError>,
) -> bool {
    match (r, sp) {
        (Ok((v, end)), Ok((w, e2))) => v@ == w && end as int == e2,
        (Err(a), Err(b)) => a == b,
        _ => false,
    }
}

/// As `parse_matches`, for an integer read.
pub open spec fn int_result_matches(
    r: Result<(i64, usize), BencodeError>,
    sp: Result<(int, int), BencodeError>,
) -> bool {
    match (r, sp) {
        (Ok((v, end)), Ok((n, e2))) => v as int == n && end as int == e2,
        (Err(a), Err(b)) => a == b,
        _ => false,
    }
}

/// As `parse_matches`, for a string read.
pub open spec fn str_result_matches(
    r: Result<(ByteString, usize), BencodeError>,
    sp: Result<(Seq<u8>, int), BencodeError>,
) -> bool {
    match (r, sp) {
        (Ok((bs, end)), Ok((b, e2))) => bs@ == b && end as int == e2,
        (Err(a), Err(b)) => a == b,
        _ => false,
    }
}

/// Prepending already-read elements to the outcome of the remaining scan.
pub open spec fn items_compose(
    acc: Seq<BValue>,
    now: Result<(Seq<BValue>, int), BencodeError>,
) -> Result<(Seq<BValue>, int), BencodeError> {
    match now {
        Ok((rest, e)) => Ok((acc + rest, e)),
        Err(e) => Err(e),
    }
}

/// Prepending already-read pairs to the outcome of the remaining scan.
pub open spec fn pairs_compose(
    acc: Seq<(Seq<u8>, BValue)>,
    now: Result<(Seq<(Seq<u8>, BValue)>, int), BencodeError>,
) -> Result<(Seq<(Seq<u8>, BValue)>, int), BencodeError> {
    match now {
        Ok((rest, e)) => Ok((acc + rest, e)),
        Err(e) => Err(e),
    }
}

/// Reads the digit span `bytes[start..end]` as a signed 64-bit integer,
/// exactly as `spec_parse_i64` reads it: an optional single leading `-`,
/// then digits, rejected on any other byte or when the value does not fit.
fn ascii_bytes_to_int(bytes: &[u8], start: usize, end: usize) -> (r: Result<i64, BencodeError>)
    requires
        start <= end <= bytes@.len(),
    ensures
        ({
            let sp = spec_parse_i64(bytes@.subrange(start as int, end as int));
            match (r, sp) {
                (Ok(m), Some(n)) => m as int == n,
                (Err(e), None) => e == BencodeError::MalformedInteger,
                _ => false,
            }
        }),
{
    let ghost span = bytes@.subrange(start as int, end as int);
    if start == end {
        return Err(BencodeError::MalformedInteger);
    }
    let neg = bytes[start] == DASH;
    let dstart = if neg {
        start + 1
    } else {
        start
    };
    proof {
        if neg {
            assert(span.skip(1) =~= bytes@.subrange(dstart as int, end as int));
        } else {
            assert(span =~= bytes@.subrange(dstart as int, end as int));
        }
    }
    if dstart == end {
        // A bare minus sign: no digit branch of the grammar applies.
        proof {
            assert(neg);
            assert(span.len() == end - start);
            assert(span[0] == bytes@[start as int]);
            assert(span[0] == DASH && !is_ascii_digit(DASH));
        }
        return Err(BencodeError::MalformedInteger);
    }
    let limit: u64 = if neg {
        9223372036854775808
    } else {
        9223372036854775807
    };
    let ghost digits = bytes@.subrange(dstart as int, end as int);
    let mut acc: u64 = 0;
    let mut k = dstart;
    proof {
        assert(bytes@.subrange(dstart as int, dstart as int) =~= Seq::<u8>::empty());
        assert(dec_val(Seq::<u8>::empty()) == 0);
        assert(span[0] == bytes@[start as int]);
    }
    while k < end
        invariant
            start <= dstart <= k <= end <= bytes@.len(),
            start < end,
            span == bytes@.subrange(start as int, end as int),
            digits == bytes@.subrange(dstart as int, end as int),
            neg ==> dstart == start + 1 && span[0] == DASH && span.skip(1) == digits,
            !neg ==> dstart == start && span == digits && span[0] != DASH,
            limit == (if neg {
                9223372036854775808u64
            } else {
                9223372036854775807u64
            }),
            forall|t: int| dstart <= t < k ==> is_ascii_digit(#[trigger] bytes@[t]),
            acc as int == dec_val(bytes@.subrange(dstart as int, k as int)),
            acc <= limit,
        decreases end - k,
    {
        let b = bytes[k];
        if b < DIGIT_0 || b > DIGIT_9 {
            // A non-digit in the span: no branch of the grammar accepts it.
            assert(digits[k - dstart] == bytes@[k as int]);
            assert(!all_digits(digits));
            if neg {
                assert(span[0] == DASH && !is_ascii_digit(DASH));
            }
            return Err(BencodeError::MalformedInteger);
        }
        let d = (b - DIGIT_0) as u64;
        proof {
            assert forall|t: int| 0 <= t < k + 1 - dstart implies is_ascii_digit(
                #[trigger] bytes@.subrange(dstart as int, k + 1)[t],
            ) by {
                assert(bytes@.subrange(dstart as int, k + 1)[t] == bytes@[dstart + t]);
            }
            assert(bytes@.subrange(dstart as int, k + 1).drop_last() =~= bytes@.subrange(
                dstart as int,
                k as int,
            ));
            assert(dec_val(bytes@.subrange(dstart as int, k + 1)) == acc * 10 + d);
        }
        if acc > (limit - d) / 10 {
            // The value can only grow with more digits, so it cannot fit.
            proof {
                let q = ((limit - d) / 10) as int;
                assert(10 * q <= limit - d < 10 * (q + 1));
                assert(acc * 10 + d > limit);
                if all_digits(digits) {
                    lemma_dec_val_prefix(digits, k + 1 - dstart);
                    assert(digits.subrange(0, k + 1 - dstart) =~= bytes@.subrange(
                        dstart as int,
                        k + 1,
                    ));
                    assert(dec_val(digits) > limit);
                }
                if neg {
                    assert(span[0] == DASH && !is_ascii_digit(DASH));
                    assert(span.skip(1) == digits);
                }
            }
            return Err(BencodeError::MalformedInteger);
        }
        proof {
            let q = ((limit - d) / 10) as int;
            assert(10 * q <= limit - d);
            assert(acc * 10 + d <= limit);
        }
        acc = acc * 10 + d;
        k = k + 1;
    }
    proof {
        assert(bytes@.subrange(dstart as int, k as int) =~= digits);
        if neg {
            assert(span.len() >= 2);
            assert(span[0] == DASH);
            assert(span.skip(1) == digits);
        } else {
            assert(span == digits);
        }
    }
    if neg {
        if acc == 9223372036854775808 {
            return Ok(i64::MIN);
        }
        return Ok(-(acc as i64));
    }
    Ok(acc as i64)
}

/// Reads an integer construct: the opening `i` at `pos`, its body, its
/// terminator. Returns exactly what the grammar's scan returns.
fn read_int(bytes: &[u8], pos: usize) -> (r: Result<(i64, usize), BencodeError>)
    requires
        pos < bytes@.len(),
        bytes@[pos as int] == TAG_INT,
    ensures
        int_result_matches(r, scan_int(bytes@, pos + 1, pos + 1)),
        r matches Ok((v, end)) ==> pos < end <= bytes@.len(),
{
    let n = bytes.len();
    let start = pos + 1;
    let mut j = start;
    loop
        invariant
            pos + 1 == start,
            start <= j <= n,
            n == bytes@.len(),
            scan_int(bytes@, start as int, start as int) == scan_int(
                bytes@,
                start as int,
                j as int,
            ),
        decreases n - j,
    {
        if j >= n {
            return Err(BencodeError::UnexpectedEnd);
        }
        let b = bytes[j];
        if b == TAG_END {
            if j == start {
                return Err(BencodeError::UnexpectedTerminator);
            }
            match ascii_bytes_to_int(bytes, start, j) {
                Ok(v) => {
                    return Ok((v, j + 1));
                },
                Err(e) => {
                    return Err(e);
                },
            }
        }
        if b == DASH && j + 1 < n && bytes[j + 1] == DIGIT_0 {
            return Err(BencodeError::MalformedInteger);
        }
        if j == start && b == DIGIT_0 && j + 1 < n && bytes[j + 1] != TAG_END {
            return Err(BencodeError::MalformedInteger);
        }
        proof {
            assert(scan_int(bytes@, start as int, j as int) == scan_int(
                bytes@,
                start as int,
                j + 1,
            ));
        }
        j = j + 1;
    }
}

/// Reads a string construct: the length prefix starting at `pos`, the
/// separator, the payload. Returns exactly what the grammar's scan returns.
fn read_string(bytes: &[u8], pos: usize) -> (r: Result<(ByteString, usize), BencodeError>)
    requires
        pos <= bytes@.len(),
    ensures
        str_result_matches(r, scan_str(bytes@, pos as int, pos as int)),
        r matches Ok((bs, end)) ==> pos < end <= bytes@.len(),
{
    let n = bytes.len();
    if pos >= n {
        return Err(BencodeError::UnexpectedEnd);
    }
    let b0 = bytes[pos];
    if b0 == SEP_COLON {
        return Err(BencodeError::MalformedStringLength);
    }
    if b0 < DIGIT_0 || b0 > DIGIT_9 {
        return Err(BencodeError::MalformedStringLength);
    }
    if b0 == DIGIT_0 {
        // A zero length must be the whole prefix: the next byte is the
        // separator of the empty string.
        if pos + 1 >= n {
            return Err(BencodeError::UnexpectedEnd);
        }
        if bytes[pos + 1] == SEP_COLON {
            return Ok((ByteString::new(Vec::new()), pos + 2));
        }
        return Err(BencodeError::MalformedStringLength);
    }
    let mut len_acc: usize = (b0 - DIGIT_0) as usize;
    let mut over = false;
    let mut j = pos + 1;
    proof {
        assert(bytes@.subrange(pos as int, pos + 1).drop_last() =~= Seq::<u8>::empty());
        assert(dec_val(Seq::<u8>::empty()) == 0);
        assert(bytes@.subrange(pos as int, pos + 1).last() == b0);
        assert(dec_val(bytes@.subrange(pos as int, pos + 1)) == b0 - DIGIT_0);
    }
    loop
        invariant
            pos + 1 <= j <= n,
            n == bytes@.len(),
            scan_str(bytes@, pos as int, pos as int) == scan_str(bytes@, pos as int, j as int),
            forall|t: int| pos <= t < j ==> is_ascii_digit(#[trigger] bytes@[t]),
            !over ==> len_acc as int == dec_val(bytes@.subrange(pos as int, j as int)),
            over ==> dec_val(bytes@.subrange(pos as int, j as int)) > usize::MAX,
        decreases n - j,
    {
        if j >= n {
            return Err(BencodeError::UnexpectedEnd);
        }
        let b = bytes[j];
        if b == SEP_COLON {
            // The separator: the digits read so far declare the length.
            let ghost declared = dec_val(bytes@.subrange(pos as int, j as int));
            if over {
                // The declared length exceeds the whole input.
                return Err(BencodeError::UnexpectedEnd);
            }
            let plen = len_acc;
            if plen > n - (j + 1) {
                return Err(BencodeError::UnexpectedEnd);
            }
            let pstart = j + 1;
            let mut buf: Vec<u8> = Vec::new();
            let mut t: usize = 0;
            proof {
                assert(bytes@.subrange(pstart as int, pstart as int) =~= Seq::<u8>::empty());
            }
            while t < plen
                invariant
                    t <= plen,
                    pstart + plen <= n,
                    n == bytes@.len(),
                    buf@ == bytes@.subrange(pstart as int, pstart + t),
                decreases plen - t,
            {
                buf.push(bytes[pstart + t]);
                proof {
                    assert(bytes@.subrange(pstart as int, pstart + t + 1) =~= bytes@.subrange(
                        pstart as int,
                        pstart + t,
                    ).push(bytes@[pstart + t]));
                }
                t = t + 1;
            }
            return Ok((ByteString::new(buf), pstart + plen));
        }
        if b < DIGIT_0 || b > DIGIT_9 {
            return Err(BencodeError::MalformedStringLength);
        }
        proof {
            assert(scan_str(bytes@, pos as int, j as int) == scan_str(
                bytes@,
                pos as int,
                j + 1,
            ));
            assert(bytes@.subrange(pos as int, j + 1).drop_last() =~= bytes@.subrange(
                pos as int,
                j as int,
            ));
            assert forall|t2: int| 0 <= t2 < j as int - pos implies is_ascii_digit(
                #[trigger] bytes@.subrange(pos as int, j as int)[t2],
            ) by {
                assert(bytes@.subrange(pos as int, j as int)[t2] == bytes@[pos + t2]);
            }
            lemma_dec_val_nonneg(bytes@.subrange(pos as int, j as int));
        }
        let d = (b - DIGIT_0) as usize;
        if over {
            proof {
                assert(dec_val(bytes@.subrange(pos as int, j + 1)) == dec_val(
                    bytes@.subrange(pos as int, j as int),
                ) * 10 + d);
            }
        } else if len_acc > (usize::MAX - d) / 10 {
            proof {
                let q = ((usize::MAX - d) / 10) as int;
                assert(10 * q <= usize::MAX - d < 10 * (q + 1));
                assert(len_acc * 10 + d > usize::MAX);
            }
            over = true;
        } else {
            proof {
                let q = ((usize::MAX - d) / 10) as int;
                assert(10 * q <= usize::MAX - d);
                assert(len_acc * 10 + d <= usize::MAX);
            }
            len_acc = len_acc * 10 + d;
        }
        j = j + 1;
    }
}

/// Reads the elements of a list: `pos` is the opening `l`; the elements
/// follow, up to and including the terminator.
fn read_list(bytes: &[u8], pos: usize) -> (r: Result<(Vec<BencodeItem>, usize), BencodeError>)
    requires
        pos < bytes@.len(),
        bytes@[pos as int] == TAG_LIST,
    ensures
        ({
            let sp = list_items(bytes@, pos + 1);
            match (r, sp) {
                (Ok((items, end)), Ok((vs, e2))) => items_view(items@) == vs && end as int == e2,
                (Err(a), Err(b)) => a == b,
                _ => false,
            }
        }),
        r matches Ok((items, end)) ==> pos < end <= bytes@.len(),
    decreases bytes@.len() - pos, 0int,
{
    let n = bytes.len();
    let mut res: Vec<BencodeItem> = Vec::new();
    let mut cur = pos + 1;
    proof {
        match list_items(bytes@, pos + 1) {
            Ok((rest, e)) => {
                assert(Seq::<BValue>::empty() + rest =~= rest);
            },
            Err(_) => {},
        }
    }
    loop
        invariant
            pos < cur <= n,
            n == bytes@.len(),
            list_items(bytes@, pos + 1) == items_compose(
                items_view(res@),
                list_items(bytes@, cur as int),
            ),
        decreases n - cur,
    {
        if cur >= n {
            return Err(BencodeError::UnexpectedEnd);
        }
        if bytes[cur] == TAG_END {
            proof {
                assert(items_view(res@) + Seq::<BValue>::empty() =~= items_view(res@));
            }
            return Ok((res, cur + 1));
        }
        match parse_bytes(bytes, cur) {
            Ok((v, end)) => {
                let ghost old_res = res@;
                let ghost vv = v@;
                proof {
                    assert(list_items(bytes@, cur as int) == items_compose(
                        seq![vv],
                        list_items(bytes@, end as int),
                    ));
                    match list_items(bytes@, end as int) {
                        Ok((rest, e2)) => {
                            assert((items_view(old_res) + seq![vv]) + rest =~= items_view(old_res)
                                + (seq![vv] + rest));
                        },
                        Err(_) => {},
                    }
                }
                res.push(v);
                proof {
                    assert(old_res.push(v).drop_last() =~= old_res);
                    assert(items_view(res@) == items_view(old_res).push(vv));
                    assert(items_view(old_res).push(vv) =~= items_view(old_res) + seq![vv]);
                }
                cur = end;
            },
            Err(e) => {
                return Err(e);
            },
        }
    }
}

/// Reads a dictionary: `pos` is the opening `d`; then either an immediate
/// terminator (the empty dictionary) or its pairs. Each key is read as a
/// string, must be valid text, and is followed by its value.
fn read_dict(bytes: &[u8], pos: usize) -> (r: Result<
    (Vec<(DictKey, BencodeItem)>, usize),
    BencodeError,
>)
    requires
        pos < bytes@.len(),
        bytes@[pos as int] == TAG_DICT,
    ensures
        ({
            let sp = spec_dict(bytes@, pos as int);
            match (r, sp) {
                (Ok((d, end)), Ok((w, e2))) => w == BValue::Dict(pairs_view(d@)) && end as int
                    == e2,
                (Err(a), Err(b)) => a == b,
                _ => false,
            }
        }),
        r matches Ok((d, end)) ==> pos < end <= bytes@.len(),
    decreases bytes@.len() - pos, 0int,
{
    let n = bytes.len();
    let mut res: Vec<(DictKey, BencodeItem)> = Vec::new();
    if pos + 1 >= n {
        return Err(BencodeError::UnexpectedEnd);
    }
    if bytes[pos + 1] == TAG_END {
        return Ok((res, pos + 2));
    }
    let mut cur = pos + 1;
    proof {
        match dict_items(bytes@, pos + 1) {
            Ok((rest, e)) => {
                assert(Seq::<(Seq<u8>, BValue)>::empty() + rest =~= rest);
            },
            Err(_) => {},
        }
    }
    loop
        invariant
            pos < cur < n,
            pos + 1 < n,
            n == bytes@.len(),
            bytes@[pos + 1] != TAG_END,
            dict_items(bytes@, pos + 1) == pairs_compose(
                pairs_view(res@),
                dict_items(bytes@, cur as int),
            ),
        decreases n - cur,
    {
        match read_string(bytes, cur) {
            Ok((kb, kend)) => {
                if !crate::text::is_valid_text(kb.bytes.as_slice()) {
                    return Err(BencodeError::DictKeyNotText);
                }
                let ghost kv = kb@;
                let key = DictKey::from_valid(kb.bytes);
                match parse_bytes(bytes, kend) {
                    Ok((v, vend)) => {
                        let ghost old_res = res@;
                        let ghost vv = v@;
                        res.push((key, v));
                        proof {
                            assert(old_res.push((key, v)).drop_last() =~= old_res);
                            assert(pairs_view(res@) == pairs_view(old_res).push((kv, vv)));
                            assert(pairs_view(old_res).push((kv, vv)) =~= pairs_view(old_res)
                                + seq![(kv, vv)]);
                        }
                        if vend >= n {
                            return Err(BencodeError::UnexpectedEnd);
                        }
                        if bytes[vend] == TAG_END {
                            proof {
                                assert(dict_items(bytes@, cur as int) == Ok::<
                                    (Seq<(Seq<u8>, BValue)>, int),
                                    BencodeError,
                                >((seq![(kv, vv)], vend + 1)));
                                assert(pairs_view(old_res) + seq![(kv, vv)] == pairs_view(res@));
                            }
                            return Ok((res, vend + 1));
                        }
                        proof {
                            assert(dict_items(bytes@, cur as int) == pairs_compose(
                                seq![(kv, vv)],
                                dict_items(bytes@, vend as int),
                            ));
                            match dict_items(bytes@, vend as int) {
                                Ok((rest, e2)) => {
                                    assert((pairs_view(old_res) + seq![(kv, vv)]) + rest
                                        =~= pairs_view(old_res) + (seq![(kv, vv)] + rest));
                                },
                                Err(_) => {},
                            }
                        }
                        cur = vend;
                    },
                    Err(e) => {
                        return Err(e);
                    },
                }
            },
            Err(e) => {
                return Err(e);
            },
        }
    }
}

/// Parses one value from `bytes` at `pos`: dispatches on the first byte as
/// the grammar does, and returns the value with the position one past its
/// encoding. Bytes after that position are not looked at.
pub fn parse_bytes(bytes: &[u8], pos: usize) -> (r: Result<(BencodeItem, usize), BencodeError>)
    ensures
        parse_matches(r, spec_parse(bytes@, pos as int)),
        r matches Ok((v, end)) ==> pos < end <= bytes@.len(),
    decreases bytes@.len() - pos, 1int,
{
    let n = bytes.len();
    if pos >= n {
        return Err(BencodeError::UnexpectedEnd);
    }
    let b = bytes[pos];
    if b == TAG_DICT {
        match read_dict(bytes, pos) {
            Ok((d, end)) => Ok((BencodeItem::Dict(d), end)),
            Err(e) => Err(e),
        }
    } else if b == TAG_INT {
        match read_int(bytes, pos) {
            Ok((v, end)) => Ok((BencodeItem::Int(v), end)),
            Err(e) => Err(e),
        }
    } else if b == TAG_LIST {
        match read_list(bytes, pos) {
            Ok((items, end)) => Ok((BencodeItem::List(items), end)),
            Err(e) => Err(e),
        }
    } else if DIGIT_0 <= b && b <= DIGIT_9 {
        match read_string(bytes, pos) {
            Ok((bs, end)) => Ok((BencodeItem::String(bs), end)),
            Err(e) => Err(e),
        }
    } else if b == TAG_END {
        Err(BencodeError::UnexpectedTerminator)
    } else {
        Err(BencodeError::UnknownTag(b))
    }
}

/// Decodes the first value of `bytes`: the result the grammar assigns to a
/// parse from the start. Trailing bytes after the value are ignored.
pub fn decode(bytes: &[u8]) -> (r: Result<BencodeItem, BencodeError>)
    ensures
        ({
            match (r, spec_parse(bytes@, 0)) {
                (Ok(v), Ok((w, _))) => v@ == w,
                (Err(a), Err(b)) => a == b,
                _ => false,
            }
        }),
{
    match parse_bytes(bytes, 0) {
        Ok((v, _)) => Ok(v),
        Err(e) => Err(e),
    }
}

} // verus!
