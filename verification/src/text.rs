//! Validity of byte sequences as text (UTF-8).
//!
//! Dictionary keys are required to be valid text. `is_utf8` is the
//! specification-level predicate, stated over the standard UTF-8 byte
//! grammar: one- to four-byte sequences with the usual range restrictions,
//! no overlong forms, no surrogate code points, nothing above U+10FFFF.
//! `is_valid_text` is the verified executable check.

use vstd::prelude::*;

verus! {

/// A continuation byte of a multi-byte UTF-8 sequence.
pub open spec fn is_cont(b: u8) -> bool {
    0x80 <= b <= 0xBF
}

/// Whether `s` is a valid UTF-8 byte sequence.
pub open spec fn is_utf8(s: Seq<u8>) -> bool
    decreases s.len(),
{
    if s.len() == 0 {
        true
    } else {
        let b0 = s[0];
        if b0 < 0x80 {
            is_utf8(s.skip(1))
        } else if 0xC2 <= b0 && b0 <= 0xDF {
            s.len() >= 2 && is_cont(s[1]) && is_utf8(s.skip(2))
        } else if b0 == 0xE0 {
            s.len() >= 3 && 0xA0 <= s[1] && s[1] <= 0xBF && is_cont(s[2]) && is_utf8(s.skip(3))
        } else if 0xE1 <= b0 && b0 <= 0xEC {
            s.len() >= 3 && is_cont(s[1]) && is_cont(s[2]) && is_utf8(s.skip(3))
        } else if b0 == 0xED {
            s.len() >= 3 && 0x80 <= s[1] && s[1] <= 0x9F && is_cont(s[2]) && is_utf8(s.skip(3))
        } else if 0xEE <= b0 && b0 <= 0xEF {
            s.len() >= 3 && is_cont(s[1]) && is_cont(s[2]) && is_utf8(s.skip(3))
        } else if b0 == 0xF0 {
            s.len() >= 4 && 0x90 <= s[1] && s[1] <= 0xBF && is_cont(s[2]) && is_cont(s[3])
                && is_utf8(s.skip(4))
        } else if 0xF1 <= b0 && b0 <= 0xF3 {
            s.len() >= 4 && is_cont(s[1]) && is_cont(s[2]) && is_cont(s[3]) && is_utf8(s.skip(4))
        } else if b0 == 0xF4 {
            s.len() >= 4 && 0x80 <= s[1] && s[1] <= 0x8F && is_cont(s[2]) && is_cont(s[3])
                && is_utf8(s.skip(4))
        } else {
            false
        }
    }
}

proof fn lemma_skip_skip(s: Seq<u8>, i: int, k: int)
    requires
        0 <= i,
        0 <= k,
        i + k <= s.len(),
    ensures
        s.skip(i).skip(k) == s.skip(i + k),
{
    assert(s.skip(i).skip(k) =~= s.skip(i + k));
}

/// Whether the bytes are valid text.
pub fn is_valid_text(bytes: &[u8]) -> (r: bool)
    ensures
        r == is_utf8(bytes@),
{
    let n = bytes.len();
    let mut i: usize = 0;
    proof {
        assert(bytes@.skip(0) =~= bytes@);
    }
    while i < n
        invariant
            i <= n,
            n == bytes@.len(),
            is_utf8(bytes@) == is_utf8(bytes@.skip(i as int)),
        decreases n - i,
    {
        let ghost rest = bytes@.skip(i as int);
        let b0 = bytes[i];
        assert(rest[0] == b0);
        if b0 < 0x80 {
            proof {
                lemma_skip_skip(bytes@, i as int, 1);
            }
            i = i + 1;
        } else if 0xC2 <= b0 && b0 <= 0xDF {
            if !(i + 1 < n && 0x80 <= bytes[i + 1] && bytes[i + 1] <= 0xBF) {
                return false;
            }
            assert(rest[1] == bytes@[i + 1]);
            proof {
                lemma_skip_skip(bytes@, i as int, 2);
            }
            i = i + 2;
        } else if 0xE0 <= b0 && b0 <= 0xEF {
            let lo: u8 = if b0 == 0xE0 {
                0xA0
            } else {
                0x80
            };
            let hi: u8 = if b0 == 0xED {
                0x9F
            } else {
                0xBF
            };
            if !(n - i > 2 && lo <= bytes[i + 1] && bytes[i + 1] <= hi && 0x80 <= bytes[i + 2]
                && bytes[i + 2] <= 0xBF) {
                return false;
            }
            assert(rest[1] == bytes@[i + 1] && rest[2] == bytes@[i + 2]);
            proof {
                lemma_skip_skip(bytes@, i as int, 3);
            }
            i = i + 3;
        } else if 0xF0 <= b0 && b0 <= 0xF4 {
            let lo: u8 = if b0 == 0xF0 {
                0x90
            } else {
                0x80
            };
            let hi: u8 = if b0 == 0xF4 {
                0x8F
            } else {
                0xBF
            };
            if !(n - i > 3 && lo <= bytes[i + 1] && bytes[i + 1] <= hi && 0x80 <= bytes[i + 2]
                && bytes[i + 2] <= 0xBF && 0x80 <= bytes[i + 3] && bytes[i + 3] <= 0xBF) {
                return false;
            }
            assert(rest[1] == bytes@[i + 1] && rest[2] == bytes@[i + 2] && rest[3] == bytes@[i
                + 3]);
            proof {
                lemma_skip_skip(bytes@, i as int, 4);
            }
            i = i + 4;
        } else {
            return false;
        }
    }
    true
}

} // verus!
