//! Validity of UTF-8 byte sequences, as the line parser demands it of a
//! line before classifying it.

use vstd::prelude::*;

verus! {

/// A UTF-8 continuation byte.
pub open spec fn is_cont(b: u8) -> bool {
    128 <= b && b < 192
}

/// Whether the bytes of `s` from `i` on are a valid UTF-8 encoding: one- to
/// four-byte sequences, shortest form only, no surrogates, nothing above
/// the last code point — exactly the sequences std's UTF-8 validation
/// accepts.
pub open spec fn utf8_valid_from(s: Seq<u8>, i: int) -> bool
    decreases s.len() - i,
{
    if i >= s.len() {
        true
    } else {
        let b = s[i];
        if b < 128 {
            utf8_valid_from(s, i + 1)
        } else if 194 <= b && b <= 223 {
            i + 1 < s.len() && is_cont(s[i + 1]) && utf8_valid_from(s, i + 2)
        } else if b == 224 {
            i + 2 < s.len() && 160 <= s[i + 1] && s[i + 1] < 192 && is_cont(s[i + 2])
                && utf8_valid_from(s, i + 3)
        } else if 225 <= b && b <= 236 {
            i + 2 < s.len() && is_cont(s[i + 1]) && is_cont(s[i + 2]) && utf8_valid_from(s, i + 3)
        } else if b == 237 {
            i + 2 < s.len() && 128 <= s[i + 1] && s[i + 1] < 160 && is_cont(s[i + 2])
                && utf8_valid_from(s, i + 3)
        } else if 238 <= b && b <= 239 {
            i + 2 < s.len() && is_cont(s[i + 1]) && is_cont(s[i + 2]) && utf8_valid_from(s, i + 3)
        } else if b == 240 {
            i + 3 < s.len() && 144 <= s[i + 1] && s[i + 1] < 192 && is_cont(s[i + 2]) && is_cont(
                s[i + 3],
            ) && utf8_valid_from(s, i + 4)
        } else if 241 <= b && b <= 243 {
            i + 3 < s.len() && is_cont(s[i + 1]) && is_cont(s[i + 2]) && is_cont(s[i + 3])
                && utf8_valid_from(s, i + 4)
        } else if b == 244 {
            i + 3 < s.len() && 128 <= s[i + 1] && s[i + 1] < 144 && is_cont(s[i + 2]) && is_cont(
                s[i + 3],
            ) && utf8_valid_from(s, i + 4)
        } else {
            false
        }
    }
}

/// An all-ASCII byte sequence is valid UTF-8.
pub proof fn lemma_ascii_utf8_valid(s: Seq<u8>, i: int)
    requires
        0 <= i <= s.len(),
        forall|k: int| 0 <= k < s.len() ==> s[k] < 128,
    ensures
        utf8_valid_from(s, i),
    decreases s.len() - i,
{
    if i < s.len() {
        lemma_ascii_utf8_valid(s, i + 1);
    }
}

/// Whether `b` is a UTF-8 continuation byte.
fn cont_byte(b: u8) -> (r: bool)
    ensures
        r == is_cont(b),
{
    128 <= b && b < 192
}

/// Whether `s` is a valid UTF-8 encoding.
pub fn utf8_valid(s: &[u8]) -> (r: bool)
    ensures
        r == utf8_valid_from(s@, 0),
{
    let n = s.len();
    let mut i: usize = 0;
    while i < n
        invariant
            i <= n,
            n == s@.len(),
            utf8_valid_from(s@, 0) == utf8_valid_from(s@, i as int),
        decreases n - i,
    {
        let b = s[i];
        if b < 128 {
            i = i + 1;
        } else if 194 <= b && b <= 223 {
            if n - i > 1 && cont_byte(s[i + 1]) {
                i = i + 2;
            } else {
                return false;
            }
        } else if b == 224 {
            if n - i > 2 && 160 <= s[i + 1] && s[i + 1] < 192 && cont_byte(s[i + 2]) {
                i = i + 3;
            } else {
                return false;
            }
        } else if 225 <= b && b <= 236 {
            if n - i > 2 && cont_byte(s[i + 1]) && cont_byte(s[i + 2]) {
                i = i + 3;
            } else {
                return false;
            }
        } else if b == 237 {
            if n - i > 2 && 128 <= s[i + 1] && s[i + 1] < 160 && cont_byte(s[i + 2]) {
                i = i + 3;
            } else {
                return false;
            }
        } else if 238 <= b && b <= 239 {
            if n - i > 2 && cont_byte(s[i + 1]) && cont_byte(s[i + 2]) {
                i = i + 3;
            } else {
                return false;
            }
        } else if b == 240 {
            if n - i > 3 && 144 <= s[i + 1] && s[i + 1] < 192 && cont_byte(s[i + 2]) && cont_byte(
                s[i + 3],
            ) {
                i = i + 4;
            } else {
                return false;
            }
        } else if 241 <= b && b <= 243 {
            if n - i > 3 && cont_byte(s[i + 1]) && cont_byte(s[i + 2]) && cont_byte(s[i + 3]) {
                i = i + 4;
            } else {
                return false;
            }
        } else if b == 244 {
            if n - i > 3 && 128 <= s[i + 1] && s[i + 1] < 144 && cont_byte(s[i + 2]) && cont_byte(
                s[i + 3],
            ) {
                i = i + 4;
            } else {
                return false;
            }
        } else {
            return false;
        }
    }
    true
}

} // verus!
