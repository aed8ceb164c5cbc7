//! Byte-level helpers shared by the grammar and the lookup engine: scanning
//! for a delimiter, trimming whitespace, comparing tokens, and reading
//! decimal numbers.

use vstd::prelude::*;

verus! {

/// First index `>= i` at which `c` occurs in `s`, if any.
pub open spec fn find_from(s: Seq<u8>, i: int, c: u8) -> Option<int>
    decreases s.len() - i,
{
    if i >= s.len() {
        None
    } else if i < 0 {
        None
    } else if s[i] == c {
        Some(i)
    } else {
        find_from(s, i + 1, c)
    }
}

/// Full characterisation of `find_from`.
pub proof fn lemma_find_from(s: Seq<u8>, i: int, c: u8)
    requires
        0 <= i <= s.len(),
    ensures
        match find_from(s, i, c) {
            Some(j) => i <= j < s.len() && s[j] == c && forall|k: int| i <= k < j ==> s[k] != c,
            None => forall|k: int| i <= k < s.len() ==> s[k] != c,
        },
    decreases s.len() - i,
{
    if i < s.len() && s[i] != c {
        lemma_find_from(s, i + 1, c);
    }
}

/// The index of a witness occurrence with none before it pins `find_from` down.
pub proof fn lemma_find_from_is(s: Seq<u8>, i: int, c: u8, j: int)
    requires
        0 <= i <= j < s.len(),
        s[j] == c,
        forall|k: int| i <= k < j ==> s[k] != c,
    ensures
        find_from(s, i, c) == Some(j),
    decreases j - i,
{
    if i < j {
        lemma_find_from_is(s, i + 1, c, j);
    }
}

/// If `c` occurs nowhere at or after `i`, `find_from` reports so.
pub proof fn lemma_find_from_none(s: Seq<u8>, i: int, c: u8)
    requires
        0 <= i <= s.len(),
        forall|k: int| i <= k < s.len() ==> s[k] != c,
    ensures
        find_from(s, i, c) is None,
{
    lemma_find_from(s, i, c);
}

/// First occurrence of `c` in `s` at or after `start`.
pub fn find_byte_from(s: &[u8], start: usize, c: u8) -> (r: Option<usize>)
    requires
        start <= s@.len(),
    ensures
        match r {
            Some(j) => start <= j < s@.len() && s@[j as int] == c && find_from(
                s@,
                start as int,
                c,
            ) == Some(j as int),
            None => find_from(s@, start as int, c) is None,
        },
{
    let mut i: usize = start;
    while i < s.len()
        invariant
            start <= i <= s@.len(),
            forall|k: int| start <= k < i ==> s@[k] != c,
        decreases s@.len() - i,
    {
        if s[i] == c {
            proof {
                lemma_find_from_is(s@, start as int, c, i as int);
            }
            return Some(i);
        }
        i = i + 1;
    }
    proof {
        lemma_find_from_none(s@, start as int, c);
    }
    None
}

/// Whether two byte slices hold the same bytes.
pub fn bytes_eq(a: &[u8], b: &[u8]) -> (r: bool)
    ensures
        r == (a@ == b@),
{
    if a.len() != b.len() {
        assert(a@.len() != b@.len());
        return false;
    }
    let mut i: usize = 0;
    while i < a.len()
        invariant
            a@.len() == b@.len(),
            0 <= i <= a@.len(),
            forall|k: int| 0 <= k < i ==> a@[k] == b@[k],
        decreases a@.len() - i,
    {
        if a[i] != b[i] {
            assert(a@ != b@);
            return false;
        }
        i = i + 1;
    }
    assert(a@ =~= b@);
    true
}

/// A line terminator byte: line feed or carriage return.
pub open spec fn is_term(b: u8) -> bool {
    b == 10 || b == 13
}

/// First index `>= i` at which a line terminator occurs in `s`, if any.
pub open spec fn find_term_from(s: Seq<u8>, i: int) -> Option<int>
    decreases s.len() - i,
{
    if i >= s.len() {
        None
    } else if i < 0 {
        None
    } else if is_term(s[i]) {
        Some(i)
    } else {
        find_term_from(s, i + 1)
    }
}

/// Full characterisation of `find_term_from`.
pub proof fn lemma_find_term_from(s: Seq<u8>, i: int)
    requires
        0 <= i <= s.len(),
    ensures
        match find_term_from(s, i) {
            Some(j) => i <= j < s.len() && is_term(s[j]) && forall|k: int|
                i <= k < j ==> !is_term(s[k]),
            None => forall|k: int| i <= k < s.len() ==> !is_term(s[k]),
        },
    decreases s.len() - i,
{
    if i < s.len() && !is_term(s[i]) {
        lemma_find_term_from(s, i + 1);
    }
}

proof fn lemma_find_term_is(s: Seq<u8>, i: int, j: int)
    requires
        0 <= i <= j < s.len(),
        is_term(s[j]),
        forall|k: int| i <= k < j ==> !is_term(s[k]),
    ensures
        find_term_from(s, i) == Some(j),
    decreases j - i,
{
    if i < j {
        lemma_find_term_is(s, i + 1, j);
    }
}

/// First line terminator in `s` at or after `start`.
pub fn find_term(s: &[u8], start: usize) -> (r: Option<usize>)
    requires
        start <= s@.len(),
    ensures
        match r {
            Some(j) => start <= j < s@.len() && is_term(s@[j as int]) && find_term_from(
                s@,
                start as int,
            ) == Some(j as int),
            None => find_term_from(s@, start as int) is None,
        },
{
    let mut i: usize = start;
    while i < s.len()
        invariant
            start <= i <= s@.len(),
            forall|k: int| start <= k < i ==> !is_term(s@[k]),
        decreases s@.len() - i,
    {
        let b = s[i];
        if b == 10 || b == 13 {
            proof {
                lemma_find_term_is(s@, start as int, i as int);
            }
            return Some(i);
        }
        i = i + 1;
    }
    proof {
        lemma_find_term_from(s@, start as int);
    }
    None
}

/// Last index at which `c` occurs in `s`, if any.
pub open spec fn find_last(s: Seq<u8>, c: u8) -> Option<int>
    decreases s.len(),
{
    if s.len() == 0 {
        None
    } else if s.last() == c {
        Some(s.len() - 1)
    } else {
        find_last(s.drop_last(), c)
    }
}

/// The index of a witness occurrence with none after it pins `find_last` down.
pub proof fn lemma_find_last_is(s: Seq<u8>, c: u8, j: int)
    requires
        0 <= j < s.len(),
        s[j] == c,
        forall|k: int| j < k < s.len() ==> s[k] != c,
    ensures
        find_last(s, c) == Some(j),
    decreases s.len(),
{
    if j < s.len() - 1 {
        let t = s.drop_last();
        assert(forall|k: int| 0 <= k < t.len() ==> t[k] == s[k]);
        lemma_find_last_is(t, c, j);
    }
}

/// If `c` occurs nowhere in `s`, `find_last` reports so.
pub proof fn lemma_find_last_none(s: Seq<u8>, c: u8)
    requires
        forall|k: int| 0 <= k < s.len() ==> s[k] != c,
    ensures
        find_last(s, c) is None,
    decreases s.len(),
{
    if s.len() > 0 {
        let t = s.drop_last();
        assert(forall|k: int| 0 <= k < t.len() ==> t[k] == s[k]);
        lemma_find_last_none(t, c);
    }
}

/// Last occurrence of `c` in `s`.
pub fn find_byte_last(s: &[u8], c: u8) -> (r: Option<usize>)
    ensures
        match r {
            Some(j) => j < s@.len() && s@[j as int] == c && find_last(s@, c) == Some(j as int),
            None => find_last(s@, c) is None,
        },
{
    let mut i: usize = s.len();
    while i > 0
        invariant
            0 <= i <= s@.len(),
            forall|k: int| i <= k < s@.len() ==> s@[k] != c,
        decreases i,
    {
        i = i - 1;
        if s[i] == c {
            proof {
                lemma_find_last_is(s@, c, i as int);
            }
            return Some(i);
        }
    }
    proof {
        lemma_find_last_none(s@, c);
    }
    None
}

/// ASCII decimal digit.
pub open spec fn is_digit(b: u8) -> bool {
    48 <= b && b <= 57
}

/// Every byte of `s` is a decimal digit.
pub open spec fn all_digits(s: Seq<u8>) -> bool {
    forall|i: int| 0 <= i < s.len() ==> is_digit(#[trigger] s[i])
}

/// The value of a digit string, most significant digit first.
pub open spec fn digits_val(s: Seq<u8>) -> int
    decreases s.len(),
{
    if s.len() == 0 {
        0
    } else {
        digits_val(s.drop_last()) * 10 + (s.last() - 48)
    }
}

pub proof fn lemma_digits_val_nonneg(s: Seq<u8>)
    requires
        all_digits(s),
    ensures
        digits_val(s) >= 0,
    decreases s.len(),
{
    if s.len() > 0 {
        assert(all_digits(s.drop_last())) by {
            assert(forall|i: int| 0 <= i < s.len() - 1 ==> s.drop_last()[i] == s[i]);
        }
        lemma_digits_val_nonneg(s.drop_last());
    }
}

/// What reading a line number from a token yields: the value of a non-empty
/// all-digit token that fits in `usize`, and nothing otherwise.
pub open spec fn parse_num(s: Seq<u8>) -> Option<usize> {
    if s.len() > 0 && all_digits(s) && digits_val(s) <= usize::MAX {
        Some(digits_val(s) as usize)
    } else {
        None
    }
}

/// Reads a decimal number from a byte token.
pub fn parse_usize(s: &[u8]) -> (r: Option<usize>)
    ensures
        r == parse_num(s@),
{
    if s.len() == 0 {
        return None;
    }
    let mut i: usize = 0;
    let mut v: usize = 0;
    while i < s.len()
        invariant
            0 <= i <= s@.len(),
            s@.len() > 0,
            all_digits(s@.subrange(0, i as int)),
            v == digits_val(s@.subrange(0, i as int)),
        decreases s@.len() - i,
    {
        let b = s[i];
        if b < 48 || b > 57 {
            assert(!is_digit(s@[i as int]));
            assert(!all_digits(s@));
            return None;
        }
        let d: usize = (b - 48) as usize;
        let ghost pre = s@.subrange(0, i as int);
        let ghost cur = s@.subrange(0, i as int + 1);
        assert(cur.drop_last() =~= pre);
        assert(cur.last() == s@[i as int]);
        assert(all_digits(cur)) by {
            assert(forall|k: int| 0 <= k < cur.len() - 1 ==> cur[k] == pre[k]);
        }
        let scaled = match v.checked_mul(10) {
            Some(w) => w.checked_add(d),
            None => None,
        };
        match scaled {
            Some(w) => {
                v = w;
                assert(v == digits_val(cur));
            }
            None => {
                assert(digits_val(cur) > usize::MAX);
                proof {
                    lemma_digits_prefix_overflow(s@, i as int + 1);
                }
                return None;
            }
        }
        i = i + 1;
    }
    assert(s@.subrange(0, s@.len() as int) =~= s@);
    Some(v)
}

/// Once a digit prefix exceeds `usize::MAX`, the full digit string does too.
proof fn lemma_digits_prefix_overflow(s: Seq<u8>, n: int)
    requires
        0 <= n <= s.len(),
        digits_val(s.subrange(0, n)) > usize::MAX,
    ensures
        !(all_digits(s) && digits_val(s) <= usize::MAX),
    decreases s.len() - n,
{
    if n == s.len() {
        assert(s.subrange(0, n) =~= s);
    } else {
        if all_digits(s) {
            let p = s.subrange(0, n);
            let q = s.subrange(0, n + 1);
            assert(q.drop_last() =~= p);
            assert(is_digit(q.last()));
            assert(digits_val(q) == digits_val(p) * 10 + (q.last() - 48));
            assert(digits_val(q) > usize::MAX);
            lemma_digits_prefix_overflow(s, n + 1);
        }
    }
}

/// ASCII whitespace, as a header's key and value are trimmed of it.
pub open spec fn is_space(b: u8) -> bool {
    b == 32 || (9 <= b && b <= 13)
}

/// `s` without leading or trailing ASCII whitespace.
pub open spec fn trim_spec(s: Seq<u8>) -> Seq<u8> {
    trim_end(trim_start(s))
}

pub open spec fn trim_start(s: Seq<u8>) -> Seq<u8>
    decreases s.len(),
{
    if s.len() > 0 && is_space(s[0]) {
        trim_start(s.drop_first())
    } else {
        s
    }
}

pub open spec fn trim_end(s: Seq<u8>) -> Seq<u8>
    decreases s.len(),
{
    if s.len() > 0 && is_space(s.last()) {
        trim_end(s.drop_last())
    } else {
        s
    }
}

proof fn lemma_trim_start_at(s: Seq<u8>, i: int)
    requires
        0 <= i <= s.len(),
        forall|k: int| 0 <= k < i ==> is_space(s[k]),
        i < s.len() ==> !is_space(s[i]),
    ensures
        trim_start(s) == s.subrange(i, s.len() as int),
    decreases i,
{
    if i == 0 {
        if s.len() > 0 {
            assert(!is_space(s[0]));
        }
        assert(s.subrange(0, s.len() as int) =~= s);
    } else {
        let t = s.drop_first();
        assert(is_space(s[0]));
        assert(forall|k: int| 0 <= k < i - 1 ==> t[k] == s[k + 1]);
        lemma_trim_start_at(t, i - 1);
        assert(t.subrange(i - 1, t.len() as int) =~= s.subrange(i, s.len() as int));
    }
}

proof fn lemma_trim_end_at(s: Seq<u8>, j: int)
    requires
        0 <= j <= s.len(),
        forall|k: int| j <= k < s.len() ==> is_space(s[k]),
        j > 0 ==> !is_space(s[j - 1]),
    ensures
        trim_end(s) == s.subrange(0, j),
    decreases s.len() - j,
{
    if j == s.len() {
        if s.len() > 0 {
            assert(!is_space(s.last()));
        }
        assert(s.subrange(0, s.len() as int) =~= s);
    } else {
        let t = s.drop_last();
        assert(is_space(s.last()));
        lemma_trim_end_at(t, j);
        assert(t.subrange(0, j) =~= s.subrange(0, j));
    }
}

/// Whether `b` is ASCII whitespace.
fn space_byte(b: u8) -> (r: bool)
    ensures
        r == is_space(b),
{
    b == 32 || (9 <= b && b <= 13)
}

/// The longest subslice of `s` without leading or trailing whitespace.
pub fn trim_slice<'a>(s: &'a [u8]) -> (r: &'a [u8])
    ensures
        r@ == trim_spec(s@),
{
    let mut a: usize = 0;
    while a < s.len() && space_byte(s[a])
        invariant
            0 <= a <= s@.len(),
            forall|k: int| 0 <= k < a ==> is_space(s@[k]),
        decreases s@.len() - a,
    {
        a = a + 1;
    }
    proof {
        lemma_trim_start_at(s@, a as int);
    }
    let mut b: usize = s.len();
    while b > a && space_byte(s[b - 1])
        invariant
            a <= b <= s@.len(),
            forall|k: int| b <= k < s@.len() ==> is_space(s@[k]),
        decreases b,
    {
        b = b - 1;
    }
    let ghost t = trim_start(s@);
    proof {
        assert(t == s@.subrange(a as int, s@.len() as int));
        assert(forall|k: int| b - a <= k < t.len() ==> is_space(#[trigger] t[k]));
        if b > a {
            assert(t[b - a - 1] == s@[b - 1]);
        }
        lemma_trim_end_at(t, b as int - a as int);
        assert(t.subrange(0, b - a) =~= s@.subrange(a as int, b as int));
    }
    &s[a..b]
}

/// Bytes below 128: each stands for the character with the same code.
pub open spec fn is_ascii_bytes(s: Seq<u8>) -> bool {
    forall|i: int| 0 <= i < s.len() ==> #[trigger] s[i] < 128
}

/// The character sequence that an ASCII byte sequence spells.
pub open spec fn ascii_chars(s: Seq<u8>) -> Seq<char> {
    Seq::new(s.len(), |i: int| s[i] as char)
}

/// Appends every byte of `src` to `dst`.
pub fn append_bytes(dst: &mut Vec<u8>, src: &[u8])
    ensures
        final(dst)@ == old(dst)@ + src@,
{
    let ghost base = dst@;
    let mut i: usize = 0;
    while i < src.len()
        invariant
            base == old(dst)@,
            i <= src@.len(),
            dst@ == base + src@.subrange(0, i as int),
        decreases src@.len() - i,
    {
        let b = src[i];
        dst.push(b);
        proof {
            assert(base + src@.subrange(0, i as int + 1) =~= (base + src@.subrange(
                0,
                i as int,
            )).push(b));
        }
        i = i + 1;
    }
    proof {
        assert(src@.subrange(0, src@.len() as int) =~= src@);
    }
}

/// The character sequence that std's lossy UTF-8 decoding assigns to a
/// byte sequence: a function of the bytes alone.
pub uninterp spec fn lossy_text_of(b: Seq<u8>) -> Seq<char>;

/// Relies on `String::from_utf8_lossy` of std: the result depends on the
/// bytes alone, and ASCII bytes decode to the characters with the same
/// codes.
#[verifier::external_body]
pub fn bytes_to_string(b: &[u8]) -> (r: String)
    ensures
        r@ == lossy_text_of(b@),
        is_ascii_bytes(b@) ==> r@ == ascii_chars(b@),
{
    String::from_utf8_lossy(b).into_owned()
}

} // verus!
