//! Character-level text handling: whitespace trimming, splitting and
//! decimal numbers, stated over `Seq<char>`.
use vstd::prelude::*;

verus! {

/// Unicode `White_Space`, the set that `char::is_whitespace` tests.
pub open spec fn is_ws(c: char) -> bool {
    ||| ('\u{9}' <= c && c <= '\u{d}')
    ||| c == ' '
    ||| c == '\u{85}'
    ||| c == '\u{a0}'
    ||| c == '\u{1680}'
    ||| ('\u{2000}' <= c && c <= '\u{200a}')
    ||| c == '\u{2028}'
    ||| c == '\u{2029}'
    ||| c == '\u{202f}'
    ||| c == '\u{205f}'
    ||| c == '\u{3000}'
}

/// `s` without its trailing whitespace.
pub open spec fn trim_end(s: Seq<char>) -> Seq<char>
    decreases s.len(),
{
    if s.len() > 0 && is_ws(s.last()) {
        trim_end(s.drop_last())
    } else {
        s
    }
}

/// `s` without its leading whitespace.
pub open spec fn trim_start(s: Seq<char>) -> Seq<char>
    decreases s.len(),
{
    if s.len() > 0 && is_ws(s[0]) {
        trim_start(s.drop_first())
    } else {
        s
    }
}

/// `s` without leading and trailing whitespace.
pub open spec fn trim(s: Seq<char>) -> Seq<char> {
    trim_end(trim_start(s))
}

/// The leading run of non-whitespace characters of `s`.
pub open spec fn leading_word(s: Seq<char>) -> Seq<char>
    decreases s.len(),
{
    if s.len() == 0 || is_ws(s[0]) {
        Seq::empty()
    } else {
        seq![s[0]] + leading_word(s.drop_first())
    }
}

/// The first whitespace-separated word of `s`, if there is one.
pub open spec fn first_word(s: Seq<char>) -> Option<Seq<char>> {
    let t = trim_start(s);
    if t.len() == 0 {
        None
    } else {
        Some(leading_word(t))
    }
}

/// Position of the last occurrence of `c` in `s`.
pub open spec fn last_index_of(s: Seq<char>, c: char) -> Option<int>
    decreases s.len(),
{
    if s.len() == 0 {
        None
    } else if s.last() == c {
        Some(s.len() - 1)
    } else {
        last_index_of(s.drop_last(), c)
    }
}

/// ASCII lower-case letters map to upper case; every other character is kept.
pub open spec fn ascii_upper_char(c: char) -> char {
    if 'a' <= c && c <= 'z' {
        ((c as u32) - 32) as char
    } else {
        c
    }
}

pub open spec fn ascii_upper(s: Seq<char>) -> Seq<char> {
    s.map_values(|c: char| ascii_upper_char(c))
}

/// Why a decimal number could not be read; the variants of std's
/// `IntErrorKind` that unsigned parsing can produce.
#[derive(Clone, Copy, Debug, PartialEq, Eq, Structural)]
pub enum IntParseError {
    Empty,
    InvalidDigit,
    PosOverflow,
}

impl IntParseError {
    /// The message that std prints for this kind of error.
    pub fn message(&self) -> (r: String)
        ensures
            r@ == int_error_text(*self),
    {
        match self {
            IntParseError::Empty => String::from_str("cannot parse integer from empty string"),
            IntParseError::InvalidDigit => String::from_str("invalid digit found in string"),
            IntParseError::PosOverflow => String::from_str("number too large to fit in target type"),
        }
    }
}

pub open spec fn int_error_text(e: IntParseError) -> Seq<char> {
    match e {
        IntParseError::Empty => "cannot parse integer from empty string"@,
        IntParseError::InvalidDigit => "invalid digit found in string"@,
        IntParseError::PosOverflow => "number too large to fit in target type"@,
    }
}

pub open spec fn is_digit(c: char) -> bool {
    '0' <= c && c <= '9'
}

pub open spec fn digit_value(c: char) -> int {
    (c as int) - ('0' as int)
}

/// Reads the digits of `s` from the left, starting from the value `acc`,
/// stopping at the first non-digit or the first step that exceeds `u32::MAX`.
pub open spec fn scan_digits(s: Seq<char>, acc: int) -> Result<int, IntParseError>
    decreases s.len(),
{
    if s.len() == 0 {
        Ok(acc)
    } else if !is_digit(s[0]) {
        Err(IntParseError::InvalidDigit)
    } else if acc * 10 + digit_value(s[0]) > u32::MAX {
        Err(IntParseError::PosOverflow)
    } else {
        scan_digits(s.drop_first(), acc * 10 + digit_value(s[0]))
    }
}

/// Decimal `u32` as std's `u32::from_str` reads it: an optional `+`, then
/// one or more ASCII digits.
pub open spec fn parse_u32(s: Seq<char>) -> Result<u32, IntParseError> {
    if s.len() == 0 {
        Err(IntParseError::Empty)
    } else if s[0] == '+' && s.len() == 1 {
        Err(IntParseError::InvalidDigit)
    } else {
        let digits = if s[0] == '+' { s.drop_first() } else { s };
        match scan_digits(digits, 0) {
            Ok(v) => Ok(v as u32),
            Err(e) => Err(e),
        }
    }
}

/// Number of bytes that the UTF-8 encoding of `c` takes.
pub open spec fn utf8_width(c: char) -> nat {
    if (c as u32) < 0x80 {
        1
    } else if (c as u32) < 0x800 {
        2
    } else if (c as u32) < 0x10000 {
        3
    } else {
        4
    }
}

/// Number of bytes of the UTF-8 encoding of `s` (what `str::len` returns).
pub open spec fn utf8_len(s: Seq<char>) -> nat
    decreases s.len(),
{
    if s.len() == 0 {
        0
    } else {
        utf8_len(s.drop_last()) + utf8_width(s.last())
    }
}

proof fn lemma_utf8_len_monotone(s: Seq<char>, i: int)
    requires
        0 <= i <= s.len(),
    ensures
        utf8_len(s.take(i)) <= utf8_len(s),
    decreases s.len() - i,
{
    if i < s.len() {
        lemma_utf8_len_monotone(s, i + 1);
        assert(s.take(i + 1).drop_last() =~= s.take(i));
    } else {
        assert(s.take(i) =~= s);
    }
}

/// Whether `s[lo..hi]` takes exactly `n` bytes in UTF-8.
pub fn utf8_len_is(s: &Vec<char>, lo: usize, hi: usize, n: u64) -> (r: bool)
    requires
        lo <= hi <= s.len(),
        n < 1000,
    ensures
        r == (utf8_len(s@.subrange(lo as int, hi as int)) == n),
{
    let mut total: u64 = 0;
    let mut i = lo;
    while i < hi
        invariant
            lo <= i <= hi <= s.len(),
            n < 1000,
            total == utf8_len(s@.subrange(lo as int, i as int)),
            total <= n,
        decreases hi - i,
    {
        let c = s[i];
        let w: u64 = if (c as u32) < 0x80 {
            1
        } else if (c as u32) < 0x800 {
            2
        } else if (c as u32) < 0x10000 {
            3
        } else {
            4
        };
        proof {
            assert(s@.subrange(lo as int, i + 1).drop_last() =~= s@.subrange(lo as int, i as int));
        }
        if total + w > n {
            proof {
                let full = s@.subrange(lo as int, hi as int);
                assert(full.take(i + 1 - lo) =~= s@.subrange(lo as int, i + 1));
                lemma_utf8_len_monotone(full, i + 1 - lo);
            }
            return false;
        }
        total = total + w;
        i = i + 1;
    }
    total == n
}

/// The characters of `s`, one by one.
pub fn chars_of(s: &str) -> (v: Vec<char>)
    ensures
        v@ == s@,
{
    let n = s.unicode_len();
    let mut v: Vec<char> = Vec::new();
    let mut i: usize = 0;
    while i < n
        invariant
            n == s@.len(),
            i <= n,
            v@ == s@.take(i as int),
        decreases n - i,
    {
        let c = s.get_char(i);
        v.push(c);
        proof {
            assert(s@.take(i + 1) =~= s@.take(i as int).push(c));
        }
        i = i + 1;
    }
    proof {
        assert(s@.take(n as int) =~= s@);
    }
    v
}

/// Collects characters into a `String` (std's `FromIterator<char>` for `String`).
#[verifier::external_body]
pub(crate) fn string_from_chars(cs: &[char]) -> (s: String)
    ensures
        s@ == cs@,
{
    cs.iter().collect()
}

/// Whether `c` is Unicode whitespace.
pub fn char_is_ws(c: char) -> (r: bool)
    ensures
        r == is_ws(c),
{
    ('\u{9}' <= c && c <= '\u{d}') || c == ' ' || c == '\u{85}' || c == '\u{a0}' || c
        == '\u{1680}' || ('\u{2000}' <= c && c <= '\u{200a}') || c == '\u{2028}' || c
        == '\u{2029}' || c == '\u{202f}' || c == '\u{205f}' || c == '\u{3000}'
}

proof fn lemma_trim_end_take(s: Seq<char>, e: int)
    requires
        0 <= e <= s.len(),
        e == 0 || !is_ws(s[e - 1]),
        forall|k: int| e <= k < s.len() ==> is_ws(#[trigger] s[k]),
    ensures
        trim_end(s) == s.take(e),
    decreases s.len(),
{
    if s.len() > e {
        assert(is_ws(s.last()));
        assert(s.drop_last().take(e) =~= s.take(e));
        lemma_trim_end_take(s.drop_last(), e);
    } else {
        assert(s.take(e) =~= s);
        if s.len() > 0 {
            assert(s.last() == s[e - 1]);
        }
    }
}

proof fn lemma_trim_start_skip(s: Seq<char>, b: int)
    requires
        0 <= b <= s.len(),
        b == s.len() || !is_ws(s[b]),
        forall|k: int| 0 <= k < b ==> is_ws(#[trigger] s[k]),
    ensures
        trim_start(s) == s.skip(b),
    decreases b,
{
    if b > 0 {
        assert(is_ws(s[0]));
        assert(s.drop_first().skip(b - 1) =~= s.skip(b));
        lemma_trim_start_skip(s.drop_first(), b - 1);
    } else {
        assert(s.skip(0) =~= s);
    }
}

/// End of `s[lo..hi]` once its trailing whitespace is removed.
pub fn trimmed_end(s: &Vec<char>, lo: usize, hi: usize) -> (e: usize)
    requires
        lo <= hi <= s.len(),
    ensures
        lo <= e <= hi,
        trim_end(s@.subrange(lo as int, hi as int)) == s@.subrange(lo as int, e as int),
{
    let mut e = hi;
    while e > lo && char_is_ws(s[e - 1])
        invariant
            lo <= e <= hi <= s.len(),
            forall|k: int| e <= k < hi ==> is_ws(#[trigger] s@[k]),
        decreases e,
    {
        e = e - 1;
    }
    proof {
        let t = s@.subrange(lo as int, hi as int);
        assert forall|k: int| (e - lo) <= k < t.len() implies is_ws(#[trigger] t[k]) by {
            assert(t[k] == s@[lo + k]);
        }
        lemma_trim_end_take(t, e - lo);
        assert(t.take(e - lo) =~= s@.subrange(lo as int, e as int));
    }
    e
}

/// Start of `s[lo..hi]` once its leading whitespace is removed.
pub fn trimmed_start(s: &Vec<char>, lo: usize, hi: usize) -> (b: usize)
    requires
        lo <= hi <= s.len(),
    ensures
        lo <= b <= hi,
        trim_start(s@.subrange(lo as int, hi as int)) == s@.subrange(b as int, hi as int),
{
    let mut b = lo;
    while b < hi && char_is_ws(s[b])
        invariant
            lo <= b <= hi <= s.len(),
            forall|k: int| lo <= k < b ==> is_ws(#[trigger] s@[k]),
        decreases hi - b,
    {
        b = b + 1;
    }
    proof {
        let t = s@.subrange(lo as int, hi as int);
        assert forall|k: int| 0 <= k < (b - lo) implies is_ws(#[trigger] t[k]) by {
            assert(t[k] == s@[lo + k]);
        }
        lemma_trim_start_skip(t, b - lo);
        assert(t.skip(b - lo) =~= s@.subrange(b as int, hi as int));
    }
    b
}

/// End of the run of non-whitespace characters that starts at `lo`.
fn word_end(s: &Vec<char>, lo: usize, hi: usize) -> (e: usize)
    requires
        lo <= hi <= s.len(),
    ensures
        lo <= e <= hi,
        leading_word(s@.subrange(lo as int, hi as int)) == s@.subrange(lo as int, e as int),
{
    let mut e = lo;
    while e < hi && !char_is_ws(s[e])
        invariant
            lo <= e <= hi <= s.len(),
            forall|k: int| lo <= k < e ==> !is_ws(#[trigger] s@[k]),
        decreases hi - e,
    {
        e = e + 1;
    }
    proof {
        lemma_leading_word(s@, lo as int, hi as int, e as int);
    }
    e
}

proof fn lemma_leading_word(s: Seq<char>, lo: int, hi: int, e: int)
    requires
        0 <= lo <= e <= hi <= s.len(),
        forall|k: int| lo <= k < e ==> !is_ws(#[trigger] s[k]),
        e == hi || is_ws(s[e]),
    ensures
        leading_word(s.subrange(lo, hi)) == s.subrange(lo, e),
    decreases e - lo,
{
    let t = s.subrange(lo, hi);
    if e == lo {
        assert(s.subrange(lo, e) =~= Seq::<char>::empty());
        if t.len() > 0 {
            assert(t[0] == s[e]);
        }
    } else {
        assert(t[0] == s[lo]);
        assert(!is_ws(s[lo]));
        assert(t.drop_first() =~= s.subrange(lo + 1, hi));
        lemma_leading_word(s, lo + 1, hi, e);
        assert(s.subrange(lo, e) =~= seq![s[lo]] + s.subrange(lo + 1, e));
    }
}

/// Bounds of the first whitespace-separated word of `s[lo..hi]`, if any.
pub fn first_word_bounds(s: &Vec<char>, lo: usize, hi: usize) -> (r: Option<(usize, usize)>)
    requires
        lo <= hi <= s.len(),
    ensures
        match r {
            None => first_word(s@.subrange(lo as int, hi as int)) is None,
            Some((b, e)) => lo <= b <= e <= hi && first_word(s@.subrange(lo as int, hi as int))
                == Some(s@.subrange(b as int, e as int)),
        },
{
    let b = trimmed_start(s, lo, hi);
    if b == hi {
        return None;
    }
    let e = word_end(s, b, hi);
    Some((b, e))
}

/// Position of the last `c` in `s[..hi]`.
pub fn last_index(s: &Vec<char>, hi: usize, c: char) -> (r: Option<usize>)
    requires
        hi <= s.len(),
    ensures
        match r {
            None => last_index_of(s@.take(hi as int), c) is None,
            Some(i) => i < hi && last_index_of(s@.take(hi as int), c) == Some(i as int),
        },
{
    let mut j = hi;
    while j > 0
        invariant
            j <= hi <= s.len(),
            last_index_of(s@.take(hi as int), c) == last_index_of(s@.take(j as int), c),
        decreases j,
    {
        if s[j - 1] == c {
            return Some(j - 1);
        }
        proof {
            assert(s@.take(j as int).drop_last() =~= s@.take(j - 1));
        }
        j = j - 1;
    }
    None
}

/// Reads `s[lo..hi]` as a decimal `u32`, as std's `u32::from_str` does.
pub fn parse_u32_at(s: &Vec<char>, lo: usize, hi: usize) -> (r: Result<u32, IntParseError>)
    requires
        lo <= hi <= s.len(),
    ensures
        r == parse_u32(s@.subrange(lo as int, hi as int)),
{
    let ghost t = s@.subrange(lo as int, hi as int);
    if lo == hi {
        return Err(IntParseError::Empty);
    }
    if s[lo] == '+' && hi - lo == 1 {
        return Err(IntParseError::InvalidDigit);
    }
    let start = if s[lo] == '+' { lo + 1 } else { lo };
    proof {
        let digits = if t[0] == '+' { t.drop_first() } else { t };
        assert(digits =~= s@.subrange(start as int, hi as int));
    }
    let mut acc: u32 = 0;
    let mut i = start;
    while i < hi
        invariant
            start <= i <= hi <= s.len(),
            parse_u32(s@.subrange(lo as int, hi as int)) == match scan_digits(
                s@.subrange(start as int, hi as int),
                0,
            ) {
                Ok(v) => Ok(v as u32),
                Err(e) => Err(e),
            },
            scan_digits(s@.subrange(start as int, hi as int), 0) == scan_digits(
                s@.subrange(i as int, hi as int),
                acc as int,
            ),
        decreases hi - i,
    {
        let c = s[i];
        let ghost rest = s@.subrange(i as int, hi as int);
        assert(rest[0] == c);
        if !('0' <= c && c <= '9') {
            return Err(IntParseError::InvalidDigit);
        }
        let d = (c as u32) - ('0' as u32);
        if acc > 429496729 || (acc == 429496729 && d > 5) {
            return Err(IntParseError::PosOverflow);
        }
        acc = acc * 10 + d;
        proof {
            assert(rest.drop_first() =~= s@.subrange(i + 1, hi as int));
        }
        i = i + 1;
    }
    proof {
        assert(s@.subrange(i as int, hi as int) =~= Seq::<char>::empty());
    }
    Ok(acc)
}

/// ASCII upper-casing of every character, as `str::to_ascii_uppercase` does.
pub fn ascii_uppercase(s: &str) -> (r: String)
    ensures
        r@ == ascii_upper(s@),
{
    let cs = chars_of(s);
    let mut out: Vec<char> = Vec::new();
    let mut i: usize = 0;
    while i < cs.len()
        invariant
            i <= cs.len(),
            cs@ == s@,
            out@ =~= ascii_upper(cs@.take(i as int)),
        decreases cs.len() - i,
    {
        let c = cs[i];
        let u = if 'a' <= c && c <= 'z' {
            char_from_u32_ascii((c as u32) - 32)
        } else {
            c
        };
        out.push(u);
        proof {
            assert(cs@.take(i + 1) =~= cs@.take(i as int).push(c));
        }
        i = i + 1;
    }
    proof {
        assert(cs@.take(cs.len() as int) =~= cs@);
    }
    string_from_chars(out.as_slice())
}

/// The ASCII character with code `n`.
fn char_from_u32_ascii(n: u32) -> (c: char)
    requires
        n < 128,
    ensures
        c == n as char,
{
    let b = n as u8;
    b as char
}

} // verus!
