//! Character and byte-level text helpers shared by the readers and writers:
//! searching, decimal numbers, and the conversions between strings, characters
//! and UTF-8 bytes.

use vstd::prelude::*;
use vstd::utf8::*;

verus! {

broadcast use vstd::utf8::group_utf8_lib;

// ---------------------------------------------------------------------------
// Conversions between strings, characters and bytes
// ---------------------------------------------------------------------------

/// The characters of a string slice, as a vector.
#[verifier::external_body]
pub(crate) fn chars_of(s: &str) -> (v: Vec<char>)
    ensures
        v@ == s@,
{
    s.chars().collect()
}

/// A string holding exactly the given characters.
#[verifier::external_body]
pub(crate) fn string_of(v: &[char]) -> (s: String)
    ensures
        s@ == v@,
{
    v.iter().collect()
}

/// The UTF-8 bytes of a string slice.
pub fn bytes_of(s: &str) -> (v: Vec<u8>)
    ensures
        v@ == encode_utf8(s@),
{
    let b = s.as_bytes();
    let mut v: Vec<u8> = Vec::new();
    let mut i: usize = 0;
    while i < b.len()
        invariant
            i <= b@.len(),
            b@ == encode_utf8(s@),
            v@ == b@.subrange(0, i as int),
        decreases b@.len() - i,
    {
        v.push(b[i]);
        i = i + 1;
    }
    assert(v@ == b@);
    v
}

/// Whether two string slices hold the same text (std's `==` on `str`).
#[verifier::external_body]
pub(crate) fn str_eq(a: &str, b: &str) -> (r: bool)
    ensures
        r == (a@ == b@),
{
    a == b
}

/// What `String::from_utf8_lossy` makes of a byte sequence that is not
/// valid UTF-8 (every invalid sequence becomes U+FFFD).
pub uninterp spec fn lossy_invalid_utf8(bytes: Seq<u8>) -> Seq<char>;

/// What `String::from_utf8_lossy` makes of a byte sequence: valid UTF-8 is
/// decoded as it stands.
pub open spec fn lossy_utf8(bytes: Seq<u8>) -> Seq<char> {
    if valid_utf8(bytes) {
        decode_utf8(bytes)
    } else {
        lossy_invalid_utf8(bytes)
    }
}

/// Decodes bytes as UTF-8, replacing invalid sequences with U+FFFD, by
/// calling `String::from_utf8_lossy`. Its documentation states that valid
/// UTF-8 input comes back unchanged; for other input only a name is given
/// to the result.
#[verifier::external_body]
pub(crate) fn from_utf8_lossy(bytes: &[u8]) -> (s: String)
    ensures
        valid_utf8(bytes@) ==> s@ == decode_utf8(bytes@),
        !valid_utf8(bytes@) ==> s@ == lossy_invalid_utf8(bytes@),
{
    String::from_utf8_lossy(bytes).into_owned()
}

/// Decodes bytes as UTF-8 by calling `String::from_utf8`, which succeeds
/// exactly on valid UTF-8 and then holds the decoded characters.
#[verifier::external_body]
pub(crate) fn from_utf8(bytes: Vec<u8>) -> (s: Option<String>)
    ensures
        s is Some <==> valid_utf8(bytes@),
        s matches Some(t) ==> t@ == decode_utf8(bytes@),
{
    String::from_utf8(bytes).ok()
}

/// The character with the given code point, by calling `char::from_u32`,
/// which fails exactly on surrogates and values past U+10FFFF.
#[verifier::external_body]
pub(crate) fn char_from_u32(v: u32) -> (c: Option<char>)
    ensures
        c is Some <==> is_scalar(v),
        c matches Some(ch) ==> ch as u32 == v,
{
    char::from_u32(v)
}

// ---------------------------------------------------------------------------
// Searching
// ---------------------------------------------------------------------------

/// `needle` occurs in `hay` starting at index `i`.
pub open spec fn occurs_at<T>(hay: Seq<T>, needle: Seq<T>, i: int) -> bool {
    &&& 0 <= i
    &&& i + needle.len() <= hay.len()
    &&& hay.subrange(i, i + needle.len()) == needle
}

/// The first index at or after `from` where `needle` occurs in `hay`.
pub open spec fn first_occurrence<T>(hay: Seq<T>, needle: Seq<T>, from: int) -> Option<int>
    decreases hay.len() + 1 - from,
{
    if from < 0 || from + needle.len() > hay.len() {
        None
    } else if occurs_at(hay, needle, from) {
        Some(from)
    } else {
        first_occurrence(hay, needle, from + 1)
    }
}

/// What `first_occurrence` returns is an occurrence, and no earlier index
/// at or after `from` is one.
pub proof fn lemma_first_occurrence<T>(hay: Seq<T>, needle: Seq<T>, from: int)
    requires
        0 <= from,
    ensures
        first_occurrence(hay, needle, from) matches Some(i) ==> {
            &&& from <= i
            &&& occurs_at(hay, needle, i)
            &&& forall|j: int| from <= j < i ==> !occurs_at(hay, needle, j)
        },
        first_occurrence(hay, needle, from) is None ==> forall|j: int|
            from <= j ==> !occurs_at(hay, needle, j),
    decreases hay.len() + 1 - from,
{
    if from + needle.len() <= hay.len() && !occurs_at(hay, needle, from) {
        lemma_first_occurrence(hay, needle, from + 1);
    }
}

fn chars_match_at(hay: &[char], needle: &[char], i: usize) -> (r: bool)
    requires
        i + needle.len() <= hay.len(),
    ensures
        r == occurs_at(hay@, needle@, i as int),
{
    let mut k: usize = 0;
    while k < needle.len()
        invariant
            i + needle.len() <= hay.len(),
            k <= needle.len(),
            forall|j: int| 0 <= j < k ==> hay@[i + j] == needle@[j],
        decreases needle@.len() - k,
    {
        if hay[i + k] != needle[k] {
            assert(hay@.subrange(i as int, i + needle@.len())[k as int] != needle@[k as int]);
            return false;
        }
        k = k + 1;
    }
    assert(hay@.subrange(i as int, i + needle@.len()) =~= needle@);
    true
}

/// The first index at or after `from` where `needle` occurs in `hay`.
pub fn find_chars(hay: &[char], needle: &[char], from: usize) -> (r: Option<usize>)
    ensures
        r matches Some(i) ==> first_occurrence(hay@, needle@, from as int) == Some(i as int),
        r is None ==> first_occurrence(hay@, needle@, from as int) is None,
{
    let mut i = from;
    if needle.len() > hay.len() {
        return None;
    }
    if needle.len() == 0 {
        if from <= hay.len() {
            assert(hay@.subrange(from as int, from as int) =~= needle@);
            return Some(from);
        }
        return None;
    }
    while i <= hay.len() - needle.len()
        invariant
            1 <= needle.len() <= hay.len(),
            from <= i,
            first_occurrence(hay@, needle@, from as int) == first_occurrence(
                hay@,
                needle@,
                i as int,
            ),
        decreases hay.len() - i,
    {
        if chars_match_at(hay, needle, i) {
            return Some(i);
        }
        i = i + 1;
    }
    None
}

fn bytes_match_at(hay: &[u8], needle: &[u8], i: usize) -> (r: bool)
    requires
        i + needle.len() <= hay.len(),
    ensures
        r == occurs_at(hay@, needle@, i as int),
{
    let mut k: usize = 0;
    while k < needle.len()
        invariant
            i + needle.len() <= hay.len(),
            k <= needle.len(),
            forall|j: int| 0 <= j < k ==> hay@[i + j] == needle@[j],
        decreases needle@.len() - k,
    {
        if hay[i + k] != needle[k] {
            assert(hay@.subrange(i as int, i + needle@.len())[k as int] != needle@[k as int]);
            return false;
        }
        k = k + 1;
    }
    assert(hay@.subrange(i as int, i + needle@.len()) =~= needle@);
    true
}

/// The first index at or after `from` where `needle` occurs in `hay`.
pub fn find_bytes(hay: &[u8], needle: &[u8], from: usize) -> (r: Option<usize>)
    ensures
        r matches Some(i) ==> first_occurrence(hay@, needle@, from as int) == Some(i as int),
        r is None ==> first_occurrence(hay@, needle@, from as int) is None,
{
    let mut i = from;
    if needle.len() > hay.len() {
        return None;
    }
    if needle.len() == 0 {
        if from <= hay.len() {
            assert(hay@.subrange(from as int, from as int) =~= needle@);
            return Some(from);
        }
        return None;
    }
    while i <= hay.len() - needle.len()
        invariant
            1 <= needle.len() <= hay.len(),
            from <= i,
            first_occurrence(hay@, needle@, from as int) == first_occurrence(
                hay@,
                needle@,
                i as int,
            ),
        decreases hay.len() - i,
    {
        if bytes_match_at(hay, needle, i) {
            return Some(i);
        }
        i = i + 1;
    }
    None
}

/// Whether `needle` occurs in `hay` at index `i`.
pub fn chars_at(hay: &[char], needle: &[char], i: usize) -> (r: bool)
    ensures
        r == occurs_at(hay@, needle@, i as int),
{
    if i > hay.len() || needle.len() > hay.len() - i {
        false
    } else {
        chars_match_at(hay, needle, i)
    }
}

/// Whether `needle` occurs in `hay` at index `i`.
pub fn bytes_at(hay: &[u8], needle: &[u8], i: usize) -> (r: bool)
    ensures
        r == occurs_at(hay@, needle@, i as int),
{
    if i > hay.len() || needle.len() > hay.len() - i {
        false
    } else {
        bytes_match_at(hay, needle, i)
    }
}

/// A copy of `s[from..to]`.
pub fn char_range(s: &[char], from: usize, to: usize) -> (r: Vec<char>)
    requires
        from <= to <= s@.len(),
    ensures
        r@ == s@.subrange(from as int, to as int),
{
    let mut r: Vec<char> = Vec::new();
    let mut i = from;
    while i < to
        invariant
            from <= i <= to <= s@.len(),
            r@ == s@.subrange(from as int, i as int),
        decreases to - i,
    {
        r.push(s[i]);
        i = i + 1;
    }
    r
}

/// A copy of `s[from..to]`.
pub fn byte_range(s: &[u8], from: usize, to: usize) -> (r: Vec<u8>)
    requires
        from <= to <= s@.len(),
    ensures
        r@ == s@.subrange(from as int, to as int),
{
    let mut r: Vec<u8> = Vec::new();
    let mut i = from;
    while i < to
        invariant
            from <= i <= to <= s@.len(),
            r@ == s@.subrange(from as int, i as int),
        decreases to - i,
    {
        r.push(s[i]);
        i = i + 1;
    }
    r
}

/// Appends `src[from..to]` to `out`.
pub fn push_chars(out: &mut Vec<char>, src: &[char], from: usize, to: usize)
    requires
        from <= to <= src@.len(),
    ensures
        final(out)@ == old(out)@ + src@.subrange(from as int, to as int),
{
    let ghost start = out@;
    let mut i = from;
    while i < to
        invariant
            from <= i <= to <= src@.len(),
            out@ == start + src@.subrange(from as int, i as int),
        decreases to - i,
    {
        out.push(src[i]);
        i = i + 1;
        assert(src@.subrange(from as int, i as int) =~= src@.subrange(from as int, i - 1).push(
            src@[i - 1],
        ));
    }
}

/// Appends all of `src` to `out`.
pub fn push_all_chars(out: &mut Vec<char>, src: &[char])
    ensures
        final(out)@ == old(out)@ + src@,
{
    push_chars(out, src, 0, src.len());
    assert(src@.subrange(0, src@.len() as int) =~= src@);
}

/// Appends `src[from..to]` to `out`.
pub fn push_bytes(out: &mut Vec<u8>, src: &[u8], from: usize, to: usize)
    requires
        from <= to <= src@.len(),
    ensures
        final(out)@ == old(out)@ + src@.subrange(from as int, to as int),
{
    let ghost start = out@;
    let mut i = from;
    while i < to
        invariant
            from <= i <= to <= src@.len(),
            out@ == start + src@.subrange(from as int, i as int),
        decreases to - i,
    {
        out.push(src[i]);
        i = i + 1;
        assert(src@.subrange(from as int, i as int) =~= src@.subrange(from as int, i - 1).push(
            src@[i - 1],
        ));
    }
}

/// Appends all of `src` to `out`.
pub fn push_all_bytes(out: &mut Vec<u8>, src: &[u8])
    ensures
        final(out)@ == old(out)@ + src@,
{
    push_bytes(out, src, 0, src.len());
    assert(src@.subrange(0, src@.len() as int) =~= src@);
}

/// Whether two character sequences are equal.
pub fn chars_eq(a: &[char], b: &[char]) -> (r: bool)
    ensures
        r == (a@ == b@),
{
    if a.len() != b.len() {
        return false;
    }
    let r = chars_at(a, b, 0);
    proof {
        if r {
            assert(a@ =~= a@.subrange(0, b@.len() as int));
        } else {
            assert(!(a@ =~= b@) ==> a@ != b@);
            if a@ == b@ {
                assert(a@.subrange(0, b@.len() as int) =~= b@);
            }
        }
    }
    r
}

/// ASCII whitespace as Rust's `is_ascii_whitespace` defines it.
pub open spec fn is_ascii_ws(c: char) -> bool {
    c == ' ' || c == '\t' || c == '\n' || c == '\x0C' || c == '\r'
}

/// ASCII whitespace as Rust's `is_ascii_whitespace` defines it.
pub fn ascii_ws(c: char) -> (r: bool)
    ensures
        r == is_ascii_ws(c),
{
    c == ' ' || c == '\t' || c == '\n' || c == '\x0C' || c == '\r'
}

// ---------------------------------------------------------------------------
// Decimal numbers
// ---------------------------------------------------------------------------

/// The ASCII digit for `d` in 0..10.
pub open spec fn digit_char(d: int) -> char {
    if d == 0 { '0' }
    else if d == 1 { '1' }
    else if d == 2 { '2' }
    else if d == 3 { '3' }
    else if d == 4 { '4' }
    else if d == 5 { '5' }
    else if d == 6 { '6' }
    else if d == 7 { '7' }
    else if d == 8 { '8' }
    else { '9' }
}

/// The value of an ASCII digit, or None.
pub open spec fn digit_value(c: char) -> Option<int> {
    if c == '0' { Some(0) }
    else if c == '1' { Some(1) }
    else if c == '2' { Some(2) }
    else if c == '3' { Some(3) }
    else if c == '4' { Some(4) }
    else if c == '5' { Some(5) }
    else if c == '6' { Some(6) }
    else if c == '7' { Some(7) }
    else if c == '8' { Some(8) }
    else if c == '9' { Some(9) }
    else { None }
}

/// The decimal digits of `n`, most significant first, with no leading zeros.
pub open spec fn digits(n: nat) -> Seq<char>
    decreases n,
{
    if n < 10 {
        seq![digit_char(n as int)]
    } else {
        digits(n / 10).push(digit_char((n % 10) as int))
    }
}

/// The text Rust's `to_string` gives an integer: an optional minus sign and
/// the decimal digits.
pub open spec fn decimal(v: int) -> Seq<char> {
    if v < 0 {
        seq!['-'] + digits((-v) as nat)
    } else {
        digits(v as nat)
    }
}

fn digit_to_char(d: u64) -> (c: char)
    requires
        d < 10,
    ensures
        c == digit_char(d as int),
{
    if d == 0 { '0' }
    else if d == 1 { '1' }
    else if d == 2 { '2' }
    else if d == 3 { '3' }
    else if d == 4 { '4' }
    else if d == 5 { '5' }
    else if d == 6 { '6' }
    else if d == 7 { '7' }
    else if d == 8 { '8' }
    else { '9' }
}

pub(crate) fn push_digits(out: &mut Vec<char>, n: u64)
    ensures
        final(out)@ == old(out)@ + digits(n as nat),
    decreases n,
{
    if n < 10 {
        out.push(digit_to_char(n));
        assert(digits(n as nat) =~= seq![digit_char(n as int)]);
    } else {
        push_digits(out, n / 10);
        out.push(digit_to_char(n % 10));
    }
}

/// The decimal text of an integer, as Rust's `to_string` writes it.
pub fn decimal_text(v: i64) -> (r: Vec<char>)
    ensures
        r@ == decimal(v as int),
{
    let mut out: Vec<char> = Vec::new();
    if v < 0 {
        out.push('-');
        let m: u64 = (0i128 - v as i128) as u64;
        push_digits(&mut out, m);
    } else {
        push_digits(&mut out, v as u64);
    }
    assert(out@ =~= decimal(v as int));
    out
}

/// The decimal text of a non-negative integer, as Rust's `to_string`
/// writes it.
pub fn unsigned_text(v: u64) -> (r: Vec<char>)
    ensures
        r@ == digits(v as nat),
{
    let mut out: Vec<char> = Vec::new();
    push_digits(&mut out, v);
    assert(out@ =~= digits(v as nat));
    out
}

/// The value of a run of ASCII digits, or None when the run is empty or
/// holds another character.
pub open spec fn digits_value(s: Seq<char>) -> Option<int>
    decreases s.len(),
{
    if s.len() == 0 {
        None
    } else if s.len() == 1 {
        digit_value(s[0])
    } else {
        match (digits_value(s.drop_last()), digit_value(s.last())) {
            (Some(h), Some(d)) => Some(h * 10 + d),
            _ => None,
        }
    }
}

/// The integer that Rust's `str::parse` reads from text, ignoring the
/// range of the target type: an optional sign and at least one digit.
pub open spec fn integer_of(s: Seq<char>) -> Option<int> {
    if s.len() > 0 && s[0] == '-' {
        match digits_value(s.drop_first()) {
            Some(v) => Some(-v),
            None => None,
        }
    } else if s.len() > 0 && s[0] == '+' {
        digits_value(s.drop_first())
    } else {
        digits_value(s)
    }
}

proof fn lemma_digits_value_nonneg(s: Seq<char>)
    ensures
        digits_value(s) matches Some(v) ==> v >= 0,
    decreases s.len(),
{
    if s.len() > 1 {
        lemma_digits_value_nonneg(s.drop_last());
    }
}

proof fn lemma_digits_value_prefix(s: Seq<char>, k: int)
    requires
        1 <= k <= s.len(),
        digits_value(s) is Some,
    ensures
        digits_value(s.subrange(0, k)) is Some,
        digits_value(s.subrange(0, k))->0 <= digits_value(s)->0,
    decreases s.len(),
{
    lemma_digits_value_nonneg(s);
    if k < s.len() {
        lemma_digits_value_prefix(s.drop_last(), k);
        assert(s.drop_last().subrange(0, k) =~= s.subrange(0, k));
        lemma_digits_value_nonneg(s.drop_last());
    } else {
        assert(s.subrange(0, k) =~= s);
    }
}

/// Reads an integer as Rust's `str::parse::<i32>` / `str::parse::<i64>`
/// does, given the target type's range `lo..=hi`.
pub fn parse_integer(s: &[char], lo: i64, hi: i64) -> (r: Option<i64>)
    requires
        lo <= 0 <= hi,
    ensures
        r matches Some(v) ==> integer_of(s@) == Some(v as int) && lo <= v <= hi,
        r is None ==> match integer_of(s@) {
            Some(v) => v < lo || v > hi,
            None => true,
        },
{
    let mut start: usize = 0;
    let mut negative = false;
    if s.len() > 0 && s[0] == '-' {
        negative = true;
        start = 1;
    } else if s.len() > 0 && s[0] == '+' {
        start = 1;
    }
    let ghost body = s@.subrange(start as int, s@.len() as int);
    assert(start == 1 ==> body =~= s@.drop_first());
    assert(start == 0 ==> body =~= s@);
    let ghost want = if negative {
        match digits_value(body) {
            Some(v) => Some(-v),
            None => None,
        }
    } else {
        digits_value(body)
    };
    assert(integer_of(s@) == want);
    if start >= s.len() {
        assert(body.len() == 0);
        return None;
    }
    let mut acc: i128 = 0;
    let mut i = start;
    while i < s.len()
        invariant
            start < s@.len(),
            start <= i <= s@.len(),
            body == s@.subrange(start as int, s@.len() as int),
            integer_of(s@) == want,
            want == if negative {
                match digits_value(body) {
                    Some(v) => Some(-v),
                    None => None,
                }
            } else {
                digits_value(body)
            },
            lo <= 0 <= hi,
            i > start ==> digits_value(s@.subrange(start as int, i as int)) == Some(acc as int),
            i == start ==> acc == 0,
            0 <= acc <= 0x8000_0000_0000_0000,
        decreases s@.len() - i,
    {
        let c = s[i];
        let d: i128 = if c == '0' { 0 }
            else if c == '1' { 1 }
            else if c == '2' { 2 }
            else if c == '3' { 3 }
            else if c == '4' { 4 }
            else if c == '5' { 5 }
            else if c == '6' { 6 }
            else if c == '7' { 7 }
            else if c == '8' { 8 }
            else if c == '9' { 9 }
            else { -1 };
        let ghost pre = s@.subrange(start as int, i as int);
        let ghost cur = s@.subrange(start as int, i + 1);
        assert(cur.drop_last() =~= pre);
        assert(cur.last() == c);
        if d < 0 {
            proof {
                assert(digits_value(cur) is None);
                if digits_value(body) is Some {
                    lemma_digits_value_prefix(body, (i + 1 - start) as int);
                    assert(body.subrange(0, (i + 1 - start) as int) =~= cur);
                }
            }
            return None;
        }
        acc = acc * 10 + d;
        i = i + 1;
        if acc > 0x8000_0000_0000_0000 {
            proof {
                if digits_value(body) is Some {
                    lemma_digits_value_prefix(body, (i - start) as int);
                    assert(body.subrange(0, (i - start) as int) =~= s@.subrange(
                        start as int,
                        i as int,
                    ));
                }
            }
            return None;
        }
    }
    assert(s@.subrange(start as int, s@.len() as int) =~= body);
    let v: i128 = if negative { 0 - acc } else { acc };
    if v < lo as i128 || v > hi as i128 {
        return None;
    }
    Some(v as i64)
}


/// A message made of a fixed prefix, some text, and a fixed suffix.
pub fn message_with(prefix: &str, middle: &[char], suffix: &str) -> (m: String)
    ensures
        m@ == prefix@ + middle@ + suffix@,
{
    let mut v = chars_of(prefix);
    push_all_chars(&mut v, middle);
    let tail = chars_of(suffix);
    push_all_chars(&mut v, &tail);
    string_of(&v)
}

} // verus!
