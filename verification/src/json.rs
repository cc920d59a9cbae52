//! A small JSON reader, just enough to read Universal Audio's preset files.
//! Two entry points: `parse` for a full value tree (used to inspect a
//! preset's control set), and `object_members_raw`, which returns a
//! top-level object's members paired with the exact source text of each
//! value. The raw text lets the converter embed a preset's `chunk` verbatim,
//! preserving the vendor's exact number formatting. Numbers are kept as
//! their source text too.

use vstd::prelude::*;
use vstd::utf8::*;
use crate::text::{
    bytes_of, char_from_u32, from_utf8, from_utf8_lossy, lossy_utf8, message_with, occurs_at, str_eq,
};
use crate::xmlread::parse_u32_spec;
use crate::{err, Error, Result};

verus! {

broadcast use vstd::utf8::group_utf8_lib;

/// Values nested deeper than this are refused.
pub const MAX_DEPTH: usize = 64;

/// A JSON value. A number keeps its source text.
#[derive(Debug)]
pub enum Json {
    Null,
    Bool(bool),
    Num(String),
    Str(String),
    Array(Vec<Json>),
    Object(Vec<(String, Json)>),
}

/// The plain content of a `Json` value.
pub enum JsonModel {
    Null,
    Bool(bool),
    Num(Seq<char>),
    Str(Seq<char>),
    Array(Seq<JsonModel>),
    Object(Seq<(Seq<char>, JsonModel)>),
}

impl View for Json {
    type V = JsonModel;

    open spec fn view(&self) -> JsonModel
        decreases self, 1nat,
    {
        match self {
            Json::Null => JsonModel::Null,
            Json::Bool(b) => JsonModel::Bool(*b),
            Json::Num(t) => JsonModel::Num(t@),
            Json::Str(t) => JsonModel::Str(t@),
            Json::Array(items) => JsonModel::Array(json_items_view(items@)),
            Json::Object(members) => JsonModel::Object(json_members_view(members@)),
        }
    }
}

/// The plain content of a list of values.
pub open spec fn json_items_view(s: Seq<Json>) -> Seq<JsonModel>
    decreases s, 0nat,
{
    if s.len() == 0 {
        Seq::empty()
    } else {
        seq![s[0].view()] + json_items_view(s.subrange(1, s.len() as int))
    }
}

/// The plain content of a list of object members.
pub open spec fn json_members_view(s: Seq<(String, Json)>) -> Seq<(Seq<char>, JsonModel)>
    decreases s, 0nat,
{
    if s.len() == 0 {
        Seq::empty()
    } else {
        seq![(s[0].0@, s[0].1.view())] + json_members_view(s.subrange(1, s.len() as int))
    }
}

/// The plain content of items, element by element.
pub proof fn lemma_json_items_view(s: Seq<Json>)
    ensures
        json_items_view(s).len() == s.len(),
        forall|j: int| 0 <= j < s.len() ==> #[trigger] json_items_view(s)[j] == s[j]@,
    decreases s.len(),
{
    if s.len() > 0 {
        let rest = s.subrange(1, s.len() as int);
        lemma_json_items_view(rest);
        assert(json_items_view(s) == seq![s[0]@] + json_items_view(rest));
        assert forall|j: int| 0 <= j < s.len() implies #[trigger] json_items_view(s)[j] == s[j]@ by {
            if j > 0 {
                assert(json_items_view(s)[j] == json_items_view(rest)[j - 1]);
                assert(rest[j - 1] == s[j]);
            }
        }
    }
}

/// The plain content of members, element by element.
pub proof fn lemma_json_members_view(s: Seq<(String, Json)>)
    ensures
        json_members_view(s).len() == s.len(),
        forall|j: int|
            0 <= j < s.len() ==> #[trigger] json_members_view(s)[j] == (s[j].0@, s[j].1@),
    decreases s.len(),
{
    if s.len() > 0 {
        let rest = s.subrange(1, s.len() as int);
        lemma_json_members_view(rest);
        assert(json_members_view(s) == seq![(s[0].0@, s[0].1@)] + json_members_view(rest));
        assert forall|j: int| 0 <= j < s.len() implies #[trigger] json_members_view(s)[j] == (
            s[j].0@,
            s[j].1@,
        ) by {
            if j > 0 {
                assert(json_members_view(s)[j] == json_members_view(rest)[j - 1]);
                assert(rest[j - 1] == s[j]);
            }
        }
    }
}

// ---------------------------------------------------------------------------
// The grammar, as spec functions over the text's UTF-8 bytes
// ---------------------------------------------------------------------------

/// JSON whitespace.
pub open spec fn is_json_ws(b: u8) -> bool {
    b == 0x20 || b == 0x09 || b == 0x0d || b == 0x0a
}

/// A byte that can appear in a number's text.
pub open spec fn is_num_byte(b: u8) -> bool {
    b == 0x2d || b == 0x2b || b == 0x2e || b == 0x65 || b == 0x45 || (0x30 <= b <= 0x39)
}

/// The first index at or after `i` that is not whitespace, or the length.
pub open spec fn ws_end(s: Seq<u8>, i: int) -> int
    decreases s.len() - i,
{
    if i < 0 || i >= s.len() || !is_json_ws(s[i]) {
        if i < 0 {
            0
        } else if i > s.len() {
            s.len() as int
        } else {
            i
        }
    } else {
        ws_end(s, i + 1)
    }
}

/// The first index at or after `i` that is not a number byte, or the length.
pub open spec fn num_end(s: Seq<u8>, i: int) -> int
    decreases s.len() - i,
{
    if i < 0 || i >= s.len() || !is_num_byte(s[i]) {
        if i < 0 {
            0
        } else if i > s.len() {
            s.len() as int
        } else {
            i
        }
    } else {
        num_end(s, i + 1)
    }
}

/// The first index at or after `i` of a byte below 0x80, or the length.
pub open spec fn high_end(s: Seq<u8>, i: int) -> int
    decreases s.len() - i,
{
    if i < 0 || i >= s.len() || s[i] < 0x80 {
        if i < 0 {
            0
        } else if i > s.len() {
            s.len() as int
        } else {
            i
        }
    } else {
        high_end(s, i + 1)
    }
}

/// Every byte is an ASCII digit.
pub open spec fn all_digits(s: Seq<u8>) -> bool {
    forall|k: int| 0 <= k < s.len() ==> 0x30 <= #[trigger] s[k] <= 0x39
}

/// The first index at or after `i` holding `a` or `b`, or the length.
pub open spec fn first_of(s: Seq<u8>, i: int, a: u8, b: u8) -> int
    decreases s.len() - i,
{
    if i < 0 || i >= s.len() || s[i] == a || s[i] == b {
        if i < 0 {
            0
        } else if i > s.len() {
            s.len() as int
        } else {
            i
        }
    } else {
        first_of(s, i + 1, a, b)
    }
}

/// `s` without a leading '+' or '-'.
pub open spec fn unsigned_part(s: Seq<u8>) -> Seq<u8> {
    if s.len() > 0 && (s[0] == 0x2b || s[0] == 0x2d) {
        s.drop_first()
    } else {
        s
    }
}

/// Digits with an optional point, and digits on at least one side of it.
pub open spec fn mantissa_ok(m: Seq<u8>) -> bool {
    let dot = first_of(m, 0, 0x2e, 0x2e);
    if dot >= m.len() {
        m.len() > 0 && all_digits(m)
    } else {
        let int_part = m.subrange(0, dot);
        let frac = m.subrange(dot + 1, m.len() as int);
        all_digits(int_part) && all_digits(frac) && (int_part.len() > 0 || frac.len() > 0)
    }
}

/// What `str::parse::<f64>` accepts among texts made of number bytes: an
/// optional sign, a mantissa, then optionally 'e' or 'E', an optional sign
/// and digits.
pub open spec fn float_text_ok(t: Seq<u8>) -> bool {
    let u = unsigned_part(t);
    let e = first_of(u, 0, 0x65, 0x45);
    let mant = u.subrange(0, e);
    if e >= u.len() {
        mantissa_ok(u)
    } else {
        let exp = unsigned_part(u.subrange(e + 1, u.len() as int));
        mantissa_ok(mant) && exp.len() > 0 && all_digits(exp)
    }
}

/// The bytes as characters (for ASCII text).
pub open spec fn ascii_chars(b: Seq<u8>) -> Seq<char> {
    Seq::new(b.len(), |k: int| b[k] as char)
}

/// The code of a `\u` escape's four bytes: hex digits, as
/// `u32::from_str_radix` reads them.
pub open spec fn hex4(b: Seq<u8>) -> Option<nat> {
    if forall|k: int| 0 <= k < b.len() ==> #[trigger] b[k] < 0x80 {
        parse_u32_spec(ascii_chars(b), 16)
    } else {
        None
    }
}

/// The character of a `\u` escape; U+FFFD for a surrogate.
pub open spec fn code_char(code: nat) -> char {
    if code < 0x1_0000_0000 && is_scalar(code as u32) {
        (code as u32) as char
    } else {
        '\u{fffd}'
    }
}

/// The character a one-letter escape stands for.
pub open spec fn simple_escape(e: u8) -> Option<char> {
    if e == 0x22 {
        Some('"')
    } else if e == 0x5c {
        Some('\\')
    } else if e == 0x2f {
        Some('/')
    } else if e == 0x62 {
        Some('\u{0008}')
    } else if e == 0x66 {
        Some('\u{000c}')
    } else if e == 0x6e {
        Some('\n')
    } else if e == 0x72 {
        Some('\r')
    } else if e == 0x74 {
        Some('\t')
    } else {
        None
    }
}

/// A string's characters from `i` (inside the quotes) to its closing
/// quote, and the position after the quote.
pub open spec fn string_rest(s: Seq<u8>, i: int) -> Option<(Seq<char>, int)>
    decreases s.len() - i,
{
    if i < 0 || i >= s.len() {
        None
    } else if s[i] == 0x22 {
        Some((Seq::empty(), i + 1))
    } else if s[i] == 0x5c {
        if i + 1 >= s.len() {
            None
        } else if s[i + 1] == 0x75 {
            if i + 6 > s.len() {
                None
            } else {
                match hex4(s.subrange(i + 2, i + 6)) {
                    None => None,
                    Some(code) => match string_rest(s, i + 6) {
                        Some((rest, q)) => Some((seq![code_char(code)] + rest, q)),
                        None => None,
                    },
                }
            }
        } else {
            match simple_escape(s[i + 1]) {
                None => None,
                Some(c) => match string_rest(s, i + 2) {
                    Some((rest, q)) => Some((seq![c] + rest, q)),
                    None => None,
                },
            }
        }
    } else if s[i] < 0x80 {
        match string_rest(s, i + 1) {
            Some((rest, q)) => Some((seq![s[i] as char] + rest, q)),
            None => None,
        }
    } else {
        let h = high_end(s, i);
        if h <= i || h > s.len() {
            None
        } else {
            match string_rest(s, h) {
                Some((rest, q)) => Some((lossy_utf8(s.subrange(i, h)) + rest, q)),
                None => None,
            }
        }
    }
}

/// A string at `i` (its opening quote), and the position after it.
pub open spec fn string_at(s: Seq<u8>, i: int) -> Option<(Seq<char>, int)> {
    if 0 <= i < s.len() && s[i] == 0x22 {
        string_rest(s, i + 1)
    } else {
        None
    }
}

/// A value at `i`, nested `depth` levels deep, and the position after it.
pub open spec fn value_at(s: Seq<u8>, i: int, depth: int) -> Option<(JsonModel, int)>
    decreases s.len() - i, 0nat,
{
    if depth > MAX_DEPTH || i < 0 || i >= s.len() {
        None
    } else if s[i] == 0x7b {
        let p = ws_end(s, i + 1);
        if p <= i || p >= s.len() {
            None
        } else if s[p] == 0x7d {
            Some((JsonModel::Object(Seq::empty()), p + 1))
        } else {
            match members_at(s, p, depth) {
                Some((ms, q)) => Some((JsonModel::Object(ms), q)),
                None => None,
            }
        }
    } else if s[i] == 0x5b {
        let p = ws_end(s, i + 1);
        if p <= i || p >= s.len() {
            None
        } else if s[p] == 0x5d {
            Some((JsonModel::Array(Seq::empty()), p + 1))
        } else {
            match items_at(s, p, depth) {
                Some((vs, q)) => Some((JsonModel::Array(vs), q)),
                None => None,
            }
        }
    } else if s[i] == 0x22 {
        match string_at(s, i) {
            Some((t, q)) => Some((JsonModel::Str(t), q)),
            None => None,
        }
    } else if s[i] == 0x74 {
        if occurs_at(s, seq![0x74u8, 0x72u8, 0x75u8, 0x65u8], i) {
            Some((JsonModel::Bool(true), i + 4))
        } else {
            None
        }
    } else if s[i] == 0x66 {
        if occurs_at(s, seq![0x66u8, 0x61u8, 0x6cu8, 0x73u8, 0x65u8], i) {
            Some((JsonModel::Bool(false), i + 5))
        } else {
            None
        }
    } else if s[i] == 0x6e {
        if occurs_at(s, seq![0x6eu8, 0x75u8, 0x6cu8, 0x6cu8], i) {
            Some((JsonModel::Null, i + 4))
        } else {
            None
        }
    } else {
        let e = num_end(s, i);
        if e <= i || e > s.len() || !float_text_ok(s.subrange(i, e)) {
            None
        } else {
            Some((JsonModel::Num(ascii_chars(s.subrange(i, e))), e))
        }
    }
}

/// Object members from `p` (after the '{' and any whitespace) to the
/// closing '}', and the position after it.
pub open spec fn members_at(s: Seq<u8>, p: int, depth: int) -> Option<(Seq<(Seq<char>, JsonModel)>, int)>
    decreases s.len() - p, 1nat,
{
    let k0 = ws_end(s, p);
    if p < 0 || k0 < p {
        None
    } else {
        match string_at(s, k0) {
            None => None,
            Some((key, k1)) => {
                let k2 = ws_end(s, k1);
                if k1 <= p || k2 < k1 || k2 >= s.len() || s[k2] != 0x3a {
                    None
                } else {
                    let k3 = ws_end(s, k2 + 1);
                    if k3 <= k2 || k3 > s.len() {
                        None
                    } else {
                        match value_at(s, k3, depth + 1) {
                            None => None,
                            Some((v, k4)) => {
                                let k5 = ws_end(s, k4);
                                if k4 <= k3 || k5 < k4 || k5 >= s.len() {
                                    None
                                } else if s[k5] == 0x2c {
                                    match members_at(s, k5 + 1, depth) {
                                        Some((rest, q)) => Some((seq![(key, v)] + rest, q)),
                                        None => None,
                                    }
                                } else if s[k5] == 0x7d {
                                    Some((seq![(key, v)], k5 + 1))
                                } else {
                                    None
                                }
                            },
                        }
                    }
                }
            },
        }
    }
}

/// Array items from `p` (after the '[' and any whitespace) to the closing
/// ']', and the position after it.
pub open spec fn items_at(s: Seq<u8>, p: int, depth: int) -> Option<(Seq<JsonModel>, int)>
    decreases s.len() - p, 1nat,
{
    let k0 = ws_end(s, p);
    if p < 0 || k0 < p || k0 > s.len() {
        None
    } else {
        match value_at(s, k0, depth + 1) {
            None => None,
            Some((v, k1)) => {
                let k2 = ws_end(s, k1);
                if k1 <= k0 || k2 < k1 || k2 >= s.len() {
                    None
                } else if s[k2] == 0x2c {
                    match items_at(s, k2 + 1, depth) {
                        Some((rest, q)) => Some((seq![v] + rest, q)),
                        None => None,
                    }
                } else if s[k2] == 0x5d {
                    Some((seq![v], k2 + 1))
                } else {
                    None
                }
            },
        }
    }
}

/// A complete JSON document: a value with only whitespace around it.
pub open spec fn parse_spec(s: Seq<u8>) -> Option<JsonModel> {
    let i = ws_end(s, 0);
    match value_at(s, i, 0) {
        Some((v, q)) => if ws_end(s, q) == s.len() {
            Some(v)
        } else {
            None
        },
        None => None,
    }
}

// ---------------------------------------------------------------------------
// What the reader reports where the text does not parse
// ---------------------------------------------------------------------------

/// The message for a missing byte.
pub open spec fn end_error() -> Seq<char> {
    "unexpected end of JSON"@
}

/// The message for a string's rest from `i` on that cannot be read.
pub open spec fn string_rest_error(s: Seq<u8>, i: int) -> Seq<char>
    decreases s.len() - i,
{
    if i < 0 || i >= s.len() {
        end_error()
    } else if s[i] == 0x22 {
        Seq::empty()
    } else if s[i] == 0x5c {
        if i + 1 >= s.len() {
            end_error()
        } else if s[i + 1] == 0x75 {
            if i + 6 > s.len() {
                end_error()
            } else {
                match hex4(s.subrange(i + 2, i + 6)) {
                    None => "bad \\u escape"@,
                    Some(_) => string_rest_error(s, i + 6),
                }
            }
        } else {
            match simple_escape(s[i + 1]) {
                None => "invalid JSON escape '\\"@ + seq![s[i + 1] as char] + "'"@,
                Some(_) => string_rest_error(s, i + 2),
            }
        }
    } else if s[i] < 0x80 {
        string_rest_error(s, i + 1)
    } else {
        let h = high_end(s, i);
        if h <= i || h > s.len() {
            Seq::empty()
        } else {
            string_rest_error(s, h)
        }
    }
}

/// The message for a string at `i` that cannot be read.
pub open spec fn string_error(s: Seq<u8>, i: int) -> Seq<char> {
    if i < 0 || i >= s.len() {
        end_error()
    } else if s[i] != 0x22 {
        "expected a JSON string"@
    } else {
        string_rest_error(s, i + 1)
    }
}

/// The message for a value at `i` that cannot be read.
pub open spec fn value_error(s: Seq<u8>, i: int, depth: int) -> Seq<char>
    decreases s.len() - i, 0nat,
{
    if depth > MAX_DEPTH {
        "JSON nests too deeply"@
    } else if i < 0 || i >= s.len() {
        end_error()
    } else if s[i] == 0x7b {
        let p = ws_end(s, i + 1);
        if p <= i {
            Seq::empty()
        } else if p >= s.len() {
            end_error()
        } else if s[p] == 0x7d {
            Seq::empty()
        } else {
            members_error(s, p, depth)
        }
    } else if s[i] == 0x5b {
        let p = ws_end(s, i + 1);
        if p <= i {
            Seq::empty()
        } else if p >= s.len() {
            end_error()
        } else if s[p] == 0x5d {
            Seq::empty()
        } else {
            items_error(s, p, depth)
        }
    } else if s[i] == 0x22 {
        string_error(s, i)
    } else if s[i] == 0x74 {
        "expected 'true' in JSON"@
    } else if s[i] == 0x66 {
        "expected 'false' in JSON"@
    } else if s[i] == 0x6e {
        "expected 'null' in JSON"@
    } else if num_end(s, i) <= i {
        "expected a JSON value"@
    } else {
        "invalid JSON number"@
    }
}

/// The message for object members from `p` that cannot be read.
pub open spec fn members_error(s: Seq<u8>, p: int, depth: int) -> Seq<char>
    decreases s.len() - p, 1nat,
{
    let k0 = ws_end(s, p);
    if p < 0 || k0 < p {
        Seq::empty()
    } else {
        match string_at(s, k0) {
            None => string_error(s, k0),
            Some((_, k1)) => {
                let k2 = ws_end(s, k1);
                if k1 <= p || k2 < k1 {
                    Seq::empty()
                } else if k2 >= s.len() {
                    end_error()
                } else if s[k2] != 0x3a {
                    "expected ':' in JSON object"@
                } else {
                    let k3 = ws_end(s, k2 + 1);
                    if k3 <= k2 || k3 > s.len() {
                        Seq::empty()
                    } else {
                        match value_at(s, k3, depth + 1) {
                            None => value_error(s, k3, depth + 1),
                            Some((_, k4)) => {
                                let k5 = ws_end(s, k4);
                                if k4 <= k3 || k5 < k4 {
                                    Seq::empty()
                                } else if k5 >= s.len() {
                                    end_error()
                                } else if s[k5] == 0x2c {
                                    members_error(s, k5 + 1, depth)
                                } else if s[k5] == 0x7d {
                                    Seq::empty()
                                } else {
                                    "expected ',' or '}' in JSON object"@
                                }
                            },
                        }
                    }
                }
            },
        }
    }
}

/// The message for array items from `p` that cannot be read.
pub open spec fn items_error(s: Seq<u8>, p: int, depth: int) -> Seq<char>
    decreases s.len() - p, 1nat,
{
    let k0 = ws_end(s, p);
    if p < 0 || k0 < p || k0 > s.len() {
        Seq::empty()
    } else {
        match value_at(s, k0, depth + 1) {
            None => value_error(s, k0, depth + 1),
            Some((_, k1)) => {
                let k2 = ws_end(s, k1);
                if k1 <= k0 || k2 < k1 {
                    Seq::empty()
                } else if k2 >= s.len() {
                    end_error()
                } else if s[k2] == 0x2c {
                    items_error(s, k2 + 1, depth)
                } else if s[k2] == 0x5d {
                    Seq::empty()
                } else {
                    "expected ',' or ']' in JSON array"@
                }
            },
        }
    }
}

/// The message `parse` gives where `parse_spec` finds no document.
pub open spec fn parse_error(s: Seq<u8>) -> Seq<char> {
    let i = ws_end(s, 0);
    match value_at(s, i, 0) {
        None => value_error(s, i, 0),
        Some(_) => "trailing data after JSON document"@,
    }
}


// ---------------------------------------------------------------------------
// Scanning
// ---------------------------------------------------------------------------

fn skip_ws(s: &[u8], i: usize) -> (r: usize)
    requires
        i <= s@.len(),
    ensures
        r == ws_end(s@, i as int),
        i <= r <= s@.len(),
{
    let mut j = i;
    while j < s.len() && (s[j] == 0x20 || s[j] == 0x09 || s[j] == 0x0d || s[j] == 0x0a)
        invariant
            i <= j <= s@.len(),
            ws_end(s@, i as int) == ws_end(s@, j as int),
        decreases s@.len() - j,
    {
        j = j + 1;
    }
    j
}

fn number_end(s: &[u8], i: usize) -> (r: usize)
    requires
        i <= s@.len(),
    ensures
        r == num_end(s@, i as int),
        i <= r <= s@.len(),
{
    let mut j = i;
    while j < s.len() && (s[j] == 0x2d || s[j] == 0x2b || s[j] == 0x2e || s[j] == 0x65 || s[j]
        == 0x45 || (0x30 <= s[j] && s[j] <= 0x39))
        invariant
            i <= j <= s@.len(),
            num_end(s@, i as int) == num_end(s@, j as int),
        decreases s@.len() - j,
    {
        j = j + 1;
    }
    j
}

fn high_run_end(s: &[u8], i: usize) -> (r: usize)
    requires
        i <= s@.len(),
    ensures
        r == high_end(s@, i as int),
        i <= r <= s@.len(),
        i < s@.len() && s@[i as int] >= 0x80 ==> r > i,
{
    let mut j = i;
    while j < s.len() && s[j] >= 0x80
        invariant
            i <= j <= s@.len(),
            high_end(s@, i as int) == high_end(s@, j as int),
        decreases s@.len() - j,
    {
        j = j + 1;
    }
    j
}

fn first_of_exec(s: &[u8], i: usize, a: u8, b: u8) -> (r: usize)
    requires
        i <= s@.len(),
    ensures
        r == first_of(s@, i as int, a, b),
        i <= r <= s@.len(),
{
    let mut j = i;
    while j < s.len() && s[j] != a && s[j] != b
        invariant
            i <= j <= s@.len(),
            first_of(s@, i as int, a, b) == first_of(s@, j as int, a, b),
        decreases s@.len() - j,
    {
        j = j + 1;
    }
    j
}

fn digits_only(s: &[u8]) -> (r: bool)
    ensures
        r == all_digits(s@),
{
    let mut k: usize = 0;
    while k < s.len()
        invariant
            k <= s@.len(),
            forall|m: int| 0 <= m < k ==> 0x30 <= #[trigger] s@[m] <= 0x39,
        decreases s@.len() - k,
    {
        if !(0x30 <= s[k] && s[k] <= 0x39) {
            return false;
        }
        k = k + 1;
    }
    true
}

fn unsigned_slice(t: &[u8]) -> (r: &[u8])
    ensures
        r@ == unsigned_part(t@),
{
    if t.len() > 0 && (t[0] == 0x2b || t[0] == 0x2d) {
        let r = vstd::slice::slice_subrange(t, 1, t.len());
        assert(r@ =~= t@.drop_first());
        r
    } else {
        t
    }
}

fn mantissa_valid(m: &[u8]) -> (r: bool)
    ensures
        r == mantissa_ok(m@),
{
    let dot = first_of_exec(m, 0, 0x2e, 0x2e);
    if dot >= m.len() {
        m.len() > 0 && digits_only(m)
    } else {
        let int_part = vstd::slice::slice_subrange(m, 0, dot);
        let frac = vstd::slice::slice_subrange(m, dot + 1, m.len());
        digits_only(int_part) && digits_only(frac) && (int_part.len() > 0 || frac.len() > 0)
    }
}

/// Whether `str::parse::<f64>` accepts a text made of number bytes.
fn float_valid(t: &[u8]) -> (r: bool)
    ensures
        r == float_text_ok(t@),
{
    let u = unsigned_slice(t);
    let e = first_of_exec(u, 0, 0x65, 0x45);
    if e >= u.len() {
        mantissa_valid(u)
    } else {
        let mant = vstd::slice::slice_subrange(u, 0, e);
        let exp = unsigned_slice(vstd::slice::slice_subrange(u, e + 1, u.len()));
        mantissa_valid(mant) && exp.len() > 0 && digits_only(exp)
    }
}

/// The bytes as characters, for ASCII bytes.
fn ascii_vec(b: &[u8]) -> (r: Vec<char>)
    ensures
        r@ == ascii_chars(b@),
{
    let mut r: Vec<char> = Vec::new();
    let mut k: usize = 0;
    while k < b.len()
        invariant
            k <= b@.len(),
            r@ =~= ascii_chars(b@.subrange(0, k as int)),
        decreases b@.len() - k,
    {
        r.push(b[k] as char);
        k = k + 1;
    }
    assert(b@.subrange(0, k as int) =~= b@);
    r
}

/// The code of a `\u` escape's four bytes.
fn hex4_exec(b: &[u8]) -> (r: Option<u32>)
    ensures
        r matches Some(v) ==> hex4(b@) == Some(v as nat),
        r is None ==> hex4(b@) is None,
{
    let mut k: usize = 0;
    while k < b.len()
        invariant
            k <= b@.len(),
            forall|m: int| 0 <= m < k ==> #[trigger] b@[m] < 0x80,
        decreases b@.len() - k,
    {
        if b[k] >= 0x80 {
            return None;
        }
        k = k + 1;
    }
    let c = ascii_vec(b);
    crate::xmlread::parse_u32(&c, 16)
}

/// The character of a `\u` escape; U+FFFD for a surrogate.
fn code_char_exec(code: u32) -> (c: char)
    ensures
        c == code_char(code as nat),
{
    match char_from_u32(code) {
        Some(c) => {
            proof {
                char_u32_cast(c, code);
            }
            c
        },
        None => '\u{fffd}',
    }
}

/// The string at `i` (its opening quote), and the position after it.
fn read_string(s: &[u8], i: usize) -> (r: Result<(String, usize)>)
    ensures
        r is Ok <==> string_at(s@, i as int) is Some,
        r matches Ok((t, q)) ==> string_at(s@, i as int) == Some((t@, q as int)) && i < q
            <= s@.len(),
        r matches Err(e) ==> e.0@ == string_error(s@, i as int),
{
    if i >= s.len() {
        return err("unexpected end of JSON");
    }
    if s[i] != 0x22 {
        return err("expected a JSON string");
    }
    let mut out: Vec<char> = Vec::new();
    let mut pos = i + 1;
    let ghost whole = string_rest(s@, pos as int);
    loop
        invariant
            i < pos <= s@.len(),
            s@[i as int] == 0x22,
            whole == string_rest(s@, (i + 1) as int),
            whole == match string_rest(s@, pos as int) {
                Some((rest, q)) => Some((out@ + rest, q)),
                None => None,
            },
            string_error(s@, i as int) == string_rest_error(s@, pos as int),
        decreases s@.len() - pos,
    {
        if pos >= s.len() {
            return err("unexpected end of JSON");
        }
        let b = s[pos];
        if b == 0x22 {
            assert(out@ + Seq::<char>::empty() =~= out@);
            return Ok((string_of_vec(&out), pos + 1));
        }
        let ghost before = out@;
        if b == 0x5c {
            if pos + 1 >= s.len() {
                return err("unexpected end of JSON");
            }
            let e = s[pos + 1];
            if e == 0x75 {
                if s.len() - pos < 6 {
                    return err("unexpected end of JSON");
                }
                let code = match hex4_exec(vstd::slice::slice_subrange(s, pos + 2, pos + 6)) {
                    Some(v) => v,
                    None => {
                        return err("bad \\u escape");
                    },
                };
                out.push(code_char_exec(code));
                proof {
                    match string_rest(s@, pos + 6) {
                        Some((rest, q)) => {
                            assert(before + (seq![code_char(code as nat)] + rest) =~= out@ + rest);
                        },
                        None => {},
                    }
                }
                pos = pos + 6;
            } else {
                let c = if e == 0x22 {
                    '"'
                } else if e == 0x5c {
                    '\\'
                } else if e == 0x2f {
                    '/'
                } else if e == 0x62 {
                    '\u{0008}'
                } else if e == 0x66 {
                    '\u{000c}'
                } else if e == 0x6e {
                    '\n'
                } else if e == 0x72 {
                    '\r'
                } else if e == 0x74 {
                    '\t'
                } else {
                    let bad: [char; 1] = [e as char];
                    return Err(Error(message_with("invalid JSON escape '\\", &bad, "'")));
                };
                out.push(c);
                proof {
                    match string_rest(s@, pos + 2) {
                        Some((rest, q)) => {
                            assert(before + (seq![c] + rest) =~= out@ + rest);
                        },
                        None => {},
                    }
                }
                pos = pos + 2;
            }
        } else if b < 0x80 {
            out.push(b as char);
            proof {
                match string_rest(s@, pos + 1) {
                    Some((rest, q)) => {
                        assert(before + (seq![b as char] + rest) =~= out@ + rest);
                    },
                    None => {},
                }
            }
            pos = pos + 1;
        } else {
            // Bytes >= 0x80 are UTF-8 continuation; collect the run and
            // decode lossily so multibyte characters survive.
            let h = high_run_end(s, pos);
            let text = from_utf8_lossy(vstd::slice::slice_subrange(s, pos, h));
            let cs = crate::text::chars_of(text.as_str());
            crate::text::push_all_chars(&mut out, &cs);
            proof {
                match string_rest(s@, h as int) {
                    Some((rest, q)) => {
                        assert(before + (lossy_utf8(s@.subrange(pos as int, h as int)) + rest)
                            =~= out@ + rest);
                    },
                    None => {},
                }
            }
            pos = h;
        }
    }
}

/// A string holding the given characters.
fn string_of_vec(v: &Vec<char>) -> (s: String)
    ensures
        s@ == v@,
{
    crate::text::string_of(v.as_slice())
}


// ---------------------------------------------------------------------------
// Values
// ---------------------------------------------------------------------------

/// Whether the given literal's bytes occur at `i`.
fn literal_at(s: &[u8], i: usize, word: &[u8]) -> (r: bool)
    ensures
        r == occurs_at(s@, word@, i as int),
{
    crate::text::bytes_at(s, word, i)
}

/// Object members from `p` to the closing '}', and the position after it.
fn read_members(s: &[u8], p: usize, depth: usize) -> (r: Result<(Vec<(String, Json)>, usize)>)
    requires
        p <= s@.len(),
        depth <= MAX_DEPTH,
    ensures
        r is Ok <==> members_at(s@, p as int, depth as int) is Some,
        r matches Ok((ms, q)) ==> members_at(s@, p as int, depth as int) == Some(
            (json_members_view(ms@), q as int),
        ) && p < q <= s@.len(),
        r matches Err(e) ==> e.0@ == members_error(s@, p as int, depth as int),
    decreases s@.len() - p, 1nat,
{
    let mut members: Vec<(String, Json)> = Vec::new();
    let ghost acc: Seq<(Seq<char>, JsonModel)> = Seq::empty();
    let ghost whole = members_at(s@, p as int, depth as int);
    let mut pos = p;
    loop
        invariant
            p <= pos <= s@.len(),
            depth <= MAX_DEPTH,
            whole == members_at(s@, p as int, depth as int),
            whole == match members_at(s@, pos as int, depth as int) {
                Some((rest, q)) => Some((acc + rest, q)),
                None => None,
            },
            members_error(s@, p as int, depth as int) == members_error(
                s@,
                pos as int,
                depth as int,
            ),
            acc.len() == members@.len(),
            forall|j: int| 0 <= j < acc.len() ==> #[trigger] acc[j] == (
                members@[j].0@,
                members@[j].1@,
            ),
        decreases s@.len() - pos,
    {
        let k0 = skip_ws(s, pos);
        let (key, k1) = match read_string(s, k0) {
            Ok(x) => x,
            Err(e) => {
                return Err(e);
            },
        };
        let k2 = skip_ws(s, k1);
        if k2 >= s.len() {
            return err("unexpected end of JSON");
        }
        if s[k2] != 0x3a {
            return err("expected ':' in JSON object");
        }
        let k3 = skip_ws(s, k2 + 1);
        let (v, k4) = match read_value(s, k3, depth + 1) {
            Ok(x) => x,
            Err(e) => {
                return Err(e);
            },
        };
        let k5 = skip_ws(s, k4);
        if k5 >= s.len() {
            return err("unexpected end of JSON");
        }
        let sep = s[k5];
        let ghost mv = (key@, v@);
        if sep != 0x2c && sep != 0x7d {
            return err("expected ',' or '}' in JSON object");
        }
        members.push((key, v));
        if sep == 0x2c {
            proof {
                match members_at(s@, k5 + 1, depth as int) {
                    Some((rest, e)) => {
                        assert(acc + (seq![mv] + rest) =~= acc.push(mv) + rest);
                    },
                    None => {},
                }
                acc = acc.push(mv);
            }
            pos = k5 + 1;
        } else {
            proof {
                acc = acc.push(mv);
                lemma_json_members_view(members@);
                assert(json_members_view(members@) =~= acc);
            }
            return Ok((members, k5 + 1));
        }
    }
}

/// Array items from `p` to the closing ']', and the position after it.
fn read_items(s: &[u8], p: usize, depth: usize) -> (r: Result<(Vec<Json>, usize)>)
    requires
        p <= s@.len(),
        depth <= MAX_DEPTH,
    ensures
        r is Ok <==> items_at(s@, p as int, depth as int) is Some,
        r matches Ok((vs, q)) ==> items_at(s@, p as int, depth as int) == Some(
            (json_items_view(vs@), q as int),
        ) && p < q <= s@.len(),
        r matches Err(e) ==> e.0@ == items_error(s@, p as int, depth as int),
    decreases s@.len() - p, 1nat,
{
    let mut items: Vec<Json> = Vec::new();
    let ghost acc: Seq<JsonModel> = Seq::empty();
    let ghost whole = items_at(s@, p as int, depth as int);
    let mut pos = p;
    loop
        invariant
            p <= pos <= s@.len(),
            depth <= MAX_DEPTH,
            whole == items_at(s@, p as int, depth as int),
            whole == match items_at(s@, pos as int, depth as int) {
                Some((rest, q)) => Some((acc + rest, q)),
                None => None,
            },
            items_error(s@, p as int, depth as int) == items_error(s@, pos as int, depth as int),
            acc.len() == items@.len(),
            forall|j: int| 0 <= j < acc.len() ==> #[trigger] acc[j] == items@[j]@,
        decreases s@.len() - pos,
    {
        let k0 = skip_ws(s, pos);
        let (v, k1) = match read_value(s, k0, depth + 1) {
            Ok(x) => x,
            Err(e) => {
                return Err(e);
            },
        };
        let k2 = skip_ws(s, k1);
        if k2 >= s.len() {
            return err("unexpected end of JSON");
        }
        let sep = s[k2];
        if sep != 0x2c && sep != 0x5d {
            return err("expected ',' or ']' in JSON array");
        }
        let ghost vv = v@;
        items.push(v);
        if sep == 0x2c {
            proof {
                match items_at(s@, k2 + 1, depth as int) {
                    Some((rest, e)) => {
                        assert(acc + (seq![vv] + rest) =~= acc.push(vv) + rest);
                    },
                    None => {},
                }
                acc = acc.push(vv);
            }
            pos = k2 + 1;
        } else {
            proof {
                acc = acc.push(vv);
                lemma_json_items_view(items@);
                assert(json_items_view(items@) =~= acc);
            }
            return Ok((items, k2 + 1));
        }
    }
}

/// The value at `i`, nested `depth` levels deep, and the position after it.
fn read_value(s: &[u8], i: usize, depth: usize) -> (r: Result<(Json, usize)>)
    ensures
        r is Ok <==> value_at(s@, i as int, depth as int) is Some,
        r matches Ok((v, q)) ==> value_at(s@, i as int, depth as int) == Some((v@, q as int)) && i
            < q <= s@.len(),
        r matches Err(e) ==> e.0@ == value_error(s@, i as int, depth as int),
    decreases s@.len() - i, 0nat,
{
    if depth > MAX_DEPTH {
        return err("JSON nests too deeply");
    }
    if i >= s.len() {
        return err("unexpected end of JSON");
    }
    let b = s[i];
    if b == 0x7b {
        let p = skip_ws(s, i + 1);
        if p >= s.len() {
            return err("unexpected end of JSON");
        }
        if s[p] == 0x7d {
            let members: Vec<(String, Json)> = Vec::new();
            assert(json_members_view(members@) =~= Seq::<(Seq<char>, JsonModel)>::empty());
            return Ok((Json::Object(members), p + 1));
        }
        match read_members(s, p, depth) {
            Ok((members, q)) => Ok((Json::Object(members), q)),
            Err(e) => Err(e),
        }
    } else if b == 0x5b {
        let p = skip_ws(s, i + 1);
        if p >= s.len() {
            return err("unexpected end of JSON");
        }
        if s[p] == 0x5d {
            let items: Vec<Json> = Vec::new();
            assert(json_items_view(items@) =~= Seq::<JsonModel>::empty());
            return Ok((Json::Array(items), p + 1));
        }
        match read_items(s, p, depth) {
            Ok((items, q)) => Ok((Json::Array(items), q)),
            Err(e) => Err(e),
        }
    } else if b == 0x22 {
        let (t, q) = match read_string(s, i) {
            Ok(x) => x,
            Err(e) => {
                return Err(e);
            },
        };
        Ok((Json::Str(t), q))
    } else if b == 0x74 {
        let word: [u8; 4] = [0x74, 0x72, 0x75, 0x65];
        assert(word@ == seq![0x74u8, 0x72u8, 0x75u8, 0x65u8]);
        if literal_at(s, i, &word) {
            Ok((Json::Bool(true), i + 4))
        } else {
            err("expected 'true' in JSON")
        }
    } else if b == 0x66 {
        let word: [u8; 5] = [0x66, 0x61, 0x6c, 0x73, 0x65];
        assert(word@ == seq![0x66u8, 0x61u8, 0x6cu8, 0x73u8, 0x65u8]);
        if literal_at(s, i, &word) {
            Ok((Json::Bool(false), i + 5))
        } else {
            err("expected 'false' in JSON")
        }
    } else if b == 0x6e {
        let word: [u8; 4] = [0x6e, 0x75, 0x6c, 0x6c];
        assert(word@ == seq![0x6eu8, 0x75u8, 0x6cu8, 0x6cu8]);
        if literal_at(s, i, &word) {
            Ok((Json::Null, i + 4))
        } else {
            err("expected 'null' in JSON")
        }
    } else {
        let e = number_end(s, i);
        if e == i {
            return err("expected a JSON value");
        }
        let t = vstd::slice::slice_subrange(s, i, e);
        if !float_valid(t) {
            return err("invalid JSON number");
        }
        let cs = ascii_vec(t);
        Ok((Json::Num(string_of_vec(&cs)), e))
    }
}

/// Parse a complete JSON document.
pub fn parse(text: &str) -> (r: Result<Json>)
    ensures
        match parse_spec(encode_utf8(text@)) {
            Some(v) => r matches Ok(j) && j@ == v,
            None => r is Err,
        },
        r matches Err(e) ==> e.0@ == parse_error(encode_utf8(text@)),
{
    let b = bytes_of(text);
    let i = skip_ws(&b, 0);
    let (v, q) = match read_value(&b, i, 0) {
        Ok(x) => x,
        Err(e) => {
            return Err(e);
        },
    };
    let e = skip_ws(&b, q);
    if e != b.len() {
        return err("trailing data after JSON document");
    }
    Ok(v)
}


// ---------------------------------------------------------------------------
// Members with their source text
// ---------------------------------------------------------------------------

/// Object members from `p` with each value's exact source text.
pub open spec fn raw_members_from(s: Seq<u8>, p: int) -> Option<Seq<(Seq<char>, Seq<char>)>>
    decreases s.len() - p,
{
    let k0 = ws_end(s, p);
    if p < 0 || k0 < p {
        None
    } else {
        match string_at(s, k0) {
            None => None,
            Some((key, k1)) => {
                let k2 = ws_end(s, k1);
                if k1 <= p || k2 < k1 || k2 >= s.len() || s[k2] != 0x3a {
                    None
                } else {
                    let k3 = ws_end(s, k2 + 1);
                    match value_at(s, k3, 0) {
                        None => None,
                        Some((_, k4)) => {
                            let raw = s.subrange(k3, k4);
                            let k5 = ws_end(s, k4);
                            if k3 <= k2 || k4 <= k3 || k4 > s.len() || !valid_utf8(raw) {
                                None
                            } else if k5 < k4 || k5 >= s.len() {
                                None
                            } else if s[k5] == 0x2c {
                                match raw_members_from(s, k5 + 1) {
                                    Some(rest) => Some(seq![(key, decode_utf8(raw))] + rest),
                                    None => None,
                                }
                            } else if s[k5] == 0x7d {
                                Some(seq![(key, decode_utf8(raw))])
                            } else {
                                None
                            }
                        },
                    }
                }
            },
        }
    }
}

/// A top-level object's members as (key, raw value text) pairs.
pub open spec fn raw_members_spec(s: Seq<u8>) -> Option<Seq<(Seq<char>, Seq<char>)>> {
    let i = ws_end(s, 0);
    if i >= s.len() || s[i] != 0x7b {
        None
    } else {
        let p = ws_end(s, i + 1);
        if p >= s.len() {
            None
        } else if s[p] == 0x7d {
            Some(Seq::empty())
        } else {
            raw_members_from(s, p)
        }
    }
}

/// The message for members with their source text from `p` that cannot
/// be read.
pub open spec fn raw_members_error_from(s: Seq<u8>, p: int) -> Seq<char>
    decreases s.len() - p,
{
    let k0 = ws_end(s, p);
    if p < 0 || k0 < p {
        Seq::empty()
    } else {
        match string_at(s, k0) {
            None => string_error(s, k0),
            Some((_, k1)) => {
                let k2 = ws_end(s, k1);
                if k1 <= p || k2 < k1 {
                    Seq::empty()
                } else if k2 >= s.len() {
                    end_error()
                } else if s[k2] != 0x3a {
                    "expected ':' in JSON object"@
                } else {
                    let k3 = ws_end(s, k2 + 1);
                    match value_at(s, k3, 0) {
                        None => value_error(s, k3, 0),
                        Some((_, k4)) => {
                            let k5 = ws_end(s, k4);
                            if k3 <= k2 || k4 <= k3 || k4 > s.len() {
                                Seq::empty()
                            } else if !valid_utf8(s.subrange(k3, k4)) {
                                "non-UTF-8 JSON value"@
                            } else if k5 < k4 {
                                Seq::empty()
                            } else if k5 >= s.len() {
                                end_error()
                            } else if s[k5] == 0x2c {
                                raw_members_error_from(s, k5 + 1)
                            } else if s[k5] == 0x7d {
                                Seq::empty()
                            } else {
                                "expected ',' or '}' in JSON object"@
                            }
                        },
                    }
                }
            },
        }
    }
}

/// The message `object_members_raw` gives where `raw_members_spec` finds
/// no object.
pub open spec fn raw_members_error(s: Seq<u8>) -> Seq<char> {
    let i = ws_end(s, 0);
    if i >= s.len() {
        end_error()
    } else if s[i] != 0x7b {
        "expected a JSON object"@
    } else {
        let p = ws_end(s, i + 1);
        if p >= s.len() {
            end_error()
        } else {
            raw_members_error_from(s, p)
        }
    }
}

/// The plain content of (key, text) pairs.
pub open spec fn pairs_view(v: Seq<(String, String)>) -> Seq<(Seq<char>, Seq<char>)> {
    Seq::new(v.len(), |k: int| (v[k].0@, v[k].1@))
}

/// Parse a top-level JSON object and return its members as (key, raw value
/// text) pairs, where the raw text is the exact source slice of each value.
pub fn object_members_raw(text: &str) -> (r: Result<Vec<(String, String)>>)
    ensures
        match raw_members_spec(encode_utf8(text@)) {
            Some(ms) => r matches Ok(v) && pairs_view(v@) == ms,
            None => r is Err,
        },
        r matches Err(e) ==> e.0@ == raw_members_error(encode_utf8(text@)),
{
    let b = bytes_of(text);
    let s = b.as_slice();
    let i = skip_ws(s, 0);
    if i >= s.len() {
        return err("unexpected end of JSON");
    }
    if s[i] != 0x7b {
        return err("expected a JSON object");
    }
    let mut members: Vec<(String, String)> = Vec::new();
    let p = skip_ws(s, i + 1);
    if p >= s.len() {
        return err("unexpected end of JSON");
    }
    if s[p] == 0x7d {
        assert(pairs_view(members@) =~= Seq::<(Seq<char>, Seq<char>)>::empty());
        return Ok(members);
    }
    let ghost acc: Seq<(Seq<char>, Seq<char>)> = Seq::empty();
    let ghost whole = raw_members_from(s@, p as int);
    let mut pos = p;
    loop
        invariant
            p <= pos <= s@.len(),
            s@ == encode_utf8(text@),
            raw_members_spec(s@) == whole,
            whole == raw_members_from(s@, p as int),
            whole == match raw_members_from(s@, pos as int) {
                Some(rest) => Some(acc + rest),
                None => None,
            },
            raw_members_error(s@) == raw_members_error_from(s@, pos as int),
            acc == pairs_view(members@),
        decreases s@.len() - pos,
    {
        let k0 = skip_ws(s, pos);
        let (key, k1) = match read_string(s, k0) {
            Ok(x) => x,
            Err(e) => {
                return Err(e);
            },
        };
        let k2 = skip_ws(s, k1);
        if k2 >= s.len() {
            return err("unexpected end of JSON");
        }
        if s[k2] != 0x3a {
            return err("expected ':' in JSON object");
        }
        let k3 = skip_ws(s, k2 + 1);
        let k4 = match read_value(s, k3, 0) {
            Ok((_, q)) => q,
            Err(e) => {
                return Err(e);
            },
        };
        let raw = match from_utf8(crate::text::byte_range(s, k3, k4)) {
            Some(t) => t,
            None => {
                return err("non-UTF-8 JSON value");
            },
        };
        let k5 = skip_ws(s, k4);
        if k5 >= s.len() {
            return err("unexpected end of JSON");
        }
        let sep = s[k5];
        if sep != 0x2c && sep != 0x7d {
            return err("expected ',' or '}' in JSON object");
        }
        let ghost mv = (key@, raw@);
        members.push((key, raw));
        proof {
            assert(pairs_view(members@) =~= acc.push(mv));
        }
        if sep == 0x2c {
            proof {
                match raw_members_from(s@, k5 + 1) {
                    Some(rest) => {
                        assert(acc + (seq![mv] + rest) =~= acc.push(mv) + rest);
                    },
                    None => {},
                }
                acc = acc.push(mv);
            }
            pos = k5 + 1;
        } else {
            proof {
                acc = acc.push(mv);
            }
            return Ok(members);
        }
    }
}

// ---------------------------------------------------------------------------
// Looking inside values
// ---------------------------------------------------------------------------

/// The index of the first member named `key`, from index `i` on.
pub open spec fn key_index_from(ms: Seq<(Seq<char>, JsonModel)>, key: Seq<char>, i: int) -> Option<int>
    decreases ms.len() - i,
{
    if i < 0 || i >= ms.len() {
        None
    } else if ms[i].0 == key {
        Some(i)
    } else {
        key_index_from(ms, key, i + 1)
    }
}

/// The members of an object's plain content (empty for other kinds).
pub open spec fn json_members_of(v: JsonModel) -> Seq<(Seq<char>, JsonModel)> {
    match v {
        JsonModel::Object(ms) => ms,
        _ => Seq::empty(),
    }
}

/// The value under `key` in an object: the first member so named.
pub open spec fn json_get(v: JsonModel, key: Seq<char>) -> Option<JsonModel> {
    match v {
        JsonModel::Object(ms) => match key_index_from(ms, key, 0) {
            Some(i) => Some(ms[i].1),
            None => None,
        },
        _ => None,
    }
}

impl Json {
    /// The value under `key` in an object.
    pub fn get(&self, key: &str) -> (r: Option<&Json>)
        ensures
            r matches Some(v) ==> json_get(self@, key@) == Some(v@),
            r is None ==> json_get(self@, key@) is None,
    {
        match self {
            Json::Object(ms) => {
                proof {
                    lemma_json_members_view(ms@);
                }
                let ghost msv = json_members_view(ms@);
                let mut i: usize = 0;
                while i < ms.len()
                    invariant
                        i <= ms@.len(),
                        msv == json_members_view(ms@),
                        msv.len() == ms@.len(),
                        self@ == JsonModel::Object(msv),
                        forall|j: int| 0 <= j < ms@.len() ==> #[trigger] msv[j] == (
                            ms@[j].0@,
                            ms@[j].1@,
                        ),
                        key_index_from(msv, key@, 0) == key_index_from(msv, key@, i as int),
                    decreases ms@.len() - i,
                {
                    assert(msv[i as int] == (ms@[i as int].0@, ms@[i as int].1@));
                    if str_eq(ms[i].0.as_str(), key) {
                        return Some(&ms[i].1);
                    }
                    i = i + 1;
                }
                None
            },
            _ => None,
        }
    }

    /// The text of a string value.
    pub fn as_str(&self) -> (r: Option<&str>)
        ensures
            r matches Some(t) ==> self@ == JsonModel::Str(t@),
            r is None ==> !(self@ is Str),
    {
        match self {
            Json::Str(t) => Some(t.as_str()),
            _ => None,
        }
    }

    /// Keys of an object, in order; empty for any other kind.
    pub fn keys(&self) -> (r: Vec<&str>)
        ensures
            r@.len() == json_members_of(self@).len(),
            forall|j: int| 0 <= j < r@.len() ==> #[trigger] r@[j]@ == json_members_of(self@)[j].0,
    {
        let mut r: Vec<&str> = Vec::new();
        match self {
            Json::Object(ms) => {
                proof {
                    lemma_json_members_view(ms@);
                }
                let mut i: usize = 0;
                while i < ms.len()
                    invariant
                        i <= ms@.len(),
                        r@.len() == i,
                        self@ == JsonModel::Object(json_members_view(ms@)),
                        json_members_view(ms@).len() == ms@.len(),
                        forall|j: int| 0 <= j < ms@.len() ==> #[trigger] json_members_view(ms@)[j]
                            == (ms@[j].0@, ms@[j].1@),
                        forall|j: int| 0 <= j < i ==> #[trigger] r@[j]@ == ms@[j].0@,
                    decreases ms@.len() - i,
                {
                    r.push(ms[i].0.as_str());
                    i = i + 1;
                }
            },
            _ => {},
        }
        r
    }
}

// ---------------------------------------------------------------------------
// How the two readers relate
// ---------------------------------------------------------------------------

/// A scan for the end of whitespace stops at or after where it starts.
proof fn lemma_ws_end_bounds(s: Seq<u8>, i: int)
    ensures
        0 <= i <= s.len() ==> i <= ws_end(s, i) <= s.len(),
        0 <= i < ws_end(s, i) ==> is_json_ws(s[i]),
        0 <= i && ws_end(s, i) < s.len() ==> !is_json_ws(s[ws_end(s, i)]),
    decreases s.len() - i,
{
    if 0 <= i < s.len() && is_json_ws(s[i]) {
        lemma_ws_end_bounds(s, i + 1);
    }
}

/// Whitespace ends at the same place in a slice that holds the run and
/// what stops it.
proof fn lemma_ws_end_local(s: Seq<u8>, a: int, b: int, i: int)
    requires
        0 <= a <= i <= b <= s.len(),
        ws_end(s, i) < b,
    ensures
        ws_end(s.subrange(a, b), i - a) == ws_end(s, i) - a,
    decreases b - i,
{
    let t = s.subrange(a, b);
    if i < b && is_json_ws(s[i]) {
        assert(t[i - a] == s[i]);
        lemma_ws_end_local(s, a, b, i + 1);
    } else if i < b {
        assert(t[i - a] == s[i]);
    } else {
        lemma_ws_end_bounds(s, i);
    }
}

/// A number's bytes end at the same place in a slice that holds them.
proof fn lemma_num_end_local(s: Seq<u8>, a: int, b: int, i: int)
    requires
        0 <= a <= i <= b <= s.len(),
        num_end(s, i) <= b,
    ensures
        num_end(s.subrange(a, b), i - a) == num_end(s, i) - a,
    decreases b - i,
{
    let t = s.subrange(a, b);
    if i < b {
        assert(t[i - a] == s[i]);
        if is_num_byte(s[i]) {
            lemma_num_end_local(s, a, b, i + 1);
        }
    } else {
        lemma_num_end_bounds(s, i);
    }
}

/// A scan for the end of high bytes stops at or after where it starts.
proof fn lemma_high_end_bounds(s: Seq<u8>, i: int)
    ensures
        0 <= i <= s.len() ==> i <= high_end(s, i) <= s.len(),
    decreases s.len() - i,
{
    if 0 <= i < s.len() && s[i] >= 0x80 {
        lemma_high_end_bounds(s, i + 1);
    }
}

/// A scan for the end of number bytes stops at or after where it starts.
proof fn lemma_num_end_bounds(s: Seq<u8>, i: int)
    ensures
        0 <= i <= s.len() ==> i <= num_end(s, i) <= s.len(),
        0 <= i < num_end(s, i) ==> is_num_byte(s[i]),
    decreases s.len() - i,
{
    if 0 <= i < s.len() && is_num_byte(s[i]) {
        lemma_num_end_bounds(s, i + 1);
    }
}

/// A run of high bytes ends at the same place in a slice that holds it.
proof fn lemma_high_end_local(s: Seq<u8>, a: int, b: int, i: int)
    requires
        0 <= a <= i <= b <= s.len(),
        high_end(s, i) <= b,
    ensures
        high_end(s.subrange(a, b), i - a) == high_end(s, i) - a,
    decreases b - i,
{
    let t = s.subrange(a, b);
    if i < b {
        assert(t[i - a] == s[i]);
        if s[i] >= 0x80 {
            lemma_high_end_local(s, a, b, i + 1);
        }
    } else {
        lemma_high_end_bounds(s, i);
    }
}

/// A string's rest ends past where it starts.
proof fn lemma_string_rest_bounds(s: Seq<u8>, i: int)
    ensures
        string_rest(s, i) matches Some((_, q)) ==> 0 <= i < q <= s.len(),
    decreases s.len() - i,
{
    if 0 <= i < s.len() && s[i] != 0x22 {
        if s[i] == 0x5c {
            if i + 1 < s.len() {
                if s[i + 1] == 0x75 {
                    if i + 6 <= s.len() {
                        lemma_string_rest_bounds(s, i + 6);
                    }
                } else {
                    lemma_string_rest_bounds(s, i + 2);
                }
            }
        } else if s[i] < 0x80 {
            lemma_string_rest_bounds(s, i + 1);
        } else {
            let h = high_end(s, i);
            if i < h <= s.len() {
                lemma_string_rest_bounds(s, h);
            }
        }
    }
}

/// A string reads the same in a slice that holds it.
proof fn lemma_string_rest_local(s: Seq<u8>, a: int, b: int, i: int)
    requires
        0 <= a <= i <= b <= s.len(),
        string_rest(s, i) matches Some((_, q)) && q <= b,
    ensures
        string_rest(s.subrange(a, b), i - a) == (match string_rest(s, i) {
            Some((c, q)) => Some((c, q - a)),
            None => None,
        }),
    decreases s.len() - i,
{
    let t = s.subrange(a, b);
    lemma_string_rest_bounds(s, i);
    assert(i < b);
    assert(t[i - a] == s[i]);
    if s[i] == 0x22 {
    } else if s[i] == 0x5c {
        if s[i + 1] == 0x75 {
            lemma_string_rest_bounds(s, i + 6);
            assert(t[i - a + 1] == s[i + 1]);
            assert(t.subrange(i - a + 2, i - a + 6) =~= s.subrange(i + 2, i + 6));
            lemma_string_rest_local(s, a, b, i + 6);
        } else {
            lemma_string_rest_bounds(s, i + 2);
            assert(t[i - a + 1] == s[i + 1]);
            lemma_string_rest_local(s, a, b, i + 2);
        }
    } else if s[i] < 0x80 {
        lemma_string_rest_bounds(s, i + 1);
        lemma_string_rest_local(s, a, b, i + 1);
    } else {
        let h = high_end(s, i);
        lemma_string_rest_bounds(s, h);
        lemma_high_end_local(s, a, b, i);
        assert(t.subrange(i - a, h - a) =~= s.subrange(i, h));
        lemma_string_rest_local(s, a, b, h);
    }
}

/// A value ends past where it starts, and starts with an ASCII byte that
/// is not whitespace.
proof fn lemma_value_bounds(s: Seq<u8>, i: int, d: int)
    ensures
        value_at(s, i, d) matches Some((_, e)) ==> 0 <= i < e <= s.len() && s[i] < 0x80
            && !is_json_ws(s[i]),
    decreases s.len() - i, 0nat,
{
    if !(d > MAX_DEPTH || i < 0 || i >= s.len()) {
        if s[i] == 0x7b || s[i] == 0x5b {
            let p = ws_end(s, i + 1);
            if i < p < s.len() {
                if s[i] == 0x7b {
                    lemma_members_bounds(s, p, d);
                } else {
                    lemma_items_bounds(s, p, d);
                }
            }
        } else if s[i] == 0x22 {
            lemma_string_rest_bounds(s, i + 1);
        } else if s[i] != 0x74 && s[i] != 0x66 && s[i] != 0x6e {
            lemma_num_end_bounds(s, i);
        }
    }
}

/// Members end past where they start.
proof fn lemma_members_bounds(s: Seq<u8>, p: int, d: int)
    ensures
        members_at(s, p, d) matches Some((_, q)) ==> 0 <= p < q <= s.len(),
    decreases s.len() - p, 1nat,
{
    let k0 = ws_end(s, p);
    if !(p < 0 || k0 < p) {
        if let Some((_, k1)) = string_at(s, k0) {
            let k2 = ws_end(s, k1);
            if !(k1 <= p || k2 < k1 || k2 >= s.len() || s[k2] != 0x3a) {
                let k3 = ws_end(s, k2 + 1);
                if !(k3 <= k2 || k3 > s.len()) {
                    if let Some((_, k4)) = value_at(s, k3, d + 1) {
                        let k5 = ws_end(s, k4);
                        if !(k4 <= k3 || k5 < k4 || k5 >= s.len()) && s[k5] == 0x2c {
                            lemma_members_bounds(s, k5 + 1, d);
                        }
                    }
                }
            }
        }
    }
}

/// Items end past where they start.
proof fn lemma_items_bounds(s: Seq<u8>, p: int, d: int)
    ensures
        items_at(s, p, d) matches Some((_, q)) ==> 0 <= p < q <= s.len(),
    decreases s.len() - p, 1nat,
{
    let k0 = ws_end(s, p);
    if !(p < 0 || k0 < p || k0 > s.len()) {
        lemma_value_bounds(s, k0, d + 1);
        if let Some((_, k1)) = value_at(s, k0, d + 1) {
            let k2 = ws_end(s, k1);
            if !(k1 <= k0 || k2 < k1 || k2 >= s.len()) && s[k2] == 0x2c {
                lemma_items_bounds(s, k2 + 1, d);
            }
        }
    }
}

/// A value read at some depth reads the same at any shallower depth.
proof fn lemma_value_depth(s: Seq<u8>, i: int, d: int, d2: int)
    requires
        0 <= d2 <= d,
        value_at(s, i, d) is Some,
    ensures
        value_at(s, i, d2) == value_at(s, i, d),
    decreases s.len() - i, 0nat,
{
    if s[i] == 0x7b || s[i] == 0x5b {
        let p = ws_end(s, i + 1);
        if s[i] == 0x7b && s[p] != 0x7d {
            lemma_members_depth(s, p, d, d2);
        } else if s[i] == 0x5b && s[p] != 0x5d {
            lemma_items_depth(s, p, d, d2);
        }
    }
}

/// Members read at some depth read the same at any shallower depth.
proof fn lemma_members_depth(s: Seq<u8>, p: int, d: int, d2: int)
    requires
        0 <= d2 <= d,
        members_at(s, p, d) is Some,
    ensures
        members_at(s, p, d2) == members_at(s, p, d),
    decreases s.len() - p, 1nat,
{
    let k0 = ws_end(s, p);
    let k1 = string_at(s, k0).unwrap().1;
    let k2 = ws_end(s, k1);
    let k3 = ws_end(s, k2 + 1);
    lemma_value_depth(s, k3, d + 1, d2 + 1);
    let k4 = value_at(s, k3, d + 1).unwrap().1;
    let k5 = ws_end(s, k4);
    if s[k5] == 0x2c {
        lemma_members_depth(s, k5 + 1, d, d2);
    }
}

/// Items read at some depth read the same at any shallower depth.
proof fn lemma_items_depth(s: Seq<u8>, p: int, d: int, d2: int)
    requires
        0 <= d2 <= d,
        items_at(s, p, d) is Some,
    ensures
        items_at(s, p, d2) == items_at(s, p, d),
    decreases s.len() - p, 1nat,
{
    let k0 = ws_end(s, p);
    lemma_value_depth(s, k0, d + 1, d2 + 1);
    let k1 = value_at(s, k0, d + 1).unwrap().1;
    let k2 = ws_end(s, k1);
    if s[k2] == 0x2c {
        lemma_items_depth(s, k2 + 1, d, d2);
    }
}

/// The position past a read, moved into a slice that starts at `a`.
pub open spec fn shifted<T>(r: Option<(T, int)>, a: int) -> Option<(T, int)> {
    match r {
        Some((v, e)) => Some((v, e - a)),
        None => None,
    }
}

/// A value reads the same in a slice that holds it.
proof fn lemma_value_local(s: Seq<u8>, a: int, b: int, i: int, d: int)
    requires
        0 <= a <= i <= b <= s.len(),
        value_at(s, i, d) matches Some((_, e)) && e <= b,
    ensures
        value_at(s.subrange(a, b), i - a, d) == shifted(value_at(s, i, d), a),
    decreases s.len() - i, 0nat,
{
    let t = s.subrange(a, b);
    let e = value_at(s, i, d).unwrap().1;
    lemma_value_bounds(s, i, d);
    assert(t[i - a] == s[i]);
    if s[i] == 0x7b || s[i] == 0x5b {
        let p = ws_end(s, i + 1);
        if s[i] == 0x7b && s[p] != 0x7d {
            lemma_members_bounds(s, p, d);
        } else if s[i] == 0x5b && s[p] != 0x5d {
            lemma_items_bounds(s, p, d);
        }
        lemma_ws_end_local(s, a, b, i + 1);
        assert(t[p - a] == s[p]);
        if s[i] == 0x7b && s[p] != 0x7d {
            lemma_members_local(s, a, b, p, d);
        } else if s[i] == 0x5b && s[p] != 0x5d {
            lemma_items_local(s, a, b, p, d);
        }
    } else if s[i] == 0x22 {
        lemma_string_rest_bounds(s, i + 1);
        lemma_string_rest_local(s, a, b, i + 1);
    } else if s[i] == 0x74 {
        assert(t.subrange(i - a, i - a + 4) =~= s.subrange(i, i + 4));
    } else if s[i] == 0x66 {
        assert(t.subrange(i - a, i - a + 5) =~= s.subrange(i, i + 5));
    } else if s[i] == 0x6e {
        assert(t.subrange(i - a, i - a + 4) =~= s.subrange(i, i + 4));
    } else {
        lemma_num_end_local(s, a, b, i);
        assert(t.subrange(i - a, e - a) =~= s.subrange(i, e));
    }
}

/// Members read the same in a slice that holds them.
proof fn lemma_members_local(s: Seq<u8>, a: int, b: int, p: int, d: int)
    requires
        0 <= a <= p <= b <= s.len(),
        members_at(s, p, d) matches Some((_, q)) && q <= b,
    ensures
        members_at(s.subrange(a, b), p - a, d) == shifted(members_at(s, p, d), a),
    decreases s.len() - p, 1nat,
{
    let t = s.subrange(a, b);
    let k0 = ws_end(s, p);
    let k1 = string_at(s, k0).unwrap().1;
    let k2 = ws_end(s, k1);
    let k3 = ws_end(s, k2 + 1);
    let k4 = value_at(s, k3, d + 1).unwrap().1;
    let k5 = ws_end(s, k4);
    lemma_string_rest_bounds(s, k0 + 1);
    lemma_value_bounds(s, k3, d + 1);
    if s[k5] == 0x2c {
        lemma_members_bounds(s, k5 + 1, d);
    }
    lemma_ws_end_local(s, a, b, p);
    assert(t[k0 - a] == s[k0]);
    lemma_string_rest_local(s, a, b, k0 + 1);
    lemma_ws_end_local(s, a, b, k1);
    assert(t[k2 - a] == s[k2]);
    lemma_ws_end_local(s, a, b, k2 + 1);
    lemma_value_local(s, a, b, k3, d + 1);
    lemma_ws_end_local(s, a, b, k4);
    assert(t[k5 - a] == s[k5]);
    if s[k5] == 0x2c {
        lemma_members_local(s, a, b, k5 + 1, d);
    }
}

/// Items read the same in a slice that holds them.
proof fn lemma_items_local(s: Seq<u8>, a: int, b: int, p: int, d: int)
    requires
        0 <= a <= p <= b <= s.len(),
        items_at(s, p, d) matches Some((_, q)) && q <= b,
    ensures
        items_at(s.subrange(a, b), p - a, d) == shifted(items_at(s, p, d), a),
    decreases s.len() - p, 1nat,
{
    let t = s.subrange(a, b);
    let k0 = ws_end(s, p);
    let k1 = value_at(s, k0, d + 1).unwrap().1;
    let k2 = ws_end(s, k1);
    lemma_value_bounds(s, k0, d + 1);
    if s[k2] == 0x2c {
        lemma_items_bounds(s, k2 + 1, d);
    }
    lemma_ws_end_local(s, a, b, p);
    lemma_value_local(s, a, b, k0, d + 1);
    lemma_ws_end_local(s, a, b, k1);
    assert(t[k2 - a] == s[k2]);
    if s[k2] == 0x2c {
        lemma_items_local(s, a, b, k2 + 1, d);
    }
}

/// A slice of valid UTF-8 that starts at an ASCII byte and ends before one,
/// or at the end, is valid UTF-8.
proof fn lemma_ascii_bounded_slice(s: Seq<u8>, a: int, b: int)
    requires
        valid_utf8(s),
        0 <= a < b <= s.len(),
        s[a] < 0x80,
        b == s.len() || s[b] < 0x80,
    ensures
        valid_utf8(s.subrange(a, b)),
{
    is_char_boundary_iff_not_is_continuation_byte(s, a);
    valid_utf8_split(s, a);
    let u = s.subrange(a, s.len() as int);
    if b == s.len() {
        assert(s.subrange(a, b) =~= u);
    } else {
        assert(u[b - a] == s[b]);
        is_char_boundary_iff_not_is_continuation_byte(u, b - a);
        valid_utf8_split(u, b - a);
        assert(u.subrange(0, b - a) =~= s.subrange(a, b));
    }
}

/// Members from `p` read with their source texts wherever they read as
/// values, and each text parses on its own to the member's value.
proof fn lemma_raw_from(s: Seq<u8>, p: int)
    requires
        valid_utf8(s),
        members_at(s, p, 0) is Some,
    ensures
        ({
            let m = members_at(s, p, 0).unwrap().0;
            &&& raw_members_from(s, p) matches Some(r)
            &&& r.len() == m.len()
            &&& forall|k: int|
                0 <= k < r.len() ==> r[k].0 == m[k].0 && parse_spec(encode_utf8(#[trigger] r[k].1))
                    == Some(m[k].1)
        }),
    decreases s.len() - p,
{
    let k0 = ws_end(s, p);
    let key = string_at(s, k0).unwrap().0;
    let k1 = string_at(s, k0).unwrap().1;
    let k2 = ws_end(s, k1);
    let k3 = ws_end(s, k2 + 1);
    let v = value_at(s, k3, 1).unwrap().0;
    let k4 = value_at(s, k3, 1).unwrap().1;
    let k5 = ws_end(s, k4);
    lemma_value_depth(s, k3, 1, 0);
    lemma_value_bounds(s, k3, 1);
    lemma_ws_end_bounds(s, k4);
    lemma_ascii_bounded_slice(s, k3, k4);
    let raw = s.subrange(k3, k4);
    lemma_value_local(s, k3, k4, k3, 0);
    assert(raw[0] == s[k3]);
    assert(ws_end(raw, 0) == 0);
    assert(parse_spec(raw) == Some(v));
    assert(encode_utf8(decode_utf8(raw)) == raw);
    let m = members_at(s, p, 0).unwrap().0;
    if s[k5] == 0x2c {
        lemma_raw_from(s, k5 + 1);
        let rr = raw_members_from(s, k5 + 1).unwrap();
        let rm = members_at(s, k5 + 1, 0).unwrap().0;
        let r = raw_members_from(s, p).unwrap();
        assert(r == seq![(key, decode_utf8(raw))] + rr);
        assert(m == seq![(key, v)] + rm);
        assert forall|k: int| 0 <= k < r.len() implies r[k].0 == m[k].0 && parse_spec(
            encode_utf8(#[trigger] r[k].1),
        ) == Some(m[k].1) by {
            if k > 0 {
                assert(r[k] == rr[k - 1]);
                assert(m[k] == rm[k - 1]);
            }
        }
    }
}

/// A document that parses as an object has its members read by
/// `object_members_raw` too: the same keys in the same order, and each
/// member's source text parses on its own to the member's value.
pub proof fn lemma_raw_members_parse(text: Seq<char>)
    ensures
        parse_spec(encode_utf8(text)) matches Some(JsonModel::Object(m)) ==> {
            &&& raw_members_spec(encode_utf8(text)) matches Some(r)
            &&& r.len() == m.len()
            &&& forall|k: int|
                0 <= k < r.len() ==> r[k].0 == m[k].0 && parse_spec(encode_utf8(#[trigger] r[k].1))
                    == Some(m[k].1)
        },
{
    let s = encode_utf8(text);
    if let Some(JsonModel::Object(m)) = parse_spec(s) {
        let i = ws_end(s, 0);
        lemma_ws_end_bounds(s, 0);
        assert(s[i] == 0x7b);
        let p = ws_end(s, i + 1);
        if s[p] != 0x7d {
            lemma_raw_from(s, p);
        }
    }
}

} // verus!
