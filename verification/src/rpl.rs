//! Read and write REAPER RPL preset library files: a plain-text container
//! holding one base64 blob per preset.

use vstd::prelude::*;
use vstd::utf8::*;
use crate::text::{
    bytes_of, chars_at, chars_of, digits, message_with, push_all_chars, push_chars, push_digits,
    string_of,
};
use crate::xmlmerge::{scan_to, to_char};
use crate::{Error, Result};

verus! {

broadcast use vstd::utf8::group_utf8_lib;

/// REAPER wraps base64 at 128 characters per line.
pub const WRAP: usize = 128;

/// A preset library: its header and its presets.
pub struct Rpl {
    /// Everything after `<REAPER_PRESET_LIBRARY ` on the header line,
    /// e.g. `"VST3: Archetype John Mayer X (Neural DSP)"`.
    pub header: String,
    pub presets: Vec<Preset>,
}

/// One preset of a library: its name and its blob.
pub struct Preset {
    pub name: String,
    pub data: Vec<u8>,
}

/// The plain content of presets: names and blobs.
pub open spec fn presets_view(ps: Seq<Preset>) -> Seq<(Seq<char>, Seq<u8>)> {
    Seq::new(ps.len(), |i: int| (ps[i].name@, ps[i].data@))
}

// ---------------------------------------------------------------------------
// Base64, through the base64 crate
// ---------------------------------------------------------------------------

/// The standard base64 alphabet's symbol for a 6-bit value.
pub open spec fn b64_symbol(v: int) -> char {
    if v < 26 {
        (0x41 + v) as char
    } else if v < 52 {
        (0x61 + v - 26) as char
    } else if v < 62 {
        (0x30 + v - 52) as char
    } else if v == 62 {
        '+'
    } else {
        '/'
    }
}

/// RFC 4648 base64 of a byte sequence, with the standard alphabet and '='
/// padding: each group of three bytes becomes four symbols of six bits,
/// and a last group of one or two bytes is padded to four.
pub open spec fn b64_text(d: Seq<u8>) -> Seq<char>
    decreases d.len(),
{
    if d.len() == 0 {
        Seq::empty()
    } else if d.len() == 1 {
        let x = d[0] as int;
        seq![b64_symbol(x / 4), b64_symbol((x % 4) * 16), '=', '=']
    } else if d.len() == 2 {
        let x = d[0] as int;
        let y = d[1] as int;
        seq![b64_symbol(x / 4), b64_symbol((x % 4) * 16 + y / 16), b64_symbol((y % 16) * 4), '=']
    } else {
        let x = d[0] as int;
        let y = d[1] as int;
        let z = d[2] as int;
        seq![
            b64_symbol(x / 4),
            b64_symbol((x % 4) * 16 + y / 16),
            b64_symbol((y % 16) * 4 + z / 64),
            b64_symbol(z % 64),
        ] + b64_text(d.subrange(3, d.len() as int))
    }
}

/// Base64 text is made of alphabet symbols and padding.
pub proof fn lemma_b64_alphabet(d: Seq<u8>)
    ensures
        forall|i: int| 0 <= i < b64_text(d).len() ==> is_b64_char(#[trigger] b64_text(d)[i]),
    decreases d.len(),
{
    assert forall|v: int| 0 <= v < 64 implies is_b64_char(#[trigger] b64_symbol(v)) by {}
    if d.len() >= 3 {
        lemma_b64_alphabet(d.subrange(3, d.len() as int));
        let x = d[0] as int;
        let y = d[1] as int;
        let z = d[2] as int;
        assert(0 <= (x % 4) * 16 + y / 16 < 64);
        assert(0 <= (y % 16) * 4 + z / 64 < 64);
        let head = seq![
            b64_symbol(x / 4),
            b64_symbol((x % 4) * 16 + y / 16),
            b64_symbol((y % 16) * 4 + z / 64),
            b64_symbol(z % 64),
        ];
        let t = b64_text(d);
        assert forall|i: int| 0 <= i < t.len() implies is_b64_char(#[trigger] t[i]) by {
            if i >= 4 {
                assert(t[i] == b64_text(d.subrange(3, d.len() as int))[i - 4]);
            }
        }
    } else if d.len() == 2 {
        let x = d[0] as int;
        let y = d[1] as int;
        assert(0 <= (x % 4) * 16 + y / 16 < 64);
        assert(0 <= (y % 16) * 4 < 64);
    } else if d.len() == 1 {
        let x = d[0] as int;
        assert(0 <= (x % 4) * 16 < 64);
    }
}

/// Why base64's STANDARD engine refuses a text: the variants of its
/// `DecodeError`, with their offsets and bytes.
#[derive(Clone, Copy, Debug)]
pub enum Base64Failure {
    InvalidByte(usize, u8),
    InvalidLength(usize),
    InvalidLastSymbol(usize, u8),
    InvalidPadding,
}

/// What base64's STANDARD engine decodes a byte sequence to, or why it
/// refuses it.
pub uninterp spec fn b64_decoded(text: Seq<u8>) -> std::result::Result<Seq<u8>, Base64Failure>;

/// The engine decodes `text` to `d`.
pub open spec fn decodes_to(text: Seq<u8>, d: Seq<u8>) -> bool {
    b64_decoded(text) matches Ok(x) && x == d
}

/// The text `DecodeError`'s `Display` gives for a failure.
pub open spec fn failure_text(f: Base64Failure) -> Seq<char> {
    match f {
        Base64Failure::InvalidByte(i, b) => "Invalid symbol "@ + digits(b as nat) + ", offset "@
            + digits(i as nat) + "."@,
        Base64Failure::InvalidLength(n) => "Invalid input length: "@ + digits(n as nat),
        Base64Failure::InvalidLastSymbol(i, b) => "Invalid last symbol "@ + digits(b as nat)
            + ", offset "@ + digits(i as nat) + "."@,
        Base64Failure::InvalidPadding => "Invalid padding"@,
    }
}

/// The text of a base64 failure, as `DecodeError` displays it.
pub fn failure_message(f: Base64Failure) -> (r: Vec<char>)
    ensures
        r@ == failure_text(f),
{
    match f {
        Base64Failure::InvalidByte(i, b) => {
            let mut out = chars_of("Invalid symbol ");
            push_digits(&mut out, b as u64);
            let mid = chars_of(", offset ");
            push_all_chars(&mut out, &mid);
            push_digits(&mut out, i as u64);
            out.push('.');
            proof {
                reveal_strlit(".");
                assert("."@ =~= seq!['.']);
            }
            out
        },
        Base64Failure::InvalidLength(n) => {
            let mut out = chars_of("Invalid input length: ");
            push_digits(&mut out, n as u64);
            out
        },
        Base64Failure::InvalidLastSymbol(i, b) => {
            let mut out = chars_of("Invalid last symbol ");
            push_digits(&mut out, b as u64);
            let mid = chars_of(", offset ");
            push_all_chars(&mut out, &mid);
            push_digits(&mut out, i as u64);
            out.push('.');
            proof {
                reveal_strlit(".");
                assert("."@ =~= seq!['.']);
            }
            out
        },
        Base64Failure::InvalidPadding => chars_of("Invalid padding"),
    }
}

/// A character of the standard base64 alphabet, or the padding '='.
pub open spec fn is_b64_char(c: char) -> bool {
    ('A' <= c <= 'Z') || ('a' <= c <= 'z') || ('0' <= c <= '9') || c == '+' || c == '/' || c
        == '='
}

/// Encodes bytes with base64's STANDARD engine (`Engine::encode`): RFC 4648
/// base64 with the standard alphabet and canonical '=' padding, as
/// `b64_text` states it; as RFC 4648 encoding, decoding it with the same
/// engine gives the bytes back. The length limit keeps clear of the
/// overflow check that panics.
#[verifier::external_body]
fn b64_encode(data: &[u8]) -> (r: String)
    requires
        data@.len() <= usize::MAX / 2,
    ensures
        r@ == b64_text(data@),
        decodes_to(encode_utf8(r@), data@),
{
    base64::Engine::encode(&base64::engine::general_purpose::STANDARD, data)
}

/// Decodes base64 with base64's STANDARD engine (`Engine::decode`), which
/// requires canonical padding and no trailing bits; a refusal comes back as
/// the variant of its `DecodeError`, fields unchanged.
#[verifier::external_body]
fn b64_decode(text: &[u8]) -> (r: std::result::Result<Vec<u8>, Base64Failure>)
    ensures
        match b64_decoded(text@) {
            Ok(d) => r matches Ok(v) && v@ == d,
            Err(f) => r matches Err(g) && g == f,
        },
{
    match base64::Engine::decode(&base64::engine::general_purpose::STANDARD, text) {
        Ok(d) => Ok(d),
        Err(base64::DecodeError::InvalidByte(i, b)) => Err(Base64Failure::InvalidByte(i, b)),
        Err(base64::DecodeError::InvalidLength(n)) => Err(Base64Failure::InvalidLength(n)),
        Err(base64::DecodeError::InvalidLastSymbol(i, b)) => Err(
            Base64Failure::InvalidLastSymbol(i, b),
        ),
        Err(base64::DecodeError::InvalidPadding) => Err(Base64Failure::InvalidPadding),
    }
}

// ---------------------------------------------------------------------------
// Lines
// ---------------------------------------------------------------------------

/// Unicode White_Space, which `str::trim` removes.
pub open spec fn is_white(c: char) -> bool {
    ('\t' <= c <= '\r') || c == ' ' || c == '\u{85}' || c == '\u{a0}' || c == '\u{1680}' || (
    '\u{2000}' <= c <= '\u{200a}') || c == '\u{2028}' || c == '\u{2029}' || c == '\u{202f}' || c
        == '\u{205f}' || c == '\u{3000}'
}

/// The first index at or after `i` that is not white space, or the length.
pub open spec fn white_end(s: Seq<char>, i: int) -> int
    decreases s.len() - i,
{
    if i < 0 || i >= s.len() || !is_white(s[i]) {
        if i < 0 {
            0
        } else if i > s.len() {
            s.len() as int
        } else {
            i
        }
    } else {
        white_end(s, i + 1)
    }
}

/// The index just past the last character before `j` that is not white
/// space, or 0.
pub open spec fn white_start(s: Seq<char>, j: int) -> int
    decreases j,
{
    if j <= 0 || j > s.len() {
        0
    } else if !is_white(s[j - 1]) {
        j
    } else {
        white_start(s, j - 1)
    }
}

/// `s` without leading and trailing white space.
pub open spec fn trim(s: Seq<char>) -> Seq<char> {
    let a = white_end(s, 0);
    let b = white_start(s, s.len() as int);
    if a >= b {
        Seq::empty()
    } else {
        s.subrange(a, b)
    }
}

/// "<REAPER_PRESET_LIBRARY ".
pub open spec fn library_tag() -> Seq<char> {
    seq!['<', 'R', 'E', 'A', 'P', 'E', 'R', '_', 'P', 'R', 'E', 'S', 'E', 'T', '_', 'L', 'I', 'B', 'R', 'A', 'R', 'Y', ' ']
}

/// "<PRESET ".
pub open spec fn preset_tag() -> Seq<char> {
    seq!['<', 'P', 'R', 'E', 'S', 'E', 'T', ' ']
}

/// `s` starts with `p`.
pub open spec fn has_prefix(s: Seq<char>, p: Seq<char>) -> bool {
    p.len() <= s.len() && s.subrange(0, p.len() as int) == p
}

/// A quote character that may surround a preset name.
pub open spec fn is_quote(c: char) -> bool {
    c == '`' || c == '"' || c == '\''
}

/// The index of the first white-space character at or after `i`, or the
/// length.
pub open spec fn white_from(s: Seq<char>, i: int) -> int
    decreases s.len() - i,
{
    if i < 0 || i >= s.len() || is_white(s[i]) {
        if i < 0 {
            0
        } else if i > s.len() {
            s.len() as int
        } else {
            i
        }
    } else {
        white_from(s, i + 1)
    }
}

/// The preset name at the start of `rest`: quoted with any of the three
/// quote characters, or else the first word.
pub open spec fn quoted_name(rest: Seq<char>) -> Option<Seq<char>> {
    if rest.len() == 0 {
        None
    } else if !is_quote(rest[0]) {
        let a = white_end(rest, 0);
        if a >= rest.len() {
            Some(rest)
        } else {
            Some(rest.subrange(a, white_from(rest, a)))
        }
    } else {
        let body = rest.drop_first();
        let end = scan_to(body, 0, rest[0]);
        if end >= body.len() {
            None
        } else {
            Some(body.subrange(0, end))
        }
    }
}

/// What has been read so far: the header once seen, the finished presets,
/// and the open preset with its base64 text.
pub struct ReadState {
    pub header: Option<Seq<char>>,
    pub presets: Seq<(Seq<char>, Seq<u8>)>,
    pub current: Option<(Seq<char>, Seq<char>)>,
}

/// One trimmed line read in state `st`, or None for an error.
pub open spec fn read_line(st: ReadState, line: Seq<char>) -> Option<ReadState> {
    match st.header {
        None => if line.len() == 0 {
            Some(st)
        } else if has_prefix(line, library_tag()) {
            Some(
                ReadState {
                    header: Some(line.subrange(library_tag().len() as int, line.len() as int)),
                    ..st
                },
            )
        } else {
            None
        },
        Some(_) => if has_prefix(line, preset_tag()) {
            match quoted_name(line.subrange(preset_tag().len() as int, line.len() as int)) {
                Some(n) => Some(ReadState { current: Some((n, Seq::empty())), ..st }),
                None => None,
            }
        } else if line == seq!['>'] {
            match st.current {
                Some((n, b)) => match b64_decoded(encode_utf8(b)) {
                    Ok(d) => Some(
                        ReadState { presets: st.presets.push((n, d)), current: None, ..st },
                    ),
                    Err(_) => None,
                },
                None => Some(st),
            }
        } else {
            match st.current {
                Some((n, b)) => Some(ReadState { current: Some((n, b + line)), ..st }),
                None => Some(st),
            }
        },
    }
}

/// The lines of `t` from position `i` (a line start) on, read in state
/// `st`, then the header and presets.
pub open spec fn read_from(t: Seq<char>, i: int, st: ReadState) -> Option<(Seq<char>, Seq<(Seq<char>, Seq<u8>)>)>
    decreases t.len() - i,
{
    let e = scan_to(t, i, '\n');
    if i < 0 || i > t.len() || e < i || e > t.len() {
        None
    } else {
        match read_line(st, trim(t.subrange(i, e))) {
            None => None,
            Some(st2) => if e >= t.len() {
                match st2.header {
                    Some(h) => Some((h, st2.presets)),
                    None => None,
                }
            } else {
                read_from(t, e + 1, st2)
            },
        }
    }
}

/// The header and presets of a library text, or None when it is not one.
pub open spec fn parse_spec(t: Seq<char>) -> Option<(Seq<char>, Seq<(Seq<char>, Seq<u8>)>)> {
    read_from(t, 0, ReadState { header: None, presets: Seq::empty(), current: None })
}

/// The message for a preset name at the start of `rest` that cannot be
/// read.
pub open spec fn name_error(rest: Seq<char>) -> Seq<char> {
    if rest.len() == 0 {
        "preset entry has no name"@
    } else {
        "unterminated preset name: "@ + rest
    }
}

/// The message for a trimmed line that cannot be read in state `st`.
pub open spec fn line_error(st: ReadState, line: Seq<char>) -> Seq<char> {
    match st.header {
        None => "not a REAPER preset library (missing <REAPER_PRESET_LIBRARY header)"@,
        Some(_) => if has_prefix(line, preset_tag()) {
            name_error(line.subrange(preset_tag().len() as int, line.len() as int))
        } else {
            match st.current {
                Some((n, b)) => match b64_decoded(encode_utf8(b)) {
                    Err(f) => "invalid base64 in preset '"@ + n + "': "@ + failure_text(f),
                    Ok(_) => Seq::empty(),
                },
                None => Seq::empty(),
            }
        },
    }
}

/// The message for reading the lines of `t` from `i` on in state `st`,
/// where `read_from` finds no library.
pub open spec fn read_error_from(t: Seq<char>, i: int, st: ReadState) -> Seq<char>
    decreases t.len() - i,
{
    let e = scan_to(t, i, '\n');
    if i < 0 || i > t.len() || e < i || e > t.len() {
        Seq::empty()
    } else {
        match read_line(st, trim(t.subrange(i, e))) {
            None => line_error(st, trim(t.subrange(i, e))),
            Some(st2) => if e >= t.len() {
                "empty preset library file"@
            } else {
                read_error_from(t, e + 1, st2)
            },
        }
    }
}

/// The message `parse` gives where `parse_spec` finds no library.
pub open spec fn parse_error(t: Seq<char>) -> Seq<char> {
    read_error_from(t, 0, ReadState { header: None, presets: Seq::empty(), current: None })
}


// ---------------------------------------------------------------------------
// Reading
// ---------------------------------------------------------------------------

pub(crate) fn is_white_exec(c: char) -> (r: bool)
    ensures
        r == is_white(c),
{
    ('\t' <= c && c <= '\r') || c == ' ' || c == '\u{85}' || c == '\u{a0}' || c == '\u{1680}' || (
    '\u{2000}' <= c && c <= '\u{200a}') || c == '\u{2028}' || c == '\u{2029}' || c == '\u{202f}'
        || c == '\u{205f}' || c == '\u{3000}'
}

/// `s` without leading and trailing white space (`str::trim`).
pub(crate) fn trim_exec(s: &[char]) -> (r: Vec<char>)
    ensures
        r@ == trim(s@),
{
    let mut a: usize = 0;
    while a < s.len() && is_white_exec(s[a])
        invariant
            a <= s@.len(),
            white_end(s@, 0) == white_end(s@, a as int),
        decreases s@.len() - a,
    {
        a = a + 1;
    }
    let mut b: usize = s.len();
    while b > 0 && is_white_exec(s[b - 1])
        invariant
            b <= s@.len(),
            white_start(s@, s@.len() as int) == white_start(s@, b as int),
        decreases b,
    {
        b = b - 1;
    }
    if a >= b {
        Vec::new()
    } else {
        crate::text::char_range(s, a, b)
    }
}

fn white_from_exec(s: &[char], i: usize) -> (r: usize)
    requires
        i <= s@.len(),
    ensures
        r == white_from(s@, i as int),
        i <= r <= s@.len(),
{
    let mut j = i;
    while j < s.len() && !is_white_exec(s[j])
        invariant
            i <= j <= s@.len(),
            white_from(s@, i as int) == white_from(s@, j as int),
        decreases s@.len() - j,
    {
        j = j + 1;
    }
    j
}

fn white_end_exec(s: &[char], i: usize) -> (r: usize)
    requires
        i <= s@.len(),
    ensures
        r == white_end(s@, i as int),
        i <= r <= s@.len(),
{
    let mut j = i;
    while j < s.len() && is_white_exec(s[j])
        invariant
            i <= j <= s@.len(),
            white_end(s@, i as int) == white_end(s@, j as int),
        decreases s@.len() - j,
    {
        j = j + 1;
    }
    j
}

/// The preset name at the start of `rest`.
fn parse_quoted(rest: &[char]) -> (r: Result<Vec<char>>)
    ensures
        r is Ok <==> quoted_name(rest@) is Some,
        r matches Ok(n) ==> quoted_name(rest@) == Some(n@),
        r matches Err(e) ==> e.0@ == name_error(rest@),
{
    if rest.len() == 0 {
        return Err(Error("preset entry has no name".to_string()));
    }
    let quote = rest[0];
    if !(quote == '`' || quote == '"' || quote == '\'') {
        // Unquoted single-word name.
        let a = white_end_exec(rest, 0);
        if a >= rest.len() {
            return Ok(vstd::slice::slice_to_vec(rest));
        }
        let e = white_from_exec(rest, a);
        return Ok(crate::text::char_range(rest, a, e));
    }
    let body = vstd::slice::slice_subrange(rest, 1, rest.len());
    assert(body@ =~= rest@.drop_first());
    let end = to_char(body, 0, quote);
    if end >= body.len() {
        proof {
            reveal_strlit("");
            assert("unterminated preset name: "@ + rest@ + ""@ =~= "unterminated preset name: "@
                + rest@);
        }
        return Err(Error(message_with("unterminated preset name: ", rest, "")));
    }
    Ok(crate::text::char_range(body, 0, end))
}

/// What has been read so far.
struct Reading {
    header: Option<Vec<char>>,
    presets: Vec<Preset>,
    current: Option<(Vec<char>, Vec<char>)>,
}

impl View for Reading {
    type V = ReadState;

    closed spec fn view(&self) -> ReadState {
        ReadState {
            header: match self.header {
                Some(h) => Some(h@),
                None => None,
            },
            presets: presets_view(self.presets@),
            current: match self.current {
                Some((n, b)) => Some((n@, b@)),
                None => None,
            },
        }
    }
}

/// Reads one trimmed line.
fn read_line_exec(st: &mut Reading, line: &[char]) -> (r: Result<()>)
    ensures
        r is Ok <==> read_line(old(st)@, line@) is Some,
        r is Ok ==> read_line(old(st)@, line@) == Some(final(st)@),
        r matches Err(e) ==> e.0@ == line_error(old(st)@, line@),
{
    let lib: [char; 23] = [
        '<', 'R', 'E', 'A', 'P', 'E', 'R', '_', 'P', 'R', 'E', 'S', 'E', 'T', '_', 'L', 'I',
        'B', 'R', 'A', 'R', 'Y', ' ',
    ];
    let pre: [char; 8] = ['<', 'P', 'R', 'E', 'S', 'E', 'T', ' '];
    assert(lib@ == library_tag());
    assert(pre@ == preset_tag());
    if st.header.is_none() {
        if line.len() == 0 {
            return Ok(());
        }
        if chars_at(line, &lib, 0) {
            st.header = Some(crate::text::char_range(line, 23, line.len()));
            return Ok(());
        }
        return Err(
            Error(
                "not a REAPER preset library (missing <REAPER_PRESET_LIBRARY header)".to_string(),
            ),
        );
    }
    if chars_at(line, &pre, 0) {
        let rest = vstd::slice::slice_subrange(line, 8, line.len());
        let name = match parse_quoted(rest) {
            Ok(n) => n,
            Err(e) => {
                return Err(e);
            },
        };
        st.current = Some((name, Vec::new()));
        return Ok(());
    }
    if line.len() == 1 && line[0] == '>' {
        assert(line@ =~= seq!['>']);
        // Closes the current preset; the final ">" closing the library
        // arrives with no preset open and falls through.
        let cur = st.current.take();
        match cur {
            Some((name, b64)) => {
                let text = string_of(&b64);
                let bytes = bytes_of(text.as_str());
                match b64_decode(&bytes) {
                    Ok(data) => {
                        let ghost before = st.presets@;
                        let n = string_of(&name);
                        st.presets.push(Preset { name: n, data });
                        assert(presets_view(st.presets@) =~= presets_view(before).push(
                            (name@, data@),
                        ));
                        return Ok(());
                    },
                    Err(f) => {
                        let head = message_with("invalid base64 in preset '", &name, "': ");
                        let mut m = chars_of(head.as_str());
                        let detail = failure_message(f);
                        push_all_chars(&mut m, &detail);
                        return Err(Error(string_of(&m)));
                    },
                }
            },
            None => {
                return Ok(());
            },
        }
    }
    assert(line@ != seq!['>']);
    match &mut st.current {
        Some((_, b64)) => {
            push_all_chars(b64, line);
        },
        None => {},
    }
    Ok(())
}

/// Parse a preset library text.
pub fn parse(text: &str) -> (r: Result<Rpl>)
    ensures
        match parse_spec(text@) {
            Some((h, ps)) => r matches Ok(lib) && lib.header@ == h && presets_view(lib.presets@)
                == ps,
            None => r is Err,
        },
        r matches Err(e) ==> e.0@ == parse_error(text@),
{
    let t = chars_of(text);
    let mut st = Reading { header: None, presets: Vec::new(), current: None };
    assert(st@ == ReadState { header: None, presets: Seq::empty(), current: None }) by {
        assert(presets_view(st.presets@) =~= Seq::<(Seq<char>, Seq<u8>)>::empty());
    }
    let ghost want = parse_spec(text@);
    let mut i: usize = 0;
    loop
        invariant
            i <= t@.len(),
            t@ == text@,
            want == parse_spec(text@),
            want == read_from(t@, i as int, st@),
            parse_error(text@) == read_error_from(t@, i as int, st@),
        decreases t@.len() - i,
    {
        let e = to_char(&t, i, '\n');
        let line = trim_exec(vstd::slice::slice_subrange(t.as_slice(), i, e));
        match read_line_exec(&mut st, &line) {
            Ok(()) => {},
            Err(e) => {
                return Err(e);
            },
        }
        if e >= t.len() {
            match st.header {
                Some(h) => {
                    return Ok(Rpl { header: string_of(&h), presets: st.presets });
                },
                None => {
                    return Err(Error("empty preset library file".to_string()));
                },
            }
        }
        i = e + 1;
    }
}


// ---------------------------------------------------------------------------
// Writing
// ---------------------------------------------------------------------------

/// "\r\n".
pub open spec fn crlf() -> Seq<char> {
    seq!['\r', '\n']
}

/// `s` holds `c`.
pub open spec fn has_char(s: Seq<char>, c: char) -> bool {
    exists|i: int| 0 <= i < s.len() && s[i] == c
}

/// `s` with every `from` replaced by `to`.
pub open spec fn replace_char(s: Seq<char>, from: char, to: char) -> Seq<char> {
    Seq::new(s.len(), |i: int| if s[i] == from { to } else { s[i] })
}

/// A preset name between quotes: the first of '`', '"' and '\'' that the
/// name does not hold; a name holding all three gets backticks, its own
/// backticks turned into '\''.
pub open spec fn quote_name_spec(name: Seq<char>) -> Seq<char> {
    if !has_char(name, '`') {
        seq!['`'] + name + seq!['`']
    } else if !has_char(name, '"') {
        seq!['"'] + name + seq!['"']
    } else if !has_char(name, '\'') {
        seq!['\''] + name + seq!['\'']
    } else {
        seq!['`'] + replace_char(name, '`', '\'') + seq!['`']
    }
}

/// Base64 text cut into lines of at most `WRAP` characters, each indented
/// by four spaces and ended by CRLF.
pub open spec fn wrapped(b: Seq<char>) -> Seq<char>
    decreases b.len(),
{
    if b.len() == 0 {
        Seq::empty()
    } else {
        let end = if b.len() < WRAP { b.len() as int } else { WRAP as int };
        seq![' ', ' ', ' ', ' '] + b.subrange(0, end) + crlf() + wrapped(
            b.subrange(end, b.len() as int),
        )
    }
}

/// One preset as written.
pub open spec fn preset_text(name: Seq<char>, data: Seq<u8>) -> Seq<char> {
    seq![' ', ' '] + preset_tag() + quote_name_spec(name) + crlf() + wrapped(b64_text(data))
        + seq![' ', ' ', '>'] + crlf()
}

/// The presets as written, one after another.
pub open spec fn presets_text(ps: Seq<(Seq<char>, Seq<u8>)>) -> Seq<char>
    decreases ps.len(),
{
    if ps.len() == 0 {
        Seq::empty()
    } else {
        preset_text(ps[0].0, ps[0].1) + presets_text(ps.drop_first())
    }
}

/// A library as written, in REAPER's own formatting.
pub open spec fn write_spec(header: Seq<char>, ps: Seq<(Seq<char>, Seq<u8>)>) -> Seq<char> {
    library_tag() + header + crlf() + presets_text(ps) + seq!['>'] + crlf()
}

fn has_char_exec(s: &[char], c: char) -> (r: bool)
    ensures
        r == has_char(s@, c),
{
    let mut i: usize = 0;
    while i < s.len()
        invariant
            i <= s@.len(),
            forall|k: int| 0 <= k < i ==> s@[k] != c,
        decreases s@.len() - i,
    {
        if s[i] == c {
            return true;
        }
        i = i + 1;
    }
    false
}

/// A preset name between quotes.
fn quote_name(name: &[char]) -> (r: Vec<char>)
    ensures
        r@ == quote_name_spec(name@),
{
    let mut out: Vec<char> = Vec::new();
    let q = if !has_char_exec(name, '`') {
        '`'
    } else if !has_char_exec(name, '"') {
        '"'
    } else if !has_char_exec(name, '\'') {
        '\''
    } else {
        // Name uses all three quote characters; sacrifice backticks.
        out.push('`');
        let mut i: usize = 0;
        while i < name.len()
            invariant
                i <= name@.len(),
                out@ == seq!['`'] + replace_char(name@, '`', '\'').subrange(0, i as int),
            decreases name@.len() - i,
        {
            out.push(if name[i] == '`' { '\'' } else { name[i] });
            assert(replace_char(name@, '`', '\'').subrange(0, i + 1) =~= replace_char(
                name@,
                '`',
                '\'',
            ).subrange(0, i as int).push(if name@[i as int] == '`' { '\'' } else { name@[i as int] }));
            i = i + 1;
        }
        out.push('`');
        assert(replace_char(name@, '`', '\'').subrange(0, i as int) =~= replace_char(
            name@,
            '`',
            '\'',
        ));
        assert(out@ =~= quote_name_spec(name@));
        return out;
    };
    out.push(q);
    push_all_chars(&mut out, name);
    out.push(q);
    assert(out@ =~= quote_name_spec(name@));
    out
}

fn push_crlf(out: &mut Vec<char>)
    ensures
        final(out)@ == old(out)@ + crlf(),
{
    out.push('\r');
    out.push('\n');
    assert(final(out)@ =~= old(out)@ + crlf()) by {
        assert(out@ =~= old(out)@ + crlf());
    }
}

/// Serialize a library in REAPER's own formatting: CRLF line endings,
/// two-space indent for presets, four-space indent for base64 wrapped at
/// 128 characters.
pub fn write(header: &str, presets: &[Preset]) -> (r: String)
    requires
        forall|i: int| 0 <= i < presets@.len() ==> #[trigger] presets@[i].data@.len() <= usize::MAX / 2,
    ensures
        r@ == write_spec(header@, presets_view(presets@)),
        forall|i: int| 0 <= i < presets@.len() ==> encodes_back(#[trigger] presets@[i].data@),
{
    let lib: [char; 23] = [
        '<', 'R', 'E', 'A', 'P', 'E', 'R', '_', 'P', 'R', 'E', 'S', 'E', 'T', '_', 'L', 'I',
        'B', 'R', 'A', 'R', 'Y', ' ',
    ];
    let pre: [char; 10] = [' ', ' ', '<', 'P', 'R', 'E', 'S', 'E', 'T', ' '];
    assert(lib@ == library_tag());
    assert(pre@ == seq![' ', ' '] + preset_tag());
    let mut out: Vec<char> = Vec::new();
    push_all_chars(&mut out, &lib);
    let h = chars_of(header);
    push_all_chars(&mut out, &h);
    push_crlf(&mut out);
    let ghost ps = presets_view(presets@);
    let ghost head = out@;
    let mut k: usize = 0;
    assert(ps.subrange(0, ps.len() as int) =~= ps);
    assert(presets_text(Seq::<(Seq<char>, Seq<u8>)>::empty()) =~= Seq::<char>::empty());
    while k < presets.len()
        invariant
            k <= presets@.len(),
            ps == presets_view(presets@),
            pre@ == seq![' ', ' '] + preset_tag(),
            forall|i: int| 0 <= i < presets@.len() ==> #[trigger] presets@[i].data@.len() <= usize::MAX / 2,
            forall|i: int| 0 <= i < k ==> encodes_back(#[trigger] presets@[i].data@),
            out@ + presets_text(ps.subrange(k as int, ps.len() as int)) == head + presets_text(ps),
        decreases presets@.len() - k,
    {
        let ghost before = out@;
        let ghost rest = ps.subrange(k as int, ps.len() as int);
        assert(rest[0] == (presets@[k as int].name@, presets@[k as int].data@));
        assert(rest.drop_first() =~= ps.subrange(k + 1, ps.len() as int));
        let p = &presets[k];
        push_all_chars(&mut out, &pre);
        let name = chars_of(p.name.as_str());
        let quoted = quote_name(&name);
        push_all_chars(&mut out, &quoted);
        push_crlf(&mut out);
        let ghost mid = out@;
        assert(mid =~= before + (seq![' ', ' '] + preset_tag() + quote_name_spec(rest[0].0) + crlf()));
        let encoded = b64_encode(p.data.as_slice());
        proof {
            lemma_b64_alphabet(presets@[k as int].data@);
        }
        assert(encodes_back(presets@[k as int].data@));
        let b64 = chars_of(encoded.as_str());
        assert(b64@ == b64_text(rest[0].1));
        let mut i: usize = 0;
        assert(b64@.subrange(0, b64@.len() as int) =~= b64@);
        while i < b64.len()
            invariant
                i <= b64@.len(),
                out@ + wrapped(b64@.subrange(i as int, b64@.len() as int)) == mid + wrapped(b64@),
            decreases b64@.len() - i,
        {
            let end = if b64.len() - i < WRAP { b64.len() } else { i + WRAP };
            let ghost piece = out@;
            let ghost r = b64@.subrange(i as int, b64@.len() as int);
            out.push(' ');
            out.push(' ');
            out.push(' ');
            out.push(' ');
            push_chars(&mut out, &b64, i, end);
            push_crlf(&mut out);
            proof {
                assert(r.subrange(0, end - i) =~= b64@.subrange(i as int, end as int));
                assert(r.subrange(end - i, r.len() as int) =~= b64@.subrange(
                    end as int,
                    b64@.len() as int,
                ));
                assert(out@ + wrapped(b64@.subrange(end as int, b64@.len() as int)) =~= piece
                    + wrapped(r));
            }
            i = end;
        }
        assert(b64@.subrange(i as int, b64@.len() as int) =~= Seq::<char>::empty());
        assert(wrapped(Seq::<char>::empty()) =~= Seq::<char>::empty());
        assert(out@ =~= mid + wrapped(b64@));
        out.push(' ');
        out.push(' ');
        out.push('>');
        push_crlf(&mut out);
        assert(out@ =~= before + preset_text(rest[0].0, rest[0].1));
        k = k + 1;
    }
    assert(ps.subrange(k as int, ps.len() as int) =~= Seq::<(Seq<char>, Seq<u8>)>::empty());
    out.push('>');
    push_crlf(&mut out);
    assert(out@ =~= write_spec(header@, ps));
    string_of(&out)
}


// ---------------------------------------------------------------------------
// Reading back what was written
// ---------------------------------------------------------------------------

/// What the base64 encoder promises of the text it gives for `d`: made of
/// alphabet symbols, and decoding back to `d`.
pub open spec fn encodes_back(d: Seq<u8>) -> bool {
    &&& forall|i: int| 0 <= i < b64_text(d).len() ==> is_b64_char(#[trigger] b64_text(d)[i])
    &&& decodes_to(encode_utf8(b64_text(d)), d)
}

/// A header the reader gives back as written: on one line, not empty, and
/// not ending in white space.
pub open spec fn header_ok(h: Seq<char>) -> bool {
    &&& !has_char(h, '\n')
    &&& h.len() > 0
    &&& !is_white(h.last())
}

/// A preset the reader gives back as written: its name on one line and
/// free of one of the quote characters, and its blob encoded as the encoder
/// promises.
pub open spec fn preset_ok(p: (Seq<char>, Seq<u8>)) -> bool {
    &&& !has_char(p.0, '\n')
    &&& (!has_char(p.0, '`') || !has_char(p.0, '"') || !has_char(p.0, '\''))
    &&& encodes_back(p.1)
}

/// The text at `i` in `t` is `seg`.
pub open spec fn seg_at(t: Seq<char>, i: int, seg: Seq<char>) -> bool {
    0 <= i && i + seg.len() <= t.len() && t.subrange(i, i + seg.len()) == seg
}

proof fn lemma_seg_split(t: Seq<char>, i: int, a: Seq<char>, b: Seq<char>)
    requires
        seg_at(t, i, a + b),
    ensures
        seg_at(t, i, a),
        seg_at(t, i + a.len(), b),
{
    let w = t.subrange(i, i + a.len() + b.len());
    assert forall|k: int| 0 <= k < a.len() implies t.subrange(i, i + a.len())[k] == a[k] by {
        assert(t.subrange(i, i + a.len())[k] == t[i + k]);
        assert(w[k] == t[i + k]);
        assert((a + b)[k] == a[k]);
    }
    assert(t.subrange(i, i + a.len()) =~= a);
    assert forall|k: int| 0 <= k < b.len() implies t.subrange(i + a.len(), i + a.len() + b.len())[k]
        == b[k] by {
        assert(w[a.len() + k] == t[i + a.len() + k]);
        assert((a + b)[a.len() + k] == b[k]);
    }
    assert(t.subrange(i + a.len(), i + a.len() + b.len()) =~= b);
}

proof fn lemma_white_end_skip(s: Seq<char>, i: int, j: int)
    requires
        0 <= i <= j <= s.len(),
        forall|k: int| i <= k < j ==> is_white(s[k]),
        j < s.len() ==> !is_white(s[j]),
    ensures
        white_end(s, i) == j,
    decreases j - i,
{
    if i < j {
        lemma_white_end_skip(s, i + 1, j);
    }
}

proof fn lemma_white_start_skip(s: Seq<char>, j: int, k: int)
    requires
        0 < k <= j <= s.len(),
        forall|m: int| k <= m < j ==> is_white(s[m]),
        !is_white(s[k - 1]),
    ensures
        white_start(s, j) == k,
    decreases j - k,
{
    if k < j {
        lemma_white_start_skip(s, j - 1, k);
    }
}

/// Trimming white space around a core that starts and ends with something
/// else gives the core.
proof fn lemma_trim_core(a: Seq<char>, c: Seq<char>, b: Seq<char>)
    requires
        forall|k: int| 0 <= k < a.len() ==> is_white(#[trigger] a[k]),
        forall|k: int| 0 <= k < b.len() ==> is_white(#[trigger] b[k]),
        c.len() > 0,
        !is_white(c[0]),
        !is_white(c.last()),
    ensures
        trim(a + c + b) == c,
{
    let s = a + c + b;
    assert forall|k: int| 0 <= k < a.len() implies is_white(s[k]) by {
        assert(s[k] == a[k]);
    }
    assert(s[a.len() as int] == c[0]);
    lemma_white_end_skip(s, 0, a.len() as int);
    let e: int = (a.len() + c.len()) as int;
    assert forall|m: int| e <= m < s.len() implies is_white(s[m]) by {
        assert(s[m] == b[m - e]);
    }
    assert(s[e - 1] == c.last());
    lemma_white_start_skip(s, s.len() as int, e);
    assert(s.subrange(a.len() as int, e) =~= c);
}

/// One line of `t` at `i`: read, then the text after it.
proof fn lemma_line(t: Seq<char>, i: int, line: Seq<char>, st: ReadState)
    requires
        seg_at(t, i, line.push('\n')),
        !has_char(line, '\n'),
    ensures
        read_from(t, i, st) == match read_line(st, trim(line)) {
            None => None,
            Some(st2) => read_from(t, i + line.len() + 1, st2),
        },
{
    let e = i + line.len();
    assert(t[e] == line.push('\n')[line.len() as int]);
    assert forall|k: int| i <= k < e implies t[k] != '\n' by {
        assert(t[k] == line.push('\n')[k - i]);
        assert(line[k - i] != '\n');
    }
    crate::xmlread::lemma_scan_to_down(t, i, e, '\n');
    assert(t.subrange(i, e) =~= line);
}

proof fn lemma_no_newline_concat(a: Seq<char>, b: Seq<char>)
    requires
        !has_char(a, '\n'),
        !has_char(b, '\n'),
    ensures
        !has_char(a + b, '\n'),
{
    if has_char(a + b, '\n') {
        let k = choose|k: int| 0 <= k < (a + b).len() && (a + b)[k] == '\n';
        if k < a.len() {
            assert(a[k] == '\n');
        } else {
            assert(b[k - a.len()] == '\n');
        }
    }
}

/// The base64 lines of a preset: each adds its text to the open preset's.
proof fn lemma_wrapped_read(t: Seq<char>, i: int, b: Seq<char>, st: ReadState, n: Seq<char>, acc: Seq<char>)
    requires
        seg_at(t, i, wrapped(b)),
        forall|k: int| 0 <= k < b.len() ==> is_b64_char(#[trigger] b[k]),
        st.header is Some,
        st.current == Some((n, acc)),
    ensures
        read_from(t, i, st) == read_from(
            t,
            i + wrapped(b).len(),
            ReadState { current: Some((n, acc + b)), ..st },
        ),
    decreases b.len(),
{
    if b.len() == 0 {
        assert(acc + b =~= acc);
    } else {
        let end = if b.len() < WRAP { b.len() as int } else { WRAP as int };
        let chunk = b.subrange(0, end);
        let rest = b.subrange(end, b.len() as int);
        let line = seq![' ', ' ', ' ', ' '] + chunk + seq!['\r'];
        assert(wrapped(b) == line.push('\n') + wrapped(rest)) by {
            assert(seq![' ', ' ', ' ', ' '] + chunk + crlf() =~= line.push('\n'));
        }
        lemma_seg_split(t, i, line.push('\n'), wrapped(rest));
        assert(!has_char(line, '\n')) by {
            if has_char(line, '\n') {
                let k = choose|k: int| 0 <= k < line.len() && line[k] == '\n';
                if 4 <= k < 4 + chunk.len() {
                    assert(line[k] == chunk[k - 4]);
                    assert(is_b64_char(b[k - 4]));
                }
            }
        }
        lemma_line(t, i, line, st);
        assert(is_b64_char(chunk[0]) && is_b64_char(chunk.last())) by {
            assert(chunk[0] == b[0]);
            assert(chunk.last() == b[end - 1]);
        }
        let sp4 = seq![' ', ' ', ' ', ' '];
        let cr = seq!['\r'];
        assert forall|k: int| 0 <= k < sp4.len() implies is_white(#[trigger] sp4[k]) by {}
        assert forall|k: int| 0 <= k < cr.len() implies is_white(#[trigger] cr[k]) by {}
        lemma_trim_core(sp4, chunk, cr);
        assert(!has_prefix(chunk, preset_tag())) by {
            if has_prefix(chunk, preset_tag()) {
                assert(chunk[0] == chunk.subrange(0, 8)[0]);
            }
        }
        assert(chunk != seq!['>']) by {
            if chunk == seq!['>'] {
                assert(chunk[0] == '>');
            }
        }
        let st2 = ReadState { current: Some((n, acc + chunk)), ..st };
        assert(read_line(st, chunk) == Some(st2));
        assert forall|k: int| 0 <= k < rest.len() implies is_b64_char(#[trigger] rest[k]) by {
            assert(rest[k] == b[k + end]);
        }
        lemma_wrapped_read(t, i + line.len() + 1, rest, st2, n, acc + chunk);
        assert(acc + chunk + rest =~= acc + b);
    }
}

/// A written preset reads back as itself.
proof fn lemma_preset_read(t: Seq<char>, i: int, p: (Seq<char>, Seq<u8>), st: ReadState)
    requires
        seg_at(t, i, preset_text(p.0, p.1)),
        preset_ok(p),
        st.header is Some,
    ensures
        read_from(t, i, st) == read_from(
            t,
            i + preset_text(p.0, p.1).len(),
            ReadState { presets: st.presets.push(p), current: None, ..st },
        ),
{
    let (name, data) = p;
    let q = quote_name_spec(name);
    let b = b64_text(data);
    let l1 = seq![' ', ' '] + (preset_tag() + q) + seq!['\r'];
    let l3 = seq![' ', ' '] + seq!['>'] + seq!['\r'];
    assert(preset_text(name, data) == l1.push('\n') + wrapped(b) + l3.push('\n')) by {
        assert(preset_text(name, data) =~= l1.push('\n') + wrapped(b) + l3.push('\n'));
    }
    lemma_seg_split(t, i, l1.push('\n') + wrapped(b), l3.push('\n'));
    lemma_seg_split(t, i, l1.push('\n'), wrapped(b));
    // the name line
    let qc: char = if !has_char(name, '`') {
        '`'
    } else if !has_char(name, '"') {
        '"'
    } else {
        '\''
    };
    assert(q == seq![qc] + name + seq![qc]);
    assert(!has_char(name, qc));
    assert(!has_char(l1, '\n')) by {
        if has_char(l1, '\n') {
            let k = choose|k: int| 0 <= k < l1.len() && l1[k] == '\n';
            if 11 <= k < 11 + name.len() {
                assert(l1[k] == name[k - 11]);
            }
        }
    }
    lemma_line(t, i, l1, st);
    let sp2 = seq![' ', ' '];
    let cr = seq!['\r'];
    assert forall|k: int| 0 <= k < sp2.len() implies is_white(#[trigger] sp2[k]) by {}
    assert forall|k: int| 0 <= k < cr.len() implies is_white(#[trigger] cr[k]) by {}
    lemma_trim_core(sp2, preset_tag() + q, cr);
    assert((preset_tag() + q).subrange(0, 8) =~= preset_tag());
    let rest = (preset_tag() + q).subrange(8, (preset_tag() + q).len() as int);
    assert(rest =~= q);
    assert(q.drop_first() =~= name + seq![qc]);
    crate::xmlread::lemma_scan_to_concat(name, seq![qc], 0, qc);
    assert(scan_to(seq![qc], 0, qc) == 0);
    assert((name + seq![qc]).subrange(0, name.len() as int) =~= name);
    assert(quoted_name(rest) == Some(name));
    let st1 = ReadState { current: Some((name, Seq::<char>::empty())), ..st };
    assert(read_line(st, preset_tag() + q) == Some(st1));
    // the base64 lines
    let i2 = i + l1.len() + 1;
    lemma_wrapped_read(t, i2, b, st1, name, Seq::empty());
    assert(Seq::<char>::empty() + b =~= b);
    // the closing line
    let i3 = i2 + wrapped(b).len();
    assert(!has_char(l3, '\n')) by {
        if has_char(l3, '\n') {
            let k = choose|k: int| 0 <= k < l3.len() && l3[k] == '\n';
        }
    }
    let st2 = ReadState { current: Some((name, b)), ..st };
    lemma_line(t, i3, l3, st2);
    lemma_trim_core(seq![' ', ' '], seq!['>'], seq!['\r']);
    assert(!has_prefix(seq!['>'], preset_tag()));
    assert(read_line(st2, seq!['>']) == Some(
        ReadState { presets: st.presets.push(p), current: None, ..st },
    ));
}

/// Written presets read back as themselves, one after another.
proof fn lemma_presets_read(t: Seq<char>, i: int, ps: Seq<(Seq<char>, Seq<u8>)>, st: ReadState)
    requires
        seg_at(t, i, presets_text(ps)),
        forall|k: int| 0 <= k < ps.len() ==> preset_ok(#[trigger] ps[k]),
        st.header is Some,
        st.current is None,
    ensures
        read_from(t, i, st) == read_from(
            t,
            i + presets_text(ps).len(),
            ReadState { presets: st.presets + ps, ..st },
        ),
    decreases ps.len(),
{
    if ps.len() == 0 {
        assert(st.presets + ps =~= st.presets);
    } else {
        let first = preset_text(ps[0].0, ps[0].1);
        lemma_seg_split(t, i, first, presets_text(ps.drop_first()));
        assert(preset_ok(ps[0]));
        lemma_preset_read(t, i, ps[0], st);
        let st1 = ReadState { presets: st.presets.push(ps[0]), current: None, ..st };
        assert forall|k: int| 0 <= k < ps.drop_first().len() implies preset_ok(
            #[trigger] ps.drop_first()[k],
        ) by {
            assert(ps.drop_first()[k] == ps[k + 1]);
        }
        lemma_presets_read(t, i + first.len(), ps.drop_first(), st1);
        assert(st.presets.push(ps[0]) + ps.drop_first() =~= st.presets + ps);
    }
}

/// The header line of a written library.
proof fn lemma_header_line(t: Seq<char>, h: Seq<char>)
    requires
        header_ok(h),
        seg_at(t, 0, (library_tag() + h + seq!['\r']).push('\n')),
    ensures
        read_from(t, 0, ReadState { header: None, presets: Seq::empty(), current: None })
            == read_from(
            t,
            (library_tag().len() + h.len() + 2) as int,
            ReadState { header: Some(h), presets: Seq::empty(), current: None },
        ),
{
    let l0 = library_tag() + h + seq!['\r'];
    assert(!has_char(library_tag(), '\n')) by {
        if has_char(library_tag(), '\n') {
            let k = choose|k: int| 0 <= k < library_tag().len() && library_tag()[k] == '\n';
        }
    }
    assert(!has_char(seq!['\r'], '\n')) by {
        if has_char(seq!['\r'], '\n') {
            let k = choose|k: int| 0 <= k < 1 && seq!['\r'][k] == '\n';
        }
    }
    lemma_no_newline_concat(library_tag(), h);
    lemma_no_newline_concat(library_tag() + h, seq!['\r']);
    let st0 = ReadState { header: None, presets: Seq::empty(), current: None };
    lemma_line(t, 0, l0, st0);
    let nothing = Seq::<char>::empty();
    let cr = seq!['\r'];
    assert forall|k: int| 0 <= k < nothing.len() implies is_white(#[trigger] nothing[k]) by {}
    assert forall|k: int| 0 <= k < cr.len() implies is_white(#[trigger] cr[k]) by {}
    assert((library_tag() + h).last() == h.last());
    assert((library_tag() + h)[0] == '<');
    lemma_trim_core(nothing, library_tag() + h, cr);
    assert(nothing + (library_tag() + h) + cr =~= l0);
    assert((library_tag() + h).subrange(0, 23) =~= library_tag());
    assert((library_tag() + h).subrange(23, (library_tag() + h).len() as int) =~= h);
}

/// The closing line of a written library, and the empty end after it.
proof fn lemma_closing_line(t: Seq<char>, i: int, st: ReadState, h: Seq<char>)
    requires
        seg_at(t, i, seq!['>', '\r', '\n']),
        i + 3 == t.len(),
        st.header == Some(h),
        st.current is None,
    ensures
        read_from(t, i, st) == Some((h, st.presets)),
{
    let lz = seq!['>', '\r'];
    assert(lz.push('\n') =~= seq!['>', '\r', '\n']);
    assert(!has_char(lz, '\n')) by {
        if has_char(lz, '\n') {
            let k = choose|k: int| 0 <= k < lz.len() && lz[k] == '\n';
        }
    }
    lemma_line(t, i, lz, st);
    let nothing = Seq::<char>::empty();
    let cr = seq!['\r'];
    assert forall|k: int| 0 <= k < nothing.len() implies is_white(#[trigger] nothing[k]) by {}
    assert forall|k: int| 0 <= k < cr.len() implies is_white(#[trigger] cr[k]) by {}
    lemma_trim_core(nothing, seq!['>'], cr);
    assert(nothing + seq!['>'] + cr =~= lz);
    assert(!has_prefix(seq!['>'], preset_tag()));
    assert(read_line(st, seq!['>']) == Some(st));
    let i3 = i + 3;
    assert(scan_to(t, i3, '\n') == t.len());
    assert(t.subrange(i3, i3) =~= Seq::<char>::empty());
    assert(white_end(Seq::<char>::empty(), 0) == 0);
    assert(trim(Seq::<char>::empty()) =~= Seq::<char>::empty());
    assert(!has_prefix(Seq::<char>::empty(), preset_tag()));
    assert(Seq::<char>::empty() != seq!['>']) by {
        assert(seq!['>'].len() == 1);
    }
    assert(read_line(st, Seq::empty()) == Some(st));
}

/// Reading a written library gives back its header and presets, for a
/// header on one line that neither is empty nor ends in white space, and
/// presets whose names are on one line and avoid one of the quote
/// characters (the writer gives every blob's text as the encoder
/// promises).
pub proof fn lemma_write_then_parse(h: Seq<char>, ps: Seq<(Seq<char>, Seq<u8>)>)
    requires
        header_ok(h),
        forall|k: int| 0 <= k < ps.len() ==> preset_ok(#[trigger] ps[k]),
    ensures
        parse_spec(write_spec(h, ps)) == Some((h, ps)),
{
    let t = write_spec(h, ps);
    let l0 = (library_tag() + h + seq!['\r']).push('\n');
    let lz = seq!['>', '\r', '\n'];
    assert(t =~= l0 + presets_text(ps) + lz);
    assert(t.subrange(0, t.len() as int) =~= t);
    assert(seg_at(t, 0, l0 + presets_text(ps) + lz));
    lemma_seg_split(t, 0, l0 + presets_text(ps), lz);
    lemma_seg_split(t, 0, l0, presets_text(ps));
    lemma_header_line(t, h);
    let i1 = l0.len() as int;
    let st1 = ReadState { header: Some(h), presets: Seq::empty(), current: None };
    lemma_presets_read(t, i1, ps, st1);
    assert(Seq::<(Seq<char>, Seq<u8>)>::empty() + ps =~= ps);
    let st2 = ReadState { header: Some(h), presets: ps, current: None };
    lemma_closing_line(t, i1 + presets_text(ps).len(), st2, h);
}

/// Reading a library the writer produced and writing what was read gives
/// the same text, under the conditions of `lemma_write_then_parse`.
pub proof fn lemma_parse_then_write(h: Seq<char>, ps: Seq<(Seq<char>, Seq<u8>)>)
    requires
        header_ok(h),
        forall|k: int| 0 <= k < ps.len() ==> preset_ok(#[trigger] ps[k]),
    ensures
        parse_spec(write_spec(h, ps)) matches Some((h2, ps2)) && write_spec(h2, ps2) == write_spec(
            h,
            ps,
        ),
{
    lemma_write_then_parse(h, ps);
}


/// `white_start` stays within `0..=j` and stops just past a character that
/// is not white space.
proof fn lemma_white_start_props(s: Seq<char>, j: int)
    requires
        0 <= j <= s.len(),
    ensures
        0 <= white_start(s, j) <= j,
        white_start(s, j) > 0 ==> !is_white(s[white_start(s, j) - 1]),
    decreases j,
{
    if j > 0 && is_white(s[j - 1]) {
        lemma_white_start_props(s, j - 1);
    }
}

/// `white_end` stays within `i..=len`.
proof fn lemma_white_end_props(s: Seq<char>, i: int)
    requires
        0 <= i <= s.len(),
    ensures
        i <= white_end(s, i) <= s.len(),
    decreases s.len() - i,
{
    if i < s.len() && is_white(s[i]) {
        lemma_white_end_props(s, i + 1);
    }
}

/// Trimmed text is a stretch of the text, and does not end in white space.
proof fn lemma_trim_props(s: Seq<char>)
    ensures
        forall|c: char| has_char(trim(s), c) ==> has_char(s, c),
        trim(s).len() > 0 ==> !is_white(trim(s).last()),
{
    lemma_white_end_props(s, 0);
    lemma_white_start_props(s, s.len() as int);
    let a = white_end(s, 0);
    let b = white_start(s, s.len() as int);
    assert forall|c: char| has_char(trim(s), c) implies has_char(s, c) by {
        let k = choose|k: int| 0 <= k < trim(s).len() && trim(s)[k] == c;
        assert(s[a + k] == c);
    }
}

/// A header read from a library is on one line, not empty, and does not
/// end in white space.
proof fn lemma_read_header_ok(t: Seq<char>, i: int, st: ReadState)
    requires
        st.header matches Some(h) ==> header_ok(h),
    ensures
        read_from(t, i, st) matches Some((h, _)) ==> header_ok(h),
    decreases t.len() - i,
{
    let e = scan_to(t, i, '\n');
    if 0 <= i <= t.len() {
        crate::xmlread::lemma_scan_to_bounds(t, i, '\n');
    }
    if 0 <= i <= t.len() && i <= e <= t.len() {
        let x = t.subrange(i, e);
        let line = trim(x);
        lemma_trim_props(x);
        assert(!has_char(x, '\n'));
        assert(!has_char(line, '\n'));
        if let Some(st2) = read_line(st, line) {
            if st.header is None && line.len() > 0 {
                let tag = library_tag();
                let h = line.subrange(tag.len() as int, line.len() as int);
                assert(line.len() > tag.len()) by {
                    if line.len() == tag.len() {
                        assert(line.last() == line.subrange(0, tag.len() as int)[tag.len() - 1]);
                    }
                }
                assert(h.last() == line.last());
                assert(!has_char(h, '\n')) by {
                    if has_char(h, '\n') {
                        let k = choose|k: int| 0 <= k < h.len() && h[k] == '\n';
                        assert(line[tag.len() + k] == '\n');
                    }
                }
            }
            if e < t.len() {
                lemma_read_header_ok(t, e + 1, st2);
            }
        }
    }
}

/// The header of a library that reads is on one line, not empty, and does
/// not end in white space, so writing it back reads back.
pub proof fn lemma_parsed_header_ok(t: Seq<char>)
    ensures
        parse_spec(t) matches Some((h, _)) ==> header_ok(h),
{
    lemma_read_header_ok(t, 0, ReadState { header: None, presets: Seq::empty(), current: None });
}

} // verus!
