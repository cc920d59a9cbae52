//! Read JUCE-style XML text into the same Node shape the binary ValueTree
//! parser produces, so both vendor preset formats feed one merge path.
//! Attribute values become Value::Str; element text content is ignored
//! (JUCE presets are attribute-based). Deliberately a scanner for
//! machine-generated XML, like xmlmerge, not a general XML parser.

use vstd::prelude::*;
use vstd::utf8::*;
use crate::text::{
    char_from_u32, chars_at, chars_eq, chars_of, find_chars, first_occurrence, message_with,
    occurs_at, push_chars, string_of,
};
use crate::valuetree::{lemma_children_view, nodes_view, Node, NodeModel, Value, ValueModel};
use crate::xmlmerge::{
    attr_end, escape, escape_char, name_end, past_ws, scan_attr_end, scan_name_end, scan_to, skip_ws,
    to_char,
};
use crate::{err, Error, Result};

verus! {

broadcast use vstd::utf8::group_utf8_lib;

// ---------------------------------------------------------------------------
// Entities
// ---------------------------------------------------------------------------

/// The value of a digit character in the given radix (ASCII digits, then
/// letters of either case).
pub open spec fn digit_in(c: char, radix: nat) -> Option<nat> {
    let v: int = if '0' <= c <= '9' {
        c as int - '0' as int
    } else if 'a' <= c <= 'z' {
        c as int - 'a' as int + 10
    } else if 'A' <= c <= 'Z' {
        c as int - 'A' as int + 10
    } else {
        radix as int
    };
    if 0 <= v < radix {
        Some(v as nat)
    } else {
        None
    }
}

/// The value of a run of digits in the given radix (0 for no digits).
pub open spec fn radix_value(s: Seq<char>, radix: nat) -> Option<nat>
    decreases s.len(),
{
    if s.len() == 0 {
        Some(0)
    } else {
        match (radix_value(s.drop_last(), radix), digit_in(s.last(), radix)) {
            (Some(v), Some(d)) => Some(v * radix + d),
            _ => None,
        }
    }
}

/// What `u32::from_str_radix` gives: an optional '+', then at least one
/// digit, for a value that fits in 32 bits.
pub open spec fn parse_u32_spec(s: Seq<char>, radix: nat) -> Option<nat> {
    let digits = if s.len() > 0 && s[0] == '+' {
        s.drop_first()
    } else {
        s
    };
    if digits.len() == 0 {
        None
    } else {
        match radix_value(digits, radix) {
            Some(v) => if v < 0x1_0000_0000 {
                Some(v)
            } else {
                None
            },
            None => None,
        }
    }
}

/// The code point of a numeric character reference's body: `#x` or `#X`
/// then hex digits, else `#` then decimal digits.
pub open spec fn numeric_ref(ent: Seq<char>) -> Option<nat> {
    let hex = if ent.len() >= 2 && ent[0] == '#' && (ent[1] == 'x' || ent[1] == 'X') {
        parse_u32_spec(ent.subrange(2, ent.len() as int), 16)
    } else {
        None
    };
    if hex is Some {
        hex
    } else if ent.len() >= 1 && ent[0] == '#' {
        parse_u32_spec(ent.drop_first(), 10)
    } else {
        None
    }
}

/// The character an entity body stands for, if it is a known one.
pub open spec fn entity_char(ent: Seq<char>) -> Option<char> {
    if ent == seq!['a', 'm', 'p'] {
        Some('&')
    } else if ent == seq!['l', 't'] {
        Some('<')
    } else if ent == seq!['g', 't'] {
        Some('>')
    } else if ent == seq!['q', 'u', 'o', 't'] {
        Some('"')
    } else if ent == seq!['a', 'p', 'o', 's'] {
        Some('\'')
    } else {
        match numeric_ref(ent) {
            Some(v) => if is_scalar(v as u32) {
                Some((v as u32) as char)
            } else {
                None
            },
            None => None,
        }
    }
}

/// What an entity `raw` (from '&' to ';') with body `ent` becomes: its
/// character, or itself verbatim when unknown.
pub open spec fn entity_out(ent: Seq<char>, raw: Seq<char>) -> Seq<char> {
    match entity_char(ent) {
        Some(c) => seq![c],
        None => raw,
    }
}

/// Attribute text with its entities replaced; a stray '&' with no ';'
/// after it keeps the rest verbatim.
pub open spec fn unescape(s: Seq<char>) -> Seq<char>
    decreases s.len(),
{
    let a = scan_to(s, 0, '&');
    if a < 0 || a >= s.len() {
        s
    } else {
        let e = scan_to(s, a, ';');
        if e < a || e >= s.len() {
            s
        } else {
            s.subrange(0, a) + entity_out(s.subrange(a + 1, e), s.subrange(a, e + 1)) + unescape(
                s.subrange(e + 1, s.len() as int),
            )
        }
    }
}

pub proof fn lemma_scan_to_bounds(t: Seq<char>, i: int, c: char)
    requires
        0 <= i,
    ensures
        i <= scan_to(t, i, c) || (i > t.len() && scan_to(t, i, c) == t.len()),
        scan_to(t, i, c) <= t.len() || i > t.len(),
        scan_to(t, i, c) < t.len() ==> t[scan_to(t, i, c)] == c,
        forall|k: int| i <= k < scan_to(t, i, c) ==> t[k] != c,
    decreases t.len() - i,
{
    if i < t.len() && t[i] != c {
        lemma_scan_to_bounds(t, i + 1, c);
    }
}

/// Scanning a suffix is scanning the whole from the suffix's start.
proof fn lemma_scan_to_suffix(t: Seq<char>, i: int, j: int, c: char)
    requires
        0 <= i <= t.len(),
        0 <= j <= t.len() - i,
    ensures
        scan_to(t.subrange(i, t.len() as int), j, c) == scan_to(t, i + j, c) - i,
    decreases t.len() - i - j,
{
    if j < t.len() - i && t[i + j] != c {
        lemma_scan_to_suffix(t, i, j + 1, c);
    }
}

/// Scanning past a stretch free of `c`.
pub proof fn lemma_scan_to_concat(x: Seq<char>, y: Seq<char>, i: int, c: char)
    requires
        0 <= i <= x.len(),
        forall|k: int| 0 <= k < x.len() ==> x[k] != c,
    ensures
        scan_to(x + y, i, c) == x.len() + scan_to(y, 0, c),
    decreases x.len() + y.len() - i,
{
    if i < x.len() {
        assert((x + y)[i] == x[i]);
        lemma_scan_to_concat(x, y, i + 1, c);
    } else {
        assert((x + y).subrange(x.len() as int, (x + y).len() as int) =~= y);
        lemma_scan_to_suffix(x + y, x.len() as int, 0, c);
    }
}

/// Text free of '&' is kept as it stands before the rest.
#[verifier::rlimit(40)]
proof fn lemma_unescape_plain(x: Seq<char>, y: Seq<char>)
    requires
        forall|k: int| 0 <= k < x.len() ==> x[k] != '&',
    ensures
        unescape(x + y) == x + unescape(y),
{
    let z = x + y;
    lemma_scan_to_concat(x, y, 0, '&');
    lemma_scan_to_bounds(y, 0, '&');
    let ay = scan_to(y, 0, '&');
    if ay >= y.len() {
        assert(z =~= x + y);
    } else {
        let a = x.len() + ay;
        assert(z[a] == y[ay]);
        lemma_scan_to_bounds(y, ay, ';');
        assert(z.subrange(x.len() as int, z.len() as int) =~= y);
        lemma_scan_to_suffix(z, x.len() as int, ay, ';');
        let ey = scan_to(y, ay, ';');
        if ey >= y.len() {
        } else {
            let e = x.len() + ey;
            assert(z.subrange(0, a) =~= x + y.subrange(0, ay));
            assert(z.subrange(a + 1, e) =~= y.subrange(ay + 1, ey));
            assert(z.subrange(a, e + 1) =~= y.subrange(ay, ey + 1));
            assert(z.subrange(e + 1, z.len() as int) =~= y.subrange(ey + 1, y.len() as int));
            assert(unescape(z) =~= x + unescape(y));
        }
    }
}

/// An escaped special character reads back as itself before the rest.
proof fn lemma_unescape_entity(c: char, y: Seq<char>)
    requires
        c == '&' || c == '<' || c == '>' || c == '"',
    ensures
        unescape(escape_char(c) + y) == seq![c] + unescape(y),
{
    let ent = escape_char(c);
    let z = ent + y;
    let n = ent.len() as int;
    assert(z[0] == '&');
    assert(scan_to(z, 0, '&') == 0);
    assert forall|k: int| 0 <= k < n - 1 implies z[k] != ';' by {
        assert(z[k] == ent[k]);
    }
    assert(z[n - 1] == ';');
    assert(scan_to(z, n - 1, ';') == n - 1);
    assert forall|k: int| 0 <= k <= n - 1 implies #[trigger] scan_to(z, k, ';') == n - 1 by {
        lemma_scan_to_down(z, k, n - 1, ';');
    }
    assert(z.subrange(1, n - 1) =~= ent.subrange(1, n - 1));
    assert(z.subrange(n, z.len() as int) =~= y);
    if c == '&' {
        assert(ent.subrange(1, n - 1) =~= seq!['a', 'm', 'p']);
    } else if c == '<' {
        assert(ent.subrange(1, n - 1) =~= seq!['l', 't']);
    } else if c == '>' {
        assert(ent.subrange(1, n - 1) =~= seq!['g', 't']);
    } else {
        assert(ent.subrange(1, n - 1) =~= seq!['q', 'u', 'o', 't']);
    }
    assert(z.subrange(0, 0) =~= Seq::<char>::empty());
    assert(unescape(z) =~= seq![c] + unescape(y));
}

pub proof fn lemma_scan_to_down(t: Seq<char>, k: int, e: int, c: char)
    requires
        0 <= k <= e < t.len(),
        t[e] == c,
        forall|m: int| k <= m < e ==> t[m] != c,
    ensures
        scan_to(t, k, c) == e,
    decreases e - k,
{
    if k < e {
        lemma_scan_to_down(t, k + 1, e, c);
    }
}

/// Unescaping an escaped attribute value gives back the value.
pub proof fn lemma_unescape_escape(s: Seq<char>)
    ensures
        unescape(escape(s)) == s,
    decreases s.len(),
{
    if s.len() == 0 {
        assert(escape(s) =~= Seq::<char>::empty());
        assert(scan_to(Seq::<char>::empty(), 0, '&') == 0);
    } else {
        let c = s[0];
        lemma_unescape_escape(s.drop_first());
        if c == '&' || c == '<' || c == '>' || c == '"' {
            lemma_unescape_entity(c, escape(s.drop_first()));
        } else {
            lemma_unescape_plain(seq![c], escape(s.drop_first()));
        }
        assert(seq![c] + s.drop_first() =~= s);
    }
}


// ---------------------------------------------------------------------------
// Unescaping, executable
// ---------------------------------------------------------------------------

/// The value of a digit character in the given radix.
fn digit_of(c: char, radix: u32) -> (r: Option<u32>)
    requires
        2 <= radix <= 36,
    ensures
        r matches Some(d) ==> digit_in(c, radix as nat) == Some(d as nat),
        r is None ==> digit_in(c, radix as nat) is None,
{
    let v: u32 = if '0' <= c && c <= '9' {
        c as u32 - '0' as u32
    } else if 'a' <= c && c <= 'z' {
        c as u32 - 'a' as u32 + 10
    } else if 'A' <= c && c <= 'Z' {
        c as u32 - 'A' as u32 + 10
    } else {
        radix
    };
    if v < radix {
        Some(v)
    } else {
        None
    }
}

proof fn lemma_radix_step(s: Seq<char>, k: int, radix: nat)
    requires
        0 <= k < s.len(),
    ensures
        radix_value(s.subrange(0, k + 1), radix) == match (
            radix_value(s.subrange(0, k), radix),
            digit_in(s[k], radix),
        ) {
            (Some(v), Some(d)) => Some(v * radix + d),
            _ => None,
        },
{
    assert(s.subrange(0, k + 1).drop_last() =~= s.subrange(0, k));
}

/// A failed prefix fails the whole.
proof fn lemma_radix_prefix_none(s: Seq<char>, k: int, radix: nat)
    requires
        0 <= k <= s.len(),
        radix_value(s.subrange(0, k), radix) is None,
    ensures
        radix_value(s, radix) is None,
    decreases s.len() - k,
{
    if k < s.len() {
        lemma_radix_step(s, k, radix);
        lemma_radix_prefix_none(s, k + 1, radix);
    } else {
        assert(s.subrange(0, k) =~= s);
    }
}

/// `u32::from_str_radix` for radix 10 or 16, on characters.
#[verifier::rlimit(40)]
pub(crate) fn parse_u32(s: &[char], radix: u32) -> (r: Option<u32>)
    requires
        radix == 10 || radix == 16,
    ensures
        r matches Some(v) ==> parse_u32_spec(s@, radix as nat) == Some(v as nat),
        r is None ==> parse_u32_spec(s@, radix as nat) is None,
{
    let start: usize = if s.len() > 0 && s[0] == '+' {
        1
    } else {
        0
    };
    let ghost digits = s@.subrange(start as int, s@.len() as int);
    assert(digits =~= (if s@.len() > 0 && s@[0] == '+' { s@.drop_first() } else { s@ }));
    if start >= s.len() {
        return None;
    }
    let cap: u64 = 0x1_0000_0000;
    let mut acc: u64 = 0;
    let mut i: usize = start;
    assert(digits.subrange(0, 0) =~= Seq::<char>::empty());
    while i < s.len()
        invariant
            start <= i <= s@.len(),
            digits == s@.subrange(start as int, s@.len() as int),
            digits == (if s@.len() > 0 && s@[0] == '+' { s@.drop_first() } else { s@ }),
            digits.len() > 0,
            cap == 0x1_0000_0000,
            radix == 10 || radix == 16,
            radix_value(digits.subrange(0, i - start), radix as nat) matches Some(v) && acc as nat
                == (if v < cap { v } else { cap as nat }),
        decreases s@.len() - i,
    {
        let k = i - start;
        proof {
            lemma_radix_step(digits, k as int, radix as nat);
        }
        let d = match digit_of(s[i], radix) {
            Some(d) => d,
            None => {
                proof {
                    lemma_radix_prefix_none(digits, k + 1, radix as nat);
                }
                return None;
            },
        };
        let ghost v = radix_value(digits.subrange(0, k as int), radix as nat).unwrap();
        if acc >= cap {
            assert(v * radix + d >= cap) by (nonlinear_arith)
                requires
                    v >= cap,
                    radix >= 10,
            ;
        } else {
            assert(acc * radix + d <= 0x1_0000_0000 * 16 + 16) by (nonlinear_arith)
                requires
                    acc < 0x1_0000_0000,
                    radix <= 16,
                    d < 16,
            ;
            assert(acc == v);
            let x = acc * radix as u64 + d as u64;
            assert(x == v * radix + d);
            acc = if x > cap {
                cap
            } else {
                x
            };
        }
        i = i + 1;
    }
    assert(digits.subrange(0, i - start) =~= digits);
    if acc < cap {
        Some(acc as u32)
    } else {
        None
    }
}

/// The character an entity body stands for, if it is a known one.
fn entity_of(ent: &[char]) -> (r: Option<char>)
    ensures
        r == entity_char(ent@),
{
    let amp: [char; 3] = ['a', 'm', 'p'];
    let lt: [char; 2] = ['l', 't'];
    let gt: [char; 2] = ['g', 't'];
    let quot: [char; 4] = ['q', 'u', 'o', 't'];
    let apos: [char; 4] = ['a', 'p', 'o', 's'];
    assert(amp@ == seq!['a', 'm', 'p']);
    assert(lt@ == seq!['l', 't']);
    assert(gt@ == seq!['g', 't']);
    assert(quot@ == seq!['q', 'u', 'o', 't']);
    assert(apos@ == seq!['a', 'p', 'o', 's']);
    if chars_eq(ent, &amp) {
        return Some('&');
    }
    if chars_eq(ent, &lt) {
        return Some('<');
    }
    if chars_eq(ent, &gt) {
        return Some('>');
    }
    if chars_eq(ent, &quot) {
        return Some('"');
    }
    if chars_eq(ent, &apos) {
        return Some('\'');
    }
    let mut code: Option<u32> = None;
    if ent.len() >= 2 && ent[0] == '#' && (ent[1] == 'x' || ent[1] == 'X') {
        code = parse_u32(vstd::slice::slice_subrange(ent, 2, ent.len()), 16);
    }
    if code.is_none() && ent.len() >= 1 && ent[0] == '#' {
        let rest = vstd::slice::slice_subrange(ent, 1, ent.len());
        assert(rest@ =~= ent@.drop_first());
        code = parse_u32(rest, 10);
    }
    match code {
        Some(v) => {
            let c = char_from_u32(v);
            proof {
                if let Some(ch) = c {
                    char_u32_cast(ch, v);
                }
            }
            c
        },
        None => None,
    }
}

/// Attribute text with its entities replaced.
#[verifier::rlimit(40)]
fn unescape_chars(s: &[char]) -> (r: Vec<char>)
    ensures
        r@ == unescape(s@),
{
    let mut out: Vec<char> = Vec::new();
    let mut i: usize = 0;
    assert(s@.subrange(0, s@.len() as int) =~= s@);
    loop
        invariant
            i <= s@.len(),
            out@ + unescape(s@.subrange(i as int, s@.len() as int)) == unescape(s@),
        decreases s@.len() - i,
    {
        let ghost rest = s@.subrange(i as int, s@.len() as int);
        proof {
            lemma_scan_to_suffix(s@, i as int, 0, '&');
            lemma_scan_to_bounds(s@, i as int, '&');
        }
        let a = to_char(s, i, '&');
        if a >= s.len() {
            crate::text::push_chars(&mut out, s, i, s.len());
            return out;
        }
        proof {
            lemma_scan_to_suffix(s@, i as int, (a - i) as int, ';');
            lemma_scan_to_bounds(s@, a as int, ';');
        }
        let e = to_char(s, a, ';');
        if e >= s.len() {
            crate::text::push_chars(&mut out, s, i, s.len());
            return out;
        }
        let ghost before = out@;
        crate::text::push_chars(&mut out, s, i, a);
        let ent = vstd::slice::slice_subrange(s, a + 1, e);
        match entity_of(ent) {
            Some(c) => {
                out.push(c);
            },
            None => {
                crate::text::push_chars(&mut out, s, a, e + 1);
            },
        }
        proof {
            assert(rest.subrange(0, a - i) =~= s@.subrange(i as int, a as int));
            assert(rest.subrange(a - i + 1, e - i) =~= s@.subrange(a + 1, e as int));
            assert(rest.subrange(a - i, e - i + 1) =~= s@.subrange(a as int, e + 1));
            assert(rest.subrange(e - i + 1, rest.len() as int) =~= s@.subrange(
                e + 1,
                s@.len() as int,
            ));
            assert(unescape(rest) == s@.subrange(i as int, a as int) + entity_out(
                s@.subrange(a + 1, e as int),
                s@.subrange(a as int, e + 1),
            ) + unescape(s@.subrange(e + 1, s@.len() as int)));
            assert(out@ =~= before + s@.subrange(i as int, a as int) + entity_out(
                s@.subrange(a + 1, e as int),
                s@.subrange(a as int, e + 1),
            ));
        }
        i = e + 1;
    }
}


// ---------------------------------------------------------------------------
// The reader, as spec functions
// ---------------------------------------------------------------------------

/// The position just past the first `marker` at or after `from`.
pub open spec fn skip_past(t: Seq<char>, from: int, marker: Seq<char>) -> Option<int> {
    match first_occurrence(t, marker, from) {
        Some(p) => Some(p + marker.len()),
        None => None,
    }
}

/// A finished element goes under the innermost open element, or becomes
/// the root when none is open; a second root is refused.
pub open spec fn attach_spec(node: NodeModel, stack: Seq<NodeModel>, root: Option<NodeModel>) -> Option<
    (Seq<NodeModel>, Option<NodeModel>),
> {
    if stack.len() > 0 {
        let parent = stack.last();
        Some(
            (
                stack.update(
                    stack.len() - 1,
                    NodeModel {
                        name: parent.name,
                        props: parent.props,
                        children: parent.children.push(node),
                    },
                ),
                root,
            ),
        )
    } else if root is None {
        Some((stack, Some(node)))
    } else {
        None
    }
}

/// The tree read from `t` from position `i` on, with the elements still
/// open in `stack` and the finished root, if any.
pub open spec fn read_from(t: Seq<char>, i: int, stack: Seq<NodeModel>, root: Option<NodeModel>) -> Option<
    NodeModel,
>
    decreases t.len() - i, 1nat,
{
    if i < 0 || i > t.len() {
        None
    } else if i == t.len() {
        if stack.len() > 0 {
            None
        } else {
            root
        }
    } else if t[i] != '<' {
        read_from(t, i + 1, stack, root)
    } else if occurs_at(t, seq!['<', '?'], i) {
        match skip_past(t, i, seq!['?', '>']) {
            Some(k) => if k <= i || k > t.len() {
                None
            } else {
                read_from(t, k, stack, root)
            },
            None => None,
        }
    } else if occurs_at(t, seq!['<', '!', '-', '-'], i) {
        match skip_past(t, i, seq!['-', '-', '>']) {
            Some(k) => if k <= i || k > t.len() {
                None
            } else {
                read_from(t, k, stack, root)
            },
            None => None,
        }
    } else if occurs_at(t, seq!['<', '!'], i) {
        match skip_past(t, i, seq!['>']) {
            Some(k) => if k <= i || k > t.len() {
                None
            } else {
                read_from(t, k, stack, root)
            },
            None => None,
        }
    } else if occurs_at(t, seq!['<', '/'], i) {
        match skip_past(t, i, seq!['>']) {
            Some(k) => if k <= i || k > t.len() || stack.len() == 0 {
                None
            } else {
                match attach_spec(stack.last(), stack.drop_last(), root) {
                    Some((st, rt)) => read_from(t, k, st, rt),
                    None => None,
                }
            },
            None => None,
        }
    } else {
        let j = scan_name_end(t, i + 1);
        if j <= i || j > t.len() {
            None
        } else {
            read_attrs(
                t,
                j,
                NodeModel { name: t.subrange(i + 1, j), props: Seq::empty(), children: Seq::empty() },
                stack,
                root,
            )
        }
    }
}

/// The attributes of a start tag from position `i` on, for the element
/// `node` being read, then the rest of the text.
pub open spec fn read_attrs(
    t: Seq<char>,
    i: int,
    node: NodeModel,
    stack: Seq<NodeModel>,
    root: Option<NodeModel>,
) -> Option<NodeModel>
    decreases t.len() - i, 0nat,
{
    let k = skip_ws(t, i);
    if i < 0 || k < i || k >= t.len() {
        None
    } else if t[k] == '/' {
        match skip_past(t, k, seq!['>']) {
            Some(e) => if e <= i || e > t.len() {
                None
            } else {
                match attach_spec(node, stack, root) {
                    Some((st, rt)) => read_from(t, e, st, rt),
                    None => None,
                }
            },
            None => None,
        }
    } else if t[k] == '>' {
        read_from(t, k + 1, stack.push(node), root)
    } else {
        let a = scan_attr_end(t, k);
        if a < k || a >= t.len() || t[a] != '=' {
            None
        } else if a + 1 >= t.len() || !(t[a + 1] == '"' || t[a + 1] == '\'') {
            None
        } else {
            let e = scan_to(t, a + 2, t[a + 1]);
            if e < a + 2 || e >= t.len() {
                None
            } else {
                read_attrs(
                    t,
                    e + 1,
                    NodeModel {
                        name: node.name,
                        props: node.props.push(
                            (t.subrange(k, a), ValueModel::Str(unescape(t.subrange(a + 2, e)))),
                        ),
                        children: node.children,
                    },
                    stack,
                    root,
                )
            }
        }
    }
}

/// The tree an XML text describes, or None when it is malformed.
pub open spec fn read_spec(t: Seq<char>) -> Option<NodeModel> {
    read_from(t, 0, Seq::empty(), None)
}

// ---------------------------------------------------------------------------
// What the reader reports where the text does not parse
// ---------------------------------------------------------------------------

/// The message for a section whose closing `marker` never comes.
pub open spec fn unterminated_error(marker: Seq<char>) -> Seq<char> {
    "unterminated '"@ + marker + "' section in preset XML"@
}

/// The message for a finished element with nowhere to go.
pub open spec fn second_root_error() -> Seq<char> {
    "preset XML has more than one root element"@
}

/// The message for reading from `i` on, where `read_from` finds no tree.
pub open spec fn read_error_from(
    t: Seq<char>,
    i: int,
    stack: Seq<NodeModel>,
    root: Option<NodeModel>,
) -> Seq<char>
    decreases t.len() - i, 1nat,
{
    if i < 0 || i > t.len() {
        Seq::empty()
    } else if i == t.len() {
        if stack.len() > 0 {
            "preset XML ended with unclosed elements"@
        } else {
            "preset XML contains no elements"@
        }
    } else if t[i] != '<' {
        read_error_from(t, i + 1, stack, root)
    } else if occurs_at(t, seq!['<', '?'], i) {
        match skip_past(t, i, seq!['?', '>']) {
            Some(k) => if k <= i || k > t.len() {
                Seq::empty()
            } else {
                read_error_from(t, k, stack, root)
            },
            None => unterminated_error(seq!['?', '>']),
        }
    } else if occurs_at(t, seq!['<', '!', '-', '-'], i) {
        match skip_past(t, i, seq!['-', '-', '>']) {
            Some(k) => if k <= i || k > t.len() {
                Seq::empty()
            } else {
                read_error_from(t, k, stack, root)
            },
            None => unterminated_error(seq!['-', '-', '>']),
        }
    } else if occurs_at(t, seq!['<', '!'], i) {
        match skip_past(t, i, seq!['>']) {
            Some(k) => if k <= i || k > t.len() {
                Seq::empty()
            } else {
                read_error_from(t, k, stack, root)
            },
            None => unterminated_error(seq!['>']),
        }
    } else if occurs_at(t, seq!['<', '/'], i) {
        match skip_past(t, i, seq!['>']) {
            Some(k) => if k <= i || k > t.len() {
                Seq::empty()
            } else if stack.len() == 0 {
                "closing tag without an open element"@
            } else {
                match attach_spec(stack.last(), stack.drop_last(), root) {
                    Some((st, rt)) => read_error_from(t, k, st, rt),
                    None => second_root_error(),
                }
            },
            None => unterminated_error(seq!['>']),
        }
    } else {
        let j = scan_name_end(t, i + 1);
        if j <= i || j > t.len() {
            Seq::empty()
        } else {
            attrs_error(
                t,
                j,
                NodeModel { name: t.subrange(i + 1, j), props: Seq::empty(), children: Seq::empty() },
                stack,
                root,
            )
        }
    }
}

/// The message for the attributes of a start tag from `i` on, where
/// `read_attrs` finds no tree.
pub open spec fn attrs_error(
    t: Seq<char>,
    i: int,
    node: NodeModel,
    stack: Seq<NodeModel>,
    root: Option<NodeModel>,
) -> Seq<char>
    decreases t.len() - i, 0nat,
{
    let k = skip_ws(t, i);
    if i < 0 || k < i {
        Seq::empty()
    } else if k >= t.len() {
        "unterminated tag in preset XML"@
    } else if t[k] == '/' {
        match skip_past(t, k, seq!['>']) {
            Some(e) => if e <= i || e > t.len() {
                Seq::empty()
            } else {
                match attach_spec(node, stack, root) {
                    Some((st, rt)) => read_error_from(t, e, st, rt),
                    None => second_root_error(),
                }
            },
            None => unterminated_error(seq!['>']),
        }
    } else if t[k] == '>' {
        read_error_from(t, k + 1, stack.push(node), root)
    } else {
        let a = scan_attr_end(t, k);
        if a < k || a > t.len() {
            Seq::empty()
        } else if a >= t.len() || t[a] != '=' {
            "malformed attribute '"@ + t.subrange(k, a) + "' in preset XML"@
        } else if a + 1 >= t.len() || !(t[a + 1] == '"' || t[a + 1] == '\'') {
            "unquoted value for attribute '"@ + t.subrange(k, a) + "' in preset XML"@
        } else {
            let e = scan_to(t, a + 2, t[a + 1]);
            if e < a + 2 {
                Seq::empty()
            } else if e >= t.len() {
                "unterminated value for attribute '"@ + t.subrange(k, a) + "' in preset XML"@
            } else {
                attrs_error(
                    t,
                    e + 1,
                    NodeModel {
                        name: node.name,
                        props: node.props.push(
                            (t.subrange(k, a), ValueModel::Str(unescape(t.subrange(a + 2, e)))),
                        ),
                        children: node.children,
                    },
                    stack,
                    root,
                )
            }
        }
    }
}

/// The message `parse` gives for a text `read_spec` finds no tree in.
pub open spec fn read_error(t: Seq<char>) -> Seq<char> {
    read_error_from(t, 0, Seq::empty(), None)
}

// ---------------------------------------------------------------------------
// The reader
// ---------------------------------------------------------------------------

/// The plain content of an optional tree.
pub open spec fn opt_node(n: Option<Node>) -> Option<NodeModel> {
    match n {
        Some(x) => Some(x@),
        None => None,
    }
}

fn attach(node: Node, stack: &mut Vec<Node>, root: &mut Option<Node>) -> (r: Result<()>)
    ensures
        r is Ok <==> attach_spec(node@, nodes_view(old(stack)@), opt_node(*old(root))) is Some,
        r is Ok ==> attach_spec(node@, nodes_view(old(stack)@), opt_node(*old(root))) == Some(
            (nodes_view(final(stack)@), opt_node(*final(root))),
        ),
        r matches Err(e) ==> e.0@ == second_root_error(),
{
    if stack.len() > 0 {
        let ghost before = nodes_view(stack@);
        let mut parent = stack.pop().unwrap();
        let ghost pv = parent@;
        proof {
            lemma_children_view(&parent);
        }
        parent.children.push(node);
        proof {
            lemma_children_view(&parent);
            assert(parent@.children =~= pv.children.push(node@));
        }
        stack.push(parent);
        assert(nodes_view(stack@) =~= before.update(
            before.len() - 1,
            NodeModel { name: pv.name, props: pv.props, children: pv.children.push(node@) },
        ));
        Ok(())
    } else if root.is_none() {
        *root = Some(node);
        Ok(())
    } else {
        err("preset XML has more than one root element")
    }
}

/// Parse JUCE-style XML text into a tree.
pub fn parse(text: &str) -> (r: Result<Node>)
    ensures
        match read_spec(text@) {
            Some(n) => r matches Ok(m) && m@ == n,
            None => r is Err,
        },
        r matches Err(e) ==> e.0@ == read_error(text@),
{
    let t = chars_of(text);
    let mut i: usize = 0;
    // Nodes still being built; the finished root ends up in `root`.
    let mut stack: Vec<Node> = Vec::new();
    let mut root: Option<Node> = None;
    let decl: [char; 2] = ['<', '?'];
    let decl_end: [char; 2] = ['?', '>'];
    let comment: [char; 4] = ['<', '!', '-', '-'];
    let comment_end: [char; 3] = ['-', '-', '>'];
    let bang: [char; 2] = ['<', '!'];
    let close: [char; 2] = ['<', '/'];
    let gt: [char; 1] = ['>'];
    let ghost want = read_spec(text@);
    let ghost ewant = read_error(text@);
    assert(nodes_view(stack@) =~= Seq::<NodeModel>::empty());
    while i < t.len()
        invariant
            i <= t@.len(),
            t@ == text@,
            decl@ == seq!['<', '?'],
            decl_end@ == seq!['?', '>'],
            comment@ == seq!['<', '!', '-', '-'],
            comment_end@ == seq!['-', '-', '>'],
            bang@ == seq!['<', '!'],
            close@ == seq!['<', '/'],
            gt@ == seq!['>'],
            want == read_spec(text@),
            want == read_from(t@, i as int, nodes_view(stack@), opt_node(root)),
            ewant == read_error(text@),
            ewant == read_error_from(t@, i as int, nodes_view(stack@), opt_node(root)),
        decreases t@.len() - i,
    {
        if t[i] != '<' {
            i = i + 1;  // text content and whitespace between tags
            continue;
        }
        if chars_at(&t, &decl, i) {
            i = match skip_past_exec(&t, i, &decl_end) {
                Ok(k) => k,
                Err(e) => {
                    return Err(e);
                },
            };
            continue;
        }
        if chars_at(&t, &comment, i) {
            i = match skip_past_exec(&t, i, &comment_end) {
                Ok(k) => k,
                Err(e) => {
                    return Err(e);
                },
            };
            continue;
        }
        if chars_at(&t, &bang, i) {
            i = match skip_past_exec(&t, i, &gt) {
                Ok(k) => k,
                Err(e) => {
                    return Err(e);
                },
            };  // DOCTYPE and friends
            continue;
        }
        if chars_at(&t, &close, i) {
            i = match skip_past_exec(&t, i, &gt) {
                Ok(k) => k,
                Err(e) => {
                    return Err(e);
                },
            };
            let ghost sv = nodes_view(stack@);
            let finished = match stack.pop() {
                Some(n) => n,
                None => {
                    return err("closing tag without an open element");
                },
            };
            assert(nodes_view(stack@) =~= sv.drop_last());
            assert(finished@ == sv.last());
            if let Err(e) = attach(finished, &mut stack, &mut root) {
                return Err(e);
            }
            continue;
        }
        // Start tag.
        let name_start = i + 1;
        let j = name_end(&t, name_start);
        let name = string_of(vstd::slice::slice_subrange(t.as_slice(), name_start, j));
        let mut node = Node { name, props: Vec::new(), children: Vec::new() };
        proof {
            lemma_children_view(&node);
            assert(node@.props =~= Seq::empty());
            assert(node@.children =~= Seq::empty());
            assert(node@ == NodeModel {
                name: t@.subrange(i + 1, j as int),
                props: Seq::empty(),
                children: Seq::empty(),
            });
        }
        let start = i;
        i = j;
        loop
            invariant_except_break
                start < i <= t@.len(),
                t@ == text@,
                gt@ == seq!['>'],
                want == read_spec(text@),
                want == read_attrs(t@, i as int, node@, nodes_view(stack@), opt_node(root)),
                ewant == read_error(text@),
                ewant == attrs_error(t@, i as int, node@, nodes_view(stack@), opt_node(root)),
            ensures
                start < i <= t@.len(),
                want == read_spec(text@),
                want == read_from(t@, i as int, nodes_view(stack@), opt_node(root)),
                ewant == read_error(text@),
                ewant == read_error_from(t@, i as int, nodes_view(stack@), opt_node(root)),
            decreases t@.len() - i,
        {
            let k = past_ws(&t, i);
            if k >= t.len() {
                return err("unterminated tag in preset XML");
            }
            if t[k] == '/' {
                let e = match skip_past_exec(&t, k, &gt) {
                    Ok(e) => e,
                    Err(x) => {
                        return Err(x);
                    },
                };
                // self-closing
                if let Err(x) = attach(node, &mut stack, &mut root) {
                    return Err(x);
                }
                i = e;
                break;
            }
            if t[k] == '>' {
                i = k + 1;
                let ghost sb = nodes_view(stack@);
                let ghost nv = node@;
                stack.push(node);
                assert(nodes_view(stack@) =~= sb.push(nv));
                break;
            }
            let a = attr_end(&t, k);
            let attr = vstd::slice::slice_subrange(t.as_slice(), k, a);
            if a >= t.len() || t[a] != '=' {
                return Err(Error(message_with("malformed attribute '", attr, "' in preset XML")));
            }
            if a + 1 >= t.len() || !(t[a + 1] == '"' || t[a + 1] == '\'') {
                return Err(
                    Error(message_with("unquoted value for attribute '", attr, "' in preset XML")),
                );
            }
            let quote = t[a + 1];
            let value_start = a + 2;
            let e = to_char(&t, value_start, quote);
            if e >= t.len() {
                return Err(
                    Error(
                        message_with("unterminated value for attribute '", attr, "' in preset XML"),
                    ),
                );
            }
            let value = unescape_chars(vstd::slice::slice_subrange(t.as_slice(), value_start, e));
            let ghost before = node@;
            node.props.push((string_of(attr), Value::Str(string_of(&value))));
            proof {
                lemma_children_view(&node);
                assert(node@.props =~= before.props.push(
                    (t@.subrange(k as int, a as int), ValueModel::Str(
                        unescape(t@.subrange(a + 2, e as int)),
                    )),
                ));
            }
            i = e + 1;
        }
    }
    if stack.len() > 0 {
        return err("preset XML ended with unclosed elements");
    }
    match root {
        Some(n) => Ok(n),
        None => err("preset XML contains no elements"),
    }
}

/// The position just past the first `marker` at or after `from`.
fn skip_past_exec(t: &[char], from: usize, marker: &[char]) -> (r: Result<usize>)
    requires
        from <= t@.len(),
        marker@.len() > 0,
    ensures
        r is Ok <==> skip_past(t@, from as int, marker@) is Some,
        r matches Ok(k) ==> skip_past(t@, from as int, marker@) == Some(k as int) && from < k
            <= t@.len(),
        r matches Err(e) ==> e.0@ == unterminated_error(marker@),
{
    match find_chars(t, marker, from) {
        Some(p) => {
            proof {
                crate::text::lemma_first_occurrence(t@, marker@, from as int);
            }
            assert(t@.len() == t.len());
            Ok(p + marker.len())
        },
        None => {
            Err(Error(message_with("unterminated '", marker, "' section in preset XML")))
        },
    }
}

} // verus!
