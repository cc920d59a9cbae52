//! Overlay parameter values from a parsed preset tree onto the template's
//! plugin-state XML.
//!
//! The template XML is walked element by element; each element is matched to
//! the tree node with the same name at the same tree position (JUCE
//! serializes the identical tree to both formats, so names line up
//! one-to-one). Attributes whose name exists as a property on the matched
//! node get the preset's value; everything else — attribute order, spacing,
//! attributes only REAPER's capture includes, whole elements missing from
//! the preset file — is preserved from the template. This is deliberately a
//! scanner for JUCE's single-line machine-generated XML, not a general XML
//! parser.

use vstd::prelude::*;
use crate::floats::{FloatTexts, FloatTextsModel};
use crate::text::{
    ascii_ws, chars_at, chars_eq, chars_of, find_chars, first_occurrence, is_ascii_ws, occurs_at,
    push_all_chars, push_chars, string_of, char_range,
};
use crate::valuetree::{find_in, find_node, prop_of, value_text, Node, NodeModel};
use crate::{err, Result};

verus! {

/// How many attribute values a merge replaced and how many it kept.
pub struct MergeStats {
    /// Attributes replaced with values from the preset file.
    pub overridden: usize,
    /// Attributes kept from the template (no matching property).
    pub template_only: usize,
}

// ---------------------------------------------------------------------------
// Specification
// ---------------------------------------------------------------------------

/// The characters that end an element name.
pub open spec fn ends_name(c: char) -> bool {
    c == ' ' || c == '\t' || c == '\r' || c == '\n' || c == '/' || c == '>'
}

/// The first index at or after `i` where `p` holds, or the length.
pub open spec fn scan_name_end(t: Seq<char>, i: int) -> int
    decreases t.len() - i,
{
    if i < 0 || i >= t.len() || ends_name(t[i]) {
        if i < 0 { 0 } else if i > t.len() { t.len() as int } else { i }
    } else {
        scan_name_end(t, i + 1)
    }
}

/// The first index at or after `i` holding `c`, or the length.
pub open spec fn scan_to(t: Seq<char>, i: int, c: char) -> int
    decreases t.len() - i,
{
    if i < 0 || i >= t.len() || t[i] == c {
        if i < 0 { 0 } else if i > t.len() { t.len() as int } else { i }
    } else {
        scan_to(t, i + 1, c)
    }
}

/// The first index at or after `i` that is not ASCII whitespace, or the length.
pub open spec fn skip_ws(t: Seq<char>, i: int) -> int
    decreases t.len() - i,
{
    if i < 0 || i >= t.len() || !is_ascii_ws(t[i]) {
        if i < 0 { 0 } else if i > t.len() { t.len() as int } else { i }
    } else {
        skip_ws(t, i + 1)
    }
}

/// The first index at or after `i` holding '=' or ASCII whitespace, or the
/// length: the end of an attribute name.
pub open spec fn scan_attr_end(t: Seq<char>, i: int) -> int
    decreases t.len() - i,
{
    if i < 0 || i >= t.len() || t[i] == '=' || is_ascii_ws(t[i]) {
        if i < 0 { 0 } else if i > t.len() { t.len() as int } else { i }
    } else {
        scan_attr_end(t, i + 1)
    }
}

/// The value of the element's "id" attribute, scanning from `i` (just past
/// the element name, so `i >= 1`) to the end of the tag; quoted values are
/// skipped, and "id=" counts only after whitespace.
pub open spec fn tag_id(t: Seq<char>, i: int) -> Option<Seq<char>>
    decreases t.len() - i,
{
    if i < 1 || i >= t.len() || t[i] == '>' {
        None
    } else if t[i] == '"' || t[i] == '\'' {
        let c = scan_to(t, i + 1, t[i]);
        if c < i || c >= t.len() {
            None
        } else {
            tag_id(t, c + 1)
        }
    } else if occurs_at(t, seq!['i', 'd', '='], i) && is_ascii_ws(t[i - 1]) {
        if i + 3 >= t.len() {
            None
        } else {
            match first_occurrence(t, seq![t[i + 3]], i + 4) {
                Some(e) => Some(t.subrange(i + 4, e)),
                None => None,
            }
        }
    } else {
        tag_id(t, i + 1)
    }
}

/// Whether the "id" scan from `i` breaks off. The scan steps through the
/// tag by byte offsets and reads the text from each offset outside quoted
/// values, so it cannot pass a character outside ASCII there; nor can it
/// take the value after an "id=" whose delimiter is such a character.
pub open spec fn tag_scan_breaks(t: Seq<char>, i: int) -> bool
    decreases t.len() - i,
{
    if i < 1 || i >= t.len() || t[i] == '>' {
        false
    } else if t[i] == '"' || t[i] == '\'' {
        let c = scan_to(t, i + 1, t[i]);
        if c < i || c >= t.len() {
            false
        } else {
            tag_scan_breaks(t, c + 1)
        }
    } else if occurs_at(t, seq!['i', 'd', '='], i) && is_ascii_ws(t[i - 1]) {
        i + 3 < t.len() && (t[i + 3] as u32) >= 0x80
    } else if (t[i] as u32) >= 0x80 {
        true
    } else {
        tag_scan_breaks(t, i + 1)
    }
}

/// Where the attributes of a start tag, from `i` on, end: the position past
/// its `>` or `/>`, or None for a malformed tag (as `merge_attrs` has it).
pub open spec fn attrs_end(t: Seq<char>, i: int) -> Option<int>
    decreases t.len() - i,
{
    let k = skip_ws(t, i);
    if i < 0 || i > t.len() || k >= t.len() {
        None
    } else if t[k] == '/' {
        match first_occurrence(t, seq!['>'], k) {
            None => None,
            Some(m) => Some(m + 1),
        }
    } else if t[k] == '>' {
        Some(k + 1)
    } else {
        let a_end = scan_attr_end(t, k);
        if a_end >= t.len() || t[a_end] != '=' {
            None
        } else if a_end + 1 >= t.len() || !(t[a_end + 1] == '"' || t[a_end + 1] == '\'') {
            None
        } else {
            let ve = scan_to(t, a_end + 2, t[a_end + 1]);
            if ve >= t.len() || ve < i {
                None
            } else {
                attrs_end(t, ve + 1)
            }
        }
    }
}

/// Whether the merge, walking the template from `i` on as `merge_from`
/// does, reaches a start tag whose "id" scan breaks off before the walk
/// ends or fails.
pub open spec fn merge_breaks_from(t: Seq<char>, i: int) -> bool
    decreases t.len() - i,
{
    if i < 0 || i >= t.len() {
        false
    } else if t[i] != '<' {
        let j = scan_to(t, i, '<');
        if j <= i || j > t.len() {
            false
        } else {
            merge_breaks_from(t, j)
        }
    } else if occurs_at(t, seq!['<', '?'], i) {
        match first_occurrence(t, seq!['?', '>'], i) {
            None => false,
            Some(k) => if k < i || k + 2 > t.len() {
                false
            } else {
                merge_breaks_from(t, k + 2)
            },
        }
    } else if occurs_at(t, seq!['<', '/'], i) {
        match first_occurrence(t, seq!['>'], i) {
            None => false,
            Some(k) => if k < i || k + 1 > t.len() {
                false
            } else {
                merge_breaks_from(t, k + 1)
            },
        }
    } else {
        let j = scan_name_end(t, i + 1);
        if tag_scan_breaks(t, j) {
            true
        } else {
            match attrs_end(t, j) {
                None => false,
                Some(e) => if e <= i || e > t.len() {
                    false
                } else {
                    merge_breaks_from(t, e)
                },
            }
        }
    }
}

/// Template XML the merge cannot walk: see `tag_scan_breaks`.
pub open spec fn merge_breaks(t: Seq<char>) -> bool {
    merge_breaks_from(t, 0)
}

/// The attribute walk of `merge_attrs` ends where `attrs_end` says, and
/// fails where it does, whatever the node, output and counts.
pub proof fn lemma_attrs_end_agrees(
    t: Seq<char>,
    i: int,
    vt: Option<NodeModel>,
    fl: FloatTextsModel,
    out: Seq<char>,
    stats: (nat, nat),
)
    ensures
        match merge_attrs(t, i, vt, fl, out, stats) {
            None => attrs_end(t, i) is None,
            Some((e, _, _, _)) => attrs_end(t, i) == Some(e),
        },
    decreases t.len() - i,
{
    let k = skip_ws(t, i);
    if 0 <= i <= t.len() && k < t.len() && t[k] != '/' && t[k] != '>' {
        let a_end = scan_attr_end(t, k);
        if a_end < t.len() && t[a_end] == '=' && a_end + 1 < t.len() && (t[a_end + 1] == '"'
            || t[a_end + 1] == '\'') {
            let quote = t[a_end + 1];
            let vs = a_end + 2;
            let ve = scan_to(t, vs, quote);
            if ve < t.len() && ve >= i {
                let out1 = out + t.subrange(i, k);
                let attr = t.subrange(k, a_end);
                let out2 = out1 + attr + seq!['=', quote];
                let (value, stats2) = match vt {
                    Some(n) => match prop_of(n, attr) {
                        Some(v) => (escape(value_text(v, fl)), (stats.0 + 1, stats.1)),
                        None => (t.subrange(vs, ve), (stats.0, stats.1 + 1)),
                    },
                    None => (t.subrange(vs, ve), (stats.0, stats.1 + 1)),
                };
                lemma_attrs_end_agrees(t, ve + 1, vt, fl, out2 + value + seq![quote], stats2);
            }
        }
    }
}

/// Whether a child matches an id: its "id" property's text is `id`.
pub open spec fn has_id(c: NodeModel, id: Seq<char>, fl: FloatTextsModel) -> bool {
    match prop_of(c, seq!['i', 'd']) {
        Some(v) => value_text(v, fl) == id,
        None => false,
    }
}

/// Among the children from index `k` on that are named `name`: the first
/// whose id is `id` (when there is an id), or else the one at position
/// `ordinal` counting from `k`.
pub open spec fn match_child_from(
    cs: Seq<NodeModel>,
    name: Seq<char>,
    id: Option<Seq<char>>,
    ordinal: nat,
    fl: FloatTextsModel,
    k: int,
) -> Option<NodeModel>
    decreases cs.len() - k,
{
    if k < 0 || k >= cs.len() {
        None
    } else if cs[k].name != name {
        match_child_from(cs, name, id, ordinal, fl, k + 1)
    } else {
        match id {
            Some(x) => if has_id(cs[k], x, fl) {
                Some(cs[k])
            } else {
                match_child_from(cs, name, id, ordinal, fl, k + 1)
            },
            None => if ordinal == 0 {
                Some(cs[k])
            } else {
                match_child_from(cs, name, id, (ordinal - 1) as nat, fl, k + 1)
            },
        }
    }
}

/// The child of `parent` that a template element matches.
pub open spec fn match_child(
    parent: NodeModel,
    name: Seq<char>,
    id: Option<Seq<char>>,
    ordinal: nat,
    fl: FloatTextsModel,
) -> Option<NodeModel> {
    match_child_from(parent.children, name, id, ordinal, fl, 0)
}

/// The text of a value as an XML attribute value: `&`, `<`, `>` and `"`
/// become entities.
pub open spec fn escape(s: Seq<char>) -> Seq<char>
    decreases s.len(),
{
    if s.len() == 0 {
        Seq::empty()
    } else {
        escape_char(s[0]) + escape(s.drop_first())
    }
}

/// One character as it appears in an escaped attribute value.
pub open spec fn escape_char(c: char) -> Seq<char> {
    if c == '&' {
        seq!['&', 'a', 'm', 'p', ';']
    } else if c == '<' {
        seq!['&', 'l', 't', ';']
    } else if c == '>' {
        seq!['&', 'g', 't', ';']
    } else if c == '"' {
        seq!['&', 'q', 'u', 'o', 't', ';']
    } else {
        seq![c]
    }
}

/// One open element while merging: its matched preset node, and how many
/// children of each name have been seen so far.
pub struct FrameModel {
    pub vt: Option<NodeModel>,
    pub seen: Seq<(Seq<char>, nat)>,
}

/// The index of the entry for `name`, from index `k` on.
pub open spec fn seen_index_from(seen: Seq<(Seq<char>, nat)>, name: Seq<char>, k: int) -> Option<int>
    decreases seen.len() - k,
{
    if k < 0 || k >= seen.len() {
        None
    } else if seen[k].0 == name {
        Some(k)
    } else {
        seen_index_from(seen, name, k + 1)
    }
}

/// How many children named `name` have been seen.
pub open spec fn seen_count(seen: Seq<(Seq<char>, nat)>, name: Seq<char>) -> nat {
    match seen_index_from(seen, name, 0) {
        Some(k) => seen[k].1,
        None => 0,
    }
}

/// The counts after one more child named `name`.
pub open spec fn seen_bump(seen: Seq<(Seq<char>, nat)>, name: Seq<char>) -> Seq<(Seq<char>, nat)> {
    match seen_index_from(seen, name, 0) {
        Some(k) => seen.update(k, (name, seen[k].1 + 1)),
        None => seen.push((name, 1)),
    }
}

/// The attributes of one start tag, from position `i` up to and including
/// its end (`>` or `/>`). Gives the position after the tag, the output so
/// far, the counts, and whether the element stays open.
pub open spec fn merge_attrs(
    t: Seq<char>,
    i: int,
    vt: Option<NodeModel>,
    fl: FloatTextsModel,
    out: Seq<char>,
    stats: (nat, nat),
) -> Option<(int, Seq<char>, (nat, nat), bool)>
    decreases t.len() - i,
{
    let k = skip_ws(t, i);
    let out1 = out + t.subrange(i, k);
    if i < 0 || i > t.len() || k >= t.len() {
        None
    } else if t[k] == '/' {
        match first_occurrence(t, seq!['>'], k) {
            None => None,
            Some(m) => Some((m + 1, out1 + t.subrange(k, m + 1), stats, false)),
        }
    } else if t[k] == '>' {
        Some((k + 1, out1.push('>'), stats, true))
    } else {
        let a_end = scan_attr_end(t, k);
        let attr = t.subrange(k, a_end);
        if a_end >= t.len() || t[a_end] != '=' {
            None
        } else if a_end + 1 >= t.len() || !(t[a_end + 1] == '"' || t[a_end + 1] == '\'') {
            None
        } else {
            let quote = t[a_end + 1];
            let vs = a_end + 2;
            let ve = scan_to(t, vs, quote);
            if ve >= t.len() || ve < i {
                None
            } else {
                let out2 = out1 + attr + seq!['=', quote];
                let (value, stats2) = match vt {
                    Some(n) => match prop_of(n, attr) {
                        Some(v) => (escape(value_text(v, fl)), (stats.0 + 1, stats.1)),
                        None => (t.subrange(vs, ve), (stats.0, stats.1 + 1)),
                    },
                    None => (t.subrange(vs, ve), (stats.0, stats.1 + 1)),
                };
                merge_attrs(t, ve + 1, vt, fl, out2 + value + seq![quote], stats2)
            }
        }
    }
}

/// A tag's attributes end past where they start.
pub proof fn lemma_merge_attrs_end(
    t: Seq<char>,
    i: int,
    vt: Option<NodeModel>,
    fl: FloatTextsModel,
    out: Seq<char>,
    stats: (nat, nat),
)
    ensures
        merge_attrs(t, i, vt, fl, out, stats) matches Some((e, _, _, _)) ==> i < e <= t.len(),
    decreases t.len() - i,
{
    let k = skip_ws(t, i);
    lemma_skip_ws_bound(t, i);
    if 0 <= i <= t.len() && k < t.len() {
        if t[k] == '/' {
            crate::text::lemma_first_occurrence(t, seq!['>'], k);
        } else if t[k] != '>' {
            let a_end = scan_attr_end(t, k);
            if a_end < t.len() && t[a_end] == '=' && a_end + 1 < t.len() {
                let quote = t[a_end + 1];
                let vs = a_end + 2;
                let ve = scan_to(t, vs, quote);
                if ve < t.len() && ve >= i {
                    let out1 = out + t.subrange(i, k);
                    let attr = t.subrange(k, a_end);
                    let out2 = out1 + attr + seq!['=', quote];
                    let (value, stats2) = match vt {
                        Some(n) => match prop_of(n, attr) {
                            Some(v) => (escape(value_text(v, fl)), (stats.0 + 1, stats.1)),
                            None => (t.subrange(vs, ve), (stats.0, stats.1 + 1)),
                        },
                        None => (t.subrange(vs, ve), (stats.0, stats.1 + 1)),
                    };
                    lemma_merge_attrs_end(t, ve + 1, vt, fl, out2 + value + seq![quote], stats2);
                }
            }
        }
    }
}

proof fn lemma_skip_ws_bound(t: Seq<char>, i: int)
    ensures
        0 <= i <= t.len() ==> i <= skip_ws(t, i) <= t.len(),
    decreases t.len() - i,
{
    if 0 <= i < t.len() && is_ascii_ws(t[i]) {
        lemma_skip_ws_bound(t, i + 1);
    }
}

/// The merge from position `i` on, given the output so far, the stack of
/// open elements and the counts.
pub open spec fn merge_from(
    t: Seq<char>,
    root: NodeModel,
    fl: FloatTextsModel,
    i: int,
    out: Seq<char>,
    stack: Seq<FrameModel>,
    stats: (nat, nat),
) -> Option<(Seq<char>, (nat, nat))>
    decreases t.len() - i,
{
    if i < 0 {
        None
    } else if i >= t.len() {
        Some((out, stats))
    } else if t[i] != '<' {
        let j = scan_to(t, i, '<');
        if j <= i || j > t.len() {
            None
        } else {
            merge_from(t, root, fl, j, out + t.subrange(i, j), stack, stats)
        }
    } else if occurs_at(t, seq!['<', '?'], i) {
        match first_occurrence(t, seq!['?', '>'], i) {
            None => None,
            Some(k) => if k < i || k + 2 > t.len() {
                None
            } else {
                merge_from(t, root, fl, k + 2, out + t.subrange(i, k + 2), stack, stats)
            },
        }
    } else if occurs_at(t, seq!['<', '/'], i) {
        match first_occurrence(t, seq!['>'], i) {
            None => None,
            Some(k) => if k < i || k + 1 > t.len() {
                None
            } else {
                merge_from(
                    t,
                    root,
                    fl,
                    k + 1,
                    out + t.subrange(i, k + 1),
                    if stack.len() == 0 { stack } else { stack.drop_last() },
                    stats,
                )
            },
        }
    } else {
        let j = scan_name_end(t, i + 1);
        let name = t.subrange(i + 1, j);
        let id = tag_id(t, j);
        let (vt, stack1) = if stack.len() == 0 {
            (find_in(root, name), stack)
        } else {
            let top = stack.last();
            let ordinal = seen_count(top.seen, name);
            (
                match top.vt {
                    Some(parent) => match_child(parent, name, id, ordinal, fl),
                    None => None,
                },
                stack.update(
                    stack.len() - 1,
                    FrameModel { vt: top.vt, seen: seen_bump(top.seen, name) },
                ),
            )
        };
        match merge_attrs(t, j, vt, fl, out + t.subrange(i, j), stats) {
            None => None,
            Some((end, out2, stats2, open)) => if end <= i || end > t.len() {
                None
            } else {
                merge_from(
                    t,
                    root,
                    fl,
                    end,
                    out2,
                    if open { stack1.push(FrameModel { vt, seen: Seq::empty() }) } else { stack1 },
                    stats2,
                )
            },
        }
    }
}

/// The merged XML text and counts, or an error for malformed template XML.
pub open spec fn merge_spec(t: Seq<char>, root: NodeModel, fl: FloatTextsModel) -> Option<(Seq<char>, (nat, nat))> {
    merge_from(t, root, fl, 0, Seq::empty(), Seq::empty(), (0, 0))
}

/// The end of an element name lies between where it starts and the end of
/// the text.
proof fn lemma_name_end_bounds(t: Seq<char>, i: int)
    requires
        0 <= i <= t.len(),
    ensures
        i <= scan_name_end(t, i) <= t.len(),
    decreases t.len() - i,
{
    if i < t.len() && !ends_name(t[i]) {
        lemma_name_end_bounds(t, i + 1);
    }
}

/// `o` begins with `out`.
pub open spec fn begins_with(o: Seq<char>, out: Seq<char>) -> bool {
    out.len() <= o.len() && o.subrange(0, out.len() as int) == out
}

/// A start tag's attributes only add to the output.
proof fn lemma_merge_attrs_extends(
    t: Seq<char>,
    i: int,
    vt: Option<NodeModel>,
    fl: FloatTextsModel,
    out: Seq<char>,
    stats: (nat, nat),
)
    ensures
        merge_attrs(t, i, vt, fl, out, stats) matches Some((_, o, _, _)) ==> begins_with(o, out),
    decreases t.len() - i,
{
    let k = skip_ws(t, i);
    let out1 = out + t.subrange(i, k);
    if 0 <= i <= t.len() && k < t.len() {
        if t[k] == '/' {
            if let Some(m) = first_occurrence(t, seq!['>'], k) {
                let o = out1 + t.subrange(k, m + 1);
                assert(o.subrange(0, out.len() as int) =~= out);
            }
        } else if t[k] == '>' {
            assert(out1.push('>').subrange(0, out.len() as int) =~= out);
        } else {
            let a_end = scan_attr_end(t, k);
            let attr = t.subrange(k, a_end);
            if a_end < t.len() && t[a_end] == '=' && a_end + 1 < t.len() && (t[a_end + 1] == '"'
                || t[a_end + 1] == '\'') {
                let quote = t[a_end + 1];
                let vs = a_end + 2;
                let ve = scan_to(t, vs, quote);
                if ve < t.len() && ve >= i {
                    let out2 = out1 + attr + seq!['=', quote];
                    let (value, stats2) = match vt {
                        Some(n) => match prop_of(n, attr) {
                            Some(v) => (escape(value_text(v, fl)), (stats.0 + 1, stats.1)),
                            None => (t.subrange(vs, ve), (stats.0, stats.1 + 1)),
                        },
                        None => (t.subrange(vs, ve), (stats.0, stats.1 + 1)),
                    };
                    let out3 = out2 + value + seq![quote];
                    lemma_merge_attrs_extends(t, ve + 1, vt, fl, out3, stats2);
                    if let Some((_, o, _, _)) = merge_attrs(t, ve + 1, vt, fl, out3, stats2) {
                        assert(o.subrange(0, out.len() as int) =~= o.subrange(
                            0,
                            out3.len() as int,
                        ).subrange(0, out.len() as int));
                        assert(out3.subrange(0, out.len() as int) =~= out);
                    }
                }
            }
        }
    }
}

/// The merge from position `i` on only adds to the output.
proof fn lemma_merge_from_extends(
    t: Seq<char>,
    root: NodeModel,
    fl: FloatTextsModel,
    i: int,
    out: Seq<char>,
    stack: Seq<FrameModel>,
    stats: (nat, nat),
)
    ensures
        merge_from(t, root, fl, i, out, stack, stats) matches Some((o, _)) ==> begins_with(o, out),
    decreases t.len() - i,
{
    if i < 0 {
    } else if i >= t.len() {
        assert(out.subrange(0, out.len() as int) =~= out);
    } else if t[i] != '<' {
        let j = scan_to(t, i, '<');
        if j > i && j <= t.len() {
            let out1 = out + t.subrange(i, j);
            lemma_merge_from_extends(t, root, fl, j, out1, stack, stats);
            if let Some((o, _)) = merge_from(t, root, fl, j, out1, stack, stats) {
                assert(o.subrange(0, out.len() as int) =~= o.subrange(0, out1.len() as int).subrange(
                    0,
                    out.len() as int,
                ));
                assert(out1.subrange(0, out.len() as int) =~= out);
            }
        }
    } else if occurs_at(t, seq!['<', '?'], i) {
        if let Some(k) = first_occurrence(t, seq!['?', '>'], i) {
            if k >= i && k + 2 <= t.len() {
                let out1 = out + t.subrange(i, k + 2);
                lemma_merge_from_extends(t, root, fl, k + 2, out1, stack, stats);
                if let Some((o, _)) = merge_from(t, root, fl, k + 2, out1, stack, stats) {
                    assert(o.subrange(0, out.len() as int) =~= o.subrange(
                        0,
                        out1.len() as int,
                    ).subrange(0, out.len() as int));
                    assert(out1.subrange(0, out.len() as int) =~= out);
                }
            }
        }
    } else if occurs_at(t, seq!['<', '/'], i) {
        if let Some(k) = first_occurrence(t, seq!['>'], i) {
            if k >= i && k + 1 <= t.len() {
                let out1 = out + t.subrange(i, k + 1);
                let st = if stack.len() == 0 { stack } else { stack.drop_last() };
                lemma_merge_from_extends(t, root, fl, k + 1, out1, st, stats);
                if let Some((o, _)) = merge_from(t, root, fl, k + 1, out1, st, stats) {
                    assert(o.subrange(0, out.len() as int) =~= o.subrange(
                        0,
                        out1.len() as int,
                    ).subrange(0, out.len() as int));
                    assert(out1.subrange(0, out.len() as int) =~= out);
                }
            }
        }
    } else {
        let j = scan_name_end(t, i + 1);
        let name = t.subrange(i + 1, j);
        let id = tag_id(t, j);
        let (vt, stack1) = if stack.len() == 0 {
            (find_in(root, name), stack)
        } else {
            let top = stack.last();
            let ordinal = seen_count(top.seen, name);
            (
                match top.vt {
                    Some(parent) => match_child(parent, name, id, ordinal, fl),
                    None => None,
                },
                stack.update(
                    stack.len() - 1,
                    FrameModel { vt: top.vt, seen: seen_bump(top.seen, name) },
                ),
            )
        };
        let out1 = out + t.subrange(i, j);
        lemma_merge_attrs_extends(t, j, vt, fl, out1, stats);
        if let Some((end, out2, stats2, open)) = merge_attrs(t, j, vt, fl, out1, stats) {
            if end > i && end <= t.len() {
                let st = if open { stack1.push(FrameModel { vt, seen: Seq::empty() }) } else { stack1 };
                lemma_merge_from_extends(t, root, fl, end, out2, st, stats2);
                if let Some((o, _)) = merge_from(t, root, fl, end, out2, st, stats2) {
                    assert(o.subrange(0, out.len() as int) =~= o.subrange(
                        0,
                        out2.len() as int,
                    ).subrange(0, out.len() as int));
                    assert(out2.subrange(0, out.len() as int) =~= out2.subrange(
                        0,
                        out1.len() as int,
                    ).subrange(0, out.len() as int));
                    assert(out1.subrange(0, out.len() as int) =~= out);
                }
            }
        }
    }
}

/// Merging into template XML that begins with '<' gives XML that begins
/// with '<'.
pub proof fn lemma_merge_starts_with_lt(t: Seq<char>, root: NodeModel, fl: FloatTextsModel)
    requires
        t.len() > 0,
        t[0] == '<',
    ensures
        merge_spec(t, root, fl) matches Some((o, _)) ==> o.len() > 0 && o[0] == '<',
{
    let e: Seq<char> = Seq::empty();
    let st: Seq<FrameModel> = Seq::empty();
    if occurs_at(t, seq!['<', '?'], 0) {
        crate::text::lemma_first_occurrence(t, seq!['?', '>'], 0);
        if let Some(k) = first_occurrence(t, seq!['?', '>'], 0) {
            if k + 2 <= t.len() {
                let out1 = e + t.subrange(0, k + 2);
                lemma_merge_from_extends(t, root, fl, k + 2, out1, st, (0, 0));
                if let Some((o, _)) = merge_spec(t, root, fl) {
                    assert(o.subrange(0, out1.len() as int)[0] == o[0]);
                }
            }
        }
    } else if occurs_at(t, seq!['<', '/'], 0) {
        crate::text::lemma_first_occurrence(t, seq!['>'], 0);
        if let Some(k) = first_occurrence(t, seq!['>'], 0) {
            if k + 1 <= t.len() {
                let out1 = e + t.subrange(0, k + 1);
                lemma_merge_from_extends(t, root, fl, k + 1, out1, st, (0, 0));
                if let Some((o, _)) = merge_spec(t, root, fl) {
                    assert(o.subrange(0, out1.len() as int)[0] == o[0]);
                }
            }
        }
    } else {
        lemma_name_end_bounds(t, 1);
        let j = scan_name_end(t, 1);
        let name = t.subrange(1, j);
        let vt = find_in(root, name);
        let out1 = e + t.subrange(0, j);
        lemma_merge_attrs_extends(t, j, vt, fl, out1, (0, 0));
        if let Some((end, out2, stats2, open)) = merge_attrs(t, j, vt, fl, out1, (0, 0)) {
            if end > 0 && end <= t.len() {
                let st2 = if open { st.push(FrameModel { vt, seen: Seq::empty() }) } else { st };
                lemma_merge_from_extends(t, root, fl, end, out2, st2, stats2);
                if let Some((o, _)) = merge_spec(t, root, fl) {
                    assert(o.subrange(0, out2.len() as int)[0] == o[0]);
                    assert(out2.subrange(0, out1.len() as int)[0] == out2[0]);
                }
            }
        }
    }
}

// ---------------------------------------------------------------------------
// What the merge reports for malformed template XML
// ---------------------------------------------------------------------------

/// The message for a start tag's attributes from `i` on, where
/// `merge_attrs` gives no result.
pub open spec fn attrs_error(
    t: Seq<char>,
    i: int,
    vt: Option<NodeModel>,
    fl: FloatTextsModel,
    out: Seq<char>,
    stats: (nat, nat),
) -> Seq<char>
    decreases t.len() - i,
{
    let k = skip_ws(t, i);
    let out1 = out + t.subrange(i, k);
    if i < 0 || i > t.len() {
        Seq::empty()
    } else if k >= t.len() || t[k] == '/' {
        "unterminated tag in template XML"@
    } else if t[k] == '>' {
        Seq::empty()
    } else {
        let a_end = scan_attr_end(t, k);
        let attr = t.subrange(k, a_end);
        if a_end >= t.len() || t[a_end] != '=' {
            "malformed attribute '"@ + attr + "' in template XML"@
        } else if a_end + 1 >= t.len() || !(t[a_end + 1] == '"' || t[a_end + 1] == '\'') {
            "unquoted value for attribute '"@ + attr + "' in template XML"@
        } else {
            let quote = t[a_end + 1];
            let vs = a_end + 2;
            let ve = scan_to(t, vs, quote);
            if ve >= t.len() {
                "unterminated value for attribute '"@ + attr + "' in template XML"@
            } else if ve < i {
                Seq::empty()
            } else {
                let out2 = out1 + attr + seq!['=', quote];
                let (value, stats2) = match vt {
                    Some(n) => match prop_of(n, attr) {
                        Some(v) => (escape(value_text(v, fl)), (stats.0 + 1, stats.1)),
                        None => (t.subrange(vs, ve), (stats.0, stats.1 + 1)),
                    },
                    None => (t.subrange(vs, ve), (stats.0, stats.1 + 1)),
                };
                attrs_error(t, ve + 1, vt, fl, out2 + value + seq![quote], stats2)
            }
        }
    }
}

/// The message for the merge from position `i` on, where `merge_from`
/// gives no result.
pub open spec fn merge_error_from(
    t: Seq<char>,
    root: NodeModel,
    fl: FloatTextsModel,
    i: int,
    out: Seq<char>,
    stack: Seq<FrameModel>,
    stats: (nat, nat),
) -> Seq<char>
    decreases t.len() - i,
{
    if i < 0 || i >= t.len() {
        Seq::empty()
    } else if t[i] != '<' {
        let j = scan_to(t, i, '<');
        if j <= i || j > t.len() {
            Seq::empty()
        } else {
            merge_error_from(t, root, fl, j, out + t.subrange(i, j), stack, stats)
        }
    } else if occurs_at(t, seq!['<', '?'], i) {
        match first_occurrence(t, seq!['?', '>'], i) {
            None => "unterminated XML declaration in template"@,
            Some(k) => if k < i || k + 2 > t.len() {
                Seq::empty()
            } else {
                merge_error_from(t, root, fl, k + 2, out + t.subrange(i, k + 2), stack, stats)
            },
        }
    } else if occurs_at(t, seq!['<', '/'], i) {
        match first_occurrence(t, seq!['>'], i) {
            None => "unterminated closing tag in template XML"@,
            Some(k) => if k < i || k + 1 > t.len() {
                Seq::empty()
            } else {
                merge_error_from(
                    t,
                    root,
                    fl,
                    k + 1,
                    out + t.subrange(i, k + 1),
                    if stack.len() == 0 { stack } else { stack.drop_last() },
                    stats,
                )
            },
        }
    } else {
        let j = scan_name_end(t, i + 1);
        let name = t.subrange(i + 1, j);
        let id = tag_id(t, j);
        let (vt, stack1) = if stack.len() == 0 {
            (find_in(root, name), stack)
        } else {
            let top = stack.last();
            let ordinal = seen_count(top.seen, name);
            (
                match top.vt {
                    Some(parent) => match_child(parent, name, id, ordinal, fl),
                    None => None,
                },
                stack.update(
                    stack.len() - 1,
                    FrameModel { vt: top.vt, seen: seen_bump(top.seen, name) },
                ),
            )
        };
        match merge_attrs(t, j, vt, fl, out + t.subrange(i, j), stats) {
            None => attrs_error(t, j, vt, fl, out + t.subrange(i, j), stats),
            Some((end, out2, stats2, open)) => if end <= i || end > t.len() {
                Seq::empty()
            } else {
                merge_error_from(
                    t,
                    root,
                    fl,
                    end,
                    out2,
                    if open { stack1.push(FrameModel { vt, seen: Seq::empty() }) } else { stack1 },
                    stats2,
                )
            },
        }
    }
}

/// The message `merge` gives where `merge_spec` gives no result.
pub open spec fn merge_error(t: Seq<char>, root: NodeModel, fl: FloatTextsModel) -> Seq<char> {
    merge_error_from(t, root, fl, 0, Seq::empty(), Seq::empty(), (0, 0))
}


// ---------------------------------------------------------------------------
// Scanning helpers
// ---------------------------------------------------------------------------

pub(crate) fn name_end(t: &[char], i: usize) -> (r: usize)
    requires
        i <= t@.len(),
    ensures
        r == scan_name_end(t@, i as int),
        i <= r <= t@.len(),
{
    let mut j = i;
    while j < t.len() && !(t[j] == ' ' || t[j] == '\t' || t[j] == '\r' || t[j] == '\n' || t[j] == '/'
        || t[j] == '>')
        invariant
            i <= j <= t@.len(),
            scan_name_end(t@, i as int) == scan_name_end(t@, j as int),
        decreases t@.len() - j,
    {
        j = j + 1;
    }
    j
}

pub(crate) fn to_char(t: &[char], i: usize, c: char) -> (r: usize)
    requires
        i <= t@.len(),
    ensures
        r == scan_to(t@, i as int, c),
        i <= r <= t@.len(),
        i < t@.len() && t@[i as int] != c ==> r > i,
{
    let mut j = i;
    while j < t.len() && t[j] != c
        invariant
            i <= j <= t@.len(),
            scan_to(t@, i as int, c) == scan_to(t@, j as int, c),
        decreases t@.len() - j,
    {
        j = j + 1;
    }
    j
}

pub(crate) fn past_ws(t: &[char], i: usize) -> (r: usize)
    requires
        i <= t@.len(),
    ensures
        r == skip_ws(t@, i as int),
        i <= r <= t@.len(),
{
    let mut j = i;
    while j < t.len() && ascii_ws(t[j])
        invariant
            i <= j <= t@.len(),
            skip_ws(t@, i as int) == skip_ws(t@, j as int),
        decreases t@.len() - j,
    {
        j = j + 1;
    }
    j
}

pub(crate) fn attr_end(t: &[char], i: usize) -> (r: usize)
    requires
        i <= t@.len(),
    ensures
        r == scan_attr_end(t@, i as int),
        i <= r <= t@.len(),
{
    let mut j = i;
    while j < t.len() && t[j] != '=' && !ascii_ws(t[j])
        invariant
            i <= j <= t@.len(),
            scan_attr_end(t@, i as int) == scan_attr_end(t@, j as int),
        decreases t@.len() - j,
    {
        j = j + 1;
    }
    j
}

/// The element's "id" attribute, scanned ahead of the main attribute loop.
/// `from` points just past the element name.
fn tag_id_attribute(t: &[char], from: usize) -> (r: Option<Vec<char>>)
    requires
        1 <= from <= t@.len(),
    ensures
        r matches Some(v) ==> tag_id(t@, from as int) == Some(v@),
        r is None ==> tag_id(t@, from as int) is None,
{
    let mut i = from;
    let id_eq: [char; 3] = ['i', 'd', '='];
    while i < t.len() && t[i] != '>'
        invariant
            1 <= from <= i,
            tag_id(t@, from as int) == tag_id(t@, i as int),
            id_eq@ == seq!['i', 'd', '='],
        decreases t@.len() - i,
    {
        if t[i] == '"' || t[i] == '\'' {
            let close = to_char(t, i + 1, t[i]);
            if close >= t.len() {
                return None;
            }
            i = close + 1;
        } else if chars_at(t, &id_eq, i) && ascii_ws(t[i - 1]) {
            if i + 3 >= t.len() {
                return None;
            }
            let quote: [char; 1] = [t[i + 3]];
            assert(quote@ == seq![t@[i + 3]]);
            match find_chars(t, &quote, i + 4) {
                Some(e) => {
                    proof {
                        crate::text::lemma_first_occurrence(t@, quote@, i + 4);
                    }
                    return Some(char_range(t, i + 4, e));
                },
                None => {
                    return None;
                },
            }
        } else {
            i = i + 1;
        }
    }
    None
}

/// Whether the "id" scan from `from` breaks off (see `tag_scan_breaks`).
fn id_scan_breaks(t: &[char], from: usize) -> (r: bool)
    requires
        1 <= from <= t@.len(),
    ensures
        r == tag_scan_breaks(t@, from as int),
{
    let mut i = from;
    let id_eq: [char; 3] = ['i', 'd', '='];
    while i < t.len() && t[i] != '>'
        invariant
            1 <= from <= i <= t@.len(),
            tag_scan_breaks(t@, from as int) == tag_scan_breaks(t@, i as int),
            id_eq@ == seq!['i', 'd', '='],
        decreases t@.len() - i,
    {
        if t[i] == '"' || t[i] == '\'' {
            let close = to_char(t, i + 1, t[i]);
            if close >= t.len() {
                return false;
            }
            i = close + 1;
        } else if chars_at(t, &id_eq, i) && ascii_ws(t[i - 1]) {
            return t.len() - i > 3 && (t[i + 3] as u32) >= 0x80;
        } else if (t[i] as u32) >= 0x80 {
            return true;
        } else {
            i = i + 1;
        }
    }
    false
}

/// Where the attributes of the start tag from `start` on end (see
/// `attrs_end`).
fn tag_attrs_end(t: &[char], start: usize) -> (r: Option<usize>)
    requires
        start <= t@.len(),
    ensures
        match r {
            None => attrs_end(t@, start as int) is None,
            Some(e) => attrs_end(t@, start as int) == Some(e as int) && start < e <= t@.len(),
        },
{
    let mut i = start;
    let gt: [char; 1] = ['>'];
    loop
        invariant
            start <= i <= t@.len(),
            gt@ == seq!['>'],
            attrs_end(t@, start as int) == attrs_end(t@, i as int),
        decreases t@.len() - i,
    {
        let k = past_ws(t, i);
        if k >= t.len() {
            return None;
        }
        if t[k] == '/' {
            match find_chars(t, &gt, k) {
                None => {
                    return None;
                },
                Some(m) => {
                    proof {
                        crate::text::lemma_first_occurrence(t@, gt@, k as int);
                    }
                    return Some(m + 1);
                },
            }
        }
        if t[k] == '>' {
            return Some(k + 1);
        }
        let a_end = attr_end(t, k);
        if a_end >= t.len() || t[a_end] != '=' {
            return None;
        }
        if a_end + 1 >= t.len() || !(t[a_end + 1] == '"' || t[a_end + 1] == '\'') {
            return None;
        }
        let ve = to_char(t, a_end + 2, t[a_end + 1]);
        if ve >= t.len() {
            return None;
        }
        i = ve + 1;
    }
}

/// Whether the merge cannot walk this template XML (see `merge_breaks`):
/// the test to make before `merge` on text that nothing vouches for.
pub fn merge_would_break(template_xml: &str) -> (r: bool)
    ensures
        r == merge_breaks(template_xml@),
{
    let t = chars_of(template_xml);
    let mut i: usize = 0;
    let decl: [char; 2] = ['<', '?'];
    let decl_end: [char; 2] = ['?', '>'];
    let close: [char; 2] = ['<', '/'];
    let gt: [char; 1] = ['>'];
    while i < t.len()
        invariant
            i <= t@.len(),
            t@ == template_xml@,
            decl@ == seq!['<', '?'],
            decl_end@ == seq!['?', '>'],
            close@ == seq!['<', '/'],
            gt@ == seq!['>'],
            merge_breaks(template_xml@) == merge_breaks_from(t@, i as int),
        decreases t@.len() - i,
    {
        if t[i] != '<' {
            i = to_char(&t, i, '<');
            continue;
        }
        if chars_at(&t, &decl, i) {
            match find_chars(&t, &decl_end, i) {
                None => {
                    return false;
                },
                Some(k) => {
                    proof {
                        crate::text::lemma_first_occurrence(t@, decl_end@, i as int);
                    }
                    i = k + 2;
                    continue;
                },
            }
        }
        if chars_at(&t, &close, i) {
            match find_chars(&t, &gt, i) {
                None => {
                    return false;
                },
                Some(k) => {
                    proof {
                        crate::text::lemma_first_occurrence(t@, gt@, i as int);
                    }
                    i = k + 1;
                    continue;
                },
            }
        }
        let j = name_end(&t, i + 1);
        if id_scan_breaks(&t, j) {
            return true;
        }
        match tag_attrs_end(&t, j) {
            None => {
                return false;
            },
            Some(e) => {
                i = e;
            },
        }
    }
    false
}

/// The plain content of optional text.
pub open spec fn opt_chars(o: Option<Vec<char>>) -> Option<Seq<char>> {
    match o {
        Some(v) => Some(v@),
        None => None,
    }
}

/// Whether `c` has an "id" property whose text is `id`.
fn child_has_id(c: &Node, id: &[char], floats: &FloatTexts) -> (r: bool)
    ensures
        r == has_id(c@, id@, floats@),
{
    match c.prop("id") {
        Some(v) => {
            proof {
                reveal_strlit("id");
                assert("id"@ =~= seq!['i', 'd']);
            }
            let text = v.text_chars(floats);
            chars_eq(&text, id)
        },
        None => {
            proof {
                reveal_strlit("id");
                assert("id"@ =~= seq!['i', 'd']);
            }
            false
        },
    }
}

/// The child of `parent` that a template element named `name` matches: by
/// id when the element has one, otherwise by ordinal among same-named
/// siblings.
pub(crate) fn match_child_exec<'a>(
    parent: &'a Node,
    name: &[char],
    id: &Option<Vec<char>>,
    ordinal: usize,
    floats: &FloatTexts,
) -> (r: Option<&'a Node>)
    ensures
        r matches Some(n) ==> match_child(
            parent@,
            name@,
            opt_chars(*id),
            ordinal as nat,
            floats@,
        ) == Some(n@),
        r is None ==> match_child(
            parent@,
            name@,
            opt_chars(*id),
            ordinal as nat,
            floats@,
        ) is None,
{
    let ghost idm = opt_chars(*id);
    let mut k: usize = 0;
    let mut remaining = ordinal;
    while k < parent.children.len()
        invariant
            k <= parent.children@.len(),
            parent@.children.len() == parent.children@.len(),
            match_child(parent@, name@, idm, ordinal as nat, floats@) == match_child_from(
                parent@.children,
                name@,
                idm,
                remaining as nat,
                floats@,
                k as int,
            ),
            idm == opt_chars(*id),
        decreases parent.children@.len() - k,
    {
        let c = &parent.children[k];
        assert(parent@.children[k as int] == c@);
        let cname = chars_of(c.name.as_str());
        if chars_eq(&cname, name) {
            match id {
                Some(x) => {
                    if child_has_id(c, x.as_slice(), floats) {
                        return Some(c);
                    }
                },
                None => {
                    if remaining == 0 {
                        return Some(c);
                    }
                    remaining = remaining - 1;
                },
            }
        }
        k = k + 1;
    }
    None
}

/// Appends the escaped form of `s` to `out`.
fn push_escaped(out: &mut Vec<char>, s: &[char])
    ensures
        final(out)@ == old(out)@ + escape(s@),
{
    let ghost start = out@;
    let mut i: usize = 0;
    assert(s@.subrange(0, s@.len() as int) =~= s@);
    while i < s.len()
        invariant
            i <= s@.len(),
            out@ + escape(s@.subrange(i as int, s@.len() as int)) == start + escape(s@),
        decreases s@.len() - i,
    {
        let ghost rest = s@.subrange(i as int, s@.len() as int);
        let ghost before = out@;
        assert(rest.drop_first() =~= s@.subrange(i + 1, s@.len() as int));
        assert(rest[0] == s@[i as int]);
        let c = s[i];
        if c == '&' {
            out.push('&'); out.push('a'); out.push('m'); out.push('p'); out.push(';');
        } else if c == '<' {
            out.push('&'); out.push('l'); out.push('t'); out.push(';');
        } else if c == '>' {
            out.push('&'); out.push('g'); out.push('t'); out.push(';');
        } else if c == '"' {
            out.push('&'); out.push('q'); out.push('u'); out.push('o'); out.push('t'); out.push(';');
        } else {
            out.push(c);
        }
        assert(out@ =~= before + escape_char(c));
        assert(out@ + escape(rest.drop_first()) =~= before + escape(rest));
        i = i + 1;
    }
    assert(s@.subrange(i as int, s@.len() as int) =~= Seq::<char>::empty());
    assert(out@ =~= out@ + escape(Seq::<char>::empty()));
}

/// The escaped form of a value's text, for an XML attribute.
pub fn escape_attr(s: &str) -> (r: String)
    ensures
        r@ == escape(s@),
{
    let c = chars_of(s);
    let mut out: Vec<char> = Vec::new();
    push_escaped(&mut out, &c);
    assert(out@ =~= escape(s@));
    string_of(&out)
}


// ---------------------------------------------------------------------------
// The merge
// ---------------------------------------------------------------------------

/// One open element: its matched preset node plus how many same-named
/// children have been seen, so repeated elements (JUCE's PARAM nodes) can be
/// matched by their "id" attribute or by ordinal, never collapsed onto the
/// first namesake.
struct Frame<'a> {
    vt: Option<&'a Node>,
    seen: Vec<(Vec<char>, usize)>,
}

/// The plain content of a table of seen counts.
pub open spec fn seen_view(s: Seq<(Vec<char>, usize)>) -> Seq<(Seq<char>, nat)> {
    Seq::new(s.len(), |k: int| (s[k].0@, s[k].1 as nat))
}

/// The plain content of an optional node reference.
pub open spec fn opt_node_view(n: Option<&Node>) -> Option<NodeModel> {
    match n {
        Some(x) => Some(x@),
        None => None,
    }
}

spec fn frame_view(f: Frame) -> FrameModel {
    FrameModel { vt: opt_node_view(f.vt), seen: seen_view(f.seen@) }
}

spec fn stack_view(s: Seq<Frame>) -> Seq<FrameModel> {
    Seq::new(s.len(), |k: int| frame_view(s[k]))
}

spec fn counts_within(stack: Seq<Frame>, bound: int) -> bool {
    forall|f: int, e: int|
        0 <= f < stack.len() && 0 <= e < stack[f].seen@.len() ==> #[trigger] stack[f].seen@[e].1
            <= bound
}

/// Counts one more child named `name` and returns how many were seen before.
pub(crate) fn bump(seen: &mut Vec<(Vec<char>, usize)>, name: &[char], bound: usize) -> (ordinal: usize)
    requires
        forall|e: int| 0 <= e < old(seen)@.len() ==> #[trigger] old(seen)@[e].1 <= bound,
        bound < usize::MAX,
    ensures
        ordinal == seen_count(seen_view(old(seen)@), name@),
        seen_view(final(seen)@) == seen_bump(seen_view(old(seen)@), name@),
        forall|e: int| 0 <= e < final(seen)@.len() ==> #[trigger] final(seen)@[e].1 <= bound + 1,
{
    let ghost sv = seen_view(seen@);
    let mut k: usize = 0;
    while k < seen.len()
        invariant
            k <= seen@.len(),
            seen@ == old(seen)@,
            bound < usize::MAX,
            forall|e: int| 0 <= e < old(seen)@.len() ==> #[trigger] old(seen)@[e].1 <= bound,
            sv == seen_view(seen@),
            seen_index_from(sv, name@, 0) == seen_index_from(sv, name@, k as int),
        decreases seen@.len() - k,
    {
        assert(sv[k as int] == (seen@[k as int].0@, seen@[k as int].1 as nat));
        if chars_eq(seen[k].0.as_slice(), name) {
            let c = seen[k].1;
            assert(c <= bound);
            let ghost before = seen@;
            seen.set(k, (vstd::slice::slice_to_vec(name), c + 1));
            assert(seen_view(seen@) =~= sv.update(k as int, (name@, sv[k as int].1 + 1)));
            assert forall|e: int| 0 <= e < seen@.len() implies #[trigger] seen@[e].1 <= bound + 1 by {
                if e != k {
                    assert(seen@[e] == before[e]);
                }
            }
            return c;
        }
        k = k + 1;
    }
    let ghost before = seen@;
    seen.push((vstd::slice::slice_to_vec(name), 1));
    assert(seen_view(seen@) =~= sv.push((name@, 1)));
    assert forall|e: int| 0 <= e < seen@.len() implies #[trigger] seen@[e].1 <= bound + 1 by {
        if e < before.len() {
            assert(seen@[e] == before[e]);
        }
    }
    0
}

/// The attributes of one start tag, from `start` up to and including the
/// tag's end. Returns the position after the tag and whether the element
/// stays open.
fn merge_tag_attrs(
    t: &[char],
    start: usize,
    vt: Option<&Node>,
    floats: &FloatTexts,
    out: &mut Vec<char>,
    overridden: &mut usize,
    kept: &mut usize,
) -> (r: Result<(usize, bool)>)
    requires
        start <= t@.len(),
        *old(overridden) + *old(kept) <= start,
    ensures
        match merge_attrs(
            t@,
            start as int,
            opt_node_view(vt),
            floats@,
            old(out)@,
            (*old(overridden) as nat, *old(kept) as nat),
        ) {
            None => r is Err,
            Some((end, o, st, open)) => {
                &&& r matches Ok((e, op))
                &&& e == end
                &&& op == open
                &&& final(out)@ == o
                &&& *final(overridden) == st.0
                &&& *final(kept) == st.1
                &&& st.0 + st.1 <= end <= t@.len()
                &&& end > start
            },
        },
        r matches Err(e) ==> e.0@ == attrs_error(
            t@,
            start as int,
            opt_node_view(vt),
            floats@,
            old(out)@,
            (*old(overridden) as nat, *old(kept) as nat),
        ),
{
    let ghost vtv = opt_node_view(vt);
    let ghost want = merge_attrs(
        t@,
        start as int,
        vtv,
        floats@,
        out@,
        (*overridden as nat, *kept as nat),
    );
    let ghost ewant = attrs_error(
        t@,
        start as int,
        vtv,
        floats@,
        out@,
        (*overridden as nat, *kept as nat),
    );
    let mut i = start;
    let gt: [char; 1] = ['>'];
    loop
        invariant
            start <= i <= t@.len(),
            *overridden + *kept <= i,
            gt@ == seq!['>'],
            vtv == opt_node_view(vt),
            want == merge_attrs(
                t@,
                start as int,
                opt_node_view(vt),
                floats@,
                old(out)@,
                (*old(overridden) as nat, *old(kept) as nat),
            ),
            want == merge_attrs(t@, i as int, vtv, floats@, out@, (*overridden as nat, *kept as nat)),
            ewant == attrs_error(
                t@,
                start as int,
                opt_node_view(vt),
                floats@,
                old(out)@,
                (*old(overridden) as nat, *old(kept) as nat),
            ),
            ewant == attrs_error(t@, i as int, vtv, floats@, out@, (*overridden as nat, *kept as nat)),
        decreases t@.len() - i,
    {
        let k = past_ws(t, i);
        push_chars(out, t, i, k);
        if k >= t.len() {
            return err("unterminated tag in template XML");
        }
        if t[k] == '/' {
            match find_chars(t, &gt, k) {
                None => {
                    return err("unterminated tag in template XML");
                },
                Some(m) => {
                    proof {
                        crate::text::lemma_first_occurrence(t@, gt@, k as int);
                    }
                    push_chars(out, t, k, m + 1);
                    proof {
                        lemma_merge_attrs_end(t@, start as int, vtv, floats@, old(out)@, (*old(overridden) as nat, *old(kept) as nat));
                    }
                    return Ok((m + 1, false));
                },
            }
        }
        if t[k] == '>' {
            out.push('>');
            proof {
                lemma_merge_attrs_end(t@, start as int, vtv, floats@, old(out)@, (*old(overridden) as nat, *old(kept) as nat));
            }
            return Ok((k + 1, true));
        }
        let a_end = attr_end(t, k);
        if a_end >= t.len() || t[a_end] != '=' {
            let attr = char_range(t, k, a_end);
            return Err(crate::Error(crate::text::message_with(
                "malformed attribute '",
                &attr,
                "' in template XML",
            )));
        }
        if a_end + 1 >= t.len() || !(t[a_end + 1] == '"' || t[a_end + 1] == '\'') {
            let attr = char_range(t, k, a_end);
            return Err(crate::Error(crate::text::message_with(
                "unquoted value for attribute '",
                &attr,
                "' in template XML",
            )));
        }
        let quote = t[a_end + 1];
        let vs = a_end + 2;
        let ve = to_char(t, vs, quote);
        let attr = char_range(t, k, a_end);
        let ghost out1 = out@;
        if ve >= t.len() {
            return Err(crate::Error(crate::text::message_with(
                "unterminated value for attribute '",
                &attr,
                "' in template XML",
            )));
        }
        push_all_chars(out, &attr);
        out.push('=');
        out.push(quote);
        let attr_name = string_of(&attr);
        let found = match vt {
            Some(n) => n.prop(attr_name.as_str()),
            None => None,
        };
        match found {
            Some(v) => {
                let text = v.text_chars(floats);
                push_escaped(out, &text);
                *overridden = *overridden + 1;
            },
            None => {
                push_chars(out, t, vs, ve);
                *kept = *kept + 1;
            },
        }
        out.push(quote);
        proof {
            let value = match opt_node_view(vt) {
                Some(n) => match prop_of(n, attr@) {
                    Some(v) => escape(value_text(v, floats@)),
                    None => t@.subrange(vs as int, ve as int),
                },
                None => t@.subrange(vs as int, ve as int),
            };
            assert(out@ =~= out1 + attr@ + seq!['=', quote] + value + seq![quote]);
        }
        i = ve + 1;
    }
}

/// Overlay the preset tree's values onto the template XML. Returns the
/// merged XML and how many attribute values were replaced and kept. The
/// template must be one whose tags the walk can pass (see `merge_breaks`;
/// `merge_would_break` tells).
pub fn merge(template_xml: &str, vt_root: &Node, floats: &FloatTexts) -> (r: Result<(String, MergeStats)>)
    requires
        !merge_breaks(template_xml@),
    ensures
        match merge_spec(template_xml@, vt_root@, floats@) {
            None => r is Err,
            Some((o, st)) => r matches Ok((s, ms)) && s@ == o && ms.overridden == st.0
                && ms.template_only == st.1,
        },
        r matches Err(e) ==> e.0@ == merge_error(template_xml@, vt_root@, floats@),
{
    let t = chars_of(template_xml);
    let mut out: Vec<char> = Vec::new();
    let mut stack: Vec<Frame> = Vec::new();
    let mut overridden: usize = 0;
    let mut kept: usize = 0;
    let mut i: usize = 0;
    let decl: [char; 2] = ['<', '?'];
    let decl_end: [char; 2] = ['?', '>'];
    let close: [char; 2] = ['<', '/'];
    let gt: [char; 1] = ['>'];
    let ghost want = merge_spec(template_xml@, vt_root@, floats@);
    let ghost ewant = merge_error(template_xml@, vt_root@, floats@);
    assert(stack_view(stack@) =~= Seq::<FrameModel>::empty());
    while i < t.len()
        invariant
            i <= t@.len(),
            t@ == template_xml@,
            overridden + kept <= i,
            counts_within(stack@, i as int),
            decl@ == seq!['<', '?'],
            decl_end@ == seq!['?', '>'],
            close@ == seq!['<', '/'],
            gt@ == seq!['>'],
            want == merge_spec(template_xml@, vt_root@, floats@),
            want == merge_from(
                t@,
                vt_root@,
                floats@,
                i as int,
                out@,
                stack_view(stack@),
                (overridden as nat, kept as nat),
            ),
            ewant == merge_error(template_xml@, vt_root@, floats@),
            ewant == merge_error_from(
                t@,
                vt_root@,
                floats@,
                i as int,
                out@,
                stack_view(stack@),
                (overridden as nat, kept as nat),
            ),
        decreases t@.len() - i,
    {
        if t[i] != '<' {
            let j = to_char(&t, i, '<');
            push_chars(&mut out, &t, i, j);
            i = j;
            continue;
        }
        if chars_at(&t, &decl, i) {
            match find_chars(&t, &decl_end, i) {
                None => {
                    return err("unterminated XML declaration in template");
                },
                Some(k) => {
                    proof {
                        crate::text::lemma_first_occurrence(t@, decl_end@, i as int);
                    }
                    push_chars(&mut out, &t, i, k + 2);
                    i = k + 2;
                    continue;
                },
            }
        }
        if chars_at(&t, &close, i) {
            match find_chars(&t, &gt, i) {
                None => {
                    return err("unterminated closing tag in template XML");
                },
                Some(k) => {
                    proof {
                        crate::text::lemma_first_occurrence(t@, gt@, i as int);
                    }
                    push_chars(&mut out, &t, i, k + 1);
                    let ghost before = stack@;
                    if stack.len() > 0 {
                        let _ = stack.pop();
                        assert(stack_view(stack@) =~= stack_view(before).drop_last());
                    }
                    i = k + 1;
                    continue;
                },
            }
        }
        // Start tag: element name, then attributes until '>' or '/>'.
        let j = name_end(&t, i + 1);
        let name = char_range(&t, i + 1, j);
        let id = tag_id_attribute(&t, j);
        let ghost idm = opt_chars(id);
        assert(idm == tag_id(t@, j as int));
        let ghost sv = stack_view(stack@);
        let vt: Option<&Node> = if stack.len() == 0 {
            let name_str = string_of(&name);
            find_node(vt_root, name_str.as_str())
        } else {
            let mut top = stack.pop().unwrap();
            assert(frame_view(top) == sv.last());
            assert forall|e: int| 0 <= e < top.seen@.len() implies #[trigger] top.seen@[e].1
                <= i by {
                assert(top.seen@[e].1 == stack@.push(top)[stack@.len() as int].seen@[e].1);
            }
            let ordinal = bump(&mut top.seen, &name, i);
            let matched = match top.vt {
                Some(parent) => match_child_exec(parent, &name, &id, ordinal, floats),
                None => None,
            };
            let ghost before = stack@;
            stack.push(top);
            assert(stack_view(stack@) =~= sv.update(
                sv.len() - 1,
                FrameModel { vt: sv.last().vt, seen: seen_bump(sv.last().seen, name@) },
            ));
            assert forall|f: int, e: int|
                0 <= f < stack@.len() && 0 <= e < stack@[f].seen@.len() implies #[trigger] stack@[f].seen@[e].1
                <= i + 1 by {
                if f < before.len() {
                    assert(stack@[f] == before[f]);
                }
            }
            matched
        };
        push_chars(&mut out, &t, i, j);
        match merge_tag_attrs(&t, j, vt, floats, &mut out, &mut overridden, &mut kept) {
            Err(e) => {
                return Err(e);
            },
            Ok((end, open)) => {
                if open {
                    let ghost before = stack@;
                    let fresh = Frame { vt, seen: Vec::new() };
                    assert(frame_view(fresh).seen =~= Seq::<(Seq<char>, nat)>::empty());
                    stack.push(fresh);
                    assert(stack_view(stack@) =~= stack_view(before).push(
                        FrameModel { vt: opt_node_view(vt), seen: Seq::empty() },
                    ));
                    assert forall|f: int, e: int|
                        0 <= f < stack@.len() && 0 <= e < stack@[f].seen@.len() implies #[trigger] stack@[f].seen@[e].1
                        <= end by {
                        if f < before.len() {
                            assert(stack@[f] == before[f]);
                        }
                    }
                }
                i = end;
            },
        }
    }
    let text = string_of(&out);
    Ok((text, MergeStats { overridden, template_only: kept }))
}

} // verus!
