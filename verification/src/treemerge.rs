//! Overlay parameter values from a parsed preset file onto a template
//! plugin state that is itself a JUCE ValueTree (older JUCE plugins, e.g.
//! Archetype Gojira).
//!
//! Mirrors xmlmerge: the template tree provides the complete structure and
//! defaults; only values whose property exists on the matching source node
//! are replaced. Children are matched by their "id" property when they have
//! one — JUCE's AudioProcessorValueTreeState stores every parameter as a
//! node called PARAM distinguished only by id — and otherwise by ordinal
//! position among same-named siblings, which keeps repeated nodes like
//! Gojira's two "cabsim" entries paired up correctly.

use vstd::prelude::*;
use crate::floats::{parsed_bits, FloatTexts, FloatTextsModel};
use crate::text::{chars_of, integer_of, message_with, parse_integer};
use crate::valuetree::{
    children_at, cint_at, count_at, cstr_at, node_at, props_at, var_at, zero_from,
    copy_node, copy_value, find_in, find_node, lemma_children_view, node_bytes, nodes_view, prop_of,
    props_view, value_text, Node, NodeModel, Value, ValueModel,
};
use crate::xmlmerge::{
    bump, has_id, match_child, match_child_exec, match_child_from, seen_bump, seen_count,
    seen_index_from, seen_view, MergeStats,
};
use crate::{Error, Result};

verus! {

// ---------------------------------------------------------------------------
// Specification
// ---------------------------------------------------------------------------

/// The source value converted to the template value's type; the template
/// value when the conversion fails.
pub open spec fn coerce_spec(t: ValueModel, s: ValueModel, fl: FloatTextsModel) -> ValueModel {
    let text = value_text(s, fl);
    match (t, s) {
        (ValueModel::Int(_), ValueModel::Int(_)) => s,
        (ValueModel::Int64(_), ValueModel::Int64(_)) => s,
        (ValueModel::Double(_), ValueModel::Double(_)) => s,
        (ValueModel::Bool(_), ValueModel::Bool(_)) => s,
        (ValueModel::Str(_), ValueModel::Str(_)) => s,
        (ValueModel::Str(_), _) => ValueModel::Str(text),
        (ValueModel::Int(x), _) => match integer_of(text) {
            Some(v) => if -0x8000_0000 <= v < 0x8000_0000 {
                ValueModel::Int(v as i32)
            } else {
                t
            },
            None => t,
        },
        (ValueModel::Int64(x), _) => match integer_of(text) {
            Some(v) => if -0x8000_0000_0000_0000 <= v < 0x8000_0000_0000_0000 {
                ValueModel::Int64(v as i64)
            } else {
                t
            },
            None => t,
        },
        (ValueModel::Double(x), _) => match parsed_bits(fl, text) {
            Some(b) => ValueModel::Double(b),
            None => t,
        },
        (ValueModel::Bool(x), _) => if text == seq!['t', 'r', 'u', 'e'] || text == seq!['1'] {
            ValueModel::Bool(true)
        } else if text == seq!['f', 'a', 'l', 's', 'e'] || text == seq!['0'] {
            ValueModel::Bool(false)
        } else {
            t
        },
        _ => t,
    }
}

/// Coercing onto a bool: a value of another kind whose text is "true" or
/// "1" sets the bool, "false" or "0" clears it, and any other text keeps
/// the template's bool; a bool source is taken as it is.
pub proof fn lemma_coerce_bool(x: bool, s: ValueModel, fl: FloatTextsModel)
    ensures
        s matches ValueModel::Bool(b) ==> coerce_spec(ValueModel::Bool(x), s, fl) == ValueModel::Bool(b),
        !(s is Bool) && (value_text(s, fl) == seq!['t', 'r', 'u', 'e'] || value_text(s, fl) == seq!['1'])
            ==> coerce_spec(ValueModel::Bool(x), s, fl) == ValueModel::Bool(true),
        !(s is Bool) && (value_text(s, fl) == seq!['f', 'a', 'l', 's', 'e'] || value_text(s, fl) == seq![
            '0',
        ]) ==> coerce_spec(ValueModel::Bool(x), s, fl) == ValueModel::Bool(false),
        !(s is Bool) && value_text(s, fl) != seq!['t', 'r', 'u', 'e'] && value_text(s, fl) != seq!['1']
            && value_text(s, fl) != seq!['f', 'a', 'l', 's', 'e'] && value_text(s, fl) != seq!['0']
            ==> coerce_spec(ValueModel::Bool(x), s, fl) == ValueModel::Bool(x),
{
}

/// Coercing onto text: a value of another kind becomes its text; a text
/// source is taken as it is.
pub proof fn lemma_coerce_text(x: Seq<char>, s: ValueModel, fl: FloatTextsModel)
    ensures
        s is Str ==> coerce_spec(ValueModel::Str(x), s, fl) == s,
        !(s is Str) ==> coerce_spec(ValueModel::Str(x), s, fl) == ValueModel::Str(value_text(s, fl)),
{
}

/// Coercing onto a number: a value of another kind whose text reads as an
/// integer that fits becomes that integer (as a decimal text of a double
/// becomes that double); text that does not read, or does not fit, keeps
/// the template's number. A source of the same kind is taken as it is.
pub proof fn lemma_coerce_number(x: i32, y: i64, bits: u64, s: ValueModel, fl: FloatTextsModel)
    ensures
        s is Int ==> coerce_spec(ValueModel::Int(x), s, fl) == s,
        s is Int64 ==> coerce_spec(ValueModel::Int64(y), s, fl) == s,
        s is Double ==> coerce_spec(ValueModel::Double(bits), s, fl) == s,
        !(s is Int) ==> coerce_spec(ValueModel::Int(x), s, fl) == (match integer_of(value_text(s, fl)) {
            Some(v) => if i32::MIN <= v <= i32::MAX {
                ValueModel::Int(v as i32)
            } else {
                ValueModel::Int(x)
            },
            None => ValueModel::Int(x),
        }),
        !(s is Int64) ==> coerce_spec(ValueModel::Int64(y), s, fl) == (match integer_of(
            value_text(s, fl),
        ) {
            Some(v) => if i64::MIN <= v <= i64::MAX {
                ValueModel::Int64(v as i64)
            } else {
                ValueModel::Int64(y)
            },
            None => ValueModel::Int64(y),
        }),
        !(s is Double) ==> coerce_spec(ValueModel::Double(bits), s, fl) == (match parsed_bits(
            fl,
            value_text(s, fl),
        ) {
            Some(b) => ValueModel::Double(b),
            None => ValueModel::Double(bits),
        }),
{
}

/// The id text a template child is matched by, if it has an "id".
pub open spec fn template_id(c: NodeModel, fl: FloatTextsModel) -> Option<Seq<char>> {
    match prop_of(c, seq!['i', 'd']) {
        Some(v) => Some(value_text(v, fl)),
        None => None,
    }
}

/// Template properties with the source's values where the source has the
/// property, and how many were replaced and kept.
pub open spec fn overlay_props(
    tp: Seq<(Seq<char>, ValueModel)>,
    s: NodeModel,
    fl: FloatTextsModel,
) -> (Seq<(Seq<char>, ValueModel)>, nat, nat)
    decreases tp.len(),
{
    if tp.len() == 0 {
        (Seq::empty(), 0, 0)
    } else {
        let (name, tv) = tp[0];
        let (rest, o, k) = overlay_props(tp.drop_first(), s, fl);
        match prop_of(s, name) {
            Some(sv) => (seq![(name, coerce_spec(tv, sv, fl))] + rest, o + 1, k),
            None => (seq![(name, tv)] + rest, o, k + 1),
        }
    }
}

/// A template tree with values overlaid from the matching source tree, and
/// how many properties were replaced and kept.
pub open spec fn overlay_node(t: NodeModel, s: NodeModel, fl: FloatTextsModel) -> (NodeModel, nat, nat)
    decreases t, 1nat,
{
    let (ps, o1, k1) = overlay_props(t.props, s, fl);
    let (cs, o2, k2) = overlay_children(t.children, s, fl, Seq::empty());
    (NodeModel { name: t.name, props: ps, children: cs }, o1 + o2, k1 + k2)
}

/// Template children overlaid from their matches among the source's
/// children, with `seen` counting the same-named children before them.
pub open spec fn overlay_children(
    tc: Seq<NodeModel>,
    s: NodeModel,
    fl: FloatTextsModel,
    seen: Seq<(Seq<char>, nat)>,
) -> (Seq<NodeModel>, nat, nat)
    decreases tc, 0nat,
{
    if tc.len() == 0 {
        (Seq::empty(), 0, 0)
    } else {
        let c = tc[0];
        let m = match_child(s, c.name, template_id(c, fl), seen_count(seen, c.name), fl);
        let (nc, o1, k1) = match m {
            Some(sc) => overlay_node(c, sc, fl),
            None => (c, 0, 0),
        };
        let (rest, o2, k2) = overlay_children(
            tc.subrange(1, tc.len() as int),
            s,
            fl,
            seen_bump(seen, c.name),
        );
        (seq![nc] + rest, o1 + o2, k1 + k2)
    }
}

/// How many properties a tree holds in all.
pub open spec fn prop_count(n: NodeModel) -> nat
    decreases n, 1nat,
{
    n.props.len() + children_prop_count(n.children)
}

/// How many properties a list of trees holds in all.
pub open spec fn children_prop_count(cs: Seq<NodeModel>) -> nat
    decreases cs, 0nat,
{
    if cs.len() == 0 {
        0
    } else {
        prop_count(cs[0]) + children_prop_count(cs.subrange(1, cs.len() as int))
    }
}

/// The merged state's bytes and the counts, or None when the source holds
/// no node named like the template's root.
pub open spec fn merge_spec(t: NodeModel, s: NodeModel, fl: FloatTextsModel) -> Option<(Seq<u8>, nat, nat)> {
    match find_in(s, t.name) {
        Some(m) => {
            let (n, o, k) = overlay_node(t, m, fl);
            Some((node_bytes(n), o, k))
        },
        None => None,
    }
}

// ---------------------------------------------------------------------------
// Counting
// ---------------------------------------------------------------------------

proof fn lemma_overlay_props_counts(tp: Seq<(Seq<char>, ValueModel)>, s: NodeModel, fl: FloatTextsModel)
    ensures
        overlay_props(tp, s, fl).1 + overlay_props(tp, s, fl).2 == tp.len(),
        overlay_props(tp, s, fl).0.len() == tp.len(),
        forall|i: int|
            0 <= i < tp.len() ==> (#[trigger] overlay_props(tp, s, fl).0[i]).0 == tp[i].0,
    decreases tp.len(),
{
    if tp.len() > 0 {
        lemma_overlay_props_counts(tp.drop_first(), s, fl);
        let r = overlay_props(tp, s, fl).0;
        assert forall|i: int| 0 <= i < tp.len() implies (#[trigger] r[i]).0 == tp[i].0 by {
            if i > 0 {
                assert(r[i] == overlay_props(tp.drop_first(), s, fl).0[i - 1]);
            }
        }
    }
}

proof fn lemma_overlay_counts(t: NodeModel, s: NodeModel, fl: FloatTextsModel)
    ensures
        overlay_node(t, s, fl).1 + overlay_node(t, s, fl).2 <= prop_count(t),
    decreases t, 1nat,
{
    lemma_overlay_props_counts(t.props, s, fl);
    lemma_overlay_children_counts(t.children, s, fl, Seq::empty());
}

proof fn lemma_overlay_children_counts(
    tc: Seq<NodeModel>,
    s: NodeModel,
    fl: FloatTextsModel,
    seen: Seq<(Seq<char>, nat)>,
)
    ensures
        overlay_children(tc, s, fl, seen).1 + overlay_children(tc, s, fl, seen).2
            <= children_prop_count(tc),
    decreases tc, 0nat,
{
    if tc.len() > 0 {
        let c = tc[0];
        let m = match_child(s, c.name, template_id(c, fl), seen_count(seen, c.name), fl);
        match m {
            Some(sc) => lemma_overlay_counts(c, sc, fl),
            None => {},
        }
        lemma_overlay_children_counts(tc.subrange(1, tc.len() as int), s, fl, seen_bump(seen, c.name));
    }
}

// ---------------------------------------------------------------------------
// A parsed tree holds no more properties than it has bytes
// ---------------------------------------------------------------------------

proof fn lemma_zero_from_bounds(d: Seq<u8>, p: int)
    requires
        0 <= p,
    ensures
        p <= zero_from(d, p) || zero_from(d, p) == d.len(),
    decreases d.len() - p,
{
    if p < d.len() && d[p] != 0 {
        lemma_zero_from_bounds(d, p + 1);
    }
}

proof fn lemma_props_at_size(d: Seq<u8>, p: int, k: nat)
    requires
        0 <= p,
        props_at(d, p, k) is Some,
    ensures
        props_at(d, p, k).unwrap().0.len() == k,
        p + 2 * k <= props_at(d, p, k).unwrap().1,
    decreases k,
{
    if k > 0 {
        lemma_zero_from_bounds(d, p);
        let (raw, p1) = cstr_at(d, p).unwrap();
        let (v, p2) = var_at(d, p1).unwrap();
        lemma_props_at_size(d, p2, (k - 1) as nat);
    }
}

proof fn lemma_node_at_size(d: Seq<u8>, p: int, depth: int)
    requires
        0 <= p,
        node_at(d, p, depth) is Some,
    ensures
        p + prop_count(node_at(d, p, depth).unwrap().0) <= node_at(d, p, depth).unwrap().1,
    decreases 65 - depth, 1nat, 0nat,
{
    lemma_zero_from_bounds(d, p);
    let (raw, p1) = cstr_at(d, p).unwrap();
    let (np, p2) = count_at(d, p1).unwrap();
    lemma_props_at_size(d, p2, np);
    let (props, p3) = props_at(d, p2, np).unwrap();
    let (nc, p4) = count_at(d, p3).unwrap();
    lemma_children_at_size(d, p4, nc, depth);
}

proof fn lemma_children_at_size(d: Seq<u8>, p: int, k: nat, depth: int)
    requires
        0 <= p,
        children_at(d, p, k, depth) is Some,
    ensures
        p + children_prop_count(children_at(d, p, k, depth).unwrap().0) <= children_at(
            d,
            p,
            k,
            depth,
        ).unwrap().1,
    decreases 65 - depth, 0nat, k,
{
    if k > 0 {
        lemma_node_at_size(d, p, depth + 1);
        let (c, p1) = node_at(d, p, depth + 1).unwrap();
        lemma_children_at_size(d, p1, (k - 1) as nat, depth);
        let (rest, p2) = children_at(d, p1, (k - 1) as nat, depth).unwrap();
        let cs = seq![c] + rest;
        assert(cs[0] == c);
        assert(cs.subrange(1, cs.len() as int) =~= rest);
    } else {
        assert(children_prop_count(Seq::<NodeModel>::empty()) == 0);
    }
}

/// A tree read from bytes holds no more properties than the bytes it
/// occupied.
pub proof fn lemma_parsed_prop_count(d: Seq<u8>)
    requires
        node_at(d, 0, 0) is Some,
    ensures
        prop_count(node_at(d, 0, 0).unwrap().0) <= node_at(d, 0, 0).unwrap().1,
{
    lemma_node_at_size(d, 0, 0);
}

// ---------------------------------------------------------------------------
// The template's structure is kept
// ---------------------------------------------------------------------------

/// Two trees with the same names, the same property names in the same
/// order, and children of the same shape.
pub open spec fn same_shape(a: NodeModel, b: NodeModel) -> bool
    decreases b,
{
    &&& a.name == b.name
    &&& a.props.len() == b.props.len()
    &&& forall|i: int| 0 <= i < b.props.len() ==> #[trigger] a.props[i].0 == b.props[i].0
    &&& a.children.len() == b.children.len()
    &&& forall|i: int|
        0 <= i < b.children.len() ==> same_shape(a.children[i], #[trigger] b.children[i])
}

proof fn lemma_same_shape_refl(n: NodeModel)
    ensures
        same_shape(n, n),
    decreases n,
{
    assert forall|i: int| 0 <= i < n.children.len() implies same_shape(
        n.children[i],
        #[trigger] n.children[i],
    ) by {
        lemma_same_shape_refl(n.children[i]);
    }
}

proof fn lemma_overlay_children_shape(
    tc: Seq<NodeModel>,
    s: NodeModel,
    fl: FloatTextsModel,
    seen: Seq<(Seq<char>, nat)>,
)
    ensures
        overlay_children(tc, s, fl, seen).0.len() == tc.len(),
        forall|i: int|
            0 <= i < tc.len() ==> same_shape(
                overlay_children(tc, s, fl, seen).0[i],
                #[trigger] tc[i],
            ),
    decreases tc, 0nat,
{
    if tc.len() > 0 {
        let c = tc[0];
        let rest = tc.subrange(1, tc.len() as int);
        let m = match_child(s, c.name, template_id(c, fl), seen_count(seen, c.name), fl);
        match m {
            Some(sc) => lemma_overlay_shape(c, sc, fl),
            None => lemma_same_shape_refl(c),
        }
        lemma_overlay_children_shape(rest, s, fl, seen_bump(seen, c.name));
        let r = overlay_children(tc, s, fl, seen).0;
        assert forall|i: int| 0 <= i < tc.len() implies same_shape(r[i], #[trigger] tc[i]) by {
            if i > 0 {
                assert(r[i] == overlay_children(rest, s, fl, seen_bump(seen, c.name)).0[i - 1]);
                assert(tc[i] == rest[i - 1]);
            }
        }
    }
}

/// Overlaying a preset keeps the template's structure: every element, every
/// property name and their order stay as the template has them; only
/// values change.
pub proof fn lemma_overlay_shape(t: NodeModel, s: NodeModel, fl: FloatTextsModel)
    ensures
        same_shape(overlay_node(t, s, fl).0, t),
    decreases t, 1nat,
{
    lemma_overlay_props_counts(t.props, s, fl);
    lemma_overlay_children_shape(t.children, s, fl, Seq::empty());
}

// ---------------------------------------------------------------------------
// A tree overlaid onto itself
// ---------------------------------------------------------------------------

/// Every child finds itself when matched among its siblings: no earlier
/// sibling has its name and, where it has an id, that id.
pub open spec fn siblings_apart(cs: Seq<NodeModel>, fl: FloatTextsModel) -> bool {
    forall|i: int, j: int|
        #![trigger cs[i], cs[j]]
        0 <= i < j < cs.len() && cs[i].name == cs[j].name ==> match template_id(cs[j], fl) {
            Some(x) => !has_id(cs[i], x, fl),
            None => true,
        }
}

/// A tree that overlaying onto itself gives back: its property names are
/// distinct and its children find themselves, at every level.
pub open spec fn self_matching(n: NodeModel, fl: FloatTextsModel) -> bool
    decreases n,
{
    &&& forall|i: int, j: int|
        #![trigger n.props[i], n.props[j]]
        0 <= i < j < n.props.len() ==> n.props[i].0 != n.props[j].0
    &&& siblings_apart(n.children, fl)
    &&& forall|i: int| 0 <= i < n.children.len() ==> self_matching(#[trigger] n.children[i], fl)
}

/// How many of the first `k` trees are named `name`.
pub open spec fn count_named(cs: Seq<NodeModel>, name: Seq<char>, k: int) -> nat
    decreases k,
{
    if k <= 0 || k > cs.len() {
        0
    } else {
        count_named(cs, name, k - 1) + if cs[k - 1].name == name {
            1nat
        } else {
            0nat
        }
    }
}

/// The sibling counts after the first `k` trees.
pub open spec fn seen_after(cs: Seq<NodeModel>, k: int) -> Seq<(Seq<char>, nat)>
    decreases k,
{
    if k <= 0 || k > cs.len() {
        Seq::empty()
    } else {
        seen_bump(seen_after(cs, k - 1), cs[k - 1].name)
    }
}

proof fn lemma_seen_index_found(seen: Seq<(Seq<char>, nat)>, b: Seq<char>, i: int)
    ensures
        seen_index_from(seen, b, i) matches Some(k) ==> i <= k < seen.len() && seen[k].0 == b,
    decreases seen.len() - i,
{
    if 0 <= i < seen.len() && seen[i].0 != b {
        lemma_seen_index_found(seen, b, i + 1);
    }
}

proof fn lemma_seen_index_update(seen: Seq<(Seq<char>, nat)>, k: int, x: nat, b: Seq<char>, i: int)
    requires
        0 <= k < seen.len(),
    ensures
        seen_index_from(seen.update(k, (seen[k].0, x)), b, i) == seen_index_from(seen, b, i),
    decreases seen.len() - i,
{
    if 0 <= i < seen.len() {
        lemma_seen_index_update(seen, k, x, b, i + 1);
    }
}

proof fn lemma_seen_index_push(seen: Seq<(Seq<char>, nat)>, a: Seq<char>, b: Seq<char>, i: int)
    requires
        0 <= i <= seen.len(),
        seen_index_from(seen, a, i) is None,
    ensures
        seen_index_from(seen.push((a, 1)), b, i) == if b == a {
            if seen_index_from(seen, b, i) is Some {
                seen_index_from(seen, b, i)
            } else {
                Some(seen.len() as int)
            }
        } else {
            seen_index_from(seen, b, i)
        },
    decreases seen.len() - i,
{
    let p = seen.push((a, 1));
    if i < seen.len() {
        assert(p[i] == seen[i]);
        lemma_seen_index_push(seen, a, b, i + 1);
    } else {
        assert(p[i] == (a, 1nat));
        assert(seen_index_from(p, b, i + 1) is None);
        assert(seen_index_from(seen, b, i) is None);
    }
}

/// Bumping a name's count adds one to that name's count only.
proof fn lemma_seen_bump(seen: Seq<(Seq<char>, nat)>, a: Seq<char>, b: Seq<char>)
    ensures
        seen_count(seen_bump(seen, a), b) == seen_count(seen, b) + if a == b {
            1nat
        } else {
            0nat
        },
{
    lemma_seen_index_found(seen, a, 0);
    lemma_seen_index_found(seen, b, 0);
    match seen_index_from(seen, a, 0) {
        Some(k) => {
            lemma_seen_index_update(seen, k, seen[k].1 + 1, b, 0);
            let n = seen.update(k, (a, seen[k].1 + 1));
            assert(seen_bump(seen, a) == n);
            lemma_seen_index_found(n, b, 0);
        },
        None => {
            lemma_seen_index_push(seen, a, b, 0);
            let n = seen.push((a, 1));
            lemma_seen_index_found(n, b, 0);
        },
    }
}

pub(crate) proof fn lemma_seen_after(cs: Seq<NodeModel>, name: Seq<char>, k: int)
    requires
        0 <= k <= cs.len(),
    ensures
        seen_count(seen_after(cs, k), name) == count_named(cs, name, k),
    decreases k,
{
    if k > 0 {
        lemma_seen_after(cs, name, k - 1);
        lemma_seen_bump(seen_after(cs, k - 1), cs[k - 1].name, name);
    } else {
        assert(seen_count(Seq::empty(), name) == 0);
    }
}

proof fn lemma_count_named_mono(cs: Seq<NodeModel>, name: Seq<char>, k: int, i: int)
    requires
        0 <= k <= i <= cs.len(),
    ensures
        count_named(cs, name, k) <= count_named(cs, name, i),
    decreases i - k,
{
    if k < i {
        lemma_count_named_mono(cs, name, k, i - 1);
    }
}

/// Without an id, the child at `i` is the one at its ordinal among the
/// same-named children from `k` on.
pub(crate) proof fn lemma_match_by_ordinal(cs: Seq<NodeModel>, i: int, k: int, fl: FloatTextsModel)
    requires
        0 <= k <= i < cs.len(),
    ensures
        match_child_from(
            cs,
            cs[i].name,
            None,
            (count_named(cs, cs[i].name, i) - count_named(cs, cs[i].name, k)) as nat,
            fl,
            k,
        ) == Some(cs[i]),
    decreases i - k,
{
    let name = cs[i].name;
    if k < i {
        lemma_count_named_mono(cs, name, k + 1, i);
        assert(count_named(cs, name, k + 1) == count_named(cs, name, k) + if cs[k].name == name {
            1nat
        } else {
            0nat
        });
        lemma_match_by_ordinal(cs, i, k + 1, fl);
    }
}

/// With an id, the child at `i` is the first same-named one from `k` on
/// that carries the id.
pub(crate) proof fn lemma_match_by_id(cs: Seq<NodeModel>, i: int, k: int, x: Seq<char>, ordinal: nat, fl: FloatTextsModel)
    requires
        0 <= k <= i < cs.len(),
        has_id(cs[i], x, fl),
        forall|j: int| k <= j < i && #[trigger] cs[j].name == cs[i].name ==> !has_id(cs[j], x, fl),
    ensures
        match_child_from(cs, cs[i].name, Some(x), ordinal, fl, k) == Some(cs[i]),
    decreases i - k,
{
    if k < i {
        lemma_match_by_id(cs, i, k + 1, x, ordinal, fl);
    }
}

proof fn lemma_overlay_props_self(n: NodeModel, k: int, s: NodeModel, fl: FloatTextsModel)
    requires
        0 <= k <= n.props.len(),
        s.props == n.props,
        forall|i: int, j: int|
            #![trigger n.props[i], n.props[j]]
            0 <= i < j < n.props.len() ==> n.props[i].0 != n.props[j].0,
    ensures
        overlay_props(n.props.subrange(k, n.props.len() as int), s, fl) == (
            n.props.subrange(k, n.props.len() as int),
            (n.props.len() - k) as nat,
            0nat,
        ),
    decreases n.props.len() - k,
{
    let tp = n.props.subrange(k, n.props.len() as int);
    if k < n.props.len() {
        lemma_overlay_props_self(n, k + 1, s, fl);
        assert(tp.drop_first() =~= n.props.subrange(k + 1, n.props.len() as int));
        let (name, v) = n.props[k];
        lemma_prop_index_distinct(n.props, k, 0);
        assert(prop_of(s, name) == Some(v));
        assert(coerce_spec(v, v, fl) == v);
        assert(seq![(name, v)] + n.props.subrange(k + 1, n.props.len() as int) =~= tp);
    } else {
        assert(tp =~= Seq::<(Seq<char>, ValueModel)>::empty());
    }
}

pub(crate) proof fn lemma_prop_index_distinct(ps: Seq<(Seq<char>, ValueModel)>, k: int, i: int)
    requires
        0 <= i <= k < ps.len(),
        forall|a: int, b: int| #![trigger ps[a], ps[b]] 0 <= a < b < ps.len() ==> ps[a].0 != ps[b].0,
    ensures
        crate::valuetree::prop_index_from(ps, ps[k].0, i) == Some(k),
    decreases k - i,
{
    if i < k {
        assert(ps[i].0 != ps[k].0);
        lemma_prop_index_distinct(ps, k, i + 1);
    }
}

proof fn lemma_overlay_children_self(cs: Seq<NodeModel>, k: int, parent: NodeModel, fl: FloatTextsModel)
    requires
        parent.children == cs,
        0 <= k <= cs.len(),
        siblings_apart(cs, fl),
        forall|i: int| 0 <= i < cs.len() ==> self_matching(#[trigger] cs[i], fl),
    ensures
        overlay_children(cs.subrange(k, cs.len() as int), parent, fl, seen_after(cs, k)) == (
            cs.subrange(k, cs.len() as int),
            children_prop_count(cs.subrange(k, cs.len() as int)),
            0nat,
        ),
    decreases cs, 0nat, cs.len() - k,
{
    let tc = cs.subrange(k, cs.len() as int);
    if k < cs.len() {
        let c = cs[k];
        assert(tc[0] == c);
        let id = template_id(c, fl);
        lemma_seen_after(cs, c.name, k);
        let ordinal = seen_count(seen_after(cs, k), c.name);
        match id {
            Some(x) => {
                assert forall|j: int| 0 <= j < k && #[trigger] cs[j].name == cs[k].name implies !has_id(
                    cs[j],
                    x,
                    fl,
                ) by {
                    // mentions both siblings, so that `siblings_apart` applies to them
                    assert(cs[j] == cs[j] && cs[k] == cs[k]);
                }
                lemma_match_by_id(cs, k, 0, x, ordinal, fl);
            },
            None => {
                lemma_match_by_ordinal(cs, k, 0, fl);
                assert(count_named(cs, c.name, 0) == 0);
            },
        }
        assert(match_child(parent, c.name, id, ordinal, fl) == Some(c));
        lemma_overlay_self(c, fl);
        assert(tc.subrange(1, tc.len() as int) =~= cs.subrange(k + 1, cs.len() as int));
        assert(seen_after(cs, k + 1) == seen_bump(seen_after(cs, k), c.name));
        lemma_overlay_children_self(cs, k + 1, parent, fl);
        assert(seq![c] + cs.subrange(k + 1, cs.len() as int) =~= tc);
    } else {
        assert(tc =~= Seq::<NodeModel>::empty());
    }
}

/// Overlaying a tree onto itself gives the tree back, with every property
/// counted as replaced, when each node's property names are distinct and
/// each child is the first of its siblings with its name and id.
pub proof fn lemma_overlay_self(n: NodeModel, fl: FloatTextsModel)
    requires
        self_matching(n, fl),
    ensures
        overlay_node(n, n, fl) == (n, prop_count(n), 0nat),
    decreases n, 1nat, 0int,
{
    lemma_overlay_props_self(n, 0, n, fl);
    assert(n.props.subrange(0, n.props.len() as int) =~= n.props);
    lemma_overlay_children_self(n.children, 0, n, fl);
    assert(n.children.subrange(0, n.children.len() as int) =~= n.children);
    assert(seen_after(n.children, 0) == Seq::<(Seq<char>, nat)>::empty());
}

// ---------------------------------------------------------------------------
// Merging
// ---------------------------------------------------------------------------

/// Convert the source value to the template value's type, so text values
/// from XML preset files land as the typed values the plugin state uses.
/// If conversion fails, the template's value is kept.
fn coerce(template_value: &Value, source_value: &Value, floats: &FloatTexts) -> (r: Value)
    ensures
        r@ == coerce_spec(template_value@, source_value@, floats@),
{
    match (template_value, source_value) {
        (Value::Int(_), Value::Int(_)) => copy_value(source_value),
        (Value::Int64(_), Value::Int64(_)) => copy_value(source_value),
        (Value::Double(_), Value::Double(_)) => copy_value(source_value),
        (Value::Bool(_), Value::Bool(_)) => copy_value(source_value),
        (Value::Str(_), Value::Str(_)) => copy_value(source_value),
        (Value::Str(_), other) => Value::Str(other.as_text(floats)),
        (Value::Int(t), other) => {
            let text = other.text_chars(floats);
            match parse_integer(&text, -0x8000_0000, 0x7fff_ffff) {
                Some(v) => Value::Int(v as i32),
                None => Value::Int(*t),
            }
        },
        (Value::Int64(t), other) => {
            let text = other.text_chars(floats);
            match parse_integer(&text, i64::MIN, i64::MAX) {
                Some(v) => Value::Int64(v),
                None => Value::Int64(*t),
            }
        },
        (Value::Double(t), other) => {
            let text = other.text_chars(floats);
            match floats.parse(&text) {
                Some(b) => Value::Double(b),
                None => Value::Double(*t),
            }
        },
        (Value::Bool(t), other) => {
            let text = other.text_chars(floats);
            let yes: [char; 4] = ['t', 'r', 'u', 'e'];
            let one: [char; 1] = ['1'];
            let no: [char; 5] = ['f', 'a', 'l', 's', 'e'];
            let zero: [char; 1] = ['0'];
            assert(yes@ == seq!['t', 'r', 'u', 'e']);
            assert(one@ == seq!['1']);
            assert(no@ == seq!['f', 'a', 'l', 's', 'e']);
            assert(zero@ == seq!['0']);
            if crate::text::chars_eq(&text, &yes) || crate::text::chars_eq(&text, &one) {
                Value::Bool(true)
            } else if crate::text::chars_eq(&text, &no) || crate::text::chars_eq(&text, &zero) {
                Value::Bool(false)
            } else {
                Value::Bool(*t)
            }
        },
        (template_value, _) => copy_value(template_value),
    }
}

/// The template's "id" as text, if it has one.
fn template_id_exec(c: &Node, floats: &FloatTexts) -> (r: Option<Vec<char>>)
    ensures
        crate::xmlmerge::opt_chars(r) == template_id(c@, floats@),
{
    proof {
        reveal_strlit("id");
        assert("id"@ =~= seq!['i', 'd']);
    }
    match c.prop("id") {
        Some(v) => Some(v.text_chars(floats)),
        None => None,
    }
}

fn overlay(template: &Node, source: &Node, floats: &FloatTexts, stats: &mut MergeStats) -> (r: Node)
    requires
        old(stats).overridden + old(stats).template_only + prop_count(template@) <= usize::MAX,
    ensures
        ({
            let (n, o, k) = overlay_node(template@, source@, floats@);
            &&& r@ == n
            &&& final(stats).overridden == old(stats).overridden + o
            &&& final(stats).template_only == old(stats).template_only + k
        }),
    decreases template,
{
    proof {
        lemma_overlay_props_counts(template@.props, source@, floats@);
        lemma_overlay_counts(template@, source@, floats@);
        lemma_overlay_children_counts(template@.children, source@, floats@, Seq::empty());
    }
    let ghost tp = template@.props;
    let ghost want_props = overlay_props(tp, source@, floats@);
    let ghost o0 = stats.overridden;
    let ghost k0 = stats.template_only;
    let mut props: Vec<(String, Value)> = Vec::new();
    let mut i: usize = 0;
    assert(tp.subrange(0, tp.len() as int) =~= tp);
    while i < template.props.len()
        invariant
            i <= template.props@.len(),
            tp == template@.props,
            tp == props_view(template.props@),
            want_props == overlay_props(tp, source@, floats@),
            o0 + k0 + prop_count(template@) <= usize::MAX,
            stats.overridden + stats.template_only == o0 + k0 + i,
            prop_count(template@) >= tp.len(),
            want_props.0 == props_view(props@) + overlay_props(
                tp.subrange(i as int, tp.len() as int),
                source@,
                floats@,
            ).0,
            want_props.1 == stats.overridden - o0 + overlay_props(
                tp.subrange(i as int, tp.len() as int),
                source@,
                floats@,
            ).1,
            want_props.2 == stats.template_only - k0 + overlay_props(
                tp.subrange(i as int, tp.len() as int),
                source@,
                floats@,
            ).2,
            stats.overridden >= o0,
            stats.template_only >= k0,
        decreases template.props@.len() - i,
    {
        let ghost rest = tp.subrange(i as int, tp.len() as int);
        assert(rest.drop_first() =~= tp.subrange(i + 1, tp.len() as int));
        assert(rest[0] == (template.props@[i as int].0@, template.props@[i as int].1@));
        let name = &template.props[i].0;
        let template_value = &template.props[i].1;
        let pname = crate::text::string_of(&chars_of(name.as_str()));
        let ghost before = props@;
        let entry = match source.prop(name.as_str()) {
            Some(source_value) => {
                stats.overridden = stats.overridden + 1;
                (pname, coerce(template_value, source_value, floats))
            },
            None => {
                stats.template_only = stats.template_only + 1;
                (pname, copy_value(template_value))
            },
        };
        props.push(entry);
        proof {
            let (r2, o2, k2) = overlay_props(rest.drop_first(), source@, floats@);
            assert(props_view(props@) =~= props_view(before).push((entry.0@, entry.1@)));
            assert(props_view(before) + overlay_props(rest, source@, floats@).0 =~= props_view(
                props@,
            ) + r2);
        }
        i = i + 1;
    }
    assert(tp.subrange(i as int, tp.len() as int) =~= Seq::<(Seq<char>, ValueModel)>::empty());
    assert(props_view(props@) + Seq::<(Seq<char>, ValueModel)>::empty() =~= props_view(props@));
    // children
    let ghost tc = template@.children;
    let ghost o1 = stats.overridden;
    let ghost k1 = stats.template_only;
    let mut seen: Vec<(Vec<char>, usize)> = Vec::new();
    let mut children: Vec<Node> = Vec::new();
    let mut j: usize = 0;
    proof {
        lemma_children_view(template);
    }
    assert(tc.subrange(0, tc.len() as int) =~= tc);
    assert(seen_view(seen@) =~= Seq::<(Seq<char>, nat)>::empty());
    while j < template.children.len()
        invariant
            j <= template.children@.len(),
            tc == template@.children,
            tc == nodes_view(template.children@),
            o1 + k1 + children_prop_count(tc) <= usize::MAX,
            stats.overridden >= o1,
            stats.template_only >= k1,
            forall|e: int| 0 <= e < seen@.len() ==> #[trigger] seen@[e].1 <= j,
            overlay_children(tc, source@, floats@, Seq::empty()).0 == nodes_view(children@)
                + overlay_children(
                tc.subrange(j as int, tc.len() as int),
                source@,
                floats@,
                seen_view(seen@),
            ).0,
            overlay_children(tc, source@, floats@, Seq::empty()).1 == stats.overridden - o1
                + overlay_children(
                tc.subrange(j as int, tc.len() as int),
                source@,
                floats@,
                seen_view(seen@),
            ).1,
            overlay_children(tc, source@, floats@, Seq::empty()).2 == stats.template_only - k1
                + overlay_children(
                tc.subrange(j as int, tc.len() as int),
                source@,
                floats@,
                seen_view(seen@),
            ).2,
            stats.overridden - o1 + stats.template_only - k1 + children_prop_count(
                tc.subrange(j as int, tc.len() as int),
            ) <= children_prop_count(tc),
        decreases template.children@.len() - j,
    {
        let ghost rest = tc.subrange(j as int, tc.len() as int);
        let ghost sv = seen_view(seen@);
        assert(rest.subrange(1, rest.len() as int) =~= tc.subrange(j + 1, tc.len() as int));
        let tchild = &template.children[j];
        assert(rest[0] == tchild@);
        let cname = chars_of(tchild.name.as_str());
        let id = template_id_exec(tchild, floats);
        let ordinal = bump(&mut seen, &cname, j);
        let matched = match_child_exec(source, &cname, &id, ordinal, floats);
        let ghost before = children@;
        proof {
            lemma_overlay_children_counts(rest.subrange(1, rest.len() as int), source@, floats@, seen_view(seen@));
        }
        let nc = match matched {
            Some(sc) => {
                proof {
                    lemma_overlay_counts(tchild@, sc@, floats@);
                    assert(decreases_to!(*template => template.children));
                }
                overlay(tchild, sc, floats, stats)
            },
            None => copy_node(tchild),
        };
        children.push(nc);
        proof {
            assert(nodes_view(children@) =~= nodes_view(before).push(nc@));
            let (r2, o2, k2) = overlay_children(
                rest.subrange(1, rest.len() as int),
                source@,
                floats@,
                seen_view(seen@),
            );
            assert(nodes_view(before) + overlay_children(rest, source@, floats@, sv).0
                =~= nodes_view(children@) + r2);
        }
        j = j + 1;
    }
    assert(tc.subrange(j as int, tc.len() as int) =~= Seq::<NodeModel>::empty());
    assert(nodes_view(children@) + Seq::<NodeModel>::empty() =~= nodes_view(children@));
    let name = crate::text::string_of(&chars_of(template.name.as_str()));
    let r = Node { name, props, children };
    proof {
        lemma_children_view(&r);
    }
    r
}

/// Overlay the preset tree's values onto the template state and serialize
/// the result, with the counts of replaced and kept values.
pub fn merge(template_root: &Node, source: &Node, floats: &FloatTexts) -> (r: Result<(Vec<u8>, MergeStats)>)
    requires
        prop_count(template_root@) <= usize::MAX,
    ensures
        match merge_spec(template_root@, source@, floats@) {
            Some((b, o, k)) => r matches Ok((v, st)) && v@ == b && st.overridden == o
                && st.template_only == k,
            None => r matches Err(e) && e.0@ == "the preset file contains no '"@
                + template_root@.name + "' data matching this plugin's state"@,
        },
{
    let matched = match find_node(source, template_root.name.as_str()) {
        Some(m) => m,
        None => {
            let shown = chars_of(template_root.name.as_str());
            return Err(
                Error(
                    message_with(
                        "the preset file contains no '",
                        &shown,
                        "' data matching this plugin's state",
                    ),
                ),
            );
        },
    };
    let mut stats = MergeStats { overridden: 0, template_only: 0 };
    let merged = overlay(template_root, matched, floats, &mut stats);
    Ok((crate::valuetree::write(&merged), stats))
}

} // verus!
