//! The machine-written XML that JUCE produces for a plugin state, as a
//! grammar: an optional declaration, one element, and around it only text.
//! Every start tag is its name followed by attributes, each after white
//! space and written `name="value"` with the value in its escaped form, and
//! ends in `>` or `/>`. On text of this form the XML reader and the merge
//! walk the same elements and attributes, which is what makes converting a
//! state's own text give that text back.

use vstd::prelude::*;
use crate::floats::FloatTextsModel;
use crate::text::{first_occurrence, is_ascii_ws, occurs_at};
use crate::valuetree::{prop_index_from, prop_of, value_text, NodeModel, ValueModel};
use crate::treemerge::{children_prop_count, prop_count, seen_after, self_matching, template_id};
use crate::valuetree::find_in;
use crate::xmlmerge::{
    escape, match_child, merge_attrs, merge_from, merge_spec, scan_attr_end, scan_name_end, scan_to,
    seen_bump, seen_count, skip_ws, tag_id, FrameModel,
};
use crate::xmlread::{attach_spec, read_attrs, read_from, read_spec, skip_past, unescape};

verus! {

// ---------------------------------------------------------------------------
// The grammar
// ---------------------------------------------------------------------------

/// A character that may stand in an element or attribute name.
pub open spec fn name_char(c: char) -> bool {
    &&& !is_ascii_ws(c)
    &&& c != '=' && c != '"' && c != '\'' && c != '<' && c != '>' && c != '/'
    &&& c != '?' && c != '!'
}

/// A non-empty name.
pub open spec fn good_name(s: Seq<char>) -> bool {
    s.len() > 0 && forall|k: int| 0 <= k < s.len() ==> name_char(#[trigger] s[k])
}

/// An attribute value in its escaped form: escaping what it stands for
/// writes it back. The value of an "id" attribute is moreover free of
/// entities.
pub open spec fn good_value(name: Seq<char>, v: Seq<char>) -> bool {
    &&& escape(unescape(v)) == v
    &&& name == seq!['i', 'd'] ==> unescape(v) == v
}

/// The attributes of a start tag from `i`, after those in `props`: each
/// after white space, `name="value"` (or with single quotes), then `>` or
/// `/>`. Gives the properties, the position after the tag, and whether the
/// element stays open.
pub open spec fn g_attrs(t: Seq<char>, i: int, props: Seq<(Seq<char>, ValueModel)>) -> Option<
    (Seq<(Seq<char>, ValueModel)>, int, bool),
>
    decreases t.len() - i,
{
    let k = skip_ws(t, i);
    if i < 0 || i > t.len() || k >= t.len() || k < i {
        None
    } else if t[k] == '/' {
        if k + 1 < t.len() && t[k + 1] == '>' {
            Some((props, k + 2, false))
        } else {
            None
        }
    } else if t[k] == '>' {
        Some((props, k + 1, true))
    } else if k == i {
        None
    } else {
        let a = scan_attr_end(t, k);
        if a <= k || a + 1 >= t.len() || t[a] != '=' || !(t[a + 1] == '"' || t[a + 1] == '\'') {
            None
        } else {
            let name = t.subrange(k, a);
            let e = scan_to(t, a + 2, t[a + 1]);
            let v = t.subrange(a + 2, e);
            if e >= t.len() || e < a + 2 || !good_name(name) || !good_value(name, v) {
                None
            } else {
                g_attrs(t, e + 1, props.push((name, ValueModel::Str(unescape(v)))))
            }
        }
    }
}

/// The element starting at `i`: its tree and the position after it.
pub open spec fn g_elem(t: Seq<char>, i: int) -> Option<(NodeModel, int)>
    decreases t.len() - i, 1nat,
{
    if i < 0 || i >= t.len() || t[i] != '<' {
        None
    } else {
        let j = scan_name_end(t, i + 1);
        let name = t.subrange(i + 1, j);
        if j <= i + 1 || j >= t.len() || !good_name(name) {
            None
        } else {
            match g_attrs(t, j, Seq::empty()) {
                None => None,
                Some((props, e, open)) => if e <= i || e > t.len() {
                    None
                } else if !open {
                    Some((NodeModel { name, props, children: Seq::empty() }, e))
                } else {
                    match g_content(t, e, Seq::empty()) {
                        None => None,
                        Some((children, c)) => match skip_past(t, c, seq!['>']) {
                            Some(f) => if f <= c || f > t.len() {
                                None
                            } else {
                                Some((NodeModel { name, props, children }, f))
                            },
                            None => None,
                        },
                    }
                },
            }
        }
    }
}

/// The content of an element from `i`, after the children in `children`:
/// text and child elements up to the closing tag. Gives the children and
/// the position of the closing tag.
pub open spec fn g_content(t: Seq<char>, i: int, children: Seq<NodeModel>) -> Option<
    (Seq<NodeModel>, int),
>
    decreases t.len() - i, 2nat,
{
    let k = scan_to(t, i, '<');
    if i < 0 || i > t.len() || k >= t.len() || k < i {
        None
    } else if occurs_at(t, seq!['<', '/'], k) {
        Some((children, k))
    } else {
        match g_elem(t, k) {
            Some((c, e)) => if e <= k || e > t.len() {
                None
            } else {
                g_content(t, e, children.push(c))
            },
            None => None,
        }
    }
}

/// Where the root element starts: after an optional declaration at the
/// very start and the text that follows.
pub open spec fn g_root_start(t: Seq<char>) -> Option<int> {
    if occurs_at(t, seq!['<', '?'], 0) {
        match skip_past(t, 0, seq!['?', '>']) {
            Some(p) => if p <= 0 || p > t.len() {
                None
            } else {
                Some(scan_to(t, p, '<'))
            },
            None => None,
        }
    } else {
        Some(scan_to(t, 0, '<'))
    }
}

/// The tree of a text in JUCE's form: the root element, with only text
/// after it.
pub open spec fn g_doc(t: Seq<char>) -> Option<NodeModel> {
    match g_root_start(t) {
        Some(k) => match g_elem(t, k) {
            Some((r, e)) => if e <= k || e > t.len() || scan_to(t, e, '<') != t.len() {
                None
            } else {
                Some(r)
            },
            None => None,
        },
        None => None,
    }
}

// ---------------------------------------------------------------------------
// Scanning facts
// ---------------------------------------------------------------------------

pub(crate) proof fn lemma_scan_to_range(t: Seq<char>, i: int, c: char)
    requires
        0 <= i <= t.len(),
    ensures
        i <= scan_to(t, i, c) <= t.len(),
        scan_to(t, i, c) < t.len() ==> t[scan_to(t, i, c)] == c,
        forall|p: int| i <= p < scan_to(t, i, c) ==> t[p] != c,
    decreases t.len() - i,
{
    if i < t.len() && t[i] != c {
        lemma_scan_to_range(t, i + 1, c);
    }
}

pub(crate) proof fn lemma_skip_ws_range(t: Seq<char>, i: int)
    requires
        0 <= i <= t.len(),
    ensures
        i <= skip_ws(t, i) <= t.len(),
        skip_ws(t, i) < t.len() ==> !is_ascii_ws(t[skip_ws(t, i)]),
        forall|p: int| i <= p < skip_ws(t, i) ==> is_ascii_ws(#[trigger] t[p]),
    decreases t.len() - i,
{
    if i < t.len() && is_ascii_ws(t[i]) {
        lemma_skip_ws_range(t, i + 1);
    }
}

pub(crate) proof fn lemma_attr_end_range(t: Seq<char>, i: int)
    requires
        0 <= i <= t.len(),
    ensures
        i <= scan_attr_end(t, i) <= t.len(),
        forall|p: int| i <= p < scan_attr_end(t, i) ==> #[trigger] t[p] != '=' && !is_ascii_ws(t[p]),
    decreases t.len() - i,
{
    if i < t.len() && t[i] != '=' && !is_ascii_ws(t[i]) {
        lemma_attr_end_range(t, i + 1);
    }
}

pub(crate) proof fn lemma_name_end_range(t: Seq<char>, i: int)
    requires
        0 <= i <= t.len(),
    ensures
        i <= scan_name_end(t, i) <= t.len(),
        scan_name_end(t, i) < t.len() ==> crate::xmlmerge::ends_name(t[scan_name_end(t, i)]),
    decreases t.len() - i,
{
    if i < t.len() && !crate::xmlmerge::ends_name(t[i]) {
        lemma_name_end_range(t, i + 1);
    }
}

// ---------------------------------------------------------------------------
// The reader on this form
// ---------------------------------------------------------------------------

/// The reader passes over text that holds no '<'.
proof fn lemma_read_text(t: Seq<char>, i: int, s: Seq<NodeModel>, root: Option<NodeModel>)
    requires
        0 <= i <= t.len(),
    ensures
        read_from(t, i, s, root) == read_from(t, scan_to(t, i, '<'), s, root),
    decreases t.len() - i,
{
    if i < t.len() && t[i] != '<' {
        lemma_read_text(t, i + 1, s, root);
    }
}

/// The reader takes a start tag's attributes as the grammar does.
proof fn lemma_read_attrs(
    t: Seq<char>,
    i: int,
    name: Seq<char>,
    props: Seq<(Seq<char>, ValueModel)>,
    s: Seq<NodeModel>,
    root: Option<NodeModel>,
)
    requires
        g_attrs(t, i, props) is Some,
    ensures
        ({
            let (ps, e, open) = g_attrs(t, i, props).unwrap();
            let node = NodeModel { name, props: ps, children: Seq::empty() };
            read_attrs(t, i, NodeModel { name, props, children: Seq::empty() }, s, root) == if open {
                read_from(t, e, s.push(node), root)
            } else {
                match attach_spec(node, s, root) {
                    Some((s2, r2)) => read_from(t, e, s2, r2),
                    None => None,
                }
            }
        }),
    decreases t.len() - i,
{
    let k = skip_ws(t, i);
    lemma_skip_ws_range(t, i);
    if t[k] == '/' {
        assert(first_occurrence(t, seq!['>'], k + 1) == Some(k + 1)) by {
            assert(t.subrange(k + 1, k + 2) =~= seq!['>']);
        }
        assert(occurs_at(t, seq!['>'], k) == false) by {
            assert(t.subrange(k, k + 1)[0] == '/');
        }
        assert(first_occurrence(t, seq!['>'], k) == Some(k + 1));
    } else if t[k] != '>' {
        let a = scan_attr_end(t, k);
        let e = scan_to(t, a + 2, t[a + 1]);
        lemma_attr_end_range(t, k);
        lemma_scan_to_range(t, a + 2, t[a + 1]);
        let v = t.subrange(a + 2, e);
        lemma_read_attrs(
            t,
            e + 1,
            name,
            props.push((t.subrange(k, a), ValueModel::Str(unescape(v)))),
            s,
            root,
        );
    }
}

/// The reader takes an element as the grammar does, then attaches it.
#[verifier::rlimit(40)]
#[verifier::spinoff_prover]
proof fn lemma_read_elem(t: Seq<char>, i: int, s: Seq<NodeModel>, root: Option<NodeModel>)
    requires
        g_elem(t, i) is Some,
    ensures
        ({
            let (n, e) = g_elem(t, i).unwrap();
            read_from(t, i, s, root) == match attach_spec(n, s, root) {
                Some((s2, r2)) => read_from(t, e, s2, r2),
                None => None,
            }
        }),
    decreases t.len() - i, 1nat,
{
    let j = scan_name_end(t, i + 1);
    let name = t.subrange(i + 1, j);
    lemma_name_end_range(t, i + 1);
    // the tag is neither a declaration, a comment nor a closing tag
    assert(name_char(name[0]));
    assert(t[i + 1] == name[0]);
    assert(!occurs_at(t, seq!['<', '?'], i)) by {
        if occurs_at(t, seq!['<', '?'], i) {
            assert(t.subrange(i, i + 2)[1] == t[i + 1]);
        }
    }
    assert(!occurs_at(t, seq!['<', '!', '-', '-'], i)) by {
        if occurs_at(t, seq!['<', '!', '-', '-'], i) {
            assert(t.subrange(i, i + 4)[1] == t[i + 1]);
        }
    }
    assert(!occurs_at(t, seq!['<', '!'], i)) by {
        if occurs_at(t, seq!['<', '!'], i) {
            assert(t.subrange(i, i + 2)[1] == t[i + 1]);
        }
    }
    assert(!occurs_at(t, seq!['<', '/'], i)) by {
        if occurs_at(t, seq!['<', '/'], i) {
            assert(t.subrange(i, i + 2)[1] == t[i + 1]);
        }
    }
    lemma_read_attrs(t, j, name, Seq::empty(), s, root);
    let (props, e, open) = g_attrs(t, j, Seq::empty()).unwrap();
    if open {
        let (children, c) = g_content(t, e, Seq::empty()).unwrap();
        lemma_content_end(t, e, Seq::empty());
        let parent = NodeModel { name, props, children: Seq::empty() };
        lemma_read_content(t, e, s, root, parent);
        let full = NodeModel { name, props, children };
        // the closing tag
        assert(occurs_at(t, seq!['<', '/'], c));
        assert(!occurs_at(t, seq!['<', '?'], c)) by {
            assert(t.subrange(c, c + 2)[1] == '/');
        }
        assert(!occurs_at(t, seq!['<', '!', '-', '-'], c)) by {
            if occurs_at(t, seq!['<', '!', '-', '-'], c) {
                assert(t.subrange(c, c + 4)[1] == t.subrange(c, c + 2)[1]);
            }
        }
        assert(!occurs_at(t, seq!['<', '!'], c)) by {
            assert(t.subrange(c, c + 2)[1] == '/');
        }
        assert(t[c] == '<') by {
            assert(t.subrange(c, c + 2)[0] == '<');
        }
        let st = s.push(full);
        assert(st.last() == full);
        assert(st.drop_last() =~= s);
    }
}

/// The reader takes an element's content as the grammar does, adding the
/// children to the open element.
proof fn lemma_read_content(
    t: Seq<char>,
    i: int,
    s: Seq<NodeModel>,
    root: Option<NodeModel>,
    parent: NodeModel,
)
    requires
        g_content(t, i, parent.children) is Some,
    ensures
        ({
            let (cs, c) = g_content(t, i, parent.children).unwrap();
            read_from(t, i, s.push(parent), root) == read_from(
                t,
                c,
                s.push(NodeModel { name: parent.name, props: parent.props, children: cs }),
                root,
            )
        }),
    decreases t.len() - i, 2nat,
{
    let k = scan_to(t, i, '<');
    lemma_scan_to_range(t, i, '<');
    lemma_read_text(t, i, s.push(parent), root);
    if !occurs_at(t, seq!['<', '/'], k) {
        let (ch, e) = g_elem(t, k).unwrap();
        lemma_read_elem(t, k, s.push(parent), root);
        let p2 = NodeModel { name: parent.name, props: parent.props, children: parent.children.push(ch) };
        let sp = s.push(parent);
        assert(sp.drop_last() =~= s);
        assert(sp.update(sp.len() - 1, p2) =~= s.push(p2));
        lemma_read_content(t, e, s, root, p2);
    } else {
        assert(parent.children =~= g_content(t, i, parent.children).unwrap().0);
    }
}

/// Content ends at a closing tag, at or after where it starts.
proof fn lemma_content_end(t: Seq<char>, i: int, children: Seq<NodeModel>)
    requires
        g_content(t, i, children) is Some,
    ensures
        occurs_at(t, seq!['<', '/'], g_content(t, i, children).unwrap().1),
        i <= g_content(t, i, children).unwrap().1,
    decreases t.len() - i,
{
    let k = scan_to(t, i, '<');
    if !occurs_at(t, seq!['<', '/'], k) {
        let (ch, e) = g_elem(t, k).unwrap();
        lemma_content_end(t, e, children.push(ch));
    }
}

/// A text of this form reads as the grammar's tree.
pub proof fn lemma_read_form(t: Seq<char>)
    requires
        g_doc(t) is Some,
    ensures
        read_spec(t) == g_doc(t),
{
    let k = g_root_start(t).unwrap();
    let e0 = Seq::<NodeModel>::empty();
    if occurs_at(t, seq!['<', '?'], 0) {
        let p = skip_past(t, 0, seq!['?', '>']).unwrap();
        lemma_scan_to_range(t, p, '<');
        lemma_read_text(t, p, e0, None);
    } else {
        lemma_scan_to_range(t, 0, '<');
        lemma_read_text(t, 0, e0, None);
    }
    lemma_read_elem(t, k, e0, None);
    let (r, e) = g_elem(t, k).unwrap();
    lemma_read_text(t, e, e0, Some(r));
}


// ---------------------------------------------------------------------------
// The merge on this form
// ---------------------------------------------------------------------------

/// The text of a string value (empty for other kinds).
pub open spec fn str_text(v: ValueModel) -> Seq<char> {
    match v {
        ValueModel::Str(s) => s,
        _ => Seq::empty(),
    }
}

/// The grammar only ever adds properties after those it was given.
proof fn lemma_attrs_prefix(t: Seq<char>, i: int, props: Seq<(Seq<char>, ValueModel)>)
    requires
        g_attrs(t, i, props) is Some,
    ensures
        props.len() <= g_attrs(t, i, props).unwrap().0.len(),
        g_attrs(t, i, props).unwrap().0.subrange(0, props.len() as int) == props,
        g_attrs(t, i, props).unwrap().1 <= t.len(),
        i < g_attrs(t, i, props).unwrap().1,
        forall|k: int|
            props.len() <= k < g_attrs(t, i, props).unwrap().0.len() ==> (#[trigger] g_attrs(
                t,
                i,
                props,
            ).unwrap().0[k]).1 is Str,
    decreases t.len() - i,
{
    let k = skip_ws(t, i);
    lemma_skip_ws_range(t, i);
    if t[k] != '/' && t[k] != '>' {
        let a = scan_attr_end(t, k);
        let e = scan_to(t, a + 2, t[a + 1]);
        let x = (t.subrange(k, a), ValueModel::Str(unescape(t.subrange(a + 2, e))));
        lemma_attrs_prefix(t, e + 1, props.push(x));
        let ps = g_attrs(t, i, props).unwrap().0;
        assert(ps.subrange(0, props.len() as int) =~= ps.subrange(0, (props.len() + 1) as int).subrange(
            0,
            props.len() as int,
        ));
        assert(ps[props.len() as int] == x) by {
            assert(ps.subrange(0, (props.len() + 1) as int)[props.len() as int] == props.push(x)[props.len() as int]);
        }
    } else {
        assert(props.subrange(0, props.len() as int) =~= props);
    }
}

/// The first occurrence of a single character is where scanning stops.
proof fn lemma_first_char(t: Seq<char>, p: int, c: char)
    requires
        0 <= p <= t.len(),
        scan_to(t, p, c) < t.len(),
    ensures
        first_occurrence(t, seq![c], p) == Some(scan_to(t, p, c)),
    decreases t.len() - p,
{
    if t[p] != c {
        assert(!occurs_at(t, seq![c], p)) by {
            assert(t.subrange(p, p + 1)[0] == t[p]);
        }
        lemma_first_char(t, p + 1, c);
    } else {
        assert(t.subrange(p, p + 1) =~= seq![c]);
    }
}

/// The id scan passes over white space.
proof fn lemma_tag_id_ws(t: Seq<char>, p: int, k: int)
    requires
        1 <= p <= k <= t.len(),
        forall|q: int| p <= q < k ==> is_ascii_ws(#[trigger] t[q]),
    ensures
        tag_id(t, p) == tag_id(t, k),
    decreases k - p,
{
    if p < k {
        assert(is_ascii_ws(t[p]));
        assert(!occurs_at(t, seq!['i', 'd', '='], p)) by {
            if occurs_at(t, seq!['i', 'd', '='], p) {
                assert(t.subrange(p, p + 3)[0] == t[p]);
            }
        }
        lemma_tag_id_ws(t, p + 1, k);
    }
}

/// The id scan passes over the inside of a name that is not "id".
proof fn lemma_tag_id_name(t: Seq<char>, p: int, a: int)
    requires
        2 <= p <= a < t.len(),
        forall|q: int| p - 1 <= q < a ==> name_char(#[trigger] t[q]),
    ensures
        tag_id(t, p) == tag_id(t, a),
    decreases a - p,
{
    if p < a {
        assert(name_char(t[p]));
        assert(name_char(t[p - 1]));
        lemma_tag_id_name(t, p + 1, a);
    }
}

/// On this form, the id scan of a start tag finds the value of its first
/// "id" attribute.
#[verifier::rlimit(40)]
#[verifier::spinoff_prover]
proof fn lemma_tag_id(t: Seq<char>, i: int, props: Seq<(Seq<char>, ValueModel)>)
    requires
        g_attrs(t, i, props) is Some,
        i >= 1,
    ensures
        ({
            let ps = g_attrs(t, i, props).unwrap().0;
            tag_id(t, i) == match prop_index_from(ps, seq!['i', 'd'], props.len() as int) {
                Some(k) => Some(str_text(ps[k].1)),
                None => None,
            }
        }),
    decreases t.len() - i,
{
    let k = skip_ws(t, i);
    lemma_skip_ws_range(t, i);
    lemma_tag_id_ws(t, i, k);
    let ps = g_attrs(t, i, props).unwrap().0;
    lemma_attrs_prefix(t, i, props);
    if t[k] == '/' {
        assert(!occurs_at(t, seq!['i', 'd', '='], k)) by {
            if occurs_at(t, seq!['i', 'd', '='], k) {
                assert(t.subrange(k, k + 3)[0] == t[k]);
            }
        }
        assert(ps == props);
        assert(tag_id(t, k + 1) == None::<Seq<char>>);
    } else if t[k] == '>' {
        assert(ps == props);
    } else {
        let a = scan_attr_end(t, k);
        lemma_attr_end_range(t, k);
        let q = t[a + 1];
        let e = scan_to(t, a + 2, q);
        lemma_scan_to_range(t, a + 2, q);
        let name = t.subrange(k, a);
        let v = t.subrange(a + 2, e);
        let x = (name, ValueModel::Str(unescape(v)));
        lemma_attrs_prefix(t, e + 1, props.push(x));
        lemma_tag_id(t, e + 1, props.push(x));
        assert(ps[props.len() as int] == x) by {
            assert(ps.subrange(0, (props.len() + 1) as int)[props.len() as int] == props.push(x)[props.len() as int]);
        }
        assert(is_ascii_ws(t[k - 1]));
        let idn = seq!['i', 'd'];
        if name == idn {
            assert(occurs_at(t, seq!['i', 'd', '='], k)) by {
                assert(t.subrange(k, k + 3) =~= seq!['i', 'd', '=']) by {
                    assert(t[k] == name[0]);
                    assert(t[k + 1] == name[1]);
                }
            }
            lemma_first_char(t, k + 4, q);
            assert(prop_index_from(ps, idn, props.len() as int) == Some(props.len() as int));
        } else {
            assert(!occurs_at(t, seq!['i', 'd', '='], k)) by {
                if occurs_at(t, seq!['i', 'd', '='], k) {
                    let w = t.subrange(k, k + 3);
                    assert(w[0] == 'i' && w[1] == 'd' && w[2] == '=');
                    assert(t[k + 2] == '=');
                    assert(a == k + 2) by {
                        if a > k + 2 {
                            assert(t[k + 2] != '=');
                        } else if a < k + 2 {
                            assert(good_name(name));
                            if a == k + 1 {
                                assert(t[k + 1] == 'd');
                            }
                        }
                    }
                    assert(name =~= idn);
                }
            }
            assert forall|qq: int| k <= qq < a implies name_char(#[trigger] t[qq]) by {
                assert(t[qq] == name[qq - k]);
            }
            if k + 1 <= a {
                lemma_tag_id_name(t, k + 1, a);
            }
            assert(!occurs_at(t, seq!['i', 'd', '='], a)) by {
                if occurs_at(t, seq!['i', 'd', '='], a) {
                    assert(t.subrange(a, a + 3)[0] == t[a]);
                }
            }
            assert(!occurs_at(t, seq!['i', 'd', '='], a + 1)) by {
                if occurs_at(t, seq!['i', 'd', '='], a + 1) {
                    assert(t.subrange(a + 1, a + 4)[0] == t[a + 1]);
                }
            }
            assert(tag_id(t, a + 1) == tag_id(t, e + 1));
            assert(prop_index_from(ps, idn, props.len() as int) == prop_index_from(
                ps,
                idn,
                (props.len() + 1) as int,
            ));
        }
    }
}

/// On this form, the merge of a start tag with the tree read from it puts
/// every attribute value back as it was, counting each as replaced.
#[verifier::rlimit(40)]
#[verifier::spinoff_prover]
proof fn lemma_merge_attrs(
    t: Seq<char>,
    i: int,
    props: Seq<(Seq<char>, ValueModel)>,
    n: NodeModel,
    fl: FloatTextsModel,
    out: Seq<char>,
    st: (nat, nat),
)
    requires
        g_attrs(t, i, props) is Some,
        n.props == g_attrs(t, i, props).unwrap().0,
        forall|a: int, b: int|
            #![trigger n.props[a], n.props[b]]
            0 <= a < b < n.props.len() ==> n.props[a].0 != n.props[b].0,
    ensures
        ({
            let (ps, e, open) = g_attrs(t, i, props).unwrap();
            merge_attrs(t, i, Some(n), fl, out, st) == Some(
                (e, out + t.subrange(i, e), ((st.0 + ps.len() - props.len()) as nat, st.1), open),
            )
        }),
    decreases t.len() - i,
{
    let (ps, e, open) = g_attrs(t, i, props).unwrap();
    let k = skip_ws(t, i);
    lemma_skip_ws_range(t, i);
    lemma_attrs_prefix(t, i, props);
    if t[k] == '/' {
        assert(first_occurrence(t, seq!['>'], k + 1) == Some(k + 1)) by {
            assert(t.subrange(k + 1, k + 2) =~= seq!['>']);
        }
        assert(!occurs_at(t, seq!['>'], k)) by {
            assert(t.subrange(k, k + 1)[0] == t[k]);
        }
        assert(first_occurrence(t, seq!['>'], k) == Some(k + 1));
        assert(out + t.subrange(i, k) + t.subrange(k, k + 2) =~= out + t.subrange(i, k + 2));
    } else if t[k] == '>' {
        assert((out + t.subrange(i, k)).push('>') =~= out + t.subrange(i, k + 1));
    } else {
        let a = scan_attr_end(t, k);
        lemma_attr_end_range(t, k);
        let q = t[a + 1];
        let ve = scan_to(t, a + 2, q);
        lemma_scan_to_range(t, a + 2, q);
        let name = t.subrange(k, a);
        let v = t.subrange(a + 2, ve);
        let x = (name, ValueModel::Str(unescape(v)));
        lemma_attrs_prefix(t, ve + 1, props.push(x));
        assert(ps[props.len() as int] == x) by {
            assert(ps.subrange(0, (props.len() + 1) as int)[props.len() as int] == props.push(x)[props.len() as int]);
        }
        crate::treemerge::lemma_prop_index_distinct(n.props, props.len() as int, 0);
        assert(prop_of(n, name) == Some(ValueModel::Str(unescape(v))));
        assert(escape(value_text(ValueModel::Str(unescape(v)), fl)) == v);
        let out1 = out + t.subrange(i, k);
        let out2 = out1 + name + seq!['=', q];
        lemma_merge_attrs(t, ve + 1, props.push(x), n, fl, out2 + v + seq![q], (st.0 + 1, st.1));
        assert(out2 + v + seq![q] =~= out + t.subrange(i, ve + 1));
        assert(out + t.subrange(i, ve + 1) + t.subrange(ve + 1, e) =~= out + t.subrange(i, e));
    }
}


/// The frames after an element named `name` started under the innermost
/// one: that frame has seen one more child of that name.
pub open spec fn bumped(m: Seq<FrameModel>, name: Seq<char>) -> Seq<FrameModel> {
    if m.len() == 0 {
        m
    } else {
        m.update(m.len() - 1, FrameModel { vt: m.last().vt, seen: seen_bump(m.last().seen, name) })
    }
}

/// Content only ever adds children after those it was given.
proof fn lemma_content_prefix(t: Seq<char>, i: int, children: Seq<NodeModel>)
    requires
        g_content(t, i, children) is Some,
    ensures
        children.len() <= g_content(t, i, children).unwrap().0.len(),
        g_content(t, i, children).unwrap().0.subrange(0, children.len() as int) == children,
    decreases t.len() - i,
{
    let k = scan_to(t, i, '<');
    if !occurs_at(t, seq!['<', '/'], k) {
        let (ch, e) = g_elem(t, k).unwrap();
        lemma_content_prefix(t, e, children.push(ch));
        let cs = g_content(t, i, children).unwrap().0;
        assert(cs.subrange(0, children.len() as int) =~= cs.subrange(0, (children.len() + 1) as int).subrange(
            0,
            children.len() as int,
        ));
    } else {
        assert(children.subrange(0, children.len() as int) =~= children);
    }
}

proof fn lemma_prop_index_range(ps: Seq<(Seq<char>, ValueModel)>, name: Seq<char>, i: int)
    ensures
        prop_index_from(ps, name, i) matches Some(q) ==> 0 <= i <= q < ps.len() && ps[q].0 == name,
    decreases ps.len() - i,
{
    if 0 <= i < ps.len() && ps[i].0 != name {
        lemma_prop_index_range(ps, name, i + 1);
    }
}

/// An element of this form, read as the child at `idx` of `n`, is the child
/// the merge matches it with: by its id when it has one, by its position
/// among same-named siblings otherwise.
#[verifier::rlimit(40)]
#[verifier::spinoff_prover]
proof fn lemma_child_matches(t: Seq<char>, k: int, n: NodeModel, idx: int, fl: FloatTextsModel)
    requires
        g_elem(t, k) is Some,
        0 <= idx < n.children.len(),
        n.children[idx] == g_elem(t, k).unwrap().0,
        crate::treemerge::siblings_apart(n.children, fl),
    ensures
        ({
            let cd = n.children[idx];
            match_child(
                n,
                cd.name,
                tag_id(t, scan_name_end(t, k + 1)),
                seen_count(seen_after(n.children, idx), cd.name),
                fl,
            ) == Some(cd)
        }),
{
    let cs = n.children;
    let cd = cs[idx];
    let jc = scan_name_end(t, k + 1);
    lemma_name_end_range(t, k + 1);
    let cps = g_attrs(t, jc, Seq::empty()).unwrap().0;
    lemma_tag_id(t, jc, Seq::empty());
    lemma_attrs_prefix(t, jc, Seq::empty());
    lemma_prop_index_range(cps, seq!['i', 'd'], 0);
    assert(cd.props == cps);
    assert(tag_id(t, jc) == template_id(cd, fl)) by {
        match prop_index_from(cps, seq!['i', 'd'], 0) {
            Some(q) => {
                assert(cps[q].1 is Str);
            },
            None => {},
        }
    }
    crate::treemerge::lemma_seen_after(cs, cd.name, idx);
    let ordinal = seen_count(seen_after(cs, idx), cd.name);
    match template_id(cd, fl) {
        Some(x) => {
            assert forall|jj: int| 0 <= jj < idx && #[trigger] cs[jj].name == cs[idx].name implies !crate::xmlmerge::has_id(
                cs[jj],
                x,
                fl,
            ) by {
                // mentions both siblings, so that `siblings_apart` applies to them
                assert(cs[jj] == cs[jj] && cs[idx] == cs[idx]);
            }
            crate::treemerge::lemma_match_by_id(cs, idx, 0, x, ordinal, fl);
        },
        None => {
            crate::treemerge::lemma_match_by_ordinal(cs, idx, 0, fl);
            assert(crate::treemerge::count_named(cs, cd.name, 0) == 0);
        },
    }
}

/// The merge passes over text that holds no '<'.
proof fn lemma_merge_text(
    t: Seq<char>,
    i: int,
    r: NodeModel,
    fl: FloatTextsModel,
    out: Seq<char>,
    m: Seq<FrameModel>,
    st: (nat, nat),
)
    requires
        0 <= i <= t.len(),
    ensures
        merge_from(t, r, fl, i, out, m, st) == merge_from(
            t,
            r,
            fl,
            scan_to(t, i, '<'),
            out + t.subrange(i, scan_to(t, i, '<')),
            m,
            st,
        ),
{
    lemma_scan_to_range(t, i, '<');
    if i == scan_to(t, i, '<') {
        assert(out + t.subrange(i, i) =~= out);
    }
}

/// The merge takes an element of this form as the reader does, putting
/// its text back unchanged when its matched node is the element's tree.
#[verifier::rlimit(40)]
#[verifier::spinoff_prover]
proof fn lemma_merge_elem(
    t: Seq<char>,
    i: int,
    r: NodeModel,
    fl: FloatTextsModel,
    out: Seq<char>,
    m: Seq<FrameModel>,
    st: (nat, nat),
)
    requires
        g_elem(t, i) is Some,
        self_matching(g_elem(t, i).unwrap().0, fl),
        ({
            let n = g_elem(t, i).unwrap().0;
            let j = scan_name_end(t, i + 1);
            if m.len() == 0 {
                find_in(r, n.name) == Some(n)
            } else {
                m.last().vt matches Some(p) && match_child(
                    p,
                    n.name,
                    tag_id(t, j),
                    seen_count(m.last().seen, n.name),
                    fl,
                ) == Some(n)
            }
        }),
    ensures
        ({
            let (n, e) = g_elem(t, i).unwrap();
            merge_from(t, r, fl, i, out, m, st) == merge_from(
                t,
                r,
                fl,
                e,
                out + t.subrange(i, e),
                bumped(m, n.name),
                ((st.0 + prop_count(n)) as nat, st.1),
            )
        }),
    decreases t.len() - i, 1nat,
{
    let (n, e) = g_elem(t, i).unwrap();
    let j = scan_name_end(t, i + 1);
    let name = t.subrange(i + 1, j);
    lemma_name_end_range(t, i + 1);
    assert(name_char(name[0]));
    assert(t[i + 1] == name[0]);
    assert(!occurs_at(t, seq!['<', '?'], i)) by {
        if occurs_at(t, seq!['<', '?'], i) {
            assert(t.subrange(i, i + 2)[1] == t[i + 1]);
        }
    }
    assert(!occurs_at(t, seq!['<', '/'], i)) by {
        if occurs_at(t, seq!['<', '/'], i) {
            assert(t.subrange(i, i + 2)[1] == t[i + 1]);
        }
    }
    let (ps, e1, open) = g_attrs(t, j, Seq::empty()).unwrap();
    lemma_attrs_prefix(t, j, Seq::empty());
    lemma_merge_attrs(t, j, Seq::empty(), n, fl, out + t.subrange(i, j), st);
    let out1 = out + t.subrange(i, j) + t.subrange(j, e1);
    assert(out1 =~= out + t.subrange(i, e1));
    let vt = Some(n);
    let stack1 = bumped(m, n.name);
    let st1 = ((st.0 + ps.len()) as nat, st.1);
    if !open {
        assert(n.children == Seq::<NodeModel>::empty());
        assert(children_prop_count(n.children) == 0);
    } else {
        let (children, c) = g_content(t, e1, Seq::empty()).unwrap();
        lemma_content_end(t, e1, Seq::empty());
        lemma_content_prefix(t, e1, Seq::empty());
        let m1 = stack1.push(FrameModel { vt, seen: Seq::empty() });
        assert(seen_after(n.children, 0) == Seq::<(Seq<char>, nat)>::empty());
        lemma_merge_content(t, e1, r, fl, out1, m1, st1, n, Seq::empty());
        assert(n.children.subrange(0, n.children.len() as int) =~= n.children);
        let m2 = m1.update(
            m1.len() - 1,
            FrameModel { vt: Some(n), seen: seen_after(n.children, n.children.len() as int) },
        );
        let out2 = out1 + t.subrange(e1, c);
        // the closing tag
        let f = e;
        assert(first_occurrence(t, seq!['>'], c) == Some(f - 1));
        assert(!occurs_at(t, seq!['<', '?'], c)) by {
            assert(t.subrange(c, c + 2)[1] == '/');
        }
        assert(t[c] == '<') by {
            assert(t.subrange(c, c + 2)[0] == '<');
        }
        crate::text::lemma_first_occurrence(t, seq!['>'], c);
        assert(m2.drop_last() =~= stack1);
        assert(out2 + t.subrange(c, f) =~= out + t.subrange(i, e));
    }
}

/// The merge takes an element's content of this form as the reader does.
#[verifier::rlimit(40)]
#[verifier::spinoff_prover]
proof fn lemma_merge_content(
    t: Seq<char>,
    i: int,
    r: NodeModel,
    fl: FloatTextsModel,
    out: Seq<char>,
    m: Seq<FrameModel>,
    st: (nat, nat),
    n: NodeModel,
    ch: Seq<NodeModel>,
)
    requires
        g_content(t, i, ch) is Some,
        g_content(t, i, ch).unwrap().0 == n.children,
        m.len() > 0,
        m.last().vt == Some(n),
        m.last().seen == seen_after(n.children, ch.len() as int),
        ch.len() <= n.children.len(),
        n.children.subrange(0, ch.len() as int) == ch,
        crate::treemerge::siblings_apart(n.children, fl),
        forall|k: int| 0 <= k < n.children.len() ==> self_matching(#[trigger] n.children[k], fl),
    ensures
        ({
            let c = g_content(t, i, ch).unwrap().1;
            merge_from(t, r, fl, i, out, m, st) == merge_from(
                t,
                r,
                fl,
                c,
                out + t.subrange(i, c),
                m.update(
                    m.len() - 1,
                    FrameModel { vt: Some(n), seen: seen_after(n.children, n.children.len() as int) },
                ),
                (
                    (st.0 + children_prop_count(
                        n.children.subrange(ch.len() as int, n.children.len() as int),
                    )) as nat,
                    st.1,
                ),
            )
        }),
    decreases t.len() - i, 2nat,
{
    let cs = n.children;
    let k = scan_to(t, i, '<');
    lemma_scan_to_range(t, i, '<');
    lemma_merge_text(t, i, r, fl, out, m, st);
    let outk = out + t.subrange(i, k);
    if occurs_at(t, seq!['<', '/'], k) {
        assert(ch == cs);
        assert(ch.len() == cs.len());
        assert(m.update(m.len() - 1, FrameModel { vt: Some(n), seen: seen_after(cs, cs.len() as int) })
            =~= m);
        assert(cs.subrange(ch.len() as int, cs.len() as int) =~= Seq::<NodeModel>::empty());
        assert(children_prop_count(Seq::<NodeModel>::empty()) == 0);
    } else {
        let (cd, e) = g_elem(t, k).unwrap();
        let idx = ch.len() as int;
        lemma_content_prefix(t, e, ch.push(cd));
        assert(cs[idx] == cd) by {
            assert(cs.subrange(0, idx + 1)[idx] == ch.push(cd)[idx]);
        }
        lemma_child_matches(t, k, n, idx, fl);
        assert(self_matching(cd, fl));
        lemma_merge_elem(t, k, r, fl, outk, m, st);
        let m2 = bumped(m, cd.name);
        assert(seen_after(cs, idx + 1) == seen_bump(seen_after(cs, idx), cs[idx].name));
        let st2 = ((st.0 + prop_count(cd)) as nat, st.1);
        let oute = outk + t.subrange(k, e);
        assert(cs.subrange(0, idx + 1) =~= ch.push(cd));
        lemma_merge_content(t, e, r, fl, oute, m2, st2, n, ch.push(cd));
        let c = g_content(t, i, ch).unwrap().1;
        lemma_content_end(t, e, ch.push(cd));
        assert(oute + t.subrange(e, c) =~= out + t.subrange(i, c));
        assert(m2.update(
            m2.len() - 1,
            FrameModel { vt: Some(n), seen: seen_after(cs, cs.len() as int) },
        ) =~= m.update(m.len() - 1, FrameModel { vt: Some(n), seen: seen_after(cs, cs.len() as int) }));
        let sub = cs.subrange(idx, cs.len() as int);
        assert(sub[0] == cd);
        assert(sub.subrange(1, sub.len() as int) =~= cs.subrange(idx + 1, cs.len() as int));
    }
}

/// Merging a text of this form with the tree read from it gives the text
/// back, with every attribute counted as replaced, when each element's
/// attribute names are distinct and each element is the first of its
/// siblings with its name and id.
#[verifier::rlimit(40)]
#[verifier::spinoff_prover]
pub proof fn lemma_merge_form(t: Seq<char>, fl: FloatTextsModel)
    requires
        g_doc(t) matches Some(r) && self_matching(r, fl),
    ensures
        merge_spec(t, g_doc(t).unwrap(), fl) == Some((t, (prop_count(g_doc(t).unwrap()), 0nat))),
{
    let r = g_doc(t).unwrap();
    let k = g_root_start(t).unwrap();
    let e0 = Seq::<FrameModel>::empty();
    let start: (nat, nat) = (0, 0);
    if occurs_at(t, seq!['<', '?'], 0) {
        let p = skip_past(t, 0, seq!['?', '>']).unwrap();
        crate::text::lemma_first_occurrence(t, seq!['?', '>'], 0);
        assert(t[0] == '<') by {
            assert(t.subrange(0, 2)[0] == '<');
        }
        lemma_scan_to_range(t, p, '<');
        lemma_merge_text(t, p, r, fl, t.subrange(0, p), e0, start);
        assert(t.subrange(0, p) + t.subrange(p, k) =~= t.subrange(0, k));
    } else {
        lemma_scan_to_range(t, 0, '<');
        lemma_merge_text(t, 0, r, fl, Seq::empty(), e0, start);
        assert(Seq::<char>::empty() + t.subrange(0, k) =~= t.subrange(0, k));
    }
    lemma_merge_elem(t, k, r, fl, t.subrange(0, k), e0, start);
    let e = g_elem(t, k).unwrap().1;
    assert(t.subrange(0, k) + t.subrange(k, e) =~= t.subrange(0, e));
    lemma_merge_text(t, e, r, fl, t.subrange(0, e), e0, (prop_count(r), 0));
    assert(t.subrange(0, e) + t.subrange(e, t.len() as int) =~= t);
}
} // verus!
