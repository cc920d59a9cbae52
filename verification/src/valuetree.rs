//! Reader and writer for JUCE binary ValueTree data. Many plugin vendors save
//! presets in this format, sometimes behind a misleading ".xml" extension;
//! older JUCE plugins also use it for their VST3 state itself.
//!
//! Stream layout per node: null-terminated name, compressed-int property
//! count, properties (name + var), compressed-int child count, children.
//! A var is a compressed-int payload size followed by a one-byte type code.

use vstd::prelude::*;
use vstd::utf8::*;
use crate::floats::{shown_text, FloatTexts, FloatTextsModel};
use crate::text::{
    chars_of, decimal, decimal_text, from_utf8_lossy, lossy_utf8, str_eq, bytes_of,
    push_all_bytes,
};
use crate::{err, Error, Result};

verus! {

broadcast use vstd::utf8::group_utf8_lib;

/// Property and child counts above this are treated as corrupt data.
pub const MAX_ITEMS: i64 = 100_000;

/// Nodes nested deeper than this are treated as corrupt data.
pub const MAX_DEPTH: usize = 64;

/// A property value.
#[derive(Debug, Clone, PartialEq)]
pub enum Value {
    Int(i32),
    Int64(i64),
    Bool(bool),
    /// A double, kept as its IEEE-754 bit pattern.
    Double(u64),
    Str(String),
    /// A zero-size var (JUCE void).
    Void,
    /// A var type the converter has no use for (arrays, binary), kept as
    /// its raw type code and payload so it round-trips byte-identically.
    Other(u8, Vec<u8>),
}

/// The plain content of a `Value`.
pub enum ValueModel {
    Int(i32),
    Int64(i64),
    Bool(bool),
    Double(u64),
    Str(Seq<char>),
    Void,
    Other(u8, Seq<u8>),
}

impl View for Value {
    type V = ValueModel;

    open spec fn view(&self) -> ValueModel {
        match self {
            Value::Int(v) => ValueModel::Int(*v),
            Value::Int64(v) => ValueModel::Int64(*v),
            Value::Bool(b) => ValueModel::Bool(*b),
            Value::Double(b) => ValueModel::Double(*b),
            Value::Str(s) => ValueModel::Str(s@),
            Value::Void => ValueModel::Void,
            Value::Other(t, b) => ValueModel::Other(*t, b@),
        }
    }
}

/// A tree node: a name, named property values, and child nodes.
pub struct Node {
    pub name: String,
    pub props: Vec<(String, Value)>,
    pub children: Vec<Node>,
}

/// The plain content of a `Node`.
pub struct NodeModel {
    pub name: Seq<char>,
    pub props: Seq<(Seq<char>, ValueModel)>,
    pub children: Seq<NodeModel>,
}

/// The plain content of a property list.
pub open spec fn props_view(p: Seq<(String, Value)>) -> Seq<(Seq<char>, ValueModel)> {
    Seq::new(p.len(), |i: int| (p[i].0@, p[i].1@))
}

impl View for Node {
    type V = NodeModel;

    open spec fn view(&self) -> NodeModel
        decreases self,
    {
        NodeModel {
            name: self.name@,
            props: props_view(self.props@),
            children: Seq::new(
                self.children@.len(),
                |i: int|
                    if 0 <= i < self.children@.len() {
                        self.children@[i].view()
                    } else {
                        NodeModel { name: Seq::empty(), props: Seq::empty(), children: Seq::empty() }
                    },
            ),
        }
    }
}

// ---------------------------------------------------------------------------
// Lookups
// ---------------------------------------------------------------------------

/// The index of the first property named `name`, from index `i` on.
pub open spec fn prop_index_from(props: Seq<(Seq<char>, ValueModel)>, name: Seq<char>, i: int) -> Option<int>
    decreases props.len() - i,
{
    if i < 0 || i >= props.len() {
        None
    } else if props[i].0 == name {
        Some(i)
    } else {
        prop_index_from(props, name, i + 1)
    }
}

/// The value of the first property named `name`.
pub open spec fn prop_of(n: NodeModel, name: Seq<char>) -> Option<ValueModel> {
    match prop_index_from(n.props, name, 0) {
        Some(i) => Some(n.props[i].1),
        None => None,
    }
}

/// The index of the first child named `name`, from index `i` on.
pub open spec fn child_index_from(cs: Seq<NodeModel>, name: Seq<char>, i: int) -> Option<int>
    decreases cs.len() - i,
{
    if i < 0 || i >= cs.len() {
        None
    } else if cs[i].name == name {
        Some(i)
    } else {
        child_index_from(cs, name, i + 1)
    }
}

/// The first node named `name` in a depth-first, parent-first walk.
pub open spec fn find_in(n: NodeModel, name: Seq<char>) -> Option<NodeModel>
    decreases n, 1nat,
{
    if n.name == name {
        Some(n)
    } else {
        find_in_children(n.children, name)
    }
}

/// The first node named `name` in a depth-first walk of a list of trees.
pub open spec fn find_in_children(cs: Seq<NodeModel>, name: Seq<char>) -> Option<NodeModel>
    decreases cs, 0nat,
{
    if cs.len() == 0 {
        None
    } else {
        match find_in(cs[0], name) {
            Some(f) => Some(f),
            None => find_in_children(cs.subrange(1, cs.len() as int), name),
        }
    }
}

impl Node {
    /// The value of the first property called `name`.
    pub fn prop(&self, name: &str) -> (r: Option<&Value>)
        ensures
            r matches Some(v) ==> prop_of(self@, name@) == Some(v@),
            r is None ==> prop_of(self@, name@) is None,
    {
        let mut i: usize = 0;
        while i < self.props.len()
            invariant
                i <= self.props@.len(),
                prop_index_from(self@.props, name@, 0) == prop_index_from(
                    self@.props,
                    name@,
                    i as int,
                ),
            decreases self.props@.len() - i,
        {
            if str_eq(self.props[i].0.as_str(), name) {
                return Some(&self.props[i].1);
            }
            i = i + 1;
        }
        None
    }

    /// The first child called `name`.
    pub fn child(&self, name: &str) -> (r: Option<&Node>)
        ensures
            r matches Some(c) ==> child_index_from(self@.children, name@, 0) matches Some(i)
                && self@.children[i] == c@,
            r is None ==> child_index_from(self@.children, name@, 0) is None,
    {
        let mut i: usize = 0;
        while i < self.children.len()
            invariant
                i <= self.children@.len(),
                child_index_from(self@.children, name@, 0) == child_index_from(
                    self@.children,
                    name@,
                    i as int,
                ),
            decreases self.children@.len() - i,
        {
            assert(self@.children[i as int] == self.children@[i as int]@);
            if str_eq(self.children[i].name.as_str(), name) {
                return Some(&self.children[i]);
            }
            i = i + 1;
        }
        None
    }
}

/// A copy of a value.
pub fn copy_value(v: &Value) -> (r: Value)
    ensures
        r@ == v@,
{
    match v {
        Value::Int(x) => Value::Int(*x),
        Value::Int64(x) => Value::Int64(*x),
        Value::Bool(b) => Value::Bool(*b),
        Value::Double(b) => Value::Double(*b),
        Value::Str(t) => Value::Str(crate::text::string_of(&crate::text::chars_of(t.as_str()))),
        Value::Void => Value::Void,
        Value::Other(t, b) => Value::Other(*t, vstd::slice::slice_to_vec(b.as_slice())),
    }
}

/// A copy of a tree.
pub fn copy_node(n: &Node) -> (r: Node)
    ensures
        r@ == n@,
    decreases n,
{
    let name = crate::text::string_of(&crate::text::chars_of(n.name.as_str()));
    let mut props: Vec<(String, Value)> = Vec::new();
    let mut i: usize = 0;
    while i < n.props.len()
        invariant
            i <= n.props@.len(),
            props@.len() == i,
            props_view(props@) == props_view(n.props@).subrange(0, i as int),
        decreases n.props@.len() - i,
    {
        let pn = crate::text::string_of(&crate::text::chars_of(n.props[i].0.as_str()));
        let pv = copy_value(&n.props[i].1);
        let ghost before = props@;
        props.push((pn, pv));
        assert forall|k: int| 0 <= k <= i implies #[trigger] props_view(props@)[k] == props_view(
            n.props@,
        )[k] by {
            if k < i {
                assert(props@[k] == before[k]);
                assert(props_view(before)[k] == props_view(n.props@).subrange(0, i as int)[k]);
            }
        }
        assert(props_view(props@) =~= props_view(n.props@).subrange(0, i + 1));
        i = i + 1;
    }
    assert(props_view(n.props@).subrange(0, i as int) =~= props_view(n.props@));
    let mut children: Vec<Node> = Vec::new();
    let mut j: usize = 0;
    while j < n.children.len()
        invariant
            j <= n.children@.len(),
            children@.len() == j,
            nodes_view(children@) == nodes_view(n.children@).subrange(0, j as int),
        decreases n.children@.len() - j,
    {
        let c = copy_node(&n.children[j]);
        let ghost before = children@;
        children.push(c);
        assert forall|k: int| 0 <= k <= j implies #[trigger] nodes_view(children@)[k] == nodes_view(
            n.children@,
        )[k] by {
            if k < j {
                assert(children@[k] == before[k]);
                assert(nodes_view(before)[k] == nodes_view(n.children@).subrange(0, j as int)[k]);
            }
        }
        assert(nodes_view(children@) =~= nodes_view(n.children@).subrange(0, j + 1));
        j = j + 1;
    }
    assert(nodes_view(n.children@).subrange(0, j as int) =~= nodes_view(n.children@));
    let r = Node { name, props, children };
    proof {
        lemma_children_view(&r);
        lemma_children_view(n);
    }
    r
}

/// Depth-first search for the first node with the given name.
pub fn find_node<'a>(root: &'a Node, name: &str) -> (r: Option<&'a Node>)
    ensures
        r matches Some(n) ==> find_in(root@, name@) == Some(n@),
        r is None ==> find_in(root@, name@) is None,
    decreases root,
{
    if str_eq(root.name.as_str(), name) {
        return Some(root);
    }
    let mut i: usize = 0;
    assert(root@.children.subrange(0, root@.children.len() as int) =~= root@.children);
    while i < root.children.len()
        invariant
            i <= root.children@.len(),
            root@.name != name@,
            find_in(root@, name@) == find_in_children(
                root@.children.subrange(i as int, root@.children.len() as int),
                name@,
            ),
        decreases root.children@.len() - i,
    {
        let ghost rest = root@.children.subrange(i as int, root@.children.len() as int);
        assert(rest[0] == root@.children[i as int]);
        assert(root@.children[i as int] == root.children@[i as int]@);
        assert(rest.subrange(1, rest.len() as int) =~= root@.children.subrange(
            i + 1,
            root@.children.len() as int,
        ));
        match find_node(&root.children[i], name) {
            Some(found) => {
                return Some(found);
            },
            None => {},
        }
        i = i + 1;
    }
    assert(root@.children.subrange(i as int, root@.children.len() as int).len() == 0);
    None
}

// ---------------------------------------------------------------------------
// Text form of values
// ---------------------------------------------------------------------------

/// The text JUCE would write for a value in an XML attribute; doubles take
/// their text from the `FloatTexts` table.
pub open spec fn value_text(v: ValueModel, floats: FloatTextsModel) -> Seq<char> {
    match v {
        ValueModel::Int(x) => decimal(x as int),
        ValueModel::Int64(x) => decimal(x as int),
        ValueModel::Bool(b) => if b { seq!['t', 'r', 'u', 'e'] } else { seq!['f', 'a', 'l', 's', 'e'] },
        ValueModel::Double(bits) => shown_text(floats, bits),
        ValueModel::Str(s) => s,
        ValueModel::Void => Seq::empty(),
        ValueModel::Other(_, _) => Seq::empty(),
    }
}

impl Value {
    /// Text form as JUCE would write it into an XML attribute.
    pub fn text_chars(&self, floats: &FloatTexts) -> (r: Vec<char>)
        ensures
            r@ == value_text(self@, floats@),
    {
        match self {
            Value::Int(v) => decimal_text(*v as i64),
            Value::Int64(v) => decimal_text(*v),
            Value::Bool(b) => {
                let r = if *b { vec!['t', 'r', 'u', 'e'] } else { vec!['f', 'a', 'l', 's', 'e'] };
                assert(r@ == value_text(self@, floats@));
                r
            },
            Value::Double(bits) => floats.show(*bits),
            Value::Str(s) => chars_of(s.as_str()),
            Value::Void => Vec::new(),
            Value::Other(..) => Vec::new(),
        }
    }

    /// Text form as JUCE would write it into an XML attribute.
    pub fn as_text(&self, floats: &FloatTexts) -> (r: String)
        ensures
            r@ == value_text(self@, floats@),
    {
        let c = self.text_chars(floats);
        crate::text::string_of(&c)
    }
}


// ---------------------------------------------------------------------------
// Reading
// ---------------------------------------------------------------------------

/// The little-endian value of a byte sequence.
pub open spec fn le_value(s: Seq<u8>) -> nat
    decreases s.len(),
{
    if s.len() == 0 {
        0
    } else {
        s[0] as nat + 256 * le_value(s.drop_first())
    }
}

/// 256 to the power `n`.
pub open spec fn pow256(n: nat) -> nat
    decreases n,
{
    if n == 0 {
        1
    } else {
        256 * pow256((n - 1) as nat)
    }
}

/// A 64-bit pattern read as a two's-complement signed integer.
pub open spec fn signed64(u: int) -> int {
    if u < 0x8000_0000_0000_0000 {
        u
    } else {
        u - 0x1_0000_0000_0000_0000
    }
}

/// A 32-bit pattern read as a two's-complement signed integer.
pub open spec fn signed32(u: int) -> int {
    if u < 0x8000_0000 {
        u
    } else {
        u - 0x1_0000_0000
    }
}

/// Negation as a 64-bit machine does it: the most negative value stays.
pub open spec fn neg64(v: int) -> int {
    if v == -0x8000_0000_0000_0000 {
        v
    } else {
        -v
    }
}

/// JUCE's compressed integer at `p`: a length byte (sign in the top bit)
/// followed by that many little-endian magnitude bytes. Gives the value and
/// the position after it.
pub open spec fn cint_at(d: Seq<u8>, p: int) -> Option<(int, int)> {
    if p < 0 || p >= d.len() {
        None
    } else {
        let head = d[p];
        let n = (head % 128) as int;
        if n > 8 || p + 1 + n > d.len() {
            None
        } else {
            let u = signed64(le_value(d.subrange(p + 1, p + 1 + n)) as int);
            Some((if head >= 128 { neg64(u) } else { u }, p + 1 + n))
        }
    }
}

/// The first index at or after `p` that holds a zero byte, or the length.
pub open spec fn zero_from(d: Seq<u8>, p: int) -> int
    decreases d.len() - p,
{
    if p < 0 || p >= d.len() {
        d.len() as int
    } else if d[p] == 0 {
        p
    } else {
        zero_from(d, p + 1)
    }
}

/// A null-terminated string at `p`: its bytes and the position after the
/// terminator.
pub open spec fn cstr_at(d: Seq<u8>, p: int) -> Option<(Seq<u8>, int)> {
    let q = zero_from(d, p);
    if p < 0 || q >= d.len() {
        None
    } else {
        Some((d.subrange(p, q), q + 1))
    }
}

/// The value a var's type code and body denote.
pub open spec fn decode_var(ty: u8, body: Seq<u8>) -> ValueModel {
    if ty == 1 && body.len() == 4 {
        ValueModel::Int(signed32(le_value(body) as int) as i32)
    } else if ty == 2 && body.len() == 0 {
        ValueModel::Bool(true)
    } else if ty == 3 && body.len() == 0 {
        ValueModel::Bool(false)
    } else if ty == 4 && body.len() == 8 {
        ValueModel::Double(le_value(body) as u64)
    } else if ty == 5 && body.len() > 0 && body.last() == 0 {
        ValueModel::Str(lossy_utf8(body.drop_last()))
    } else if ty == 6 && body.len() == 8 {
        ValueModel::Int64(signed64(le_value(body) as int) as i64)
    } else {
        ValueModel::Other(ty, body)
    }
}

/// A var at `p`: size, type code, body.
pub open spec fn var_at(d: Seq<u8>, p: int) -> Option<(ValueModel, int)> {
    match cint_at(d, p) {
        None => None,
        Some((size, p1)) => {
            if size == 0 {
                Some((ValueModel::Void, p1))
            } else if size < 0 || p1 >= d.len() || p1 + size > d.len() {
                None
            } else {
                Some((decode_var(d[p1], d.subrange(p1 + 1, p1 + size)), p1 + size))
            }
        },
    }
}

/// `k` properties (name, var) at `p`.
pub open spec fn props_at(d: Seq<u8>, p: int, k: nat) -> Option<(Seq<(Seq<char>, ValueModel)>, int)>
    decreases k,
{
    if k == 0 {
        Some((Seq::empty(), p))
    } else {
        match cstr_at(d, p) {
            None => None,
            Some((raw, p1)) => match var_at(d, p1) {
                None => None,
                Some((v, p2)) => match props_at(d, p2, (k - 1) as nat) {
                    None => None,
                    Some((rest, p3)) => Some((seq![(lossy_utf8(raw), v)] + rest, p3)),
                },
            },
        }
    }
}

/// A count at `p` that lies in `0..MAX_ITEMS`.
pub open spec fn count_at(d: Seq<u8>, p: int) -> Option<(nat, int)> {
    match cint_at(d, p) {
        Some((n, p1)) => if 0 <= n < MAX_ITEMS { Some((n as nat, p1)) } else { None },
        None => None,
    }
}

/// A node at `p` nested `depth` levels deep, and the position after it.
pub open spec fn node_at(d: Seq<u8>, p: int, depth: int) -> Option<(NodeModel, int)>
    decreases 65 - depth, 1nat, 0nat,
{
    if depth < 0 || depth > MAX_DEPTH {
        None
    } else {
        match cstr_at(d, p) {
            None => None,
            Some((raw, p1)) => {
                let name = lossy_utf8(raw);
                if name.len() == 0 {
                    None
                } else {
                    match count_at(d, p1) {
                        None => None,
                        Some((np, p2)) => match props_at(d, p2, np) {
                            None => None,
                            Some((props, p3)) => match count_at(d, p3) {
                                None => None,
                                Some((nc, p4)) => match children_at(d, p4, nc, depth) {
                                    None => None,
                                    Some((children, p5)) => Some(
                                        (NodeModel { name, props, children }, p5),
                                    ),
                                },
                            },
                        },
                    }
                }
            },
        }
    }
}

/// `k` child nodes at `p`, each one level below `depth`.
pub open spec fn children_at(d: Seq<u8>, p: int, k: nat, depth: int) -> Option<(Seq<NodeModel>, int)>
    decreases 65 - depth, 0nat, k,
{
    if depth < 0 || depth > MAX_DEPTH {
        None
    } else if k == 0 {
        Some((Seq::empty(), p))
    } else {
        match node_at(d, p, depth + 1) {
            None => None,
            Some((c, p1)) => match children_at(d, p1, (k - 1) as nat, depth) {
                None => None,
                Some((rest, p2)) => Some((seq![c] + rest, p2)),
            },
        }
    }
}

// ---------------------------------------------------------------------------
// What the reader reports where the stream does not parse
// ---------------------------------------------------------------------------

/// The message for a compressed integer at `p` that cannot be read.
pub open spec fn cint_error(d: Seq<u8>, p: int) -> Seq<char> {
    if 0 <= p < d.len() && d[p] % 128 > 8 {
        "corrupt compressed integer in preset file"@
    } else {
        "unexpected end of preset file"@
    }
}

/// The message for a var at `p` that cannot be read.
pub open spec fn var_error(d: Seq<u8>, p: int) -> Seq<char> {
    match cint_at(d, p) {
        None => cint_error(d, p),
        Some((size, _)) => if size < 0 {
            "corrupt property size in preset file"@
        } else {
            "unexpected end of preset file"@
        },
    }
}

/// The message for a property count (or, with `children`, a child count)
/// at `p` that cannot be read or is out of range.
pub open spec fn count_error(d: Seq<u8>, p: int, children: bool) -> Seq<char> {
    match cint_at(d, p) {
        None => cint_error(d, p),
        Some(_) => if children {
            "implausible child count; not a JUCE binary preset file"@
        } else {
            "implausible property count; not a JUCE binary preset file"@
        },
    }
}

/// The message for `k` properties at `p` that cannot be read.
pub open spec fn props_error(d: Seq<u8>, p: int, k: nat) -> Seq<char>
    decreases k,
{
    if k == 0 {
        Seq::empty()
    } else {
        match cstr_at(d, p) {
            None => "unterminated string in preset file"@,
            Some((_, p1)) => match var_at(d, p1) {
                None => var_error(d, p1),
                Some((_, p2)) => props_error(d, p2, (k - 1) as nat),
            },
        }
    }
}

/// The message for a node at `p`, `depth` levels deep, that cannot be read.
pub open spec fn node_error(d: Seq<u8>, p: int, depth: int) -> Seq<char>
    decreases 65 - depth, 1nat, 0nat,
{
    if depth < 0 || depth > MAX_DEPTH {
        "preset file nests too deeply"@
    } else {
        match cstr_at(d, p) {
            None => "unterminated string in preset file"@,
            Some((raw, p1)) => if lossy_utf8(raw).len() == 0 {
                "empty node name; not a JUCE binary preset file"@
            } else {
                match count_at(d, p1) {
                    None => count_error(d, p1, false),
                    Some((np, p2)) => match props_at(d, p2, np) {
                        None => props_error(d, p2, np),
                        Some((_, p3)) => match count_at(d, p3) {
                            None => count_error(d, p3, true),
                            Some((nc, p4)) => children_error(d, p4, nc, depth),
                        },
                    },
                }
            },
        }
    }
}

/// The message for `k` child nodes at `p` that cannot be read.
pub open spec fn children_error(d: Seq<u8>, p: int, k: nat, depth: int) -> Seq<char>
    decreases 65 - depth, 0nat, k,
{
    if depth < 0 || depth > MAX_DEPTH || k == 0 {
        Seq::empty()
    } else {
        match node_at(d, p, depth + 1) {
            None => node_error(d, p, depth + 1),
            Some((_, p1)) => children_error(d, p1, (k - 1) as nat, depth),
        }
    }
}

/// The message `parse` gives for XML text.
pub open spec fn xml_text_error() -> Seq<char> {
    "this file is XML text, not a JUCE binary preset; it must be parsed with the XML reader instead"@
}

/// `le_value` is below `256^len`.
pub proof fn lemma_le_value_bound(s: Seq<u8>)
    ensures
        le_value(s) < pow256(s.len()),
    decreases s.len(),
{
    if s.len() > 0 {
        lemma_le_value_bound(s.drop_first());
        let r = le_value(s.drop_first());
        let p = pow256(s.drop_first().len());
        assert(s[0] as nat + 256 * r < 256 * p) by (nonlinear_arith)
            requires
                r < p,
                s[0] < 256,
        ;
    }
}

pub proof fn lemma_pow256_values()
    ensures
        pow256(0) == 1,
        pow256(1) == 0x100,
        pow256(2) == 0x1_0000,
        pow256(3) == 0x100_0000,
        pow256(4) == 0x1_0000_0000,
        pow256(5) == 0x100_0000_0000,
        pow256(6) == 0x1_0000_0000_0000,
        pow256(7) == 0x100_0000_0000_0000,
        pow256(8) == 0x1_0000_0000_0000_0000,
{
    reveal_with_fuel(pow256, 9);
}

/// Reads `n <= 8` little-endian bytes at `p` as a 64-bit pattern.
pub(crate) fn read_le(data: &[u8], p: usize, n: usize) -> (v: u64)
    requires
        n <= 8,
        p + n <= data.len(),
    ensures
        v as nat == le_value(data@.subrange(p as int, p + n)),
{
    let mut v: u64 = 0;
    let mut j: usize = n;
    proof {
        lemma_pow256_values();
        assert(data@.subrange(p + n, p + n) =~= Seq::<u8>::empty());
    }
    while j > 0
        invariant
            j <= n <= 8,
            p + n <= data.len(),
            v as nat == le_value(data@.subrange(p + j, p + n)),
            pow256(0) == 1,
            pow256(8) == 0x1_0000_0000_0000_0000,
        decreases j,
    {
        let ghost tail = data@.subrange(p + j, p + n);
        let ghost longer = data@.subrange(p + j - 1, p + n);
        assert(longer.drop_first() =~= tail);
        proof {
            lemma_le_value_bound(longer);
            lemma_pow_mono(longer.len(), 8);
        }
        let b = data[p + j - 1];
        assert(longer[0] == b);
        v = b as u64 + 256 * v;
        j = j - 1;
    }
    v
}

pub proof fn lemma_pow_mono(a: nat, b: nat)
    requires
        a <= b,
    ensures
        pow256(a) <= pow256(b),
    decreases b,
{
    if a < b {
        lemma_pow_mono(a, (b - 1) as nat);
        assert(pow256(b) == 256 * pow256((b - 1) as nat));
    }
}

pub proof fn lemma_u64_as_i64(u: u64)
    ensures
        (u as i64) as int == signed64(u as int),
{
    assert((u as i64) as int == if u < 0x8000_0000_0000_0000u64 {
        u as int
    } else {
        u as int - 0x1_0000_0000_0000_0000
    }) by (bit_vector);
}

proof fn lemma_u32_as_i32(u: u32)
    ensures
        (u as i32) as int == signed32(u as int),
{
    assert((u as i32) as int == if u < 0x8000_0000u32 {
        u as int
    } else {
        u as int - 0x1_0000_0000
    }) by (bit_vector);
}

/// JUCE `OutputStream::writeCompressedInt`, read back.
fn read_compressed_int(data: &[u8], p: usize) -> (r: Result<(i64, usize)>)
    ensures
        r matches Ok((_, q)) ==> q <= data@.len(),
        r matches Ok((v, q)) ==> cint_at(data@, p as int) == Some((v as int, q as int)),
        r is Err ==> cint_at(data@, p as int) is None,
        r matches Err(e) ==> e.0@ == cint_error(data@, p as int),
{
    if p >= data.len() {
        return err("unexpected end of preset file");
    }
    let head = data[p];
    let negative = head >= 128;
    let n = (head % 128) as usize;
    if n > 8 {
        return err("corrupt compressed integer in preset file");
    }
    if n > data.len() - p - 1 {
        return err("unexpected end of preset file");
    }
    let u = read_le(data, p + 1, n);
    let v = u as i64;
    proof {
        lemma_u64_as_i64(u);
    }
    let r = if negative {
        if v == i64::MIN { v } else { -v }
    } else {
        v
    };
    Ok((r, p + 1 + n))
}

/// Bytes up to (not including) the next zero byte, and the position after it.
fn read_cstr(data: &[u8], p: usize) -> (r: Result<(&[u8], usize)>)
    ensures
        r matches Ok((_, q)) ==> q <= data@.len(),
        r matches Ok((s, q)) ==> cstr_at(data@, p as int) == Some((s@, q as int)),
        r is Err ==> cstr_at(data@, p as int) is None,
        r matches Err(e) ==> e.0@ == "unterminated string in preset file"@,
{
    let mut q = p;
    while q < data.len() && data[q] != 0
        invariant
            p <= q,
            zero_from(data@, p as int) == zero_from(data@, q as int),
        decreases data@.len() - q,
    {
        q = q + 1;
    }
    if q >= data.len() {
        return err("unterminated string in preset file");
    }
    Ok((vstd::slice::slice_subrange(data, p, q), q + 1))
}

/// A var: compressed-int size, type code, body.
fn read_var(data: &[u8], p: usize) -> (r: Result<(Value, usize)>)
    ensures
        r matches Ok((_, q)) ==> q <= data@.len(),
        r matches Ok((v, q)) ==> var_at(data@, p as int) == Some((v@, q as int)),
        r is Err ==> var_at(data@, p as int) is None,
        r matches Err(e) ==> e.0@ == var_error(data@, p as int),
{
    let (size, p1) = match read_compressed_int(data, p) {
        Ok(x) => x,
        Err(e) => {
            return Err(e);
        },
    };
    if size == 0 {
        return Ok((Value::Void, p1));
    }
    if size < 0 {
        return err("corrupt property size in preset file");
    }
    if p1 >= data.len() || (size as u64) > (data.len() - p1) as u64 {
        return err("unexpected end of preset file");
    }
    let ty = data[p1];
    let end = p1 + size as usize;
    let body = vstd::slice::slice_subrange(data, p1 + 1, end);
    let n = body.len();
    proof {
        lemma_pow256_values();
    }
    proof {
        lemma_le_value_bound(body@);
    }
    let v = if ty == 1 && n == 4 {
        let u = read_le(body, 0, 4);
        assert(body@.subrange(0, 4) =~= body@);
        let w = u as u32;
        assert(w as int == u as int);
        proof { lemma_u32_as_i32(w); }
        let x = w as i32;
        assert(x as int == signed32(le_value(body@) as int));
        Value::Int(x)
    } else if ty == 2 && n == 0 {
        Value::Bool(true)
    } else if ty == 3 && n == 0 {
        Value::Bool(false)
    } else if ty == 4 && n == 8 {
        let u = read_le(body, 0, 8);
        assert(body@.subrange(0, 8) =~= body@);
        Value::Double(u)
    } else if ty == 5 && n > 0 && body[n - 1] == 0 {
        let text = from_utf8_lossy(vstd::slice::slice_subrange(body, 0, n - 1));
        assert(body@.subrange(0, n - 1) =~= body@.drop_last());
        Value::Str(text)
    } else if ty == 6 && n == 8 {
        let u = read_le(body, 0, 8);
        assert(body@.subrange(0, 8) =~= body@);
        proof { lemma_u64_as_i64(u); }
        let x = u as i64;
        assert(x as int == signed64(le_value(body@) as int));
        Value::Int64(x)
    } else {
        Value::Other(ty, vstd::slice::slice_to_vec(body))
    };
    Ok((v, end))
}

/// A property count (or, with `children`, a child count) in `0..MAX_ITEMS`.
fn read_count(data: &[u8], p: usize, children: bool) -> (r: Result<(usize, usize)>)
    ensures
        r matches Ok((_, q)) ==> q <= data@.len(),
        r matches Ok((n, q)) ==> count_at(data@, p as int) == Some((n as nat, q as int)),
        r is Err ==> count_at(data@, p as int) is None,
        r matches Err(e) ==> e.0@ == count_error(data@, p as int, children),
{
    let (n, q) = match read_compressed_int(data, p) {
        Ok(x) => x,
        Err(e) => {
            return Err(e);
        },
    };
    if n < 0 || n >= MAX_ITEMS {
        if children {
            return err("implausible child count; not a JUCE binary preset file");
        }
        return err("implausible property count; not a JUCE binary preset file");
    }
    Ok((n as usize, q))
}

fn read_props(data: &[u8], p: usize, k: usize) -> (r: Result<(Vec<(String, Value)>, usize)>)
    requires
        p <= data@.len(),
    ensures
        r matches Ok((_, q)) ==> q <= data@.len(),
        r matches Ok((props, q)) ==> props_at(data@, p as int, k as nat) == Some(
            (props_view(props@), q as int),
        ),
        r is Err ==> props_at(data@, p as int, k as nat) is None,
        r matches Err(e) ==> e.0@ == props_error(data@, p as int, k as nat),
{
    let mut props: Vec<(String, Value)> = Vec::new();
    let mut pos = p;
    let mut i: usize = 0;
    while i < k
        invariant
            i <= k,
            pos <= data@.len(),
            props_at(data@, p as int, k as nat) == match props_at(data@, pos as int, (k - i) as nat) {
                None => None,
                Some((rest, e)) => Some((props_view(props@) + rest, e)),
            },
            props_error(data@, p as int, k as nat) == props_error(data@, pos as int, (k - i) as nat),
        decreases k - i,
    {
        let (raw, p1) = match read_cstr(data, pos) {
            Ok(x) => x,
            Err(e) => {
                return Err(e);
            },
        };
        let (value, p2) = match read_var(data, p1) {
            Ok(x) => x,
            Err(e) => {
                return Err(e);
            },
        };
        let name = from_utf8_lossy(raw);
        let ghost before = props_view(props@);
        props.push((name, value));
        assert(props_view(props@) =~= before + seq![(name@, value@)]);
        proof {
            match props_at(data@, p2 as int, (k - i - 1) as nat) {
                Some((rest, e)) => {
                    assert(before + (seq![(name@, value@)] + rest) =~= props_view(props@) + rest);
                },
                None => {},
            }
        }
        pos = p2;
        i = i + 1;
    }
    assert(props_view(props@) + Seq::empty() =~= props_view(props@));
    Ok((props, pos))
}

/// The plain content of a list of nodes.
pub open spec fn nodes_view(cs: Seq<Node>) -> Seq<NodeModel> {
    Seq::new(cs.len(), |i: int| cs[i]@)
}

pub proof fn lemma_children_view(n: &Node)
    ensures
        n@.children =~= nodes_view(n.children@),
{
}

fn read_node(data: &[u8], p: usize, depth: usize) -> (r: Result<(Node, usize)>)
    ensures
        r matches Ok((_, q)) ==> q <= data@.len(),
        r matches Ok((node, q)) ==> node_at(data@, p as int, depth as int) == Some(
            (node@, q as int),
        ),
        r is Err ==> node_at(data@, p as int, depth as int) is None,
        r matches Err(e) ==> e.0@ == node_error(data@, p as int, depth as int),
    decreases 65 - depth, 1nat, 0nat,
{
    if depth > MAX_DEPTH {
        return err("preset file nests too deeply");
    }
    let (raw, p1) = match read_cstr(data, p) {
        Ok(x) => x,
        Err(e) => {
            return Err(e);
        },
    };
    let name = from_utf8_lossy(raw);
    if name.as_str().is_empty() {
        return err("empty node name; not a JUCE binary preset file");
    }
    let (np, p2) = match read_count(data, p1, false) {
        Ok(x) => x,
        Err(e) => {
            return Err(e);
        },
    };
    let (props, p3) = match read_props(data, p2, np) {
        Ok(x) => x,
        Err(e) => {
            return Err(e);
        },
    };
    let (nc, p4) = match read_count(data, p3, true) {
        Ok(x) => x,
        Err(e) => {
            return Err(e);
        },
    };
    let (children, p5) = match read_children(data, p4, nc, depth) {
        Ok(x) => x,
        Err(e) => {
            return Err(e);
        },
    };
    let node = Node { name, props, children };
    proof {
        lemma_children_view(&node);
    }
    Ok((node, p5))
}

fn read_children(data: &[u8], p: usize, k: usize, depth: usize) -> (r: Result<(Vec<Node>, usize)>)
    requires
        p <= data@.len(),
        depth <= MAX_DEPTH,
    ensures
        r matches Ok((_, q)) ==> q <= data@.len(),
        r matches Ok((cs, q)) ==> children_at(data@, p as int, k as nat, depth as int) == Some(
            (nodes_view(cs@), q as int),
        ),
        r is Err ==> children_at(data@, p as int, k as nat, depth as int) is None,
        r matches Err(e) ==> e.0@ == children_error(data@, p as int, k as nat, depth as int),
    decreases 65 - depth, 0nat, k,
{
    if k == 0 {
        return Ok((Vec::new(), p));
    }
    let (first, p1) = match read_node(data, p, depth + 1) {
        Ok(x) => x,
        Err(e) => {
            return Err(e);
        },
    };
    let (rest, p2) = match read_children(data, p1, k - 1, depth) {
        Ok(x) => x,
        Err(e) => {
            return Err(e);
        },
    };
    let mut cs: Vec<Node> = Vec::new();
    cs.push(first);
    let ghost rest_view = nodes_view(rest@);
    let mut rest = rest;
    cs.append(&mut rest);
    assert(nodes_view(cs@) =~= seq![first@] + rest_view);
    Ok((cs, p2))
}

/// Parse a JUCE binary preset file. XML text is refused: it belongs to the
/// XML reader.
pub fn parse(data: &[u8]) -> (r: Result<Node>)
    ensures
        r is Ok <==> !(data@.len() > 0 && data@[0] == 0x3c) && node_at(data@, 0, 0) is Some,
        r matches Ok(n) ==> node_at(data@, 0, 0) matches Some((m, _)) && m == n@,
        r matches Err(e) ==> e.0@ == if data@.len() > 0 && data@[0] == 0x3c {
            xml_text_error()
        } else {
            node_error(data@, 0, 0)
        },
{
    if data.len() > 0 && data[0] == 0x3c {
        return err(
            "this file is XML text, not a JUCE binary preset; it must be parsed with the XML reader instead",
        );
    }
    match parse_with_len(data) {
        Ok((node, _)) => Ok(node),
        Err(e) => Err(e),
    }
}

/// Parse one tree and report how many bytes it occupied, so callers can
/// split trailing data (e.g. the JUCEPrivateData block after a plugin state)
/// from the tree itself.
pub fn parse_with_len(data: &[u8]) -> (r: Result<(Node, usize)>)
    ensures
        r matches Ok((_, n)) ==> n <= data@.len(),
        r matches Ok((n, len)) ==> node_at(data@, 0, 0) == Some((n@, len as int)),
        r is Err ==> node_at(data@, 0, 0) is None,
        r matches Err(e) ==> e.0@ == node_error(data@, 0, 0),
{
    read_node(data, 0, 0)
}


// ---------------------------------------------------------------------------
// Writing
// ---------------------------------------------------------------------------

/// The number of bytes needed to hold `v` (0 for 0).
pub open spec fn byte_len(v: nat) -> nat
    decreases v,
{
    if v == 0 {
        0
    } else {
        1 + byte_len(v / 256)
    }
}

/// The low `n` bytes of `v`, least significant first.
pub open spec fn le_bytes(v: nat, n: nat) -> Seq<u8>
    decreases n,
{
    if n == 0 {
        Seq::empty()
    } else {
        seq![(v % 256) as u8] + le_bytes(v / 256, (n - 1) as nat)
    }
}

/// JUCE's compressed form of a non-negative integer: the byte count, then
/// the minimal little-endian bytes.
pub open spec fn cuint_bytes(v: nat) -> Seq<u8> {
    if v == 0 {
        seq![0u8]
    } else {
        seq![byte_len(v) as u8] + le_bytes(v, byte_len(v))
    }
}

/// The 32-bit two's-complement pattern of an integer.
pub open spec fn bits32(x: int) -> nat {
    if x < 0 {
        (x + 0x1_0000_0000) as nat
    } else {
        x as nat
    }
}

/// The 64-bit two's-complement pattern of an integer.
pub open spec fn bits64(x: int) -> nat {
    if x < 0 {
        (x + 0x1_0000_0000_0000_0000) as nat
    } else {
        x as nat
    }
}

/// A size as the 64-bit field it is written into.
pub open spec fn wrap64(n: nat) -> nat {
    (n % 0x1_0000_0000_0000_0000) as nat
}

/// The encoding of one var.
pub open spec fn var_bytes(v: ValueModel) -> Seq<u8> {
    match v {
        ValueModel::Void => cuint_bytes(0),
        ValueModel::Int(x) => cuint_bytes(5) + seq![1u8] + le_bytes(bits32(x as int), 4),
        ValueModel::Bool(b) => cuint_bytes(1) + seq![if b { 2u8 } else { 3u8 }],
        ValueModel::Double(bits) => cuint_bytes(9) + seq![4u8] + le_bytes(bits as nat, 8),
        ValueModel::Str(s) => cuint_bytes(wrap64(encode_utf8(s).len() + 2)) + seq![5u8]
            + encode_utf8(s) + seq![0u8],
        ValueModel::Int64(x) => cuint_bytes(9) + seq![6u8] + le_bytes(bits64(x as int), 8),
        ValueModel::Other(ty, body) => cuint_bytes(wrap64(body.len() + 1)) + seq![ty] + body,
    }
}

/// A small size in JUCE's compressed form: one count byte, then the size.
proof fn lemma_small_cuint(v: nat)
    requires
        0 < v < 256,
    ensures
        cuint_bytes(v) == seq![1u8, v as u8],
{
    assert(byte_len(v / 256) == 0);
    assert(byte_len(v) == 1);
    assert(le_bytes(v / 256, 0) =~= Seq::<u8>::empty());
    assert(le_bytes(v, 1) =~= seq![v as u8]);
}

/// JUCE's var type codes, fixed wherever a var stands: a var of size 1 with
/// code 2 reads as true and with code 3 as false; a var of size 5 with code
/// 1 reads as a 32-bit integer, and one of size 9 with code 4 as a double
/// and with code 6 as a 64-bit integer; code 5 with a NUL-terminated body
/// reads as text. The writer writes each kind with those codes.
pub proof fn lemma_var_type_codes(
    d: Seq<u8>,
    p: int,
    x: i32,
    bits: u64,
    y: i64,
    body: Seq<u8>,
    text: Seq<char>,
)
    ensures
        0 <= p && p + 3 <= d.len() && d[p] == 1 && d[p + 1] == 1 && d[p + 2] == 2 ==> var_at(d, p)
            == Some((ValueModel::Bool(true), p + 3)),
        0 <= p && p + 3 <= d.len() && d[p] == 1 && d[p + 1] == 1 && d[p + 2] == 3 ==> var_at(d, p)
            == Some((ValueModel::Bool(false), p + 3)),
        0 <= p && p + 7 <= d.len() && d[p] == 1 && d[p + 1] == 5 && d[p + 2] == 1 ==> (var_at(d, p)
            is Some && var_at(d, p).unwrap().0 is Int && var_at(d, p).unwrap().1 == p + 7),
        0 <= p && p + 11 <= d.len() && d[p] == 1 && d[p + 1] == 9 && d[p + 2] == 4 ==> (var_at(d, p)
            is Some && var_at(d, p).unwrap().0 is Double && var_at(d, p).unwrap().1 == p + 11),
        0 <= p && p + 11 <= d.len() && d[p] == 1 && d[p + 1] == 9 && d[p + 2] == 6 ==> (var_at(d, p)
            is Some && var_at(d, p).unwrap().0 is Int64 && var_at(d, p).unwrap().1 == p + 11),
        body.len() > 0 && body.last() == 0 ==> decode_var(5, body) == ValueModel::Str(
            lossy_utf8(body.drop_last()),
        ),
        var_bytes(ValueModel::Str(text)).subrange(
            0,
            cuint_bytes(wrap64(encode_utf8(text).len() + 2)).len() + 1int,
        )
            == cuint_bytes(wrap64(encode_utf8(text).len() + 2)).push(5u8),
        var_bytes(ValueModel::Bool(true)) == seq![1u8, 1u8, 2u8],
        var_bytes(ValueModel::Bool(false)) == seq![1u8, 1u8, 3u8],
        var_bytes(ValueModel::Int(x)).subrange(0, 3) == seq![1u8, 5u8, 1u8],
        var_bytes(ValueModel::Double(bits)).subrange(0, 3) == seq![1u8, 9u8, 4u8],
        var_bytes(ValueModel::Int64(y)).subrange(0, 3) == seq![1u8, 9u8, 6u8],
{
    lemma_small_cuint(1);
    lemma_small_cuint(5);
    lemma_small_cuint(9);
    let cb = cuint_bytes(wrap64(encode_utf8(text).len() + 2));
    assert(var_bytes(ValueModel::Str(text)).subrange(0, cb.len() + 1int) =~= cb.push(5u8));
    assert(var_bytes(ValueModel::Bool(true)) =~= seq![1u8, 1u8, 2u8]);
    assert(var_bytes(ValueModel::Bool(false)) =~= seq![1u8, 1u8, 3u8]);
    assert(var_bytes(ValueModel::Int(x)).subrange(0, 3) =~= seq![1u8, 5u8, 1u8]);
    assert(var_bytes(ValueModel::Double(bits)).subrange(0, 3) =~= seq![1u8, 9u8, 4u8]);
    assert(var_bytes(ValueModel::Int64(y)).subrange(0, 3) =~= seq![1u8, 9u8, 6u8]);
    if 0 <= p && p + 3 <= d.len() && d[p] == 1 {
        let b = d.subrange(p + 1, p + 2);
        assert(b.drop_first() =~= Seq::<u8>::empty());
        assert(b[0] == d[p + 1]);
        assert(le_value(b.drop_first()) == 0);
        assert(le_value(b) == d[p + 1] as nat);
        assert(cint_at(d, p) == Some((d[p + 1] as int, p + 2)));
    }
}

/// The encoding of a property list.
pub open spec fn props_bytes(ps: Seq<(Seq<char>, ValueModel)>) -> Seq<u8>
    decreases ps.len(),
{
    if ps.len() == 0 {
        Seq::empty()
    } else {
        encode_utf8(ps[0].0) + seq![0u8] + var_bytes(ps[0].1) + props_bytes(ps.drop_first())
    }
}

/// The encoding of a node.
pub open spec fn node_bytes(n: NodeModel) -> Seq<u8>
    decreases n, 1nat,
{
    encode_utf8(n.name) + seq![0u8] + cuint_bytes(n.props.len()) + props_bytes(n.props)
        + cuint_bytes(n.children.len()) + nodes_bytes(n.children)
}

/// The encoding of a list of nodes, one after another.
pub open spec fn nodes_bytes(cs: Seq<NodeModel>) -> Seq<u8>
    decreases cs, 0nat,
{
    if cs.len() == 0 {
        Seq::empty()
    } else {
        node_bytes(cs[0]) + nodes_bytes(cs.subrange(1, cs.len() as int))
    }
}

proof fn lemma_byte_len_bound(v: nat, k: nat)
    requires
        v < pow256(k),
    ensures
        byte_len(v) <= k,
    decreases k,
{
    if v > 0 {
        assert(k > 0);
        assert(pow256(k) == 256 * pow256((k - 1) as nat));
        lemma_byte_len_bound(v / 256, (k - 1) as nat);
    }
}

pub(crate) fn push_le(out: &mut Vec<u8>, v: u64, n: usize)
    ensures
        final(out)@ == old(out)@ + le_bytes(v as nat, n as nat),
{
    let ghost start = out@;
    let mut x = v;
    let mut i: usize = 0;
    while i < n
        invariant
            i <= n,
            out@ + le_bytes(x as nat, (n - i) as nat) == start + le_bytes(v as nat, n as nat),
        decreases n - i,
    {
        let ghost before = out@;
        out.push((x % 256) as u8);
        assert(le_bytes(x as nat, (n - i) as nat) == seq![(x % 256) as u8] + le_bytes(
            (x / 256) as nat,
            (n - i - 1) as nat,
        ));
        assert(out@ + le_bytes((x / 256) as nat, (n - i - 1) as nat) =~= before + le_bytes(
            x as nat,
            (n - i) as nat,
        ));
        x = x / 256;
        i = i + 1;
    }
    assert(le_bytes(x as nat, 0) =~= Seq::<u8>::empty());
    assert(out@ =~= out@ + le_bytes(x as nat, 0));
}

/// JUCE `OutputStream::writeCompressedInt` for a non-negative value.
fn write_compressed_uint(out: &mut Vec<u8>, v: u64)
    ensures
        final(out)@ == old(out)@ + cuint_bytes(v as nat),
{
    if v == 0 {
        out.push(0);
        return;
    }
    let mut len: usize = 0;
    let mut x = v;
    proof {
        lemma_pow256_values();
        lemma_byte_len_bound(v as nat, 8);
    }
    while x > 0
        invariant
            len + byte_len(x as nat) == byte_len(v as nat),
            byte_len(v as nat) <= 8,
        decreases x,
    {
        x = x / 256;
        len = len + 1;
    }
    out.push(len as u8);
    push_le(out, v, len);
    assert(cuint_bytes(v as nat) =~= seq![len as u8] + le_bytes(v as nat, len as nat));
}

proof fn lemma_i32_bits(x: i32)
    ensures
        ((x as u32) as u64) as nat == bits32(x as int),
{
    assert(((x as u32) as u64) as int == if x < 0 {
        x as int + 0x1_0000_0000
    } else {
        x as int
    }) by (bit_vector);
}

pub proof fn lemma_i64_bits(x: i64)
    ensures
        (x as u64) as nat == bits64(x as int),
{
    assert((x as u64) as int == if x < 0 {
        x as int + 0x1_0000_0000_0000_0000
    } else {
        x as int
    }) by (bit_vector);
}

fn write_str0(out: &mut Vec<u8>, s: &str)
    ensures
        final(out)@ == old(out)@ + encode_utf8(s@) + seq![0u8],
{
    push_all_bytes(out, s.as_bytes());
    out.push(0);
}

fn write_var(out: &mut Vec<u8>, value: &Value)
    ensures
        final(out)@ == old(out)@ + var_bytes(value@),
{
    let ghost start = out@;
    match value {
        Value::Void => {
            write_compressed_uint(out, 0);
        },
        Value::Int(v) => {
            write_compressed_uint(out, 5);
            out.push(1);
            proof { lemma_i32_bits(*v); }
            push_le(out, (*v as u32) as u64, 4);
            assert(out@ =~= start + var_bytes(value@));
        },
        Value::Bool(b) => {
            write_compressed_uint(out, 1);
            out.push(if *b { 2 } else { 3 });
            assert(out@ =~= start + var_bytes(value@));
        },
        Value::Double(bits) => {
            write_compressed_uint(out, 9);
            out.push(4);
            push_le(out, *bits, 8);
            assert(out@ =~= start + var_bytes(value@));
        },
        Value::Str(s) => {
            let b = s.as_str().as_bytes();
            write_compressed_uint(out, (b.len() as u64).wrapping_add(2));
            out.push(5);
            write_str0(out, s.as_str());
            assert(out@ =~= start + var_bytes(value@));
        },
        Value::Int64(v) => {
            write_compressed_uint(out, 9);
            out.push(6);
            proof { lemma_i64_bits(*v); }
            push_le(out, *v as u64, 8);
            assert(out@ =~= start + var_bytes(value@));
        },
        Value::Other(ty, body) => {
            write_compressed_uint(out, (body.len() as u64).wrapping_add(1));
            out.push(*ty);
            push_all_bytes(out, body.as_slice());
            assert(out@ =~= start + var_bytes(value@));
        },
    }
}


fn write_node(out: &mut Vec<u8>, node: &Node)
    ensures
        final(out)@ == old(out)@ + node_bytes(node@),
    decreases node,
{
    let ghost start = out@;
    write_str0(out, node.name.as_str());
    write_compressed_uint(out, node.props.len() as u64);
    let mut i: usize = 0;
    let ghost mid = out@;
    assert(node@.props.subrange(0, node@.props.len() as int) =~= node@.props);
    while i < node.props.len()
        invariant
            i <= node.props@.len(),
            out@ + props_bytes(node@.props.subrange(i as int, node@.props.len() as int)) == mid
                + props_bytes(node@.props),
        decreases node.props@.len() - i,
    {
        let ghost rest = node@.props.subrange(i as int, node@.props.len() as int);
        let ghost before = out@;
        assert(rest[0] == (node.props@[i as int].0@, node.props@[i as int].1@));
        assert(rest.drop_first() =~= node@.props.subrange(i + 1, node@.props.len() as int));
        write_str0(out, node.props[i].0.as_str());
        write_var(out, &node.props[i].1);
        assert(out@ + props_bytes(rest.drop_first()) =~= before + props_bytes(rest));
        i = i + 1;
    }
    assert(node@.props.subrange(i as int, node@.props.len() as int).len() == 0);
    assert(out@ =~= mid + props_bytes(node@.props));
    assert(node@.children.len() == node.children@.len());
    write_compressed_uint(out, node.children.len() as u64);
    let ghost mid2 = out@;
    let mut j: usize = 0;
    assert(node@.children.subrange(0, node@.children.len() as int) =~= node@.children);
    while j < node.children.len()
        invariant
            j <= node.children@.len(),
            node@.children.len() == node.children@.len(),
            out@ + nodes_bytes(node@.children.subrange(j as int, node@.children.len() as int))
                == mid2 + nodes_bytes(node@.children),
        decreases node.children@.len() - j,
    {
        let ghost rest = node@.children.subrange(j as int, node@.children.len() as int);
        let ghost before = out@;
        assert(rest[0] == node.children@[j as int]@);
        assert(rest.subrange(1, rest.len() as int) =~= node@.children.subrange(
            j + 1,
            node@.children.len() as int,
        ));
        write_node(out, &node.children[j]);
        assert(out@ + nodes_bytes(rest.subrange(1, rest.len() as int)) =~= before + nodes_bytes(
            rest,
        ));
        j = j + 1;
    }
    assert(node@.children.subrange(j as int, node@.children.len() as int).len() == 0);
    assert(out@ =~= start + node_bytes(node@));
}

/// Serialize a tree in JUCE's binary format.
pub fn write(node: &Node) -> (r: Vec<u8>)
    ensures
        r@ == node_bytes(node@),
{
    let mut out: Vec<u8> = Vec::new();
    write_node(&mut out, node);
    assert(out@ =~= node_bytes(node@));
    out
}


// ---------------------------------------------------------------------------
// Reading back what was written
// ---------------------------------------------------------------------------

/// `s` has no NUL character.
pub open spec fn no_nul(s: Seq<char>) -> bool {
    forall|i: int| 0 <= i < s.len() ==> s[i] != '\0'
}

/// A value that the writer encodes so that the reader gives it back: a
/// text or payload of sane size, and an `Other` that does not look like
/// one of the typed vars.
pub open spec fn value_writable(v: ValueModel) -> bool {
    match v {
        ValueModel::Str(s) => encode_utf8(s).len() + 2 < 0x8000_0000_0000_0000,
        ValueModel::Other(ty, body) => body.len() + 1 < 0x8000_0000_0000_0000 && decode_var(
            ty,
            body,
        ) == ValueModel::Other(ty, body),
        _ => true,
    }
}

/// A tree, nested `depth` levels deep, that the writer encodes so that the
/// reader gives it back: non-empty names without NUL characters, property
/// and child counts below `MAX_ITEMS`, nesting within `MAX_DEPTH`, and
/// writable values.
pub open spec fn node_writable(n: NodeModel, depth: int) -> bool
    decreases n,
{
    &&& 0 <= depth <= MAX_DEPTH
    &&& n.name.len() > 0
    &&& no_nul(n.name)
    &&& n.props.len() < MAX_ITEMS
    &&& n.children.len() < MAX_ITEMS
    &&& forall|i: int| 0 <= i < n.props.len() ==> no_nul(#[trigger] n.props[i].0) && value_writable(
        n.props[i].1,
    )
    &&& forall|i: int|
        0 <= i < n.children.len() ==> node_writable(#[trigger] n.children[i], depth + 1)
}

/// `s` is found in `d` at position `p`.
pub open spec fn found_at(d: Seq<u8>, p: int, s: Seq<u8>) -> bool {
    &&& 0 <= p
    &&& p + s.len() <= d.len()
    &&& forall|i: int| 0 <= i < s.len() ==> d[p + i] == #[trigger] s[i]
}

pub proof fn lemma_found_split(d: Seq<u8>, p: int, a: Seq<u8>, b: Seq<u8>)
    requires
        found_at(d, p, a + b),
    ensures
        found_at(d, p, a),
        found_at(d, p + a.len(), b),
{
    assert forall|i: int| 0 <= i < a.len() implies d[p + i] == #[trigger] a[i] by {
        assert((a + b)[i] == a[i]);
    }
    assert forall|i: int| 0 <= i < b.len() implies d[p + a.len() + i] == #[trigger] b[i] by {
        assert((a + b)[a.len() + i] == b[i]);
    }
}

pub proof fn lemma_found_subrange(d: Seq<u8>, p: int, s: Seq<u8>)
    requires
        found_at(d, p, s),
    ensures
        d.subrange(p, p + s.len()) == s,
{
    assert forall|i: int| 0 <= i < s.len() implies d.subrange(p, p + s.len())[i] == s[i] by {
        assert(d[p + i] == s[i]);
    }
    assert(d.subrange(p, p + s.len()) =~= s);
}

pub proof fn lemma_found_byte(d: Seq<u8>, p: int, s: Seq<u8>, i: int)
    requires
        found_at(d, p, s),
        0 <= i < s.len(),
    ensures
        d[p + i] == s[i],
{
}

pub proof fn lemma_pow256_pos(n: nat)
    ensures
        pow256(n) > 0,
    decreases n,
{
    if n > 0 {
        lemma_pow256_pos((n - 1) as nat);
    }
}

proof fn lemma_cuint_small(v: nat)
    requires
        0 < v < 256,
    ensures
        cuint_bytes(v) == seq![1u8, v as u8],
{
    assert(byte_len(v / 256) == 0);
    assert(byte_len(v) == 1);
    assert(le_bytes(v / 256, 0) =~= Seq::<u8>::empty());
    assert(le_bytes(v, 1) =~= seq![v as u8]);
    assert(cuint_bytes(v) =~= seq![1u8, v as u8]);
}

pub proof fn lemma_le_bytes_value(v: nat, n: nat)
    ensures
        le_value(le_bytes(v, n)) == v % pow256(n),
        le_bytes(v, n).len() == n,
    decreases n,
{
    if n == 0 {
        assert(le_bytes(v, n) =~= Seq::<u8>::empty());
    } else {
        lemma_le_bytes_value(v / 256, (n - 1) as nat);
        let s = le_bytes(v, n);
        assert(s.drop_first() =~= le_bytes(v / 256, (n - 1) as nat));
        assert(s[0] as nat == v % 256);
        lemma_pow256_pos((n - 1) as nat);
        vstd::arithmetic::div_mod::lemma_mod_breakdown(v as int, 256, pow256((n - 1) as nat) as int);
    }
}

proof fn lemma_byte_len_fits(v: nat)
    ensures
        v < pow256(byte_len(v)),
        v > 0 ==> byte_len(v) > 0,
    decreases v,
{
    if v > 0 {
        lemma_byte_len_fits(v / 256);
        assert(pow256(byte_len(v)) == 256 * pow256(byte_len(v / 256)));
    }
}

proof fn lemma_cuint_read(v: nat, d: Seq<u8>, p: int)
    requires
        v < 0x8000_0000_0000_0000,
        found_at(d, p, cuint_bytes(v)),
    ensures
        cint_at(d, p) == Some((v as int, p + cuint_bytes(v).len())),
{
    lemma_pow256_values();
    if v == 0 {
        lemma_found_byte(d, p, cuint_bytes(v), 0);
        assert(d.subrange(p + 1, p + 1) =~= Seq::<u8>::empty());
    } else {
        let n = byte_len(v);
        lemma_byte_len_fits(v);
        lemma_byte_len_bound(v, 8);
        lemma_le_bytes_value(v, n);
        vstd::arithmetic::div_mod::lemma_small_mod(v, pow256(n));
        lemma_found_split(d, p, seq![n as u8], le_bytes(v, n));
        lemma_found_byte(d, p, seq![n as u8], 0);
        lemma_found_subrange(d, p + 1, le_bytes(v, n));
    }
}

proof fn lemma_encode_no_zero(s: Seq<char>)
    requires
        no_nul(s),
    ensures
        forall|i: int| 0 <= i < encode_utf8(s).len() ==> encode_utf8(s)[i] != 0,
    decreases s.len(),
{
    if s.len() > 0 {
        lemma_encode_no_zero(s.drop_first());
        let c = s[0] as u32;
        char_is_scalar(s[0]);
        if c == 0 {
            char_u32_cast(s[0], c);
            assert(s[0] != '\0');
            assert((0u32 as char) == '\0');
        }
        assert(c != 0);
        let e = encode_scalar(c);
        assert(forall|i: int| 0 <= i < e.len() ==> e[i] != 0) by {
            assert(c != 0 && c <= 0x7f ==> (c & 0x7f) as u8 != 0) by (bit_vector);
            assert((0xC0u8 | ((c >> 6) & 0x1F) as u8) != 0) by (bit_vector);
            assert((0xE0u8 | ((c >> 12) & 0x0F) as u8) != 0) by (bit_vector);
            assert((0xF0u8 | ((c >> 18) & 0x7) as u8) != 0) by (bit_vector);
            assert((0x80u8 | (c & 0x3F) as u8) != 0) by (bit_vector);
            assert((0x80u8 | ((c >> 6) & 0x3F) as u8) != 0) by (bit_vector);
            assert((0x80u8 | ((c >> 12) & 0x3F) as u8) != 0) by (bit_vector);
        }
        assert(encode_utf8(s) == e + encode_utf8(s.drop_first()));
        assert forall|i: int| 0 <= i < encode_utf8(s).len() implies encode_utf8(s)[i] != 0 by {
            if i < e.len() {
                assert(encode_utf8(s)[i] == e[i]);
            } else {
                assert(encode_utf8(s)[i] == encode_utf8(s.drop_first())[i - e.len()]);
            }
        }
    }
}

proof fn lemma_zero_from_skip(d: Seq<u8>, p: int, q: int)
    requires
        0 <= p <= q < d.len(),
        d[q] == 0,
        forall|i: int| p <= i < q ==> d[i] != 0,
    ensures
        zero_from(d, p) == q,
    decreases q - p,
{
    if p < q {
        lemma_zero_from_skip(d, p + 1, q);
    }
}

proof fn lemma_cstr_read(s: Seq<char>, d: Seq<u8>, p: int)
    requires
        no_nul(s),
        found_at(d, p, encode_utf8(s) + seq![0u8]),
    ensures
        cstr_at(d, p) == Some((encode_utf8(s), p + encode_utf8(s).len() + 1)),
        lossy_utf8(encode_utf8(s)) == s,
{
    let e = encode_utf8(s);
    lemma_encode_no_zero(s);
    lemma_found_split(d, p, e, seq![0u8]);
    assert forall|i: int| p <= i < p + e.len() implies d[i] != 0 by {
        lemma_found_byte(d, p, e, i - p);
    }
    lemma_found_byte(d, p + e.len(), seq![0u8], 0);
    lemma_found_subrange(d, p, e);
    lemma_zero_from_skip(d, p, p + e.len());
    encode_utf8_valid_utf8(s);
    encode_utf8_decode_utf8(s);
}

proof fn lemma_le_bytes_decode(v: nat, n: nat)
    requires
        v < pow256(n),
    ensures
        le_value(le_bytes(v, n)) == v,
{
    lemma_le_bytes_value(v, n);
    vstd::arithmetic::div_mod::lemma_small_mod(v, pow256(n));
}

proof fn lemma_var_read(v: ValueModel, d: Seq<u8>, p: int)
    requires
        value_writable(v),
        found_at(d, p, var_bytes(v)),
    ensures
        var_at(d, p) == Some((v, p + var_bytes(v).len())),
{
    lemma_pow256_values();
    match v {
        ValueModel::Void => {
            lemma_cuint_read(0, d, p);
        },
        ValueModel::Int(x) => {
            lemma_found_split(d, p, cuint_bytes(5) + seq![1u8], le_bytes(bits32(x as int), 4));
            lemma_found_split(d, p, cuint_bytes(5), seq![1u8]);
            lemma_cuint_read(5, d, p);
            lemma_cuint_small(5);
            lemma_found_byte(d, p + 2, seq![1u8], 0);
            lemma_le_bytes_decode(bits32(x as int), 4);
            lemma_le_bytes_value(bits32(x as int), 4);
            lemma_found_subrange(d, p + 3, le_bytes(bits32(x as int), 4));
            assert(signed32(bits32(x as int) as int) == x as int);
        },
        ValueModel::Bool(b) => {
            lemma_found_split(d, p, cuint_bytes(1), seq![if b { 2u8 } else { 3u8 }]);
            lemma_cuint_read(1, d, p);
            lemma_cuint_small(1);
            lemma_found_byte(d, p + 2, seq![if b { 2u8 } else { 3u8 }], 0);
            assert(d.subrange(p + 3, p + 3) =~= Seq::<u8>::empty());
        },
        ValueModel::Double(bits) => {
            lemma_found_split(d, p, cuint_bytes(9) + seq![4u8], le_bytes(bits as nat, 8));
            lemma_found_split(d, p, cuint_bytes(9), seq![4u8]);
            lemma_cuint_read(9, d, p);
            lemma_cuint_small(9);
            lemma_found_byte(d, p + 2, seq![4u8], 0);
            lemma_le_bytes_decode(bits as nat, 8);
            lemma_le_bytes_value(bits as nat, 8);
            lemma_found_subrange(d, p + 3, le_bytes(bits as nat, 8));
        },
        ValueModel::Int64(x) => {
            lemma_found_split(d, p, cuint_bytes(9) + seq![6u8], le_bytes(bits64(x as int), 8));
            lemma_found_split(d, p, cuint_bytes(9), seq![6u8]);
            lemma_cuint_read(9, d, p);
            lemma_cuint_small(9);
            lemma_found_byte(d, p + 2, seq![6u8], 0);
            lemma_le_bytes_decode(bits64(x as int), 8);
            lemma_le_bytes_value(bits64(x as int), 8);
            lemma_found_subrange(d, p + 3, le_bytes(bits64(x as int), 8));
            assert(signed64(bits64(x as int) as int) == x as int);
        },
        ValueModel::Str(t) => {
            let e = encode_utf8(t);
            let size = wrap64(e.len() + 2);
            assert(size == e.len() + 2);
            let c = cuint_bytes(size);
            lemma_found_split(d, p, c + seq![5u8] + e, seq![0u8]);
            lemma_found_split(d, p, c + seq![5u8], e);
            lemma_found_split(d, p, c, seq![5u8]);
            lemma_cuint_read(size, d, p);
            let p1 = p + c.len();
            lemma_found_byte(d, p1, seq![5u8], 0);
            lemma_found_split(d, p1 + 1, e, seq![0u8]);
            lemma_found_subrange(d, p1 + 1, e + seq![0u8]);
            let body = d.subrange(p1 + 1, p1 + size);
            assert(body =~= e + seq![0u8]);
            assert(body.drop_last() =~= e);
            encode_utf8_valid_utf8(t);
            encode_utf8_decode_utf8(t);
        },
        ValueModel::Other(ty, body) => {
            let size = wrap64(body.len() + 1);
            assert(size == body.len() + 1);
            let c = cuint_bytes(size);
            lemma_found_split(d, p, c + seq![ty], body);
            lemma_found_split(d, p, c, seq![ty]);
            lemma_cuint_read(size, d, p);
            lemma_found_byte(d, p + c.len(), seq![ty], 0);
            lemma_found_subrange(d, p + c.len() + 1, body);
        },
    }
}

proof fn lemma_props_read(ps: Seq<(Seq<char>, ValueModel)>, d: Seq<u8>, p: int)
    requires
        forall|i: int| 0 <= i < ps.len() ==> no_nul(#[trigger] ps[i].0) && value_writable(ps[i].1),
        found_at(d, p, props_bytes(ps)),
    ensures
        props_at(d, p, ps.len()) == Some((ps, p + props_bytes(ps).len())),
    decreases ps.len(),
{
    if ps.len() == 0 {
        assert(ps =~= Seq::<(Seq<char>, ValueModel)>::empty());
    } else {
        let e = encode_utf8(ps[0].0) + seq![0u8];
        let vb = var_bytes(ps[0].1);
        let rest = props_bytes(ps.drop_first());
        assert(props_bytes(ps) == e + vb + rest);
        lemma_found_split(d, p, e + vb, rest);
        lemma_found_split(d, p, e, vb);
        assert(no_nul(ps[0].0));
        lemma_cstr_read(ps[0].0, d, p);
        lemma_var_read(ps[0].1, d, p + e.len());
        assert forall|i: int| 0 <= i < ps.drop_first().len() implies no_nul(
            #[trigger] ps.drop_first()[i].0,
        ) && value_writable(ps.drop_first()[i].1) by {
            assert(ps.drop_first()[i] == ps[i + 1]);
        }
        lemma_props_read(ps.drop_first(), d, p + e.len() + vb.len());
        assert(seq![(lossy_utf8(encode_utf8(ps[0].0)), ps[0].1)] + ps.drop_first() =~= ps);
    }
}

proof fn lemma_node_read(n: NodeModel, d: Seq<u8>, p: int, depth: int)
    requires
        node_writable(n, depth),
        found_at(d, p, node_bytes(n)),
    ensures
        node_at(d, p, depth) == Some((n, p + node_bytes(n).len())),
    decreases n, 1nat,
{
    let a = encode_utf8(n.name) + seq![0u8];
    let b = cuint_bytes(n.props.len());
    let c = props_bytes(n.props);
    let e = cuint_bytes(n.children.len());
    let f = nodes_bytes(n.children);
    assert(node_bytes(n) == a + b + c + e + f);
    lemma_found_split(d, p, a + b + c + e, f);
    lemma_found_split(d, p, a + b + c, e);
    lemma_found_split(d, p, a + b, c);
    lemma_found_split(d, p, a, b);
    lemma_cstr_read(n.name, d, p);
    let p1 = p + a.len();
    lemma_cuint_read(n.props.len(), d, p1);
    let p2 = p1 + b.len();
    lemma_props_read(n.props, d, p2);
    let p3 = p2 + c.len();
    lemma_cuint_read(n.children.len(), d, p3);
    let p4 = p3 + e.len();
    lemma_nodes_read(n.children, d, p4, depth);
}

proof fn lemma_nodes_read(cs: Seq<NodeModel>, d: Seq<u8>, p: int, depth: int)
    requires
        0 <= depth <= MAX_DEPTH,
        forall|i: int| 0 <= i < cs.len() ==> node_writable(#[trigger] cs[i], depth + 1),
        found_at(d, p, nodes_bytes(cs)),
    ensures
        children_at(d, p, cs.len(), depth) == Some((cs, p + nodes_bytes(cs).len())),
    decreases cs, 0nat,
{
    if cs.len() == 0 {
        assert(cs =~= Seq::<NodeModel>::empty());
    } else {
        let rest = cs.subrange(1, cs.len() as int);
        assert(nodes_bytes(cs) == node_bytes(cs[0]) + nodes_bytes(rest));
        lemma_found_split(d, p, node_bytes(cs[0]), nodes_bytes(rest));
        assert(node_writable(cs[0], depth + 1));
        lemma_node_read(cs[0], d, p, depth + 1);
        assert forall|i: int| 0 <= i < rest.len() implies node_writable(
            #[trigger] rest[i],
            depth + 1,
        ) by {
            assert(rest[i] == cs[i + 1]);
        }
        lemma_nodes_read(rest, d, p + node_bytes(cs[0]).len(), depth);
        assert(seq![cs[0]] + rest =~= cs);
    }
}

/// Reading back what the writer wrote gives the same tree and consumes
/// exactly the written bytes.
pub proof fn lemma_write_then_parse(n: NodeModel)
    requires
        node_writable(n, 0),
    ensures
        node_at(node_bytes(n), 0, 0) == Some((n, node_bytes(n).len() as int)),
{
    lemma_node_read(n, node_bytes(n), 0, 0);
}

/// Parsing a stream that begins with a tree as the writer (and JUCE)
/// writes it, whatever bytes follow, reads exactly that tree's bytes, and
/// writing the tree again reproduces them byte for byte.
pub proof fn lemma_parse_then_write(n: NodeModel, tail: Seq<u8>)
    requires
        node_writable(n, 0),
    ensures
        node_at(node_bytes(n) + tail, 0, 0) matches Some((m, len)) && len == node_bytes(n).len()
            && node_bytes(m) == (node_bytes(n) + tail).subrange(0, len),
{
    let d = node_bytes(n) + tail;
    assert(found_at(d, 0, node_bytes(n))) by {
        assert forall|i: int| 0 <= i < node_bytes(n).len() implies d[0 + i]
            == #[trigger] node_bytes(n)[i] by {}
    }
    lemma_node_read(n, d, 0, 0);
    assert(d.subrange(0, node_bytes(n).len() as int) =~= node_bytes(n));
}


/// Reading a tree the writer wrote, whatever follows it, gives that tree
/// and consumes exactly its bytes.
pub proof fn lemma_write_then_parse_tail(n: NodeModel, tail: Seq<u8>)
    requires
        node_writable(n, 0),
    ensures
        node_at(node_bytes(n) + tail, 0, 0) == Some((n, node_bytes(n).len() as int)),
{
    let d = node_bytes(n) + tail;
    assert(found_at(d, 0, node_bytes(n))) by {
        assert forall|i: int| 0 <= i < node_bytes(n).len() implies d[0 + i]
            == #[trigger] node_bytes(n)[i] by {}
    }
    lemma_node_read(n, d, 0, 0);
}

} // verus!
