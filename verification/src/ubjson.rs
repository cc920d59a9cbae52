//! Reader and writer for the UBJSON (Universal Binary JSON) container that
//! Universal Audio's UADx plugins use for their component state, in place of
//! JUCE's XML or ValueTree. The state is a UBJSON object whose
//! `plugin_state_payload` member holds the real parameters as a JSON text
//! string (stored as an int8 array).
//!
//! Only the subset UA actually emits is handled: objects (with the `#count`
//! optimization), int8-typed arrays (the payload), the five integer widths,
//! strings, floats, booleans and null. Lengths and counts are written in the
//! smallest integer type that fits, which reproduces UA's own encoding.
//! Floats are kept as their bit patterns.

use vstd::prelude::*;
use vstd::utf8::*;
use crate::text::{from_utf8_lossy, lossy_utf8, message_with, push_all_bytes, str_eq};
use crate::valuetree::{
    bits64, found_at, lemma_found_byte, lemma_found_split, lemma_found_subrange, lemma_i64_bits,
    lemma_u64_as_i64, pow256, signed64,
};
use crate::{err, Error, Result};

verus! {

broadcast use vstd::utf8::group_utf8_lib;

/// Lengths and counts at or above this are treated as corrupt data.
pub const MAX_ITEMS: i64 = 1_000_000;

/// Values nested deeper than this are treated as corrupt data.
pub const MAX_DEPTH: usize = 64;

/// A UBJSON value.
pub enum Value {
    Null,
    Bool(bool),
    /// An integer, remembering the UBJSON type byte it was stored under so a
    /// value round-trips under its original width.
    Int { v: i64, ty: u8 },
    /// A 32-bit float, as its bit pattern.
    Float32(u32),
    /// A 64-bit float, as its bit pattern.
    Float64(u64),
    Str(String),
    /// An `[$i#..]` int8 array, kept as its raw bytes; this is how the JSON
    /// payload strings are stored.
    Bytes(Vec<u8>),
    Array(Vec<Value>),
    Object(Vec<(String, Value)>),
}

/// The plain content of a `Value`.
pub enum ValueModel {
    Null,
    Bool(bool),
    Int { v: i64, ty: u8 },
    Float32(u32),
    Float64(u64),
    Str(Seq<char>),
    Bytes(Seq<u8>),
    Array(Seq<ValueModel>),
    Object(Seq<(Seq<char>, ValueModel)>),
}

impl View for Value {
    type V = ValueModel;

    open spec fn view(&self) -> ValueModel
        decreases self, 1nat,
    {
        match self {
            Value::Null => ValueModel::Null,
            Value::Bool(b) => ValueModel::Bool(*b),
            Value::Int { v, ty } => ValueModel::Int { v: *v, ty: *ty },
            Value::Float32(b) => ValueModel::Float32(*b),
            Value::Float64(b) => ValueModel::Float64(*b),
            Value::Str(s) => ValueModel::Str(s@),
            Value::Bytes(b) => ValueModel::Bytes(b@),
            Value::Array(items) => ValueModel::Array(items_view(items@)),
            Value::Object(members) => ValueModel::Object(members_view(members@)),
        }
    }
}

/// The plain content of a list of values.
pub open spec fn items_view(s: Seq<Value>) -> Seq<ValueModel>
    decreases s, 0nat,
{
    if s.len() == 0 {
        Seq::empty()
    } else {
        seq![s[0].view()] + items_view(s.subrange(1, s.len() as int))
    }
}

/// The plain content of a list of object members.
pub open spec fn members_view(s: Seq<(String, Value)>) -> Seq<(Seq<char>, ValueModel)>
    decreases s, 0nat,
{
    if s.len() == 0 {
        Seq::empty()
    } else {
        seq![(s[0].0@, s[0].1.view())] + members_view(s.subrange(1, s.len() as int))
    }
}

/// The members of an object's plain content (empty for other kinds).
pub open spec fn members_of(v: ValueModel) -> Seq<(Seq<char>, ValueModel)> {
    match v {
        ValueModel::Object(m) => m,
        _ => Seq::empty(),
    }
}

/// The members of an object (empty for other kinds).
pub open spec fn exec_members(v: Value) -> Seq<(String, Value)> {
    match v {
        Value::Object(m) => m@,
        _ => Seq::empty(),
    }
}

/// An object's plain content, given element by element.
proof fn lemma_object_view(v: Value, ms: Seq<(Seq<char>, ValueModel)>)
    requires
        v is Object,
        exec_members(v).len() == ms.len(),
        forall|j: int| 0 <= j < ms.len() ==> #[trigger] ms[j] == (exec_members(v)[j].0@, exec_members(v)[j].1@),
    ensures
        v@ == ValueModel::Object(ms),
{
    lemma_object_elems(v);
    assert(members_of(v@) =~= ms);
}

/// The plain content of members, element by element.
pub proof fn lemma_members_view(s: Seq<(String, Value)>)
    ensures
        members_view(s).len() == s.len(),
        forall|j: int| 0 <= j < s.len() ==> #[trigger] members_view(s)[j] == (s[j].0@, s[j].1@),
    decreases s.len(),
{
    if s.len() > 0 {
        let rest = s.subrange(1, s.len() as int);
        lemma_members_view(rest);
        assert(members_view(s) == seq![(s[0].0@, s[0].1@)] + members_view(rest));
        assert forall|j: int| 0 <= j < s.len() implies #[trigger] members_view(s)[j] == (
            s[j].0@,
            s[j].1@,
        ) by {
            if j > 0 {
                assert(members_view(s)[j] == members_view(rest)[j - 1]);
                assert(rest[j - 1] == s[j]);
            }
        }
    }
}

/// The plain content of items, element by element.
pub proof fn lemma_items_view(s: Seq<Value>)
    ensures
        items_view(s).len() == s.len(),
        forall|j: int| 0 <= j < s.len() ==> #[trigger] items_view(s)[j] == s[j]@,
    decreases s.len(),
{
    if s.len() > 0 {
        let rest = s.subrange(1, s.len() as int);
        lemma_items_view(rest);
        assert(items_view(s) == seq![s[0]@] + items_view(rest));
        assert forall|j: int| 0 <= j < s.len() implies #[trigger] items_view(s)[j] == s[j]@ by {
            if j > 0 {
                assert(items_view(s)[j] == items_view(rest)[j - 1]);
                assert(rest[j - 1] == s[j]);
            }
        }
    }
}

/// The members of an object's plain content.
proof fn lemma_object_elems(v: Value)
    requires
        v is Object,
    ensures
        v@ is Object,
        members_of(v@).len() == exec_members(v).len(),
        forall|j: int| 0 <= j < exec_members(v).len() ==> #[trigger] members_of(v@)[j] == (
            exec_members(v)[j].0@,
            exec_members(v)[j].1@,
        ),
{
    lemma_members_view(exec_members(v));
}

/// The index of the first member named `key`, from index `i` on.
pub open spec fn member_index_from(ms: Seq<(Seq<char>, ValueModel)>, key: Seq<char>, i: int) -> Option<int>
    decreases ms.len() - i,
{
    if i < 0 || i >= ms.len() {
        None
    } else if ms[i].0 == key {
        Some(i)
    } else {
        member_index_from(ms, key, i + 1)
    }
}

/// The value under `key` in an object value.
pub open spec fn get_spec(v: ValueModel, key: Seq<char>) -> Option<ValueModel> {
    match v {
        ValueModel::Object(ms) => match member_index_from(ms, key, 0) {
            Some(i) => Some(ms[i].1),
            None => None,
        },
        _ => None,
    }
}

/// An object value with the member under `key` replaced (or unchanged when
/// there is none).
pub open spec fn set_spec(v: ValueModel, key: Seq<char>, new: ValueModel) -> ValueModel {
    match v {
        ValueModel::Object(ms) => match member_index_from(ms, key, 0) {
            Some(i) => ValueModel::Object(ms.update(i, (ms[i].0, new))),
            None => v,
        },
        _ => v,
    }
}

impl Value {
    /// Members of an object value, or None for any other kind.
    pub fn members(&self) -> (r: Option<&Vec<(String, Value)>>)
        ensures
            r is Some <==> self@ is Object,
            r matches Some(m) ==> m@ == exec_members(*self),
            r matches Some(m) ==> self@ is Object && members_of(self@).len() == m.len() && forall|j: int|
                0 <= j < m.len() ==> #[trigger] members_of(self@)[j] == (m@[j].0@, m@[j].1@),
    {
        match self {
            Value::Object(m) => {
                proof {
                    lemma_object_elems(*self);
                }
                Some(m)
            },
            _ => None,
        }
    }

    /// Borrow the value stored under `key` in an object.
    pub fn get(&self, key: &str) -> (r: Option<&Value>)
        ensures
            r matches Some(v) ==> get_spec(self@, key@) == Some(v@),
            r is None ==> get_spec(self@, key@) is None,
    {
        match self.members() {
            Some(ms) => {
                let ghost msv = members_of(self@);
                let mut i: usize = 0;
                while i < ms.len()
                    invariant
                        i <= ms@.len(),
                        msv.len() == ms@.len(),
                        self@ == ValueModel::Object(msv),
                        forall|j: int| 0 <= j < ms@.len() ==> #[trigger] msv[j] == (
                            ms@[j].0@,
                            ms@[j].1@,
                        ),
                        member_index_from(msv, key@, 0) == member_index_from(msv, key@, i as int),
                    decreases ms@.len() - i,
                {
                    assert(msv[i as int] == (ms@[i as int].0@, ms@[i as int].1@));
                    if str_eq(ms[i].0.as_str(), key) {
                        return Some(&ms[i].1);
                    }
                    i = i + 1;
                }
                None
            },
            None => None,
        }
    }

    /// The index of the member named `key` in an object.
    fn member_index(&self, key: &str) -> (r: Option<usize>)
        ensures
            r matches Some(i) ==> self@ is Object && member_index_from(members_of(self@), key@, 0)
                == Some(i as int),
            self@ is Object && r is None ==> member_index_from(members_of(self@), key@, 0) is None,
            !(self@ is Object) ==> r is None,
            r matches Some(i) ==> i < exec_members(*self).len(),
    {
        match self.members() {
            Some(ms) => {
                let ghost msv = members_of(self@);
                let mut i: usize = 0;
                while i < ms.len()
                    invariant
                        i <= ms@.len(),
                        msv.len() == ms@.len(),
                        msv == members_of(self@),
                        self@ is Object,
                        ms@ == exec_members(*self),
                        forall|j: int| 0 <= j < ms@.len() ==> #[trigger] msv[j] == (
                            ms@[j].0@,
                            ms@[j].1@,
                        ),
                        member_index_from(msv, key@, 0) == member_index_from(msv, key@, i as int),
                    decreases ms@.len() - i,
                {
                    assert(msv[i as int] == (ms@[i as int].0@, ms@[i as int].1@));
                    if str_eq(ms[i].0.as_str(), key) {
                        return Some(i);
                    }
                    i = i + 1;
                }
                None
            },
            None => None,
        }
    }

    /// Replace (or, if absent, do nothing to) the value under `key` in an
    /// object. Returns whether a member was found and set.
    pub fn set(&mut self, key: &str, value: Value) -> (found: bool)
        ensures
            final(self)@ == set_spec(old(self)@, key@, value@),
            found == (get_spec(old(self)@, key@) is Some),
    {
        let idx = self.member_index(key);
        match idx {
            None => false,
            Some(i) => {
                let ghost msv = members_of(self@);
                let ghost value_view = value@;
                let mut taken = Value::Null;
                std::mem::swap(&mut taken, self);
                proof {
                    lemma_object_elems(taken);
                }
                match taken {
                    Value::Object(mut ms) => {
                        let name = ms[i].0.clone();
                        let ghost before = ms@;
                        ms.set(i, (name, value));
                        let ghost want = msv.update(i as int, (msv[i as int].0, value_view));
                        assert forall|j: int| 0 <= j < ms@.len() implies #[trigger] want[j] == (
                            ms@[j].0@,
                            ms@[j].1@,
                        ) by {
                            if j != i {
                                assert(ms@[j] == before[j]);
                            }
                        }
                        let obj = Value::Object(ms);
                        proof {
                            lemma_object_view(obj, want);
                        }
                        *self = obj;
                        true
                    },
                    _ => false,
                }
            },
        }
    }

    /// The bytes of a `Bytes` value (the raw payload), or None.
    pub fn as_bytes(&self) -> (r: Option<&Vec<u8>>)
        ensures
            r matches Some(b) ==> self@ == ValueModel::Bytes(b@),
            r is None ==> !(self@ is Bytes),
    {
        match self {
            Value::Bytes(b) => Some(b),
            _ => None,
        }
    }

    /// The text of a `Str` value, or None.
    pub fn as_str(&self) -> (r: Option<&str>)
        ensures
            r matches Some(s) ==> self@ == ValueModel::Str(s@),
            r is None ==> !(self@ is Str),
    {
        match self {
            Value::Str(s) => Some(s.as_str()),
            _ => None,
        }
    }
}


/// A copy of a value.
pub fn copy_value(v: &Value) -> (r: Value)
    ensures
        r@ == v@,
    decreases v,
{
    match v {
        Value::Null => Value::Null,
        Value::Bool(b) => Value::Bool(*b),
        Value::Int { v: x, ty } => Value::Int { v: *x, ty: *ty },
        Value::Float32(b) => Value::Float32(*b),
        Value::Float64(b) => Value::Float64(*b),
        Value::Str(t) => Value::Str(crate::text::string_of(&crate::text::chars_of(t.as_str()))),
        Value::Bytes(b) => Value::Bytes(vstd::slice::slice_to_vec(b.as_slice())),
        Value::Array(items) => {
            let mut out: Vec<Value> = Vec::new();
            let mut i: usize = 0;
            proof {
                lemma_items_view(items@);
            }
            while i < items.len()
                invariant
                    i <= items@.len(),
                    *v == Value::Array(*items),
                    out@.len() == i,
                    forall|j: int| 0 <= j < i ==> #[trigger] out@[j]@ == items@[j]@,
                decreases items@.len() - i,
            {
                proof {
                    assert(decreases_to!(*v => (*v)->Array_0));
                    assert(decreases_to!(*items => items@));
                    assert(decreases_to!(items@ => items@[i as int]));
                }
                let c = copy_value(&items[i]);
                out.push(c);
                i = i + 1;
            }
            proof {
                lemma_items_view(out@);
                assert(items_view(out@) =~= items_view(items@));
            }
            Value::Array(out)
        },
        Value::Object(members) => {
            let mut out: Vec<(String, Value)> = Vec::new();
            let mut i: usize = 0;
            proof {
                lemma_members_view(members@);
            }
            while i < members.len()
                invariant
                    i <= members@.len(),
                    *v == Value::Object(*members),
                    out@.len() == i,
                    forall|j: int| 0 <= j < i ==> #[trigger] out@[j].0@ == members@[j].0@ && out@[j].1@
                        == members@[j].1@,
                decreases members@.len() - i,
            {
                proof {
                    assert(decreases_to!(*v => (*v)->Object_0));
                    assert(decreases_to!(*members => members@));
                    assert(decreases_to!(members@ => members@[i as int]));
                    assert(decreases_to!(members@[i as int] => members@[i as int].1));
                }
                let k = crate::text::string_of(&crate::text::chars_of(members[i].0.as_str()));
                let c = copy_value(&members[i].1);
                out.push((k, c));
                i = i + 1;
            }
            proof {
                lemma_members_view(out@);
                assert(members_view(out@) =~= members_view(members@));
            }
            Value::Object(out)
        },
    }
}

// ---------------------------------------------------------------------------
// Reading
// ---------------------------------------------------------------------------

/// The big-endian value of a byte sequence.
pub open spec fn be_value(s: Seq<u8>) -> nat
    decreases s.len(),
{
    if s.len() == 0 {
        0
    } else {
        be_value(s.drop_last()) * 256 + s.last() as nat
    }
}

/// The byte width of a UBJSON integer type, or 0 for another type byte.
pub open spec fn int_width(ty: u8) -> int {
    if ty == 0x69 || ty == 0x55 { 1 }
    else if ty == 0x49 { 2 }
    else if ty == 0x6c { 4 }
    else if ty == 0x4c { 8 }
    else { 0 }
}

/// A two's-complement reading of an unsigned pattern of `bits` bits.
pub open spec fn signed_of(u: int, half: int) -> int {
    if u < half { u } else { u - 2 * half }
}

/// The integer of type `ty` (big-endian) at `p`, and the position after it.
pub open spec fn int_at(d: Seq<u8>, p: int, ty: u8) -> Option<(int, int)> {
    let w = int_width(ty);
    if w == 0 || p < 0 || p + w > d.len() {
        None
    } else {
        let u = be_value(d.subrange(p, p + w)) as int;
        let v = if ty == 0x69 {
            signed_of(u, 0x80)
        } else if ty == 0x55 {
            u
        } else if ty == 0x49 {
            signed_of(u, 0x8000)
        } else if ty == 0x6c {
            signed_of(u, 0x8000_0000)
        } else {
            signed_of(u, 0x8000_0000_0000_0000)
        };
        Some((v, p + w))
    }
}

/// The byte at `p`.
pub open spec fn byte_at(d: Seq<u8>, p: int) -> Option<u8> {
    if 0 <= p < d.len() { Some(d[p]) } else { None }
}

/// A length or count at `p`: a typed integer in `0..MAX_ITEMS`.
pub open spec fn len_at(d: Seq<u8>, p: int) -> Option<(nat, int)> {
    match byte_at(d, p) {
        None => None,
        Some(ty) => match int_at(d, p + 1, ty) {
            Some((n, q)) => if 0 <= n < MAX_ITEMS { Some((n as nat, q)) } else { None },
            None => None,
        },
    }
}

/// `n` raw bytes at `p`.
pub open spec fn take_at(d: Seq<u8>, p: int, n: int) -> Option<(Seq<u8>, int)> {
    if p < 0 || n < 0 || p + n > d.len() { None } else { Some((d.subrange(p, p + n), p + n)) }
}

/// A length-prefixed string at `p` (an object key, or a string body).
pub open spec fn text_at(d: Seq<u8>, p: int) -> Option<(Seq<char>, int)> {
    match len_at(d, p) {
        None => None,
        Some((n, p1)) => match take_at(d, p1, n as int) {
            Some((b, p2)) => Some((lossy_utf8(b), p2)),
            None => None,
        },
    }
}

/// A value of type `ty` (the type byte already read) at `p`.
pub open spec fn value_at(d: Seq<u8>, p: int, ty: u8, depth: int) -> Option<(ValueModel, int)>
    decreases 65 - depth, 2nat, 0int,
{
    if depth < 0 || depth > MAX_DEPTH {
        None
    } else if ty == 0x5a {
        Some((ValueModel::Null, p))
    } else if ty == 0x54 {
        Some((ValueModel::Bool(true), p))
    } else if ty == 0x46 {
        Some((ValueModel::Bool(false), p))
    } else if int_width(ty) != 0 {
        match int_at(d, p, ty) {
            Some((v, q)) => Some((ValueModel::Int { v: v as i64, ty }, q)),
            None => None,
        }
    } else if ty == 0x64 {
        match take_at(d, p, 4) {
            Some((b, q)) => Some((ValueModel::Float32(be_value(b) as u32), q)),
            None => None,
        }
    } else if ty == 0x44 {
        match take_at(d, p, 8) {
            Some((b, q)) => Some((ValueModel::Float64(be_value(b) as u64), q)),
            None => None,
        }
    } else if ty == 0x53 {
        match text_at(d, p) {
            Some((t, q)) => Some((ValueModel::Str(t), q)),
            None => None,
        }
    } else if ty == 0x7b {
        object_at(d, p, depth)
    } else if ty == 0x5b {
        array_at(d, p, depth)
    } else {
        None
    }
}

/// An object's contents at `p` (after its `{`).
pub open spec fn object_at(d: Seq<u8>, p: int, depth: int) -> Option<(ValueModel, int)>
    decreases 65 - depth, 1nat, 0int,
{
    if depth < 0 || depth > MAX_DEPTH {
        None
    } else {
        match byte_at(d, p) {
            None => None,
            Some(b) => if b == 0x23 {
                match len_at(d, p + 1) {
                    None => None,
                    Some((n, p1)) => match members_counted(d, p1, n, depth) {
                        Some((ms, q)) => Some((ValueModel::Object(ms), q)),
                        None => None,
                    },
                }
            } else {
                match members_open(d, p, depth) {
                    Some((ms, q)) => Some((ValueModel::Object(ms), q)),
                    None => None,
                }
            },
        }
    }
}

/// One object member at `p`: key, type byte, value.
pub open spec fn member_at(d: Seq<u8>, p: int, depth: int) -> Option<((Seq<char>, ValueModel), int)>
    decreases 65 - depth, 0nat, 0int,
{
    if depth < 0 || depth > MAX_DEPTH {
        None
    } else {
        match text_at(d, p) {
            None => None,
            Some((key, p1)) => match byte_at(d, p1) {
                None => None,
                Some(ty) => match value_at(d, p1 + 1, ty, depth + 1) {
                    Some((v, q)) => Some(((key, v), q)),
                    None => None,
                },
            },
        }
    }
}

/// `k` members at `p`.
pub open spec fn members_counted(d: Seq<u8>, p: int, k: nat, depth: int) -> Option<(Seq<(Seq<char>, ValueModel)>, int)>
    decreases 65 - depth, 0nat, k + 1,
{
    if depth < 0 || depth > MAX_DEPTH {
        None
    } else if k == 0 {
        Some((Seq::empty(), p))
    } else {
        match member_at(d, p, depth) {
            None => None,
            Some((m, p1)) => match members_counted(d, p1, (k - 1) as nat, depth) {
                Some((rest, q)) => Some((seq![m] + rest, q)),
                None => None,
            },
        }
    }
}

/// Members at `p` up to a closing `}`.
pub open spec fn members_open(d: Seq<u8>, p: int, depth: int) -> Option<(Seq<(Seq<char>, ValueModel)>, int)>
    decreases 65 - depth, 0nat, d.len() - p + 1,
{
    if depth < 0 || depth > MAX_DEPTH || p < 0 || p >= d.len() {
        None
    } else if d[p] == 0x7d {
        Some((Seq::empty(), p + 1))
    } else {
        match member_at(d, p, depth) {
            None => None,
            Some((m, p1)) => if p1 <= p || p1 > d.len() {
                None
            } else {
                match members_open(d, p1, depth) {
                    Some((rest, q)) => Some((seq![m] + rest, q)),
                    None => None,
                }
            },
        }
    }
}

/// One array item at `p`, of type `elem` when the array is typed, else
/// with its own type byte.
pub open spec fn item_at(d: Seq<u8>, p: int, elem: Option<u8>, depth: int) -> Option<(ValueModel, int)>
    decreases 65 - depth, 0nat, 0int,
{
    if depth < 0 || depth > MAX_DEPTH {
        None
    } else {
        match elem {
            Some(t) => value_at(d, p, t, depth + 1),
            None => match byte_at(d, p) {
                None => None,
                Some(t) => value_at(d, p + 1, t, depth + 1),
            },
        }
    }
}

/// `k` items at `p`.
pub open spec fn items_counted(d: Seq<u8>, p: int, k: nat, elem: Option<u8>, depth: int) -> Option<(Seq<ValueModel>, int)>
    decreases 65 - depth, 0nat, k + 1,
{
    if depth < 0 || depth > MAX_DEPTH {
        None
    } else if k == 0 {
        Some((Seq::empty(), p))
    } else {
        match item_at(d, p, elem, depth) {
            None => None,
            Some((v, p1)) => match items_counted(d, p1, (k - 1) as nat, elem, depth) {
                Some((rest, q)) => Some((seq![v] + rest, q)),
                None => None,
            },
        }
    }
}

/// Items at `p` up to a closing `]`, each with its own type byte.
pub open spec fn items_open(d: Seq<u8>, p: int, depth: int) -> Option<(Seq<ValueModel>, int)>
    decreases 65 - depth, 0nat, d.len() - p + 1,
{
    if depth < 0 || depth > MAX_DEPTH || p < 0 || p >= d.len() {
        None
    } else if d[p] == 0x5d {
        Some((Seq::empty(), p + 1))
    } else {
        match item_at(d, p, None, depth) {
            None => None,
            Some((v, p1)) => if p1 <= p || p1 > d.len() {
                None
            } else {
                match items_open(d, p1, depth) {
                    Some((rest, q)) => Some((seq![v] + rest, q)),
                    None => None,
                }
            },
        }
    }
}

/// An array's contents at `p` (after its `[`): an optional `$type`, an
/// optional `#count`, then the items; an int8-typed array is kept as bytes.
pub open spec fn array_at(d: Seq<u8>, p: int, depth: int) -> Option<(ValueModel, int)>
    decreases 65 - depth, 1nat, 0int,
{
    if depth < 0 || depth > MAX_DEPTH {
        None
    } else {
        match byte_at(d, p) {
            None => None,
            Some(b0) => {
                let typed = b0 == 0x24;
                match (if typed { byte_at(d, p + 1) } else { Some(0u8) }) {
                    None => None,
                    Some(t) => {
                        let elem = if typed { Some(t) } else { None };
                        let p1 = if typed { p + 2 } else { p };
                        match byte_at(d, p1) {
                            None => None,
                            Some(b1) => {
                                let counted = if b1 == 0x23 {
                                    match len_at(d, p1 + 1) {
                                        Some((n, q)) => Some((Some(n), q)),
                                        None => None,
                                    }
                                } else {
                                    Some((None, p1))
                                };
                                match counted {
                                    None => None,
                                    Some((count, p2)) => if elem == Some(0x69u8) {
                                        match count {
                                            None => None,
                                            Some(n) => match take_at(d, p2, n as int) {
                                                Some((b, q)) => Some((ValueModel::Bytes(b), q)),
                                                None => None,
                                            },
                                        }
                                    } else {
                                        match count {
                                            Some(n) => match items_counted(d, p2, n, elem, depth) {
                                                Some((items, q)) => Some((ValueModel::Array(items), q)),
                                                None => None,
                                            },
                                            None => match items_open(d, p2, depth) {
                                                Some((items, q)) => Some((ValueModel::Array(items), q)),
                                                None => None,
                                            },
                                        }
                                    },
                                }
                            },
                        }
                    },
                }
            },
        }
    }
}

/// One UBJSON value (its type byte first) at the start of `d`, and its
/// length.
pub open spec fn parse_spec(d: Seq<u8>) -> Option<(ValueModel, int)> {
    match byte_at(d, 0) {
        None => None,
        Some(ty) => value_at(d, 1, ty, 0),
    }
}

// ---------------------------------------------------------------------------
// What the reader reports where the state does not parse
// ---------------------------------------------------------------------------

/// The message for a missing byte.
pub open spec fn end_error() -> Seq<char> {
    "unexpected end of UBJSON state"@
}

/// The message for bytes cut short.
pub open spec fn truncated_error() -> Seq<char> {
    "truncated UBJSON state"@
}

/// The message for an integer of type `ty` at `p` that cannot be read.
pub open spec fn int_error(ty: u8) -> Seq<char> {
    if int_width(ty) == 0 {
        "unsupported UBJSON integer type '"@ + seq![ty as char] + "'"@
    } else {
        truncated_error()
    }
}

/// The message for a length at `p` that cannot be read or is out of range.
pub open spec fn len_error(d: Seq<u8>, p: int) -> Seq<char> {
    match byte_at(d, p) {
        None => end_error(),
        Some(ty) => match int_at(d, p + 1, ty) {
            None => int_error(ty),
            Some(_) => "implausible length in UBJSON state"@,
        },
    }
}

/// The message for a length-prefixed text at `p` that cannot be read.
pub open spec fn text_error(d: Seq<u8>, p: int) -> Seq<char> {
    match len_at(d, p) {
        None => len_error(d, p),
        Some(_) => truncated_error(),
    }
}

/// The message for a value of type `ty` at `p` that cannot be read.
pub open spec fn value_error(d: Seq<u8>, p: int, ty: u8, depth: int) -> Seq<char>
    decreases 65 - depth, 2nat, 0int,
{
    if depth < 0 || depth > MAX_DEPTH {
        "UBJSON state nests too deeply"@
    } else if int_width(ty) != 0 {
        int_error(ty)
    } else if ty == 0x64 || ty == 0x44 {
        truncated_error()
    } else if ty == 0x53 {
        text_error(d, p)
    } else if ty == 0x7b {
        object_error(d, p, depth)
    } else if ty == 0x5b {
        array_error(d, p, depth)
    } else {
        "unsupported UBJSON type '"@ + seq![ty as char] + "'"@
    }
}

/// The message for an object's contents at `p` that cannot be read.
pub open spec fn object_error(d: Seq<u8>, p: int, depth: int) -> Seq<char>
    decreases 65 - depth, 1nat, 0int,
{
    if depth < 0 || depth > MAX_DEPTH {
        Seq::empty()
    } else {
        match byte_at(d, p) {
            None => end_error(),
            Some(b) => if b == 0x23 {
                match len_at(d, p + 1) {
                    None => len_error(d, p + 1),
                    Some((n, p1)) => members_counted_error(d, p1, n, depth),
                }
            } else {
                members_open_error(d, p, depth)
            },
        }
    }
}

/// The message for an object member at `p` that cannot be read.
pub open spec fn member_error(d: Seq<u8>, p: int, depth: int) -> Seq<char>
    decreases 65 - depth, 0nat, 0int,
{
    if depth < 0 || depth > MAX_DEPTH {
        Seq::empty()
    } else {
        match text_at(d, p) {
            None => text_error(d, p),
            Some((_, p1)) => match byte_at(d, p1) {
                None => end_error(),
                Some(ty) => value_error(d, p1 + 1, ty, depth + 1),
            },
        }
    }
}

/// The message for `k` members at `p` that cannot be read.
pub open spec fn members_counted_error(d: Seq<u8>, p: int, k: nat, depth: int) -> Seq<char>
    decreases 65 - depth, 0nat, k + 1,
{
    if depth < 0 || depth > MAX_DEPTH || k == 0 {
        Seq::empty()
    } else {
        match member_at(d, p, depth) {
            None => member_error(d, p, depth),
            Some((_, p1)) => members_counted_error(d, p1, (k - 1) as nat, depth),
        }
    }
}

/// The message for members up to a closing `}` at `p` that cannot be read.
pub open spec fn members_open_error(d: Seq<u8>, p: int, depth: int) -> Seq<char>
    decreases 65 - depth, 0nat, d.len() - p + 1,
{
    if depth < 0 || depth > MAX_DEPTH {
        Seq::empty()
    } else if p < 0 || p >= d.len() {
        end_error()
    } else if d[p] == 0x7d {
        Seq::empty()
    } else {
        match member_at(d, p, depth) {
            None => member_error(d, p, depth),
            Some((_, p1)) => if p1 <= p || p1 > d.len() {
                truncated_error()
            } else {
                members_open_error(d, p1, depth)
            },
        }
    }
}

/// The message for an array item at `p` that cannot be read.
pub open spec fn item_error(d: Seq<u8>, p: int, elem: Option<u8>, depth: int) -> Seq<char>
    decreases 65 - depth, 0nat, 0int,
{
    if depth < 0 || depth > MAX_DEPTH {
        Seq::empty()
    } else {
        match elem {
            Some(t) => value_error(d, p, t, depth + 1),
            None => match byte_at(d, p) {
                None => end_error(),
                Some(t) => value_error(d, p + 1, t, depth + 1),
            },
        }
    }
}

/// The message for `k` items at `p` that cannot be read.
pub open spec fn items_counted_error(d: Seq<u8>, p: int, k: nat, elem: Option<u8>, depth: int) -> Seq<char>
    decreases 65 - depth, 0nat, k + 1,
{
    if depth < 0 || depth > MAX_DEPTH || k == 0 {
        Seq::empty()
    } else {
        match item_at(d, p, elem, depth) {
            None => item_error(d, p, elem, depth),
            Some((_, p1)) => items_counted_error(d, p1, (k - 1) as nat, elem, depth),
        }
    }
}

/// The message for items up to a closing `]` at `p` that cannot be read.
pub open spec fn items_open_error(d: Seq<u8>, p: int, depth: int) -> Seq<char>
    decreases 65 - depth, 0nat, d.len() - p + 1,
{
    if depth < 0 || depth > MAX_DEPTH {
        Seq::empty()
    } else if p < 0 || p >= d.len() {
        end_error()
    } else if d[p] == 0x5d {
        Seq::empty()
    } else {
        match item_at(d, p, None, depth) {
            None => item_error(d, p, None, depth),
            Some((_, p1)) => if p1 <= p || p1 > d.len() {
                truncated_error()
            } else {
                items_open_error(d, p1, depth)
            },
        }
    }
}

/// The message for an array's contents at `p` that cannot be read.
pub open spec fn array_error(d: Seq<u8>, p: int, depth: int) -> Seq<char>
    decreases 65 - depth, 1nat, 0int,
{
    if depth < 0 || depth > MAX_DEPTH {
        Seq::empty()
    } else {
        match byte_at(d, p) {
            None => end_error(),
            Some(b0) => {
                let typed = b0 == 0x24;
                match (if typed { byte_at(d, p + 1) } else { Some(0u8) }) {
                    None => end_error(),
                    Some(t) => {
                        let elem = if typed { Some(t) } else { None };
                        let p1 = if typed { p + 2 } else { p };
                        match byte_at(d, p1) {
                            None => end_error(),
                            Some(b1) => {
                                let counted = if b1 == 0x23 {
                                    match len_at(d, p1 + 1) {
                                        Some((n, q)) => Some((Some(n), q)),
                                        None => None,
                                    }
                                } else {
                                    Some((None, p1))
                                };
                                match counted {
                                    None => len_error(d, p1 + 1),
                                    Some((count, p2)) => if elem == Some(0x69u8) {
                                        match count {
                                            None => "typed UBJSON array without a count"@,
                                            Some(_) => truncated_error(),
                                        }
                                    } else {
                                        match count {
                                            Some(n) => items_counted_error(d, p2, n, elem, depth),
                                            None => items_open_error(d, p2, depth),
                                        }
                                    },
                                }
                            },
                        }
                    },
                }
            },
        }
    }
}

/// The message `parse` gives where `parse_spec` finds no value.
pub open spec fn parse_error(d: Seq<u8>) -> Seq<char> {
    match byte_at(d, 0) {
        None => end_error(),
        Some(ty) => value_error(d, 1, ty, 0),
    }
}


pub proof fn lemma_be_value_bound(s: Seq<u8>, k: nat)
    requires
        s.len() <= k,
    ensures
        be_value(s) < crate::valuetree::pow256(k),
    decreases s.len(),
{
    crate::valuetree::lemma_pow256_pos(k);
    if s.len() > 0 {
        lemma_be_value_bound(s.drop_last(), (k - 1) as nat);
        let r = be_value(s.drop_last());
        let p = crate::valuetree::pow256((k - 1) as nat);
        assert(crate::valuetree::pow256(k) == 256 * p);
        assert(r * 256 + s.last() < 256 * p) by (nonlinear_arith)
            requires
                r < p,
                s.last() < 256,
        ;
    }
}

/// Reads `n <= 8` big-endian bytes at `p`.
pub(crate) fn read_be(data: &[u8], p: usize, n: usize) -> (v: u64)
    requires
        n <= 8,
        p + n <= data.len(),
    ensures
        v as nat == be_value(data@.subrange(p as int, p + n)),
{
    let mut v: u64 = 0;
    let mut j: usize = 0;
    assert(data@.subrange(p as int, p as int) =~= Seq::<u8>::empty());
    while j < n
        invariant
            j <= n <= 8,
            p + n <= data.len(),
            v as nat == be_value(data@.subrange(p as int, p + j)),
        decreases n - j,
    {
        let ghost s = data@.subrange(p as int, p + j + 1);
        assert(s.drop_last() =~= data@.subrange(p as int, p + j));
        proof {
            lemma_be_value_bound(s.drop_last(), 7);
            crate::valuetree::lemma_pow256_values();
        }
        v = v * 256 + data[p + j] as u64;
        j = j + 1;
    }
    v
}

/// A typed integer (the type byte already read).
fn read_int(data: &[u8], p: usize, ty: u8) -> (r: Result<(i64, usize)>)
    ensures
        r matches Ok((_, q)) ==> q <= data@.len(),
        r matches Ok((v, q)) ==> int_at(data@, p as int, ty) == Some((v as int, q as int)),
        r is Err ==> int_at(data@, p as int, ty) is None,
        r matches Err(e) ==> e.0@ == int_error(ty),
{
    let w: usize = if ty == 0x69 || ty == 0x55 { 1 }
        else if ty == 0x49 { 2 }
        else if ty == 0x6c { 4 }
        else if ty == 0x4c { 8 }
        else { 0 };
    if w == 0 {
        let c: [char; 1] = [ty as char];
        return Err(Error(message_with("unsupported UBJSON integer type '", &c, "'")));
    }
    if p > data.len() || w > data.len() - p {
        return err("truncated UBJSON state");
    }
    let u = read_be(data, p, w);
    proof {
        lemma_be_value_bound(data@.subrange(p as int, p + w), w as nat);
        crate::valuetree::lemma_pow256_values();
    }
    let v: i64 = if ty == 0x69 {
        if u < 0x80 { u as i64 } else { u as i64 - 0x100 }
    } else if ty == 0x55 {
        u as i64
    } else if ty == 0x49 {
        if u < 0x8000 { u as i64 } else { u as i64 - 0x1_0000 }
    } else if ty == 0x6c {
        if u < 0x8000_0000 { u as i64 } else { u as i64 - 0x1_0000_0000 }
    } else {
        proof { lemma_u64_as_i64(u); }
        u as i64
    };
    Ok((v, p + w))
}

/// A length or count in `0..MAX_ITEMS`.
fn read_len(data: &[u8], p: usize) -> (r: Result<(usize, usize)>)
    ensures
        r matches Ok((_, q)) ==> q <= data@.len(),
        r matches Ok((n, q)) ==> len_at(data@, p as int) == Some((n as nat, q as int)),
        r is Err ==> len_at(data@, p as int) is None,
        r matches Err(e) ==> e.0@ == len_error(data@, p as int),
{
    if p >= data.len() {
        return err("unexpected end of UBJSON state");
    }
    let ty = data[p];
    let (n, q) = match read_int(data, p + 1, ty) {
        Ok(x) => x,
        Err(e) => {
            return Err(e);
        },
    };
    if n < 0 || n >= MAX_ITEMS {
        return err("implausible length in UBJSON state");
    }
    Ok((n as usize, q))
}

/// `n` raw bytes at `p`.
fn read_take(data: &[u8], p: usize, n: usize) -> (r: Result<(&[u8], usize)>)
    ensures
        r matches Ok((_, q)) ==> q <= data@.len(),
        r matches Ok((b, q)) ==> take_at(data@, p as int, n as int) == Some((b@, q as int)),
        r is Err ==> take_at(data@, p as int, n as int) is None,
        r matches Err(e) ==> e.0@ == truncated_error(),
{
    if p > data.len() || n > data.len() - p {
        return err("truncated UBJSON state");
    }
    Ok((vstd::slice::slice_subrange(data, p, p + n), p + n))
}

/// A length-prefixed text.
fn read_text(data: &[u8], p: usize) -> (r: Result<(String, usize)>)
    ensures
        r matches Ok((_, q)) ==> q <= data@.len(),
        r matches Ok((s, q)) ==> text_at(data@, p as int) == Some((s@, q as int)),
        r is Err ==> text_at(data@, p as int) is None,
        r matches Err(e) ==> e.0@ == text_error(data@, p as int),
{
    let (n, p1) = match read_len(data, p) {
        Ok(x) => x,
        Err(e) => {
            return Err(e);
        },
    };
    let (b, p2) = match read_take(data, p1, n) {
        Ok(x) => x,
        Err(e) => {
            return Err(e);
        },
    };
    Ok((from_utf8_lossy(b), p2))
}

fn read_value(data: &[u8], p: usize, ty: u8, depth: usize) -> (r: Result<(Value, usize)>)
    requires
        p <= data@.len(),
    ensures
        r matches Ok((_, q)) ==> q <= data@.len(),
        r matches Ok((v, q)) ==> value_at(data@, p as int, ty, depth as int) == Some(
            (v@, q as int),
        ),
        r is Err ==> value_at(data@, p as int, ty, depth as int) is None,
        r matches Err(e) ==> e.0@ == value_error(data@, p as int, ty, depth as int),
    decreases 65 - depth, 2nat, 0int,
{
    if depth > MAX_DEPTH {
        return err("UBJSON state nests too deeply");
    }
    if ty == 0x5a {
        Ok((Value::Null, p))
    } else if ty == 0x54 {
        Ok((Value::Bool(true), p))
    } else if ty == 0x46 {
        Ok((Value::Bool(false), p))
    } else if ty == 0x69 || ty == 0x55 || ty == 0x49 || ty == 0x6c || ty == 0x4c {
        let (v, q) = match read_int(data, p, ty) {
            Ok(x) => x,
            Err(e) => {
                return Err(e);
            },
        };
        Ok((Value::Int { v, ty }, q))
    } else if ty == 0x64 {
        let (b, q) = match read_take(data, p, 4) {
            Ok(x) => x,
            Err(e) => {
                return Err(e);
            },
        };
        let u = read_be(b, 0, 4);
        assert(b@.subrange(0, 4) =~= b@);
        proof {
            lemma_be_value_bound(b@, 4);
            crate::valuetree::lemma_pow256_values();
        }
        Ok((Value::Float32(u as u32), q))
    } else if ty == 0x44 {
        let (b, q) = match read_take(data, p, 8) {
            Ok(x) => x,
            Err(e) => {
                return Err(e);
            },
        };
        let u = read_be(b, 0, 8);
        assert(b@.subrange(0, 8) =~= b@);
        Ok((Value::Float64(u), q))
    } else if ty == 0x53 {
        let (t, q) = match read_text(data, p) {
            Ok(x) => x,
            Err(e) => {
                return Err(e);
            },
        };
        Ok((Value::Str(t), q))
    } else if ty == 0x7b {
        read_object(data, p, depth)
    } else if ty == 0x5b {
        read_array(data, p, depth)
    } else {
        let c: [char; 1] = [ty as char];
        Err(Error(message_with("unsupported UBJSON type '", &c, "'")))
    }
}

fn read_member(data: &[u8], p: usize, depth: usize) -> (r: Result<((String, Value), usize)>)
    requires
        depth <= MAX_DEPTH,
    ensures
        r matches Ok((_, q)) ==> q <= data@.len(),
        r matches Ok((m, q)) ==> member_at(data@, p as int, depth as int) == Some(
            ((m.0@, m.1@), q as int),
        ),
        r is Err ==> member_at(data@, p as int, depth as int) is None,
        r matches Err(e) ==> e.0@ == member_error(data@, p as int, depth as int),
    decreases 65 - depth, 0nat, 0int,
{
    let (key, p1) = match read_text(data, p) {
        Ok(x) => x,
        Err(e) => {
            return Err(e);
        },
    };
    if p1 >= data.len() {
        return err("unexpected end of UBJSON state");
    }
    let ty = data[p1];
    let (v, q) = match read_value(data, p1 + 1, ty, depth + 1) {
        Ok(x) => x,
        Err(e) => {
            return Err(e);
        },
    };
    Ok(((key, v), q))
}

fn read_object(data: &[u8], p: usize, depth: usize) -> (r: Result<(Value, usize)>)
    requires
        depth <= MAX_DEPTH,
    ensures
        r matches Ok((_, q)) ==> q <= data@.len(),
        r matches Ok((v, q)) ==> object_at(data@, p as int, depth as int) == Some(
            (v@, q as int),
        ),
        r is Err ==> object_at(data@, p as int, depth as int) is None,
        r matches Err(e) ==> e.0@ == object_error(data@, p as int, depth as int),
    decreases 65 - depth, 1nat, 0int,
{
    let mut members: Vec<(String, Value)> = Vec::new();
    let ghost acc: Seq<(Seq<char>, ValueModel)> = Seq::empty();
    if p >= data.len() {
        return err("unexpected end of UBJSON state");
    }
    let mut pos: usize;
    if data[p] == 0x23 {
        let (count, p1) = match read_len(data, p + 1) {
            Ok(x) => x,
            Err(e) => {
                return Err(e);
            },
        };
        pos = p1;
        let mut i: usize = 0;
        let ghost whole = members_counted(data@, p1 as int, count as nat, depth as int);
        assert(object_at(data@, p as int, depth as int) == match whole {
            Some((ms, q)) => Some((ValueModel::Object(ms), q)),
            None => None,
        });
        while i < count
            invariant
                i <= count,
                pos <= data@.len(),
                depth <= MAX_DEPTH,
                object_at(data@, p as int, depth as int) == match whole {
                    Some((ms, q)) => Some((ValueModel::Object(ms), q)),
                    None => None,
                },
                whole == members_counted(data@, p1 as int, count as nat, depth as int),
                whole == match members_counted(data@, pos as int, (count - i) as nat, depth as int) {
                    Some((rest, q)) => Some((acc + rest, q)),
                    None => None,
                },
                object_error(data@, p as int, depth as int) == members_counted_error(
                    data@,
                    pos as int,
                    (count - i) as nat,
                    depth as int,
                ),
                acc.len() == members@.len(),
                forall|j: int| 0 <= j < acc.len() ==> #[trigger] acc[j] == (
                    members@[j].0@,
                    members@[j].1@,
                ),
            decreases count - i,
        {
            let (m, q) = match read_member(data, pos, depth) {
                Ok(x) => x,
                Err(e) => {
                    return Err(e);
                },
            };
            proof {
                let mv = (m.0@, m.1@);
                match members_counted(data@, q as int, (count - i - 1) as nat, depth as int) {
                    Some((rest, e)) => {
                        assert(acc + (seq![mv] + rest) =~= acc.push(mv) + rest);
                    },
                    None => {},
                }
                acc = acc.push(mv);
            }
            members.push(m);
            pos = q;
            i = i + 1;
        }
        assert(acc + Seq::empty() =~= acc);
    } else {
        pos = p;
        let ghost whole = members_open(data@, p as int, depth as int);
        assert(object_at(data@, p as int, depth as int) == match whole {
            Some((ms, q)) => Some((ValueModel::Object(ms), q)),
            None => None,
        });
        loop
            invariant
                p <= pos <= data@.len(),
                depth <= MAX_DEPTH,
                object_at(data@, p as int, depth as int) == match whole {
                    Some((ms, q)) => Some((ValueModel::Object(ms), q)),
                    None => None,
                },
                whole == members_open(data@, p as int, depth as int),
                whole == match members_open(data@, pos as int, depth as int) {
                    Some((rest, q)) => Some((acc + rest, q)),
                    None => None,
                },
                object_error(data@, p as int, depth as int) == members_open_error(
                    data@,
                    pos as int,
                    depth as int,
                ),
                acc.len() == members@.len(),
                forall|j: int| 0 <= j < acc.len() ==> #[trigger] acc[j] == (
                    members@[j].0@,
                    members@[j].1@,
                ),
            decreases data@.len() - pos,
        {
            if pos >= data.len() {
                return err("unexpected end of UBJSON state");
            }
            if data[pos] == 0x7d {
                assert(acc + Seq::empty() =~= acc);
                proof {
                    lemma_members_view(members@);
                    assert(members_view(members@) =~= acc);
                }
                return Ok((Value::Object(members), pos + 1));
            }
            let (m, q) = match read_member(data, pos, depth) {
                Ok(x) => x,
                Err(e) => {
                    return Err(e);
                },
            };
            if q <= pos || q > data.len() {
                return err("truncated UBJSON state");
            }
            proof {
                let mv = (m.0@, m.1@);
                match members_open(data@, q as int, depth as int) {
                    Some((rest, e)) => {
                        assert(acc + (seq![mv] + rest) =~= acc.push(mv) + rest);
                    },
                    None => {},
                }
                acc = acc.push(mv);
            }
            members.push(m);
            pos = q;
        }
    }
    proof {
        lemma_members_view(members@);
        assert(members_view(members@) =~= acc);
    }
    Ok((Value::Object(members), pos))
}

fn read_item(data: &[u8], p: usize, elem: Option<u8>, depth: usize) -> (r: Result<(Value, usize)>)
    requires
        p <= data@.len(),
        depth <= MAX_DEPTH,
    ensures
        r matches Ok((_, q)) ==> q <= data@.len(),
        r matches Ok((v, q)) ==> item_at(data@, p as int, elem, depth as int) == Some(
            (v@, q as int),
        ),
        r is Err ==> item_at(data@, p as int, elem, depth as int) is None,
        r matches Err(e) ==> e.0@ == item_error(data@, p as int, elem, depth as int),
    decreases 65 - depth, 0nat, 0int,
{
    match elem {
        Some(t) => read_value(data, p, t, depth + 1),
        None => {
            if p >= data.len() {
                return err("unexpected end of UBJSON state");
            }
            let t = data[p];
            read_value(data, p + 1, t, depth + 1)
        },
    }
}

fn read_array(data: &[u8], p: usize, depth: usize) -> (r: Result<(Value, usize)>)
    requires
        depth <= MAX_DEPTH,
    ensures
        r matches Ok((_, q)) ==> q <= data@.len(),
        r matches Ok((v, q)) ==> array_at(data@, p as int, depth as int) == Some(
            (v@, q as int),
        ),
        r is Err ==> array_at(data@, p as int, depth as int) is None,
        r matches Err(e) ==> e.0@ == array_error(data@, p as int, depth as int),
    decreases 65 - depth, 1nat, 0int,
{
    if p >= data.len() {
        return err("unexpected end of UBJSON state");
    }
    let mut pos = p;
    let mut elem: Option<u8> = None;
    if data[p] == 0x24 {
        if p + 1 >= data.len() {
            return err("unexpected end of UBJSON state");
        }
        elem = Some(data[p + 1]);
        pos = p + 2;
    }
    if pos >= data.len() {
        return err("unexpected end of UBJSON state");
    }
    let mut count: Option<usize> = None;
    if data[pos] == 0x23 {
        let (n, q) = match read_len(data, pos + 1) {
            Ok(x) => x,
            Err(e) => {
                return Err(e);
            },
        };
        count = Some(n);
        pos = q;
    }
    if elem == Some(0x69u8) {
        match count {
            None => {
                return err("typed UBJSON array without a count");
            },
            Some(n) => {
                let (b, q) = match read_take(data, pos, n) {
                    Ok(x) => x,
                    Err(e) => {
                        return Err(e);
                    },
                };
                return Ok((Value::Bytes(vstd::slice::slice_to_vec(b)), q));
            },
        }
    }
    let mut items: Vec<Value> = Vec::new();
    let ghost acc: Seq<ValueModel> = Seq::empty();
    let p2 = pos;
    let ghost arr = array_at(data@, p as int, depth as int);
    assert(arr == match count {
        Some(n) => match items_counted(data@, p2 as int, n as nat, elem, depth as int) {
            Some((items, q)) => Some((ValueModel::Array(items), q)),
            None => None,
        },
        None => match items_open(data@, p2 as int, depth as int) {
            Some((items, q)) => Some((ValueModel::Array(items), q)),
            None => None,
        },
    });
    match count {
        Some(n) => {
            let ghost whole = items_counted(data@, p2 as int, n as nat, elem, depth as int);
            let mut i: usize = 0;
            while i < n
                invariant
                    i <= n,
                    pos <= data@.len(),
                    depth <= MAX_DEPTH,
                    arr == array_at(data@, p as int, depth as int),
                    arr == match whole {
                        Some((items, q)) => Some((ValueModel::Array(items), q)),
                        None => None,
                    },
                    whole == items_counted(data@, p2 as int, n as nat, elem, depth as int),
                    whole == match items_counted(data@, pos as int, (n - i) as nat, elem, depth as int) {
                        Some((rest, q)) => Some((acc + rest, q)),
                        None => None,
                    },
                    array_error(data@, p as int, depth as int) == items_counted_error(
                        data@,
                        pos as int,
                        (n - i) as nat,
                        elem,
                        depth as int,
                    ),
                    acc.len() == items@.len(),
                    forall|j: int| 0 <= j < acc.len() ==> #[trigger] acc[j] == items@[j]@,
                decreases n - i,
            {
                let (v, q) = match read_item(data, pos, elem, depth) {
                    Ok(x) => x,
                    Err(e) => {
                        return Err(e);
                    },
                };
                proof {
                    match items_counted(data@, q as int, (n - i - 1) as nat, elem, depth as int) {
                        Some((rest, e)) => {
                            assert(acc + (seq![v@] + rest) =~= acc.push(v@) + rest);
                        },
                        None => {},
                    }
                    acc = acc.push(v@);
                }
                items.push(v);
                pos = q;
                i = i + 1;
            }
            assert(acc + Seq::empty() =~= acc);
        },
        None => {
            let ghost whole = items_open(data@, p2 as int, depth as int);
            loop
                invariant
                    p2 <= pos <= data@.len(),
                    depth <= MAX_DEPTH,
                    arr == array_at(data@, p as int, depth as int),
                    arr == match whole {
                        Some((items, q)) => Some((ValueModel::Array(items), q)),
                        None => None,
                    },
                    whole == items_open(data@, p2 as int, depth as int),
                    whole == match items_open(data@, pos as int, depth as int) {
                        Some((rest, q)) => Some((acc + rest, q)),
                        None => None,
                    },
                    array_error(data@, p as int, depth as int) == items_open_error(
                        data@,
                        pos as int,
                        depth as int,
                    ),
                    acc.len() == items@.len(),
                    forall|j: int| 0 <= j < acc.len() ==> #[trigger] acc[j] == items@[j]@,
                decreases data@.len() - pos,
            {
                if pos >= data.len() {
                    return err("unexpected end of UBJSON state");
                }
                if data[pos] == 0x5d {
                    assert(acc + Seq::empty() =~= acc);
                    proof {
                        lemma_items_view(items@);
                        assert(items_view(items@) =~= acc);
                    }
                    return Ok((Value::Array(items), pos + 1));
                }
                let (v, q) = match read_item(data, pos, None, depth) {
                    Ok(x) => x,
                    Err(e) => {
                        return Err(e);
                    },
                };
                if q <= pos || q > data.len() {
                    return err("truncated UBJSON state");
                }
                proof {
                    match items_open(data@, q as int, depth as int) {
                        Some((rest, e)) => {
                            assert(acc + (seq![v@] + rest) =~= acc.push(v@) + rest);
                        },
                        None => {},
                    }
                    acc = acc.push(v@);
                }
                items.push(v);
                pos = q;
            }
        },
    }
    proof {
        lemma_items_view(items@);
        assert(items_view(items@) =~= acc);
    }
    Ok((Value::Array(items), pos))
}

/// Parse one UBJSON value and report how many bytes it occupied, so callers
/// can split any trailing data (the component trailer) from the value.
pub fn parse(data: &[u8]) -> (r: Result<(Value, usize)>)
    ensures
        r matches Ok((_, n)) ==> n <= data@.len(),
        r matches Ok((v, n)) ==> parse_spec(data@) == Some((v@, n as int)),
        r is Err ==> parse_spec(data@) is None,
        r matches Err(e) ==> e.0@ == parse_error(data@),
{
    if data.len() == 0 {
        return err("unexpected end of UBJSON state");
    }
    let ty = data[0];
    read_value(data, 1, ty, 0)
}


// ---------------------------------------------------------------------------
// Writing
// ---------------------------------------------------------------------------

/// The low `n` bytes of `v`, most significant first.
pub open spec fn be_bytes(v: nat, n: nat) -> Seq<u8>
    decreases n,
{
    if n == 0 {
        Seq::empty()
    } else {
        be_bytes(v / 256, (n - 1) as nat).push((v % 256) as u8)
    }
}

/// The smallest integer type and value that encodes a length or count,
/// matching UA's encoding.
pub open spec fn len_bytes(n: nat) -> Seq<u8> {
    if n <= 0x7f {
        seq![0x69u8, n as u8]
    } else if n <= 0xff {
        seq![0x55u8, n as u8]
    } else if n <= 0x7fff {
        seq![0x49u8] + be_bytes(n, 2)
    } else if n <= 0x7fff_ffff {
        seq![0x6cu8] + be_bytes(n, 4)
    } else {
        seq![0x4cu8] + be_bytes(n, 8)
    }
}

/// The bytes an integer is written with under type byte `ty`: its
/// two's-complement pattern cut to the type's width (8 bytes for a type
/// byte that is not an integer type).
pub open spec fn int_body(v: int, ty: u8) -> Seq<u8> {
    let w = int_width(ty);
    be_bytes(bits64(v), if w == 0 { 8 } else { w as nat })
}

/// The encoding of a value, type byte first.
pub open spec fn value_bytes(v: ValueModel) -> Seq<u8>
    decreases v, 1nat,
{
    match v {
        ValueModel::Null => seq![0x5au8],
        ValueModel::Bool(b) => seq![if b { 0x54u8 } else { 0x46u8 }],
        ValueModel::Int { v, ty } => seq![ty] + int_body(v as int, ty),
        ValueModel::Float32(b) => seq![0x64u8] + be_bytes(b as nat, 4),
        ValueModel::Float64(b) => seq![0x44u8] + be_bytes(b as nat, 8),
        ValueModel::Str(s) => seq![0x53u8] + len_bytes(encode_utf8(s).len()) + encode_utf8(s),
        ValueModel::Bytes(b) => seq![0x5bu8, 0x24u8, 0x69u8, 0x23u8] + len_bytes(b.len()) + b,
        ValueModel::Array(items) => seq![0x5bu8, 0x23u8] + len_bytes(items.len()) + items_bytes(
            items,
        ),
        ValueModel::Object(ms) => seq![0x7bu8, 0x23u8] + len_bytes(ms.len()) + members_bytes(ms),
    }
}

/// The encodings of a list of values, one after another.
pub open spec fn items_bytes(s: Seq<ValueModel>) -> Seq<u8>
    decreases s, 0nat,
{
    if s.len() == 0 {
        Seq::empty()
    } else {
        value_bytes(s[0]) + items_bytes(s.subrange(1, s.len() as int))
    }
}

/// The encodings of object members: length-prefixed key, then the value.
pub open spec fn members_bytes(s: Seq<(Seq<char>, ValueModel)>) -> Seq<u8>
    decreases s, 0nat,
{
    if s.len() == 0 {
        Seq::empty()
    } else {
        len_bytes(encode_utf8(s[0].0).len()) + encode_utf8(s[0].0) + value_bytes(s[0].1)
            + members_bytes(s.subrange(1, s.len() as int))
    }
}

/// Appends the low `n` bytes of `v`, most significant first.
pub(crate) fn push_be(out: &mut Vec<u8>, v: u64, n: usize)
    requires
        n <= 8,
    ensures
        final(out)@ == old(out)@ + be_bytes(v as nat, n as nat),
    decreases n,
{
    let ghost start = out@;
    if n == 0 {
        assert(out@ =~= start + be_bytes(v as nat, 0));
    } else {
        push_be(out, v / 256, n - 1);
        out.push((v % 256) as u8);
        assert(out@ =~= start + be_bytes(v as nat, n as nat));
    }
}

/// Appends the smallest integer type and value that encodes a
/// non-negative count or length.
fn write_len(out: &mut Vec<u8>, n: usize)
    ensures
        final(out)@ == old(out)@ + len_bytes(n as nat),
{
    let ghost start = out@;
    if n <= 0x7f {
        out.push(0x69);
        out.push(n as u8);
    } else if n <= 0xff {
        out.push(0x55);
        out.push(n as u8);
    } else if n <= 0x7fff {
        out.push(0x49);
        push_be(out, n as u64, 2);
    } else if n <= 0x7fff_ffff {
        out.push(0x6c);
        push_be(out, n as u64, 4);
    } else {
        out.push(0x4c);
        push_be(out, n as u64, 8);
    }
    assert(out@ =~= start + len_bytes(n as nat));
}

/// Appends an integer under its type byte.
fn write_int(out: &mut Vec<u8>, v: i64, ty: u8)
    ensures
        final(out)@ == old(out)@ + seq![ty] + int_body(v as int, ty),
{
    let ghost start = out@;
    proof {
        lemma_i64_bits(v);
    }
    out.push(ty);
    let w: usize = if ty == 0x69 || ty == 0x55 {
        1
    } else if ty == 0x49 {
        2
    } else if ty == 0x6c {
        4
    } else {
        8
    };
    push_be(out, v as u64, w);
    assert(out@ =~= start + seq![ty] + int_body(v as int, ty));
}

/// Appends a value in UA's encoding.
fn write_value(out: &mut Vec<u8>, value: &Value)
    ensures
        final(out)@ == old(out)@ + value_bytes(value@),
    decreases value,
{
    let ghost start = out@;
    match value {
        Value::Null => {
            out.push(0x5a);
            assert(out@ =~= start + value_bytes(value@));
        },
        Value::Bool(b) => {
            out.push(if *b { 0x54 } else { 0x46 });
            assert(out@ =~= start + value_bytes(value@));
        },
        Value::Int { v, ty } => {
            write_int(out, *v, *ty);
        },
        Value::Float32(bits) => {
            out.push(0x64);
            push_be(out, *bits as u64, 4);
            assert(out@ =~= start + value_bytes(value@));
        },
        Value::Float64(bits) => {
            out.push(0x44);
            push_be(out, *bits, 8);
            assert(out@ =~= start + value_bytes(value@));
        },
        Value::Str(s) => {
            let b = s.as_str().as_bytes();
            out.push(0x53);
            write_len(out, b.len());
            push_all_bytes(out, b);
            assert(out@ =~= start + value_bytes(value@));
        },
        Value::Bytes(b) => {
            out.push(0x5b);
            out.push(0x24);
            out.push(0x69);
            out.push(0x23);
            write_len(out, b.len());
            push_all_bytes(out, b.as_slice());
            assert(out@ =~= start + value_bytes(value@));
        },
        Value::Array(items) => {
            let ghost ms = items_view(items@);
            proof {
                lemma_items_view(items@);
            }
            out.push(0x5b);
            out.push(0x23);
            write_len(out, items.len());
            let ghost mid = out@;
            assert(ms.subrange(0, ms.len() as int) =~= ms);
            let mut j: usize = 0;
            while j < items.len()
                invariant
                    j <= items@.len(),
                    *value == Value::Array(*items),
                    ms == items_view(items@),
                    ms.len() == items@.len(),
                    forall|k: int| 0 <= k < items@.len() ==> #[trigger] ms[k] == items@[k]@,
                    out@ + items_bytes(ms.subrange(j as int, ms.len() as int)) == mid
                        + items_bytes(ms),
                decreases items@.len() - j,
            {
                let ghost rest = ms.subrange(j as int, ms.len() as int);
                let ghost before = out@;
                assert(rest[0] == items@[j as int]@);
                assert(rest.subrange(1, rest.len() as int) =~= ms.subrange(
                    j + 1,
                    ms.len() as int,
                ));
                proof {
                    assert(decreases_to!(*value => (*value)->Array_0));
                    assert(decreases_to!(*items => items@));
                    assert(decreases_to!(items@ => items@[j as int]));
                }
                write_value(out, &items[j]);
                assert(out@ + items_bytes(rest.subrange(1, rest.len() as int)) =~= before
                    + items_bytes(rest));
                j = j + 1;
            }
            assert(ms.subrange(j as int, ms.len() as int).len() == 0);
            assert(out@ =~= start + value_bytes(value@));
        },
        Value::Object(members) => {
            let ghost ms = members_view(members@);
            proof {
                lemma_members_view(members@);
            }
            out.push(0x7b);
            out.push(0x23);
            write_len(out, members.len());
            let ghost mid = out@;
            assert(ms.subrange(0, ms.len() as int) =~= ms);
            let mut j: usize = 0;
            while j < members.len()
                invariant
                    j <= members@.len(),
                    *value == Value::Object(*members),
                    ms == members_view(members@),
                    ms.len() == members@.len(),
                    forall|k: int|
                        0 <= k < members@.len() ==> #[trigger] ms[k] == (
                            members@[k].0@,
                            members@[k].1@,
                        ),
                    out@ + members_bytes(ms.subrange(j as int, ms.len() as int)) == mid
                        + members_bytes(ms),
                decreases members@.len() - j,
            {
                let ghost rest = ms.subrange(j as int, ms.len() as int);
                let ghost before = out@;
                assert(rest[0] == (members@[j as int].0@, members@[j as int].1@));
                assert(rest.subrange(1, rest.len() as int) =~= ms.subrange(
                    j + 1,
                    ms.len() as int,
                ));
                let key = members[j].0.as_str().as_bytes();
                write_len(out, key.len());
                push_all_bytes(out, key);
                proof {
                    assert(decreases_to!(*value => (*value)->Object_0));
                    assert(decreases_to!(*members => members@));
                    assert(decreases_to!(members@ => members@[j as int]));
                    assert(decreases_to!(members@[j as int] => members@[j as int].1));
                }
                write_value(out, &members[j].1);
                assert(out@ + members_bytes(rest.subrange(1, rest.len() as int)) =~= before
                    + members_bytes(rest));
                j = j + 1;
            }
            assert(ms.subrange(j as int, ms.len() as int).len() == 0);
            assert(out@ =~= start + value_bytes(value@));
        },
    }
}

/// Serialize a UBJSON value in UA's encoding.
pub fn write(value: &Value) -> (r: Vec<u8>)
    ensures
        r@ == value_bytes(value@),
{
    let mut out: Vec<u8> = Vec::new();
    write_value(&mut out, value);
    assert(out@ =~= value_bytes(value@));
    out
}



// ---------------------------------------------------------------------------
// Reading back what was written
// ---------------------------------------------------------------------------

/// `v` lies in the range of the UBJSON integer type `ty`.
pub open spec fn int_fits(v: int, ty: u8) -> bool {
    if ty == 0x69 {
        -0x80 <= v < 0x80
    } else if ty == 0x55 {
        0 <= v < 0x100
    } else if ty == 0x49 {
        -0x8000 <= v < 0x8000
    } else if ty == 0x6c {
        -0x8000_0000 <= v < 0x8000_0000
    } else {
        ty == 0x4c
    }
}

/// A value, nested `depth` levels deep, that the writer encodes so that the
/// reader gives it back: integers within their type's range, texts, byte
/// strings and lists shorter than `MAX_ITEMS`, and nesting within
/// `MAX_DEPTH`.
pub open spec fn value_writable(v: ValueModel, depth: int) -> bool
    decreases v,
{
    &&& 0 <= depth <= MAX_DEPTH
    &&& match v {
        ValueModel::Int { v, ty } => int_fits(v as int, ty),
        ValueModel::Str(s) => encode_utf8(s).len() < MAX_ITEMS,
        ValueModel::Bytes(b) => b.len() < MAX_ITEMS,
        ValueModel::Array(items) => {
            &&& items.len() < MAX_ITEMS
            &&& forall|i: int| 0 <= i < items.len() ==> value_writable(#[trigger] items[i], depth + 1)
        },
        ValueModel::Object(ms) => {
            &&& ms.len() < MAX_ITEMS
            &&& forall|i: int|
                0 <= i < ms.len() ==> encode_utf8(#[trigger] ms[i].0).len() < MAX_ITEMS
                    && value_writable(ms[i].1, depth + 1)
        },
        _ => true,
    }
}

pub proof fn lemma_be_bytes_value(v: nat, n: nat)
    ensures
        be_value(be_bytes(v, n)) == v % pow256(n),
        be_bytes(v, n).len() == n,
    decreases n,
{
    if n == 0 {
        assert(be_bytes(v, n) =~= Seq::<u8>::empty());
    } else {
        lemma_be_bytes_value(v / 256, (n - 1) as nat);
        let s = be_bytes(v, n);
        assert(s.drop_last() =~= be_bytes(v / 256, (n - 1) as nat));
        assert(s.last() as nat == v % 256);
        crate::valuetree::lemma_pow256_pos((n - 1) as nat);
        vstd::arithmetic::div_mod::lemma_mod_breakdown(v as int, 256, pow256((n - 1) as nat) as int);
        assert(pow256(n) == 256 * pow256((n - 1) as nat));
    }
}

proof fn lemma_be_read(v: nat, n: nat, d: Seq<u8>, p: int)
    requires
        v < pow256(n),
        found_at(d, p, be_bytes(v, n)),
    ensures
        be_value(d.subrange(p, p + n)) == v,
        be_bytes(v, n).len() == n,
{
    lemma_be_bytes_value(v, n);
    vstd::arithmetic::div_mod::lemma_small_mod(v, pow256(n));
    lemma_found_subrange(d, p, be_bytes(v, n));
}

proof fn lemma_len_read(n: nat, d: Seq<u8>, p: int)
    requires
        n < MAX_ITEMS,
        found_at(d, p, len_bytes(n)),
    ensures
        len_at(d, p) == Some((n, p + len_bytes(n).len())),
{
    crate::valuetree::lemma_pow256_values();
    let l = len_bytes(n);
    lemma_found_byte(d, p, l, 0);
    if n <= 0xff {
        lemma_found_byte(d, p, l, 1);
        let s = d.subrange(p + 1, p + 2);
        assert(s =~= seq![n as u8]);
        assert(s.drop_last() =~= Seq::<u8>::empty());
        assert(be_value(s.drop_last()) == 0);
        assert(be_value(s) == n);
        assert(int_at(d, p + 1, l[0]) == Some((n as int, p + 2)));
    } else if n <= 0x7fff {
        lemma_found_split(d, p, seq![0x49u8], be_bytes(n, 2));
        lemma_be_read(n, 2, d, p + 1);
        assert(int_at(d, p + 1, l[0]) == Some((n as int, p + 3)));
    } else {
        lemma_found_split(d, p, seq![0x6cu8], be_bytes(n, 4));
        lemma_be_read(n, 4, d, p + 1);
        assert(int_at(d, p + 1, l[0]) == Some((n as int, p + 5)));
    }
}

proof fn lemma_text_read(t: Seq<char>, d: Seq<u8>, p: int)
    requires
        encode_utf8(t).len() < MAX_ITEMS,
        found_at(d, p, len_bytes(encode_utf8(t).len()) + encode_utf8(t)),
    ensures
        text_at(d, p) == Some((t, p + len_bytes(encode_utf8(t).len()).len() + encode_utf8(t).len())),
{
    let e = encode_utf8(t);
    lemma_found_split(d, p, len_bytes(e.len()), e);
    lemma_len_read(e.len(), d, p);
    lemma_found_subrange(d, p + len_bytes(e.len()).len(), e);
    encode_utf8_valid_utf8(t);
    encode_utf8_decode_utf8(t);
}

proof fn lemma_int_read(v: int, ty: u8, d: Seq<u8>, p: int)
    requires
        int_fits(v, ty),
        i64::MIN <= v <= i64::MAX,
        found_at(d, p, int_body(v, ty)),
    ensures
        int_at(d, p, ty) == Some((v, p + int_body(v, ty).len())),
{
    crate::valuetree::lemma_pow256_values();
    let w = int_width(ty) as nat;
    let u = bits64(v);
    lemma_be_bytes_value(u, w);
    lemma_found_subrange(d, p, be_bytes(u, w));
    let m = pow256(w);
    let r = if v < 0 { v + m } else { v };
    assert(0 <= r < m);
    if v < 0 {
        let k: int = if w == 1 {
            0x100_0000_0000_0000
        } else if w == 2 {
            0x1_0000_0000_0000
        } else if w == 4 {
            0x1_0000_0000
        } else {
            1
        };
        assert(m * k == 0x1_0000_0000_0000_0000int);
        vstd::arithmetic::div_mod::lemma_mod_multiples_vanish(k - 1, r, m as int);
        assert(m * (k - 1) + r == u) by (nonlinear_arith)
            requires
                m * k == 0x1_0000_0000_0000_0000int,
                r == v + m,
                u == v + 0x1_0000_0000_0000_0000int,
        ;
    } else {
        vstd::arithmetic::div_mod::lemma_mod_multiples_vanish(0, r, m as int);
    }
    vstd::arithmetic::div_mod::lemma_small_mod(r as nat, m);
    assert(be_value(d.subrange(p, p + w)) == r);
}

#[verifier::rlimit(50)]
proof fn lemma_value_read(v: ValueModel, d: Seq<u8>, p: int, depth: int)
    requires
        value_writable(v, depth),
        found_at(d, p, value_bytes(v)),
    ensures
        value_bytes(v).len() > 0,
        d[p] == value_bytes(v)[0],
        value_at(d, p + 1, value_bytes(v)[0], depth) == Some((v, p + value_bytes(v).len())),
    decreases v, 1nat,
{
    crate::valuetree::lemma_pow256_values();
    let b = value_bytes(v);
    lemma_found_byte(d, p, b, 0);
    match v {
        ValueModel::Null => {},
        ValueModel::Bool(x) => {},
        ValueModel::Int { v: x, ty } => {
            lemma_found_split(d, p, seq![ty], int_body(x as int, ty));
            lemma_int_read(x as int, ty, d, p + 1);
        },
        ValueModel::Float32(x) => {
            lemma_found_split(d, p, seq![0x64u8], be_bytes(x as nat, 4));
            lemma_be_read(x as nat, 4, d, p + 1);
        },
        ValueModel::Float64(x) => {
            lemma_found_split(d, p, seq![0x44u8], be_bytes(x as nat, 8));
            lemma_be_read(x as nat, 8, d, p + 1);
        },
        ValueModel::Str(t) => {
            let e = encode_utf8(t);
            assert(b == seq![0x53u8] + (len_bytes(e.len()) + e));
            lemma_found_split(d, p, seq![0x53u8], len_bytes(e.len()) + e);
            lemma_text_read(t, d, p + 1);
        },
        ValueModel::Bytes(x) => {
            let h = seq![0x5bu8, 0x24u8, 0x69u8, 0x23u8];
            lemma_found_split(d, p, h + len_bytes(x.len()), x);
            lemma_found_split(d, p, h, len_bytes(x.len()));
            lemma_found_byte(d, p, h, 1);
            lemma_found_byte(d, p, h, 2);
            lemma_found_byte(d, p, h, 3);
            lemma_len_read(x.len(), d, p + 4);
            lemma_found_subrange(d, p + 4 + len_bytes(x.len()).len(), x);
        },
        ValueModel::Array(items) => {
            let h = seq![0x5bu8, 0x23u8];
            lemma_found_split(d, p, h + len_bytes(items.len()), items_bytes(items));
            lemma_found_split(d, p, h, len_bytes(items.len()));
            lemma_found_byte(d, p, h, 1);
            lemma_len_read(items.len(), d, p + 2);
            lemma_items_read(items, d, p + 2 + len_bytes(items.len()).len(), depth);
        },
        ValueModel::Object(ms) => {
            let h = seq![0x7bu8, 0x23u8];
            lemma_found_split(d, p, h + len_bytes(ms.len()), members_bytes(ms));
            lemma_found_split(d, p, h, len_bytes(ms.len()));
            lemma_found_byte(d, p, h, 1);
            lemma_len_read(ms.len(), d, p + 2);
            lemma_members_read(ms, d, p + 2 + len_bytes(ms.len()).len(), depth);
        },
    }
}

proof fn lemma_items_read(items: Seq<ValueModel>, d: Seq<u8>, p: int, depth: int)
    requires
        0 <= depth <= MAX_DEPTH,
        forall|i: int| 0 <= i < items.len() ==> value_writable(#[trigger] items[i], depth + 1),
        found_at(d, p, items_bytes(items)),
    ensures
        items_counted(d, p, items.len(), None, depth) == Some(
            (items, p + items_bytes(items).len()),
        ),
    decreases items, 0nat,
{
    if items.len() == 0 {
        assert(items =~= Seq::<ValueModel>::empty());
    } else {
        let rest = items.subrange(1, items.len() as int);
        assert(items_bytes(items) == value_bytes(items[0]) + items_bytes(rest));
        lemma_found_split(d, p, value_bytes(items[0]), items_bytes(rest));
        assert(value_writable(items[0], depth + 1));
        lemma_value_read(items[0], d, p, depth + 1);
        assert forall|i: int| 0 <= i < rest.len() implies value_writable(
            #[trigger] rest[i],
            depth + 1,
        ) by {
            assert(rest[i] == items[i + 1]);
        }
        let p1 = p + value_bytes(items[0]).len();
        lemma_items_read(rest, d, p1, depth);
        assert(byte_at(d, p) == Some(value_bytes(items[0])[0]));
        assert(item_at(d, p, None, depth) == Some((items[0], p1)));
        assert(items_counted(d, p1, rest.len(), None, depth) == Some((rest, p1 + items_bytes(rest).len())));
        assert(seq![items[0]] + rest =~= items);
    }
}

proof fn lemma_members_read(ms: Seq<(Seq<char>, ValueModel)>, d: Seq<u8>, p: int, depth: int)
    requires
        0 <= depth <= MAX_DEPTH,
        forall|i: int|
            0 <= i < ms.len() ==> encode_utf8(#[trigger] ms[i].0).len() < MAX_ITEMS
                && value_writable(ms[i].1, depth + 1),
        found_at(d, p, members_bytes(ms)),
    ensures
        members_counted(d, p, ms.len(), depth) == Some((ms, p + members_bytes(ms).len())),
    decreases ms, 0nat,
{
    if ms.len() == 0 {
        assert(ms =~= Seq::<(Seq<char>, ValueModel)>::empty());
    } else {
        let rest = ms.subrange(1, ms.len() as int);
        let e = encode_utf8(ms[0].0);
        let k = len_bytes(e.len()) + e;
        let vb = value_bytes(ms[0].1);
        assert(members_bytes(ms) == k + vb + members_bytes(rest));
        lemma_found_split(d, p, k + vb, members_bytes(rest));
        lemma_found_split(d, p, k, vb);
        assert(encode_utf8(ms[0].0).len() < MAX_ITEMS && value_writable(ms[0].1, depth + 1));
        lemma_text_read(ms[0].0, d, p);
        assert(decreases_to!(ms => ms[0]));
        lemma_value_read(ms[0].1, d, p + k.len(), depth + 1);
        assert forall|i: int| 0 <= i < rest.len() implies encode_utf8(#[trigger] rest[i].0).len()
            < MAX_ITEMS && value_writable(rest[i].1, depth + 1) by {
            assert(rest[i] == ms[i + 1]);
        }
        let p1 = p + k.len() + vb.len();
        lemma_members_read(rest, d, p1, depth);
        assert(byte_at(d, p + k.len()) == Some(vb[0]));
        assert(member_at(d, p, depth) == Some((ms[0], p1)));
        assert(seq![ms[0]] + rest =~= ms);
    }
}

/// Reading back what the writer wrote gives the same value and consumes
/// exactly the written bytes, whatever follows them.
pub proof fn lemma_write_then_parse(v: ValueModel, tail: Seq<u8>)
    requires
        value_writable(v, 0),
    ensures
        parse_spec(value_bytes(v) + tail) == Some((v, value_bytes(v).len() as int)),
{
    let d = value_bytes(v) + tail;
    assert(found_at(d, 0, value_bytes(v))) by {
        assert forall|i: int| 0 <= i < value_bytes(v).len() implies d[0 + i]
            == #[trigger] value_bytes(v)[i] by {}
    }
    lemma_value_read(v, d, 0, 0);
}

/// Parsing a state the writer produced and writing the value again
/// reproduces the state byte for byte, whatever follows it.
pub proof fn lemma_parse_then_write(v: ValueModel, tail: Seq<u8>)
    requires
        value_writable(v, 0),
    ensures
        parse_spec(value_bytes(v) + tail) matches Some((w, len)) && value_bytes(w) == value_bytes(v)
            && len == value_bytes(v).len(),
{
    lemma_write_then_parse(v, tail);
}

} // verus!
