//! Universal Audio UADx preset files. Each is a small JSON document whose
//! `chunk` object is exactly what the plugin's component state carries as its
//! `plugin_state_payload` (a JSON text string), alongside the preset `name`,
//! `uid` and `plugin_id`. Converting one means dropping its `chunk` into a
//! template state, which the UBJSON layer rebuilds.

use vstd::prelude::*;
use vstd::utf8::*;
use crate::json::{json_get, json_members_of, object_members_raw, pairs_view, raw_members_spec, JsonModel};
use crate::rpl::{is_white, trim};
use crate::text::{chars_of, from_utf8, message_with, occurs_at, string_of};
use crate::{err, Error, Result};

verus! {

broadcast use vstd::utf8::group_utf8_lib;

/// A parsed UA preset file.
pub struct UaPreset {
    pub name: String,
    pub uid: String,
    pub plugin_id: String,
    /// The exact source text of the `chunk` value, embedded verbatim so the
    /// vendor's number formatting is preserved.
    pub chunk_json: String,
    /// The keys under `chunk.controls`, used to sanity-check that a preset
    /// belongs to the template's plugin.
    pub control_keys: Vec<String>,
}

/// The plain content of a `UaPreset`.
pub struct UaPresetModel {
    pub name: Seq<char>,
    pub uid: Seq<char>,
    pub plugin_id: Seq<char>,
    pub chunk_json: Seq<char>,
    pub control_keys: Seq<Seq<char>>,
}

impl View for UaPreset {
    type V = UaPresetModel;

    open spec fn view(&self) -> UaPresetModel {
        UaPresetModel {
            name: self.name@,
            uid: self.uid@,
            plugin_id: self.plugin_id@,
            chunk_json: self.chunk_json@,
            control_keys: Seq::new(self.control_keys@.len(), |i: int| self.control_keys@[i]@),
        }
    }
}

// ---------------------------------------------------------------------------
// Specification
// ---------------------------------------------------------------------------

/// The index of the first character at or after `i` that is not a
/// byte-order mark, or the length.
pub open spec fn bom_end(s: Seq<char>, i: int) -> int
    decreases s.len() - i,
{
    if i < 0 || i >= s.len() || s[i] != '\u{feff}' {
        if i < 0 {
            0
        } else if i > s.len() {
            s.len() as int
        } else {
            i
        }
    } else {
        bom_end(s, i + 1)
    }
}

/// The text of a file that might be a UA preset: leading byte-order marks
/// removed, then leading white space.
pub open spec fn preset_body(t: Seq<char>) -> Seq<char> {
    let a = bom_end(t, 0);
    let u = t.subrange(a, t.len() as int);
    u.subrange(crate::rpl::white_end(u, 0), u.len() as int)
}

/// `"chunk"`, quotes included.
pub open spec fn chunk_key_quoted() -> Seq<char> {
    seq!['"', 'c', 'h', 'u', 'n', 'k', '"']
}

/// The file looks like a UA preset: UTF-8 text that, after any byte-order
/// marks and white space, opens with '{' and mentions `"chunk"`.
pub open spec fn looks_like_spec(data: Seq<u8>) -> bool {
    valid_utf8(data) && {
        let body = preset_body(decode_utf8(data));
        body.len() > 0 && body[0] == '{' && exists|i: int| occurs_at(body, chunk_key_quoted(), i)
    }
}

/// The raw text of the first member named `key`.
pub open spec fn raw_of(ms: Seq<(Seq<char>, Seq<char>)>, key: Seq<char>) -> Option<Seq<char>>
    decreases ms.len(),
{
    if ms.len() == 0 {
        None
    } else if ms[0].0 == key {
        Some(ms[0].1)
    } else {
        raw_of(ms.drop_first(), key)
    }
}

/// A member that must be a JSON string when present: its text, or empty
/// when absent; None when it is not a string.
pub open spec fn string_field(ms: Seq<(Seq<char>, Seq<char>)>, key: Seq<char>) -> Option<Seq<char>> {
    match raw_of(ms, key) {
        None => Some(Seq::empty()),
        Some(v) => match crate::json::parse_spec(encode_utf8(v)) {
            Some(JsonModel::Str(s)) => Some(s),
            _ => None,
        },
    }
}

/// The keys of the `controls` object of a chunk (empty when absent).
pub open spec fn control_keys_of(chunk: JsonModel) -> Seq<Seq<char>> {
    match json_get(chunk, seq!['c', 'o', 'n', 't', 'r', 'o', 'l', 's']) {
        Some(c) => json_members_of(c).map_values(|m: (Seq<char>, JsonModel)| m.0),
        None => Seq::empty(),
    }
}

/// The preset described by an object's (key, raw text) members, or None
/// when they do not make a usable one.
pub open spec fn ua_from_members(ms: Seq<(Seq<char>, Seq<char>)>) -> Option<UaPresetModel> {
    match raw_of(ms, seq!['c', 'h', 'u', 'n', 'k']) {
        None => None,
        Some(raw_chunk) => {
            let chunk_json = trim(raw_chunk);
            match (
                string_field(ms, seq!['n', 'a', 'm', 'e']),
                string_field(ms, seq!['u', 'i', 'd']),
                string_field(ms, seq!['p', 'l', 'u', 'g', 'i', 'n', '_', 'i', 'd']),
            ) {
                (Some(name), Some(uid), Some(plugin_id)) => match crate::json::parse_spec(
                    encode_utf8(chunk_json),
                ) {
                    None => None,
                    Some(chunk) => {
                        let keys = control_keys_of(chunk);
                        if keys.len() == 0 {
                            None
                        } else {
                            Some(
                                UaPresetModel {
                                    name,
                                    uid,
                                    plugin_id,
                                    chunk_json,
                                    control_keys: keys,
                                },
                            )
                        }
                    },
                },
                _ => None,
            }
        },
    }
}

/// A UA preset file's contents, or None when it is not a usable one.
pub open spec fn ua_parse_spec(data: Seq<u8>) -> Option<UaPresetModel> {
    if !valid_utf8(data) {
        None
    } else {
        match raw_members_spec(encode_utf8(decode_utf8(data))) {
            None => None,
            Some(ms) => ua_from_members(ms),
        }
    }
}

/// The message a member that must be a string is refused with: the JSON
/// reader's message when it is not JSON, or that it holds JSON of another
/// kind. None when it is a string or absent.
pub open spec fn field_error(ms: Seq<(Seq<char>, Seq<char>)>, key: Seq<char>) -> Option<Seq<char>> {
    match raw_of(ms, key) {
        None => None,
        Some(v) => match crate::json::parse_spec(encode_utf8(v)) {
            Some(JsonModel::Str(_)) => None,
            Some(_) => Some("UA preset \""@ + key + "\" is not a string"@),
            None => Some(crate::json::parse_error(encode_utf8(v))),
        },
    }
}

/// The message members that do not make a preset are refused with: no
/// `chunk`, a name, uid or plugin id that is not a string, a chunk the JSON
/// reader refuses, or a chunk without controls. None when they make one.
pub open spec fn members_error(ms: Seq<(Seq<char>, Seq<char>)>) -> Option<Seq<char>> {
    match raw_of(ms, seq!['c', 'h', 'u', 'n', 'k']) {
        None => Some("this UA preset file has no \"chunk\""@),
        Some(raw_chunk) => if string_field(ms, seq!['n', 'a', 'm', 'e']) is None {
            field_error(ms, seq!['n', 'a', 'm', 'e'])
        } else if string_field(ms, seq!['u', 'i', 'd']) is None {
            field_error(ms, seq!['u', 'i', 'd'])
        } else if string_field(ms, seq!['p', 'l', 'u', 'g', 'i', 'n', '_', 'i', 'd']) is None {
            field_error(ms, seq!['p', 'l', 'u', 'g', 'i', 'n', '_', 'i', 'd'])
        } else {
            match crate::json::parse_spec(encode_utf8(trim(raw_chunk))) {
                None => Some(crate::json::parse_error(encode_utf8(trim(raw_chunk)))),
                Some(chunk) => if control_keys_of(chunk).len() == 0 {
                    Some("this UA preset file has no controls; it is probably not a preset"@)
                } else {
                    None
                },
            }
        },
    }
}

/// The message a UA preset file is refused with: text that is not UTF-8,
/// the JSON reader's message for text that is not a JSON object, or why its
/// members do not make a preset. None when it makes one.
pub open spec fn ua_error(data: Seq<u8>) -> Option<Seq<char>> {
    if !valid_utf8(data) {
        Some("the UA preset file is not valid UTF-8"@)
    } else {
        match raw_members_spec(encode_utf8(decode_utf8(data))) {
            None => Some(crate::json::raw_members_error(encode_utf8(decode_utf8(data)))),
            Some(ms) => members_error(ms),
        }
    }
}

/// A UA preset file is refused exactly when a message is given for it.
pub proof fn lemma_ua_error_complete(data: Seq<u8>)
    ensures
        ua_parse_spec(data) is None <==> ua_error(data) is Some,
{
}

// ---------------------------------------------------------------------------
// Reading
// ---------------------------------------------------------------------------

fn body_start(t: &[char]) -> (r: usize)
    ensures
        r <= t@.len(),
        t@.subrange(r as int, t@.len() as int) == preset_body(t@),
{
    let mut a: usize = 0;
    while a < t.len() && t[a] == '\u{feff}'
        invariant
            a <= t@.len(),
            bom_end(t@, 0) == bom_end(t@, a as int),
        decreases t@.len() - a,
    {
        a = a + 1;
    }
    let ghost u = t@.subrange(a as int, t@.len() as int);
    let mut b: usize = a;
    while b < t.len() && crate::rpl::is_white_exec(t[b])
        invariant
            a <= b <= t@.len(),
            u == t@.subrange(a as int, t@.len() as int),
            crate::rpl::white_end(u, 0) == crate::rpl::white_end(u, (b - a) as int),
        decreases t@.len() - b,
    {
        proof {
            assert(u[(b - a) as int] == t@[b as int]);
        }
        b = b + 1;
    }
    proof {
        if b < t@.len() {
            assert(u[(b - a) as int] == t@[b as int]);
        }
        assert(crate::rpl::white_end(u, (b - a) as int) == (b - a) as int);
        assert(u.subrange((b - a) as int, u.len() as int) =~= t@.subrange(b as int, t@.len() as int));
    }
    b
}

/// Does this file look like a UA preset (a JSON object with a `chunk`)?
pub fn looks_like(data: &[u8]) -> (r: bool)
    ensures
        r == looks_like_spec(data@),
{
    let text = match from_utf8(vstd::slice::slice_to_vec(data)) {
        Some(t) => t,
        None => {
            return false;
        },
    };
    let t = chars_of(text.as_str());
    let b = body_start(&t);
    let body = vstd::slice::slice_subrange(t.as_slice(), b, t.len());
    if body.len() == 0 || body[0] != '{' {
        return false;
    }
    let pat: [char; 7] = ['"', 'c', 'h', 'u', 'n', 'k', '"'];
    assert(pat@ == chunk_key_quoted());
    let found = crate::text::find_chars(body, &pat, 0);
    proof {
        crate::text::lemma_first_occurrence(body@, pat@, 0);
    }
    found.is_some()
}

/// The raw text of the first member named `key`.
fn raw_lookup<'a>(ms: &'a Vec<(String, String)>, key: &str) -> (r: Option<&'a String>)
    ensures
        r matches Some(v) ==> raw_of(pairs_view(ms@), key@) == Some(v@),
        r is None ==> raw_of(pairs_view(ms@), key@) is None,
{
    let ghost pv = pairs_view(ms@);
    let mut i: usize = 0;
    assert(pv.subrange(0, pv.len() as int) =~= pv);
    while i < ms.len()
        invariant
            i <= ms@.len(),
            pv == pairs_view(ms@),
            raw_of(pv, key@) == raw_of(pv.subrange(i as int, pv.len() as int), key@),
        decreases ms@.len() - i,
    {
        let ghost rest = pv.subrange(i as int, pv.len() as int);
        assert(rest[0] == (ms@[i as int].0@, ms@[i as int].1@));
        assert(rest.drop_first() =~= pv.subrange(i + 1, pv.len() as int));
        if crate::text::str_eq(ms[i].0.as_str(), key) {
            return Some(&ms[i].1);
        }
        i = i + 1;
    }
    None
}

/// A member that must be a JSON string when present.
fn read_string_field(ms: &Vec<(String, String)>, key: &str) -> (r: Result<String>)
    ensures
        r is Ok <==> string_field(pairs_view(ms@), key@) is Some,
        r matches Ok(s) ==> string_field(pairs_view(ms@), key@) == Some(s@),
        field_error(pairs_view(ms@), key@) matches Some(m) ==> (r matches Err(e) && e.0@ == m),
{
    match raw_lookup(ms, key) {
        None => Ok(String::new()),
        Some(v) => {
            let j = match crate::json::parse(v.as_str()) {
                Ok(j) => j,
                Err(e) => {
                    return Err(e);
                },
            };
            match j.as_str() {
                Some(s) => Ok(string_of(&chars_of(s))),
                None => {
                    let shown = chars_of(key);
                    Err(Error(message_with("UA preset \"", &shown, "\" is not a string")))
                },
            }
        },
    }
}

/// The keys under a chunk's `controls`.
pub(crate) fn control_keys_exec(chunk: &crate::json::Json) -> (r: Vec<String>)
    ensures
        r@.len() == control_keys_of(chunk@).len(),
        forall|j: int| 0 <= j < r@.len() ==> #[trigger] r@[j]@ == control_keys_of(chunk@)[j],
{
    proof {
        reveal_strlit("controls");
        assert("controls"@ =~= seq!['c', 'o', 'n', 't', 'r', 'o', 'l', 's']);
    }
    let mut control_keys: Vec<String> = Vec::new();
    match chunk.get("controls") {
        Some(c) => {
            assert(control_keys_of(chunk@) == json_members_of(c@).map_values(
                |m: (Seq<char>, JsonModel)| m.0,
            ));
            let keys = c.keys();
            let mut i: usize = 0;
            while i < keys.len()
                invariant
                    i <= keys@.len(),
                    keys@.len() == json_members_of(c@).len(),
                    forall|j: int| 0 <= j < keys@.len() ==> #[trigger] keys@[j]@ == json_members_of(
                        c@,
                    )[j].0,
                    control_keys@.len() == i,
                    forall|j: int| 0 <= j < i ==> #[trigger] control_keys@[j]@ == keys@[j]@,
                decreases keys@.len() - i,
            {
                control_keys.push(string_of(&chars_of(keys[i])));
                i = i + 1;
            }
        },
        None => {
            assert(control_keys_of(chunk@) == Seq::<Seq<char>>::empty());
        },
    }
    control_keys
}

/// The preset described by an object's members.
#[verifier::rlimit(40)]
fn from_members(members: &Vec<(String, String)>) -> (r: Result<UaPreset>)
    ensures
        match ua_from_members(pairs_view(members@)) {
            Some(m) => r matches Ok(p) && p@ == m,
            None => r is Err,
        },
        members_error(pairs_view(members@)) matches Some(m) ==> (r matches Err(e) && e.0@ == m),
{
    proof {
        reveal_strlit("chunk");
        reveal_strlit("name");
        reveal_strlit("uid");
        reveal_strlit("plugin_id");
        assert("chunk"@ =~= seq!['c', 'h', 'u', 'n', 'k']);
        assert("name"@ =~= seq!['n', 'a', 'm', 'e']);
        assert("uid"@ =~= seq!['u', 'i', 'd']);
        assert("plugin_id"@ =~= seq!['p', 'l', 'u', 'g', 'i', 'n', '_', 'i', 'd']);
    }
    let raw_chunk = match raw_lookup(members, "chunk") {
        Some(v) => v,
        None => {
            return err("this UA preset file has no \"chunk\"");
        },
    };
    let chunk_chars = crate::rpl::trim_exec(&chars_of(raw_chunk.as_str()));
    let chunk_json = string_of(&chunk_chars);
    let name = match read_string_field(members, "name") {
        Ok(v) => v,
        Err(e) => {
            return Err(e);
        },
    };
    let uid = match read_string_field(members, "uid") {
        Ok(v) => v,
        Err(e) => {
            return Err(e);
        },
    };
    let plugin_id = match read_string_field(members, "plugin_id") {
        Ok(v) => v,
        Err(e) => {
            return Err(e);
        },
    };
    let chunk = match crate::json::parse(chunk_json.as_str()) {
        Ok(c) => c,
        Err(e) => {
            return Err(e);
        },
    };
    let control_keys = control_keys_exec(&chunk);
    let p = UaPreset { name, uid, plugin_id, chunk_json, control_keys };
    assert(p@.control_keys =~= control_keys_of(chunk@));
    if p.control_keys.len() == 0 {
        return err("this UA preset file has no controls; it is probably not a preset");
    }
    Ok(p)
}

/// Parse a UA preset file.
pub fn parse(data: &[u8]) -> (r: Result<UaPreset>)
    ensures
        match ua_parse_spec(data@) {
            Some(m) => r matches Ok(p) && p@ == m,
            None => r is Err,
        },
        ua_error(data@) matches Some(m) ==> (r matches Err(e) && e.0@ == m),
        r matches Err(e) ==> ua_error(data@) == Some(e.0@),
{
    proof {
        lemma_ua_error_complete(data@);
    }
    let text = match from_utf8(vstd::slice::slice_to_vec(data)) {
        Some(t) => t,
        None => {
            return err("the UA preset file is not valid UTF-8");
        },
    };
    let members = match object_members_raw(text.as_str()) {
        Ok(m) => m,
        Err(e) => {
            return Err(e);
        },
    };
    from_members(&members)
}

} // verus!
