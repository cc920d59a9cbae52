//! High-level conversion pipeline: template RPL in, converted presets out.

use vstd::prelude::*;
use vstd::utf8::*;
use crate::blob::{blob_spec, rebuild_bytes, Blob, BlobModel, StateKind};
use crate::files::{file_stem_spec, CollectedFile};
use crate::floats::{FloatTexts, FloatTextsModel};
use crate::rpl::{presets_view, trim, write_spec, Preset};
use crate::text::{bytes_of, chars_of, from_utf8, message_with, push_all_chars, string_of};
use crate::uapreset::{control_keys_of, UaPreset, UaPresetModel};
use crate::ubjson::{get_spec, set_spec, value_bytes, ValueModel};
use crate::valuetree::{node_at, prop_of, Node, NodeModel, Value};
use crate::xmlmerge::scan_name_end;
use crate::{err, Error, Result};

verus! {

broadcast use vstd::utf8::group_utf8_lib;

/// The template plugin's state, in whichever form the plugin serializes it.
pub enum TemplateState {
    Xml(String),
    Tree(Node),
    /// Universal Audio UBJSON state, with the control keys the template's own
    /// payload carries, used to reject preset files from a different plugin.
    Ubjson { state: crate::ubjson::Value, control_keys: Vec<String> },
}

/// The plain content of a `TemplateState`.
pub enum TemplateStateModel {
    Xml(Seq<char>),
    Tree(NodeModel),
    Ubjson { state: ValueModel, control_keys: Seq<Seq<char>> },
}

/// The plain content of strings.
pub open spec fn strings_view(v: Seq<String>) -> Seq<Seq<char>> {
    Seq::new(v.len(), |i: int| v[i]@)
}

impl View for TemplateState {
    type V = TemplateStateModel;

    open spec fn view(&self) -> TemplateStateModel {
        match self {
            TemplateState::Xml(x) => TemplateStateModel::Xml(x@),
            TemplateState::Tree(n) => TemplateStateModel::Tree(n@),
            TemplateState::Ubjson { state, control_keys } => TemplateStateModel::Ubjson {
                state: state@,
                control_keys: strings_view(control_keys@),
            },
        }
    }
}

/// A template library taken apart: its header, its first preset's name,
/// that preset's blob, and the plugin state inside it.
pub struct Template {
    pub library_header: String,
    pub template_preset_name: String,
    pub blob: Blob,
    pub state: TemplateState,
    pub state_root: String,
}

/// The plain content of a `Template`.
pub struct TemplateModel {
    pub library_header: Seq<char>,
    pub template_preset_name: Seq<char>,
    pub blob: BlobModel,
    pub state: TemplateStateModel,
    pub state_root: Seq<char>,
}

impl View for Template {
    type V = TemplateModel;

    open spec fn view(&self) -> TemplateModel {
        TemplateModel {
            library_header: self.library_header@,
            template_preset_name: self.template_preset_name@,
            blob: self.blob@,
            state: self.state@,
            state_root: self.state_root@,
        }
    }
}

impl TemplateModel {
    /// The blob can be rebuilt, and a tree state is small enough to count
    /// its properties in a `usize`.
    pub open spec fn wf(self) -> bool {
        &&& self.blob.wf()
        &&& (self.state matches TemplateStateModel::Tree(n) ==> crate::treemerge::prop_count(n)
            <= usize::MAX)
    }
}

impl Template {
    /// Name of the plugin state's root node, e.g. "Euphoria" or "appModel";
    /// this is what embedded-preset scanning searches a binary for.
    pub fn state_root_name(&self) -> (r: &str)
        ensures
            r@ == self.state_root@,
    {
        self.state_root.as_str()
    }

    /// Whether the state is XML text.
    pub fn is_xml_state(&self) -> (r: bool)
        ensures
            r == (self@.state is Xml),
    {
        match self.state {
            TemplateState::Xml(_) => true,
            _ => false,
        }
    }

    /// UA UBJSON templates have no state document embedded in the plugin
    /// binary, so binary scanning does not apply to them.
    pub fn is_ubjson_state(&self) -> (r: bool)
        ensures
            r == (self@.state is Ubjson),
    {
        match self.state {
            TemplateState::Ubjson { .. } => true,
            _ => false,
        }
    }
}

/// One converted preset.
pub struct ConvertedPreset {
    pub name: String,
    pub data: Vec<u8>,
    /// How many parameters were taken from the preset file; a sanity signal
    /// that the file really belongs to the template's plugin.
    pub parameters_applied: usize,
}

/// The plain content of a `ConvertedPreset`.
pub struct ConvertedModel {
    pub name: Seq<char>,
    pub data: Seq<u8>,
    pub parameters_applied: nat,
}

impl View for ConvertedPreset {
    type V = ConvertedModel;

    open spec fn view(&self) -> ConvertedModel {
        ConvertedModel {
            name: self.name@,
            data: self.data@,
            parameters_applied: self.parameters_applied as nat,
        }
    }
}

// ---------------------------------------------------------------------------
// Loading a template, as spec functions
// ---------------------------------------------------------------------------

/// "plugin_state_payload".
pub open spec fn payload_key() -> Seq<char> {
    seq![
        'p', 'l', 'u', 'g', 'i', 'n', '_', 's', 't', 'a', 't', 'e', '_', 'p', 'a', 'y', 'l', 'o',
        'a', 'd',
    ]
}

/// A character that ends a UA payload's text: NUL or ASCII white space.
pub open spec fn is_payload_pad(c: char) -> bool {
    c == '\0' || c == ' ' || c == '\n' || c == '\r' || c == '\t'
}

/// The index just past the last character before `j` that is not padding,
/// or 0.
pub open spec fn pad_start(s: Seq<char>, j: int) -> int
    decreases j,
{
    if j <= 0 || j > s.len() {
        0
    } else if !is_payload_pad(s[j - 1]) {
        j
    } else {
        pad_start(s, j - 1)
    }
}

/// The control keys a UA template's own payload lists (empty when the
/// payload cannot be read).
pub open spec fn ua_keys_spec(v: ValueModel) -> Seq<Seq<char>> {
    match get_spec(v, payload_key()) {
        Some(ValueModel::Bytes(b)) => if valid_utf8(b) {
            let t = decode_utf8(b);
            let text = t.subrange(0, pad_start(t, t.len() as int));
            match crate::json::parse_spec(encode_utf8(text)) {
                Some(chunk) => control_keys_of(chunk),
                None => Seq::empty(),
            }
        } else {
            Seq::empty()
        },
        _ => Seq::empty(),
    }
}

/// Name of the first real element in an XML document, looking from `i`.
pub open spec fn xml_root_from(t: Seq<char>, i: int) -> Option<Seq<char>>
    decreases t.len() - i,
{
    let open = crate::xmlmerge::scan_to(t, i, '<');
    if i < 0 || open < i || open >= t.len() {
        None
    } else if open + 1 < t.len() && (t[open + 1] == '?' || t[open + 1] == '!') {
        xml_root_from(t, open + 1)
    } else {
        Some(t.subrange(open + 1, scan_name_end(t, open + 1)))
    }
}

/// The template state a blob holds, or None when it cannot be read.
pub open spec fn state_model(b: BlobModel) -> Option<TemplateStateModel> {
    match b.kind {
        StateKind::Xml => if valid_utf8(b.state) {
            Some(TemplateStateModel::Xml(decode_utf8(b.state)))
        } else {
            None
        },
        StateKind::Tree => match node_at(b.state, 0, 0) {
            Some((n, _)) => Some(TemplateStateModel::Tree(n)),
            None => None,
        },
        StateKind::Ubjson => match crate::ubjson::parse_spec(b.state) {
            Some((v, _)) => Some(TemplateStateModel::Ubjson { state: v, control_keys: ua_keys_spec(v) }),
            None => None,
        },
    }
}

/// "uapw": the placeholder root name of UBJSON states.
pub open spec fn ua_root() -> Seq<char> {
    seq!['u', 'a', 'p', 'w']
}

/// The state's root name.
pub open spec fn root_of(st: TemplateStateModel) -> Option<Seq<char>> {
    match st {
        TemplateStateModel::Xml(x) => xml_root_from(x, 0),
        TemplateStateModel::Tree(n) => Some(n.name),
        TemplateStateModel::Ubjson { .. } => Some(ua_root()),
    }
}

/// The template a library text teaches, or None when it cannot be used.
pub open spec fn load_spec(text: Seq<char>) -> Option<TemplateModel> {
    match crate::rpl::parse_spec(text) {
        None => None,
        Some((h, ps)) => if ps.len() == 0 {
            None
        } else {
            match blob_spec(ps[0].1, ps[0].0) {
                None => None,
                Some(b) => match state_model(b) {
                    None => None,
                    Some(st) => match root_of(st) {
                        None => None,
                        Some(root) => Some(
                            TemplateModel {
                                library_header: h,
                                template_preset_name: ps[0].0,
                                blob: b,
                                state: st,
                                state_root: root,
                            },
                        ),
                    },
                },
            }
        },
    }
}


// ---------------------------------------------------------------------------
// Loading a template
// ---------------------------------------------------------------------------

/// The message `load_template` refuses a library with: the RPL reader's
/// message for a library it refuses, no presets, the blob reader's message
/// when the first preset's blob cannot be taken apart, XML state that is
/// not UTF-8 or has no root element, or the tree or UBJSON reader's message
/// for state it cannot read. None when the template loads.
pub open spec fn load_error(text: Seq<char>) -> Option<Seq<char>> {
    match crate::rpl::parse_spec(text) {
        None => Some(crate::rpl::parse_error(text)),
        Some((h, ps)) => if ps.len() == 0 {
            Some("the template RPL contains no presets"@)
        } else {
            match blob_spec(ps[0].1, ps[0].0) {
                None => Some(crate::blob::blob_error(ps[0].1, ps[0].0)),
                Some(b) => match b.kind {
                    StateKind::Xml => if !valid_utf8(b.state) {
                        Some("the template's plugin state XML is not valid UTF-8"@)
                    } else if xml_root_from(decode_utf8(b.state), 0) is None {
                        Some("cannot find the root element of the template state"@)
                    } else {
                        None
                    },
                    StateKind::Tree => match node_at(b.state, 0, 0) {
                        None => Some(crate::valuetree::node_error(b.state, 0, 0)),
                        Some(_) => None,
                    },
                    StateKind::Ubjson => match crate::ubjson::parse_spec(b.state) {
                        None => Some(crate::ubjson::parse_error(b.state)),
                        Some(_) => None,
                    },
                },
            }
        },
    }
}

/// A library is refused as a template exactly when a message is given for
/// it.
pub proof fn lemma_load_error_complete(text: Seq<char>)
    ensures
        load_spec(text) is None <==> load_error(text) is Some,
{
}

/// The control keys the template's own payload lists, so a preset file for a
/// different UA plugin (with a different control set) can be rejected. The
/// payload is a null-terminated JSON string, so the terminator is trimmed
/// before parsing.
fn ua_template_control_keys(state: &crate::ubjson::Value) -> (r: Vec<String>)
    ensures
        strings_view(r@) == ua_keys_spec(state@),
{
    proof {
        reveal_strlit("plugin_state_payload");
        assert("plugin_state_payload"@ =~= payload_key());
    }
    let empty: Vec<String> = Vec::new();
    assert(strings_view(empty@) =~= Seq::<Seq<char>>::empty());
    let payload = match state.get("plugin_state_payload") {
        Some(v) => v,
        None => {
            return empty;
        },
    };
    let bytes = match payload.as_bytes() {
        Some(b) => b,
        None => {
            return empty;
        },
    };
    let text = match from_utf8(vstd::slice::slice_to_vec(bytes.as_slice())) {
        Some(t) => t,
        None => {
            return empty;
        },
    };
    let t = chars_of(text.as_str());
    let mut j: usize = t.len();
    while j > 0 && (t[j - 1] == '\0' || t[j - 1] == ' ' || t[j - 1] == '\n' || t[j - 1] == '\r'
        || t[j - 1] == '\t')
        invariant
            j <= t@.len(),
            pad_start(t@, t@.len() as int) == pad_start(t@, j as int),
        decreases j,
    {
        j = j - 1;
    }
    let trimmed = string_of(vstd::slice::slice_subrange(t.as_slice(), 0, j));
    let chunk = match crate::json::parse(trimmed.as_str()) {
        Ok(c) => c,
        Err(_) => {
            return empty;
        },
    };
    let keys = crate::uapreset::control_keys_exec(&chunk);
    assert(strings_view(keys@) =~= control_keys_of(chunk@));
    keys
}

/// Name of the first real element in an XML document.
fn xml_root_name(xml: &[char]) -> (r: Option<Vec<char>>)
    ensures
        r matches Some(n) ==> xml_root_from(xml@, 0) == Some(n@),
        r is None ==> xml_root_from(xml@, 0) is None,
{
    let mut i: usize = 0;
    loop
        invariant
            i <= xml@.len(),
            xml_root_from(xml@, 0) == xml_root_from(xml@, i as int),
        decreases xml@.len() - i,
    {
        let open = crate::xmlmerge::to_char(xml, i, '<');
        if open >= xml.len() {
            return None;
        }
        if open + 1 < xml.len() && (xml[open + 1] == '?' || xml[open + 1] == '!') {
            i = open + 1;
        } else {
            let end = crate::xmlmerge::name_end(xml, open + 1);
            return Some(crate::text::char_range(xml, open + 1, end));
        }
    }
}

/// Load a template library exported from REAPER. Its first preset teaches
/// the converter the plugin-specific wrapper.
pub fn load_template(rpl_text: &str) -> (r: Result<Template>)
    ensures
        match load_spec(rpl_text@) {
            Some(m) => r matches Ok(t) && t@ == m && t@.wf(),
            None => r is Err,
        },
        r matches Err(e) ==> load_error(rpl_text@) == Some(e.0@),
{
    let r = read_template(rpl_text);
    proof {
        lemma_load_error_complete(rpl_text@);
    }
    r
}

/// The template a library teaches, refused with `load_error`'s message.
fn read_template(rpl_text: &str) -> (r: Result<Template>)
    ensures
        match load_spec(rpl_text@) {
            Some(m) => r matches Ok(t) && t@ == m && t@.wf(),
            None => r is Err,
        },
        load_error(rpl_text@) matches Some(msg) ==> (r matches Err(e) && e.0@ == msg),
{
    let lib = match crate::rpl::parse(rpl_text) {
        Ok(l) => l,
        Err(e) => {
            return Err(e);
        },
    };
    if lib.presets.len() == 0 {
        return err("the template RPL contains no presets");
    }
    let first = &lib.presets[0];
    let first_name = string_of(&chars_of(first.name.as_str()));
    let blob = match Blob::parse(first.data.as_slice(), first.name.as_str()) {
        Ok(b) => b,
        Err(e) => {
            return Err(e);
        },
    };
    let state = match blob.state_kind() {
        StateKind::Xml => match from_utf8(vstd::slice::slice_to_vec(blob.state_bytes())) {
            Some(x) => TemplateState::Xml(x),
            None => {
                return err("the template's plugin state XML is not valid UTF-8");
            },
        },
        StateKind::Tree => match crate::valuetree::parse_with_len(blob.state_bytes()) {
            Ok((node, len)) => {
                proof {
                    crate::treemerge::lemma_parsed_prop_count(blob@.state);
                }
                TemplateState::Tree(node)
            },
            Err(e) => {
                return Err(e);
            },
        },
        StateKind::Ubjson => match crate::ubjson::parse(blob.state_bytes()) {
            Ok((value, _)) => {
                let control_keys = ua_template_control_keys(&value);
                TemplateState::Ubjson { state: value, control_keys }
            },
            Err(e) => {
                return Err(e);
            },
        },
    };
    let state_root = match &state {
        TemplateState::Xml(xml) => {
            let x = chars_of(xml.as_str());
            match xml_root_name(&x) {
                Some(n) => string_of(&n),
                None => {
                    return err("cannot find the root element of the template state");
                },
            }
        },
        TemplateState::Tree(node) => string_of(&chars_of(node.name.as_str())),
        TemplateState::Ubjson { .. } => {
            let p: [char; 4] = ['u', 'a', 'p', 'w'];
            assert(p@ == ua_root());
            string_of(&p)
        },
    };
    let t = Template {
        library_header: lib.header,
        template_preset_name: first_name,
        blob,
        state,
        state_root,
    };
    Ok(t)
}


// ---------------------------------------------------------------------------
// Reading one preset file
// ---------------------------------------------------------------------------

/// ASCII white space as `u8::is_ascii_whitespace` has it: tab, line feed,
/// form feed, carriage return and space.
pub open spec fn is_ascii_white_byte(b: u8) -> bool {
    b == 0x09 || b == 0x0a || b == 0x0c || b == 0x0d || b == 0x20
}

/// The data begins with a UTF-8 byte-order mark.
pub open spec fn has_bom(d: Seq<u8>) -> bool {
    d.len() >= 3 && d[0] == 0xef && d[1] == 0xbb && d[2] == 0xbf
}

/// The first index at or after `i` that does not hold ASCII white space, or
/// the length.
pub open spec fn white_bytes_end(d: Seq<u8>, i: int) -> int
    decreases d.len() - i,
{
    if i < 0 || i >= d.len() || !is_ascii_white_byte(d[i]) {
        if i < 0 {
            0
        } else if i > d.len() {
            d.len() as int
        } else {
            i
        }
    } else {
        white_bytes_end(d, i + 1)
    }
}

/// Where a preset file's content begins, past a byte-order mark and leading
/// white space.
pub open spec fn body_start(d: Seq<u8>) -> int {
    white_bytes_end(d, if has_bom(d) { 3 } else { 0 })
}

/// The tree a preset file holds: XML text when its content begins with
/// '<', a binary tree otherwise.
pub open spec fn preset_file_spec(d: Seq<u8>) -> Option<NodeModel> {
    let s = body_start(d);
    if s < d.len() && d[s] == 0x3c {
        let body = d.subrange(s, d.len() as int);
        if valid_utf8(body) {
            crate::xmlread::read_spec(decode_utf8(body))
        } else {
            None
        }
    } else {
        match node_at(d, 0, 0) {
            Some((n, _)) => Some(n),
            None => None,
        }
    }
}

/// The message for a preset file `preset_file_spec` finds no tree in.
pub open spec fn preset_file_error(d: Seq<u8>) -> Seq<char> {
    let s = body_start(d);
    if s < d.len() && d[s] == 0x3c {
        let body = d.subrange(s, d.len() as int);
        if valid_utf8(body) {
            crate::xmlread::read_error(decode_utf8(body))
        } else {
            "the preset file's XML is not valid UTF-8"@
        }
    } else {
        crate::valuetree::node_error(d, 0, 0)
    }
}

/// "name".
pub open spec fn name_key() -> Seq<char> {
    seq!['n', 'a', 'm', 'e']
}

/// "presetNameProp".
pub open spec fn preset_name_key() -> Seq<char> {
    seq!['p', 'r', 'e', 's', 'e', 't', 'N', 'a', 'm', 'e', 'P', 'r', 'o', 'p']
}

/// The trimmed text of a string property, when it is not blank.
pub open spec fn named_by(n: NodeModel, key: Seq<char>) -> Option<Seq<char>> {
    match prop_of(n, key) {
        Some(crate::valuetree::ValueModel::Str(s)) => if trim(s).len() > 0 {
            Some(trim(s))
        } else {
            None
        },
        _ => None,
    }
}

/// The preset's own name, under "name" or else "presetNameProp".
pub open spec fn display_name_spec(n: NodeModel) -> Option<Seq<char>> {
    match named_by(n, name_key()) {
        Some(s) => Some(s),
        None => named_by(n, preset_name_key()),
    }
}

/// The index where a preset file's content begins.
fn skip_leading_noise(data: &[u8]) -> (r: usize)
    ensures
        r == body_start(data@),
        r <= data@.len(),
{
    let mut i: usize = if data.len() >= 3 && data[0] == 0xef && data[1] == 0xbb && data[2] == 0xbf {
        3
    } else {
        0
    };
    let ghost start = i as int;
    while i < data.len() && (data[i] == 0x09 || data[i] == 0x0a || data[i] == 0x0c || data[i]
        == 0x0d || data[i] == 0x20)
        invariant
            i <= data@.len(),
            start <= i,
            start == (if has_bom(data@) { 3int } else { 0int }),
            white_bytes_end(data@, start) == white_bytes_end(data@, i as int),
        decreases data@.len() - i,
    {
        i = i + 1;
    }
    i
}

/// Vendor preset files come as JUCE binary ValueTrees or as XML text;
/// accept either, normalized to the same tree shape.
fn parse_preset_file(data: &[u8]) -> (r: Result<Node>)
    ensures
        match preset_file_spec(data@) {
            Some(n) => r matches Ok(m) && m@ == n,
            None => r is Err,
        },
        r matches Err(e) ==> e.0@ == preset_file_error(data@),
{
    let s = skip_leading_noise(data);
    if s < data.len() && data[s] == 0x3c {
        let body = vstd::slice::slice_subrange(data, s, data.len());
        match from_utf8(vstd::slice::slice_to_vec(body)) {
            Some(text) => crate::xmlread::parse(text.as_str()),
            None => err("the preset file's XML is not valid UTF-8"),
        }
    } else {
        proof {
            if data@.len() > 0 && data@[0] == 0x3c {
                assert(!has_bom(data@));
                assert(white_bytes_end(data@, 0) == 0);
            }
        }
        crate::valuetree::parse(data)
    }
}

/// The trimmed text of a string property, when it is not blank.
fn named_prop(vt: &Node, key: &str) -> (r: Option<String>)
    ensures
        r matches Some(s) ==> named_by(vt@, key@) == Some(s@),
        r is None ==> named_by(vt@, key@) is None,
{
    match vt.prop(key) {
        Some(Value::Str(s)) => {
            let t = crate::rpl::trim_exec(&chars_of(s.as_str()));
            if t.len() > 0 {
                Some(string_of(&t))
            } else {
                None
            }
        },
        _ => None,
    }
}

/// The preset's own name: vendors store it under different property names.
fn preset_display_name(vt: &Node) -> (r: Option<String>)
    ensures
        r matches Some(s) ==> display_name_spec(vt@) == Some(s@),
        r is None ==> display_name_spec(vt@) is None,
{
    proof {
        reveal_strlit("name");
        reveal_strlit("presetNameProp");
        assert("name"@ =~= name_key());
        assert("presetNameProp"@ =~= preset_name_key());
    }
    match named_prop(vt, "name") {
        Some(s) => Some(s),
        None => named_prop(vt, "presetNameProp"),
    }
}


// ---------------------------------------------------------------------------
// Converting one preset file, as spec functions
// ---------------------------------------------------------------------------

/// " folder: ".
pub open spec fn folder_marker() -> Seq<char> {
    seq![' ', 'f', 'o', 'l', 'd', 'e', 'r', ':', ' ']
}

/// "<folder> folder: <base>" when a folder is announced, else the base name.
pub open spec fn prefixed(prefix: Option<Seq<char>>, base: Seq<char>) -> Seq<char> {
    match prefix {
        Some(f) => f + folder_marker() + base,
        None => base,
    }
}

/// The text of an optional string slice.
pub open spec fn opt_text(o: Option<&str>) -> Option<Seq<char>> {
    match o {
        Some(s) => Some(s@),
        None => None,
    }
}

/// The merged state's bytes and how many values came from the preset tree,
/// or None when the merge fails (or the state is not a tree or XML).
pub open spec fn merged_state(st: TemplateStateModel, vt: NodeModel, fl: FloatTextsModel) -> Option<(Seq<u8>, nat)> {
    match st {
        TemplateStateModel::Xml(x) => match crate::xmlmerge::merge_spec(x, vt, fl) {
            Some((o, c)) => Some((encode_utf8(o), c.0)),
            None => None,
        },
        TemplateStateModel::Tree(n) => match crate::treemerge::merge_spec(n, vt, fl) {
            Some((b, o, _)) => Some((b, o)),
            None => None,
        },
        TemplateStateModel::Ubjson { .. } => None,
    }
}

/// Whether converting the file against the template reaches an XML merge
/// that cannot walk the template's XML (see `merge_breaks`): the state is
/// such XML and the file reads as a preset tree.
pub open spec fn convert_breaks(t: TemplateModel, file: Seq<u8>) -> bool {
    match t.state {
        TemplateStateModel::Xml(x) => crate::xmlmerge::merge_breaks(x) && preset_file_spec(file) is Some,
        _ => false,
    }
}

/// Whether a file of a batch, where it could be read, does so.
pub open spec fn breaks_on(t: TemplateModel, file: Option<Seq<u8>>) -> bool {
    match file {
        Some(d) => convert_breaks(t, d),
        None => false,
    }
}

/// Whether some file of a batch does so.
pub open spec fn batch_breaks(t: TemplateModel, contents: Seq<Option<Seq<u8>>>) -> bool {
    exists|k: int| 0 <= k < contents.len() && #[trigger] breaks_on(t, contents[k])
}

/// The message the merge of a preset tree into a template state is refused
/// with.
pub open spec fn merge_state_error(st: TemplateStateModel, vt: NodeModel, fl: FloatTextsModel) -> Seq<char> {
    match st {
        TemplateStateModel::Xml(x) => crate::xmlmerge::merge_error(x, vt, fl),
        TemplateStateModel::Tree(n) => "the preset file contains no '"@ + n.name
            + "' data matching this plugin's state"@,
        TemplateStateModel::Ubjson { .. } => "the template's state is not a tree or XML document"@,
    }
}

/// A preset file converted against an XML or tree template, or None when
/// it cannot be read or no parameter of it matched.
pub open spec fn tree_convert_spec(
    t: TemplateModel,
    file: Seq<u8>,
    fallback: Seq<char>,
    prefix: Option<Seq<char>>,
    fl: FloatTextsModel,
) -> Option<ConvertedModel> {
    match preset_file_spec(file) {
        None => None,
        Some(vt) => {
            let base = match display_name_spec(vt) {
                Some(s) => s,
                None => fallback,
            };
            let name = prefixed(prefix, base);
            match merged_state(t.state, vt, fl) {
                None => None,
                Some((state, o)) => if o == 0 {
                    None
                } else {
                    Some(
                        ConvertedModel {
                            name,
                            data: rebuild_bytes(t.blob, state, encode_utf8(name)),
                            parameters_applied: o,
                        },
                    )
                },
            }
        },
    }
}

/// Some key of the first list occurs in the second.
pub open spec fn shares_key(pk: Seq<Seq<char>>, keys: Seq<Seq<char>>) -> bool {
    exists|i: int, j: int|
        #![trigger pk[i], keys[j]]
        0 <= i < pk.len() && 0 <= j < keys.len() && pk[i] == keys[j]
}

/// "alternate_state".
pub open spec fn alt_key() -> Seq<char> {
    seq!['a', 'l', 't', 'e', 'r', 'n', 'a', 't', 'e', '_', 's', 't', 'a', 't', 'e']
}

/// "preset_name".
pub open spec fn slot_name_key() -> Seq<char> {
    seq!['p', 'r', 'e', 's', 'e', 't', '_', 'n', 'a', 'm', 'e']
}

/// "preset_uid".
pub open spec fn slot_uid_key() -> Seq<char> {
    seq!['p', 'r', 'e', 's', 'e', 't', '_', 'u', 'i', 'd']
}

/// "preset_dirty".
pub open spec fn slot_dirty_key() -> Seq<char> {
    seq!['p', 'r', 'e', 's', 'e', 't', '_', 'd', 'i', 'r', 't', 'y']
}

/// The state's payload is a byte string ending in a NUL.
pub open spec fn terminated_payload(v: ValueModel) -> bool {
    match get_spec(v, payload_key()) {
        Some(ValueModel::Bytes(b)) => b.len() > 0 && b.last() == 0,
        _ => false,
    }
}

/// A UBJSON slot object with its name, uid (when there is one), dirty flag
/// and payload set; members it lacks stay absent.
pub open spec fn slot_spec(slot: ValueModel, name: Seq<char>, uid: Seq<char>, payload: ValueModel) -> ValueModel {
    let a = set_spec(slot, slot_name_key(), ValueModel::Str(name));
    let b = if uid.len() == 0 {
        a
    } else {
        set_spec(a, slot_uid_key(), ValueModel::Str(uid))
    };
    let c = set_spec(b, slot_dirty_key(), ValueModel::Bool(false));
    set_spec(c, payload_key(), payload)
}

/// The template state with the preset dropped into its active slot and,
/// when it has one, its alternate slot.
pub open spec fn ua_state_spec(state: ValueModel, name: Seq<char>, p: UaPresetModel) -> ValueModel {
    let bytes = if terminated_payload(state) {
        encode_utf8(p.chunk_json).push(0u8)
    } else {
        encode_utf8(p.chunk_json)
    };
    let payload = ValueModel::Bytes(bytes);
    let s1 = slot_spec(state, name, p.uid, payload);
    match get_spec(s1, alt_key()) {
        Some(alt) => if alt is Object {
            set_spec(s1, alt_key(), slot_spec(alt, name, p.uid, payload))
        } else {
            s1
        },
        None => s1,
    }
}

/// A UA preset file converted against a UBJSON template, or None when it
/// cannot be read or shares no control with a template that lists some.
pub open spec fn ua_convert_spec(
    t: TemplateModel,
    state: ValueModel,
    keys: Seq<Seq<char>>,
    file: Seq<u8>,
    fallback: Seq<char>,
    prefix: Option<Seq<char>>,
) -> Option<ConvertedModel> {
    match crate::uapreset::ua_parse_spec(file) {
        None => None,
        Some(p) => if !shares_key(p.control_keys, keys) && keys.len() > 0 {
            None
        } else {
            let base = if trim(p.name).len() == 0 {
                fallback
            } else {
                trim(p.name)
            };
            let name = prefixed(prefix, base);
            Some(
                ConvertedModel {
                    name,
                    data: rebuild_bytes(
                        t.blob,
                        value_bytes(ua_state_spec(state, base, p)),
                        encode_utf8(name),
                    ),
                    parameters_applied: p.control_keys.len(),
                },
            )
        },
    }
}

/// A preset file converted against a template.
pub open spec fn convert_spec(
    t: TemplateModel,
    file: Seq<u8>,
    fallback: Seq<char>,
    prefix: Option<Seq<char>>,
    fl: FloatTextsModel,
) -> Option<ConvertedModel> {
    match t.state {
        TemplateStateModel::Ubjson { state, control_keys } => ua_convert_spec(
            t,
            state,
            control_keys,
            file,
            fallback,
            prefix,
        ),
        _ => tree_convert_spec(t, file, fallback, prefix, fl),
    }
}


/// A converted preset's blob ends with its own name, a NUL and the
/// template's footer tail: the RPL entry name and the name inside the blob
/// are the same, so the output can serve as a template in turn.
pub proof fn lemma_converted_name_in_footer(
    t: TemplateModel,
    file: Seq<u8>,
    fallback: Seq<char>,
    prefix: Option<Seq<char>>,
    fl: FloatTextsModel,
)
    requires
        convert_spec(t, file, fallback, prefix, fl) is Some,
    ensures
        ({
            let c = convert_spec(t, file, fallback, prefix, fl).unwrap();
            let tail = encode_utf8(c.name) + seq![0u8] + t.blob.footer_suffix;
            tail.len() <= c.data.len() && c.data.subrange(
                c.data.len() - tail.len(),
                c.data.len() as int,
            ) == tail
        }),
{
    let c = convert_spec(t, file, fallback, prefix, fl).unwrap();
    match t.state {
        TemplateStateModel::Ubjson { state, control_keys } => {
            let p = crate::uapreset::ua_parse_spec(file).unwrap();
            let base = if trim(p.name).len() == 0 {
                fallback
            } else {
                trim(p.name)
            };
            lemma_rebuild_tail(t.blob, value_bytes(ua_state_spec(state, base, p)), c.name);
        },
        _ => {
            let vt = preset_file_spec(file).unwrap();
            lemma_rebuild_tail(t.blob, merged_state(t.state, vt, fl).unwrap().0, c.name);
        },
    }
}

/// The first character of a UTF-8 text whose first byte is '<' is '<'.
proof fn lemma_decode_starts_with_lt(b: Seq<u8>)
    requires
        valid_utf8(b),
        b.len() > 0,
        b[0] == 0x3c,
    ensures
        decode_utf8(b).len() > 0,
        decode_utf8(b)[0] == '<',
{
    assert(0x3cu8 & 0x7fu8 == 0x3cu8) by (bit_vector);
    assert(decode_first_scalar(b) == 0x3c);
}

/// The UTF-8 encoding of a text that begins with '<' begins with the byte
/// '<'.
proof fn lemma_encode_starts_with_lt(x: Seq<char>)
    requires
        x.len() > 0,
        x[0] == '<',
    ensures
        encode_utf8(x).len() > 0,
        encode_utf8(x)[0] == 0x3c,
{
    assert(0x3cu32 & 0x7fu32 == 0x3cu32) by (bit_vector);
    assert(('<' as u32) == 0x3c);
    assert(encode_scalar('<' as u32) =~= seq![0x3cu8]);
    assert(encode_utf8(x) == encode_scalar(x[0] as u32) + encode_utf8(x.drop_first()));
}

/// A preset converted against an XML template is itself a preset blob: it
/// reads, under its own name, as XML state holding the merged XML, so it
/// can serve as a template in turn (for a blob under 4 GiB, whose length
/// fields hold its lengths).
#[verifier::rlimit(40)]
pub proof fn lemma_xml_output_reads_as_template(
    text: Seq<char>,
    file: Seq<u8>,
    fallback: Seq<char>,
    prefix: Option<Seq<char>>,
    fl: FloatTextsModel,
)
    requires
        load_spec(text) matches Some(t) && t.state is Xml && (convert_spec(
            t,
            file,
            fallback,
            prefix,
            fl,
        ) matches Some(c) && c.data.len() < 0x1_0000_0000),
    ensures
        ({
            let t = load_spec(text).unwrap();
            let c = convert_spec(t, file, fallback, prefix, fl).unwrap();
            let x = match t.state {
                TemplateStateModel::Xml(x) => x,
                _ => Seq::empty(),
            };
            let vt = preset_file_spec(file).unwrap();
            blob_spec(c.data, c.name) matches Some(m2) && m2.kind == StateKind::Xml && m2.state
                == encode_utf8(crate::xmlmerge::merge_spec(x, vt, fl).unwrap().0)
        }),
{
    let t = load_spec(text).unwrap();
    let c = convert_spec(t, file, fallback, prefix, fl).unwrap();
    let (h, ps) = crate::rpl::parse_spec(text).unwrap();
    let b = t.blob;
    assert(blob_spec(ps[0].1, ps[0].0) == Some(b));
    let x = decode_utf8(b.state);
    assert(t.state == TemplateStateModel::Xml(x));
    assert(x.len() > 0);
    assert(b.state.len() > 0);
    crate::blob::lemma_xml_state_starts(ps[0].1, ps[0].0);
    lemma_decode_starts_with_lt(b.state);
    let vt = preset_file_spec(file).unwrap();
    let o = crate::xmlmerge::merge_spec(x, vt, fl).unwrap().0;
    crate::xmlmerge::lemma_merge_starts_with_lt(x, vt, fl);
    lemma_encode_starts_with_lt(o);
    let state2 = encode_utf8(o);
    assert(c.data == rebuild_bytes(b, state2, encode_utf8(c.name)));
    crate::blob::lemma_rebuild_xml_parses(ps[0].1, ps[0].0, state2, c.name);
}

/// The first preset of the library a template was loaded from.
pub open spec fn template_source(text: Seq<char>) -> (Seq<char>, Seq<u8>) {
    crate::rpl::parse_spec(text).unwrap().1[0]
}

/// The name a tree preset gets: its own, else the fallback.
pub open spec fn tree_name(n: NodeModel, fallback: Seq<char>) -> Seq<char> {
    match display_name_spec(n) {
        Some(s) => s,
        None => fallback,
    }
}

/// Converting a tree template's own state reproduces the template preset.
/// When the state's first byte starts neither white space, a byte-order
/// mark nor XML, its bytes are the tree as the writer writes it, overlaying
/// the tree onto itself gives it back, and it holds some property, the
/// result is the template's blob rebuilt around its own state under the
/// name the state carries (or the fallback); and when that name is the one
/// in the template preset's footer, it is the template preset's blob byte
/// for byte.
pub proof fn lemma_tree_self_conversion(text: Seq<char>, fallback: Seq<char>, fl: FloatTextsModel)
    requires
        load_spec(text) matches Some(t) && t.state matches TemplateStateModel::Tree(n) && {
            &&& t.blob.state.len() > 0
            &&& !is_ascii_white_byte(t.blob.state[0])
            &&& t.blob.state[0] != 0xef
            &&& t.blob.state[0] != 0x3c
            &&& crate::valuetree::node_bytes(n) == t.blob.state
            &&& crate::treemerge::self_matching(n, fl)
            &&& crate::treemerge::prop_count(n) > 0
        },
    ensures
        ({
            let t = load_spec(text).unwrap();
            let n = match t.state {
                TemplateStateModel::Tree(n) => n,
                _ => n_default(),
            };
            let name = tree_name(n, fallback);
            let c = ConvertedModel {
                name,
                data: rebuild_bytes(t.blob, t.blob.state, encode_utf8(name)),
                parameters_applied: crate::treemerge::prop_count(n),
            };
            &&& convert_spec(t, t.blob.state, fallback, None, fl) == Some(c)
            &&& (name == t.template_preset_name && crate::blob::footer_name(
                template_source(text).1,
                name,
            ) == encode_utf8(name) ==> c.data == template_source(text).1)
        }),
{
    let t = load_spec(text).unwrap();
    let n = match t.state {
        TemplateStateModel::Tree(n) => n,
        _ => n_default(),
    };
    let (h, ps) = crate::rpl::parse_spec(text).unwrap();
    let st = t.blob.state;
    // the state reads back as the tree
    assert(!has_bom(st));
    assert(white_bytes_end(st, 0) == 0);
    assert(body_start(st) == 0);
    assert(node_at(st, 0, 0) matches Some((m, _)) && m == n);
    assert(preset_file_spec(st) == Some(n));
    // overlaying it onto itself gives it back
    crate::treemerge::lemma_overlay_self(n, fl);
    assert(crate::valuetree::find_in(n, n.name) == Some(n));
    assert(crate::treemerge::merge_spec(n, n, fl) == Some(
        (crate::valuetree::node_bytes(n), crate::treemerge::prop_count(n), 0nat),
    ));
    assert(merged_state(t.state, n, fl) == Some((st, crate::treemerge::prop_count(n))));
    // and the blob is put back together
    crate::blob::lemma_parse_then_rebuild(ps[0].1, ps[0].0);
}

/// Text that begins with '<' encodes to bytes that begin with 0x3c.
proof fn lemma_encoded_first_lt(x: Seq<char>)
    requires
        x.len() > 0,
        x[0] == '<',
    ensures
        encode_utf8(x).len() > 0,
        encode_utf8(x)[0] == 0x3c,
{
    let c: u32 = x[0] as u32;
    assert(c == 0x3c);
    assert((0x3cu32 & 0x7f) as u8 == 0x3c) by (bit_vector);
    assert(encode_scalar(c) =~= seq![0x3cu8]);
    assert(encode_utf8(x) == encode_scalar(c) + encode_utf8(x.drop_first()));
}

/// Converting an XML template's own state reproduces the template preset.
/// When the state text is JUCE's machine-written form (see `xmlform`) and
/// begins with '<', each element's attribute names are distinct, each
/// element is the first of its siblings with its name and id, and it holds
/// some attribute, the result is the template's blob rebuilt around its
/// own state under the name the state carries (or the fallback); and when
/// that name is the one in the template preset's footer, it is the template
/// preset's blob byte for byte.
#[verifier::rlimit(40)]
pub proof fn lemma_xml_self_conversion(text: Seq<char>, fallback: Seq<char>, fl: FloatTextsModel)
    requires
        load_spec(text) matches Some(t) && t.state matches TemplateStateModel::Xml(x) && {
            &&& x.len() > 0
            &&& x[0] == '<'
            &&& crate::xmlform::g_doc(x) matches Some(r)
            &&& crate::treemerge::self_matching(r, fl)
            &&& crate::treemerge::prop_count(r) > 0
        },
    ensures
        ({
            let t = load_spec(text).unwrap();
            let x = match t.state {
                TemplateStateModel::Xml(x) => x,
                _ => Seq::empty(),
            };
            let r = crate::xmlform::g_doc(x).unwrap();
            let name = tree_name(r, fallback);
            let c = ConvertedModel {
                name,
                data: rebuild_bytes(t.blob, t.blob.state, encode_utf8(name)),
                parameters_applied: crate::treemerge::prop_count(r),
            };
            &&& convert_spec(t, t.blob.state, fallback, None, fl) == Some(c)
            &&& (name == t.template_preset_name && crate::blob::footer_name(
                template_source(text).1,
                name,
            ) == encode_utf8(name) ==> c.data == template_source(text).1)
        }),
{
    let t = load_spec(text).unwrap();
    let x = match t.state {
        TemplateStateModel::Xml(x) => x,
        _ => Seq::empty(),
    };
    let r = crate::xmlform::g_doc(x).unwrap();
    let (h, ps) = crate::rpl::parse_spec(text).unwrap();
    let st = t.blob.state;
    assert(valid_utf8(st) && x == decode_utf8(st));
    assert(encode_utf8(x) == st);
    // the state's first byte is '<'
    lemma_encoded_first_lt(x);
    assert(!has_bom(st));
    assert(white_bytes_end(st, 0) == 0);
    assert(body_start(st) == 0);
    assert(st.subrange(0, st.len() as int) =~= st);
    crate::xmlform::lemma_read_form(x);
    assert(preset_file_spec(st) == Some(r));
    crate::xmlform::lemma_merge_form(x, fl);
    assert(merged_state(t.state, r, fl) == Some((st, crate::treemerge::prop_count(r))));
    crate::blob::lemma_parse_then_rebuild(ps[0].1, ps[0].0);
}

/// An empty tree.
pub open spec fn n_default() -> NodeModel {
    NodeModel { name: Seq::empty(), props: Seq::empty(), children: Seq::empty() }
}

/// A rebuilt blob ends with the name, a NUL and the footer tail.
proof fn lemma_rebuild_tail(m: BlobModel, state: Seq<u8>, name: Seq<char>)
    ensures
        ({
            let data = rebuild_bytes(m, state, encode_utf8(name));
            let tail = encode_utf8(name) + seq![0u8] + m.footer_suffix;
            tail.len() <= data.len() && data.subrange(data.len() - tail.len(), data.len() as int)
                == tail
        }),
{
    let data = rebuild_bytes(m, state, encode_utf8(name));
    let tail = encode_utf8(name) + seq![0u8] + m.footer_suffix;
    let delta = state.len() - m.state.len();
    let head = m.head + crate::valuetree::le_bytes(crate::blob::wrap32(m.payload_len_field + delta), 4)
        + m.post_len + m.prog + crate::valuetree::le_bytes(
        crate::blob::wrap32(m.comp_len_field + delta),
        4,
    ) + m.mid + crate::blob::shift_le(
        crate::blob::shift_be(m.comp_head, m.be_len_fields, delta),
        m.le_len_fields,
        delta,
    ) + state + m.comp_trailer + m.payload_tail + m.footer_prefix;
    assert(data =~= head + tail);
    assert(data.subrange(head.len() as int, data.len() as int) =~= tail);
}

/// The message a conversion is refused with: why a UA preset file does not
/// make a preset or that it shares no control with the template, the XML
/// or tree reader's message for a preset file it refuses, the merge's
/// message for a template state it cannot merge into, or that no parameter
/// matched. None when the conversion succeeds.
pub open spec fn convert_error(t: TemplateModel, file: Seq<u8>, fl: FloatTextsModel) -> Option<Seq<char>> {
    match t.state {
        TemplateStateModel::Ubjson { state, control_keys } => match crate::uapreset::ua_parse_spec(
            file,
        ) {
            Some(p) => if !shares_key(p.control_keys, control_keys) && control_keys.len() > 0 {
                Some(
                    "no controls matched the template; this UA preset file is probably for a different plugin"@,
                )
            } else {
                None
            },
            None => crate::uapreset::ua_error(file),
        },
        _ => match preset_file_spec(file) {
            Some(vt) => match merged_state(t.state, vt, fl) {
                None => Some(merge_state_error(t.state, vt, fl)),
                Some((_, o)) => if o == 0 {
                    Some(
                        "no parameters matched the template; this preset file is probably for a different plugin"@,
                    )
                } else {
                    None
                },
            },
            None => Some(preset_file_error(file)),
        },
    }
}

/// A conversion is refused exactly when a message is given for it.
pub proof fn lemma_convert_error_complete(
    t: TemplateModel,
    file: Seq<u8>,
    fallback: Seq<char>,
    prefix: Option<Seq<char>>,
    fl: FloatTextsModel,
)
    ensures
        convert_spec(t, file, fallback, prefix, fl) is None <==> convert_error(t, file, fl) is Some,
{
    crate::uapreset::lemma_ua_error_complete(file);
}

// ---------------------------------------------------------------------------
// Converting one preset file
// ---------------------------------------------------------------------------

/// The name with the folder marker in front when a folder is announced.
fn with_prefix(folder_prefix: Option<&str>, base: &str) -> (r: String)
    ensures
        r@ == prefixed(opt_text(folder_prefix), base@),
{
    match folder_prefix {
        Some(folder) => {
            proof {
                reveal_strlit(" folder: ");
                assert(" folder: "@ =~= folder_marker());
            }
            let mut v = chars_of(folder);
            push_all_chars(&mut v, &chars_of(" folder: "));
            push_all_chars(&mut v, &chars_of(base));
            string_of(&v)
        },
        None => base.to_owned(),
    }
}

/// Overlay the preset tree onto an XML or tree template state: the merged
/// state's bytes and how many values came from the preset tree.
fn merge_into(state: &TemplateState, vt: &Node, floats: &FloatTexts) -> (r: Result<(Vec<u8>, usize)>)
    requires
        state@ matches TemplateStateModel::Xml(x) ==> !crate::xmlmerge::merge_breaks(x),
        state@ matches TemplateStateModel::Tree(n) ==> crate::treemerge::prop_count(n)
            <= usize::MAX,
    ensures
        match merged_state(state@, vt@, floats@) {
            Some((b, o)) => r matches Ok((v, n)) && v@ == b && n == o,
            None => r is Err,
        },
        r matches Err(e) ==> e.0@ == merge_state_error(state@, vt@, floats@),
{
    match state {
        TemplateState::Xml(xml) => match crate::xmlmerge::merge(xml.as_str(), vt, floats) {
            Ok((merged, stats)) => Ok((bytes_of(merged.as_str()), stats.overridden)),
            Err(e) => Err(e),
        },
        TemplateState::Tree(tree) => match crate::treemerge::merge(tree, vt, floats) {
            Ok((bytes, stats)) => Ok((bytes, stats.overridden)),
            Err(e) => Err(e),
        },
        TemplateState::Ubjson { .. } => err("the template's state is not a tree or XML document"),
    }
}

/// Convert one vendor preset file. `fallback_name` (usually the file stem)
/// is used when the preset file carries no name of its own; `floats` holds
/// the decimal texts of the doubles the merge meets.
pub fn convert_preset(
    template: &Template,
    preset_file: &[u8],
    fallback_name: &str,
    floats: &FloatTexts,
) -> (r: Result<ConvertedPreset>)
    requires
        template@.wf(),
        !convert_breaks(template@, preset_file@),
    ensures
        match convert_spec(template@, preset_file@, fallback_name@, None, floats@) {
            Some(m) => r matches Ok(c) && c@ == m,
            None => r is Err,
        },
        convert_error(template@, preset_file@, floats@) matches Some(m) ==> (r matches Err(e) && e.0@
            == m),
        r matches Err(e) ==> convert_error(template@, preset_file@, floats@) == Some(e.0@),
{
    convert_with_prefix(template, preset_file, fallback_name, None, floats)
}

/// The folder marker must be part of the name BEFORE the blob is built, so
/// the RPL entry name and the name embedded in the blob's footer stay
/// identical; a mismatch makes the output unusable as a future template.
#[verifier::rlimit(60)]
fn convert_with_prefix(
    template: &Template,
    preset_file: &[u8],
    fallback_name: &str,
    folder_prefix: Option<&str>,
    floats: &FloatTexts,
) -> (r: Result<ConvertedPreset>)
    requires
        template@.wf(),
        !convert_breaks(template@, preset_file@),
    ensures
        match convert_spec(
            template@,
            preset_file@,
            fallback_name@,
            opt_text(folder_prefix),
            floats@,
        ) {
            Some(m) => r matches Ok(c) && c@ == m,
            None => r is Err,
        },
        convert_error(template@, preset_file@, floats@) matches Some(m) ==> (r matches Err(e) && e.0@
            == m),
        r matches Err(e) ==> convert_error(template@, preset_file@, floats@) == Some(e.0@),
{
    proof {
        lemma_convert_error_complete(
            template@,
            preset_file@,
            fallback_name@,
            opt_text(folder_prefix),
            floats@,
        );
    }
    // Universal Audio presets are JSON, not ValueTrees, and replace the whole
    // payload rather than merging parameters, so they take their own path.
    if let TemplateState::Ubjson { state, control_keys } = &template.state {
        return convert_ua_preset(
            template,
            state,
            control_keys,
            preset_file,
            fallback_name,
            folder_prefix,
        );
    }
    let vt = match parse_preset_file(preset_file) {
        Ok(v) => v,
        Err(e) => {
            return Err(e);
        },
    };
    let base = match preset_display_name(&vt) {
        Some(s) => s,
        None => fallback_name.to_owned(),
    };
    let name = with_prefix(folder_prefix, base.as_str());
    let (state, overridden) = match merge_into(&template.state, &vt, floats) {
        Ok(m) => m,
        Err(e) => {
            return Err(e);
        },
    };
    if overridden == 0 {
        return err(
            "no parameters matched the template; this preset file is probably for a different plugin",
        );
    }
    let data = template.blob.rebuild(state.as_slice(), name.as_str());
    Ok(ConvertedPreset { name, data, parameters_applied: overridden })
}

/// Some key of `preset_keys` is among `template_keys`.
fn shares_any(preset_keys: &Vec<String>, template_keys: &Vec<String>) -> (r: bool)
    ensures
        r == shares_key(strings_view(preset_keys@), strings_view(template_keys@)),
{
    let ghost pk = strings_view(preset_keys@);
    let ghost tk = strings_view(template_keys@);
    let mut i: usize = 0;
    while i < preset_keys.len()
        invariant
            i <= preset_keys@.len(),
            pk == strings_view(preset_keys@),
            tk == strings_view(template_keys@),
            forall|a: int, b: int|
                #![trigger pk[a], tk[b]]
                0 <= a < i && 0 <= b < tk.len() ==> pk[a] != tk[b],
        decreases preset_keys@.len() - i,
    {
        let mut j: usize = 0;
        while j < template_keys.len()
            invariant
                i < preset_keys@.len(),
                j <= template_keys@.len(),
                pk == strings_view(preset_keys@),
                tk == strings_view(template_keys@),
                forall|a: int, b: int|
                    #![trigger pk[a], tk[b]]
                    0 <= a < i && 0 <= b < tk.len() ==> pk[a] != tk[b],
                forall|b: int| #![trigger tk[b]] 0 <= b < j ==> pk[i as int] != tk[b],
            decreases template_keys@.len() - j,
        {
            if crate::text::str_eq(preset_keys[i].as_str(), template_keys[j].as_str()) {
                assert(pk[i as int] == tk[j as int]);
                return true;
            }
            j = j + 1;
        }
        i = i + 1;
    }
    false
}

/// Set the name, uid, dirty flag and payload of one UBJSON slot object,
/// touching only members the template already has.
fn apply_ua_slot(slot: &mut crate::ubjson::Value, name: &str, uid: &str, payload: crate::ubjson::Value)
    ensures
        final(slot)@ == slot_spec(old(slot)@, name@, uid@, payload@),
{
    proof {
        reveal_strlit("preset_name");
        reveal_strlit("preset_uid");
        reveal_strlit("preset_dirty");
        reveal_strlit("plugin_state_payload");
        assert("preset_name"@ =~= slot_name_key());
        assert("preset_uid"@ =~= slot_uid_key());
        assert("preset_dirty"@ =~= slot_dirty_key());
        assert("plugin_state_payload"@ =~= payload_key());
    }
    slot.set("preset_name", crate::ubjson::Value::Str(name.to_owned()));
    if !uid.is_empty() {
        slot.set("preset_uid", crate::ubjson::Value::Str(uid.to_owned()));
    }
    slot.set("preset_dirty", crate::ubjson::Value::Bool(false));
    slot.set("plugin_state_payload", payload);
}

/// Clone the template state and overwrite the preset-identifying fields in
/// both the active and alternate slots with this preset's data.
fn build_ua_state(template_state: &crate::ubjson::Value, name: &str, preset: &UaPreset) -> (r:
    crate::ubjson::Value)
    ensures
        r@ == ua_state_spec(template_state@, name@, preset@),
{
    proof {
        reveal_strlit("plugin_state_payload");
        reveal_strlit("alternate_state");
        assert("plugin_state_payload"@ =~= payload_key());
        assert("alternate_state"@ =~= alt_key());
    }
    // The plugin stores the payload as a null-terminated string; match that
    // framing when the template's payload is terminated the same way.
    let mut payload_bytes = bytes_of(preset.chunk_json.as_str());
    let terminated = match template_state.get("plugin_state_payload") {
        Some(v) => match v.as_bytes() {
            Some(b) => b.len() > 0 && b[b.len() - 1] == 0,
            None => false,
        },
        None => false,
    };
    if terminated {
        payload_bytes.push(0);
    }
    let payload = crate::ubjson::Value::Bytes(payload_bytes);
    let mut state = crate::ubjson::copy_value(template_state);
    apply_ua_slot(&mut state, name, preset.uid.as_str(), crate::ubjson::copy_value(&payload));
    let alt = match state.get("alternate_state") {
        Some(a) => Some(crate::ubjson::copy_value(a)),
        None => None,
    };
    if let Some(mut alt) = alt {
        if alt.members().is_some() {
            apply_ua_slot(&mut alt, name, preset.uid.as_str(), payload);
            state.set("alternate_state", alt);
        }
    }
    state
}

/// Convert one Universal Audio preset file by dropping its `chunk` into the
/// template's UBJSON state (both the active slot and the alternate slot), so
/// the plugin recalls the preset regardless of which slot it reads.
fn convert_ua_preset(
    template: &Template,
    template_state: &crate::ubjson::Value,
    control_keys: &Vec<String>,
    preset_file: &[u8],
    fallback_name: &str,
    folder_prefix: Option<&str>,
) -> (r: Result<ConvertedPreset>)
    requires
        template@.wf(),
    ensures
        match ua_convert_spec(
            template@,
            template_state@,
            strings_view(control_keys@),
            preset_file@,
            fallback_name@,
            opt_text(folder_prefix),
        ) {
            Some(m) => r matches Ok(c) && c@ == m,
            None => r is Err,
        },
        template@.state == (TemplateStateModel::Ubjson {
            state: template_state@,
            control_keys: strings_view(control_keys@),
        }) ==> (convert_error(template@, preset_file@, no_floats()) matches Some(m) ==> (r matches Err(
            e,
        ) && e.0@ == m)),
{
    let preset = match crate::uapreset::parse(preset_file) {
        Ok(p) => p,
        Err(e) => {
            return Err(e);
        },
    };
    assert(preset@.control_keys =~= strings_view(preset.control_keys@));
    // Accept the file only if its controls overlap the template's; a preset
    // for a different UA plugin names different controls.
    if !shares_any(&preset.control_keys, control_keys) && control_keys.len() > 0 {
        return err(
            "no controls matched the template; this UA preset file is probably for a different plugin",
        );
    }
    let trimmed = crate::rpl::trim_exec(&chars_of(preset.name.as_str()));
    let base = if trimmed.len() == 0 {
        fallback_name.to_owned()
    } else {
        string_of(&trimmed)
    };
    let name = with_prefix(folder_prefix, base.as_str());
    let state = build_ua_state(template_state, base.as_str(), &preset);
    let bytes = crate::ubjson::write(&state);
    let data = template.blob.rebuild(bytes.as_slice(), name.as_str());
    Ok(ConvertedPreset { name, data, parameters_applied: preset.control_keys.len() })
}


// ---------------------------------------------------------------------------
// Converting a batch
// ---------------------------------------------------------------------------

/// How subfolders show up in converted preset names.
#[derive(Clone, Copy, PartialEq, Eq, Debug, Structural)]
pub enum FolderNaming {
    /// Every preset keeps its saved name.
    Flat,
    /// The first preset of each subfolder is prefixed with the innermost
    /// folder name: "Adam Christianson folder: Dreamolo".
    Deepest,
    /// The first preset of each subfolder is prefixed with the whole
    /// relative folder path: "Artists, Adam Christianson folder: Dreamolo".
    FullPath,
}

/// What a batch conversion produced: the converted presets in order, and
/// the index in the batch of every file that was skipped, with the reason.
pub struct BatchOutcome {
    pub presets: Vec<ConvertedPreset>,
    pub skipped: Vec<(usize, Error)>,
}

/// The plain content of converted presets.
pub open spec fn converted_view(v: Seq<ConvertedPreset>) -> Seq<ConvertedModel> {
    Seq::new(v.len(), |i: int| v[i]@)
}

/// Why a file was skipped: the message of its read error, or the message
/// its conversion is refused with.
#[verifier::opaque]
pub open spec fn skip_reason(
    t: TemplateModel,
    content: Result<Vec<u8>>,
    fl: FloatTextsModel,
    message: Seq<char>,
) -> bool {
    match content {
        Ok(d) => convert_error(t, d@, fl) == Some(message),
        Err(c) => message == c.0@,
    }
}

/// The indices of skipped files.
pub open spec fn skipped_view(v: Seq<(usize, Error)>) -> Seq<nat> {
    Seq::new(v.len(), |i: int| v[i].0 as nat)
}

/// The bytes of each file, or None where it could not be read.
pub open spec fn contents_view(v: Seq<Result<Vec<u8>>>) -> Seq<Option<Seq<u8>>> {
    Seq::new(
        v.len(),
        |i: int|
            match v[i] {
                Ok(d) => Some(d@),
                Err(_) => None,
            },
    )
}

/// Folder components joined with ", ".
pub open spec fn join_comma(cs: Seq<Seq<char>>) -> Seq<char>
    decreases cs.len(),
{
    if cs.len() == 0 {
        Seq::empty()
    } else if cs.len() == 1 {
        cs[0]
    } else {
        join_comma(cs.drop_last()) + seq![',', ' '] + cs.last()
    }
}

/// The folder marker a file gets: one only when markers are on and its
/// folder differs from the folder of the last preset converted.
pub open spec fn folder_prefix_spec(
    naming: FolderNaming,
    folder: Option<Seq<Seq<char>>>,
    previous: Option<Seq<Seq<char>>>,
) -> Option<Seq<char>> {
    match folder {
        Some(cs) => if naming != FolderNaming::Flat && previous != folder {
            Some(
                match naming {
                    FolderNaming::Deepest => if cs.len() == 0 {
                        Seq::empty()
                    } else {
                        cs.last()
                    },
                    _ => join_comma(cs),
                },
            )
        } else {
            None
        },
        None => None,
    }
}

/// With markers on, a file in a subfolder gets a marker exactly when its
/// folder, as a whole sequence of components, differs from the folder of
/// the last converted preset: the innermost component in Deepest mode, the
/// whole path joined with ", " in FullPath mode. Flat naming and files
/// outside any subfolder get none.
pub proof fn lemma_marker_on_folder_change(
    naming: FolderNaming,
    cs: Seq<Seq<char>>,
    previous: Option<Seq<Seq<char>>>,
)
    ensures
        folder_prefix_spec(naming, None, previous) is None,
        folder_prefix_spec(FolderNaming::Flat, Some(cs), previous) is None,
        previous == Some(cs) ==> folder_prefix_spec(naming, Some(cs), previous) is None,
        naming != FolderNaming::Flat && previous != Some(cs) ==> folder_prefix_spec(
            naming,
            Some(cs),
            previous,
        ) is Some,
        naming == FolderNaming::Deepest && previous != Some(cs) && cs.len() > 0 ==> folder_prefix_spec(
            naming,
            Some(cs),
            previous,
        ) == Some(cs[cs.len() - 1]),
        naming == FolderNaming::FullPath && previous != Some(cs) ==> folder_prefix_spec(
            naming,
            Some(cs),
            previous,
        ) == Some(join_comma(cs)),
{
}

/// "Preset".
pub open spec fn default_name() -> Seq<char> {
    seq!['P', 'r', 'e', 's', 'e', 't']
}

/// The name used when a preset file carries none: the file's stem.
pub open spec fn fallback_spec(path: Seq<Seq<char>>) -> Seq<char> {
    match file_stem_spec(path) {
        Some(s) => s,
        None => default_name(),
    }
}

/// What one file of a batch converts to, given the folder of the last
/// preset converted before it.
#[verifier::opaque]
pub open spec fn file_outcome(
    t: TemplateModel,
    f: crate::files::CollectedModel,
    content: Option<Seq<u8>>,
    naming: FolderNaming,
    previous: Option<Seq<Seq<char>>>,
    fl: FloatTextsModel,
) -> Option<ConvertedModel> {
    match content {
        Some(d) => convert_spec(
            t,
            d,
            fallback_spec(f.path),
            folder_prefix_spec(naming, f.subfolder, previous),
            fl,
        ),
        None => None,
    }
}

/// The converted presets, the skipped indices and the last converted
/// preset's folder after the first `k` files of a batch.
pub open spec fn batch_from(
    t: TemplateModel,
    files: Seq<crate::files::CollectedModel>,
    contents: Seq<Option<Seq<u8>>>,
    naming: FolderNaming,
    fl: FloatTextsModel,
    k: nat,
) -> (Seq<ConvertedModel>, Seq<nat>, Option<Seq<Seq<char>>>)
    decreases k,
{
    if k == 0 {
        (Seq::empty(), Seq::empty(), None)
    } else {
        let (ps, sk, prev) = batch_from(t, files, contents, naming, fl, (k - 1) as nat);
        let i = k - 1;
        match file_outcome(t, files[i], contents[i], naming, prev, fl) {
            Some(c) => (ps.push(c), sk, files[i].subfolder),
            None => (ps, sk.push(i as nat), prev),
        }
    }
}

/// In flat mode a file converts as `convert_preset` would convert it,
/// whatever was converted before it.
pub proof fn lemma_flat_ignores_folders(
    t: TemplateModel,
    f: crate::files::CollectedModel,
    content: Option<Seq<u8>>,
    previous: Option<Seq<Seq<char>>>,
    fl: FloatTextsModel,
)
    ensures
        file_outcome(t, f, content, FolderNaming::Flat, previous, fl) == match content {
            Some(d) => convert_spec(t, d, fallback_spec(f.path), None, fl),
            None => None,
        },
{
    reveal(file_outcome);
}

/// The presets and skipped indices of a whole batch.
pub open spec fn batch_spec(
    t: TemplateModel,
    files: Seq<crate::files::CollectedModel>,
    contents: Seq<Option<Seq<u8>>>,
    naming: FolderNaming,
    fl: FloatTextsModel,
) -> (Seq<ConvertedModel>, Seq<nat>) {
    let (ps, sk, _) = batch_from(t, files, contents, naming, fl, files.len());
    (ps, sk)
}

/// The plain content of an optional folder.
pub open spec fn folder_view(f: Option<Vec<String>>) -> Option<Seq<Seq<char>>> {
    match f {
        Some(v) => Some(crate::files::texts_view(v@)),
        None => None,
    }
}

/// Two optional folders name the same folder.
fn same_folder(a: &Option<Vec<String>>, b: &Option<Vec<String>>) -> (r: bool)
    ensures
        r == (folder_view(*a) == folder_view(*b)),
{
    match (a, b) {
        (Some(x), Some(y)) => {
            let ghost xv = crate::files::texts_view(x@);
            let ghost yv = crate::files::texts_view(y@);
            assert(folder_view(*a) == Some(xv));
            assert(folder_view(*b) == Some(yv));
            if x.len() != y.len() {
                assert(xv.len() != yv.len());
                return false;
            }
            let mut i: usize = 0;
            while i < x.len()
                invariant
                    i <= x@.len(),
                    x@.len() == y@.len(),
                    xv == crate::files::texts_view(x@),
                    yv == crate::files::texts_view(y@),
                    folder_view(*a) == Some(xv),
                    folder_view(*b) == Some(yv),
                    forall|j: int| 0 <= j < i ==> #[trigger] xv[j] == yv[j],
                decreases x@.len() - i,
            {
                if !crate::text::str_eq(x[i].as_str(), y[i].as_str()) {
                    assert(xv[i as int] != yv[i as int]);
                    assert(xv != yv);
                    return false;
                }
                i = i + 1;
            }
            assert(xv =~= yv);
            true
        },
        (None, None) => true,
        _ => false,
    }
}

/// Folder components joined with ", ".
fn join_components(cs: &Vec<String>) -> (r: String)
    ensures
        r@ == join_comma(crate::files::texts_view(cs@)),
{
    let ghost cv = crate::files::texts_view(cs@);
    let mut out: Vec<char> = Vec::new();
    let mut i: usize = 0;
    while i < cs.len()
        invariant
            i <= cs@.len(),
            cv == crate::files::texts_view(cs@),
            out@ == join_comma(cv.subrange(0, i as int)),
        decreases cs@.len() - i,
    {
        let ghost before = out@;
        if i > 0 {
            out.push(',');
            out.push(' ');
        }
        push_all_chars(&mut out, &chars_of(cs[i].as_str()));
        proof {
            let sub = cv.subrange(0, i + 1);
            assert(sub.drop_last() =~= cv.subrange(0, i as int));
            if i == 0 {
                assert(out@ =~= cv[0]);
            } else {
                assert(out@ =~= before + seq![',', ' '] + cv[i as int]);
            }
        }
        i = i + 1;
    }
    assert(cv.subrange(0, cs@.len() as int) =~= cv);
    string_of(&out)
}

/// The marker text for a file's folder, when one is due.
fn folder_prefix(naming: FolderNaming, folder: &Option<Vec<String>>, previous: &Option<Vec<String>>) -> (r:
    Option<String>)
    ensures
        opt_string(r) == folder_prefix_spec(naming, folder_view(*folder), folder_view(*previous)),
{
    match folder {
        Some(components) => {
            if naming != FolderNaming::Flat && !same_folder(previous, folder) {
                match naming {
                    FolderNaming::Deepest => if components.len() == 0 {
                        Some(String::new())
                    } else {
                        Some(components[components.len() - 1].clone())
                    },
                    _ => Some(join_components(components)),
                }
            } else {
                None
            }
        },
        None => None,
    }
}

/// The text of an optional string.
pub open spec fn opt_string(o: Option<String>) -> Option<Seq<char>> {
    match o {
        Some(s) => Some(s@),
        None => None,
    }
}

/// One step of a batch: the file converted with the marker it is due.
#[verifier::rlimit(40)]
fn convert_one(
    template: &Template,
    file: &CollectedFile,
    content: &Result<Vec<u8>>,
    naming: FolderNaming,
    previous: &Option<Vec<String>>,
    floats: &FloatTexts,
) -> (r: Result<ConvertedPreset>)
    requires
        template@.wf(),
        match content {
            Ok(d) => !convert_breaks(template@, d@),
            Err(_) => true,
        },
    ensures
        match file_outcome(
            template@,
            file@,
            match content {
                Ok(d) => Some(d@),
                Err(_) => None,
            },
            naming,
            folder_view(*previous),
            floats@,
        ) {
            Some(m) => r matches Ok(c) && c@ == m,
            None => r is Err,
        },
        r matches Err(e) ==> match content {
            Ok(d) => convert_error(template@, d@, floats@) == Some(e.0@),
            Err(c) => e.0@ == c.0@,
        },
{
    reveal(file_outcome);
    let fallback = match crate::files::file_stem(&file.path) {
        Some(s) => s,
        None => {
            proof {
                reveal_strlit("Preset");
                assert("Preset"@ =~= default_name());
            }
            "Preset".to_owned()
        },
    };
    let prefix = folder_prefix(naming, &file.subfolder, previous);
    let prefix_ref: Option<&str> = match &prefix {
        Some(p) => Some(p.as_str()),
        None => None,
    };
    match content {
        Ok(data) => convert_with_prefix(template, data.as_slice(), fallback.as_str(), prefix_ref, floats),
        Err(e) => Err(Error(e.0.clone())),
    }
}

/// Unfolds one step of `batch_from`.
proof fn lemma_batch_step(
    t: TemplateModel,
    files: Seq<crate::files::CollectedModel>,
    contents: Seq<Option<Seq<u8>>>,
    naming: FolderNaming,
    fl: FloatTextsModel,
    k: nat,
)
    ensures
        batch_from(t, files, contents, naming, fl, k + 1) == ({
            let (ps, sk, prev) = batch_from(t, files, contents, naming, fl, k);
            match file_outcome(t, files[k as int], contents[k as int], naming, prev, fl) {
                Some(c) => (ps.push(c), sk, files[k as int].subfolder),
                None => (ps, sk.push(k), prev),
            }
        }),
{
}

/// Whether converting the batch would reach an XML merge that cannot walk
/// the template (see `batch_breaks`): the test to make before
/// `convert_files` on a template and files that nothing vouches for.
pub fn batch_would_break(template: &Template, contents: &[Result<Vec<u8>>]) -> (r: bool)
    ensures
        r == batch_breaks(template@, contents_view(contents@)),
{
    let ghost cv = contents_view(contents@);
    let x = match &template.state {
        TemplateState::Xml(x) => x,
        _ => {
            assert(forall|k: int| 0 <= k < cv.len() ==> !#[trigger] breaks_on(template@, cv[k]));
            return false;
        },
    };
    if !crate::xmlmerge::merge_would_break(x.as_str()) {
        assert(forall|k: int| 0 <= k < cv.len() ==> !#[trigger] breaks_on(template@, cv[k]));
        return false;
    }
    let mut k: usize = 0;
    while k < contents.len()
        invariant
            k <= contents@.len(),
            cv == contents_view(contents@),
            template@.state == TemplateStateModel::Xml(x@),
            crate::xmlmerge::merge_breaks(x@),
            forall|m: int| 0 <= m < k ==> !#[trigger] breaks_on(template@, cv[m]),
        decreases contents@.len() - k,
    {
        if let Ok(d) = &contents[k] {
            if let Ok(_) = parse_preset_file(d.as_slice()) {
                assert(breaks_on(template@, cv[k as int]));
                return true;
            }
        }
        assert(!breaks_on(template@, cv[k as int]));
        k = k + 1;
    }
    false
}

/// Convert an ordered batch of collected files, whose bytes (or read
/// errors) `contents` holds in the same order. With markers on, the first
/// preset converted from each subfolder gets "<Folder> folder: " prepended
/// to its name, so the folder change is announced while arrowing through
/// REAPER's flat preset list; every other name is left verbatim. Folder
/// identity is always the full relative path, so two same-named folders
/// under different parents each get announced even in Deepest mode.
pub fn convert_files(
    template: &Template,
    files: &[CollectedFile],
    contents: &[Result<Vec<u8>>],
    naming: FolderNaming,
    floats: &FloatTexts,
) -> (r: BatchOutcome)
    requires
        template@.wf(),
        contents@.len() == files@.len(),
        !batch_breaks(template@, contents_view(contents@)),
    ensures
        (converted_view(r.presets@), skipped_view(r.skipped@)) == batch_spec(
            template@,
            crate::files::files_view(files@),
            contents_view(contents@),
            naming,
            floats@,
        ),
        forall|k: int|
            #![trigger r.skipped@[k]]
            0 <= k < r.skipped@.len() ==> r.skipped@[k].0 < contents@.len() && skip_reason(
                template@,
                contents@[r.skipped@[k].0 as int],
                floats@,
                r.skipped@[k].1.0@,
            ),
{
    let ghost fv = crate::files::files_view(files@);
    let ghost cv = contents_view(contents@);
    let mut presets: Vec<ConvertedPreset> = Vec::new();
    let mut skipped: Vec<(usize, Error)> = Vec::new();
    // The folder last announced (or entered flat). Updated only on success,
    // so if the first file of a folder fails, the marker lands on the next
    // preset that does convert from that folder.
    let mut previous: Option<usize> = None;
    let none_folder: Option<Vec<String>> = None;
    let mut i: usize = 0;
    while i < files.len()
        invariant
            i <= files@.len(),
            contents@.len() == files@.len(),
            template@.wf(),
            fv == crate::files::files_view(files@),
            cv == contents_view(contents@),
            !batch_breaks(template@, cv),
            none_folder is None,
            previous matches Some(j) ==> j < i,
            converted_view(presets@) == batch_from(template@, fv, cv, naming, floats@, i as nat).0,
            skipped_view(skipped@) == batch_from(template@, fv, cv, naming, floats@, i as nat).1,
            forall|k: int|
                #![trigger skipped@[k]]
                0 <= k < skipped@.len() ==> skipped@[k].0 < i && skip_reason(
                    template@,
                    contents@[skipped@[k].0 as int],
                    floats@,
                    skipped@[k].1.0@,
                ),
            batch_from(template@, fv, cv, naming, floats@, i as nat).2 == match previous {
                Some(j) => fv[j as int].subfolder,
                None => None,
            },
        decreases files@.len() - i,
    {
        let prev_folder = match previous {
            Some(j) => &files[j].subfolder,
            None => &none_folder,
        };
        let ghost prev = batch_from(template@, fv, cv, naming, floats@, i as nat).2;
        proof {
            if let Some(j) = previous {
                assert(fv[j as int] == files@[j as int]@);
            }
            assert(fv[i as int] == files@[i as int]@);
            assert(cv[i as int] == contents_view(contents@)[i as int]);
            assert(!breaks_on(template@, cv[i as int]));
            assert(folder_view(*prev_folder) == prev);
        }
        let result = convert_one(template, &files[i], &contents[i], naming, prev_folder, floats);
        let ghost o = file_outcome(template@, fv[i as int], cv[i as int], naming, prev, floats@);
        proof {
            lemma_batch_step(template@, fv, cv, naming, floats@, i as nat);
        }
        let ghost pv = converted_view(presets@);
        let ghost sv = skipped_view(skipped@);
        match result {
            Ok(preset) => {
                let ghost c = preset@;
                previous = Some(i);
                presets.push(preset);
                assert(converted_view(presets@) =~= pv.push(c));
            },
            Err(e) => {
                let ghost before = skipped@;
                skipped.push((i, e));
                assert(skipped_view(skipped@) =~= sv.push(i as nat));
                assert(skip_reason(template@, contents@[i as int], floats@, e.0@)) by {
                    reveal(skip_reason);
                }
                assert forall|k: int|
                    #![trigger skipped@[k]]
                    0 <= k < skipped@.len() implies skipped@[k].0 < i + 1 && skip_reason(
                    template@,
                    contents@[skipped@[k].0 as int],
                    floats@,
                    skipped@[k].1.0@,
                ) by {
                    if k < before.len() {
                        assert(skipped@[k] == before[k]);
                    }
                }
            },
        }
        i = i + 1;
    }
    BatchOutcome { presets, skipped }
}

/// The names and blobs of converted presets.
pub open spec fn converted_pairs(v: Seq<ConvertedPreset>) -> Seq<(Seq<char>, Seq<u8>)> {
    Seq::new(v.len(), |i: int| (v[i].name@, v[i].data@))
}

/// Serialize converted presets into RPL text using the template's library
/// header, so REAPER attaches the presets to the right plugin.
pub fn build_rpl(template: &Template, presets: &[ConvertedPreset]) -> (r: String)
    requires
        forall|i: int| 0 <= i < presets@.len() ==> #[trigger] presets@[i].data@.len() <= usize::MAX / 2,
    ensures
        r@ == write_spec(template@.library_header, converted_pairs(presets@)),
        forall|k: int|
            0 <= k < presets@.len() ==> crate::rpl::encodes_back(#[trigger] presets@[k].data@),
{
    let mut items: Vec<Preset> = Vec::new();
    let mut i: usize = 0;
    while i < presets.len()
        invariant
            i <= presets@.len(),
            presets_view(items@) == converted_pairs(presets@).subrange(0, i as int),
            forall|k: int| 0 <= k < items@.len() ==> #[trigger] items@[k].data@.len() <= usize::MAX / 2,
            forall|k: int| 0 <= k < presets@.len() ==> #[trigger] presets@[k].data@.len() <= usize::MAX / 2,
        decreases presets@.len() - i,
    {
        let p = &presets[i];
        let item = Preset { name: p.name.clone(), data: vstd::slice::slice_to_vec(p.data.as_slice()) };
        let ghost before = presets_view(items@);
        items.push(item);
        assert(presets_view(items@) =~= before.push((p.name@, p.data@)));
        assert(converted_pairs(presets@).subrange(0, i + 1) =~= converted_pairs(presets@).subrange(0, i as int).push((p.name@, p.data@)));
        i = i + 1;
    }
    assert(converted_pairs(presets@).subrange(0, presets@.len() as int) =~= converted_pairs(presets@));
    let r = crate::rpl::write(template.library_header.as_str(), items.as_slice());
    proof {
        assert forall|k: int| 0 <= k < presets@.len() implies crate::rpl::encodes_back(
            #[trigger] presets@[k].data@,
        ) by {
            assert(presets_view(items@)[k].1 == items@[k].data@);
            assert(converted_pairs(presets@)[k].1 == presets@[k].data@);
        }
    }
    r
}


// ---------------------------------------------------------------------------
// What the float table must cover
// ---------------------------------------------------------------------------

/// A table with no entries.
pub open spec fn no_floats() -> FloatTextsModel {
    FloatTextsModel { shown: Seq::empty(), parsed: Seq::empty() }
}

/// The doubles among a property list's values, in order.
pub open spec fn props_doubles(ps: Seq<(Seq<char>, crate::valuetree::ValueModel)>) -> Seq<u64>
    decreases ps.len(),
{
    if ps.len() == 0 {
        Seq::empty()
    } else {
        let rest = props_doubles(ps.subrange(0, ps.len() - 1));
        match ps[ps.len() - 1].1 {
            crate::valuetree::ValueModel::Double(b) => rest.push(b),
            _ => rest,
        }
    }
}

/// The texts of a property list's values other than doubles, in order.
pub open spec fn props_texts(ps: Seq<(Seq<char>, crate::valuetree::ValueModel)>) -> Seq<Seq<char>>
    decreases ps.len(),
{
    if ps.len() == 0 {
        Seq::empty()
    } else {
        let rest = props_texts(ps.subrange(0, ps.len() - 1));
        let v = ps[ps.len() - 1].1;
        if v is Double {
            rest
        } else {
            rest.push(crate::valuetree::value_text(v, no_floats()))
        }
    }
}

/// The doubles a tree holds, its own first, then its children's in order.
pub open spec fn node_doubles(n: NodeModel) -> Seq<u64>
    decreases n, 1nat,
{
    props_doubles(n.props) + children_doubles(n.children)
}

/// The doubles a list of trees holds.
pub open spec fn children_doubles(cs: Seq<NodeModel>) -> Seq<u64>
    decreases cs, 0nat,
{
    if cs.len() == 0 {
        Seq::empty()
    } else {
        children_doubles(cs.subrange(0, cs.len() - 1)) + node_doubles(cs[cs.len() - 1])
    }
}

/// The texts of the values other than doubles a tree holds.
pub open spec fn node_texts(n: NodeModel) -> Seq<Seq<char>>
    decreases n, 1nat,
{
    props_texts(n.props) + children_texts(n.children)
}

/// The texts of the values other than doubles a list of trees holds.
pub open spec fn children_texts(cs: Seq<NodeModel>) -> Seq<Seq<char>>
    decreases cs, 0nat,
{
    if cs.len() == 0 {
        Seq::empty()
    } else {
        children_texts(cs.subrange(0, cs.len() - 1)) + node_texts(cs[cs.len() - 1])
    }
}

/// The doubles whose decimal text converting a preset file may need, and
/// the texts it may need read as doubles: the doubles of a tree template's
/// state and of the preset tree, and the texts of the preset tree's other
/// values.
pub open spec fn queries_spec(t: TemplateModel, file: Seq<u8>) -> (Seq<u64>, Seq<Seq<char>>) {
    let own = match t.state {
        TemplateStateModel::Tree(n) => node_doubles(n),
        _ => Seq::empty(),
    };
    if t.state is Ubjson {
        (Seq::empty(), Seq::empty())
    } else {
        match preset_file_spec(file) {
            Some(vt) => (own + node_doubles(vt), node_texts(vt)),
            None => (own, Seq::empty()),
        }
    }
}

/// Append a tree's doubles and other values' texts.
fn gather_queries(n: &Node, bits: &mut Vec<u64>, texts: &mut Vec<String>)
    ensures
        final(bits)@ == old(bits)@ + node_doubles(n@),
        strings_view(final(texts)@) == strings_view(old(texts)@) + node_texts(n@),
    decreases n,
{
    let empty = FloatTexts::new();
    assert(empty@ == no_floats()) by {
        assert(empty@.shown =~= Seq::<(u64, Seq<char>)>::empty());
        assert(empty@.parsed =~= Seq::<(Seq<char>, u64)>::empty());
    }
    let ghost b0 = bits@;
    let ghost t0 = strings_view(texts@);
    let ghost pv = n@.props;
    let mut i: usize = 0;
    assert(pv.subrange(0, 0) =~= Seq::<(Seq<char>, crate::valuetree::ValueModel)>::empty());
    while i < n.props.len()
        invariant
            i <= n.props@.len(),
            pv == n@.props,
            pv.len() == n.props@.len(),
            empty@ == no_floats(),
            bits@ == b0 + props_doubles(pv.subrange(0, i as int)),
            strings_view(texts@) == t0 + props_texts(pv.subrange(0, i as int)),
        decreases n.props@.len() - i,
    {
        let ghost sub = pv.subrange(0, i + 1);
        assert(sub.subrange(0, i as int) =~= pv.subrange(0, i as int));
        assert(sub[i as int] == pv[i as int]);
        assert(pv[i as int].1 == n.props@[i as int].1@);
        let ghost tb = strings_view(texts@);
        match &n.props[i].1 {
            Value::Double(b) => {
                bits.push(*b);
            },
            v => {
                let t = v.as_text(&empty);
                texts.push(t);
                assert(strings_view(texts@) =~= tb.push(t@));
            },
        }
        i = i + 1;
    }
    assert(pv.subrange(0, i as int) =~= pv);
    let ghost b1 = bits@;
    let ghost t1 = strings_view(texts@);
    proof {
        crate::valuetree::lemma_children_view(n);
    }
    let ghost cv = n@.children;
    let mut j: usize = 0;
    assert(cv.subrange(0, 0) =~= Seq::<NodeModel>::empty());
    while j < n.children.len()
        invariant
            j <= n.children@.len(),
            cv == n@.children,
            cv == crate::valuetree::nodes_view(n.children@),
            bits@ == b1 + children_doubles(cv.subrange(0, j as int)),
            strings_view(texts@) == t1 + children_texts(cv.subrange(0, j as int)),
        decreases n.children@.len() - j,
    {
        let ghost sub = cv.subrange(0, j + 1);
        assert(sub.subrange(0, j as int) =~= cv.subrange(0, j as int));
        assert(sub[j as int] == n.children@[j as int]@);
        gather_queries(&n.children[j], bits, texts);
        j = j + 1;
    }
    assert(cv.subrange(0, j as int) =~= cv);
}

/// The doubles whose decimal text converting `preset_file` against the
/// template may need, and the texts it may need read as doubles; the
/// caller fills a `FloatTexts` table with their answers.
pub fn float_queries(template: &Template, preset_file: &[u8]) -> (r: (Vec<u64>, Vec<String>))
    ensures
        (r.0@, strings_view(r.1@)) == queries_spec(template@, preset_file@),
{
    let mut bits: Vec<u64> = Vec::new();
    let mut texts: Vec<String> = Vec::new();
    assert(strings_view(texts@) =~= Seq::<Seq<char>>::empty());
    match &template.state {
        TemplateState::Ubjson { .. } => {
            return (bits, texts);
        },
        TemplateState::Tree(n) => {
            let mut unused: Vec<String> = Vec::new();
            gather_queries(n, &mut bits, &mut unused);
        },
        TemplateState::Xml(_) => {},
    }
    assert(bits@ =~= match template@.state {
        TemplateStateModel::Tree(n) => node_doubles(n),
        _ => Seq::empty(),
    });
    match parse_preset_file(preset_file) {
        Ok(vt) => {
            gather_queries(&vt, &mut bits, &mut texts);
        },
        Err(_) => {},
    }
    (bits, texts)
}


/// A library built from converted presets reads back as the template's
/// header and those presets, in order, when each name is on one line and
/// lacks one of the quote characters, and each preset's data is written as
/// base64 that decodes back, as `build_rpl` ensures.
pub proof fn lemma_built_library_reads_back(text: Seq<char>, ps: Seq<(Seq<char>, Seq<u8>)>)
    requires
        load_spec(text) is Some,
        forall|k: int| 0 <= k < ps.len() ==> crate::rpl::encodes_back(#[trigger] ps[k].1),
        forall|k: int| 0 <= k < ps.len() ==> crate::edit::name_writable(#[trigger] ps[k].0),
    ensures
        ({
            let h = load_spec(text).unwrap().library_header;
            crate::rpl::parse_spec(write_spec(h, ps)) == Some((h, ps))
        }),
{
    let h = load_spec(text).unwrap().library_header;
    crate::rpl::lemma_parsed_header_ok(text);
    assert forall|k: int| 0 <= k < ps.len() implies crate::rpl::preset_ok(#[trigger] ps[k]) by {
        assert(crate::edit::name_writable(ps[k].0));
    }
    crate::rpl::lemma_write_then_parse(h, ps);
}

} // verus!
