//! REAPER's binary wrapper around a VST3 plugin state, as found inside RPL
//! preset blobs and RPP project files.
//!
//! Layout (little-endian throughout):
//!   4  first bytes of the plugin id
//!   4  magic 0xFEED5EEE (VST3)
//!   4  input channel count, then 8 bytes of routing mask per input
//!   4  output channel count, then 8 bytes of routing mask per output
//!   4  payload length
//!   4  constant 1
//!   payload:
//!     4  program field (0x0000FFFF)
//!     4  component state length
//!     4  constant 1
//!     component state: for JUCE plugins "VC2!" + u32 XML length + XML text
//!                      + a constant trailer (JUCEPrivateData block)
//!     4  controller state length (0 in every observed preset) + data
//!   footer: padding, preset name, null, padding
//!
//! Only the three length fields and the XML/name vary between presets of the
//! same plugin, so everything else is carried over verbatim from a template
//! preset that the user saved through REAPER once.

use vstd::prelude::*;
use vstd::utf8::*;
use crate::text::{
    byte_range, bytes_of, chars_of, find_bytes, first_occurrence, message_with, occurs_at,
    push_all_bytes,
};
use crate::ubjson::{be_bytes, be_value, parse_spec, push_be, read_be};
use crate::valuetree::{
    le_bytes, le_value, lemma_le_value_bound, lemma_pow256_values, node_at, push_le, read_le,
};
use crate::{err, Error, Result};

verus! {

/// The magic number of REAPER's VST3 state wrapper.
pub const REAPER_VST3_MAGIC: u32 = 0xFEED_5EEE;

/// Channel counts above this are treated as corrupt data.
pub const MAX_CHANNELS: usize = 256;

/// How the plugin serializes its state inside the component chunk.
pub enum StateKind {
    /// XML text (JUCE's "VC2!" form, possibly under further wrappers).
    Xml,
    /// A raw JUCE binary ValueTree (older JUCE plugins).
    Tree,
    /// A UBJSON object (Universal Audio's UADx plugins).
    Ubjson,
}

/// A template preset blob taken apart around its plugin state. `parse`
/// fills every field; `rebuild` puts them back together.
pub struct Blob {
    head: Vec<u8>,
    post_len: Vec<u8>,
    prog: Vec<u8>,
    mid: Vec<u8>,
    /// Wrapper bytes between the component start and the state: empty for
    /// bare ValueTree states, "VC2!"+length for plain JUCE XML, and up to
    /// VstW + CcnK/FBCh fxBank headers for VST2-compatibility states.
    comp_head: Vec<u8>,
    /// Offsets within comp_head of u32 length fields that must shift when
    /// the state size changes, in each byte order.
    be_len_fields: Vec<usize>,
    le_len_fields: Vec<usize>,
    /// The plugin state: XML text or binary ValueTree bytes, per `kind`.
    pub state: Vec<u8>,
    pub kind: StateKind,
    comp_trailer: Vec<u8>,
    payload_tail: Vec<u8>,
    footer_prefix: Vec<u8>,
    footer_suffix: Vec<u8>,
    comp_len_field: u32,
    payload_len_field: u32,
}

/// The plain content of a `Blob`.
pub struct BlobModel {
    pub head: Seq<u8>,
    pub post_len: Seq<u8>,
    pub prog: Seq<u8>,
    pub mid: Seq<u8>,
    pub comp_head: Seq<u8>,
    pub be_len_fields: Seq<usize>,
    pub le_len_fields: Seq<usize>,
    pub state: Seq<u8>,
    pub kind: StateKind,
    pub comp_trailer: Seq<u8>,
    pub payload_tail: Seq<u8>,
    pub footer_prefix: Seq<u8>,
    pub footer_suffix: Seq<u8>,
    pub comp_len_field: u32,
    pub payload_len_field: u32,
}

impl View for Blob {
    type V = BlobModel;

    closed spec fn view(&self) -> BlobModel {
        BlobModel {
            head: self.head@,
            post_len: self.post_len@,
            prog: self.prog@,
            mid: self.mid@,
            comp_head: self.comp_head@,
            be_len_fields: self.be_len_fields@,
            le_len_fields: self.le_len_fields@,
            state: self.state@,
            kind: self.kind,
            comp_trailer: self.comp_trailer@,
            payload_tail: self.payload_tail@,
            footer_prefix: self.footer_prefix@,
            footer_suffix: self.footer_suffix@,
            comp_len_field: self.comp_len_field,
            payload_len_field: self.payload_len_field,
        }
    }
}

impl BlobModel {
    /// The fixed fields hold four bytes each, and every recorded length
    /// field lies inside the component head.
    pub open spec fn wf(self) -> bool {
        &&& self.post_len.len() == 4
        &&& self.prog.len() == 4
        &&& self.mid.len() == 4
        &&& forall|i: int|
            0 <= i < self.be_len_fields.len() ==> #[trigger] self.be_len_fields[i] + 4
                <= self.comp_head.len()
        &&& forall|i: int|
            0 <= i < self.le_len_fields.len() ==> #[trigger] self.le_len_fields[i] + 4
                <= self.comp_head.len()
    }
}

// ---------------------------------------------------------------------------
// The layout, as spec functions
// ---------------------------------------------------------------------------

/// The little-endian u32 at `off`.
pub open spec fn u32_at(d: Seq<u8>, off: int) -> Option<nat> {
    if 0 <= off && off + 4 <= d.len() {
        Some(le_value(d.subrange(off, off + 4)))
    } else {
        None
    }
}

/// "VstW": Steinberg's VST2-compatibility header.
pub open spec fn tag_vstw() -> Seq<u8> {
    seq![0x56u8, 0x73u8, 0x74u8, 0x57u8]
}

/// "CcnK": a VST2 fx chunk.
pub open spec fn tag_ccnk() -> Seq<u8> {
    seq![0x43u8, 0x63u8, 0x6eu8, 0x4bu8]
}

/// "FBCh": an fxBank chunk.
pub open spec fn tag_fbch() -> Seq<u8> {
    seq![0x46u8, 0x42u8, 0x43u8, 0x68u8]
}

/// "FPCh": an fxProgram chunk.
pub open spec fn tag_fpch() -> Seq<u8> {
    seq![0x46u8, 0x50u8, 0x43u8, 0x68u8]
}

/// "VC2!": JUCE's XML state marker.
pub open spec fn tag_vc2() -> Seq<u8> {
    seq![0x56u8, 0x43u8, 0x32u8, 0x21u8]
}

/// Where the channel routing ends, that is where the payload length field
/// sits: after the magic and the two channel lists.
pub open spec fn routing_end(data: Seq<u8>) -> Option<int> {
    match (u32_at(data, 4), u32_at(data, 8)) {
        (Some(magic), Some(num_in)) => if magic != REAPER_VST3_MAGIC || num_in > MAX_CHANNELS {
            None
        } else {
            let o1: int = 12 + (num_in * 8) as int;
            match u32_at(data, o1) {
                Some(num_out) => if num_out > MAX_CHANNELS {
                    None
                } else {
                    Some(o1 + 4 + (num_out * 8) as int)
                },
                None => None,
            }
        },
        _ => None,
    }
}

/// The routing end, the payload length and the component length, when the
/// payload and the component lie inside the data.
#[verifier::opaque]
pub open spec fn frame_of(data: Seq<u8>) -> Option<(int, nat, nat)> {
    match routing_end(data) {
        None => None,
        Some(off) => match u32_at(data, off) {
            None => None,
            Some(plf) => {
                let ps = off + 8;
                if ps > data.len() || ps + plf > data.len() || plf < 16 {
                    None
                } else {
                    match u32_at(data, ps + 4) {
                        None => None,
                        Some(clf) => if 12 + clf > plf {
                            None
                        } else {
                            Some((off, plf, clf))
                        },
                    }
                }
            },
        },
    }
}

/// Where the state wrappers of a component end, and the big-endian length
/// fields they hold.
#[verifier::opaque]
pub open spec fn wrapper_of(c: Seq<u8>) -> Option<(int, Seq<usize>)> {
    if occurs_at(c, tag_vstw(), 0) {
        if occurs_at(c, tag_ccnk(), 16) {
            if c.len() < 28 {
                None
            } else if occurs_at(c, tag_fbch(), 24) {
                Some((176, seq![20usize, 172usize]))
            } else if occurs_at(c, tag_fpch(), 24) {
                Some((76, seq![20usize, 72usize]))
            } else {
                None
            }
        } else {
            Some((16, Seq::empty()))
        }
    } else {
        Some((0, Seq::empty()))
    }
}

/// The kind, start and length of the plugin state in a component whose
/// wrappers end at `p`, and the little-endian length fields before it.
#[verifier::opaque]
pub open spec fn state_of(c: Seq<u8>, p: int) -> Option<(StateKind, int, int, Seq<usize>)> {
    if p < 0 || p > c.len() {
        None
    } else {
        let inner = c.subrange(p, c.len() as int);
        if occurs_at(inner, tag_vc2(), 0) {
            match u32_at(inner, 4) {
                None => None,
                Some(xl) => if inner.len() < 8 + xl || !(inner.len() > 8 && inner[8] == 0x3c) {
                    None
                } else {
                    Some((StateKind::Xml, p + 8, xl as int, seq![(p + 4) as usize]))
                },
            }
        } else if inner.len() > 0 && inner[0] == 0x7b {
            match parse_spec(inner) {
                Some((_, n)) => if n >= 8 && n <= inner.len() {
                    Some((StateKind::Ubjson, p, n, Seq::empty()))
                } else {
                    None
                },
                None => None,
            }
        } else {
            match node_at(inner, 0, 0) {
                Some((node, n)) => if n >= 32 && n <= inner.len() && (node.props.len() > 0
                    || node.children.len() > 0) {
                    Some((StateKind::Tree, p, n, Seq::empty()))
                } else {
                    None
                },
                None => None,
            }
        }
    }
}

/// The first index at or after `i` of a byte at or above 0x20.
pub open spec fn first_printable(s: Seq<u8>, i: int) -> Option<int>
    decreases s.len() - i,
{
    if i < 0 || i >= s.len() {
        None
    } else if s[i] >= 0x20 {
        Some(i)
    } else {
        first_printable(s, i + 1)
    }
}

/// The first index at or after `i` of a byte below 0x20.
pub open spec fn first_control(s: Seq<u8>, i: int) -> Option<int>
    decreases s.len() - i,
{
    if i < 0 || i >= s.len() {
        None
    } else if s[i] < 0x20 {
        Some(i)
    } else {
        first_control(s, i + 1)
    }
}

/// The embedded preset name located structurally: the first run of
/// non-control bytes in the footer, which must be terminated by a null.
/// Gives its offset and length.
pub open spec fn footer_slot(f: Seq<u8>) -> Option<(int, int)> {
    match first_printable(f, 0) {
        None => None,
        Some(start) => match first_control(f, start) {
            None => None,
            Some(end) => if f[end] == 0 {
                Some((start, end - start))
            } else {
                None
            },
        },
    }
}

/// Where the preset name sits in the footer, and its length: at the first
/// occurrence of the name and its null when there is one, else at the
/// structural slot.
#[verifier::opaque]
pub open spec fn name_slot(f: Seq<u8>, pattern: Seq<u8>) -> Option<(int, int)> {
    match first_occurrence(f, pattern, 0) {
        Some(pos) => Some((pos, pattern.len() - 1)),
        None => footer_slot(f),
    }
}

/// The footer of a blob whose frame is `(off, plf, _)`.
pub open spec fn footer_of(data: Seq<u8>, off: int, plf: nat) -> Seq<u8> {
    data.subrange(off + 8 + plf, data.len() as int)
}

/// A template blob taken apart, or None when it is not one.
pub open spec fn blob_spec(data: Seq<u8>, name: Seq<char>) -> Option<BlobModel> {
    match frame_of(data) {
        None => None,
        Some((off, plf, clf)) => {
            let ps = off + 8;
            let payload = data.subrange(ps, ps + plf);
            let c = payload.subrange(12, 12 + clf as int);
            match wrapper_of(c) {
                None => None,
                Some((p, be)) => match state_of(c, p) {
                    None => None,
                    Some((kind, start, len, le)) => {
                        let footer = footer_of(data, off, plf);
                        match name_slot(footer, encode_utf8(name) + seq![0u8]) {
                            None => None,
                            Some((at, nl)) => Some(
                                BlobModel {
                                    head: data.subrange(0, off),
                                    post_len: data.subrange(off + 4, off + 8),
                                    prog: payload.subrange(0, 4),
                                    mid: payload.subrange(8, 12),
                                    comp_head: c.subrange(0, start),
                                    be_len_fields: be,
                                    le_len_fields: le,
                                    state: c.subrange(start, start + len),
                                    kind,
                                    comp_trailer: c.subrange(start + len, c.len() as int),
                                    payload_tail: payload.subrange(12 + clf as int, plf as int),
                                    footer_prefix: footer.subrange(0, at),
                                    footer_suffix: footer.subrange(
                                        at + nl + 1,
                                        footer.len() as int,
                                    ),
                                    comp_len_field: clf as u32,
                                    payload_len_field: plf as u32,
                                },
                            ),
                        }
                    },
                },
            }
        },
    }
}

// ---------------------------------------------------------------------------
// Taking a blob apart
// ---------------------------------------------------------------------------

/// The little-endian u32 at `off`.
fn read_u32(d: &[u8], off: usize) -> (r: Option<u32>)
    ensures
        r matches Some(v) ==> u32_at(d@, off as int) == Some(v as nat),
        r is None ==> u32_at(d@, off as int) is None,
{
    if off > d.len() || 4 > d.len() - off {
        return None;
    }
    let v = read_le(d, off, 4);
    proof {
        lemma_le_value_bound(d@.subrange(off as int, off + 4));
        lemma_pow256_values();
    }
    Some(v as u32)
}

/// Whether the four given bytes occur in `d` at `at`.
fn tag_at(d: &[u8], at: usize, a: u8, b: u8, c: u8, e: u8) -> (r: bool)
    ensures
        r == occurs_at(d@, seq![a, b, c, e], at as int),
{
    if at > d.len() || 4 > d.len() - at {
        return false;
    }
    let r = d[at] == a && d[at + 1] == b && d[at + 2] == c && d[at + 3] == e;
    if r {
        assert(d@.subrange(at as int, at + 4) =~= seq![a, b, c, e]);
    } else {
        assert(!(d@.subrange(at as int, at + 4) =~= seq![a, b, c, e]));
    }
    r
}

// ---------------------------------------------------------------------------
// Why a blob is refused
// ---------------------------------------------------------------------------

/// "template preset blob is truncated".
pub open spec fn msg_truncated() -> Seq<char> {
    "template preset blob is truncated"@
}

/// The message a blob whose frame cannot be read is refused with, checking
/// in order: the magic, the channel counts, the payload and the component.
/// Empty when the frame reads.
pub open spec fn frame_error(data: Seq<u8>) -> Seq<char> {
    match u32_at(data, 4) {
        None => msg_truncated(),
        Some(magic) => if magic != REAPER_VST3_MAGIC {
            "the template preset is not in REAPER's VST3 format; save the template from the VST3 version of the plugin"@
        } else {
            match u32_at(data, 8) {
                None => msg_truncated(),
                Some(num_in) => if num_in > MAX_CHANNELS {
                    "implausible input channel count in template preset"@
                } else {
                    let o1: int = 12 + (num_in * 8) as int;
                    match u32_at(data, o1) {
                        None => msg_truncated(),
                        Some(num_out) => if num_out > MAX_CHANNELS {
                            "implausible output channel count in template preset"@
                        } else {
                            let off = o1 + 4 + (num_out * 8) as int;
                            match u32_at(data, off) {
                                None => msg_truncated(),
                                Some(plf) => if data.len() - off < 8 {
                                    msg_truncated()
                                } else if plf > data.len() - (off + 8) {
                                    "template preset payload is truncated"@
                                } else if plf < 16 {
                                    "template preset payload is too short"@
                                } else {
                                    match u32_at(data, off + 12) {
                                        None => msg_truncated(),
                                        Some(clf) => if clf > plf - 12 {
                                            "template component state is truncated"@
                                        } else {
                                            Seq::empty()
                                        },
                                    }
                                },
                            }
                        },
                    }
                },
            }
        },
    }
}

/// The message a component whose wrappers cannot be read is refused with.
pub open spec fn wrapper_error(c: Seq<u8>) -> Seq<char> {
    if c.len() < 28 {
        "truncated fx chunk in template state"@
    } else {
        "unrecognized fx chunk format in template state"@
    }
}

/// The message a component whose state cannot be read is refused with.
pub open spec fn state_error(c: Seq<u8>, p: int) -> Seq<char> {
    if p < 0 || p > c.len() {
        "template component state is truncated"@
    } else {
        let inner = c.subrange(p, c.len() as int);
        if occurs_at(inner, tag_vc2(), 0) {
            if u32_at(inner, 4) is None {
                msg_truncated()
            } else {
                "template plugin state does not look like XML"@
            }
        } else if inner.len() > 0 && inner[0] == 0x7b {
            "the plugin's state opens like UBJSON but could not be parsed; this plugin needs its own converter support"@
        } else {
            "the plugin's state format is not recognized (neither JUCE XML nor a JUCE ValueTree); this plugin needs its own converter support"@
        }
    }
}

/// The message a blob is refused with: the first part that cannot be read
/// decides it, and a footer without the name refers to the name expected.
pub open spec fn blob_error(data: Seq<u8>, name: Seq<char>) -> Seq<char> {
    match frame_of(data) {
        None => frame_error(data),
        Some((off, plf, clf)) => {
            let ps = off + 8;
            let c = data.subrange(ps, ps + plf).subrange(12, 12 + clf as int);
            match wrapper_of(c) {
                None => wrapper_error(c),
                Some((p, be)) => if state_of(c, p) is None {
                    state_error(c, p)
                } else {
                    "could not find a preset name in the template footer (expected '"@ + name
                        + "')"@
                },
            }
        },
    }
}

/// The structural name slot of a footer.
fn footer_name_slot(footer: &[u8]) -> (r: Option<(usize, usize)>)
    ensures
        r matches Some((a, n)) ==> footer_slot(footer@) == Some((a as int, n as int)),
        r is None ==> footer_slot(footer@) is None,
{
    let mut i: usize = 0;
    while i < footer.len() && footer[i] < 0x20
        invariant
            i <= footer@.len(),
            first_printable(footer@, 0) == first_printable(footer@, i as int),
        decreases footer@.len() - i,
    {
        i = i + 1;
    }
    if i >= footer.len() {
        return None;
    }
    let start = i;
    let mut j: usize = start;
    while j < footer.len() && footer[j] >= 0x20
        invariant
            start <= j <= footer@.len(),
            first_control(footer@, start as int) == first_control(footer@, j as int),
        decreases footer@.len() - j,
    {
        j = j + 1;
    }
    if j >= footer.len() {
        return None;
    }
    if footer[j] == 0 {
        Some((start, j - start))
    } else {
        None
    }
}

/// The routing end, the payload length field and the component length
/// field.
fn read_frame(data: &[u8]) -> (r: Result<(usize, u32, u32)>)
    ensures
        r is Ok <==> frame_of(data@) is Some,
        r matches Ok((off, plf, clf)) ==> frame_of(data@) == Some(
            (off as int, plf as nat, clf as nat),
        ),
        r matches Err(e) ==> e.0@ == frame_error(data@),
{
    reveal(frame_of);
    let magic = match read_u32(data, 4) {
        Some(v) => v,
        None => {
            return err("template preset blob is truncated");
        },
    };
    if magic != REAPER_VST3_MAGIC {
        return err(
            "the template preset is not in REAPER's VST3 format; save the template from the VST3 version of the plugin",
        );
    }
    let num_in = match read_u32(data, 8) {
        Some(v) => v as usize,
        None => {
            return err("template preset blob is truncated");
        },
    };
    if num_in > MAX_CHANNELS {
        return err("implausible input channel count in template preset");
    }
    let o1 = 12 + num_in * 8;
    let num_out = match read_u32(data, o1) {
        Some(v) => v as usize,
        None => {
            return err("template preset blob is truncated");
        },
    };
    if num_out > MAX_CHANNELS {
        return err("implausible output channel count in template preset");
    }
    let off = o1 + 4 + num_out * 8;
    assert(routing_end(data@) == Some(off as int));
    let payload_len_field = match read_u32(data, off) {
        Some(v) => v,
        None => {
            return err("template preset blob is truncated");
        },
    };
    if data.len() - off < 8 {
        return err("template preset blob is truncated");
    }
    let ps = off + 8;
    if payload_len_field as usize > data.len() - ps {
        return err("template preset payload is truncated");
    }
    if payload_len_field < 16 {
        return err("template preset payload is too short");
    }
    let comp_len_field = match read_u32(data, ps + 4) {
        Some(v) => v,
        None => {
            return err("template preset blob is truncated");
        },
    };
    if comp_len_field as usize > payload_len_field as usize - 12 {
        return err("template component state is truncated");
    }
    Ok((off, payload_len_field, comp_len_field))
}

/// Where the wrappers around the state end, and the big-endian length
/// fields among them.
fn read_wrapper(component: &[u8]) -> (r: Result<(usize, Vec<usize>)>)
    ensures
        r is Ok <==> wrapper_of(component@) is Some,
        r matches Ok((p, be)) ==> wrapper_of(component@) == Some((p as int, be@)),
        r matches Err(e) ==> e.0@ == wrapper_error(component@),
{
    reveal(wrapper_of);
    let mut p: usize = 0;
    let mut be_len_fields: Vec<usize> = Vec::new();
    // Steinberg VST2-compatibility header: 'VstW' + BE size + BE
    // version + BE bypass; none of the fields depend on state size.
    if tag_at(component, 0, 0x56, 0x73, 0x74, 0x57) {
        p = 16;
        // Then usually a VST2 fxBank/fxProgram chunk structure.
        if tag_at(component, 16, 0x43, 0x63, 0x6e, 0x4b) {
            be_len_fields.push(20);
            if component.len() < 28 {
                return err("truncated fx chunk in template state");
            }
            // Fixed-size headers per format, ending with a BE chunkSize
            // just before the wrapped data. FBCh: version, fxID,
            // fxVersion, numPrograms, future[128]. FPCh: version, fxID,
            // fxVersion, numParams, prgName[28].
            let header_len: usize = if tag_at(component, 24, 0x46, 0x42, 0x43, 0x68) {
                16 + 128
            } else if tag_at(component, 24, 0x46, 0x50, 0x43, 0x68) {
                16 + 28
            } else {
                return err("unrecognized fx chunk format in template state");
            };
            let size_at = 16 + 12 + header_len;
            be_len_fields.push(size_at);
            p = size_at + 4;
        }
    }
    assert(be_len_fields@ =~= wrapper_of(component@).unwrap().1);
    Ok((p, be_len_fields))
}

/// The kind, start and length of the state behind the wrappers ending at
/// `p`, and the little-endian length fields before it.
fn read_state(component: &[u8], p: usize) -> (r: Result<(StateKind, usize, usize, Vec<usize>)>)
    ensures
        r is Ok <==> state_of(component@, p as int) is Some,
        r matches Ok((kind, start, len, le)) ==> state_of(component@, p as int) == Some(
            (kind, start as int, len as int, le@),
        ),
        r matches Ok((kind, start, len, le)) ==> start + len <= component@.len(),
        r matches Err(e) ==> e.0@ == state_error(component@, p as int),
{
    reveal(state_of);
    if p > component.len() {
        return err("template component state is truncated");
    }
    let inner = byte_range(component, p, component.len());
    let mut le_len_fields: Vec<usize> = Vec::new();
    if tag_at(&inner, 0, 0x56, 0x43, 0x32, 0x21) {
        let xml_len = match read_u32(&inner, 4) {
            Some(v) => v as usize,
            None => {
                return err("template preset blob is truncated");
            },
        };
        le_len_fields.push(p + 4);
        if xml_len > inner.len() - 8 || !(inner.len() > 8 && inner[8] == 0x3c) {
            return err("template plugin state does not look like XML");
        }
        assert(le_len_fields@ =~= seq![(p + 4) as usize]);
        Ok((StateKind::Xml, p + 8, xml_len, le_len_fields))
    } else if inner.len() > 0 && inner[0] == 0x7b {
        // Universal Audio's UADx plugins store a UBJSON object here.
        match crate::ubjson::parse(&inner) {
            Ok((_, len)) => {
                if len < 8 {
                    return err(
                        "the plugin's state opens like UBJSON but could not be parsed; this plugin needs its own converter support",
                    );
                }
                assert(le_len_fields@ =~= Seq::<usize>::empty());
                Ok((StateKind::Ubjson, p, len, le_len_fields))
            },
            Err(_) => {
                err(
                    "the plugin's state opens like UBJSON but could not be parsed; this plugin needs its own converter support",
                )
            },
        }
    } else {
        match crate::valuetree::parse_with_len(&inner) {
            // Guard against garbage that happens to scan as a tiny empty
            // tree, which would silently match nothing later.
            Ok((node, len)) => {
                if len < 32 || (node.props.len() == 0 && node.children.len() == 0) {
                    return err(
                        "the plugin's state format is not recognized (neither JUCE XML nor a JUCE ValueTree); this plugin needs its own converter support",
                    );
                }
                assert(le_len_fields@ =~= Seq::<usize>::empty());
                Ok((StateKind::Tree, p, len, le_len_fields))
            },
            Err(_) => {
                err(
                    "the plugin's state format is not recognized (neither JUCE XML nor a JUCE ValueTree); this plugin needs its own converter support",
                )
            },
        }
    }
}

/// Where the preset name sits in the footer, and its length in bytes.
fn find_name(footer: &[u8], preset_name: &str) -> (r: Result<(usize, usize)>)
    ensures
        r is Ok <==> name_slot(footer@, encode_utf8(preset_name@) + seq![0u8]) is Some,
        r matches Ok((at, n)) ==> name_slot(footer@, encode_utf8(preset_name@) + seq![0u8])
            == Some((at as int, n as int)) && at + n < footer@.len(),
        r matches Err(e) ==> e.0@ == "could not find a preset name in the template footer (expected '"@
            + preset_name@ + "')"@,
{
    reveal(name_slot);
    let mut name_pattern = bytes_of(preset_name);
    name_pattern.push(0);
    assert(name_pattern@ =~= encode_utf8(preset_name@) + seq![0u8]);
    proof {
        crate::text::lemma_first_occurrence(footer@, name_pattern@, 0);
    }
    // Prefer an exact match on the RPL entry name; fall back to locating
    // the name slot structurally, which copes with files whose entry name
    // and embedded name diverge.
    match find_bytes(footer, &name_pattern, 0) {
        Some(pos) => Ok((pos, name_pattern.len() - 1)),
        None => match footer_name_slot(footer) {
            Some(slot) => {
                proof {
                    lemma_slot_in_footer(footer@);
                }
                Ok(slot)
            },
            None => {
                let shown = chars_of(preset_name);
                Err(
                    Error(
                        message_with(
                            "could not find a preset name in the template footer (expected '",
                            &shown,
                            "')",
                        ),
                    ),
                )
            },
        },
    }
}

impl Blob {
    /// The plugin state.
    pub fn state_bytes(&self) -> (r: &[u8])
        ensures
            r@ == self@.state,
    {
        self.state.as_slice()
    }

    /// How the plugin state is serialized.
    pub fn state_kind(&self) -> (r: &StateKind)
        ensures
            *r == self@.kind,
    {
        &self.kind
    }

    /// Dissect a template preset blob. `preset_name` is the name the preset
    /// was saved under, used to locate the name inside the footer.
    #[verifier::rlimit(40)]
    pub fn parse(data: &[u8], preset_name: &str) -> (r: Result<Blob>)
        ensures
            r is Ok <==> blob_spec(data@, preset_name@) is Some,
            r matches Ok(b) ==> blob_spec(data@, preset_name@) == Some(b@) && b@.wf(),
            r matches Err(e) ==> e.0@ == blob_error(data@, preset_name@),
    {
        let (off, payload_len_field, comp_len_field) = match read_frame(data) {
            Ok(frame) => frame,
            Err(e) => {
                return Err(e);
            },
        };
        proof {
            lemma_frame_bounds(
                data@,
                off as int,
                payload_len_field as nat,
                comp_len_field as nat,
            );
            assert(off + 8 + payload_len_field <= data@.len());
            assert(data@.len() == data.len());
        }
        let ps = off + 8;
        let pe = ps + payload_len_field as usize;
        let cs = ps + 12;
        let ce = cs + comp_len_field as usize;
        let head = byte_range(data, 0, off);
        let post_len = byte_range(data, off + 4, ps);
        let prog = byte_range(data, ps, ps + 4);
        let mid = byte_range(data, ps + 8, cs);
        let component = byte_range(data, cs, ce);
        let payload_tail = byte_range(data, ce, pe);
        let ghost payload = data@.subrange(ps as int, pe as int);
        proof {
            assert(payload.subrange(12, 12 + comp_len_field as int) =~= component@);
            assert(payload.subrange(0, 4) =~= prog@);
            assert(payload.subrange(8, 12) =~= mid@);
            assert(payload.subrange(12 + comp_len_field as int, payload_len_field as int)
                =~= payload_tail@);
        }
        let (p, be_len_fields) = match read_wrapper(&component) {
            Ok(w) => w,
            Err(e) => {
                return Err(e);
            },
        };
        proof {
            lemma_wrapper_bounds(component@, p as int, be_len_fields@);
            reveal(wrapper_of);
            assert(p <= 176);
        }
        let (kind, state_start, state_len, le_len_fields) = match read_state(&component, p) {
            Ok(st) => st,
            Err(e) => {
                return Err(e);
            },
        };
        proof {
            lemma_state_bounds(
                component@,
                p as int,
                kind,
                state_start as int,
                state_len as int,
                le_len_fields@,
            );
        }
        let comp_head = byte_range(&component, 0, state_start);
        let state = byte_range(&component, state_start, state_start + state_len);
        let comp_trailer = byte_range(&component, state_start + state_len, component.len());
        let footer = byte_range(data, pe, data.len());
        let (name_at, name_len) = match find_name(&footer, preset_name) {
            Ok(slot) => slot,
            Err(e) => {
                return Err(e);
            },
        };
        let footer_prefix = byte_range(&footer, 0, name_at);
        let footer_suffix = byte_range(&footer, name_at + name_len + 1, footer.len());
        let b = Blob {
            head,
            post_len,
            prog,
            mid,
            comp_head,
            be_len_fields,
            le_len_fields,
            state,
            kind,
            comp_trailer,
            payload_tail,
            footer_prefix,
            footer_suffix,
            comp_len_field,
            payload_len_field,
        };
        assert(footer@ == footer_of(data@, off as int, payload_len_field as nat));
        assert(b@.wf());
        assert(blob_spec(data@, preset_name@) == Some(b@));
        Ok(b)
    }
}

/// The frame lies inside the data.
pub proof fn lemma_frame_bounds(data: Seq<u8>, off: int, plf: nat, clf: nat)
    requires
        frame_of(data) == Some((off, plf, clf)),
    ensures
        0 <= off,
        off + 8 + plf <= data.len(),
        16 <= plf,
        12 + clf <= plf,
        le_value(data.subrange(off, off + 4)) == plf,
        le_value(data.subrange(off + 12, off + 16)) == clf,
{
    reveal(frame_of);
}

/// The wrappers lie inside the component, and so do their length fields.
pub proof fn lemma_wrapper_bounds(c: Seq<u8>, p: int, be: Seq<usize>)
    requires
        wrapper_of(c) == Some((p, be)),
    ensures
        0 <= p,
        forall|i: int| 0 <= i < be.len() ==> #[trigger] be[i] + 4 <= p,
{
    reveal(wrapper_of);
}

/// The state lies inside the component after the wrappers, and the length
/// fields before it lie between the two.
pub proof fn lemma_state_bounds(c: Seq<u8>, p: int, kind: StateKind, start: int, len: int, le: Seq<usize>)
    requires
        p + 4 <= usize::MAX,
        state_of(c, p) == Some((kind, start, len, le)),
    ensures
        0 <= p <= start,
        0 <= len,
        start + len <= c.len(),
        forall|i: int| 0 <= i < le.len() ==> p <= #[trigger] le[i] && le[i] + 4 <= start,
{
    reveal(state_of);
}

/// The name slot lies inside the footer, with room for its null.
pub proof fn lemma_name_slot_bounds(f: Seq<u8>, pattern: Seq<u8>, at: int, n: int)
    requires
        pattern.len() > 0,
        name_slot(f, pattern) == Some((at, n)),
    ensures
        0 <= at,
        0 <= n,
        at + n < f.len(),
{
    reveal(name_slot);
    crate::text::lemma_first_occurrence(f, pattern, 0);
    lemma_slot_in_footer(f);
}

/// The structural slot lies inside the footer, its null included.
proof fn lemma_slot_in_footer(f: Seq<u8>)
    ensures
        footer_slot(f) matches Some((a, n)) ==> 0 <= a && 0 <= n && a + n < f.len(),
{
    lemma_first_printable(f, 0);
    match first_printable(f, 0) {
        Some(start) => lemma_first_control(f, start),
        None => {},
    }
}

proof fn lemma_first_printable(s: Seq<u8>, i: int)
    ensures
        first_printable(s, i) matches Some(j) ==> i <= j < s.len() && 0 <= j,
    decreases s.len() - i,
{
    if 0 <= i < s.len() && s[i] < 0x20 {
        lemma_first_printable(s, i + 1);
    }
}

proof fn lemma_first_control(s: Seq<u8>, i: int)
    ensures
        first_control(s, i) matches Some(j) ==> i <= j < s.len() && 0 <= j,
    decreases s.len() - i,
{
    if 0 <= i < s.len() && s[i] >= 0x20 {
        lemma_first_control(s, i + 1);
    }
}


// ---------------------------------------------------------------------------
// Putting a blob back together
// ---------------------------------------------------------------------------

/// An integer as the 32-bit field it is written into.
pub open spec fn wrap32(x: int) -> nat {
    (x % 0x1_0000_0000) as nat
}

/// `s` with the four bytes at `at` replaced by `b`.
pub open spec fn splice4(s: Seq<u8>, at: int, b: Seq<u8>) -> Seq<u8> {
    s.subrange(0, at) + b + s.subrange(at + 4, s.len() as int)
}

/// `s` with each big-endian u32 field at `fields` shifted by `delta`, in
/// turn.
pub open spec fn shift_be(s: Seq<u8>, fields: Seq<usize>, delta: int) -> Seq<u8>
    decreases fields.len(),
{
    if fields.len() == 0 {
        s
    } else {
        let at = fields[0] as int;
        let old = be_value(s.subrange(at, at + 4));
        shift_be(splice4(s, at, be_bytes(wrap32(old + delta), 4)), fields.drop_first(), delta)
    }
}

/// `s` with each little-endian u32 field at `fields` shifted by `delta`, in
/// turn.
pub open spec fn shift_le(s: Seq<u8>, fields: Seq<usize>, delta: int) -> Seq<u8>
    decreases fields.len(),
{
    if fields.len() == 0 {
        s
    } else {
        let at = fields[0] as int;
        let old = le_value(s.subrange(at, at + 4));
        shift_le(splice4(s, at, le_bytes(wrap32(old + delta), 4)), fields.drop_first(), delta)
    }
}

/// The blob `m` reassembled around `state` and the name bytes `name`, with
/// every length field shifted by the change in state size.
pub open spec fn rebuild_bytes(m: BlobModel, state: Seq<u8>, name: Seq<u8>) -> Seq<u8> {
    let delta = state.len() - m.state.len();
    m.head + le_bytes(wrap32(m.payload_len_field + delta), 4) + m.post_len + m.prog + le_bytes(
        wrap32(m.comp_len_field + delta),
        4,
    ) + m.mid + shift_le(shift_be(m.comp_head, m.be_len_fields, delta), m.le_len_fields, delta)
        + state + m.comp_trailer + m.payload_tail + m.footer_prefix + name + seq![0u8]
        + m.footer_suffix
}

/// `(field + new_len - old_len) mod 2^32`, computed without overflow.
fn shifted(field: u32, new_len: usize, old_len: usize) -> (r: u32)
    ensures
        r as nat == wrap32(field + new_len - old_len),
{
    let m: u64 = 0x1_0000_0000;
    let a = (new_len as u64) % m;
    let b = (old_len as u64) % m;
    let x = (field as u64 + a + (m - b)) % m;
    proof {
        let qa = new_len as int / 0x1_0000_0000;
        let qb = old_len as int / 0x1_0000_0000;
        assert(new_len as int == 0x1_0000_0000 * qa + a);
        assert(old_len as int == 0x1_0000_0000 * qb + b);
        let k = qa - qb - 1;
        vstd::arithmetic::div_mod::lemma_mod_multiples_vanish(
            k,
            field + a + 0x1_0000_0000 - b,
            0x1_0000_0000,
        );
        assert(0x1_0000_0000 * k + (field + a + 0x1_0000_0000 - b) == field + new_len - old_len)
            by (nonlinear_arith)
            requires
                new_len as int == 0x1_0000_0000 * qa + a,
                old_len as int == 0x1_0000_0000 * qb + b,
                k == qa - qb - 1,
        ;
    }
    x as u32
}

/// The big-endian u32 fields at `fields` of `head` shifted, in turn.
fn shift_be_fields(head: Vec<u8>, fields: &Vec<usize>, new_len: usize, old_len: usize) -> (r: Vec<u8>)
    requires
        forall|i: int| 0 <= i < fields@.len() ==> #[trigger] fields@[i] + 4 <= head@.len(),
    ensures
        r@ == shift_be(head@, fields@, new_len - old_len),
        r@.len() == head@.len(),
{
    let mut cur = head;
    let mut i: usize = 0;
    assert(fields@.subrange(0, fields@.len() as int) =~= fields@);
    while i < fields.len()
        invariant
            i <= fields@.len(),
            cur@.len() == head@.len(),
            forall|j: int| 0 <= j < fields@.len() ==> #[trigger] fields@[j] + 4 <= head@.len(),
            shift_be(head@, fields@, new_len - old_len) == shift_be(
                cur@,
                fields@.subrange(i as int, fields@.len() as int),
                new_len - old_len,
            ),
        decreases fields@.len() - i,
    {
        let at = fields[i];
        assert(at + 4 <= head@.len());
        assert(cur@.len() == cur.len());
        let old = read_be(&cur, at, 4);
        proof {
            crate::ubjson::lemma_be_value_bound(cur@.subrange(at as int, at + 4), 4);
            lemma_pow256_values();
        }
        let new = shifted(old as u32, new_len, old_len);
        let mut next: Vec<u8> = Vec::new();
        push_all_bytes(&mut next, vstd::slice::slice_subrange(cur.as_slice(), 0, at));
        push_be(&mut next, new as u64, 4);
        push_all_bytes(&mut next, vstd::slice::slice_subrange(cur.as_slice(), at + 4, cur.len()));
        proof {
            let rest = fields@.subrange(i as int, fields@.len() as int);
            assert(rest[0] == at);
            assert(rest.drop_first() =~= fields@.subrange(i + 1, fields@.len() as int));
            assert(next@ =~= splice4(cur@, at as int, be_bytes(new as nat, 4)));
            crate::ubjson::lemma_be_bytes_value(new as nat, 4);
        }
        cur = next;
        i = i + 1;
    }
    assert(fields@.subrange(i as int, fields@.len() as int).len() == 0);
    cur
}

/// The little-endian u32 fields at `fields` of `head` shifted, in turn.
fn shift_le_fields(head: Vec<u8>, fields: &Vec<usize>, new_len: usize, old_len: usize) -> (r: Vec<u8>)
    requires
        forall|i: int| 0 <= i < fields@.len() ==> #[trigger] fields@[i] + 4 <= head@.len(),
    ensures
        r@ == shift_le(head@, fields@, new_len - old_len),
        r@.len() == head@.len(),
{
    let mut cur = head;
    let mut i: usize = 0;
    assert(fields@.subrange(0, fields@.len() as int) =~= fields@);
    while i < fields.len()
        invariant
            i <= fields@.len(),
            cur@.len() == head@.len(),
            forall|j: int| 0 <= j < fields@.len() ==> #[trigger] fields@[j] + 4 <= head@.len(),
            shift_le(head@, fields@, new_len - old_len) == shift_le(
                cur@,
                fields@.subrange(i as int, fields@.len() as int),
                new_len - old_len,
            ),
        decreases fields@.len() - i,
    {
        let at = fields[i];
        assert(at + 4 <= head@.len());
        assert(cur@.len() == cur.len());
        let old = read_le(&cur, at, 4);
        proof {
            lemma_le_value_bound(cur@.subrange(at as int, at + 4));
            lemma_pow256_values();
        }
        let new = shifted(old as u32, new_len, old_len);
        let mut next: Vec<u8> = Vec::new();
        push_all_bytes(&mut next, vstd::slice::slice_subrange(cur.as_slice(), 0, at));
        push_le(&mut next, new as u64, 4);
        push_all_bytes(&mut next, vstd::slice::slice_subrange(cur.as_slice(), at + 4, cur.len()));
        proof {
            let rest = fields@.subrange(i as int, fields@.len() as int);
            assert(rest[0] == at);
            assert(rest.drop_first() =~= fields@.subrange(i + 1, fields@.len() as int));
            assert(next@ =~= splice4(cur@, at as int, le_bytes(new as nat, 4)));
            crate::valuetree::lemma_le_bytes_value(new as nat, 4);
        }
        cur = next;
        i = i + 1;
    }
    assert(fields@.subrange(i as int, fields@.len() as int).len() == 0);
    cur
}

impl Blob {
    /// Reassemble the blob around new plugin state and a new preset name,
    /// shifting every recorded length field by the change in state size.
    pub fn rebuild(&self, state: &[u8], name: &str) -> (r: Vec<u8>)
        requires
            self@.wf(),
        ensures
            r@ == rebuild_bytes(self@, state@, encode_utf8(name@)),
    {
        let new_len = state.len();
        let old_len = self.state.len();
        let original = self.comp_head.clone();
        assert(original@ =~= self.comp_head@);
        assert forall|i: int| 0 <= i < self.be_len_fields@.len() implies #[trigger] self.be_len_fields@[i] + 4
            <= original@.len() by {
            assert(self@.be_len_fields[i] + 4 <= self@.comp_head.len());
        }
        assert forall|i: int| 0 <= i < self.le_len_fields@.len() implies #[trigger] self.le_len_fields@[i] + 4
            <= original@.len() by {
            assert(self@.le_len_fields[i] + 4 <= self@.comp_head.len());
        }
        let comp_head = shift_be_fields(original, &self.be_len_fields, new_len, old_len);
        let comp_head = shift_le_fields(comp_head, &self.le_len_fields, new_len, old_len);
        let mut out: Vec<u8> = Vec::new();
        push_all_bytes(&mut out, self.head.as_slice());
        push_le(&mut out, shifted(self.payload_len_field, new_len, old_len) as u64, 4);
        push_all_bytes(&mut out, self.post_len.as_slice());
        push_all_bytes(&mut out, self.prog.as_slice());
        push_le(&mut out, shifted(self.comp_len_field, new_len, old_len) as u64, 4);
        push_all_bytes(&mut out, self.mid.as_slice());
        push_all_bytes(&mut out, comp_head.as_slice());
        push_all_bytes(&mut out, state);
        push_all_bytes(&mut out, self.comp_trailer.as_slice());
        push_all_bytes(&mut out, self.payload_tail.as_slice());
        push_all_bytes(&mut out, self.footer_prefix.as_slice());
        let name_bytes = name.as_bytes();
        push_all_bytes(&mut out, name_bytes);
        out.push(0);
        push_all_bytes(&mut out, self.footer_suffix.as_slice());
        assert(out@ =~= rebuild_bytes(self@, state@, encode_utf8(name@)));
        out
    }
}


// ---------------------------------------------------------------------------
// Rebuilding what was parsed
// ---------------------------------------------------------------------------

/// The bytes of the preset name as the footer holds them: those at the
/// name slot that `parse` located.
pub open spec fn footer_name(data: Seq<u8>, name: Seq<char>) -> Seq<u8> {
    match frame_of(data) {
        Some((off, plf, _)) => {
            let f = footer_of(data, off, plf);
            match name_slot(f, encode_utf8(name) + seq![0u8]) {
                Some((at, nl)) => f.subrange(at, at + nl),
                None => Seq::empty(),
            }
        },
        None => Seq::empty(),
    }
}

proof fn lemma_le_bytes_of_value(s: Seq<u8>)
    ensures
        le_bytes(le_value(s), s.len()) == s,
    decreases s.len(),
{
    if s.len() > 0 {
        let r = le_value(s.drop_first());
        lemma_le_bytes_of_value(s.drop_first());
        let v = le_value(s);
        assert(v == s[0] as nat + 256 * r);
        assert(v % 256 == s[0] as nat && v / 256 == r) by (nonlinear_arith)
            requires
                v == s[0] as nat + 256 * r,
                s[0] < 256,
        ;
        assert(le_bytes(v, s.len()) =~= seq![s[0]] + le_bytes(r, s.drop_first().len()));
        assert(seq![s[0]] + s.drop_first() =~= s);
    }
}

proof fn lemma_be_bytes_of_value(s: Seq<u8>)
    ensures
        be_bytes(be_value(s), s.len()) == s,
    decreases s.len(),
{
    if s.len() > 0 {
        let r = be_value(s.drop_last());
        lemma_be_bytes_of_value(s.drop_last());
        let v = be_value(s);
        assert(v == r * 256 + s.last() as nat);
        assert(v % 256 == s.last() as nat && v / 256 == r) by (nonlinear_arith)
            requires
                v == r * 256 + s.last() as nat,
                s.last() < 256,
        ;
        assert(be_bytes(v, s.len()) =~= be_bytes(r, s.drop_last().len()).push(s.last()));
        assert(s.drop_last().push(s.last()) =~= s);
    }
}

/// Shifting big-endian length fields by nothing changes nothing.
proof fn lemma_shift_be_zero(s: Seq<u8>, fields: Seq<usize>)
    requires
        forall|i: int| 0 <= i < fields.len() ==> #[trigger] fields[i] + 4 <= s.len(),
    ensures
        shift_be(s, fields, 0) == s,
    decreases fields.len(),
{
    if fields.len() > 0 {
        let at = fields[0] as int;
        assert(fields[0] + 4 <= s.len());
        let w = s.subrange(at, at + 4);
        crate::ubjson::lemma_be_value_bound(w, 4);
        lemma_pow256_values();
        lemma_be_bytes_of_value(w);
        assert(wrap32(be_value(w) + 0int) == be_value(w));
        assert(splice4(s, at, be_bytes(wrap32(be_value(w) + 0int), 4)) =~= s);
        assert forall|i: int| 0 <= i < fields.drop_first().len() implies #[trigger] fields.drop_first()[i]
            + 4 <= s.len() by {
            assert(fields.drop_first()[i] == fields[i + 1]);
        }
        lemma_shift_be_zero(s, fields.drop_first());
    }
}

/// Shifting little-endian length fields by nothing changes nothing.
proof fn lemma_shift_le_zero(s: Seq<u8>, fields: Seq<usize>)
    requires
        forall|i: int| 0 <= i < fields.len() ==> #[trigger] fields[i] + 4 <= s.len(),
    ensures
        shift_le(s, fields, 0) == s,
    decreases fields.len(),
{
    if fields.len() > 0 {
        let at = fields[0] as int;
        assert(fields[0] + 4 <= s.len());
        let w = s.subrange(at, at + 4);
        lemma_le_value_bound(w);
        lemma_pow256_values();
        lemma_le_bytes_of_value(w);
        assert(wrap32(le_value(w) + 0int) == le_value(w));
        assert(splice4(s, at, le_bytes(wrap32(le_value(w) + 0int), 4)) =~= s);
        assert forall|i: int| 0 <= i < fields.drop_first().len() implies #[trigger] fields.drop_first()[i]
            + 4 <= s.len() by {
            assert(fields.drop_first()[i] == fields[i + 1]);
        }
        lemma_shift_le_zero(s, fields.drop_first());
    }
}

/// The name slot ends at a null.
proof fn lemma_name_slot_null(f: Seq<u8>, pattern: Seq<u8>, at: int, n: int)
    requires
        pattern.len() > 0,
        pattern.last() == 0,
        name_slot(f, pattern) == Some((at, n)),
    ensures
        0 <= at,
        0 <= n,
        at + n < f.len(),
        f[at + n] == 0,
        first_occurrence(f, pattern, 0) is Some ==> f.subrange(at, at + n) == pattern.drop_last(),
{
    lemma_name_slot_bounds(f, pattern, at, n);
    reveal(name_slot);
    crate::text::lemma_first_occurrence(f, pattern, 0);
    if first_occurrence(f, pattern, 0) is Some {
        assert(f.subrange(at, at + n + 1) == pattern);
        assert(f[at + n] == f.subrange(at, at + n + 1)[n]);
        assert(f.subrange(at, at + n) =~= pattern.drop_last());
    } else {
        lemma_first_printable(f, 0);
        match first_printable(f, 0) {
            Some(start) => lemma_first_control(f, start),
            None => {},
        }
    }
}

/// A blob's bytes, cut at the places `parse` cuts them.
proof fn lemma_blob_pieces(data: Seq<u8>, off: int, plf: int, clf: int, start: int, len: int, at: int, nl: int)
    requires
        0 <= off,
        off + 8 + plf <= data.len(),
        16 <= plf,
        12 + clf <= plf,
        0 <= start,
        0 <= len,
        start + len <= clf,
        0 <= at,
        0 <= nl,
        at + nl < data.len() - (off + 8 + plf),
        data[off + 8 + plf + at + nl] == 0,
    ensures
        ({
            let payload = data.subrange(off + 8, off + 8 + plf);
            let c = payload.subrange(12, 12 + clf);
            let f = data.subrange(off + 8 + plf, data.len() as int);
            data == data.subrange(0, off) + data.subrange(off, off + 4) + data.subrange(off + 4, off + 8)
                + payload.subrange(0, 4) + data.subrange(off + 12, off + 16) + payload.subrange(8, 12)
                + c.subrange(0, start) + c.subrange(start, start + len) + c.subrange(
                start + len,
                c.len() as int,
            ) + payload.subrange(12 + clf, plf) + f.subrange(0, at) + f.subrange(at, at + nl)
                + seq![0u8] + f.subrange(at + nl + 1, f.len() as int)
        }),
{
    let payload = data.subrange(off + 8, off + 8 + plf);
    let c = payload.subrange(12, 12 + clf);
    let f = data.subrange(off + 8 + plf, data.len() as int);
    assert(f[at + nl] == 0);
    assert(c =~= c.subrange(0, start) + c.subrange(start, start + len) + c.subrange(
        start + len,
        c.len() as int,
    ));
    assert(payload =~= payload.subrange(0, 4) + data.subrange(off + 12, off + 16)
        + payload.subrange(8, 12) + c + payload.subrange(12 + clf, plf));
    assert(f =~= f.subrange(0, at) + f.subrange(at, at + nl) + seq![0u8] + f.subrange(
        at + nl + 1,
        f.len() as int,
    ));
    assert(data =~= data.subrange(0, off) + data.subrange(off, off + 4) + data.subrange(
        off + 4,
        off + 8,
    ) + payload + f);
}

/// Taking a template blob apart and putting it back together around its
/// own state and the name its footer holds gives back the very same bytes;
/// that name is the one asked for whenever the footer holds it.
pub proof fn lemma_parse_then_rebuild(data: Seq<u8>, name: Seq<char>)
    requires
        blob_spec(data, name) is Some,
    ensures
        rebuild_bytes(blob_spec(data, name).unwrap(), blob_spec(data, name).unwrap().state, footer_name(data, name)) == data,
        ({
            let (off, plf, clf) = frame_of(data).unwrap();
            first_occurrence(footer_of(data, off, plf), encode_utf8(name) + seq![0u8], 0) is Some
        }) ==> footer_name(data, name) == encode_utf8(name),
{
    let m = blob_spec(data, name).unwrap();
    let (off, plf, clf) = frame_of(data).unwrap();
    lemma_frame_bounds(data, off, plf, clf);
    let ps = off + 8;
    let payload = data.subrange(ps, ps + plf);
    let c = payload.subrange(12, 12 + clf as int);
    let (p, be) = wrapper_of(c).unwrap();
    lemma_wrapper_bounds(c, p, be);
    assert(p <= 176) by {
        reveal(wrapper_of);
    }
    let (kind, start, len, le) = state_of(c, p).unwrap();
    lemma_state_bounds(c, p, kind, start, len, le);
    let f = footer_of(data, off, plf);
    let pattern = encode_utf8(name) + seq![0u8];
    let (at, nl) = name_slot(f, pattern).unwrap();
    lemma_name_slot_null(f, pattern, at, nl);
    assert(pattern.drop_last() =~= encode_utf8(name));
    assert(f[at + nl] == data[off + 8 + plf + at + nl]);
    // the length fields are untouched
    lemma_pow256_values();
    let w_plf = data.subrange(off, off + 4);
    lemma_le_bytes_of_value(w_plf);
    lemma_le_value_bound(w_plf);
    let w_clf = data.subrange(off + 12, off + 16);
    lemma_le_bytes_of_value(w_clf);
    lemma_le_value_bound(w_clf);
    assert(wrap32(m.payload_len_field + 0int) == plf);
    assert(wrap32(m.comp_len_field + 0int) == clf);
    assert forall|i: int| 0 <= i < be.len() implies #[trigger] be[i] + 4 <= m.comp_head.len() by {}
    lemma_shift_be_zero(m.comp_head, be);
    assert forall|i: int| 0 <= i < le.len() implies #[trigger] le[i] + 4 <= m.comp_head.len() by {}
    lemma_shift_le_zero(m.comp_head, le);
    // the pieces line up
    lemma_blob_pieces(data, off, plf as int, clf as int, start, len, at, nl);
    assert(footer_name(data, name) == f.subrange(at, at + nl));
    assert(rebuild_bytes(m, m.state, footer_name(data, name)) =~= data);
}


/// The bytes before the footer, cut at the places `parse` cuts them.
proof fn lemma_blob_head_pieces(data: Seq<u8>, off: int, plf: int, clf: int, start: int, len: int)
    requires
        0 <= off,
        off + 8 + plf <= data.len(),
        16 <= plf,
        12 + clf <= plf,
        0 <= start,
        0 <= len,
        start + len <= clf,
    ensures
        ({
            let payload = data.subrange(off + 8, off + 8 + plf);
            let c = payload.subrange(12, 12 + clf);
            data.subrange(0, off + 8 + plf) == data.subrange(0, off) + data.subrange(off, off + 4)
                + data.subrange(off + 4, off + 8) + payload.subrange(0, 4) + data.subrange(
                off + 12,
                off + 16,
            ) + payload.subrange(8, 12) + c.subrange(0, start) + c.subrange(start, start + len)
                + c.subrange(start + len, c.len() as int) + payload.subrange(12 + clf, plf)
        }),
{
    let payload = data.subrange(off + 8, off + 8 + plf);
    let c = payload.subrange(12, 12 + clf);
    assert(c =~= c.subrange(0, start) + c.subrange(start, start + len) + c.subrange(
        start + len,
        c.len() as int,
    ));
    assert(payload =~= payload.subrange(0, 4) + data.subrange(off + 12, off + 16)
        + payload.subrange(8, 12) + c + payload.subrange(12 + clf, plf));
    assert(data.subrange(0, off + 8 + plf) =~= data.subrange(0, off) + data.subrange(off, off + 4)
        + data.subrange(off + 4, off + 8) + payload);
}

/// The frame depends only on the bytes before the footer.
proof fn lemma_frame_prefix(d1: Seq<u8>, d2: Seq<u8>, off: int, plf: nat, clf: nat)
    requires
        frame_of(d1) == Some((off, plf, clf)),
        off + 8 + plf <= d2.len(),
        d2.subrange(0, off + 8 + plf) == d1.subrange(0, off + 8 + plf),
    ensures
        frame_of(d2) == Some((off, plf, clf)),
{
    lemma_frame_bounds(d1, off, plf, clf);
    let e = off + 8 + plf;
    assert forall|k: int| 0 <= k && k + 4 <= e implies #[trigger] u32_at(d2, k) == u32_at(d1, k) by {
        assert(d2.subrange(k, k + 4) =~= d2.subrange(0, e).subrange(k, k + 4));
        assert(d1.subrange(k, k + 4) =~= d1.subrange(0, e).subrange(k, k + 4));
    }
    reveal(frame_of);
    let num_in = u32_at(d1, 8).unwrap();
    assert(u32_at(d2, 4) == u32_at(d1, 4));
    assert(u32_at(d2, 8) == u32_at(d1, 8));
    let o1 = 12 + (num_in * 8) as int;
    assert(u32_at(d2, o1) == u32_at(d1, o1));
    assert(u32_at(d2, off) == u32_at(d1, off));
    assert(u32_at(d2, off + 12) == u32_at(d1, off + 12));
}

/// Renaming a preset keeps its blob usable as a template: rebuilt around
/// its own state under a new name, the blob parses under that name, with
/// the same state of the same kind behind the same wrappers.
pub proof fn lemma_rename_keeps_state(data: Seq<u8>, old_name: Seq<char>, new_name: Seq<char>)
    requires
        blob_spec(data, old_name) is Some,
    ensures
        ({
            let m = blob_spec(data, old_name).unwrap();
            blob_spec(rebuild_bytes(m, m.state, encode_utf8(new_name)), new_name) matches Some(m2)
                && m2.state == m.state && m2.kind == m.kind && m2.comp_head == m.comp_head
                && m2.be_len_fields == m.be_len_fields && m2.le_len_fields == m.le_len_fields
        }),
{
    let m = blob_spec(data, old_name).unwrap();
    let (off, plf, clf) = frame_of(data).unwrap();
    lemma_frame_bounds(data, off, plf, clf);
    let e = off + 8 + plf;
    let ps = off + 8;
    let payload = data.subrange(ps, ps + plf);
    let c = payload.subrange(12, 12 + clf as int);
    let (p, be) = wrapper_of(c).unwrap();
    lemma_wrapper_bounds(c, p, be);
    assert(p <= 176) by {
        reveal(wrapper_of);
    }
    let (kind, start, len, le) = state_of(c, p).unwrap();
    lemma_state_bounds(c, p, kind, start, len, le);
    let f = footer_of(data, off, plf);
    let pattern = encode_utf8(old_name) + seq![0u8];
    let (at, nl) = name_slot(f, pattern).unwrap();
    lemma_name_slot_bounds(f, pattern, at, nl);
    // the length fields are untouched
    lemma_pow256_values();
    let w_plf = data.subrange(off, off + 4);
    lemma_le_bytes_of_value(w_plf);
    lemma_le_value_bound(w_plf);
    let w_clf = data.subrange(off + 12, off + 16);
    lemma_le_bytes_of_value(w_clf);
    lemma_le_value_bound(w_clf);
    assert(wrap32(m.payload_len_field + 0int) == plf);
    assert(wrap32(m.comp_len_field + 0int) == clf);
    assert forall|i: int| 0 <= i < be.len() implies #[trigger] be[i] + 4 <= m.comp_head.len() by {}
    lemma_shift_be_zero(m.comp_head, be);
    assert forall|i: int| 0 <= i < le.len() implies #[trigger] le[i] + 4 <= m.comp_head.len() by {}
    lemma_shift_le_zero(m.comp_head, le);
    // the bytes before the footer are kept
    lemma_blob_head_pieces(data, off, plf as int, clf as int, start, len);
    let nb = encode_utf8(new_name);
    let nd = rebuild_bytes(m, m.state, nb);
    let head = data.subrange(0, e);
    let f2 = m.footer_prefix + nb + seq![0u8] + m.footer_suffix;
    assert(nd =~= head + f2);
    assert(nd.subrange(0, e) =~= head);
    lemma_frame_prefix(data, nd, off, plf, clf);
    assert(nd.subrange(ps, ps + plf) =~= payload);
    // the new name is found in the new footer
    let f3 = footer_of(nd, off, plf);
    assert(f3 =~= f2);
    let pattern2 = nb + seq![0u8];
    assert(f3.subrange(at, at + pattern2.len()) =~= pattern2);
    assert(crate::text::occurs_at(f3, pattern2, at));
    crate::text::lemma_first_occurrence(f3, pattern2, 0);
    reveal(name_slot);
    assert(name_slot(f3, pattern2) is Some);
}


/// Shifting big-endian fields keeps the length and every byte outside the
/// fields.
proof fn lemma_shift_be_keeps(s: Seq<u8>, fields: Seq<usize>, delta: int)
    requires
        forall|i: int| 0 <= i < fields.len() ==> #[trigger] fields[i] + 4 <= s.len(),
    ensures
        shift_be(s, fields, delta).len() == s.len(),
        forall|j: int|
            #![trigger shift_be(s, fields, delta)[j]]
            0 <= j < s.len() && (forall|i: int|
                0 <= i < fields.len() ==> !(#[trigger] fields[i] <= j < fields[i] + 4))
                ==> shift_be(s, fields, delta)[j] == s[j],
    decreases fields.len(),
{
    if fields.len() > 0 {
        let at = fields[0] as int;
        assert(fields[0] + 4 <= s.len());
        let old = be_value(s.subrange(at, at + 4));
        let w = be_bytes(wrap32(old + delta), 4);
        crate::ubjson::lemma_be_bytes_value(wrap32(old + delta), 4);
        let s1 = splice4(s, at, w);
        assert(s1.len() == s.len());
        let rest = fields.drop_first();
        assert forall|i: int| 0 <= i < rest.len() implies #[trigger] rest[i] + 4 <= s1.len() by {
            assert(rest[i] == fields[i + 1]);
        }
        lemma_shift_be_keeps(s1, rest, delta);
        assert forall|j: int|
            0 <= j < s.len() && (forall|i: int|
                0 <= i < fields.len() ==> !(#[trigger] fields[i] <= j < fields[i] + 4))
                implies shift_be(s, fields, delta)[j] == s[j] by {
            assert(!(fields[0] <= j < fields[0] + 4));
            assert forall|i: int| 0 <= i < rest.len() implies !(#[trigger] rest[i] <= j < rest[i]
                + 4) by {
                assert(rest[i] == fields[i + 1]);
            }
            assert(s1[j] == s[j]);
        }
    }
}

/// Shifting little-endian fields keeps the length and every byte outside
/// the fields.
proof fn lemma_shift_le_keeps(s: Seq<u8>, fields: Seq<usize>, delta: int)
    requires
        forall|i: int| 0 <= i < fields.len() ==> #[trigger] fields[i] + 4 <= s.len(),
    ensures
        shift_le(s, fields, delta).len() == s.len(),
        forall|j: int|
            #![trigger shift_le(s, fields, delta)[j]]
            0 <= j < s.len() && (forall|i: int|
                0 <= i < fields.len() ==> !(#[trigger] fields[i] <= j < fields[i] + 4))
                ==> shift_le(s, fields, delta)[j] == s[j],
    decreases fields.len(),
{
    if fields.len() > 0 {
        let at = fields[0] as int;
        assert(fields[0] + 4 <= s.len());
        let old = le_value(s.subrange(at, at + 4));
        let w = le_bytes(wrap32(old + delta), 4);
        crate::valuetree::lemma_le_bytes_value(wrap32(old + delta), 4);
        let s1 = splice4(s, at, w);
        assert(s1.len() == s.len());
        let rest = fields.drop_first();
        assert forall|i: int| 0 <= i < rest.len() implies #[trigger] rest[i] + 4 <= s1.len() by {
            assert(rest[i] == fields[i + 1]);
        }
        lemma_shift_le_keeps(s1, rest, delta);
        assert forall|j: int|
            0 <= j < s.len() && (forall|i: int|
                0 <= i < fields.len() ==> !(#[trigger] fields[i] <= j < fields[i] + 4))
                implies shift_le(s, fields, delta)[j] == s[j] by {
            assert(!(fields[0] <= j < fields[0] + 4));
            assert forall|i: int| 0 <= i < rest.len() implies !(#[trigger] rest[i] <= j < rest[i]
                + 4) by {
                assert(rest[i] == fields[i + 1]);
            }
            assert(s1[j] == s[j]);
        }
    }
}

/// Shifting one little-endian field moves its value by `delta`.
proof fn lemma_shift_le_one(s: Seq<u8>, at: int, delta: int)
    requires
        0 <= at,
        at + 4 <= s.len(),
        at <= usize::MAX,
    ensures
        le_value(shift_le(s, seq![at as usize], delta).subrange(at, at + 4)) == wrap32(
            le_value(s.subrange(at, at + 4)) + delta,
        ),
{
    let f = seq![at as usize];
    let old = le_value(s.subrange(at, at + 4));
    let w = le_bytes(wrap32(old + delta), 4);
    crate::valuetree::lemma_le_bytes_value(wrap32(old + delta), 4);
    lemma_pow256_values();
    let s1 = splice4(s, at, w);
    assert(f.drop_first() =~= Seq::<usize>::empty());
    assert(shift_le(s, f, delta) == shift_le(s1, f.drop_first(), delta));
    assert(shift_le(s, f, delta) == s1);
    assert(s1.subrange(at, at + 4) =~= w);
    assert(wrap32(old + delta) < 0x1_0000_0000);
    vstd::arithmetic::div_mod::lemma_small_mod(wrap32(old + delta), 0x1_0000_0000);
}

/// The routing block is read from the bytes before its end alone.
proof fn lemma_routing_prefix(d1: Seq<u8>, d2: Seq<u8>, off: int)
    requires
        routing_end(d1) == Some(off),
        off <= d1.len(),
        off <= d2.len(),
        d2.subrange(0, off) == d1.subrange(0, off),
    ensures
        routing_end(d2) == Some(off),
{
    assert forall|k: int| 0 <= k && k + 4 <= off implies #[trigger] u32_at(d2, k) == u32_at(d1, k) by {
        assert(d2.subrange(k, k + 4) =~= d2.subrange(0, off).subrange(k, k + 4));
        assert(d1.subrange(k, k + 4) =~= d1.subrange(0, off).subrange(k, k + 4));
    }
    let num_in = u32_at(d1, 8).unwrap();
    let o1 = 12 + (num_in * 8) as int;
    let num_out = u32_at(d1, o1).unwrap();
    assert(o1 + 4 <= off);
    assert(u32_at(d2, 4) == u32_at(d1, 4));
    assert(u32_at(d2, 8) == u32_at(d1, 8));
    assert(u32_at(d2, o1) == u32_at(d1, o1));
}


/// An XML component with its length fields shifted for another XML text
/// keeps its wrappers and reads that text as its state.
#[verifier::rlimit(40)]
proof fn lemma_xml_component(c: Seq<u8>, p: int, be: Seq<usize>, state2: Seq<u8>, trailer: Seq<u8>)
    requires
        wrapper_of(c) == Some((p, be)),
        state_of(c, p) matches Some((k, start, len, le)) && k == StateKind::Xml,
        p + 4 <= usize::MAX,
        state2.len() > 0,
        state2[0] == 0x3c,
        state2.len() < 0x1_0000_0000,
    ensures
        ({
            let (k, start, len, le) = state_of(c, p).unwrap();
            let delta = state2.len() - len;
            let c2 = shift_le(shift_be(c.subrange(0, start), be, delta), le, delta) + state2
                + trailer;
            &&& shift_le(shift_be(c.subrange(0, start), be, delta), le, delta).len() == start
            &&& wrapper_of(c2) == Some((p, be))
            &&& state_of(c2, p) == Some((StateKind::Xml, start, state2.len() as int, le))
        }),
{
    let (kind, start, len, le) = state_of(c, p).unwrap();
    lemma_wrapper_bounds(c, p, be);
    lemma_state_bounds(c, p, kind, start, len, le);
    assert(p == 0 || p == 16 || p == 76 || p == 176) by {
        reveal(wrapper_of);
    }
    assert(p == 0 || p == 16 ==> be =~= Seq::<usize>::empty()) by {
        reveal(wrapper_of);
    }
    assert(p == 76 ==> be =~= seq![20usize, 72usize]) by {
        reveal(wrapper_of);
    }
    assert(p == 176 ==> be =~= seq![20usize, 172usize]) by {
        reveal(wrapper_of);
    }
    assert(start == p + 8 && le =~= seq![(p + 4) as usize] && le_value(c.subrange(p + 4, p + 8))
        == len && c.subrange(p, p + 4) =~= tag_vc2()) by {
        reveal(state_of);
        let inner = c.subrange(p, c.len() as int);
        assert(inner.subrange(4, 8) =~= c.subrange(p + 4, p + 8));
        assert(inner.subrange(0, 4) =~= c.subrange(p, p + 4));
    }
    let delta = state2.len() - len;
    let head = c.subrange(0, start);
    lemma_pow256_values();
    vstd::arithmetic::div_mod::lemma_small_mod(state2.len(), 0x1_0000_0000);
    assert(wrap32(len + delta) == state2.len());
    let s1 = shift_be(head, be, delta);
    assert forall|i: int| 0 <= i < be.len() implies #[trigger] be[i] + 4 <= head.len() by {}
    lemma_shift_be_keeps(head, be, delta);
    assert forall|i: int| 0 <= i < le.len() implies #[trigger] le[i] + 4 <= s1.len() by {}
    lemma_shift_le_keeps(s1, le, delta);
    lemma_shift_le_one(s1, p + 4, delta);
    let ch2 = shift_le(s1, le, delta);
    let c2 = ch2 + state2 + trailer;
    assert(ch2.len() == start);
    assert forall|j: int|
        0 <= j < start && (forall|i: int| 0 <= i < be.len() ==> !(#[trigger] be[i] <= j < be[i]
            + 4)) && !(p + 4 <= j < p + 8) implies #[trigger] c2[j] == c[j] by {
        assert(c2[j] == ch2[j]);
        assert forall|i: int| 0 <= i < le.len() implies !(#[trigger] le[i] <= j < le[i] + 4) by {}
        assert(ch2[j] == s1[j]);
        assert(s1[j] == head[j]);
    }
    assert(wrapper_of(c2) == Some((p, be))) by {
        reveal(wrapper_of);
        assert(c2.subrange(0, 4) =~= c.subrange(0, 4));
        if p >= 16 {
            assert(c2.subrange(16, 20) =~= c.subrange(16, 20));
        }
        if p >= 76 {
            assert(c2.subrange(24, 28) =~= c.subrange(24, 28));
        }
    }
    assert(s1.subrange(p + 4, p + 8) =~= head.subrange(p + 4, p + 8)) by {
        assert forall|j: int| p + 4 <= j < p + 8 implies #[trigger] s1[j] == head[j] by {
            assert forall|i: int| 0 <= i < be.len() implies !(#[trigger] be[i] <= j < be[i] + 4) by {}
        }
    }
    assert(head.subrange(p + 4, p + 8) =~= c.subrange(p + 4, p + 8));
    assert(ch2.subrange(p + 4, p + 8) =~= c2.subrange(p + 4, p + 8));
    assert(le_value(c2.subrange(p + 4, p + 8)) == state2.len());
    assert(state_of(c2, p) == Some((StateKind::Xml, start, state2.len() as int, le))) by {
        reveal(state_of);
        let inner = c2.subrange(p, c2.len() as int);
        assert(c2.subrange(p, p + 4) =~= c.subrange(p, p + 4));
        assert(inner.subrange(0, 4) =~= c2.subrange(p, p + 4));
        assert(inner.subrange(4, 8) =~= c2.subrange(p + 4, p + 8));
        assert(inner[8] == state2[0]);
    }
}


/// A blob whose routing block is kept and whose two length fields are
/// rewritten has the frame those fields describe.
proof fn lemma_rebuilt_frame(data: Seq<u8>, off: int, plf: nat, clf: nat, nd: Seq<u8>, plf2: nat, clf2: nat)
    requires
        frame_of(data) == Some((off, plf, clf)),
        nd.subrange(0, off) == data.subrange(0, off),
        nd.subrange(off, off + 4) == le_bytes(plf2, 4),
        nd.subrange(off + 12, off + 16) == le_bytes(clf2, 4),
        off + 8 + plf2 <= nd.len(),
        plf2 < 0x1_0000_0000,
        clf2 < 0x1_0000_0000,
        16 <= plf2,
        12 + clf2 <= plf2,
    ensures
        frame_of(nd) == Some((off, plf2, clf2)),
{
    lemma_frame_bounds(data, off, plf, clf);
    assert(routing_end(data) == Some(off)) by {
        reveal(frame_of);
    }
    lemma_routing_prefix(data, nd, off);
    lemma_pow256_values();
    crate::valuetree::lemma_le_bytes_value(plf2, 4);
    crate::valuetree::lemma_le_bytes_value(clf2, 4);
    vstd::arithmetic::div_mod::lemma_small_mod(plf2, 0x1_0000_0000);
    vstd::arithmetic::div_mod::lemma_small_mod(clf2, 0x1_0000_0000);
    assert(u32_at(nd, off) == Some(plf2));
    assert(u32_at(nd, off + 8 + 4) == Some(clf2));
    reveal(frame_of);
}

/// What a new state must be for the blob's detector to find it in the
/// place of a state of kind `kind`, with `trailer` after it: XML text
/// begins with '<'; a UBJSON value begins with '{' and reads to exactly its
/// end; a tree is at least 32 bytes, begins with none of the markers the
/// detector looks for first, reads to exactly its end and holds a property
/// or a child.
pub open spec fn state_fits(kind: StateKind, s: Seq<u8>, trailer: Seq<u8>) -> bool {
    match kind {
        StateKind::Xml => s.len() > 0 && s[0] == 0x3c,
        StateKind::Ubjson => s.len() >= 8 && s[0] == 0x7b && (parse_spec(s + trailer) matches Some(
            (_, n),
        ) && n == s.len()),
        StateKind::Tree => {
            &&& s.len() >= 32
            &&& s[0] != 0x7b
            &&& !occurs_at(s, tag_vc2(), 0)
            &&& !occurs_at(s, tag_vstw(), 0)
            &&& !occurs_at(s, tag_ccnk(), 0)
            &&& node_at(s + trailer, 0, 0) matches Some((node, n)) && n == s.len() && (
            node.props.len() > 0 || node.children.len() > 0)
        },
    }
}

/// A tree or UBJSON component's state starts where its wrappers end, with
/// no little-endian length field before it.
proof fn lemma_plain_layout(c: Seq<u8>, p: int)
    requires
        state_of(c, p) matches Some((k, start, len, le)) && k != StateKind::Xml,
    ensures
        state_of(c, p) matches Some((k, start, len, le)) && start == p && le == Seq::<usize>::empty(),
{
    reveal(state_of);
    let (k, start, len, le) = state_of(c, p).unwrap();
    assert(le =~= Seq::<usize>::empty());
}

/// A component whose wrappers end at `p`, with its big-endian length
/// fields shifted and another state (that begins with neither wrapper
/// marker) put after the wrappers, keeps its wrappers.
#[verifier::rlimit(40)]
proof fn lemma_plain_component(
    c: Seq<u8>,
    p: int,
    be: Seq<usize>,
    delta: int,
    state2: Seq<u8>,
    trailer: Seq<u8>,
)
    requires
        wrapper_of(c) == Some((p, be)),
        p <= c.len(),
        state2.len() >= 4,
        !occurs_at(state2, tag_vstw(), 0),
        !occurs_at(state2, tag_ccnk(), 0),
    ensures
        ({
            let c2 = shift_be(c.subrange(0, p), be, delta) + state2 + trailer;
            &&& shift_be(c.subrange(0, p), be, delta).len() == p
            &&& wrapper_of(c2) == Some((p, be))
            &&& c2.subrange(p, c2.len() as int) == state2 + trailer
        }),
{
    lemma_wrapper_bounds(c, p, be);
    assert(p == 0 || p == 16 || p == 76 || p == 176) by {
        reveal(wrapper_of);
    }
    assert(p == 0 || p == 16 ==> be =~= Seq::<usize>::empty()) by {
        reveal(wrapper_of);
    }
    assert(p == 76 ==> be =~= seq![20usize, 72usize]) by {
        reveal(wrapper_of);
    }
    assert(p == 176 ==> be =~= seq![20usize, 172usize]) by {
        reveal(wrapper_of);
    }
    let head = c.subrange(0, p);
    let s1 = shift_be(head, be, delta);
    assert forall|i: int| 0 <= i < be.len() implies #[trigger] be[i] + 4 <= head.len() by {}
    lemma_shift_be_keeps(head, be, delta);
    let c2 = s1 + state2 + trailer;
    assert forall|j: int|
        0 <= j < p && (forall|i: int| 0 <= i < be.len() ==> !(#[trigger] be[i] <= j < be[i]
            + 4)) implies #[trigger] c2[j] == c[j] by {
        assert(c2[j] == s1[j]);
        assert(s1[j] == head[j]);
    }
    assert(c2.subrange(p, c2.len() as int) =~= state2 + trailer);
    assert(wrapper_of(c2) == Some((p, be))) by {
        reveal(wrapper_of);
        if p == 0 {
            assert(c2.subrange(0, 4) =~= state2.subrange(0, 4));
            assert(state2.subrange(0, 4) =~= state2.subrange(0, tag_vstw().len() as int));
        } else if p == 16 {
            assert(c2.subrange(0, 4) =~= c.subrange(0, 4));
            assert(c2.subrange(16, 20) =~= state2.subrange(0, 4));
            assert(state2.subrange(0, 4) =~= state2.subrange(0, tag_ccnk().len() as int));
        } else {
            assert(c2.subrange(0, 4) =~= c.subrange(0, 4));
            assert(c2.subrange(16, 20) =~= c.subrange(16, 20));
            assert(c2.subrange(24, 28) =~= c.subrange(24, 28));
        }
    }
}

/// A component's wrappers, with its length fields shifted for another
/// state that fits its state's kind, keep that kind and read that state.
proof fn lemma_component_fits(c: Seq<u8>, p: int, be: Seq<usize>, state2: Seq<u8>, trailer: Seq<u8>)
    requires
        wrapper_of(c) == Some((p, be)),
        state_of(c, p) matches Some((k, start, len, le)) && state_fits(k, state2, trailer),
        p + 4 <= usize::MAX,
        state2.len() < 0x1_0000_0000,
    ensures
        ({
            let (k, start, len, le) = state_of(c, p).unwrap();
            let delta = state2.len() - len;
            let c2 = shift_le(shift_be(c.subrange(0, start), be, delta), le, delta) + state2
                + trailer;
            &&& shift_le(shift_be(c.subrange(0, start), be, delta), le, delta).len() == start
            &&& wrapper_of(c2) == Some((p, be))
            &&& state_of(c2, p) == Some((k, start, state2.len() as int, le))
        }),
{
    let (kind, start, len, le) = state_of(c, p).unwrap();
    lemma_state_bounds(c, p, kind, start, len, le);
    if kind == StateKind::Xml {
        lemma_xml_component(c, p, be, state2, trailer);
    } else {
        lemma_plain_layout(c, p);
        let delta = state2.len() - len;
        let s1 = shift_be(c.subrange(0, start), be, delta);
        assert(shift_le(s1, le, delta) == s1);
        if kind == StateKind::Ubjson {
            assert(!occurs_at(state2, tag_vstw(), 0)) by {
                if occurs_at(state2, tag_vstw(), 0) {
                    assert(state2.subrange(0, 4)[0] == state2[0]);
                }
            }
            assert(!occurs_at(state2, tag_ccnk(), 0)) by {
                if occurs_at(state2, tag_ccnk(), 0) {
                    assert(state2.subrange(0, 4)[0] == state2[0]);
                }
            }
        }
        lemma_plain_component(c, p, be, delta, state2, trailer);
        let c2 = s1 + state2 + trailer;
        lemma_plain_state_of(c2, p, kind, state2, trailer);
    }
}

/// A component holding, from `p` on, a tree or UBJSON state that fits and
/// its trailer reads that state at `p`.
proof fn lemma_plain_state_of(c2: Seq<u8>, p: int, kind: StateKind, state2: Seq<u8>, trailer: Seq<u8>)
    requires
        0 <= p <= c2.len(),
        kind != StateKind::Xml,
        state_fits(kind, state2, trailer),
        c2.subrange(p, c2.len() as int) == state2 + trailer,
    ensures
        state_of(c2, p) == Some((kind, p, state2.len() as int, Seq::<usize>::empty())),
{
    reveal(state_of);
    let inner = c2.subrange(p, c2.len() as int);
    assert(inner.subrange(0, 4) =~= state2.subrange(0, 4));
    assert(inner[0] == state2[0]);
}

/// A blob rebuilt around a new state that fits the old state's kind, under
/// another name, parses under that name with that state of that kind, as
/// long as the rebuilt blob is under 4 GiB (so its length fields hold the
/// new lengths): the output of a conversion can serve as a template in
/// turn.
#[verifier::rlimit(60)]
#[verifier::spinoff_prover]
pub proof fn lemma_rebuild_parses(data: Seq<u8>, old_name: Seq<char>, state2: Seq<u8>, new_name: Seq<char>)
    requires
        blob_spec(data, old_name) matches Some(m) && state_fits(m.kind, state2, m.comp_trailer)
            && rebuild_bytes(m, state2, encode_utf8(new_name)).len() < 0x1_0000_0000,
    ensures
        ({
            let m = blob_spec(data, old_name).unwrap();
            blob_spec(rebuild_bytes(m, state2, encode_utf8(new_name)), new_name) matches Some(m2)
                && m2.kind == m.kind && m2.state == state2
        }),
{
    let m = blob_spec(data, old_name).unwrap();
    let (off, plf, clf) = frame_of(data).unwrap();
    lemma_frame_bounds(data, off, plf, clf);
    let ps = off + 8;
    let payload = data.subrange(ps, ps + plf);
    let c = payload.subrange(12, 12 + clf as int);
    let (p, be) = wrapper_of(c).unwrap();
    let (kind, start, len, le) = state_of(c, p).unwrap();
    lemma_wrapper_bounds(c, p, be);
    assert(p <= 176) by {
        reveal(wrapper_of);
    }
    lemma_state_bounds(c, p, kind, start, len, le);
    assert(kind == StateKind::Xml ==> start == p + 8) by {
        reveal(state_of);
    }
    lemma_pow256_values();
    lemma_le_value_bound(data.subrange(off, off + 4));
    lemma_le_value_bound(data.subrange(off + 12, off + 16));
    let delta = state2.len() - len;
    let plf2 = (plf + delta) as nat;
    let clf2 = (clf + delta) as nat;
    assert(state2.len() < 0x1_0000_0000) by {
        assert(rebuild_bytes(m, state2, encode_utf8(new_name)).len() >= state2.len());
    }
    lemma_component_fits(c, p, be, state2, m.comp_trailer);
    assert(plf + delta < 0x1_0000_0000) by {
        let nb = encode_utf8(new_name);
        crate::valuetree::lemma_le_bytes_value(wrap32(m.payload_len_field + delta), 4);
        crate::valuetree::lemma_le_bytes_value(wrap32(m.comp_len_field + delta), 4);
        assert(rebuild_bytes(m, state2, nb).len() >= 12 + start + state2.len()
            + m.comp_trailer.len() + m.payload_tail.len());
    }
    vstd::arithmetic::div_mod::lemma_small_mod(plf2, 0x1_0000_0000);
    vstd::arithmetic::div_mod::lemma_small_mod(clf2, 0x1_0000_0000);
    assert(wrap32(m.payload_len_field + delta) == plf2);
    assert(wrap32(m.comp_len_field + delta) == clf2);
    let nb = encode_utf8(new_name);
    let lp = le_bytes(plf2, 4);
    let lc = le_bytes(clf2, 4);
    crate::valuetree::lemma_le_bytes_value(plf2, 4);
    crate::valuetree::lemma_le_bytes_value(clf2, 4);
    let ch2 = shift_le(shift_be(m.comp_head, be, delta), le, delta);
    assert(m.comp_head == c.subrange(0, start));
    let c2 = ch2 + state2 + m.comp_trailer;
    let f2 = m.footer_prefix + nb + seq![0u8] + m.footer_suffix;
    let body = m.prog + lc + m.mid + c2 + m.payload_tail;
    let nd = rebuild_bytes(m, state2, nb);
    assert(nd =~= m.head + lp + m.post_len + body + f2);
    assert(c2.len() == clf2);
    assert(body.len() == plf2);
    assert(nd.subrange(0, off) =~= data.subrange(0, off));
    assert(nd.subrange(off, off + 4) =~= lp);
    assert(nd.subrange(off + 12, off + 16) =~= lc);
    lemma_rebuilt_frame(data, off, plf, clf, nd, plf2, clf2);
    let payload2 = nd.subrange(ps, ps + plf2);
    assert(payload2 =~= body);
    assert(payload2.subrange(12, 12 + clf2 as int) =~= c2);
    // the new name is found in the new footer
    let f3 = footer_of(nd, off, plf2);
    assert(f3 =~= f2);
    let pattern2 = nb + seq![0u8];
    let at = m.footer_prefix.len() as int;
    assert(f3.subrange(at, at + pattern2.len()) =~= pattern2);
    assert(crate::text::occurs_at(f3, pattern2, at));
    crate::text::lemma_first_occurrence(f3, pattern2, 0);
    reveal(name_slot);
    assert(name_slot(f3, pattern2) is Some);
    assert(c2.subrange(start, start + state2.len()) =~= state2);
}

/// A blob whose state is XML, rebuilt around another XML text (its first
/// byte '<') under another name, parses under that name with that text as
/// its XML state, as long as the rebuilt blob is under 4 GiB.
pub proof fn lemma_rebuild_xml_parses(
    data: Seq<u8>,
    old_name: Seq<char>,
    state2: Seq<u8>,
    new_name: Seq<char>,
)
    requires
        blob_spec(data, old_name) matches Some(m) && m.kind == StateKind::Xml && rebuild_bytes(
            m,
            state2,
            encode_utf8(new_name),
        ).len() < 0x1_0000_0000,
        state2.len() > 0,
        state2[0] == 0x3c,
    ensures
        ({
            let m = blob_spec(data, old_name).unwrap();
            blob_spec(rebuild_bytes(m, state2, encode_utf8(new_name)), new_name) matches Some(m2)
                && m2.kind == StateKind::Xml && m2.state == state2
        }),
{
    lemma_rebuild_parses(data, old_name, state2, new_name);
}


/// The state of an XML blob, when not empty, begins with '<'.
pub proof fn lemma_xml_state_starts(data: Seq<u8>, name: Seq<char>)
    requires
        blob_spec(data, name) matches Some(m) && m.kind == StateKind::Xml && m.state.len() > 0,
    ensures
        blob_spec(data, name).unwrap().state[0] == 0x3c,
{
    let (off, plf, clf) = frame_of(data).unwrap();
    lemma_frame_bounds(data, off, plf, clf);
    let payload = data.subrange(off + 8, off + 8 + plf);
    let c = payload.subrange(12, 12 + clf as int);
    let (p, be) = wrapper_of(c).unwrap();
    lemma_wrapper_bounds(c, p, be);
    assert(p <= 176) by {
        reveal(wrapper_of);
    }
    let (kind, start, len, le) = state_of(c, p).unwrap();
    lemma_state_bounds(c, p, kind, start, len, le);
    reveal(state_of);
    let inner = c.subrange(p, c.len() as int);
    assert(inner[8] == c[p + 8]);
    assert(c.subrange(start, start + len)[0] == c[p + 8]);
}


/// A UBJSON object as the writer writes it, at least 8 bytes long, fits a
/// UBJSON state's place, whatever trailer follows.
pub proof fn lemma_written_ubjson_fits(v: crate::ubjson::ValueModel, trailer: Seq<u8>)
    requires
        v is Object,
        crate::ubjson::value_writable(v, 0),
        crate::ubjson::value_bytes(v).len() >= 8,
    ensures
        state_fits(StateKind::Ubjson, crate::ubjson::value_bytes(v), trailer),
{
    crate::ubjson::lemma_write_then_parse(v, trailer);
}

/// A tree as the writer writes it, at least 32 bytes long, holding a
/// property or a child and beginning with none of the markers the blob
/// detector looks for first, fits a tree state's place, whatever trailer
/// follows.
pub proof fn lemma_written_tree_fits(n: crate::valuetree::NodeModel, trailer: Seq<u8>)
    requires
        crate::valuetree::node_writable(n, 0),
        n.props.len() > 0 || n.children.len() > 0,
        crate::valuetree::node_bytes(n).len() >= 32,
        crate::valuetree::node_bytes(n)[0] != 0x7b,
        !occurs_at(crate::valuetree::node_bytes(n), tag_vc2(), 0),
        !occurs_at(crate::valuetree::node_bytes(n), tag_vstw(), 0),
        !occurs_at(crate::valuetree::node_bytes(n), tag_ccnk(), 0),
    ensures
        state_fits(StateKind::Tree, crate::valuetree::node_bytes(n), trailer),
{
    crate::valuetree::lemma_write_then_parse_tail(n, trailer);
}


/// The fields of a blob's model that rebuilding shifts lie inside its
/// component head.
proof fn lemma_model_fields(data: Seq<u8>, name: Seq<char>)
    requires
        blob_spec(data, name) is Some,
    ensures
        ({
            let m = blob_spec(data, name).unwrap();
            &&& forall|i: int|
                0 <= i < m.be_len_fields.len() ==> #[trigger] m.be_len_fields[i] + 4
                    <= m.comp_head.len()
            &&& forall|i: int|
                0 <= i < m.le_len_fields.len() ==> #[trigger] m.le_len_fields[i] + 4
                    <= m.comp_head.len()
        }),
{
    let (off, plf, clf) = frame_of(data).unwrap();
    lemma_frame_bounds(data, off, plf, clf);
    let payload = data.subrange(off + 8, off + 8 + plf);
    let c = payload.subrange(12, 12 + clf as int);
    let (p, be) = wrapper_of(c).unwrap();
    lemma_wrapper_bounds(c, p, be);
    assert(p <= 176) by {
        reveal(wrapper_of);
    }
    let (kind, start, len, le) = state_of(c, p).unwrap();
    lemma_state_bounds(c, p, kind, start, len, le);
}

/// The length of a rebuilt blob: the blob's length, less its state and the
/// name in its footer, plus the new state and the new name. When the name
/// is found as such in the footer, the name in the footer is that name.
pub proof fn lemma_rebuild_len(data: Seq<u8>, name: Seq<char>, state2: Seq<u8>, name2: Seq<u8>)
    requires
        blob_spec(data, name) is Some,
    ensures
        ({
            let m = blob_spec(data, name).unwrap();
            rebuild_bytes(m, state2, name2).len() == data.len() - m.state.len() - footer_name(
                data,
                name,
            ).len() + state2.len() + name2.len()
        }),
        ({
            let (off, plf, clf) = frame_of(data).unwrap();
            first_occurrence(footer_of(data, off, plf), encode_utf8(name) + seq![0u8], 0) is Some
        }) ==> footer_name(data, name) == encode_utf8(name),
{
    let m = blob_spec(data, name).unwrap();
    lemma_parse_then_rebuild(data, name);
    lemma_model_fields(data, name);
    let d1 = m.state.len() - m.state.len();
    let d2 = state2.len() - m.state.len();
    lemma_shift_be_keeps(m.comp_head, m.be_len_fields, d1);
    lemma_shift_be_keeps(m.comp_head, m.be_len_fields, d2);
    lemma_shift_le_keeps(shift_be(m.comp_head, m.be_len_fields, d1), m.le_len_fields, d1);
    lemma_shift_le_keeps(shift_be(m.comp_head, m.be_len_fields, d2), m.le_len_fields, d2);
    crate::valuetree::lemma_le_bytes_value(wrap32(m.payload_len_field + d1), 4);
    crate::valuetree::lemma_le_bytes_value(wrap32(m.comp_len_field + d1), 4);
    crate::valuetree::lemma_le_bytes_value(wrap32(m.payload_len_field + d2), 4);
    crate::valuetree::lemma_le_bytes_value(wrap32(m.comp_len_field + d2), 4);
}

/// Rebuilding keeps the bytes before the payload length field and those
/// between the two length fields, and moves each length field by the
/// change in state size, modulo 2^32.
pub proof fn lemma_rebuild_frame_fields(data: Seq<u8>, name: Seq<char>, state2: Seq<u8>, name2: Seq<u8>)
    requires
        blob_spec(data, name) is Some,
    ensures
        ({
            let m = blob_spec(data, name).unwrap();
            let (off, plf, clf) = frame_of(data).unwrap();
            let r = rebuild_bytes(m, state2, name2);
            let delta = state2.len() - m.state.len();
            &&& off + 16 <= r.len()
            &&& r.subrange(0, off) == data.subrange(0, off)
            &&& le_value(r.subrange(off, off + 4)) == wrap32(plf + delta)
            &&& r.subrange(off + 4, off + 12) == data.subrange(off + 4, off + 12)
            &&& le_value(r.subrange(off + 12, off + 16)) == wrap32(clf + delta)
        }),
{
    let m = blob_spec(data, name).unwrap();
    let (off, plf, clf) = frame_of(data).unwrap();
    lemma_frame_bounds(data, off, plf, clf);
    let delta = state2.len() - m.state.len();
    let r = rebuild_bytes(m, state2, name2);
    lemma_pow256_values();
    let lp = le_bytes(wrap32(m.payload_len_field + delta), 4);
    let lc = le_bytes(wrap32(m.comp_len_field + delta), 4);
    crate::valuetree::lemma_le_bytes_value(wrap32(m.payload_len_field + delta), 4);
    crate::valuetree::lemma_le_bytes_value(wrap32(m.comp_len_field + delta), 4);
    vstd::arithmetic::div_mod::lemma_small_mod(wrap32(m.payload_len_field + delta), 0x1_0000_0000);
    vstd::arithmetic::div_mod::lemma_small_mod(wrap32(m.comp_len_field + delta), 0x1_0000_0000);
    lemma_le_value_bound(data.subrange(off, off + 4));
    lemma_le_value_bound(data.subrange(off + 12, off + 16));
    assert(m.payload_len_field == plf);
    assert(m.comp_len_field == clf);
    let rest = m.mid + shift_le(shift_be(m.comp_head, m.be_len_fields, delta), m.le_len_fields, delta)
        + state2 + m.comp_trailer + m.payload_tail + m.footer_prefix + name2 + seq![0u8]
        + m.footer_suffix;
    assert(r =~= m.head + lp + m.post_len + m.prog + lc + rest);
    assert(r.subrange(0, off) =~= data.subrange(0, off));
    assert(r.subrange(off, off + 4) =~= lp);
    assert(r.subrange(off + 4, off + 12) =~= data.subrange(off + 4, off + 12));
    assert(r.subrange(off + 12, off + 16) =~= lc);
}

/// Shifting two separate big-endian fields moves each by `delta`, modulo
/// 2^32.
proof fn lemma_shift_be_pair(s: Seq<u8>, f: Seq<usize>, delta: int)
    requires
        f.len() == 2,
        f[0] + 4 <= f[1],
        f[1] + 4 <= s.len(),
    ensures
        ({
            let r = shift_be(s, f, delta);
            let a = f[0] as int;
            let b = f[1] as int;
            &&& be_value(r.subrange(a, a + 4)) == wrap32(be_value(s.subrange(a, a + 4)) + delta)
            &&& be_value(r.subrange(b, b + 4)) == wrap32(be_value(s.subrange(b, b + 4)) + delta)
        }),
{
    let a = f[0] as int;
    let b = f[1] as int;
    lemma_pow256_values();
    let x1 = wrap32(be_value(s.subrange(a, a + 4)) + delta);
    let w1 = be_bytes(x1, 4);
    crate::ubjson::lemma_be_bytes_value(x1, 4);
    let s1 = splice4(s, a, w1);
    assert(s1.subrange(b, b + 4) =~= s.subrange(b, b + 4));
    let x2 = wrap32(be_value(s1.subrange(b, b + 4)) + delta);
    let w2 = be_bytes(x2, 4);
    crate::ubjson::lemma_be_bytes_value(x2, 4);
    let s2 = splice4(s1, b, w2);
    assert(f.drop_first().drop_first() =~= Seq::<usize>::empty());
    assert(shift_be(s, f, delta) == shift_be(s1, f.drop_first(), delta));
    assert(f.drop_first()[0] == f[1]);
    assert(shift_be(s1, f.drop_first(), delta) == shift_be(s2, f.drop_first().drop_first(), delta));
    assert(shift_be(s, f, delta) == s2);
    assert(s2.subrange(a, a + 4) =~= w1);
    assert(s2.subrange(b, b + 4) =~= w2);
    vstd::arithmetic::div_mod::lemma_small_mod(x1, 0x1_0000_0000);
    vstd::arithmetic::div_mod::lemma_small_mod(x2, 0x1_0000_0000);
}

/// The component head with its big-endian fields shifted, then its
/// little-endian ones (which lie past the wrappers): both big-endian fields
/// moved by `delta`.
proof fn lemma_head_size_fields(h: Seq<u8>, be: Seq<usize>, le: Seq<usize>, delta: int)
    requires
        be.len() == 2,
        be[0] + 4 <= be[1],
        be[1] + 4 <= h.len(),
        forall|i: int| 0 <= i < le.len() ==> be[1] + 4 <= #[trigger] le[i] && le[i] + 4 <= h.len(),
    ensures
        ({
            let r = shift_le(shift_be(h, be, delta), le, delta);
            let a = be[0] as int;
            let b = be[1] as int;
            &&& be_value(r.subrange(a, a + 4)) == wrap32(be_value(h.subrange(a, a + 4)) + delta)
            &&& be_value(r.subrange(b, b + 4)) == wrap32(be_value(h.subrange(b, b + 4)) + delta)
        }),
{
    let a = be[0] as int;
    let b = be[1] as int;
    lemma_shift_be_pair(h, be, delta);
    let h1 = shift_be(h, be, delta);
    assert forall|i: int| 0 <= i < be.len() implies #[trigger] be[i] + 4 <= h.len() by {
        if i == 0 {
        }
    }
    lemma_shift_be_keeps(h, be, delta);
    lemma_shift_le_keeps(h1, le, delta);
    let h2 = shift_le(h1, le, delta);
    assert forall|j: int| a <= j < a + 4 implies h2[j] == h1[j] by {
        assert(forall|i: int| 0 <= i < le.len() ==> !(#[trigger] le[i] <= j < le[i] + 4));
    }
    assert forall|j: int| b <= j < b + 4 implies h2[j] == h1[j] by {
        assert(forall|i: int| 0 <= i < le.len() ==> !(#[trigger] le[i] <= j < le[i] + 4));
    }
    assert(h2.subrange(a, a + 4) =~= h1.subrange(a, a + 4));
    assert(h2.subrange(b, b + 4) =~= h1.subrange(b, b + 4));
}

/// Where a blob's parts come from: the head up to the frame, the four-byte
/// pieces of the frame, and the component head and length fields as the
/// component's wrappers and state give them.
proof fn lemma_model_layout(data: Seq<u8>, name: Seq<char>)
    requires
        blob_spec(data, name) is Some,
    ensures
        ({
            let m = blob_spec(data, name).unwrap();
            let (off, plf, clf) = frame_of(data).unwrap();
            let c = data.subrange(off + 20, off + 20 + clf);
            let (p, be) = wrapper_of(c).unwrap();
            let (kind, start, len, le) = state_of(c, p).unwrap();
            &&& wrapper_of(c) is Some
            &&& state_of(c, p) is Some
            &&& m.head.len() == off
            &&& m.post_len.len() == 4
            &&& m.prog.len() == 4
            &&& m.mid.len() == 4
            &&& m.be_len_fields == be
            &&& m.le_len_fields == le
            &&& m.comp_head == c.subrange(0, start)
            &&& 0 <= off
            &&& off + 20 + clf <= data.len()
        }),
{
    let (off, plf, clf) = frame_of(data).unwrap();
    lemma_frame_bounds(data, off, plf, clf);
    let payload = data.subrange(off + 8, off + 8 + plf);
    let c = payload.subrange(12, 12 + clf as int);
    assert(c =~= data.subrange(off + 20, off + 20 + clf));
}

/// In a rebuilt blob, the component head (with its length fields shifted)
/// stands 20 bytes after the blob's head.
proof fn lemma_rebuilt_head_at(m: BlobModel, state2: Seq<u8>, name2: Seq<u8>, k: int)
    requires
        m.post_len.len() == 4,
        m.prog.len() == 4,
        m.mid.len() == 4,
        forall|i: int| 0 <= i < m.be_len_fields.len() ==> #[trigger] m.be_len_fields[i] + 4 <= m.comp_head.len(),
        forall|i: int| 0 <= i < m.le_len_fields.len() ==> #[trigger] m.le_len_fields[i] + 4 <= m.comp_head.len(),
        0 <= k,
        k + 4 <= m.comp_head.len(),
    ensures
        ({
            let delta = state2.len() - m.state.len();
            let cs = m.head.len() + 20;
            rebuild_bytes(m, state2, name2).subrange(cs + k, cs + k + 4) == shift_le(
                shift_be(m.comp_head, m.be_len_fields, delta),
                m.le_len_fields,
                delta,
            ).subrange(k, k + 4)
        }),
{
    let delta = state2.len() - m.state.len();
    let h1 = shift_be(m.comp_head, m.be_len_fields, delta);
    lemma_shift_be_keeps(m.comp_head, m.be_len_fields, delta);
    lemma_shift_le_keeps(h1, m.le_len_fields, delta);
    let h2 = shift_le(h1, m.le_len_fields, delta);
    let lp = le_bytes(wrap32(m.payload_len_field + delta), 4);
    let lc = le_bytes(wrap32(m.comp_len_field + delta), 4);
    crate::valuetree::lemma_le_bytes_value(wrap32(m.payload_len_field + delta), 4);
    crate::valuetree::lemma_le_bytes_value(wrap32(m.comp_len_field + delta), 4);
    let pre = m.head + lp + m.post_len + m.prog + lc + m.mid;
    let tail = state2 + m.comp_trailer + m.payload_tail + m.footer_prefix + name2 + seq![0u8]
        + m.footer_suffix;
    let r = rebuild_bytes(m, state2, name2);
    assert(r =~= pre + h2 + tail);
    let cs = m.head.len() + 20;
    assert(pre.len() == cs);
    assert(r.subrange(cs + k, cs + k + 4) =~= h2.subrange(k, k + 4));
}

/// Rebuilding a blob whose component wraps its state in a VST2 chunk
/// ('VstW', then 'CcnK' at 16) moves the two big-endian sizes that wrapper
/// records by the change in state size, modulo 2^32: the CcnK byte size at
/// component offset 20, and the chunk size at 172 for a bank ('FBCh' at
/// 24) or at 72 for a program ('FPCh' at 24).
pub proof fn lemma_rebuild_chunk_sizes(data: Seq<u8>, name: Seq<char>, state2: Seq<u8>, name2: Seq<u8>)
    requires
        blob_spec(data, name) is Some,
    ensures
        ({
            let m = blob_spec(data, name).unwrap();
            let (off, plf, clf) = frame_of(data).unwrap();
            let cs = off + 20;
            let c = data.subrange(cs, cs + clf);
            let r = rebuild_bytes(m, state2, name2);
            let delta = state2.len() - m.state.len();
            let at = if occurs_at(c, tag_fbch(), 24) { 172int } else { 72int };
            occurs_at(c, tag_vstw(), 0) && occurs_at(c, tag_ccnk(), 16) && (occurs_at(c, tag_fbch(), 24)
                || occurs_at(c, tag_fpch(), 24)) ==> {
                &&& be_value(r.subrange(cs + 20, cs + 24)) == wrap32(
                    be_value(data.subrange(cs + 20, cs + 24)) + delta,
                )
                &&& be_value(r.subrange(cs + at, cs + at + 4)) == wrap32(
                    be_value(data.subrange(cs + at, cs + at + 4)) + delta,
                )
            }
        }),
{
    let m = blob_spec(data, name).unwrap();
    let (off, plf, clf) = frame_of(data).unwrap();
    let cs = off + 20;
    let c = data.subrange(cs, cs + clf);
    let delta = state2.len() - m.state.len();
    let at = if occurs_at(c, tag_fbch(), 24) { 172int } else { 72int };
    lemma_model_layout(data, name);
    lemma_model_fields(data, name);
    if occurs_at(c, tag_vstw(), 0) && occurs_at(c, tag_ccnk(), 16) && (occurs_at(c, tag_fbch(), 24)
        || occurs_at(c, tag_fpch(), 24)) {
        let (p, be) = wrapper_of(c).unwrap();
        assert(p == at + 4 && be =~= seq![20usize, at as usize]) by {
            reveal(wrapper_of);
        }
        let (kind, start, len, le) = state_of(c, p).unwrap();
        lemma_state_bounds(c, p, kind, start, len, le);
        let h = m.comp_head;
        lemma_head_size_fields(h, be, le, delta);
        lemma_rebuilt_head_at(m, state2, name2, 20);
        lemma_rebuilt_head_at(m, state2, name2, at);
        assert(data.subrange(cs + 20, cs + 24) =~= h.subrange(20, 24));
        assert(data.subrange(cs + at, cs + at + 4) =~= h.subrange(at, at + 4));
    }
}

} // verus!
