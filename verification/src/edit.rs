//! Editing existing RPL libraries: renaming, reordering, removing, or
//! duplicating presets without touching their parameter state.

use vstd::prelude::*;
use vstd::utf8::*;
use crate::blob::{blob_spec, rebuild_bytes, Blob};
use crate::rpl::{encodes_back, parse_spec, presets_view, trim, write_spec, Preset};
use crate::text::{chars_eq, chars_of, message_with, string_of, unsigned_text};
use crate::{err, Error, Result};

verus! {

broadcast use vstd::utf8::group_utf8_lib;

/// A library's header and the names of its presets, in order.
pub struct LibraryInfo {
    pub header: String,
    pub names: Vec<String>,
}

/// The plain content of names.
pub open spec fn names_view(v: Seq<String>) -> Seq<Seq<char>> {
    Seq::new(v.len(), |i: int| v[i]@)
}

/// The names of presets.
pub open spec fn preset_names(ps: Seq<(Seq<char>, Seq<u8>)>) -> Seq<Seq<char>> {
    Seq::new(ps.len(), |i: int| ps[i].0)
}

/// Read a library's header and preset names.
pub fn read_library(text: &str) -> (r: Result<LibraryInfo>)
    ensures
        match parse_spec(text@) {
            Some((h, ps)) => r matches Ok(info) && info.header@ == h && names_view(info.names@)
                == preset_names(ps),
            None => r is Err,
        },
        r matches Err(e) ==> e.0@ == crate::rpl::parse_error(text@),
{
    let lib = match crate::rpl::parse(text) {
        Ok(l) => l,
        Err(e) => {
            return Err(e);
        },
    };
    let mut names: Vec<String> = Vec::new();
    let mut i: usize = 0;
    while i < lib.presets.len()
        invariant
            i <= lib.presets@.len(),
            names@.len() == i,
            forall|k: int| 0 <= k < i ==> #[trigger] names@[k]@ == lib.presets@[k].name@,
        decreases lib.presets@.len() - i,
    {
        names.push(string_of(&chars_of(lib.presets[i].name.as_str())));
        i = i + 1;
    }
    assert(names_view(names@) =~= preset_names(presets_view(lib.presets@)));
    Ok(LibraryInfo { header: lib.header, names })
}

/// One entry of the edited library, pointing back at the preset it came
/// from. Listing an index twice duplicates that preset; omitting an index
/// drops it.
pub struct PresetEdit {
    pub original_index: usize,
    pub name: String,
}

/// One edited entry: the preset at the index under the trimmed new name,
/// with the name also changed inside its blob when it differs.
pub open spec fn edited_one(ps: Seq<(Seq<char>, Seq<u8>)>, index: int, new_name: Seq<char>) -> Option<
    (Seq<char>, Seq<u8>),
> {
    let name = trim(new_name);
    if index < 0 || index >= ps.len() || name.len() == 0 {
        None
    } else if name == ps[index].0 {
        Some(ps[index])
    } else {
        match blob_spec(ps[index].1, ps[index].0) {
            Some(m) => Some((name, rebuild_bytes(m, m.state, encode_utf8(name)))),
            None => None,
        }
    }
}

/// The plain content of edits: indexes and names.
pub open spec fn edits_view(edits: Seq<PresetEdit>) -> Seq<(int, Seq<char>)> {
    Seq::new(edits.len(), |i: int| (edits[i].original_index as int, edits[i].name@))
}

/// The edited entries, in the order of the edits.
pub open spec fn edited_presets(ps: Seq<(Seq<char>, Seq<u8>)>, edits: Seq<(int, Seq<char>)>) -> Option<
    Seq<(Seq<char>, Seq<u8>)>,
>
    decreases edits.len(),
{
    if edits.len() == 0 {
        Some(Seq::empty())
    } else {
        match edited_one(ps, edits[0].0, edits[0].1) {
            None => None,
            Some(p) => match edited_presets(ps, edits.drop_first()) {
                Some(rest) => Some(seq![p] + rest),
                None => None,
            },
        }
    }
}

/// Editing goes entry by entry: the edits succeed exactly when each one
/// does, and then the k-th entry is what the k-th edit makes of its preset
/// (the preset as it was when the trimmed name is its own).
pub proof fn lemma_edits_pointwise(ps: Seq<(Seq<char>, Seq<u8>)>, edits: Seq<(int, Seq<char>)>)
    ensures
        edited_presets(ps, edits) is Some <==> forall|k: int|
            0 <= k < edits.len() ==> (#[trigger] edited_one(ps, edits[k].0, edits[k].1)) is Some,
        edited_presets(ps, edits) matches Some(out) ==> out.len() == edits.len() && forall|k: int|
            0 <= k < edits.len() ==> #[trigger] edited_one(ps, edits[k].0, edits[k].1) == Some(
                out[k],
            ),
    decreases edits.len(),
{
    if edits.len() > 0 {
        let rest = edits.drop_first();
        lemma_edits_pointwise(ps, rest);
        assert forall|k: int| 0 < k < edits.len() implies #[trigger] edits[k] == rest[k - 1] by {}
        if edited_presets(ps, edits) is Some {
            let out = edited_presets(ps, edits).unwrap();
            let r = edited_presets(ps, rest).unwrap();
            assert forall|k: int| 0 <= k < edits.len() implies #[trigger] edited_one(
                ps,
                edits[k].0,
                edits[k].1,
            ) == Some(out[k]) by {
                if k > 0 {
                    assert(edits[k] == rest[k - 1]);
                    assert(out[k] == r[k - 1]);
                }
            }
        } else {
            if edited_one(ps, edits[0].0, edits[0].1) is Some {
                let j = choose|j: int|
                    0 <= j < rest.len() && (#[trigger] edited_one(ps, rest[j].0, rest[j].1)) is None;
                assert(edits[j + 1] == rest[j]);
                assert(edited_one(ps, edits[j + 1].0, edits[j + 1].1) is None);
            }
        }
    }
}

/// A renamed entry's blob reads back under its new name, holding the
/// state of the preset it came from, so an edited library keeps working as
/// a conversion template.
pub proof fn lemma_renamed_entry_parses(ps: Seq<(Seq<char>, Seq<u8>)>, index: int, new_name: Seq<char>)
    requires
        edited_one(ps, index, new_name) matches Some(p) && p.0 != ps[index].0,
    ensures
        ({
            let p = edited_one(ps, index, new_name).unwrap();
            blob_spec(p.1, p.0) matches Some(m2) && m2.state == blob_spec(
                ps[index].1,
                ps[index].0,
            ).unwrap().state
        }),
{
    crate::blob::lemma_rename_keeps_state(ps[index].1, ps[index].0, trim(new_name));
}

/// The edited library's entries, or None when the text or an edit is
/// refused.
pub open spec fn apply_edits_entries(text: Seq<char>, edits: Seq<(int, Seq<char>)>) -> Option<
    (Seq<char>, Seq<(Seq<char>, Seq<u8>)>),
> {
    match parse_spec(text) {
        None => None,
        Some((h, ps)) => if edits.len() == 0 {
            None
        } else {
            match edited_presets(ps, edits) {
                Some(out) => Some((h, out)),
                None => None,
            }
        },
    }
}

/// The edited library's text.
pub open spec fn apply_edits_spec(text: Seq<char>, edits: Seq<(int, Seq<char>)>) -> Option<Seq<char>> {
    match apply_edits_entries(text, edits) {
        Some((h, out)) => Some(write_spec(h, out)),
        None => None,
    }
}

/// The message of the first refused edit: an index out of range, a name
/// that is blank once trimmed, or the blob reader's message for a renamed
/// preset whose blob cannot be taken apart. None when every edit passes.
pub open spec fn edits_error(ps: Seq<(Seq<char>, Seq<u8>)>, edits: Seq<(int, Seq<char>)>) -> Option<
    Seq<char>,
>
    decreases edits.len(),
{
    if edits.len() == 0 {
        None
    } else {
        let (index, name) = edits[0];
        if index < 0 || index >= ps.len() {
            Some(
                "preset index "@ + crate::text::digits(index as nat) + " is out of range"@,
            )
        } else if trim(name).len() == 0 {
            Some("preset '"@ + ps[index].0 + "' would get an empty name"@)
        } else if edited_one(ps, index, name) is None {
            Some(crate::blob::blob_error(ps[index].1, ps[index].0))
        } else {
            edits_error(ps, edits.drop_first())
        }
    }
}

/// The edits are refused exactly when a message is given for them.
pub proof fn lemma_edits_error_complete(ps: Seq<(Seq<char>, Seq<u8>)>, edits: Seq<(int, Seq<char>)>)
    ensures
        edited_presets(ps, edits) is None <==> edits_error(ps, edits) is Some,
    decreases edits.len(),
{
    if edits.len() > 0 {
        lemma_edits_error_complete(ps, edits.drop_first());
    }
}

/// The message `apply_edits` refuses the edits with: the RPL reader's
/// message for a library it refuses, no edits at all, or the first refused
/// edit.
pub open spec fn apply_edits_error(text: Seq<char>, edits: Seq<(int, Seq<char>)>) -> Option<Seq<char>> {
    match parse_spec(text) {
        None => Some(crate::rpl::parse_error(text)),
        Some((h, ps)) => if edits.len() == 0 {
            Some("the edited library would contain no presets"@)
        } else {
            edits_error(ps, edits)
        },
    }
}

/// An edit request is refused exactly when a message is given for it.
pub proof fn lemma_apply_edits_error_complete(text: Seq<char>, edits: Seq<(int, Seq<char>)>)
    ensures
        apply_edits_spec(text, edits) is None <==> apply_edits_error(text, edits) is Some,
{
    if let Some((h, ps)) = parse_spec(text) {
        lemma_edits_error_complete(ps, edits);
    }
}

/// The edited entries fit what the RPL writer's encoder takes.
pub open spec fn entries_encodable(out: Seq<(Seq<char>, Seq<u8>)>) -> bool {
    forall|k: int| 0 <= k < out.len() ==> #[trigger] out[k].1.len() <= usize::MAX / 2
}

/// Apply reorder/rename edits and return the new RPL text. Renames are
/// applied inside the preset blob as well as on the RPL entry: the two must
/// stay in sync for the file to keep working as a conversion template.
/// Every entry's data is written as base64 that decodes back to it.
pub fn apply_edits(text: &str, edits: &[PresetEdit]) -> (r: Result<String>)
    requires
        apply_edits_entries(text@, edits_view(edits@)) matches Some((h, out)) ==> entries_encodable(
            out,
        ),
    ensures
        match apply_edits_spec(text@, edits_view(edits@)) {
            Some(t) => r matches Ok(s) && s@ == t,
            None => r is Err,
        },
        r matches Err(e) ==> apply_edits_error(text@, edits_view(edits@)) == Some(e.0@),
        apply_edits_entries(text@, edits_view(edits@)) matches Some((h, out)) ==> forall|k: int|
            0 <= k < out.len() ==> encodes_back(#[trigger] out[k].1),
{
    match edited_library(text, edits) {
        Ok((header, presets)) => {
            proof {
                assert forall|j: int| 0 <= j < presets@.len() implies #[trigger] presets@[j].data@.len()
                    <= usize::MAX / 2 by {
                    assert(presets_view(presets@)[j].1 == presets@[j].data@);
                }
            }
            let out = crate::rpl::write(header.as_str(), presets.as_slice());
            proof {
                assert forall|j: int| 0 <= j < presets_view(presets@).len() implies encodes_back(
                    #[trigger] presets_view(presets@)[j].1,
                ) by {
                    assert(presets_view(presets@)[j].1 == presets@[j].data@);
                }
            }
            Ok(out)
        },
        Err(e) => Err(e),
    }
}

/// Apply reorder/rename edits with `apply_edits`, after checking that
/// every edited entry fits what the RPL writer's encoder takes; None when
/// one does not.
pub fn apply_edits_checked(text: &str, edits: &[PresetEdit]) -> (r: Option<Result<String>>)
    ensures
        match apply_edits_entries(text@, edits_view(edits@)) {
            Some((h, out)) => if entries_encodable(out) {
                &&& r matches Some(Ok(s)) && s@ == write_spec(h, out)
                &&& forall|k: int| 0 <= k < out.len() ==> encodes_back(#[trigger] out[k].1)
            } else {
                r is None
            },
            None => r matches Some(Err(e)) && apply_edits_error(text@, edits_view(edits@)) == Some(
                e.0@,
            ),
        },
{
    match edited_library(text, edits) {
        Ok((header, presets)) => {
            let mut k: usize = 0;
            while k < presets.len()
                invariant
                    k <= presets@.len(),
                    apply_edits_entries(text@, edits_view(edits@)) matches Some((h, out)) && out
                        == presets_view(presets@),
                    forall|j: int| 0 <= j < k ==> #[trigger] presets@[j].data@.len() <= usize::MAX
                        / 2,
                decreases presets@.len() - k,
            {
                if presets[k].data.len() > usize::MAX / 2 {
                    proof {
                        assert(presets_view(presets@)[k as int].1 == presets@[k as int].data@);
                        assert(presets_view(presets@)[k as int].1.len() > usize::MAX / 2);
                        assert(!entries_encodable(presets_view(presets@)));
                    }
                    return None;
                }
                k = k + 1;
            }
            proof {
                assert forall|j: int| 0 <= j < presets_view(presets@).len() implies #[trigger] presets_view(
                    presets@,
                )[j].1.len() <= usize::MAX / 2 by {
                    assert(presets_view(presets@)[j].1 == presets@[j].data@);
                }
            }
            Some(apply_edits(text, edits))
        },
        Err(e) => Some(Err(e)),
    }
}

/// The edited library's header and entries, refused with
/// `apply_edits_error`'s message.
fn edited_library(text: &str, edits: &[PresetEdit]) -> (r: Result<(String, Vec<Preset>)>)
    ensures
        match apply_edits_entries(text@, edits_view(edits@)) {
            Some((h, out)) => r matches Ok((hh, v)) && hh@ == h && presets_view(v@) == out,
            None => r matches Err(e) && apply_edits_error(text@, edits_view(edits@)) == Some(e.0@),
        },
{
    proof {
        lemma_apply_edits_error_complete(text@, edits_view(edits@));
    }
    let r = edited_entries(text, edits);
    r
}

/// The edited library's header and entries, refused with
/// `apply_edits_error`'s message where it gives one.
fn edited_entries(text: &str, edits: &[PresetEdit]) -> (r: Result<(String, Vec<Preset>)>)
    ensures
        match apply_edits_entries(text@, edits_view(edits@)) {
            Some((h, out)) => r matches Ok((hh, v)) && hh@ == h && presets_view(v@) == out,
            None => r is Err,
        },
        apply_edits_error(text@, edits_view(edits@)) matches Some(m) ==> (r matches Err(e) && e.0@
            == m),
{
    let lib = match crate::rpl::parse(text) {
        Ok(l) => l,
        Err(e) => {
            return Err(e);
        },
    };
    if edits.len() == 0 {
        return err("the edited library would contain no presets");
    }
    let ghost ps = presets_view(lib.presets@);
    let ghost ev = edits_view(edits@);
    let mut presets: Vec<Preset> = Vec::new();
    let mut i: usize = 0;
    assert(ev.subrange(0, ev.len() as int) =~= ev);
    while i < edits.len()
        invariant
            i <= edits@.len(),
            ps == presets_view(lib.presets@),
            ev == edits_view(edits@),
            ev.len() > 0,
            parse_spec(text@) == Some((lib.header@, ps)),
            apply_edits_entries(text@, ev) == match edited_presets(ps, ev) {
                Some(out) => Some((lib.header@, out)),
                None => None,
            },
            apply_edits_error(text@, ev) == edits_error(ps, ev.subrange(i as int, ev.len() as int)),
            edited_presets(ps, ev) == match edited_presets(ps, ev.subrange(i as int, ev.len() as int)) {
                Some(rest) => Some(presets_view(presets@) + rest),
                None => None,
            },
        decreases edits@.len() - i,
    {
        let ghost rest = ev.subrange(i as int, ev.len() as int);
        assert(rest[0] == (edits@[i as int].original_index as int, edits@[i as int].name@));
        assert(rest.drop_first() =~= ev.subrange(i + 1, ev.len() as int));
        let edit = &edits[i];
        if edit.original_index >= lib.presets.len() {
            let shown = unsigned_text(edit.original_index as u64);
            return Err(Error(message_with("preset index ", &shown, " is out of range")));
        }
        let source = &lib.presets[edit.original_index];
        let name = crate::rpl::trim_exec(&chars_of(edit.name.as_str()));
        if name.len() == 0 {
            let shown = chars_of(source.name.as_str());
            return Err(Error(message_with("preset '", &shown, "' would get an empty name")));
        }
        let source_name = chars_of(source.name.as_str());
        let ghost before = presets_view(presets@);
        if chars_eq(&name, &source_name) {
            presets.push(
                Preset {
                    name: string_of(&source_name),
                    data: vstd::slice::slice_to_vec(source.data.as_slice()),
                },
            );
        } else {
            let blob = match Blob::parse(source.data.as_slice(), source.name.as_str()) {
                Ok(b) => b,
                Err(e) => {
                    return Err(e);
                },
            };
            let new_name = string_of(&name);
            let data = blob.rebuild(blob.state_bytes(), new_name.as_str());
            presets.push(Preset { name: new_name, data });
        }
        proof {
            let p = edited_one(ps, rest[0].0, rest[0].1).unwrap();
            assert(presets_view(presets@) =~= before.push(p));
            match edited_presets(ps, rest.drop_first()) {
                Some(r2) => {
                    assert(before + (seq![p] + r2) =~= before.push(p) + r2);
                },
                None => {},
            }
        }
        i = i + 1;
    }
    assert(ev.subrange(i as int, ev.len() as int) =~= Seq::<(int, Seq<char>)>::empty());
    assert(presets_view(presets@) + Seq::<(Seq<char>, Seq<u8>)>::empty() =~= presets_view(presets@));
    Ok((lib.header, presets))
}


/// A name the RPL reader gives back as written: on one line, and lacking
/// one of the three quote characters.
pub open spec fn name_writable(n: Seq<char>) -> bool {
    &&& !crate::rpl::has_char(n, '\n')
    &&& (!crate::rpl::has_char(n, '`') || !crate::rpl::has_char(n, '"') || !crate::rpl::has_char(
        n,
        '\'',
    ))
}

/// An edited library reads back as its header and one entry per edit, in
/// edit order: the entry carries the trimmed new name, and is the preset
/// the edit points at (its data verbatim when the name is its own, else
/// its blob rebuilt under the new name). This holds when each trimmed new
/// name is on one line and lacks one of the quote characters, and each
/// entry's data is written as base64 that decodes back, as `apply_edits`
/// ensures.
pub proof fn lemma_edited_library_reads_back(text: Seq<char>, edits: Seq<(int, Seq<char>)>)
    requires
        apply_edits_entries(text, edits) matches Some((h, out)) && forall|k: int|
            0 <= k < out.len() ==> encodes_back(#[trigger] out[k].1),
        forall|k: int| 0 <= k < edits.len() ==> name_writable(trim(#[trigger] edits[k].1)),
    ensures
        ({
            let (h, out) = apply_edits_entries(text, edits).unwrap();
            let ps = parse_spec(text).unwrap().1;
            &&& parse_spec(write_spec(h, out)) == Some((h, out))
            &&& out.len() == edits.len()
            &&& forall|k: int|
                0 <= k < edits.len() ==> #[trigger] out[k] == edited_one(
                    ps,
                    edits[k].0,
                    edits[k].1,
                ).unwrap() && out[k].0 == trim(edits[k].1)
        }),
{
    let (h, out) = apply_edits_entries(text, edits).unwrap();
    let (h0, ps) = parse_spec(text).unwrap();
    lemma_edits_pointwise(ps, edits);
    crate::rpl::lemma_parsed_header_ok(text);
    assert forall|k: int| 0 <= k < out.len() implies crate::rpl::preset_ok(#[trigger] out[k]) by {
        assert(edited_one(ps, edits[k].0, edits[k].1) == Some(out[k]));
        assert(name_writable(trim(edits[k].1)));
    }
    crate::rpl::lemma_write_then_parse(h, out);
}

} // verus!
