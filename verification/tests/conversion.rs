use rplmaker_core::blob::{Blob, StateKind};
use rplmaker_core::convert::float_queries;
use rplmaker_core::edit::{apply_edits, apply_edits_checked, read_library, PresetEdit};
use rplmaker_core::files::CollectedFile;
use rplmaker_core::floats::FloatTexts;
use rplmaker_core::rpl::{self, Preset};
use rplmaker_core::valuetree::{self, Node, Value};
use rplmaker_core::{
    build_rpl, convert_files, convert_preset, load_template, ubjson, Error, FolderNaming,
};

const MAYER_HEADER: &str = "\"VST3: Archetype John Mayer X (Neural DSP)\"";
const MAYER_STATE: &str = "<?xml version=\"1.0\" encoding=\"UTF-8\"?>\n<appModel gain=\"0.5\" selectedAmp=\"1\" presetUid=\"abc\"><amp bass=\"3\" treble=\"7\"/></appModel>";

/// A REAPER VST3 preset blob around the given component state.
fn make_blob(component: &[u8], name: &str) -> Vec<u8> {
    let mut d = Vec::new();
    d.extend_from_slice(b"NDSP");
    d.extend_from_slice(&0xFEED_5EEEu32.to_le_bytes());
    d.extend_from_slice(&2u32.to_le_bytes());
    d.extend_from_slice(&[1, 0, 0, 0, 0, 0, 0, 0, 2, 0, 0, 0, 0, 0, 0, 0]);
    d.extend_from_slice(&2u32.to_le_bytes());
    d.extend_from_slice(&[1, 0, 0, 0, 0, 0, 0, 0, 2, 0, 0, 0, 0, 0, 0, 0]);
    let mut payload = Vec::new();
    payload.extend_from_slice(&0xFFFFu32.to_le_bytes());
    payload.extend_from_slice(&(component.len() as u32).to_le_bytes());
    payload.extend_from_slice(&1u32.to_le_bytes());
    payload.extend_from_slice(component);
    payload.extend_from_slice(&0u32.to_le_bytes());
    d.extend_from_slice(&(payload.len() as u32).to_le_bytes());
    d.extend_from_slice(&1u32.to_le_bytes());
    d.extend_from_slice(&payload);
    d.extend_from_slice(&[0, 0, 0, 0]);
    d.extend_from_slice(name.as_bytes());
    d.push(0);
    d.extend_from_slice(&[0x10, 0, 0, 0]);
    d
}

/// A JUCE "VC2!" component around XML text, with a private-data trailer.
fn xml_component(xml: &str) -> Vec<u8> {
    let mut c = b"VC2!".to_vec();
    c.extend_from_slice(&(xml.len() as u32).to_le_bytes());
    c.extend_from_slice(xml.as_bytes());
    c.extend_from_slice(b"\0JUCEPrivateData\0\x01\x02");
    c
}

fn library(header: &str, presets: &[(&str, Vec<u8>)]) -> String {
    let items: Vec<Preset> = presets
        .iter()
        .map(|(n, d)| Preset { name: n.to_string(), data: d.clone() })
        .collect();
    rpl::write(header, &items)
}

fn mayer_template_text() -> String {
    library(MAYER_HEADER, &[("Golden Gate", make_blob(&xml_component(MAYER_STATE), "Golden Gate"))])
}

fn mayer_library_text() -> String {
    let gravity_clean = MAYER_STATE.replace("gain=\"0.5\"", "gain=\"0.2\"");
    let gravity_lead = MAYER_STATE.replace("gain=\"0.5\"", "gain=\"0.9\"");
    library(
        MAYER_HEADER,
        &[
            ("Golden Gate", make_blob(&xml_component(MAYER_STATE), "Golden Gate")),
            ("Gravity Clean", make_blob(&xml_component(&gravity_clean), "Gravity Clean")),
            ("Gravity Lead", make_blob(&xml_component(&gravity_lead), "Gravity Lead")),
        ],
    )
}

/// A vendor preset file in XML form: a named root holding the state.
fn xml_preset_file(name: &str, gain: &str) -> Vec<u8> {
    format!(
        "<mayer name=\"{name}\"><appModel gain=\"{gain}\" selectedAmp=\"2\"><amp bass=\"4\" treble=\"6\"/></appModel></mayer>"
    )
    .into_bytes()
}

fn find(hay: &[u8], needle: &[u8]) -> Option<usize> {
    hay.windows(needle.len()).position(|w| w == needle)
}

fn s(v: &str) -> String {
    v.to_string()
}

fn no_floats() -> FloatTexts {
    FloatTexts::new()
}

#[test]
fn template_loads_even_when_entry_name_mismatches_footer() {
    // The RPL entry name and the blob's embedded name diverge.
    let mut lib = rpl::parse(&mayer_template_text()).unwrap();
    lib.presets[0].name = "Totally Renamed".to_string();
    let rewritten = rpl::write(&lib.header, &lib.presets);
    let t = load_template(&rewritten).unwrap_or_else(|_| {
        panic!("structural footer-name fallback should handle renamed entries")
    });
    assert_eq!(t.template_preset_name, "Totally Renamed");
    assert_eq!(t.state_root_name(), "appModel");
}

#[test]
fn xml_text_preset_files_are_accepted() {
    // The template's state is XML text; feeding that text back as a vendor
    // preset file exercises the XML reader end to end.
    let text = mayer_template_text();
    let template = load_template(&text).unwrap();
    let lib = rpl::parse(&text).unwrap();
    let blob = Blob::parse(&lib.presets[0].data, &lib.presets[0].name).unwrap();
    let converted = convert_preset(&template, &blob.state, "Golden Gate", &no_floats()).unwrap();
    assert_eq!(converted.name, "Golden Gate", "appModel has no name; fallback applies");
    assert_eq!(
        converted.data, lib.presets[0].data,
        "XML-text preset input must reproduce the blob byte-for-byte"
    );
}

#[test]
fn rejects_preset_from_a_different_plugin() {
    let template = load_template(&mayer_template_text()).unwrap();
    // A structurally valid tree whose node/property names match nothing:
    // node "zzz" with one string property, zero children.
    let alien = b"zzz\0\x01\x01nope\0\x01\x03\x05ok\0\0\0".to_vec();
    let result = convert_preset(&template, &alien, "alien", &no_floats());
    assert!(result.is_err(), "presets for other plugins must be rejected");
    // A preset with the state's root but none of its attributes.
    let empty = b"<mayer><appModel other=\"1\"/></mayer>".to_vec();
    let err = convert_preset(&template, &empty, "x", &no_floats()).err().unwrap();
    assert_eq!(err.message(), "no parameters matched the template; this preset file is probably for a different plugin");
    let bad_utf8 = b"\xef\xbb\xbf <mayer name=\"\xff\"/>".to_vec();
    let err = convert_preset(&template, &bad_utf8, "x", &no_floats()).err().unwrap();
    assert_eq!(err.message(), "the preset file's XML is not valid UTF-8");
}

#[test]
fn library_edits_reorder_rename_and_duplicate() {
    let text = mayer_library_text();
    let edit = |original_index: usize, name: &str| PresetEdit { original_index, name: name.to_string() };

    // Reverse order, rename one, duplicate another, drop the third.
    let edited = apply_edits(
        &text,
        &[edit(2, "Gravity Lead"), edit(0, "Golden Gate (Mayer)"), edit(0, "Golden Gate copy")],
    )
    .unwrap_or_else(|e| panic!("{}", e.message()));
    let lib = rpl::parse(&edited).unwrap();
    let names: Vec<_> = lib.presets.iter().map(|p| p.name.as_str()).collect();
    assert_eq!(names, ["Gravity Lead", "Golden Gate (Mayer)", "Golden Gate copy"]);

    // Untouched presets are copied verbatim; renamed ones carry the new
    // name inside the blob footer as well.
    let original = rpl::parse(&text).unwrap();
    assert_eq!(lib.presets[0].data, original.presets[2].data);
    let mut embedded = b"Golden Gate (Mayer)".to_vec();
    embedded.push(0);
    assert!(find(&lib.presets[1].data, &embedded).is_some(), "rename must reach the blob footer");

    // The edited library still works as a conversion template.
    assert!(load_template(&edited).is_ok(), "edited library must remain a valid template");

    // A no-op edit list reproduces the file byte-for-byte.
    let noop = apply_edits(
        &text,
        &[edit(0, "Golden Gate"), edit(1, "Gravity Clean"), edit(2, "Gravity Lead")],
    )
    .unwrap_or_else(|e| panic!("{}", e.message()));
    assert_eq!(noop, text);

    // Guard rails: empty library and empty names are refused.
    assert!(apply_edits(&text, &[]).is_err());
    assert!(apply_edits(&text, &[edit(0, "  ")]).is_err());
    assert!(apply_edits(&text, &[edit(9, "x")]).is_err());
    let message = |edits: &[PresetEdit]| apply_edits(&text, edits).err().map(|e| e.0);
    assert_eq!(message(&[]), Some(s("the edited library would contain no presets")));
    assert_eq!(message(&[edit(1, "ok"), edit(0, " \t")]), Some(s("preset 'Golden Gate' would get an empty name")));
    assert_eq!(message(&[edit(12, "x")]), Some(s("preset index 12 is out of range")));
}

#[test]
fn read_library_lists_names() {
    let info = read_library(&mayer_library_text()).unwrap_or_else(|e| panic!("{}", e.message()));
    assert_eq!(info.header, MAYER_HEADER);
    assert_eq!(info.names, [s("Golden Gate"), s("Gravity Clean"), s("Gravity Lead")]);
    assert!(read_library("not a library").is_err());
}

#[test]
fn converts_xml_preset_file_into_the_template_wrapper() {
    let template = load_template(&mayer_template_text()).unwrap();
    let file = xml_preset_file("Gravity Lead", "0.9");
    let converted = convert_preset(&template, &file, "fallback", &no_floats()).unwrap();
    assert_eq!(converted.name, "Gravity Lead");
    assert_eq!(converted.parameters_applied, 4);
    let blob = Blob::parse(&converted.data, "Gravity Lead").unwrap();
    assert!(matches!(blob.kind, StateKind::Xml));
    let state = String::from_utf8(blob.state.clone()).unwrap();
    assert_eq!(
        state,
        "<?xml version=\"1.0\" encoding=\"UTF-8\"?>\n<appModel gain=\"0.9\" selectedAmp=\"2\" presetUid=\"abc\"><amp bass=\"4\" treble=\"6\"/></appModel>"
    );
    // A UTF-8 byte-order mark and leading white space do not hide the XML.
    let mut noisy = b"\xef\xbb\xbf \r\n".to_vec();
    noisy.extend_from_slice(&file);
    let again = convert_preset(&template, &noisy, "fallback", &no_floats()).unwrap();
    assert_eq!(again.data, converted.data);
}

#[test]
fn built_rpl_parses_back_with_all_presets() {
    let template = load_template(&mayer_template_text()).unwrap();
    let converted: Vec<_> = [("Golden Gate", "0.5"), ("Gravity Clean", "0.2"), ("Gravity Lead", "0.9")]
        .iter()
        .map(|(n, g)| convert_preset(&template, &xml_preset_file(n, g), n, &no_floats()).unwrap())
        .collect();
    let out = build_rpl(&template, &converted);
    let parsed = rpl::parse(&out).unwrap();
    assert_eq!(parsed.header, template.library_header);
    let names: Vec<_> = parsed.presets.iter().map(|p| p.name.as_str()).collect();
    assert_eq!(names, ["Golden Gate", "Gravity Clean", "Gravity Lead"]);
    assert_eq!(parsed.presets[0].data, converted[0].data);
}

fn collected(path: &[&str], sub: Option<&[&str]>) -> CollectedFile {
    CollectedFile {
        path: path.iter().map(|p| s(p)).collect(),
        subfolder: sub.map(|c| c.iter().map(|p| s(p)).collect()),
    }
}

#[test]
fn batch_sorts_case_insensitively_and_marks_folder_starts() {
    // The files come out of the collector sorted case-insensitively:
    // Ambient, apple, Zebra.
    let inputs = vec![rplmaker_core::files::InputEntry {
        path: vec![s("batch")],
        dir_files: Some(vec![
            vec![s("batch"), s("Zebra.xml")],
            vec![s("batch"), s("Ambient"), s("Spacey"), s("deep.xml")],
            vec![s("batch"), s("apple.xml")],
            vec![s("batch"), s("Ambient"), s("dark Cave.xml")],
        ]),
    }];
    let collected_files = rplmaker_core::files::collect_preset_files(&inputs);
    let subfolders: Vec<_> = collected_files.iter().map(|f| f.subfolder.clone()).collect();
    assert_eq!(
        subfolders,
        [Some(vec![s("Ambient")]), Some(vec![s("Ambient"), s("Spacey")]), None, None]
    );
    let order: Vec<_> = collected_files.iter().map(|f| f.path.last().unwrap().as_str()).collect();
    assert_eq!(order, ["dark Cave.xml", "deep.xml", "apple.xml", "Zebra.xml"]);

    let files = vec![
        collected(&["batch", "Ambient", "dark Cave.xml"], Some(&["Ambient"])),
        collected(&["batch", "Ambient", "Spacey", "deep.xml"], Some(&["Ambient", "Spacey"])),
        collected(&["batch", "apple.xml"], None),
        collected(&["batch", "Zebra.xml"], None),
    ];
    let contents = || -> Vec<Result<Vec<u8>, Error>> {
        vec![
            Ok(xml_preset_file("Gravity Lead", "0.9")),
            Ok(xml_preset_file("Golden Gate", "0.5")),
            Ok(xml_preset_file("Golden Gate", "0.5")),
            Ok(xml_preset_file("Gravity Clean", "0.2")),
        ]
    };
    let template = load_template(&mayer_template_text()).unwrap();
    let flat = convert_files(&template, &files, &contents(), FolderNaming::Flat, &no_floats());
    assert!(flat.skipped.is_empty());
    let flat_names: Vec<_> = flat.presets.iter().map(|p| p.name.as_str()).collect();
    assert_eq!(flat_names, ["Gravity Lead", "Golden Gate", "Golden Gate", "Gravity Clean"]);

    let deepest = convert_files(&template, &files, &contents(), FolderNaming::Deepest, &no_floats());
    let deepest_names: Vec<_> = deepest.presets.iter().map(|p| p.name.as_str()).collect();
    assert_eq!(
        deepest_names,
        ["Ambient folder: Gravity Lead", "Spacey folder: Golden Gate", "Golden Gate", "Gravity Clean"],
        "deepest naming uses only the innermost folder name"
    );

    let full = convert_files(&template, &files, &contents(), FolderNaming::FullPath, &no_floats());
    let full_names: Vec<_> = full.presets.iter().map(|p| p.name.as_str()).collect();
    assert_eq!(
        full_names,
        ["Ambient folder: Gravity Lead", "Ambient, Spacey folder: Golden Gate", "Golden Gate", "Gravity Clean"],
        "full-path naming spells out nested folders"
    );

    // The marker name is embedded inside the blob footer as well.
    let mut embedded = b"Ambient folder: Gravity Lead".to_vec();
    embedded.push(0);
    assert!(find(&deepest.presets[0].data, &embedded).is_some(), "blob footer must carry the marker name");
    let out = build_rpl(&template, &deepest.presets);
    let reloaded = load_template(&out).unwrap_or_else(|_| panic!("a marker-converted RPL must itself load as a template"));
    assert_eq!(reloaded.library_header, template.library_header);
}

#[test]
fn batch_marker_waits_for_the_first_preset_that_converts() {
    let files = vec![
        collected(&["in", "Ambient", "broken.xml"], Some(&["Ambient"])),
        collected(&["in", "Ambient", "ok.xml"], Some(&["Ambient"])),
        collected(&["in", "Ambient", "unread.xml"], Some(&["Ambient"])),
    ];
    let contents: Vec<Result<Vec<u8>, Error>> = vec![
        Ok(b"zzz\0\x01\x01nope\0\x01\x03\x05ok\0\0\0".to_vec()),
        Ok(xml_preset_file("Gravity Lead", "0.9")),
        Err(Error(s("permission denied"))),
    ];
    let template = load_template(&mayer_template_text()).unwrap();
    let out = convert_files(&template, &files, &contents, FolderNaming::Deepest, &no_floats());
    let names: Vec<_> = out.presets.iter().map(|p| p.name.as_str()).collect();
    assert_eq!(names, ["Ambient folder: Gravity Lead"]);
    let skipped: Vec<_> = out.skipped.iter().map(|(i, _)| *i).collect();
    assert_eq!(skipped, [0, 2]);
    assert_eq!(out.skipped[1].1.message(), "permission denied");
}

#[test]
fn fallback_name_is_the_file_stem() {
    let files = vec![collected(&["in", "Spacey Pad.vstpreset"], None)];
    let unnamed = b"<mayer><appModel gain=\"0.1\"/></mayer>".to_vec();
    let template = load_template(&mayer_template_text()).unwrap();
    let out = convert_files(&template, &files, &[Ok(unnamed)], FolderNaming::Flat, &no_floats());
    assert_eq!(out.presets[0].name, "Spacey Pad");
    assert_eq!(out.presets[0].parameters_applied, 1);
}

// --- binary tree states ------------------------------------------------------

fn gojira_node() -> Node {
    let mut params = Vec::new();
    for i in 0..6 {
        params.push(Node {
            name: s("PARAM"),
            props: vec![(s("id"), Value::Str(format!("p{i}"))), (s("value"), Value::Double((i as f64 / 10.0).to_bits()))],
            children: vec![],
        });
    }
    Node {
        name: s("neural_dsp_gojira"),
        props: vec![
            (s("editorSize"), Value::Int(1)),
            (s("presetNameProp"), Value::Str(s("Default"))),
        ],
        children: params,
    }
}

fn gojira_template_text() -> String {
    let state = valuetree::write(&gojira_node());
    library(
        "\"VST3: Archetype Gojira (Neural DSP)\"",
        &[("Default", make_blob(&state, "Default"))],
    )
}

#[test]
fn gojira_valuetree_state_loads_as_template() {
    let template = load_template(&gojira_template_text()).unwrap_or_else(|_| panic!("tree template must load"));
    assert_eq!(template.library_header, "\"VST3: Archetype Gojira (Neural DSP)\"");
    assert_eq!(template.state_root_name(), "neural_dsp_gojira");
}

#[test]
fn gojira_self_conversion_reproduces_state() {
    let text = gojira_template_text();
    let lib = rpl::parse(&text).unwrap();
    let blob = Blob::parse(&lib.presets[0].data, &lib.presets[0].name).unwrap();
    let template = load_template(&text).unwrap();
    let converted = convert_preset(&template, &blob.state, "fallback unused", &no_floats()).unwrap();
    assert_eq!(converted.name, "Default");
    assert_eq!(converted.parameters_applied, 2 + 12);
    assert_eq!(converted.data, blob.rebuild(&blob.state, "Default"));
    assert_eq!(converted.data, lib.presets[0].data);
}

#[test]
fn tree_merge_reads_doubles_through_the_float_table() {
    let template = load_template(&gojira_template_text()).unwrap();
    // An XML preset file gives every value as text.
    let file = b"<neural_dsp_gojira editorSize=\"2\" presetNameProp=\"Heavy\"><PARAM id=\"p3\" value=\"0.75\"/></neural_dsp_gojira>".to_vec();
    let (bits, texts) = float_queries(&template, &file);
    assert!(bits.contains(&0.3f64.to_bits()));
    assert!(texts.contains(&s("0.75")));
    let floats = FloatTexts { shown: vec![], parsed: vec![(s("0.75"), 0.75f64.to_bits())] };
    let converted = convert_preset(&template, &file, "x", &floats).unwrap();
    assert_eq!(converted.name, "Heavy");
    let blob = Blob::parse(&converted.data, "Heavy").unwrap();
    let tree = valuetree::parse(&blob.state).unwrap();
    assert!(matches!(tree.prop("editorSize"), Some(Value::Int(2))));
    let p3 = &tree.children[3];
    assert!(matches!(p3.prop("value"), Some(Value::Double(b)) if *b == 0.75f64.to_bits()));
    // Without the table's answer, the template's own double is kept.
    let kept = convert_preset(&template, &file, "x", &no_floats()).unwrap();
    let tree = valuetree::parse(&Blob::parse(&kept.data, "Heavy").unwrap().state).unwrap();
    assert!(matches!(tree.children[3].prop("value"), Some(Value::Double(b)) if *b == 0.3f64.to_bits()));
}

// --- Universal Audio (UADx): UBJSON state, JSON preset files ---------------

fn ua_slot(payload: &[u8]) -> Vec<(String, ubjson::Value)> {
    vec![
        (s("preset_name"), ubjson::Value::Str(s("Default"))),
        (s("preset_uid"), ubjson::Value::Str(s("u0"))),
        (s("preset_dirty"), ubjson::Value::Bool(true)),
        (s("plugin_state_payload"), ubjson::Value::Bytes(payload.to_vec())),
    ]
}

fn ua_template_text() -> String {
    let payload = b"{\"controls\":{\"gain\":{\"real_value\":0},\"mix\":{\"real_value\":1}},\"ua_chunk_version\":1}\0";
    let mut members = ua_slot(payload);
    members.push((s("alternate_state"), ubjson::Value::Object(ua_slot(payload))));
    members.push((s("version"), ubjson::Value::Int { v: 3, ty: b'i' }));
    let state = ubjson::write(&ubjson::Value::Object(members));
    library("\"VST3: UADx Test Compressor (Universal Audio (UADx))\"", &[("Default", make_blob(&state, "Default"))])
}

#[test]
fn ua_template_loads_as_ubjson() {
    let template = load_template(&ua_template_text()).unwrap();
    assert!(template.library_header.contains("Universal Audio"), "header: {}", template.library_header);
    assert!(template.is_ubjson_state());
    assert!(!template.is_xml_state());
}

#[test]
fn converts_ua_factory_preset() {
    let template = load_template(&ua_template_text()).unwrap();
    let data = br#"{"chunk":{"controls":{"gain":{"real_value":0.5}},"ua_chunk_version":1},"name":" Vocal Butter ","plugin_id":"comp","uid":"u7","version":1}"#;
    let converted = convert_preset(&template, data, "fallback unused", &no_floats()).unwrap();
    assert_eq!(converted.name, "Vocal Butter");
    assert_eq!(converted.parameters_applied, 1);

    let reblob = Blob::parse(&converted.data, &converted.name).unwrap();
    let (state, _) = ubjson::parse(&reblob.state).unwrap();
    assert_eq!(state.get("preset_name").and_then(|v| v.as_str()), Some("Vocal Butter"));
    assert_eq!(state.get("preset_uid").and_then(|v| v.as_str()), Some("u7"));
    assert!(matches!(state.get("preset_dirty"), Some(ubjson::Value::Bool(false))));
    let payload = state.get("plugin_state_payload").and_then(|v| v.as_bytes()).unwrap();
    assert_eq!(payload.last(), Some(&0), "payload must stay null-terminated like the plugin's own");
    assert_eq!(&payload[..payload.len() - 1], br#"{"controls":{"gain":{"real_value":0.5}},"ua_chunk_version":1}"#);

    let alt = state.get("alternate_state").unwrap();
    assert_eq!(alt.get("preset_name").and_then(|v| v.as_str()), Some("Vocal Butter"));
    assert_eq!(alt.get("plugin_state_payload").and_then(|v| v.as_bytes()), Some(payload));
    assert!(matches!(state.get("version"), Some(ubjson::Value::Int { v: 3, .. })));
}

#[test]
fn rejects_ua_preset_with_foreign_controls() {
    let template = load_template(&ua_template_text()).unwrap();
    let alien = br#"{"chunk":{"controls":{"nonsense_knob":{"real_value":1}},"ua_chunk_version":1},"name":"Alien","plugin_id":"someone_else","uid":"x","version":1}"#;
    let result = convert_preset(&template, alien, "alien", &no_floats());
    assert!(result.is_err(), "a UA preset with unknown controls must be rejected");
    assert_eq!(
        result.err().unwrap().message(),
        "no controls matched the template; this UA preset file is probably for a different plugin"
    );
}

#[test]
fn ua_preset_without_a_name_takes_the_fallback() {
    let template = load_template(&ua_template_text()).unwrap();
    let data = br#"{"chunk":{"controls":{"mix":{"real_value":0.2}}},"name":"  "}"#;
    let converted = convert_preset(&template, data, "Drum Bus", &no_floats()).unwrap();
    assert_eq!(converted.name, "Drum Bus");
    // No uid in the file: the template's uid stays.
    let reblob = Blob::parse(&converted.data, "Drum Bus").unwrap();
    let (state, _) = ubjson::parse(&reblob.state).unwrap();
    assert_eq!(state.get("preset_uid").and_then(|v| v.as_str()), Some("u0"));
}

#[test]
fn load_template_errors() {
    // No presets at all.
    let empty = rpl::write(MAYER_HEADER, &[]);
    assert_eq!(load_template(&empty).err().unwrap().0, "the template RPL contains no presets");
    // XML state that is not UTF-8, and XML state with no element.
    let mut comp = b"VC2!".to_vec();
    comp.extend_from_slice(&4u32.to_le_bytes());
    comp.extend_from_slice(b"<\xff\xfe>");
    let lib = library(MAYER_HEADER, &[("X", make_blob(&comp, "X"))]);
    assert_eq!(load_template(&lib).err().unwrap().0, "the template's plugin state XML is not valid UTF-8");
    let lib = library(MAYER_HEADER, &[("X", make_blob(&xml_component("<?xml?>"), "X"))]);
    assert_eq!(load_template(&lib).err().unwrap().0, "cannot find the root element of the template state");
    // A blob that is not REAPER's VST3 format.
    let mut bad = make_blob(&xml_component(MAYER_STATE), "X");
    bad[4] = 0;
    assert!(load_template(&library(MAYER_HEADER, &[("X", bad)])).is_err());
    // Not a library.
    assert!(load_template("hello").is_err());
}

#[test]
fn rpl_writer_matches_reaper_formatting_exactly() {
    // REAPER's layout: CRLF lines, backquoted names, base64 in indented
    // lines of 128 characters.
    let data: Vec<u8> = (0u8..100).collect();
    let b64 = "AAECAwQFBgcICQoLDA0ODxAREhMUFRYXGBkaGxwdHh8gISIjJCUmJygpKissLS4vMDEyMzQ1Njc4OTo7PD0+P0BBQkNERUZHSElKS0xNTk9QUVJTVFVWV1hZWltcXV5f";
    let tail = "YGFiYw==";
    let text = format!(
        "<REAPER_PRESET_LIBRARY \"VST3: Test (Vendor)\"\r\n  <PRESET `Golden Gate`\r\n    {b64}\r\n    {tail}\r\n  >\r\n  <PRESET \"Back`tick\"\r\n    AQI=\r\n  >\r\n>\r\n"
    );
    let lib = rpl::parse(&text).unwrap();
    assert_eq!(lib.presets.len(), 2);
    assert_eq!(lib.presets[0].data, data);
    assert_eq!(lib.presets[1].name, "Back`tick");
    let rebuilt = rpl::write(&lib.header, &lib.presets);
    assert_eq!(rebuilt, text, "re-serializing REAPER's own RPL must be lossless");
}

#[test]
fn golden_gate_round_trips_byte_identical() {
    // Converting the preset file the template was captured from gives the
    // template's own blob back.
    let template = load_template(&mayer_template_text()).unwrap();
    let ground_truth = rpl::parse(&mayer_template_text()).unwrap();
    let file = b"<mayer name=\"Golden Gate\"><appModel gain=\"0.5\" selectedAmp=\"1\"><amp bass=\"3\" treble=\"7\"/></appModel></mayer>".to_vec();
    let converted = convert_preset(&template, &file, "fallback unused", &no_floats()).unwrap();
    assert_eq!(converted.name, "Golden Gate");
    assert_eq!(converted.parameters_applied, 4);
    assert_eq!(
        converted.data, ground_truth.presets[0].data,
        "converting the template's own source preset must reproduce the blob byte-for-byte"
    );
}

#[test]
fn gravity_presets_match_reaper_saved_state() {
    let template = load_template(&mayer_template_text()).unwrap();
    let ground_truth = rpl::parse(&mayer_library_text()).unwrap();
    for (file, gain, index) in [("Gravity Clean.xml", "0.2", 1), ("Gravity Lead.xml", "0.9", 2)] {
        let name = file.trim_end_matches(".xml");
        let data = format!(
            "<mayer name=\"{name}\"><appModel gain=\"{gain}\" selectedAmp=\"1\"><amp bass=\"3\" treble=\"7\"/></appModel></mayer>"
        );
        let converted = convert_preset(&template, data.as_bytes(), file, &no_floats()).unwrap();
        let expected = &ground_truth.presets[index];
        assert_eq!(converted.name, expected.name, "{file}: preset name");
        assert_eq!(converted.data, expected.data, "{file}: parameter state must match what REAPER captured");
    }
}

#[test]
fn ampbox_template_self_conversion_is_byte_identical() {
    // APVTS-style state: every parameter is a PARAM element told apart only
    // by its id attribute.
    let state = "<?xml version=\"1.0\" encoding=\"UTF-8\"?>\n<Euphoria version=\"2\"><PARAM id=\"drive\" value=\"0.5\"/><PARAM id=\"level\" value=\"0.8\"/><PARAM id=\"tone\" value=\"0.1\"/></Euphoria>";
    let text = library(
        "\"VST3: Ampbox (Mercuriall)\"",
        &[("Default settings", make_blob(&xml_component(state), "Default settings"))],
    );
    let template = load_template(&text).unwrap_or_else(|_| panic!("Ampbox template must load"));
    assert_eq!(template.library_header, "\"VST3: Ampbox (Mercuriall)\"");
    let lib = rpl::parse(&text).unwrap();
    let blob = Blob::parse(&lib.presets[0].data, &lib.presets[0].name).unwrap();
    let converted = convert_preset(&template, &blob.state, "Default settings", &no_floats()).unwrap();
    assert_eq!(converted.parameters_applied, 7);
    assert_eq!(
        converted.data, lib.presets[0].data,
        "feeding the template's own XML back must reproduce the blob byte-for-byte"
    );
    // Ids decide the pairing, not the order.
    let reordered = "<Euphoria version=\"3\"><PARAM id=\"tone\" value=\"0.9\"/><PARAM id=\"drive\" value=\"0.4\"/></Euphoria>";
    let converted = convert_preset(&template, reordered.as_bytes(), "Reordered", &no_floats()).unwrap();
    let state = String::from_utf8(Blob::parse(&converted.data, "Reordered").unwrap().state).unwrap();
    assert!(state.ends_with("<Euphoria version=\"3\"><PARAM id=\"drive\" value=\"0.4\"/><PARAM id=\"level\" value=\"0.8\"/><PARAM id=\"tone\" value=\"0.9\"/></Euphoria>"), "{state}");
}

#[test]
fn ua_batch_builds_a_loadable_library() {
    let template = load_template(&ua_template_text()).unwrap();
    let names = ["Acoustic Shimmer", "Default", "Drum Bus Master Tape", "Vocal Butter"];
    let converted: Vec<_> = names
        .iter()
        .map(|n| {
            let data = format!("{{\"chunk\":{{\"controls\":{{\"mix\":{{\"real_value\":0.3}}}}}},\"name\":\"{n}\",\"uid\":\"x\"}}");
            convert_preset(&template, data.as_bytes(), "f", &no_floats()).unwrap()
        })
        .collect();
    let out = build_rpl(&template, &converted);
    let parsed = rpl::parse(&out).unwrap();
    assert_eq!(parsed.header, template.library_header);
    let got: Vec<_> = parsed.presets.iter().map(|p| p.name.as_str()).collect();
    assert_eq!(got, names);
    for p in &parsed.presets {
        assert!(Blob::parse(&p.data, &p.name).is_ok(), "each converted UA preset must be a valid blob");
    }
}

#[test]
fn ubjson_round_trips_template_state_byte_identical() {
    let lib = rpl::parse(&ua_template_text()).unwrap();
    let blob = Blob::parse(&lib.presets[0].data, &lib.presets[0].name).unwrap();
    assert!(matches!(blob.kind, StateKind::Ubjson));
    let (value, len) = ubjson::parse(&blob.state).unwrap();
    assert_eq!(len, blob.state.len(), "the UBJSON must consume the whole state");
    assert_eq!(ubjson::write(&value), blob.state, "re-writing a parsed UA state must reproduce it byte-for-byte");
}

#[test]
fn parses_valuetree_metadata() {
    let tags: Vec<Node> = (0..7)
        .map(|i| Node { name: s("tag"), props: vec![(s("value"), Value::Str(format!("t{i}")))], children: vec![] })
        .collect();
    let tree = Node {
        name: s("mayer"),
        props: vec![(s("name"), Value::Str(s("Golden Gate")))],
        children: vec![
            Node { name: s("tags"), props: vec![], children: tags },
            Node { name: s("appModel"), props: vec![(s("selectedAmp"), Value::Int(1))], children: vec![] },
        ],
    };
    let data = valuetree::write(&tree);
    let vt = valuetree::parse(&data).unwrap();
    assert_eq!(vt.name, "mayer");
    assert_eq!(vt.prop("name").unwrap().as_text(&no_floats()), "Golden Gate");
    let tags = vt.child("tags").expect("tags node");
    assert_eq!(tags.children.len(), 7);
    let app = vt.child("appModel").expect("appModel node");
    assert_eq!(app.prop("selectedAmp").unwrap().as_text(&no_floats()), "1");
}

#[test]
fn valuetree_writer_round_trips_vendor_files() {
    for level in [1, 300, -5] {
        let tree = Node {
            name: s("mayer"),
            props: vec![(s("level"), Value::Int(level)), (s("on"), Value::Bool(level > 0))],
            children: vec![gojira_node()],
        };
        let data = valuetree::write(&tree);
        let parsed = valuetree::parse(&data).unwrap();
        assert_eq!(valuetree::write(&parsed), data, "{level}: parse + write must reproduce the file byte-for-byte");
    }
}

#[test]
fn checked_edits_match_the_plain_edits() {
    let text = mayer_library_text();
    let edit = |original_index: usize, name: &str| PresetEdit { original_index, name: name.to_string() };
    let edits = [edit(1, "Clean Renamed"), edit(2, "Gravity Lead")];
    let plain = apply_edits(&text, &edits).unwrap_or_else(|e| panic!("{}", e.message()));
    let checked = apply_edits_checked(&text, &edits)
        .expect("small libraries fit the encoder")
        .unwrap_or_else(|e| panic!("{}", e.message()));
    assert_eq!(plain, checked);
    let refused = apply_edits_checked(&text, &[edit(7, "x")]).expect("refusals are reported");
    assert_eq!(refused.err().map(|e| e.0), Some(s("preset index 7 is out of range")));
}

#[test]
fn batch_breaks_only_where_a_file_reaches_a_merge_that_cannot_walk_the_template() {
    let state = "<appModel gain=\"0.5\" caf\u{e9}=\"1\"><amp bass=\"3\"/></appModel>";
    let text = library(MAYER_HEADER, &[("Golden Gate", make_blob(&xml_component(state), "Golden Gate"))]);
    let template = load_template(&text).unwrap();
    let readable: Vec<Result<Vec<u8>, Error>> = vec![Ok(b"not a preset".to_vec()), Ok(xml_preset_file("A", "0.1"))];
    let unreadable: Vec<Result<Vec<u8>, Error>> = vec![Ok(b"not a preset".to_vec()), Err(Error(s("gone")))];
    assert!(rplmaker_core::convert::batch_would_break(&template, &readable));
    assert!(!rplmaker_core::convert::batch_would_break(&template, &unreadable));
    let plain = load_template(&mayer_template_text()).unwrap();
    assert!(!rplmaker_core::convert::batch_would_break(&plain, &readable));
}
