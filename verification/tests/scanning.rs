use rplmaker_core::extract::{extract_embedded_presets, extracted_file_name};
use rplmaker_core::files::{collect_preset_files, file_stem, is_candidate, sort_files, temp_path, CollectedFile, InputEntry};
use rplmaker_core::floats::FloatTexts;
use rplmaker_core::rpl::{self, Preset};
use rplmaker_core::valuetree::{self, Node, Value};
use rplmaker_core::{convert_preset, load_template};

fn s(v: &str) -> String {
    v.to_string()
}

fn path(p: &[&str]) -> Vec<String> {
    p.iter().map(|c| s(c)).collect()
}

fn make_blob(component: &[u8], name: &str) -> Vec<u8> {
    let mut d = Vec::new();
    d.extend_from_slice(b"MERC");
    d.extend_from_slice(&0xFEED_5EEEu32.to_le_bytes());
    d.extend_from_slice(&0u32.to_le_bytes());
    d.extend_from_slice(&0u32.to_le_bytes());
    let mut payload = Vec::new();
    payload.extend_from_slice(&0xFFFFu32.to_le_bytes());
    payload.extend_from_slice(&(component.len() as u32).to_le_bytes());
    payload.extend_from_slice(&1u32.to_le_bytes());
    payload.extend_from_slice(component);
    payload.extend_from_slice(&0u32.to_le_bytes());
    d.extend_from_slice(&(payload.len() as u32).to_le_bytes());
    d.extend_from_slice(&1u32.to_le_bytes());
    d.extend_from_slice(&payload);
    d.extend_from_slice(&[0]);
    d.extend_from_slice(name.as_bytes());
    d.push(0);
    d
}

const AMPBOX_STATE: &str = "<?xml version=\"1.0\" encoding=\"UTF-8\"?>\n<Euphoria page_id=\"1\"><PARAM id=\"drive\" value=\"0.5\"/><PARAM id=\"level\" value=\"0.8\"/></Euphoria>";

fn ampbox_template() -> String {
    let mut comp = b"VC2!".to_vec();
    comp.extend_from_slice(&(AMPBOX_STATE.len() as u32).to_le_bytes());
    comp.extend_from_slice(AMPBOX_STATE.as_bytes());
    comp.extend_from_slice(b"\0private");
    rpl::write(
        "\"VST3: Ampbox (Mercuriall)\"",
        &[Preset { name: s("Default settings"), data: make_blob(&comp, "Default settings") }],
    )
}

#[test]
fn embedded_scan_finds_xml_states_and_skips_truncated_ones() {
    let template = load_template(&ampbox_template()).unwrap();
    assert_eq!(template.state_root_name(), "Euphoria");
    let state = AMPBOX_STATE.to_string();
    let mutated = state.replace("page_id=\"1\"", "page_id=\"2\"");
    assert_ne!(state, mutated, "mutation must change the document");

    // Noise, one state, padding, a mutated copy, an exact duplicate, then a
    // truncated document that runs into another copy.
    let mut binary = Vec::new();
    binary.extend_from_slice(&[0u8; 64]);
    binary.extend_from_slice(b"noise");
    binary.extend_from_slice(state.as_bytes());
    binary.extend_from_slice(&[0u8; 16]);
    binary.extend_from_slice(mutated.as_bytes());
    binary.extend_from_slice(state.as_bytes());
    binary.extend_from_slice(b"<Euphoria truncated=\"1\" ");
    binary.extend_from_slice(state.as_bytes());

    let docs = extract_embedded_presets(&template, &binary);
    assert_eq!(docs.len(), 2, "one original, one mutated; duplicate and truncated skipped");
    assert!(docs[0].starts_with(b"<Euphoria page_id=\"1\""));
    assert!(docs[1].starts_with(b"<Euphoria page_id=\"2\""));
    assert_ne!(docs[0], docs[1]);
    for doc in &docs {
        convert_preset(&template, doc, "scanned", &FloatTexts::new()).unwrap_or_else(|e| panic!("scanned docs must convert: {}", e.message()));
    }
}

fn big_tree(level: i32) -> Node {
    let mut kids = Vec::new();
    for i in 0..4 {
        kids.push(Node {
            name: s("PARAM"),
            props: vec![(s("id"), Value::Str(format!("param{i}"))), (s("value"), Value::Int(i))],
            children: vec![],
        });
    }
    Node {
        name: s("neural_dsp_gojira"),
        props: vec![(s("editorSize"), Value::Int(level)), (s("presetNameProp"), Value::Str(s("Default")))],
        children: kids,
    }
}

#[test]
fn embedded_scan_finds_valuetree_states() {
    let state = valuetree::write(&big_tree(1));
    assert!(state.len() >= 64);
    let text = rpl::write(
        "\"VST3: Archetype Gojira (Neural DSP)\"",
        &[Preset { name: s("Default"), data: make_blob(&state, "Default") }],
    );
    let template = load_template(&text).unwrap();
    assert_eq!(template.state_root_name(), "neural_dsp_gojira");
    let mutated = valuetree::write(&big_tree(3));

    let mut binary = Vec::new();
    binary.extend_from_slice(b"junk");
    binary.extend_from_slice(&state);
    binary.extend_from_slice(&[0u8; 32]);
    binary.extend_from_slice(&mutated);
    binary.extend_from_slice(&state);

    let docs = extract_embedded_presets(&template, &binary);
    assert_eq!(docs.len(), 2);
    assert_eq!(docs[0], state);
    assert_eq!(docs[1], mutated);
    for doc in &docs {
        convert_preset(&template, doc, "scanned", &FloatTexts::new()).unwrap_or_else(|e| panic!("scanned trees must convert: {}", e.message()));
    }
}

#[test]
fn extracted_files_are_named_by_position() {
    assert_eq!(extracted_file_name("Ampbox", 0, 7), "Ampbox 001.xml");
    assert_eq!(extracted_file_name("Ampbox", 41, 120), "Ampbox 042.xml");
    assert_eq!(extracted_file_name("Big", 9, 1234), "Big 0010.xml");
}

#[test]
fn collects_candidates_sorted_case_insensitively() {
    let inputs = vec![
        InputEntry {
            path: path(&["batch"]),
            dir_files: Some(vec![
                path(&["batch", "Zebra.xml"]),
                path(&["batch", "apple.xml"]),
                path(&["batch", "old output.RPL"]),
                path(&["batch", "Ambient", "dark Cave.xml"]),
                path(&["batch", "Ambient", "Spacey", "deep.xml"]),
            ]),
        },
        InputEntry { path: path(&["loose", "Single.vstpreset"]), dir_files: None },
        InputEntry { path: path(&["template.rpl"]), dir_files: None },
    ];
    let files = collect_preset_files(&inputs);
    let paths: Vec<_> = files.iter().map(|f| f.path.join("/")).collect();
    assert_eq!(
        paths,
        ["batch/Ambient/dark Cave.xml", "batch/Ambient/Spacey/deep.xml", "batch/apple.xml", "batch/Zebra.xml", "loose/Single.vstpreset"]
    );
    let subfolders: Vec<_> = files.iter().map(|f| f.subfolder.clone()).collect();
    assert_eq!(
        subfolders,
        [Some(vec![s("Ambient")]), Some(vec![s("Ambient"), s("Spacey")]), None, None, None]
    );
}

#[test]
fn path_names_follow_std_rules() {
    assert_eq!(file_stem(&path(&["dir", "Golden Gate.xml"])), Some(s("Golden Gate")));
    assert_eq!(file_stem(&path(&["dir", ".hidden"])), Some(s(".hidden")));
    assert_eq!(file_stem(&path(&["dir", "a.b.c"])), Some(s("a.b")));
    assert_eq!(file_stem(&path(&[".."])), None);
    assert!(is_candidate(&path(&["x", "preset.xml"])));
    assert!(is_candidate(&path(&["x", "preset"])));
    assert!(!is_candidate(&path(&["x", "Library.RpL"])));
    assert_eq!(temp_path(&path(&["dir", "lib.RPL"])), path(&["dir", "lib.RPL.tmp"]));
    assert_eq!(temp_path(&path(&[])), path(&["output.tmp"]));
}

#[test]
fn sorting_is_stable_for_equal_keys() {
    let files = vec![
        CollectedFile { path: path(&["B.xml"]), subfolder: None },
        CollectedFile { path: path(&["a.xml"]), subfolder: Some(vec![s("first")]) },
        CollectedFile { path: path(&["A.xml"]), subfolder: Some(vec![s("second")]) },
    ];
    let sorted = sort_files(files);
    let order: Vec<_> = sorted.iter().map(|f| f.path[0].as_str()).collect();
    assert_eq!(order, ["a.xml", "A.xml", "B.xml"]);
}
