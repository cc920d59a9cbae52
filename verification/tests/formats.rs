use rplmaker_core::blob::{Blob, StateKind};
use rplmaker_core::floats::FloatTexts;
use rplmaker_core::json::{self, Json};
use rplmaker_core::rpl::{self, Preset};
use rplmaker_core::valuetree::{self, Node, Value};
use rplmaker_core::{treemerge, uapreset, ubjson, xmlmerge, xmlread};

fn s(v: &str) -> String {
    v.to_string()
}

fn make_blob(component: &[u8], name: &str) -> Vec<u8> {
    let mut d = Vec::new();
    d.extend_from_slice(b"NDSP");
    d.extend_from_slice(&0xFEED_5EEEu32.to_le_bytes());
    d.extend_from_slice(&1u32.to_le_bytes());
    d.extend_from_slice(&[3, 0, 0, 0, 0, 0, 0, 0]);
    d.extend_from_slice(&0u32.to_le_bytes());
    let mut payload = Vec::new();
    payload.extend_from_slice(&0xFFFFu32.to_le_bytes());
    payload.extend_from_slice(&(component.len() as u32).to_le_bytes());
    payload.extend_from_slice(&1u32.to_le_bytes());
    payload.extend_from_slice(component);
    payload.extend_from_slice(&0u32.to_le_bytes());
    d.extend_from_slice(&(payload.len() as u32).to_le_bytes());
    d.extend_from_slice(&1u32.to_le_bytes());
    d.extend_from_slice(&payload);
    d.extend_from_slice(&[0, 0]);
    d.extend_from_slice(name.as_bytes());
    d.push(0);
    d.extend_from_slice(&[0x0a, 0]);
    d
}

fn xml_component(xml: &str) -> Vec<u8> {
    let mut c = b"VC2!".to_vec();
    c.extend_from_slice(&(xml.len() as u32).to_le_bytes());
    c.extend_from_slice(xml.as_bytes());
    c.extend_from_slice(b"\0trailer");
    c
}

// --- RPL ----------------------------------------------------------------------

#[test]
fn rpl_write_then_parse_gives_the_library_back() {
    let presets = vec![
        Preset { name: s("Plain"), data: (0u8..=255).collect() },
        Preset { name: s("With \"quotes\""), data: vec![1, 2, 3] },
        Preset { name: s("Empty"), data: vec![] },
    ];
    let text = rpl::write("\"VST3: Test (Vendor)\"", &presets);
    let lib = rpl::parse(&text).unwrap();
    assert_eq!(lib.header, "\"VST3: Test (Vendor)\"");
    assert_eq!(lib.presets.len(), 3);
    for (a, b) in lib.presets.iter().zip(presets.iter()) {
        assert_eq!(a.name, b.name);
        assert_eq!(a.data, b.data);
    }
    // Re-serializing what was read reproduces the text exactly.
    assert_eq!(rpl::write(&lib.header, &lib.presets), text);
}

#[test]
fn rpl_writer_uses_base64_lines() {
    let text = rpl::write("\"H\"", &[Preset { name: s("A"), data: vec![0, 1, 2] }]);
    assert!(text.starts_with("<REAPER_PRESET_LIBRARY \"H\"\r\n"), "{text:?}");
    assert!(text.contains("AAEC"), "the blob is written in standard base64: {text:?}");
    assert!(text.ends_with(">\r\n"));
}

#[test]
fn rpl_parse_refuses_bad_input() {
    assert!(rpl::parse("").is_err());
    assert!(rpl::parse("<SOMETHING_ELSE \"x\"\r\n>\r\n").is_err());
    let bad_b64 = "<REAPER_PRESET_LIBRARY \"H\"\r\n  <PRESET `A`\r\n    !!!!\r\n  >\r\n>\r\n";
    assert!(rpl::parse(bad_b64).is_err());
}

// --- blob ---------------------------------------------------------------------

#[test]
fn blob_parse_then_rebuild_reproduces_the_blob() {
    let xml = "<?xml version=\"1.0\"?>\n<Euphoria gain=\"1\"/>";
    let data = make_blob(&xml_component(xml), "Init");
    let blob = Blob::parse(&data, "Init").unwrap();
    assert!(matches!(blob.kind, StateKind::Xml));
    assert_eq!(blob.state, xml.as_bytes());
    assert_eq!(blob.rebuild(&blob.state, "Init"), data);
}

#[test]
fn blob_rename_keeps_the_state_and_shifts_lengths() {
    let xml = "<Euphoria gain=\"1\"/>";
    let data = make_blob(&xml_component(xml), "Init");
    let blob = Blob::parse(&data, "Init").unwrap();
    let longer = "<Euphoria gain=\"1\" extra=\"yes\"/>";
    let rebuilt = blob.rebuild(longer.as_bytes(), "Renamed preset");
    assert_eq!(rebuilt, make_blob(&xml_component(longer), "Renamed preset"));
    let again = Blob::parse(&rebuilt, "Renamed preset").unwrap();
    assert_eq!(again.state, longer.as_bytes());
}

#[test]
fn blob_parse_refuses_other_formats() {
    let mut data = make_blob(&xml_component("<a/>"), "x");
    data[5] = 0;
    assert!(Blob::parse(&data, "x").is_err(), "wrong magic");
    let data = make_blob(&xml_component("<a/>"), "x");
    assert!(Blob::parse(&data[..20], "x").is_err(), "truncated");
    let data = make_blob(b"garbage bytes that are no state at all", "x");
    assert!(Blob::parse(&data, "x").is_err(), "unrecognized state");
    let message = |data: &[u8], name: &str| Blob::parse(data, name).err().unwrap().0;
    let good = make_blob(&xml_component("<a/>"), "x");
    let mut bad = good.clone();
    bad[5] = 0;
    assert_eq!(
        message(&bad, "x"),
        "the template preset is not in REAPER's VST3 format; save the template from the VST3 version of the plugin"
    );
    let mut bad = good.clone();
    bad[9] = 0xff;
    assert_eq!(message(&bad, "x"), "implausible input channel count in template preset");
    assert_eq!(message(&good[..6], "x"), "template preset blob is truncated");
    assert_eq!(
        message(&make_blob(b"VC2!\x09\0\0\0no xml at all", "x"), "x"),
        "template plugin state does not look like XML"
    );
    assert_eq!(
        message(&make_blob(b"{ not ubjson", "x"), "x"),
        "the plugin's state opens like UBJSON but could not be parsed; this plugin needs its own converter support"
    );
    let mut no_name = good.clone();
    let n = no_name.len();
    no_name[n - 4] = 0x01;
    assert_eq!(
        message(&no_name, "x"),
        "could not find a preset name in the template footer (expected 'x')"
    );
}

// --- JSON ---------------------------------------------------------------------

#[test]
fn json_reads_objects_and_keeps_raw_members() {
    let text = r#" { "name" : "Vocal \"Butter\"", "chunk": {"controls": {"a": {"v": 1.5e0}, "b": []}}, "n": -2 } "#;
    let v = json::parse(text).unwrap();
    assert_eq!(v.get("name").and_then(|x| x.as_str()), Some("Vocal \"Butter\""));
    let chunk = v.get("chunk").unwrap();
    assert_eq!(chunk.get("controls").unwrap().keys(), ["a", "b"]);
    assert!(matches!(v.get("n"), Some(Json::Num(t)) if t == "-2"));
    let members = json::object_members_raw(text).unwrap();
    let keys: Vec<_> = members.iter().map(|(k, _)| k.as_str()).collect();
    assert_eq!(keys, ["name", "chunk", "n"]);
    assert_eq!(members[1].1, r#"{"controls": {"a": {"v": 1.5e0}, "b": []}}"#);
    assert!(json::parse("{\"a\": }").is_err());
    assert!(json::parse("[1, 2,]").is_err());
    assert!(json::parse("01").is_ok(), "numbers follow Rust's float syntax");
    assert!(json::parse("1e").is_err());
    assert!(json::object_members_raw("[1]").is_err());
}

#[test]
fn raw_member_texts_parse_to_the_members() {
    let text = "\n{ \"a\" : [1, {\"b\": \"x\\u00e9\"}] ,\t\"c\":-2.5e3,\"d\":{} }";
    let v = json::parse(text).unwrap();
    let members = json::object_members_raw(text).unwrap();
    let keys: Vec<_> = members.iter().map(|(k, _)| k.as_str()).collect();
    assert_eq!(keys, v.keys());
    assert_eq!(members[0].1, "[1, {\"b\": \"x\\u00e9\"}]");
    assert_eq!(members[1].1, "-2.5e3");
    assert_eq!(members[2].1, "{}");
    for (key, raw) in &members {
        assert!(text.contains(raw.as_str()));
        assert_eq!(raw.trim(), raw);
        let alone = json::parse(raw).unwrap();
        assert_eq!(format!("{:?}", alone), format!("{:?}", v.get(key).unwrap()));
    }
}

// --- UA preset files ----------------------------------------------------------

#[test]
fn ua_preset_detection_and_fields() {
    let data = "\u{feff} {\"chunk\":{\"controls\":{\"k\":{}}},\"name\":\"N\",\"uid\":\"U\",\"plugin_id\":\"P\"}";
    assert!(uapreset::looks_like(data.as_bytes()));
    assert!(!uapreset::looks_like(b"<xml/>"));
    // The reader itself takes no byte-order mark.
    assert!(uapreset::parse(data.as_bytes()).is_err());
    let p = uapreset::parse(data.trim_start_matches('\u{feff}').as_bytes()).unwrap();
    assert_eq!(p.name, "N");
    assert_eq!(p.uid, "U");
    assert_eq!(p.plugin_id, "P");
    assert_eq!(p.chunk_json, "{\"controls\":{\"k\":{}}}");
    assert_eq!(p.control_keys, [s("k")]);
    let message = |d: &[u8]| uapreset::parse(d).err().unwrap().0;
    assert_eq!(message(b"{\"name\":\"no chunk\"}"), "this UA preset file has no \"chunk\"");
    assert_eq!(message(b"{\"chunk\":{\"controls\":{}}}"), "this UA preset file has no controls; it is probably not a preset");
    assert_eq!(message(b"{\"chunk\":{\"controls\":{\"k\":1}},\"name\":3}"), "UA preset \"name\" is not a string");
    assert_eq!(message(b"{\"chunk\":{},\"name\":\"\xff\"}"), "the UA preset file is not valid UTF-8");
}

// --- UBJSON -------------------------------------------------------------------

#[test]
fn ubjson_write_then_parse_gives_the_value_back() {
    let value = ubjson::Value::Object(vec![
        (s("n"), ubjson::Value::Null),
        (s("t"), ubjson::Value::Bool(true)),
        (s("i8"), ubjson::Value::Int { v: -5, ty: b'i' }),
        (s("u8"), ubjson::Value::Int { v: 200, ty: b'U' }),
        (s("i32"), ubjson::Value::Int { v: 100000, ty: b'l' }),
        (s("f"), ubjson::Value::Float64(2.5f64.to_bits())),
        (s("s"), ubjson::Value::Str(s("héllo"))),
        (s("b"), ubjson::Value::Bytes(vec![1, 2, 0])),
        (s("a"), ubjson::Value::Array(vec![ubjson::Value::Int { v: 1, ty: b'i' }])),
    ]);
    let bytes = ubjson::write(&value);
    assert_eq!(bytes[0], b'{');
    let (back, len) = ubjson::parse(&bytes).unwrap();
    assert_eq!(len, bytes.len());
    assert_eq!(ubjson::write(&back), bytes);
    assert!(matches!(back.get("i32"), Some(ubjson::Value::Int { v: 100000, .. })));
    assert_eq!(back.get("s").and_then(|v| v.as_str()), Some("héllo"));
    assert_eq!(back.get("b").and_then(|v| v.as_bytes()).map(|b| b.as_slice()), Some(&[1u8, 2, 0][..]));
    assert!(ubjson::parse(&bytes[..bytes.len() - 1]).is_err());
}

#[test]
fn ubjson_set_replaces_only_existing_members() {
    let mut v = ubjson::Value::Object(vec![(s("a"), ubjson::Value::Bool(true))]);
    assert!(v.set("a", ubjson::Value::Bool(false)));
    assert!(!v.set("missing", ubjson::Value::Null));
    assert!(matches!(v.get("a"), Some(ubjson::Value::Bool(false))));
    assert!(v.get("missing").is_none());
    assert_eq!(v.members().map(|m| m.len()), Some(1));
}

// --- binary trees -------------------------------------------------------------

fn sample_tree() -> Node {
    Node {
        name: s("mayer"),
        props: vec![
            (s("name"), Value::Str(s("Golden Gate"))),
            (s("big"), Value::Int64(-1 << 40)),
            (s("on"), Value::Bool(true)),
            (s("level"), Value::Double(0.25f64.to_bits())),
            (s("v"), Value::Void),
        ],
        children: vec![
            Node { name: s("tags"), props: vec![], children: vec![] },
            Node {
                name: s("appModel"),
                props: vec![(s("selectedAmp"), Value::Int(1))],
                children: vec![],
            },
        ],
    }
}

#[test]
fn valuetree_write_then_parse_gives_the_tree_back() {
    let tree = sample_tree();
    let bytes = valuetree::write(&tree);
    let back = valuetree::parse(&bytes).unwrap();
    assert_eq!(back.name, "mayer");
    assert_eq!(valuetree::write(&back), bytes);
    let (_, len) = valuetree::parse_with_len(&bytes).unwrap();
    assert_eq!(len, bytes.len());
    let floats = FloatTexts { shown: vec![(0.25f64.to_bits(), s("0.25"))], parsed: vec![] };
    assert_eq!(back.prop("name").unwrap().as_text(&floats), "Golden Gate");
    assert_eq!(back.prop("big").unwrap().as_text(&floats), "-1099511627776");
    assert_eq!(back.prop("on").unwrap().as_text(&floats), "true");
    assert_eq!(back.prop("level").unwrap().as_text(&floats), "0.25");
    let app = back.child("appModel").expect("appModel node");
    assert_eq!(app.prop("selectedAmp").unwrap().as_text(&floats), "1");
    assert!(valuetree::find_node(&back, "appModel").is_some());
    assert!(valuetree::find_node(&back, "nothing").is_none());
    assert!(valuetree::parse(b"<xml/>").is_err(), "XML text belongs to the XML reader");
}

#[test]
fn tree_merge_keeps_the_template_shape() {
    let template = sample_tree();
    let mut source = sample_tree();
    source.props = vec![(s("on"), Value::Str(s("false"))), (s("unknown"), Value::Int(3))];
    source.children.truncate(1);
    let (bytes, stats) = treemerge::merge(&template, &source, &FloatTexts::new()).unwrap();
    assert_eq!(stats.overridden, 1);
    let merged = valuetree::parse(&bytes).unwrap();
    assert_eq!(merged.props.len(), template.props.len());
    assert!(matches!(merged.prop("on"), Some(Value::Bool(false))));
    assert!(matches!(merged.prop("big"), Some(Value::Int64(v)) if *v == -1 << 40));
    assert_eq!(merged.children.len(), 2);
    let other = Node { name: s("other"), props: vec![], children: vec![] };
    let err = treemerge::merge(&template, &other, &FloatTexts::new()).err().unwrap();
    assert_eq!(err.message(), "the preset file contains no 'mayer' data matching this plugin's state");
}

// --- XML ------------------------------------------------------------------------

#[test]
fn xml_reader_unescapes_what_the_writer_escaped() {
    let raw = "a < b & \"c\" > d";
    let xml = format!("<?xml version=\"1.0\"?><!-- note --><root v=\"{}\" w='single'><kid x=\"&#65;&#x42;\"/></root>", xmlmerge::escape_attr(raw));
    let node = xmlread::parse(&xml).unwrap();
    assert_eq!(node.name, "root");
    let floats = FloatTexts::new();
    assert_eq!(node.prop("v").unwrap().as_text(&floats), raw);
    assert_eq!(node.prop("w").unwrap().as_text(&floats), "single");
    assert_eq!(node.children[0].prop("x").unwrap().as_text(&floats), "AB");
    assert!(xmlread::parse("<a><b></a>").is_err());
    assert!(xmlread::parse("<a/><b/>").is_err());
}

#[test]
fn xml_merge_replaces_matching_attributes() {
    let template = "<?xml version=\"1.0\"?>\n<appModel gain=\"0.5\" uid=\"k\">\n  <PARAM id=\"a\" value=\"1\"/>\n  <PARAM id=\"b\" value=\"2\"/>\n</appModel>";
    let source = xmlread::parse("<appModel gain=\"0.7\"><PARAM id=\"b\" value=\"9 &amp; 1\"/></appModel>").unwrap();
    let (merged, stats) = xmlmerge::merge(template, &source, &FloatTexts::new()).unwrap();
    assert_eq!(stats.overridden, 3);
    assert_eq!(stats.template_only, 3);
    assert_eq!(
        merged,
        "<?xml version=\"1.0\"?>\n<appModel gain=\"0.7\" uid=\"k\">\n  <PARAM id=\"a\" value=\"1\"/>\n  <PARAM id=\"b\" value=\"9 &amp; 1\"/>\n</appModel>"
    );
}

#[test]
fn merge_walk_stops_only_outside_quoted_values() {
    assert!(xmlmerge::merge_would_break("<a \u{e9}=\"1\"/>"));
    assert!(xmlmerge::merge_would_break("<!-- caf\u{e9} --><a/>"));
    assert!(xmlmerge::merge_would_break("<a x=\"1\" id=\u{e9}1\u{e9}/>"));
    assert!(xmlmerge::merge_would_break("<a><b \u{e9}/></a>"));
    assert!(!xmlmerge::merge_would_break("<a b=\"caf\u{e9}\" c='\u{e9}'>caf\u{e9}</a>"));
    assert!(!xmlmerge::merge_would_break("<?xml \u{e9}?><a id=\"\u{e9}\"/>"));
    assert!(!xmlmerge::merge_would_break("<?xml <a \u{e9}/>"));
    assert!(xmlmerge::merge_would_break("<a b=1 \u{e9}/>"));
    assert!(!xmlmerge::merge_would_break("<a b=1><c \u{e9}/></a>"));
    let source = xmlread::parse("<a b=\"x\"/>").unwrap();
    let (merged, stats) =
        xmlmerge::merge("<a b=\"caf\u{e9}\" c='\u{e9}'>caf\u{e9}</a>", &source, &FloatTexts::new()).unwrap();
    assert_eq!(merged, "<a b=\"x\" c='\u{e9}'>caf\u{e9}</a>");
    assert_eq!((stats.overridden, stats.template_only), (1, 1));
}

#[test]
fn rpl_writer_encodes_standard_base64() {
    let text = rpl::write("h", &[Preset { name: s("P"), data: vec![0, 1, 2] }]);
    assert!(text.contains("    AAEC\r\n"), "{text}");
    let text = rpl::write("h", &[Preset { name: s("P"), data: vec![0, 1, 2, 3, 4] }]);
    assert!(text.contains("    AAECAwQ=\r\n"), "{text}");
    let text = rpl::write("h", &[Preset { name: s("P"), data: vec![0xff] }]);
    assert!(text.contains("    /w==\r\n"), "{text}");
}
