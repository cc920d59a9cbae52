use rplmaker_core::floats::FloatTexts;
use rplmaker_core::valuetree::Node;
use rplmaker_core::{json, rpl, ubjson, uapreset, valuetree, xmlmerge, xmlread};

fn tree_error(data: &[u8]) -> String {
    valuetree::parse(data).err().expect("the tree must be refused").message().to_string()
}

#[test]
fn tree_reader_messages() {
    assert_eq!(tree_error(b"Root"), "unterminated string in preset file");
    assert_eq!(tree_error(b"\0\0\0"), "empty node name; not a JUCE binary preset file");
    // Property count missing, then a count byte announcing too many bytes.
    assert_eq!(tree_error(b"R\0"), "unexpected end of preset file");
    assert_eq!(tree_error(b"R\0\x09"), "corrupt compressed integer in preset file");
    // A property count of 200000 and a child count of -1.
    assert_eq!(
        tree_error(b"R\0\x03\x40\x0d\x03"),
        "implausible property count; not a JUCE binary preset file"
    );
    assert_eq!(
        tree_error(b"R\0\x00\x81\x01"),
        "implausible child count; not a JUCE binary preset file"
    );
    // One property whose var size is negative, then one whose body runs
    // past the end.
    assert_eq!(tree_error(b"R\0\x01\x01p\0\x81\x05"), "corrupt property size in preset file");
    assert_eq!(tree_error(b"R\0\x01\x01p\0\x01\x09\x01"), "unexpected end of preset file");
    assert_eq!(
        tree_error(b"<xml/>"),
        "this file is XML text, not a JUCE binary preset; it must be parsed with the XML reader instead"
    );
}

#[test]
fn tree_reader_refuses_deep_nesting() {
    let mut data = Vec::new();
    for _ in 0..70 {
        data.extend_from_slice(b"N\0\x00\x01\x01");
    }
    assert_eq!(tree_error(&data), "preset file nests too deeply");
}

fn json_error(text: &str) -> String {
    json::parse(text).err().expect("the JSON must be refused").message().to_string()
}

#[test]
fn json_reader_messages() {
    assert_eq!(json_error(""), "unexpected end of JSON");
    assert_eq!(json_error("{\"a\""), "unexpected end of JSON");
    assert_eq!(json_error("{\"a\" 1}"), "expected ':' in JSON object");
    assert_eq!(json_error("{\"a\": 1 2}"), "expected ',' or '}' in JSON object");
    assert_eq!(json_error("[1 2]"), "expected ',' or ']' in JSON array");
    assert_eq!(json_error("{1: 2}"), "expected a JSON string");
    assert_eq!(json_error("\"a\\qb\""), "invalid JSON escape '\\q'");
    assert_eq!(json_error("\"\\u12G4\""), "bad \\u escape");
    assert_eq!(json_error("tru"), "expected 'true' in JSON");
    assert_eq!(json_error("nul"), "expected 'null' in JSON");
    assert_eq!(json_error("fals"), "expected 'false' in JSON");
    assert_eq!(json_error("?"), "expected a JSON value");
    assert_eq!(json_error("1.2.3"), "invalid JSON number");
    assert_eq!(json_error("1 2"), "trailing data after JSON document");
    let deep = "[".repeat(70) + &"]".repeat(70);
    assert_eq!(json_error(&deep), "JSON nests too deeply");
}

#[test]
fn json_raw_members_messages() {
    let e = |t: &str| json::object_members_raw(t).err().unwrap().message().to_string();
    assert_eq!(e("[1]"), "expected a JSON object");
    assert_eq!(e("{"), "unexpected end of JSON");
    assert_eq!(e("{\"a\": 1;"), "expected ',' or '}' in JSON object");
}

#[test]
fn ua_preset_reports_json_errors() {
    let err = uapreset::parse(b"{\"chunk\": {}, \"name\": tru}").err().unwrap();
    assert_eq!(err.message(), "expected 'true' in JSON");
    let err = uapreset::parse(b"not json").err().unwrap();
    assert_eq!(err.message(), "expected a JSON object");
}

fn ubjson_error(data: &[u8]) -> String {
    ubjson::parse(data).err().expect("the state must be refused").message().to_string()
}

#[test]
fn ubjson_reader_messages() {
    assert_eq!(ubjson_error(b""), "unexpected end of UBJSON state");
    assert_eq!(ubjson_error(b"q"), "unsupported UBJSON type 'q'");
    assert_eq!(ubjson_error(b"I\x01"), "truncated UBJSON state");
    assert_eq!(ubjson_error(b"S\x7a"), "unsupported UBJSON integer type 'z'");
    assert_eq!(ubjson_error(b"Si\xff"), "implausible length in UBJSON state");
    assert_eq!(ubjson_error(b"[$i]"), "typed UBJSON array without a count");
    assert_eq!(ubjson_error(b"{i\x01a"), "unexpected end of UBJSON state");
}

fn xml_error(text: &str) -> String {
    xmlread::parse(text).err().expect("the XML must be refused").message().to_string()
}

#[test]
fn xml_reader_messages() {
    assert_eq!(xml_error("<a b/>"), "malformed attribute 'b/>' in preset XML");
    assert_eq!(xml_error("<a b=c/>"), "unquoted value for attribute 'b' in preset XML");
    assert_eq!(xml_error("<a b=\"c/>"), "unterminated value for attribute 'b' in preset XML");
    assert_eq!(xml_error("<a"), "unterminated tag in preset XML");
    assert_eq!(xml_error("<?xml"), "unterminated '?>' section in preset XML");
    assert_eq!(xml_error("<!-- x"), "unterminated '-->' section in preset XML");
    assert_eq!(xml_error("</a>"), "closing tag without an open element");
    assert_eq!(xml_error("<a/><b/>"), "preset XML has more than one root element");
    assert_eq!(xml_error("<a>"), "preset XML ended with unclosed elements");
    assert_eq!(xml_error("text"), "preset XML contains no elements");
}

#[test]
fn xml_merge_messages() {
    let tree = Node { name: "a".to_string(), props: vec![], children: vec![] };
    let e = |t: &str| {
        xmlmerge::merge(t, &tree, &FloatTexts::new()).err().unwrap().message().to_string()
    };
    assert_eq!(e("<?xml"), "unterminated XML declaration in template");
    assert_eq!(e("<a></a"), "unterminated closing tag in template XML");
    assert_eq!(e("<a"), "unterminated tag in template XML");
    assert_eq!(e("<a /"), "unterminated tag in template XML");
    assert_eq!(e("<a b>"), "malformed attribute 'b>' in template XML");
    assert_eq!(e("<a b=1>"), "unquoted value for attribute 'b' in template XML");
    assert_eq!(e("<a b='1>"), "unterminated value for attribute 'b' in template XML");
}

fn rpl_error(text: &str) -> String {
    rpl::parse(text).err().expect("the library must be refused").message().to_string()
}

#[test]
fn rpl_reader_messages() {
    assert_eq!(rpl_error(""), "empty preset library file");
    assert_eq!(
        rpl_error("hello"),
        "not a REAPER preset library (missing <REAPER_PRESET_LIBRARY header)"
    );
    assert_eq!(
        rpl_error("<REAPER_PRESET_LIBRARY x\n<PRESET `open"),
        "unterminated preset name: `open"
    );
    assert_eq!(
        rpl_error("<REAPER_PRESET_LIBRARY x\n<PRESET `P`\n!!!!\n>\n>"),
        "invalid base64 in preset 'P': Invalid symbol 33, offset 0."
    );
    assert_eq!(
        rpl_error("<REAPER_PRESET_LIBRARY x\n<PRESET `P`\nQQ=\n>\n>"),
        "invalid base64 in preset 'P': Invalid padding"
    );
    assert_eq!(
        rpl_error("<REAPER_PRESET_LIBRARY x\n<PRESET `P`\nQUJD=\n>\n>"),
        "invalid base64 in preset 'P': Invalid symbol 61, offset 4."
    );
    assert_eq!(
        rpl_error("<REAPER_PRESET_LIBRARY x\n<PRESET `P`\nQUJDR\n>\n>"),
        "invalid base64 in preset 'P': Invalid input length: 5"
    );
}
