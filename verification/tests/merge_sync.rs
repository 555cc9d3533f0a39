use excel_to_xml::config::ParsedCfg;
use excel_to_xml::extract::Cell;
use excel_to_xml::kvmap::KvMap;
use excel_to_xml::merge::MergeParams;
use excel_to_xml::resolver::{resolve_cfg, ExcelError};
use excel_to_xml::sync::{quick_update, update, update_xml_file, TargetDoc};
use excel_to_xml::trim::Trimmer;

fn b(s: &str) -> Vec<u8> {
    s.as_bytes().to_vec()
}

fn s(v: &[u8]) -> String {
    String::from_utf8(v.to_vec()).unwrap()
}

fn plain_params() -> MergeParams {
    MergeParams {
        replace_blank_with_default: true,
        disable_escape: false,
        escape_only: Vec::new(),
        trimmer: None,
    }
}

fn map_of(pairs: &[(&str, &str)]) -> KvMap {
    let mut m = KvMap::new();
    for (k, v) in pairs {
        m.insert(b(k), b(v));
    }
    m
}

const DOC: &str = "<?xml version=\"1.0\" encoding=\"utf-8\"?>\n<resources>\n    <string name=\"hello\">old</string>\n    <!-- a comment -->\n    <string name=\"other\">keep &amp; this</string>\n</resources>\n";

#[test]
fn test_merge_replaces_value() {
    let m = map_of(&[("hello", "New")]);
    let dm = KvMap::new();
    let out = update_xml_file(&b(DOC), &m, &dm, &plain_params(), false).unwrap();
    let expected = DOC.replace(">old<", ">New<");
    assert_eq!(s(&out), expected);
}

#[test]
fn test_merge_preserves_unmatched() {
    // entries not in the mapping, comments and whitespace are byte-for-byte
    // unchanged; an empty mapping reproduces the document exactly
    let m = KvMap::new();
    let dm = KvMap::new();
    let out = update_xml_file(&b(DOC), &m, &dm, &plain_params(), false).unwrap();
    assert_eq!(s(&out), DOC);
}

#[test]
fn test_merge_appends_missing() {
    let m = map_of(&[("hello", "New"), ("fresh", "Value")]);
    let dm = KvMap::new();
    let out = update_xml_file(&b(DOC), &m, &dm, &plain_params(), false).unwrap();
    let expected = DOC
        .replace(">old<", ">New<")
        .replace(
            "\n</resources>",
            "\n\n    <string name=\"fresh\">Value</string>\n</resources>",
        );
    assert_eq!(s(&out), expected);
}

#[test]
fn test_merge_idempotent() {
    // a second merge with the same mapping over the first merge's own output
    // changes nothing
    let m = map_of(&[("hello", "New"), ("fresh", "Value")]);
    let dm = KvMap::new();
    let params = plain_params();
    let once = update_xml_file(&b(DOC), &m, &dm, &params, false).unwrap();
    let twice = update_xml_file(&once, &m, &dm, &params, false).unwrap();
    assert_eq!(s(&twice), s(&once));
}

#[test]
fn test_merge_empty_value_keeps_original() {
    // a mapped value equal to the empty string never erases existing text
    let m = map_of(&[("hello", "")]);
    let dm = KvMap::new();
    let out = update_xml_file(&b(DOC), &m, &dm, &plain_params(), false).unwrap();
    assert_eq!(s(&out), DOC);
}

#[test]
fn test_merge_blank_uses_default() {
    // a blank (whitespace) value is replaced from the fallback mapping
    let m = map_of(&[("hello", "  ")]);
    let dm = map_of(&[("hello", "FromDefault")]);
    let out = update_xml_file(&b(DOC), &m, &dm, &plain_params(), false).unwrap();
    assert_eq!(s(&out), DOC.replace(">old<", ">FromDefault<"));
}

#[test]
fn test_merge_blank_stays_blank_without_flag() {
    let m = map_of(&[("hello", "  ")]);
    let dm = map_of(&[("hello", "FromDefault")]);
    let mut params = plain_params();
    params.replace_blank_with_default = false;
    let out = update_xml_file(&b(DOC), &m, &dm, &params, false).unwrap();
    assert_eq!(s(&out), DOC.replace(">old<", ">  <"));
}

#[test]
fn test_selective_escape_rules() {
    // only the configured rules are applied; the ampersand stays literal
    let m = map_of(&[("hello", "say \"hi\"\nnow & then")]);
    let dm = KvMap::new();
    let mut params = plain_params();
    params.escape_only = vec![(b("\n"), b("\\n")), (b("\""), b("\\\""))];
    let out = update_xml_file(&b(DOC), &m, &dm, &params, false).unwrap();
    assert_eq!(
        s(&out),
        DOC.replace(">old<", ">say \\\"hi\\\"\\nnow & then<")
    );
}

#[test]
fn test_default_escape_applied() {
    let m = map_of(&[("hello", "a<b>&\"'")]);
    let dm = KvMap::new();
    let out = update_xml_file(&b(DOC), &m, &dm, &plain_params(), false).unwrap();
    assert_eq!(
        s(&out),
        DOC.replace(">old<", ">a&lt;b&gt;&amp;&quot;&apos;<")
    );
}

#[test]
fn test_disable_escape_writes_verbatim() {
    let m = map_of(&[("hello", "a<b>&")]);
    let dm = KvMap::new();
    let mut params = plain_params();
    params.disable_escape = true;
    let out = update_xml_file(&b(DOC), &m, &dm, &params, false).unwrap();
    assert_eq!(s(&out), DOC.replace(">old<", ">a<b>&<"));
}

#[test]
fn test_trim_regex_applied() {
    // the configured pattern's matches are removed before escaping
    let m = map_of(&[("hello", "  padded  ")]);
    let dm = KvMap::new();
    let mut params = plain_params();
    params.trimmer = Trimmer::new(String::from("^\\s+|\\s+$"));
    assert!(params.trimmer.is_some());
    let out = update_xml_file(&b(DOC), &m, &dm, &params, false).unwrap();
    assert_eq!(s(&out), DOC.replace(">old<", ">padded<"));
}

#[test]
fn test_trim_regex_invalid_pattern_rejected() {
    // a pattern the engine rejects compiles to no trimmer at all
    assert!(Trimmer::new(String::from("([unclosed")).is_none());
}

#[test]
fn test_source_parse_error() {
    let m = map_of(&[("hello", "New")]);
    let dm = KvMap::new();
    let r = update_xml_file(&b("<resources><string name=\"hello\">x</string"), &m, &dm, &plain_params(), false);
    assert!(matches!(r, Err(ExcelError::SourceParseError)));
}

#[test]
fn test_reset_empty_mapping() {
    // reset mode ignores the document: an empty mapping yields only the
    // declaration and an empty root container
    let m = KvMap::new();
    let dm = KvMap::new();
    let out = update_xml_file(&b(DOC), &m, &dm, &plain_params(), true).unwrap();
    assert_eq!(
        s(&out),
        "<?xml version=\"1.0\" encoding=\"utf-8\"?>\n<resources>\n</resources>"
    );
}

#[test]
fn test_reset_writes_all_entries() {
    let m = map_of(&[("a", "1"), ("b", "2")]);
    let dm = KvMap::new();
    let out = update_xml_file(&b(DOC), &m, &dm, &plain_params(), true).unwrap();
    assert_eq!(
        s(&out),
        "<?xml version=\"1.0\" encoding=\"utf-8\"?>\n<resources>\n    <string name=\"a\">1</string>\n    <string name=\"b\">2</string>\n</resources>"
    );
}

fn scenario_cells() -> Vec<Cell> {
    let c = |row: u32, col: u32, v: &str| Cell { row, col, value: Some(b(v)) };
    vec![
        c(0, 0, "key"),
        c(0, 1, "English"),
        c(0, 2, "Chinese"),
        c(1, 0, "hello"),
        c(1, 1, "Hi"),
        c(1, 2, "\u{55e8}"),
        c(2, 0, "bye"),
        c(2, 1, ""),
        c(2, 2, "\u{518d}\u{89c1}"),
    ]
}

fn scenario_docs() -> Vec<TargetDoc> {
    let en = "<?xml version=\"1.0\" encoding=\"utf-8\"?>\n<resources>\n    <string name=\"hello\">old</string>\n    <string name=\"bye\"></string>\n</resources>";
    let zh = "<?xml version=\"1.0\" encoding=\"utf-8\"?>\n<resources>\n    <string name=\"hello\">x</string>\n    <string name=\"bye\">y</string>\n</resources>";
    vec![
        TargetDoc { path: b("app/res/values-zh/strings.xml"), content: b(zh) },
        TargetDoc { path: b("app/res/values/strings.xml"), content: b(en) },
    ]
}

fn scenario_cfg() -> excel_to_xml::config::ResolvedCfg {
    let cfg = ParsedCfg {
        sheet_name: String::new(),
        tag_name: b("key"),
        default_lang: b("en"),
        lang_map: vec![(b("zh"), b("Chinese")), (b("en"), b("English"))],
        reset: false,
        disable_escape: false,
        escape_only: Vec::new(),
        replace_blank_with_default: true,
        regex: String::new(),
    };
    let row = vec![b("key"), b("English"), b("Chinese")];
    resolve_cfg(&cfg, &row).unwrap()
}

#[test]
fn test_update_full_scenario() {
    // the default language goes first, keeps its own blank value, and its
    // values fill blanks for the other languages
    let rc = scenario_cfg();
    let out = update(&rc, &scenario_cells(), &scenario_docs());
    assert_eq!(out.len(), 2);
    assert_eq!(out[0].path, b("app/res/values/strings.xml"));
    assert_eq!(
        s(out[0].output.as_ref().unwrap()),
        "<?xml version=\"1.0\" encoding=\"utf-8\"?>\n<resources>\n    <string name=\"hello\">Hi</string>\n    <string name=\"bye\"></string>\n</resources>"
    );
    assert_eq!(out[1].path, b("app/res/values-zh/strings.xml"));
    assert_eq!(
        s(out[1].output.as_ref().unwrap()),
        "<?xml version=\"1.0\" encoding=\"utf-8\"?>\n<resources>\n    <string name=\"hello\">\u{55e8}</string>\n    <string name=\"bye\">\u{518d}\u{89c1}</string>\n</resources>"
    );
}

#[test]
fn test_quick_update_matches_update() {
    // both strategies yield byte-for-byte identical output
    let rc = scenario_cfg();
    let cells = scenario_cells();
    let docs = scenario_docs();
    let slow = update(&rc, &cells, &docs);
    let quick = quick_update(&rc, &cells, &docs);
    assert_eq!(slow.len(), quick.len());
    for (a, c) in slow.iter().zip(quick.iter()) {
        assert_eq!(a.path, c.path);
        assert_eq!(a.output, c.output);
    }
}

#[test]
fn test_update_skips_language_without_document() {
    let rc = scenario_cfg();
    let docs = vec![scenario_docs().pop().unwrap()];  // only the default language's document
    let out = update(&rc, &scenario_cells(), &docs);
    assert_eq!(out.len(), 1);
    assert_eq!(out[0].path, b("app/res/values/strings.xml"));
}

#[test]
fn test_update_blank_fallback_for_other_language() {
    // a blank value in a non-default language takes the default language's
    // value for that key
    let rc = scenario_cfg();
    let c = |row: u32, col: u32, v: &str| Cell { row, col, value: Some(b(v)) };
    let cells = vec![
        c(0, 0, "key"),
        c(0, 1, "English"),
        c(0, 2, "Chinese"),
        c(1, 0, "hello"),
        c(1, 1, "Hi"),
        c(1, 2, " "),
    ];
    let out = update(&rc, &cells, &scenario_docs());
    assert_eq!(
        s(out[1].output.as_ref().unwrap()),
        "<?xml version=\"1.0\" encoding=\"utf-8\"?>\n<resources>\n    <string name=\"hello\">Hi</string>\n    <string name=\"bye\">y</string>\n</resources>"
    );
}
