use excel_to_xml::bytes::{is_blank, trim_bytes};
use excel_to_xml::escape::{apply_rules, get_write_value, replace_all, xml_escape};
use excel_to_xml::extract::{process_excel_single_lang, process_excel_multi_lang, slice_lang, Cell, MultiMap};
use excel_to_xml::kvmap::KvMap;
use excel_to_xml::resolver::{find_language_indices, find_tag_index, resolve_cfg, ExcelError};
use excel_to_xml::config::ParsedCfg;

fn b(s: &str) -> Vec<u8> {
    s.as_bytes().to_vec()
}

fn header(cells: &[&str]) -> Vec<Vec<u8>> {
    cells.iter().map(|c| b(c)).collect()
}

fn cell(row: u32, col: u32, v: &str) -> Cell {
    Cell { row, col, value: Some(b(v)) }
}

#[test]
fn test_find_tag_index_found() {
    let row = header(&["key", "English", "Chinese"]);
    let r = find_tag_index(&row, &b("key"));
    assert!(matches!(r, Ok(0)));
    let r2 = find_tag_index(&row, &b("Chinese"));
    assert!(matches!(r2, Ok(2)));
}

#[test]
fn test_find_tag_index_missing() {
    let row = header(&["name", "English"]);
    match find_tag_index(&row, &b("key")) {
        Err(ExcelError::TagNotFound(t)) => assert_eq!(t, b("key")),
        _ => panic!("expected the missing key column to be reported"),
    }
}

#[test]
fn test_find_language_indices_drops_missing() {
    let row = header(&["key", "English", "Chinese"]);
    let langs = vec![
        (b("en"), b("English")),
        (b("fr"), b("French")),
        (b("zh"), b("Chinese")),
    ];
    let r = find_language_indices(&row, &langs);
    assert_eq!(r.len(), 2);
    assert_eq!(r[0].0, b("en"));
    assert_eq!(r[0].1, 1);
    assert_eq!(r[1].0, b("zh"));
    assert_eq!(r[1].1, 2);
}

fn plain_cfg() -> ParsedCfg {
    ParsedCfg {
        sheet_name: String::new(),
        tag_name: b("key"),
        default_lang: b("en"),
        lang_map: vec![(b("en"), b("English")), (b("zh"), b("Chinese"))],
        reset: false,
        disable_escape: false,
        escape_only: Vec::new(),
        replace_blank_with_default: true,
        regex: String::new(),
    }
}

#[test]
fn test_resolve_cfg_empty_header() {
    let cfg = plain_cfg();
    let r = resolve_cfg(&cfg, &Vec::new());
    assert!(matches!(r, Err(ExcelError::InvalidFirstLine)));
}

#[test]
fn test_resolve_cfg_positions() {
    let cfg = plain_cfg();
    let row = header(&["key", "English", "Chinese"]);
    let rc = resolve_cfg(&cfg, &row).expect("the header holds the key column");
    assert_eq!(rc.tag_index, 0);
    assert_eq!(rc.lang_index_map.len(), 2);
    assert_eq!(rc.lang_index_map[0], (b("en"), 1));
    assert_eq!(rc.lang_index_map[1], (b("zh"), 2));
}

#[test]
fn test_extract_single_basic() {
    // keys are trimmed, line breaks in values become the literal two bytes \n,
    // a blank key drops the row, the header row contributes nothing
    let cells = vec![
        cell(0, 0, "key"),
        cell(0, 1, "English"),
        cell(1, 0, "  hello "),
        cell(1, 1, "line1\nline2"),
        cell(2, 0, "   "),
        cell(2, 1, "dropped"),
        cell(3, 0, "bye"),
        cell(3, 1, ""),
    ];
    let mut m = KvMap::new();
    process_excel_single_lang(&cells, 0, 1, &mut m);
    assert_eq!(m.len(), 2);
    assert_eq!(m.get(&b("hello")).unwrap(), &b("line1\\nline2"));
    assert_eq!(m.get(&b("bye")).unwrap(), &b(""));
    assert!(m.get(&b("  hello ")).is_none());
}

#[test]
fn test_extract_single_missing_value_drops_row() {
    // a row that never saw the target column contributes nothing
    let cells = vec![
        cell(0, 0, "key"),
        cell(1, 0, "hello"),
        cell(2, 0, "bye"),
        cell(2, 1, "later"),
    ];
    let mut m = KvMap::new();
    process_excel_single_lang(&cells, 0, 1, &mut m);
    assert_eq!(m.len(), 1);
    assert_eq!(m.get(&b("bye")).unwrap(), &b("later"));
}

#[test]
fn test_extract_single_overwrite() {
    // a later row with the same key overwrites the earlier value
    let cells = vec![
        cell(0, 0, "key"),
        cell(1, 0, "hello"),
        cell(1, 1, "first"),
        cell(2, 0, "hello"),
        cell(2, 1, "second"),
    ];
    let mut m = KvMap::new();
    process_excel_single_lang(&cells, 0, 1, &mut m);
    assert_eq!(m.len(), 1);
    assert_eq!(m.get(&b("hello")).unwrap(), &b("second"));
}

#[test]
fn test_extract_multi_and_slice() {
    let cells = vec![
        cell(0, 0, "key"),
        cell(1, 0, "hello"),
        cell(1, 1, "Hi"),
        cell(1, 2, "Hallo"),
        cell(2, 0, "bye"),
        cell(2, 2, "Tschuss"),
    ];
    let mut mm = MultiMap::new();
    process_excel_multi_lang(&cells, 0, &vec![1, 2], &mut mm);
    let en = slice_lang(&mm, 1);
    let de = slice_lang(&mm, 2);
    assert_eq!(en.len(), 1);
    assert_eq!(en.get(&b("hello")).unwrap(), &b("Hi"));
    assert_eq!(de.len(), 2);
    assert_eq!(de.get(&b("hello")).unwrap(), &b("Hallo"));
    assert_eq!(de.get(&b("bye")).unwrap(), &b("Tschuss"));
}

#[test]
fn test_multi_matches_single() {
    // both extractor variants give one language the same mapping
    let cells = vec![
        cell(0, 0, "key"),
        cell(1, 0, " a "),
        cell(1, 1, "v1\nx"),
        cell(2, 0, "b"),
        cell(2, 1, "v2"),
        cell(3, 0, "a"),
        cell(3, 1, "v3"),
    ];
    let mut single = KvMap::new();
    process_excel_single_lang(&cells, 0, 1, &mut single);
    let mut mm = MultiMap::new();
    process_excel_multi_lang(&cells, 0, &vec![1], &mut mm);
    let sliced = slice_lang(&mm, 1);
    assert_eq!(single.len(), sliced.len());
    for key in ["a", "b"] {
        assert_eq!(single.get(&b(key)), sliced.get(&b(key)));
    }
}

#[test]
fn test_replace_all_single_pass() {
    assert_eq!(replace_all(&b("aXbXXc"), &b("X"), &b("YY")), b("aYYbYYYYc"));
    assert_eq!(replace_all(&b("abc"), &b(""), &b("Y")), b("abc"));
    // one non-overlapping left-to-right scan
    assert_eq!(replace_all(&b("aaa"), &b("aa"), &b("a")), b("aa"));
}

#[test]
fn test_apply_rules_in_order() {
    // later rules see what earlier rules produced
    let rules = vec![(b("a"), b("b")), (b("bb"), b("c"))];
    assert_eq!(apply_rules(&b("ab"), &rules), b("c"));
}

#[test]
fn test_xml_escape_entities() {
    assert_eq!(
        xml_escape(&b("a&b<c>d\"e'f")),
        b("a&amp;b&lt;c&gt;d&quot;e&apos;f")
    );
}

#[test]
fn test_is_blank_and_trim() {
    assert!(is_blank(&b("")));
    assert!(is_blank(&b("  \t\r\n")));
    assert!(!is_blank(&b(" x ")));
    assert_eq!(trim_bytes(&b("  x y\t")), b("x y"));
    assert_eq!(trim_bytes(&b("   ")), b(""));
}

#[test]
fn test_get_write_value_fallback() {
    let mut dm = KvMap::new();
    dm.insert(b("k"), b("default"));
    // blank value, fallback on, key present: the default language's value
    assert_eq!(get_write_value(&b("k"), &b("  "), &dm, true), b("default"));
    // fallback off: the blank value stands
    assert_eq!(get_write_value(&b("k"), &b("  "), &dm, false), b("  "));
    // key absent from the fallback mapping: the blank value stands
    assert_eq!(get_write_value(&b("other"), &b(""), &dm, true), b(""));
    // non-blank value always stands
    assert_eq!(get_write_value(&b("k"), &b("v"), &dm, true), b("v"));
}

#[test]
fn test_get_default_cfg_json() {
    let s = excel_to_xml::get_default_cfg_json();
    assert!(s.contains("\"tagName\": \"Android tag\""));
    assert!(s.contains("\"defaultLang\":\"en\""));
    assert!(s.contains("\"replaceBlankWithDefault\": true"));
}
