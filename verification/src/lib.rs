//! Synchronizes localized text between a spreadsheet (one row per text key,
//! one column per language) and per-language resource files that hold
//! `key -> text` entries. The spreadsheet is authoritative; merges preserve
//! unrelated structure, comments and ordering in each target file.

use vstd::prelude::*;

pub mod bytes;
pub mod config;
pub mod escape;
pub mod extract;
pub mod kvmap;
pub mod laws;
pub mod merge;
pub mod resolver;
pub mod sync;
pub mod trim;
pub mod xml;

pub use sync::{quick_update, update};

verus! {

/// The default configuration document, as the library ships it.
pub open spec fn default_cfg_chars() -> Seq<char> {
    "{\n    \"sheetName\":\"\",\n    \"tagName\": \"Android tag\",\n    \"defaultLang\":\"en\",\n    \"langMap\": {\n        \"zh\": \"Chinese Simplified\",\n        \"zh-rTW\": \"Chinese Traditional\",\n        \"en\": \"English\",\n        \"ja\": \"Japanese\",\n        \"ko-rKR\": \"Korean\",\n        \"fr\": \"French\",\n        \"de\": \"German\",\n        \"es\": \"Spanish\",\n        \"it\": \"Italian\",\n        \"nl\": \"Dutch\"\n    },\n    \"disableEscape\": false,\n    \"escapeOnly\":{\n        \"\\\\\\n\":\"\\\\n\",\n        \"\\n\":\"\\\\n\",\n        \"\\\\\\\\'\":\"\\\\'\",\n        \"'\":\"\\\\'\",\n        \"\\\\\\\\\\\"\":\"\\\\\\\"\",\n        \"\\\"\":\"\\\\\\\"\",\n        \" \":\" \",\n        \"&\":\"&amp;\",\n        \">\":\"&gt;\",\n        \"<\":\"&lt;\"\n    },\n    \"reset\": false,\n    \"replaceBlankWithDefault\": true,\n    \"regex\":\"^\\\\s+|\\\\s+$\"\n}"@
}

/// The default configuration document as a fresh string.
pub fn get_default_cfg_json() -> (r: String)
    ensures
        r@ == default_cfg_chars(),
{
    let s: &str = "{\n    \"sheetName\":\"\",\n    \"tagName\": \"Android tag\",\n    \"defaultLang\":\"en\",\n    \"langMap\": {\n        \"zh\": \"Chinese Simplified\",\n        \"zh-rTW\": \"Chinese Traditional\",\n        \"en\": \"English\",\n        \"ja\": \"Japanese\",\n        \"ko-rKR\": \"Korean\",\n        \"fr\": \"French\",\n        \"de\": \"German\",\n        \"es\": \"Spanish\",\n        \"it\": \"Italian\",\n        \"nl\": \"Dutch\"\n    },\n    \"disableEscape\": false,\n    \"escapeOnly\":{\n        \"\\\\\\n\":\"\\\\n\",\n        \"\\n\":\"\\\\n\",\n        \"\\\\\\\\'\":\"\\\\'\",\n        \"'\":\"\\\\'\",\n        \"\\\\\\\\\\\"\":\"\\\\\\\"\",\n        \"\\\"\":\"\\\\\\\"\",\n        \" \":\" \",\n        \"&\":\"&amp;\",\n        \">\":\"&gt;\",\n        \"<\":\"&lt;\"\n    },\n    \"reset\": false,\n    \"replaceBlankWithDefault\": true,\n    \"regex\":\"^\\\\s+|\\\\s+$\"\n}";
    s.to_owned()
}

} // verus!
