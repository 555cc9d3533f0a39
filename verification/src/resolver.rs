//! The index resolver: given the header row, finds the key column's position
//! and each configured language's column position. Matching is exact byte
//! equality; languages whose header text is absent are silently dropped.

use vstd::prelude::*;

use crate::config::{ParsedCfg, ResolvedCfg};
use crate::escape::pairs_view;
use crate::kvmap::KvSeq;

verus! {

/// The error kinds of reading a spreadsheet or merging a resource file.
#[derive(Debug)]
pub enum ExcelError {
    /// The workbook holds no sheet (or the named sheet cannot be opened).
    NoSheetsFound,
    /// The header row is empty.
    InvalidFirstLine,
    /// The configured key-column name is absent from the header; carries the
    /// name looked for.
    TagNotFound(Vec<u8>),
    /// A header cell could not be converted to text; carries a description.
    CellConversionFailed(Vec<u8>),
    /// A resource file is malformed: a tag never closes.
    SourceParseError,
}

/// The header cells as byte sequences.
pub open spec fn row_view(row: Seq<Vec<u8>>) -> Seq<Seq<u8>> {
    row.map_values(|c: Vec<u8>| c@)
}

/// First position at or after `i` whose cell equals `name`.
pub open spec fn find_pos(row: Seq<Seq<u8>>, name: Seq<u8>, i: int) -> Option<int>
    decreases row.len() - i,
{
    if i < 0 || i >= row.len() {
        Option::None
    } else if row[i] == name {
        Option::Some(i)
    } else {
        find_pos(row, name, i + 1)
    }
}

/// Characterization of `find_pos`.
pub proof fn lemma_find_pos(row: Seq<Seq<u8>>, name: Seq<u8>, i: int)
    requires
        0 <= i <= row.len(),
    ensures
        match find_pos(row, name, i) {
            Option::Some(p) => i <= p < row.len() && row[p] == name && (forall|j: int|
                i <= j < p ==> row[j] != name),
            Option::None => forall|j: int| i <= j < row.len() ==> row[j] != name,
        },
    decreases row.len() - i,
{
    if i < row.len() && row[i] != name {
        lemma_find_pos(row, name, i + 1);
    }
}

/// First position of a cell equal to `name`, executable form.
fn find_pos_exec(row: &Vec<Vec<u8>>, name: &Vec<u8>) -> (r: Option<usize>)
    ensures
        match r {
            Some(p) => find_pos(row_view(row@), name@, 0) == Option::Some(p as int),
            None => find_pos(row_view(row@), name@, 0) is None,
        },
{
    let n = row.len();
    let mut i: usize = 0;
    while i < n
        invariant
            0 <= i <= n,
            n == row@.len(),
            find_pos(row_view(row@), name@, 0) == find_pos(row_view(row@), name@, i as int),
        decreases n - i,
    {
        if crate::bytes::bytes_eq(&row[i], name) {
            proof {
                assert(row_view(row@)[i as int] == name@);
            }
            return Some(i);
        }
        proof {
            assert(row_view(row@)[i as int] != name@);
        }
        i += 1;
    }
    None
}

/// Position of the key column in the header row: its exact zero-based
/// position when the configured name occurs, the error naming the column
/// when it does not.
pub fn find_tag_index(first_row: &Vec<Vec<u8>>, tag_name: &Vec<u8>) -> (r: Result<u32, ExcelError>)
    requires
        first_row@.len() <= u32::MAX,
    ensures
        match r {
            Ok(i) => 0 <= i < first_row@.len() && row_view(first_row@)[i as int] == tag_name@ && (
            forall|j: int| 0 <= j < i ==> row_view(first_row@)[j] != tag_name@),
            Err(e) => (forall|j: int|
                0 <= j < first_row@.len() ==> row_view(first_row@)[j] != tag_name@) && (e matches
            ExcelError::TagNotFound(t) && t@ == tag_name@),
        },
{
    proof {
        lemma_find_pos(row_view(first_row@), tag_name@, 0);
    }
    match find_pos_exec(first_row, tag_name) {
        Some(p) => Ok(p as u32),
        None => Err(ExcelError::TagNotFound(crate::kvmap::clone_bytes(tag_name))),
    }
}

/// The language -> position pairs of the configured languages whose header
/// text occurs in the row, in configuration order.
pub open spec fn lang_indices_spec(row: Seq<Seq<u8>>, langs: KvSeq) -> Seq<(Seq<u8>, int)>
    decreases langs.len(),
{
    if langs.len() == 0 {
        Seq::empty()
    } else {
        (match find_pos(row, langs[0].1, 0) {
            Option::Some(p) => seq![(langs[0].0, p)],
            Option::None => Seq::empty(),
        }) + lang_indices_spec(row, langs.skip(1))
    }
}

/// The abstract content of a language -> position list.
pub open spec fn lang_pairs_view(v: Seq<(Vec<u8>, u32)>) -> Seq<(Seq<u8>, int)> {
    v.map_values(|e: (Vec<u8>, u32)| (e.0@, e.1 as int))
}

/// Resolves each configured language to its column position; languages whose
/// header text is absent are dropped.
pub fn find_language_indices(first_row: &Vec<Vec<u8>>, lang_map: &Vec<(Vec<u8>, Vec<u8>)>) -> (r:
    Vec<(Vec<u8>, u32)>)
    requires
        first_row@.len() <= u32::MAX,
    ensures
        lang_pairs_view(r@) == lang_indices_spec(row_view(first_row@), pairs_view(lang_map@)),
{
    let ghost row = row_view(first_row@);
    let ghost langs = pairs_view(lang_map@);
    let mut out: Vec<(Vec<u8>, u32)> = Vec::new();
    let mut i: usize = 0;
    proof {
        assert(langs.skip(0) =~= langs);
        assert(lang_pairs_view(out@) =~= Seq::<(Seq<u8>, int)>::empty());
        assert(Seq::<(Seq<u8>, int)>::empty() + lang_indices_spec(row, langs) =~= lang_indices_spec(
            row,
            langs,
        ));
    }
    while i < lang_map.len()
        invariant
            0 <= i <= lang_map@.len(),
            row == row_view(first_row@),
            langs == pairs_view(lang_map@),
            first_row@.len() <= u32::MAX,
            lang_indices_spec(row, langs) == lang_pairs_view(out@) + lang_indices_spec(
                row,
                langs.skip(i as int),
            ),
        decreases lang_map@.len() - i,
    {
        let ghost before = lang_pairs_view(out@);
        proof {
            assert(langs.skip(i as int)[0] == langs[i as int]);
            assert(langs.skip(i as int).skip(1) =~= langs.skip(i + 1));
        }
        match find_pos_exec(first_row, &lang_map[i].1) {
            Some(p) => {
                proof {
                    lemma_find_pos(row, langs[i as int].1, 0);
                }
                let code = crate::kvmap::clone_bytes(&lang_map[i].0);
                out.push((code, p as u32));
                proof {
                    assert(lang_pairs_view(out@) =~= before + seq![(langs[i as int].0, p as int)]);
                    assert((before + seq![(langs[i as int].0, p as int)]) + lang_indices_spec(
                        row,
                        langs.skip(i + 1),
                    ) =~= before + (seq![(langs[i as int].0, p as int)] + lang_indices_spec(
                        row,
                        langs.skip(i + 1),
                    )));
                }
            },
            None => {
                proof {
                    assert(Seq::<(Seq<u8>, int)>::empty() + lang_indices_spec(
                        row,
                        langs.skip(i + 1),
                    ) =~= lang_indices_spec(row, langs.skip(i + 1)));
                }
            },
        }
        i += 1;
    }
    proof {
        assert(langs.skip(langs.len() as int) =~= Seq::<(Seq<u8>, Seq<u8>)>::empty());
        assert(lang_pairs_view(out@) + Seq::<(Seq<u8>, int)>::empty() =~= lang_pairs_view(out@));
    }
    out
}

/// The index resolver: turns the user-facing configuration into the resolved
/// form, given the header row. An empty header is an error; a header without
/// the key column is an error naming the column; otherwise the key column's
/// exact position and the resolved language positions are returned.
pub fn resolve_cfg(cfg: &ParsedCfg, first_row: &Vec<Vec<u8>>) -> (r: Result<
    ResolvedCfg,
    ExcelError,
>)
    requires
        first_row@.len() <= u32::MAX,
    ensures
        match r {
            Ok(rc) => first_row@.len() > 0 && 0 <= rc.tag_index < first_row@.len() && row_view(
                first_row@,
            )[rc.tag_index as int] == cfg.tag_name@ && (forall|j: int|
                0 <= j < rc.tag_index ==> row_view(first_row@)[j] != cfg.tag_name@)
                && lang_pairs_view(rc.lang_index_map@) == lang_indices_spec(
                row_view(first_row@),
                pairs_view(cfg.lang_map@),
            ) && rc.sheet_name@ == cfg.sheet_name@ && rc.default_lang@ == cfg.default_lang@
                && rc.reset == cfg.reset && rc.disable_escape == cfg.disable_escape && pairs_view(
                rc.escape_only@,
            ) == pairs_view(cfg.escape_only@) && rc.replace_blank_with_default
                == cfg.replace_blank_with_default && rc.regex@ == cfg.regex@,
            Err(e) => (first_row@.len() == 0 && e matches ExcelError::InvalidFirstLine) || (
            first_row@.len() > 0 && (forall|j: int|
                0 <= j < first_row@.len() ==> row_view(first_row@)[j] != cfg.tag_name@) && (
            e matches ExcelError::TagNotFound(t) && t@ == cfg.tag_name@)),
        },
{
    if first_row.len() == 0 {
        return Err(ExcelError::InvalidFirstLine);
    }
    let tag_index = match find_tag_index(first_row, &cfg.tag_name) {
        Ok(i) => i,
        Err(e) => {
            return Err(e);
        },
    };
    let lang_index_map = find_language_indices(first_row, &cfg.lang_map);
    Ok(
        ResolvedCfg {
            sheet_name: cfg.sheet_name.clone(),
            default_lang: crate::kvmap::clone_bytes(&cfg.default_lang),
            reset: cfg.reset,
            disable_escape: cfg.disable_escape,
            escape_only: crate::config::clone_pairs(&cfg.escape_only),
            replace_blank_with_default: cfg.replace_blank_with_default,
            regex: cfg.regex.clone(),
            tag_index,
            lang_index_map,
        },
    )
}

} // verus!
