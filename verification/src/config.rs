//! Configuration records. The unresolved form holds what the user supplies
//! (header names); the resolved form is produced by the index resolver once
//! the header row has been read, and is what the extractor and the merge
//! engine consume. Text fields that name spreadsheet cells or resource keys
//! are carried as UTF-8 bytes.

use vstd::prelude::*;

verus! {

/// The user-facing configuration, before the header row has been read.
pub struct ParsedCfg {
    /// Sheet to read; empty means the first sheet.
    pub sheet_name: String,
    /// Header text of the key column.
    pub tag_name: Vec<u8>,
    /// Language code whose values serve as fallback.
    pub default_lang: Vec<u8>,
    /// Language code -> header text of its column.
    pub lang_map: Vec<(Vec<u8>, Vec<u8>)>,
    /// Regenerate each document instead of merging.
    pub reset: bool,
    /// Write values verbatim.
    pub disable_escape: bool,
    /// Literal -> replacement rules; empty means default entity escaping.
    pub escape_only: Vec<(Vec<u8>, Vec<u8>)>,
    /// Fill a blank value from the default language.
    pub replace_blank_with_default: bool,
    /// Trimming pattern; blank means no trimming.
    pub regex: String,
}

/// The resolved configuration: column positions in place of header names.
pub struct ResolvedCfg {
    /// Sheet to read; empty means the first sheet.
    pub sheet_name: String,
    /// Language code whose values serve as fallback.
    pub default_lang: Vec<u8>,
    /// Regenerate each document instead of merging.
    pub reset: bool,
    /// Write values verbatim.
    pub disable_escape: bool,
    /// Literal -> replacement rules; empty means default entity escaping.
    pub escape_only: Vec<(Vec<u8>, Vec<u8>)>,
    /// Fill a blank value from the default language.
    pub replace_blank_with_default: bool,
    /// Trimming pattern; blank means no trimming.
    pub regex: String,
    /// Position of the key column in the header row.
    pub tag_index: u32,
    /// Language code -> position of its column in the header row.
    pub lang_index_map: Vec<(Vec<u8>, u32)>,
}

/// A copy of a list of byte-vector pairs.
pub fn clone_pairs(v: &Vec<(Vec<u8>, Vec<u8>)>) -> (r: Vec<(Vec<u8>, Vec<u8>)>)
    ensures
        r@.len() == v@.len(),
        forall|i: int|
            0 <= i < v@.len() ==> (#[trigger] r@[i]).0@ == v@[i].0@ && r@[i].1@ == v@[i].1@,
        crate::escape::pairs_view(r@) == crate::escape::pairs_view(v@),
{
    let mut r: Vec<(Vec<u8>, Vec<u8>)> = Vec::new();
    let mut i: usize = 0;
    while i < v.len()
        invariant
            0 <= i <= v@.len(),
            r@.len() == i,
            forall|j: int|
                0 <= j < i ==> (#[trigger] r@[j]).0@ == v@[j].0@ && r@[j].1@ == v@[j].1@,
        decreases v@.len() - i,
    {
        let a = crate::kvmap::clone_bytes(&v[i].0);
        let b = crate::kvmap::clone_bytes(&v[i].1);
        r.push((a, b));
        i += 1;
    }
    proof {
        assert(crate::escape::pairs_view(r@) =~= crate::escape::pairs_view(v@));
    }
    r
}

} // verus!
