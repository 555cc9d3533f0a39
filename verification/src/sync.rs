//! The synchronization orchestrator: for each configured language, resolves
//! the target document by its conventional path suffix, extracts that
//! language's mapping from the spreadsheet cells, and merges it into the
//! document. The default language goes first, so that its mapping serves as
//! the fallback for every other language of the same run. Two strategies:
//! one spreadsheet pass per language, or one shared pass for all languages.

use vstd::prelude::*;

use crate::bytes::{ends_with_seq, is_blank_seq};
use crate::config::ResolvedCfg;
use crate::escape::pairs_view;
use crate::extract::{
    cells_view, extract_multi_spec, extract_single_spec, slice_spec, Cell, GCell, MultiMap,
};
use crate::kvmap::{KvMap, KvSeq};
use crate::merge::{merge_spec, reset_spec, MergeEnv, MergeParams};
use crate::resolver::ExcelError;
use crate::trim::{compiles, trim_view, Trimmer};
use crate::xml::{render_spec, tokenize_spec};

verus! {

/// One target document: its path and its current content.
pub struct TargetDoc {
    pub path: Vec<u8>,
    pub content: Vec<u8>,
}

/// The outcome for one processed language: the document's path and its new
/// content, `None` when the document was malformed and left alone.
pub struct MergedDoc {
    pub path: Vec<u8>,
    pub output: Option<Vec<u8>>,
}

/// The abstract content of a document list.
pub open spec fn docs_view(docs: Seq<TargetDoc>) -> Seq<(Seq<u8>, Seq<u8>)> {
    docs.map_values(|d: TargetDoc| (d.path@, d.content@))
}

/// The abstract content of an outcome list.
pub open spec fn merged_view(s: Seq<MergedDoc>) -> Seq<(Seq<u8>, Option<Seq<u8>>)> {
    s.map_values(
        |d: MergedDoc|
            (
                d.path@,
                match d.output {
                    Option::Some(o) => Option::Some(o@),
                    Option::None => Option::None,
                },
            ),
    )
}

/// What one merge makes of one document: a reset merge emits the fresh
/// document; otherwise the document's events are merged, and a document whose
/// split fails is left alone.
pub open spec fn merge_doc_spec(content: Seq<u8>, env: MergeEnv, reset: bool) -> Option<Seq<u8>> {
    if reset {
        Option::Some(render_spec(reset_spec(env)))
    } else {
        match tokenize_spec(content) {
            Option::Some(evs) => Option::Some(render_spec(merge_spec(env, evs))),
            Option::None => Option::None,
        }
    }
}

/// Merges one mapping into one document's content. The result is the new
/// content; a malformed document (a tag that never closes) is the error, and
/// nothing else is.
pub fn update_xml_file(
    content: &Vec<u8>,
    tag_value_map: &KvMap,
    default_value_map: &KvMap,
    params: &MergeParams,
    reset: bool,
) -> (r: Result<Vec<u8>, ExcelError>)
    requires
        tag_value_map.wf(),
        default_value_map.wf(),
    ensures
        ({
            let env = params.env(tag_value_map@, default_value_map@);
            match r {
                Ok(out) => merge_doc_spec(content@, env, reset) == Option::Some(out@),
                Err(e) => merge_doc_spec(content@, env, reset) is None && (e matches
                ExcelError::SourceParseError),
            }
        }),
{
    if reset {
        let evs = crate::merge::reset_events(tag_value_map, default_value_map, params);
        Ok(crate::xml::render(&evs))
    } else {
        match crate::xml::tokenize(content) {
            Some(evs) => {
                let merged = crate::merge::merge_events(
                    &evs,
                    tag_value_map,
                    default_value_map,
                    params,
                );
                Ok(crate::xml::render(&merged))
            },
            None => Err(ExcelError::SourceParseError),
        }
    }
}

/// The trimming pattern a configuration yields: none when the pattern is
/// blank or rejected by the regex engine.
pub open spec fn effective_trim(pattern: Seq<char>) -> Option<Seq<char>> {
    if is_blank_seq(vstd::utf8::encode_utf8(pattern)) {
        Option::None
    } else if compiles(pattern) {
        Option::Some(pattern)
    } else {
        Option::None
    }
}

/// Builds the merge switches of one run from the resolved configuration: the
/// policy flags are copied and the trimming pattern is compiled, a blank or
/// rejected pattern degrading to no trimming.
pub fn build_params(cfg: &ResolvedCfg) -> (r: MergeParams)
    ensures
        r.replace_blank_with_default == cfg.replace_blank_with_default,
        r.disable_escape == cfg.disable_escape,
        pairs_view(r.escape_only@) == pairs_view(cfg.escape_only@),
        trim_view(r.trimmer) == effective_trim(cfg.regex@),
{
    let rb = cfg.regex.as_str().as_bytes();
    let trimmer: Option<Trimmer> = if crate::bytes::is_blank_slice(rb) {
        None
    } else {
        Trimmer::new(cfg.regex.clone())
    };
    MergeParams {
        replace_blank_with_default: cfg.replace_blank_with_default,
        disable_escape: cfg.disable_escape,
        escape_only: crate::config::clone_pairs(&cfg.escape_only),
        trimmer,
    }
}

/// The conventional path suffix of one language's document.
pub open spec fn suffix_for(default_lang: Seq<u8>, lang: Seq<u8>) -> Seq<u8> {
    if lang == default_lang {
        values_bytes() + strings_xml_bytes()
    } else {
        values_bytes() + seq![45u8] + lang + strings_xml_bytes()
    }
}

/// The directory part of the suffix.
pub open spec fn values_bytes() -> Seq<u8> {
    seq![118u8, 97u8, 108u8, 117u8, 101u8, 115u8]  // values
}

/// The file part of the suffix.
pub open spec fn strings_xml_bytes() -> Seq<u8> {
    seq![47u8, 115u8, 116u8, 114u8, 105u8, 110u8, 103u8, 115u8, 46u8, 120u8, 109u8, 108u8]  // /strings.xml
}

/// Executable form of the path suffix.
fn build_suffix(default_lang: &Vec<u8>, lang: &Vec<u8>) -> (r: Vec<u8>)
    ensures
        r@ == suffix_for(default_lang@, lang@),
{
    let mut r: Vec<u8> = Vec::new();
    r.push(118);
    r.push(97);
    r.push(108);
    r.push(117);
    r.push(101);
    r.push(115);
    proof {
        assert(r@ =~= values_bytes());
    }
    if !crate::bytes::bytes_eq(lang, default_lang) {
        r.push(45);
        crate::bytes::append_bytes(&mut r, lang);
    }
    r.push(47);
    r.push(115);
    r.push(116);
    r.push(114);
    r.push(105);
    r.push(110);
    r.push(103);
    r.push(115);
    r.push(46);
    r.push(120);
    r.push(109);
    r.push(108);
    proof {
        if lang@ == default_lang@ {
            assert(r@ =~= values_bytes() + strings_xml_bytes());
        } else {
            assert(r@ =~= values_bytes() + seq![45u8] + lang@ + strings_xml_bytes());
        }
    }
    r
}

/// First document whose path ends with the suffix, at or after position `i`.
pub open spec fn find_doc(docs: Seq<(Seq<u8>, Seq<u8>)>, suffix: Seq<u8>, i: int) -> Option<int>
    decreases docs.len() - i,
{
    if i < 0 || i >= docs.len() {
        Option::None
    } else if ends_with_seq(docs[i].0, suffix) {
        Option::Some(i)
    } else {
        find_doc(docs, suffix, i + 1)
    }
}

/// First document whose path ends with the suffix, executable form.
fn find_doc_exec(docs: &Vec<TargetDoc>, suffix: &Vec<u8>) -> (r: Option<usize>)
    ensures
        match r {
            Some(d) => find_doc(docs_view(docs@), suffix@, 0) == Option::Some(d as int) && d
                < docs@.len(),
            None => find_doc(docs_view(docs@), suffix@, 0) is None,
        },
{
    let ghost dv = docs_view(docs@);
    let n = docs.len();
    let mut i: usize = 0;
    while i < n
        invariant
            0 <= i <= n,
            n == docs@.len(),
            dv == docs_view(docs@),
            dv.len() == docs@.len(),
            find_doc(dv, suffix@, 0) == find_doc(dv, suffix@, i as int),
        decreases n - i,
    {
        if crate::bytes::ends_with(&docs[i].path, suffix) {
            proof {
                assert(dv[i as int].0 == docs@[i as int].path@);
            }
            return Some(i);
        }
        proof {
            assert(dv[i as int].0 == docs@[i as int].path@);
        }
        i += 1;
    }
    None
}

/// First entry whose language equals `lang`, at or after position `i`.
pub open spec fn find_lang(langs: Seq<(Seq<u8>, int)>, lang: Seq<u8>, i: int) -> Option<int>
    decreases langs.len() - i,
{
    if i < 0 || i >= langs.len() {
        Option::None
    } else if langs[i].0 == lang {
        Option::Some(i)
    } else {
        find_lang(langs, lang, i + 1)
    }
}

/// The language list with the default language swapped to the front, when it
/// occurs.
pub open spec fn default_first(langs: Seq<(Seq<u8>, int)>, default_lang: Seq<u8>) -> Seq<
    (Seq<u8>, int),
> {
    match find_lang(langs, default_lang, 0) {
        Option::Some(p) => langs.update(0, langs[p]).update(p, langs[0]),
        Option::None => langs,
    }
}

/// The language list of one run, reordered so the default language is first.
fn reorder_langs(lang_index_map: &Vec<(Vec<u8>, u32)>, default_lang: &Vec<u8>) -> (r: Vec<
    (Vec<u8>, u32),
>)
    ensures
        crate::resolver::lang_pairs_view(r@) == default_first(
            crate::resolver::lang_pairs_view(lang_index_map@),
            default_lang@,
        ),
{
    let ghost lv = crate::resolver::lang_pairs_view(lang_index_map@);
    let n = lang_index_map.len();
    let mut pos: usize = 0;
    let mut found = false;
    let mut i: usize = 0;
    while i < n
        invariant
            0 <= i <= n,
            n == lang_index_map@.len(),
            lv == crate::resolver::lang_pairs_view(lang_index_map@),
            lv.len() == lang_index_map@.len(),
            !found ==> find_lang(lv, default_lang@, 0) == find_lang(lv, default_lang@, i as int),
            found ==> find_lang(lv, default_lang@, 0) == Option::Some(pos as int) && pos < n,
        decreases n - i,
    {
        if !found && crate::bytes::bytes_eq(&lang_index_map[i].0, default_lang) {
            proof {
                assert(lv[i as int].0 == default_lang@);
            }
            found = true;
            pos = i;
        } else {
            proof {
                if !found {
                    assert(lv[i as int].0 == lang_index_map@[i as int].0@);
                }
            }
        }
        i += 1;
    }
    let mut r: Vec<(Vec<u8>, u32)> = Vec::new();
    let mut j: usize = 0;
    let ghost target = default_first(lv, default_lang@);
    proof {
        if found {
            assert(target == lv.update(0, lv[pos as int]).update(pos as int, lv[0]));
        } else {
            assert(target == lv);
        }
        assert(target.len() == lv.len());
    }
    while j < n
        invariant
            0 <= j <= n,
            n == lang_index_map@.len(),
            lv == crate::resolver::lang_pairs_view(lang_index_map@),
            lv.len() == lang_index_map@.len(),
            target == default_first(lv, default_lang@),
            target.len() == n,
            found ==> pos < n && find_lang(lv, default_lang@, 0) == Option::Some(pos as int),
            !found ==> find_lang(lv, default_lang@, 0) is None,
            crate::resolver::lang_pairs_view(r@) == target.take(j as int),
        decreases n - j,
    {
        let ghost before = crate::resolver::lang_pairs_view(r@);
        let src: usize = if found && j == 0 {
            pos
        } else if found && j == pos {
            0
        } else {
            j
        };
        let item = (
            crate::kvmap::clone_bytes(&lang_index_map[src].0),
            lang_index_map[src].1,
        );
        r.push(item);
        proof {
            assert(crate::resolver::lang_pairs_view(r@) =~= before.push(lv[src as int]));
            assert(target[j as int] == lv[src as int]);
            assert(before.push(target[j as int]) =~= target.take(j + 1));
        }
        j += 1;
    }
    proof {
        assert(target.take(n as int) =~= target);
    }
    r
}

/// The outcomes of one run over a language list: per language with a matching
/// document, the merged content; the default language's mapping becomes the
/// fallback for the languages after it.
pub open spec fn run_langs(
    cfg: ResolvedCfg,
    cells: Seq<GCell>,
    docs: Seq<(Seq<u8>, Seq<u8>)>,
    langs: Seq<(Seq<u8>, int)>,
    dm: KvSeq,
    trim: Option<Seq<char>>,
) -> Seq<(Seq<u8>, Option<Seq<u8>>)>
    decreases langs.len(),
{
    if langs.len() == 0 {
        Seq::empty()
    } else {
        let lang = langs[0].0;
        let col = langs[0].1;
        match find_doc(docs, suffix_for(cfg.default_lang@, lang), 0) {
            Option::None => run_langs(cfg, cells, docs, langs.skip(1), dm, trim),
            Option::Some(d) => {
                let m = extract_single_spec(Seq::empty(), cells, cfg.tag_index as int, col);
                let env = MergeEnv {
                    m,
                    dm,
                    replace_blank_with_default: cfg.replace_blank_with_default,
                    trim,
                    disable_escape: cfg.disable_escape,
                    rules: pairs_view(cfg.escape_only@),
                };
                let out = merge_doc_spec(docs[d].1, env, cfg.reset);
                let dm2 = if lang == cfg.default_lang@ && cfg.replace_blank_with_default {
                    m
                } else {
                    dm
                };
                seq![(docs[d].0, out)] + run_langs(cfg, cells, docs, langs.skip(1), dm2, trim)
            },
        }
    }
}

/// What the per-language strategy produces for one configuration.
pub open spec fn update_spec(
    cfg: ResolvedCfg,
    cells: Seq<GCell>,
    docs: Seq<(Seq<u8>, Seq<u8>)>,
    trim: Option<Seq<char>>,
) -> Seq<(Seq<u8>, Option<Seq<u8>>)> {
    run_langs(
        cfg,
        cells,
        docs,
        default_first(crate::resolver::lang_pairs_view(cfg.lang_index_map@), cfg.default_lang@),
        Seq::empty(),
        trim,
    )
}

/// The per-language strategy: one spreadsheet pass per language. Each
/// language with a document whose path ends in the conventional suffix gets
/// that document merged with its extracted mapping; the default language is
/// processed first and its mapping fills blanks for the others. A malformed
/// document yields no output for its language and does not stop the rest.
pub fn update(cfg: &ResolvedCfg, cells: &Vec<Cell>, docs: &Vec<TargetDoc>) -> (r: Vec<MergedDoc>)
    ensures
        merged_view(r@) == update_spec(
            *cfg,
            cells_view(cells@),
            docs_view(docs@),
            effective_trim(cfg.regex@),
        ),
{
    let ghost cv = cells_view(cells@);
    let ghost dv = docs_view(docs@);
    let ghost trim = effective_trim(cfg.regex@);
    let params = build_params(cfg);
    let langs = reorder_langs(&cfg.lang_index_map, &cfg.default_lang);
    let ghost lgs = crate::resolver::lang_pairs_view(langs@);
    let mut out: Vec<MergedDoc> = Vec::new();
    let mut dm = KvMap::new();
    let mut i: usize = 0;
    proof {
        assert(lgs.skip(0) =~= lgs);
        assert(merged_view(out@) =~= Seq::<(Seq<u8>, Option<Seq<u8>>)>::empty());
        assert(Seq::<(Seq<u8>, Option<Seq<u8>>)>::empty() + run_langs(
            *cfg,
            cv,
            dv,
            lgs,
            dm@,
            trim,
        ) =~= run_langs(*cfg, cv, dv, lgs, dm@, trim));
    }
    while i < langs.len()
        invariant
            0 <= i <= langs@.len(),
            cv == cells_view(cells@),
            dv == docs_view(docs@),
            dv.len() == docs@.len(),
            trim == effective_trim(cfg.regex@),
            lgs == crate::resolver::lang_pairs_view(langs@),
            lgs.len() == langs@.len(),
            params.replace_blank_with_default == cfg.replace_blank_with_default,
            params.disable_escape == cfg.disable_escape,
            pairs_view(params.escape_only@) == pairs_view(cfg.escape_only@),
            trim_view(params.trimmer) == trim,
            dm.wf(),
            update_spec(*cfg, cv, dv, trim) == merged_view(out@) + run_langs(
                *cfg,
                cv,
                dv,
                lgs.skip(i as int),
                dm@,
                trim,
            ),
        decreases langs@.len() - i,
    {
        let ghost before = merged_view(out@);
        proof {
            assert(lgs.skip(i as int)[0] == lgs[i as int]);
            assert(lgs.skip(i as int).skip(1) =~= lgs.skip(i + 1));
            assert(lgs[i as int].0 == langs@[i as int].0@);
            assert(lgs[i as int].1 == langs@[i as int].1 as int);
        }
        let suffix = build_suffix(&cfg.default_lang, &langs[i].0);
        match find_doc_exec(docs, &suffix) {
            Some(d) => {
                let mut m = KvMap::new();
                proof {
                    assert(m@ =~= Seq::<(Seq<u8>, Seq<u8>)>::empty());
                }
                crate::extract::process_excel_single_lang(cells, cfg.tag_index, langs[i].1, &mut m);
                let res = update_xml_file(&docs[d].content, &m, &dm, &params, cfg.reset);
                let ghost env = MergeEnv {
                    m: m@,
                    dm: dm@,
                    replace_blank_with_default: cfg.replace_blank_with_default,
                    trim,
                    disable_escape: cfg.disable_escape,
                    rules: pairs_view(cfg.escape_only@),
                };
                proof {
                    assert(env == params.env(m@, dm@));
                    assert(dv[d as int].0 == docs@[d as int].path@);
                    assert(dv[d as int].1 == docs@[d as int].content@);
                }
                let output = match res {
                    Ok(o) => Some(o),
                    Err(_) => None,
                };
                out.push(MergedDoc { path: crate::kvmap::clone_bytes(&docs[d].path), output });
                proof {
                    assert(merged_view(out@) =~= before + seq![
                        (dv[d as int].0, merge_doc_spec(dv[d as int].1, env, cfg.reset)),
                    ]);
                    assert((before + seq![
                        (dv[d as int].0, merge_doc_spec(dv[d as int].1, env, cfg.reset)),
                    ]) + run_langs(
                        *cfg,
                        cv,
                        dv,
                        lgs.skip(i + 1),
                        if lgs[i as int].0 == cfg.default_lang@ && cfg.replace_blank_with_default {
                            m@
                        } else {
                            dm@
                        },
                        trim,
                    ) =~= before + (seq![
                        (dv[d as int].0, merge_doc_spec(dv[d as int].1, env, cfg.reset)),
                    ] + run_langs(
                        *cfg,
                        cv,
                        dv,
                        lgs.skip(i + 1),
                        if lgs[i as int].0 == cfg.default_lang@ && cfg.replace_blank_with_default {
                            m@
                        } else {
                            dm@
                        },
                        trim,
                    )));
                }
                if crate::bytes::bytes_eq(&langs[i].0, &cfg.default_lang)
                    && cfg.replace_blank_with_default {
                    dm = m.clone_map();
                }
            },
            None => {},
        }
        i += 1;
    }
    proof {
        assert(lgs.skip(lgs.len() as int) =~= Seq::<(Seq<u8>, int)>::empty());
        assert(merged_view(out@) + Seq::<(Seq<u8>, Option<Seq<u8>>)>::empty() =~= merged_view(
            out@,
        ));
    }
    out
}

/// The slots of the shared-pass strategy: per language with a matching
/// document, the language, its column, and the document's position.
pub open spec fn build_slots(
    default_lang: Seq<u8>,
    docs: Seq<(Seq<u8>, Seq<u8>)>,
    langs: Seq<(Seq<u8>, int)>,
) -> Seq<(Seq<u8>, int, int)>
    decreases langs.len(),
{
    if langs.len() == 0 {
        Seq::empty()
    } else {
        (match find_doc(docs, suffix_for(default_lang, langs[0].0), 0) {
            Option::Some(d) => seq![(langs[0].0, langs[0].1, d)],
            Option::None => Seq::<(Seq<u8>, int, int)>::empty(),
        }) + build_slots(default_lang, docs, langs.skip(1))
    }
}

/// First slot whose language equals `lang`.
pub open spec fn find_slot(slots: Seq<(Seq<u8>, int, int)>, lang: Seq<u8>, i: int) -> Option<int>
    decreases slots.len() - i,
{
    if i < 0 || i >= slots.len() {
        Option::None
    } else if slots[i].0 == lang {
        Option::Some(i)
    } else {
        find_slot(slots, lang, i + 1)
    }
}

/// The slots with the default language's slot swapped to the front.
pub open spec fn slots_default_first(slots: Seq<(Seq<u8>, int, int)>, default_lang: Seq<u8>) -> Seq<
    (Seq<u8>, int, int),
> {
    match find_slot(slots, default_lang, 0) {
        Option::Some(p) => slots.update(0, slots[p]).update(p, slots[0]),
        Option::None => slots,
    }
}

/// The columns of the slots, in slot order.
pub open spec fn slot_cols(slots: Seq<(Seq<u8>, int, int)>) -> Seq<int> {
    slots.map_values(|s: (Seq<u8>, int, int)| s.1)
}

/// The outcomes of the shared-pass run over the slots.
pub open spec fn run_slots(
    cfg: ResolvedCfg,
    docs: Seq<(Seq<u8>, Seq<u8>)>,
    slots: Seq<(Seq<u8>, int, int)>,
    mm: Seq<(Seq<u8>, Seq<(int, Seq<u8>)>)>,
    dm: KvSeq,
    trim: Option<Seq<char>>,
) -> Seq<(Seq<u8>, Option<Seq<u8>>)>
    decreases slots.len(),
{
    if slots.len() == 0 {
        Seq::empty()
    } else {
        let lang = slots[0].0;
        let col = slots[0].1;
        let d = slots[0].2;
        let m = slice_spec(mm, col);
        let env = MergeEnv {
            m,
            dm,
            replace_blank_with_default: cfg.replace_blank_with_default,
            trim,
            disable_escape: cfg.disable_escape,
            rules: pairs_view(cfg.escape_only@),
        };
        let out = merge_doc_spec(docs[d].1, env, cfg.reset);
        let dm2 = if lang == cfg.default_lang@ && cfg.replace_blank_with_default {
            m
        } else {
            dm
        };
        seq![(docs[d].0, out)] + run_slots(cfg, docs, slots.skip(1), mm, dm2, trim)
    }
}

/// What the shared-pass strategy produces for one configuration.
pub open spec fn quick_update_spec(
    cfg: ResolvedCfg,
    cells: Seq<GCell>,
    docs: Seq<(Seq<u8>, Seq<u8>)>,
    trim: Option<Seq<char>>,
) -> Seq<(Seq<u8>, Option<Seq<u8>>)> {
    let slots0 = build_slots(
        cfg.default_lang@,
        docs,
        crate::resolver::lang_pairs_view(cfg.lang_index_map@),
    );
    let mm = extract_multi_spec(Seq::empty(), cells, cfg.tag_index as int, slot_cols(slots0));
    let slots = slots_default_first(slots0, cfg.default_lang@);
    run_slots(cfg, docs, slots, mm, Seq::empty(), trim)
}

/// The slots, executable form: language, column, document position.
fn build_slots_exec(cfg: &ResolvedCfg, docs: &Vec<TargetDoc>) -> (r: Vec<(Vec<u8>, u32, usize)>)
    ensures
        r@.map_values(|s: (Vec<u8>, u32, usize)| (s.0@, s.1 as int, s.2 as int)) == build_slots(
            cfg.default_lang@,
            docs_view(docs@),
            crate::resolver::lang_pairs_view(cfg.lang_index_map@),
        ),
        forall|l: int| 0 <= l < r@.len() ==> (#[trigger] r@[l]).2 < docs@.len(),
{
    let ghost dv = docs_view(docs@);
    let ghost lv = crate::resolver::lang_pairs_view(cfg.lang_index_map@);
    let mut r: Vec<(Vec<u8>, u32, usize)> = Vec::new();
    let mut i: usize = 0;
    proof {
        assert(lv.skip(0) =~= lv);
        assert(r@.map_values(|s: (Vec<u8>, u32, usize)| (s.0@, s.1 as int, s.2 as int)) =~= Seq::<
            (Seq<u8>, int, int),
        >::empty());
        assert(Seq::<(Seq<u8>, int, int)>::empty() + build_slots(cfg.default_lang@, dv, lv)
            =~= build_slots(cfg.default_lang@, dv, lv));
    }
    while i < cfg.lang_index_map.len()
        invariant
            0 <= i <= cfg.lang_index_map@.len(),
            dv == docs_view(docs@),
            dv.len() == docs@.len(),
            lv == crate::resolver::lang_pairs_view(cfg.lang_index_map@),
            lv.len() == cfg.lang_index_map@.len(),
            forall|l: int| 0 <= l < r@.len() ==> (#[trigger] r@[l]).2 < docs@.len(),
            build_slots(cfg.default_lang@, dv, lv) == r@.map_values(
                |s: (Vec<u8>, u32, usize)| (s.0@, s.1 as int, s.2 as int),
            ) + build_slots(cfg.default_lang@, dv, lv.skip(i as int)),
        decreases cfg.lang_index_map@.len() - i,
    {
        let ghost before = r@.map_values(|s: (Vec<u8>, u32, usize)| (s.0@, s.1 as int, s.2 as int));
        proof {
            assert(lv.skip(i as int)[0] == lv[i as int]);
            assert(lv.skip(i as int).skip(1) =~= lv.skip(i + 1));
            assert(lv[i as int].0 == cfg.lang_index_map@[i as int].0@);
            assert(lv[i as int].1 == cfg.lang_index_map@[i as int].1 as int);
        }
        let suffix = build_suffix(&cfg.default_lang, &cfg.lang_index_map[i].0);
        match find_doc_exec(docs, &suffix) {
            Some(d) => {
                r.push(
                    (
                        crate::kvmap::clone_bytes(&cfg.lang_index_map[i].0),
                        cfg.lang_index_map[i].1,
                        d,
                    ),
                );
                proof {
                    assert(r@.map_values(|s: (Vec<u8>, u32, usize)| (s.0@, s.1 as int, s.2 as int))
                        =~= before + seq![(lv[i as int].0, lv[i as int].1, d as int)]);
                    assert((before + seq![(lv[i as int].0, lv[i as int].1, d as int)])
                        + build_slots(cfg.default_lang@, dv, lv.skip(i + 1)) =~= before + (seq![
                        (lv[i as int].0, lv[i as int].1, d as int),
                    ] + build_slots(cfg.default_lang@, dv, lv.skip(i + 1))));
                }
            },
            None => {
                proof {
                    assert(Seq::<(Seq<u8>, int, int)>::empty() + build_slots(
                        cfg.default_lang@,
                        dv,
                        lv.skip(i + 1),
                    ) =~= build_slots(cfg.default_lang@, dv, lv.skip(i + 1)));
                }
            },
        }
        i += 1;
    }
    proof {
        assert(lv.skip(lv.len() as int) =~= Seq::<(Seq<u8>, int)>::empty());
        assert(r@.map_values(|s: (Vec<u8>, u32, usize)| (s.0@, s.1 as int, s.2 as int)) + Seq::<
            (Seq<u8>, int, int),
        >::empty() =~= r@.map_values(|s: (Vec<u8>, u32, usize)| (s.0@, s.1 as int, s.2 as int)));
    }
    r
}

/// The view of a slot list.
pub open spec fn slots_view(s: Seq<(Vec<u8>, u32, usize)>) -> Seq<(Seq<u8>, int, int)> {
    s.map_values(|e: (Vec<u8>, u32, usize)| (e.0@, e.1 as int, e.2 as int))
}

/// The slots with the default language's slot swapped to the front,
/// executable form.
fn reorder_slots(slots: Vec<(Vec<u8>, u32, usize)>, default_lang: &Vec<u8>) -> (r: Vec<
    (Vec<u8>, u32, usize),
>)
    ensures
        slots_view(r@) == slots_default_first(slots_view(slots@), default_lang@),
        r@.len() == slots@.len(),
        forall|l: int|
            0 <= l < r@.len() ==> exists|l2: int|
                0 <= l2 < slots@.len() && (#[trigger] r@[l]).2 == slots@[l2].2,
{
    let ghost sv = slots_view(slots@);
    let n = slots.len();
    let mut pos: usize = 0;
    let mut found = false;
    let mut i: usize = 0;
    while i < n
        invariant
            0 <= i <= n,
            n == slots@.len(),
            sv == slots_view(slots@),
            sv.len() == slots@.len(),
            !found ==> find_slot(sv, default_lang@, 0) == find_slot(sv, default_lang@, i as int),
            found ==> find_slot(sv, default_lang@, 0) == Option::Some(pos as int) && pos < n,
        decreases n - i,
    {
        if !found && crate::bytes::bytes_eq(&slots[i].0, default_lang) {
            proof {
                assert(sv[i as int].0 == default_lang@);
            }
            found = true;
            pos = i;
        } else {
            proof {
                if !found {
                    assert(sv[i as int].0 == slots@[i as int].0@);
                }
            }
        }
        i += 1;
    }
    let ghost target = slots_default_first(sv, default_lang@);
    proof {
        if found {
            assert(target == sv.update(0, sv[pos as int]).update(pos as int, sv[0]));
        } else {
            assert(target == sv);
        }
        assert(target.len() == sv.len());
    }
    let mut r: Vec<(Vec<u8>, u32, usize)> = Vec::new();
    let mut j: usize = 0;
    while j < n
        invariant
            0 <= j <= n,
            n == slots@.len(),
            sv == slots_view(slots@),
            sv.len() == slots@.len(),
            target == slots_default_first(sv, default_lang@),
            target.len() == n,
            found ==> pos < n && find_slot(sv, default_lang@, 0) == Option::Some(pos as int),
            !found ==> find_slot(sv, default_lang@, 0) is None,
            slots_view(r@) == target.take(j as int),
            r@.len() == j,
            forall|l: int|
                0 <= l < r@.len() ==> exists|l2: int|
                    0 <= l2 < slots@.len() && (#[trigger] r@[l]).2 == slots@[l2].2,
        decreases n - j,
    {
        let ghost before = slots_view(r@);
        let src: usize = if found && j == 0 {
            pos
        } else if found && j == pos {
            0
        } else {
            j
        };
        let item = (crate::kvmap::clone_bytes(&slots[src].0), slots[src].1, slots[src].2);
        r.push(item);
        proof {
            assert(slots_view(r@) =~= before.push(sv[src as int]));
            assert(target[j as int] == sv[src as int]);
            assert(before.push(target[j as int]) =~= target.take(j + 1));
            assert(r@[r@.len() - 1].2 == slots@[src as int].2);
        }
        j += 1;
    }
    proof {
        assert(target.take(n as int) =~= target);
    }
    r
}

/// The shared-pass strategy: one spreadsheet pass for all languages, then one
/// merge per language from its slice of the shared mapping. Output for a
/// given configuration and input.
pub fn quick_update(cfg: &ResolvedCfg, cells: &Vec<Cell>, docs: &Vec<TargetDoc>) -> (r: Vec<
    MergedDoc,
>)
    ensures
        merged_view(r@) == quick_update_spec(
            *cfg,
            cells_view(cells@),
            docs_view(docs@),
            effective_trim(cfg.regex@),
        ),
{
    let ghost cv = cells_view(cells@);
    let ghost dv = docs_view(docs@);
    let ghost trim = effective_trim(cfg.regex@);
    let params = build_params(cfg);
    let slots0 = build_slots_exec(cfg, docs);
    let ghost sv0 = slots_view(slots0@);
    let mut cols: Vec<u32> = Vec::new();
    let mut i: usize = 0;
    while i < slots0.len()
        invariant
            0 <= i <= slots0@.len(),
            sv0 == slots_view(slots0@),
            sv0.len() == slots0@.len(),
            cols@.map_values(|x: u32| x as int) == slot_cols(sv0).take(i as int),
        decreases slots0@.len() - i,
    {
        let ghost before = cols@.map_values(|x: u32| x as int);
        cols.push(slots0[i].1);
        proof {
            assert(cols@.map_values(|x: u32| x as int) =~= before.push(sv0[i as int].1));
            assert(before.push(slot_cols(sv0)[i as int]) =~= slot_cols(sv0).take(i + 1));
        }
        i += 1;
    }
    proof {
        assert(slot_cols(sv0).take(sv0.len() as int) =~= slot_cols(sv0));
    }
    let mut mm = MultiMap::new();
    proof {
        assert(mm@ =~= Seq::<(Seq<u8>, Seq<(int, Seq<u8>)>)>::empty());
    }
    crate::extract::process_excel_multi_lang(cells, cfg.tag_index, &cols, &mut mm);
    let slots = reorder_slots(slots0, &cfg.default_lang);
    let ghost sv = slots_view(slots@);
    let mut out: Vec<MergedDoc> = Vec::new();
    let mut dm = KvMap::new();
    let mut j: usize = 0;
    proof {
        assert(sv.skip(0) =~= sv);
        assert(merged_view(out@) =~= Seq::<(Seq<u8>, Option<Seq<u8>>)>::empty());
        assert(Seq::<(Seq<u8>, Option<Seq<u8>>)>::empty() + run_slots(
            *cfg,
            dv,
            sv,
            mm@,
            dm@,
            trim,
        ) =~= run_slots(*cfg, dv, sv, mm@, dm@, trim));
    }
    while j < slots.len()
        invariant
            0 <= j <= slots@.len(),
            cv == cells_view(cells@),
            dv == docs_view(docs@),
            dv.len() == docs@.len(),
            trim == effective_trim(cfg.regex@),
            sv == slots_view(slots@),
            sv.len() == slots@.len(),
            forall|l: int| 0 <= l < slots@.len() ==> (#[trigger] slots@[l]).2 < docs@.len(),
            params.replace_blank_with_default == cfg.replace_blank_with_default,
            params.disable_escape == cfg.disable_escape,
            pairs_view(params.escape_only@) == pairs_view(cfg.escape_only@),
            trim_view(params.trimmer) == trim,
            mm.wf(),
            dm.wf(),
            quick_update_spec(*cfg, cv, dv, trim) == merged_view(out@) + run_slots(
                *cfg,
                dv,
                sv.skip(j as int),
                mm@,
                dm@,
                trim,
            ),
        decreases slots@.len() - j,
    {
        let ghost before = merged_view(out@);
        proof {
            assert(sv.skip(j as int)[0] == sv[j as int]);
            assert(sv.skip(j as int).skip(1) =~= sv.skip(j + 1));
            assert(sv[j as int].0 == slots@[j as int].0@);
            assert(sv[j as int].1 == slots@[j as int].1 as int);
            assert(sv[j as int].2 == slots@[j as int].2 as int);
        }
        let m = crate::extract::slice_lang(&mm, slots[j].1);
        let d = slots[j].2;
        let res = update_xml_file(&docs[d].content, &m, &dm, &params, cfg.reset);
        let ghost env = MergeEnv {
            m: m@,
            dm: dm@,
            replace_blank_with_default: cfg.replace_blank_with_default,
            trim,
            disable_escape: cfg.disable_escape,
            rules: pairs_view(cfg.escape_only@),
        };
        proof {
            assert(env == params.env(m@, dm@));
            assert(dv[d as int].0 == docs@[d as int].path@);
            assert(dv[d as int].1 == docs@[d as int].content@);
        }
        let output = match res {
            Ok(o) => Some(o),
            Err(_) => None,
        };
        out.push(MergedDoc { path: crate::kvmap::clone_bytes(&docs[d].path), output });
        proof {
            assert(merged_view(out@) =~= before + seq![
                (dv[d as int].0, merge_doc_spec(dv[d as int].1, env, cfg.reset)),
            ]);
            assert((before + seq![
                (dv[d as int].0, merge_doc_spec(dv[d as int].1, env, cfg.reset)),
            ]) + run_slots(
                *cfg,
                dv,
                sv.skip(j + 1),
                mm@,
                if sv[j as int].0 == cfg.default_lang@ && cfg.replace_blank_with_default {
                    m@
                } else {
                    dm@
                },
                trim,
            ) =~= before + (seq![
                (dv[d as int].0, merge_doc_spec(dv[d as int].1, env, cfg.reset)),
            ] + run_slots(
                *cfg,
                dv,
                sv.skip(j + 1),
                mm@,
                if sv[j as int].0 == cfg.default_lang@ && cfg.replace_blank_with_default {
                    m@
                } else {
                    dm@
                },
                trim,
            )));
        }
        if crate::bytes::bytes_eq(&slots[j].0, &cfg.default_lang)
            && cfg.replace_blank_with_default {
            dm = m.clone_map();
        }
        j += 1;
    }
    proof {
        assert(sv.skip(sv.len() as int) =~= Seq::<(Seq<u8>, int, int)>::empty());
        assert(merged_view(out@) + Seq::<(Seq<u8>, Option<Seq<u8>>)>::empty() =~= merged_view(
            out@,
        ));
    }
    out
}

} // verus!
