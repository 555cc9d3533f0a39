//! The resource merge engine: streams a document's events, rewrites the text
//! of entries whose key is in the mapping, tracks which keys were seen, and
//! appends one entry for every unseen key before the root container's closing
//! tag. A reset merge ignores the events and emits a fresh document.

use vstd::prelude::*;

use crate::escape::{escaped_value, pairs_view, write_value_spec};
use crate::kvmap::{kv_contains, kv_get, KeySet, KvMap, KvSeq};
use crate::trim::{apply_trim, trim_view, Trimmer};
use crate::xml::{events_view, GEvent, XmlEvent};

verus! {

/// Everything a merge depends on besides the document: the mapping, the
/// fallback mapping, and the policy switches.
pub struct MergeEnv {
    /// Key -> value mapping extracted from the spreadsheet.
    pub m: KvSeq,
    /// The default language's mapping, read when a value is blank.
    pub dm: KvSeq,
    /// Fill a blank value from the default language.
    pub replace_blank_with_default: bool,
    /// The trimming pattern, when one is compiled.
    pub trim: Option<Seq<char>>,
    /// Write values verbatim.
    pub disable_escape: bool,
    /// Literal -> replacement rules; empty means default entity escaping.
    pub rules: KvSeq,
}

/// The exact bytes the engine writes for a key of the mapping: the mapped
/// value, a blank one replaced from the fallback mapping, then trimmed, then
/// escaped.
pub open spec fn written(env: MergeEnv, tag: Seq<u8>) -> Seq<u8> {
    escaped_value(
        apply_trim(
            env.trim,
            write_value_spec(tag, kv_get(env.m, tag), env.dm, env.replace_blank_with_default),
        ),
        env.disable_escape,
        env.rules,
    )
}

/// The tag name of an entry.
pub open spec fn string_bytes() -> Seq<u8> {
    seq![115u8, 116u8, 114u8, 105u8, 110u8, 103u8]  // string
}

/// The tag name of the root container.
pub open spec fn resources_bytes() -> Seq<u8> {
    seq![114u8, 101u8, 115u8, 111u8, 117u8, 114u8, 99u8, 101u8, 115u8]  // resources
}

/// Line break written after appended entries.
pub open spec fn newline_bytes() -> Seq<u8> {
    seq![10u8]
}

/// Line break and indentation written before each appended entry.
pub open spec fn indent_bytes() -> Seq<u8> {
    seq![10u8, 32u8, 32u8, 32u8, 32u8]
}

/// The raw bytes of an appended entry's opening tag.
pub open spec fn entry_start_raw(k: Seq<u8>) -> Seq<u8> {
    seq![60u8] + string_bytes() + seq![32u8] + crate::xml::name_attr_bytes() + seq![61u8, 34u8] + k
        + seq![34u8, 62u8]
}

/// The raw bytes of an appended entry's closing tag.
pub open spec fn entry_end_raw() -> Seq<u8> {
    seq![60u8, 47u8] + string_bytes() + seq![62u8]
}

/// The raw bytes of the root container's opening tag.
pub open spec fn resources_start_raw() -> Seq<u8> {
    seq![60u8] + resources_bytes() + seq![62u8]
}

/// The raw bytes of the root container's closing tag.
pub open spec fn resources_end_raw() -> Seq<u8> {
    seq![60u8, 47u8] + resources_bytes() + seq![62u8]
}

/// The declaration a reset merge writes.
pub open spec fn decl_bytes() -> Seq<u8> {
    seq![
        60u8, 63u8, 120u8, 109u8, 108u8, 32u8, 118u8, 101u8, 114u8, 115u8, 105u8, 111u8, 110u8,
        61u8, 34u8, 49u8, 46u8, 48u8, 34u8, 32u8, 101u8, 110u8, 99u8, 111u8, 100u8, 105u8, 110u8,
        103u8, 61u8, 34u8, 117u8, 116u8, 102u8, 45u8, 56u8, 34u8, 63u8, 62u8,
    ]  // <?xml version="1.0" encoding="utf-8"?>
}

/// The four events of one appended entry.
pub open spec fn entry_events(env: MergeEnv, k: Seq<u8>) -> Seq<GEvent> {
    seq![
        GEvent::Text { raw: indent_bytes() },
        GEvent::Start { raw: entry_start_raw(k), name: string_bytes(), key: Option::Some(k) },
        GEvent::Text { raw: written(env, k) },
        GEvent::End { raw: entry_end_raw(), name: string_bytes() },
    ]
}

/// One appended entry per mapping key not in `updated`, in mapping order.
pub open spec fn missing_entries(env: MergeEnv, entries: KvSeq, updated: Set<Seq<u8>>) -> Seq<
    GEvent,
>
    decreases entries.len(),
{
    if entries.len() == 0 {
        Seq::empty()
    } else {
        (if !updated.contains(entries[0].0) {
            entry_events(env, entries[0].0)
        } else {
            Seq::empty()
        }) + missing_entries(env, entries.skip(1), updated)
    }
}

/// What is written before the root container's closing tag: the missing
/// entries, then one line break if at least one entry was appended.
pub open spec fn missing_block(env: MergeEnv, updated: Set<Seq<u8>>) -> Seq<GEvent> {
    let body = missing_entries(env, env.m, updated);
    if body.len() == 0 {
        Seq::empty()
    } else {
        body + seq![GEvent::Text { raw: newline_bytes() }]
    }
}

/// The merge state between events: the key of the entry whose text node is
/// awaited, and the keys already seen.
pub struct MergeState {
    pub current: Option<Seq<u8>>,
    pub updated: Set<Seq<u8>>,
}

/// The state a merge starts in.
pub open spec fn init_state() -> MergeState {
    MergeState { current: Option::None, updated: Set::empty() }
}

/// Whether an opening tag activates a key of the mapping.
pub open spec fn start_matches(env: MergeEnv, name: Seq<u8>, key: Option<Seq<u8>>) -> bool {
    name == string_bytes() && match key {
        Option::Some(k) => kv_contains(env.m, k),
        Option::None => false,
    }
}

/// One transition: the next state and the events written for this event.
pub open spec fn step(env: MergeEnv, st: MergeState, ev: GEvent) -> (MergeState, Seq<GEvent>) {
    match ev {
        GEvent::Start { raw, name, key } => {
            if start_matches(env, name, key) {
                (MergeState { current: key, updated: st.updated }, seq![ev])
            } else {
                (st, seq![ev])
            }
        },
        GEvent::Text { raw } => {
            match st.current {
                Option::None => (st, seq![ev]),
                Option::Some(k) => {
                    let st2 = MergeState { current: Option::None, updated: st.updated.insert(k) };
                    if kv_get(env.m, k).len() > 0 {
                        (st2, seq![GEvent::Text { raw: written(env, k) }])
                    } else {
                        (st2, seq![ev])
                    }
                },
            }
        },
        GEvent::End { raw, name } => {
            if name == resources_bytes() {
                (st, missing_block(env, st.updated) + seq![ev])
            } else {
                (st, seq![ev])
            }
        },
        GEvent::Other { .. } => (st, seq![ev]),
    }
}

/// The run of the machine over an event list.
pub open spec fn run(env: MergeEnv, st: MergeState, evs: Seq<GEvent>) -> (MergeState, Seq<GEvent>)
    decreases evs.len(),
{
    if evs.len() == 0 {
        (st, Seq::empty())
    } else {
        let first = step(env, st, evs[0]);
        let rest = run(env, first.0, evs.skip(1));
        (rest.0, first.1 + rest.1)
    }
}

/// The merged event list of a document's events.
pub open spec fn merge_spec(env: MergeEnv, evs: Seq<GEvent>) -> Seq<GEvent> {
    run(env, init_state(), evs).1
}

/// The fresh document a reset merge emits: declaration, root container, one
/// entry per mapping key in mapping order, root container closed.
pub open spec fn reset_spec(env: MergeEnv) -> Seq<GEvent> {
    seq![
        GEvent::Other { raw: decl_bytes() },
        GEvent::Text { raw: newline_bytes() },
        GEvent::Start { raw: resources_start_raw(), name: resources_bytes(), key: Option::None },
    ] + missing_entries(env, env.m, Set::empty()) + seq![
        GEvent::Text { raw: newline_bytes() },
        GEvent::End { raw: resources_end_raw(), name: resources_bytes() },
    ]
}

/// Splitting a run at any point composes.
pub proof fn lemma_run_concat(env: MergeEnv, st: MergeState, a: Seq<GEvent>, b: Seq<GEvent>)
    ensures
        run(env, st, a + b).0 == run(env, run(env, st, a).0, b).0,
        run(env, st, a + b).1 == run(env, st, a).1 + run(env, run(env, st, a).0, b).1,
    decreases a.len(),
{
    if a.len() == 0 {
        assert(a + b =~= b);
        assert(run(env, st, a).1 + run(env, st, b).1 =~= run(env, st, b).1);
    } else {
        let first = step(env, st, a[0]);
        assert((a + b)[0] == a[0]);
        assert((a + b).skip(1) =~= a.skip(1) + b);
        lemma_run_concat(env, first.0, a.skip(1), b);
        let mid = run(env, first.0, a.skip(1));
        assert((first.1 + mid.1) + run(env, mid.0, b).1 =~= first.1 + (mid.1 + run(
            env,
            mid.0,
            b,
        ).1));
    }
}

/// Missing entries over a split key list compose.
pub proof fn lemma_missing_concat(env: MergeEnv, a: KvSeq, b: KvSeq, updated: Set<Seq<u8>>)
    ensures
        missing_entries(env, a + b, updated) == missing_entries(env, a, updated)
            + missing_entries(env, b, updated),
    decreases a.len(),
{
    if a.len() == 0 {
        assert(a + b =~= b);
        assert(missing_entries(env, a, updated) + missing_entries(env, b, updated)
            =~= missing_entries(env, b, updated));
    } else {
        assert((a + b)[0] == a[0]);
        assert((a + b).skip(1) =~= a.skip(1) + b);
        lemma_missing_concat(env, a.skip(1), b, updated);
        let head = if !updated.contains(a[0].0) {
            entry_events(env, a[0].0)
        } else {
            Seq::<GEvent>::empty()
        };
        assert((head + missing_entries(env, a.skip(1), updated)) + missing_entries(env, b, updated)
            =~= head + (missing_entries(env, a.skip(1), updated) + missing_entries(
            env,
            b,
            updated,
        )));
    }
}

/// The policy switches of one merge, with the compiled trimming pattern.
pub struct MergeParams {
    /// Fill a blank value from the default language.
    pub replace_blank_with_default: bool,
    /// Write values verbatim.
    pub disable_escape: bool,
    /// Literal -> replacement rules; empty means default entity escaping.
    pub escape_only: Vec<(Vec<u8>, Vec<u8>)>,
    /// The compiled trimming pattern, when one is configured and compiles.
    pub trimmer: Option<Trimmer>,
}

impl MergeParams {
    /// The merge environment these switches and mappings stand for.
    pub open spec fn env(&self, m: KvSeq, dm: KvSeq) -> MergeEnv {
        MergeEnv {
            m,
            dm,
            replace_blank_with_default: self.replace_blank_with_default,
            trim: trim_view(self.trimmer),
            disable_escape: self.disable_escape,
            rules: pairs_view(self.escape_only@),
        }
    }
}

/// The bytes written for one key of the mapping.
fn write_entry_value(p: &MergeParams, m: &KvMap, dm: &KvMap, k: &Vec<u8>) -> (r: Vec<u8>)
    requires
        m.wf(),
        dm.wf(),
        kv_contains(m@, k@),
    ensures
        r@ == written(p.env(m@, dm@), k@),
{
    let value = match m.get(k) {
        Some(v) => crate::kvmap::clone_bytes(v),
        None => Vec::new(),  // not reached: the key is in the mapping
    };
    let wv = crate::escape::get_write_value(k, &value, dm, p.replace_blank_with_default);
    let tv = crate::trim::trim_value(&p.trimmer, &wv);
    crate::escape::escape_value(&tv, p.disable_escape, &p.escape_only)
}

/// Executable form of the tag name of an entry.
fn string_name() -> (r: Vec<u8>)
    ensures
        r@ == string_bytes(),
{
    let mut r: Vec<u8> = Vec::new();
    r.push(115);
    r.push(116);
    r.push(114);
    r.push(105);
    r.push(110);
    r.push(103);
    proof {
        assert(r@ =~= string_bytes());
    }
    r
}

/// Executable form of the root container's tag name.
fn resources_name() -> (r: Vec<u8>)
    ensures
        r@ == resources_bytes(),
{
    let mut r: Vec<u8> = Vec::new();
    r.push(114);
    r.push(101);
    r.push(115);
    r.push(111);
    r.push(117);
    r.push(114);
    r.push(99);
    r.push(101);
    r.push(115);
    proof {
        assert(r@ =~= resources_bytes());
    }
    r
}

/// Executable line break.
fn newline_vec() -> (r: Vec<u8>)
    ensures
        r@ == newline_bytes(),
{
    let mut r: Vec<u8> = Vec::new();
    r.push(10);
    proof {
        assert(r@ =~= newline_bytes());
    }
    r
}

/// Executable indentation.
fn indent_vec() -> (r: Vec<u8>)
    ensures
        r@ == indent_bytes(),
{
    let mut r: Vec<u8> = Vec::new();
    r.push(10);
    r.push(32);
    r.push(32);
    r.push(32);
    r.push(32);
    proof {
        assert(r@ =~= indent_bytes());
    }
    r
}

/// Executable form of the attribute name `name`.
fn name_attr_vec() -> (r: Vec<u8>)
    ensures
        r@ == crate::xml::name_attr_bytes(),
{
    let mut r: Vec<u8> = Vec::new();
    r.push(110);
    r.push(97);
    r.push(109);
    r.push(101);
    proof {
        assert(r@ =~= crate::xml::name_attr_bytes());
    }
    r
}

/// Executable declaration.
fn decl_vec() -> (r: Vec<u8>)
    ensures
        r@ == decl_bytes(),
{
    let mut r: Vec<u8> = Vec::new();
    r.push(60);
    r.push(63);
    r.push(120);
    r.push(109);
    r.push(108);
    r.push(32);
    r.push(118);
    r.push(101);
    r.push(114);
    r.push(115);
    r.push(105);
    r.push(111);
    r.push(110);
    r.push(61);
    r.push(34);
    r.push(49);
    r.push(46);
    r.push(48);
    r.push(34);
    r.push(32);
    r.push(101);
    r.push(110);
    r.push(99);
    r.push(111);
    r.push(100);
    r.push(105);
    r.push(110);
    r.push(103);
    r.push(61);
    r.push(34);
    r.push(117);
    r.push(116);
    r.push(102);
    r.push(45);
    r.push(56);
    r.push(34);
    r.push(63);
    r.push(62);
    proof {
        assert(r@ =~= decl_bytes());
    }
    r
}

/// A copy of one event.
pub fn clone_event(e: &XmlEvent) -> (r: XmlEvent)
    ensures
        r@ == e@,
{
    match e {
        XmlEvent::Start { raw, name, key } => XmlEvent::Start {
            raw: crate::kvmap::clone_bytes(raw),
            name: crate::kvmap::clone_bytes(name),
            key: match key {
                Some(k) => Some(crate::kvmap::clone_bytes(k)),
                None => None,
            },
        },
        XmlEvent::End { raw, name } => XmlEvent::End {
            raw: crate::kvmap::clone_bytes(raw),
            name: crate::kvmap::clone_bytes(name),
        },
        XmlEvent::Text { raw } => XmlEvent::Text { raw: crate::kvmap::clone_bytes(raw) },
        XmlEvent::Other { raw } => XmlEvent::Other { raw: crate::kvmap::clone_bytes(raw) },
    }
}

/// Appends the four events of one entry for key `k`.
fn push_entry(out: &mut Vec<XmlEvent>, p: &MergeParams, m: &KvMap, dm: &KvMap, k: &Vec<u8>)
    requires
        m.wf(),
        dm.wf(),
        kv_contains(m@, k@),
    ensures
        events_view(final(out)@) == events_view(old(out)@) + entry_events(p.env(m@, dm@), k@),
{
    let ghost env = p.env(m@, dm@);
    let ghost before = events_view(out@);
    out.push(XmlEvent::Text { raw: indent_vec() });
    let mut raw: Vec<u8> = Vec::new();
    raw.push(60);
    crate::bytes::append_bytes(&mut raw, &string_name());
    raw.push(32);
    crate::bytes::append_bytes(&mut raw, &name_attr_vec());
    raw.push(61);
    raw.push(34);
    crate::bytes::append_bytes(&mut raw, k);
    raw.push(34);
    raw.push(62);
    proof {
        assert(raw@ =~= entry_start_raw(k@));
    }
    out.push(XmlEvent::Start { raw, name: string_name(), key: Some(crate::kvmap::clone_bytes(k)) });
    out.push(XmlEvent::Text { raw: write_entry_value(p, m, dm, k) });
    let mut eraw: Vec<u8> = Vec::new();
    eraw.push(60);
    eraw.push(47);
    crate::bytes::append_bytes(&mut eraw, &string_name());
    eraw.push(62);
    proof {
        assert(eraw@ =~= entry_end_raw());
    }
    out.push(XmlEvent::End { raw: eraw, name: string_name() });
    proof {
        assert(events_view(out@) =~= before + entry_events(env, k@));
    }
}

/// The view of the optional key the machine is waiting on.
pub open spec fn current_view(c: Option<Vec<u8>>) -> Option<Seq<u8>> {
    match c {
        Option::Some(k) => Option::Some(k@),
        Option::None => Option::None,
    }
}

/// Streams the events of one document through the merge machine.
pub fn merge_events(evs: &Vec<XmlEvent>, m: &KvMap, dm: &KvMap, p: &MergeParams) -> (r: Vec<
    XmlEvent,
>)
    requires
        m.wf(),
        dm.wf(),
    ensures
        events_view(r@) == merge_spec(p.env(m@, dm@), events_view(evs@)),
{
    let ghost env = p.env(m@, dm@);
    let ghost gv = events_view(evs@);
    let string_tag = string_name();
    let resources_tag = resources_name();
    let mut out: Vec<XmlEvent> = Vec::new();
    let mut current: Option<Vec<u8>> = None;
    let mut updated = KeySet::new();
    let mut i: usize = 0;
    proof {
        assert(gv.take(0) =~= Seq::<GEvent>::empty());
        assert(events_view(out@) =~= Seq::<GEvent>::empty());
    }
    while i < evs.len()
        invariant
            0 <= i <= evs@.len(),
            gv == events_view(evs@),
            gv.len() == evs@.len(),
            env == p.env(m@, dm@),
            m.wf(),
            dm.wf(),
            string_tag@ == string_bytes(),
            resources_tag@ == resources_bytes(),
            match current {
                Option::Some(ref k) => kv_contains(m@, k@),
                Option::None => true,
            },
            run(env, init_state(), gv.take(i as int)).0 == (MergeState {
                current: current_view(current),
                updated: updated.to_set(),
            }),
            run(env, init_state(), gv.take(i as int)).1 == events_view(out@),
        decreases evs@.len() - i,
    {
        let ghost st = run(env, init_state(), gv.take(i as int)).0;
        let ghost ev = gv[i as int];
        let ghost ov = events_view(out@);
        proof {
            reveal_with_fuel(run, 2);
            assert(gv.take(i + 1) =~= gv.take(i as int) + seq![ev]);
            lemma_run_concat(env, init_state(), gv.take(i as int), seq![ev]);
            assert(seq![ev].skip(1) =~= Seq::<GEvent>::empty());
            assert(run(env, st, seq![ev]).0 == step(env, st, ev).0);
            assert(run(env, st, seq![ev]).1 =~= step(env, st, ev).1);
            assert(evs@[i as int]@ == ev);
        }
        let e = &evs[i];
        match e {
            XmlEvent::Start { raw, name, key } => {
                if crate::bytes::bytes_eq(name, &string_tag) {
                    match key {
                        Some(k) => {
                            if m.contains_key(k) {
                                current = Some(crate::kvmap::clone_bytes(k));
                            }
                        },
                        None => {},
                    }
                }
                out.push(clone_event(e));
                proof {
                    assert(events_view(out@) =~= ov + seq![ev]);
                    assert(step(env, st, ev).1 == seq![ev]);
                }
            },
            XmlEvent::Text { raw } => {
                let cur = current;
                current = None;
                match cur {
                    Some(k) => {
                        updated.add(crate::kvmap::clone_bytes(&k));
                        let mut replace = false;
                        match m.get(&k) {
                            Some(v) => {
                                if v.len() > 0 {
                                    replace = true;
                                }
                            },
                            None => {},
                        }
                        proof {
                            assert(replace == (kv_get(env.m, k@).len() > 0));
                        }
                        if replace {
                            out.push(XmlEvent::Text { raw: write_entry_value(p, m, dm, &k) });
                            proof {
                                assert(events_view(out@) =~= ov + seq![
                                    GEvent::Text { raw: written(env, k@) },
                                ]);
                            }
                        } else {
                            out.push(clone_event(e));
                            proof {
                                assert(events_view(out@) =~= ov + seq![ev]);
                            }
                        }
                    },
                    None => {
                        out.push(clone_event(e));
                        proof {
                            assert(events_view(out@) =~= ov + seq![ev]);
                        }
                    },
                }
            },
            XmlEvent::End { raw, name } => {
                if crate::bytes::bytes_eq(name, &resources_tag) {
                    let mut added = false;
                    let mut j: usize = 0;
                    proof {
                        assert(m@.take(0) =~= Seq::<(Seq<u8>, Seq<u8>)>::empty());
                        assert(events_view(out@) =~= ov + missing_entries(
                            env,
                            m@.take(0),
                            st.updated,
                        ));
                    }
                    while j < m.len()
                        invariant
                            0 <= j <= m@.len(),
                            env == p.env(m@, dm@),
                            m.wf(),
                            dm.wf(),
                            updated.to_set() == st.updated,
                            events_view(out@) == ov + missing_entries(
                                env,
                                m@.take(j as int),
                                st.updated,
                            ),
                            added == (missing_entries(env, m@.take(j as int), st.updated).len()
                                > 0),
                        decreases m@.len() - j,
                    {
                        let ghost prefix = missing_entries(env, m@.take(j as int), st.updated);
                        proof {
                            reveal_with_fuel(missing_entries, 2);
                            assert(m@.take(j + 1) =~= m@.take(j as int) + seq![m@[j as int]]);
                            lemma_missing_concat(
                                env,
                                m@.take(j as int),
                                seq![m@[j as int]],
                                st.updated,
                            );
                            assert(seq![m@[j as int]].skip(1) =~= Seq::<
                                (Seq<u8>, Seq<u8>),
                            >::empty());
                            assert(missing_entries(env, seq![m@[j as int]], st.updated) =~= (
                            if !st.updated.contains(m@[j as int].0) {
                                entry_events(env, m@[j as int].0)
                            } else {
                                Seq::<GEvent>::empty()
                            }));
                        }
                        let kc = crate::kvmap::clone_bytes(m.key_at(j));
                        if !updated.contains(&kc) {
                            proof {
                                crate::kvmap::lemma_kv_index_unique(m@, kc@, j as int);
                            }
                            push_entry(&mut out, p, m, dm, &kc);
                            added = true;
                            proof {
                                assert(events_view(out@) =~= ov + (prefix + entry_events(
                                    env,
                                    m@[j as int].0,
                                )));
                            }
                        } else {
                            proof {
                                assert(prefix + Seq::<GEvent>::empty() =~= prefix);
                            }
                        }
                        j += 1;
                    }
                    proof {
                        assert(j == m@.len());
                        assert(m@.take(j as int) =~= m@);
                    }
                    if added {
                        let ghost pre = events_view(out@);
                        proof {
                            assert(pre == ov + missing_entries(env, m@, st.updated));
                        }
                        out.push(XmlEvent::Text { raw: newline_vec() });
                        proof {
                            assert(events_view(out@) =~= pre + seq![
                                GEvent::Text { raw: newline_bytes() },
                            ]);
                            assert(pre + seq![GEvent::Text { raw: newline_bytes() }] =~= ov + (
                            missing_entries(env, m@, st.updated) + seq![
                                GEvent::Text { raw: newline_bytes() },
                            ]));
                            assert(events_view(out@) =~= ov + missing_block(env, st.updated));
                        }
                    } else {
                        proof {
                            assert(missing_block(env, st.updated) =~= Seq::<GEvent>::empty());
                            assert(events_view(out@) =~= ov + missing_block(env, st.updated));
                        }
                    }
                    out.push(clone_event(e));
                    proof {
                        assert(events_view(out@) =~= (ov + missing_block(env, st.updated))
                            + seq![ev]);
                        assert((ov + missing_block(env, st.updated)) + seq![ev] =~= ov + (
                        missing_block(env, st.updated) + seq![ev]));
                        assert(step(env, st, ev).1 == missing_block(env, st.updated) + seq![ev]);
                    }
                } else {
                    out.push(clone_event(e));
                    proof {
                        assert(events_view(out@) =~= ov + seq![ev]);
                    }
                }
            },
            XmlEvent::Other { raw } => {
                out.push(clone_event(e));
                proof {
                    assert(events_view(out@) =~= ov + seq![ev]);
                }
            },
        }
        proof {
            assert(run(env, init_state(), gv.take(i + 1)).1 == events_view(out@));
            assert(run(env, init_state(), gv.take(i + 1)).0 == (MergeState {
                current: current_view(current),
                updated: updated.to_set(),
            }));
        }
        i += 1;
    }
    proof {
        assert(gv.take(gv.len() as int) =~= gv);
    }
    out
}

/// The fresh document of a reset merge, as events.
pub fn reset_events(m: &KvMap, dm: &KvMap, p: &MergeParams) -> (r: Vec<XmlEvent>)
    requires
        m.wf(),
        dm.wf(),
    ensures
        events_view(r@) == reset_spec(p.env(m@, dm@)),
{
    let ghost env = p.env(m@, dm@);
    let mut out: Vec<XmlEvent> = Vec::new();
    out.push(XmlEvent::Other { raw: decl_vec() });
    out.push(XmlEvent::Text { raw: newline_vec() });
    let mut rraw: Vec<u8> = Vec::new();
    rraw.push(60);
    crate::bytes::append_bytes(&mut rraw, &resources_name());
    rraw.push(62);
    proof {
        assert(rraw@ =~= resources_start_raw());
    }
    out.push(XmlEvent::Start { raw: rraw, name: resources_name(), key: None });
    let ghost head = events_view(out@);
    proof {
        assert(head =~= seq![
            GEvent::Other { raw: decl_bytes() },
            GEvent::Text { raw: newline_bytes() },
            GEvent::Start {
                raw: resources_start_raw(),
                name: resources_bytes(),
                key: Option::None,
            },
        ]);
        assert(m@.take(0) =~= Seq::<(Seq<u8>, Seq<u8>)>::empty());
        assert(events_view(out@) =~= head + missing_entries(env, m@.take(0), Set::empty()));
    }
    let mut j: usize = 0;
    while j < m.len()
        invariant
            0 <= j <= m@.len(),
            env == p.env(m@, dm@),
            m.wf(),
            dm.wf(),
            events_view(out@) == head + missing_entries(env, m@.take(j as int), Set::empty()),
            head == seq![
                GEvent::Other { raw: decl_bytes() },
                GEvent::Text { raw: newline_bytes() },
                GEvent::Start {
                    raw: resources_start_raw(),
                    name: resources_bytes(),
                    key: Option::None,
                },
            ],
        decreases m@.len() - j,
    {
        let ghost prefix = missing_entries(env, m@.take(j as int), Set::empty());
        proof {
            reveal_with_fuel(missing_entries, 2);
            assert(m@.take(j + 1) =~= m@.take(j as int) + seq![m@[j as int]]);
            lemma_missing_concat(env, m@.take(j as int), seq![m@[j as int]], Set::empty());
            assert(seq![m@[j as int]].skip(1) =~= Seq::<(Seq<u8>, Seq<u8>)>::empty());
            assert(missing_entries(env, seq![m@[j as int]], Set::empty()) =~= entry_events(
                env,
                m@[j as int].0,
            ));
        }
        let kc = crate::kvmap::clone_bytes(m.key_at(j));
        proof {
            crate::kvmap::lemma_kv_index_unique(m@, kc@, j as int);
        }
        push_entry(&mut out, p, m, dm, &kc);
        proof {
            assert(events_view(out@) =~= head + (prefix + entry_events(env, m@[j as int].0)));
        }
        j += 1;
    }
    proof {
        assert(m@.take(m@.len() as int) =~= m@);
    }
    out.push(XmlEvent::Text { raw: newline_vec() });
    let mut eraw: Vec<u8> = Vec::new();
    eraw.push(60);
    eraw.push(47);
    crate::bytes::append_bytes(&mut eraw, &resources_name());
    eraw.push(62);
    proof {
        assert(eraw@ =~= resources_end_raw());
    }
    out.push(XmlEvent::End { raw: eraw, name: resources_name() });
    proof {
        assert(events_view(out@) =~= reset_spec(env));
    }
    out
}

} // verus!
