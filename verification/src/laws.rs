//! Laws of the engine, stated and proved over the specification level:
//! merging twice is merging once, entries outside the mapping pass through
//! unchanged, an empty mapped value never erases existing text, a reset merge
//! of an empty mapping is the bare document, one row contributes exactly its
//! trimmed key and captured value, and the two extraction strategies agree on
//! every language whenever no two rows share a key.

use vstd::prelude::*;

use crate::kvmap::{kv_contains, kv_get, KvSeq};
use crate::merge::{
    entry_events, init_state, merge_spec, missing_block, missing_entries, resources_bytes, run,
    start_matches, step, string_bytes, written, MergeEnv, MergeState,
};
use crate::xml::GEvent;

verus! {

/// The set of keys of a mapping.
pub open spec fn key_set(m: KvSeq) -> Set<Seq<u8>> {
    Set::new(|k: Seq<u8>| kv_contains(m, k))
}

/// Whether an event is an opening tag that activates a key of the mapping.
pub open spec fn is_matched_start(env: MergeEnv, ev: GEvent) -> bool {
    match ev {
        GEvent::Start { name, key, .. } => start_matches(env, name, key),
        _ => false,
    }
}

/// Every opening tag that activates a key is directly followed by its text
/// node. This is the shape `<string name="k">text</string>` entries have; an
/// activated entry with no text node of its own would capture a later text
/// node instead.
pub open spec fn starts_closed(env: MergeEnv, evs: Seq<GEvent>) -> bool {
    forall|j: int|
        0 <= j < evs.len() && is_matched_start(env, #[trigger] evs[j]) ==> j + 1 < evs.len() && (
        evs[j + 1] is Text)
}

/// A reachable state: seen keys are keys of the mapping, and so is the
/// awaited key.
pub open spec fn state_ok(env: MergeEnv, s: MergeState) -> bool {
    s.updated.subset_of(key_set(env.m)) && (match s.current {
        Option::Some(k) => kv_contains(env.m, k),
        Option::None => true,
    })
}

/// How the state of a second merge relates to the state of the first: same
/// awaited key, at least the same seen keys, and either exactly the same seen
/// keys or all of them.
pub open spec fn inv_pair(env: MergeEnv, s: MergeState, t: MergeState) -> bool {
    state_ok(env, s) && state_ok(env, t) && t.current == s.current && s.updated.subset_of(
        t.updated,
    ) && (t.updated == s.updated || key_set(env.m).subset_of(t.updated))
}

/// A mapping that appends nothing had every key seen.
proof fn lemma_missing_empty_keys(env: MergeEnv, entries: KvSeq, updated: Set<Seq<u8>>)
    requires
        missing_entries(env, entries, updated).len() == 0,
    ensures
        forall|l: int| 0 <= l < entries.len() ==> updated.contains((#[trigger] entries[l]).0),
    decreases entries.len(),
{
    if entries.len() > 0 {
        if !updated.contains(entries[0].0) {
            assert(entry_events(env, entries[0].0).len() == 4);
            assert(missing_entries(env, entries, updated).len() >= 4);
        }
        lemma_missing_empty_keys(env, entries.skip(1), updated);
        assert forall|l: int| 0 <= l < entries.len() implies updated.contains(
            (#[trigger] entries[l]).0,
        ) by {
            if l > 0 {
                assert(entries.skip(1)[l - 1] == entries[l]);
            }
        }
    }
}

/// A mapping whose keys were all seen appends nothing.
proof fn lemma_missing_all_updated(env: MergeEnv, entries: KvSeq, updated: Set<Seq<u8>>)
    requires
        forall|l: int| 0 <= l < entries.len() ==> updated.contains((#[trigger] entries[l]).0),
    ensures
        missing_entries(env, entries, updated).len() == 0,
    decreases entries.len(),
{
    if entries.len() > 0 {
        assert(updated.contains(entries[0].0));
        lemma_missing_all_updated(env, entries.skip(1), updated);
    }
}

/// The keys of a mapping, split at its first entry.
proof fn lemma_key_set_unfold(entries: KvSeq)
    requires
        entries.len() > 0,
    ensures
        key_set(entries) == key_set(entries.skip(1)).insert(entries[0].0),
{
    assert forall|x: Seq<u8>| key_set(entries).contains(x) implies key_set(
        entries.skip(1),
    ).insert(entries[0].0).contains(x) by {
        let i = choose|i: int| 0 <= i < entries.len() && entries[i].0 == x;
        if i > 0 {
            assert(entries.skip(1)[i - 1].0 == x);
            assert(kv_contains(entries.skip(1), x));
        }
    }
    assert forall|x: Seq<u8>| key_set(entries.skip(1)).insert(entries[0].0).contains(x) implies
        key_set(entries).contains(x) by {
        if x == entries[0].0 {
            assert(entries[0].0 == x);
        } else {
            let i = choose|i: int| 0 <= i < entries.skip(1).len() && entries.skip(1)[i].0 == x;
            assert(entries[i + 1].0 == x);
        }
    }
    assert(key_set(entries) =~= key_set(entries.skip(1)).insert(entries[0].0));
}

/// A second merge passes an appended block through unchanged, marking every
/// key the block holds.
proof fn lemma_run_block(env: MergeEnv, entries: KvSeq, u: Set<Seq<u8>>, t: MergeState)
    requires
        t.current is None,
        forall|l: int| 0 <= l < entries.len() ==> kv_contains(env.m, (#[trigger] entries[l]).0),
    ensures
        run(env, t, missing_entries(env, entries, u)).1 == missing_entries(env, entries, u),
        run(env, t, missing_entries(env, entries, u)).0.current is None,
        run(env, t, missing_entries(env, entries, u)).0.updated == t.updated.union(
            key_set(entries).difference(u),
        ),
    decreases entries.len(),
{
    let b = missing_entries(env, entries, u);
    if entries.len() == 0 {
        assert(b.len() == 0);
        assert(key_set(entries) =~= Set::<Seq<u8>>::empty()) by {
            assert forall|x: Seq<u8>| !key_set(entries).contains(x) by {
                if kv_contains(entries, x) {
                    let i = choose|i: int| 0 <= i < entries.len() && entries[i].0 == x;
                }
            }
        }
        assert(t.updated.union(key_set(entries).difference(u)) =~= t.updated);
    } else {
        let k = entries[0].0;
        let rest = missing_entries(env, entries.skip(1), u);
        lemma_key_set_unfold(entries);
        if u.contains(k) {
            assert(b == Seq::<GEvent>::empty() + rest);
            assert(b =~= rest);
            lemma_run_block(env, entries.skip(1), u, t);
            assert(key_set(entries).difference(u) =~= key_set(entries.skip(1)).difference(u));
        } else {
            let e = entry_events(env, k);
            assert(b == e + rest);
            let e0 = GEvent::Text { raw: crate::merge::indent_bytes() };
            let e1 = GEvent::Start {
                raw: crate::merge::entry_start_raw(k),
                name: string_bytes(),
                key: Option::Some(k),
            };
            let e2 = GEvent::Text { raw: written(env, k) };
            let e3 = GEvent::End { raw: crate::merge::entry_end_raw(), name: string_bytes() };
            assert(e =~= seq![e0] + (seq![e1] + (seq![e2] + seq![e3])));
            // run the four events of the entry one at a time
            let t1 = step(env, t, e0).0;
            assert(t1 == t);
            assert(step(env, t, e0).1 == seq![e0]);
            let t2 = step(env, t1, e1).0;
            assert(start_matches(env, string_bytes(), Option::Some(k)));
            assert(t2 == MergeState { current: Option::Some(k), updated: t1.updated });
            assert(step(env, t1, e1).1 == seq![e1]);
            let t3 = step(env, t2, e2).0;
            assert(t3 == MergeState { current: Option::None, updated: t2.updated.insert(k) });
            assert(step(env, t2, e2).1 == seq![e2]);
            assert(string_bytes().len() != resources_bytes().len());
            let t4 = step(env, t3, e3).0;
            assert(t4 == t3);
            assert(step(env, t3, e3).1 == seq![e3]);
            crate::merge::lemma_run_concat(env, t2, seq![e2], seq![e3]);
            crate::merge::lemma_run_concat(env, t1, seq![e1], seq![e2] + seq![e3]);
            crate::merge::lemma_run_concat(env, t, seq![e0], seq![e1] + (seq![e2] + seq![e3]));
            proof_run_single_event(env, t, e0);
            proof_run_single_event(env, t1, e1);
            proof_run_single_event(env, t2, e2);
            proof_run_single_event(env, t3, e3);
            assert(seq![e1] + (seq![e2] + seq![e3]) =~= seq![e1] + seq![e2] + seq![e3]);
            assert(run(env, t, e).0 == t4);
            assert(run(env, t, e).1 =~= e);
            lemma_run_block(env, entries.skip(1), u, t4);
            crate::merge::lemma_run_concat(env, t, e, rest);
            assert(run(env, t, b).1 =~= e + rest);
            assert(run(env, t, b).0.updated =~= t.updated.union(key_set(entries).difference(u)))
                by {
                assert(run(env, t, b).0.updated == t4.updated.union(
                    key_set(entries.skip(1)).difference(u),
                ));
                assert(t4.updated == t.updated.insert(k));
            }
        }
    }
}

/// The run of one event is its step.
proof fn proof_run_single_event(env: MergeEnv, st: MergeState, ev: GEvent)
    ensures
        run(env, st, seq![ev]).0 == step(env, st, ev).0,
        run(env, st, seq![ev]).1 == step(env, st, ev).1,
{
    reveal_with_fuel(run, 2);
    assert(seq![ev].skip(1) =~= Seq::<GEvent>::empty());
    assert(run(env, st, seq![ev]).1 =~= step(env, st, ev).1);
}

/// The heart of idempotence: running the merged output through the machine a
/// second time reproduces it, from any pair of related states.
proof fn lemma_idem_run(env: MergeEnv, evs: Seq<GEvent>, s: MergeState, t: MergeState)
    requires
        inv_pair(env, s, t),
        starts_closed(env, evs),
        match s.current {
            Option::Some(_) => evs.len() > 0 && (evs[0] is Text),
            Option::None => true,
        },
    ensures
        run(env, t, run(env, s, evs).1).1 == run(env, s, evs).1,
        inv_pair(env, run(env, s, evs).0, run(env, t, run(env, s, evs).1).0),
    decreases evs.len(),
{
    if evs.len() == 0 {
        assert(run(env, s, evs).1 =~= Seq::<GEvent>::empty());
    } else {
        let ev = evs[0];
        let s1 = step(env, s, ev).0;
        let o1 = step(env, s, ev).1;
        let tail = evs.skip(1);
        let orest = run(env, s1, tail).1;
        assert(run(env, s, evs).1 == o1 + orest);
        // the suffix keeps the closed-starts shape
        assert(starts_closed(env, tail)) by {
            assert forall|j: int|
                0 <= j < tail.len() && is_matched_start(env, #[trigger] tail[j]) implies j + 1
                < tail.len() && (tail[j + 1] is Text) by {
                assert(tail[j] == evs[j + 1]);
                assert(is_matched_start(env, evs[j + 1]));
                assert(evs[j + 2] is Text);
                assert(tail[j + 1] == evs[j + 2]);
            }
        }
        // one step of the second run over this step's output
        let t1 = run(env, t, o1).0;
        match ev {
            GEvent::Start { raw, name, key } => {
                proof_run_single_event(env, t, ev);
                if start_matches(env, name, key) {
                    assert(evs[1] is Text) by {
                        assert(is_matched_start(env, evs[0]));
                    }
                    assert(match s1.current {
                        Option::Some(_) => tail.len() > 0 && (tail[0] is Text),
                        Option::None => true,
                    }) by {
                        assert(tail[0] == evs[1]);
                    }
                } else {
                    assert(s1 == s);
                }
                assert(run(env, t, o1).1 == o1);
                assert(inv_pair(env, s1, t1));
            },
            GEvent::Text { raw } => {
                match s.current {
                    Option::None => {
                        proof_run_single_event(env, t, ev);
                        assert(o1 == seq![ev]);
                        assert(run(env, t, o1).1 == o1);
                        assert(inv_pair(env, s1, t1));
                    },
                    Option::Some(k) => {
                        let rep = GEvent::Text { raw: written(env, k) };
                        if kv_get(env.m, k).len() > 0 {
                            assert(o1 == seq![rep]);
                            proof_run_single_event(env, t, rep);
                            assert(run(env, t, o1).1 == seq![rep]);
                        } else {
                            assert(o1 == seq![ev]);
                            proof_run_single_event(env, t, ev);
                            assert(run(env, t, o1).1 == o1);
                        }
                        assert(t1 == MergeState {
                            current: Option::None,
                            updated: t.updated.insert(k),
                        });
                        assert(s1 == MergeState {
                            current: Option::None,
                            updated: s.updated.insert(k),
                        });
                        assert(inv_pair(env, s1, t1)) by {
                            assert(s.updated.insert(k).subset_of(t.updated.insert(k)));
                            assert(s1.updated.subset_of(key_set(env.m)));
                            assert(t1.updated.subset_of(key_set(env.m)));
                            if t.updated == s.updated {
                                assert(t1.updated =~= s1.updated);
                            } else {
                                assert(key_set(env.m).subset_of(t1.updated));
                            }
                        }
                    },
                }
            },
            GEvent::End { raw, name } => {
                assert(s.current is None);
                assert(t.current is None);
                if name == resources_bytes() {
                    let block = missing_block(env, s.updated);
                    let body = missing_entries(env, env.m, s.updated);
                    assert(o1 == block + seq![ev]);
                    assert(s1 == s);
                    assert(forall|l: int|
                        0 <= l < env.m.len() ==> kv_contains(env.m, (#[trigger] env.m[l]).0)) by {
                        assert forall|l: int| 0 <= l < env.m.len() implies kv_contains(
                            env.m,
                            (#[trigger] env.m[l]).0,
                        ) by {
                            assert(env.m[l].0 == env.m[l].0);
                        }
                    }
                    lemma_run_block(env, env.m, s.updated, t);
                    let tb = run(env, t, body).0;
                    assert(key_set(env.m).subset_of(tb.updated)) by {
                        assert forall|x: Seq<u8>| key_set(env.m).contains(x) implies
                            tb.updated.contains(x) by {
                            if s.updated.contains(x) {
                                assert(t.updated.contains(x));
                            }
                        }
                    }
                    // run the second merge over the block, the line break and
                    // the closing tag
                    if body.len() == 0 {
                        assert(block =~= Seq::<GEvent>::empty());
                        assert(o1 =~= seq![ev]);
                        proof_run_single_event(env, t, ev);
                        assert(tb == t);
                        lemma_missing_empty_keys(env, env.m, s.updated);
                        assert forall|l: int| 0 <= l < env.m.len() implies t.updated.contains(
                            (#[trigger] env.m[l]).0,
                        ) by {
                            assert(s.updated.contains(env.m[l].0));
                        }
                        lemma_missing_all_updated(env, env.m, t.updated);
                        assert(missing_block(env, t.updated) =~= Seq::<GEvent>::empty());
                        assert(run(env, t, o1).1 =~= Seq::<GEvent>::empty() + seq![ev]);
                        assert(run(env, t, o1).1 =~= o1);
                        assert(t1 == t);
                    } else {
                        let nl = GEvent::Text { raw: crate::merge::newline_bytes() };
                        assert(block == body + seq![nl]);
                        assert(o1 =~= body + (seq![nl] + seq![ev]));
                        crate::merge::lemma_run_concat(env, t, body, seq![nl] + seq![ev]);
                        crate::merge::lemma_run_concat(env, tb, seq![nl], seq![ev]);
                        proof_run_single_event(env, tb, nl);
                        let tn = step(env, tb, nl).0;
                        assert(tn == tb);
                        proof_run_single_event(env, tn, ev);
                        assert(forall|l: int|
                            0 <= l < env.m.len() ==> tn.updated.contains(
                                (#[trigger] env.m[l]).0,
                            )) by {
                            assert forall|l: int| 0 <= l < env.m.len() implies tn.updated.contains(
                                (#[trigger] env.m[l]).0,
                            ) by {
                                assert(kv_contains(env.m, env.m[l].0));
                                assert(key_set(env.m).contains(env.m[l].0));
                            }
                        }
                        lemma_missing_all_updated(env, env.m, tn.updated);
                        assert(missing_block(env, tn.updated) =~= Seq::<GEvent>::empty());
                        assert(step(env, tn, ev).1 =~= Seq::<GEvent>::empty() + seq![ev]);
                        assert(step(env, tn, ev).1 =~= seq![ev]);
                        assert(run(env, t, o1).1 =~= body + (seq![nl] + seq![ev]));
                        assert(run(env, t, o1).1 =~= o1);
                        assert(t1 == step(env, tn, ev).0);
                        assert(t1 == tn);
                    }
                    assert(inv_pair(env, s1, t1)) by {
                        assert(t1.current is None);
                        assert(t1.updated.subset_of(key_set(env.m))) by {
                            assert forall|x: Seq<u8>| t1.updated.contains(x) implies key_set(
                                env.m,
                            ).contains(x) by {
                                if t.updated.contains(x) {
                                } else {
                                    assert(key_set(env.m).difference(s.updated).contains(x));
                                }
                            }
                        }
                        assert(s1.updated.subset_of(t1.updated));
                        assert(key_set(env.m).subset_of(t1.updated));
                    }
                } else {
                    proof_run_single_event(env, t, ev);
                    assert(o1 == seq![ev]);
                    assert(run(env, t, o1).1 == o1);
                    assert(s1 == s && t1 == t);
                }
            },
            GEvent::Other { raw } => {
                proof_run_single_event(env, t, ev);
                assert(o1 == seq![ev]);
                assert(run(env, t, o1).1 == o1);
                assert(s1 == s && t1 == t);
            },
        }
        assert(run(env, t, o1).1 == o1);
        assert(inv_pair(env, s1, t1));
        assert(match s1.current {
            Option::Some(_) => tail.len() > 0 && (tail[0] is Text),
            Option::None => true,
        }) by {
            match s1.current {
                Option::Some(k1) => {
                    if s.current == Option::Some(k1) && !(ev is Text) {
                        // a non-text event keeps the awaited key only when the
                        // first event was already a text node, which it is not
                        assert(evs[0] is Text);
                    } else {
                        assert(is_matched_start(env, evs[0]));
                        assert(evs[1] is Text);
                        assert(tail[0] == evs[1]);
                    }
                },
                Option::None => {},
            }
        }
        lemma_idem_run(env, tail, s1, t1);
        crate::merge::lemma_run_concat(env, t, o1, orest);
        assert(run(env, t, o1 + orest).1 =~= o1 + orest);
        assert(run(env, t, run(env, s, evs).1).1 =~= run(env, s, evs).1);
        assert(run(env, s, evs).0 == run(env, s1, tail).0);
        assert(run(env, t, run(env, s, evs).1).0 == run(env, t1, orest).0);
    }
}

/// Merging is idempotent: a second merge with the same mapping, fallback and
/// policy over the first merge's output reproduces it, for any document whose
/// activated entries each carry their own text node.
pub proof fn lemma_merge_idempotent(env: MergeEnv, evs: Seq<GEvent>)
    requires
        starts_closed(env, evs),
    ensures
        merge_spec(env, merge_spec(env, evs)) == merge_spec(env, evs),
{
    assert(inv_pair(env, init_state(), init_state())) by {
        assert(init_state().updated.subset_of(key_set(env.m)));
    }
    lemma_idem_run(env, evs, init_state(), init_state());
}

/// The merge never shrinks other content: every event that is not the text
/// node of an activated entry, and not a root-container closing tag, is
/// written out exactly once and unchanged at its own position. In particular
/// an entry whose key is not in the mapping passes through byte-for-byte.
pub proof fn lemma_merge_preserves_unmatched(env: MergeEnv, evs: Seq<GEvent>, i: int)
    requires
        0 <= i < evs.len(),
        !(evs[i] is End),
        (evs[i] is Text) ==> run(env, init_state(), evs.take(i)).0.current is None,
    ensures
        step(env, run(env, init_state(), evs.take(i)).0, evs[i]).1 == seq![evs[i]],
{
}

/// The merge never shrinks other content: an entry whose key is not in the
/// mapping is written out unchanged, its opening tag and its text both; only
/// text nodes of activated entries are ever rewritten, and nothing is
/// removed.
pub proof fn lemma_unmatched_entry_unchanged(env: MergeEnv, evs: Seq<GEvent>, i: int)
    requires
        starts_closed(env, evs),
        0 <= i,
        i + 1 < evs.len(),
        evs[i] is Start,
        !is_matched_start(env, evs[i]),
        evs[i + 1] is Text,
    ensures
        step(env, run(env, init_state(), evs.take(i)).0, evs[i]).1 == seq![evs[i]],
        step(env, run(env, init_state(), evs.take(i + 1)).0, evs[i + 1]).1 == seq![evs[i + 1]],
{
    if i > 0 && is_matched_start(env, evs[i - 1]) {
        assert(evs[i] is Text);
    }
    lemma_current_none(env, evs, i);
    let st = run(env, init_state(), evs.take(i)).0;
    assert(evs.take(i + 1) =~= evs.take(i) + seq![evs[i]]);
    crate::merge::lemma_run_concat(env, init_state(), evs.take(i), seq![evs[i]]);
    proof_run_single_event(env, st, evs[i]);
    let st1 = run(env, init_state(), evs.take(i + 1)).0;
    assert(st1 == step(env, st, evs[i]).0);
    assert(st1.current is None);
}

/// No text node under an inactive state is ever rewritten, and under an
/// active key a mapped value equal to the empty string keeps the original
/// text: the engine never blanks existing text.
pub proof fn lemma_empty_value_keeps_text(env: MergeEnv, st: MergeState, raw: Seq<u8>)
    requires
        match st.current {
            Option::Some(k) => kv_get(env.m, k).len() == 0,
            Option::None => true,
        },
    ensures
        step(env, st, GEvent::Text { raw }).1 == seq![GEvent::Text { raw }],
{
}

/// A run over any events with an empty mapping writes them back unchanged.
proof fn lemma_empty_run_identity(env: MergeEnv, st: MergeState, evs: Seq<GEvent>)
    requires
        env.m.len() == 0,
        st.current is None,
    ensures
        run(env, st, evs).1 == evs,
        run(env, st, evs).0.current is None,
    decreases evs.len(),
{
    if evs.len() > 0 {
        let ev = evs[0];
        let s1 = step(env, st, ev).0;
        let o1 = step(env, st, ev).1;
        match ev {
            GEvent::Start { raw, name, key } => {
                assert(!is_matched_start(env, ev)) by {
                    match key {
                        Option::Some(k) => {
                            if kv_contains(env.m, k) {
                                let i = choose|i: int|
                                    0 <= i < env.m.len() && env.m[i].0 == k;
                            }
                        },
                        Option::None => {},
                    }
                }
                assert(s1 == st && o1 == seq![ev]);
            },
            GEvent::Text { raw } => {
                assert(s1 == st && o1 == seq![ev]);
            },
            GEvent::End { raw, name } => {
                if name == resources_bytes() {
                    assert(missing_entries(env, env.m, st.updated) == Seq::<GEvent>::empty());
                    assert(missing_block(env, st.updated) == Seq::<GEvent>::empty());
                    assert(o1 =~= seq![ev]);
                } else {
                    assert(o1 == seq![ev]);
                }
                assert(s1 == st);
            },
            GEvent::Other { raw } => {
                assert(s1 == st && o1 == seq![ev]);
            },
        }
        lemma_empty_run_identity(env, s1, evs.skip(1));
        assert(run(env, st, evs).1 =~= seq![ev] + evs.skip(1));
        assert(seq![ev] + evs.skip(1) =~= evs);
    }
}

/// A merge with an empty mapping writes the document back byte-for-byte:
/// nothing is removed, rewritten or appended.
pub proof fn lemma_empty_mapping_keeps_document(env: MergeEnv, doc: Seq<u8>)
    requires
        env.m.len() == 0,
        crate::xml::tokenize_spec(doc) is Some,
    ensures
        crate::sync::merge_doc_spec(doc, env, false) == Option::Some(doc),
{
    let evs = crate::xml::tokenize_spec(doc)->Some_0;
    lemma_empty_run_identity(env, init_state(), evs);
    assert(merge_spec(env, evs) == evs);
    crate::xml::lemma_tokenize_lossless(doc);
}

/// Under the closed-starts shape, the machine awaits a key only directly
/// after that key's opening tag; everywhere else the state is inactive, so
/// text nodes outside activated entries pass through unchanged.
pub proof fn lemma_current_none(env: MergeEnv, evs: Seq<GEvent>, i: int)
    requires
        starts_closed(env, evs),
        0 <= i <= evs.len(),
        i == 0 || !is_matched_start(env, evs[i - 1]),
    ensures
        run(env, init_state(), evs.take(i)).0.current is None,
    decreases i, 0int,
{
    if i > 0 {
        let prev = evs.take(i - 1);
        let ev = evs[i - 1];
        assert(evs.take(i) =~= prev + seq![ev]);
        crate::merge::lemma_run_concat(env, init_state(), prev, seq![ev]);
        proof_run_single_event(env, run(env, init_state(), prev).0, ev);
        match ev {
            GEvent::Text { raw } => {},
            GEvent::Start { raw, name, key } => {
                assert(!start_matches(env, name, key));
                lemma_current_none_helper(env, evs, i - 1);
            },
            GEvent::End { raw, name } => {
                lemma_current_none_helper(env, evs, i - 1);
            },
            GEvent::Other { raw } => {
                lemma_current_none_helper(env, evs, i - 1);
            },
        }
    }
}

/// A state-preserving event at position `i - 1`: the awaited key before it is
/// none, because a matched opening tag is always followed by a text node.
#[verifier::rlimit(100)]
proof fn lemma_current_none_helper(env: MergeEnv, evs: Seq<GEvent>, j: int)
    requires
        starts_closed(env, evs),
        0 <= j < evs.len(),
        !(evs[j] is Text),
    ensures
        run(env, init_state(), evs.take(j)).0.current is None,
    decreases j, 1int,
{
    if j == 0 {
    } else if is_matched_start(env, evs[j - 1]) {
        assert(evs[j] is Text);
    } else {
        lemma_current_none(env, evs, j);
    }
}

/// A reset merge of an empty mapping writes only the declaration and an
/// empty root container, whatever the original document held.
pub proof fn lemma_reset_empty_mapping(env: MergeEnv)
    requires
        env.m.len() == 0,
    ensures
        crate::xml::render_spec(crate::merge::reset_spec(env)) == crate::merge::decl_bytes()
            + crate::merge::newline_bytes() + crate::merge::resources_start_raw()
            + crate::merge::newline_bytes() + crate::merge::resources_end_raw(),
{
    let ev0 = GEvent::Other { raw: crate::merge::decl_bytes() };
    let ev1 = GEvent::Text { raw: crate::merge::newline_bytes() };
    let ev2 = GEvent::Start {
        raw: crate::merge::resources_start_raw(),
        name: resources_bytes(),
        key: Option::None,
    };
    let ev3 = GEvent::Text { raw: crate::merge::newline_bytes() };
    let ev4 = GEvent::End { raw: crate::merge::resources_end_raw(), name: resources_bytes() };
    let evs = crate::merge::reset_spec(env);
    assert(missing_entries(env, env.m, Set::empty()) =~= Seq::<GEvent>::empty());
    assert(evs =~= seq![ev0, ev1, ev2, ev3, ev4]);
    reveal_with_fuel(crate::xml::render_spec, 6);
    assert(seq![ev0, ev1, ev2, ev3, ev4].skip(1) =~= seq![ev1, ev2, ev3, ev4]);
    assert(seq![ev1, ev2, ev3, ev4].skip(1) =~= seq![ev2, ev3, ev4]);
    assert(seq![ev2, ev3, ev4].skip(1) =~= seq![ev3, ev4]);
    assert(seq![ev3, ev4].skip(1) =~= seq![ev4]);
    assert(seq![ev4].skip(1) =~= Seq::<GEvent>::empty());
    assert(crate::xml::render_spec(evs) =~= crate::merge::decl_bytes()
        + crate::merge::newline_bytes() + crate::merge::resources_start_raw()
        + crate::merge::newline_bytes() + crate::merge::resources_end_raw());
}

/// What one finished row contributes to the mapping: a row that captured a
/// key whose trim is not blank and a value yields exactly that trimmed key
/// mapped to that value, every other key untouched.
pub proof fn lemma_row_contribution(m: KvSeq, t: Seq<u8>, v: Seq<u8>)
    requires
        crate::kvmap::kv_wf(m),
        !crate::bytes::is_blank_seq(t),
    ensures
        ({
            let m2 = crate::extract::flush_tv(m, Option::Some(t), Option::Some(v));
            &&& crate::kvmap::kv_wf(m2)
            &&& kv_contains(m2, crate::bytes::trim_seq(t))
            &&& kv_get(m2, crate::bytes::trim_seq(t)) == v
            &&& forall|k2: Seq<u8>|
                k2 != crate::bytes::trim_seq(t) ==> #[trigger] kv_contains(m2, k2) == kv_contains(
                    m,
                    k2,
                )
            &&& forall|k2: Seq<u8>|
                k2 != crate::bytes::trim_seq(t) && kv_contains(m, k2) ==> #[trigger] kv_get(m2, k2)
                    == kv_get(m, k2)
        }),
{
    crate::bytes::lemma_trim_blank(t);
    crate::kvmap::lemma_kv_insert(m, crate::bytes::trim_seq(t), v);
}

/// A row with a blank key, no key, or no value leaves the mapping unchanged.
pub proof fn lemma_row_dropped(m: KvSeq, tag: Option<Seq<u8>>, value: Option<Seq<u8>>)
    requires
        tag is None || value is None || crate::bytes::is_blank_seq(tag->Some_0),
    ensures
        crate::extract::flush_tv(m, tag, value) == m,
{
    match tag {
        Option::Some(t) => {
            crate::bytes::lemma_trim_blank(t);
        },
        Option::None => {},
    }
}

/// With replacement switched on, a blank value takes the default language's
/// value for its key when the fallback mapping is non-empty and holds the
/// key; with replacement off, a blank value stands.
pub proof fn lemma_blank_uses_default(tag: Seq<u8>, value: Seq<u8>, dm: KvSeq)
    requires
        crate::bytes::is_blank_seq(value),
    ensures
        dm.len() > 0 && kv_contains(dm, tag) ==> crate::escape::write_value_spec(
            tag,
            value,
            dm,
            true,
        ) == kv_get(dm, tag),
        crate::escape::write_value_spec(tag, value, dm, false) == value,
{
}


/// Whether the row about to be flushed may be flushed without overwriting:
/// its trimmed key, when it has one and a value, is not yet in the mapping.
pub open spec fn flush_ok_multi(
    m: Seq<(Seq<u8>, Seq<(int, Seq<u8>)>)>,
    st: crate::extract::RowMultiG,
) -> bool {
    match st.tag {
        Option::Some(t) => match st.value {
            Option::Some(_) => crate::bytes::trim_seq(t).len() > 0 ==> !kv_contains(
                m,
                crate::bytes::trim_seq(t),
            ),
            Option::None => true,
        },
        Option::None => true,
    }
}

/// No two rows of the cell stream flush the same trimmed key: every flush of
/// the shared-pass machine, and the final one, inserts a fresh key.
pub open spec fn keys_fresh(
    ti: int,
    cols: Seq<int>,
    st: crate::extract::RowMultiG,
    m: Seq<(Seq<u8>, Seq<(int, Seq<u8>)>)>,
    cells: Seq<crate::extract::GCell>,
) -> bool
    decreases cells.len(),
{
    if cells.len() == 0 {
        flush_ok_multi(m, st)
    } else {
        let boundary = match st.row {
            Option::Some(r) => r != cells[0].row,
            Option::None => false,
        };
        let s1 = crate::extract::step_multi(ti, cols, st, m, cells[0]);
        (boundary ==> flush_ok_multi(m, st)) && keys_fresh(ti, cols, s1.0, s1.1, cells.skip(1))
    }
}

/// How the single-target machine's row state embeds into the shared-pass
/// machine's: same row, same pending key, and the pending value is the
/// target column's slot of the pending column mapping.
pub open spec fn rel_state(
    ss: crate::extract::RowSingleG,
    sm: crate::extract::RowMultiG,
    c: int,
) -> bool {
    ss.row == sm.row && ss.tag == sm.tag && (match sm.value {
        Option::None => ss.value is None,
        Option::Some(vm) => crate::kvmap::kv_wf(vm) && ss.value == (if kv_contains(vm, c) {
            Option::Some(kv_get(vm, c))
        } else {
            Option::<Seq<u8>>::None
        }),
    })
}

/// Flushing related rows keeps the slice relation, when the key is fresh.
proof fn lemma_flush_rel(
    ss: crate::extract::RowSingleG,
    sm: crate::extract::RowMultiG,
    ms: KvSeq,
    mm: Seq<(Seq<u8>, Seq<(int, Seq<u8>)>)>,
    c: int,
)
    requires
        rel_state(ss, sm, c),
        ms == crate::extract::slice_spec(mm, c),
        flush_ok_multi(mm, sm),
    ensures
        crate::extract::flush_tv(ms, ss.tag, ss.value) == crate::extract::slice_spec(
            crate::extract::flush_multi(mm, sm.tag, sm.value),
            c,
        ),
{
    match sm.tag {
        Option::Some(t) => {
            match sm.value {
                Option::Some(vm) => {
                    let tt = crate::bytes::trim_seq(t);
                    if tt.len() > 0 {
                        // the shared-pass machine appends the fresh key
                        assert(!kv_contains(mm, tt));
                        let mm2 = crate::kvmap::kv_insert(mm, tt, vm);
                        assert(mm2 == mm.push((tt, vm)));
                        crate::extract::lemma_slice_concat(mm, seq![(tt, vm)], c);
                        assert(mm.push((tt, vm)) =~= mm + seq![(tt, vm)]);
                        reveal_with_fuel(crate::extract::slice_spec, 2);
                        assert(seq![(tt, vm)].skip(1) =~= Seq::<
                            (Seq<u8>, Seq<(int, Seq<u8>)>),
                        >::empty());
                        if kv_contains(vm, c) {
                            assert(crate::extract::slice_spec(seq![(tt, vm)], c) =~= seq![
                                (tt, kv_get(vm, c)),
                            ]);
                            // the single machine appends the same fresh key
                            assert(!kv_contains(ms, tt)) by {
                                if kv_contains(ms, tt) {
                                    crate::extract::lemma_slice_keys(mm, c, tt);
                                }
                            }
                            assert(crate::extract::flush_tv(ms, ss.tag, ss.value) == ms.push(
                                (tt, kv_get(vm, c)),
                            ));
                            assert(ms.push((tt, kv_get(vm, c))) =~= ms + seq![(tt, kv_get(vm, c))]);
                        } else {
                            assert(crate::extract::slice_spec(seq![(tt, vm)], c) =~= Seq::<
                                (Seq<u8>, Seq<u8>),
                            >::empty());
                            assert(ms + Seq::<(Seq<u8>, Seq<u8>)>::empty() =~= ms);
                        }
                    }
                },
                Option::None => {},
            }
        },
        Option::None => {},
    }
}

/// One cell keeps the machines related.
proof fn lemma_step_rel(
    ti: int,
    c: int,
    cols: Seq<int>,
    ss: crate::extract::RowSingleG,
    sm: crate::extract::RowMultiG,
    ms: KvSeq,
    mm: Seq<(Seq<u8>, Seq<(int, Seq<u8>)>)>,
    cell: crate::extract::GCell,
)
    requires
        cols.contains(c),
        rel_state(ss, sm, c),
        ms == crate::extract::slice_spec(mm, c),
        (match sm.row {
            Option::Some(r) => r != cell.row,
            Option::None => false,
        }) ==> flush_ok_multi(mm, sm),
    ensures
        rel_state(
            crate::extract::step_single(ti, c, ss, ms, cell).0,
            crate::extract::step_multi(ti, cols, sm, mm, cell).0,
            c,
        ),
        crate::extract::step_single(ti, c, ss, ms, cell).1 == crate::extract::slice_spec(
            crate::extract::step_multi(ti, cols, sm, mm, cell).1,
            c,
        ),
{
    let boundary = match sm.row {
        Option::Some(r) => r != cell.row,
        Option::None => false,
    };
    if boundary {
        lemma_flush_rel(ss, sm, ms, mm, c);
    }
    if !(cell.row == 0 || (cell.col != ti && !cols.contains(cell.col))) && cell.col != ti
        && cell.col != c {
        // a column of another language: only the shared-pass machine records it
        let vm0 = match (if boundary {
            crate::extract::row_multi_init()
        } else {
            sm
        }).value {
            Option::Some(vm) => vm,
            Option::None => Seq::<(int, Seq<u8>)>::empty(),
        };
        assert(crate::kvmap::kv_wf(vm0));
        crate::kvmap::lemma_kv_insert(vm0, cell.col, crate::extract::captured(cell.value));
    }
    if !(cell.row == 0 || (cell.col != ti && cell.col != c)) && cell.col != ti {
        // the target column: both machines capture the same text
        let vm0 = match (if boundary {
            crate::extract::row_multi_init()
        } else {
            sm
        }).value {
            Option::Some(vm) => vm,
            Option::None => Seq::<(int, Seq<u8>)>::empty(),
        };
        assert(crate::kvmap::kv_wf(vm0));
        crate::kvmap::lemma_kv_insert(vm0, cell.col, crate::extract::captured(cell.value));
    }
}

/// The runs of the two machines stay related over any cell stream whose
/// flushed keys are fresh.
proof fn lemma_run_rel(
    ti: int,
    c: int,
    cols: Seq<int>,
    ss: crate::extract::RowSingleG,
    sm: crate::extract::RowMultiG,
    ms: KvSeq,
    mm: Seq<(Seq<u8>, Seq<(int, Seq<u8>)>)>,
    cells: Seq<crate::extract::GCell>,
)
    requires
        cols.contains(c),
        rel_state(ss, sm, c),
        ms == crate::extract::slice_spec(mm, c),
        keys_fresh(ti, cols, sm, mm, cells),
    ensures
        ({
            let fs = crate::extract::run_single(ti, c, ss, ms, cells);
            let fm = crate::extract::run_multi(ti, cols, sm, mm, cells);
            &&& rel_state(fs.0, fm.0, c)
            &&& fs.1 == crate::extract::slice_spec(fm.1, c)
            &&& flush_ok_multi(fm.1, fm.0)
        }),
    decreases cells.len(),
{
    if cells.len() > 0 {
        lemma_step_rel(ti, c, cols, ss, sm, ms, mm, cells[0]);
        let s1 = crate::extract::step_single(ti, c, ss, ms, cells[0]);
        let m1 = crate::extract::step_multi(ti, cols, sm, mm, cells[0]);
        lemma_run_rel(ti, c, cols, s1.0, m1.0, s1.1, m1.1, cells.skip(1));
    }
}

/// The two extraction strategies agree: one language's slice of the shared
/// pass's mapping is exactly what the per-language pass extracts, whenever no
/// two rows of the sheet carry the same trimmed key.
pub proof fn lemma_strategies_extract_alike(
    cells: Seq<crate::extract::GCell>,
    ti: int,
    c: int,
    cols: Seq<int>,
)
    requires
        cols.contains(c),
        keys_fresh(
            ti,
            cols,
            crate::extract::row_multi_init(),
            Seq::empty(),
            cells,
        ),
    ensures
        crate::extract::extract_single_spec(Seq::empty(), cells, ti, c)
            == crate::extract::slice_spec(
            crate::extract::extract_multi_spec(Seq::empty(), cells, ti, cols),
            c,
        ),
{
    assert(crate::extract::slice_spec(
        Seq::<(Seq<u8>, Seq<(int, Seq<u8>)>)>::empty(),
        c,
    ) =~= Seq::<(Seq<u8>, Seq<u8>)>::empty());
    lemma_run_rel(
        ti,
        c,
        cols,
        crate::extract::row_single_init(),
        crate::extract::row_multi_init(),
        Seq::empty(),
        Seq::empty(),
        cells,
    );
    let fs = crate::extract::run_single(
        ti,
        c,
        crate::extract::row_single_init(),
        Seq::empty(),
        cells,
    );
    let fm = crate::extract::run_multi(
        ti,
        cols,
        crate::extract::row_multi_init(),
        Seq::empty(),
        cells,
    );
    lemma_flush_rel(fs.0, fm.0, fs.1, fm.1, c);
}


/// One logical spreadsheet row: its row number and its cells, each a column
/// with the text read from it (`None` when the cell is not text).
pub struct RowG {
    pub num: int,
    pub cells: Seq<(int, Option<Seq<u8>>)>,
}

/// The cell stream of one row.
pub open spec fn row_cells(row: RowG) -> Seq<crate::extract::GCell> {
    row.cells.map_values(
        |c: (int, Option<Seq<u8>>)|
            crate::extract::GCell { row: row.num, col: c.0, value: c.1 },
    )
}

/// The cell stream of a whole sheet, row by row.
pub open spec fn flat_rows(rows: Seq<RowG>) -> Seq<crate::extract::GCell>
    decreases rows.len(),
{
    if rows.len() == 0 {
        Seq::empty()
    } else {
        row_cells(rows[0]) + flat_rows(rows.skip(1))
    }
}

/// The key and target-column text one row leaves pending: a header row (row
/// number 0) and unrelated columns leave nothing; the last key-column cell
/// and the last target-column cell win.
pub open spec fn pend(
    ti: int,
    li: int,
    num: int,
    cs: Seq<(int, Option<Seq<u8>>)>,
    tag: Option<Seq<u8>>,
    value: Option<Seq<u8>>,
) -> (Option<Seq<u8>>, Option<Seq<u8>>)
    decreases cs.len(),
{
    if cs.len() == 0 {
        (tag, value)
    } else {
        let c = cs[0];
        if num == 0 || (c.0 != ti && c.0 != li) {
            pend(ti, li, num, cs.skip(1), tag, value)
        } else if c.0 == ti {
            pend(ti, li, num, cs.skip(1), c.1, value)
        } else {
            pend(
                ti,
                li,
                num,
                cs.skip(1),
                tag,
                Option::Some(crate::extract::captured(c.1)),
            )
        }
    }
}

/// What one row leaves pending, from a fresh row state.
pub open spec fn row_pending(ti: int, li: int, row: RowG) -> (Option<Seq<u8>>, Option<Seq<u8>>) {
    pend(ti, li, row.num, row.cells, Option::None, Option::None)
}

/// The mapping after flushing each row in order.
pub open spec fn rows_fold(ti: int, li: int, rows: Seq<RowG>, m: KvSeq) -> KvSeq
    decreases rows.len(),
{
    if rows.len() == 0 {
        m
    } else {
        let p = row_pending(ti, li, rows[0]);
        rows_fold(ti, li, rows.skip(1), crate::extract::flush_tv(m, p.0, p.1))
    }
}

/// Within one row the machine never flushes: it only accumulates the pending
/// key and value.
proof fn lemma_run_within_row(
    ti: int,
    li: int,
    num: int,
    cs: Seq<(int, Option<Seq<u8>>)>,
    st: crate::extract::RowSingleG,
    m: KvSeq,
)
    requires
        st.row == Option::Some(num),
    ensures
        ({
            let cells = cs.map_values(
                |c: (int, Option<Seq<u8>>)|
                    crate::extract::GCell { row: num, col: c.0, value: c.1 },
            );
            let p = pend(ti, li, num, cs, st.tag, st.value);
            crate::extract::run_single(ti, li, st, m, cells) == (
                crate::extract::RowSingleG { row: Option::Some(num), tag: p.0, value: p.1 },
                m,
            )
        }),
    decreases cs.len(),
{
    let cells = cs.map_values(
        |c: (int, Option<Seq<u8>>)| crate::extract::GCell { row: num, col: c.0, value: c.1 },
    );
    if cs.len() == 0 {
        assert(cells.len() == 0);
    } else {
        let s1 = crate::extract::step_single(ti, li, st, m, cells[0]);
        assert(cells[0] == (crate::extract::GCell { row: num, col: cs[0].0, value: cs[0].1 }));
        lemma_run_within_row(ti, li, num, cs.skip(1), s1.0, s1.1);
        assert(cells.skip(1) =~= cs.skip(1).map_values(
            |c: (int, Option<Seq<u8>>)|
                crate::extract::GCell { row: num, col: c.0, value: c.1 },
        ));
    }
}

/// A run over whole rows is the fold of their flushes: the machine state at
/// the end holds the last row's pending key and value, and flushing it
/// completes the fold.
proof fn lemma_rows_run(
    ti: int,
    li: int,
    rows: Seq<RowG>,
    st: crate::extract::RowSingleG,
    m: KvSeq,
)
    requires
        rows.len() > 0,
        forall|k: int| 0 <= k < rows.len() ==> (#[trigger] rows[k]).cells.len() > 0,
        forall|k: int| 0 <= k < rows.len() - 1 ==> (#[trigger] rows[k]).num != rows[k + 1].num,
        match st.row {
            Option::Some(r) => r != rows[0].num,
            Option::None => st.tag is None && st.value is None,
        },
    ensures
        ({
            let m1 = match st.row {
                Option::Some(_) => crate::extract::flush_tv(m, st.tag, st.value),
                Option::None => m,
            };
            let fin = crate::extract::run_single(ti, li, st, m, flat_rows(rows));
            let p = row_pending(ti, li, rows.last());
            &&& fin.0 == (crate::extract::RowSingleG {
                row: Option::Some(rows.last().num),
                tag: p.0,
                value: p.1,
            })
            &&& crate::extract::flush_tv(fin.1, fin.0.tag, fin.0.value) == rows_fold(
                ti,
                li,
                rows,
                m1,
            )
        }),
    decreases rows.len(),
{
    let row0 = rows[0];
    let cells0 = row_cells(row0);
    let rest = flat_rows(rows.skip(1));
    assert(flat_rows(rows) == cells0 + rest);
    crate::extract::lemma_run_single_concat(ti, li, st, m, cells0, rest);
    // the first cell of the row crosses the boundary and flushes
    let c0 = cells0[0];
    assert(c0 == (crate::extract::GCell { row: row0.num, col: row0.cells[0].0, value: row0.cells[0].1 }));
    let s1 = crate::extract::step_single(ti, li, st, m, c0);
    let m1 = match st.row {
        Option::Some(_) => crate::extract::flush_tv(m, st.tag, st.value),
        Option::None => m,
    };
    assert(s1.1 == m1);
    // the rest of the row accumulates the pending key and value
    assert(cells0.skip(1) =~= row0.cells.skip(1).map_values(
        |c: (int, Option<Seq<u8>>)|
            crate::extract::GCell { row: row0.num, col: c.0, value: c.1 },
    ));
    lemma_run_within_row(ti, li, row0.num, row0.cells.skip(1), s1.0, s1.1);
    crate::extract::lemma_run_single_concat(ti, li, s1.0, s1.1, cells0.skip(1), rest);
    assert(seq![c0] + cells0.skip(1) =~= cells0);
    crate::extract::lemma_run_single_concat(ti, li, st, m, seq![c0], cells0.skip(1) + rest);
    assert(seq![c0].skip(1) =~= Seq::<crate::extract::GCell>::empty());
    assert(crate::extract::run_single(ti, li, st, m, seq![c0]) == s1) by {
        reveal_with_fuel(crate::extract::run_single, 2);
    }
    assert((cells0.skip(1) + rest) =~= (cells0 + rest).skip(1));
    let after0 = crate::extract::run_single(ti, li, s1.0, s1.1, cells0.skip(1));
    let p0 = row_pending(ti, li, row0);
    assert(after0.0 == (crate::extract::RowSingleG {
        row: Option::Some(row0.num),
        tag: p0.0,
        value: p0.1,
    })) by {
        // the first cell's effect followed by the rest is the whole row's fold
        assert(pend(ti, li, row0.num, row0.cells.skip(1), s1.0.tag, s1.0.value) == pend(
            ti,
            li,
            row0.num,
            row0.cells,
            Option::None,
            Option::None,
        ));
    }
    assert(after0.1 == m1);
    if rows.len() == 1 {
        assert(rest =~= Seq::<crate::extract::GCell>::empty());
        assert(crate::extract::run_single(ti, li, after0.0, after0.1, rest) == after0);
        assert(rows.last() == row0);
        assert(rows_fold(ti, li, rows, m1) == rows_fold(
            ti,
            li,
            rows.skip(1),
            crate::extract::flush_tv(m1, p0.0, p0.1),
        ));
        assert(rows.skip(1).len() == 0);
    } else {
        assert(rows.skip(1).len() > 0);
        assert(rows.skip(1)[0] == rows[1]);
        assert forall|k: int| 0 <= k < rows.skip(1).len() implies (#[trigger] rows.skip(
            1,
        )[k]).cells.len() > 0 by {
            assert(rows.skip(1)[k] == rows[k + 1]);
        }
        assert forall|k: int| 0 <= k < rows.skip(1).len() - 1 implies (#[trigger] rows.skip(
            1,
        )[k]).num != rows.skip(1)[k + 1].num by {
            assert(rows.skip(1)[k] == rows[k + 1]);
            assert(rows.skip(1)[k + 1] == rows[k + 2]);
        }
        lemma_rows_run(ti, li, rows.skip(1), after0.0, after0.1);
        assert(rows.skip(1).last() == rows.last());
        assert(rows_fold(ti, li, rows, m1) == rows_fold(
            ti,
            li,
            rows.skip(1),
            crate::extract::flush_tv(m1, p0.0, p0.1),
        ));
    }
}

/// The extractor over a sheet of rows is the fold of the rows' flushes.
pub proof fn lemma_extract_by_rows(ti: int, li: int, rows: Seq<RowG>, m0: KvSeq)
    requires
        forall|k: int| 0 <= k < rows.len() ==> (#[trigger] rows[k]).cells.len() > 0,
        forall|k: int| 0 <= k < rows.len() - 1 ==> (#[trigger] rows[k]).num != rows[k + 1].num,
    ensures
        crate::extract::extract_single_spec(m0, flat_rows(rows), ti, li) == rows_fold(
            ti,
            li,
            rows,
            m0,
        ),
{
    if rows.len() == 0 {
        assert(flat_rows(rows).len() == 0);
    } else {
        lemma_rows_run(ti, li, rows, crate::extract::row_single_init(), m0);
    }
}


/// Whether a row writes `key`: it is a row whose pending key trims to `key`,
/// non-blank, with a pending value.
pub open spec fn writes_key(ti: int, li: int, row: RowG, key: Seq<u8>) -> bool {
    match row_pending(ti, li, row) {
        (Option::Some(t), Option::Some(_)) => !crate::bytes::is_blank_seq(t)
            && crate::bytes::trim_seq(t) == key,
        _ => false,
    }
}

/// Folds compose over a split row list.
proof fn lemma_rows_fold_concat(ti: int, li: int, a: Seq<RowG>, b: Seq<RowG>, m: KvSeq)
    ensures
        rows_fold(ti, li, a + b, m) == rows_fold(ti, li, b, rows_fold(ti, li, a, m)),
    decreases a.len(),
{
    if a.len() == 0 {
        assert(a + b =~= b);
    } else {
        assert((a + b)[0] == a[0]);
        assert((a + b).skip(1) =~= a.skip(1) + b);
        let p = row_pending(ti, li, a[0]);
        lemma_rows_fold_concat(ti, li, a.skip(1), b, crate::extract::flush_tv(m, p.0, p.1));
    }
}

/// The fold keeps the mapping well-formed.
proof fn lemma_rows_fold_wf(ti: int, li: int, rows: Seq<RowG>, m: KvSeq)
    requires
        crate::kvmap::kv_wf(m),
    ensures
        crate::kvmap::kv_wf(rows_fold(ti, li, rows, m)),
    decreases rows.len(),
{
    if rows.len() > 0 {
        let p = row_pending(ti, li, rows[0]);
        let m2 = crate::extract::flush_tv(m, p.0, p.1);
        assert(crate::kvmap::kv_wf(m2)) by {
            match p.0 {
                Option::Some(t) => {
                    match p.1 {
                        Option::Some(v) => {
                            if crate::bytes::trim_seq(t).len() > 0 {
                                crate::kvmap::lemma_kv_insert(m, crate::bytes::trim_seq(t), v);
                            }
                        },
                        Option::None => {},
                    }
                },
                Option::None => {},
            }
        }
        lemma_rows_fold_wf(ti, li, rows.skip(1), m2);
    }
}

/// A key no remaining row writes keeps its value through the fold.
proof fn lemma_fold_preserves_key(ti: int, li: int, rows: Seq<RowG>, m: KvSeq, key: Seq<u8>)
    requires
        crate::kvmap::kv_wf(m),
        kv_contains(m, key),
        forall|k: int| 0 <= k < rows.len() ==> !writes_key(ti, li, #[trigger] rows[k], key),
    ensures
        kv_contains(rows_fold(ti, li, rows, m), key),
        kv_get(rows_fold(ti, li, rows, m), key) == kv_get(m, key),
    decreases rows.len(),
{
    if rows.len() > 0 {
        let p = row_pending(ti, li, rows[0]);
        let m2 = crate::extract::flush_tv(m, p.0, p.1);
        assert(!writes_key(ti, li, rows[0], key));
        assert(crate::kvmap::kv_wf(m2) && kv_contains(m2, key) && kv_get(m2, key) == kv_get(
            m,
            key,
        )) by {
            match p.0 {
                Option::Some(t) => {
                    match p.1 {
                        Option::Some(v) => {
                            if crate::bytes::trim_seq(t).len() > 0 {
                                crate::bytes::lemma_trim_blank(t);
                                assert(crate::bytes::trim_seq(t) != key);
                                crate::kvmap::lemma_kv_insert(m, crate::bytes::trim_seq(t), v);
                            }
                        },
                        Option::None => {},
                    }
                },
                Option::None => {},
            }
        }
        assert forall|k: int| 0 <= k < rows.skip(1).len() implies !writes_key(
            ti,
            li,
            #[trigger] rows.skip(1)[k],
            key,
        ) by {
            assert(rows.skip(1)[k] == rows[k + 1]);
        }
        lemma_fold_preserves_key(ti, li, rows.skip(1), m2, key);
    }
}

/// A key no row writes never enters the mapping.
proof fn lemma_fold_unwritten_absent(ti: int, li: int, rows: Seq<RowG>, m: KvSeq, key: Seq<u8>)
    requires
        crate::kvmap::kv_wf(m),
        !kv_contains(m, key),
        forall|k: int| 0 <= k < rows.len() ==> !writes_key(ti, li, #[trigger] rows[k], key),
    ensures
        !kv_contains(rows_fold(ti, li, rows, m), key),
    decreases rows.len(),
{
    if rows.len() > 0 {
        let p = row_pending(ti, li, rows[0]);
        let m2 = crate::extract::flush_tv(m, p.0, p.1);
        assert(!writes_key(ti, li, rows[0], key));
        assert(crate::kvmap::kv_wf(m2) && !kv_contains(m2, key)) by {
            match p.0 {
                Option::Some(t) => {
                    match p.1 {
                        Option::Some(v) => {
                            if crate::bytes::trim_seq(t).len() > 0 {
                                crate::bytes::lemma_trim_blank(t);
                                assert(crate::bytes::trim_seq(t) != key);
                                crate::kvmap::lemma_kv_insert(m, crate::bytes::trim_seq(t), v);
                            }
                        },
                        Option::None => {},
                    }
                },
                Option::None => {},
            }
        }
        assert forall|k: int| 0 <= k < rows.skip(1).len() implies !writes_key(
            ti,
            li,
            #[trigger] rows.skip(1)[k],
            key,
        ) by {
            assert(rows.skip(1)[k] == rows[k + 1]);
        }
        lemma_fold_unwritten_absent(ti, li, rows.skip(1), m2, key);
    }
}

/// Every row with a non-blank key and a value in the target column puts that
/// trimmed key, mapped to that captured value, into the extracted mapping,
/// unless a later row writes the same key; and a key no row writes (in
/// particular every blank one) is absent from a mapping built from empty.
pub proof fn lemma_extracted_mapping_by_rows(
    ti: int,
    li: int,
    rows: Seq<RowG>,
    k: int,
    t: Seq<u8>,
    v: Seq<u8>,
)
    requires
        forall|j: int| 0 <= j < rows.len() ==> (#[trigger] rows[j]).cells.len() > 0,
        forall|j: int| 0 <= j < rows.len() - 1 ==> (#[trigger] rows[j]).num != rows[j + 1].num,
        0 <= k < rows.len(),
        row_pending(ti, li, rows[k]) == (Option::Some(t), Option::Some(v)),
        !crate::bytes::is_blank_seq(t),
        forall|j: int|
            k < j < rows.len() ==> !writes_key(ti, li, #[trigger] rows[j], crate::bytes::trim_seq(t)),
    ensures
        kv_contains(
            crate::extract::extract_single_spec(Seq::empty(), flat_rows(rows), ti, li),
            crate::bytes::trim_seq(t),
        ),
        kv_get(
            crate::extract::extract_single_spec(Seq::empty(), flat_rows(rows), ti, li),
            crate::bytes::trim_seq(t),
        ) == v,
{
    let key = crate::bytes::trim_seq(t);
    let m0: KvSeq = Seq::empty();
    lemma_extract_by_rows(ti, li, rows, m0);
    assert(rows =~= rows.take(k + 1) + rows.skip(k + 1));
    lemma_rows_fold_concat(ti, li, rows.take(k + 1), rows.skip(k + 1), m0);
    assert(rows.take(k + 1) =~= rows.take(k) + seq![rows[k]]);
    lemma_rows_fold_concat(ti, li, rows.take(k), seq![rows[k]], m0);
    let before = rows_fold(ti, li, rows.take(k), m0);
    assert forall|j: int| 0 <= j < rows.take(k).len() implies (#[trigger] rows.take(
        k,
    )[j]).cells.len() > 0 by {
        assert(rows.take(k)[j] == rows[j]);
    }
    lemma_rows_fold_wf(ti, li, rows.take(k), m0);
    // the fold of the single row k inserts the key
    let p = row_pending(ti, li, rows[k]);
    let inserted = crate::extract::flush_tv(before, p.0, p.1);
    assert(rows_fold(ti, li, seq![rows[k]], before) == inserted) by {
        reveal_with_fuel(rows_fold, 2);
        assert(seq![rows[k]].skip(1) =~= Seq::<RowG>::empty());
    }
    crate::bytes::lemma_trim_blank(t);
    crate::kvmap::lemma_kv_insert(before, key, v);
    assert(inserted == crate::kvmap::kv_insert(before, key, v));
    assert forall|j: int| 0 <= j < rows.skip(k + 1).len() implies !writes_key(
        ti,
        li,
        #[trigger] rows.skip(k + 1)[j],
        key,
    ) by {
        assert(rows.skip(k + 1)[j] == rows[j + k + 1]);
    }
    lemma_fold_preserves_key(ti, li, rows.skip(k + 1), inserted, key);
}

/// A key no row of the sheet writes is absent from the extracted mapping; in
/// particular a row whose key is blank after trimming contributes nothing.
pub proof fn lemma_unwritten_key_absent(ti: int, li: int, rows: Seq<RowG>, key: Seq<u8>)
    requires
        forall|j: int| 0 <= j < rows.len() ==> (#[trigger] rows[j]).cells.len() > 0,
        forall|j: int| 0 <= j < rows.len() - 1 ==> (#[trigger] rows[j]).num != rows[j + 1].num,
        forall|j: int| 0 <= j < rows.len() ==> !writes_key(ti, li, #[trigger] rows[j], key),
    ensures
        !kv_contains(
            crate::extract::extract_single_spec(Seq::empty(), flat_rows(rows), ti, li),
            key,
        ),
{
    let m0: KvSeq = Seq::empty();
    lemma_extract_by_rows(ti, li, rows, m0);
    assert(!kv_contains(m0, key)) by {
        if kv_contains(m0, key) {
            let i = choose|i: int| 0 <= i < m0.len() && m0[i].0 == key;
        }
    }
    lemma_fold_unwritten_absent(ti, li, rows, m0, key);
}

} // verus!
