//! The escape policy over a text value: either the value is written verbatim,
//! or every markup-relevant byte is rewritten to its XML entity, or only a
//! configured list of literal -> replacement rules is applied, in order, each
//! as one non-overlapping left-to-right scan over the previous result.

use vstd::prelude::*;

use crate::kvmap::{kv_contains, kv_get, KvMap, KvSeq};

verus! {

/// One non-overlapping left-to-right scan: every occurrence of `from` is
/// replaced by `to`; an empty `from` leaves the value unchanged.
pub open spec fn replace_seq(s: Seq<u8>, from: Seq<u8>, to: Seq<u8>) -> Seq<u8>
    decreases s.len(),
{
    if from.len() == 0 || s.len() < from.len() {
        s
    } else if s.take(from.len() as int) == from {
        to + replace_seq(s.skip(from.len() as int), from, to)
    } else {
        seq![s[0]] + replace_seq(s.skip(1), from, to)
    }
}

/// The configured rules applied in order, each over the previous result.
pub open spec fn apply_rules_seq(s: Seq<u8>, rules: KvSeq) -> Seq<u8>
    decreases rules.len(),
{
    if rules.len() == 0 {
        s
    } else {
        apply_rules_seq(replace_seq(s, rules[0].0, rules[0].1), rules.drop_first())
    }
}

/// The entity for one byte under default escaping.
pub open spec fn escape_byte(b: u8) -> Seq<u8> {
    if b == 38 {
        seq![38u8, 97u8, 109u8, 112u8, 59u8]  // &amp;
    } else if b == 60 {
        seq![38u8, 108u8, 116u8, 59u8]  // &lt;
    } else if b == 62 {
        seq![38u8, 103u8, 116u8, 59u8]  // &gt;
    } else if b == 34 {
        seq![38u8, 113u8, 117u8, 111u8, 116u8, 59u8]  // &quot;
    } else if b == 39 {
        seq![38u8, 97u8, 112u8, 111u8, 115u8, 59u8]  // &apos;
    } else {
        seq![b]
    }
}

/// Default escaping: ampersand, angle brackets, quote and apostrophe become
/// entities; every other byte is kept.
pub open spec fn xml_escape_seq(s: Seq<u8>) -> Seq<u8>
    decreases s.len(),
{
    if s.len() == 0 {
        Seq::empty()
    } else {
        escape_byte(s[0]) + xml_escape_seq(s.skip(1))
    }
}

/// What the policy writes for a value.
pub open spec fn escaped_value(v: Seq<u8>, disable_escape: bool, rules: KvSeq) -> Seq<u8> {
    if disable_escape {
        v
    } else if rules.len() == 0 {
        xml_escape_seq(v)
    } else {
        apply_rules_seq(v, rules)
    }
}

/// The view of a rule list held as byte vectors.
pub open spec fn pairs_view(v: Seq<(Vec<u8>, Vec<u8>)>) -> KvSeq {
    v.map_values(|e: (Vec<u8>, Vec<u8>)| (e.0@, e.1@))
}

/// Whether `pat` occurs in `s` at position `i`.
fn match_at(s: &Vec<u8>, i: usize, pat: &Vec<u8>) -> (r: bool)
    requires
        i + pat@.len() <= s@.len(),
    ensures
        r == (s@.subrange(i as int, i + pat@.len()) == pat@),
{
    let n: usize = s.len();
    let mut j: usize = 0;
    while j < pat.len()
        invariant
            0 <= j <= pat@.len(),
            n == s@.len(),
            i + pat@.len() <= s@.len(),
            forall|l: int| 0 <= l < j ==> s@[i + l] == pat@[l],
        decreases pat@.len() - j,
    {
        if s[i + j] != pat[j] {
            proof {
                assert(s@.subrange(i as int, i + pat@.len())[j as int] == s@[i + j]);
            }
            return false;
        }
        j += 1;
    }
    proof {
        assert(s@.subrange(i as int, i + pat@.len()) =~= pat@);
    }
    true
}

/// One replacement pass over `s`.
pub fn replace_all(s: &Vec<u8>, from: &Vec<u8>, to: &Vec<u8>) -> (r: Vec<u8>)
    ensures
        r@ == replace_seq(s@, from@, to@),
{
    if from.len() == 0 {
        return crate::kvmap::clone_bytes(s);
    }
    let mut out: Vec<u8> = Vec::new();
    let mut i: usize = 0;
    proof {
        assert(s@.skip(0) =~= s@);
        assert(out@ + replace_seq(s@, from@, to@) =~= replace_seq(s@, from@, to@));
    }
    while i < s.len() && from.len() <= s.len() - i
        invariant
            0 <= i <= s@.len(),
            from@.len() >= 1,
            replace_seq(s@, from@, to@) == out@ + replace_seq(s@.skip(i as int), from@, to@),
        decreases s@.len() - i,
    {
        let ghost rest = s@.skip(i as int);
        if match_at(s, i, from) {
            let ghost before = out@;
            proof {
                assert(rest.take(from@.len() as int) =~= s@.subrange(i as int, i + from@.len()));
                assert(rest.skip(from@.len() as int) =~= s@.skip(i + from@.len()));
                assert(replace_seq(rest, from@, to@) == to@ + replace_seq(
                    s@.skip(i + from@.len()),
                    from@,
                    to@,
                ));
            }
            let mut j: usize = 0;
            while j < to.len()
                invariant
                    0 <= j <= to@.len(),
                    out@ == before + to@.take(j as int),
                decreases to@.len() - j,
            {
                out.push(to[j]);
                proof {
                    assert(before + to@.take(j + 1) =~= (before + to@.take(j as int)).push(
                        to@[j as int],
                    ));
                }
                j += 1;
            }
            proof {
                assert(to@.take(to@.len() as int) =~= to@);
                assert((before + to@) + replace_seq(s@.skip(i + from@.len()), from@, to@)
                    =~= before + (to@ + replace_seq(s@.skip(i + from@.len()), from@, to@)));
            }
            i += from.len();
        } else {
            proof {
                assert(rest.take(from@.len() as int) =~= s@.subrange(i as int, i + from@.len()));
                assert(rest.skip(1) =~= s@.skip(i + 1));
                assert(replace_seq(rest, from@, to@) == seq![rest[0]] + replace_seq(
                    s@.skip(i + 1),
                    from@,
                    to@,
                ));
                assert(out@ + (seq![s@[i as int]] + replace_seq(s@.skip(i + 1), from@, to@))
                    =~= out@.push(s@[i as int]) + replace_seq(s@.skip(i + 1), from@, to@));
            }
            out.push(s[i]);
            i += 1;
        }
    }
    while i < s.len()
        invariant
            0 <= i <= s@.len(),
            from@.len() >= 1,
            s@.len() - i < from@.len() || i == s@.len(),
            replace_seq(s@, from@, to@) == out@ + replace_seq(s@.skip(i as int), from@, to@),
        decreases s@.len() - i,
    {
        let ghost rest = s@.skip(i as int);
        proof {
            assert(replace_seq(rest, from@, to@) == rest);
            assert(rest =~= seq![s@[i as int]] + s@.skip(i + 1));
            assert(replace_seq(s@.skip(i + 1), from@, to@) == s@.skip(i + 1));
            assert(out@ + (seq![s@[i as int]] + s@.skip(i + 1)) =~= out@.push(s@[i as int])
                + s@.skip(i + 1));
        }
        out.push(s[i]);
        i += 1;
    }
    proof {
        assert(s@.skip(s@.len() as int) =~= Seq::<u8>::empty());
        assert(replace_seq(s@.skip(s@.len() as int), from@, to@) == Seq::<u8>::empty());
        assert(out@ + Seq::<u8>::empty() =~= out@);
    }
    out
}

/// Applies the configured rules in order.
pub fn apply_rules(s: &Vec<u8>, rules: &Vec<(Vec<u8>, Vec<u8>)>) -> (r: Vec<u8>)
    ensures
        r@ == apply_rules_seq(s@, pairs_view(rules@)),
{
    let mut cur = crate::kvmap::clone_bytes(s);
    let mut i: usize = 0;
    proof {
        assert(pairs_view(rules@).skip(0) =~= pairs_view(rules@));
    }
    while i < rules.len()
        invariant
            0 <= i <= rules@.len(),
            apply_rules_seq(s@, pairs_view(rules@)) == apply_rules_seq(
                cur@,
                pairs_view(rules@).skip(i as int),
            ),
        decreases rules@.len() - i,
    {
        let ghost rv = pairs_view(rules@);
        proof {
            assert(rv.skip(i as int)[0] == rv[i as int]);
            assert(rv.skip(i as int).drop_first() =~= rv.skip(i + 1));
        }
        cur = replace_all(&cur, &rules[i].0, &rules[i].1);
        i += 1;
    }
    proof {
        assert(pairs_view(rules@).skip(rules@.len() as int) =~= Seq::<(Seq<u8>, Seq<u8>)>::empty());
    }
    cur
}

/// Default escaping pass.
pub fn xml_escape(s: &Vec<u8>) -> (r: Vec<u8>)
    ensures
        r@ == xml_escape_seq(s@),
{
    let mut out: Vec<u8> = Vec::new();
    let mut i: usize = 0;
    proof {
        assert(s@.skip(0) =~= s@);
        assert(out@ + xml_escape_seq(s@) =~= xml_escape_seq(s@));
    }
    while i < s.len()
        invariant
            0 <= i <= s@.len(),
            xml_escape_seq(s@) == out@ + xml_escape_seq(s@.skip(i as int)),
        decreases s@.len() - i,
    {
        let ghost rest = s@.skip(i as int);
        proof {
            assert(rest.skip(1) =~= s@.skip(i + 1));
            assert(xml_escape_seq(rest) == escape_byte(s@[i as int]) + xml_escape_seq(
                s@.skip(i + 1),
            ));
        }
        let b = s[i];
        let ghost before = out@;
        if b == 38 {
            out.push(38);
            out.push(97);
            out.push(109);
            out.push(112);
            out.push(59);
        } else if b == 60 {
            out.push(38);
            out.push(108);
            out.push(116);
            out.push(59);
        } else if b == 62 {
            out.push(38);
            out.push(103);
            out.push(116);
            out.push(59);
        } else if b == 34 {
            out.push(38);
            out.push(113);
            out.push(117);
            out.push(111);
            out.push(116);
            out.push(59);
        } else if b == 39 {
            out.push(38);
            out.push(97);
            out.push(112);
            out.push(111);
            out.push(115);
            out.push(59);
        } else {
            out.push(b);
        }
        proof {
            assert(out@ =~= before + escape_byte(s@[i as int]));
            assert((before + escape_byte(s@[i as int])) + xml_escape_seq(s@.skip(i + 1)) =~= before
                + (escape_byte(s@[i as int]) + xml_escape_seq(s@.skip(i + 1))));
        }
        i += 1;
    }
    proof {
        assert(s@.skip(s@.len() as int) =~= Seq::<u8>::empty());
        assert(out@ + xml_escape_seq(s@.skip(s@.len() as int)) =~= out@);
    }
    out
}

/// What the policy writes for a value, executable form.
pub fn escape_value(v: &Vec<u8>, disable_escape: bool, rules: &Vec<(Vec<u8>, Vec<u8>)>) -> (r: Vec<
    u8,
>)
    ensures
        r@ == escaped_value(v@, disable_escape, pairs_view(rules@)),
{
    if disable_escape {
        crate::kvmap::clone_bytes(v)
    } else if rules.len() == 0 {
        proof {
            assert(pairs_view(rules@).len() == 0);
        }
        xml_escape(v)
    } else {
        apply_rules(v, rules)
    }
}

/// The value a merge writes for a key: a blank value is replaced by the
/// fallback mapping's value for that key when the fallback mapping is
/// non-empty and replacement is switched on; otherwise the value stands.
pub open spec fn write_value_spec(
    tag: Seq<u8>,
    value: Seq<u8>,
    dm: KvSeq,
    replace_blank_with_default: bool,
) -> Seq<u8> {
    if crate::bytes::is_blank_seq(value) && dm.len() > 0 && replace_blank_with_default {
        if kv_contains(dm, tag) {
            kv_get(dm, tag)
        } else {
            value
        }
    } else {
        value
    }
}

/// Write-value resolution against the default language's mapping.
pub fn get_write_value(
    tag: &Vec<u8>,
    value: &Vec<u8>,
    default_value_map: &KvMap,
    replace_blank_with_default: bool,
) -> (r: Vec<u8>)
    requires
        default_value_map.wf(),
    ensures
        r@ == write_value_spec(tag@, value@, default_value_map@, replace_blank_with_default),
{
    if crate::bytes::is_blank(value) && !default_value_map.is_empty()
        && replace_blank_with_default {
        match default_value_map.get(tag) {
            Some(v) => crate::kvmap::clone_bytes(v),
            None => crate::kvmap::clone_bytes(value),
        }
    } else {
        crate::kvmap::clone_bytes(value)
    }
}

} // verus!
