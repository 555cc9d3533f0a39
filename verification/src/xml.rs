//! Event-level model of a resource file. A document is split losslessly into
//! a sequence of events: opening tags (with their name and, when present, the
//! value of their `name` attribute), closing tags, text runs, and all other
//! markup (declarations, comments, processing instructions, self-closing
//! tags), each carrying its raw bytes so that writing the events back yields
//! the input unchanged.

use vstd::prelude::*;

verus! {

/// One event, at the specification level. `raw` is always the exact slice of
/// the document the event stands for.
pub enum GEvent {
    /// An opening tag: its raw bytes, its tag name, and the value of its
    /// `name` attribute when one is present.
    Start { raw: Seq<u8>, name: Seq<u8>, key: Option<Seq<u8>> },
    /// A closing tag and its tag name.
    End { raw: Seq<u8>, name: Seq<u8> },
    /// A raw text run between tags (entities are not decoded).
    Text { raw: Seq<u8> },
    /// Any other markup, passed through unchanged.
    Other { raw: Seq<u8> },
}

/// The raw bytes an event stands for.
pub open spec fn event_raw(e: GEvent) -> Seq<u8> {
    match e {
        GEvent::Start { raw, .. } => raw,
        GEvent::End { raw, .. } => raw,
        GEvent::Text { raw } => raw,
        GEvent::Other { raw } => raw,
    }
}

/// One event, executable form.
pub enum XmlEvent {
    Start { raw: Vec<u8>, name: Vec<u8>, key: Option<Vec<u8>> },
    End { raw: Vec<u8>, name: Vec<u8> },
    Text { raw: Vec<u8> },
    Other { raw: Vec<u8> },
}

impl View for XmlEvent {
    type V = GEvent;

    open spec fn view(&self) -> GEvent {
        match self {
            XmlEvent::Start { raw, name, key } => GEvent::Start {
                raw: raw@,
                name: name@,
                key: match key {
                    Option::Some(k) => Option::Some(k@),
                    Option::None => Option::None,
                },
            },
            XmlEvent::End { raw, name } => GEvent::End { raw: raw@, name: name@ },
            XmlEvent::Text { raw } => GEvent::Text { raw: raw@ },
            XmlEvent::Other { raw } => GEvent::Other { raw: raw@ },
        }
    }
}

/// The abstract content of an event list.
pub open spec fn events_view(s: Seq<XmlEvent>) -> Seq<GEvent> {
    s.map_values(|e: XmlEvent| e@)
}

/// First position at or after `i` holding byte `b`; the length when there is
/// none (or when `i` is out of range).
pub open spec fn scan_to(s: Seq<u8>, i: int, b: u8) -> int
    decreases s.len() - i,
{
    if i < 0 || i >= s.len() {
        s.len() as int
    } else if s[i] == b {
        i
    } else {
        scan_to(s, i + 1, b)
    }
}

/// Bounds and characterization of `scan_to`.
pub proof fn lemma_scan_to(s: Seq<u8>, i: int, b: u8)
    requires
        0 <= i <= s.len(),
    ensures
        i <= scan_to(s, i, b) <= s.len(),
        scan_to(s, i, b) < s.len() ==> s[scan_to(s, i, b)] == b,
        forall|l: int| i <= l < scan_to(s, i, b) ==> s[l] != b,
    decreases s.len() - i,
{
    if i < s.len() && s[i] != b {
        lemma_scan_to(s, i + 1, b);
    }
}

/// Scanning a suffix is scanning the whole, shifted.
pub proof fn lemma_scan_to_shift(s: Seq<u8>, p: int, i: int, b: u8)
    requires
        0 <= p <= s.len(),
        0 <= i,
    ensures
        scan_to(s, p + i, b) == p + scan_to(s.skip(p), i, b),
    decreases s.len() - p - i,
{
    let t = s.skip(p);
    if p + i >= s.len() {
        assert(i >= t.len());
    } else {
        assert(t[i] == s[p + i]);
        if s[p + i] != b {
            lemma_scan_to_shift(s, p, i + 1, b);
        }
    }
}

/// First position at or after `i` holding a byte that is not ASCII
/// whitespace; the length when there is none.
pub open spec fn skip_ws_idx(s: Seq<u8>, i: int) -> int
    decreases s.len() - i,
{
    if i < 0 || i >= s.len() {
        s.len() as int
    } else if crate::bytes::is_ascii_whitespace(s[i]) {
        skip_ws_idx(s, i + 1)
    } else {
        i
    }
}

/// Bounds and characterization of `skip_ws_idx`.
pub proof fn lemma_skip_ws_idx(s: Seq<u8>, i: int)
    requires
        0 <= i <= s.len(),
    ensures
        i <= skip_ws_idx(s, i) <= s.len(),
        skip_ws_idx(s, i) < s.len() ==> !crate::bytes::is_ascii_whitespace(s[skip_ws_idx(s, i)]),
        forall|l: int| i <= l < skip_ws_idx(s, i) ==> crate::bytes::is_ascii_whitespace(s[l]),
    decreases s.len() - i,
{
    if i < s.len() && crate::bytes::is_ascii_whitespace(s[i]) {
        lemma_skip_ws_idx(s, i + 1);
    }
}

/// End of a run of name bytes: first position at or after `i` holding
/// whitespace or `=`; the length when there is none.
pub open spec fn name_end_idx(s: Seq<u8>, i: int) -> int
    decreases s.len() - i,
{
    if i < 0 || i >= s.len() {
        s.len() as int
    } else if crate::bytes::is_ascii_whitespace(s[i]) || s[i] == 61 {
        i
    } else {
        name_end_idx(s, i + 1)
    }
}

/// Bounds and characterization of `name_end_idx`.
pub proof fn lemma_name_end_idx(s: Seq<u8>, i: int)
    requires
        0 <= i <= s.len(),
    ensures
        i <= name_end_idx(s, i) <= s.len(),
        name_end_idx(s, i) < s.len() ==> crate::bytes::is_ascii_whitespace(s[name_end_idx(s, i)])
            || s[name_end_idx(s, i)] == 61,
        forall|l: int|
            i <= l < name_end_idx(s, i) ==> !crate::bytes::is_ascii_whitespace(s[l]) && s[l] != 61,
    decreases s.len() - i,
{
    if i < s.len() && !(crate::bytes::is_ascii_whitespace(s[i]) || s[i] == 61) {
        lemma_name_end_idx(s, i + 1);
    }
}

/// The bytes of the attribute name `name`.
pub open spec fn name_attr_bytes() -> Seq<u8> {
    seq![110u8, 97u8, 109u8, 101u8]  // name
}

/// The tag name inside a tag's content: the bytes up to the first whitespace.
pub open spec fn tag_name_of(t: Seq<u8>) -> Seq<u8> {
    t.take(name_end_idx(t, 0))
}

/// The value of the `name` attribute found scanning the tag content `t` from
/// position `i`: skip whitespace, read an attribute name, an `=`, a quoted
/// value, and either return the value or continue after the closing quote.
/// A tag whose attributes do not follow this shape has no key.
pub open spec fn attr_key_from(t: Seq<u8>, i: int) -> Option<Seq<u8>>
    decreases t.len() - i,
{
    if i < 0 || i >= t.len() {
        Option::None
    } else {
        let j = skip_ws_idx(t, i);
        if j >= t.len() {
            Option::None
        } else {
            let k = name_end_idx(t, j);
            if k == j {
                Option::None
            } else {
                let e = skip_ws_idx(t, k);
                if e >= t.len() || t[e] != 61 {
                    Option::None
                } else {
                    let q = skip_ws_idx(t, e + 1);
                    if q >= t.len() || (t[q] != 34 && t[q] != 39) {
                        Option::None
                    } else {
                        let c = scan_to(t, q + 1, t[q]);
                        if c >= t.len() {
                            Option::None
                        } else if t.subrange(j, k) == name_attr_bytes() {
                            Option::Some(t.subrange(q + 1, c))
                        } else if c < i {
                            // the scan never goes backwards; this branch only
                            // keeps the recursion visibly well-founded
                            Option::None
                        } else {
                            attr_key_from(t, c + 1)
                        }
                    }
                }
            }
        }
    }
}

/// The `name` attribute of a tag's content, scanned after the tag name.
pub open spec fn attr_key_of(t: Seq<u8>) -> Option<Seq<u8>> {
    attr_key_from(t, name_end_idx(t, 0))
}

/// How one raw tag (including its angle brackets) is classified.
pub open spec fn classify_tag(raw: Seq<u8>) -> GEvent {
    let inner = raw.subrange(1, raw.len() - 1);
    if inner.len() == 0 {
        GEvent::Other { raw }
    } else if inner[0] == 33 || inner[0] == 63 {
        // <!...> and <?...>: declarations, comments, processing instructions
        GEvent::Other { raw }
    } else if inner[inner.len() - 1] == 47 {
        // self-closing tags pass through unchanged
        GEvent::Other { raw }
    } else if inner[0] == 47 {
        GEvent::End { raw, name: tag_name_of(inner.skip(1)) }
    } else {
        GEvent::Start { raw, name: tag_name_of(inner), key: attr_key_of(inner) }
    }
}

/// The event split of a document: at `<`, everything up to the next `>` is
/// one tag (a tag with no closing `>` makes the document malformed); anything
/// else is a text run up to the next `<`.
pub open spec fn tokenize_spec(s: Seq<u8>) -> Option<Seq<GEvent>>
    decreases s.len(),
{
    if s.len() == 0 {
        Option::Some(Seq::empty())
    } else if s[0] == 60 {
        let c = scan_to(s, 1, 62);
        if c >= s.len() {
            Option::None
        } else if c < 1 {
            // the scan starts at 1 and never goes backwards; this branch only
            // keeps the recursion visibly well-founded
            Option::None
        } else {
            match tokenize_spec(s.skip(c + 1)) {
                Option::None => Option::None,
                Option::Some(evs) => Option::Some(
                    seq![classify_tag(s.take(c + 1))] + evs,
                ),
            }
        }
    } else {
        let c = scan_to(s, 1, 60);
        if c >= s.len() {
            Option::Some(seq![GEvent::Text { raw: s }])
        } else if c < 1 {
            Option::None
        } else {
            match tokenize_spec(s.skip(c)) {
                Option::None => Option::None,
                Option::Some(evs) => Option::Some(seq![GEvent::Text { raw: s.take(c) }] + evs),
            }
        }
    }
}

/// The bytes an event list writes back.
pub open spec fn render_spec(evs: Seq<GEvent>) -> Seq<u8>
    decreases evs.len(),
{
    if evs.len() == 0 {
        Seq::empty()
    } else {
        event_raw(evs[0]) + render_spec(evs.skip(1))
    }
}

/// First position at or after `start` holding byte `b`.
fn scan_byte(s: &Vec<u8>, start: usize, b: u8) -> (r: usize)
    requires
        start <= s@.len(),
    ensures
        r == scan_to(s@, start as int, b),
        start <= r <= s@.len(),
        r < s@.len() ==> s@[r as int] == b,
{
    let n = s.len();
    let mut i = start;
    while i < n && s[i] != b
        invariant
            start <= i <= n,
            n == s@.len(),
            scan_to(s@, start as int, b) == scan_to(s@, i as int, b),
        decreases n - i,
    {
        i += 1;
    }
    i
}

/// First position at or after `start` holding a non-whitespace byte.
fn skip_ws_pos(s: &Vec<u8>, start: usize) -> (r: usize)
    requires
        start <= s@.len(),
    ensures
        r == skip_ws_idx(s@, start as int),
        start <= r <= s@.len(),
{
    let n = s.len();
    let mut i = start;
    while i < n && crate::bytes::is_ws(s[i])
        invariant
            start <= i <= n,
            n == s@.len(),
            skip_ws_idx(s@, start as int) == skip_ws_idx(s@, i as int),
        decreases n - i,
    {
        i += 1;
    }
    i
}

/// First position at or after `start` holding whitespace or `=`.
fn name_end_pos(s: &Vec<u8>, start: usize) -> (r: usize)
    requires
        start <= s@.len(),
    ensures
        r == name_end_idx(s@, start as int),
        start <= r <= s@.len(),
{
    let n = s.len();
    let mut i = start;
    while i < n && !crate::bytes::is_ws(s[i]) && s[i] != 61
        invariant
            start <= i <= n,
            n == s@.len(),
            name_end_idx(s@, start as int) == name_end_idx(s@, i as int),
        decreases n - i,
    {
        i += 1;
    }
    i
}

/// The bytes of the attribute name `name`, executable form.
fn name_attr() -> (r: Vec<u8>)
    ensures
        r@ == name_attr_bytes(),
{
    let mut r: Vec<u8> = Vec::new();
    r.push(110);
    r.push(97);
    r.push(109);
    r.push(101);
    proof {
        assert(r@ =~= name_attr_bytes());
    }
    r
}

/// Scans a tag's content for its `name` attribute.
fn attr_key_exec(t: &Vec<u8>, start: usize) -> (r: Option<Vec<u8>>)
    requires
        start <= t@.len(),
    ensures
        match r {
            Some(v) => attr_key_from(t@, start as int) == Some(v@),
            None => attr_key_from(t@, start as int) is None,
        },
{
    let n = t.len();
    let pat = name_attr();
    let mut cur = start;
    while cur < n
        invariant
            start <= cur <= n,
            n == t@.len(),
            pat@ == name_attr_bytes(),
            attr_key_from(t@, start as int) == attr_key_from(t@, cur as int),
        decreases n - cur,
    {
        let j = skip_ws_pos(t, cur);
        if j >= n {
            return None;
        }
        let k = name_end_pos(t, j);
        if k == j {
            return None;
        }
        let e = skip_ws_pos(t, k);
        if e >= n || t[e] != 61 {
            return None;
        }
        let q = skip_ws_pos(t, e + 1);
        if q >= n || (t[q] != 34 && t[q] != 39) {
            return None;
        }
        let c = scan_byte(t, q + 1, t[q]);
        if c >= n {
            return None;
        }
        let aname = crate::bytes::copy_range(t, j, k);
        if crate::bytes::bytes_eq(&aname, &pat) {
            let v = crate::bytes::copy_range(t, q + 1, c);
            return Some(v);
        }
        proof {
            assert(attr_key_from(t@, cur as int) == attr_key_from(t@, c + 1));
        }
        cur = c + 1;
    }
    None
}

/// Classifies one raw tag (including its angle brackets).
fn classify(raw: Vec<u8>) -> (ev: XmlEvent)
    requires
        raw@.len() >= 2,
    ensures
        ev@ == classify_tag(raw@),
{
    let inner = crate::bytes::copy_range(&raw, 1, raw.len() - 1);
    if inner.len() == 0 {
        XmlEvent::Other { raw }
    } else if inner[0] == 33 || inner[0] == 63 {
        XmlEvent::Other { raw }
    } else if inner[inner.len() - 1] == 47 {
        XmlEvent::Other { raw }
    } else if inner[0] == 47 {
        let rest = crate::bytes::copy_range(&inner, 1, inner.len());
        proof {
            assert(rest@ =~= inner@.skip(1));
        }
        let ne = name_end_pos(&rest, 0);
        let name = crate::bytes::copy_range(&rest, 0, ne);
        proof {
            assert(name@ =~= inner@.skip(1).take(name_end_idx(inner@.skip(1), 0)));
        }
        XmlEvent::End { raw, name }
    } else {
        let ne = name_end_pos(&inner, 0);
        let name = crate::bytes::copy_range(&inner, 0, ne);
        proof {
            assert(name@ =~= inner@.take(name_end_idx(inner@, 0)));
        }
        let key = attr_key_exec(&inner, ne);
        XmlEvent::Start { raw, name, key }
    }
}

/// Splits a document into events; `None` when a tag never closes.
#[verifier::rlimit(100)]
pub fn tokenize(doc: &Vec<u8>) -> (r: Option<Vec<XmlEvent>>)
    ensures
        match r {
            Some(evs) => tokenize_spec(doc@) == Some(events_view(evs@)),
            None => tokenize_spec(doc@) is None,
        },
{
    let n = doc.len();
    let mut out: Vec<XmlEvent> = Vec::new();
    let mut pos: usize = 0;
    proof {
        assert(doc@.skip(0) =~= doc@);
        assert(events_view(out@) =~= Seq::<GEvent>::empty());
    }
    while pos < n
        invariant
            0 <= pos <= n,
            n == doc@.len(),
            tokenize_spec(doc@.skip(pos as int)) is Some ==> tokenize_spec(doc@) == Some(
                events_view(out@) + tokenize_spec(doc@.skip(pos as int))->Some_0,
            ),
            tokenize_spec(doc@.skip(pos as int)) is None ==> tokenize_spec(doc@) is None,
        decreases n - pos,
    {
        let ghost rest = doc@.skip(pos as int);
        let ghost before = out@;
        if doc[pos] == 60 {
            let c = scan_byte(doc, pos + 1, 62);
            proof {
                lemma_scan_to_shift(doc@, pos as int, 1, 62);
                assert(scan_to(rest, 1, 62) == c - pos);
            }
            if c >= n {
                proof {
                    assert(tokenize_spec(rest) is None);
                }
                return None;
            }
            let raw = crate::bytes::copy_range(doc, pos, c + 1);
            proof {
                assert(raw@ =~= rest.take(c + 1 - pos));
                assert(rest.skip(c + 1 - pos) =~= doc@.skip(c + 1));
            }
            let ev = classify(raw);
            proof {
                assert(ev@ == classify_tag(rest.take(c + 1 - pos)));
            }
            out.push(ev);
            proof {
                assert(events_view(out@) =~= events_view(before) + seq![ev@]);
                let tail = doc@.skip(c + 1);
                if tokenize_spec(tail) is Some {
                    let evs_tail = tokenize_spec(tail)->Some_0;
                    assert(tokenize_spec(rest) == Some(seq![ev@] + evs_tail));
                    assert((events_view(before) + seq![ev@]) + evs_tail =~= events_view(before) + (
                    seq![ev@] + evs_tail));
                } else {
                    assert(tokenize_spec(rest) is None);
                }
            }
            pos = c + 1;
        } else {
            let c = scan_byte(doc, pos + 1, 60);
            proof {
                lemma_scan_to_shift(doc@, pos as int, 1, 60);
                assert(scan_to(rest, 1, 60) == c - pos);
                assert(rest[0] == doc@[pos as int]);
            }
            let raw = crate::bytes::copy_range(doc, pos, c);
            let ghost gev = GEvent::Text { raw: raw@ };
            let ev = XmlEvent::Text { raw };
            out.push(ev);
            proof {
                assert(events_view(out@) =~= events_view(before) + seq![gev]);
                if c == n {
                    assert(doc@.subrange(pos as int, c as int) =~= rest);
                    assert(tokenize_spec(rest) == Some(seq![gev]));
                    assert(doc@.skip(c as int) =~= Seq::<u8>::empty());
                    assert(tokenize_spec(doc@.skip(c as int)) == Some(Seq::<GEvent>::empty()));
                    assert((events_view(before) + seq![gev]) + Seq::<GEvent>::empty()
                        =~= events_view(before) + seq![gev]);
                } else {
                    assert(doc@.subrange(pos as int, c as int) =~= rest.take(c - pos));
                    assert(rest.skip(c - pos) =~= doc@.skip(c as int));
                    let tail = doc@.skip(c as int);
                    if tokenize_spec(tail) is Some {
                        let evs_tail = tokenize_spec(tail)->Some_0;
                        assert(tokenize_spec(rest) == Some(seq![gev] + evs_tail));
                        assert((events_view(before) + seq![gev]) + evs_tail =~= events_view(before)
                            + (seq![gev] + evs_tail));
                    } else {
                        assert(tokenize_spec(rest) is None);
                    }
                }
            }
            pos = c;
        }
    }
    proof {
        assert(doc@.skip(n as int) =~= Seq::<u8>::empty());
        assert(tokenize_spec(Seq::<u8>::empty()) == Some(Seq::<GEvent>::empty()));
        assert(events_view(out@) + Seq::<GEvent>::empty() =~= events_view(out@));
    }
    Some(out)
}

/// The raw bytes of one event.
pub fn event_raw_ref(e: &XmlEvent) -> (r: &Vec<u8>)
    ensures
        r@ == event_raw(e@),
{
    match e {
        XmlEvent::Start { raw, .. } => raw,
        XmlEvent::End { raw, .. } => raw,
        XmlEvent::Text { raw } => raw,
        XmlEvent::Other { raw } => raw,
    }
}

/// Writes an event list back to bytes.
pub fn render(evs: &Vec<XmlEvent>) -> (r: Vec<u8>)
    ensures
        r@ == render_spec(events_view(evs@)),
{
    let ghost gv = events_view(evs@);
    let mut out: Vec<u8> = Vec::new();
    let mut i: usize = 0;
    proof {
        assert(gv.skip(0) =~= gv);
        assert(out@ + render_spec(gv) =~= render_spec(gv));
    }
    while i < evs.len()
        invariant
            0 <= i <= evs@.len(),
            gv == events_view(evs@),
            gv.len() == evs@.len(),
            render_spec(gv) == out@ + render_spec(gv.skip(i as int)),
        decreases evs@.len() - i,
    {
        let ghost before = out@;
        proof {
            assert(gv.skip(i as int).skip(1) =~= gv.skip(i + 1));
            assert(gv.skip(i as int)[0] == gv[i as int]);
            assert(render_spec(gv.skip(i as int)) == event_raw(gv[i as int]) + render_spec(
                gv.skip(i + 1),
            ));
        }
        let raw_ref = event_raw_ref(&evs[i]);
        crate::bytes::append_bytes(&mut out, raw_ref);
        proof {
            assert(gv[i as int] == evs@[i as int]@);
            assert((before + event_raw(gv[i as int])) + render_spec(gv.skip(i + 1)) =~= before + (
            event_raw(gv[i as int]) + render_spec(gv.skip(i + 1))));
        }
        i += 1;
    }
    proof {
        assert(gv.skip(evs@.len() as int) =~= Seq::<GEvent>::empty());
        assert(out@ + render_spec(Seq::<GEvent>::empty()) =~= out@);
    }
    out
}

/// Writing the split of a document back yields the document.
pub proof fn lemma_tokenize_lossless(s: Seq<u8>)
    requires
        tokenize_spec(s) is Some,
    ensures
        render_spec(tokenize_spec(s)->Some_0) == s,
    decreases s.len(),
{
    let evs = tokenize_spec(s)->Some_0;
    if s.len() == 0 {
        assert(render_spec(evs) =~= s);
    } else if s[0] == 60 {
        let c = scan_to(s, 1, 62);
        lemma_scan_to(s, 1, 62);
        let rest = tokenize_spec(s.skip(c + 1))->Some_0;
        lemma_tokenize_lossless(s.skip(c + 1));
        assert(evs == seq![classify_tag(s.take(c + 1))] + rest);
        assert(evs.skip(1) =~= rest);
        assert(event_raw(classify_tag(s.take(c + 1))) == s.take(c + 1));
        assert(render_spec(evs) == s.take(c + 1) + s.skip(c + 1));
        assert(s.take(c + 1) + s.skip(c + 1) =~= s);
    } else {
        let c = scan_to(s, 1, 60);
        lemma_scan_to(s, 1, 60);
        if c >= s.len() {
            assert(evs == seq![GEvent::Text { raw: s }]);
            assert(evs.skip(1) =~= Seq::<GEvent>::empty());
            assert(render_spec(evs.skip(1)) == Seq::<u8>::empty());
            assert(evs[0] == (GEvent::Text { raw: s }));
            assert(render_spec(evs) == event_raw(evs[0]) + render_spec(evs.skip(1)));
            assert(event_raw(evs[0]) + Seq::<u8>::empty() =~= s);
        } else {
            let rest = tokenize_spec(s.skip(c))->Some_0;
            lemma_tokenize_lossless(s.skip(c));
            assert(evs == seq![GEvent::Text { raw: s.take(c) }] + rest);
            assert(evs.skip(1) =~= rest);
            assert(render_spec(evs) == s.take(c) + s.skip(c));
            assert(s.take(c) + s.skip(c) =~= s);
        }
    }
}

} // verus!
