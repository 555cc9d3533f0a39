//! Small byte-sequence helpers shared by the extractor, the escape policy and
//! the merge engine. All text handled by the engine is UTF-8 carried as bytes;
//! trimming and blank tests look at ASCII whitespace.

use vstd::prelude::*;

verus! {

/// ASCII whitespace: space, tab, line feed, carriage return, form feed.
pub open spec fn is_ascii_whitespace(b: u8) -> bool {
    b == 0x20 || b == 0x09 || b == 0x0a || b == 0x0d || b == 0x0c
}

/// A byte sequence is blank when every byte is ASCII whitespace.
pub open spec fn is_blank_seq(s: Seq<u8>) -> bool {
    forall|i: int| 0 <= i < s.len() ==> is_ascii_whitespace(#[trigger] s[i])
}

/// Index of the first non-whitespace byte, or the length if there is none.
pub open spec fn trim_start_idx(s: Seq<u8>) -> int
    decreases s.len(),
{
    if s.len() == 0 {
        0
    } else if !is_ascii_whitespace(s[0]) {
        0
    } else {
        1 + trim_start_idx(s.skip(1))
    }
}

/// One past the index of the last non-whitespace byte, or 0 if there is none.
pub open spec fn trim_end_idx(s: Seq<u8>) -> int
    decreases s.len(),
{
    if s.len() == 0 {
        0
    } else if !is_ascii_whitespace(s[s.len() - 1]) {
        s.len() as int
    } else {
        trim_end_idx(s.take(s.len() - 1))
    }
}

/// The sequence with leading and trailing ASCII whitespace removed.
pub open spec fn trim_seq(s: Seq<u8>) -> Seq<u8> {
    if trim_start_idx(s) <= trim_end_idx(s) {
        s.subrange(trim_start_idx(s), trim_end_idx(s))
    } else {
        Seq::empty()
    }
}

proof fn lemma_trim_start_bounds(s: Seq<u8>)
    ensures
        0 <= trim_start_idx(s) <= s.len(),
        forall|i: int| 0 <= i < trim_start_idx(s) ==> is_ascii_whitespace(#[trigger] s[i]),
        trim_start_idx(s) < s.len() ==> !is_ascii_whitespace(s[trim_start_idx(s)]),
    decreases s.len(),
{
    if s.len() == 0 {
    } else if !is_ascii_whitespace(s[0]) {
    } else {
        lemma_trim_start_bounds(s.skip(1));
        assert forall|i: int| 0 <= i < trim_start_idx(s) implies is_ascii_whitespace(
            #[trigger] s[i],
        ) by {
            if i > 0 {
                assert(s.skip(1)[i - 1] == s[i]);
            }
        }
        if trim_start_idx(s) < s.len() {
            assert(s.skip(1)[trim_start_idx(s) - 1] == s[trim_start_idx(s)]);
        }
    }
}

proof fn lemma_trim_end_bounds(s: Seq<u8>)
    ensures
        0 <= trim_end_idx(s) <= s.len(),
        forall|i: int| trim_end_idx(s) <= i < s.len() ==> is_ascii_whitespace(#[trigger] s[i]),
        trim_end_idx(s) > 0 ==> !is_ascii_whitespace(s[trim_end_idx(s) - 1]),
    decreases s.len(),
{
    if s.len() == 0 {
    } else if !is_ascii_whitespace(s[s.len() - 1]) {
    } else {
        lemma_trim_end_bounds(s.take(s.len() - 1));
        assert forall|i: int| trim_end_idx(s) <= i < s.len() implies is_ascii_whitespace(
            #[trigger] s[i],
        ) by {
            if i < s.len() - 1 {
                assert(s.take(s.len() - 1)[i] == s[i]);
            }
        }
        if trim_end_idx(s) > 0 {
            assert(s.take(s.len() - 1)[trim_end_idx(s) - 1] == s[trim_end_idx(s) - 1]);
        }
    }
}

/// A trimmed sequence is empty exactly when the whole sequence is blank.
pub proof fn lemma_trim_blank(s: Seq<u8>)
    ensures
        trim_seq(s).len() == 0 <==> is_blank_seq(s),
{
    lemma_trim_start_bounds(s);
    lemma_trim_end_bounds(s);
    if trim_start_idx(s) < trim_end_idx(s) {
        assert(!is_ascii_whitespace(s[trim_start_idx(s)]));
        assert(!is_blank_seq(s));
    } else {
        assert forall|i: int| 0 <= i < s.len() implies is_ascii_whitespace(#[trigger] s[i]) by {
            if i < trim_start_idx(s) {
            } else {
                assert(trim_end_idx(s) <= i);
            }
        }
    }
}

/// Whitespace test on one byte.
pub fn is_ws(b: u8) -> (r: bool)
    ensures
        r == is_ascii_whitespace(b),
{
    b == 0x20 || b == 0x09 || b == 0x0a || b == 0x0d || b == 0x0c
}

/// A value is blank when it is empty or consists only of ASCII whitespace.
pub fn is_blank(value: &Vec<u8>) -> (r: bool)
    ensures
        r == is_blank_seq(value@),
{
    let mut i: usize = 0;
    while i < value.len()
        invariant
            0 <= i <= value@.len(),
            forall|j: int| 0 <= j < i ==> is_ascii_whitespace(#[trigger] value@[j]),
        decreases value@.len() - i,
    {
        let b = value[i];
        if !(b == 0x20 || b == 0x09 || b == 0x0a || b == 0x0d || b == 0x0c) {
            return false;
        }
        i += 1;
    }
    true
}

/// Removes leading and trailing ASCII whitespace.
pub fn trim_bytes(s: &Vec<u8>) -> (r: Vec<u8>)
    ensures
        r@ == trim_seq(s@),
{
    proof {
        lemma_trim_start_bounds(s@);
        lemma_trim_end_bounds(s@);
    }
    let mut start: usize = 0;
    while start < s.len() && is_ws(s[start])
        invariant
            0 <= start <= s@.len(),
            forall|j: int| 0 <= j < start ==> is_ascii_whitespace(#[trigger] s@[j]),
            start <= trim_start_idx(s@),
        decreases s@.len() - start,
    {
        proof {
            lemma_trim_start_step(s@, start as int);
        }
        start += 1;
    }
    assert(start == trim_start_idx(s@));
    let mut end: usize = s.len();
    while end > start && is_ws(s[end - 1])
        invariant
            start <= end <= s@.len(),
            start == trim_start_idx(s@),
            forall|j: int| end <= j < s@.len() ==> is_ascii_whitespace(#[trigger] s@[j]),
            trim_end_idx(s@) <= end,
        decreases end,
    {
        proof {
            lemma_trim_end_step(s@, end as int);
        }
        end -= 1;
    }
    let mut r: Vec<u8> = Vec::new();
    let mut i: usize = start;
    while i < end
        invariant
            start <= i <= end <= s@.len(),
            r@ == s@.subrange(start as int, i as int),
        decreases end - i,
    {
        r.push(s[i]);
        assert(r@ == s@.subrange(start as int, i + 1));
        i += 1;
    }
    proof {
        if start < end {
            assert(end == trim_end_idx(s@)) by {
                if end > trim_end_idx(s@) {
                    assert(is_ascii_whitespace(s@[end - 1]));
                    if end == s@.len() {
                        assert(trim_end_idx(s@) == s@.len() || is_ascii_whitespace(
                            s@[s@.len() - 1],
                        ));
                    }
                }
            }
            assert(r@ == trim_seq(s@));
        } else {
            assert(r@ =~= Seq::<u8>::empty());
            if trim_start_idx(s@) < trim_end_idx(s@) {
                assert(false) by {
                    assert(!is_ascii_whitespace(s@[trim_start_idx(s@)]));
                    assert(trim_end_idx(s@) <= end || is_ascii_whitespace(s@[trim_start_idx(s@)]));
                }
            }
            assert(r@ == trim_seq(s@));
        }
    }
    r
}

proof fn lemma_trim_start_step(s: Seq<u8>, i: int)
    requires
        0 <= i < s.len(),
        i <= trim_start_idx(s),
        is_ascii_whitespace(s[i]),
    ensures
        i + 1 <= trim_start_idx(s),
{
    lemma_trim_start_bounds(s);
    if trim_start_idx(s) == i {
        assert(trim_start_idx(s) < s.len());
        assert(!is_ascii_whitespace(s[trim_start_idx(s)]));
    }
}

proof fn lemma_trim_end_step(s: Seq<u8>, e: int)
    requires
        0 < e <= s.len(),
        trim_end_idx(s) <= e,
        is_ascii_whitespace(s[e - 1]),
    ensures
        trim_end_idx(s) <= e - 1,
{
    lemma_trim_end_bounds(s);
    if trim_end_idx(s) == e {
        assert(!is_ascii_whitespace(s[trim_end_idx(s) - 1]));
    }
}

/// A value held as a slice is blank when every byte is ASCII whitespace.
pub fn is_blank_slice(s: &[u8]) -> (r: bool)
    ensures
        r == is_blank_seq(s@),
{
    let mut i: usize = 0;
    while i < s.len()
        invariant
            0 <= i <= s@.len(),
            forall|j: int| 0 <= j < i ==> is_ascii_whitespace(#[trigger] s@[j]),
        decreases s@.len() - i,
    {
        if !is_ws(s[i]) {
            return false;
        }
        i += 1;
    }
    true
}

/// A copy of the bytes in positions `a..b`.
pub fn copy_range(s: &Vec<u8>, a: usize, b: usize) -> (r: Vec<u8>)
    requires
        a <= b <= s@.len(),
    ensures
        r@ == s@.subrange(a as int, b as int),
{
    let mut r: Vec<u8> = Vec::new();
    let mut i: usize = a;
    while i < b
        invariant
            a <= i <= b <= s@.len(),
            r@ == s@.subrange(a as int, i as int),
        decreases b - i,
    {
        r.push(s[i]);
        proof {
            assert(s@.subrange(a as int, i as int).push(s@[i as int]) =~= s@.subrange(
                a as int,
                i + 1,
            ));
        }
        i += 1;
    }
    r
}

/// Appends the bytes of `src` to `out`.
pub fn append_bytes(out: &mut Vec<u8>, src: &Vec<u8>)
    ensures
        final(out)@ == old(out)@ + src@,
{
    let mut i: usize = 0;
    proof {
        assert(old(out)@ + src@.take(0) =~= old(out)@);
    }
    while i < src.len()
        invariant
            0 <= i <= src@.len(),
            out@ == old(out)@ + src@.take(i as int),
        decreases src@.len() - i,
    {
        out.push(src[i]);
        proof {
            assert((old(out)@ + src@.take(i as int)).push(src@[i as int]) =~= old(out)@
                + src@.take(i + 1));
        }
        i += 1;
    }
    proof {
        assert(old(out)@ + src@.take(src@.len() as int) =~= old(out)@ + src@);
    }
}

/// Byte-for-byte equality of two vectors.
pub fn bytes_eq(a: &Vec<u8>, b: &Vec<u8>) -> (r: bool)
    ensures
        r == (a@ == b@),
{
    if a.len() != b.len() {
        assert(a@ != b@);
        return false;
    }
    let mut i: usize = 0;
    while i < a.len()
        invariant
            0 <= i <= a@.len(),
            a@.len() == b@.len(),
            forall|j: int| 0 <= j < i ==> a@[j] == b@[j],
        decreases a@.len() - i,
    {
        if a[i] != b[i] {
            return false;
        }
        i += 1;
    }
    proof {
        assert(a@ =~= b@);
    }
    true
}

/// True when `s` ends with `suffix`.
pub open spec fn ends_with_seq(s: Seq<u8>, suffix: Seq<u8>) -> bool {
    s.len() >= suffix.len() && s.skip(s.len() - suffix.len()) == suffix
}

/// Byte-level suffix test.
pub fn ends_with(s: &Vec<u8>, suffix: &Vec<u8>) -> (r: bool)
    ensures
        r == ends_with_seq(s@, suffix@),
{
    if s.len() < suffix.len() {
        return false;
    }
    let n: usize = s.len();
    let off: usize = n - suffix.len();
    let mut i: usize = 0;
    while i < suffix.len()
        invariant
            0 <= i <= suffix@.len(),
            n == s@.len(),
            off == s@.len() - suffix@.len(),
            s@.len() >= suffix@.len(),
            forall|j: int| 0 <= j < i ==> s@[off + j] == suffix@[j],
        decreases suffix@.len() - i,
    {
        assert(off + i < s@.len());
        if s[off + i] != suffix[i] {
            proof {
                assert(s@.skip(off as int)[i as int] == s@[off + i]);
            }
            return false;
        }
        i += 1;
    }
    proof {
        assert(s@.skip(off as int) =~= suffix@);
    }
    true
}

} // verus!
