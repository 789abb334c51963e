//! Finding things in text: the matches of regular expressions as byte
//! ranges, and the text those ranges cover.
use vstd::prelude::*;
use crate::classes::{regex_capture_spans, regex_compiles, trim_space, trimmed, CharClasses, Pattern};
use crate::text::{chars_of, lossy_text, string_of, text_of_bytes};
use vstd::slice::slice_subrange;
use vstd::string::StringSliceAdditionalSpecFns;
use vstd::utf8::{
    decode_utf8, encode_utf8, encode_utf8_valid_utf8, is_char_boundary, is_char_boundary_iff_not_is_continuation_byte,
    is_char_boundary_start_end_of_seq, valid_utf8, valid_utf8_concat, valid_utf8_split,
};
use crate::classes::{groups_view, spans_view};
use crate::tables::string_views;

verus! {

/// The bytes `code[a..b]` as text.
pub fn bytes_text(code: &[u8], a: usize, b: usize) -> (s: String)
    requires
        a <= b <= code.len(),
    ensures
        s@ == lossy_text(code@.subrange(a as int, b as int)),
        valid_utf8(code@.subrange(a as int, b as int)) ==> s@ == decode_utf8(code@.subrange(a as int, b as int)),
{
    text_of_bytes(slice_subrange(code, a, b))
}

/// The bytes `code[a..b]` as text, without surrounding whitespace.
pub fn bytes_text_trimmed(cls: &CharClasses, code: &[u8], a: usize, b: usize) -> (s: String)
    requires
        cls.wf(),
        a <= b <= code.len(),
    ensures
        s@ == trimmed(lossy_text(code@.subrange(a as int, b as int))),
        valid_utf8(code@.subrange(a as int, b as int)) ==> s@ == trimmed(decode_utf8(code@.subrange(a as int, b as int))),
{
    let t = bytes_text(code, a, b);
    string_of(&trim_space(cls, &chars_of(t.as_str())))
}

// ---------------------------------------------------------------------------
// Matching with regular expressions
// ---------------------------------------------------------------------------

/// Every group range of every match lies within `0..n`.
pub open spec fn spans_within(ms: Seq<Vec<Option<(usize, usize)>>>, n: int) -> bool {
    forall|i: int, g: int| 0 <= i < ms.len() && 0 <= g < ms[i]@.len() ==>
        (#[trigger] ms[i]@[g] matches Some(span) ==> span.0 <= span.1 <= n)
}

/// Every match has its whole-match group.
pub open spec fn whole_matches(ms: Seq<Vec<Option<(usize, usize)>>>) -> bool {
    forall|i: int| 0 <= i < ms.len() ==> (#[trigger] ms[i])@.len() > 0 && ms[i]@[0] is Some
}

/// The matches come in order without overlapping.
pub open spec fn ordered_matches(ms: Seq<Vec<Option<(usize, usize)>>>) -> bool {
    forall|i: int| 0 < i < ms.len() ==> ((#[trigger] ms[i])@[0] matches Some(cur)
        && (ms[i - 1]@[0] matches Some(prev) && prev.1 <= cur.0))
}

/// The matches of `pattern` in `hay` (none where the pattern does not
/// compile).
pub fn matches_of(pattern: &str, hay: &str) -> (r: Vec<Vec<Option<(usize, usize)>>>)
    ensures
        well_placed(r@, hay.spec_bytes()),
        regex_compiles(pattern@) ==> spans_view(r@) == regex_capture_spans(pattern@, hay@),
        !regex_compiles(pattern@) ==> r@.len() == 0,
{
    match Pattern::compile(pattern) {
        Some(p) => p.captures_all(hay),
        None => Vec::new(),
    }
}

/// The text of group `g` of match `m` in `code`, if the group took part.
pub fn group_text(code: &[u8], m: &Vec<Option<(usize, usize)>>, g: usize) -> (r: Option<String>)
    requires
        forall|k: int| 0 <= k < m@.len() ==> (#[trigger] m@[k] matches Some(span) ==> span.0 <= span.1 <= code@.len()),
    ensures
        r is Some <==> (g < m@.len() && m@[g as int] is Some),
        r matches Some(t) ==> (m@[g as int] matches Some(span)
            && t@ == lossy_text(code@.subrange(span.0 as int, span.1 as int))
            && (valid_utf8(code@.subrange(span.0 as int, span.1 as int)) ==> t@ == decode_utf8(code@.subrange(span.0 as int, span.1 as int)))),
{
    if g < m.len() {
        match m[g] {
            Some(span) => Some(bytes_text(code, span.0, span.1)),
            None => None,
        }
    } else {
        None
    }
}

/// The start of the whole match `m`.
pub fn match_start(m: &Vec<Option<(usize, usize)>>) -> (r: usize)
    requires
        m@.len() > 0,
        m@[0] is Some,
    ensures
        m@[0] matches Some(span) && r == span.0,
{
    match m[0] {
        Some(span) => span.0,
        None => 0,
    }
}


// ---------------------------------------------------------------------------
// Replacing matches
// ---------------------------------------------------------------------------

/// The whole-match range of a match.
pub open spec fn span0(m: Seq<Option<(int, int)>>) -> (int, int) {
    match m[0] {
        Some(span) => span,
        None => (0, 0),
    }
}

/// The bytes of `hay` from `pos` on, with matches `i..` replaced by the
/// corresponding `reps`.
pub open spec fn spliced_from(hay: Seq<u8>, ms: Seq<Seq<Option<(int, int)>>>, reps: Seq<Seq<u8>>, i: int, pos: int) -> Seq<u8>
    decreases ms.len() - i,
{
    if i >= ms.len() {
        hay.subrange(pos, hay.len() as int)
    } else {
        hay.subrange(pos, span0(ms[i]).0) + reps[i] + spliced_from(hay, ms, reps, i + 1, span0(ms[i]).1)
    }
}

/// The text `hay` with match `i` of `ms` (byte ranges, group 0 first)
/// replaced by `reps[i]`, for each `i`.
pub open spec fn replaced(hay: Seq<char>, ms: Seq<Seq<Option<(int, int)>>>, reps: Seq<Seq<char>>) -> Seq<char> {
    decode_utf8(spliced_from(encode_utf8(hay), ms, reps.map_values(|r: Seq<char>| encode_utf8(r)), 0, 0))
}

/// The text of group `g` of match `m` in `hay`, if the group took part.
pub open spec fn group_chars(hay: Seq<char>, m: Seq<Option<(int, int)>>, g: int) -> Option<Seq<char>> {
    if 0 <= g < m.len() {
        match m[g] {
            Some(span) => Some(decode_utf8(encode_utf8(hay).subrange(span.0, span.1))),
            None => None,
        }
    } else {
        None
    }
}

/// The matches `ms` of a search in text whose bytes are `bytes`: each
/// range ordered, within the text and on character boundaries, group 0
/// always there, matches in order without overlapping.
pub open spec fn well_placed(ms: Seq<Vec<Option<(usize, usize)>>>, bytes: Seq<u8>) -> bool {
    &&& spans_within(ms, bytes.len() as int)
    &&& whole_matches(ms)
    &&& ordered_matches(ms)
    &&& forall|i: int, g: int| 0 <= i < ms.len() && 0 <= g < ms[i]@.len() ==>
        (#[trigger] ms[i]@[g] matches Some(span) ==> is_char_boundary(bytes, span.0 as int)
            && is_char_boundary(bytes, span.1 as int))
}

/// The bytes between two character boundaries of valid UTF-8 are valid
/// UTF-8.
pub proof fn lemma_valid_piece(hay: Seq<u8>, a: int, b: int)
    requires
        valid_utf8(hay),
        0 <= a <= b <= hay.len(),
        is_char_boundary(hay, a),
        is_char_boundary(hay, b),
    ensures
        valid_utf8(hay.subrange(a, b)),
{
    valid_utf8_split(hay, b);
    let p = hay.subrange(0, b);
    if a == b {
        is_char_boundary_start_end_of_seq(p);
    } else {
        is_char_boundary_iff_not_is_continuation_byte(hay, a);
        is_char_boundary_iff_not_is_continuation_byte(p, a);
    }
    valid_utf8_split(p, a);
    assert(p.subrange(a, p.len() as int) =~= hay.subrange(a, b));
}

/// Splicing valid replacements into valid UTF-8 at character boundaries
/// gives valid UTF-8.
proof fn lemma_spliced_valid(hay: Seq<u8>, ms: Seq<Seq<Option<(int, int)>>>, reps: Seq<Seq<u8>>, i: int, pos: int)
    requires
        valid_utf8(hay),
        0 <= i,
        0 <= pos <= hay.len(),
        is_char_boundary(hay, pos),
        reps.len() == ms.len(),
        forall|j: int| 0 <= j < reps.len() ==> valid_utf8(#[trigger] reps[j]),
        forall|j: int| i <= j < ms.len() ==> {
            let sp = #[trigger] span0(ms[j]);
            &&& 0 <= sp.0 <= sp.1 <= hay.len()
            &&& is_char_boundary(hay, sp.0)
            &&& is_char_boundary(hay, sp.1)
        },
        forall|j: int| i < j < ms.len() ==> span0(ms[j - 1]).1 <= #[trigger] span0(ms[j]).0,
        i < ms.len() ==> pos <= span0(ms[i]).0,
    ensures
        valid_utf8(spliced_from(hay, ms, reps, i, pos)),
    decreases ms.len() - i,
{
    if i >= ms.len() {
        is_char_boundary_start_end_of_seq(hay);
        lemma_valid_piece(hay, pos, hay.len() as int);
    } else {
        let sp = span0(ms[i]);
        lemma_valid_piece(hay, pos, sp.0);
        if i + 1 < ms.len() {
            assert(span0(ms[i + 1 - 1]).1 <= span0(ms[i + 1]).0);
        }
        lemma_spliced_valid(hay, ms, reps, i + 1, sp.1);
        valid_utf8_concat(hay.subrange(pos, sp.0), reps[i]);
        valid_utf8_concat(hay.subrange(pos, sp.0) + reps[i], spliced_from(hay, ms, reps, i + 1, sp.1));
    }
}

/// `hay` with each match of `ms` replaced by the corresponding text of
/// `reps`.
pub fn splice(hay: &str, ms: &Vec<Vec<Option<(usize, usize)>>>, reps: &Vec<String>) -> (r: String)
    requires
        ms@.len() == reps@.len(),
        well_placed(ms@, hay.spec_bytes()),
    ensures
        r@ == replaced(hay@, spans_view(ms@), string_views(reps@)),
{
    let bytes = hay.as_bytes();
    let ghost v = spans_view(ms@);
    let ghost rb = string_views(reps@).map_values(|r: Seq<char>| encode_utf8(r));
    let ghost whole = spliced_from(bytes@, v, rb, 0, 0);
    let mut out: Vec<u8> = Vec::new();
    let mut pos: usize = 0;
    let mut i: usize = 0;
    while i < ms.len()
        invariant
            i <= ms@.len(),
            ms@.len() == reps@.len(),
            bytes@ == hay.spec_bytes(),
            well_placed(ms@, bytes@),
            v == spans_view(ms@),
            rb == string_views(reps@).map_values(|r: Seq<char>| encode_utf8(r)),
            whole == spliced_from(bytes@, v, rb, 0, 0),
            pos <= bytes@.len(),
            i > 0 ==> (ms@[i - 1]@[0] matches Some(prev) && pos == prev.1),
            i == 0 ==> pos == 0,
            out@ + spliced_from(bytes@, v, rb, i as int, pos as int) == whole,
        decreases ms@.len() - i,
    {
        let (s, e) = match ms[i][0] {
            Some(span) => span,
            None => (pos, pos),
        };
        proof {
            assert(ms@[i as int]@[0] matches Some(span) && span.0 <= span.1 <= bytes@.len());
            if i > 0 {
                assert(ms@[i as int]@[0] matches Some(cur) && (ms@[i - 1]@[0] matches Some(prev) && prev.1 <= cur.0));
            }
            assert(v[i as int] == groups_view(ms@[i as int]@));
            assert(span0(v[i as int]) == (s as int, e as int));
        }
        let ghost before = out@;
        let mut k = pos;
        while k < s
            invariant
                pos <= k <= s <= bytes@.len(),
                out@ == before + bytes@.subrange(pos as int, k as int),
            decreases s - k,
        {
            out.push(bytes[k]);
            proof {
                assert(bytes@.subrange(pos as int, k + 1) == bytes@.subrange(pos as int, k as int).push(bytes@[k as int]));
            }
            k = k + 1;
        }
        let rep = reps[i].as_str().as_bytes();
        proof {
            assert(rb[i as int] == encode_utf8(reps@[i as int]@));
        }
        let ghost middle = out@;
        let mut k: usize = 0;
        while k < rep.len()
            invariant
                k <= rep@.len(),
                out@ == middle + rep@.subrange(0, k as int),
            decreases rep@.len() - k,
        {
            out.push(rep[k]);
            proof {
                assert(rep@.subrange(0, k + 1) == rep@.subrange(0, k as int).push(rep@[k as int]));
            }
            k = k + 1;
        }
        proof {
            assert(rep@.subrange(0, rep@.len() as int) == rep@);
            assert(out@ == before + bytes@.subrange(pos as int, s as int) + rb[i as int]);
            assert(spliced_from(bytes@, v, rb, i as int, pos as int)
                == bytes@.subrange(pos as int, s as int) + rb[i as int] + spliced_from(bytes@, v, rb, i + 1, e as int));
            assert(out@ + spliced_from(bytes@, v, rb, i + 1, e as int)
                =~= before + spliced_from(bytes@, v, rb, i as int, pos as int));
        }
        pos = e;
        i = i + 1;
    }
    let ghost before = out@;
    let mut k = pos;
    while k < bytes.len()
        invariant
            pos <= k <= bytes@.len(),
            out@ == before + bytes@.subrange(pos as int, k as int),
        decreases bytes@.len() - k,
    {
        out.push(bytes[k]);
        proof {
            assert(bytes@.subrange(pos as int, k + 1) == bytes@.subrange(pos as int, k as int).push(bytes@[k as int]));
        }
        k = k + 1;
    }
    proof {
        assert(out@ == whole);
        encode_utf8_valid_utf8(hay@);
        assert forall|j: int| 0 <= j < rb.len() implies valid_utf8(#[trigger] rb[j]) by {
            encode_utf8_valid_utf8(string_views(reps@)[j]);
        }
        assert forall|j: int| 0 <= j < v.len() implies {
            let sp = #[trigger] span0(v[j]);
            &&& 0 <= sp.0 <= sp.1 <= bytes@.len()
            &&& is_char_boundary(bytes@, sp.0)
            &&& is_char_boundary(bytes@, sp.1)
        } by {
            assert(ms@[j]@[0] matches Some(span) && span.0 <= span.1 <= bytes@.len());
            assert(v[j] == groups_view(ms@[j]@));
        }
        assert forall|j: int| 0 < j < v.len() implies span0(v[j - 1]).1 <= #[trigger] span0(v[j]).0 by {
            assert(ms@[j]@[0] matches Some(cur) && (ms@[j - 1]@[0] matches Some(prev) && prev.1 <= cur.0));
            assert(v[j] == groups_view(ms@[j]@));
            assert(v[j - 1] == groups_view(ms@[j - 1]@));
        }
        is_char_boundary_start_end_of_seq(bytes@);
        if v.len() > 0 {
            assert(ms@[0]@[0] matches Some(span) && span.0 <= span.1);
            assert(v[0] == groups_view(ms@[0]@));
        }
        lemma_spliced_valid(bytes@, v, rb, 0, 0);
    }
    text_of_bytes(out.as_slice())
}

/// The text of group `g` of match `m` in `hay`, if the group took part.
pub fn group_of(hay: &str, m: &Vec<Option<(usize, usize)>>, g: usize) -> (r: Option<String>)
    requires
        forall|k: int| 0 <= k < m@.len() ==> (#[trigger] m@[k] matches Some(span) ==> span.0 <= span.1 <= hay.spec_bytes().len()
            && is_char_boundary(hay.spec_bytes(), span.0 as int) && is_char_boundary(hay.spec_bytes(), span.1 as int)),
    ensures
        opt_view(r) == group_chars(hay@, groups_view(m@), g as int),
{
    if g < m.len() {
        match m[g] {
            Some(span) => {
                proof {
                    encode_utf8_valid_utf8(hay@);
                    lemma_valid_piece(hay.spec_bytes(), span.0 as int, span.1 as int);
                }
                Some(bytes_text(hay.as_bytes(), span.0, span.1))
            },
            None => None,
        }
    } else {
        None
    }
}

/// The characters of an optional string.
pub open spec fn opt_view(o: Option<String>) -> Option<Seq<char>> {
    match o {
        Some(s) => Some(s@),
        None => None,
    }
}

} // verus!
