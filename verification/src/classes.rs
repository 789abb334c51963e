//! Character classes shared by the grammars of this crate.
//!
//! For ASCII characters the classes are decided here; for every other
//! character the Unicode-aware classes of the `regex` crate (`\w`, `\d`,
//! `\s`) are consulted.
use vstd::prelude::*;
use crate::text::{slice_text, string_push};
use vstd::utf8::is_char_boundary;
use vstd::string::StringSliceAdditionalSpecFns;

verus! {

#[verifier::external_type_specification]
#[verifier::external_body]
pub struct ExRegex(regex::Regex);

/// Whether `regex::Regex::new` accepts the pattern.
pub uninterp spec fn regex_compiles(pattern: Seq<char>) -> bool;

/// Whether the regular expression compiled from `pattern` matches somewhere
/// in `haystack` (`regex::Regex::is_match`).
pub uninterp spec fn regex_is_match(pattern: Seq<char>, haystack: Seq<char>) -> bool;

/// The matches of the regular expression compiled from `pattern` in
/// `haystack`, as `regex::Regex::captures_iter` yields them: for each
/// match, in order, the byte range of each capture group (group 0 being the
/// whole match), `None` for a group that took no part in the match.
pub uninterp spec fn regex_capture_spans(pattern: Seq<char>, haystack: Seq<char>) -> Seq<Seq<Option<(int, int)>>>;

/// The text `regex::Regex::replace_all` makes of `haystack` when every
/// match of the regular expression compiled from `pattern` is replaced by
/// the replacement `rep` (whose `$` references name capture groups).
pub uninterp spec fn regex_replace_all(pattern: Seq<char>, haystack: Seq<char>, rep: Seq<char>) -> Seq<char>;

/// The spans of one match as integers.
pub open spec fn groups_view(m: Seq<Option<(usize, usize)>>) -> Seq<Option<(int, int)>> {
    m.map_values(|g: Option<(usize, usize)>| match g {
        Some(r) => Some((r.0 as int, r.1 as int)),
        None => None,
    })
}

/// The spans of a list of matches as integers.
pub open spec fn spans_view(ms: Seq<Vec<Option<(usize, usize)>>>) -> Seq<Seq<Option<(int, int)>>> {
    ms.map_values(|m: Vec<Option<(usize, usize)>>| groups_view(m@))
}

/// A compiled regular expression together with the pattern it was built from.
pub struct Pattern {
    re: regex::Regex,
    source: String,
}

impl Pattern {
    pub closed spec fn source(&self) -> Seq<char> {
        self.source@
    }

    /// Compiles `source` with `regex::Regex::new`. The result is `Some`
    /// exactly when the crate accepts the pattern, and then remembers the
    /// pattern text.
    #[verifier::external_body]
    pub fn compile(source: &str) -> (r: Option<Pattern>)
        ensures
            r is Some <==> regex_compiles(source@),
            r matches Some(p) ==> p.source() == source@,
    {
        match regex::Regex::new(source) {
            Ok(re) => Some(Pattern { re, source: source.to_string() }),
            Err(_) => None,
        }
    }

    /// `regex::Regex::captures_iter` of the compiled pattern on `haystack`,
    /// each match given by the byte ranges of its groups. As the crate
    /// documents, the matches come in order without overlapping, group 0 of
    /// every match is present, and every range is ordered, lies within the
    /// haystack and falls on character boundaries.
    #[verifier::external_body]
    pub fn captures_all(&self, haystack: &str) -> (r: Vec<Vec<Option<(usize, usize)>>>)
        ensures
            spans_view(r@) == regex_capture_spans(self.source(), haystack@),
            forall|i: int| 0 <= i < r@.len() ==> (#[trigger] r@[i])@.len() > 0 && r@[i]@[0] is Some,
            forall|i: int| 0 < i < r@.len() ==> ((#[trigger] r@[i])@[0] matches Some(cur)
                && (r@[i - 1]@[0] matches Some(prev) && prev.1 <= cur.0)),
            forall|i: int, g: int| 0 <= i < r@.len() && 0 <= g < r@[i]@.len() ==>
                (#[trigger] r@[i]@[g] matches Some(span) ==> span.0 <= span.1 <= haystack.spec_bytes().len()
                    && is_char_boundary(haystack.spec_bytes(), span.0 as int)
                    && is_char_boundary(haystack.spec_bytes(), span.1 as int)),
    {
        self.re.captures_iter(haystack)
            .map(|c| c.iter().map(|g| g.map(|m| (m.start(), m.end()))).collect())
            .collect()
    }

    /// `regex::Regex::replace_all` of the compiled pattern on `haystack`
    /// with the replacement `rep`; as the crate documents, a haystack
    /// without a match comes back unchanged.
    #[verifier::external_body]
    pub fn replace_all(&self, haystack: &str, rep: &str) -> (r: String)
        ensures
            r@ == regex_replace_all(self.source(), haystack@, rep@),
            !regex_is_match(self.source(), haystack@) ==> r@ == haystack@,
    {
        self.re.replace_all(haystack, rep).into_owned()
    }

    /// `regex::Regex::is_match` of the compiled pattern on `haystack`.
    #[verifier::external_body]
    pub fn is_match(&self, haystack: &str) -> (b: bool)
        ensures
            b == regex_is_match(self.source(), haystack@),
    {
        self.re.is_match(haystack)
    }
}

pub open spec fn word_pattern() -> Seq<char> {
    "^\\w$"@
}

pub open spec fn digit_pattern() -> Seq<char> {
    "^\\d$"@
}

pub open spec fn space_pattern() -> Seq<char> {
    "^\\s$"@
}

/// Whether the one-character text `c` matches the class pattern.
pub open spec fn class_holds(pattern: Seq<char>, c: char) -> bool {
    regex_compiles(pattern) && regex_is_match(pattern, seq![c])
}

pub open spec fn is_ascii_char(c: char) -> bool {
    (c as u32) < 128
}

pub open spec fn ascii_letter(c: char) -> bool {
    ('a' <= c && c <= 'z') || ('A' <= c && c <= 'Z')
}

pub open spec fn ascii_digit(c: char) -> bool {
    '0' <= c && c <= '9'
}

/// `\w`: letters, digits and `_` in ASCII, the Unicode class elsewhere.
pub open spec fn word_char(c: char) -> bool {
    if is_ascii_char(c) {
        ascii_letter(c) || ascii_digit(c) || c == '_'
    } else {
        class_holds(word_pattern(), c)
    }
}

/// `\d`: `0`-`9` in ASCII, the Unicode class elsewhere.
pub open spec fn digit_char(c: char) -> bool {
    if is_ascii_char(c) {
        ascii_digit(c)
    } else {
        class_holds(digit_pattern(), c)
    }
}

/// `\s`: space, tab, line feed, vertical tab, form feed and carriage return
/// in ASCII, the Unicode class elsewhere.
pub open spec fn space_char(c: char) -> bool {
    if is_ascii_char(c) {
        c == ' ' || c == '\t' || c == '\n' || c == '\x0B' || c == '\x0C' || c == '\r'
    } else {
        class_holds(space_pattern(), c)
    }
}

/// The compiled Unicode classes.
pub struct CharClasses {
    word: Option<Pattern>,
    digit: Option<Pattern>,
    space: Option<Pattern>,
}

impl CharClasses {
    pub closed spec fn wf(&self) -> bool {
        &&& (self.word is Some <==> regex_compiles(word_pattern()))
        &&& (self.word matches Some(p) ==> p.source() == word_pattern())
        &&& (self.digit is Some <==> regex_compiles(digit_pattern()))
        &&& (self.digit matches Some(p) ==> p.source() == digit_pattern())
        &&& (self.space is Some <==> regex_compiles(space_pattern()))
        &&& (self.space matches Some(p) ==> p.source() == space_pattern())
    }

    pub fn new() -> (r: CharClasses)
        ensures
            r.wf(),
    {
        CharClasses {
            word: Pattern::compile("^\\w$"),
            digit: Pattern::compile("^\\d$"),
            space: Pattern::compile("^\\s$"),
        }
    }

    fn holds(p: &Option<Pattern>, c: char) -> (b: bool)
        ensures
            b == (p matches Some(q) && regex_is_match(q.source(), seq![c])),
    {
        match p {
            Some(q) => {
                let mut s = String::new();
                string_push(&mut s, c);
                q.is_match(s.as_str())
            },
            None => false,
        }
    }

    pub fn is_word(&self, c: char) -> (b: bool)
        requires
            self.wf(),
        ensures
            b == word_char(c),
    {
        if (c as u32) < 128 {
            ('a' <= c && c <= 'z') || ('A' <= c && c <= 'Z') || ('0' <= c && c <= '9') || c == '_'
        } else {
            Self::holds(&self.word, c)
        }
    }

    pub fn is_digit(&self, c: char) -> (b: bool)
        requires
            self.wf(),
        ensures
            b == digit_char(c),
    {
        if (c as u32) < 128 {
            '0' <= c && c <= '9'
        } else {
            Self::holds(&self.digit, c)
        }
    }

    pub fn is_space(&self, c: char) -> (b: bool)
        requires
            self.wf(),
        ensures
            b == space_char(c),
    {
        if (c as u32) < 128 {
            c == ' ' || c == '\t' || c == '\n' || c == '\x0B' || c == '\x0C' || c == '\r'
        } else {
            Self::holds(&self.space, c)
        }
    }
}

/// `t[a..b]` is `t` with its leading and trailing whitespace cut off.
pub open spec fn trim_bounds(t: Seq<char>, a: int, b: int) -> bool {
    &&& 0 <= a <= b <= t.len()
    &&& forall|k: int| 0 <= k < a ==> space_char(#[trigger] t[k])
    &&& forall|k: int| b <= k < t.len() ==> space_char(#[trigger] t[k])
    &&& a < b ==> !space_char(t[a]) && !space_char(t[b - 1])
}

/// `t` without leading and trailing whitespace (`\s`).
pub open spec fn trimmed(t: Seq<char>) -> Seq<char> {
    let (a, b) = choose|a: int, b: int| trim_bounds(t, a, b);
    t.subrange(a, b)
}

/// The whitespace around a text is cut off in one way only.
pub proof fn lemma_trim_bounds_unique(t: Seq<char>, a: int, b: int)
    requires
        trim_bounds(t, a, b),
    ensures
        trimmed(t) == t.subrange(a, b),
{
    let (a2, b2) = choose|a2: int, b2: int| trim_bounds(t, a2, b2);
    assert(trim_bounds(t, a2, b2));
    if a < b && a2 < b2 {
        assert(a == a2) by {
            if a < a2 { assert(space_char(t[a])); }
            if a2 < a { assert(space_char(t[a2])); }
        }
        assert(b == b2) by {
            if b < b2 { assert(space_char(t[b2 - 1])); }
            if b2 < b { assert(space_char(t[b - 1])); }
        }
    } else if a < b {
        if a < a2 { assert(space_char(t[a])); } else { assert(space_char(t[a])); }
    } else if a2 < b2 {
        if a2 < a { assert(space_char(t[a2])); } else { assert(space_char(t[a2])); }
    } else {
        assert(t.subrange(a, b) =~= t.subrange(a2, b2));
    }
}

/// `t` without leading and trailing whitespace (`\s`).
pub fn trim_space(cls: &CharClasses, t: &Vec<char>) -> (r: Vec<char>)
    requires
        cls.wf(),
    ensures
        r@ == trimmed(t@),
        exists|a: int, b: int| trim_bounds(t@, a, b) && r@ == t@.subrange(a, b),
{
    let mut a: usize = 0;
    while a < t.len() && cls.is_space(t[a])
        invariant
            cls.wf(),
            a <= t.len(),
            forall|k: int| 0 <= k < a ==> space_char(#[trigger] t@[k]),
        decreases t.len() - a,
    {
        a = a + 1;
    }
    let mut b: usize = t.len();
    while b > a && cls.is_space(t[b - 1])
        invariant
            cls.wf(),
            a <= b <= t.len(),
            forall|k: int| b <= k < t@.len() ==> space_char(#[trigger] t@[k]),
        decreases b,
    {
        b = b - 1;
    }
    let r = slice_text(t, a, b);
    proof {
        assert(r@ == t@.subrange(a as int, b as int));
        assert(trim_bounds(t@, a as int, b as int));
        lemma_trim_bounds_unique(t@, a as int, b as int);
    }
    r
}

} // verus!
