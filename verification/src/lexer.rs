//! The Objective-J lexer: splits source text into tokens (comments, words,
//! signed numbers, string literals, whitespace runs and single characters)
//! and walks them with a cursor that can be saved and restored.
use vstd::prelude::*;
use crate::classes::{ascii_letter, digit_char, space_char, word_char, CharClasses};
use crate::text::{string_of, copy_text, slice_text, text_is, chars_of};

verus! {

// ---------------------------------------------------------------------------
// The token grammar
// ---------------------------------------------------------------------------

pub open spec fn word_p() -> spec_fn(char) -> bool {
    |c: char| word_char(c)
}

pub open spec fn digit_p() -> spec_fn(char) -> bool {
    |c: char| digit_char(c)
}

pub open spec fn space_p() -> spec_fn(char) -> bool {
    |c: char| space_char(c)
}

pub open spec fn not_newline_p() -> spec_fn(char) -> bool {
    |c: char| c != '\n'
}

/// End of the longest run of characters satisfying `p` that starts at `i`.
pub open spec fn run_end(s: Seq<char>, i: int, p: spec_fn(char) -> bool) -> int
    decreases s.len() - i,
{
    if 0 <= i < s.len() && p(s[i]) {
        run_end(s, i + 1, p)
    } else {
        i
    }
}

/// Position of the first `*/` at or after `k`.
pub open spec fn comment_close(s: Seq<char>, k: int) -> Option<int>
    decreases s.len() - k,
{
    if k < 0 || k + 1 >= s.len() {
        None
    } else if s[k] == '*' && s[k + 1] == '/' {
        Some(k)
    } else {
        comment_close(s, k + 1)
    }
}

/// End of a quoted literal whose body starts at `j` (just after the opening
/// quote `q`): the position after the first unescaped `q`.
pub open spec fn quote_end(s: Seq<char>, j: int, q: char) -> Option<int>
    decreases s.len() - j,
{
    if j < 0 || j >= s.len() {
        None
    } else if s[j] == q {
        Some(j + 1)
    } else if s[j] == '\\' {
        if j + 1 < s.len() {
            quote_end(s, j + 2, q)
        } else {
            None
        }
    } else {
        quote_end(s, j + 1, q)
    }
}

/// End of the longest sequence of `.digits` groups starting at `i`.
pub open spec fn fraction_end(s: Seq<char>, i: int) -> int
    decreases s.len() - i,
{
    if 0 <= i && i + 1 < s.len() && s[i] == '.' && digit_char(s[i + 1]) {
        let e = run_end(s, i + 1, digit_p());
        if i < e <= s.len() {
            fraction_end(s, e)
        } else {
            i
        }
    } else {
        i
    }
}

/// `[+-]?\d+` at `i`.
pub open spec fn signed_digits_end(s: Seq<char>, i: int) -> Option<int> {
    if 0 <= i < s.len() && (s[i] == '+' || s[i] == '-') && run_end(s, i + 1, digit_p()) > i + 1 {
        Some(run_end(s, i + 1, digit_p()))
    } else if run_end(s, i, digit_p()) > i {
        Some(run_end(s, i, digit_p()))
    } else {
        None
    }
}

/// The optional `(.\d+)*[eE][+-]?\d+` tail of a number whose digits end at `d`.
pub open spec fn exponent_end(s: Seq<char>, d: int) -> int {
    let f = fraction_end(s, d);
    if 0 <= f < s.len() && (s[f] == 'e' || s[f] == 'E') {
        match signed_digits_end(s, f + 1) {
            Some(e) => e,
            None => d,
        }
    } else {
        d
    }
}

/// `\d+` followed by the optional exponent tail.
pub open spec fn unsigned_number_end(s: Seq<char>, i: int) -> Option<int> {
    let d = run_end(s, i, digit_p());
    if d > i {
        Some(exponent_end(s, d))
    } else {
        None
    }
}

/// `[+-]?\d+(?:(?:[.]\d+)*(?:[eE][+-]?\d+))?` at `i`.
pub open spec fn number_end(s: Seq<char>, i: int) -> Option<int> {
    if 0 <= i < s.len() && (s[i] == '+' || s[i] == '-') && unsigned_number_end(s, i + 1) is Some {
        unsigned_number_end(s, i + 1)
    } else {
        unsigned_number_end(s, i)
    }
}

/// End of the token that starts at `i`. The alternatives are tried in this
/// order: line comment, block comment, word, number, double-quoted string,
/// single-quoted string, whitespace run, any single character.
pub open spec fn token_end(s: Seq<char>, i: int) -> int {
    if i + 1 < s.len() && s[i] == '/' && s[i + 1] == '/' {
        let e = run_end(s, i + 2, not_newline_p());
        if e < s.len() {
            e + 1
        } else {
            e
        }
    } else if i + 1 < s.len() && s[i] == '/' && s[i + 1] == '*' && comment_close(s, i + 2) is Some {
        comment_close(s, i + 2)->0 + 2
    } else if word_char(s[i]) {
        run_end(s, i, word_p())
    } else if number_end(s, i) is Some {
        number_end(s, i)->0
    } else if s[i] == '"' && quote_end(s, i + 1, '"') is Some {
        quote_end(s, i + 1, '"')->0
    } else if s[i] == '\'' && quote_end(s, i + 1, '\'') is Some {
        quote_end(s, i + 1, '\'')->0
    } else if space_char(s[i]) {
        run_end(s, i, space_p())
    } else {
        i + 1
    }
}

/// The tokens of `s` from position `i` on.
pub open spec fn tokens_from(s: Seq<char>, i: int) -> Seq<Seq<char>>
    decreases s.len() - i,
{
    if i < 0 || i >= s.len() {
        Seq::empty()
    } else {
        let e = token_end(s, i);
        if i < e <= s.len() {
            seq![s.subrange(i, e)] + tokens_from(s, e)
        } else {
            Seq::empty()
        }
    }
}

/// The tokens of a source text.
pub open spec fn tokenize(s: Seq<char>) -> Seq<Seq<char>> {
    tokens_from(s, 0)
}

/// A whitespace or comment token: a non-empty run of whitespace, or text
/// starting with `//` or `/*`.
pub open spec fn ws_token(t: Seq<char>) -> bool {
    ||| (t.len() > 0 && forall|k: int| 0 <= k < t.len() ==> space_char(#[trigger] t[k]))
    ||| (t.len() >= 2 && t[0] == '/' && (t[1] == '/' || t[1] == '*'))
}

/// Concatenation of a sequence of texts.
pub open spec fn concat(ts: Seq<Seq<char>>) -> Seq<char>
    decreases ts.len(),
{
    if ts.len() == 0 {
        Seq::empty()
    } else {
        ts[0] + concat(ts.drop_first())
    }
}

// ---------------------------------------------------------------------------
// Facts about the grammar
// ---------------------------------------------------------------------------

pub proof fn lemma_run_end(s: Seq<char>, i: int, p: spec_fn(char) -> bool)
    requires
        0 <= i <= s.len(),
    ensures
        i <= run_end(s, i, p) <= s.len(),
        forall|k: int| i <= k < run_end(s, i, p) ==> #[trigger] p(s[k]),
        run_end(s, i, p) < s.len() ==> !p(s[run_end(s, i, p)]),
    decreases s.len() - i,
{
    if i < s.len() && p(s[i]) {
        lemma_run_end(s, i + 1, p);
    }
}

pub proof fn lemma_comment_close(s: Seq<char>, k: int)
    requires
        0 <= k,
    ensures
        comment_close(s, k) matches Some(c) ==> k <= c && c + 1 < s.len() && s[c] == '*' && s[c + 1] == '/',
    decreases s.len() - k,
{
    if k + 1 < s.len() && !(s[k] == '*' && s[k + 1] == '/') {
        lemma_comment_close(s, k + 1);
    }
}

pub proof fn lemma_quote_end(s: Seq<char>, j: int, q: char)
    requires
        0 <= j,
    ensures
        quote_end(s, j, q) matches Some(e) ==> j < e <= s.len(),
    decreases s.len() - j,
{
    if 0 <= j < s.len() && s[j] != q {
        if s[j] == '\\' {
            if j + 1 < s.len() {
                lemma_quote_end(s, j + 2, q);
            }
        } else {
            lemma_quote_end(s, j + 1, q);
        }
    }
}

pub proof fn lemma_fraction_end(s: Seq<char>, i: int)
    requires
        0 <= i <= s.len(),
    ensures
        i <= fraction_end(s, i) <= s.len(),
    decreases s.len() - i,
{
    if 0 <= i && i + 1 < s.len() && s[i] == '.' && digit_char(s[i + 1]) {
        lemma_run_end(s, i + 1, digit_p());
        let e = run_end(s, i + 1, digit_p());
        if i < e <= s.len() {
            lemma_fraction_end(s, e);
        }
    }
}

pub proof fn lemma_number_end(s: Seq<char>, i: int)
    requires
        0 <= i < s.len(),
    ensures
        number_end(s, i) matches Some(e) ==> i < e <= s.len(),
{
    lemma_run_end(s, i, digit_p());
    lemma_run_end(s, i + 1, digit_p());
    let d0 = run_end(s, i, digit_p());
    let d1 = run_end(s, i + 1, digit_p());
    lemma_fraction_end(s, d0);
    lemma_fraction_end(s, d1);
    let f0 = fraction_end(s, d0);
    let f1 = fraction_end(s, d1);
    if f0 + 1 <= s.len() {
        lemma_run_end(s, f0 + 1, digit_p());
        if f0 + 2 <= s.len() {
            lemma_run_end(s, f0 + 2, digit_p());
        }
    }
    if f1 + 1 <= s.len() {
        lemma_run_end(s, f1 + 1, digit_p());
        if f1 + 2 <= s.len() {
            lemma_run_end(s, f1 + 2, digit_p());
        }
    }
}

/// Every token is non-empty and ends within the text.
pub proof fn lemma_token_end(s: Seq<char>, i: int)
    requires
        0 <= i < s.len(),
    ensures
        i < token_end(s, i) <= s.len(),
{
    if i + 2 <= s.len() {
        lemma_run_end(s, i + 2, not_newline_p());
    }
    if i + 2 <= s.len() {
        lemma_comment_close(s, i + 2);
    }
    lemma_run_end(s, i, word_p());
    lemma_number_end(s, i);
    lemma_quote_end(s, i + 1, '"');
    lemma_quote_end(s, i + 1, '\'');
    lemma_run_end(s, i, space_p());
}

/// The tokens of a text, joined, give back the text; no token is empty.
pub proof fn lemma_tokens_concat(s: Seq<char>, i: int)
    requires
        0 <= i <= s.len(),
    ensures
        concat(tokens_from(s, i)) == s.subrange(i, s.len() as int),
        forall|k: int| 0 <= k < tokens_from(s, i).len() ==> #[trigger] tokens_from(s, i)[k].len() > 0,
    decreases s.len() - i,
{
    if i < s.len() {
        lemma_token_end(s, i);
        let e = token_end(s, i);
        lemma_tokens_concat(s, e);
        let ts = tokens_from(s, i);
        assert(ts.drop_first() == tokens_from(s, e));
        assert(s.subrange(i, e) + s.subrange(e, s.len() as int) == s.subrange(i, s.len() as int));
        assert forall|k: int| 0 <= k < ts.len() implies #[trigger] ts[k].len() > 0 by {
            if k > 0 {
                assert(ts[k] == tokens_from(s, e)[k - 1]);
            }
        }
    } else {
        assert(s.subrange(i, s.len() as int) =~= Seq::<char>::empty());
    }
}

/// Law: lexing loses and invents nothing: the tokens of a text, joined,
/// are the text itself, and none of them is empty.
pub proof fn law_tokenize_concat(s: Seq<char>)
    ensures
        concat(tokenize(s)) == s,
        forall|k: int| 0 <= k < tokenize(s).len() ==> #[trigger] tokenize(s)[k].len() > 0,
{
    lemma_tokens_concat(s, 0);
    assert(s.subrange(0, s.len() as int) =~= s);
}

/// Joining a list with one more text appends that text.
pub proof fn lemma_concat_push(ts: Seq<Seq<char>>, t: Seq<char>)
    ensures
        concat(ts.push(t)) == concat(ts) + t,
    decreases ts.len(),
{
    if ts.len() == 0 {
        assert(ts.push(t).drop_first() =~= Seq::<Seq<char>>::empty());
        assert(concat(Seq::<Seq<char>>::empty()) == Seq::<char>::empty());
        assert(ts.push(t)[0] == t);
        assert(concat(ts.push(t)) =~= t);
        assert(concat(ts) == Seq::<char>::empty());
    } else {
        lemma_concat_push(ts.drop_first(), t);
        assert(ts.push(t).drop_first() =~= ts.drop_first().push(t));
        assert(ts.push(t)[0] == ts[0]);
        assert(concat(ts.push(t)) =~= ts[0] + (concat(ts.drop_first()) + t));
    }
}

/// A text that starts with `#` starts with the token `#`.
pub proof fn lemma_hash_first_token(s: Seq<char>)
    requires
        s.len() > 0,
        s[0] == '#',
    ensures
        tokenize(s).len() > 0,
        tokenize(s)[0] == seq!['#'],
{
    assert(token_end(s, 0) == 1);
    assert(s.subrange(0, 1) =~= seq!['#']);
}

// ---------------------------------------------------------------------------
// Scanning
// ---------------------------------------------------------------------------

pub open spec fn kind_p(kind: u8) -> spec_fn(char) -> bool {
    if kind == 0 {
        word_p()
    } else if kind == 1 {
        digit_p()
    } else if kind == 2 {
        space_p()
    } else {
        not_newline_p()
    }
}

fn kind_holds(cls: &CharClasses, kind: u8, c: char) -> (b: bool)
    requires
        cls.wf(),
    ensures
        b == kind_p(kind)(c),
{
    if kind == 0 {
        cls.is_word(c)
    } else if kind == 1 {
        cls.is_digit(c)
    } else if kind == 2 {
        cls.is_space(c)
    } else {
        c != '\n'
    }
}

pub fn scan_run(cls: &CharClasses, s: &Vec<char>, i: usize, kind: u8) -> (e: usize)
    requires
        cls.wf(),
        i <= s.len(),
    ensures
        e == run_end(s@, i as int, kind_p(kind)),
{
    let mut j = i;
    while j < s.len() && kind_holds(cls, kind, s[j])
        invariant
            cls.wf(),
            i <= j <= s.len(),
            run_end(s@, i as int, kind_p(kind)) == run_end(s@, j as int, kind_p(kind)),
        decreases s.len() - j,
    {
        j = j + 1;
    }
    j
}

fn scan_comment_close(s: &Vec<char>, k: usize) -> (r: Option<usize>)
    ensures
        r matches Some(c) ==> comment_close(s@, k as int) == Some(c as int),
        r is None ==> comment_close(s@, k as int) is None,
{
    let mut j = k;
    while j < s.len()
        invariant
            k <= j,
            comment_close(s@, k as int) == comment_close(s@, j as int),
        decreases s.len() - j,
    {
        if j + 1 >= s.len() {
            return None;
        }
        if s[j] == '*' && s[j + 1] == '/' {
            return Some(j);
        }
        j = j + 1;
    }
    None
}

fn scan_quote_end(s: &Vec<char>, j0: usize, q: char) -> (r: Option<usize>)
    ensures
        r matches Some(e) ==> quote_end(s@, j0 as int, q) == Some(e as int),
        r is None ==> quote_end(s@, j0 as int, q) is None,
{
    let mut j = j0;
    while j < s.len()
        invariant
            j0 <= j,
            quote_end(s@, j0 as int, q) == quote_end(s@, j as int, q),
        decreases s.len() - j,
    {
        if s[j] == q {
            return Some(j + 1);
        } else if s[j] == '\\' {
            if j + 1 < s.len() {
                j = j + 2;
            } else {
                return None;
            }
        } else {
            j = j + 1;
        }
    }
    None
}

fn scan_fraction_end(cls: &CharClasses, s: &Vec<char>, i: usize) -> (f: usize)
    requires
        cls.wf(),
        i <= s.len(),
    ensures
        f == fraction_end(s@, i as int),
{
    let mut j = i;
    loop
        invariant
            cls.wf(),
            i <= j <= s.len(),
            fraction_end(s@, i as int) == fraction_end(s@, j as int),
        decreases s.len() - j,
    {
        if j < s.len() && j + 1 < s.len() && s[j] == '.' && cls.is_digit(s[j + 1]) {
            let e = scan_run(cls, s, j + 1, 1);
            proof {
                lemma_run_end(s@, j + 1, digit_p());
            }
            j = e;
        } else {
            return j;
        }
    }
}

fn scan_signed_digits(cls: &CharClasses, s: &Vec<char>, i: usize) -> (r: Option<usize>)
    requires
        cls.wf(),
        i <= s.len(),
    ensures
        r matches Some(e) ==> signed_digits_end(s@, i as int) == Some(e as int),
        r is None ==> signed_digits_end(s@, i as int) is None,
{
    if i < s.len() && (s[i] == '+' || s[i] == '-') {
        let e = scan_run(cls, s, i + 1, 1);
        if e > i + 1 {
            return Some(e);
        }
    }
    let e = scan_run(cls, s, i, 1);
    if e > i {
        Some(e)
    } else {
        None
    }
}

fn scan_unsigned_number(cls: &CharClasses, s: &Vec<char>, i: usize) -> (r: Option<usize>)
    requires
        cls.wf(),
        i <= s.len(),
    ensures
        r matches Some(e) ==> unsigned_number_end(s@, i as int) == Some(e as int),
        r is None ==> unsigned_number_end(s@, i as int) is None,
{
    let d = scan_run(cls, s, i, 1);
    if d <= i {
        return None;
    }
    proof {
        lemma_run_end(s@, i as int, digit_p());
    }
    let f = scan_fraction_end(cls, s, d);
    proof {
        lemma_fraction_end(s@, d as int);
    }
    if f < s.len() && (s[f] == 'e' || s[f] == 'E') {
        match scan_signed_digits(cls, s, f + 1) {
            Some(e) => Some(e),
            None => Some(d),
        }
    } else {
        Some(d)
    }
}

fn scan_number(cls: &CharClasses, s: &Vec<char>, i: usize) -> (r: Option<usize>)
    requires
        cls.wf(),
        i < s.len(),
    ensures
        r matches Some(e) ==> number_end(s@, i as int) == Some(e as int),
        r is None ==> number_end(s@, i as int) is None,
{
    if s[i] == '+' || s[i] == '-' {
        let r = scan_unsigned_number(cls, s, i + 1);
        if r.is_some() {
            return r;
        }
    }
    scan_unsigned_number(cls, s, i)
}

fn scan_token(cls: &CharClasses, s: &Vec<char>, i: usize) -> (e: usize)
    requires
        cls.wf(),
        i < s.len(),
    ensures
        e == token_end(s@, i as int),
{
    if i + 1 < s.len() && s[i] == '/' && s[i + 1] == '/' {
        let e = scan_run(cls, s, i + 2, 3);
        proof {
            lemma_run_end(s@, i + 2, not_newline_p());
        }
        return if e < s.len() {
            e + 1
        } else {
            e
        };
    }
    if i + 1 < s.len() && s[i] == '/' && s[i + 1] == '*' {
        if let Some(c) = scan_comment_close(s, i + 2) {
            proof {
                lemma_comment_close(s@, i + 2);
            }
            return c + 2;
        }
    }
    if cls.is_word(s[i]) {
        return scan_run(cls, s, i, 0);
    }
    if let Some(e) = scan_number(cls, s, i) {
        return e;
    }
    if s[i] == '"' {
        if let Some(e) = scan_quote_end(s, i + 1, '"') {
            return e;
        }
    }
    if s[i] == '\'' {
        if let Some(e) = scan_quote_end(s, i + 1, '\'') {
            return e;
        }
    }
    if cls.is_space(s[i]) {
        return scan_run(cls, s, i, 2);
    }
    i + 1
}

/// The tokens of `s`, computed.
fn scan_tokens(cls: &CharClasses, s: &Vec<char>) -> (ts: Vec<Vec<char>>)
    requires
        cls.wf(),
    ensures
        texts_view(ts@) == tokenize(s@),
{
    let mut ts: Vec<Vec<char>> = Vec::new();
    let mut i: usize = 0;
    while i < s.len()
        invariant
            cls.wf(),
            i <= s.len(),
            texts_view(ts@) + tokens_from(s@, i as int) == tokenize(s@),
        decreases s.len() - i,
    {
        let e = scan_token(cls, s, i);
        proof {
            lemma_token_end(s@, i as int);
        }
        let t = slice_text(s, i, e);
        let ghost old_ts = ts@;
        ts.push(t);
        proof {
            assert(texts_view(ts@) == texts_view(old_ts).push(t@));
            assert(tokens_from(s@, i as int) == seq![t@] + tokens_from(s@, e as int));
            assert(texts_view(ts@) + tokens_from(s@, e as int)
                == texts_view(old_ts) + tokens_from(s@, i as int));
        }
        i = e;
    }
    proof {
        assert(tokens_from(s@, i as int) == Seq::<Seq<char>>::empty());
        assert(texts_view(ts@) + Seq::<Seq<char>>::empty() == texts_view(ts@));
    }
    ts
}

/// The characters of each text in a sequence of `Vec<char>`.
pub open spec fn texts_view(ts: Seq<Vec<char>>) -> Seq<Seq<char>> {
    ts.map_values(|t: Vec<char>| t@)
}

// ---------------------------------------------------------------------------
// Token predicates
// ---------------------------------------------------------------------------

/// `^[a-zA-Z_$](\w|$)*$`: a letter, `_` or `$`, then word characters (the
/// `$` inside the group is the end anchor, not a character).
pub open spec fn identifier_token(t: Seq<char>) -> bool {
    &&& t.len() > 0
    &&& (ascii_letter(t[0]) || t[0] == '_' || t[0] == '$')
    &&& forall|k: int| 1 <= k < t.len() ==> word_char(#[trigger] t[k])
}

/// `^[+-]?\d+(([.]\d+)*([eE][+-]?\d+))?$`
pub open spec fn number_token(t: Seq<char>) -> bool {
    t.len() > 0 && number_end(t, 0) == Some(t.len() as int)
}

/// `^\w+$`
pub open spec fn word_token(t: Seq<char>) -> bool {
    t.len() > 0 && forall|k: int| 0 <= k < t.len() ==> word_char(#[trigger] t[k])
}

/// Whether every character of `t` is in the class `kind`.
fn all_in_class(cls: &CharClasses, t: &Vec<char>, kind: u8) -> (b: bool)
    requires
        cls.wf(),
    ensures
        b == (forall|k: int| 0 <= k < t.len() ==> #[trigger] kind_p(kind)(t@[k])),
{
    let e = scan_run(cls, t, 0, kind);
    proof {
        lemma_run_end(t@, 0, kind_p(kind));
    }
    e == t.len()
}

pub fn is_whitespace_tok(cls: &CharClasses, t: &Vec<char>) -> (b: bool)
    requires
        cls.wf(),
    ensures
        b == ws_token(t@),
{
    if t.len() >= 2 && t[0] == '/' && (t[1] == '/' || t[1] == '*') {
        return true;
    }
    let all = all_in_class(cls, t, 2);
    proof {
        if all {
            assert forall|k: int| 0 <= k < t@.len() implies space_char(#[trigger] t@[k]) by {
                assert(kind_p(2)(t@[k]));
            }
        }
        if t@.len() > 0 && (forall|k: int| 0 <= k < t@.len() ==> space_char(#[trigger] t@[k])) {
            assert forall|k: int| 0 <= k < t@.len() implies #[trigger] kind_p(2)(t@[k]) by {
                assert(space_char(t@[k]));
            }
        }
    }
    t.len() > 0 && all
}

pub fn is_identifier(cls: &CharClasses, t: &Vec<char>) -> (b: bool)
    requires
        cls.wf(),
    ensures
        b == identifier_token(t@),
{
    if t.len() == 0 {
        return false;
    }
    let c = t[0];
    if !(('a' <= c && c <= 'z') || ('A' <= c && c <= 'Z') || c == '_' || c == '$') {
        return false;
    }
    let mut k: usize = 1;
    while k < t.len()
        invariant
            cls.wf(),
            1 <= k <= t.len(),
            forall|j: int| 1 <= j < k ==> word_char(#[trigger] t@[j]),
        decreases t.len() - k,
    {
        if !cls.is_word(t[k]) {
            return false;
        }
        k = k + 1;
    }
    true
}

pub fn is_number(cls: &CharClasses, t: &Vec<char>) -> (b: bool)
    requires
        cls.wf(),
    ensures
        b == number_token(t@),
{
    if t.len() == 0 {
        return false;
    }
    match scan_number(cls, t, 0) {
        Some(e) => e == t.len(),
        None => false,
    }
}

pub fn is_word(cls: &CharClasses, t: &Vec<char>) -> (b: bool)
    requires
        cls.wf(),
    ensures
        b == word_token(t@),
{
    let all = all_in_class(cls, t, 0);
    proof {
        if all {
            assert forall|k: int| 0 <= k < t@.len() implies word_char(#[trigger] t@[k]) by {
                assert(kind_p(0)(t@[k]));
            }
        }
        if t@.len() > 0 && (forall|k: int| 0 <= k < t@.len() ==> word_char(#[trigger] t@[k])) {
            assert forall|k: int| 0 <= k < t@.len() implies #[trigger] kind_p(0)(t@[k]) by {
                assert(word_char(t@[k]));
            }
        }
    }
    t.len() > 0 && all
}

// ---------------------------------------------------------------------------
// The token cursor
// ---------------------------------------------------------------------------

/// The token at position `p`, if there is one.
pub open spec fn token_at(ts: Seq<Seq<char>>, p: int) -> Option<Seq<char>> {
    if 0 <= p < ts.len() {
        Some(ts[p])
    } else {
        None
    }
}

pub open spec fn opt_text(o: Option<Vec<char>>) -> Option<Seq<char>> {
    match o {
        Some(t) => Some(t@),
        None => None,
    }
}

pub open spec fn cursor_view(o: Option<usize>) -> int {
    match o {
        Some(i) => i as int,
        None => -1,
    }
}

/// The lexer `b` is `a` moved forwards (or left in place), with the same
/// tokens and saved positions.
pub open spec fn advanced(a: Lexer, b: Lexer) -> bool {
    &&& b.wf()
    &&& b.toks() == a.toks()
    &&& b.saved() == a.saved()
    &&& b.pos() >= a.pos()
}

/// A token sequence with a cursor. The cursor starts before the first
/// token and moves between -1 and the number of tokens; positions can be
/// saved on a stack and restored.
pub struct Lexer {
    tokens: Vec<Vec<char>>,
    index: Option<usize>,
    context: Vec<Option<usize>>,
    classes: CharClasses,
}

impl Lexer {
    pub closed spec fn toks(&self) -> Seq<Seq<char>> {
        texts_view(self.tokens@)
    }

    /// The cursor position.
    pub closed spec fn pos(&self) -> int {
        cursor_view(self.index)
    }

    /// The saved positions, oldest first.
    pub closed spec fn saved(&self) -> Seq<int> {
        self.context@.map_values(|o: Option<usize>| cursor_view(o))
    }

    pub closed spec fn wf(&self) -> bool {
        &&& self.tokens@.len() == self.toks().len()
        &&& -1 <= self.pos() <= self.toks().len()
        &&& forall|k: int| 0 <= k < self.saved().len() ==> -1 <= #[trigger] self.saved()[k] <= self.toks().len()
        &&& self.classes.wf()
    }

    /// The cursor and the saved positions of a well-formed lexer lie
    /// between -1 and the number of tokens, which fits in a `usize`.
    pub proof fn lemma_bounds(&self)
        requires
            self.wf(),
        ensures
            -1 <= self.pos() <= self.toks().len(),
            self.toks().len() <= usize::MAX,
            forall|k: int| 0 <= k < self.saved().len() ==> -1 <= #[trigger] self.saved()[k] <= self.toks().len(),
    {
        assert(self.tokens.len() == self.tokens@.len());
    }

    pub fn new(input: &str) -> (r: Lexer)
        ensures
            r.wf(),
            r.toks() == tokenize(input@.push('\n')),
            r.pos() == -1,
            r.saved().len() == 0,
    {
        let source = chars_of(input);
        Self::from_text(&source)
    }

    /// The lexer of `input` followed by a line feed.
    pub fn from_text(input: &Vec<char>) -> (r: Lexer)
        ensures
            r.wf(),
            r.toks() == tokenize(input@.push('\n')),
            r.pos() == -1,
            r.saved().len() == 0,
    {
        let classes = CharClasses::new();
        let mut source = copy_text(input);
        source.push('\n');
        let tokens = scan_tokens(&classes, &source);
        let r = Lexer { tokens, index: None, context: Vec::new(), classes };
        proof {
            assert(r.saved() =~= Seq::<int>::empty());
        }
        r
    }

    /// The tokens, as strings.
    pub fn token_texts(&self) -> (r: Vec<String>)
        requires
            self.wf(),
        ensures
            r@.len() == self.toks().len(),
            forall|k: int| 0 <= k < r@.len() ==> (#[trigger] r@[k])@ == self.toks()[k],
    {
        let mut r: Vec<String> = Vec::new();
        let mut i: usize = 0;
        while i < self.tokens.len()
            invariant
                i <= self.tokens.len(),
                r@.len() == i,
                forall|k: int| 0 <= k < i ==> (#[trigger] r@[k])@ == self.toks()[k],
            decreases self.tokens.len() - i,
        {
            r.push(string_of(&self.tokens[i]));
            i = i + 1;
        }
        r
    }

    /// The character classes this lexer was built with.
    pub fn classes(&self) -> (c: &CharClasses)
        requires
            self.wf(),
        ensures
            c.wf(),
    {
        &self.classes
    }

    /// The number of tokens.
    pub fn len(&self) -> (n: usize)
        requires
            self.wf(),
        ensures
            n == self.toks().len(),
    {
        self.tokens.len()
    }

    fn get(&self, i: Option<usize>) -> (r: Option<Vec<char>>)
        requires
            self.wf(),
        ensures
            opt_text(r) == token_at(self.toks(), cursor_view(i)),
    {
        match i {
            Some(k) => {
                if k < self.tokens.len() {
                    Some(copy_text(&self.tokens[k]))
                } else {
                    None
                }
            },
            None => None,
        }
    }

    /// Saves the cursor position.
    pub fn push(&mut self)
        requires
            old(self).wf(),
        ensures
            final(self).wf(),
            final(self).toks() == old(self).toks(),
            final(self).pos() == old(self).pos(),
            final(self).saved() == old(self).saved().push(old(self).pos()),
    {
        let ghost before = self.saved();
        self.context.push(self.index);
        proof {
            assert(self.saved() =~= before.push(cursor_view(self.index)));
        }
    }

    /// Restores the most recently saved position, if any.
    pub fn pop(&mut self)
        requires
            old(self).wf(),
        ensures
            final(self).wf(),
            final(self).toks() == old(self).toks(),
            old(self).saved().len() > 0 ==> final(self).pos() == old(self).saved().last()
                && final(self).saved() == old(self).saved().drop_last(),
            old(self).saved().len() == 0 ==> final(self).pos() == old(self).pos()
                && final(self).saved() == old(self).saved(),
    {
        let ghost before = self.saved();
        if let Some(i) = self.context.pop() {
            proof {
                assert(self.saved() =~= before.drop_last());
                assert(before[before.len() - 1] == cursor_view(i));
            }
            self.index = i;
        }
    }

    /// Forgets the most recently saved position without moving.
    pub fn discard_saved(&mut self)
        requires
            old(self).wf(),
        ensures
            final(self).wf(),
            final(self).toks() == old(self).toks(),
            final(self).pos() == old(self).pos(),
            old(self).saved().len() > 0 ==> final(self).saved() == old(self).saved().drop_last(),
            old(self).saved().len() == 0 ==> final(self).saved() == old(self).saved(),
    {
        let ghost before = self.saved();
        if self.context.len() > 0 {
            self.context.pop();
            proof {
                assert(self.saved() =~= before.drop_last());
            }
        }
    }

    /// Moves to the next token and returns it (`None` past the end).
    pub fn next(&mut self) -> (r: Option<Vec<char>>)
        requires
            old(self).wf(),
        ensures
            final(self).wf(),
            final(self).toks() == old(self).toks(),
            final(self).saved() == old(self).saved(),
            final(self).pos() == if old(self).pos() < old(self).toks().len() {
                old(self).pos() + 1
            } else {
                old(self).pos()
            },
            opt_text(r) == token_at(final(self).toks(), final(self).pos()),
    {
        self.index = match self.index {
            None => Some(0),
            Some(i) => if i < self.tokens.len() {
                Some(i + 1)
            } else {
                Some(i)
            },
        };
        assert(self.toks().len() == self.tokens@.len());
        assert(self.saved() == old(self).saved());
        assert(-1 <= self.pos() <= self.toks().len());
        self.get(self.index)
    }

    /// Moves to the previous token and returns it (`None` before the start).
    pub fn previous(&mut self) -> (r: Option<Vec<char>>)
        requires
            old(self).wf(),
        ensures
            final(self).wf(),
            final(self).toks() == old(self).toks(),
            final(self).saved() == old(self).saved(),
            final(self).pos() == if old(self).pos() > -1 {
                old(self).pos() - 1
            } else {
                -1
            },
            opt_text(r) == token_at(final(self).toks(), final(self).pos()),
    {
        self.index = match self.index {
            None => None,
            Some(i) => if i == 0 {
                None
            } else {
                Some(i - 1)
            },
        };
        assert(self.toks().len() == self.tokens@.len());
        assert(self.saved() == old(self).saved());
        assert(-1 <= self.pos() <= self.toks().len());
        self.get(self.index)
    }

    /// Skips whitespace and comment tokens forwards (or backwards) and
    /// returns the first other token.
    pub fn skip_whitespace(&mut self, backwards: bool) -> (r: Option<Vec<char>>)
        requires
            old(self).wf(),
        ensures
            final(self).wf(),
            final(self).toks() == old(self).toks(),
            final(self).saved() == old(self).saved(),
            !backwards ==> final(self).pos() > old(self).pos() || final(self).pos() == final(self).toks().len(),
            backwards ==> final(self).pos() < old(self).pos() || final(self).pos() == -1,
            opt_text(r) == token_at(final(self).toks(), final(self).pos()),
            r matches Some(t) ==> !ws_token(t@),
            !backwards ==> forall|k: int| old(self).pos() < k < final(self).pos() ==> ws_token(#[trigger] final(self).toks()[k]),
            backwards ==> forall|k: int| final(self).pos() < k < old(self).pos() ==> ws_token(#[trigger] final(self).toks()[k]),
    {
        let ghost start = self.pos();
        loop
            invariant
                self.wf(),
                self.toks() == old(self).toks(),
                self.saved() == old(self).saved(),
                start == old(self).pos(),
                !backwards ==> self.pos() >= start,
                backwards ==> self.pos() <= start,
                !backwards ==> forall|k: int| start < k <= self.pos() && k < self.toks().len() ==> ws_token(#[trigger] self.toks()[k]),
                backwards ==> forall|k: int| self.pos() <= k < start && 0 <= k ==> ws_token(#[trigger] self.toks()[k]),
                backwards ==> self.pos() == start || self.pos() >= 0,
            decreases (if backwards { self.pos() + 1 } else { self.toks().len() - self.pos() }),
        {
            let ghost before = self.pos();
            let token = if backwards {
                self.previous()
            } else {
                self.next()
            };
            match token {
                Some(t) => {
                    if !is_whitespace_tok(&self.classes, &t) {
                        return Some(t);
                    }
                },
                None => {
                    return None;
                },
            }
        }
    }

    pub fn skip_ws(&mut self) -> (r: Option<Vec<char>>)
        requires
            old(self).wf(),
        ensures
            final(self).wf(),
            final(self).toks() == old(self).toks(),
            final(self).saved() == old(self).saved(),
            final(self).pos() > old(self).pos() || final(self).pos() == final(self).toks().len(),
            opt_text(r) == token_at(final(self).toks(), final(self).pos()),
            r matches Some(t) ==> !ws_token(t@),
            forall|k: int| old(self).pos() < k < final(self).pos() ==> ws_token(#[trigger] final(self).toks()[k]),
    {
        self.skip_whitespace(false)
    }
}

} // verus!
