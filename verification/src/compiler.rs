//! The Objective-J compiler: a preprocessor that turns Objective-J source
//! into JavaScript, records `@import` dependencies, expands `#define`
//! macros and selects `#if` branches.
use vstd::prelude::*;
use crate::buffer::{Atom, StringBuffer};
use crate::classes::{
    groups_view, regex_capture_spans, regex_compiles, regex_is_match, regex_replace_all, spans_view, trim_space, trimmed, word_char, space_char, digit_char,
    CharClasses, Pattern,
};
use crate::analyzer::{escaped, regex_escape};
use crate::expr::{eval_numeric, eval_numeric_exec};
use crate::scan::{group_chars, group_of, replaced, splice, well_placed};
use crate::tables::{has_key, keys_unique, lemma_views_push, same_class_info, string_views, table_env, value_view};
use vstd::string::StringSliceAdditionalSpecFns;
use vstd::utf8::is_char_boundary;
use crate::lexer::{
    advanced, is_identifier, is_number, is_whitespace_tok, is_word, opt_text, token_at, ws_token, word_token,
    identifier_token, concat, texts_view, tokenize, Lexer,
};
pub use crate::tables::{ClassInfo, ClassTable, MacroTable, MacroValue, MacroView};
use crate::text::{
    chars_of, copy_text, has_char, lit, opt_is, or_empty, push_str, push_text, slice_text,
    string_of, text_eq, text_is,
};

verus! {

pub const FLAG_INCLUDE_DEBUG_SYMBOLS: u32 = 1;

pub const FLAG_INCLUDE_TYPE_SIGNATURES: u32 = 2;

/// An `@import`ed file: its path and whether it was given in quotes
/// (local) rather than angle brackets (framework).
pub struct Dependency {
    pub url: String,
    pub is_local: bool,
}

pub struct CompileResult {
    pub code: String,
    pub dependencies: Vec<Dependency>,
    pub defines: MacroTable,
    pub classes: ClassTable,
}

pub struct CompileOptions {
    pub include_debug_symbols: bool,
    pub include_type_signatures: bool,
    pub source_url: String,
    pub defines: MacroTable,
    pub classes: ClassTable,
}

impl Default for CompileOptions {
    fn default() -> (o: CompileOptions)
        ensures
            !o.include_debug_symbols,
            !o.include_type_signatures,
            o.source_url@ == "(anonymous)"@,
            o.defines.wf(),
            o.defines.entries().len() == 0,
            o.classes.wf(),
            o.classes.entries().len() == 0,
    {
        CompileOptions {
            include_debug_symbols: false,
            include_type_signatures: false,
            source_url: String::from_str("(anonymous)"),
            defines: MacroTable::new(),
            classes: ClassTable::new(),
        }
    }
}

// ---------------------------------------------------------------------------
// Working state
// ---------------------------------------------------------------------------

/// A macro definition as the preprocessor keeps it.
enum Macro {
    Flag(bool),
    Text(Vec<char>),
    Func(Vec<Vec<char>>, Vec<char>),
}

struct ClassRec {
    name: Vec<char>,
    super_name: Option<Vec<char>>,
    ivars: Vec<Vec<char>>,
}

struct Condition {
    active: bool,
    has_been_true: bool,
    in_else: bool,
}

/// The value of an `@accessors` attribute.
enum AttrVal {
    Flag,
    Str(Vec<char>),
}

impl AttrVal {
    fn as_str(&self) -> (r: Option<&Vec<char>>)
        ensures
            r matches Some(s) ==> *self == AttrVal::Str(*s),
            r is None ==> *self == AttrVal::Flag,
    {
        match self {
            AttrVal::Str(s) => Some(s),
            AttrVal::Flag => None,
        }
    }
}

/// What a pass of the main loop reports back to a message send: whether
/// another argument follows.
enum PreResult {
    Bool(bool),
    Unit,
}

impl PreResult {
    fn truthy(&self) -> (b: bool)
        ensures
            b == (*self == PreResult::Bool(true)),
    {
        match self {
            PreResult::Bool(b) => *b,
            PreResult::Unit => false,
        }
    }
}

/// The state of one part of a message send or array literal: its label and
/// the nesting depths of braces, parentheses and `?` seen so far.
struct Tuple {
    label: Option<Vec<char>>,
    braces: i128,
    parens: i128,
    questions: i128,
}

impl Tuple {
    fn new() -> (t: Tuple)
        ensures
            t.fresh(),
    {
        Tuple { label: None, braces: 0, parens: 0, questions: 0 }
    }

    spec fn fresh(&self) -> bool {
        self.label is None && self.braces == 0 && self.parens == 0 && self.questions == 0
    }
}

/// Whether `t` is among `names`.
fn name_in(names: &Vec<Vec<char>>, t: &Vec<char>) -> (r: bool)
    ensures
        r == exists|i: int| 0 <= i < names.len() && (#[trigger] names@[i])@ == t@,
{
    let mut i: usize = 0;
    while i < names.len()
        invariant
            i <= names.len(),
            forall|j: int| 0 <= j < i ==> (#[trigger] names@[j])@ != t@,
        decreases names.len() - i,
    {
        if text_eq(&names[i], t) {
            return true;
        }
        i = i + 1;
    }
    false
}

/// Adds `t` to `names` unless it is already there.
fn add_name(names: &mut Vec<Vec<char>>, t: &Vec<char>)
    ensures
        exists|i: int| 0 <= i < final(names).len() && (#[trigger] final(names)@[i])@ == t@,
        texts_view(final(names)@).to_set() == texts_view(old(names)@).to_set().insert(t@),
        texts_view(final(names)@) == (if texts_view(old(names)@).contains(t@) { texts_view(old(names)@) }
            else { texts_view(old(names)@).push(t@) }),
{
    proof {
        assert(texts_view(names@).len() == names@.len());
        if texts_view(names@).contains(t@) {
            let j = choose|j: int| 0 <= j < texts_view(names@).len() && texts_view(names@)[j] == t@;
            assert(names@[j]@ == t@);
        }
        assert forall|j: int| 0 <= j < names@.len() && (#[trigger] names@[j])@ == t@ implies texts_view(names@).contains(t@) by {
            assert(texts_view(names@)[j] == t@);
        }
    }
    if !name_in(names, t) {
        let ghost before = names@;
        names.push(copy_text(t));
        assert(names@[names.len() - 1]@ == t@);
        proof {
            assert(texts_view(names@) =~= texts_view(before).push(t@));
            texts_view(before).lemma_push_to_set_commute(t@);
        }
    } else {
        proof {
            let i = choose|i: int| 0 <= i < names.len() && (#[trigger] names@[i])@ == t@;
            assert(texts_view(names@)[i] == t@);
            assert(texts_view(names@).to_set().insert(t@) =~= texts_view(names@).to_set());
        }
    }
}

fn copy_names(names: &Vec<Vec<char>>) -> (r: Vec<Vec<char>>)
    ensures
        texts_view(r@) == texts_view(names@),
{
    let mut r: Vec<Vec<char>> = Vec::new();
    let mut i: usize = 0;
    while i < names.len()
        invariant
            i <= names.len(),
            texts_view(r@) == texts_view(names@.take(i as int)),
        decreases names.len() - i,
    {
        let ghost before = r@;
        r.push(copy_text(&names[i]));
        proof {
            assert(names@.take(i + 1) == names@.take(i as int).push(names@[i as int]));
            assert(texts_view(r@) =~= texts_view(before).push(names@[i as int]@));
            assert(texts_view(names@.take(i + 1)) =~= texts_view(names@.take(i as int)).push(names@[i as int]@));
        }
        i = i + 1;
    }
    proof {
        assert(names@.take(i as int) == names@);
    }
    r
}

/// Removes every occurrence of `t` from `names`.
fn remove_name(names: &Vec<Vec<char>>, t: &Vec<char>) -> (r: Vec<Vec<char>>)
    ensures
        texts_view(r@) == texts_view(names@).filter(|n: Seq<char>| n != t@),
{
    let mut r: Vec<Vec<char>> = Vec::new();
    let mut i: usize = 0;
    while i < names.len()
        invariant
            i <= names.len(),
            texts_view(r@) == texts_view(names@.take(i as int)).filter(|n: Seq<char>| n != t@),
        decreases names.len() - i,
    {
        proof {
            assert(names@.take(i + 1) == names@.take(i as int).push(names@[i as int]));
            assert(texts_view(names@.take(i + 1)) =~= texts_view(names@.take(i as int)).push(names@[i as int]@));
            texts_view(names@.take(i as int)).lemma_filter_push(names@[i as int]@, |n: Seq<char>| n != t@);
        }
        if !text_eq(&names[i], t) {
            r.push(copy_text(&names[i]));
            proof {
                assert(texts_view(r@) =~= texts_view(r@.drop_last()).push(names@[i as int]@));
            }
        }
        i = i + 1;
    }
    proof {
        assert(names@.take(i as int) == names@);
    }
    r
}

/// Whether the first character of `t` is `c`.
fn first_is(t: &Vec<char>, c: char) -> (r: bool)
    ensures
        r == (t@.len() > 0 && t@[0] == c),
{
    t.len() > 0 && t[0] == c
}

/// Whether `t` holds a line feed.
fn has_newline(t: &Vec<char>) -> (r: bool)
    ensures
        r == t@.contains('\n'),
{
    has_char(t, '\n')
}

/// Whether every character of `t` is whitespace (and there is one).
fn all_space(cls: &CharClasses, t: &Vec<char>) -> (r: bool)
    requires
        cls.wf(),
    ensures
        r == (t@.len() > 0 && forall|k: int| 0 <= k < t@.len() ==> space_char(#[trigger] t@[k])),
{
    if t.len() == 0 {
        return false;
    }
    let mut i: usize = 0;
    while i < t.len()
        invariant
            cls.wf(),
            i <= t.len(),
            forall|k: int| 0 <= k < i ==> space_char(#[trigger] t@[k]),
        decreases t.len() - i,
    {
        if !cls.is_space(t[i]) {
            return false;
        }
        i = i + 1;
    }
    true
}

/// `t` with `:` replaced by `_`.
fn colons_to_underscores(t: &Vec<char>) -> (r: Vec<char>)
    ensures
        r@ == t@.map_values(|c: char| if c == ':' { '_' } else { c }),
{
    let mut r: Vec<char> = Vec::new();
    let mut i: usize = 0;
    while i < t.len()
        invariant
            i <= t.len(),
            r@ == t@.take(i as int).map_values(|c: char| if c == ':' { '_' } else { c }),
        decreases t.len() - i,
    {
        r.push(if t[i] == ':' { '_' } else { t[i] });
        proof {
            assert(t@.take(i + 1) == t@.take(i as int).push(t@[i as int]));
            assert(r@ =~= t@.take(i + 1).map_values(|c: char| if c == ':' { '_' } else { c }));
        }
        i = i + 1;
    }
    proof {
        assert(t@.take(i as int) == t@);
    }
    r
}

/// The JSON array of the method's types (`null` for an untyped slot).
fn json_types(types: &Vec<Option<Vec<char>>>) -> (s: Vec<char>)
    ensures
        s@ == seq!['['] + json_slots(opt_texts(types@)) + seq![']'],
{
    let mut s: Vec<char> = Vec::new();
    s.push('[');
    let mut i: usize = 0;
    while i < types.len()
        invariant
            i <= types.len(),
            s@ == seq!['['] + json_slots(opt_texts(types@.take(i as int))),
        decreases types.len() - i,
    {
        let ghost before = s@;
        if i > 0 {
            s.push(',');
        }
        let ghost mid = s@;
        match &types[i] {
            Some(v) => {
                s.push('"');
                let mut k: usize = 0;
                while k < v.len()
                    invariant
                        k <= v.len(),
                        s@ == mid + seq!['"'] + json_escaped(v@.take(k as int)),
                    decreases v.len() - k,
                {
                    let c = v[k];
                    proof {
                        assert(v@.take(k + 1).drop_last() == v@.take(k as int));
                    }
                    push_json_char(&mut s, c);
                    proof {
                        assert(s@ =~= mid + seq!['"'] + json_escaped(v@.take(k + 1)));
                    }
                    k = k + 1;
                }
                s.push('"');
                proof {
                    assert(v@.take(v@.len() as int) == v@);
                    assert(s@ =~= mid + json_slot(opt_text(types@[i as int])));
                }
            },
            None => {
                push_str(&mut s, "null");
                proof {
                    assert(s@ =~= mid + json_slot(opt_text(types@[i as int])));
                }
            },
        }
        proof {
            let ts = opt_texts(types@.take(i + 1));
            assert(ts.drop_last() =~= opt_texts(types@.take(i as int)));
            assert(ts.last() == opt_text(types@[i as int]));
            assert(s@ =~= seq!['['] + json_slots(ts));
        }
        i = i + 1;
    }
    s.push(']');
    proof {
        assert(types@.take(i as int) == types@);
    }
    s
}

/// Whether atom `a` is the plain text `label`, or that text prefixed with
/// `self.` (an instance variable reference standing in the label's place).
fn atom_is_label(a: &Atom, label: &Vec<char>) -> (r: bool)
    ensures
        r == (a matches Atom::S(s) && (s@ == label@ || s@ == "self."@ + label@)),
{
    match a {
        Atom::S(s) => {
            let t = chars_of(s.as_str());
            if text_eq(&t, label) {
                return true;
            }
            let mut prefixed = lit("self.");
            push_text(&mut prefixed, label);
            text_eq(&t, &prefixed)
        },
        Atom::B(_) => false,
    }
}

/// Whether atom `a` is the plain text `label`, or `self.` and that text.
pub open spec fn is_label_atom(a: Atom, label: Seq<char>) -> bool {
    a matches Atom::S(s) && (s@ == label || s@ == "self."@ + label)
}

/// How many of the first `k` atoms stay when a label is dropped: all but
/// the last label atom among them and the atom before it; none when there
/// is no label atom.
pub open spec fn label_cut(atoms: Seq<Atom>, label: Seq<char>, k: int) -> int
    decreases k,
{
    if k <= 0 {
        0
    } else if is_label_atom(atoms[k - 1], label) {
        if k >= 2 { k - 2 } else { 0 }
    } else {
        label_cut(atoms, label, k - 1)
    }
}

/// The position of the first token of `ts` from `k` on that holds a line
/// break; `ts.len()` when there is none.
pub open spec fn line_end_from(ts: Seq<Seq<char>>, k: int) -> int
    decreases ts.len() - k,
{
    if k >= ts.len() {
        ts.len() as int
    } else if k >= 0 && ts[k].contains('\n') {
        k
    } else {
        line_end_from(ts, k + 1)
    }
}

/// Drops the label of a message-send part, and the atom before it, from the
/// end of the part's buffer: the buffer is cut just before the atom that
/// precedes the last label atom; without a label atom it is emptied.
fn truncate_at_label(buffer: &mut StringBuffer, label: &Vec<char>)
    ensures
        final(buffer).atoms@ == old(buffer).atoms@.take(label_cut(old(buffer).atoms@, label@, old(buffer).atoms@.len() as int)),
{
    let mut k: usize = buffer.atoms.len();
    while k > 0
        invariant
            k <= buffer.atoms.len(),
            buffer.atoms@ == old(buffer).atoms@,
            label_cut(old(buffer).atoms@, label@, old(buffer).atoms@.len() as int) == label_cut(old(buffer).atoms@, label@, k as int),
        decreases k,
    {
        if atom_is_label(&buffer.atoms[k - 1], label) {
            let new_len: usize = if k >= 2 { k - 2 } else { 0 };
            buffer.atoms.truncate(new_len);
            return;
        }
        k = k - 1;
    }
    buffer.atoms.truncate(0);
}

/// A token that the compiler copies as it is where no macro is defined
/// and no instance variable is in scope: anything but `@`, `#`, `[` and
/// `function`.
pub open spec fn plain_token(t: Seq<char>) -> bool {
    t != "@"@ && t != "#"@ && t != "["@ && t != "function"@
}

/// The end of the tokens up to and including position `p`.
pub open spec fn upto(ts: Seq<Seq<char>>, p: int) -> int {
    if p + 1 <= ts.len() {
        p + 1
    } else {
        ts.len() as int
    }
}

/// The code a method body of plain code compiles to, read from token `k` on
/// with `prev` the last token before it that is not whitespace, and where
/// it ends: every token is kept as it is, but a name of `ivars` that does
/// not follow a declaring word is reached through `self`; the body ends at
/// the first `}`. `None` for a body with a `{` or a token that is not plain.
pub open spec fn plain_body(ts: Seq<Seq<char>>, k: int, ivars: Set<Seq<char>>, prev: Seq<char>) -> Option<(Seq<char>, int)>
    decreases ts.len() - k,
{
    if k < 0 || k >= ts.len() {
        None
    } else if ts[k] == "}"@ {
        Some((Seq::empty(), k))
    } else if plain_token(ts[k]) && ts[k] != "{"@ {
        let out = if identifier_token(ts[k]) && ivars.contains(ts[k]) && !declaring_word(prev) {
            "self."@ + ts[k]
        } else {
            ts[k]
        };
        match plain_body(ts, k + 1, ivars, if ws_token(ts[k]) { prev } else { ts[k] }) {
            Some((c, e)) => Some((out + c, e)),
            None => None,
        }
    } else {
        None
    }
}

/// In a method body, a name read right after `.` is a property access:
/// it is copied as it is, never reached through `self`, whatever the
/// instance variables are.
pub proof fn law_member_name_copied(ts: Seq<Seq<char>>, k: int, ivars: Set<Seq<char>>)
    ensures
        ts[k] != "}"@ ==> (plain_body(ts, k, ivars, "."@) matches Some((c, e)) ==> ts[k].is_prefix_of(c)),
{
    reveal_strlit(".");
    if 0 <= k < ts.len() && ts[k] != "}"@ && plain_body(ts, k, ivars, "."@) is Some {
        assert(declaring_word("."@));
        let (c, e) = plain_body(ts, k, ivars, "."@)->0;
        let rest = plain_body(ts, k + 1, ivars, if ws_token(ts[k]) { "."@ } else { ts[k] })->0;
        assert(c == ts[k] + rest.0);
        assert(ts[k].is_prefix_of(c)) by {
            assert forall|i: int| 0 <= i < ts[k].len() implies c[i] == ts[k][i] by {}
        }
    }
}

/// A plain body ends at a `}` at or after where it starts.
proof fn lemma_plain_body(ts: Seq<Seq<char>>, k: int, ivars: Set<Seq<char>>, prev: Seq<char>)
    ensures
        plain_body(ts, k, ivars, prev) matches Some((c, e)) ==> k <= e < ts.len() && ts[e] == "}"@,
    decreases ts.len() - k,
{
    if 0 <= k < ts.len() && ts[k] != "}"@ {
        lemma_plain_body(ts, k + 1, ivars, if ws_token(ts[k]) { prev } else { ts[k] });
    }
}

/// The instance variables a method's body reaches through `self`: those of
/// its class that no parameter shadows.
pub open spec fn unshadowed(ivars: Seq<Seq<char>>, params: Seq<Seq<char>>) -> Set<Seq<char>> {
    Set::new(|x: Seq<char>| ivars.contains(x) && !params.contains(x))
}

/// The instance variables that code refers to through `self`, as texts.
pub open spec fn ivar_view(o: Option<Vec<Vec<char>>>) -> Seq<Seq<char>> {
    match o {
        Some(v) => texts_view(v@),
        None => Seq::empty(),
    }
}

pub open spec fn plain_tokens(ts: Seq<Seq<char>>) -> bool {
    forall|k: int| 0 <= k < ts.len() ==> plain_token(#[trigger] ts[k])
}

/// `a`, then `t`, then `b`.
fn cat3(a: &str, t: &Vec<char>, b: &str) -> (r: Vec<char>)
    ensures
        r@ == a@ + t@ + b@,
{
    let mut r = lit(a);
    push_text(&mut r, t);
    push_str(&mut r, b);
    r
}

/// Whether two optional tokens are equal.
fn opt_eq(a: &Option<Vec<char>>, b: &Option<Vec<char>>) -> (r: bool)
    ensures
        r == (opt_text(*a) == opt_text(*b)),
{
    match (a, b) {
        (Some(x), Some(y)) => text_eq(x, y),
        (None, None) => true,
        _ => false,
    }
}

/// `^\w`: the text starts with a word character.
fn starts_with_word(cls: &CharClasses, t: &Vec<char>) -> (r: bool)
    requires
        cls.wf(),
    ensures
        r == (t@.len() > 0 && word_char(t@[0])),
{
    t.len() > 0 && cls.is_word(t[0])
}

/// `^\d+$`: the text is a non-empty run of digits.
fn all_digits(cls: &CharClasses, t: &Vec<char>) -> (r: bool)
    requires
        cls.wf(),
    ensures
        r == (t@.len() > 0 && forall|k: int| 0 <= k < t@.len() ==> digit_char(#[trigger] t@[k])),
{
    let mut i: usize = 0;
    while i < t.len()
        invariant
            cls.wf(),
            i <= t.len(),
            forall|k: int| 0 <= k < i ==> digit_char(#[trigger] t@[k]),
        decreases t.len() - i,
    {
        if !cls.is_digit(t[i]) {
            return false;
        }
        i = i + 1;
    }
    t.len() > 0
}

/// `\S`: the text holds a character that is not whitespace.
fn has_nonspace(cls: &CharClasses, t: &Vec<char>) -> (r: bool)
    requires
        cls.wf(),
    ensures
        r == exists|k: int| 0 <= k < t@.len() && !space_char(#[trigger] t@[k]),
{
    let mut i: usize = 0;
    while i < t.len()
        invariant
            cls.wf(),
            i <= t.len(),
            forall|k: int| 0 <= k < i ==> space_char(#[trigger] t@[k]),
        decreases t.len() - i,
    {
        if !cls.is_space(t[i]) {
            assert(!space_char(t@[i as int]));
            return true;
        }
        i = i + 1;
    }
    false
}

/// `^(\w|$|:)`: the text is empty or starts with a word character or `:`.
fn selector_start_ok(cls: &CharClasses, t: &Vec<char>) -> (r: bool)
    requires
        cls.wf(),
    ensures
        r == (t@.len() == 0 || word_char(t@[0]) || t@[0] == ':'),
{
    t.len() == 0 || cls.is_word(t[0]) || t[0] == ':'
}

/// The first `n` texts of `parts`, joined by single spaces.
fn join_spaced(parts: &Vec<Vec<char>>, n: usize) -> (r: Vec<char>)
    requires
        n <= parts.len(),
    ensures
        r@ == spaced(texts_view(parts@.take(n as int))),
{
    let mut r: Vec<char> = Vec::new();
    let mut i: usize = 0;
    while i < n
        invariant
            i <= n <= parts.len(),
            r@ == spaced(texts_view(parts@.take(i as int))),
        decreases n - i,
    {
        proof {
            assert(texts_view(parts@.take(i + 1)) =~= texts_view(parts@.take(i as int)).push(parts@[i as int]@));
            assert(texts_view(parts@.take(i + 1)).drop_last() =~= texts_view(parts@.take(i as int)));
        }
        if i > 0 {
            r.push(' ');
        }
        push_text(&mut r, &parts[i]);
        i = i + 1;
    }
    r
}

/// The texts of `parts`, joined.
fn join_all(parts: &Vec<Vec<char>>) -> (r: Vec<char>)
    ensures
        r@ == concat(texts_view(parts@)),
{
    let mut r: Vec<char> = Vec::new();
    let mut i: usize = 0;
    while i < parts.len()
        invariant
            i <= parts.len(),
            r@ == concat(texts_view(parts@.take(i as int))),
        decreases parts.len() - i,
    {
        proof {
            assert(texts_view(parts@.take(i + 1)) =~= texts_view(parts@.take(i as int)).push(parts@[i as int]@));
            crate::lexer::lemma_concat_push(texts_view(parts@.take(i as int)), parts@[i as int]@);
        }
        push_text(&mut r, &parts[i]);
        i = i + 1;
    }
    proof {
        assert(parts@.take(i as int) == parts@);
    }
    r
}

/// The value of attribute `key`, if it was given.
fn attr_get<'a>(attrs: &'a Vec<(Vec<char>, AttrVal)>, key: &str) -> (r: Option<&'a AttrVal>)
    ensures
        r matches Some(v) ==> exists|i: int| 0 <= i < attrs@.len() && attrs@[i].0@ == key@ && *v == attrs@[i].1
            && forall|j: int| 0 <= j < i ==> (#[trigger] attrs@[j]).0@ != key@,
        r is None ==> forall|j: int| 0 <= j < attrs@.len() ==> (#[trigger] attrs@[j]).0@ != key@,
{
    let mut i: usize = 0;
    while i < attrs.len()
        invariant
            i <= attrs.len(),
            forall|j: int| 0 <= j < i ==> (#[trigger] attrs@[j]).0@ != key@,
        decreases attrs.len() - i,
    {
        if text_is(&attrs[i].0, key) {
            return Some(&attrs[i].1);
        }
        i = i + 1;
    }
    None
}

/// Sets attribute `name` to `value`, replacing an earlier value.
fn attr_insert(attrs: &mut Vec<(Vec<char>, AttrVal)>, name: Vec<char>, value: AttrVal)
    ensures
        (exists|i: int| 0 <= i < old(attrs)@.len() && old(attrs)@[i].0@ == name@
            && (forall|j: int| 0 <= j < i ==> (#[trigger] old(attrs)@[j]).0@ != name@)
            && final(attrs)@ == old(attrs)@.update(i, (name, value)))
        || ((forall|j: int| 0 <= j < old(attrs)@.len() ==> (#[trigger] old(attrs)@[j]).0@ != name@)
            && final(attrs)@ == old(attrs)@.push((name, value))),
        attrs_view(final(attrs)@) == attrs_put(attrs_view(old(attrs)@), name@, attr_view((name, value)).1),
{
    let ghost av = attrs_view(old(attrs)@);
    let ghost pair = (name, value);
    let ghost v = attr_view(pair).1;
    let mut i: usize = 0;
    while i < attrs.len()
        invariant
            i <= attrs.len(),
            attrs@ == old(attrs)@,
            av == attrs_view(old(attrs)@),
            pair == (name, value),
            v == attr_view(pair).1,
            forall|j: int| 0 <= j < i ==> (#[trigger] old(attrs)@[j]).0@ != name@,
            attr_index(av, name@, 0) == attr_index(av, name@, i as int),
        decreases attrs.len() - i,
    {
        if text_eq(&attrs[i].0, &name) {
            let ghost nm = name@;
            attrs.set(i, (name, value));
            proof {
                assert(attr_index(av, nm, i as int) == Some(i as int));
                assert(attrs@[i as int] == pair);
                assert(attr_view(pair) == (nm, v));
                assert(attrs_view(attrs@) =~= av.update(i as int, (nm, v)));
            }
            return;
        }
        i = i + 1;
    }
    let ghost nm = name@;
    attrs.push((name, value));
    proof {
        assert(attrs@.last() == pair);
        assert(attr_view(pair) == (nm, v));
        assert(attrs_view(attrs@) =~= av.push((nm, v)));
    }
}

/// `p` with its first letter in upper case, the name a setter of property
/// `p` gets (`_p` gives `_setP:`); `None` where the letter to raise is
/// missing or outside ASCII.
fn default_setter_name(p: &Vec<char>) -> (r: Option<Vec<char>>)
    ensures
        opt_text(r) == default_setter(p@),
{
    let start: usize = if p.len() > 0 && p[0] == '_' { 1 } else { 0 };
    if start >= p.len() {
        return None;
    }
    let c = p[start];
    if !(c < '\u{80}') {
        return None;
    }
    let upper = if 'a' <= c && c <= 'z' {
        ((c as u8) - 32) as char
    } else {
        c
    };
    proof {
        if 'a' <= c && c <= 'z' {
            assert((c as u8) as u32 == c as u32);
            assert(((c as u8) - 32) as char == ascii_upper(c));
        }
    }
    let mut r: Vec<char> = Vec::new();
    if start == 1 {
        r.push('_');
    }
    push_str(&mut r, "set");
    r.push(upper);
    let rest = slice_text(p, start + 1, p.len());
    push_text(&mut r, &rest);
    r.push(':');
    proof {
        assert(r@ =~= default_setter(p@)->0);
    }
    Some(r)
}

/// Texts joined by single spaces.
pub open spec fn spaced(ts: Seq<Seq<char>>) -> Seq<char>
    decreases ts.len(),
{
    if ts.len() == 0 {
        Seq::empty()
    } else if ts.len() == 1 {
        ts[0]
    } else {
        spaced(ts.drop_last()) + seq![' '] + ts.last()
    }
}

/// A lower-case hexadecimal digit.
pub open spec fn hex_digit(n: int) -> char {
    if n == 0 { '0' } else if n == 1 { '1' } else if n == 2 { '2' } else if n == 3 { '3' }
    else if n == 4 { '4' } else if n == 5 { '5' } else if n == 6 { '6' } else if n == 7 { '7' }
    else if n == 8 { '8' } else if n == 9 { '9' } else if n == 10 { 'a' } else if n == 11 { 'b' }
    else if n == 12 { 'c' } else if n == 13 { 'd' } else if n == 14 { 'e' } else { 'f' }
}

/// How `JSON.stringify` writes the character `c` inside a string: `"` and
/// `\` after a backslash, the usual short escapes for backspace, form feed,
/// line feed, carriage return and tab, `\u00XX` for the other control
/// characters, and any other character as it is.
pub open spec fn json_char(c: char) -> Seq<char> {
    if c == '"' || c == '\\' {
        seq!['\\', c]
    } else if c == '\u{8}' {
        seq!['\\', 'b']
    } else if c == '\u{c}' {
        seq!['\\', 'f']
    } else if c == '\n' {
        seq!['\\', 'n']
    } else if c == '\r' {
        seq!['\\', 'r']
    } else if c == '\t' {
        seq!['\\', 't']
    } else if (c as u32) < 0x20 {
        seq!['\\', 'u', '0', '0', hex_digit(((c as u32) / 16) as int), hex_digit(((c as u32) % 16) as int)]
    } else {
        seq![c]
    }
}

/// The characters of a JSON string literal for `v`, without the quotes,
/// as `JSON.stringify` writes them.
pub open spec fn json_escaped(v: Seq<char>) -> Seq<char>
    decreases v.len(),
{
    if v.len() == 0 {
        Seq::empty()
    } else {
        json_escaped(v.drop_last()) + json_char(v.last())
    }
}

/// The hexadecimal digit `n` (below 16), in lower case.
fn hex_char(n: u32) -> (c: char)
    requires
        n < 16,
    ensures
        c == hex_digit(n as int),
{
    match n {
        0 => '0', 1 => '1', 2 => '2', 3 => '3', 4 => '4', 5 => '5', 6 => '6', 7 => '7',
        8 => '8', 9 => '9', 10 => 'a', 11 => 'b', 12 => 'c', 13 => 'd', 14 => 'e', _ => 'f',
    }
}

/// Appends the JSON form of `c` to `s`.
fn push_json_char(s: &mut Vec<char>, c: char)
    ensures
        final(s)@ == old(s)@ + json_char(c),
{
    if c == '"' || c == '\\' {
        s.push('\\');
        s.push(c);
    } else if c == '\u{8}' {
        s.push('\\');
        s.push('b');
    } else if c == '\u{c}' {
        s.push('\\');
        s.push('f');
    } else if c == '\n' {
        s.push('\\');
        s.push('n');
    } else if c == '\r' {
        s.push('\\');
        s.push('r');
    } else if c == '\t' {
        s.push('\\');
        s.push('t');
    } else if (c as u32) < 0x20 {
        let n = c as u32;
        s.push('\\');
        s.push('u');
        s.push('0');
        s.push('0');
        s.push(hex_char(n / 16));
        s.push(hex_char(n % 16));
    } else {
        s.push(c);
    }
    proof {
        assert(final(s)@ =~= old(s)@ + json_char(c));
    }
}

/// One slot of a JSON array of type names: a string, or `null`.
pub open spec fn json_slot(t: Option<Seq<char>>) -> Seq<char> {
    match t {
        Some(v) => seq!['"'] + json_escaped(v) + seq!['"'],
        None => "null"@,
    }
}

/// The slots of a JSON array, separated by commas.
pub open spec fn json_slots(ts: Seq<Option<Seq<char>>>) -> Seq<char>
    decreases ts.len(),
{
    if ts.len() == 0 {
        Seq::empty()
    } else if ts.len() == 1 {
        json_slot(ts[0])
    } else {
        json_slots(ts.drop_last()) + seq![','] + json_slot(ts.last())
    }
}

/// The type names of a method as given.
pub open spec fn opt_texts(ts: Seq<Option<Vec<char>>>) -> Seq<Option<Seq<char>>> {
    ts.map_values(|t: Option<Vec<char>>| opt_text(t))
}

/// The ASCII capital of `c`, or `c` itself.
pub open spec fn ascii_upper(c: char) -> char {
    if 'a' <= c <= 'z' { ((c as u32) - 32) as char } else { c }
}

/// The setter a property `p` gets by default: `set`, the first letter in
/// upper case, the rest and `:`, with a leading `_` kept in front; none
/// where there is no letter to raise or it lies outside ASCII.
pub open spec fn default_setter(p: Seq<char>) -> Option<Seq<char>> {
    let start: int = if p.len() > 0 && p[0] == '_' { 1 } else { 0 };
    if start >= p.len() || !(p[start] < '\u{80}') {
        None
    } else {
        Some((if start == 1 { seq!['_'] } else { Seq::empty() }) + "set"@ + seq![ascii_upper(p[start])]
            + p.subrange(start + 1, p.len() as int) + seq![':'])
    }
}

/// The regular expression that finds parameter `p` as a whole word.
pub open spec fn param_pattern(p: Seq<char>) -> Seq<char> {
    "\\b"@ + escaped(p) + "\\b"@
}

/// The argument that takes the place of parameter `k`: the `k`-th
/// argument without surrounding whitespace, or nothing where there are
/// fewer arguments.
pub open spec fn argument_text(args: Seq<Seq<char>>, k: int) -> Seq<char> {
    if 0 <= k < args.len() { trimmed(args[k]) } else { Seq::empty() }
}

/// Whether token `t` is blank: spaces only, and no line feed.
pub open spec fn blank_token(t: Seq<char>) -> bool {
    t.len() > 0 && (forall|c: int| 0 <= c < t.len() ==> space_char(#[trigger] t[c])) && !t.contains('\n')
}

/// The first token from `k` on that is not blank.
pub open spec fn blank_from(ts: Seq<Seq<char>>, k: int) -> int
    decreases ts.len() - k,
{
    if 0 <= k < ts.len() && blank_token(ts[k]) { blank_from(ts, k + 1) } else { k }
}

/// The arguments of a call of a function-like macro, read from token `k`
/// on, `depth` brackets deep, with `cur` the text of the argument being
/// read and `args` those read before it: the arguments split at the
/// commas outside nested brackets, each the text of its tokens, and the
/// position of the closing `)`. `None` when the tokens end first.
pub open spec fn macro_args(ts: Seq<Seq<char>>, k: int, depth: int, cur: Seq<char>, args: Seq<Seq<char>>)
    -> Option<(Seq<Seq<char>>, int)>
    decreases ts.len() - k,
{
    if k < 0 || k >= ts.len() {
        None
    } else if ts[k] == "("@ {
        macro_args(ts, k + 1, depth + 1, cur + ts[k], args)
    } else if ts[k] == ")"@ {
        if depth - 1 > 0 {
            macro_args(ts, k + 1, depth - 1, cur + ts[k], args)
        } else {
            Some((if cur.len() > 0 || args.len() > 0 { args.push(cur) } else { args }, k))
        }
    } else if ts[k] == ","@ && depth == 1 {
        macro_args(ts, k + 1, depth, Seq::empty(), args.push(cur))
    } else {
        macro_args(ts, k + 1, depth, cur + ts[k], args)
    }
}

/// The body of a function-like macro once its first `k` parameters are
/// replaced, one after the other, by their arguments.
pub open spec fn substituted(body: Seq<char>, params: Seq<Seq<char>>, args: Seq<Seq<char>>, k: nat) -> Seq<char>
    decreases k,
{
    if k == 0 {
        body
    } else {
        let prev = substituted(body, params, args, (k - 1) as nat);
        let pattern = param_pattern(params[k - 1]);
        if regex_compiles(pattern) {
            regex_replace_all(pattern, prev, argument_text(args, k - 1))
        } else {
            prev
        }
    }
}

/// The text of a condition read from token `i` on: the tokens up to the
/// first one holding a line feed, each whitespace token (comments
/// included) as one space.
pub open spec fn line_text(ts: Seq<Seq<char>>, i: int) -> Seq<char>
    decreases ts.len() - i,
{
    if i < 0 || i >= ts.len() || ts[i].contains('\n') {
        Seq::empty()
    } else {
        (if ws_token(ts[i]) { seq![' '] } else { ts[i] }) + line_text(ts, i + 1)
    }
}

/// The comment an `@import` of `url` leaves in the output, quoted for a
/// local import, in angle brackets otherwise.
pub open spec fn import_comment(url: Seq<char>, local: bool) -> Seq<char> {
    if local { "// @import \""@ + url + "\""@ } else { "// @import <"@ + url + ">"@ }
}

/// The url of an angle-bracket import: the tokens from `k` on up to `>`,
/// or `None` when no `>` follows.
pub open spec fn angle_url(ts: Seq<Seq<char>>, k: int) -> Option<Seq<char>>
    decreases ts.len() - k,
{
    if k < 0 || k >= ts.len() {
        None
    } else if ts[k] == ">"@ {
        Some(Seq::empty())
    } else {
        match angle_url(ts, k + 1) {
            Some(rest) => Some(ts[k] + rest),
            None => None,
        }
    }
}

/// What the `function` keyword becomes, followed by the tokens from `j`
/// on after the tokens `acc` already passed over, and the position of the
/// last token it takes: a named function becomes a variable that holds a
/// function expression; otherwise the keyword, the tokens passed over and
/// `(` stay.
pub open spec fn function_item(ts: Seq<Seq<char>>, j: int, acc: Seq<char>) -> (Seq<char>, int)
    decreases ts.len() - j,
{
    if j < 0 || j >= ts.len() {
        ("var "@ + " = function"@, ts.len() as int)
    } else if ts[j] == "("@ {
        ("function"@ + acc + "("@, j)
    } else if ts[j].len() > 0 && word_char(ts[j][0]) {
        ("var "@ + ts[j] + " = function"@, j)
    } else {
        function_item(ts, j + 1, acc + ts[j])
    }
}

/// The last token a `function` keyword takes lies from `j` on.
pub proof fn lemma_function_item(ts: Seq<Seq<char>>, j: int, acc: Seq<char>)
    requires
        0 <= j <= ts.len(),
    ensures
        j <= function_item(ts, j, acc).1 <= ts.len(),
    decreases ts.len() - j,
{
    if j < ts.len() && ts[j] != "("@ && !(ts[j].len() > 0 && word_char(ts[j][0])) {
        lemma_function_item(ts, j + 1, acc + ts[j]);
    }
}

/// Top-level tokens from `k` on made only of plain tokens, `@import`
/// directives and `function` keywords: the code they compile to (each
/// directive replaced by its comment) and the dependencies they name, in
/// order; `None` where another construct occurs.
pub open spec fn items_from(ts: Seq<Seq<char>>, k: int) -> Option<(Seq<char>, Seq<(Seq<char>, bool)>)>
    decreases ts.len() - k,
{
    if k < 0 || k >= ts.len() {
        Some((Seq::empty(), Seq::empty()))
    } else if ts[k] == "@"@ {
        if token_at(ts, k + 1) == Some("import"@) {
            match import_target(ts, k + 1) {
                Some((u, l)) => {
                    let e = import_end(ts, k + 1) + 1;
                    let next = if k < e <= ts.len() { e } else { ts.len() as int };
                    match items_from(ts, next) {
                        Some((c, d)) => Some((import_comment(u, l) + c, seq![(u, l)] + d)),
                        None => None,
                    }
                },
                None => None,
            }
        } else {
            None
        }
    } else if ts[k] == "function"@ {
        proof {
            lemma_function_item(ts, k + 1, Seq::empty());
        }
        let e = function_item(ts, k + 1, Seq::empty()).1 + 1;
        let next = if e <= ts.len() { e } else { ts.len() as int };
        match items_from(ts, next) {
            Some((c, d)) => Some((function_item(ts, k + 1, Seq::empty()).0 + c, d)),
            None => None,
        }
    } else if plain_token(ts[k]) {
        match items_from(ts, k + 1) {
            Some((c, d)) => Some((ts[k] + c, d)),
            None => None,
        }
    } else {
        None
    }
}

/// What a plain token becomes with the macros `env`: a macro's text for
/// the name of a text macro, the token itself otherwise; `None` for the
/// name of a function-like macro.
pub open spec fn token_out(t: Seq<char>, env: Map<Seq<char>, MacroView>) -> Option<Seq<char>> {
    if identifier_token(t) && env.dom().contains(t) {
        match env[t] {
            MacroView::Text(v) => Some(v),
            MacroView::Flag(_) => Some(t),
            MacroView::Func(_, _) => None,
        }
    } else {
        Some(t)
    }
}

/// Whether the `#define` whose `#` is token `k` is well formed: its name
/// is an identifier and a parameter list, where one follows, is closed.
pub open spec fn define_ok(ts: Seq<Seq<char>>, k: int) -> bool {
    let n = solid_from(ts, k + 2);
    &&& identifier_token(operand_text(token_at(ts, n)))
    &&& !(token_at(ts, n + 1) == Some("("@) && macro_params(ts, n + 2, Seq::empty()) is Err)
}

/// Where reading resumes after the `#define` whose `#` is token `k`.
pub open spec fn define_next(ts: Seq<Seq<char>>, k: int) -> int {
    let e = define_stop(ts, define_value_start(ts, solid_from(ts, k + 2)), Seq::empty(), false) + 1;
    if k < e <= ts.len() { e } else { ts.len() as int }
}

/// Top-level tokens from `k` on made of plain tokens, `@import`
/// directives, `function` keywords and `#define` lines, with the macros
/// `env` defined before them: the code they compile to (each name of a
/// text macro replaced by its text, each `#define` line dropped, each
/// import replaced by its comment), the dependencies they name, in
/// order, and the macros defined at the end; `None` where another
/// construct, or the name of a function-like macro, occurs.
pub open spec fn items_env(ts: Seq<Seq<char>>, k: int, env: Map<Seq<char>, MacroView>)
    -> Option<(Seq<char>, Seq<(Seq<char>, bool)>, Map<Seq<char>, MacroView>)>
    decreases ts.len() - k,
{
    if k < 0 || k >= ts.len() {
        Some((Seq::empty(), Seq::empty(), env))
    } else if ts[k] == "@"@ {
        if token_at(ts, k + 1) == Some("import"@) {
            match import_target(ts, k + 1) {
                Some((u, l)) => {
                    let e = import_end(ts, k + 1) + 1;
                    let next = if k < e <= ts.len() { e } else { ts.len() as int };
                    match items_env(ts, next, env) {
                        Some((c, d, m)) => Some((import_comment(u, l) + c, seq![(u, l)] + d, m)),
                        None => None,
                    }
                },
                None => None,
            }
        } else {
            None
        }
    } else if ts[k] == "#"@ {
        if token_at(ts, k + 1) == Some("define"@) && define_ok(ts, k) {
            let n = solid_from(ts, k + 2);
            let next = if define_next(ts, k) > k { define_next(ts, k) } else { ts.len() as int };
            items_env(ts, next, env.insert(operand_text(token_at(ts, n)), defined_macro(ts, n)))
        } else {
            None
        }
    } else if ts[k] == "function"@ {
        proof {
            lemma_function_item(ts, k + 1, Seq::empty());
        }
        let e = function_item(ts, k + 1, Seq::empty()).1 + 1;
        let next = if e <= ts.len() { e } else { ts.len() as int };
        match items_env(ts, next, env) {
            Some((c, d, m)) => Some((function_item(ts, k + 1, Seq::empty()).0 + c, d, m)),
            None => None,
        }
    } else if plain_token(ts[k]) {
        match (token_out(ts[k], env), items_env(ts, k + 1, env)) {
            (Some(o), Some((c, d, m))) => Some((o + c, d, m)),
            _ => None,
        }
    } else {
        None
    }
}

/// With no macro defined, the items read without them read the same.
pub proof fn lemma_items_env_empty(ts: Seq<Seq<char>>, k: int)
    requires
        items_from(ts, k) is Some,
    ensures
        match items_from(ts, k) {
            Some((c, d)) => items_env(ts, k, Map::empty()) == Some((c, d, Map::<Seq<char>, MacroView>::empty())),
            None => false,
        },
    decreases ts.len() - k,
{
    reveal_strlit("#");
    reveal_strlit("@");
    reveal_strlit("function");
    if k < 0 || k >= ts.len() {
    } else if ts[k] == "@"@ {
        let e = import_end(ts, k + 1) + 1;
        let next = if k < e <= ts.len() { e } else { ts.len() as int };
        lemma_items_env_empty(ts, next);
    } else if ts[k] == "function"@ {
        lemma_function_item(ts, k + 1, Seq::empty());
        let e = function_item(ts, k + 1, Seq::empty()).1 + 1;
        let next = if e <= ts.len() { e } else { ts.len() as int };
        lemma_items_env_empty(ts, next);
    } else {
        lemma_items_env_empty(ts, k + 1);
    }
}

/// The `)` that closes a parameter list read from `k` on lies at `k` or
/// after it, among the tokens.
proof fn lemma_macro_params_pos(ts: Seq<Seq<char>>, k: int, ps: Seq<Seq<char>>)
    ensures
        macro_params(ts, k, ps) matches Ok((q, c)) ==> 0 <= k <= c < ts.len(),
    decreases ts.len() - k,
{
    let a = solid_from(ts, k);
    if k < 0 || a < k || a >= ts.len() {
    } else if ts[a] == ")"@ {
    } else if identifier_token(ts[a]) {
        lemma_macro_params_pos(ts, a + 1, ps.push(ts[a]));
    } else if ts[a] == ","@ {
        lemma_macro_params_pos(ts, a + 1, ps);
    }
}

/// Reading a `#define` value from `k` on stops at `k` or after it, and
/// never past the tokens.
proof fn lemma_define_stop(ts: Seq<Seq<char>>, k: int, parts: Seq<Seq<char>>, ext: bool)
    requires
        0 <= k,
    ensures
        define_stop(ts, k, parts, ext) <= ts.len(),
        k <= ts.len() ==> k <= define_stop(ts, k, parts, ext),
    decreases ts.len() - k,
{
    if k < ts.len() {
        if ts[k].contains('\n') {
            if ext && parts.len() > 0 && parts.last() == "\\"@ {
                lemma_define_stop(ts, k + 1, parts.drop_last().push(" "@), false);
            }
        } else if !ws_token(ts[k]) || parts.len() > 0 {
            lemma_define_stop(ts, k + 1, parts.push(ts[k]), true);
        } else {
            lemma_define_stop(ts, k + 1, parts, ext);
        }
    }
}

/// Output that waits for the top-level buffer, grown by `c`, adds `c` to
/// what is written and waiting.
proof fn lemma_text_step(rendered: Seq<char>, pending: Seq<Seq<char>>, base: Seq<char>, done: Seq<char>, c: Seq<char>)
    requires
        rendered + concat(pending) == base + done,
    ensures
        rendered + concat(pending.push(c)) == base + (done + c),
{
    crate::lexer::lemma_concat_push(pending, c);
    assert(rendered + (concat(pending) + c) =~= (rendered + concat(pending)) + c);
    assert(base + (done + c) =~= (base + done) + c);
}

/// The last token of an `@import` that names a file lies among the tokens.
proof fn lemma_import_end_in(ts: Seq<Seq<char>>, p: int)
    requires
        import_target(ts, p) is Some,
        p >= 0,
    ensures
        p < import_end(ts, p) < ts.len(),
{
    let a = solid_from(ts, p + 1);
    lemma_solid_from_ge(ts, p + 1);
    if operand_text(token_at(ts, a)) == "<"@ {
        lemma_angle_end_in(ts, a + 1);
    }
}

/// Reading from `k` never goes back before `k`.
proof fn lemma_solid_from_ge(ts: Seq<Seq<char>>, k: int)
    ensures
        solid_from(ts, k) >= k || solid_from(ts, k) == ts.len(),
        solid_from(ts, k) <= ts.len() || k > ts.len(),
    decreases ts.len() - k,
{
    if k < ts.len() && !(k >= 0 && !ws_token(ts[k])) {
        lemma_solid_from_ge(ts, k + 1);
    }
}

/// The `>` of an angle-bracket url that is found lies among the tokens.
proof fn lemma_angle_end_in(ts: Seq<Seq<char>>, k: int)
    requires
        angle_url(ts, k) is Some,
    ensures
        k <= angle_end(ts, k) < ts.len(),
    decreases ts.len() - k,
{
    if ts[k] != ">"@ {
        lemma_angle_end_in(ts, k + 1);
    }
}

/// The dependencies of a compile result, as texts: each url and whether
/// it was quoted (local).
pub open spec fn dependency_views(ds: Seq<Dependency>) -> Seq<(Seq<char>, bool)> {
    ds.map_values(|d: Dependency| (d.url@, d.is_local))
}

/// The value tokens of a `#define` from token `k` on: up to the end of
/// the line, leading whitespace left out; a last token `\` continues the
/// value on the next line, in place of a space. `ext` tells whether the
/// current line added a token; `parts` holds the tokens so far.
pub open spec fn define_parts(ts: Seq<Seq<char>>, k: int, parts: Seq<Seq<char>>, ext: bool) -> Seq<Seq<char>>
    decreases ts.len() - k,
{
    if k < 0 || k >= ts.len() {
        if ext && parts.len() > 0 && parts.last() == "\\"@ { parts.drop_last().push(" "@) } else { parts }
    } else if ts[k].contains('\n') {
        if ext && parts.len() > 0 && parts.last() == "\\"@ {
            define_parts(ts, k + 1, parts.drop_last().push(" "@), false)
        } else {
            parts
        }
    } else if !ws_token(ts[k]) || parts.len() > 0 {
        define_parts(ts, k + 1, parts.push(ts[k]), true)
    } else {
        define_parts(ts, k + 1, parts, ext)
    }
}

/// Whether macro `m` holds the value `v`: a flag for an empty value, else
/// the text.
spec fn macro_is(m: Macro, v: Seq<char>) -> bool {
    if v.len() == 0 { m == Macro::Flag(true) } else { m matches Macro::Text(t) && t@ == v }
}

/// The value of a `#define` whose value tokens start at token `k`: the
/// tokens joined and trimmed.
pub open spec fn define_value(ts: Seq<Seq<char>>, k: int) -> Seq<char> {
    trimmed(concat(define_parts(ts, k, Seq::empty(), false)))
}

/// Where reading the value of a `#define` from token `k` on stops: at the
/// line feed that ends it (a trailing `\` carries it over one more line),
/// or at the end of the tokens.
pub open spec fn define_stop(ts: Seq<Seq<char>>, k: int, parts: Seq<Seq<char>>, ext: bool) -> int
    decreases ts.len() - k,
{
    if k < 0 || k >= ts.len() {
        ts.len() as int
    } else if ts[k].contains('\n') {
        if ext && parts.len() > 0 && parts.last() == "\\"@ {
            define_stop(ts, k + 1, parts.drop_last().push(" "@), false)
        } else {
            k
        }
    } else if !ws_token(ts[k]) || parts.len() > 0 {
        define_stop(ts, k + 1, parts.push(ts[k]), true)
    } else {
        define_stop(ts, k + 1, parts, ext)
    }
}

/// The parameters of a function-like macro, read from token `k` on, after
/// those in `ps`: names separated by commas, up to `)`, whose position
/// comes with them. An error names the token that is neither, or is
/// `None` when the tokens end first.
pub open spec fn macro_params(ts: Seq<Seq<char>>, k: int, ps: Seq<Seq<char>>)
    -> Result<(Seq<Seq<char>>, int), Option<Seq<char>>>
    decreases ts.len() - k,
{
    let a = solid_from(ts, k);
    if k < 0 || a < k || a >= ts.len() {
        Err(None)
    } else if ts[a] == ")"@ {
        Ok((ps, a))
    } else if identifier_token(ts[a]) {
        macro_params(ts, a + 1, ps.push(ts[a]))
    } else if ts[a] == ","@ {
        macro_params(ts, a + 1, ps)
    } else {
        Err(Some(ts[a]))
    }
}

/// Whether `m` is the macro the `#define` whose name is token `n` gives:
/// a function-like macro with its parameters and value when `(` follows
/// the name, else the value after the name.
spec fn defined_value_is(m: Macro, ts: Seq<Seq<char>>, n: int) -> bool {
    if token_at(ts, n + 1) == Some("("@) {
        match macro_params(ts, n + 2, Seq::empty()) {
            Ok((ps, c)) => m matches Macro::Func(params, body) && texts_view(params@) == ps
                && body@ == define_value(ts, c + 1),
            Err(_) => false,
        }
    } else {
        macro_is(m, define_value(ts, n + 1))
    }
}

/// The first definition of `name` in `ds` is at `i`.
spec fn first_at(ds: Seq<(Vec<char>, Macro)>, name: Seq<char>, i: int) -> bool {
    &&& 0 <= i < ds.len()
    &&& ds[i].0@ == name
    &&& forall|j: int| 0 <= j < i ==> (#[trigger] ds[j]).0@ != name
}

/// The macros of `ds` by name, each with its first definition.
spec fn env_of(ds: Seq<(Vec<char>, Macro)>) -> Map<Seq<char>, MacroView> {
    Map::new(
        |k: Seq<char>| exists|i: int| first_at(ds, k, i),
        |k: Seq<char>| macro_view(ds[choose|i: int| first_at(ds, k, i)].1),
    )
}

/// What a macro holds, its texts taken as sequences.
spec fn macro_view(m: Macro) -> MacroView {
    match m {
        Macro::Flag(b) => MacroView::Flag(b),
        Macro::Text(t) => MacroView::Text(t@),
        Macro::Func(ps, b) => MacroView::Func(texts_view(ps@), b@),
    }
}

/// The macro that a `#define` whose name is token `n` gives: a
/// function-like macro with its parameters and value when `(` follows the
/// name, else a flag for an empty value and the value's text otherwise.
pub open spec fn defined_macro(ts: Seq<Seq<char>>, n: int) -> MacroView {
    if token_at(ts, n + 1) == Some("("@) {
        match macro_params(ts, n + 2, Seq::empty()) {
            Ok((ps, c)) => MacroView::Func(ps, define_value(ts, c + 1)),
            Err(_) => MacroView::Flag(false),
        }
    } else {
        let v = define_value(ts, n + 1);
        if v.len() == 0 { MacroView::Flag(true) } else { MacroView::Text(v) }
    }
}

proof fn lemma_defined_macro(m: Macro, ts: Seq<Seq<char>>, n: int)
    requires
        defined_value_is(m, ts, n),
    ensures
        macro_view(m) == defined_macro(ts, n),
{
}

/// Where the value of the `#define` whose name is token `n` starts.
pub open spec fn define_value_start(ts: Seq<Seq<char>>, n: int) -> int {
    if token_at(ts, n + 1) == Some("("@) {
        match macro_params(ts, n + 2, Seq::empty()) {
            Ok((ps, c)) => c + 1,
            Err(_) => n + 1,
        }
    } else {
        n + 1
    }
}

/// The dependencies found, as texts.
pub open spec fn deps_view(ds: Seq<(Vec<char>, bool)>) -> Seq<(Seq<char>, bool)> {
    ds.map_values(|d: (Vec<char>, bool)| (d.0@, d.1))
}

/// The position of the `>` that closes an angle-bracket url, looked for
/// from token `k` on (the number of tokens when there is none).
pub open spec fn angle_end(ts: Seq<Seq<char>>, k: int) -> int
    decreases ts.len() - k,
{
    if k < 0 || k >= ts.len() {
        ts.len() as int
    } else if ts[k] == ">"@ {
        k
    } else {
        angle_end(ts, k + 1)
    }
}

/// The last token of the `@import` whose keyword is token `p`: its quoted
/// url, or the `>` after an angle-bracket url.
pub open spec fn import_end(ts: Seq<Seq<char>>, p: int) -> int {
    let a = solid_from(ts, p + 1);
    if operand_text(token_at(ts, a)) == "<"@ { angle_end(ts, a + 1) } else { a }
}

/// What the `@import` whose keyword is token `p` names: its url and
/// whether it is quoted; `None` when it is neither `<url>` nor `"url"`.
pub open spec fn import_target(ts: Seq<Seq<char>>, p: int) -> Option<(Seq<char>, bool)> {
    let a = solid_from(ts, p + 1);
    let t = operand_text(token_at(ts, a));
    if t == "<"@ {
        match angle_url(ts, a + 1) {
            Some(u) => Some((u, false)),
            None => None,
        }
    } else if t.len() >= 2 && t[0] == '"' {
        Some((t.subrange(1, t.len() - 1), true))
    } else {
        None
    }
}

/// A position past `k` that skipping a line from `k` reaches.
proof fn lemma_line_end_from(ts: Seq<Seq<char>>, k: int)
    ensures
        line_end_from(ts, k) >= k || line_end_from(ts, k) == ts.len(),
        line_end_from(ts, k) <= ts.len(),
    decreases ts.len() - k,
{
    if k < ts.len() && !(k >= 0 && ts[k].contains('\n')) {
        lemma_line_end_from(ts, k + 1);
    }
}

/// Where the conditional block whose tokens are read from `k` on, nested
/// `depth` deep, ends: the position of the `#` of the `#endif` that closes
/// it, or, at the outer level, of an `#elif` or `#else`. Nested `#if`,
/// `#ifdef` and `#ifndef` open blocks; every directive's line is skipped.
/// `None` when the tokens end first.
pub open spec fn close_from(ts: Seq<Seq<char>>, k: int, depth: int) -> Option<int>
    decreases ts.len() - k,
{
    if k < 0 || k >= ts.len() {
        None
    } else if ts[k] != "#"@ {
        close_from(ts, k + 1, depth)
    } else {
        let d = operand_text(token_at(ts, k + 1));
        // The line is skipped: reading goes on after its end, which lies
        // beyond `k` (at the end of the tokens, nothing is left to read).
        let e = line_end_from(ts, k + 2) + 1;
        let next = if k < e <= ts.len() { e } else { ts.len() as int };
        if d == "if"@ || d == "ifdef"@ || d == "ifndef"@ {
            close_from(ts, next, depth + 1)
        } else if d == "endif"@ {
            if depth - 1 == 0 { Some(k) } else { close_from(ts, next, depth - 1) }
        } else if depth == 1 && (d == "elif"@ || d == "else"@) {
            Some(k)
        } else {
            close_from(ts, next, depth)
        }
    }
}

/// An attribute of `@accessors` as text: its name and its value, if any.
spec fn attr_view(a: (Vec<char>, AttrVal)) -> (Seq<char>, Option<Seq<char>>) {
    (a.0@, match a.1 {
        AttrVal::Str(v) => Some(v@),
        AttrVal::Flag => None,
    })
}

/// A list of attributes as text.
spec fn attrs_view(attrs: Seq<(Vec<char>, AttrVal)>) -> Seq<(Seq<char>, Option<Seq<char>>)> {
    attrs.map_values(|a: (Vec<char>, AttrVal)| attr_view(a))
}

/// The first attribute from `i` on named `name`.
pub open spec fn attr_index(attrs: Seq<(Seq<char>, Option<Seq<char>>)>, name: Seq<char>, i: int) -> Option<int>
    decreases attrs.len() - i,
{
    if i < 0 || i >= attrs.len() {
        None
    } else if attrs[i].0 == name {
        Some(i)
    } else {
        attr_index(attrs, name, i + 1)
    }
}

/// `attrs` with attribute `name` set to `value`: in its place where it is
/// already given, else at the end.
pub open spec fn attrs_put(attrs: Seq<(Seq<char>, Option<Seq<char>>)>, name: Seq<char>, value: Option<Seq<char>>)
    -> Seq<(Seq<char>, Option<Seq<char>>)> {
    match attr_index(attrs, name, 0) {
        Some(i) => attrs.update(i, (name, value)),
        None => attrs.push((name, value)),
    }
}

/// The message for an attribute list that ends while a part of it, of
/// the kind `phase` tells (see `attrs_from`), is awaited.
pub open spec fn attrs_error(phase: int, name: Seq<char>) -> Seq<char> {
    if phase == 0 {
        "*** @accessors attribute name not valid."@
    } else if phase == 2 {
        "*** @accessors attribute value not valid."@
    } else {
        "*** Expected ',' or ')' in @accessors."@
    }
}

/// Reads an attribute list of `@accessors` from token `k` on, skipping
/// whitespace and comments, after its `(`. `phase` tells what comes next:
/// 0 an attribute name or `)`; 1 `=`, `,` or `)` after the name `name`;
/// 2 the value of `name`, a word (followed right away by `:` for
/// `setter`); 3 `,` or `)` after the value `value`. The result is the
/// attributes read and the position of the closing `)`, or `None` where
/// the list is malformed.
pub open spec fn attrs_from(
    ts: Seq<Seq<char>>,
    k: int,
    phase: int,
    acc: Seq<(Seq<char>, Option<Seq<char>>)>,
    name: Seq<char>,
    value: Seq<char>,
) -> Result<(Seq<(Seq<char>, Option<Seq<char>>)>, int), Seq<char>>
    decreases ts.len() - k,
{
    if k >= ts.len() {
        Err(attrs_error(phase, name))
    } else if k < 0 || ws_token(ts[k]) {
        attrs_from(ts, k + 1, phase, acc, name, value)
    } else {
        let t = ts[k];
        if phase == 0 {
            if t == ")"@ {
                Ok((acc, k))
            } else if word_token(t) {
                attrs_from(ts, k + 1, 1, acc, t, Seq::empty())
            } else {
                Err("*** @accessors attribute name not valid."@)
            }
        } else if phase == 1 {
            if t == "="@ {
                attrs_from(ts, k + 1, 2, acc, name, Seq::empty())
            } else if t == ")"@ {
                Ok((attrs_put(acc, name, None), k))
            } else if t == ","@ {
                attrs_from(ts, k + 1, 0, attrs_put(acc, name, None), Seq::empty(), Seq::empty())
            } else {
                Err("*** Expected ',' or ')' in @accessors."@)
            }
        } else if phase == 2 {
            if !word_token(t) {
                Err("*** @accessors attribute value not valid."@)
            } else if name == "setter"@ {
                if token_at(ts, k + 1) == Some(":"@) {
                    attrs_from(ts, k + 2, 3, acc, name, t.push(':'))
                } else {
                    Err("*** @accessors setter attribute requires \":\" at end."@)
                }
            } else {
                attrs_from(ts, k + 1, 3, acc, name, t)
            }
        } else if t == ")"@ {
            Ok((attrs_put(acc, name, Some(value)), k))
        } else if t == ","@ {
            attrs_from(ts, k + 1, 0, attrs_put(acc, name, Some(value)), Seq::empty(), Seq::empty())
        } else {
            Err("*** Expected ',' or ')' in @accessors."@)
        }
    }
}

/// Whitespace and comments change nothing in an attribute list.
proof fn lemma_attrs_skip(
    ts: Seq<Seq<char>>,
    a: int,
    q: int,
    phase: int,
    acc: Seq<(Seq<char>, Option<Seq<char>>)>,
    name: Seq<char>,
    value: Seq<char>,
)
    requires
        0 <= a,
        a <= q <= ts.len() || q == ts.len(),
        forall|k: int| a <= k < q ==> ws_token(#[trigger] ts[k]),
    ensures
        attrs_from(ts, a, phase, acc, name, value) == attrs_from(ts, q, phase, acc, name, value),
    decreases q - a,
{
    if a < q {
        lemma_attrs_skip(ts, a + 1, q, phase, acc, name, value);
    }
}

/// Whether `e` reports an error in the file `url`: a message, then the
/// file, the class and the method where it happened.
pub open spec fn error_in_file(e: Seq<char>, url: Seq<char>) -> bool {
    exists|msg: Seq<char>, place: Seq<char>| e == msg + " <File: "@ + url + place + ">"@
}

/// Whether text `b` begins with text `a`.
pub open spec fn grows(a: Seq<char>, b: Seq<char>) -> bool {
    a.len() <= b.len() && forall|i: int| 0 <= i < a.len() ==> a[i] == #[trigger] b[i]
}

/// The superclass named by the `@implementation` whose keyword is token
/// `p`: the name after `:`, or `Nil`.
pub open spec fn class_super(ts: Seq<Seq<char>>, p: int) -> Seq<char> {
    let c = solid_from(ts, solid_from(ts, p + 1) + 1);
    if token_at(ts, c) == Some(":"@) { operand_text(token_at(ts, solid_from(ts, c + 1))) } else { "Nil"@ }
}

/// Whether the `@implementation` whose keyword is token `p` extends a
/// class (a category), rather than declaring one.
pub open spec fn is_category(ts: Seq<Seq<char>>, p: int) -> bool {
    token_at(ts, solid_from(ts, solid_from(ts, p + 1) + 1)) == Some("("@)
}

/// Whether `out` begins with `start`, then `x`, then the registration of
/// the class.
pub open spec fn registered_after(start: Seq<char>, x: Seq<char>, out: Seq<char>) -> bool {
    grows(start + x + "objj_registerClassPair(the_class);\n"@, out)
}

/// The `{` that opens the instance variables of the `@implementation`
/// whose keyword is token `p`: after the class name, and after `:` and
/// the superclass name where one is given.
pub open spec fn ivar_brace(ts: Seq<Seq<char>>, p: int) -> int {
    let c = solid_from(ts, solid_from(ts, p + 1) + 1);
    if token_at(ts, c) == Some(":"@) { solid_from(ts, solid_from(ts, c + 1) + 1) } else { c }
}

/// The last token of a declaration read so far, if any.
pub open spec fn last_of(d: Seq<Vec<char>>) -> Option<Seq<char>> {
    if d.len() > 0 { Some(d.last()@) } else { None }
}

/// The instance variables declared from token `k` on, after those in
/// `names`, `last` being the last token of the declaration under way: the
/// last token of each declaration before its `;`, each name once, in the
/// order first met; with the position of the `}` that closes the block.
/// `None` where a declaration lacks its `;`, where the block holds `@`, or
/// where it is not closed.
pub open spec fn ivar_block(ts: Seq<Seq<char>>, k: int, last: Option<Seq<char>>, names: Seq<Seq<char>>)
    -> Option<(Seq<Seq<char>>, int)>
    decreases ts.len() - k,
{
    let a = solid_from(ts, k);
    if k < 0 || a < k || a >= ts.len() {
        None
    } else if ts[a] == "}"@ {
        if last is None { Some((names, a)) } else { None }
    } else if ts[a] == "@"@ {
        None
    } else if ts[a] == ";"@ {
        let nm = match last {
            Some(x) => x,
            None => Seq::empty(),
        };
        ivar_block(ts, a + 1, None, if names.contains(nm) { names } else { names.push(nm) })
    } else {
        ivar_block(ts, a + 1, Some(ts[a]), names)
    }
}

/// Whether the `@implementation` whose keyword is token `p` declares
/// instance variables and nothing else: its block, then `@end`.
pub open spec fn ivars_only(ts: Seq<Seq<char>>, p: int) -> bool {
    &&& declares_ivars(ts, p)
    &&& ivar_block(ts, ivar_brace(ts, p) + 1, None, Seq::empty()) matches Some((names, e))
        && token_at(ts, solid_from(ts, e + 1)) == Some("@"@) && token_at(ts, solid_from(ts, e + 1) + 1) == Some("end"@)
}

/// The superclass recorded for the `@implementation` whose keyword is
/// token `p`: none for `Nil`.
pub open spec fn recorded_super(ts: Seq<Seq<char>>, p: int) -> Option<Seq<char>> {
    if class_super(ts, p) == "Nil"@ { None } else { Some(class_super(ts, p)) }
}

/// Whether the `@implementation` whose keyword is token `p` names an empty
/// or malformed category, or a superclass that is not an identifier.
pub open spec fn bad_class_header(ts: Seq<Seq<char>>, p: int) -> bool {
    let c = solid_from(ts, solid_from(ts, p + 1) + 1);
    let d = solid_from(ts, c + 1);
    ||| token_at(ts, c) == Some("("@) && token_at(ts, d) == Some(")"@)
    ||| token_at(ts, c) == Some("("@) && token_at(ts, solid_from(ts, d + 1)) != Some(")"@)
    ||| token_at(ts, c) == Some(":"@) && !identifier_token(operand_text(token_at(ts, d)))
}

/// Whether the `@implementation` whose keyword is token `p` names its
/// class, and any category or superclass, well.
pub open spec fn class_header_ok(ts: Seq<Seq<char>>, p: int) -> bool {
    let n = class_operand(ts, p);
    n.len() > 0 && word_char(n[0]) && !bad_class_header(ts, p)
}

/// The text of an error met while reading the class `n`, in the file
/// `url`.
pub open spec fn class_error(url: Seq<char>, n: Seq<char>, msg: Seq<char>) -> Seq<char> {
    msg + " <File: "@ + url + " Class: "@ + n + ">"@
}

/// The code that creates the class `name` with superclass `sup`.
pub open spec fn class_pair_code(sup: Seq<char>, name: Seq<char>) -> Seq<char> {
    "{var the_class = objj_allocateClassPair("@ + sup + ", \""@ + name + "\"),\nmeta_class = the_class.isa;"@
}

/// Whether the `@implementation` whose keyword is token `p` opens a block
/// of instance variables: after the class name, and after `:` and the
/// superclass name where one is given, comes `{`.
pub open spec fn declares_ivars(ts: Seq<Seq<char>>, p: int) -> bool {
    let c = solid_from(ts, solid_from(ts, p + 1) + 1);
    if token_at(ts, c) == Some(":"@) {
        token_at(ts, solid_from(ts, solid_from(ts, c + 1) + 1)) == Some("{"@)
    } else {
        token_at(ts, c) == Some("{"@)
    }
}

/// The class name after `@implementation` (whose keyword is token `p`).
pub open spec fn class_operand(ts: Seq<Seq<char>>, p: int) -> Seq<char> {
    operand_text(token_at(ts, solid_from(ts, p + 1)))
}

/// `@implementation Name @end`: a class that declares nothing.
pub open spec fn empty_class(ts: Seq<Seq<char>>, p: int) -> bool {
    let n = class_operand(ts, p);
    let b = solid_from(ts, solid_from(ts, p + 1) + 1);
    &&& n.len() > 0 && word_char(n[0])
    &&& token_at(ts, b) == Some("@"@)
    &&& token_at(ts, b + 1) == Some("end"@)
}

/// The code of a class named `n` that declares nothing.
pub open spec fn empty_class_code(n: Seq<char>) -> Seq<char> {
    "{var the_class = objj_allocateClassPair(Nil, \""@ + n + "\"),\nmeta_class = the_class.isa;"@
        + "objj_registerClassPair(the_class);\n"@ + "}"@
}

/// The name of the directive after a `#` at position `p`: the next token,
/// or nothing at the end.
pub open spec fn directive_name(ts: Seq<Seq<char>>, p: int) -> Seq<char> {
    match token_at(ts, p + 1) {
        Some(t) => t,
        None => Seq::empty(),
    }
}

/// No macro name occurs twice.
spec fn macro_names_unique(ds: Seq<(Vec<char>, Macro)>) -> bool {
    forall|i: int, j: int| 0 <= i < j < ds.len() ==> (#[trigger] ds[i]).0@ != (#[trigger] ds[j]).0@
}

/// The position of the first token of `ts` from `k` on that is neither
/// whitespace nor a comment; `ts.len()` when there is none.
pub open spec fn solid_from(ts: Seq<Seq<char>>, k: int) -> int
    decreases ts.len() - k,
{
    if k >= ts.len() {
        ts.len() as int
    } else if k >= 0 && !ws_token(ts[k]) {
        k
    } else {
        solid_from(ts, k + 1)
    }
}

/// The name that follows the directive of the `#` at `p`.
pub open spec fn directive_operand(ts: Seq<Seq<char>>, p: int) -> Option<Seq<char>> {
    token_at(ts, solid_from(ts, p + 2))
}

/// The text of an operand; nothing when there is none.
pub open spec fn operand_text(o: Option<Seq<char>>) -> Seq<char> {
    match o {
        Some(n) => n,
        None => Seq::empty(),
    }
}

/// Whether a token may follow the start of a selector: one of digits may
/// not begin a keyword part (`starting`), and a token must begin with a
/// word character or `:` (or be empty).
pub open spec fn selector_part_ok(t: Seq<char>, starting: bool) -> bool {
    &&& !(starting && t.len() > 0 && forall|k: int| 0 <= k < t.len() ==> digit_char(#[trigger] t[k]))
    &&& (t.len() == 0 || word_char(t[0]) || t[0] == ':')
}

/// The rest of a selector from token `k` of `ts` up to the closing `)`
/// (or the end), or `None` when a token is not allowed there. Whitespace
/// may only come right before the `)`.
pub open spec fn selector_rest(ts: Seq<Seq<char>>, k: int, starting: bool) -> Option<Seq<char>>
    decreases ts.len() - k,
{
    if k < 0 || k >= ts.len() || ts[k] == ")"@ {
        Some(Seq::empty())
    } else if !selector_part_ok(ts[k], starting) {
        if (forall|j: int| 0 <= j < ts[k].len() ==> space_char(#[trigger] ts[k][j]))
            && token_at(ts, solid_from(ts, k + 1)) == Some(")"@) {
            Some(Seq::empty())
        } else {
            None
        }
    } else {
        match selector_rest(ts, k + 1, ts[k] == ":"@) {
            Some(rest) => Some(ts[k] + rest),
            None => None,
        }
    }
}

/// The selector written after `@selector` (whose keyword is token `p`):
/// `(`, a first token other than `)`, and the rest; `None` when malformed.
pub open spec fn selector_name(ts: Seq<Seq<char>>, p: int) -> Option<Seq<char>> {
    let a = solid_from(ts, p + 1);
    let b = solid_from(ts, a + 1);
    let first = operand_text(token_at(ts, b));
    if token_at(ts, a) != Some("("@) || first == ")"@ {
        None
    } else {
        match selector_rest(ts, b + 1, true) {
            Some(rest) => Some(first + rest),
            None => None,
        }
    }
}

/// What the header of a method declares: its selector, its parameters,
/// its return type and the types of its parameters.
pub struct MethodHeader {
    pub selector: Seq<char>,
    pub params: Seq<Seq<char>>,
    pub return_type: Option<Seq<char>>,
    pub param_types: Seq<Option<Seq<char>>>,
}

/// A header that declares nothing yet.
pub open spec fn empty_header() -> MethodHeader {
    MethodHeader { selector: Seq::empty(), params: Seq::empty(), return_type: None, param_types: Seq::empty() }
}

/// A type as written, or none when nothing was written.
pub open spec fn type_of(ty: Seq<char>) -> Option<Seq<char>> {
    if ty.len() == 0 { None } else { Some(ty) }
}

/// `h` with one more parameter.
pub open spec fn with_param(h: MethodHeader, name: Seq<char>, ty: Seq<char>) -> MethodHeader {
    MethodHeader { params: h.params.push(name), param_types: h.param_types.push(type_of(ty)), ..h }
}

/// Reads a method header from token `k` of `ts` on, skipping whitespace
/// and comments. `phase` tells what comes next: 0 a part of the header; 1
/// the type or the name of a parameter, after `:`; 2 more of a parameter
/// type (`ty` so far); 3 the name of a parameter after its type; 4 more of
/// the return type (`ty` so far); 5 the `...` after `,`. The result is the
/// header and the position of the `{` or `;` that ends it (the number of
/// tokens when they end first), or `None` when `,` is not followed by `...`.
pub open spec fn header_from(ts: Seq<Seq<char>>, k: int, phase: int, h: MethodHeader, ty: Seq<char>) -> Option<(MethodHeader, int)>
    decreases ts.len() - k,
{
    if k >= ts.len() {
        if phase == 5 {
            None
        } else if phase == 1 || phase == 2 || phase == 3 {
            Some((with_param(h, Seq::empty(), ty), ts.len() as int))
        } else if phase == 4 {
            Some((MethodHeader { return_type: type_of(ty), ..h }, ts.len() as int))
        } else {
            Some((h, ts.len() as int))
        }
    } else if k < 0 || ws_token(ts[k]) {
        header_from(ts, k + 1, phase, h, ty)
    } else {
        let t = ts[k];
        if phase == 1 {
            if t == "("@ {
                header_from(ts, k + 1, 2, h, Seq::empty())
            } else {
                header_from(ts, k + 1, 0, with_param(h, t, Seq::empty()), Seq::empty())
            }
        } else if phase == 2 {
            if t == ")"@ {
                header_from(ts, k + 1, 3, h, ty)
            } else {
                header_from(ts, k + 1, 2, h, ty + t)
            }
        } else if phase == 3 {
            header_from(ts, k + 1, 0, with_param(h, t, ty), Seq::empty())
        } else if phase == 4 {
            if t == ")"@ {
                header_from(ts, k + 1, 0, MethodHeader { return_type: type_of(ty), ..h }, Seq::empty())
            } else {
                header_from(ts, k + 1, 4, h, ty + t)
            }
        } else if phase == 5 {
            if t == "."@ && token_at(ts, k + 1) == Some("."@) && token_at(ts, k + 2) == Some("."@) {
                header_from(ts, k + 3, 0, h, Seq::empty())
            } else {
                None
            }
        } else if t == "{"@ || t == ";"@ {
            Some((h, k))
        } else if t == ":"@ {
            header_from(ts, k + 1, 1, MethodHeader { selector: h.selector + ":"@, ..h }, Seq::empty())
        } else if t == "("@ {
            header_from(ts, k + 1, 4, h, Seq::empty())
        } else if t == ","@ {
            header_from(ts, k + 1, 5, h, Seq::empty())
        } else {
            header_from(ts, k + 1, 0, MethodHeader { selector: h.selector + t, ..h }, Seq::empty())
        }
    }
}

/// Whitespace and comments change nothing in a method header.
proof fn lemma_header_skip(ts: Seq<Seq<char>>, a: int, q: int, phase: int, h: MethodHeader, ty: Seq<char>)
    requires
        0 <= a,
        a <= q <= ts.len() || q == ts.len(),
        forall|k: int| a <= k < q ==> ws_token(#[trigger] ts[k]),
    ensures
        header_from(ts, a, phase, h, ty) == header_from(ts, q, phase, h, ty),
    decreases q - a,
{
    if a < q {
        lemma_header_skip(ts, a + 1, q, phase, h, ty);
    }
}

/// The header read so far, from the selector, parameters and types
/// (return type first) collected.
pub open spec fn header_view(selector: Seq<char>, params: Seq<Vec<char>>, types: Seq<Option<Vec<char>>>) -> MethodHeader {
    MethodHeader {
        selector,
        params: texts_view(params),
        return_type: opt_text(types[0]),
        param_types: opt_texts(types.subrange(1, types.len() as int)),
    }
}

/// Each text preceded by `, `: the parameters of a method after
/// `self, _cmd`, the arguments of a message after its receiver.
pub open spec fn comma_led(ps: Seq<Seq<char>>) -> Seq<char>
    decreases ps.len(),
{
    if ps.len() == 0 {
        Seq::empty()
    } else {
        comma_led(ps.drop_last()) + ", "@ + ps.last()
    }
}

/// The selector of a message: its labels joined.
pub open spec fn labels_text(labels: Seq<Option<Seq<char>>>) -> Seq<char>
    decreases labels.len(),
{
    if labels.len() == 0 {
        Seq::empty()
    } else {
        labels_text(labels.drop_last()) + operand_text(labels.last())
    }
}

/// The code of a bracket expression from the code and label of each of its
/// parts: an array for one part without a label, else a message send,
/// to the superclass (`sup`: its expression) when the receiver is `super`.
pub open spec fn bracket_code(parts: Seq<Seq<char>>, labels: Seq<Option<Seq<char>>>, sup: Option<Seq<char>>) -> Seq<char> {
    if parts.len() == 1 && labels[0] is None {
        "["@ + parts[0] + "]"@
    } else {
        (match sup {
            Some(sc) => "objj_msgSendSuper("@ + "{ receiver:self, super_class:"@ + sc + " }"@,
            None => "objj_msgSend("@ + parts[0],
        }) + ", \""@ + labels_text(labels) + "\""@ + comma_led(parts.drop_first()) + ")"@
    }
}

/// Whether a receiver's code begins with the word `super`.
pub open spec fn super_receiver(atoms: Seq<Atom>) -> bool {
    atoms.len() > 0 && (atoms[0] matches Atom::S(t) && t@ == "super"@)
}

/// The code of a method up to its body.
pub open spec fn method_prefix(h: MethodHeader, class_name: Seq<char>, debug: bool) -> Seq<char> {
    "new objj_method(sel_getUid(\""@ + h.selector + "\"), function"@
        + (if debug {
            " $"@ + class_name + "__"@ + h.selector.map_values(|c: char| if c == ':' { '_' } else { c })
        } else {
            Seq::empty()
        })
        + "(self, _cmd"@ + comma_led(h.params) + ")\n{"@
}

/// The code of a method after its body.
pub open spec fn method_suffix(h: MethodHeader, debug: bool) -> Seq<char> {
    "\n}"@
        + (if debug { ","@ + seq!['['] + json_slots(seq![h.return_type] + h.param_types) + seq![']'] } else { Seq::empty() })
        + ")"@
}

proof fn lemma_solid_from(ts: Seq<Seq<char>>, a: int, q: int)
    requires
        0 <= a,
        a <= q <= ts.len() || q == ts.len(),
        forall|k: int| a <= k < q ==> ws_token(#[trigger] ts[k]),
        q == ts.len() || !ws_token(ts[q]),
    ensures
        solid_from(ts, a) == q,
    decreases q - a,
{
    if a < q {
        lemma_solid_from(ts, a + 1, q);
    }
}

/// The preprocessor directives the compiler knows.
pub open spec fn known_directive(d: Seq<char>) -> bool {
    ||| d == "pragma"@
    ||| d == "define"@
    ||| d == "undef"@
    ||| d == "if"@
    ||| d == "ifdef"@
    ||| d == "ifndef"@
    ||| d == "elif"@
    ||| d == "else"@
    ||| d == "endif"@
}

/// The directive names differ from `endif`.
proof fn lemma_directive_names()
    ensures
        "pragma"@ != "endif"@,
        "define"@ != "endif"@,
        "undef"@ != "endif"@,
        "if"@ != "endif"@,
        "ifdef"@ != "endif"@,
        "ifndef"@ != "endif"@,
        "elif"@ != "endif"@,
        "else"@ != "endif"@,
        "pragma"@ != "elif"@ && "pragma"@ != "else"@,
        "define"@ != "elif"@ && "define"@ != "else"@,
        "undef"@ != "elif"@ && "undef"@ != "else"@,
        "if"@ != "elif"@ && "if"@ != "else"@,
        "ifdef"@ != "elif"@ && "ifdef"@ != "else"@,
        "ifndef"@ != "elif"@ && "ifndef"@ != "else"@,
        "elif"@ != "else"@,
        "pragma"@ != "define"@ && "pragma"@ != "undef"@,
        "define"@ != "undef"@,
        "if"@ != "define"@ && "if"@ != "undef"@,
        "ifdef"@ != "define"@ && "ifdef"@ != "undef"@,
        "ifndef"@ != "define"@ && "ifndef"@ != "undef"@,
        "elif"@ != "define"@ && "elif"@ != "undef"@,
        "else"@ != "define"@ && "else"@ != "undef"@,
        "endif"@ != "define"@ && "endif"@ != "undef"@,
        "ifdef"@ != "ifndef"@ && "if"@ != "ifdef"@ && "if"@ != "ifndef"@,
        "pragma"@ != "if"@ && "pragma"@ != "ifdef"@ && "pragma"@ != "ifndef"@,
        "undef"@ != "if"@ && "undef"@ != "ifdef"@ && "undef"@ != "ifndef"@,
        "elif"@ != "if"@ && "elif"@ != "ifdef"@ && "elif"@ != "ifndef"@,
        "else"@ != "if"@ && "else"@ != "ifdef"@ && "else"@ != "ifndef"@,
{
    reveal_strlit("pragma");
    reveal_strlit("define");
    reveal_strlit("undef");
    reveal_strlit("if");
    reveal_strlit("ifdef");
    reveal_strlit("ifndef");
    reveal_strlit("elif");
    reveal_strlit("else");
    reveal_strlit("endif");
    assert("ifdef"@.len() != "ifndef"@.len());
    assert("pragma"@[0] != "endif"@[0]);
    assert("define"@[0] != "endif"@[0]);
    assert("undef"@[0] != "endif"@[0]);
    assert("if"@.len() != "endif"@.len());
    assert("ifdef"@[0] != "endif"@[0]);
    assert("ifndef"@[0] != "endif"@[0]);
    assert("elif"@.len() != "endif"@.len());
    assert("else"@.len() != "endif"@.len());
    assert("pragma"@[0] != "elif"@[0] && "pragma"@[0] != "else"@[0]);
    assert("define"@[0] != "elif"@[0] && "define"@[0] != "else"@[0]);
    assert("undef"@[0] != "elif"@[0] && "undef"@[0] != "else"@[0]);
    assert("if"@.len() != "elif"@.len() && "if"@.len() != "else"@.len());
    assert("ifdef"@[0] != "elif"@[0] && "ifdef"@[0] != "else"@[0]);
    assert("ifndef"@[0] != "elif"@[0] && "ifndef"@[0] != "else"@[0]);
    assert("elif"@[2] != "else"@[2]);
}

/// The position of the first class named `name` at or after `i`.
spec fn class_from(classes: Seq<ClassRec>, name: Seq<char>, i: int) -> Option<int>
    decreases classes.len() - i,
{
    if i < 0 || i >= classes.len() {
        None
    } else if classes[i].name@ == name {
        Some(i)
    } else {
        class_from(classes, name, i + 1)
    }
}

/// The keys of the first `k + 1` entries are those of the first `k` and
/// the key of entry `k`.
proof fn lemma_has_key_take<V>(es: Seq<(String, V)>, k: int)
    requires
        0 <= k < es.len(),
    ensures
        forall|nm: Seq<char>| has_key(es.take(k + 1), nm) <==> (has_key(es.take(k), nm) || es[k].0@ == nm),
{
    assert forall|nm: Seq<char>| has_key(es.take(k + 1), nm) <==> (has_key(es.take(k), nm) || es[k].0@ == nm) by {
        if has_key(es.take(k + 1), nm) {
            let j = choose|j: int| 0 <= j < es.take(k + 1).len() && (#[trigger] es.take(k + 1)[j]).0@ == nm;
            if j < k {
                assert(es.take(k)[j] == es.take(k + 1)[j]);
            }
        }
        if has_key(es.take(k), nm) {
            let j = choose|j: int| 0 <= j < es.take(k).len() && (#[trigger] es.take(k)[j]).0@ == nm;
            assert(es.take(k + 1)[j] == es.take(k)[j]);
        }
        if es[k].0@ == nm {
            assert(es.take(k + 1)[k] == es[k]);
        }
    }
}

/// A name defined somewhere has a first definition.
proof fn lemma_first_define(ds: Seq<(Vec<char>, Macro)>, n: Seq<char>, j: int)
    requires
        0 <= j < ds.len(),
        ds[j].0@ == n,
    ensures
        exists|i: int| 0 <= i <= j && ds[i].0@ == n && forall|k: int| 0 <= k < i ==> (#[trigger] ds[k]).0@ != n,
    decreases j,
{
    if exists|k: int| 0 <= k < j && (#[trigger] ds[k]).0@ == n {
        let k = choose|k: int| 0 <= k < j && (#[trigger] ds[k]).0@ == n;
        lemma_first_define(ds, n, k);
    } else {
        assert(forall|k: int| 0 <= k < j ==> (#[trigger] ds[k]).0@ != n);
    }
}

/// A class found from `k` on lies at or after `k`, within the table.
proof fn lemma_class_from_range(classes: Seq<ClassRec>, name: Seq<char>, k: int)
    requires
        k >= 0,
    ensures
        class_from(classes, name, k) matches Some(i) ==> k <= i < classes.len() && classes[i].name@ == name,
        (forall|j: int| k <= j < classes.len() ==> (#[trigger] classes[j]).name@ != name) ==> class_from(classes, name, k) is None,
    decreases classes.len() - k,
{
    if k < classes.len() && classes[k].name@ != name {
        lemma_class_from_range(classes, name, k + 1);
    }
}

/// Classes that agree before `i`, where `i` holds the first class named
/// `name` in the second list, find that class at `i`.
proof fn lemma_class_from_frame(a: Seq<ClassRec>, b: Seq<ClassRec>, name: Seq<char>, k: int, i: int)
    requires
        0 <= k <= i < b.len(),
        b[i].name@ == name,
        i <= a.len(),
        forall|j: int| #![trigger b[j]] k <= j < i ==> b[j] == a[j] && a[j].name@ != name,
    ensures
        class_from(b, name, k) == Some(i),
    decreases i - k,
{
    if k < i {
        assert(b[k] == a[k] && a[k].name@ != name);
        lemma_class_from_frame(a, b, name, k + 1, i);
    }
}

/// The position held by an optional index.
spec fn opt_int(o: Option<usize>) -> Option<int> {
    match o {
        Some(i) => Some(i as int),
        None => None,
    }
}

/// The instance variable names of the class at `cur` and of its
/// superclasses, following at most `fuel` links.
spec fn chain_ivars(classes: Seq<ClassRec>, cur: Option<int>, fuel: nat) -> Set<Seq<char>>
    decreases fuel,
{
    match cur {
        Some(i) => if fuel == 0 || i < 0 || i >= classes.len() {
            Set::empty()
        } else {
            texts_view(classes[i].ivars@).to_set() + chain_ivars(classes, match classes[i].super_name {
                Some(s) => class_from(classes, s@, 0),
                None => None,
            }, (fuel - 1) as nat)
        },
        None => Set::empty(),
    }
}

/// A token after which a name is declared or a property read, not an
/// instance variable: `.`, `var`, `let`, `const`, `function`, `catch`,
/// `class` or `new`.
pub open spec fn declaring_word(t: Seq<char>) -> bool {
    t == "."@ || t == "var"@ || t == "let"@ || t == "const"@ || t == "function"@ || t == "catch"@
        || t == "class"@ || t == "new"@
}

/// `defined(NAME)`, spaces allowed around the parts.
pub open spec fn defined_paren_pattern() -> Seq<char> {
    r"defined\s*\(\s*(\w+)\s*\)"@
}

/// `defined NAME`.
pub open spec fn defined_word_pattern() -> Seq<char> {
    r"defined\s+(\w+)"@
}

/// A name in a condition: a letter or `_`, then word characters.
pub open spec fn name_pattern() -> Seq<char> {
    r"\b([A-Za-z_]\w*)\b"@
}

/// What a condition may hold once its names are replaced.
pub open spec fn condition_chars_pattern() -> Seq<char> {
    r"^[\d\s()+\-*/%<>=!&|^~.]+$"@
}

// ---------------------------------------------------------------------------
// The preprocessor
// ---------------------------------------------------------------------------

type R<T> = Result<T, String>;

struct Preprocessor {
    cls: CharClasses,
    url: Vec<char>,
    current_selector: Vec<char>,
    current_class: Vec<char>,
    current_super_class: Vec<char>,
    current_super_meta_class: Vec<char>,
    /// Output for the top-level buffer produced while it is not the buffer
    /// being written (an `@import` inside a nested construct).
    pending_root: Vec<Vec<char>>,
    dependencies: Vec<(Vec<char>, bool)>,
    debug_symbols: bool,
    type_signatures: bool,
    class_method: bool,
    classes: Vec<ClassRec>,
    class_vars: Vec<Vec<char>>,
    defines: Vec<(Vec<char>, Macro)>,
    condition_stack: Vec<Condition>,
    current_ivar_names: Option<Vec<Vec<char>>>,
}

impl Preprocessor {
    spec fn wf(&self) -> bool {
        &&& self.cls.wf()
        &&& macro_names_unique(self.defines@)
    }

    /// The text of an error: the message, then where it happened.
    spec fn error_text(&self, msg: Seq<char>) -> Seq<char> {
        msg + " <File: "@ + self.url@
            + (if self.current_class@.len() > 0 { " Class: "@ + self.current_class@ } else { Seq::empty() })
            + (if self.current_selector@.len() > 0 { " Method: "@ + self.current_selector@ } else { Seq::empty() })
            + ">"@
    }

    /// Every error text names the file.
    proof fn lemma_error_in_file(&self, msg: Seq<char>)
        ensures
            error_in_file(self.error_text(msg), self.url@),
    {
        let place = (if self.current_class@.len() > 0 { " Class: "@ + self.current_class@ } else { Seq::empty() })
            + (if self.current_selector@.len() > 0 { " Method: "@ + self.current_selector@ } else { Seq::empty() });
        assert(self.error_text(msg) =~= msg + " <File: "@ + self.url@ + place + ">"@);
    }

    fn error_message(&self, msg: &Vec<char>) -> (s: String)
        ensures
            s@ == self.error_text(msg@),
    {
        let mut out = copy_text(msg);
        push_str(&mut out, " <File: ");
        push_text(&mut out, &self.url);
        if self.current_class.len() > 0 {
            push_str(&mut out, " Class: ");
            push_text(&mut out, &self.current_class);
        }
        if self.current_selector.len() > 0 {
            push_str(&mut out, " Method: ");
            push_text(&mut out, &self.current_selector);
        }
        push_str(&mut out, ">");
        string_of(&out)
    }

    fn fail<T>(&self, msg: &str) -> (r: R<T>)
        ensures
            r matches Err(e) && e@ == self.error_text(msg@),
            r matches Err(e) ==> error_in_file(e@, self.url@),
    {
        proof {
            self.lemma_error_in_file(msg@);
        }
        Err(self.error_message(&lit(msg)))
    }

    /// An error whose message is `msg` followed by `t` and `tail`.
    fn fail_with<T>(&self, msg: &str, t: &Vec<char>, tail: &str) -> (r: R<T>)
        ensures
            r matches Err(e) && e@ == self.error_text(msg@ + t@ + tail@),
            r matches Err(e) ==> error_in_file(e@, self.url@),
    {
        proof {
            self.lemma_error_in_file(msg@ + t@ + tail@);
        }
        let mut m = lit(msg);
        push_text(&mut m, t);
        push_str(&mut m, tail);
        Err(self.error_message(&m))
    }

    /// No macro is defined, no instance variable is in scope and nothing
    /// waits for the top-level output.
    spec fn plain_state(&self) -> bool {
        &&& self.defines@.len() == 0
        &&& self.current_ivar_names is None
        &&& self.pending_root@.len() == 0
    }

    /// The parts of the state that writing output leaves alone.
    spec fn same_but_output(&self, other: &Preprocessor) -> bool {
        &&& self.url == other.url
        &&& self.classes == other.classes
        &&& self.current_class == other.current_class
        &&& self.current_selector == other.current_selector
        &&& self.cls == other.cls
        &&& self.defines == other.defines
        &&& self.current_ivar_names == other.current_ivar_names
        &&& self.dependencies == other.dependencies
    }

    /// Every class known before is still known, at the same place.
    spec fn classes_extend(&self, other: &Preprocessor) -> bool {
        &&& other.classes@.len() <= self.classes@.len()
        &&& forall|j: int| 0 <= j < other.classes@.len() ==> (#[trigger] self.classes@[j]).name@ == other.classes@[j].name@
    }

    /// Whether a class of that name is known.
    spec fn knows_class(&self, name: Seq<char>) -> bool {
        exists|j: int| 0 <= j < self.classes@.len() && (#[trigger] self.classes@[j]).name@ == name
    }

    /// Whether class `name` is found with superclass `sup` and instance
    /// variables `ivars`.
    spec fn class_recorded(&self, name: Seq<char>, sup: Option<Seq<char>>, ivars: Seq<Seq<char>>) -> bool {
        class_from(self.classes@, name, 0) matches Some(i) && 0 <= i < self.classes@.len()
            && opt_text(self.classes@[i].super_name) == sup && texts_view(self.classes@[i].ivars@) == ivars
    }

    /// After a class is set, the classes known are those known before and
    /// the class set.
    proof fn lemma_knows_after_set(before: Preprocessor, after: Preprocessor, name: Seq<char>)
        requires
            after.classes_extend(&before),
            ({
                let i = match class_from(before.classes@, name, 0) {
                    Some(i) => i,
                    None => before.classes@.len() as int,
                };
                &&& after.classes@.len() == (if i < before.classes@.len() { before.classes@.len() } else { before.classes@.len() + 1 })
                &&& after.classes@[i].name@ == name
                &&& forall|j: int| 0 <= j < before.classes@.len() && j != i ==> #[trigger] after.classes@[j] == before.classes@[j]
            }),
        ensures
            forall|nm: Seq<char>| after.knows_class(nm) <==> (before.knows_class(nm) || nm == name),
    {
        let i = match class_from(before.classes@, name, 0) {
            Some(i) => i,
            None => before.classes@.len() as int,
        };
        lemma_class_from_range(before.classes@, name, 0);
        assert forall|nm: Seq<char>| after.knows_class(nm) <==> (before.knows_class(nm) || nm == name) by {
            if after.knows_class(nm) {
                let j = choose|j: int| 0 <= j < after.classes@.len() && (#[trigger] after.classes@[j]).name@ == nm;
                if j != i {
                    assert(after.classes@[j] == before.classes@[j]);
                }
            }
            if before.knows_class(nm) {
                let j = choose|j: int| 0 <= j < before.classes@.len() && (#[trigger] before.classes@[j]).name@ == nm;
                assert(after.classes@[j].name@ == before.classes@[j].name@);
            }
            if nm == name {
                assert(after.classes@[i].name@ == name);
            }
        }
    }

    /// Writes text to `buffer`; the top-level buffer first receives what
    /// nested constructs left for it.
    fn emit(&mut self, buffer: &mut StringBuffer, is_root: bool, t: &Vec<char>)
        requires
            old(self).wf(),
        ensures
            grows(old(buffer).rendered(), final(buffer).rendered()),
            final(self).wf(),
            final(self).same_but_output(old(self)),
            final(self).condition_stack == old(self).condition_stack,
            final(self).super_expr() == old(self).super_expr(),
            is_root ==> final(self).pending_root@.len() == 0
                && final(buffer).rendered() == old(buffer).rendered() + concat(texts_view(old(self).pending_root@)) + t@,
            !is_root ==> final(self).pending_root@ == old(self).pending_root@
                && final(buffer).rendered() == old(buffer).rendered() + t@,
    {
        if is_root {
            self.flush(buffer);
        }
        buffer.push_chars(t);
    }

    fn emit_lit(&mut self, buffer: &mut StringBuffer, is_root: bool, t: &str)
        requires
            old(self).wf(),
        ensures
            grows(old(buffer).rendered(), final(buffer).rendered()),
            final(self).wf(),
            final(self).same_but_output(old(self)),
            final(self).super_expr() == old(self).super_expr(),
            is_root ==> final(self).pending_root@.len() == 0
                && final(buffer).rendered() == old(buffer).rendered() + concat(texts_view(old(self).pending_root@)) + t@,
            !is_root ==> final(self).pending_root@ == old(self).pending_root@
                && final(buffer).rendered() == old(buffer).rendered() + t@,
    {
        let v = lit(t);
        self.emit(buffer, is_root, &v);
    }

    fn emit_buf(&mut self, buffer: &mut StringBuffer, is_root: bool, b: &StringBuffer)
        requires
            old(self).wf(),
        ensures
            grows(old(buffer).rendered(), final(buffer).rendered()),
            final(self).wf(),
            final(self).same_but_output(old(self)),
            final(self).super_expr() == old(self).super_expr(),
            is_root ==> final(self).pending_root@.len() == 0
                && final(buffer).rendered() == old(buffer).rendered() + concat(texts_view(old(self).pending_root@)) + b.rendered(),
            !is_root ==> final(self).pending_root@ == old(self).pending_root@
                && final(buffer).rendered() == old(buffer).rendered() + b.rendered(),
    {
        if is_root {
            self.flush(buffer);
        }
        buffer.push_b(b);
    }

    /// Moves the output left for the top-level buffer into it.
    fn flush(&mut self, buffer: &mut StringBuffer)
        requires
            old(self).wf(),
        ensures
            final(self).wf(),
            final(self).same_but_output(old(self)),
            final(self).condition_stack == old(self).condition_stack,
            final(self).super_expr() == old(self).super_expr(),
            final(self).pending_root@.len() == 0,
            final(buffer).rendered() == old(buffer).rendered() + concat(texts_view(old(self).pending_root@)),
    {
        let mut i: usize = 0;
        while i < self.pending_root.len()
            invariant
                self.wf(),
                self.same_but_output(old(self)),
                self.pending_root@ == old(self).pending_root@,
                i <= self.pending_root.len(),
                buffer.rendered() == old(buffer).rendered() + concat(texts_view(self.pending_root@.take(i as int))),
            decreases self.pending_root.len() - i,
        {
            buffer.push_chars(&self.pending_root[i]);
            proof {
                let ts = texts_view(self.pending_root@.take(i as int));
                assert(texts_view(self.pending_root@.take(i + 1)) =~= ts.push(self.pending_root@[i as int]@));
                crate::lexer::lemma_concat_push(ts, self.pending_root@[i as int]@);
            }
            i = i + 1;
        }
        proof {
            assert(self.pending_root@.take(self.pending_root.len() as int) =~= self.pending_root@);
        }
        self.pending_root = Vec::new();
    }

    fn find_class(&self, name: &Vec<char>) -> (r: Option<usize>)
        ensures
            r matches Some(i) ==> i < self.classes.len() && self.classes@[i as int].name@ == name@
                && forall|j: int| 0 <= j < i ==> (#[trigger] self.classes@[j]).name@ != name@,
            r is None ==> forall|j: int| 0 <= j < self.classes@.len() ==> (#[trigger] self.classes@[j]).name@ != name@,
            opt_int(r) == class_from(self.classes@, name@, 0),
    {
        let mut i: usize = 0;
        while i < self.classes.len()
            invariant
                i <= self.classes.len(),
                forall|j: int| 0 <= j < i ==> (#[trigger] self.classes@[j]).name@ != name@,
                class_from(self.classes@, name@, 0) == class_from(self.classes@, name@, i as int),
            decreases self.classes.len() - i,
        {
            if text_eq(&self.classes[i].name, name) {
                return Some(i);
            }
            i = i + 1;
        }
        None
    }

    fn set_class_info(&mut self, class_name: &Vec<char>, super_class_name: Option<Vec<char>>, ivars: Vec<Vec<char>>)
        requires
            old(self).wf(),
        ensures
            final(self).wf(),
            final(self).classes_extend(old(self)),
            final(self).pending_root@ == old(self).pending_root@,
            *final(self) == (Preprocessor { classes: final(self).classes, ..*old(self) }),
            ({
                let i = match class_from(old(self).classes@, class_name@, 0) {
                    Some(i) => i,
                    None => old(self).classes@.len() as int,
                };
                &&& final(self).classes@.len() == (if i < old(self).classes@.len() { old(self).classes@.len() } else { old(self).classes@.len() + 1 })
                &&& class_from(final(self).classes@, class_name@, 0) == Some(i)
                &&& final(self).classes@[i].name@ == class_name@
                &&& final(self).classes@[i].super_name == super_class_name
                &&& final(self).classes@[i].ivars == ivars
                &&& forall|j: int| 0 <= j < old(self).classes@.len() && j != i ==> #[trigger] final(self).classes@[j] == old(self).classes@[j]
            }),
    {
        let ghost old_classes = self.classes@;
        let rec = ClassRec { name: copy_text(class_name), super_name: super_class_name, ivars };
        match self.find_class(class_name) {
            Some(i) => {
                self.classes.set(i, rec);
                proof {
                    lemma_class_from_frame(old_classes, self.classes@, class_name@, 0, i as int);
                }
            },
            None => {
                self.classes.push(rec);
                proof {
                    lemma_class_from_frame(old_classes, self.classes@, class_name@, 0, old_classes.len() as int);
                }
            },
        }
    }

    /// The instance variable names of a class and its superclasses. The walk
    /// up the superclass chain visits at most as many classes as are known,
    /// so a cyclic chain ends.
    fn all_ivar_names_for_class(&self, class_name: &Vec<char>) -> (names: Vec<Vec<char>>)
        ensures
            texts_view(names@).to_set() == chain_ivars(self.classes@, class_from(self.classes@, class_name@, 0),
                self.classes@.len()),
    {
        let mut names: Vec<Vec<char>> = Vec::new();
        let mut current = self.find_class(class_name);
        let ghost start = class_from(self.classes@, class_name@, 0);
        let ghost total = self.classes@.len();
        let mut steps: usize = 0;
        proof {
            assert(texts_view(names@).to_set() =~= Set::<Seq<char>>::empty());
        }
        while steps < self.classes.len()
            invariant
                current matches Some(i) ==> i < self.classes.len(),
                steps <= self.classes.len(),
                total == self.classes@.len(),
                start == class_from(self.classes@, class_name@, 0),
                texts_view(names@).to_set() + chain_ivars(self.classes@, opt_int(current), (total - steps) as nat)
                    == chain_ivars(self.classes@, start, total),
            decreases self.classes.len() - steps,
        {
            match current {
                Some(i) => {
                    let info = &self.classes[i];
                    let ghost names0 = texts_view(names@).to_set();
                    let mut k: usize = 0;
                    while k < info.ivars.len()
                        invariant
                            k <= info.ivars.len(),
                            texts_view(names@).to_set() == names0 + texts_view(info.ivars@.take(k as int)).to_set(),
                        decreases info.ivars.len() - k,
                    {
                        add_name(&mut names, &info.ivars[k]);
                        proof {
                            assert(texts_view(info.ivars@.take(k + 1)) =~= texts_view(info.ivars@.take(k as int)).push(info.ivars@[k as int]@));
                            texts_view(info.ivars@.take(k as int)).lemma_push_to_set_commute(info.ivars@[k as int]@);
                            assert(names0 + texts_view(info.ivars@.take(k + 1)).to_set()
                                =~= (names0 + texts_view(info.ivars@.take(k as int)).to_set()).insert(info.ivars@[k as int]@));
                        }
                        k = k + 1;
                    }
                    proof {
                        assert(info.ivars@.take(k as int) == info.ivars@);
                    }
                    current = match &info.super_name {
                        Some(s) => self.find_class(s),
                        None => None,
                    };
                    proof {
                        let rest = chain_ivars(self.classes@, opt_int(current), (total - steps - 1) as nat);
                        assert(chain_ivars(self.classes@, Some(i as int), (total - steps) as nat)
                            == texts_view(self.classes@[i as int].ivars@).to_set() + rest);
                        assert(names0 + texts_view(self.classes@[i as int].ivars@).to_set() + rest
                            =~= names0 + (texts_view(self.classes@[i as int].ivars@).to_set() + rest));
                    }
                },
                None => {
                    proof {
                        assert(chain_ivars(self.classes@, opt_int(current), (total - steps) as nat) == Set::<Seq<char>>::empty());
                        assert(texts_view(names@).to_set() + Set::<Seq<char>>::empty() =~= texts_view(names@).to_set());
                    }
                    return names;
                },
            }
            steps = steps + 1;
        }
        proof {
            assert(texts_view(names@).to_set() + Set::<Seq<char>>::empty() =~= texts_view(names@).to_set());
        }
        names
    }

    /// The first definition of `name` is at `i`.
    spec fn define_at(&self, name: Seq<char>, i: int) -> bool {
        first_at(self.defines@, name, i)
    }

    spec fn has_define(&self, name: Seq<char>) -> bool {
        exists|j: int| 0 <= j < self.defines@.len() && (#[trigger] self.defines@[j]).0@ == name
    }

    fn find_define(&self, name: &Vec<char>) -> (r: Option<usize>)
        ensures
            r matches Some(i) ==> self.define_at(name@, i as int),
            r is None ==> !self.has_define(name@),
            self.defines.len() == 0 ==> r is None,
    {
        let mut i: usize = 0;
        while i < self.defines.len()
            invariant
                i <= self.defines.len(),
                forall|j: int| 0 <= j < i ==> (#[trigger] self.defines@[j]).0@ != name@,
            decreases self.defines.len() - i,
        {
            if text_eq(&self.defines[i].0, name) {
                return Some(i);
            }
            i = i + 1;
        }
        None
    }

    fn is_defined(&self, name: &Vec<char>) -> (b: bool)
        ensures
            b == self.has_define(name@),
    {
        self.find_define(name).is_some()
    }

    /// Whether every enclosing conditional block is active.
    /// Whether every enclosing conditional but the innermost is active.
    spec fn enclosing_active(&self) -> bool {
        forall|k: int| 0 <= k < self.condition_stack@.len() - 1 ==> (#[trigger] self.condition_stack@[k]).active
    }

    /// Whether an `#else` here makes its branch active: the innermost
    /// conditional has had no true branch and no `#else`, and every
    /// enclosing one is active.
    spec fn else_opens(&self) -> bool {
        &&& self.condition_stack@.len() > 0
        &&& !self.condition_stack@.last().in_else
        &&& !self.condition_stack@.last().has_been_true
        &&& self.enclosing_active()
    }

    /// What the `#define` whose keyword is token `q` does: with output
    /// active, its name gets the macro it defines and every other macro
    /// keeps its definition; else nothing changes.
    spec fn define_effect(&self, before: Preprocessor, ts: Seq<Seq<char>>, q: int) -> bool {
        let n = solid_from(ts, q + 1);
        let name = operand_text(token_at(ts, n));
        &&& *self == (Preprocessor { defines: self.defines, ..before })
        &&& !before.output_active() ==> self.defines == before.defines
        &&& before.output_active() ==> exists|i: int| #![trigger self.defines@[i]] self.define_at(name, i)
            && defined_value_is(self.defines@[i].1, ts, n)
            && (before.has_define(name) ==> before.define_at(name, i))
            && (!before.has_define(name) ==> i == before.defines@.len())
            && self.defines@.len() == (if before.has_define(name) { before.defines@.len() } else { before.defines@.len() + 1 })
            && forall|j: int| 0 <= j < before.defines@.len() && j != i ==> #[trigger] self.defines@[j] == before.defines@[j]
    }

    /// The macros defined, by name: each name with its first definition.
    spec fn macro_env(&self) -> Map<Seq<char>, MacroView> {
        env_of(self.defines@)
    }

    /// A name's first definition is at one place only.
    proof fn lemma_define_at_unique(&self, k: Seq<char>, i: int, j: int)
        requires
            self.define_at(k, i),
            self.define_at(k, j),
        ensures
            i == j,
    {
        if i < j {
            assert(self.defines@[i].0@ != k);
        } else if j < i {
            assert(self.defines@[j].0@ != k);
        }
    }

    /// A name that is defined has a first definition.
    proof fn lemma_has_first(&self, k: Seq<char>, y: int)
        requires
            0 <= y < self.defines@.len(),
            self.defines@[y].0@ == k,
        ensures
            exists|x: int| self.define_at(k, x),
        decreases y,
    {
        if forall|j: int| 0 <= j < y ==> (#[trigger] self.defines@[j]).0@ != k {
            assert(self.define_at(k, y));
        } else {
            let j = choose|j: int| 0 <= j < y && (#[trigger] self.defines@[j]).0@ == k;
            self.lemma_has_first(k, j);
        }
    }

    /// A name defined at `i` is looked up there.
    proof fn lemma_env_at(&self, k: Seq<char>, i: int)
        requires
            self.define_at(k, i),
        ensures
            self.macro_env().dom().contains(k),
            self.macro_env()[k] == macro_view(self.defines@[i].1),
    {
        assert(first_at(self.defines@, k, i));
        let x = choose|x: int| first_at(self.defines@, k, x);
        self.lemma_define_at_unique(k, x, i);
    }

    /// With output active, a `#define` gives its name the macro it defines
    /// and leaves every other name as it was.
    proof fn lemma_define_env(before: Preprocessor, after: Preprocessor, ts: Seq<Seq<char>>, q: int)
        requires
            after.define_effect(before, ts, q),
            before.output_active(),
        ensures
            after.macro_env() == before.macro_env().insert(
                operand_text(token_at(ts, solid_from(ts, q + 1))), defined_macro(ts, solid_from(ts, q + 1))),
    {
        let n = solid_from(ts, q + 1);
        let name = operand_text(token_at(ts, n));
        let i = choose|i: int| #![trigger after.defines@[i]] after.define_at(name, i)
            && defined_value_is(after.defines@[i].1, ts, n)
            && (before.has_define(name) ==> before.define_at(name, i))
            && (!before.has_define(name) ==> i == before.defines@.len())
            && after.defines@.len() == (if before.has_define(name) { before.defines@.len() } else { before.defines@.len() + 1 })
            && forall|j: int| 0 <= j < before.defines@.len() && j != i ==> #[trigger] after.defines@[j] == before.defines@[j];
        lemma_defined_macro(after.defines@[i].1, ts, n);
        after.lemma_env_at(name, i);
        // Away from `i`, both hold the same entries; at `i` both hold `name`.
        assert forall|x: int| 0 <= x < after.defines@.len() && x != i implies
            x < before.defines@.len() && #[trigger] after.defines@[x] == before.defines@[x] by {
        }
        assert(0 <= i < before.defines@.len() ==> before.defines@[i].0@ == name);
        assert forall|k: Seq<char>| k != name implies
            (#[trigger] after.macro_env().dom().contains(k) <==> before.macro_env().dom().contains(k))
            && (before.macro_env().dom().contains(k) ==> after.macro_env()[k] == before.macro_env()[k]) by {
            if before.macro_env().dom().contains(k) {
                let x = choose|x: int| first_at(before.defines@, k, x);
                assert(before.define_at(k, x));
                assert(x != i);
                assert forall|y: int| 0 <= y < x implies (#[trigger] after.defines@[y]).0@ != k by {
                    assert(before.defines@[y].0@ != k);
                    if y != i {
                        assert(after.defines@[y] == before.defines@[y]);
                    }
                }
                assert(after.defines@[x] == before.defines@[x]);
                assert(after.define_at(k, x));
                after.lemma_env_at(k, x);
                before.lemma_env_at(k, x);
            }
            if after.macro_env().dom().contains(k) {
                let x = choose|x: int| first_at(after.defines@, k, x);
                assert(after.define_at(k, x));
                assert(x != i);
                assert(after.defines@[x] == before.defines@[x]);
                assert forall|y: int| 0 <= y < x implies (#[trigger] before.defines@[y]).0@ != k by {
                    assert(after.defines@[y].0@ != k);
                    if y != i {
                        assert(after.defines@[y] == before.defines@[y]);
                    }
                }
                assert(before.define_at(k, x));
                before.lemma_env_at(k, x);
            }
        }
        assert(after.macro_env() =~= before.macro_env().insert(name, defined_macro(ts, n)));
    }

    /// After a well-formed `#define` at the top level, the items that
    /// follow are read with its macro added.
    proof fn lemma_define_item(ts: Seq<Seq<char>>, k: int, env: Map<Seq<char>, MacroView>,
        before: Preprocessor, after: Preprocessor, pos: int)
        requires
            0 <= k < ts.len(),
            ts[k] == "#"@,
            token_at(ts, k + 1) == Some("define"@),
            define_ok(ts, k),
            before.macro_env() == env,
            before.condition_stack@.len() == 0,
            after.define_effect(before, ts, k + 1),
            pos == define_stop(ts, define_value_start(ts, solid_from(ts, k + 2)), Seq::empty(), false),
        ensures
            items_env(ts, pos + 1, after.macro_env()) == items_env(ts, k, env),
    {
        reveal_strlit("#");
        reveal_strlit("@");
        let n = solid_from(ts, k + 2);
        assert(before.output_active());
        Preprocessor::lemma_define_env(before, after, ts, k + 1);
        lemma_solid_from_ge(ts, k + 2);
        assert(n < ts.len());
        if token_at(ts, n + 1) == Some("("@) {
            lemma_macro_params_pos(ts, n + 2, Seq::empty());
        }
        lemma_define_stop(ts, define_value_start(ts, n), Seq::empty(), false);
        let env2 = env.insert(operand_text(token_at(ts, n)), defined_macro(ts, n));
        let next = if define_next(ts, k) > k { define_next(ts, k) } else { ts.len() as int };
        assert(items_env(ts, k, env) == items_env(ts, next, env2));
        assert(items_env(ts, pos + 1, env2) == items_env(ts, next, env2));
    }

    /// What waits for the top-level buffer, when writing to it.
    spec fn waiting(&self, is_root: bool) -> Seq<char> {
        if is_root { concat(texts_view(self.pending_root@)) } else { Seq::empty() }
    }

    spec fn output_active(&self) -> bool {
        forall|k: int| 0 <= k < self.condition_stack@.len() ==> (#[trigger] self.condition_stack@[k]).active
    }

    /// Whether every enclosing conditional is active.

    fn is_output_active(&self) -> (b: bool)
        ensures
            b == self.output_active(),
            b == forall|k: int| 0 <= k < self.condition_stack@.len() ==> (#[trigger] self.condition_stack@[k]).active,
    {
        let mut i: usize = 0;
        while i < self.condition_stack.len()
            invariant
                i <= self.condition_stack.len(),
                forall|k: int| 0 <= k < i ==> (#[trigger] self.condition_stack@[k]).active,
            decreases self.condition_stack.len() - i,
        {
            if !self.condition_stack[i].active {
                return false;
            }
            i = i + 1;
        }
        true
    }

    fn define_macro(&mut self, name: &Vec<char>, value: Macro)
        requires
            old(self).wf(),
        ensures
            final(self).wf(),
            *final(self) == (Preprocessor { defines: final(self).defines, ..*old(self) }),
            exists|i: int| #![trigger final(self).defines@[i]]
                final(self).define_at(name@, i) && final(self).defines@[i].1 == value
                && (old(self).has_define(name@) ==> old(self).define_at(name@, i))
                && (!old(self).has_define(name@) ==> i == old(self).defines@.len())
                && final(self).defines@.len() == (if old(self).has_define(name@) { old(self).defines@.len() } else { old(self).defines@.len() + 1 })
                && forall|j: int| 0 <= j < old(self).defines@.len() && j != i ==> #[trigger] final(self).defines@[j] == old(self).defines@[j],
    {
        match self.find_define(name) {
            Some(i) => {
                self.defines.set(i, (copy_text(name), value));
                proof {
                    assert(self.define_at(name@, i as int));
                }
            },
            None => {
                self.defines.push((copy_text(name), value));
                proof {
                    assert(self.define_at(name@, self.defines@.len() - 1));
                }
            },
        }
    }

    fn undefine_macro(&mut self, name: &Vec<char>)
        requires
            old(self).wf(),
        ensures
            final(self).wf(),
            *final(self) == (Preprocessor { defines: final(self).defines, ..*old(self) }),
            !old(self).has_define(name@) ==> final(self).defines@ == old(self).defines@,
            old(self).has_define(name@) ==> exists|i: int| old(self).define_at(name@, i)
                && final(self).defines@ == old(self).defines@.remove(i),
            !final(self).has_define(name@),
    {
        if let Some(i) = self.find_define(name) {
            self.defines.remove(i);
        }
    }

    /// The body of function-like macro `name` with each parameter, as a
    /// whole word, replaced by the corresponding (trimmed) argument, or by
    /// nothing when there are fewer arguments; `None` for a name that is
    /// not a function-like macro.
    fn expand_function_macro(&self, name: &Vec<char>, args: &Vec<Vec<char>>) -> (r: Option<Vec<char>>)
        requires
            self.wf(),
        ensures
            r is Some <==> exists|i: int| self.define_at(name@, i) && self.defines@[i].1 is Func,
            forall|i: int| #![trigger self.defines@[i]]
                self.define_at(name@, i) ==> match self.defines@[i].1 {
                    Macro::Func(params, body) => r matches Some(t)
                        && t@ == substituted(body@, texts_view(params@), texts_view(args@), params@.len()),
                    _ => r is None,
                },
    {
        let i = match self.find_define(name) {
            Some(i) => i,
            None => return None,
        };
        match &self.defines[i].1 {
            Macro::Func(params, body0) => {
                let mut body = string_of(body0);
                let ghost ps = texts_view(params@);
                let ghost xs = texts_view(args@);
                let mut k: usize = 0;
                while k < params.len()
                    invariant
                        self.wf(),
                        k <= params.len(),
                        ps == texts_view(params@),
                        xs == texts_view(args@),
                        body@ == substituted(body0@, ps, xs, k as nat),
                    decreases params.len() - k,
                {
                    let arg = if k < args.len() {
                        trim_space(&self.cls, &args[k])
                    } else {
                        Vec::new()
                    };
                    assert(arg@ == argument_text(xs, k as int));
                    let mut pattern = lit("\\b");
                    push_text(&mut pattern, &regex_escape(&params[k]));
                    push_str(&mut pattern, "\\b");
                    let source = string_of(&pattern);
                    assert(source@ == param_pattern(ps[k as int]));
                    if let Some(p) = Pattern::compile(source.as_str()) {
                        body = p.replace_all(body.as_str(), string_of(&arg).as_str());
                    }
                    k = k + 1;
                }
                Some(chars_of(body.as_str()))
            },
            _ => None,
        }
    }

    fn should_prefix_with_self(&self, token: &Vec<char>, prev_token: &Vec<char>) -> (b: bool)
        requires
            self.wf(),
        ensures
            self.current_ivar_names is None ==> !b,
            // A name after `.` is a property access, never an instance variable.
            prev_token@ == "."@ ==> !b,
            b == (self.current_ivar_names matches Some(ivars)
                && identifier_token(token@)
                && texts_view(ivars@).contains(token@)
                && !declaring_word(prev_token@)),
    {
        let ivars = match &self.current_ivar_names {
            Some(m) => m,
            None => return false,
        };
        if !is_identifier(&self.cls, token) {
            return false;
        }
        if !name_in(ivars, token) {
            proof {
                if texts_view(ivars@).contains(token@) {
                    let k = choose|k: int| 0 <= k < texts_view(ivars@).len() && texts_view(ivars@)[k] == token@;
                    assert(ivars@[k]@ == token@);
                }
            }
            return false;
        }
        proof {
            let k = choose|k: int| 0 <= k < ivars@.len() && (#[trigger] ivars@[k])@ == token@;
            assert(texts_view(ivars@)[k] == token@);
        }
        if text_is(prev_token, ".") {
            return false;
        }
        if text_is(prev_token, "var") || text_is(prev_token, "let") || text_is(prev_token, "const")
            || text_is(prev_token, "function") || text_is(prev_token, "catch")
            || text_is(prev_token, "class") || text_is(prev_token, "new") {
            return false;
        }
        true
    }
}

impl Preprocessor {
    /// Expands the macro `token` names, reading the arguments of a
    /// function-like macro from the tokens that follow.
    fn try_expand_macro(&mut self, token: &Vec<char>, tokens: &mut Lexer) -> (r: R<Option<Vec<char>>>)
        requires
            old(self).wf(),
            old(tokens).wf(),
        ensures
            r matches Err(e) ==> error_in_file(e@, old(self).url@),
            final(self).url == old(self).url,
            final(self).wf(),
            final(tokens).wf(),
            final(tokens).toks() == old(tokens).toks(),
            r is Ok ==> advanced(*old(tokens), *final(tokens)),
            r matches Ok(Some(_)) ==> old(self).defines@.len() > 0,
            old(self).defines@.len() == 0 ==> (r matches Ok(None) && *final(tokens) == *old(tokens)
                && final(self).same_but_output(old(self)) && final(self).pending_root == old(self).pending_root),
            *final(self) == *old(self),
            !identifier_token(token@) || !old(self).has_define(token@) ==> (r matches Ok(None) && *final(tokens) == *old(tokens)),
            forall|i: int| #![trigger old(self).defines@[i]]
                identifier_token(token@) && old(self).define_at(token@, i) ==> match old(self).defines@[i].1 {
                    Macro::Text(v) => r matches Ok(Some(t)) && t@ == v@ && *final(tokens) == *old(tokens),
                    Macro::Flag(_) => r matches Ok(None) && *final(tokens) == *old(tokens),
                    Macro::Func(_, _) => r is Err || advanced(*old(tokens), *final(tokens)),
                },
            // A function-like macro followed by `(` is called with the
            // arguments read up to the matching `)`; without `(` it is left alone.
            forall|i: int| #![trigger old(self).defines@[i]]
                identifier_token(token@) && old(self).define_at(token@, i)
                    && old(tokens).pos() < old(tokens).toks().len() ==> match old(self).defines@[i].1 {
                    Macro::Func(params, body) => {
                        let ts = old(tokens).toks();
                        let q = blank_from(ts, old(tokens).pos() + 1);
                        if token_at(ts, q) == Some("("@) {
                            match macro_args(ts, q + 1, 1, Seq::empty(), Seq::empty()) {
                                None => r is Err,
                                Some((a, e)) => r matches Ok(Some(t))
                                    && t@ == substituted(body@, texts_view(params@), a, params@.len())
                                    && final(tokens).pos() == e && final(tokens).saved() == old(tokens).saved(),
                            }
                        } else {
                            r matches Ok(None) && final(tokens).pos() == old(tokens).pos()
                                && final(tokens).saved() == old(tokens).saved()
                        }
                    },
                    _ => true,
                },
    {
        if !is_identifier(&self.cls, token) {
            return Ok(None);
        }
        let i = match self.find_define(token) {
            Some(i) => i,
            None => return Ok(None),
        };
        match &self.defines[i].1 {
            Macro::Func(_, _) => {
                tokens.push();
                let ghost ts = old(tokens).toks();
                proof {
                    old(tokens).lemma_bounds();
                }
                let mut next = tokens.next();
                loop
                    invariant
                        self.wf(),
                        *self == *old(self),
                        old(self).defines@.len() > 0,
                        tokens.wf(),
                        tokens.toks() == old(tokens).toks(),
                        ts == tokens.toks(),
                        tokens.saved() == old(tokens).saved().push(old(tokens).pos()),
                        tokens.pos() >= old(tokens).pos(),
                        opt_text(next) == token_at(tokens.toks(), tokens.pos()),
                        old(tokens).pos() < ts.len() ==> blank_from(ts, old(tokens).pos() + 1) == blank_from(ts, tokens.pos()),
                        old(tokens).pos() < ts.len() ==> tokens.pos() >= old(tokens).pos() + 1,
                    ensures
                        old(tokens).pos() < ts.len() ==> blank_from(ts, old(tokens).pos() + 1) == tokens.pos(),
                    decreases tokens.toks().len() - tokens.pos(),
                {
                    proof {
                        tokens.lemma_bounds();
                    }
                    match &next {
                        Some(n) => {
                            if all_space(&self.cls, n) && !has_newline(n) {
                                proof {
                                    assert(blank_token(ts[tokens.pos()]));
                                }
                                next = tokens.next();
                            } else {
                                break;
                            }
                        },
                        None => {
                            break;
                        },
                    }
                }
                if opt_is(&next, "(") {
                    let mut args: Vec<Vec<char>> = Vec::new();
                    let mut current_arg: Vec<char> = Vec::new();
                    let mut depth: u128 = 1;
                    let ghost start = tokens.pos();
                    let ghost total = macro_args(ts, start + 1, 1, Seq::empty(), Seq::empty());
                    proof {
                        old(tokens).lemma_bounds();
                        assert(texts_view(args@) =~= Seq::<Seq<char>>::empty());
                    }
                    let n_toks = tokens.len();
                    while depth > 0
                        invariant
                            self.wf(),
                            *self == *old(self),
                            old(self).defines@.len() > 0,
                            identifier_token(token@),
                            old(self).define_at(token@, i as int),
                            old(self).defines@[i as int].1 is Func,
                            tokens.wf(),
                            tokens.toks().len() == n_toks,
                            tokens.toks() == old(tokens).toks(),
                            ts == tokens.toks(),
                            tokens.saved() == old(tokens).saved().push(old(tokens).pos()),
                            tokens.pos() >= start >= old(tokens).pos(),
                            start >= -1,
                            depth <= tokens.pos() - start + 1,
                            total == macro_args(ts, start + 1, 1, Seq::empty(), Seq::empty()),
                            old(tokens).pos() < ts.len() ==> blank_from(ts, old(tokens).pos() + 1) == start,
                            token_at(ts, start) == Some("("@),
                            depth > 0 ==> total == macro_args(ts, tokens.pos() + 1, depth as int, current_arg@, texts_view(args@)),
                            depth == 0 ==> total == Some((if current_arg@.len() > 0 || args@.len() > 0 {
                                texts_view(args@).push(current_arg@) } else { texts_view(args@) }, tokens.pos())),
                        decreases tokens.toks().len() - tokens.pos(),
                    {
                        proof {
                            tokens.lemma_bounds();
                        }
                        let ghost p0 = tokens.pos();
                        let n = match tokens.next() {
                            Some(n) => n,
                            None => {
                                assert(old(self).has_define(token@));
                                assert(macro_args(ts, p0 + 1, depth as int, current_arg@, texts_view(args@)) is None);
                                return self.fail("*** Unterminated macro arguments");
                            },
                        };
                        let ghost before_cur = current_arg@;
                        let ghost before_args = texts_view(args@);
                        proof {
                            assert(tokens.pos() == p0 + 1);
                            assert(n@ == ts[p0 + 1]);
                        }
                        if text_is(&n, "(") {
                            depth = depth + 1;
                            push_text(&mut current_arg, &n);
                        } else if text_is(&n, ")") {
                            depth = depth - 1;
                            if depth > 0 {
                                push_text(&mut current_arg, &n);
                            }
                        } else if text_is(&n, ",") && depth == 1 {
                            let ghost a0 = args@;
                            args.push(current_arg);
                            current_arg = Vec::new();
                            proof {
                                assert(texts_view(args@) =~= before_args.push(before_cur));
                                assert(current_arg@ =~= Seq::<char>::empty());
                            }
                        } else {
                            push_text(&mut current_arg, &n);
                        }
                    }
                    let ghost pre_args = texts_view(args@);
                    let ghost pre_cur = current_arg@;
                    if current_arg.len() > 0 || args.len() > 0 {
                        args.push(current_arg);
                        proof {
                            assert(texts_view(args@) =~= pre_args.push(pre_cur));
                        }
                    }
                    tokens.discard_saved();
                    proof {
                        assert(old(tokens).saved().push(old(tokens).pos()).drop_last() == old(tokens).saved());
                        assert(total == Some((texts_view(args@), tokens.pos())));
                        assert(old(tokens).pos() < ts.len() ==> blank_from(ts, old(tokens).pos() + 1) == start);
                        assert(token_at(ts, start) == Some("("@));
                    }
                    let res = self.expand_function_macro(token, &args);
                    proof {
                        match old(self).defines@[i as int].1 {
                            Macro::Func(params, body) => {
                                assert(res matches Some(t) && t@ == substituted(body@, texts_view(params@), texts_view(args@), params@.len()));
                                assert(old(tokens).pos() < ts.len() ==> token_at(ts, blank_from(ts, old(tokens).pos() + 1)) == Some("("@));
                                assert(macro_args(ts, start + 1, 1, Seq::empty(), Seq::empty()) == Some((texts_view(args@), tokens.pos())));
                                assert(tokens.saved() == old(tokens).saved());
                            },
                            _ => {},
                        }
                    }
                    Ok(res)
                } else {
                    let ghost q = tokens.pos();
                    tokens.pop();
                    proof {
                        assert(old(tokens).saved().push(old(tokens).pos()).drop_last() == old(tokens).saved());
                        assert(old(tokens).pos() < ts.len() ==> blank_from(ts, old(tokens).pos() + 1) == q);
                        assert(token_at(ts, q) != Some("("@));
                        assert(tokens.pos() == old(tokens).pos());
                        assert(tokens.saved() == old(tokens).saved());
                    }
                    Ok(None)
                }
            },
            Macro::Text(v) => Ok(Some(copy_text(v))),
            Macro::Flag(_) => Ok(None),
        }
    }

    /// Reads the rest of the directive's line and decides the condition.
    fn evaluate_condition(&self, tokens: &mut Lexer) -> (b: bool)
        requires
            self.wf(),
            old(tokens).wf(),
        ensures
            advanced(*old(tokens), *final(tokens)),
            final(tokens).pos() == line_end_from(old(tokens).toks(), old(tokens).pos() + 1),
            b == self.condition_holds(trimmed(line_text(old(tokens).toks(), old(tokens).pos() + 1))),
    {
        let ghost whole = line_text(tokens.toks(), tokens.pos() + 1);
        let mut parts: Vec<char> = Vec::new();
        proof {
            tokens.lemma_bounds();
        }
        loop
            invariant_except_break
                parts@ + line_text(tokens.toks(), tokens.pos() + 1) == whole,
                line_end_from(tokens.toks(), old(tokens).pos() + 1) == line_end_from(tokens.toks(), tokens.pos() + 1),
            invariant
                self.wf(),
                advanced(*old(tokens), *tokens),
                whole == line_text(old(tokens).toks(), old(tokens).pos() + 1),
                tokens.pos() >= -1,
            ensures
                parts@ == whole,
                tokens.pos() == line_end_from(tokens.toks(), old(tokens).pos() + 1),
            decreases tokens.toks().len() - tokens.pos(),
        {
            proof {
                tokens.lemma_bounds();
            }
            let ghost p0 = tokens.pos();
            let token = match tokens.next() {
                Some(t) => t,
                None => {
                    proof {
                        assert(line_text(tokens.toks(), p0 + 1) == Seq::<char>::empty());
                        assert(parts@ + Seq::<char>::empty() == parts@);
                    }
                    break;
                },
            };
            if has_newline(&token) {
                proof {
                    assert(line_text(tokens.toks(), p0 + 1) == Seq::<char>::empty());
                    assert(parts@ + Seq::<char>::empty() == parts@);
                }
                break;
            }
            let ghost before = parts@;
            if is_whitespace_tok(&self.cls, &token) {
                parts.push(' ');
            } else {
                push_text(&mut parts, &token);
            }
            proof {
                let ts = tokens.toks();
                let p = tokens.pos();
                assert(parts@ + line_text(ts, p + 1) =~= before + line_text(ts, p));
            }
        }
        let expr = trim_space(&self.cls, &parts);
        self.eval_condition_expr(&expr)
    }

    /// What a `defined` test gives for the name it caught: `1` for a
    /// defined macro, `0` otherwise.
    spec fn defined_text(&self, g: Option<Seq<char>>) -> Seq<char> {
        match g {
            Some(n) => if self.has_define(n) { "1"@ } else { "0"@ },
            None => "0"@,
        }
    }

    /// `s` with each match of `pattern` (a `defined` test whose group 1 is
    /// the name) replaced by `1` or `0`.
    spec fn defined_replaced(&self, pattern: Seq<char>, s: Seq<char>) -> Seq<char> {
        if regex_compiles(pattern) {
            let ms = regex_capture_spans(pattern, s);
            replaced(s, ms, Seq::new(ms.len(), |k: int| self.defined_text(group_chars(s, ms[k], 1))))
        } else {
            s
        }
    }

    /// The text a name stands for in a condition: `true` is `1`, `false`
    /// is `0`, a flag is `1` or `0`, a text macro its text; anything else
    /// is `0`.
    spec fn name_value(&self, n: Seq<char>) -> Seq<char> {
        if n == "true"@ {
            "1"@
        } else if n == "false"@ {
            "0"@
        } else if self.has_define(n) {
            let i = choose|i: int| self.define_at(n, i);
            match self.defines@[i].1 {
                Macro::Flag(true) => "1"@,
                Macro::Text(v) => v@,
                _ => "0"@,
            }
        } else {
            "0"@
        }
    }

    /// `s` with each name (group 1 of a match of `pattern`) replaced by the
    /// text it stands for.
    spec fn names_replaced(&self, pattern: Seq<char>, s: Seq<char>) -> Seq<char> {
        if regex_compiles(pattern) {
            let ms = regex_capture_spans(pattern, s);
            replaced(s, ms, Seq::new(ms.len(), |k: int| match group_chars(s, ms[k], 1) {
                Some(n) => self.name_value(n),
                None => "0"@,
            }))
        } else {
            s
        }
    }

    /// Whether the condition `expr` of an `#if` holds: `defined(NAME)` and
    /// `defined NAME` become `1` or `0`, every other name the text it
    /// stands for, and what is left must be made of numbers, operators,
    /// parentheses and whitespace and evaluate to a value other than zero.
    /// Whether a condition holds depends on the macros alone.
    proof fn lemma_condition_frame(a: Preprocessor, b: Preprocessor, expr: Seq<char>)
        requires
            a.defines == b.defines,
        ensures
            a.condition_holds(expr) == b.condition_holds(expr),
    {
        assert forall|t: Option<Seq<char>>| a.defined_text(t) == b.defined_text(t) by {}
        assert forall|n: Seq<char>| a.name_value(n) == b.name_value(n) by {
            if a.has_define(n) {
                let j = choose|j: int| 0 <= j < a.defines@.len() && (#[trigger] a.defines@[j]).0@ == n;
                lemma_first_define(a.defines@, n, j);
                let i0 = choose|i: int| 0 <= i <= j && a.defines@[i].0@ == n
                    && forall|k: int| 0 <= k < i ==> (#[trigger] a.defines@[k]).0@ != n;
                assert(a.define_at(n, i0));
                assert(b.define_at(n, i0));
                let ia = choose|i: int| a.define_at(n, i);
                let ib = choose|i: int| b.define_at(n, i);
                assert(a.define_at(n, ia));
                assert(b.define_at(n, ib));
                if ia < ib {
                    assert(b.defines@[ia].0@ == n);
                } else if ib < ia {
                    assert(a.defines@[ib].0@ == n);
                }
                assert(ia == ib);
            }
        }
        let p1 = defined_paren_pattern();
        let p2 = defined_word_pattern();
        let p3 = name_pattern();
        if regex_compiles(p1) {
            let ms = regex_capture_spans(p1, expr);
            assert(Seq::new(ms.len(), |k: int| a.defined_text(group_chars(expr, ms[k], 1)))
                =~= Seq::new(ms.len(), |k: int| b.defined_text(group_chars(expr, ms[k], 1))));
        }
        let s1 = a.defined_replaced(p1, expr);
        assert(s1 == b.defined_replaced(p1, expr));
        if regex_compiles(p2) {
            let ms = regex_capture_spans(p2, s1);
            assert(Seq::new(ms.len(), |k: int| a.defined_text(group_chars(s1, ms[k], 1)))
                =~= Seq::new(ms.len(), |k: int| b.defined_text(group_chars(s1, ms[k], 1))));
        }
        let s2 = a.defined_replaced(p2, s1);
        assert(s2 == b.defined_replaced(p2, s1));
        if regex_compiles(p3) {
            let ms = regex_capture_spans(p3, s2);
            assert(Seq::new(ms.len(), |k: int| match group_chars(s2, ms[k], 1) { Some(n) => a.name_value(n), None => "0"@ })
                =~= Seq::new(ms.len(), |k: int| match group_chars(s2, ms[k], 1) { Some(n) => b.name_value(n), None => "0"@ }));
        }
        assert(a.names_replaced(p3, s2) == b.names_replaced(p3, s2));
    }

    spec fn condition_holds(&self, expr: Seq<char>) -> bool {
        let s1 = self.defined_replaced(defined_paren_pattern(), expr);
        let s2 = self.defined_replaced(defined_word_pattern(), s1);
        let s3 = self.names_replaced(name_pattern(), s2);
        &&& regex_compiles(condition_chars_pattern())
        &&& regex_is_match(condition_chars_pattern(), s3)
        &&& eval_numeric(s3) matches Some(v) && v.0 != 0
    }

    /// Replaces each match of `pattern`, a `defined` test whose group 1 is
    /// a name, by `1` or `0`.
    fn subst_defined(&self, pattern: &str, s: &str) -> (r: String)
        requires
            self.wf(),
        ensures
            r@ == self.defined_replaced(pattern@, s@),
    {
        let p = match Pattern::compile(pattern) {
            Some(p) => p,
            None => return String::from_str(s),
        };
        let ms = p.captures_all(s);
        let ghost v = spans_view(ms@);
        let mut reps: Vec<String> = Vec::new();
        let mut i: usize = 0;
        while i < ms.len()
            invariant
                self.wf(),
                i <= ms@.len(),
                v == spans_view(ms@),
                v == regex_capture_spans(pattern@, s@),
                forall|a: int, g: int| 0 <= a < ms@.len() && 0 <= g < ms@[a]@.len() ==>
                    (#[trigger] ms@[a]@[g] matches Some(span) ==> span.0 <= span.1 <= s.spec_bytes().len()
                        && is_char_boundary(s.spec_bytes(), span.0 as int)
                        && is_char_boundary(s.spec_bytes(), span.1 as int)),
                string_views(reps@) =~= Seq::new(i as nat, |k: int| self.defined_text(group_chars(s@, v[k], 1))),
            decreases ms@.len() - i,
        {
            let g = group_of(s, &ms[i], 1);
            proof {
                assert(v[i as int] == groups_view(ms@[i as int]@));
            }
            let rep = match g {
                Some(n) => if self.is_defined(&chars_of(n.as_str())) { String::from_str("1") } else { String::from_str("0") },
                None => String::from_str("0"),
            };
            proof {
                lemma_views_push(reps@, rep);
            }
            reps.push(rep);
            i = i + 1;
        }
        proof {
            assert(well_placed(ms@, s.spec_bytes()));
        }
        splice(s, &ms, &reps)
    }

    /// The text a name stands for in a condition.
    fn condition_value(&self, name: &Vec<char>) -> (r: Vec<char>)
        ensures
            r@ == self.name_value(name@),
    {
        if text_is(name, "true") {
            return lit("1");
        }
        if text_is(name, "false") {
            return lit("0");
        }
        match self.find_define(name) {
            Some(i) => {
                proof {
                    assert(self.has_define(name@));
                    let j = choose|j: int| self.define_at(name@, j);
                    assert(self.define_at(name@, j));
                    if j < i {
                        assert(self.defines@[j].0@ != name@);
                    }
                    if i < j {
                        assert(self.defines@[i as int].0@ != name@);
                    }
                    assert(j == i);
                }
                match &self.defines[i].1 {
                    Macro::Flag(true) => lit("1"),
                    Macro::Flag(false) => lit("0"),
                    Macro::Text(v) => copy_text(v),
                    Macro::Func(_, _) => lit("0"),
                }
            },
            None => lit("0"),
        }
    }

    /// Replaces each name (group 1 of a match of `pattern`) by the text it
    /// stands for.
    fn subst_names(&self, pattern: &str, s: &str) -> (r: String)
        requires
            self.wf(),
        ensures
            r@ == self.names_replaced(pattern@, s@),
    {
        let p = match Pattern::compile(pattern) {
            Some(p) => p,
            None => return String::from_str(s),
        };
        let ms = p.captures_all(s);
        let ghost v = spans_view(ms@);
        let mut reps: Vec<String> = Vec::new();
        let mut i: usize = 0;
        while i < ms.len()
            invariant
                self.wf(),
                i <= ms@.len(),
                v == spans_view(ms@),
                v == regex_capture_spans(pattern@, s@),
                forall|a: int, g: int| 0 <= a < ms@.len() && 0 <= g < ms@[a]@.len() ==>
                    (#[trigger] ms@[a]@[g] matches Some(span) ==> span.0 <= span.1 <= s.spec_bytes().len()
                        && is_char_boundary(s.spec_bytes(), span.0 as int)
                        && is_char_boundary(s.spec_bytes(), span.1 as int)),
                string_views(reps@) =~= Seq::new(i as nat, |k: int| match group_chars(s@, v[k], 1) {
                    Some(n) => self.name_value(n),
                    None => "0"@,
                }),
            decreases ms@.len() - i,
        {
            let g = group_of(s, &ms[i], 1);
            proof {
                assert(v[i as int] == groups_view(ms@[i as int]@));
            }
            let rep = match g {
                Some(n) => string_of(&self.condition_value(&chars_of(n.as_str()))),
                None => String::from_str("0"),
            };
            proof {
                lemma_views_push(reps@, rep);
            }
            reps.push(rep);
            i = i + 1;
        }
        proof {
            assert(well_placed(ms@, s.spec_bytes()));
        }
        splice(s, &ms, &reps)
    }

    /// Whether the condition `expr` of an `#if` holds.
    fn eval_condition_expr(&self, expr: &Vec<char>) -> (b: bool)
        requires
            self.wf(),
        ensures
            b == self.condition_holds(expr@),
    {
        let e = string_of(expr);
        let s1 = self.subst_defined(r"defined\s*\(\s*(\w+)\s*\)", e.as_str());
        let s2 = self.subst_defined(r"defined\s+(\w+)", s1.as_str());
        let s3 = self.subst_names(r"\b([A-Za-z_]\w*)\b", s2.as_str());
        let ok = match Pattern::compile(r"^[\d\s()+\-*/%<>=!&|^~.]+$") {
            Some(p) => p.is_match(s3.as_str()),
            None => false,
        };
        if !ok {
            return false;
        }
        match eval_numeric_exec(&self.cls, &chars_of(s3.as_str())) {
            Some(v) => v.0 != 0,
            None => false,
        }
    }

    /// Skips the rest of the current line.
    fn skip_line(tokens: &mut Lexer)
        requires
            old(tokens).wf(),
        ensures
            advanced(*old(tokens), *final(tokens)),
            final(tokens).pos() == line_end_from(old(tokens).toks(), old(tokens).pos() + 1),
    {
        proof {
            old(tokens).lemma_bounds();
        }
        loop
            invariant_except_break
                line_end_from(tokens.toks(), old(tokens).pos() + 1) == line_end_from(tokens.toks(), tokens.pos() + 1),
            invariant
                advanced(*old(tokens), *tokens),
                tokens.pos() >= -1,
            ensures
                tokens.pos() == line_end_from(tokens.toks(), old(tokens).pos() + 1),
            decreases tokens.toks().len() - tokens.pos(),
        {
            proof {
                tokens.lemma_bounds();
            }
            match tokens.next() {
                Some(t) => {
                    if has_newline(&t) {
                        break;
                    }
                },
                None => break,
            }
        }
    }

    /// Skips tokens up to the `#endif`, `#elif` or `#else` that closes the
    /// current conditional, leaving the cursor just before its `#`.
    fn skip_to_next_directive(&self, tokens: &mut Lexer) -> (r: R<Vec<char>>)
        requires
            self.wf(),
            old(tokens).wf(),
        ensures
            r matches Err(e) ==> e@ == self.error_text("*** Unterminated conditional: missing #endif"@),
            r matches Err(e) ==> error_in_file(e@, self.url@),
            final(tokens).wf(),
            final(tokens).toks() == old(tokens).toks(),
            r is Ok ==> advanced(*old(tokens), *final(tokens)),
            r is Ok ==> final(tokens).pos() + 1 < final(tokens).toks().len(),
            r matches Ok(d) ==> {
                let ts = final(tokens).toks();
                let p = final(tokens).pos();
                &&& d@ == "endif"@ || d@ == "elif"@ || d@ == "else"@
                &&& p + 2 < ts.len()
                &&& ts[p + 1] == "#"@
                &&& ts[p + 2] == d@
            },
            r is Ok <==> close_from(old(tokens).toks(), old(tokens).pos() + 1, 1) is Some,
            r is Ok ==> close_from(old(tokens).toks(), old(tokens).pos() + 1, 1) == Some(final(tokens).pos() + 1),
    {
        let mut depth: u128 = 1;
        let ghost start = tokens.pos();
        proof {
            tokens.lemma_bounds();
        }
        let n_toks = tokens.len();
        loop
            invariant_except_break
                close_from(old(tokens).toks(), start + 1, 1) == close_from(old(tokens).toks(), tokens.pos() + 1, depth as int),
            invariant
                self.wf(),
                advanced(*old(tokens), *tokens),
                tokens.toks().len() == n_toks,
                start == old(tokens).pos(),
                start >= -1,
                1 <= depth <= tokens.pos() - start + 1,
                tokens.pos() >= start,
            ensures
                close_from(old(tokens).toks(), start + 1, 1) is None,
            decreases tokens.toks().len() - tokens.pos(),
        {
            proof {
                tokens.lemma_bounds();
            }
            let ghost k = tokens.pos() + 1;
            let token = match tokens.next() {
                Some(t) => t,
                None => break,
            };
            proof {
                reveal_strlit("#");
                reveal_strlit("if");
                reveal_strlit("ifdef");
                reveal_strlit("ifndef");
                lemma_line_end_from(old(tokens).toks(), k + 2);
            }
            if text_is(&token, "#") {
                let ghost hash_at = tokens.pos();
                let directive = or_empty(tokens.next());
                proof {
                    reveal_strlit("endif");
                    reveal_strlit("elif");
                    reveal_strlit("else");
                    if directive@.len() > 0 {
                        assert(tokens.pos() == hash_at + 1);
                        assert(tokens.toks()[tokens.pos()] == directive@);
                    }
                }
                if text_is(&directive, "if") || text_is(&directive, "ifdef") || text_is(&directive, "ifndef") {
                    depth = depth + 1;
                    Self::skip_line(tokens);
                } else if text_is(&directive, "endif") {
                    depth = depth - 1;
                    if depth == 0 {
                        tokens.previous();
                        tokens.previous();
                        return Ok(lit("endif"));
                    }
                    Self::skip_line(tokens);
                } else if depth == 1 && (text_is(&directive, "elif") || text_is(&directive, "else")) {
                    tokens.previous();
                    tokens.previous();
                    return Ok(directive);
                } else {
                    Self::skip_line(tokens);
                }
                proof {
                    let ts = old(tokens).toks();
                    tokens.lemma_bounds();
                    lemma_line_end_from(ts, k + 2);
                    assert(ts[k] == "#"@);
                    assert(operand_text(token_at(ts, k + 1)) == directive@);
                    if tokens.pos() + 1 >= ts.len() {
                        assert(close_from(ts, tokens.pos() + 1, depth as int) is None);
                        assert(close_from(ts, ts.len() as int, depth as int) is None);
                    } else {
                        assert(tokens.pos() + 1 == line_end_from(ts, k + 2) + 1);
                    }
                }
            }
            proof {
                tokens.lemma_bounds();
            }
        }
        self.fail("*** Unterminated conditional: missing #endif")
    }
}

impl Preprocessor {
    /// Reads the attribute list of `@accessors`: `(name, name = value, ...)`.
    /// Without a list the cursor is put back and no attribute is read.
    fn accessors(&self, tokens: &mut Lexer) -> (r: R<Vec<(Vec<char>, AttrVal)>>)
        requires
            self.wf(),
            old(tokens).wf(),
            old(tokens).pos() < old(tokens).toks().len(),
        ensures
            r matches Err(e) ==> error_in_file(e@, self.url@),
            final(tokens).wf(),
            final(tokens).toks() == old(tokens).toks(),
            final(tokens).saved() == old(tokens).saved(),
            r is Ok ==> advanced(*old(tokens), *final(tokens)),
            ({
                let ts = old(tokens).toks();
                let q = solid_from(ts, old(tokens).pos() + 1);
                let list = attrs_from(ts, q + 1, 0, Seq::empty(), Seq::empty(), Seq::empty());
                &&& token_at(ts, q) != Some("("@) ==> (r matches Ok(v) && v@.len() == 0 && final(tokens).pos() == q - 1)
                &&& token_at(ts, q) == Some("("@) ==> (r is Ok <==> list is Ok)
                &&& token_at(ts, q) == Some("("@) ==> (r matches Ok(v) ==> list == Ok::<(Seq<(Seq<char>, Option<Seq<char>>)>, int), Seq<char>>((attrs_view(v@), final(tokens).pos())))
                &&& token_at(ts, q) == Some("("@) && list is Err ==> (r matches Err(e) && e@ == self.error_text(list->Err_0))
            }),
    {
        proof {
            old(tokens).lemma_bounds();
            reveal_strlit("(");
            reveal_strlit(")");
            reveal_strlit("=");
            reveal_strlit(",");
            reveal_strlit(":");
            reveal_strlit("setter");
        }
        let ghost ts = old(tokens).toks();
        let mut attributes: Vec<(Vec<char>, AttrVal)> = Vec::new();
        let ghost p0 = tokens.pos();
        let mut token = tokens.skip_ws();
        proof {
            tokens.lemma_bounds();
            assert forall|k: int| p0 + 1 <= k < tokens.pos() implies ws_token(#[trigger] tokens.toks()[k]) by {
                assert(p0 < k < tokens.pos());
            }
            lemma_solid_from(ts, p0 + 1, tokens.pos());
        }
        if !opt_is(&token, "(") {
            tokens.previous();
            return Ok(attributes);
        }
        let ghost q = tokens.pos();
        let ghost total = attrs_from(ts, q + 1, 0, Seq::empty(), Seq::empty(), Seq::empty());
        proof {
            assert(attrs_view(attributes@) =~= Seq::<(Seq<char>, Option<Seq<char>>)>::empty());
        }
        loop
            invariant_except_break
                total == attrs_from(ts, tokens.pos() + 1, 0, attrs_view(attributes@), Seq::empty(), Seq::empty()),
            invariant
                self.wf(),
                advanced(*old(tokens), *tokens),
                ts == tokens.toks(),
                tokens.pos() >= 0,
                total == attrs_from(ts, q + 1, 0, Seq::empty(), Seq::empty(), Seq::empty()),
                q == solid_from(ts, old(tokens).pos() + 1),
                token_at(ts, q) == Some("("@),
                ts == old(tokens).toks(),
            ensures
                total == Ok::<(Seq<(Seq<char>, Option<Seq<char>>)>, int), Seq<char>>((attrs_view(attributes@), tokens.pos())),
            decreases tokens.toks().len() - tokens.pos(),
        {
            proof {
                tokens.lemma_bounds();
            }
            let ghost p1 = tokens.pos();
            token = tokens.skip_ws();
            proof {
                tokens.lemma_bounds();
                assert forall|k: int| p1 + 1 <= k < tokens.pos() implies ws_token(#[trigger] tokens.toks()[k]) by {
                    assert(p1 < k < tokens.pos());
                }
                lemma_attrs_skip(ts, p1 + 1, tokens.pos(), 0, attrs_view(attributes@), Seq::empty(), Seq::empty());
            }
            if opt_is(&token, ")") {
                break;
            }
            let name = or_empty(token);
            let mut value = AttrVal::Flag;
            if !is_word(&self.cls, &name) {
                return self.fail("*** @accessors attribute name not valid.");
            }
            let ghost p2 = tokens.pos();
            token = tokens.skip_ws();
            proof {
                tokens.lemma_bounds();
                assert forall|k: int| p2 + 1 <= k < tokens.pos() implies ws_token(#[trigger] tokens.toks()[k]) by {
                    assert(p2 < k < tokens.pos());
                }
                lemma_attrs_skip(ts, p2 + 1, tokens.pos(), 1, attrs_view(attributes@), name@, Seq::empty());
            }
            let ghost mut phase_done: int = 1;
            let ghost mut vtext: Seq<char> = Seq::empty();
            if opt_is(&token, "=") {
                let ghost p3 = tokens.pos();
                let vt = tokens.skip_ws();
                proof {
                    tokens.lemma_bounds();
                    assert forall|k: int| p3 + 1 <= k < tokens.pos() implies ws_token(#[trigger] tokens.toks()[k]) by {
                        assert(p3 < k < tokens.pos());
                    }
                    lemma_attrs_skip(ts, p3 + 1, tokens.pos(), 2, attrs_view(attributes@), name@, Seq::empty());
                }
                let mut v = or_empty(vt);
                if !is_word(&self.cls, &v) {
                    return self.fail("*** @accessors attribute value not valid.");
                }
                let ghost kv = tokens.pos();
                if text_is(&name, "setter") {
                    let c = tokens.next();
                    if !opt_is(&c, ":") {
                        return self.fail("*** @accessors setter attribute requires \":\" at end.");
                    }
                    v.push(':');
                }
                proof {
                    phase_done = 3;
                    vtext = v@;
                    assert(total == attrs_from(ts, tokens.pos() + 1, 3, attrs_view(attributes@), name@, v@));
                }
                value = AttrVal::Str(v);
                let ghost p4 = tokens.pos();
                token = tokens.skip_ws();
                proof {
                    tokens.lemma_bounds();
                    assert forall|k: int| p4 + 1 <= k < tokens.pos() implies ws_token(#[trigger] tokens.toks()[k]) by {
                        assert(p4 < k < tokens.pos());
                    }
                    lemma_attrs_skip(ts, p4 + 1, tokens.pos(), 3, attrs_view(attributes@), name@, vtext);
                }
            }
            let ghost before = attrs_view(attributes@);
            let ghost nm = name@;
            let ghost val = attr_view((name, value)).1;
            proof {
                assert(val == (if phase_done == 3 { Some(vtext) } else { None }));
            }
            attr_insert(&mut attributes, name, value);
            if opt_is(&token, ")") {
                break;
            }
            if !opt_is(&token, ",") {
                return self.fail("*** Expected ',' or ')' in @accessors.");
            }
        }
        Ok(attributes)
    }

    /// `@import <path>` or `@import "path"`: records the dependency and
    /// leaves the directive, commented out, in the top-level output. A lone
    /// `"` in place of a quoted path is refused.
    fn import(&mut self, tokens: &mut Lexer) -> (r: R<()>)
        requires
            old(self).wf(),
            old(tokens).wf(),
        ensures
            ({
                let t = operand_text(token_at(old(tokens).toks(), solid_from(old(tokens).toks(), old(tokens).pos() + 1)));
                let opens = t == "<"@ || (t.len() > 0 && t[0] == '"');
                &&& opens && import_target(old(tokens).toks(), old(tokens).pos()) is None ==> (r matches Err(e)
                    && e@ == old(self).error_text("*** Unterminated import statement."@))
                &&& !opens ==> (r matches Err(e)
                    && e@ == old(self).error_text("*** Expecting '<' or '\"', found \""@ + t + "\"."@))
            }),
            r matches Err(e) ==> error_in_file(e@, old(self).url@),
            final(self).url == old(self).url,
            final(self).wf(),
            final(tokens).wf(),
            final(tokens).toks() == old(tokens).toks(),
            final(tokens).saved() == old(tokens).saved(),
            r is Ok ==> advanced(*old(tokens), *final(tokens)),
            r is Ok ==> {
                let n = old(self).dependencies@.len();
                let (url, local) = final(self).dependencies@[n as int];
                &&& final(self).dependencies@.len() == n + 1
                &&& final(self).dependencies@.take(n as int) == old(self).dependencies@
                &&& texts_view(final(self).pending_root@) == texts_view(old(self).pending_root@).push(import_comment(url@, local))
            },
            r is Err ==> final(self).dependencies == old(self).dependencies,
            r is Ok <==> import_target(old(tokens).toks(), old(tokens).pos()) is Some,
            r is Ok ==> import_target(old(tokens).toks(), old(tokens).pos()) == Some((
                final(self).dependencies@.last().0@, final(self).dependencies@.last().1)),
            r is Ok ==> final(tokens).pos() == import_end(old(tokens).toks(), old(tokens).pos()),
            r is Ok ==> match import_target(old(tokens).toks(), old(tokens).pos()) {
                Some((u, l)) => deps_view(final(self).dependencies@) == deps_view(old(self).dependencies@).push((u, l))
                    && texts_view(final(self).pending_root@) == texts_view(old(self).pending_root@).push(import_comment(u, l)),
                None => false,
            },
            *final(self) == (Preprocessor { pending_root: final(self).pending_root, dependencies: final(self).dependencies, ..*old(self) }),
    {
        proof {
            old(tokens).lemma_bounds();
        }
        let ghost ts = old(tokens).toks();
        let ghost target = import_target(ts, old(tokens).pos());
        let mut url: Vec<char> = Vec::new();
        let ghost p0 = tokens.pos();
        let tok = tokens.skip_ws();
        proof {
            tokens.lemma_bounds();
            assert forall|k: int| p0 + 1 <= k < tokens.pos() implies ws_token(#[trigger] tokens.toks()[k]) by {
                assert(p0 < k < tokens.pos());
            }
            lemma_solid_from(tokens.toks(), p0 + 1, tokens.pos());
            reveal_strlit("<");
            reveal_strlit(">");
        }
        let token = or_empty(tok);
        proof {
            assert(token@ == operand_text(token_at(ts, solid_from(ts, old(tokens).pos() + 1))));
        }
        let is_quoted = !text_is(&token, "<");
        if text_is(&token, "<") {
            let ghost a = tokens.pos();
            loop
                invariant_except_break
                    angle_url(ts, a + 1) == match angle_url(ts, tokens.pos() + 1) {
                        Some(rest) => Some(url@ + rest),
                        None => None,
                    },
                    angle_end(ts, a + 1) == angle_end(ts, tokens.pos() + 1),
                invariant
                    self.wf(),
                    *self == *old(self),
                    advanced(*old(tokens), *tokens),
                    ts == tokens.toks(),
                    tokens.pos() >= a,
                    target == match angle_url(ts, a + 1) { Some(u) => Some((u, false)), None => None },
                    target == import_target(old(tokens).toks(), old(tokens).pos()),
                    import_end(old(tokens).toks(), old(tokens).pos()) == angle_end(ts, a + 1),
                    operand_text(token_at(ts, solid_from(ts, old(tokens).pos() + 1))) == "<"@,
                ensures
                    angle_url(ts, a + 1) == Some(url@),
                    tokens.pos() == angle_end(ts, a + 1),
                decreases tokens.toks().len() - tokens.pos(),
            {
                proof {
                    tokens.lemma_bounds();
                }
                let ghost k = tokens.pos() + 1;
                let ghost before = url@;
                match tokens.next() {
                    Some(t) => {
                        if text_is(&t, ">") {
                            break;
                        }
                        push_text(&mut url, &t);
                        proof {
                            match angle_url(ts, k + 1) {
                                Some(rest) => assert(before + (t@ + rest) == url@ + rest),
                                None => {},
                            }
                        }
                    },
                    None => {
                        proof {
                            assert(k >= ts.len());
                            assert(angle_url(ts, k) is None);
                            assert(target is None);
                        }
                        return self.fail("*** Unterminated import statement.");
                    },
                }
            }
        } else if first_is(&token, '"') {
            if token.len() < 2 {
                return self.fail("*** Unterminated import statement.");
            }
            url = slice_text(&token, 1, token.len() - 1);
        } else {
            return self.fail_with("*** Expecting '<' or '\"', found \"", &token, "\".");
        }
        let line = if is_quoted {
            cat3("// @import \"", &url, "\"")
        } else {
            cat3("// @import <", &url, ">")
        };
        self.pending_root.push(line);
        self.dependencies.push((url, is_quoted));
        proof {
            assert(self.dependencies@.take(old(self).dependencies@.len() as int) =~= old(self).dependencies@);
            assert(deps_view(self.dependencies@) =~= deps_view(old(self).dependencies@).push((url@, is_quoted)));
            assert(texts_view(self.pending_root@) =~= texts_view(old(self).pending_root@).push(import_comment(url@, is_quoted)));
        }
        Ok(())
    }

    /// `@selector(name:with:)`: the selector as a `sel_getUid` call.
    fn selector(&mut self, tokens: &mut Lexer, buffer: &mut StringBuffer, is_root: bool) -> (r: R<()>)
        requires
            old(self).wf(),
            old(tokens).wf(),
        ensures
            final(self).classes == old(self).classes,
            r matches Err(e) ==> error_in_file(e@, old(self).url@),
            final(self).url == old(self).url,
            final(self).wf(),
            final(tokens).wf(),
            final(tokens).toks() == old(tokens).toks(),
            final(tokens).saved() == old(tokens).saved(),
            r is Ok ==> advanced(*old(tokens), *final(tokens)),
            final(self).same_but_output(old(self)),
            r is Ok <==> selector_name(old(tokens).toks(), old(tokens).pos()) is Some,
            ({
                let ts = old(tokens).toks();
                let a = solid_from(ts, old(tokens).pos() + 1);
                &&& token_at(ts, a) != Some("("@) ==> (r matches Err(e) && e@ == old(self).error_text("*** Expected '('"@))
                &&& token_at(ts, a) == Some("("@) && token_at(ts, solid_from(ts, a + 1)) == Some(")"@) ==> (r matches Err(e)
                    && e@ == old(self).error_text("*** Unexpected ')', can't have empty @selector()"@))
            }),
            r is Ok ==> final(buffer).rendered() == old(buffer).rendered()
                + (if is_root { concat(texts_view(old(self).pending_root@)) } else { Seq::empty() })
                + "sel_getUid(\""@ + selector_name(old(tokens).toks(), old(tokens).pos())->0 + "\")"@,
            is_root ==> final(self).pending_root@.len() == 0,
            !is_root ==> final(self).pending_root@ == old(self).pending_root@,
    {
        let ghost ts = old(tokens).toks();
        let ghost start = old(buffer).rendered()
            + (if is_root { concat(texts_view(old(self).pending_root@)) } else { Seq::empty() });
        proof {
            old(tokens).lemma_bounds();
        }
        self.emit_lit(buffer, is_root, "sel_getUid(\"");
        proof {
            if is_root {
                assert(texts_view(self.pending_root@) =~= Seq::<Seq<char>>::empty());
            }
        }
        let ghost p0 = tokens.pos();
        let open_tok = tokens.skip_ws();
        proof {
            tokens.lemma_bounds();
            assert forall|k: int| p0 + 1 <= k < tokens.pos() implies ws_token(#[trigger] tokens.toks()[k]) by {
                assert(p0 < k < tokens.pos());
            }
            lemma_solid_from(tokens.toks(), p0 + 1, tokens.pos());
        }
        if !opt_is(&open_tok, "(") {
            return self.fail("*** Expected '('");
        }
        let ghost p1 = tokens.pos();
        let first_tok = tokens.skip_ws();
        proof {
            tokens.lemma_bounds();
            assert forall|k: int| p1 + 1 <= k < tokens.pos() implies ws_token(#[trigger] tokens.toks()[k]) by {
                assert(p1 < k < tokens.pos());
            }
            lemma_solid_from(tokens.toks(), p1 + 1, tokens.pos());
        }
        let ghost b = tokens.pos();
        let selector = or_empty(first_tok);
        if text_is(&selector, ")") {
            return self.fail("*** Unexpected ')', can't have empty @selector()");
        }
        self.emit(buffer, is_root, &selector);
        proof {
            if is_root {
                assert(texts_view(self.pending_root@) =~= Seq::<Seq<char>>::empty());
            }
        }
        let mut starting = true;
        let ghost first = selector@;
        let ghost mut done: Seq<char> = Seq::empty();
        loop
            invariant_except_break
                selector_rest(ts, b + 1, true) == match selector_rest(ts, tokens.pos() + 1, starting) {
                    Some(x) => Some(done + x),
                    None => None,
                },
            invariant
                self.wf(),
                self.same_but_output(old(self)),
                advanced(*old(tokens), *tokens),
                ts == tokens.toks(),
                token_at(ts, solid_from(ts, old(tokens).pos() + 1)) == Some("("@),
                token_at(ts, solid_from(ts, solid_from(ts, old(tokens).pos() + 1) + 1)) != Some(")"@),
                tokens.pos() >= b,
                is_root ==> self.pending_root@.len() == 0,
                !is_root ==> self.pending_root@ == old(self).pending_root@,
                buffer.rendered() == start + "sel_getUid(\""@ + first + done,
                selector_name(ts, old(tokens).pos()) == match selector_rest(ts, b + 1, true) {
                    Some(x) => Some(first + x),
                    None => None,
                },
            ensures
                selector_rest(ts, b + 1, true) == Some(done),
            decreases tokens.toks().len() - tokens.pos(),
        {
            proof {
                tokens.lemma_bounds();
            }
            let ghost k = tokens.pos() + 1;
            let token = match tokens.next() {
                Some(t) => t,
                None => break,
            };
            if text_is(&token, ")") {
                break;
            }
            if (starting && all_digits(&self.cls, &token)) || !selector_start_ok(&self.cls, &token) {
                if !has_nonspace(&self.cls, &token) {
                    let ghost q = tokens.pos();
                    let close = tokens.skip_ws();
                    proof {
                        tokens.lemma_bounds();
                        assert forall|j: int| q + 1 <= j < tokens.pos() implies ws_token(#[trigger] tokens.toks()[j]) by {
                            assert(q < j < tokens.pos());
                        }
                        lemma_solid_from(tokens.toks(), q + 1, tokens.pos());
                    }
                    if opt_is(&close, ")") {
                        break;
                    } else {
                        return self.fail("*** Unexpected whitespace in @selector().");
                    }
                } else {
                    return self.fail_with("*** Illegal character '", &token, "' in @selector().");
                }
            }
            self.emit(buffer, is_root, &token);
            proof {
                if is_root {
                    assert(texts_view(self.pending_root@) =~= Seq::<Seq<char>>::empty());
                }
                let ghost old_done = done;
                done = done + token@;
                assert(start + "sel_getUid(\""@ + first + old_done + token@ == start + "sel_getUid(\""@ + first + done);
                match selector_rest(ts, k + 1, token@ == ":"@) {
                    Some(x) => assert(old_done + (token@ + x) == done + x),
                    None => {},
                }
            }
            starting = text_is(&token, ":");
        }
        self.emit_lit(buffer, is_root, "\")");
        Ok(())
    }
}

/// The selector of a message (its labels joined) and its arguments (each
/// part after the receiver, preceded by `, `).
fn message_tail(parts: &Vec<StringBuffer>, labels: &Vec<Option<Vec<char>>>) -> (r: (StringBuffer, StringBuffer))
    requires
        parts.len() == labels.len(),
        parts.len() >= 1,
    ensures
        r.0.rendered() == labels_text(opt_texts(labels@)),
        r.1.rendered() == comma_led(parts@.map_values(|b: StringBuffer| b.rendered()).drop_first()),
{
    let ghost pv = parts@.map_values(|b: StringBuffer| b.rendered());
    let ghost lv = opt_texts(labels@);
    let mut selector = StringBuffer::new_buf();
    if let Some(l) = &labels[0] {
        selector.push_chars(l);
    }
    proof {
        assert(lv.take(1) =~= seq![lv[0]]);
        assert(labels_text(lv.take(1)) =~= labels_text(lv.take(1).drop_last()) + operand_text(lv[0]));
        assert(lv.take(1).drop_last() =~= Seq::<Option<Seq<char>>>::empty());
        assert(selector.rendered() =~= labels_text(lv.take(1)));
        assert(pv.drop_first().take(0) =~= Seq::<Seq<char>>::empty());
    }
    let mut marg_list = StringBuffer::new_buf();
    let mut index: usize = 1;
    while index < parts.len()
        invariant
            parts.len() == labels.len(),
            1 <= index <= parts.len(),
            pv == parts@.map_values(|b: StringBuffer| b.rendered()),
            lv == opt_texts(labels@),
            selector.rendered() == labels_text(lv.take(index as int)),
            marg_list.rendered() == comma_led(pv.drop_first().take(index - 1)),
        decreases parts.len() - index,
    {
        if let Some(l) = &labels[index] {
            selector.push_chars(l);
        }
        marg_list.push_chars(&lit(", "));
        marg_list.push_b(&parts[index]);
        proof {
            assert(lv.take(index + 1).drop_last() =~= lv.take(index as int));
            assert(pv.drop_first().take(index as int).drop_last() =~= pv.drop_first().take(index - 1));
            assert(pv.drop_first().take(index as int).last() == pv[index as int]);
        }
        index = index + 1;
    }
    proof {
        assert(lv.take(parts.len() as int) =~= lv);
        assert(pv.drop_first().take(parts.len() - 1) =~= pv.drop_first());
    }
    (selector, marg_list)
}

impl Preprocessor {
    /// Whether every enclosing conditional but the innermost is active.
    fn parent_active(&self) -> (b: bool)
        requires
            self.condition_stack.len() > 0,
        ensures
            b == self.enclosing_active(),
    {
        let n = self.condition_stack.len() - 1;
        let mut i: usize = 0;
        while i < n
            invariant
                i <= n < self.condition_stack.len(),
                n == self.condition_stack@.len() - 1,
                forall|k: int| 0 <= k < i ==> (#[trigger] self.condition_stack@[k]).active,
            decreases n - i,
        {
            if !self.condition_stack[i].active {
                return false;
            }
            i = i + 1;
        }
        true
    }

    /// Leaves an inactive branch: skips to the directive that ends it and,
    /// unless that is `#endif`, handles that directive.
    fn skip_inactive(&mut self, tokens: &mut Lexer) -> (r: R<()>)
        requires
            old(self).wf(),
            old(tokens).wf(),
        ensures
            final(self).classes == old(self).classes,
            r matches Err(e) ==> error_in_file(e@, old(self).url@),
            final(self).url == old(self).url,
            final(self).wf(),
            final(tokens).wf(),
            final(tokens).toks() == old(tokens).toks(),
            r is Ok ==> advanced(*old(tokens), *final(tokens)),
            old(self).output_active() ==> (r is Ok && *final(self) == *old(self) && *final(tokens) == *old(tokens)),
            // An inactive branch is skipped up to the directive that ends it.
            !old(self).output_active() && close_from(old(tokens).toks(), old(tokens).pos() + 1, 1) is None ==> r is Err,
            !old(self).output_active() && r is Ok ==> close_from(old(tokens).toks(), old(tokens).pos() + 1, 1) is Some,
            !old(self).output_active() ==> match close_from(old(tokens).toks(), old(tokens).pos() + 1, 1) {
                Some(h) => (directive_name(old(tokens).toks(), h) == "endif"@ ==> (r is Ok
                    && final(tokens).pos() == h - 1 && *final(self) == *old(self)))
                    // An `#else` whose conditional has had no true branch opens its own.
                    && (directive_name(old(tokens).toks(), h) == "else"@ && old(self).else_opens() ==> (r is Ok
                    && final(self).condition_stack@ == old(self).condition_stack@.drop_last().push(Condition { active: true, has_been_true: true, in_else: true })
                    && *final(self) == (Preprocessor { condition_stack: final(self).condition_stack, ..*old(self) })
                    && final(tokens).pos() == line_end_from(old(tokens).toks(), h + 2)))
                    // So does an `#elif` whose condition holds.
                    && (directive_name(old(tokens).toks(), h) == "elif"@ && old(self).else_opens()
                        && old(self).condition_holds(trimmed(line_text(old(tokens).toks(), h + 2))) ==> (r is Ok
                    && final(self).condition_stack@ == old(self).condition_stack@.drop_last().push(Condition { active: true, has_been_true: true, in_else: false })
                    && *final(self) == (Preprocessor { condition_stack: final(self).condition_stack, ..*old(self) })
                    && final(tokens).pos() == line_end_from(old(tokens).toks(), h + 2))),
                None => true,
            },
        decreases old(tokens).toks().len() - old(tokens).pos(), 0int,
    {
        if self.is_output_active() {
            return Ok(());
        }
        let found = self.skip_to_next_directive(tokens)?;
        proof {
            lemma_directive_names();
            assert(directive_name(old(tokens).toks(), tokens.pos() + 1) == found@);
        }
        if !text_is(&found, "endif") {
            let ghost h = tokens.pos() + 1;
            tokens.next();
            proof {
                tokens.lemma_bounds();
                old(tokens).lemma_bounds();
                assert(tokens.pos() == h);
                assert(directive_name(tokens.toks(), h) == found@);
            }
            let ghost mid = *self;
            self.hash(tokens)?;
            proof {
                let hh = close_from(old(tokens).toks(), old(tokens).pos() + 1, 1).unwrap();
                assert(hh == h);
                if directive_name(old(tokens).toks(), hh) == "else"@ && old(self).else_opens() {
                    assert(mid == *old(self));
                    assert(self.condition_stack@ == old(self).condition_stack@.drop_last().push(Condition { active: true, has_been_true: true, in_else: true }));
                }
                if directive_name(old(tokens).toks(), hh) == "elif"@ && old(self).else_opens() {
                    assert(mid == *old(self));
                }
            }
        }
        Ok(())
    }

    /// An `#elif`, whose keyword is the current token: its branch is taken
    /// when no branch of its conditional was taken and its condition holds;
    /// otherwise it is skipped.
    fn elif_directive(&mut self, tokens: &mut Lexer) -> (r: R<()>)
        requires
            old(self).wf(),
            old(tokens).wf(),
        ensures
            final(self).classes == old(self).classes,
            r matches Err(e) ==> error_in_file(e@, old(self).url@),
            final(self).url == old(self).url,
            final(self).wf(),
            final(tokens).wf(),
            final(tokens).toks() == old(tokens).toks(),
            r is Ok ==> advanced(*old(tokens), *final(tokens)),
            old(self).condition_stack@.len() == 0 ==> (r matches Err(e)
                && e@ == old(self).error_text("*** #"@ + "elif"@ + " without matching #if"@)),
            old(self).condition_stack@.len() > 0 && old(self).condition_stack@.last().in_else ==> (r matches Err(e)
                && e@ == old(self).error_text("*** #elif after #else"@)),
            old(self).else_opens() && old(self).condition_holds(trimmed(line_text(old(tokens).toks(), old(tokens).pos() + 1))) ==> (r is Ok
                && final(tokens).pos() == line_end_from(old(tokens).toks(), old(tokens).pos() + 1)
                && final(self).condition_stack@ == old(self).condition_stack@.drop_last().push(Condition { active: true, has_been_true: true, in_else: false })
                && *final(self) == (Preprocessor { condition_stack: final(self).condition_stack, ..*old(self) })),
            // Otherwise its branch is skipped.
            old(self).condition_stack@.len() > 0 && !old(self).condition_stack@.last().in_else
                && !(old(self).else_opens() && old(self).condition_holds(trimmed(line_text(old(tokens).toks(), old(tokens).pos() + 1)))) ==>
                match close_from(old(tokens).toks(), line_end_from(old(tokens).toks(), old(tokens).pos() + 1) + 1, 1) {
                    None => r is Err,
                    Some(h) => directive_name(old(tokens).toks(), h) == "endif"@ ==> (r is Ok
                        && final(tokens).pos() == h - 1
                        && final(self).condition_stack@ == old(self).condition_stack@.drop_last().push(Condition {
                            active: false, has_been_true: old(self).condition_stack@.last().has_been_true, in_else: false })
                        && *final(self) == (Preprocessor { condition_stack: final(self).condition_stack, ..*old(self) })),
                },
        decreases old(tokens).toks().len() - old(tokens).pos(), 1int,
    {
        if self.condition_stack.len() == 0 {
            proof {
                reveal_strlit("*** #elif without matching #if");
                reveal_strlit("*** #");
                reveal_strlit(" without matching #if");
                reveal_strlit("elif");
                assert("*** #elif without matching #if"@ =~= "*** #"@ + "elif"@ + " without matching #if"@);
            }
            return self.fail("*** #elif without matching #if");
        }
        if self.condition_stack[self.condition_stack.len() - 1].in_else {
            return self.fail("*** #elif after #else");
        }
        let condition = self.evaluate_condition(tokens);
        let parent_active = self.parent_active();
        let n = self.condition_stack.len() - 1;
        let had = self.condition_stack[n].has_been_true;
        let in_else = self.condition_stack[n].in_else;
        let active = parent_active && condition && !had;
        let ghost before = self.condition_stack@;
        self.condition_stack.set(n, Condition { active, has_been_true: had || active, in_else });
        proof {
            tokens.lemma_bounds();
            if !active {
                assert(!self.condition_stack@[n as int].active);
                assert(self.condition_stack@ =~= before.drop_last().push(Condition { active: false, has_been_true: had, in_else: false }));
            }
            if active {
                assert forall|k: int| 0 <= k < self.condition_stack@.len() implies (#[trigger] self.condition_stack@[k]).active by {
                    if k < n {
                        assert(self.condition_stack@[k] == before[k]);
                    }
                }
                assert(self.condition_stack@ =~= before.drop_last().push(Condition { active: true, has_been_true: true, in_else: false }));
            }
        }
        self.skip_inactive(tokens)?;
        Ok(())
    }

    /// A `#define`, whose keyword is the current token: a macro, or a
    /// function-like macro when `(` follows its name, whose value is the rest
    /// of the line.
    fn define_directive(&mut self, tokens: &mut Lexer) -> (r: R<()>)
        requires
            old(self).wf(),
            old(tokens).wf(),
        ensures
            final(self).classes == old(self).classes,
            r matches Err(e) ==> error_in_file(e@, old(self).url@),
            final(self).url == old(self).url,
            final(self).wf(),
            final(tokens).wf(),
            final(tokens).toks() == old(tokens).toks(),
            r is Ok ==> advanced(*old(tokens), *final(tokens)),
            ({
                let ts = old(tokens).toks();
                let n = solid_from(ts, old(tokens).pos() + 1);
                let name = operand_text(token_at(ts, n));
                let function_like = token_at(ts, n + 1) == Some("("@);
                let ps = macro_params(ts, n + 2, Seq::empty());
                &&& !identifier_token(name) ==> (r matches Err(e)
                    && e@ == old(self).error_text("*** Invalid macro name: "@ + name))
                &&& identifier_token(name) && function_like && (ps matches Err(None)) ==> (r matches Err(e)
                    && e@ == old(self).error_text("*** Unterminated macro parameter list"@))
                &&& identifier_token(name) && function_like && ps is Err && ps->Err_0 is Some ==> (r matches Err(e)
                    && e@ == old(self).error_text("*** Invalid macro parameter: "@ + ps->Err_0->0))
                &&& identifier_token(name) && !(function_like && ps is Err) ==> (r is Ok
                    && final(self).define_effect(*old(self), ts, old(tokens).pos())
                    && final(tokens).pos() == define_stop(ts, define_value_start(ts, n), Seq::empty(), false))
            }),
    {
        proof {
            old(tokens).lemma_bounds();
            reveal_strlit("");
        }
        let ghost ts = old(tokens).toks();
        let ghost p1 = tokens.pos();
        let name_tok = tokens.skip_ws();
        proof {
            tokens.lemma_bounds();
            assert forall|k: int| p1 + 1 <= k < tokens.pos() implies ws_token(#[trigger] tokens.toks()[k]) by {
                assert(p1 < k < tokens.pos());
            }
            lemma_solid_from(tokens.toks(), p1 + 1, tokens.pos());
        }
        let name = or_empty(name_tok);
        let ghost n = tokens.pos();
        proof {
            assert(name@ == operand_text(token_at(ts, n)));
            assert("*** Invalid macro name: "@ + name@ + ""@ =~= "*** Invalid macro name: "@ + name@);
        }
        if !is_identifier(&self.cls, &name) {
            return self.fail_with("*** Invalid macro name: ", &name, "");
        }
        proof {
            assert(n < ts.len());
        }
        let mut next_token = tokens.next();
        let mut is_function_macro = false;
        let mut params: Vec<Vec<char>> = Vec::new();
        let ghost total_ps = macro_params(ts, n + 2, Seq::empty());
        if opt_is(&next_token, "(") {
            is_function_macro = true;
            proof {
                assert(tokens.pos() == n + 1);
                assert(texts_view(params@) =~= Seq::<Seq<char>>::empty());
            }
            loop
                invariant_except_break
                    macro_params(ts, tokens.pos() + 1, texts_view(params@)) == total_ps,
                invariant
                    self.wf(),
                    *self == *old(self),
                    advanced(*old(tokens), *tokens),
                    ts == tokens.toks(),
                    tokens.pos() >= n + 1,
                    total_ps == macro_params(ts, n + 2, Seq::empty()),
                    identifier_token(name@),
                    name@ == operand_text(token_at(ts, n)),
                    token_at(ts, n + 1) == Some("("@),
                    ts == old(tokens).toks(),
                    n == solid_from(ts, old(tokens).pos() + 1),
                ensures
                    total_ps == Ok::<(Seq<Seq<char>>, int), Option<Seq<char>>>((texts_view(params@), tokens.pos())),
                    tokens.pos() < ts.len(),
                decreases tokens.toks().len() - tokens.pos(),
            {
                proof {
                    tokens.lemma_bounds();
                }
                let ghost pp = tokens.pos();
                let param_token = tokens.skip_ws();
                proof {
                    tokens.lemma_bounds();
                    assert forall|k: int| pp + 1 <= k < tokens.pos() implies ws_token(#[trigger] tokens.toks()[k]) by {
                        assert(pp < k < tokens.pos());
                    }
                    lemma_solid_from(tokens.toks(), pp + 1, tokens.pos());
                }
                match param_token {
                    None => {
                        return self.fail("*** Unterminated macro parameter list");
                    },
                    Some(pt) => {
                        proof {
                            reveal_strlit("");
                            assert("*** Invalid macro parameter: "@ + pt@ + ""@ =~= "*** Invalid macro parameter: "@ + pt@);
                            assert(pt@ == ts[tokens.pos()]);
                        }
                        if text_is(&pt, ")") {
                            break;
                        } else if is_identifier(&self.cls, &pt) {
                            let ghost before = texts_view(params@);
                            proof {
                                assert(pt@ == ts[tokens.pos()]);
                            }
                            params.push(pt);
                            proof {
                                assert(texts_view(params@) =~= before.push(ts[tokens.pos()]));
                            }
                        } else if text_is(&pt, ",") {
                        } else {
                            return self.fail_with("*** Invalid macro parameter: ", &pt, "");
                        }
                    },
                }
            }
            next_token = tokens.next();
        }
        // The value runs to the end of the line; a trailing backslash
        // continues it on the next line.
        let mut value_parts: Vec<Vec<char>> = Vec::new();
        let ghost k0 = tokens.pos();
        let ghost total = define_parts(ts, tokens.pos(), Seq::empty(), false);
        let ghost total_stop = define_stop(ts, tokens.pos(), Seq::empty(), false);
        proof {
            tokens.lemma_bounds();
            assert(k0 == define_value_start(ts, n));
            assert(texts_view(value_parts@) =~= Seq::<Seq<char>>::empty());
            reveal_strlit("\\");
            reveal_strlit(" ");
        }
        loop
            invariant_except_break
                total == define_parts(ts, tokens.pos(), texts_view(value_parts@), false),
                total_stop == define_stop(ts, tokens.pos(), texts_view(value_parts@), false),
            invariant
                self.wf(),
                *self == *old(self),
                advanced(*old(tokens), *tokens),
                opt_text(next_token) == token_at(tokens.toks(), tokens.pos()),
                ts == tokens.toks(),
                tokens.pos() >= 0,
                tokens.pos() <= ts.len(),
            ensures
                total == texts_view(value_parts@),
                total_stop == tokens.pos(),
            decreases tokens.toks().len() - tokens.pos(),
        {
            proof {
                tokens.lemma_bounds();
            }
            let ghost line_start = tokens.pos();
            let mut extended = false;
            loop
                invariant
                    self.wf(),
                    *self == *old(self),
                    advanced(*old(tokens), *tokens),
                    tokens.pos() >= line_start,
                    extended ==> tokens.pos() > line_start,
                    opt_text(next_token) == token_at(tokens.toks(), tokens.pos()),
                    ts == tokens.toks(),
                    tokens.pos() >= 0,
                    tokens.pos() <= ts.len(),
                    total == define_parts(ts, tokens.pos(), texts_view(value_parts@), extended),
                    total_stop == define_stop(ts, tokens.pos(), texts_view(value_parts@), extended),
                    extended ==> value_parts@.len() > 0,
                ensures
                    next_token is None || next_token.unwrap()@.contains('\n'),
                decreases tokens.toks().len() - tokens.pos(),
            {
                proof {
                    tokens.lemma_bounds();
                }
                match &next_token {
                    Some(t) => {
                        if has_newline(t) {
                            break;
                        }
                        if !is_whitespace_tok(&self.cls, t) || value_parts.len() > 0 {
                            let ghost before = value_parts@;
                            value_parts.push(copy_text(t));
                            extended = true;
                            proof {
                                assert(texts_view(value_parts@) =~= texts_view(before).push(t@));
                            }
                        }
                    },
                    None => {
                        break;
                    },
                }
                next_token = tokens.next();
                proof {
                    tokens.lemma_bounds();
                }
            }
            let continued = extended && value_parts.len() > 0 && text_is(&value_parts[value_parts.len() - 1], "\\");
            proof {
                if value_parts@.len() > 0 {
                    assert(texts_view(value_parts@).last() == value_parts@.last()@);
                }
            }
            if continued {
                let ghost before = value_parts@;
                value_parts.pop();
                value_parts.push(lit(" "));
                proof {
                    assert(texts_view(value_parts@) =~= texts_view(before).drop_last().push(" "@));
                }
                next_token = tokens.next();
                proof {
                    tokens.lemma_bounds();
                }
            } else {
                break;
            }
        }
        let value = trim_space(&self.cls, &join_all(&value_parts));
        proof {
            assert(value@ == define_value(ts, k0));
        }
        if self.is_output_active() {
            let ghost v = value@;
            let ghost ps = texts_view(params@);
            let ghost func = is_function_macro;
            if is_function_macro {
                self.define_macro(&name, Macro::Func(params, value));
            } else if value.len() == 0 {
                self.define_macro(&name, Macro::Flag(true));
            } else {
                self.define_macro(&name, Macro::Text(value));
            }
            proof {
                let i = choose|i: int| #![trigger self.defines@[i]] self.define_at(name@, i)
                    && (old(self).has_define(name@) ==> old(self).define_at(name@, i))
                    && (!old(self).has_define(name@) ==> i == old(self).defines@.len())
                    && self.defines@.len() == (if old(self).has_define(name@) { old(self).defines@.len() } else { old(self).defines@.len() + 1 })
                    && forall|j: int| 0 <= j < old(self).defines@.len() && j != i ==> #[trigger] self.defines@[j] == old(self).defines@[j];
                assert(self.define_at(name@, i));
                assert(defined_value_is(self.defines@[i].1, ts, n));
            }
        }
        Ok(())
    }

    /// A `#` directive: `#pragma mark`, `#define`, `#undef`, `#if`,
    /// `#ifdef`, `#ifndef`, `#elif`, `#else` and `#endif`.
    #[verifier::rlimit(80)]
    #[verifier::spinoff_prover]
    fn hash(&mut self, tokens: &mut Lexer) -> (r: R<()>)
        requires
            old(self).wf(),
            old(tokens).wf(),
        ensures
            final(self).classes == old(self).classes,
            r matches Err(e) ==> error_in_file(e@, old(self).url@),
            final(self).url == old(self).url,
            final(self).wf(),
            final(tokens).wf(),
            final(tokens).toks() == old(tokens).toks(),
            r is Ok ==> advanced(*old(tokens), *final(tokens)),
            ({
                let d = directive_name(old(tokens).toks(), old(tokens).pos());
                let operand = directive_operand(old(tokens).toks(), old(tokens).pos());
                &&& (d == "define"@ || d == "undef"@) && !(operand matches Some(n) && identifier_token(n)) ==> r is Err
                &&& d == "undef"@ && (operand matches Some(n) && identifier_token(n)) ==> r is Ok
                &&& d == "undef"@ && r is Ok ==>
                    *final(self) == (Preprocessor { defines: final(self).defines, ..*old(self) })
                &&& d == "undef"@ && !old(self).output_active() ==> final(self).defines == old(self).defines
                // `#undef` removes the first definition of its name and no other.
                &&& d == "undef"@ && r is Ok && old(self).output_active() ==>
                    (!old(self).has_define(operand_text(operand)) ==> final(self).defines@ == old(self).defines@)
                    && (old(self).has_define(operand_text(operand)) ==> exists|i: int| old(self).define_at(operand_text(operand), i)
                        && final(self).defines@ == old(self).defines@.remove(i))
                &&& d == "undef"@ && !identifier_token(operand_text(operand)) ==> (r matches Err(e)
                    && e@ == old(self).error_text("*** Invalid macro name: "@ + operand_text(operand)))
                // A `#define` gives its name the macro it defines, leaving the
                // others alone; reading stops at the end of its value.
                &&& d == "define"@ && r is Ok ==> final(self).define_effect(*old(self), old(tokens).toks(), old(tokens).pos() + 1)
                    && final(tokens).pos() == define_stop(old(tokens).toks(),
                        define_value_start(old(tokens).toks(), solid_from(old(tokens).toks(), old(tokens).pos() + 2)), Seq::empty(), false)
                &&& d == "define"@ ==> ({
                    let ts = old(tokens).toks();
                    let n = solid_from(ts, old(tokens).pos() + 2);
                    let name = operand_text(token_at(ts, n));
                    let ps = macro_params(ts, n + 2, Seq::empty());
                    let function_like = token_at(ts, n + 1) == Some("("@);
                    &&& !identifier_token(name) ==> (r matches Err(e)
                        && e@ == old(self).error_text("*** Invalid macro name: "@ + name))
                    &&& identifier_token(name) && function_like && (ps matches Err(None)) ==> (r matches Err(e)
                        && e@ == old(self).error_text("*** Unterminated macro parameter list"@))
                    &&& identifier_token(name) && function_like && ps is Err && ps->Err_0 is Some ==> (r matches Err(e)
                        && e@ == old(self).error_text("*** Invalid macro parameter: "@ + ps->Err_0->0))
                    &&& identifier_token(name) && !(function_like && ps is Err) ==> r is Ok
                })
                &&& d == "undef"@ && r is Ok && old(self).output_active() ==>
                    (operand matches Some(n) && !final(self).has_define(n))
                &&& d == "if"@ && old(self).output_active()
                    && old(self).condition_holds(trimmed(line_text(old(tokens).toks(), old(tokens).pos() + 2))) ==> (r is Ok
                    && final(self).condition_stack@ == old(self).condition_stack@.push(Condition { active: true, has_been_true: true, in_else: false })
                    && *final(self) == (Preprocessor { condition_stack: final(self).condition_stack, ..*old(self) }))
                // A false `#if` skips to the directive that ends its branch.
                &&& d == "if"@ && old(self).output_active()
                    && !old(self).condition_holds(trimmed(line_text(old(tokens).toks(), old(tokens).pos() + 2))) ==>
                    match close_from(old(tokens).toks(), line_end_from(old(tokens).toks(), old(tokens).pos() + 2) + 1, 1) {
                        None => r is Err,
                        Some(h) => (directive_name(old(tokens).toks(), h) == "endif"@ ==> (r is Ok
                            && final(tokens).pos() == h - 1
                            && final(self).condition_stack@ == old(self).condition_stack@.push(Condition { active: false, has_been_true: false, in_else: false })
                            && *final(self) == (Preprocessor { condition_stack: final(self).condition_stack, ..*old(self) })))
                            && (directive_name(old(tokens).toks(), h) == "else"@ ==> (r is Ok
                            && final(tokens).pos() == line_end_from(old(tokens).toks(), h + 2)
                            && final(self).condition_stack@ == old(self).condition_stack@.push(Condition { active: true, has_been_true: true, in_else: true })
                            && *final(self) == (Preprocessor { condition_stack: final(self).condition_stack, ..*old(self) })))
                            && (directive_name(old(tokens).toks(), h) == "elif"@
                                && old(self).condition_holds(trimmed(line_text(old(tokens).toks(), h + 2))) ==> (r is Ok
                            && final(tokens).pos() == line_end_from(old(tokens).toks(), h + 2)
                            && final(self).condition_stack@ == old(self).condition_stack@.push(Condition { active: true, has_been_true: true, in_else: false })
                            && *final(self) == (Preprocessor { condition_stack: final(self).condition_stack, ..*old(self) }))),
                    }
                &&& d == "elif"@ && old(self).else_opens()
                    && old(self).condition_holds(trimmed(line_text(old(tokens).toks(), old(tokens).pos() + 2))) ==> (r is Ok
                    && final(tokens).pos() == line_end_from(old(tokens).toks(), old(tokens).pos() + 2)
                    && final(self).condition_stack@ == old(self).condition_stack@.drop_last().push(Condition { active: true, has_been_true: true, in_else: false })
                    && *final(self) == (Preprocessor { condition_stack: final(self).condition_stack, ..*old(self) }))
                &&& d == "elif"@ && old(self).condition_stack@.len() > 0 && !old(self).condition_stack@.last().in_else
                    && !(old(self).else_opens() && old(self).condition_holds(trimmed(line_text(old(tokens).toks(), old(tokens).pos() + 2)))) ==>
                    match close_from(old(tokens).toks(), line_end_from(old(tokens).toks(), old(tokens).pos() + 2) + 1, 1) {
                        None => r is Err,
                        Some(h) => directive_name(old(tokens).toks(), h) == "endif"@ ==> (r is Ok
                            && final(tokens).pos() == h - 1
                            && final(self).condition_stack@ == old(self).condition_stack@.drop_last().push(Condition {
                                active: false, has_been_true: old(self).condition_stack@.last().has_been_true, in_else: false })
                            && *final(self) == (Preprocessor { condition_stack: final(self).condition_stack, ..*old(self) })),
                    }
                &&& d == "else"@ && old(self).condition_stack@.len() > 0 && !old(self).condition_stack@.last().in_else
                    && !old(self).else_opens() ==>
                    match close_from(old(tokens).toks(), line_end_from(old(tokens).toks(), old(tokens).pos() + 2) + 1, 1) {
                        None => r is Err,
                        Some(h) => directive_name(old(tokens).toks(), h) == "endif"@ ==> (r is Ok
                            && final(tokens).pos() == h - 1
                            && final(self).condition_stack@ == old(self).condition_stack@.drop_last().push(Condition {
                                active: false, has_been_true: old(self).condition_stack@.last().has_been_true, in_else: true })
                            && *final(self) == (Preprocessor { condition_stack: final(self).condition_stack, ..*old(self) })),
                    }
                &&& d == "else"@ && old(self).else_opens() ==> (r is Ok
                    && final(tokens).pos() == line_end_from(old(tokens).toks(), old(tokens).pos() + 2)
                    && final(self).condition_stack@ == old(self).condition_stack@.drop_last().push(Condition { active: true, has_been_true: true, in_else: true })
                    && *final(self) == (Preprocessor { condition_stack: final(self).condition_stack, ..*old(self) }))
                // An `#ifdef` or `#ifndef` that fails skips its branch in the same way.
                &&& (d == "ifdef"@ || d == "ifndef"@) && old(self).output_active()
                    && !(d == "ifdef"@ <==> old(self).has_define(operand_text(operand))) ==>
                    match close_from(old(tokens).toks(),
                        line_end_from(old(tokens).toks(), solid_from(old(tokens).toks(), old(tokens).pos() + 2) + 1) + 1, 1) {
                        None => r is Err,
                        Some(h) => (directive_name(old(tokens).toks(), h) == "endif"@ ==> (r is Ok
                            && final(tokens).pos() == h - 1
                            && final(self).condition_stack@ == old(self).condition_stack@.push(Condition { active: false, has_been_true: false, in_else: false })
                            && *final(self) == (Preprocessor { condition_stack: final(self).condition_stack, ..*old(self) })))
                            && (directive_name(old(tokens).toks(), h) == "else"@ ==> (r is Ok
                            && final(tokens).pos() == line_end_from(old(tokens).toks(), h + 2)
                            && final(self).condition_stack@ == old(self).condition_stack@.push(Condition { active: true, has_been_true: true, in_else: true })
                            && *final(self) == (Preprocessor { condition_stack: final(self).condition_stack, ..*old(self) })))
                            && (directive_name(old(tokens).toks(), h) == "elif"@
                                && old(self).condition_holds(trimmed(line_text(old(tokens).toks(), h + 2))) ==> (r is Ok
                            && final(tokens).pos() == line_end_from(old(tokens).toks(), h + 2)
                            && final(self).condition_stack@ == old(self).condition_stack@.push(Condition { active: true, has_been_true: true, in_else: false })
                            && *final(self) == (Preprocessor { condition_stack: final(self).condition_stack, ..*old(self) }))),
                    }
                &&& (d == "ifdef"@ || d == "ifndef"@) && old(self).output_active()
                    && (d == "ifdef"@ <==> old(self).has_define(operand_text(operand))) ==> (r is Ok
                    && final(tokens).pos() == line_end_from(old(tokens).toks(), solid_from(old(tokens).toks(), old(tokens).pos() + 2) + 1)
                    && final(self).condition_stack@ == old(self).condition_stack@.push(Condition { active: true, has_been_true: true, in_else: false })
                    && *final(self) == (Preprocessor { condition_stack: final(self).condition_stack, ..*old(self) }))
                &&& !known_directive(d) ==> (r matches Err(e)
                    && e@ == old(self).error_text("*** Unknown preprocessor directive: #"@ + d))
                &&& (d == "elif"@ || d == "else"@ || d == "endif"@) && old(self).condition_stack@.len() == 0 ==> (r matches Err(e)
                    && e@ == old(self).error_text("*** #"@ + d + " without matching #if"@))
                &&& d == "elif"@ && old(self).condition_stack@.len() > 0 && old(self).condition_stack@.last().in_else ==> (r matches Err(e)
                    && e@ == old(self).error_text("*** #elif after #else"@))
                &&& d == "else"@ && old(self).condition_stack@.len() > 0 && old(self).condition_stack@.last().in_else ==> (r matches Err(e)
                    && e@ == old(self).error_text("*** Duplicate #else"@))
                &&& d == "endif"@ && old(self).condition_stack@.len() > 0 ==> (r is Ok
                    && final(self).condition_stack@ == old(self).condition_stack@.drop_last()
                    && *final(self) == (Preprocessor { condition_stack: final(self).condition_stack, ..*old(self) }))
            }),
        decreases old(tokens).toks().len() - old(tokens).pos(), 2int,
    {
        proof {
            old(tokens).lemma_bounds();
            lemma_directive_names();
        }
        let token = or_empty(tokens.next());
        let ghost dname = directive_name(old(tokens).toks(), old(tokens).pos());
        assert(token@ == dname);
        if text_is(&token, "pragma") {
            let t = or_empty(tokens.skip_ws());
            if text_is(&t, "mark") {
                Self::skip_line(tokens);
            }
        } else if text_is(&token, "define") {
            proof {
                tokens.lemma_bounds();
            }
            self.define_directive(tokens)?;
        } else if text_is(&token, "undef") {
            let ghost p1 = tokens.pos();
            proof {
                tokens.lemma_bounds();
            }
            let name_tok = tokens.skip_ws();
            proof {
                tokens.lemma_bounds();
                assert forall|k: int| p1 + 1 <= k < tokens.pos() implies ws_token(#[trigger] tokens.toks()[k]) by {
                    assert(p1 < k < tokens.pos());
                }
                lemma_solid_from(tokens.toks(), p1 + 1, tokens.pos());
            }
            let name = or_empty(name_tok);
            proof {
                reveal_strlit("");
                assert("*** Invalid macro name: "@ + name@ + ""@ =~= "*** Invalid macro name: "@ + name@);
            }
            if !is_identifier(&self.cls, &name) {
                return self.fail_with("*** Invalid macro name: ", &name, "");
            }
            Self::skip_line(tokens);
            if self.is_output_active() {
                self.undefine_macro(&name);
            }
        } else if text_is(&token, "if") {
            let condition = self.evaluate_condition(tokens);
            let parent_active = self.is_output_active();
            let ghost before = self.condition_stack@;
            self.condition_stack.push(Condition { active: parent_active && condition, has_been_true: condition, in_else: false });
            proof {
                tokens.lemma_bounds();
                assert forall|x: Seq<char>| self.condition_holds(x) == old(self).condition_holds(x) by {
                    Preprocessor::lemma_condition_frame(*self, *old(self), x);
                }
                if parent_active && !condition {
                    let last = self.condition_stack@.len() - 1;
                    assert(!self.condition_stack@[last].active);
                    assert forall|k: int| 0 <= k < self.condition_stack@.len() - 1 implies (#[trigger] self.condition_stack@[k]).active by {
                        assert(self.condition_stack@[k] == before[k]);
                    }
                    assert(self.else_opens());
                    assert(self.condition_stack@.drop_last() =~= before);
                }
                if parent_active && condition {
                    assert forall|k: int| 0 <= k < self.condition_stack@.len() implies (#[trigger] self.condition_stack@[k]).active by {
                        if k < before.len() {
                            assert(self.condition_stack@[k] == before[k]);
                        }
                    }
                }
            }
            self.skip_inactive(tokens)?;
        } else if text_is(&token, "ifdef") || text_is(&token, "ifndef") {
            let ghost p1 = tokens.pos();
            proof {
                tokens.lemma_bounds();
            }
            let name_tok = tokens.skip_ws();
            proof {
                tokens.lemma_bounds();
                assert forall|k: int| p1 + 1 <= k < tokens.pos() implies ws_token(#[trigger] tokens.toks()[k]) by {
                    assert(p1 < k < tokens.pos());
                }
                lemma_solid_from(tokens.toks(), p1 + 1, tokens.pos());
            }
            let name = or_empty(name_tok);
            Self::skip_line(tokens);
            let defined = self.is_defined(&name);
            let condition = if text_is(&token, "ifdef") { defined } else { !defined };
            let parent_active = self.is_output_active();
            let ghost before = self.condition_stack@;
            self.condition_stack.push(Condition { active: parent_active && condition, has_been_true: condition, in_else: false });
            proof {
                tokens.lemma_bounds();
                if parent_active && condition {
                    assert forall|k: int| 0 <= k < self.condition_stack@.len() implies (#[trigger] self.condition_stack@[k]).active by {
                        if k < before.len() {
                            assert(self.condition_stack@[k] == before[k]);
                        }
                    }
                }
                if parent_active && !condition {
                    let last = self.condition_stack@.len() - 1;
                    assert(!self.condition_stack@[last].active);
                    assert forall|k: int| 0 <= k < self.condition_stack@.len() - 1 implies (#[trigger] self.condition_stack@[k]).active by {
                        assert(self.condition_stack@[k] == before[k]);
                    }
                    assert(self.else_opens());
                    assert(self.condition_stack@.drop_last() =~= before);
                }
                assert forall|x: Seq<char>| self.condition_holds(x) == old(self).condition_holds(x) by {
                    Preprocessor::lemma_condition_frame(*self, *old(self), x);
                }
            }
            self.skip_inactive(tokens)?;
        } else if text_is(&token, "elif") {
            proof {
                tokens.lemma_bounds();
            }
            self.elif_directive(tokens)?;
        } else if text_is(&token, "else") {
            Self::skip_line(tokens);
            if self.condition_stack.len() == 0 {
                proof {
                    reveal_strlit("*** #else without matching #if");
                    reveal_strlit("*** #");
                    reveal_strlit(" without matching #if");
                    reveal_strlit("else");
                    assert("*** #else without matching #if"@ =~= "*** #"@ + "else"@ + " without matching #if"@);
                }
                return self.fail("*** #else without matching #if");
            }
            if self.condition_stack[self.condition_stack.len() - 1].in_else {
                return self.fail("*** Duplicate #else");
            }
            let parent_active = self.parent_active();
            let n = self.condition_stack.len() - 1;
            let had = self.condition_stack[n].has_been_true;
            let active = parent_active && !had;
            let ghost before = self.condition_stack@;
            self.condition_stack.set(n, Condition { active, has_been_true: had || active, in_else: true });
            proof {
                tokens.lemma_bounds();
                if !active {
                    assert(!self.condition_stack@[n as int].active);
                    assert(self.condition_stack@ =~= before.drop_last().push(Condition { active: false, has_been_true: had, in_else: true }));
                }
                if active {
                    assert forall|k: int| 0 <= k < self.condition_stack@.len() implies (#[trigger] self.condition_stack@[k]).active by {
                        if k < n {
                            assert(self.condition_stack@[k] == before[k]);
                        }
                    }
                    assert(self.condition_stack@ =~= before.drop_last().push(Condition { active: true, has_been_true: true, in_else: true }));
                }
            }
            self.skip_inactive(tokens)?;
        } else if text_is(&token, "endif") {
            Self::skip_line(tokens);
            if self.condition_stack.len() == 0 {
                proof {
                    reveal_strlit("*** #endif without matching #if");
                    reveal_strlit("*** #");
                    reveal_strlit(" without matching #if");
                    reveal_strlit("endif");
                    assert("*** #endif without matching #if"@ =~= "*** #"@ + "endif"@ + " without matching #if"@);
                }
                return self.fail("*** #endif without matching #if");
            }
            self.condition_stack.pop();
            proof {
                assert(*self == (Preprocessor { condition_stack: self.condition_stack, ..*old(self) }));
            }
        } else {
            proof {
                reveal_strlit("");
                assert(token@ + ""@ =~= token@);
            }
            return self.fail_with("*** Unknown preprocessor directive: #", &token, "");
        }
        proof {
            assert(dname == "endif"@ ==> *self == (Preprocessor { condition_stack: self.condition_stack, ..*old(self) }));
        }
        Ok(())
    }
}

impl Preprocessor {
    /// An `@` directive: a string literal, `@class`, `@implementation`,
    /// `@import` or `@selector`. Code made up for accessors (`synthetic`)
    /// may not open a class.
    fn directive(&mut self, tokens: &mut Lexer, buffer: &mut StringBuffer, is_root: bool, synthetic: bool) -> (r: R<()>)
        requires
            old(self).wf(),
            old(tokens).wf(),
            old(tokens).saved().len() == 0,
        ensures
            final(self).classes_extend(old(self)),
            r matches Err(e) ==> error_in_file(e@, old(self).url@),
            final(self).url == old(self).url,
            final(self).wf(),
            final(tokens).wf(),
            final(tokens).toks() == old(tokens).toks(),
            r is Ok ==> advanced(*old(tokens), *final(tokens)),
            ({
                let ts = old(tokens).toks();
                let p = old(tokens).pos();
                let d = directive_name(ts, p);
                let pre = if is_root { concat(texts_view(old(self).pending_root@)) } else { Seq::<char>::empty() };
                let n = operand_text(token_at(ts, solid_from(ts, p + 2)));
                // A string literal is copied.
                &&& d.len() > 0 && d[0] == '"' ==> (r is Ok && final(buffer).rendered() == old(buffer).rendered() + pre + d)
                // `@class Name` is dropped.
                &&& d == "class"@ ==> (r is Ok && final(tokens).pos() == solid_from(ts, p + 2) && *final(self) == *old(self)
                    && final(buffer).rendered() == old(buffer).rendered())
                &&& d == "implementation"@ && synthetic ==> r is Err
                &&& d == "implementation"@ && !(n.len() > 0 && word_char(n[0])) ==> r is Err
                &&& d == "import"@ ==> (r is Ok <==> import_target(ts, p + 1) is Some)
                &&& d == "import"@ && r is Ok ==> (final(tokens).pos() == import_end(ts, p + 1)
                    && final(buffer).rendered() == old(buffer).rendered()
                    && *final(self) == (Preprocessor { pending_root: final(self).pending_root, dependencies: final(self).dependencies, ..*old(self) })
                    && match import_target(ts, p + 1) {
                        Some((u, l)) => deps_view(final(self).dependencies@) == deps_view(old(self).dependencies@).push((u, l))
                            && texts_view(final(self).pending_root@) == texts_view(old(self).pending_root@).push(import_comment(u, l)),
                        None => false,
                    })
                &&& d == "selector"@ ==> (r is Ok <==> selector_name(ts, p + 1) is Some)
                &&& d == "selector"@ && r is Ok ==> final(buffer).rendered() == old(buffer).rendered() + pre
                    + "sel_getUid(\""@ + selector_name(ts, p + 1)->0 + "\")"@
                // Any other word after `@` is passed over.
                &&& !(d.len() > 0 && d[0] == '"') && d != "class"@ && d != "implementation"@ && d != "import"@ && d != "selector"@
                    ==> (r is Ok && *final(self) == *old(self) && final(buffer).rendered() == old(buffer).rendered())
            }),
        decreases (if synthetic { 0int } else { 1int }), old(tokens).toks().len() - old(tokens).pos(), 3int,
    {
        proof {
            old(tokens).lemma_bounds();
            reveal_strlit("class");
            reveal_strlit("implementation");
            reveal_strlit("import");
            reveal_strlit("selector");
        }
        let token = or_empty(tokens.next());
        if first_is(&token, '"') {
            self.emit(buffer, is_root, &token);
        } else if text_is(&token, "class") {
            let ghost p1 = tokens.pos();
            tokens.skip_ws();
            proof {
                tokens.lemma_bounds();
                assert forall|k: int| p1 + 1 <= k < tokens.pos() implies ws_token(#[trigger] tokens.toks()[k]) by {
                    assert(p1 < k < tokens.pos());
                }
                lemma_solid_from(tokens.toks(), p1 + 1, tokens.pos());
            }
        } else if text_is(&token, "implementation") {
            if synthetic {
                return self.fail("*** Unexpected '@implementation' in an accessor.");
            }
            proof {
                tokens.lemma_bounds();
            }
            self.implementation(tokens, buffer, is_root)?;
        } else if text_is(&token, "import") {
            self.import(tokens)?;
        } else if text_is(&token, "selector") {
            self.selector(tokens, buffer, is_root)?;
        }
        Ok(())
    }

    /// A message send `[receiver label: arg ...]` or an array literal
    /// `[a, b]`, read part by part.
    fn brackets(&mut self, tokens: &mut Lexer, buffer: &mut StringBuffer, is_root: bool, synthetic: bool) -> (r: R<()>)
        requires
            old(self).wf(),
            old(tokens).wf(),
            old(tokens).saved().len() == 0,
        ensures
            final(self).classes_extend(old(self)),
            r matches Err(e) ==> error_in_file(e@, old(self).url@),
            final(self).url == old(self).url,
            final(self).wf(),
            final(tokens).wf(),
            final(tokens).toks() == old(tokens).toks(),
            r is Ok ==> advanced(*old(tokens), *final(tokens)),
            // An array or a message send, made of the parts read.
            r is Ok ==> exists|parts: Seq<Seq<char>>, labels: Seq<Option<Seq<char>>>, sup: Option<Seq<char>>, pre: Seq<char>|
                #![trigger bracket_code(parts, labels, sup), pre.len()]
                parts.len() == labels.len() && parts.len() >= 1
                && (!is_root ==> pre.len() == 0)
                && (sup is Some ==> "super"@.is_prefix_of(parts[0]))
                && final(buffer).rendered() == old(buffer).rendered() + pre + bracket_code(parts, labels, sup),
            // `[]` is an empty array.
            token_at(old(tokens).toks(), old(tokens).pos()) == Some("["@) && token_at(old(tokens).toks(), old(tokens).pos() + 1) == Some("]"@)
                ==> (r is Ok && final(buffer).rendered() == old(buffer).rendered()
                    + (if is_root { concat(texts_view(old(self).pending_root@)) } else { Seq::<char>::empty() }) + "[]"@),
        decreases (if synthetic { 0int } else { 1int }), old(tokens).toks().len() - old(tokens).pos(), 1int,
    {
        proof {
            old(tokens).lemma_bounds();
        }
        let ghost empty = token_at(old(tokens).toks(), old(tokens).pos()) == Some("["@)
            && token_at(old(tokens).toks(), old(tokens).pos() + 1) == Some("]"@);
        let mut parts: Vec<StringBuffer> = Vec::new();
        let mut labels: Vec<Option<Vec<char>>> = Vec::new();
        let mut first = StringBuffer::new_buf();
        let mut first_label: Option<Vec<char>> = None;
        let r0 = self.preprocess(tokens, &mut first, false, false, true, &mut first_label, synthetic)?;
        let mut cont = r0.truthy();
        proof {
            if empty {
                assert(!cont);
                assert(first.rendered() == Seq::<char>::empty());
            }
        }
        parts.push(first);
        labels.push(first_label);
        while cont
            invariant
                self.wf(),
                self.classes_extend(old(self)),
                self.url == old(self).url,
                advanced(*old(tokens), *tokens),
                old(tokens).saved().len() == 0,
                parts.len() == labels.len(),
                parts.len() >= 1,
                empty == (token_at(old(tokens).toks(), old(tokens).pos()) == Some("["@)
                    && token_at(old(tokens).toks(), old(tokens).pos() + 1) == Some("]"@)),
                empty ==> !cont && parts@.len() == 1 && parts@[0].rendered() == Seq::<char>::empty()
                    && labels@[0] is None && *self == *old(self) && *buffer == *old(buffer),
            decreases tokens.toks().len() - tokens.pos() + (if cont { 1int } else { 0int }),
        {
            proof {
                tokens.lemma_bounds();
            }
            let mut part = StringBuffer::new_buf();
            let mut lab: Option<Vec<char>> = None;
            let r = self.preprocess(tokens, &mut part, false, false, true, &mut lab, synthetic)?;
            cont = r.truthy();
            parts.push(part);
            labels.push(lab);
            proof {
                tokens.lemma_bounds();
            }
        }
        let ghost pv = parts@.map_values(|b: StringBuffer| b.rendered());
        let ghost lv = opt_texts(labels@);
        let ghost pre = if is_root { concat(texts_view(self.pending_root@)) } else { Seq::<char>::empty() };
        let ghost sup = if super_receiver(parts@[0].atoms@) { Some(self.super_expr()) } else { None };
        let ghost start = buffer.rendered();
        self.emit_bracket(buffer, is_root, &parts, &labels);
        proof {
            if super_receiver(parts@[0].atoms@) {
                crate::buffer::lemma_render_first(parts@[0].atoms@);
                reveal_strlit("super");
                assert("super"@.is_prefix_of(pv[0]));
            }
            assert(pre.len() >= 0);
            assert(buffer.rendered() == start + pre + bracket_code(pv, lv, sup));
            if empty {
                assert(bracket_code(pv, lv, sup) =~= "[]"@) by {
                    reveal_strlit("[]");
                    reveal_strlit("[");
                    reveal_strlit("]");
                }
            }
        }
        Ok(())
    }

    /// The expression of the superclass that a message to `super` goes to.
    spec fn super_expr(&self) -> Seq<char> {
        if self.class_method { self.current_super_meta_class@ } else { self.current_super_class@ }
    }

    /// Writes the code of a bracket expression made of `parts`, each with
    /// its label: an array for one part without a label, else a message send.
    fn emit_bracket(&mut self, buffer: &mut StringBuffer, is_root: bool, parts: &Vec<StringBuffer>, labels: &Vec<Option<Vec<char>>>)
        requires
            old(self).wf(),
            parts.len() == labels.len(),
            parts.len() >= 1,
        ensures
            final(self).wf(),
            final(self).same_but_output(old(self)),
            final(buffer).rendered() == old(buffer).rendered()
                + (if is_root { concat(texts_view(old(self).pending_root@)) } else { Seq::<char>::empty() })
                + bracket_code(parts@.map_values(|b: StringBuffer| b.rendered()), opt_texts(labels@),
                    if super_receiver(parts@[0].atoms@) { Some(old(self).super_expr()) } else { None }),
    {
        let ghost pv = parts@.map_values(|b: StringBuffer| b.rendered());
        let ghost lv = opt_texts(labels@);
        let ghost sup = if super_receiver(parts@[0].atoms@) { Some(self.super_expr()) } else { None };
        if is_root {
            self.flush(buffer);
        }
        if parts.len() == 1 && labels[0].is_none() {
            let ghost start = buffer.rendered();
            self.emit_lit(buffer, false, "[");
            self.emit_buf(buffer, false, &parts[0]);
            self.emit_lit(buffer, false, "]");
            proof {
                assert(buffer.rendered() =~= start + bracket_code(pv, lv, sup));
            }
        } else {
            self.emit_send(buffer, parts, labels);
        }
    }

    /// Writes the message send made of `parts`, each with its label.
    fn emit_send(&mut self, buffer: &mut StringBuffer, parts: &Vec<StringBuffer>, labels: &Vec<Option<Vec<char>>>)
        requires
            old(self).wf(),
            parts.len() == labels.len(),
            parts.len() >= 1,
            !(parts.len() == 1 && labels@[0] is None),
        ensures
            final(self).wf(),
            final(self).same_but_output(old(self)),
            final(self).super_expr() == old(self).super_expr(),
            final(self).pending_root@ == old(self).pending_root@,
            final(buffer).rendered() == old(buffer).rendered()
                + bracket_code(parts@.map_values(|b: StringBuffer| b.rendered()), opt_texts(labels@),
                    if super_receiver(parts@[0].atoms@) { Some(old(self).super_expr()) } else { None }),
    {
        let ghost pv = parts@.map_values(|b: StringBuffer| b.rendered());
        let ghost lv = opt_texts(labels@);
        let ghost start = buffer.rendered();
        let receiver_is_super = parts[0].atoms.len() > 0 && match &parts[0].atoms[0] {
            Atom::S(t) => text_is(&chars_of(t.as_str()), "super"),
            Atom::B(_) => false,
        };
        proof {
            reveal_strlit("super");
            assert(receiver_is_super == super_receiver(parts@[0].atoms@));
        }
        let ghost head: Seq<char>;
        if receiver_is_super {
            self.emit_lit(buffer, false, "objj_msgSendSuper(");
            let sc = if self.class_method {
                copy_text(&self.current_super_meta_class)
            } else {
                copy_text(&self.current_super_class)
            };
            let t = cat3("{ receiver:self, super_class:", &sc, " }");
            self.emit(buffer, false, &t);
            proof {
                head = "objj_msgSendSuper("@ + "{ receiver:self, super_class:"@ + old(self).super_expr() + " }"@;
                assert(buffer.rendered() =~= start + head);
            }
        } else {
            self.emit_lit(buffer, false, "objj_msgSend(");
            self.emit_buf(buffer, false, &parts[0]);
            proof {
                head = "objj_msgSend("@ + pv[0];
                assert(buffer.rendered() =~= start + head);
            }
        }
        let (selector, marg_list) = message_tail(parts, labels);
        self.emit_lit(buffer, false, ", \"");
        self.emit_buf(buffer, false, &selector);
        self.emit_lit(buffer, false, "\"");
        self.emit_buf(buffer, false, &marg_list);
        self.emit_lit(buffer, false, ")");
        proof {
            assert(buffer.rendered() =~= start + (head + ", \""@ + labels_text(lv) + "\""@ + comma_led(pv.drop_first()) + ")"@));
        }
    }

    /// Reads a method: its selector, parameter names and types, then its
    /// body, compiled with the instance variables (less the parameters)
    /// referred to through `self`.
    #[verifier::rlimit(60)]
    fn method(&mut self, tokens: &mut Lexer, ivar_names: &Vec<Vec<char>>, synthetic: bool) -> (r: R<StringBuffer>)
        requires
            old(self).wf(),
            old(tokens).wf(),
            old(tokens).saved().len() == 0,
        ensures
            final(self).classes_extend(old(self)),
            r matches Err(e) ==> error_in_file(e@, old(self).url@),
            final(self).url == old(self).url,
            final(self).wf(),
            final(tokens).wf(),
            final(tokens).toks() == old(tokens).toks(),
            r is Ok ==> advanced(*old(tokens), *final(tokens)),
            ({
                let hd = header_from(old(tokens).toks(), old(tokens).pos() + 1, 0, empty_header(), Seq::empty());
                &&& hd is None ==> r is Err
                &&& (hd matches Some((h, e)) && token_at(old(tokens).toks(), e) == Some(";"@)
                    && token_at(old(tokens).toks(), solid_from(old(tokens).toks(), e + 1)) != Some("{"@)) ==> r is Err
                &&& r matches Ok(b) ==> (hd matches Some((h, e)) && exists|body: Seq<char>| b.rendered()
                    == method_prefix(h, old(self).current_class@, old(self).debug_symbols) + body + method_suffix(h, old(self).debug_symbols))
                &&& r is Ok ==> final(self).current_selector@.len() == 0
                // A well-formed header followed by an empty body `{}` compiles.
                &&& match hd {
                    Some((h, e)) => {
                        let brace = if token_at(old(tokens).toks(), e) == Some(";"@) {
                            solid_from(old(tokens).toks(), e + 1)
                        } else {
                            e
                        };
                        token_at(old(tokens).toks(), brace) == Some("{"@) && token_at(old(tokens).toks(), brace + 1) == Some("}"@)
                            ==> (r matches Ok(b) && b.rendered() == method_prefix(h, old(self).current_class@, old(self).debug_symbols)
                                + method_suffix(h, old(self).debug_symbols))
                    },
                    None => true,
                }
                // A body of plain code is copied, each instance variable that no
                // parameter shadows reached through `self`.
                &&& match hd {
                    Some((h, e)) => {
                        let ts = old(tokens).toks();
                        let brace = if token_at(ts, e) == Some(";"@) { solid_from(ts, e + 1) } else { e };
                        token_at(ts, brace) == Some("{"@) && old(self).defines@.len() == 0
                            && plain_body(ts, brace + 1, unshadowed(texts_view(ivar_names@), h.params), Seq::empty()) is Some
                            ==> (r matches Ok(b) && b.rendered() == method_prefix(h, old(self).current_class@, old(self).debug_symbols)
                                + plain_body(ts, brace + 1, unshadowed(texts_view(ivar_names@), h.params), Seq::empty()).unwrap().0
                                + method_suffix(h, old(self).debug_symbols))
                    },
                    None => true,
                }
            }),
        decreases (if synthetic { 0int } else { 1int }), old(tokens).toks().len() - old(tokens).pos(), 1int,
    {
        proof {
            old(tokens).lemma_bounds();
            reveal_strlit("{");
            reveal_strlit(";");
            reveal_strlit(":");
            reveal_strlit("(");
            reveal_strlit(")");
            reveal_strlit(",");
            reveal_strlit(".");
        }
        let ghost ts = old(tokens).toks();
        let ghost total = header_from(ts, old(tokens).pos() + 1, 0, empty_header(), Seq::empty());
        let mut buffer = StringBuffer::new_buf();
        let mut selector: Vec<char> = Vec::new();
        let mut parameters: Vec<Vec<char>> = Vec::new();
        let mut types: Vec<Option<Vec<char>>> = Vec::new();
        types.push(None);
        let ghost p0 = tokens.pos();
        let mut token = tokens.skip_ws();
        proof {
            tokens.lemma_bounds();
            lemma_header_skip(ts, p0 + 1, tokens.pos(), 0, empty_header(), Seq::empty());
            assert(header_view(selector@, parameters@, types@) == empty_header()) by {
                assert(selector@ =~= Seq::<char>::empty());
                assert(texts_view(parameters@) =~= Seq::<Seq<char>>::empty());
                assert(opt_texts(types@.subrange(1, 1)) =~= Seq::<Option<Seq<char>>>::empty());
            }
        }
        loop
            invariant
                self.wf(),
                self.classes_extend(old(self)),
                *self == *old(self),
                advanced(*old(tokens), *tokens),
                old(tokens).saved().len() == 0,
                ts == tokens.toks(),
                tokens.pos() >= 0,
                types.len() >= 1,
                opt_text(token) == token_at(tokens.toks(), tokens.pos()),
                token matches Some(x) ==> !ws_token(x@),
                total == header_from(ts, tokens.pos(), 0, header_view(selector@, parameters@, types@), Seq::empty()),
                total == header_from(old(tokens).toks(), old(tokens).pos() + 1, 0, empty_header(), Seq::empty()),
                ts == old(tokens).toks(),
            ensures
                total == Some((header_view(selector@, parameters@, types@), tokens.pos())),
            decreases tokens.toks().len() - tokens.pos(),
        {
            proof {
                tokens.lemma_bounds();
            }
            let ghost it = tokens.pos();
            let ghost hv = header_view(selector@, parameters@, types@);
            let t = match &token {
                None => break,
                Some(t) => copy_text(t),
            };
            if text_is(&t, "{") || text_is(&t, ";") {
                break;
            } else if text_is(&t, ":") {
                let mut ty: Vec<char> = Vec::new();
                selector.push(':');
                let ghost h1 = MethodHeader { selector: hv.selector + ":"@, ..hv };
                proof {
                    reveal_strlit(":");
                    assert(header_view(selector@, parameters@, types@) == h1) by {
                        assert(selector@ =~= hv.selector + ":"@);
                    }
                }
                let ghost q0 = tokens.pos();
                token = tokens.skip_ws();
                proof {
                    tokens.lemma_bounds();
                    lemma_header_skip(ts, q0 + 1, tokens.pos(), 1, h1, Seq::empty());
                }
                let ghost mut phase_after: int = 1;
                if opt_is(&token, "(") {
                    proof {
                        phase_after = 3;
                    }
                    loop
                        invariant_except_break
                            total == header_from(ts, tokens.pos() + 1, 2, h1, ty@),
                        invariant
                            self.wf(),
                            self.classes_extend(old(self)),
                            *self == *old(self),
                            advanced(*old(tokens), *tokens),
                            ts == tokens.toks(),
                            tokens.pos() >= it,
                            it < tokens.toks().len(),
                            opt_text(token) == token_at(tokens.toks(), tokens.pos()),
                        ensures
                            total == header_from(ts, tokens.pos() + 1, 3, h1, ty@) || (tokens.pos() == ts.len() && token is None
                                && total == header_from(ts, ts.len() as int, 2, h1, ty@)),
                        decreases tokens.toks().len() - tokens.pos(),
                    {
                        proof {
                            tokens.lemma_bounds();
                        }
                        let ghost q = tokens.pos();
                        token = tokens.skip_ws();
                        proof {
                            tokens.lemma_bounds();
                            lemma_header_skip(ts, q + 1, tokens.pos(), 2, h1, ty@);
                        }
                        match &token {
                            None => break,
                            Some(x) => {
                                if text_is(x, ")") {
                                    break;
                                }
                                push_text(&mut ty, x);
                            },
                        }
                    }
                    let ghost q1 = tokens.pos();
                    token = tokens.skip_ws();
                    proof {
                        tokens.lemma_bounds();
                        if total == header_from(ts, q1 + 1, 3, h1, ty@) {
                            lemma_header_skip(ts, q1 + 1, tokens.pos(), 3, h1, ty@);
                        }
                    }
                }
                types.push(if ty.len() == 0 { None } else { Some(ty) });
                let param = match &token {
                    Some(x) => copy_text(x),
                    None => Vec::new(),
                };
                parameters.push(param);
                proof {
                    let h2 = with_param(h1, param@, ty@);
                    assert(header_view(selector@, parameters@, types@) == h2) by {
                        assert(texts_view(parameters@) =~= h1.params.push(param@));
                        assert(opt_texts(types@.subrange(1, types@.len() as int)) =~= h1.param_types.push(type_of(ty@)));
                    }
                    if tokens.pos() < ts.len() {
                        assert(total == header_from(ts, tokens.pos() + 1, 0, h2, Seq::empty()));
                    } else {
                        assert(total == Some((h2, ts.len() as int)));
                    }
                }
            } else if text_is(&t, "(") {
                let mut ty: Vec<char> = Vec::new();
                loop
                    invariant_except_break
                        total == header_from(ts, tokens.pos() + 1, 4, hv, ty@),
                    invariant
                        self.wf(),
                        self.classes_extend(old(self)),
                        *self == *old(self),
                        advanced(*old(tokens), *tokens),
                        ts == tokens.toks(),
                        tokens.pos() >= it,
                        it < tokens.toks().len(),
                        opt_text(token) == token_at(tokens.toks(), tokens.pos()),
                    ensures
                        total == header_from(ts, tokens.pos() + 1, 0, MethodHeader { return_type: type_of(ty@), ..hv }, Seq::empty())
                            || (tokens.pos() == ts.len() && total == Some((MethodHeader { return_type: type_of(ty@), ..hv }, ts.len() as int))),
                    decreases tokens.toks().len() - tokens.pos(),
                {
                    proof {
                        tokens.lemma_bounds();
                    }
                    let ghost q = tokens.pos();
                    token = tokens.skip_ws();
                    proof {
                        tokens.lemma_bounds();
                        lemma_header_skip(ts, q + 1, tokens.pos(), 4, hv, ty@);
                    }
                    match &token {
                        None => break,
                        Some(x) => {
                            if text_is(x, ")") {
                                break;
                            }
                            push_text(&mut ty, x);
                        },
                    }
                }
                types.set(0, if ty.len() == 0 { None } else { Some(ty) });
                proof {
                    assert(header_view(selector@, parameters@, types@) == MethodHeader { return_type: type_of(ty@), ..hv }) by {
                        assert(opt_texts(types@.subrange(1, types@.len() as int)) =~= hv.param_types);
                    }
                }
            } else if text_is(&t, ",") {
                let ghost q = tokens.pos();
                let a = tokens.skip_ws();
                proof {
                    tokens.lemma_bounds();
                    lemma_header_skip(ts, q + 1, tokens.pos(), 5, hv, Seq::empty());
                }
                let ghost pa = tokens.pos();
                if !opt_is(&a, ".") || !opt_is(&tokens.next(), ".") || !opt_is(&tokens.next(), ".") {
                    proof {
                        reveal_strlit(".");
                        assert(total == header_from(ts, pa, 5, hv, Seq::empty()));
                        assert(total is None);
                    }
                    return self.fail("*** Argument list expected after ','.");
                }
            } else {
                push_text(&mut selector, &t);
                proof {
                    assert(header_view(selector@, parameters@, types@) == MethodHeader { selector: hv.selector + t@, ..hv });
                }
            }
            let ghost q2 = tokens.pos();
            token = tokens.skip_ws();
            proof {
                tokens.lemma_bounds();
                if q2 < ts.len() {
                    lemma_header_skip(ts, q2 + 1, tokens.pos(), 0, header_view(selector@, parameters@, types@), Seq::empty());
                }
            }
        }
        let ghost h = header_view(selector@, parameters@, types@);
        let ghost e = tokens.pos();
        if opt_is(&token, ";") {
            let ghost q = tokens.pos();
            token = tokens.skip_ws();
            proof {
                tokens.lemma_bounds();
                lemma_solid_from(ts, q + 1, tokens.pos());
            }
            if !opt_is(&token, "{") {
                return self.fail("Invalid semi-colon in method declaration.");
            }
        }
        let debug = self.debug_symbols;
        let ghost class_name = self.current_class@;
        buffer.push_chars(&lit("new objj_method(sel_getUid(\""));
        buffer.push_chars(&selector);
        buffer.push_chars(&lit("\"), function"));
        self.current_selector = copy_text(&selector);
        if debug {
            let mut d = lit(" $");
            push_text(&mut d, &self.current_class);
            push_str(&mut d, "__");
            push_text(&mut d, &colons_to_underscores(&selector));
            buffer.push_chars(&d);
        }
        buffer.push_chars(&lit("(self, _cmd"));
        let ghost before_params = buffer.rendered();
        let mut k: usize = 0;
        while k < parameters.len()
            invariant
                k <= parameters.len(),
                buffer.rendered() == before_params + comma_led(texts_view(parameters@).take(k as int)),
            decreases parameters.len() - k,
        {
            buffer.push_chars(&lit(", "));
            buffer.push_chars(&parameters[k]);
            proof {
                let ps = texts_view(parameters@);
                assert(ps.take(k + 1).drop_last() =~= ps.take(k as int));
                assert(ps.take(k + 1).last() == parameters@[k as int]@);
            }
            k = k + 1;
        }
        proof {
            assert(texts_view(parameters@).take(parameters.len() as int) =~= texts_view(parameters@));
        }
        buffer.push_chars(&lit(")\n{"));
        proof {
            assert(buffer.rendered() == method_prefix(h, class_name, debug));
        }
        let ghost prefix = buffer.rendered();
        let mut method_ivars = copy_names(ivar_names);
        let mut k: usize = 0;
        while k < parameters.len()
            invariant
                k <= parameters.len(),
                forall|x: Seq<char>| texts_view(method_ivars@).contains(x)
                    <==> (texts_view(ivar_names@).contains(x) && !texts_view(parameters@).take(k as int).contains(x)),
            decreases parameters.len() - k,
        {
            let ghost before = texts_view(method_ivars@);
            method_ivars = remove_name(&method_ivars, &parameters[k]);
            proof {
                broadcast use vstd::seq::Seq::group_seq_extra;
                let ps = texts_view(parameters@);
                assert(ps.take(k + 1) =~= ps.take(k as int).push(ps[k as int]));
                assert forall|x: Seq<char>| texts_view(method_ivars@).contains(x)
                    <==> (texts_view(ivar_names@).contains(x) && !ps.take(k + 1).contains(x)) by {
                    if before.contains(x) && x != ps[k as int] {
                        let j = choose|j: int| 0 <= j < before.len() && #[trigger] before[j] == x;
                        assert(texts_view(method_ivars@).contains(before[j]));
                    }
                    if ps.take(k + 1).contains(x) && !ps.take(k as int).contains(x) {
                        let j = choose|j: int| 0 <= j < ps.take(k + 1).len() && #[trigger] ps.take(k + 1)[j] == x;
                        if j < k {
                            assert(ps.take(k as int)[j] == x);
                        }
                    }
                    if ps.take(k as int).contains(x) {
                        let j = choose|j: int| 0 <= j < ps.take(k as int).len() && #[trigger] ps.take(k as int)[j] == x;
                        assert(ps.take(k + 1)[j] == x);
                    }
                    if x == ps[k as int] {
                        assert(ps.take(k + 1)[k as int] == x);
                    }
                }
            }
            k = k + 1;
        }
        let mut saved_ivars = Some(method_ivars);
        std::mem::swap(&mut saved_ivars, &mut self.current_ivar_names);
        let mut body = StringBuffer::new_buf();
        let mut no_label: Option<Vec<char>> = None;
        proof {
            tokens.lemma_bounds();
        }
        proof {
            assert(texts_view(parameters@).take(parameters.len() as int) =~= texts_view(parameters@));
            assert(ivar_view(self.current_ivar_names).to_set() =~= unshadowed(texts_view(ivar_names@), texts_view(parameters@)));
        }
        self.preprocess(tokens, &mut body, false, true, false, &mut no_label, synthetic)?;
        buffer.push_b(&body);
        self.current_ivar_names = saved_ivars;
        buffer.push_chars(&lit("\n}"));
        if debug {
            let mut d = lit(",");
            push_text(&mut d, &json_types(&types));
            buffer.push_chars(&d);
        }
        buffer.push_chars(&lit(")"));
        proof {
            assert(opt_texts(types@) =~= seq![h.return_type] + h.param_types);
            assert(buffer.rendered() =~= prefix + body.rendered() + method_suffix(h, debug));
        }
        self.current_selector = Vec::new();
        Ok(buffer)
    }

    /// The main loop: copies tokens to `buffer`, expanding macros, prefixing
    /// instance variables with `self.` and handing `@`, `#` and `[` to their
    /// readers. In a method body (`in_body`) it stops at the `}` that closes
    /// the body; for one part of a message send (`has_tuple`) it stops at the
    /// part's end, sets `label` and says whether another part follows.
    #[verifier::rlimit(100)]
    #[verifier::spinoff_prover]
    fn preprocess(
        &mut self,
        tokens: &mut Lexer,
        buffer: &mut StringBuffer,
        is_root: bool,
        in_body: bool,
        has_tuple: bool,
        label: &mut Option<Vec<char>>,
        synthetic: bool,
    ) -> (r: R<PreResult>)
        requires
            old(self).wf(),
            old(tokens).wf(),
            old(tokens).saved().len() == 0,
        ensures
            final(self).classes_extend(old(self)),
            r matches Err(e) ==> error_in_file(e@, old(self).url@),
            final(self).url == old(self).url,
            final(self).wf(),
            final(tokens).wf(),
            final(tokens).toks() == old(tokens).toks(),
            r is Ok ==> advanced(*old(tokens), *final(tokens)),
            r matches Ok(PreResult::Bool(true)) ==> final(tokens).pos() > old(tokens).pos(),
            // Plain code at the top level is copied as it is.
            is_root && !in_body && !has_tuple && old(self).plain_state()
                && plain_tokens(old(tokens).toks().subrange(upto(old(tokens).toks(), old(tokens).pos()), old(tokens).toks().len() as int))
                ==> (r matches Ok(PreResult::Unit) && final(self).plain_state() && final(self).same_but_output(old(self))
                && final(buffer).rendered() == old(buffer).rendered()
                    + concat(old(tokens).toks().subrange(upto(old(tokens).toks(), old(tokens).pos()), old(tokens).toks().len() as int))),
            // A body that closes at once is empty.
            in_body && !has_tuple && token_at(old(tokens).toks(), old(tokens).pos() + 1) == Some("}"@) ==> (r is Ok
                && final(tokens).pos() == old(tokens).pos() + 1 && final(buffer).rendered() == old(buffer).rendered()),
            // A body of plain code is copied up to its `}`, instance variables
            // reached through `self`.
            in_body && !has_tuple && !is_root && old(self).defines@.len() == 0 ==>
                match plain_body(old(tokens).toks(), old(tokens).pos() + 1, ivar_view(old(self).current_ivar_names).to_set(), Seq::empty()) {
                    Some((c, e)) => r is Ok && final(tokens).pos() == e && final(buffer).rendered() == old(buffer).rendered() + c,
                    None => true,
                },
            // Plain code, `@import` directives and `#define` lines at the top
            // level: the code is copied with macros expanded, each import
            // commented out and its dependency added, each definition kept.
            is_root && !in_body && !has_tuple && old(self).current_ivar_names is None && old(self).condition_stack@.len() == 0
                ==> match items_env(old(tokens).toks(), old(tokens).pos() + 1, old(self).macro_env()) {
                    Some((c, d, m)) => r matches Ok(PreResult::Unit)
                        && final(buffer).rendered() + concat(texts_view(final(self).pending_root@))
                            == old(buffer).rendered() + concat(texts_view(old(self).pending_root@)) + c
                        && deps_view(final(self).dependencies@) == deps_view(old(self).dependencies@) + d
                        && final(self).macro_env() == m && final(self).classes == old(self).classes,
                    None => true,
                },
            // `[]`: a part that ends at once, with no label, and no part follows.
            has_tuple && token_at(old(tokens).toks(), old(tokens).pos()) == Some("["@)
                && token_at(old(tokens).toks(), old(tokens).pos() + 1) == Some("]"@) ==> (r matches Ok(PreResult::Bool(false))
                && *final(label) == *old(label) && final(buffer).rendered() == old(buffer).rendered()
                && *final(self) == *old(self)),
        decreases (if synthetic { 0int } else { 1int }), old(tokens).toks().len() - old(tokens).pos(), 0int,
    {
        proof {
            old(tokens).lemma_bounds();
        }
        let n_toks = tokens.len();
        let ghost start = tokens.pos();
        let ghost plain = is_root && !in_body && !has_tuple && old(self).plain_state()
            && plain_tokens(old(tokens).toks().subrange(upto(old(tokens).toks(), start), old(tokens).toks().len() as int));
        proof {
            assert(old(tokens).toks().subrange(upto(old(tokens).toks(), start), upto(old(tokens).toks(), start)) =~= Seq::<Seq<char>>::empty());
            assert(concat(Seq::<Seq<char>>::empty()) == Seq::<char>::empty());
            assert(buffer.rendered() + Seq::<char>::empty() =~= buffer.rendered());
        }
        let mut count: u128 = 0;
        let mut braces: i128 = 0;
        let mut parens: i128 = 0;
        let mut questions: i128 = 0;
        let mut prev_token: Vec<char> = Vec::new();
        let ghost closes_at_once = in_body && !has_tuple && token_at(old(tokens).toks(), start + 1) == Some("}"@);
        let ghost iv = ivar_view(old(self).current_ivar_names).to_set();
        let ghost pbody = in_body && !has_tuple && !is_root && old(self).defines@.len() == 0
            && plain_body(old(tokens).toks(), start + 1, iv, Seq::empty()) is Some;
        let ghost body_end = match plain_body(old(tokens).toks(), start + 1, iv, Seq::empty()) { Some((c, e)) => e, None => 0int };
        let ghost body_total = match plain_body(old(tokens).toks(), start + 1, iv, Seq::empty()) { Some((c, e)) => c, None => Seq::empty() };
        let ghost mut body_done: Seq<char> = Seq::empty();
        proof {
            lemma_plain_body(old(tokens).toks(), start + 1, iv, Seq::empty());
            assert(buffer.rendered() + Seq::<char>::empty() =~= buffer.rendered());
            assert(Seq::<char>::empty() + body_total =~= body_total);
        }
        let ghost empty_tuple = has_tuple && token_at(old(tokens).toks(), start) == Some("["@)
            && token_at(old(tokens).toks(), start + 1) == Some("]"@);
        let ghost mut first = true;
        let ghost simple = is_root && !in_body && !has_tuple && old(self).current_ivar_names is None
            && old(self).condition_stack@.len() == 0 && items_env(old(tokens).toks(), start + 1, old(self).macro_env()) is Some;
        let ghost total = match items_env(old(tokens).toks(), start + 1, old(self).macro_env()) {
            Some(x) => x,
            None => (Seq::<char>::empty(), Seq::<(Seq<char>, bool)>::empty(), Map::<Seq<char>, MacroView>::empty()),
        };
        let ghost mut cur_env = old(self).macro_env();
        let ghost base = old(buffer).rendered() + concat(texts_view(old(self).pending_root@));
        let ghost mut done_c: Seq<char> = Seq::empty();
        let ghost mut done_d: Seq<(Seq<char>, bool)> = Seq::empty();
        proof {
            assert(done_c + total.0 =~= total.0);
            assert(done_d + total.1 =~= total.1);
            assert(base + done_c =~= base);
            assert(deps_view(self.dependencies@) + done_d =~= deps_view(self.dependencies@));
        }
        loop
            invariant_except_break
                pbody ==> (plain_body(old(tokens).toks(), tokens.pos() + 1, iv, prev_token@) matches Some((c, e))
                    && e == body_end && body_total == body_done + c)
                    && count == 0 && self.defines@.len() == 0 && self.current_ivar_names == old(self).current_ivar_names
                    && start + 1 <= tokens.pos() + 1 <= body_end
                    && buffer.rendered() == old(buffer).rendered() + body_done,
                simple ==> (items_env(old(tokens).toks(), tokens.pos() + 1, cur_env) matches Some((c, d, m))
                    && total.0 == done_c + c && total.1 == done_d + d && total.2 == m),
                first ==> tokens.pos() == start && count == 0 && buffer.rendered() == old(buffer).rendered()
                    && braces == 0 && parens == 0 && questions == 0 && *label == *old(label) && *self == *old(self),
            invariant
                self.wf(),
                self.classes_extend(old(self)),
                self.url == old(self).url,
                advanced(*old(tokens), *tokens),
                old(tokens).saved().len() == 0,
                tokens.toks().len() == n_toks,
                closes_at_once == (in_body && !has_tuple && token_at(old(tokens).toks(), start + 1) == Some("}"@)),
                empty_tuple == (has_tuple && token_at(old(tokens).toks(), start) == Some("["@)
                    && token_at(old(tokens).toks(), start + 1) == Some("]"@)),
                !first ==> !empty_tuple,
                simple == (is_root && !in_body && !has_tuple && old(self).current_ivar_names is None
                    && old(self).condition_stack@.len() == 0 && items_env(old(tokens).toks(), start + 1, old(self).macro_env()) is Some),
                simple ==> items_env(old(tokens).toks(), start + 1, old(self).macro_env()) == Some(total),
                base == old(buffer).rendered() + concat(texts_view(old(self).pending_root@)),
                simple ==> self.classes == old(self).classes,
                pbody == (in_body && !has_tuple && !is_root && old(self).defines@.len() == 0
                    && plain_body(old(tokens).toks(), start + 1, iv, Seq::empty()) is Some),
                iv == ivar_view(old(self).current_ivar_names).to_set(),
                pbody ==> plain_body(old(tokens).toks(), start + 1, iv, Seq::empty()) == Some((body_total, body_end)),
                simple ==> self.macro_env() == cur_env && self.current_ivar_names is None && self.condition_stack@.len() == 0
                    && buffer.rendered() + concat(texts_view(self.pending_root@)) == base + done_c
                    && deps_view(self.dependencies@) == deps_view(old(self).dependencies@) + done_d,
                tokens.pos() >= -1,
                !first ==> !closes_at_once,
                start == old(tokens).pos(),
                start >= -1,
                count <= tokens.pos() - start,
                -(tokens.pos() - start) <= braces <= tokens.pos() - start,
                -2 * (tokens.pos() - start) <= parens <= 2 * (tokens.pos() - start),
                0 <= questions <= tokens.pos() - start,
                plain == (is_root && !in_body && !has_tuple && old(self).plain_state()
                    && plain_tokens(old(tokens).toks().subrange(upto(old(tokens).toks(), start), old(tokens).toks().len() as int))),
                plain ==> self.plain_state() && self.same_but_output(old(self))
                    && buffer.rendered() == old(buffer).rendered()
                        + concat(tokens.toks().subrange(upto(tokens.toks(), start), upto(tokens.toks(), tokens.pos()))),
            ensures
                plain ==> tokens.pos() == tokens.toks().len(),
                closes_at_once ==> tokens.pos() == start + 1 && buffer.rendered() == old(buffer).rendered(),
                !empty_tuple,
                simple ==> total.0 == done_c && total.1 == done_d && total.2 == cur_env,
                pbody ==> tokens.pos() == body_end && buffer.rendered() == old(buffer).rendered() + body_total,
            decreases tokens.toks().len() - tokens.pos(),
        {
            proof {
                tokens.lemma_bounds();
            }
            let ghost p0 = tokens.pos();
            let ghost rendered0 = buffer.rendered();
            let token = match tokens.next() {
                Some(t) => t,
                None => break,
            };
            proof {
                if first && empty_tuple {
                    reveal_strlit("]");
                    reveal_strlit("}");
                    reveal_strlit("?");
                    reveal_strlit("{");
                    reveal_strlit("(");
                    reveal_strlit(")");
                    reveal_strlit(":");
                    assert(token@ == "]"@);
                    assert(token@[0] == ']');
                    assert(token@ != "}"@ && token@ != "?"@ && token@ != "{"@);
                    assert(token@ != "("@ && token@ != ")"@ && token@ != ":"@);
                }
                if plain {
                    let sub = old(tokens).toks().subrange(upto(old(tokens).toks(), start), old(tokens).toks().len() as int);
                    assert(sub[p0 + 1 - upto(old(tokens).toks(), start)] == token@);
                    assert(plain_token(token@));
                }
            }
            proof {
                if pbody {
                    assert(token@ == old(tokens).toks()[p0 + 1]);
                    lemma_plain_body(old(tokens).toks(), p0 + 1, iv, prev_token@);
                    if token@ == "}"@ {
                        assert(body_total =~= body_done);
                    }
                }
            }
            if in_body && text_is(&token, "}") && count == 0 {
                break;
            }
            if has_tuple {
                let mut bracket = false;
                if text_is(&token, "?") {
                    questions = questions + 1;
                } else if text_is(&token, "{") {
                    braces = braces + 1;
                } else if text_is(&token, "}") {
                    braces = braces - 1;
                } else if text_is(&token, "(") {
                    parens = parens + 1;
                } else if text_is(&token, ")") {
                    parens = parens - 1;
                } else {
                    let left = if text_is(&token, ":") {
                        let was_zero = questions == 0;
                        questions = questions - 1;
                        was_zero
                    } else {
                        bracket = text_is(&token, "]");
                        bracket
                    };
                    if left && braces == 0 && parens == 0 {
                        let ghost here = tokens.pos();
                        tokens.push();
                        let lab = if bracket {
                            tokens.skip_whitespace(true)
                        } else {
                            tokens.previous()
                        };
                        proof {
                            if first && empty_tuple {
                                reveal_strlit("[");
                                let ts = tokens.toks();
                                assert(ts[start].len() == 1 && ts[start][0] == '[');
                                assert(!space_char(ts[start][0]));
                                assert(!ws_token(ts[start]));
                                if tokens.pos() != start {
                                    assert(tokens.pos() < start < here);
                                    assert(ws_token(ts[start]));
                                }
                                assert(lab matches Some(x) && x@ == "["@);
                            }
                        }
                        let label_str = or_empty(lab);
                        let is_empty_label = is_whitespace_tok(&self.cls, &label_str);
                        let before_label = tokens.previous();
                        let prev_ws = match &before_label {
                            Some(t) => is_whitespace_tok(&self.cls, t),
                            None => false,
                        };
                        if is_empty_label || (is_identifier(&self.cls, &label_str) && prev_ws) {
                            tokens.push();
                            let mut last = tokens.skip_whitespace(true);
                            let mut operator_check = true;
                            let mut is_double_operator = false;
                            if opt_is(&last, "+") || opt_is(&last, "-") {
                                let again = tokens.previous();
                                if !opt_eq(&again, &last) {
                                    operator_check = false;
                                } else {
                                    last = tokens.skip_whitespace(true);
                                    is_double_operator = true;
                                }
                            }
                            let ghost inner = tokens.saved();
                            tokens.pop();
                            proof {
                                assert(inner.drop_last() =~= old(tokens).saved().push(here));
                            }
                            tokens.pop();
                            proof {
                                assert(tokens.saved() =~= old(tokens).saved());
                                assert(tokens.pos() == here);
                            }
                            let l = or_empty(last);
                            let ends_quoted = l.len() > 0 && (l[l.len() - 1] == '"' || l[l.len() - 1] == '\'');
                            let last_ok = (!is_double_operator && text_is(&l, "}")) || text_is(&l, ")")
                                || text_is(&l, "]") || text_is(&l, ".") || is_number(&self.cls, &l) || ends_quoted
                                || (is_identifier(&self.cls, &l) && !(text_is(&l, "new") || text_is(&l, "return")
                                || text_is(&l, "case") || text_is(&l, "var")));
                            if operator_check && last_ok {
                                if is_empty_label {
                                    *label = Some(lit(":"));
                                } else {
                                    let mut lbl = copy_text(&label_str);
                                    if !bracket {
                                        lbl.push(':');
                                    }
                                    *label = Some(lbl);
                                    truncate_at_label(buffer, &label_str);
                                }
                                return Ok(PreResult::Bool(!bracket));
                            }
                            if bracket {
                                return Ok(PreResult::Bool(false));
                            }
                        }
                        tokens.pop();
                        proof {
                            assert(tokens.saved() =~= old(tokens).saved());
                            assert(tokens.pos() == here);
                        }
                        if bracket {
                            return Ok(PreResult::Bool(false));
                        }
                    }
                }
                if questions < 0 {
                    questions = 0;
                }
            }
            if in_body {
                if text_is(&token, "{") {
                    count = count + 1;
                } else if text_is(&token, "}") {
                    count = count - 1;
                }
            }
            proof {
                if simple {
                    reveal_strlit("@");
                    reveal_strlit("function");
                    reveal_strlit("#");
                    reveal_strlit("[");
                    assert(token@ == old(tokens).toks()[p0 + 1]);
                    assert(token@ == "@"@ || token@ == "function"@ || token@ == "#"@ || plain_token(token@));
                }
            }
            if text_is(&token, "function") {
                let ghost fts = old(tokens).toks();
                let ghost fitem = function_item(fts, p0 + 2, Seq::empty());
                let mut acc: Vec<char> = Vec::new();
                let mut t2 = tokens.next();
                proof {
                    tokens.lemma_bounds();
                    assert(acc@ =~= Seq::<char>::empty());
                }
                loop
                    invariant
                        self.wf(),
                        self.classes_extend(old(self)),
                        self.url == old(self).url,
                        advanced(*old(tokens), *tokens),
                        tokens.pos() >= p0 + 1,
                        opt_text(t2) == token_at(tokens.toks(), tokens.pos()),
                        fts == tokens.toks(),
                        0 <= tokens.pos() <= fts.len(),
                        simple ==> p0 + 2 <= tokens.pos() && function_item(fts, tokens.pos(), acc@) == fitem,
                    ensures
                        t2 matches Some(tt) ==> (tt@ == "("@ || (tt@.len() > 0 && word_char(tt@[0]))),
                    decreases tokens.toks().len() - tokens.pos(),
                {
                    proof {
                        tokens.lemma_bounds();
                    }
                    match &t2 {
                        Some(tt) => {
                            if text_is(tt, "(") || starts_with_word(&self.cls, tt) {
                                break;
                            }
                            push_text(&mut acc, tt);
                        },
                        None => break,
                    }
                    t2 = tokens.next();
                    proof {
                        tokens.lemma_bounds();
                    }
                }
                let ghost before_emit = buffer.rendered() + concat(texts_view(self.pending_root@));
                let ghost emitted: Seq<char>;
                if opt_is(&t2, "(") {
                    let t = cat3("function", &acc, "(");
                    proof {
                        emitted = t@;
                    }
                    self.emit(buffer, is_root, &t);
                    if has_tuple {
                        parens = parens + 1;
                    }
                } else {
                    let t = cat3("var ", &or_empty(t2), " = function");
                    proof {
                        emitted = t@;
                    }
                    self.emit(buffer, is_root, &t);
                }
                proof {
                    if simple {
                        reveal_strlit("");
                        assert(function_item(fts, tokens.pos(), acc@) == fitem);
                        if tokens.pos() < fts.len() {
                            assert(t2 matches Some(tt) && tt@ == fts[tokens.pos()]);
                            if fts[tokens.pos()] == "("@ {
                                assert(fitem.0 == "function"@ + acc@ + "("@);
                            } else {
                                assert(fitem.0 == "var "@ + fts[tokens.pos()] + " = function"@);
                            }
                        } else {
                            assert(t2 is None);
                            assert(fitem.0 == "var "@ + " = function"@);
                        }
                        assert(emitted =~= fitem.0);
                        assert(tokens.pos() == fitem.1);
                        let k = p0 + 1;
                        lemma_function_item(fts, k + 1, Seq::empty());
                        assert(texts_view(self.pending_root@) =~= Seq::<Seq<char>>::empty());
                        assert(buffer.rendered() + concat(texts_view(self.pending_root@)) =~= before_emit + emitted);
                        let e = fitem.1 + 1;
                        let next = if e <= fts.len() { e } else { fts.len() as int };
                        assert(items_env(fts, next, cur_env) == items_env(fts, tokens.pos() + 1, cur_env));
                        assert(fts[p0 + 1] == "function"@);
                        reveal_strlit("#");
                        reveal_strlit("@");
                        assert(items_env(fts, p0 + 1, cur_env) is Some);
                        let (c2, d2, m2) = items_env(fts, next, cur_env)->0;
                        assert(total.0 =~= (done_c + emitted) + c2);
                        assert(total.1 =~= done_d + d2);
                        done_c = done_c + emitted;
                        assert(buffer.rendered() + concat(texts_view(self.pending_root@)) =~= base + done_c);
                    }
                }
            } else if text_is(&token, "@") {
                proof {
                    tokens.lemma_bounds();
                }
                let ghost pend0 = texts_view(self.pending_root@);
                let ghost deps0 = deps_view(self.dependencies@);
                let ghost rb = buffer.rendered();
                self.directive(tokens, buffer, is_root, synthetic)?;
                proof {
                    if simple {
                        let ts = old(tokens).toks();
                        let k = p0 + 1;
                        reveal_strlit("import");
                        assert(directive_name(ts, k) == "import"@);
                        let (u, l) = import_target(ts, k + 1)->0;
                        let e = import_end(ts, k + 1) + 1;
                        tokens.lemma_bounds();
                        lemma_import_end_in(ts, k + 1);
                        assert(k < e <= ts.len());
                        let (c2, d2, m2) = items_env(ts, e, cur_env)->0;
                        lemma_text_step(rb, pend0, base, done_c, import_comment(u, l));
                        assert(total.0 =~= (done_c + import_comment(u, l)) + c2);
                        assert(total.1 =~= (done_d + seq![(u, l)]) + d2);
                        done_c = done_c + import_comment(u, l);
                        done_d = done_d + seq![(u, l)];
                        assert(deps_view(self.dependencies@) =~= deps_view(old(self).dependencies@) + done_d);
                    }
                }
            } else if text_is(&token, "#") {
                let ghost before_hash = *self;
                proof {
                    tokens.lemma_bounds();
                    if simple {
                        let ts = old(tokens).toks();
                        let k = p0 + 1;
                        reveal_strlit("#");
                        reveal_strlit("define");
                        assert(ts[k] == "#"@);
                        assert(token_at(ts, k + 1) == Some("define"@) && define_ok(ts, k));
                        assert(directive_name(tokens.toks(), tokens.pos()) == "define"@);
                    }
                }
                self.hash(tokens)?;
                proof {
                    if simple {
                        Preprocessor::lemma_define_item(old(tokens).toks(), p0 + 1, cur_env, before_hash, *self, tokens.pos());
                        cur_env = self.macro_env();
                    }
                }
            } else if text_is(&token, "[") {
                proof {
                    assert(!simple);
                    tokens.lemma_bounds();
                }
                self.brackets(tokens, buffer, is_root, synthetic)?;
            } else {
                let ghost before_x = *self;
                let ghost mut def_i: int = 0;
                proof {
                    if simple {
                        let t = token@;
                        let ts = old(tokens).toks();
                        reveal_strlit("#");
                        reveal_strlit("@");
                        reveal_strlit("function");
                        reveal_strlit("[");
                        assert(ts[p0 + 1] == t);
                        assert(plain_token(t));
                        assert(token_out(t, cur_env) is Some);
                        if identifier_token(t) && self.has_define(t) {
                            let y = choose|y: int| 0 <= y < self.defines@.len() && (#[trigger] self.defines@[y]).0@ == t;
                            self.lemma_has_first(t, y);
                            def_i = choose|i: int| self.define_at(t, i);
                            self.lemma_env_at(t, def_i);
                            assert(!(self.defines@[def_i].1 is Func));
                        }
                    }
                }
                match self.try_expand_macro(&token, tokens)? {
                    Some(exp) => {
                        let ghost before = buffer.rendered() + concat(texts_view(self.pending_root@));
                        self.emit(buffer, is_root, &exp);
                        proof {
                            if simple {
                                let ts = old(tokens).toks();
                                let k = p0 + 1;
                                let t = token@;
                                assert(identifier_token(t) && before_x.has_define(t));
                                assert(token_out(t, cur_env) == Some(exp@));
                                assert(texts_view(self.pending_root@) =~= Seq::<Seq<char>>::empty());
                                assert(buffer.rendered() + concat(texts_view(self.pending_root@)) =~= before + exp@);
                                let (c2, d2, m2) = items_env(ts, k + 1, cur_env)->0;
                                assert(total.0 =~= (done_c + exp@) + c2);
                                assert(total.1 =~= done_d + d2);
                                done_c = done_c + exp@;
                                assert(buffer.rendered() + concat(texts_view(self.pending_root@)) =~= base + done_c);
                                assert(deps_view(self.dependencies@) =~= deps_view(old(self).dependencies@) + done_d);
                            }
                        }
                    },
                    None => {
                        if self.should_prefix_with_self(&token, &prev_token) {
                            let t = cat3("self.", &token, "");
                            self.emit(buffer, is_root, &t);
                        } else {
                            proof {
                                if plain {
                                    assert(texts_view(self.pending_root@) =~= Seq::<Seq<char>>::empty());
                                    assert(concat(texts_view(self.pending_root@)) == Seq::<char>::empty());
                                    assert(buffer.rendered() + Seq::<char>::empty() =~= buffer.rendered());
                                }
                            }
                            let ghost before = buffer.rendered() + concat(texts_view(self.pending_root@));
                            self.emit(buffer, is_root, &token);
                            proof {
                                if simple {
                                    let ts = old(tokens).toks();
                                    let k = p0 + 1;
                                    assert(texts_view(self.pending_root@) =~= Seq::<Seq<char>>::empty());
                                    assert(buffer.rendered() + concat(texts_view(self.pending_root@)) =~= before + token@);
                                    assert(token_out(token@, cur_env) == Some(token@));
                                    let (c2, d2, m2) = items_env(ts, k + 1, cur_env)->0;
                                    assert(total.0 =~= (done_c + token@) + c2);
                                    assert(total.1 =~= done_d + d2);
                                    done_c = done_c + token@;
                                    assert(buffer.rendered() + concat(texts_view(self.pending_root@)) =~= base + done_c);
                                    assert(deps_view(self.dependencies@) =~= deps_view(old(self).dependencies@) + done_d);
                                }
                            }
                        }
                    },
                }
            }
            proof {
                if plain {
                    let ts = tokens.toks().subrange(upto(tokens.toks(), start), p0 + 1);
                    assert(tokens.toks().subrange(upto(tokens.toks(), start), p0 + 2) =~= ts.push(token@));
                    crate::lexer::lemma_concat_push(ts, token@);
                    assert(buffer.rendered() == rendered0 + token@);
                }
                if pbody {
                    let t = token@;
                    let out = if identifier_token(t) && iv.contains(t) && !declaring_word(prev_token@) { "self."@ + t } else { t };
                    reveal_strlit("");
                    assert(buffer.rendered() =~= rendered0 + out);
                    let c2 = plain_body(old(tokens).toks(), p0 + 2, iv, if ws_token(t) { prev_token@ } else { t }).unwrap().0;
                    assert(body_total =~= (body_done + out) + c2);
                    body_done = body_done + out;
                }
            }
            if !is_whitespace_tok(&self.cls, &token) {
                prev_token = token;
            }
            proof {
                tokens.lemma_bounds();
                first = false;
            }
        }
        if has_tuple {
            return self.fail("*** Expected ']' - Unterminated message send or array.");
        }
        Ok(PreResult::Unit)
    }
}

impl Preprocessor {
    /// `@implementation Name [: Super] [{ ivars }] methods @end`, or a
    /// category `@implementation Name (Category) methods @end`.
    #[verifier::rlimit(80)]
    #[verifier::spinoff_prover]
    fn implementation(&mut self, tokens: &mut Lexer, buffer: &mut StringBuffer, is_root: bool) -> (r: R<()>)
        requires
            old(self).wf(),
            old(tokens).wf(),
            old(tokens).saved().len() == 0,
        ensures
            final(self).classes_extend(old(self)),
            r matches Err(e) ==> error_in_file(e@, old(self).url@),
            final(self).url == old(self).url,
            final(self).wf(),
            final(tokens).wf(),
            final(tokens).toks() == old(tokens).toks(),
            r is Ok ==> advanced(*old(tokens), *final(tokens)),
            // The class name must begin with a word character.
            !({
                let n = operand_text(token_at(old(tokens).toks(), solid_from(old(tokens).toks(), old(tokens).pos() + 1)));
                n.len() > 0 && word_char(n[0])
            }) ==> r is Err,
            r is Ok ==> final(self).current_class@.len() == 0,
            // A class that declares instance variables and nothing else is
            // recorded with its superclass and their names.
            r is Ok && ivars_only(old(tokens).toks(), old(tokens).pos()) ==> final(self).class_recorded(
                class_operand(old(tokens).toks(), old(tokens).pos()), recorded_super(old(tokens).toks(), old(tokens).pos()),
                match ivar_block(old(tokens).toks(), ivar_brace(old(tokens).toks(), old(tokens).pos()) + 1, None, Seq::empty()) {
                    Some((names, e)) => names,
                    None => Seq::empty(),
                }),
            // A bad class name, category or superclass is reported.
            ({
                let ts = old(tokens).toks();
                let n = class_operand(ts, old(tokens).pos());
                let c = solid_from(ts, solid_from(ts, old(tokens).pos() + 1) + 1);
                let d = solid_from(ts, c + 1);
                let named = n.len() > 0 && word_char(n[0]);
                &&& !named ==> (r matches Err(e)
                    && e@ == old(self).error_text("*** Expected class name, found \""@ + n + "\"."@))
                &&& named && token_at(ts, c) == Some("("@) && token_at(ts, d) == Some(")"@) ==> (r matches Err(e)
                    && e@ == class_error(old(self).url@, n, "*** Can't have empty category name."@))
                &&& named && token_at(ts, c) == Some("("@) && token_at(ts, d) != Some(")"@)
                    && token_at(ts, solid_from(ts, d + 1)) != Some(")"@) ==> (r matches Err(e)
                    && e@ == class_error(old(self).url@, n, "*** Improper category definition."@))
                &&& named && token_at(ts, c) == Some(":"@) && !identifier_token(operand_text(token_at(ts, d))) ==> (r matches Err(e)
                    && e@ == class_error(old(self).url@, n, "*** Expected class name, found \""@ + operand_text(token_at(ts, d)) + "\"."@))
            }),
            // A class with instance variables becomes known by its name.
            r is Ok && declares_ivars(old(tokens).toks(), old(tokens).pos())
                ==> final(self).knows_class(class_operand(old(tokens).toks(), old(tokens).pos())),
            // A class is created with its superclass, then registered.
            r is Ok && !is_category(old(tokens).toks(), old(tokens).pos()) ==> exists|x: Seq<char>| #[trigger] registered_after(
                old(buffer).rendered() + old(self).waiting(is_root)
                    + class_pair_code(class_super(old(tokens).toks(), old(tokens).pos()), class_operand(old(tokens).toks(), old(tokens).pos())),
                x, final(buffer).rendered()),
            // A class that declares nothing is created and registered.
            empty_class(old(tokens).toks(), old(tokens).pos()) ==> (r is Ok
                && final(buffer).rendered() == old(buffer).rendered()
                    + (if is_root { concat(texts_view(old(self).pending_root@)) } else { Seq::<char>::empty() })
                    + empty_class_code(class_operand(old(tokens).toks(), old(tokens).pos()))),
        decreases 1int, old(tokens).toks().len() - old(tokens).pos(), 2int,
    {
        proof {
            old(tokens).lemma_bounds();
            reveal_strlit("@");
            reveal_strlit("end");
            reveal_strlit("(");
            reveal_strlit(":");
            reveal_strlit("{");
            reveal_strlit("+");
            reveal_strlit("-");
            reveal_strlit("#");
        }
        let ghost ts0 = old(tokens).toks();
        let ghost simple = empty_class(old(tokens).toks(), old(tokens).pos());
        let ghost pre = if is_root { concat(texts_view(old(self).pending_root@)) } else { Seq::<char>::empty() };
        let ghost p0 = tokens.pos();
        let name_tok = tokens.skip_ws();
        proof {
            tokens.lemma_bounds();
            assert forall|k: int| p0 + 1 <= k < tokens.pos() implies ws_token(#[trigger] tokens.toks()[k]) by {
                assert(p0 < k < tokens.pos());
            }
            lemma_solid_from(tokens.toks(), p0 + 1, tokens.pos());
        }
        let class_name = or_empty(name_tok);
        let ghost ivars_block = declares_ivars(old(tokens).toks(), old(tokens).pos());
        let ghost mut reg: Option<int> = None;
        let ghost mut rec_fixed = false;
        let ghost mut cls_set = self.classes;
        let ghost mut close_e: int = 0;
        proof {
            if name_tok is Some {
                assert(class_name@ == class_operand(old(tokens).toks(), old(tokens).pos()));
            }
        }
        let mut superclass_name = lit("Nil");
        let mut instance_methods = StringBuffer::new_buf();
        let mut class_methods = StringBuffer::new_buf();
        if !starts_with_word(&self.cls, &class_name) {
            return self.fail_with("*** Expected class name, found \"", &class_name, "\".");
        }
        self.current_super_class = cat3("objj_getClass(\"", &class_name, "\").super_class");
        self.current_super_meta_class = cat3("objj_getMetaClass(\"", &class_name, "\").super_class");
        self.current_class = copy_text(&class_name);
        self.current_selector = Vec::new();
        let ghost pa = tokens.pos();
        let mut token = tokens.skip_ws();
        proof {
            tokens.lemma_bounds();
            assert forall|k: int| pa + 1 <= k < tokens.pos() implies ws_token(#[trigger] tokens.toks()[k]) by {
                assert(pa < k < tokens.pos());
            }
            lemma_solid_from(tokens.toks(), pa + 1, tokens.pos());
        }
        let ghost b = tokens.pos();
        let ghost mut pair_seg: Seq<char> = Seq::empty();
        let ghost mut reg_x: Seq<char> = Seq::empty();
        proof {
            assert(self.error_text("*** Can't have empty category name."@) == class_error(self.url@, class_name@, "*** Can't have empty category name."@));
            assert(self.error_text("*** Improper category definition."@) == class_error(self.url@, class_name@, "*** Improper category definition."@));
            assert forall|m: Seq<char>| #[trigger] self.error_text(m) == class_error(self.url@, class_name@, m) by {
                reveal_strlit("");
            }
        }
        if opt_is(&token, "(") {
            let ghost pc = tokens.pos();
            token = tokens.skip_ws();
            proof {
                tokens.lemma_bounds();
                assert forall|k: int| pc + 1 <= k < tokens.pos() implies ws_token(#[trigger] tokens.toks()[k]) by {
                    assert(pc < k < tokens.pos());
                }
                lemma_solid_from(tokens.toks(), pc + 1, tokens.pos());
            }
            if opt_is(&token, ")") {
                return self.fail("*** Can't have empty category name.");
            }
            let ghost pd = tokens.pos();
            let after_category = tokens.skip_ws();
            proof {
                tokens.lemma_bounds();
                assert forall|k: int| pd + 1 <= k < tokens.pos() implies ws_token(#[trigger] tokens.toks()[k]) by {
                    assert(pd < k < tokens.pos());
                }
                lemma_solid_from(tokens.toks(), pd + 1, tokens.pos());
            }
            if !opt_is(&after_category, ")") {
                return self.fail("*** Improper category definition.");
            }
            let t = cat3("{\nvar the_class = objj_getClass(\"", &class_name, "\")\n");
            self.emit(buffer, is_root, &t);
            let t = cat3("if(!the_class) throw new SyntaxError(\"*** Could not find class \\\"", &class_name, "\\\"\");\n");
            self.emit(buffer, is_root, &t);
            self.emit_lit(buffer, is_root, "var meta_class = the_class.isa;");
            proof {
                assert(class_header_ok(old(tokens).toks(), old(tokens).pos()));
            }
        } else {
            if opt_is(&token, ":") {
                let ghost pc = tokens.pos();
                token = tokens.skip_ws();
                proof {
                    tokens.lemma_bounds();
                    assert forall|k: int| pc + 1 <= k < tokens.pos() implies ws_token(#[trigger] tokens.toks()[k]) by {
                        assert(pc < k < tokens.pos());
                    }
                    lemma_solid_from(tokens.toks(), pc + 1, tokens.pos());
                }
                let t = match &token {
                    Some(x) => copy_text(x),
                    None => Vec::new(),
                };
                if !is_identifier(&self.cls, &t) {
                    return self.fail_with("*** Expected class name, found \"", &t, "\".");
                }
                superclass_name = t;
                let ghost ps = tokens.pos();
                token = tokens.skip_ws();
                proof {
                    tokens.lemma_bounds();
                    assert forall|k: int| ps + 1 <= k < tokens.pos() implies ws_token(#[trigger] tokens.toks()[k]) by {
                        assert(ps < k < tokens.pos());
                    }
                    lemma_solid_from(tokens.toks(), ps + 1, tokens.pos());
                }
            }
            proof {
                if ivars_block {
                    assert(token matches Some(t) && t@ == "{"@);
                }
                assert(class_header_ok(old(tokens).toks(), old(tokens).pos()));
            }
            let mut t = lit("{var the_class = objj_allocateClassPair(");
            push_text(&mut t, &superclass_name);
            push_str(&mut t, ", \"");
            push_text(&mut t, &class_name);
            push_str(&mut t, "\"),\nmeta_class = the_class.isa;");
            proof {
                reveal_strlit("Nil");
                if simple {
                    assert(superclass_name@ == "Nil"@);
                    assert(t@ =~= "{var the_class = objj_allocateClassPair(Nil, \""@ + class_name@ + "\"),\nmeta_class = the_class.isa;"@) by {
                        reveal_strlit("{var the_class = objj_allocateClassPair(");
                        reveal_strlit(", \"");
                        reveal_strlit("\"),\nmeta_class = the_class.isa;");
                        reveal_strlit("{var the_class = objj_allocateClassPair(Nil, \"");
                    }
                }
            }
            proof {
                reveal_strlit("Nil");
                assert(t@ =~= class_pair_code(superclass_name@, class_name@));
                assert(superclass_name@ == class_super(old(tokens).toks(), old(tokens).pos()));
                assert(class_name@ == class_operand(old(tokens).toks(), old(tokens).pos()));
                assert(self.pending_root@ == old(self).pending_root@);
            }
            self.emit(buffer, is_root, &t);
            proof {
                pair_seg = buffer.rendered();
                assert(pair_seg == old(buffer).rendered() + old(self).waiting(is_root)
                    + class_pair_code(class_super(old(tokens).toks(), old(tokens).pos()), class_operand(old(tokens).toks(), old(tokens).pos())));
            }
            if opt_is(&token, "{") {
                let mut ivar_names: Vec<Vec<char>> = Vec::new();
                let mut any_ivar = false;
                let mut declaration: Vec<Vec<char>> = Vec::new();
                let mut attributes: Option<Vec<(Vec<char>, AttrVal)>> = None;
                let mut accessors: Vec<(Vec<char>, Vec<(Vec<char>, AttrVal)>)> = Vec::new();
                let mut types: Vec<Vec<char>> = Vec::new();
                let ghost ib = ivar_block(ts0, ivar_brace(ts0, p0) + 1, None, Seq::empty());
                proof {
                    assert(!simple);
                    assert(tokens.pos() == ivar_brace(ts0, p0));
                    assert(texts_view(ivar_names@) =~= Seq::<Seq<char>>::empty());
                }
                loop
                    invariant_except_break
                        ib is Some ==> ivar_block(ts0, tokens.pos() + 1, last_of(declaration@), texts_view(ivar_names@)) == ib,
                    invariant
                        self.wf(),
                        self.classes_extend(old(self)),
                        class_header_ok(old(tokens).toks(), old(tokens).pos()),
                        grows(pair_seg, buffer.rendered()),
                        self.url == old(self).url,
                        !simple,
                        simple == empty_class(old(tokens).toks(), old(tokens).pos()),
                        advanced(*old(tokens), *tokens),
                        old(tokens).saved().len() == 0,
                        ts0 == tokens.toks(),
                        ib == ivar_block(ts0, ivar_brace(ts0, p0) + 1, None, Seq::empty()),
                        ib is Some ==> attributes is None && accessors@.len() == 0,
                    ensures
                        ib is Some ==> (ib == Some((texts_view(ivar_names@), tokens.pos())) && declaration@.len() == 0
                            && token is Some),
                    decreases tokens.toks().len() - tokens.pos(),
                {
                    proof {
                        tokens.lemma_bounds();
                    }
                    let ghost pq = tokens.pos();
                    token = tokens.skip_ws();
                    proof {
                        tokens.lemma_bounds();
                        assert forall|k: int| pq + 1 <= k < tokens.pos() implies ws_token(#[trigger] tokens.toks()[k]) by {
                            assert(pq < k < tokens.pos());
                        }
                        lemma_solid_from(tokens.toks(), pq + 1, tokens.pos());
                        reveal_strlit("}");
                        reveal_strlit("@");
                        reveal_strlit(";");
                    }
                    let t = match &token {
                        None => break,
                        Some(x) => copy_text(x),
                    };
                    if text_is(&t, "}") {
                        break;
                    } else if text_is(&t, "@") {
                        let dopt = tokens.next();
                        if opt_is(&dopt, "accessors") {
                            attributes = Some(self.accessors(tokens)?);
                        } else {
                            let d = or_empty(dopt);
                            if !text_is(&d, "outlet") {
                                return self.fail_with("*** Unexpected '@", &d, "' in ivar declaration.");
                            }
                            types.push(lit("@outlet"));
                        }
                    } else if text_is(&t, ";") {
                        if !any_ivar {
                            self.emit_lit(buffer, is_root, "class_addIvars(the_class, [");
                        } else {
                            self.emit_lit(buffer, is_root, ", ");
                        }
                        any_ivar = true;
                        let name = if declaration.len() > 0 {
                            copy_text(&declaration[declaration.len() - 1])
                        } else {
                            Vec::new()
                        };
                        if self.type_signatures {
                            let type_sig = if types.len() > 1 {
                                join_spaced(&types, types.len() - 1)
                            } else {
                                Vec::new()
                            };
                            let mut t = cat3("new objj_ivar(\"", &name, "\", \"");
                            push_text(&mut t, &type_sig);
                            push_str(&mut t, "\")");
                            self.emit(buffer, is_root, &t);
                        } else {
                            let t = cat3("new objj_ivar(\"", &name, "\")");
                            self.emit(buffer, is_root, &t);
                        }
                        add_name(&mut ivar_names, &name);
                        declaration = Vec::new();
                        types = Vec::new();
                        let mut taken: Option<Vec<(Vec<char>, AttrVal)>> = None;
                        std::mem::swap(&mut taken, &mut attributes);
                        if let Some(attrs) = taken {
                            accessors.push((name, attrs));
                        }
                    } else {
                        declaration.push(copy_text(&t));
                        types.push(t);
                    }
                    proof {
                        tokens.lemma_bounds();
                    }
                }
                if declaration.len() > 0 {
                    return self.fail("*** Expected ';' in ivar declaration.");
                }
                if any_ivar {
                    self.emit_lit(buffer, is_root, "]);\n");
                }
                if token.is_none() {
                    return self.fail("*** Expected '}'");
                }
                let super_opt = if text_is(&superclass_name, "Nil") {
                    None
                } else {
                    Some(copy_text(&superclass_name))
                };
                let ghost before_reg = *self;
                self.set_class_info(&class_name, super_opt, ivar_names);
                proof {
                    let i = match class_from(before_reg.classes@, class_name@, 0) {
                        Some(i) => i,
                        None => before_reg.classes@.len() as int,
                    };
                    lemma_class_from_range(before_reg.classes@, class_name@, 0);
                    assert(self.classes@[i].name@ == class_name@);
                    reg = Some(i);
                    rec_fixed = ivars_only(ts0, p0);
                    cls_set = self.classes;
                    close_e = tokens.pos();
                    if rec_fixed {
                        reveal_strlit("Nil");
                        assert(ivars_block);
                        let names = match ib { Some((nm, e)) => nm, None => Seq::empty() };
                        assert(texts_view(self.classes@[i].ivars@) == names);
                        assert(opt_text(self.classes@[i].super_name) == recorded_super(ts0, p0));
                        assert(self.class_recorded(class_name@, recorded_super(ts0, p0), names));
                    }
                }
                let all_ivar_names = self.all_ivar_names_for_class(&class_name);
                let mut a: usize = 0;
                while a < accessors.len()
                    invariant
                        self.wf(),
                        reg matches Some(i) ==> 0 <= i < self.classes@.len() && self.classes@[i].name@ == class_name@,
                        reg is Some,
                        self.classes_extend(old(self)),
                        class_header_ok(old(tokens).toks(), old(tokens).pos()),
                        self.url == old(self).url,
                        !simple,
                        simple == empty_class(old(tokens).toks(), old(tokens).pos()),
                        a <= accessors.len(),
                        tokens.wf(),
                        tokens.toks() == old(tokens).toks(),
                        advanced(*old(tokens), *tokens),
                        a == 0 ==> self.classes == cls_set && tokens.pos() == close_e,
                        rec_fixed ==> accessors@.len() == 0,
                    decreases accessors.len() - a,
                {
                    let ivar_name = &accessors[a].0;
                    let accessor = &accessors[a].1;
                    let property = match attr_get(accessor, "property") {
                        Some(AttrVal::Str(p)) => copy_text(p),
                        _ => copy_text(ivar_name),
                    };
                    let getter_name = match attr_get(accessor, "getter") {
                        Some(AttrVal::Str(g)) => copy_text(g),
                        _ => copy_text(&property),
                    };
                    let mut getter_code = cat3("(id)", &getter_name, "\n{\nreturn ");
                    push_text(&mut getter_code, ivar_name);
                    push_str(&mut getter_code, ";\n}");
                    if instance_methods.atoms.len() > 0 {
                        instance_methods.push_chars(&lit(",\n"));
                    }
                    let mut lx = Lexer::from_text(&getter_code);
                    let m = self.method(&mut lx, &all_ivar_names, true)?;
                    instance_methods.push_b(&m);
                    if attr_get(accessor, "readonly").is_none() {
                        let setter_name = match attr_get(accessor, "setter") {
                            Some(AttrVal::Str(st)) => copy_text(st),
                            _ => match default_setter_name(&property) {
                                Some(n) => n,
                                None => {
                                    return self.fail_with("*** Can't derive a setter name from property \"", &property, "\".");
                                },
                            },
                        };
                        let mut setter_code = cat3("(void)", &setter_name, "(id)newValue\n{\n");
                        if attr_get(accessor, "copy").is_some() {
                            push_str(&mut setter_code, "if (");
                            push_text(&mut setter_code, ivar_name);
                            push_str(&mut setter_code, " !== newValue)\n");
                            push_text(&mut setter_code, ivar_name);
                            push_str(&mut setter_code, " = [newValue copy];\n}");
                        } else {
                            push_text(&mut setter_code, ivar_name);
                            push_str(&mut setter_code, " = newValue;\n}");
                        }
                        if instance_methods.atoms.len() > 0 {
                            instance_methods.push_chars(&lit(",\n"));
                        }
                        let mut lx = Lexer::from_text(&setter_code);
                        let m = self.method(&mut lx, &all_ivar_names, true)?;
                        instance_methods.push_b(&m);
                    }
                    a = a + 1;
                }
            } else {
                tokens.previous();
            }
            proof {
                if is_root && simple {
                    assert(texts_view(self.pending_root@) =~= Seq::<Seq<char>>::empty());
                }
            }
            self.emit_lit(buffer, is_root, "objj_registerClassPair(the_class);\n");
            proof {
                let rs = buffer.rendered();
                let rt = "objj_registerClassPair(the_class);\n"@;
                reg_x = rs.subrange(pair_seg.len() as int, rs.len() - rt.len());
                assert(pair_seg + reg_x + rt =~= rs);
            }
        }
        let ghost r1 = buffer.rendered();
        proof {
            if simple {
                assert(r1 == old(buffer).rendered() + pre
                    + ("{var the_class = objj_allocateClassPair(Nil, \""@ + class_name@ + "\"),\nmeta_class = the_class.isa;"@
                    + "objj_registerClassPair(the_class);\n"@));
                assert(tokens.pos() == b - 1);
            }
        }
        let ivar_names = self.all_ivar_names_for_class(&class_name);
        let ghost mut first = true;
        loop
            invariant_except_break
                first ==> simple ==> tokens.pos() == b - 1,
                rec_fixed ==> first,
                rec_fixed && first ==> tokens.pos() == close_e,
            invariant
                self.wf(),
                reg matches Some(i) ==> 0 <= i < self.classes@.len() && self.classes@[i].name@ == class_name@,
                ivars_block ==> reg is Some,
                rec_fixed ==> token_at(ts0, solid_from(ts0, close_e + 1)) == Some("@"@)
                    && token_at(ts0, solid_from(ts0, close_e + 1) + 1) == Some("end"@) && 0 <= close_e,
                rec_fixed && first ==> self.classes == cls_set,
                self.classes_extend(old(self)),
                class_header_ok(old(tokens).toks(), old(tokens).pos()),
                self.url == old(self).url,
                advanced(*old(tokens), *tokens),
                old(tokens).saved().len() == 0,
                ts0 == tokens.toks(),
                !first ==> !simple,
                simple == empty_class(old(tokens).toks(), old(tokens).pos()),
                pre == (if is_root { concat(texts_view(old(self).pending_root@)) } else { Seq::<char>::empty() }),
                simple ==> r1 == old(buffer).rendered() + pre
                    + ("{var the_class = objj_allocateClassPair(Nil, \""@ + class_name@ + "\"),\nmeta_class = the_class.isa;"@
                    + "objj_registerClassPair(the_class);\n"@),
                simple ==> class_name@ == class_operand(old(tokens).toks(), old(tokens).pos()),
                simple ==> (buffer.rendered() == r1 && instance_methods.atoms@.len() == 0
                    && class_methods.atoms@.len() == 0 && (is_root ==> self.pending_root@.len() == 0)
                    && b < ts0.len() && ts0[b] == "@"@ && token_at(ts0, b + 1) == Some("end"@)),
            ensures
                rec_fixed ==> self.classes == cls_set,
            decreases tokens.toks().len() - tokens.pos(),
        {
            proof {
                tokens.lemma_bounds();
            }
            let ghost pq = tokens.pos();
            token = tokens.skip_ws();
            proof {
                if first && rec_fixed {
                    tokens.lemma_bounds();
                    assert forall|k: int| pq + 1 <= k < tokens.pos() implies ws_token(#[trigger] tokens.toks()[k]) by {
                        assert(pq < k < tokens.pos());
                    }
                    lemma_solid_from(tokens.toks(), pq + 1, tokens.pos());
                    reveal_strlit("@");
                    reveal_strlit("+");
                    reveal_strlit("-");
                    reveal_strlit("#");
                    reveal_strlit("end");
                }
                if first && simple {
                    tokens.lemma_bounds();
                    reveal_strlit("@");
                    assert(ts0[b].len() == 1 && ts0[b][0] == '@');
                    assert(!space_char(ts0[b][0]));
                    assert(!ws_token(ts0[b]));
                    if tokens.pos() != b {
                        assert(pq < b < tokens.pos());
                        assert(ws_token(tokens.toks()[b]));
                    }
                    assert(tokens.pos() == b);
                    reveal_strlit("+");
                    reveal_strlit("-");
                    reveal_strlit("#");
                    reveal_strlit("end");
                }
            }
            let t = match &token {
                None => break,
                Some(x) => copy_text(x),
            };
            if text_is(&t, "+") {
                self.class_method = true;
                if class_methods.atoms.len() > 0 {
                    class_methods.push_chars(&lit(", "));
                }
                let class_vars = copy_names(&self.class_vars);
                proof {
                    tokens.lemma_bounds();
                }
                let m = self.method(tokens, &class_vars, false)?;
                class_methods.push_b(&m);
            } else if text_is(&t, "-") {
                self.class_method = false;
                if instance_methods.atoms.len() > 0 {
                    instance_methods.push_chars(&lit(", "));
                }
                proof {
                    tokens.lemma_bounds();
                }
                let m = self.method(tokens, &ivar_names, false)?;
                instance_methods.push_b(&m);
            } else if text_is(&t, "#") {
                self.hash(tokens)?;
            } else if text_is(&t, "@") {
                let d = or_empty(tokens.next());
                if text_is(&d, "end") {
                    break;
                } else {
                    return self.fail_with("*** Expected \"@end\", found \"@", &d, "\".");
                }
            }
            proof {
                tokens.lemma_bounds();
                first = false;
            }
        }
        if instance_methods.atoms.len() > 0 {
            self.emit_lit(buffer, is_root, "class_addMethods(the_class, [");
            self.emit_buf(buffer, is_root, &instance_methods);
            self.emit_lit(buffer, is_root, "]);\n");
        }
        if class_methods.atoms.len() > 0 {
            self.emit_lit(buffer, is_root, "class_addMethods(meta_class, [");
            self.emit_buf(buffer, is_root, &class_methods);
            self.emit_lit(buffer, is_root, "]);\n");
        }
        proof {
            if is_root && simple {
                assert(texts_view(self.pending_root@) =~= Seq::<Seq<char>>::empty());
            }
        }
        self.emit_lit(buffer, is_root, "}");
        self.current_class = Vec::new();
        proof {
            if !is_category(old(tokens).toks(), old(tokens).pos()) {
                assert(registered_after(pair_seg, reg_x, buffer.rendered()));
            }
        }
        proof {
            if simple {
                assert(buffer.rendered() =~= old(buffer).rendered() + pre + empty_class_code(class_name@));
            }
            if ivars_only(ts0, p0) {
                assert(rec_fixed);
            }
        }
        Ok(())
    }
}

/// The internal form of a macro value.
fn macro_from_value(v: &MacroValue) -> (m: Macro)
    ensures
        match *v {
            MacroValue::Flag(b) => m == Macro::Flag(b),
            MacroValue::Str(t) => m matches Macro::Text(x) && x@ == t@,
            MacroValue::Func { params, body } => m matches Macro::Func(ps, bd)
                && texts_view(ps@) == string_views(params@) && bd@ == body@,
        },
{
    match v {
        MacroValue::Flag(b) => Macro::Flag(*b),
        MacroValue::Str(t) => Macro::Text(chars_of(t.as_str())),
        MacroValue::Func { params, body } => {
            let mut ps: Vec<Vec<char>> = Vec::new();
            let mut i: usize = 0;
            while i < params.len()
                invariant
                    i <= params.len(),
                    texts_view(ps@) == string_views(params@.take(i as int)),
                decreases params.len() - i,
            {
                let ghost before = ps@;
                ps.push(chars_of(params[i].as_str()));
                proof {
                    assert(texts_view(ps@) =~= texts_view(before).push(params@[i as int]@));
                    assert(params@.take(i + 1) == params@.take(i as int).push(params@[i as int]));
                    lemma_views_push(params@.take(i as int), params@[i as int]);
                }
                i = i + 1;
            }
            proof {
                assert(params@.take(i as int) == params@);
            }
            Macro::Func(ps, chars_of(body.as_str()))
        },
    }
}

/// The public form of a macro value.
fn value_from_macro(m: &Macro) -> (v: MacroValue)
    ensures
        match *m {
            Macro::Flag(b) => v == MacroValue::Flag(b),
            Macro::Text(t) => v matches MacroValue::Str(x) && x@ == t@,
            Macro::Func(params, body) => v matches MacroValue::Func { params: ps, body: bd }
                && string_views(ps@) == texts_view(params@) && bd@ == body@,
        },
{
    match m {
        Macro::Flag(b) => MacroValue::Flag(*b),
        Macro::Text(t) => MacroValue::Str(string_of(t)),
        Macro::Func(params, body) => {
            let mut ps: Vec<String> = Vec::new();
            let mut i: usize = 0;
            while i < params.len()
                invariant
                    i <= params.len(),
                    string_views(ps@) == texts_view(params@.take(i as int)),
                decreases params.len() - i,
            {
                let x = string_of(&params[i]);
                proof {
                    lemma_views_push(ps@, x);
                    assert(texts_view(params@.take(i + 1)) =~= texts_view(params@.take(i as int)).push(params@[i as int]@));
                }
                ps.push(x);
                i = i + 1;
            }
            proof {
                assert(params@.take(i as int) == params@);
            }
            MacroValue::Func { params: ps, body: string_of(body) }
        },
    }
}

/// The class-object properties that class methods reach through `self`.
fn standard_class_vars() -> (names: Vec<Vec<char>>)
    ensures
        texts_view(names@) == seq!["isa"@, "super_class"@, "name"@, "version"@, "info"@, "ivar_list"@,
            "method_list"@, "cache"@, "subclass_list"@, "instance_size"@],
{
    let mut names: Vec<Vec<char>> = Vec::new();
    names.push(lit("isa"));
    names.push(lit("super_class"));
    names.push(lit("name"));
    names.push(lit("version"));
    names.push(lit("info"));
    names.push(lit("ivar_list"));
    names.push(lit("method_list"));
    names.push(lit("cache"));
    names.push(lit("subclass_list"));
    names.push(lit("instance_size"));
    proof {
        assert(texts_view(names@) =~= seq!["isa"@, "super_class"@, "name"@, "version"@, "info"@, "ivar_list"@,
            "method_list"@, "cache"@, "subclass_list"@, "instance_size"@]);
    }
    names
}

impl Preprocessor {
    fn run(source: &str, opts: &CompileOptions) -> (r: R<CompileResult>)
        requires
            opts.defines.wf(),
            opts.classes.wf(),
        ensures
            r matches Ok(res) ==> res.defines.wf() && res.classes.wf(),
            opts.defines.entries().len() == 0 && plain_tokens(tokenize(script_text(source@).push('\n')))
                ==> (r matches Ok(res) && res.code@ == script_text(source@).push('\n') && res.dependencies@.len() == 0
                    && res.defines.entries().len() == 0 && same_class_names(res.classes, opts.classes) && same_classes(res.classes, opts.classes)),
            // Plain code and `@import` lines: the code is copied with each
            // import commented out, and the imports become the dependencies,
            // in order, quoted ones local.
            opts.defines.entries().len() == 0 ==> match items_from(tokenize(script_text(source@).push('\n')), 0) {
                Some((c, d)) => r matches Ok(res) && res.code@ == c && dependency_views(res.dependencies@) == d
                    && res.defines.entries().len() == 0 && same_class_names(res.classes, opts.classes) && same_classes(res.classes, opts.classes),
                None => true,
            },
            // With `#define` lines too: each name of a text macro is replaced
            // by its text, and the macros defined are returned.
            match items_env(tokenize(script_text(source@).push('\n')), 0, table_env(opts.defines)) {
                Some((c, d, m)) => r matches Ok(res) && res.code@ == c && dependency_views(res.dependencies@) == d
                    && table_env(res.defines) == m && same_class_names(res.classes, opts.classes) && same_classes(res.classes, opts.classes),
                None => true,
            },
            r matches Err(e) ==> error_in_file(e@, opts.source_url@),
    {
        let src = chars_of(source);
        let ghost plain = opts.defines.entries().len() == 0 && plain_tokens(tokenize(script_text(source@).push('\n')));
        let ghost simple = items_env(tokenize(script_text(source@).push('\n')), 0, table_env(opts.defines)) is Some;
        let text = if src.len() >= 2 && src[0] == '#' && src[1] == '!' {
            let mut t = lit("//");
            push_text(&mut t, &slice_text(&src, 2, src.len()));
            proof {
                reveal_strlit("//");
            }
            t
        } else {
            src
        };
        proof {
            assert(text@ == script_text(source@));
        }
        let mut defines: Vec<(Vec<char>, Macro)> = Vec::new();
        let mut i: usize = 0;
        proof {
            opts.defines.lemma_unique();
        }
        while i < opts.defines.len()
            invariant
                i <= opts.defines.entries().len(),
                defines@.len() == i,
                keys_unique(opts.defines.entries()),
                forall|k: int| 0 <= k < i ==> (#[trigger] defines@[k]).0@ == opts.defines.entries()[k].0@
                    && macro_view(defines@[k].1) == value_view(opts.defines.entries()[k].1),
                macro_names_unique(defines@),
            decreases opts.defines.entries().len() - i,
        {
            let (name, value) = opts.defines.entry(i);
            let m = macro_from_value(value);
            proof {
                assert(macro_view(m) == value_view(*value));
            }
            defines.push((chars_of(name.as_str()), m));
            proof {
                assert forall|a: int, b: int| 0 <= a < b < defines@.len() implies
                    (#[trigger] defines@[a]).0@ != (#[trigger] defines@[b]).0@ by {
                    assert(opts.defines.entries()[a].0@ != opts.defines.entries()[b].0@);
                }
            }
            i = i + 1;
        }
        let mut p = Preprocessor {
            cls: CharClasses::new(),
            url: chars_of(opts.source_url.as_str()),
            current_selector: Vec::new(),
            current_class: Vec::new(),
            current_super_class: Vec::new(),
            current_super_meta_class: Vec::new(),
            pending_root: Vec::new(),
            dependencies: Vec::new(),
            debug_symbols: opts.include_debug_symbols,
            type_signatures: opts.include_type_signatures,
            class_method: false,
            classes: Vec::new(),
            class_vars: standard_class_vars(),
            defines,
            condition_stack: Vec::new(),
            current_ivar_names: None,
        };
        let ghost defines0 = p.defines@;
        let mut k: usize = 0;
        proof {
            opts.classes.lemma_unique();
        }
        while k < opts.classes.len()
            invariant
                p.wf(),
                p.url@ == opts.source_url@,
                k <= opts.classes.entries().len(),
                p.defines@.len() == opts.defines.entries().len(),
                p.current_ivar_names is None,
                p.pending_root@.len() == 0,
                p.condition_stack@.len() == 0,
                p.defines@ == defines0,
                p.dependencies@.len() == 0,
                opts.classes.wf(),
                keys_unique(opts.classes.entries()),
                forall|nm: Seq<char>| p.knows_class(nm) <==> has_key(opts.classes.entries().take(k as int), nm),
                p.classes@.len() == k,
                forall|j: int| 0 <= j < k ==> (#[trigger] p.classes@[j]).name@ == opts.classes.entries()[j].0@
                    && rec_matches(p.classes@[j], opts.classes.entries()[j].1),
            decreases opts.classes.entries().len() - k,
        {
            let (name, info) = opts.classes.entry(k);
            let super_name = match &info.super_class_name {
                Some(s) => Some(chars_of(s.as_str())),
                None => None,
            };
            let mut ivars: Vec<Vec<char>> = Vec::new();
            let mut j: usize = 0;
            while j < info.ivars.len()
                invariant
                    j <= info.ivars.len(),
                    ivars@.len() == j,
                    texts_view(ivars@) == string_views(info.ivars@).take(j as int),
                decreases info.ivars.len() - j,
            {
                let ghost before = texts_view(ivars@);
                ivars.push(chars_of(info.ivars[j].as_str()));
                proof {
                    assert(texts_view(ivars@) =~= string_views(info.ivars@).take(j + 1));
                }
                j = j + 1;
            }
            proof {
                assert(string_views(info.ivars@).take(j as int) =~= string_views(info.ivars@));
                assert forall|jj: int| 0 <= jj < p.classes@.len() implies (#[trigger] p.classes@[jj]).name@ != name@ by {
                    assert(opts.classes.entries()[jj].0@ != opts.classes.entries()[k as int].0@);
                }
                lemma_class_from_range(p.classes@, name@, 0);
            }
            let ghost pb = p;
            p.set_class_info(&chars_of(name.as_str()), super_name, ivars);
            proof {
                Preprocessor::lemma_knows_after_set(pb, p, name@);
                lemma_has_key_take(opts.classes.entries(), k as int);
                assert(rec_matches(p.classes@[k as int], opts.classes.entries()[k as int].1));
            }
            k = k + 1;
        }
        let ghost classes0 = p.classes;
        proof {
            assert forall|i: int, j: int| 0 <= i < j < classes0@.len() implies (#[trigger] classes0@[i]).name@ != (#[trigger] classes0@[j]).name@ by {
                assert(opts.classes.entries()[i].0@ != opts.classes.entries()[j].0@);
            }
        }
        proof {
            assert(opts.classes.entries().take(opts.classes.entries().len() as int) =~= opts.classes.entries());
            assert forall|nm: Seq<char>| (exists|j: int| 0 <= j < classes0@.len() && (#[trigger] classes0@[j]).name@ == nm)
                <==> has_key(opts.classes.entries(), nm) by {
                assert(p.knows_class(nm) <==> has_key(opts.classes.entries(), nm));
            }
        }
        let mut tokens = Lexer::from_text(&text);
        let mut root = StringBuffer::new_buf();
        let mut no_label: Option<Vec<char>> = None;
        proof {
            if plain {
                assert(text@ == script_text(source@));
                let toks = tokens.toks();
                assert(toks.subrange(upto(toks, -1), toks.len() as int) =~= toks);
            }
            if simple {
                assert(text@ == script_text(source@));
                assert(texts_view(p.pending_root@) =~= Seq::<Seq<char>>::empty());
                assert(deps_view(p.dependencies@) =~= Seq::<(Seq<char>, bool)>::empty());
            }
            opts.defines.lemma_unique();
            assert forall|k: Seq<char>| #[trigger] table_env(opts.defines).dom().contains(k) <==> p.macro_env().dom().contains(k) by {
                if table_env(opts.defines).dom().contains(k) {
                    let j = choose|j: int| 0 <= j < opts.defines.entries().len() && (#[trigger] opts.defines.entries()[j]).0@ == k;
                    assert forall|y: int| 0 <= y < j implies (#[trigger] p.defines@[y]).0@ != k by {
                        assert(opts.defines.entries()[y].0@ != opts.defines.entries()[j].0@);
                    }
                    assert(first_at(p.defines@, k, j));
                }
                if p.macro_env().dom().contains(k) {
                    let j = choose|j: int| first_at(p.defines@, k, j);
                    assert(opts.defines.entries()[j].0@ == k);
                }
            }
            assert forall|k: Seq<char>| #[trigger] p.macro_env().dom().contains(k) implies table_env(opts.defines)[k] == p.macro_env()[k] by {
                let j = choose|j: int| first_at(p.defines@, k, j);
                assert(p.define_at(k, j));
                p.lemma_env_at(k, j);
                assert(opts.defines.entries()[j].0@ == k);
                let x = choose|x: int| 0 <= x < opts.defines.entries().len() && (#[trigger] opts.defines.entries()[x]).0@ == k;
                if x != j {
                    assert(opts.defines.entries()[x].0@ != opts.defines.entries()[j].0@);
                }
            }
            assert(p.macro_env() =~= table_env(opts.defines));
            if opts.defines.entries().len() == 0 {
                assert(table_env(opts.defines) =~= Map::<Seq<char>, MacroView>::empty());
            }
            if opts.defines.entries().len() == 0 && items_from(tokenize(script_text(source@).push('\n')), 0) is Some {
                lemma_items_env_empty(tokenize(script_text(source@).push('\n')), 0);
            }
        }
        let ghost root0 = root.rendered();
        p.preprocess(&mut tokens, &mut root, true, false, false, &mut no_label, false)?;
        let ghost waiting = concat(texts_view(p.pending_root@));
        proof {
            if plain {
                assert(texts_view(p.pending_root@) =~= Seq::<Seq<char>>::empty());
                assert(concat(Seq::<Seq<char>>::empty()) == Seq::<char>::empty());
            }
        }
        p.flush(&mut root);
        let code = root.to_string();
        proof {
            if simple {
                let (c, dd, m) = items_env(tokenize(script_text(source@).push('\n')), 0, table_env(opts.defines))->0;
                assert(root0 == Seq::<char>::empty());
                assert(concat(Seq::<Seq<char>>::empty()) == Seq::<char>::empty());
                assert(code@ =~= c);
            }
        }
        proof {
            if plain {
                let toks = tokenize(script_text(source@).push('\n'));
                crate::lexer::law_tokenize_concat(script_text(source@).push('\n'));
                assert(toks.subrange(0, toks.len() as int) =~= toks);
                assert(Seq::<char>::empty() + script_text(source@).push('\n') + Seq::<char>::empty() =~= script_text(source@).push('\n'));
            }
        }
        let mut dependencies: Vec<Dependency> = Vec::new();
        let mut d: usize = 0;
        while d < p.dependencies.len()
            invariant
                d <= p.dependencies.len(),
                dependencies@.len() == d,
                dependency_views(dependencies@) == deps_view(p.dependencies@).take(d as int),
            decreases p.dependencies.len() - d,
        {
            let ghost before = dependencies@;
            dependencies.push(Dependency { url: string_of(&p.dependencies[d].0), is_local: p.dependencies[d].1 });
            proof {
                assert(dependency_views(dependencies@) =~= deps_view(p.dependencies@).take(d + 1));
            }
            d = d + 1;
        }
        proof {
            assert(deps_view(p.dependencies@).take(d as int) =~= deps_view(p.dependencies@));
        }
        let mut out_defines = MacroTable::new();
        let mut d: usize = 0;
        while d < p.defines.len()
            invariant
                d <= p.defines.len(),
                out_defines.wf(),
                p.wf(),
                out_defines.entries().len() == d,
                forall|i: int| 0 <= i < d ==> (#[trigger] out_defines.entries()[i]).0@ == p.defines@[i].0@
                    && value_view(out_defines.entries()[i].1) == macro_view(p.defines@[i].1),
            decreases p.defines.len() - d,
        {
            let ghost before_out = out_defines.entries();
            let name = string_of(&p.defines[d].0);
            let value = value_from_macro(&p.defines[d].1);
            proof {
                assert(value_view(value) == macro_view(p.defines@[d as int].1));
                if has_key(before_out, name@) {
                    let w = choose|w: int| 0 <= w < before_out.len() && (#[trigger] before_out[w]).0@ == name@;
                    assert(p.defines@[w].0@ == p.defines@[d as int].0@);
                }
            }
            out_defines.insert(name, value);
            proof {
                assert(out_defines.entries()[d as int].0@ == name@) by {
                    let w = choose|w: int| 0 <= w < out_defines.entries().len() && (#[trigger] out_defines.entries()[w]).0@ == name@;
                    if w < d {
                        assert(out_defines.entries()[w] == before_out[w]);
                        assert(p.defines@[w].0@ == p.defines@[d as int].0@);
                    }
                }
                assert forall|i: int| 0 <= i < d + 1 implies (#[trigger] out_defines.entries()[i]).0@ == p.defines@[i].0@
                    && value_view(out_defines.entries()[i].1) == macro_view(p.defines@[i].1) by {
                    if i < d {
                        assert(p.defines@[i].0@ != p.defines@[d as int].0@);
                        assert(out_defines.entries()[i] == before_out[i]);
                    }
                }
            }
            d = d + 1;
        }
        proof {
            out_defines.lemma_unique();
            assert forall|k: Seq<char>| #[trigger] table_env(out_defines).dom().contains(k) <==> p.macro_env().dom().contains(k) by {
                if table_env(out_defines).dom().contains(k) {
                    let j = choose|j: int| 0 <= j < out_defines.entries().len() && (#[trigger] out_defines.entries()[j]).0@ == k;
                    assert forall|y: int| 0 <= y < j implies (#[trigger] p.defines@[y]).0@ != k by {
                        assert(p.defines@[y].0@ != p.defines@[j].0@);
                    }
                    assert(first_at(p.defines@, k, j));
                }
                if p.macro_env().dom().contains(k) {
                    let j = choose|j: int| first_at(p.defines@, k, j);
                    assert(out_defines.entries()[j].0@ == k);
                }
            }
            assert forall|k: Seq<char>| #[trigger] p.macro_env().dom().contains(k) implies table_env(out_defines)[k] == p.macro_env()[k] by {
                let j = choose|j: int| first_at(p.defines@, k, j);
                assert(p.define_at(k, j));
                p.lemma_env_at(k, j);
                assert(out_defines.entries()[j].0@ == k);
                let x = choose|x: int| 0 <= x < out_defines.entries().len() && (#[trigger] out_defines.entries()[x]).0@ == k;
                if x != j {
                    assert(out_defines.entries()[x].0@ != out_defines.entries()[j].0@);
                }
            }
            assert(table_env(out_defines) =~= p.macro_env());
        }
        let mut out_classes = ClassTable::new();
        let mut c: usize = 0;
        while c < p.classes.len()
            invariant
                c <= p.classes.len(),
                out_classes.wf(),
                forall|nm: Seq<char>| has_key(out_classes.entries(), nm)
                    <==> exists|j: int| 0 <= j < c && (#[trigger] p.classes@[j]).name@ == nm,
                (plain || simple) ==> p.classes == classes0,
                (plain || simple) ==> out_classes.entries().len() == c && forall|i: int| 0 <= i < c
                    ==> (#[trigger] out_classes.entries()[i]).0@ == p.classes@[i].name@ && rec_matches(p.classes@[i], out_classes.entries()[i].1),
                forall|i: int, j: int| 0 <= i < j < classes0@.len() ==> (#[trigger] classes0@[i]).name@ != (#[trigger] classes0@[j]).name@,
            decreases p.classes.len() - c,
        {
            let rec = &p.classes[c];
            let mut ivars: Vec<String> = Vec::new();
            let mut j: usize = 0;
            while j < rec.ivars.len()
                invariant
                    j <= rec.ivars.len(),
                    ivars@.len() == j,
                    string_views(ivars@) == texts_view(rec.ivars@).take(j as int),
                decreases rec.ivars.len() - j,
            {
                ivars.push(string_of(&rec.ivars[j]));
                proof {
                    assert(string_views(ivars@) =~= texts_view(rec.ivars@).take(j + 1));
                }
                j = j + 1;
            }
            proof {
                assert(texts_view(rec.ivars@).take(j as int) =~= texts_view(rec.ivars@));
            }
            let super_class_name = match &rec.super_name {
                Some(s) => Some(string_of(s)),
                None => None,
            };
            let info = ClassInfo { super_class_name, ivars };
            proof {
                assert(rec_matches(*rec, info));
                if plain || simple {
                    assert forall|i: int| 0 <= i < out_classes.entries().len() implies (#[trigger] out_classes.entries()[i]).0@ != rec.name@ by {
                        assert(classes0@[i].name@ != classes0@[c as int].name@);
                    }
                }
            }
            let ghost before_out = out_classes.entries();
            out_classes.insert(string_of(&rec.name), info);
            proof {
                if plain || simple {
                    assert(!has_key(before_out, rec.name@));
                    assert(out_classes.entries()[c as int].0@ == rec.name@) by {
                        let w = choose|w: int| 0 <= w < out_classes.entries().len() && (#[trigger] out_classes.entries()[w]).0@ == rec.name@;
                        if w < c {
                            assert(out_classes.entries()[w] == before_out[w]);
                        }
                    }
                }
            }
            proof {
                assert forall|nm: Seq<char>| has_key(out_classes.entries(), nm)
                    <==> exists|j: int| 0 <= j < c + 1 && (#[trigger] p.classes@[j]).name@ == nm by {
                    if nm == rec.name@ {
                        assert(p.classes@[c as int].name@ == nm);
                    }
                }
            }
            c = c + 1;
        }
        proof {
            if plain || simple {
                assert(same_classes(out_classes, opts.classes));
            }
        }
        proof {
            if plain || simple {
                assert(p.classes == classes0);
                assert forall|nm: Seq<char>| has_key(out_classes.entries(), nm) <==> has_key(opts.classes.entries(), nm) by {
                    if has_key(out_classes.entries(), nm) {
                        let j = choose|j: int| 0 <= j < c && (#[trigger] p.classes@[j]).name@ == nm;
                        assert(classes0@[j].name@ == nm);
                    }
                    if has_key(opts.classes.entries(), nm) {
                        let j = choose|j: int| 0 <= j < classes0@.len() && (#[trigger] classes0@[j]).name@ == nm;
                        assert(p.classes@[j].name@ == nm);
                    }
                }
            }
        }
        proof {
            let toks = tokenize(script_text(source@).push('\n'));
            if opts.defines.entries().len() == 0 && items_from(toks, 0) is Some {
                lemma_items_env_empty(toks, 0);
                assert(simple);
                if out_defines.entries().len() > 0 {
                    assert(has_key(out_defines.entries(), out_defines.entries()[0].0@));
                    assert(table_env(out_defines).dom().contains(out_defines.entries()[0].0@));
                }
            }
        }
        Ok(CompileResult { code, dependencies, defines: out_defines, classes: out_classes })
    }
}

/// The text that is compiled: a first line that starts with `#!` becomes
/// a comment.
pub open spec fn script_text(s: Seq<char>) -> Seq<char> {
    if s.len() >= 2 && s[0] == '#' && s[1] == '!' { "//"@ + s.subrange(2, s.len() as int) } else { s }
}

/// Whether a class record holds what a class description says.
spec fn rec_matches(r: ClassRec, c: ClassInfo) -> bool {
    &&& r.super_name is Some <==> c.super_class_name is Some
    &&& (r.super_name matches Some(x) ==> c.super_class_name matches Some(y) && x@ == y@)
    &&& texts_view(r.ivars@) == string_views(c.ivars@)
}

/// Whether two class tables hold the same classes, in the same order, with
/// the same superclasses and instance variables.
pub open spec fn same_classes(a: ClassTable, b: ClassTable) -> bool {
    &&& a.entries().len() == b.entries().len()
    &&& forall|i: int| 0 <= i < a.entries().len() ==> (#[trigger] a.entries()[i]).0@ == b.entries()[i].0@
        && same_class_info(a.entries()[i].1, b.entries()[i].1)
}

/// Whether two class tables know the same class names.
pub open spec fn same_class_names(a: ClassTable, b: ClassTable) -> bool {
    forall|name: Seq<char>| has_key(a.entries(), name) <==> has_key(b.entries(), name)
}

/// Compiles Objective-J source to JavaScript.
pub fn compile(source: &str, opts: &CompileOptions) -> (r: Result<CompileResult, String>)
    requires
        opts.defines.wf(),
        opts.classes.wf(),
    ensures
        r matches Ok(res) ==> res.defines.wf() && res.classes.wf(),
        opts.defines.entries().len() == 0 && plain_tokens(tokenize(script_text(source@).push('\n')))
            ==> (r matches Ok(res) && res.code@ == script_text(source@).push('\n') && res.dependencies@.len() == 0
                && res.defines.entries().len() == 0 && same_class_names(res.classes, opts.classes) && same_classes(res.classes, opts.classes)),
        // Plain code and `@import` lines: the code is copied with each
        // import commented out, and the imports become the dependencies,
        // in order, quoted ones local.
        opts.defines.entries().len() == 0 ==> match items_from(tokenize(script_text(source@).push('\n')), 0) {
            Some((c, d)) => r matches Ok(res) && res.code@ == c && dependency_views(res.dependencies@) == d
                && res.defines.entries().len() == 0 && same_class_names(res.classes, opts.classes) && same_classes(res.classes, opts.classes),
            None => true,
        },
        // `#define` lines too, with the macros given: each later name of a
        // text macro is replaced by its text, the definition lines are
        // dropped, and the macros defined come back by name.
        match items_env(tokenize(script_text(source@).push('\n')), 0, table_env(opts.defines)) {
            Some((c, d, m)) => r matches Ok(res) && res.code@ == c && dependency_views(res.dependencies@) == d
                && table_env(res.defines) == m && same_class_names(res.classes, opts.classes) && same_classes(res.classes, opts.classes),
            None => true,
        },
        // An error names the file being compiled.
        r matches Err(e) ==> error_in_file(e@, opts.source_url@),
{
    Preprocessor::run(source, opts)
}

} // verus!
