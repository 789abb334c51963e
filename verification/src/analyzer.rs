//! Method reachability: which selectors of the compiled classes can be
//! reached from an entry point, so that unused methods can be shaken out
//! of a bundle.
use vstd::prelude::*;
use crate::classes::{groups_view, regex_capture_spans, regex_compiles, regex_is_match, spans_view, trimmed, CharClasses, Pattern};
use crate::scan::{bytes_text, bytes_text_trimmed, group_chars, group_of, group_text, match_start, matches_of, opt_view, span0, spans_within, well_placed, whole_matches};
use vstd::utf8::{decode_utf8, encode_utf8, is_char_boundary, valid_utf8};
use vstd::string::StringSliceAdditionalSpecFns;
use crate::tables::{lemma_views_push, string_views, NameSet};
use crate::text::{chars_of, lit, lossy_text, push_str, push_text, string_of, text_eq, text_is, text_of_bytes, to_uppercase, upper_case};

verus! {

/// A compiled file: its path, its Objective-J source and the JavaScript it
/// compiled to.
pub struct CompiledEntry {
    pub path: String,
    pub source: String,
    pub code: String,
}

/// A method found in compiled code.
pub struct MethodInfo {
    pub class_name: String,
    pub function_name: String,
    pub file_path: String,
    pub is_meta_class: bool,
    pub selector: String,
}

pub struct AnalyzerOptions {
    pub mode: String,
    pub preserve_accessors: bool,
    pub preserve_kvc: bool,
    pub whitelist: Vec<String>,
    pub verbose: bool,
}

impl Default for AnalyzerOptions {
    fn default() -> (o: AnalyzerOptions)
        ensures
            o.mode@ == "safe"@,
            o.preserve_accessors,
            o.preserve_kvc,
            o.whitelist@.len() == 0,
            !o.verbose,
    {
        AnalyzerOptions {
            mode: String::from_str("safe"),
            preserve_accessors: true,
            preserve_kvc: true,
            whitelist: Vec::new(),
            verbose: false,
        }
    }
}

pub struct AnalysisStats {
    pub total_methods: usize,
    pub reachable_methods: usize,
    pub dynamic_classes: usize,
    pub kvc_keys: usize,
}

pub struct AnalysisResult {
    pub reachable_selectors: NameSet,
    pub dynamic_classes: NameSet,
    pub stats: AnalysisStats,
}

/// The selectors a running program may send whatever the code says.
pub open spec fn framework_selectors() -> Seq<Seq<char>> {
    seq![
        "alloc"@, "init"@, "new"@, "dealloc"@, "finalize"@, "initialize"@, "description"@,
        "isEqual:"@, "hash"@, "copy"@, "copyWithZone:"@, "valueForKey:"@, "setValue:forKey:"@,
        "valueForKeyPath:"@, "setValue:forKeyPath:"@, "valueForUndefinedKey:"@,
        "setValue:forUndefinedKey:"@,
    ]
}

/// The selectors an analysis with `whitelist` always keeps.
pub open spec fn kept_selectors(whitelist: Seq<String>) -> Set<Seq<char>> {
    framework_selectors().to_set() + string_views(whitelist).to_set()
}

/// The selectors of a list of methods.
pub open spec fn method_selectors(ms: Seq<MethodInfo>) -> Seq<Seq<char>> {
    ms.map_values(|m: MethodInfo| m.selector@)
}

/// How many of the methods have a selector in `sels`.
pub open spec fn count_in(sels: Seq<Seq<char>>, s: Set<Seq<char>>) -> nat
    decreases sels.len(),
{
    if sels.len() == 0 {
        0
    } else {
        count_in(sels.drop_last(), s) + (if s.contains(sels.last()) { 1nat } else { 0nat })
    }
}

pub proof fn lemma_count_in_bound(sels: Seq<Seq<char>>, s: Set<Seq<char>>)
    ensures
        count_in(sels, s) <= sels.len(),
    decreases sels.len(),
{
    if sels.len() > 0 {
        lemma_count_in_bound(sels.drop_last(), s);
    }
}

pub struct MethodReachabilityAnalyzer<'a> {
    compiled: &'a [CompiledEntry],
    options: AnalyzerOptions,
    reachable_selectors: NameSet,
    methods: Vec<MethodInfo>,
    dynamic_classes: NameSet,
    kvc_selectors: NameSet,
    always_keep: NameSet,
    cls: CharClasses,
}

// ---------------------------------------------------------------------------
// Scanning compiled code
// ---------------------------------------------------------------------------

/// The first position at or after `p` that holds `b`, or the length of
/// `code` where none does.
pub open spec fn first_from(code: Seq<u8>, b: u8, p: int) -> int
    decreases code.len() - p,
{
    if p >= code.len() {
        code.len() as int
    } else if code[p] == b {
        p
    } else {
        first_from(code, b, p + 1)
    }
}

/// A quote (`"` or `'`) at `p` that no backslash escapes.
pub open spec fn quote_at(code: Seq<u8>, p: int) -> bool {
    (code[p] == 34u8 || code[p] == 39u8) && !(p > 0 && code[p - 1] == 92u8)
}

/// Where a scan of code stands: the nesting depth of the brackets it
/// counts, whether it is inside a string literal and which quote opened
/// it, and how many commas it has passed at depth one.
pub struct ScanState {
    pub depth: int,
    pub in_string: bool,
    pub quote: u8,
    pub commas: int,
}

/// The scan after the byte at `p`: a quote opens or closes a string
/// literal, and outside string literals `open` and `close` nest.
pub open spec fn scan_step(code: Seq<u8>, p: int, s: ScanState, open: u8, close: u8) -> ScanState {
    let c = code[p];
    let in_string = if quote_at(code, p) && (!s.in_string || c == s.quote) { !s.in_string } else { s.in_string };
    let quote = if quote_at(code, p) && !s.in_string { c } else { s.quote };
    ScanState {
        depth: if in_string { s.depth } else if c == open { s.depth + 1 } else if c == close { s.depth - 1 } else { s.depth },
        in_string,
        quote,
        commas: if !in_string && c == 44u8 && s.depth == 1 { s.commas + 1 } else { s.commas },
    }
}

/// The scan of `code[from..p]`, started inside one open bracket.
pub open spec fn scan(code: Seq<u8>, from: int, p: int, open: u8, close: u8) -> ScanState
    decreases p - from,
{
    if p <= from {
        ScanState { depth: 1, in_string: false, quote: 0u8, commas: 0 }
    } else {
        scan_step(code, p - 1, scan(code, from, p - 1, open, close), open, close)
    }
}

/// Where the scan of `code` from `from` leaves the bracket it started in:
/// the first position at or after `p` whose depth is zero, or the length
/// of `code`.
pub open spec fn block_end(code: Seq<u8>, from: int, p: int) -> int
    decreases code.len() - p,
{
    if p >= code.len() || scan(code, from, p, 123u8, 125u8).depth <= 0 {
        p
    } else {
        block_end(code, from, p + 1)
    }
}

/// Whether the scan of a call's arguments from `from` meets, at `p`, a
/// comma between arguments or the parenthesis that closes the call.
pub open spec fn arg_event(code: Seq<u8>, from: int, p: int) -> bool {
    let s = scan(code, from, p, 40u8, 41u8);
    let t = scan_step(code, p, s, 40u8, 41u8);
    t.depth == 0 || t.commas > s.commas
}

/// The first such event at or after `p`, or the length of `code`.
pub open spec fn next_arg_event(code: Seq<u8>, from: int, p: int) -> int
    decreases code.len() - p,
{
    if p >= code.len() {
        code.len() as int
    } else if arg_event(code, from, p) {
        p
    } else {
        next_arg_event(code, from, p + 1)
    }
}

/// The byte range of the second argument of the call whose opening
/// parenthesis is at `o`, if the call has one and is closed.
pub open spec fn second_arg(code: Seq<u8>, o: int) -> Option<(int, int)> {
    let from = o + 1;
    let q1 = next_arg_event(code, from, from);
    if q1 >= code.len() || scan_step(code, q1, scan(code, from, q1, 40u8, 41u8), 40u8, 41u8).depth == 0 {
        None
    } else {
        let q2 = next_arg_event(code, from, q1 + 1);
        if q2 >= code.len() {
            None
        } else {
            Some((q1 + 1, q2))
        }
    }
}

/// Whether the scan of a call's arguments from `from` meets, at `p`, the
/// parenthesis that closes the call or a string literal opening in the
/// second argument.
pub open spec fn selector_event(code: Seq<u8>, from: int, p: int) -> bool {
    let s = scan(code, from, p, 40u8, 41u8);
    ||| scan_step(code, p, s, 40u8, 41u8).depth == 0
    ||| (quote_at(code, p) && !s.in_string && s.commas == 1)
}

/// The first such event at or after `p`, or the length of `code`.
pub open spec fn next_selector_event(code: Seq<u8>, from: int, p: int) -> int
    decreases code.len() - p,
{
    if p >= code.len() {
        code.len() as int
    } else if selector_event(code, from, p) {
        p
    } else {
        next_selector_event(code, from, p + 1)
    }
}

/// The first position at or after `p` where the string literal the scan
/// is in closes, or the length of `code`.
pub open spec fn next_string_close(code: Seq<u8>, from: int, p: int) -> int
    decreases code.len() - p,
{
    if p >= code.len() {
        code.len() as int
    } else if ({
        let s = scan(code, from, p, 40u8, 41u8);
        quote_at(code, p) && s.in_string && code[p] == s.quote
    }) {
        p
    } else {
        next_string_close(code, from, p + 1)
    }
}

/// The byte range of the first string literal in the second argument of
/// the first call opened at or after `p`, quotes left out.
pub open spec fn call_selector(code: Seq<u8>, p: int) -> Option<(int, int)> {
    let o = first_from(code, 40u8, p);
    let from = o + 1;
    let q1 = next_selector_event(code, from, from);
    if o >= code.len() || q1 >= code.len() || scan_step(code, q1, scan(code, from, q1, 40u8, 41u8), 40u8, 41u8).depth == 0 {
        None
    } else {
        let q2 = next_string_close(code, from, q1 + 1);
        if q2 >= code.len() {
            None
        } else {
            Some((q1 + 1, q2))
        }
    }
}

/// Opening minus closing parentheses in `code[a..k]`.
pub open spec fn nest(code: Seq<u8>, a: int, k: int) -> int
    decreases k - a,
{
    if k <= a {
        0
    } else {
        nest(code, a, k - 1) + (if code[k - 1] == 40u8 { 1int } else if code[k - 1] == 41u8 { -1int } else { 0int })
    }
}

/// Whether `code[a..b]` is a single argument of a call: its parentheses
/// balance and never close more than they opened, it holds no quote, and
/// every comma in it lies inside nested parentheses.
pub open spec fn balanced_arg(code: Seq<u8>, a: int, b: int) -> bool {
    &&& 0 <= a <= b <= code.len()
    &&& nest(code, a, b) == 0
    &&& forall|k: int| a < k <= b ==> #[trigger] nest(code, a, k) >= 0
    &&& forall|k: int| a <= k < b ==> code[k] != 34u8 && code[k] != 39u8
    &&& forall|k: int| a <= k < b && code[k] == 44u8 ==> nest(code, a, k) >= 1
}

/// Across a single argument the scan of a call stays in the call, outside
/// strings, with no argument-separating comma counted.
proof fn lemma_scan_balanced(code: Seq<u8>, from: int, b: int, k: int)
    requires
        balanced_arg(code, from, b),
        from <= k <= b,
    ensures
        scan(code, from, k, 40u8, 41u8) == (ScanState { depth: 1 + nest(code, from, k), in_string: false, quote: 0u8, commas: 0 }),
    decreases k - from,
{
    if k > from {
        lemma_scan_balanced(code, from, b, k - 1);
        assert(code[k - 1] != 34u8 && code[k - 1] != 39u8);
        if code[k - 1] == 44u8 {
            assert(nest(code, from, k - 1) >= 1);
        }
    }
}

/// Between the comma and the opening quote of the selector the scan has
/// passed one argument.
proof fn lemma_scan_gap(code: Seq<u8>, from: int, b: int, q: int, k: int)
    requires
        balanced_arg(code, from, b),
        b < q <= code.len(),
        code[b] == 44u8,
        forall|j: int| b < j < q ==> code[j] == 32u8,
        b + 1 <= k <= q,
    ensures
        scan(code, from, k, 40u8, 41u8) == (ScanState { depth: 1, in_string: false, quote: 0u8, commas: 1 }),
    decreases k - b,
{
    if k == b + 1 {
        lemma_scan_balanced(code, from, b, b);
    } else {
        lemma_scan_gap(code, from, b, q, k - 1);
    }
}

/// Inside the selector's string literal the scan stays in the string.
proof fn lemma_scan_string(code: Seq<u8>, from: int, b: int, q: int, e: int, k: int)
    requires
        balanced_arg(code, from, b),
        b < q < e <= code.len(),
        code[b] == 44u8,
        forall|j: int| b < j < q ==> code[j] == 32u8,
        code[q] == 34u8,
        forall|j: int| q < j < e ==> code[j] != 34u8 && code[j] != 39u8,
        q + 1 <= k <= e,
    ensures
        scan(code, from, k, 40u8, 41u8) == (ScanState { depth: 1, in_string: true, quote: 34u8, commas: 1 }),
    decreases k - q,
{
    if k == q + 1 {
        lemma_scan_gap(code, from, b, q, q);
    } else {
        lemma_scan_string(code, from, b, q, e, k - 1);
    }
}

/// No selector event lies in `[p, q)`, and one lies at `q`.
proof fn lemma_next_event(code: Seq<u8>, from: int, p: int, q: int)
    requires
        p <= q < code.len(),
        forall|j: int| p <= j < q ==> !selector_event(code, from, j),
        selector_event(code, from, q),
    ensures
        next_selector_event(code, from, p) == q,
    decreases q - p,
{
    if p < q {
        lemma_next_event(code, from, p + 1, q);
    }
}

/// Whether the string literal the scan is in closes at `j`.
spec fn string_closes_at(code: Seq<u8>, from: int, j: int) -> bool {
    let s = scan(code, from, j, 40u8, 41u8);
    quote_at(code, j) && s.in_string && code[j] == s.quote
}

/// The string literal closes first at `e`.
proof fn lemma_next_close(code: Seq<u8>, from: int, p: int, e: int)
    requires
        p <= e < code.len(),
        forall|j: int| p <= j < e ==> !#[trigger] string_closes_at(code, from, j),
        string_closes_at(code, from, e),
    ensures
        next_string_close(code, from, p) == e,
    decreases e - p,
{
    if p < e {
        assert(!string_closes_at(code, from, p));
        lemma_next_close(code, from, p + 1, e);
    } else {
        assert(string_closes_at(code, from, e));
    }
}

/// The selector of a message send `objj_msgSend(R, "s", ...)` is `s`
/// for every receiver `R` that is one argument, however many nested calls
/// with commas it holds: commas inside nested parentheses do not separate
/// the call's arguments.
pub proof fn law_selector_after_receiver(code: Seq<u8>, o: int, b: int, q: int, e: int)
    requires
        0 <= o < code.len(),
        code[o] == 40u8,
        balanced_arg(code, o + 1, b),
        b < q < e < code.len(),
        code[b] == 44u8,
        forall|j: int| b < j < q ==> code[j] == 32u8,
        code[q] == 34u8,
        code[e] == 34u8,
        forall|j: int| q < j < e ==> code[j] != 34u8 && code[j] != 39u8 && code[j] != 92u8,
    ensures
        call_selector(code, o) == Some((q + 1, e)),
{
    let from = o + 1;
    assert(first_from(code, 40u8, o) == o);
    assert forall|j: int| from <= j < q implies !selector_event(code, from, j) by {
        if j < b {
            lemma_scan_balanced(code, from, b, j);
            lemma_scan_balanced(code, from, b, j + 1);
            assert(nest(code, from, j + 1) >= 0);
        } else if j == b {
            lemma_scan_balanced(code, from, b, b);
        } else {
            lemma_scan_gap(code, from, b, q, j);
        }
    }
    lemma_scan_gap(code, from, b, q, q);
    assert(selector_event(code, from, q));
    lemma_next_event(code, from, from, q);
    assert forall|j: int| q + 1 <= j < e implies !#[trigger] string_closes_at(code, from, j) by {
        lemma_scan_string(code, from, b, q, e, j);
    }
    lemma_scan_string(code, from, b, q, e, e);
    lemma_next_close(code, from, q + 1, e);
}

/// The byte range of the second argument of the first call opened at or
/// after `p`.
pub open spec fn call_arg(code: Seq<u8>, p: int) -> Option<(int, int)> {
    let o = first_from(code, 40u8, p);
    if o < code.len() { second_arg(code, o) } else { None }
}

/// The matches of `pattern` in `text`: none where it does not compile.
pub open spec fn matches_in_text(pattern: Seq<char>, text: Seq<char>) -> Seq<Seq<Option<(int, int)>>> {
    if regex_compiles(pattern) { regex_capture_spans(pattern, text) } else { Seq::empty() }
}

pub open spec fn method_list_pattern() -> Seq<char> {
    r"class_addMethods\((the_class|meta_class),\s*\[([\s\S]*?)\]\);"@
}

pub open spec fn method_def_pattern() -> Seq<char> {
    r#"new objj_method\(sel_getUid\("([^"]+)"\),\s*function\s*(\$\w+)?"#@
}

/// The text of an optional group, or nothing.
pub open spec fn or_nothing(o: Option<Seq<char>>) -> Seq<char> {
    match o {
        Some(t) => t,
        None => Seq::empty(),
    }
}

/// The selectors named by method definition matches `ms` of `block`.
pub open spec fn selectors_of_matches(block: Seq<char>, ms: Seq<Seq<Option<(int, int)>>>) -> Seq<Seq<char>> {
    Seq::new(ms.len(), |k: int| or_nothing(group_chars(block, ms[k], 1)))
}

/// The selectors defined in the first `n` method lists `bs` of `code`.
pub open spec fn lists_selectors(code: Seq<char>, bs: Seq<Seq<Option<(int, int)>>>, n: int) -> Seq<Seq<char>>
    decreases n,
{
    if n <= 0 {
        Seq::empty()
    } else {
        let block = or_nothing(group_chars(code, bs[n - 1], 2));
        lists_selectors(code, bs, n - 1) + selectors_of_matches(block, matches_in_text(method_def_pattern(), block))
    }
}

/// The selectors of the methods defined in compiled code, in order.
pub open spec fn selectors_in_code(code: Seq<char>) -> Seq<Seq<char>> {
    if code.len() == 0 {
        Seq::empty()
    } else {
        let bs = matches_in_text(method_list_pattern(), code);
        lists_selectors(code, bs, bs.len() as int)
    }
}

/// Where each method is and which selector it has.
pub open spec fn method_keys(ms: Seq<MethodInfo>) -> Seq<(Seq<char>, Seq<char>)> {
    ms.map_values(|m: MethodInfo| (m.file_path@, m.selector@))
}

/// The file and selector of each method defined in the first `n` files.
pub open spec fn keys_in_entries(cs: Seq<CompiledEntry>, n: int) -> Seq<(Seq<char>, Seq<char>)>
    decreases n,
{
    if n <= 0 {
        Seq::empty()
    } else {
        keys_in_entries(cs, n - 1) + selectors_in_code(cs[n - 1].code@).map_values(|x: Seq<char>| (cs[n - 1].path@, x))
    }
}

/// The selectors of the methods defined in the first `n` files.
pub open spec fn selectors_in_entries(cs: Seq<CompiledEntry>, n: int) -> Seq<Seq<char>>
    decreases n,
{
    if n <= 0 {
        Seq::empty()
    } else {
        selectors_in_entries(cs, n - 1) + selectors_in_code(cs[n - 1].code@)
    }
}

/// A message send: `objj_msgSend(` or `objj_msgSendSuper(`.
pub open spec fn send_pattern() -> Seq<char> {
    r"objj_msgSend(?:Super)?\("@
}

/// The selector of send `k` of `text`, if it is written out as a string
/// literal.
pub open spec fn send_at(text: Seq<char>, k: int) -> Option<Seq<char>> {
    let bytes = encode_utf8(text);
    let ms = matches_in_text(send_pattern(), text);
    match call_selector(bytes, span0(ms[k]).0) {
        Some(ab) => Some(lossy_text(bytes.subrange(ab.0, ab.1))),
        None => None,
    }
}

/// The selectors written out in the first `n` sends of `text`.
pub open spec fn sends_upto(text: Seq<char>, n: int) -> Set<Seq<char>> {
    Set::new(|x: Seq<char>| exists|k: int| 0 <= k < n && #[trigger] send_at(text, k) == Some(x))
}

/// The selectors that `text` sends, written out.
pub open spec fn sends_in(text: Seq<char>) -> Set<Seq<char>> {
    Set::new(|x: Seq<char>| exists|k: int| 0 <= k < matches_in_text(send_pattern(), text).len()
        && #[trigger] send_at(text, k) == Some(x))
}

/// The text of the body of method `m` in the compiled files `cs`, if its
/// file defines it.
pub open spec fn method_body(cs: Seq<CompiledEntry>, m: MethodInfo) -> Option<Seq<char>> {
    match entry_for(cs, m.file_path@, 0) {
        Some(e) => match body_start(cs[e].code@, m.selector@) {
            Some(a) => {
                let code = encode_utf8(cs[e].code@);
                let b = block_end(code, a, a) - 1;
                Some(if b < a { Seq::empty() } else { lossy_text(code.subrange(a, b)) })
            },
            None => None,
        },
        None => None,
    }
}

/// The first pattern that finds the function `entry_point`:
/// `var entry_point = function (...) {...}`.
pub open spec fn entry_var_pattern(entry_point: Seq<char>) -> Seq<char> {
    r"(?m)var\s+"@ + escaped(entry_point) + r"\s*=\s*function\s*\([^)]*\)\s*\{([\s\S]*?)\n\}"@
}

/// The second pattern that finds the function `entry_point`:
/// `function entry_point(...) {...}`.
pub open spec fn entry_fn_pattern(entry_point: Seq<char>) -> Seq<char> {
    r"(?m)function\s+"@ + escaped(entry_point) + r"\s*\([^)]*\)\s*\{([\s\S]*?)\n\}"@
}

/// The body of the function `entry_point` in the files `cs` from `e` on:
/// the first file that defines it, by the first pattern that finds it.
pub open spec fn entry_body_from(cs: Seq<CompiledEntry>, entry_point: Seq<char>, e: int) -> Option<Seq<char>>
    decreases cs.len() - e,
{
    if e < 0 || e >= cs.len() {
        None
    } else {
        let code = cs[e].code@;
        let m1 = matches_in_text(entry_var_pattern(entry_point), code);
        let m2 = matches_in_text(entry_fn_pattern(entry_point), code);
        if code.len() > 0 && m1.len() > 0 {
            Some(or_nothing(group_chars(code, m1[0], 1)))
        } else if code.len() > 0 && m2.len() > 0 {
            Some(or_nothing(group_chars(code, m2[0], 1)))
        } else {
            entry_body_from(cs, entry_point, e + 1)
        }
    }
}

/// The selectors that the function `entry_point` sends, directly or
/// through the methods of the selectors it reaches: what every set closed
/// under sends holds.
pub open spec fn sent_from_entry(ms: Seq<MethodInfo>, cs: Seq<CompiledEntry>, entry_point: Seq<char>) -> Set<Seq<char>> {
    Set::new(|x: Seq<char>| forall|w: Set<Seq<char>>| #[trigger] closed_under_sends(w, ms, cs, entry_point) ==> w.contains(x))
}

/// `v` holds every selector that the function `entry_point` sends, and
/// every selector sent by the body of a method whose selector `v` holds.
pub open spec fn closed_under_sends(v: Set<Seq<char>>, ms: Seq<MethodInfo>, cs: Seq<CompiledEntry>, entry_point: Seq<char>) -> bool {
    &&& entry_body_from(cs, entry_point, 0) matches Some(b) ==> sends_in(b).subset_of(v)
    &&& forall|i: int| 0 <= i < ms.len() && v.contains(ms[i].selector@) ==>
        (#[trigger] method_body(cs, ms[i]) matches Some(b) ==> sends_in(b).subset_of(v))
}

/// Every method with selector `s` whose body is found sends only
/// selectors `v` holds.
pub open spec fn expanded(s: Seq<char>, ms: Seq<MethodInfo>, cs: Seq<CompiledEntry>, v: Set<Seq<char>>) -> bool {
    forall|i: int| 0 <= i < ms.len() && ms[i].selector@ == s ==>
        (#[trigger] method_body(cs, ms[i]) matches Some(b) ==> sends_in(b).subset_of(v))
}

proof fn lemma_expanded_grows(s: Seq<char>, ms: Seq<MethodInfo>, cs: Seq<CompiledEntry>, v: Set<Seq<char>>, w: Set<Seq<char>>)
    requires
        expanded(s, ms, cs, v),
        v.subset_of(w),
    ensures
        expanded(s, ms, cs, w),
{
    assert forall|i: int| 0 <= i < ms.len() && ms[i].selector@ == s implies
        (#[trigger] method_body(cs, ms[i]) matches Some(b) ==> sends_in(b).subset_of(w)) by {
        if let Some(b) = method_body(cs, ms[i]) {
            assert(sends_in(b).subset_of(v));
        }
    }
}

/// The body of the method with selector `k.1` that file `k.0` defines.
pub open spec fn key_body(cs: Seq<CompiledEntry>, k: (Seq<char>, Seq<char>)) -> Option<Seq<char>> {
    match entry_for(cs, k.0, 0) {
        Some(e) => match body_start(cs[e].code@, k.1) {
            Some(a) => {
                let code = encode_utf8(cs[e].code@);
                let b = block_end(code, a, a) - 1;
                Some(if b < a { Seq::empty() } else { lossy_text(code.subrange(a, b)) })
            },
            None => None,
        },
        None => None,
    }
}

/// `closed_under_sends` for methods known by their file and selector.
pub open spec fn closed_under_key_sends(
    v: Set<Seq<char>>,
    keys: Seq<(Seq<char>, Seq<char>)>,
    cs: Seq<CompiledEntry>,
    entry_point: Seq<char>,
) -> bool {
    &&& entry_body_from(cs, entry_point, 0) matches Some(b) ==> sends_in(b).subset_of(v)
    &&& forall|i: int| 0 <= i < keys.len() && v.contains(keys[i].1) ==>
        (#[trigger] key_body(cs, keys[i]) matches Some(b) ==> sends_in(b).subset_of(v))
}

/// `sent_from_entry` for methods known by their file and selector.
pub open spec fn sent_from_keys(keys: Seq<(Seq<char>, Seq<char>)>, cs: Seq<CompiledEntry>, entry_point: Seq<char>) -> Set<Seq<char>> {
    Set::new(|x: Seq<char>| forall|w: Set<Seq<char>>| #[trigger] closed_under_key_sends(w, keys, cs, entry_point) ==> w.contains(x))
}

/// What the entry point reaches depends on the methods found only through
/// their files and selectors.
pub proof fn lemma_sent_from_keys(ms: Seq<MethodInfo>, cs: Seq<CompiledEntry>, entry_point: Seq<char>)
    ensures
        sent_from_entry(ms, cs, entry_point) == sent_from_keys(method_keys(ms), cs, entry_point),
{
    let keys = method_keys(ms);
    assert forall|i: int| 0 <= i < ms.len() implies #[trigger] keys[i] == (ms[i].file_path@, ms[i].selector@)
        && method_body(cs, ms[i]) == key_body(cs, keys[i]) by {}
    assert forall|w: Set<Seq<char>>|
        #![trigger closed_under_sends(w, ms, cs, entry_point)]
        #![trigger closed_under_key_sends(w, keys, cs, entry_point)]
        closed_under_sends(w, ms, cs, entry_point) <==> closed_under_key_sends(w, keys, cs, entry_point) by {
        if closed_under_sends(w, ms, cs, entry_point) {
            assert forall|i: int| 0 <= i < keys.len() && w.contains(keys[i].1) implies
                (#[trigger] key_body(cs, keys[i]) matches Some(b) ==> sends_in(b).subset_of(w)) by {
                assert(keys[i] == (ms[i].file_path@, ms[i].selector@));
                assert(method_body(cs, ms[i]) == key_body(cs, keys[i]));
            }
        }
        if closed_under_key_sends(w, keys, cs, entry_point) {
            assert forall|i: int| 0 <= i < ms.len() && w.contains(ms[i].selector@) implies
                (#[trigger] method_body(cs, ms[i]) matches Some(b) ==> sends_in(b).subset_of(w)) by {
                assert(keys[i] == (ms[i].file_path@, ms[i].selector@));
                assert(method_body(cs, ms[i]) == key_body(cs, keys[i]));
            }
        }
    }
    assert(sent_from_entry(ms, cs, entry_point) =~= sent_from_keys(keys, cs, entry_point));
}

/// Whether an argument is written out as a string literal.
pub open spec fn quoted(arg: Seq<char>) -> bool {
    arg.len() > 0 && (arg[0] == '"' || arg[0] == '\'')
}

/// The pattern of a message send (`objj_msgSend(` or `objj_msgSendSuper(`)
/// whose selector is checked.
pub open spec fn any_send_pattern() -> Seq<char> {
    r"objj_msgSend(Super)?\("@
}

/// The class that sends message `k` of `code` if its selector argument is
/// not a string literal.
pub open spec fn computed_send_class(code: Seq<char>, k: int) -> Option<Seq<char>> {
    let bytes = encode_utf8(code);
    let st = span0(matches_in_text(any_send_pattern(), code)[k]).0;
    match call_arg(bytes, st) {
        Some(ab) => if !quoted(trimmed(lossy_text(bytes.subrange(ab.0, ab.1)))) {
            Some(class_before(decode_utf8(bytes.subrange(0, st))))
        } else {
            None
        },
        None => None,
    }
}

/// The classes that send computed selectors among the first `n` sends.
pub open spec fn computed_send_classes(code: Seq<char>, n: int) -> Set<Seq<char>> {
    Set::new(|c: Seq<char>| exists|k: int| 0 <= k < n && #[trigger] computed_send_class(code, k) == Some(c))
}

/// A variable that holds a selector: `var name = sel_getUid("...")`.
pub open spec fn selector_var_pattern() -> Seq<char> {
    r#"(?:var|let|const)\s+(\w+)\s*=\s*sel_getUid\("([^"]+)"\)"#@
}

/// A class defined or looked up in compiled code.
pub open spec fn any_class_pattern() -> Seq<char> {
    r#"var the_class = objj_\w+Class\w*\("([^"]+)"\)"#@
}

/// The pattern of a send whose selector is the variable `v`.
pub open spec fn var_send_pattern(v: Seq<char>) -> Seq<char> {
    r"objj_msgSend\([^,]+,\s*"@ + escaped(v) + r"\b"@
}

/// Whether selector variable `k` of `code` is used as a selector.
pub open spec fn selector_var_used(code: Seq<char>, k: int) -> bool {
    match group_chars(code, matches_in_text(selector_var_pattern(), code)[k], 1) {
        Some(v) => regex_compiles(var_send_pattern(v)) && regex_is_match(var_send_pattern(v), code),
        None => false,
    }
}

/// The classes named by the first `n` class matches of `code`.
pub open spec fn named_classes(code: Seq<char>, n: int) -> Set<Seq<char>> {
    Set::new(|c: Seq<char>| exists|k: int| 0 <= k < n
        && #[trigger] group_chars(code, matches_in_text(any_class_pattern(), code)[k], 1) == Some(c))
}

/// The classes of `code` found to send computed selectors: those that send
/// a selector not written out, and, where a selector kept in a variable is
/// sent, every class of the file.
pub open spec fn dynamic_in_code(code: Seq<char>) -> Set<Seq<char>> {
    if code.len() == 0 {
        Set::empty()
    } else {
        computed_send_classes(code, matches_in_text(any_send_pattern(), code).len() as int)
            + if exists|k: int| 0 <= k < matches_in_text(selector_var_pattern(), code).len() && #[trigger] selector_var_used(code, k) {
                named_classes(code, matches_in_text(any_class_pattern(), code).len() as int)
            } else {
                Set::empty()
            }
    }
}

/// The classes of the first `n` files found to send computed selectors.
pub open spec fn dynamic_in_entries(cs: Seq<CompiledEntry>, n: int) -> Set<Seq<char>>
    decreases n,
{
    if n <= 0 {
        Set::empty()
    } else {
        dynamic_in_entries(cs, n - 1) + dynamic_in_code(cs[n - 1].code@)
    }
}

pub open spec fn kvc_get_pattern() -> Seq<char> {
    r#"objj_msgSend\([^,]+,\s*"(valueForKey:|valueForKeyPath:)"\s*,\s*"([^"]+)""#@
}

pub open spec fn kvc_set_pattern() -> Seq<char> {
    r#"objj_msgSend\([^,]+,\s*"(setValue:forKey:|setValue:forKeyPath:)"\s*,\s*[^,]+,\s*"([^"]+)""#@
}

pub open spec fn accessors_pattern() -> Seq<char> {
    r"(\w+)\s+(\w+)\s*@accessors"@
}

/// The keys named by the first `n` key-value-coding sends `ms` of `code`
/// (the key is group 2).
pub open spec fn kvc_keys_of(code: Seq<char>, ms: Seq<Seq<Option<(int, int)>>>, n: int) -> Seq<Seq<char>>
    decreases n,
{
    if n <= 0 {
        Seq::empty()
    } else {
        kvc_keys_of(code, ms, n - 1) + match group_chars(code, ms[n - 1], 2) {
            Some(k) => kvc_parts(k),
            None => Seq::empty(),
        }
    }
}

/// The instance variables declared with `@accessors` by the first `n`
/// matches `ms` of `source` (the name is group 2).
pub open spec fn accessor_ivars_of(source: Seq<char>, ms: Seq<Seq<Option<(int, int)>>>, n: int) -> Seq<Seq<char>>
    decreases n,
{
    if n <= 0 {
        Seq::empty()
    } else {
        accessor_ivars_of(source, ms, n - 1) + match group_chars(source, ms[n - 1], 2) {
            Some(k) => seq![k],
            None => Seq::empty(),
        }
    }
}

/// The keys one file uses through key-value coding.
pub open spec fn kvc_in_entry(c: CompiledEntry) -> Seq<Seq<char>> {
    let code = c.code@;
    let source = c.source@;
    let gets = matches_in_text(kvc_get_pattern(), code);
    let sets = matches_in_text(kvc_set_pattern(), code);
    let ivars = matches_in_text(accessors_pattern(), source);
    (if code.len() > 0 { kvc_keys_of(code, gets, gets.len() as int) + kvc_keys_of(code, sets, sets.len() as int) } else { Seq::empty() })
        + (if source.len() > 0 { accessor_ivars_of(source, ivars, ivars.len() as int) } else { Seq::empty() })
}

/// The keys the first `n` files use through key-value coding.
pub open spec fn kvc_in_entries(cs: Seq<CompiledEntry>, n: int) -> Seq<Seq<char>>
    decreases n,
{
    if n <= 0 {
        Seq::empty()
    } else {
        kvc_in_entries(cs, n - 1) + kvc_in_entry(cs[n - 1])
    }
}

/// The setter through which key-value coding sets `key`: `set`, the key's
/// first character in upper case, the rest, and `:`.
pub open spec fn kvc_setter(key: Seq<char>) -> Seq<char> {
    "set"@ + upper_case(key[0]) + key.subrange(1, key.len() as int) + seq![':']
}

/// The selectors kept for key-value coding: each key, and the setter of
/// each key that has one.
pub open spec fn kvc_accessor_names(keys: Set<Seq<char>>) -> Set<Seq<char>> {
    keys + Set::new(|s: Seq<char>| exists|k: Seq<char>| keys.contains(k) && k.len() > 0 && s == kvc_setter(k))
}

/// The position of the first entry for `path` at or after `i`.
pub open spec fn entry_for(cs: Seq<CompiledEntry>, path: Seq<char>, i: int) -> Option<int>
    decreases cs.len() - i,
{
    if i < 0 || i >= cs.len() {
        None
    } else if cs[i].path@ == path {
        Some(i)
    } else {
        entry_for(cs, path, i + 1)
    }
}

/// The pattern that finds where the function of the method for
/// `selector` opens its body.
pub open spec fn method_pattern(selector: Seq<char>) -> Seq<char> {
    r#"new objj_method\(sel_getUid\(""#@ + escaped(selector) + r#""\),\s*function[^{]*\{"#@
}

/// The byte position in `code` just after the `{` that opens the body of
/// the method for `selector`, if `code` defines one.
pub open spec fn body_start(code: Seq<char>, selector: Seq<char>) -> Option<int> {
    let p = method_pattern(selector);
    let ms = if regex_compiles(p) { regex_capture_spans(p, code) } else { Seq::empty() };
    if ms.len() > 0 {
        match ms[0][0] {
            Some(span) => Some(span.1),
            None => None,
        }
    } else {
        None
    }
}

/// The text of group 1 of the last match of `pattern` in `text`, if any.
pub open spec fn last_group(pattern: Seq<char>, text: Seq<char>) -> Option<Seq<char>> {
    let ms = if regex_compiles(pattern) { regex_capture_spans(pattern, text) } else { Seq::empty() };
    if ms.len() > 0 { group_chars(text, ms.last(), 1) } else { None }
}

/// The class of the code before a position: named by the last
/// `objj_allocateClassPair`, else the last `objj_getClass`, else the last
/// method function; `Unknown` otherwise.
pub open spec fn class_before(text: Seq<char>) -> Seq<char> {
    match last_group(r#"var the_class = objj_allocateClassPair\([^,]+,\s*"([^"]+)""#@, text) {
        Some(t) => t,
        None => match last_group(r#"var the_class = objj_getClass\("([^"]+)"\)"#@, text) {
            Some(t) => t,
            None => match last_group(r"function\s+\$(\w+)__"@, text) {
                Some(t) => t,
                None => "Unknown"@,
            },
        },
    }
}

/// Group 1 of the last match of `pattern` in `text`.
fn last_group_of(pattern: &str, text: &str) -> (r: Option<String>)
    ensures
        opt_view(r) == last_group(pattern@, text@),
{
    let ms = matches_of(pattern, text);
    if ms.len() > 0 {
        proof {
            assert(spans_view(ms@).last() == groups_view(ms@[ms@.len() - 1]@));
        }
        group_of(text, &ms[ms.len() - 1], 1)
    } else {
        None
    }
}

/// The first position at or after `from` that holds `target`.
fn find_byte(code: &[u8], target: u8, from: usize) -> (r: Option<usize>)
    requires
        from <= code.len(),
    ensures
        r matches Some(i) ==> from <= i < code.len() && code@[i as int] == target
            && forall|k: int| from <= k < i ==> code@[k] != target,
        r is None ==> forall|k: int| from <= k < code.len() ==> code@[k] != target,
        r matches Some(i) ==> i == first_from(code@, target, from as int),
        r is None ==> first_from(code@, target, from as int) == code@.len(),
{
    let mut i = from;
    while i < code.len()
        invariant
            from <= i <= code.len(),
            forall|k: int| from <= k < i ==> code@[k] != target,
            first_from(code@, target, from as int) == first_from(code@, target, i as int),
        decreases code.len() - i,
    {
        if code[i] == target {
            return Some(i);
        }
        i = i + 1;
    }
    None
}

/// Whether the byte at `pos` opens or closes a string: a quote not preceded
/// by a backslash.
fn is_unescaped_quote(code: &[u8], pos: usize) -> (b: bool)
    requires
        pos < code.len(),
    ensures
        b == ((code@[pos as int] == 34u8 || code@[pos as int] == 39u8)
            && !(pos > 0 && code@[pos - 1] == 92u8)),
{
    let ch = code[pos];
    let prev: u8 = if pos > 0 { code[pos - 1] } else { 0 };
    (ch == 34u8 || ch == 39u8) && prev != 92u8
}

/// The text of the second argument of the call whose name starts at
/// `msg_send_pos` (`objj_msgSend(receiver, selector, ...)`), trimmed.
/// Parentheses nest; commas and parentheses inside string literals do not
/// count.
fn extract_selector_arg(cls: &CharClasses, code: &[u8], msg_send_pos: usize) -> (r: Option<String>)
    requires
        cls.wf(),
        msg_send_pos <= code.len(),
    ensures
        call_arg(code@, msg_send_pos as int) is None ==> r is None,
        call_arg(code@, msg_send_pos as int) matches Some(ab) ==> (r matches Some(t)
            && t@ == trimmed(lossy_text(code@.subrange(ab.0, ab.1)))),
{
    let open = match find_byte(code, 40u8, msg_send_pos) {
        Some(o) => o,
        None => return None,
    };
    let ghost from = open + 1;
    let mut pos = open + 1;
    let mut depth: u64 = 1;
    let mut in_string = false;
    let mut string_char: u8 = 0;
    let mut arg_count: u8 = 0;
    let mut arg_start = pos;
    while pos < code.len() && depth > 0
        invariant
            cls.wf(),
            from == open + 1,
            open == first_from(code@, 40u8, msg_send_pos as int),
            depth >= 1,
            open < pos <= code.len(),
            open < arg_start <= pos,
            depth <= pos - open,
            arg_count <= 1,
            ({
                let st = scan(code@, from, pos as int, 40u8, 41u8);
                st.depth == depth && st.in_string == in_string && st.quote == string_char && st.commas == arg_count
            }),
            arg_count == 0 ==> next_arg_event(code@, from, from) == next_arg_event(code@, from, pos as int),
            arg_count == 1 ==> ({
                let q1 = next_arg_event(code@, from, from);
                &&& q1 < pos && arg_start == q1 + 1
                &&& scan_step(code@, q1, scan(code@, from, q1, 40u8, 41u8), 40u8, 41u8).depth != 0
                &&& next_arg_event(code@, from, q1 + 1) == next_arg_event(code@, from, pos as int)
            }),
        decreases code.len() - pos,
    {
        let ghost st = scan(code@, from, pos as int, 40u8, 41u8);
        let ghost nx = scan_step(code@, pos as int, st, 40u8, 41u8);
        proof {
            assert(scan(code@, from, pos + 1, 40u8, 41u8) == nx);
        }
        let ch = code[pos];
        if is_unescaped_quote(code, pos) {
            if !in_string {
                in_string = true;
                string_char = ch;
            } else if ch == string_char {
                in_string = false;
            }
        }
        if !in_string {
            if ch == 40u8 {
                depth = depth + 1;
            } else if ch == 41u8 {
                depth = depth - 1;
                if depth == 0 {
                    proof {
                        assert(arg_event(code@, from, pos as int));
                        assert(next_arg_event(code@, from, pos as int) == pos);
                    }
                    if arg_count == 1 {
                        return Some(bytes_text_trimmed(cls, code, arg_start, pos));
                    }
                    return None;
                }
            } else if ch == 44u8 && depth == 1 {
                proof {
                    assert(arg_event(code@, from, pos as int));
                    assert(next_arg_event(code@, from, pos as int) == pos);
                }
                if arg_count == 1 {
                    proof {
                        let q1 = next_arg_event(code@, from, from);
                        assert(next_arg_event(code@, from, q1 + 1) == pos);
                        assert(second_arg(code@, open as int) == Some((arg_start as int, pos as int)));
                    }
                    return Some(bytes_text_trimmed(cls, code, arg_start, pos));
                }
                arg_count = arg_count + 1;
                arg_start = pos + 1;
            }
        }
        proof {
            if !arg_event(code@, from, pos as int) {
                assert(next_arg_event(code@, from, pos as int) == next_arg_event(code@, from, pos + 1));
            }
        }
        pos = pos + 1;
    }
    proof {
        assert(next_arg_event(code@, from, pos as int) == code@.len());
    }
    None
}

/// The selector literal passed as the second argument of the call whose
/// name starts at `msg_send_pos`: the text between the quotes of the first
/// string literal met in that argument.
fn extract_selector(code: &[u8], msg_send_pos: usize) -> (r: Option<String>)
    requires
        msg_send_pos <= code.len(),
    ensures
        call_selector(code@, msg_send_pos as int) is None ==> r is None,
        call_selector(code@, msg_send_pos as int) matches Some(ab) ==> (r matches Some(t)
            && t@ == lossy_text(code@.subrange(ab.0, ab.1))),
{
    let open = match find_byte(code, 40u8, msg_send_pos) {
        Some(o) => o,
        None => return None,
    };
    let ghost from = open + 1;
    let mut pos = open + 1;
    let mut depth: u64 = 1;
    let mut in_string = false;
    let mut string_char: u8 = 0;
    let mut arg_count: u64 = 0;
    let mut selector_start: Option<usize> = None;
    while pos < code.len() && depth > 0
        invariant
            from == open + 1,
            open == first_from(code@, 40u8, msg_send_pos as int),
            open < pos <= code.len(),
            depth >= 1,
            depth <= pos - open,
            arg_count <= pos - open,
            ({
                let st = scan(code@, from, pos as int, 40u8, 41u8);
                st.depth == depth && st.in_string == in_string && st.quote == string_char && st.commas == arg_count
            }),
            selector_start is None ==> next_selector_event(code@, from, from) == next_selector_event(code@, from, pos as int),
            selector_start matches Some(s0) ==> ({
                let q1 = next_selector_event(code@, from, from);
                &&& q1 < pos && s0 == q1 + 1
                &&& scan_step(code@, q1, scan(code@, from, q1, 40u8, 41u8), 40u8, 41u8).depth != 0
                &&& in_string && arg_count == 1
                &&& next_string_close(code@, from, q1 + 1) == next_string_close(code@, from, pos as int)
            }),
        decreases code.len() - pos,
    {
        let ghost st = scan(code@, from, pos as int, 40u8, 41u8);
        proof {
            assert(scan(code@, from, pos + 1, 40u8, 41u8) == scan_step(code@, pos as int, st, 40u8, 41u8));
        }
        let ghost start_before = selector_start;
        let ch = code[pos];
        if is_unescaped_quote(code, pos) {
            if !in_string {
                in_string = true;
                string_char = ch;
                if arg_count == 1 && selector_start.is_none() {
                    proof {
                        assert(selector_event(code@, from, pos as int));
                        assert(next_selector_event(code@, from, pos as int) == pos);
                    }
                    selector_start = Some(pos + 1);
                }
            } else if ch == string_char {
                if arg_count == 1 {
                    if let Some(s) = selector_start {
                        proof {
                            assert(next_string_close(code@, from, pos as int) == pos);
                            assert(call_selector(code@, msg_send_pos as int) == Some((s as int, pos as int)));
                        }
                        return Some(bytes_text(code, s, pos));
                    }
                }
                in_string = false;
            }
        }
        if !in_string {
            if ch == 40u8 {
                depth = depth + 1;
            } else if ch == 41u8 {
                depth = depth - 1;
                if depth == 0 {
                    proof {
                        assert(selector_event(code@, from, pos as int));
                        assert(next_selector_event(code@, from, pos as int) == pos);
                    }
                    return None;
                }
            } else if ch == 44u8 && depth == 1 {
                arg_count = arg_count + 1;
            }
        }
        proof {
            if start_before is None && selector_start is None && !selector_event(code@, from, pos as int) {
                assert(next_selector_event(code@, from, pos as int) == next_selector_event(code@, from, pos + 1));
            }
            if start_before is Some {
                assert(next_string_close(code@, from, pos as int) == next_string_close(code@, from, pos + 1));
            }
            if start_before is None && selector_start is Some {
                assert(next_string_close(code@, from, pos + 1) == next_string_close(code@, from, pos + 1));
            }
        }
        pos = pos + 1;
    }
    proof {
        assert(next_selector_event(code@, from, pos as int) == code@.len());
        assert(next_string_close(code@, from, pos as int) == code@.len());
    }
    None
}

/// The text from `start_pos` up to the `}` that closes a block opened just
/// before it (braces inside string literals do not count). Without a
/// closing brace the text runs to the last byte but one.
fn extract_balanced_braces(code: &[u8], start_pos: usize) -> (s: String)
    requires
        start_pos <= code.len(),
    ensures
        ({
            let e = block_end(code@, start_pos as int, start_pos as int) - 1;
            &&& e < start_pos ==> s@.len() == 0
            &&& e >= start_pos ==> s@ == lossy_text(code@.subrange(start_pos as int, e))
        }),
{
    let mut depth: u128 = 1;
    let mut pos = start_pos;
    let mut in_string = false;
    let mut string_char: u8 = 0;
    while pos < code.len() && depth > 0
        invariant
            start_pos <= pos <= code.len(),
            depth <= pos - start_pos + 1,
            ({
                let st = scan(code@, start_pos as int, pos as int, 123u8, 125u8);
                st.depth == depth && st.in_string == in_string && st.quote == string_char
            }),
            block_end(code@, start_pos as int, start_pos as int) == block_end(code@, start_pos as int, pos as int),
        decreases code.len() - pos,
    {
        let ch = code[pos];
        if is_unescaped_quote(code, pos) {
            if !in_string {
                in_string = true;
                string_char = ch;
            } else if ch == string_char {
                in_string = false;
            }
        }
        if !in_string {
            if ch == 123u8 {
                depth = depth + 1;
            } else if ch == 125u8 {
                depth = depth - 1;
            }
        }
        pos = pos + 1;
    }
    let end: usize = if pos > 0 { pos - 1 } else { 0 };
    if end < start_pos {
        return String::new();
    }
    bytes_text(code, start_pos, end)
}

/// The parts of `t` between its dots.
pub open spec fn dot_parts(t: Seq<char>) -> Seq<Seq<char>>
    decreases t.len(),
{
    if t.len() == 0 {
        seq![Seq::empty()]
    } else if t.last() == '.' {
        dot_parts(t.drop_last()).push(Seq::empty())
    } else {
        let ps = dot_parts(t.drop_last());
        ps.update(ps.len() - 1, ps.last().push(t.last()))
    }
}

/// A collection operator such as `@count`.
pub open spec fn is_operator(p: Seq<char>) -> bool {
    p.len() > 0 && p[0] == '@'
}

/// The keys a key-value-coding key names: each part of a dotted key path
/// except collection operators, or the key itself.
pub open spec fn kvc_parts(key: Seq<char>) -> Seq<Seq<char>> {
    if key.contains('.') {
        dot_parts(key).filter(|p: Seq<char>| !is_operator(p))
    } else {
        seq![key]
    }
}

proof fn lemma_dot_parts_nonempty(t: Seq<char>)
    ensures
        dot_parts(t).len() >= 1,
    decreases t.len(),
{
    if t.len() > 0 {
        lemma_dot_parts_nonempty(t.drop_last());
    }
}

/// Adds the keys named by a key-value-coding key: each part of a dotted
/// key path except collection operators (`@count`), or the key itself.
fn add_kvc_key(keys: &mut Vec<String>, key: &Vec<char>)
    ensures
        string_views(final(keys)@) == string_views(old(keys)@) + kvc_parts(key@),
{
    let mut has_dot = false;
    let mut i: usize = 0;
    while i < key.len()
        invariant
            i <= key.len(),
            has_dot == key@.take(i as int).contains('.'),
        decreases key.len() - i,
    {
        proof {
            assert(key@.take(i + 1) == key@.take(i as int).push(key@[i as int]));
        }
        if key[i] == '.' {
            has_dot = true;
        }
        proof {
            if key@[i as int] == '.' {
                assert(key@.take(i + 1)[i as int] == '.');
            }
            if has_dot && key@[i as int] != '.' {
                let k = choose|k: int| 0 <= k < key@.take(i as int).len() && #[trigger] key@.take(i as int)[k] == '.';
                assert(key@.take(i + 1)[k] == '.');
            }
            if key@.take(i + 1).contains('.') {
                let k = choose|k: int| 0 <= k < key@.take(i + 1).len() && #[trigger] key@.take(i + 1)[k] == '.';
                if k < i {
                    assert(key@.take(i as int)[k] == '.');
                }
            }
        }
        i = i + 1;
    }
    proof {
        assert(key@.take(i as int) == key@);
    }
    if !has_dot {
        let k = string_of(key);
        proof {
            lemma_views_push(keys@, k);
        }
        keys.push(k);
        return;
    }
    let ghost start = string_views(keys@);
    let mut part: Vec<char> = Vec::new();
    let mut i: usize = 0;
    while i < key.len()
        invariant
            i <= key.len(),
            key@.contains('.'),
            dot_parts(key@.take(i as int)).len() >= 1,
            part@ == dot_parts(key@.take(i as int)).last(),
            string_views(keys@) == start + dot_parts(key@.take(i as int)).drop_last().filter(|p: Seq<char>| !is_operator(p)),
        decreases key.len() - i,
    {
        let ghost ps = dot_parts(key@.take(i as int));
        proof {
            assert(key@.take(i + 1).drop_last() == key@.take(i as int));
            assert(key@.take(i + 1).last() == key@[i as int]);
        }
        if key[i] == '.' {
            proof {
                assert(dot_parts(key@.take(i + 1)) == ps.push(Seq::<char>::empty()));
                assert(ps.push(Seq::<char>::empty()).drop_last() =~= ps);
                assert(ps =~= ps.drop_last().push(ps.last()));
                ps.drop_last().lemma_filter_push(ps.last(), |p: Seq<char>| !is_operator(p));
            }
            if !(part.len() > 0 && part[0] == '@') {
                let w = string_of(&part);
                proof {
                    lemma_views_push(keys@, w);
                }
                keys.push(w);
            }
            part = Vec::new();
        } else {
            part.push(key[i]);
            proof {
                assert(dot_parts(key@.take(i + 1)) == ps.update(ps.len() - 1, ps.last().push(key@[i as int])));
                assert(ps.update(ps.len() - 1, ps.last().push(key@[i as int])).drop_last() =~= ps.drop_last());
            }
        }
        i = i + 1;
    }
    proof {
        assert(key@.take(i as int) == key@);
        let ps = dot_parts(key@);
        assert(ps =~= ps.drop_last().push(ps.last()));
        ps.drop_last().lemma_filter_push(ps.last(), |p: Seq<char>| !is_operator(p));
    }
    if !(part.len() > 0 && part[0] == '@') {
        let w = string_of(&part);
        proof {
            lemma_views_push(keys@, w);
        }
        keys.push(w);
    }
}

/// `regex::escape`: `text` with a backslash before each character that has
/// a meaning in a pattern.
pub open spec fn is_meta_character(c: char) -> bool {
    c == '\\' || c == '.' || c == '+' || c == '*' || c == '?' || c == '(' || c == ')' || c == '|'
        || c == '[' || c == ']' || c == '{' || c == '}' || c == '^' || c == '$' || c == '#'
        || c == '&' || c == '-' || c == '~'
}

pub open spec fn escaped(t: Seq<char>) -> Seq<char>
    decreases t.len(),
{
    if t.len() == 0 {
        Seq::empty()
    } else {
        escaped(t.drop_last()) + (if is_meta_character(t.last()) {
            seq!['\\', t.last()]
        } else {
            seq![t.last()]
        })
    }
}

pub fn regex_escape(text: &Vec<char>) -> (r: Vec<char>)
    ensures
        r@ == escaped(text@),
{
    let mut r: Vec<char> = Vec::new();
    let mut i: usize = 0;
    while i < text.len()
        invariant
            i <= text.len(),
            r@ == escaped(text@.take(i as int)),
        decreases text.len() - i,
    {
        let c = text[i];
        if c == '\\' || c == '.' || c == '+' || c == '*' || c == '?' || c == '(' || c == ')' || c == '|'
            || c == '[' || c == ']' || c == '{' || c == '}' || c == '^' || c == '$' || c == '#'
            || c == '&' || c == '-' || c == '~' {
            r.push('\\');
        }
        r.push(c);
        proof {
            assert(text@.take(i + 1).drop_last() == text@.take(i as int));
        }
        i = i + 1;
    }
    proof {
        assert(text@.take(text.len() as int) == text@);
    }
    r
}

/// Whether `t` has `__` at position `i`.
pub open spec fn double_underscore_at(t: Seq<char>, i: int) -> bool {
    0 <= i && i + 1 < t.len() && t[i] == '_' && t[i + 1] == '_'
}

/// `n` is where the first `__` of `t` starts, or the length of `t`
/// without one.
pub open spec fn first_double_underscore(t: Seq<char>, n: int) -> bool {
    &&& 0 <= n <= t.len()
    &&& n < t.len() ==> double_underscore_at(t, n)
    &&& forall|k: int| 0 <= k < n ==> !(#[trigger] double_underscore_at(t, k))
}

/// The text before the first `__` of `t` (all of `t` without one).
fn before_double_underscore(t: &Vec<char>) -> (r: Vec<char>)
    ensures
        exists|n: int| #[trigger] first_double_underscore(t@, n) && r@ == t@.take(n),
{
    let mut r: Vec<char> = Vec::new();
    let mut i: usize = 0;
    while i < t.len()
        invariant
            i <= t.len(),
            r@ == t@.take(i as int),
            forall|k: int| 0 <= k < i ==> !(#[trigger] double_underscore_at(t@, k)),
        decreases t.len() - i,
    {
        proof {
            assert(t@.take(i + 1) == t@.take(i as int).push(t@[i as int]));
        }
        if t[i] == '_' && i + 1 < t.len() && t[i + 1] == '_' {
            proof {
                assert(double_underscore_at(t@, i as int));
                assert(first_double_underscore(t@, i as int));
            }
            return r;
        }
        r.push(t[i]);
        i = i + 1;
    }
    proof {
        assert(t@.take(i as int) == t@);
        assert(first_double_underscore(t@, t@.len() as int));
    }
    r
}

/// How many selectors of `sels` a set gains when `x` joins it.
pub proof fn lemma_count_in_insert(sels: Seq<Seq<char>>, s: Set<Seq<char>>, x: Seq<char>)
    requires
        !s.contains(x),
    ensures
        sels.contains(x) ==> count_in(sels, s.insert(x)) > count_in(sels, s),
        !sels.contains(x) ==> count_in(sels, s.insert(x)) == count_in(sels, s),
        count_in(sels, s.insert(x)) >= count_in(sels, s),
    decreases sels.len(),
{
    if sels.len() > 0 {
        let rest = sels.drop_last();
        lemma_count_in_insert(rest, s, x);
        if sels.contains(x) && sels.last() != x {
            let j = choose|j: int| 0 <= j < sels.len() && sels[j] == x;
            assert(rest[j] == x);
        }
        if !sels.contains(x) {
            assert forall|j: int| 0 <= j < rest.len() implies rest[j] != x by {
                assert(sels[j] == rest[j]);
            }
            assert(sels.last() != x) by {
                assert(sels[sels.len() - 1] == sels.last());
            }
        }
    }
}

impl<'a> MethodReachabilityAnalyzer<'a> {
    /// The selectors this analyzer always keeps.
    pub closed spec fn kept(&self) -> Set<Seq<char>> {
        self.always_keep@
    }

    /// The compiled files analysed.
    pub closed spec fn entries(&self) -> Seq<CompiledEntry> {
        self.compiled@
    }

    /// The selectors marked reachable so far.
    pub closed spec fn reachable(&self) -> Set<Seq<char>> {
        self.reachable_selectors@
    }

    /// The methods found so far.
    pub closed spec fn methods_found(&self) -> Seq<MethodInfo> {
        self.methods@
    }

    /// The selectors of the methods found so far, one per method.
    pub closed spec fn method_selectors(&self) -> Seq<Seq<char>> {
        method_selectors(self.methods@)
    }

    /// The classes found to send computed selectors so far.
    pub closed spec fn dynamic_class_names(&self) -> Set<Seq<char>> {
        self.dynamic_classes@
    }

    /// Whether the keys used through key-value coding are kept.
    pub closed spec fn keeps_kvc(&self) -> bool {
        self.options.preserve_kvc
    }

    /// The key-value-coding keys found so far.
    pub closed spec fn kvc_keys(&self) -> Set<Seq<char>> {
        self.kvc_selectors@
    }

    pub closed spec fn wf(&self) -> bool {
        &&& self.reachable_selectors.wf()
        &&& self.dynamic_classes.wf()
        &&& self.kvc_selectors.wf()
        &&& self.always_keep.wf()
        &&& self.cls.wf()
    }

    pub fn new(compiled: &'a [CompiledEntry], options: AnalyzerOptions) -> (r: Self)
        ensures
            r.wf(),
            r.kept() == kept_selectors(options.whitelist@),
            r.entries() == compiled@,
            r.method_selectors().len() == 0,
            r.kvc_keys() == Set::<Seq<char>>::empty(),
            r.keeps_kvc() == options.preserve_kvc,
            r.dynamic_class_names() == Set::<Seq<char>>::empty(),
            r.reachable() == Set::<Seq<char>>::empty(),
            r.methods_found().len() == 0,
    {
        let mut always_keep = NameSet::new();
        always_keep.insert(String::from_str("alloc"));
        always_keep.insert(String::from_str("init"));
        always_keep.insert(String::from_str("new"));
        always_keep.insert(String::from_str("dealloc"));
        always_keep.insert(String::from_str("finalize"));
        always_keep.insert(String::from_str("initialize"));
        always_keep.insert(String::from_str("description"));
        always_keep.insert(String::from_str("isEqual:"));
        always_keep.insert(String::from_str("hash"));
        always_keep.insert(String::from_str("copy"));
        always_keep.insert(String::from_str("copyWithZone:"));
        always_keep.insert(String::from_str("valueForKey:"));
        always_keep.insert(String::from_str("setValue:forKey:"));
        always_keep.insert(String::from_str("valueForKeyPath:"));
        always_keep.insert(String::from_str("setValue:forKeyPath:"));
        always_keep.insert(String::from_str("valueForUndefinedKey:"));
        always_keep.insert(String::from_str("setValue:forUndefinedKey:"));
        proof {
            assert(always_keep@ =~= framework_selectors().to_set()) by {
                assert forall|x: Seq<char>| always_keep@.contains(x) implies framework_selectors().contains(x) by {
                    if x == "alloc"@ { assert(framework_selectors()[0] == x); }
                    else if x == "init"@ { assert(framework_selectors()[1] == x); }
                    else if x == "new"@ { assert(framework_selectors()[2] == x); }
                    else if x == "dealloc"@ { assert(framework_selectors()[3] == x); }
                    else if x == "finalize"@ { assert(framework_selectors()[4] == x); }
                    else if x == "initialize"@ { assert(framework_selectors()[5] == x); }
                    else if x == "description"@ { assert(framework_selectors()[6] == x); }
                    else if x == "isEqual:"@ { assert(framework_selectors()[7] == x); }
                    else if x == "hash"@ { assert(framework_selectors()[8] == x); }
                    else if x == "copy"@ { assert(framework_selectors()[9] == x); }
                    else if x == "copyWithZone:"@ { assert(framework_selectors()[10] == x); }
                    else if x == "valueForKey:"@ { assert(framework_selectors()[11] == x); }
                    else if x == "setValue:forKey:"@ { assert(framework_selectors()[12] == x); }
                    else if x == "valueForKeyPath:"@ { assert(framework_selectors()[13] == x); }
                    else if x == "setValue:forKeyPath:"@ { assert(framework_selectors()[14] == x); }
                    else if x == "valueForUndefinedKey:"@ { assert(framework_selectors()[15] == x); }
                    else { assert(framework_selectors()[16] == x); }
                }
            }
        }
        let mut i: usize = 0;
        while i < options.whitelist.len()
            invariant
                i <= options.whitelist.len(),
                always_keep.wf(),
                always_keep@ == framework_selectors().to_set() + string_views(options.whitelist@.take(i as int)).to_set(),
            decreases options.whitelist.len() - i,
        {
            always_keep.insert(options.whitelist[i].clone());
            proof {
                let w = string_views(options.whitelist@.take(i + 1));
                let w0 = string_views(options.whitelist@.take(i as int));
                assert(w =~= w0.push(options.whitelist@[i as int]@));
                assert(w.to_set() =~= w0.to_set().insert(options.whitelist@[i as int]@)) by {
                    assert forall|x: Seq<char>| w.to_set().contains(x) <==> w0.to_set().insert(options.whitelist@[i as int]@).contains(x) by {
                        if w.contains(x) && x != options.whitelist@[i as int]@ {
                            let j = choose|j: int| 0 <= j < w.len() && w[j] == x;
                            assert(w0[j] == x);
                        }
                        if w0.contains(x) {
                            let j = choose|j: int| 0 <= j < w0.len() && w0[j] == x;
                            assert(w[j] == x);
                        }
                        if x == options.whitelist@[i as int]@ {
                            assert(w[i as int] == x);
                        }
                    }
                }
                assert(always_keep@ =~= framework_selectors().to_set() + w.to_set());
            }
            i = i + 1;
        }
        proof {
            assert(options.whitelist@.take(options.whitelist.len() as int) =~= options.whitelist@);
        }
        MethodReachabilityAnalyzer {
            compiled,
            options,
            reachable_selectors: NameSet::new(),
            methods: Vec::new(),
            dynamic_classes: NameSet::new(),
            kvc_selectors: NameSet::new(),
            always_keep,
            cls: CharClasses::new(),
        }
    }
}

impl<'a> MethodReachabilityAnalyzer<'a> {
    /// Records the methods of every `class_addMethods` block: selector,
    /// function name, class and file.
    fn build_method_map(&mut self)
        requires
            old(self).wf(),
        ensures
            final(self).wf(),
            final(self).kept() == old(self).kept(),
            final(self).entries() == old(self).entries(),
            final(self).kvc_keys() == old(self).kvc_keys(),
            final(self).dynamic_classes@ == old(self).dynamic_classes@,
            final(self).reachable_selectors@ == old(self).reachable_selectors@,
            final(self).method_selectors() == old(self).method_selectors()
                + selectors_in_entries(old(self).entries(), old(self).entries().len() as int),
            method_keys(final(self).methods@) == method_keys(old(self).methods@)
                + keys_in_entries(old(self).entries(), old(self).entries().len() as int),
    {
        let mut e: usize = 0;
        while e < self.compiled.len()
            invariant
                self.wf(),
                self.kept() == old(self).kept(),
                self.entries() == old(self).entries(),
                self.kvc_keys() == old(self).kvc_keys(),
                self.dynamic_classes@ == old(self).dynamic_classes@,
                self.reachable_selectors@ == old(self).reachable_selectors@,
                e <= self.compiled.len(),
                self.method_selectors() == old(self).method_selectors() + selectors_in_entries(self.entries(), e as int),
                method_keys(self.methods@) == method_keys(old(self).methods@) + keys_in_entries(self.entries(), e as int),
            decreases self.compiled.len() - e,
        {
            let ghost sels_before = self.method_selectors();
            let ghost start_methods = self.methods@;
            let ghost n0 = self.methods@.len();
            let ghost path = self.compiled@[e as int].path@;
            let code: &str = self.compiled[e].code.as_str();
            if !code.is_empty() {
                let class_matches = matches_of(r#"objj_allocateClassPair\([^,]+,\s*"([^"]+)""#, code);
                let current_class_name = if class_matches.len() > 0 {
                    match group_of(code, &class_matches[0], 1) {
                        Some(t) => t,
                        None => String::from_str("Unknown"),
                    }
                } else {
                    String::from_str("Unknown")
                };
                let blocks = matches_of(r"class_addMethods\((the_class|meta_class),\s*\[([\s\S]*?)\]\);", code);
                let ghost bv = spans_view(blocks@);
                let mut b: usize = 0;
                while b < blocks.len()
                    invariant
                        self.wf(),
                        self.kept() == old(self).kept(),
                        self.entries() == old(self).entries(),
                        self.kvc_keys() == old(self).kvc_keys(),
                        self.dynamic_classes@ == old(self).dynamic_classes@,
                        self.reachable_selectors@ == old(self).reachable_selectors@,
                        e < self.compiled.len(),
                        self.methods@.len() >= n0,
                        self.methods@.take(n0 as int) == start_methods,
                        forall|q: int| n0 <= q < self.methods@.len() ==> (#[trigger] self.methods@[q]).file_path@ == path,
                        path == self.compiled@[e as int].path@,
                        code@ == self.compiled@[e as int].code@,
                        b <= blocks.len(),
                        well_placed(blocks@, code.spec_bytes()),
                        bv == spans_view(blocks@),
                        bv == matches_in_text(method_list_pattern(), code@),
                        self.method_selectors() == sels_before + lists_selectors(code@, bv, b as int),
                    decreases blocks.len() - b,
                {
                    proof {
                        assert(bv[b as int] == groups_view(blocks@[b as int]@));
                    }
                    let is_meta = match group_of(code, &blocks[b], 1) {
                        Some(t) => text_is(&chars_of(t.as_str()), "meta_class"),
                        None => false,
                    };
                    let block = match group_of(code, &blocks[b], 2) {
                        Some(t) => t,
                        None => String::new(),
                    };
                    proof {
                        assert(block@ == or_nothing(group_chars(code@, bv[b as int], 2)));
                    }
                    let ms = matches_of(
                        r#"new objj_method\(sel_getUid\("([^"]+)"\),\s*function\s*(\$\w+)?"#,
                        block.as_str(),
                    );
                    let ghost mv = spans_view(ms@);
                    let ghost sels_mid = self.method_selectors();
                    let mut k: usize = 0;
                    while k < ms.len()
                        invariant
                            self.wf(),
                            self.kept() == old(self).kept(),
                            self.entries() == old(self).entries(),
                            self.kvc_keys() == old(self).kvc_keys(),
                            self.dynamic_classes@ == old(self).dynamic_classes@,
                            self.reachable_selectors@ == old(self).reachable_selectors@,
                            e < self.compiled.len(),
                            self.methods@.len() >= n0,
                            self.methods@.take(n0 as int) == start_methods,
                            forall|q: int| n0 <= q < self.methods@.len() ==> (#[trigger] self.methods@[q]).file_path@ == path,
                            path == self.compiled@[e as int].path@,
                            k <= ms.len(),
                            well_placed(ms@, encode_utf8(block@)),
                            mv == spans_view(ms@),
                            mv == matches_in_text(method_def_pattern(), block@),
                            self.method_selectors() == sels_mid + selectors_of_matches(block@, mv).take(k as int),
                        decreases ms.len() - k,
                    {
                        proof {
                            assert(mv[k as int] == groups_view(ms@[k as int]@));
                        }
                        let selector = match group_of(block.as_str(), &ms[k], 1) {
                            Some(t) => t,
                            None => String::new(),
                        };
                        let function_name = match group_of(block.as_str(), &ms[k], 2) {
                            Some(t) => t,
                            None => {
                                let mut n = lit("anonymous_");
                                push_text(&mut n, &chars_of(selector.as_str()));
                                string_of(&n)
                            },
                        };
                        let f = chars_of(function_name.as_str());
                        let class_name = if f.len() > 0 && f[0] == '$' {
                            let rest = crate::text::slice_text(&f, 1, f.len());
                            string_of(&before_double_underscore(&rest))
                        } else {
                            current_class_name.clone()
                        };
                        let file_path = self.compiled[e].path.clone();
                        let ghost before = self.methods@;
                        let info = MethodInfo { class_name, function_name, file_path, is_meta_class: is_meta, selector };
                        self.methods.push(info);
                        proof {
                            assert(self.methods@.take(n0 as int) =~= before.take(n0 as int));
                        }
                        proof {
                            assert(method_selectors(self.methods@) =~= method_selectors(before).push(info.selector@));
                            assert(selectors_of_matches(block@, mv).take(k + 1)
                                =~= selectors_of_matches(block@, mv).take(k as int).push(or_nothing(group_chars(block@, mv[k as int], 1))));
                        }
                        k = k + 1;
                    }
                    proof {
                        assert(selectors_of_matches(block@, mv).take(k as int) =~= selectors_of_matches(block@, mv));
                        assert(lists_selectors(code@, bv, b + 1) == lists_selectors(code@, bv, b as int)
                            + selectors_of_matches(or_nothing(group_chars(code@, bv[b as int], 2)), mv));
                    }
                    b = b + 1;
                }
                proof {
                    assert(selectors_in_entries(self.entries(), e + 1)
                        == selectors_in_entries(self.entries(), e as int) + selectors_in_code(code@));
                }
            } else {
                proof {
                    assert(selectors_in_entries(self.entries(), e + 1)
                        =~= selectors_in_entries(self.entries(), e as int));
                }
            }
            proof {
                let added = selectors_in_code(self.compiled@[e as int].code@);
                assert(self.method_selectors() == sels_before + added);
                assert(method_selectors(self.methods@).skip(n0 as int) =~= added) by {
                    assert(method_selectors(self.methods@) == method_selectors(start_methods) + added);
                    assert(self.methods@.take(n0 as int) == start_methods);
                    assert(start_methods.len() == n0);
                }
                assert(method_keys(self.methods@) =~= method_keys(start_methods)
                    + added.map_values(|x: Seq<char>| (path, x))) by {
                    assert forall|q: int| 0 <= q < self.methods@.len() implies
                        #[trigger] method_keys(self.methods@)[q] == (method_keys(start_methods) + added.map_values(|x: Seq<char>| (path, x)))[q] by {
                        if q < n0 {
                            assert(self.methods@[q] == start_methods[q]);
                        } else {
                            assert(method_selectors(self.methods@)[q] == added[q - n0]);
                        }
                    }
                }
                assert(keys_in_entries(self.entries(), e + 1)
                    == keys_in_entries(self.entries(), e as int) + added.map_values(|x: Seq<char>| (path, x)));
                assert(method_keys(self.methods@) =~= method_keys(old(self).methods@) + keys_in_entries(self.entries(), e + 1));
            }
            e = e + 1;
        }
    }

    /// The class whose code precedes position `start` of `code`: the last
    /// class opened before it, else the class of the last method function
    /// named before it, else `Unknown`.
    fn enclosing_class(code: &str, start: usize) -> (r: String)
        requires
            start <= code.spec_bytes().len(),
            is_char_boundary(code.spec_bytes(), start as int),
        ensures
            r@ == class_before(decode_utf8(code.spec_bytes().subrange(0, start as int))),
    {
        let (before, _) = code.split_at(start);
        proof {
            vstd::utf8::encode_utf8_decode_utf8(before@);
            assert(before@ == decode_utf8(code.spec_bytes().subrange(0, start as int)));
        }
        let t1 = last_group_of(r#"var the_class = objj_allocateClassPair\([^,]+,\s*"([^"]+)""#, before);
        if let Some(t) = t1 {
            return t;
        }
        let t2 = last_group_of(r#"var the_class = objj_getClass\("([^"]+)"\)"#, before);
        if let Some(t) = t2 {
            return t;
        }
        let t3 = last_group_of(r"function\s+\$(\w+)__", before);
        if let Some(t) = t3 {
            return t;
        }
        String::from_str("Unknown")
    }

    /// Records the classes that send messages whose selector is computed
    /// rather than written out, and the classes of a file that sends a
    /// selector kept in a variable.
    fn detect_dynamic_selectors(&mut self)
        requires
            old(self).wf(),
        ensures
            final(self).wf(),
            final(self).kept() == old(self).kept(),
            final(self).entries() == old(self).entries(),
            final(self).kvc_keys() == old(self).kvc_keys(),
            final(self).method_selectors() == old(self).method_selectors(),
            final(self).methods_found() == old(self).methods_found(),
            final(self).reachable_selectors@ == old(self).reachable_selectors@,
            final(self).dynamic_classes@ == old(self).dynamic_classes@
                + dynamic_in_entries(old(self).entries(), old(self).entries().len() as int),
    {
        let mut e: usize = 0;
        while e < self.compiled.len()
            invariant
                self.wf(),
                self.kept() == old(self).kept(),
                self.entries() == old(self).entries(),
                self.kvc_keys() == old(self).kvc_keys(),
                self.method_selectors() == old(self).method_selectors(),
                self.methods_found() == old(self).methods_found(),
                self.reachable_selectors@ == old(self).reachable_selectors@,
                e <= self.compiled.len(),
                self.dynamic_classes@ == old(self).dynamic_classes@ + dynamic_in_entries(self.entries(), e as int),
            decreases self.compiled.len() - e,
        {
            let ghost before_e = self.dynamic_classes@;
            let code: &str = self.compiled[e].code.as_str();
            if !code.is_empty() {
                let bytes = code.as_bytes();
                let sends = matches_of(r"objj_msgSend(Super)?\(", code);
                let ghost sv = spans_view(sends@);
                let mut k: usize = 0;
                while k < sends.len()
                    invariant
                        self.wf(),
                        self.kept() == old(self).kept(),
                        self.entries() == old(self).entries(),
                        self.kvc_keys() == old(self).kvc_keys(),
                        self.method_selectors() == old(self).method_selectors(),
                        self.methods_found() == old(self).methods_found(),
                        self.reachable_selectors@ == old(self).reachable_selectors@,
                        e < self.compiled.len(),
                        code@ == self.compiled@[e as int].code@,
                        k <= sends.len(),
                        bytes@ == code.spec_bytes(),
                        well_placed(sends@, bytes@),
                        sv == spans_view(sends@),
                        sv == matches_in_text(any_send_pattern(), code@),
                        self.dynamic_classes@ == before_e + computed_send_classes(code@, k as int),
                    decreases sends.len() - k,
                {
                    let start = match_start(&sends[k]);
                    proof {
                        assert(sends@[k as int]@[0] matches Some(span) && span.0 <= span.1 <= bytes@.len());
                        assert(sv[k as int] == groups_view(sends@[k as int]@));
                        assert(span0(sv[k as int]).0 == start);
                    }
                    let ghost before_k = self.dynamic_classes@;
                    if let Some(arg) = extract_selector_arg(&self.cls, bytes, start) {
                        let a = chars_of(arg.as_str());
                        let quoted_arg = a.len() > 0 && (a[0] == '"' || a[0] == '\'');
                        if !quoted_arg {
                            let class_name = Self::enclosing_class(code, start);
                            self.dynamic_classes.insert(class_name);
                        }
                    }
                    proof {
                        let c = computed_send_class(code@, k as int);
                        assert(self.dynamic_classes@ == before_k + (match c { Some(x) => set![x], None => Set::empty() }));
                        assert(computed_send_classes(code@, k + 1) =~= computed_send_classes(code@, k as int)
                            + (match c { Some(x) => set![x], None => Set::empty() })) by {
                            assert forall|x: Seq<char>| computed_send_classes(code@, k + 1).contains(x) implies
                                computed_send_classes(code@, k as int).contains(x) || c == Some(x) by {
                                let j = choose|j: int| 0 <= j < k + 1 && #[trigger] computed_send_class(code@, j) == Some(x);
                                if j < k {
                                    assert(computed_send_classes(code@, k as int).contains(x));
                                }
                            }
                        }
                        assert(self.dynamic_classes@ =~= before_e + computed_send_classes(code@, k + 1));
                    }
                    k = k + 1;
                }
                let ghost after_sends = self.dynamic_classes@;
                let selector_vars = matches_of(r#"(?:var|let|const)\s+(\w+)\s*=\s*sel_getUid\("([^"]+)"\)"#, code);
                let ghost vv = spans_view(selector_vars@);
                let ghost all_classes = named_classes(code@, matches_in_text(any_class_pattern(), code@).len() as int);
                let mut k: usize = 0;
                while k < selector_vars.len()
                    invariant
                        self.wf(),
                        self.kept() == old(self).kept(),
                        self.entries() == old(self).entries(),
                        self.kvc_keys() == old(self).kvc_keys(),
                        self.method_selectors() == old(self).method_selectors(),
                        self.methods_found() == old(self).methods_found(),
                        self.reachable_selectors@ == old(self).reachable_selectors@,
                        e < self.compiled.len(),
                        code@ == self.compiled@[e as int].code@,
                        k <= selector_vars.len(),
                        bytes@ == code.spec_bytes(),
                        well_placed(selector_vars@, bytes@),
                        vv == spans_view(selector_vars@),
                        vv == matches_in_text(selector_var_pattern(), code@),
                        all_classes == named_classes(code@, matches_in_text(any_class_pattern(), code@).len() as int),
                        self.dynamic_classes@ == after_sends + if exists|j: int| 0 <= j < k && #[trigger] selector_var_used(code@, j) {
                            all_classes
                        } else {
                            Set::empty()
                        },
                    decreases selector_vars.len() - k,
                {
                    proof {
                        assert(vv[k as int] == groups_view(selector_vars@[k as int]@));
                    }
                    let ghost before_k = self.dynamic_classes@;
                    let ghost used_before = exists|j: int| 0 <= j < k && #[trigger] selector_var_used(code@, j);
                    let mut used = false;
                    if let Some(var_name) = group_of(code, &selector_vars[k], 1) {
                        let mut usage = lit(r"objj_msgSend\([^,]+,\s*");
                        push_text(&mut usage, &regex_escape(&chars_of(var_name.as_str())));
                        push_str(&mut usage, r"\b");
                        let usage_text = string_of(&usage);
                        proof {
                            assert(usage_text@ == var_send_pattern(var_name@));
                        }
                        if let Some(p) = Pattern::compile(usage_text.as_str()) {
                            if p.is_match(code) {
                                used = true;
                                let classes = matches_of(r#"var the_class = objj_\w+Class\w*\("([^"]+)"\)"#, code);
                                let ghost cv = spans_view(classes@);
                                let ghost base = self.dynamic_classes@;
                                let mut c: usize = 0;
                                while c < classes.len()
                                    invariant
                                        self.wf(),
                                        self.kept() == old(self).kept(),
                                        self.entries() == old(self).entries(),
                                        self.kvc_keys() == old(self).kvc_keys(),
                                        self.method_selectors() == old(self).method_selectors(),
                                        self.methods_found() == old(self).methods_found(),
                                        self.reachable_selectors@ == old(self).reachable_selectors@,
                                        e < self.compiled.len(),
                                        c <= classes.len(),
                                        well_placed(classes@, code.spec_bytes()),
                                        cv == spans_view(classes@),
                                        cv == matches_in_text(any_class_pattern(), code@),
                                        self.dynamic_classes@ == base + named_classes(code@, c as int),
                                    decreases classes.len() - c,
                                {
                                    proof {
                                        assert(cv[c as int] == groups_view(classes@[c as int]@));
                                    }
                                    let ghost before_c = self.dynamic_classes@;
                                    let g = group_of(code, &classes[c], 1);
                                    if let Some(name) = g {
                                        self.dynamic_classes.insert(name);
                                    }
                                    proof {
                                        let gc = group_chars(code@, cv[c as int], 1);
                                        assert(named_classes(code@, c + 1) =~= named_classes(code@, c as int)
                                            + (match gc { Some(x) => set![x], None => Set::empty() })) by {
                                            assert forall|x: Seq<char>| named_classes(code@, c + 1).contains(x) implies
                                                named_classes(code@, c as int).contains(x) || gc == Some(x) by {
                                                let j = choose|j: int| 0 <= j < c + 1
                                                    && #[trigger] group_chars(code@, matches_in_text(any_class_pattern(), code@)[j], 1) == Some(x);
                                                if j < c {
                                                    assert(named_classes(code@, c as int).contains(x));
                                                }
                                            }
                                        }
                                        assert(self.dynamic_classes@ =~= base + named_classes(code@, c + 1));
                                    }
                                    c = c + 1;
                                }
                            }
                        }
                    }
                    proof {
                        assert(used == selector_var_used(code@, k as int));
                        let used_now = exists|j: int| 0 <= j < k + 1 && #[trigger] selector_var_used(code@, j);
                        if used {
                            assert(used_now);
                        } else if used_now {
                            let j = choose|j: int| 0 <= j < k + 1 && #[trigger] selector_var_used(code@, j);
                            assert(j < k);
                            assert(used_before);
                        }
                        if used {
                            assert(self.dynamic_classes@ =~= after_sends + all_classes);
                        } else {
                            assert(used_now == used_before);
                        }
                    }
                    k = k + 1;
                }
                proof {
                    assert(dynamic_in_code(code@) =~= computed_send_classes(code@, sv.len() as int)
                        + (if exists|j: int| 0 <= j < vv.len() && #[trigger] selector_var_used(code@, j) { all_classes } else { Set::empty() }));
                    assert(self.dynamic_classes@ =~= old(self).dynamic_classes@ + dynamic_in_entries(self.entries(), e + 1));
                }
            } else {
                proof {
                    assert(dynamic_in_code(code@) =~= Set::<Seq<char>>::empty());
                    assert(self.dynamic_classes@ =~= old(self).dynamic_classes@ + dynamic_in_entries(self.entries(), e + 1));
                }
            }
            e = e + 1;
        }
    }

    /// Collects the keys used through key-value coding: literal keys passed
    /// to `valueForKey:`-style sends, and the instance variables declared
    /// with `@accessors` in the sources.
    #[verifier::spinoff_prover]
    fn detect_kvc_usage(&mut self)
        requires
            old(self).wf(),
        ensures
            final(self).wf(),
            final(self).kept() == old(self).kept(),
            final(self).entries() == old(self).entries(),
            final(self).method_selectors() == old(self).method_selectors(),
            final(self).methods_found() == old(self).methods_found(),
            final(self).reachable_selectors@ == old(self).reachable_selectors@,
            final(self).dynamic_classes@ == old(self).dynamic_classes@,
            final(self).kvc_keys() == old(self).kvc_keys()
                + kvc_in_entries(old(self).entries(), old(self).entries().len() as int).to_set(),
            old(self).entries().len() == 0 ==> final(self).kvc_keys() == old(self).kvc_keys(),
    {
        let mut keys: Vec<String> = Vec::new();
        let mut e: usize = 0;
        while e < self.compiled.len()
            invariant
                self.wf(),
                self.kept() == old(self).kept(),
                self.entries() == old(self).entries(),
                self.method_selectors() == old(self).method_selectors(),
                self.methods_found() == old(self).methods_found(),
                self.reachable_selectors@ == old(self).reachable_selectors@,
                self.dynamic_classes@ == old(self).dynamic_classes@,
                self.kvc_keys() == old(self).kvc_keys(),
                e <= self.compiled.len(),
                string_views(keys@) == kvc_in_entries(self.entries(), e as int),
            decreases self.compiled.len() - e,
        {
            let ghost k0 = string_views(keys@);
            let code: &str = self.compiled[e].code.as_str();
            let ghost code_keys = if code@.len() > 0 {
                let gets = matches_in_text(kvc_get_pattern(), code@);
                let sets = matches_in_text(kvc_set_pattern(), code@);
                kvc_keys_of(code@, gets, gets.len() as int) + kvc_keys_of(code@, sets, sets.len() as int)
            } else {
                Seq::empty()
            };
            if !code.is_empty() {
                let gets = matches_of(r#"objj_msgSend\([^,]+,\s*"(valueForKey:|valueForKeyPath:)"\s*,\s*"([^"]+)""#, code);
                let ghost gv = spans_view(gets@);
                let mut k: usize = 0;
                while k < gets.len()
                    invariant
                        k <= gets.len(),
                        well_placed(gets@, code.spec_bytes()),
                        gv == spans_view(gets@),
                        string_views(keys@) == k0 + kvc_keys_of(code@, gv, k as int),
                    decreases gets.len() - k,
                {
                    proof {
                        assert(gv[k as int] == groups_view(gets@[k as int]@));
                    }
                    if let Some(key) = group_of(code, &gets[k], 2) {
                        add_kvc_key(&mut keys, &chars_of(key.as_str()));
                    }
                    proof {
                        assert(string_views(keys@) =~= k0 + kvc_keys_of(code@, gv, k + 1));
                    }
                    k = k + 1;
                }
                let ghost k1 = string_views(keys@);
                let sets = matches_of(
                    r#"objj_msgSend\([^,]+,\s*"(setValue:forKey:|setValue:forKeyPath:)"\s*,\s*[^,]+,\s*"([^"]+)""#,
                    code,
                );
                let ghost sv = spans_view(sets@);
                let mut k: usize = 0;
                while k < sets.len()
                    invariant
                        k <= sets.len(),
                        well_placed(sets@, code.spec_bytes()),
                        sv == spans_view(sets@),
                        string_views(keys@) == k1 + kvc_keys_of(code@, sv, k as int),
                    decreases sets.len() - k,
                {
                    proof {
                        assert(sv[k as int] == groups_view(sets@[k as int]@));
                    }
                    if let Some(key) = group_of(code, &sets[k], 2) {
                        add_kvc_key(&mut keys, &chars_of(key.as_str()));
                    }
                    proof {
                        assert(string_views(keys@) =~= k1 + kvc_keys_of(code@, sv, k + 1));
                    }
                    k = k + 1;
                }
                proof {
                    assert(string_views(keys@) =~= k0 + code_keys);
                }
            } else {
                proof {
                    assert(string_views(keys@) =~= k0 + code_keys);
                }
            }
            let ghost k2 = string_views(keys@);
            let source: &str = self.compiled[e].source.as_str();
            let ghost source_keys = if source@.len() > 0 {
                let ivars = matches_in_text(accessors_pattern(), source@);
                accessor_ivars_of(source@, ivars, ivars.len() as int)
            } else {
                Seq::empty()
            };
            if !source.is_empty() {
                let ivars = matches_of(r"(\w+)\s+(\w+)\s*@accessors", source);
                let ghost iv = spans_view(ivars@);
                let mut k: usize = 0;
                while k < ivars.len()
                    invariant
                        k <= ivars.len(),
                        well_placed(ivars@, source.spec_bytes()),
                        iv == spans_view(ivars@),
                        string_views(keys@) == k2 + accessor_ivars_of(source@, iv, k as int),
                    decreases ivars.len() - k,
                {
                    proof {
                        assert(iv[k as int] == groups_view(ivars@[k as int]@));
                    }
                    if let Some(key) = group_of(source, &ivars[k], 2) {
                        proof {
                            lemma_views_push(keys@, key);
                        }
                        keys.push(key);
                    }
                    proof {
                        assert(string_views(keys@) =~= k2 + accessor_ivars_of(source@, iv, k + 1));
                    }
                    k = k + 1;
                }
                proof {
                    assert(string_views(keys@) =~= k2 + source_keys);
                }
            } else {
                proof {
                    assert(string_views(keys@) =~= k2 + source_keys);
                }
            }
            proof {
                assert(kvc_in_entry(self.entries()[e as int]) == code_keys + source_keys);
                assert(string_views(keys@) =~= kvc_in_entries(self.entries(), e + 1));
            }
            e = e + 1;
        }
        let mut k: usize = 0;
        while k < keys.len()
            invariant
                self.wf(),
                self.kept() == old(self).kept(),
                self.entries() == old(self).entries(),
                self.method_selectors() == old(self).method_selectors(),
                self.methods_found() == old(self).methods_found(),
                self.reachable_selectors@ == old(self).reachable_selectors@,
                self.dynamic_classes@ == old(self).dynamic_classes@,
                k <= keys.len(),
                self.kvc_keys() == old(self).kvc_keys() + string_views(keys@.take(k as int)).to_set(),
            decreases keys.len() - k,
        {
            self.kvc_selectors.insert(keys[k].clone());
            proof {
                assert(keys@.take(k + 1) == keys@.take(k as int).push(keys@[k as int]));
                lemma_views_push(keys@.take(k as int), keys@[k as int]);
                assert(self.kvc_keys() =~= old(self).kvc_keys() + string_views(keys@.take(k + 1)).to_set());
            }
            k = k + 1;
        }
        proof {
            assert(keys@.take(k as int) == keys@);
            if self.entries().len() == 0 {
                assert(string_views(keys@).to_set() =~= Set::<Seq<char>>::empty());
            }
        }
    }
}

impl<'a> MethodReachabilityAnalyzer<'a> {
    /// Adds the selector of every message send written out in `text` that
    /// has not been seen: it becomes reachable and waits in `worklist`.
    fn collect_sends(&mut self, text: &str, visited: &mut NameSet, worklist: &mut Vec<String>)
        requires
            old(self).wf(),
            old(visited).wf(),
            old(visited)@ == string_views(old(worklist)@).to_set(),
            string_views(old(worklist)@).no_duplicates(),
        ensures
            final(self).wf(),
            final(self).kept() == old(self).kept(),
            final(self).entries() == old(self).entries(),
            final(self).method_selectors() == old(self).method_selectors(),
            final(self).methods@ == old(self).methods@,
            final(self).compiled@ == old(self).compiled@,
            final(self).kvc_keys() == old(self).kvc_keys(),
            final(self).dynamic_classes@ == old(self).dynamic_classes@,
            old(self).reachable_selectors@.subset_of(final(self).reachable_selectors@),
            final(visited).wf(),
            final(visited)@ == string_views(final(worklist)@).to_set(),
            string_views(final(worklist)@).no_duplicates(),
            final(worklist)@.len() >= old(worklist)@.len(),
            final(worklist)@.take(old(worklist)@.len() as int) == old(worklist)@,
            old(visited)@.subset_of(final(visited)@),
            sends_in(text@).subset_of(final(visited)@),
            final(visited)@ == old(visited)@ + sends_in(text@),
            old(visited)@.subset_of(old(self).reachable_selectors@) ==> final(visited)@.subset_of(final(self).reachable_selectors@),
            old(visited)@.subset_of(old(self).reachable_selectors@)
                ==> final(self).reachable_selectors@ == old(self).reachable_selectors@ + sends_in(text@),
    {
        let bytes = text.as_bytes();
        let sends = matches_of(r"objj_msgSend(?:Super)?\(", text);
        let ghost sv = spans_view(sends@);
        let mut k: usize = 0;
        while k < sends.len()
            invariant
                self.wf(),
                self.kept() == old(self).kept(),
                self.entries() == old(self).entries(),
                self.method_selectors() == old(self).method_selectors(),
                self.methods@ == old(self).methods@,
                self.compiled@ == old(self).compiled@,
                self.kvc_keys() == old(self).kvc_keys(),
                self.dynamic_classes@ == old(self).dynamic_classes@,
                old(self).reachable_selectors@.subset_of(self.reachable_selectors@),
                visited.wf(),
                visited@ == string_views(worklist@).to_set(),
                string_views(worklist@).no_duplicates(),
                worklist@.len() >= old(worklist)@.len(),
                worklist@.take(old(worklist)@.len() as int) == old(worklist)@,
                k <= sends.len(),
                bytes@ == text.spec_bytes(),
                spans_within(sends@, bytes@.len() as int),
                whole_matches(sends@),
                sv == spans_view(sends@),
                sv == matches_in_text(send_pattern(), text@),
                old(visited)@.subset_of(visited@),
                forall|j: int| 0 <= j < k ==> (#[trigger] send_at(text@, j) matches Some(x) ==> visited@.contains(x)),
                old(visited)@.subset_of(old(self).reachable_selectors@) ==> visited@.subset_of(self.reachable_selectors@),
                visited@ == old(visited)@ + sends_upto(text@, k as int),
                old(visited)@.subset_of(old(self).reachable_selectors@)
                    ==> self.reachable_selectors@ == old(self).reachable_selectors@ + sends_upto(text@, k as int),
            decreases sends.len() - k,
        {
            let start = match_start(&sends[k]);
            proof {
                assert(sends@[k as int]@[0] matches Some(span) && span.0 <= span.1 <= bytes@.len());
                assert(sv[k as int] == groups_view(sends@[k as int]@));
                assert(span0(sv[k as int]).0 == start);
            }
            if let Some(sel) = extract_selector(bytes, start) {
                if !visited.contains(sel.as_str()) {
                    let ghost before = worklist@;
                    visited.insert(sel.clone());
                    worklist.push(sel.clone());
                    proof {
                        lemma_views_push(before, sel);
                        assert(worklist@.take(old(worklist)@.len() as int) =~= before.take(old(worklist)@.len() as int));
                    }
                    self.reachable_selectors.insert(sel);
                }
            }
            proof {
                assert(text@.len() >= 0);
                assert(encode_utf8(text@) == bytes@);
                let c = send_at(text@, k as int);
                assert(sends_upto(text@, k + 1) =~= sends_upto(text@, k as int)
                    + (match c { Some(x) => set![x], None => Set::empty() })) by {
                    assert forall|x: Seq<char>| sends_upto(text@, k + 1).contains(x) implies
                        sends_upto(text@, k as int).contains(x) || c == Some(x) by {
                        let j = choose|j: int| 0 <= j < k + 1 && #[trigger] send_at(text@, j) == Some(x);
                        if j < k {
                            assert(sends_upto(text@, k as int).contains(x));
                        }
                    }
                }
                assert(visited@ =~= old(visited)@ + sends_upto(text@, k + 1));
                if old(visited)@.subset_of(old(self).reachable_selectors@) {
                    assert(self.reachable_selectors@ =~= old(self).reachable_selectors@ + sends_upto(text@, k + 1));
                }
            }
            k = k + 1;
        }
        proof {
            assert(sends_upto(text@, k as int) =~= sends_in(text@));
        }
        proof {
            assert forall|x: Seq<char>| sends_in(text@).contains(x) implies visited@.contains(x) by {
                let j = choose|j: int| 0 <= j < matches_in_text(send_pattern(), text@).len() && #[trigger] send_at(text@, j) == Some(x);
                assert(send_at(text@, j) matches Some(y) ==> visited@.contains(y));
            }
        }
    }

    /// The body of `method`: the text of the block that follows its
    /// `new objj_method(sel_getUid("..."), function ...` in its file.
    fn find_method_body(&self, method: &MethodInfo) -> (r: Option<String>)
        ensures
            opt_view(r) == method_body(self.compiled@, *method),
            r is Some <==> (entry_for(self.compiled@, method.file_path@, 0) matches Some(e)
                && body_start(self.compiled@[e].code@, method.selector@) is Some),
            r matches Some(t) ==> (entry_for(self.compiled@, method.file_path@, 0) matches Some(e)
                && body_start(self.compiled@[e].code@, method.selector@) matches Some(a) && {
                let code = encode_utf8(self.compiled@[e].code@);
                let b = block_end(code, a, a) - 1;
                &&& b < a ==> t@.len() == 0
                &&& b >= a ==> t@ == lossy_text(code.subrange(a, b))
            }),
    {
        let path = chars_of(method.file_path.as_str());
        let mut e: usize = 0;
        while e < self.compiled.len()
            invariant
                e <= self.compiled.len(),
                path@ == method.file_path@,
                entry_for(self.compiled@, method.file_path@, 0) == entry_for(self.compiled@, method.file_path@, e as int),
            decreases self.compiled.len() - e,
        {
            if text_eq(&chars_of(self.compiled[e].path.as_str()), &path) {
                let code: &str = self.compiled[e].code.as_str();
                let mut pattern = lit(r#"new objj_method\(sel_getUid\(""#);
                push_text(&mut pattern, &regex_escape(&chars_of(method.selector.as_str())));
                push_str(&mut pattern, r#""\),\s*function[^{]*\{"#);
                let pattern_text = string_of(&pattern);
                proof {
                    assert(pattern_text@ == method_pattern(method.selector@));
                }
                let found = matches_of(pattern_text.as_str(), code);
                if found.len() == 0 {
                    return None;
                }
                let end = match found[0][0] {
                    Some(span) => span.1,
                    None => 0,
                };
                proof {
                    assert(found@[0]@[0] matches Some(span) && span.0 <= span.1 <= code.spec_bytes().len());
                    assert(spans_view(found@)[0] == groups_view(found@[0]@));
                }
                return Some(extract_balanced_braces(code.as_bytes(), end));
            }
            e = e + 1;
        }
        None
    }

    /// Marks as reachable every selector sent, directly or through the
    /// methods of selectors already reached, from the body of the function
    /// `entry_point`.
    fn build_call_graph(&mut self, entry_point: &str)
        requires
            old(self).wf(),
        ensures
            final(self).wf(),
            final(self).kept() == old(self).kept(),
            final(self).entries() == old(self).entries(),
            final(self).method_selectors() == old(self).method_selectors(),
            final(self).methods_found() == old(self).methods_found(),
            final(self).kvc_keys() == old(self).kvc_keys(),
            final(self).dynamic_classes@ == old(self).dynamic_classes@,
            old(self).reachable_selectors@.subset_of(final(self).reachable_selectors@),
            exists|v: Set<Seq<char>>| v.subset_of(final(self).reachable_selectors@)
                && #[trigger] closed_under_sends(v, final(self).methods_found(), final(self).entries(), entry_point@),
            closed_under_sends(sent_from_entry(old(self).methods_found(), old(self).entries(), entry_point@),
                old(self).methods_found(), old(self).entries(), entry_point@),
            final(self).reachable_selectors@ == old(self).reachable_selectors@
                + sent_from_entry(old(self).methods_found(), old(self).entries(), entry_point@),
    {
        let mut worklist: Vec<String> = Vec::new();
        let mut visited = NameSet::new();
        proof {
            assert(string_views(worklist@) =~= Seq::<Seq<char>>::empty());
            assert(string_views(worklist@).to_set() =~= Set::<Seq<char>>::empty());
        }
        let ghost ep = entry_point@;
        let escaped_entry = regex_escape(&chars_of(entry_point));
        let mut p1 = lit(r"(?m)var\s+");
        push_text(&mut p1, &escaped_entry);
        push_str(&mut p1, r"\s*=\s*function\s*\([^)]*\)\s*\{([\s\S]*?)\n\}");
        let mut p2 = lit(r"(?m)function\s+");
        push_text(&mut p2, &escaped_entry);
        push_str(&mut p2, r"\s*\([^)]*\)\s*\{([\s\S]*?)\n\}");
        let patterns = vec![string_of(&p1), string_of(&p2)];
        proof {
            assert(patterns@[0]@ == entry_var_pattern(ep));
            assert(patterns@[1]@ == entry_fn_pattern(ep));
        }
        let mut seeded = false;
        proof {
            assert(self.reachable_selectors@ =~= old(self).reachable_selectors@ + visited@);
        }
        let mut e: usize = 0;
        while e < self.compiled.len() && !seeded
            invariant
                self.wf(),
                self.kept() == old(self).kept(),
                self.entries() == old(self).entries(),
                self.method_selectors() == old(self).method_selectors(),
                self.methods@ == old(self).methods@,
                self.kvc_keys() == old(self).kvc_keys(),
                self.dynamic_classes@ == old(self).dynamic_classes@,
                old(self).reachable_selectors@.subset_of(self.reachable_selectors@),
                visited.wf(),
                visited@ == string_views(worklist@).to_set(),
                string_views(worklist@).no_duplicates(),
                visited@.subset_of(self.reachable_selectors@),
                self.reachable_selectors@ == old(self).reachable_selectors@ + visited@,
                forall|w: Set<Seq<char>>| #[trigger] closed_under_sends(w, self.methods@, self.entries(), ep) ==> visited@.subset_of(w),
                patterns.len() == 2,
                patterns@[0]@ == entry_var_pattern(ep),
                patterns@[1]@ == entry_fn_pattern(ep),
                e <= self.compiled.len(),
                !seeded ==> entry_body_from(self.entries(), ep, 0) == entry_body_from(self.entries(), ep, e as int),
                seeded ==> (entry_body_from(self.entries(), ep, 0) matches Some(b) && sends_in(b).subset_of(visited@)),
            decreases self.compiled.len() - e,
        {
            let code: &str = self.compiled[e].code.as_str();
            let ghost m1 = matches_in_text(entry_var_pattern(ep), code@);
            let ghost m2 = matches_in_text(entry_fn_pattern(ep), code@);
            if !code.is_empty() {
                let mut p: usize = 0;
                while p < patterns.len() && !seeded
                    invariant
                        self.wf(),
                        self.kept() == old(self).kept(),
                        self.entries() == old(self).entries(),
                        self.method_selectors() == old(self).method_selectors(),
                        self.methods@ == old(self).methods@,
                        self.kvc_keys() == old(self).kvc_keys(),
                        self.dynamic_classes@ == old(self).dynamic_classes@,
                        old(self).reachable_selectors@.subset_of(self.reachable_selectors@),
                        visited.wf(),
                        visited@ == string_views(worklist@).to_set(),
                        string_views(worklist@).no_duplicates(),
                        visited@.subset_of(self.reachable_selectors@),
                        self.reachable_selectors@ == old(self).reachable_selectors@ + visited@,
                        forall|w: Set<Seq<char>>| #[trigger] closed_under_sends(w, self.methods@, self.entries(), ep) ==> visited@.subset_of(w),
                        p <= patterns.len(),
                        patterns.len() == 2,
                        patterns@[0]@ == entry_var_pattern(ep),
                        patterns@[1]@ == entry_fn_pattern(ep),
                        e < self.compiled.len(),
                        code@ == self.compiled@[e as int].code@,
                        code@.len() > 0,
                        m1 == matches_in_text(entry_var_pattern(ep), code@),
                        m2 == matches_in_text(entry_fn_pattern(ep), code@),
                        !seeded ==> entry_body_from(self.entries(), ep, 0) == entry_body_from(self.entries(), ep, e as int),
                        !seeded && p >= 1 ==> m1.len() == 0,
                        !seeded && p >= 2 ==> m2.len() == 0,
                        seeded ==> (entry_body_from(self.entries(), ep, 0) matches Some(b) && sends_in(b).subset_of(visited@)),
                    decreases patterns.len() - p,
                {
                    let found = matches_of(patterns[p].as_str(), code);
                    if found.len() > 0 {
                        proof {
                            assert(spans_view(found@)[0] == groups_view(found@[0]@));
                        }
                        let body = match group_of(code, &found[0], 1) {
                            Some(t) => t,
                            None => String::new(),
                        };
                        proof {
                            if p == 0 {
                                assert(entry_body_from(self.entries(), ep, e as int) == Some(body@));
                            } else {
                                assert(entry_body_from(self.entries(), ep, e as int) == Some(body@));
                            }
                        }
                        let ghost vis_b = visited@;
                        self.collect_sends(body.as_str(), &mut visited, &mut worklist);
                        proof {
                            assert forall|w: Set<Seq<char>>| #[trigger] closed_under_sends(w, self.methods@, self.entries(), ep)
                                implies visited@.subset_of(w) by {
                                assert(vis_b.subset_of(w));
                                assert(sends_in(body@).subset_of(w));
                            }
                            assert(self.reachable_selectors@ =~= old(self).reachable_selectors@ + visited@);
                        }
                        seeded = true;
                    }
                    p = p + 1;
                }
            }
            proof {
                if !seeded {
                    assert(entry_body_from(self.entries(), ep, e as int) == entry_body_from(self.entries(), ep, e + 1));
                }
            }
            e = e + 1;
        }
        proof {
            if !seeded {
                assert(entry_body_from(self.entries(), ep, e as int) is None);
            }
        }
        let mut head: usize = 0;
        while head < worklist.len()
            invariant
                self.wf(),
                self.kept() == old(self).kept(),
                self.entries() == old(self).entries(),
                self.method_selectors() == old(self).method_selectors(),
                self.methods@ == old(self).methods@,
                self.kvc_keys() == old(self).kvc_keys(),
                self.dynamic_classes@ == old(self).dynamic_classes@,
                old(self).reachable_selectors@.subset_of(self.reachable_selectors@),
                visited.wf(),
                visited@ == string_views(worklist@).to_set(),
                string_views(worklist@).no_duplicates(),
                visited@.subset_of(self.reachable_selectors@),
                self.reachable_selectors@ == old(self).reachable_selectors@ + visited@,
                forall|w: Set<Seq<char>>| #[trigger] closed_under_sends(w, self.methods@, self.entries(), ep) ==> visited@.subset_of(w),
                head <= worklist.len(),
                entry_body_from(self.entries(), ep, 0) matches Some(b) ==> sends_in(b).subset_of(visited@),
                forall|j: int| 0 <= j < head ==> #[trigger] expanded(worklist@[j]@, self.methods@, self.entries(), visited@),
            decreases
                self.method_selectors().len() - count_in(self.method_selectors(), string_views(worklist@.take(head as int)).to_set()),
                worklist.len() - head,
        {
            let ghost done_before = string_views(worklist@.take(head as int)).to_set();
            let ghost len_before = worklist.len();
            proof {
                lemma_count_in_bound(self.method_selectors(), done_before);
            }
            let current = worklist[head].clone();
            let ghost wl0 = worklist@;
            let ghost vis0 = visited@;
            let mut expanded_any = false;
            let mut m: usize = 0;
            while m < self.methods.len()
                invariant
                    self.wf(),
                    self.kept() == old(self).kept(),
                    self.entries() == old(self).entries(),
                    self.method_selectors() == old(self).method_selectors(),
                    self.methods@ == old(self).methods@,
                    self.kvc_keys() == old(self).kvc_keys(),
                    self.dynamic_classes@ == old(self).dynamic_classes@,
                    old(self).reachable_selectors@.subset_of(self.reachable_selectors@),
                    visited.wf(),
                    visited@ == string_views(worklist@).to_set(),
                    string_views(worklist@).no_duplicates(),
                    visited@.subset_of(self.reachable_selectors@),
                    self.reachable_selectors@ == old(self).reachable_selectors@ + visited@,
                    forall|w: Set<Seq<char>>| #[trigger] closed_under_sends(w, self.methods@, self.entries(), ep) ==> visited@.subset_of(w),
                    vis0.subset_of(visited@),
                    vis0 == string_views(wl0).to_set(),
                    head < len_before <= worklist.len(),
                    worklist@.take(len_before as int) == wl0,
                    wl0.len() == len_before,
                    current@ == wl0[head as int]@,
                    m <= self.methods.len(),
                    !expanded_any ==> worklist@ == wl0,
                    expanded_any ==> self.method_selectors().contains(current@),
                    forall|i: int| 0 <= i < m && self.methods@[i].selector@ == current@ ==>
                        (#[trigger] method_body(self.entries(), self.methods@[i]) matches Some(b) ==> sends_in(b).subset_of(visited@)),
                decreases self.methods.len() - m,
            {
                let selector = chars_of(self.methods[m].selector.as_str());
                let ghost vis_m = visited@;
                if text_eq(&selector, &chars_of(current.as_str())) {
                    match self.find_method_body(&self.methods[m]) {
                        Some(body) => {
                            proof {
                                assert(self.method_selectors()[m as int] == current@);
                            }
                            let ghost wl1 = worklist@;
                            let ghost vis_b = visited@;
                            proof {
                                assert(vis0.contains(current@)) by {
                                    assert(string_views(wl0)[head as int] == current@);
                                }
                            }
                            self.collect_sends(body.as_str(), &mut visited, &mut worklist);
                            proof {
                                assert forall|w: Set<Seq<char>>| #[trigger] closed_under_sends(w, self.methods@, self.entries(), ep)
                                    implies visited@.subset_of(w) by {
                                    assert(vis_b.subset_of(w));
                                    assert(w.contains(self.methods@[m as int].selector@));
                                    assert(method_body(self.entries(), self.methods@[m as int]) == Some(body@));
                                    assert(sends_in(body@).subset_of(w));
                                }
                                assert(self.reachable_selectors@ =~= old(self).reachable_selectors@ + visited@);
                            }
                            proof {
                                assert(worklist@.take(len_before as int) =~= wl1.take(len_before as int));
                            }
                            expanded_any = true;
                        },
                        None => {},
                    }
                }
                proof {
                    assert forall|i: int| 0 <= i < m + 1 && self.methods@[i].selector@ == current@ implies
                        (#[trigger] method_body(self.entries(), self.methods@[i]) matches Some(b) ==> sends_in(b).subset_of(visited@)) by {
                        if i < m {
                            if let Some(b) = method_body(self.entries(), self.methods@[i]) {
                                assert(sends_in(b).subset_of(vis_m));
                            }
                        }
                    }
                }
                m = m + 1;
            }
            proof {
                assert(expanded(current@, self.methods@, self.entries(), visited@));
                assert forall|j: int| 0 <= j < head + 1 implies #[trigger] expanded(worklist@[j]@, self.methods@, self.entries(), visited@) by {
                    assert(worklist@[j] == wl0[j]);
                    if j < head {
                        lemma_expanded_grows(wl0[j]@, self.methods@, self.entries(), vis0, visited@);
                    }
                }
            }
            head = head + 1;
            proof {
                let sels = self.method_selectors();
                let wv0 = string_views(wl0);
                assert(worklist@.take(head as int) =~= wl0.take(head as int));
                assert(string_views(wl0.take(head as int)) =~= string_views(wl0.take(head - 1)).push(current@)) by {
                    assert(wl0.take(head as int) =~= wl0.take(head - 1).push(wl0[head - 1]));
                    lemma_views_push(wl0.take(head - 1), wl0[head - 1]);
                }
                assert(worklist@.take(head - 1) =~= wl0.take(head - 1));
                assert(string_views(worklist@.take(head - 1)).to_set() == done_before);
                lemma_views_push(wl0.take(head - 1), wl0[head - 1]);
                assert(string_views(worklist@.take(head as int)).to_set() == done_before.insert(current@));
                // the current selector was not done before: the list has no repeats
                assert(!done_before.contains(current@)) by {
                    if done_before.contains(current@) {
                        let prefix = string_views(wl0.take(head - 1));
                        let j = choose|j: int| 0 <= j < prefix.len() && #[trigger] prefix[j] == current@;
                        assert(wv0[j] == current@);
                        assert(wv0[head - 1] == current@);
                        assert(string_views(worklist@)[j] == wv0[j]);
                        assert(string_views(worklist@)[head - 1] == wv0[head - 1]);
                    }
                }
                lemma_count_in_insert(sels, done_before, current@);
                lemma_count_in_bound(sels, done_before.insert(current@));
            }
        }
        proof {
            let v = visited@;
            assert forall|i: int| 0 <= i < self.methods@.len() && v.contains(self.methods@[i].selector@) implies
                (#[trigger] method_body(self.entries(), self.methods@[i]) matches Some(b) ==> sends_in(b).subset_of(v)) by {
                let sv = string_views(worklist@);
                let j = choose|j: int| 0 <= j < sv.len() && sv[j] == self.methods@[i].selector@;
                assert(sv[j] == worklist@[j]@);
                assert(expanded(worklist@[j]@, self.methods@, self.entries(), v));
            }
            assert(closed_under_sends(v, self.methods_found(), self.entries(), ep));
            let least = sent_from_entry(self.methods@, self.entries(), ep);
            assert(least =~= v) by {
                assert forall|x: Seq<char>| least.contains(x) implies v.contains(x) by {
                    assert(closed_under_sends(v, self.methods@, self.entries(), ep));
                }
                assert forall|x: Seq<char>| v.contains(x) implies least.contains(x) by {
                    assert forall|w: Set<Seq<char>>| #[trigger] closed_under_sends(w, self.methods@, self.entries(), ep)
                        implies w.contains(x) by {
                        assert(v.subset_of(w));
                    }
                }
            }
        }
    }
}

impl<'a> MethodReachabilityAnalyzer<'a> {
    /// Keeps each key-value-coding key and its setter (`key` gives `setKey:`).
    fn add_kvc_accessors(&mut self)
        requires
            old(self).wf(),
        ensures
            final(self).wf(),
            final(self).kept() == old(self).kept(),
            final(self).entries() == old(self).entries(),
            final(self).method_selectors() == old(self).method_selectors(),
            final(self).methods_found() == old(self).methods_found(),
            final(self).kvc_keys() == old(self).kvc_keys(),
            final(self).dynamic_classes@ == old(self).dynamic_classes@,
            old(self).reachable_selectors@.subset_of(final(self).reachable_selectors@),
            old(self).kvc_keys().subset_of(final(self).reachable_selectors@),
            forall|key: Seq<char>| old(self).kvc_keys().contains(key) && key.len() > 0
                ==> final(self).reachable_selectors@.contains(#[trigger] kvc_setter(key)),
            final(self).reachable_selectors@ == old(self).reachable_selectors@ + kvc_accessor_names(old(self).kvc_keys()),
    {
        let keys = self.kvc_selectors.to_vec();
        let mut k: usize = 0;
        while k < keys.len()
            invariant
                self.wf(),
                self.kept() == old(self).kept(),
                self.entries() == old(self).entries(),
                self.method_selectors() == old(self).method_selectors(),
                self.methods_found() == old(self).methods_found(),
                self.kvc_keys() == old(self).kvc_keys(),
                self.dynamic_classes@ == old(self).dynamic_classes@,
                old(self).reachable_selectors@.subset_of(self.reachable_selectors@),
                string_views(keys@).to_set() == old(self).kvc_keys(),
                k <= keys.len(),
                forall|j: int| 0 <= j < k ==> self.reachable_selectors@.contains(#[trigger] keys@[j]@),
                forall|j: int| 0 <= j < k && keys@[j]@.len() > 0 ==> self.reachable_selectors@.contains(#[trigger] kvc_setter(keys@[j]@)),
                self.reachable_selectors@ == old(self).reachable_selectors@
                    + kvc_accessor_names(string_views(keys@.take(k as int)).to_set()),
            decreases keys.len() - k,
        {
            let ghost before = self.reachable_selectors@;
            let key = chars_of(keys[k].as_str());
            self.reachable_selectors.insert(keys[k].clone());
            if key.len() > 0 {
                let mut setter = lit("set");
                push_text(&mut setter, &chars_of(to_uppercase(key[0]).as_str()));
                push_text(&mut setter, &crate::text::slice_text(&key, 1, key.len()));
                setter.push(':');
                proof {
                    assert(setter@ == kvc_setter(keys@[k as int]@));
                }
                self.reachable_selectors.insert(string_of(&setter));
            }
            proof {
                let x = keys@[k as int]@;
                let old_keys = string_views(keys@.take(k as int)).to_set();
                let new_keys = string_views(keys@.take(k + 1)).to_set();
                assert(keys@.take(k + 1) == keys@.take(k as int).push(keys@[k as int]));
                lemma_views_push(keys@.take(k as int), keys@[k as int]);
                assert(new_keys == old_keys.insert(x));
                assert(kvc_accessor_names(new_keys) =~= kvc_accessor_names(old_keys).insert(x)
                    + (if x.len() > 0 { set![kvc_setter(x)] } else { Set::empty() })) by {
                    assert forall|y: Seq<char>| kvc_accessor_names(new_keys).contains(y) implies
                        (kvc_accessor_names(old_keys).contains(y) || y == x || (x.len() > 0 && y == kvc_setter(x))) by {
                        if !new_keys.contains(y) {
                            let z = choose|z: Seq<char>| new_keys.contains(z) && z.len() > 0 && y == kvc_setter(z);
                            if z != x {
                                assert(old_keys.contains(z));
                            }
                        }
                    }
                    assert forall|y: Seq<char>| kvc_accessor_names(old_keys).contains(y) implies
                        kvc_accessor_names(new_keys).contains(y) by {
                        if !old_keys.contains(y) {
                            let z = choose|z: Seq<char>| old_keys.contains(z) && z.len() > 0 && y == kvc_setter(z);
                            assert(new_keys.contains(z));
                        }
                    }
                    if x.len() > 0 {
                        assert(new_keys.contains(x));
                        assert(kvc_accessor_names(new_keys).contains(kvc_setter(x)));
                    }
                }
                assert(self.reachable_selectors@ =~= old(self).reachable_selectors@ + kvc_accessor_names(new_keys));
            }
            k = k + 1;
        }
        proof {
            assert(keys@.take(k as int) == keys@);
            assert forall|x: Seq<char>| old(self).kvc_keys().contains(x) implies self.reachable_selectors@.contains(x) by {
                let j = choose|j: int| 0 <= j < string_views(keys@).len() && string_views(keys@)[j] == x;
                assert(keys@[j]@ == x);
            }
            assert forall|x: Seq<char>| old(self).kvc_keys().contains(x) && x.len() > 0 implies
                self.reachable_selectors@.contains(#[trigger] kvc_setter(x)) by {
                let j = choose|j: int| 0 <= j < string_views(keys@).len() && string_views(keys@)[j] == x;
                assert(keys@[j]@ == x);
            }
        }
    }

    /// How many of the methods have a reachable selector.
    fn count_reachable_methods(&self) -> (n: usize)
        requires
            self.wf(),
        ensures
            n == count_in(self.method_selectors(), self.reachable_selectors@),
    {
        let mut n: usize = 0;
        let mut i: usize = 0;
        while i < self.methods.len()
            invariant
                self.wf(),
                i <= self.methods.len(),
                n == count_in(self.method_selectors().take(i as int), self.reachable_selectors@),
            decreases self.methods.len() - i,
        {
            proof {
                assert(self.method_selectors().take(i + 1).drop_last() =~= self.method_selectors().take(i as int));
                lemma_count_in_bound(self.method_selectors().take(i as int), self.reachable_selectors@);
            }
            if self.reachable_selectors.contains(self.methods[i].selector.as_str()) {
                n = n + 1;
            }
            i = i + 1;
        }
        proof {
            assert(self.method_selectors().take(self.methods.len() as int) =~= self.method_selectors());
        }
        n
    }

    /// Works out the reachable selectors from the function `entry_point`:
    /// the selectors its body sends, then those the methods of reached
    /// selectors send, and so on; then the always-kept selectors and, when
    /// asked, the key-value-coding keys and their setters.
    pub fn analyze(&mut self, entry_point: &str) -> (r: AnalysisResult)
        requires
            old(self).wf(),
        ensures
            final(self).wf(),
            final(self).kept() == old(self).kept(),
            final(self).entries() == old(self).entries(),
            old(self).kept().subset_of(r.reachable_selectors@),
            old(self).keeps_kvc() ==> final(self).kvc_keys().subset_of(r.reachable_selectors@),
            r.reachable_selectors.wf(),
            r.dynamic_classes.wf(),
            r.stats.total_methods == final(self).method_selectors().len(),
            r.stats.reachable_methods == count_in(final(self).method_selectors(), r.reachable_selectors@),
            r.stats.reachable_methods <= r.stats.total_methods,
            r.stats.dynamic_classes == r.dynamic_classes@.len(),
            r.stats.kvc_keys == final(self).kvc_keys().len(),
            final(self).method_selectors() == old(self).method_selectors()
                + selectors_in_entries(old(self).entries(), old(self).entries().len() as int),
            old(self).entries().len() == 0 ==> final(self).method_selectors() == old(self).method_selectors()
                && r.dynamic_classes@ == old(self).dynamic_class_names()
                && final(self).kvc_keys() == old(self).kvc_keys(),
            exists|v: Set<Seq<char>>| v.subset_of(r.reachable_selectors@)
                && #[trigger] closed_under_sends(v, final(self).methods_found(), old(self).entries(), entry_point@),
            r.dynamic_classes@ == old(self).dynamic_class_names()
                + dynamic_in_entries(old(self).entries(), old(self).entries().len() as int),
            final(self).kvc_keys() == old(self).kvc_keys()
                + kvc_in_entries(old(self).entries(), old(self).entries().len() as int).to_set(),
            old(self).keeps_kvc() ==> forall|key: Seq<char>| final(self).kvc_keys().contains(key) && key.len() > 0
                ==> r.reachable_selectors@.contains(#[trigger] kvc_setter(key)),
            r.reachable_selectors@ == old(self).reachable()
                + sent_from_entry(final(self).methods_found(), old(self).entries(), entry_point@)
                + old(self).kept()
                + (if old(self).keeps_kvc() { kvc_accessor_names(final(self).kvc_keys()) } else { Set::empty() }),
            closed_under_sends(sent_from_entry(final(self).methods_found(), old(self).entries(), entry_point@),
                final(self).methods_found(), old(self).entries(), entry_point@),
            method_keys(final(self).methods_found()) == method_keys(old(self).methods_found())
                + keys_in_entries(old(self).entries(), old(self).entries().len() as int),
    {
        let keep_kvc = self.options.preserve_kvc;
        self.build_method_map();
        self.detect_dynamic_selectors();
        self.detect_kvc_usage();
        self.build_call_graph(entry_point);
        let ghost v = choose|v: Set<Seq<char>>| v.subset_of(self.reachable_selectors@)
            && #[trigger] closed_under_sends(v, self.methods_found(), self.entries(), entry_point@);
        let ghost ms = self.methods_found();
        let ghost r1 = self.reachable_selectors@;
        let kept = self.always_keep.to_vec();
        let mut k: usize = 0;
        while k < kept.len()
            invariant
                self.wf(),
                self.kept() == old(self).kept(),
                string_views(kept@).to_set() == self.kept(),
                k <= kept.len(),
                forall|j: int| 0 <= j < k ==> self.reachable_selectors@.contains(#[trigger] kept@[j]@),
                self.entries() == old(self).entries(),
                v.subset_of(self.reachable_selectors@),
                closed_under_sends(v, ms, self.entries(), entry_point@),
                r1 == old(self).reachable_selectors@ + sent_from_entry(ms, old(self).entries(), entry_point@),
                closed_under_sends(sent_from_entry(ms, old(self).entries(), entry_point@), ms, old(self).entries(), entry_point@),
                self.reachable_selectors@ == r1 + string_views(kept@.take(k as int)).to_set(),
                self.dynamic_classes@ == old(self).dynamic_classes@
                    + dynamic_in_entries(old(self).entries(), old(self).entries().len() as int),
                self.kvc_keys() == old(self).kvc_keys()
                    + kvc_in_entries(old(self).entries(), old(self).entries().len() as int).to_set(),
                self.methods_found() == ms,
                method_keys(ms) == method_keys(old(self).methods_found())
                    + keys_in_entries(old(self).entries(), old(self).entries().len() as int),
                self.method_selectors() == old(self).method_selectors()
                    + selectors_in_entries(old(self).entries(), old(self).entries().len() as int),
                old(self).entries().len() == 0 ==> self.method_selectors() == old(self).method_selectors()
                    && self.dynamic_classes@ == old(self).dynamic_classes@
                    && self.kvc_keys() == old(self).kvc_keys(),
            decreases kept.len() - k,
        {
            self.reachable_selectors.insert(kept[k].clone());
            proof {
                assert(kept@.take(k + 1) == kept@.take(k as int).push(kept@[k as int]));
                lemma_views_push(kept@.take(k as int), kept@[k as int]);
                assert(self.reachable_selectors@ =~= r1 + string_views(kept@.take(k + 1)).to_set());
            }
            k = k + 1;
        }
        proof {
            assert(kept@.take(k as int) == kept@);
        }
        let ghost r2 = self.reachable_selectors@;
        proof {
            assert forall|x: Seq<char>| self.kept().contains(x) implies self.reachable_selectors@.contains(x) by {
                let j = choose|j: int| 0 <= j < string_views(kept@).len() && string_views(kept@)[j] == x;
                assert(kept@[j]@ == x);
            }
        }
        if keep_kvc {
            self.add_kvc_accessors();
        }
        proof {
            if keep_kvc {
                assert(self.reachable_selectors@ == r2 + kvc_accessor_names(self.kvc_keys()));
            } else {
                assert(self.reachable_selectors@ =~= r2 + Set::<Seq<char>>::empty());
            }
        }
        let total_methods = self.methods.len();
        let reachable_methods = self.count_reachable_methods();
        proof {
            lemma_count_in_bound(self.method_selectors(), self.reachable_selectors@);
        }
        let stats = AnalysisStats {
            total_methods,
            reachable_methods,
            dynamic_classes: self.dynamic_classes.len(),
            kvc_keys: self.kvc_selectors.len(),
        };
        let res = AnalysisResult {
            reachable_selectors: self.reachable_selectors.copy(),
            dynamic_classes: self.dynamic_classes.copy(),
            stats,
        };
        proof {
            assert(v.subset_of(res.reachable_selectors@));
            assert(closed_under_sends(v, self.methods_found(), old(self).entries(), entry_point@));
        }
        res
    }
}

} // verus!
