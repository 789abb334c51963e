//! The assembler: follows `@import`s from a main file, orders the files so
//! that each comes after what it imports, compiles them again in that order
//! with the macros and classes accumulated so far, and joins them into one
//! bundle, optionally without the methods nothing can reach.
//!
//! Reading files is left to the caller: assembling is a conversation in
//! which the assembler asks for a file's text, whether a path exists, or
//! where the shared frameworks are, and the caller answers.
use vstd::prelude::*;
use crate::analyzer::{
    count_in, dynamic_in_entries, keys_in_entries, kept_selectors, kvc_accessor_names, kvc_in_entries, lemma_sent_from_keys,
    method_keys, selectors_in_entries, sent_from_keys, AnalysisResult, AnalysisStats, AnalyzerOptions, CompiledEntry,
    MethodReachabilityAnalyzer,
};
use crate::classes::{groups_view, regex_capture_spans, regex_compiles, regex_replace_all, spans_view, trim_space, trimmed, CharClasses, Pattern};
use crate::compiler::{compile, items_from, script_text, CompileOptions};
use crate::lexer::tokenize;
use crate::paths::{ends_with_j, has_j_extension, joined, normalized, parent_dir, parent_of, resolve, with_j_extension};
use crate::scan::{group_chars, group_of, group_text, matches_of, replaced, splice, well_placed};
use crate::lexer::texts_view;
use crate::tables::{lemma_views_push, string_views, ClassTable, MacroTable, NameSet};
use crate::text::{chars_of, lit, push_str, push_text, slice_text, string_of, text_eq, text_is, text_of_bytes};
use vstd::string::StringSliceAdditionalSpecFns;
use vstd::utf8::encode_utf8;

verus! {

// ---------------------------------------------------------------------------
// The dependency tree
// ---------------------------------------------------------------------------

/// A file and what it imports: a file met again (`cached`) or met while its
/// own imports are still being read (`circular`) has no children.
pub struct TreeNode {
    pub path: String,
    pub cached: bool,
    pub circular: bool,
    pub dependencies: Vec<TreeNode>,
}

/// The files a depth-first walk of `n` adds when the files of `seen` are
/// already added or being added: nothing for a file seen, met again or
/// circular; else the files of its imports, in order, then the file.
pub open spec fn walk(n: TreeNode, seen: Set<Seq<char>>) -> Seq<Seq<char>>
    decreases n, 1int,
{
    if seen.contains(n.path@) || n.circular || n.cached {
        Seq::empty()
    } else {
        walk_from(n, 0, seen.insert(n.path@)).push(n.path@)
    }
}

/// The files the walk adds for the imports of `n` from import `i` on.
pub open spec fn walk_from(n: TreeNode, i: int, seen: Set<Seq<char>>) -> Seq<Seq<char>>
    decreases n, 0int, n.dependencies@.len() - i,
{
    if i < 0 || i >= n.dependencies@.len() {
        Seq::empty()
    } else {
        proof {
            assert(decreases_to!(n => n.dependencies@[i]));
        }
        let a = walk(n.dependencies@[i], seen);
        a + walk_from(n, i + 1, seen + a.to_set())
    }
}

/// The files of `tree`, each after the files it imports, each once; files
/// met again and circular imports add nothing.
pub fn flatten_tree(tree: &TreeNode) -> (files: Vec<String>)
    ensures
        string_views(files@) == walk(*tree, Set::empty()),
        string_views(files@).no_duplicates(),
        !tree.cached && !tree.circular ==> files@.len() > 0 && files@.last()@ == tree.path@,
{
    let mut visited = NameSet::new();
    let mut result: Vec<String> = Vec::new();
    proof {
        assert(string_views(result@) =~= Seq::<Seq<char>>::empty());
        assert(string_views(result@).to_set() =~= Set::<Seq<char>>::empty());
        assert(visited@ =~= string_views(result@).to_set() + Set::<Seq<char>>::empty());
    }
    visit(tree, &mut visited, &mut result, Ghost(Set::empty()));
    result
}

/// A walk that starts at import `j` of `n` adds the file of every later
/// import `i` that is neither circular nor met again, unless that file was
/// seen before.
proof fn lemma_walk_from_has(n: TreeNode, j: int, seen: Set<Seq<char>>, i: int)
    requires
        0 <= j <= i < n.dependencies@.len(),
        !n.dependencies@[i].circular,
        !n.dependencies@[i].cached,
    ensures
        seen.contains(n.dependencies@[i].path@) || walk_from(n, j, seen).contains(n.dependencies@[i].path@),
    decreases i - j,
{
    let c = n.dependencies@[i];
    let a = walk(n.dependencies@[j], seen);
    let rest = walk_from(n, j + 1, seen + a.to_set());
    assert(walk_from(n, j, seen) == a + rest);
    if j == i {
        if !seen.contains(c.path@) {
            let w = walk_from(c, 0, seen.insert(c.path@)).push(c.path@);
            assert(a == w);
            assert(w[w.len() - 1] == c.path@);
            assert((a + rest)[a.len() - 1] == c.path@);
        }
    } else {
        lemma_walk_from_has(n, j + 1, seen + a.to_set(), i);
        if (seen + a.to_set()).contains(c.path@) && !seen.contains(c.path@) {
            assert(a.to_set().contains(c.path@));
            let k = choose|k: int| 0 <= k < a.len() && a[k] == c.path@;
            assert((a + rest)[k] == c.path@);
        } else if rest.contains(c.path@) {
            let k = choose|k: int| 0 <= k < rest.len() && rest[k] == c.path@;
            assert((a + rest)[a.len() + k] == c.path@);
        }
    }
}

/// Files come in compilation order: the files a walk adds for a file end
/// with that file, and each of its imports that is neither circular nor met
/// again, and that was not seen before the walk, is added before it.
pub proof fn law_imports_come_first(n: TreeNode, seen: Set<Seq<char>>)
    requires
        !seen.contains(n.path@),
        !n.circular,
        !n.cached,
    ensures
        walk(n, seen).len() > 0,
        walk(n, seen).last() == n.path@,
        forall|i: int| 0 <= i < n.dependencies@.len()
            && !(#[trigger] n.dependencies@[i]).circular && !n.dependencies@[i].cached
            && !seen.contains(n.dependencies@[i].path@) && n.dependencies@[i].path@ != n.path@
            ==> walk(n, seen).drop_last().contains(n.dependencies@[i].path@),
{
    let inner = walk_from(n, 0, seen.insert(n.path@));
    assert(walk(n, seen) == inner.push(n.path@));
    assert(walk(n, seen).drop_last() =~= inner);
    assert forall|i: int| 0 <= i < n.dependencies@.len()
        && !(#[trigger] n.dependencies@[i]).circular && !n.dependencies@[i].cached
        && !seen.contains(n.dependencies@[i].path@) && n.dependencies@[i].path@ != n.path@
        implies inner.contains(n.dependencies@[i].path@) by {
        lemma_walk_from_has(n, 0, seen.insert(n.path@), i);
    }
}

/// The elements of two sequences joined are those of either.
proof fn lemma_to_set_concat(x: Seq<Seq<char>>, a: Seq<Seq<char>>)
    ensures
        (x + a).to_set() == x.to_set() + a.to_set(),
{
    assert forall|e: Seq<char>| (x + a).to_set().contains(e) <==> (x.to_set() + a.to_set()).contains(e) by {
        if (x + a).to_set().contains(e) {
            let k = choose|k: int| 0 <= k < (x + a).len() && (x + a)[k] == e;
            if k < x.len() {
                assert(x[k] == e);
            } else {
                assert(a[k - x.len()] == e);
            }
        }
        if x.to_set().contains(e) {
            let k = choose|k: int| 0 <= k < x.len() && x[k] == e;
            assert((x + a)[k] == e);
        }
        if a.to_set().contains(e) {
            let k = choose|k: int| 0 <= k < a.len() && a[k] == e;
            assert((x + a)[x.len() + k] == e);
        }
    }
    assert((x + a).to_set() =~= x.to_set() + a.to_set());
}

/// Adds, after the files they import, the files of `node` not yet in
/// `visited`; `visited` holds the files added and those whose imports are
/// being added (`pending`).
fn visit(node: &TreeNode, visited: &mut NameSet, result: &mut Vec<String>, Ghost(pending): Ghost<Set<Seq<char>>>)
    requires
        old(visited).wf(),
        old(visited)@ == string_views(old(result)@).to_set() + pending,
        string_views(old(result)@).to_set().disjoint(pending),
        string_views(old(result)@).no_duplicates(),
    ensures
        final(visited).wf(),
        final(visited)@ == string_views(final(result)@).to_set() + pending,
        string_views(final(result)@).to_set().disjoint(pending),
        string_views(final(result)@).no_duplicates(),
        !old(visited)@.contains(node.path@) && !node.circular && !node.cached
            ==> final(result)@.len() > 0 && final(result)@.last()@ == node.path@,
        string_views(final(result)@) == string_views(old(result)@) + walk(*node, old(visited)@),
    decreases node,
{
    if visited.contains(node.path.as_str()) || node.circular || node.cached {
        return;
    }
    visited.insert(node.path.clone());
    let ghost inner = pending.insert(node.path@);
    proof {
        assert(visited@ =~= string_views(result@).to_set() + inner);
    }
    let ghost r0 = string_views(result@);
    let ghost seen0 = visited@;
    let mut i: usize = 0;
    while i < node.dependencies.len()
        invariant
            i <= node.dependencies.len(),
            inner == pending.insert(node.path@),
            string_views(result@) + walk_from(*node, i as int, visited@) == r0 + walk_from(*node, 0, seen0),
            seen0 == old(visited)@.insert(node.path@),
            visited.wf(),
            visited@ == string_views(result@).to_set() + inner,
            string_views(result@).to_set().disjoint(inner),
            string_views(result@).no_duplicates(),
        decreases node.dependencies.len() - i,
    {
        proof {
            assert(decreases_to!(node => node.dependencies@[i as int]));
        }
        let ghost v_before = visited@;
        let ghost r_before = string_views(result@);
        visit(&node.dependencies[i], visited, result, Ghost(inner));
        proof {
            let a = walk(node.dependencies@[i as int], v_before);
            lemma_to_set_concat(r_before, a);
            assert(visited@ =~= v_before + a.to_set());
            assert(walk_from(*node, i as int, v_before) == a + walk_from(*node, i + 1, v_before + a.to_set()));
            assert(string_views(result@) + walk_from(*node, i + 1, visited@) =~= r_before + walk_from(*node, i as int, v_before));
        }
        i = i + 1;
    }
    let ghost r1 = result@;
    result.push(node.path.clone());
    proof {
        assert(walk_from(*node, i as int, visited@) == Seq::<Seq<char>>::empty());
        lemma_views_push(r1, node.path);
        assert(string_views(result@) =~= string_views(old(result)@) + walk(*node, old(visited)@));
        lemma_views_push(r1, node.path);
        assert(!string_views(r1).to_set().contains(node.path@));
        assert(visited@ =~= string_views(result@).to_set() + pending);
        assert(string_views(result@).to_set().disjoint(pending));
    }
}

// ---------------------------------------------------------------------------
// Pruning and minifying compiled code
// ---------------------------------------------------------------------------

/// Where a scan of a method list stands: the bracket depth, whether it is
/// inside a string literal, and the quote that opened it.
pub struct ListScan {
    pub depth: int,
    pub in_string: bool,
    pub quote: char,
}

/// The scan of `block[..n]`.
pub open spec fn list_scan(block: Seq<char>, n: int) -> ListScan
    decreases n,
{
    if n <= 0 {
        ListScan { depth: 0, in_string: false, quote: '\0' }
    } else {
        let s = list_scan(block, n - 1);
        let c = block[n - 1];
        let prev = if n - 1 > 0 { block[n - 2] } else { '\0' };
        let quote = (c == '"' || c == '\'') && prev != '\\';
        let in_string = if quote && (!s.in_string || c == s.quote) { !s.in_string } else { s.in_string };
        ListScan {
            depth: if in_string { s.depth } else if c == '(' || c == '{' || c == '[' { s.depth + 1 } else if c == ')'
                || c == '}' || c == ']' { s.depth - 1 } else { s.depth },
            in_string,
            quote: if quote && !s.in_string { c } else { s.quote },
        }
    }
}

/// Whether the list is cut at position `p`: a comma outside brackets and
/// string literals.
pub open spec fn list_cut(block: Seq<char>, p: int) -> bool {
    let s = list_scan(block, p + 1);
    !s.in_string && block[p] == ',' && s.depth == 0
}

/// The pieces of `block[..n]` between its cuts.
pub open spec fn list_pieces(block: Seq<char>, n: int) -> Seq<Seq<char>>
    decreases n,
{
    if n <= 0 {
        seq![Seq::empty()]
    } else {
        let ps = list_pieces(block, n - 1);
        if list_cut(block, n - 1) {
            ps.push(Seq::empty())
        } else {
            ps.update(ps.len() - 1, ps.last().push(block[n - 1]))
        }
    }
}

proof fn lemma_list_pieces_nonempty(block: Seq<char>, n: int)
    ensures
        list_pieces(block, n).len() >= 1,
    decreases n,
{
    if n > 0 {
        lemma_list_pieces_nonempty(block, n - 1);
    }
}

/// The non-empty trimmed texts of some pieces.
pub open spec fn kept_pieces(ps: Seq<Seq<char>>) -> Seq<Seq<char>> {
    ps.map_values(|p: Seq<char>| trimmed(p)).filter(|t: Seq<char>| t.len() > 0)
}

/// The method definitions of a `class_addMethods` list: the pieces between
/// the commas outside brackets and string literals, trimmed, empty pieces
/// left out.
fn split_methods(cls: &CharClasses, block: &Vec<char>) -> (methods: Vec<Vec<char>>)
    requires
        cls.wf(),
    ensures
        forall|k: int| 0 <= k < methods@.len() ==> (#[trigger] methods@[k])@.len() > 0,
        texts_view(methods@) == kept_pieces(list_pieces(block@, block@.len() as int)),
{
    let mut methods: Vec<Vec<char>> = Vec::new();
    let mut current: Vec<char> = Vec::new();
    let mut depth: i128 = 0;
    let mut in_string = false;
    let mut string_char: char = '\0';
    let mut i: usize = 0;
    while i < block.len()
        invariant
            cls.wf(),
            i <= block.len(),
            -(i as int) <= depth <= i,
            forall|k: int| 0 <= k < methods@.len() ==> (#[trigger] methods@[k])@.len() > 0,
            ({
                let st = list_scan(block@, i as int);
                st.depth == depth && st.in_string == in_string && st.quote == string_char
            }),
            list_pieces(block@, i as int).len() >= 1,
            current@ == list_pieces(block@, i as int).last(),
            texts_view(methods@) == kept_pieces(list_pieces(block@, i as int).drop_last()),
        decreases block.len() - i,
    {
        let ghost ps = list_pieces(block@, i as int);
        let ch = block[i];
        let prev = if i > 0 { block[i - 1] } else { '\0' };
        if (ch == '"' || ch == '\'') && prev != '\\' {
            if !in_string {
                in_string = true;
                string_char = ch;
            } else if ch == string_char {
                in_string = false;
            }
        }
        let mut cut = false;
        if !in_string {
            if ch == '(' || ch == '{' || ch == '[' {
                depth = depth + 1;
            } else if ch == ')' || ch == '}' || ch == ']' {
                depth = depth - 1;
            }
            if ch == ',' && depth == 0 {
                proof {
                    assert(list_cut(block@, i as int));
                    assert(list_pieces(block@, i + 1) == ps.push(Seq::<char>::empty()));
                    assert(ps.push(Seq::<char>::empty()).drop_last() =~= ps);
                    assert(ps =~= ps.drop_last().push(ps.last()));
                    lemma_kept_push(ps.drop_last(), ps.last());
                }
                let trimmed = trim_space(cls, &current);
                if trimmed.len() > 0 {
                    let ghost before = methods@;
                    methods.push(trimmed);
                    proof {
                        assert(texts_view(methods@) =~= texts_view(before).push(trimmed@));
                    }
                }
                current = Vec::new();
                cut = true;
            }
        }
        if !cut {
            proof {
                assert(!list_cut(block@, i as int));
                assert(list_pieces(block@, i + 1) == ps.update(ps.len() - 1, ps.last().push(block@[i as int])));
                assert(ps.update(ps.len() - 1, ps.last().push(block@[i as int])).drop_last() =~= ps.drop_last());
            }
            current.push(ch);
        }
        i = i + 1;
    }
    let ghost ps = list_pieces(block@, i as int);
    proof {
        assert(ps =~= ps.drop_last().push(ps.last()));
        lemma_kept_push(ps.drop_last(), ps.last());
    }
    let trimmed = trim_space(cls, &current);
    if trimmed.len() > 0 {
        let ghost before = methods@;
        methods.push(trimmed);
        proof {
            assert(texts_view(methods@) =~= texts_view(before).push(trimmed@));
        }
    }
    methods
}

/// Keeping the trimmed non-empty pieces of a list grown by one piece.
proof fn lemma_kept_push(ps: Seq<Seq<char>>, p: Seq<char>)
    ensures
        kept_pieces(ps.push(p)) == if trimmed(p).len() > 0 { kept_pieces(ps).push(trimmed(p)) } else { kept_pieces(ps) },
{
    let f = |q: Seq<char>| trimmed(q);
    assert(ps.push(p).map_values(f) =~= ps.map_values(f).push(trimmed(p)));
    ps.map_values(f).lemma_filter_push(trimmed(p), |t: Seq<char>| t.len() > 0);
}


/// The matches of `pattern` in `text`: none where it does not compile.
pub open spec fn matches_in(pattern: Seq<char>, text: Seq<char>) -> Seq<Seq<Option<(int, int)>>> {
    if regex_compiles(pattern) { regex_capture_spans(pattern, text) } else { Seq::empty() }
}

/// The class whose code `code` is: the name given to the first
/// `objj_allocateClassPair`, or `Unknown`.
pub open spec fn class_of_code(code: Seq<char>) -> Seq<char> {
    let ms = matches_in(class_pair_pattern(), code);
    if ms.len() > 0 {
        match group_chars(code, ms[0], 1) {
            Some(t) => t,
            None => "Unknown"@,
        }
    } else {
        "Unknown"@
    }
}

pub open spec fn class_pair_pattern() -> Seq<char> {
    r#"var the_class = objj_allocateClassPair\([^,]+,\s*"([^"]+)"\)"#@
}

pub open spec fn method_list_pattern() -> Seq<char> {
    r"class_addMethods\((the_class|meta_class),\s*\[([\s\S]*?)\]\);"@
}

/// The text of an optional group, or nothing.
pub open spec fn or_nothing(o: Option<Seq<char>>) -> Seq<char> {
    match o {
        Some(t) => t,
        None => Seq::empty(),
    }
}

pub open spec fn method_selector_pattern() -> Seq<char> {
    r#"new objj_method\(sel_getUid\("([^"]+)"\)"#@
}

/// Whether method definition `m` stays: it names no selector, or a
/// reachable one.
pub open spec fn method_kept(m: Seq<char>, reachable: Set<Seq<char>>) -> bool {
    let ms = matches_in(method_selector_pattern(), m);
    ms.len() == 0 || (group_chars(m, ms[0], 1) matches Some(t) && reachable.contains(t))
}

/// Texts joined by `, `.
pub open spec fn comma_joined(ts: Seq<Seq<char>>) -> Seq<char>
    decreases ts.len(),
{
    if ts.len() == 0 {
        Seq::empty()
    } else if ts.len() == 1 {
        ts[0]
    } else {
        comma_joined(ts.drop_last()) + ", "@ + ts.last()
    }
}

/// The `class_addMethods` call for class variable `var` that keeps the
/// methods of list `block` that stay.
pub open spec fn pruned_list_text(var: Seq<char>, block: Seq<char>, reachable: Set<Seq<char>>) -> Seq<char> {
    let kept = kept_pieces(list_pieces(block, block.len() as int)).filter(|m: Seq<char>| method_kept(m, reachable));
    if kept.len() == 0 {
        "// class_addMethods("@ + var + ", []); - all methods pruned"@
    } else {
        "class_addMethods("@ + var + ", ["@ + comma_joined(kept) + "]);"@
    }
}

/// What replaces the method list match `m` of `code`.
pub open spec fn list_replacement(code: Seq<char>, m: Seq<Option<(int, int)>>, reachable: Set<Seq<char>>) -> Seq<char> {
    pruned_list_text(or_nothing(group_chars(code, m, 1)), or_nothing(group_chars(code, m, 2)), reachable)
}

/// `code` without the methods whose selectors are not in `reachable`,
/// unless its class is one of `dynamic`: only the `class_addMethods`
/// lists change.
pub open spec fn pruned_code(code: Seq<char>, reachable: Set<Seq<char>>, dynamic: Set<Seq<char>>) -> Seq<char> {
    if dynamic.contains(class_of_code(code)) {
        code
    } else {
        let ms = matches_in(method_list_pattern(), code);
        replaced(code, ms, Seq::new(ms.len(), |k: int| list_replacement(code, ms[k], reachable)))
    }
}

/// Pruning leaves the code of a class that sends computed selectors
/// whole, whatever selectors are reachable.
pub proof fn law_dynamic_class_kept(code: Seq<char>, reachable: Set<Seq<char>>, dynamic: Set<Seq<char>>)
    requires
        dynamic.contains(class_of_code(code)),
    ensures
        pruned_code(code, reachable, dynamic) == code,
{
}

/// Removes from one file's code the methods whose selectors are not
/// reachable; the code of a class that sends computed selectors is kept
/// whole. Only the `class_addMethods` lists change.
fn prune_unreachable_methods(cls: &CharClasses, code: &str, analysis: &AnalysisResult) -> (r: String)
    requires
        cls.wf(),
    ensures
        r@ == pruned_code(code@, analysis.reachable_selectors@, analysis.dynamic_classes@),
        analysis.dynamic_classes@.contains(class_of_code(code@)) ==> r@ == code@,
{
    let bytes = code.as_bytes();
    let class_matches = matches_of(r#"var the_class = objj_allocateClassPair\([^,]+,\s*"([^"]+)"\)"#, code);
    let current_class = if class_matches.len() > 0 {
        match group_of(code, &class_matches[0], 1) {
            Some(t) => t,
            None => String::from_str("Unknown"),
        }
    } else {
        String::from_str("Unknown")
    };
    proof {
        if class_matches@.len() > 0 {
            assert(spans_view(class_matches@)[0] == groups_view(class_matches@[0]@));
        }
    }
    if analysis.dynamic_classes.contains(current_class.as_str()) {
        return String::from_str(code);
    }
    let blocks = matches_of(r"class_addMethods\((the_class|meta_class),\s*\[([\s\S]*?)\]\);", code);
    let mut replacements: Vec<String> = Vec::new();
    let mut b: usize = 0;
    while b < blocks.len()
        invariant
            cls.wf(),
            b <= blocks@.len(),
            replacements@.len() == b,
            bytes@ == code.spec_bytes(),
            well_placed(blocks@, bytes@),
            string_views(replacements@) =~= Seq::new(b as nat, |k: int| list_replacement(code@, spans_view(blocks@)[k], analysis.reachable_selectors@)),
        decreases blocks@.len() - b,
    {
        let class_var = match group_of(code, &blocks[b], 1) {
            Some(t) => chars_of(t.as_str()),
            None => Vec::new(),
        };
        let block = match group_of(code, &blocks[b], 2) {
            Some(t) => chars_of(t.as_str()),
            None => Vec::new(),
        };
        proof {
            assert(spans_view(blocks@)[b as int] == groups_view(blocks@[b as int]@));
        }
        let rep = pruned_list(cls, &class_var, &block, analysis);
        let ghost before = replacements@;
        let x = string_of(&rep);
        proof {
            lemma_views_push(replacements@, x);
        }
        replacements.push(x);
        proof {
            assert(string_views(replacements@) =~= Seq::new((b + 1) as nat, |k: int| list_replacement(code@, spans_view(blocks@)[k], analysis.reachable_selectors@)));
        }
        b = b + 1;
    }
    let r = splice(code, &blocks, &replacements);
    proof {
        assert(string_views(replacements@) =~= Seq::new(spans_view(blocks@).len(), |k: int| list_replacement(code@, spans_view(blocks@)[k], analysis.reachable_selectors@)));
    }
    r
}

/// The method list `block` of class variable `var` without the methods
/// whose selectors are not `reachable`, as the `class_addMethods` call
/// that takes its place.
fn pruned_list(cls: &CharClasses, var: &Vec<char>, block: &Vec<char>, analysis: &AnalysisResult) -> (rep: Vec<char>)
    requires
        cls.wf(),
    ensures
        rep@ == pruned_list_text(var@, block@, analysis.reachable_selectors@),
{
    let methods = split_methods(cls, block);
    let ghost reachable = analysis.reachable_selectors@;
    let ghost all = kept_pieces(list_pieces(block@, block@.len() as int));
    let mut kept: Vec<Vec<char>> = Vec::new();
    let mut m: usize = 0;
    while m < methods.len()
        invariant
            m <= methods@.len(),
            texts_view(methods@) == all,
            reachable == analysis.reachable_selectors@,
            texts_view(kept@) == all.take(m as int).filter(|x: Seq<char>| method_kept(x, reachable)),
        decreases methods@.len() - m,
    {
        let method = string_of(&methods[m]);
        let sel = matches_of(r#"new objj_method\(sel_getUid\("([^"]+)"\)"#, method.as_str());
        let keep = if sel.len() > 0 {
            proof {
                assert(spans_view(sel@)[0] == groups_view(sel@[0]@));
            }
            match group_of(method.as_str(), &sel[0], 1) {
                Some(t) => analysis.reachable_selectors.contains(t.as_str()),
                None => false,
            }
        } else {
            true
        };
        proof {
            assert(method@ == all[m as int]);
            assert(keep == method_kept(all[m as int], reachable));
            assert(all.take(m + 1) == all.take(m as int).push(all[m as int]));
            all.take(m as int).lemma_filter_push(all[m as int], |x: Seq<char>| method_kept(x, reachable));
        }
        if keep {
            let ghost before = kept@;
            kept.push(crate::text::copy_text(&methods[m]));
            proof {
                assert(texts_view(kept@) =~= texts_view(before).push(all[m as int]));
            }
        }
        m = m + 1;
    }
    proof {
        assert(all.take(m as int) == all);
    }
    let mut rep: Vec<char> = Vec::new();
    if kept.len() == 0 {
        push_str(&mut rep, "// class_addMethods(");
        push_text(&mut rep, var);
        push_str(&mut rep, ", []); - all methods pruned");
    } else {
        push_str(&mut rep, "class_addMethods(");
        push_text(&mut rep, var);
        push_str(&mut rep, ", [");
        let ghost head = rep@;
        let mut k: usize = 0;
        while k < kept.len()
            invariant
                k <= kept@.len(),
                rep@ == head + comma_joined(texts_view(kept@).take(k as int)),
            decreases kept@.len() - k,
        {
            proof {
                assert(texts_view(kept@).take(k + 1).drop_last() =~= texts_view(kept@).take(k as int));
                assert(texts_view(kept@).take(k + 1).last() == kept@[k as int]@);
            }
            if k > 0 {
                push_str(&mut rep, ", ");
            }
            push_text(&mut rep, &kept[k]);
            proof {
                if k == 0 {
                    assert(texts_view(kept@).take(1) =~= seq![kept@[0]@]);
                }
            }
            k = k + 1;
        }
        proof {
            assert(texts_view(kept@).take(k as int) =~= texts_view(kept@));
        }
        push_str(&mut rep, "]);");
    }
    rep
}

/// What `regex::Regex::replace_all` makes of `text` with `pattern` and the
/// fixed replacement `rep`; the text itself where the pattern does not
/// compile.
pub open spec fn fixed_replaced(pattern: Seq<char>, text: Seq<char>, rep: Seq<char>) -> Seq<char> {
    if regex_compiles(pattern) { regex_replace_all(pattern, text, rep) } else { text }
}

/// Replaces every match of `pattern` in `text` by `replacement`.
fn replace_all_with(pattern: &str, text: &str, replacement: &str) -> (r: String)
    ensures
        r@ == fixed_replaced(pattern@, text@, replacement@),
{
    match Pattern::compile(pattern) {
        Some(p) => p.replace_all(text, replacement),
        None => String::from_str(text),
    }
}

/// A block comment opens at `i`: `/*`.
pub open spec fn opens_comment(s: Seq<char>, i: int) -> bool {
    0 <= i && i + 1 < s.len() && s[i] == '/' && s[i + 1] == '*'
}

/// A block comment closes at `j`: `*/`.
pub open spec fn closes_comment(s: Seq<char>, j: int) -> bool {
    0 <= j && j + 1 < s.len() && s[j] == '*' && s[j + 1] == '/'
}

/// The first `*/` at or after `j`, or -1.
pub open spec fn comment_close(s: Seq<char>, j: int) -> int
    decreases s.len() - j,
{
    if j < 0 || j + 1 >= s.len() {
        -1
    } else if closes_comment(s, j) {
        j
    } else {
        comment_close(s, j + 1)
    }
}

/// `s` from `i` on with its block comments removed, one at a time: a
/// comment runs from its `/*` to the first `*/` after it; a `/*` that is
/// never closed, and all that follows it, stay.
pub open spec fn strip_comments_from(s: Seq<char>, i: int) -> Seq<char>
    decreases s.len() - i,
{
    if i < 0 || i >= s.len() {
        Seq::empty()
    } else if opens_comment(s, i) {
        proof {
            lemma_comment_close_range(s, i + 2);
        }
        let j = comment_close(s, i + 2);
        if j >= i + 2 { strip_comments_from(s, j + 2) } else { s.subrange(i, s.len() as int) }
    } else {
        seq![s[i]] + strip_comments_from(s, i + 1)
    }
}

/// `s` with its block comments removed.
pub open spec fn strip_block_comments(s: Seq<char>) -> Seq<char> {
    strip_comments_from(s, 0)
}

/// No block comment opens in `s`.
pub open spec fn no_comment_open(s: Seq<char>) -> bool {
    forall|i: int| !#[trigger] opens_comment(s, i)
}

/// No block comment closes in `s`.
pub open spec fn no_comment_close(s: Seq<char>) -> bool {
    forall|j: int| !#[trigger] closes_comment(s, j)
}

/// The first `*/` found from `j` on lies at `j` or after it, and is one.
pub proof fn lemma_comment_close_range(s: Seq<char>, j: int)
    ensures
        comment_close(s, j) == -1 || (j <= comment_close(s, j) && closes_comment(s, comment_close(s, j))),
    decreases s.len() - j,
{
    if !(j < 0 || j + 1 >= s.len()) && !closes_comment(s, j) {
        lemma_comment_close_range(s, j + 1);
    }
}

/// Text holding no `/*` from `i` on is kept as it is.
proof fn lemma_strip_plain(s: Seq<char>, i: int)
    requires
        0 <= i <= s.len(),
        forall|k: int| i <= k < s.len() ==> !#[trigger] opens_comment(s, k),
    ensures
        strip_comments_from(s, i) == s.subrange(i, s.len() as int),
    decreases s.len() - i,
{
    if i < s.len() {
        assert(!opens_comment(s, i));
        lemma_strip_plain(s, i + 1);
        assert(seq![s[i]] + s.subrange(i + 1, s.len() as int) =~= s.subrange(i, s.len() as int));
    } else {
        assert(s.subrange(i, s.len() as int) =~= Seq::<char>::empty());
    }
}

/// Reading `pre + r` past `pre` finds the `*/` of `r`, moved by `pre`.
proof fn lemma_comment_close_shift(pre: Seq<char>, r: Seq<char>, j: int)
    requires
        0 <= j,
    ensures
        comment_close(pre + r, pre.len() + j) == (if comment_close(r, j) >= 0 { pre.len() + comment_close(r, j) } else { -1 }),
    decreases r.len() - j,
{
    let s = pre + r;
    assert(closes_comment(s, pre.len() + j) == closes_comment(r, j));
    if j + 1 < r.len() && !closes_comment(r, j) {
        lemma_comment_close_shift(pre, r, j + 1);
    }
}

/// Reading `pre + r` past `pre` reads `r`.
proof fn lemma_strip_shift(pre: Seq<char>, r: Seq<char>, i: int)
    requires
        0 <= i,
    ensures
        strip_comments_from(pre + r, pre.len() + i) == strip_comments_from(r, i),
    decreases r.len() - i,
{
    let s = pre + r;
    if i < r.len() {
        assert(opens_comment(s, pre.len() + i) == opens_comment(r, i));
        assert(s[pre.len() + i] == r[i]);
        if opens_comment(r, i) {
            lemma_comment_close_shift(pre, r, i + 2);
            lemma_comment_close_range(r, i + 2);
            let j = comment_close(r, i + 2);
            if j >= i + 2 {
                lemma_strip_shift(pre, r, j + 2);
            } else {
                assert(s.subrange(pre.len() + i, s.len() as int) =~= r.subrange(i, r.len() as int));
            }
        } else {
            lemma_strip_shift(pre, r, i + 1);
        }
    }
}

/// Text with no block comment comes through unchanged.
pub proof fn law_no_comment_unchanged(s: Seq<char>)
    requires
        no_comment_open(s),
    ensures
        strip_block_comments(s) == s,
{
    lemma_strip_plain(s, 0);
    assert(s.subrange(0, s.len() as int) =~= s);
}

/// A block comment is removed from its `/*` to its first `*/`, and no
/// further: the text before it is kept and the text after it is read
/// afresh.
pub proof fn law_comment_removed(p: Seq<char>, x: Seq<char>, r: Seq<char>)
    requires
        no_comment_open(p),
        no_comment_close(x),
    ensures
        strip_block_comments(p + "/*"@ + x + "*/"@ + r) == p + strip_block_comments(r),
{
    let open = seq!['/', '*'];
    let close = seq!['*', '/'];
    assert("/*"@ == open) by { reveal_strlit("/*"); }
    assert("*/"@ == close) by { reveal_strlit("*/"); }
    let pre = p + open + x + close;
    let s = pre + r;
    assert(p + "/*"@ + x + "*/"@ + r == s);
    let a = p.len() as int;
    let c1 = a + 2 + x.len();
    // Nothing opens inside `p`.
    assert forall|k: int| 0 <= k < a implies !#[trigger] opens_comment(s, k) by {
        if k + 1 < a {
            assert(s[k] == p[k] && s[k + 1] == p[k + 1]);
            assert(!opens_comment(p, k));
        } else {
            assert(s[k + 1] == '/');
        }
    }
    // The first `*/` after the `/*` is the one that follows `x`.
    assert forall|k: int| a + 2 <= k < c1 implies !#[trigger] closes_comment(s, k) by {
        if k + 1 < c1 {
            assert(s[k] == x[k - a - 2] && s[k + 1] == x[k + 1 - a - 2]);
            assert(!closes_comment(x, k - a - 2));
        } else {
            assert(s[k + 1] == '*');
        }
    }
    assert(closes_comment(s, c1));
    lemma_close_found(s, a + 2, c1);
    assert(opens_comment(s, a));
    lemma_strip_prefix(s, 0, a);
    assert(s.subrange(0, a) =~= p);
    lemma_strip_shift(pre, r, 0);
    assert(pre.len() == c1 + 2);
}

/// With no `*/` in `[j, c)` and one at `c`, the first found from `j` is `c`.
proof fn lemma_close_found(s: Seq<char>, j: int, c: int)
    requires
        0 <= j <= c,
        forall|k: int| j <= k < c ==> !#[trigger] closes_comment(s, k),
        closes_comment(s, c),
    ensures
        comment_close(s, j) == c,
    decreases c - j,
{
    if j < c {
        assert(!closes_comment(s, j));
        lemma_close_found(s, j + 1, c);
    }
}

/// Where nothing opens in `[i, a)`, those characters are kept.
proof fn lemma_strip_prefix(s: Seq<char>, i: int, a: int)
    requires
        0 <= i <= a <= s.len(),
        forall|k: int| i <= k < a ==> !#[trigger] opens_comment(s, k),
    ensures
        strip_comments_from(s, i) == s.subrange(i, a) + strip_comments_from(s, a),
    decreases a - i,
{
    if i < a {
        assert(!opens_comment(s, i));
        lemma_strip_prefix(s, i + 1, a);
        assert(seq![s[i]] + (s.subrange(i + 1, a) + strip_comments_from(s, a)) =~= s.subrange(i, a) + strip_comments_from(s, a));
    } else {
        assert(s.subrange(i, a) =~= Seq::<char>::empty());
        assert(Seq::<char>::empty() + strip_comments_from(s, a) =~= strip_comments_from(s, a));
    }
}

/// No `*/` from `j` on: none is found.
proof fn lemma_close_none(s: Seq<char>, j: int)
    requires
        0 <= j,
        forall|k: int| j <= k ==> !#[trigger] closes_comment(s, k),
    ensures
        comment_close(s, j) == -1,
    decreases s.len() - j,
{
    if j + 1 < s.len() {
        assert(!closes_comment(s, j));
        lemma_close_none(s, j + 1);
    }
}

/// A `/*` that is never closed, and all that follows it, is kept.
pub proof fn law_unclosed_comment_kept(p: Seq<char>, x: Seq<char>)
    requires
        no_comment_open(p),
        no_comment_close(x),
    ensures
        strip_block_comments(p + "/*"@ + x) == p + "/*"@ + x,
{
    let open = seq!['/', '*'];
    assert("/*"@ == open) by { reveal_strlit("/*"); }
    let s = p + open + x;
    let a = p.len() as int;
    assert forall|k: int| 0 <= k < a implies !#[trigger] opens_comment(s, k) by {
        if k + 1 < a {
            assert(s[k] == p[k] && s[k + 1] == p[k + 1]);
            assert(!opens_comment(p, k));
        } else {
            assert(s[k + 1] == '/');
        }
    }
    assert forall|k: int| a + 2 <= k implies !#[trigger] closes_comment(s, k) by {
        if k + 1 < s.len() {
            assert(s[k] == x[k - a - 2] && s[k + 1] == x[k + 1 - a - 2]);
            assert(!closes_comment(x, k - a - 2));
        }
    }
    lemma_close_none(s, a + 2);
    assert(opens_comment(s, a));
    lemma_strip_prefix(s, 0, a);
    assert(s.subrange(0, a) =~= p);
    assert(p + s.subrange(a, s.len() as int) =~= s);
}

/// Two block comments are removed each on its own: the code between them
/// is kept.
pub proof fn law_block_comments_one_at_a_time(p: Seq<char>, x: Seq<char>, q: Seq<char>, y: Seq<char>, r: Seq<char>)
    requires
        no_comment_open(p),
        no_comment_open(q),
        no_comment_open(r),
        no_comment_close(x),
        no_comment_close(y),
    ensures
        strip_block_comments(p + "/*"@ + x + "*/"@ + q + "/*"@ + y + "*/"@ + r) == p + q + r,
{
    let tail = q + "/*"@ + y + "*/"@ + r;
    law_comment_removed(p, x, tail);
    assert(p + "/*"@ + x + "*/"@ + q + "/*"@ + y + "*/"@ + r == p + "/*"@ + x + "*/"@ + tail);
    law_comment_removed(q, y, r);
    law_no_comment_unchanged(r);
    assert(p + (q + r) == p + q + r);
}

/// Removes block comments, one at a time.
fn strip_comments(text: &str) -> (r: String)
    ensures
        r@ == strip_block_comments(text@),
{
    let cs = chars_of(text);
    let n = cs.len();
    let mut out: Vec<char> = Vec::new();
    let mut i: usize = 0;
    while i < n
        invariant
            i <= n,
            n == cs@.len(),
            out@ + strip_comments_from(cs@, i as int) == strip_comments_from(cs@, 0),
        decreases n - i,
    {
        if n - i >= 2 && cs[i] == '/' && cs[i + 1] == '*' {
            let mut j: usize = i + 2;
            while n - j >= 2 && !(cs[j] == '*' && cs[j + 1] == '/')
                invariant
                    i + 2 <= j <= n,
                    n == cs@.len(),
                    comment_close(cs@, j as int) == comment_close(cs@, i + 2),
                decreases n - j,
            {
                j = j + 1;
            }
            proof {
                assert(opens_comment(cs@, i as int));
            }
            if n - j >= 2 {
                proof {
                    assert(closes_comment(cs@, j as int));
                    assert(comment_close(cs@, i + 2) == j);
                }
                i = j + 2;
            } else {
                let rest = slice_text(&cs, i, n);
                proof {
                    assert(comment_close(cs@, j as int) == -1);
                    assert(out@ + strip_comments_from(cs@, i as int) == out@ + rest@);
                    assert(strip_comments_from(cs@, n as int) =~= Seq::<char>::empty());
                    assert(out@ + rest@ + Seq::<char>::empty() =~= out@ + rest@);
                }
                push_text(&mut out, &rest);
                i = n;
            }
        } else {
            proof {
                assert(!opens_comment(cs@, i as int));
                assert(out@.push(cs@[i as int]) + strip_comments_from(cs@, i + 1) =~= out@ + (seq![cs@[i as int]] + strip_comments_from(cs@, i + 1)));
            }
            out.push(cs[i]);
            i = i + 1;
        }
    }
    proof {
        assert(strip_comments_from(cs@, n as int) =~= Seq::<char>::empty());
        assert(out@ + Seq::<char>::empty() =~= out@);
    }
    string_of(&out)
}

/// `code` without line comments, block comments and blank lines, with
/// runs of line feeds made one.
pub open spec fn minified(code: Seq<char>) -> Seq<char> {
    let s1 = fixed_replaced(r"(?m)^[ \t]*//.*$"@, code, ""@);
    let s2 = strip_block_comments(s1);
    let s3 = fixed_replaced(r"(?m)^\s*\r?\n"@, s2, ""@);
    fixed_replaced(r"\n{2,}"@, s3, "\n"@)
}

/// Strips line and block comments and blank lines, and runs of newlines
/// down to one.
pub fn minify(code: &str) -> (r: String)
    ensures
        r@ == minified(code@),
{
    let s1 = replace_all_with(r"(?m)^[ \t]*//.*$", code, "");
    let s2 = strip_comments(s1.as_str());
    let s3 = replace_all_with(r"(?m)^\s*\r?\n", s2.as_str(), "");
    replace_all_with(r"\n{2,}", s3.as_str(), "\n")
}

// ---------------------------------------------------------------------------
// Options and results
// ---------------------------------------------------------------------------

pub struct AssembleOptions {
    /// The directory the main file and the project's `Frameworks` folder
    /// are found from.
    pub base_path: String,
    /// Directories searched first for framework (`<...>`) imports.
    pub framework_paths: Vec<String>,
    pub defines: MacroTable,
    pub classes: ClassTable,
    pub include_debug_symbols: bool,
    pub include_type_signatures: bool,
}

impl AssembleOptions {
    /// Options for a project rooted at `base_path`, with nothing predefined.
    pub fn new(base_path: String) -> (o: AssembleOptions)
        ensures
            o.base_path@ == base_path@,
            o.framework_paths@.len() == 0,
            o.defines.wf(),
            o.defines.entries().len() == 0,
            o.classes.wf(),
            o.classes.entries().len() == 0,
            !o.include_debug_symbols,
            !o.include_type_signatures,
    {
        AssembleOptions {
            base_path,
            framework_paths: Vec::new(),
            defines: MacroTable::new(),
            classes: ClassTable::new(),
            include_debug_symbols: false,
            include_type_signatures: false,
        }
    }
}

pub struct BundleOptions {
    pub include_source_map: bool,
    pub minify: bool,
    pub tree_shake: bool,
    /// `safe`, `moderate`, `aggressive` or `off`.
    pub tree_shake_mode: Option<String>,
    pub tree_shake_whitelist: Vec<String>,
    pub tree_shake_preserve_accessors: bool,
    pub tree_shake_preserve_kvc: bool,
    pub tree_shake_verbose: bool,
    pub tree_shake_stats: bool,
    pub append_window_onload: bool,
}

impl Default for BundleOptions {
    fn default() -> (o: BundleOptions)
        ensures
            !o.include_source_map,
            !o.minify,
            !o.tree_shake,
            o.tree_shake_mode is None,
            o.tree_shake_whitelist@.len() == 0,
            !o.tree_shake_preserve_accessors,
            !o.tree_shake_preserve_kvc,
            !o.tree_shake_verbose,
            !o.tree_shake_stats,
            !o.append_window_onload,
    {
        BundleOptions {
            include_source_map: false,
            minify: false,
            tree_shake: false,
            tree_shake_mode: None,
            tree_shake_whitelist: Vec::new(),
            tree_shake_preserve_accessors: false,
            tree_shake_preserve_kvc: false,
            tree_shake_verbose: false,
            tree_shake_stats: false,
            append_window_onload: false,
        }
    }
}

pub struct BundleResult {
    pub code: String,
    pub files: Vec<String>,
    pub file_count: usize,
    /// The size of the bundle in bytes.
    pub total_size: usize,
    pub tree_shaking: Option<AnalysisStats>,
}

/// What the assembler needs next, or its outcome.
pub enum AssembleStep {
    /// The text of this file.
    Read(String),
    /// Whether this path exists.
    Exists(String),
    /// The shared frameworks directory installed with the compiler, if
    /// there is one.
    SharedFrameworks,
    /// The files in compilation order, or why assembling failed.
    Done(Result<Vec<String>, String>),
}

/// The caller's answer to an `AssembleStep`.
pub enum AssembleReply {
    /// The text of the file asked for.
    Text(String),
    /// The file could not be read, for this reason.
    ReadFailed(String),
    /// Whether the path asked about exists.
    Exists(bool),
    /// Where the shared frameworks directory is, if anywhere.
    SharedFrameworks(Option<String>),
}

struct CacheEntry {
    path: String,
    source: String,
    code: String,
    defines: MacroTable,
    classes: ClassTable,
}

/// A file whose imports are being followed.
struct Frame {
    path: String,
    deps: Vec<(String, bool)>,
    next: usize,
    children: Vec<TreeNode>,
}

/// The search for the file an import names: the candidate paths are tried
/// in turn, each also with `.j` appended when the import has no extension.
struct Search {
    url: String,
    is_local: bool,
    importer: String,
    dirs: Vec<String>,
    dir: usize,
    candidate: String,
    tried_ext: bool,
}

/// The path tried for an import's `url` in directory `dir`, with `.j`
/// appended when `ext` holds.
pub open spec fn candidate_path(dir: Seq<char>, url: Seq<char>, ext: bool) -> Seq<char> {
    let p = normalized(joined(dir, url));
    if ext { p + seq!['.', 'j'] } else { p }
}

/// The `Frameworks` folder of the project whose base directory is `base`.
pub open spec fn project_frameworks(base: Seq<char>) -> Seq<char> {
    if base.len() == 0 {
        "Frameworks"@
    } else if base.last() == '/' {
        base + "Frameworks"@
    } else {
        base + "/Frameworks"@
    }
}

/// The directories searched for framework imports, in order: the
/// framework paths given, the project's `Frameworks` folder, then the
/// shared frameworks directory where there is one.
pub open spec fn framework_dirs(opts: AssembleOptions, shared: Option<String>) -> Seq<Seq<char>> {
    string_views(opts.framework_paths@) + seq![project_frameworks(opts.base_path@)] + match shared {
        Some(d) => seq![d@],
        None => Seq::empty(),
    }
}

/// Where the search for an imported file stands: the import's `url` and
/// the file that imports it, the directories to try, the one being tried,
/// and whether `.j` was appended there.
pub struct SearchView {
    pub url: Seq<char>,
    pub importer: Seq<char>,
    pub is_local: bool,
    pub dirs: Seq<Seq<char>>,
    pub dir: int,
    pub tried_ext: bool,
}

/// The error that ends assembling when a quoted import names no file.
pub open spec fn local_not_found(url: Seq<char>, importer: Seq<char>) -> Seq<char> {
    "Local import \""@ + url + "\" not found (imported from \""@ + importer + "\")"@
}

/// The warning left when an angle-bracket import names no file in any of
/// the framework directories.
pub open spec fn framework_not_found(url: Seq<char>, importer: Seq<char>) -> Seq<char> {
    "Framework import \""@ + url + "\" not found in framework paths (imported from \""@ + importer + "\")"@
}

/// Where a search stands once the candidate `v` describes was not found:
/// `.j` is appended where the import has no extension yet, then the next
/// directory is tried; a quoted import that is not found is an error, an
/// angle-bracket one a warning.
pub open spec fn after_not_found(
    v: SearchView,
    search: Option<SearchView>,
    step: AssembleStep,
    warnings_before: Seq<Seq<char>>,
    warnings_after: Seq<Seq<char>>,
) -> bool {
    if !v.tried_ext && !ends_with_j(v.url) {
        &&& search == Some(SearchView { tried_ext: true, ..v })
        &&& step matches AssembleStep::Exists(c) && c@ == candidate_path(v.dirs[v.dir], v.url, true)
    } else if v.is_local {
        step matches AssembleStep::Done(Err(e)) && e@ == local_not_found(v.url, v.importer)
    } else if v.dir + 1 < v.dirs.len() {
        &&& search == Some(SearchView { dir: v.dir + 1, tried_ext: false, ..v })
        &&& step matches AssembleStep::Exists(c) && c@ == candidate_path(v.dirs[v.dir + 1], v.url, false)
    } else {
        warnings_after == warnings_before.push(framework_not_found(v.url, v.importer))
    }
}

/// The search for the file that the import `url` of `importer` names has
/// begun: a quoted import is looked for next to the importer, and the
/// first path is asked about; for an angle-bracket one the shared
/// frameworks directory is asked for.
pub open spec fn search_started(
    search: Option<SearchView>,
    awaiting: Option<(Seq<char>, Seq<char>)>,
    step: AssembleStep,
    url: Seq<char>,
    is_local: bool,
    importer: Seq<char>,
) -> bool {
    if is_local {
        &&& search == Some(SearchView {
            url,
            importer,
            is_local: true,
            dirs: seq![parent_of(importer)],
            dir: 0,
            tried_ext: false,
        })
        &&& step matches AssembleStep::Exists(c) && c@ == candidate_path(parent_of(importer), url, false)
    } else {
        &&& awaiting == Some((url, importer))
        &&& step is SharedFrameworks
    }
}

/// The error that ends assembling when the file `path` (imported from
/// `importer`, if any) cannot be read, for `reason`.
pub open spec fn read_failure(path: Seq<char>, importer: Option<Seq<char>>, reason: Seq<char>) -> Seq<char> {
    "Failed to read file \""@ + path + "\""@
        + (match importer { Some(i) => " (imported from \""@ + i + "\")"@, None => Seq::empty() })
        + ": "@ + reason
}

/// The error that ends assembling when a file does not compile.
pub open spec fn compile_failure(path: Seq<char>, message: Seq<char>) -> Seq<char> {
    "Failed to compile \""@ + path + "\": "@ + message
}

spec fn search_wf(s: Search) -> bool {
    &&& 0 <= s.dir < s.dirs@.len()
    &&& s.candidate@ == candidate_path(s.dirs@[s.dir as int]@, s.url@, s.tried_ext)
}

enum Waiting {
    Nothing,
    File(String, Option<String>),
    Path(Search),
    Shared(Search),
}

pub struct Assembler {
    opts: AssembleOptions,
    cache: Vec<CacheEntry>,
    order: Vec<String>,
    processing: Vec<String>,
    stack: Vec<Frame>,
    waiting: Waiting,
    warnings: Vec<String>,
    cls: CharClasses,
    tree: Ghost<Option<TreeNode>>,
}

/// Whether `names` holds `n`.
fn holds_name(names: &Vec<String>, n: &str) -> (b: bool)
    ensures
        b == string_views(names@).contains(n@),
{
    let t = chars_of(n);
    let mut i: usize = 0;
    while i < names.len()
        invariant
            i <= names.len(),
            t@ == n@,
            forall|k: int| 0 <= k < i ==> (#[trigger] names@[k])@ != n@,
        decreases names.len() - i,
    {
        if text_eq(&chars_of(names[i].as_str()), &t) {
            proof {
                assert(string_views(names@)[i as int] == n@);
            }
            return true;
        }
        i = i + 1;
    }
    proof {
        if string_views(names@).contains(n@) {
            let k = choose|k: int| 0 <= k < string_views(names@).len() && string_views(names@)[k] == n@;
            assert(names@[k]@ == n@);
        }
    }
    false
}

/// `names` without `n`.
fn without_name(names: &Vec<String>, n: &str) -> (r: Vec<String>)
    ensures
        string_views(r@) == string_views(names@).filter(|x: Seq<char>| x != n@),
{
    let t = chars_of(n);
    let mut r: Vec<String> = Vec::new();
    let mut i: usize = 0;
    while i < names.len()
        invariant
            i <= names.len(),
            t@ == n@,
            string_views(r@) == string_views(names@.take(i as int)).filter(|x: Seq<char>| x != n@),
        decreases names.len() - i,
    {
        proof {
            assert(names@.take(i + 1) == names@.take(i as int).push(names@[i as int]));
            lemma_views_push(names@.take(i as int), names@[i as int]);
            string_views(names@.take(i as int)).lemma_filter_push(names@[i as int]@, |x: Seq<char>| x != n@);
        }
        if !text_eq(&chars_of(names[i].as_str()), &t) {
            let x = names[i].clone();
            proof {
                lemma_views_push(r@, x);
            }
            r.push(x);
        }
        i = i + 1;
    }
    proof {
        assert(names@.take(i as int) == names@);
    }
    r
}

/// The text `a` + `t` + `b` as a string.
fn message(a: &str, t: &str, b: &str) -> (s: String)
    ensures
        s@ == a@ + t@ + b@,
{
    let mut m = lit(a);
    push_text(&mut m, &chars_of(t));
    push_str(&mut m, b);
    string_of(&m)
}

/// The first entry of `cache` from entry `i` on that was compiled for `path`.
spec fn index_from(cache: Seq<CacheEntry>, path: Seq<char>, i: int) -> Option<int>
    decreases cache.len() - i,
{
    if i < 0 || i >= cache.len() {
        None
    } else if cache[i].path@ == path {
        Some(i)
    } else {
        index_from(cache, path, i + 1)
    }
}

proof fn lemma_index_from_bounds(cache: Seq<CacheEntry>, path: Seq<char>, i: int)
    ensures
        index_from(cache, path, i) matches Some(j) ==> 0 <= i <= j < cache.len() && cache[j].path@ == path,
    decreases cache.len() - i,
{
    if 0 <= i < cache.len() && cache[i].path@ != path {
        lemma_index_from_bounds(cache, path, i + 1);
    }
}

/// A path not found before is found at the entry pushed for it.
proof fn lemma_index_from_push(cache: Seq<CacheEntry>, e: CacheEntry, path: Seq<char>, i: int)
    requires
        0 <= i <= cache.len(),
        index_from(cache, path, i) is None,
        e.path@ == path,
    ensures
        index_from(cache.push(e), path, i) == Some(cache.len() as int),
    decreases cache.len() - i,
{
    if i < cache.len() {
        assert(cache.push(e)[i] == cache[i]);
        lemma_index_from_push(cache, e, path, i + 1);
    } else {
        assert(cache.push(e)[i] == e);
    }
}

/// The part of a bundle that holds the code of one file.
pub open spec fn region(path: Seq<char>, code: Seq<char>) -> Seq<char> {
    "// #region "@ + path + seq!['\n'] + "// File: "@ + path + seq!['\n'] + code + seq!['\n']
        + "// #endregion"@ + seq!['\n']
}

/// Texts joined by line feeds.
pub open spec fn lines_joined(ps: Seq<Seq<char>>) -> Seq<char>
    decreases ps.len(),
{
    if ps.len() == 0 {
        Seq::empty()
    } else if ps.len() == 1 {
        ps[0]
    } else {
        lines_joined(ps.drop_last()) + seq!['\n'] + ps.last()
    }
}

impl Assembler {
    /// The entry of the cache that holds the file `path`, if it was read.
    closed spec fn cache_index(&self, path: Seq<char>) -> Option<int> {
        index_from(self.cache@, path, 0)
    }

    /// The code compiled for the file `path`, if it was read.
    pub closed spec fn code_of(&self, path: Seq<char>) -> Option<Seq<char>> {
        match self.cache_index(path) {
            Some(j) => Some(self.cache@[j].code@),
            None => None,
        }
    }

    /// The file `path`, its source and its compiled code, if it was read.
    pub closed spec fn entry_of(&self, path: Seq<char>) -> Option<CompiledEntry> {
        match self.cache_index(path) {
            Some(j) => Some(CompiledEntry { path: self.cache@[j].path, source: self.cache@[j].source, code: self.cache@[j].code }),
            None => None,
        }
    }

    /// The entries of the files of `files` that were read, in order.
    pub open spec fn cached_entries(&self, files: Seq<Seq<char>>) -> Seq<CompiledEntry>
        decreases files.len(),
    {
        if files.len() == 0 {
            Seq::empty()
        } else {
            self.cached_entries(files.drop_last()) + match self.entry_of(files.last()) {
                Some(e) => seq![e],
                None => Seq::empty(),
            }
        }
    }

    /// The regions of the files of `files` that were read, in order, each
    /// pruned to the selectors of `reach` (`whole`: the classes kept whole).
    pub open spec fn shaken_regions(&self, files: Seq<Seq<char>>, reach: Set<Seq<char>>, whole: Set<Seq<char>>) -> Seq<Seq<char>>
        decreases files.len(),
    {
        if files.len() == 0 {
            Seq::empty()
        } else {
            self.shaken_regions(files.drop_last(), reach, whole) + match self.code_of(files.last()) {
                Some(c) => seq![region(files.last(), pruned_code(c, reach, whole))],
                None => Seq::empty(),
            }
        }
    }

    /// The regions of the files of `files` that were read, in order.
    pub open spec fn regions(&self, files: Seq<Seq<char>>) -> Seq<Seq<char>>
        decreases files.len(),
    {
        if files.len() == 0 {
            Seq::empty()
        } else {
            self.regions(files.drop_last()) + match self.code_of(files.last()) {
                Some(c) => seq![region(files.last(), c)],
                None => Seq::empty(),
            }
        }
    }

    /// The tree of imports of the last assembling that finished.
    pub closed spec fn finished_tree(&self) -> Option<TreeNode> {
        self.tree@
    }

    pub closed spec fn wf(&self) -> bool {
        &&& match self.waiting {
            Waiting::Path(s) => search_wf(s),
            Waiting::Shared(s) => !s.is_local,
            _ => true,
        }
        &&& self.opts.defines.wf()
        &&& self.opts.classes.wf()
        &&& self.cls.wf()
        &&& forall|i: int| 0 <= i < self.cache@.len() ==> (#[trigger] self.cache@[i]).defines.wf() && self.cache@[i].classes.wf()
    }

    pub fn new(opts: AssembleOptions) -> (a: Assembler)
        requires
            opts.defines.wf(),
            opts.classes.wf(),
        ensures
            a.wf(),
            a.options() == opts,
            a.search() is None,
            a.awaiting_shared_dir() is None,
            a.warnings_view().len() == 0,
    {
        Assembler {
            opts,
            cache: Vec::new(),
            order: Vec::new(),
            processing: Vec::new(),
            stack: Vec::new(),
            waiting: Waiting::Nothing,
            warnings: Vec::new(),
            cls: CharClasses::new(),
            tree: Ghost(None),
        }
    }

    /// The options the assembler was made with.
    pub closed spec fn options(&self) -> AssembleOptions {
        self.opts
    }

    /// The search the assembler is in the middle of, if any: its last step
    /// asked whether `search_candidate()` exists.
    pub closed spec fn search(&self) -> Option<SearchView> {
        match self.waiting {
            Waiting::Path(s) => Some(SearchView {
                url: s.url@,
                importer: s.importer@,
                is_local: s.is_local,
                dirs: string_views(s.dirs@),
                dir: s.dir as int,
                tried_ext: s.tried_ext,
            }),
            _ => None,
        }
    }

    /// The warnings so far.
    pub closed spec fn warnings_view(&self) -> Seq<Seq<char>> {
        string_views(self.warnings@)
    }

    /// The path the assembler last asked about.
    pub closed spec fn search_candidate(&self) -> Seq<char> {
        match self.waiting {
            Waiting::Path(s) => s.candidate@,
            _ => Seq::empty(),
        }
    }

    /// The file whose text the assembler asked for last, and the file that
    /// imports it, if any.
    pub closed spec fn awaited_file(&self) -> Option<(Seq<char>, Option<Seq<char>>)> {
        match self.waiting {
            Waiting::File(p, i) => Some((p@, match i { Some(x) => Some(x@), None => None })),
            _ => None,
        }
    }

    /// The paths of the files read, in the order they were read.
    pub closed spec fn cached_paths(&self) -> Seq<Seq<char>> {
        self.cache@.map_values(|e: CacheEntry| e.path@)
    }

    /// The files whose imports are being followed.
    pub closed spec fn in_progress(&self) -> Seq<Seq<char>> {
        string_views(self.processing@)
    }

    /// How many files are open, each waiting for its imports.
    pub closed spec fn frames(&self) -> nat {
        self.stack@.len()
    }

    /// Import `k` of the innermost open file, if it has one: its url,
    /// whether it is quoted, and the file.
    pub closed spec fn import_at(&self, k: int) -> Option<(Seq<char>, bool, Seq<char>)> {
        if self.stack@.len() > 0 && 0 <= k < self.stack@.last().deps@.len() {
            let top = self.stack@.last();
            Some((top.deps@[k].0@, top.deps@[k].1, top.path@))
        } else {
            None
        }
    }

    /// The import of the innermost open file that is to be followed next.
    pub closed spec fn next_import(&self) -> Option<(Seq<char>, bool, Seq<char>)> {
        if self.stack@.len() > 0 {
            self.import_at(self.stack@.last().next as int)
        } else {
            None
        }
    }

    /// The import of the innermost open file after the one being followed.
    pub closed spec fn import_after_next(&self) -> Option<(Seq<char>, bool, Seq<char>)> {
        if self.stack@.len() > 0 {
            self.import_at(self.stack@.last().next + 1)
        } else {
            None
        }
    }

    /// The framework import (its `url` and importer) for which the
    /// assembler asked where the shared frameworks directory is.
    pub closed spec fn awaiting_shared_dir(&self) -> Option<(Seq<char>, Seq<char>)> {
        match self.waiting {
            Waiting::Shared(s) => Some((s.url@, s.importer@)),
            _ => None,
        }
    }

    /// The directories searched for framework (`<...>`) imports, in order:
    /// the framework paths given, the project's `Frameworks` folder next to
    /// the base path, then the shared frameworks directory, if any.
    fn framework_search_dirs(&self, shared: Option<String>) -> (dirs: Vec<String>)
        ensures
            string_views(dirs@) == framework_dirs(self.opts, shared),
            dirs@.len() >= 1,
    {
        let mut dirs: Vec<String> = Vec::new();
        let mut i: usize = 0;
        while i < self.opts.framework_paths.len()
            invariant
                i <= self.opts.framework_paths.len(),
                string_views(dirs@) == string_views(self.opts.framework_paths@.take(i as int)),
            decreases self.opts.framework_paths.len() - i,
        {
            let d = self.opts.framework_paths[i].clone();
            proof {
                lemma_views_push(dirs@, d);
                lemma_views_push(self.opts.framework_paths@.take(i as int), self.opts.framework_paths@[i as int]);
                assert(self.opts.framework_paths@.take(i + 1) == self.opts.framework_paths@.take(i as int).push(self.opts.framework_paths@[i as int]));
            }
            dirs.push(d);
            i = i + 1;
        }
        proof {
            assert(self.opts.framework_paths@.take(i as int) == self.opts.framework_paths@);
        }
        let base = chars_of(self.opts.base_path.as_str());
        let project = if base.len() == 0 {
            lit("Frameworks")
        } else {
            let mut t = crate::text::copy_text(&base);
            if !(t[t.len() - 1] == '/') {
                t.push('/');
            }
            push_str(&mut t, "Frameworks");
            t
        };
        proof {
            reveal_strlit("Frameworks");
            reveal_strlit("/Frameworks");
            assert(project@ == project_frameworks(self.opts.base_path@));
        }
        let p = string_of(&project);
        proof {
            lemma_views_push(dirs@, p);
        }
        dirs.push(p);
        if let Some(d) = shared {
            proof {
                lemma_views_push(dirs@, d);
            }
            dirs.push(d);
        }
        dirs
    }

    /// The framework imports that were not found, as messages.
    pub fn warnings(&self) -> (w: &Vec<String>)
        ensures
            string_views(w@) == self.warnings_view(),
    {
        &self.warnings
    }

    fn find_cached(&self, path: &str) -> (r: Option<usize>)
        ensures
            r matches Some(i) ==> i < self.cache@.len() && self.cache_index(path@) == Some(i as int),
            r is None ==> self.cache_index(path@) is None,
            r matches Some(i) ==> self.code_of(path@) == Some(self.cache@[i as int].code@),
            r is None ==> self.code_of(path@) is None,
    {
        let t = chars_of(path);
        let mut i: usize = 0;
        while i < self.cache.len()
            invariant
                i <= self.cache.len(),
                t@ == path@,
                index_from(self.cache@, path@, 0) == index_from(self.cache@, path@, i as int),
            decreases self.cache.len() - i,
        {
            if text_eq(&chars_of(self.cache[i].path.as_str()), &t) {
                return Some(i);
            }
            i = i + 1;
        }
        None
    }

    fn base_compile_opts(&self, source_url: &str) -> (o: CompileOptions)
        ensures
            o.defines.wf(),
            o.classes.wf(),
            o.include_debug_symbols == self.opts.include_debug_symbols,
            o.include_type_signatures == self.opts.include_type_signatures,
            o.source_url@ == source_url@,
            o.defines.entries().len() == 0,
            o.classes.entries().len() == 0,
    {
        CompileOptions {
            include_debug_symbols: self.opts.include_debug_symbols,
            include_type_signatures: self.opts.include_type_signatures,
            source_url: String::from_str(source_url),
            defines: MacroTable::new(),
            classes: ClassTable::new(),
        }
    }

    /// Starts assembling from `main_file` (relative to the base path).
    pub fn assemble(&mut self, main_file: &str) -> (step: AssembleStep)
        requires
            old(self).wf(),
        ensures
            final(self).wf(),
            final(self).options() == old(self).options(),
            step matches AssembleStep::Done(Ok(files)) ==> string_views(files@).no_duplicates(),
            // The files come in the order of the walk of the finished tree:
            // each after the files it imports, the tree's root last.
            step matches AssembleStep::Done(Ok(files)) ==> (final(self).finished_tree() matches Some(t)
                && string_views(files@) == walk(t, Set::empty())),
            step matches AssembleStep::Read(p) && p@ == normalized(joined(old(self).options().base_path@, main_file@)),
            final(self).in_progress() == seq![normalized(joined(old(self).options().base_path@, main_file@))],
            final(self).cached_paths().len() == 0,
    {
        self.cache = Vec::new();
        self.processing = Vec::new();
        self.stack = Vec::new();
        self.warnings = Vec::new();
        self.waiting = Waiting::Nothing;
        let absolute = resolve(self.opts.base_path.as_str(), main_file);
        proof {
            assert(self.in_progress() =~= Seq::<Seq<char>>::empty());
            assert(self.cached_paths() =~= Seq::<Seq<char>>::empty());
        }
        let step = self.enter(absolute, None);
        proof {
            assert(self.in_progress() =~= seq![normalized(joined(old(self).options().base_path@, main_file@))]);
        }
        step
    }

    /// Visits the file `path`: a file already read or being read becomes a
    /// leaf; another is asked for.
    fn enter(&mut self, path: String, importer: Option<String>) -> (step: AssembleStep)
        requires
            old(self).wf(),
        ensures
            final(self).wf(),
            step matches AssembleStep::Done(Ok(files)) ==> string_views(files@).no_duplicates(),
            // The files come in the order of the walk of the finished tree:
            // each after the files it imports, the tree's root last.
            step matches AssembleStep::Done(Ok(files)) ==> (final(self).finished_tree() matches Some(t)
                && string_views(files@) == walk(t, Set::empty())),
            final(self).opts == old(self).opts,
            final(self).warnings@ == old(self).warnings@,
            step matches AssembleStep::Read(p) ==> p@ == path@,
            final(self).cached_paths() == old(self).cached_paths(),
            old(self).code_of(path@) is None && !old(self).in_progress().contains(path@) ==> (step is Read
                && final(self).in_progress() == old(self).in_progress().push(path@)),
            old(self).code_of(path@) is Some || old(self).in_progress().contains(path@) ==> !(step is Read),
    {
        if self.find_cached(path.as_str()).is_some() {
            return self.child_done(TreeNode { path, cached: true, circular: false, dependencies: Vec::new() });
        }
        if holds_name(&self.processing, path.as_str()) {
            return self.child_done(TreeNode { path, cached: false, circular: true, dependencies: Vec::new() });
        }
        let p2 = path.clone();
        proof {
            lemma_views_push(self.processing@, p2);
        }
        self.processing.push(p2);
        self.waiting = Waiting::File(path.clone(), importer);
        AssembleStep::Read(path)
    }

    /// A subtree is complete: it joins the file whose import it answers,
    /// or, without one, ends the walk.
    fn child_done(&mut self, node: TreeNode) -> (step: AssembleStep)
        requires
            old(self).wf(),
        ensures
            final(self).wf(),
            step matches AssembleStep::Done(Ok(files)) ==> string_views(files@).no_duplicates(),
            // The files come in the order of the walk of the finished tree:
            // each after the files it imports, the tree's root last.
            step matches AssembleStep::Done(Ok(files)) ==> (final(self).finished_tree() matches Some(t)
                && string_views(files@) == walk(t, Set::empty())),
            final(self).opts == old(self).opts,
            final(self).warnings@ == old(self).warnings@,
            !(step is Read),
            final(self).cached_paths() == old(self).cached_paths(),
            old(self).frames() == 0 ==> step is Done,
            old(self).import_after_next() matches Some((url, is_local, importer)) ==>
                search_started(final(self).search(), final(self).awaiting_shared_dir(), step, url, is_local, importer),
    {
        let n = self.stack.len();
        if n == 0 {
            return self.finish(node);
        }
        let ghost after = old(self).import_after_next();
        let mut top = self.stack.pop().unwrap();
        top.children.push(node);
        proof {
            assert(top.deps@.len() == top.deps.len());
        }
        top.next = if top.next < usize::MAX { top.next + 1 } else { top.next };
        self.stack.push(top);
        proof {
            assert(self.stack@.last() == top);
            assert(self.next_import() == after);
        }
        self.continue_top()
    }

    /// Follows the next import of the innermost file, closing the files
    /// whose imports are all followed.
    fn continue_top(&mut self) -> (step: AssembleStep)
        requires
            old(self).wf(),
        ensures
            final(self).wf(),
            step matches AssembleStep::Done(Ok(files)) ==> string_views(files@).no_duplicates(),
            // The files come in the order of the walk of the finished tree:
            // each after the files it imports, the tree's root last.
            step matches AssembleStep::Done(Ok(files)) ==> (final(self).finished_tree() matches Some(t)
                && string_views(files@) == walk(t, Set::empty())),
            final(self).opts == old(self).opts,
            final(self).warnings@ == old(self).warnings@,
            !(step is Read),
            final(self).cached_paths() == old(self).cached_paths(),
            old(self).frames() == 0 ==> step is Done,
            old(self).next_import() matches Some((url, is_local, importer)) ==>
                search_started(final(self).search(), final(self).awaiting_shared_dir(), step, url, is_local, importer),
            old(self).next_import() is Some ==> final(self).cache == old(self).cache,
            old(self).frames() == 1 && old(self).next_import() is None ==> step is Done,
    {
        let ghost first = true;
        loop
            invariant
                self.wf(),
                self.opts == old(self).opts,
                self.warnings@ == old(self).warnings@,
                self.cached_paths() == old(self).cached_paths(),
                first ==> *self == *old(self),
                !first ==> old(self).next_import() is None && old(self).frames() >= 2,
            decreases self.stack.len(),
        {
            let n = self.stack.len();
            if n == 0 {
                return AssembleStep::Done(Err(String::from_str("*** Nothing to assemble.")));
            }
            let next = self.stack[n - 1].next;
            if next < self.stack[n - 1].deps.len() {
                let url = self.stack[n - 1].deps[next].0.clone();
                let is_local = self.stack[n - 1].deps[next].1;
                let importer = self.stack[n - 1].path.clone();
                return self.start_search(url, is_local, importer);
            }
            let frame = self.stack.pop().unwrap();
            self.processing = without_name(&self.processing, frame.path.as_str());
            let node = TreeNode { path: frame.path, cached: false, circular: false, dependencies: frame.children };
            if self.stack.len() == 0 {
                return self.finish(node);
            }
            let mut parent = self.stack.pop().unwrap();
            parent.children.push(node);
            parent.next = if parent.next < usize::MAX { parent.next + 1 } else { parent.next };
            self.stack.push(parent);
            proof {
                first = false;
            }
        }
    }

    /// Starts looking for the file an import names.
    fn start_search(&mut self, url: String, is_local: bool, importer: String) -> (step: AssembleStep)
        requires
            old(self).wf(),
        ensures
            final(self).wf(),
            !(step is Done),
            final(self).opts == old(self).opts,
            final(self).warnings@ == old(self).warnings@,
            !(step is Read),
            final(self).cached_paths() == old(self).cached_paths(),
            final(self).cache == old(self).cache,
            search_started(final(self).search(), final(self).awaiting_shared_dir(), step, url@, is_local, importer@),
    {
        if is_local {
            let dir = parent_dir(importer.as_str());
            let candidate = resolve(dir.as_str(), url.as_str());
            let mut dirs: Vec<String> = Vec::new();
            dirs.push(dir);
            proof {
                lemma_views_push(Seq::<String>::empty(), dirs@[0]);
                assert(dirs@ == Seq::<String>::empty().push(dirs@[0]));
                assert(string_views(Seq::<String>::empty()) =~= Seq::<Seq<char>>::empty());
            }
            self.waiting = Waiting::Path(Search { url, is_local, importer, dirs, dir: 0, candidate: candidate.clone(), tried_ext: false });
            AssembleStep::Exists(candidate)
        } else {
            self.waiting = Waiting::Shared(Search {
                url,
                is_local,
                importer,
                dirs: Vec::new(),
                dir: 0,
                candidate: String::new(),
                tried_ext: false,
            });
            AssembleStep::SharedFrameworks
        }
    }

    /// The candidate did not exist: tries the next one, or gives up.
    fn next_candidate(&mut self, search: Search) -> (step: AssembleStep)
        requires
            old(self).wf(),
            search_wf(search),
        ensures
            final(self).wf(),
            step matches AssembleStep::Done(Ok(files)) ==> string_views(files@).no_duplicates(),
            // The files come in the order of the walk of the finished tree:
            // each after the files it imports, the tree's root last.
            step matches AssembleStep::Done(Ok(files)) ==> (final(self).finished_tree() matches Some(t)
                && string_views(files@) == walk(t, Set::empty())),
            final(self).opts == old(self).opts,
            after_not_found(
                SearchView {
                    url: search.url@,
                    importer: search.importer@,
                    is_local: search.is_local,
                    dirs: string_views(search.dirs@),
                    dir: search.dir as int,
                    tried_ext: search.tried_ext,
                },
                final(self).search(),
                step,
                old(self).warnings_view(),
                final(self).warnings_view(),
            ),
    {
        let mut search = search;
        if !search.tried_ext && !has_j_extension(search.url.as_str()) {
            search.tried_ext = true;
            search.candidate = with_j_extension(search.candidate.as_str());
            let c = search.candidate.clone();
            self.waiting = Waiting::Path(search);
            return AssembleStep::Exists(c);
        }
        if search.is_local {
            let mut m = lit("Local import \"");
            push_text(&mut m, &chars_of(search.url.as_str()));
            push_str(&mut m, "\" not found (imported from \"");
            push_text(&mut m, &chars_of(search.importer.as_str()));
            push_str(&mut m, "\")");
            return AssembleStep::Done(Err(string_of(&m)));
        }
        search.dir = if search.dir < usize::MAX { search.dir + 1 } else { search.dir };
        if search.dir < search.dirs.len() {
            search.candidate = resolve(search.dirs[search.dir].as_str(), search.url.as_str());
            search.tried_ext = false;
            let c = search.candidate.clone();
            self.waiting = Waiting::Path(search);
            return AssembleStep::Exists(c);
        }
        let mut m = lit("Framework import \"");
        push_text(&mut m, &chars_of(search.url.as_str()));
        push_str(&mut m, "\" not found in framework paths (imported from \"");
        push_text(&mut m, &chars_of(search.importer.as_str()));
        push_str(&mut m, "\")");
        let w = string_of(&m);
        proof {
            lemma_views_push(self.warnings@, w);
        }
        self.warnings.push(w);
        let n = self.stack.len();
        if n > 0 {
            let mut top = self.stack.pop().unwrap();
            top.next = if top.next < usize::MAX { top.next + 1 } else { top.next };
            self.stack.push(top);
        }
        self.continue_top()
    }

    /// Takes the caller's answer to the last step and goes on.
    pub fn answer(&mut self, reply: AssembleReply) -> (step: AssembleStep)
        requires
            old(self).wf(),
        ensures
            final(self).wf(),
            step matches AssembleStep::Done(Ok(files)) ==> string_views(files@).no_duplicates(),
            // The files come in the order of the walk of the finished tree:
            // each after the files it imports, the tree's root last.
            step matches AssembleStep::Done(Ok(files)) ==> (final(self).finished_tree() matches Some(t)
                && string_views(files@) == walk(t, Set::empty())),
            final(self).options() == old(self).options(),
            old(self).awaiting_shared_dir() matches Some((url, importer)) ==> (reply matches AssembleReply::SharedFrameworks(shared) ==> {
                let dirs = framework_dirs(old(self).options(), shared);
                &&& final(self).search() == Some(SearchView { url, importer, is_local: false, dirs, dir: 0, tried_ext: false })
                &&& step matches AssembleStep::Exists(c) && c@ == candidate_path(dirs[0], url, false)
            }),
            old(self).search() matches Some(v) ==> (reply matches AssembleReply::Exists(false)
                ==> after_not_found(v, final(self).search(), step, old(self).warnings_view(), final(self).warnings_view())),
            reply matches AssembleReply::Exists(true) ==> (old(self).search() is Some
                ==> (step matches AssembleStep::Read(p) ==> p@ == old(self).search_candidate())),
            // The file found is read unless it was read already or is being read.
            reply matches AssembleReply::Exists(true) ==> (old(self).search() is Some
                ==> (old(self).code_of(old(self).search_candidate()) is None
                    && !old(self).in_progress().contains(old(self).search_candidate()) ==> step is Read)),
            // The text of the file asked for is compiled: it fails with the
            // compiler's message, or the file joins those read and its imports
            // are followed.
            old(self).awaited_file() matches Some((path, importer)) ==> (reply matches AssembleReply::Text(_) ==> (
                !(step is Read) && (
                (step matches AssembleStep::Done(Err(e)) && exists|m: Seq<char>| e@ == #[trigger] compile_failure(path, m)
                    && final(self).cached_paths() == old(self).cached_paths())
                || final(self).cached_paths() == old(self).cached_paths().push(path)))),
            // A file of plain code and imports is kept, and its first import
            // is looked for; until then its code is the one compiled.
            old(self).awaited_file() matches Some((path, importer)) ==> (reply matches AssembleReply::Text(src) ==>
                match items_from(tokenize(script_text(src@).push('\n')), 0) {
                    Some((c, d)) => final(self).cached_paths() == old(self).cached_paths().push(path)
                        && (old(self).code_of(path) is None && d.len() > 0 ==> final(self).code_of(path) == Some(c))
                        && (d.len() > 0 ==> search_started(final(self).search(), final(self).awaiting_shared_dir(), step,
                            d[0].0, d[0].1, path)),
                    None => true,
                }),
            // A file that cannot be read ends assembling.
            old(self).awaited_file() matches Some((path, importer)) ==> (reply matches AssembleReply::ReadFailed(reason) ==>
                step matches AssembleStep::Done(Err(e)) && e@ == read_failure(path, importer, reason@)),
    {
        let mut waiting = Waiting::Nothing;
        std::mem::swap(&mut waiting, &mut self.waiting);
        match waiting {
            Waiting::File(path, importer) => match reply {
                AssembleReply::Text(source) => self.file_read(path, source),
                AssembleReply::ReadFailed(reason) => {
                    let mut m = lit("Failed to read file \"");
                    push_text(&mut m, &chars_of(path.as_str()));
                    push_str(&mut m, "\"");
                    if let Some(imp) = importer {
                        push_str(&mut m, " (imported from \"");
                        push_text(&mut m, &chars_of(imp.as_str()));
                        push_str(&mut m, "\")");
                    }
                    push_str(&mut m, ": ");
                    push_text(&mut m, &chars_of(reason.as_str()));
                    proof {
                        reveal_strlit("Failed to read file \"");
                        reveal_strlit("\"");
                        reveal_strlit(" (imported from \"");
                        reveal_strlit("\")");
                        reveal_strlit(": ");
                    }
                    AssembleStep::Done(Err(string_of(&m)))
                },
                _ => AssembleStep::Done(Err(String::from_str("*** Expected the text of a file."))),
            },
            Waiting::Path(search) => match reply {
                AssembleReply::Exists(found) => {
                    if found {
                        let path = search.candidate;
                        self.enter(path, Some(search.importer))
                    } else {
                        self.next_candidate(search)
                    }
                },
                _ => AssembleStep::Done(Err(String::from_str("*** Expected whether a path exists."))),
            },
            Waiting::Shared(search) => match reply {
                AssembleReply::SharedFrameworks(shared) => {
                    let mut search = search;
                    let dirs = self.framework_search_dirs(shared);
                    proof {
                        assert(string_views(dirs@)[0] == dirs@[0]@);
                    }
                    search.candidate = resolve(dirs[0].as_str(), search.url.as_str());
                    search.dirs = dirs;
                    search.dir = 0;
                    search.tried_ext = false;
                    let c = search.candidate.clone();
                    self.waiting = Waiting::Path(search);
                    AssembleStep::Exists(c)
                },
                _ => AssembleStep::Done(Err(String::from_str("*** Expected the shared frameworks directory."))),
            },
            Waiting::Nothing => AssembleStep::Done(Err(String::from_str("*** Nothing was asked."))),
        }
    }

    /// A file's text has arrived: it is compiled on its own and its imports
    /// are followed.
    fn file_read(&mut self, path: String, source: String) -> (step: AssembleStep)
        requires
            old(self).wf(),
        ensures
            final(self).wf(),
            step matches AssembleStep::Done(Ok(files)) ==> string_views(files@).no_duplicates(),
            // The files come in the order of the walk of the finished tree:
            // each after the files it imports, the tree's root last.
            step matches AssembleStep::Done(Ok(files)) ==> (final(self).finished_tree() matches Some(t)
                && string_views(files@) == walk(t, Set::empty())),
            final(self).opts == old(self).opts,
            final(self).warnings@ == old(self).warnings@,
            !(step is Read),
            (step matches AssembleStep::Done(Err(e)) && exists|m: Seq<char>| e@ == #[trigger] compile_failure(path@, m)
                && final(self).cached_paths() == old(self).cached_paths())
                || final(self).cached_paths() == old(self).cached_paths().push(path@),
            // A file of plain code and imports is kept, and its first import
            // is looked for; until then its code is the one compiled.
            match items_from(tokenize(script_text(source@).push('\n')), 0) {
                Some((c, d)) => final(self).cached_paths() == old(self).cached_paths().push(path@)
                    && (old(self).code_of(path@) is None && d.len() > 0 ==> final(self).code_of(path@) == Some(c))
                    && (d.len() > 0 ==> search_started(final(self).search(), final(self).awaiting_shared_dir(), step,
                        d[0].0, d[0].1, path@)),
                None => true,
            },
    {
        let copts = self.base_compile_opts(path.as_str());
        match compile(source.as_str(), &copts) {
            Err(e) => {
                let msg = message("Failed to compile \"", path.as_str(), &format_tail(e.as_str()));
                proof {
                    reveal_strlit("Failed to compile \"");
                    assert(msg@ == compile_failure(path@, e@));
                }
                AssembleStep::Done(Err(msg))
            },
            Ok(compiled) => {
                let mut deps: Vec<(String, bool)> = Vec::new();
                let mut i: usize = 0;
                while i < compiled.dependencies.len()
                    invariant
                        i <= compiled.dependencies.len(),
                        deps@.len() == i,
                        forall|k: int| 0 <= k < i ==> (#[trigger] deps@[k]).0@ == compiled.dependencies@[k].url@
                            && deps@[k].1 == compiled.dependencies@[k].is_local,
                    decreases compiled.dependencies.len() - i,
                {
                    deps.push((compiled.dependencies[i].url.clone(), compiled.dependencies[i].is_local));
                    i = i + 1;
                }
                let ghost before = self.cache@;
                let ghost code = compiled.code@;
                let entry = CacheEntry {
                    path: path.clone(),
                    source,
                    code: compiled.code,
                    defines: compiled.defines,
                    classes: compiled.classes,
                };
                proof {
                    if index_from(before, path@, 0) is None {
                        lemma_index_from_push(before, entry, path@, 0);
                    }
                }
                self.cache.push(entry);
                proof {
                    assert(self.cached_paths() =~= old(self).cached_paths().push(path@));
                }
                self.stack.push(Frame { path, deps, next: 0, children: Vec::new() });
                proof {
                    if deps@.len() > 0 {
                        assert(self.next_import() == Some((deps@[0].0@, deps@[0].1, self.stack@.last().path@)));
                    }
                }
                self.continue_top()
            },
        }
    }

    /// The walk is over: the files are ordered and compiled again, each
    /// with the macros and classes of the files before it.
    fn finish(&mut self, root: TreeNode) -> (step: AssembleStep)
        requires
            old(self).wf(),
        ensures
            final(self).wf(),
            step matches AssembleStep::Done(Ok(files)) ==> string_views(files@).no_duplicates(),
            // The files come in the order of the walk of the finished tree:
            // each after the files it imports, the tree's root last.
            step matches AssembleStep::Done(Ok(files)) ==> (final(self).finished_tree() matches Some(t)
                && string_views(files@) == walk(t, Set::empty())),
            final(self).opts == old(self).opts,
            final(self).warnings@ == old(self).warnings@,
            !(step is Read),
            step is Done,
            step matches AssembleStep::Done(Ok(files)) ==> (!root.cached && !root.circular
                ==> files@.len() > 0 && files@.last()@ == root.path@),
            // The files are those of the walk of the tree, in its order.
            step matches AssembleStep::Done(Ok(files)) ==> string_views(files@) == walk(root, Set::empty()),
            step matches AssembleStep::Done(Err(e)) ==> exists|f: Seq<char>, m: Seq<char>| e@ == #[trigger] compile_failure(f, m),
            final(self).cached_paths() == old(self).cached_paths(),
    {
        let ghost finished = root;
        let files = flatten_tree(&root);
        let mut acc_defines = self.opts.defines.copy();
        let mut acc_classes = self.opts.classes.copy();
        let mut f: usize = 0;
        while f < files.len()
            invariant
                self.wf(),
                self.opts == old(self).opts,
                self.warnings@ == old(self).warnings@,
                self.cached_paths() == old(self).cached_paths(),
                acc_defines.wf(),
                acc_classes.wf(),
                f <= files.len(),
            decreases files.len() - f,
        {
            if let Some(c) = self.find_cached(files[f].as_str()) {
                let mut copts = self.base_compile_opts(files[f].as_str());
                copts.defines = acc_defines.copy();
                copts.classes = acc_classes.copy();
                match compile(self.cache[c].source.as_str(), &copts) {
                    Err(e) => {
                        let msg = message("Failed to compile \"", files[f].as_str(), &format_tail(e.as_str()));
                        proof {
                            reveal_strlit("Failed to compile \"");
                            assert(msg@ == compile_failure(files@[f as int]@, e@));
                        }
                        return AssembleStep::Done(Err(msg));
                    },
                    Ok(recompiled) => {
                        let mut k: usize = 0;
                        while k < recompiled.defines.len()
                            invariant
                                acc_defines.wf(),
                                recompiled.defines.wf(),
                                k <= recompiled.defines.entries().len(),
                            decreases recompiled.defines.entries().len() - k,
                        {
                            let (name, value) = recompiled.defines.entry(k);
                            acc_defines.insert(name.clone(), value.clone());
                            k = k + 1;
                        }
                        let mut k: usize = 0;
                        while k < recompiled.classes.len()
                            invariant
                                acc_classes.wf(),
                                recompiled.classes.wf(),
                                k <= recompiled.classes.entries().len(),
                            decreases recompiled.classes.entries().len() - k,
                        {
                            let (name, info) = recompiled.classes.entry(k);
                            acc_classes.insert(name.clone(), info.clone());
                            k = k + 1;
                        }
                        let ghost before = self.cache@;
                        let old_entry = self.cache.remove(c);
                        self.cache.insert(c, CacheEntry {
                            path: old_entry.path,
                            source: old_entry.source,
                            code: recompiled.code,
                            defines: recompiled.defines,
                            classes: recompiled.classes,
                        });
                        proof {
                            assert(self.cache@.map_values(|e: CacheEntry| e.path@) =~= before.map_values(|e: CacheEntry| e.path@));
                        }
                    },
                }
            }
            f = f + 1;
        }
        let mut order: Vec<String> = Vec::new();
        let mut k: usize = 0;
        while k < files.len()
            invariant
                k <= files.len(),
            decreases files.len() - k,
        {
            order.push(files[k].clone());
            k = k + 1;
        }
        self.order = order;
        self.tree = Ghost(Some(finished));
        AssembleStep::Done(Ok(files))
    }
}

/// `": "` and then the compiler's message, closing the file name's quote.
fn format_tail(e: &str) -> (s: String)
    ensures
        s@ == "\": "@ + e@,
{
    let mut m = lit("\": ");
    push_text(&mut m, &chars_of(e));
    string_of(&m)
}

/// Whether the options ask for methods to be shaken out.
pub open spec fn shaking(options: &BundleOptions) -> bool {
    options.tree_shake && !(options.tree_shake_mode matches Some(m) && m@ == "off"@)
}

/// The selectors that shaking the compiled files `es` from `main` keeps:
/// those `main` reaches through sends, those always kept and those of the
/// whitelist, and with `keep_kvc` the accessors of the keys used through
/// key-value coding.
pub open spec fn shaken_selectors(es: Seq<CompiledEntry>, whitelist: Seq<String>, keep_kvc: bool) -> Set<Seq<char>> {
    sent_from_keys(keys_in_entries(es, es.len() as int), es, "main"@)
        + kept_selectors(whitelist)
        + (if keep_kvc { kvc_accessor_names(kvc_in_entries(es, es.len() as int).to_set()) } else { Set::empty() })
}

impl Assembler {
    /// Joins the assembled `files` into one bundle: each file's code between
    /// region comments, pruned of unreachable methods when tree shaking is
    /// asked for, then `window.onload = main;` and minifying if asked for.
    pub fn bundle(&mut self, files: &Vec<String>, options: &BundleOptions) -> (r: BundleResult)
        requires
            old(self).wf(),
        ensures
            final(self).wf(),
            r.file_count == files@.len(),
            string_views(r.files@) == string_views(files@),
            r.total_size == encode_utf8(r.code@).len() as usize,
            r.tree_shaking is Some <==> shaking(options),
            !shaking(options) ==> r.code@ == {
                let text = lines_joined(old(self).regions(string_views(files@)))
                    + (if options.append_window_onload { "window.onload = main;\n"@ } else { Seq::empty() });
                if options.minify { minified(text) } else { text }
            },
            shaking(options) ==> ({
                let es = old(self).cached_entries(string_views(files@));
                let reach = shaken_selectors(es, options.tree_shake_whitelist@, options.tree_shake_preserve_kvc);
                let whole = dynamic_in_entries(es, es.len() as int);
                let text = lines_joined(old(self).shaken_regions(string_views(files@), reach, whole))
                    + (if options.append_window_onload { "window.onload = main;\n"@ } else { Seq::empty() });
                &&& r.code@ == (if options.minify { minified(text) } else { text })
                &&& r.tree_shaking matches Some(st) && st.total_methods == selectors_in_entries(es, es.len() as int).len()
                    && st.reachable_methods == count_in(selectors_in_entries(es, es.len() as int), reach)
                    && st.dynamic_classes == whole.len()
                    && st.kvc_keys == kvc_in_entries(es, es.len() as int).to_set().len()
            }),
            *final(self) == *old(self),
    {
        let off = match &options.tree_shake_mode {
            Some(m) => text_is(&chars_of(m.as_str()), "off"),
            None => false,
        };
        let tree_shake_enabled = options.tree_shake && !off;
        proof {
            reveal_strlit("off");
        }
        assert(tree_shake_enabled == shaking(options));
        let ghost names = string_views(files@);
        let ghost es = self.cached_entries(names);
        let ghost reach = shaken_selectors(es, options.tree_shake_whitelist@, options.tree_shake_preserve_kvc);
        let ghost whole = dynamic_in_entries(es, es.len() as int);
        let mut analysis: Option<AnalysisResult> = None;
        if tree_shake_enabled {
            let mut entries: Vec<CompiledEntry> = Vec::new();
            let mut f: usize = 0;
            while f < files.len()
                invariant
                    f <= files.len(),
                    names == string_views(files@),
                    entries@ == self.cached_entries(names.take(f as int)),
                decreases files.len() - f,
            {
                proof {
                    assert(names.take(f + 1).drop_last() =~= names.take(f as int));
                    assert(names.take(f + 1).last() == files@[f as int]@);
                }
                if let Some(c) = self.find_cached(files[f].as_str()) {
                    let entry = CompiledEntry {
                        path: self.cache[c].path.clone(),
                        source: self.cache[c].source.clone(),
                        code: self.cache[c].code.clone(),
                    };
                    proof {
                        assert(self.entry_of(files@[f as int]@) == Some(entry));
                    }
                    entries.push(entry);
                }
                f = f + 1;
            }
            proof {
                assert(names.take(f as int) =~= names);
            }
            let whitelist = options.tree_shake_whitelist.clone();
            proof {
                assert(whitelist@ =~= options.tree_shake_whitelist@) by {
                    assert forall|i: int| 0 <= i < whitelist@.len() implies whitelist@[i] == options.tree_shake_whitelist@[i] by {
                        assert(cloned::<String>(options.tree_shake_whitelist@[i], whitelist@[i]));
                    }
                }
            }
            let aopts = AnalyzerOptions {
                mode: match &options.tree_shake_mode {
                    Some(m) => m.clone(),
                    None => String::from_str("safe"),
                },
                preserve_accessors: options.tree_shake_preserve_accessors,
                preserve_kvc: options.tree_shake_preserve_kvc,
                whitelist,
                verbose: options.tree_shake_verbose,
            };
            let mut analyzer = MethodReachabilityAnalyzer::new(entries.as_slice(), aopts);
            let a = analyzer.analyze("main");
            proof {
                let ms = analyzer.methods_found();
                assert(method_keys(ms) =~= keys_in_entries(es, es.len() as int));
                lemma_sent_from_keys(ms, es, "main"@);
                assert(a.reachable_selectors@ =~= reach);
                assert(a.dynamic_classes@ =~= whole);
                assert(analyzer.method_selectors() =~= selectors_in_entries(es, es.len() as int));
                assert(analyzer.kvc_keys() =~= kvc_in_entries(es, es.len() as int).to_set());
            }
            analysis = Some(a);
        }
        let mut code: Vec<char> = Vec::new();
        let mut first = true;
        let mut f: usize = 0;
        while f < files.len()
            invariant
                self.wf(),
                *self == *old(self),
                f <= files.len(),
                names == string_views(files@),
                analysis is Some <==> tree_shake_enabled,
                analysis matches Some(a) ==> a.reachable_selectors@ == reach && a.dynamic_classes@ == whole
                    && a.stats.total_methods == selectors_in_entries(es, es.len() as int).len()
                    && a.stats.reachable_methods == count_in(selectors_in_entries(es, es.len() as int), reach)
                    && a.stats.dynamic_classes == whole.len()
                    && a.stats.kvc_keys == kvc_in_entries(es, es.len() as int).to_set().len(),
                es == self.cached_entries(names),
                reach == shaken_selectors(es, options.tree_shake_whitelist@, options.tree_shake_preserve_kvc),
                whole == dynamic_in_entries(es, es.len() as int),
                first <==> self.regions(names.take(f as int)).len() == 0,
                self.shaken_regions(names.take(f as int), reach, whole).len() == self.regions(names.take(f as int)).len(),
                !tree_shake_enabled ==> code@ == lines_joined(self.regions(names.take(f as int))),
                tree_shake_enabled ==> code@ == lines_joined(self.shaken_regions(names.take(f as int), reach, whole)),
            decreases files.len() - f,
        {
            proof {
                assert(names.take(f + 1).drop_last() =~= names.take(f as int));
                assert(names.take(f + 1).last() == files@[f as int]@);
            }
            let ghost before = code@;
            if let Some(c) = self.find_cached(files[f].as_str()) {
                let path = chars_of(files[f].as_str());
                let mut body = chars_of(self.cache[c].code.as_str());
                if let Some(a) = &analysis {
                    let pruned = prune_unreachable_methods(&self.cls, self.cache[c].code.as_str(), a);
                    body = chars_of(pruned.as_str());
                }
                if !first {
                    code.push('\n');
                }
                first = false;
                push_str(&mut code, "// #region ");
                push_text(&mut code, &path);
                code.push('\n');
                push_str(&mut code, "// File: ");
                push_text(&mut code, &path);
                code.push('\n');
                push_text(&mut code, &body);
                code.push('\n');
                push_str(&mut code, "// #endregion");
                code.push('\n');
                proof {
                    let rs = self.regions(names.take(f as int));
                    let piece = region(files@[f as int]@, self.cache@[c as int].code@);
                    assert(self.regions(names.take(f + 1)) == rs.push(piece));
                    let ss = self.shaken_regions(names.take(f as int), reach, whole);
                    let spiece = region(files@[f as int]@, pruned_code(self.cache@[c as int].code@, reach, whole));
                    assert(self.shaken_regions(names.take(f + 1), reach, whole) == ss.push(spiece));
                    if !tree_shake_enabled {
                        assert(body@ == self.cache@[c as int].code@);
                        if rs.len() == 0 {
                            assert(code@ =~= piece);
                            assert(rs.push(piece) =~= seq![piece]);
                        } else {
                            assert(code@ =~= before + seq!['\n'] + piece);
                            assert(rs.push(piece).drop_last() =~= rs);
                        }
                    } else {
                        assert(body@ == pruned_code(self.cache@[c as int].code@, reach, whole));
                        if ss.len() == 0 {
                            assert(code@ =~= spiece);
                            assert(ss.push(spiece) =~= seq![spiece]);
                        } else {
                            assert(code@ =~= before + seq!['\n'] + spiece);
                            assert(ss.push(spiece).drop_last() =~= ss);
                        }
                    }
                }
            } else {
                proof {
                    assert(self.regions(names.take(f + 1)) =~= self.regions(names.take(f as int)));
                    assert(self.shaken_regions(names.take(f + 1), reach, whole) =~= self.shaken_regions(names.take(f as int), reach, whole));
                }
            }
            f = f + 1;
        }
        proof {
            assert(names.take(f as int) =~= names);
        }
        if options.append_window_onload {
            push_str(&mut code, "window.onload = main;\n");
        }
        let mut text = string_of(&code);
        if options.minify {
            text = minify(text.as_str());
        }
        let total_size = text.as_str().len();
        let mut out_files: Vec<String> = Vec::new();
        let mut k: usize = 0;
        while k < files.len()
            invariant
                k <= files.len(),
                string_views(out_files@) == string_views(files@).take(k as int),
                out_files@.len() == k,
            decreases files.len() - k,
        {
            let ghost before = out_files@;
            out_files.push(files[k].clone());
            proof {
                assert(string_views(out_files@) =~= string_views(before).push(files@[k as int]@));
                assert(string_views(files@).take(k + 1) =~= string_views(files@).take(k as int).push(files@[k as int]@));
            }
            k = k + 1;
        }
        proof {
            assert(string_views(files@).take(files.len() as int) =~= string_views(files@));
        }
        let tree_shaking = match analysis {
            Some(a) => Some(a.stats),
            None => None,
        };
        BundleResult { code: text, files: out_files, file_count: files.len(), total_size, tree_shaking }
    }
}

} // verus!
