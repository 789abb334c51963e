//! Paths as text: joining and normalising `/`-separated paths the way the
//! standard library's path components treat them, without touching the
//! file system.
use vstd::prelude::*;
use crate::lexer::texts_view;
use crate::text::{chars_of, push_text, string_of};

verus! {

/// The segments of `p` between `/` separators, empty ones included.
pub open spec fn segments(p: Seq<char>) -> Seq<Seq<char>>
    decreases p.len(),
{
    if p.len() == 0 {
        seq![Seq::empty()]
    } else {
        let s = segments(p.drop_last());
        if p.last() == '/' {
            s.push(Seq::empty())
        } else {
            s.update(s.len() - 1, s.last().push(p.last()))
        }
    }
}

/// The named components of `p`: its segments but the empty ones and `.`.
pub open spec fn components(p: Seq<char>) -> Seq<Seq<char>> {
    segments(p).filter(|s: Seq<char>| s.len() > 0 && s != seq!['.'])
}

/// The components left once each `..` has removed the component before it
/// (a `..` with nothing before it is dropped).
pub open spec fn resolve_parents(cs: Seq<Seq<char>>) -> Seq<Seq<char>>
    decreases cs.len(),
{
    if cs.len() == 0 {
        Seq::empty()
    } else {
        let r = resolve_parents(cs.drop_last());
        if cs.last() == seq!['.', '.'] {
            if r.len() > 0 {
                r.drop_last()
            } else {
                r
            }
        } else {
            r.push(cs.last())
        }
    }
}

/// The texts of `cs` separated by `/`.
pub open spec fn join_slash(cs: Seq<Seq<char>>) -> Seq<char>
    decreases cs.len(),
{
    if cs.len() == 0 {
        Seq::empty()
    } else if cs.len() == 1 {
        cs[0]
    } else {
        join_slash(cs.drop_last()) + seq!['/'] + cs.last()
    }
}

/// `p` with `.` and `..` components resolved and repeated separators
/// collapsed; an absolute path stays absolute.
pub open spec fn normalized(p: Seq<char>) -> Seq<char> {
    let body = join_slash(resolve_parents(components(p)));
    if p.len() > 0 && p[0] == '/' {
        seq!['/'] + body
    } else {
        body
    }
}

proof fn lemma_segments_nonempty(p: Seq<char>)
    ensures
        segments(p).len() > 0,
    decreases p.len(),
{
    if p.len() > 0 {
        lemma_segments_nonempty(p.drop_last());
    }
}

/// The named components of `p`, computed.
fn component_list(p: &Vec<char>) -> (cs: Vec<Vec<char>>)
    ensures
        texts_view(cs@) == components(p@),
{
    let mut done: Vec<Vec<char>> = Vec::new();
    let mut cur: Vec<char> = Vec::new();
    let ghost mut segs: Seq<Seq<char>> = seq![Seq::empty()];
    let mut i: usize = 0;
    while i < p.len()
        invariant
            i <= p.len(),
            segs == segments(p@.take(i as int)),
            segs.len() > 0,
            cur@ == segs.last(),
            texts_view(done@) == segs.drop_last().filter(|s: Seq<char>| s.len() > 0 && s != seq!['.']),
        decreases p.len() - i,
    {
        let c = p[i];
        proof {
            assert(p@.take(i + 1).drop_last() == p@.take(i as int));
            lemma_segments_nonempty(p@.take(i as int));
        }
        if c == '/' {
            let keep = cur.len() > 0 && !(cur.len() == 1 && cur[0] == '.');
            proof {
                assert(keep == (cur@.len() > 0 && cur@ != seq!['.'])) by {
                    if cur@.len() == 1 && cur@[0] == '.' {
                        assert(cur@ =~= seq!['.']);
                    }
                }
                let old_segs = segs;
                segs = segs.push(Seq::empty());
                assert(segs.drop_last() =~= old_segs);
                assert(old_segs =~= old_segs.drop_last().push(old_segs.last()));
                old_segs.drop_last().lemma_filter_push(old_segs.last(), |s: Seq<char>| s.len() > 0 && s != seq!['.']);
            }
            if keep {
                let ghost before = done@;
                done.push(cur);
                proof {
                    assert(texts_view(done@) =~= texts_view(before).push(segs.drop_last().last()));
                }
            }
            cur = Vec::new();
        } else {
            cur.push(c);
            proof {
                let old_segs = segs;
                segs = segs.update(segs.len() - 1, segs.last().push(c));
                assert(segs.drop_last() =~= old_segs.drop_last());
            }
        }
        i = i + 1;
    }
    proof {
        assert(p@.take(p.len() as int) =~= p@);
        assert(segs =~= segs.drop_last().push(segs.last()));
        segs.drop_last().lemma_filter_push(segs.last(), |s: Seq<char>| s.len() > 0 && s != seq!['.']);
    }
    let keep = cur.len() > 0 && !(cur.len() == 1 && cur[0] == '.');
    proof {
        assert(keep == (cur@.len() > 0 && cur@ != seq!['.'])) by {
            if cur@.len() == 1 && cur@[0] == '.' {
                assert(cur@ =~= seq!['.']);
            }
        }
    }
    if keep {
        let ghost before = done@;
        done.push(cur);
        proof {
            assert(texts_view(done@) =~= texts_view(before).push(segs.last()));
        }
    }
    done
}

/// The components left once `..` components are resolved, computed.
fn resolve_parent_list(cs: &Vec<Vec<char>>) -> (r: Vec<Vec<char>>)
    ensures
        texts_view(r@) == resolve_parents(texts_view(cs@)),
{
    let mut r: Vec<Vec<char>> = Vec::new();
    let mut i: usize = 0;
    while i < cs.len()
        invariant
            i <= cs.len(),
            texts_view(r@) == resolve_parents(texts_view(cs@).take(i as int)),
        decreases cs.len() - i,
    {
        let c = &cs[i];
        proof {
            assert(texts_view(cs@).take(i + 1).drop_last() =~= texts_view(cs@).take(i as int));
            assert(texts_view(cs@).take(i + 1).last() == c@);
        }
        let is_parent = c.len() == 2 && c[0] == '.' && c[1] == '.';
        proof {
            assert(is_parent == (c@ == seq!['.', '.'])) by {
                if c@.len() == 2 && c@[0] == '.' && c@[1] == '.' {
                    assert(c@ =~= seq!['.', '.']);
                }
            }
        }
        if is_parent {
            if r.len() > 0 {
                let ghost before = r@;
                r.pop();
                proof {
                    assert(texts_view(r@) =~= texts_view(before).drop_last());
                }
            }
        } else {
            let ghost before = r@;
            r.push(crate::text::copy_text(c));
            proof {
                assert(texts_view(r@) =~= texts_view(before).push(c@));
            }
        }
        i = i + 1;
    }
    proof {
        assert(texts_view(cs@).take(cs.len() as int) =~= texts_view(cs@));
    }
    r
}

/// The texts of `cs` separated by `/`, computed.
fn join_with_slash(cs: &Vec<Vec<char>>) -> (r: Vec<char>)
    ensures
        r@ == join_slash(texts_view(cs@)),
{
    let mut r: Vec<char> = Vec::new();
    let mut i: usize = 0;
    while i < cs.len()
        invariant
            i <= cs.len(),
            r@ == join_slash(texts_view(cs@).take(i as int)),
        decreases cs.len() - i,
    {
        proof {
            assert(texts_view(cs@).take(i + 1).drop_last() =~= texts_view(cs@).take(i as int));
            assert(texts_view(cs@).take(i + 1).last() == cs@[i as int]@);
        }
        if i > 0 {
            r.push('/');
        } else {
            proof {
                assert(texts_view(cs@).take(1)[0] == cs@[0]@);
                assert(r@ == Seq::<char>::empty());
            }
        }
        push_text(&mut r, &cs[i]);
        proof {
            if i == 0 {
                assert(r@ =~= cs@[0]@);
            }
        }
        i = i + 1;
    }
    proof {
        assert(texts_view(cs@).take(cs.len() as int) =~= texts_view(cs@));
    }
    r
}

/// `p` normalised: `.` and `..` resolved, separators collapsed.
pub fn normalize(p: &str) -> (r: String)
    ensures
        r@ == normalized(p@),
{
    let cs = chars_of(p);
    let comps = component_list(&cs);
    let kept = resolve_parent_list(&comps);
    let body = join_with_slash(&kept);
    if cs.len() > 0 && cs[0] == '/' {
        let mut t: Vec<char> = Vec::new();
        t.push('/');
        push_text(&mut t, &body);
        proof {
            assert(t@ =~= seq!['/'] + body@);
        }
        string_of(&t)
    } else {
        string_of(&body)
    }
}

/// A component that normalising leaves as it is: named, not `.` or `..`,
/// without a separator.
pub open spec fn clean_component(c: Seq<char>) -> bool {
    c.len() > 0 && c != seq!['.'] && c != seq!['.', '.'] && !c.contains('/')
}

/// No segment holds a separator.
proof fn lemma_segments_no_slash(p: Seq<char>)
    ensures
        forall|i: int| 0 <= i < segments(p).len() ==> !(#[trigger] segments(p)[i]).contains('/'),
    decreases p.len(),
{
    lemma_segments_nonempty(p);
    if p.len() > 0 {
        lemma_segments_no_slash(p.drop_last());
        lemma_segments_nonempty(p.drop_last());
        let s = segments(p.drop_last());
        if p.last() != '/' {
            assert forall|i: int| 0 <= i < segments(p).len() implies !(#[trigger] segments(p)[i]).contains('/') by {
                if i == s.len() - 1 {
                    if s.last().push(p.last()).contains('/') {
                        let k = choose|k: int| 0 <= k < s.last().push(p.last()).len() && s.last().push(p.last())[k] == '/';
                        assert(s.last()[k] == '/');
                    }
                }
            }
        }
    }
}

/// A text without separators is one segment.
proof fn lemma_segments_plain(b: Seq<char>)
    requires
        !b.contains('/'),
    ensures
        segments(b) == seq![b],
    decreases b.len(),
{
    if b.len() > 0 {
        assert(!b.drop_last().contains('/')) by {
            if b.drop_last().contains('/') {
                let k = choose|k: int| 0 <= k < b.drop_last().len() && b.drop_last()[k] == '/';
                assert(b[k] == '/');
            }
        }
        lemma_segments_plain(b.drop_last());
        assert(b.last() != '/') by {
            assert(b[b.len() - 1] == b.last());
        }
        assert(b.drop_last().push(b.last()) =~= b);
        assert(seq![b.drop_last()].update(0, b.drop_last().push(b.last())) =~= seq![b]);
    } else {
        assert(b =~= Seq::<char>::empty());
    }
}

/// A separator and then a text without separators add one segment.
proof fn lemma_segments_slash_tail(a: Seq<char>, b: Seq<char>)
    requires
        !b.contains('/'),
    ensures
        segments(a + seq!['/'] + b) == segments(a).push(b),
    decreases b.len(),
{
    if b.len() == 0 {
        assert(b =~= Seq::<char>::empty());
        assert(a + seq!['/'] + b =~= a.push('/'));
        assert((a.push('/')).drop_last() =~= a);
    } else {
        let x = a + seq!['/'] + b;
        assert(!b.drop_last().contains('/')) by {
            if b.drop_last().contains('/') {
                let k = choose|k: int| 0 <= k < b.drop_last().len() && b.drop_last()[k] == '/';
                assert(b[k] == '/');
            }
        }
        lemma_segments_slash_tail(a, b.drop_last());
        assert(x.drop_last() =~= a + seq!['/'] + b.drop_last());
        assert(x.last() == b.last());
        assert(b.last() != '/') by {
            assert(b[b.len() - 1] == b.last());
        }
        assert(b.drop_last().push(b.last()) =~= b);
        assert(segments(a).push(b.drop_last()).update(segments(a).len() as int, b.drop_last().push(b.last()))
            =~= segments(a).push(b));
    }
}

/// Joining components without separators and splitting again gives them back.
proof fn lemma_segments_join(cs: Seq<Seq<char>>)
    requires
        cs.len() > 0,
        forall|i: int| 0 <= i < cs.len() ==> !(#[trigger] cs[i]).contains('/'),
    ensures
        segments(join_slash(cs)) == cs,
    decreases cs.len(),
{
    if cs.len() == 1 {
        lemma_segments_plain(cs[0]);
        assert(seq![cs[0]] =~= cs);
    } else {
        lemma_segments_join(cs.drop_last());
        lemma_segments_slash_tail(join_slash(cs.drop_last()), cs.last());
        assert(cs.drop_last().push(cs.last()) =~= cs);
    }
}

/// Joining with an empty first component puts a separator in front.
proof fn lemma_join_absolute(cs: Seq<Seq<char>>)
    requires
        cs.len() > 0,
    ensures
        join_slash(seq![Seq::<char>::empty()] + cs) == seq!['/'] + join_slash(cs),
    decreases cs.len(),
{
    let e = seq![Seq::<char>::empty()];
    if cs.len() == 1 {
        assert((e + cs).drop_last() =~= e);
        assert(join_slash(e) == Seq::<char>::empty());
        assert(Seq::<char>::empty() + seq!['/'] + cs[0] =~= seq!['/'] + cs[0]);
    } else {
        lemma_join_absolute(cs.drop_last());
        assert((e + cs).drop_last() =~= e + cs.drop_last());
        assert((e + cs).last() == cs.last());
        assert(seq!['/'] + join_slash(cs.drop_last()) + seq!['/'] + cs.last()
            =~= seq!['/'] + (join_slash(cs.drop_last()) + seq!['/'] + cs.last()));
    }
}

/// Filtering keeps a sequence whose elements all pass.
proof fn lemma_filter_all(cs: Seq<Seq<char>>)
    requires
        forall|i: int| 0 <= i < cs.len() ==> clean_component(#[trigger] cs[i]),
    ensures
        cs.filter(|s: Seq<char>| s.len() > 0 && s != seq!['.']) == cs,
    decreases cs.len(),
{
    reveal(Seq::filter);
    if cs.len() > 0 {
        lemma_filter_all(cs.drop_last());
        assert(clean_component(cs[cs.len() - 1]));
        assert(cs.drop_last().push(cs.last()) =~= cs);
    }
}

/// Resolving parents leaves clean components, and leaves clean components
/// alone.
proof fn lemma_resolve_parents_clean(cs: Seq<Seq<char>>)
    requires
        forall|i: int| 0 <= i < cs.len() ==> (#[trigger] cs[i]).len() > 0 && cs[i] != seq!['.'] && !cs[i].contains('/'),
    ensures
        forall|i: int| 0 <= i < resolve_parents(cs).len() ==> clean_component(#[trigger] resolve_parents(cs)[i]),
        (forall|i: int| 0 <= i < cs.len() ==> clean_component(#[trigger] cs[i])) ==> resolve_parents(cs) == cs,
    decreases cs.len(),
{
    if cs.len() > 0 {
        lemma_resolve_parents_clean(cs.drop_last());
        let r = resolve_parents(cs.drop_last());
        if cs.last() != seq!['.', '.'] {
            assert(cs[cs.len() - 1] == cs.last());
            assert forall|i: int| 0 <= i < r.push(cs.last()).len() implies clean_component(#[trigger] r.push(cs.last())[i]) by {
                if i < r.len() {
                    assert(r.push(cs.last())[i] == r[i]);
                }
            }
        } else if r.len() > 0 {
            assert forall|i: int| 0 <= i < r.drop_last().len() implies clean_component(#[trigger] r.drop_last()[i]) by {
                assert(r.drop_last()[i] == r[i]);
            }
        }
        if forall|i: int| 0 <= i < cs.len() ==> clean_component(#[trigger] cs[i]) {
            assert(clean_component(cs[cs.len() - 1]));
            assert(cs.drop_last().push(cs.last()) =~= cs);
        }
    }
}

/// A joined path begins with its first component.
proof fn lemma_join_first(cs: Seq<Seq<char>>)
    requires
        cs.len() > 0,
        cs[0].len() > 0,
    ensures
        join_slash(cs).len() >= cs[0].len(),
        join_slash(cs)[0] == cs[0][0],
    decreases cs.len(),
{
    if cs.len() > 1 {
        lemma_join_first(cs.drop_last());
        let j = join_slash(cs.drop_last());
        assert((j + seq!['/'] + cs.last())[0] == j[0]);
    }
}

/// Normalising twice changes nothing, and a normalised path has no `.` or
/// `..` component.
pub proof fn law_normalize_idempotent(p: Seq<char>)
    ensures
        normalized(normalized(p)) == normalized(p),
        forall|i: int| 0 <= i < components(normalized(p)).len() ==> clean_component(#[trigger] components(normalized(p))[i]),
{
    let pred = |s: Seq<char>| s.len() > 0 && s != seq!['.'];
    lemma_segments_no_slash(p);
    broadcast use vstd::seq_lib::group_filter_ensures;
    let cs = components(p);
    assert forall|i: int| 0 <= i < cs.len() implies (#[trigger] cs[i]).len() > 0 && cs[i] != seq!['.'] && !cs[i].contains('/') by {
        assert(pred(cs[i]));
        reveal(Seq::filter);
        segments(p).lemma_filter_contains_rev(pred, cs[i]);
        assert(segments(p).contains(cs[i]));
    }
    lemma_resolve_parents_clean(cs);
    let r = resolve_parents(cs);
    lemma_resolve_parents_clean(r);
    lemma_filter_all(r);
    let body = join_slash(r);
    let q = normalized(p);
    let e = seq![Seq::<char>::empty()];
    if r.len() == 0 {
        reveal(Seq::filter);
        assert(segments(Seq::<char>::empty()) == seq![Seq::<char>::empty()]);
        if p.len() > 0 && p[0] == '/' {
            assert(q =~= seq!['/']);
            assert(seq!['/'].drop_last() =~= Seq::<char>::empty());
            assert(segments(seq!['/']) =~= seq![Seq::<char>::empty(), Seq::<char>::empty()]);
            reveal_with_fuel(Seq::filter, 3);
            let two = seq![Seq::<char>::empty(), Seq::<char>::empty()];
            assert(two.drop_last() =~= seq![Seq::<char>::empty()]);
            assert(seq![Seq::<char>::empty()].drop_last() =~= Seq::<Seq<char>>::empty());
            assert(two.filter(pred) =~= Seq::<Seq<char>>::empty());
            assert(components(q) =~= Seq::<Seq<char>>::empty());
        } else {
            assert(q =~= Seq::<char>::empty());
            assert(seq![Seq::<char>::empty()].drop_last() =~= Seq::<Seq<char>>::empty());
            assert(seq![Seq::<char>::empty()].filter(pred) =~= Seq::<Seq<char>>::empty());
            assert(components(q) =~= Seq::<Seq<char>>::empty());
        }
    } else {
        lemma_segments_join(r);
        if p.len() > 0 && p[0] == '/' {
            lemma_join_absolute(r);
            assert forall|i: int| 0 <= i < (e + r).len() implies !(#[trigger] (e + r)[i]).contains('/') by {
                if i > 0 {
                    assert((e + r)[i] == r[i - 1]);
                }
            }
            lemma_segments_join(e + r);
            assert(q == join_slash(e + r));
            reveal_with_fuel(Seq::filter, 2);
            assert(e.drop_last() =~= Seq::<Seq<char>>::empty());
            assert(e.filter(pred) =~= Seq::<Seq<char>>::empty());
            Seq::filter_distributes_over_add(e, r, pred);
            assert((e + r).filter(pred) == e.filter(pred) + r.filter(pred));
            assert(components(q) =~= r);
        } else {
            assert(r[0].len() > 0);
            assert(components(q) == r);
            assert(!(q.len() > 0 && q[0] == '/')) by {
                if q.len() > 0 && q[0] == '/' {
                    lemma_segments_no_slash(q);
                    assert(segments(q)[0] == r[0]);
                    lemma_join_first(r);
                }
            }
        }
    }
}

/// `url` taken relative to `base` (an absolute `url` stands alone).
pub open spec fn joined(base: Seq<char>, url: Seq<char>) -> Seq<char> {
    if url.len() > 0 && url[0] == '/' {
        url
    } else if base.len() == 0 {
        url
    } else {
        base + seq!['/'] + url
    }
}

/// `url` resolved against `base` and normalised.
pub fn resolve(base: &str, url: &str) -> (r: String)
    ensures
        r@ == normalized(joined(base@, url@)),
{
    let b = chars_of(base);
    let u = chars_of(url);
    let mut j: Vec<char> = Vec::new();
    if u.len() > 0 && u[0] == '/' {
        push_text(&mut j, &u);
    } else if b.len() == 0 {
        push_text(&mut j, &u);
    } else {
        push_text(&mut j, &b);
        j.push('/');
        push_text(&mut j, &u);
    }
    proof {
        assert(j@ =~= joined(base@, url@));
    }
    normalize(string_of(&j).as_str())
}

/// The directory part of a normalised path: what precedes its last `/`
/// (`/` for a file at the root, empty for a bare name, `.` for the root
/// itself).
pub open spec fn last_slash(p: Seq<char>, k: int) -> int
    decreases k,
{
    if k <= 0 {
        -1
    } else if p[k - 1] == '/' {
        k - 1
    } else {
        last_slash(p, k - 1)
    }
}

/// The directory part of path `p`.
pub open spec fn parent_of(p: Seq<char>) -> Seq<char> {
    let s = last_slash(p, p.len() as int);
    if p == seq!['/'] {
        seq!['.']
    } else if s == 0 {
        seq!['/']
    } else if s > 0 {
        p.take(s)
    } else {
        Seq::empty()
    }
}

pub fn parent_dir(p: &str) -> (r: String)
    ensures
        r@ == parent_of(p@),
{
    let cs = chars_of(p);
    if cs.len() == 1 && cs[0] == '/' {
        proof {
            assert(cs@ =~= seq!['/']);
            reveal_strlit(".");
        }
        return string_of(&crate::text::lit("."));
    }
    let mut k: usize = cs.len();
    while k > 0
        invariant
            k <= cs.len(),
            cs@ == p@,
            p@ != seq!['/'],
            last_slash(p@, p@.len() as int) == last_slash(p@, k as int),
        decreases k,
    {
        if cs[k - 1] == '/' {
            if k - 1 == 0 {
                proof {
                    reveal_strlit("/");
                }
                return string_of(&crate::text::lit("/"));
            }
            return string_of(&crate::text::slice_text(&cs, 0, k - 1));
        }
        k = k - 1;
    }
    String::new()
}

/// Whether path `p` ends in `.j`.
pub open spec fn ends_with_j(p: Seq<char>) -> bool {
    p.len() >= 2 && p[p.len() - 2] == '.' && p[p.len() - 1] == 'j'
}

/// Whether `p` ends with `.j`.
pub fn has_j_extension(p: &str) -> (b: bool)
    ensures
        b == ends_with_j(p@),
{
    let cs = chars_of(p);
    cs.len() >= 2 && cs[cs.len() - 2] == '.' && cs[cs.len() - 1] == 'j'
}

/// `p` with `.j` appended.
pub fn with_j_extension(p: &str) -> (r: String)
    ensures
        r@ == p@ + seq!['.', 'j'],
{
    let mut cs = chars_of(p);
    cs.push('.');
    cs.push('j');
    proof {
        assert(cs@ =~= p@ + seq!['.', 'j']);
    }
    string_of(&cs)
}

} // verus!
