//! Tables keyed by name: macro definitions and class descriptions.
use vstd::prelude::*;
use crate::text::{chars_of, text_eq};

verus! {

/// The value a macro is defined to.
#[derive(Clone, Debug)]
pub enum MacroValue {
    /// A name defined without a value (`#define NAME`).
    Flag(bool),
    /// A simple macro and its replacement text.
    Str(String),
    /// A function-like macro: its parameters and body.
    Func { params: Vec<String>, body: String },
}

/// What is known of a class: its superclass and instance variable names.
#[derive(Clone, Debug)]
pub struct ClassInfo {
    pub super_class_name: Option<String>,
    pub ivars: Vec<String>,
}

/// Whether `k` occurs among the first components of `es`.
pub open spec fn has_key<V>(es: Seq<(String, V)>, k: Seq<char>) -> bool {
    exists|i: int| 0 <= i < es.len() && (#[trigger] es[i]).0@ == k
}

/// No key occurs twice.
pub open spec fn keys_unique<V>(es: Seq<(String, V)>) -> bool {
    forall|i: int, j: int| 0 <= i < j < es.len() ==> (#[trigger] es[i]).0@ != (#[trigger] es[j]).0@
}

/// A macro value as the contracts see it: its texts as sequences.
pub enum MacroView {
    Flag(bool),
    Text(Seq<char>),
    Func(Seq<Seq<char>>, Seq<char>),
}

/// What a macro value says, its texts taken as sequences.
pub open spec fn value_view(v: MacroValue) -> MacroView {
    match v {
        MacroValue::Flag(b) => MacroView::Flag(b),
        MacroValue::Str(s) => MacroView::Text(s@),
        MacroValue::Func { params, body } => MacroView::Func(string_views(params@), body@),
    }
}

/// Whether two macro values are alike: the same kind, the same texts.
pub open spec fn same_macro(a: MacroValue, b: MacroValue) -> bool {
    match (a, b) {
        (MacroValue::Flag(x), MacroValue::Flag(y)) => x == y,
        (MacroValue::Str(x), MacroValue::Str(y)) => x@ == y@,
        (MacroValue::Func { params: p1, body: b1 }, MacroValue::Func { params: p2, body: b2 }) =>
            string_views(p1@) == string_views(p2@) && b1@ == b2@,
        _ => false,
    }
}

/// Whether two class descriptions are alike: the same superclass name and
/// the same instance variable names, in order.
pub open spec fn same_class_info(a: ClassInfo, b: ClassInfo) -> bool {
    &&& a.super_class_name is Some <==> b.super_class_name is Some
    &&& (a.super_class_name matches Some(x) ==> b.super_class_name matches Some(y) && x@ == y@)
    &&& string_views(a.ivars@) == string_views(b.ivars@)
}

/// A copy of a list of strings.
fn copy_strings(v: &Vec<String>) -> (r: Vec<String>)
    ensures
        string_views(r@) == string_views(v@),
{
    let mut r: Vec<String> = Vec::new();
    let mut i: usize = 0;
    while i < v.len()
        invariant
            i <= v.len(),
            r@.len() == i,
            string_views(r@) == string_views(v@).take(i as int),
        decreases v.len() - i,
    {
        let c = v[i].clone();
        assert(c == v@[i as int]);
        r.push(c);
        proof {
            assert(r@[i as int]@ == v@[i as int]@);
            assert(string_views(r@) =~= string_views(v@).take(i + 1));
        }
        i = i + 1;
    }
    proof {
        assert(string_views(v@).take(v.len() as int) =~= string_views(v@));
    }
    r
}

/// A copy of a macro value.
pub fn copy_macro_value(v: &MacroValue) -> (r: MacroValue)
    ensures
        same_macro(r, *v),
{
    match v {
        MacroValue::Flag(b) => MacroValue::Flag(*b),
        MacroValue::Str(t) => MacroValue::Str(t.clone()),
        MacroValue::Func { params, body } => MacroValue::Func { params: copy_strings(params), body: body.clone() },
    }
}

/// A copy of a class description.
pub fn copy_class_info(c: &ClassInfo) -> (r: ClassInfo)
    ensures
        same_class_info(r, *c),
{
    let super_class_name = match &c.super_class_name {
        Some(s) => Some(s.clone()),
        None => None,
    };
    ClassInfo { super_class_name, ivars: copy_strings(&c.ivars) }
}

/// Position of `k` in `es`.
fn find_key<V>(es: &Vec<(String, V)>, k: &Vec<char>) -> (r: Option<usize>)
    ensures
        r matches Some(i) ==> i < es.len() && es@[i as int].0@ == k@,
        r is None ==> !has_key(es@, k@),
{
    let mut i: usize = 0;
    while i < es.len()
        invariant
            i <= es.len(),
            forall|j: int| 0 <= j < i ==> (#[trigger] es@[j]).0@ != k@,
        decreases es.len() - i,
    {
        let name = chars_of(es[i].0.as_str());
        if text_eq(&name, k) {
            return Some(i);
        }
        i = i + 1;
    }
    None
}

/// The definitions of a table, by name.
pub open spec fn table_env(t: MacroTable) -> Map<Seq<char>, MacroView> {
    Map::new(
        |n: Seq<char>| has_key(t.entries(), n),
        |n: Seq<char>| value_view(t.entries()[choose|i: int| 0 <= i < t.entries().len() && (#[trigger] t.entries()[i]).0@ == n].1),
    )
}

/// Macro definitions by name.
pub struct MacroTable {
    entries: Vec<(String, MacroValue)>,
}

impl MacroTable {
    pub closed spec fn entries(&self) -> Seq<(String, MacroValue)> {
        self.entries@
    }

    pub closed spec fn wf(&self) -> bool {
        keys_unique(self.entries@)
    }

    /// No name is defined twice.
    pub proof fn lemma_unique(&self)
        requires
            self.wf(),
        ensures
            keys_unique(self.entries()),
    {
    }

    pub fn new() -> (t: MacroTable)
        ensures
            t.wf(),
            t.entries().len() == 0,
    {
        MacroTable { entries: Vec::new() }
    }

    pub fn len(&self) -> (n: usize)
        ensures
            n == self.entries().len(),
    {
        self.entries.len()
    }

    /// The `i`-th definition, in insertion order.
    pub fn entry(&self, i: usize) -> (r: (&String, &MacroValue))
        requires
            i < self.entries().len(),
        ensures
            *r.0 == self.entries()[i as int].0,
            *r.1 == self.entries()[i as int].1,
    {
        (&self.entries[i].0, &self.entries[i].1)
    }

    /// The definition of `name`, if any.
    pub fn get(&self, name: &str) -> (r: Option<&MacroValue>)
        requires
            self.wf(),
        ensures
            r is None <==> !has_key(self.entries(), name@),
            r matches Some(v) ==> exists|i: int| 0 <= i < self.entries().len()
                && self.entries()[i].0@ == name@ && self.entries()[i].1 == *v,
    {
        let k = chars_of(name);
        match find_key(&self.entries, &k) {
            Some(i) => {
                proof {
                    assert(self.entries()[i as int].0@ == name@ && self.entries()[i as int].1 == self.entries@[i as int].1);
                }
                Some(&self.entries[i].1)
            },
            None => None,
        }
    }

    pub fn contains_key(&self, name: &str) -> (b: bool)
        requires
            self.wf(),
        ensures
            b == has_key(self.entries(), name@),
    {
        let k = chars_of(name);
        find_key(&self.entries, &k).is_some()
    }

    /// A copy of the table.
    pub fn copy(&self) -> (t: MacroTable)
        requires
            self.wf(),
        ensures
            t.wf(),
            t.entries().len() == self.entries().len(),
            forall|i: int| 0 <= i < t.entries().len() ==> (#[trigger] t.entries()[i]).0 == self.entries()[i].0
                && same_macro(t.entries()[i].1, self.entries()[i].1),
    {
        let mut entries: Vec<(String, MacroValue)> = Vec::new();
        let mut i: usize = 0;
        while i < self.entries.len()
            invariant
                i <= self.entries.len(),
                keys_unique(self.entries@),
                entries@.len() == i,
                forall|j: int| 0 <= j < i ==> (#[trigger] entries@[j]).0 == self.entries@[j].0
                    && same_macro(entries@[j].1, self.entries@[j].1),
            decreases self.entries.len() - i,
        {
            entries.push((self.entries[i].0.clone(), copy_macro_value(&self.entries[i].1)));
            i = i + 1;
        }
        MacroTable { entries }
    }

    /// Defines `name` as `value`, replacing an earlier definition.
    pub fn insert(&mut self, name: String, value: MacroValue)
        requires
            old(self).wf(),
        ensures
            final(self).wf(),
            has_key(final(self).entries(), name@),
            forall|i: int| 0 <= i < final(self).entries().len() && (#[trigger] final(self).entries()[i]).0@ == name@
                ==> final(self).entries()[i].1 == value,
            forall|k: Seq<char>| k != name@ ==> (has_key(final(self).entries(), k) <==> has_key(old(self).entries(), k)),
            // Every other definition is left as it was.
            final(self).entries().len() == old(self).entries().len() + (if has_key(old(self).entries(), name@) { 0int } else { 1int }),
            forall|i: int| 0 <= i < old(self).entries().len() && old(self).entries()[i].0@ != name@
                ==> #[trigger] final(self).entries()[i] == old(self).entries()[i],
    {
        let k = chars_of(name.as_str());
        match find_key(&self.entries, &k) {
            Some(i) => {
                let ghost before = self.entries@;
                self.entries.set(i, (name, value));
                proof {
                    assert forall|k2: Seq<char>| k2 != name@ implies (has_key(self.entries@, k2) <==> has_key(before, k2)) by {
                        if has_key(before, k2) {
                            let j = choose|j: int| 0 <= j < before.len() && (#[trigger] before[j]).0@ == k2;
                            assert(self.entries@[j] == before[j]);
                        }
                        if has_key(self.entries@, k2) {
                            let j = choose|j: int| 0 <= j < self.entries@.len() && (#[trigger] self.entries@[j]).0@ == k2;
                            assert(self.entries@[j] == before[j]);
                        }
                    }
                    assert(self.entries@[i as int].0@ == name@);
                }
            },
            None => {
                let ghost before = self.entries@;
                self.entries.push((name, value));
                proof {
                    assert forall|k2: Seq<char>| k2 != name@ implies (has_key(self.entries@, k2) <==> has_key(before, k2)) by {
                        if has_key(before, k2) {
                            let j = choose|j: int| 0 <= j < before.len() && (#[trigger] before[j]).0@ == k2;
                            assert(self.entries@[j] == before[j]);
                        }
                    }
                    assert(self.entries@[before.len() as int].0@ == name@);
                }
            },
        }
    }
}

/// Class descriptions by class name.
pub struct ClassTable {
    entries: Vec<(String, ClassInfo)>,
}

impl ClassTable {
    pub closed spec fn entries(&self) -> Seq<(String, ClassInfo)> {
        self.entries@
    }

    pub closed spec fn wf(&self) -> bool {
        keys_unique(self.entries@)
    }

    /// No class is recorded twice.
    pub proof fn lemma_unique(&self)
        requires
            self.wf(),
        ensures
            keys_unique(self.entries()),
    {
    }

    pub fn new() -> (t: ClassTable)
        ensures
            t.wf(),
            t.entries().len() == 0,
    {
        ClassTable { entries: Vec::new() }
    }

    pub fn len(&self) -> (n: usize)
        ensures
            n == self.entries().len(),
    {
        self.entries.len()
    }

    /// The `i`-th class, in insertion order.
    pub fn entry(&self, i: usize) -> (r: (&String, &ClassInfo))
        requires
            i < self.entries().len(),
        ensures
            *r.0 == self.entries()[i as int].0,
            *r.1 == self.entries()[i as int].1,
    {
        (&self.entries[i].0, &self.entries[i].1)
    }

    pub fn get(&self, name: &str) -> (r: Option<&ClassInfo>)
        requires
            self.wf(),
        ensures
            r is None <==> !has_key(self.entries(), name@),
            r matches Some(v) ==> exists|i: int| 0 <= i < self.entries().len()
                && self.entries()[i].0@ == name@ && self.entries()[i].1 == *v,
    {
        let k = chars_of(name);
        match find_key(&self.entries, &k) {
            Some(i) => {
                proof {
                    assert(self.entries()[i as int].0@ == name@ && self.entries()[i as int].1 == self.entries@[i as int].1);
                }
                Some(&self.entries[i].1)
            },
            None => None,
        }
    }

    pub fn contains_key(&self, name: &str) -> (b: bool)
        requires
            self.wf(),
        ensures
            b == has_key(self.entries(), name@),
    {
        let k = chars_of(name);
        find_key(&self.entries, &k).is_some()
    }

    /// A copy of the table.
    pub fn copy(&self) -> (t: ClassTable)
        requires
            self.wf(),
        ensures
            t.wf(),
            t.entries().len() == self.entries().len(),
            forall|i: int| 0 <= i < t.entries().len() ==> (#[trigger] t.entries()[i]).0 == self.entries()[i].0
                && same_class_info(t.entries()[i].1, self.entries()[i].1),
    {
        let mut entries: Vec<(String, ClassInfo)> = Vec::new();
        let mut i: usize = 0;
        while i < self.entries.len()
            invariant
                i <= self.entries.len(),
                keys_unique(self.entries@),
                entries@.len() == i,
                forall|j: int| 0 <= j < i ==> (#[trigger] entries@[j]).0 == self.entries@[j].0
                    && same_class_info(entries@[j].1, self.entries@[j].1),
            decreases self.entries.len() - i,
        {
            entries.push((self.entries[i].0.clone(), copy_class_info(&self.entries[i].1)));
            i = i + 1;
        }
        ClassTable { entries }
    }

    /// Records `info` for `name`, replacing an earlier record.
    pub fn insert(&mut self, name: String, info: ClassInfo)
        requires
            old(self).wf(),
        ensures
            final(self).wf(),
            has_key(final(self).entries(), name@),
            forall|i: int| 0 <= i < final(self).entries().len() && (#[trigger] final(self).entries()[i]).0@ == name@
                ==> final(self).entries()[i].1 == info,
            forall|k: Seq<char>| k != name@ ==> (has_key(final(self).entries(), k) <==> has_key(old(self).entries(), k)),
            // Every other record is left as it was.
            final(self).entries().len() == old(self).entries().len() + (if has_key(old(self).entries(), name@) { 0int } else { 1int }),
            forall|i: int| 0 <= i < old(self).entries().len() && old(self).entries()[i].0@ != name@
                ==> #[trigger] final(self).entries()[i] == old(self).entries()[i],
    {
        let k = chars_of(name.as_str());
        match find_key(&self.entries, &k) {
            Some(i) => {
                let ghost before = self.entries@;
                self.entries.set(i, (name, info));
                proof {
                    assert forall|k2: Seq<char>| k2 != name@ implies (has_key(self.entries@, k2) <==> has_key(before, k2)) by {
                        if has_key(before, k2) {
                            let j = choose|j: int| 0 <= j < before.len() && (#[trigger] before[j]).0@ == k2;
                            assert(self.entries@[j] == before[j]);
                        }
                        if has_key(self.entries@, k2) {
                            let j = choose|j: int| 0 <= j < self.entries@.len() && (#[trigger] self.entries@[j]).0@ == k2;
                            assert(self.entries@[j] == before[j]);
                        }
                    }
                    assert(self.entries@[i as int].0@ == name@);
                }
            },
            None => {
                let ghost before = self.entries@;
                self.entries.push((name, info));
                proof {
                    assert forall|k2: Seq<char>| k2 != name@ implies (has_key(self.entries@, k2) <==> has_key(before, k2)) by {
                        if has_key(before, k2) {
                            let j = choose|j: int| 0 <= j < before.len() && (#[trigger] before[j]).0@ == k2;
                            assert(self.entries@[j] == before[j]);
                        }
                    }
                    assert(self.entries@[before.len() as int].0@ == name@);
                }
            },
        }
    }
}

/// The texts of a sequence of strings.
pub open spec fn string_views(ns: Seq<String>) -> Seq<Seq<char>> {
    ns.map_values(|s: String| s@)
}

/// A set of names, kept in insertion order without repetition.
pub struct NameSet {
    names: Vec<String>,
}

impl View for NameSet {
    type V = Set<Seq<char>>;

    closed spec fn view(&self) -> Set<Seq<char>> {
        string_views(self.names@).to_set()
    }
}

impl NameSet {
    pub closed spec fn wf(&self) -> bool {
        string_views(self.names@).no_duplicates()
    }

    pub fn new() -> (s: NameSet)
        ensures
            s.wf(),
            s@ == Set::<Seq<char>>::empty(),
    {
        let s = NameSet { names: Vec::new() };
        proof {
            assert(s@ =~= Set::<Seq<char>>::empty());
        }
        s
    }

    /// Whether `name` is in the set.
    pub fn contains(&self, name: &str) -> (b: bool)
        ensures
            b == self@.contains(name@),
    {
        let k = chars_of(name);
        self.contains_text(&k)
    }

    pub fn contains_text(&self, k: &Vec<char>) -> (b: bool)
        ensures
            b == self@.contains(k@),
    {
        let mut i: usize = 0;
        while i < self.names.len()
            invariant
                i <= self.names.len(),
                forall|j: int| 0 <= j < i ==> (#[trigger] self.names@[j])@ != k@,
            decreases self.names.len() - i,
        {
            let name = chars_of(self.names[i].as_str());
            if text_eq(&name, k) {
                proof {
                    assert(string_views(self.names@)[i as int] == k@);
                }
                return true;
            }
            i = i + 1;
        }
        proof {
            if self@.contains(k@) {
                let j = choose|j: int| 0 <= j < string_views(self.names@).len() && string_views(self.names@)[j] == k@;
                assert(self.names@[j]@ == k@);
            }
        }
        false
    }

    /// Adds `name` unless it is already there.
    pub fn insert(&mut self, name: String)
        requires
            old(self).wf(),
        ensures
            final(self).wf(),
            final(self)@ == old(self)@.insert(name@),
    {
        let k = chars_of(name.as_str());
        if self.contains_text(&k) {
            proof {
                assert(old(self)@.insert(name@) =~= old(self)@);
            }
            return;
        }
        let ghost before = self.names@;
        self.names.push(name);
        proof {
            assert(string_views(self.names@) =~= string_views(before).push(name@));
            assert(string_views(self.names@).to_set() =~= string_views(before).to_set().insert(name@)) by {
                assert forall|x: Seq<char>| string_views(self.names@).to_set().contains(x)
                    <==> string_views(before).to_set().insert(name@).contains(x) by {
                    if string_views(self.names@).contains(x) && x != name@ {
                        let j = choose|j: int| 0 <= j < string_views(self.names@).len() && string_views(self.names@)[j] == x;
                        assert(string_views(before)[j] == x);
                    }
                    if string_views(before).contains(x) {
                        let j = choose|j: int| 0 <= j < string_views(before).len() && string_views(before)[j] == x;
                        assert(string_views(self.names@)[j] == x);
                    }
                    if x == name@ {
                        assert(string_views(self.names@)[before.len() as int] == x);
                    }
                }
            }
        }
    }

    /// The number of names.
    pub fn len(&self) -> (n: usize)
        requires
            self.wf(),
        ensures
            n == self@.len(),
    {
        proof {
            string_views(self.names@).unique_seq_to_set();
        }
        self.names.len()
    }

    /// A copy of the set.
    pub fn copy(&self) -> (r: NameSet)
        ensures
            r@ == self@,
            self.wf() ==> r.wf(),
    {
        NameSet { names: self.to_vec() }
    }

    /// The names, in the order they were added.
    pub fn to_vec(&self) -> (v: Vec<String>)
        ensures
            string_views(v@).to_set() == self@,
            self.wf() ==> string_views(v@).no_duplicates(),
    {
        let mut v: Vec<String> = Vec::new();
        let mut i: usize = 0;
        while i < self.names.len()
            invariant
                i <= self.names.len(),
                v.len() == i,
                string_views(v@) == string_views(self.names@).take(i as int),
            decreases self.names.len() - i,
        {
            let ghost old_v = v@;
            v.push(self.names[i].clone());
            proof {
                assert(v@ == old_v.push(self.names@[i as int]));
                assert forall|j: int| 0 <= j < i + 1 implies #[trigger] string_views(v@)[j] == string_views(self.names@).take(i + 1)[j] by {
                    if j < i {
                        assert(string_views(old_v)[j] == string_views(self.names@).take(i as int)[j]);
                    }
                }
                assert(string_views(v@) =~= string_views(self.names@).take(i + 1));
            }
            i = i + 1;
        }
        proof {
            assert(string_views(self.names@).take(self.names.len() as int) =~= string_views(self.names@));
        }
        v
    }
}

/// Pushing a string onto a list pushes its text onto the list's texts.
pub proof fn lemma_views_push(ws: Seq<String>, x: String)
    ensures
        string_views(ws.push(x)) == string_views(ws).push(x@),
        string_views(ws.push(x)).to_set() == string_views(ws).to_set().insert(x@),
        string_views(ws).no_duplicates() && !string_views(ws).to_set().contains(x@)
            ==> string_views(ws.push(x)).no_duplicates(),
{
    let a = string_views(ws.push(x));
    let b = string_views(ws).push(x@);
    assert(a =~= b);
    assert(a.to_set() =~= string_views(ws).to_set().insert(x@)) by {
        assert forall|y: Seq<char>| a.to_set().contains(y) <==> string_views(ws).to_set().insert(x@).contains(y) by {
            if a.contains(y) && y != x@ {
                let j = choose|j: int| 0 <= j < a.len() && a[j] == y;
                assert(string_views(ws)[j] == y);
            }
            if string_views(ws).contains(y) {
                let j = choose|j: int| 0 <= j < string_views(ws).len() && string_views(ws)[j] == y;
                assert(a[j] == y);
            }
            if y == x@ {
                assert(a[ws.len() as int] == y);
            }
        }
    }
    if string_views(ws).no_duplicates() && !string_views(ws).to_set().contains(x@) {
        assert forall|i: int, j: int| 0 <= i < a.len() && 0 <= j < a.len() && i != j implies a[i] != a[j] by {
            if i == ws.len() {
                assert(string_views(ws)[j] == a[j]);
                assert(string_views(ws).contains(a[j]));
            } else if j == ws.len() {
                assert(string_views(ws)[i] == a[i]);
                assert(string_views(ws).contains(a[i]));
            } else {
                assert(string_views(ws)[i] == a[i]);
                assert(string_views(ws)[j] == a[j]);
            }
        }
    }
}

} // verus!
