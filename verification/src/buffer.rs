//! The output buffer of the compiler: a list of text atoms, some of them
//! the finished contents of nested buffers.
use vstd::prelude::*;
use crate::text::string_of;

verus! {

/// One piece of output: plain text, or the rendered contents of a nested
/// buffer. Only plain text atoms are ever taken back out of a buffer.
pub enum Atom {
    S(String),
    B(String),
}

impl Atom {
    pub open spec fn text(&self) -> Seq<char> {
        match self {
            Atom::S(s) => s@,
            Atom::B(s) => s@,
        }
    }
}

/// The texts of a list of atoms, joined.
pub open spec fn render_atoms(atoms: Seq<Atom>) -> Seq<char>
    decreases atoms.len(),
{
    if atoms.len() == 0 {
        Seq::empty()
    } else {
        render_atoms(atoms.drop_last()) + atoms.last().text()
    }
}

/// The text of a list of atoms starts with the text of its first atom.
pub proof fn lemma_render_first(atoms: Seq<Atom>)
    requires
        atoms.len() > 0,
    ensures
        render_atoms(atoms) == atoms[0].text() + render_atoms(atoms.drop_first()),
    decreases atoms.len(),
{
    if atoms.len() > 1 {
        lemma_render_first(atoms.drop_last());
        let rest = atoms.drop_first();
        assert(atoms.drop_last().drop_first() =~= rest.drop_last());
        assert(rest.last() == atoms.last());
        assert(atoms.drop_last()[0] == atoms[0]);
        assert(render_atoms(rest) == render_atoms(rest.drop_last()) + rest.last().text());
        assert(render_atoms(atoms) =~= atoms[0].text() + render_atoms(rest));
    } else {
        assert(atoms.drop_first() =~= Seq::<Atom>::empty());
        assert(atoms.drop_last() =~= Seq::<Atom>::empty());
        assert(render_atoms(atoms.drop_last()) =~= Seq::<char>::empty());
        assert(atoms.last() == atoms[0]);
        assert(render_atoms(atoms) =~= atoms[0].text());
        assert(render_atoms(atoms.drop_first()) =~= Seq::<char>::empty());
    }
}

pub struct StringBuffer {
    pub atoms: Vec<Atom>,
}

impl StringBuffer {
    /// The text the buffer renders to.
    pub open spec fn rendered(&self) -> Seq<char> {
        render_atoms(self.atoms@)
    }

    pub fn new_buf() -> (b: StringBuffer)
        ensures
            b.atoms@.len() == 0,
            b.rendered() == Seq::<char>::empty(),
    {
        StringBuffer { atoms: Vec::new() }
    }

    /// Appends the rendered text to `out`.
    pub fn render(&self, out: &mut String)
        ensures
            final(out)@ == old(out)@ + self.rendered(),
    {
        let mut i: usize = 0;
        while i < self.atoms.len()
            invariant
                i <= self.atoms.len(),
                out@ == old(out)@ + render_atoms(self.atoms@.take(i as int)),
            decreases self.atoms.len() - i,
        {
            let ghost before = out@;
            match &self.atoms[i] {
                Atom::S(s) => out.append(s.as_str()),
                Atom::B(s) => out.append(s.as_str()),
            }
            proof {
                let t = self.atoms@.take(i + 1);
                assert(t.drop_last() == self.atoms@.take(i as int));
                assert(t.last() == self.atoms@[i as int]);
            }
            i = i + 1;
        }
        proof {
            assert(self.atoms@.take(self.atoms.len() as int) == self.atoms@);
        }
    }

    pub fn to_string(&self) -> (s: String)
        ensures
            s@ == self.rendered(),
    {
        let mut s = String::new();
        self.render(&mut s);
        s
    }

    /// Appends plain text.
    pub fn push_s(&mut self, s: String)
        ensures
            final(self).atoms@ == old(self).atoms@.push(Atom::S(s)),
            final(self).rendered() == old(self).rendered() + s@,
    {
        self.atoms.push(Atom::S(s));
        proof {
            assert(self.atoms@.drop_last() == old(self).atoms@);
        }
    }

    /// Appends plain text given as characters.
    pub fn push_chars(&mut self, t: &Vec<char>)
        ensures
            final(self).atoms@.len() == old(self).atoms@.len() + 1,
            final(self).atoms@.drop_last() == old(self).atoms@,
            final(self).atoms@.last() matches Atom::S(s) && s@ == t@,
            final(self).rendered() == old(self).rendered() + t@,
    {
        let s = string_of(t);
        self.push_s(s);
    }

    /// Appends the finished contents of another buffer.
    pub fn push_b(&mut self, b: &StringBuffer)
        ensures
            final(self).atoms@.len() == old(self).atoms@.len() + 1,
            final(self).atoms@.last() is B,
            final(self).atoms@.drop_last() == old(self).atoms@,
            final(self).rendered() == old(self).rendered() + b.rendered(),
    {
        let s = b.to_string();
        self.atoms.push(Atom::B(s));
        proof {
            assert(self.atoms@.drop_last() == old(self).atoms@);
        }
    }
}

} // verus!
