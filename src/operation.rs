use crate::algebra::{cut, span};
use crate::atoms::{lemma_skip_step, Atom};
use crate::render::{atom_text, push_decimal, push_escaped};
use vstd::string::*;
use vstd::prelude::*;

verus! {

/// One elementary step of an edit: keep, add or remove characters.
#[derive(Debug, PartialEq, Eq)]
pub enum Operation {
    /// Copy the next `n` characters of the base into the result.
    Retain(usize),
    /// Write this text into the result; the base is not advanced.
    Insert(String),
    /// Skip the next `n` characters of the base.
    Delete(usize),
}

impl View for Operation {
    type V = Atom;

    open spec fn view(&self) -> Atom {
        match self {
            Operation::Retain(n) => Atom::Retain(*n as nat),
            Operation::Insert(s) => Atom::Insert(s@),
            Operation::Delete(n) => Atom::Delete(*n as nat),
        }
    }
}

impl Operation {
    /// A fresh copy of the atom.
    pub fn copy(&self) -> (r: Operation)
        ensures
            r@ == self@,
    {
        match self {
            Operation::Retain(n) => Operation::Retain(*n),
            Operation::Insert(s) => Operation::Insert(s.clone()),
            Operation::Delete(n) => Operation::Delete(*n),
        }
    }
}

impl Operation {
    /// Appends the text of the atom, as `retain(n)`, `insert("...")` with
    /// quotes escaped, or `delete(n)`.
    pub fn write_to(&self, buf: &mut String)
        ensures
            final(buf)@ == old(buf)@ + atom_text(self@),
    {
        match self {
            Operation::Retain(n) => {
                buf.append("retain(");
                push_decimal(buf, *n);
                buf.append(")");
            },
            Operation::Insert(s) => {
                buf.append("insert(\"");
                push_escaped(buf, s.as_str());
                buf.append("\")");
            },
            Operation::Delete(n) => {
                buf.append("delete(");
                push_decimal(buf, *n);
                buf.append(")");
            },
        }
        assert(buf@ =~= old(buf)@ + atom_text(self@));
    }

    /// The text of the atom, as `retain(n)`, `insert("...")` with quotes
    /// escaped, or `delete(n)`.
    pub fn to_string(&self) -> (r: String)
        ensures
            r@ == atom_text(self@),
    {
        let mut buf = String::new();
        self.write_to(&mut buf);
        assert(buf@ =~= atom_text(self@));
        buf
    }

    /// Whether this is a retain.
    pub fn is_retain(&self) -> (r: bool)
        ensures
            r == (self@ is Retain),
    {
        match self {
            Operation::Retain(_) => true,
            _ => false,
        }
    }

    /// The length of the text this atom covers: inserted characters for an
    /// insert, base characters otherwise.
    pub fn span_len(&self) -> (r: usize)
        ensures
            r == span(self@),
    {
        match self {
            Operation::Retain(n) => *n,
            Operation::Insert(s) => s.as_str().unicode_len(),
            Operation::Delete(n) => *n,
        }
    }

    /// The atom left once its first `m` characters are used up.
    pub fn rest_after(&self, m: usize) -> (r: Operation)
        requires
            m <= span(self@),
        ensures
            r@ == cut(self@, m as nat),
    {
        match self {
            Operation::Retain(n) => Operation::Retain(*n - m),
            Operation::Insert(s) => {
                let l = s.as_str().unicode_len();
                let t = s.as_str().substring_char(m, l);
                let r = String::from_str(t);
                assert(r@ =~= s@.skip(m as int));
                Operation::Insert(r)
            },
            Operation::Delete(n) => Operation::Delete(*n - m),
        }
    }
}

impl Operation {
    /// Whether the two atoms are the same step.
    pub fn same_as(&self, o: &Operation) -> (r: bool)
        ensures
            r == (self@ == o@),
    {
        match (self, o) {
            (Operation::Retain(a), Operation::Retain(b)) => *a == *b,
            (Operation::Insert(a), Operation::Insert(b)) => a.eq(b),
            (Operation::Delete(a), Operation::Delete(b)) => *a == *b,
            _ => false,
        }
    }
}

/// The atoms of a vector of operations.
pub open spec fn atoms_of(v: Seq<Operation>) -> Seq<Atom> {
    v.map_values(|o: Operation| o@)
}

/// The rest of a walk over `v`: the current head, if any, then the atoms
/// from index `i` on.
pub open spec fn stream(h: Option<Operation>, v: Seq<Operation>, i: int) -> Seq<Atom> {
    match h {
        Some(o) => seq![o@] + atoms_of(v).skip(i),
        None => Seq::empty(),
    }
}

/// Takes a copy of the atom at `*i` and moves `*i` past it.
pub(crate) fn fetch(ops: &Vec<Operation>, i: &mut usize) -> (r: Option<Operation>)
    requires
        *old(i) <= ops.len(),
    ensures
        *final(i) <= ops.len(),
        stream(r, ops@, *final(i) as int) == atoms_of(ops@).skip(*old(i) as int),
{
    if *i < ops.len() {
        let o = ops[*i].copy();
        proof {
            lemma_skip_step(atoms_of(ops@), *i as int);
            assert(seq![o@] + atoms_of(ops@).skip(*i + 1) =~= atoms_of(ops@).skip(*i as int));
        }
        *i = *i + 1;
        Some(o)
    } else {
        assert(atoms_of(ops@).skip(*i as int) =~= Seq::<Atom>::empty());
        None
    }
}

} // verus!
