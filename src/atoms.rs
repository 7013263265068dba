//! The mathematical model of an edit: a sequence of atoms over `Seq<char>`,
//! what it does to a document, and the normal form the builder keeps.
use vstd::prelude::*;

verus! {

/// One elementary step of an edit, as a mathematical value.
pub enum Atom {
    Retain(nat),
    Insert(Seq<char>),
    Delete(nat),
}

/// How many characters of the base document an atom reads.
pub open spec fn consumed(a: Atom) -> nat {
    match a {
        Atom::Retain(n) => n,
        Atom::Insert(_) => 0,
        Atom::Delete(n) => n,
    }
}

/// How many characters an atom writes into the result.
pub open spec fn produced(a: Atom) -> nat {
    match a {
        Atom::Retain(n) => n,
        Atom::Insert(t) => t.len(),
        Atom::Delete(_) => 0,
    }
}

/// Length of the document an atom sequence applies to.
pub open spec fn base_len(s: Seq<Atom>) -> nat
    decreases s.len(),
{
    if s.len() == 0 {
        0
    } else {
        consumed(s[0]) + base_len(s.skip(1))
    }
}

/// Length of the document an atom sequence produces.
pub open spec fn after_len(s: Seq<Atom>) -> nat
    decreases s.len(),
{
    if s.len() == 0 {
        0
    } else {
        produced(s[0]) + after_len(s.skip(1))
    }
}

/// The result of running the atoms over `b` from its first character.
/// Only the first `base_len(s)` characters of `b` are read.
pub open spec fn apply_atoms(s: Seq<Atom>, b: Seq<char>) -> Seq<char>
    decreases s.len(),
{
    if s.len() == 0 {
        Seq::empty()
    } else {
        match s[0] {
            Atom::Retain(n) => b.take(n as int) + apply_atoms(s.skip(1), b.skip(n as int)),
            Atom::Insert(t) => t + apply_atoms(s.skip(1), b),
            Atom::Delete(n) => apply_atoms(s.skip(1), b.skip(n as int)),
        }
    }
}

pub open spec fn nonzero(a: Atom) -> bool {
    match a {
        Atom::Retain(n) => n > 0,
        Atom::Insert(t) => t.len() > 0,
        Atom::Delete(n) => n > 0,
    }
}

pub open spec fn all_nonzero(s: Seq<Atom>) -> bool {
    forall|i: int| 0 <= i < s.len() ==> #[trigger] nonzero(s[i])
}

pub open spec fn same_kind(a: Atom, b: Atom) -> bool {
    (a is Retain && b is Retain) || (a is Insert && b is Insert) || (a is Delete && b is Delete)
}

/// Two atoms may stand side by side: different kinds, and never a delete
/// right before an insert.
pub open spec fn adjacent_ok(a: Atom, b: Atom) -> bool {
    !same_kind(a, b) && !(a is Delete && b is Insert)
}

/// The normal form: no empty atom, no two neighbours of one kind, no
/// delete immediately followed by an insert.
pub open spec fn normal(s: Seq<Atom>) -> bool {
    &&& all_nonzero(s)
    &&& forall|i: int, j: int|
        #![trigger s[i], s[j]]
        0 <= i && j == i + 1 && j < s.len() ==> adjacent_ok(s[i], s[j])
}

/// What appending one atom through the builder makes of `s`.
pub open spec fn push_norm(s: Seq<Atom>, x: Atom) -> Seq<Atom> {
    match x {
        Atom::Retain(n) => if n == 0 {
            s
        } else if s.len() > 0 && s.last() is Retain {
            s.drop_last().push(Atom::Retain(s.last()->Retain_0 + n))
        } else {
            s.push(x)
        },
        Atom::Delete(n) => if n == 0 {
            s
        } else if s.len() > 0 && s.last() is Delete {
            s.drop_last().push(Atom::Delete(s.last()->Delete_0 + n))
        } else {
            s.push(x)
        },
        Atom::Insert(t) => if t.len() == 0 {
            s
        } else if s.len() > 0 && s.last() is Insert {
            s.drop_last().push(Atom::Insert(s.last()->Insert_0 + t))
        } else if s.len() > 0 && s.last() is Delete {
            if s.len() > 1 && s[s.len() - 2] is Insert {
                s.take(s.len() - 2).push(Atom::Insert(s[s.len() - 2]->Insert_0 + t)).push(
                    s.last(),
                )
            } else {
                s.drop_last().push(x).push(s.last())
            }
        } else {
            s.push(x)
        },
    }
}

pub proof fn lemma_cons(a: Atom, rest: Seq<Atom>)
    ensures
        (seq![a] + rest).len() == rest.len() + 1,
        (seq![a] + rest)[0] == a,
        (seq![a] + rest).skip(1) == rest,
        base_len(seq![a] + rest) == consumed(a) + base_len(rest),
        after_len(seq![a] + rest) == produced(a) + after_len(rest),
{
    assert((seq![a] + rest).skip(1) =~= rest);
}

pub proof fn lemma_lens_concat(a: Seq<Atom>, c: Seq<Atom>)
    ensures
        base_len(a + c) == base_len(a) + base_len(c),
        after_len(a + c) == after_len(a) + after_len(c),
    decreases a.len(),
{
    if a.len() == 0 {
        assert(a + c =~= c);
    } else {
        lemma_lens_concat(a.skip(1), c);
        assert((a + c).skip(1) =~= a.skip(1) + c);
        assert((a + c)[0] == a[0]);
    }
}

pub proof fn lemma_apply_concat(a: Seq<Atom>, c: Seq<Atom>, b: Seq<char>)
    requires
        base_len(a) <= b.len(),
    ensures
        apply_atoms(a + c, b) == apply_atoms(a, b) + apply_atoms(c, b.skip(base_len(a) as int)),
    decreases a.len(),
{
    if a.len() == 0 {
        assert(a + c =~= c);
        assert(b.skip(0) =~= b);
        assert(apply_atoms(a, b) + apply_atoms(c, b) =~= apply_atoms(c, b));
    } else {
        assert((a + c).skip(1) =~= a.skip(1) + c);
        assert((a + c)[0] == a[0]);
        let k = consumed(a[0]);
        let bn = b.skip(k as int);
        lemma_apply_concat(a.skip(1), c, bn);
        assert(bn.skip(base_len(a.skip(1)) as int) =~= b.skip(base_len(a) as int));
        match a[0] {
            Atom::Retain(n) => {
                assert(apply_atoms(a + c, b) =~= apply_atoms(a, b) + apply_atoms(
                    c,
                    b.skip(base_len(a) as int),
                ));
            },
            Atom::Insert(t) => {
                assert(b.skip(0) =~= b);
                assert(apply_atoms(a + c, b) =~= apply_atoms(a, b) + apply_atoms(
                    c,
                    b.skip(base_len(a) as int),
                ));
            },
            Atom::Delete(n) => {
            },
        }
    }
}

/// Characters after the first `base_len(s)` are never read.
pub proof fn lemma_apply_extend(s: Seq<Atom>, u: Seq<char>, t: Seq<char>)
    requires
        base_len(s) <= u.len(),
    ensures
        apply_atoms(s, u + t) == apply_atoms(s, u),
    decreases s.len(),
{
    if s.len() > 0 {
        let k = consumed(s[0]) as int;
        assert(u.skip(0) =~= u);
        assert((u + t).skip(0) =~= u + t);
        assert((u + t).skip(k) =~= u.skip(k) + t);
        lemma_apply_extend(s.skip(1), u.skip(k), t);
        if s[0] is Retain {
            assert((u + t).take(k) =~= u.take(k));
        }
    }
}

pub proof fn lemma_apply_len(s: Seq<Atom>, b: Seq<char>)
    requires
        base_len(s) <= b.len(),
    ensures
        apply_atoms(s, b).len() == after_len(s),
    decreases s.len(),
{
    if s.len() > 0 {
        assert(b.skip(0) =~= b);
        lemma_apply_len(s.skip(1), b.skip(consumed(s[0]) as int));
    }
}

pub proof fn lemma_one_lens(x: Atom)
    ensures
        base_len(seq![x]) == consumed(x),
        after_len(seq![x]) == produced(x),
{
    lemma_cons(x, Seq::empty());
    assert(seq![x] + Seq::<Atom>::empty() =~= seq![x]);
}

pub proof fn lemma_apply_one(x: Atom, b: Seq<char>)
    requires
        consumed(x) <= b.len(),
    ensures
        apply_atoms(seq![x], b) == match x {
            Atom::Retain(n) => b.take(n as int),
            Atom::Insert(t) => t,
            Atom::Delete(_) => Seq::<char>::empty(),
        },
        base_len(seq![x]) == consumed(x),
        after_len(seq![x]) == produced(x),
{
    lemma_one_lens(x);
    assert(seq![x].skip(1) =~= Seq::<Atom>::empty());
    reveal_with_fuel(apply_atoms, 2);
    match x {
        Atom::Retain(n) => {
            assert(b.take(n as int) + Seq::<char>::empty() =~= b.take(n as int));
        },
        Atom::Insert(t) => {
            assert(t + Seq::<char>::empty() =~= t);
        },
        Atom::Delete(_) => {
        },
    }
}

/// Appending through the builder acts as appending the atom itself.
#[verifier::rlimit(80)]
pub proof fn lemma_push_apply(s: Seq<Atom>, x: Atom, b: Seq<char>)
    requires
        base_len(s) + consumed(x) <= b.len(),
    ensures
        apply_atoms(push_norm(s, x), b) == apply_atoms(s, b) + apply_atoms(
            seq![x],
            b.skip(base_len(s) as int),
        ),
{
    lemma_push_lens(s, x);
    lemma_apply_one(x, b.skip(base_len(s) as int));
    let w = b.skip(base_len(s) as int);
    if nonzero(x) {
        if s.len() > 0 && same_kind(s.last(), x) {
            let p = s.drop_last();
            let l = s.last();
            assert(s =~= p + seq![l]);
            lemma_lens_concat(p, seq![l]);
            lemma_apply_one(l, b.skip(base_len(p) as int));
            lemma_apply_concat(p, seq![l], b);
            let y = push_norm(s, x);
            let m = y.last();
            assert(y =~= p + seq![m]);
            lemma_apply_one(m, b.skip(base_len(p) as int));
            lemma_apply_concat(p, seq![m], b);
            let v = b.skip(base_len(p) as int);
            assert(w =~= v.skip(consumed(l) as int));
            match x {
                Atom::Retain(n) => {
                    assert(v.take(consumed(m) as int) =~= v.take(consumed(l) as int) + w.take(
                        n as int,
                    ));
                },
                Atom::Delete(n) => {
                    assert(apply_atoms(seq![m], v) =~= apply_atoms(seq![l], v) + apply_atoms(
                        seq![x],
                        w,
                    ));
                },
                Atom::Insert(t) => {
                },
            }
        } else if x is Insert && s.len() > 0 && s.last() is Delete {
            let l = s.last();
            if s.len() > 1 && s[s.len() - 2] is Insert {
                let p = s.take(s.len() - 2);
                let i0 = s[s.len() - 2];
                assert(s =~= p + seq![i0, l]);
                let y = push_norm(s, x);
                let i1 = Atom::Insert(i0->Insert_0 + x->Insert_0);
                assert(y =~= p + seq![i1, l]);
                lemma_lens_concat(p, seq![i0, l]);
                lemma_apply_concat(p, seq![i0, l], b);
                lemma_apply_concat(p, seq![i1, l], b);
                let v = b.skip(base_len(p) as int);
                lemma_cons(i0, seq![l]);
                lemma_cons(i1, seq![l]);
                assert(seq![i0] + seq![l] =~= seq![i0, l]);
                assert(seq![i1] + seq![l] =~= seq![i1, l]);
                lemma_apply_one(l, v);
                assert(apply_atoms(seq![i1, l], v) =~= apply_atoms(seq![i0, l], v) + apply_atoms(
                    seq![x],
                    w,
                ));
            } else {
                let p = s.drop_last();
                assert(s =~= p + seq![l]);
                let y = push_norm(s, x);
                assert(y =~= p + seq![x, l]);
                lemma_lens_concat(p, seq![l]);
                lemma_apply_concat(p, seq![l], b);
                lemma_apply_concat(p, seq![x, l], b);
                let v = b.skip(base_len(p) as int);
                lemma_cons(x, seq![l]);
                assert(seq![x] + seq![l] =~= seq![x, l]);
                lemma_apply_one(l, v);
                assert(apply_atoms(seq![x, l], v) =~= apply_atoms(seq![l], v) + apply_atoms(
                    seq![x],
                    w,
                ));
            }
        } else {
            assert(s.push(x) =~= s + seq![x]);
            lemma_apply_concat(s, seq![x], b);
        }
    } else {
        assert(apply_atoms(seq![x], w) =~= Seq::<char>::empty());
        assert(apply_atoms(s, b) + Seq::<char>::empty() =~= apply_atoms(s, b));
    }
}

/// The builder adds exactly the atom's lengths.
pub proof fn lemma_push_lens(s: Seq<Atom>, x: Atom)
    ensures
        base_len(push_norm(s, x)) == base_len(s) + consumed(x),
        after_len(push_norm(s, x)) == after_len(s) + produced(x),
{
    lemma_one_lens(x);
    if nonzero(x) {
        if s.len() > 0 && same_kind(s.last(), x) {
            let p = s.drop_last();
            let l = s.last();
            assert(s =~= p + seq![l]);
            lemma_lens_concat(p, seq![l]);
            let m = push_norm(s, x).last();
            assert(push_norm(s, x) =~= p + seq![m]);
            lemma_lens_concat(p, seq![m]);
            lemma_cons(l, Seq::empty());
            lemma_cons(m, Seq::empty());
            assert(seq![l] + Seq::<Atom>::empty() =~= seq![l]);
            assert(seq![m] + Seq::<Atom>::empty() =~= seq![m]);
        } else if x is Insert && s.len() > 0 && s.last() is Delete {
            let l = s.last();
            lemma_cons(l, Seq::empty());
            assert(seq![l] + Seq::<Atom>::empty() =~= seq![l]);
            if s.len() > 1 && s[s.len() - 2] is Insert {
                let p = s.take(s.len() - 2);
                let i0 = s[s.len() - 2];
                let i1 = Atom::Insert(i0->Insert_0 + x->Insert_0);
                assert(s =~= p + seq![i0, l]);
                assert(push_norm(s, x) =~= p + seq![i1, l]);
                lemma_lens_concat(p, seq![i0, l]);
                lemma_lens_concat(p, seq![i1, l]);
                lemma_cons(i0, seq![l]);
                lemma_cons(i1, seq![l]);
                assert(seq![i0] + seq![l] =~= seq![i0, l]);
                assert(seq![i1] + seq![l] =~= seq![i1, l]);
            } else {
                let p = s.drop_last();
                assert(s =~= p + seq![l]);
                assert(push_norm(s, x) =~= p + seq![x, l]);
                lemma_lens_concat(p, seq![l]);
                lemma_lens_concat(p, seq![x, l]);
                lemma_cons(x, seq![l]);
                assert(seq![x] + seq![l] =~= seq![x, l]);
            }
        } else {
            assert(s.push(x) =~= s + seq![x]);
            lemma_lens_concat(s, seq![x]);
        }
    }
}

/// The builder keeps the normal form.
pub proof fn lemma_push_normal(s: Seq<Atom>, x: Atom)
    requires
        normal(s),
    ensures
        normal(push_norm(s, x)),
{
    let y = push_norm(s, x);
    if nonzero(x) {
        assert forall|i: int| 0 <= i < y.len() implies #[trigger] nonzero(y[i]) by {
            if i < s.len() - 2 {
                assert(y[i] == s[i]);
            }
            if i < y.len() - 1 && s.len() > 0 {
                assert(nonzero(s[s.len() - 1]));
            }
            if s.len() > 1 {
                assert(nonzero(s[s.len() - 2]));
            }
        }
        assert forall|i: int, j: int|
            #![trigger y[i], y[j]]
            0 <= i && j == i + 1 && j < y.len() implies adjacent_ok(y[i], y[j]) by {
            if j < s.len() - 2 {
                assert(y[i] == s[i] && y[j] == s[j]);
            } else if s.len() > 1 {
                let a = s.len() - 2;
                let b = s.len() - 1;
                assert(adjacent_ok(s[a], s[b]));
                if s.len() > 2 {
                    let c = s.len() - 3;
                    assert(adjacent_ok(s[c], s[a]));
                }
            }
        }
    }
}


pub proof fn lemma_skip_step(s: Seq<Atom>, i: int)
    requires
        0 <= i < s.len(),
    ensures
        s.skip(i)[0] == s[i],
        s.skip(i).skip(1) == s.skip(i + 1),
        base_len(s.skip(i)) == consumed(s[i]) + base_len(s.skip(i + 1)),
        after_len(s.skip(i)) == produced(s[i]) + after_len(s.skip(i + 1)),
{
    assert(s.skip(i).skip(1) =~= s.skip(i + 1));
}

/// No single atom counts for more than the whole sequence.
pub proof fn lemma_atom_le(s: Seq<Atom>, i: int)
    requires
        0 <= i < s.len(),
    ensures
        consumed(s[i]) <= base_len(s),
        produced(s[i]) <= after_len(s),
    decreases s.len(),
{
    if i > 0 {
        lemma_atom_le(s.skip(1), i - 1);
    }
}

} // verus!
