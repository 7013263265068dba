//! The algebraic laws of text operations, stated over the atom model.
use crate::algebra::{
    compose_atoms, compose_go, invert_atoms, lemma_compose_go_apply, lemma_compose_go_some,
    lemma_invert_go_apply, lemma_transform_go_apply, lemma_transform_go_some, transform_atoms,
    transform_go,
};
use crate::canonical::lemma_canonical;
use crate::history::{composable, composable_inverted, lemma_invert_mirror, lemma_mirror_facts};
use crate::atoms::{
    after_len, apply_atoms, base_len, lemma_apply_len, lemma_atom_le, lemma_push_normal, nonzero,
    normal, push_norm, Atom,
};
use vstd::prelude::*;

verus! {

/// Applying an operation to a document of its base length gives a
/// document of its after length.
pub proof fn law_apply_lengths(a: Seq<Atom>, s: Seq<char>)
    requires
        s.len() == base_len(a),
    ensures
        apply_atoms(a, s).len() == after_len(a),
{
    lemma_apply_len(a, s);
}

/// The inverse over `s`, applied to the result, gives `s` back; it maps the
/// after length to the base length.
pub proof fn law_invert_undoes(a: Seq<Atom>, s: Seq<char>)
    requires
        s.len() == base_len(a),
    ensures
        apply_atoms(invert_atoms(a, s), apply_atoms(a, s)) == s,
        base_len(invert_atoms(a, s)) == after_len(a),
        after_len(invert_atoms(a, s)) == base_len(a),
{
    let e = Seq::<char>::empty();
    assert(apply_atoms(Seq::<Atom>::empty(), e) =~= e);
    lemma_invert_go_apply(Seq::empty(), a, s, e, e);
    assert(e + apply_atoms(a, s) =~= apply_atoms(a, s));
    assert(e + s =~= s);
}

/// Composing `a` then `b` succeeds, and the composition applied to `s` is
/// `b` applied to `a` applied to `s`.
pub proof fn law_compose_apply(a: Seq<Atom>, b: Seq<Atom>, s: Seq<char>)
    requires
        normal(a),
        normal(b),
        after_len(a) == base_len(b),
        s.len() == base_len(a),
    ensures
        compose_atoms(a, b) is Some,
        normal(compose_atoms(a, b)->Some_0),
        apply_atoms(compose_atoms(a, b)->Some_0, s) == apply_atoms(b, apply_atoms(a, s)),
{
    let e = Seq::<char>::empty();
    lemma_compose_go_some(Seq::empty(), a, b);
    lemma_compose_go_apply(Seq::empty(), a, b, e, s);
    assert(e + s =~= s);
    assert(apply_atoms(Seq::<Atom>::empty(), e) =~= e);
    assert(e + apply_atoms(b, apply_atoms(a, s)) =~= apply_atoms(b, apply_atoms(a, s)));
}

/// Two concurrent operations on one base, once transformed, meet: `a` then
/// `b'` and `b` then `a'` write the same text, and the compositions
/// `a.compose(b')` and `b.compose(a')` are the same operation.
pub proof fn law_transform_converges(a: Seq<Atom>, b: Seq<Atom>, s: Seq<char>)
    requires
        normal(a),
        normal(b),
        base_len(a) == base_len(b),
        s.len() == base_len(a),
    ensures
        transform_atoms(a, b) is Some,
        ({
            let (a2, b2) = transform_atoms(a, b)->Some_0;
            &&& normal(a2)
            &&& normal(b2)
            &&& base_len(a2) == after_len(b)
            &&& base_len(b2) == after_len(a)
            &&& apply_atoms(b2, apply_atoms(a, s)) == apply_atoms(a2, apply_atoms(b, s))
            &&& compose_atoms(a, b2) is Some
            &&& compose_atoms(b, a2) is Some
            &&& compose_atoms(a, b2) == compose_atoms(b, a2)
            &&& apply_atoms(compose_atoms(a, b2)->Some_0, s) == apply_atoms(
                compose_atoms(b, a2)->Some_0,
                s,
            )
        }),
{
    let e = Seq::<char>::empty();
    let z = Seq::<Atom>::empty();
    assert(apply_atoms(z, e) =~= e);
    lemma_transform_go_some(z, z, a, b);
    let (a2, b2) = transform_atoms(a, b)->Some_0;
    lemma_transform_go_apply(z, z, a, b, e, e, s);
    assert(e + apply_atoms(a, s) =~= apply_atoms(a, s));
    assert(e + apply_atoms(b, s) =~= apply_atoms(b, s));
    law_compose_apply(a, b2, s);
    law_compose_apply(b, a2, s);
    let c1 = compose_atoms(a, b2)->Some_0;
    let c2 = compose_atoms(b, a2)->Some_0;
    lemma_compose_go_some(z, a, b2);
    lemma_compose_go_some(z, b, a2);
    assert forall|t: Seq<char>| t.len() == base_len(c1) implies #[trigger] apply_atoms(c1, t)
        == apply_atoms(c2, t) by {
        law_compose_apply(a, b2, t);
        law_compose_apply(b, a2, t);
        lemma_transform_go_apply(z, z, a, b, e, e, t);
        assert(e + apply_atoms(a, t) =~= apply_atoms(a, t));
        assert(e + apply_atoms(b, t) =~= apply_atoms(b, t));
    }
    lemma_canonical(c1, c2);
}

/// Every builder step keeps the normal form: no empty atom, no two
/// neighbours of one kind, no delete right before an insert.
pub proof fn law_builder_keeps_normal_form(s: Seq<Atom>, x: Atom)
    requires
        normal(s),
    ensures
        normal(push_norm(s, x)),
{
    lemma_push_normal(s, x);
}

/// A normal operation over the empty document is empty or one insert.
proof fn lemma_empty_base(b: Seq<Atom>)
    requires
        normal(b),
        base_len(b) == 0,
    ensures
        b.len() == 0 || (b.len() == 1 && b[0] is Insert && nonzero(b[0])),
{
    if b.len() > 0 {
        lemma_atom_le(b, 0);
        assert(nonzero(b[0]));
        if b.len() > 1 {
            lemma_atom_le(b, 1);
            assert(nonzero(b[1]));
            assert(b[0] is Insert && b[1] is Insert);
            assert(false);
        }
    }
}

/// The empty operation composed with any `b` it fits is `b` itself.
pub proof fn law_compose_identity(b: Seq<Atom>)
    requires
        normal(b),
        base_len(b) == 0,
    ensures
        compose_atoms(Seq::empty(), b) == Some(b),
{
    lemma_empty_base(b);
    if b.len() == 0 {
        assert(b =~= Seq::<Atom>::empty());
    }
    if b.len() == 1 {
        let z = Seq::<Atom>::empty();
        assert(b.skip(1) =~= z);
        assert(push_norm(z, b[0]) =~= b);
        assert(compose_go(z, z, b) == compose_go(push_norm(z, b[0]), z, b.skip(1)));
    }
}

/// Transforming the empty operation against `b`: the empty side becomes a
/// retain of all of `b`'s result, and `b` stays as it is.
pub proof fn law_transform_identity(b: Seq<Atom>)
    requires
        normal(b),
        base_len(b) == 0,
    ensures
        transform_atoms(Seq::empty(), b) == Some(
            (push_norm(Seq::empty(), Atom::Retain(after_len(b))), b),
        ),
{
    lemma_empty_base(b);
    let z = Seq::<Atom>::empty();
    if b.len() == 1 {
        assert(b.skip(1) =~= z);
        assert(push_norm(z, b[0]) =~= b);
        assert(after_len(b) == after_len(b.skip(1)) + b[0]->Insert_0.len());
        let r = push_norm(z, Atom::Retain(after_len(b)));
        assert(transform_go(z, z, z, b) == transform_go(r, b, z, z));
    } else {
        assert(b =~= z);
    }
}

/// The history heuristics are dual: `b` done after `a` should be merged
/// with it exactly when the inverse of `b`, taken off an undo stack before
/// the inverse of `a`, should be merged with it.
pub proof fn law_history_duality(a: Seq<Atom>, b: Seq<Atom>, s: Seq<char>)
    requires
        normal(a),
        normal(b),
        s.len() == base_len(a),
        base_len(b) == after_len(a),
    ensures
        composable(a, b) == composable_inverted(
            invert_atoms(b, apply_atoms(a, s)),
            invert_atoms(a, s),
        ),
{
    let t = apply_atoms(a, s);
    lemma_apply_len(a, s);
    let ia = invert_atoms(a, s);
    let ib = invert_atoms(b, t);
    lemma_invert_mirror(a, s);
    lemma_invert_mirror(b, t);
    lemma_mirror_facts(a, ia);
    lemma_mirror_facts(b, ib);
}

} // verus!
