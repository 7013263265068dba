//! The normal form is canonical: two normal operations that do the same to
//! every document are the same sequence of atoms.
use crate::algebra::span;
use crate::atoms::{
    adjacent_ok, apply_atoms, base_len, consumed, lemma_cons, nonzero, normal, Atom,
};
use vstd::prelude::*;

verus! {

/// `x` and `y` apply to the same documents and give the same result on each.
pub open spec fn same_effect(x: Seq<Atom>, y: Seq<Atom>) -> bool {
    &&& base_len(x) == base_len(y)
    &&& forall|s: Seq<char>| s.len() == base_len(x) ==> #[trigger] apply_atoms(x, s) == apply_atoms(y, s)
}

/// A document of `n` characters, all `a` but a `b` at `p`.
pub open spec fn marked(n: nat, p: int) -> Seq<char> {
    Seq::new(n, |i: int| if i == p { 'b' } else { 'a' })
}

proof fn lemma_normal_tail(x: Seq<Atom>)
    requires
        normal(x),
        x.len() > 0,
    ensures
        normal(x.skip(1)),
{
    let r = x.skip(1);
    assert forall|i: int| 0 <= i < r.len() implies #[trigger] nonzero(r[i]) by {
        assert(r[i] == x[i + 1]);
    }
    assert forall|i: int, j: int|
        #![trigger r[i], r[j]]
        0 <= i && j == i + 1 && j < r.len() implies adjacent_ok(r[i], r[j]) by {
        assert(r[i] == x[i + 1] && r[j] == x[j + 1]);
    }
}

/// What the first character of the result is, by the first atoms.
proof fn lemma_front(z: Seq<Atom>, s: Seq<char>)
    requires
        normal(z),
        s.len() == base_len(z),
    ensures
        z.len() == 0 ==> apply_atoms(z, s).len() == 0,
        z.len() == 1 && z[0] is Delete ==> apply_atoms(z, s).len() == 0,
        z.len() > 0 && z[0] is Insert ==> apply_atoms(z, s).len() > 0 && apply_atoms(z, s)[0]
            == z[0]->Insert_0[0],
        z.len() > 0 && z[0] is Retain ==> s.len() > 0 && apply_atoms(z, s).len() > 0
            && apply_atoms(z, s)[0] == s[0],
        z.len() > 1 && z[0] is Delete ==> z[1] is Retain && z[0]->Delete_0 < s.len()
            && apply_atoms(z, s).len() > 0 && apply_atoms(z, s)[0] == s[z[0]->Delete_0 as int],
{
    reveal_with_fuel(apply_atoms, 3);
    if z.len() > 0 {
        lemma_cons(z[0], z.skip(1));
        assert(seq![z[0]] + z.skip(1) =~= z);
        assert(nonzero(z[0]));
        if z.len() == 1 {
            assert(z.skip(1) =~= Seq::<Atom>::empty());
        }
        if z.len() > 1 {
            assert(adjacent_ok(z[0], z[1]));
            assert(nonzero(z[1]));
            let r = z.skip(1);
            lemma_cons(r[0], r.skip(1));
            assert(seq![r[0]] + r.skip(1) =~= r);
        }
    }
}

/// Equal first atoms can be peeled off.
proof fn lemma_peel(x: Seq<Atom>, y: Seq<Atom>)
    requires
        x.len() > 0,
        y.len() > 0,
        x[0] == y[0],
        same_effect(x, y),
    ensures
        same_effect(x.skip(1), y.skip(1)),
{
    lemma_cons(x[0], x.skip(1));
    lemma_cons(y[0], y.skip(1));
    assert(seq![x[0]] + x.skip(1) =~= x);
    assert(seq![y[0]] + y.skip(1) =~= y);
    let k = consumed(x[0]);
    assert forall|t: Seq<char>| t.len() == base_len(x.skip(1)) implies #[trigger] apply_atoms(
        x.skip(1),
        t,
    ) == apply_atoms(y.skip(1), t) by {
        let s = Seq::new(k, |i: int| 'a') + t;
        assert(s.skip(k as int) =~= t);
        assert(s.skip(0) =~= s);
        let ox = apply_atoms(x, s);
        let oy = apply_atoms(y, s);
        assert(ox == oy);
        let h = match x[0] {
            Atom::Retain(n) => s.take(n as int),
            Atom::Insert(u) => u,
            Atom::Delete(_) => Seq::<char>::empty(),
        };
        assert(ox =~= h + apply_atoms(x.skip(1), t));
        assert(oy =~= h + apply_atoms(y.skip(1), t));
        assert((h + apply_atoms(x.skip(1), t)).skip(h.len() as int) =~= apply_atoms(x.skip(1), t));
        assert((h + apply_atoms(y.skip(1), t)).skip(h.len() as int) =~= apply_atoms(y.skip(1), t));
    }
}

spec fn rank(z: Seq<Atom>) -> int {
    if z.len() == 0 {
        0
    } else {
        match z[0] {
            Atom::Insert(_) => 1,
            Atom::Retain(_) => 2,
            Atom::Delete(_) => 3,
        }
    }
}

spec fn ordered(x: Seq<Atom>, y: Seq<Atom>) -> bool {
    rank(x) < rank(y) || (rank(x) == rank(y) && (x.len() == 0 || span(x[0]) <= span(y[0])))
}

proof fn lemma_unfold(z: Seq<Atom>)
    requires
        normal(z),
        z.len() > 0,
    ensures
        nonzero(z[0]),
        base_len(z) == consumed(z[0]) + base_len(z.skip(1)),
        normal(z.skip(1)),
{
    lemma_cons(z[0], z.skip(1));
    assert(seq![z[0]] + z.skip(1) =~= z);
    lemma_normal_tail(z);
}

/// Two normal operations with the same effect start with the same atom.
#[verifier::rlimit(80)]
proof fn lemma_heads_core(x: Seq<Atom>, y: Seq<Atom>)
    requires
        normal(x),
        normal(y),
        same_effect(x, y),
        x.len() + y.len() > 0,
        ordered(x, y),
    ensures
        x.len() > 0 && y.len() > 0 && x[0] == y[0],
{
    let n = base_len(x);
    let a = marked(n, -1);
    lemma_front(x, a);
    lemma_front(y, a);
    assert(apply_atoms(x, a) == apply_atoms(y, a));
    lemma_unfold(y);
    if x.len() > 0 {
        lemma_unfold(x);
    }
    let xr = x.skip(1);
    if x.len() == 0 {
    } else if x[0] is Insert {
        let t = x[0]->Insert_0;
        if y[0] is Insert {
            let u = y[0]->Insert_0;
            let k = t.len() as int;
            assert(apply_atoms(x, a) == t + apply_atoms(xr, a));
            assert(apply_atoms(y, a) == u + apply_atoms(y.skip(1), a));
            if t.len() == u.len() {
                assert((t + apply_atoms(xr, a)).take(k) =~= t);
                assert((u + apply_atoms(y.skip(1), a)).take(k) =~= u);
            } else {
                lemma_front(xr, a);
                if xr.len() > 0 && xr[0] is Retain {
                    let m = marked(n, 0);
                    lemma_front(xr, m);
                    assert(apply_atoms(x, m) == apply_atoms(y, m));
                    assert(apply_atoms(x, m)[k] == apply_atoms(x, a)[k]);
                } else if xr.len() > 1 && xr[0] is Delete {
                    let m = marked(n, xr[0]->Delete_0 as int);
                    lemma_front(xr, m);
                    assert(apply_atoms(x, m) == apply_atoms(y, m));
                    assert(apply_atoms(x, m)[k] == apply_atoms(x, a)[k]);
                } else {
                    assert(apply_atoms(x, a).len() == t.len());
                }
            }
        } else if y[0] is Retain {
            let m = marked(n, 0);
            lemma_front(x, m);
            lemma_front(y, m);
            assert(apply_atoms(x, m) == apply_atoms(y, m));
        } else if y.len() > 1 {
            let m = marked(n, y[0]->Delete_0 as int);
            lemma_front(x, m);
            lemma_front(y, m);
            assert(apply_atoms(x, m) == apply_atoms(y, m));
        }
    } else if x[0] is Retain {
        let r = x[0]->Retain_0;
        if y[0] is Retain {
            let q = y[0]->Retain_0;
            if r < q {
                let k = r as int;
                assert(apply_atoms(x, a) == a.take(k) + apply_atoms(xr, a.skip(k)));
                lemma_unfold(y);
                lemma_front(xr, a.skip(k));
                assert(apply_atoms(y, a) == a.take(q as int) + apply_atoms(
                    y.skip(1),
                    a.skip(q as int),
                ));
                if xr.len() > 0 && xr[0] is Insert {
                    let m = marked(n, k);
                    lemma_front(xr, m.skip(k));
                    assert(apply_atoms(x, m) == apply_atoms(y, m));
                    assert(apply_atoms(x, m) == m.take(k) + apply_atoms(xr, m.skip(k)));
                    assert(apply_atoms(y, m) == m.take(q as int) + apply_atoms(
                        y.skip(1),
                        m.skip(q as int),
                    ));
                    assert(apply_atoms(y, m)[k] == m[k]);
                    assert(apply_atoms(y, a)[k] == a[k]);
                } else if xr.len() > 1 && xr[0] is Delete {
                    let d = xr[0]->Delete_0 as int;
                    let m = marked(n, k + d);
                    lemma_front(xr, m.skip(k));
                    assert(apply_atoms(x, m) == apply_atoms(y, m));
                    assert(apply_atoms(x, m) == m.take(k) + apply_atoms(xr, m.skip(k)));
                    assert(apply_atoms(y, m) == m.take(q as int) + apply_atoms(
                        y.skip(1),
                        m.skip(q as int),
                    ));
                    assert(apply_atoms(y, m)[k] == m[k]);
                    assert(apply_atoms(x, m)[k] == m.skip(k)[d]);
                    assert(nonzero(xr[0]));
                    assert(m.skip(k)[d] == m[k + d]);
                    assert(m[k] == 'a' && m[k + d] == 'b');
                } else {
                    assert(apply_atoms(x, a).len() == k);
                }
            }
        } else {
            if y.len() > 1 {
                let m = marked(n, y[0]->Delete_0 as int);
                lemma_front(x, m);
                lemma_front(y, m);
                assert(apply_atoms(x, m) == apply_atoms(y, m));
            }
        }
    } else {
        let d = x[0]->Delete_0;
        let e = y[0]->Delete_0;
        if d < e && x.len() > 1 && y.len() > 1 {
            let m = marked(n, e as int);
            lemma_front(x, m);
            lemma_front(y, m);
            assert(apply_atoms(x, m) == apply_atoms(y, m));
        }
    }
}

proof fn lemma_same_effect_sym(x: Seq<Atom>, y: Seq<Atom>)
    requires
        same_effect(x, y),
    ensures
        same_effect(y, x),
{
    assert forall|s: Seq<char>| s.len() == base_len(y) implies #[trigger] apply_atoms(y, s)
        == apply_atoms(x, s) by {
        assert(apply_atoms(x, s) == apply_atoms(y, s));
    }
}

/// Two normal operations with the same effect on every document are equal.
pub proof fn lemma_canonical(x: Seq<Atom>, y: Seq<Atom>)
    requires
        normal(x),
        normal(y),
        same_effect(x, y),
    ensures
        x == y,
    decreases x.len() + y.len(),
{
    if x.len() == 0 && y.len() == 0 {
        assert(x =~= y);
    } else {
        if ordered(x, y) {
            lemma_heads_core(x, y);
        } else {
            lemma_same_effect_sym(x, y);
            lemma_heads_core(y, x);
        }
        lemma_peel(x, y);
        lemma_normal_tail(x);
        lemma_normal_tail(y);
        lemma_canonical(x.skip(1), y.skip(1));
        lemma_cons(x[0], x.skip(1));
        lemma_cons(y[0], y.skip(1));
        assert(seq![x[0]] + x.skip(1) =~= x);
        assert(seq![y[0]] + y.skip(1) =~= y);
    }
}

} // verus!
