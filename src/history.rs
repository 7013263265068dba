//! Predicates a history manager uses to decide whether two consecutive
//! edits should become one undo step.
use crate::algebra::{invert_atoms, invert_go};
use crate::atoms::{
    adjacent_ok, base_len, consumed, lemma_skip_step, nonzero, normal, push_norm, Atom,
};
use vstd::prelude::*;

verus! {

/// The edit changes nothing: it is empty or a single retain.
pub open spec fn noop(s: Seq<Atom>) -> bool {
    s.len() == 0 || (s.len() == 1 && s[0] is Retain)
}

/// Where the edit starts working: the length of a leading retain, else 0.
pub open spec fn first_cursor_of(s: Seq<Atom>) -> nat {
    if s.len() > 0 && s[0] is Retain {
        s[0]->Retain_0
    } else {
        0
    }
}

/// The one significant atom of an edit shaped `[a]`, `[retain, a]`,
/// `[a, retain]` or `[retain, a, retain]`.
pub open spec fn simple_of(s: Seq<Atom>) -> Option<Atom> {
    if s.len() == 1 {
        Some(s[0])
    } else if s.len() == 2 && s[0] is Retain {
        Some(s[1])
    } else if s.len() == 2 && s[1] is Retain {
        Some(s[0])
    } else if s.len() == 3 && s[0] is Retain && s[2] is Retain {
        Some(s[1])
    } else {
        None
    }
}

/// `b` continues `a`: typing on after an insert, or a backspace or a
/// forward delete next to a delete.
pub open spec fn composable(a: Seq<Atom>, b: Seq<Atom>) -> bool {
    if noop(a) || noop(b) {
        true
    } else {
        match (simple_of(a), simple_of(b)) {
            (Some(Atom::Insert(sa)), Some(Atom::Insert(_))) => first_cursor_of(a) + sa.len()
                == first_cursor_of(b),
            (Some(Atom::Delete(_)), Some(Atom::Delete(db))) => first_cursor_of(b) + db
                == first_cursor_of(a) || first_cursor_of(a) == first_cursor_of(b),
            _ => false,
        }
    }
}

/// The same question asked of the inverses, taken in reverse order.
pub open spec fn composable_inverted(a: Seq<Atom>, b: Seq<Atom>) -> bool {
    if noop(a) || noop(b) {
        true
    } else {
        match (simple_of(a), simple_of(b)) {
            (Some(Atom::Insert(sa)), Some(Atom::Insert(_))) => first_cursor_of(a) + sa.len()
                == first_cursor_of(b) || first_cursor_of(a) == first_cursor_of(b),
            (Some(Atom::Delete(_)), Some(Atom::Delete(db))) => first_cursor_of(b) + db
                == first_cursor_of(a),
            _ => false,
        }
    }
}

/// `b` undoes `a` on its own: same retain, or an insert against a delete
/// of the same length.
pub open spec fn dual(a: Atom, b: Atom) -> bool {
    match a {
        Atom::Retain(n) => b == Atom::Retain(n),
        Atom::Insert(t) => b == Atom::Delete(t.len()),
        Atom::Delete(n) => b is Insert && b->Insert_0.len() == n,
    }
}

/// Atom `i` of the first `k` atoms of `x` has retains (or an end) on both sides.
pub open spec fn lone(x: Seq<Atom>, i: int, k: int) -> bool {
    (i == 0 || x[i - 1] is Retain) && (i + 1 >= k || x[i + 1] is Retain)
}

/// `v` mirrors the first `k` atoms of `x`: retains at the same places, and
/// each retain or lone atom undone by its counterpart.
pub open spec fn mirrors(x: Seq<Atom>, v: Seq<Atom>, k: int) -> bool {
    &&& v.len() == k
    &&& forall|i: int| 0 <= i < k ==> (#[trigger] x[i] is Retain <==> v[i] is Retain)
    &&& forall|i: int| 0 <= i < k && (x[i] is Retain || lone(x, i, k)) ==> dual(#[trigger] x[i], v[i])
}

proof fn lemma_invert_mirrors(acc: Seq<Atom>, x: Seq<Atom>, k: int, b: Seq<char>)
    requires
        normal(x),
        0 <= k <= x.len(),
        mirrors(x, acc, k),
        b.len() == base_len(x.skip(k)),
    ensures
        mirrors(x, invert_go(acc, x.skip(k), b), x.len() as int),
    decreases x.len() - k,
{
    if k == x.len() {
        assert(x.skip(k) =~= Seq::<Atom>::empty());
    } else {
        lemma_skip_step(x, k);
        let a = x[k];
        assert(nonzero(a));
        if k > 0 {
            assert(x[k - 1] is Retain <==> acc[k - 1] is Retain);
        }
        let d = match a {
            Atom::Retain(n) => Atom::Retain(n),
            Atom::Insert(t) => Atom::Delete(t.len()),
            Atom::Delete(n) => Atom::Insert(b.take(n as int)),
        };
        let acc2 = push_norm(acc, d);
        let b2 = if a is Insert {
            b
        } else {
            b.skip(consumed(a) as int)
        };
        assert(invert_go(acc, x.skip(k), b) == invert_go(acc2, x.skip(k + 1), b2));
        if a is Delete && k > 0 && x[k - 1] is Insert {
            // the insert slips in before the delete that undoes x[k - 1]
            if k > 1 {
                assert(x[k - 2] is Retain);
                assert(acc[k - 2] is Retain);
            }
            assert(lone(x, k - 1, k));
            assert(dual(x[k - 1], acc[k - 1]));
            assert(acc2 =~= acc.drop_last().push(d).push(acc.last()));
        } else {
            if k > 0 {
                assert(adjacent_ok(x[k - 1], x[k]));
            }
            assert(acc2 =~= acc.push(d));
        }
        assert forall|i: int| 0 <= i < k + 1 implies (#[trigger] x[i] is Retain <==> acc2[i]
            is Retain) by {
            if i < k - 1 {
                assert(x[i] is Retain <==> acc[i] is Retain);
            }
        }
        assert forall|i: int| 0 <= i < k + 1 && (x[i] is Retain || lone(x, i, k + 1)) implies dual(
            #[trigger] x[i],
            acc2[i],
        ) by {
            if i < k - 1 {
                assert(dual(x[i], acc[i]));
            } else if i == k - 1 {
                if x[i] is Retain || lone(x, i, k + 1) {
                    assert(dual(x[i], acc[i]));
                }
            }
        }
        lemma_invert_mirrors(acc2, x, k + 1, b2);
    }
}

/// What the heuristics read is the same on a mirror, up to duality.
pub proof fn lemma_mirror_facts(x: Seq<Atom>, v: Seq<Atom>)
    requires
        mirrors(x, v, x.len() as int),
    ensures
        noop(v) == noop(x),
        first_cursor_of(v) == first_cursor_of(x),
        simple_of(v) is Some == simple_of(x) is Some,
        simple_of(x) is Some ==> dual(simple_of(x)->Some_0, simple_of(v)->Some_0),
{
    if x.len() > 0 {
        assert(x[0] is Retain <==> v[0] is Retain);
        if x[0] is Retain {
            assert(dual(x[0], v[0]));
        }
    }
    if x.len() > 1 {
        assert(x[1] is Retain <==> v[1] is Retain);
    }
    if x.len() > 2 {
        assert(x[2] is Retain <==> v[2] is Retain);
    }
    if x.len() == 1 {
        assert(lone(x, 0, 1));
        assert(dual(x[0], v[0]));
    } else if x.len() == 2 && x[0] is Retain {
        assert(lone(x, 1, 2));
        assert(dual(x[1], v[1]));
    } else if x.len() == 2 && x[1] is Retain {
        assert(lone(x, 0, 2));
        assert(dual(x[0], v[0]));
    } else if x.len() == 3 && x[0] is Retain && x[2] is Retain {
        assert(lone(x, 1, 3));
        assert(dual(x[1], v[1]));
    }
}

/// Inverting a normal operation keeps its retains in place and undoes each
/// lone insert or delete by its counterpart.
pub proof fn lemma_invert_mirror(x: Seq<Atom>, s: Seq<char>)
    requires
        normal(x),
        s.len() == base_len(x),
    ensures
        mirrors(x, invert_atoms(x, s), x.len() as int),
{
    assert(x.skip(0) =~= x);
    lemma_invert_mirrors(Seq::empty(), x, 0, s);
}

} // verus!
