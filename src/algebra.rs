//! Invert, compose and transform as step-by-step walks over atom sequences,
//! and what each walk means for the documents involved.
use crate::atoms::{
    after_len, all_nonzero, apply_atoms, base_len, consumed, lemma_apply_extend, lemma_apply_len,
    lemma_apply_one, lemma_cons, lemma_push_apply, lemma_push_lens, lemma_push_normal, nonzero, normal,
    produced, push_norm,
    Atom,
};
use vstd::prelude::*;

verus! {

pub open spec fn least(a: nat, b: nat) -> nat {
    if a < b {
        a
    } else {
        b
    }
}

/// The part of an atom left once its first `m` characters are used up.
pub open spec fn cut(a: Atom, m: nat) -> Atom {
    match a {
        Atom::Retain(n) => Atom::Retain((n - m) as nat),
        Atom::Insert(t) => Atom::Insert(t.skip(m as int)),
        Atom::Delete(n) => Atom::Delete((n - m) as nat),
    }
}

/// The span of the head atom that the other side of a two-pointer walk
/// sees: the inserted text on the result side, else the base characters.
pub open spec fn span(a: Atom) -> nat {
    match a {
        Atom::Insert(t) => t.len(),
        _ => consumed(a),
    }
}

/// A stream after `m` characters of its head atom, of span `l`, are used.
pub open spec fn advance(x: Seq<Atom>, m: nat, l: nat) -> Seq<Atom> {
    if l > m {
        seq![cut(x[0], m)] + x.skip(1)
    } else {
        x.skip(1)
    }
}

/// Builds the inverse of `x` over the base `b`, after `acc`.
pub open spec fn invert_go(acc: Seq<Atom>, x: Seq<Atom>, b: Seq<char>) -> Seq<Atom>
    decreases x.len(),
{
    if x.len() == 0 {
        acc
    } else {
        match x[0] {
            Atom::Retain(n) => invert_go(push_norm(acc, Atom::Retain(n)), x.skip(1), b.skip(n as int)),
            Atom::Insert(t) => invert_go(push_norm(acc, Atom::Delete(t.len())), x.skip(1), b),
            Atom::Delete(n) => invert_go(
                push_norm(acc, Atom::Insert(b.take(n as int))),
                x.skip(1),
                b.skip(n as int),
            ),
        }
    }
}

/// The inverse of `x` over the base `b`.
pub open spec fn invert_atoms(x: Seq<Atom>, b: Seq<char>) -> Seq<Atom> {
    invert_go(Seq::empty(), x, b)
}

/// Merges the rest `x` of a first edit with the rest `y` of a second,
/// after `c`. `None` when one runs out before the other.
pub open spec fn compose_go(c: Seq<Atom>, x: Seq<Atom>, y: Seq<Atom>) -> Option<Seq<Atom>>
    decreases x.len() + y.len(),
{
    if x.len() == 0 && y.len() == 0 {
        Some(c)
    } else if x.len() > 0 && x[0] is Delete {
        compose_go(push_norm(c, x[0]), x.skip(1), y)
    } else if y.len() > 0 && y[0] is Insert {
        compose_go(push_norm(c, y[0]), x, y.skip(1))
    } else if x.len() == 0 || y.len() == 0 {
        None
    } else {
        let l1 = span(x[0]);
        let l2 = span(y[0]);
        let m = least(l1, l2);
        let c2 = if x[0] is Retain {
            if y[0] is Retain {
                push_norm(c, Atom::Retain(m))
            } else {
                push_norm(c, Atom::Delete(m))
            }
        } else if y[0] is Retain {
            push_norm(c, Atom::Insert(x[0]->Insert_0.take(m as int)))
        } else {
            c
        };
        compose_go(c2, advance(x, m, l1), advance(y, m, l2))
    }
}

/// The composition of `x` then `y`.
pub open spec fn compose_atoms(x: Seq<Atom>, y: Seq<Atom>) -> Option<Seq<Atom>> {
    compose_go(Seq::empty(), x, y)
}

/// Rebases the rests `x`, `y` of two concurrent edits on each other, after
/// `a1` and `b1`. An insert of `x` goes first.
pub open spec fn transform_go(a1: Seq<Atom>, b1: Seq<Atom>, x: Seq<Atom>, y: Seq<Atom>) -> Option<
    (Seq<Atom>, Seq<Atom>),
>
    decreases x.len() + y.len(),
{
    if x.len() == 0 && y.len() == 0 {
        Some((a1, b1))
    } else if x.len() > 0 && x[0] is Insert {
        transform_go(
            push_norm(a1, x[0]),
            push_norm(b1, Atom::Retain(produced(x[0]))),
            x.skip(1),
            y,
        )
    } else if y.len() > 0 && y[0] is Insert {
        transform_go(
            push_norm(a1, Atom::Retain(produced(y[0]))),
            push_norm(b1, y[0]),
            x,
            y.skip(1),
        )
    } else if x.len() == 0 || y.len() == 0 {
        None
    } else {
        let l1 = consumed(x[0]);
        let l2 = consumed(y[0]);
        let m = least(l1, l2);
        let a2 = if y[0] is Retain {
            if x[0] is Retain {
                push_norm(a1, Atom::Retain(m))
            } else {
                push_norm(a1, Atom::Delete(m))
            }
        } else {
            a1
        };
        let b2 = if x[0] is Retain {
            if y[0] is Retain {
                push_norm(b1, Atom::Retain(m))
            } else {
                push_norm(b1, Atom::Delete(m))
            }
        } else {
            b1
        };
        transform_go(a2, b2, advance(x, m, l1), advance(y, m, l2))
    }
}

/// The pair of rebased edits for `x` and `y` over one base.
pub open spec fn transform_atoms(x: Seq<Atom>, y: Seq<Atom>) -> Option<(Seq<Atom>, Seq<Atom>)> {
    transform_go(Seq::empty(), Seq::empty(), x, y)
}

pub proof fn lemma_advance_lens(x: Seq<Atom>, m: nat)
    requires
        x.len() > 0,
        m <= span(x[0]),
    ensures
        base_len(advance(x, m, span(x[0]))) == base_len(x) - (if x[0] is Insert {
            0
        } else {
            m
        }),
        after_len(advance(x, m, span(x[0]))) == after_len(x) - (if x[0] is Delete {
            0
        } else {
            m
        }),
        advance(x, m, span(x[0])).len() <= x.len(),
        m == span(x[0]) ==> advance(x, m, span(x[0])).len() < x.len(),
        all_nonzero(x) ==> all_nonzero(advance(x, m, span(x[0]))),
{
    let l = span(x[0]);
    let r = x.skip(1);
    lemma_cons(x[0], r);
    assert(seq![x[0]] + r =~= x);
    if l > m {
        lemma_cons(cut(x[0], m), r);
        if all_nonzero(x) {
            let y = advance(x, m, l);
            assert forall|i: int| 0 <= i < y.len() implies #[trigger] nonzero(y[i]) by {
                if i > 0 {
                    assert(y[i] == x[i]);
                }
            }
        }
    } else {
        if all_nonzero(x) {
            assert forall|i: int| 0 <= i < r.len() implies #[trigger] nonzero(r[i]) by {
                assert(r[i] == x[i + 1]);
            }
        }
    }
}

/// What the first `m` characters of the head of a stream contribute.
pub proof fn lemma_advance_apply(x: Seq<Atom>, m: nat, t: Seq<char>)
    requires
        x.len() > 0,
        m <= span(x[0]),
        base_len(x) <= t.len(),
    ensures
        x[0] is Retain ==> apply_atoms(x, t) == t.take(m as int) + apply_atoms(
            advance(x, m, span(x[0])),
            t.skip(m as int),
        ),
        x[0] is Insert ==> apply_atoms(x, t) == x[0]->Insert_0.take(m as int) + apply_atoms(
            advance(x, m, span(x[0])),
            t,
        ),
        x[0] is Delete ==> apply_atoms(x, t) == apply_atoms(
            advance(x, m, span(x[0])),
            t.skip(m as int),
        ),
{
    let l = span(x[0]);
    let r = x.skip(1);
    lemma_cons(x[0], r);
    if l > m {
        let a = cut(x[0], m);
        lemma_cons(a, r);
        let y = seq![a] + r;
        match x[0] {
            Atom::Retain(n) => {
                assert(t.take(n as int) =~= t.take(m as int) + t.skip(m as int).take(
                    (n - m) as int,
                ));
                assert(t.skip(m as int).skip((n - m) as int) =~= t.skip(n as int));
                assert(apply_atoms(x, t) =~= t.take(m as int) + apply_atoms(y, t.skip(m as int)));
            },
            Atom::Insert(s) => {
                assert(s =~= s.take(m as int) + s.skip(m as int));
                assert(apply_atoms(x, t) =~= s.take(m as int) + apply_atoms(y, t));
            },
            Atom::Delete(n) => {
                assert(t.skip(m as int).skip((n - m) as int) =~= t.skip(n as int));
            },
        }
    } else {
        match x[0] {
            Atom::Insert(s) => {
                assert(s.take(m as int) =~= s);
            },
            _ => {},
        }
    }
}

/// The inverse undoes the edit.
pub proof fn lemma_invert_go_apply(
    acc: Seq<Atom>,
    x: Seq<Atom>,
    b: Seq<char>,
    w: Seq<char>,
    v: Seq<char>,
)
    requires
        w.len() == base_len(acc),
        apply_atoms(acc, w) == v,
        b.len() == base_len(x),
    ensures
        apply_atoms(invert_go(acc, x, b), w + apply_atoms(x, b)) == v + b,
        base_len(invert_go(acc, x, b)) == base_len(acc) + after_len(x),
        after_len(invert_go(acc, x, b)) == after_len(acc) + base_len(x),
    decreases x.len(),
{
    if x.len() == 0 {
        assert(w + apply_atoms(x, b) =~= w);
        assert(v + b =~= v);
    } else {
        let r = x.skip(1);
        match x[0] {
            Atom::Retain(n) => {
                let a2 = push_norm(acc, Atom::Retain(n));
                let w2 = w + b.take(n as int);
                let b2 = b.skip(n as int);
                lemma_push_lens(acc, Atom::Retain(n));
                lemma_push_apply(acc, Atom::Retain(n), w2);
                lemma_apply_extend(acc, w, b.take(n as int));
                assert(w2.skip(w.len() as int) =~= b.take(n as int));
                lemma_apply_one(Atom::Retain(n), b.take(n as int));
                assert(b.take(n as int).take(n as int) =~= b.take(n as int));
                lemma_invert_go_apply(a2, r, b2, w2, v + b.take(n as int));
                assert(w2 + apply_atoms(r, b2) =~= w + apply_atoms(x, b));
                assert(v + b.take(n as int) + b2 =~= v + b);
            },
            Atom::Insert(t) => {
                let d = Atom::Delete(t.len());
                let a2 = push_norm(acc, d);
                let w2 = w + t;
                lemma_push_lens(acc, d);
                lemma_push_apply(acc, d, w2);
                lemma_apply_extend(acc, w, t);
                assert(w2.skip(w.len() as int) =~= t);
                lemma_apply_one(d, t);
                assert(v + Seq::<char>::empty() =~= v);
                lemma_invert_go_apply(a2, r, b, w2, v);
                assert(w2 + apply_atoms(r, b) =~= w + apply_atoms(x, b));
            },
            Atom::Delete(n) => {
                let gone = b.take(n as int);
                let ins = Atom::Insert(gone);
                let a2 = push_norm(acc, ins);
                let b2 = b.skip(n as int);
                lemma_push_lens(acc, ins);
                lemma_push_apply(acc, ins, w);
                lemma_apply_one(ins, w.skip(w.len() as int));
                lemma_invert_go_apply(a2, r, b2, w, v + gone);
                assert(v + gone + b2 =~= v + b);
            },
        }
    }
}

/// Running the composition equals running the two edits in turn.
#[verifier::rlimit(80)]
pub proof fn lemma_compose_go_apply(
    c: Seq<Atom>,
    x: Seq<Atom>,
    y: Seq<Atom>,
    u: Seq<char>,
    t: Seq<char>,
)
    requires
        compose_go(c, x, y) is Some,
        after_len(x) == base_len(y),
        u.len() == base_len(c),
        t.len() == base_len(x),
    ensures
        apply_atoms(compose_go(c, x, y)->Some_0, u + t) == apply_atoms(c, u) + apply_atoms(
            y,
            apply_atoms(x, t),
        ),
    decreases x.len() + y.len(),
{
    if x.len() == 0 && y.len() == 0 {
        assert(u + t =~= u);
        assert(apply_atoms(c, u) + Seq::<char>::empty() =~= apply_atoms(c, u));
    } else if x.len() > 0 && x[0] is Delete {
        let n = x[0]->Delete_0;
        let c2 = push_norm(c, x[0]);
        let u2 = u + t.take(n as int);
        let t2 = t.skip(n as int);
        lemma_cons(x[0], x.skip(1));
        assert(seq![x[0]] + x.skip(1) =~= x);
        lemma_push_lens(c, x[0]);
        lemma_push_apply(c, x[0], u2);
        lemma_apply_one(x[0], u2.skip(u.len() as int));
        lemma_apply_extend(c, u, t.take(n as int));
        assert(apply_atoms(c, u2) + Seq::<char>::empty() =~= apply_atoms(c, u2));
        lemma_compose_go_apply(c2, x.skip(1), y, u2, t2);
        assert(u2 + t2 =~= u + t);
    } else if y.len() > 0 && y[0] is Insert {
        let s = y[0]->Insert_0;
        let c2 = push_norm(c, y[0]);
        lemma_cons(y[0], y.skip(1));
        assert(seq![y[0]] + y.skip(1) =~= y);
        lemma_push_lens(c, y[0]);
        lemma_push_apply(c, y[0], u);
        lemma_apply_one(y[0], u.skip(u.len() as int));
        lemma_compose_go_apply(c2, x, y.skip(1), u, t);
        let w = apply_atoms(x, t);
        assert(apply_atoms(y, w) == s + apply_atoms(y.skip(1), w));
        assert(apply_atoms(c, u) + s + apply_atoms(y.skip(1), w) =~= apply_atoms(c, u) + (s
            + apply_atoms(y.skip(1), w)));
    } else {
        lemma_cons(x[0], x.skip(1));
        lemma_cons(y[0], y.skip(1));
        assert(seq![x[0]] + x.skip(1) =~= x);
        assert(seq![y[0]] + y.skip(1) =~= y);
        let l1 = span(x[0]);
        let l2 = span(y[0]);
        let m = least(l1, l2);
        let x2 = advance(x, m, l1);
        let y2 = advance(y, m, l2);
        lemma_advance_lens(x, m);
        lemma_advance_lens(y, m);
        lemma_advance_apply(x, m, t);
        let p = if x[0] is Retain {
            t.take(m as int)
        } else {
            x[0]->Insert_0.take(m as int)
        };
        let t2 = if x[0] is Retain {
            t.skip(m as int)
        } else {
            t
        };
        let w2 = apply_atoms(x2, t2);
        let w = apply_atoms(x, t);
        assert(w == p + w2);
        lemma_apply_len(x, t);
        lemma_advance_apply(y, m, w);
        assert((p + w2).take(m as int) =~= p);
        assert((p + w2).skip(m as int) =~= w2);
        let c2 = if x[0] is Retain {
            if y[0] is Retain {
                push_norm(c, Atom::Retain(m))
            } else {
                push_norm(c, Atom::Delete(m))
            }
        } else if y[0] is Retain {
            push_norm(c, Atom::Insert(p))
        } else {
            c
        };
        let u2 = if x[0] is Retain {
            u + t.take(m as int)
        } else {
            u
        };
        if x[0] is Retain {
            assert(t.take(m as int) + t.skip(m as int) =~= t);
        }
        assert(u2 + t2 =~= u + t);
        // what the new prefix of the result reads
        if x[0] is Retain {
            let e = if y[0] is Retain {
                Atom::Retain(m)
            } else {
                Atom::Delete(m)
            };
            lemma_push_lens(c, e);
            lemma_push_apply(c, e, u2);
            assert(u2.skip(u.len() as int) =~= t.take(m as int));
            lemma_apply_one(e, t.take(m as int));
            lemma_apply_extend(c, u, t.take(m as int));
            assert(t.take(m as int).take(m as int) =~= t.take(m as int));
            if y[0] is Retain {
                assert(apply_atoms(c2, u2) == apply_atoms(c, u) + p);
            } else {
                assert(apply_atoms(c2, u2) =~= apply_atoms(c, u));
            }
        } else if y[0] is Retain {
            lemma_push_lens(c, Atom::Insert(p));
            lemma_push_apply(c, Atom::Insert(p), u);
            lemma_apply_one(Atom::Insert(p), u.skip(u.len() as int));
        }
        lemma_compose_go_apply(c2, x2, y2, u2, t2);
        if y[0] is Retain {
            assert(apply_atoms(c, u) + p + apply_atoms(y2, w2) =~= apply_atoms(c, u) + (p
                + apply_atoms(y2, w2)));
        }
    }
}

/// Both orders of the rebased edits read and write the same text.
#[verifier::rlimit(80)]
pub proof fn lemma_transform_go_apply(
    a1: Seq<Atom>,
    b1: Seq<Atom>,
    x: Seq<Atom>,
    y: Seq<Atom>,
    ua: Seq<char>,
    ub: Seq<char>,
    t: Seq<char>,
)
    requires
        transform_go(a1, b1, x, y) is Some,
        ua.len() == base_len(b1),
        ub.len() == base_len(a1),
        t.len() == base_len(x),
        base_len(x) == base_len(y),
        apply_atoms(b1, ua) == apply_atoms(a1, ub),
    ensures
        apply_atoms(transform_go(a1, b1, x, y)->Some_0.1, ua + apply_atoms(x, t)) == apply_atoms(
            transform_go(a1, b1, x, y)->Some_0.0,
            ub + apply_atoms(y, t),
        ),
    decreases x.len() + y.len(),
{
    if x.len() == 0 && y.len() == 0 {
        assert(ua + apply_atoms(x, t) =~= ua);
        assert(ub + apply_atoms(y, t) =~= ub);
    } else if x.len() > 0 && x[0] is Insert {
        let s = x[0]->Insert_0;
        let rt = Atom::Retain(s.len());
        let a2 = push_norm(a1, x[0]);
        let b2 = push_norm(b1, rt);
        let ua2 = ua + s;
        lemma_cons(x[0], x.skip(1));
        assert(seq![x[0]] + x.skip(1) =~= x);
        lemma_push_lens(a1, x[0]);
        lemma_push_lens(b1, rt);
        lemma_push_apply(a1, x[0], ub);
        lemma_push_apply(b1, rt, ua2);
        lemma_apply_one(x[0], ub.skip(ub.len() as int));
        assert(ua2.skip(ua.len() as int) =~= s);
        lemma_apply_one(rt, s);
        assert(s.take(s.len() as int) =~= s);
        lemma_apply_extend(b1, ua, s);
        lemma_transform_go_apply(a2, b2, x.skip(1), y, ua2, ub, t);
        assert(ua2 + apply_atoms(x.skip(1), t) =~= ua + apply_atoms(x, t));
    } else if y.len() > 0 && y[0] is Insert {
        let s = y[0]->Insert_0;
        let rt = Atom::Retain(s.len());
        let a2 = push_norm(a1, rt);
        let b2 = push_norm(b1, y[0]);
        let ub2 = ub + s;
        lemma_cons(y[0], y.skip(1));
        assert(seq![y[0]] + y.skip(1) =~= y);
        lemma_push_lens(a1, rt);
        lemma_push_lens(b1, y[0]);
        lemma_push_apply(b1, y[0], ua);
        lemma_push_apply(a1, rt, ub2);
        lemma_apply_one(y[0], ua.skip(ua.len() as int));
        assert(ub2.skip(ub.len() as int) =~= s);
        lemma_apply_one(rt, s);
        assert(s.take(s.len() as int) =~= s);
        lemma_apply_extend(a1, ub, s);
        lemma_transform_go_apply(a2, b2, x, y.skip(1), ua, ub2, t);
        assert(ub2 + apply_atoms(y.skip(1), t) =~= ub + apply_atoms(y, t));
    } else {
        lemma_cons(x[0], x.skip(1));
        lemma_cons(y[0], y.skip(1));
        assert(seq![x[0]] + x.skip(1) =~= x);
        assert(seq![y[0]] + y.skip(1) =~= y);
        let l1 = consumed(x[0]);
        let l2 = consumed(y[0]);
        let m = least(l1, l2);
        let x2 = advance(x, m, l1);
        let y2 = advance(y, m, l2);
        lemma_advance_lens(x, m);
        lemma_advance_lens(y, m);
        lemma_advance_apply(x, m, t);
        lemma_advance_apply(y, m, t);
        let p = t.take(m as int);
        let t2 = t.skip(m as int);
        let ua2 = if x[0] is Retain {
            ua + p
        } else {
            ua
        };
        let ub2 = if y[0] is Retain {
            ub + p
        } else {
            ub
        };
        let a2 = if y[0] is Retain {
            if x[0] is Retain {
                push_norm(a1, Atom::Retain(m))
            } else {
                push_norm(a1, Atom::Delete(m))
            }
        } else {
            a1
        };
        let b2 = if x[0] is Retain {
            if y[0] is Retain {
                push_norm(b1, Atom::Retain(m))
            } else {
                push_norm(b1, Atom::Delete(m))
            }
        } else {
            b1
        };
        assert(p.take(m as int) =~= p);
        if y[0] is Retain {
            let e = if x[0] is Retain {
                Atom::Retain(m)
            } else {
                Atom::Delete(m)
            };
            lemma_push_lens(a1, e);
            lemma_push_apply(a1, e, ub2);
            assert(ub2.skip(ub.len() as int) =~= p);
            lemma_apply_one(e, p);
            lemma_apply_extend(a1, ub, p);
        }
        if x[0] is Retain {
            let e = if y[0] is Retain {
                Atom::Retain(m)
            } else {
                Atom::Delete(m)
            };
            lemma_push_lens(b1, e);
            lemma_push_apply(b1, e, ua2);
            assert(ua2.skip(ua.len() as int) =~= p);
            lemma_apply_one(e, p);
            lemma_apply_extend(b1, ua, p);
        }
        assert(apply_atoms(b2, ua2) =~= apply_atoms(a2, ub2));
        lemma_transform_go_apply(a2, b2, x2, y2, ua2, ub2, t2);
        assert(ua2 + apply_atoms(x2, t2) =~= ua + apply_atoms(x, t));
        assert(ub2 + apply_atoms(y2, t2) =~= ub + apply_atoms(y, t));
    }
}

/// On normal inputs whose lengths agree, composition always succeeds.
#[verifier::rlimit(40)]
pub proof fn lemma_compose_go_some(c: Seq<Atom>, x: Seq<Atom>, y: Seq<Atom>)
    requires
        normal(c),
        all_nonzero(x),
        all_nonzero(y),
        after_len(x) == base_len(y),
    ensures
        compose_go(c, x, y) is Some,
        normal(compose_go(c, x, y)->Some_0),
        base_len(compose_go(c, x, y)->Some_0) == base_len(c) + base_len(x),
        after_len(compose_go(c, x, y)->Some_0) == after_len(c) + after_len(y),
    decreases x.len() + y.len(),
{
    if x.len() > 0 {
        lemma_cons(x[0], x.skip(1));
        assert(seq![x[0]] + x.skip(1) =~= x);
        assert(nonzero(x[0]));
    }
    if y.len() > 0 {
        lemma_cons(y[0], y.skip(1));
        assert(seq![y[0]] + y.skip(1) =~= y);
        assert(nonzero(y[0]));
    }
    if x.len() == 0 && y.len() == 0 {
    } else if x.len() > 0 && x[0] is Delete {
        lemma_advance_lens(x, span(x[0]));
        lemma_push_lens(c, x[0]);
        lemma_push_normal(c, x[0]);
        lemma_compose_go_some(push_norm(c, x[0]), x.skip(1), y);
    } else if y.len() > 0 && y[0] is Insert {
        lemma_advance_lens(y, span(y[0]));
        lemma_push_lens(c, y[0]);
        lemma_push_normal(c, y[0]);
        lemma_compose_go_some(push_norm(c, y[0]), x, y.skip(1));
    } else if x.len() == 0 || y.len() == 0 {
    } else {
        let l1 = span(x[0]);
        let l2 = span(y[0]);
        let m = least(l1, l2);
        lemma_advance_lens(x, m);
        lemma_advance_lens(y, m);
        let e = if x[0] is Retain {
            if y[0] is Retain {
                Atom::Retain(m)
            } else {
                Atom::Delete(m)
            }
        } else {
            Atom::Insert(x[0]->Insert_0.take(m as int))
        };
        lemma_push_lens(c, e);
        lemma_push_normal(c, e);
        let c2 = if x[0] is Insert && y[0] is Delete {
            c
        } else {
            push_norm(c, e)
        };
        lemma_compose_go_some(c2, advance(x, m, l1), advance(y, m, l2));
    }
}

/// On normal inputs over one base, transform always succeeds.
#[verifier::rlimit(40)]
pub proof fn lemma_transform_go_some(a1: Seq<Atom>, b1: Seq<Atom>, x: Seq<Atom>, y: Seq<Atom>)
    requires
        normal(a1),
        normal(b1),
        all_nonzero(x),
        all_nonzero(y),
        base_len(x) == base_len(y),
    ensures
        transform_go(a1, b1, x, y) is Some,
        normal(transform_go(a1, b1, x, y)->Some_0.0),
        normal(transform_go(a1, b1, x, y)->Some_0.1),
        base_len(transform_go(a1, b1, x, y)->Some_0.0) == base_len(a1) + after_len(y),
        base_len(transform_go(a1, b1, x, y)->Some_0.1) == base_len(b1) + after_len(x),
        after_len(transform_go(a1, b1, x, y)->Some_0.0) + after_len(b1) == after_len(
            transform_go(a1, b1, x, y)->Some_0.1,
        ) + after_len(a1),
    decreases x.len() + y.len(),
{
    if x.len() > 0 {
        lemma_cons(x[0], x.skip(1));
        assert(seq![x[0]] + x.skip(1) =~= x);
        assert(nonzero(x[0]));
    }
    if y.len() > 0 {
        lemma_cons(y[0], y.skip(1));
        assert(seq![y[0]] + y.skip(1) =~= y);
        assert(nonzero(y[0]));
    }
    if x.len() == 0 && y.len() == 0 {
    } else if x.len() > 0 && x[0] is Insert {
        let rt = Atom::Retain(produced(x[0]));
        lemma_advance_lens(x, span(x[0]));
        lemma_push_lens(a1, x[0]);
        lemma_push_normal(a1, x[0]);
        lemma_push_lens(b1, rt);
        lemma_push_normal(b1, rt);
        lemma_transform_go_some(push_norm(a1, x[0]), push_norm(b1, rt), x.skip(1), y);
    } else if y.len() > 0 && y[0] is Insert {
        let rt = Atom::Retain(produced(y[0]));
        lemma_advance_lens(y, span(y[0]));
        lemma_push_lens(a1, rt);
        lemma_push_normal(a1, rt);
        lemma_push_lens(b1, y[0]);
        lemma_push_normal(b1, y[0]);
        lemma_transform_go_some(push_norm(a1, rt), push_norm(b1, y[0]), x, y.skip(1));
    } else if x.len() == 0 || y.len() == 0 {
    } else {
        let l1 = consumed(x[0]);
        let l2 = consumed(y[0]);
        let m = least(l1, l2);
        lemma_advance_lens(x, m);
        lemma_advance_lens(y, m);
        let ea = if x[0] is Retain {
            Atom::Retain(m)
        } else {
            Atom::Delete(m)
        };
        let eb = if y[0] is Retain {
            Atom::Retain(m)
        } else {
            Atom::Delete(m)
        };
        lemma_push_lens(a1, ea);
        lemma_push_normal(a1, ea);
        lemma_push_lens(b1, eb);
        lemma_push_normal(b1, eb);
        let a2 = if y[0] is Retain {
            push_norm(a1, ea)
        } else {
            a1
        };
        let b2 = if x[0] is Retain {
            push_norm(b1, eb)
        } else {
            b1
        };
        lemma_transform_go_some(a2, b2, advance(x, m, l1), advance(y, m, l2));
    }
}

} // verus!
