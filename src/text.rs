use crate::algebra::{
    compose_atoms, compose_go, invert_atoms, invert_go, lemma_advance_lens,
    lemma_compose_go_apply, lemma_invert_go_apply, lemma_transform_go_apply, transform_atoms,
    transform_go,
};
use crate::atoms::{
    after_len, all_nonzero, apply_atoms, base_len, lemma_apply_len, lemma_atom_le, lemma_cons,
    lemma_push_lens, lemma_push_normal, lemma_skip_step, nonzero, normal, push_norm, Atom,
};
use crate::error::OperationError;
use crate::history::{composable, composable_inverted, first_cursor_of, noop, simple_of};
use crate::operation::{atoms_of, fetch, stream, Operation};
use crate::render::{atoms_text, operation_text, push_decimal};
use vstd::prelude::*;
use vstd::string::*;

verus! {

/// An edit from one plain-text document to another: a sequence of atoms in
/// normal form, with the lengths of the documents before and after.
#[derive(Debug)]
pub struct TextOperation {
    ops: Vec<Operation>,
    base_length: usize,
    after_length: usize,
}

impl View for TextOperation {
    type V = Seq<Atom>;

    closed spec fn view(&self) -> Seq<Atom> {
        atoms_of(self.ops@)
    }
}

impl TextOperation {
    /// The atoms are in normal form and the two counters agree with them.
    pub closed spec fn wf(&self) -> bool {
        &&& normal(self@)
        &&& self.base_length == base_len(self@)
        &&& self.after_length == after_len(self@)
    }

    /// The two length counters as stored.
    pub closed spec fn counters(&self) -> (nat, nat) {
        (self.base_length as nat, self.after_length as nat)
    }

    /// The empty operation.
    pub fn new() -> (r: TextOperation)
        ensures
            r.wf(),
            r@ == Seq::<Atom>::empty(),
    {
        let r = TextOperation { ops: Vec::new(), base_length: 0, after_length: 0 };
        assert(r@ =~= Seq::<Atom>::empty());
        r
    }

    /// Length of the documents this operation applies to.
    pub fn base_length(&self) -> (r: usize)
        requires
            self.wf(),
        ensures
            r == base_len(self@),
    {
        self.base_length
    }

    /// Length of the documents this operation produces.
    pub fn after_length(&self) -> (r: usize)
        requires
            self.wf(),
        ensures
            r == after_len(self@),
    {
        self.after_length
    }

    /// Keeps the next `n` characters; a run of retains is merged.
    pub fn retain(&mut self, n: usize) -> (r: &mut TextOperation)
        requires
            old(self).wf(),
            base_len(old(self)@) + n <= usize::MAX,
            after_len(old(self)@) + n <= usize::MAX,
        ensures
            r.wf(),
            r@ == push_norm(old(self)@, Atom::Retain(n as nat)),
            base_len(r@) == base_len(old(self)@) + n,
            after_len(r@) == after_len(old(self)@) + n,
            *final(self) == *final(r),
    {
        proof {
            lemma_push_lens(self@, Atom::Retain(n as nat));
            lemma_push_normal(self@, Atom::Retain(n as nat));
        }
        if n == 0 {
            return self;
        }
        self.base_length = self.base_length + n;
        self.after_length = self.after_length + n;
        let len = self.ops.len();
        let mut last: Option<usize> = None;
        if len > 0 {
            if let Operation::Retain(k) = &self.ops[len - 1] {
                last = Some(*k);
            }
        }
        match last {
            Some(k) => {
                proof {
                    lemma_atom_le(self@, len - 1);
                }
                self.ops.set(len - 1, Operation::Retain(k + n));
            },
            None => {
                self.ops.push(Operation::Retain(n));
            },
        }
        assert(self@ =~= push_norm(old(self)@, Atom::Retain(n as nat)));
        self
    }

    /// Removes the next `n` characters; a run of deletes is merged.
    pub fn delete(&mut self, n: usize) -> (r: &mut TextOperation)
        requires
            old(self).wf(),
            base_len(old(self)@) + n <= usize::MAX,
        ensures
            r.wf(),
            r@ == push_norm(old(self)@, Atom::Delete(n as nat)),
            base_len(r@) == base_len(old(self)@) + n,
            after_len(r@) == after_len(old(self)@) + 0,
            *final(self) == *final(r),
    {
        proof {
            lemma_push_lens(self@, Atom::Delete(n as nat));
            lemma_push_normal(self@, Atom::Delete(n as nat));
        }
        if n == 0 {
            return self;
        }
        self.base_length = self.base_length + n;
        let len = self.ops.len();
        let mut last: Option<usize> = None;
        if len > 0 {
            if let Operation::Delete(k) = &self.ops[len - 1] {
                last = Some(*k);
            }
        }
        match last {
            Some(k) => {
                proof {
                    lemma_atom_le(self@, len - 1);
                }
                self.ops.set(len - 1, Operation::Delete(k + n));
            },
            None => {
                self.ops.push(Operation::Delete(n));
            },
        }
        assert(self@ =~= push_norm(old(self)@, Atom::Delete(n as nat)));
        self
    }

    /// Writes `s` at the current position. Consecutive inserts are merged,
    /// and an insert is always placed before a delete it follows.
    pub fn insert(&mut self, s: &str) -> (r: &mut TextOperation)
        requires
            old(self).wf(),
            after_len(old(self)@) + s@.len() <= usize::MAX,
        ensures
            r.wf(),
            r@ == push_norm(old(self)@, Atom::Insert(s@)),
            base_len(r@) == base_len(old(self)@) + 0,
            after_len(r@) == after_len(old(self)@) + s@.len(),
            *final(self) == *final(r),
    {
        proof {
            lemma_push_lens(self@, Atom::Insert(s@));
            lemma_push_normal(self@, Atom::Insert(s@));
        }
        let cnt = s.unicode_len();
        if cnt == 0 {
            return self;
        }
        self.after_length = self.after_length + cnt;
        let len = self.ops.len();
        // `merged` is the extended text of an insert at `at` (the last atom,
        // or the one before a trailing delete); `del` is the count of a
        // trailing delete the new insert must slip in before
        let mut merged: Option<String> = None;
        let mut at: usize = 0;
        let mut del: usize = 0;
        if len > 0 {
            match &self.ops[len - 1] {
                Operation::Insert(t) => {
                    let mut t2 = t.clone();
                    t2.append(s);
                    merged = Some(t2);
                    at = len - 1;
                },
                Operation::Delete(k) => {
                    assert(nonzero(self@[len - 1]));
                    del = *k;
                    if len > 1 {
                        if let Operation::Insert(t) = &self.ops[len - 2] {
                            let mut t2 = t.clone();
                            t2.append(s);
                            merged = Some(t2);
                            at = len - 2;
                        }
                    }
                },
                Operation::Retain(_) => {},
            }
        }
        match merged {
            Some(t2) => {
                self.ops.set(at, Operation::Insert(t2));
            },
            None => {
                if del > 0 {
                    self.ops.set(len - 1, Operation::Insert(String::from_str(s)));
                    self.ops.push(Operation::Delete(del));
                } else {
                    self.ops.push(Operation::Insert(String::from_str(s)));
                }
            },
        }
        assert(self@ =~= push_norm(old(self)@, Atom::Insert(s@)));
        self
    }

    /// Runs the operation over `base` and returns the edited text.
    pub fn apply(&self, base: &str) -> (r: Result<String, OperationError>)
        requires
            self.wf(),
        ensures
            base@.len() != base_len(self@) ==> r == Err::<String, OperationError>(
                OperationError::OperationApplyStringNotCompatible,
            ),
            base@.len() == base_len(self@) ==> (r matches Ok(out) && out@ == apply_atoms(
                self@,
                base@,
            ) && out@.len() == after_len(self@)),
    {
        let n_base = base.unicode_len();
        if n_base != self.base_length {
            return Err(OperationError::OperationApplyStringNotCompatible);
        }
        let mut buffer = String::new();
        let mut cursor: usize = 0;
        let mut i: usize = 0;
        assert(self@.skip(0) =~= self@);
        assert(base@.skip(0) =~= base@);
        while i < self.ops.len()
            invariant
                self.wf(),
                n_base == base@.len(),
                n_base == base_len(self@),
                0 <= i <= self.ops.len(),
                cursor + base_len(self@.skip(i as int)) == n_base,
                buffer@ + apply_atoms(self@.skip(i as int), base@.skip(cursor as int))
                    == apply_atoms(self@, base@),
            decreases self.ops.len() - i,
        {
            proof {
                lemma_skip_step(self@, i as int);
            }
            let ghost rest = base@.skip(cursor as int);
            match &self.ops[i] {
                Operation::Retain(n) => {
                    let n = *n;
                    if n > n_base - cursor {
                        return Err(OperationError::OperationMoreLeftString);
                    }
                    let piece = base.substring_char(cursor, cursor + n);
                    buffer.append(piece);
                    cursor = cursor + n;
                    assert(rest.take(n as int) =~= piece@);
                },
                Operation::Insert(t) => {
                    buffer.append(t.as_str());
                },
                Operation::Delete(n) => {
                    let n = *n;
                    if n > n_base - cursor {
                        return Err(OperationError::OperationMoreLeftString);
                    }
                    cursor = cursor + n;
                },
            }
            assert(rest.skip((cursor - (n_base - base_len(self@.skip(i as int)))) as int)
                =~= base@.skip(cursor as int));
            i = i + 1;
        }
        assert(buffer@ =~= apply_atoms(self@, base@));
        proof {
            lemma_apply_len(self@, base@);
        }
        Ok(buffer)
    }

    /// The operation that undoes this one on `base`: applied to the result,
    /// it gives `base` back.
    pub fn invert(&self, base: &str) -> (r: Result<TextOperation, OperationError>)
        requires
            self.wf(),
        ensures
            base@.len() != base_len(self@) ==> r == Err::<TextOperation, OperationError>(
                OperationError::OperationApplyStringNotCompatible,
            ),
            base@.len() == base_len(self@) ==> (r matches Ok(inv) && inv.wf() && inv@
                == invert_atoms(self@, base@) && base_len(inv@) == after_len(self@) && after_len(
                inv@,
            ) == base_len(self@) && apply_atoms(inv@, apply_atoms(self@, base@)) == base@),
    {
        let n_base = base.unicode_len();
        if n_base != self.base_length {
            return Err(OperationError::OperationApplyStringNotCompatible);
        }
        let mut cursor: usize = 0;
        let mut i: usize = 0;
        let mut inverse = TextOperation::new();
        assert(self@.skip(0) =~= self@);
        assert(base@.skip(0) =~= base@);
        while i < self.ops.len()
            invariant
                self.wf(),
                inverse.wf(),
                n_base == base@.len(),
                n_base == base_len(self@),
                0 <= i <= self.ops.len(),
                cursor + base_len(self@.skip(i as int)) == n_base,
                base_len(inverse@) + after_len(self@.skip(i as int)) == after_len(self@),
                after_len(inverse@) == cursor,
                invert_go(inverse@, self@.skip(i as int), base@.skip(cursor as int))
                    == invert_atoms(self@, base@),
            decreases self.ops.len() - i,
        {
            proof {
                lemma_skip_step(self@, i as int);
            }
            let ghost rest = base@.skip(cursor as int);
            match &self.ops[i] {
                Operation::Retain(n) => {
                    let n = *n;
                    if n > n_base - cursor {
                        return Err(OperationError::OperationMoreLeftString);
                    }
                    inverse.retain(n);
                    cursor = cursor + n;
                    assert(rest.skip(n as int) =~= base@.skip(cursor as int));
                },
                Operation::Insert(t) => {
                    let l = t.as_str().unicode_len();
                    inverse.delete(l);
                },
                Operation::Delete(n) => {
                    let n = *n;
                    if n > n_base - cursor {
                        return Err(OperationError::OperationMoreLeftString);
                    }
                    let piece = base.substring_char(cursor, cursor + n);
                    assert(piece@ =~= rest.take(n as int));
                    inverse.insert(piece);
                    cursor = cursor + n;
                    assert(rest.skip(n as int) =~= base@.skip(cursor as int));
                },
            }
            i = i + 1;
        }
        proof {
            assert(base@.skip(cursor as int) =~= Seq::<char>::empty());
            let e = Seq::<char>::empty();
            lemma_invert_go_apply(Seq::empty(), self@, base@, e, e);
            assert(e + apply_atoms(self@, base@) =~= apply_atoms(self@, base@));
            assert(e + base@ =~= base@);
        }
        Ok(inverse)
    }

    /// One operation with the effect of this one followed by `other`.
    pub fn compose(&self, other: &TextOperation) -> (r: Result<TextOperation, OperationError>)
        requires
            self.wf(),
            other.wf(),
        ensures
            after_len(self@) != base_len(other@) ==> r == Err::<TextOperation, OperationError>(
                OperationError::SecondBaseLengthNotEqualFirstAfterLength,
            ),
            after_len(self@) == base_len(other@) ==> (r matches Ok(c) && c.wf() && compose_atoms(
                self@,
                other@,
            ) == Some(c@) && base_len(c@) == base_len(self@) && after_len(c@) == after_len(
                other@,
            ) && forall|s: Seq<char>|
                s.len() == base_len(self@) ==> #[trigger] apply_atoms(c@, s) == apply_atoms(
                    other@,
                    apply_atoms(self@, s),
                )),
    {
        if self.after_length != other.base_length {
            return Err(OperationError::SecondBaseLengthNotEqualFirstAfterLength);
        }
        let mut composed = TextOperation::new();
        let mut i: usize = 0;
        let mut j: usize = 0;
        let mut h1 = fetch(&self.ops, &mut i);
        let mut h2 = fetch(&other.ops, &mut j);
        assert(self@.skip(0) =~= self@);
        assert(other@.skip(0) =~= other@);
        loop
            invariant
                self.wf(),
                other.wf(),
                composed.wf(),
                i <= self.ops.len(),
                j <= other.ops.len(),
                all_nonzero(stream(h1, self.ops@, i as int)),
                all_nonzero(stream(h2, other.ops@, j as int)),
                after_len(stream(h1, self.ops@, i as int)) == base_len(
                    stream(h2, other.ops@, j as int),
                ),
                base_len(composed@) + base_len(stream(h1, self.ops@, i as int)) == base_len(self@),
                after_len(composed@) + after_len(stream(h2, other.ops@, j as int)) == after_len(
                    other@,
                ),
                compose_go(
                    composed@,
                    stream(h1, self.ops@, i as int),
                    stream(h2, other.ops@, j as int),
                ) == compose_atoms(self@, other@),
            ensures
                composed.wf(),
                compose_atoms(self@, other@) == Some(composed@),
                base_len(composed@) == base_len(self@),
                after_len(composed@) == after_len(other@),
            decreases stream(h1, self.ops@, i as int).len() + stream(h2, other.ops@, j as int).len(),
        {
            let ghost x = stream(h1, self.ops@, i as int);
            let ghost y = stream(h2, other.ops@, j as int);
            let ghost xr = atoms_of(self.ops@).skip(i as int);
            let ghost yr = atoms_of(other.ops@).skip(j as int);
            proof {
                if x.len() > 0 {
                    lemma_cons(x[0], xr);
                    assert(nonzero(x[0]));
                    lemma_atom_le(x, 0);
                }
                if y.len() > 0 {
                    lemma_cons(y[0], yr);
                    assert(nonzero(y[0]));
                    lemma_atom_le(y, 0);
                }
            }
            match (h1, h2) {
                (None, None) => {
                    break ;
                },
                (Some(Operation::Delete(n1)), b) => {
                    composed.delete(n1);
                    h1 = fetch(&self.ops, &mut i);
                    h2 = b;
                },
                (a, Some(Operation::Insert(s))) => {
                    composed.insert(s.as_str());
                    h1 = a;
                    h2 = fetch(&other.ops, &mut j);
                },
                (None, _) => {
                    return Err(OperationError::ComposeFirstTooShort);
                },
                (_, None) => {
                    return Err(OperationError::ComposeFirstTooLong);
                },
                (Some(a), Some(b)) => {
                    let l1 = a.span_len();
                    let l2 = b.span_len();
                    let m = if l1 < l2 {
                        l1
                    } else {
                        l2
                    };
                    proof {
                        lemma_advance_lens(x, m as nat);
                        lemma_advance_lens(y, m as nat);
                    }
                    if a.is_retain() {
                        if b.is_retain() {
                            composed.retain(m);
                        } else {
                            composed.delete(m);
                        }
                    } else if b.is_retain() {
                        if let Operation::Insert(t) = &a {
                            let piece = t.as_str().substring_char(0, m);
                            assert(piece@ =~= t@.take(m as int));
                            composed.insert(piece);
                        }
                    }
                    h1 = if l1 > m {
                        Some(a.rest_after(m))
                    } else {
                        fetch(&self.ops, &mut i)
                    };
                    h2 = if l2 > m {
                        Some(b.rest_after(m))
                    } else {
                        fetch(&other.ops, &mut j)
                    };
                },
            }
        }
        proof {
            assert forall|s: Seq<char>| s.len() == base_len(self@) implies #[trigger] apply_atoms(
                composed@,
                s,
            ) == apply_atoms(other@, apply_atoms(self@, s)) by {
                let e = Seq::<char>::empty();
                lemma_compose_go_apply(Seq::empty(), self@, other@, e, s);
                assert(e + s =~= s);
                assert(apply_atoms(Seq::<Atom>::empty(), e) =~= e);
                assert(e + apply_atoms(other@, apply_atoms(self@, s)) =~= apply_atoms(
                    other@,
                    apply_atoms(self@, s),
                ));
            }
        }
        Ok(composed)
    }

    /// Rebases two concurrent operations on one base onto each other: the
    /// first returned follows `other`, the second follows `self`, and both
    /// orders reach the same text. Where both insert at one place, the text
    /// of `self` comes first.
    pub fn transform(&self, other: &TextOperation) -> (r: Result<
        (TextOperation, TextOperation),
        OperationError,
    >)
        requires
            self.wf(),
            other.wf(),
            after_len(self@) + after_len(other@) <= usize::MAX,
        ensures
            base_len(self@) != base_len(other@) ==> r == Err::<
                (TextOperation, TextOperation),
                OperationError,
            >(OperationError::TransformBaseDifferent),
            base_len(self@) == base_len(other@) ==> (r matches Ok((a2, b2)) && a2.wf() && b2.wf()
                && transform_atoms(self@, other@) == Some((a2@, b2@)) && base_len(a2@)
                == after_len(other@) && base_len(b2@) == after_len(self@) && after_len(a2@)
                == after_len(b2@) && forall|s: Seq<char>|
                s.len() == base_len(self@) ==> #[trigger] apply_atoms(b2@, apply_atoms(self@, s))
                    == apply_atoms(a2@, apply_atoms(other@, s))),
    {
        if self.base_length != other.base_length {
            return Err(OperationError::TransformBaseDifferent);
        }
        let mut a1 = TextOperation::new();
        let mut b1 = TextOperation::new();
        let mut i: usize = 0;
        let mut j: usize = 0;
        let mut h1 = fetch(&self.ops, &mut i);
        let mut h2 = fetch(&other.ops, &mut j);
        assert(self@.skip(0) =~= self@);
        assert(other@.skip(0) =~= other@);
        loop
            invariant
                self.wf(),
                other.wf(),
                a1.wf(),
                b1.wf(),
                i <= self.ops.len(),
                j <= other.ops.len(),
                after_len(self@) + after_len(other@) <= usize::MAX,
                all_nonzero(stream(h1, self.ops@, i as int)),
                all_nonzero(stream(h2, other.ops@, j as int)),
                base_len(stream(h1, self.ops@, i as int)) == base_len(
                    stream(h2, other.ops@, j as int),
                ),
                base_len(a1@) + after_len(stream(h2, other.ops@, j as int)) == after_len(other@),
                base_len(b1@) + after_len(stream(h1, self.ops@, i as int)) == after_len(self@),
                after_len(a1@) == after_len(b1@),
                after_len(a1@) + after_len(stream(h1, self.ops@, i as int)) + after_len(
                    stream(h2, other.ops@, j as int),
                ) <= after_len(self@) + after_len(other@),
                transform_go(
                    a1@,
                    b1@,
                    stream(h1, self.ops@, i as int),
                    stream(h2, other.ops@, j as int),
                ) == transform_atoms(self@, other@),
            ensures
                a1.wf(),
                b1.wf(),
                transform_atoms(self@, other@) == Some((a1@, b1@)),
                base_len(a1@) == after_len(other@),
                base_len(b1@) == after_len(self@),
                after_len(a1@) == after_len(b1@),
            decreases stream(h1, self.ops@, i as int).len() + stream(h2, other.ops@, j as int).len(),
        {
            let ghost x = stream(h1, self.ops@, i as int);
            let ghost y = stream(h2, other.ops@, j as int);
            let ghost xr = atoms_of(self.ops@).skip(i as int);
            let ghost yr = atoms_of(other.ops@).skip(j as int);
            proof {
                if x.len() > 0 {
                    lemma_cons(x[0], xr);
                    assert(nonzero(x[0]));
                    lemma_atom_le(x, 0);
                }
                if y.len() > 0 {
                    lemma_cons(y[0], yr);
                    assert(nonzero(y[0]));
                    lemma_atom_le(y, 0);
                }
            }
            match (h1, h2) {
                (None, None) => {
                    break ;
                },
                (Some(Operation::Insert(s)), b) => {
                    let l = s.as_str().unicode_len();
                    a1.insert(s.as_str());
                    b1.retain(l);
                    h1 = fetch(&self.ops, &mut i);
                    h2 = b;
                },
                (a, Some(Operation::Insert(s))) => {
                    let l = s.as_str().unicode_len();
                    a1.retain(l);
                    b1.insert(s.as_str());
                    h1 = a;
                    h2 = fetch(&other.ops, &mut j);
                },
                (None, _) => {
                    return Err(OperationError::ComposeFirstTooShort);
                },
                (_, None) => {
                    return Err(OperationError::ComposeFirstTooLong);
                },
                (Some(a), Some(b)) => {
                    let l1 = a.span_len();
                    let l2 = b.span_len();
                    let m = if l1 < l2 {
                        l1
                    } else {
                        l2
                    };
                    proof {
                        lemma_advance_lens(x, m as nat);
                        lemma_advance_lens(y, m as nat);
                    }
                    if b.is_retain() {
                        if a.is_retain() {
                            a1.retain(m);
                        } else {
                            a1.delete(m);
                        }
                    }
                    if a.is_retain() {
                        if b.is_retain() {
                            b1.retain(m);
                        } else {
                            b1.delete(m);
                        }
                    }
                    h1 = if l1 > m {
                        Some(a.rest_after(m))
                    } else {
                        fetch(&self.ops, &mut i)
                    };
                    h2 = if l2 > m {
                        Some(b.rest_after(m))
                    } else {
                        fetch(&other.ops, &mut j)
                    };
                },
            }
        }
        proof {
            assert forall|s: Seq<char>| s.len() == base_len(self@) implies #[trigger] apply_atoms(
                b1@,
                apply_atoms(self@, s),
            ) == apply_atoms(a1@, apply_atoms(other@, s)) by {
                let e = Seq::<char>::empty();
                assert(apply_atoms(Seq::<Atom>::empty(), e) =~= e);
                lemma_transform_go_apply(Seq::empty(), Seq::empty(), self@, other@, e, e, s);
                assert(e + apply_atoms(self@, s) =~= apply_atoms(self@, s));
                assert(e + apply_atoms(other@, s) =~= apply_atoms(other@, s));
            }
        }
        Ok((a1, b1))
    }

    /// Whether applying the operation changes nothing.
    pub fn is_noop(&self) -> (r: bool)
        requires
            self.wf(),
        ensures
            r == noop(self@),
    {
        if self.ops.len() == 0 {
            true
        } else if self.ops.len() == 1 {
            self.ops[0].is_retain()
        } else {
            false
        }
    }

    /// The length of a leading retain, else 0.
    pub fn first_cursor(&self) -> (r: usize)
        requires
            self.wf(),
        ensures
            r == first_cursor_of(self@),
    {
        if self.ops.len() > 0 {
            if let Operation::Retain(n) = &self.ops[0] {
                return *n;
            }
        }
        0
    }

    /// The one significant atom, when the operation has one of the shapes
    /// `[a]`, `[retain, a]`, `[a, retain]` or `[retain, a, retain]`.
    pub fn get_simple_operation(&self) -> (r: Option<&Operation>)
        requires
            self.wf(),
        ensures
            r is Some == simple_of(self@) is Some,
            r is Some ==> r->Some_0@ == simple_of(self@)->Some_0,
    {
        let len = self.ops.len();
        if len == 1 {
            Some(&self.ops[0])
        } else if len == 2 && self.ops[0].is_retain() {
            Some(&self.ops[1])
        } else if len == 2 && self.ops[1].is_retain() {
            Some(&self.ops[0])
        } else if len == 3 && self.ops[0].is_retain() && self.ops[2].is_retain() {
            Some(&self.ops[1])
        } else {
            None
        }
    }

    /// Whether `other`, done right after this operation, continues it
    /// closely enough to be undone together with it.
    pub fn should_be_composed_with(&self, other: &TextOperation) -> (r: bool)
        requires
            self.wf(),
            other.wf(),
        ensures
            r == composable(self@, other@),
    {
        if self.is_noop() || other.is_noop() {
            return true;
        }
        let a = self.first_cursor();
        let b = other.first_cursor();
        match (self.get_simple_operation(), other.get_simple_operation()) {
            (Some(Operation::Insert(s)), Some(Operation::Insert(_))) => {
                let l = s.as_str().unicode_len();
                b >= a && b - a == l
            },
            (Some(Operation::Delete(_)), Some(Operation::Delete(d))) => {
                (a >= b && a - b == *d) || a == b
            },
            _ => false,
        }
    }

    /// Whether this operation and `other` should be merged when both are
    /// inverses taken off an undo stack: for `b` done after `a`,
    /// `a.should_be_composed_with(b)` answers as
    /// `b'.should_be_composed_with_inverted(a')` for their inverses `b'`, `a'`.
    pub fn should_be_composed_with_inverted(&self, other: &TextOperation) -> (r: bool)
        requires
            self.wf(),
            other.wf(),
        ensures
            r == composable_inverted(self@, other@),
    {
        if self.is_noop() || other.is_noop() {
            return true;
        }
        let a = self.first_cursor();
        let b = other.first_cursor();
        match (self.get_simple_operation(), other.get_simple_operation()) {
            (Some(Operation::Insert(s)), Some(Operation::Insert(_))) => {
                let l = s.as_str().unicode_len();
                (b >= a && b - a == l) || a == b
            },
            (Some(Operation::Delete(_)), Some(Operation::Delete(d))) => {
                a >= b && a - b == *d
            },
            _ => false,
        }
    }

    /// The text of the operation: `(base->after){atom.atom...}`.
    pub fn to_string(&self) -> (r: String)
        requires
            self.wf(),
        ensures
            r@ == operation_text(self@, base_len(self@), after_len(self@)),
    {
        let mut buf = String::new();
        buf.append("(");
        push_decimal(&mut buf, self.base_length);
        buf.append("->");
        push_decimal(&mut buf, self.after_length);
        buf.append("){");
        let ghost head = buf@;
        let mut i: usize = 0;
        assert(self@.take(0) =~= Seq::<Atom>::empty());
        assert(head + Seq::<char>::empty() =~= head);
        while i < self.ops.len()
            invariant
                i <= self.ops.len(),
                buf@ == head + atoms_text(self@.take(i as int)),
            decreases self.ops.len() - i,
        {
            let ghost before = buf@;
            if i > 0 {
                buf.append(".");
            }
            self.ops[i].write_to(&mut buf);
            assert(self@.take(i + 1).drop_last() =~= self@.take(i as int));
            assert(buf@ =~= head + atoms_text(self@.take(i + 1)));
            i = i + 1;
        }
        assert(self@.take(i as int) =~= self@);
        buf.append("}");
        assert(buf@ =~= operation_text(self@, base_len(self@), after_len(self@)));
        buf
    }
}

impl Default for TextOperation {
    fn default() -> (r: TextOperation)
        ensures
            r.wf(),
            r@ == Seq::<Atom>::empty(),
    {
        TextOperation::new()
    }
}

impl PartialEq for TextOperation {
    fn eq(&self, other: &TextOperation) -> (r: bool) {
        if self.base_length != other.base_length {
            return false;
        }
        if self.after_length != other.after_length {
            return false;
        }
        if self.ops.len() != other.ops.len() {
            assert(self@.len() != other@.len());
            return false;
        }
        let mut i: usize = 0;
        while i < self.ops.len()
            invariant
                i <= self.ops.len(),
                self.ops.len() == other.ops.len(),
                forall|k: int| 0 <= k < i ==> self@[k] == other@[k],
            decreases self.ops.len() - i,
        {
            if !self.ops[i].same_as(&other.ops[i]) {
                assert(self@[i as int] != other@[i as int]);
                return false;
            }
            i = i + 1;
        }
        assert(self@ =~= other@);
        true
    }
}

impl vstd::std_specs::cmp::PartialEqSpecImpl for TextOperation {
    open spec fn obeys_eq_spec() -> bool {
        true
    }

    open spec fn eq_spec(&self, other: &TextOperation) -> bool {
        self@ == other@ && self.counters() == other.counters()
    }
}

} // verus!
