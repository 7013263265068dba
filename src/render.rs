//! The human-readable form of operations: `(3->5){retain(1).insert("a")}`.
use crate::atoms::Atom;
use vstd::prelude::*;
use vstd::string::*;

verus! {

pub open spec fn digit(d: nat) -> char {
    if d == 0 {
        '0'
    } else if d == 1 {
        '1'
    } else if d == 2 {
        '2'
    } else if d == 3 {
        '3'
    } else if d == 4 {
        '4'
    } else if d == 5 {
        '5'
    } else if d == 6 {
        '6'
    } else if d == 7 {
        '7'
    } else if d == 8 {
        '8'
    } else {
        '9'
    }
}

/// The decimal digits of `n`, most significant first.
pub open spec fn decimal(n: nat) -> Seq<char>
    decreases n,
{
    if n < 10 {
        seq![digit(n)]
    } else {
        decimal(n / 10) + seq![digit(n % 10)]
    }
}

/// `s` with every `"` written as `\"`.
pub open spec fn escaped(s: Seq<char>) -> Seq<char>
    decreases s.len(),
{
    if s.len() == 0 {
        Seq::empty()
    } else {
        (if s[0] == '"' {
            seq!['\\', '"']
        } else {
            seq![s[0]]
        }) + escaped(s.skip(1))
    }
}

/// The text of one atom: `retain(n)`, `insert("...")` or `delete(n)`.
pub open spec fn atom_text(a: Atom) -> Seq<char> {
    match a {
        Atom::Retain(n) => "retain("@ + decimal(n) + ")"@,
        Atom::Insert(t) => "insert(\""@ + escaped(t) + "\")"@,
        Atom::Delete(n) => "delete("@ + decimal(n) + ")"@,
    }
}

/// The atoms' texts joined by `.`.
pub open spec fn atoms_text(s: Seq<Atom>) -> Seq<char>
    decreases s.len(),
{
    if s.len() == 0 {
        Seq::empty()
    } else if s.len() == 1 {
        atom_text(s[0])
    } else {
        atoms_text(s.drop_last()) + "."@ + atom_text(s.last())
    }
}

/// The whole operation: `(base->after){atoms}`.
pub open spec fn operation_text(s: Seq<Atom>, base: nat, after: nat) -> Seq<char> {
    "("@ + decimal(base) + "->"@ + decimal(after) + "){"@ + atoms_text(s) + "}"@
}

fn digit_str(d: usize) -> (r: &'static str)
    requires
        d < 10,
    ensures
        r@ == seq![digit(d as nat)],
{
    proof {
        reveal_strlit("0");
        reveal_strlit("1");
        reveal_strlit("2");
        reveal_strlit("3");
        reveal_strlit("4");
        reveal_strlit("5");
        reveal_strlit("6");
        reveal_strlit("7");
        reveal_strlit("8");
        reveal_strlit("9");
    }
    let r = if d == 0 {
        "0"
    } else if d == 1 {
        "1"
    } else if d == 2 {
        "2"
    } else if d == 3 {
        "3"
    } else if d == 4 {
        "4"
    } else if d == 5 {
        "5"
    } else if d == 6 {
        "6"
    } else if d == 7 {
        "7"
    } else if d == 8 {
        "8"
    } else {
        "9"
    };
    assert(r@ =~= seq![digit(d as nat)]);
    r
}

/// Appends the decimal digits of `n`.
pub fn push_decimal(buf: &mut String, n: usize)
    ensures
        final(buf)@ == old(buf)@ + decimal(n as nat),
    decreases n,
{
    if n >= 10 {
        push_decimal(buf, n / 10);
    }
    buf.append(digit_str(n % 10));
    assert(buf@ =~= old(buf)@ + decimal(n as nat));
}

/// Appends `s` with its quotes escaped.
pub fn push_escaped(buf: &mut String, s: &str)
    ensures
        final(buf)@ == old(buf)@ + escaped(s@),
{
    let len = s.unicode_len();
    let mut i: usize = 0;
    assert(s@.skip(0) =~= s@);
    assert(buf@ + Seq::<char>::empty() =~= buf@);
    while i < len
        invariant
            len == s@.len(),
            i <= len,
            buf@ + escaped(s@.skip(i as int)) == old(buf)@ + escaped(s@),
        decreases len - i,
    {
        let ghost before = buf@;
        proof {
            reveal_strlit("\\\"");
        }
        let c = s.get_char(i);
        assert(s@.skip(i as int)[0] == c);
        if c == '"' {
            buf.append("\\\"");
        } else {
            buf.append(s.substring_char(i, i + 1));
        }
        assert(s@.skip(i as int).skip(1) =~= s@.skip(i + 1));
        assert(s@.subrange(i as int, i + 1) =~= seq![c]);
        assert(buf@ + escaped(s@.skip(i + 1)) =~= before + escaped(s@.skip(i as int)));
        i = i + 1;
    }
}

} // verus!
