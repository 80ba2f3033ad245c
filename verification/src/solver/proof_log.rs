//! The lines of DRAT proofs: an added clause is written as its literals' DIMACS numbers
//! followed by `0`, a deleted one the same way after `d `.
use vstd::prelude::*;
use crate::literal::{Literal, max_var};
use crate::parser::text::{push_char, push_signed_decimal, signed_decimal};

verus! {

/// The DIMACS number of a literal: its variable, negated for a negative literal.
pub fn lit_to_dimacs(lit: Literal) -> (d: i32)
    requires
        lit.var_of() < max_var(),
    ensures
        d == lit.dimacs(),
{
    let var = lit.variable().index() as i32;
    if lit.is_positive() {
        var
    } else {
        -var
    }
}

/// The DIMACS numbers of `lits`, each followed by a space.
pub open spec fn numbers_text(lits: Seq<Literal>) -> Seq<char>
    decreases lits.len(),
{
    if lits.len() == 0 {
        Seq::empty()
    } else {
        numbers_text(lits.drop_last()) + signed_decimal(lits.last().dimacs()) + seq![' ']
    }
}

/// The DRAT line of the clause `lits`: `d ` first for a deletion, then the literals'
/// numbers, `0` and a line break.
pub open spec fn drat_text(lits: Seq<Literal>, deletion: bool) -> Seq<char> {
    (if deletion { seq!['d', ' '] } else { Seq::empty() }) + numbers_text(lits) + seq!['0', '\n']
}

/// The DRAT line that adds (or, with `deletion`, deletes) the clause `lits`.
pub fn drat_line(lits: &[Literal], deletion: bool) -> (s: String)
    requires
        forall|i: int| 0 <= i < lits@.len() ==> (#[trigger] lits@[i]).var_of() < max_var(),
    ensures
        s@ == drat_text(lits@, deletion),
{
    let mut s = String::new();
    if deletion {
        push_char(&mut s, 'd');
        push_char(&mut s, ' ');
    }
    let ghost start = s@;
    let n = lits.len();
    let mut i: usize = 0;
    while i < n
        invariant
            n == lits@.len(),
            i <= n,
            forall|j: int| 0 <= j < lits@.len() ==> (#[trigger] lits@[j]).var_of() < max_var(),
            start == (if deletion { seq!['d', ' '] } else { Seq::<char>::empty() }),
            s@ == start + numbers_text(lits@.take(i as int)),
        decreases n - i,
    {
        let ghost before = s@;
        let lit = lits[i];
        push_signed_decimal(&mut s, lit_to_dimacs(lit));
        push_char(&mut s, ' ');
        proof {
            let t = lits@.take(i + 1);
            assert(t.drop_last() =~= lits@.take(i as int));
            assert(s@ =~= before + signed_decimal(lit.dimacs()) + seq![' ']);
        }
        i = i + 1;
    }
    assert(lits@.take(n as int) =~= lits@);
    push_char(&mut s, '0');
    push_char(&mut s, '\n');
    s
}

} // verus!
