//! Clauses: disjunctions of literals.
use vstd::prelude::*;
use crate::literal::Literal;
use crate::parser::text::{decimal, push_char, push_decimal};

verus! {

/// Reference to a clause: its position in the formula.
pub type ClauseRef = usize;

/// The text of a literal: `x` and its variable's number, after `~` when it is negative.
pub open spec fn literal_text(l: Literal) -> Seq<char> {
    (if l.pos() { seq!['x'] } else { seq!['~', 'x'] }) + decimal(l.var_of())
}

/// The texts of `lits` separated by ` ∨ `.
pub open spec fn disjunction_text(lits: Seq<Literal>) -> Seq<char>
    decreases lits.len(),
{
    if lits.len() == 0 {
        Seq::empty()
    } else if lits.len() == 1 {
        literal_text(lits[0])
    } else {
        disjunction_text(lits.drop_last()) + seq![' ', '∨', ' '] + literal_text(lits.last())
    }
}

/// The text of a clause: its disjunction in parentheses.
pub open spec fn clause_text(lits: Seq<Literal>) -> Seq<char> {
    seq!['('] + disjunction_text(lits) + seq![')']
}

/// A clause is a disjunction of literals.
#[derive(Debug, Clone)]
pub struct Clause {
    /// The literals of the clause.
    literals: Vec<Literal>,
    /// Whether the clause was learned (as opposed to original).
    learned: bool,
    /// Literal Block Distance, the quality measure of a learned clause.
    lbd: u32,
}

impl View for Clause {
    type V = Seq<Literal>;

    closed spec fn view(&self) -> Seq<Literal> {
        self.literals@
    }
}

impl Clause {
    /// Whether the clause was learned.
    pub closed spec fn spec_learned(&self) -> bool {
        self.learned
    }

    /// The clause's LBD score.
    pub closed spec fn spec_lbd(&self) -> u32 {
        self.lbd
    }

    /// Create an original clause.
    pub fn new(literals: Vec<Literal>) -> (c: Self)
        ensures
            c@ == literals@,
            !c.spec_learned(),
            c.spec_lbd() == 0,
    {
        Clause { literals, learned: false, lbd: 0 }
    }

    /// Create a learned clause.
    pub fn learned(literals: Vec<Literal>) -> (c: Self)
        ensures
            c@ == literals@,
            c.spec_learned(),
            c.spec_lbd() == 0,
    {
        Clause { literals, learned: true, lbd: 0 }
    }

    /// Create a learned clause with the given LBD.
    pub fn learned_with_lbd(literals: Vec<Literal>, lbd: u32) -> (c: Self)
        ensures
            c@ == literals@,
            c.spec_learned(),
            c.spec_lbd() == lbd,
    {
        Clause { literals, learned: true, lbd }
    }

    /// A copy of this clause.
    pub fn duplicate(&self) -> (c: Self)
        ensures
            c@ == self@,
            c.spec_learned() == self.spec_learned(),
            c.spec_lbd() == self.spec_lbd(),
    {
        let mut lits: Vec<Literal> = Vec::new();
        let mut k: usize = 0;
        while k < self.literals.len()
            invariant
                k <= self.literals@.len(),
                lits@ == self.literals@.take(k as int),
            decreases self.literals@.len() - k,
        {
            lits.push(self.literals[k]);
            assert(self.literals@.take(k + 1) =~= self.literals@.take(k as int).push(self.literals@[k as int]));
            k = k + 1;
        }
        assert(self.literals@.take(k as int) =~= self.literals@);
        Clause { literals: lits, learned: self.learned, lbd: self.lbd }
    }

    /// The number of literals.
    pub fn len(&self) -> (n: usize)
        ensures
            n == self@.len(),
    {
        self.literals.len()
    }

    /// Whether the clause is empty (always false).
    pub fn is_empty(&self) -> (b: bool)
        ensures
            b == (self@.len() == 0),
    {
        self.literals.len() == 0
    }

    /// Whether the clause has exactly one literal.
    pub fn is_unit(&self) -> (b: bool)
        ensures
            b == (self@.len() == 1),
    {
        self.literals.len() == 1
    }

    /// The literals.
    pub fn literals(&self) -> (s: &[Literal])
        ensures
            s@ == self@,
    {
        self.literals.as_slice()
    }

    /// Mutable access to the literals.
    pub fn literals_mut(&mut self) -> (v: &mut Vec<Literal>)
        ensures
            v@ == old(self)@,
            final(self)@ == final(v)@,
            final(self).spec_learned() == old(self).spec_learned(),
            final(self).spec_lbd() == old(self).spec_lbd(),
    {
        &mut self.literals
    }

    /// Whether the clause was learned.
    pub fn is_learned(&self) -> (b: bool)
        ensures
            b == self.spec_learned(),
    {
        self.learned
    }

    /// Mark the clause as learned or original.
    pub fn set_learned(&mut self, learned: bool)
        ensures
            final(self)@ == old(self)@,
            final(self).spec_learned() == learned,
            final(self).spec_lbd() == old(self).spec_lbd(),
    {
        self.learned = learned;
    }

    /// The LBD score.
    pub fn lbd(&self) -> (l: u32)
        ensures
            l == self.spec_lbd(),
    {
        self.lbd
    }

    /// Set the LBD score.
    pub fn set_lbd(&mut self, lbd: u32)
        ensures
            final(self)@ == old(self)@,
            final(self).spec_learned() == old(self).spec_learned(),
            final(self).spec_lbd() == lbd,
    {
        self.lbd = lbd;
    }

    /// The literal at `index`, if there is one.
    pub fn get(&self, index: usize) -> (r: Option<&Literal>)
        ensures
            index < self@.len() ==> r == Some(&self@[index as int]),
            index >= self@.len() ==> r is None,
    {
        if index < self.literals.len() {
            Some(&self.literals[index])
        } else {
            None
        }
    }

    /// The literal at `index`.
    pub fn at(&self, index: usize) -> (l: Literal)
        requires
            index < self@.len(),
        ensures
            l == self@[index as int],
    {
        self.literals[index]
    }

    /// The clause as text, such as `(x1 ∨ ~x2)`.
    pub fn to_text(&self) -> (s: String)
        ensures
            s@ == clause_text(self@),
    {
        let mut s = String::new();
        push_char(&mut s, '(');
        let n = self.literals.len();
        let mut i: usize = 0;
        while i < n
            invariant
                n == self@.len(),
                i <= n,
                s@ == seq!['('] + disjunction_text(self@.take(i as int)),
            decreases n - i,
        {
            let lit = self.literals[i];
            let ghost before = s@;
            if i > 0 {
                push_char(&mut s, ' ');
                push_char(&mut s, '∨');
                push_char(&mut s, ' ');
            }
            if lit.is_negative() {
                push_char(&mut s, '~');
            }
            push_char(&mut s, 'x');
            push_decimal(&mut s, lit.variable().index());
            proof {
                let t = self@.take(i + 1);
                assert(t.drop_last() =~= self@.take(i as int));
                assert(t.last() == lit);
                if i > 0 {
                    assert(s@ =~= before + seq![' ', '∨', ' '] + literal_text(lit));
                } else {
                    assert(self@.take(0) =~= Seq::<Literal>::empty());
                    assert(s@ =~= before + literal_text(lit));
                }
            }
            i = i + 1;
        }
        assert(self@.take(n as int) =~= self@);
        push_char(&mut s, ')');
        s
    }

    /// Swap two literals (used to maintain the watched positions).
    pub fn swap(&mut self, i: usize, j: usize)
        requires
            i < old(self)@.len(),
            j < old(self)@.len(),
        ensures
            final(self)@ == old(self)@.update(i as int, old(self)@[j as int]).update(
                j as int,
                old(self)@[i as int],
            ),
            final(self).spec_learned() == old(self).spec_learned(),
            final(self).spec_lbd() == old(self).spec_lbd(),
    {
        let a = self.literals[i];
        let b = self.literals[j];
        self.literals.set(i, b);
        self.literals.set(j, a);
    }
}

} // verus!
