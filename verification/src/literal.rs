//! Variables and literals.
//!
//! A variable is 1-indexed (DIMACS convention). A literal is encoded as
//! `2 * (var - 1) + polarity`, so that the two literals of a variable are
//! adjacent and negation flips the lowest bit.
use vstd::prelude::*;

verus! {

/// A propositional variable (1-indexed).
#[derive(Clone, Copy, PartialEq, Eq, Hash, PartialOrd, Ord, Debug, Structural)]
pub struct Variable(pub u32);

impl Variable {
    /// Create a variable with the given 1-based index.
    pub fn new(index: u32) -> (v: Self)
        requires
            index > 0,
        ensures
            v.0 == index,
    {
        Variable(index)
    }

    /// The 1-based index.
    pub fn index(&self) -> (i: u32)
        ensures
            i == self.0,
    {
        self.0
    }

    /// The 0-based index used for array access.
    pub fn to_index(&self) -> (i: usize)
        requires
            self.0 > 0,
        ensures
            i == self.0 - 1,
    {
        (self.0 - 1) as usize
    }

    /// The variable whose 0-based index is `idx`.
    pub fn from_index(idx: usize) -> (v: Self)
        requires
            idx < u32::MAX,
        ensures
            v.0 == idx + 1,
    {
        Variable((idx + 1) as u32)
    }
}

/// A literal: a variable with a polarity, encoded as `2 * (var - 1) + polarity`.
#[derive(Clone, Copy, PartialEq, Eq, Hash, Debug, Structural)]
pub struct Literal(pub u32);

impl View for Literal {
    type V = nat;

    open spec fn view(&self) -> nat {
        self.0 as nat
    }
}

/// Largest variable index whose literals fit the encoding.
pub open spec fn max_var() -> nat {
    0x8000_0000
}

impl Literal {
    /// The 1-based index of the literal's variable.
    pub open spec fn var_of(self) -> nat {
        self@ / 2 + 1
    }

    /// Whether the literal is positive.
    pub open spec fn pos(self) -> bool {
        self@ % 2 == 1
    }

    /// The code of the literal of variable `v` with polarity `positive`.
    pub open spec fn code_of(v: nat, positive: bool) -> nat {
        (2 * (v - 1) + if positive { 1int } else { 0int }) as nat
    }

    /// The literal's DIMACS number: the variable index, negated for a negative literal.
    pub open spec fn dimacs(self) -> int {
        if self.pos() { self.var_of() as int } else { -(self.var_of() as int) }
    }

    /// The code of the complementary literal.
    pub open spec fn neg_code(self) -> nat {
        if self.pos() { (self@ - 1) as nat } else { self@ + 1 }
    }

    /// Create a literal for `var` with the given polarity.
    pub fn new(var: Variable, positive: bool) -> (l: Self)
        requires
            0 < var.0 <= max_var(),
        ensures
            l@ == Self::code_of(var.0 as nat, positive),
            l.var_of() == var.0,
            l.pos() == positive,
    {
        let code: u32 = 2 * (var.0 - 1) + if positive { 1u32 } else { 0u32 };
        Literal(code)
    }

    /// The positive literal of `var`.
    pub fn positive(var: Variable) -> (l: Self)
        requires
            0 < var.0 <= max_var(),
        ensures
            l@ == Self::code_of(var.0 as nat, true),
            l.var_of() == var.0,
            l.pos(),
    {
        Literal::new(var, true)
    }

    /// The negative literal of `var`.
    pub fn negative(var: Variable) -> (l: Self)
        requires
            0 < var.0 <= max_var(),
        ensures
            l@ == Self::code_of(var.0 as nat, false),
            l.var_of() == var.0,
            !l.pos(),
    {
        Literal::new(var, false)
    }

    /// The literal of a DIMACS number (negative numbers are negated variables).
    pub fn from_dimacs(value: i32) -> (l: Self)
        requires
            value != 0,
        ensures
            l.dimacs() == value,
            l.var_of() == if value > 0 { value as int } else { -(value as int) },
            l.pos() == (value > 0),
    {
        let abs: u32 = if value > 0 {
            value as u32
        } else if value == i32::MIN {
            0x8000_0000u32
        } else {
            (-value) as u32
        };
        let var = Variable::new(abs);
        let positive = value > 0;
        Literal::new(var, positive)
    }

    /// The literal's DIMACS number.
    pub fn to_dimacs(&self) -> (d: i32)
        requires
            self.var_of() < max_var(),
        ensures
            d == self.dimacs(),
    {
        let var = self.variable().index() as i32;
        if self.is_positive() {
            var
        } else {
            -var
        }
    }

    /// The literal's variable.
    pub fn variable(&self) -> (v: Variable)
        ensures
            v.0 == self.var_of(),
    {
        Variable((self.0 / 2) + 1)
    }

    /// Whether the literal is positive.
    pub fn is_positive(&self) -> (b: bool)
        ensures
            b == self.pos(),
    {
        self.0 % 2 == 1
    }

    /// Whether the literal is negative.
    pub fn is_negative(&self) -> (b: bool)
        ensures
            b == !self.pos(),
    {
        self.0 % 2 == 0
    }

    /// The complementary literal.
    pub fn negate(&self) -> (l: Self)
        ensures
            l@ == self.neg_code(),
            l.var_of() == self.var_of(),
            l.pos() == !self.pos(),
    {
        let c = self.0;
        let r = c ^ 1;
        assert(c ^ 1 == if c % 2 == 1 { (c - 1) as u32 } else { (c + 1) as u32 }) by (bit_vector);
        Literal(r)
    }

    /// The literal's code, used as an array index.
    pub fn index(&self) -> (i: usize)
        ensures
            i == self@,
    {
        self.0 as usize
    }

    /// The literal with code `idx`.
    pub fn from_index(idx: usize) -> (l: Self)
        requires
            idx <= u32::MAX,
        ensures
            l@ == idx,
    {
        Literal(idx as u32)
    }

    /// The polarity bit: 1 for a positive literal, 0 for a negative one.
    pub fn polarity(&self) -> (p: u32)
        ensures
            p == self@ % 2,
            p == 1 <==> self.pos(),
    {
        self.0 % 2
    }
}

/// Negation is an involution, keeps the variable and flips the polarity.
pub proof fn lemma_negate_involutive(l: Literal)
    requires
        l.neg_code() <= u32::MAX,
    ensures
        Literal(l.neg_code() as u32).neg_code() == l@,
        Literal(l.neg_code() as u32).var_of() == l.var_of(),
        Literal(l.neg_code() as u32).pos() == !l.pos(),
{
}

/// A literal is determined by its variable and its polarity.
pub proof fn lemma_literal_determined(a: Literal, b: Literal)
    requires
        a.var_of() == b.var_of(),
        a.pos() == b.pos(),
    ensures
        a == b,
{
}

/// Reading a literal back from its DIMACS number gives the same literal,
/// and the DIMACS number of the literal built from a number is that number.
pub proof fn lemma_dimacs_roundtrip(l: Literal, value: i32)
    requires
        value != 0,
    ensures
        l.dimacs() == value ==> l.var_of() == (if value > 0 { value as int } else { -(value as int) }) && l.pos() == (value > 0),
        forall|m: Literal| m.dimacs() == l.dimacs() ==> m == l,
{
    assert forall|m: Literal| m.dimacs() == l.dimacs() implies m == l by {
        if m.pos() != l.pos() {
            assert(false);
        }
    }
}

/// The code of a literal is determined by its variable and polarity.
pub proof fn lemma_code_of(l: Literal)
    ensures
        l@ == Literal::code_of(l.var_of(), l.pos()),
{
}

} // verus!
