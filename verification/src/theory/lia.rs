//! Linear integer arithmetic: linear expressions over integer variables,
//! constraints `expr ⋈ 0`, and bounds derived from single-variable constraints.
use vstd::prelude::*;
use vstd::std_specs::iter::IteratorSpec;
use vstd::std_specs::hash::spec_hash_map_iter;
use vstd::set::fold::{is_fun_commutative, lemma_fold_insert, lemma_fold_empty};
use std::collections::HashMap;
use crate::literal::Literal;
use crate::theory::{TheoryConflict, TheoryPropagation, TheoryResult, TheorySolver, lemma_facts_filter};
use crate::theory::union_find::lemma_u32_set_len;
use crate::theory::bv::{tdiv, trem, signed_div, signed_rem};

verus! {

/// Variable identifier.
pub type VarId = u32;

/// A coefficient.
pub type Coeff = i64;

/// The coefficient of `v` in `m`, zero when absent.
pub open spec fn coeff_of(m: Map<u32, i64>, v: u32) -> int {
    if m.contains_key(v) { m[v] as int } else { 0 }
}

/// The coefficients after adding `sign` times those of `o` to those of `s`, for the
/// variables of `o` in `done`: a variable whose sum is zero is dropped; the others keep
/// their coefficient in `s`.
pub open spec fn merged(s: Map<u32, i64>, o: Map<u32, i64>, neg: bool, done: Set<u32>) -> Map<u32, i64> {
    Map::new(
        |v: u32| if done.contains(v) && o.contains_key(v) { coeff_of(s, v) + (if neg { -o[v] } else { o[v] as int }) != 0 } else { s.contains_key(v) },
        |v: u32| if done.contains(v) && o.contains_key(v) { (coeff_of(s, v) + (if neg { -o[v] } else { o[v] as int })) as i64 } else { s[v] },
    )
}

/// The coefficients of `s` plus `sign` times those of `o`, zero sums dropped.
pub open spec fn combined(s: Map<u32, i64>, o: Map<u32, i64>, neg: bool) -> Map<u32, i64> {
    merged(s, o, neg, o.dom())
}

/// Adding `sign` times `o` to `s` keeps every coefficient within `i64`.
pub open spec fn combine_fits(s: Map<u32, i64>, o: Map<u32, i64>, neg: bool) -> bool {
    forall|v: u32| #[trigger] o.contains_key(v) ==> i64::MIN <= coeff_of(s, v) + (if neg { -o[v] } else { o[v] as int }) <= i64::MAX
}

/// The contribution of variable `v` to the value of an expression.
pub open spec fn term_value(coeffs: Map<u32, i64>, values: Map<u32, i64>, v: u32) -> int {
    if values.contains_key(v) { coeffs[v] * values[v] } else { 0 }
}

/// One step of summing contributions.
pub open spec fn sum_step(coeffs: Map<u32, i64>, values: Map<u32, i64>) -> spec_fn(int, u32) -> int {
    |acc: int, v: u32| acc + term_value(coeffs, values, v)
}

/// The sum of the contributions of the variables in `vars`.
pub open spec fn sum_over(coeffs: Map<u32, i64>, values: Map<u32, i64>, vars: Set<u32>) -> int {
    vars.fold(0int, sum_step(coeffs, values))
}

/// The value of the expression with coefficients `coeffs` and constant `c`, where a
/// variable without a value contributes nothing.
pub open spec fn expr_value(coeffs: Map<u32, i64>, c: i64, values: Map<u32, i64>) -> int {
    c + sum_over(coeffs, values, coeffs.dom())
}

/// The coefficients scaled by `s` (all dropped when `s` is zero).
pub open spec fn scaled(m: Map<u32, i64>, s: i64) -> Map<u32, i64> {
    if s == 0 {
        Map::empty()
    } else {
        Map::new(|v: u32| m.contains_key(v), |v: u32| (m[v] * s) as i64)
    }
}

/// The keys among the first `n` pairs of `s`.
pub open spec fn keys_of(s: Seq<(&u32, &i64)>, n: int) -> Set<u32> {
    Set::new(|v: u32| exists|j: int| 0 <= j < n && *(#[trigger] s[j]).0 == v)
}

/// A linear expression `Σ aᵢxᵢ + c`.
#[derive(Debug, PartialEq, Eq)]
pub struct LinearExpr {
    /// The variables' coefficients.
    pub coeffs: HashMap<VarId, Coeff>,
    /// The constant term.
    pub constant: Coeff,
}

impl Clone for LinearExpr {
    fn clone(&self) -> (r: LinearExpr)
        ensures
            r.coeffs@ == self.coeffs@,
            r.constant == self.constant,
    {
        LinearExpr { coeffs: self.coeffs.clone(), constant: self.constant }
    }
}

/// The pairs that iterating a map yields are its entries, each key once.
proof fn lemma_iter_pairs(m: &HashMap<u32, i64>)
    requires
        spec_hash_map_iter(m).remaining().no_duplicates(),
    ensures
        ({
            let s = spec_hash_map_iter(m).remaining();
            &&& s.len() == m@.dom().len()
            &&& forall|j: int| 0 <= j < s.len() ==> m@.contains_key(*(#[trigger] s[j]).0) && m@[*s[j].0] == *s[j].1
            &&& forall|j: int, k: int| 0 <= j < k < s.len() ==> *(#[trigger] s[j]).0 != *(#[trigger] s[k]).0
            &&& keys_of(s, s.len() as int) == m@.dom()
        }),
{
    broadcast use vstd::std_specs::hash::group_hash_axioms;
    let s = spec_hash_map_iter(m).remaining();
    assert forall|j: int, k: int| 0 <= j < k < s.len() implies *(#[trigger] s[j]).0 != *(#[trigger] s[k]).0 by {
        assert(m@.contains_key(*s[j].0) && m@[*s[j].0] == *s[j].1);
        assert(m@.contains_key(*s[k].0) && m@[*s[k].0] == *s[k].1);
        if *s[j].0 == *s[k].0 {
            assert(s[j] == s[k]);
        }
    }
    assert forall|j: int| 0 <= j < s.len() implies m@.contains_key(*(#[trigger] s[j]).0) && m@[*s[j].0] == *s[j].1 by {
        assert(m@.contains_key(*s[j].0));
    }
    assert forall|v: u32| keys_of(s, s.len() as int).contains(v) <==> m@.dom().contains(v) by {
        if m@.contains_key(v) {
            assert(s.contains((&v, &m@[v])));
            let j = choose|j: int| 0 <= j < s.len() && s[j] == (&v, &m@[v]);
            assert(*s[j].0 == v);
        }
    }
    assert(keys_of(s, s.len() as int) =~= m@.dom());
}

impl LinearExpr {
    /// The expression `0`.
    pub fn zero() -> (e: Self)
        ensures
            e.coeffs@ == Map::<u32, i64>::empty(),
            e.constant == 0,
    {
        LinearExpr { coeffs: HashMap::new(), constant: 0 }
    }

    /// The constant expression `c`.
    pub fn constant(c: Coeff) -> (e: Self)
        ensures
            e.coeffs@ == Map::<u32, i64>::empty(),
            e.constant == c,
    {
        LinearExpr { coeffs: HashMap::new(), constant: c }
    }

    /// The expression `v`.
    pub fn var(v: VarId) -> (e: Self)
        ensures
            e.coeffs@ == Map::<u32, i64>::empty().insert(v, 1),
            e.constant == 0,
    {
        broadcast use vstd::std_specs::hash::group_hash_axioms;
        let mut coeffs = HashMap::new();
        coeffs.insert(v, 1);
        LinearExpr { coeffs, constant: 0 }
    }

    /// `self + sign * other`, with zero coefficients dropped.
    fn combine(&self, other: &LinearExpr, negate: bool) -> (r: Self)
        requires
            combine_fits(self.coeffs@, other.coeffs@, negate),
            i64::MIN <= self.constant + (if negate { -other.constant } else { other.constant as int }) <= i64::MAX,
        ensures
            r.coeffs@ == combined(self.coeffs@, other.coeffs@, negate),
            r.constant == self.constant + (if negate { -other.constant } else { other.constant as int }),
    {
        broadcast use vstd::std_specs::hash::group_hash_axioms;
        let iter = other.coeffs.iter();
        let ghost s = spec_hash_map_iter(&other.coeffs).remaining();
        proof {
            lemma_iter_pairs(&other.coeffs);
            assert(merged(self.coeffs@, other.coeffs@, negate, keys_of(s, 0)) =~= self.coeffs@);
        }
        let mut result = self.clone();
        for (var, coeff) in it: iter
            invariant
                it.seq() == s,
                s.len() == other.coeffs@.dom().len(),
                forall|j: int| 0 <= j < s.len() ==> other.coeffs@.contains_key(*(#[trigger] s[j]).0) && other.coeffs@[*s[j].0] == *s[j].1,
                forall|j: int, k: int| 0 <= j < k < s.len() ==> *(#[trigger] s[j]).0 != *(#[trigger] s[k]).0,
                combine_fits(self.coeffs@, other.coeffs@, negate),
                result.coeffs@ == merged(self.coeffs@, other.coeffs@, negate, keys_of(s, it.index())),
                result.constant == self.constant,
        {
            let ghost i = it.index();
            let ghost before = result.coeffs@;
            proof {
                assert(s[i] == (var, coeff));
                assert(!keys_of(s, i).contains(*var)) by {
                    if keys_of(s, i).contains(*var) {
                        let j = choose|j: int| 0 <= j < i && *(#[trigger] s[j]).0 == *var;
                        assert(*s[j].0 != *s[i].0);
                    }
                }
                assert(other.coeffs@.contains_key(*var));
            }
            let cur: i64 = match result.coeffs.get(var) {
                Some(c) => *c,
                None => 0,
            };
            proof {
                assert(cur == coeff_of(self.coeffs@, *var));
            }
            let updated: i64 = if negate { cur - *coeff } else { cur + *coeff };
            if updated == 0 {
                result.coeffs.remove(var);
            } else {
                result.coeffs.insert(*var, updated);
            }
            proof {
                let done = keys_of(s, i + 1);
                assert(done =~= keys_of(s, i).insert(*var));
                assert(result.coeffs@ =~= merged(self.coeffs@, other.coeffs@, negate, done));
            }
        }
        proof {
            assert(keys_of(s, s.len() as int) == other.coeffs@.dom());
        }
        if negate {
            result.constant = self.constant - other.constant;
        } else {
            result.constant = self.constant + other.constant;
        }
        result
    }

    /// `self + other`, with zero coefficients dropped.
    pub fn add(&self, other: &LinearExpr) -> (r: Self)
        requires
            combine_fits(self.coeffs@, other.coeffs@, false),
            i64::MIN <= self.constant + other.constant <= i64::MAX,
        ensures
            r.coeffs@ == combined(self.coeffs@, other.coeffs@, false),
            r.constant == self.constant + other.constant,
    {
        self.combine(other, false)
    }

    /// `self - other`, with zero coefficients dropped.
    pub fn sub(&self, other: &LinearExpr) -> (r: Self)
        requires
            combine_fits(self.coeffs@, other.coeffs@, true),
            i64::MIN <= self.constant - other.constant <= i64::MAX,
        ensures
            r.coeffs@ == combined(self.coeffs@, other.coeffs@, true),
            r.constant == self.constant - other.constant,
    {
        self.combine(other, true)
    }

    /// `s * self`; the zero expression when `s` is zero.
    pub fn scale(&self, s: Coeff) -> (r: Self)
        requires
            forall|v: u32| #[trigger] self.coeffs@.contains_key(v) ==> i64::MIN <= self.coeffs@[v] * s <= i64::MAX,
            i64::MIN <= self.constant * s <= i64::MAX,
        ensures
            r.coeffs@ == scaled(self.coeffs@, s),
            r.constant == self.constant * s,
    {
        broadcast use vstd::std_specs::hash::group_hash_axioms;
        if s == 0 {
            let z = Self::zero();
            assert(z.coeffs@ =~= scaled(self.coeffs@, s));
            return z;
        }
        let iter = self.coeffs.iter();
        let ghost sq = spec_hash_map_iter(&self.coeffs).remaining();
        proof {
            lemma_iter_pairs(&self.coeffs);
        }
        let mut coeffs: HashMap<VarId, Coeff> = HashMap::new();
        for (var, coeff) in it: iter
            invariant
                it.seq() == sq,
                forall|j: int| 0 <= j < sq.len() ==> self.coeffs@.contains_key(*(#[trigger] sq[j]).0) && self.coeffs@[*sq[j].0] == *sq[j].1,
                keys_of(sq, sq.len() as int) == self.coeffs@.dom(),
                forall|v: u32| #[trigger] self.coeffs@.contains_key(v) ==> i64::MIN <= self.coeffs@[v] * s <= i64::MAX,
                coeffs@ == Map::new(|v: u32| keys_of(sq, it.index()).contains(v), |v: u32| (self.coeffs@[v] * s) as i64),
        {
            let ghost i = it.index();
            proof {
                assert(sq[i] == (var, coeff));
                assert(self.coeffs@.contains_key(*var));
            }
            coeffs.insert(*var, *coeff * s);
            proof {
                assert(keys_of(sq, i + 1) =~= keys_of(sq, i).insert(*var));
                assert(coeffs@ =~= Map::new(|v: u32| keys_of(sq, i + 1).contains(v), |v: u32| (self.coeffs@[v] * s) as i64));
            }
        }
        let r = LinearExpr { coeffs, constant: self.constant * s };
        assert(r.coeffs@ =~= scaled(self.coeffs@, s));
        r
    }

    /// `-self`.
    pub fn negate(&self) -> (r: Self)
        requires
            forall|v: u32| #[trigger] self.coeffs@.contains_key(v) ==> self.coeffs@[v] != i64::MIN,
            self.constant != i64::MIN,
        ensures
            r.coeffs@ == scaled(self.coeffs@, -1i64),
            r.constant == -self.constant,
    {
        self.scale(-1)
    }

    /// The value of the expression, where a variable without a value contributes nothing.
    pub fn evaluate(&self, values: &HashMap<VarId, Coeff>) -> (r: Coeff)
        requires
            forall|v: u32| #[trigger] self.coeffs@.contains_key(v) && values@.contains_key(v)
                ==> i64::MIN <= self.coeffs@[v] * values@[v] <= i64::MAX,
            i64::MIN <= expr_value(self.coeffs@, self.constant, values@) <= i64::MAX,
        ensures
            r == expr_value(self.coeffs@, self.constant, values@),
    {
        broadcast use vstd::std_specs::hash::group_hash_axioms;
        let ghost f = sum_step(self.coeffs@, values@);
        let iter = self.coeffs.iter();
        let ghost sq = spec_hash_map_iter(&self.coeffs).remaining();
        proof {
            lemma_iter_pairs(&self.coeffs);
            lemma_u32_set_len(self.coeffs@.dom());
            assert(is_fun_commutative(f));
            lemma_fold_empty(0int, f);
            assert(keys_of(sq, 0) =~= Set::<u32>::empty());
        }
        let mut sum: i128 = 0;
        let ghost mut done: Set<u32> = Set::empty();
        for (var, coeff) in it: iter
            invariant
                it.seq() == sq,
                sq.len() == self.coeffs@.dom().len(),
                sq.len() <= 0x1_0000_0000,
                forall|j: int| 0 <= j < sq.len() ==> self.coeffs@.contains_key(*(#[trigger] sq[j]).0) && self.coeffs@[*sq[j].0] == *sq[j].1,
                forall|j: int, k: int| 0 <= j < k < sq.len() ==> *(#[trigger] sq[j]).0 != *(#[trigger] sq[k]).0,
                keys_of(sq, sq.len() as int) == self.coeffs@.dom(),
                forall|v: u32| #[trigger] self.coeffs@.contains_key(v) && values@.contains_key(v)
                    ==> i64::MIN <= self.coeffs@[v] * values@[v] <= i64::MAX,
                f == sum_step(self.coeffs@, values@),
                is_fun_commutative(f),
                done.finite(),
                done == keys_of(sq, it.index()),
                sum == done.fold(0int, f),
                -(it.index() * 0x8000_0000_0000_0000) <= sum <= it.index() * 0x8000_0000_0000_0000,
        {
            let ghost i = it.index();
            proof {
                assert(sq[i] == (var, coeff));
                assert(self.coeffs@.contains_key(*var));
                assert(!done.contains(*var)) by {
                    if done.contains(*var) {
                        let j = choose|j: int| 0 <= j < i && *(#[trigger] sq[j]).0 == *var;
                        assert(*sq[j].0 != *sq[i].0);
                    }
                }
                lemma_fold_insert(done, 0int, f, *var);
            }
            match values.get(var) {
                Some(val) => {
                    let prod: i64 = *coeff * *val;
                    sum = sum + prod as i128;
                },
                None => {},
            }
            proof {
                assert(keys_of(sq, i + 1) =~= done.insert(*var));
                done = done.insert(*var);
                assert(sum <= (i + 1) * 0x8000_0000_0000_0000) by (nonlinear_arith)
                    requires
                        sum <= i * 0x8000_0000_0000_0000 + 0x8000_0000_0000_0000;
                assert(-((i + 1) * 0x8000_0000_0000_0000) <= sum) by (nonlinear_arith)
                    requires
                        -(i * 0x8000_0000_0000_0000) - 0x8000_0000_0000_0000 <= sum;
            }
        }
        let total = self.constant as i128 + sum;
        total as i64
    }

    /// Whether the expression has no variable.
    pub fn is_constant(&self) -> (b: bool)
        ensures
            b == (self.coeffs@.dom().len() == 0),
    {
        broadcast use vstd::std_specs::hash::group_hash_axioms;
        self.coeffs.is_empty()
    }

    /// The variable and its coefficient, when the expression has exactly one variable.
    pub fn get_single_var(&self) -> (r: Option<(VarId, Coeff)>)
        ensures
            r is Some <==> self.coeffs@.dom().len() == 1,
            r matches Some((v, c)) ==> self.coeffs@ == Map::<u32, i64>::empty().insert(v, c),
    {
        broadcast use vstd::std_specs::hash::group_hash_axioms;
        if self.coeffs.len() == 1 {
            let iter = self.coeffs.iter();
            let ghost sq = spec_hash_map_iter(&self.coeffs).remaining();
            proof {
                lemma_iter_pairs(&self.coeffs);
            }
            for (var, coeff) in it: iter
                invariant
                    it.seq() == sq,
                    it.index() == 0,
                    sq.len() == 1,
                    forall|j: int| 0 <= j < sq.len() ==> self.coeffs@.contains_key(*(#[trigger] sq[j]).0) && self.coeffs@[*sq[j].0] == *sq[j].1,
                    keys_of(sq, 1) == self.coeffs@.dom(),
            {
                proof {
                    assert(sq[0] == (var, coeff));
                    assert(self.coeffs@.contains_key(*var));
                    assert forall|v: u32| self.coeffs@.contains_key(v) implies v == *var by {
                        assert(keys_of(sq, 1).contains(v));
                    }
                    assert(self.coeffs@ =~= Map::<u32, i64>::empty().insert(*var, *coeff));
                }
                return Some((*var, *coeff));
            }
            None
        } else {
            None
        }
    }
}

/// The relation of a constraint `expr ⋈ 0`.
#[derive(Debug, Clone, Copy, PartialEq, Eq, Structural)]
pub enum ConstraintKind {
    /// `expr < 0`
    Lt,
    /// `expr ≤ 0`
    Le,
    /// `expr = 0`
    Eq,
    /// `expr ≥ 0`
    Ge,
    /// `expr > 0`
    Gt,
    /// `expr ≠ 0`
    Ne,
}

/// The relation that holds exactly when `k` does not.
pub open spec fn negated_kind(k: ConstraintKind) -> ConstraintKind {
    match k {
        ConstraintKind::Lt => ConstraintKind::Ge,
        ConstraintKind::Le => ConstraintKind::Gt,
        ConstraintKind::Ge => ConstraintKind::Lt,
        ConstraintKind::Gt => ConstraintKind::Le,
        ConstraintKind::Eq => ConstraintKind::Ne,
        ConstraintKind::Ne => ConstraintKind::Eq,
    }
}

/// The relation after dividing both sides by a negative number.
pub open spec fn flipped_kind(k: ConstraintKind) -> ConstraintKind {
    match k {
        ConstraintKind::Lt => ConstraintKind::Gt,
        ConstraintKind::Le => ConstraintKind::Ge,
        ConstraintKind::Gt => ConstraintKind::Lt,
        ConstraintKind::Ge => ConstraintKind::Le,
        k => k,
    }
}

/// Whether `v ⋈ 0` holds.
pub open spec fn kind_holds(k: ConstraintKind, v: int) -> bool {
    match k {
        ConstraintKind::Lt => v < 0,
        ConstraintKind::Le => v <= 0,
        ConstraintKind::Eq => v == 0,
        ConstraintKind::Ge => v >= 0,
        ConstraintKind::Gt => v > 0,
        ConstraintKind::Ne => v != 0,
    }
}

impl ConstraintKind {
    /// The relation that holds exactly when this one does not.
    pub fn negate(self) -> (k: Self)
        ensures
            k == negated_kind(self),
            forall|v: int| kind_holds(k, v) == !kind_holds(self, v),
    {
        match self {
            ConstraintKind::Lt => ConstraintKind::Ge,
            ConstraintKind::Le => ConstraintKind::Gt,
            ConstraintKind::Ge => ConstraintKind::Lt,
            ConstraintKind::Gt => ConstraintKind::Le,
            ConstraintKind::Eq => ConstraintKind::Ne,
            ConstraintKind::Ne => ConstraintKind::Eq,
        }
    }
}

/// Negating a relation twice gives it back.
pub proof fn lemma_negate_involutive(k: ConstraintKind)
    ensures
        negated_kind(negated_kind(k)) == k,
{
}

/// A constraint `expr ⋈ 0`, asserted by a literal at a decision level.
#[derive(Debug)]
pub struct Constraint {
    /// The expression compared with zero.
    pub expr: LinearExpr,
    /// The relation.
    pub kind: ConstraintKind,
    /// The literal that asserted the constraint.
    pub literal: Literal,
    /// The decision level of the assertion.
    pub level: u32,
}

impl Clone for Constraint {
    fn clone(&self) -> (r: Constraint)
        ensures
            r.expr.coeffs@ == self.expr.coeffs@,
            r.expr.constant == self.expr.constant,
            r.kind == self.kind,
            r.literal == self.literal,
            r.level == self.level,
    {
        Constraint { expr: self.expr.clone(), kind: self.kind, literal: self.literal, level: self.level }
    }
}

/// A bound on a variable.
#[derive(Debug, Clone, Copy)]
pub struct Bound {
    /// The bound.
    pub value: Coeff,
    /// Whether the bound is strict.
    pub strict: bool,
    /// The literal that caused the bound.
    pub literal: Literal,
    /// The decision level of that literal.
    pub level: u32,
}

/// The lower and upper bounds of a variable.
#[derive(Debug, Clone, Copy)]
pub struct VarBounds {
    /// The lower bound.
    pub lower: Option<Bound>,
    /// The upper bound.
    pub upper: Option<Bound>,
}

impl Default for VarBounds {
    fn default() -> (b: Self)
        ensures
            b.lower is None,
            b.upper is None,
    {
        VarBounds { lower: None, upper: None }
    }
}

/// Whether no integer lies between the bounds: a strict lower bound `lo` admits values
/// from `lo + 1`, a strict upper bound `hi` values up to `hi - 1`.
pub open spec fn contradictory(b: VarBounds) -> bool {
    match (b.lower, b.upper) {
        (Some(lb), Some(ub)) => lb.value + (if lb.strict { 1int } else { 0int }) > ub.value - (if ub.strict { 1int } else { 0int }),
        _ => false,
    }
}

/// The literals of a variable's bounds: the lower bound's, then the upper bound's if different.
pub open spec fn bound_literals(b: VarBounds) -> Seq<Literal> {
    let lows = match b.lower {
        Some(lb) => seq![lb.literal],
        None => Seq::empty(),
    };
    match b.upper {
        Some(ub) => if lows.contains(ub.literal) { lows } else { lows.push(ub.literal) },
        None => lows,
    }
}

impl VarBounds {
    /// Whether no value lies between the bounds.
    pub fn is_contradictory(&self) -> (r: bool)
        ensures
            r == contradictory(*self),
    {
        match (&self.lower, &self.upper) {
            (Some(lb), Some(ub)) => {
                let lo: i128 = lb.value as i128 + if lb.strict { 1i128 } else { 0i128 };
                let hi: i128 = ub.value as i128 - if ub.strict { 1i128 } else { 0i128 };
                lo > hi
            },
            _ => false,
        }
    }

    /// The literals of the bounds, as a conflict.
    fn conflict_literals(&self) -> (lits: Vec<Literal>)
        ensures
            lits@ == bound_literals(*self),
    {
        let mut lits: Vec<Literal> = Vec::new();
        if let Some(lb) = &self.lower {
            lits.push(lb.literal);
        }
        if let Some(ub) = &self.upper {
            let dup = match &self.lower {
                Some(lb) => lb.literal == ub.literal,
                None => false,
            };
            proof {
                assert(dup == lits@.contains(ub.literal)) by {
                    if let Some(lb) = self.lower {
                        assert(lits@ == seq![lb.literal]);
                        if lits@.contains(ub.literal) {
                            assert(lits@[0] == ub.literal);
                        }
                    }
                }
            }
            if !dup {
                lits.push(ub.literal);
            }
        }
        lits
    }
}

/// The bounds after learning that the variable stands in relation `k` to the rational
/// `q` (the constant divided by the coefficient), whose floor is `fl` and ceiling `ce`,
/// from `literal` at `level`: `x < q` gives the upper bound `ce - 1`, `x <= q` gives
/// `fl`, `x > q` the lower bound `fl + 1`, `x >= q` gives `ce`, and `x = q` sets both
/// (`ce` and `fl`, which cross when `q` is no integer). A tighter bound replaces the old
/// one; a disequality changes nothing.
pub open spec fn apply_bound(b: VarBounds, k: ConstraintKind, fl: int, ce: int, literal: Literal, level: u32) -> VarBounds {
    match k {
        ConstraintKind::Lt => tighten_upper(b, Bound { value: (ce - 1) as i64, strict: false, literal, level }),
        ConstraintKind::Le => tighten_upper(b, Bound { value: fl as i64, strict: false, literal, level }),
        ConstraintKind::Gt => tighten_lower(b, Bound { value: (fl + 1) as i64, strict: false, literal, level }),
        ConstraintKind::Ge => tighten_lower(b, Bound { value: ce as i64, strict: false, literal, level }),
        ConstraintKind::Eq => VarBounds {
            lower: Some(Bound { value: ce as i64, strict: false, literal, level }),
            upper: Some(Bound { value: fl as i64, strict: false, literal, level }),
        },
        ConstraintKind::Ne => b,
    }
}

/// `b` with upper bound `nb` when there is none or `nb` is smaller.
pub open spec fn tighten_upper(b: VarBounds, nb: Bound) -> VarBounds {
    match b.upper {
        Some(ub) => if nb.value < ub.value { VarBounds { lower: b.lower, upper: Some(nb) } } else { b },
        None => VarBounds { lower: b.lower, upper: Some(nb) },
    }
}

/// `b` with lower bound `nb` when there is none or `nb` is larger.
pub open spec fn tighten_lower(b: VarBounds, nb: Bound) -> VarBounds {
    match b.lower {
        Some(lb) => if nb.value > lb.value { VarBounds { lower: Some(nb), upper: b.upper } } else { b },
        None => VarBounds { lower: Some(nb), upper: b.upper },
    }
}

/// The only variable of a single-variable coefficient map.
pub open spec fn single_var(m: Map<u32, i64>) -> u32 {
    choose|v: u32| m.contains_key(v)
}

/// `n / d` rounded down.
pub open spec fn floor_div(n: int, d: int) -> int {
    if trem(n, d) != 0 && ((n < 0) != (d < 0)) { tdiv(n, d) - 1 } else { tdiv(n, d) }
}

/// `n / d` rounded up.
pub open spec fn ceil_div(n: int, d: int) -> int {
    -floor_div(-n, d)
}

/// The floor of the rational bound `-constant / coeff` of a single-variable constraint.
pub open spec fn bound_floor(e: LinearExpr) -> int {
    floor_div(-e.constant, e.coeffs@[single_var(e.coeffs@)] as int)
}

/// The ceiling of the rational bound `-constant / coeff` of a single-variable constraint.
pub open spec fn bound_ceil(e: LinearExpr) -> int {
    ceil_div(-e.constant, e.coeffs@[single_var(e.coeffs@)] as int)
}

/// `n / d` rounded down and rounded up; both lie within `[-i64::MAX, i64::MAX]`.
fn floor_ceil(n: i64, d: i64) -> (r: (i64, i64))
    requires
        d != 0,
        n != i64::MIN,
    ensures
        r.0 == floor_div(n as int, d as int),
        r.1 == ceil_div(n as int, d as int),
        -i64::MAX <= r.0 <= i64::MAX,
        -i64::MAX <= r.1 <= i64::MAX,
{
    let fl = floor_i64(n, d);
    let m = floor_i64(-n, d);
    (fl, -m)
}

/// `n / d` rounded down.
fn floor_i64(n: i64, d: i64) -> (q: i64)
    requires
        d != 0,
        n != i64::MIN,
    ensures
        q == floor_div(n as int, d as int),
        -i64::MAX <= q <= i64::MAX,
{
    let t = signed_div(n, d);
    let r = signed_rem(n, d);
    proof {
        let ma: int = if n < 0 { -n } else { n as int };
        let mc: int = if d < 0 { -d } else { d as int };
        let qm = ma / mc;
        assert(qm <= ma) by (nonlinear_arith)
            requires mc >= 1, ma >= 0, qm == ma / mc;
        assert(mc >= 2 ==> qm * 2 <= ma) by (nonlinear_arith)
            requires mc >= 1, ma >= 0, qm == ma / mc;
        assert(mc == 1 ==> qm == ma) by (nonlinear_arith)
            requires mc >= 1, ma >= 0, qm == ma / mc;
        assert(t == (if (n < 0) == (d < 0) { qm } else { -qm }));
        if mc == 1 {
            assert(r == n - d * t);
            assert(qm == ma);
            assert(t == n * d) by (nonlinear_arith)
                requires
                    mc == 1,
                    mc == (if d < 0 { -d } else { d as int }),
                    ma == (if n < 0 { -n } else { n as int }),
                    t == (if (n < 0) == (d < 0) { ma } else { -ma });
            assert(d * t == n) by (nonlinear_arith)
                requires
                    t == n * d,
                    mc == 1,
                    mc == (if d < 0 { -d } else { d as int });
            assert(r == 0);
        }
    }
    if r != 0 && ((n < 0) != (d < 0)) {
        t - 1
    } else {
        t
    }
}

/// The relation a single-variable constraint puts on its variable.
pub open spec fn bound_kind(e: LinearExpr, k: ConstraintKind) -> ConstraintKind {
    if e.coeffs@[single_var(e.coeffs@)] > 0 { k } else { flipped_kind(k) }
}

/// A constraint of relation `k` on `e` can be turned into a bound without overflow: the
/// coefficient is not zero, the constant can be negated, and a strict lower bound can
/// be raised by one.
pub open spec fn boundable(e: LinearExpr, k: ConstraintKind) -> bool {
    e.coeffs@.dom().len() == 1 ==> {
        &&& e.coeffs@[single_var(e.coeffs@)] != 0
        &&& e.constant != i64::MIN
        &&& (bound_kind(e, k) == ConstraintKind::Gt ==> bound_floor(e) < i64::MAX)
    }
}

/// A recorded constraint can be turned back into a bound without overflow.
pub open spec fn rebuild_ok(c: Constraint) -> bool {
    c.expr.coeffs@.dom().len() == 1 ==> {
        &&& c.expr.coeffs@[single_var(c.expr.coeffs@)] != 0
        &&& c.expr.constant != i64::MIN
        &&& (c.kind == ConstraintKind::Gt ==> bound_floor(c.expr) < i64::MAX)
    }
}

/// The bound of `v` in `m`, or no bound.
pub open spec fn bounds_of(m: Map<u32, VarBounds>, v: u32) -> VarBounds {
    if m.contains_key(v) { m[v] } else { VarBounds { lower: None, upper: None } }
}

/// The bounds obtained by replaying the single-variable constraints of `cs` in order.
pub open spec fn replayed(cs: Seq<Constraint>) -> Map<u32, VarBounds>
    decreases cs.len(),
{
    if cs.len() == 0 {
        Map::empty()
    } else {
        let m = replayed(cs.drop_last());
        let c = cs.last();
        if c.expr.coeffs@.dom().len() == 1 {
            let v = single_var(c.expr.coeffs@);
            m.insert(v, apply_bound(bounds_of(m, v), c.kind, bound_floor(c.expr), bound_ceil(c.expr), c.literal, c.level))
        } else {
            m
        }
    }
}

/// The parts of the solver's state.
struct LiaState {
    num_vars: u32,
    bounds: HashMap<VarId, VarBounds>,
    constraints: Vec<Constraint>,
    pending_propagations: Vec<TheoryPropagation>,
    current_level: u32,
}

/// Every recorded constraint can be turned back into a bound without overflow.
spec fn state_ok(st: LiaState) -> bool {
    forall|i: int| 0 <= i < st.constraints@.len() ==> #[trigger] rebuild_ok(st.constraints@[i])
}

impl LiaState {
    fn empty() -> (st: LiaState)
        ensures
            state_ok(st),
            st.num_vars == 0,
            st.bounds@ == Map::<u32, VarBounds>::empty(),
            st.constraints@.len() == 0,
            st.pending_propagations@.len() == 0,
            st.current_level == 0,
    {
        LiaState {
            num_vars: 0,
            bounds: HashMap::new(),
            constraints: Vec::new(),
            pending_propagations: Vec::new(),
            current_level: 0,
        }
    }
}

/// The solver for linear integer arithmetic.
pub struct LiaSolver {
    st: LiaState,
}

impl LiaSolver {
    /// The number of declared variables.
    pub closed spec fn var_count(&self) -> u32 {
        self.st.num_vars
    }

    /// The bounds of the variables.
    pub closed spec fn bound_map(&self) -> Map<u32, VarBounds> {
        self.st.bounds@
    }

    /// The recorded constraints, oldest first.
    pub closed spec fn constraint_seq(&self) -> Seq<Constraint> {
        self.st.constraints@
    }

    /// The current decision level.
    pub closed spec fn level(&self) -> u32 {
        self.st.current_level
    }

    /// The propagations not yet handed out.
    pub closed spec fn pending(&self) -> Seq<TheoryPropagation> {
        self.st.pending_propagations@
    }

    #[verifier::type_invariant]
    spec fn inv(self) -> bool {
        state_ok(self.st)
    }

    /// Move the state out, leaving an empty solver behind.
    fn take_state(&mut self) -> (st: LiaState)
        ensures
            st == old(self).st,
            state_ok(st),
    {
        proof {
            use_type_invariant(&*self);
        }
        let mut taken = LiaSolver { st: LiaState::empty() };
        std::mem::swap(&mut taken, self);
        let LiaSolver { st } = taken;
        st
    }

    /// A solver without variables, bounds or constraints.
    pub fn new() -> (s: Self)
        ensures
            s.var_count() == 0,
            s.bound_map() == Map::<u32, VarBounds>::empty(),
            s.constraint_seq().len() == 0,
            s.pending().len() == 0,
            s.level() == 0,
    {
        LiaSolver { st: LiaState::empty() }
    }

    /// The number of recorded constraints.
    pub fn num_constraints(&self) -> (n: usize)
        ensures
            n == self.constraint_seq().len(),
    {
        self.st.constraints.len()
    }

    /// The number of variables with a bound entry.
    pub fn num_bounded_vars(&self) -> (n: usize)
        ensures
            n == self.bound_map().dom().len(),
    {
        broadcast use vstd::std_specs::hash::group_hash_axioms;
        self.st.bounds.len()
    }

    /// The bounds of variable `v`, if it has an entry.
    pub fn get_bounds(&self, v: VarId) -> (b: Option<VarBounds>)
        ensures
            b == (if self.bound_map().contains_key(v) { Some(self.bound_map()[v]) } else { None::<VarBounds> }),
    {
        broadcast use vstd::std_specs::hash::group_hash_axioms;
        match self.st.bounds.get(&v) {
            Some(b) => Some(*b),
            None => None,
        }
    }

    /// Declare a new variable.
    pub fn new_var(&mut self) -> (id: VarId)
        requires
            old(self).var_count() < u32::MAX,
        ensures
            id == old(self).var_count(),
            final(self).var_count() == old(self).var_count() + 1,
            final(self).bound_map() == old(self).bound_map(),
            final(self).constraint_seq() == old(self).constraint_seq(),
            final(self).pending() == old(self).pending(),
            final(self).level() == old(self).level(),
    {
        let mut st = self.take_state();
        let id = st.num_vars;
        st.num_vars = st.num_vars + 1;
        self.st = st;
        id
    }

    /// Assert `expr ⋈ 0` from `literal` at `level`. A constant constraint is checked at
    /// once and not recorded. A single-variable constraint tightens its variable's bounds,
    /// and contradictory bounds are a conflict on their literals; otherwise the
    /// constraint is recorded (a single-variable one with its relation as a bound on the
    /// variable).
    pub fn assert_constraint(&mut self, expr: LinearExpr, kind: ConstraintKind, literal: Literal, level: u32)
        -> (r: Result<(), TheoryConflict>)
        requires
            boundable(expr, kind),
        ensures
            final(self).level() == level,
            final(self).var_count() == old(self).var_count(),
            final(self).pending() == old(self).pending(),
            expr.coeffs@.dom().len() == 0 ==> {
                &&& (r is Ok <==> kind_holds(kind, expr.constant as int))
                &&& (r matches Err(c) ==> c.literals@ == seq![literal])
                &&& final(self).bound_map() == old(self).bound_map()
                &&& final(self).constraint_seq() == old(self).constraint_seq()
            },
            expr.coeffs@.dom().len() == 1 ==> {
                let v = single_var(expr.coeffs@);
                let fk = bound_kind(expr, kind);
                let nb = apply_bound(bounds_of(old(self).bound_map(), v), fk, bound_floor(expr), bound_ceil(expr), literal, level);
                &&& final(self).bound_map() == old(self).bound_map().insert(v, nb)
                &&& (r is Ok <==> !contradictory(nb))
                &&& (r matches Err(c) ==> c.literals@ == bound_literals(nb))
                &&& (r is Ok ==> final(self).constraint_seq() == old(self).constraint_seq().push(
                    Constraint { expr, kind: fk, literal, level }))
                &&& (r is Err ==> final(self).constraint_seq() == old(self).constraint_seq())
            },
            expr.coeffs@.dom().len() > 1 ==> {
                &&& r is Ok
                &&& final(self).bound_map() == old(self).bound_map()
                &&& final(self).constraint_seq() == old(self).constraint_seq().push(Constraint { expr, kind, literal, level })
            },
    {
        broadcast use vstd::std_specs::hash::group_hash_axioms;
        let mut st = self.take_state();
        st.current_level = level;
        if expr.is_constant() {
            let val = expr.constant;
            let satisfied = match kind {
                ConstraintKind::Lt => val < 0,
                ConstraintKind::Le => val <= 0,
                ConstraintKind::Eq => val == 0,
                ConstraintKind::Ge => val >= 0,
                ConstraintKind::Gt => val > 0,
                ConstraintKind::Ne => val != 0,
            };
            if !satisfied {
                let mut lits: Vec<Literal> = Vec::new();
                lits.push(literal);
                self.st = st;
                return Err(TheoryConflict::new(lits));
            }
            self.st = st;
            return Ok(());
        }
        let mut kind = kind;
        let ghost orig_kind = kind;
        if let Some((var, coeff)) = expr.get_single_var() {
            proof {
                assert(expr.coeffs@.contains_key(var));
                assert(single_var(expr.coeffs@) == var);
                assert(expr.coeffs@[var] == coeff);
            }
            let (fl, ce) = floor_ceil(-expr.constant, coeff);
            if coeff <= 0 {
                kind = match kind {
                    ConstraintKind::Lt => ConstraintKind::Gt,
                    ConstraintKind::Le => ConstraintKind::Ge,
                    ConstraintKind::Gt => ConstraintKind::Lt,
                    ConstraintKind::Ge => ConstraintKind::Le,
                    k => k,
                };
            }
            assert(kind == bound_kind(expr, orig_kind));
            let old_bounds = match st.bounds.get(&var) {
                Some(b) => *b,
                None => VarBounds::default(),
            };
            assert(old_bounds == bounds_of(old(self).bound_map(), var));
            let mut bounds = old_bounds;
            match kind {
                ConstraintKind::Lt => {
                    let new_upper = Bound { value: ce - 1, strict: false, literal, level };
                    match bounds.upper {
                        Some(ub) => {
                            if new_upper.value < ub.value {
                                bounds.upper = Some(new_upper);
                            }
                        },
                        None => {
                            bounds.upper = Some(new_upper);
                        },
                    }
                },
                ConstraintKind::Le => {
                    let new_upper = Bound { value: fl, strict: false, literal, level };
                    match bounds.upper {
                        Some(ub) => {
                            if new_upper.value < ub.value {
                                bounds.upper = Some(new_upper);
                            }
                        },
                        None => {
                            bounds.upper = Some(new_upper);
                        },
                    }
                },
                ConstraintKind::Gt => {
                    let new_lower = Bound { value: fl + 1, strict: false, literal, level };
                    match bounds.lower {
                        Some(lb) => {
                            if new_lower.value > lb.value {
                                bounds.lower = Some(new_lower);
                            }
                        },
                        None => {
                            bounds.lower = Some(new_lower);
                        },
                    }
                },
                ConstraintKind::Ge => {
                    let new_lower = Bound { value: ce, strict: false, literal, level };
                    match bounds.lower {
                        Some(lb) => {
                            if new_lower.value > lb.value {
                                bounds.lower = Some(new_lower);
                            }
                        },
                        None => {
                            bounds.lower = Some(new_lower);
                        },
                    }
                },
                ConstraintKind::Eq => {
                    bounds.lower = Some(Bound { value: ce, strict: false, literal, level });
                    bounds.upper = Some(Bound { value: fl, strict: false, literal, level });
                },
                ConstraintKind::Ne => {},
            }
            assert(bounds == apply_bound(old_bounds, kind, fl as int, ce as int, literal, level));
            st.bounds.insert(var, bounds);
            if bounds.is_contradictory() {
                let lits = bounds.conflict_literals();
                self.st = st;
                return Err(TheoryConflict::new(lits));
            }
        }
        let ghost pushed = Constraint { expr, kind, literal, level };
        st.constraints.push(Constraint { expr, kind, literal, level });
        proof {
            assert(st.constraints@.last() == pushed);
            assert forall|i: int| 0 <= i < st.constraints@.len() implies #[trigger] rebuild_ok(st.constraints@[i]) by {
                if i < st.constraints@.len() - 1 {
                    assert(st.constraints@[i] == old(self).st.constraints@[i]);
                }
            }
        }
        self.st = st;
        Ok(())
    }

    /// A conflict on the bounds of some variable whose bounds are contradictory, if any.
    fn check_consistency(&self) -> (r: Option<TheoryConflict>)
        ensures
            r is None <==> forall|v: u32| #[trigger] self.bound_map().contains_key(v) ==> !contradictory(self.bound_map()[v]),
            r matches Some(c) ==> exists|v: u32| #[trigger] self.bound_map().contains_key(v) && contradictory(self.bound_map()[v])
                && c.literals@ == bound_literals(self.bound_map()[v]),
    {
        broadcast use vstd::std_specs::hash::group_hash_axioms;
        let iter = self.st.bounds.iter();
        let ghost sq = spec_hash_map_iter(&self.st.bounds).remaining();
        let ghost m = self.st.bounds@;
        proof {
            assert forall|j: int| 0 <= j < sq.len() implies m.contains_key(*(#[trigger] sq[j]).0) && m[*sq[j].0] == *sq[j].1 by {
                assert(m.contains_key(*sq[j].0));
            }
        }
        for (var, b) in it: iter
            invariant
                it.seq() == sq,
                m == self.bound_map(),
                forall|j: int| 0 <= j < sq.len() ==> m.contains_key(*(#[trigger] sq[j]).0) && m[*sq[j].0] == *sq[j].1,
                forall|v: u32| #[trigger] m.contains_key(v) ==> sq.contains((&v, &m[v])),
                forall|j: int| 0 <= j < it.index() ==> !contradictory(*(#[trigger] sq[j]).1),
        {
            proof {
                assert(sq[it.index()] == (var, b));
            }
            if b.is_contradictory() {
                let lits = b.conflict_literals();
                proof {
                    assert(m.contains_key(*var));
                }
                return Some(TheoryConflict::new(lits));
            }
        }
        proof {
            assert forall|v: u32| #[trigger] self.bound_map().contains_key(v) implies !contradictory(self.bound_map()[v]) by {
                assert(sq.contains((&v, &m[v])));
                let j = choose|j: int| 0 <= j < sq.len() && sq[j] == (&v, &m[v]);
                assert(!contradictory(*sq[j].1));
            }
        }
        None
    }
}

impl Default for LiaSolver {
    fn default() -> (s: Self)
        ensures
            s.var_count() == 0,
            s.bound_map() == Map::<u32, VarBounds>::empty(),
            s.constraint_seq().len() == 0,
            s.pending().len() == 0,
            s.level() == 0,
    {
        Self::new()
    }
}

impl TheorySolver for LiaSolver {
    /// The literals of the recorded assertions, with their levels.
    closed spec fn facts(&self) -> Seq<(Literal, u32)> {
        self.st.constraints@.map_values(|c: Constraint| (c.literal, c.level))
    }

    fn name(&self) -> (n: &'static str) {
        "LIA"
    }

    /// Only the level is recorded: constraints come through `assert_constraint`.
    fn assert_literal(&mut self, lit: Literal, level: u32) -> (r: Result<(), TheoryConflict>)
        ensures
            r is Ok,
            final(self).bound_map() == old(self).bound_map(),
            final(self).constraint_seq() == old(self).constraint_seq(),
            final(self).pending() == old(self).pending(),
            final(self).var_count() == old(self).var_count(),
            final(self).level() == level,
    {
        let mut st = self.take_state();
        st.current_level = level;
        self.st = st;
        Ok(())
    }

    fn check(&mut self) -> (r: TheoryResult)
        ensures
            *final(self) == *old(self),
            r is Consistent <==> forall|v: u32| #[trigger] old(self).bound_map().contains_key(v) ==> !contradictory(old(self).bound_map()[v]),
            r matches TheoryResult::Conflict(c) ==> exists|v: u32| #[trigger] old(self).bound_map().contains_key(v)
                && contradictory(old(self).bound_map()[v]) && c.literals@ == bound_literals(old(self).bound_map()[v]),
    {
        match self.check_consistency() {
            Some(conflict) => TheoryResult::Conflict(conflict),
            None => TheoryResult::Consistent,
        }
    }

    fn propagate(&mut self) -> (r: Vec<TheoryPropagation>)
        ensures
            r@ == old(self).pending(),
            final(self).pending().len() == 0,
            final(self).bound_map() == old(self).bound_map(),
            final(self).constraint_seq() == old(self).constraint_seq(),
            final(self).level() == old(self).level(),
    {
        let mut st = self.take_state();
        let mut out: Vec<TheoryPropagation> = Vec::new();
        std::mem::swap(&mut out, &mut st.pending_propagations);
        self.st = st;
        out
    }

    /// No explanation is ever recorded by this solver.
    fn explain(&self, lit: Literal) -> (r: Vec<Literal>)
        ensures
            r@.len() == 0,
    {
        Vec::new()
    }

    /// Drop the constraints above `level` and rebuild the bounds by replaying the
    /// remaining single-variable constraints.
    fn backtrack(&mut self, level: u32)
        ensures
            final(self).constraint_seq().len() == old(self).constraint_seq().filter(|c: Constraint| c.level <= level).len(),
            forall|i: int| 0 <= i < final(self).constraint_seq().len() ==> {
                let c = #[trigger] final(self).constraint_seq()[i];
                let o = old(self).constraint_seq().filter(|c: Constraint| c.level <= level)[i];
                c.expr.coeffs@ == o.expr.coeffs@ && c.expr.constant == o.expr.constant && c.kind == o.kind
                    && c.literal == o.literal && c.level == o.level
            },
            final(self).bound_map() == replayed(final(self).constraint_seq()),
            final(self).pending() == old(self).pending(),
            final(self).var_count() == old(self).var_count(),
            final(self).level() == level,
    {
        broadcast use vstd::std_specs::hash::group_hash_axioms;
        let mut st = self.take_state();
        let ghost cs = st.constraints@;
        let ghost fs = cs.filter(|c: Constraint| c.level <= level);
        let mut kept: Vec<Constraint> = Vec::new();
        let n = st.constraints.len();
        let mut k: usize = 0;
        while k < n
            invariant
                cs == st.constraints@,
                n == cs.len(),
                k <= n,
                kept@.len() == cs.take(k as int).filter(|c: Constraint| c.level <= level).len(),
                forall|i: int| 0 <= i < kept@.len() ==> {
                    let c = #[trigger] kept@[i];
                    let o = cs.take(k as int).filter(|c: Constraint| c.level <= level)[i];
                    c.expr.coeffs@ == o.expr.coeffs@ && c.expr.constant == o.expr.constant && c.kind == o.kind
                        && c.literal == o.literal && c.level == o.level
                },
            decreases n - k,
        {
            reveal_with_fuel(Seq::filter, 1);
            let ghost pre = cs.take(k as int).filter(|c: Constraint| c.level <= level);
            assert(cs.take(k + 1).drop_last() =~= cs.take(k as int));
            if st.constraints[k].level <= level {
                let c = st.constraints[k].clone();
                kept.push(c);
                proof {
                    assert(cs.take(k + 1).filter(|c: Constraint| c.level <= level) == pre.push(cs[k as int]));
                }
            }
            k = k + 1;
        }
        assert(cs.take(n as int) =~= cs);
        proof {
            assert forall|i: int| 0 <= i < kept@.len() implies #[trigger] rebuild_ok(kept@[i]) by {
                let o = fs[i];
                assert(fs.contains(o));
                cs.lemma_filter_contains_rev(|c: Constraint| c.level <= level, o);
                let j = choose|j: int| 0 <= j < cs.len() && cs[j] == o;
                assert(rebuild_ok(cs[j]));
                assert(kept@[i].expr.coeffs@ == o.expr.coeffs@);
                if kept@[i].expr.coeffs@.dom().len() == 1 {
                    assert(bound_floor(kept@[i].expr) == bound_floor(o.expr));
                }
            }
        }
        // Rebuild the bounds from the remaining constraints.
        let mut bounds: HashMap<VarId, VarBounds> = HashMap::new();
        let m = kept.len();
        let mut k: usize = 0;
        assert(kept@.take(0) =~= Seq::<Constraint>::empty());
        while k < m
            invariant
                m == kept@.len(),
                k <= m,
                forall|i: int| 0 <= i < kept@.len() ==> #[trigger] rebuild_ok(kept@[i]),
                bounds@ == replayed(kept@.take(k as int)),
            decreases m - k,
        {
            let c = &kept[k];
            proof {
                assert(kept@.take(k + 1).drop_last() =~= kept@.take(k as int));
                assert(kept@.take(k + 1).last() == kept@[k as int]);
                assert(rebuild_ok(kept@[k as int]));
            }
            if let Some((var, coeff)) = c.expr.get_single_var() {
                proof {
                    assert(c.expr.coeffs@.contains_key(var));
                    assert(single_var(c.expr.coeffs@) == var);
                }
                let (fl, ce) = floor_ceil(-c.expr.constant, coeff);
                let mut b = match bounds.get(&var) {
                    Some(b) => *b,
                    None => VarBounds::default(),
                };
                let ghost b0 = b;
                match c.kind {
                    ConstraintKind::Le | ConstraintKind::Lt => {
                        let strict = c.kind == ConstraintKind::Lt;
                        let val = if strict { ce - 1 } else { fl };
                        let replace = match b.upper {
                            None => true,
                            Some(ub) => ub.value > val,
                        };
                        if replace {
                            b.upper = Some(Bound { value: val, strict: false, literal: c.literal, level: c.level });
                        }
                    },
                    ConstraintKind::Ge | ConstraintKind::Gt => {
                        let strict = c.kind == ConstraintKind::Gt;
                        let val = if strict { fl + 1 } else { ce };
                        let replace = match b.lower {
                            None => true,
                            Some(lb) => lb.value < val,
                        };
                        if replace {
                            b.lower = Some(Bound { value: val, strict: false, literal: c.literal, level: c.level });
                        }
                    },
                    ConstraintKind::Eq => {
                        b.lower = Some(Bound { value: ce, strict: false, literal: c.literal, level: c.level });
                        b.upper = Some(Bound { value: fl, strict: false, literal: c.literal, level: c.level });
                    },
                    ConstraintKind::Ne => {},
                }
                assert(b == apply_bound(b0, c.kind, fl as int, ce as int, c.literal, c.level));
                bounds.insert(var, b);
            }
            k = k + 1;
        }
        assert(kept@.take(m as int) =~= kept@);
        st.bounds = bounds;
        st.constraints = kept;
        st.current_level = level;
        self.st = st;
        proof {
            lemma_facts_filter(cs, |c: Constraint| (c.literal, c.level), |c: Constraint| c.level <= level, level);
            assert(self.st.constraints@.map_values(|c: Constraint| (c.literal, c.level))
                =~= fs.map_values(|c: Constraint| (c.literal, c.level)));
        }
    }

    fn reset(&mut self)
        ensures
            final(self).bound_map() == Map::<u32, VarBounds>::empty(),
            final(self).constraint_seq().len() == 0,
            final(self).pending().len() == 0,
            final(self).level() == 0,
            final(self).var_count() == old(self).var_count(),
    {
        let mut st = self.take_state();
        st.bounds = HashMap::new();
        st.constraints = Vec::new();
        st.pending_propagations = Vec::new();
        st.current_level = 0;
        self.st = st;
    }
}

} // verus!
