//! CNF formulas: conjunctions of clauses.
use vstd::prelude::*;
use crate::clause::{Clause, ClauseRef};
use crate::literal::Literal;

verus! {

/// The largest variable index among `lits`, or `init` when it is larger.
pub open spec fn max_var(lits: Seq<Literal>, init: nat) -> nat
    decreases lits.len(),
{
    if lits.len() == 0 {
        init
    } else {
        let m = max_var(lits.drop_last(), init);
        if lits.last().var_of() > m {
            lits.last().var_of()
        } else {
            m
        }
    }
}

/// `max_var` is an upper bound of every variable and of `init`, and is one of them.
pub proof fn lemma_max_var(lits: Seq<Literal>, init: nat)
    ensures
        max_var(lits, init) >= init,
        forall|k: int| 0 <= k < lits.len() ==> max_var(lits, init) >= (#[trigger] lits[k]).var_of(),
        max_var(lits, init) == init || exists|k: int| 0 <= k < lits.len() && max_var(lits, init) == (#[trigger] lits[k]).var_of(),
        max_var(lits, init) <= 0x8000_0000 || max_var(lits, init) == init,
    decreases lits.len(),
{
    if lits.len() > 0 {
        lemma_max_var(lits.drop_last(), init);
        assert forall|k: int| 0 <= k < lits.len() implies max_var(lits, init) >= (#[trigger] lits[k]).var_of() by {
            if k < lits.len() - 1 {
                assert(lits.drop_last()[k] == lits[k]);
            }
        }
        if max_var(lits, init) != init {
            if lits.last().var_of() > max_var(lits.drop_last(), init) {
                assert(lits[lits.len() - 1] == lits.last());
            } else {
                let k = choose|k: int| 0 <= k < lits.drop_last().len() && max_var(lits.drop_last(), init) == (#[trigger] lits.drop_last()[k]).var_of();
                assert(lits.drop_last()[k] == lits[k]);
            }
        }
    }
}

/// The largest variable index among all clauses of `cs`, starting from `init`.
pub open spec fn max_var_clauses(cs: Seq<Clause>, init: nat) -> nat
    decreases cs.len(),
{
    if cs.len() == 0 {
        init
    } else {
        max_var(cs.last()@, max_var_clauses(cs.drop_last(), init))
    }
}

/// A CNF formula.
#[derive(Debug)]
pub struct Formula {
    clauses: Vec<Clause>,
    num_vars: u32,
    num_original: usize,
}

impl Formula {
    /// The clauses.
    pub closed spec fn clause_seq(&self) -> Seq<Clause> {
        self.clauses@
    }

    /// The declared or observed number of variables.
    pub closed spec fn spec_num_vars(&self) -> u32 {
        self.num_vars
    }

    /// The number of clauses that belong to the input (before learning started).
    pub closed spec fn spec_num_original(&self) -> nat {
        self.num_original as nat
    }

    /// An empty formula.
    pub fn new() -> (f: Self)
        ensures
            f.clause_seq() == Seq::<Clause>::empty(),
            f.spec_num_vars() == 0,
            f.spec_num_original() == 0,
    {
        Formula { clauses: Vec::new(), num_vars: 0, num_original: 0 }
    }

    /// An empty formula over `num_vars` variables.
    pub fn with_num_vars(num_vars: u32) -> (f: Self)
        ensures
            f.clause_seq() == Seq::<Clause>::empty(),
            f.spec_num_vars() == num_vars,
            f.spec_num_original() == 0,
    {
        Formula { clauses: Vec::new(), num_vars, num_original: 0 }
    }

    /// Add a clause, raising the number of variables to cover its literals; returns its position.
    pub fn add_clause(&mut self, clause: Clause) -> (r: ClauseRef)
        ensures
            r == old(self).clause_seq().len(),
            final(self).clause_seq() == old(self).clause_seq().push(clause),
            final(self).spec_num_vars() == max_var(clause@, old(self).spec_num_vars() as nat),
            final(self).spec_num_original() == old(self).spec_num_original(),
    {
        let lits = clause.literals();
        let n = lits.len();
        let mut k: usize = 0;
        while k < n
            invariant
                n == lits@.len(),
                lits@ == clause@,
                k <= n,
                self.num_vars == max_var(lits@.take(k as int), old(self).spec_num_vars() as nat),
                self.clauses@ == old(self).clause_seq(),
                self.num_original == old(self).spec_num_original(),
            decreases n - k,
        {
            assert(lits@.take(k + 1).drop_last() =~= lits@.take(k as int));
            let var = lits[k].variable().index();
            if var > self.num_vars {
                self.num_vars = var;
            }
            k = k + 1;
        }
        assert(lits@.take(n as int) =~= lits@);
        let idx = self.clauses.len();
        self.clauses.push(clause);
        idx
    }

    /// The number of variables.
    pub fn num_vars(&self) -> (n: u32)
        ensures
            n == self.spec_num_vars(),
    {
        self.num_vars
    }

    /// Set the number of variables (from a DIMACS header).
    pub fn set_num_vars(&mut self, num_vars: u32)
        ensures
            final(self).clause_seq() == old(self).clause_seq(),
            final(self).spec_num_vars() == num_vars,
            final(self).spec_num_original() == old(self).spec_num_original(),
    {
        self.num_vars = num_vars;
    }

    /// The number of clauses.
    pub fn num_clauses(&self) -> (n: usize)
        ensures
            n == self.clause_seq().len(),
    {
        self.clauses.len()
    }

    /// Whether the formula has no clause.
    pub fn is_empty(&self) -> (b: bool)
        ensures
            b == (self.clause_seq().len() == 0),
    {
        self.clauses.len() == 0
    }

    /// All clauses.
    pub fn clauses(&self) -> (s: &[Clause])
        ensures
            s@ == self.clause_seq(),
    {
        self.clauses.as_slice()
    }

    /// The clause at position `idx`.
    pub fn clause(&self, idx: ClauseRef) -> (c: &Clause)
        requires
            idx < self.clause_seq().len(),
        ensures
            *c == self.clause_seq()[idx as int],
    {
        &self.clauses[idx]
    }

    /// Mutable access to the clause at position `idx`.
    pub fn clause_mut(&mut self, idx: ClauseRef) -> (c: &mut Clause)
        requires
            idx < old(self).clause_seq().len(),
        ensures
            *c == old(self).clause_seq()[idx as int],
            final(self).clause_seq().len() == old(self).clause_seq().len(),
            final(self).clause_seq()[idx as int] == *final(c),
            final(self).spec_num_vars() == old(self).spec_num_vars(),
            final(self).spec_num_original() == old(self).spec_num_original(),
    {
        &mut self.clauses[idx]
    }

    /// The positions of all clauses.
    pub fn clause_refs(&self) -> (r: std::ops::Range<ClauseRef>)
        ensures
            r.start == 0,
            r.end == self.clause_seq().len(),
    {
        0..self.clauses.len()
    }

    /// Whether some clause is empty (the formula is then unsatisfiable).
    pub fn has_empty_clause(&self) -> (b: bool)
        ensures
            b == exists|i: int| 0 <= i < self.clause_seq().len() && (#[trigger] self.clause_seq()[i])@.len() == 0,
    {
        let n = self.clauses.len();
        let mut i: usize = 0;
        while i < n
            invariant
                n == self.clause_seq().len(),
                i <= n,
                forall|j: int| 0 <= j < i ==> (#[trigger] self.clause_seq()[j])@.len() != 0,
            decreases n - i,
        {
            if self.clauses[i].is_empty() {
                return true;
            }
            i = i + 1;
        }
        false
    }

    /// The unit clauses with their positions, in order.
    pub fn unit_clauses(&self) -> (r: Vec<(ClauseRef, &Clause)>)
        ensures
            forall|k: int| 0 <= k < r@.len() ==> (#[trigger] r@[k]).0 < self.clause_seq().len() && *r@[k].1 == self.clause_seq()[r@[k].0 as int] && r@[k].1@.len() == 1,
            forall|k: int, m: int| 0 <= k < m < r@.len() ==> r@[k].0 < r@[m].0,
            forall|i: int| 0 <= i < self.clause_seq().len() && (#[trigger] self.clause_seq()[i])@.len() == 1 ==> exists|k: int| 0 <= k < r@.len() && r@[k].0 == i,
    {
        let mut r: Vec<(ClauseRef, &Clause)> = Vec::new();
        let n = self.clauses.len();
        let mut i: usize = 0;
        while i < n
            invariant
                n == self.clause_seq().len(),
                i <= n,
                forall|k: int| 0 <= k < r@.len() ==> (#[trigger] r@[k]).0 < i && *r@[k].1 == self.clause_seq()[r@[k].0 as int] && r@[k].1@.len() == 1,
                forall|k: int, m: int| 0 <= k < m < r@.len() ==> r@[k].0 < r@[m].0,
                forall|j: int| 0 <= j < i && (#[trigger] self.clause_seq()[j])@.len() == 1 ==> exists|k: int| 0 <= k < r@.len() && r@[k].0 == j,
            decreases n - i,
        {
            let ghost r_old = r@;
            if self.clauses[i].is_unit() {
                r.push((i, &self.clauses[i]));
            }
            assert forall|j: int| 0 <= j < i + 1 && (#[trigger] self.clause_seq()[j])@.len() == 1 implies exists|k: int| 0 <= k < r@.len() && r@[k].0 == j by {
                if j < i {
                    let k = choose|k: int| 0 <= k < r_old.len() && r_old[k].0 == j;
                    assert(r@[k] == r_old[k]);
                } else {
                    assert(r@[r@.len() - 1].0 == j);
                }
            }
            i = i + 1;
        }
        r
    }

    /// Replace all clauses (used by clause deletion) and recompute the number of variables.
    pub fn replace_clauses(&mut self, new_clauses: Vec<Clause>)
        ensures
            final(self).clause_seq() == new_clauses@,
            final(self).spec_num_vars() == max_var_clauses(new_clauses@, 0),
            final(self).spec_num_original() == old(self).spec_num_original(),
    {
        self.clauses = new_clauses;
        self.num_vars = 0;
        let n = self.clauses.len();
        let mut i: usize = 0;
        while i < n
            invariant
                n == self.clauses@.len(),
                self.clauses@ == new_clauses@,
                i <= n,
                self.num_vars == max_var_clauses(self.clauses@.take(i as int), 0),
                self.num_original == old(self).spec_num_original(),
            decreases n - i,
        {
            assert(self.clauses@.take(i + 1).drop_last() =~= self.clauses@.take(i as int));
            let lits = self.clauses[i].literals();
            let m = lits.len();
            let mut k: usize = 0;
            let ghost base = self.num_vars as nat;
            while k < m
                invariant
                    m == lits@.len(),
                    lits@ == self.clauses@[i as int]@,
                    k <= m,
                    self.num_vars == max_var(lits@.take(k as int), base),
                    n == self.clauses@.len(),
                    self.clauses@ == new_clauses@,
                    i < n,
                    self.num_original == old(self).spec_num_original(),
                decreases m - k,
            {
                assert(lits@.take(k + 1).drop_last() =~= lits@.take(k as int));
                let var = lits[k].variable().index();
                if var > self.num_vars {
                    self.num_vars = var;
                }
                k = k + 1;
            }
            assert(lits@.take(m as int) =~= lits@);
            i = i + 1;
        }
        assert(self.clauses@.take(n as int) =~= self.clauses@);
    }

    /// The number of original (input) clauses.
    pub fn num_original_clauses(&self) -> (n: usize)
        ensures
            n == self.spec_num_original(),
    {
        self.num_original
    }

    /// Record that every clause present now is an original clause.
    pub fn mark_original_end(&mut self)
        ensures
            final(self).clause_seq() == old(self).clause_seq(),
            final(self).spec_num_vars() == old(self).spec_num_vars(),
            final(self).spec_num_original() == old(self).clause_seq().len(),
    {
        self.num_original = self.clauses.len();
    }
}

impl Default for Formula {
    fn default() -> (f: Self)
        ensures
            f.clause_seq() == Seq::<Clause>::empty(),
            f.spec_num_vars() == 0,
            f.spec_num_original() == 0,
    {
        Self::new()
    }
}

} // verus!
