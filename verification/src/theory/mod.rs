//! Theory solvers for SMT solving via DPLL(T).
//!
//! Each theory solver handles one theory (EUF, LIA, BV, arrays); the
//! DPLL(T) loop queries them after Boolean propagation.
use vstd::prelude::*;
use crate::literal::Literal;

pub mod bv;
pub mod array;
pub mod euf;
pub mod lia;
mod union_find;
pub mod congruence;

verus! {

/// A conflict found by a theory solver: literals that cannot hold together.
/// The negation of their conjunction is a valid clause.
#[derive(Debug, Clone)]
pub struct TheoryConflict {
    /// The literals that together cause the conflict.
    pub literals: Vec<Literal>,
    /// An optional explanation.
    pub explanation: Option<String>,
}

impl TheoryConflict {
    /// A conflict without explanation.
    pub fn new(literals: Vec<Literal>) -> (c: Self)
        ensures
            c.literals@ == literals@,
            c.explanation is None,
    {
        TheoryConflict { literals, explanation: None }
    }

    /// A conflict with an explanation.
    pub fn with_explanation(literals: Vec<Literal>, explanation: String) -> (c: Self)
        ensures
            c.literals@ == literals@,
            c.explanation == Some(explanation),
    {
        TheoryConflict { literals, explanation: Some(explanation) }
    }
}

/// A literal implied by a theory, with the literals that imply it.
#[derive(Debug, Clone)]
pub struct TheoryPropagation {
    /// The implied literal.
    pub literal: Literal,
    /// The literals that imply it.
    pub reason: Vec<Literal>,
}

impl TheoryPropagation {
    /// Create a propagation.
    pub fn new(literal: Literal, reason: Vec<Literal>) -> (p: Self)
        ensures
            p.literal == literal,
            p.reason@ == reason@,
    {
        TheoryPropagation { literal, reason }
    }
}

/// The answer of a consistency check.
#[derive(Debug, Clone)]
pub enum TheoryResult {
    /// The asserted facts are consistent.
    Consistent,
    /// The asserted facts conflict.
    Conflict(TheoryConflict),
}

/// Keeping the items of `s` whose level is at most `level`, then taking their literals
/// and levels, is taking the literals and levels, then keeping those of level at most
/// `level`.
pub proof fn lemma_facts_filter<A>(s: Seq<A>, f: spec_fn(A) -> (Literal, u32), p: spec_fn(A) -> bool, level: u32)
    requires
        forall|a: A| #[trigger] p(a) == (f(a).1 <= level),
    ensures
        s.filter(p).map_values(f) == s.map_values(f).filter(|q: (Literal, u32)| q.1 <= level),
    decreases s.len(),
{
    if s.len() == 0 {
        assert(s.filter(p) =~= Seq::<A>::empty());
        assert(s.map_values(f).filter(|q: (Literal, u32)| q.1 <= level) =~= Seq::<(Literal, u32)>::empty());
        assert(s.filter(p).map_values(f) =~= Seq::<(Literal, u32)>::empty());
    } else {
        let t = s.drop_last();
        let x = s.last();
        lemma_facts_filter(t, f, p, level);
        assert(t.push(x) =~= s);
        t.lemma_filter_push(x, p);
        t.map_values(f).lemma_filter_push(f(x), |q: (Literal, u32)| q.1 <= level);
        assert(t.push(x).map_values(f) =~= t.map_values(f).push(f(x)));
        assert(t.filter(p).push(x).map_values(f) =~= t.filter(p).map_values(f).push(f(x)));
    }
}

/// A theory solver, as the DPLL(T) loop drives it.
pub trait TheorySolver {
    /// The literals asserted to the solver that it still holds, each with the decision
    /// level at which it was asserted; a solver that records none has none.
    open spec fn facts(&self) -> Seq<(Literal, u32)> {
        Seq::empty()
    }

    /// The theory's name.
    fn name(&self) -> &'static str;

    /// Assert a literal at a decision level; an immediately inconsistent assertion gives a conflict.
    fn assert_literal(&mut self, lit: Literal, level: u32) -> Result<(), TheoryConflict>;

    /// Check the consistency of the current assertions.
    fn check(&mut self) -> TheoryResult;

    /// The literals implied by the current assertions.
    fn propagate(&mut self) -> Vec<TheoryPropagation>;

    /// The literals that imply `lit`.
    fn explain(&self, lit: Literal) -> Vec<Literal>;

    /// Undo everything asserted above decision level `level`: the facts kept are those of
    /// a level at most `level`, in their order.
    fn backtrack(&mut self, level: u32)
        ensures
            final(self).facts() == old(self).facts().filter(|p: (Literal, u32)| p.1 <= level);

    /// Return to the initial state, holding no facts.
    fn reset(&mut self)
        ensures
            final(self).facts().len() == 0;
}

/// A registered theory solver.
struct Registered {
    solver: Box<dyn TheorySolver>,
}

/// Pushing onto a sequence of registered solvers makes it one longer.
proof fn lemma_push_len(s: Seq<Registered>, x: Registered)
    ensures
        s.push(x).len() == s.len() + 1,
{
    broadcast use vstd::seq::group_seq_axioms;
}

/// Drives several theory solvers together. Besides the solvers it records, as ghost
/// state, the literals it has handed them with their decision levels and not yet
/// taken back by a backtrack or a reset.
pub struct TheoryManager {
    solvers: Vec<Registered>,
    handed: Ghost<Seq<(Literal, u32)>>,
}

impl TheoryManager {
    /// The number of registered solvers.
    pub closed spec fn num_solvers(&self) -> nat {
        self.solvers@.len()
    }

    /// The literals handed to the solvers, in order, with their decision levels.
    pub closed spec fn asserted(&self) -> Seq<(Literal, u32)> {
        self.handed@
    }

    /// The facts that the `i`-th registered solver holds.
    pub closed spec fn solver_facts(&self, i: int) -> Seq<(Literal, u32)> {
        self.solvers@[i].solver.facts()
    }

    /// A manager without solvers.
    pub fn new() -> (m: Self)
        ensures
            m.num_solvers() == 0,
            m.asserted().len() == 0,
    {
        TheoryManager { solvers: Vec::new(), handed: Ghost(Seq::empty()) }
    }

    /// Register a solver.
    pub fn add_solver(&mut self, solver: Box<dyn TheorySolver>)
        ensures
            final(self).num_solvers() == old(self).num_solvers() + 1,
            final(self).asserted() == old(self).asserted(),
    {
        let r = Registered { solver };
        let ghost before = self.solvers@;
        proof {
            lemma_push_len(before, r);
        }
        self.solvers.push(r);
    }

    /// Assert a literal to every solver in turn, stopping at the first conflict; the
    /// literal counts as handed over either way.
    pub fn assert_literal(&mut self, lit: Literal, level: u32) -> (r: Result<(), TheoryConflict>)
        ensures
            final(self).num_solvers() == old(self).num_solvers(),
            final(self).asserted() == old(self).asserted().push((lit, level)),
            old(self).num_solvers() == 0 ==> r is Ok,
    {
        self.handed = Ghost(self.handed@.push((lit, level)));
        let ghost h = self.handed@;
        let n = self.solvers.len();
        let mut i: usize = 0;
        while i < n
            invariant
                n == self.solvers@.len(),
                n == old(self).num_solvers(),
                self.handed@ == h,
                h == old(self).handed@.push((lit, level)),
                i <= n,
            decreases n - i,
        {
            let res = self.solvers[i].solver.assert_literal(lit, level);
            if let Err(c) = res {
                assert(self.handed@ == h);
                return Err(c);
            }
            i = i + 1;
        }
        Ok(())
    }

    /// Check every solver in turn; the first conflict is returned.
    pub fn check(&mut self) -> (r: TheoryResult)
        ensures
            final(self).num_solvers() == old(self).num_solvers(),
            final(self).asserted() == old(self).asserted(),
            old(self).num_solvers() == 0 ==> r is Consistent,
    {
        let ghost h = self.handed@;
        let n = self.solvers.len();
        let mut i: usize = 0;
        while i < n
            invariant
                n == self.solvers@.len(),
                n == old(self).num_solvers(),
                self.handed@ == h,
                h == old(self).handed@,
                i <= n,
            decreases n - i,
        {
            match self.solvers[i].solver.check() {
                TheoryResult::Consistent => {},
                conflict => {
                    assert(self.handed@ == h);
                    return conflict;
                },
            }
            i = i + 1;
        }
        TheoryResult::Consistent
    }

    /// The propagations of every solver, in the order of the solvers.
    pub fn propagate(&mut self) -> (r: Vec<TheoryPropagation>)
        ensures
            final(self).num_solvers() == old(self).num_solvers(),
            final(self).asserted() == old(self).asserted(),
            old(self).num_solvers() == 0 ==> r@.len() == 0,
    {
        let mut props: Vec<TheoryPropagation> = Vec::new();
        let ghost h = self.handed@;
        let n = self.solvers.len();
        let mut i: usize = 0;
        while i < n
            invariant
                n == self.solvers@.len(),
                n == old(self).num_solvers(),
                self.handed@ == h,
                i <= n,
                n == 0 ==> props@.len() == 0,
            decreases n - i,
        {
            let mut more = self.solvers[i].solver.propagate();
            props.append(&mut more);
            i = i + 1;
        }
        props
    }

    /// Backtrack every solver; the literals handed over above `level` are taken back.
    pub fn backtrack(&mut self, level: u32)
        ensures
            final(self).num_solvers() == old(self).num_solvers(),
            final(self).asserted() == old(self).asserted().filter(|p: (Literal, u32)| p.1 <= level),
            forall|i: int| 0 <= i < old(self).num_solvers() ==> #[trigger] final(self).solver_facts(i)
                == old(self).solver_facts(i).filter(|p: (Literal, u32)| p.1 <= level),
    {
        self.handed = Ghost(self.handed@.filter(|p: (Literal, u32)| p.1 <= level));
        let mut pending: Vec<Registered> = Vec::new();
        std::mem::swap(&mut pending, &mut self.solvers);
        let ghost olds = pending@;
        let mut done: Vec<Registered> = Vec::new();
        while pending.len() > 0
            invariant
                olds == old(self).solvers@,
                done@.len() + pending@.len() == olds.len(),
                pending@ == olds.subrange(done@.len() as int, olds.len() as int),
                forall|j: int| 0 <= j < done@.len() ==> #[trigger] done@[j].solver.facts()
                    == olds[j].solver.facts().filter(|p: (Literal, u32)| p.1 <= level),
            decreases pending@.len(),
        {
            let mut r = pending.remove(0);
            proof {
                assert(r == olds[done@.len() as int]);
            }
            r.solver.backtrack(level);
            done.push(r);
            proof {
                assert(pending@ =~= olds.subrange(done@.len() as int, olds.len() as int));
            }
        }
        self.solvers = done;
    }

    /// Reset every solver; every literal handed over is taken back.
    pub fn reset(&mut self)
        ensures
            final(self).num_solvers() == old(self).num_solvers(),
            final(self).asserted().len() == 0,
            forall|i: int| 0 <= i < old(self).num_solvers() ==> (#[trigger] final(self).solver_facts(i)).len() == 0,
    {
        self.handed = Ghost(Seq::empty());
        let mut pending: Vec<Registered> = Vec::new();
        std::mem::swap(&mut pending, &mut self.solvers);
        let ghost olds = pending@;
        let mut done: Vec<Registered> = Vec::new();
        while pending.len() > 0
            invariant
                olds == old(self).solvers@,
                done@.len() + pending@.len() == olds.len(),
                pending@ == olds.subrange(done@.len() as int, olds.len() as int),
                forall|j: int| 0 <= j < done@.len() ==> (#[trigger] done@[j].solver.facts()).len() == 0,
            decreases pending@.len(),
        {
            let mut r = pending.remove(0);
            r.solver.reset();
            done.push(r);
            proof {
                assert(pending@ =~= olds.subrange(done@.len() as int, olds.len() as int));
            }
        }
        self.solvers = done;
    }

    /// Whether no solver is registered.
    pub fn is_empty(&self) -> (b: bool)
        ensures
            b == (self.num_solvers() == 0),
    {
        self.solvers.len() == 0
    }
}

impl Default for TheoryManager {
    fn default() -> (m: Self)
        ensures
            m.num_solvers() == 0,
    {
        Self::new()
    }
}

} // verus!
