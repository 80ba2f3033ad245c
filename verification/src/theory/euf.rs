//! Equality with uninterpreted functions: terms are interned to identifiers,
//! equalities merge classes in a union-find structure, and a disequality
//! between two terms of one class is a conflict.
use vstd::prelude::*;
use crate::literal::Literal;
use crate::theory::{TheoryConflict, TheoryPropagation, TheoryResult, TheorySolver, lemma_facts_filter};
use crate::theory::union_find::{UnionFind, connected};
use crate::theory::congruence::{congruent, congruence_classes};

verus! {

/// Term identifier.
pub type TermId = u32;

/// A term: a variable, or a function applied to interned arguments.
#[derive(Debug, Clone, PartialEq, Eq, Hash)]
pub enum EufTerm {
    /// A variable.
    Var(String),
    /// A function application.
    App(String, Vec<TermId>),
}

/// Whether two terms are the same term.
pub open spec fn term_matches(a: EufTerm, b: EufTerm) -> bool {
    match (a, b) {
        (EufTerm::Var(s), EufTerm::Var(t)) => s@ == t@,
        (EufTerm::App(f, xs), EufTerm::App(g, ys)) => f@ == g@ && xs@ == ys@,
        _ => false,
    }
}

fn same_ids(xs: &Vec<TermId>, ys: &Vec<TermId>) -> (b: bool)
    ensures
        b == (xs@ == ys@),
{
    if xs.len() != ys.len() {
        return false;
    }
    let mut i: usize = 0;
    while i < xs.len()
        invariant
            xs@.len() == ys@.len(),
            i <= xs@.len(),
            forall|j: int| 0 <= j < i ==> xs@[j] == ys@[j],
        decreases xs.len() - i,
    {
        if xs[i] != ys[i] {
            return false;
        }
        i = i + 1;
    }
    assert(xs@ =~= ys@);
    true
}

fn same_term(a: &EufTerm, b: &EufTerm) -> (r: bool)
    ensures
        r == term_matches(*a, *b),
{
    match (a, b) {
        (EufTerm::Var(s), EufTerm::Var(t)) => *s == *t,
        (EufTerm::App(f, xs), EufTerm::App(g, ys)) => *f == *g && same_ids(xs, ys),
        _ => false,
    }
}

/// An asserted equality or disequality.
#[derive(Debug, Clone, Copy)]
struct EufAssertion {
    lhs: TermId,
    rhs: TermId,
    is_equality: bool,
    literal: Literal,
    level: u32,
}

/// The equalities among `asserts`, in order.
spec fn eq_pairs(asserts: Seq<EufAssertion>) -> Seq<(u32, u32)>
    decreases asserts.len(),
{
    if asserts.len() == 0 {
        Seq::empty()
    } else {
        let a = asserts.last();
        let pre = eq_pairs(asserts.drop_last());
        if a.is_equality { pre.push((a.lhs, a.rhs)) } else { pre }
    }
}

/// The disequalities among `asserts`, in order: both terms and the literal.
spec fn diseq_triples(asserts: Seq<EufAssertion>) -> Seq<(u32, u32, Literal)>
    decreases asserts.len(),
{
    if asserts.len() == 0 {
        Seq::empty()
    } else {
        let a = asserts.last();
        let pre = diseq_triples(asserts.drop_last());
        if a.is_equality { pre } else { pre.push((a.lhs, a.rhs, a.literal)) }
    }
}

/// Recording one more assertion adds its disequality, if it is one, to those kept at
/// any level not below its own.
proof fn lemma_diseq_up_to_push(a0: Seq<EufAssertion>, asn: EufAssertion, l: u32)
    ensures
        diseq_triples(a0.push(asn).filter(|a: EufAssertion| a.level <= l)) == if asn.level <= l && !asn.is_equality {
            diseq_triples(a0.filter(|a: EufAssertion| a.level <= l)).push((asn.lhs, asn.rhs, asn.literal))
        } else {
            diseq_triples(a0.filter(|a: EufAssertion| a.level <= l))
        },
{
    a0.lemma_filter_push(asn, |a: EufAssertion| a.level <= l);
    let fl = a0.filter(|a: EufAssertion| a.level <= l);
    assert(fl.push(asn).drop_last() =~= fl);
}

/// The literals of the equalities among `asserts`.
spec fn eq_literals(asserts: Seq<EufAssertion>) -> Set<Literal> {
    Set::new(|l: Literal| exists|k: int| 0 <= k < asserts.len() && (#[trigger] asserts[k]).is_equality && asserts[k].literal == l)
}

proof fn lemma_eq_pairs_push(asserts: Seq<EufAssertion>, a: EufAssertion)
    ensures
        eq_pairs(asserts.push(a)) == (if a.is_equality { eq_pairs(asserts).push((a.lhs, a.rhs)) } else { eq_pairs(asserts) }),
{
    assert(asserts.push(a).drop_last() =~= asserts);
}

/// The parts of the solver's state.
struct EufState {
    terms: Vec<EufTerm>,
    uf: UnionFind,
    assertions: Vec<EufAssertion>,
    disequalities: Vec<(TermId, TermId, Literal)>,
    pending_propagations: Vec<TheoryPropagation>,
    current_level: u32,
}

/// The state's invariant: the union-find structure holds exactly the terms, its classes
/// are those generated by the asserted equalities, each proof edge carries the literal of
/// an asserted equality, and no term is interned twice.
spec fn state_ok(st: EufState) -> bool {
    &&& shape_ok(st)
    &&& classes_ok(st)
}

/// The invariant's parts that do not concern the union-find structure.
spec fn shape_ok(st: EufState) -> bool {
    &&& st.terms@.len() <= u32::MAX
    &&& forall|k: int| 0 <= k < st.assertions@.len() ==> (#[trigger] st.assertions@[k]).lhs < st.terms@.len() && st.assertions@[k].rhs < st.terms@.len()
    &&& forall|k: int| 0 <= k < st.disequalities@.len() ==> (#[trigger] st.disequalities@[k]).0 < st.terms@.len() && st.disequalities@[k].1 < st.terms@.len()
    &&& forall|i: int, j: int| 0 <= i < j < st.terms@.len() ==> !term_matches(#[trigger] st.terms@[i], #[trigger] st.terms@[j])
}

/// The invariant's parts that concern the union-find structure.
spec fn classes_ok(st: EufState) -> bool {
    &&& st.uf.wf()
    &&& forall|x: u32| #[trigger] st.uf.dom().contains(x) <==> x < st.terms@.len()
    &&& forall|x: u32, y: u32| #[trigger] st.uf.same(x, y) == connected(eq_pairs(st.assertions@), x, y)
    &&& forall|x: u32| #[trigger] st.uf.edges().contains_key(x) ==> eq_literals(st.assertions@).contains(st.uf.edges()[x].1)
}

impl EufState {
    /// The asserted equalities, in order.
    fn equality_pairs(&self) -> (eqs: Vec<(TermId, TermId)>)
        requires
            shape_ok(*self),
        ensures
            eqs@ == eq_pairs(self.assertions@),
            forall|k: int| 0 <= k < eqs@.len() ==> (#[trigger] eqs@[k]).0 < self.terms@.len() && eqs@[k].1 < self.terms@.len(),
    {
        let mut eqs: Vec<(TermId, TermId)> = Vec::new();
        let n = self.assertions.len();
        let mut k: usize = 0;
        while k < n
            invariant
                n == self.assertions@.len(),
                k <= n,
                shape_ok(*self),
                eqs@ == eq_pairs(self.assertions@.take(k as int)),
                forall|q: int| 0 <= q < eqs@.len() ==> (#[trigger] eqs@[q]).0 < self.terms@.len() && eqs@[q].1 < self.terms@.len(),
            decreases n - k,
        {
            let a = self.assertions[k];
            proof {
                assert(self.assertions@.take(k + 1).drop_last() =~= self.assertions@.take(k as int));
                assert(self.assertions@.take(k + 1).last() == a);
            }
            if a.is_equality {
                eqs.push((a.lhs, a.rhs));
            }
            k = k + 1;
        }
        assert(self.assertions@.take(n as int) =~= self.assertions@);
        eqs
    }

    /// The literals of the asserted equalities, in order.
    fn equality_literal_list(&self) -> (lits: Vec<Literal>)
        ensures
            forall|i: int| 0 <= i < lits@.len() ==> eq_literals(self.assertions@).contains(#[trigger] lits@[i]),
    {
        let mut lits: Vec<Literal> = Vec::new();
        let n = self.assertions.len();
        let mut k: usize = 0;
        while k < n
            invariant
                n == self.assertions@.len(),
                k <= n,
                forall|i: int| 0 <= i < lits@.len() ==> eq_literals(self.assertions@).contains(#[trigger] lits@[i]),
            decreases n - k,
        {
            let a = self.assertions[k];
            if a.is_equality {
                assert(self.assertions@[k as int].is_equality && self.assertions@[k as int].literal == a.literal);
                lits.push(a.literal);
            }
            k = k + 1;
        }
        lits
    }

    fn empty() -> (st: EufState)
        ensures
            state_ok(st),
            st.terms@.len() == 0,
            st.assertions@.len() == 0,
            st.disequalities@.len() == 0,
            st.pending_propagations@.len() == 0,
            st.current_level == 0,
            forall|x: u32| #[trigger] st.uf.rep(x) == x,
    {
        let st = EufState {
            terms: Vec::new(),
            uf: UnionFind::new(),
            assertions: Vec::new(),
            disequalities: Vec::new(),
            pending_propagations: Vec::new(),
            current_level: 0,
        };
        proof {
            assert forall|x: u32, y: u32| #[trigger] st.uf.same(x, y) == connected(eq_pairs(st.assertions@), x, y) by {
                assert(st.uf.rep(x) == x);
                assert(st.uf.rep(y) == y);
            }
        }
        st
    }

    /// Rebuild the union-find structure from scratch by replaying the asserted equalities.
    fn rebuild_uf(&mut self)
        requires
            shape_ok(*old(self)),
        ensures
            state_ok(*final(self)),
            final(self).terms == old(self).terms,
            final(self).assertions == old(self).assertions,
            final(self).disequalities == old(self).disequalities,
            final(self).pending_propagations == old(self).pending_propagations,
            final(self).current_level == old(self).current_level,
    {
        self.uf.clear();
        let n = self.terms.len();
        let mut i: usize = 0;
        while i < n
            invariant
                shape_ok(*self),
                self.terms == old(self).terms,
                self.assertions == old(self).assertions,
                self.disequalities == old(self).disequalities,
                self.pending_propagations == old(self).pending_propagations,
                self.current_level == old(self).current_level,
                n == self.terms@.len(),
                i <= n,
                self.uf.wf(),
                forall|x: u32| #[trigger] self.uf.dom().contains(x) <==> x < i,
                forall|x: u32| #[trigger] self.uf.rep(x) == x,
                self.uf.edges() == Map::<u32, (u32, Literal)>::empty(),
            decreases n - i,
        {
            self.uf.add(i as u32);
            i = i + 1;
        }
        let m = self.assertions.len();
        let mut k: usize = 0;
        while k < m
            invariant
                shape_ok(*self),
                self.terms == old(self).terms,
                self.assertions == old(self).assertions,
                self.disequalities == old(self).disequalities,
                self.pending_propagations == old(self).pending_propagations,
                self.current_level == old(self).current_level,
                n == self.terms@.len(),
                m == self.assertions@.len(),
                k <= m,
                self.uf.wf(),
                forall|x: u32| #[trigger] self.uf.dom().contains(x) <==> x < n,
                forall|x: u32, y: u32| #[trigger] self.uf.same(x, y) == connected(eq_pairs(self.assertions@.take(k as int)), x, y),
                forall|x: u32| #[trigger] self.uf.edges().contains_key(x) ==> eq_literals(self.assertions@).contains(self.uf.edges()[x].1),
            decreases m - k,
        {
            let a = self.assertions[k];
            let ghost uf0 = self.uf;
            let ghost pre = self.assertions@.take(k as int);
            proof {
                assert(self.assertions@.take(k + 1) == pre.push(a));
                lemma_eq_pairs_push(pre, a);
                assert(a == self.assertions@[k as int]);
            }
            if a.is_equality {
                self.uf.union(a.lhs, a.rhs, a.literal);
                proof {
                    let post = eq_pairs(pre.push(a));
                    assert(post.drop_last() =~= eq_pairs(pre));
                    assert forall|x: u32, y: u32| #[trigger] self.uf.same(x, y) == connected(post, x, y) by {
                        assert(uf0.same(x, y) == connected(eq_pairs(pre), x, y));
                        assert(uf0.same(x, a.lhs) == connected(eq_pairs(pre), x, a.lhs));
                        assert(uf0.same(y, a.rhs) == connected(eq_pairs(pre), y, a.rhs));
                        assert(uf0.same(x, a.rhs) == connected(eq_pairs(pre), x, a.rhs));
                        assert(uf0.same(y, a.lhs) == connected(eq_pairs(pre), y, a.lhs));
                    }
                    assert forall|x: u32| #[trigger] self.uf.edges().contains_key(x) implies eq_literals(self.assertions@).contains(self.uf.edges()[x].1) by {
                        if !uf0.edges().contains_key(x) {
                            assert(self.assertions@[k as int].is_equality && self.assertions@[k as int].literal == a.literal);
                        }
                    }
                }
            }
            k = k + 1;
        }
        assert(self.assertions@.take(m as int) =~= self.assertions@);
    }
}

/// The solver for equality with uninterpreted functions.
pub struct EufSolver {
    st: EufState,
}

impl EufSolver {
    /// The interned terms, indexed by identifier.
    pub closed spec fn term_seq(&self) -> Seq<EufTerm> {
        self.st.terms@
    }

    /// The asserted equalities, in order.
    pub closed spec fn equalities(&self) -> Seq<(u32, u32)> {
        eq_pairs(self.st.assertions@)
    }

    /// The literals of the asserted equalities.
    pub closed spec fn equality_literals(&self) -> Set<Literal> {
        eq_literals(self.st.assertions@)
    }

    /// The asserted disequalities, in order: both terms and the literal.
    pub closed spec fn diseq_seq(&self) -> Seq<(u32, u32, Literal)> {
        self.st.disequalities@
    }

    /// The representative of `x`'s class.
    pub closed spec fn rep(&self, x: u32) -> u32 {
        self.st.uf.rep(x)
    }

    /// The literals on the proof path from `x`.
    pub closed spec fn proof_path(&self, x: u32) -> Seq<Literal> {
        self.st.uf.path(x)
    }

    /// The current decision level.
    pub closed spec fn level(&self) -> u32 {
        self.st.current_level
    }

    /// The asserted equalities whose decision level is at most `level`, in order.
    pub closed spec fn equalities_up_to(&self, level: u32) -> Seq<(u32, u32)> {
        eq_pairs(self.st.assertions@.filter(|a: EufAssertion| a.level <= level))
    }

    /// The asserted disequalities whose decision level is at most `level`, in order.
    pub closed spec fn disequalities_up_to(&self, level: u32) -> Seq<(u32, u32, Literal)> {
        diseq_triples(self.st.assertions@.filter(|a: EufAssertion| a.level <= level))
    }

    /// Whether the `k`-th disequality is contradicted by the congruence closure of the
    /// asserted equalities.
    pub open spec fn congruence_violated(&self, k: int) -> bool {
        congruent(self.term_seq(), self.equalities(), self.diseq_seq()[k].0, self.diseq_seq()[k].1)
    }

    /// Whether the `k`-th disequality is contradicted by the asserted equalities.
    pub open spec fn diseq_violated(&self, k: int) -> bool {
        connected(self.equalities(), self.diseq_seq()[k].0, self.diseq_seq()[k].1)
    }

    /// The propagations not yet handed out.
    pub closed spec fn pending(&self) -> Seq<TheoryPropagation> {
        self.st.pending_propagations@
    }

    #[verifier::type_invariant]
    spec fn inv(self) -> bool {
        state_ok(self.st)
    }

    /// Move the state out, leaving an empty solver behind.
    fn take_state(&mut self) -> (st: EufState)
        ensures
            st == old(self).st,
            state_ok(st),
    {
        proof {
            use_type_invariant(&*self);
        }
        let mut taken = EufSolver { st: EufState::empty() };
        std::mem::swap(&mut taken, self);
        let EufSolver { st } = taken;
        st
    }

    /// A solver without terms or assertions.
    pub fn new() -> (s: Self)
        ensures
            s.term_seq().len() == 0,
            s.equalities().len() == 0,
            s.diseq_seq().len() == 0,
            forall|l: u32| (#[trigger] s.disequalities_up_to(l)).len() == 0,
            s.pending().len() == 0,
            s.level() == 0,
    {
        let s = EufSolver { st: EufState::empty() };
        proof {
            assert forall|l: u32| (#[trigger] s.disequalities_up_to(l)).len() == 0 by {
                assert(s.st.assertions@.filter(|a: EufAssertion| a.level <= l) =~= Seq::<EufAssertion>::empty());
            }
        }
        s
    }

    /// The number of interned terms.
    pub fn num_terms(&self) -> (n: usize)
        ensures
            n == self.term_seq().len(),
    {
        self.st.terms.len()
    }

    /// The identifier of `term`, interning it when it is new.
    pub fn intern_term(&mut self, term: EufTerm) -> (id: TermId)
        requires
            old(self).term_seq().len() < u32::MAX,
        ensures
            id < final(self).term_seq().len(),
            term_matches(final(self).term_seq()[id as int], term),
            (exists|i: int| 0 <= i < old(self).term_seq().len() && term_matches(#[trigger] old(self).term_seq()[i], term))
                ==> *final(self) == *old(self),
            !(exists|i: int| 0 <= i < old(self).term_seq().len() && term_matches(#[trigger] old(self).term_seq()[i], term))
                ==> id == old(self).term_seq().len() && final(self).term_seq() == old(self).term_seq().push(term),
            final(self).equalities() == old(self).equalities(),
            final(self).equality_literals() == old(self).equality_literals(),
            final(self).diseq_seq() == old(self).diseq_seq(),
            final(self).pending() == old(self).pending(),
            final(self).level() == old(self).level(),
            forall|x: u32| #[trigger] final(self).rep(x) == old(self).rep(x),
    {
        proof {
            use_type_invariant(&*self);
        }
        let n = self.st.terms.len();
        let mut i: usize = 0;
        while i < n
            invariant
                n == self.st.terms@.len(),
                n < u32::MAX,
                i <= n,
                forall|j: int| 0 <= j < i ==> !term_matches(#[trigger] self.st.terms@[j], term),
            decreases n - i,
        {
            if same_term(&self.st.terms[i], &term) {
                return i as TermId;
            }
            i = i + 1;
        }
        let mut st = self.take_state();
        let id = n as TermId;
        let ghost old_terms = st.terms@;
        let ghost old_uf = st.uf;
        st.terms.push(term);
        st.uf.add(id);
        proof {
            assert forall|x: u32| #[trigger] st.uf.dom().contains(x) <==> x < st.terms@.len() by {
                assert(old_uf.dom().contains(x) <==> x < old_terms.len());
            }
            assert forall|x: u32, y: u32| #[trigger] st.uf.same(x, y) == connected(eq_pairs(st.assertions@), x, y) by {
                assert(st.uf.rep(x) == old_uf.rep(x));
                assert(st.uf.rep(y) == old_uf.rep(y));
                assert(old_uf.same(x, y) == connected(eq_pairs(st.assertions@), x, y));
            }
            assert forall|i: int, j: int| 0 <= i < j < st.terms@.len() implies !term_matches(#[trigger] st.terms@[i], #[trigger] st.terms@[j]) by {
                if j < old_terms.len() {
                    assert(st.terms@[i] == old_terms[i] && st.terms@[j] == old_terms[j]);
                } else {
                    assert(st.terms@[i] == old_terms[i]);
                    assert(!term_matches(old_terms[i], term));
                }
            }
        }
        self.st = st;
        id
    }

    /// Every fact but the union-find structure is the same in `self` and `o`.
    pub open spec fn same_facts(&self, o: &Self) -> bool {
        &&& self.term_seq() == o.term_seq()
        &&& self.equalities() == o.equalities()
        &&& self.equality_literals() == o.equality_literals()
        &&& self.diseq_seq() == o.diseq_seq()
        &&& self.pending() == o.pending()
        &&& self.level() == o.level()
    }

    /// The representative of a term's class, compressing the path to it.
    pub fn find(&mut self, x: TermId) -> (r: TermId)
        requires
            x < old(self).term_seq().len(),
        ensures
            r == old(self).rep(x),
            forall|y: u32| #[trigger] connected(old(self).equalities(), x, y) == (old(self).rep(y) == r),
            final(self).same_facts(old(self)),
            forall|y: u32| #[trigger] final(self).rep(y) == old(self).rep(y),
            forall|y: u32| #[trigger] final(self).proof_path(y) == old(self).proof_path(y),
    {
        let mut st = self.take_state();
        let r = st.uf.find(x);
        proof {
            assert forall|y: u32| #[trigger] connected(old(self).equalities(), x, y) == (old(self).rep(y) == r) by {
                assert(old(self).st.uf.same(x, y) == connected(eq_pairs(old(self).st.assertions@), x, y));
            }
            assert forall|a: u32, b: u32| #[trigger] st.uf.same(a, b) == connected(eq_pairs(st.assertions@), a, b) by {
                assert(old(self).st.uf.same(a, b) == connected(eq_pairs(old(self).st.assertions@), a, b));
                assert(st.uf.rep(a) == old(self).st.uf.rep(a));
                assert(st.uf.rep(b) == old(self).st.uf.rep(b));
            }
        }
        self.st = st;
        r
    }

    /// The representative of a term's class, without changing the solver.
    pub fn find_const(&self, x: TermId) -> (r: TermId)
        requires
            x < self.term_seq().len(),
        ensures
            r == self.rep(x),
    {
        proof {
            use_type_invariant(self);
        }
        self.st.uf.find_const(x)
    }

    /// Whether the asserted equalities and congruence make `a` and `b` equal: they are
    /// equal in the congruence closure of the equalities over the interned terms.
    pub fn are_equal(&mut self, a: TermId, b: TermId) -> (r: bool)
        requires
            a < old(self).term_seq().len(),
            b < old(self).term_seq().len(),
        ensures
            r == congruent(old(self).term_seq(), old(self).equalities(), a, b),
            *final(self) == *old(self),
    {
        proof {
            use_type_invariant(&*self);
        }
        let eqs = self.st.equality_pairs();
        let rep = congruence_classes(&self.st.terms, &eqs);
        rep[a as usize] == rep[b as usize]
    }

    /// Whether the asserted equalities alone make `a` and `b` equal.
    fn connected_terms(&mut self, a: TermId, b: TermId) -> (r: bool)
        requires
            a < old(self).term_seq().len(),
            b < old(self).term_seq().len(),
        ensures
            r == connected(old(self).equalities(), a, b),
            r == (old(self).rep(a) == old(self).rep(b)),
            final(self).same_facts(old(self)),
            forall|y: u32| #[trigger] final(self).rep(y) == old(self).rep(y),
            forall|y: u32| #[trigger] final(self).proof_path(y) == old(self).proof_path(y),
    {
        let ra = self.find(a);
        let rb = self.find(b);
        ra == rb
    }

    /// Record the equality `lhs = rhs`, asserted by `literal` at `level`, and merge the classes.
    pub fn assert_equality(&mut self, lhs: TermId, rhs: TermId, literal: Literal, level: u32)
        requires
            lhs < old(self).term_seq().len(),
            rhs < old(self).term_seq().len(),
        ensures
            final(self).equalities() == old(self).equalities().push((lhs, rhs)),
            final(self).equality_literals() == old(self).equality_literals().insert(literal),
            final(self).term_seq() == old(self).term_seq(),
            final(self).diseq_seq() == old(self).diseq_seq(),
            forall|l: u32| #[trigger] final(self).disequalities_up_to(l) == old(self).disequalities_up_to(l),
            final(self).pending() == old(self).pending(),
            final(self).level() == level,
            forall|x: u32, y: u32| #[trigger] connected(final(self).equalities(), x, y) == (final(self).rep(x) == final(self).rep(y)),
    {
        let mut st = self.take_state();
        let ghost a0 = st.assertions@;
        let ghost uf0 = st.uf;
        let asn = EufAssertion { lhs, rhs, is_equality: true, literal, level };
        st.assertions.push(asn);
        st.current_level = level;
        st.uf.union(lhs, rhs, literal);
        proof {
            let a1 = st.assertions@;
            assert(a1 == a0.push(asn));
            lemma_eq_pairs_push(a0, asn);
            assert(eq_pairs(a1).drop_last() =~= eq_pairs(a0));
            assert(eq_literals(a1) =~= eq_literals(a0).insert(literal)) by {
                assert(a1[a0.len() as int] == asn);
                assert forall|l: Literal| eq_literals(a0).contains(l) implies eq_literals(a1).contains(l) by {
                    let k = choose|k: int| 0 <= k < a0.len() && (#[trigger] a0[k]).is_equality && a0[k].literal == l;
                    assert(a1[k] == a0[k]);
                }
                assert forall|l: Literal| eq_literals(a1).contains(l) && l != literal implies eq_literals(a0).contains(l) by {
                    let k = choose|k: int| 0 <= k < a1.len() && (#[trigger] a1[k]).is_equality && a1[k].literal == l;
                    assert(k < a0.len());
                    assert(a1[k] == a0[k]);
                }
            }
            assert forall|x: u32, y: u32| #[trigger] st.uf.same(x, y) == connected(eq_pairs(a1), x, y) by {
                assert(uf0.same(x, y) == connected(eq_pairs(a0), x, y));
                assert(uf0.same(x, lhs) == connected(eq_pairs(a0), x, lhs));
                assert(uf0.same(y, rhs) == connected(eq_pairs(a0), y, rhs));
                assert(uf0.same(x, rhs) == connected(eq_pairs(a0), x, rhs));
                assert(uf0.same(y, lhs) == connected(eq_pairs(a0), y, lhs));
            }
            assert forall|x: u32| #[trigger] st.uf.edges().contains_key(x) implies eq_literals(a1).contains(st.uf.edges()[x].1) by {
                if uf0.edges().contains_key(x) {
                    assert(eq_literals(a0).contains(uf0.edges()[x].1));
                }
            }
            assert forall|k: int| 0 <= k < a1.len() implies (#[trigger] a1[k]).lhs < st.terms@.len() && a1[k].rhs < st.terms@.len() by {
                if k < a0.len() {
                    assert(a1[k] == a0[k]);
                }
            }
        }
        self.st = st;
        proof {
            assert forall|l: u32| #[trigger] self.disequalities_up_to(l) == old(self).disequalities_up_to(l) by {
                lemma_diseq_up_to_push(a0, asn, l);
            }
        }
        proof {
            assert forall|x: u32, y: u32| #[trigger] connected(self.equalities(), x, y) == (self.rep(x) == self.rep(y)) by {
                assert(self.st.uf.same(x, y) == connected(eq_pairs(self.st.assertions@), x, y));
            }
        }
    }

    /// Record the disequality `lhs != rhs`, asserted by `literal` at `level`.
    pub fn assert_disequality(&mut self, lhs: TermId, rhs: TermId, literal: Literal, level: u32)
        requires
            lhs < old(self).term_seq().len(),
            rhs < old(self).term_seq().len(),
        ensures
            final(self).equalities() == old(self).equalities(),
            final(self).equality_literals() == old(self).equality_literals(),
            final(self).diseq_seq() == old(self).diseq_seq().push((lhs, rhs, literal)),
            forall|l: u32| #[trigger] final(self).disequalities_up_to(l) == if level <= l {
                old(self).disequalities_up_to(l).push((lhs, rhs, literal))
            } else {
                old(self).disequalities_up_to(l)
            },
            final(self).term_seq() == old(self).term_seq(),
            final(self).pending() == old(self).pending(),
            final(self).level() == level,
            forall|y: u32| #[trigger] final(self).rep(y) == old(self).rep(y),
            forall|y: u32| #[trigger] final(self).proof_path(y) == old(self).proof_path(y),
    {
        let mut st = self.take_state();
        let ghost a0 = st.assertions@;
        let ghost d0 = st.disequalities@;
        let asn = EufAssertion { lhs, rhs, is_equality: false, literal, level };
        st.assertions.push(asn);
        st.current_level = level;
        st.disequalities.push((lhs, rhs, literal));
        proof {
            let a1 = st.assertions@;
            lemma_eq_pairs_push(a0, asn);
            assert(eq_literals(a1) =~= eq_literals(a0)) by {
                assert forall|l: Literal| eq_literals(a0).contains(l) implies eq_literals(a1).contains(l) by {
                    let k = choose|k: int| 0 <= k < a0.len() && (#[trigger] a0[k]).is_equality && a0[k].literal == l;
                    assert(a1[k] == a0[k]);
                }
                assert forall|l: Literal| eq_literals(a1).contains(l) implies eq_literals(a0).contains(l) by {
                    let k = choose|k: int| 0 <= k < a1.len() && (#[trigger] a1[k]).is_equality && a1[k].literal == l;
                    assert(k < a0.len());
                    assert(a1[k] == a0[k]);
                }
            }
            assert forall|k: int| 0 <= k < a1.len() implies (#[trigger] a1[k]).lhs < st.terms@.len() && a1[k].rhs < st.terms@.len() by {
                if k < a0.len() {
                    assert(a1[k] == a0[k]);
                }
            }
            assert forall|k: int| 0 <= k < st.disequalities@.len() implies (#[trigger] st.disequalities@[k]).0 < st.terms@.len() && st.disequalities@[k].1 < st.terms@.len() by {
                if k < d0.len() {
                    assert(st.disequalities@[k] == d0[k]);
                }
            }
        }
        self.st = st;
        proof {
            assert forall|l: u32| #[trigger] self.disequalities_up_to(l) == if level <= l {
                old(self).disequalities_up_to(l).push((lhs, rhs, literal))
            } else {
                old(self).disequalities_up_to(l)
            } by {
                lemma_diseq_up_to_push(a0, asn, l);
            }
        }
    }

    /// The literals that explain why `a` and `b` are equal: the proof path of each.
    pub fn explain_equality(&self, a: TermId, b: TermId) -> (lits: Vec<Literal>)
        ensures
            lits@ == self.proof_path(a) + self.proof_path(b),
            forall|i: int| 0 <= i < lits@.len() ==> self.equality_literals().contains(#[trigger] lits@[i]),
    {
        proof {
            use_type_invariant(self);
            self.st.uf.lemma_path_literals(a);
            self.st.uf.lemma_path_literals(b);
        }
        let mut lits = self.st.uf.collect_path(a);
        let mut more = self.st.uf.collect_path(b);
        let ghost pa = lits@;
        let ghost pb = more@;
        lits.append(&mut more);
        proof {
            assert forall|i: int| 0 <= i < lits@.len() implies self.equality_literals().contains(#[trigger] lits@[i]) by {
                let l = lits@[i];
                if i < pa.len() {
                    assert(l == self.st.uf.path(a)[i]);
                } else {
                    assert(l == self.st.uf.path(b)[i - pa.len()]);
                }
                assert(self.st.uf.edge_literals().contains(l));
                let y = choose|y: u32| #[trigger] self.st.uf.edges().contains_key(y) && self.st.uf.edges()[y].1 == l;
            }
        }
        lits
    }

    /// The first disequality whose terms are equal in the congruence closure, as a
    /// conflict on every asserted equality and the disequality's literal.
    fn congruence_conflict(&self) -> (r: Option<TheoryConflict>)
        ensures
            match r {
                None => forall|k: int| 0 <= k < self.diseq_seq().len() ==> !#[trigger] self.congruence_violated(k),
                Some(c) => exists|k: int| {
                    &&& 0 <= k < self.diseq_seq().len()
                    &&& #[trigger] self.congruence_violated(k)
                    &&& c.literals@.len() > 0
                    &&& c.literals@.last() == self.diseq_seq()[k].2
                    &&& forall|i: int| 0 <= i < c.literals@.len() ==> self.equality_literals().contains(#[trigger] c.literals@[i])
                        || c.literals@[i] == self.diseq_seq()[k].2
                },
            },
    {
        proof {
            use_type_invariant(self);
        }
        let eqs = self.st.equality_pairs();
        let rep = congruence_classes(&self.st.terms, &eqs);
        let n = self.st.disequalities.len();
        let mut i: usize = 0;
        while i < n
            invariant
                n == self.diseq_seq().len(),
                i <= n,
                rep@.len() == self.term_seq().len(),
                forall|k: int| 0 <= k < self.diseq_seq().len() ==> (#[trigger] self.diseq_seq()[k]).0 < self.term_seq().len()
                    && self.diseq_seq()[k].1 < self.term_seq().len(),
                forall|x: int, y: int| 0 <= x < self.term_seq().len() && 0 <= y < self.term_seq().len()
                    ==> (#[trigger] rep@[x] == #[trigger] rep@[y] <==> congruent(self.term_seq(), self.equalities(), x as u32, y as u32)),
                forall|j: int| 0 <= j < i ==> !#[trigger] self.congruence_violated(j),
            decreases n - i,
        {
            let (a, b, lit) = self.st.disequalities[i];
            assert((a, b, lit) == self.diseq_seq()[i as int]);
            if rep[a as usize] == rep[b as usize] {
                let mut lits = self.st.equality_literal_list();
                lits.push(lit);
                proof {
                    assert(self.congruence_violated(i as int));
                }
                return Some(TheoryConflict::new(lits));
            }
            i = i + 1;
        }
        None
    }

    /// The first disequality whose terms are equal, as a conflict on the literals that
    /// made them equal and the disequality's literal.
    fn check_conflicts(&mut self) -> (r: Option<TheoryConflict>)
        ensures
            final(self).same_facts(old(self)),
            forall|y: u32| #[trigger] final(self).rep(y) == old(self).rep(y),
            forall|y: u32| #[trigger] final(self).proof_path(y) == old(self).proof_path(y),
            match r {
                None => forall|k: int| 0 <= k < old(self).diseq_seq().len() ==> !#[trigger] old(self).diseq_violated(k),
                Some(c) => exists|k: int| {
                    &&& 0 <= k < old(self).diseq_seq().len()
                    &&& #[trigger] old(self).diseq_violated(k)
                    &&& forall|j: int| 0 <= j < k ==> !#[trigger] old(self).diseq_violated(j)
                    &&& c.literals@ == old(self).proof_path(old(self).diseq_seq()[k].0)
                        + old(self).proof_path(old(self).diseq_seq()[k].1) + seq![old(self).diseq_seq()[k].2]
                    &&& forall|i: int| 0 <= i < c.literals@.len() ==> old(self).equality_literals().contains(#[trigger] c.literals@[i])
                        || c.literals@[i] == old(self).diseq_seq()[k].2
                },
            },
    {
        proof {
            use_type_invariant(&*self);
        }
        let n = self.st.disequalities.len();
        let mut i: usize = 0;
        while i < n
            invariant
                n == old(self).diseq_seq().len(),
                i <= n,
                self.same_facts(old(self)),
                forall|y: u32| #[trigger] self.rep(y) == old(self).rep(y),
                forall|y: u32| #[trigger] self.proof_path(y) == old(self).proof_path(y),
                forall|j: int| 0 <= j < i ==> !#[trigger] old(self).diseq_violated(j),
                forall|k: int| 0 <= k < old(self).diseq_seq().len() ==> (#[trigger] old(self).diseq_seq()[k]).0 < old(self).term_seq().len()
                    && old(self).diseq_seq()[k].1 < old(self).term_seq().len(),
            decreases n - i,
        {
            let (a, b, lit) = self.st.disequalities[i];
            assert((a, b, lit) == old(self).diseq_seq()[i as int]);
            if self.connected_terms(a, b) {
                let mut lits = self.explain_equality(a, b);
                lits.push(lit);
                proof {
                    assert(old(self).diseq_violated(i as int));
                }
                return Some(TheoryConflict::new(lits));
            }
            i = i + 1;
        }
        None
    }
}

impl Default for EufSolver {
    fn default() -> (s: Self)
        ensures
            s.term_seq().len() == 0,
            s.equalities().len() == 0,
            s.diseq_seq().len() == 0,
            s.pending().len() == 0,
            s.level() == 0,
    {
        Self::new()
    }
}

impl TheorySolver for EufSolver {
    /// The literals of the recorded assertions, with their levels.
    closed spec fn facts(&self) -> Seq<(Literal, u32)> {
        self.st.assertions@.map_values(|a: EufAssertion| (a.literal, a.level))
    }

    fn name(&self) -> (n: &'static str) {
        "EUF"
    }

    /// Only the level is recorded: facts come through `assert_equality` and `assert_disequality`.
    fn assert_literal(&mut self, lit: Literal, level: u32) -> (r: Result<(), TheoryConflict>)
        ensures
            r is Ok,
            final(self).term_seq() == old(self).term_seq(),
            final(self).equalities() == old(self).equalities(),
            final(self).equality_literals() == old(self).equality_literals(),
            final(self).diseq_seq() == old(self).diseq_seq(),
            final(self).pending() == old(self).pending(),
            final(self).level() == level,
            forall|y: u32| #[trigger] final(self).rep(y) == old(self).rep(y),
    {
        let mut st = self.take_state();
        st.current_level = level;
        self.st = st;
        Ok(())
    }

    /// The asserted disequalities are checked first against the classes of the asserted
    /// equalities (a conflict names the equalities that join the two terms), then
    /// against their congruence closure (a conflict names every asserted equality).
    fn check(&mut self) -> (r: TheoryResult)
        ensures
            final(self).same_facts(old(self)),
            forall|y: u32| #[trigger] final(self).rep(y) == old(self).rep(y),
            match r {
                TheoryResult::Consistent => {
                    &&& forall|k: int| 0 <= k < old(self).diseq_seq().len() ==> !#[trigger] old(self).diseq_violated(k)
                    &&& forall|k: int| 0 <= k < old(self).diseq_seq().len() ==> !#[trigger] old(self).congruence_violated(k)
                },
                TheoryResult::Conflict(c) => (exists|k: int| {
                    &&& 0 <= k < old(self).diseq_seq().len()
                    &&& #[trigger] old(self).diseq_violated(k)
                    &&& forall|j: int| 0 <= j < k ==> !#[trigger] old(self).diseq_violated(j)
                    &&& c.literals@ == old(self).proof_path(old(self).diseq_seq()[k].0)
                        + old(self).proof_path(old(self).diseq_seq()[k].1) + seq![old(self).diseq_seq()[k].2]
                    &&& forall|i: int| 0 <= i < c.literals@.len() ==> old(self).equality_literals().contains(#[trigger] c.literals@[i])
                        || c.literals@[i] == old(self).diseq_seq()[k].2
                }) || {
                    &&& forall|k: int| 0 <= k < old(self).diseq_seq().len() ==> !#[trigger] old(self).diseq_violated(k)
                    &&& exists|k: int| {
                        &&& 0 <= k < old(self).diseq_seq().len()
                        &&& #[trigger] old(self).congruence_violated(k)
                        &&& c.literals@.len() > 0
                        &&& c.literals@.last() == old(self).diseq_seq()[k].2
                        &&& forall|i: int| 0 <= i < c.literals@.len() ==> old(self).equality_literals().contains(#[trigger] c.literals@[i])
                            || c.literals@[i] == old(self).diseq_seq()[k].2
                    }
                },
            },
    {
        match self.check_conflicts() {
            Some(conflict) => TheoryResult::Conflict(conflict),
            None => {
                proof {
                    assert forall|k: int| 0 <= k < old(self).diseq_seq().len() implies
                        #[trigger] old(self).congruence_violated(k) == self.congruence_violated(k) by {}
                }
                match self.congruence_conflict() {
                    Some(conflict) => {
                        proof {
                            let k = choose|k: int| {
                                &&& 0 <= k < self.diseq_seq().len()
                                &&& #[trigger] self.congruence_violated(k)
                                &&& conflict.literals@.len() > 0
                                &&& conflict.literals@.last() == self.diseq_seq()[k].2
                                &&& forall|i: int| 0 <= i < conflict.literals@.len() ==> self.equality_literals().contains(#[trigger] conflict.literals@[i])
                                    || conflict.literals@[i] == self.diseq_seq()[k].2
                            };
                            assert(old(self).congruence_violated(k));
                            assert(self.equality_literals() == old(self).equality_literals());
                            assert(self.diseq_seq() == old(self).diseq_seq());
                        }
                        TheoryResult::Conflict(conflict)
                    },
                    None => TheoryResult::Consistent,
                }
            },
        }
    }

    fn propagate(&mut self) -> (r: Vec<TheoryPropagation>)
        ensures
            r@ == old(self).pending(),
            final(self).pending().len() == 0,
            final(self).term_seq() == old(self).term_seq(),
            final(self).equalities() == old(self).equalities(),
            final(self).diseq_seq() == old(self).diseq_seq(),
            final(self).level() == old(self).level(),
    {
        let mut st = self.take_state();
        let mut out: Vec<TheoryPropagation> = Vec::new();
        std::mem::swap(&mut out, &mut st.pending_propagations);
        self.st = st;
        out
    }

    /// No explanation is ever recorded by this solver.
    fn explain(&self, lit: Literal) -> (r: Vec<Literal>)
        ensures
            r@.len() == 0,
    {
        Vec::new()
    }

    /// Drop the equalities and disequalities asserted above `level` and rebuild the
    /// classes from the equalities that remain.
    fn backtrack(&mut self, level: u32)
        ensures
            final(self).equalities() == old(self).equalities_up_to(level),
            final(self).term_seq() == old(self).term_seq(),
            final(self).diseq_seq() == old(self).disequalities_up_to(level),
            final(self).pending() == old(self).pending(),
            final(self).level() == level,
            forall|x: u32, y: u32| #[trigger] connected(final(self).equalities(), x, y) == (final(self).rep(x) == final(self).rep(y)),
    {
        let mut st = self.take_state();
        let ghost cs = st.assertions@;
        let mut kept: Vec<EufAssertion> = Vec::new();
        let n = st.assertions.len();
        let mut k: usize = 0;
        while k < n
            invariant
                cs == st.assertions@,
                n == cs.len(),
                k <= n,
                kept@ == cs.take(k as int).filter(|a: EufAssertion| a.level <= level),
            decreases n - k,
        {
            reveal_with_fuel(Seq::filter, 1);
            assert(cs.take(k + 1).drop_last() =~= cs.take(k as int));
            if st.assertions[k].level <= level {
                kept.push(st.assertions[k]);
            }
            k = k + 1;
        }
        assert(cs.take(n as int) =~= cs);
        proof {
            let fs = kept@;
            assert forall|i: int| 0 <= i < fs.len() implies (#[trigger] fs[i]).lhs < st.terms@.len() && fs[i].rhs < st.terms@.len() by {
                assert(fs.contains(fs[i]));
                cs.lemma_filter_contains_rev(|a: EufAssertion| a.level <= level, fs[i]);
            }
        }
        let mut dq: Vec<(TermId, TermId, Literal)> = Vec::new();
        let m = kept.len();
        let mut j: usize = 0;
        while j < m
            invariant
                m == kept@.len(),
                j <= m,
                forall|i: int| 0 <= i < kept@.len() ==> (#[trigger] kept@[i]).lhs < st.terms@.len() && kept@[i].rhs < st.terms@.len(),
                dq@ == diseq_triples(kept@.take(j as int)),
                forall|i: int| 0 <= i < dq@.len() ==> (#[trigger] dq@[i]).0 < st.terms@.len() && dq@[i].1 < st.terms@.len(),
            decreases m - j,
        {
            let a = kept[j];
            proof {
                assert(kept@.take(j + 1).drop_last() =~= kept@.take(j as int));
                assert(kept@.take(j + 1).last() == a);
            }
            if !a.is_equality {
                dq.push((a.lhs, a.rhs, a.literal));
            }
            j = j + 1;
        }
        assert(kept@.take(m as int) =~= kept@);
        st.disequalities = dq;
        st.assertions = kept;
        st.current_level = level;
        st.rebuild_uf();
        self.st = st;
        proof {
            lemma_facts_filter(cs, |a: EufAssertion| (a.literal, a.level), |a: EufAssertion| a.level <= level, level);
        }
        proof {
            assert forall|x: u32, y: u32| #[trigger] connected(self.equalities(), x, y) == (self.rep(x) == self.rep(y)) by {
                assert(self.st.uf.same(x, y) == connected(eq_pairs(self.st.assertions@), x, y));
            }
        }
    }

    fn reset(&mut self)
        ensures
            final(self).term_seq().len() == 0,
            final(self).equalities().len() == 0,
            final(self).diseq_seq().len() == 0,
            final(self).pending().len() == 0,
            final(self).level() == 0,
    {
        self.st = EufState::empty();
    }
}

} // verus!
