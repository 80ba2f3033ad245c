//! The theory of arrays: element equalities are kept in a union-find structure,
//! reads are recorded as selects, and a read from a store instantiates the
//! read-over-write axiom once per pair of indices.
use vstd::prelude::*;
use crate::literal::Literal;
use crate::theory::{TheoryConflict, TheoryPropagation, TheoryResult, TheorySolver, lemma_facts_filter};
use crate::theory::union_find::{UnionFind, connected};

verus! {

/// Array identifier.
pub type ArrayId = u32;

/// Index or element identifier.
pub type ElemId = u32;

/// An array term: a variable, or a store into an array term.
#[derive(Debug, PartialEq, Eq, Hash)]
pub enum ArrayTerm {
    /// An array variable.
    Var(ArrayId),
    /// `store(array, index, value)`.
    Store(Box<ArrayTerm>, ElemId, ElemId),
}

/// The array variable under all stores of `t`.
pub open spec fn base_of(t: ArrayTerm) -> ArrayId
    decreases t,
{
    match t {
        ArrayTerm::Var(id) => id,
        ArrayTerm::Store(a, _, _) => base_of(*a),
    }
}

fn copy_array_term(t: &ArrayTerm) -> (r: ArrayTerm)
    ensures
        r == *t,
    decreases t,
{
    match t {
        ArrayTerm::Var(id) => ArrayTerm::Var(*id),
        ArrayTerm::Store(a, i, v) => ArrayTerm::Store(Box::new(copy_array_term(a)), *i, *v),
    }
}

impl Clone for ArrayTerm {
    fn clone(&self) -> (r: ArrayTerm)
        ensures
            r == *self,
    {
        copy_array_term(self)
    }
}

impl ArrayTerm {
    /// The array variable under all stores.
    pub fn base_array(&self) -> (id: ArrayId)
        ensures
            id == base_of(*self),
        decreases self,
    {
        match self {
            ArrayTerm::Var(id) => *id,
            ArrayTerm::Store(arr, _, _) => arr.base_array(),
        }
    }
}

/// A read `select(array, index) = result`, recorded at a decision level.
#[derive(Debug)]
pub struct Select {
    /// The array read from.
    pub array: ArrayTerm,
    /// The index read.
    pub index: ElemId,
    /// The element read.
    pub result: ElemId,
    /// The decision level of the read.
    pub level: u32,
}

impl Clone for Select {
    fn clone(&self) -> (r: Select)
        ensures
            r == *self,
    {
        Select { array: self.array.clone(), index: self.index, result: self.result, level: self.level }
    }
}

/// An instance of a read-over-write axiom: `result` is read from `store(array, index,
/// value)` at `read_index`, so when `read_index = index`, `result = value`.
#[derive(Debug)]
enum Axiom {
    /// `select(store(a, i, v), j) = r` with `i = j ==> r = v`.
    ReadOverWriteSame { array: ArrayTerm, index: ElemId, read_index: ElemId, value: ElemId, result: ElemId },
}

/// An asserted equality or disequality between elements.
#[derive(Debug, Clone, Copy)]
struct ArrayAssertion {
    lhs: ElemId,
    rhs: ElemId,
    is_equality: bool,
    literal: Literal,
    level: u32,
}

/// The equalities among `asserts`, in order.
spec fn eq_pairs(asserts: Seq<ArrayAssertion>) -> Seq<(u32, u32)>
    decreases asserts.len(),
{
    if asserts.len() == 0 {
        Seq::empty()
    } else {
        let a = asserts.last();
        let pre = eq_pairs(asserts.drop_last());
        if a.is_equality { pre.push((a.lhs, a.rhs)) } else { pre }
    }
}

/// The literals of the equalities among `asserts`.
spec fn eq_literals(asserts: Seq<ArrayAssertion>) -> Set<Literal> {
    Set::new(|l: Literal| exists|k: int| 0 <= k < asserts.len() && (#[trigger] asserts[k]).is_equality && asserts[k].literal == l)
}

proof fn lemma_eq_pairs_push(asserts: Seq<ArrayAssertion>, a: ArrayAssertion)
    ensures
        eq_pairs(asserts.push(a)) == (if a.is_equality { eq_pairs(asserts).push((a.lhs, a.rhs)) } else { eq_pairs(asserts) }),
{
    assert(asserts.push(a).drop_last() =~= asserts);
}

proof fn lemma_eq_literals_push(asserts: Seq<ArrayAssertion>, a: ArrayAssertion)
    ensures
        eq_literals(asserts.push(a)) == (if a.is_equality { eq_literals(asserts).insert(a.literal) } else { eq_literals(asserts) }),
{
    let a1 = asserts.push(a);
    let expected = if a.is_equality { eq_literals(asserts).insert(a.literal) } else { eq_literals(asserts) };
    assert forall|l: Literal| eq_literals(asserts).contains(l) implies eq_literals(a1).contains(l) by {
        let k = choose|k: int| 0 <= k < asserts.len() && (#[trigger] asserts[k]).is_equality && asserts[k].literal == l;
        assert(a1[k] == asserts[k]);
    }
    assert forall|l: Literal| eq_literals(a1).contains(l) implies expected.contains(l) by {
        let k = choose|k: int| 0 <= k < a1.len() && (#[trigger] a1[k]).is_equality && a1[k].literal == l;
        if k < asserts.len() {
            assert(a1[k] == asserts[k]);
        }
    }
    if a.is_equality {
        assert(a1[asserts.len() as int] == a);
    }
    assert(eq_literals(a1) =~= expected);
}

/// The literals of `s`, appended in order to `acc`, skipping those already present.
pub open spec fn append_new(acc: Seq<Literal>, s: Seq<Literal>) -> Seq<Literal>
    decreases s.len(),
{
    if s.len() == 0 {
        acc
    } else {
        let m = append_new(acc, s.drop_last());
        if m.contains(s.last()) { m } else { m.push(s.last()) }
    }
}

/// The parts of the solver's state.
struct ArrayState {
    uf: UnionFind,
    selects: Vec<Select>,
    assertions: Vec<ArrayAssertion>,
    disequalities: Vec<(ElemId, ElemId, Literal)>,
    pending_axioms: Vec<(Axiom, u32)>,
    generated: Vec<(ElemId, ElemId)>,
    pending_propagations: Vec<TheoryPropagation>,
    current_level: u32,
}

/// The state's invariant: the classes are those generated by the asserted equalities,
/// and each proof edge carries the literal of an asserted equality.
spec fn state_ok(st: ArrayState) -> bool {
    &&& st.uf.wf()
    &&& forall|x: u32, y: u32| #[trigger] st.uf.same(x, y) == connected(eq_pairs(st.assertions@), x, y)
    &&& forall|x: u32| #[trigger] st.uf.edges().contains_key(x) ==> eq_literals(st.assertions@).contains(st.uf.edges()[x].1)
}

impl ArrayState {
    fn empty() -> (st: ArrayState)
        ensures
            state_ok(st),
            st.selects@.len() == 0,
            st.assertions@.len() == 0,
            st.disequalities@.len() == 0,
            st.pending_axioms@.len() == 0,
            st.generated@.len() == 0,
            st.pending_propagations@.len() == 0,
            st.current_level == 0,
    {
        let st = ArrayState {
            uf: UnionFind::new(),
            selects: Vec::new(),
            assertions: Vec::new(),
            disequalities: Vec::new(),
            pending_axioms: Vec::new(),
            generated: Vec::new(),
            pending_propagations: Vec::new(),
            current_level: 0,
        };
        proof {
            assert forall|x: u32, y: u32| #[trigger] st.uf.same(x, y) == connected(eq_pairs(st.assertions@), x, y) by {
                assert(st.uf.rep(x) == x);
                assert(st.uf.rep(y) == y);
            }
        }
        st
    }
}

/// What a pending axiom states: the array stored into, the store's index, the index
/// read, the stored value, the element read and the decision level.
spec fn axiom_fact(ax: (Axiom, u32)) -> (ArrayTerm, u32, u32, u32, u32, u32) {
    match ax.0 {
        Axiom::ReadOverWriteSame { array, index, read_index, value, result } => (array, index, read_index, value, result, ax.1),
    }
}

/// The disequalities among `asserts`, in order: both elements and the literal.
spec fn diseq_triples(asserts: Seq<ArrayAssertion>) -> Seq<(u32, u32, Literal)>
    decreases asserts.len(),
{
    if asserts.len() == 0 {
        Seq::empty()
    } else {
        let a = asserts.last();
        let pre = diseq_triples(asserts.drop_last());
        if a.is_equality { pre } else { pre.push((a.lhs, a.rhs, a.literal)) }
    }
}

/// Recording one more assertion adds its disequality, if it is one, to those kept at
/// any level not below its own.
proof fn lemma_diseq_up_to_push(a0: Seq<ArrayAssertion>, asn: ArrayAssertion, l: u32)
    ensures
        diseq_triples(a0.push(asn).filter(|a: ArrayAssertion| a.level <= l)) == if asn.level <= l && !asn.is_equality {
            diseq_triples(a0.filter(|a: ArrayAssertion| a.level <= l)).push((asn.lhs, asn.rhs, asn.literal))
        } else {
            diseq_triples(a0.filter(|a: ArrayAssertion| a.level <= l))
        },
{
    a0.lemma_filter_push(asn, |a: ArrayAssertion| a.level <= l);
    let fl = a0.filter(|a: ArrayAssertion| a.level <= l);
    assert(fl.push(asn).drop_last() =~= fl);
}

/// The unordered pair of indices `i` and `j`, smaller first.
pub open spec fn index_key(i: u32, j: u32) -> (u32, u32) {
    if i <= j { (i, j) } else { (j, i) }
}

impl ArrayState {
    fn ensure_elem(&mut self, e: ElemId)
        requires
            state_ok(*old(self)),
        ensures
            state_ok(*final(self)),
            final(self).uf.dom() == old(self).uf.dom().insert(e),
            forall|y: u32| #[trigger] final(self).uf.rep(y) == old(self).uf.rep(y),
            forall|y: u32| #[trigger] final(self).uf.path(y) == old(self).uf.path(y),
            final(self).selects == old(self).selects,
            final(self).assertions == old(self).assertions,
            final(self).disequalities == old(self).disequalities,
            final(self).pending_axioms == old(self).pending_axioms,
            final(self).generated == old(self).generated,
            final(self).pending_propagations == old(self).pending_propagations,
            final(self).current_level == old(self).current_level,
    {
        let ghost uf0 = self.uf;
        self.uf.add(e);
        proof {
            assert forall|x: u32, y: u32| #[trigger] self.uf.same(x, y) == connected(eq_pairs(self.assertions@), x, y) by {
                assert(uf0.same(x, y) == connected(eq_pairs(self.assertions@), x, y));
                assert(self.uf.rep(x) == uf0.rep(x));
                assert(self.uf.rep(y) == uf0.rep(y));
            }
        }
    }

    fn find(&mut self, x: ElemId) -> (r: ElemId)
        requires
            state_ok(*old(self)),
        ensures
            state_ok(*final(self)),
            r == old(self).uf.rep(x),
            forall|y: u32| #[trigger] final(self).uf.rep(y) == old(self).uf.rep(y),
            forall|y: u32| #[trigger] final(self).uf.path(y) == old(self).uf.path(y),
            final(self).selects == old(self).selects,
            final(self).assertions == old(self).assertions,
            final(self).disequalities == old(self).disequalities,
            final(self).pending_axioms == old(self).pending_axioms,
            final(self).generated == old(self).generated,
            final(self).pending_propagations == old(self).pending_propagations,
            final(self).current_level == old(self).current_level,
    {
        self.ensure_elem(x);
        let ghost uf0 = self.uf;
        let r = self.uf.find(x);
        proof {
            assert forall|a: u32, b: u32| #[trigger] self.uf.same(a, b) == connected(eq_pairs(self.assertions@), a, b) by {
                assert(uf0.same(a, b) == connected(eq_pairs(self.assertions@), a, b));
                assert(self.uf.rep(a) == uf0.rep(a));
                assert(self.uf.rep(b) == uf0.rep(b));
            }
        }
        r
    }

    /// Record a new select at index `select_idx` and, when it reads from a store and the
    /// pair of indices is new, the read-over-write axiom for it.
    fn generate_axioms_for_select(&mut self, select_idx: usize)
        requires
            select_idx < old(self).selects@.len(),
        ensures
            final(self).uf == old(self).uf,
            final(self).selects == old(self).selects,
            final(self).assertions == old(self).assertions,
            final(self).disequalities == old(self).disequalities,
            final(self).pending_propagations == old(self).pending_propagations,
            final(self).current_level == old(self).current_level,
            ({
                let sel = old(self).selects@[select_idx as int];
                match sel.array {
                    ArrayTerm::Store(base, si, sv) => {
                        if old(self).generated@.contains(index_key(si, sel.index)) {
                            final(self).generated@ == old(self).generated@
                                && final(self).pending_axioms@.map_values(|a: (Axiom, u32)| axiom_fact(a)) == old(self).pending_axioms@.map_values(|a: (Axiom, u32)| axiom_fact(a))
                        } else {
                            final(self).generated@ == old(self).generated@.push(index_key(si, sel.index))
                                && final(self).pending_axioms@.map_values(|a: (Axiom, u32)| axiom_fact(a))
                                    == old(self).pending_axioms@.map_values(|a: (Axiom, u32)| axiom_fact(a)).push((*base, si, sel.index, sv, sel.result, sel.level))
                        }
                    },
                    ArrayTerm::Var(_) => final(self).generated@ == old(self).generated@
                        && final(self).pending_axioms@.map_values(|a: (Axiom, u32)| axiom_fact(a)) == old(self).pending_axioms@.map_values(|a: (Axiom, u32)| axiom_fact(a)),
                }
            }),
    {
        let select = &self.selects[select_idx];
        if let ArrayTerm::Store(base, store_idx, store_val) = &select.array {
            let read_idx = select.index;
            let read_result = select.result;
            let level = select.level;
            let key = if *store_idx <= read_idx { (*store_idx, read_idx) } else { (read_idx, *store_idx) };
            let mut found = false;
            let mut i: usize = 0;
            while i < self.generated.len()
                invariant
                    i <= self.generated@.len(),
                    found == exists|j: int| 0 <= j < i && self.generated@[j] == key,
                decreases self.generated@.len() - i,
            {
                let (g0, g1) = self.generated[i];
                if g0 == key.0 && g1 == key.1 {
                    found = true;
                }
                i = i + 1;
            }
            assert(found == self.generated@.contains(key));
            if !found {
                let inst = Axiom::ReadOverWriteSame {
                    array: (**base).clone(),
                    index: *store_idx,
                    read_index: read_idx,
                    value: *store_val,
                    result: read_result,
                };
                let ghost before = self.pending_axioms@;
                self.generated.push(key);
                self.pending_axioms.push((inst, level));
                proof {
                    assert(self.pending_axioms@.map_values(|a: (Axiom, u32)| axiom_fact(a))
                        =~= before.map_values(|a: (Axiom, u32)| axiom_fact(a)).push(axiom_fact((inst, level))));
                }
            }
        }
    }

    /// Rebuild the union-find structure from the asserted equalities alone.
    fn rebuild(&mut self)
        ensures
            state_ok(*final(self)),
            final(self).selects == old(self).selects,
            final(self).assertions == old(self).assertions,
            final(self).disequalities == old(self).disequalities,
            final(self).pending_axioms == old(self).pending_axioms,
            final(self).generated == old(self).generated,
            final(self).pending_propagations == old(self).pending_propagations,
            final(self).current_level == old(self).current_level,
    {
        self.uf.clear();
        let m = self.assertions.len();
        let mut k: usize = 0;
        while k < m
            invariant
                self.selects == old(self).selects,
                self.assertions == old(self).assertions,
                self.disequalities == old(self).disequalities,
                self.pending_axioms == old(self).pending_axioms,
                self.generated == old(self).generated,
                self.pending_propagations == old(self).pending_propagations,
                self.current_level == old(self).current_level,
                m == self.assertions@.len(),
                k <= m,
                self.uf.wf(),
                forall|x: u32, y: u32| #[trigger] self.uf.same(x, y) == connected(eq_pairs(self.assertions@.take(k as int)), x, y),
                forall|x: u32| #[trigger] self.uf.edges().contains_key(x) ==> eq_literals(self.assertions@).contains(self.uf.edges()[x].1),
            decreases m - k,
        {
            let a = self.assertions[k];
            let ghost pre = self.assertions@.take(k as int);
            proof {
                assert(self.assertions@.take(k + 1) == pre.push(a));
                lemma_eq_pairs_push(pre, a);
            }
            if a.is_equality {
                let ghost uf0 = self.uf;
                self.uf.add(a.lhs);
                self.uf.add(a.rhs);
                let ghost uf1 = self.uf;
                self.uf.union(a.lhs, a.rhs, a.literal);
                proof {
                    let post = eq_pairs(pre.push(a));
                    assert(post.drop_last() =~= eq_pairs(pre));
                    assert forall|x: u32, y: u32| #[trigger] self.uf.same(x, y) == connected(post, x, y) by {
                        assert(uf0.same(x, y) == connected(eq_pairs(pre), x, y));
                        assert(uf0.same(x, a.lhs) == connected(eq_pairs(pre), x, a.lhs));
                        assert(uf0.same(y, a.rhs) == connected(eq_pairs(pre), y, a.rhs));
                        assert(uf0.same(x, a.rhs) == connected(eq_pairs(pre), x, a.rhs));
                        assert(uf0.same(y, a.lhs) == connected(eq_pairs(pre), y, a.lhs));
                        assert(uf1.rep(x) == uf0.rep(x) && uf1.rep(y) == uf0.rep(y));
                        assert(uf1.rep(a.lhs) == uf0.rep(a.lhs) && uf1.rep(a.rhs) == uf0.rep(a.rhs));
                    }
                    assert forall|x: u32| #[trigger] self.uf.edges().contains_key(x) implies eq_literals(self.assertions@).contains(self.uf.edges()[x].1) by {
                        if !uf1.edges().contains_key(x) {
                            assert(self.assertions@[k as int].is_equality && self.assertions@[k as int].literal == a.literal);
                        }
                    }
                }
            }
            k = k + 1;
        }
        assert(self.assertions@.take(m as int) =~= self.assertions@);
    }
}

/// The solver for the theory of arrays.
pub struct ArraySolver {
    st: ArrayState,
}

impl ArraySolver {
    /// The asserted element equalities, in order.
    pub closed spec fn equalities(&self) -> Seq<(u32, u32)> {
        eq_pairs(self.st.assertions@)
    }

    /// The literals of the asserted equalities.
    pub closed spec fn equality_literals(&self) -> Set<Literal> {
        eq_literals(self.st.assertions@)
    }

    /// The number of asserted equalities and disequalities.
    pub closed spec fn assertion_count(&self) -> nat {
        self.st.assertions@.len()
    }

    /// The asserted equalities whose decision level is at most `level`, in order.
    pub closed spec fn equalities_up_to(&self, level: u32) -> Seq<(u32, u32)> {
        eq_pairs(self.st.assertions@.filter(|a: ArrayAssertion| a.level <= level))
    }

    /// The asserted disequalities, in order: both elements and the literal.
    pub closed spec fn diseq_seq(&self) -> Seq<(u32, u32, Literal)> {
        self.st.disequalities@
    }

    /// The recorded selects, in order.
    pub closed spec fn select_seq(&self) -> Seq<Select> {
        self.st.selects@
    }

    /// The pending axiom instances: array, store index, read index, stored value, element
    /// read, level.
    pub closed spec fn axiom_seq(&self) -> Seq<(ArrayTerm, u32, u32, u32, u32, u32)> {
        self.st.pending_axioms@.map_values(|a: (Axiom, u32)| axiom_fact(a))
    }

    /// The index pairs for which an axiom was generated.
    pub closed spec fn generated_keys(&self) -> Seq<(u32, u32)> {
        self.st.generated@
    }

    /// The representative of `x`'s class.
    pub closed spec fn rep(&self, x: u32) -> u32 {
        self.st.uf.rep(x)
    }

    /// The literals on the proof path from `x`.
    pub closed spec fn proof_path(&self, x: u32) -> Seq<Literal> {
        self.st.uf.path(x)
    }

    /// The current decision level.
    pub closed spec fn level(&self) -> u32 {
        self.st.current_level
    }

    /// The propagations not yet handed out.
    pub closed spec fn pending(&self) -> Seq<TheoryPropagation> {
        self.st.pending_propagations@
    }

    /// Whether the `k`-th disequality is contradicted by the asserted equalities.
    pub open spec fn diseq_violated(&self, k: int) -> bool {
        connected(self.equalities(), self.diseq_seq()[k].0, self.diseq_seq()[k].1)
    }

    /// Whether the `k`-th axiom instance contradicts the `d`-th disequality: the store's
    /// index and the index read are equal, so the element read equals the stored value,
    /// while the disequality separates their classes.
    pub open spec fn axiom_violated(&self, k: int, d: int) -> bool {
        let ax = self.axiom_seq()[k];
        let q = self.diseq_seq()[d];
        &&& self.rep(ax.1) == self.rep(ax.2)
        &&& ((self.rep(q.0) == self.rep(ax.4) && self.rep(q.1) == self.rep(ax.3))
            || (self.rep(q.0) == self.rep(ax.3) && self.rep(q.1) == self.rep(ax.4)))
    }

    /// The asserted disequalities whose decision level is at most `level`, in order.
    pub closed spec fn disequalities_up_to(&self, level: u32) -> Seq<(u32, u32, Literal)> {
        diseq_triples(self.st.assertions@.filter(|a: ArrayAssertion| a.level <= level))
    }

    /// Every fact but the union-find structure is the same in `self` and `o`.
    pub open spec fn same_facts(&self, o: &Self) -> bool {
        &&& self.equalities() == o.equalities()
        &&& self.equality_literals() == o.equality_literals()
        &&& self.assertion_count() == o.assertion_count()
        &&& self.diseq_seq() == o.diseq_seq()
        &&& self.select_seq() == o.select_seq()
        &&& self.axiom_seq() == o.axiom_seq()
        &&& self.generated_keys() == o.generated_keys()
        &&& self.pending() == o.pending()
        &&& self.level() == o.level()
    }

    #[verifier::type_invariant]
    spec fn inv(self) -> bool {
        state_ok(self.st)
    }

    /// Move the state out, leaving an empty solver behind.
    fn take_state(&mut self) -> (st: ArrayState)
        ensures
            st == old(self).st,
            state_ok(st),
    {
        proof {
            use_type_invariant(&*self);
        }
        let mut taken = ArraySolver { st: ArrayState::empty() };
        std::mem::swap(&mut taken, self);
        let ArraySolver { st } = taken;
        st
    }

    /// A solver without assertions or selects.
    pub fn new() -> (s: Self)
        ensures
            s.equalities().len() == 0,
            s.assertion_count() == 0,
            s.diseq_seq().len() == 0,
            forall|l: u32| (#[trigger] s.disequalities_up_to(l)).len() == 0,
            s.select_seq().len() == 0,
            s.axiom_seq().len() == 0,
            s.generated_keys().len() == 0,
            s.pending().len() == 0,
            s.level() == 0,
    {
        let s = ArraySolver { st: ArrayState::empty() };
        proof {
            assert(s.axiom_seq() =~= Seq::empty());
            assert forall|l: u32| (#[trigger] s.disequalities_up_to(l)).len() == 0 by {
                assert(s.st.assertions@.filter(|a: ArrayAssertion| a.level <= l) =~= Seq::<ArrayAssertion>::empty());
            }
        }
        s
    }

    /// The number of recorded selects.
    pub fn num_selects(&self) -> (n: usize)
        ensures
            n == self.select_seq().len(),
    {
        self.st.selects.len()
    }

    /// The number of asserted equalities and disequalities.
    pub fn num_assertions(&self) -> (n: usize)
        ensures
            n == self.assertion_count(),
    {
        self.st.assertions.len()
    }

    /// The number of pending axiom instances.
    pub fn pending_axiom_count(&self) -> (n: usize)
        ensures
            n == self.axiom_seq().len(),
    {
        self.st.pending_axioms.len()
    }

    /// The representative of `x`'s class, compressing the path to it.
    pub fn find(&mut self, x: ElemId) -> (r: ElemId)
        ensures
            r == old(self).rep(x),
            forall|y: u32| #[trigger] connected(old(self).equalities(), x, y) == (old(self).rep(y) == r),
            final(self).same_facts(old(self)),
            forall|y: u32| #[trigger] final(self).rep(y) == old(self).rep(y),
            forall|y: u32| #[trigger] final(self).proof_path(y) == old(self).proof_path(y),
    {
        let mut st = self.take_state();
        let r = st.find(x);
        proof {
            assert forall|y: u32| #[trigger] connected(old(self).equalities(), x, y) == (old(self).rep(y) == r) by {
                assert(old(self).st.uf.same(x, y) == connected(eq_pairs(old(self).st.assertions@), x, y));
            }
        }
        self.st = st;
        r
    }

    /// The representative of `x`'s class, without changing the solver.
    pub fn find_const(&self, x: ElemId) -> (r: ElemId)
        ensures
            r == self.rep(x),
    {
        proof {
            use_type_invariant(self);
        }
        self.st.uf.find_const(x)
    }

    /// Whether the asserted equalities make `a` and `b` equal.
    pub fn are_equal(&mut self, a: ElemId, b: ElemId) -> (r: bool)
        ensures
            r == connected(old(self).equalities(), a, b),
            r == (old(self).rep(a) == old(self).rep(b)),
            final(self).same_facts(old(self)),
            forall|y: u32| #[trigger] final(self).rep(y) == old(self).rep(y),
            forall|y: u32| #[trigger] final(self).proof_path(y) == old(self).proof_path(y),
    {
        let ra = self.find(a);
        let rb = self.find(b);
        ra == rb
    }

    /// Record the equality `a = b`, asserted by `literal` at `level`, and merge the classes.
    pub fn assert_equality(&mut self, a: ElemId, b: ElemId, literal: Literal, level: u32)
        ensures
            final(self).equalities() == old(self).equalities().push((a, b)),
            final(self).equality_literals() == old(self).equality_literals().insert(literal),
            final(self).assertion_count() == old(self).assertion_count() + 1,
            final(self).diseq_seq() == old(self).diseq_seq(),
            forall|l: u32| #[trigger] final(self).disequalities_up_to(l) == old(self).disequalities_up_to(l),
            final(self).select_seq() == old(self).select_seq(),
            final(self).axiom_seq() == old(self).axiom_seq(),
            final(self).generated_keys() == old(self).generated_keys(),
            final(self).pending() == old(self).pending(),
            final(self).level() == level,
            forall|x: u32, y: u32| #[trigger] connected(final(self).equalities(), x, y) == (final(self).rep(x) == final(self).rep(y)),
    {
        let mut st = self.take_state();
        st.ensure_elem(a);
        st.ensure_elem(b);
        let ghost a0 = st.assertions@;
        let ghost uf0 = st.uf;
        let asn = ArrayAssertion { lhs: a, rhs: b, is_equality: true, literal, level };
        st.assertions.push(asn);
        st.current_level = level;
        st.uf.union(a, b, literal);
        proof {
            let a1 = st.assertions@;
            lemma_eq_pairs_push(a0, asn);
            lemma_eq_literals_push(a0, asn);
            assert(eq_pairs(a1).drop_last() =~= eq_pairs(a0));
            assert forall|x: u32, y: u32| #[trigger] st.uf.same(x, y) == connected(eq_pairs(a1), x, y) by {
                assert(uf0.same(x, y) == connected(eq_pairs(a0), x, y));
                assert(uf0.same(x, a) == connected(eq_pairs(a0), x, a));
                assert(uf0.same(y, b) == connected(eq_pairs(a0), y, b));
                assert(uf0.same(x, b) == connected(eq_pairs(a0), x, b));
                assert(uf0.same(y, a) == connected(eq_pairs(a0), y, a));
            }
            assert forall|x: u32| #[trigger] st.uf.edges().contains_key(x) implies eq_literals(a1).contains(st.uf.edges()[x].1) by {
                if uf0.edges().contains_key(x) {
                    assert(eq_literals(a0).contains(uf0.edges()[x].1));
                }
            }
        }
        self.st = st;
        proof {
            assert forall|l: u32| #[trigger] self.disequalities_up_to(l) == old(self).disequalities_up_to(l) by {
                lemma_diseq_up_to_push(a0, asn, l);
            }
        }
        proof {
            assert forall|x: u32, y: u32| #[trigger] connected(self.equalities(), x, y) == (self.rep(x) == self.rep(y)) by {
                assert(self.st.uf.same(x, y) == connected(eq_pairs(self.st.assertions@), x, y));
            }
        }
    }

    /// Record the disequality `a != b`, asserted by `literal` at `level`.
    pub fn assert_disequality(&mut self, a: ElemId, b: ElemId, literal: Literal, level: u32)
        ensures
            final(self).equalities() == old(self).equalities(),
            final(self).equality_literals() == old(self).equality_literals(),
            final(self).assertion_count() == old(self).assertion_count() + 1,
            final(self).diseq_seq() == old(self).diseq_seq().push((a, b, literal)),
            forall|l: u32| #[trigger] final(self).disequalities_up_to(l) == if level <= l {
                old(self).disequalities_up_to(l).push((a, b, literal))
            } else {
                old(self).disequalities_up_to(l)
            },
            final(self).select_seq() == old(self).select_seq(),
            final(self).axiom_seq() == old(self).axiom_seq(),
            final(self).generated_keys() == old(self).generated_keys(),
            final(self).pending() == old(self).pending(),
            final(self).level() == level,
            forall|y: u32| #[trigger] final(self).rep(y) == old(self).rep(y),
            forall|y: u32| #[trigger] final(self).proof_path(y) == old(self).proof_path(y),
    {
        let mut st = self.take_state();
        st.ensure_elem(a);
        st.ensure_elem(b);
        let ghost a0 = st.assertions@;
        let asn = ArrayAssertion { lhs: a, rhs: b, is_equality: false, literal, level };
        st.assertions.push(asn);
        st.current_level = level;
        st.disequalities.push((a, b, literal));
        proof {
            lemma_eq_pairs_push(a0, asn);
            lemma_eq_literals_push(a0, asn);
        }
        self.st = st;
        proof {
            assert forall|l: u32| #[trigger] self.disequalities_up_to(l) == if level <= l {
                old(self).disequalities_up_to(l).push((a, b, literal))
            } else {
                old(self).disequalities_up_to(l)
            } by {
                lemma_diseq_up_to_push(a0, asn, l);
            }
        }
    }

    /// Record `select(array, index) = result` at `level`, with its read-over-write axiom
    /// when `array` is a store and the pair of indices is new.
    pub fn add_select(&mut self, array: ArrayTerm, index: ElemId, result: ElemId, level: u32)
        ensures
            final(self).select_seq() == old(self).select_seq().push(Select { array, index, result, level }),
            final(self).equalities() == old(self).equalities(),
            final(self).equality_literals() == old(self).equality_literals(),
            final(self).assertion_count() == old(self).assertion_count(),
            final(self).diseq_seq() == old(self).diseq_seq(),
            final(self).pending() == old(self).pending(),
            final(self).level() == old(self).level(),
            forall|y: u32| #[trigger] final(self).rep(y) == old(self).rep(y),
            match array {
                ArrayTerm::Store(base, si, sv) => {
                    if old(self).generated_keys().contains(index_key(si, index)) {
                        final(self).generated_keys() == old(self).generated_keys()
                            && final(self).axiom_seq() == old(self).axiom_seq()
                    } else {
                        final(self).generated_keys() == old(self).generated_keys().push(index_key(si, index))
                            && final(self).axiom_seq() == old(self).axiom_seq().push((*base, si, index, sv, result, level))
                    }
                },
                ArrayTerm::Var(_) => final(self).generated_keys() == old(self).generated_keys()
                    && final(self).axiom_seq() == old(self).axiom_seq(),
            },
    {
        let mut st = self.take_state();
        st.ensure_elem(index);
        st.ensure_elem(result);
        let ghost sel = Select { array, index, result, level };
        st.selects.push(Select { array, index, result, level });
        let idx = st.selects.len() - 1;
        assert(st.selects@[idx as int] == sel);
        st.generate_axioms_for_select(idx);
        self.st = st;
    }

    /// The literals that explain why `a` and `b` are equal: the proof path of `a`, then
    /// those of `b`'s proof path not already present.
    pub fn explain_equality(&self, a: ElemId, b: ElemId) -> (lits: Vec<Literal>)
        ensures
            lits@ == append_new(self.proof_path(a), self.proof_path(b)),
            forall|i: int| 0 <= i < lits@.len() ==> self.equality_literals().contains(#[trigger] lits@[i]),
    {
        proof {
            use_type_invariant(self);
            self.st.uf.lemma_path_literals(a);
            self.st.uf.lemma_path_literals(b);
        }
        let mut lits = self.st.uf.collect_path(a);
        let more = self.st.uf.collect_path(b);
        let ghost pa = lits@;
        let ghost pb = more@;
        proof {
            assert forall|i: int| 0 <= i < lits@.len() implies self.equality_literals().contains(#[trigger] lits@[i]) by {
                assert(self.st.uf.edge_literals().contains(lits@[i]));
                let y = choose|y: u32| #[trigger] self.st.uf.edges().contains_key(y) && self.st.uf.edges()[y].1 == lits@[i];
            }
            assert(pb.take(0) =~= Seq::<Literal>::empty());
        }
        let mut i: usize = 0;
        while i < more.len()
            invariant
                pb == more@,
                pb == self.proof_path(b),
                i <= pb.len(),
                lits@ == append_new(pa, pb.take(i as int)),
                forall|k: int| 0 <= k < pb.len() ==> self.equality_literals().contains(#[trigger] pb[k]),
                forall|k: int| 0 <= k < lits@.len() ==> self.equality_literals().contains(#[trigger] lits@[k]),
            decreases pb.len() - i,
        {
            let lit = more[i];
            proof {
                assert(pb.take(i + 1).drop_last() =~= pb.take(i as int));
                assert(pb.take(i + 1).last() == lit);
            }
            let mut present = false;
            let mut j: usize = 0;
            while j < lits.len()
                invariant
                    j <= lits@.len(),
                    present == exists|t: int| 0 <= t < j && lits@[t] == lit,
                decreases lits@.len() - j,
            {
                if lits[j] == lit {
                    present = true;
                }
                j = j + 1;
            }
            assert(present == lits@.contains(lit));
            if !present {
                lits.push(lit);
            }
            i = i + 1;
        }
        proof {
            assert(pb.take(pb.len() as int) =~= pb);
        }
        lits
    }

    /// The first disequality whose elements are equal, as a conflict on the literals that
    /// made them equal and the disequality's literal. Failing that, the first axiom
    /// instance whose indices are equal while a disequality separates the element read
    /// from the stored value, as a conflict on the literals that made the indices and
    /// the separated elements equal and the disequality's literal.
    fn check_conflicts(&mut self) -> (r: Option<TheoryConflict>)
        ensures
            final(self).same_facts(old(self)),
            forall|y: u32| #[trigger] final(self).rep(y) == old(self).rep(y),
            forall|y: u32| #[trigger] final(self).proof_path(y) == old(self).proof_path(y),
            match r {
                None => {
                    &&& forall|k: int| 0 <= k < old(self).diseq_seq().len() ==> !#[trigger] old(self).diseq_violated(k)
                    &&& forall|k: int, d: int| 0 <= k < old(self).axiom_seq().len() && 0 <= d < old(self).diseq_seq().len()
                        ==> !#[trigger] old(self).axiom_violated(k, d)
                },
                Some(c) => (exists|k: int| {
                    &&& 0 <= k < old(self).diseq_seq().len()
                    &&& #[trigger] old(self).diseq_violated(k)
                    &&& forall|j: int| 0 <= j < k ==> !#[trigger] old(self).diseq_violated(j)
                    &&& c.literals@ == append_new(old(self).proof_path(old(self).diseq_seq()[k].0),
                        old(self).proof_path(old(self).diseq_seq()[k].1)).push(old(self).diseq_seq()[k].2)
                    &&& forall|i: int| 0 <= i < c.literals@.len() ==> old(self).equality_literals().contains(#[trigger] c.literals@[i])
                        || c.literals@[i] == old(self).diseq_seq()[k].2
                }) || {
                    &&& forall|k: int| 0 <= k < old(self).diseq_seq().len() ==> !#[trigger] old(self).diseq_violated(k)
                    &&& exists|k: int, d: int| {
                        &&& 0 <= k < old(self).axiom_seq().len()
                        &&& 0 <= d < old(self).diseq_seq().len()
                        &&& #[trigger] old(self).axiom_violated(k, d)
                        &&& c.literals@.len() > 0
                        &&& c.literals@.last() == old(self).diseq_seq()[d].2
                        &&& forall|i: int| 0 <= i < c.literals@.len() ==> old(self).equality_literals().contains(#[trigger] c.literals@[i])
                            || c.literals@[i] == old(self).diseq_seq()[d].2
                    }
                },
            },
    {
        let n = self.st.disequalities.len();
        let mut i: usize = 0;
        while i < n
            invariant
                n == old(self).diseq_seq().len(),
                i <= n,
                self.same_facts(old(self)),
                forall|y: u32| #[trigger] self.rep(y) == old(self).rep(y),
                forall|y: u32| #[trigger] self.proof_path(y) == old(self).proof_path(y),
                forall|j: int| 0 <= j < i ==> !#[trigger] old(self).diseq_violated(j),
            decreases n - i,
        {
            let (a, b, lit) = self.st.disequalities[i];
            assert((a, b, lit) == old(self).diseq_seq()[i as int]);
            if self.are_equal(a, b) {
                let mut lits = self.explain_equality(a, b);
                lits.push(lit);
                proof {
                    assert(old(self).diseq_violated(i as int));
                }
                return Some(TheoryConflict::new(lits));
            }
            i = i + 1;
        }
        let m = self.st.pending_axioms.len();
        let mut k: usize = 0;
        while k < m
            invariant
                m == old(self).axiom_seq().len(),
                n == old(self).diseq_seq().len(),
                k <= m,
                self.same_facts(old(self)),
                forall|y: u32| #[trigger] self.rep(y) == old(self).rep(y),
                forall|y: u32| #[trigger] self.proof_path(y) == old(self).proof_path(y),
                forall|j: int| 0 <= j < n ==> !#[trigger] old(self).diseq_violated(j),
                forall|k2: int, d: int| 0 <= k2 < k && 0 <= d < n ==> !#[trigger] old(self).axiom_violated(k2, d),
            decreases m - k,
        {
            proof {
                assert(self.st.pending_axioms@.len() == self.axiom_seq().len());
            }
            let (si, ri, sv, res) = match &self.st.pending_axioms[k].0 {
                Axiom::ReadOverWriteSame { index, read_index, value, result, .. } => (*index, *read_index, *value, *result),
            };
            proof {
                let ax = old(self).axiom_seq()[k as int];
                assert(ax == axiom_fact(self.st.pending_axioms@[k as int]));
                assert(ax.1 == si && ax.2 == ri && ax.3 == sv && ax.4 == res);
            }
            if self.are_equal(si, ri) {
                let mut d: usize = 0;
                while d < n
                    invariant
                        m == old(self).axiom_seq().len(),
                        n == old(self).diseq_seq().len(),
                        k < m,
                        d <= n,
                        self.same_facts(old(self)),
                        forall|y: u32| #[trigger] self.rep(y) == old(self).rep(y),
                        forall|y: u32| #[trigger] self.proof_path(y) == old(self).proof_path(y),
                        forall|j: int| 0 <= j < n ==> !#[trigger] old(self).diseq_violated(j),
                        forall|k2: int, d2: int| 0 <= k2 < k && 0 <= d2 < n ==> !#[trigger] old(self).axiom_violated(k2, d2),
                        forall|d2: int| 0 <= d2 < d ==> !#[trigger] old(self).axiom_violated(k as int, d2),
                        old(self).axiom_seq()[k as int].1 == si && old(self).axiom_seq()[k as int].2 == ri,
                        old(self).axiom_seq()[k as int].3 == sv && old(self).axiom_seq()[k as int].4 == res,
                        old(self).rep(si) == old(self).rep(ri),
                    decreases n - d,
                {
                    let (a, b, lit) = self.st.disequalities[d];
                    assert((a, b, lit) == old(self).diseq_seq()[d as int]);
                    let a_res = self.are_equal(a, res);
                    let b_val = self.are_equal(b, sv);
                    let a_val = self.are_equal(a, sv);
                    let b_res = self.are_equal(b, res);
                    if (a_res && b_val) || (a_val && b_res) {
                        proof {
                            assert(old(self).axiom_violated(k as int, d as int));
                        }
                        let mut lits = self.explain_equality(si, ri);
                        let mut left = if a_res { self.explain_equality(a, res) } else { self.explain_equality(a, sv) };
                        let mut right = if a_res { self.explain_equality(b, sv) } else { self.explain_equality(b, res) };
                        let ghost l0 = lits@;
                        let ghost l1 = left@;
                        let ghost l2 = right@;
                        lits.append(&mut left);
                        lits.append(&mut right);
                        lits.push(lit);
                        proof {
                            assert(lits@ == l0 + l1 + l2 + seq![lit]);
                            assert forall|q: int| 0 <= q < lits@.len() implies old(self).equality_literals().contains(#[trigger] lits@[q])
                                || lits@[q] == lit by {
                                if q < l0.len() {
                                    assert(lits@[q] == l0[q]);
                                } else if q < l0.len() + l1.len() {
                                    assert(lits@[q] == l1[q - l0.len()]);
                                } else if q < l0.len() + l1.len() + l2.len() {
                                    assert(lits@[q] == l2[q - l0.len() - l1.len()]);
                                }
                            }
                        }
                        return Some(TheoryConflict::new(lits));
                    }
                    d = d + 1;
                }
            } else {
                proof {
                    assert forall|d: int| 0 <= d < n implies !#[trigger] old(self).axiom_violated(k as int, d) by {}
                }
            }
            k = k + 1;
        }
        None
    }
}

impl Default for ArraySolver {
    fn default() -> (s: Self)
        ensures
            s.equalities().len() == 0,
            s.assertion_count() == 0,
            s.diseq_seq().len() == 0,
            s.select_seq().len() == 0,
            s.axiom_seq().len() == 0,
            s.generated_keys().len() == 0,
            s.pending().len() == 0,
            s.level() == 0,
    {
        Self::new()
    }
}

impl TheorySolver for ArraySolver {
    /// The literals of the recorded assertions, with their levels.
    closed spec fn facts(&self) -> Seq<(Literal, u32)> {
        self.st.assertions@.map_values(|a: ArrayAssertion| (a.literal, a.level))
    }

    fn name(&self) -> (n: &'static str) {
        "Array"
    }

    /// Only the level is recorded: facts come through `assert_equality`,
    /// `assert_disequality` and `add_select`.
    fn assert_literal(&mut self, lit: Literal, level: u32) -> (r: Result<(), TheoryConflict>)
        ensures
            r is Ok,
            final(self).equalities() == old(self).equalities(),
            final(self).diseq_seq() == old(self).diseq_seq(),
            final(self).select_seq() == old(self).select_seq(),
            final(self).axiom_seq() == old(self).axiom_seq(),
            final(self).level() == level,
            forall|y: u32| #[trigger] final(self).rep(y) == old(self).rep(y),
    {
        let mut st = self.take_state();
        st.current_level = level;
        self.st = st;
        Ok(())
    }

    fn check(&mut self) -> (r: TheoryResult)
        ensures
            final(self).same_facts(old(self)),
            forall|y: u32| #[trigger] final(self).rep(y) == old(self).rep(y),
            match r {
                TheoryResult::Consistent => {
                    &&& forall|k: int| 0 <= k < old(self).diseq_seq().len() ==> !#[trigger] old(self).diseq_violated(k)
                    &&& forall|k: int, d: int| 0 <= k < old(self).axiom_seq().len() && 0 <= d < old(self).diseq_seq().len()
                        ==> !#[trigger] old(self).axiom_violated(k, d)
                },
                TheoryResult::Conflict(c) => (exists|k: int| {
                    &&& 0 <= k < old(self).diseq_seq().len()
                    &&& #[trigger] old(self).diseq_violated(k)
                    &&& forall|j: int| 0 <= j < k ==> !#[trigger] old(self).diseq_violated(j)
                    &&& c.literals@ == append_new(old(self).proof_path(old(self).diseq_seq()[k].0),
                        old(self).proof_path(old(self).diseq_seq()[k].1)).push(old(self).diseq_seq()[k].2)
                    &&& forall|i: int| 0 <= i < c.literals@.len() ==> old(self).equality_literals().contains(#[trigger] c.literals@[i])
                        || c.literals@[i] == old(self).diseq_seq()[k].2
                }) || {
                    &&& forall|k: int| 0 <= k < old(self).diseq_seq().len() ==> !#[trigger] old(self).diseq_violated(k)
                    &&& exists|k: int, d: int| {
                        &&& 0 <= k < old(self).axiom_seq().len()
                        &&& 0 <= d < old(self).diseq_seq().len()
                        &&& #[trigger] old(self).axiom_violated(k, d)
                        &&& c.literals@.len() > 0
                        &&& c.literals@.last() == old(self).diseq_seq()[d].2
                        &&& forall|i: int| 0 <= i < c.literals@.len() ==> old(self).equality_literals().contains(#[trigger] c.literals@[i])
                            || c.literals@[i] == old(self).diseq_seq()[d].2
                    }
                },
            },
    {
        match self.check_conflicts() {
            Some(conflict) => TheoryResult::Conflict(conflict),
            None => TheoryResult::Consistent,
        }
    }

    fn propagate(&mut self) -> (r: Vec<TheoryPropagation>)
        ensures
            r@ == old(self).pending(),
            final(self).pending().len() == 0,
            final(self).equalities() == old(self).equalities(),
            final(self).diseq_seq() == old(self).diseq_seq(),
            final(self).select_seq() == old(self).select_seq(),
            final(self).level() == old(self).level(),
    {
        let mut st = self.take_state();
        let mut out: Vec<TheoryPropagation> = Vec::new();
        std::mem::swap(&mut out, &mut st.pending_propagations);
        self.st = st;
        out
    }

    /// No explanation is ever recorded by this solver.
    fn explain(&self, lit: Literal) -> (r: Vec<Literal>)
        ensures
            r@.len() == 0,
    {
        Vec::new()
    }

    /// Drop the equalities, disequalities, selects and axiom instances above `level` and
    /// rebuild the classes from the equalities that remain.
    fn backtrack(&mut self, level: u32)
        ensures
            final(self).equalities() == old(self).equalities_up_to(level),
            final(self).select_seq() == old(self).select_seq().filter(|s: Select| s.level <= level),
            final(self).axiom_seq() == old(self).axiom_seq().filter(|a: (ArrayTerm, u32, u32, u32, u32, u32)| a.5 <= level),
            final(self).diseq_seq() == old(self).disequalities_up_to(level),
            final(self).generated_keys() == old(self).generated_keys(),
            final(self).pending() == old(self).pending(),
            final(self).level() == level,
            forall|x: u32, y: u32| #[trigger] connected(final(self).equalities(), x, y) == (final(self).rep(x) == final(self).rep(y)),
    {
        let mut st = self.take_state();
        let ghost cs = st.assertions@;
        let mut kept: Vec<ArrayAssertion> = Vec::new();
        let n = st.assertions.len();
        let mut k: usize = 0;
        while k < n
            invariant
                cs == st.assertions@,
                n == cs.len(),
                k <= n,
                kept@ == cs.take(k as int).filter(|a: ArrayAssertion| a.level <= level),
            decreases n - k,
        {
            reveal_with_fuel(Seq::filter, 1);
            assert(cs.take(k + 1).drop_last() =~= cs.take(k as int));
            if st.assertions[k].level <= level {
                kept.push(st.assertions[k]);
            }
            k = k + 1;
        }
        assert(cs.take(n as int) =~= cs);
        let ghost ss = st.selects@;
        let mut kept_selects: Vec<Select> = Vec::new();
        let ns = st.selects.len();
        let mut k: usize = 0;
        while k < ns
            invariant
                ss == st.selects@,
                ns == ss.len(),
                k <= ns,
                kept_selects@ == ss.take(k as int).filter(|s: Select| s.level <= level),
            decreases ns - k,
        {
            reveal_with_fuel(Seq::filter, 1);
            assert(ss.take(k + 1).drop_last() =~= ss.take(k as int));
            if st.selects[k].level <= level {
                kept_selects.push(st.selects[k].clone());
            }
            k = k + 1;
        }
        assert(ss.take(ns as int) =~= ss);
        let ghost ax = st.pending_axioms@.map_values(|a: (Axiom, u32)| axiom_fact(a));
        let mut kept_axioms: Vec<(Axiom, u32)> = Vec::new();
        let mut taken_axioms: Vec<(Axiom, u32)> = Vec::new();
        std::mem::swap(&mut taken_axioms, &mut st.pending_axioms);
        let na = taken_axioms.len();
        let mut k: usize = 0;
        while k < na
            invariant
                ax == taken_axioms@.map_values(|a: (Axiom, u32)| axiom_fact(a)),
                na == ax.len(),
                k <= na,
                kept_axioms@.map_values(|a: (Axiom, u32)| axiom_fact(a)) == ax.take(k as int).filter(|a: (ArrayTerm, u32, u32, u32, u32, u32)| a.5 <= level),
            decreases na - k,
        {
            reveal_with_fuel(Seq::filter, 1);
            assert(ax.take(k + 1).drop_last() =~= ax.take(k as int));
            let (inst, l) = &taken_axioms[k];
            assert(axiom_fact(taken_axioms@[k as int]) == ax[k as int]);
            if *l <= level {
                let copy = match inst {
                    Axiom::ReadOverWriteSame { array, index, read_index, value, result } => Axiom::ReadOverWriteSame {
                        array: array.clone(),
                        index: *index,
                        read_index: *read_index,
                        value: *value,
                        result: *result,
                    },
                };
                let ghost before = kept_axioms@;
                kept_axioms.push((copy, *l));
                proof {
                    assert(kept_axioms@.map_values(|a: (Axiom, u32)| axiom_fact(a))
                        =~= before.map_values(|a: (Axiom, u32)| axiom_fact(a)).push(ax[k as int]));
                }
            }
            k = k + 1;
        }
        assert(ax.take(na as int) =~= ax);
        let mut dq: Vec<(ElemId, ElemId, Literal)> = Vec::new();
        let m = kept.len();
        let mut j: usize = 0;
        while j < m
            invariant
                m == kept@.len(),
                j <= m,
                dq@ == diseq_triples(kept@.take(j as int)),
            decreases m - j,
        {
            let a = kept[j];
            proof {
                assert(kept@.take(j + 1).drop_last() =~= kept@.take(j as int));
                assert(kept@.take(j + 1).last() == a);
            }
            if !a.is_equality {
                dq.push((a.lhs, a.rhs, a.literal));
            }
            j = j + 1;
        }
        assert(kept@.take(m as int) =~= kept@);
        st.disequalities = dq;
        st.assertions = kept;
        st.selects = kept_selects;
        st.pending_axioms = kept_axioms;
        st.rebuild();
        st.current_level = level;
        self.st = st;
        proof {
            lemma_facts_filter(cs, |a: ArrayAssertion| (a.literal, a.level), |a: ArrayAssertion| a.level <= level, level);
        }
        proof {
            assert forall|x: u32, y: u32| #[trigger] connected(self.equalities(), x, y) == (self.rep(x) == self.rep(y)) by {
                assert(self.st.uf.same(x, y) == connected(eq_pairs(self.st.assertions@), x, y));
            }
        }
    }

    fn reset(&mut self)
        ensures
            final(self).equalities().len() == 0,
            final(self).assertion_count() == 0,
            final(self).diseq_seq().len() == 0,
            final(self).select_seq().len() == 0,
            final(self).axiom_seq().len() == 0,
            final(self).generated_keys().len() == 0,
            final(self).pending().len() == 0,
            final(self).level() == 0,
    {
        self.st = ArrayState::empty();
    }
}

} // verus!
