//! DPLL(T): an SMT problem's Boolean structure becomes CNF (by the Tseitin encoding),
//! with theory atoms as fresh variables, and theory solvers chosen by the logic check
//! what the SAT search assigns.
use vstd::prelude::*;
use crate::clause::Clause;
use crate::formula::Formula;
use crate::solver::maxsat::appended;
use crate::literal::{Literal, Variable};
use crate::solver::search::SolveResult;
use crate::theory::TheoryResult;
use crate::parser::smtlib::{FunDecl, SmtProblem, Term, TermModel, TermOp, Sort, Logic, same_text, term_model, term_models, lemma_term_models};
use crate::theory::TheoryManager;
use crate::theory::euf::EufSolver;
use crate::theory::lia::LiaSolver;
use crate::theory::bv::BvSolver;
use crate::theory::array::ArraySolver;
use crate::tseitin::{keys_extend, key_var, keyed, encodable, encodes, encodes_all, keeps, atom_var,
    lemma_key_var_found, lemma_key_var_none, lemma_encodes_later, lemma_encodes_all_push, lemma_value_extend,
    lemma_atom_encodes, lemma_not_encodes, lemma_and_encodes, lemma_or_encodes, lemma_implies_encodes, lemma_xor_encodes,
    lemma_ite_encodes, lemma_encodable_gives, asserts_all, lemma_asserts_push};

verus! {

/// The text that `format!("{:?}", t)` gives for a term of form `t` (its derived
/// `Debug` text).
pub uninterp spec fn debug_text(t: TermModel) -> Seq<char>;

/// The debug text of `t` (`format!("{:?}", t)`), which depends on `t` alone; what it
/// looks like is left unsaid here.
#[verifier::external_body]
fn term_key(t: &Term) -> (s: String)
    ensures
        s@ == debug_text(t@),
{
    format!("{:?}", t)
}

/// A declared symbol: its name, sort, and SAT variable if it is a Boolean constant.
#[derive(Debug)]
pub struct SmtVar {
    pub name: String,
    pub sort: Sort,
    pub sat_var: Option<u32>,
}

/// Whether the Boolean structure of a term is encoded (the other terms are atoms).
pub open spec fn is_connective(op: TermOp) -> bool {
    op is Not || op is And || op is Or || op is Implies || op is Xor || op is Ite
}

/// How many fresh variables the encoding of `t` may take at most.
pub open spec fn cnf_size(t: TermModel) -> nat
    decreases t,
{
    match t {
        TermModel::Op(op, args) => if is_connective(op) { 1 + cnf_sizes(args) } else { 1 },
        _ => 1,
    }
}

/// The sum of `cnf_size` over `ts`.
pub open spec fn cnf_sizes(ts: Seq<TermModel>) -> nat
    decreases ts,
{
    if ts.len() == 0 {
        0
    } else {
        cnf_sizes(ts.subrange(0, ts.len() - 1)) + cnf_size(ts[ts.len() - 1])
    }
}

proof fn lemma_cnf_sizes_take(ts: Seq<TermModel>, k: int)
    requires
        0 <= k < ts.len(),
    ensures
        cnf_sizes(ts.take(k + 1)) == cnf_sizes(ts.take(k)) + cnf_size(ts[k]),
        cnf_sizes(ts.take(k + 1)) <= cnf_sizes(ts),
    decreases ts.len() - k,
{
    assert(ts.take(k + 1).subrange(0, k) =~= ts.take(k));
    if k + 1 < ts.len() {
        lemma_cnf_sizes_take(ts, k + 1);
    } else {
        assert(ts.take(k + 1) =~= ts);
    }
}

proof fn lemma_cnf_sizes_short(ts: Seq<TermModel>)
    ensures
        ts.len() == 1 ==> cnf_sizes(ts) == cnf_size(ts[0]),
        ts.len() == 2 ==> cnf_sizes(ts) == cnf_size(ts[0]) + cnf_size(ts[1]),
        ts.len() == 3 ==> cnf_sizes(ts) == cnf_size(ts[0]) + cnf_size(ts[1]) + cnf_size(ts[2]),
{
    assert(cnf_sizes(ts.take(0)) == 0);
    if 1 <= ts.len() <= 3 {
        lemma_cnf_sizes_take(ts, 0);
        if ts.len() >= 2 {
            lemma_cnf_sizes_take(ts, 1);
        }
        if ts.len() >= 3 {
            lemma_cnf_sizes_take(ts, 2);
        }
        assert(ts.take(ts.len() as int) =~= ts);
    }
}

/// Whether the encoding of `t` gives a literal: not for `true` and `false`, for a
/// negation, conjunction, disjunction or implication when some operand gives one, for an
/// exclusive or and an if-then-else when every operand gives one, and always for an atom.
pub open spec fn gives(t: TermModel) -> bool
    decreases t,
{
    match t {
        TermModel::True => false,
        TermModel::False => false,
        TermModel::Op(op, args) => if op is Not || op is And || op is Or || op is Implies {
            gives_count(args) > 0
        } else if op is Xor || op is Ite {
            gives_count(args) == args.len()
        } else {
            true
        },
        _ => true,
    }
}

/// How many of `ts` give a literal.
pub open spec fn gives_count(ts: Seq<TermModel>) -> nat
    decreases ts,
{
    if ts.len() == 0 {
        0
    } else {
        gives_count(ts.subrange(0, ts.len() - 1)) + if gives(ts[ts.len() - 1]) { 1nat } else { 0nat }
    }
}

/// How many clauses the encoding of `t` adds: one (the empty clause) for `false`; for a
/// conjunction, disjunction or implication, those of its operands and, when `k > 0` of
/// them give literals, `k + 1` defining clauses; for an exclusive or and an
/// if-then-else, those of the operands and four defining clauses when all of them give
/// literals; none for atoms.
pub open spec fn cnf_clauses(t: TermModel) -> nat
    decreases t,
{
    match t {
        TermModel::False => 1,
        TermModel::Op(op, args) => if op is Not {
            clauses_sum(args)
        } else if op is And || op is Or || op is Implies {
            clauses_sum(args) + if gives_count(args) > 0 { gives_count(args) + 1 } else { 0 }
        } else if op is Xor || op is Ite {
            clauses_sum(args) + if gives_count(args) == args.len() { 4nat } else { 0nat }
        } else {
            0
        },
        _ => 0,
    }
}

/// The sum of `cnf_clauses` over `ts`.
pub open spec fn clauses_sum(ts: Seq<TermModel>) -> nat
    decreases ts,
{
    if ts.len() == 0 {
        0
    } else {
        clauses_sum(ts.subrange(0, ts.len() - 1)) + cnf_clauses(ts[ts.len() - 1])
    }
}

proof fn lemma_counts_take(ts: Seq<TermModel>, k: int)
    requires
        0 <= k < ts.len(),
    ensures
        gives_count(ts.take(k + 1)) == gives_count(ts.take(k)) + if gives(ts[k]) { 1nat } else { 0nat },
        clauses_sum(ts.take(k + 1)) == clauses_sum(ts.take(k)) + cnf_clauses(ts[k]),
{
    assert(ts.take(k + 1).subrange(0, k) =~= ts.take(k));
}

proof fn lemma_counts_short(ts: Seq<TermModel>)
    ensures
        ts.len() == 1 ==> gives_count(ts) == (if gives(ts[0]) { 1nat } else { 0nat }) && clauses_sum(ts) == cnf_clauses(ts[0]),
        ts.len() == 2 ==> gives_count(ts) == (if gives(ts[0]) { 1nat } else { 0nat }) + (if gives(ts[1]) { 1nat } else { 0nat })
            && clauses_sum(ts) == cnf_clauses(ts[0]) + cnf_clauses(ts[1]),
        ts.len() == 3 ==> gives_count(ts) == (if gives(ts[0]) { 1nat } else { 0nat }) + (if gives(ts[1]) { 1nat } else { 0nat })
            + (if gives(ts[2]) { 1nat } else { 0nat })
            && clauses_sum(ts) == cnf_clauses(ts[0]) + cnf_clauses(ts[1]) + cnf_clauses(ts[2]),
{
    assert(gives_count(ts.take(0)) == 0);
    assert(clauses_sum(ts.take(0)) == 0);
    if 1 <= ts.len() <= 3 {
        lemma_counts_take(ts, 0);
        if ts.len() >= 2 {
            lemma_counts_take(ts, 1);
        }
        if ts.len() >= 3 {
            lemma_counts_take(ts, 2);
        }
        assert(ts.take(ts.len() as int) =~= ts);
    }
}

/// The literal of variable `v` with the given sign.
pub open spec fn lit_of(v: nat, positive: bool) -> Literal {
    Literal(Literal::code_of(v, positive) as u32)
}

/// The complement of `l`.
pub open spec fn negated(l: Literal) -> Literal {
    Literal(l.neg_code() as u32)
}

/// The clauses that define `x` as the disjunction of `lits`.
pub open spec fn or_clauses(x: Literal, lits: Seq<Literal>) -> Seq<Seq<Literal>> {
    seq![seq![negated(x)] + lits] + lits.map_values(|l: Literal| seq![negated(l), x])
}

/// The clauses that define `x` as the conjunction of `lits`.
pub open spec fn and_clauses(x: Literal, lits: Seq<Literal>) -> Seq<Seq<Literal>> {
    lits.map_values(|l: Literal| seq![negated(x), l]) + seq![lits.map_values(|l: Literal| negated(l)).push(x)]
}

/// The clauses that define `x` as `a` exclusive-or `b`.
pub open spec fn xor_clauses(x: Literal, a: Literal, b: Literal) -> Seq<Seq<Literal>> {
    seq![
        seq![negated(x), a, b],
        seq![negated(x), negated(a), negated(b)],
        seq![x, a, negated(b)],
        seq![x, negated(a), b],
    ]
}

/// The clauses that define `x` as if `c` then `t` else `e`.
pub open spec fn ite_clauses(x: Literal, c: Literal, t: Literal, e: Literal) -> Seq<Seq<Literal>> {
    seq![
        seq![negated(x), negated(c), t],
        seq![negated(x), c, e],
        seq![negated(c), negated(t), x],
        seq![c, negated(e), x],
    ]
}

/// Whether the last clauses of `f` are `cs`.
pub open spec fn ends_with(f: Formula, cs: Seq<Seq<Literal>>) -> bool {
    &&& f.clause_seq().len() >= cs.len()
    &&& forall|i: int| 0 <= i < cs.len() ==> (#[trigger] f.clause_seq()[f.clause_seq().len() - cs.len() + i])@ == cs[i]
}

/// `f2` is `f1` with the clause `c` added: an `appended` relation grows by it.
proof fn lemma_append_one(f0: Formula, f1: Formula, f2: Formula, cs: Seq<Seq<Literal>>, c: Seq<Literal>)
    requires
        appended(f0, f1, cs),
        f2.clause_seq().len() == f1.clause_seq().len() + 1,
        forall|k: int| 0 <= k < f1.clause_seq().len() ==> #[trigger] f2.clause_seq()[k] == f1.clause_seq()[k],
        f2.clause_seq().last()@ == c,
    ensures
        appended(f0, f2, cs.push(c)),
{
    assert forall|i: int| 0 <= i < cs.push(c).len() implies (#[trigger] f2.clause_seq()[f0.clause_seq().len() + i])@ == cs.push(c)[i] by {
        if i < cs.len() {
            assert(f2.clause_seq()[f0.clause_seq().len() + i] == f1.clause_seq()[f0.clause_seq().len() + i]);
        }
    }
}

/// The literals of `c` are of variables in `1..n`.
pub open spec fn vars_below(c: Seq<Literal>, n: nat) -> bool {
    forall|i: int| 0 <= i < c.len() ==> 1 <= (#[trigger] c[i]).var_of() < n
}

/// `f` is `f0` with clauses appended, each of variables below `n`.
pub open spec fn grown_below(f0: Formula, f: Formula, n: nat) -> bool {
    &&& f.clause_seq().len() >= f0.clause_seq().len()
    &&& forall|k: int| 0 <= k < f0.clause_seq().len() ==> #[trigger] f.clause_seq()[k] == f0.clause_seq()[k]
    &&& forall|k: int| f0.clause_seq().len() <= k < f.clause_seq().len() ==> vars_below(#[trigger] f.clause_seq()[k]@, n)
}

/// How many theory solvers a problem of logic `l` gets: one for a logic of one theory,
/// three for the combined array logics, and all four (EUF, LIA, BV, arrays) for `ALL`
/// or no logic.
pub open spec fn logic_theories(l: Option<Logic>) -> nat {
    match l {
        Some(Logic::QfUf) | Some(Logic::QfLia) | Some(Logic::QfLra) | Some(Logic::QfBv) | Some(Logic::QfA) => 1,
        Some(Logic::QfAuflia) | Some(Logic::QfAufbv) => 3,
        _ => 4,
    }
}

/// The SAT variable of the latest entry of `vs` named `name`; `None` when there is no
/// such entry or it is not a Boolean constant.
pub open spec fn latest_var(vs: Seq<(String, SmtVar)>, name: Seq<char>) -> Option<u32>
    decreases vs.len(),
{
    if vs.len() == 0 {
        None
    } else if vs.last().0@ == name {
        vs.last().1.sat_var
    } else {
        latest_var(vs.drop_last(), name)
    }
}

/// Whether `d` declares a Boolean constant.
pub open spec fn is_bool_const(d: FunDecl) -> bool {
    d.return_sort is Bool && d.params@.len() == 0
}

/// How many of `ds` declare Boolean constants.
pub open spec fn bool_consts(ds: Seq<FunDecl>) -> nat
    decreases ds.len(),
{
    if ds.len() == 0 {
        0
    } else {
        bool_consts(ds.drop_last()) + if is_bool_const(ds.last()) { 1nat } else { 0nat }
    }
}

/// Whether some entry of `vs` is named `name`.
pub open spec fn has_entry(vs: Seq<(String, SmtVar)>, name: Seq<char>) -> bool {
    exists|i: int| 0 <= i < vs.len() && (#[trigger] vs[i]).0@ == name
}

/// The DPLL(T) solver's state: the problem, the theory solvers, the declared symbols,
/// the next SAT variable, and the atoms given variables (by their debug text).
pub struct DpllT {
    problem: SmtProblem,
    theories: TheoryManager,
    variables: Vec<(String, SmtVar)>,
    next_sat_var: u32,
    term_to_var: Vec<(String, u32)>,
    var_to_term: Vec<(u32, Term)>,
}

impl DpllT {
    /// The next SAT variable.
    pub closed spec fn next_var(&self) -> nat {
        self.next_sat_var as nat
    }

    /// The problem.
    pub closed spec fn spec_problem(&self) -> SmtProblem {
        self.problem
    }

    /// The declared symbols, with their SAT variables where they have one.
    pub closed spec fn declared(&self) -> Seq<(String, SmtVar)> {
        self.variables@
    }

    /// The texts of the atoms that have a SAT variable, with their variables.
    pub closed spec fn atom_keys(&self) -> Seq<(String, u32)> {
        self.term_to_var@
    }

    /// The literals handed to the theory solvers, with their decision levels.
    pub closed spec fn theories_asserted(&self) -> Seq<(Literal, u32)> {
        self.theories.asserted()
    }

    /// The number of theory solvers.
    pub closed spec fn num_theories(&self) -> nat {
        self.theories.num_solvers()
    }

    /// The SAT variables of symbols and atoms lie below the next SAT variable.
    pub closed spec fn wf(&self) -> bool {
        &&& 1 <= self.next_sat_var
        &&& forall|i: int| 0 <= i < self.variables@.len() ==> ((#[trigger] self.variables@[i]).1.sat_var matches Some(v) ==> 1 <= v < self.next_sat_var)
        &&& forall|i: int| 0 <= i < self.term_to_var@.len() ==> 1 <= (#[trigger] self.term_to_var@[i]).1 < self.next_sat_var
    }

    /// A solver for `problem`, with the theory solvers of its logic (all of them when it
    /// names none).
    pub fn new(problem: SmtProblem) -> (s: DpllT)
        ensures
            s.wf(),
            s.next_var() == 1,
            s.spec_problem() == problem,
            s.num_theories() == logic_theories(problem.logic),
    {
        let mut s = DpllT {
            problem,
            theories: TheoryManager::new(),
            variables: Vec::new(),
            next_sat_var: 1,
            term_to_var: Vec::new(),
            var_to_term: Vec::new(),
        };
        s.setup_theories();
        s
    }

    /// Register the theory solvers of the problem's logic.
    fn setup_theories(&mut self)
        ensures
            final(self).theories.num_solvers() == old(self).theories.num_solvers() + logic_theories(old(self).problem.logic),
            final(self).problem == old(self).problem,
            final(self).variables == old(self).variables,
            final(self).next_sat_var == old(self).next_sat_var,
            final(self).term_to_var == old(self).term_to_var,
            final(self).var_to_term == old(self).var_to_term,
    {
        let logic = match self.problem.logic {
            Some(l) => l,
            None => Logic::All,
        };
        match logic {
            Logic::QfUf => {
                self.theories.add_solver(Box::new(EufSolver::new()));
            },
            Logic::QfLia | Logic::QfLra => {
                self.theories.add_solver(Box::new(LiaSolver::new()));
            },
            Logic::QfBv => {
                self.theories.add_solver(Box::new(BvSolver::new()));
            },
            Logic::QfA => {
                self.theories.add_solver(Box::new(ArraySolver::new()));
            },
            Logic::QfAuflia => {
                self.theories.add_solver(Box::new(EufSolver::new()));
                self.theories.add_solver(Box::new(LiaSolver::new()));
                self.theories.add_solver(Box::new(ArraySolver::new()));
            },
            Logic::QfAufbv => {
                self.theories.add_solver(Box::new(EufSolver::new()));
                self.theories.add_solver(Box::new(BvSolver::new()));
                self.theories.add_solver(Box::new(ArraySolver::new()));
            },
            Logic::All => {
                self.theories.add_solver(Box::new(EufSolver::new()));
                self.theories.add_solver(Box::new(LiaSolver::new()));
                self.theories.add_solver(Box::new(BvSolver::new()));
                self.theories.add_solver(Box::new(ArraySolver::new()));
            },
        }
    }

    /// The problem's logic.
    pub fn logic(&self) -> (l: Option<&Logic>)
        ensures
            match l {
                Some(x) => self.spec_problem().logic == Some(*x),
                None => self.spec_problem().logic is None,
            },
    {
        self.problem.logic.as_ref()
    }

    /// The number of assertions.
    pub fn num_assertions(&self) -> (n: usize)
        ensures
            n == self.spec_problem().assertions@.len(),
    {
        self.problem.assertions.len()
    }

    /// The number of declarations.
    pub fn num_declarations(&self) -> (n: usize)
        ensures
            n == self.spec_problem().declarations@.len(),
    {
        self.problem.declarations.len()
    }

    /// The theory solvers.
    pub fn theories(&mut self) -> (t: &mut TheoryManager)
        ensures
            t.num_solvers() == old(self).num_theories(),
    {
        &mut self.theories
    }

    /// The SAT variable of the latest declaration of `name`, if it is a Boolean
    /// constant.
    fn declared_var(&self, name: &String) -> (r: Option<u32>)
        requires
            self.wf(),
        ensures
            r == latest_var(self.variables@, name@),
            r matches Some(v) ==> 1 <= v < self.next_sat_var,
    {
        let mut k = self.variables.len();
        assert(self.variables@.take(k as int) =~= self.variables@);
        while k > 0
            invariant
                k <= self.variables@.len(),
                self.wf(),
                latest_var(self.variables@, name@) == latest_var(self.variables@.take(k as int), name@),
            decreases k,
        {
            let ghost pre = self.variables@.take(k as int);
            k = k - 1;
            assert(pre.drop_last() =~= self.variables@.take(k as int));
            assert(pre.last() == self.variables@[k as int]);
            if same_text(self.variables[k].0.as_str(), name.as_str()) {
                return self.variables[k].1.sat_var;
            }
        }
        None
    }

    /// The variable of the atom `t`: the one it already has, or a fresh one.
    fn fresh_var(&mut self, t: &Term) -> (v: u32)
        requires
            old(self).wf(),
            old(self).next_sat_var < 0x7fff_ffff,
        ensures
            final(self).wf(),
            1 <= v < final(self).next_sat_var,
            old(self).next_sat_var <= final(self).next_sat_var <= old(self).next_sat_var + 1,
            final(self).problem == old(self).problem,
            final(self).theories == old(self).theories,
            final(self).variables == old(self).variables,
            keys_extend(old(self).term_to_var@, final(self).term_to_var@),
            key_var(final(self).term_to_var@, debug_text(t@)) == Some(v),
    {
        let key = term_key(t);
        let mut k: usize = 0;
        while k < self.term_to_var.len()
            invariant
                k <= self.term_to_var@.len(),
                self.wf(),
                self == old(self),
                key@ == debug_text(t@),
                forall|i: int| 0 <= i < k ==> (#[trigger] self.term_to_var@[i]).0@ != key@,
            decreases self.term_to_var@.len() - k,
        {
            if same_text(self.term_to_var[k].0.as_str(), key.as_str()) {
                proof {
                    assert(self.term_to_var@[k as int].0@ == key@);
                    assert(key@ == debug_text(t@));
                    lemma_key_var_found(self.term_to_var@, key@, k as int);
                }
                return self.term_to_var[k].1;
            }
            k = k + 1;
        }
        proof {
            lemma_key_var_none(self.term_to_var@, key@);
        }
        let var = self.next_sat_var;
        self.next_sat_var = self.next_sat_var + 1;
        self.term_to_var.push((key, var));
        self.var_to_term.push((var, t.copy()));
        proof {
            assert(self.term_to_var@.drop_last() =~= old(self).term_to_var@);
            assert forall|i: int| 0 <= i < self.term_to_var@.len() implies 1 <= (#[trigger] self.term_to_var@[i]).1 < self.next_sat_var by {
                if i < old(self).term_to_var@.len() {
                    assert(self.term_to_var@[i] == old(self).term_to_var@[i]);
                }
            }
        }
        var
    }

    /// Take a fresh variable.
    fn new_var(&mut self) -> (v: u32)
        requires
            old(self).wf(),
            old(self).next_sat_var < 0x7fff_ffff,
        ensures
            final(self).wf(),
            v == old(self).next_sat_var,
            final(self).next_sat_var == old(self).next_sat_var + 1,
            final(self).problem == old(self).problem,
            final(self).theories == old(self).theories,
            final(self).variables == old(self).variables,
            final(self).term_to_var == old(self).term_to_var,
    {
        let var = self.next_sat_var;
        self.next_sat_var = self.next_sat_var + 1;
        var
    }
}

/// The literal of variable `v`, positive or negative.
fn var_lit(v: u32, positive: bool) -> (l: Literal)
    requires
        1 <= v < 0x7fff_ffff,
    ensures
        l.var_of() == v,
        l.pos() == positive,
        l == lit_of(v as nat, positive),
{
    if positive {
        Literal::from_dimacs(v as i32)
    } else {
        Literal::from_dimacs(-(v as i32))
    }
}

/// Add the clause `lits` to `formula`.
fn add_lits(formula: &mut Formula, lits: Vec<Literal>, n: Ghost<nat>)
    requires
        vars_below(lits@, n@),
    ensures
        grown_below(*old(formula), *final(formula), n@),
        final(formula).clause_seq().len() == old(formula).clause_seq().len() + 1,
        final(formula).clause_seq().last()@ == lits@,
{
    formula.add_clause(Clause::new(lits));
}

/// Add the four clauses `c0` to `c3`, in that order, to `formula`.
fn add_four(formula: &mut Formula, c0: Vec<Literal>, c1: Vec<Literal>, c2: Vec<Literal>, c3: Vec<Literal>, n: Ghost<nat>)
    requires
        vars_below(c0@, n@),
        vars_below(c1@, n@),
        vars_below(c2@, n@),
        vars_below(c3@, n@),
    ensures
        grown_below(*old(formula), *final(formula), n@),
        final(formula).clause_seq().len() == old(formula).clause_seq().len() + 4,
        ends_with(*final(formula), seq![c0@, c1@, c2@, c3@]),
{
    let ghost f0 = *formula;
    let ghost cs = seq![c0@, c1@, c2@, c3@];
    let ghost g0 = *formula;
    add_lits(formula, c0, n);
    let ghost g1 = *formula;
    add_lits(formula, c1, n);
    let ghost g2 = *formula;
    add_lits(formula, c2, n);
    let ghost g3 = *formula;
    add_lits(formula, c3, n);
    proof {
        lemma_grown_trans(g0, g1, g2, n@, n@);
        lemma_grown_trans(g0, g2, g3, n@, n@);
        lemma_grown_trans(g0, g3, *formula, n@, n@);
        assert(appended(f0, f0, Seq::empty()));
        lemma_append_one(f0, g0, g1, Seq::empty(), cs[0]);
        lemma_append_one(f0, g1, g2, seq![cs[0]], cs[1]);
        lemma_append_one(f0, g2, g3, seq![cs[0], cs[1]], cs[2]);
        lemma_append_one(f0, g3, *formula, seq![cs[0], cs[1], cs[2]], cs[3]);
        assert(seq![cs[0], cs[1], cs[2]].push(cs[3]) =~= cs);
        assert(seq![cs[0], cs[1]].push(cs[2]) =~= seq![cs[0], cs[1], cs[2]]);
        assert(seq![cs[0]].push(cs[1]) =~= seq![cs[0], cs[1]]);
        assert(Seq::<Seq<Literal>>::empty().push(cs[0]) =~= seq![cs[0]]);
        assert(ends_with(*formula, cs)) by {
            assert forall|i: int| 0 <= i < cs.len() implies
                (#[trigger] formula.clause_seq()[formula.clause_seq().len() - cs.len() + i])@ == cs[i] by {
                assert(formula.clause_seq()[f0.clause_seq().len() + i]@ == cs[i]);
            }
        }
    }
}

/// `grown_below` composes, and a larger bound keeps it.
proof fn lemma_grown_trans(f0: Formula, f1: Formula, f2: Formula, n1: nat, n2: nat)
    requires
        grown_below(f0, f1, n1),
        grown_below(f1, f2, n2),
        n1 <= n2,
    ensures
        grown_below(f0, f2, n2),
{
    assert forall|k: int| f0.clause_seq().len() <= k < f2.clause_seq().len() implies vars_below(#[trigger] f2.clause_seq()[k]@, n2) by {
        if k < f1.clause_seq().len() {
            assert(f2.clause_seq()[k] == f1.clause_seq()[k]);
            assert(vars_below(f1.clause_seq()[k]@, n1));
        }
    }
}

impl DpllT {
    /// Encode `lits` under a fresh variable `x` with `x <-> (l1 ∨ ... ∨ ln)`; `None` when
    /// there are no literals.
    fn or_encode(&mut self, lits: Vec<Literal>, formula: &mut Formula) -> (r: Option<Literal>)
        requires
            old(self).wf(),
            old(self).next_sat_var < 0x7fff_ffff,
            vars_below(lits@, old(self).next_sat_var as nat),
        ensures
            final(self).wf(),
            old(self).next_var() <= final(self).next_var() <= old(self).next_var() + 1,
            final(self).problem == old(self).problem,
            final(self).theories == old(self).theories,
            final(self).variables == old(self).variables,
            final(self).term_to_var == old(self).term_to_var,
            grown_below(*old(formula), *final(formula), final(self).next_var()),
            r matches Some(l) ==> 1 <= l.var_of() < final(self).next_var(),
            lits@.len() == 0 ==> r is None && *final(formula) == *old(formula) && final(self).next_var() == old(self).next_var(),
            lits@.len() > 0 ==> {
                &&& r == Some(lit_of(old(self).next_var(), true))
                &&& final(self).next_var() == old(self).next_var() + 1
                &&& appended(*old(formula), *final(formula), or_clauses(lit_of(old(self).next_var(), true), lits@))
            },
    {
        if lits.len() == 0 {
            return None;
        }
        let var = self.new_var();
        let n = Ghost(self.next_sat_var as nat);
        let pos = var_lit(var, true);
        let neg = var_lit(var, false);
        assert(neg == negated(pos));
        let mut first: Vec<Literal> = vec![neg];
        let mut k: usize = 0;
        while k < lits.len()
            invariant
                k <= lits@.len(),
                first@ == seq![neg] + lits@.take(k as int),
                vars_below(lits@, n@),
                1 <= var < n@,
                neg.var_of() == var,
                forall|i: int| 0 <= i < first@.len() ==> 1 <= (#[trigger] first@[i]).var_of() < n@,
            decreases lits@.len() - k,
        {
            first.push(lits[k]);
            assert(lits@.take(k + 1) =~= lits@.take(k as int).push(lits@[k as int]));
            k = k + 1;
        }
        assert(lits@.take(k as int) =~= lits@);
        let ghost target = or_clauses(pos, lits@);
        let ghost f0 = *formula;
        add_lits(formula, first, n);
        proof {
            assert(appended(f0, f0, Seq::empty()));
            lemma_append_one(f0, f0, *formula, Seq::empty(), seq![neg] + lits@);
            assert(Seq::<Seq<Literal>>::empty().push(seq![neg] + lits@) =~= target.take(1));
        }
        let mut k: usize = 0;
        while k < lits.len()
            invariant
                k <= lits@.len(),
                vars_below(lits@, n@),
                1 <= var < n@,
                pos.var_of() == var,
                grown_below(f0, *formula, n@),
                target == or_clauses(pos, lits@),
                appended(f0, *formula, target.take(k + 1)),
            decreases lits@.len() - k,
        {
            let l = lits[k];
            let ghost f1 = *formula;
            let c = vec![l.negate(), pos];
            assert(c@ == seq![negated(l), pos]);
            add_lits(formula, c, n);
            proof {
                lemma_grown_trans(f0, f1, *formula, n@, n@);
                lemma_append_one(f0, f1, *formula, target.take(k + 1), seq![negated(l), pos]);
                assert(target.take(k + 1).push(seq![negated(l), pos]) =~= target.take(k + 2));
            }
            k = k + 1;
        }
        assert(target.take(k + 1) =~= target);
        Some(pos)
    }

    /// Encode `lits` under a fresh variable `x` with `x <-> (l1 ∧ ... ∧ ln)`; `None` when
    /// there are no literals.
    fn and_encode(&mut self, lits: Vec<Literal>, formula: &mut Formula) -> (r: Option<Literal>)
        requires
            old(self).wf(),
            old(self).next_sat_var < 0x7fff_ffff,
            vars_below(lits@, old(self).next_sat_var as nat),
        ensures
            final(self).wf(),
            old(self).next_var() <= final(self).next_var() <= old(self).next_var() + 1,
            final(self).problem == old(self).problem,
            final(self).theories == old(self).theories,
            final(self).variables == old(self).variables,
            final(self).term_to_var == old(self).term_to_var,
            grown_below(*old(formula), *final(formula), final(self).next_var()),
            r matches Some(l) ==> 1 <= l.var_of() < final(self).next_var(),
            lits@.len() == 0 ==> r is None && *final(formula) == *old(formula) && final(self).next_var() == old(self).next_var(),
            lits@.len() > 0 ==> {
                &&& r == Some(lit_of(old(self).next_var(), true))
                &&& final(self).next_var() == old(self).next_var() + 1
                &&& appended(*old(formula), *final(formula), and_clauses(lit_of(old(self).next_var(), true), lits@))
            },
    {
        if lits.len() == 0 {
            return None;
        }
        let var = self.new_var();
        let n = Ghost(self.next_sat_var as nat);
        let pos = var_lit(var, true);
        let neg = var_lit(var, false);
        assert(neg == negated(pos));
        let ghost target = and_clauses(pos, lits@);
        let ghost f0 = *formula;
        assert(target.take(0) =~= Seq::<Seq<Literal>>::empty());
        let mut k: usize = 0;
        while k < lits.len()
            invariant
                k <= lits@.len(),
                vars_below(lits@, n@),
                1 <= var < n@,
                neg.var_of() == var,
                neg == negated(pos),
                grown_below(f0, *formula, n@),
                target == and_clauses(pos, lits@),
                appended(f0, *formula, target.take(k as int)),
            decreases lits@.len() - k,
        {
            let l = lits[k];
            let ghost f1 = *formula;
            let c = vec![neg, l];
            assert(c@ == seq![negated(pos), l]);
            add_lits(formula, c, n);
            proof {
                lemma_grown_trans(f0, f1, *formula, n@, n@);
                lemma_append_one(f0, f1, *formula, target.take(k as int), seq![negated(pos), l]);
                assert(target.take(k as int).push(seq![negated(pos), l]) =~= target.take(k + 1));
            }
            k = k + 1;
        }
        let mut last: Vec<Literal> = Vec::new();
        let mut k: usize = 0;
        while k < lits.len()
            invariant
                k <= lits@.len(),
                last@ == lits@.take(k as int).map_values(|l: Literal| negated(l)),
                vars_below(lits@, n@),
                forall|i: int| 0 <= i < last@.len() ==> 1 <= (#[trigger] last@[i]).var_of() < n@,
            decreases lits@.len() - k,
        {
            let nl = lits[k].negate();
            last.push(nl);
            assert(lits@.take(k + 1).map_values(|l: Literal| negated(l)) =~= lits@.take(k as int).map_values(|l: Literal| negated(l)).push(nl));
            k = k + 1;
        }
        assert(lits@.take(k as int) =~= lits@);
        last.push(pos);
        let ghost f1 = *formula;
        let ghost lastv = last@;
        add_lits(formula, last, n);
        proof {
            lemma_grown_trans(f0, f1, *formula, n@, n@);
            lemma_append_one(f0, f1, *formula, target.take(lits@.len() as int), lastv);
            assert(target.take(lits@.len() as int).push(lastv) =~= target);
        }
        Some(pos)
    }

    /// Encode each of `args` in turn, keeping the literals they give.
    fn encode_all(&mut self, args: &Vec<Term>, formula: &mut Formula) -> (lits: Vec<Literal>)
        requires
            old(self).wf(),
            old(self).next_sat_var + cnf_sizes(term_models(args@)) < 0x7fff_ffff,
        ensures
            final(self).wf(),
            old(self).next_var() <= final(self).next_var() <= old(self).next_var() + cnf_sizes(term_models(args@)),
            final(self).problem == old(self).problem,
            final(self).theories == old(self).theories,
            final(self).variables == old(self).variables,
            grown_below(*old(formula), *final(formula), final(self).next_var()),
            vars_below(lits@, final(self).next_var()),
            lits@.len() == gives_count(term_models(args@)),
            final(formula).clause_seq().len() == old(formula).clause_seq().len() + clauses_sum(term_models(args@)),
            keys_extend(old(self).term_to_var@, final(self).term_to_var@),
            forall|i: int| 0 <= i < args@.len() ==> keyed(#[trigger] term_models(args@)[i], final(self).variables@, final(self).term_to_var@),
            (forall|i: int| 0 <= i < args@.len() ==> encodable(#[trigger] term_models(args@)[i]))
                ==> encodes_all(*final(formula), old(formula).clause_seq().len() as int, lits@, term_models(args@), final(self).variables@, final(self).term_to_var@),
        decreases args, 0int,
    {
        let ghost ms = term_models(args@);
        let ghost n0 = self.next_sat_var as nat;
        let ghost f0 = *formula;
        proof {
            lemma_term_models(args@);
            assert(cnf_sizes(ms.take(0)) == 0);
            assert(gives_count(ms.take(0)) == 0);
            assert(clauses_sum(ms.take(0)) == 0);
        }
        let mut lits: Vec<Literal> = Vec::new();
        let mut k: usize = 0;
        while k < args.len()
            invariant
                k <= args@.len(),
                ms == term_models(args@),
                ms.len() == args@.len(),
                forall|i: int| 0 <= i < args@.len() ==> #[trigger] ms[i] == args@[i]@,
                n0 + cnf_sizes(ms) < 0x7fff_ffff,
                self.wf(),
                n0 <= self.next_sat_var <= n0 + cnf_sizes(ms.take(k as int)),
                self.problem == old(self).problem,
                self.theories == old(self).theories,
                self.variables == old(self).variables,
                grown_below(f0, *formula, self.next_sat_var as nat),
                vars_below(lits@, self.next_sat_var as nat),
                lits@.len() == gives_count(ms.take(k as int)),
                formula.clause_seq().len() == f0.clause_seq().len() + clauses_sum(ms.take(k as int)),
                keys_extend(old(self).term_to_var@, self.term_to_var@),
                forall|i: int| 0 <= i < k ==> keyed(#[trigger] ms[i], self.variables@, self.term_to_var@),
                (forall|i: int| 0 <= i < args@.len() ==> encodable(#[trigger] ms[i]))
                    ==> encodes_all(*formula, f0.clause_seq().len() as int, lits@, ms.take(k as int), self.variables@, self.term_to_var@),
            decreases args@.len() - k,
        {
            proof {
                lemma_cnf_sizes_take(ms, k as int);
                lemma_counts_take(ms, k as int);
            }
            assert(decreases_to!(args => args@[k as int]));
            let ghost f1 = *formula;
            let ghost before = lits@;
            let ghost k1 = self.term_to_var@;
            let r = self.term_to_cnf(&args[k], formula);
            proof {
                lemma_grown_trans(f0, f1, *formula, self.next_sat_var as nat, self.next_sat_var as nat);
                assert(keeps(f1, *formula));
                assert forall|i: int| 0 <= i < k implies keyed(#[trigger] ms[i], self.variables@, self.term_to_var@) by {
                    lemma_value_extend(ms[i], |x: nat| true, self.variables@, k1, self.term_to_var@);
                }
                assert(ms.take(k + 1) =~= ms.take(k as int).push(ms[k as int]));
                if forall|i: int| 0 <= i < args@.len() ==> encodable(#[trigger] ms[i]) {
                    assert(encodable(ms[k as int]));
                    assert forall|i: int| 0 <= i < k implies keyed(#[trigger] ms.take(k as int)[i], self.variables@, k1) by {
                        assert(ms.take(k as int)[i] == ms[i]);
                    }
                    lemma_encodes_all_push(f1, *formula, f0.clause_seq().len() as int, before, ms.take(k as int), r->Some_0, ms[k as int],
                        self.variables@, k1, self.term_to_var@);
                }
            }
            if let Some(l) = r {
                lits.push(l);
            }
            k = k + 1;
        }
        proof {
            assert(ms.take(k as int) =~= ms);
        }
        lits
    }

    /// Encode the `Implies` term `t`.
    fn encode_implies(&mut self, t: &Term, formula: &mut Formula) -> (r: Option<Literal>)
        requires
            old(self).wf(),
            old(self).next_sat_var + cnf_size(t@) < 0x7fff_ffff,
            t is Implies,
        ensures
            final(self).wf(),
            old(self).next_var() <= final(self).next_var() <= old(self).next_var() + cnf_size(t@),
            final(self).problem == old(self).problem,
            final(self).theories == old(self).theories,
            final(self).variables == old(self).variables,
            grown_below(*old(formula), *final(formula), final(self).next_var()),
            r matches Some(l) ==> 1 <= l.var_of() < final(self).next_var(),
            r is Some <==> gives(t@),
            final(formula).clause_seq().len() == old(formula).clause_seq().len() + cnf_clauses(t@),
            r matches Some(x) ==> x == lit_of((final(self).next_var() - 1) as nat, true)
                && exists|lits: Seq<Literal>| 1 <= lits.len() <= 2 && #[trigger] ends_with(*final(formula), or_clauses(x, lits)),
            keys_extend(old(self).term_to_var@, final(self).term_to_var@),
            keyed(t@, final(self).variables@, final(self).term_to_var@),
            encodable(t@) ==> (r matches Some(l) && encodes(*final(formula), old(formula).clause_seq().len() as int, l, t@, final(self).variables@, final(self).term_to_var@)),
        decreases t, 0int,
    {
        match t {
            Term::Implies(a, b) => {
            proof {
                lemma_cnf_sizes_short(seq![(**a)@, (**b)@]);
                lemma_counts_short(seq![(**a)@, (**b)@]);
            }
            let la = self.term_to_cnf(a, formula);
            let ghost f1 = *formula;
            let ghost n1 = self.next_sat_var as nat;
            let ghost k1 = self.term_to_var@;
            let lb = self.term_to_cnf(b, formula);
            proof {
                lemma_grown_trans(*old(formula), f1, *formula, n1, self.next_sat_var as nat);
            }
            let mut lits: Vec<Literal> = Vec::new();
            if let Some(l) = la {
                lits.push(l.negate());
            }
            if let Some(l) = lb {
                lits.push(l);
            }
            let ghost f2 = *formula;
            let ghost n2 = self.next_sat_var as nat;
            let ghost lv = lits@;
            let r = self.or_encode(lits, formula);
            proof {
                lemma_grown_trans(*old(formula), f2, *formula, n2, self.next_sat_var as nat);
                if lv.len() > 0 {
                    let x = lit_of(n2, true);
                    assert(ends_with(*formula, or_clauses(x, lv))) by {
                        assert forall|i: int| 0 <= i < or_clauses(x, lv).len() implies
                            (#[trigger] formula.clause_seq()[formula.clause_seq().len() - or_clauses(x, lv).len() + i])@ == or_clauses(x, lv)[i] by {
                            assert(formula.clause_seq()[f2.clause_seq().len() + i]@ == or_clauses(x, lv)[i]);
                        }
                    }
                }
                let vs = self.variables@;
                let ks = self.term_to_var@;
                lemma_value_extend((**a)@, |x: nat| true, vs, k1, ks);
                if encodable(t@) {
                    lemma_encodable_gives((**a)@);
                    lemma_encodable_gives((**b)@);
                    let s0 = old(formula).clause_seq().len() as int;
                    let l1 = la->Some_0;
                    let l2 = lb->Some_0;
                    assert(keeps(f1, *formula));
                    assert(keeps(f2, *formula));
                    lemma_encodes_later(f1, *formula, s0, s0, l1, (**a)@, vs, k1, ks);
                    lemma_encodes_later(f2, *formula, f1.clause_seq().len() as int, s0, l2, (**b)@, vs, ks, ks);
                    lemma_implies_encodes(f2, *formula, s0, lit_of(n2, true), l1, l2, lv, (**a)@, (**b)@, vs, ks);
                }
            }
            r
            },
            _ => None,
        }
    }

    /// Encode the `Xor` term `t`.
    #[verifier::spinoff_prover]
    #[verifier::rlimit(80)]
    fn encode_xor(&mut self, t: &Term, formula: &mut Formula) -> (r: Option<Literal>)
        requires
            old(self).wf(),
            old(self).next_sat_var + cnf_size(t@) < 0x7fff_ffff,
            t is Xor,
        ensures
            final(self).wf(),
            old(self).next_var() <= final(self).next_var() <= old(self).next_var() + cnf_size(t@),
            final(self).problem == old(self).problem,
            final(self).theories == old(self).theories,
            final(self).variables == old(self).variables,
            grown_below(*old(formula), *final(formula), final(self).next_var()),
            r matches Some(l) ==> 1 <= l.var_of() < final(self).next_var(),
            r is Some <==> gives(t@),
            final(formula).clause_seq().len() == old(formula).clause_seq().len() + cnf_clauses(t@),
            r matches Some(x) ==> x == lit_of((final(self).next_var() - 1) as nat, true)
                && exists|a: Literal, b: Literal| #[trigger] ends_with(*final(formula), xor_clauses(x, a, b)),
            keys_extend(old(self).term_to_var@, final(self).term_to_var@),
            keyed(t@, final(self).variables@, final(self).term_to_var@),
            encodable(t@) ==> (r matches Some(l) && encodes(*final(formula), old(formula).clause_seq().len() as int, l, t@, final(self).variables@, final(self).term_to_var@)),
        decreases t, 0int,
    {
        match t {
            Term::Xor(a, b) => {
            proof {
                lemma_cnf_sizes_short(seq![(**a)@, (**b)@]);
                lemma_counts_short(seq![(**a)@, (**b)@]);
            }
            let la = self.term_to_cnf(a, formula);
            let ghost f1 = *formula;
            let ghost n1 = self.next_sat_var as nat;
            let ghost k1 = self.term_to_var@;
            let lb = self.term_to_cnf(b, formula);
            proof {
                lemma_grown_trans(*old(formula), f1, *formula, n1, self.next_sat_var as nat);
            }
            match (la, lb) {
                (Some(la), Some(lb)) => {
                    let x = self.new_var();
                    let n = Ghost(self.next_sat_var as nat);
                    let lx = var_lit(x, true);
                    let ghost f2 = *formula;
                    let ghost cs = xor_clauses(lx, la, lb);
                    let c0 = vec![lx.negate(), la, lb];
                    let c1 = vec![lx.negate(), la.negate(), lb.negate()];
                    let c2 = vec![lx, la, lb.negate()];
                    let c3 = vec![lx, la.negate(), lb];
                    assert(c0@ == cs[0] && c1@ == cs[1] && c2@ == cs[2] && c3@ == cs[3]);
                    add_four(formula, c0, c1, c2, c3, n);
                    proof {
                        lemma_grown_trans(*old(formula), f2, *formula, n@, n@);
                        assert(seq![cs[0], cs[1], cs[2], cs[3]] =~= cs);
                        assert(ends_with(*formula, cs));
                        assert(keeps(f1, *formula));
                        assert(keeps(f2, *formula));
                        let s0 = old(formula).clause_seq().len() as int;
                        let vs = self.variables@;
                        let ks = self.term_to_var@;
                        lemma_value_extend((**a)@, |x: nat| true, vs, k1, ks);
                        if encodable(t@) {
                            lemma_encodes_later(f1, *formula, s0, s0, la, (**a)@, vs, k1, ks);
                            lemma_encodes_later(f2, *formula, f1.clause_seq().len() as int, s0, lb, (**b)@, vs, ks, ks);
                            lemma_xor_encodes(*formula, s0, lx, la, lb, (**a)@, (**b)@, vs, ks);
                        }
                    }
                    Some(lx)
                },
                _ => {
                    proof {
                        lemma_value_extend((**a)@, |x: nat| true, self.variables@, k1, self.term_to_var@);
                        if encodable(t@) {
                            lemma_encodable_gives((**a)@);
                            lemma_encodable_gives((**b)@);
                        }
                    }
                    None
                },
            }
            },
            _ => None,
        }
    }

    /// Encode the `Ite` term `t`.
    #[verifier::spinoff_prover]
    #[verifier::rlimit(80)]
    fn encode_ite(&mut self, t: &Term, formula: &mut Formula) -> (r: Option<Literal>)
        requires
            old(self).wf(),
            old(self).next_sat_var + cnf_size(t@) < 0x7fff_ffff,
            t is Ite,
        ensures
            final(self).wf(),
            old(self).next_var() <= final(self).next_var() <= old(self).next_var() + cnf_size(t@),
            final(self).problem == old(self).problem,
            final(self).theories == old(self).theories,
            final(self).variables == old(self).variables,
            grown_below(*old(formula), *final(formula), final(self).next_var()),
            r matches Some(l) ==> 1 <= l.var_of() < final(self).next_var(),
            r is Some <==> gives(t@),
            final(formula).clause_seq().len() == old(formula).clause_seq().len() + cnf_clauses(t@),
            r matches Some(x) ==> x == lit_of((final(self).next_var() - 1) as nat, true)
                && exists|c: Literal, a: Literal, b: Literal| #[trigger] ends_with(*final(formula), ite_clauses(x, c, a, b)),
            keys_extend(old(self).term_to_var@, final(self).term_to_var@),
            keyed(t@, final(self).variables@, final(self).term_to_var@),
            encodable(t@) ==> (r matches Some(l) && encodes(*final(formula), old(formula).clause_seq().len() as int, l, t@, final(self).variables@, final(self).term_to_var@)),
        decreases t, 0int,
    {
        match t {
            Term::Ite(c, th, el) => {
            let ghost tc = (**c)@;
            let ghost tt = (**th)@;
            let ghost te = (**el)@;
            proof {
                lemma_cnf_sizes_short(seq![tc, tt, te]);
                lemma_counts_short(seq![tc, tt, te]);
            }
            let lc = self.term_to_cnf(c, formula);
            let ghost f1 = *formula;
            let ghost n1 = self.next_sat_var as nat;
            let ghost k1 = self.term_to_var@;
            let lt = self.term_to_cnf(th, formula);
            proof {
                lemma_grown_trans(*old(formula), f1, *formula, n1, self.next_sat_var as nat);
            }
            let ghost f2 = *formula;
            let ghost n2 = self.next_sat_var as nat;
            let ghost k2 = self.term_to_var@;
            let le = self.term_to_cnf(el, formula);
            proof {
                lemma_grown_trans(*old(formula), f2, *formula, n2, self.next_sat_var as nat);
            }
            match (lc, lt, le) {
                (Some(c), Some(t1), Some(e)) => {
                    let x = self.new_var();
                    let n = Ghost(self.next_sat_var as nat);
                    let lx = var_lit(x, true);
                    let ghost f3 = *formula;
                    let ghost cs = ite_clauses(lx, c, t1, e);
                    let c0 = vec![lx.negate(), c.negate(), t1];
                    let c1 = vec![lx.negate(), c, e];
                    let c2 = vec![c.negate(), t1.negate(), lx];
                    let c3 = vec![c, e.negate(), lx];
                    assert(c0@ == cs[0] && c1@ == cs[1] && c2@ == cs[2] && c3@ == cs[3]);
                    add_four(formula, c0, c1, c2, c3, n);
                    proof {
                        lemma_grown_trans(*old(formula), f3, *formula, n@, n@);
                        assert(seq![cs[0], cs[1], cs[2], cs[3]] =~= cs);
                        assert(ends_with(*formula, cs));
                        assert(keeps(f1, *formula));
                        assert(keeps(f2, *formula));
                        assert(keeps(f3, *formula));
                        let s0 = old(formula).clause_seq().len() as int;
                        let vs = self.variables@;
                        let ks = self.term_to_var@;
                        lemma_value_extend(tc, |x: nat| true, vs, k1, ks);
                        lemma_value_extend(tt, |x: nat| true, vs, k2, ks);
                        if encodable(t@) {
                            lemma_encodes_later(f1, *formula, s0, s0, c, tc, vs, k1, ks);
                            lemma_encodes_later(f2, *formula, f1.clause_seq().len() as int, s0, t1, tt, vs, k2, ks);
                            lemma_encodes_later(f3, *formula, f2.clause_seq().len() as int, s0, e, te, vs, ks, ks);
                            lemma_ite_encodes(*formula, s0, lx, c, t1, e, tc, tt, te, vs, ks);
                        }
                    }
                    Some(lx)
                },
                _ => {
                    proof {
                        lemma_value_extend(tc, |x: nat| true, self.variables@, k1, self.term_to_var@);
                        lemma_value_extend(tt, |x: nat| true, self.variables@, k2, self.term_to_var@);
                        if encodable(t@) {
                            lemma_encodable_gives(tc);
                            lemma_encodable_gives(tt);
                            lemma_encodable_gives(te);
                        }
                    }
                    None
                },
            }
            },
            _ => None,
        }
    }

    /// Encode an atom: the positive literal of its variable.
    fn encode_atom(&mut self, t: &Term, formula: &mut Formula) -> (r: Option<Literal>)
        requires
            old(self).wf(),
            old(self).next_sat_var + cnf_size(t@) < 0x7fff_ffff,
            !(t is True) && !(t is False) && !(t is Not) && !(t is And) && !(t is Or) && !(t is Implies) && !(t is Xor) && !(t is Ite),
        ensures
            final(self).wf(),
            old(self).next_var() <= final(self).next_var() <= old(self).next_var() + cnf_size(t@),
            final(self).problem == old(self).problem,
            final(self).theories == old(self).theories,
            final(self).variables == old(self).variables,
            grown_below(*old(formula), *final(formula), final(self).next_var()),
            r matches Some(l) ==> 1 <= l.var_of() < final(self).next_var(),
            r is Some <==> gives(t@),
            final(formula).clause_seq().len() == old(formula).clause_seq().len() + cnf_clauses(t@),
            keys_extend(old(self).term_to_var@, final(self).term_to_var@),
            keyed(t@, final(self).variables@, final(self).term_to_var@),
            encodable(t@) ==> (r matches Some(l) && encodes(*final(formula), old(formula).clause_seq().len() as int, l, t@, final(self).variables@, final(self).term_to_var@)),
    {
        let ghost s0 = old(formula).clause_seq().len() as int;
        match t {
            Term::Var(name) => {
                match self.declared_var(name) {
                    Some(v) => {
                        let r = var_lit(v, true);
                        proof {
                            assert(atom_var(self.variables@, self.term_to_var@, t@) == Some(v));
                            lemma_atom_encodes(*formula, s0, r, t@, self.variables@, self.term_to_var@);
                        }
                        Some(r)
                    },
                    None => {
                        let v = self.fresh_var(t);
                        let r = var_lit(v, true);
                        proof {
                            assert(atom_var(self.variables@, self.term_to_var@, t@) == Some(v));
                            lemma_atom_encodes(*formula, s0, r, t@, self.variables@, self.term_to_var@);
                        }
                        Some(r)
                    },
                }
            },
            _ => {
                let v = self.fresh_var(t);
                let r = var_lit(v, true);
                proof {
                    assert(atom_var(self.variables@, self.term_to_var@, t@) == Some(v));
                    lemma_atom_encodes(*formula, s0, r, t@, self.variables@, self.term_to_var@);
                }
                Some(r)
            },
        }
    }

    /// Encode the `Not` term `t`: the complement of its operand's literal.
    fn encode_not(&mut self, t: &Term, formula: &mut Formula) -> (r: Option<Literal>)
        requires
            old(self).wf(),
            old(self).next_sat_var + cnf_size(t@) < 0x7fff_ffff,
            t is Not,
        ensures
            final(self).wf(),
            old(self).next_var() <= final(self).next_var() <= old(self).next_var() + cnf_size(t@),
            final(self).problem == old(self).problem,
            final(self).theories == old(self).theories,
            final(self).variables == old(self).variables,
            grown_below(*old(formula), *final(formula), final(self).next_var()),
            r matches Some(l) ==> 1 <= l.var_of() < final(self).next_var(),
            r is Some <==> gives(t@),
            final(formula).clause_seq().len() == old(formula).clause_seq().len() + cnf_clauses(t@),
            keys_extend(old(self).term_to_var@, final(self).term_to_var@),
            keyed(t@, final(self).variables@, final(self).term_to_var@),
            encodable(t@) ==> (r matches Some(l) && encodes(*final(formula), old(formula).clause_seq().len() as int, l, t@, final(self).variables@, final(self).term_to_var@)),
        decreases t, 0int,
    {
        let ghost s0 = old(formula).clause_seq().len() as int;
        match t {
            Term::Not(a) => {
                proof {
                    lemma_cnf_sizes_short(seq![(**a)@]);
                    lemma_counts_short(seq![(**a)@]);
                    assert(seq![(**a)@][0] == (**a)@);
                }
                match self.term_to_cnf(a, formula) {
                    Some(l) => {
                        let r = l.negate();
                        proof {
                            if encodable(t@) {
                                assert(encodable((**a)@));
                                lemma_not_encodes(*formula, s0, l, r, (**a)@, self.variables@, self.term_to_var@);
                            }
                        }
                        Some(r)
                    },
                    None => {
                        proof {
                            if encodable(t@) {
                                assert(encodable((**a)@));
                            }
                        }
                        None
                    },
                }
            },
            _ => None,
        }
    }

    /// Encode the `And` term `t`.
    fn encode_and(&mut self, t: &Term, formula: &mut Formula) -> (r: Option<Literal>)
        requires
            old(self).wf(),
            old(self).next_sat_var + cnf_size(t@) < 0x7fff_ffff,
            t is And,
        ensures
            final(self).wf(),
            old(self).next_var() <= final(self).next_var() <= old(self).next_var() + cnf_size(t@),
            final(self).problem == old(self).problem,
            final(self).theories == old(self).theories,
            final(self).variables == old(self).variables,
            grown_below(*old(formula), *final(formula), final(self).next_var()),
            r matches Some(l) ==> 1 <= l.var_of() < final(self).next_var(),
            r is Some <==> gives(t@),
            final(formula).clause_seq().len() == old(formula).clause_seq().len() + cnf_clauses(t@),
            keys_extend(old(self).term_to_var@, final(self).term_to_var@),
            keyed(t@, final(self).variables@, final(self).term_to_var@),
            encodable(t@) ==> (r matches Some(l) && encodes(*final(formula), old(formula).clause_seq().len() as int, l, t@, final(self).variables@, final(self).term_to_var@)),
        decreases t, 0int,
    {
        let ghost s0 = old(formula).clause_seq().len() as int;
        match t {
            Term::And(args) => {
                let ghost ms = term_models(args@);
                let lits = self.encode_all(args, formula);
                let ghost f1 = *formula;
                let ghost n1 = self.next_sat_var as nat;
                let ghost lv = lits@;
                let r = self.and_encode(lits, formula);
                proof {
                    lemma_grown_trans(*old(formula), f1, *formula, n1, self.next_sat_var as nat);
                    lemma_term_models(args@);
                    if encodable(t@) {
                        let vs = self.variables@;
                        let ks = self.term_to_var@;
                        let x = r->Some_0;
                        assert(forall|i: int| 0 <= i < args@.len() ==> encodable(#[trigger] ms[i]));
                        lemma_and_encodes(f1, *formula, s0, x, lv, ms, vs, ks);
                    }
                }
                r
            },
            _ => None,
        }
    }

    /// Encode the `Or` term `t`.
    fn encode_or(&mut self, t: &Term, formula: &mut Formula) -> (r: Option<Literal>)
        requires
            old(self).wf(),
            old(self).next_sat_var + cnf_size(t@) < 0x7fff_ffff,
            t is Or,
        ensures
            final(self).wf(),
            old(self).next_var() <= final(self).next_var() <= old(self).next_var() + cnf_size(t@),
            final(self).problem == old(self).problem,
            final(self).theories == old(self).theories,
            final(self).variables == old(self).variables,
            grown_below(*old(formula), *final(formula), final(self).next_var()),
            r matches Some(l) ==> 1 <= l.var_of() < final(self).next_var(),
            r is Some <==> gives(t@),
            final(formula).clause_seq().len() == old(formula).clause_seq().len() + cnf_clauses(t@),
            keys_extend(old(self).term_to_var@, final(self).term_to_var@),
            keyed(t@, final(self).variables@, final(self).term_to_var@),
            encodable(t@) ==> (r matches Some(l) && encodes(*final(formula), old(formula).clause_seq().len() as int, l, t@, final(self).variables@, final(self).term_to_var@)),
        decreases t, 0int,
    {
        let ghost s0 = old(formula).clause_seq().len() as int;
        match t {
            Term::Or(args) => {
                let ghost ms = term_models(args@);
                let lits = self.encode_all(args, formula);
                let ghost f1 = *formula;
                let ghost n1 = self.next_sat_var as nat;
                let ghost lv = lits@;
                let r = self.or_encode(lits, formula);
                proof {
                    lemma_grown_trans(*old(formula), f1, *formula, n1, self.next_sat_var as nat);
                    lemma_term_models(args@);
                    if encodable(t@) {
                        let vs = self.variables@;
                        let ks = self.term_to_var@;
                        let x = r->Some_0;
                        assert(forall|i: int| 0 <= i < args@.len() ==> encodable(#[trigger] ms[i]));
                        lemma_or_encodes(f1, *formula, s0, x, lv, ms, vs, ks);
                    }
                }
                r
            },
            _ => None,
        }
    }

    /// Encode the Boolean term `t` into `formula` by the Tseitin encoding: the literal
    /// that stands for `t`, or `None` where `t` gives none (`true`; `false`, which adds the
    /// empty clause; and connectives whose operands give none). Atoms (non-Boolean
    /// symbols, equalities, comparisons and other theory terms) get a variable each,
    /// the same one for the same term.
    fn term_to_cnf(&mut self, t: &Term, formula: &mut Formula) -> (r: Option<Literal>)
        requires
            old(self).wf(),
            old(self).next_sat_var + cnf_size(t@) < 0x7fff_ffff,
        ensures
            final(self).wf(),
            old(self).next_var() <= final(self).next_var() <= old(self).next_var() + cnf_size(t@),
            final(self).spec_problem() == old(self).spec_problem(),
            final(self).num_theories() == old(self).num_theories(),
            final(self).variables == old(self).variables,
            final(self).theories == old(self).theories,
            grown_below(*old(formula), *final(formula), final(self).next_var()),
            r matches Some(l) ==> 1 <= l.var_of() < final(self).next_var(),
            t@ is True ==> r is None && *final(formula) == *old(formula),
            t@ is False ==> r is None && final(formula).clause_seq().len() == old(formula).clause_seq().len() + 1
                && final(formula).clause_seq().last()@.len() == 0,
            r is Some <==> gives(t@),
            final(formula).clause_seq().len() == old(formula).clause_seq().len() + cnf_clauses(t@),
            keys_extend(old(self).term_to_var@, final(self).term_to_var@),
            keyed(t@, final(self).variables@, final(self).term_to_var@),
            encodable(t@) ==> (r matches Some(l) && encodes(*final(formula), old(formula).clause_seq().len() as int, l, t@, final(self).variables@, final(self).term_to_var@)),
        decreases t, 1int,
    {
        match t {
            Term::True => None,
            Term::False => {
                let n = Ghost(self.next_sat_var as nat);
                add_lits(formula, Vec::new(), n);
                None
            },
            Term::Not(..) => self.encode_not(t, formula),
            Term::And(..) => self.encode_and(t, formula),
            Term::Or(..) => self.encode_or(t, formula),
            Term::Implies(..) => self.encode_implies(t, formula),
            Term::Xor(..) => self.encode_xor(t, formula),
            Term::Ite(..) => self.encode_ite(t, formula),
            _ => self.encode_atom(t, formula),
        }
    }
}

/// The literals a model asserts to the theories, at level 0: variable `i + 1` true or
/// false as `m[i]`.
pub open spec fn model_literals(m: Seq<bool>) -> Seq<(Literal, u32)> {
    Seq::new(m.len(), |i: int| (lit_of((i + 1) as nat, m[i]), 0u32))
}

/// Whether some clause of `f` is empty.
pub open spec fn has_empty_clause(f: Formula) -> bool {
    exists|j: int| 0 <= j < f.clause_seq().len() && (#[trigger] f.clause_seq()[j])@.len() == 0
}

/// An empty clause of `f0` stays in `f`, which extends it.
proof fn lemma_empty_kept(f0: Formula, f: Formula, n: nat)
    requires
        grown_below(f0, f, n),
    ensures
        has_empty_clause(f0) ==> has_empty_clause(f),
{
    if has_empty_clause(f0) {
    let j = choose|j: int| 0 <= j < f0.clause_seq().len() && (#[trigger] f0.clause_seq()[j])@.len() == 0;
    assert(f.clause_seq()[j] == f0.clause_seq()[j]);
    }
}

/// How many variables the declarations and assertions of `p` may take at most.
pub open spec fn encoding_budget(p: SmtProblem) -> nat {
    p.declarations@.len() + cnf_sizes(term_models(p.assertions@))
}

/// `n`, or `cap` when `n` is larger.
pub open spec fn capped(n: nat, cap: u64) -> nat {
    if n < cap { n } else { cap as nat }
}

/// `capped(1 + n, cap)` from `s == capped(n, cap)`.
fn capped_succ(s: u64, cap: u64) -> (r: u64)
    requires
        s <= cap,
    ensures
        forall|n: nat| s == #[trigger] capped(n, cap) ==> r == capped(1 + n, cap),
{
    if s >= cap { cap } else { s + 1 }
}

/// `capped(a + b, cap)` from `x == capped(a, cap)` and `y == capped(b, cap)`.
fn capped_add(x: u64, y: u64, cap: u64) -> (r: u64)
    requires
        x <= cap,
        y <= cap,
    ensures
        forall|a: nat, b: nat| x == #[trigger] capped(a, cap) && y == #[trigger] capped(b, cap) ==> r == capped(a + b, cap),
{
    if x >= cap - y { cap } else { x + y }
}

/// `capped(cnf_size(term_model(t)), cap)`.
#[verifier::spinoff_prover]
#[verifier::rlimit(100)]
fn capped_cnf_size(t: &Term, cap: u64) -> (r: u64)
    ensures
        r == capped(cnf_size(term_model(*t)), cap),
    decreases t,
{
    match t {
        Term::Not(a) => {
            let x = capped_cnf_size(a, cap);
            proof {
                lemma_cnf_sizes_short(seq![term_model(**a)]);
            }
            capped_succ(x, cap)
        },
        Term::And(args) => {
            let x = capped_cnf_sizes(args, cap);
            capped_succ(x, cap)
        },
        Term::Or(args) => {
            let x = capped_cnf_sizes(args, cap);
            capped_succ(x, cap)
        },
        Term::Xor(a, b) => {
            let x = capped_cnf_size(a, cap);
            let y = capped_cnf_size(b, cap);
            proof {
                lemma_cnf_sizes_short(seq![term_model(**a), term_model(**b)]);
            }
            capped_succ(capped_add(x, y, cap), cap)
        },
        Term::Implies(a, b) => {
            let x = capped_cnf_size(a, cap);
            let y = capped_cnf_size(b, cap);
            proof {
                lemma_cnf_sizes_short(seq![term_model(**a), term_model(**b)]);
            }
            capped_succ(capped_add(x, y, cap), cap)
        },
        Term::Ite(a, b, c) => {
            let x = capped_cnf_size(a, cap);
            let y = capped_cnf_size(b, cap);
            let z = capped_cnf_size(c, cap);
            proof {
                lemma_cnf_sizes_short(seq![term_model(**a), term_model(**b), term_model(**c)]);
            }
            capped_succ(capped_add(capped_add(x, y, cap), z, cap), cap)
        },
        _ => {
            if cap == 0 { 0 } else { 1 }
        },
    }
}

/// `capped(cnf_sizes(term_models(ts)), cap)`.
fn capped_cnf_sizes(ts: &Vec<Term>, cap: u64) -> (r: u64)
    ensures
        r == capped(cnf_sizes(term_models(ts@)), cap),
    decreases ts,
{
    let ghost ms = term_models(ts@);
    proof {
        lemma_term_models(ts@);
        assert(ms.take(0) =~= Seq::<TermModel>::empty());
    }
    let mut acc: u64 = 0;
    let mut k: usize = 0;
    while k < ts.len()
        invariant
            k <= ts@.len(),
            ms == term_models(ts@),
            ms.len() == ts@.len(),
            forall|i: int| 0 <= i < ts@.len() ==> #[trigger] ms[i] == term_model(ts@[i]),
            acc == capped(cnf_sizes(ms.take(k as int)), cap),
        decreases ts@.len() - k,
    {
        assert(decreases_to!(ts => ts@[k as int]));
        let x = capped_cnf_size(&ts[k], cap);
        proof {
            lemma_cnf_sizes_take(ms, k as int);
        }
        acc = capped_add(acc, x, cap);
        k = k + 1;
    }
    assert(ms.take(k as int) =~= ms);
    acc
}

impl DpllT {
    /// Record the declared symbols; a Boolean constant gets a SAT variable.
    fn register_declarations(&mut self)
        requires
            old(self).wf(),
            old(self).next_sat_var + old(self).problem.declarations@.len() < 0x7fff_ffff,
        ensures
            final(self).wf(),
            old(self).next_sat_var <= final(self).next_sat_var <= old(self).next_sat_var + old(self).problem.declarations@.len(),
            final(self).next_sat_var == old(self).next_sat_var + bool_consts(old(self).problem.declarations@),
            forall|k: int| 0 <= k < old(self).problem.declarations@.len()
                ==> has_entry(final(self).variables@, (#[trigger] old(self).problem.declarations@[k]).name@),
            forall|i: int| 0 <= i < old(self).variables@.len()
                ==> has_entry(final(self).variables@, (#[trigger] old(self).variables@[i]).0@),
            final(self).variables@.len() <= old(self).variables@.len() + old(self).problem.declarations@.len(),
            final(self).problem == old(self).problem,
            final(self).theories == old(self).theories,
    {
        let n = self.problem.declarations.len();
        let mut k: usize = 0;
        while k < n
            invariant
                n == self.problem.declarations@.len(),
                k <= n,
                self.wf(),
                self.problem == old(self).problem,
                self.theories == old(self).theories,
                old(self).next_sat_var <= self.next_sat_var <= old(self).next_sat_var + k,
                old(self).next_sat_var + n < 0x7fff_ffff,
                self.next_sat_var == old(self).next_sat_var + bool_consts(self.problem.declarations@.take(k as int)),
                forall|q: int| 0 <= q < k ==> has_entry(self.variables@, (#[trigger] self.problem.declarations@[q]).name@),
                forall|i: int| 0 <= i < old(self).variables@.len() ==> has_entry(self.variables@, (#[trigger] old(self).variables@[i]).0@),
                self.variables@.len() <= old(self).variables@.len() + k,
            decreases n - k,
        {
            assert(self.problem.declarations@.take(k + 1).drop_last() =~= self.problem.declarations@.take(k as int));
            let ghost vars_before = self.variables@;
            let name = self.problem.declarations[k].name.clone();
            let sort = self.problem.declarations[k].return_sort.copy();
            let boolean = self.problem.declarations[k].return_sort.is_bool() && self.problem.declarations[k].params.len() == 0;
            let sat_var = if boolean {
                let v = self.next_sat_var;
                self.next_sat_var = self.next_sat_var + 1;
                Some(v)
            } else {
                None
            };
            let key = name.clone();
            let var = SmtVar { name, sort, sat_var };
            let mut i: usize = 0;
            let mut found = false;
            while i < self.variables.len()
                invariant_except_break
                    !found,
                invariant
                    i <= self.variables@.len(),
                ensures
                    found ==> i < self.variables@.len() && self.variables@[i as int].0@ == key@,
                decreases self.variables@.len() - i,
            {
                if same_text(self.variables[i].0.as_str(), key.as_str()) {
                    found = true;
                    break;
                }
                i = i + 1;
            }
            let ghost vars0 = self.variables@;
            if found && i < self.variables.len() {
                self.variables.set(i, (key, var));
            } else {
                self.variables.push((key, var));
            }
            proof {
                assert forall|j: int| 0 <= j < self.variables@.len() implies
                    ((#[trigger] self.variables@[j]).1.sat_var matches Some(v) ==> 1 <= v < self.next_sat_var) by {
                    if j < vars0.len() && !(found && j == i) {
                        assert(self.variables@[j] == vars0[j]);
                    }
                }
                let entry_at: int = if found && i < vars0.len() { i as int } else { vars0.len() as int };
                assert(self.variables@[entry_at].0@ == self.problem.declarations@[k as int].name@);
                assert forall|nm: Seq<char>| has_entry(vars0, nm) implies has_entry(self.variables@, nm) by {
                    let j = choose|j: int| 0 <= j < vars0.len() && (#[trigger] vars0[j]).0@ == nm;
                    if found && i < vars0.len() && j == i {
                        assert(vars0[j].0@ == key@);
                        assert(self.variables@[j].0@ == key@);
                    } else {
                        assert(self.variables@[j] == vars0[j]);
                    }
                }
                assert forall|q: int| 0 <= q < k + 1 implies has_entry(self.variables@, (#[trigger] self.problem.declarations@[q]).name@) by {
                    if q < k {
                        assert(has_entry(vars0, self.problem.declarations@[q].name@));
                    }
                }
                assert forall|i2: int| 0 <= i2 < old(self).variables@.len() implies has_entry(self.variables@, (#[trigger] old(self).variables@[i2]).0@) by {
                    assert(has_entry(vars0, old(self).variables@[i2].0@));
                }
            }
            k = k + 1;
        }
        assert(self.problem.declarations@.take(n as int) =~= self.problem.declarations@);
    }

    /// Hand the model to the theories and answer: each variable's literal, true or false
    /// as in `model`, is asserted at level 0 in variable order until a solver refuses
    /// one; when none is refused, the theories are checked, and `theory_answer` turns
    /// the outcome into the answer.
    pub fn check_model(&mut self, model: Vec<bool>) -> (r: SolveResult)
        requires
            model@.len() < 0x8000_0000,
        ensures
            r is Sat || r is Unknown,
            r matches SolveResult::Sat(m) ==> m@ == model@,
            old(self).num_theories() == 0 ==> (r matches SolveResult::Sat(m) && m@ == model@),
            exists|k: int| 0 <= k <= model@.len()
                && #[trigger] final(self).theories_asserted() == old(self).theories_asserted() + model_literals(model@).take(k),
            r is Sat ==> final(self).theories_asserted() == old(self).theories_asserted() + model_literals(model@),
            final(self).spec_problem() == old(self).spec_problem(),
            final(self).next_var() == old(self).next_var(),
            final(self).num_theories() == old(self).num_theories(),
            final(self).wf() == old(self).wf(),
    {
        let mut theories = TheoryManager::new();
        std::mem::swap(&mut theories, &mut self.theories);
        let r = Self::check_with(&mut theories, model);
        std::mem::swap(&mut theories, &mut self.theories);
        assert(self.variables@ == old(self).variables@ && self.term_to_var@ == old(self).term_to_var@);
        r
    }

    /// Assert the literals of `model` to `theories` at level 0 and check them.
    fn check_with(theories: &mut TheoryManager, model: Vec<bool>) -> (r: SolveResult)
        requires
            model@.len() < 0x8000_0000,
        ensures
            r is Sat || r is Unknown,
            r matches SolveResult::Sat(m) ==> m@ == model@,
            old(theories).num_solvers() == 0 ==> (r matches SolveResult::Sat(m) && m@ == model@),
            final(theories).num_solvers() == old(theories).num_solvers(),
            exists|k: int| 0 <= k <= model@.len()
                && #[trigger] final(theories).asserted() == old(theories).asserted() + model_literals(model@).take(k),
            r is Sat ==> final(theories).asserted() == old(theories).asserted() + model_literals(model@),
    {
        let n = model.len();
        let ghost a0 = theories.asserted();
        let ghost ml = model_literals(model@);
        proof {
            assert(ml.take(0) =~= Seq::<(Literal, u32)>::empty());
            assert(a0 + ml.take(0) =~= a0);
        }
        let mut k: usize = 0;
        while k < n
            invariant
                n == model@.len(),
                n < 0x8000_0000,
                k <= n,
                ml == model_literals(model@),
                theories.num_solvers() == old(theories).num_solvers(),
                theories.asserted() == a0 + ml.take(k as int),
                a0 == old(theories).asserted(),
            decreases n - k,
        {
            let lit = Literal::new(Variable::from_index(k), model[k]);
            proof {
                assert(lit == lit_of((k + 1) as nat, model@[k as int]));
                assert(ml.take(k + 1) =~= ml.take(k as int).push((lit, 0u32)));
                assert(a0 + ml.take(k + 1) =~= (a0 + ml.take(k as int)).push((lit, 0u32)));
            }
            if theories.assert_literal(lit, 0).is_err() {
                return Self::theory_answer(model, None);
            }
            k = k + 1;
        }
        proof {
            assert(ml.take(n as int) =~= ml);
        }
        let verdict = theories.check();
        Self::theory_answer(model, Some(verdict))
    }

    /// The answer for a model once the theories have seen it: `None` when a solver
    /// refused one of its literals, otherwise the result of their check. The model is
    /// the answer when the theories find it consistent; otherwise the answer is unknown.
    pub fn theory_answer(model: Vec<bool>, verdict: Option<TheoryResult>) -> (r: SolveResult)
        ensures
            verdict matches Some(TheoryResult::Consistent) ==> (r matches SolveResult::Sat(m) && m@ == model@),
            !(verdict matches Some(TheoryResult::Consistent)) ==> r is Unknown,
    {
        match verdict {
            Some(TheoryResult::Consistent) => SolveResult::Sat(model),
            _ => SolveResult::Unknown,
        }
    }

    /// Whether the encoding of the problem fits the SAT variables: the next variable plus
    /// the encoding budget stays below `2^31 - 1`.
    pub fn encoding_fits(&self) -> (b: bool)
        ensures
            b == (self.next_var() + encoding_budget(self.spec_problem()) < 0x7fff_ffff),
    {
        let cap: u64 = 0x7fff_ffff;
        let d = self.problem.declarations.len();
        if d as u64 >= cap {
            return false;
        }
        let sizes = capped_cnf_sizes(&self.problem.assertions, cap);
        (self.next_sat_var as u64) + (d as u64) + sizes < cap
    }

    /// The CNF formula of the problem: the declared symbols are recorded, then each
    /// assertion is encoded and the literal that stands for it is added as a unit clause.
    pub fn build_formula(&mut self) -> (f: Formula)
        requires
            old(self).wf(),
            old(self).next_var() + encoding_budget(old(self).spec_problem()) < 0x7fff_ffff,
        ensures
            final(self).wf(),
            final(self).spec_problem() == old(self).spec_problem(),
            final(self).num_theories() == old(self).num_theories(),
            old(self).next_var() <= final(self).next_var() <= old(self).next_var() + encoding_budget(old(self).spec_problem()),
            forall|k: int| 0 <= k < f.clause_seq().len() ==> vars_below(#[trigger] f.clause_seq()[k]@, final(self).next_var()),
            f.clause_seq().len() == clauses_sum(term_models(old(self).spec_problem().assertions@))
                + gives_count(term_models(old(self).spec_problem().assertions@)),
            (exists|i: int| 0 <= i < old(self).spec_problem().assertions@.len()
                && #[trigger] old(self).spec_problem().assertions@[i]@ == TermModel::False) ==> has_empty_clause(f),
            asserts_all(f, term_models(old(self).spec_problem().assertions@), final(self).declared(), final(self).atom_keys()),
    {
        let mut formula = Formula::new();
        self.register_declarations();
        let ghost ms = term_models(self.problem.assertions@);
        let ghost n0 = self.next_sat_var as nat;
        let ghost f0 = formula;
        proof {
            lemma_term_models(self.problem.assertions@);
            assert(cnf_sizes(ms.take(0)) == 0);
        }
        let n = self.problem.assertions.len();
        let ghost vars0 = self.variables;
        proof {
            assert(ms.take(0) =~= Seq::<TermModel>::empty());
        }
        let mut k: usize = 0;
        while k < n
            invariant
                n == self.problem.assertions@.len(),
                k <= n,
                ms == term_models(self.problem.assertions@),
                ms.len() == n,
                forall|i: int| 0 <= i < n ==> #[trigger] ms[i] == self.problem.assertions@[i]@,
                n0 + cnf_sizes(ms) < 0x7fff_ffff,
                self.wf(),
                n0 <= self.next_sat_var <= n0 + cnf_sizes(ms.take(k as int)),
                self.problem == old(self).problem,
                self.theories == old(self).theories,
                f0.clause_seq().len() == 0,
                grown_below(f0, formula, self.next_sat_var as nat),
                formula.clause_seq().len() == clauses_sum(ms.take(k as int)) + gives_count(ms.take(k as int)),
                (exists|i: int| 0 <= i < k && #[trigger] ms[i] == TermModel::False) ==> has_empty_clause(formula),
                self.variables == vars0,
                forall|i: int| 0 <= i < k ==> keyed(#[trigger] ms.take(k as int)[i], self.variables@, self.term_to_var@),
                asserts_all(formula, ms.take(k as int), self.variables@, self.term_to_var@),
            decreases n - k,
        {
            proof {
                lemma_cnf_sizes_take(ms, k as int);
                lemma_counts_take(ms, k as int);
            }
            let assertion = self.problem.assertions[k].copy();
            let ghost f1 = formula;
            let ghost k1 = self.term_to_var@;
            let r = self.term_to_cnf(&assertion, &mut formula);
            let ghost f2 = formula;
            proof {
                lemma_grown_trans(f0, f1, formula, self.next_sat_var as nat, self.next_sat_var as nat);
                lemma_empty_kept(f1, formula, self.next_sat_var as nat);
                if ms[k as int] == TermModel::False {
                    assert(formula.clause_seq()[formula.clause_seq().len() - 1]@.len() == 0);
                }
            }
            if let Some(lit) = r {
                let ghost f2 = formula;
                add_lits(&mut formula, vec![lit], Ghost(self.next_sat_var as nat));
                proof {
                    lemma_grown_trans(f0, f2, formula, self.next_sat_var as nat, self.next_sat_var as nat);
                    lemma_empty_kept(f2, formula, self.next_sat_var as nat);
                }
            }
            proof {
                let l = if r is Some { r->Some_0 } else { Literal(0) };
                assert(assertion@ == ms[k as int]);
                assert forall|i: int| 0 <= i < k implies keyed(#[trigger] ms.take(k as int)[i], self.variables@, k1) by {}
                if encodable(ms[k as int]) {
                    lemma_encodable_gives(ms[k as int]);
                    assert(formula.clause_seq()[f2.clause_seq().len() as int]@ == seq![l]);
                }
                lemma_asserts_push(f1, f2, formula, ms.take(k as int), ms[k as int], l, self.variables@, k1, self.term_to_var@);
                assert(ms.take(k + 1) =~= ms.take(k as int).push(ms[k as int]));
                assert forall|i: int| 0 <= i < k + 1 implies keyed(#[trigger] ms.take(k + 1)[i], self.variables@, self.term_to_var@) by {
                    if i < k {
                        assert(ms.take(k + 1)[i] == ms.take(k as int)[i]);
                    }
                }
                if exists|i: int| 0 <= i < k + 1 && #[trigger] ms[i] == TermModel::False {
                    let i = choose|i: int| 0 <= i < k + 1 && #[trigger] ms[i] == TermModel::False;
                    if i < k {
                        assert(has_empty_clause(f1));
                    }
                }
            }
            k = k + 1;
        }
        proof {
            assert(ms.take(k as int) =~= ms);
            assert forall|i: int| 0 <= i < old(self).spec_problem().assertions@.len()
                && #[trigger] old(self).spec_problem().assertions@[i]@ == TermModel::False implies has_empty_clause(formula) by {
                assert(ms[i] == TermModel::False);
            }
        }
        formula
    }
}

} // verus!
