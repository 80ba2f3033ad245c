//! The CDCL search, one step at a time: each step propagates and then either
//! learns from a conflict, finishes, or asks for a decision. Choosing the
//! decision literal, and when to restart, is left to the caller.
use vstd::prelude::*;
use crate::assignment::{Assignments, Value, count_assigned, lemma_count_assigned_bound};
use crate::clause::{Clause, ClauseRef};
use crate::formula::Formula;
use crate::literal::Literal;
use crate::trail::Trail;
use crate::watch::{WatchLists, init_watches, lists_for};
use crate::solver::propagate::{propagate, clauses_in_range, watchers_valid, trail_true, grown_by_propagation, reason_ok, reasons_hold};
use crate::solver::conflict::{analyze_conflict, lit_level, ConflictResult};
use crate::solver::learn::{add_learned_clause, LearnStats};

verus! {

/// The outcome of a search.
#[derive(Debug, Clone)]
pub enum SolveResult {
    /// Satisfiable, with the value of each variable.
    Sat(Vec<bool>),
    /// Unsatisfiable.
    Unsat,
    /// Undecided (a resource limit was reached).
    Unknown,
}

/// Counters of the search.
#[derive(Debug, Clone)]
pub struct SolverStats {
    /// Decisions made.
    pub decisions: u64,
    /// Literals propagated.
    pub propagations: u64,
    /// Conflicts met.
    pub conflicts: u64,
    /// Clauses learned.
    pub learned_clauses: u64,
    /// Restarts.
    pub restarts: u64,
    /// Clause database reductions.
    pub reductions: u64,
}

impl Default for SolverStats {
    fn default() -> (s: Self)
        ensures
            s.decisions == 0,
            s.propagations == 0,
            s.conflicts == 0,
            s.learned_clauses == 0,
            s.restarts == 0,
            s.reductions == 0,
    {
        SolverStats { decisions: 0, propagations: 0, conflicts: 0, learned_clauses: 0, restarts: 0, reductions: 0 }
    }
}

/// The literals on the trail have pairwise distinct variables.
pub open spec fn trail_distinct(t: Seq<Literal>) -> bool {
    forall|i: int, j: int| 0 <= i < j < t.len() ==> (#[trigger] t[i]).var_of() != (#[trigger] t[j]).var_of()
}

/// Every assigned variable has a literal on the trail.
pub open spec fn assigned_on_trail(a: Assignments, t: Seq<Literal>) -> bool {
    forall|v: nat| 1 <= v <= a@.len() && !(#[trigger] a.value_of(v) is Unassigned) ==>
        exists|j: int| 0 <= j < t.len() && (#[trigger] t[j]).var_of() == v
}

/// The decision level of each trail literal is the level whose range holds its position.
pub open spec fn levels_match(a: Assignments, t: Trail) -> bool {
    &&& forall|j: int, l: int| #![trigger t.lits()[j], t.starts()[l]] 0 <= j < t.lits().len() && 0 <= l < t.starts().len()
        ==> (lit_level(a, t.lits()[j]) < l <==> j < t.starts()[l])
    &&& forall|j: int| 0 <= j < t.lits().len() ==> lit_level(a, #[trigger] t.lits()[j]) <= t.level()
}

/// Every decision level above 0 holds a literal, and the levels start at increasing positions.
pub open spec fn levels_nonempty(t: Trail) -> bool {
    &&& forall|l: int| 1 <= l < t.starts().len() ==> #[trigger] t.starts()[l] < t.lits().len()
    &&& forall|l: int, m: int| 1 <= l < m < t.starts().len() ==> #[trigger] t.starts()[l] < #[trigger] t.starts()[m]
}

/// A trail whose non-empty levels start at increasing positions has at most as many
/// levels as literals.
proof fn lemma_level_bound(t: Trail)
    requires
        t.wf(),
        levels_nonempty(t),
    ensures
        t.level() <= t.lits().len(),
{
    if t.level() >= 1 {
        lemma_starts_grow(t, t.level());
    }
}

proof fn lemma_starts_grow(t: Trail, l: int)
    requires
        t.wf(),
        levels_nonempty(t),
        1 <= l < t.starts().len(),
    ensures
        t.starts()[l] >= l - 1,
    decreases l,
{
    if l > 1 {
        lemma_starts_grow(t, l - 1);
        assert(t.starts()[l - 1] < t.starts()[l]);
    }
}

/// Literals of pairwise distinct variables among `1..=nv` number at most `nv`.
pub proof fn lemma_distinct_vars_len(t: Seq<Literal>, nv: nat)
    requires
        trail_distinct(t),
        forall|j: int| 0 <= j < t.len() ==> 1 <= (#[trigger] t[j]).var_of() <= nv,
    ensures
        t.len() <= nv,
{
    let s = t.map_values(|l: Literal| l.var_of() as int);
    assert forall|i: int, j: int| 0 <= i < s.len() && 0 <= j < s.len() && i != j implies s[i] != s[j] by {
        if i < j {
            assert(t[i].var_of() != t[j].var_of());
        } else {
            assert(t[j].var_of() != t[i].var_of());
        }
    }
    assert(s.no_duplicates());
    s.unique_seq_to_set();
    vstd::set_lib::lemma_int_range(1, nv as int + 1);
    assert forall|x: int| s.to_set().contains(x) implies vstd::set_lib::set_int_range(1, nv as int + 1).contains(x) by {
        let j = choose|j: int| 0 <= j < s.len() && s[j] == x;
        assert(1 <= t[j].var_of() <= nv);
    }
    vstd::set_lib::lemma_len_subset(s.to_set(), vstd::set_lib::set_int_range(1, nv as int + 1));
}

/// Every literal of `c` is false under `a`.
#[verifier::opaque]
pub open spec fn all_false(a: Assignments, c: Seq<Literal>) -> bool {
    forall|k: int| 0 <= k < c.len() ==> #[trigger] a.lit_value(c[k]) == Value::False
}

/// No literal of `c` other than `l` is of a higher decision level than `l`.
pub open spec fn levels_below(a: Assignments, c: Seq<Literal>, l: Literal) -> bool {
    forall|k: int| 0 <= k < c.len() && c[k] != l ==> #[trigger] lit_level(a, c[k]) <= lit_level(a, l)
}

/// Every literal on the trail `t` that has an antecedent is implied by it: the
/// antecedent is a clause of `f` that holds the literal, whose other literals are false
/// and of no higher decision level.
#[verifier::opaque]
pub open spec fn reasons_ok(a: Assignments, t: Seq<Literal>, f: Seq<Clause>) -> bool {
    forall|j: int| 0 <= j < t.len() ==> (a.antecedent_of((#[trigger] t[j]).var_of()) matches Some(c)
        ==> c < f.len() && reason_ok(a, f[c as int]@, t[j]) && levels_below(a, f[c as int]@, t[j]))
}

/// The reasons stay when the entries of the variables assigned in `a0` are kept and
/// the clauses of `f0` stay at their positions.
proof fn lemma_reasons_frame(a0: Assignments, a: Assignments, t: Seq<Literal>, f0: Seq<Clause>, f: Seq<Clause>)
    requires
        reasons_ok(a0, t, f0),
        a@.len() == a0@.len(),
        forall|i: int| 0 <= i < a0@.len() && !(a0@[i].value is Unassigned) ==> #[trigger] a@[i] == a0@[i],
        forall|j: int| 0 <= j < t.len() ==> 1 <= (#[trigger] t[j]).var_of() <= a0@.len(),
        trail_true(a0, t),
        f0.len() <= f.len(),
        forall|c: int| 0 <= c < f0.len() ==> #[trigger] f[c] == f0[c],
    ensures
        reasons_ok(a, t, f),
{
    reveal(reasons_ok);
    assert forall|j: int| 0 <= j < t.len() implies (a.antecedent_of((#[trigger] t[j]).var_of()) matches Some(c)
        ==> c < f.len() && reason_ok(a, f[c as int]@, t[j]) && levels_below(a, f[c as int]@, t[j])) by {
        let l = t[j];
        assert(a0.lit_value(l) == Value::True);
        assert(a@[l.var_of() - 1] == a0@[l.var_of() - 1]);
        if let Some(c) = a0.antecedent_of(l.var_of()) {
            let cl = f0[c as int]@;
            assert(f[c as int] == f0[c as int]);
            assert forall|k: int| 0 <= k < cl.len() && cl[k] != l implies #[trigger] a.lit_value(cl[k]) == Value::False by {
                assert(a0.lit_value(cl[k]) == Value::False);
                assert(a@[cl[k].var_of() - 1] == a0@[cl[k].var_of() - 1]);
            }
            assert forall|k: int| 0 <= k < cl.len() && cl[k] != l implies #[trigger] lit_level(a, cl[k]) <= lit_level(a, l) by {
                assert(a0.lit_value(cl[k]) == Value::False);
                assert(a@[cl[k].var_of() - 1] == a0@[cl[k].var_of() - 1]);
                assert(lit_level(a0, cl[k]) <= lit_level(a0, l));
            }
        }
    }
}

/// A literal pushed with a reason that holds, or with none, keeps the reasons.
proof fn lemma_reasons_push(a: Assignments, t: Seq<Literal>, lit: Literal, f: Seq<Clause>)
    requires
        reasons_ok(a, t, f),
        a.antecedent_of(lit.var_of()) matches Some(c) ==> c < f.len() && reason_ok(a, f[c as int]@, lit) && levels_below(a, f[c as int]@, lit),
    ensures
        reasons_ok(a, t.push(lit), f),
{
    reveal(reasons_ok);
    assert forall|j: int| 0 <= j < t.push(lit).len() implies (a.antecedent_of((#[trigger] t.push(lit)[j]).var_of()) matches Some(c)
        ==> c < f.len() && reason_ok(a, f[c as int]@, t.push(lit)[j]) && levels_below(a, f[c as int]@, t.push(lit)[j])) by {
        if j < t.len() {
            assert(t.push(lit)[j] == t[j]);
        }
    }
}

/// Assigning an unassigned variable and pushing its literal keeps the reasons, when the
/// literal has no antecedent or one that holds.
proof fn lemma_reasons_extend(a0: Assignments, t0: Seq<Literal>, a: Assignments, lit: Literal, f: Seq<Clause>)
    requires
        reasons_ok(a0, t0, f),
        1 <= lit.var_of() <= a0@.len(),
        a0.value_of(lit.var_of()) is Unassigned,
        a@.len() == a0@.len(),
        a@ == a0@.update(lit.var_of() - 1, a@[lit.var_of() - 1]),
        forall|j: int| 0 <= j < t0.len() ==> 1 <= (#[trigger] t0[j]).var_of() <= a0@.len(),
        trail_true(a0, t0),
        a.antecedent_of(lit.var_of()) matches Some(c) ==> c < f.len() && reason_ok(a, f[c as int]@, lit) && levels_below(a, f[c as int]@, lit),
    ensures
        reasons_ok(a, t0.push(lit), f),
{
    assert forall|i: int| 0 <= i < a0@.len() && !(a0@[i].value is Unassigned) implies #[trigger] a@[i] == a0@[i] by {
        if i == lit.var_of() - 1 {
            assert(a0.value_of(lit.var_of()) == a0@[i].value);
        }
    }
    lemma_reasons_frame(a0, a, t0, f, f);
    lemma_reasons_push(a, t0, lit, f);
}

/// Propagation keeps the reasons: those of the old trail, and those it records for the
/// literals it adds.
proof fn lemma_propagate_reasons(a0: Assignments, t0: Trail, a: Assignments, t: Trail, f: Seq<Clause>)
    requires
        grown_by_propagation(a0, t0, a, t, f, t0.level() as u32),
        0 <= t0.level() <= u32::MAX,
        reasons_ok(a0, t0.lits(), f),
        reasons_hold(a, t.lits(), t0.lits().len() as int, f),
        forall|j: int| 0 <= j < t0.lits().len() ==> 1 <= (#[trigger] t0.lits()[j]).var_of() <= a0@.len(),
        forall|j: int| 0 <= j < t.lits().len() ==> 1 <= (#[trigger] t.lits()[j]).var_of() <= a@.len(),
        trail_true(a0, t0.lits()),
        assigned_on_trail(a, t.lits()),
        levels_match(a, t),
    ensures
        reasons_ok(a, t.lits(), f),
{
    reveal(reasons_ok);
    lemma_reasons_frame(a0, a, t0.lits(), f, f);
    assert(t.level() == t0.level());
    assert forall|j: int| 0 <= j < t.lits().len() implies (a.antecedent_of((#[trigger] t.lits()[j]).var_of()) matches Some(c)
        ==> c < f.len() && reason_ok(a, f[c as int]@, t.lits()[j]) && levels_below(a, f[c as int]@, t.lits()[j])) by {
        let l = t.lits()[j];
        if j < t0.lits().len() {
            assert(t.lits().subrange(0, t0.lits().len() as int)[j] == t0.lits()[j]);
            assert(l == t0.lits()[j]);
        } else {
            if let Some(c) = a.antecedent_of(l.var_of()) {
                let cl = f[c as int]@;
                assert(a.level_of(l.var_of()) == t0.level());
                assert forall|k: int| 0 <= k < cl.len() && cl[k] != l implies #[trigger] lit_level(a, cl[k]) <= lit_level(a, l) by {
                    assert(a.lit_value(cl[k]) == Value::False);
                    let v = cl[k].var_of();
                    assert(!(a.value_of(v) is Unassigned));
                    let jj = choose|jj: int| 0 <= jj < t.lits().len() && (#[trigger] t.lits()[jj]).var_of() == v;
                    assert(lit_level(a, t.lits()[jj]) <= t.level());
                }
            }
        }
    }
}

/// Whether some clause of `f` is empty.
pub open spec fn has_empty(f: Seq<Clause>) -> bool {
    exists|i: int| 0 <= i < f.len() && (#[trigger] f[i])@.len() == 0
}

/// Whether clauses `c` and `d` of `f` are unit clauses on the same variable with
/// opposite signs.
pub open spec fn unit_clash(f: Seq<Clause>, c: int, d: int) -> bool {
    &&& 0 <= c < f.len()
    &&& 0 <= d < f.len()
    &&& f[c]@.len() == 1
    &&& f[d]@.len() == 1
    &&& f[c]@[0].var_of() == f[d]@[0].var_of()
    &&& f[c]@[0].pos() != f[d]@[0].pos()
}

/// Whether two unit clauses of `f` contradict each other.
pub open spec fn units_conflict(f: Seq<Clause>) -> bool {
    exists|c: int, d: int| #[trigger] unit_clash(f, c, d)
}

/// Some literal of `c` is true under the model `m`, which gives variable `v` the value
/// `m[v - 1]`.
pub open spec fn model_satisfies_clause(m: Seq<bool>, c: Seq<Literal>) -> bool {
    exists|k: int| 0 <= k < c.len() && m[(#[trigger] c[k]).var_of() - 1] == c[k].pos()
}

/// Every clause of `f` has a literal true under the model `m`.
pub open spec fn model_satisfies(m: Seq<bool>, f: Seq<Clause>) -> bool {
    forall|c: int| 0 <= c < f.len() ==> model_satisfies_clause(m, #[trigger] f[c]@)
}

/// Some literal of `c` is true under `a`.
pub open spec fn has_true_lit(a: Assignments, c: Seq<Literal>) -> bool {
    exists|k: int| 0 <= k < c.len() && #[trigger] a.lit_value(c[k]) == Value::True
}

/// The first clause of `formula` with no true literal under `assignments`, if any.
fn unsatisfied_clause(formula: &Formula, assignments: &Assignments) -> (r: Option<usize>)
    ensures
        r is None ==> forall|c: int| 0 <= c < formula.clause_seq().len() ==>
            has_true_lit(*assignments, #[trigger] formula.clause_seq()[c]@),
        r matches Some(c) ==> c < formula.clause_seq().len()
            && forall|k: int| 0 <= k < formula.clause_seq()[c as int]@.len()
                ==> #[trigger] assignments.lit_value(formula.clause_seq()[c as int]@[k]) != Value::True,
{
    let cs = formula.clauses();
    let n = cs.len();
    let mut c: usize = 0;
    while c < n
        invariant
            n == cs@.len(),
            cs@ == formula.clause_seq(),
            c <= n,
            forall|d: int| 0 <= d < c ==> has_true_lit(*assignments, #[trigger] formula.clause_seq()[d]@),
        decreases n - c,
    {
        let lits = cs[c].literals();
        let mut k: usize = 0;
        while k < lits.len()
            invariant
                lits@ == formula.clause_seq()[c as int]@,
                k <= lits@.len(),
                forall|q: int| 0 <= q < k ==> #[trigger] assignments.lit_value(lits@[q]) != Value::True,
            ensures
                k <= lits@.len(),
                forall|q: int| 0 <= q < k ==> #[trigger] assignments.lit_value(lits@[q]) != Value::True,
                k < lits@.len() ==> assignments.lit_value(lits@[k as int]) == Value::True,
            decreases lits@.len() - k,
        {
            if assignments.is_satisfied(lits[k]) {
                break;
            }
            k = k + 1;
        }
        if k == lits.len() {
            return Some(c);
        }
        proof {
            assert(assignments.lit_value(formula.clause_seq()[c as int]@[k as int]) == Value::True);
            assert(has_true_lit(*assignments, formula.clause_seq()[c as int]@));
        }
        c = c + 1;
    }
    None
}

/// The search state: the formula with its learned clauses, the assignment, the trail,
/// the watch lists, the saved phases and the counters.
pub struct SearchState {
    /// The formula, learned clauses included.
    pub formula: Formula,
    /// The assignment.
    pub assignments: Assignments,
    /// The trail.
    pub trail: Trail,
    /// The watch lists.
    pub watches: WatchLists,
    /// The last polarity of each variable.
    pub phases: Vec<bool>,
    /// Statistics of learned clauses.
    pub learn_stats: LearnStats,
    /// Search counters.
    pub stats: SolverStats,
}

impl SearchState {
    /// The number of variables.
    pub open spec fn nv(&self) -> nat {
        self.assignments@.len()
    }

    /// The search invariant.
    pub open spec fn search_ok(&self) -> bool {
        &&& self.nv() == self.formula.spec_num_vars()
        &&& self.nv() < 0x7fff_ffff
        &&& lists_for(self.nv()) <= usize::MAX
        &&& self.assignments.wf()
        &&& clauses_in_range(self.formula.clause_seq(), self.nv())
        &&& watchers_valid(self.watches, self.formula.clause_seq())
        &&& self.trail.wf()
        &&& forall|j: int| 0 <= j < self.trail.lits().len() ==> 1 <= (#[trigger] self.trail.lits()[j]).var_of() <= self.nv()
        &&& trail_true(self.assignments, self.trail.lits())
        &&& trail_distinct(self.trail.lits())
        &&& assigned_on_trail(self.assignments, self.trail.lits())
        &&& levels_match(self.assignments, self.trail)
        &&& forall|v: nat| #[trigger] self.assignments.antecedent_of(v) matches Some(c) ==> c < self.formula.clause_seq().len()
        &&& self.phases@.len() == self.nv()
        &&& forall|i: int| 0 <= i < self.nv() && (#[trigger] self.assignments@[i]).value is Unassigned ==> self.assignments@[i].level == 0
        &&& levels_nonempty(self.trail)
        &&& reasons_ok(self.assignments, self.trail.lits(), self.formula.clause_seq())
    }

    /// A search over `formula`, with nothing assigned.
    pub fn new(formula: Formula) -> (s: Self)
        requires
            formula.spec_num_vars() < 0x7fff_ffff,
            lists_for(formula.spec_num_vars() as nat) <= usize::MAX,
            clauses_in_range(formula.clause_seq(), formula.spec_num_vars() as nat),
        ensures
            s.search_ok(),
            s.formula.clause_seq() == formula.clause_seq(),
            s.formula.spec_num_original() == formula.clause_seq().len(),
            s.trail.lits().len() == 0,
            s.assignments.order_count() == 0,
            s.stats.decisions == 0 && s.stats.conflicts == 0 && s.stats.propagations == 0,
    {
        let mut formula = formula;
        let num_vars = formula.num_vars();
        let mut watches = WatchLists::new(num_vars);
        proof {
            assert forall|c: int, k: int| 0 <= c < formula.clause_seq().len() && 0 <= k < formula.clause_seq()[c]@.len()
                implies lists_for(#[trigger] formula.clause_seq()[c]@[k].var_of()) <= usize::MAX by {
                assert(formula.clause_seq()[c]@[k].var_of() <= num_vars);
            }
        }
        proof {
            assert forall|i: int, q: int| 0 <= i < watches.num_lists() && 0 <= q < watches.list_at(i).len() implies {
                &&& (#[trigger] watches.list_at(i)[q]).clause < formula.clause_seq().len()
                &&& formula.clause_seq()[watches.list_at(i)[q].clause as int]@.len() >= 2
            } by {
                assert(watches.all_lists().len() == watches.num_lists());
                assert(watches.all_lists()[i] == watches.list_at(i));
                assert(watches.all_lists()[i] == Seq::<crate::watch::Watcher>::empty());
            }
        }
        init_watches(&mut watches, formula.clauses());
        formula.mark_original_end();
        let assignments = Assignments::new(num_vars);
        let mut phases: Vec<bool> = Vec::new();
        let mut k: u32 = 0;
        while k < num_vars
            invariant
                k <= num_vars,
                phases@.len() == k,
            decreases num_vars - k,
        {
            phases.push(true);
            k = k + 1;
        }
        let s = SearchState {
            formula,
            assignments,
            trail: Trail::new(),
            watches,
            phases,
            learn_stats: LearnStats::default(),
            stats: SolverStats::default(),
        };
        proof {
            reveal(reasons_ok);
            let f = s.formula.clause_seq();
            assert forall|v: nat| 1 <= v <= s.assignments@.len() && !(#[trigger] s.assignments.value_of(v) is Unassigned) implies
                exists|j: int| 0 <= j < s.trail.lits().len() && (#[trigger] s.trail.lits()[j]).var_of() == v by {
                assert(s.assignments@[v - 1] == crate::assignment::AssignmentInfo::unassigned_spec());
            }
            assert forall|i: int| 0 <= i < s.nv() && (#[trigger] s.assignments@[i]).value is Unassigned implies s.assignments@[i].level == 0 by {
                assert(s.assignments@[i] == crate::assignment::AssignmentInfo::unassigned_spec());
            }
            assert forall|v: nat| (#[trigger] s.assignments.antecedent_of(v)) is Some implies s.assignments.antecedent_of(v)->0 < f.len() by {
                if 1 <= v <= s.assignments@.len() {
                    assert(s.assignments@[v - 1] == crate::assignment::AssignmentInfo::unassigned_spec());
                }
            }
        }
        s
    }

    /// Undo every decision level above `level`: the trail keeps its first literals and
    /// the variables of the dropped ones become unassigned.
    pub fn backtrack(&mut self, level: u32)
        requires
            old(self).search_ok(),
        ensures
            final(self).search_ok(),
            final(self).formula == old(self).formula,
            final(self).watches == old(self).watches,
            final(self).phases == old(self).phases,
            final(self).stats == old(self).stats,
            final(self).learn_stats == old(self).learn_stats,
            final(self).assignments.order_count() == old(self).assignments.order_count(),
            final(self).trail.level() == if level < old(self).trail.level() { level as int } else { old(self).trail.level() },
            final(self).trail.lits().len() <= old(self).trail.lits().len(),
            final(self).trail.head() <= final(self).trail.lits().len(),
            forall|v: nat| 1 <= v <= old(self).nv() && !(old(self).assignments.value_of(v) is Unassigned) && old(self).assignments.level_of(v) > level
                ==> #[trigger] final(self).assignments.value_of(v) is Unassigned,
            forall|v: nat| 1 <= v <= old(self).nv() && old(self).assignments.level_of(v) <= level
                ==> #[trigger] final(self).assignments.value_of(v) == old(self).assignments.value_of(v),
            forall|v: nat| 1 <= v <= old(self).nv() && old(self).assignments.level_of(v) <= level
                ==> #[trigger] final(self).assignments@[v - 1] == old(self).assignments@[v - 1],
    {
        let ghost a0 = self.assignments;
        let ghost t0 = self.trail;
        let unassigned = self.trail.backtrack_to(level);
        let ghost t1 = self.trail;
        let ghost start: int = if level < t0.level() { t0.starts()[level + 1] as int } else { t0.lits().len() as int };
        proof {
            if level >= t0.level() {
                assert(unassigned@ =~= t0.lits().subrange(start, t0.lits().len() as int).reverse());
            }
        }
        let n = unassigned.len();
        let mut k: usize = 0;
        while k < n
            invariant
                n == unassigned@.len(),
                k <= n,
                unassigned@ == t0.lits().subrange(start, t0.lits().len() as int).reverse(),
                0 <= start <= t0.lits().len(),
                self.trail == t1,
                self.formula == old(self).formula,
                self.watches == old(self).watches,
                self.phases == old(self).phases,
                self.stats == old(self).stats,
                self.learn_stats == old(self).learn_stats,
                self.assignments.wf(),
                self.assignments@.len() == a0@.len(),
                self.assignments.order_count() == a0.order_count(),
                forall|j: int| 0 <= j < t0.lits().len() ==> 1 <= (#[trigger] t0.lits()[j]).var_of() <= a0@.len(),
                forall|i: int| 0 <= i < a0@.len() ==> #[trigger] self.assignments@[i] == if exists|q: int| 0 <= q < k && unassigned@[q].var_of() - 1 == i {
                    crate::assignment::AssignmentInfo::unassigned_spec()
                } else {
                    a0@[i]
                },
            decreases n - k,
        {
            let ghost before = self.assignments;
            let lit = unassigned[k];
            proof {
                assert(lit == t0.lits()[t0.lits().len() - 1 - k]);
            }
            self.assignments.unassign(lit.variable());
            proof {
                assert forall|i: int| 0 <= i < a0@.len() implies #[trigger] self.assignments@[i] == if exists|q: int| 0 <= q < k + 1 && unassigned@[q].var_of() - 1 == i {
                    crate::assignment::AssignmentInfo::unassigned_spec()
                } else {
                    a0@[i]
                } by {
                    if i == lit.var_of() - 1 {
                        assert(unassigned@[k as int].var_of() - 1 == i);
                    } else {
                        assert(self.assignments@[i] == before@[i]);
                        if exists|q: int| 0 <= q < k + 1 && unassigned@[q].var_of() - 1 == i {
                            let q = choose|q: int| 0 <= q < k + 1 && unassigned@[q].var_of() - 1 == i;
                            assert(q < k);
                        }
                    }
                }
            }
            k = k + 1;
        }
        proof {
            lemma_after_backtrack(a0, t0, self.assignments, self.trail, level, start, unassigned@, self.formula.clause_seq());
            lemma_backtrack_reasons(a0, t0, self.assignments, self.trail, level, start, unassigned@, self.formula.clause_seq());
            let t = self.trail;
            if level < t0.level() {
                assert forall|l: int| 1 <= l < t.starts().len() implies #[trigger] t.starts()[l] < t.lits().len() by {
                    assert(t.starts()[l] == t0.starts()[l]);
                    assert(t0.starts()[l] < t0.starts()[level + 1]);
                }
                assert forall|l: int, m: int| 1 <= l < m < t.starts().len() implies #[trigger] t.starts()[l] < #[trigger] t.starts()[m] by {
                    assert(t.starts()[l] == t0.starts()[l]);
                    assert(t.starts()[m] == t0.starts()[m]);
                }
            }
            assert forall|i: int| 0 <= i < self.nv() && (#[trigger] self.assignments@[i]).value is Unassigned implies self.assignments@[i].level == 0 by {
                if !(exists|q: int| 0 <= q < n && unassigned@[q].var_of() - 1 == i) {
                    assert(self.assignments@[i] == a0@[i]);
                }
            }
        }
    }
}

/// What one step of the search produced.
#[derive(Debug)]
pub enum Step {
    /// Propagation is complete and some variable is unassigned: a decision is needed.
    Decide,
    /// A conflict was analysed; its clause was learned and its asserting literal assigned.
    Learned(ConflictResult),
    /// The search is over.
    Finished(SolveResult),
}

impl SearchState {
    /// The counters and the assignment order have room for one more step.
    pub open spec fn step_room(&self) -> bool {
        &&& self.assignments.order_count() + self.nv() + 1 < u32::MAX
        &&& self.stats.propagations + self.nv() <= u64::MAX
        &&& self.stats.conflicts < u64::MAX
        &&& self.stats.learned_clauses < u64::MAX
        &&& self.learn_stats.total_learned < u64::MAX
        &&& self.learn_stats.total_literals + self.nv() <= u64::MAX
        &&& self.learn_stats.sum_lbd + u32::MAX <= u64::MAX
    }

    /// Open a new decision level and assign `lit` true there.
    pub fn decide(&mut self, lit: Literal)
        requires
            old(self).search_ok(),
            1 <= lit.var_of() <= old(self).nv(),
            old(self).assignments.value_of(lit.var_of()) is Unassigned,
            old(self).assignments.order_count() < u32::MAX,
            old(self).stats.decisions < u64::MAX,
        ensures
            final(self).search_ok(),
            final(self).trail.level() == old(self).trail.level() + 1,
            final(self).trail.lits() == old(self).trail.lits().push(lit),
            final(self).assignments.lit_value(lit) == Value::True,
            final(self).assignments.antecedent_of(lit.var_of()) is None,
            final(self).formula == old(self).formula,
            final(self).stats.decisions == old(self).stats.decisions + 1,
            final(self).assignments.order_count() == old(self).assignments.order_count() + 1,
    {
        proof {
            lemma_distinct_vars_len(self.trail.lits(), self.nv());
            lemma_level_bound(self.trail);
        }
        self.stats.decisions = self.stats.decisions + 1;
        let _len = self.trail.len();
        let ghost a0 = self.assignments;
        let ghost t0 = self.trail;
        self.trail.new_level();
        let var = lit.variable();
        let level = self.trail.current_level();
        self.assignments.assign(var, lit.is_positive(), level, None);
        self.trail.push_propagation(lit);
        let idx = var.to_index();
        if idx < self.phases.len() {
            self.phases.set(idx, lit.is_positive());
        }
        proof {
            assert(self.assignments@ =~= a0@.update(lit.var_of() - 1, self.assignments@[lit.var_of() - 1]));
            lemma_extend_trail(a0, t0, self.assignments, self.trail, lit, self.formula.clause_seq());
            lemma_reasons_extend(a0, t0.lits(), self.assignments, lit, self.formula.clause_seq());
        }
    }

    /// One step of the search: propagate; on a conflict at level 0, or when the analysis
    /// learns the empty clause, the formula is unsatisfiable; on another conflict, learn
    /// the analysed clause, backtrack and assign its asserting literal; without conflict,
    /// ask for a decision while some variable is unassigned. Once every variable is
    /// assigned, a clause without a true literal is a conflict like any other; when there
    /// is none, the search finishes with the model, which satisfies every clause.
    #[verifier::spinoff_prover]
    #[verifier::rlimit(100)]
    pub fn step(&mut self) -> (r: Step)
        requires
            old(self).search_ok(),
            old(self).step_room(),
        ensures
            final(self).search_ok(),
            final(self).nv() == old(self).nv(),
            final(self).formula.clause_seq().len() >= old(self).formula.clause_seq().len(),
            forall|c: int| 0 <= c < old(self).formula.clause_seq().len() ==> #[trigger] final(self).formula.clause_seq()[c] == old(self).formula.clause_seq()[c],
            final(self).assignments.order_count() <= old(self).assignments.order_count() + old(self).nv() + 1,
            final(self).stats.propagations <= old(self).stats.propagations + old(self).nv(),
            final(self).stats.conflicts <= old(self).stats.conflicts + 1,
            final(self).stats.learned_clauses <= old(self).stats.learned_clauses + 1,
            final(self).stats.decisions == old(self).stats.decisions,
            final(self).stats.restarts == old(self).stats.restarts,
            final(self).learn_stats.total_learned <= old(self).learn_stats.total_learned + 1,
            final(self).learn_stats.total_literals <= old(self).learn_stats.total_literals + old(self).nv(),
            final(self).learn_stats.sum_lbd <= old(self).learn_stats.sum_lbd + u32::MAX,
            r is Decide ==> {
                &&& final(self).trail.head() == final(self).trail.lits().len()
                &&& exists|i: int| 0 <= i < final(self).nv() && (#[trigger] final(self).assignments@[i]).value is Unassigned
            },
            r matches Step::Finished(SolveResult::Sat(m)) ==> {
                &&& final(self).trail.head() == final(self).trail.lits().len()
                &&& forall|i: int| 0 <= i < final(self).nv() ==> !((#[trigger] final(self).assignments@[i]).value is Unassigned)
                &&& m@.len() == final(self).nv()
                &&& forall|i: int| 0 <= i < final(self).nv() ==> #[trigger] m@[i] == (final(self).assignments@[i].value == Value::True)
                &&& model_satisfies(m@, final(self).formula.clause_seq())
            },
            r matches Step::Finished(res) ==> !(res is Unknown),
            r matches Step::Learned(c) ==> {
                &&& c.learned_clause@.len() > 0
                &&& final(self).formula.clause_seq().len() == old(self).formula.clause_seq().len() + 1
                &&& final(self).formula.clause_seq().last()@ == c.learned_clause@
                &&& final(self).formula.clause_seq().last().spec_learned()
                &&& final(self).formula.clause_seq().last().spec_lbd() == c.lbd
                &&& final(self).trail.level() == c.backtrack_level
                &&& c.backtrack_level < old(self).trail.level()
            },
    {
        let level = self.trail.current_level();
        let conflict = self.propagate_all();
        let conflict_clause = match conflict {
            Some(c) => c,
            None => {
                match self.complete_or_conflict() {
                    Ok(c) => c,
                    Err(r) => return r,
                }
            },
        };
        self.stats.conflicts = self.stats.conflicts + 1;
        if level == 0 {
            return Step::Finished(SolveResult::Unsat);
        }
        self.learn_from_conflict(conflict_clause, level)
    }

    /// Propagate every literal of the trail not yet propagated; returns the clause of a
    /// conflict, all of whose literals are false, if one arises.
    #[verifier::spinoff_prover]
    fn propagate_all(&mut self) -> (conflict: Option<ClauseRef>)
        requires
            old(self).search_ok(),
            old(self).step_room(),
        ensures
            final(self).search_ok(),
            final(self).nv() == old(self).nv(),
            final(self).formula == old(self).formula,
            final(self).phases == old(self).phases,
            final(self).learn_stats == old(self).learn_stats,
            final(self).stats.decisions == old(self).stats.decisions,
            final(self).stats.conflicts == old(self).stats.conflicts,
            final(self).stats.learned_clauses == old(self).stats.learned_clauses,
            final(self).stats.restarts == old(self).stats.restarts,
            final(self).stats.propagations <= old(self).stats.propagations + old(self).nv(),
            final(self).assignments.order_count() <= old(self).assignments.order_count() + old(self).nv(),
            final(self).trail.level() == old(self).trail.level(),
            conflict is None ==> final(self).trail.head() == final(self).trail.lits().len(),
            conflict matches Some(c) ==> c < final(self).formula.clause_seq().len()
                && all_false(final(self).assignments, final(self).formula.clause_seq()[c as int]@),
    {
        let ghost a0 = self.assignments;
        let ghost t0 = self.trail;
        let ghost f0 = self.formula.clause_seq();
        let conflict = propagate(&self.formula, &mut self.assignments, &mut self.trail, &mut self.watches, &mut self.stats.propagations);
        proof {
            lemma_after_propagate(a0, t0, self.assignments, self.trail, f0);
            lemma_propagate_reasons(a0, t0, self.assignments, self.trail, f0);
            lemma_distinct_vars_len(self.trail.lits(), self.nv());
            assert(t0.lits().len() <= self.trail.lits().len());
            if let Some(c) = conflict {
                assert(all_false(self.assignments, self.formula.clause_seq()[c as int]@)) by {
                    reveal(all_false);
                }
            }
        }
        conflict
    }

    /// With propagation done: ask for a decision while a variable is unassigned; else
    /// the first clause without a true literal, all of whose literals are then false, or
    /// the model when there is none.
    fn complete_or_conflict(&self) -> (r: Result<ClauseRef, Step>)
        requires
            self.search_ok(),
        ensures
            r matches Ok(c) ==> c < self.formula.clause_seq().len() && all_false(self.assignments, self.formula.clause_seq()[c as int]@),
            r matches Err(s) ==> s is Decide || s matches Step::Finished(SolveResult::Sat(_)),
            r matches Err(Step::Decide) ==> exists|i: int| 0 <= i < self.nv() && (#[trigger] self.assignments@[i]).value is Unassigned,
            r matches Err(Step::Finished(SolveResult::Sat(m))) ==> {
                &&& forall|i: int| 0 <= i < self.nv() ==> !((#[trigger] self.assignments@[i]).value is Unassigned)
                &&& m@.len() == self.nv()
                &&& forall|i: int| 0 <= i < self.nv() ==> #[trigger] m@[i] == (self.assignments@[i].value == Value::True)
                &&& model_satisfies(m@, self.formula.clause_seq())
            },
    {
        if !self.assignments.all_assigned() {
            return Err(Step::Decide);
        }
        match unsatisfied_clause(&self.formula, &self.assignments) {
            None => {
                let model = self.assignments.model();
                proof {
                    lemma_model_satisfies(self.assignments, model@, self.formula.clause_seq());
                }
                Err(Step::Finished(SolveResult::Sat(model)))
            },
            Some(c) => {
                proof {
                    lemma_all_assigned_false(self.assignments, self.formula.clause_seq()[c as int]@);
                    assert(all_false(self.assignments, self.formula.clause_seq()[c as int]@)) by {
                        reveal(all_false);
                    }
                }
                Ok(c)
            },
        }
    }

    /// A variable of decision level `level > 0` is assigned, so it is on the trail.
    proof fn lemma_level_vars_on_trail(&self, level: u32)
        requires
            self.search_ok(),
            level > 0,
        ensures
            forall|v: nat| 1 <= v <= self.assignments@.len() && #[trigger] self.assignments.level_of(v) == level
                ==> exists|j: int| 0 <= j < self.trail.lits().len() && (#[trigger] self.trail.lits()[j]).var_of() == v,
    {
        assert forall|v: nat| 1 <= v <= self.assignments@.len() && #[trigger] self.assignments.level_of(v) == level
            implies exists|j: int| 0 <= j < self.trail.lits().len() && (#[trigger] self.trail.lits()[j]).var_of() == v by {
            let i = v - 1;
            if self.assignments@[i].value is Unassigned {
                assert(self.assignments@[i].level == 0);
            }
            assert(!(self.assignments.value_of(v) is Unassigned));
        }
    }

    /// Analyse the conflict of `conflict_clause` at `level`: an empty learned clause
    /// means the formula is unsatisfiable; otherwise the clause is learned, the search
    /// backtracks to the clause's second-highest level and assigns its asserting literal.
    #[verifier::spinoff_prover]
    #[verifier::rlimit(80)]
    fn learn_from_conflict(&mut self, conflict_clause: ClauseRef, level: u32) -> (r: Step)
        requires
            old(self).search_ok(),
            level == old(self).trail.level(),
            level > 0,
            conflict_clause < old(self).formula.clause_seq().len(),
            old(self).assignments.order_count() + 1 < u32::MAX,
            old(self).stats.learned_clauses < u64::MAX,
            old(self).learn_stats.total_learned < u64::MAX,
            old(self).learn_stats.total_literals + old(self).nv() <= u64::MAX,
            old(self).learn_stats.sum_lbd + u32::MAX <= u64::MAX,
            all_false(old(self).assignments, old(self).formula.clause_seq()[conflict_clause as int]@),
        ensures
            final(self).search_ok(),
            final(self).nv() == old(self).nv(),
            final(self).formula.clause_seq().len() >= old(self).formula.clause_seq().len(),
            forall|c: int| 0 <= c < old(self).formula.clause_seq().len() ==> #[trigger] final(self).formula.clause_seq()[c] == old(self).formula.clause_seq()[c],
            final(self).assignments.order_count() <= old(self).assignments.order_count() + 1,
            final(self).stats.propagations == old(self).stats.propagations,
            final(self).stats.conflicts == old(self).stats.conflicts,
            final(self).stats.decisions == old(self).stats.decisions,
            final(self).stats.restarts == old(self).stats.restarts,
            final(self).stats.learned_clauses <= old(self).stats.learned_clauses + 1,
            final(self).learn_stats.total_learned <= old(self).learn_stats.total_learned + 1,
            final(self).learn_stats.total_literals <= old(self).learn_stats.total_literals + old(self).nv(),
            final(self).learn_stats.sum_lbd <= old(self).learn_stats.sum_lbd + u32::MAX,
            r matches Step::Finished(res) ==> res is Unsat,
            !(r is Decide),
            r matches Step::Learned(c) ==> {
                &&& c.learned_clause@.len() > 0
                &&& final(self).formula.clause_seq().len() == old(self).formula.clause_seq().len() + 1
                &&& final(self).formula.clause_seq().last()@ == c.learned_clause@
                &&& final(self).formula.clause_seq().last().spec_learned()
                &&& final(self).formula.clause_seq().last().spec_lbd() == c.lbd
                &&& final(self).trail.level() == c.backtrack_level
                &&& c.backtrack_level < old(self).trail.level()
            },
    {
        let ghost a0 = self.assignments;
        proof {
            self.lemma_level_vars_on_trail(level);
            reveal(reasons_ok);
            reveal(all_false);
        }
        let result = analyze_conflict(conflict_clause, &self.formula, &self.assignments, &self.trail, level);
        if result.learned_clause.len() == 0 {
            return Step::Finished(SolveResult::Unsat);
        }
        let asserting = result.learned_clause[0];
        let ghost learned = result.learned_clause@;
        proof {
            lemma_distinct_vars_len(learned, self.nv());
            // every literal after the first is of a level below the current one
            assert forall|i: int| 1 <= i < learned.len() implies lit_level(self.assignments, #[trigger] learned[i]) < level by {
                let v = learned[i].var_of();
                assert(0 < lit_level(self.assignments, learned[i]));
                if self.assignments.value_of(v) is Unassigned {
                    assert(self.assignments@[v - 1].level == 0);
                }
                let j = choose|j: int| 0 <= j < self.trail.lits().len() && (#[trigger] self.trail.lits()[j]).var_of() == v;
                assert(lit_level(self.assignments, self.trail.lits()[j]) <= self.trail.level());
            }
            if learned.len() >= 2 {
                lemma_max_level_below(self.assignments, learned.subrange(1, learned.len() as int), level);
            }
        }
        let idx = self.store_learned(&result.learned_clause, result.lbd);
        let bl = result.backtrack_level;
        self.backtrack(bl);
        let var = asserting.variable();
        // The asserting literal is of the conflict's level, above `bl`, unless the
        // analysis met no literal of that level; an assigned one is left as it is.
        if !self.assignments.is_assigned(var) {
            let ghost a2 = self.assignments;
            let ghost t2 = self.trail;
            let _len = self.trail.len();
            self.assignments.assign(var, asserting.is_positive(), bl, Some(idx));
            self.trail.push_propagation(asserting);
            proof {
                assert(self.assignments@ =~= a2@.update(asserting.var_of() - 1, self.assignments@[asserting.var_of() - 1]));
                lemma_extend_trail(a2, t2, self.assignments, self.trail, asserting, self.formula.clause_seq());
                let f = self.formula.clause_seq();
                assert(f[idx as int]@ == learned);
                lemma_learned_reason(a0, a2, self.assignments, learned, bl);
                lemma_reasons_extend(a2, t2.lits(), self.assignments, asserting, f);
            }
        }
        let var_idx = var.to_index();
        if var_idx < self.phases.len() {
            self.phases.set(var_idx, asserting.is_positive());
        }
        Step::Learned(result)
    }

    /// Add `learned` to the formula as a learned clause with the given LBD, watch it, and
    /// count it; returns its position.
    fn store_learned(&mut self, learned: &Vec<Literal>, lbd: u32) -> (idx: usize)
        requires
            old(self).search_ok(),
            forall|i: int| 0 <= i < learned@.len() ==> 1 <= (#[trigger] learned@[i]).var_of() <= old(self).nv(),
            learned@.len() <= old(self).nv(),
            old(self).stats.learned_clauses < u64::MAX,
            old(self).learn_stats.total_learned < u64::MAX,
            old(self).learn_stats.total_literals + old(self).nv() <= u64::MAX,
            old(self).learn_stats.sum_lbd + u32::MAX <= u64::MAX,
        ensures
            final(self).search_ok(),
            idx == old(self).formula.clause_seq().len(),
            final(self).formula.clause_seq().len() == old(self).formula.clause_seq().len() + 1,
            forall|c: int| 0 <= c < idx ==> #[trigger] final(self).formula.clause_seq()[c] == old(self).formula.clause_seq()[c],
            final(self).formula.clause_seq()[idx as int]@ == learned@,
            final(self).formula.clause_seq()[idx as int].spec_learned(),
            final(self).formula.clause_seq()[idx as int].spec_lbd() == lbd,
            final(self).formula.spec_num_vars() == old(self).formula.spec_num_vars(),
            final(self).assignments == old(self).assignments,
            final(self).trail == old(self).trail,
            final(self).phases == old(self).phases,
            final(self).stats.learned_clauses == old(self).stats.learned_clauses + 1,
            final(self).stats.propagations == old(self).stats.propagations,
            final(self).stats.conflicts == old(self).stats.conflicts,
            final(self).stats.decisions == old(self).stats.decisions,
            final(self).stats.restarts == old(self).stats.restarts,
            final(self).learn_stats.total_learned == old(self).learn_stats.total_learned + 1,
            final(self).learn_stats.total_literals == old(self).learn_stats.total_literals + learned@.len(),
            final(self).learn_stats.sum_lbd == old(self).learn_stats.sum_lbd + lbd,
    {
        let mut lits: Vec<Literal> = Vec::new();
        let mut k: usize = 0;
        while k < learned.len()
            invariant
                k <= learned@.len(),
                lits@ == learned@.subrange(0, k as int),
            decreases learned@.len() - k,
        {
            lits.push(learned[k]);
            k = k + 1;
        }
        assert(lits@ =~= learned@);
        let ghost f1 = self.formula;
        assert forall|q: int| 0 <= q < lits@.len() implies lists_for(#[trigger] lits@[q].var_of()) <= usize::MAX by {
            assert(1 <= lits@[q].var_of() <= self.nv());
        }
        let idx = add_learned_clause(lits, lbd, &mut self.formula, &mut self.watches);
        proof {
            crate::formula::lemma_max_var(learned@, f1.spec_num_vars() as nat);
            assert forall|c: int, q: int| 0 <= c < self.formula.clause_seq().len() && 0 <= q < self.formula.clause_seq()[c]@.len()
                implies 1 <= (#[trigger] self.formula.clause_seq()[c]@[q]).var_of() <= self.nv() by {
                if c < f1.clause_seq().len() {
                    assert(self.formula.clause_seq()[c] == f1.clause_seq()[c]);
                }
            }
            assert forall|v: nat| #[trigger] self.assignments.antecedent_of(v) is Some implies
                self.assignments.antecedent_of(v)->0 < self.formula.clause_seq().len() by {
            }
            assert forall|c: int| 0 <= c < f1.clause_seq().len() implies #[trigger] self.formula.clause_seq()[c] == f1.clause_seq()[c] by {}
            lemma_reasons_frame(self.assignments, self.assignments, self.trail.lits(), f1.clause_seq(), self.formula.clause_seq());
        }
        self.learn_stats.record(learned.len(), lbd);
        self.stats.learned_clauses = self.stats.learned_clauses + 1;
        idx
    }

    /// Begin the search: a formula without clauses is satisfiable (with an empty
    /// model), one with an empty clause unsatisfiable; otherwise the literals of the unit
    /// clauses are assigned at level 0 in clause order, and the formula is unsatisfiable
    /// when two unit clauses contradict each other.
    #[verifier::rlimit(40)]
    pub fn start(&mut self) -> (r: Option<SolveResult>)
        requires
            old(self).search_ok(),
            old(self).trail.lits().len() == 0,
            old(self).assignments.order_count() + old(self).nv() < u32::MAX,
        ensures
            final(self).search_ok(),
            final(self).formula == old(self).formula,
            final(self).watches == old(self).watches,
            final(self).stats == old(self).stats,
            final(self).trail.level() == 0,
            final(self).assignments.order_count() <= old(self).assignments.order_count() + old(self).nv(),
            old(self).formula.clause_seq().len() == 0 ==> (r matches Some(SolveResult::Sat(m)) && m@.len() == 0),
            old(self).formula.clause_seq().len() > 0 && has_empty(old(self).formula.clause_seq()) ==> r matches Some(SolveResult::Unsat),
            old(self).formula.clause_seq().len() > 0 && !has_empty(old(self).formula.clause_seq()) ==> {
                &&& (r matches Some(SolveResult::Unsat)) == units_conflict(old(self).formula.clause_seq())
                &&& r is None <==> !units_conflict(old(self).formula.clause_seq())
            },
            r is None ==> forall|c: int| 0 <= c < final(self).formula.clause_seq().len() && (#[trigger] final(self).formula.clause_seq()[c])@.len() == 1
                ==> final(self).assignments.lit_value(final(self).formula.clause_seq()[c]@[0]) == Value::True,
    {
        if self.formula.is_empty() {
            return Some(SolveResult::Sat(Vec::new()));
        }
        if self.formula.has_empty_clause() {
            return Some(SolveResult::Unsat);
        }
        let ghost f = self.formula.clause_seq();
        let ghost o0 = self.assignments.order_count();
        proof {
            if self.trail.level() >= 1 {
                assert(self.trail.starts()[1] < self.trail.lits().len());
            }
        }
        let n = self.formula.num_clauses();
        let mut i: usize = 0;
        while i < n
            invariant
                self.search_ok(),
                n == f.len(),
                i <= n,
                self.formula.clause_seq() == f,
                self.formula == old(self).formula,
                self.watches == old(self).watches,
                self.stats == old(self).stats,
                self.trail.level() == 0,
                self.assignments.order_count() == o0 + self.trail.lits().len(),
                o0 + self.nv() < u32::MAX,
                o0 == old(self).assignments.order_count(),
                self.nv() == old(self).nv(),
                forall|c: int| 0 <= c < i && (#[trigger] f[c])@.len() == 1 ==> self.assignments.lit_value(f[c]@[0]) == Value::True,
                forall|j: int| 0 <= j < self.trail.lits().len() ==> exists|c: int| 0 <= c < i && (#[trigger] f[c])@.len() == 1 && f[c]@[0] == #[trigger] self.trail.lits()[j],
            decreases n - i,
        {
            let clause = self.formula.clause(i);
            if clause.len() == 1 {
                let lit = clause.at(0);
                let value = self.assignments.eval_literal(lit);
                proof {
                    assert(f[i as int]@[0] == lit);
                }
                match value {
                    Value::True => {},
                    Value::False => {
                        proof {
                            let v = lit.var_of();
                            assert(1 <= v <= self.nv());
                            assert(!(self.assignments.value_of(v) is Unassigned));
                            let j = choose|j: int| 0 <= j < self.trail.lits().len() && (#[trigger] self.trail.lits()[j]).var_of() == v;
                            let tl = self.trail.lits()[j];
                            assert(self.assignments.lit_value(tl) == Value::True);
                            let c = choose|c: int| 0 <= c < i && (#[trigger] f[c])@.len() == 1 && f[c]@[0] == self.trail.lits()[j];
                            assert(tl.pos() != lit.pos());
                            assert(unit_clash(f, c, i as int));
                            lemma_distinct_vars_len(self.trail.lits(), self.nv());
                        }
                        return Some(SolveResult::Unsat);
                    },
                    Value::Unassigned => {
                        let ghost a0 = self.assignments;
                        let ghost t0 = self.trail;
                        proof {
                            lemma_distinct_vars_len(self.trail.lits(), self.nv());
                        }
                        self.assignments.assign(lit.variable(), lit.is_positive(), 0, Some(i));
                        self.trail.push_at_root(lit);
                        proof {
                            assert(self.assignments@ =~= a0@.update(lit.var_of() - 1, self.assignments@[lit.var_of() - 1]));
                            lemma_extend_trail(a0, t0, self.assignments, self.trail, lit, f);
                            assert(f[i as int]@.contains(lit)) by {
                                assert(f[i as int]@[0] == lit);
                            }
                            assert(levels_below(self.assignments, f[i as int]@, lit));
                            lemma_reasons_extend(a0, t0.lits(), self.assignments, lit, f);
                            assert forall|c: int| 0 <= c < i + 1 && (#[trigger] f[c])@.len() == 1 implies self.assignments.lit_value(f[c]@[0]) == Value::True by {
                                if c < i {
                                    let l = f[c]@[0];
                                    if l.var_of() != lit.var_of() {
                                        assert(self.assignments@[l.var_of() - 1] == a0@[l.var_of() - 1]);
                                    } else {
                                        assert(a0.lit_value(l) == Value::True);
                                    }
                                }
                            }
                            assert forall|j: int| 0 <= j < self.trail.lits().len() implies exists|c: int| 0 <= c < i + 1 && (#[trigger] f[c])@.len() == 1 && f[c]@[0] == #[trigger] self.trail.lits()[j] by {
                                if j < t0.lits().len() {
                                    assert(self.trail.lits()[j] == t0.lits()[j]);
                                } else {
                                    assert(f[i as int]@[0] == self.trail.lits()[j]);
                                }
                            }
                        }
                    },
                }
            }
            i = i + 1;
        }
        proof {
            lemma_distinct_vars_len(self.trail.lits(), self.nv());
            assert forall|c: int, d: int| 0 <= c < f.len() && 0 <= d < f.len() implies !#[trigger] unit_clash(f, c, d) by {
                if unit_clash(f, c, d) {
                    assert(self.assignments.lit_value(f[c]@[0]) == Value::True);
                    assert(self.assignments.lit_value(f[d]@[0]) == Value::True);
                }
            }
        }
        None
    }

    /// Backtrack to level 0 and count a restart.
    pub fn restart(&mut self)
        requires
            old(self).search_ok(),
            old(self).stats.restarts < u64::MAX,
        ensures
            final(self).search_ok(),
            final(self).trail.level() == 0,
            final(self).formula == old(self).formula,
            final(self).stats.restarts == old(self).stats.restarts + 1,
            final(self).assignments.order_count() == old(self).assignments.order_count(),
    {
        self.backtrack(0);
        self.stats.restarts = self.stats.restarts + 1;
    }
}

/// Assigning an unassigned variable at the trail's current level and pushing its
/// literal keeps the trail's relation with the assignment.
#[verifier::spinoff_prover]
proof fn lemma_extend_trail(a0: Assignments, t0: Trail, a: Assignments, t: Trail, lit: Literal, f: Seq<Clause>)
    requires
        t0.wf(),
        t.wf(),
        a0@.len() == a@.len(),
        1 <= lit.var_of() <= a0@.len(),
        a0.value_of(lit.var_of()) is Unassigned,
        a@ == a0@.update(lit.var_of() - 1, a@[lit.var_of() - 1]),
        a.lit_value(lit) == Value::True,
        a.level_of(lit.var_of()) == t.level(),
        a.antecedent_of(lit.var_of()) matches Some(c) ==> c < f.len(),
        t.lits() == t0.lits().push(lit),
        t0.lits().len() <= usize::MAX,
        t.starts() == t0.starts() || (t.starts() == t0.starts().push(t0.lits().len() as usize)),
        forall|j: int| 0 <= j < t0.lits().len() ==> 1 <= (#[trigger] t0.lits()[j]).var_of() <= a0@.len(),
        trail_true(a0, t0.lits()),
        trail_distinct(t0.lits()),
        assigned_on_trail(a0, t0.lits()),
        levels_match(a0, t0),
        levels_nonempty(t0),
        forall|v: nat| #[trigger] a0.antecedent_of(v) matches Some(c) ==> c < f.len(),
        forall|i: int| 0 <= i < a0@.len() && (#[trigger] a0@[i]).value is Unassigned ==> a0@[i].level == 0,
        !(a@[lit.var_of() - 1].value is Unassigned),
    ensures
        forall|j: int| 0 <= j < t.lits().len() ==> 1 <= (#[trigger] t.lits()[j]).var_of() <= a@.len(),
        trail_true(a, t.lits()),
        trail_distinct(t.lits()),
        assigned_on_trail(a, t.lits()),
        levels_match(a, t),
        levels_nonempty(t),
        forall|v: nat| #[trigger] a.antecedent_of(v) matches Some(c) ==> c < f.len(),
        forall|i: int| 0 <= i < a@.len() && (#[trigger] a@[i]).value is Unassigned ==> a@[i].level == 0,
{
    let vi = lit.var_of() - 1;
    let n0 = t0.lits().len();
    assert forall|j: int| 0 <= j < n0 implies (#[trigger] t0.lits()[j]).var_of() != lit.var_of() by {
        assert(a0.lit_value(t0.lits()[j]) == Value::True);
    }
    assert forall|j: int| 0 <= j < t.lits().len() implies a.lit_value(#[trigger] t.lits()[j]) == Value::True by {
        if j < n0 {
            assert(t.lits()[j] == t0.lits()[j]);
            assert(a@[t0.lits()[j].var_of() - 1] == a0@[t0.lits()[j].var_of() - 1]);
            assert(a0.lit_value(t0.lits()[j]) == Value::True);
        }
    }
    assert forall|i: int, j: int| 0 <= i < j < t.lits().len() implies (#[trigger] t.lits()[i]).var_of() != (#[trigger] t.lits()[j]).var_of() by {
        assert(t.lits()[i] == t0.lits()[i]);
        if j < n0 {
            assert(t.lits()[j] == t0.lits()[j]);
        }
    }
    assert forall|v: nat| 1 <= v <= a@.len() && !(#[trigger] a.value_of(v) is Unassigned) implies
        exists|j: int| 0 <= j < t.lits().len() && (#[trigger] t.lits()[j]).var_of() == v by {
        if v == lit.var_of() {
            assert(t.lits()[n0 as int] == lit);
        } else {
            assert(a@[v - 1] == a0@[v - 1]);
            assert(!(a0.value_of(v) is Unassigned));
            let j = choose|j: int| 0 <= j < t0.lits().len() && (#[trigger] t0.lits()[j]).var_of() == v;
            assert(t.lits()[j] == t0.lits()[j]);
        }
    }
    assert forall|j: int, l: int| #![trigger t.lits()[j], t.starts()[l]] 0 <= j < t.lits().len() && 0 <= l < t.starts().len()
        implies (lit_level(a, t.lits()[j]) < l <==> j < t.starts()[l]) by {
        if j < n0 {
            assert(t.lits()[j] == t0.lits()[j]);
            assert(a@[t0.lits()[j].var_of() - 1] == a0@[t0.lits()[j].var_of() - 1]);
            if l < t0.starts().len() {
                assert(t.starts()[l] == t0.starts()[l]);
                assert(lit_level(a0, t0.lits()[j]) < l <==> j < t0.starts()[l]);
            } else {
                assert(lit_level(a0, t0.lits()[j]) <= t0.level());
            }
        } else {
            assert(t.lits()[j] == lit);
            if l < t0.starts().len() {
                assert(t.starts()[l] == t0.starts()[l]);
                assert(t0.starts()[l] <= n0);
            } else {
                assert(t.starts()[l] == n0);
            }
        }
    }
    assert forall|j: int| 0 <= j < t.lits().len() implies lit_level(a, #[trigger] t.lits()[j]) <= t.level() by {
        if j < n0 {
            assert(t.lits()[j] == t0.lits()[j]);
            assert(a@[t0.lits()[j].var_of() - 1] == a0@[t0.lits()[j].var_of() - 1]);
            assert(lit_level(a0, t0.lits()[j]) <= t0.level());
        }
    }
    assert forall|l: int| 1 <= l < t.starts().len() implies #[trigger] t.starts()[l] < t.lits().len() by {
        if l < t0.starts().len() {
            assert(t.starts()[l] == t0.starts()[l]);
        }
    }
    assert forall|l: int, m: int| 1 <= l < m < t.starts().len() implies #[trigger] t.starts()[l] < #[trigger] t.starts()[m] by {
        assert(t.starts()[l] == t0.starts()[l]);
        if m < t0.starts().len() {
            assert(t.starts()[m] == t0.starts()[m]);
        } else {
            assert(t.starts()[m] == n0);
        }
    }
    assert forall|v: nat| #[trigger] a.antecedent_of(v) is Some implies a.antecedent_of(v)->0 < f.len() by {
        if v != lit.var_of() && 1 <= v <= a@.len() {
            assert(a@[v - 1] == a0@[v - 1]);
            assert(a0.antecedent_of(v) == a.antecedent_of(v));
        }
    }
    assert forall|i: int| 0 <= i < a@.len() && (#[trigger] a@[i]).value is Unassigned implies a@[i].level == 0 by {
        if i != vi {
            assert(a@[i] == a0@[i]);
        }
    }
}

/// Propagation keeps the trail's relation with the assignment.
#[verifier::spinoff_prover]
#[verifier::rlimit(60)]
proof fn lemma_after_propagate(a0: Assignments, t0: Trail, a: Assignments, t: Trail, f: Seq<Clause>)
    requires
        grown_by_propagation(a0, t0, a, t, f, t0.level() as u32),
        t0.wf(),
        0 <= t0.level() <= u32::MAX,
        forall|j: int| 0 <= j < t0.lits().len() ==> 1 <= (#[trigger] t0.lits()[j]).var_of() <= a0@.len(),
        trail_true(a0, t0.lits()),
        trail_distinct(t0.lits()),
        assigned_on_trail(a0, t0.lits()),
        levels_match(a0, t0),
        levels_nonempty(t0),
        forall|v: nat| #[trigger] a0.antecedent_of(v) matches Some(c) ==> c < f.len(),
        forall|i: int| 0 <= i < a0@.len() && (#[trigger] a0@[i]).value is Unassigned ==> a0@[i].level == 0,
    ensures
        forall|j: int| 0 <= j < t.lits().len() ==> 1 <= (#[trigger] t.lits()[j]).var_of() <= a@.len(),
        trail_true(a, t.lits()),
        trail_distinct(t.lits()),
        assigned_on_trail(a, t.lits()),
        levels_match(a, t),
        levels_nonempty(t),
        forall|v: nat| #[trigger] a.antecedent_of(v) matches Some(c) ==> c < f.len(),
        forall|i: int| 0 <= i < a@.len() && (#[trigger] a@[i]).value is Unassigned ==> a@[i].level == 0,
{
    let n0 = t0.lits().len();
    assert forall|j: int| 0 <= j < n0 implies #[trigger] t.lits()[j] == t0.lits()[j] by {
        assert(t.lits().subrange(0, n0 as int)[j] == t0.lits()[j]);
    }
    // old trail literals keep their assignment
    assert forall|j: int| 0 <= j < n0 implies #[trigger] a@[t0.lits()[j].var_of() - 1] == a0@[t0.lits()[j].var_of() - 1] by {
        assert(a0.lit_value(t0.lits()[j]) == Value::True);
    }
    assert forall|j: int| 0 <= j < t.lits().len() implies 1 <= (#[trigger] t.lits()[j]).var_of() <= a@.len() by {
        if j >= n0 {
            let l = t.lits()[j];
            assert(a.antecedent_of(l.var_of()) is Some);
        }
    }
    assert forall|i: int, j: int| 0 <= i < j < t.lits().len() implies (#[trigger] t.lits()[i]).var_of() != (#[trigger] t.lits()[j]).var_of() by {
        if j < n0 {
        } else if i < n0 {
            assert(a0.lit_value(t0.lits()[i]) == Value::True);
            assert(a0.lit_value(t.lits()[j]) == Value::Unassigned);
        }
    }
    assert forall|v: nat| 1 <= v <= a@.len() && !(#[trigger] a.value_of(v) is Unassigned) implies
        exists|j: int| 0 <= j < t.lits().len() && (#[trigger] t.lits()[j]).var_of() == v by {
        if a0.value_of(v) is Unassigned {
        } else {
            let j = choose|j: int| 0 <= j < t0.lits().len() && (#[trigger] t0.lits()[j]).var_of() == v;
            assert(t.lits()[j] == t0.lits()[j]);
        }
    }
    assert forall|j: int, l: int| #![trigger t.lits()[j], t.starts()[l]] 0 <= j < t.lits().len() && 0 <= l < t.starts().len()
        implies (lit_level(a, t.lits()[j]) < l <==> j < t.starts()[l]) by {
        if j < n0 {
            assert(lit_level(a0, t0.lits()[j]) < l <==> j < t0.starts()[l]);
        } else {
            assert(t0.starts()[l] <= n0);
            assert(lit_level(a, t.lits()[j]) == t0.level());
        }
    }
    assert forall|j: int| 0 <= j < t.lits().len() implies lit_level(a, #[trigger] t.lits()[j]) <= t.level() by {
        if j < n0 {
            assert(lit_level(a0, t0.lits()[j]) <= t0.level());
        }
    }
    assert forall|v: nat| #[trigger] a.antecedent_of(v) is Some implies a.antecedent_of(v)->0 < f.len() by {
        if 1 <= v <= a@.len() {
            let i = v - 1;
            if a@[i] != a0@[i] {
                assert(a0@[i].value is Unassigned && !(a@[i].value is Unassigned));
                assert(!(a.value_of(v) is Unassigned));
                assert(a0.value_of(v) is Unassigned);
                let j = choose|j: int| n0 <= j < t.lits().len() && (#[trigger] t.lits()[j]).var_of() == v;
                let l = t.lits()[j];
                assert(a.antecedent_of(l.var_of()) is Some);
            } else {
                assert(a0.antecedent_of(v) == a.antecedent_of(v));
            }
        }
    }
    assert forall|i: int| 0 <= i < a@.len() && (#[trigger] a@[i]).value is Unassigned implies a@[i].level == 0 by {
        assert(a@[i] == a0@[i] || (a0@[i].value is Unassigned && !(a@[i].value is Unassigned)));
    }
}

/// The model read off an assignment under which every clause has a true literal
/// satisfies every clause.
proof fn lemma_model_satisfies(a: Assignments, m: Seq<bool>, f: Seq<Clause>)
    requires
        clauses_in_range(f, a@.len()),
        m.len() == a@.len(),
        forall|i: int| 0 <= i < a@.len() ==> #[trigger] m[i] == (a@[i].value == Value::True),
        forall|c: int| 0 <= c < f.len() ==> has_true_lit(a, #[trigger] f[c]@),
    ensures
        model_satisfies(m, f),
{
    assert forall|c: int| 0 <= c < f.len() implies model_satisfies_clause(m, #[trigger] f[c]@) by {
        assert(has_true_lit(a, f[c]@));
        let k = choose|k: int| 0 <= k < f[c]@.len() && #[trigger] a.lit_value(f[c]@[k]) == Value::True;
        let l = f[c]@[k];
        assert(1 <= l.var_of() <= a@.len());
        assert(m[l.var_of() - 1] == (a@[l.var_of() - 1].value == Value::True));
    }
}

/// Under a total assignment, the literals of a clause over its variables that are not
/// true are false.
proof fn lemma_all_assigned_false(a: Assignments, cl: Seq<Literal>)
    requires
        forall|i: int| 0 <= i < a@.len() ==> !(#[trigger] a@[i].value is Unassigned),
        forall|k: int| 0 <= k < cl.len() ==> 1 <= (#[trigger] cl[k]).var_of() <= a@.len(),
        forall|k: int| 0 <= k < cl.len() ==> #[trigger] a.lit_value(cl[k]) != Value::True,
    ensures
        forall|k: int| 0 <= k < cl.len() ==> #[trigger] a.lit_value(cl[k]) == Value::False,
{
    assert forall|k: int| 0 <= k < cl.len() implies #[trigger] a.lit_value(cl[k]) == Value::False by {
        let v = cl[k].var_of();
        assert(!(a@[v - 1].value is Unassigned));
        assert(a.lit_value(cl[k]) != Value::True);
    }
}

/// A learned clause whose literals were all false under `a0` is the reason of its first
/// literal once the search has gone back to the highest level of the others, keeping
/// their entries (`a2`), and assigned the first literal at that level (`a`).
proof fn lemma_learned_reason(a0: Assignments, a2: Assignments, a: Assignments, learned: Seq<Literal>, bl: u32)
    requires
        learned.len() > 0,
        forall|i: int| 0 <= i < learned.len() ==> #[trigger] a0.lit_value(learned[i]) == Value::False,
        forall|i: int| 0 <= i < learned.len() ==> 1 <= (#[trigger] learned[i]).var_of() <= a0@.len(),
        forall|i: int, j: int| 0 <= i < j < learned.len() ==> (#[trigger] learned[i]).var_of() != (#[trigger] learned[j]).var_of(),
        bl == if learned.len() <= 1 { 0 } else { crate::solver::conflict::max_level(a0, learned.subrange(1, learned.len() as int)) },
        a2@.len() == a0@.len(),
        forall|v: nat| 1 <= v <= a0@.len() && a0.level_of(v) <= bl ==> #[trigger] a2@[v - 1] == a0@[v - 1],
        a@.len() == a2@.len(),
        a@ == a2@.update(learned[0].var_of() - 1, a@[learned[0].var_of() - 1]),
        a@[learned[0].var_of() - 1].level == bl,
    ensures
        reason_ok(a, learned, learned[0]),
        levels_below(a, learned, learned[0]),
{
    let asserting = learned[0];
    assert forall|k: int| 0 <= k < learned.len() && learned[k] != asserting implies
        #[trigger] a.lit_value(learned[k]) == Value::False && lit_level(a, learned[k]) <= bl by {
        assert(k != 0);
        let rest = learned.subrange(1, learned.len() as int);
        lemma_max_level_bound(a0, rest, k - 1);
        assert(rest[k - 1] == learned[k]);
        let v = learned[k].var_of();
        assert(learned[0].var_of() != learned[k].var_of());
        assert(lit_level(a0, learned[k]) == a0.level_of(v));
        assert(a0.level_of(v) <= bl);
        assert(a2@[v - 1] == a0@[v - 1]);
        assert(a@[v - 1] == a2@[v - 1]);
        assert(a.info_of(v) == a0.info_of(v));
        assert(a.lit_value(learned[k]) == a0.lit_value(learned[k]));
    }
    assert(learned.contains(asserting)) by {
        assert(learned[0] == asserting);
    }
    assert(a.info_of(asserting.var_of()) == Some(a@[asserting.var_of() - 1]));
    assert(lit_level(a, asserting) == bl);
    assert forall|k: int| 0 <= k < learned.len() && learned[k] != asserting implies
        #[trigger] lit_level(a, learned[k]) <= lit_level(a, asserting) by {
        assert(a.lit_value(learned[k]) == Value::False);
    }
}

/// No literal of `lits` is of a higher level than their highest.
proof fn lemma_max_level_bound(a: Assignments, lits: Seq<Literal>, i: int)
    requires
        0 <= i < lits.len(),
    ensures
        lit_level(a, lits[i]) <= crate::solver::conflict::max_level(a, lits),
    decreases lits.len(),
{
    if i < lits.len() - 1 {
        lemma_max_level_bound(a, lits.drop_last(), i);
        assert(lits.drop_last()[i] == lits[i]);
    }
}

/// The highest level of literals whose levels are all below `bound` is below `bound`.
proof fn lemma_max_level_below(a: Assignments, lits: Seq<Literal>, bound: u32)
    requires
        bound > 0,
        forall|i: int| 0 <= i < lits.len() ==> lit_level(a, #[trigger] lits[i]) < bound,
    ensures
        crate::solver::conflict::max_level(a, lits) < bound,
    decreases lits.len(),
{
    if lits.len() > 0 {
        lemma_max_level_below(a, lits.drop_last(), bound);
        assert(lit_level(a, lits[lits.len() - 1]) < bound);
    }
}

/// After the trail dropped its literals from position `start` (those of the levels
/// above `level`) and their variables were cleared, the search invariant's parts on the
/// assignment and the trail still hold.
#[verifier::spinoff_prover]
#[verifier::rlimit(60)]
proof fn lemma_after_backtrack(a0: Assignments, t0: Trail, a: Assignments, t: Trail, level: u32, start: int, unassigned: Seq<Literal>, f: Seq<Clause>)
    requires
        t0.wf(),
        t.wf(),
        0 <= start <= t0.lits().len(),
        level < t0.level() ==> {
            &&& start == t0.starts()[level + 1] as int
            &&& t.lits() == t0.lits().subrange(0, start)
            &&& t.starts() == t0.starts().subrange(0, level + 1)
        },
        level >= t0.level() ==> start == t0.lits().len() && t.lits() == t0.lits() && t.starts() == t0.starts(),
        unassigned == t0.lits().subrange(start, t0.lits().len() as int).reverse(),
        a@.len() == a0@.len(),
        forall|j: int| 0 <= j < t0.lits().len() ==> 1 <= (#[trigger] t0.lits()[j]).var_of() <= a0@.len(),
        forall|i: int| 0 <= i < a0@.len() ==> #[trigger] a@[i] == if exists|q: int| 0 <= q < unassigned.len() && unassigned[q].var_of() - 1 == i {
            crate::assignment::AssignmentInfo::unassigned_spec()
        } else {
            a0@[i]
        },
        trail_true(a0, t0.lits()),
        trail_distinct(t0.lits()),
        assigned_on_trail(a0, t0.lits()),
        levels_match(a0, t0),
        forall|v: nat| #[trigger] a0.antecedent_of(v) matches Some(c) ==> c < f.len(),
    ensures
        trail_true(a, t.lits()),
        trail_distinct(t.lits()),
        assigned_on_trail(a, t.lits()),
        levels_match(a, t),
        forall|v: nat| #[trigger] a.antecedent_of(v) matches Some(c) ==> c < f.len(),
        forall|v: nat| 1 <= v <= a0@.len() && !(a0.value_of(v) is Unassigned) && a0.level_of(v) > level
            ==> #[trigger] a.value_of(v) is Unassigned,
        forall|v: nat| 1 <= v <= a0@.len() && a0.level_of(v) <= level
            ==> #[trigger] a.value_of(v) == a0.value_of(v),
{
    let n = unassigned.len();
            assert(t.lits() =~= t0.lits().subrange(0, start));
    assert forall|j: int| 0 <= j < t.lits().len() implies #[trigger] a@[t.lits()[j].var_of() - 1] == a0@[t.lits()[j].var_of() - 1] by {
        let i = t.lits()[j].var_of() - 1;
        assert(t.lits()[j] == t0.lits()[j]);
        if exists|q: int| 0 <= q < n && unassigned[q].var_of() - 1 == i {
            let q = choose|q: int| 0 <= q < n && unassigned[q].var_of() - 1 == i;
            let jj = t0.lits().len() - 1 - q;
            assert(unassigned[q] == t0.lits()[jj]);
            assert(t0.lits()[j].var_of() != t0.lits()[jj].var_of());
        }
    }
    assert forall|j: int| 0 <= j < t.lits().len() implies a.lit_value(#[trigger] t.lits()[j]) == Value::True by {
        assert(a@[t.lits()[j].var_of() - 1] == a0@[t.lits()[j].var_of() - 1]);
        assert(t.lits()[j] == t0.lits()[j]);
    }
    assert forall|v: nat| 1 <= v <= a@.len() && !(#[trigger] a.value_of(v) is Unassigned) implies
        exists|j: int| 0 <= j < t.lits().len() && (#[trigger] t.lits()[j]).var_of() == v by {
        let i = v - 1;
        if exists|q: int| 0 <= q < n && unassigned[q].var_of() - 1 == i {
        } else {
            assert(a@[i] == a0@[i]);
            assert(!(a0.value_of(v) is Unassigned));
            let j = choose|j: int| 0 <= j < t0.lits().len() && (#[trigger] t0.lits()[j]).var_of() == v;
            if j >= start {
                let q = t0.lits().len() - 1 - j;
                assert(unassigned[q] == t0.lits()[j]);
            }
            assert(t.lits()[j] == t0.lits()[j]);
        }
    }
    assert forall|j: int, l: int| #![trigger t.lits()[j], t.starts()[l]] 0 <= j < t.lits().len() && 0 <= l < t.starts().len()
        implies (lit_level(a, t.lits()[j]) < l <==> j < t.starts()[l]) by {
        assert(a@[t.lits()[j].var_of() - 1] == a0@[t.lits()[j].var_of() - 1]);
        assert(t.lits()[j] == t0.lits()[j]);
        if level < t0.level() {
            assert(t.starts() == t0.starts().subrange(0, level + 1));
        }
        assert(t.starts()[l] == t0.starts()[l]);
        assert(lit_level(a0, t0.lits()[j]) < l <==> j < t0.starts()[l]);
    }
    assert forall|j: int| 0 <= j < t.lits().len() implies lit_level(a, #[trigger] t.lits()[j]) <= t.level() by {
        assert(a@[t.lits()[j].var_of() - 1] == a0@[t.lits()[j].var_of() - 1]);
        assert(t.lits()[j] == t0.lits()[j]);
        assert(lit_level(a0, t0.lits()[j]) <= t0.level());
        if level < t0.level() {
            let l = level + 1;
            assert(lit_level(a0, t0.lits()[j]) < l <==> j < t0.starts()[l]);
        }
    }
    assert forall|v: nat| #[trigger] a.antecedent_of(v) is Some implies a.antecedent_of(v)->0 < f.len() by {
        let i = v - 1;
        if !(exists|q: int| 0 <= q < n && unassigned[q].var_of() - 1 == i) {
            assert(a@[i] == a0@[i]);
            assert(a0.antecedent_of(v) == a.antecedent_of(v));
        }
    }
    assert forall|v: nat| 1 <= v <= a0@.len() && !(a0.value_of(v) is Unassigned) && a0.level_of(v) > level
        implies #[trigger] a.value_of(v) is Unassigned by {
        let j = choose|j: int| 0 <= j < t0.lits().len() && (#[trigger] t0.lits()[j]).var_of() == v;
        if level < t0.level() {
            let l = level + 1;
            assert(lit_level(a0, t0.lits()[j]) < l <==> j < t0.starts()[l]);
            let q = t0.lits().len() - 1 - j;
            assert(unassigned[q] == t0.lits()[j]);
            assert(a@[v - 1] == crate::assignment::AssignmentInfo::unassigned_spec());
        } else {
            assert(lit_level(a0, t0.lits()[j]) <= t0.level());
        }
    }
    assert forall|v: nat| 1 <= v <= a0@.len() && a0.level_of(v) <= level
        implies #[trigger] a.value_of(v) == a0.value_of(v) by {
        let i = v - 1;
        if exists|q: int| 0 <= q < n && unassigned[q].var_of() - 1 == i {
            let q = choose|q: int| 0 <= q < n && unassigned[q].var_of() - 1 == i;
            let j = t0.lits().len() - 1 - q;
            assert(unassigned[q] == t0.lits()[j]);
            if level < t0.level() {
                let l = level + 1;
                assert(lit_level(a0, t0.lits()[j]) < l <==> j < t0.starts()[l]);
            }
        } else {
            assert(a@[i] == a0@[i]);
        }
    }
        }


/// Backtracking keeps the entries of the variables of levels up to `level`, and the
/// reasons of the literals left on the trail.
proof fn lemma_backtrack_reasons(a0: Assignments, t0: Trail, a: Assignments, t: Trail, level: u32, start: int, unassigned: Seq<Literal>, f: Seq<Clause>)
    requires
        t0.wf(),
        t.wf(),
        0 <= start <= t0.lits().len(),
        level < t0.level() ==> {
            &&& start == t0.starts()[level + 1] as int
            &&& t.lits() == t0.lits().subrange(0, start)
            &&& t.starts() == t0.starts().subrange(0, level + 1)
        },
        level >= t0.level() ==> start == t0.lits().len() && t.lits() == t0.lits() && t.starts() == t0.starts(),
        unassigned == t0.lits().subrange(start, t0.lits().len() as int).reverse(),
        a@.len() == a0@.len(),
        forall|j: int| 0 <= j < t0.lits().len() ==> 1 <= (#[trigger] t0.lits()[j]).var_of() <= a0@.len(),
        forall|i: int| 0 <= i < a0@.len() ==> #[trigger] a@[i] == if exists|q: int| 0 <= q < unassigned.len() && unassigned[q].var_of() - 1 == i {
            crate::assignment::AssignmentInfo::unassigned_spec()
        } else {
            a0@[i]
        },
        trail_true(a0, t0.lits()),
        levels_match(a0, t0),
        reasons_ok(a0, t0.lits(), f),
    ensures
        forall|v: nat| 1 <= v <= a0@.len() && a0.level_of(v) <= level
            ==> #[trigger] a@[v - 1] == a0@[v - 1],
        reasons_ok(a, t.lits(), f),
{
    reveal(reasons_ok);
    let n = unassigned.len();
    if level < t0.level() {
        assert(t.lits() =~= t0.lits().subrange(0, start));
    }
    assert forall|v: nat| 1 <= v <= a0@.len() && a0.level_of(v) <= level
        implies #[trigger] a@[v - 1] == a0@[v - 1] by {
        let i = v - 1;
        if exists|q: int| 0 <= q < n && unassigned[q].var_of() - 1 == i {
            let q = choose|q: int| 0 <= q < n && unassigned[q].var_of() - 1 == i;
            let j = t0.lits().len() - 1 - q;
            assert(unassigned[q] == t0.lits()[j]);
            if level < t0.level() {
                let l = level + 1;
                assert(lit_level(a0, t0.lits()[j]) < l <==> j < t0.starts()[l]);
            }
        }
    }
    assert forall|j: int| 0 <= j < t.lits().len() implies (a.antecedent_of((#[trigger] t.lits()[j]).var_of()) matches Some(c)
        ==> c < f.len() && reason_ok(a, f[c as int]@, t.lits()[j]) && levels_below(a, f[c as int]@, t.lits()[j])) by {
        let l = t.lits()[j];
        assert(l == t0.lits()[j]);
        assert(lit_level(a0, l) <= level) by {
            if level < t0.level() {
                let lv = level + 1;
                assert(lit_level(a0, t0.lits()[j]) < lv <==> j < t0.starts()[lv]);
            } else {
                assert(lit_level(a0, t0.lits()[j]) <= t0.level());
            }
        }
        assert(a@[l.var_of() - 1] == a0@[l.var_of() - 1]);
        if let Some(c) = a0.antecedent_of(l.var_of()) {
            let cl = f[c as int]@;
            assert forall|k: int| 0 <= k < cl.len() && cl[k] != l implies #[trigger] a.lit_value(cl[k]) == Value::False by {
                assert(a0.lit_value(cl[k]) == Value::False);
                assert(lit_level(a0, cl[k]) <= lit_level(a0, l));
                assert(a@[cl[k].var_of() - 1] == a0@[cl[k].var_of() - 1]);
            }
            assert forall|k: int| 0 <= k < cl.len() && cl[k] != l implies #[trigger] lit_level(a, cl[k]) <= lit_level(a, l) by {
                assert(a0.lit_value(cl[k]) == Value::False);
                assert(lit_level(a0, cl[k]) <= lit_level(a0, l));
                assert(a@[cl[k].var_of() - 1] == a0@[cl[k].var_of() - 1]);
            }
        }
    }
}

} // verus!
