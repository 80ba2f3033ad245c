//! A DRAT proof checker by reverse unit propagation (RUP): a clause `C` is accepted when
//! unit propagation on the active clauses and the negation of `C` meets a conflict.
use vstd::prelude::*;
use crate::formula::Formula;
use crate::literal::Literal;
use crate::parser::text::{
    chars_of, lines, split_lines, words, split_words, trim, trimmed, lenient_ints, read_lenient_ints,
    char_views, int_in, parse_int, signed_decimal, push_char, push_signed_decimal,
};

verus! {

/// The outcome of checking a proof.
#[derive(Debug, Clone, PartialEq, Eq)]
pub enum VerifyResult {
    /// The proof is valid: the formula is unsatisfiable.
    Valid,
    /// The proof fails at `line` (0 when it ends without the empty clause).
    Invalid { line: usize, reason: String },
}

/// Counters of a check.
#[derive(Debug, Clone)]
pub struct VerifyStats {
    /// Clauses checked.
    pub clauses_checked: u64,
    /// Deletions processed.
    pub deletions_processed: u64,
    /// RUP checks made.
    pub rup_checks: u64,
}

impl Default for VerifyStats {
    fn default() -> (s: Self)
        ensures
            s.clauses_checked == 0,
            s.deletions_processed == 0,
            s.rup_checks == 0,
    {
        VerifyStats { clauses_checked: 0, deletions_processed: 0, rup_checks: 0 }
    }
}

/// The value of `l` under the partial assignment `a` (indexed by variable).
pub open spec fn lit_value(a: Seq<Option<bool>>, l: Literal) -> Option<bool> {
    let v = l.var_of() as int;
    if 0 <= v < a.len() {
        match a[v] {
            Some(b) => Some(b == l.pos()),
            None => None,
        }
    } else {
        None
    }
}

/// Some literal of `c` is true under `a`.
pub open spec fn satisfied(a: Seq<Option<bool>>, c: Seq<Literal>) -> bool {
    exists|i: int| 0 <= i < c.len() && #[trigger] lit_value(a, c[i]) == Some(true)
}

/// Every literal of `c` is false under `a`.
pub open spec fn falsified(a: Seq<Option<bool>>, c: Seq<Literal>) -> bool {
    forall|i: int| 0 <= i < c.len() ==> #[trigger] lit_value(a, c[i]) == Some(false)
}

/// Unit propagation has nothing to do on `c` under `a`: `c` is satisfied, or two of its
/// positions are unassigned.
pub open spec fn stuck(a: Seq<Option<bool>>, c: Seq<Literal>) -> bool {
    satisfied(a, c) || exists|i: int, j: int|
        0 <= i < j < c.len() && #[trigger] lit_value(a, c[i]) is None && #[trigger] lit_value(a, c[j]) is None
}

/// Unit propagation has nothing to do on any active clause of `db` under `a`.
pub open spec fn closed(a: Seq<Option<bool>>, db: Seq<Option<Seq<Literal>>>) -> bool {
    forall|k: int| 0 <= k < db.len() && (#[trigger] db[k]) is Some ==> stuck(a, db[k]->0)
}

/// `a` is an assignment over `nv` variables that falsifies `c` and on which unit
/// propagation over `db` stops without conflict.
pub open spec fn rup_witness(a: Seq<Option<bool>>, c: Seq<Literal>, db: Seq<Option<Seq<Literal>>>, nv: nat) -> bool {
    &&& a.len() == nv + 1
    &&& falsified(a, c)
    &&& closed(a, db)
}

/// `c` follows from `db` by reverse unit propagation: unit propagation on the negation
/// of `c` always meets a conflict (for the empty clause, unit propagation on `db` alone).
pub open spec fn is_rup(c: Seq<Literal>, db: Seq<Option<Seq<Literal>>>, nv: nat) -> bool {
    !exists|a: Seq<Option<bool>>| #[trigger] rup_witness(a, c, db, nv)
}

/// `b` agrees with `a` wherever `a` is assigned.
pub open spec fn extends(b: Seq<Option<bool>>, a: Seq<Option<bool>>) -> bool {
    &&& b.len() == a.len()
    &&& forall|v: int| 0 <= v < a.len() && (#[trigger] a[v]) is Some ==> b[v] == a[v]
}

/// The literals of `c` have variables in `1..=nv`.
pub open spec fn lits_in_range(c: Seq<Literal>, nv: nat) -> bool {
    forall|i: int| 0 <= i < c.len() ==> 1 <= (#[trigger] c[i]).var_of() <= nv
}

/// Every active clause of `db` has its variables in `1..=nv`.
pub open spec fn db_in_range(db: Seq<Option<Seq<Literal>>>, nv: nat) -> bool {
    forall|k: int| 0 <= k < db.len() && (#[trigger] db[k]) is Some ==> lits_in_range(db[k]->0, nv)
}

/// The total assignment `s` (indexed by variable) as a partial one.
pub open spec fn total(s: Seq<bool>) -> Seq<Option<bool>> {
    s.map_values(|b: bool| Some(b))
}

/// Reverse unit propagation is sound: when a clause `c` is RUP with respect to the
/// active clauses `db`, every assignment that satisfies all of them satisfies `c`; so
/// when the empty clause is RUP, no assignment satisfies them all.
pub proof fn lemma_rup_sound(c: Seq<Literal>, db: Seq<Option<Seq<Literal>>>, nv: nat, s: Seq<bool>)
    requires
        is_rup(c, db, nv),
        s.len() == nv + 1,
        lits_in_range(c, nv),
        forall|k: int| 0 <= k < db.len() && (#[trigger] db[k]) is Some ==> satisfied(total(s), db[k]->0),
    ensures
        satisfied(total(s), c),
{
    let a = total(s);
    if !satisfied(a, c) {
        assert forall|i: int| 0 <= i < c.len() implies #[trigger] lit_value(a, c[i]) == Some(false) by {
            assert(lit_value(a, c[i]) != Some(true));
            assert(a[c[i].var_of() as int] == Some(s[c[i].var_of() as int]));
        }
        assert(rup_witness(a, c, db, nv));
    }
}

/// The number of unassigned entries of `a`.
pub open spec fn unassigned_count(a: Seq<Option<bool>>) -> nat
    decreases a.len(),
{
    if a.len() == 0 {
        0
    } else {
        unassigned_count(a.drop_last()) + if a.last() is None { 1nat } else { 0nat }
    }
}

proof fn lemma_unassigned_update(a: Seq<Option<bool>>, i: int, b: bool)
    requires
        0 <= i < a.len(),
        a[i] is None,
    ensures
        unassigned_count(a.update(i, Some(b))) + 1 == unassigned_count(a),
    decreases a.len(),
{
    if i < a.len() - 1 {
        assert(a.update(i, Some(b)).drop_last() =~= a.drop_last().update(i, Some(b)));
        lemma_unassigned_update(a.drop_last(), i, b);
    } else {
        assert(a.update(i, Some(b)).drop_last() =~= a.drop_last());
    }
}

/// What unit propagation sees of a clause.
pub enum ClauseState {
    Satisfied,
    Conflict,
    Unit(Literal),
    Unresolved,
}

/// The DRAT proof checker: the active clauses (deleted ones are `None`), the number of
/// variables, the partial assignment of a RUP check, its propagation queue, and the
/// counters.
pub struct DratVerifier {
    clauses: Vec<Option<Vec<Literal>>>,
    num_vars: u32,
    assignments: Vec<Option<bool>>,
    propagation_queue: Vec<Literal>,
    stats: VerifyStats,
}

/// The clause database as sequences.
pub open spec fn db_of(v: Seq<Option<Vec<Literal>>>) -> Seq<Option<Seq<Literal>>> {
    v.map_values(|o: Option<Vec<Literal>>| match o {
        Some(c) => Some(c@),
        None => None,
    })
}

impl DratVerifier {
    /// The clauses, deleted ones as `None`.
    pub closed spec fn db(&self) -> Seq<Option<Seq<Literal>>> {
        db_of(self.clauses@)
    }

    /// The number of variables.
    pub closed spec fn nv(&self) -> nat {
        self.num_vars as nat
    }

    /// The counters.
    pub closed spec fn counters(&self) -> VerifyStats {
        self.stats
    }

    /// The assignment has one entry per variable, and one more.
    pub closed spec fn wf(&self) -> bool {
        self.assignments@.len() == self.num_vars + 1
    }

    /// A checker whose active clauses are those of `formula`.
    pub fn new(formula: &Formula) -> (v: DratVerifier)
        requires
            formula.spec_num_vars() < u32::MAX,
        ensures
            v.wf(),
            v.nv() == formula.spec_num_vars(),
            v.db().len() == formula.clause_seq().len(),
            forall|k: int| 0 <= k < formula.clause_seq().len() ==> #[trigger] v.db()[k] == Some(formula.clause_seq()[k]@),
            v.counters().clauses_checked == 0 && v.counters().deletions_processed == 0 && v.counters().rup_checks == 0,
    {
        let num_vars = formula.num_vars();
        let cs = formula.clauses();
        let mut clauses: Vec<Option<Vec<Literal>>> = Vec::new();
        let mut k: usize = 0;
        while k < cs.len()
            invariant
                k <= cs@.len(),
                cs@ == formula.clause_seq(),
                clauses@.len() == k,
                forall|i: int| 0 <= i < k ==> #[trigger] db_of(clauses@)[i] == Some(cs@[i]@),
            decreases cs@.len() - k,
        {
            let lits = cs[k].literals();
            let mut copy: Vec<Literal> = Vec::new();
            let mut j: usize = 0;
            while j < lits.len()
                invariant
                    j <= lits@.len(),
                    copy@ == lits@.take(j as int),
                decreases lits@.len() - j,
            {
                copy.push(lits[j]);
                assert(lits@.take(j + 1) =~= lits@.take(j as int).push(lits@[j as int]));
                j = j + 1;
            }
            assert(lits@.take(j as int) =~= lits@);
            let ghost before = clauses@;
            clauses.push(Some(copy));
            assert forall|i: int| 0 <= i < k + 1 implies #[trigger] db_of(clauses@)[i] == Some(cs@[i]@) by {
                if i < k {
                    assert(clauses@[i] == before[i]);
                    assert(db_of(before)[i] == Some(cs@[i]@));
                }
            }
            k = k + 1;
        }
        let mut assignments: Vec<Option<bool>> = Vec::new();
        let mut i: u32 = 0;
        while i <= num_vars
            invariant
                i <= num_vars + 1,
                num_vars < u32::MAX,
                assignments@.len() == i,
            decreases num_vars + 1 - i,
        {
            assignments.push(None);
            i = i + 1;
        }
        DratVerifier {
            clauses,
            num_vars,
            assignments,
            propagation_queue: Vec::new(),
            stats: VerifyStats::default(),
        }
    }
}

impl DratVerifier {
    /// What unit propagation sees of `clause` under the current assignment.
    fn check_clause_unit(&self, clause: &Vec<Literal>) -> (r: ClauseState)
        requires
            self.wf(),
            lits_in_range(clause@, self.nv()),
        ensures
            r is Satisfied ==> satisfied(self.assignments@, clause@),
            r is Unresolved ==> exists|i: int, j: int|
                0 <= i < j < clause@.len() && #[trigger] lit_value(self.assignments@, clause@[i]) is None
                    && #[trigger] lit_value(self.assignments@, clause@[j]) is None,
            r is Conflict ==> falsified(self.assignments@, clause@),
            r matches ClauseState::Unit(l) ==> exists|i: int| 0 <= i < clause@.len() && clause@[i] == l && {
                &&& lit_value(self.assignments@, l) is None
                &&& forall|j: int| 0 <= j < clause@.len() && j != i ==> #[trigger] lit_value(self.assignments@, clause@[j]) == Some(false)
            },
    {
        let ghost a = self.assignments@;
        let mut unassigned: Option<Literal> = None;
        let mut count: usize = 0;
        let ghost mut first: int = -1;
        let mut k: usize = 0;
        while k < clause.len()
            invariant
                a == self.assignments@,
                self.wf(),
                lits_in_range(clause@, self.nv()),
                k <= clause@.len(),
                count <= 1,
                count == 0 ==> forall|j: int| 0 <= j < k ==> #[trigger] lit_value(a, clause@[j]) == Some(false),
                count == 1 ==> {
                    &&& 0 <= first < k
                    &&& unassigned == Some(clause@[first])
                    &&& lit_value(a, clause@[first]) is None
                    &&& forall|j: int| 0 <= j < k && j != first ==> #[trigger] lit_value(a, clause@[j]) == Some(false)
                },
            decreases clause@.len() - k,
        {
            let lit = clause[k];
            let var = lit.variable().index() as usize;
            match self.assignments[var] {
                Some(val) => {
                    if val == lit.is_positive() {
                        assert(lit_value(a, clause@[k as int]) == Some(true));
                        return ClauseState::Satisfied;
                    }
                },
                None => {
                    if count == 1 {
                        assert(lit_value(a, clause@[first]) is None && lit_value(a, clause@[k as int]) is None);
                        return ClauseState::Unresolved;
                    }
                    unassigned = Some(lit);
                    count = 1;
                    proof {
                        first = k as int;
                    }
                },
            }
            k = k + 1;
        }
        if count == 0 {
            ClauseState::Conflict
        } else {
            ClauseState::Unit(unassigned.unwrap())
        }
    }

    /// Propagate the queued assignments over the active clauses; whether a conflict
    /// was met. The assignment falsifies `c` and agrees with every witness against `c`
    /// being RUP.
    fn unit_propagate(&mut self, c: Ghost<Seq<Literal>>) -> (conflict: bool)
        requires
            old(self).wf(),
            db_in_range(old(self).db(), old(self).nv()),
            falsified(old(self).assignments@, c@),
            forall|w: Seq<Option<bool>>| #[trigger] rup_witness(w, c@, old(self).db(), old(self).nv()) ==> extends(w, old(self).assignments@),
            old(self).propagation_queue@.len() > 0 || closed(old(self).assignments@, old(self).db()),
        ensures
            final(self).wf(),
            final(self).clauses == old(self).clauses,
            final(self).num_vars == old(self).num_vars,
            final(self).stats == old(self).stats,
            conflict == !exists|w: Seq<Option<bool>>| #[trigger] rup_witness(w, c@, old(self).db(), old(self).nv()),
    {
        let ghost db = self.db();
        let ghost nv = self.nv();
        loop
            invariant
                self.wf(),
                db == self.db(),
                nv == self.nv(),
                self.clauses == old(self).clauses,
                self.num_vars == old(self).num_vars,
                self.stats == old(self).stats,
                db == old(self).db(),
                nv == old(self).nv(),
                db_in_range(db, nv),
                falsified(self.assignments@, c@),
                forall|w: Seq<Option<bool>>| #[trigger] rup_witness(w, c@, db, nv) ==> extends(w, self.assignments@),
                self.propagation_queue@.len() > 0 || closed(self.assignments@, db),
            decreases unassigned_count(self.assignments@), self.propagation_queue@.len(),
        {
            let popped = self.propagation_queue.pop();
            if popped.is_none() {
                assert(rup_witness(self.assignments@, c@, db, nv));
                return false;
            }
            let ghost a0 = self.assignments@;
            let ghost q0 = self.propagation_queue@.len();
            let mut changed = false;
            let mut k: usize = 0;
            while k < self.clauses.len()
                invariant
                    self.wf(),
                    db == self.db(),
                    nv == self.nv(),
                    self.clauses == old(self).clauses,
                    self.num_vars == old(self).num_vars,
                    self.stats == old(self).stats,
                    db_in_range(db, nv),
                    k <= db.len(),
                    falsified(self.assignments@, c@),
                    forall|w: Seq<Option<bool>>| #[trigger] rup_witness(w, c@, db, nv) ==> extends(w, self.assignments@),
                    !changed ==> self.assignments@ == a0 && self.propagation_queue@.len() == q0,
                    !changed ==> forall|j: int| 0 <= j < k && (#[trigger] db[j]) is Some ==> stuck(a0, db[j]->0),
                    changed ==> self.propagation_queue@.len() > 0 && unassigned_count(self.assignments@) < unassigned_count(a0),
                decreases db.len() - k,
            {
                if let Some(clause) = &self.clauses[k] {
                    assert(db[k as int] == Some(clause@));
                    let state = self.check_clause_unit(clause);
                    match state {
                        ClauseState::Conflict => {
                            proof {
                                let cl = clause@;
                                assert forall|w: Seq<Option<bool>>| !#[trigger] rup_witness(w, c@, db, nv) by {
                                    if rup_witness(w, c@, db, nv) {
                                        let a = self.assignments@;
                                        assert forall|i: int| 0 <= i < cl.len() implies #[trigger] lit_value(w, cl[i]) == Some(false) by {
                                            assert(lit_value(a, cl[i]) == Some(false));
                                            assert(a[cl[i].var_of() as int] is Some);
                                        }
                                        assert(stuck(w, cl));
                                        if satisfied(w, cl) {
                                            let i = choose|i: int| 0 <= i < cl.len() && #[trigger] lit_value(w, cl[i]) == Some(true);
                                            assert(lit_value(w, cl[i]) == Some(false));
                                        } else {
                                            let (i, j) = choose|i: int, j: int|
                                                0 <= i < j < cl.len() && #[trigger] lit_value(w, cl[i]) is None && #[trigger] lit_value(w, cl[j]) is None;
                                            assert(lit_value(w, cl[i]) == Some(false));
                                        }
                                    }
                                }
                            }
                            return true;
                        },
                        ClauseState::Unit(unit_lit) => {
                            let var = unit_lit.variable().index() as usize;
                            let val = unit_lit.is_positive();
                            match self.assignments[var] {
                                Some(existing) => {
                                    if existing != val {
                                        return true;
                                    }
                                },
                                None => {
                                    let ghost a = self.assignments@;
                                    let ghost cl = clause@;
                                    proof {
                                        lemma_unassigned_update(a, var as int, val);
                                        assert forall|w: Seq<Option<bool>>| #[trigger] rup_witness(w, c@, db, nv)
                                            implies extends(w, a.update(var as int, Some(val))) by {
                                            assert(extends(w, a));
                                            let i = choose|i: int| 0 <= i < cl.len() && cl[i] == unit_lit && {
                                                &&& lit_value(a, unit_lit) is None
                                                &&& forall|j: int| 0 <= j < cl.len() && j != i ==> #[trigger] lit_value(a, cl[j]) == Some(false)
                                            };
                                            assert forall|j: int| 0 <= j < cl.len() && j != i implies #[trigger] lit_value(w, cl[j]) == Some(false) by {
                                                assert(lit_value(a, cl[j]) == Some(false));
                                                assert(a[cl[j].var_of() as int] is Some);
                                            }
                                            assert(stuck(w, cl));
                                            if satisfied(w, cl) {
                                                let i2 = choose|i2: int| 0 <= i2 < cl.len() && #[trigger] lit_value(w, cl[i2]) == Some(true);
                                                if i2 != i {
                                                    assert(lit_value(w, cl[i2]) == Some(false));
                                                }
                                                assert(lit_value(w, unit_lit) == Some(true));
                                            } else {
                                                let (i2, j2) = choose|i2: int, j2: int|
                                                    0 <= i2 < j2 < cl.len() && #[trigger] lit_value(w, cl[i2]) is None && #[trigger] lit_value(w, cl[j2]) is None;
                                                if i2 != i {
                                                    assert(lit_value(w, cl[i2]) == Some(false));
                                                } else {
                                                    assert(lit_value(w, cl[j2]) == Some(false));
                                                }
                                            }
                                        }
                                    }
                                    self.assignments.set(var, Some(val));
                                    self.propagation_queue.push(unit_lit);
                                    proof {
                                        assert forall|i: int| 0 <= i < c@.len() implies #[trigger] lit_value(self.assignments@, c@[i]) == Some(false) by {
                                            assert(lit_value(a, c@[i]) == Some(false));
                                        }
                                    }
                                    changed = true;
                                },
                            }
                        },
                        ClauseState::Satisfied | ClauseState::Unresolved => {},
                    }
                }
                k = k + 1;
            }
        }
    }

    /// Whether `clause` is RUP with respect to the active clauses.
    pub fn check_rup(&mut self, clause: &[Literal]) -> (r: bool)
        requires
            old(self).wf(),
            db_in_range(old(self).db(), old(self).nv()),
            lits_in_range(clause@, old(self).nv()),
            old(self).counters().rup_checks < u64::MAX,
        ensures
            final(self).wf(),
            final(self).db() == old(self).db(),
            final(self).nv() == old(self).nv(),
            final(self).counters().rup_checks == old(self).counters().rup_checks + 1,
            final(self).counters().clauses_checked == old(self).counters().clauses_checked,
            final(self).counters().deletions_processed == old(self).counters().deletions_processed,
            r == is_rup(clause@, old(self).db(), old(self).nv()),
    {
        self.stats.rup_checks = self.stats.rup_checks + 1;
        let ghost db = self.db();
        let ghost nv = self.nv();
        let ghost c = clause@;
        let mut i: usize = 0;
        while i < self.assignments.len()
            invariant
                self.wf(),
                db == self.db(),
                nv == self.nv(),
                self.clauses == old(self).clauses,
                self.num_vars == old(self).num_vars,
                self.stats == old(self).stats.update_rup(),
                i <= self.assignments@.len(),
                forall|j: int| 0 <= j < i ==> (#[trigger] self.assignments@[j]) is None,
            decreases self.assignments@.len() - i,
        {
            self.assignments.set(i, None);
            i = i + 1;
        }
        self.propagation_queue.clear();
        let mut k: usize = 0;
        while k < clause.len()
            invariant
                self.wf(),
                db == self.db(),
                nv == self.nv(),
                c == clause@,
                lits_in_range(c, nv),
                self.clauses == old(self).clauses,
                self.num_vars == old(self).num_vars,
                self.stats == old(self).stats.update_rup(),
                old(self).stats.rup_checks < u64::MAX,
                k <= c.len(),
                k > 0 ==> self.propagation_queue@.len() > 0,
                k == 0 ==> forall|j: int| 0 <= j < self.assignments@.len() ==> (#[trigger] self.assignments@[j]) is None,
                forall|j: int| 0 <= j < k ==> #[trigger] lit_value(self.assignments@, c[j]) == Some(false),
                forall|w: Seq<Option<bool>>| #[trigger] rup_witness(w, c, db, nv) ==> extends(w, self.assignments@),
            decreases c.len() - k,
        {
            let lit = clause[k];
            let var = lit.variable().index() as usize;
            let val = !lit.is_positive();
            match self.assignments[var] {
                Some(existing) => {
                    if existing != val {
                        proof {
                            assert forall|w: Seq<Option<bool>>| !#[trigger] rup_witness(w, c, db, nv) by {
                                if rup_witness(w, c, db, nv) {
                                    assert(lit_value(w, c[k as int]) == Some(false));
                                    assert(self.assignments@[var as int] is Some);
                                }
                            }
                        }
                        return true;
                    }
                },
                None => {
                    let ghost a = self.assignments@;
                    self.assignments.set(var, Some(val));
                    self.propagation_queue.push(lit.negate());
                    proof {
                        assert forall|j: int| 0 <= j < k + 1 implies #[trigger] lit_value(self.assignments@, c[j]) == Some(false) by {
                            if j < k {
                                assert(lit_value(a, c[j]) == Some(false));
                            }
                        }
                        assert forall|w: Seq<Option<bool>>| #[trigger] rup_witness(w, c, db, nv) implies extends(w, self.assignments@) by {
                            assert(extends(w, a));
                            assert(lit_value(w, c[k as int]) == Some(false));
                        }
                    }
                },
            }
            k = k + 1;
        }
        if clause.len() == 0 {
            // Nothing is assigned: one marker in the queue makes propagation pass over
            // every active clause, so that unit clauses of the database fire.
            self.propagation_queue.push(Literal::from_dimacs(1));
        }
        proof {
            assert forall|i: int| 0 <= i < c.len() implies #[trigger] lit_value(self.assignments@, c[i]) == Some(false) by {}
        }
        self.unit_propagate(Ghost(c))
    }
}

impl VerifyStats {
    /// These counters with one more RUP check.
    pub open spec fn update_rup(self) -> VerifyStats {
        VerifyStats { clauses_checked: self.clauses_checked, deletions_processed: self.deletions_processed, rup_checks: (self.rup_checks + 1) as u64 }
    }
}

/// `o` is an active clause with as many literals as `lits` and the same set of them.
pub open spec fn deletes(o: Option<Seq<Literal>>, lits: Seq<Literal>) -> bool {
    o matches Some(c) && c.len() == lits.len() && c.to_set() == lits.to_set()
}

/// The clauses after deleting the first active clause that `lits` names, if any.
pub open spec fn after_deletion(db: Seq<Option<Seq<Literal>>>, lits: Seq<Literal>) -> Seq<Option<Seq<Literal>>> {
    if exists|k: int| 0 <= k < db.len() && #[trigger] deletes(db[k], lits) {
        let k = choose|k: int| 0 <= k < db.len() && #[trigger] deletes(db[k], lits) && forall|j: int| 0 <= j < k ==> !deletes(db[j], lits);
        db.update(k, None)
    } else {
        db
    }
}

/// Whether `x` occurs in `s`.
fn occurs(s: &[Literal], x: Literal) -> (b: bool)
    ensures
        b == s@.contains(x),
{
    let mut k: usize = 0;
    while k < s.len()
        invariant
            k <= s@.len(),
            forall|j: int| 0 <= j < k ==> s@[j] != x,
        decreases s@.len() - k,
    {
        if s[k] == x {
            return true;
        }
        k = k + 1;
    }
    false
}

/// Whether `a` and `b` hold the same set of literals.
fn same_set(a: &[Literal], b: &[Literal]) -> (r: bool)
    ensures
        r == (a@.to_set() == b@.to_set()),
{
    let mut k: usize = 0;
    while k < a.len()
        invariant
            k <= a@.len(),
            forall|j: int| 0 <= j < k ==> b@.contains(#[trigger] a@[j]),
        decreases a@.len() - k,
    {
        if !occurs(b, a[k]) {
            assert(a@.to_set().contains(a@[k as int]));
            assert(!b@.to_set().contains(a@[k as int]));
            return false;
        }
        k = k + 1;
    }
    let mut k: usize = 0;
    while k < b.len()
        invariant
            k <= b@.len(),
            forall|j: int| 0 <= j < a@.len() ==> b@.contains(#[trigger] a@[j]),
            forall|j: int| 0 <= j < k ==> a@.contains(#[trigger] b@[j]),
        decreases b@.len() - k,
    {
        if !occurs(a, b[k]) {
            assert(b@.to_set().contains(b@[k as int]));
            assert(!a@.to_set().contains(b@[k as int]));
            return false;
        }
        k = k + 1;
    }
    assert(a@.to_set() =~= b@.to_set()) by {
        assert forall|x: Literal| a@.to_set().contains(x) implies b@.to_set().contains(x) by {
            let j = choose|j: int| 0 <= j < a@.len() && a@[j] == x;
            assert(b@.contains(a@[j]));
        }
        assert forall|x: Literal| b@.to_set().contains(x) implies a@.to_set().contains(x) by {
            let j = choose|j: int| 0 <= j < b@.len() && b@[j] == x;
            assert(a@.contains(b@[j]));
        }
    }
    true
}

impl DratVerifier {
    /// Delete the first active clause with the literals of `lits` (as a set, and as many
    /// of them).
    pub fn process_deletion(&mut self, lits: &[Literal])
        ensures
            final(self).db() == after_deletion(old(self).db(), lits@),
            final(self).db().len() == old(self).db().len(),
            forall|j: int| 0 <= j < old(self).db().len() ==> #[trigger] final(self).db()[j] == old(self).db()[j] || final(self).db()[j] is None,
            final(self).nv() == old(self).nv(),
            final(self).counters() == old(self).counters(),
            final(self).wf() == old(self).wf(),
    {
        let ghost db = self.db();
        let mut k: usize = 0;
        while k < self.clauses.len()
            invariant
                db == self.db(),
                db == old(self).db(),
                self.clauses == old(self).clauses,
                self.num_vars == old(self).num_vars,
                self.stats == old(self).stats,
                self.assignments == old(self).assignments,
                k <= db.len(),
                forall|j: int| 0 <= j < k ==> !#[trigger] deletes(db[j], lits@),
            decreases db.len() - k,
        {
            let hit = match &self.clauses[k] {
                Some(c) => c.len() == lits.len() && same_set(c.as_slice(), lits),
                None => false,
            };
            assert(hit == deletes(db[k as int], lits@));
            if hit {
                let ghost before = self.clauses@;
                self.clauses.set(k, None);
                proof {
                    let k0 = choose|j: int| 0 <= j < db.len() && #[trigger] deletes(db[j], lits@) && forall|i: int| 0 <= i < j ==> !deletes(db[i], lits@);
                    if k0 < k {
                        assert(!deletes(db[k0], lits@));
                    } else if k0 > k {
                        assert(!deletes(db[k as int], lits@));
                    }
                    assert(db_of(self.clauses@) =~= db.update(k as int, None));
                }
                return;
            }
            k = k + 1;
        }
    }

    /// Whether an active clause is empty.
    pub fn has_empty_clause(&self) -> (r: bool)
        ensures
            r == exists|k: int| 0 <= k < self.db().len() && ((#[trigger] self.db()[k]) matches Some(c) && c.len() == 0),
    {
        let ghost db = self.db();
        let mut k: usize = 0;
        while k < self.clauses.len()
            invariant
                db == self.db(),
                k <= db.len(),
                forall|j: int| 0 <= j < k ==> !((#[trigger] db[j]) matches Some(c) && c.len() == 0),
            decreases db.len() - k,
        {
            let empty = match &self.clauses[k] {
                Some(c) => c.len() == 0,
                None => false,
            };
            if empty {
                assert(db[k as int] matches Some(c) && c.len() == 0);
                assert(0 <= k < self.db().len() && (self.db()[k as int] matches Some(c) && c.len() == 0));
                return true;
            }
            k = k + 1;
        }
        false
    }

    /// The number of variables.
    pub fn num_vars(&self) -> (n: u32)
        ensures
            n as nat == self.nv(),
    {
        self.num_vars
    }

    /// The counters.
    pub fn stats(&self) -> (s: &VerifyStats)
        ensures
            *s == self.counters(),
    {
        &self.stats
    }

    /// The active clauses, deleted ones as `None`.
    pub fn clauses(&self) -> (c: &Vec<Option<Vec<Literal>>>)
        ensures
            db_of(c@) == self.db(),
    {
        &self.clauses
    }

    /// Add `lits` as an active clause.
    pub fn add_clause(&mut self, lits: Vec<Literal>)
        ensures
            final(self).db() == old(self).db().push(Some(lits@)),
            final(self).nv() == old(self).nv(),
            final(self).counters() == old(self).counters(),
            final(self).wf() == old(self).wf(),
    {
        let ghost before = self.clauses@;
        let ghost l = lits@;
        self.clauses.push(Some(lits));
        assert(db_of(self.clauses@) =~= db_of(before).push(Some(l)));
    }
}

/// The literal whose DIMACS number is `n` (not 0).
pub open spec fn dimacs_lit(n: i32) -> Literal {
    if n > 0 {
        Literal((2 * (n - 1) + 1) as u32)
    } else {
        Literal((2 * (-n - 1)) as u32)
    }
}

/// The literals of the DIMACS numbers `ns`.
pub open spec fn dimacs_lits(ns: Seq<i32>) -> Seq<Literal> {
    ns.map_values(|n: i32| dimacs_lit(n))
}

/// The numbers a line of a CNF or proof text writes: the 32-bit integers among its
/// words, up to the first 0.
pub open spec fn line_numbers(t: Seq<char>) -> Seq<i32> {
    lenient_ints(words(t))
}

proof fn lemma_lenient_nonzero(toks: Seq<Seq<char>>)
    ensures
        forall|i: int| 0 <= i < lenient_ints(toks).len() ==> #[trigger] lenient_ints(toks)[i] != 0,
    decreases toks.len(),
{
    if toks.len() > 0 {
        lemma_lenient_nonzero(toks.drop_first());
        let rest = lenient_ints(toks.drop_first());
        match int_in(toks[0], true, -0x8000_0000, 0x7fff_ffff) {
            None => {},
            Some(v) => {
                if v != 0 {
                    assert forall|i: int| 0 <= i < lenient_ints(toks).len() implies #[trigger] lenient_ints(toks)[i] != 0 by {
                        if i > 0 {
                            assert(lenient_ints(toks)[i] == rest[i - 1]);
                        }
                    }
                }
            },
        }
    }
}

/// The literals of the DIMACS numbers `ns` (none of them 0).
fn literals_of(ns: &Vec<i32>) -> (r: Vec<Literal>)
    requires
        forall|i: int| 0 <= i < ns@.len() ==> #[trigger] ns@[i] != 0,
    ensures
        r@ == dimacs_lits(ns@),
{
    let mut r: Vec<Literal> = Vec::new();
    let mut k: usize = 0;
    while k < ns.len()
        invariant
            k <= ns@.len(),
            forall|i: int| 0 <= i < ns@.len() ==> #[trigger] ns@[i] != 0,
            r@ == dimacs_lits(ns@.take(k as int)),
        decreases ns@.len() - k,
    {
        let l = Literal::from_dimacs(ns[k]);
        assert(l == dimacs_lit(ns@[k as int]));
        r.push(l);
        assert(dimacs_lits(ns@.take(k + 1)) =~= dimacs_lits(ns@.take(k as int)).push(l));
        k = k + 1;
    }
    assert(ns@.take(k as int) =~= ns@);
    r
}

/// `t` without its first character.
fn tail_of(t: &Vec<char>) -> (r: Vec<char>)
    requires
        t@.len() > 0,
    ensures
        r@ == t@.skip(1),
{
    let mut r: Vec<char> = Vec::new();
    let mut k: usize = 1;
    while k < t.len()
        invariant
            1 <= k <= t@.len(),
            r@ == t@.subrange(1, k as int),
        decreases t@.len() - k,
    {
        r.push(t[k]);
        assert(t@.subrange(1, k + 1) =~= t@.subrange(1, k as int).push(t@[k as int]));
        k = k + 1;
    }
    assert(t@.subrange(1, k as int) =~= t@.skip(1));
    r
}

/// The numbers a line writes, and their literals.
fn line_literals(t: &[char]) -> (r: (Vec<i32>, Vec<Literal>))
    ensures
        r.0@ == line_numbers(t@),
        r.1@ == dimacs_lits(line_numbers(t@)),
{
    let ws = split_words(t);
    assert(char_views(ws@) =~= words(t@));
    assert(char_views(ws@).skip(0) =~= char_views(ws@));
    let ns = read_lenient_ints(&ws, 0);
    proof {
        lemma_lenient_nonzero(words(t@));
    }
    let lits = literals_of(&ns);
    (ns, lits)
}

/// What reading a CNF text has given so far, after line `line`: the declared number of
/// variables (a `p` line's third word, 0 when it is not a number) and the clauses'
/// numbers. Blank lines and lines starting with `c` are skipped, as are lines that
/// write no number.
pub open spec fn cnf_step(m: (u32, Seq<Seq<i32>>), line: Seq<char>) -> (u32, Seq<Seq<i32>>) {
    let t = trim(line);
    if t.len() == 0 || t[0] == 'c' {
        m
    } else if t[0] == 'p' {
        let ws = words(t);
        if ws.len() >= 3 {
            (match int_in(ws[2], false, 0, u32::MAX as int) {
                Some(v) => v as u32,
                None => 0u32,
            }, m.1)
        } else {
            m
        }
    } else if line_numbers(t).len() > 0 {
        (m.0, m.1.push(line_numbers(t)))
    } else {
        m
    }
}

/// The result of reading the lines `ls` of a CNF text.
pub open spec fn cnf_read(ls: Seq<Seq<char>>) -> (u32, Seq<Seq<i32>>)
    decreases ls.len(),
{
    if ls.len() == 0 {
        (0u32, Seq::empty())
    } else {
        cnf_step(cnf_read(ls.drop_last()), ls.last())
    }
}

/// The clause database of the clauses' numbers `cs`.
pub open spec fn db_of_numbers(cs: Seq<Seq<i32>>) -> Seq<Option<Seq<Literal>>> {
    cs.map_values(|c: Seq<i32>| Some(dimacs_lits(c)))
}

/// The outcome of checking a proof's lines.
pub enum ProofOutcome {
    Valid,
    Invalid(int, Seq<char>),
    /// A line adds a clause with a variable beyond the checker's variables.
    OutOfRange,
}

/// What checking the lines of a proof from some line on gives: the outcome, the clauses
/// at the end, and how many clauses were accepted, checked and deleted.
pub struct ProofRun {
    pub outcome: ProofOutcome,
    pub db: Seq<Option<Seq<Literal>>>,
    pub accepted: nat,
    pub checked: nat,
    pub deleted: nat,
}

/// The numbers `ns` joined by `, `.
pub open spec fn numbers_joined(ns: Seq<i32>) -> Seq<char>
    decreases ns.len(),
{
    if ns.len() == 0 {
        Seq::empty()
    } else if ns.len() == 1 {
        signed_decimal(ns[0] as int)
    } else {
        numbers_joined(ns.drop_last()) + seq![',', ' '] + signed_decimal(ns.last() as int)
    }
}

/// The reason given for a clause that is not RUP.
pub open spec fn not_rup_reason(ns: Seq<i32>) -> Seq<char> {
    "Clause "@ + seq!['['] + numbers_joined(ns) + seq![']'] + " is not RUP"@
}

/// Whether an active clause of `db` is empty.
pub open spec fn has_empty_db(db: Seq<Option<Seq<Literal>>>) -> bool {
    exists|k: int| 0 <= k < db.len() && ((#[trigger] db[k]) matches Some(c) && c.len() == 0)
}

/// Checking the proof lines `ls` from line `i` on with the active clauses `db`: blank
/// lines are skipped; a line starting with `d` deletes the clause of the numbers after
/// the `d`; any other line adds the clause of its numbers when it is RUP and otherwise
/// ends the check as invalid at that line (counted from 1). At the end the proof is
/// valid when an active clause is empty.
pub open spec fn proof_run(db: Seq<Option<Seq<Literal>>>, nv: nat, ls: Seq<Seq<char>>, i: int) -> ProofRun
    decreases ls.len() - i,
{
    if i < 0 || i >= ls.len() {
        ProofRun {
            outcome: if has_empty_db(db) {
                ProofOutcome::Valid
            } else {
                ProofOutcome::Invalid(0, "Proof does not derive empty clause"@)
            },
            db,
            accepted: 0,
            checked: 0,
            deleted: 0,
        }
    } else {
        let t = trim(ls[i]);
        if t.len() == 0 {
            proof_run(db, nv, ls, i + 1)
        } else if t[0] == 'd' {
            let r = proof_run(after_deletion(db, dimacs_lits(line_numbers(t.skip(1)))), nv, ls, i + 1);
            ProofRun { deleted: r.deleted + 1, ..r }
        } else {
            let ns = line_numbers(t);
            let lits = dimacs_lits(ns);
            if !lits_in_range(lits, nv) {
                ProofRun { outcome: ProofOutcome::OutOfRange, db, accepted: 0, checked: 0, deleted: 0 }
            } else if !is_rup(lits, db, nv) {
                ProofRun { outcome: ProofOutcome::Invalid(i + 1, not_rup_reason(ns)), db, accepted: 0, checked: 1, deleted: 0 }
            } else {
                let r = proof_run(db.push(Some(lits)), nv, ls, i + 1);
                ProofRun { accepted: r.accepted + 1, checked: r.checked + 1, ..r }
            }
        }
    }
}

/// The mathematical form of a [`VerifyResult`].
pub open spec fn result_outcome(r: VerifyResult) -> ProofOutcome {
    match r {
        VerifyResult::Valid => ProofOutcome::Valid,
        VerifyResult::Invalid { line, reason } => ProofOutcome::Invalid(line as int, reason@),
    }
}

/// The reason given for a clause that is not RUP.
fn not_rup_message(ns: &Vec<i32>) -> (m: String)
    ensures
        m@ == not_rup_reason(ns@),
{
    let mut m = String::new();
    m.append("Clause ");
    push_char(&mut m, '[');
    let ghost start = m@;
    let mut k: usize = 0;
    while k < ns.len()
        invariant
            k <= ns@.len(),
            m@ == start + numbers_joined(ns@.take(k as int)),
        decreases ns@.len() - k,
    {
        let ghost before = m@;
        if k > 0 {
            push_char(&mut m, ',');
            push_char(&mut m, ' ');
        }
        push_signed_decimal(&mut m, ns[k]);
        proof {
            let t = ns@.take(k + 1);
            assert(t.drop_last() =~= ns@.take(k as int));
            if k > 0 {
                assert(m@ =~= before + seq![',', ' '] + signed_decimal(ns@[k as int] as int));
            } else {
                assert(m@ =~= before + signed_decimal(ns@[k as int] as int));
            }
        }
        k = k + 1;
    }
    assert(ns@.take(k as int) =~= ns@);
    push_char(&mut m, ']');
    m.append(" is not RUP");
    m
}

impl DratVerifier {
    /// A checker for the CNF text `text`: the variables that its last `p` line declares
    /// and the clauses of its other lines.
    pub fn from_cnf_text(text: &str) -> (v: DratVerifier)
        requires
            cnf_read(lines(text@)).0 < u32::MAX,
        ensures
            v.wf(),
            v.nv() == cnf_read(lines(text@)).0,
            v.db() == db_of_numbers(cnf_read(lines(text@)).1),
            v.counters().clauses_checked == 0 && v.counters().deletions_processed == 0 && v.counters().rup_checks == 0,
    {
        let chars = chars_of(text);
        let ls = split_lines(&chars);
        let ghost all = lines(chars@);
        let mut num_vars: u32 = 0;
        let mut clauses: Vec<Option<Vec<Literal>>> = Vec::new();
        let ghost mut nums: Seq<Seq<i32>> = Seq::empty();
        let mut k: usize = 0;
        assert(all.take(0) =~= Seq::<Seq<char>>::empty());
        assert(db_of(clauses@) =~= db_of_numbers(nums));
        while k < ls.len()
            invariant
                all == lines(text@),
                ls@.len() == all.len(),
                forall|i: int| 0 <= i < ls@.len() ==> (#[trigger] ls@[i])@ == all[i],
                k <= ls@.len(),
                (num_vars, nums) == cnf_read(all.take(k as int)),
                db_of(clauses@) == db_of_numbers(nums),
            decreases ls@.len() - k,
        {
            assert(all.take(k + 1).drop_last() =~= all.take(k as int));
            assert(all.take(k + 1).last() == ls@[k as int]@);
            let t = trimmed(ls[k].as_slice());
            if t.len() == 0 || t[0] == 'c' {
            } else if t[0] == 'p' {
                let ws = split_words(t.as_slice());
                if ws.len() >= 3 {
                    num_vars = match parse_int(ws[2].as_slice(), false, 0, 0xffff_ffff) {
                        Some(v) => v as u32,
                        None => 0,
                    };
                }
            } else {
                let (ns, lits) = line_literals(t.as_slice());
                if ns.len() > 0 {
                    let ghost before = clauses@;
                    let ghost l = lits@;
                    clauses.push(Some(lits));
                    proof {
                        nums = nums.push(ns@);
                        assert(db_of(clauses@) =~= db_of(before).push(Some(l)));
                        assert(db_of(clauses@) =~= db_of_numbers(nums));
                    }
                }
            }
            k = k + 1;
        }
        assert(all.take(k as int) =~= all);
        let mut assignments: Vec<Option<bool>> = Vec::new();
        let mut i: u32 = 0;
        while i <= num_vars
            invariant
                i <= num_vars + 1,
                num_vars < u32::MAX,
                assignments@.len() == i,
            decreases num_vars + 1 - i,
        {
            assignments.push(None);
            i = i + 1;
        }
        DratVerifier {
            clauses,
            num_vars,
            assignments,
            propagation_queue: Vec::new(),
            stats: VerifyStats::default(),
        }
    }
}

impl DratVerifier {
    /// Check the DRAT proof text `proof` against the active clauses, line by line: added
    /// clauses must be RUP and are then added; deleted clauses are removed. The proof is
    /// valid when, after its last line, an active clause is empty.
    pub fn verify_proof_text(&mut self, proof: &str) -> (r: VerifyResult)
        requires
            old(self).wf(),
            db_in_range(old(self).db(), old(self).nv()),
            !(proof_run(old(self).db(), old(self).nv(), lines(proof@), 0).outcome is OutOfRange),
            old(self).counters().rup_checks + lines(proof@).len() <= u64::MAX,
            old(self).counters().clauses_checked + lines(proof@).len() <= u64::MAX,
            old(self).counters().deletions_processed + lines(proof@).len() <= u64::MAX,
        ensures
            ({
                let run = proof_run(old(self).db(), old(self).nv(), lines(proof@), 0);
                &&& result_outcome(r) == run.outcome
                &&& final(self).db() == run.db
                &&& final(self).counters().clauses_checked == old(self).counters().clauses_checked + run.accepted
                &&& final(self).counters().rup_checks == old(self).counters().rup_checks + run.checked
                &&& final(self).counters().deletions_processed == old(self).counters().deletions_processed + run.deleted
            }),
            final(self).nv() == old(self).nv(),
            final(self).wf(),
    {
        let chars = chars_of(proof);
        let ls = split_lines(&chars);
        let ghost all = lines(proof@);
        let ghost run0 = proof_run(self.db(), self.nv(), all, 0);
        let ghost c0 = self.counters();
        let n = ls.len();
        let mut k: usize = 0;
        while k < n
            invariant
                all == lines(proof@),
                n == ls@.len(),
                ls@.len() == all.len(),
                forall|i: int| 0 <= i < ls@.len() ==> (#[trigger] ls@[i])@ == all[i],
                k <= n,
                self.wf(),
                self.nv() == old(self).nv(),
                db_in_range(self.db(), self.nv()),
                ({
                    let run = proof_run(self.db(), self.nv(), all, k as int);
                    &&& run0.outcome == run.outcome
                    &&& run0.db == run.db
                    &&& run0.accepted == (self.counters().clauses_checked - c0.clauses_checked) + run.accepted
                    &&& run0.checked == (self.counters().rup_checks - c0.rup_checks) + run.checked
                    &&& run0.deleted == (self.counters().deletions_processed - c0.deletions_processed) + run.deleted
                }),
                run0 == proof_run(old(self).db(), old(self).nv(), all, 0),
                c0 == old(self).counters(),
                !(run0.outcome is OutOfRange),
                self.counters().rup_checks <= c0.rup_checks + k,
                self.counters().clauses_checked <= c0.clauses_checked + k,
                self.counters().deletions_processed <= c0.deletions_processed + k,
                c0.rup_checks + all.len() <= u64::MAX,
                c0.clauses_checked + all.len() <= u64::MAX,
                c0.deletions_processed + all.len() <= u64::MAX,
            decreases n - k,
        {
            let t = trimmed(ls[k].as_slice());
            if t.len() == 0 {
            } else if t[0] == 'd' {
                let rest = tail_of(&t);
                let (ns, lits) = line_literals(rest.as_slice());
                let ghost db1 = self.db();
                self.process_deletion(lits.as_slice());
                proof {
                    assert forall|j: int| 0 <= j < self.db().len() && (#[trigger] self.db()[j]) is Some implies lits_in_range(self.db()[j]->0, self.nv()) by {
                        assert(self.db()[j] == db1[j] || self.db()[j] is None);
                    }
                }
                self.stats.deletions_processed = self.stats.deletions_processed + 1;
            } else {
                let (ns, lits) = line_literals(t.as_slice());
                let ok = self.check_rup(lits.as_slice());
                if !ok {
                    let reason = not_rup_message(&ns);
                    return VerifyResult::Invalid { line: k + 1, reason };
                }
                self.add_clause(lits);
                self.stats.clauses_checked = self.stats.clauses_checked + 1;
            }
            k = k + 1;
        }
        if self.has_empty_clause() {
            VerifyResult::Valid
        } else {
            VerifyResult::Invalid { line: 0, reason: "Proof does not derive empty clause".to_string() }
        }
    }
}

} // verus!
