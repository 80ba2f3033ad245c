//! Conflict analysis: resolution from the conflict clause back along the trail
//! until one literal of the current decision level remains (the first unique
//! implication point), and the measures of the learned clause.
use vstd::prelude::*;
use vstd::multiset::Multiset;
use crate::assignment::Assignments;
use crate::clause::ClauseRef;
use crate::formula::Formula;
use crate::literal::Literal;
use crate::trail::Trail;
use crate::solver::propagate::{clauses_in_range, reason_ok};
use crate::assignment::Value;

verus! {

/// The result of analysing a conflict.
#[derive(Debug, Clone)]
pub struct ConflictResult {
    /// The learned clause, its asserting literal first.
    pub learned_clause: Vec<Literal>,
    /// The level to backtrack to.
    pub backtrack_level: u32,
    /// The number of distinct decision levels in the learned clause.
    pub lbd: u32,
    /// The (0-based) indices of the variables met during the analysis.
    pub involved_vars: Vec<usize>,
}

/// The decision level of literal `l`'s variable.
pub open spec fn lit_level(a: Assignments, l: Literal) -> u32 {
    a.level_of(l.var_of())
}

/// The decision levels, up to the number of variables, of the literals of `lits`.
pub open spec fn clause_levels(a: Assignments, lits: Seq<Literal>) -> Set<u32> {
    Set::new(|lv: u32| lv <= a@.len() && exists|j: int| 0 <= j < lits.len() && lit_level(a, #[trigger] lits[j]) == lv)
}

/// The highest decision level among the literals of `lits` (0 when empty).
pub open spec fn max_level(a: Assignments, lits: Seq<Literal>) -> u32
    decreases lits.len(),
{
    if lits.len() == 0 {
        0
    } else {
        let m = max_level(a, lits.drop_last());
        let l = lit_level(a, lits.last());
        if l > m { l } else { m }
    }
}

/// The literal block distance of a clause: the number of distinct decision levels among
/// its literals (levels above the number of variables are not counted).
pub fn compute_lbd(clause: &[Literal], assignments: &Assignments) -> (lbd: u32)
    requires
        assignments@.len() < usize::MAX,
        clause@.len() <= u32::MAX,
    ensures
        lbd == clause_levels(*assignments, clause@).len(),
{
    let n = assignments.num_vars() + 1;
    let mut levels_seen: Vec<bool> = Vec::new();
    let mut k: usize = 0;
    while k < n
        invariant
            k <= n,
            levels_seen@.len() == k,
            forall|q: int| 0 <= q < k ==> !levels_seen@[q],
        decreases n - k,
    {
        levels_seen.push(false);
        k = k + 1;
    }
    let mut count: u32 = 0;
    let ghost mut found: Set<u32> = Set::empty();
    let mut i: usize = 0;
    while i < clause.len()
        invariant
            n == assignments@.len() + 1,
            levels_seen@.len() == n,
            i <= clause@.len(),
            clause@.len() <= u32::MAX,
            found.finite(),
            count == found.len(),
            count <= i,
            found == Set::new(|lv: u32| lv <= assignments@.len() && exists|j: int| 0 <= j < i && lit_level(*assignments, #[trigger] clause@[j]) == lv),
            forall|lv: u32| #[trigger] found.contains(lv) <==> (lv < n && levels_seen@[lv as int]),
        decreases clause@.len() - i,
    {
        let level = assignments.level(clause[i].variable());
        let ghost before = found;
        if (level as usize) < levels_seen.len() && !levels_seen[level as usize] {
            levels_seen.set(level as usize, true);
            count = count + 1;
            proof {
                found = found.insert(level);
            }
        }
        proof {
            assert(lit_level(*assignments, clause@[i as int]) == level);
            assert(found =~= Set::new(|lv: u32| lv <= assignments@.len() && exists|j: int| 0 <= j < i + 1 && lit_level(*assignments, #[trigger] clause@[j]) == lv)) by {
                assert forall|lv: u32| (lv <= assignments@.len() && exists|j: int| 0 <= j < i + 1 && lit_level(*assignments, #[trigger] clause@[j]) == lv) implies found.contains(lv) by {
                    let j = choose|j: int| 0 <= j < i + 1 && lit_level(*assignments, #[trigger] clause@[j]) == lv;
                    if j < i {
                        assert(before.contains(lv));
                    }
                }
            }
        }
        i = i + 1;
    }
    count
}

/// The number of `true` entries of `s`.
pub open spec fn count_true(s: Seq<bool>) -> nat
    decreases s.len(),
{
    if s.len() == 0 {
        0
    } else {
        count_true(s.drop_last()) + if s.last() { 1nat } else { 0nat }
    }
}

proof fn lemma_count_true_bound(s: Seq<bool>)
    ensures
        count_true(s) <= s.len(),
    decreases s.len(),
{
    if s.len() > 0 {
        lemma_count_true_bound(s.drop_last());
    }
}

proof fn lemma_count_true_set(s: Seq<bool>, i: int)
    requires
        0 <= i < s.len(),
        !s[i],
    ensures
        count_true(s.update(i, true)) == count_true(s) + 1,
    decreases s.len(),
{
    let t = s.update(i, true);
    if i == s.len() - 1 {
        assert(t.drop_last() =~= s.drop_last());
    } else {
        assert(t.drop_last() =~= s.drop_last().update(i, true));
        lemma_count_true_set(s.drop_last(), i);
    }
}

/// The bookkeeping of an analysis in progress: `seen` marks the variables met, listed
/// once each in `involved`; the learned literals are of seen, distinct variables from
/// earlier decision levels (above 0); at most `involved.len()` literals of the current
/// level are pending.
pub open spec fn analysis_ok(
    seen: Seq<bool>,
    involved: Seq<usize>,
    learnt: Seq<Literal>,
    pending: int,
    a: Assignments,
    current_level: u32,
) -> bool {
    &&& seen.len() == a@.len()
    &&& count_true(seen) == involved.len()
    &&& forall|k: int| 0 <= k < involved.len() ==> (#[trigger] involved[k]) < seen.len() && seen[involved[k] as int]
    &&& forall|j: int, k: int| 0 <= j < k < involved.len() ==> involved[j] != involved[k]
    &&& forall|i: int| 0 <= i < learnt.len() ==> {
        &&& 1 <= (#[trigger] learnt[i]).var_of() <= a@.len()
        &&& seen[learnt[i].var_of() - 1]
        &&& 0 < lit_level(a, learnt[i])
        &&& lit_level(a, learnt[i]) != current_level
    }
    &&& forall|i: int, j: int| 0 <= i < j < learnt.len() ==> (#[trigger] learnt[i]).var_of() != (#[trigger] learnt[j]).var_of()
    &&& learnt.len() <= involved.len()
    &&& 0 <= pending <= involved.len()
}

/// Some variable marked in `seen` is of decision level `level`.
pub open spec fn seen_at_level(seen: Seq<bool>, a: Assignments, level: u32) -> bool {
    exists|v: int| 0 <= v < seen.len() && #[trigger] seen[v] && a.level_of((v + 1) as nat) == level
}

/// Mark the variable of `lit` as met, the first time: a literal of the current level
/// adds to the pending count, one of an earlier level above 0 joins the learned clause.
fn note_literal(
    lit: Literal,
    seen: &mut Vec<bool>,
    involved: &mut Vec<usize>,
    learnt: &mut Vec<Literal>,
    pending: &mut usize,
    assignments: &Assignments,
    current_level: u32,
)
    requires
        analysis_ok(old(seen)@, old(involved)@, old(learnt)@, *old(pending) as int, *assignments, current_level),
        1 <= lit.var_of() <= assignments@.len(),
        assignments.lit_value(lit) == Value::False || old(seen)@[lit.var_of() - 1],
        forall|i: int| 0 <= i < old(learnt)@.len() ==> #[trigger] assignments.lit_value(old(learnt)@[i]) == Value::False,
    ensures
        analysis_ok(final(seen)@, final(involved)@, final(learnt)@, *final(pending) as int, *assignments, current_level),
        forall|i: int| 0 <= i < final(learnt)@.len() ==> #[trigger] assignments.lit_value(final(learnt)@[i]) == Value::False,
        final(seen)@[lit.var_of() - 1],
        forall|x: int| 0 <= x < old(seen)@.len() && old(seen)@[x] ==> final(seen)@[x],
        *final(pending) >= *old(pending),
{
    let var = lit.variable();
    let idx = var.to_index();
    if idx < seen.len() && !seen[idx] {
        let ghost s0 = seen@;
        let ghost inv0 = involved@;
        let ghost l0 = learnt@;
        proof {
            lemma_count_true_set(s0, idx as int);
            lemma_count_true_bound(s0.update(idx as int, true));
        }
        seen.set(idx, true);
        involved.push(idx);
        let level = assignments.level(var);
        if level == current_level {
            *pending = *pending + 1;
        } else if level > 0 {
            learnt.push(lit);
        }
        proof {
            assert forall|k: int| 0 <= k < involved@.len() implies (#[trigger] involved@[k]) < seen@.len() && seen@[involved@[k] as int] by {
                if k < inv0.len() {
                    assert(involved@[k] == inv0[k]);
                }
            }
            assert forall|j: int, k: int| 0 <= j < k < involved@.len() implies involved@[j] != involved@[k] by {
                if k == inv0.len() {
                    assert(s0[inv0[j] as int]);
                }
            }
            assert forall|i: int, j: int| 0 <= i < j < learnt@.len() implies (#[trigger] learnt@[i]).var_of() != (#[trigger] learnt@[j]).var_of() by {
                if j == l0.len() {
                    assert(s0[l0[i].var_of() - 1]);
                }
            }
        }
    }
}

/// Analyse a conflict on clause `conflict_clause` at decision level `current_level`:
/// resolve backwards along the trail until one literal of the current level remains,
/// and learn the clause of that literal's negation and the earlier-level literals met.
pub fn analyze_conflict(
    conflict_clause: ClauseRef,
    formula: &Formula,
    assignments: &Assignments,
    trail: &Trail,
    current_level: u32,
) -> (r: ConflictResult)
    requires
        assignments@.len() < u32::MAX,
        assignments@.len() < usize::MAX,
        conflict_clause < formula.clause_seq().len(),
        clauses_in_range(formula.clause_seq(), assignments@.len()),
        forall|j: int| 0 <= j < trail.lits().len() ==> 1 <= (#[trigger] trail.lits()[j]).var_of() <= assignments@.len(),
        forall|v: nat| #[trigger] assignments.antecedent_of(v) matches Some(c) ==> c < formula.clause_seq().len(),
        current_level > 0 ==> forall|v: nat| 1 <= v <= assignments@.len() && #[trigger] assignments.level_of(v) == current_level
            ==> exists|j: int| 0 <= j < trail.lits().len() && (#[trigger] trail.lits()[j]).var_of() == v,
        forall|j: int| 0 <= j < trail.lits().len() ==> #[trigger] assignments.lit_value(trail.lits()[j]) == Value::True,
        forall|j: int| 0 <= j < trail.lits().len() ==> (assignments.antecedent_of((#[trigger] trail.lits()[j]).var_of()) matches Some(c)
            ==> reason_ok(*assignments, formula.clause_seq()[c as int]@, trail.lits()[j])),
        forall|k: int| 0 <= k < formula.clause_seq()[conflict_clause as int]@.len()
            ==> #[trigger] assignments.lit_value(formula.clause_seq()[conflict_clause as int]@[k]) == Value::False,
    ensures
        forall|i: int| 0 <= i < r.learned_clause@.len() ==> #[trigger] assignments.lit_value(r.learned_clause@[i]) == Value::False,
        current_level > 0 && (exists|i: int| 0 <= i < formula.clause_seq()[conflict_clause as int]@.len()
            && lit_level(*assignments, #[trigger] formula.clause_seq()[conflict_clause as int]@[i]) == current_level) ==> {
            &&& r.learned_clause@.len() > 0
            &&& lit_level(*assignments, r.learned_clause@[0]) == current_level
        },
        forall|k: int| 0 <= k < r.involved_vars@.len() ==> (#[trigger] r.involved_vars@[k]) < assignments@.len(),
        forall|j: int, k: int| 0 <= j < k < r.involved_vars@.len() ==> r.involved_vars@[j] != r.involved_vars@[k],
        forall|i: int| 0 <= i < r.learned_clause@.len() ==> 1 <= (#[trigger] r.learned_clause@[i]).var_of() <= assignments@.len(),
        forall|i: int, j: int| 0 <= i < j < r.learned_clause@.len() ==> (#[trigger] r.learned_clause@[i]).var_of() != (#[trigger] r.learned_clause@[j]).var_of(),
        forall|i: int| 1 <= i < r.learned_clause@.len() ==> {
            &&& 0 < lit_level(*assignments, #[trigger] r.learned_clause@[i])
            &&& lit_level(*assignments, r.learned_clause@[i]) != current_level
        },
        r.learned_clause@.len() > 0 && lit_level(*assignments, r.learned_clause@[0]) == current_level ==>
            exists|j: int| 0 <= j < trail.lits().len() && (#[trigger] trail.lits()[j])@ == r.learned_clause@[0].neg_code(),
        r.backtrack_level == if r.learned_clause@.len() <= 1 { 0 } else { max_level(*assignments, r.learned_clause@.subrange(1, r.learned_clause@.len() as int)) },
        r.lbd == clause_levels(*assignments, r.learned_clause@).len(),
{
    let nv = assignments.num_vars();
    let mut seen: Vec<bool> = Vec::new();
    let mut k: usize = 0;
    while k < nv
        invariant
            k <= nv,
            seen@.len() == k,
            forall|q: int| 0 <= q < k ==> !seen@[q],
        decreases nv - k,
    {
        seen.push(false);
        k = k + 1;
    }
    proof {
        assert(count_true(seen@) == 0) by {
            lemma_count_true_zero(seen@);
        }
    }
    let mut learnt: Vec<Literal> = Vec::new();
    let mut involved_vars: Vec<usize> = Vec::new();
    let mut num_current_level: usize = 0;
    let conflict_lits = formula.clause(conflict_clause).literals();
    let mut c: usize = 0;
    while c < conflict_lits.len()
        invariant
            analysis_ok(seen@, involved_vars@, learnt@, num_current_level as int, *assignments, current_level),
            conflict_lits@ == formula.clause_seq()[conflict_clause as int]@,
            conflict_clause < formula.clause_seq().len(),
            clauses_in_range(formula.clause_seq(), assignments@.len()),
            c <= conflict_lits@.len(),
            (exists|i: int| 0 <= i < c && lit_level(*assignments, #[trigger] conflict_lits@[i]) == current_level)
                ==> seen_at_level(seen@, *assignments, current_level),
            forall|k: int| 0 <= k < conflict_lits@.len() ==> #[trigger] assignments.lit_value(conflict_lits@[k]) == Value::False,
            forall|i: int| 0 <= i < learnt@.len() ==> #[trigger] assignments.lit_value(learnt@[i]) == Value::False,
        decreases conflict_lits@.len() - c,
    {
        let ghost s0 = seen@;
        note_literal(conflict_lits[c], &mut seen, &mut involved_vars, &mut learnt, &mut num_current_level, assignments, current_level);
        proof {
            let l = conflict_lits@[c as int];
            if exists|i: int| 0 <= i < c + 1 && lit_level(*assignments, #[trigger] conflict_lits@[i]) == current_level {
                if lit_level(*assignments, l) == current_level {
                    assert(seen@[l.var_of() - 1]);
                    assert(assignments.level_of(((l.var_of() - 1) + 1) as nat) == current_level);
                } else {
                    let i = choose|i: int| 0 <= i < c + 1 && lit_level(*assignments, #[trigger] conflict_lits@[i]) == current_level;
                    assert(i < c);
                    let v = choose|v: int| 0 <= v < s0.len() && #[trigger] s0[v] && assignments.level_of((v + 1) as nat) == current_level;
                    assert(seen@[v]);
                }
            }
        }
        c = c + 1;
    }
    let ghost hit = exists|i: int| 0 <= i < conflict_lits@.len() && lit_level(*assignments, #[trigger] conflict_lits@[i]) == current_level;
    let mut trail_idx = trail.len();
    while num_current_level > 1
        invariant
            analysis_ok(seen@, involved_vars@, learnt@, num_current_level as int, *assignments, current_level),
            clauses_in_range(formula.clause_seq(), assignments@.len()),
            forall|j: int| 0 <= j < trail.lits().len() ==> 1 <= (#[trigger] trail.lits()[j]).var_of() <= assignments@.len(),
            forall|v: nat| #[trigger] assignments.antecedent_of(v) matches Some(c) ==> c < formula.clause_seq().len(),
            trail_idx <= trail.lits().len(),
            hit ==> seen_at_level(seen@, *assignments, current_level),
            forall|i: int| 0 <= i < learnt@.len() ==> #[trigger] assignments.lit_value(learnt@[i]) == Value::False,
            forall|j: int| 0 <= j < trail.lits().len() ==> #[trigger] assignments.lit_value(trail.lits()[j]) == Value::True,
            forall|j: int| 0 <= j < trail.lits().len() ==> (assignments.antecedent_of((#[trigger] trail.lits()[j]).var_of()) matches Some(c)
                ==> reason_ok(*assignments, formula.clause_seq()[c as int]@, trail.lits()[j])),
        decreases trail_idx,
    {
        if trail_idx == 0 {
            // no literal left to resolve with
            break;
        }
        trail_idx = trail_idx - 1;
        let lit = match trail.get(trail_idx) {
            Some(l) => l,
            None => {
                break;
            },
        };
        assert(lit == trail.lits()[trail_idx as int]);
        let var = lit.variable();
        let idx = var.to_index();
        if idx >= seen.len() || !seen[idx] {
            continue;
        }
        if let Some(antecedent) = assignments.antecedent(var) {
            let ante_lits = formula.clause(antecedent).literals();
            proof {
                assert(trail.lits()[trail_idx as int] == lit);
                assert(reason_ok(*assignments, formula.clause_seq()[antecedent as int]@, lit));
            }
            let mut q: usize = 0;
            while q < ante_lits.len()
                invariant
                    analysis_ok(seen@, involved_vars@, learnt@, num_current_level as int, *assignments, current_level),
                    ante_lits@ == formula.clause_seq()[antecedent as int]@,
                    antecedent < formula.clause_seq().len(),
                    clauses_in_range(formula.clause_seq(), assignments@.len()),
                    q <= ante_lits@.len(),
                    num_current_level >= 2,
                    hit ==> seen_at_level(seen@, *assignments, current_level),
                    forall|i: int| 0 <= i < learnt@.len() ==> #[trigger] assignments.lit_value(learnt@[i]) == Value::False,
                    reason_ok(*assignments, ante_lits@, lit),
                    1 <= lit.var_of() <= assignments@.len(),
                    seen@[lit.var_of() - 1],
                decreases ante_lits@.len() - q,
            {
                let ghost before = num_current_level;
                let ghost s0 = seen@;
                proof {
                    if ante_lits@[q as int] != lit {
                        assert(assignments.lit_value(ante_lits@[q as int]) == Value::False);
                    } else {
                        assert(s0[ante_lits@[q as int].var_of() - 1]);
                    }
                }
                proof {
                    if hit {
                        let v = choose|v: int| 0 <= v < s0.len() && #[trigger] s0[v] && assignments.level_of((v + 1) as nat) == current_level;
                    }
                }
                note_literal(ante_lits[q], &mut seen, &mut involved_vars, &mut learnt, &mut num_current_level, assignments, current_level);
                proof {
                    if hit {
                        let v = choose|v: int| 0 <= v < s0.len() && #[trigger] s0[v] && assignments.level_of((v + 1) as nat) == current_level;
                        assert(seen@[v]);
                    }
                }
                q = q + 1;
            }
        }
        num_current_level = num_current_level - 1;
    }
    let mut uip_lit: Option<Literal> = None;
    let mut idx = trail_idx;
    while idx > 0
        invariant
            idx <= trail_idx <= trail.lits().len(),
            seen@.len() == assignments@.len(),
            forall|j: int| 0 <= j < trail.lits().len() ==> 1 <= (#[trigger] trail.lits()[j]).var_of() <= assignments@.len(),
            uip_lit matches Some(u) ==> lit_level(*assignments, u) == current_level && seen@[u.var_of() - 1]
                && exists|j: int| 0 <= j < trail.lits().len() && (#[trigger] trail.lits()[j])@ == u.neg_code(),
            uip_lit matches Some(u) ==> assignments.lit_value(u) == Value::False,
            forall|j: int| 0 <= j < trail.lits().len() ==> #[trigger] assignments.lit_value(trail.lits()[j]) == Value::True,
            uip_lit is None ==> forall|j: int| idx <= j < trail_idx ==>
                !(seen@[(#[trigger] trail.lits()[j]).var_of() - 1] && lit_level(*assignments, trail.lits()[j]) == current_level),
            hit ==> seen_at_level(seen@, *assignments, current_level),
        ensures
            trail_idx <= trail.lits().len(),
            seen@.len() == assignments@.len(),
            uip_lit matches Some(u) ==> lit_level(*assignments, u) == current_level && seen@[u.var_of() - 1]
                && exists|j: int| 0 <= j < trail.lits().len() && (#[trigger] trail.lits()[j])@ == u.neg_code(),
            uip_lit matches Some(u) ==> assignments.lit_value(u) == Value::False,
            forall|j: int| 0 <= j < trail.lits().len() ==> #[trigger] assignments.lit_value(trail.lits()[j]) == Value::True,
            uip_lit is None ==> forall|j: int| 0 <= j < trail_idx ==>
                !(seen@[(#[trigger] trail.lits()[j]).var_of() - 1] && lit_level(*assignments, trail.lits()[j]) == current_level),
            hit ==> seen_at_level(seen@, *assignments, current_level),
        decreases idx,
    {
        idx = idx - 1;
        let lit = trail.get(idx).unwrap();
        let var = lit.variable();
        let var_idx = var.to_index();
        if var_idx < seen.len() && seen[var_idx] && assignments.level(var) == current_level {
            let u = lit.negate();
            proof {
                crate::literal::lemma_negate_involutive(lit);
                assert(trail.lits()[idx as int] == lit);
                assert(lit@ == u.neg_code());
                assert(assignments.lit_value(lit) == Value::True);
            }
            uip_lit = Some(u);
            break;
        }
    }
    if uip_lit.is_none() {
        let mut idx = trail_idx;
        while idx < trail.len()
            invariant
                trail_idx <= idx <= trail.lits().len(),
                seen@.len() == assignments@.len(),
                forall|j: int| 0 <= j < trail.lits().len() ==> 1 <= (#[trigger] trail.lits()[j]).var_of() <= assignments@.len(),
                uip_lit matches Some(u) ==> lit_level(*assignments, u) == current_level && seen@[u.var_of() - 1]
                    && exists|j: int| 0 <= j < trail.lits().len() && (#[trigger] trail.lits()[j])@ == u.neg_code(),
                uip_lit matches Some(u) ==> assignments.lit_value(u) == Value::False,
                forall|j: int| 0 <= j < trail.lits().len() ==> #[trigger] assignments.lit_value(trail.lits()[j]) == Value::True,
                uip_lit is None ==> forall|j: int| 0 <= j < idx ==>
                    !(seen@[(#[trigger] trail.lits()[j]).var_of() - 1] && lit_level(*assignments, trail.lits()[j]) == current_level),
                hit ==> seen_at_level(seen@, *assignments, current_level),
            ensures
                seen@.len() == assignments@.len(),
                uip_lit matches Some(u) ==> lit_level(*assignments, u) == current_level && seen@[u.var_of() - 1]
                    && exists|j: int| 0 <= j < trail.lits().len() && (#[trigger] trail.lits()[j])@ == u.neg_code(),
                uip_lit matches Some(u) ==> assignments.lit_value(u) == Value::False,
                uip_lit is None ==> forall|j: int| 0 <= j < trail.lits().len() ==>
                    !(seen@[(#[trigger] trail.lits()[j]).var_of() - 1] && lit_level(*assignments, trail.lits()[j]) == current_level),
                hit ==> seen_at_level(seen@, *assignments, current_level),
            decreases trail.lits().len() - idx,
        {
            let lit = trail.get(idx).unwrap();
            let var = lit.variable();
            let var_idx = var.to_index();
            if var_idx < seen.len() && seen[var_idx] && assignments.level(var) == current_level {
                let u = lit.negate();
                proof {
                    crate::literal::lemma_negate_involutive(lit);
                    assert(trail.lits()[idx as int] == lit);
                    assert(lit@ == u.neg_code());
                    assert(assignments.lit_value(lit) == Value::True);
                }
                uip_lit = Some(u);
                break;
            }
            idx = idx + 1;
        }
    }
    proof {
        if current_level > 0 && hit && uip_lit is None {
            let v = choose|v: int| 0 <= v < seen@.len() && #[trigger] seen@[v] && assignments.level_of((v + 1) as nat) == current_level;
            let j = choose|j: int| 0 <= j < trail.lits().len() && (#[trigger] trail.lits()[j]).var_of() == (v + 1) as nat;
            assert(!(seen@[trail.lits()[j].var_of() - 1] && lit_level(*assignments, trail.lits()[j]) == current_level));
        }
    }
    let ghost l0 = learnt@;
    if let Some(uip) = uip_lit {
        learnt.insert(0, uip);
        proof {
            assert(learnt@ == seq![uip] + l0);
            assert forall|i: int, j: int| 0 <= i < j < learnt@.len() implies (#[trigger] learnt@[i]).var_of() != (#[trigger] learnt@[j]).var_of() by {
                if i == 0 {
                    assert(learnt@[j] == l0[j - 1]);
                } else {
                    assert(learnt@[i] == l0[i - 1]);
                    assert(learnt@[j] == l0[j - 1]);
                }
            }
            assert forall|i: int| 1 <= i < learnt@.len() implies {
                &&& 0 < lit_level(*assignments, #[trigger] learnt@[i])
                &&& lit_level(*assignments, learnt@[i]) != current_level
            } by {
                assert(learnt@[i] == l0[i - 1]);
            }
            assert forall|i: int| 0 <= i < learnt@.len() implies 1 <= (#[trigger] learnt@[i]).var_of() <= assignments@.len() by {
                if i > 0 {
                    assert(learnt@[i] == l0[i - 1]);
                }
            }
            assert forall|i: int| 0 <= i < learnt@.len() implies #[trigger] assignments.lit_value(learnt@[i]) == Value::False by {
                if i > 0 {
                    assert(learnt@[i] == l0[i - 1]);
                }
            }
        }
    } else {
        proof {
            assert forall|i: int| 1 <= i < learnt@.len() implies {
                &&& 0 < lit_level(*assignments, #[trigger] learnt@[i])
                &&& lit_level(*assignments, learnt@[i]) != current_level
            } by {
            }
            if learnt@.len() > 0 {
                assert(lit_level(*assignments, learnt@[0]) != current_level);
            }
        }
    }
    proof {
        lemma_count_true_bound(seen@);
    }
    let backtrack_level = if learnt.len() <= 1 {
        0
    } else {
        let mut m: u32 = 0;
        let mut i: usize = 1;
        proof {
            assert(learnt@.subrange(1, 1) =~= Seq::<Literal>::empty());
        }
        while i < learnt.len()
            invariant
                1 <= i <= learnt@.len(),
                m == max_level(*assignments, learnt@.subrange(1, i as int)),
            decreases learnt@.len() - i,
        {
            let l = assignments.level(learnt[i].variable());
            proof {
                assert(learnt@.subrange(1, i + 1).drop_last() =~= learnt@.subrange(1, i as int));
                assert(learnt@.subrange(1, i + 1).last() == learnt@[i as int]);
            }
            if l > m {
                m = l;
            }
            i = i + 1;
        }
        m
    };
    let lbd = compute_lbd(learnt.as_slice(), assignments);
    ConflictResult { learned_clause: learnt, backtrack_level, lbd, involved_vars }
}

proof fn lemma_count_true_zero(s: Seq<bool>)
    requires
        forall|q: int| 0 <= q < s.len() ==> !s[q],
    ensures
        count_true(s) == 0,
    decreases s.len(),
{
    if s.len() > 0 {
        lemma_count_true_zero(s.drop_last());
    }
}

/// Whether some literal of `lits` has variable `v`.
pub open spec fn has_var(lits: Seq<Literal>, v: nat) -> bool {
    exists|j: int| 0 <= j < lits.len() && (#[trigger] lits[j]).var_of() == v
}

/// Whether the literal at position `i` of `clause` is implied by the others: its variable
/// has an antecedent whose other literals' variables all occur in `clause`.
pub open spec fn dominated(clause: Seq<Literal>, i: int, f: Formula, a: Assignments) -> bool {
    let v = clause[i].var_of();
    a.antecedent_of(v) matches Some(c) && forall|k: int| 0 <= k < f.clause_seq()[c as int]@.len()
        && (#[trigger] f.clause_seq()[c as int]@[k]).var_of() != v ==> has_var(clause, f.clause_seq()[c as int]@[k].var_of())
}

/// Whether minimisation keeps the literal at position `i` of `clause`: the first one
/// always, the others when they are not dominated.
pub open spec fn keeps(clause: Seq<Literal>, i: int, f: Formula, a: Assignments) -> bool {
    i == 0 || !dominated(clause, i, f, a)
}

/// The literals of `clause` that minimisation keeps, from position `lo` on, in order.
pub open spec fn kept_from(clause: Seq<Literal>, lo: int, f: Formula, a: Assignments) -> Seq<Literal>
    decreases clause.len() - lo,
{
    if lo < 0 || lo >= clause.len() {
        Seq::empty()
    } else {
        (if keeps(clause, lo, f, a) { seq![clause[lo]] } else { Seq::empty() }) + kept_from(clause, lo + 1, f, a)
    }
}

/// Removing position `i` by moving the last element there takes `v[i]` out of the
/// multiset.
proof fn lemma_swap_remove_multiset(v: Seq<Literal>, i: int)
    requires
        0 <= i < v.len(),
    ensures
        v.update(i, v.last()).drop_last().to_multiset() =~= v.to_multiset().remove(v[i]),
{
    broadcast use vstd::seq_lib::group_to_multiset_ensures, vstd::multiset::group_multiset_axioms;
    let u = v.update(i, v.last());
    let w = u.drop_last();
    assert(u =~= w.push(v.last()));
    assert(u.to_multiset() == v.to_multiset().insert(v.last()).remove(v[i]));
    assert(w.to_multiset().insert(v.last()) == u.to_multiset());
    assert(v.contains(v[i]));
    assert(v.to_multiset().count(v[i]) > 0);
    assert forall|z: Literal| #[trigger] w.to_multiset().count(z) == v.to_multiset().remove(v[i]).count(z) by {
        assert(w.to_multiset().insert(v.last()).count(z) == u.to_multiset().count(z));
    }
}

/// Taking position `i` into the prefix or the kept suffix: the multiset of the prefix up
/// to `i` and the kept literals after `i` grows by `clause[i]` exactly when it is kept.
proof fn lemma_kept_step(clause: Seq<Literal>, i: int, f: Formula, a: Assignments)
    requires
        0 <= i < clause.len(),
    ensures
        clause.take(i + 1).to_multiset() =~= clause.take(i).to_multiset().insert(clause[i]),
        kept_from(clause, i, f, a).to_multiset() =~= if keeps(clause, i, f, a) {
            kept_from(clause, i + 1, f, a).to_multiset().insert(clause[i])
        } else {
            kept_from(clause, i + 1, f, a).to_multiset()
        },
{
    broadcast use vstd::seq_lib::group_to_multiset_ensures, vstd::multiset::group_multiset_axioms,
        vstd::seq_lib::lemma_multiset_commutative;
    assert(clause.take(i + 1) =~= clause.take(i).push(clause[i]));
    let rest = kept_from(clause, i + 1, f, a);
    if keeps(clause, i, f, a) {
        assert(kept_from(clause, i, f, a) == seq![clause[i]] + rest);
        assert(seq![clause[i]].to_multiset() =~= Multiset::<Literal>::empty().insert(clause[i])) by {
            assert(seq![clause[i]] =~= Seq::<Literal>::empty().push(clause[i]));
        }
    } else {
        assert(kept_from(clause, i, f, a) =~= rest);
    }
}

/// Remove from a learned clause the literals, other than the first, implied by the others
/// through their antecedents (clauses of at most two literals are left alone).
pub fn minimize_clause(clause: &mut Vec<Literal>, formula: &Formula, assignments: &Assignments)
    requires
        forall|v: nat| #[trigger] assignments.antecedent_of(v) matches Some(c) ==> c < formula.clause_seq().len(),
    ensures
        old(clause)@.len() <= 2 ==> final(clause)@ == old(clause)@,
        old(clause)@.len() > 2 ==> final(clause)@[0] == old(clause)@[0],
        final(clause)@.len() <= old(clause)@.len(),
        forall|i: int| 0 <= i < final(clause)@.len() ==> old(clause)@.contains(#[trigger] final(clause)@[i]),
        forall|i: int| 1 <= i < old(clause)@.len() && !dominated(old(clause)@, i, *formula, *assignments)
            ==> final(clause)@.contains(#[trigger] old(clause)@[i]),
        old(clause)@.len() > 2 ==> final(clause)@.to_multiset() == kept_from(old(clause)@, 0, *formula, *assignments).to_multiset(),
{
    if clause.len() <= 2 {
        return;
    }
    let ghost orig = clause@;
    let n = clause.len();
    let mut dominated_at: Vec<bool> = Vec::new();
    let mut k: usize = 0;
    while k < n
        invariant
            k <= n,
            dominated_at@.len() == k,
            forall|q: int| 0 <= q < k ==> !dominated_at@[q],
        decreases n - k,
    {
        dominated_at.push(false);
        k = k + 1;
    }
    let mut i: usize = 1;
    while i < n
        invariant
            n == clause@.len(),
            clause@ == orig,
            1 <= i <= n,
            dominated_at@.len() == n,
            !dominated_at@[0],
            forall|q: int| 0 <= q < n && dominated_at@[q] ==> dominated(orig, q, *formula, *assignments),
            forall|q: int| 1 <= q < i ==> dominated_at@[q] == dominated(orig, q, *formula, *assignments),
            forall|q: int| i <= q < n ==> !dominated_at@[q],
            forall|v: nat| #[trigger] assignments.antecedent_of(v) matches Some(c) ==> c < formula.clause_seq().len(),
        decreases n - i,
    {
        let var = clause[i].variable();
        if let Some(antecedent) = assignments.antecedent(var) {
            let ante = formula.clause(antecedent).literals();
            let mut all_in_clause = true;
            let mut a: usize = 0;
            while a < ante.len()
                invariant
                    ante@ == formula.clause_seq()[antecedent as int]@,
                    clause@ == orig,
                    var.0 == orig[i as int].var_of(),
                    a <= ante@.len(),
                    all_in_clause == forall|t: int| 0 <= t < a && (#[trigger] ante@[t]).var_of() != var.0 ==> has_var(orig, ante@[t].var_of()),
                decreases ante@.len() - a,
            {
                let ante_var = ante[a].variable();
                if ante_var.0 != var.0 {
                    let mut found = false;
                    let mut j: usize = 0;
                    while j < clause.len()
                        invariant
                            clause@ == orig,
                            j <= orig.len(),
                            found == exists|t: int| 0 <= t < j && (#[trigger] orig[t]).var_of() == ante_var.0 as nat,
                        decreases orig.len() - j,
                    {
                        if clause[j].variable().0 == ante_var.0 {
                            found = true;
                        }
                        j = j + 1;
                    }
                    if !found {
                        all_in_clause = false;
                    }
                }
                a = a + 1;
            }
            if all_in_clause {
                dominated_at.set(i, true);
            }
        }
        assert(dominated_at@[i as int] == dominated(orig, i as int, *formula, *assignments));
        i = i + 1;
    }
    proof {
        broadcast use vstd::multiset::group_multiset_axioms, vstd::seq_lib::group_to_multiset_ensures;
        assert(orig.take(n as int) =~= orig);
        assert(kept_from(orig, n as int, *formula, *assignments) =~= Seq::<Literal>::empty());
        assert(Seq::<Literal>::empty().to_multiset() =~= Multiset::<Literal>::empty());
        assert(clause@.to_multiset() =~= orig.take(n as int).to_multiset().add(kept_from(orig, n as int, *formula, *assignments).to_multiset()));
    }
    let mut i = n - 1;
    while i >= 1
        invariant
            0 <= i < n,
            n == orig.len(),
            dominated_at@.len() == n,
            !dominated_at@[0],
            forall|q: int| 0 <= q < n && dominated_at@[q] ==> dominated(orig, q, *formula, *assignments),
            forall|q: int| 1 <= q < n ==> dominated_at@[q] == dominated(orig, q, *formula, *assignments),
            clause@.len() <= i + 1 + (n - 1 - i),
            clause@.len() >= i + 1,
            forall|q: int| 0 <= q <= i ==> #[trigger] clause@[q] == orig[q],
            forall|q: int| 0 <= q < clause@.len() ==> orig.contains(#[trigger] clause@[q]),
            forall|q: int| i < q < n && !dominated_at@[q] ==> clause@.contains(#[trigger] orig[q]),
            clause@.to_multiset() =~= orig.take(i + 1).to_multiset().add(kept_from(orig, i + 1, *formula, *assignments).to_multiset()),
        decreases i,
    {
        proof {
            lemma_kept_step(orig, i as int, *formula, *assignments);
            assert(dominated_at@[i as int] == dominated(orig, i as int, *formula, *assignments));
        }
        if dominated_at[i] {
            let ghost c0 = clause@;
            clause.swap_remove(i);
            proof {
                broadcast use vstd::multiset::group_multiset_axioms;
                lemma_swap_remove_multiset(c0, i as int);
                assert(c0[i as int] == orig[i as int]);
                assert(clause@.to_multiset() =~= orig.take(i as int).to_multiset().add(kept_from(orig, i as int, *formula, *assignments).to_multiset()));
                assert forall|q: int| 0 <= q < clause@.len() implies orig.contains(#[trigger] clause@[q]) by {
                    if q == i {
                        assert(clause@[q] == c0.last());
                        assert(orig.contains(c0[c0.len() - 1]));
                    } else {
                        assert(clause@[q] == c0[q]);
                        assert(orig.contains(c0[q]));
                    }
                }
                assert forall|q: int| i < q < n && !dominated_at@[q] implies clause@.contains(#[trigger] orig[q]) by {
                    assert(c0.contains(orig[q]));
                    let p = choose|p: int| 0 <= p < c0.len() && c0[p] == orig[q];
                    if p == i {
                        assert(c0[p] == orig[i as int]);
                        assert(dominated(orig, i as int, *formula, *assignments) == dominated(orig, q, *formula, *assignments));
                    } else if p == c0.len() - 1 {
                        assert(clause@[i as int] == orig[q]);
                    } else {
                        assert(clause@[p] == orig[q]);
                    }
                }
            }
        } else {
            proof {
                broadcast use vstd::multiset::group_multiset_axioms;
                assert(clause@.contains(orig[i as int])) by {
                    assert(clause@[i as int] == orig[i as int]);
                }
                assert(clause@.to_multiset() =~= orig.take(i as int).to_multiset().add(kept_from(orig, i as int, *formula, *assignments).to_multiset()));
            }
        }
        i = i - 1;
    }
    proof {
        broadcast use vstd::multiset::group_multiset_axioms;
        lemma_kept_step(orig, 0, *formula, *assignments);
        assert(orig.take(0) =~= Seq::<Literal>::empty());
        assert(orig.take(0).to_multiset() =~= Multiset::<Literal>::empty()) by {
            broadcast use vstd::seq_lib::group_to_multiset_ensures;
        }
    }
}

} // verus!
