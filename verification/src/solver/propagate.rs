//! Unit propagation with two watched literals.
use vstd::prelude::*;
use crate::assignment::{Assignments, AssignmentInfo, Value, count_assigned, lemma_count_assigned_bound, lemma_count_assigned_update};
use crate::clause::{Clause, ClauseRef};
use crate::formula::Formula;
use crate::literal::Literal;
use crate::trail::Trail;
use crate::watch::{WatchLists, Watcher, lists_for};

verus! {

/// Every literal of every clause names one of the variables `1..=nv`.
pub open spec fn clauses_in_range(f: Seq<Clause>, nv: nat) -> bool {
    forall|c: int, k: int| 0 <= c < f.len() && 0 <= k < f[c]@.len() ==> 1 <= (#[trigger] f[c]@[k]).var_of() <= nv
}

/// Every watcher refers to a clause of the formula with at least two literals.
pub open spec fn watchers_valid(w: WatchLists, f: Seq<Clause>) -> bool {
    forall|i: int, k: int| 0 <= i < w.num_lists() && 0 <= k < w.list_at(i).len() ==> {
        &&& (#[trigger] w.list_at(i)[k]).clause < f.len()
        &&& f[w.list_at(i)[k].clause as int]@.len() >= 2
    }
}

/// Every literal on the trail is true.
pub open spec fn trail_true(a: Assignments, t: Seq<Literal>) -> bool {
    forall|j: int| 0 <= j < t.len() ==> a.lit_value(#[trigger] t[j]) == Value::True
}

/// Every literal of `lits` but the one at position `p` is false.
pub open spec fn false_except(a: Assignments, lits: Seq<Literal>, p: int) -> bool {
    forall|k: int| 0 <= k < lits.len() && k != p ==> #[trigger] a.lit_value(lits[k]) == Value::False
}

/// `l` is the one literal of clause `c` that is not false under `a`: `c` holds `l` and
/// every other literal of `c` is false.
pub open spec fn reason_ok(a: Assignments, c: Seq<Literal>, l: Literal) -> bool {
    &&& c.contains(l)
    &&& forall|k: int| 0 <= k < c.len() && c[k] != l ==> #[trigger] a.lit_value(c[k]) == Value::False
}

/// Every literal of `t` from position `from` on that has an antecedent is implied by it:
/// the antecedent is a clause of `f` whose other literals are false under `a`.
pub open spec fn reasons_hold(a: Assignments, t: Seq<Literal>, from: int, f: Seq<Clause>) -> bool {
    forall|j: int| from <= j < t.len() ==> (a.antecedent_of((#[trigger] t[j]).var_of()) matches Some(c)
        ==> c < f.len() && reason_ok(a, f[c as int]@, t[j]))
}

/// What a scan of a clause found.
enum Scan {
    /// Some literal is true.
    True,
    /// Every literal is false.
    AllFalse,
    /// Every literal but the one at this position is false, and that one is unassigned.
    Unit(usize),
    /// Two or more literals are unassigned, and none is true.
    Open,
}

/// Scan the literals of a clause under `assignments`.
fn scan_clause(assignments: &Assignments, lits: &[Literal]) -> (r: Scan)
    ensures
        r is AllFalse ==> forall|k: int| 0 <= k < lits@.len() ==> #[trigger] assignments.lit_value(lits@[k]) == Value::False,
        r matches Scan::Unit(p) ==> {
            &&& p < lits@.len()
            &&& assignments.lit_value(lits@[p as int]) == Value::Unassigned
            &&& forall|k: int| 0 <= k < lits@.len() && k != p ==> #[trigger] assignments.lit_value(lits@[k]) == Value::False
        },
{
    let mut unit: Option<usize> = None;
    let mut k: usize = 0;
    while k < lits.len()
        invariant
            k <= lits@.len(),
            unit matches Some(p) ==> p < k && assignments.lit_value(lits@[p as int]) == Value::Unassigned,
            forall|q: int| 0 <= q < k && !(unit matches Some(p) && q == p) ==> #[trigger] assignments.lit_value(lits@[q]) == Value::False,
        decreases lits@.len() - k,
    {
        if assignments.is_satisfied(lits[k]) {
            return Scan::True;
        }
        if !assignments.is_falsified(lits[k]) {
            if unit.is_some() {
                return Scan::Open;
            }
            unit = Some(k);
        }
        k = k + 1;
    }
    match unit {
        Some(p) => Scan::Unit(p),
        None => Scan::AllFalse,
    }
}

/// What propagation guarantees of a new state `(a, t)` grown from `(a0, t0)`: the old
/// trail is a prefix of the new one, assigned variables keep their assignment, the
/// trail stays true, and every literal added to the trail is implied at `level` by a
/// clause of `f` recorded as its antecedent.
pub open spec fn grown_by_propagation(a0: Assignments, t0: Trail, a: Assignments, t: Trail, f: Seq<Clause>, level: u32) -> bool {
    &&& a@.len() == a0@.len()
    &&& forall|i: int| 0 <= i < a0@.len() && !(a0@[i].value is Unassigned) ==> #[trigger] a@[i] == a0@[i]
    &&& t.wf()
    &&& t.starts() == t0.starts()
    &&& t0.lits().len() <= t.lits().len()
    &&& t.lits().subrange(0, t0.lits().len() as int) == t0.lits()
    &&& trail_true(a, t.lits())
    &&& forall|j: int| t0.lits().len() <= j < t.lits().len() ==> {
        let l = #[trigger] t.lits()[j];
        &&& a0.lit_value(l) == Value::Unassigned
        &&& a.level_of(l.var_of()) == level
        &&& a.antecedent_of(l.var_of()) matches Some(c) && c < f.len()
    }
    &&& count_assigned(a@) - count_assigned(a0@) == t.lits().len() - t0.lits().len()
    &&& forall|i: int| 0 <= i < a0@.len() ==> #[trigger] a@[i] == a0@[i] || (a0@[i].value is Unassigned && !(a@[i].value is Unassigned))
    &&& forall|j: int, k: int| t0.lits().len() <= j < k < t.lits().len() ==> (#[trigger] t.lits()[j]).var_of() != (#[trigger] t.lits()[k]).var_of()
    &&& forall|v: nat| 1 <= v <= a0@.len() && !(#[trigger] a.value_of(v) is Unassigned) && a0.value_of(v) is Unassigned ==>
        exists|j: int| t0.lits().len() <= j < t.lits().len() && (#[trigger] t.lits()[j]).var_of() == v
}

/// Give the `i`-th watcher of `lit` a new blocker.
fn renew_blocker(watches: &mut WatchLists, lit: Literal, i: usize, blocker: Literal, f: Ghost<Seq<Clause>>)
    requires
        watchers_valid(*old(watches), f@),
        i < old(watches).list(lit).len(),
    ensures
        watchers_valid(*final(watches), f@),
        final(watches).num_lists() == old(watches).num_lists(),
        final(watches).list(lit).len() == old(watches).list(lit).len(),
        final(watches).list(lit) == old(watches).list(lit).update(i as int, Watcher { clause: old(watches).list(lit)[i as int].clause, blocker }),
        forall|j: int| 0 <= j < final(watches).num_lists() && j != lit@ ==> final(watches).list_at(j) == old(watches).list_at(j),
{
    let ghost w0 = *watches;
    watches.set_blocker(lit, i, blocker);
    proof {
        assert forall|a: int, k: int| 0 <= a < watches.num_lists() && 0 <= k < watches.list_at(a).len() implies {
            &&& (#[trigger] watches.list_at(a)[k]).clause < f@.len()
            &&& f@[watches.list_at(a)[k].clause as int]@.len() >= 2
        } by {
            if a != lit@ {
                assert(watches.list_at(a) == w0.list_at(a));
            } else if k != i {
                assert(watches.list_at(a)[k] == w0.list_at(a)[k]);
            }
        }
    }
}

/// Move the `i`-th watcher of `from`, which watches clause `clause`, to the list of `to`.
fn move_watcher(watches: &mut WatchLists, from: Literal, i: usize, to: Literal, clause: ClauseRef, blocker: Literal, f: Ghost<Seq<Clause>>, nv: Ghost<nat>)
    requires
        watchers_valid(*old(watches), f@),
        i < old(watches).list(from).len(),
        clause < f@.len(),
        f@[clause as int]@.len() >= 2,
        to != from,
        1 <= to.var_of() <= nv@,
        lists_for(nv@) <= usize::MAX,
    ensures
        watchers_valid(*final(watches), f@),
        final(watches).num_lists() >= old(watches).num_lists(),
        final(watches).list(from).len() == old(watches).list(from).len() - 1,
{
    proof {
        assert(lists_for(to.var_of()) <= lists_for(nv@));
    }
    let ghost w0 = *watches;
    watches.swap_remove_watch(from, i);
    let ghost w1 = *watches;
    watches.add_watch(to, clause, blocker);
    proof {
        assert forall|a: int, q: int| 0 <= a < watches.num_lists() && 0 <= q < watches.list_at(a).len() implies {
            &&& (#[trigger] watches.list_at(a)[q]).clause < f@.len()
            &&& f@[watches.list_at(a)[q].clause as int]@.len() >= 2
        } by {
            if a == to@ {
                if q < w1.list(to).len() {
                    assert(watches.list_at(a)[q] == w1.list(to)[q]);
                    assert(w1.list_at(a) == w0.list_at(a));
                }
            } else if a < w1.num_lists() {
                assert(watches.list_at(a) == w1.list_at(a));
                if a != from@ {
                    assert(w1.list_at(a) == w0.list_at(a));
                } else {
                    let old_list = w0.list(from);
                    if q == i {
                        assert(w1.list_at(a)[q] == old_list.last());
                    } else {
                        assert(w1.list_at(a)[q] == old_list[q]);
                    }
                }
            }
        }
        assert(from@ < w1.num_lists());
        assert(watches.list(from) == w1.list(from));
    }
}

/// Assign `lit` true at the trail's level with `reason` as antecedent, and push it.
fn enqueue(
    assignments: &mut Assignments,
    trail: &mut Trail,
    propagation_count: &mut u64,
    lit: Literal,
    reason: ClauseRef,
    a_start: Ghost<Assignments>,
    t_start: Ghost<Trail>,
    count_start: Ghost<u64>,
    f: Ghost<Seq<Clause>>,
    level: Ghost<u32>,
)
    requires
        grown_by_propagation(a_start@, t_start@, *old(assignments), *old(trail), f@, level@),
        old(assignments).wf(),
        old(trail).level() == level@,
        old(assignments).order_count() - a_start@.order_count() == old(trail).lits().len() - t_start@.lits().len(),
        a_start@.order_count() + a_start@@.len() < u32::MAX,
        count_start@ + a_start@@.len() <= u64::MAX,
        *old(propagation_count) == count_start@ + old(trail).lits().len() - t_start@.lits().len(),
        count_assigned(a_start@@) <= count_assigned(old(assignments)@) <= a_start@@.len(),
        1 <= lit.var_of() <= a_start@@.len(),
        old(assignments).lit_value(lit) == Value::Unassigned,
        reason < f@.len(),
    ensures
        grown_by_propagation(a_start@, t_start@, *final(assignments), *final(trail), f@, level@),
        final(assignments).wf(),
        final(trail).head() == old(trail).head(),
        final(trail).lits() == old(trail).lits().push(lit),
        final(assignments).order_count() - a_start@.order_count() == final(trail).lits().len() - t_start@.lits().len(),
        *final(propagation_count) == count_start@ + final(trail).lits().len() - t_start@.lits().len(),
        count_assigned(final(assignments)@) == count_assigned(old(assignments)@) + 1,
        count_assigned(final(assignments)@) <= a_start@@.len(),
        forall|l: Literal| #[trigger] old(assignments).lit_value(l) != Value::Unassigned ==> final(assignments).lit_value(l) == old(assignments).lit_value(l),
        final(assignments).antecedent_of(lit.var_of()) == Some(reason),
        forall|v: nat| v != lit.var_of() ==> #[trigger] final(assignments).antecedent_of(v) == old(assignments).antecedent_of(v),
{
    let var = lit.variable();
    let val = lit.is_positive();
    let lvl = trail.current_level();
    let ghost a0 = *assignments;
    let ghost t0 = *trail;
    proof {
        lemma_count_assigned_bound(assignments@);
    }
    assignments.assign(var, val, lvl, Some(reason));
    trail.push(lit);
    *propagation_count = *propagation_count + 1;
    proof {
        let vi = var.0 - 1;
        assert(a0@[vi as int].value is Unassigned);
        assert(assignments@ == a0@.update(vi as int, assignments@[vi as int]));
        lemma_count_assigned_update(a0@, vi as int, assignments@[vi as int]);
        lemma_count_assigned_bound(assignments@);
        assert(assignments.lit_value(lit) == Value::True);
        assert forall|l: Literal| #[trigger] a0.lit_value(l) != Value::Unassigned implies assignments.lit_value(l) == a0.lit_value(l) by {
            if 1 <= l.var_of() <= a0@.len() {
                assert(assignments@[l.var_of() - 1] == a0@[l.var_of() - 1]);
            }
        }
        assert forall|j: int| 0 <= j < trail.lits().len() implies assignments.lit_value(#[trigger] trail.lits()[j]) == Value::True by {
            if j < t0.lits().len() {
                assert(trail.lits()[j] == t0.lits()[j]);
                assert(a0.lit_value(t0.lits()[j]) == Value::True);
            }
        }
        assert forall|q: int| 0 <= q < a_start@@.len() && !(a_start@@[q].value is Unassigned)
            implies #[trigger] assignments@[q] == a_start@@[q] by {
            assert(a0@[q] == a_start@@[q]);
        }
        assert forall|q: int| 0 <= q < a_start@@.len() implies #[trigger] assignments@[q] == a_start@@[q]
            || (a_start@@[q].value is Unassigned && !(assignments@[q].value is Unassigned)) by {
            if q != vi {
                assert(assignments@[q] == a0@[q]);
                assert(a0@[q] == a_start@@[q] || (a_start@@[q].value is Unassigned && !(a0@[q].value is Unassigned)));
            } else {
                assert(a0@[q] == a_start@@[q] || (a_start@@[q].value is Unassigned && !(a0@[q].value is Unassigned)));
            }
        }
        assert forall|j: int| t_start@.lits().len() <= j < trail.lits().len() implies {
            let l = #[trigger] trail.lits()[j];
            &&& a_start@.lit_value(l) == Value::Unassigned
            &&& assignments.level_of(l.var_of()) == level@
            &&& assignments.antecedent_of(l.var_of()) matches Some(c) && c < f@.len()
        } by {
            let l = trail.lits()[j];
            if j < t0.lits().len() {
                assert(l == t0.lits()[j]);
                assert(a0.lit_value(l) == Value::True);
                assert(assignments@[l.var_of() - 1] == a0@[l.var_of() - 1]);
            } else {
                assert(l == lit);
                if !(a_start@@[vi as int].value is Unassigned) {
                    assert(a0@[vi as int] == a_start@@[vi as int]);
                }
            }
        }
        assert(trail.lits().subrange(0, t_start@.lits().len() as int) =~= t_start@.lits()) by {
            assert(t0.lits().subrange(0, t_start@.lits().len() as int) == t_start@.lits());
        }
        assert forall|j: int, k: int| t_start@.lits().len() <= j < k < trail.lits().len() implies (#[trigger] trail.lits()[j]).var_of() != (#[trigger] trail.lits()[k]).var_of() by {
            if k == t0.lits().len() {
                assert(trail.lits()[j] == t0.lits()[j]);
                assert(a0.lit_value(t0.lits()[j]) == Value::True);
            } else {
                assert(trail.lits()[j] == t0.lits()[j]);
                assert(trail.lits()[k] == t0.lits()[k]);
            }
        }
        assert forall|v: nat| 1 <= v <= a_start@@.len() && !(#[trigger] assignments.value_of(v) is Unassigned) && a_start@.value_of(v) is Unassigned implies
            exists|j: int| t_start@.lits().len() <= j < trail.lits().len() && (#[trigger] trail.lits()[j]).var_of() == v by {
            if v == lit.var_of() {
                assert(trail.lits()[t0.lits().len() as int] == lit);
            } else {
                assert(assignments@[v - 1] == a0@[v - 1]);
                assert(!(a0.value_of(v) is Unassigned));
                let j = choose|j: int| t_start@.lits().len() <= j < t0.lits().len() && (#[trigger] t0.lits()[j]).var_of() == v;
                assert(trail.lits()[j] == t0.lits()[j]);
            }
        }
    }
}

/// Propagate the trail's unprocessed literals through the watch lists until every
/// literal is processed or a clause has all its literals false but the one at position
/// 0 or 1 that it was watched through; that clause is returned.
pub fn propagate(
    formula: &Formula,
    assignments: &mut Assignments,
    trail: &mut Trail,
    watches: &mut WatchLists,
    propagation_count: &mut u64,
) -> (r: Option<ClauseRef>)
    requires
        old(trail).wf(),
        old(assignments).wf(),
        clauses_in_range(formula.clause_seq(), old(assignments)@.len()),
        lists_for(old(assignments)@.len()) <= usize::MAX,
        old(assignments).order_count() + old(assignments)@.len() < u32::MAX,
        *old(propagation_count) + old(assignments)@.len() <= u64::MAX,
        watchers_valid(*old(watches), formula.clause_seq()),
        trail_true(*old(assignments), old(trail).lits()),
        forall|j: int| 0 <= j < old(trail).lits().len() ==> 1 <= (#[trigger] old(trail).lits()[j]).var_of() <= old(assignments)@.len(),
    ensures
        grown_by_propagation(*old(assignments), *old(trail), *final(assignments), *final(trail), formula.clause_seq(), old(trail).level() as u32),
        final(assignments).wf(),
        watchers_valid(*final(watches), formula.clause_seq()),
        final(watches).num_lists() >= old(watches).num_lists(),
        *final(propagation_count) == *old(propagation_count) + final(trail).lits().len() - old(trail).lits().len(),
        final(assignments).order_count() == old(assignments).order_count() + final(trail).lits().len() - old(trail).lits().len(),
        r is None ==> final(trail).head() == final(trail).lits().len(),
        reasons_hold(*final(assignments), final(trail).lits(), old(trail).lits().len() as int, formula.clause_seq()),
        r matches Some(c) ==> {
            &&& c < formula.clause_seq().len()
            &&& formula.clause_seq()[c as int]@.len() >= 2
            &&& forall|k: int| 0 <= k < formula.clause_seq()[c as int]@.len()
                ==> #[trigger] final(assignments).lit_value(formula.clause_seq()[c as int]@[k]) == Value::False
        },
{
    let ghost f = formula.clause_seq();
    let ghost nv = assignments@.len();
    let ghost level = trail.level() as u32;
    proof {
        lemma_count_assigned_bound(assignments@);
        assert(trail.lits().subrange(0, trail.lits().len() as int) =~= trail.lits());
    }
    while trail.peek_propagate().is_some()
        invariant
            f == formula.clause_seq(),
            nv == old(assignments)@.len(),
            level == old(trail).level() as u32,
            grown_by_propagation(*old(assignments), *old(trail), *assignments, *trail, f, level),
            reasons_hold(*assignments, trail.lits(), old(trail).lits().len() as int, f),
            assignments.wf(),
            assignments.order_count() - old(assignments).order_count() == trail.lits().len() - old(trail).lits().len(),
            clauses_in_range(f, nv),
            lists_for(nv) <= usize::MAX,
            old(assignments).order_count() + nv < u32::MAX,
            *old(propagation_count) + nv <= u64::MAX,
            *propagation_count == *old(propagation_count) + trail.lits().len() - old(trail).lits().len(),
            watchers_valid(*watches, f),
            watches.num_lists() >= old(watches).num_lists(),
            forall|j: int| 0 <= j < trail.lits().len() ==> 1 <= (#[trigger] trail.lits()[j]).var_of() <= nv,
            count_assigned(old(assignments)@) <= count_assigned(assignments@) <= nv,
        decreases nv - count_assigned(assignments@), trail.lits().len() - trail.head(),
    {
        let lit = *trail.peek_propagate().unwrap();
        let false_lit = lit.negate();
        let ghost head0 = trail.head();
        let ghost count0 = count_assigned(assignments@);
        proof {
            assert(trail.lits()[head0 as int] == lit);
            assert(assignments.lit_value(lit) == Value::True);
            assert(assignments.lit_value(false_lit) == Value::False);
        }
        let mut i: usize = 0;
        while i < watches.watches(false_lit).len()
            invariant
                f == formula.clause_seq(),
                nv == old(assignments)@.len(),
                level == old(trail).level() as u32,
                grown_by_propagation(*old(assignments), *old(trail), *assignments, *trail, f, level),
                reasons_hold(*assignments, trail.lits(), old(trail).lits().len() as int, f),
                assignments.wf(),
                assignments.order_count() - old(assignments).order_count() == trail.lits().len() - old(trail).lits().len(),
                clauses_in_range(f, nv),
                lists_for(nv) <= usize::MAX,
                old(assignments).order_count() + nv < u32::MAX,
                *old(propagation_count) + nv <= u64::MAX,
                *propagation_count == *old(propagation_count) + trail.lits().len() - old(trail).lits().len(),
                watchers_valid(*watches, f),
                watches.num_lists() >= old(watches).num_lists(),
                forall|j: int| 0 <= j < trail.lits().len() ==> 1 <= (#[trigger] trail.lits()[j]).var_of() <= nv,
                count_assigned(old(assignments)@) <= count0 <= count_assigned(assignments@) <= nv,
                trail.head() == head0,
                head0 < trail.lits().len(),
                trail.lits()[head0 as int] == lit,
                false_lit.var_of() == lit.var_of() && false_lit.pos() == !lit.pos(),
                assignments.lit_value(false_lit) == Value::False,
                i <= watches.list(false_lit).len(),
            decreases nv - count_assigned(assignments@), watches.list(false_lit).len() - i,
        {
            let watcher = watches.watches(false_lit)[i];
            let clause_ref = watcher.clause;
            let blocker = watcher.blocker;
            proof {
                assert(false_lit@ < watches.num_lists());
                assert(watches.list_at(false_lit@ as int)[i as int] == watcher);
            }
            if assignments.is_satisfied(blocker) {
                i = i + 1;
                continue;
            }
            let clause = formula.clause(clause_ref);
            let lits = clause.literals();
            let watch1: usize = if lits[0] == false_lit { 1 } else { 0 };
            let watch0: usize = 1 - watch1;
            let other_watch = lits[watch1];
            if assignments.is_satisfied(other_watch) {
                renew_blocker(watches, false_lit, i, other_watch, Ghost(f));
                i = i + 1;
                continue;
            }
            let mut found_new = false;
            let mut k: usize = 2;
            while k < lits.len()
                invariant
                    lits@ == f[clause_ref as int]@,
                    2 <= k <= lits@.len(),
                    forall|q: int| 2 <= q < k ==> #[trigger] assignments.lit_value(lits@[q]) == Value::False,
                ensures
                    2 <= k <= lits@.len(),
                    forall|q: int| 2 <= q < k ==> #[trigger] assignments.lit_value(lits@[q]) == Value::False,
                    k < lits@.len() ==> assignments.lit_value(lits@[k as int]) != Value::False,
                decreases lits@.len() - k,
            {
                if !assignments.is_falsified(lits[k]) {
                    break;
                }
                k = k + 1;
            }
            if k < lits.len() {
                let new_lit = lits[k];
                proof {
                    assert(1 <= new_lit.var_of() <= nv);
                    assert(new_lit != false_lit);
                }
                move_watcher(watches, false_lit, i, new_lit, clause_ref, other_watch, Ghost(f), Ghost(nv));
                found_new = true;
            }
            if found_new {
                continue;
            }
            match scan_clause(assignments, lits) {
                Scan::AllFalse => {
                    trail.advance_propagate();
                    proof {
                        assert(trail.lits().subrange(0, old(trail).lits().len() as int) == old(trail).lits());
                    }
                    return Some(clause_ref);
                },
                Scan::Unit(p) => {
                    let unit_lit = lits[p];
                    proof {
                        assert(1 <= unit_lit.var_of() <= nv);
                    }
                    let ghost a1 = *assignments;
                    let ghost t1 = trail.lits();
                    enqueue(assignments, trail, propagation_count, unit_lit, clause_ref,
                        Ghost(*old(assignments)), Ghost(*old(trail)), Ghost(*old(propagation_count)), Ghost(f), Ghost(level));
                    proof {
                        let c = f[clause_ref as int]@;
                        assert(c[p as int] == unit_lit);
                        assert forall|j: int| old(trail).lits().len() <= j < trail.lits().len() implies
                            (assignments.antecedent_of((#[trigger] trail.lits()[j]).var_of()) matches Some(c2)
                                ==> c2 < f.len() && reason_ok(*assignments, f[c2 as int]@, trail.lits()[j])) by {
                            let l = trail.lits()[j];
                            if j < t1.len() {
                                assert(l == t1[j]);
                                assert(a1.lit_value(l) == Value::True);
                                assert(l.var_of() != unit_lit.var_of());
                                if let Some(c2) = a1.antecedent_of(l.var_of()) {
                                    let cc = f[c2 as int]@;
                                    assert forall|k: int| 0 <= k < cc.len() && cc[k] != l implies #[trigger] assignments.lit_value(cc[k]) == Value::False by {
                                        assert(a1.lit_value(cc[k]) == Value::False);
                                    }
                                }
                            } else {
                                assert(l == unit_lit);
                                assert forall|k: int| 0 <= k < c.len() && c[k] != l implies #[trigger] assignments.lit_value(c[k]) == Value::False by {
                                    assert(a1.lit_value(c[k]) == Value::False);
                                }
                            }
                        }
                    }
                    i = i + 1;
                },
                _ => {
                    i = i + 1;
                },
            }
        }
        trail.advance_propagate();
    }
    None
}

} // verus!
