//! Clause learning: adding a learned clause with its watches, and statistics.
use vstd::prelude::*;
use crate::clause::{Clause, ClauseRef};
use crate::formula::Formula;
use crate::literal::Literal;
use crate::watch::{WatchLists, Watcher, lists_for};
use crate::solver::propagate::watchers_valid;

verus! {

/// Statistics about learned clauses.
#[derive(Debug, Clone)]
pub struct LearnStats {
    /// The number of clauses learned.
    pub total_learned: u64,
    /// The total number of literals in learned clauses.
    pub total_literals: u64,
    /// The smallest LBD recorded.
    pub min_lbd: u32,
    /// The largest LBD recorded.
    pub max_lbd: u32,
    /// The sum of the LBDs recorded.
    pub sum_lbd: u64,
}

impl Default for LearnStats {
    fn default() -> (s: Self)
        ensures
            s.total_learned == 0,
            s.total_literals == 0,
            s.min_lbd == 0,
            s.max_lbd == 0,
            s.sum_lbd == 0,
    {
        LearnStats { total_learned: 0, total_literals: 0, min_lbd: 0, max_lbd: 0, sum_lbd: 0 }
    }
}

impl LearnStats {
    /// Record a learned clause of `clause_len` literals and LBD `lbd`.
    pub fn record(&mut self, clause_len: usize, lbd: u32)
        requires
            old(self).total_learned < u64::MAX,
            old(self).total_literals + clause_len <= u64::MAX,
            old(self).sum_lbd + lbd <= u64::MAX,
        ensures
            final(self).total_learned == old(self).total_learned + 1,
            final(self).total_literals == old(self).total_literals + clause_len,
            final(self).sum_lbd == old(self).sum_lbd + lbd,
            old(self).total_learned == 0 ==> final(self).min_lbd == lbd && final(self).max_lbd == lbd,
            old(self).total_learned > 0 ==> {
                &&& final(self).min_lbd == if lbd < old(self).min_lbd { lbd } else { old(self).min_lbd }
                &&& final(self).max_lbd == if lbd > old(self).max_lbd { lbd } else { old(self).max_lbd }
            },
    {
        self.total_learned = self.total_learned + 1;
        self.total_literals = self.total_literals + clause_len as u64;
        if self.total_learned == 1 {
            self.min_lbd = lbd;
            self.max_lbd = lbd;
        } else {
            if lbd < self.min_lbd {
                self.min_lbd = lbd;
            }
            if lbd > self.max_lbd {
                self.max_lbd = lbd;
            }
        }
        self.sum_lbd = self.sum_lbd + lbd as u64;
    }
}

/// Every recorded LBD lies between the smallest and the largest recorded.
pub proof fn lemma_record_bounds(before: LearnStats, after: LearnStats, clause_len: usize, lbd: u32)
    requires
        before.total_learned > 0 ==> before.min_lbd <= before.max_lbd,
        after.total_learned == before.total_learned + 1,
        before.total_learned == 0 ==> after.min_lbd == lbd && after.max_lbd == lbd,
        before.total_learned > 0 ==> {
            &&& after.min_lbd == if lbd < before.min_lbd { lbd } else { before.min_lbd }
            &&& after.max_lbd == if lbd > before.max_lbd { lbd } else { before.max_lbd }
        },
    ensures
        after.min_lbd <= lbd <= after.max_lbd,
        after.min_lbd <= after.max_lbd,
        before.total_learned > 0 ==> after.min_lbd <= before.min_lbd && before.max_lbd <= after.max_lbd,
{
}

/// Adding a watcher of a clause with at least two literals keeps every watcher valid.
pub proof fn lemma_add_watch_valid(before: WatchLists, after: WatchLists, lit: Literal, clause: ClauseRef, blocker: Literal, f: Seq<Clause>)
    requires
        watchers_valid(before, f),
        clause < f.len(),
        f[clause as int]@.len() >= 2,
        after.num_lists() == if before.num_lists() <= lit@ { lists_for(lit.var_of()) } else { before.num_lists() },
        after.list_at(lit@ as int) == before.list(lit).push(Watcher { clause, blocker }),
        forall|i: int| 0 <= i < after.num_lists() && i != lit@ ==> after.list_at(i) == if i < before.num_lists() { before.list_at(i) } else { Seq::<Watcher>::empty() },
    ensures
        watchers_valid(after, f),
{
    assert forall|i: int, k: int| 0 <= i < after.num_lists() && 0 <= k < after.list_at(i).len() implies {
        &&& (#[trigger] after.list_at(i)[k]).clause < f.len()
        &&& f[after.list_at(i)[k].clause as int]@.len() >= 2
    } by {
        if i == lit@ {
            if k < before.list(lit).len() {
                assert(after.list_at(i)[k] == before.list(lit)[k]);
                assert(before.list(lit) == before.list_at(i));
            }
        } else if i < before.num_lists() {
            assert(after.list_at(i) == before.list_at(i));
        }
    }
}

/// Add the learned clause `literals` (asserting literal first) with LBD `lbd` to the
/// formula, and watch its first two literals when it has two; returns its position.
pub fn add_learned_clause(literals: Vec<Literal>, lbd: u32, formula: &mut Formula, watches: &mut WatchLists) -> (idx: usize)
    requires
        forall|k: int| 0 <= k < literals@.len() ==> lists_for(#[trigger] literals@[k].var_of()) <= usize::MAX,
        watchers_valid(*old(watches), old(formula).clause_seq()),
    ensures
        idx == old(formula).clause_seq().len(),
        final(formula).clause_seq().len() == old(formula).clause_seq().len() + 1,
        forall|c: int| 0 <= c < idx ==> #[trigger] final(formula).clause_seq()[c] == old(formula).clause_seq()[c],
        final(formula).clause_seq()[idx as int]@ == literals@,
        final(formula).clause_seq()[idx as int].spec_learned(),
        final(formula).clause_seq()[idx as int].spec_lbd() == lbd,
        final(formula).spec_num_original() == old(formula).spec_num_original(),
        final(formula).spec_num_vars() == crate::formula::max_var(literals@, old(formula).spec_num_vars() as nat),
        watchers_valid(*final(watches), final(formula).clause_seq()),
        literals@.len() >= 2 ==> final(watches).watching(literals@[0], idx) && final(watches).watching(literals@[1], idx),
        literals@.len() < 2 ==> *final(watches) == *old(watches),
{
    let n = literals.len();
    let first = if n >= 2 { Some((literals[0], literals[1])) } else { None };
    let mut clause = Clause::new(literals);
    clause.set_learned(true);
    clause.set_lbd(lbd);
    let ghost f0 = formula.clause_seq();
    let clause_idx = formula.add_clause(clause);
    let ghost f1 = formula.clause_seq();
    proof {
        assert forall|i: int, k: int| 0 <= i < watches.num_lists() && 0 <= k < watches.list_at(i).len() implies {
            &&& (#[trigger] watches.list_at(i)[k]).clause < f1.len()
            &&& f1[watches.list_at(i)[k].clause as int]@.len() >= 2
        } by {
            assert(f1[watches.list_at(i)[k].clause as int] == f0[watches.list_at(i)[k].clause as int]);
        }
    }
    if let Some((l0, l1)) = first {
        let ghost w0 = *watches;
        watches.add_watch(l0, clause_idx, l1);
        proof {
            crate::watch::lemma_add_watch_watching(w0, *watches, l0, clause_idx, l1);
            lemma_add_watch_valid(w0, *watches, l0, clause_idx, l1, f1);
        }
        let ghost w1 = *watches;
        watches.add_watch(l1, clause_idx, l0);
        proof {
            crate::watch::lemma_add_watch_watching(w1, *watches, l1, clause_idx, l0);
            lemma_add_watch_valid(w1, *watches, l1, clause_idx, l0, f1);
        }
    }
    clause_idx
}

} // verus!
