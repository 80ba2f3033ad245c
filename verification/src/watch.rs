//! Watch lists for the two-watched-literal scheme.
//!
//! The watch list of a literal holds the clauses that currently watch it;
//! when the literal becomes false, those clauses are visited.
use vstd::prelude::*;
use crate::clause::{Clause, ClauseRef};
use crate::literal::Literal;

verus! {

/// An entry of a watch list.
#[derive(Debug, Clone, Copy)]
pub struct Watcher {
    /// The watching clause.
    pub clause: ClauseRef,
    /// The other watched literal, checked first: when it is true the clause is satisfied.
    pub blocker: Literal,
}

impl Watcher {
    /// Create a watcher.
    pub fn new(clause: ClauseRef, blocker: Literal) -> (w: Self)
        ensures
            w.clause == clause,
            w.blocker == blocker,
    {
        Watcher { clause, blocker }
    }
}

/// Total number of watchers in `s`.
pub open spec fn total_len(s: Seq<Seq<Watcher>>) -> nat
    decreases s.len(),
{
    if s.len() == 0 {
        0
    } else {
        total_len(s.drop_last()) + s.last().len()
    }
}

/// Replacing one list changes the total by the change of that list's length.
proof fn lemma_total_len_update(s: Seq<Seq<Watcher>>, i: int, w: Seq<Watcher>)
    requires
        0 <= i < s.len(),
    ensures
        total_len(s.update(i, w)) == total_len(s) - s[i].len() + w.len(),
    decreases s.len(),
{
    if i == s.len() - 1 {
        assert(s.update(i, w).drop_last() =~= s.drop_last());
    } else {
        lemma_total_len_update(s.drop_last(), i, w);
        assert(s.update(i, w).drop_last() =~= s.drop_last().update(i, w));
    }
}

/// Appending empty lists adds no watcher.
proof fn lemma_total_len_empties(s: Seq<Seq<Watcher>>, t: Seq<Seq<Watcher>>)
    requires
        forall|i: int| 0 <= i < t.len() ==> (#[trigger] t[i]).len() == 0,
    ensures
        total_len(s + t) == total_len(s),
    decreases t.len(),
{
    if t.len() > 0 {
        lemma_total_len_empties(s, t.drop_last());
        assert((s + t).drop_last() =~= s + t.drop_last());
    } else {
        assert(s + t =~= s);
    }
}

/// The number of clauses of `cs` with at least two literals.
pub open spec fn long_count(cs: Seq<Clause>) -> nat
    decreases cs.len(),
{
    if cs.len() == 0 {
        0
    } else {
        long_count(cs.drop_last()) + if cs.last()@.len() >= 2 { 1nat } else { 0nat }
    }
}

/// The number of watch lists needed for `num_vars` variables: one per literal, plus one spare variable.
pub open spec fn lists_for(num_vars: nat) -> nat {
    2 * (num_vars + 1)
}

/// Watch lists, indexed by literal code.
#[derive(Debug)]
pub struct WatchLists {
    watches: Vec<Vec<Watcher>>,
}

impl WatchLists {
    /// The number of watch lists.
    pub closed spec fn num_lists(&self) -> nat {
        self.watches@.len()
    }

    /// The watch list at position `i`.
    pub closed spec fn list_at(&self, i: int) -> Seq<Watcher> {
        self.watches@[i]@
    }

    /// All watch lists, by literal code.
    pub open spec fn all_lists(&self) -> Seq<Seq<Watcher>> {
        Seq::new(self.num_lists(), |i: int| self.list_at(i))
    }

    /// The watch list of literal `l` (empty when the table has no list for it).
    pub open spec fn list(&self, l: Literal) -> Seq<Watcher> {
        if l@ < self.num_lists() {
            self.list_at(l@ as int)
        } else {
            Seq::empty()
        }
    }

    /// Whether clause `c` is in the watch list of `l`.
    pub open spec fn watching(&self, l: Literal, c: ClauseRef) -> bool {
        exists|k: int| 0 <= k < self.list(l).len() && self.list(l)[k].clause == c
    }

    /// Empty watch lists for `num_vars` variables.
    pub fn new(num_vars: u32) -> (w: Self)
        requires
            lists_for(num_vars as nat) <= usize::MAX,
        ensures
            w.all_lists() == Seq::new(lists_for(num_vars as nat), |i: int| Seq::<Watcher>::empty()),
    {
        let size = 2 * (num_vars as usize + 1);
        let mut watches: Vec<Vec<Watcher>> = Vec::new();
        while watches.len() < size
            invariant
                watches@.len() <= size,
                forall|i: int| 0 <= i < watches@.len() ==> (#[trigger] watches@[i])@ == Seq::<Watcher>::empty(),
            decreases size - watches.len(),
        {
            watches.push(Vec::new());
        }
        let w = WatchLists { watches };
        assert(w.all_lists() =~= Seq::new(lists_for(num_vars as nat), |i: int| Seq::<Watcher>::empty()));
        w
    }

    /// Grow to hold the lists of `num_vars` variables; existing lists are kept.
    pub fn resize(&mut self, num_vars: u32)
        requires
            lists_for(num_vars as nat) <= usize::MAX,
        ensures
            final(self).num_lists() == if old(self).num_lists() < lists_for(num_vars as nat) { lists_for(num_vars as nat) } else { old(self).num_lists() },
            forall|i: int| 0 <= i < old(self).num_lists() ==> final(self).list_at(i) == old(self).list_at(i),
            forall|i: int| old(self).num_lists() <= i < final(self).num_lists() ==> final(self).list_at(i) == Seq::<Watcher>::empty(),
    {
        let size = 2 * (num_vars as usize + 1);
        while self.watches.len() < size
            invariant
                self.num_lists() >= old(self).num_lists(),
                self.num_lists() <= if old(self).num_lists() < size { size as nat } else { old(self).num_lists() },
                forall|i: int| 0 <= i < old(self).num_lists() ==> self.list_at(i) == old(self).list_at(i),
                forall|i: int| old(self).num_lists() <= i < self.num_lists() ==> self.list_at(i) == Seq::<Watcher>::empty(),
            decreases size - self.watches.len(),
        {
            let ghost before = self.watches@;
            let ghost pre = *self;
            assert(forall|i: int| 0 <= i < before.len() ==> pre.list_at(i) == before[i]@);
            let e: Vec<Watcher> = Vec::new();
            assert(e@ == Seq::<Watcher>::empty());
            self.watches.push(e);
            assert(self.watches@ == before.push(e));
            assert(self.watches@[before.len() as int]@ == Seq::<Watcher>::empty());
            assert forall|i: int| old(self).num_lists() <= i < self.num_lists() implies self.list_at(i) == Seq::<Watcher>::empty() by {
                if i < before.len() {
                    assert(self.watches@[i] == before[i]);
                    assert(pre.list_at(i) == Seq::<Watcher>::empty());
                }
            }
        }
    }

    /// Add clause `clause` with blocker `blocker` to the watch list of `lit`.
    pub fn add_watch(&mut self, lit: Literal, clause: ClauseRef, blocker: Literal)
        requires
            lists_for(lit.var_of()) <= usize::MAX,
        ensures
            final(self).num_lists() == if old(self).num_lists() <= lit@ { lists_for(lit.var_of()) } else { old(self).num_lists() },
            final(self).list_at(lit@ as int) == old(self).list(lit).push(Watcher { clause, blocker }),
            forall|i: int| 0 <= i < final(self).num_lists() && i != lit@ ==> final(self).list_at(i) == if i < old(self).num_lists() { old(self).list_at(i) } else { Seq::<Watcher>::empty() },
    {
        let idx = lit.index();
        if idx >= self.watches.len() {
            self.resize(lit.variable().index());
        }
        let ghost mid = self.watches@;
        let ghost mid_w = *self;
        assert(mid_w.list_at(idx as int) == old(self).list(lit));
        assert(forall|i: int| 0 <= i < mid.len() ==> mid_w.list_at(i) == mid[i]@);
        self.watches[idx].push(Watcher::new(clause, blocker));
        assert(self.watches@.len() == mid.len());
        assert(self.watches@[idx as int]@ == mid[idx as int]@.push(Watcher { clause, blocker }));
        assert forall|i: int| 0 <= i < self.num_lists() && i != lit@ implies self.list_at(i) == if i < old(self).num_lists() { old(self).list_at(i) } else { Seq::<Watcher>::empty() } by {
            assert(self.watches@[i] == mid[i]);
            assert(mid_w.list_at(i) == mid[i]@);
        }
    }

    /// Replace the blocker of the `i`-th watcher of `lit`.
    pub(crate) fn set_blocker(&mut self, lit: Literal, i: usize, blocker: Literal)
        requires
            i < old(self).list(lit).len(),
        ensures
            final(self).num_lists() == old(self).num_lists(),
            final(self).list_at(lit@ as int) == old(self).list(lit).update(i as int, Watcher { clause: old(self).list(lit)[i as int].clause, blocker }),
            forall|j: int| 0 <= j < final(self).num_lists() && j != lit@ ==> final(self).list_at(j) == old(self).list_at(j),
    {
        let idx = lit.index();
        let ghost mid = self.watches@;
        let clause = self.watches[idx][i].clause;
        self.watches[idx].set(i, Watcher { clause, blocker });
        assert forall|j: int| 0 <= j < self.num_lists() && j != lit@ implies self.list_at(j) == old(self).list_at(j) by {
            assert(self.watches@[j] == mid[j]);
        }
    }

    /// Remove the `i`-th watcher of `lit`, moving the last one into its place.
    pub(crate) fn swap_remove_watch(&mut self, lit: Literal, i: usize) -> (w: Watcher)
        requires
            i < old(self).list(lit).len(),
        ensures
            w == old(self).list(lit)[i as int],
            final(self).num_lists() == old(self).num_lists(),
            final(self).list_at(lit@ as int) == old(self).list(lit).update(i as int, old(self).list(lit).last()).drop_last(),
            forall|j: int| 0 <= j < final(self).num_lists() && j != lit@ ==> final(self).list_at(j) == old(self).list_at(j),
    {
        let idx = lit.index();
        let ghost mid = self.watches@;
        let w = self.watches[idx].swap_remove(i);
        assert forall|j: int| 0 <= j < self.num_lists() && j != lit@ implies self.list_at(j) == old(self).list_at(j) by {
            assert(self.watches@[j] == mid[j]);
        }
        w
    }

    /// Remove every watcher of clause `clause` from the watch list of `lit`.
    pub fn remove_watch(&mut self, lit: Literal, clause: ClauseRef)
        ensures
            final(self).num_lists() == old(self).num_lists(),
            lit@ < old(self).num_lists() ==> final(self).list_at(lit@ as int) == old(self).list_at(lit@ as int).filter(|w: Watcher| w.clause != clause),
            forall|i: int| 0 <= i < old(self).num_lists() && i != lit@ ==> final(self).list_at(i) == old(self).list_at(i),
    {
        let idx = lit.index();
        if idx < self.watches.len() {
            let mut old_list: Vec<Watcher> = Vec::new();
            std::mem::swap(&mut old_list, &mut self.watches[idx]);
            let ghost ol = old_list@;
            let mut kept: Vec<Watcher> = Vec::new();
            let mut k: usize = 0;
            while k < old_list.len()
                invariant
                    ol == old_list@,
                    k <= ol.len(),
                    kept@ == ol.take(k as int).filter(|w: Watcher| w.clause != clause),
                decreases ol.len() - k,
            {
                reveal_with_fuel(Seq::filter, 1);
                assert(ol.take(k + 1).drop_last() =~= ol.take(k as int));
                let w = old_list[k];
                if w.clause != clause {
                    kept.push(w);
                }
                k = k + 1;
            }
            assert(ol.take(ol.len() as int) =~= ol);
            self.watches.set(idx, kept);
        }
    }

    /// The watch list of `lit` (empty when there is none).
    pub fn watches(&self, lit: Literal) -> (r: &[Watcher])
        ensures
            r@ == self.list(lit),
    {
        let idx = lit.index();
        if idx < self.watches.len() {
            self.watches[idx].as_slice()
        } else {
            &[]
        }
    }

    /// Mutable access to the watch list of `lit`, created if missing.
    pub fn watches_mut(&mut self, lit: Literal) -> (r: &mut Vec<Watcher>)
        requires
            lists_for(lit.var_of()) <= usize::MAX,
        ensures
            r@ == old(self).list(lit),
            final(self).num_lists() == if old(self).num_lists() <= lit@ { lists_for(lit.var_of()) } else { old(self).num_lists() },
            final(self).list_at(lit@ as int) == final(r)@,
    {
        let idx = lit.index();
        if idx >= self.watches.len() {
            self.resize(lit.variable().index());
        }
        let ghost mid_w = *self;
        assert(mid_w.list_at(idx as int) == old(self).list(lit));
        &mut self.watches[idx]
    }

    /// Whether clause `clause` is in the watch list of `lit`.
    pub fn is_watching(&self, lit: Literal, clause: ClauseRef) -> (b: bool)
        ensures
            b == self.watching(lit, clause),
    {
        let list = self.watches(lit);
        let mut k: usize = 0;
        while k < list.len()
            invariant
                list@ == self.list(lit),
                k <= list@.len(),
                forall|j: int| 0 <= j < k ==> list@[j].clause != clause,
            decreases list@.len() - k,
        {
            if list[k].clause == clause {
                return true;
            }
            k = k + 1;
        }
        false
    }

    /// Empty every watch list.
    pub fn clear(&mut self)
        ensures
            final(self).all_lists() == Seq::new(old(self).num_lists(), |i: int| Seq::<Watcher>::empty()),
    {
        let n = self.watches.len();
        let mut k: usize = 0;
        while k < n
            invariant
                n == self.num_lists(),
                k <= n,
                forall|i: int| 0 <= i < k ==> (#[trigger] self.list_at(i)) == Seq::<Watcher>::empty(),
            decreases n - k,
        {
            let ghost pre = *self;
            assert(forall|i: int| 0 <= i < k ==> pre.list_at(i) == pre.watches@[i]@);
            let e: Vec<Watcher> = Vec::new();
            assert(e@ == Seq::<Watcher>::empty());
            self.watches.set(k, e);
            assert forall|i: int| 0 <= i < k + 1 implies (#[trigger] self.list_at(i)) == Seq::<Watcher>::empty() by {
                if i < k {
                    assert(self.watches@[i] == pre.watches@[i]);
                    assert(pre.list_at(i) == Seq::<Watcher>::empty());
                } else {
                    assert(self.watches@[i] == e);
                }
            }
            k = k + 1;
        }
        assert(self.all_lists() =~= Seq::new(old(self).num_lists(), |i: int| Seq::<Watcher>::empty()));
    }

    /// The total number of watchers.
    pub fn total_watchers(&self) -> (n: usize)
        requires
            total_len(self.all_lists()) <= usize::MAX,
        ensures
            n == total_len(self.all_lists()),
    {
        let len = self.watches.len();
        let mut sum: usize = 0;
        let mut k: usize = 0;
        while k < len
            invariant
                len == self.num_lists(),
                k <= len,
                total_len(self.all_lists()) <= usize::MAX,
                sum == total_len(self.all_lists().take(k as int)),
            decreases len - k,
        {
            assert(self.all_lists().take(k + 1).drop_last() =~= self.all_lists().take(k as int));
            proof {
                lemma_total_len_prefix(self.all_lists(), k as int + 1);
            }
            sum = sum + self.watches[k].len();
            k = k + 1;
        }
        assert(self.all_lists().take(len as int) =~= self.all_lists());
        sum
    }
}

/// The total of a prefix is at most the total.
pub proof fn lemma_total_len_prefix(s: Seq<Seq<Watcher>>, k: int)
    requires
        0 <= k <= s.len(),
    ensures
        total_len(s.take(k)) <= total_len(s),
    decreases s.len(),
{
    if k < s.len() {
        assert(s.drop_last().take(k) =~= s.take(k));
        lemma_total_len_prefix(s.drop_last(), k);
    } else {
        assert(s.take(k) =~= s);
    }
}

/// Watch the first two literals of every clause with at least two literals.
pub fn init_watches(watches: &mut WatchLists, clauses: &[Clause])
    requires
        forall|c: int, k: int| 0 <= c < clauses@.len() && 0 <= k < clauses@[c]@.len() ==> lists_for(#[trigger] clauses@[c]@[k].var_of()) <= usize::MAX,
    ensures
        forall|c: int| 0 <= c < clauses@.len() && clauses@[c]@.len() >= 2 ==> final(watches).watching(clauses@[c]@[0], c as usize) && final(watches).watching(clauses@[c]@[1], c as usize),
        forall|l: Literal, c: ClauseRef| #[trigger] final(watches).watching(l, c) ==> old(watches).watching(l, c) || (c < clauses@.len() && clauses@[c as int]@.len() >= 2 && (l == clauses@[c as int]@[0] || l == clauses@[c as int]@[1])),
        crate::solver::propagate::watchers_valid(*old(watches), clauses@) ==> crate::solver::propagate::watchers_valid(*final(watches), clauses@),
        total_len(final(watches).all_lists()) == total_len(old(watches).all_lists()) + 2 * long_count(clauses@),
{
    let n = clauses.len();
    let mut idx: usize = 0;
    proof {
        assert(clauses@.take(0) =~= Seq::<Clause>::empty());
    }
    while idx < n
        invariant
            n == clauses@.len(),
            idx <= n,
            forall|c: int, k: int| 0 <= c < clauses@.len() && 0 <= k < clauses@[c]@.len() ==> lists_for(#[trigger] clauses@[c]@[k].var_of()) <= usize::MAX,
            forall|c: int| 0 <= c < idx && clauses@[c]@.len() >= 2 ==> watches.watching(clauses@[c]@[0], c as usize) && watches.watching(clauses@[c]@[1], c as usize),
            forall|l: Literal, c: ClauseRef| #[trigger] watches.watching(l, c) ==> old(watches).watching(l, c) || (c < idx && clauses@[c as int]@.len() >= 2 && (l == clauses@[c as int]@[0] || l == clauses@[c as int]@[1])),
            crate::solver::propagate::watchers_valid(*old(watches), clauses@) ==> crate::solver::propagate::watchers_valid(*watches, clauses@),
            total_len(watches.all_lists()) == total_len(old(watches).all_lists()) + 2 * long_count(clauses@.take(idx as int)),
        decreases n - idx,
    {
        let clause = &clauses[idx];
        if clause.len() >= 2 {
            let lit0 = clause.at(0);
            let lit1 = clause.at(1);
            let ghost w0 = *watches;
            watches.add_watch(lit0, idx, lit1);
            proof {
                lemma_add_watch_watching(w0, *watches, lit0, idx, lit1);
                lemma_add_watch_total(w0, *watches, lit0, idx, lit1);
                if crate::solver::propagate::watchers_valid(w0, clauses@) {
                    crate::solver::learn::lemma_add_watch_valid(w0, *watches, lit0, idx, lit1, clauses@);
                }
            }
            let ghost w1 = *watches;
            watches.add_watch(lit1, idx, lit0);
            proof {
                lemma_add_watch_watching(w1, *watches, lit1, idx, lit0);
                lemma_add_watch_total(w1, *watches, lit1, idx, lit0);
                if crate::solver::propagate::watchers_valid(w1, clauses@) {
                    crate::solver::learn::lemma_add_watch_valid(w1, *watches, lit1, idx, lit0, clauses@);
                }
            }
        }
        proof {
            assert(clauses@.take(idx + 1).drop_last() =~= clauses@.take(idx as int));
        }
        idx = idx + 1;
    }
    proof {
        assert(clauses@.take(n as int) =~= clauses@);
    }
}

/// `add_watch` adds one watcher in all.
pub proof fn lemma_add_watch_total(before: WatchLists, after: WatchLists, lit: Literal, clause: ClauseRef, blocker: Literal)
    requires
        after.num_lists() == if before.num_lists() <= lit@ { lists_for(lit.var_of()) } else { before.num_lists() },
        after.list_at(lit@ as int) == before.list(lit).push(Watcher { clause, blocker }),
        forall|i: int| 0 <= i < after.num_lists() && i != lit@ ==> after.list_at(i) == if i < before.num_lists() { before.list_at(i) } else { Seq::<Watcher>::empty() },
    ensures
        total_len(after.all_lists()) == total_len(before.all_lists()) + 1,
{
    let b = before.all_lists();
    let a = after.all_lists();
    assert(lit@ < a.len());
    let t = Seq::new((a.len() - b.len()) as nat, |i: int| Seq::<Watcher>::empty());
    let e = b + t;
    lemma_total_len_empties(b, t);
    assert(e[lit@ as int] == before.list(lit));
    assert(a =~= e.update(lit@ as int, e[lit@ as int].push(Watcher { clause, blocker })));
    lemma_total_len_update(e, lit@ as int, e[lit@ as int].push(Watcher { clause, blocker }));
}

/// How `add_watch` changes which clauses watch which literals.
pub proof fn lemma_add_watch_watching(before: WatchLists, after: WatchLists, lit: Literal, clause: ClauseRef, blocker: Literal)
    requires
        after.num_lists() == if before.num_lists() <= lit@ { lists_for(lit.var_of()) } else { before.num_lists() },
        after.list_at(lit@ as int) == before.list(lit).push(Watcher { clause, blocker }),
        forall|i: int| 0 <= i < after.num_lists() && i != lit@ ==> after.list_at(i) == if i < before.num_lists() { before.list_at(i) } else { Seq::<Watcher>::empty() },
    ensures
        after.watching(lit, clause),
        forall|l: Literal, c: ClauseRef| after.watching(l, c) <==> (before.watching(l, c) || (l == lit && c == clause)),
{
    assert(lit@ < after.num_lists());
    assert(after.list(lit)[before.list(lit).len() as int].clause == clause);
    assert forall|l: Literal, c: ClauseRef| after.watching(l, c) <==> (before.watching(l, c) || (l == lit && c == clause)) by {
        if l == lit {
            if before.watching(l, c) {
                let k = choose|k: int| 0 <= k < before.list(l).len() && before.list(l)[k].clause == c;
                assert(after.list(l)[k] == before.list(l)[k]);
            }
            if after.watching(l, c) {
                let k = choose|k: int| 0 <= k < after.list(l).len() && after.list(l)[k].clause == c;
                if k < before.list(l).len() {
                    assert(after.list(l)[k] == before.list(l)[k]);
                }
            }
        } else {
            if l@ == lit@ {
                assert(l == lit);
            }
            if l@ < after.num_lists() && l@ >= before.num_lists() {
                assert(after.list(l) == Seq::<Watcher>::empty());
            }
            if l@ < before.num_lists() {
                assert(after.list(l) == before.list(l));
            }
        }
    }
}

} // verus!
