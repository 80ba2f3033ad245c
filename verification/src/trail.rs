//! The trail: assigned literals in assignment order, split into decision levels.
use vstd::prelude::*;
use vstd::slice::slice_subrange;
use vstd::std_specs::iter::IteratorSpec;
use crate::literal::Literal;

verus! {

/// The decision trail.
#[derive(Debug)]
pub struct Trail {
    /// Literals in assignment order.
    assignments: Vec<Literal>,
    /// `levels[i]` is the position where decision level `i` starts.
    levels: Vec<usize>,
    /// Position of the next literal to propagate.
    propagate_head: usize,
}

impl Trail {
    /// The literals on the trail, in order.
    pub closed spec fn lits(&self) -> Seq<Literal> {
        self.assignments@
    }

    /// The start position of each decision level.
    pub closed spec fn starts(&self) -> Seq<usize> {
        self.levels@
    }

    /// The position of the next literal to propagate.
    pub closed spec fn head(&self) -> nat {
        self.propagate_head as nat
    }

    /// The current decision level.
    pub open spec fn level(&self) -> int {
        self.starts().len() - 1
    }

    /// The first position after decision level `l`.
    pub open spec fn level_end(&self, l: int) -> int {
        if l + 1 < self.starts().len() {
            self.starts()[l + 1] as int
        } else {
            self.lits().len() as int
        }
    }

    /// Well-formedness: level 0 starts at 0, level starts are non-decreasing and
    /// within the trail, the head is within the trail, and the level fits a `u32`.
    pub open spec fn wf(&self) -> bool {
        &&& self.starts().len() >= 1
        &&& self.starts()[0] == 0
        &&& forall|i: int, j: int| 0 <= i <= j < self.starts().len() ==> self.starts()[i] <= self.starts()[j]
        &&& forall|i: int| 0 <= i < self.starts().len() ==> self.starts()[i] <= self.lits().len()
        &&& self.head() <= self.lits().len()
        &&& self.starts().len() <= u32::MAX + 1
    }

    /// An empty trail at level 0.
    pub fn new() -> (t: Self)
        ensures
            t.wf(),
            t.lits() == Seq::<Literal>::empty(),
            t.starts() == seq![0usize],
            t.head() == 0,
    {
        let mut levels: Vec<usize> = Vec::new();
        levels.push(0);
        Trail { assignments: Vec::new(), levels, propagate_head: 0 }
    }

    /// Push a literal at the current level.
    pub fn push(&mut self, lit: Literal)
        requires
            old(self).wf(),
        ensures
            final(self).wf(),
            final(self).lits() == old(self).lits().push(lit),
            final(self).starts() == old(self).starts(),
            final(self).head() == old(self).head(),
    {
        self.assignments.push(lit);
    }

    /// The next literal to propagate, if any.
    pub fn peek_propagate(&self) -> (r: Option<&Literal>)
        ensures
            self.head() < self.lits().len() ==> r == Some(&self.lits()[self.head() as int]),
            self.head() >= self.lits().len() ==> r is None,
    {
        if self.propagate_head < self.assignments.len() {
            Some(&self.assignments[self.propagate_head])
        } else {
            None
        }
    }

    /// Move the propagation head past the next literal (no effect at the end).
    pub fn advance_propagate(&mut self)
        requires
            old(self).wf(),
        ensures
            final(self).wf(),
            final(self).lits() == old(self).lits(),
            final(self).starts() == old(self).starts(),
            final(self).head() == if old(self).head() < old(self).lits().len() { old(self).head() + 1 } else { old(self).head() },
    {
        if self.propagate_head < self.assignments.len() {
            self.propagate_head = self.propagate_head + 1;
        }
    }

    /// The current decision level.
    pub fn current_level(&self) -> (l: u32)
        requires
            self.wf(),
        ensures
            l == self.level(),
    {
        (self.levels.len() - 1) as u32
    }

    /// Open a new decision level starting at the end of the trail.
    pub fn new_level(&mut self)
        requires
            old(self).wf(),
            old(self).level() < u32::MAX,
        ensures
            final(self).wf(),
            final(self).lits() == old(self).lits(),
            final(self).starts() == old(self).starts().push(old(self).lits().len() as usize),
            final(self).head() == old(self).head(),
    {
        let n = self.assignments.len();
        self.levels.push(n);
    }

    /// Push a decision literal, opening a new level.
    pub fn push_decision(&mut self, lit: Literal)
        requires
            old(self).wf(),
            old(self).level() < u32::MAX,
        ensures
            final(self).wf(),
            final(self).lits() == old(self).lits().push(lit),
            final(self).starts() == old(self).starts().push(old(self).lits().len() as usize),
            final(self).head() == old(self).head(),
    {
        self.new_level();
        self.assignments.push(lit);
    }

    /// Push a propagated literal at the current level.
    pub fn push_propagation(&mut self, lit: Literal)
        requires
            old(self).wf(),
        ensures
            final(self).wf(),
            final(self).lits() == old(self).lits().push(lit),
            final(self).starts() == old(self).starts(),
            final(self).head() == old(self).head(),
    {
        self.assignments.push(lit);
    }

    /// Push a literal at level 0.
    pub fn push_at_root(&mut self, lit: Literal)
        requires
            old(self).wf(),
            old(self).level() == 0,
        ensures
            final(self).wf(),
            final(self).lits() == old(self).lits().push(lit),
            final(self).starts() == old(self).starts(),
            final(self).head() == old(self).head(),
    {
        self.assignments.push(lit);
    }

    /// Backtrack to `level`: drop every literal of the levels above it and
    /// return them, most recent first. No effect when `level` is not below the current level.
    pub fn backtrack_to(&mut self, level: u32) -> (r: Vec<Literal>)
        requires
            old(self).wf(),
        ensures
            final(self).wf(),
            level >= old(self).level() ==> {
                &&& final(self).lits() == old(self).lits()
                &&& final(self).starts() == old(self).starts()
                &&& final(self).head() == old(self).head()
                &&& r@ == Seq::<Literal>::empty()
            },
            level < old(self).level() ==> {
                let start = old(self).starts()[level + 1] as int;
                &&& final(self).lits() == old(self).lits().subrange(0, start)
                &&& final(self).starts() == old(self).starts().subrange(0, level + 1)
                &&& final(self).head() == if old(self).head() > start { start as nat } else { old(self).head() }
                &&& r@ == old(self).lits().subrange(start, old(self).lits().len() as int).reverse()
            },
    {
        let level = level as usize;
        if level >= self.levels.len() - 1 {
            return Vec::new();
        }
        let start_idx = self.levels[level + 1];
        let n = self.assignments.len();
        let mut unassigned: Vec<Literal> = Vec::new();
        let mut k: usize = n;
        while k > start_idx
            invariant
                start_idx <= k <= n,
                n == self.assignments@.len(),
                self.assignments@ == old(self).lits(),
                unassigned@ == old(self).lits().subrange(k as int, n as int).reverse(),
            decreases k,
        {
            k = k - 1;
            assert(old(self).lits().subrange(k as int, n as int).reverse() =~= old(self).lits().subrange(
                (k + 1) as int,
                n as int,
            ).reverse().push(old(self).lits()[k as int]));
            unassigned.push(self.assignments[k]);
        }
        self.assignments.truncate(start_idx);
        self.levels.truncate(level + 1);
        if self.propagate_head > start_idx {
            self.propagate_head = start_idx;
        }
        unassigned
    }

    /// The number of literals on the trail.
    pub fn len(&self) -> (n: usize)
        ensures
            n == self.lits().len(),
    {
        self.assignments.len()
    }

    /// Whether the trail is empty.
    pub fn is_empty(&self) -> (b: bool)
        ensures
            b == (self.lits().len() == 0),
    {
        self.assignments.len() == 0
    }

    /// The most recent literal.
    pub fn last(&self) -> (r: Option<&Literal>)
        ensures
            self.lits().len() > 0 ==> r == Some(&self.lits().last()),
            self.lits().len() == 0 ==> r is None,
    {
        if self.assignments.len() > 0 {
            Some(&self.assignments[self.assignments.len() - 1])
        } else {
            None
        }
    }

    /// The literal at position `idx`, if any.
    pub fn get(&self, idx: usize) -> (r: Option<Literal>)
        ensures
            idx < self.lits().len() ==> r == Some(self.lits()[idx as int]),
            idx >= self.lits().len() ==> r is None,
    {
        if idx < self.assignments.len() {
            Some(self.assignments[idx])
        } else {
            None
        }
    }

    /// All literals, in order.
    pub fn iter(&self) -> (r: std::slice::Iter<'_, Literal>)
        ensures
            r.remaining() == self.lits().map_values(|l: Literal| &l),
    {
        let s = self.assignments.as_slice();
        let it = s.iter();
        assert(it.remaining() =~= self.lits().map_values(|l: Literal| &l));
        it
    }

    /// The literals of decision level `level` (empty for a level above the current one).
    pub fn level_assignments(&self, level: u32) -> (r: &[Literal])
        requires
            self.wf(),
        ensures
            level <= self.level() ==> r@ == self.lits().subrange(self.starts()[level as int] as int, self.level_end(level as int)),
            level > self.level() ==> r@.len() == 0,
    {
        let level = level as usize;
        if level >= self.levels.len() {
            return &[];
        }
        let start = self.levels[level];
        let end = if level + 1 < self.levels.len() {
            self.levels[level + 1]
        } else {
            self.assignments.len()
        };
        slice_subrange(self.assignments.as_slice(), start, end)
    }

    /// The decision literal of `level` (the first literal of that level); `None` for level 0.
    pub fn decision_at(&self, level: u32) -> (r: Option<&Literal>)
        requires
            self.wf(),
        ensures
            (level == 0 || level > self.level() || self.starts()[level as int] >= self.lits().len()) ==> r is None,
            (level != 0 && level <= self.level() && self.starts()[level as int] < self.lits().len()) ==> r == Some(&self.lits()[self.starts()[level as int] as int]),
    {
        if level == 0 {
            return None;
        }
        let level = level as usize;
        if level >= self.levels.len() {
            return None;
        }
        let p = self.levels[level];
        if p < self.assignments.len() {
            Some(&self.assignments[p])
        } else {
            None
        }
    }

    /// The literals of `level` and every level above it.
    pub fn literals_from_level(&self, level: u32) -> (r: &[Literal])
        requires
            self.wf(),
        ensures
            level <= self.level() ==> r@ == self.lits().subrange(self.starts()[level as int] as int, self.lits().len() as int),
            level > self.level() ==> r@.len() == 0,
    {
        let level = level as usize;
        if level >= self.levels.len() {
            return &[];
        }
        let start = self.levels[level];
        slice_subrange(self.assignments.as_slice(), start, self.assignments.len())
    }

    /// The position where `level` starts (the trail length for a level above the current one).
    pub fn level_start(&self, level: u32) -> (p: usize)
        ensures
            level < self.starts().len() ==> p == self.starts()[level as int],
            level >= self.starts().len() ==> p == self.lits().len(),
    {
        if (level as usize) < self.levels.len() {
            self.levels[level as usize]
        } else {
            self.assignments.len()
        }
    }

    /// The number of literals at the current level.
    pub fn count_at_current_level(&self) -> (n: usize)
        requires
            self.wf(),
        ensures
            n == self.lits().len() - self.starts().last(),
    {
        let start = self.levels[self.levels.len() - 1];
        self.assignments.len() - start
    }
}

} // verus!
