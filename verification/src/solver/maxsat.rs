//! MaxSAT: hard clauses must hold, soft clauses carry weights, and the cost of an
//! assignment is the weight of the soft clauses it relaxes. The search runs SAT calls on
//! formulas this module builds: the hard clauses alone, then the hard clauses with each
//! soft clause relaxed by a variable of its own, then the same with a bound on how many
//! relaxations may hold, lowered while a model improves.
use vstd::prelude::*;
use std::collections::HashMap;
use crate::clause::Clause;
use crate::formula::Formula;
use crate::literal::{Literal, Variable};
use crate::parser::text::{chars_of, split_lines, split_words, trimmed, parse_int, read_lenient_ints, lenient_ints, lines, words, trim, int_in, char_views, is_white, lemma_words_shape, lemma_words_last};
use crate::parser::dimacs::lits_are;

verus! {

/// The weight of a soft clause.
pub type Weight = u64;

/// A soft clause, its weight, and its relaxation variable once it has one.
#[derive(Debug)]
pub struct SoftClause {
    pub clause: Clause,
    pub weight: Weight,
    pub relax_var: Option<u32>,
}

impl SoftClause {
    /// A soft clause of weight `weight`.
    pub fn new(clause: Clause, weight: Weight) -> (s: Self)
        ensures
            s.clause == clause,
            s.weight == weight,
            s.relax_var is None,
    {
        SoftClause { clause, weight, relax_var: None }
    }

    /// A soft clause of weight 1.
    pub fn unit(clause: Clause) -> (s: Self)
        ensures
            s.clause == clause,
            s.weight == 1,
            s.relax_var is None,
    {
        Self::new(clause, 1)
    }
}

/// The sum of the weights of `s`.
pub open spec fn sum_weights(s: Seq<SoftClause>) -> nat
    decreases s.len(),
{
    if s.len() == 0 { 0 } else { sum_weights(s.drop_last()) + s.last().weight as nat }
}

/// A MaxSAT formula: hard and soft clauses over `num_vars` variables.
#[derive(Debug)]
pub struct MaxSatFormula {
    pub num_vars: u32,
    pub hard_clauses: Vec<Clause>,
    pub soft_clauses: Vec<SoftClause>,
}

impl MaxSatFormula {
    /// A formula without clauses.
    pub fn new(num_vars: u32) -> (f: Self)
        ensures
            f.num_vars == num_vars,
            f.hard_clauses@.len() == 0,
            f.soft_clauses@.len() == 0,
    {
        MaxSatFormula { num_vars, hard_clauses: Vec::new(), soft_clauses: Vec::new() }
    }

    /// Add a hard clause.
    pub fn add_hard(&mut self, clause: Clause)
        ensures
            final(self).hard_clauses@ == old(self).hard_clauses@.push(clause),
            final(self).soft_clauses@ == old(self).soft_clauses@,
            final(self).num_vars == old(self).num_vars,
    {
        self.hard_clauses.push(clause);
    }

    /// Add a soft clause of weight `weight`.
    pub fn add_soft(&mut self, clause: Clause, weight: Weight)
        ensures
            final(self).soft_clauses@ == old(self).soft_clauses@.push(SoftClause { clause, weight, relax_var: None }),
            final(self).hard_clauses@ == old(self).hard_clauses@,
            final(self).num_vars == old(self).num_vars,
    {
        self.soft_clauses.push(SoftClause::new(clause, weight));
    }

    /// Add a soft clause of weight 1.
    pub fn add_soft_unit(&mut self, clause: Clause)
        ensures
            final(self).soft_clauses@ == old(self).soft_clauses@.push(SoftClause { clause, weight: 1, relax_var: None }),
            final(self).hard_clauses@ == old(self).hard_clauses@,
            final(self).num_vars == old(self).num_vars,
    {
        self.soft_clauses.push(SoftClause::unit(clause));
    }

    /// The total weight of the soft clauses.
    pub fn total_weight(&self) -> (w: Weight)
        requires
            sum_weights(self.soft_clauses@) <= u64::MAX,
        ensures
            w == sum_weights(self.soft_clauses@),
    {
        let mut w: u64 = 0;
        let mut k: usize = 0;
        while k < self.soft_clauses.len()
            invariant
                k <= self.soft_clauses@.len(),
                sum_weights(self.soft_clauses@) <= u64::MAX,
                w == sum_weights(self.soft_clauses@.take(k as int)),
            decreases self.soft_clauses@.len() - k,
        {
            proof {
                assert(self.soft_clauses@.take(k + 1).drop_last() =~= self.soft_clauses@.take(k as int));
                lemma_sum_weights_prefix(self.soft_clauses@, k + 1);
            }
            w = w + self.soft_clauses[k].weight;
            k = k + 1;
        }
        assert(self.soft_clauses@.take(k as int) =~= self.soft_clauses@);
        w
    }

    /// The number of soft clauses.
    pub fn num_soft(&self) -> (n: usize)
        ensures
            n == self.soft_clauses@.len(),
    {
        self.soft_clauses.len()
    }

    /// The number of hard clauses.
    pub fn num_hard(&self) -> (n: usize)
        ensures
            n == self.hard_clauses@.len(),
    {
        self.hard_clauses.len()
    }
}

/// A prefix weighs at most the whole.
proof fn lemma_sum_weights_prefix(s: Seq<SoftClause>, k: int)
    requires
        0 <= k <= s.len(),
    ensures
        sum_weights(s.take(k)) <= sum_weights(s),
    decreases s.len() - k,
{
    if k < s.len() {
        assert(s.take(k + 1).drop_last() =~= s.take(k));
        lemma_sum_weights_prefix(s, k + 1);
    } else {
        assert(s.take(k) =~= s);
    }
}

/// The outcome of a MaxSAT search.
#[derive(Debug, Clone)]
pub enum MaxSatResult {
    /// An optimum: the model, its cost, and the soft clauses it satisfies.
    Optimum { model: Vec<bool>, cost: Weight, satisfied: Vec<usize> },
    /// The hard clauses are unsatisfiable.
    Unsatisfiable,
    /// Undecided.
    Unknown,
}

/// Counters of a MaxSAT search.
#[derive(Debug, Clone)]
pub struct MaxSatStats {
    pub sat_calls: u64,
    pub cores_extracted: u64,
    pub relax_vars: u64,
    pub amo_constraints: u64,
}

impl Default for MaxSatStats {
    fn default() -> (s: Self)
        ensures
            s.sat_calls == 0 && s.cores_extracted == 0 && s.relax_vars == 0 && s.amo_constraints == 0,
    {
        MaxSatStats { sat_calls: 0, cores_extracted: 0, relax_vars: 0, amo_constraints: 0 }
    }
}

/// Whether `lit` is true in `model` (indexed from variable 1; variables beyond the model
/// count as false).
pub open spec fn lit_true_in(model: Seq<bool>, lit: Literal) -> bool {
    let i = lit.var_of() - 1;
    0 <= i < model.len() && model[i] == lit.pos()
}

/// Whether the clause `c` is satisfied by `model`.
pub open spec fn clause_true_in(model: Seq<bool>, c: Seq<Literal>) -> bool {
    exists|j: int| 0 <= j < c.len() && #[trigger] lit_true_in(model, c[j])
}

/// The cost of `model`: the weight of the soft clauses whose relaxation variable it
/// sets.
pub open spec fn cost_of(soft: Seq<SoftClause>, model: Seq<bool>) -> nat
    decreases soft.len(),
{
    if soft.len() == 0 {
        0
    } else {
        cost_of(soft.drop_last(), model) + match soft.last().relax_var {
            Some(r) => if 1 <= r && r - 1 < model.len() && model[r - 1] { soft.last().weight as nat } else { 0 },
            None => 0,
        }
    }
}

proof fn lemma_cost_bound(soft: Seq<SoftClause>, model: Seq<bool>)
    ensures
        cost_of(soft, model) <= sum_weights(soft),
    decreases soft.len(),
{
    if soft.len() > 0 {
        lemma_cost_bound(soft.drop_last(), model);
    }
}

/// The indices of the soft clauses that `model` satisfies, in order.
pub open spec fn satisfied_indices(soft: Seq<SoftClause>, model: Seq<bool>) -> Seq<usize>
    decreases soft.len(),
{
    if soft.len() == 0 {
        Seq::empty()
    } else {
        let prev = satisfied_indices(soft.drop_last(), model);
        if clause_true_in(model, soft.last().clause@) { prev.push((soft.len() - 1) as usize) } else { prev }
    }
}

/// The `k`-element subsequences of `items`, in lexicographic order of positions.
pub open spec fn combos(items: Seq<u32>, k: nat) -> Seq<Seq<u32>>
    decreases items.len(), 1nat, 0nat,
{
    if k == 0 {
        seq![Seq::empty()]
    } else if items.len() < k {
        Seq::empty()
    } else if items.len() == k {
        seq![items]
    } else {
        combos_from(items, k, 0)
    }
}

/// The `k`-element subsequences of `items` whose first element is at position `i` or
/// later.
pub open spec fn combos_from(items: Seq<u32>, k: nat, i: nat) -> Seq<Seq<u32>>
    decreases items.len(), 0nat, items.len() - i,
{
    if k == 0 || i >= items.len() {
        Seq::empty()
    } else {
        combos(items.skip(i as int + 1), (k - 1) as nat).map_values(|c: Seq<u32>| seq![items[i as int]] + c)
            + combos_from(items, k, i + 1)
    }
}

/// The `k`-element subsequences of `items`.
pub fn combinations(items: &[u32], k: usize) -> (r: Vec<Vec<u32>>)
    ensures
        r@.len() == combos(items@, k as nat).len(),
        forall|i: int| 0 <= i < r@.len() ==> (#[trigger] r@[i])@ == combos(items@, k as nat)[i],
    decreases items@.len(), 1nat, 0nat,
{
    if k == 0 {
        let r = vec![Vec::new()];
        assert(r@[0]@ =~= Seq::<u32>::empty());
        return r;
    }
    if items.len() < k {
        return Vec::new();
    }
    if items.len() == k {
        let mut v: Vec<u32> = Vec::new();
        let mut j: usize = 0;
        while j < items.len()
            invariant
                j <= items@.len(),
                v@ == items@.take(j as int),
            decreases items@.len() - j,
        {
            v.push(items[j]);
            assert(items@.take(j + 1) =~= items@.take(j as int).push(items@[j as int]));
            j = j + 1;
        }
        assert(items@.take(j as int) =~= items@);
        return vec![v];
    }
    combinations_from(items, k, 0)
}

/// The `k`-element subsequences of `items` starting at position `i` or later.
fn combinations_from(items: &[u32], k: usize, i: usize) -> (r: Vec<Vec<u32>>)
    requires
        k > 0,
        i <= items@.len(),
    ensures
        r@.len() == combos_from(items@, k as nat, i as nat).len(),
        forall|j: int| 0 <= j < r@.len() ==> (#[trigger] r@[j])@ == combos_from(items@, k as nat, i as nat)[j],
    decreases items@.len(), 0nat, items@.len() - i,
{
    if i >= items.len() {
        return Vec::new();
    }
    let mut rest: Vec<u32> = Vec::new();
    let mut q: usize = i + 1;
    while q < items.len()
        invariant
            i + 1 <= q <= items@.len(),
            rest@ == items@.subrange(i + 1, q as int),
        decreases items@.len() - q,
    {
        rest.push(items[q]);
        assert(items@.subrange(i + 1, q + 1) =~= items@.subrange(i + 1, q as int).push(items@[q as int]));
        q = q + 1;
    }
    assert(rest@ =~= items@.skip(i as int + 1));
    let sub = combinations(rest.as_slice(), k - 1);
    let ghost first = combos(items@.skip(i as int + 1), (k - 1) as nat).map_values(|c: Seq<u32>| seq![items@[i as int]] + c);
    let mut result: Vec<Vec<u32>> = Vec::new();
    let mut j: usize = 0;
    while j < sub.len()
        invariant
            j <= sub@.len(),
            sub@.len() == first.len(),
            forall|t: int| 0 <= t < sub@.len() ==> (#[trigger] sub@[t])@ == combos(items@.skip(i as int + 1), (k - 1) as nat)[t],
            first == combos(items@.skip(i as int + 1), (k - 1) as nat).map_values(|c: Seq<u32>| seq![items@[i as int]] + c),
            i < items@.len(),
            result@.len() == j,
            forall|t: int| 0 <= t < j ==> (#[trigger] result@[t])@ == first[t],
        decreases sub@.len() - j,
    {
        let mut combo: Vec<u32> = Vec::new();
        combo.push(items[i]);
        let mut t: usize = 0;
        while t < sub[j].len()
            invariant
                j < sub@.len(),
                t <= sub@[j as int]@.len(),
                combo@ == seq![items@[i as int]] + sub@[j as int]@.take(t as int),
            decreases sub@[j as int]@.len() - t,
        {
            combo.push(sub[j][t]);
            assert(sub@[j as int]@.take(t + 1) =~= sub@[j as int]@.take(t as int).push(sub@[j as int]@[t as int]));
            t = t + 1;
        }
        assert(sub@[j as int]@.take(t as int) =~= sub@[j as int]@);
        result.push(combo);
        j = j + 1;
    }
    let more = combinations_from(items, k, i + 1);
    let ghost whole = combos_from(items@, k as nat, i as nat);
    assert(whole == first + combos_from(items@, k as nat, i as nat + 1));
    let ghost r0 = result@;
    let mut m: usize = 0;
    while m < more.len()
        invariant
            m <= more@.len(),
            result@.len() == first.len() + m,
            forall|t: int| 0 <= t < first.len() ==> (#[trigger] result@[t])@ == first[t],
            forall|t: int| 0 <= t < m ==> (#[trigger] result@[first.len() + t])@ == combos_from(items@, k as nat, i as nat + 1)[t],
            more@.len() == combos_from(items@, k as nat, i as nat + 1).len(),
            forall|t: int| 0 <= t < more@.len() ==> (#[trigger] more@[t])@ == combos_from(items@, k as nat, i as nat + 1)[t],
        decreases more@.len() - m,
    {
        let mut c: Vec<u32> = Vec::new();
        let mut t: usize = 0;
        while t < more[m].len()
            invariant
                m < more@.len(),
                t <= more@[m as int]@.len(),
                c@ == more@[m as int]@.take(t as int),
            decreases more@[m as int]@.len() - t,
        {
            c.push(more[m][t]);
            assert(more@[m as int]@.take(t + 1) =~= more@[m as int]@.take(t as int).push(more@[m as int]@[t as int]));
            t = t + 1;
        }
        assert(more@[m as int]@.take(t as int) =~= more@[m as int]@);
        result.push(c);
        m = m + 1;
    }
    assert forall|j: int| 0 <= j < result@.len() implies (#[trigger] result@[j])@ == whole[j] by {
        if j >= first.len() {
            let t = j - first.len();
            assert(result@[first.len() + t]@ == combos_from(items@, k as nat, i as nat + 1)[t]);
        }
    }
    result
}

/// Every element of a subsequence is an element of the sequence.
proof fn lemma_combos_elements(items: Seq<u32>, k: nat)
    ensures
        forall|t: int, j: int| 0 <= t < combos(items, k).len() && 0 <= j < combos(items, k)[t].len()
            ==> items.contains(#[trigger] combos(items, k)[t][j]),
    decreases items.len(), 1nat, 0nat,
{
    if k > 0 && items.len() > k {
        lemma_combos_from_elements(items, k, 0);
        assert forall|t: int, j: int| 0 <= t < combos(items, k).len() && 0 <= j < combos(items, k)[t].len()
            implies items.contains(#[trigger] combos(items, k)[t][j]) by {
            assert(combos(items, k) == combos_from(items, k, 0));
            assert(items.contains(combos_from(items, k, 0)[t][j]));
        }
    } else if k > 0 && items.len() == k {
        assert forall|t: int, j: int| 0 <= t < combos(items, k).len() && 0 <= j < combos(items, k)[t].len()
            implies items.contains(#[trigger] combos(items, k)[t][j]) by {
            assert(combos(items, k)[t] == items);
            assert(items[j] == combos(items, k)[t][j]);
        }
    }
}

proof fn lemma_combos_from_elements(items: Seq<u32>, k: nat, i: nat)
    ensures
        forall|t: int, j: int| 0 <= t < combos_from(items, k, i).len() && 0 <= j < combos_from(items, k, i)[t].len()
            ==> items.contains(#[trigger] combos_from(items, k, i)[t][j]),
    decreases items.len(), 0nat, items.len() - i,
{
    if k > 0 && i < items.len() {
        let rest = items.skip(i as int + 1);
        lemma_combos_elements(rest, (k - 1) as nat);
        lemma_combos_from_elements(items, k, i + 1);
        let first = combos(rest, (k - 1) as nat).map_values(|c: Seq<u32>| seq![items[i as int]] + c);
        let second = combos_from(items, k, i + 1);
        assert forall|t: int, j: int| 0 <= t < combos_from(items, k, i).len() && 0 <= j < combos_from(items, k, i)[t].len()
            implies items.contains(#[trigger] combos_from(items, k, i)[t][j]) by {
            if t < first.len() {
                let c = combos(rest, (k - 1) as nat)[t];
                assert(first[t] == seq![items[i as int]] + c);
                if j > 0 {
                    assert(rest.contains(c[j - 1]));
                    let q = choose|q: int| 0 <= q < rest.len() && rest[q] == c[j - 1];
                    assert(items[i + 1 + q] == c[j - 1]);
                }
            } else {
                assert(combos_from(items, k, i)[t] == second[t - first.len()]);
            }
        }
    }
}

/// The literal sequences of `cs`.
pub open spec fn clause_views(cs: Seq<Clause>) -> Seq<Seq<Literal>> {
    cs.map_values(|c: Clause| c@)
}

/// The clause that `s` contributes with relaxation: its literals, and its relaxation
/// variable's positive literal when it has one.
pub open spec fn relaxed_clause(s: SoftClause) -> Seq<Literal> {
    match s.relax_var {
        Some(r) => s.clause@.push(Literal(Literal::code_of(r as nat, true) as u32)),
        None => s.clause@,
    }
}

/// The relaxed soft clauses of `soft` (those with a relaxation variable).
pub open spec fn relaxed_only(soft: Seq<SoftClause>) -> Seq<Seq<Literal>>
    decreases soft.len(),
{
    if soft.len() == 0 {
        Seq::empty()
    } else {
        let prev = relaxed_only(soft.drop_last());
        if soft.last().relax_var is Some { prev.push(relaxed_clause(soft.last())) } else { prev }
    }
}

/// The relaxation variables of `soft`, in order.
pub open spec fn relax_vars_of(soft: Seq<SoftClause>) -> Seq<u32>
    decreases soft.len(),
{
    if soft.len() == 0 {
        Seq::empty()
    } else {
        let prev = relax_vars_of(soft.drop_last());
        match soft.last().relax_var {
            Some(r) => prev.push(r),
            None => prev,
        }
    }
}

/// The clause `¬v1 ∨ ... ∨ ¬vn` over the variables `vs`.
pub open spec fn negations(vs: Seq<u32>) -> Seq<Literal> {
    vs.map_values(|v: u32| Literal(Literal::code_of(v as nat, false) as u32))
}

/// The clauses that bound by `k` how many of `vars` are true: none when `k` is at least
/// their number; each negated when `k` is 0; otherwise, for at most ten variables, one
/// clause per `k + 1`-subset saying one of them is false (beyond ten, none).
pub open spec fn atmost_clauses(vars: Seq<u32>, k: nat) -> Seq<Seq<Literal>> {
    if k >= vars.len() {
        Seq::empty()
    } else if k == 0 {
        vars.map_values(|v: u32| seq![Literal(Literal::code_of(v as nat, false) as u32)])
    } else if vars.len() <= 10 {
        combos(vars, k + 1).map_values(|c: Seq<u32>| negations(c))
    } else {
        Seq::empty()
    }
}

/// `f` is `f0` with the clauses `cs` appended.
pub open spec fn appended(f0: Formula, f: Formula, cs: Seq<Seq<Literal>>) -> bool {
    &&& f.clause_seq().len() == f0.clause_seq().len() + cs.len()
    &&& forall|i: int| 0 <= i < f0.clause_seq().len() ==> #[trigger] f.clause_seq()[i] == f0.clause_seq()[i]
    &&& forall|i: int| 0 <= i < cs.len() ==> (#[trigger] f.clause_seq()[f0.clause_seq().len() + i])@ == cs[i]
}

/// Variables whose literals the encoding holds.
pub open spec fn vars_ok(vs: Seq<u32>) -> bool {
    forall|i: int| 0 <= i < vs.len() ==> 1 <= #[trigger] vs[i] <= 0x8000_0000
}

proof fn lemma_appended_trans(f0: Formula, f1: Formula, f2: Formula, a: Seq<Seq<Literal>>, b: Seq<Seq<Literal>>)
    requires
        appended(f0, f1, a),
        appended(f1, f2, b),
    ensures
        appended(f0, f2, a + b),
{
    assert forall|i: int| 0 <= i < (a + b).len() implies (#[trigger] f2.clause_seq()[f0.clause_seq().len() + i])@ == (a + b)[i] by {
        if i < a.len() {
            assert(f2.clause_seq()[f0.clause_seq().len() + i] == f1.clause_seq()[f0.clause_seq().len() + i]);
        } else {
            assert(f2.clause_seq()[f1.clause_seq().len() + (i - a.len())]@ == b[i - a.len()]);
        }
    }
}

/// Add the clauses `cs` (as literal vectors) to `formula`.
fn add_all(formula: &mut Formula, cs: Vec<Vec<Literal>>)
    ensures
        appended(*old(formula), *final(formula), cs@.map_values(|c: Vec<Literal>| c@)),
{
    let ghost target = cs@.map_values(|c: Vec<Literal>| c@);
    let ghost f0 = *formula;
    let mut k: usize = 0;
    while k < cs.len()
        invariant
            k <= cs@.len(),
            target == cs@.map_values(|c: Vec<Literal>| c@),
            appended(f0, *formula, target.take(k as int)),
        decreases cs@.len() - k,
    {
        let mut lits: Vec<Literal> = Vec::new();
        let mut j: usize = 0;
        while j < cs[k].len()
            invariant
                k < cs@.len(),
                j <= cs@[k as int]@.len(),
                lits@ == cs@[k as int]@.take(j as int),
            decreases cs@[k as int]@.len() - j,
        {
            lits.push(cs[k][j]);
            assert(cs@[k as int]@.take(j + 1) =~= cs@[k as int]@.take(j as int).push(cs@[k as int]@[j as int]));
            j = j + 1;
        }
        assert(cs@[k as int]@.take(j as int) =~= cs@[k as int]@);
        let ghost f1 = *formula;
        formula.add_clause(Clause::new(lits));
        proof {
            assert(appended(f1, *formula, seq![target[k as int]]));
            lemma_appended_trans(f0, f1, *formula, target.take(k as int), seq![target[k as int]]);
            assert(target.take(k as int) + seq![target[k as int]] =~= target.take(k + 1));
        }
        k = k + 1;
    }
    assert(target.take(k as int) =~= target);
}

/// The clauses bounding by `k` how many of `vars` are true.
pub fn add_atmost_constraint(formula: &mut Formula, vars: &[u32], k: usize)
    requires
        vars_ok(vars@),
    ensures
        appended(*old(formula), *final(formula), atmost_clauses(vars@, k as nat)),
{
    let mut cs: Vec<Vec<Literal>> = Vec::new();
    if k >= vars.len() {
    } else if k == 0 {
        let mut i: usize = 0;
        while i < vars.len()
            invariant
                i <= vars@.len(),
                vars_ok(vars@),
                cs@.len() == i,
                forall|t: int| 0 <= t < i ==> (#[trigger] cs@[t])@ == seq![Literal(Literal::code_of(vars@[t] as nat, false) as u32)],
            decreases vars@.len() - i,
        {
            let l = Literal::negative(Variable(vars[i]));
            let c = vec![l];
            assert(c@ =~= seq![l]);
            cs.push(c);
            i = i + 1;
        }
    } else if vars.len() <= 10 {
        let subsets = combinations(vars, k + 1);
        proof {
            lemma_combos_elements(vars@, (k + 1) as nat);
            assert forall|t: int| 0 <= t < subsets@.len() implies vars_ok(#[trigger] subsets@[t]@) by {
                assert forall|j: int| 0 <= j < subsets@[t]@.len() implies 1 <= #[trigger] subsets@[t]@[j] <= 0x8000_0000 by {
                    assert(vars@.contains(combos(vars@, (k + 1) as nat)[t][j]));
                }
            }
        }
        let mut i: usize = 0;
        while i < subsets.len()
            invariant
                i <= subsets@.len(),
                subsets@.len() == combos(vars@, (k + 1) as nat).len(),
                forall|t: int| 0 <= t < subsets@.len() ==> (#[trigger] subsets@[t])@ == combos(vars@, (k + 1) as nat)[t],
                forall|t: int| 0 <= t < subsets@.len() ==> vars_ok(#[trigger] subsets@[t]@),
                cs@.len() == i,
                forall|t: int| 0 <= t < i ==> (#[trigger] cs@[t])@ == negations(subsets@[t]@),
            decreases subsets@.len() - i,
        {
            let mut c: Vec<Literal> = Vec::new();
            let mut j: usize = 0;
            while j < subsets[i].len()
                invariant
                    i < subsets@.len(),
                    vars_ok(subsets@[i as int]@),
                    j <= subsets@[i as int]@.len(),
                    c@ == negations(subsets@[i as int]@.take(j as int)),
                decreases subsets@[i as int]@.len() - j,
            {
                c.push(Literal::negative(Variable(subsets[i][j])));
                assert(negations(subsets@[i as int]@.take(j + 1)) =~= negations(subsets@[i as int]@.take(j as int)).push(Literal(Literal::code_of(subsets@[i as int]@[j as int] as nat, false) as u32)));
                j = j + 1;
            }
            assert(subsets@[i as int]@.take(j as int) =~= subsets@[i as int]@);
            cs.push(c);
            i = i + 1;
        }
    }
    let ghost target = atmost_clauses(vars@, k as nat);
    assert(cs@.map_values(|c: Vec<Literal>| c@) =~= target);
    add_all(formula, cs);
}

/// Clauses appended to an empty formula are all its clauses.
proof fn lemma_appended_from_empty(f0: Formula, f: Formula, cs: Seq<Seq<Literal>>)
    requires
        appended(f0, f, cs),
        f0.clause_seq().len() == 0,
    ensures
        clause_views(f.clause_seq()) == cs,
{
    assert forall|i: int| 0 <= i < cs.len() implies #[trigger] clause_views(f.clause_seq())[i] == cs[i] by {
        assert(f.clause_seq()[f0.clause_seq().len() + i]@ == cs[i]);
    }
    assert(clause_views(f.clause_seq()) =~= cs);
}

/// Add copies of the clauses `cs` to `formula`.
fn add_clauses(formula: &mut Formula, cs: &Vec<Clause>)
    ensures
        appended(*old(formula), *final(formula), clause_views(cs@)),
{
    let ghost f0 = *formula;
    let mut k: usize = 0;
    while k < cs.len()
        invariant
            k <= cs@.len(),
            appended(f0, *formula, clause_views(cs@).take(k as int)),
        decreases cs@.len() - k,
    {
        let ghost f1 = *formula;
        formula.add_clause(cs[k].duplicate());
        proof {
            assert(appended(f1, *formula, seq![cs@[k as int]@]));
            lemma_appended_trans(f0, f1, *formula, clause_views(cs@).take(k as int), seq![cs@[k as int]@]);
            assert(clause_views(cs@).take(k as int) + seq![cs@[k as int]@] =~= clause_views(cs@).take(k + 1));
        }
        k = k + 1;
    }
    assert(clause_views(cs@).take(k as int) =~= clause_views(cs@));
}

/// The relaxation variables of soft clauses lie in `1..=2^31`.
pub open spec fn relax_ok(soft: Seq<SoftClause>) -> bool {
    forall|i: int| 0 <= i < soft.len() ==> ((#[trigger] soft[i]).relax_var matches Some(r) ==> 1 <= r <= 0x8000_0000)
}

/// The clause of `s` with its relaxation literal.
fn relaxed(s: &SoftClause) -> (c: Clause)
    requires
        s.relax_var matches Some(r) ==> 1 <= r <= 0x8000_0000,
    ensures
        c@ == relaxed_clause(*s),
{
    let lits = s.clause.literals();
    let mut v: Vec<Literal> = Vec::new();
    let mut k: usize = 0;
    while k < lits.len()
        invariant
            k <= lits@.len(),
            v@ == lits@.take(k as int),
        decreases lits@.len() - k,
    {
        v.push(lits[k]);
        assert(lits@.take(k + 1) =~= lits@.take(k as int).push(lits@[k as int]));
        k = k + 1;
    }
    assert(lits@.take(k as int) =~= lits@);
    if let Some(r) = s.relax_var {
        v.push(Literal::positive(Variable(r)));
    }
    Clause::new(v)
}

/// The core-guided MaxSAT search's state: the formula, the next variable, which soft
/// clause each relaxation variable relaxes, the bounds on the optimum, the best model so
/// far, and the counters.
pub struct MaxSatSolver {
    formula: MaxSatFormula,
    next_var: u32,
    relax_to_soft: HashMap<u32, usize>,
    upper_bound: Weight,
    lower_bound: Weight,
    best_model: Option<Vec<bool>>,
    stats: MaxSatStats,
}

impl MaxSatSolver {
    pub closed spec fn soft(&self) -> Seq<SoftClause> {
        self.formula.soft_clauses@
    }

    pub closed spec fn hard(&self) -> Seq<Clause> {
        self.formula.hard_clauses@
    }

    /// The next fresh variable.
    pub closed spec fn next(&self) -> nat {
        self.next_var as nat
    }

    /// The cost of the best model so far (an upper bound on the optimum).
    pub closed spec fn bound(&self) -> nat {
        self.upper_bound as nat
    }

    /// The best model so far.
    pub closed spec fn best(&self) -> Option<Seq<bool>> {
        match self.best_model {
            Some(m) => Some(m@),
            None => None,
        }
    }

    /// The soft clause each relaxation variable relaxes.
    pub closed spec fn relaxed_by(&self) -> Map<u32, usize> {
        self.relax_to_soft@
    }

    /// The counters.
    pub closed spec fn counters(&self) -> MaxSatStats {
        self.stats
    }

    /// The weights fit a `u64`, and the variables fit the literal encoding.
    pub closed spec fn wf(&self) -> bool {
        &&& sum_weights(self.formula.soft_clauses@) <= u64::MAX
        &&& 1 <= self.next_var <= 0x8000_0001
        &&& relax_ok(self.formula.soft_clauses@)
    }

    /// A search for `formula`; the upper bound starts at the total soft weight.
    pub fn new(formula: MaxSatFormula) -> (s: Self)
        requires
            formula.num_vars < 0x8000_0000,
            sum_weights(formula.soft_clauses@) <= u64::MAX,
            relax_ok(formula.soft_clauses@),
        ensures
            s.wf(),
            s.soft() == formula.soft_clauses@,
            s.hard() == formula.hard_clauses@,
            s.next() == formula.num_vars + 1,
            s.bound() == sum_weights(formula.soft_clauses@),
            s.best() is None,
            s.relaxed_by() == Map::<u32, usize>::empty(),
            s.counters().sat_calls == 0 && s.counters().relax_vars == 0,
    {
        let next_var = formula.num_vars + 1;
        let upper_bound = formula.total_weight();
        MaxSatSolver {
            formula,
            next_var,
            relax_to_soft: HashMap::new(),
            upper_bound,
            lower_bound: 0,
            best_model: None,
            stats: MaxSatStats::default(),
        }
    }

    /// The formula being solved.
    pub fn formula(&self) -> (f: &MaxSatFormula)
        ensures
            f.soft_clauses@ == self.soft(),
            f.hard_clauses@ == self.hard(),
    {
        &self.formula
    }

    /// The counters.
    pub fn stats(&self) -> (s: &MaxSatStats)
        ensures
            *s == self.counters(),
    {
        &self.stats
    }

    /// Count a SAT call.
    pub fn note_sat_call(&mut self)
        requires
            old(self).counters().sat_calls < u64::MAX,
        ensures
            final(self).counters().sat_calls == old(self).counters().sat_calls + 1,
            final(self).soft() == old(self).soft(),
            final(self).hard() == old(self).hard(),
            final(self).next() == old(self).next(),
            final(self).bound() == old(self).bound(),
            final(self).best() == old(self).best(),
            final(self).relaxed_by() == old(self).relaxed_by(),
            final(self).wf() == old(self).wf(),
    {
        self.stats.sat_calls = self.stats.sat_calls + 1;
    }

    /// The formula of the hard clauses alone, over the formula's variables.
    pub fn hard_formula(&self) -> (f: Formula)
        ensures
            clause_views(f.clause_seq()) == clause_views(self.hard()),
    {
        let mut f = Formula::new();
        f.set_num_vars(self.formula.num_vars);
        let ghost f0 = f;
        add_clauses(&mut f, &self.formula.hard_clauses);
        proof {
            lemma_appended_from_empty(f0, f, clause_views(self.hard()));
        }
        f
    }

    /// Give each soft clause a fresh relaxation variable, in order.
    pub fn initialize_relaxation_vars(&mut self)
        requires
            old(self).wf(),
            old(self).next() + old(self).soft().len() <= 0x8000_0001,
            old(self).counters().relax_vars + old(self).soft().len() <= u64::MAX,
        ensures
            final(self).wf(),
            final(self).soft().len() == old(self).soft().len(),
            forall|i: int| 0 <= i < old(self).soft().len() ==> {
                &&& (#[trigger] final(self).soft()[i]).relax_var == Some((old(self).next() + i) as u32)
                &&& final(self).soft()[i].clause@ == old(self).soft()[i].clause@
                &&& final(self).soft()[i].weight == old(self).soft()[i].weight
            },
            forall|i: int| 0 <= i < old(self).soft().len() ==> #[trigger] final(self).relaxed_by()[(old(self).next() + i) as u32] == i
                && final(self).relaxed_by().dom().contains((old(self).next() + i) as u32),
            final(self).next() == old(self).next() + old(self).soft().len(),
            final(self).hard() == old(self).hard(),
            final(self).bound() == old(self).bound(),
            final(self).best() == old(self).best(),
            final(self).counters().relax_vars == old(self).counters().relax_vars + old(self).soft().len(),
            final(self).counters().sat_calls == old(self).counters().sat_calls,
    {
        let n = self.formula.soft_clauses.len();
        let ghost s0 = self.formula.soft_clauses@;
        let ghost n0 = self.next_var as nat;
        let mut idx: usize = 0;
        while idx < n
            invariant
                n == s0.len(),
                idx <= n,
                self.formula.soft_clauses@.len() == n,
                self.next_var == n0 + idx,
                n0 + n <= 0x8000_0001,
                1 <= n0,
                self.formula.hard_clauses@ == old(self).formula.hard_clauses@,
                self.formula.num_vars == old(self).formula.num_vars,
                self.upper_bound == old(self).upper_bound,
                self.best_model == old(self).best_model,
                self.stats.sat_calls == old(self).stats.sat_calls,
                self.stats.relax_vars == old(self).stats.relax_vars + idx,
                old(self).stats.relax_vars + n <= u64::MAX,
                s0 == old(self).formula.soft_clauses@,
                forall|i: int| 0 <= i < n ==> (#[trigger] self.formula.soft_clauses@[i]).weight == s0[i].weight
                    && self.formula.soft_clauses@[i].clause@ == s0[i].clause@,
                forall|i: int| 0 <= i < idx ==> (#[trigger] self.formula.soft_clauses@[i]).relax_var == Some((n0 + i) as u32),
                forall|i: int| idx <= i < n ==> (#[trigger] self.formula.soft_clauses@[i]).relax_var == s0[i].relax_var,
                forall|i: int| 0 <= i < idx ==> #[trigger] self.relax_to_soft@[(n0 + i) as u32] == i
                    && self.relax_to_soft@.dom().contains((n0 + i) as u32),
                relax_ok(s0),
            decreases n - idx,
        {
            let relax_var = self.next_var;
            self.next_var = self.next_var + 1;
            let sc = SoftClause {
                clause: self.formula.soft_clauses[idx].clause.duplicate(),
                weight: self.formula.soft_clauses[idx].weight,
                relax_var: Some(relax_var),
            };
            self.formula.soft_clauses.set(idx, sc);
            self.relax_to_soft.insert(relax_var, idx);
            self.stats.relax_vars = self.stats.relax_vars + 1;
            idx = idx + 1;
        }
        proof {
            assert(sum_weights(self.formula.soft_clauses@) == sum_weights(s0)) by {
                lemma_same_weights(self.formula.soft_clauses@, s0);
            }
        }
    }
}

/// Lowering weights does not raise the total.
proof fn lemma_lower_weights(a: Seq<SoftClause>, b: Seq<SoftClause>)
    requires
        a.len() == b.len(),
        forall|i: int| 0 <= i < a.len() ==> (#[trigger] a[i]).weight <= b[i].weight,
    ensures
        sum_weights(a) <= sum_weights(b),
    decreases a.len(),
{
    if a.len() > 0 {
        lemma_lower_weights(a.drop_last(), b.drop_last());
    }
}

/// The weights of the soft clauses that the variables of `core` relax, in order.
pub open spec fn core_weights(core: Seq<u32>, m: Map<u32, usize>, soft: Seq<SoftClause>) -> Seq<Weight>
    decreases core.len(),
{
    if core.len() == 0 {
        Seq::empty()
    } else {
        let prev = core_weights(core.drop_last(), m, soft);
        if m.contains_key(core.last()) { prev.push(soft[m[core.last()] as int].weight) } else { prev }
    }
}

/// The least element of `s` (0 when it is empty).
pub open spec fn seq_min(s: Seq<Weight>) -> Weight
    decreases s.len(),
{
    if s.len() == 0 {
        0
    } else if s.len() == 1 {
        s[0]
    } else {
        let p = seq_min(s.drop_last());
        if s.last() < p { s.last() } else { p }
    }
}

proof fn lemma_seq_min(s: Seq<Weight>)
    requires
        s.len() > 0,
    ensures
        forall|i: int| 0 <= i < s.len() ==> seq_min(s) <= #[trigger] s[i],
        exists|i: int| 0 <= i < s.len() && seq_min(s) == #[trigger] s[i],
    decreases s.len(),
{
    if s.len() == 1 {
        assert(seq_min(s) == s[0]);
    } else {
        lemma_seq_min(s.drop_last());
        assert forall|i: int| 0 <= i < s.len() implies seq_min(s) <= #[trigger] s[i] by {
            if i < s.len() - 1 {
                assert(s[i] == s.drop_last()[i]);
            }
        }
        let j = choose|j: int| 0 <= j < s.drop_last().len() && seq_min(s.drop_last()) == #[trigger] s.drop_last()[j];
        assert(s[j] == s.drop_last()[j]);
        if s.last() < seq_min(s.drop_last()) {
            assert(seq_min(s) == s[s.len() - 1]);
        } else {
            assert(seq_min(s) == s[j]);
        }
    }
}

/// The weight of each soft clause that a variable of `core` relaxes is among the core's
/// weights.
proof fn lemma_core_weights_contain(core: Seq<u32>, m: Map<u32, usize>, soft: Seq<SoftClause>, i: int)
    requires
        0 <= i < core.len(),
        m.contains_key(core[i]),
    ensures
        core_weights(core, m, soft).contains(soft[m[core[i]] as int].weight),
    decreases core.len(),
{
    let prev = core_weights(core.drop_last(), m, soft);
    if i == core.len() - 1 {
        assert(core_weights(core, m, soft).last() == soft[m[core[i]] as int].weight);
    } else {
        assert(core.drop_last()[i] == core[i]);
        lemma_core_weights_contain(core.drop_last(), m, soft, i);
        let k = choose|k: int| 0 <= k < prev.len() && prev[k] == soft[m[core[i]] as int].weight;
        if m.contains_key(core.last()) {
            assert(core_weights(core, m, soft)[k] == prev[k]);
        }
    }
}

/// The weight that processing `core` takes off: the least weight among the soft clauses
/// its variables relax (1 when they relax none, 0 for an empty core).
pub open spec fn core_weight(core: Seq<u32>, m: Map<u32, usize>, soft: Seq<SoftClause>) -> Weight {
    if core.len() == 0 {
        0
    } else if core_weights(core, m, soft).len() == 0 {
        1
    } else {
        seq_min(core_weights(core, m, soft))
    }
}

/// Whether soft clause `j` is relaxed by a variable of `core`.
pub open spec fn in_core(core: Seq<u32>, m: Map<u32, usize>, j: int) -> bool {
    exists|i: int| 0 <= i < core.len() && m.contains_key(#[trigger] core[i]) && m[core[i]] == j
}

/// The clause that some relaxation variable of `vars` is false.
pub open spec fn amo_clause(vars: Seq<u32>) -> Seq<Literal> {
    vars.map_values(|v: u32| Literal(Literal::code_of(v as nat, false) as u32))
}

impl MaxSatSolver {
    /// Whether a model cheaper than `current_cost` may exist: it may unless the cost is 0.
    pub fn add_cost_constraint(&mut self, current_cost: Weight) -> (b: bool)
        ensures
            b == (current_cost != 0),
            *final(self) == *old(self),
    {
        current_cost != 0
    }

    /// The relaxation variables of the soft clauses, as a core; none when no soft clause
    /// has one.
    pub fn extract_core(&self) -> (r: Option<Vec<u32>>)
        requires
            self.wf(),
        ensures
            relax_vars_of(self.soft()).len() == 0 ==> r is None,
            relax_vars_of(self.soft()).len() > 0 ==> (r matches Some(v) && v@ == relax_vars_of(self.soft())),
    {
        let vars = self.relax_vars();
        if vars.len() == 0 {
            None
        } else {
            Some(vars)
        }
    }

    /// Add the hard clause that some variable of `vars` is false.
    pub fn add_amo_constraint(&mut self, vars: &[u32])
        requires
            forall|i: int| 0 <= i < vars@.len() ==> 1 <= #[trigger] vars@[i] <= 0x8000_0000,
            old(self).counters().amo_constraints < u64::MAX,
        ensures
            final(self).hard() == old(self).hard().push(final(self).hard().last()),
            final(self).hard().last()@ == amo_clause(vars@),
            !final(self).hard().last().spec_learned(),
            final(self).soft() == old(self).soft(),
            final(self).next() == old(self).next(),
            final(self).bound() == old(self).bound(),
            final(self).best() == old(self).best(),
            final(self).relaxed_by() == old(self).relaxed_by(),
            final(self).wf() == old(self).wf(),
            final(self).counters().amo_constraints == old(self).counters().amo_constraints + 1,
            final(self).counters().sat_calls == old(self).counters().sat_calls,
            final(self).counters().relax_vars == old(self).counters().relax_vars,
    {
        let mut lits: Vec<Literal> = Vec::new();
        let mut k: usize = 0;
        while k < vars.len()
            invariant
                k <= vars@.len(),
                forall|i: int| 0 <= i < vars@.len() ==> 1 <= #[trigger] vars@[i] <= 0x8000_0000,
                lits@ == amo_clause(vars@.take(k as int)),
            decreases vars@.len() - k,
        {
            let l = Literal::negative(Variable(vars[k]));
            lits.push(l);
            assert(amo_clause(vars@.take(k + 1)) =~= amo_clause(vars@.take(k as int)).push(l));
            k = k + 1;
        }
        assert(vars@.take(k as int) =~= vars@);
        let clause = Clause::new(lits);
        self.formula.hard_clauses.push(clause);
        self.stats.amo_constraints = self.stats.amo_constraints + 1;
    }

    /// Process a core: take its least weight off every soft clause its variables relax,
    /// add the hard clause that some of its variables is false, and return that weight.
    pub fn process_core(&mut self, core: &[u32]) -> (w: Weight)
        requires
            old(self).wf(),
            forall|i: int| 0 <= i < core@.len() ==> 1 <= #[trigger] core@[i] <= 0x8000_0000,
            forall|i: int| 0 <= i < core@.len() && old(self).relaxed_by().contains_key(#[trigger] core@[i])
                ==> old(self).relaxed_by()[core@[i]] < old(self).soft().len(),
            forall|i: int, j: int| 0 <= i < j < core@.len() && old(self).relaxed_by().contains_key(#[trigger] core@[i])
                && old(self).relaxed_by().contains_key(#[trigger] core@[j])
                ==> old(self).relaxed_by()[core@[i]] != old(self).relaxed_by()[core@[j]],
            old(self).counters().amo_constraints < u64::MAX,
        ensures
            w == core_weight(core@, old(self).relaxed_by(), old(self).soft()),
            core@.len() == 0 ==> *final(self) == *old(self),
            core@.len() > 0 ==> {
                &&& final(self).soft().len() == old(self).soft().len()
                &&& forall|j: int| 0 <= j < old(self).soft().len() ==> {
                    &&& (#[trigger] final(self).soft()[j]).weight == if in_core(core@, old(self).relaxed_by(), j) {
                            old(self).soft()[j].weight - w
                        } else {
                            old(self).soft()[j].weight as int
                        }
                    &&& final(self).soft()[j].clause@ == old(self).soft()[j].clause@
                    &&& final(self).soft()[j].relax_var == old(self).soft()[j].relax_var
                }
                &&& final(self).hard() == old(self).hard().push(final(self).hard().last())
                &&& final(self).hard().last()@ == amo_clause(core@)
                &&& final(self).counters().amo_constraints == old(self).counters().amo_constraints + 1
            },
            final(self).wf(),
            final(self).next() == old(self).next(),
            final(self).relaxed_by() == old(self).relaxed_by(),
            final(self).bound() == old(self).bound(),
            final(self).best() == old(self).best(),
    {
        broadcast use vstd::std_specs::hash::group_hash_axioms;
        if core.len() == 0 {
            return 0;
        }
        let ghost m = self.relax_to_soft@;
        let ghost s0 = self.formula.soft_clauses@;
        let mut found = false;
        let mut min_weight: Weight = 0;
        let mut k: usize = 0;
        while k < core.len()
            invariant
                k <= core@.len(),
                m == self.relax_to_soft@,
                s0 == self.formula.soft_clauses@,
                forall|i: int| 0 <= i < core@.len() && m.contains_key(#[trigger] core@[i]) ==> m[core@[i]] < s0.len(),
                found == (core_weights(core@.take(k as int), m, s0).len() > 0),
                found ==> min_weight == seq_min(core_weights(core@.take(k as int), m, s0)),
            decreases core@.len() - k,
        {
            assert(core@.take(k + 1).drop_last() =~= core@.take(k as int));
            assert(core@.take(k + 1).last() == core@[k as int]);
            let ghost cw0 = core_weights(core@.take(k as int), m, s0);
            match self.relax_to_soft.get(&core[k]) {
                Some(idx) => {
                    let wt = self.formula.soft_clauses[*idx].weight;
                    assert(core_weights(core@.take(k + 1), m, s0) == cw0.push(wt));
                    assert(cw0.push(wt).drop_last() =~= cw0);
                    assert(found == (cw0.len() > 0));
                    if !found || wt < min_weight {
                        min_weight = wt;
                    }
                    found = true;
                },
                None => {
                    assert(core_weights(core@.take(k + 1), m, s0) == cw0);
                },
            }
            k = k + 1;
        }
        assert(core@.take(k as int) =~= core@);
        let w = if found { min_weight } else { 1 };
        proof {
            if found {
                lemma_seq_min(core_weights(core@, m, s0));
            }
            assert forall|i: int| 0 <= i < core@.len() && m.contains_key(#[trigger] core@[i]) implies w <= s0[m[core@[i]] as int].weight by {
                lemma_core_weights_contain(core@, m, s0, i);
                let cw = core_weights(core@, m, s0);
                let t = choose|t: int| 0 <= t < cw.len() && cw[t] == s0[m[core@[i]] as int].weight;
                assert(found);
            }
        }
        let mut q: usize = 0;
        while q < core.len()
            invariant
                q <= core@.len(),
                m == self.relax_to_soft@,
                s0.len() == self.formula.soft_clauses@.len(),
                self.formula.hard_clauses@ == old(self).formula.hard_clauses@,
                self.next_var == old(self).next_var,
                self.upper_bound == old(self).upper_bound,
                self.best_model == old(self).best_model,
                self.stats == old(self).stats,
                s0 == old(self).formula.soft_clauses@,
                m == old(self).relax_to_soft@,
                w == core_weight(core@, m, s0),
                forall|i: int| 0 <= i < core@.len() && m.contains_key(#[trigger] core@[i]) ==> m[core@[i]] < s0.len(),
                forall|i: int, j: int| 0 <= i < j < core@.len() && m.contains_key(#[trigger] core@[i])
                    && m.contains_key(#[trigger] core@[j]) ==> m[core@[i]] != m[core@[j]],
                forall|i: int| 0 <= i < core@.len() && m.contains_key(#[trigger] core@[i]) ==> w <= s0[m[core@[i]] as int].weight,
                forall|j: int| 0 <= j < s0.len() ==> {
                    &&& (#[trigger] self.formula.soft_clauses@[j]).weight == if in_core(core@.take(q as int), m, j) {
                            s0[j].weight - w
                        } else {
                            s0[j].weight as int
                        }
                    &&& self.formula.soft_clauses@[j].clause@ == s0[j].clause@
                    &&& self.formula.soft_clauses@[j].relax_var == s0[j].relax_var
                },
            decreases core@.len() - q,
        {
            match self.relax_to_soft.get(&core[q]) {
                Some(idx) => {
                    let j = *idx;
                    proof {
                        assert(m.contains_key(core@[q as int]) && m[core@[q as int]] == j);
                        if in_core(core@.take(q as int), m, j as int) {
                            let i = choose|i: int| 0 <= i < core@.take(q as int).len() && m.contains_key(#[trigger] core@.take(q as int)[i]) && m[core@.take(q as int)[i]] == j;
                            assert(core@.take(q as int)[i] == core@[i]);
                            assert(m[core@[i]] != m[core@[q as int]]);
                        }
                        assert(w <= s0[j as int].weight);
                    }
                    let old_sc = &self.formula.soft_clauses[j];
                    let sc = SoftClause {
                        clause: old_sc.clause.duplicate(),
                        weight: old_sc.weight - w,
                        relax_var: old_sc.relax_var,
                    };
                    self.formula.soft_clauses.set(j, sc);
                },
                None => {},
            }
            proof {
                assert forall|j: int| 0 <= j < s0.len() implies
                    in_core(core@.take(q + 1), m, j) == (in_core(core@.take(q as int), m, j)
                        || (m.contains_key(core@[q as int]) && m[core@[q as int]] == j)) by {
                    if in_core(core@.take(q + 1), m, j) {
                        let i = choose|i: int| 0 <= i < core@.take(q + 1).len() && m.contains_key(#[trigger] core@.take(q + 1)[i]) && m[core@.take(q + 1)[i]] == j;
                        if i < q {
                            assert(core@.take(q as int)[i] == core@.take(q + 1)[i]);
                        }
                    }
                    if in_core(core@.take(q as int), m, j) {
                        let i = choose|i: int| 0 <= i < core@.take(q as int).len() && m.contains_key(#[trigger] core@.take(q as int)[i]) && m[core@.take(q as int)[i]] == j;
                        assert(core@.take(q + 1)[i] == core@.take(q as int)[i]);
                    }
                    if m.contains_key(core@[q as int]) && m[core@[q as int]] == j {
                        assert(core@.take(q + 1)[q as int] == core@[q as int]);
                    }
                }
            }
            q = q + 1;
        }
        assert(core@.take(q as int) =~= core@);
        proof {
            assert forall|j: int| 0 <= j < s0.len() implies (#[trigger] self.formula.soft_clauses@[j]).weight <= s0[j].weight by {}
            lemma_lower_weights(self.formula.soft_clauses@, s0);
            assert forall|i: int| 0 <= i < self.formula.soft_clauses@.len() implies
                ((#[trigger] self.formula.soft_clauses@[i]).relax_var matches Some(r) ==> 1 <= r <= 0x8000_0000) by {
                assert(self.formula.soft_clauses@[i].relax_var == s0[i].relax_var);
            }
        }
        self.add_amo_constraint(core);
        w
    }
}

/// Sequences of soft clauses with the same weights have the same total.
proof fn lemma_same_weights(a: Seq<SoftClause>, b: Seq<SoftClause>)
    requires
        a.len() == b.len(),
        forall|i: int| 0 <= i < a.len() ==> (#[trigger] a[i]).weight == b[i].weight,
    ensures
        sum_weights(a) == sum_weights(b),
    decreases a.len(),
{
    if a.len() > 0 {
        lemma_same_weights(a.drop_last(), b.drop_last());
    }
}

/// The relaxed clauses of `soft`.
pub open spec fn all_relaxed(soft: Seq<SoftClause>) -> Seq<Seq<Literal>> {
    soft.map_values(|s: SoftClause| relaxed_clause(s))
}

impl MaxSatSolver {
    /// The hard clauses and every soft clause with its relaxation literal, over the
    /// variables below the next fresh one.
    pub fn build_sat_formula(&self) -> (f: Formula)
        requires
            self.wf(),
        ensures
            clause_views(f.clause_seq()) == clause_views(self.hard()) + all_relaxed(self.soft()),
    {
        let mut f = Formula::new();
        f.set_num_vars(self.next_var - 1);
        let ghost f0 = f;
        add_clauses(&mut f, &self.formula.hard_clauses);
        let ghost f1 = f;
        let ghost target = all_relaxed(self.soft());
        let mut k: usize = 0;
        while k < self.formula.soft_clauses.len()
            invariant
                k <= self.soft().len(),
                self.wf(),
                target == all_relaxed(self.soft()),
                appended(f1, f, target.take(k as int)),
            decreases self.soft().len() - k,
        {
            let ghost f2 = f;
            proof {
                assert(relax_ok(self.formula.soft_clauses@));
                assert(self.formula.soft_clauses@[k as int].relax_var matches Some(r) ==> 1 <= r <= 0x8000_0000);
            }
            f.add_clause(relaxed(&self.formula.soft_clauses[k]));
            proof {
                assert(appended(f2, f, seq![target[k as int]]));
                lemma_appended_trans(f1, f2, f, target.take(k as int), seq![target[k as int]]);
                assert(target.take(k as int) + seq![target[k as int]] =~= target.take(k + 1));
            }
            k = k + 1;
        }
        proof {
            assert(target.take(k as int) =~= target);
            lemma_appended_trans(f0, f1, f, clause_views(self.hard()), target);
            lemma_appended_from_empty(f0, f, clause_views(self.hard()) + target);
        }
        f
    }

    /// The relaxation variables of the soft clauses, in order.
    fn relax_vars(&self) -> (v: Vec<u32>)
        requires
            self.wf(),
        ensures
            v@ == relax_vars_of(self.soft()),
            vars_ok(v@),
    {
        let mut v: Vec<u32> = Vec::new();
        let mut k: usize = 0;
        while k < self.formula.soft_clauses.len()
            invariant
                k <= self.soft().len(),
                self.wf(),
                v@ == relax_vars_of(self.soft().take(k as int)),
                vars_ok(v@),
            decreases self.soft().len() - k,
        {
            assert(self.soft().take(k + 1).drop_last() =~= self.soft().take(k as int));
            assert(self.soft()[k as int].relax_var matches Some(r) ==> 1 <= r <= 0x8000_0000);
            if let Some(r) = self.formula.soft_clauses[k].relax_var {
                v.push(r);
            }
            k = k + 1;
        }
        assert(self.soft().take(k as int) =~= self.soft());
        v
    }

    /// The formula asking for a model cheaper than the best so far: the hard clauses,
    /// the relaxed soft clauses (those with relaxation variables), and the bound of
    /// `upper bound - 1` on how many relaxation variables hold.
    pub fn improvement_formula(&self) -> (f: Formula)
        requires
            self.wf(),
            self.bound() > 0,
        ensures
            clause_views(f.clause_seq()) == clause_views(self.hard()) + relaxed_only(self.soft())
                + atmost_clauses(relax_vars_of(self.soft()), ((self.bound() - 1) as usize) as nat),
    {
        let mut f = Formula::new();
        f.set_num_vars(self.next_var - 1);
        let ghost f0 = f;
        add_clauses(&mut f, &self.formula.hard_clauses);
        let ghost f1 = f;
        let mut k: usize = 0;
        while k < self.formula.soft_clauses.len()
            invariant
                k <= self.soft().len(),
                self.wf(),
                appended(f1, f, relaxed_only(self.soft().take(k as int))),
            decreases self.soft().len() - k,
        {
            assert(self.soft().take(k + 1).drop_last() =~= self.soft().take(k as int));
            assert(self.soft()[k as int].relax_var matches Some(r) ==> 1 <= r <= 0x8000_0000);
            if self.formula.soft_clauses[k].relax_var.is_some() {
                let ghost f2 = f;
                f.add_clause(relaxed(&self.formula.soft_clauses[k]));
                proof {
                    let prev = relaxed_only(self.soft().take(k as int));
                    assert(appended(f2, f, seq![relaxed_clause(self.soft()[k as int])]));
                    lemma_appended_trans(f1, f2, f, prev, seq![relaxed_clause(self.soft()[k as int])]);
                    assert(prev + seq![relaxed_clause(self.soft()[k as int])] =~= prev.push(relaxed_clause(self.soft()[k as int])));
                }
            }
            k = k + 1;
        }
        assert(self.soft().take(k as int) =~= self.soft());
        let vars = self.relax_vars();
        let target = (self.upper_bound - 1) as usize;
        let ghost f3 = f;
        add_atmost_constraint(&mut f, vars.as_slice(), target);
        proof {
            lemma_appended_trans(f0, f1, f3, clause_views(self.hard()), relaxed_only(self.soft()));
            lemma_appended_trans(f0, f3, f, clause_views(self.hard()) + relaxed_only(self.soft()),
                atmost_clauses(relax_vars_of(self.soft()), target as nat));
            lemma_appended_from_empty(f0, f, clause_views(self.hard()) + relaxed_only(self.soft())
                + atmost_clauses(relax_vars_of(self.soft()), target as nat));
        }
        f
    }

    /// The cost of `model`.
    pub fn compute_cost(&self, model: &[bool]) -> (c: Weight)
        requires
            self.wf(),
        ensures
            c == cost_of(self.soft(), model@),
    {
        let mut cost: u64 = 0;
        let mut k: usize = 0;
        while k < self.formula.soft_clauses.len()
            invariant
                k <= self.soft().len(),
                self.wf(),
                cost == cost_of(self.soft().take(k as int), model@),
            decreases self.soft().len() - k,
        {
            proof {
                assert(self.soft().take(k + 1).drop_last() =~= self.soft().take(k as int));
                lemma_cost_bound(self.soft().take(k + 1), model@);
                lemma_sum_weights_prefix(self.soft(), k + 1);
            }
            if let Some(relax_var) = self.formula.soft_clauses[k].relax_var {
                if relax_var >= 1 {
                    let relax_idx = (relax_var - 1) as usize;
                    if relax_idx < model.len() && model[relax_idx] {
                        cost = cost + self.formula.soft_clauses[k].weight;
                    }
                }
            }
            k = k + 1;
        }
        assert(self.soft().take(k as int) =~= self.soft());
        cost
    }

    /// The indices of the soft clauses that `model` satisfies, without relaxation.
    pub fn compute_satisfied(&self, model: &[bool]) -> (s: Vec<usize>)
        ensures
            s@ == satisfied_indices(self.soft(), model@),
    {
        let mut satisfied: Vec<usize> = Vec::new();
        let mut k: usize = 0;
        while k < self.formula.soft_clauses.len()
            invariant
                k <= self.soft().len(),
                satisfied@ == satisfied_indices(self.soft().take(k as int), model@),
            decreases self.soft().len() - k,
        {
            assert(self.soft().take(k + 1).drop_last() =~= self.soft().take(k as int));
            let lits = self.formula.soft_clauses[k].clause.literals();
            let mut sat = false;
            let mut j: usize = 0;
            while j < lits.len()
                invariant
                    j <= lits@.len(),
                    lits@ == self.soft()[k as int].clause@,
                    sat == exists|i: int| 0 <= i < j && #[trigger] lit_true_in(model@, lits@[i]),
                decreases lits@.len() - j,
            {
                let lit = lits[j];
                let var_idx = (lit.variable().index() - 1) as usize;
                if var_idx < model.len() {
                    let val = model[var_idx];
                    if (lit.is_positive() && val) || (!lit.is_positive() && !val) {
                        assert(lit_true_in(model@, lits@[j as int]));
                        sat = true;
                    }
                }
                j = j + 1;
            }
            if sat {
                satisfied.push(k);
            }
            k = k + 1;
        }
        assert(self.soft().take(k as int) =~= self.soft());
        satisfied
    }

    /// Take the first model found: the bound becomes its cost.
    pub fn record_initial(&mut self, model: Vec<bool>)
        requires
            old(self).wf(),
        ensures
            final(self).wf(),
            final(self).bound() == cost_of(old(self).soft(), model@),
            final(self).best() == Some(model@),
            final(self).soft() == old(self).soft(),
            final(self).hard() == old(self).hard(),
            final(self).next() == old(self).next(),
            final(self).counters() == old(self).counters(),
            final(self).relaxed_by() == old(self).relaxed_by(),
    {
        let cost = self.compute_cost(model.as_slice());
        self.upper_bound = cost;
        self.best_model = Some(model);
    }

    /// Take a model of the improvement formula: when it is cheaper than the best so far
    /// it becomes the best, and the search goes on; otherwise it stops.
    pub fn record_improvement(&mut self, model: Vec<bool>) -> (go_on: bool)
        requires
            old(self).wf(),
        ensures
            final(self).wf(),
            go_on == (cost_of(old(self).soft(), model@) < old(self).bound()),
            go_on ==> final(self).bound() == cost_of(old(self).soft(), model@) && final(self).best() == Some(model@),
            !go_on ==> final(self).bound() == old(self).bound() && final(self).best() == old(self).best(),
            final(self).soft() == old(self).soft(),
            final(self).hard() == old(self).hard(),
            final(self).next() == old(self).next(),
            final(self).counters() == old(self).counters(),
            final(self).relaxed_by() == old(self).relaxed_by(),
    {
        let cost = self.compute_cost(model.as_slice());
        if cost < self.upper_bound {
            self.upper_bound = cost;
            self.best_model = Some(model);
            true
        } else {
            false
        }
    }

    /// Whether the search may try to improve: the bound is above 0 and fewer than 1000
    /// SAT calls were made.
    pub fn can_improve(&self) -> (b: bool)
        ensures
            b == (self.bound() > 0 && self.counters().sat_calls < 1000),
    {
        self.upper_bound > 0 && self.stats.sat_calls < 1000
    }

    /// The result: the best model with its cost and satisfied soft clauses, or `Unknown`
    /// when there is none.
    pub fn build_result(&self) -> (r: MaxSatResult)
        requires
            self.wf(),
        ensures
            match self.best() {
                Some(m) => r matches MaxSatResult::Optimum { model, cost, satisfied }
                    && model@ == m && cost == cost_of(self.soft(), m) && satisfied@ == satisfied_indices(self.soft(), m),
                None => r is Unknown,
            },
    {
        match &self.best_model {
            Some(model) => {
                let cost = self.compute_cost(model.as_slice());
                let satisfied = self.compute_satisfied(model.as_slice());
                let mut copy: Vec<bool> = Vec::new();
                let mut k: usize = 0;
                while k < model.len()
                    invariant
                        k <= model@.len(),
                        copy@ == model@.take(k as int),
                    decreases model@.len() - k,
                {
                    copy.push(model[k]);
                    assert(model@.take(k + 1) =~= model@.take(k as int).push(model@[k as int]));
                    k = k + 1;
                }
                assert(model@.take(k as int) =~= model@);
                MaxSatResult::Optimum { model: copy, cost, satisfied }
            },
            None => MaxSatResult::Unknown,
        }
    }
}

/// What has been read of a WCNF text: the current top weight, and once a header was
/// read, the variable count with the hard clauses and the weighted soft clauses.
pub struct WcnfModel {
    pub top: u64,
    pub formula: Option<(u32, Seq<Seq<i32>>, Seq<(Seq<i32>, u64)>)>,
}

/// Reading the line `text` of a WCNF input. Lines starting with `p ` are headers
/// `p wcnf <vars> <clauses> [<top>]`, each of which starts a new formula; other lines
/// (not empty, not comments) are clauses `<weight> <lits> 0`, read only after a header:
/// hard when the weight reaches the top weight, soft otherwise, and skipped when they
/// have no literal.
pub open spec fn wcnf_line(m: WcnfModel, text: Seq<char>) -> Result<WcnfModel, Seq<char>> {
    let t = trim(text);
    if t.len() == 0 || t[0] == 'c' {
        Ok(m)
    } else if t.len() >= 2 && t[0] == 'p' && t[1] == ' ' {
        let ws = words(t);
        if ws.len() < 4 || ws[1] != "wcnf"@ {
            Err("Invalid WCNF header"@)
        } else {
            match int_in(ws[2], false, 0, u32::MAX as int) {
                None => Err("Invalid num_vars"@),
                Some(n) => if ws.len() > 4 {
                    match int_in(ws[4], false, 0, u64::MAX as int) {
                        None => Err("Invalid top_weight"@),
                        Some(tw) => Ok(WcnfModel { top: tw as u64, formula: Some((n as u32, Seq::empty(), Seq::empty())) }),
                    }
                } else {
                    Ok(WcnfModel { top: m.top, formula: Some((n as u32, Seq::empty(), Seq::empty())) })
                },
            }
        }
    } else {
        match m.formula {
            None => Ok(m),
            Some((nv, hard, soft)) => {
                let ws = words(t);
                match int_in(ws[0], false, 0, u64::MAX as int) {
                    None => Err("Invalid weight"@),
                    Some(w) => {
                        let lits = lenient_ints(ws.drop_first());
                        if lits.len() == 0 {
                            Ok(m)
                        } else if w >= m.top {
                            Ok(WcnfModel { top: m.top, formula: Some((nv, hard.push(lits), soft)) })
                        } else {
                            Ok(WcnfModel { top: m.top, formula: Some((nv, hard, soft.push((lits, w as u64)))) })
                        }
                    },
                }
            },
        }
    }
}

/// Reading the lines `ls`, stopping at the first refusal.
pub open spec fn wcnf_lines(ls: Seq<Seq<char>>) -> Result<WcnfModel, Seq<char>>
    decreases ls.len(),
{
    if ls.len() == 0 {
        Ok(WcnfModel { top: u64::MAX, formula: None })
    } else {
        match wcnf_lines(ls.drop_last()) {
            Ok(m) => wcnf_line(m, ls.last()),
            Err(e) => Err(e),
        }
    }
}

/// What the WCNF text `s` reads as; a text without a header is refused.
pub open spec fn read_wcnf(s: Seq<char>) -> Result<(u32, Seq<Seq<i32>>, Seq<(Seq<i32>, u64)>), Seq<char>> {
    match wcnf_lines(lines(s)) {
        Err(e) => Err(e),
        Ok(m) => match m.formula {
            Some(f) => Ok(f),
            None => Err("No WCNF header found"@),
        },
    }
}

/// `f` is the formula `(nv, hard, soft)`.
pub open spec fn maxsat_is(f: MaxSatFormula, model: (u32, Seq<Seq<i32>>, Seq<(Seq<i32>, u64)>)) -> bool {
    &&& f.num_vars == model.0
    &&& f.hard_clauses@.len() == model.1.len()
    &&& forall|i: int| 0 <= i < model.1.len() ==> lits_are((#[trigger] f.hard_clauses@[i])@, model.1[i])
    &&& f.soft_clauses@.len() == model.2.len()
    &&& forall|i: int| 0 <= i < model.2.len() ==> {
        &&& lits_are((#[trigger] f.soft_clauses@[i]).clause@, model.2[i].0)
        &&& f.soft_clauses@[i].weight == model.2[i].1
        &&& f.soft_clauses@[i].relax_var is None
    }
}

/// The literals of the DIMACS numbers `vals` (none of them 0).
fn literals_of(vals: &Vec<i32>) -> (v: Vec<Literal>)
    requires
        forall|i: int| 0 <= i < vals@.len() ==> #[trigger] vals@[i] != 0,
    ensures
        lits_are(v@, vals@),
{
    let mut v: Vec<Literal> = Vec::new();
    let mut k: usize = 0;
    while k < vals.len()
        invariant
            k <= vals@.len(),
            forall|i: int| 0 <= i < vals@.len() ==> #[trigger] vals@[i] != 0,
            v@.len() == k,
            forall|i: int| 0 <= i < k ==> (#[trigger] v@[i]).dimacs() == vals@[i],
        decreases vals@.len() - k,
    {
        v.push(Literal::from_dimacs(vals[k]));
        k = k + 1;
    }
    v
}

proof fn lemma_lenient_nonzero(toks: Seq<Seq<char>>)
    ensures
        forall|i: int| 0 <= i < lenient_ints(toks).len() ==> #[trigger] lenient_ints(toks)[i] != 0,
    decreases toks.len(),
{
    if toks.len() > 0 {
        lemma_lenient_nonzero(toks.drop_first());
        let rest = lenient_ints(toks.drop_first());
        if let Some(v) = int_in(toks[0], true, -0x8000_0000, 0x7fff_ffff) {
            if v != 0 {
                assert forall|i: int| 0 <= i < lenient_ints(toks).len() implies #[trigger] lenient_ints(toks)[i] != 0 by {
                    if i > 0 {
                        assert(lenient_ints(toks)[i] == rest[i - 1]);
                    }
                }
            }
        }
    }
}

/// Read one line of a WCNF text into `top` and `formula`.
fn wcnf_read_line(text: &Vec<char>, top: &mut u64, formula: &mut Option<MaxSatFormula>) -> (r: Result<(), String>)
    ensures
        forall|m: WcnfModel| m.top == *old(top) && (match m.formula {
            Some(fm) => *old(formula) matches Some(f) && maxsat_is(f, fm),
            None => *old(formula) is None,
        }) ==> match #[trigger] wcnf_line(m, text@) {
            Ok(m2) => r is Ok && m2.top == *final(top) && (match m2.formula {
                Some(fm) => *final(formula) matches Some(f) && maxsat_is(f, fm),
                None => *final(formula) is None,
            }),
            Err(e) => r matches Err(x) && x@ == e,
        },
{
    let t = trimmed(text.as_slice());
    if t.len() == 0 || t[0] == 'c' {
        return Ok(());
    }
    if t.len() >= 2 && t[0] == 'p' && t[1] == ' ' {
        let ws = split_words(t.as_slice());
        proof {
            assert(char_views(ws@) =~= words(t@));
        }
        if ws.len() < 4 || !is_word(&ws[1], "wcnf") {
            return Err(text_of("Invalid WCNF header"));
        }
        let n = match parse_int(ws[2].as_slice(), false, 0, 0xffff_ffff) {
            Some(n) => n as u32,
            None => return Err(text_of("Invalid num_vars")),
        };
        if ws.len() > 4 {
            match parse_int(ws[4].as_slice(), false, 0, 0xffff_ffff_ffff_ffff) {
                Some(tw) => {
                    *top = tw as u64;
                },
                None => return Err(text_of("Invalid top_weight")),
            }
        }
        *formula = Some(MaxSatFormula::new(n));
        return Ok(());
    }
    match formula {
        None => Ok(()),
        Some(f) => {
            let ws = split_words(t.as_slice());
            proof {
                assert(char_views(ws@) =~= words(t@));
                crate::parser::text::lemma_trim_first(text@);
                lemma_trim_first_word(t@);
            }
            let w = match parse_int(ws[0].as_slice(), false, 0, 0xffff_ffff_ffff_ffff) {
                Some(w) => w as u64,
                None => return Err(text_of("Invalid weight")),
            };
            let vals = read_lenient_ints(&ws, 1);
            proof {
                assert(char_views(ws@).skip(1) =~= words(t@).drop_first());
                lemma_lenient_nonzero(words(t@).drop_first());
            }
            if vals.len() == 0 {
                return Ok(());
            }
            let lits = literals_of(&vals);
            let ghost hard0 = f.hard_clauses@;
            let ghost soft0 = f.soft_clauses@;
            if w >= *top {
                f.add_hard(Clause::new(lits));
            } else {
                f.add_soft(Clause::new(lits), w);
            }
            Ok(())
        },
    }
}

/// A non-empty trimmed text has a first word.
proof fn lemma_trim_first_word(t: Seq<char>)
    requires
        t.len() > 0,
        !is_white(t[0]),
    ensures
        words(t).len() > 0,
    decreases t.len(),
{
    if t.len() == 1 {
        lemma_words_last(t);
    } else {
        lemma_trim_first_word(t.drop_last());
        lemma_words_grow(t);
    }
}

/// Adding a character never removes a word.
proof fn lemma_words_grow(t: Seq<char>)
    requires
        t.len() > 0,
    ensures
        words(t).len() >= words(t.drop_last()).len(),
{
    if !is_white(t.last()) && !(t.len() >= 2 && !is_white(t[t.len() - 2])) {
    }
}

/// Whether the characters of `w` are those of `t`.
fn is_word(w: &Vec<char>, t: &str) -> (b: bool)
    ensures
        b == (w@ == t@),
{
    let c = chars_of(t);
    if w.len() != c.len() {
        return false;
    }
    let mut k: usize = 0;
    while k < w.len()
        invariant
            k <= w@.len() == c@.len(),
            c@ == t@,
            forall|i: int| 0 <= i < k ==> w@[i] == c@[i],
        decreases w@.len() - k,
    {
        if w[k] != c[k] {
            return false;
        }
        k = k + 1;
    }
    assert(w@ =~= c@);
    true
}

/// The text `t`.
fn text_of(t: &str) -> (r: String)
    ensures
        r@ == t@,
{
    t.to_owned()
}

/// Read a WCNF (weighted CNF) text.
pub fn parse_wcnf(input: &str) -> (r: Result<MaxSatFormula, String>)
    ensures
        match read_wcnf(input@) {
            Ok(fm) => r matches Ok(f) && maxsat_is(f, fm),
            Err(e) => r matches Err(x) && x@ == e,
        },
{
    let chars = chars_of(input);
    let ls = split_lines(&chars);
    let ghost all = lines(chars@);
    let mut top: u64 = 0xffff_ffff_ffff_ffff;
    let mut formula: Option<MaxSatFormula> = None;
    proof {
        assert(all.take(0) =~= Seq::<Seq<char>>::empty());
    }
    let mut k: usize = 0;
    while k < ls.len()
        invariant
            all == lines(input@),
            ls@.len() == all.len(),
            forall|i: int| 0 <= i < ls@.len() ==> (#[trigger] ls@[i])@ == all[i],
            k <= ls@.len(),
            wcnf_lines(all.take(k as int)) matches Ok(m) && m.top == top && (match m.formula {
                Some(fm) => formula matches Some(f) && maxsat_is(f, fm),
                None => formula is None,
            }),
        decreases ls@.len() - k,
    {
        let ghost m = wcnf_lines(all.take(k as int))->Ok_0;
        let res = wcnf_read_line(&ls[k], &mut top, &mut formula);
        proof {
            assert(all.take(k + 1).drop_last() =~= all.take(k as int));
            assert(all.take(k + 1).last() == ls@[k as int]@);
        }
        match res {
            Err(e) => {
                proof {
                    lemma_wcnf_stop(all, k + 1);
                }
                return Err(e);
            },
            Ok(()) => {},
        }
        k = k + 1;
    }
    proof {
        assert(all.take(k as int) =~= all);
    }
    match formula {
        Some(f) => Ok(f),
        None => Err(text_of("No WCNF header found")),
    }
}

/// Once a prefix of the lines is refused, so is the whole text.
proof fn lemma_wcnf_stop(ls: Seq<Seq<char>>, k: int)
    requires
        0 <= k <= ls.len(),
        wcnf_lines(ls.take(k)) is Err,
    ensures
        wcnf_lines(ls) == wcnf_lines(ls.take(k)),
    decreases ls.len() - k,
{
    if k < ls.len() {
        assert(ls.take(k + 1).drop_last() =~= ls.take(k));
        lemma_wcnf_stop(ls, k + 1);
    } else {
        assert(ls.take(k) =~= ls);
    }
}

} // verus!
