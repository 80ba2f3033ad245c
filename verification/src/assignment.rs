//! Variable assignments: value, decision level and reason of each variable.
use vstd::prelude::*;
use crate::clause::ClauseRef;
use crate::literal::{Literal, Variable};

verus! {

/// The value of a variable.
#[derive(Debug, Clone, Copy, PartialEq, Eq, Structural)]
pub enum Value {
    True,
    False,
    Unassigned,
}

impl Value {
    /// Whether the value is `True` or `False`.
    pub fn is_assigned(&self) -> (b: bool)
        ensures
            b == !(*self is Unassigned),
    {
        !matches!(self, Value::Unassigned)
    }

    /// `Some(b)` for an assigned value, `None` otherwise.
    pub fn to_bool(&self) -> (r: Option<bool>)
        ensures
            r == match *self {
                Value::True => Some(true),
                Value::False => Some(false),
                Value::Unassigned => None::<bool>,
            },
    {
        match self {
            Value::True => Some(true),
            Value::False => Some(false),
            Value::Unassigned => None,
        }
    }

    /// The value of a boolean.
    pub fn from_bool(b: bool) -> (v: Self)
        ensures
            v == Value::from_bool_spec(b),
    {
        if b {
            Value::True
        } else {
            Value::False
        }
    }

    /// `True` for `true`, `False` for `false`.
    pub open spec fn from_bool_spec(b: bool) -> Value {
        if b {
            Value::True
        } else {
            Value::False
        }
    }
}

/// What is recorded about one variable.
#[derive(Debug, Clone, Copy)]
pub struct AssignmentInfo {
    /// The assigned value.
    pub value: Value,
    /// Decision level of the assignment.
    pub level: u32,
    /// The clause that forced the assignment (`None` for a decision).
    pub antecedent: Option<ClauseRef>,
    /// Position of the assignment in the order of assignments.
    pub order: u32,
}

impl AssignmentInfo {
    /// Information of an unassigned variable.
    pub open spec fn unassigned_spec() -> AssignmentInfo {
        AssignmentInfo { value: Value::Unassigned, level: 0, antecedent: None, order: 0 }
    }

    /// Information of an unassigned variable.
    pub fn unassigned() -> (a: Self)
        ensures
            a == Self::unassigned_spec(),
    {
        AssignmentInfo { value: Value::Unassigned, level: 0, antecedent: None, order: 0 }
    }

    /// Whether the variable was assigned by a decision.
    pub fn is_decision(&self) -> (b: bool)
        ensures
            b == (self.antecedent is None && !(self.value is Unassigned)),
    {
        self.antecedent.is_none() && self.value.is_assigned()
    }

    /// Whether the variable was assigned by propagation.
    pub fn is_propagated(&self) -> (b: bool)
        ensures
            b == self.antecedent is Some,
    {
        self.antecedent.is_some()
    }
}

/// Number of assigned entries in `s`.
pub open spec fn count_assigned(s: Seq<AssignmentInfo>) -> nat
    decreases s.len(),
{
    if s.len() == 0 {
        0
    } else {
        count_assigned(s.drop_last()) + if s.last().value is Unassigned { 0nat } else { 1nat }
    }
}

/// Assigning an unassigned entry adds one to the number of assigned entries.
pub proof fn lemma_count_assigned_update(s: Seq<AssignmentInfo>, i: int, a: AssignmentInfo)
    requires
        0 <= i < s.len(),
        s[i].value is Unassigned,
        !(a.value is Unassigned),
    ensures
        count_assigned(s.update(i, a)) == count_assigned(s) + 1,
    decreases s.len(),
{
    let t = s.update(i, a);
    if i == s.len() - 1 {
        assert(t.drop_last() =~= s.drop_last());
    } else {
        assert(t.drop_last() =~= s.drop_last().update(i, a));
        lemma_count_assigned_update(s.drop_last(), i, a);
    }
}

/// The number of assigned entries is at most the number of entries.
pub proof fn lemma_count_assigned_bound(s: Seq<AssignmentInfo>)
    ensures
        count_assigned(s) <= s.len(),
        count_assigned(s) == s.len() <==> forall|i: int| 0 <= i < s.len() ==> !(s[i].value is Unassigned),
    decreases s.len(),
{
    if s.len() > 0 {
        lemma_count_assigned_bound(s.drop_last());
        if count_assigned(s) == s.len() {
            assert forall|i: int| 0 <= i < s.len() implies !(s[i].value is Unassigned) by {
                if i < s.len() - 1 {
                    assert(s.drop_last()[i] == s[i]);
                }
            }
        }
        if forall|i: int| 0 <= i < s.len() ==> !(s[i].value is Unassigned) {
            assert forall|i: int| 0 <= i < s.drop_last().len() implies !(s.drop_last()[i].value is Unassigned) by {
                assert(s.drop_last()[i] == s[i]);
            }
        }
    }
}

/// Assignment of every variable (indexed by variable index - 1).
#[derive(Debug)]
pub struct Assignments {
    assignments: Vec<AssignmentInfo>,
    order_counter: u32,
}

impl View for Assignments {
    type V = Seq<AssignmentInfo>;

    closed spec fn view(&self) -> Seq<AssignmentInfo> {
        self.assignments@
    }
}

impl Assignments {
    /// Well-formedness: every variable index fits in a `u32`.
    pub closed spec fn wf(&self) -> bool {
        &&& self.assignments@.len() <= u32::MAX
        &&& forall|i: int| 0 <= i < self.assignments@.len() && (#[trigger] self.assignments@[i]).value is Unassigned
            ==> self.assignments@[i].level == 0 && self.assignments@[i].antecedent is None
    }

    /// An unassigned variable is of level 0 and has no antecedent.
    pub proof fn lemma_unassigned_entries(&self)
        requires
            self.wf(),
        ensures
            forall|i: int| 0 <= i < self@.len() && (#[trigger] self@[i]).value is Unassigned
                ==> self@[i].level == 0 && self@[i].antecedent is None,
    {
    }

    /// The number of assignments made so far.
    pub closed spec fn order_count(&self) -> u32 {
        self.order_counter
    }

    /// The recorded information of the variable with 1-based index `v`, if it has an entry.
    pub open spec fn info_of(&self, v: nat) -> Option<AssignmentInfo> {
        if 1 <= v <= self@.len() {
            Some(self@[v - 1])
        } else {
            None
        }
    }

    /// The value of the variable with 1-based index `v`.
    pub open spec fn value_of(&self, v: nat) -> Value {
        match self.info_of(v) {
            Some(a) => a.value,
            None => Value::Unassigned,
        }
    }

    /// The decision level of the variable with 1-based index `v`.
    pub open spec fn level_of(&self, v: nat) -> u32 {
        match self.info_of(v) {
            Some(a) => a.level,
            None => 0,
        }
    }

    /// The antecedent of the variable with 1-based index `v`.
    pub open spec fn antecedent_of(&self, v: nat) -> Option<ClauseRef> {
        match self.info_of(v) {
            Some(a) => a.antecedent,
            None => None,
        }
    }

    /// The value of a literal under the assignment.
    pub open spec fn lit_value(&self, l: Literal) -> Value {
        match self.value_of(l.var_of()) {
            Value::True => if l.pos() { Value::True } else { Value::False },
            Value::False => if l.pos() { Value::False } else { Value::True },
            Value::Unassigned => Value::Unassigned,
        }
    }

    /// The number of assignments made so far.
    pub fn order_counter(&self) -> (n: u32)
        ensures
            n == self.order_count(),
    {
        self.order_counter
    }

    /// Create an assignment of `num_vars` unassigned variables.
    pub fn new(num_vars: u32) -> (a: Self)
        ensures
            a@ == Seq::new(num_vars as nat, |i: int| AssignmentInfo::unassigned_spec()),
            a.order_count() == 0,
            a.wf(),
    {
        let mut v: Vec<AssignmentInfo> = Vec::new();
        let mut i: u32 = 0;
        while i < num_vars
            invariant
                i <= num_vars,
                v@ == Seq::new(i as nat, |k: int| AssignmentInfo::unassigned_spec()),
            decreases num_vars - i,
        {
            v.push(AssignmentInfo::unassigned());
            i = i + 1;
        }
        Assignments { assignments: v, order_counter: 0 }
    }

    /// Grow to hold at least `num_vars` variables; new variables are unassigned.
    pub fn resize(&mut self, num_vars: u32)
        requires
            old(self).wf(),
        ensures
            final(self).wf(),
            final(self)@.len() == if old(self)@.len() < num_vars { num_vars as nat } else { old(self)@.len() },
            forall|i: int| 0 <= i < old(self)@.len() ==> final(self)@[i] == old(self)@[i],
            forall|i: int| old(self)@.len() <= i < final(self)@.len() ==> final(self)@[i] == AssignmentInfo::unassigned_spec(),
            final(self).order_count() == old(self).order_count(),
    {
        while self.assignments.len() < num_vars as usize
            invariant
                self@.len() >= old(self)@.len(),
                self@.len() <= if old(self)@.len() < num_vars { num_vars as nat } else { old(self)@.len() },
                forall|i: int| 0 <= i < old(self)@.len() ==> self@[i] == old(self)@[i],
                forall|i: int| old(self)@.len() <= i < self@.len() ==> self@[i] == AssignmentInfo::unassigned_spec(),
                self.order_count() == old(self).order_count(),
                self.wf(),
            decreases num_vars as usize - self.assignments.len(),
        {
            self.assignments.push(AssignmentInfo::unassigned());
        }
    }

    /// The number of variables with an entry.
    pub fn num_vars(&self) -> (n: usize)
        ensures
            n == self@.len(),
    {
        self.assignments.len()
    }

    /// The value of a variable (`Unassigned` for a variable without an entry).
    pub fn value(&self, var: Variable) -> (v: Value)
        ensures
            v == self.value_of(var.0 as nat),
    {
        if var.0 == 0 {
            return Value::Unassigned;
        }
        let idx = var.to_index();
        if idx < self.assignments.len() {
            self.assignments[idx].value
        } else {
            Value::Unassigned
        }
    }

    /// The decision level of a variable (0 for a variable without an entry).
    pub fn level(&self, var: Variable) -> (l: u32)
        ensures
            l == self.level_of(var.0 as nat),
    {
        if var.0 == 0 {
            return 0;
        }
        let idx = var.to_index();
        if idx < self.assignments.len() {
            self.assignments[idx].level
        } else {
            0
        }
    }

    /// The antecedent clause of a variable.
    pub fn antecedent(&self, var: Variable) -> (r: Option<ClauseRef>)
        ensures
            r == self.antecedent_of(var.0 as nat),
    {
        if var.0 == 0 {
            return None;
        }
        let idx = var.to_index();
        if idx < self.assignments.len() {
            self.assignments[idx].antecedent
        } else {
            None
        }
    }

    /// The recorded information of a variable.
    pub fn info(&self, var: Variable) -> (r: Option<&AssignmentInfo>)
        ensures
            r matches Some(a) ==> self.info_of(var.0 as nat) == Some(*a),
            r is None ==> self.info_of(var.0 as nat) is None,
    {
        if var.0 == 0 {
            return None;
        }
        let idx = var.to_index();
        if idx < self.assignments.len() {
            Some(&self.assignments[idx])
        } else {
            None
        }
    }

    /// Whether a variable is assigned.
    pub fn is_assigned(&self, var: Variable) -> (b: bool)
        ensures
            b == !(self.value_of(var.0 as nat) is Unassigned),
    {
        self.value(var).is_assigned()
    }

    /// Assign a variable, growing the table when the variable has no entry yet.
    pub fn assign(&mut self, var: Variable, value: bool, level: u32, antecedent: Option<ClauseRef>)
        requires
            var.0 > 0,
            old(self).order_count() < u32::MAX,
            old(self).wf(),
        ensures
            final(self).wf(),
            final(self)@.len() == if old(self)@.len() < var.0 { var.0 as nat } else { old(self)@.len() },
            final(self)@[var.0 - 1] == (AssignmentInfo {
                value: Value::from_bool_spec(value),
                level,
                antecedent,
                order: (old(self).order_count() + 1) as u32,
            }),
            forall|i: int| 0 <= i < final(self)@.len() && i != var.0 - 1 ==> final(self)@[i] == if i < old(self)@.len() { old(self)@[i] } else { AssignmentInfo::unassigned_spec() },
            final(self).order_count() == old(self).order_count() + 1,
    {
        let idx = var.to_index();
        if idx >= self.assignments.len() {
            self.resize(var.index());
        }
        self.order_counter = self.order_counter + 1;
        let info = AssignmentInfo {
            value: Value::from_bool(value),
            level,
            antecedent,
            order: self.order_counter,
        };
        self.assignments.set(idx, info);
    }

    /// Assign a variable by a decision.
    pub fn decide(&mut self, var: Variable, value: bool, level: u32)
        requires
            var.0 > 0,
            old(self).order_count() < u32::MAX,
            old(self).wf(),
        ensures
            final(self).wf(),
            final(self)@.len() == if old(self)@.len() < var.0 { var.0 as nat } else { old(self)@.len() },
            final(self)@[var.0 - 1] == (AssignmentInfo {
                value: Value::from_bool_spec(value),
                level,
                antecedent: None,
                order: (old(self).order_count() + 1) as u32,
            }),
            forall|i: int| 0 <= i < final(self)@.len() && i != var.0 - 1 ==> final(self)@[i] == if i < old(self)@.len() { old(self)@[i] } else { AssignmentInfo::unassigned_spec() },
            final(self).order_count() == old(self).order_count() + 1,
    {
        self.assign(var, value, level, None);
    }

    /// Assign a variable by propagation from `antecedent`.
    pub fn propagate(&mut self, var: Variable, value: bool, level: u32, antecedent: ClauseRef)
        requires
            var.0 > 0,
            old(self).order_count() < u32::MAX,
            old(self).wf(),
        ensures
            final(self).wf(),
            final(self)@.len() == if old(self)@.len() < var.0 { var.0 as nat } else { old(self)@.len() },
            final(self)@[var.0 - 1] == (AssignmentInfo {
                value: Value::from_bool_spec(value),
                level,
                antecedent: Some(antecedent),
                order: (old(self).order_count() + 1) as u32,
            }),
            forall|i: int| 0 <= i < final(self)@.len() && i != var.0 - 1 ==> final(self)@[i] == if i < old(self)@.len() { old(self)@[i] } else { AssignmentInfo::unassigned_spec() },
            final(self).order_count() == old(self).order_count() + 1,
    {
        self.assign(var, value, level, Some(antecedent));
    }

    /// Unassign a variable (no effect on a variable without an entry).
    pub fn unassign(&mut self, var: Variable)
        ensures
            old(self).wf() ==> final(self).wf(),
            final(self)@ == if 1 <= var.0 <= old(self)@.len() {
                old(self)@.update(var.0 - 1, AssignmentInfo::unassigned_spec())
            } else {
                old(self)@
            },
            final(self).order_count() == old(self).order_count(),
    {
        if var.0 == 0 {
            return;
        }
        let idx = var.to_index();
        if idx < self.assignments.len() {
            self.assignments.set(idx, AssignmentInfo::unassigned());
        }
    }

    /// The value of a literal under the assignment.
    pub fn eval_literal(&self, lit: Literal) -> (v: Value)
        ensures
            v == self.lit_value(lit),
    {
        match self.value(lit.variable()) {
            Value::True => {
                if lit.is_positive() {
                    Value::True
                } else {
                    Value::False
                }
            },
            Value::False => {
                if lit.is_positive() {
                    Value::False
                } else {
                    Value::True
                }
            },
            Value::Unassigned => Value::Unassigned,
        }
    }

    /// Whether a literal is true under the assignment.
    pub fn is_satisfied(&self, lit: Literal) -> (b: bool)
        ensures
            b == (self.lit_value(lit) == Value::True),
    {
        self.eval_literal(lit) == Value::True
    }

    /// Whether a literal is false under the assignment.
    pub fn is_falsified(&self, lit: Literal) -> (b: bool)
        ensures
            b == (self.lit_value(lit) == Value::False),
    {
        self.eval_literal(lit) == Value::False
    }

    /// The assigned variables, in increasing order of index.
    pub fn assigned_vars(&self) -> (r: Vec<Variable>)
        requires
            self.wf(),
        ensures
            r@.len() == count_assigned(self@),
            forall|k: int| 0 <= k < r@.len() ==> 1 <= #[trigger] r@[k].0 <= self@.len() && !(self@[r@[k].0 - 1].value is Unassigned),
            forall|k: int, m: int| 0 <= k < m < r@.len() ==> r@[k].0 < r@[m].0,
            forall|i: int| 0 <= i < self@.len() && !(#[trigger] self@[i].value is Unassigned) ==> exists|k: int| 0 <= k < r@.len() && r@[k].0 == i + 1,
    {
        let mut r: Vec<Variable> = Vec::new();
        let n = self.assignments.len();
        let mut i: usize = 0;
        while i < n
            invariant
                n == self@.len(),
                n <= u32::MAX,
                i <= n,
                r@.len() == count_assigned(self@.take(i as int)),
                forall|k: int| 0 <= k < r@.len() ==> 1 <= #[trigger] r@[k].0 <= i && !(self@[r@[k].0 - 1].value is Unassigned),
                forall|k: int, m: int| 0 <= k < m < r@.len() ==> r@[k].0 < r@[m].0,
                forall|j: int| 0 <= j < i && !(#[trigger] self@[j].value is Unassigned) ==> exists|k: int| 0 <= k < r@.len() && r@[k].0 == j + 1,
            decreases n - i,
        {
            assert(self@.take(i + 1).drop_last() =~= self@.take(i as int));
            proof {
                lemma_count_assigned_bound(self@.take(i as int));
            }
            let ghost r_old = r@;
            if self.assignments[i].value.is_assigned() {
                r.push(Variable((i + 1) as u32));
            }
            assert forall|j: int| 0 <= j < i + 1 && !(#[trigger] self@[j].value is Unassigned) implies exists|k: int| 0 <= k < r@.len() && r@[k].0 == j + 1 by {
                if j < i {
                    let k = choose|k: int| 0 <= k < r_old.len() && r_old[k].0 == j + 1;
                    assert(r@[k] == r_old[k]);
                } else {
                    assert(r@[r@.len() - 1].0 == j + 1);
                }
            }
            i = i + 1;
        }
        assert(self@.take(n as int) =~= self@);
        r
    }

    /// The number of assigned variables.
    pub fn num_assigned(&self) -> (n: usize)
        ensures
            n == count_assigned(self@),
    {
        let mut count: usize = 0;
        let n = self.assignments.len();
        let mut i: usize = 0;
        while i < n
            invariant
                n == self@.len(),
                i <= n,
                count == count_assigned(self@.take(i as int)),
            decreases n - i,
        {
            assert(self@.take(i + 1).drop_last() =~= self@.take(i as int));
            proof {
                lemma_count_assigned_bound(self@.take(i as int));
            }
            if self.assignments[i].value.is_assigned() {
                count = count + 1;
            }
            i = i + 1;
        }
        assert(self@.take(n as int) =~= self@);
        count
    }

    /// Whether every variable with an entry is assigned.
    pub fn all_assigned(&self) -> (b: bool)
        ensures
            b == forall|i: int| 0 <= i < self@.len() ==> !(#[trigger] self@[i].value is Unassigned),
    {
        let n = self.assignments.len();
        let mut i: usize = 0;
        while i < n
            invariant
                n == self@.len(),
                i <= n,
                forall|j: int| 0 <= j < i ==> !(#[trigger] self@[j].value is Unassigned),
            decreases n - i,
        {
            if !self.assignments[i].value.is_assigned() {
                return false;
            }
            i = i + 1;
        }
        true
    }

    /// The model: `true` exactly for the variables assigned `True`.
    pub fn model(&self) -> (m: Vec<bool>)
        ensures
            m@.len() == self@.len(),
            forall|i: int| 0 <= i < self@.len() ==> #[trigger] m@[i] == (self@[i].value == Value::True),
    {
        let mut m: Vec<bool> = Vec::new();
        let n = self.assignments.len();
        let mut i: usize = 0;
        while i < n
            invariant
                n == self@.len(),
                i <= n,
                m@.len() == i,
                forall|j: int| 0 <= j < i ==> #[trigger] m@[j] == (self@[j].value == Value::True),
            decreases n - i,
        {
            m.push(self.assignments[i].value == Value::True);
            i = i + 1;
        }
        m
    }
}

} // verus!
