//! What the clauses of the Tseitin encoding say: under every assignment that satisfies
//! them, the literal that stands for an encoded term has the term's truth value, its
//! atoms taking the values of their variables.
use vstd::prelude::*;
use crate::formula::Formula;
use crate::literal::{Literal, lemma_negate_involutive};
use crate::parser::smtlib::{TermModel, TermOp};
use crate::dpll_t::{SmtVar, debug_text, latest_var, is_connective, negated, ends_with, or_clauses, and_clauses, xor_clauses, ite_clauses, gives, gives_count};
use crate::solver::maxsat::appended;

verus! {

/// Whether the literal `l` is true under the assignment `m` of truth values to variables.
pub open spec fn lit_holds(m: spec_fn(nat) -> bool, l: Literal) -> bool {
    m(l.var_of()) == l.pos()
}

/// Whether some literal of `c` is true under `m`.
pub open spec fn clause_holds(m: spec_fn(nat) -> bool, c: Seq<Literal>) -> bool {
    exists|k: int| 0 <= k < c.len() && lit_holds(m, #[trigger] c[k])
}

/// Whether `m` satisfies the clauses of `f` from position `s` up to `e` (excluded).
pub open spec fn holds_between(f: Formula, s: int, e: int, m: spec_fn(nat) -> bool) -> bool {
    forall|j: int| s <= j < e ==> clause_holds(m, (#[trigger] f.clause_seq()[j])@)
}

/// The variable of the first entry of `keys` whose text is `k`.
pub open spec fn key_var(keys: Seq<(String, u32)>, k: Seq<char>) -> Option<u32>
    decreases keys.len(),
{
    if keys.len() == 0 {
        None
    } else {
        match key_var(keys.drop_last(), k) {
            Some(v) => Some(v),
            None => if keys.last().0@ == k { Some(keys.last().1) } else { None },
        }
    }
}

/// `k2` starts with the entries of `k1`.
pub open spec fn keys_extend(k1: Seq<(String, u32)>, k2: Seq<(String, u32)>) -> bool {
    &&& k1.len() <= k2.len()
    &&& forall|i: int| 0 <= i < k1.len() ==> #[trigger] k2[i] == k1[i]
}

/// The variable of an atom: a declared Boolean constant's own, otherwise the one that
/// the atom's text is keyed to.
pub open spec fn atom_var(vars: Seq<(String, SmtVar)>, keys: Seq<(String, u32)>, t: TermModel) -> Option<u32> {
    match t {
        TermModel::Var(name) => if latest_var(vars, name) is Some { latest_var(vars, name) } else { key_var(keys, debug_text(t)) },
        _ => key_var(keys, debug_text(t)),
    }
}

/// The truth value of an atom under `m`: that of its variable.
pub open spec fn atom_value(t: TermModel, m: spec_fn(nat) -> bool, vars: Seq<(String, SmtVar)>, keys: Seq<(String, u32)>) -> bool {
    match atom_var(vars, keys, t) {
        Some(v) => m(v as nat),
        None => false,
    }
}

/// The truth value of `t` under `m`: `not`, `and`, `or`, `=>`, `xor` and `ite` as in
/// SMT-LIB, atoms by their variables.
pub open spec fn term_value(t: TermModel, m: spec_fn(nat) -> bool, vars: Seq<(String, SmtVar)>, keys: Seq<(String, u32)>) -> bool
    decreases t,
{
    match t {
        TermModel::True => true,
        TermModel::False => false,
        TermModel::Op(op, args) => if is_connective(op) {
            match op {
                TermOp::Not => if args.len() == 1 { !term_value(args[0], m, vars, keys) } else { false },
                TermOp::And => all_values(args, m, vars, keys),
                TermOp::Or => any_values(args, m, vars, keys),
                TermOp::Implies => if args.len() == 2 {
                    !term_value(args[0], m, vars, keys) || term_value(args[1], m, vars, keys)
                } else {
                    false
                },
                TermOp::Xor => if args.len() == 2 {
                    term_value(args[0], m, vars, keys) != term_value(args[1], m, vars, keys)
                } else {
                    false
                },
                _ => if args.len() == 3 {
                    if term_value(args[0], m, vars, keys) { term_value(args[1], m, vars, keys) } else { term_value(args[2], m, vars, keys) }
                } else {
                    false
                },
            }
        } else {
            atom_value(t, m, vars, keys)
        },
        _ => atom_value(t, m, vars, keys),
    }
}

/// Whether every term of `ts` is true under `m`.
pub open spec fn all_values(ts: Seq<TermModel>, m: spec_fn(nat) -> bool, vars: Seq<(String, SmtVar)>, keys: Seq<(String, u32)>) -> bool
    decreases ts,
{
    if ts.len() == 0 {
        true
    } else {
        all_values(ts.subrange(0, ts.len() - 1), m, vars, keys) && term_value(ts[ts.len() - 1], m, vars, keys)
    }
}

/// Whether some term of `ts` is true under `m`.
pub open spec fn any_values(ts: Seq<TermModel>, m: spec_fn(nat) -> bool, vars: Seq<(String, SmtVar)>, keys: Seq<(String, u32)>) -> bool
    decreases ts,
{
    if ts.len() == 0 {
        false
    } else {
        any_values(ts.subrange(0, ts.len() - 1), m, vars, keys) || term_value(ts[ts.len() - 1], m, vars, keys)
    }
}

/// `all_values` and `any_values` say what their names say.
pub proof fn lemma_values(ts: Seq<TermModel>, m: spec_fn(nat) -> bool, vars: Seq<(String, SmtVar)>, keys: Seq<(String, u32)>)
    ensures
        all_values(ts, m, vars, keys) == forall|i: int| 0 <= i < ts.len() ==> term_value(#[trigger] ts[i], m, vars, keys),
        any_values(ts, m, vars, keys) == exists|i: int| 0 <= i < ts.len() && term_value(#[trigger] ts[i], m, vars, keys),
    decreases ts.len(),
{
    if ts.len() > 0 {
        let pre = ts.subrange(0, ts.len() - 1);
        lemma_values(pre, m, vars, keys);
        assert forall|i: int| 0 <= i < pre.len() implies #[trigger] pre[i] == ts[i] by {}
        if forall|i: int| 0 <= i < ts.len() ==> term_value(#[trigger] ts[i], m, vars, keys) {
            assert forall|i: int| 0 <= i < pre.len() implies term_value(#[trigger] pre[i], m, vars, keys) by {
                assert(pre[i] == ts[i]);
            }
        }
        if all_values(ts, m, vars, keys) {
            assert forall|i: int| 0 <= i < ts.len() implies term_value(#[trigger] ts[i], m, vars, keys) by {
                if i < ts.len() - 1 {
                    assert(pre[i] == ts[i]);
                }
            }
        }
        if exists|i: int| 0 <= i < ts.len() && term_value(#[trigger] ts[i], m, vars, keys) {
            let i = choose|i: int| 0 <= i < ts.len() && term_value(#[trigger] ts[i], m, vars, keys);
            if i < ts.len() - 1 {
                assert(pre[i] == ts[i]);
            }
        }
        if exists|i: int| 0 <= i < pre.len() && term_value(#[trigger] pre[i], m, vars, keys) {
            let i = choose|i: int| 0 <= i < pre.len() && term_value(#[trigger] pre[i], m, vars, keys);
            assert(pre[i] == ts[i]);
        }
    }
}

/// Whether every sub-term of `t` is encoded by a literal: no `true` or `false` inside,
/// and each connective with its number of operands (at least one for `and` and `or`).
pub open spec fn encodable(t: TermModel) -> bool
    decreases t,
{
    match t {
        TermModel::True => false,
        TermModel::False => false,
        TermModel::Op(op, args) => if is_connective(op) {
            &&& (if op is Not {
                args.len() == 1
            } else if op is Implies || op is Xor {
                args.len() == 2
            } else if op is Ite {
                args.len() == 3
            } else {
                args.len() >= 1
            })
            &&& forall|i: int| 0 <= i < args.len() ==> encodable(#[trigger] args[i])
        } else {
            true
        },
        _ => true,
    }
}

/// Whether every atom of `t` has a variable.
pub open spec fn keyed(t: TermModel, vars: Seq<(String, SmtVar)>, keys: Seq<(String, u32)>) -> bool
    decreases t,
{
    match t {
        TermModel::True => true,
        TermModel::False => true,
        TermModel::Op(op, args) => if is_connective(op) {
            forall|i: int| 0 <= i < args.len() ==> keyed(#[trigger] args[i], vars, keys)
        } else {
            atom_var(vars, keys, t) is Some
        },
        _ => atom_var(vars, keys, t) is Some,
    }
}

/// Whether, under every assignment that satisfies the clauses of `f` from position `s`
/// on, the literal `l` has the truth value of `t`.
pub open spec fn encodes(f: Formula, s: int, l: Literal, t: TermModel, vars: Seq<(String, SmtVar)>, keys: Seq<(String, u32)>) -> bool {
    forall|m: spec_fn(nat) -> bool| #[trigger] holds_between(f, s, f.clause_seq().len() as int, m)
        ==> lit_holds(m, l) == term_value(t, m, vars, keys)
}

/// Whether, under every assignment that satisfies the clauses of `f` from position `s`
/// on, each literal of `lits` has the truth value of the term of `ts` at its position.
pub open spec fn encodes_all(f: Formula, s: int, lits: Seq<Literal>, ts: Seq<TermModel>, vars: Seq<(String, SmtVar)>, keys: Seq<(String, u32)>) -> bool {
    &&& lits.len() == ts.len()
    &&& forall|m: spec_fn(nat) -> bool| #[trigger] holds_between(f, s, f.clause_seq().len() as int, m)
        ==> forall|i: int| 0 <= i < ts.len() ==> lit_holds(m, #[trigger] lits[i]) == term_value(ts[i], m, vars, keys)
}

/// `f` keeps the clauses of `f0` at their positions.
pub open spec fn keeps(f0: Formula, f: Formula) -> bool {
    &&& f0.clause_seq().len() <= f.clause_seq().len()
    &&& forall|k: int| 0 <= k < f0.clause_seq().len() ==> #[trigger] f.clause_seq()[k] == f0.clause_seq()[k]
}

/// What a literal encodes stays encoded when clauses and entries are added after it.
pub proof fn lemma_encodes_later(f0: Formula, f: Formula, s0: int, s: int, l: Literal, t: TermModel,
    vars: Seq<(String, SmtVar)>, k0: Seq<(String, u32)>, k: Seq<(String, u32)>)
    requires
        keeps(f0, f),
        0 <= s <= s0 <= f0.clause_seq().len(),
        keys_extend(k0, k),
        keyed(t, vars, k0),
        encodes(f0, s0, l, t, vars, k0),
    ensures
        keyed(t, vars, k),
        encodes(f, s, l, t, vars, k),
{
    lemma_value_extend(t, |x: nat| true, vars, k0, k);
    assert forall|m: spec_fn(nat) -> bool| #[trigger] holds_between(f, s, f.clause_seq().len() as int, m)
        implies lit_holds(m, l) == term_value(t, m, vars, k) by {
        lemma_holds_within(f0, f, s, f.clause_seq().len() as int, s0, f0.clause_seq().len() as int, m);
        lemma_value_extend(t, m, vars, k0, k);
    }
}

/// Encoding one more term after a run of encoded terms gives a longer run.
pub proof fn lemma_encodes_all_push(f0: Formula, f: Formula, s: int, lits: Seq<Literal>, ts: Seq<TermModel>, l: Literal, t: TermModel,
    vars: Seq<(String, SmtVar)>, k0: Seq<(String, u32)>, k: Seq<(String, u32)>)
    requires
        keeps(f0, f),
        0 <= s <= f0.clause_seq().len(),
        keys_extend(k0, k),
        forall|i: int| 0 <= i < ts.len() ==> keyed(#[trigger] ts[i], vars, k0),
        encodes_all(f0, s, lits, ts, vars, k0),
        encodes(f, f0.clause_seq().len() as int, l, t, vars, k),
    ensures
        forall|i: int| 0 <= i < ts.len() ==> keyed(#[trigger] ts[i], vars, k),
        encodes_all(f, s, lits.push(l), ts.push(t), vars, k),
{
    assert forall|i: int| 0 <= i < ts.len() implies keyed(#[trigger] ts[i], vars, k) by {
        lemma_value_extend(ts[i], |x: nat| true, vars, k0, k);
    }
    assert forall|m: spec_fn(nat) -> bool| #[trigger] holds_between(f, s, f.clause_seq().len() as int, m)
        implies forall|i: int| 0 <= i < ts.push(t).len() ==> lit_holds(m, #[trigger] lits.push(l)[i]) == term_value(ts.push(t)[i], m, vars, k) by {
        lemma_holds_within(f0, f, s, f.clause_seq().len() as int, s, f0.clause_seq().len() as int, m);
        assert(holds_between(f, f0.clause_seq().len() as int, f.clause_seq().len() as int, m));
        assert forall|i: int| 0 <= i < ts.push(t).len() implies lit_holds(m, #[trigger] lits.push(l)[i]) == term_value(ts.push(t)[i], m, vars, k) by {
            if i < ts.len() {
                assert(lits.push(l)[i] == lits[i]);
                assert(ts.push(t)[i] == ts[i]);
                assert(lit_holds(m, lits[i]) == term_value(ts[i], m, vars, k0));
                lemma_value_extend(ts[i], m, vars, k0, k);
            }
        }
    }
}

/// Terms whose every operand gives a literal all give one.
proof fn lemma_gives_count_all(ts: Seq<TermModel>)
    requires
        forall|i: int| 0 <= i < ts.len() ==> gives(#[trigger] ts[i]),
    ensures
        gives_count(ts) == ts.len(),
    decreases ts.len(),
{
    if ts.len() > 0 {
        let pre = ts.subrange(0, ts.len() - 1);
        assert forall|i: int| 0 <= i < pre.len() implies gives(#[trigger] pre[i]) by {
            assert(pre[i] == ts[i]);
        }
        lemma_gives_count_all(pre);
    }
}

/// An encodable term gives a literal.
pub proof fn lemma_encodable_gives(t: TermModel)
    requires
        encodable(t),
    ensures
        gives(t),
    decreases t,
{
    if let TermModel::Op(op, args) = t {
        if is_connective(op) {
            assert forall|i: int| 0 <= i < args.len() implies gives(#[trigger] args[i]) by {
                lemma_encodable_gives(args[i]);
            }
            lemma_gives_count_all(args);
        }
    }
}

/// An entry found stays the one found when entries are added after it.
pub proof fn lemma_key_var_extend(k1: Seq<(String, u32)>, k2: Seq<(String, u32)>, key: Seq<char>)
    requires
        keys_extend(k1, k2),
        key_var(k1, key) is Some,
    ensures
        key_var(k2, key) == key_var(k1, key),
    decreases k2.len(),
{
    if k2.len() > k1.len() {
        lemma_key_var_extend(k1, k2.drop_last(), key);
    } else {
        assert(k2 =~= k1);
    }
}

/// Without an entry of text `key`, none is found.
pub proof fn lemma_key_var_none(keys: Seq<(String, u32)>, key: Seq<char>)
    requires
        forall|i: int| 0 <= i < keys.len() ==> (#[trigger] keys[i]).0@ != key,
    ensures
        key_var(keys, key) is None,
    decreases keys.len(),
{
    if keys.len() > 0 {
        lemma_key_var_none(keys.drop_last(), key);
    }
}

/// The first entry of text `key` is the one found.
pub proof fn lemma_key_var_found(keys: Seq<(String, u32)>, key: Seq<char>, j: int)
    requires
        0 <= j < keys.len(),
        keys[j].0@ == key,
        forall|i: int| 0 <= i < j ==> (#[trigger] keys[i]).0@ != key,
    ensures
        key_var(keys, key) == Some(keys[j].1),
    decreases keys.len(),
{
    if j < keys.len() - 1 {
        lemma_key_var_found(keys.drop_last(), key, j);
    } else {
        lemma_key_var_none(keys.drop_last(), key);
    }
}

/// An atom keeps its variable when entries are added.
pub proof fn lemma_atom_var_extend(t: TermModel, vars: Seq<(String, SmtVar)>, k1: Seq<(String, u32)>, k2: Seq<(String, u32)>)
    requires
        keys_extend(k1, k2),
        atom_var(vars, k1, t) is Some,
    ensures
        atom_var(vars, k2, t) == atom_var(vars, k1, t),
{
    if !(t is Var && latest_var(vars, t->Var_0) is Some) {
        lemma_key_var_extend(k1, k2, debug_text(t));
    }
}

/// Once its atoms have variables, a term keeps its value when entries are added.
pub proof fn lemma_value_extend(t: TermModel, m: spec_fn(nat) -> bool, vars: Seq<(String, SmtVar)>, k1: Seq<(String, u32)>, k2: Seq<(String, u32)>)
    requires
        keys_extend(k1, k2),
        keyed(t, vars, k1),
    ensures
        keyed(t, vars, k2),
        term_value(t, m, vars, k1) == term_value(t, m, vars, k2),
    decreases t,
{
    match t {
        TermModel::True => {},
        TermModel::False => {},
        TermModel::Op(op, args) => {
            if is_connective(op) {
                assert forall|i: int| 0 <= i < args.len() implies keyed(#[trigger] args[i], vars, k2)
                    && term_value(args[i], m, vars, k1) == term_value(args[i], m, vars, k2) by {
                    lemma_value_extend(args[i], m, vars, k1, k2);
                }
                lemma_values(args, m, vars, k1);
                lemma_values(args, m, vars, k2);
            } else {
                lemma_atom_var_extend(t, vars, k1, k2);
            }
        },
        _ => {
            lemma_atom_var_extend(t, vars, k1, k2);
        },
    }
}

/// The complement of a literal is true exactly when the literal is false.
pub proof fn lemma_negated_holds(m: spec_fn(nat) -> bool, l: Literal)
    ensures
        lit_holds(m, negated(l)) == !lit_holds(m, l),
{
    lemma_negate_involutive(l);
}

/// An assignment that satisfies clauses of `f` satisfies the same clauses of `f0`, whose
/// clauses `f` keeps.
pub proof fn lemma_holds_within(f0: Formula, f: Formula, s: int, e: int, s1: int, e1: int, m: spec_fn(nat) -> bool)
    requires
        f0.clause_seq().len() <= f.clause_seq().len(),
        forall|k: int| 0 <= k < f0.clause_seq().len() ==> #[trigger] f.clause_seq()[k] == f0.clause_seq()[k],
        holds_between(f, s, e, m),
        s <= s1,
        e1 <= e,
        e1 <= f0.clause_seq().len(),
        0 <= s1,
    ensures
        holds_between(f0, s1, e1, m),
{
    assert forall|j: int| s1 <= j < e1 implies clause_holds(m, (#[trigger] f0.clause_seq()[j])@) by {
        assert(f.clause_seq()[j] == f0.clause_seq()[j]);
    }
}

/// A formula that is another with clauses appended ends with them.
pub proof fn lemma_appended_ends(f0: Formula, f: Formula, cs: Seq<Seq<Literal>>)
    requires
        appended(f0, f, cs),
    ensures
        ends_with(f, cs),
        keeps(f0, f),
{
    assert forall|i: int| 0 <= i < cs.len() implies (#[trigger] f.clause_seq()[f.clause_seq().len() - cs.len() + i])@ == cs[i] by {
        assert(f.clause_seq().len() - cs.len() + i == f0.clause_seq().len() + i);
    }
}

/// The clause at position `j` of `f` holds under `m`.
proof fn lemma_clause_at(f: Formula, s: int, e: int, m: spec_fn(nat) -> bool, j: int)
    requires
        holds_between(f, s, e, m),
        s <= j < e,
    ensures
        clause_holds(m, f.clause_seq()[j]@),
{
}

/// Every assignment that satisfies the exclusive-or clauses of `x`, `a` and `b` makes `x`
/// true exactly when one of `a` and `b` is.
pub proof fn lemma_xor_meaning(f: Formula, s: int, x: Literal, a: Literal, b: Literal, m: spec_fn(nat) -> bool)
    requires
        ends_with(f, xor_clauses(x, a, b)),
        0 <= s <= f.clause_seq().len() - 4,
        holds_between(f, s, f.clause_seq().len() as int, m),
    ensures
        lit_holds(m, x) == (lit_holds(m, a) != lit_holds(m, b)),
{
    let n = f.clause_seq().len() as int;
    let cs = xor_clauses(x, a, b);
    lemma_negated_holds(m, x);
    lemma_negated_holds(m, a);
    lemma_negated_holds(m, b);
    assert forall|i: int| 0 <= i < 4 implies clause_holds(m, #[trigger] cs[i]) by {
        lemma_clause_at(f, s, n, m, n - 4 + i);
        assert(f.clause_seq()[n - 4 + i]@ == cs[i]);
    }
    assert(clause_holds(m, cs[0]));
    assert(clause_holds(m, cs[1]));
    assert(clause_holds(m, cs[2]));
    assert(clause_holds(m, cs[3]));
}

/// Every assignment that satisfies the if-then-else clauses of `x`, `c`, `t` and `e`
/// gives `x` the value of `t` when `c` is true and that of `e` otherwise.
pub proof fn lemma_ite_meaning(f: Formula, s: int, x: Literal, c: Literal, t: Literal, e: Literal, m: spec_fn(nat) -> bool)
    requires
        ends_with(f, ite_clauses(x, c, t, e)),
        0 <= s <= f.clause_seq().len() - 4,
        holds_between(f, s, f.clause_seq().len() as int, m),
    ensures
        lit_holds(m, x) == if lit_holds(m, c) { lit_holds(m, t) } else { lit_holds(m, e) },
{
    let n = f.clause_seq().len() as int;
    let cs = ite_clauses(x, c, t, e);
    lemma_negated_holds(m, x);
    lemma_negated_holds(m, c);
    lemma_negated_holds(m, t);
    lemma_negated_holds(m, e);
    assert forall|i: int| 0 <= i < 4 implies clause_holds(m, #[trigger] cs[i]) by {
        lemma_clause_at(f, s, n, m, n - 4 + i);
        assert(f.clause_seq()[n - 4 + i]@ == cs[i]);
    }
    assert(clause_holds(m, cs[0]));
    assert(clause_holds(m, cs[1]));
    assert(clause_holds(m, cs[2]));
    assert(clause_holds(m, cs[3]));
}

/// Every assignment that satisfies the disjunction clauses of `x` and `lits`, which `f`
/// ends with, makes `x` true exactly when some literal of `lits` is.
pub proof fn lemma_or_meaning(f: Formula, s: int, x: Literal, lits: Seq<Literal>, m: spec_fn(nat) -> bool)
    requires
        ends_with(f, or_clauses(x, lits)),
        0 <= s <= f.clause_seq().len() - or_clauses(x, lits).len(),
        holds_between(f, s, f.clause_seq().len() as int, m),
    ensures
        lit_holds(m, x) == exists|i: int| 0 <= i < lits.len() && lit_holds(m, #[trigger] lits[i]),
{
    let n = f.clause_seq().len() as int;
    let cs = or_clauses(x, lits);
    let z = n - cs.len();
    lemma_negated_holds(m, x);
    assert forall|i: int| 0 <= i < cs.len() implies clause_holds(m, #[trigger] cs[i]) by {
        lemma_clause_at(f, s, n, m, z + i);
        assert(f.clause_seq()[z + i]@ == cs[i]);
    }
    assert(cs[0] == seq![negated(x)] + lits);
    assert(clause_holds(m, cs[0]));
    if lit_holds(m, x) {
        let k = choose|k: int| 0 <= k < cs[0].len() && lit_holds(m, #[trigger] cs[0][k]);
        assert(k != 0);
        assert(cs[0][k] == lits[k - 1]);
    }
    assert forall|i: int| 0 <= i < lits.len() && lit_holds(m, #[trigger] lits[i]) implies lit_holds(m, x) by {
        assert(cs[1 + i] == seq![negated(lits[i]), x]);
        assert(clause_holds(m, cs[1 + i]));
        lemma_negated_holds(m, lits[i]);
    }
}

/// Every assignment that satisfies the conjunction clauses of `x` and `lits`, which `f`
/// ends with, makes `x` true exactly when every literal of `lits` is.
pub proof fn lemma_and_meaning(f: Formula, s: int, x: Literal, lits: Seq<Literal>, m: spec_fn(nat) -> bool)
    requires
        ends_with(f, and_clauses(x, lits)),
        0 <= s <= f.clause_seq().len() - and_clauses(x, lits).len(),
        holds_between(f, s, f.clause_seq().len() as int, m),
    ensures
        lit_holds(m, x) == forall|i: int| 0 <= i < lits.len() ==> lit_holds(m, #[trigger] lits[i]),
{
    let n = f.clause_seq().len() as int;
    let cs = and_clauses(x, lits);
    let z = n - cs.len();
    let last = lits.map_values(|l: Literal| negated(l)).push(x);
    lemma_negated_holds(m, x);
    assert forall|i: int| 0 <= i < cs.len() implies clause_holds(m, #[trigger] cs[i]) by {
        lemma_clause_at(f, s, n, m, z + i);
        assert(f.clause_seq()[z + i]@ == cs[i]);
    }
    assert forall|i: int| 0 <= i < lits.len() && lit_holds(m, x) implies lit_holds(m, #[trigger] lits[i]) by {
        assert(cs[i] == seq![negated(x), lits[i]]);
        assert(clause_holds(m, cs[i]));
    }
    assert(cs[lits.len() as int] == last);
    assert(clause_holds(m, last));
    if forall|i: int| 0 <= i < lits.len() ==> lit_holds(m, #[trigger] lits[i]) {
        let k = choose|k: int| 0 <= k < last.len() && lit_holds(m, #[trigger] last[k]);
        if k < lits.len() {
            assert(last[k] == negated(lits[k]));
            lemma_negated_holds(m, lits[k]);
            assert(lit_holds(m, lits[k]));
        }
    }
}

/// A literal of an atom's variable, positive, encodes the atom.
pub proof fn lemma_atom_encodes(f: Formula, s: int, r: Literal, t: TermModel, vars: Seq<(String, SmtVar)>, keys: Seq<(String, u32)>)
    requires
        !(t is True) && !(t is False),
        t matches TermModel::Op(op, _) ==> !is_connective(op),
        atom_var(vars, keys, t) matches Some(v) && r.var_of() == v,
        r.pos(),
    ensures
        encodes(f, s, r, t, vars, keys),
        keyed(t, vars, keys),
{
}

/// The complement of a literal that encodes `a` encodes its negation.
pub proof fn lemma_not_encodes(f: Formula, s: int, l: Literal, r: Literal, a: TermModel, vars: Seq<(String, SmtVar)>, keys: Seq<(String, u32)>)
    requires
        encodes(f, s, l, a, vars, keys),
        r.var_of() == l.var_of(),
        r.pos() == !l.pos(),
    ensures
        encodes(f, s, r, TermModel::Op(TermOp::Not, seq![a]), vars, keys),
{
    let t = TermModel::Op(TermOp::Not, seq![a]);
    assert(seq![a][0] == a);
    assert forall|m: spec_fn(nat) -> bool| #[trigger] holds_between(f, s, f.clause_seq().len() as int, m)
        implies lit_holds(m, r) == term_value(t, m, vars, keys) by {
        assert(lit_holds(m, l) == term_value(a, m, vars, keys));
    }
}

/// The literal defined as the conjunction of literals that encode `ts` encodes their
/// conjunction.
pub proof fn lemma_and_encodes(f0: Formula, f: Formula, s: int, x: Literal, lits: Seq<Literal>, ts: Seq<TermModel>,
    vars: Seq<(String, SmtVar)>, keys: Seq<(String, u32)>)
    requires
        encodes_all(f0, s, lits, ts, vars, keys),
        appended(f0, f, and_clauses(x, lits)),
        0 <= s <= f0.clause_seq().len(),
    ensures
        encodes(f, s, x, TermModel::Op(TermOp::And, ts), vars, keys),
{
    lemma_appended_ends(f0, f, and_clauses(x, lits));
    let t = TermModel::Op(TermOp::And, ts);
    assert forall|m: spec_fn(nat) -> bool| #[trigger] holds_between(f, s, f.clause_seq().len() as int, m)
        implies lit_holds(m, x) == term_value(t, m, vars, keys) by {
        lemma_holds_within(f0, f, s, f.clause_seq().len() as int, s, f0.clause_seq().len() as int, m);
        lemma_and_meaning(f, s, x, lits, m);
        assert(holds_between(f0, s, f0.clause_seq().len() as int, m));
        lemma_values(ts, m, vars, keys);
        if lit_holds(m, x) {
            assert forall|i: int| 0 <= i < ts.len() implies term_value(#[trigger] ts[i], m, vars, keys) by {
                assert(lit_holds(m, lits[i]));
            }
        }
        if term_value(t, m, vars, keys) {
            assert forall|i: int| 0 <= i < lits.len() implies lit_holds(m, #[trigger] lits[i]) by {
                assert(term_value(ts[i], m, vars, keys));
            }
        }
    }
}

/// The literal defined as the disjunction of literals that encode `ts` encodes their
/// disjunction.
pub proof fn lemma_or_encodes(f0: Formula, f: Formula, s: int, x: Literal, lits: Seq<Literal>, ts: Seq<TermModel>,
    vars: Seq<(String, SmtVar)>, keys: Seq<(String, u32)>)
    requires
        encodes_all(f0, s, lits, ts, vars, keys),
        appended(f0, f, or_clauses(x, lits)),
        0 <= s <= f0.clause_seq().len(),
    ensures
        encodes(f, s, x, TermModel::Op(TermOp::Or, ts), vars, keys),
{
    lemma_appended_ends(f0, f, or_clauses(x, lits));
    let t = TermModel::Op(TermOp::Or, ts);
    assert forall|m: spec_fn(nat) -> bool| #[trigger] holds_between(f, s, f.clause_seq().len() as int, m)
        implies lit_holds(m, x) == term_value(t, m, vars, keys) by {
        lemma_holds_within(f0, f, s, f.clause_seq().len() as int, s, f0.clause_seq().len() as int, m);
        lemma_or_meaning(f, s, x, lits, m);
        assert(holds_between(f0, s, f0.clause_seq().len() as int, m));
        lemma_values(ts, m, vars, keys);
        if lit_holds(m, x) {
            let i = choose|i: int| 0 <= i < lits.len() && lit_holds(m, #[trigger] lits[i]);
            assert(term_value(ts[i], m, vars, keys));
        }
        if term_value(t, m, vars, keys) {
            let i = choose|i: int| 0 <= i < ts.len() && term_value(#[trigger] ts[i], m, vars, keys);
            assert(lit_holds(m, lits[i]));
        }
    }
}

/// The literal defined as the disjunction of the complement of a literal that encodes
/// `a` and a literal that encodes `b` encodes the implication from `a` to `b`.
pub proof fn lemma_implies_encodes(f0: Formula, f: Formula, s: int, x: Literal, la: Literal, lb: Literal, lits: Seq<Literal>,
    a: TermModel, b: TermModel, vars: Seq<(String, SmtVar)>, keys: Seq<(String, u32)>)
    requires
        encodes(f, s, la, a, vars, keys),
        encodes(f, s, lb, b, vars, keys),
        lits.len() == 2,
        lits[0].var_of() == la.var_of() && lits[0].pos() == !la.pos(),
        lits[1] == lb,
        appended(f0, f, or_clauses(x, lits)),
        0 <= s <= f0.clause_seq().len(),
    ensures
        encodes(f, s, x, TermModel::Op(TermOp::Implies, seq![a, b]), vars, keys),
{
    lemma_appended_ends(f0, f, or_clauses(x, lits));
    let t = TermModel::Op(TermOp::Implies, seq![a, b]);
    assert(seq![a, b][0] == a && seq![a, b][1] == b);
    assert forall|m: spec_fn(nat) -> bool| #[trigger] holds_between(f, s, f.clause_seq().len() as int, m)
        implies lit_holds(m, x) == term_value(t, m, vars, keys) by {
        lemma_or_meaning(f, s, x, lits, m);
        assert(lit_holds(m, la) == term_value(a, m, vars, keys));
        assert(lit_holds(m, lb) == term_value(b, m, vars, keys));
        if lit_holds(m, x) {
            let i = choose|i: int| 0 <= i < lits.len() && lit_holds(m, #[trigger] lits[i]);
            assert(i == 0 || i == 1);
        }
        if lit_holds(m, lits[0]) || lit_holds(m, lits[1]) {
            assert(lit_holds(m, x));
        }
    }
}

/// The literal defined by the exclusive-or clauses over literals that encode `a` and `b`
/// encodes their exclusive or.
pub proof fn lemma_xor_encodes(f: Formula, s: int, x: Literal, la: Literal, lb: Literal, a: TermModel, b: TermModel,
    vars: Seq<(String, SmtVar)>, keys: Seq<(String, u32)>)
    requires
        encodes(f, s, la, a, vars, keys),
        encodes(f, s, lb, b, vars, keys),
        ends_with(f, xor_clauses(x, la, lb)),
        0 <= s <= f.clause_seq().len() - 4,
    ensures
        encodes(f, s, x, TermModel::Op(TermOp::Xor, seq![a, b]), vars, keys),
{
    let t = TermModel::Op(TermOp::Xor, seq![a, b]);
    assert(seq![a, b][0] == a && seq![a, b][1] == b);
    assert forall|m: spec_fn(nat) -> bool| #[trigger] holds_between(f, s, f.clause_seq().len() as int, m)
        implies lit_holds(m, x) == term_value(t, m, vars, keys) by {
        lemma_xor_meaning(f, s, x, la, lb, m);
        assert(lit_holds(m, la) == term_value(a, m, vars, keys));
        assert(lit_holds(m, lb) == term_value(b, m, vars, keys));
    }
}

/// The literal defined by the if-then-else clauses over literals that encode `c`, `a`
/// and `b` encodes the if-then-else of those terms.
pub proof fn lemma_ite_encodes(f: Formula, s: int, x: Literal, lc: Literal, la: Literal, lb: Literal, c: TermModel, a: TermModel, b: TermModel,
    vars: Seq<(String, SmtVar)>, keys: Seq<(String, u32)>)
    requires
        encodes(f, s, lc, c, vars, keys),
        encodes(f, s, la, a, vars, keys),
        encodes(f, s, lb, b, vars, keys),
        ends_with(f, ite_clauses(x, lc, la, lb)),
        0 <= s <= f.clause_seq().len() - 4,
    ensures
        encodes(f, s, x, TermModel::Op(TermOp::Ite, seq![c, a, b]), vars, keys),
{
    let t = TermModel::Op(TermOp::Ite, seq![c, a, b]);
    assert(seq![c, a, b][0] == c && seq![c, a, b][1] == a && seq![c, a, b][2] == b);
    assert forall|m: spec_fn(nat) -> bool| #[trigger] holds_between(f, s, f.clause_seq().len() as int, m)
        implies lit_holds(m, x) == term_value(t, m, vars, keys) by {
        lemma_ite_meaning(f, s, x, lc, la, lb, m);
        assert(lit_holds(m, lc) == term_value(c, m, vars, keys));
        assert(lit_holds(m, la) == term_value(a, m, vars, keys));
        assert(lit_holds(m, lb) == term_value(b, m, vars, keys));
    }
}

/// Whether every assignment that satisfies all clauses of `f` makes each encodable term
/// of `ts` true.
pub open spec fn asserts_all(f: Formula, ts: Seq<TermModel>, vars: Seq<(String, SmtVar)>, keys: Seq<(String, u32)>) -> bool {
    forall|m: spec_fn(nat) -> bool| #[trigger] holds_between(f, 0, f.clause_seq().len() as int, m)
        ==> forall|i: int| 0 <= i < ts.len() && encodable(#[trigger] ts[i]) ==> term_value(ts[i], m, vars, keys)
}

/// Encoding one more asserted term and adding the unit clause of its literal keeps
/// every encodable asserted term true under the assignments that satisfy the clauses.
pub proof fn lemma_asserts_push(f1: Formula, f2: Formula, f3: Formula, ts: Seq<TermModel>, t: TermModel, l: Literal,
    vars: Seq<(String, SmtVar)>, k1: Seq<(String, u32)>, k2: Seq<(String, u32)>)
    requires
        asserts_all(f1, ts, vars, k1),
        forall|i: int| 0 <= i < ts.len() ==> keyed(#[trigger] ts[i], vars, k1),
        keys_extend(k1, k2),
        keeps(f1, f2),
        keeps(f2, f3),
        encodable(t) ==> {
            &&& encodes(f2, f1.clause_seq().len() as int, l, t, vars, k2)
            &&& f3.clause_seq().len() > f2.clause_seq().len()
            &&& f3.clause_seq()[f2.clause_seq().len() as int]@ == seq![l]
        },
    ensures
        asserts_all(f3, ts.push(t), vars, k2),
        forall|i: int| 0 <= i < ts.len() ==> keyed(#[trigger] ts[i], vars, k2),
{
    assert forall|i: int| 0 <= i < ts.len() implies keyed(#[trigger] ts[i], vars, k2) by {
        lemma_value_extend(ts[i], |x: nat| true, vars, k1, k2);
    }
    assert forall|m: spec_fn(nat) -> bool| #[trigger] holds_between(f3, 0, f3.clause_seq().len() as int, m)
        implies forall|i: int| 0 <= i < ts.push(t).len() && encodable(#[trigger] ts.push(t)[i]) ==> term_value(ts.push(t)[i], m, vars, k2) by {
        lemma_holds_within(f1, f3, 0, f3.clause_seq().len() as int, 0, f1.clause_seq().len() as int, m);
        assert forall|i: int| 0 <= i < ts.push(t).len() && encodable(#[trigger] ts.push(t)[i]) implies term_value(ts.push(t)[i], m, vars, k2) by {
            if i < ts.len() {
                assert(ts.push(t)[i] == ts[i]);
                assert(term_value(ts[i], m, vars, k1));
                lemma_value_extend(ts[i], m, vars, k1, k2);
            } else {
                assert(ts.push(t)[i] == t);
                lemma_holds_within(f2, f3, 0, f3.clause_seq().len() as int, f1.clause_seq().len() as int, f2.clause_seq().len() as int, m);
                assert(holds_between(f2, f1.clause_seq().len() as int, f2.clause_seq().len() as int, m));
                let u = f3.clause_seq()[f2.clause_seq().len() as int]@;
                assert(clause_holds(m, u));
                assert(u[0] == l);
            }
        }
    }
}

} // verus!
