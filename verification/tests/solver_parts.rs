use paradox::clause::Clause;
use paradox::formula::Formula;
use paradox::literal::{Literal, Variable};
use paradox::solver::learn::{add_learned_clause, LearnStats};
use paradox::solver::proof_log::{drat_line, lit_to_dimacs};
use paradox::solver::restart::luby_sequence;
use paradox::watch::WatchLists;

fn lit(v: i32) -> Literal {
    Literal::from_dimacs(v)
}

fn make_literal(var: u32, positive: bool) -> Literal {
    Literal::new(Variable::new(var), positive)
}

#[test]
fn test_learn_stats() {
    let mut stats = LearnStats::default();
    stats.record(5, 3);
    assert_eq!(stats.total_learned, 1);
    assert_eq!(stats.total_literals, 5);
    assert_eq!(stats.min_lbd, 3);
    assert_eq!(stats.max_lbd, 3);
    stats.record(3, 2);
    assert_eq!(stats.total_learned, 2);
    assert_eq!(stats.total_literals, 8);
    assert_eq!(stats.min_lbd, 2);
    assert_eq!(stats.max_lbd, 3);
}

#[test]
fn learn_stats_sum_of_lbds() {
    let mut stats = LearnStats::default();
    stats.record(5, 2);
    stats.record(5, 4);
    assert_eq!(stats.sum_lbd, 6);
    assert_eq!(stats.sum_lbd / stats.total_learned, 3);
}

#[test]
fn test_add_learned_clause() {
    let mut f = Formula::new();
    f.add_clause(Clause::new(vec![lit(1), lit(2), lit(3)]));
    let mut watches = WatchLists::new(f.num_vars());
    let learned = vec![lit(-1), lit(2)];
    let idx = add_learned_clause(learned, 2, &mut f, &mut watches);
    assert_eq!(idx, 1);
    assert_eq!(f.num_clauses(), 2);
    assert!(f.clause(idx).is_learned());
    assert_eq!(f.clause(idx).lbd(), 2);
    assert!(watches.is_watching(lit(-1), 1));
    assert!(watches.is_watching(lit(2), 1));
}

#[test]
fn test_add_unit_learned() {
    let mut f = Formula::new();
    f.add_clause(Clause::new(vec![lit(1), lit(2)]));
    let mut watches = WatchLists::new(f.num_vars());
    let learned = vec![lit(1)];
    let idx = add_learned_clause(learned, 1, &mut f, &mut watches);
    assert_eq!(idx, 1);
    assert!(f.clause(idx).is_learned());
    assert_eq!(watches.total_watchers(), 0);
}

#[test]
fn learned_clause_raises_variable_count() {
    let mut f = Formula::new();
    f.add_clause(Clause::new(vec![lit(1), lit(2)]));
    let mut watches = WatchLists::new(f.num_vars());
    add_learned_clause(vec![lit(-7), lit(1)], 2, &mut f, &mut watches);
    assert_eq!(f.num_vars(), 7);
}

#[test]
fn test_lit_to_dimacs() {
    assert_eq!(lit_to_dimacs(make_literal(1, true)), 1);
    assert_eq!(lit_to_dimacs(make_literal(1, false)), -1);
    assert_eq!(lit_to_dimacs(make_literal(5, true)), 5);
    assert_eq!(lit_to_dimacs(make_literal(5, false)), -5);
}

#[test]
fn test_luby_sequence() {
    let expected = [1, 1, 2, 1, 1, 2, 4, 1, 1, 2, 1, 1, 2, 4, 8];
    for (i, &exp) in expected.iter().enumerate() {
        assert_eq!(luby_sequence(i as u64 + 1), exp, "Luby({}) failed", i + 1);
    }
}

#[test]
fn luby_block_ends_are_powers_of_two() {
    assert_eq!(luby_sequence(31), 16);
    assert_eq!(luby_sequence(63), 32);
    assert_eq!(luby_sequence(32), 1);
    assert_eq!(luby_sequence(1023), 512);
}

#[test]
fn drat_lines() {
    let lits = vec![make_literal(1, true), make_literal(2, false), make_literal(10, true)];
    assert_eq!(drat_line(&lits, false), "1 -2 10 0\n");
    assert_eq!(drat_line(&lits[..2], true), "d 1 -2 0\n");
    assert_eq!(drat_line(&[], false), "0\n");
}
