use paradox::clause::Clause;
use paradox::literal::Literal;

#[test]
fn test_clause_creation() {
    let lits = vec![Literal::from_dimacs(1), Literal::from_dimacs(-2), Literal::from_dimacs(3)];
    let clause = Clause::new(lits);
    assert_eq!(clause.len(), 3);
    assert!(!clause.is_empty());
    assert!(!clause.is_unit());
    assert!(!clause.is_learned());
}

#[test]
fn test_unit_clause() {
    let clause = Clause::new(vec![Literal::from_dimacs(5)]);
    assert!(clause.is_unit());
    assert_eq!(clause.len(), 1);
}

#[test]
fn clause_test_empty_clause() {
    let clause = Clause::new(vec![]);
    assert!(clause.is_empty());
    assert!(!clause.is_unit());
}

#[test]
fn test_learned_clause() {
    let clause = Clause::learned(vec![Literal::from_dimacs(1), Literal::from_dimacs(-2)]);
    assert!(clause.is_learned());
}

#[test]
fn test_clause_lbd() {
    let mut clause = Clause::learned_with_lbd(vec![Literal::from_dimacs(1), Literal::from_dimacs(-2)], 3);
    assert_eq!(clause.lbd(), 3);
    clause.set_lbd(5);
    assert_eq!(clause.lbd(), 5);
}

#[test]
fn test_clause_indexing() {
    let clause = Clause::new(vec![Literal::from_dimacs(1), Literal::from_dimacs(-2), Literal::from_dimacs(3)]);
    assert_eq!(clause.at(0), Literal::from_dimacs(1));
    assert_eq!(clause.at(1), Literal::from_dimacs(-2));
    assert_eq!(clause.at(2), Literal::from_dimacs(3));
}

#[test]
fn test_clause_swap() {
    let mut clause = Clause::new(vec![Literal::from_dimacs(1), Literal::from_dimacs(2), Literal::from_dimacs(3)]);
    clause.swap(0, 2);
    assert_eq!(clause.at(0), Literal::from_dimacs(3));
    assert_eq!(clause.at(2), Literal::from_dimacs(1));
}

#[test]
fn clause_duplicate_and_accessors() {
    let mut clause = Clause::learned_with_lbd(vec![Literal::from_dimacs(4), Literal::from_dimacs(-6)], 2);
    let copy = clause.duplicate();
    assert_eq!(copy.literals(), clause.literals());
    assert!(copy.is_learned());
    assert_eq!(copy.lbd(), 2);
    assert_eq!(clause.get(1), Some(&Literal::from_dimacs(-6)));
    assert_eq!(clause.get(2), None);
    clause.set_learned(false);
    assert!(!clause.is_learned());
    clause.literals_mut().push(Literal::from_dimacs(9));
    assert_eq!(clause.len(), 3);
    assert_eq!(clause.lbd(), 2);
}

#[test]
fn test_clause_display() {
    let clause = Clause::new(vec![Literal::from_dimacs(1), Literal::from_dimacs(-2)]);
    let display = clause.to_text();
    assert!(display.contains("x1"));
    assert!(display.contains("~x2"));
}

#[test]
fn clause_text_exact() {
    assert_eq!(Clause::new(vec![Literal::from_dimacs(1), Literal::from_dimacs(-12)]).to_text(), "(x1 ∨ ~x12)");
    assert_eq!(Clause::new(vec![Literal::from_dimacs(305)]).to_text(), "(x305)");
    assert_eq!(Clause::new(vec![]).to_text(), "()");
}
