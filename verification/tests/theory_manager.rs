use paradox::literal::Literal;
use paradox::theory::{TheoryConflict, TheoryManager, TheoryPropagation, TheoryResult, TheorySolver};

struct MockTheorySolver {
    assertions: Vec<(Literal, u32)>,
    conflicts: Vec<TheoryConflict>,
    propagations: Vec<TheoryPropagation>,
}

impl MockTheorySolver {
    fn new() -> Self {
        MockTheorySolver { assertions: Vec::new(), conflicts: Vec::new(), propagations: Vec::new() }
    }

    fn add_conflict(&mut self, conflict: TheoryConflict) {
        self.conflicts.push(conflict);
    }

    fn add_propagation(&mut self, prop: TheoryPropagation) {
        self.propagations.push(prop);
    }
}

impl TheorySolver for MockTheorySolver {
    fn name(&self) -> &'static str {
        "mock"
    }

    fn assert_literal(&mut self, lit: Literal, level: u32) -> Result<(), TheoryConflict> {
        self.assertions.push((lit, level));
        Ok(())
    }

    fn check(&mut self) -> TheoryResult {
        if let Some(conflict) = self.conflicts.pop() {
            TheoryResult::Conflict(conflict)
        } else {
            TheoryResult::Consistent
        }
    }

    fn propagate(&mut self) -> Vec<TheoryPropagation> {
        std::mem::take(&mut self.propagations)
    }

    fn explain(&self, _lit: Literal) -> Vec<Literal> {
        Vec::new()
    }

    fn backtrack(&mut self, level: u32) {
        self.assertions.retain(|(_, l)| *l <= level);
    }

    fn reset(&mut self) {
        self.assertions.clear();
        self.conflicts.clear();
        self.propagations.clear();
    }
}

#[test]
fn test_theory_manager_empty() {
    let mut manager = TheoryManager::new();
    assert!(manager.is_empty());
    assert!(matches!(manager.check(), TheoryResult::Consistent));
}

#[test]
fn test_theory_manager_assert() {
    let mut manager = TheoryManager::new();
    manager.add_solver(Box::new(MockTheorySolver::new()));
    let lit = Literal::from_dimacs(1);
    assert!(manager.assert_literal(lit, 1).is_ok());
}

#[test]
fn test_theory_manager_conflict() {
    let mut manager = TheoryManager::new();
    let mut solver = MockTheorySolver::new();
    solver.add_conflict(TheoryConflict::new(vec![Literal::from_dimacs(1)]));
    manager.add_solver(Box::new(solver));
    assert!(matches!(manager.check(), TheoryResult::Conflict(_)));
}

#[test]
fn test_theory_manager_propagate() {
    let mut manager = TheoryManager::new();
    let mut solver = MockTheorySolver::new();
    solver.add_propagation(TheoryPropagation::new(Literal::from_dimacs(2), vec![Literal::from_dimacs(1)]));
    manager.add_solver(Box::new(solver));
    let props = manager.propagate();
    assert_eq!(props.len(), 1);
}

#[test]
fn test_theory_manager_backtrack() {
    let mut manager = TheoryManager::new();
    manager.add_solver(Box::new(MockTheorySolver::new()));
    let lit1 = Literal::from_dimacs(1);
    let lit2 = Literal::from_dimacs(2);
    manager.assert_literal(lit1, 1).unwrap();
    manager.assert_literal(lit2, 2).unwrap();
    manager.backtrack(1);
}

#[test]
fn theory_conflict_and_propagation_constructors() {
    let c = TheoryConflict::with_explanation(vec![Literal::from_dimacs(-1)], "why".to_string());
    assert_eq!(c.literals, vec![Literal::from_dimacs(-1)]);
    assert_eq!(c.explanation.as_deref(), Some("why"));
    assert!(TheoryConflict::new(vec![]).explanation.is_none());
    let p = TheoryPropagation::new(Literal::from_dimacs(3), vec![Literal::from_dimacs(1), Literal::from_dimacs(2)]);
    assert_eq!(p.literal, Literal::from_dimacs(3));
    assert_eq!(p.reason.len(), 2);
    let mut manager = TheoryManager::default();
    assert!(manager.propagate().is_empty());
    manager.reset();
    assert!(manager.is_empty());
}
