use paradox::literal::Literal;
use paradox::trail::Trail;

fn lit(i: i32) -> Literal {
    Literal::from_dimacs(i)
}

#[test]
fn test_trail_creation() {
    let trail = Trail::new();
    assert_eq!(trail.current_level(), 0);
    assert_eq!(trail.len(), 0);
    assert!(trail.is_empty());
}

#[test]
fn test_push_at_root() {
    let mut trail = Trail::new();
    trail.push_at_root(lit(1));
    trail.push_at_root(lit(-2));
    assert_eq!(trail.current_level(), 0);
    assert_eq!(trail.len(), 2);
}

#[test]
fn test_push_decision() {
    let mut trail = Trail::new();
    trail.push_decision(lit(1));
    assert_eq!(trail.current_level(), 1);
    assert_eq!(trail.len(), 1);
    trail.push_decision(lit(2));
    assert_eq!(trail.current_level(), 2);
    assert_eq!(trail.len(), 2);
}

#[test]
fn test_push_propagation() {
    let mut trail = Trail::new();
    trail.push_decision(lit(1));
    trail.push_propagation(lit(2));
    trail.push_propagation(lit(3));
    assert_eq!(trail.current_level(), 1);
    assert_eq!(trail.len(), 3);
}

#[test]
fn trail_test_backtrack() {
    let mut trail = Trail::new();
    trail.push_at_root(lit(1));
    trail.push_decision(lit(2));
    trail.push_propagation(lit(3));
    trail.push_decision(lit(4));
    trail.push_propagation(lit(5));
    trail.push_propagation(lit(6));
    assert_eq!(trail.current_level(), 2);
    assert_eq!(trail.len(), 6);

    let unassigned = trail.backtrack_to(1);
    assert_eq!(unassigned.len(), 3);
    assert_eq!(unassigned[0], lit(6));
    assert_eq!(unassigned[1], lit(5));
    assert_eq!(unassigned[2], lit(4));
    assert_eq!(trail.current_level(), 1);
    assert_eq!(trail.len(), 3);
}

#[test]
fn test_backtrack_to_root() {
    let mut trail = Trail::new();
    trail.push_at_root(lit(1));
    trail.push_decision(lit(2));
    trail.push_decision(lit(3));
    let unassigned = trail.backtrack_to(0);
    assert_eq!(unassigned.len(), 2);
    assert_eq!(trail.current_level(), 0);
    assert_eq!(trail.len(), 1);
}

#[test]
fn test_backtrack_noop() {
    let mut trail = Trail::new();
    trail.push_decision(lit(1));
    let unassigned = trail.backtrack_to(1);
    assert!(unassigned.is_empty());
    assert_eq!(trail.len(), 1);
    let unassigned = trail.backtrack_to(5);
    assert!(unassigned.is_empty());
}

#[test]
fn test_level_assignments() {
    let mut trail = Trail::new();
    trail.push_at_root(lit(1));
    trail.push_at_root(lit(2));
    trail.push_decision(lit(3));
    trail.push_propagation(lit(4));
    trail.push_decision(lit(5));

    let level0 = trail.level_assignments(0);
    assert_eq!(level0.len(), 2);
    let level1 = trail.level_assignments(1);
    assert_eq!(level1.len(), 2);
    assert_eq!(level1[0], lit(3));
    assert_eq!(level1[1], lit(4));
    let level2 = trail.level_assignments(2);
    assert_eq!(level2.len(), 1);
    assert_eq!(level2[0], lit(5));
}

#[test]
fn test_decision_at() {
    let mut trail = Trail::new();
    trail.push_at_root(lit(1));
    trail.push_decision(lit(2));
    trail.push_propagation(lit(3));
    trail.push_decision(lit(4));
    assert_eq!(trail.decision_at(0), None);
    assert_eq!(trail.decision_at(1), Some(&lit(2)));
    assert_eq!(trail.decision_at(2), Some(&lit(4)));
    assert_eq!(trail.decision_at(3), None);
}

#[test]
fn test_iter() {
    let mut trail = Trail::new();
    trail.push_at_root(lit(1));
    trail.push_decision(lit(2));
    trail.push_propagation(lit(3));
    let lits: Vec<_> = trail.iter().copied().collect();
    assert_eq!(lits, vec![lit(1), lit(2), lit(3)]);
}

#[test]
fn test_last() {
    let mut trail = Trail::new();
    assert_eq!(trail.last(), None);
    trail.push_decision(lit(5));
    assert_eq!(trail.last(), Some(&lit(5)));
    trail.push_propagation(lit(-3));
    assert_eq!(trail.last(), Some(&lit(-3)));
}

#[test]
fn test_count_at_current_level() {
    let mut trail = Trail::new();
    trail.push_at_root(lit(1));
    trail.push_at_root(lit(2));
    assert_eq!(trail.count_at_current_level(), 2);
    trail.push_decision(lit(3));
    assert_eq!(trail.count_at_current_level(), 1);
    trail.push_propagation(lit(4));
    trail.push_propagation(lit(5));
    assert_eq!(trail.count_at_current_level(), 3);
}

#[test]
fn backtrack_then_push_restores_prefix() {
    let mut trail = Trail::new();
    trail.push_at_root(lit(1));
    trail.push_decision(lit(2));
    trail.push_propagation(lit(-3));
    let undone = trail.backtrack_to(0);
    assert_eq!(undone, vec![lit(-3), lit(2)]);
    assert_eq!(trail.get(0), Some(lit(1)));
    assert_eq!(trail.get(1), None);
    assert_eq!(trail.decision_at(1), None);
    trail.push_decision(lit(-2));
    assert_eq!(trail.literals_from_level(1), &[lit(-2)][..]);
    assert_eq!(trail.level_start(1), 1);
    assert_eq!(trail.level_start(7), 2);
}

#[test]
fn propagation_queue_follows_trail() {
    let mut trail = Trail::new();
    assert!(trail.peek_propagate().is_none());
    trail.push(lit(4));
    trail.push(lit(-5));
    assert_eq!(trail.peek_propagate(), Some(&lit(4)));
    trail.advance_propagate();
    assert_eq!(trail.peek_propagate(), Some(&lit(-5)));
    trail.advance_propagate();
    assert!(trail.peek_propagate().is_none());
}
