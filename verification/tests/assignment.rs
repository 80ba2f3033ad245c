use paradox::assignment::{Assignments, Value};
use paradox::literal::{Literal, Variable};

#[test]
fn test_value() {
    assert!(Value::True.is_assigned());
    assert!(Value::False.is_assigned());
    assert!(!Value::Unassigned.is_assigned());

    assert_eq!(Value::True.to_bool(), Some(true));
    assert_eq!(Value::False.to_bool(), Some(false));
    assert_eq!(Value::Unassigned.to_bool(), None);

    assert_eq!(Value::from_bool(true), Value::True);
    assert_eq!(Value::from_bool(false), Value::False);
}

#[test]
fn test_assignments_creation() {
    let assignments = Assignments::new(5);
    for i in 1..=5 {
        let var = Variable::new(i);
        assert_eq!(assignments.value(var), Value::Unassigned);
        assert!(!assignments.is_assigned(var));
    }
}

#[test]
fn test_decide() {
    let mut assignments = Assignments::new(5);
    let var = Variable::new(2);
    assignments.decide(var, true, 1);
    assert_eq!(assignments.value(var), Value::True);
    assert_eq!(assignments.level(var), 1);
    assert_eq!(assignments.antecedent(var), None);
    assert!(assignments.is_assigned(var));
}

#[test]
fn test_propagate() {
    let mut assignments = Assignments::new(5);
    let var = Variable::new(3);
    assignments.propagate(var, false, 2, 0);
    assert_eq!(assignments.value(var), Value::False);
    assert_eq!(assignments.level(var), 2);
    assert_eq!(assignments.antecedent(var), Some(0));
}

#[test]
fn test_unassign() {
    let mut assignments = Assignments::new(5);
    let var = Variable::new(1);
    assignments.decide(var, true, 1);
    assert!(assignments.is_assigned(var));
    assignments.unassign(var);
    assert!(!assignments.is_assigned(var));
    assert_eq!(assignments.value(var), Value::Unassigned);
}

#[test]
fn test_eval_literal() {
    let mut assignments = Assignments::new(5);
    let var = Variable::new(2);
    let pos = Literal::positive(var);
    let neg = Literal::negative(var);
    assert_eq!(assignments.eval_literal(pos), Value::Unassigned);
    assert_eq!(assignments.eval_literal(neg), Value::Unassigned);

    assignments.decide(var, true, 1);
    assert_eq!(assignments.eval_literal(pos), Value::True);
    assert_eq!(assignments.eval_literal(neg), Value::False);
    assert!(assignments.is_satisfied(pos));
    assert!(assignments.is_falsified(neg));

    assignments.unassign(var);
    assignments.decide(var, false, 1);
    assert_eq!(assignments.eval_literal(pos), Value::False);
    assert_eq!(assignments.eval_literal(neg), Value::True);
}

#[test]
fn test_assigned_vars() {
    let mut assignments = Assignments::new(5);
    assignments.decide(Variable::new(1), true, 1);
    assignments.decide(Variable::new(3), false, 1);
    assignments.decide(Variable::new(5), true, 2);
    let assigned: Vec<Variable> = assignments.assigned_vars();
    assert_eq!(assigned.len(), 3);
    assert!(assigned.contains(&Variable::new(1)));
    assert!(assigned.contains(&Variable::new(3)));
    assert!(assigned.contains(&Variable::new(5)));
}

#[test]
fn test_num_assigned() {
    let mut assignments = Assignments::new(5);
    assert_eq!(assignments.num_assigned(), 0);
    assert!(!assignments.all_assigned());

    assignments.decide(Variable::new(1), true, 1);
    assignments.decide(Variable::new(2), true, 1);
    assert_eq!(assignments.num_assigned(), 2);

    assignments.decide(Variable::new(3), true, 1);
    assignments.decide(Variable::new(4), true, 1);
    assignments.decide(Variable::new(5), true, 1);
    assert_eq!(assignments.num_assigned(), 5);
    assert!(assignments.all_assigned());
}

#[test]
fn test_model() {
    let mut assignments = Assignments::new(3);
    assignments.decide(Variable::new(1), true, 1);
    assignments.decide(Variable::new(2), false, 1);
    assignments.decide(Variable::new(3), true, 1);
    let model = assignments.model();
    assert_eq!(model, vec![true, false, true]);
}

#[test]
fn test_assignment_info() {
    let mut assignments = Assignments::new(5);
    assignments.decide(Variable::new(1), true, 1);
    let info = assignments.info(Variable::new(1)).unwrap();
    assert!(info.is_decision());
    assert!(!info.is_propagated());

    assignments.propagate(Variable::new(2), false, 1, 0);
    let info = assignments.info(Variable::new(2)).unwrap();
    assert!(!info.is_decision());
    assert!(info.is_propagated());
}

#[test]
fn assignment_test_resize() {
    let mut assignments = Assignments::new(2);
    assignments.decide(Variable::new(5), true, 1);
    assert!(assignments.is_assigned(Variable::new(5)));
}

#[test]
fn unassigned_model_entries_are_false() {
    let mut assignments = Assignments::new(3);
    assignments.decide(Variable::new(2), true, 1);
    assert_eq!(assignments.model(), vec![false, true, false]);
    assert_eq!(assignments.num_vars(), 3);
}

#[test]
fn unassign_then_reassign_keeps_other_values() {
    let mut assignments = Assignments::new(4);
    assignments.decide(Variable::new(1), true, 1);
    assignments.propagate(Variable::new(4), false, 1, 7);
    assignments.unassign(Variable::new(1));
    assert_eq!(assignments.value(Variable::new(1)), Value::Unassigned);
    assert_eq!(assignments.value(Variable::new(4)), Value::False);
    assert_eq!(assignments.antecedent(Variable::new(4)), Some(7));
    assert_eq!(assignments.num_assigned(), 1);
}
