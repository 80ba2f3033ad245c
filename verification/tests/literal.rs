use paradox::literal::{Literal, Variable};

#[test]
fn test_variable_creation() {
    let v = Variable::new(1);
    assert_eq!(v.index(), 1);
    assert_eq!(v.to_index(), 0);
    let v = Variable::new(5);
    assert_eq!(v.index(), 5);
    assert_eq!(v.to_index(), 4);
}

#[test]
fn test_variable_from_index() {
    let v = Variable::from_index(0);
    assert_eq!(v.index(), 1);
    let v = Variable::from_index(4);
    assert_eq!(v.index(), 5);
}

#[test]
fn test_literal_positive() {
    let v = Variable::new(3);
    let lit = Literal::positive(v);
    assert!(lit.is_positive());
    assert!(!lit.is_negative());
    assert_eq!(lit.variable(), v);
}

#[test]
fn test_literal_negative() {
    let v = Variable::new(3);
    let lit = Literal::negative(v);
    assert!(lit.is_negative());
    assert!(!lit.is_positive());
    assert_eq!(lit.variable(), v);
}

#[test]
fn test_literal_negation() {
    let v = Variable::new(2);
    let pos = Literal::positive(v);
    let neg = pos.negate();
    assert!(pos.is_positive());
    assert!(neg.is_negative());
    assert_eq!(pos.variable(), neg.variable());
    assert_eq!(neg.negate(), pos);
}

#[test]
fn test_literal_from_dimacs() {
    let lit = Literal::from_dimacs(3);
    assert!(lit.is_positive());
    assert_eq!(lit.variable().index(), 3);
    let lit = Literal::from_dimacs(-3);
    assert!(lit.is_negative());
    assert_eq!(lit.variable().index(), 3);
    let lit = Literal::from_dimacs(1);
    assert!(lit.is_positive());
    assert_eq!(lit.variable().index(), 1);
    let lit = Literal::from_dimacs(-1);
    assert!(lit.is_negative());
    assert_eq!(lit.variable().index(), 1);
}

#[test]
fn test_literal_to_dimacs() {
    let v = Variable::new(3);
    assert_eq!(Literal::positive(v).to_dimacs(), 3);
    assert_eq!(Literal::negative(v).to_dimacs(), -3);
}

#[test]
fn test_dimacs_roundtrip() {
    for i in 1..=10 {
        let lit = Literal::from_dimacs(i);
        assert_eq!(lit.to_dimacs(), i);
        let lit = Literal::from_dimacs(-i);
        assert_eq!(lit.to_dimacs(), -i);
    }
}

#[test]
fn test_literal_indexing() {
    let v1 = Variable::new(1);
    assert_eq!(Literal::negative(v1).index(), 0);
    assert_eq!(Literal::positive(v1).index(), 1);
    let v2 = Variable::new(2);
    assert_eq!(Literal::negative(v2).index(), 2);
    assert_eq!(Literal::positive(v2).index(), 3);
}

#[test]
fn test_literal_from_index() {
    let lit = Literal::from_index(0);
    assert!(lit.is_negative());
    assert_eq!(lit.variable().index(), 1);
    let lit = Literal::from_index(1);
    assert!(lit.is_positive());
    assert_eq!(lit.variable().index(), 1);
    let lit = Literal::from_index(5);
    assert!(lit.is_positive());
    assert_eq!(lit.variable().index(), 3);
}

#[test]
fn literal_index_roundtrip_and_polarity() {
    for idx in 0..20usize {
        let lit = Literal::from_index(idx);
        assert_eq!(lit.index(), idx);
        assert_eq!(lit.negate().negate(), lit);
        assert_eq!(lit.polarity() as usize, idx % 2);
    }
    let v = Variable::new(7);
    assert_eq!(Literal::new(v, true), Literal::positive(v));
    assert_eq!(Literal::new(v, false), Literal::negative(v));
    assert_eq!(Literal::from_dimacs(-7).negate().to_dimacs(), 7);
}
