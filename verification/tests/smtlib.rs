use paradox::parser::lexer::{tokenize_text, Token};
use paradox::parser::smtlib::{parse_smtlib, Command, Logic, Sort, Term};

#[test]
fn test_parse_empty() {
    let problem = parse_smtlib("").unwrap();
    assert!(problem.assertions.is_empty());
}

#[test]
fn test_parse_set_logic() {
    let problem = parse_smtlib("(set-logic QF_LIA)").unwrap();
    assert_eq!(problem.logic, Some(Logic::QfLia));
}

#[test]
fn test_parse_declare_const() {
    let problem = parse_smtlib("(declare-const x Int)").unwrap();
    assert_eq!(problem.declarations.len(), 1);
    assert_eq!(problem.declarations[0].name, "x");
    assert_eq!(problem.declarations[0].return_sort, Sort::Int);
}

#[test]
fn test_parse_declare_fun() {
    let problem = parse_smtlib("(declare-fun f (Int Int) Bool)").unwrap();
    assert_eq!(problem.declarations.len(), 1);
    assert_eq!(problem.declarations[0].name, "f");
    assert_eq!(problem.declarations[0].params.len(), 2);
    assert_eq!(problem.declarations[0].return_sort, Sort::Bool);
}

#[test]
fn test_parse_assert_simple() {
    let problem = parse_smtlib("(assert true)").unwrap();
    assert_eq!(problem.assertions.len(), 1);
    assert!(matches!(problem.assertions[0], Term::True));
}

#[test]
fn test_parse_assert_and() {
    let problem = parse_smtlib("(assert (and true false))").unwrap();
    assert_eq!(problem.assertions.len(), 1);
    match &problem.assertions[0] {
        Term::And(args) => assert_eq!(args.len(), 2),
        _ => panic!("Expected And"),
    }
}

#[test]
fn test_parse_arithmetic() {
    let problem = parse_smtlib("(assert (> (+ x 1) 0))").unwrap();
    assert_eq!(problem.assertions.len(), 1);
    assert!(matches!(problem.assertions[0], Term::Gt(_, _)));
}

#[test]
fn test_parse_bitvec_literal_hex() {
    let problem = parse_smtlib("(assert (= x #xFF))").unwrap();
    assert_eq!(problem.assertions.len(), 1);
    match &problem.assertions[0] {
        Term::Eq(_, b) => match b.as_ref() {
            Term::BitVecLit { value, width } => {
                assert_eq!(*value, 255);
                assert_eq!(*width, 8);
            }
            _ => panic!("Expected BitVecLit"),
        },
        _ => panic!("Expected Eq"),
    }
}

#[test]
fn test_parse_bitvec_literal_binary() {
    let problem = parse_smtlib("(assert (= x #b1010))").unwrap();
    assert_eq!(problem.assertions.len(), 1);
    match &problem.assertions[0] {
        Term::Eq(_, b) => match b.as_ref() {
            Term::BitVecLit { value, width } => {
                assert_eq!(*value, 10);
                assert_eq!(*width, 4);
            }
            _ => panic!("Expected BitVecLit"),
        },
        _ => panic!("Expected Eq"),
    }
}

#[test]
fn test_parse_bitvec_sort() {
    let problem = parse_smtlib("(declare-const x (_ BitVec 32))").unwrap();
    assert_eq!(problem.declarations.len(), 1);
    assert_eq!(problem.declarations[0].return_sort, Sort::BitVec(32));
}

#[test]
fn test_parse_array_sort() {
    let problem = parse_smtlib("(declare-const a (Array Int Int))").unwrap();
    assert_eq!(problem.declarations.len(), 1);
    match &problem.declarations[0].return_sort {
        Sort::Array(idx, elem) => {
            assert_eq!(**idx, Sort::Int);
            assert_eq!(**elem, Sort::Int);
        }
        _ => panic!("Expected Array sort"),
    }
}

#[test]
fn test_parse_select_store() {
    let problem = parse_smtlib("(assert (= (select (store a i v) i) v))").unwrap();
    assert_eq!(problem.assertions.len(), 1);
}

#[test]
fn test_parse_let() {
    let problem = parse_smtlib("(assert (let ((x 1) (y 2)) (= x y)))").unwrap();
    assert_eq!(problem.assertions.len(), 1);
    match &problem.assertions[0] {
        Term::Let(bindings, _) => assert_eq!(bindings.len(), 2),
        _ => panic!("Expected Let"),
    }
}

#[test]
fn test_parse_ite() {
    let problem = parse_smtlib("(assert (ite true 1 0))").unwrap();
    assert_eq!(problem.assertions.len(), 1);
    assert!(matches!(problem.assertions[0], Term::Ite(_, _, _)));
}

#[test]
fn test_parse_check_sat() {
    let problem = parse_smtlib("(check-sat)").unwrap();
    assert!(matches!(problem.commands.last(), Some(Command::CheckSat)));
}

#[test]
fn test_parse_full_problem() {
    let input = r#"
        (set-logic QF_LIA)
        (declare-const x Int)
        (declare-const y Int)
        (assert (> x 0))
        (assert (< y 10))
        (assert (= (+ x y) 15))
        (check-sat)
        (get-model)
    "#;
    let problem = parse_smtlib(input).unwrap();
    assert_eq!(problem.logic, Some(Logic::QfLia));
    assert_eq!(problem.declarations.len(), 2);
    assert_eq!(problem.assertions.len(), 3);
}

#[test]
fn test_parse_comments() {
    let input = r#"
        ; This is a comment
        (set-logic QF_UF)
        ; Another comment
        (check-sat)
    "#;
    let problem = parse_smtlib(input).unwrap();
    assert_eq!(problem.logic, Some(Logic::QfUf));
}

#[test]
fn smtlib_errors_carry_a_message() {
    assert!(parse_smtlib("(assert (and true").is_err());
    let e = parse_smtlib("(set-logic NOT_A_LOGIC)").unwrap_err();
    assert_eq!(e.message, "Unknown logic: NOT_A_LOGIC");
    let e = parse_smtlib("(assert ((f x) y))").unwrap_err();
    assert_eq!(e.message, "Higher-order application not supported");
}

#[test]
fn smtlib_negative_numbers_and_indexed_ops() {
    let problem = parse_smtlib("(assert (= (_ extract 7 4) #xAB) #xA)) (assert (< (- 5) 0))").unwrap();
    assert_eq!(problem.assertions.len(), 2);
    match &problem.assertions[0] {
        Term::Eq(a, _) => assert!(matches!(a.as_ref(), Term::BvExtract { high: 7, low: 4, .. })),
        _ => panic!("Expected Eq"),
    }
    match &problem.assertions[1] {
        Term::Lt(a, _) => assert!(matches!(a.as_ref(), Term::Neg(_))),
        _ => panic!("Expected Lt"),
    }
}

#[test]
fn smtlib_define_fun_and_commands() {
    let input = "(declare-sort U 0) (define-fun two () Int 2) (push 1) (pop 1) (get-value (x)) (reset) (exit)";
    let problem = parse_smtlib(input).unwrap();
    assert_eq!(problem.definitions.len(), 1);
    assert_eq!(problem.definitions[0].0, "two");
    assert!(matches!(problem.commands[0], Command::DeclareSort(_, 0)));
    assert!(matches!(problem.commands[1], Command::DefineFun(_, _, Sort::Int, Term::IntLit(2))));
    assert!(matches!(problem.commands[2], Command::Push(1)));
    assert!(matches!(problem.commands[3], Command::Pop(1)));
    assert!(matches!(problem.commands[4], Command::GetValue(_)));
    assert!(matches!(problem.commands[5], Command::Reset));
    assert!(matches!(problem.commands[6], Command::Exit));
}

#[test]
fn lexer_tokens() {
    let tokens = tokenize_text("(assert (>= x #b01)) ; done").unwrap();
    assert!(matches!(tokens[0], Token::LParen));
    assert!(matches!(tokens.last(), Some(Token::RParen)));
    assert_eq!(tokens.len(), 8);
}

#[test]
fn logic_names_are_case_insensitive() {
    assert_eq!(parse_smtlib("(set-logic qf_bv)").unwrap().logic, Some(Logic::QfBv));
    assert_eq!(parse_smtlib("(set-logic ALL)").unwrap().logic, Some(Logic::All));
}

#[test]
fn indexed_operators_apply_to_a_term() {
    let problem = parse_smtlib("(assert ((_ extract 7 4) x))").unwrap();
    assert_eq!(problem.assertions.len(), 1);
    match &problem.assertions[0] {
        Term::BvExtract { high, low, term } => {
            assert_eq!((*high, *low), (7, 4));
            assert!(matches!(term.as_ref(), Term::Var(n) if n == "x"));
        }
        other => panic!("unexpected {:?}", other),
    }
    let problem = parse_smtlib("(assert (= ((_ zero_extend 8) y) z))").unwrap();
    match &problem.assertions[0] {
        Term::Eq(a, _) => assert!(matches!(a.as_ref(), Term::BvZeroExtend(8, _))),
        other => panic!("unexpected {:?}", other),
    }
}

