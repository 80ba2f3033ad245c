//! The SMT-LIB parser: tokens to commands and a problem.
use vstd::prelude::*;
use crate::parser::lexer::{Token, TokenModel, token_models, tokenize, tokenize_text};
use crate::parser::smtlib::{copy_params, definition_model, CommandModel, ProblemModel, Command, SmtProblem, FunDecl, Definition, definitions_map, distinct_names, decl_models, command_models, param_models, same_text, build_op, op_arity_of, term_models, binding_models, sort_views, lemma_term_models, ErrorModel, SmtLibError, SortModel, Sort, TermModel, TermOp, Term, op_arity, Logic, logic_named, unicode_uppercase, FunDeclModel};
use crate::parser::text::{push_char, chars_of};

verus! {

/// The token at `p`, if any.
pub open spec fn tok_at(t: Seq<TokenModel>, p: int) -> Option<TokenModel> {
    if 0 <= p < t.len() { Some(t[p]) } else { None }
}

/// A parser error: the parser gives no line or column.
pub open spec fn perr(message: Seq<char>) -> ErrorModel {
    ErrorModel { message, line: 0, column: 0 }
}

/// An opening parenthesis at `p`: the position after it.
pub open spec fn lparen_at(t: Seq<TokenModel>, p: int) -> Result<int, ErrorModel> {
    if tok_at(t, p) == Some(TokenModel::LParen) { Ok(p + 1) } else { Err(perr("Expected '('"@)) }
}

/// A closing parenthesis at `p`: the position after it.
pub open spec fn rparen_at(t: Seq<TokenModel>, p: int) -> Result<int, ErrorModel> {
    if tok_at(t, p) == Some(TokenModel::RParen) { Ok(p + 1) } else { Err(perr("Expected ')'"@)) }
}

/// A symbol at `p`: its text and the position after it.
pub open spec fn symbol_at(t: Seq<TokenModel>, p: int) -> Result<(Seq<char>, int), ErrorModel> {
    match tok_at(t, p) {
        Some(TokenModel::Symbol(s)) => Ok((s, p + 1)),
        _ => Err(perr("Expected symbol"@)),
    }
}

/// The sort that a symbol names.
pub open spec fn named_sort(s: Seq<char>) -> SortModel {
    if s == "Bool"@ {
        SortModel::Bool
    } else if s == "Int"@ {
        SortModel::Int
    } else if s == "Real"@ {
        SortModel::Real
    } else {
        SortModel::Uninterpreted(s)
    }
}

/// A sort at `p`, and the position after it.
pub open spec fn sort_at(t: Seq<TokenModel>, p: int) -> Result<(SortModel, int), ErrorModel>
    decreases t.len() - p,
{
    match tok_at(t, p) {
        Some(TokenModel::Symbol(s)) => Ok((named_sort(s), p + 1)),
        Some(TokenModel::LParen) => match symbol_at(t, p + 1) {
            Err(e) => Err(e),
            Ok((head, q)) => if head == "_"@ {
                match symbol_at(t, q) {
                    Err(e) => Err(e),
                    Ok((name, r)) => if name == "BitVec"@ {
                        match tok_at(t, r) {
                            Some(TokenModel::Numeral(n)) => match rparen_at(t, r + 1) {
                                Ok(e) => Ok((SortModel::BitVec(n as u32), e)),
                                Err(x) => Err(x),
                            },
                            _ => Err(perr("Expected bitvector width"@)),
                        }
                    } else {
                        Err(perr("Unknown indexed sort: "@ + name))
                    },
                }
            } else if head == "Array"@ {
                match sort_at(t, q) {
                    Err(e) => Err(e),
                    Ok((i, q1)) => if p < q1 <= t.len() {
                        match sort_at(t, q1) {
                            Err(e) => Err(e),
                            Ok((el, q2)) => match rparen_at(t, q2) {
                                Ok(e) => Ok((SortModel::Array(Box::new(i), Box::new(el)), e)),
                                Err(x) => Err(x),
                            },
                        }
                    } else {
                        Err(perr(Seq::empty()))
                    },
                }
            } else {
                Err(perr("Unknown parametric sort: "@ + head))
            },
        },
        _ => Err(perr("Expected sort"@)),
    }
}

/// Sorts from `p` up to a closing parenthesis (not consumed).
pub open spec fn sorts_at(t: Seq<TokenModel>, p: int) -> Result<(Seq<SortModel>, int), ErrorModel>
    decreases t.len() - p,
{
    if tok_at(t, p) == Some(TokenModel::RParen) {
        Ok((Seq::empty(), p))
    } else {
        match sort_at(t, p) {
            Err(e) => Err(e),
            Ok((s, q)) => if p < q <= t.len() {
                match sorts_at(t, q) {
                    Err(e) => Err(e),
                    Ok((ss, r)) => Ok((seq![s] + ss, r)),
                }
            } else {
                Err(perr(Seq::empty()))
            },
        }
    }
}

/// A term at `p`, and the position after it.
pub open spec fn term_at(t: Seq<TokenModel>, p: int) -> Result<(TermModel, int), ErrorModel>
    decreases t.len() - p, 1int,
{
    match tok_at(t, p) {
        Some(TokenModel::Symbol(s)) => Ok((
            if s == "true"@ { TermModel::True } else if s == "false"@ { TermModel::False } else { TermModel::Var(s) },
            p + 1,
        )),
        Some(TokenModel::Numeral(n)) => Ok((TermModel::IntLit(n), p + 1)),
        Some(TokenModel::Decimal(d)) => Ok((TermModel::RealLit(d), p + 1)),
        Some(TokenModel::HexLit(v, w)) => Ok((TermModel::BitVecLit(v, w), p + 1)),
        Some(TokenModel::BinLit(v, w)) => Ok((TermModel::BitVecLit(v, w), p + 1)),
        Some(TokenModel::LParen) => compound_at(t, p + 1),
        _ => Err(perr("Expected term"@)),
    }
}

/// Terms from `p` up to a closing parenthesis (not consumed).
pub open spec fn terms_at(t: Seq<TokenModel>, p: int) -> Result<(Seq<TermModel>, int), ErrorModel>
    decreases t.len() - p, 2int,
{
    if tok_at(t, p) == Some(TokenModel::RParen) {
        Ok((Seq::empty(), p))
    } else {
        match term_at(t, p) {
            Err(e) => Err(e),
            Ok((x, q)) => if p < q <= t.len() {
                match terms_at(t, q) {
                    Err(e) => Err(e),
                    Ok((xs, r)) => Ok((seq![x] + xs, r)),
                }
            } else {
                Err(perr(Seq::empty()))
            },
        }
    }
}

/// Exactly `n` terms from `p`.
pub open spec fn n_terms_at(t: Seq<TokenModel>, p: int, n: nat) -> Result<(Seq<TermModel>, int), ErrorModel>
    decreases t.len() - p, 2int + n,
{
    if n == 0 {
        Ok((Seq::empty(), p))
    } else {
        match term_at(t, p) {
            Err(e) => Err(e),
            Ok((x, q)) => if p < q <= t.len() {
                match n_terms_at(t, q, (n - 1) as nat) {
                    Err(e) => Err(e),
                    Ok((xs, r)) => Ok((seq![x] + xs, r)),
                }
            } else {
                Err(perr(Seq::empty()))
            },
        }
    }
}

/// `let` bindings `(name term)` from `p` up to a closing parenthesis (not consumed).
pub open spec fn bindings_at(t: Seq<TokenModel>, p: int) -> Result<(Seq<(Seq<char>, TermModel)>, int), ErrorModel>
    decreases t.len() - p, 2int,
{
    if tok_at(t, p) == Some(TokenModel::RParen) {
        Ok((Seq::empty(), p))
    } else {
        match lparen_at(t, p) {
            Err(e) => Err(e),
            Ok(q0) => match symbol_at(t, q0) {
                Err(e) => Err(e),
                Ok((name, q1)) => match term_at(t, q1) {
                    Err(e) => Err(e),
                    Ok((x, q2)) => match rparen_at(t, q2) {
                        Err(e) => Err(e),
                        Ok(q3) => if p < q3 <= t.len() {
                            match bindings_at(t, q3) {
                                Err(e) => Err(e),
                                Ok((bs, r)) => Ok((seq![(name, x)] + bs, r)),
                            }
                        } else {
                            Err(perr(Seq::empty()))
                        },
                    },
                },
            },
        }
    }
}

/// A term wrapped as `term )`: the term and the position after the parenthesis.
pub open spec fn closed_term_at(t: Seq<TokenModel>, p: int) -> Result<(TermModel, int), ErrorModel>
    decreases t.len() - p, 2int,
{
    match term_at(t, p) {
        Err(e) => Err(e),
        Ok((x, q)) => match rparen_at(t, q) {
            Err(e) => Err(e),
            Ok(r) => Ok((x, r)),
        },
    }
}

/// The rest of an indexed operator application `(_ name ...) term)` from `p` (after
/// the `_`).
pub open spec fn indexed_at(t: Seq<TokenModel>, p: int) -> Result<(TermModel, int), ErrorModel>
    decreases t.len() - p, 3int,
{
    match symbol_at(t, p) {
        Err(e) => Err(e),
        Ok((name, q)) => if name == "extract"@ {
            match tok_at(t, q) {
                Some(TokenModel::Numeral(h)) => match tok_at(t, q + 1) {
                    Some(TokenModel::Numeral(l)) => match rparen_at(t, q + 2) {
                        Err(e) => Err(e),
                        Ok(r) => match closed_term_at(t, r) {
                            Err(e) => Err(e),
                            Ok((x, e)) => Ok((TermModel::Extract(h as u32, l as u32, Box::new(x)), e)),
                        },
                    },
                    _ => Err(perr("Expected low index"@)),
                },
                _ => Err(perr("Expected high index"@)),
            }
        } else if name == "zero_extend"@ || name == "sign_extend"@ {
            match tok_at(t, q) {
                Some(TokenModel::Numeral(n)) => match rparen_at(t, q + 1) {
                    Err(e) => Err(e),
                    Ok(r) => match closed_term_at(t, r) {
                        Err(e) => Err(e),
                        Ok((x, e)) => Ok((
                            if name == "zero_extend"@ {
                                TermModel::ZeroExtend(n as u32, Box::new(x))
                            } else {
                                TermModel::SignExtend(n as u32, Box::new(x))
                            },
                            e,
                        )),
                    },
                },
                _ => Err(perr("Expected extension bits"@)),
            }
        } else {
            Err(perr("Unknown indexed operator: "@ + name))
        },
    }
}

/// The rest of a `let` term from `p` (after `let`).
pub open spec fn let_at(t: Seq<TokenModel>, p: int) -> Result<(TermModel, int), ErrorModel>
    decreases t.len() - p, 3int,
{
    match lparen_at(t, p) {
        Err(e) => Err(e),
        Ok(q) => match bindings_at(t, q) {
            Err(e) => Err(e),
            Ok((bs, q1)) => match rparen_at(t, q1) {
                Err(e) => Err(e),
                Ok(q2) => if p < q2 <= t.len() {
                    match closed_term_at(t, q2) {
                        Err(e) => Err(e),
                        Ok((body, r)) => Ok((TermModel::Let(bs, Box::new(body)), r)),
                    }
                } else {
                    Err(perr(Seq::empty()))
                },
            },
        },
    }
}

/// The rest of a `-` term from `p` (after `-`): negation with one operand, subtraction
/// with two.
pub open spec fn minus_at(t: Seq<TokenModel>, p: int) -> Result<(TermModel, int), ErrorModel>
    decreases t.len() - p, 3int,
{
    match term_at(t, p) {
        Err(e) => Err(e),
        Ok((a, q)) => if tok_at(t, q) == Some(TokenModel::RParen) {
            Ok((TermModel::Op(TermOp::Neg, seq![a]), q + 1))
        } else if p < q <= t.len() {
            match closed_term_at(t, q) {
                Err(e) => Err(e),
                Ok((b, r)) => Ok((TermModel::Op(TermOp::Sub, seq![a, b]), r)),
            }
        } else {
            Err(perr(Seq::empty()))
        },
    }
}

/// Operands up to a closing parenthesis, which is consumed.
pub open spec fn args_at(t: Seq<TokenModel>, p: int) -> Result<(Seq<TermModel>, int), ErrorModel>
    decreases t.len() - p, 3int,
{
    match terms_at(t, p) {
        Err(e) => Err(e),
        Ok((xs, q)) => match rparen_at(t, q) {
            Err(e) => Err(e),
            Ok(r) => Ok((xs, r)),
        },
    }
}

/// Exactly `n` operands and a closing parenthesis.
pub open spec fn n_args_at(t: Seq<TokenModel>, p: int, n: nat) -> Result<(Seq<TermModel>, int), ErrorModel>
    decreases t.len() - p, 3int + n,
{
    match n_terms_at(t, p, n) {
        Err(e) => Err(e),
        Ok((xs, q)) => match rparen_at(t, q) {
            Err(e) => Err(e),
            Ok(r) => Ok((xs, r)),
        },
    }
}

/// A compound term from `p` (after its opening parenthesis), and the position after its
/// closing parenthesis. An indexed operator applied to a term, `((_ extract 7 4) x)`,
/// reads as that operator's term: the indexed head reads its operand and the closing
/// parenthesis of the application.
pub open spec fn compound_at(t: Seq<TokenModel>, p: int) -> Result<(TermModel, int), ErrorModel>
    decreases t.len() - p, 7int,
{
    match tok_at(t, p) {
        Some(TokenModel::Symbol(op)) => if op == "-"@ {
            minus_at(t, p + 1)
        } else if op == "let"@ {
            let_at(t, p + 1)
        } else if op == "_"@ {
            indexed_at(t, p + 1)
        } else {
            match op_named(op) {
                Some(o) => match op_arity(o) {
                    None => match args_at(t, p + 1) {
                        Err(e) => Err(e),
                        Ok((xs, r)) => Ok((TermModel::Op(o, xs), r)),
                    },
                    Some(n) => match n_args_at(t, p + 1, n) {
                        Err(e) => Err(e),
                        Ok((xs, r)) => Ok((TermModel::Op(o, xs), r)),
                    },
                },
                None => match args_at(t, p + 1) {
                    Err(e) => Err(e),
                    Ok((xs, r)) => Ok((TermModel::Apply(op, xs), r)),
                },
            }
        },
        Some(TokenModel::LParen) => if tok_at(t, p + 1) matches Some(TokenModel::Symbol(s)) && s == "_"@ {
            compound_at(t, p + 1)
        } else {
            match compound_at(t, p + 1) {
            Err(e) => Err(e),
            Ok((inner, q)) => if p < q <= t.len() {
                match args_at(t, q) {
                    Err(e) => Err(e),
                    Ok(_) => Err(
                        if inner matches TermModel::Apply(name, xs) && name == "_"@ && xs.len() > 0 {
                            perr("Invalid indexed operator application"@)
                        } else {
                            perr("Higher-order application not supported"@)
                        },
                    ),
                }
            } else {
                Err(perr(Seq::empty()))
            },
            }
        },
        _ => Err(perr("Expected operator in compound term"@)),
    }
}

/// The operator a name denotes (`-`, `let` and `_` are read apart).
pub open spec fn op_named(name: Seq<char>) -> Option<TermOp> {
    if name == "not"@ {
        Some(TermOp::Not)
    } else if name == "and"@ {
        Some(TermOp::And)
    } else if name == "or"@ {
        Some(TermOp::Or)
    } else if name == "xor"@ {
        Some(TermOp::Xor)
    } else if name == "=>"@ {
        Some(TermOp::Implies)
    } else if name == "ite"@ {
        Some(TermOp::Ite)
    } else if name == "="@ {
        Some(TermOp::Eq)
    } else if name == "distinct"@ {
        Some(TermOp::Distinct)
    } else if name == "+"@ {
        Some(TermOp::Add)
    } else if name == "*"@ {
        Some(TermOp::Mul)
    } else if name == "div"@ {
        Some(TermOp::Div)
    } else if name == "mod"@ {
        Some(TermOp::Mod)
    } else if name == "abs"@ {
        Some(TermOp::Abs)
    } else if name == "<"@ {
        Some(TermOp::Lt)
    } else if name == "<="@ {
        Some(TermOp::Le)
    } else if name == ">"@ {
        Some(TermOp::Gt)
    } else if name == ">="@ {
        Some(TermOp::Ge)
    } else if name == "bvnot"@ {
        Some(TermOp::BvNot)
    } else if name == "bvand"@ {
        Some(TermOp::BvAnd)
    } else if name == "bvor"@ {
        Some(TermOp::BvOr)
    } else if name == "bvxor"@ {
        Some(TermOp::BvXor)
    } else if name == "bvadd"@ {
        Some(TermOp::BvAdd)
    } else if name == "bvsub"@ {
        Some(TermOp::BvSub)
    } else if name == "bvmul"@ {
        Some(TermOp::BvMul)
    } else if name == "bvudiv"@ {
        Some(TermOp::BvUdiv)
    } else if name == "bvsdiv"@ {
        Some(TermOp::BvSdiv)
    } else if name == "bvurem"@ {
        Some(TermOp::BvUrem)
    } else if name == "bvsrem"@ {
        Some(TermOp::BvSrem)
    } else if name == "bvshl"@ {
        Some(TermOp::BvShl)
    } else if name == "bvlshr"@ {
        Some(TermOp::BvLshr)
    } else if name == "bvashr"@ {
        Some(TermOp::BvAshr)
    } else if name == "bvult"@ {
        Some(TermOp::BvUlt)
    } else if name == "bvule"@ {
        Some(TermOp::BvUle)
    } else if name == "bvugt"@ {
        Some(TermOp::BvUgt)
    } else if name == "bvuge"@ {
        Some(TermOp::BvUge)
    } else if name == "bvslt"@ {
        Some(TermOp::BvSlt)
    } else if name == "bvsle"@ {
        Some(TermOp::BvSle)
    } else if name == "bvsgt"@ {
        Some(TermOp::BvSgt)
    } else if name == "bvsge"@ {
        Some(TermOp::BvSge)
    } else if name == "concat"@ {
        Some(TermOp::BvConcat)
    } else if name == "select"@ {
        Some(TermOp::Select)
    } else if name == "store"@ {
        Some(TermOp::Store)
    } else if name == "/"@ {
        Some(TermOp::Div)
    } else {
        None
    }
}


/// Every reading that succeeds ends within the tokens; those that must consume a token
/// end after their start.
pub proof fn lemma_sort_progress(t: Seq<TokenModel>, p: int)
    requires
        0 <= p <= t.len(),
    ensures
        sort_at(t, p) matches Ok((s, q)) ==> p < q <= t.len(),
    decreases t.len() - p,
{
    if tok_at(t, p) == Some(TokenModel::LParen) && p + 2 <= t.len() {
        lemma_sort_progress(t, p + 2);
        if let Ok((i, q1)) = sort_at(t, p + 2) {
            if p < q1 <= t.len() {
                lemma_sort_progress(t, q1);
            }
        }
    }
}

pub proof fn lemma_sorts_progress(t: Seq<TokenModel>, p: int)
    requires
        0 <= p <= t.len(),
    ensures
        sorts_at(t, p) matches Ok((s, q)) ==> p <= q <= t.len(),
    decreases t.len() - p,
{
    if tok_at(t, p) != Some(TokenModel::RParen) {
        lemma_sort_progress(t, p);
        if let Ok((s, q)) = sort_at(t, p) {
            if p < q <= t.len() {
                lemma_sorts_progress(t, q);
            }
        }
    }
}

pub proof fn lemma_term_progress(t: Seq<TokenModel>, p: int)
    requires
        0 <= p <= t.len(),
    ensures
        term_at(t, p) matches Ok((x, q)) ==> p < q <= t.len(),
    decreases t.len() - p, 1int,
{
    if tok_at(t, p) == Some(TokenModel::LParen) {
        lemma_compound_progress(t, p + 1);
    }
}

pub proof fn lemma_terms_progress(t: Seq<TokenModel>, p: int)
    requires
        0 <= p <= t.len(),
    ensures
        terms_at(t, p) matches Ok((x, q)) ==> p <= q <= t.len(),
    decreases t.len() - p, 2int,
{
    if tok_at(t, p) != Some(TokenModel::RParen) {
        lemma_term_progress(t, p);
        if let Ok((x, q)) = term_at(t, p) {
            if p < q <= t.len() {
                lemma_terms_progress(t, q);
            }
        }
    }
}

pub proof fn lemma_n_terms_progress(t: Seq<TokenModel>, p: int, n: nat)
    requires
        0 <= p <= t.len(),
    ensures
        n_terms_at(t, p, n) matches Ok((x, q)) ==> p <= q <= t.len(),
    decreases t.len() - p, 2int + n,
{
    if n > 0 {
        lemma_term_progress(t, p);
        if let Ok((x, q)) = term_at(t, p) {
            if p < q <= t.len() {
                lemma_n_terms_progress(t, q, (n - 1) as nat);
            }
        }
    }
}

pub proof fn lemma_bindings_progress(t: Seq<TokenModel>, p: int)
    requires
        0 <= p <= t.len(),
    ensures
        bindings_at(t, p) matches Ok((x, q)) ==> p <= q <= t.len(),
    decreases t.len() - p, 2int,
{
    if tok_at(t, p) != Some(TokenModel::RParen) && p + 2 <= t.len() {
        lemma_term_progress(t, p + 2);
        if let Ok((x, q2)) = term_at(t, p + 2) {
            if let Ok(q3) = rparen_at(t, q2) {
                if p < q3 <= t.len() {
                    lemma_bindings_progress(t, q3);
                }
            }
        }
    }
}

pub proof fn lemma_closed_term_progress(t: Seq<TokenModel>, p: int)
    requires
        0 <= p <= t.len(),
    ensures
        closed_term_at(t, p) matches Ok((x, q)) ==> p < q <= t.len(),
    decreases t.len() - p, 2int,
{
    lemma_term_progress(t, p);
}

pub proof fn lemma_indexed_progress(t: Seq<TokenModel>, p: int)
    requires
        0 <= p <= t.len(),
    ensures
        indexed_at(t, p) matches Ok((x, q)) ==> p < q <= t.len(),
    decreases t.len() - p, 3int,
{
    if p + 3 <= t.len() {
        lemma_closed_term_progress(t, p + 3);
    }
    if p + 4 <= t.len() {
        lemma_closed_term_progress(t, p + 4);
    }
}

pub proof fn lemma_let_progress(t: Seq<TokenModel>, p: int)
    requires
        0 <= p <= t.len(),
    ensures
        let_at(t, p) matches Ok((x, q)) ==> p < q <= t.len(),
    decreases t.len() - p, 3int,
{
    if p + 1 <= t.len() {
        lemma_bindings_progress(t, p + 1);
        if let Ok((bs, q1)) = bindings_at(t, p + 1) {
            if let Ok(q2) = rparen_at(t, q1) {
                if p < q2 <= t.len() {
                    lemma_closed_term_progress(t, q2);
                }
            }
        }
    }
}

pub proof fn lemma_minus_progress(t: Seq<TokenModel>, p: int)
    requires
        0 <= p <= t.len(),
    ensures
        minus_at(t, p) matches Ok((x, q)) ==> p < q <= t.len(),
    decreases t.len() - p, 3int,
{
    lemma_term_progress(t, p);
    if let Ok((a, q)) = term_at(t, p) {
        if p < q <= t.len() {
            lemma_closed_term_progress(t, q);
        }
    }
}

pub proof fn lemma_args_progress(t: Seq<TokenModel>, p: int)
    requires
        0 <= p <= t.len(),
    ensures
        args_at(t, p) matches Ok((x, q)) ==> p < q <= t.len(),
    decreases t.len() - p, 3int,
{
    lemma_terms_progress(t, p);
}

pub proof fn lemma_n_args_progress(t: Seq<TokenModel>, p: int, n: nat)
    requires
        0 <= p <= t.len(),
    ensures
        n_args_at(t, p, n) matches Ok((x, q)) ==> p < q <= t.len(),
    decreases t.len() - p, 3int + n,
{
    lemma_n_terms_progress(t, p, n);
}

pub proof fn lemma_compound_progress(t: Seq<TokenModel>, p: int)
    requires
        0 <= p <= t.len(),
    ensures
        compound_at(t, p) matches Ok((x, q)) ==> p < q <= t.len(),
    decreases t.len() - p, 7int,
{
    if p < t.len() {
        if let TokenModel::Symbol(op) = t[p] {
            lemma_minus_progress(t, p + 1);
            lemma_let_progress(t, p + 1);
            lemma_indexed_progress(t, p + 1);
            lemma_args_progress(t, p + 1);
            if let Some(o) = op_named(op) {
                if let Some(n) = op_arity(o) {
                    lemma_n_args_progress(t, p + 1, n);
                }
            }
        } else if t[p] == TokenModel::LParen {
            lemma_compound_progress(t, p + 1);
        }
    }
}

/// `ms` before the sequence that `r` yields.
pub open spec fn prepend<A>(ms: Seq<A>, r: Result<(Seq<A>, int), ErrorModel>) -> Result<(Seq<A>, int), ErrorModel> {
    match r {
        Ok((ys, q)) => Ok((ms + ys, q)),
        Err(e) => Err(e),
    }
}

/// `r` is the outcome `s`, with positions as `usize`.
pub open spec fn pos_out(r: Result<usize, SmtLibError>, s: Result<int, ErrorModel>) -> bool {
    match s {
        Ok(q) => r matches Ok(x) && x == q,
        Err(e) => r matches Err(x) && x@ == e,
    }
}

pub open spec fn sym_out(r: Result<(String, usize), SmtLibError>, s: Result<(Seq<char>, int), ErrorModel>) -> bool {
    match s {
        Ok((n, q)) => r matches Ok((x, y)) && x@ == n && y == q,
        Err(e) => r matches Err(x) && x@ == e,
    }
}

pub open spec fn sort_out(r: Result<(Sort, usize), SmtLibError>, s: Result<(SortModel, int), ErrorModel>) -> bool {
    match s {
        Ok((n, q)) => r matches Ok((x, y)) && x@ == n && y == q,
        Err(e) => r matches Err(x) && x@ == e,
    }
}

pub open spec fn sorts_out(r: Result<(Vec<Sort>, usize), SmtLibError>, s: Result<(Seq<SortModel>, int), ErrorModel>) -> bool {
    match s {
        Ok((n, q)) => r matches Ok((x, y)) && sort_views(x@) == n && y == q,
        Err(e) => r matches Err(x) && x@ == e,
    }
}

pub open spec fn term_out(r: Result<(Term, usize), SmtLibError>, s: Result<(TermModel, int), ErrorModel>) -> bool {
    match s {
        Ok((n, q)) => r matches Ok((x, y)) && x@ == n && y == q,
        Err(e) => r matches Err(x) && x@ == e,
    }
}

pub open spec fn terms_out(r: Result<(Vec<Term>, usize), SmtLibError>, s: Result<(Seq<TermModel>, int), ErrorModel>) -> bool {
    match s {
        Ok((n, q)) => r matches Ok((x, y)) && term_models(x@) == n && y == q,
        Err(e) => r matches Err(x) && x@ == e,
    }
}

pub open spec fn bindings_out(r: Result<(Vec<(String, Term)>, usize), SmtLibError>, s: Result<(Seq<(Seq<char>, TermModel)>, int), ErrorModel>) -> bool {
    match s {
        Ok((n, q)) => r matches Ok((x, y)) && binding_models(x@) == n && y == q,
        Err(e) => r matches Err(x) && x@ == e,
    }
}

/// The text `t`.
fn text_of(t: &str) -> (r: String)
    ensures
        r@ == t@,
{
    t.to_owned()
}

/// A parser error.
fn perror(message: String) -> (e: SmtLibError)
    ensures
        e@ == perr(message@),
{
    SmtLibError { message, line: 0, column: 0 }
}

/// `prefix` followed by `name`.
fn message_with(prefix: &str, name: &String) -> (m: String)
    ensures
        m@ == prefix@ + name@,
{
    let mut m = text_of(prefix);
    let cs = chars_of(name.as_str());
    let mut k: usize = 0;
    while k < cs.len()
        invariant
            k <= cs@.len(),
            cs@ == name@,
            m@ == prefix@ + cs@.take(k as int),
        decreases cs@.len() - k,
    {
        push_char(&mut m, cs[k]);
        assert(cs@.take(k + 1) =~= cs@.take(k as int).push(cs@[k as int]));
        k = k + 1;
    }
    assert(cs@.take(k as int) =~= cs@);
    m
}

/// A copy of a token.
fn copy_token(x: &Token) -> (r: Token)
    ensures
        r@ == x@,
{
    match x {
        Token::LParen => Token::LParen,
        Token::RParen => Token::RParen,
        Token::Symbol(s) => Token::Symbol(s.clone()),
        Token::Keyword(s) => Token::Keyword(s.clone()),
        Token::Numeral(n) => Token::Numeral(*n),
        Token::Decimal(d) => Token::Decimal(*d),
        Token::HexLit(v, w) => Token::HexLit(*v, *w),
        Token::BinLit(v, w) => Token::BinLit(*v, *w),
        Token::StringLit(s) => Token::StringLit(s.clone()),
    }
}

/// The token at `p`, if any.
fn peek(t: &Vec<Token>, p: usize) -> (r: Option<Token>)
    ensures
        r is Some ==> p < t@.len() && p + 1 <= usize::MAX,
        match tok_at(token_models(t@), p as int) {
            Some(m) => r matches Some(x) && x@ == m,
            None => r is None,
        },
{
    if p < t.len() {
        Some(copy_token(&t[p]))
    } else {
        None
    }
}

/// Whether a closing parenthesis is at `p`.
fn is_rparen(t: &Vec<Token>, p: usize) -> (b: bool)
    ensures
        b ==> p < t@.len() && p + 1 <= usize::MAX,
        b == (tok_at(token_models(t@), p as int) == Some(TokenModel::RParen)),
{
    p < t.len() && match &t[p] {
        Token::RParen => true,
        _ => false,
    }
}

fn expect_lparen(t: &Vec<Token>, p: usize) -> (r: Result<usize, SmtLibError>)
    ensures
        pos_out(r, lparen_at(token_models(t@), p as int)),
{
    if p < t.len() {
        if let Token::LParen = &t[p] {
            return Ok(p + 1);
        }
    }
    Err(perror(text_of("Expected '('")))
}

fn expect_rparen(t: &Vec<Token>, p: usize) -> (r: Result<usize, SmtLibError>)
    ensures
        pos_out(r, rparen_at(token_models(t@), p as int)),
{
    if p < t.len() {
        if let Token::RParen = &t[p] {
            return Ok(p + 1);
        }
    }
    Err(perror(text_of("Expected ')'")))
}

fn expect_symbol(t: &Vec<Token>, p: usize) -> (r: Result<(String, usize), SmtLibError>)
    ensures
        sym_out(r, symbol_at(token_models(t@), p as int)),
{
    if p < t.len() {
        if let Token::Symbol(s) = &t[p] {
            return Ok((s.clone(), p + 1));
        }
    }
    Err(perror(text_of("Expected symbol")))
}

fn sort_named(s: String) -> (r: Sort)
    ensures
        r@ == named_sort(s@),
{
    if same_text(s.as_str(), "Bool") {
        Sort::Bool
    } else if same_text(s.as_str(), "Int") {
        Sort::Int
    } else if same_text(s.as_str(), "Real") {
        Sort::Real
    } else {
        Sort::Uninterpreted(s)
    }
}

/// Read a sort at `p`.
fn parse_sort(t: &Vec<Token>, p: usize) -> (r: Result<(Sort, usize), SmtLibError>)
    requires
        p <= t@.len(),
    ensures
        sort_out(r, sort_at(token_models(t@), p as int)),
    decreases t@.len() - p,
{
    let ghost tm = token_models(t@);
    proof {
        lemma_sort_progress(tm, p as int);
    }
    match peek(t, p) {
        Some(Token::Symbol(s)) => Ok((sort_named(s), p + 1)),
        Some(Token::LParen) => {
            let (head, q) = match expect_symbol(t, p + 1) {
                Ok(x) => x,
                Err(e) => return Err(e),
            };
            if same_text(head.as_str(), "_") {
                let (name, r) = match expect_symbol(t, q) {
                    Ok(x) => x,
                    Err(e) => return Err(e),
                };
                if same_text(name.as_str(), "BitVec") {
                    match peek(t, r) {
                        Some(Token::Numeral(n)) => {
                            let e = match expect_rparen(t, r + 1) {
                                Ok(x) => x,
                                Err(e) => return Err(e),
                            };
                            Ok((Sort::BitVec(n as u32), e))
                        },
                        _ => Err(perror(text_of("Expected bitvector width"))),
                    }
                } else {
                    Err(perror(message_with("Unknown indexed sort: ", &name)))
                }
            } else if same_text(head.as_str(), "Array") {
                proof {
                    lemma_sort_progress(tm, q as int);
                }
                let (i, q1) = match parse_sort(t, q) {
                    Ok(x) => x,
                    Err(e) => return Err(e),
                };
                let (el, q2) = match parse_sort(t, q1) {
                    Ok(x) => x,
                    Err(e) => return Err(e),
                };
                let e = match expect_rparen(t, q2) {
                    Ok(x) => x,
                    Err(e) => return Err(e),
                };
                Ok((Sort::Array(Box::new(i), Box::new(el)), e))
            } else {
                Err(perror(message_with("Unknown parametric sort: ", &head)))
            }
        },
        _ => Err(perror(text_of("Expected sort"))),
    }
}

/// Read sorts from `p` up to a closing parenthesis.
fn parse_sorts(t: &Vec<Token>, p: usize) -> (r: Result<(Vec<Sort>, usize), SmtLibError>)
    requires
        p <= t@.len(),
    ensures
        sorts_out(r, sorts_at(token_models(t@), p as int)),
{
    let ghost tm = token_models(t@);
    let mut xs: Vec<Sort> = Vec::new();
    let mut q = p;
    assert(sort_views(xs@) =~= Seq::<SortModel>::empty());
    assert(prepend(Seq::<SortModel>::empty(), sorts_at(tm, p as int)) == sorts_at(tm, p as int)) by {
        if let Ok((ys, r)) = sorts_at(tm, p as int) {
            assert(Seq::<SortModel>::empty() + ys =~= ys);
        }
    }
    loop
        invariant
            p <= q <= t@.len(),
            tm == token_models(t@),
            sorts_at(tm, p as int) == prepend(sort_views(xs@), sorts_at(tm, q as int)),
        decreases t@.len() - q,
    {
        if is_rparen(t, q) {
            assert(sort_views(xs@) + Seq::<SortModel>::empty() =~= sort_views(xs@));
            return Ok((xs, q));
        }
        proof {
            lemma_sort_progress(tm, q as int);
        }
        let ghost before = sort_views(xs@);
        let ghost old_xs = xs@;
        match parse_sort(t, q) {
            Err(e) => {
                return Err(e);
            },
            Ok((x, q1)) => {
                xs.push(x);
                proof {
                    assert(sort_views(xs@) =~= before.push(x@));
                    assert(sorts_at(tm, q as int) == prepend(seq![x@], sorts_at(tm, q1 as int)));
                    if let Ok((ys, r)) = sorts_at(tm, q1 as int) {
                        assert(before + (seq![x@] + ys) =~= before.push(x@) + ys);
                    }
                }
                q = q1;
            },
        }
    }
}

/// Read a term at `p`.
fn parse_term(t: &Vec<Token>, p: usize) -> (r: Result<(Term, usize), SmtLibError>)
    requires
        p <= t@.len(),
    ensures
        term_out(r, term_at(token_models(t@), p as int)),
    decreases t@.len() - p, 1int,
{
    match peek(t, p) {
        Some(Token::Symbol(s)) => {
            let x = if same_text(s.as_str(), "true") {
                Term::True
            } else if same_text(s.as_str(), "false") {
                Term::False
            } else {
                Term::Var(s)
            };
            Ok((x, p + 1))
        },
        Some(Token::Numeral(n)) => Ok((Term::IntLit(n), p + 1)),
        Some(Token::Decimal(d)) => Ok((Term::RealLit(d), p + 1)),
        Some(Token::HexLit(v, w)) => Ok((Term::BitVecLit { value: v, width: w }, p + 1)),
        Some(Token::BinLit(v, w)) => Ok((Term::BitVecLit { value: v, width: w }, p + 1)),
        Some(Token::LParen) => parse_compound(t, p + 1),
        _ => Err(perror(text_of("Expected term"))),
    }
}

/// Read terms from `p` up to a closing parenthesis.
fn parse_terms(t: &Vec<Token>, p: usize) -> (r: Result<(Vec<Term>, usize), SmtLibError>)
    requires
        p <= t@.len(),
    ensures
        terms_out(r, terms_at(token_models(t@), p as int)),
    decreases t@.len() - p, 2int,
{
    let ghost tm = token_models(t@);
    let mut xs: Vec<Term> = Vec::new();
    let mut q = p;
    assert(term_models(xs@) =~= Seq::<TermModel>::empty());
    assert(prepend(Seq::<TermModel>::empty(), terms_at(tm, p as int)) == terms_at(tm, p as int)) by {
        if let Ok((ys, r)) = terms_at(tm, p as int) {
            assert(Seq::<TermModel>::empty() + ys =~= ys);
        }
    }
    loop
        invariant
            p <= q <= t@.len(),
            tm == token_models(t@),
            terms_at(tm, p as int) == prepend(term_models(xs@), terms_at(tm, q as int)),
        decreases t@.len() - q,
    {
        if is_rparen(t, q) {
            assert(term_models(xs@) + Seq::<TermModel>::empty() =~= term_models(xs@));
            return Ok((xs, q));
        }
        proof {
            lemma_term_progress(tm, q as int);
        }
        let ghost before = term_models(xs@);
        let ghost old_xs = xs@;
        match parse_term(t, q) {
            Err(e) => {
                return Err(e);
            },
            Ok((x, q1)) => {
                let ghost xm = x@;
                xs.push(x);
                proof {
                    assert(xs@.drop_last() =~= old_xs);
                    lemma_term_models_push(xs@);
                    assert(terms_at(tm, q as int) == prepend(seq![xm], terms_at(tm, q1 as int)));
                    if let Ok((ys, r)) = terms_at(tm, q1 as int) {
                        assert(before + (seq![xm] + ys) =~= before.push(xm) + ys);
                    }
                }
                q = q1;
            },
        }
    }
}

/// Read exactly `n` terms from `p`.
fn parse_n_terms(t: &Vec<Token>, p: usize, n: u8) -> (r: Result<(Vec<Term>, usize), SmtLibError>)
    requires
        p <= t@.len(),
    ensures
        terms_out(r, n_terms_at(token_models(t@), p as int, n as nat)),
        r matches Ok((xs, q)) ==> xs@.len() == n,
    decreases t@.len() - p, 2int + n,
{
    let ghost tm = token_models(t@);
    let mut xs: Vec<Term> = Vec::new();
    let mut q = p;
    let mut k: u8 = 0;
    assert(term_models(xs@) =~= Seq::<TermModel>::empty());
    assert(prepend(Seq::<TermModel>::empty(), n_terms_at(tm, p as int, n as nat)) == n_terms_at(tm, p as int, n as nat)) by {
        if let Ok((ys, r)) = n_terms_at(tm, p as int, n as nat) {
            assert(Seq::<TermModel>::empty() + ys =~= ys);
        }
    }
    while k < n
        invariant
            p <= q <= t@.len(),
            k <= n,
            xs@.len() == k,
            tm == token_models(t@),
            n_terms_at(tm, p as int, n as nat) == prepend(term_models(xs@), n_terms_at(tm, q as int, (n - k) as nat)),
        decreases n - k,
    {
        proof {
            lemma_term_progress(tm, q as int);
        }
        let ghost before = term_models(xs@);
        let ghost old_xs = xs@;
        match parse_term(t, q) {
            Err(e) => {
                return Err(e);
            },
            Ok((x, q1)) => {
                let ghost xm = x@;
                xs.push(x);
                proof {
                    assert(xs@.drop_last() =~= old_xs);
                    lemma_term_models_push(xs@);
                    assert(n_terms_at(tm, q as int, (n - k) as nat) == prepend(seq![xm], n_terms_at(tm, q1 as int, (n - k - 1) as nat)));
                    if let Ok((ys, r)) = n_terms_at(tm, q1 as int, (n - k - 1) as nat) {
                        assert(before + (seq![xm] + ys) =~= before.push(xm) + ys);
                    }
                }
                q = q1;
                k = k + 1;
            },
        }
    }
    assert(term_models(xs@) + Seq::<TermModel>::empty() =~= term_models(xs@));
    Ok((xs, q))
}

/// The form of a sequence with one more term is the forms before it with that term's
/// form after them.
proof fn lemma_term_models_push(ts: Seq<Term>)
    requires
        ts.len() > 0,
    ensures
        term_models(ts) == term_models(ts.drop_last()).push(ts.last()@),
{
    assert(ts.subrange(0, ts.len() - 1) =~= ts.drop_last());
}

/// Read `let` bindings from `p` up to a closing parenthesis.
fn parse_bindings(t: &Vec<Token>, p: usize) -> (r: Result<(Vec<(String, Term)>, usize), SmtLibError>)
    requires
        p <= t@.len(),
    ensures
        bindings_out(r, bindings_at(token_models(t@), p as int)),
    decreases t@.len() - p, 2int,
{
    let ghost tm = token_models(t@);
    let mut bs: Vec<(String, Term)> = Vec::new();
    let mut q = p;
    assert(binding_models(bs@) =~= Seq::<(Seq<char>, TermModel)>::empty());
    assert(prepend(Seq::<(Seq<char>, TermModel)>::empty(), bindings_at(tm, p as int)) == bindings_at(tm, p as int)) by {
        if let Ok((ys, r)) = bindings_at(tm, p as int) {
            assert(Seq::<(Seq<char>, TermModel)>::empty() + ys =~= ys);
        }
    }
    loop
        invariant
            p <= q <= t@.len(),
            tm == token_models(t@),
            bindings_at(tm, p as int) == prepend(binding_models(bs@), bindings_at(tm, q as int)),
        decreases t@.len() - q,
    {
        if is_rparen(t, q) {
            assert(binding_models(bs@) + Seq::<(Seq<char>, TermModel)>::empty() =~= binding_models(bs@));
            return Ok((bs, q));
        }
        let ghost before = binding_models(bs@);
        let q0 = match expect_lparen(t, q) {
            Ok(x) => x,
            Err(e) => return Err(e),
        };
        let (name, q1) = match expect_symbol(t, q0) {
            Ok(x) => x,
            Err(e) => return Err(e),
        };
        proof {
            lemma_term_progress(tm, q1 as int);
        }
        let (x, q2) = match parse_term(t, q1) {
            Ok(x) => x,
            Err(e) => return Err(e),
        };
        let q3 = match expect_rparen(t, q2) {
            Ok(x) => x,
            Err(e) => return Err(e),
        };
        let ghost nm = name@;
        let ghost xm = x@;
        let ghost old_bs = bs@;
        bs.push((name, x));
        proof {
            assert(bs@.subrange(0, bs@.len() - 1) =~= old_bs);
            assert(binding_models(bs@) == before.push((nm, xm)));
            assert(bindings_at(tm, q as int) == prepend(seq![(nm, xm)], bindings_at(tm, q3 as int)));
            if let Ok((ys, r)) = bindings_at(tm, q3 as int) {
                assert(before + (seq![(nm, xm)] + ys) =~= before.push((nm, xm)) + ys);
            }
        }
        q = q3;
    }
}

/// Read a term and a closing parenthesis.
fn parse_closed_term(t: &Vec<Token>, p: usize) -> (r: Result<(Term, usize), SmtLibError>)
    requires
        p <= t@.len(),
    ensures
        term_out(r, closed_term_at(token_models(t@), p as int)),
    decreases t@.len() - p, 2int,
{
    proof {
        lemma_term_progress(token_models(t@), p as int);
    }
    let (x, q) = match parse_term(t, p) {
        Ok(x) => x,
        Err(e) => return Err(e),
    };
    let r = match expect_rparen(t, q) {
        Ok(x) => x,
        Err(e) => return Err(e),
    };
    Ok((x, r))
}

/// Read the rest of an indexed operator application (after `_`).
#[verifier::rlimit(60)]
fn parse_indexed(t: &Vec<Token>, p: usize) -> (r: Result<(Term, usize), SmtLibError>)
    requires
        p <= t@.len(),
    ensures
        term_out(r, indexed_at(token_models(t@), p as int)),
    decreases t@.len() - p, 3int,
{
    let (name, q) = match expect_symbol(t, p) {
        Ok(x) => x,
        Err(e) => return Err(e),
    };
    if same_text(name.as_str(), "extract") {
        let h = match peek(t, q) {
            Some(Token::Numeral(h)) => h,
            _ => return Err(perror(text_of("Expected high index"))),
        };
        let l = match peek(t, q + 1) {
            Some(Token::Numeral(l)) => l,
            _ => return Err(perror(text_of("Expected low index"))),
        };
        let r = match expect_rparen(t, q + 2) {
            Ok(x) => x,
            Err(e) => return Err(e),
        };
        let (x, e) = match parse_closed_term(t, r) {
            Ok(x) => x,
            Err(e) => return Err(e),
        };
        Ok((Term::BvExtract { high: h as u32, low: l as u32, term: Box::new(x) }, e))
    } else if same_text(name.as_str(), "zero_extend") || same_text(name.as_str(), "sign_extend") {
        let n = match peek(t, q) {
            Some(Token::Numeral(n)) => n,
            _ => return Err(perror(text_of("Expected extension bits"))),
        };
        let r = match expect_rparen(t, q + 1) {
            Ok(x) => x,
            Err(e) => return Err(e),
        };
        let (x, e) = match parse_closed_term(t, r) {
            Ok(x) => x,
            Err(e) => return Err(e),
        };
        if same_text(name.as_str(), "zero_extend") {
            Ok((Term::BvZeroExtend(n as u32, Box::new(x)), e))
        } else {
            Ok((Term::BvSignExtend(n as u32, Box::new(x)), e))
        }
    } else {
        Err(perror(message_with("Unknown indexed operator: ", &name)))
    }
}

/// Read the rest of a `let` term (after `let`).
fn parse_let(t: &Vec<Token>, p: usize) -> (r: Result<(Term, usize), SmtLibError>)
    requires
        p <= t@.len(),
    ensures
        term_out(r, let_at(token_models(t@), p as int)),
    decreases t@.len() - p, 3int,
{
    let ghost tm = token_models(t@);
    let q = match expect_lparen(t, p) {
        Ok(x) => x,
        Err(e) => return Err(e),
    };
    proof {
        lemma_bindings_progress(tm, q as int);
    }
    let (bs, q1) = match parse_bindings(t, q) {
        Ok(x) => x,
        Err(e) => return Err(e),
    };
    let q2 = match expect_rparen(t, q1) {
        Ok(x) => x,
        Err(e) => return Err(e),
    };
    let (body, r) = match parse_closed_term(t, q2) {
        Ok(x) => x,
        Err(e) => return Err(e),
    };
    Ok((Term::Let(bs, Box::new(body)), r))
}

/// Read the rest of a `-` term (after `-`).
#[verifier::spinoff_prover]
#[verifier::rlimit(60)]
fn parse_minus(t: &Vec<Token>, p: usize) -> (r: Result<(Term, usize), SmtLibError>)
    requires
        p <= t@.len(),
    ensures
        term_out(r, minus_at(token_models(t@), p as int)),
    decreases t@.len() - p, 3int,
{
    proof {
        lemma_term_progress(token_models(t@), p as int);
    }
    let (a, q) = match parse_term(t, p) {
        Ok(x) => x,
        Err(e) => return Err(e),
    };
    if is_rparen(t, q) {
        let x = build_op(TermOp::Neg, one_term(a));
        return Ok((x, q + 1));
    }
    let (b, r) = match parse_closed_term(t, q) {
        Ok(x) => x,
        Err(e) => return Err(e),
    };
    Ok((build_op(TermOp::Sub, two_terms(a, b)), r))
}

/// The one term `a`.
fn one_term(a: Term) -> (v: Vec<Term>)
    ensures
        v@.len() == 1,
        term_models(v@) == seq![a@],
{
    let v = vec![a];
    proof {
        lemma_term_models(v@);
        assert(term_models(v@) =~= seq![a@]);
    }
    v
}

/// The two terms `a` and `b`.
fn two_terms(a: Term, b: Term) -> (v: Vec<Term>)
    ensures
        v@.len() == 2,
        term_models(v@) == seq![a@, b@],
{
    let ghost am = a@;
    let ghost bm = b@;
    let v = vec![a, b];
    proof {
        lemma_term_models(v@);
        assert(term_models(v@) =~= seq![am, bm]);
    }
    v
}

/// Read operands up to and including a closing parenthesis.
fn parse_args(t: &Vec<Token>, p: usize) -> (r: Result<(Vec<Term>, usize), SmtLibError>)
    requires
        p <= t@.len(),
    ensures
        terms_out(r, args_at(token_models(t@), p as int)),
    decreases t@.len() - p, 3int,
{
    proof {
        lemma_terms_progress(token_models(t@), p as int);
    }
    let (xs, q) = match parse_terms(t, p) {
        Ok(x) => x,
        Err(e) => return Err(e),
    };
    let r = match expect_rparen(t, q) {
        Ok(x) => x,
        Err(e) => return Err(e),
    };
    Ok((xs, r))
}

/// Read exactly `n` operands and a closing parenthesis.
fn parse_n_args(t: &Vec<Token>, p: usize, n: u8) -> (r: Result<(Vec<Term>, usize), SmtLibError>)
    requires
        p <= t@.len(),
    ensures
        terms_out(r, n_args_at(token_models(t@), p as int, n as nat)),
        r matches Ok((xs, q)) ==> xs@.len() == n,
    decreases t@.len() - p, 3int + n,
{
    proof {
        lemma_n_terms_progress(token_models(t@), p as int, n as nat);
    }
    let (xs, q) = match parse_n_terms(t, p, n) {
        Ok(x) => x,
        Err(e) => return Err(e),
    };
    let r = match expect_rparen(t, q) {
        Ok(x) => x,
        Err(e) => return Err(e),
    };
    Ok((xs, r))
}

/// Read a compound term from `p` (after its opening parenthesis).
#[verifier::spinoff_prover]
#[verifier::rlimit(60)]
fn parse_compound(t: &Vec<Token>, p: usize) -> (r: Result<(Term, usize), SmtLibError>)
    requires
        p <= t@.len(),
    ensures
        term_out(r, compound_at(token_models(t@), p as int)),
    decreases t@.len() - p, 7int,
{
    let ghost tm = token_models(t@);
    match peek(t, p) {
        Some(Token::Symbol(op)) => {
            if same_text(op.as_str(), "-") {
                parse_minus(t, p + 1)
            } else if same_text(op.as_str(), "let") {
                parse_let(t, p + 1)
            } else if same_text(op.as_str(), "_") {
                parse_indexed(t, p + 1)
            } else {
                match op_of_name(op.as_str()) {
                    Some(o) => match op_arity_of(o) {
                        None => {
                            let (xs, r) = match parse_args(t, p + 1) {
                                Ok(x) => x,
                                Err(e) => return Err(e),
                            };
                            Ok((build_op(o, xs), r))
                        },
                        Some(n) => {
                            let (xs, r) = match parse_n_args(t, p + 1, n) {
                                Ok(x) => x,
                                Err(e) => return Err(e),
                            };
                            Ok((build_op(o, xs), r))
                        },
                    },
                    None => {
                        let (xs, r) = match parse_args(t, p + 1) {
                            Ok(x) => x,
                            Err(e) => return Err(e),
                        };
                        Ok((Term::Apply(op, xs), r))
                    },
                }
            }
        },
        Some(Token::LParen) => {
            let head_indexed = match peek(t, p + 1) {
                Some(Token::Symbol(s)) => same_text(s.as_str(), "_"),
                _ => false,
            };
            if head_indexed {
                return parse_compound(t, p + 1);
            }
            proof {
                lemma_compound_progress(tm, p + 1);
            }
            let (inner, q) = match parse_compound(t, p + 1) {
                Ok(x) => x,
                Err(e) => return Err(e),
            };
            match parse_args(t, q) {
                Err(e) => Err(e),
                Ok(_) => {
                    let indexed = match &inner {
                        Term::Apply(name, xs) => same_text(name.as_str(), "_") && xs.len() > 0,
                        _ => false,
                    };
                    proof {
                        if let Term::Apply(name, xs) = inner {
                            lemma_term_models(xs@);
                        }
                    }
                    if indexed {
                        Err(perror(text_of("Invalid indexed operator application")))
                    } else {
                        Err(perror(text_of("Higher-order application not supported")))
                    }
                },
            }
        },
        _ => Err(perror(text_of("Expected operator in compound term"))),
    }
}

/// The operator a name denotes (`-`, `let` and `_` are read apart).
fn op_of_name(name: &str) -> (r: Option<TermOp>)
    ensures
        r == op_named(name@),
{
    if same_text(name, "not") {
        Some(TermOp::Not)
    } else if same_text(name, "and") {
        Some(TermOp::And)
    } else if same_text(name, "or") {
        Some(TermOp::Or)
    } else if same_text(name, "xor") {
        Some(TermOp::Xor)
    } else if same_text(name, "=>") {
        Some(TermOp::Implies)
    } else if same_text(name, "ite") {
        Some(TermOp::Ite)
    } else if same_text(name, "=") {
        Some(TermOp::Eq)
    } else if same_text(name, "distinct") {
        Some(TermOp::Distinct)
    } else if same_text(name, "+") {
        Some(TermOp::Add)
    } else if same_text(name, "*") {
        Some(TermOp::Mul)
    } else if same_text(name, "div") {
        Some(TermOp::Div)
    } else if same_text(name, "mod") {
        Some(TermOp::Mod)
    } else if same_text(name, "abs") {
        Some(TermOp::Abs)
    } else if same_text(name, "<") {
        Some(TermOp::Lt)
    } else if same_text(name, "<=") {
        Some(TermOp::Le)
    } else if same_text(name, ">") {
        Some(TermOp::Gt)
    } else if same_text(name, ">=") {
        Some(TermOp::Ge)
    } else if same_text(name, "bvnot") {
        Some(TermOp::BvNot)
    } else if same_text(name, "bvand") {
        Some(TermOp::BvAnd)
    } else if same_text(name, "bvor") {
        Some(TermOp::BvOr)
    } else if same_text(name, "bvxor") {
        Some(TermOp::BvXor)
    } else if same_text(name, "bvadd") {
        Some(TermOp::BvAdd)
    } else if same_text(name, "bvsub") {
        Some(TermOp::BvSub)
    } else if same_text(name, "bvmul") {
        Some(TermOp::BvMul)
    } else if same_text(name, "bvudiv") {
        Some(TermOp::BvUdiv)
    } else if same_text(name, "bvsdiv") {
        Some(TermOp::BvSdiv)
    } else if same_text(name, "bvurem") {
        Some(TermOp::BvUrem)
    } else if same_text(name, "bvsrem") {
        Some(TermOp::BvSrem)
    } else if same_text(name, "bvshl") {
        Some(TermOp::BvShl)
    } else if same_text(name, "bvlshr") {
        Some(TermOp::BvLshr)
    } else if same_text(name, "bvashr") {
        Some(TermOp::BvAshr)
    } else if same_text(name, "bvult") {
        Some(TermOp::BvUlt)
    } else if same_text(name, "bvule") {
        Some(TermOp::BvUle)
    } else if same_text(name, "bvugt") {
        Some(TermOp::BvUgt)
    } else if same_text(name, "bvuge") {
        Some(TermOp::BvUge)
    } else if same_text(name, "bvslt") {
        Some(TermOp::BvSlt)
    } else if same_text(name, "bvsle") {
        Some(TermOp::BvSle)
    } else if same_text(name, "bvsgt") {
        Some(TermOp::BvSgt)
    } else if same_text(name, "bvsge") {
        Some(TermOp::BvSge)
    } else if same_text(name, "concat") {
        Some(TermOp::BvConcat)
    } else if same_text(name, "select") {
        Some(TermOp::Select)
    } else if same_text(name, "store") {
        Some(TermOp::Store)
    } else if same_text(name, "/") {
        Some(TermOp::Div)
    } else {
        None
    }
}

/// Sorted parameters `(name sort)` from `p` up to a closing parenthesis (not consumed).
pub open spec fn params_at(t: Seq<TokenModel>, p: int) -> Result<(Seq<(Seq<char>, SortModel)>, int), ErrorModel>
    decreases t.len() - p,
{
    if tok_at(t, p) == Some(TokenModel::RParen) {
        Ok((Seq::empty(), p))
    } else {
        match lparen_at(t, p) {
            Err(e) => Err(e),
            Ok(q0) => match symbol_at(t, q0) {
                Err(e) => Err(e),
                Ok((name, q1)) => match sort_at(t, q1) {
                    Err(e) => Err(e),
                    Ok((s, q2)) => match rparen_at(t, q2) {
                        Err(e) => Err(e),
                        Ok(q3) => if p < q3 <= t.len() {
                            match params_at(t, q3) {
                                Err(e) => Err(e),
                                Ok((ps, r)) => Ok((seq![(name, s)] + ps, r)),
                            }
                        } else {
                            Err(perr(Seq::empty()))
                        },
                    },
                },
            },
        }
    }
}

/// The position after the tokens from `p` that close `depth` open parentheses (or the
/// end of the tokens).
pub open spec fn skip_at(t: Seq<TokenModel>, p: int, depth: nat) -> int
    decreases t.len() - p,
{
    if depth == 0 || p < 0 || p >= t.len() {
        p
    } else {
        match t[p] {
            TokenModel::LParen => skip_at(t, p + 1, depth + 1),
            TokenModel::RParen => skip_at(t, p + 1, (depth - 1) as nat),
            _ => skip_at(t, p + 1, depth),
        }
    }
}

/// A command at `p` and the position after it; `None` when no `(` is at `p`. An unknown
/// command is skipped, and the next one read.
/// The kinds of commands, by name.
pub enum CommandKind {
    SetLogic,
    DeclareSort,
    DeclareFun,
    DeclareConst,
    DefineFun,
    Assert,
    Plain,
    GetValue,
    PushPop,
    Other,
}

/// The kind of the command named `name`.
pub open spec fn command_kind(name: Seq<char>) -> CommandKind {
    if name == "set-logic"@ {
        CommandKind::SetLogic
    } else if name == "declare-sort"@ {
        CommandKind::DeclareSort
    } else if name == "declare-fun"@ {
        CommandKind::DeclareFun
    } else if name == "declare-const"@ {
        CommandKind::DeclareConst
    } else if name == "define-fun"@ {
        CommandKind::DefineFun
    } else if name == "assert"@ {
        CommandKind::Assert
    } else if name == "check-sat"@ || name == "get-model"@ || name == "reset"@ || name == "exit"@ {
        CommandKind::Plain
    } else if name == "get-value"@ {
        CommandKind::GetValue
    } else if name == "push"@ || name == "pop"@ {
        CommandKind::PushPop
    } else {
        CommandKind::Other
    }
}

/// The kind of the command named `name`.
fn kind_of_command(name: &str) -> (k: CommandKind)
    ensures
        k == command_kind(name@),
{
    if same_text(name, "set-logic") {
        CommandKind::SetLogic
    } else if same_text(name, "declare-sort") {
        CommandKind::DeclareSort
    } else if same_text(name, "declare-fun") {
        CommandKind::DeclareFun
    } else if same_text(name, "declare-const") {
        CommandKind::DeclareConst
    } else if same_text(name, "define-fun") {
        CommandKind::DefineFun
    } else if same_text(name, "assert") {
        CommandKind::Assert
    } else if same_text(name, "check-sat") || same_text(name, "get-model") || same_text(name, "reset") || same_text(name, "exit") {
        CommandKind::Plain
    } else if same_text(name, "get-value") {
        CommandKind::GetValue
    } else if same_text(name, "push") || same_text(name, "pop") {
        CommandKind::PushPop
    } else {
        CommandKind::Other
    }
}

pub open spec fn command_at(t: Seq<TokenModel>, p: int) -> Result<(Option<CommandModel>, int), ErrorModel>
    decreases t.len() - p,
{
    if tok_at(t, p) != Some(TokenModel::LParen) {
        Ok((None, p))
    } else {
        match symbol_at(t, p + 1) {
            Err(e) => Err(e),
            Ok((name, q)) => match command_kind(name) {
                CommandKind::SetLogic => {
                match symbol_at(t, q) {
                    Err(e) => Err(e),
                    Ok((ln, q1)) => match logic_named(unicode_uppercase(ln)) {
                        None => Err(perr("Unknown logic: "@ + ln)),
                        Some(l) => match rparen_at(t, q1) {
                            Err(e) => Err(e),
                            Ok(r) => Ok((Some(CommandModel::SetLogic(l)), r)),
                        },
                    },
                }
            },
                CommandKind::DeclareSort => {
                match symbol_at(t, q) {
                    Err(e) => Err(e),
                    Ok((n, q1)) => {
                        let arity: u32 = match tok_at(t, q1) {
                            Some(TokenModel::Numeral(k)) => k as u32,
                            _ => 0,
                        };
                        let q2 = if q1 < t.len() { q1 + 1 } else { q1 };
                        match rparen_at(t, q2) {
                            Err(e) => Err(e),
                            Ok(r) => Ok((Some(CommandModel::DeclareSort(n, arity)), r)),
                        }
                    },
                }
            },
                CommandKind::DeclareFun => {
                match symbol_at(t, q) {
                    Err(e) => Err(e),
                    Ok((n, q1)) => match lparen_at(t, q1) {
                        Err(e) => Err(e),
                        Ok(q2) => match sorts_at(t, q2) {
                            Err(e) => Err(e),
                            Ok((ps, q3)) => match rparen_at(t, q3) {
                                Err(e) => Err(e),
                                Ok(q4) => match sort_at(t, q4) {
                                    Err(e) => Err(e),
                                    Ok((rs, q5)) => match rparen_at(t, q5) {
                                        Err(e) => Err(e),
                                        Ok(r) => Ok((Some(CommandModel::DeclareFun(FunDeclModel { name: n, params: ps, return_sort: rs })), r)),
                                    },
                                },
                            },
                        },
                    },
                }
            },
                CommandKind::DeclareConst => {
                match symbol_at(t, q) {
                    Err(e) => Err(e),
                    Ok((n, q1)) => match sort_at(t, q1) {
                        Err(e) => Err(e),
                        Ok((s, q2)) => match rparen_at(t, q2) {
                            Err(e) => Err(e),
                            Ok(r) => Ok((Some(CommandModel::DeclareFun(FunDeclModel { name: n, params: Seq::empty(), return_sort: s })), r)),
                        },
                    },
                }
            },
                CommandKind::DefineFun => {
                match symbol_at(t, q) {
                    Err(e) => Err(e),
                    Ok((n, q1)) => match lparen_at(t, q1) {
                        Err(e) => Err(e),
                        Ok(q2) => match params_at(t, q2) {
                            Err(e) => Err(e),
                            Ok((ps, q3)) => match rparen_at(t, q3) {
                                Err(e) => Err(e),
                                Ok(q4) => match sort_at(t, q4) {
                                    Err(e) => Err(e),
                                    Ok((rs, q5)) => match closed_term_at(t, q5) {
                                        Err(e) => Err(e),
                                        Ok((b, r)) => Ok((Some(CommandModel::DefineFun(n, ps, rs, b)), r)),
                                    },
                                },
                            },
                        },
                    },
                }
            },
                CommandKind::Assert => {
                match closed_term_at(t, q) {
                    Err(e) => Err(e),
                    Ok((x, r)) => Ok((Some(CommandModel::Assert(x)), r)),
                }
            },
                CommandKind::Plain => {
                match rparen_at(t, q) {
                    Err(e) => Err(e),
                    Ok(r) => Ok((Some(
                        if name == "check-sat"@ {
                            CommandModel::CheckSat
                        } else if name == "get-model"@ {
                            CommandModel::GetModel
                        } else if name == "reset"@ {
                            CommandModel::Reset
                        } else {
                            CommandModel::Exit
                        },
                    ), r)),
                }
            },
                CommandKind::GetValue => {
                match lparen_at(t, q) {
                    Err(e) => Err(e),
                    Ok(q1) => match terms_at(t, q1) {
                        Err(e) => Err(e),
                        Ok((xs, q2)) => match rparen_at(t, q2) {
                            Err(e) => Err(e),
                            Ok(q3) => match rparen_at(t, q3) {
                                Err(e) => Err(e),
                                Ok(r) => Ok((Some(CommandModel::GetValue(xs)), r)),
                            },
                        },
                    },
                }
            },
                CommandKind::PushPop => {
                let (n, q1): (u32, int) = match tok_at(t, q) {
                    Some(TokenModel::Numeral(k)) => (k as u32, q + 1),
                    _ => (1, q),
                };
                match rparen_at(t, q1) {
                    Err(e) => Err(e),
                    Ok(r) => Ok((Some(if name == "push"@ { CommandModel::Push(n) } else { CommandModel::Pop(n) }), r)),
                }
            },
                CommandKind::Other => {
                let r = skip_at(t, q, 1);
                if p < r <= t.len() { command_at(t, r) } else { Ok((None, r)) }
            },
            },
        }
    }
}

/// The problem `m` after the command `c`.
pub open spec fn add_command(m: ProblemModel, c: CommandModel) -> ProblemModel {
    ProblemModel {
        logic: match c {
            CommandModel::SetLogic(l) => Some(l),
            _ => m.logic,
        },
        declarations: match c {
            CommandModel::DeclareFun(d) => m.declarations.push(d),
            _ => m.declarations,
        },
        definitions: match c {
            CommandModel::DefineFun(n, ps, s, b) => m.definitions.insert(n, (ps, s, b)),
            _ => m.definitions,
        },
        assertions: match c {
            CommandModel::Assert(x) => m.assertions.push(x),
            _ => m.assertions,
        },
        commands: m.commands.push(c),
    }
}

/// The problem `m` after the commands from `p`.
pub open spec fn problem_at(t: Seq<TokenModel>, p: int, m: ProblemModel) -> Result<ProblemModel, ErrorModel>
    decreases t.len() - p,
{
    match command_at(t, p) {
        Err(e) => Err(e),
        Ok((None, _)) => Ok(m),
        Ok((Some(c), q)) => if p < q <= t.len() { problem_at(t, q, add_command(m, c)) } else { Ok(m) },
    }
}

/// No command read.
pub open spec fn empty_problem() -> ProblemModel {
    ProblemModel {
        logic: None,
        declarations: Seq::empty(),
        definitions: Map::empty(),
        assertions: Seq::empty(),
        commands: Seq::empty(),
    }
}

/// What the SMT-LIB text `s` reads as: its tokens read as commands, in turn, until the
/// tokens end or one is not an opening parenthesis.
pub open spec fn read_smtlib(s: Seq<char>) -> Result<ProblemModel, ErrorModel> {
    match tokenize(s) {
        Err(e) => Err(e),
        Ok(ts) => problem_at(ts, 0, empty_problem()),
    }
}

pub proof fn lemma_params_progress(t: Seq<TokenModel>, p: int)
    requires
        0 <= p <= t.len(),
    ensures
        params_at(t, p) matches Ok((x, q)) ==> p <= q <= t.len(),
    decreases t.len() - p,
{
    if tok_at(t, p) != Some(TokenModel::RParen) && p + 2 <= t.len() {
        lemma_sort_progress(t, p + 2);
        if let Ok((s, q2)) = sort_at(t, p + 2) {
            if let Ok(q3) = rparen_at(t, q2) {
                if p < q3 <= t.len() {
                    lemma_params_progress(t, q3);
                }
            }
        }
    }
}

pub proof fn lemma_skip_progress(t: Seq<TokenModel>, p: int, depth: nat)
    requires
        0 <= p <= t.len(),
    ensures
        p <= skip_at(t, p, depth) <= t.len(),
    decreases t.len() - p,
{
    if depth > 0 && p < t.len() {
        match t[p] {
            TokenModel::LParen => lemma_skip_progress(t, p + 1, depth + 1),
            TokenModel::RParen => lemma_skip_progress(t, p + 1, (depth - 1) as nat),
            _ => lemma_skip_progress(t, p + 1, depth),
        }
    }
}

pub proof fn lemma_command_progress(t: Seq<TokenModel>, p: int)
    requires
        0 <= p <= t.len(),
    ensures
        command_at(t, p) matches Ok((Some(c), q)) ==> p < q <= t.len(),
    decreases t.len() - p,
{
    broadcast use progress_facts;

    if tok_at(t, p) == Some(TokenModel::LParen) && p + 2 <= t.len() {
        let q = p + 2;
        lemma_skip_progress(t, q, 1);
        let r = skip_at(t, q, 1);
        if p < r <= t.len() {
            lemma_command_progress(t, r);
        }
    }
}

broadcast proof fn fact_sort(t: Seq<TokenModel>, p: int)
    requires
        0 <= p <= t.len(),
    ensures
        (#[trigger] sort_at(t, p)) matches Ok((s, q)) ==> p < q <= t.len(),
{
    lemma_sort_progress(t, p);
}

broadcast proof fn fact_sorts(t: Seq<TokenModel>, p: int)
    requires
        0 <= p <= t.len(),
    ensures
        (#[trigger] sorts_at(t, p)) matches Ok((s, q)) ==> p <= q <= t.len(),
{
    lemma_sorts_progress(t, p);
}

broadcast proof fn fact_params(t: Seq<TokenModel>, p: int)
    requires
        0 <= p <= t.len(),
    ensures
        (#[trigger] params_at(t, p)) matches Ok((s, q)) ==> p <= q <= t.len(),
{
    lemma_params_progress(t, p);
}

broadcast proof fn fact_closed_term(t: Seq<TokenModel>, p: int)
    requires
        0 <= p <= t.len(),
    ensures
        (#[trigger] closed_term_at(t, p)) matches Ok((s, q)) ==> p < q <= t.len(),
{
    lemma_closed_term_progress(t, p);
}

broadcast proof fn fact_terms(t: Seq<TokenModel>, p: int)
    requires
        0 <= p <= t.len(),
    ensures
        (#[trigger] terms_at(t, p)) matches Ok((s, q)) ==> p <= q <= t.len(),
{
    lemma_terms_progress(t, p);
}

broadcast group progress_facts {
    fact_sort,
    fact_sorts,
    fact_params,
    fact_closed_term,
    fact_terms,
}

pub open spec fn params_out(r: Result<(Vec<(String, Sort)>, usize), SmtLibError>, s: Result<(Seq<(Seq<char>, SortModel)>, int), ErrorModel>) -> bool {
    match s {
        Ok((n, q)) => r matches Ok((x, y)) && param_models(x@) == n && y == q,
        Err(e) => r matches Err(x) && x@ == e,
    }
}

pub open spec fn command_out(r: Result<(Option<Command>, usize), SmtLibError>, s: Result<(Option<CommandModel>, int), ErrorModel>) -> bool {
    match s {
        Ok((None, q)) => r matches Ok((None, y)) && y == q,
        Ok((Some(c), q)) => r matches Ok((Some(x), y)) && x@ == c && y == q,
        Err(e) => r matches Err(x) && x@ == e,
    }
}

/// An opening parenthesis at `p`, followed by the symbol `name`, which ends at `q`.
pub open spec fn command_head(t: Seq<TokenModel>, p: int, name: Seq<char>, q: int) -> bool {
    &&& tok_at(t, p) == Some(TokenModel::LParen)
    &&& symbol_at(t, p + 1) == Ok::<(Seq<char>, int), ErrorModel>((name, q))
}

/// Read sorted parameters from `p` up to a closing parenthesis.
fn parse_params(t: &Vec<Token>, p: usize) -> (r: Result<(Vec<(String, Sort)>, usize), SmtLibError>)
    requires
        p <= t@.len(),
    ensures
        params_out(r, params_at(token_models(t@), p as int)),
{
    let ghost tm = token_models(t@);
    let mut ps: Vec<(String, Sort)> = Vec::new();
    let mut q = p;
    assert(param_models(ps@) =~= Seq::<(Seq<char>, SortModel)>::empty());
    assert(prepend(Seq::<(Seq<char>, SortModel)>::empty(), params_at(tm, p as int)) == params_at(tm, p as int)) by {
        if let Ok((ys, r)) = params_at(tm, p as int) {
            assert(Seq::<(Seq<char>, SortModel)>::empty() + ys =~= ys);
        }
    }
    loop
        invariant
            p <= q <= t@.len(),
            tm == token_models(t@),
            params_at(tm, p as int) == prepend(param_models(ps@), params_at(tm, q as int)),
        decreases t@.len() - q,
    {
        if is_rparen(t, q) {
            assert(param_models(ps@) + Seq::<(Seq<char>, SortModel)>::empty() =~= param_models(ps@));
            return Ok((ps, q));
        }
        let ghost before = param_models(ps@);
        let q0 = match expect_lparen(t, q) {
            Ok(x) => x,
            Err(e) => return Err(e),
        };
        let (name, q1) = match expect_symbol(t, q0) {
            Ok(x) => x,
            Err(e) => return Err(e),
        };
        let (s, q2) = match parse_sort(t, q1) {
            Ok(x) => x,
            Err(e) => return Err(e),
        };
        let q3 = match expect_rparen(t, q2) {
            Ok(x) => x,
            Err(e) => return Err(e),
        };
        proof {
            lemma_sort_progress(tm, q1 as int);
        }
        let ghost nm = name@;
        let ghost sm = s@;
        ps.push((name, s));
        proof {
            assert(param_models(ps@) =~= before.push((nm, sm)));
            assert(params_at(tm, q as int) == prepend(seq![(nm, sm)], params_at(tm, q3 as int)));
            if let Ok((ys, r)) = params_at(tm, q3 as int) {
                assert(before + (seq![(nm, sm)] + ys) =~= before.push((nm, sm)) + ys);
            }
        }
        q = q3;
    }
}

/// The position after the tokens from `q` that close one open parenthesis.
fn skip_command(t: &Vec<Token>, q: usize) -> (r: usize)
    requires
        1 <= q <= t@.len(),
    ensures
        r == skip_at(token_models(t@), q as int, 1),
{
    let ghost tm = token_models(t@);
    let mut depth: usize = 1;
    let mut i = q;
    let n = t.len();
    while depth > 0 && i < n
        invariant
            n == t@.len(),
            1 <= q <= i <= t@.len(),
            tm == token_models(t@),
            depth <= i - q + 1,
            skip_at(tm, i as int, depth as nat) == skip_at(tm, q as int, 1),
        decreases t@.len() - i,
    {
        match &t[i] {
            Token::LParen => {
                depth = depth + 1;
            },
            Token::RParen => {
                depth = depth - 1;
            },
            _ => {},
        }
        i = i + 1;
    }
    i
}

fn parse_set_logic(t: &Vec<Token>, p: usize, q: usize, name: &String) -> (r: Result<(Option<Command>, usize), SmtLibError>)
    requires
        q <= t@.len(),
        command_head(token_models(t@), p as int, name@, q as int),
        command_kind(name@) == CommandKind::SetLogic,
    ensures
        command_out(r, command_at(token_models(t@), p as int)),
{
    let (ln, q1) = match expect_symbol(t, q) {
        Ok(x) => x,
        Err(e) => return Err(e),
    };
    match Logic::from_str(ln.as_str()) {
        None => Err(perror(message_with("Unknown logic: ", &ln))),
        Some(l) => match expect_rparen(t, q1) {
            Err(e) => Err(e),
            Ok(r) => Ok((Some(Command::SetLogic(l)), r)),
        },
    }
}

fn parse_declare_sort(t: &Vec<Token>, p: usize, q: usize, name: &String) -> (r: Result<(Option<Command>, usize), SmtLibError>)
    requires
        q <= t@.len(),
        command_head(token_models(t@), p as int, name@, q as int),
        command_kind(name@) == CommandKind::DeclareSort,
    ensures
        command_out(r, command_at(token_models(t@), p as int)),
{
    let (n, q1) = match expect_symbol(t, q) {
        Ok(x) => x,
        Err(e) => return Err(e),
    };
    let arity: u32 = match peek(t, q1) {
        Some(Token::Numeral(k)) => k as u32,
        _ => 0,
    };
    let q2 = if q1 < t.len() { q1 + 1 } else { q1 };
    match expect_rparen(t, q2) {
        Err(e) => Err(e),
        Ok(r) => Ok((Some(Command::DeclareSort(n, arity)), r)),
    }
}

fn parse_declare_fun(t: &Vec<Token>, p: usize, q: usize, name: &String) -> (r: Result<(Option<Command>, usize), SmtLibError>)
    requires
        q <= t@.len(),
        command_head(token_models(t@), p as int, name@, q as int),
        command_kind(name@) == CommandKind::DeclareFun,
    ensures
        command_out(r, command_at(token_models(t@), p as int)),
{
    let (n, q1) = match expect_symbol(t, q) {
        Ok(x) => x,
        Err(e) => return Err(e),
    };
    let q2 = match expect_lparen(t, q1) {
        Ok(x) => x,
        Err(e) => return Err(e),
    };
    proof {
        lemma_sorts_progress(token_models(t@), q2 as int);
    }
    let (ps, q3) = match parse_sorts(t, q2) {
        Ok(x) => x,
        Err(e) => return Err(e),
    };
    let q4 = match expect_rparen(t, q3) {
        Ok(x) => x,
        Err(e) => return Err(e),
    };
    proof {
        lemma_sort_progress(token_models(t@), q4 as int);
    }
    let (rs, q5) = match parse_sort(t, q4) {
        Ok(x) => x,
        Err(e) => return Err(e),
    };
    match expect_rparen(t, q5) {
        Err(e) => Err(e),
        Ok(r) => Ok((Some(Command::DeclareFun(FunDecl { name: n, params: ps, return_sort: rs })), r)),
    }
}

fn parse_declare_const(t: &Vec<Token>, p: usize, q: usize, name: &String) -> (r: Result<(Option<Command>, usize), SmtLibError>)
    requires
        q <= t@.len(),
        command_head(token_models(t@), p as int, name@, q as int),
        command_kind(name@) == CommandKind::DeclareConst,
    ensures
        command_out(r, command_at(token_models(t@), p as int)),
{
    let (n, q1) = match expect_symbol(t, q) {
        Ok(x) => x,
        Err(e) => return Err(e),
    };
    let (s, q2) = match parse_sort(t, q1) {
        Ok(x) => x,
        Err(e) => return Err(e),
    };
    proof {
        lemma_sort_progress(token_models(t@), q1 as int);
    }
    match expect_rparen(t, q2) {
        Err(e) => Err(e),
        Ok(r) => {
            let params: Vec<Sort> = Vec::new();
            assert(sort_views(params@) =~= Seq::<SortModel>::empty());
            Ok((Some(Command::DeclareFun(FunDecl { name: n, params, return_sort: s })), r))
        },
    }
}

fn parse_define_fun(t: &Vec<Token>, p: usize, q: usize, name: &String) -> (r: Result<(Option<Command>, usize), SmtLibError>)
    requires
        q <= t@.len(),
        command_head(token_models(t@), p as int, name@, q as int),
        command_kind(name@) == CommandKind::DefineFun,
    ensures
        command_out(r, command_at(token_models(t@), p as int)),
{
    let ghost tm = token_models(t@);
    let (n, q1) = match expect_symbol(t, q) {
        Ok(x) => x,
        Err(e) => return Err(e),
    };
    let q2 = match expect_lparen(t, q1) {
        Ok(x) => x,
        Err(e) => return Err(e),
    };
    proof {
        lemma_params_progress(tm, q2 as int);
    }
    let (ps, q3) = match parse_params(t, q2) {
        Ok(x) => x,
        Err(e) => return Err(e),
    };
    let q4 = match expect_rparen(t, q3) {
        Ok(x) => x,
        Err(e) => return Err(e),
    };
    proof {
        lemma_sort_progress(tm, q4 as int);
    }
    let (rs, q5) = match parse_sort(t, q4) {
        Ok(x) => x,
        Err(e) => return Err(e),
    };
    match parse_closed_term(t, q5) {
        Err(e) => Err(e),
        Ok((b, r)) => Ok((Some(Command::DefineFun(n, ps, rs, b)), r)),
    }
}

fn parse_assert(t: &Vec<Token>, p: usize, q: usize, name: &String) -> (r: Result<(Option<Command>, usize), SmtLibError>)
    requires
        q <= t@.len(),
        command_head(token_models(t@), p as int, name@, q as int),
        command_kind(name@) == CommandKind::Assert,
    ensures
        command_out(r, command_at(token_models(t@), p as int)),
{
    match parse_closed_term(t, q) {
        Err(e) => Err(e),
        Ok((x, r)) => Ok((Some(Command::Assert(x)), r)),
    }
}

fn parse_plain(t: &Vec<Token>, p: usize, q: usize, name: &String) -> (r: Result<(Option<Command>, usize), SmtLibError>)
    requires
        q <= t@.len(),
        command_head(token_models(t@), p as int, name@, q as int),
        command_kind(name@) == CommandKind::Plain,
    ensures
        command_out(r, command_at(token_models(t@), p as int)),
{
    match expect_rparen(t, q) {
        Err(e) => Err(e),
        Ok(r) => {
            let c = if same_text(name.as_str(), "check-sat") {
                Command::CheckSat
            } else if same_text(name.as_str(), "get-model") {
                Command::GetModel
            } else if same_text(name.as_str(), "reset") {
                Command::Reset
            } else {
                Command::Exit
            };
            Ok((Some(c), r))
        },
    }
}

fn parse_get_value(t: &Vec<Token>, p: usize, q: usize, name: &String) -> (r: Result<(Option<Command>, usize), SmtLibError>)
    requires
        q <= t@.len(),
        command_head(token_models(t@), p as int, name@, q as int),
        command_kind(name@) == CommandKind::GetValue,
    ensures
        command_out(r, command_at(token_models(t@), p as int)),
{
    let q1 = match expect_lparen(t, q) {
        Ok(x) => x,
        Err(e) => return Err(e),
    };
    proof {
        lemma_terms_progress(token_models(t@), q1 as int);
    }
    let (xs, q2) = match parse_terms(t, q1) {
        Ok(x) => x,
        Err(e) => return Err(e),
    };
    let q3 = match expect_rparen(t, q2) {
        Ok(x) => x,
        Err(e) => return Err(e),
    };
    match expect_rparen(t, q3) {
        Err(e) => Err(e),
        Ok(r) => Ok((Some(Command::GetValue(xs)), r)),
    }
}

fn parse_push_pop(t: &Vec<Token>, p: usize, q: usize, name: &String) -> (r: Result<(Option<Command>, usize), SmtLibError>)
    requires
        q <= t@.len(),
        command_head(token_models(t@), p as int, name@, q as int),
        command_kind(name@) == CommandKind::PushPop,
    ensures
        command_out(r, command_at(token_models(t@), p as int)),
{
    let (n, q1): (u32, usize) = match peek(t, q) {
        Some(Token::Numeral(k)) => (k as u32, q + 1),
        _ => (1, q),
    };
    match expect_rparen(t, q1) {
        Err(e) => Err(e),
        Ok(r) => {
            if same_text(name.as_str(), "push") {
                Ok((Some(Command::Push(n)), r))
            } else {
                Ok((Some(Command::Pop(n)), r))
            }
        },
    }
}

/// Whether an opening parenthesis is at `p`.
fn is_lparen(t: &Vec<Token>, p: usize) -> (b: bool)
    ensures
        b == (tok_at(token_models(t@), p as int) == Some(TokenModel::LParen)),
        b ==> p < t@.len() && p + 1 <= usize::MAX,
{
    p < t.len() && match &t[p] {
        Token::LParen => true,
        _ => false,
    }
}

/// Read a command at `p`; unknown commands are skipped.
fn parse_command(t: &Vec<Token>, p: usize) -> (r: Result<(Option<Command>, usize), SmtLibError>)
    requires
        p <= t@.len(),
    ensures
        command_out(r, command_at(token_models(t@), p as int)),
{
    let ghost tm = token_models(t@);
    let mut p1 = p;
    loop
        invariant
            p <= p1 <= t@.len(),
            tm == token_models(t@),
            command_at(tm, p as int) == command_at(tm, p1 as int),
        decreases t@.len() - p1,
    {
        if !is_lparen(t, p1) {
            return Ok((None, p1));
        }
        let (name, q) = match expect_symbol(t, p1 + 1) {
            Ok(x) => x,
            Err(e) => return Err(e),
        };
        match kind_of_command(name.as_str()) {
            CommandKind::SetLogic => return parse_set_logic(t, p1, q, &name),
            CommandKind::DeclareSort => return parse_declare_sort(t, p1, q, &name),
            CommandKind::DeclareFun => return parse_declare_fun(t, p1, q, &name),
            CommandKind::DeclareConst => return parse_declare_const(t, p1, q, &name),
            CommandKind::DefineFun => return parse_define_fun(t, p1, q, &name),
            CommandKind::Assert => return parse_assert(t, p1, q, &name),
            CommandKind::Plain => return parse_plain(t, p1, q, &name),
            CommandKind::GetValue => return parse_get_value(t, p1, q, &name),
            CommandKind::PushPop => return parse_push_pop(t, p1, q, &name),
            CommandKind::Other => {},
        }
        let r = skip_command(t, q);
        proof {
            lemma_skip_progress(tm, q as int, 1);
        }
        p1 = r;
    }
}

/// Replacing an entry by one of the same name updates the map at that name.
proof fn lemma_definitions_update(v: Seq<(String, Definition)>, i: int, x: (String, Definition))
    requires
        distinct_names(v),
        0 <= i < v.len(),
        v[i].0@ == x.0@,
    ensures
        definitions_map(v.update(i, x)) == definitions_map(v).insert(x.0@, definition_model(x.1)),
        distinct_names(v.update(i, x)),
    decreases v.len(),
{
    let n = v.len();
    let u = v.update(i, x);
    assert(distinct_names(u)) by {
        assert forall|a: int, b: int| 0 <= a < b < u.len() implies (#[trigger] u[a]).0@ != (#[trigger] u[b]).0@ by {
            assert(v[a].0@ != v[b].0@);
        }
    }
    if i == n - 1 {
        assert(u.drop_last() =~= v.drop_last());
        assert(definitions_map(u) =~= definitions_map(v).insert(x.0@, definition_model(x.1)));
    } else {
        assert(u.drop_last() =~= v.drop_last().update(i, x));
        lemma_definitions_update(v.drop_last(), i, x);
        assert(v[n - 1].0@ != v[i].0@);
        assert(definitions_map(u) =~= definitions_map(v).insert(x.0@, definition_model(x.1)));
    }
}

/// Define `name` as `def`, replacing an earlier definition of it.
fn insert_definition(defs: &mut Vec<(String, Definition)>, name: String, def: Definition)
    requires
        distinct_names(old(defs)@),
    ensures
        distinct_names(final(defs)@),
        definitions_map(final(defs)@) == definitions_map(old(defs)@).insert(name@, definition_model(def)),
{
    let mut i: usize = 0;
    while i < defs.len()
        invariant
            i <= defs@.len(),
            defs@ == old(defs)@,
            distinct_names(old(defs)@),
            forall|j: int| 0 <= j < i ==> (#[trigger] defs@[j]).0@ != name@,
        decreases defs@.len() - i,
    {
        if same_text(defs[i].0.as_str(), name.as_str()) {
            let ghost v = defs@;
            let ghost x = (name, def);
            proof {
                lemma_definitions_update(v, i as int, x);
            }
            defs.set(i, (name, def));
            return;
        }
        i = i + 1;
    }
    let ghost v = defs@;
    defs.push((name, def));
    proof {
        assert(defs@.drop_last() =~= v);
    }
}

/// The problem after the command `cmd`.
fn add_to_problem(problem: &mut SmtProblem, cmd: Command)
    requires
        distinct_names(old(problem).definitions@),
    ensures
        distinct_names(final(problem).definitions@),
        final(problem)@ == add_command(old(problem)@, cmd@),
{
    let ghost m0 = problem@;
    match &cmd {
        Command::SetLogic(l) => {
            problem.logic = Some(*l);
        },
        Command::DeclareFun(d) => {
            let ghost v = problem.declarations@;
            problem.declarations.push(d.clone());
            assert(decl_models(problem.declarations@) =~= decl_models(v).push(d@));
        },
        Command::DefineFun(n, ps, s, b) => {
            let def: Definition = (copy_params(ps), s.copy(), b.copy());
            insert_definition(&mut problem.definitions, n.clone(), def);
        },
        Command::Assert(x) => {
            let ghost v = problem.assertions@;
            problem.assertions.push(x.copy());
            proof {
                lemma_term_models_push(problem.assertions@);
                assert(problem.assertions@.drop_last() =~= v);
            }
        },
        _ => {},
    }
    let ghost cs = problem.commands@;
    let ghost cm = cmd@;
    problem.commands.push(cmd);
    assert(command_models(problem.commands@) =~= command_models(cs).push(cm));
}

/// Read the problem that the tokens `t` write.
pub fn parse_tokens(t: &Vec<Token>) -> (r: Result<SmtProblem, SmtLibError>)
    ensures
        match problem_at(token_models(t@), 0, empty_problem()) {
            Ok(m) => r matches Ok(x) && x@ == m && distinct_names(x.definitions@),
            Err(e) => r matches Err(x) && x@ == e,
        },
{
    let ghost tm = token_models(t@);
    let mut problem = SmtProblem::new();
    let mut p: usize = 0;
    proof {
        assert(problem@ =~= empty_problem()) by {
            assert(decl_models(problem.declarations@) =~= Seq::<FunDeclModel>::empty());
            assert(definitions_map(problem.definitions@) =~= Map::<Seq<char>, crate::parser::smtlib::DefinitionModel>::empty());
            assert(term_models(problem.assertions@) =~= Seq::<TermModel>::empty());
            assert(command_models(problem.commands@) =~= Seq::<CommandModel>::empty());
        }
    }
    loop
        invariant
            p <= t@.len(),
            tm == token_models(t@),
            distinct_names(problem.definitions@),
            problem_at(tm, 0, empty_problem()) == problem_at(tm, p as int, problem@),
        decreases t@.len() - p,
    {
        proof {
            lemma_command_progress(tm, p as int);
        }
        match parse_command(t, p) {
            Err(e) => {
                return Err(e);
            },
            Ok((None, _)) => {
                return Ok(problem);
            },
            Ok((Some(cmd), q)) => {
                add_to_problem(&mut problem, cmd);
                p = q;
            },
        }
    }
}

/// Read an SMT-LIB 2 text.
pub fn parse_smtlib(input: &str) -> (r: Result<SmtProblem, SmtLibError>)
    requires
        input@.len() < usize::MAX,
    ensures
        match read_smtlib(input@) {
            Ok(m) => r matches Ok(x) && x@ == m && distinct_names(x.definitions@),
            Err(e) => r matches Err(x) && x@ == e,
        },
{
    let tokens = match tokenize_text(input) {
        Ok(ts) => ts,
        Err(e) => return Err(e),
    };
    parse_tokens(&tokens)
}

} // verus!
