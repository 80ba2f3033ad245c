//! Which operator each SMT-LIB symbol names.
use vstd::prelude::*;
use crate::parser::reader::op_named;
use crate::parser::smtlib::TermOp;

verus! {

/// Whether `s` is an SMT-LIB symbol of the operator `o`: the core, integer, bit-vector
/// and array symbols (integer division has two, `div` and `/`; negation and subtraction
/// share `-`, which is read apart).
pub open spec fn op_denotes(o: TermOp, s: Seq<char>) -> bool {
    match o {
        TermOp::Not => s == "not"@,
        TermOp::And => s == "and"@,
        TermOp::Or => s == "or"@,
        TermOp::Xor => s == "xor"@,
        TermOp::Implies => s == "=>"@,
        TermOp::Ite => s == "ite"@,
        TermOp::Eq => s == "="@,
        TermOp::Distinct => s == "distinct"@,
        TermOp::Add => s == "+"@,
        TermOp::Mul => s == "*"@,
        TermOp::Div => s == "div"@ || s == "/"@,
        TermOp::Mod => s == "mod"@,
        TermOp::Abs => s == "abs"@,
        TermOp::Lt => s == "<"@,
        TermOp::Le => s == "<="@,
        TermOp::Gt => s == ">"@,
        TermOp::Ge => s == ">="@,
        TermOp::BvNot => s == "bvnot"@,
        TermOp::BvAnd => s == "bvand"@,
        TermOp::BvOr => s == "bvor"@,
        TermOp::BvXor => s == "bvxor"@,
        TermOp::BvAdd => s == "bvadd"@,
        TermOp::BvSub => s == "bvsub"@,
        TermOp::BvMul => s == "bvmul"@,
        TermOp::BvUdiv => s == "bvudiv"@,
        TermOp::BvSdiv => s == "bvsdiv"@,
        TermOp::BvUrem => s == "bvurem"@,
        TermOp::BvSrem => s == "bvsrem"@,
        TermOp::BvShl => s == "bvshl"@,
        TermOp::BvLshr => s == "bvlshr"@,
        TermOp::BvAshr => s == "bvashr"@,
        TermOp::BvUlt => s == "bvult"@,
        TermOp::BvUle => s == "bvule"@,
        TermOp::BvUgt => s == "bvugt"@,
        TermOp::BvUge => s == "bvuge"@,
        TermOp::BvSlt => s == "bvslt"@,
        TermOp::BvSle => s == "bvsle"@,
        TermOp::BvSgt => s == "bvsgt"@,
        TermOp::BvSge => s == "bvsge"@,
        TermOp::BvConcat => s == "concat"@,
        TermOp::Select => s == "select"@,
        TermOp::Store => s == "store"@,
        _ => false,
    }
}

/// A name is read as an operator exactly when it is a symbol of that operator: so
/// `>=` is read as `Ge` and never as `Gt`, and distinct operators have distinct symbols.
pub proof fn lemma_op_named_denotes(s: Seq<char>, o: TermOp)
    ensures
        op_named(s) == Some(o) <==> op_denotes(o, s),
{
    reveal_strlit("not");
    reveal_strlit("and");
    reveal_strlit("or");
    reveal_strlit("xor");
    reveal_strlit("=>");
    reveal_strlit("ite");
    reveal_strlit("=");
    reveal_strlit("distinct");
    reveal_strlit("+");
    reveal_strlit("*");
    reveal_strlit("div");
    reveal_strlit("mod");
    reveal_strlit("abs");
    reveal_strlit("<");
    reveal_strlit("<=");
    reveal_strlit(">");
    reveal_strlit(">=");
    reveal_strlit("bvnot");
    reveal_strlit("bvand");
    reveal_strlit("bvor");
    reveal_strlit("bvxor");
    reveal_strlit("bvadd");
    reveal_strlit("bvsub");
    reveal_strlit("bvmul");
    reveal_strlit("bvudiv");
    reveal_strlit("bvsdiv");
    reveal_strlit("bvurem");
    reveal_strlit("bvsrem");
    reveal_strlit("bvshl");
    reveal_strlit("bvlshr");
    reveal_strlit("bvashr");
    reveal_strlit("bvult");
    reveal_strlit("bvule");
    reveal_strlit("bvugt");
    reveal_strlit("bvuge");
    reveal_strlit("bvslt");
    reveal_strlit("bvsle");
    reveal_strlit("bvsgt");
    reveal_strlit("bvsge");
    reveal_strlit("concat");
    reveal_strlit("select");
    reveal_strlit("store");
    reveal_strlit("/");
    if op_denotes(o, s) {
        match o {
            TermOp::Not => { assert(s.len() == 3 && s[0] == 'n' && s[1] == 'o' && s[2] == 't'); }
            TermOp::And => { assert(s.len() == 3 && s[0] == 'a' && s[1] == 'n' && s[2] == 'd'); }
            TermOp::Or => { assert(s.len() == 2 && s[0] == 'o' && s[1] == 'r'); }
            TermOp::Xor => { assert(s.len() == 3 && s[0] == 'x' && s[1] == 'o' && s[2] == 'r'); }
            TermOp::Implies => { assert(s.len() == 2 && s[0] == '=' && s[1] == '>'); }
            TermOp::Ite => { assert(s.len() == 3 && s[0] == 'i' && s[1] == 't' && s[2] == 'e'); }
            TermOp::Eq => { assert(s.len() == 1 && s[0] == '='); }
            TermOp::Distinct => { assert(s.len() == 8 && s[0] == 'd' && s[1] == 'i' && s[2] == 's' && s[3] == 't' && s[4] == 'i' && s[5] == 'n' && s[6] == 'c' && s[7] == 't'); }
            TermOp::Add => { assert(s.len() == 1 && s[0] == '+'); }
            TermOp::Mul => { assert(s.len() == 1 && s[0] == '*'); }
            TermOp::Div => { if s == "div"@ { assert(s.len() == 3 && s[0] == 'd' && s[1] == 'i' && s[2] == 'v'); } else { assert(s.len() == 1 && s[0] == '/'); } }
            TermOp::Mod => { assert(s.len() == 3 && s[0] == 'm' && s[1] == 'o' && s[2] == 'd'); }
            TermOp::Abs => { assert(s.len() == 3 && s[0] == 'a' && s[1] == 'b' && s[2] == 's'); }
            TermOp::Lt => { assert(s.len() == 1 && s[0] == '<'); }
            TermOp::Le => { assert(s.len() == 2 && s[0] == '<' && s[1] == '='); }
            TermOp::Gt => { assert(s.len() == 1 && s[0] == '>'); }
            TermOp::Ge => { assert(s.len() == 2 && s[0] == '>' && s[1] == '='); }
            TermOp::BvNot => { assert(s.len() == 5 && s[0] == 'b' && s[1] == 'v' && s[2] == 'n' && s[3] == 'o' && s[4] == 't'); }
            TermOp::BvAnd => { assert(s.len() == 5 && s[0] == 'b' && s[1] == 'v' && s[2] == 'a' && s[3] == 'n' && s[4] == 'd'); }
            TermOp::BvOr => { assert(s.len() == 4 && s[0] == 'b' && s[1] == 'v' && s[2] == 'o' && s[3] == 'r'); }
            TermOp::BvXor => { assert(s.len() == 5 && s[0] == 'b' && s[1] == 'v' && s[2] == 'x' && s[3] == 'o' && s[4] == 'r'); }
            TermOp::BvAdd => { assert(s.len() == 5 && s[0] == 'b' && s[1] == 'v' && s[2] == 'a' && s[3] == 'd' && s[4] == 'd'); }
            TermOp::BvSub => { assert(s.len() == 5 && s[0] == 'b' && s[1] == 'v' && s[2] == 's' && s[3] == 'u' && s[4] == 'b'); }
            TermOp::BvMul => { assert(s.len() == 5 && s[0] == 'b' && s[1] == 'v' && s[2] == 'm' && s[3] == 'u' && s[4] == 'l'); }
            TermOp::BvUdiv => { assert(s.len() == 6 && s[0] == 'b' && s[1] == 'v' && s[2] == 'u' && s[3] == 'd' && s[4] == 'i' && s[5] == 'v'); }
            TermOp::BvSdiv => { assert(s.len() == 6 && s[0] == 'b' && s[1] == 'v' && s[2] == 's' && s[3] == 'd' && s[4] == 'i' && s[5] == 'v'); }
            TermOp::BvUrem => { assert(s.len() == 6 && s[0] == 'b' && s[1] == 'v' && s[2] == 'u' && s[3] == 'r' && s[4] == 'e' && s[5] == 'm'); }
            TermOp::BvSrem => { assert(s.len() == 6 && s[0] == 'b' && s[1] == 'v' && s[2] == 's' && s[3] == 'r' && s[4] == 'e' && s[5] == 'm'); }
            TermOp::BvShl => { assert(s.len() == 5 && s[0] == 'b' && s[1] == 'v' && s[2] == 's' && s[3] == 'h' && s[4] == 'l'); }
            TermOp::BvLshr => { assert(s.len() == 6 && s[0] == 'b' && s[1] == 'v' && s[2] == 'l' && s[3] == 's' && s[4] == 'h' && s[5] == 'r'); }
            TermOp::BvAshr => { assert(s.len() == 6 && s[0] == 'b' && s[1] == 'v' && s[2] == 'a' && s[3] == 's' && s[4] == 'h' && s[5] == 'r'); }
            TermOp::BvUlt => { assert(s.len() == 5 && s[0] == 'b' && s[1] == 'v' && s[2] == 'u' && s[3] == 'l' && s[4] == 't'); }
            TermOp::BvUle => { assert(s.len() == 5 && s[0] == 'b' && s[1] == 'v' && s[2] == 'u' && s[3] == 'l' && s[4] == 'e'); }
            TermOp::BvUgt => { assert(s.len() == 5 && s[0] == 'b' && s[1] == 'v' && s[2] == 'u' && s[3] == 'g' && s[4] == 't'); }
            TermOp::BvUge => { assert(s.len() == 5 && s[0] == 'b' && s[1] == 'v' && s[2] == 'u' && s[3] == 'g' && s[4] == 'e'); }
            TermOp::BvSlt => { assert(s.len() == 5 && s[0] == 'b' && s[1] == 'v' && s[2] == 's' && s[3] == 'l' && s[4] == 't'); }
            TermOp::BvSle => { assert(s.len() == 5 && s[0] == 'b' && s[1] == 'v' && s[2] == 's' && s[3] == 'l' && s[4] == 'e'); }
            TermOp::BvSgt => { assert(s.len() == 5 && s[0] == 'b' && s[1] == 'v' && s[2] == 's' && s[3] == 'g' && s[4] == 't'); }
            TermOp::BvSge => { assert(s.len() == 5 && s[0] == 'b' && s[1] == 'v' && s[2] == 's' && s[3] == 'g' && s[4] == 'e'); }
            TermOp::BvConcat => { assert(s.len() == 6 && s[0] == 'c' && s[1] == 'o' && s[2] == 'n' && s[3] == 'c' && s[4] == 'a' && s[5] == 't'); }
            TermOp::Select => { assert(s.len() == 6 && s[0] == 's' && s[1] == 'e' && s[2] == 'l' && s[3] == 'e' && s[4] == 'c' && s[5] == 't'); }
            TermOp::Store => { assert(s.len() == 5 && s[0] == 's' && s[1] == 't' && s[2] == 'o' && s[3] == 'r' && s[4] == 'e'); }
            _ => {}
        }
    }
}

} // verus!
