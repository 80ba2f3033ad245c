//! Readers of the input formats: DIMACS CNF and SMT-LIB 2.
pub mod text;
pub mod dimacs;
pub mod smtlib;
pub mod lexer;
pub mod reader;
pub mod operators;

pub use dimacs::{parse_dimacs, DimacsError};
pub use smtlib::{parse_smtlib, SmtLibError, SmtProblem, Logic, Sort, Term, Command, FunDecl};

use vstd::prelude::*;
use crate::parser::text::{chars_of, white, is_white, trim_start};
use crate::parser::smtlib::same_text;

verus! {

/// An input format.
#[derive(Debug, Clone, Copy, PartialEq, Eq, Structural)]
pub enum InputFormat {
    Dimacs,
    SmtLib,
}

/// The format of an input with file extension `ext` (if it has one that is text) and
/// contents `content` (if they could be read): `.cnf` and `.dimacs` are DIMACS, `.smt2`
/// and `.smt` SMT-LIB; otherwise contents starting (after white space) with `(` are
/// SMT-LIB, and anything else DIMACS.
pub open spec fn format_of(ext: Option<Seq<char>>, content: Option<Seq<char>>) -> InputFormat {
    if ext matches Some(e) && (e == "cnf"@ || e == "dimacs"@) {
        InputFormat::Dimacs
    } else if ext matches Some(e) && (e == "smt2"@ || e == "smt"@) {
        InputFormat::SmtLib
    } else if content matches Some(c) && trim_start(c).len() > 0 && trim_start(c)[0] == '(' {
        InputFormat::SmtLib
    } else {
        InputFormat::Dimacs
    }
}

/// Whether the extension alone decides the format.
pub fn extension_decides(ext: Option<&str>) -> (b: bool)
    ensures
        b == (ext matches Some(e) && (e@ == "cnf"@ || e@ == "dimacs"@ || e@ == "smt2"@ || e@ == "smt"@)),
{
    match ext {
        Some(e) => same_text(e, "cnf") || same_text(e, "dimacs") || same_text(e, "smt2") || same_text(e, "smt"),
        None => false,
    }
}

/// The format of an input, from its file extension and, where that does not decide,
/// its contents.
pub fn format_from(ext: Option<&str>, content: Option<&str>) -> (f: InputFormat)
    ensures
        f == format_of(
            match ext { Some(e) => Some(e@), None => None },
            match content { Some(c) => Some(c@), None => None },
        ),
{
    if let Some(e) = ext {
        if same_text(e, "cnf") || same_text(e, "dimacs") {
            return InputFormat::Dimacs;
        }
        if same_text(e, "smt2") || same_text(e, "smt") {
            return InputFormat::SmtLib;
        }
    }
    match content {
        None => InputFormat::Dimacs,
        Some(c) => {
            let cs = chars_of(c);
            let n = cs.len();
            let mut a: usize = 0;
            assert(cs@.subrange(0, n as int) =~= cs@);
            while a < n && white(cs[a])
                invariant
                    a <= n == cs@.len(),
                    cs@ == c@,
                    trim_start(cs@.subrange(a as int, n as int)) == trim_start(c@),
                decreases n - a,
            {
                assert(cs@.subrange(a as int, n as int).drop_first() =~= cs@.subrange(a + 1, n as int));
                a = a + 1;
            }
            if a < n && cs[a] == '(' {
                InputFormat::SmtLib
            } else {
                InputFormat::Dimacs
            }
        },
    }
}

} // verus!
