//! Paradox: a SAT/SMT solver built around CDCL and DPLL(T), with its
//! data structures and algorithms specified and proved in Verus.
pub mod literal;

pub use literal::{Literal, Variable};
pub mod clause;
pub use clause::{Clause, ClauseRef};
pub mod assignment;
pub use assignment::{Assignments, Value};
pub mod trail;
pub use trail::Trail;
pub mod watch;
pub use watch::{WatchLists, Watcher, init_watches};
pub mod formula;
pub use formula::Formula;
pub mod theory;
pub mod solver;
pub mod parser;
pub mod verify;
pub mod dpll_t;
pub mod tseitin;
pub use parser::{parse_dimacs, parse_smtlib, InputFormat};
pub use dpll_t::DpllT;
