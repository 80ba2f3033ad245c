//! The DIMACS CNF reader.
//!
//! ```text
//! c comment line
//! p cnf <num_vars> <num_clauses>
//! 1 -2 3 0
//! -1 2 0
//! ```
//!
//! Lines are read after trimming white space. Empty lines and lines starting with `c`
//! are skipped; a line starting with `p` is a problem line, `p cnf <vars> <clauses>`;
//! any other line holds literals, each a non-zero integer whose magnitude is at most the
//! declared number of variables, and `0` ends a clause. A clause may run over several
//! lines, and a last clause without its `0` is kept.
use vstd::prelude::*;
use crate::clause::Clause;
use crate::formula::{Formula, max_var};
use crate::literal::Literal;
use crate::parser::text::{char_views, chars_of, split_lines, split_words, trimmed, string_of, parse_int, lines, words, trim, int_in};

verus! {

/// A reason why a DIMACS text was refused.
#[derive(Debug)]
pub enum DimacsError {
    /// A literal came before any problem line.
    MissingProblemLine,
    /// A problem line that is not `p cnf <vars> <clauses>`, with the trimmed line.
    InvalidProblemLine(String),
    /// A token that is not a 32-bit integer, with its line number (from 1).
    InvalidLiteral(String, usize),
    /// A zero literal out of place, with its line number.
    ZeroLiteral(usize),
    /// A variable above the declared count: the variable and the count.
    VariableOutOfRange(u32, u32),
    /// The number of clauses differs from the declared one.
    ClauseCountMismatch { expected: usize, actual: usize },
}

/// The mathematical form of a [`DimacsError`].
pub enum DimacsFault {
    MissingProblemLine,
    InvalidProblemLine(Seq<char>),
    InvalidLiteral(Seq<char>, int),
    ZeroLiteral(int),
    VariableOutOfRange(u32, u32),
    ClauseCountMismatch(int, int),
}

impl View for DimacsError {
    type V = DimacsFault;

    open spec fn view(&self) -> DimacsFault {
        match self {
            DimacsError::MissingProblemLine => DimacsFault::MissingProblemLine,
            DimacsError::InvalidProblemLine(l) => DimacsFault::InvalidProblemLine(l@),
            DimacsError::InvalidLiteral(t, n) => DimacsFault::InvalidLiteral(t@, *n as int),
            DimacsError::ZeroLiteral(n) => DimacsFault::ZeroLiteral(*n as int),
            DimacsError::VariableOutOfRange(v, m) => DimacsFault::VariableOutOfRange(*v, *m),
            DimacsError::ClauseCountMismatch { expected, actual } => DimacsFault::ClauseCountMismatch(*expected as int, *actual as int),
        }
    }
}

/// What has been read of a DIMACS text: the declared variable count of the last problem
/// line, the formula's variable count, the finished clauses (as DIMACS numbers) and the
/// literals of the clause under way.
pub struct DimacsModel {
    pub header: Option<u32>,
    pub num_vars: nat,
    pub clauses: Seq<Seq<i32>>,
    pub current: Seq<i32>,
}

/// The larger of `init` and the magnitudes of `vals`.
pub open spec fn abs_max(vals: Seq<i32>, init: nat) -> nat
    decreases vals.len(),
{
    if vals.len() == 0 {
        init
    } else {
        let m = abs_max(vals.drop_last(), init);
        let a = if vals.last() < 0 { -(vals.last() as int) } else { vals.last() as int };
        if a > m { a as nat } else { m }
    }
}

/// Nothing read yet.
pub open spec fn initial_model() -> DimacsModel {
    DimacsModel { header: None, num_vars: 0, clauses: Seq::empty(), current: Seq::empty() }
}

/// The clause under way ends.
pub open spec fn close_clause(m: DimacsModel) -> DimacsModel {
    DimacsModel {
        header: m.header,
        num_vars: abs_max(m.current, m.num_vars),
        clauses: m.clauses.push(m.current),
        current: Seq::empty(),
    }
}

/// Reading one literal token of line `line`, with `max` declared variables.
pub open spec fn read_token(m: DimacsModel, max: u32, tok: Seq<char>, line: int) -> Result<DimacsModel, DimacsFault> {
    match int_in(tok, true, -0x8000_0000, 0x7fff_ffff) {
        None => Err(DimacsFault::InvalidLiteral(tok, line)),
        Some(v) => if v == 0 {
            Ok(close_clause(m))
        } else {
            let a = if v < 0 { -v } else { v };
            if a > max {
                Err(DimacsFault::VariableOutOfRange(a as u32, max))
            } else {
                Ok(DimacsModel { header: m.header, num_vars: m.num_vars, clauses: m.clauses, current: m.current.push(v as i32) })
            }
        },
    }
}

/// Reading the literal tokens `toks` of line `line`, stopping at the first refusal.
pub open spec fn read_tokens(m: DimacsModel, max: u32, toks: Seq<Seq<char>>, line: int) -> Result<DimacsModel, DimacsFault>
    decreases toks.len(),
{
    if toks.len() == 0 {
        Ok(m)
    } else {
        match read_tokens(m, max, toks.drop_last(), line) {
            Ok(m2) => read_token(m2, max, toks.last(), line),
            Err(e) => Err(e),
        }
    }
}

/// The word `cnf`.
pub open spec fn cnf_word() -> Seq<char> {
    seq!['c', 'n', 'f']
}

/// Reading the line `text`, the `line`-th of the input.
pub open spec fn read_line(m: DimacsModel, text: Seq<char>, line: int) -> Result<DimacsModel, DimacsFault> {
    let t = trim(text);
    let ws = words(t);
    if t.len() == 0 || t[0] == 'c' {
        Ok(m)
    } else if t[0] == 'p' {
        if ws.len() < 4 || ws[1] != cnf_word() {
            Err(DimacsFault::InvalidProblemLine(t))
        } else {
            match (int_in(ws[2], false, 0, u32::MAX as int), int_in(ws[3], false, 0, usize::MAX as int)) {
                (Some(n), Some(_)) => Ok(DimacsModel { header: Some(n as u32), num_vars: n as nat, clauses: m.clauses, current: m.current }),
                _ => Err(DimacsFault::InvalidProblemLine(t)),
            }
        }
    } else {
        match m.header {
            None => Err(DimacsFault::MissingProblemLine),
            Some(max) => read_tokens(m, max, ws, line),
        }
    }
}

/// Reading the lines `ls`, numbered from 1, stopping at the first refusal.
pub open spec fn read_lines(ls: Seq<Seq<char>>) -> Result<DimacsModel, DimacsFault>
    decreases ls.len(),
{
    if ls.len() == 0 {
        Ok(initial_model())
    } else {
        match read_lines(ls.drop_last()) {
            Ok(m) => read_line(m, ls.last(), ls.len() as int),
            Err(e) => Err(e),
        }
    }
}

/// What the DIMACS text `s` reads as: its lines read in turn, then a last clause
/// without its `0` ended.
pub open spec fn read_dimacs(s: Seq<char>) -> Result<DimacsModel, DimacsFault> {
    match read_lines(lines(s)) {
        Ok(m) => Ok(if m.current.len() > 0 { close_clause(m) } else { m }),
        Err(e) => Err(e),
    }
}

/// `lits` are the literals of the DIMACS numbers `vals`.
pub open spec fn lits_are(lits: Seq<Literal>, vals: Seq<i32>) -> bool {
    &&& lits.len() == vals.len()
    &&& forall|j: int| 0 <= j < lits.len() ==> (#[trigger] lits[j]).dimacs() == vals[j]
}

/// `f` holds the clauses `cs`, none of them learned, over `nv` variables.
pub open spec fn formula_is(f: Formula, cs: Seq<Seq<i32>>, nv: nat) -> bool {
    &&& f.clause_seq().len() == cs.len()
    &&& forall|i: int| 0 <= i < cs.len() ==> lits_are((#[trigger] f.clause_seq()[i])@, cs[i])
    &&& forall|i: int| 0 <= i < cs.len() ==> !(#[trigger] f.clause_seq()[i]).spec_learned()
    &&& f.spec_num_vars() == nv
    &&& f.spec_num_original() == 0
}

/// The largest variable of literals is the largest magnitude of their DIMACS numbers.
proof fn lemma_max_var_abs(lits: Seq<Literal>, vals: Seq<i32>, init: nat)
    requires
        lits_are(lits, vals),
    ensures
        max_var(lits, init) == abs_max(vals, init),
    decreases lits.len(),
{
    if lits.len() > 0 {
        lemma_max_var_abs(lits.drop_last(), vals.drop_last(), init);
        assert(lits.last().dimacs() == vals.last());
    }
}

/// The reader's state.
struct Reader {
    formula: Formula,
    header: Option<u32>,
    current: Vec<Literal>,
}

impl Reader {
    spec fn is(&self, m: DimacsModel) -> bool {
        &&& formula_is(self.formula, m.clauses, m.num_vars)
        &&& self.header == m.header
        &&& lits_are(self.current@, m.current)
    }

    fn close(&mut self)
        ensures
            forall|m: DimacsModel| old(self).is(m) ==> #[trigger] final(self).is(close_clause(m)),
            final(self).header == old(self).header,
    {
        let mut lits: Vec<Literal> = Vec::new();
        std::mem::swap(&mut lits, &mut self.current);
        let ghost f0 = self.formula;
        self.formula.add_clause(Clause::new(lits));
        proof {
            assert forall|m: DimacsModel| old(self).is(m) implies #[trigger] self.is(close_clause(m)) by {
                lemma_max_var_abs(old(self).current@, m.current, m.num_vars);
                let cs = close_clause(m).clauses;
                assert forall|i: int| 0 <= i < cs.len() implies lits_are((#[trigger] self.formula.clause_seq()[i])@, cs[i]) by {
                    if i < m.clauses.len() {
                        assert(self.formula.clause_seq()[i] == f0.clause_seq()[i]);
                    }
                }
                assert forall|i: int| 0 <= i < cs.len() implies !(#[trigger] self.formula.clause_seq()[i]).spec_learned() by {
                    if i < m.clauses.len() {
                        assert(self.formula.clause_seq()[i] == f0.clause_seq()[i]);
                    }
                }
                assert(lits_are(self.current@, Seq::<i32>::empty()));
            }
        }
    }

    /// Read one literal token.
    fn token(&mut self, max: u32, tok: &Vec<char>, line: usize) -> (r: Result<(), DimacsError>)
        ensures
            final(self).header == old(self).header,
            forall|m: DimacsModel| old(self).is(m) && m.header == Some(max) ==> {
                match #[trigger] read_token(m, max, tok@, line as int) {
                    Ok(m2) => r is Ok && final(self).is(m2),
                    Err(e) => r matches Err(x) && x@ == e,
                }
            },
    {
        match parse_int(tok.as_slice(), true, 0x8000_0000, 0x7fff_ffff) {
            None => Err(DimacsError::InvalidLiteral(string_of(tok.as_slice()), line)),
            Some(v) => {
                if v == 0 {
                    self.close();
                    Ok(())
                } else {
                    let a: i128 = if v < 0 { -v } else { v };
                    if a > max as i128 {
                        Err(DimacsError::VariableOutOfRange(a as u32, max))
                    } else {
                        let lit = Literal::from_dimacs(v as i32);
                        self.current.push(lit);
                        proof {
                            assert forall|m: DimacsModel| old(self).is(m) && m.header == Some(max) implies
                                lits_are(self.current@, m.current.push(v as i32)) by {
                                assert forall|j: int| 0 <= j < self.current@.len() implies (#[trigger] self.current@[j]).dimacs() == m.current.push(v as i32)[j] by {
                                    if j < old(self).current@.len() {
                                        assert(self.current@[j] == old(self).current@[j]);
                                    }
                                }
                            }
                        }
                        Ok(())
                    }
                }
            },
        }
    }

    /// Read the literal tokens of a line.
    fn tokens(&mut self, max: u32, toks: &Vec<Vec<char>>, line: usize) -> (r: Result<(), DimacsError>)
        ensures
            final(self).header == old(self).header,
            forall|m: DimacsModel| old(self).is(m) && m.header == Some(max) ==> {
                match #[trigger] read_tokens(m, max, char_views(toks@), line as int) {
                    Ok(m2) => r is Ok && final(self).is(m2),
                    Err(e) => r matches Err(x) && x@ == e,
                }
            },
    {
        let ghost start = *self;
        let ghost ts = char_views(toks@);
        let mut k: usize = 0;
        while k < toks.len()
            invariant
                k <= toks@.len(),
                ts == char_views(toks@),
                start == *old(self),
                self.header == start.header,
                forall|m: DimacsModel| start.is(m) && m.header == Some(max) ==>
                    ((#[trigger] read_tokens(m, max, ts.take(k as int), line as int)) matches Ok(m2) && self.is(m2)),
            decreases toks@.len() - k,
        {
            let ghost mid = *self;
            let res = self.token(max, &toks[k], line);
            proof {
                assert forall|m: DimacsModel| start.is(m) && m.header == Some(max) implies
                    read_tokens(m, max, ts.take(k + 1), line as int) == match read_tokens(m, max, ts.take(k as int), line as int) {
                        Ok(m2) => read_token(m2, max, toks@[k as int]@, line as int),
                        Err(e) => Err(e),
                    } by {
                    assert(ts.take(k + 1).drop_last() =~= ts.take(k as int));
                    assert(ts.take(k + 1).last() == toks@[k as int]@);
                }
            }
            match res {
                Err(e) => {
                    proof {
                        assert forall|m: DimacsModel| start.is(m) && m.header == Some(max) implies {
                            match #[trigger] read_tokens(m, max, ts, line as int) {
                                Ok(m2) => false,
                                Err(x) => e@ == x,
                            }
                        } by {
                            let m1 = read_tokens(m, max, ts.take(k as int), line as int)->Ok_0;
                            assert(mid.is(m1));
                            assert(m1.header == m.header) by {
                                lemma_tokens_keep_header(m, max, ts.take(k as int), line as int);
                            }
                            lemma_tokens_stop(m, max, ts, k as int + 1, line as int);
                        }
                    }
                    return Err(e);
                },
                Ok(()) => {
                    proof {
                        assert forall|m: DimacsModel| start.is(m) && m.header == Some(max) implies
                            ((#[trigger] read_tokens(m, max, ts.take(k + 1), line as int)) matches Ok(m2) && self.is(m2)) by {
                            let m1 = read_tokens(m, max, ts.take(k as int), line as int)->Ok_0;
                            assert(mid.is(m1));
                            lemma_tokens_keep_header(m, max, ts.take(k as int), line as int);
                        }
                    }
                },
            }
            k = k + 1;
        }
        proof {
            assert(ts.take(k as int) =~= ts);
        }
        Ok(())
    }

    /// Read the line `text`, the `line`-th of the input.
    fn line(&mut self, text: &Vec<char>, line: usize) -> (r: Result<(), DimacsError>)
        ensures
            forall|m: DimacsModel| old(self).is(m) ==> {
                match #[trigger] read_line(m, text@, line as int) {
                    Ok(m2) => r is Ok && final(self).is(m2),
                    Err(e) => r matches Err(x) && x@ == e,
                }
            },
    {
        let t = trimmed(text.as_slice());
        if t.len() == 0 || t[0] == 'c' {
            return Ok(());
        }
        let ws = split_words(t.as_slice());
        proof {
            assert(char_views(ws@) =~= words(t@));
        }
        if t[0] == 'p' {
            if ws.len() < 4 || !is_cnf(&ws[1]) {
                return Err(DimacsError::InvalidProblemLine(string_of(t.as_slice())));
            }
            let n = parse_int(ws[2].as_slice(), false, 0, 0xffff_ffff);
            let c = parse_int(ws[3].as_slice(), false, 0, usize::MAX as u64);
            match (n, c) {
                (Some(n), Some(_)) => {
                    let n32 = n as u32;
                    self.header = Some(n32);
                    self.formula.set_num_vars(n32);
                    Ok(())
                },
                _ => Err(DimacsError::InvalidProblemLine(string_of(t.as_slice()))),
            }
        } else {
            match self.header {
                None => Err(DimacsError::MissingProblemLine),
                Some(max) => self.tokens(max, &ws, line),
            }
        }
    }
}

/// Whether `w` is the word `cnf`.
fn is_cnf(w: &Vec<char>) -> (b: bool)
    ensures
        b == (w@ == cnf_word()),
{
    let r = w.len() == 3 && w[0] == 'c' && w[1] == 'n' && w[2] == 'f';
    proof {
        if r {
            assert(w@ =~= cnf_word());
        }
    }
    r
}

/// Once a prefix of the lines is refused, so is the whole input, with the same refusal.
proof fn lemma_lines_stop(ls: Seq<Seq<char>>, k: int)
    requires
        0 <= k <= ls.len(),
        read_lines(ls.take(k)) is Err,
    ensures
        read_lines(ls) == read_lines(ls.take(k)),
    decreases ls.len() - k,
{
    if k < ls.len() {
        assert(ls.take(k + 1).drop_last() =~= ls.take(k));
        lemma_lines_stop(ls, k + 1);
    } else {
        assert(ls.take(k) =~= ls);
    }
}

/// Read a DIMACS CNF text.
pub fn parse_dimacs(input: &str) -> (r: Result<Formula, DimacsError>)
    ensures
        match read_dimacs(input@) {
            Ok(m) => r matches Ok(f) && formula_is(f, m.clauses, m.num_vars),
            Err(e) => r matches Err(x) && x@ == e,
        },
{
    let chars = chars_of(input);
    let ls = split_lines(&chars);
    let ghost all = lines(chars@);
    let mut rd = Reader { formula: Formula::new(), header: None, current: Vec::new() };
    proof {
        assert(all.take(0) =~= Seq::<Seq<char>>::empty());
        assert(lits_are(rd.current@, Seq::<i32>::empty()));
    }
    let mut k: usize = 0;
    while k < ls.len()
        invariant
            all == lines(input@),
            ls@.len() == all.len(),
            forall|i: int| 0 <= i < ls@.len() ==> (#[trigger] ls@[i])@ == all[i],
            k <= ls@.len(),
            read_lines(all.take(k as int)) matches Ok(m) && rd.is(m),
        decreases ls@.len() - k,
    {
        let ghost m = read_lines(all.take(k as int))->Ok_0;
        let res = rd.line(&ls[k], k + 1);
        proof {
            assert(all.take(k + 1).drop_last() =~= all.take(k as int));
            assert(all.take(k + 1).last() == ls@[k as int]@);
        }
        match res {
            Err(e) => {
                proof {
                    lemma_lines_stop(all, k + 1);
                }
                return Err(e);
            },
            Ok(()) => {},
        }
        k = k + 1;
    }
    proof {
        assert(all.take(k as int) =~= all);
    }
    let ghost m = read_lines(all)->Ok_0;
    if rd.current.len() > 0 {
        rd.close();
        assert(rd.is(close_clause(m)));
    }
    Ok(rd.formula)
}

/// Reading tokens keeps the declared variable count.
proof fn lemma_tokens_keep_header(m: DimacsModel, max: u32, toks: Seq<Seq<char>>, line: int)
    ensures
        read_tokens(m, max, toks, line) matches Ok(m2) ==> m2.header == m.header,
    decreases toks.len(),
{
    if toks.len() > 0 {
        lemma_tokens_keep_header(m, max, toks.drop_last(), line);
    }
}

/// Once a prefix of the tokens is refused, so are all of them, with the same refusal.
proof fn lemma_tokens_stop(m: DimacsModel, max: u32, toks: Seq<Seq<char>>, k: int, line: int)
    requires
        0 <= k <= toks.len(),
        read_tokens(m, max, toks.take(k), line) is Err,
    ensures
        read_tokens(m, max, toks, line) == read_tokens(m, max, toks.take(k), line),
    decreases toks.len() - k,
{
    if k < toks.len() {
        assert(toks.take(k + 1).drop_last() =~= toks.take(k));
        lemma_tokens_stop(m, max, toks, k + 1, line);
    } else {
        assert(toks.take(k) =~= toks);
    }
}

} // verus!
