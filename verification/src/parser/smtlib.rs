//! SMT-LIB 2: the problem's representation (logics, sorts, terms, commands), with the
//! mathematical form of each, and the entry point of the reader.
//!
//! Supported commands: set-logic, declare-sort, declare-fun, declare-const, define-fun,
//! assert, check-sat, get-model, get-value, push, pop, reset, exit; other commands are
//! skipped.
use vstd::prelude::*;
pub use crate::parser::reader::parse_smtlib;

verus! {

/// An SMT-LIB reading error, with its line and column (0 where the parser, not the
/// lexer, found it).
#[derive(Debug, Clone)]
pub struct SmtLibError {
    pub message: String,
    pub line: usize,
    pub column: usize,
}

/// The mathematical form of an [`SmtLibError`].
pub struct ErrorModel {
    pub message: Seq<char>,
    pub line: int,
    pub column: int,
}

impl View for SmtLibError {
    type V = ErrorModel;

    open spec fn view(&self) -> ErrorModel {
        ErrorModel { message: self.message@, line: self.line as int, column: self.column as int }
    }
}

/// An SMT-LIB logic.
#[derive(Debug, Clone, Copy, PartialEq, Eq, Structural)]
pub enum Logic {
    /// Quantifier-free uninterpreted functions.
    QfUf,
    /// Quantifier-free linear integer arithmetic.
    QfLia,
    /// Quantifier-free linear real arithmetic.
    QfLra,
    /// Quantifier-free bit vectors.
    QfBv,
    /// Quantifier-free arrays.
    QfA,
    /// Arrays, uninterpreted functions and linear integer arithmetic.
    QfAuflia,
    /// Arrays, uninterpreted functions and bit vectors.
    QfAufbv,
    /// All theories.
    All,
}

/// The result of `str::to_uppercase` on `s` (Unicode upper-case mapping).
pub uninterp spec fn unicode_uppercase(s: Seq<char>) -> Seq<char>;

/// `s` in upper case (`str::to_uppercase`): the Unicode upper-case mapping, which
/// depends on `s` alone. Which characters it maps, and to what, is left unsaid here.
#[verifier::external_body]
fn to_uppercase(s: &str) -> (r: String)
    ensures
        r@ == unicode_uppercase(s@),
{
    s.to_uppercase()
}

/// `s` is the text `t`.
pub open spec fn is_text(s: Seq<char>, t: &str) -> bool {
    s == t@
}

/// The logic an upper-case logic name denotes.
pub open spec fn logic_named(upper: Seq<char>) -> Option<Logic> {
    if is_text(upper, "QF_UF") {
        Some(Logic::QfUf)
    } else if is_text(upper, "QF_LIA") {
        Some(Logic::QfLia)
    } else if is_text(upper, "QF_LRA") {
        Some(Logic::QfLra)
    } else if is_text(upper, "QF_BV") {
        Some(Logic::QfBv)
    } else if is_text(upper, "QF_A") || is_text(upper, "QF_AX") {
        Some(Logic::QfA)
    } else if is_text(upper, "QF_AUFLIA") {
        Some(Logic::QfAuflia)
    } else if is_text(upper, "QF_AUFBV") {
        Some(Logic::QfAufbv)
    } else if is_text(upper, "ALL") {
        Some(Logic::All)
    } else {
        None
    }
}

/// Whether the characters `s` are those of `t`.
pub fn same_text(s: &str, t: &str) -> (b: bool)
    ensures
        b == (s@ == t@),
{
    let a = crate::parser::text::chars_of(s);
    let c = crate::parser::text::chars_of(t);
    if a.len() != c.len() {
        return false;
    }
    let mut k: usize = 0;
    while k < a.len()
        invariant
            k <= a@.len() == c@.len(),
            a@ == s@,
            c@ == t@,
            forall|i: int| 0 <= i < k ==> a@[i] == c@[i],
        decreases a@.len() - k,
    {
        if a[k] != c[k] {
            return false;
        }
        k = k + 1;
    }
    assert(a@ =~= c@);
    true
}

/// The logic of an upper-case logic name.
pub fn logic_of_upper(upper: &str) -> (r: Option<Logic>)
    ensures
        r == logic_named(upper@),
{
    if same_text(upper, "QF_UF") {
        Some(Logic::QfUf)
    } else if same_text(upper, "QF_LIA") {
        Some(Logic::QfLia)
    } else if same_text(upper, "QF_LRA") {
        Some(Logic::QfLra)
    } else if same_text(upper, "QF_BV") {
        Some(Logic::QfBv)
    } else if same_text(upper, "QF_A") || same_text(upper, "QF_AX") {
        Some(Logic::QfA)
    } else if same_text(upper, "QF_AUFLIA") {
        Some(Logic::QfAuflia)
    } else if same_text(upper, "QF_AUFBV") {
        Some(Logic::QfAufbv)
    } else if same_text(upper, "ALL") {
        Some(Logic::All)
    } else {
        None
    }
}

impl Logic {
    /// The logic named `s`, in any case.
    pub fn from_str(s: &str) -> (r: Option<Logic>)
        ensures
            r == logic_named(unicode_uppercase(s@)),
    {
        let upper = to_uppercase(s);
        logic_of_upper(upper.as_str())
    }
}

/// An SMT-LIB sort.
#[derive(Debug, PartialEq, Eq)]
pub enum Sort {
    Bool,
    Int,
    Real,
    BitVec(u32),
    Array(Box<Sort>, Box<Sort>),
    Uninterpreted(String),
}

/// The mathematical form of a [`Sort`].
pub enum SortModel {
    Bool,
    Int,
    Real,
    BitVec(u32),
    Array(Box<SortModel>, Box<SortModel>),
    Uninterpreted(Seq<char>),
}

impl View for Sort {
    type V = SortModel;

    open spec fn view(&self) -> SortModel
        decreases self,
    {
        match self {
            Sort::Bool => SortModel::Bool,
            Sort::Int => SortModel::Int,
            Sort::Real => SortModel::Real,
            Sort::BitVec(w) => SortModel::BitVec(*w),
            Sort::Array(i, e) => SortModel::Array(Box::new((**i).view()), Box::new((**e).view())),
            Sort::Uninterpreted(n) => SortModel::Uninterpreted(n@),
        }
    }
}

impl Sort {
    /// Whether this is `Bool`.
    pub fn is_bool(&self) -> (b: bool)
        ensures
            b == (self is Bool),
    {
        match self {
            Sort::Bool => true,
            _ => false,
        }
    }

    /// Whether this is `Int`.
    pub fn is_int(&self) -> (b: bool)
        ensures
            b == (self is Int),
    {
        match self {
            Sort::Int => true,
            _ => false,
        }
    }

    /// Whether this is a bit-vector sort.
    pub fn is_bitvec(&self) -> (b: bool)
        ensures
            b == (self is BitVec),
    {
        match self {
            Sort::BitVec(_) => true,
            _ => false,
        }
    }

    /// A copy of this sort.
    pub fn copy(&self) -> (r: Sort)
        ensures
            r@ == self@,
        decreases self,
    {
        match self {
            Sort::Bool => Sort::Bool,
            Sort::Int => Sort::Int,
            Sort::Real => Sort::Real,
            Sort::BitVec(w) => Sort::BitVec(*w),
            Sort::Array(i, e) => Sort::Array(Box::new((**i).copy()), Box::new((**e).copy())),
            Sort::Uninterpreted(n) => Sort::Uninterpreted(n.clone()),
        }
    }
}

impl Clone for Sort {
    fn clone(&self) -> (r: Sort)
        ensures
            r@ == self@,
    {
        self.copy()
    }
}

/// The mathematical forms of `v`.
pub open spec fn sort_views(v: Seq<Sort>) -> Seq<SortModel> {
    v.map_values(|s: Sort| s@)
}

/// A function declaration.
#[derive(Debug)]
pub struct FunDecl {
    pub name: String,
    pub params: Vec<Sort>,
    pub return_sort: Sort,
}

/// The mathematical form of a [`FunDecl`].
pub struct FunDeclModel {
    pub name: Seq<char>,
    pub params: Seq<SortModel>,
    pub return_sort: SortModel,
}

impl View for FunDecl {
    type V = FunDeclModel;

    open spec fn view(&self) -> FunDeclModel {
        FunDeclModel { name: self.name@, params: sort_views(self.params@), return_sort: self.return_sort@ }
    }
}

/// A copy of the sorts `v`.
pub fn copy_sorts(v: &Vec<Sort>) -> (r: Vec<Sort>)
    ensures
        sort_views(r@) == sort_views(v@),
{
    let mut r: Vec<Sort> = Vec::new();
    let mut k: usize = 0;
    while k < v.len()
        invariant
            k <= v@.len(),
            r@.len() == k,
            forall|i: int| 0 <= i < k ==> (#[trigger] r@[i])@ == v@[i]@,
        decreases v@.len() - k,
    {
        r.push(v[k].copy());
        k = k + 1;
    }
    assert(sort_views(r@) =~= sort_views(v@));
    r
}

impl Clone for FunDecl {
    fn clone(&self) -> (r: FunDecl)
        ensures
            r@ == self@,
    {
        FunDecl { name: self.name.clone(), params: copy_sorts(&self.params), return_sort: self.return_sort.copy() }
    }
}

/// A decimal literal `whole.frac`, where `frac` is written with `frac_digits` digits
/// (leading zeros included): its value is `whole + frac / 10^frac_digits`. A digit run
/// too long for an `i64` reads as 0.
#[derive(Debug, Clone, Copy, PartialEq, Eq, Structural)]
pub struct DecimalLit {
    pub whole: i64,
    pub frac: i64,
    pub frac_digits: u64,
}

/// The operator of a term with sub-terms.
#[derive(Debug, Clone, Copy, PartialEq, Eq, Structural)]
pub enum TermOp {
    Not,
    And,
    Or,
    Xor,
    Implies,
    Ite,
    Eq,
    Distinct,
    Neg,
    Add,
    Sub,
    Mul,
    Div,
    Mod,
    Abs,
    Lt,
    Le,
    Gt,
    Ge,
    BvNot,
    BvAnd,
    BvOr,
    BvXor,
    BvAdd,
    BvSub,
    BvMul,
    BvUdiv,
    BvSdiv,
    BvUrem,
    BvSrem,
    BvShl,
    BvLshr,
    BvAshr,
    BvUlt,
    BvUle,
    BvUgt,
    BvUge,
    BvSlt,
    BvSle,
    BvSgt,
    BvSge,
    BvConcat,
    Select,
    Store,
}

/// An SMT-LIB term.
#[derive(Debug)]
pub enum Term {
    True,
    False,
    IntLit(i64),
    RealLit(DecimalLit),
    BitVecLit { value: u64, width: u32 },
    Var(String),
    Not(Box<Term>),
    And(Vec<Term>),
    Or(Vec<Term>),
    Xor(Box<Term>, Box<Term>),
    Implies(Box<Term>, Box<Term>),
    Ite(Box<Term>, Box<Term>, Box<Term>),
    Eq(Box<Term>, Box<Term>),
    Distinct(Vec<Term>),
    Neg(Box<Term>),
    Add(Vec<Term>),
    Sub(Box<Term>, Box<Term>),
    Mul(Vec<Term>),
    Div(Box<Term>, Box<Term>),
    Mod(Box<Term>, Box<Term>),
    Abs(Box<Term>),
    Lt(Box<Term>, Box<Term>),
    Le(Box<Term>, Box<Term>),
    Gt(Box<Term>, Box<Term>),
    Ge(Box<Term>, Box<Term>),
    BvNot(Box<Term>),
    BvAnd(Box<Term>, Box<Term>),
    BvOr(Box<Term>, Box<Term>),
    BvXor(Box<Term>, Box<Term>),
    BvAdd(Box<Term>, Box<Term>),
    BvSub(Box<Term>, Box<Term>),
    BvMul(Box<Term>, Box<Term>),
    BvUdiv(Box<Term>, Box<Term>),
    BvSdiv(Box<Term>, Box<Term>),
    BvUrem(Box<Term>, Box<Term>),
    BvSrem(Box<Term>, Box<Term>),
    BvShl(Box<Term>, Box<Term>),
    BvLshr(Box<Term>, Box<Term>),
    BvAshr(Box<Term>, Box<Term>),
    BvUlt(Box<Term>, Box<Term>),
    BvUle(Box<Term>, Box<Term>),
    BvUgt(Box<Term>, Box<Term>),
    BvUge(Box<Term>, Box<Term>),
    BvSlt(Box<Term>, Box<Term>),
    BvSle(Box<Term>, Box<Term>),
    BvSgt(Box<Term>, Box<Term>),
    BvSge(Box<Term>, Box<Term>),
    BvConcat(Box<Term>, Box<Term>),
    BvExtract { high: u32, low: u32, term: Box<Term> },
    BvZeroExtend(u32, Box<Term>),
    BvSignExtend(u32, Box<Term>),
    Select(Box<Term>, Box<Term>),
    Store(Box<Term>, Box<Term>, Box<Term>),
    Apply(String, Vec<Term>),
    Let(Vec<(String, Term)>, Box<Term>),
}

/// The mathematical form of a [`Term`]: the operator terms share one form, their
/// operator and sub-terms.
pub enum TermModel {
    True,
    False,
    IntLit(i64),
    RealLit(DecimalLit),
    BitVecLit(u64, u32),
    Var(Seq<char>),
    Op(TermOp, Seq<TermModel>),
    Extract(u32, u32, Box<TermModel>),
    ZeroExtend(u32, Box<TermModel>),
    SignExtend(u32, Box<TermModel>),
    Apply(Seq<char>, Seq<TermModel>),
    Let(Seq<(Seq<char>, TermModel)>, Box<TermModel>),
}

/// How many sub-terms an operator takes; `None` for any number.
pub open spec fn op_arity(op: TermOp) -> Option<nat> {
    match op {
        TermOp::Not => Some(1),
        TermOp::And => None,
        TermOp::Or => None,
        TermOp::Xor => Some(2),
        TermOp::Implies => Some(2),
        TermOp::Ite => Some(3),
        TermOp::Eq => Some(2),
        TermOp::Distinct => None,
        TermOp::Neg => Some(1),
        TermOp::Add => None,
        TermOp::Sub => Some(2),
        TermOp::Mul => None,
        TermOp::Div => Some(2),
        TermOp::Mod => Some(2),
        TermOp::Abs => Some(1),
        TermOp::Lt => Some(2),
        TermOp::Le => Some(2),
        TermOp::Gt => Some(2),
        TermOp::Ge => Some(2),
        TermOp::BvNot => Some(1),
        TermOp::BvAnd => Some(2),
        TermOp::BvOr => Some(2),
        TermOp::BvXor => Some(2),
        TermOp::BvAdd => Some(2),
        TermOp::BvSub => Some(2),
        TermOp::BvMul => Some(2),
        TermOp::BvUdiv => Some(2),
        TermOp::BvSdiv => Some(2),
        TermOp::BvUrem => Some(2),
        TermOp::BvSrem => Some(2),
        TermOp::BvShl => Some(2),
        TermOp::BvLshr => Some(2),
        TermOp::BvAshr => Some(2),
        TermOp::BvUlt => Some(2),
        TermOp::BvUle => Some(2),
        TermOp::BvUgt => Some(2),
        TermOp::BvUge => Some(2),
        TermOp::BvSlt => Some(2),
        TermOp::BvSle => Some(2),
        TermOp::BvSgt => Some(2),
        TermOp::BvSge => Some(2),
        TermOp::BvConcat => Some(2),
        TermOp::Select => Some(2),
        TermOp::Store => Some(3),
    }
}

/// The mathematical form of `t`.
pub open spec fn term_model(t: Term) -> TermModel
    decreases t,
{
    match t {
        Term::True => TermModel::True,
        Term::False => TermModel::False,
        Term::IntLit(n) => TermModel::IntLit(n),
        Term::RealLit(d) => TermModel::RealLit(d),
        Term::BitVecLit { value, width } => TermModel::BitVecLit(value, width),
        Term::Var(s) => TermModel::Var(s@),
        Term::Not(a) => TermModel::Op(TermOp::Not, seq![term_model(*a)]),
        Term::And(args) => TermModel::Op(TermOp::And, term_models(args@)),
        Term::Or(args) => TermModel::Op(TermOp::Or, term_models(args@)),
        Term::Xor(a, b) => TermModel::Op(TermOp::Xor, seq![term_model(*a), term_model(*b)]),
        Term::Implies(a, b) => TermModel::Op(TermOp::Implies, seq![term_model(*a), term_model(*b)]),
        Term::Ite(a, b, c) => TermModel::Op(TermOp::Ite, seq![term_model(*a), term_model(*b), term_model(*c)]),
        Term::Eq(a, b) => TermModel::Op(TermOp::Eq, seq![term_model(*a), term_model(*b)]),
        Term::Distinct(args) => TermModel::Op(TermOp::Distinct, term_models(args@)),
        Term::Neg(a) => TermModel::Op(TermOp::Neg, seq![term_model(*a)]),
        Term::Add(args) => TermModel::Op(TermOp::Add, term_models(args@)),
        Term::Sub(a, b) => TermModel::Op(TermOp::Sub, seq![term_model(*a), term_model(*b)]),
        Term::Mul(args) => TermModel::Op(TermOp::Mul, term_models(args@)),
        Term::Div(a, b) => TermModel::Op(TermOp::Div, seq![term_model(*a), term_model(*b)]),
        Term::Mod(a, b) => TermModel::Op(TermOp::Mod, seq![term_model(*a), term_model(*b)]),
        Term::Abs(a) => TermModel::Op(TermOp::Abs, seq![term_model(*a)]),
        Term::Lt(a, b) => TermModel::Op(TermOp::Lt, seq![term_model(*a), term_model(*b)]),
        Term::Le(a, b) => TermModel::Op(TermOp::Le, seq![term_model(*a), term_model(*b)]),
        Term::Gt(a, b) => TermModel::Op(TermOp::Gt, seq![term_model(*a), term_model(*b)]),
        Term::Ge(a, b) => TermModel::Op(TermOp::Ge, seq![term_model(*a), term_model(*b)]),
        Term::BvNot(a) => TermModel::Op(TermOp::BvNot, seq![term_model(*a)]),
        Term::BvAnd(a, b) => TermModel::Op(TermOp::BvAnd, seq![term_model(*a), term_model(*b)]),
        Term::BvOr(a, b) => TermModel::Op(TermOp::BvOr, seq![term_model(*a), term_model(*b)]),
        Term::BvXor(a, b) => TermModel::Op(TermOp::BvXor, seq![term_model(*a), term_model(*b)]),
        Term::BvAdd(a, b) => TermModel::Op(TermOp::BvAdd, seq![term_model(*a), term_model(*b)]),
        Term::BvSub(a, b) => TermModel::Op(TermOp::BvSub, seq![term_model(*a), term_model(*b)]),
        Term::BvMul(a, b) => TermModel::Op(TermOp::BvMul, seq![term_model(*a), term_model(*b)]),
        Term::BvUdiv(a, b) => TermModel::Op(TermOp::BvUdiv, seq![term_model(*a), term_model(*b)]),
        Term::BvSdiv(a, b) => TermModel::Op(TermOp::BvSdiv, seq![term_model(*a), term_model(*b)]),
        Term::BvUrem(a, b) => TermModel::Op(TermOp::BvUrem, seq![term_model(*a), term_model(*b)]),
        Term::BvSrem(a, b) => TermModel::Op(TermOp::BvSrem, seq![term_model(*a), term_model(*b)]),
        Term::BvShl(a, b) => TermModel::Op(TermOp::BvShl, seq![term_model(*a), term_model(*b)]),
        Term::BvLshr(a, b) => TermModel::Op(TermOp::BvLshr, seq![term_model(*a), term_model(*b)]),
        Term::BvAshr(a, b) => TermModel::Op(TermOp::BvAshr, seq![term_model(*a), term_model(*b)]),
        Term::BvUlt(a, b) => TermModel::Op(TermOp::BvUlt, seq![term_model(*a), term_model(*b)]),
        Term::BvUle(a, b) => TermModel::Op(TermOp::BvUle, seq![term_model(*a), term_model(*b)]),
        Term::BvUgt(a, b) => TermModel::Op(TermOp::BvUgt, seq![term_model(*a), term_model(*b)]),
        Term::BvUge(a, b) => TermModel::Op(TermOp::BvUge, seq![term_model(*a), term_model(*b)]),
        Term::BvSlt(a, b) => TermModel::Op(TermOp::BvSlt, seq![term_model(*a), term_model(*b)]),
        Term::BvSle(a, b) => TermModel::Op(TermOp::BvSle, seq![term_model(*a), term_model(*b)]),
        Term::BvSgt(a, b) => TermModel::Op(TermOp::BvSgt, seq![term_model(*a), term_model(*b)]),
        Term::BvSge(a, b) => TermModel::Op(TermOp::BvSge, seq![term_model(*a), term_model(*b)]),
        Term::BvConcat(a, b) => TermModel::Op(TermOp::BvConcat, seq![term_model(*a), term_model(*b)]),
        Term::Select(a, b) => TermModel::Op(TermOp::Select, seq![term_model(*a), term_model(*b)]),
        Term::Store(a, b, c) => TermModel::Op(TermOp::Store, seq![term_model(*a), term_model(*b), term_model(*c)]),
        Term::BvExtract { high, low, term } => TermModel::Extract(high, low, Box::new(term_model(*term))),
        Term::BvZeroExtend(n, a) => TermModel::ZeroExtend(n, Box::new(term_model(*a))),
        Term::BvSignExtend(n, a) => TermModel::SignExtend(n, Box::new(term_model(*a))),
        Term::Apply(f, args) => TermModel::Apply(f@, term_models(args@)),
        Term::Let(bs, body) => TermModel::Let(binding_models(bs@), Box::new(term_model(*body))),
    }
}

/// The mathematical forms of `ts`.
pub open spec fn term_models(ts: Seq<Term>) -> Seq<TermModel>
    decreases ts,
{
    if ts.len() == 0 {
        Seq::empty()
    } else {
        term_models(ts.subrange(0, ts.len() - 1)).push(term_model(ts[ts.len() - 1]))
    }
}

/// The mathematical forms of the bindings `bs`.
pub open spec fn binding_models(bs: Seq<(String, Term)>) -> Seq<(Seq<char>, TermModel)>
    decreases bs,
{
    if bs.len() == 0 {
        Seq::empty()
    } else {
        binding_models(bs.subrange(0, bs.len() - 1)).push((bs[bs.len() - 1].0@, term_model(bs[bs.len() - 1].1)))
    }
}

impl View for Term {
    type V = TermModel;

    open spec fn view(&self) -> TermModel {
        term_model(*self)
    }
}

/// The one-operand term `op x`.
fn build_unary(op: TermOp, x: Term) -> (t: Term)
    requires
        op_arity(op) == Some(1nat),
    ensures
        t@ == TermModel::Op(op, seq![x@]),
{
    match op {
        TermOp::Not => Term::Not(Box::new(x)),
        TermOp::Neg => Term::Neg(Box::new(x)),
        TermOp::Abs => Term::Abs(Box::new(x)),
        TermOp::BvNot => Term::BvNot(Box::new(x)),
        _ => Term::Not(Box::new(x)),
    }
}

/// The two-operand term `op x y`.
fn build_binary(op: TermOp, x: Term, y: Term) -> (t: Term)
    requires
        op_arity(op) == Some(2nat),
    ensures
        t@ == TermModel::Op(op, seq![x@, y@]),
{
    match op {
        TermOp::Xor => Term::Xor(Box::new(x), Box::new(y)),
        TermOp::Implies => Term::Implies(Box::new(x), Box::new(y)),
        TermOp::Eq => Term::Eq(Box::new(x), Box::new(y)),
        TermOp::Sub => Term::Sub(Box::new(x), Box::new(y)),
        TermOp::Div => Term::Div(Box::new(x), Box::new(y)),
        TermOp::Mod => Term::Mod(Box::new(x), Box::new(y)),
        TermOp::Lt => Term::Lt(Box::new(x), Box::new(y)),
        TermOp::Le => Term::Le(Box::new(x), Box::new(y)),
        TermOp::Gt => Term::Gt(Box::new(x), Box::new(y)),
        TermOp::Ge => Term::Ge(Box::new(x), Box::new(y)),
        TermOp::BvAnd => Term::BvAnd(Box::new(x), Box::new(y)),
        TermOp::BvOr => Term::BvOr(Box::new(x), Box::new(y)),
        TermOp::BvXor => Term::BvXor(Box::new(x), Box::new(y)),
        TermOp::BvAdd => Term::BvAdd(Box::new(x), Box::new(y)),
        TermOp::BvSub => Term::BvSub(Box::new(x), Box::new(y)),
        TermOp::BvMul => Term::BvMul(Box::new(x), Box::new(y)),
        TermOp::BvUdiv => Term::BvUdiv(Box::new(x), Box::new(y)),
        TermOp::BvSdiv => Term::BvSdiv(Box::new(x), Box::new(y)),
        TermOp::BvUrem => Term::BvUrem(Box::new(x), Box::new(y)),
        TermOp::BvSrem => Term::BvSrem(Box::new(x), Box::new(y)),
        TermOp::BvShl => Term::BvShl(Box::new(x), Box::new(y)),
        TermOp::BvLshr => Term::BvLshr(Box::new(x), Box::new(y)),
        TermOp::BvAshr => Term::BvAshr(Box::new(x), Box::new(y)),
        TermOp::BvUlt => Term::BvUlt(Box::new(x), Box::new(y)),
        TermOp::BvUle => Term::BvUle(Box::new(x), Box::new(y)),
        TermOp::BvUgt => Term::BvUgt(Box::new(x), Box::new(y)),
        TermOp::BvUge => Term::BvUge(Box::new(x), Box::new(y)),
        TermOp::BvSlt => Term::BvSlt(Box::new(x), Box::new(y)),
        TermOp::BvSle => Term::BvSle(Box::new(x), Box::new(y)),
        TermOp::BvSgt => Term::BvSgt(Box::new(x), Box::new(y)),
        TermOp::BvSge => Term::BvSge(Box::new(x), Box::new(y)),
        TermOp::BvConcat => Term::BvConcat(Box::new(x), Box::new(y)),
        TermOp::Select => Term::Select(Box::new(x), Box::new(y)),
        _ => Term::Xor(Box::new(x), Box::new(y)),
    }
}

/// The three-operand term `op x y z`.
fn build_ternary(op: TermOp, x: Term, y: Term, z: Term) -> (t: Term)
    requires
        op_arity(op) == Some(3nat),
    ensures
        t@ == TermModel::Op(op, seq![x@, y@, z@]),
{
    match op {
        TermOp::Ite => Term::Ite(Box::new(x), Box::new(y), Box::new(z)),
        _ => Term::Store(Box::new(x), Box::new(y), Box::new(z)),
    }
}

/// The term `op` over any number of operands `args`.
fn build_nary(op: TermOp, args: Vec<Term>) -> (t: Term)
    requires
        op_arity(op) is None,
    ensures
        t@ == TermModel::Op(op, term_models(args@)),
{
    match op {
        TermOp::And => Term::And(args),
        TermOp::Or => Term::Or(args),
        TermOp::Distinct => Term::Distinct(args),
        TermOp::Add => Term::Add(args),
        TermOp::Mul => Term::Mul(args),
        _ => Term::And(args),
    }
}

/// The operator term `op` over `args`.
pub fn build_op(op: TermOp, args: Vec<Term>) -> (t: Term)
    requires
        op_arity(op) matches Some(n) ==> args@.len() == n,
    ensures
        t@ == TermModel::Op(op, term_models(args@)),
{
    proof {
        lemma_term_models_short(args@);
    }
    let ghost a0 = args@;
    let mut args = args;
    match op_arity_of(op) {
        None => build_nary(op, args),
        Some(1) => {
            let x = args.pop().unwrap();
            build_unary(op, x)
        },
        Some(2) => {
            let y = args.pop().unwrap();
            let x = args.pop().unwrap();
            build_binary(op, x, y)
        },
        Some(_) => {
            let z = args.pop().unwrap();
            let y = args.pop().unwrap();
            let x = args.pop().unwrap();
            build_ternary(op, x, y, z)
        },
    }
}

/// How many operands `op` takes; `None` for any number.
pub fn op_arity_of(op: TermOp) -> (r: Option<u8>)
    ensures
        match r {
            None => op_arity(op) is None,
            Some(n) => op_arity(op) == Some(n as nat) && 1 <= n <= 3,
        },
{
    match op {
        TermOp::Not => Some(1),
        TermOp::And => None,
        TermOp::Or => None,
        TermOp::Xor => Some(2),
        TermOp::Implies => Some(2),
        TermOp::Ite => Some(3),
        TermOp::Eq => Some(2),
        TermOp::Distinct => None,
        TermOp::Neg => Some(1),
        TermOp::Add => None,
        TermOp::Sub => Some(2),
        TermOp::Mul => None,
        TermOp::Div => Some(2),
        TermOp::Mod => Some(2),
        TermOp::Abs => Some(1),
        TermOp::Lt => Some(2),
        TermOp::Le => Some(2),
        TermOp::Gt => Some(2),
        TermOp::Ge => Some(2),
        TermOp::BvNot => Some(1),
        TermOp::BvAnd => Some(2),
        TermOp::BvOr => Some(2),
        TermOp::BvXor => Some(2),
        TermOp::BvAdd => Some(2),
        TermOp::BvSub => Some(2),
        TermOp::BvMul => Some(2),
        TermOp::BvUdiv => Some(2),
        TermOp::BvSdiv => Some(2),
        TermOp::BvUrem => Some(2),
        TermOp::BvSrem => Some(2),
        TermOp::BvShl => Some(2),
        TermOp::BvLshr => Some(2),
        TermOp::BvAshr => Some(2),
        TermOp::BvUlt => Some(2),
        TermOp::BvUle => Some(2),
        TermOp::BvUgt => Some(2),
        TermOp::BvUge => Some(2),
        TermOp::BvSlt => Some(2),
        TermOp::BvSle => Some(2),
        TermOp::BvSgt => Some(2),
        TermOp::BvSge => Some(2),
        TermOp::BvConcat => Some(2),
        TermOp::Select => Some(2),
        TermOp::Store => Some(3),
    }
}

/// `term_models` is element-wise.
pub proof fn lemma_term_models(ts: Seq<Term>)
    ensures
        term_models(ts).len() == ts.len(),
        forall|i: int| 0 <= i < ts.len() ==> #[trigger] term_models(ts)[i] == term_model(ts[i]),
    decreases ts.len(),
{
    if ts.len() > 0 {
        lemma_term_models(ts.subrange(0, ts.len() - 1));
    }
}

/// The forms of one, two or three terms.
proof fn lemma_term_models_short(ts: Seq<Term>)
    ensures
        ts.len() == 1 ==> term_models(ts) == seq![term_model(ts[0])],
        ts.len() == 2 ==> term_models(ts) == seq![term_model(ts[0]), term_model(ts[1])],
        ts.len() == 3 ==> term_models(ts) == seq![term_model(ts[0]), term_model(ts[1]), term_model(ts[2])],
{
    lemma_term_models(ts);
    if ts.len() == 1 {
        assert(term_models(ts) =~= seq![term_model(ts[0])]);
    } else if ts.len() == 2 {
        assert(term_models(ts) =~= seq![term_model(ts[0]), term_model(ts[1])]);
    } else if ts.len() == 3 {
        assert(term_models(ts) =~= seq![term_model(ts[0]), term_model(ts[1]), term_model(ts[2])]);
    }
}

/// `binding_models` is element-wise.
pub proof fn lemma_binding_models(bs: Seq<(String, Term)>)
    ensures
        binding_models(bs).len() == bs.len(),
        forall|i: int| 0 <= i < bs.len() ==> #[trigger] binding_models(bs)[i] == (bs[i].0@, term_model(bs[i].1)),
    decreases bs.len(),
{
    if bs.len() > 0 {
        lemma_binding_models(bs.subrange(0, bs.len() - 1));
    }
}

impl Term {
    /// A copy of this term.
    #[verifier::spinoff_prover]
    #[verifier::rlimit(100)]
    pub fn copy(&self) -> (r: Term)
        ensures
            r@ == self@,
        decreases self,
    {
        match self {
            Term::True => Term::True,
            Term::False => Term::False,
            Term::IntLit(n) => Term::IntLit(*n),
            Term::RealLit(d) => Term::RealLit(*d),
            Term::BitVecLit { value, width } => Term::BitVecLit { value: *value, width: *width },
            Term::Var(s) => Term::Var(s.clone()),
            Term::Not(a) => Term::Not(Box::new((**a).copy())),
            Term::And(args) => Term::And(copy_terms(args)),
            Term::Or(args) => Term::Or(copy_terms(args)),
            Term::Xor(a, b) => Term::Xor(Box::new((**a).copy()), Box::new((**b).copy())),
            Term::Implies(a, b) => Term::Implies(Box::new((**a).copy()), Box::new((**b).copy())),
            Term::Ite(a, b, c) => Term::Ite(Box::new((**a).copy()), Box::new((**b).copy()), Box::new((**c).copy())),
            Term::Eq(a, b) => Term::Eq(Box::new((**a).copy()), Box::new((**b).copy())),
            Term::Distinct(args) => Term::Distinct(copy_terms(args)),
            Term::Neg(a) => Term::Neg(Box::new((**a).copy())),
            Term::Add(args) => Term::Add(copy_terms(args)),
            Term::Sub(a, b) => Term::Sub(Box::new((**a).copy()), Box::new((**b).copy())),
            Term::Mul(args) => Term::Mul(copy_terms(args)),
            Term::Div(a, b) => Term::Div(Box::new((**a).copy()), Box::new((**b).copy())),
            Term::Mod(a, b) => Term::Mod(Box::new((**a).copy()), Box::new((**b).copy())),
            Term::Abs(a) => Term::Abs(Box::new((**a).copy())),
            Term::Lt(a, b) => Term::Lt(Box::new((**a).copy()), Box::new((**b).copy())),
            Term::Le(a, b) => Term::Le(Box::new((**a).copy()), Box::new((**b).copy())),
            Term::Gt(a, b) => Term::Gt(Box::new((**a).copy()), Box::new((**b).copy())),
            Term::Ge(a, b) => Term::Ge(Box::new((**a).copy()), Box::new((**b).copy())),
            Term::BvNot(a) => Term::BvNot(Box::new((**a).copy())),
            Term::BvAnd(a, b) => Term::BvAnd(Box::new((**a).copy()), Box::new((**b).copy())),
            Term::BvOr(a, b) => Term::BvOr(Box::new((**a).copy()), Box::new((**b).copy())),
            Term::BvXor(a, b) => Term::BvXor(Box::new((**a).copy()), Box::new((**b).copy())),
            Term::BvAdd(a, b) => Term::BvAdd(Box::new((**a).copy()), Box::new((**b).copy())),
            Term::BvSub(a, b) => Term::BvSub(Box::new((**a).copy()), Box::new((**b).copy())),
            Term::BvMul(a, b) => Term::BvMul(Box::new((**a).copy()), Box::new((**b).copy())),
            Term::BvUdiv(a, b) => Term::BvUdiv(Box::new((**a).copy()), Box::new((**b).copy())),
            Term::BvSdiv(a, b) => Term::BvSdiv(Box::new((**a).copy()), Box::new((**b).copy())),
            Term::BvUrem(a, b) => Term::BvUrem(Box::new((**a).copy()), Box::new((**b).copy())),
            Term::BvSrem(a, b) => Term::BvSrem(Box::new((**a).copy()), Box::new((**b).copy())),
            Term::BvShl(a, b) => Term::BvShl(Box::new((**a).copy()), Box::new((**b).copy())),
            Term::BvLshr(a, b) => Term::BvLshr(Box::new((**a).copy()), Box::new((**b).copy())),
            Term::BvAshr(a, b) => Term::BvAshr(Box::new((**a).copy()), Box::new((**b).copy())),
            Term::BvUlt(a, b) => Term::BvUlt(Box::new((**a).copy()), Box::new((**b).copy())),
            Term::BvUle(a, b) => Term::BvUle(Box::new((**a).copy()), Box::new((**b).copy())),
            Term::BvUgt(a, b) => Term::BvUgt(Box::new((**a).copy()), Box::new((**b).copy())),
            Term::BvUge(a, b) => Term::BvUge(Box::new((**a).copy()), Box::new((**b).copy())),
            Term::BvSlt(a, b) => Term::BvSlt(Box::new((**a).copy()), Box::new((**b).copy())),
            Term::BvSle(a, b) => Term::BvSle(Box::new((**a).copy()), Box::new((**b).copy())),
            Term::BvSgt(a, b) => Term::BvSgt(Box::new((**a).copy()), Box::new((**b).copy())),
            Term::BvSge(a, b) => Term::BvSge(Box::new((**a).copy()), Box::new((**b).copy())),
            Term::BvConcat(a, b) => Term::BvConcat(Box::new((**a).copy()), Box::new((**b).copy())),
            Term::Select(a, b) => Term::Select(Box::new((**a).copy()), Box::new((**b).copy())),
            Term::Store(a, b, c) => Term::Store(Box::new((**a).copy()), Box::new((**b).copy()), Box::new((**c).copy())),
            Term::BvExtract { high, low, term } => Term::BvExtract { high: *high, low: *low, term: Box::new((**term).copy()) },
            Term::BvZeroExtend(n, a) => Term::BvZeroExtend(*n, Box::new((**a).copy())),
            Term::BvSignExtend(n, a) => Term::BvSignExtend(*n, Box::new((**a).copy())),
            Term::Apply(f, args) => Term::Apply(f.clone(), copy_terms(args)),
            Term::Let(bs, body) => Term::Let(copy_bindings(bs), Box::new((**body).copy())),
        }
    }


}

impl Clone for Term {
    fn clone(&self) -> (r: Term)
        ensures
            r@ == self@,
    {
        self.copy()
    }
}

/// A copy of the terms `ts`.
pub fn copy_terms(ts: &Vec<Term>) -> (r: Vec<Term>)
    ensures
        term_models(r@) == term_models(ts@),
    decreases ts,
{
    let mut r: Vec<Term> = Vec::new();
    let mut k: usize = 0;
    while k < ts.len()
        invariant
            k <= ts@.len(),
            r@.len() == k,
            forall|i: int| 0 <= i < k ==> term_model(#[trigger] r@[i]) == term_model(ts@[i]),
        decreases ts@.len() - k,
    {
        assert(decreases_to!(ts => ts@[k as int]));
        r.push(ts[k].copy());
        k = k + 1;
    }
    proof {
        lemma_term_models(r@);
        lemma_term_models(ts@);
    }
    assert(term_models(r@) =~= term_models(ts@));
    r
}

/// A copy of the bindings `bs`.
pub fn copy_bindings(bs: &Vec<(String, Term)>) -> (r: Vec<(String, Term)>)
    ensures
        binding_models(r@) == binding_models(bs@),
    decreases bs,
{
    let mut r: Vec<(String, Term)> = Vec::new();
    let mut k: usize = 0;
    while k < bs.len()
        invariant
            k <= bs@.len(),
            r@.len() == k,
            forall|i: int| 0 <= i < k ==> (#[trigger] r@[i]).0@ == bs@[i].0@ && term_model(r@[i].1) == term_model(bs@[i].1),
        decreases bs@.len() - k,
    {
        assert(decreases_to!(bs => bs@[k as int]));
        let name = bs[k].0.clone();
        let t = bs[k].1.copy();
        r.push((name, t));
        k = k + 1;
    }
    proof {
        lemma_binding_models(r@);
        lemma_binding_models(bs@);
    }
    assert(binding_models(r@) =~= binding_models(bs@));
    r
}



/// The mathematical forms of sorted parameters.
pub open spec fn param_models(ps: Seq<(String, Sort)>) -> Seq<(Seq<char>, SortModel)> {
    ps.map_values(|p: (String, Sort)| (p.0@, p.1@))
}

/// A copy of sorted parameters.
pub fn copy_params(ps: &Vec<(String, Sort)>) -> (r: Vec<(String, Sort)>)
    ensures
        param_models(r@) == param_models(ps@),
{
    let mut r: Vec<(String, Sort)> = Vec::new();
    let mut k: usize = 0;
    while k < ps.len()
        invariant
            k <= ps@.len(),
            r@.len() == k,
            forall|i: int| 0 <= i < k ==> (#[trigger] r@[i]).0@ == ps@[i].0@ && r@[i].1@ == ps@[i].1@,
        decreases ps@.len() - k,
    {
        r.push((ps[k].0.clone(), ps[k].1.copy()));
        k = k + 1;
    }
    assert(param_models(r@) =~= param_models(ps@));
    r
}

/// An SMT-LIB command.
#[derive(Debug)]
pub enum Command {
    SetLogic(Logic),
    DeclareSort(String, u32),
    DeclareFun(FunDecl),
    DefineFun(String, Vec<(String, Sort)>, Sort, Term),
    Assert(Term),
    CheckSat,
    GetModel,
    GetValue(Vec<Term>),
    Push(u32),
    Pop(u32),
    Reset,
    Exit,
}

/// The mathematical form of a [`Command`].
pub enum CommandModel {
    SetLogic(Logic),
    DeclareSort(Seq<char>, u32),
    DeclareFun(FunDeclModel),
    DefineFun(Seq<char>, Seq<(Seq<char>, SortModel)>, SortModel, TermModel),
    Assert(TermModel),
    CheckSat,
    GetModel,
    GetValue(Seq<TermModel>),
    Push(u32),
    Pop(u32),
    Reset,
    Exit,
}

impl View for Command {
    type V = CommandModel;

    open spec fn view(&self) -> CommandModel {
        match self {
            Command::SetLogic(l) => CommandModel::SetLogic(*l),
            Command::DeclareSort(n, a) => CommandModel::DeclareSort(n@, *a),
            Command::DeclareFun(d) => CommandModel::DeclareFun(d@),
            Command::DefineFun(n, ps, s, b) => CommandModel::DefineFun(n@, param_models(ps@), s@, b@),
            Command::Assert(t) => CommandModel::Assert(t@),
            Command::CheckSat => CommandModel::CheckSat,
            Command::GetModel => CommandModel::GetModel,
            Command::GetValue(ts) => CommandModel::GetValue(term_models(ts@)),
            Command::Push(n) => CommandModel::Push(*n),
            Command::Pop(n) => CommandModel::Pop(*n),
            Command::Reset => CommandModel::Reset,
            Command::Exit => CommandModel::Exit,
        }
    }
}

impl Clone for Command {
    fn clone(&self) -> (r: Command)
        ensures
            r@ == self@,
    {
        match self {
            Command::SetLogic(l) => Command::SetLogic(*l),
            Command::DeclareSort(n, a) => Command::DeclareSort(n.clone(), *a),
            Command::DeclareFun(d) => Command::DeclareFun(d.clone()),
            Command::DefineFun(n, ps, s, b) => Command::DefineFun(n.clone(), copy_params(ps), s.copy(), b.copy()),
            Command::Assert(t) => Command::Assert(t.copy()),
            Command::CheckSat => Command::CheckSat,
            Command::GetModel => Command::GetModel,
            Command::GetValue(ts) => Command::GetValue(copy_terms(ts)),
            Command::Push(n) => Command::Push(*n),
            Command::Pop(n) => Command::Pop(*n),
            Command::Reset => Command::Reset,
            Command::Exit => Command::Exit,
        }
    }
}

/// A definition's parameters, result sort and body.
pub type Definition = (Vec<(String, Sort)>, Sort, Term);

/// The mathematical form of a definition.
pub type DefinitionModel = (Seq<(Seq<char>, SortModel)>, SortModel, TermModel);

/// The mathematical form of a definition.
pub open spec fn definition_model(d: Definition) -> DefinitionModel {
    (param_models(d.0@), d.1@, d.2@)
}

/// The map that the named definitions `ds` make, a later one of a name replacing an
/// earlier.
pub open spec fn definitions_map(ds: Seq<(String, Definition)>) -> Map<Seq<char>, DefinitionModel>
    decreases ds.len(),
{
    if ds.len() == 0 {
        Map::empty()
    } else {
        definitions_map(ds.drop_last()).insert(ds.last().0@, definition_model(ds.last().1))
    }
}

/// The names of `ds` are pairwise distinct.
pub open spec fn distinct_names(ds: Seq<(String, Definition)>) -> bool {
    forall|i: int, j: int| 0 <= i < j < ds.len() ==> (#[trigger] ds[i]).0@ != (#[trigger] ds[j]).0@
}

/// A parsed SMT-LIB problem. `definitions` holds one entry per defined name, the latest
/// definition of that name.
#[derive(Debug)]
pub struct SmtProblem {
    pub logic: Option<Logic>,
    pub declarations: Vec<FunDecl>,
    pub definitions: Vec<(String, Definition)>,
    pub assertions: Vec<Term>,
    pub commands: Vec<Command>,
}

/// The mathematical forms of declarations.
pub open spec fn decl_models(ds: Seq<FunDecl>) -> Seq<FunDeclModel> {
    ds.map_values(|d: FunDecl| d@)
}

/// The mathematical forms of commands.
pub open spec fn command_models(cs: Seq<Command>) -> Seq<CommandModel> {
    cs.map_values(|c: Command| c@)
}

/// The mathematical form of an [`SmtProblem`].
pub struct ProblemModel {
    pub logic: Option<Logic>,
    pub declarations: Seq<FunDeclModel>,
    pub definitions: Map<Seq<char>, DefinitionModel>,
    pub assertions: Seq<TermModel>,
    pub commands: Seq<CommandModel>,
}

impl View for SmtProblem {
    type V = ProblemModel;

    open spec fn view(&self) -> ProblemModel {
        ProblemModel {
            logic: self.logic,
            declarations: decl_models(self.declarations@),
            definitions: definitions_map(self.definitions@),
            assertions: term_models(self.assertions@),
            commands: command_models(self.commands@),
        }
    }
}

impl SmtProblem {
    /// An empty problem.
    pub fn new() -> (p: SmtProblem)
        ensures
            p.logic is None,
            p.declarations@.len() == 0,
            p.definitions@.len() == 0,
            p.assertions@.len() == 0,
            p.commands@.len() == 0,
    {
        SmtProblem {
            logic: None,
            declarations: Vec::new(),
            definitions: Vec::new(),
            assertions: Vec::new(),
            commands: Vec::new(),
        }
    }
}

impl Default for SmtProblem {
    fn default() -> (p: SmtProblem)
        ensures
            p.logic is None,
            p.declarations@.len() == 0,
            p.definitions@.len() == 0,
            p.assertions@.len() == 0,
            p.commands@.len() == 0,
    {
        SmtProblem::new()
    }
}

} // verus!
