//! The syntax tree of a path.

use vstd::prelude::*;

verus! {

/// The operator of a filter expression.
#[derive(Debug, Clone, Copy, PartialEq, Eq)]
pub enum BinaryOperator {
    Or,
    And,
    Eq,
    NotEq,
    Lt,
    Lte,
    Gt,
    Gte,
    Match,
    In,
    Nin,
    Subsetof,
    Anyof,
    Noneof,
    Size,
    Empty,
}

/// A literal of a filter expression. A double is given by its IEEE-754 bit
/// pattern.
#[derive(Debug, PartialEq, Eq)]
pub enum PathValue {
    Null,
    Boolean(bool),
    UInt64(u64),
    Int64(i64),
    Float64(u64),
    String(Vec<u8>),
}

/// One step of a path.
#[derive(Debug, PartialEq, Eq)]
pub enum Path {
    Root,
    Current,
    DotWildcard,
    DescentWildcard,
    BracketWildcard,
    ColonField(Vec<u8>),
    DotField(Vec<u8>),
    DescentField(Vec<u8>),
    ObjectField(Vec<u8>),
    ObjectFields(Vec<Vec<u8>>),
    ArrayIndex(i32),
    ArrayIndices(Vec<i32>),
    ArraySlice { start: Option<i32>, end: Option<i32>, step: Option<u32> },
    FilterExpr(Box<Expr>),
}

/// A filter expression.
#[derive(Debug, PartialEq, Eq)]
pub enum Expr {
    Paths(Vec<Path>),
    Value(PathValue),
    BinaryOp { op: BinaryOperator, left: Box<Expr>, right: Box<Expr> },
}

/// A path: its steps in order.
#[derive(Debug, PartialEq, Eq)]
pub struct JsonPath {
    pub paths: Vec<Path>,
}

/// What a literal is, with its string as bytes.
pub enum ValueTerm {
    Null,
    Boolean(bool),
    UInt64(u64),
    Int64(i64),
    Float64(u64),
    String(Seq<u8>),
}

/// What a step is, with its names and lists as sequences.
pub enum Step {
    Root,
    Current,
    DotWildcard,
    DescentWildcard,
    BracketWildcard,
    ColonField(Seq<u8>),
    DotField(Seq<u8>),
    DescentField(Seq<u8>),
    ObjectField(Seq<u8>),
    ObjectFields(Seq<Seq<u8>>),
    ArrayIndex(i32),
    ArrayIndices(Seq<i32>),
    ArraySlice { start: Option<i32>, end: Option<i32>, step: Option<u32> },
    FilterExpr(Box<Term>),
}

/// What a filter expression is.
pub enum Term {
    Paths(Seq<Step>),
    Value(ValueTerm),
    BinaryOp { op: BinaryOperator, left: Box<Term>, right: Box<Term> },
}

impl View for PathValue {
    type V = ValueTerm;

    open spec fn view(&self) -> ValueTerm {
        match self {
            PathValue::Null => ValueTerm::Null,
            PathValue::Boolean(b) => ValueTerm::Boolean(*b),
            PathValue::UInt64(v) => ValueTerm::UInt64(*v),
            PathValue::Int64(v) => ValueTerm::Int64(*v),
            PathValue::Float64(v) => ValueTerm::Float64(*v),
            PathValue::String(s) => ValueTerm::String(s@),
        }
    }
}

/// The names that a vector of names holds.
pub open spec fn names_view(v: Seq<Vec<u8>>) -> Seq<Seq<u8>> {
    v.map_values(|x: Vec<u8>| x@)
}

impl Path {
    /// What the step is.
    pub open spec fn term(self) -> Step
        decreases self, 0nat,
    {
        match self {
            Path::Root => Step::Root,
            Path::Current => Step::Current,
            Path::DotWildcard => Step::DotWildcard,
            Path::DescentWildcard => Step::DescentWildcard,
            Path::BracketWildcard => Step::BracketWildcard,
            Path::ColonField(n) => Step::ColonField(n@),
            Path::DotField(n) => Step::DotField(n@),
            Path::DescentField(n) => Step::DescentField(n@),
            Path::ObjectField(n) => Step::ObjectField(n@),
            Path::ObjectFields(ns) => Step::ObjectFields(names_view(ns@)),
            Path::ArrayIndex(i) => Step::ArrayIndex(i),
            Path::ArrayIndices(is) => Step::ArrayIndices(is@),
            Path::ArraySlice { start, end, step } => Step::ArraySlice { start, end, step },
            Path::FilterExpr(e) => Step::FilterExpr(Box::new(e.term())),
        }
    }
}

impl Expr {
    /// What the expression is.
    pub open spec fn term(self) -> Term
        decreases self, 0nat,
    {
        match self {
            Expr::Paths(ps) => Term::Paths(steps_upto(ps@, ps@.len())),
            Expr::Value(v) => Term::Value(v@),
            Expr::BinaryOp { op, left, right } => Term::BinaryOp {
                op,
                left: Box::new(left.term()),
                right: Box::new(right.term()),
            },
        }
    }
}

/// What the first `k` steps are.
pub open spec fn steps_upto(ps: Seq<Path>, k: nat) -> Seq<Step>
    decreases ps, k,
{
    if k == 0 || k > ps.len() {
        Seq::empty()
    } else {
        steps_upto(ps, (k - 1) as nat).push(ps[k - 1].term())
    }
}

/// What steps are.
pub open spec fn steps_view(ps: Seq<Path>) -> Seq<Step> {
    steps_upto(ps, ps.len())
}

/// The first steps of a longer run of steps are what they are alone.
pub proof fn lemma_steps_upto_push(ps: Seq<Path>, p: Path, k: nat)
    requires
        k <= ps.len(),
    ensures
        steps_upto(ps.push(p), k) == steps_upto(ps, k),
    decreases k,
{
    if k > 0 {
        lemma_steps_upto_push(ps, p, (k - 1) as nat);
        assert(ps.push(p)[k - 1] == ps[k - 1]);
    }
}

/// One more step is one more of what the steps are.
pub proof fn lemma_steps_view_push(ps: Seq<Path>, p: Path)
    ensures
        steps_view(ps.push(p)) == steps_view(ps).push(p.term()),
        steps_view(ps).len() == ps.len(),
{
    lemma_steps_upto_push(ps, p, ps.len());
    lemma_steps_len(ps, ps.len());
}

/// What the steps are is, step by step, what each step is.
pub proof fn lemma_steps_index(ps: Seq<Path>, k: int)
    requires
        0 <= k < ps.len(),
    ensures
        steps_view(ps).len() == ps.len(),
        steps_view(ps)[k] == ps[k].term(),
{
    lemma_steps_len(ps, ps.len());
    lemma_steps_upto_index(ps, ps.len(), k);
}

/// What the first steps are is, step by step, what each step is.
pub proof fn lemma_steps_upto_index(ps: Seq<Path>, n: nat, k: int)
    requires
        0 <= k < n <= ps.len(),
    ensures
        steps_upto(ps, n).len() == n,
        steps_upto(ps, n)[k] == ps[k].term(),
    decreases n,
{
    lemma_steps_len(ps, n);
    lemma_steps_len(ps, (n - 1) as nat);
    if k < n - 1 {
        lemma_steps_upto_index(ps, (n - 1) as nat, k);
    }
}

/// There are as many of what the steps are as there are steps.
pub proof fn lemma_steps_len(ps: Seq<Path>, k: nat)
    requires
        k <= ps.len(),
    ensures
        steps_upto(ps, k).len() == k,
    decreases k,
{
    if k > 0 {
        lemma_steps_len(ps, (k - 1) as nat);
    }
}

impl View for JsonPath {
    type V = Seq<Step>;

    open spec fn view(&self) -> Seq<Step> {
        steps_view(self.paths@)
    }
}

} // verus!
