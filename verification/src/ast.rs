//! Abstract syntax of state-machine programs: types, expressions, statements,
//! transitions and the top-level items of a program.
use vstd::prelude::*;

verus! {

/// A byte range `[start, end)` in the source text.
#[derive(Clone, Copy, Debug, PartialEq, Eq)]
pub struct Span {
    pub start: usize,
    pub end: usize,
}

impl Span {
    pub fn new(start: usize, end: usize) -> (s: Span)
        ensures
            s.start == start,
            s.end == end,
    {
        Span { start, end }
    }

    /// The span that stands for "no position in the source".
    pub fn dummy() -> (s: Span)
        ensures
            s.start == 0,
            s.end == 0,
    {
        Span { start: 0, end: 0 }
    }

    /// The smallest span that covers both `self` and `other`.
    pub fn merge(self, other: Span) -> (s: Span)
        ensures
            s.start == if self.start <= other.start { self.start } else { other.start },
            s.end == if self.end >= other.end { self.end } else { other.end },
    {
        let start = if self.start <= other.start { self.start } else { other.start };
        let end = if self.end >= other.end { self.end } else { other.end };
        Span { start, end }
    }
}

/// A syntax node together with the place in the source it was read from.
#[derive(Clone, Debug, PartialEq)]
pub struct Spanned<T> {
    pub node: T,
    pub span: Span,
}

impl<T> Spanned<T> {
    pub fn new(node: T, span: Span) -> (s: Spanned<T>)
        ensures
            s.node == node,
            s.span == span,
    {
        Spanned { node, span }
    }
}

/// The types that fields, parameters and constants can be declared with.
#[derive(Debug, PartialEq)]
pub enum Type {
    Int,
    Real,
    Bool,
    String,
    Array { element: Box<Type>, size: usize },
    Mapping { key: Box<Type>, value: Box<Type> },
    Enum(String),
    Named(String),
}

#[derive(Clone, Copy, Debug, PartialEq, Eq)]
pub enum BinaryOp {
    Add,
    Sub,
    Mul,
    Div,
    Mod,
    Eq,
    Neq,
    Lt,
    Gt,
    Lte,
    Gte,
    And,
    Or,
    Implies,
}

#[derive(Clone, Copy, Debug, PartialEq, Eq)]
pub enum UnaryOp {
    Neg,
    Not,
}

/// The operator of `x += e`, `x -= e`, `x *= e` and `x /= e`.
#[derive(Clone, Copy, Debug, PartialEq, Eq)]
pub enum CompoundOp {
    Add,
    Sub,
    Mul,
    Div,
}

/// Expressions. A real literal keeps the text it was written with.
#[derive(Debug, PartialEq)]
pub enum Expr {
    IntLit(i64),
    RealLit(String),
    BoolLit(bool),
    StringLit(String),
    Ident(String),
    UnaryOp { op: UnaryOp, operand: Box<Spanned<Expr>> },
    BinaryOp { left: Box<Spanned<Expr>>, op: BinaryOp, right: Box<Spanned<Expr>> },
    Old(Box<Spanned<Expr>>),
    EnumVariant { enum_name: String, variant: String },
    FieldAccess { object: Box<Spanned<Expr>>, field: Spanned<String> },
    IndexAccess { object: Box<Spanned<Expr>>, index: Box<Spanned<Expr>> },
    Forall { var: Spanned<String>, domain: Box<Spanned<Expr>>, body: Box<Spanned<Expr>> },
    Exists { var: Spanned<String>, domain: Box<Spanned<Expr>>, body: Box<Spanned<Expr>> },
    FnCall { name: Spanned<String>, args: Vec<Spanned<Expr>> },
    Range { start: Box<Spanned<Expr>>, end: Box<Spanned<Expr>> },
}

#[derive(Debug, PartialEq)]
pub enum MatchPattern {
    Wildcard,
    IntLit(i64),
    BoolLit(bool),
    StringLit(String),
    EnumVariant { enum_name: String, variant: String },
}

#[derive(Debug, PartialEq)]
pub struct MatchArm {
    pub pattern: Spanned<MatchPattern>,
    pub body: Vec<Spanned<Statement>>,
}

#[derive(Debug, PartialEq)]
pub struct Assignment {
    pub target: Spanned<String>,
    pub value: Spanned<Expr>,
}

#[derive(Debug, PartialEq)]
pub enum Statement {
    Assign(Assignment),
    CompoundAssign { target: Spanned<String>, op: CompoundOp, value: Spanned<Expr> },
    If {
        condition: Spanned<Expr>,
        then_body: Vec<Spanned<Statement>>,
        else_body: Option<Vec<Spanned<Statement>>>,
    },
    IndexedAssign { target: Spanned<String>, index: Spanned<Expr>, value: Spanned<Expr> },
    IndexedCompoundAssign {
        target: Spanned<String>,
        index: Spanned<Expr>,
        op: CompoundOp,
        value: Spanned<Expr>,
    },
    Assert { condition: Spanned<Expr> },
    Let { name: Spanned<String>, ty: Option<Spanned<Type>>, value: Spanned<Expr> },
    Match { expr: Spanned<Expr>, arms: Vec<MatchArm> },
}

#[derive(Debug, PartialEq)]
pub struct Emit {
    pub event_name: Spanned<String>,
    pub args: Vec<Spanned<Expr>>,
}

#[derive(Debug, PartialEq)]
pub struct Param {
    pub name: Spanned<String>,
    pub ty: Spanned<Type>,
}

#[derive(Debug, PartialEq)]
pub struct Field {
    pub name: Spanned<String>,
    pub ty: Spanned<Type>,
}

#[derive(Debug, PartialEq)]
pub struct Transition {
    pub name: Spanned<String>,
    pub params: Vec<Param>,
    pub preconditions: Vec<Spanned<Expr>>,
    pub body: Vec<Spanned<Statement>>,
    pub postconditions: Vec<Spanned<Expr>>,
    pub emits: Vec<Spanned<Emit>>,
    pub span: Span,
}

#[derive(Debug, PartialEq)]
pub struct Invariant {
    pub name: Option<Spanned<String>>,
    pub condition: Spanned<Expr>,
    pub span: Span,
}

#[derive(Debug, PartialEq)]
pub struct InitBlock {
    pub assignments: Vec<Assignment>,
    pub span: Span,
}

#[derive(Debug, PartialEq)]
pub struct ConstDef {
    pub name: Spanned<String>,
    pub ty: Spanned<Type>,
    pub value: Spanned<Expr>,
    pub span: Span,
}

#[derive(Debug, PartialEq)]
pub struct StateDef {
    pub name: Spanned<String>,
    pub fields: Vec<Field>,
    pub constants: Vec<ConstDef>,
    pub invariants: Vec<Invariant>,
    pub init: Option<InitBlock>,
    pub transitions: Vec<Transition>,
}

#[derive(Debug, PartialEq)]
pub struct EnumDef {
    pub name: Spanned<String>,
    pub variants: Vec<Spanned<String>>,
}

#[derive(Debug, PartialEq)]
pub struct TypeDef {
    pub name: Spanned<String>,
    pub fields: Vec<Field>,
    pub alias: Option<Spanned<Type>>,
    pub refinement: Option<Spanned<Expr>>,
}

#[derive(Debug, PartialEq)]
pub struct FnDef {
    pub name: Spanned<String>,
    pub params: Vec<Param>,
    pub return_type: Spanned<Type>,
    pub body: Option<Vec<Spanned<Statement>>>,
    pub is_extern: bool,
    pub span: Span,
}

#[derive(Debug, PartialEq)]
pub struct Import {
    pub path: Spanned<String>,
    pub alias: Option<Spanned<String>>,
}

#[derive(Debug, PartialEq)]
pub enum Item {
    Import(Import),
    EnumDef(EnumDef),
    TypeDef(TypeDef),
    ConstDef(ConstDef),
    State(StateDef),
    Function(FnDef),
}

#[derive(Debug, PartialEq)]
pub struct Program {
    pub items: Vec<Spanned<Item>>,
    pub source: String,
}

} // verus!
