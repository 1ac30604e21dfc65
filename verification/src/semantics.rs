//! The meaning of programs, as mathematical functions over the models of
//! values: what an expression evaluates to, what a statement does to the
//! fields and local bindings, and what a transition does to a machine.
use vstd::prelude::*;
use crate::ast::{
    Assignment, BinaryOp, CompoundOp, Emit, Expr, Field, Invariant, MatchArm, MatchPattern, Spanned,
    Statement, Transition, Type, UnaryOp,
};
use crate::error::{OperandKind, RtErr};
use crate::value::Val;
use crate::text::int_text;

verus! {

/// Fields (or locals) by name.
pub type Env = Map<Seq<char>, Val>;

/// A value counts as true when it is `true`, a non-zero integer, or any
/// value that is neither a boolean, an integer nor null.
pub open spec fn truthy(v: Val) -> bool {
    match v {
        Val::Bool(b) => b,
        Val::Int(i) => i != 0,
        Val::Null => false,
        _ => true,
    }
}

/// Evaluation succeeded with a true value.
pub open spec fn is_true(r: Result<Val, RtErr>) -> bool {
    r matches Ok(v) && truthy(v)
}

/// Evaluation succeeded with a value that is not true.
pub open spec fn is_false(r: Result<Val, RtErr>) -> bool {
    r matches Ok(v) && !truthy(v)
}

/// A name is looked up among the locals first, then among the fields.
pub open spec fn lookup(fields: Env, params: Env, name: Seq<char>) -> Option<Val> {
    if params.contains_key(name) {
        Some(params[name])
    } else if fields.contains_key(name) {
        Some(fields[name])
    } else {
        None
    }
}

pub open spec fn unary(op: UnaryOp, v: Val) -> Result<Val, RtErr> {
    match op {
        UnaryOp::Neg => match v {
            Val::Int(x) => if x == i64::MIN { Err(RtErr::Overflow) } else { Ok(Val::Int((-x) as i64)) },
            _ => Err(RtErr::NegateNonNumeric),
        },
        UnaryOp::Not => match v {
            Val::Bool(b) => Ok(Val::Bool(!b)),
            _ => Err(RtErr::NegateNonBoolean),
        },
    }
}

pub open spec fn checked(r: Option<i64>) -> Result<Val, RtErr> {
    match r {
        Some(v) => Ok(Val::Int(v)),
        None => Err(RtErr::Overflow),
    }
}

pub open spec fn int_binary(a: i64, op: BinaryOp, b: i64) -> Result<Val, RtErr> {
    match op {
        BinaryOp::Add => checked(a.checked_add(b)),
        BinaryOp::Sub => checked(a.checked_sub(b)),
        BinaryOp::Mul => checked(a.checked_mul(b)),
        BinaryOp::Div => if b == 0 { Err(RtErr::DivisionByZero) } else { checked(a.checked_div(b)) },
        BinaryOp::Mod => if b == 0 { Err(RtErr::DivisionByZero) } else { checked(a.checked_rem(b)) },
        BinaryOp::Eq => Ok(Val::Bool(a == b)),
        BinaryOp::Neq => Ok(Val::Bool(a != b)),
        BinaryOp::Lt => Ok(Val::Bool(a < b)),
        BinaryOp::Gt => Ok(Val::Bool(a > b)),
        BinaryOp::Lte => Ok(Val::Bool(a <= b)),
        BinaryOp::Gte => Ok(Val::Bool(a >= b)),
        _ => Err(RtErr::InvalidOperator(OperandKind::Integers)),
    }
}

/// Applies a binary operator to two evaluated operands.
pub open spec fn binary(l: Val, op: BinaryOp, r: Val) -> Result<Val, RtErr> {
    match (l, r) {
        (Val::Int(a), Val::Int(b)) => int_binary(a, op, b),
        (Val::Bool(a), Val::Bool(b)) => match op {
            BinaryOp::And => Ok(Val::Bool(a && b)),
            BinaryOp::Or => Ok(Val::Bool(a || b)),
            BinaryOp::Implies => Ok(Val::Bool(!a || b)),
            BinaryOp::Eq => Ok(Val::Bool(a == b)),
            BinaryOp::Neq => Ok(Val::Bool(a != b)),
            _ => Err(RtErr::InvalidOperator(OperandKind::Booleans)),
        },
        (Val::Str(a), Val::Str(b)) => match op {
            BinaryOp::Eq => Ok(Val::Bool(a == b)),
            BinaryOp::Neq => Ok(Val::Bool(a != b)),
            _ => Err(RtErr::InvalidOperator(OperandKind::Strings)),
        },
        (Val::Enum(e1, v1), Val::Enum(e2, v2)) => match op {
            BinaryOp::Eq => Ok(Val::Bool(e1 == e2 && v1 == v2)),
            BinaryOp::Neq => Ok(Val::Bool(e1 != e2 || v1 != v2)),
            _ => Err(RtErr::InvalidOperator(OperandKind::Enums)),
        },
        _ => Err(RtErr::IncompatibleOperands),
    }
}

/// Reads `object[index]`: an array by an in-bounds integer, a map by a string key.
pub open spec fn index_value(object: Val, index: Val) -> Result<Val, RtErr> {
    match (object, index) {
        (Val::Array(items), Val::Int(i)) => if 0 <= i < items.len() {
            Ok(items[i as int])
        } else {
            Err(RtErr::IndexOutOfRange(i))
        },
        (Val::Mapping(m), Val::Str(k)) => if m.contains_key(k) {
            Ok(m[k])
        } else {
            Err(RtErr::KeyNotFound(k))
        },
        _ => Err(RtErr::InvalidIndexAccess),
    }
}

pub open spec fn abs_name() -> Seq<char> { seq!['a', 'b', 's'] }
pub open spec fn min_name() -> Seq<char> { seq!['m', 'i', 'n'] }
pub open spec fn max_name() -> Seq<char> { seq!['m', 'a', 'x'] }

/// The value of an expression, with `params` as the local bindings.
pub open spec fn eval(fields: Env, params: Env, e: Expr) -> Result<Val, RtErr>
    decreases e, 0int,
{
    match e {
        Expr::IntLit(v) => Ok(Val::Int(v)),
        Expr::RealLit(_) => Err(RtErr::UnsupportedReal),
        Expr::BoolLit(b) => Ok(Val::Bool(b)),
        Expr::StringLit(s) => Ok(Val::Str(s@)),
        Expr::Ident(name) => match lookup(fields, params, name@) {
            Some(v) => Ok(v),
            None => Err(RtErr::UndefinedVariable(name@)),
        },
        Expr::UnaryOp { op, operand } => match eval(fields, params, operand.node) {
            Ok(v) => unary(op, v),
            Err(x) => Err(x),
        },
        Expr::BinaryOp { left, op, right } => match eval(fields, params, left.node) {
            Ok(l) => match eval(fields, params, right.node) {
                Ok(r) => binary(l, op, r),
                Err(x) => Err(x),
            },
            Err(x) => Err(x),
        },
        Expr::Old(_) => Err(RtErr::OldOutsidePostcondition),
        Expr::EnumVariant { enum_name, variant } => Ok(Val::Enum(enum_name@, variant@)),
        Expr::FieldAccess { object, field } => match eval(fields, params, object.node) {
            Ok(Val::Record(m)) => if m.contains_key(field.node@) {
                Ok(m[field.node@])
            } else {
                Err(RtErr::FieldNotFound(field.node@))
            },
            Ok(_) => Err(RtErr::NotARecord),
            Err(x) => Err(x),
        },
        Expr::IndexAccess { object, index } => match eval(fields, params, object.node) {
            Ok(o) => match eval(fields, params, index.node) {
                Ok(i) => index_value(o, i),
                Err(x) => Err(x),
            },
            Err(x) => Err(x),
        },
        Expr::Forall { var, domain, body } => match domain.node {
            Expr::Range { start, end } => match eval(fields, params, start.node) {
                Ok(Val::Int(s)) => match eval(fields, params, end.node) {
                    Ok(Val::Int(t)) => eval_forall(fields, params, var.node@, body.node, s as int, t as int),
                    Ok(_) => Err(RtErr::QuantifierBoundNotInt),
                    Err(x) => Err(x),
                },
                Ok(_) => Err(RtErr::QuantifierBoundNotInt),
                Err(x) => Err(x),
            },
            _ => Err(RtErr::QuantifierNeedsRange),
        },
        Expr::Exists { var, domain, body } => match domain.node {
            Expr::Range { start, end } => match eval(fields, params, start.node) {
                Ok(Val::Int(s)) => match eval(fields, params, end.node) {
                    Ok(Val::Int(t)) => eval_exists(fields, params, var.node@, body.node, s as int, t as int),
                    Ok(_) => Err(RtErr::QuantifierBoundNotInt),
                    Err(x) => Err(x),
                },
                Ok(_) => Err(RtErr::QuantifierBoundNotInt),
                Err(x) => Err(x),
            },
            _ => Err(RtErr::QuantifierNeedsRange),
        },
        Expr::FnCall { name, args } => if name.node@ == abs_name() && args@.len() == 1 {
            match eval(fields, params, args@[0].node) {
                Ok(Val::Int(v)) => if v == i64::MIN {
                    Err(RtErr::Overflow)
                } else {
                    Ok(Val::Int(if v < 0 { (-v) as i64 } else { v }))
                },
                Ok(_) => Err(RtErr::BuiltinArgument(abs_name())),
                Err(x) => Err(x),
            }
        } else if (name.node@ == min_name() || name.node@ == max_name()) && args@.len() == 2 {
            match eval(fields, params, args@[0].node) {
                Ok(a) => match eval(fields, params, args@[1].node) {
                    Ok(b) => match (a, b) {
                        (Val::Int(x), Val::Int(y)) => Ok(Val::Int(
                            if name.node@ == min_name() {
                                if x <= y { x } else { y }
                            } else {
                                if x >= y { x } else { y }
                            },
                        )),
                        _ => Err(RtErr::BuiltinArgument(name.node@)),
                    },
                    Err(x) => Err(x),
                },
                Err(x) => Err(x),
            }
        } else {
            Err(RtErr::UnknownFunction(name.node@))
        },
        Expr::Range { .. } => Err(RtErr::UnsupportedExpression),
    }
}

/// `forall var in i..end: body`, checking the bound values in increasing order.
pub open spec fn eval_forall(fields: Env, params: Env, var: Seq<char>, body: Expr, i: int, end: int) -> Result<Val, RtErr>
    decreases body, end - i,
{
    if i >= end {
        Ok(Val::Bool(true))
    } else {
        match eval(fields, params.insert(var, Val::Int(i as i64)), body) {
            Ok(v) => if !truthy(v) {
                Ok(Val::Bool(false))
            } else {
                eval_forall(fields, params, var, body, i + 1, end)
            },
            Err(x) => Err(x),
        }
    }
}

/// `exists var in i..end: body`, checking the bound values in increasing order.
pub open spec fn eval_exists(fields: Env, params: Env, var: Seq<char>, body: Expr, i: int, end: int) -> Result<Val, RtErr>
    decreases body, end - i,
{
    if i >= end {
        Ok(Val::Bool(false))
    } else {
        match eval(fields, params.insert(var, Val::Int(i as i64)), body) {
            Ok(v) => if truthy(v) {
                Ok(Val::Bool(true))
            } else {
                eval_exists(fields, params, var, body, i + 1, end)
            },
            Err(x) => Err(x),
        }
    }
}


/// What running statements leaves behind: the fields, the local bindings,
/// and the error that stopped the run, if one did.
pub struct Exec {
    pub fields: Env,
    pub params: Env,
    pub error: Option<RtErr>,
}

pub open spec fn done(fields: Env, params: Env) -> Exec {
    Exec { fields, params, error: None }
}

pub open spec fn failed(fields: Env, params: Env, x: RtErr) -> Exec {
    Exec { fields, params, error: Some(x) }
}

pub open spec fn true_text() -> Seq<char> { seq!['t', 'r', 'u', 'e'] }
pub open spec fn false_text() -> Seq<char> { seq!['f', 'a', 'l', 's', 'e'] }
pub open spec fn null_text() -> Seq<char> { seq!['n', 'u', 'l', 'l'] }
pub open spec fn path_sep() -> Seq<char> { seq![':', ':'] }

/// The text of a value used as a map key: integers in decimal, booleans as
/// `true`/`false`, strings as themselves, enum values as `Enum::Variant`,
/// null as `null`. Arrays, maps and records give no key.
pub open spec fn key_text(v: Val) -> Option<Seq<char>> {
    match v {
        Val::Int(i) => Some(int_text(i as int)),
        Val::Bool(b) => Some(if b { true_text() } else { false_text() }),
        Val::Str(s) => Some(s),
        Val::Enum(e, x) => Some(e + path_sep() + x),
        Val::Null => Some(null_text()),
        _ => None,
    }
}

/// The value of `current op= rhs`.
pub open spec fn compound(current: Val, op: CompoundOp, rhs: Val) -> Result<Val, RtErr> {
    match (current, rhs) {
        (Val::Int(a), Val::Int(b)) => match op {
            CompoundOp::Add => checked(a.checked_add(b)),
            CompoundOp::Sub => checked(a.checked_sub(b)),
            CompoundOp::Mul => checked(a.checked_mul(b)),
            CompoundOp::Div => if b == 0 { Err(RtErr::DivisionByZero) } else { checked(a.checked_div(b)) },
        },
        _ => Err(RtErr::IncompatibleCompound),
    }
}

/// Whether a match arm's pattern accepts a value. An enum pattern also
/// accepts the string `Enum::Variant` and the bare variant name.
pub open spec fn pattern_matches(v: Val, p: MatchPattern) -> bool {
    match p {
        MatchPattern::Wildcard => true,
        MatchPattern::IntLit(i) => v == Val::Int(i),
        MatchPattern::BoolLit(b) => v == Val::Bool(b),
        MatchPattern::StringLit(s) => v == Val::Str(s@),
        MatchPattern::EnumVariant { enum_name, variant } => {
            ||| v == Val::Enum(enum_name@, variant@)
            ||| v == Val::Str(enum_name@ + path_sep() + variant@)
            ||| v == Val::Str(variant@)
        },
    }
}

/// The current value of a field for `x op= e`: a missing field counts as 0.
pub open spec fn field_or_zero(fields: Env, name: Seq<char>) -> Val {
    if fields.contains_key(name) { fields[name] } else { Val::Int(0) }
}

/// The effect of one statement.
pub open spec fn exec_stmt(fields: Env, params: Env, s: Statement) -> Exec
    decreases s, 0int,
{
    match s {
        Statement::Assign(a) => match eval(fields, params, a.value.node) {
            Ok(v) => done(fields.insert(a.target.node@, v), params),
            Err(x) => failed(fields, params, x),
        },
        Statement::CompoundAssign { target, op, value } => match eval(fields, params, value.node) {
            Ok(rhs) => match compound(field_or_zero(fields, target.node@), op, rhs) {
                Ok(v) => done(fields.insert(target.node@, v), params),
                Err(x) => failed(fields, params, x),
            },
            Err(x) => failed(fields, params, x),
        },
        Statement::If { condition, then_body, else_body } => match eval(fields, params, condition.node) {
            Ok(c) => if truthy(c) {
                exec_block(fields, params, then_body@)
            } else {
                match else_body {
                    Some(b) => exec_block(fields, params, b@),
                    None => done(fields, params),
                }
            },
            Err(x) => failed(fields, params, x),
        },
        Statement::IndexedAssign { target, index, value } => indexed_assign(fields, params, target.node@, index.node, value.node),
        Statement::IndexedCompoundAssign { target, index, op, value } => indexed_compound(fields, params, target.node@, index.node, op, value.node),
        Statement::Assert { condition } => match eval(fields, params, condition.node) {
            Ok(c) => if truthy(c) { done(fields, params) } else { failed(fields, params, RtErr::AssertionFailed) },
            Err(x) => failed(fields, params, x),
        },
        Statement::Let { name, ty: _, value } => match eval(fields, params, value.node) {
            Ok(v) => done(fields, params.insert(name.node@, v)),
            Err(x) => failed(fields, params, x),
        },
        Statement::Match { expr, arms } => match eval(fields, params, expr.node) {
            Ok(v) => exec_arms(fields, params, v, arms@),
            Err(x) => failed(fields, params, x),
        },
    }
}

/// `target[index] = value`: an in-bounds array element or a map entry is
/// replaced; a missing field, or an array indexed by a non-integer, is left alone.
pub open spec fn indexed_assign(fields: Env, params: Env, target: Seq<char>, index: Expr, value: Expr) -> Exec {
    match eval(fields, params, index) {
        Ok(idx) => match eval(fields, params, value) {
            Ok(val) => if !fields.contains_key(target) {
                done(fields, params)
            } else {
                match fields[target] {
                    Val::Array(elems) => match idx {
                        Val::Int(i) => if 0 <= i < elems.len() {
                            done(fields.insert(target, Val::Array(elems.update(i as int, val))), params)
                        } else {
                            failed(fields, params, RtErr::IndexOutOfBounds { index: i, len: elems.len() as usize })
                        },
                        _ => done(fields, params),
                    },
                    Val::Mapping(m) => match key_text(idx) {
                        Some(k) => done(fields.insert(target, Val::Mapping(m.insert(k, val))), params),
                        None => failed(fields, params, RtErr::InvalidMapKey),
                    },
                    _ => failed(fields, params, RtErr::CannotIndexInto),
                }
            },
            Err(x) => failed(fields, params, x),
        },
        Err(x) => failed(fields, params, x),
    }
}

/// `target[index] op= value`: a missing map entry counts as 0.
pub open spec fn indexed_compound(fields: Env, params: Env, target: Seq<char>, index: Expr, op: CompoundOp, value: Expr) -> Exec {
    match eval(fields, params, index) {
        Ok(idx) => match eval(fields, params, value) {
            Ok(rhs) => if !fields.contains_key(target) {
                done(fields, params)
            } else {
                match fields[target] {
                    Val::Array(elems) => match idx {
                        Val::Int(i) => if 0 <= i < elems.len() {
                            match compound(elems[i as int], op, rhs) {
                                Ok(v) => done(fields.insert(target, Val::Array(elems.update(i as int, v))), params),
                                Err(x) => failed(fields, params, x),
                            }
                        } else {
                            failed(fields, params, RtErr::IndexOutOfBounds { index: i, len: elems.len() as usize })
                        },
                        _ => done(fields, params),
                    },
                    Val::Mapping(m) => match key_text(idx) {
                        Some(k) => match compound(field_or_zero(m, k), op, rhs) {
                            Ok(v) => done(fields.insert(target, Val::Mapping(m.insert(k, v))), params),
                            Err(x) => failed(fields, params, x),
                        },
                        None => failed(fields, params, RtErr::InvalidMapKey),
                    },
                    _ => failed(fields, params, RtErr::CannotIndexInto),
                }
            },
            Err(x) => failed(fields, params, x),
        },
        Err(x) => failed(fields, params, x),
    }
}

/// The effect of a list of statements run in order, stopping at the first error.
pub open spec fn exec_block(fields: Env, params: Env, b: Seq<Spanned<Statement>>) -> Exec
    decreases b, 1int,
{
    if b.len() == 0 {
        done(fields, params)
    } else {
        let r = exec_stmt(fields, params, b[0].node);
        if r.error is Some {
            r
        } else {
            exec_block(r.fields, r.params, b.drop_first())
        }
    }
}

/// Runs the body of the first arm whose pattern accepts `v`.
pub open spec fn exec_arms(fields: Env, params: Env, v: Val, arms: Seq<MatchArm>) -> Exec
    decreases arms, 1int,
{
    if arms.len() == 0 {
        failed(fields, params, RtErr::NonExhaustiveMatch)
    } else if pattern_matches(v, arms[0].pattern.node) {
        exec_block(fields, params, arms[0].body@)
    } else {
        exec_arms(fields, params, v, arms.drop_first())
    }
}


/// The value of a postcondition: `old(e)` reads `e` with the fields as they
/// were before the transition (they shadow the locals); `&&`-like binary
/// operators combine the values of their sides; anything else is read in
/// the current state.
pub open spec fn eval_post(fields: Env, pre: Env, params: Env, e: Expr) -> Result<Val, RtErr>
    decreases e,
{
    match e {
        Expr::Old(inner) => eval(fields, params.union_prefer_right(pre), inner.node),
        Expr::BinaryOp { left, op, right } => match eval_post(fields, pre, params, left.node) {
            Ok(l) => match eval_post(fields, pre, params, right.node) {
                Ok(r) => binary(l, op, r),
                Err(x) => Err(x),
            },
            Err(x) => Err(x),
        },
        _ => eval(fields, params, e),
    }
}

/// The first failing precondition, in order: its error, or `PreconditionFailed`
/// when it evaluates to a false value.
pub open spec fn check_pre(fields: Env, params: Env, pres: Seq<Spanned<Expr>>, name: Seq<char>) -> Option<RtErr>
    decreases pres.len(),
{
    if pres.len() == 0 {
        None
    } else {
        match eval(fields, params, pres[0].node) {
            Ok(v) => if !truthy(v) {
                Some(RtErr::PreconditionFailed(name))
            } else {
                check_pre(fields, params, pres.drop_first(), name)
            },
            Err(x) => Some(x),
        }
    }
}

/// The values of a list of expressions, or the first error.
pub open spec fn eval_list(fields: Env, params: Env, es: Seq<Spanned<Expr>>) -> Result<Seq<Val>, RtErr>
    decreases es.len(),
{
    if es.len() == 0 {
        Ok(Seq::empty())
    } else {
        match eval(fields, params, es[0].node) {
            Ok(v) => match eval_list(fields, params, es.drop_first()) {
                Ok(vs) => Ok(seq![v] + vs),
                Err(x) => Err(x),
            },
            Err(x) => Err(x),
        }
    }
}

/// The events of a list of emit clauses, or the first error.
pub open spec fn eval_emits(fields: Env, params: Env, emits: Seq<Spanned<Emit>>) -> Result<Seq<(Seq<char>, Seq<Val>)>, RtErr>
    decreases emits.len(),
{
    if emits.len() == 0 {
        Ok(Seq::empty())
    } else {
        match eval_list(fields, params, emits[0].node.args@) {
            Ok(args) => match eval_emits(fields, params, emits.drop_first()) {
                Ok(rest) => Ok(seq![(emits[0].node.event_name.node@, args)] + rest),
                Err(x) => Err(x),
            },
            Err(x) => Err(x),
        }
    }
}

/// The first failing postcondition, in order.
pub open spec fn check_post(fields: Env, pre: Env, params: Env, posts: Seq<Spanned<Expr>>, name: Seq<char>) -> Option<RtErr>
    decreases posts.len(),
{
    if posts.len() == 0 {
        None
    } else {
        match eval_post(fields, pre, params, posts[0].node) {
            Ok(v) => if !truthy(v) {
                Some(RtErr::PostconditionFailed(name))
            } else {
                check_post(fields, pre, params, posts.drop_first(), name)
            },
            Err(x) => Some(x),
        }
    }
}

pub open spec fn invariant_prefix() -> Seq<char> {
    seq!['i', 'n', 'v', 'a', 'r', 'i', 'a', 'n', 't', '_']
}

/// The name an invariant is reported under: its own, or `invariant_<i>`
/// for the `i`-th invariant of its state when it has none.
pub open spec fn invariant_label(inv: Invariant, i: int) -> Seq<char> {
    match inv.name {
        Some(n) => n.node@,
        None => invariant_prefix() + int_text(i),
    }
}

/// The first invariant, from position `i` on, that fails in `fields`.
pub open spec fn check_invariants(fields: Env, invs: Seq<Invariant>, i: int, name: Seq<char>) -> Option<RtErr>
    decreases invs.len() - i,
{
    if i < 0 || i >= invs.len() {
        None
    } else {
        match eval(fields, Map::empty(), invs[i].condition.node) {
            Ok(v) => if !truthy(v) {
                Some(RtErr::InvariantViolated { invariant_name: invariant_label(invs[i], i), transition_name: name })
            } else {
                check_invariants(fields, invs, i + 1, name)
            },
            Err(x) => Some(x),
        }
    }
}

/// What a transition does: the fields it leaves and what it returns.
pub struct Step {
    pub fields: Env,
    pub result: Result<Seq<(Seq<char>, Seq<Val>)>, RtErr>,
}

/// Runs a transition from `fields` with `args` as its arguments:
/// preconditions, body, emitted events, postconditions, then the invariants.
/// A failing precondition changes nothing; a later failure keeps what the
/// body wrote.
pub open spec fn run_transition(fields: Env, t: Transition, args: Env, invs: Seq<Invariant>) -> Step {
    let name = t.name.node@;
    match check_pre(fields, args, t.preconditions@, name) {
        Some(x) => Step { fields, result: Err(x) },
        None => {
            let b = exec_block(fields, args, t.body@);
            match b.error {
                Some(x) => Step { fields: b.fields, result: Err(x) },
                None => match eval_emits(b.fields, b.params, t.emits@) {
                    Err(x) => Step { fields: b.fields, result: Err(x) },
                    Ok(events) => match check_post(b.fields, fields, b.params, t.postconditions@, name) {
                        Some(x) => Step { fields: b.fields, result: Err(x) },
                        None => match check_invariants(b.fields, invs, 0, name) {
                            Some(x) => Step { fields: b.fields, result: Err(x) },
                            None => Step { fields: b.fields, result: Ok(events) },
                        },
                    },
                },
            }
        },
    }
}

/// The value a field of type `t` starts with; real-valued types have none here.
pub open spec fn default_value(t: Type) -> Option<Val>
    decreases t,
{
    match t {
        Type::Int => Some(Val::Int(0)),
        Type::Real => None,
        Type::Bool => Some(Val::Bool(false)),
        Type::String => Some(Val::Str(Seq::empty())),
        Type::Array { element, size } => match default_value(*element) {
            Some(d) => Some(Val::Array(Seq::new(size as nat, |_i: int| d))),
            None => None,
        },
        Type::Mapping { .. } => Some(Val::Mapping(Map::empty())),
        Type::Enum(_) | Type::Named(_) => Some(Val::Null),
    }
}

/// The fields after each of `fs` is set to its type's starting value, in
/// order, stopping at the first that has none.
pub open spec fn set_defaults(fields: Env, fs: Seq<Field>) -> Exec
    decreases fs.len(),
{
    if fs.len() == 0 {
        done(fields, Map::empty())
    } else {
        match default_value(fs[0].ty.node) {
            Some(d) => set_defaults(fields.insert(fs[0].name.node@, d), fs.drop_first()),
            None => failed(fields, Map::empty(), RtErr::UnsupportedReal),
        }
    }
}

/// The fields after the assignments of an init block, in order, each read
/// with no local bindings, stopping at the first error.
pub open spec fn run_assignments(fields: Env, assigns: Seq<Assignment>) -> Exec
    decreases assigns.len(),
{
    if assigns.len() == 0 {
        done(fields, Map::empty())
    } else {
        match eval(fields, Map::empty(), assigns[0].value.node) {
            Ok(v) => run_assignments(fields.insert(assigns[0].target.node@, v), assigns.drop_first()),
            Err(x) => failed(fields, Map::empty(), x),
        }
    }
}

} // verus!
