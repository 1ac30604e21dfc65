//! The interpreter: runs constants, init blocks and transitions of a state
//! machine against its fields, as `semantics` says they behave.
use vstd::prelude::*;
use crate::ast::{
    BinaryOp, CompoundOp, ConstDef, Emit, Expr, InitBlock, Invariant, MatchArm, MatchPattern, Spanned, StateDef,
    Statement, Transition, Type, UnaryOp,
};
use crate::error::{OperandKind, RtErr, RuntimeError};
use crate::semantics::{
    abs_name, binary, check_invariants, check_post, check_pre, compound, default_value, eval,
    eval_emits, eval_exists, eval_forall, eval_list, eval_post, exec_arms, exec_block, exec_stmt,
    index_value, indexed_assign, indexed_compound, int_binary, invariant_label, key_text, max_name, min_name,
    pattern_matches, run_assignments, run_transition, set_defaults, truthy, unary, Env, Exec,
};
use crate::state::{event_view, events_view, history_view, RuntimeEvent, RuntimeState};
use crate::text::{concat2, concat3, int_to_text, usize_to_text};
use crate::value::{
    lemma_values_view, lemma_values_view_push, lemma_values_view_update, value_view, values_view,
    Val, Value, ValueMap,
};

verus! {

/// The model of an evaluation result.
pub open spec fn result_view(r: Result<Value, RuntimeError>) -> Result<Val, RtErr> {
    match r {
        Ok(v) => Ok(v@),
        Err(e) => Err(e@),
    }
}

/// Whether `s` holds exactly the characters of `lit`.
fn is_named(s: &String, lit: &str) -> (r: bool)
    ensures
        r == (s@ == lit@),
{
    *s == String::from_str(lit)
}

/// Whether a value counts as true; see [`truthy`].
pub fn is_truthy(v: &Value) -> (r: bool)
    ensures
        r == truthy(v@),
{
    match v {
        Value::Bool(b) => *b,
        Value::Int(i) => *i != 0,
        Value::Null => false,
        _ => true,
    }
}

/// The text of a value used as a map key; see [`key_text`].
pub fn value_key(v: &Value) -> (r: Option<String>)
    ensures
        match r {
            Some(s) => key_text(v@) == Some(s@),
            None => key_text(v@) is None,
        },
{
    match v {
        Value::Int(i) => Some(int_to_text(*i)),
        Value::Bool(b) => {
            if *b {
                proof { reveal_strlit("true"); }
                Some(String::from_str("true"))
            } else {
                proof { reveal_strlit("false"); }
                Some(String::from_str("false"))
            }
        },
        Value::String(s) => Some(s.clone()),
        Value::Enum { enum_name, variant } => {
            proof { reveal_strlit("::"); }
            Some(concat3(enum_name.as_str(), "::", variant.as_str()))
        },
        Value::Null => {
            proof { reveal_strlit("null"); }
            Some(String::from_str("null"))
        },
        _ => None,
    }
}

/// A copy of each value of a list.
fn copy_values(vs: &Vec<Value>) -> (r: Vec<Value>)
    ensures
        values_view(r@) == values_view(vs@),
{
    let mut out: Vec<Value> = Vec::new();
    let mut i: usize = 0;
    while i < vs.len()
        invariant
            i <= vs@.len(),
            values_view(out@) == values_view(vs@.take(i as int)),
        decreases vs@.len() - i,
    {
        let v = vs[i].duplicate();
        proof {
            lemma_values_view_push(out@, v);
            assert(vs@.take(i + 1) =~= vs@.take(i as int).push(vs@[i as int]));
            lemma_values_view_push(vs@.take(i as int), vs@[i as int]);
        }
        out.push(v);
        i = i + 1;
    }
    proof {
        assert(vs@.take(vs@.len() as int) =~= vs@);
    }
    out
}

/// Whether a run of statements left `fields` and `params` as `x` says, and
/// returned the error that `x` records.
pub open spec fn matches_exec(fields: Env, params: Env, r: Result<(), RuntimeError>, x: Exec) -> bool {
    &&& fields == x.fields
    &&& params == x.params
    &&& match r {
        Ok(_) => x.error is None,
        Err(e) => x.error == Some(e@),
    }
}

/// Whether a run left `fields` as `x` says and returned the error `x` records.
pub open spec fn matches_outcome(fields: Env, r: Result<(), RuntimeError>, x: Exec) -> bool {
    &&& fields == x.fields
    &&& match r {
        Ok(_) => x.error is None,
        Err(e) => x.error == Some(e@),
    }
}

/// A copy of each event of a list.
fn copy_events(es: &Vec<RuntimeEvent>) -> (r: Vec<RuntimeEvent>)
    ensures
        events_view(r@) == events_view(es@),
{
    let mut out: Vec<RuntimeEvent> = Vec::new();
    let mut i: usize = 0;
    while i < es.len()
        invariant
            i <= es@.len(),
            events_view(out@) == events_view(es@.take(i as int)),
        decreases es@.len() - i,
    {
        let ev = RuntimeEvent { name: es[i].name.clone(), args: copy_values(&es[i].args) };
        assert(event_view(ev) == event_view(es@[i as int]));
        let ghost prev = out@;
        out.push(ev);
        proof {
            assert(events_view(out@) =~= events_view(prev).push(event_view(ev)));
            assert(es@.take(i + 1) =~= es@.take(i as int).push(es@[i as int]));
            assert(events_view(es@.take(i + 1)) =~= events_view(es@.take(i as int)).push(event_view(es@[i as int])));
        }
        i = i + 1;
    }
    proof {
        assert(es@.take(es@.len() as int) =~= es@);
    }
    out
}

/// A running state machine.
pub struct Engine {
    state: RuntimeState,
}

impl Engine {
    /// The fields of the machine.
    pub closed spec fn spec_fields(&self) -> Env {
        self.state.fields@
    }

    /// The name of the machine.
    pub closed spec fn spec_name(&self) -> Seq<char> {
        self.state.name@
    }

    /// The transitions taken so far: name, fields before, events emitted.
    pub closed spec fn spec_history(&self) -> Seq<(Seq<char>, Env, Seq<(Seq<char>, Seq<Val>)>)> {
        history_view(self.state.history@)
    }

    pub fn new(state_name: &str) -> (e: Engine)
        ensures
            e.spec_name() == state_name@,
            e.spec_fields() == Map::<Seq<char>, Val>::empty(),
            e.spec_history().len() == 0,
    {
        Engine { state: RuntimeState::new(String::from_str(state_name)) }
    }

    /// The state: its name, fields and history.
    pub fn get_state(&self) -> (s: &RuntimeState)
        ensures
            s.name@ == self.spec_name(),
            s.fields@ == self.spec_fields(),
            history_view(s.history@) == self.spec_history(),
    {
        &self.state
    }

    /// The current value of a field.
    pub fn get_field(&self, name: &str) -> (r: Option<&Value>)
        ensures
            match r {
                Some(v) => self.spec_fields().contains_key(name@) && v@ == self.spec_fields()[name@],
                None => !self.spec_fields().contains_key(name@),
            },
    {
        self.state.get(name)
    }

    /// Evaluates an expression with no local bindings.
    pub fn eval_expr(&self, expr: &Spanned<Expr>) -> (r: Result<Value, RuntimeError>)
        ensures
            result_view(r) == eval(self.spec_fields(), Map::empty(), expr.node),
    {
        let empty = ValueMap::new();
        self.eval_expr_with_params(expr, &empty)
    }

    fn eval_unary(&self, op: UnaryOp, v: Value) -> (r: Result<Value, RuntimeError>)
        ensures
            result_view(r) == unary(op, v@),
    {
        match op {
            UnaryOp::Neg => match v {
                Value::Int(x) => if x == i64::MIN {
                    Err(RuntimeError::Overflow)
                } else {
                    Ok(Value::Int(-x))
                },
                _ => Err(RuntimeError::NegateNonNumeric),
            },
            UnaryOp::Not => match v {
                Value::Bool(b) => Ok(Value::Bool(!b)),
                _ => Err(RuntimeError::NegateNonBoolean),
            },
        }
    }

    fn int_op(a: i64, op: BinaryOp, b: i64) -> (r: Result<Value, RuntimeError>)
        ensures
            result_view(r) == int_binary(a, op, b),
    {
        match op {
            BinaryOp::Add => match a.checked_add(b) {
                Some(v) => Ok(Value::Int(v)),
                None => Err(RuntimeError::Overflow),
            },
            BinaryOp::Sub => match a.checked_sub(b) {
                Some(v) => Ok(Value::Int(v)),
                None => Err(RuntimeError::Overflow),
            },
            BinaryOp::Mul => match a.checked_mul(b) {
                Some(v) => Ok(Value::Int(v)),
                None => Err(RuntimeError::Overflow),
            },
            BinaryOp::Div => if b == 0 {
                Err(RuntimeError::DivisionByZero)
            } else {
                match a.checked_div(b) {
                    Some(v) => Ok(Value::Int(v)),
                    None => Err(RuntimeError::Overflow),
                }
            },
            BinaryOp::Mod => if b == 0 {
                Err(RuntimeError::DivisionByZero)
            } else {
                match a.checked_rem(b) {
                    Some(v) => Ok(Value::Int(v)),
                    None => Err(RuntimeError::Overflow),
                }
            },
            BinaryOp::Eq => Ok(Value::Bool(a == b)),
            BinaryOp::Neq => Ok(Value::Bool(a != b)),
            BinaryOp::Lt => Ok(Value::Bool(a < b)),
            BinaryOp::Gt => Ok(Value::Bool(a > b)),
            BinaryOp::Lte => Ok(Value::Bool(a <= b)),
            BinaryOp::Gte => Ok(Value::Bool(a >= b)),
            _ => Err(RuntimeError::InvalidOperator(OperandKind::Integers)),
        }
    }

    /// Applies a binary operator to two evaluated operands; see [`binary`].
    pub fn eval_binary_op(&self, left: &Value, op: BinaryOp, right: &Value) -> (r: Result<Value, RuntimeError>)
        ensures
            result_view(r) == binary(left@, op, right@),
    {
        match (left, right) {
            (Value::Int(a), Value::Int(b)) => Self::int_op(*a, op, *b),
            (Value::Bool(a), Value::Bool(b)) => match op {
                BinaryOp::And => Ok(Value::Bool(*a && *b)),
                BinaryOp::Or => Ok(Value::Bool(*a || *b)),
                BinaryOp::Implies => Ok(Value::Bool(!*a || *b)),
                BinaryOp::Eq => Ok(Value::Bool(*a == *b)),
                BinaryOp::Neq => Ok(Value::Bool(*a != *b)),
                _ => Err(RuntimeError::InvalidOperator(OperandKind::Booleans)),
            },
            (Value::String(a), Value::String(b)) => match op {
                BinaryOp::Eq => Ok(Value::Bool(*a == *b)),
                BinaryOp::Neq => Ok(Value::Bool(!(*a == *b))),
                _ => Err(RuntimeError::InvalidOperator(OperandKind::Strings)),
            },
            (
                Value::Enum { enum_name: e1, variant: v1 },
                Value::Enum { enum_name: e2, variant: v2 },
            ) => match op {
                BinaryOp::Eq => Ok(Value::Bool(*e1 == *e2 && *v1 == *v2)),
                BinaryOp::Neq => Ok(Value::Bool(!(*e1 == *e2) || !(*v1 == *v2))),
                _ => Err(RuntimeError::InvalidOperator(OperandKind::Enums)),
            },
            _ => Err(RuntimeError::IncompatibleOperands),
        }
    }

    /// Reads `object[index]`; see [`index_value`].
    fn index_into(object: &Value, index: &Value) -> (r: Result<Value, RuntimeError>)
        ensures
            result_view(r) == index_value(object@, index@),
    {
        match (object, index) {
            (Value::Array(items), Value::Int(i)) => {
                proof {
                    lemma_values_view(items@);
                }
                assert(object@ == Val::Array(values_view(items@)));
                if *i >= 0 && (*i as u64) < (items.len() as u64) {
                    let k = *i as usize;
                    let r = items[k].duplicate();
                    assert(k as int == *i as int);
                    assert(r@ == value_view(items@[k as int]));
                    assert(r@ == values_view(items@)[*i as int]);
                    Ok(r)
                } else {
                    Err(RuntimeError::IndexOutOfRange(*i))
                }
            },
            (Value::Mapping(m), Value::String(key)) => match m.get_by(key) {
                Some(v) => Ok(v.duplicate()),
                None => Err(RuntimeError::KeyNotFound(key.clone())),
            },
            _ => Err(RuntimeError::InvalidIndexAccess),
        }
    }

    /// Evaluates an expression with `params` as the local bindings.
    fn eval_expr_with_params(&self, expr: &Spanned<Expr>, params: &ValueMap) -> (r: Result<Value, RuntimeError>)
        ensures
            result_view(r) == eval(self.spec_fields(), params@, expr.node),
        decreases expr.node, 0int,
    {
        match &expr.node {
            Expr::IntLit(v) => Ok(Value::Int(*v)),
            Expr::RealLit(_) => Err(RuntimeError::UnsupportedReal),
            Expr::BoolLit(b) => Ok(Value::Bool(*b)),
            Expr::StringLit(s) => Ok(Value::String(s.clone())),
            Expr::Ident(name) => {
                match params.get_by(name) {
                    Some(v) => Ok(v.duplicate()),
                    None => match self.state.fields.get_by(name) {
                        Some(v) => Ok(v.duplicate()),
                        None => Err(RuntimeError::UndefinedVariable(name.clone())),
                    },
                }
            },
            Expr::UnaryOp { op, operand } => {
                let v = self.eval_expr_with_params(operand, params)?;
                self.eval_unary(*op, v)
            },
            Expr::BinaryOp { left, op, right } => {
                let l = self.eval_expr_with_params(left, params)?;
                let r = self.eval_expr_with_params(right, params)?;
                self.eval_binary_op(&l, *op, &r)
            },
            Expr::Old(_) => Err(RuntimeError::OldOutsidePostcondition),
            Expr::EnumVariant { enum_name, variant } => Ok(Value::Enum {
                enum_name: enum_name.clone(),
                variant: variant.clone(),
            }),
            Expr::FieldAccess { object, field } => {
                let obj = self.eval_expr_with_params(object, params)?;
                match obj {
                    Value::Record(fields) => match fields.get_by(&field.node) {
                        Some(v) => Ok(v.duplicate()),
                        None => Err(RuntimeError::FieldNotFound(field.node.clone())),
                    },
                    _ => Err(RuntimeError::NotARecord),
                }
            },
            Expr::IndexAccess { object, index } => {
                let obj = self.eval_expr_with_params(object, params)?;
                let idx = self.eval_expr_with_params(index, params)?;
                Self::index_into(&obj, &idx)
            },
            Expr::Forall { var, domain, body } => {
                match &domain.node {
                    Expr::Range { start, end } => {
                        let s = match self.eval_expr_with_params(start, params)? {
                            Value::Int(s) => s,
                            _ => return Err(RuntimeError::QuantifierBoundNotInt),
                        };
                        let e = match self.eval_expr_with_params(end, params)? {
                            Value::Int(e) => e,
                            _ => return Err(RuntimeError::QuantifierBoundNotInt),
                        };
                        self.eval_quantifier(var, body, params, s, e, true)
                    },
                    _ => Err(RuntimeError::QuantifierNeedsRange),
                }
            },
            Expr::Exists { var, domain, body } => {
                match &domain.node {
                    Expr::Range { start, end } => {
                        let s = match self.eval_expr_with_params(start, params)? {
                            Value::Int(s) => s,
                            _ => return Err(RuntimeError::QuantifierBoundNotInt),
                        };
                        let e = match self.eval_expr_with_params(end, params)? {
                            Value::Int(e) => e,
                            _ => return Err(RuntimeError::QuantifierBoundNotInt),
                        };
                        self.eval_quantifier(var, body, params, s, e, false)
                    },
                    _ => Err(RuntimeError::QuantifierNeedsRange),
                }
            },
            Expr::FnCall { name, args } => self.eval_builtin_call(&name.node, args, params),
            Expr::Range { .. } => Err(RuntimeError::UnsupportedExpression),
        }
    }

    /// `forall`/`exists` over the integers `s..e`, in increasing order.
    fn eval_quantifier(
        &self,
        var: &Spanned<String>,
        body: &Box<Spanned<Expr>>,
        params: &ValueMap,
        s: i64,
        e: i64,
        universal: bool,
    ) -> (r: Result<Value, RuntimeError>)
        ensures
            universal ==> result_view(r) == eval_forall(self.spec_fields(), params@, var.node@, body.node, s as int, e as int),
            !universal ==> result_view(r) == eval_exists(self.spec_fields(), params@, var.node@, body.node, s as int, e as int),
        decreases body.node, 1int,
    {
        let mut i = s;
        while i < e
            invariant
                s <= i || s >= e,
                universal ==> eval_forall(self.spec_fields(), params@, var.node@, body.node, s as int, e as int)
                    == eval_forall(self.spec_fields(), params@, var.node@, body.node, i as int, e as int),
                !universal ==> eval_exists(self.spec_fields(), params@, var.node@, body.node, s as int, e as int)
                    == eval_exists(self.spec_fields(), params@, var.node@, body.node, i as int, e as int),
            decreases e - i,
        {
            let mut inner = params.duplicate();
            inner.insert(var.node.clone(), Value::Int(i));
            let v = self.eval_expr_with_params(body, &inner)?;
            let t = is_truthy(&v);
            if universal && !t {
                return Ok(Value::Bool(false));
            }
            if !universal && t {
                return Ok(Value::Bool(true));
            }
            i = i + 1;
        }
        Ok(Value::Bool(universal))
    }

    /// `abs(x)`, `min(x, y)` and `max(x, y)` over integers.
    fn eval_builtin_call(&self, name: &String, args: &Vec<Spanned<Expr>>, params: &ValueMap) -> (r: Result<Value, RuntimeError>)
        ensures
            result_view(r) == eval(self.spec_fields(), params@, Expr::FnCall { name: Spanned { node: *name, span: arbitrary() }, args: *args }),
        decreases args@, 2int,
    {
        proof {
            reveal_strlit("abs");
            reveal_strlit("min");
            reveal_strlit("max");
            assert("abs"@ =~= abs_name());
            assert("min"@ =~= min_name());
            assert("max"@ =~= max_name());
        }
        let is_abs = is_named(name, "abs");
        let is_min = is_named(name, "min");
        let is_max = is_named(name, "max");
        if is_abs && args.len() == 1 {
            let val = self.eval_expr_with_params(&args[0], params)?;
            match val {
                Value::Int(v) => if v == i64::MIN {
                    Err(RuntimeError::Overflow)
                } else if v < 0 {
                    Ok(Value::Int(-v))
                } else {
                    Ok(Value::Int(v))
                },
                _ => Err(RuntimeError::BuiltinArgument(String::from_str("abs"))),
            }
        } else if (is_min || is_max) && args.len() == 2 {
            let a = self.eval_expr_with_params(&args[0], params)?;
            let b = self.eval_expr_with_params(&args[1], params)?;
            match (&a, &b) {
                (Value::Int(x), Value::Int(y)) => {
                    if is_min {
                        Ok(Value::Int(if *x <= *y { *x } else { *y }))
                    } else {
                        Ok(Value::Int(if *x >= *y { *x } else { *y }))
                    }
                },
                _ => Err(RuntimeError::BuiltinArgument(name.clone())),
            }
        } else {
            Err(RuntimeError::UnknownFunction(name.clone()))
        }
    }

    /// The value of `current op= rhs`; see [`compound`].
    pub fn apply_compound_op(&self, current: &Value, op: CompoundOp, rhs: &Value) -> (r: Result<Value, RuntimeError>)
        ensures
            result_view(r) == compound(current@, op, rhs@),
    {
        match (current, rhs) {
            (Value::Int(a), Value::Int(b)) => match op {
                CompoundOp::Add => Self::int_op(*a, BinaryOp::Add, *b),
                CompoundOp::Sub => Self::int_op(*a, BinaryOp::Sub, *b),
                CompoundOp::Mul => Self::int_op(*a, BinaryOp::Mul, *b),
                CompoundOp::Div => Self::int_op(*a, BinaryOp::Div, *b),
            },
            _ => Err(RuntimeError::IncompatibleCompound),
        }
    }

    /// Whether a match arm's pattern accepts a value; see [`pattern_matches`].
    fn match_pattern_runtime(&self, value: &Value, pattern: &MatchPattern) -> (r: bool)
        ensures
            r == pattern_matches(value@, *pattern),
    {
        match pattern {
            MatchPattern::Wildcard => true,
            MatchPattern::IntLit(v) => match value {
                Value::Int(i) => *i == *v,
                _ => false,
            },
            MatchPattern::BoolLit(v) => match value {
                Value::Bool(b) => *b == *v,
                _ => false,
            },
            MatchPattern::StringLit(v) => match value {
                Value::String(s) => *s == *v,
                _ => false,
            },
            MatchPattern::EnumVariant { enum_name, variant } => match value {
                Value::Enum { enum_name: en, variant: vr } => {
                    let r = *en == *enum_name && *vr == *variant;
                    proof {
                        if !r {
                            assert(en@ != enum_name@ || vr@ != variant@);
                        }
                    }
                    r
                },
                Value::String(s) => {
                    proof { reveal_strlit("::"); assert("::"@ =~= crate::semantics::path_sep()); }
                    let qualified = concat3(enum_name.as_str(), "::", variant.as_str());
                    *s == qualified || *s == *variant
                },
                _ => false,
            },
        }
    }

    /// Runs statements in order, stopping at the first error; see [`exec_block`].
    fn exec_statements(&mut self, stmts: &Vec<Spanned<Statement>>, params: &mut ValueMap) -> (r: Result<(), RuntimeError>)
        ensures
            matches_exec(final(self).spec_fields(), final(params)@, r, exec_block(old(self).spec_fields(), old(params)@, stmts@)),
            final(self).state.name == old(self).state.name,
            final(self).state.history == old(self).state.history,
        decreases stmts@, 1int,
    {
        let ghost f0 = self.spec_fields();
        let ghost p0 = params@;
        proof {
            assert(stmts@.skip(0) =~= stmts@);
        }
        let mut i: usize = 0;
        while i < stmts.len()
            invariant
                i <= stmts@.len(),
                f0 == old(self).spec_fields(),
                p0 == old(params)@,
                exec_block(f0, p0, stmts@) == exec_block(self.spec_fields(), params@, stmts@.skip(i as int)),
                self.state.name == old(self).state.name,
                self.state.history == old(self).state.history,
            decreases stmts@.len() - i,
        {
            proof {
                assert(stmts@.skip(i as int)[0] == stmts@[i as int]);
                assert(stmts@.skip(i as int).drop_first() =~= stmts@.skip(i + 1));
            }
            let ghost cf = self.spec_fields();
            let ghost cp = params@;
            let step = self.exec_statement(&stmts[i], params);
            proof {
                let x = exec_stmt(cf, cp, stmts@[i as int].node);
                assert(exec_block(cf, cp, stmts@.skip(i as int)) == if x.error is Some {
                    x
                } else {
                    exec_block(x.fields, x.params, stmts@.skip(i as int).drop_first())
                });
            }
            if step.is_err() {
                return step;
            }
            i = i + 1;
        }
        Ok(())
    }

    /// Runs the body of the first arm that accepts `subject`; see [`exec_arms`].
    fn exec_match_arms(&mut self, subject: &Value, arms: &Vec<MatchArm>, params: &mut ValueMap) -> (r: Result<(), RuntimeError>)
        ensures
            matches_exec(final(self).spec_fields(), final(params)@, r, exec_arms(old(self).spec_fields(), old(params)@, subject@, arms@)),
            final(self).state.name == old(self).state.name,
            final(self).state.history == old(self).state.history,
        decreases arms@, 2int,
    {
        let ghost f0 = self.spec_fields();
        let ghost p0 = params@;
        proof {
            assert(arms@.skip(0) =~= arms@);
        }
        let mut i: usize = 0;
        while i < arms.len()
            invariant
                i <= arms@.len(),
                f0 == old(self).spec_fields(),
                p0 == old(params)@,
                self.spec_fields() == f0,
                params@ == p0,
                self.state.name == old(self).state.name,
                self.state.history == old(self).state.history,
                exec_arms(f0, p0, subject@, arms@) == exec_arms(f0, p0, subject@, arms@.skip(i as int)),
            decreases arms@.len() - i,
        {
            proof {
                assert(arms@.skip(i as int)[0] == arms@[i as int]);
                assert(arms@.skip(i as int).drop_first() =~= arms@.skip(i + 1));
            }
            if self.match_pattern_runtime(subject, &arms[i].pattern.node) {
                proof {
                    assert(exec_arms(f0, p0, subject@, arms@.skip(i as int)) == exec_block(f0, p0, arms@[i as int].body@));
                }
                return self.exec_statements(&arms[i].body, params);
            }
            i = i + 1;
        }
        Err(RuntimeError::NonExhaustiveMatch)
    }

    /// `target[index] = value`; see [`indexed_assign`].
    fn exec_indexed_assign(&mut self, target: &String, index: &Spanned<Expr>, value: &Spanned<Expr>, params: &ValueMap) -> (r: Result<(), RuntimeError>)
        ensures
            matches_exec(final(self).spec_fields(), params@, r, indexed_assign(old(self).spec_fields(), params@, target@, index.node, value.node)),
            final(self).state.name == old(self).state.name,
            final(self).state.history == old(self).state.history,
    {
        let idx = self.eval_expr_with_params(index, params)?;
        let val = self.eval_expr_with_params(value, params)?;
        let arr = match self.state.get(target) {
            Some(a) => a.duplicate(),
            None => return Ok(()),
        };
        match arr {
            Value::Array(mut elems) => match idx {
                Value::Int(i) => {
                    proof {
                        lemma_values_view(elems@);
                    }
                    if i >= 0 && (i as u64) < (elems.len() as u64) {
                        let k = i as usize;
                        proof {
                            lemma_values_view_update(elems@, k as int, val);
                        }
                        elems.set(k, val);
                        self.state.set(target, Value::Array(elems));
                        Ok(())
                    } else {
                        proof {
                            lemma_values_view(elems@);
                        }
                        Err(RuntimeError::IndexOutOfBounds { index: i, len: elems.len() })
                    }
                },
                _ => Ok(()),
            },
            Value::Mapping(mut m) => match value_key(&idx) {
                Some(key) => {
                    m.insert(key, val);
                    self.state.set(target, Value::Mapping(m));
                    Ok(())
                },
                None => Err(RuntimeError::InvalidMapKey),
            },
            _ => Err(RuntimeError::CannotIndexInto),
        }
    }

    /// `target[index] op= value`; see [`indexed_compound`].
    fn exec_indexed_compound(&mut self, target: &String, index: &Spanned<Expr>, op: CompoundOp, value: &Spanned<Expr>, params: &ValueMap) -> (r: Result<(), RuntimeError>)
        ensures
            matches_exec(final(self).spec_fields(), params@, r, indexed_compound(old(self).spec_fields(), params@, target@, index.node, op, value.node)),
            final(self).state.name == old(self).state.name,
            final(self).state.history == old(self).state.history,
    {
        let idx = self.eval_expr_with_params(index, params)?;
        let rhs = self.eval_expr_with_params(value, params)?;
        let arr = match self.state.get(target) {
            Some(a) => a.duplicate(),
            None => return Ok(()),
        };
        match arr {
            Value::Array(mut elems) => match idx {
                Value::Int(i) => {
                    proof {
                        lemma_values_view(elems@);
                    }
                    if i >= 0 && (i as u64) < (elems.len() as u64) {
                        let k = i as usize;
                        let result = self.apply_compound_op(&elems[k], op, &rhs)?;
                        proof {
                            lemma_values_view_update(elems@, k as int, result);
                        }
                        elems.set(k, result);
                        self.state.set(target, Value::Array(elems));
                        Ok(())
                    } else {
                        Err(RuntimeError::IndexOutOfBounds { index: i, len: elems.len() })
                    }
                },
                _ => Ok(()),
            },
            Value::Mapping(mut m) => match value_key(&idx) {
                Some(key) => {
                    let current = match m.get_by(&key) {
                        Some(v) => v.duplicate(),
                        None => Value::Int(0),
                    };
                    let result = self.apply_compound_op(&current, op, &rhs)?;
                    m.insert(key, result);
                    self.state.set(target, Value::Mapping(m));
                    Ok(())
                },
                None => Err(RuntimeError::InvalidMapKey),
            },
            _ => Err(RuntimeError::CannotIndexInto),
        }
    }

    /// Runs one statement; see [`exec_stmt`].
    #[verifier::rlimit(50)]
    fn exec_statement(&mut self, stmt: &Spanned<Statement>, params: &mut ValueMap) -> (r: Result<(), RuntimeError>)
        ensures
            matches_exec(final(self).spec_fields(), final(params)@, r, exec_stmt(old(self).spec_fields(), old(params)@, stmt.node)),
            final(self).state.name == old(self).state.name,
            final(self).state.history == old(self).state.history,
        decreases stmt.node, 0int,
    {
        match &stmt.node {
            Statement::Assign(assign) => {
                let value = self.eval_expr_with_params(&assign.value, params)?;
                self.state.set(&assign.target.node, value);
                Ok(())
            },
            Statement::CompoundAssign { target, op, value } => {
                let current = match self.state.get(&target.node) {
                    Some(v) => v.duplicate(),
                    None => Value::Int(0),
                };
                let rhs = self.eval_expr_with_params(value, params)?;
                let result = self.apply_compound_op(&current, *op, &rhs)?;
                self.state.set(&target.node, result);
                Ok(())
            },
            Statement::If { condition, then_body, else_body } => {
                let cond = self.eval_expr_with_params(condition, params)?;
                if is_truthy(&cond) {
                    self.exec_statements(then_body, params)
                } else {
                    match else_body {
                        Some(else_stmts) => self.exec_statements(else_stmts, params),
                        None => Ok(()),
                    }
                }
            },
            Statement::IndexedAssign { target, index, value } => self.exec_indexed_assign(&target.node, index, value, params),
            Statement::IndexedCompoundAssign { target, index, op, value } => self.exec_indexed_compound(&target.node, index, *op, value, params),
            Statement::Assert { condition } => {
                let val = self.eval_expr_with_params(condition, params)?;
                if !is_truthy(&val) {
                    return Err(RuntimeError::AssertionFailed);
                }
                Ok(())
            },
            Statement::Let { name, value, .. } => {
                let val = self.eval_expr_with_params(value, params)?;
                params.insert(name.node.clone(), val);
                Ok(())
            },
            Statement::Match { expr, arms } => {
                let subject = self.eval_expr_with_params(expr, params)?;
                self.exec_match_arms(&subject, arms, params)
            },
        }
    }

    /// The value a field of type `ty` starts with; see [`default_value`].
    fn default_for_type(ty: &Type) -> (r: Option<Value>)
        ensures
            match r {
                Some(v) => default_value(*ty) == Some(v@),
                None => default_value(*ty) is None,
            },
        decreases ty,
    {
        match ty {
            Type::Int => Some(Value::Int(0)),
            Type::Real => None,
            Type::Bool => Some(Value::Bool(false)),
            Type::String => Some(Value::String(String::new())),
            Type::Array { element, size } => {
                let d = match Self::default_for_type(element) {
                    Some(d) => d,
                    None => return None,
                };
                let mut out: Vec<Value> = Vec::new();
                let mut i: usize = 0;
                while i < *size
                    invariant
                        i <= *size,
                        values_view(out@) =~= Seq::new(i as nat, |_j: int| d@),
                    decreases *size - i,
                {
                    let v = d.duplicate();
                    proof {
                        lemma_values_view_push(out@, v);
                    }
                    out.push(v);
                    i = i + 1;
                }
                Some(Value::Array(out))
            },
            Type::Mapping { .. } => Some(Value::Mapping(ValueMap::new())),
            Type::Enum(_) | Type::Named(_) => Some(Value::Null),
        }
    }

    /// Evaluates a constant's value and stores it under the constant's name.
    pub fn load_const(&mut self, c: &ConstDef) -> (r: Result<(), RuntimeError>)
        ensures
            match eval(old(self).spec_fields(), Map::empty(), c.value.node) {
                Ok(v) => r is Ok && final(self).spec_fields() == old(self).spec_fields().insert(c.name.node@, v),
                Err(x) => r is Err && r->Err_0@ == x && final(self).spec_fields() == old(self).spec_fields(),
            },
            final(self).spec_name() == old(self).spec_name(),
            final(self).spec_history() == old(self).spec_history(),
    {
        let value = self.eval_expr(&c.value)?;
        self.state.set(&c.name.node, value);
        Ok(())
    }

    /// Runs the assignments of an init block in order.
    pub fn initialize(&mut self, init: &InitBlock) -> (r: Result<(), RuntimeError>)
        ensures
            matches_outcome(final(self).spec_fields(), r, run_assignments(old(self).spec_fields(), init.assignments@)),
            final(self).spec_name() == old(self).spec_name(),
            final(self).spec_history() == old(self).spec_history(),
    {
        let ghost f0 = self.spec_fields();
        proof {
            assert(init.assignments@.skip(0) =~= init.assignments@);
        }
        let mut i: usize = 0;
        while i < init.assignments.len()
            invariant
                i <= init.assignments@.len(),
                f0 == old(self).spec_fields(),
                run_assignments(f0, init.assignments@) == run_assignments(self.spec_fields(), init.assignments@.skip(i as int)),
                self.state.name == old(self).state.name,
                self.state.history == old(self).state.history,
            decreases init.assignments@.len() - i,
        {
            proof {
                assert(init.assignments@.skip(i as int)[0] == init.assignments@[i as int]);
                assert(init.assignments@.skip(i as int).drop_first() =~= init.assignments@.skip(i + 1));
            }
            let assign = &init.assignments[i];
            let value = self.eval_expr(&assign.value)?;
            self.state.set(&assign.target.node, value);
            i = i + 1;
        }
        Ok(())
    }

    /// Sets every field of `state` to its type's starting value, then runs
    /// the init block, if there is one.
    pub fn initialize_state(&mut self, state: &StateDef) -> (r: Result<(), RuntimeError>)
        ensures
            ({
                let d = set_defaults(old(self).spec_fields(), state.fields@);
                match d.error {
                    Some(x) => final(self).spec_fields() == d.fields && r is Err && r->Err_0@ == x,
                    None => match state.init {
                        Some(init) => matches_outcome(final(self).spec_fields(), r, run_assignments(d.fields, init.assignments@)),
                        None => final(self).spec_fields() == d.fields && r is Ok,
                    },
                }
            }),
            final(self).spec_name() == old(self).spec_name(),
            final(self).spec_history() == old(self).spec_history(),
    {
        let ghost f0 = self.spec_fields();
        proof {
            assert(state.fields@.skip(0) =~= state.fields@);
        }
        let mut i: usize = 0;
        while i < state.fields.len()
            invariant
                i <= state.fields@.len(),
                f0 == old(self).spec_fields(),
                set_defaults(f0, state.fields@) == set_defaults(self.spec_fields(), state.fields@.skip(i as int)),
                self.state.name == old(self).state.name,
                self.state.history == old(self).state.history,
            decreases state.fields@.len() - i,
        {
            proof {
                assert(state.fields@.skip(i as int)[0] == state.fields@[i as int]);
                assert(state.fields@.skip(i as int).drop_first() =~= state.fields@.skip(i + 1));
            }
            let field = &state.fields[i];
            match Self::default_for_type(&field.ty.node) {
                Some(d) => self.state.set(&field.name.node, d),
                None => return Err(RuntimeError::UnsupportedReal),
            }
            i = i + 1;
        }
        match &state.init {
            Some(init) => self.initialize(init),
            None => Ok(()),
        }
    }

    /// Evaluates a postcondition; see [`eval_post`].
    fn eval_postcondition(&self, expr: &Spanned<Expr>, pre_state: &ValueMap, params: &ValueMap) -> (r: Result<Value, RuntimeError>)
        ensures
            result_view(r) == eval_post(self.spec_fields(), pre_state@, params@, expr.node),
        decreases expr.node,
    {
        match &expr.node {
            Expr::Old(inner) => {
                let mut old_params = params.duplicate();
                let n = pre_state.entries.len();
                let mut i: usize = 0;
                while i < n
                    invariant
                        n == pre_state.entries@.len(),
                        i <= n,
                        old_params@ == params@.union_prefer_right(
                            crate::value::entries_view(pre_state.entries@.take(i as int)),
                        ),
                    decreases n - i,
                {
                    let k = pre_state.entries[i].0.clone();
                    let v = pre_state.entries[i].1.duplicate();
                    proof {
                        assert(pre_state.entries@.take(i + 1).drop_last() =~= pre_state.entries@.take(i as int));
                    }
                    old_params.insert(k, v);
                    proof {
                        assert(old_params@ =~= params@.union_prefer_right(
                            crate::value::entries_view(pre_state.entries@.take(i + 1)),
                        ));
                    }
                    i = i + 1;
                }
                proof {
                    assert(pre_state.entries@.take(n as int) =~= pre_state.entries@);
                }
                self.eval_expr_with_params(inner, &old_params)
            },
            Expr::BinaryOp { left, op, right } => {
                let l = self.eval_postcondition(left, pre_state, params)?;
                let r = self.eval_postcondition(right, pre_state, params)?;
                self.eval_binary_op(&l, *op, &r)
            },
            _ => self.eval_expr_with_params(expr, params),
        }
    }

    /// Runs a transition: checks its preconditions with `args` as the
    /// arguments, runs its body, evaluates its events, checks its
    /// postconditions and then `invariants`; on success records the
    /// transition in the history and returns the events. See
    /// [`run_transition`].
    #[verifier::loop_isolation(false)]
    #[verifier::rlimit(40)]
    pub fn execute_transition(&mut self, transition: &Transition, args: ValueMap, invariants: &[Invariant]) -> (r: Result<Vec<RuntimeEvent>, RuntimeError>)
        ensures
            ({
                let step = run_transition(old(self).spec_fields(), *transition, args@, invariants@);
                &&& final(self).spec_fields() == step.fields
                &&& match r {
                    Ok(events) => {
                        &&& step.result == Ok::<Seq<(Seq<char>, Seq<Val>)>, RtErr>(events_view(events@))
                        &&& final(self).spec_history() == old(self).spec_history().push(
                            (transition.name.node@, old(self).spec_fields(), events_view(events@)),
                        )
                    },
                    Err(e) => {
                        &&& step.result == Err::<Seq<(Seq<char>, Seq<Val>)>, RtErr>(e@)
                        &&& final(self).spec_history() == old(self).spec_history()
                    },
                }
            }),
            final(self).spec_name() == old(self).spec_name(),
    {
        let ghost f0 = self.spec_fields();
        let ghost name = transition.name.node@;
        let pre_state = self.state.snapshot();
        let mut locals = args;

        // preconditions
        let pres = &transition.preconditions;
        proof {
            assert(pres@.skip(0) =~= pres@);
        }
        let mut i: usize = 0;
        while i < pres.len()
            invariant
                i <= pres@.len(),
                f0 == old(self).spec_fields(),
                self.spec_fields() == f0,
                locals@ == args@,
                check_pre(f0, args@, pres@, name) == check_pre(f0, args@, pres@.skip(i as int), name),
            decreases pres@.len() - i,
        {
            proof {
                assert(pres@.skip(i as int)[0] == pres@[i as int]);
                assert(pres@.skip(i as int).drop_first() =~= pres@.skip(i + 1));
            }
            let result = self.eval_expr_with_params(&pres[i], &locals)?;
            if !is_truthy(&result) {
                return Err(RuntimeError::PreconditionFailed(transition.name.node.clone()));
            }
            i = i + 1;
        }

        // body
        let ghost p0 = locals@;
        let body_result = self.exec_statements(&transition.body, &mut locals);
        if let Err(e) = body_result {
            return Err(e);
        }
        let ghost f1 = self.spec_fields();
        let ghost p1 = locals@;

        // events
        let emits = &transition.emits;
        let mut events: Vec<RuntimeEvent> = Vec::new();
        proof {
            assert(emits@.skip(0) =~= emits@);
            assert(events_view(events@) + Seq::<(Seq<char>, Seq<Val>)>::empty() =~= Seq::<(Seq<char>, Seq<Val>)>::empty());
        }
        let mut j: usize = 0;
        while j < emits.len()
            invariant
                j <= emits@.len(),
                self.spec_fields() == f1,
                locals@ == p1,
                eval_emits(f1, p1, emits@) == match eval_emits(f1, p1, emits@.skip(j as int)) {
                    Ok(rest) => Ok(events_view(events@) + rest),
                    Err(x) => Err(x),
                },
            decreases emits@.len() - j,
        {
            let emit = &emits[j];
            let eargs = &emit.node.args;
            let mut emit_args: Vec<Value> = Vec::new();
            proof {
                assert(eargs@.skip(0) =~= eargs@);
                assert(values_view(emit_args@) + Seq::<Val>::empty() =~= Seq::<Val>::empty());
            }
            let mut k: usize = 0;
            while k < eargs.len()
                invariant
                    k <= eargs@.len(),
                    self.spec_fields() == f1,
                    locals@ == p1,
                    eval_list(f1, p1, eargs@) == match eval_list(f1, p1, eargs@.skip(k as int)) {
                        Ok(rest) => Ok(values_view(emit_args@) + rest),
                        Err(x) => Err(x),
                    },
                decreases eargs@.len() - k,
            {
                proof {
                    assert(eargs@.skip(k as int)[0] == eargs@[k as int]);
                    assert(eargs@.skip(k as int).drop_first() =~= eargs@.skip(k + 1));
                }
                let v = self.eval_expr_with_params(&eargs[k], &locals)?;
                proof {
                    lemma_values_view_push(emit_args@, v);
                    match eval_list(f1, p1, eargs@.skip(k + 1)) {
                        Ok(rest) => {
                            assert(values_view(emit_args@).push(v@) + rest =~= values_view(emit_args@) + (seq![v@] + rest));
                        },
                        Err(_) => {},
                    }
                }
                emit_args.push(v);
                k = k + 1;
            }
            proof {
                assert(eargs@.skip(eargs@.len() as int) =~= Seq::<Spanned<Expr>>::empty());
                assert(values_view(emit_args@) + Seq::<Val>::empty() =~= values_view(emit_args@));
                assert(emits@.skip(j as int)[0] == emits@[j as int]);
                assert(emits@.skip(j as int).drop_first() =~= emits@.skip(j + 1));
            }
            let ev = RuntimeEvent { name: emit.node.event_name.node.clone(), args: emit_args };
            let ghost prev = events@;
            events.push(ev);
            proof {
                assert(events_view(events@) =~= events_view(prev).push(event_view(ev)));
                match eval_emits(f1, p1, emits@.skip(j + 1)) {
                    Ok(rest) => {
                        assert(events_view(prev).push(event_view(ev)) + rest =~= events_view(prev) + (seq![event_view(ev)] + rest));
                    },
                    Err(_) => {},
                }
            }
            j = j + 1;
        }
        proof {
            assert(emits@.skip(emits@.len() as int) =~= Seq::<Spanned<Emit>>::empty());
            assert(events_view(events@) + Seq::<(Seq<char>, Seq<Val>)>::empty() =~= events_view(events@));
        }

        // postconditions
        let posts = &transition.postconditions;
        proof {
            assert(posts@.skip(0) =~= posts@);
        }
        let mut i: usize = 0;
        while i < posts.len()
            invariant
                i <= posts@.len(),
                self.spec_fields() == f1,
                locals@ == p1,
                pre_state@ == f0,
                check_post(f1, f0, p1, posts@, name) == check_post(f1, f0, p1, posts@.skip(i as int), name),
            decreases posts@.len() - i,
        {
            proof {
                assert(posts@.skip(i as int)[0] == posts@[i as int]);
                assert(posts@.skip(i as int).drop_first() =~= posts@.skip(i + 1));
            }
            let result = self.eval_postcondition(&posts[i], &pre_state, &locals)?;
            if !is_truthy(&result) {
                return Err(RuntimeError::PostconditionFailed(transition.name.node.clone()));
            }
            i = i + 1;
        }

        // invariants
        let mut i: usize = 0;
        while i < invariants.len()
            invariant
                i <= invariants@.len(),
                self.spec_fields() == f1,
                check_invariants(f1, invariants@, 0, name) == check_invariants(f1, invariants@, i as int, name),
            decreases invariants@.len() - i,
        {
            let inv = &invariants[i];
            let result = self.eval_expr(&inv.condition)?;
            if !is_truthy(&result) {
                let inv_name = match &inv.name {
                    Some(n) => n.node.clone(),
                    None => {
                        proof { reveal_strlit("invariant_"); }
                        concat2("invariant_", usize_to_text(i).as_str())
                    },
                };
                proof {
                    assert(inv_name@ =~= invariant_label(invariants@[i as int], i as int));
                }
                return Err(RuntimeError::InvariantViolated {
                    invariant_name: inv_name,
                    transition_name: transition.name.node.clone(),
                });
            }
            i = i + 1;
        }

        self.state.record_transition(&transition.name.node, pre_state, copy_events(&events));
        Ok(events)
    }
}

} // verus!
