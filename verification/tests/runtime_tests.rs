use verun::ast::{
    Assignment, BinaryOp, CompoundOp, ConstDef, Emit, Expr, Field, InitBlock, Invariant, Item,
    MatchArm, MatchPattern, Param, Program, Span, Spanned, StateDef, Statement, Transition, Type,
};
use verun::engine::Engine;
use verun::parser::parse_source;
use verun::error::RuntimeError;
use verun::value::{Value, ValueMap};

fn sp<T>(node: T) -> Spanned<T> {
    Spanned { node, span: Span { start: 0, end: 0 } }
}

fn name(s: &str) -> Spanned<String> {
    sp(s.to_string())
}

fn num(v: i64) -> Spanned<Expr> {
    sp(Expr::IntLit(v))
}

fn var(s: &str) -> Spanned<Expr> {
    sp(Expr::Ident(s.to_string()))
}

fn bin(l: Spanned<Expr>, op: BinaryOp, r: Spanned<Expr>) -> Spanned<Expr> {
    sp(Expr::BinaryOp { left: Box::new(l), op, right: Box::new(r) })
}

fn prev(e: Spanned<Expr>) -> Spanned<Expr> {
    sp(Expr::Old(Box::new(e)))
}

fn enum_val(e: &str, v: &str) -> Spanned<Expr> {
    sp(Expr::EnumVariant { enum_name: e.to_string(), variant: v.to_string() })
}

fn assign(t: &str, e: Spanned<Expr>) -> Assignment {
    Assignment { target: name(t), value: e }
}

fn set(t: &str, e: Spanned<Expr>) -> Spanned<Statement> {
    sp(Statement::Assign(assign(t, e)))
}

fn add_to(t: &str, op: CompoundOp, e: Spanned<Expr>) -> Spanned<Statement> {
    sp(Statement::CompoundAssign { target: name(t), op, value: e })
}

fn field(n: &str, ty: Type) -> Field {
    Field { name: name(n), ty: sp(ty) }
}

fn param(n: &str, ty: Type) -> Param {
    Param { name: name(n), ty: sp(ty) }
}

fn inv(n: &str, cond: Spanned<Expr>) -> Invariant {
    Invariant { name: Some(name(n)), condition: cond, span: Span { start: 0, end: 0 } }
}

fn transition(
    n: &str,
    params: Vec<Param>,
    pre: Vec<Spanned<Expr>>,
    body: Vec<Spanned<Statement>>,
    post: Vec<Spanned<Expr>>,
) -> Transition {
    Transition {
        name: name(n),
        params,
        preconditions: pre,
        body,
        postconditions: post,
        emits: Vec::new(),
        span: Span { start: 0, end: 0 },
    }
}

fn state(
    n: &str,
    fields: Vec<Field>,
    constants: Vec<ConstDef>,
    invariants: Vec<Invariant>,
    init: Vec<Assignment>,
    transitions: Vec<Transition>,
) -> StateDef {
    StateDef {
        name: name(n),
        fields,
        constants,
        invariants,
        init: Some(InitBlock { assignments: init, span: Span { start: 0, end: 0 } }),
        transitions,
    }
}

fn program(items: Vec<Item>) -> Program {
    Program { items: items.into_iter().map(sp).collect(), source: String::new() }
}

fn find<'a>(state: &'a StateDef, n: &str) -> &'a Transition {
    state.transitions.iter().find(|t| t.name.node == n).unwrap()
}

fn args(pairs: Vec<(&str, Value)>) -> ValueMap {
    let mut m = ValueMap::new();
    for (k, v) in pairs {
        m.insert(k.to_string(), v);
    }
    m
}

const COUNTER: &str = r#"
state Counter {
    value: int
    max_value: int

    invariant non_negative { value >= 0 }
    invariant bounded { value <= max_value }

    init {
        value = 0
        max_value = 100
    }

    transition increment(amount: int) {
        where {
            amount > 0
            value + amount <= max_value
        }
        value += amount
        ensure { value == old(value) + amount }
    }

    transition decrement(amount: int) {
        where {
            amount > 0
            value >= amount
        }
        value -= amount
        ensure { value == old(value) - amount }
    }

    transition reset() {
        value = 0
        ensure { value == 0 }
    }
}
"#;

const TOKEN: &str = r#"
state Token {
    balance_a: int
    balance_b: int
    total_supply: int

    invariant conservation { balance_a + balance_b == total_supply }
    invariant non_negative_a { balance_a >= 0 }
    invariant non_negative_b { balance_b >= 0 }

    init {
        balance_a = 1000
        balance_b = 0
        total_supply = 1000
    }

    transition transfer_a_to_b(amount: int) {
        where {
            amount > 0
            balance_a >= amount
        }
        balance_a -= amount
        balance_b += amount
        ensure {
            balance_a == old(balance_a) - amount
            balance_b == old(balance_b) + amount
        }
    }

    transition mint(amount: int) {
        where { amount > 0 }
        balance_a += amount
        total_supply += amount
    }
}
"#;

fn counter_program() -> Program {
    parse_source(COUNTER).unwrap()
}

fn token_program() -> Program {
    parse_source(TOKEN).unwrap()
}

fn states(p: &Program) -> Vec<&StateDef> {
    p.items
        .iter()
        .filter_map(|i| if let Item::State(s) = &i.node { Some(s) } else { None })
        .collect()
}

fn run_with_consts(p: &Program) -> Vec<(String, Engine)> {
    let top_level_consts: Vec<&ConstDef> = p
        .items
        .iter()
        .filter_map(|i| if let Item::ConstDef(c) = &i.node { Some(c) } else { None })
        .collect();
    let mut results = Vec::new();
    for state in states(p) {
        let mut engine = Engine::new(&state.name.node);
        for c in &top_level_consts {
            engine.load_const(c).unwrap();
        }
        for c in &state.constants {
            engine.load_const(c).unwrap();
        }
        engine.initialize_state(state).unwrap();
        results.push((state.name.node.clone(), engine));
    }
    results
}

#[test]
fn runtime_counter_init() {
    let p = counter_program();
    for state in states(&p) {
        let mut engine = Engine::new(&state.name.node);
        engine.initialize_state(state).unwrap();
        assert_eq!(engine.get_field("value"), Some(&Value::Int(0)));
        assert_eq!(engine.get_field("max_value"), Some(&Value::Int(100)));
    }
}

#[test]
fn runtime_counter_increment() {
    let p = counter_program();
    for state in states(&p) {
        let mut engine = Engine::new(&state.name.node);
        engine.initialize_state(state).unwrap();
        let t = find(state, "increment");
        let _events = engine
            .execute_transition(t, args(vec![("amount", Value::Int(10))]), &state.invariants)
            .unwrap();
        assert_eq!(engine.get_field("value"), Some(&Value::Int(10)));
    }
}

#[test]
fn runtime_counter_precondition_fail() {
    let p = counter_program();
    for state in states(&p) {
        let mut engine = Engine::new(&state.name.node);
        engine.initialize_state(state).unwrap();
        let t = find(state, "decrement");
        let result = engine.execute_transition(t, args(vec![("amount", Value::Int(10))]), &state.invariants);
        assert!(result.is_err(), "Should fail precondition (value=0, decrement 10)");
    }
}

#[test]
fn runtime_token_transfer() {
    let p = token_program();
    for state in states(&p) {
        let mut engine = Engine::new(&state.name.node);
        engine.initialize_state(state).unwrap();
        let t = find(state, "transfer_a_to_b");
        engine
            .execute_transition(t, args(vec![("amount", Value::Int(100))]), &state.invariants)
            .unwrap();
        assert_eq!(engine.get_field("balance_a"), Some(&Value::Int(900)));
        assert_eq!(engine.get_field("balance_b"), Some(&Value::Int(100)));
        assert_eq!(engine.get_field("total_supply"), Some(&Value::Int(1000)));
    }
}

fn mode_machine() -> Program {
    let source = r#"
        enum Mode { Idle, Busy }

        state Machine {
            mode: Mode
            value: int

            init {
                mode = Mode::Idle
                value = 0
            }

            transition apply(next: Mode, amount: int) {
                let base: int = amount + 1
                match next {
                    Mode::Idle => {
                        value = 0
                    },
                    Mode::Busy => {
                        value = base
                    }
                }
                mode = next
            }
        }
    "#;
    parse_source(source).unwrap()
}

#[test]
fn runtime_let_and_match() {
    let p = mode_machine();
    for state in states(&p) {
        let mut engine = Engine::new(&state.name.node);
        engine.initialize_state(state).unwrap();
        let t = find(state, "apply");
        let a = args(vec![
            ("next", Value::Enum { enum_name: "Mode".to_string(), variant: "Busy".to_string() }),
            ("amount", Value::Int(9)),
        ]);
        engine.execute_transition(t, a, &state.invariants).unwrap();
        assert_eq!(engine.get_field("value"), Some(&Value::Int(10)));
        assert_eq!(
            engine.get_field("mode"),
            Some(&Value::Enum { enum_name: "Mode".to_string(), variant: "Busy".to_string() })
        );
    }
}

#[test]
fn runtime_state_const_visible_in_transition() {
    let source = r#"
        state Bank {
            const LIMIT: int = 1000
            balance: int

            init { balance = 0 }

            transition deposit(amount: int) {
                where { balance + amount <= LIMIT }
                balance += amount
            }
        }
    "#;
    let p = parse_source(source).unwrap();
    let mut engines = run_with_consts(&p);
    let (_, ref mut engine) = engines[0];
    for state in states(&p) {
        let trans = find(state, "deposit");
        engine
            .execute_transition(trans, args(vec![("amount", Value::Int(500))]), &state.invariants)
            .unwrap();
        assert_eq!(engine.get_field("balance"), Some(&Value::Int(500)));
        let result = engine.execute_transition(trans, args(vec![("amount", Value::Int(600))]), &state.invariants);
        assert!(result.is_err(), "deposit above LIMIT should fail the precondition");
    }
}

#[test]
fn runtime_top_level_const_visible_in_transition() {
    let source = r#"
        const MAX: int = 50

        state Counter {
            value: int

            init { value = 0 }

            transition set(n: int) {
                where { n <= MAX }
                value = n
            }
        }
    "#;
    let p = parse_source(source).unwrap();
    let mut engines = run_with_consts(&p);
    let (_, ref mut engine) = engines[0];
    for state in states(&p) {
        let trans = find(state, "set");
        engine
            .execute_transition(trans, args(vec![("n", Value::Int(50))]), &state.invariants)
            .unwrap();
        assert_eq!(engine.get_field("value"), Some(&Value::Int(50)));
        let result = engine.execute_transition(trans, args(vec![("n", Value::Int(51))]), &state.invariants);
        assert!(result.is_err(), "setting value above MAX should fail the precondition");
    }
}

#[test]
fn runtime_initializes_collections_not_set_in_init() {
    let source = r#"
        state Collections {
            arr: int[4]
            balances: map[int, int]
            count: int

            init {
                count = 0
            }

            transition put(v: int) {
                where {
                    v > 0
                }
                arr[count] = v
                balances[count] += v
                count += 1
            }
        }
    "#;
    let p = parse_source(source).unwrap();
    for state in states(&p) {
        let mut engine = Engine::new(&state.name.node);
        engine.initialize_state(state).unwrap();
        let t = find(state, "put");
        engine.execute_transition(t, args(vec![("v", Value::Int(7))]), &state.invariants).unwrap();
        assert_eq!(engine.get_field("count"), Some(&Value::Int(1)));
        match engine.get_field("arr") {
            Some(Value::Array(items)) => assert_eq!(items.first(), Some(&Value::Int(7))),
            other => panic!("expected array field, got {:?}", other),
        }
        match engine.get_field("balances") {
            Some(Value::Mapping(entries)) => assert_eq!(entries.get("0"), Some(&Value::Int(7))),
            other => panic!("expected map field, got {:?}", other),
        }
    }
}

#[test]
fn runtime_match_accepts_enum_string_argument() {
    let source = r#"
        enum Side { Buy, Sell }

        state M {
            side: Side

            init {
                side = Side::Buy
            }

            transition set(next: Side) {
                match next {
                    Side::Buy => {
                        side = Side::Buy
                    },
                    Side::Sell => {
                        side = Side::Sell
                    }
                }
            }
        }
    "#;
    let p = parse_source(source).unwrap();
    for state in states(&p) {
        let mut engine = Engine::new(&state.name.node);
        engine.initialize_state(state).unwrap();
        let t = find(state, "set");
        let a = args(vec![("next", Value::String("Side::Sell".to_string()))]);
        engine.execute_transition(t, a, &state.invariants).unwrap();
        assert_eq!(
            engine.get_field("side"),
            Some(&Value::Enum { enum_name: "Side".to_string(), variant: "Sell".to_string() })
        );
    }
}

// ---- further behaviour of the interpreter ----

#[test]
fn failed_precondition_leaves_state_and_history_alone() {
    let p = counter_program();
    let state = states(&p)[0];
    let mut engine = Engine::new(&state.name.node);
    engine.initialize_state(state).unwrap();
    let r = engine.execute_transition(find(state, "decrement"), args(vec![("amount", Value::Int(1))]), &state.invariants);
    assert_eq!(r, Err(RuntimeError::PreconditionFailed("decrement".to_string())));
    assert_eq!(engine.get_field("value"), Some(&Value::Int(0)));
    assert_eq!(engine.get_state().history.len(), 0);
}

#[test]
fn successful_transition_is_recorded() {
    let p = counter_program();
    let state = states(&p)[0];
    let mut engine = Engine::new(&state.name.node);
    engine.initialize_state(state).unwrap();
    engine.execute_transition(find(state, "increment"), args(vec![("amount", Value::Int(5))]), &state.invariants).unwrap();
    let h = &engine.get_state().history;
    assert_eq!(h.len(), 1);
    assert_eq!(h[0].transition, "increment");
    assert_eq!(h[0].pre_state.get("value"), Some(&Value::Int(0)));
    assert_eq!(engine.get_state().name, "Counter");
}

#[test]
fn invariant_violation_is_reported_with_name() {
    // reset sets value to 0, then a broken invariant `value > 0` fails
    let p = counter_program();
    let state = states(&p)[0];
    let mut engine = Engine::new(&state.name.node);
    engine.initialize_state(state).unwrap();
    let invs = vec![
        Invariant { name: None, condition: bin(var("value"), BinaryOp::Gte, num(0)), span: Span { start: 0, end: 0 } },
        Invariant { name: None, condition: bin(var("value"), BinaryOp::Gt, num(0)), span: Span { start: 0, end: 0 } },
    ];
    let r = engine.execute_transition(find(state, "reset"), ValueMap::new(), &invs);
    assert_eq!(
        r,
        Err(RuntimeError::InvariantViolated {
            invariant_name: "invariant_1".to_string(),
            transition_name: "reset".to_string()
        })
    );
    // the body's write stays, nothing is recorded
    assert_eq!(engine.get_field("value"), Some(&Value::Int(0)));
    assert_eq!(engine.get_state().history.len(), 0);
}

#[test]
fn postcondition_failure_is_reported() {
    let p = counter_program();
    let state = states(&p)[0];
    let mut engine = Engine::new(&state.name.node);
    engine.initialize_state(state).unwrap();
    let mut t = transition(
        "bump",
        vec![],
        vec![],
        vec![add_to("value", CompoundOp::Add, num(2))],
        vec![bin(var("value"), BinaryOp::Eq, bin(prev(var("value")), BinaryOp::Add, num(1)))],
    );
    t.emits = Vec::new();
    let r = engine.execute_transition(&t, ValueMap::new(), &state.invariants);
    assert_eq!(r, Err(RuntimeError::PostconditionFailed("bump".to_string())));
    assert_eq!(engine.get_field("value"), Some(&Value::Int(2)));
}

#[test]
fn events_carry_evaluated_arguments() {
    let p = counter_program();
    let state = states(&p)[0];
    let mut engine = Engine::new(&state.name.node);
    engine.initialize_state(state).unwrap();
    let mut t = transition("ping", vec![param("n", Type::Int)], vec![], vec![set("value", var("n"))], vec![]);
    t.emits = vec![sp(Emit { event_name: name("Pinged"), args: vec![var("n"), bin(var("value"), BinaryOp::Mul, num(3))] })];
    let events = engine.execute_transition(&t, args(vec![("n", Value::Int(4))]), &[]).unwrap();
    assert_eq!(events.len(), 1);
    assert_eq!(events[0].name, "Pinged");
    assert_eq!(events[0].args, vec![Value::Int(4), Value::Int(12)]);
    assert_eq!(engine.get_state().history[0].events.len(), 1);
}

#[test]
fn arithmetic_errors() {
    let engine = Engine::new("S");
    assert_eq!(engine.eval_expr(&bin(num(1), BinaryOp::Div, num(0))), Err(RuntimeError::DivisionByZero));
    assert_eq!(engine.eval_expr(&bin(num(7), BinaryOp::Mod, num(0))), Err(RuntimeError::DivisionByZero));
    assert_eq!(engine.eval_expr(&bin(num(i64::MAX), BinaryOp::Add, num(1))), Err(RuntimeError::Overflow));
    assert_eq!(engine.eval_expr(&bin(num(-7), BinaryOp::Div, num(2))), Ok(Value::Int(-3)));
    assert_eq!(engine.eval_expr(&bin(num(-7), BinaryOp::Mod, num(2))), Ok(Value::Int(-1)));
    assert_eq!(engine.eval_expr(&var("nope")), Err(RuntimeError::UndefinedVariable("nope".to_string())));
    assert_eq!(
        engine.eval_expr(&bin(num(1), BinaryOp::And, num(2))),
        Err(RuntimeError::InvalidOperator(verun::error::OperandKind::Integers))
    );
    assert_eq!(
        engine.eval_expr(&bin(num(1), BinaryOp::Eq, sp(Expr::BoolLit(true)))),
        Err(RuntimeError::IncompatibleOperands)
    );
    assert_eq!(engine.eval_expr(&prev(num(1))), Err(RuntimeError::OldOutsidePostcondition));
    assert_eq!(engine.eval_expr(&sp(Expr::RealLit("1.5".to_string()))), Err(RuntimeError::UnsupportedReal));
}

#[test]
fn builtins_and_quantifiers() {
    let engine = Engine::new("S");
    let call = |n: &str, a: Vec<Spanned<Expr>>| sp(Expr::FnCall { name: name(n), args: a });
    assert_eq!(engine.eval_expr(&call("abs", vec![num(-5)])), Ok(Value::Int(5)));
    assert_eq!(engine.eval_expr(&call("min", vec![num(3), num(-2)])), Ok(Value::Int(-2)));
    assert_eq!(engine.eval_expr(&call("max", vec![num(3), num(-2)])), Ok(Value::Int(3)));
    assert_eq!(engine.eval_expr(&call("abs", vec![num(1), num(2)])), Err(RuntimeError::UnknownFunction("abs".to_string())));
    assert_eq!(engine.eval_expr(&call("abs", vec![num(i64::MIN)])), Err(RuntimeError::Overflow));
    let range = |a: i64, b: i64| Box::new(sp(Expr::Range { start: Box::new(num(a)), end: Box::new(num(b)) }));
    let all_small = sp(Expr::Forall {
        var: name("i"),
        domain: range(0, 5),
        body: Box::new(bin(var("i"), BinaryOp::Lt, num(5))),
    });
    assert_eq!(engine.eval_expr(&all_small), Ok(Value::Bool(true)));
    let some_three = sp(Expr::Exists {
        var: name("i"),
        domain: range(0, 5),
        body: Box::new(bin(var("i"), BinaryOp::Eq, num(3))),
    });
    assert_eq!(engine.eval_expr(&some_three), Ok(Value::Bool(true)));
    let none_in_empty = sp(Expr::Exists { var: name("i"), domain: range(5, 0), body: Box::new(sp(Expr::BoolLit(true))) });
    assert_eq!(engine.eval_expr(&none_in_empty), Ok(Value::Bool(false)));
    let not_a_range = sp(Expr::Forall { var: name("i"), domain: Box::new(num(3)), body: Box::new(sp(Expr::BoolLit(true))) });
    assert_eq!(engine.eval_expr(&not_a_range), Err(RuntimeError::QuantifierNeedsRange));
}

#[test]
fn array_index_out_of_bounds_and_assert() {
    let p = program(vec![Item::State(state(
        "A",
        vec![field("arr", Type::Array { element: Box::new(Type::Bool), size: 2 })],
        vec![],
        vec![],
        vec![],
        vec![
            transition(
                "poke",
                vec![param("i", Type::Int)],
                vec![],
                vec![sp(Statement::IndexedAssign { target: name("arr"), index: var("i"), value: sp(Expr::BoolLit(true)) })],
                vec![],
            ),
            transition("check", vec![], vec![], vec![sp(Statement::Assert { condition: sp(Expr::BoolLit(false)) })], vec![]),
        ],
    ))]);
    let state = states(&p)[0];
    let mut engine = Engine::new("A");
    engine.initialize_state(state).unwrap();
    assert_eq!(engine.get_field("arr"), Some(&Value::Array(vec![Value::Bool(false), Value::Bool(false)])));
    let r = engine.execute_transition(find(state, "poke"), args(vec![("i", Value::Int(2))]), &[]);
    assert_eq!(r, Err(RuntimeError::IndexOutOfBounds { index: 2, len: 2 }));
    engine.execute_transition(find(state, "poke"), args(vec![("i", Value::Int(1))]), &[]).unwrap();
    assert_eq!(engine.get_field("arr"), Some(&Value::Array(vec![Value::Bool(false), Value::Bool(true)])));
    let r = engine.execute_transition(find(state, "check"), ValueMap::new(), &[]);
    assert_eq!(r, Err(RuntimeError::AssertionFailed));
}

#[test]
fn real_fields_are_refused() {
    let p = program(vec![Item::State(state("R", vec![field("x", Type::Int), field("r", Type::Real)], vec![], vec![], vec![], vec![]))]);
    let mut engine = Engine::new("R");
    let r = engine.initialize_state(states(&p)[0]);
    assert_eq!(r, Err(RuntimeError::UnsupportedReal));
    assert_eq!(engine.get_field("x"), Some(&Value::Int(0)));
}

#[test]
fn map_keys_use_value_text() {
    let mut m = ValueMap::new();
    m.insert("a".to_string(), Value::Int(1));
    m.insert("b".to_string(), Value::Int(2));
    m.insert("a".to_string(), Value::Int(3));
    assert_eq!(m.len(), 2);
    assert_eq!(m.get("a"), Some(&Value::Int(3)));
    assert_eq!(m.get("c"), None);
    assert_eq!(verun::engine::value_key(&Value::Int(-42)), Some("-42".to_string()));
    assert_eq!(verun::engine::value_key(&Value::Bool(true)), Some("true".to_string()));
    assert_eq!(
        verun::engine::value_key(&Value::Enum { enum_name: "E".to_string(), variant: "V".to_string() }),
        Some("E::V".to_string())
    );
    assert_eq!(verun::engine::value_key(&Value::Array(vec![])), None);
}

#[test]
fn equality_and_inequality_are_opposite_on_each_kind() {
    let engine = Engine::new("S");
    let pairs = vec![
        (Value::Int(3), Value::Int(3)),
        (Value::Int(3), Value::Int(4)),
        (Value::Bool(true), Value::Bool(false)),
        (Value::String("a".to_string()), Value::String("a".to_string())),
        (
            Value::Enum { enum_name: "P".to_string(), variant: "A".to_string() },
            Value::Enum { enum_name: "P".to_string(), variant: "B".to_string() },
        ),
    ];
    let expected = [true, false, false, true, false];
    for (k, (l, r)) in pairs.iter().enumerate() {
        assert_eq!(engine.eval_binary_op(l, BinaryOp::Eq, r), Ok(Value::Bool(expected[k])));
        assert_eq!(engine.eval_binary_op(l, BinaryOp::Neq, r), Ok(Value::Bool(!expected[k])));
    }
}

#[test]
fn compound_operators_compute_as_their_binary_operators() {
    let engine = Engine::new("S");
    let ops = [
        (CompoundOp::Add, BinaryOp::Add),
        (CompoundOp::Sub, BinaryOp::Sub),
        (CompoundOp::Mul, BinaryOp::Mul),
        (CompoundOp::Div, BinaryOp::Div),
    ];
    for (c, b) in ops.iter() {
        let x = engine.apply_compound_op(&Value::Int(12), c.clone(), &Value::Int(4));
        assert_eq!(x, engine.eval_binary_op(&Value::Int(12), b.clone(), &Value::Int(4)));
        let z = engine.apply_compound_op(&Value::Int(12), c.clone(), &Value::Int(0));
        assert_eq!(z, engine.eval_binary_op(&Value::Int(12), b.clone(), &Value::Int(0)));
    }
    assert_eq!(engine.apply_compound_op(&Value::Int(12), CompoundOp::Add, &Value::Int(4)), Ok(Value::Int(16)));
    assert_eq!(
        engine.apply_compound_op(&Value::Bool(true), CompoundOp::Add, &Value::Int(4)),
        Err(RuntimeError::IncompatibleCompound)
    );
    assert_eq!(
        engine.apply_compound_op(&Value::Int(1), CompoundOp::Div, &Value::Int(0)),
        Err(RuntimeError::DivisionByZero)
    );
}
