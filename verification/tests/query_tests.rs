use verun::ast::{BinaryOp, Expr, Item, Program, Span, Spanned, UnaryOp};
use verun::engine::Engine;
use verun::checks::{planned_checks, verification_result, CheckKind, SolverOutcome};
use verun::parser::parse_source;
use verun::queries::{verification_result_from_queries, CheckQuery, Query, Verifier};
use verun::symbolic::{encode_expr, Sort, Term, TermMap};

fn queries_of(program: &Program) -> Vec<(String, Vec<CheckQuery>, usize)> {
    let mut verifier = Verifier::new();
    for item in &program.items {
        match &item.node {
            Item::EnumDef(e) => verifier.register_enum(e),
            Item::Function(f) => verifier.register_function(f),
            Item::TypeDef(t) => verifier.register_type_def(t),
            Item::ConstDef(c) => verifier.register_const(c),
            _ => {}
        }
    }
    let mut out = Vec::new();
    for item in &program.items {
        if let Item::State(state) = &item.node {
            let qs = verifier.verify_state(state);
            out.push((state.name.node.clone(), qs, planned_checks(state).len()));
        }
    }
    out
}

fn int_var(name: &str) -> Term {
    Term::Var(name.to_string(), Sort::Int)
}

fn lit(v: i64) -> Term {
    Term::Int(v)
}

fn bin(op: BinaryOp, a: Term, b: Term) -> Term {
    Term::Binary(op, Box::new(a), Box::new(b))
}

fn not(a: Term) -> Term {
    Term::Unary(UnaryOp::Not, Box::new(a))
}

fn solve(q: &CheckQuery) -> &Query {
    match q {
        CheckQuery::Solve(query) => query,
        CheckQuery::Unencodable(w) => panic!("unexpected unencodable query: {:?}", w),
    }
}

const SEQUENTIAL: &str = r#"
    state Seq {
        x: int
        y: int

        invariant y_follows_x {
            y == x + 1
        }

        init {
            x = 0
            y = 1
        }

        transition step() {
            x = x + 1
            y = x + 1
        }
    }
"#;

const COUNTER: &str = r#"
    state Counter {
        value: int
        max_value: int

        invariant non_negative { value >= 0 }
        invariant bounded { value <= max_value }

        init {
            value = 0
            max_value = 100
        }

        transition increment(amount: int) {
            where {
                amount > 0
                value + amount <= max_value
            }
            value += amount
            ensure { value == old(value) + amount }
        }

        transition reset() {
            value = 0
        }
    }
"#;

#[test]
fn one_query_per_planned_check() {
    let program = parse_source(COUNTER).unwrap();
    let states = queries_of(&program);
    assert_eq!(states.len(), 1);
    let (name, qs, planned) = &states[0];
    assert_eq!(name, "Counter");
    // two init checks; increment: two invariants, postcondition, dead;
    // reset: two invariants, dead
    assert_eq!(*planned, 9);
    assert_eq!(qs.len(), *planned);
    for (i, q) in qs.iter().enumerate() {
        let dead = i == 5 || i == 8;
        assert_eq!(solve(q).negated_claim.is_none(), dead, "query {}", i);
    }
}

#[test]
fn init_query_assumes_the_assignments() {
    let program = parse_source(SEQUENTIAL).unwrap();
    let states = queries_of(&program);
    let q = solve(&states[0].1[0]);
    assert_eq!(
        q.assumptions,
        vec![
            bin(BinaryOp::Eq, int_var("init_x"), lit(0)),
            bin(BinaryOp::Eq, int_var("init_y"), lit(1)),
        ]
    );
    assert_eq!(
        q.negated_claim,
        Some(not(bin(BinaryOp::Eq, int_var("init_y"), bin(BinaryOp::Add, int_var("init_x"), lit(1)))))
    );
}

#[test]
fn sequential_assignments_use_the_new_value() {
    let program = parse_source(SEQUENTIAL).unwrap();
    let states = queries_of(&program);
    let qs = &states[0].1;
    assert_eq!(qs.len(), 3);
    let q = solve(&qs[1]);
    let x1 = bin(BinaryOp::Add, int_var("pre_x"), lit(1));
    assert_eq!(
        q.assumptions,
        vec![
            bin(BinaryOp::Eq, int_var("pre_y"), bin(BinaryOp::Add, int_var("pre_x"), lit(1))),
            bin(BinaryOp::Eq, int_var("post_x"), bin(BinaryOp::Add, int_var("pre_x"), lit(1))),
            bin(BinaryOp::Eq, int_var("post_y"), bin(BinaryOp::Add, x1, lit(1))),
        ]
    );
    assert_eq!(
        q.negated_claim,
        Some(not(bin(BinaryOp::Eq, int_var("post_y"), bin(BinaryOp::Add, int_var("post_x"), lit(1)))))
    );
}

#[test]
fn compound_assignment_adds_to_the_value_before() {
    let program = parse_source(COUNTER).unwrap();
    let states = queries_of(&program);
    // increment preserves `non_negative`: value += amount
    let q = solve(&states[0].1[2]);
    let sum = bin(BinaryOp::Add, int_var("pre_value"), int_var("param_amount"));
    assert!(q.assumptions.contains(&bin(BinaryOp::Eq, int_var("post_value"), sum)));
    assert!(q.assumptions.contains(&bin(BinaryOp::Eq, int_var("post_max_value"), int_var("pre_max_value"))));
}

#[test]
fn dead_transition_query_has_nothing_to_refute() {
    let program = parse_source(SEQUENTIAL).unwrap();
    let states = queries_of(&program);
    let q = solve(&states[0].1[2]);
    assert_eq!(q.negated_claim, None);
    assert_eq!(
        q.assumptions,
        vec![bin(BinaryOp::Eq, int_var("pre_y"), bin(BinaryOp::Add, int_var("pre_x"), lit(1)))]
    );
    assert_eq!(q.watch, TermMap::new());
}

#[test]
fn unassigned_field_keeps_its_value() {
    let program = parse_source(COUNTER).unwrap();
    let states = queries_of(&program);
    // reset preserves `non_negative`: max_value is not written
    let q = solve(&states[0].1[6]);
    assert!(q.assumptions.contains(&bin(BinaryOp::Eq, int_var("post_max_value"), int_var("pre_max_value"))));
    assert!(q.assumptions.contains(&bin(BinaryOp::Eq, int_var("post_value"), lit(0))));
}

#[test]
fn if_else_merges_by_condition() {
    let source = r#"
        state Clamped {
            x: int

            invariant bounded {
                x >= 0 && x <= 100
            }

            init {
                x = 50
            }

            transition adjust(delta: int) {
                if x + delta > 100 {
                    x = 100
                } else {
                    x = x + delta
                }
            }
        }
    "#;
    let program = parse_source(source).unwrap();
    let states = queries_of(&program);
    let q = solve(&states[0].1[1]);
    let sum = bin(BinaryOp::Add, int_var("pre_x"), int_var("param_delta"));
    let merged = Term::Ite(
        Box::new(bin(BinaryOp::Gt, sum.duplicate(), lit(100))),
        Box::new(lit(100)),
        Box::new(sum),
    );
    assert!(q.assumptions.contains(&bin(BinaryOp::Eq, int_var("post_x"), merged)));
}

#[test]
fn match_merges_by_the_first_arm_taken() {
    let source = r#"
        state Modes {
            x: int

            invariant small {
                x <= 3
            }

            init {
                x = 0
            }

            transition pick(mode: int) {
                match mode {
                    0 => {
                        x = 1
                    },
                    1 => {
                        x = 2
                    },
                    _ => {
                        x = 3
                    }
                }
            }
        }
    "#;
    let program = parse_source(source).unwrap();
    let states = queries_of(&program);
    let q = solve(&states[0].1[1]);
    let arm = |v: i64| bin(BinaryOp::Eq, int_var("param_mode"), lit(v));
    let merged = Term::Ite(
        Box::new(arm(0)),
        Box::new(lit(1)),
        Box::new(Term::Ite(
            Box::new(arm(1)),
            Box::new(lit(2)),
            Box::new(Term::Ite(Box::new(Term::Bool(true)), Box::new(lit(3)), Box::new(int_var("pre_x")))),
        )),
    );
    assert!(q.assumptions.contains(&bin(BinaryOp::Eq, int_var("post_x"), merged)));
}

#[test]
fn refinements_constrain_fields_and_parameters() {
    let source = r#"
        type PositiveInt = int where value > 0

        state RefinementTest {
            amount: PositiveInt

            invariant positive {
                amount > 0
            }

            init {
                amount = 10
            }

            transition increase(delta: PositiveInt) {
                amount = amount + delta
            }
        }
    "#;
    let program = parse_source(source).unwrap();
    let states = queries_of(&program);
    let q = solve(&states[0].1[1]);
    assert!(q.assumptions.contains(&bin(BinaryOp::Gt, int_var("pre_amount"), lit(0))));
    assert!(q.assumptions.contains(&bin(BinaryOp::Gt, int_var("param_delta"), lit(0))));
}

#[test]
fn body_sees_registered_constants() {
    let source = r#"
        const STEP: int = 1

        state ConstBody {
            x: int

            invariant non_negative {
                x >= 0
            }

            init {
                x = 0
            }

            transition advance(n: int) {
                where {
                    n >= 0
                }
                let delta: int = n + STEP
                x = x + delta
                ensure {
                    x == old(x) + n + STEP
                }
            }
        }
    "#;
    let program = parse_source(source).unwrap();
    let states = queries_of(&program);
    let qs = &states[0].1;
    assert_eq!(qs.len(), 4);
    let q = solve(&qs[2]);
    let delta = bin(BinaryOp::Add, int_var("param_n"), lit(1));
    assert!(q.assumptions.contains(&bin(BinaryOp::Eq, int_var("post_x"), bin(BinaryOp::Add, int_var("pre_x"), delta))));
    let claim = bin(
        BinaryOp::Eq,
        int_var("post_x"),
        bin(BinaryOp::Add, bin(BinaryOp::Add, int_var("pre_x"), int_var("param_n")), lit(1)),
    );
    assert_eq!(q.negated_claim, Some(not(Term::All(vec![claim]))));
}

#[test]
fn field_access_cannot_be_encoded() {
    let source = r#"
        state Holder {
            x: int

            invariant odd {
                x.size > 0
            }

            init {
                x = 1
            }
        }
    "#;
    let program = parse_source(source).unwrap();
    let states = queries_of(&program);
    let qs = &states[0].1;
    assert_eq!(qs.len(), 1);
    match &qs[0] {
        CheckQuery::Unencodable(reasons) => assert_eq!(reasons.len(), 1),
        CheckQuery::Solve(_) => panic!("a field access should not encode"),
    }
}

#[test]
fn unencodable_claims_are_reported_as_failed_whatever_was_answered() {
    let source = r#"
        state Holder {
            x: int

            invariant odd {
                x.size > 0
            }

            init {
                x = 1
            }
        }
    "#;
    let program = parse_source(source).unwrap();
    let state = match &program.items[0].node {
        Item::State(s) => s,
        _ => panic!("expected a state"),
    };
    let states = queries_of(&program);
    let qs = &states[0].1;
    let answers = vec![Some(SolverOutcome::Verified)];
    let result = verification_result_from_queries(state, qs, &answers).unwrap();
    assert_eq!(result.checks.len(), 1);
    assert!(!result.checks[0].passed);
    let ce = result.checks[0].counterexample.as_ref().unwrap();
    assert!(ce.message.starts_with("could not encode invariant: "));
    let unanswered = vec![None];
    let again = verification_result_from_queries(state, qs, &unanswered).unwrap();
    assert!(!again.checks[0].passed);
    assert!(verification_result_from_queries(state, qs, &Vec::new()).is_none());
}

#[test]
fn every_encoded_claim_needs_an_answer() {
    let program = parse_source(SEQUENTIAL).unwrap();
    let state = match &program.items[0].node {
        Item::State(s) => s,
        _ => panic!("expected a state"),
    };
    let states = queries_of(&program);
    let qs = &states[0].1;
    let answers = vec![Some(SolverOutcome::Verified), None, Some(SolverOutcome::Verified)];
    assert!(verification_result_from_queries(state, qs, &answers).is_none());
    let all = vec![Some(SolverOutcome::Verified), Some(SolverOutcome::Verified), Some(SolverOutcome::Verified)];
    let result = verification_result_from_queries(state, qs, &all).unwrap();
    assert!(result.checks[0].passed);
    assert!(!result.checks[2].passed);
}

fn sp<T>(node: T) -> Spanned<T> {
    Spanned { node, span: Span { start: 0, end: 0 } }
}

#[test]
fn old_reads_the_value_before() {
    let mut env = TermMap::new();
    env.insert("x".to_string(), int_var("post_x"));
    env.insert("pre_x".to_string(), int_var("pre_x"));
    let e = Expr::BinaryOp {
        left: Box::new(sp(Expr::Ident("x".to_string()))),
        op: BinaryOp::Sub,
        right: Box::new(sp(Expr::Old(Box::new(sp(Expr::Ident("x".to_string())))))),
    };
    let t = encode_expr(&e, &env, &Vec::new(), false).unwrap();
    assert_eq!(t, bin(BinaryOp::Sub, int_var("post_x"), int_var("pre_x")));
    let missing = encode_expr(&Expr::Ident("y".to_string()), &env, &Vec::new(), false);
    assert!(missing.is_err());
}

#[test]
fn outcomes_become_reports_in_plan_order() {
    let program = parse_source(SEQUENTIAL).unwrap();
    let state = match &program.items[0].node {
        Item::State(s) => s,
        _ => panic!("expected a state"),
    };
    let outcomes = vec![SolverOutcome::Verified, SolverOutcome::Verified, SolverOutcome::Verified];
    let result = verification_result(state, &outcomes).unwrap();
    assert_eq!(result.state_name, "Seq");
    assert_eq!(result.checks.len(), 3);
    assert!(result.checks[0].passed);
    assert!(result.checks[1].passed);
    assert!(!result.checks[2].passed);
    assert!(matches!(
        &result.checks[2].kind,
        CheckKind::DeadTransition { transition_name } if transition_name == "step"
    ));
    let short = vec![SolverOutcome::Verified];
    assert!(verification_result(state, &short).is_none());
}

#[test]
fn enum_fields_are_not_framed() {
    let source = r#"
        enum Phase { A, B }
        state Machine {
            p: Phase

            invariant must_be_a {
                p == Phase::A
            }

            init {
                p = Phase::A
            }

            transition go_b() {
                p = Phase::B
            }
        }
    "#;
    let program = parse_source(source).unwrap();
    let mut verifier = Verifier::new();
    for item in &program.items {
        if let Item::EnumDef(e) = &item.node {
            verifier.register_enum(e);
        }
    }
    assert_eq!(verifier.enums, vec![("Phase".to_string(), vec!["A".to_string(), "B".to_string()])]);
    let state = match &program.items[1].node {
        Item::State(s) => s,
        _ => panic!("expected a state"),
    };
    let qs = verifier.verify_state(state);
    assert_eq!(qs.len(), 3);
    let phase = Sort::Enum("Phase".to_string());
    let a = Term::Variant("Phase".to_string(), "A".to_string());
    let q = solve(&qs[1]);
    // the invariant before the step is assumed; an enum field is not tied
    // to its value after the step, so the claim is left open
    assert_eq!(
        q.assumptions,
        vec![bin(BinaryOp::Eq, Term::Var("pre_p".to_string(), phase.duplicate()), a.duplicate())]
    );
    assert_eq!(q.negated_claim, Some(not(bin(BinaryOp::Eq, Term::Var("post_p".to_string(), phase), a))));
}

#[test]
fn encoding_and_evaluation_agree_on_an_example() {
    // 7 - 3 * (x / 2) with x = 9: the run time gives 7 - 3 * 4 = -5
    let program = parse_source(
        "state S { x: int  y: int  invariant i { y == 7 - 3 * (x / 2) }  init { x = 9  y = 0 } }",
    )
    .unwrap();
    let state = match &program.items[0].node {
        Item::State(s) => s,
        _ => panic!("expected a state"),
    };
    let cond = &state.invariants[0].condition;
    let rhs = match &cond.node {
        Expr::BinaryOp { right, .. } => right,
        _ => panic!("expected a comparison"),
    };
    let mut engine = Engine::new("S");
    engine.initialize_state(state).unwrap();
    let value = engine.eval_expr(rhs).unwrap();
    assert_eq!(value, verun::value::Value::Int(-5));
    let mut env = TermMap::new();
    env.insert("x".to_string(), Term::Var("pre_x".to_string(), Sort::Int));
    let t = encode_expr(&rhs.node, &env, &Vec::new(), false).unwrap();
    let expected = bin(
        BinaryOp::Sub,
        lit(7),
        bin(BinaryOp::Mul, lit(3), bin(BinaryOp::Div, int_var("pre_x"), lit(2))),
    );
    assert_eq!(t, expected);
}

fn assert_all_encoded(source: &str) -> usize {
    let program = parse_source(source).unwrap();
    let states = queries_of(&program);
    let mut total = 0;
    for (_, qs, planned) in &states {
        assert_eq!(qs.len(), *planned);
        for q in qs {
            solve(q);
        }
        total += qs.len();
    }
    total
}

#[test]
fn clamped_nested_if_queries_are_built() {
    let source = r#"
        state Clamped {
            x: int
            invariant bounded { x >= 0 && x <= 100 }
            init { x = 50 }
            transition adjust(delta: int) {
                where { delta >= -50 && delta <= 50 }
                if x + delta > 100 {
                    x = 100
                } else {
                    if x + delta < 0 {
                        x = 0
                    } else {
                        x = x + delta
                    }
                }
            }
        }
    "#;
    // init: one invariant; adjust: one invariant and dead
    assert_eq!(assert_all_encoded(source), 3);
    let program = parse_source(source).unwrap();
    let states = queries_of(&program);
    let q = solve(&states[0].1[1]);
    let delta = int_var("param_delta");
    assert!(q.assumptions.contains(&bin(BinaryOp::And,
        bin(BinaryOp::Gte, delta.duplicate(), Term::Unary(UnaryOp::Neg, Box::new(lit(50)))),
        bin(BinaryOp::Lte, delta, lit(50)))));
}

#[test]
fn enum_phase_queries_are_built() {
    let source = r#"
        enum Phase { A, B }
        state Machine {
            p: Phase
            invariant must_be_a { p == Phase::A }
            init { p = Phase::A }
            transition go_b() {
                p = Phase::B
                ensure { p == Phase::B }
            }
        }
    "#;
    // init: one invariant; go_b: one invariant, postcondition, dead
    assert_eq!(assert_all_encoded(source), 4);
}

#[test]
fn assert_and_implies_queries_are_built() {
    let asserts = r#"
        state AssertTest {
            x: int
            invariant bounded { x >= 0 && x <= 100 }
            init { x = 0 }
            transition set(val: int) {
                assert val >= 0
                assert val <= 100
                x = val
            }
        }
    "#;
    assert_eq!(assert_all_encoded(asserts), 3);
    let program = parse_source(asserts).unwrap();
    let states = queries_of(&program);
    let q = solve(&states[0].1[1]);
    let val = int_var("param_val");
    assert!(q.assumptions.contains(&bin(BinaryOp::Gte, val.duplicate(), lit(0))));
    assert!(q.assumptions.contains(&bin(BinaryOp::Lte, val, lit(100))));
    let implies = r#"
        state ImpliesTest {
            x: int
            active: bool
            invariant implies_check { active ==> x > 0 }
            init {
                x = 1
                active = false
            }
            transition activate() {
                where { x > 0 }
                active = true
            }
            transition set_value(val: int) {
                where { val > 0 }
                x = val
            }
        }
    "#;
    // init: one; each transition: one invariant and dead
    assert_eq!(assert_all_encoded(implies), 5);
}
