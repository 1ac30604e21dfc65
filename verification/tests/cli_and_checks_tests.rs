use verun::ast::{
    Assignment, BinaryOp, Expr, InitBlock, Invariant, Span, Spanned, StateDef, Transition,
};
use verun::checks::{
    make_report, planned_checks, verification_result, CheckKind, Counterexample, PlannedCheck,
    SolverOutcome,
};
use verun::cli::{parse_i64, parse_transition_spec, parse_value};
use verun::error::RuntimeError;
use verun::value::{Value, ValueMap};

fn sp<T>(node: T) -> Spanned<T> {
    Spanned { node, span: Span { start: 0, end: 0 } }
}

#[test]
fn transition_spec_without_arguments() {
    assert_eq!(parse_transition_spec("reset"), ("reset".to_string(), vec![]));
    assert_eq!(parse_transition_spec("reset()"), ("reset".to_string(), vec![]));
}

#[test]
fn transition_spec_with_arguments() {
    let (name, args) = parse_transition_spec("deposit( 10 ,Side::Buy,  x )");
    assert_eq!(name, "deposit");
    assert_eq!(args, vec!["10".to_string(), "Side::Buy".to_string(), "x".to_string()]);
    let (_, args) = parse_transition_spec("f(a,,b)");
    assert_eq!(args, vec!["a".to_string(), "".to_string(), "b".to_string()]);
}

#[test]
fn argument_values() {
    assert_eq!(parse_value("42"), Value::Int(42));
    assert_eq!(parse_value("-7"), Value::Int(-7));
    assert_eq!(parse_value("+7"), Value::Int(7));
    assert_eq!(parse_value("true"), Value::Bool(true));
    assert_eq!(parse_value("false"), Value::Bool(false));
    assert_eq!(
        parse_value("Side::Buy"),
        Value::Enum { enum_name: "Side".to_string(), variant: "Buy".to_string() }
    );
    assert_eq!(parse_value("::Buy"), Value::String("::Buy".to_string()));
    assert_eq!(parse_value("Side::"), Value::String("Side::".to_string()));
    assert_eq!(parse_value("hello"), Value::String("hello".to_string()));
    assert_eq!(parse_value("99999999999999999999"), Value::String("99999999999999999999".to_string()));
}

#[test]
fn integer_text() {
    assert_eq!(parse_i64("9223372036854775807"), Some(i64::MAX));
    assert_eq!(parse_i64("-9223372036854775808"), Some(i64::MIN));
    assert_eq!(parse_i64("9223372036854775808"), None);
    assert_eq!(parse_i64("-"), None);
    assert_eq!(parse_i64(""), None);
    assert_eq!(parse_i64("1x"), None);
    assert_eq!(parse_i64(" 1"), None);
}

fn inv(name: Option<&str>) -> Invariant {
    Invariant {
        name: name.map(|n| sp(n.to_string())),
        condition: sp(Expr::BoolLit(true)),
        span: Span { start: 3, end: 9 },
    }
}

fn trans(name: &str, posts: usize) -> Transition {
    Transition {
        name: sp(name.to_string()),
        params: vec![],
        preconditions: vec![],
        body: vec![],
        postconditions: (0..posts).map(|_| sp(Expr::BoolLit(true))).collect(),
        emits: vec![],
        span: Span { start: 20, end: 30 },
    }
}

fn sample_state() -> StateDef {
    StateDef {
        name: sp("S".to_string()),
        fields: vec![],
        constants: vec![],
        invariants: vec![inv(Some("positive")), inv(None)],
        init: Some(InitBlock { assignments: Vec::<Assignment>::new(), span: Span { start: 0, end: 0 } }),
        transitions: vec![trans("inc", 1), trans("reset", 0)],
    }
}

#[test]
fn checks_are_planned_in_order() {
    let plan = planned_checks(&sample_state());
    let names: Vec<String> = plan.iter().map(|c| c.kind.describe()).collect();
    assert_eq!(
        names,
        vec![
            "init satisfies invariant 'positive'",
            "init satisfies invariant 'invariant_1'",
            "transition 'inc' preserves invariant 'positive'",
            "transition 'inc' preserves invariant 'invariant_1'",
            "postcondition of 'inc' holds",
            "transition 'inc' is reachable (not dead)",
            "transition 'reset' preserves invariant 'positive'",
            "transition 'reset' preserves invariant 'invariant_1'",
            "transition 'reset' is reachable (not dead)",
        ]
    );
}

#[test]
fn reports_follow_solver_outcomes() {
    let state = sample_state();
    let n = planned_checks(&state).len();
    let mut outcomes: Vec<SolverOutcome> = (0..n).map(|_| SolverOutcome::Verified).collect();
    outcomes[1] = SolverOutcome::Failed { values: vec![("x".to_string(), "-1".to_string())] };
    outcomes[3] = SolverOutcome::NotEncoded { warnings: vec!["a".to_string(), "b".to_string()] };
    outcomes[4] = SolverOutcome::Unknown { reason: "timeout".to_string() };
    let res = verification_result(&state, &outcomes).unwrap();
    assert_eq!(res.state_name, "S");
    let passed: Vec<bool> = res.checks.iter().map(|c| c.passed).collect();
    // a dead-transition check fails exactly when the solver verified it
    assert_eq!(passed, vec![true, false, true, false, false, false, true, true, false]);
    let msg = |i: usize| res.checks[i].counterexample.as_ref().unwrap().message.clone();
    assert_eq!(msg(1), "init violates invariant 'invariant_1'");
    assert_eq!(msg(3), "could not encode invariant 'invariant_1': a; b");
    assert_eq!(msg(4), "solver returned unknown: timeout");
    assert_eq!(msg(5), "transition 'inc' precondition is unsatisfiable (dead transition)");
    assert_eq!(res.checks[1].counterexample.as_ref().unwrap().values, vec![("x".to_string(), "-1".to_string())]);
    assert_eq!(res.checks[3].counterexample.as_ref().unwrap().span, Some(Span { start: 3, end: 9 }));
    assert_eq!(res.checks[5].counterexample.as_ref().unwrap().span, Some(Span { start: 20, end: 30 }));
    assert!(res.checks[0].counterexample.is_none());
    assert!(verification_result(&state, &outcomes[..n - 1].iter().map(|_| SolverOutcome::Verified).collect()).is_none());
}

#[test]
fn single_report() {
    let check = PlannedCheck {
        kind: CheckKind::PostconditionHolds { transition_name: "t".to_string() },
        model_span: Span { start: 1, end: 2 },
        encode_span: Span { start: 5, end: 6 },
    };
    let r = make_report(&check, &SolverOutcome::NotEncoded { warnings: vec![] });
    assert!(!r.passed);
    assert_eq!(r.counterexample.as_ref().unwrap().message, "could not encode postcondition of 't'");
    let c = Counterexample::new("m".to_string(), vec![], None).with_expression("x > 0".to_string());
    assert_eq!(c.expression, Some("x > 0".to_string()));
    let _ = BinaryOp::Add;
}


// ---- the run command ----

const BANK: &str = r#"
const START: int = 5

state Bank {
    balance: int
    owner: string

    invariant non_negative { balance >= 0 }

    init {
        balance = START
        owner = "ann"
    }

    transition deposit(amount: int) {
        where { amount > 0 }
        balance += amount
        emit Deposited(amount, balance)
    }

    transition withdraw(amount: int) {
        balance -= amount
    }
}

state Flag {
    on: bool
    init { on = false }
    transition deposit(x: int) { on = true }
}
"#;

#[test]
fn run_sets_up_each_state_and_takes_the_call() {
    let program = verun::parser::parse_source(BANK).unwrap();
    let report = verun::run::run_program(&program, Some("deposit(10)"));
    assert!(report.error.is_none());
    assert_eq!(report.runs.len(), 2);
    let bank = &report.runs[0];
    assert_eq!(bank.state_name, "Bank");
    assert_eq!(bank.fields_after_init.get("balance"), Some(&Value::Int(5)));
    let taken = bank.transition.as_ref().unwrap();
    assert_eq!(taken.events.len(), 1);
    assert_eq!(taken.events[0].name, "Deposited");
    assert_eq!(taken.events[0].args, vec![Value::Int(10), Value::Int(15)]);
    assert_eq!(taken.fields_after.get("balance"), Some(&Value::Int(15)));
    let flag = &report.runs[1];
    assert_eq!(flag.transition.as_ref().unwrap().fields_after.get("on"), Some(&Value::Bool(true)));
}

#[test]
fn run_without_a_call_only_sets_up() {
    let program = verun::parser::parse_source(BANK).unwrap();
    let report = verun::run::run_program(&program, None);
    assert!(report.error.is_none());
    assert_eq!(report.runs.len(), 2);
    assert!(report.runs.iter().all(|r| r.transition.is_none()));
    assert_eq!(report.runs[0].fields_after_init.get("owner"), Some(&Value::String("ann".to_string())));
}

#[test]
fn run_stops_at_the_first_error() {
    let program = verun::parser::parse_source(BANK).unwrap();
    let report = verun::run::run_program(&program, Some("withdraw(9)"));
    assert_eq!(report.runs.len(), 1);
    assert!(report.runs[0].transition.is_none());
    let err = report.error.unwrap();
    assert_eq!(
        err,
        verun::run::RunError::Runtime(verun::error::RuntimeError::InvariantViolated {
            invariant_name: "non_negative".to_string(),
            transition_name: "withdraw".to_string()
        })
    );
    assert_eq!(err.message(), "invariant 'non_negative' violated after transition 'withdraw'");
}

#[test]
fn run_reports_an_unknown_transition() {
    let program = verun::parser::parse_source(BANK).unwrap();
    let report = verun::run::run_program(&program, Some("close()"));
    assert_eq!(report.runs.len(), 1);
    let err = report.error.unwrap();
    assert_eq!(err, verun::run::RunError::TransitionNotFound("close".to_string()));
    assert_eq!(err.message(), "transition 'close' not found");
}

#[test]
fn run_reports_a_failed_precondition() {
    let program = verun::parser::parse_source(BANK).unwrap();
    let report = verun::run::run_program(&program, Some("deposit(0)"));
    assert_eq!(report.error.unwrap().message(), "precondition failed for transition 'deposit'");
}

#[test]
fn calls_that_cannot_be_read() {
    assert!(verun::cli::transition_spec_readable("go"));
    assert!(verun::cli::transition_spec_readable("go(1, 2)"));
    assert!(!verun::cli::transition_spec_readable("go("));
    assert!(!verun::cli::transition_spec_readable("go(1é"));
}

#[test]
fn values_are_shown() {
    assert_eq!(Value::Int(-3).display_text(), "-3");
    assert_eq!(Value::Bool(false).display_text(), "false");
    assert_eq!(Value::Null.display_text(), "null");
    assert_eq!(
        Value::Enum { enum_name: "Mode".to_string(), variant: "Idle".to_string() }.display_text(),
        "Mode::Idle"
    );
    assert_eq!(Value::Array(vec![Value::Int(1), Value::Int(2)]).display_text(), "[1, 2]");
    let mut m = ValueMap::new();
    m.insert("a".to_string(), Value::Int(1));
    m.insert("b".to_string(), Value::String("x".to_string()));
    assert_eq!(Value::Mapping(m).display_text(), "{a: 1, b: x}");
}

#[test]
fn runtime_error_messages() {
    assert_eq!(RuntimeError::DivisionByZero.message(), "division by zero");
    assert_eq!(RuntimeError::UndefinedVariable("x".to_string()).message(), "undefined variable: x");
    assert_eq!(
        RuntimeError::IndexOutOfBounds { index: -1, len: 4 }.message(),
        "array index -1 out of bounds (len 4)"
    );
    assert_eq!(RuntimeError::IndexOutOfRange(7).message(), "index 7 out of bounds");
    assert_eq!(
        RuntimeError::BuiltinArgument("min".to_string()).message(),
        "min() requires two numeric arguments of the same type"
    );
    assert_eq!(RuntimeError::BuiltinArgument("abs".to_string()).message(), "abs() requires a numeric argument");
}

#[test]
fn displayed_arguments_read_back() {
    let values = vec![
        Value::Int(-42),
        Value::Int(0),
        Value::Int(i64::MIN),
        Value::Int(i64::MAX),
        Value::Bool(true),
        Value::Bool(false),
        Value::Enum { enum_name: "Side".to_string(), variant: "Buy".to_string() },
    ];
    for v in values {
        let text = v.display_text();
        assert_eq!(parse_value(&text), v, "text {}", text);
    }
}
