use verun::ast::{BinaryOp, CompoundOp, Expr, Item, MatchPattern, Statement, Type};
use verun::lexer::{lex, Sym, TokKind};
use verun::parser::{build_expr, build_program, parse_source, ParseProblem};

const COUNTER: &str = r#"
// A counter that stays between zero and its maximum.
state Counter {
    value: int
    max_value: int

    invariant non_negative { value >= 0 }
    invariant bounded { value <= max_value }

    init {
        value = 0
        max_value = 100
    }

    transition increment(amount: int) {
        where {
            amount > 0
            value + amount <= max_value
        }
        value += amount
        ensure { value == old(value) + amount }
    }

    transition decrement(amount: int) {
        where {
            amount > 0
            value >= amount
        }
        value -= amount
        ensure { value == old(value) - amount }
    }

    transition reset() {
        value = 0
        ensure { value == 0 }
    }
}
"#;

const TOKEN: &str = r#"
state Token {
    balance_a: int
    balance_b: int
    total_supply: int

    invariant conservation { balance_a + balance_b == total_supply }
    invariant non_negative_a { balance_a >= 0 }
    invariant non_negative_b { balance_b >= 0 }

    init {
        balance_a = 1000
        balance_b = 0
        total_supply = 1000
    }

    transition transfer_a_to_b(amount: int) {
        where {
            amount > 0
            balance_a >= amount
        }
        balance_a -= amount
        balance_b += amount
        ensure {
            balance_a == old(balance_a) - amount
            balance_b == old(balance_b) + amount
        }
        emit Transfer(amount)
    }

    transition mint(amount: int) {
        where { amount > 0 }
        balance_a += amount
        total_supply += amount
    }
}
"#;

const VOTING: &str = r#"
enum Phase { Registration, Voting, Closed }

const MAX_VOTERS: int = 100

state Election {
    phase: Phase
    voters: int
    votes_yes: int
    votes_no: int
    voted: map[int, bool]

    invariant votes_bounded { votes_yes + votes_no <= voters }
    invariant voters_bounded { voters >= 0 && voters <= MAX_VOTERS }

    init {
        phase = Phase::Registration
        voters = 0
        votes_yes = 0
        votes_no = 0
    }

    transition register() {
        where {
            phase == Phase::Registration
            voters < MAX_VOTERS
        }
        voters += 1
    }

    transition open() {
        where { phase == Phase::Registration }
        phase = Phase::Voting
    }

    transition vote(voter: int, yes: bool) {
        where {
            phase == Phase::Voting
            voter >= 0 && voter < voters
            !voted[voter]
            votes_yes + votes_no < voters
        }
        voted[voter] = true
        if yes {
            votes_yes += 1
        } else {
            votes_no += 1
        }
        emit Voted(voter)
    }

    transition close() {
        where { phase == Phase::Voting }
        phase = Phase::Closed
    }
}
"#;

const AUCTION: &str = r#"
import "std/math.verun" as math

enum AuctionState { Open, Ended }

type Amount = int where value >= 0

type Bid { bidder: int, amount: int }

extern fn now() -> int

fn max_of(a: int, b: int) -> int {
    let m: int = a
    if b > a {
        m = b
    }
}

state Auction {
    status: AuctionState
    highest_bid: Amount
    highest_bidder: int
    reserve: int
    bids: int[16]
    bid_count: int

    const MIN_STEP: int = 5

    invariant bid_above_zero { highest_bid >= 0 }
    invariant { bid_count >= 0 && bid_count <= 16 }

    init {
        status = AuctionState::Open
        highest_bid = 0
        highest_bidder = -1
        reserve = 50
        bid_count = 0
    }

    transition bid(bidder: int, amount: int) {
        where {
            status == AuctionState::Open
            amount >= highest_bid + MIN_STEP
            bid_count < 16
        }
        bids[bid_count] = amount
        bid_count += 1
        highest_bid = amount
        highest_bidder = bidder
        ensure { highest_bid == amount }
        emit NewHighBid(bidder, amount)
    }

    transition end() {
        where { status == AuctionState::Open }
        status = AuctionState::Ended
        assert highest_bid >= 0
        emit AuctionEnded
    }
}
"#;

const MATCH_WORKFLOW: &str = r#"
enum Stage { Draft, Review, Approved, Rejected }

state Workflow {
    stage: Stage
    revisions: int

    invariant revisions_non_negative { revisions >= 0 }

    init {
        stage = Stage::Draft
        revisions = 0
    }

    transition advance(approve: bool) {
        match stage {
            Stage::Draft => {
                stage = Stage::Review
            },
            Stage::Review => {
                if approve {
                    stage = Stage::Approved
                } else {
                    stage = Stage::Rejected
                }
            },
            Stage::Rejected => {
                stage = Stage::Draft
                revisions += 1
            },
            _ => {
                stage = stage
            }
        }
    }
}
"#;

#[test]
fn parse_counter_example() {
    let result = parse_source(COUNTER);
    assert!(result.is_ok(), "Failed to parse counter.verun: {:?}", result.err());
    let program = result.unwrap();
    assert!(!program.items.is_empty());
}

#[test]
fn parse_token_example() {
    let result = parse_source(TOKEN);
    assert!(result.is_ok(), "Failed to parse token.verun: {:?}", result.err());
}

#[test]
fn parse_voting_example() {
    let result = parse_source(VOTING);
    assert!(result.is_ok(), "Failed to parse voting.verun: {:?}", result.err());
}

#[test]
fn parse_minimal_state() {
    let source = r#"
        state Minimal {
            x: int

            init {
                x = 0
            }
        }
    "#;
    let result = parse_source(source);
    assert!(result.is_ok(), "Failed: {:?}", result.err());
}

#[test]
fn parse_with_invariant() {
    let source = r#"
        state Bounded {
            value: int

            invariant positive {
                value >= 0
            }

            init {
                value = 0
            }

            transition inc() {
                where {
                    value < 100
                }
                value += 1
            }
        }
    "#;
    let result = parse_source(source);
    assert!(result.is_ok(), "Failed: {:?}", result.err());
}

#[test]
fn parse_with_enum() {
    let source = r#"
        enum Status {
            Active,
            Inactive,
            Pending
        }

        state Machine {
            status: Status

            init {
                status = Status::Active
            }
        }
    "#;
    let result = parse_source(source);
    assert!(result.is_ok(), "Failed: {:?}", result.err());
}

#[test]
fn parse_with_types() {
    let source = r#"
        state WithTypes {
            count: int
            rate: real
            active: bool
            name: string

            init {
                count = 0
                rate = 1.5
                active = true
                name = "test"
            }
        }
    "#;
    let result = parse_source(source);
    assert!(result.is_ok(), "Failed: {:?}", result.err());
}

#[test]
fn parse_error_invalid_syntax() {
    let source = "state { }";
    let result = parse_source(source);
    assert!(result.is_err());
}

#[test]
fn parse_error_unclosed_brace() {
    let source = r#"
        state Broken {
            x: int
            init { x = 0
    "#;
    let result = parse_source(source);
    assert!(result.is_err());
}

#[test]
fn parse_error_missing_type() {
    let source = r#"
        state Bad {
            x:
            init { x = 0 }
        }
    "#;
    let result = parse_source(source);
    assert!(result.is_err());
}

#[test]
fn parse_error_invalid_operator() {
    let source = r#"
        state Bad {
            x: int
            init { x = 0 }
            transition go() {
                x = 1 ?? 2
            }
        }
    "#;
    let result = parse_source(source);
    assert!(result.is_err());
}

#[test]
fn parse_error_empty_enum() {
    let source = "enum Empty { }";
    let result = parse_source(source);
    assert!(result.is_err());
}

#[test]
fn parse_auction_example() {
    let result = parse_source(AUCTION);
    assert!(result.is_ok(), "Failed to parse auction.verun: {:?}", result.err());
}

#[test]
fn parse_if_else_nested() {
    let source = r#"
        state S {
            x: int
            init { x = 0 }
            transition go(n: int) {
                if n > 0 {
                    if n > 10 {
                        x = 10
                    } else {
                        x = n
                    }
                } else {
                    x = 0
                }
            }
        }
    "#;
    let result = parse_source(source);
    assert!(result.is_ok(), "Failed to parse nested if/else: {:?}", result.err());
}

#[test]
fn parse_transition_with_params() {
    let source = r#"
        state Account {
            balance: int

            invariant non_negative {
                balance >= 0
            }

            init {
                balance = 0
            }

            transition deposit(amount: int) {
                where {
                    amount > 0
                }
                balance += amount
                ensure {
                    balance == old(balance) + amount
                }
            }
        }
    "#;
    let result = parse_source(source);
    assert!(result.is_ok(), "Failed: {:?}", result.err());
}

#[test]
fn parse_with_const_let_match() {
    let source = r#"
        enum Mode { Idle, Busy }

        const LIMIT: int = 10

        state Machine {
            mode: Mode
            count: int

            init {
                mode = Mode::Idle
                count = 0
            }

            transition tick(next: Mode) {
                let local_limit: int = LIMIT
                match next {
                    Mode::Idle => {
                        count = 0
                    },
                    Mode::Busy => {
                        count = local_limit
                    }
                }
                mode = next
            }
        }
    "#;
    let result = parse_source(source);
    assert!(result.is_ok(), "Failed to parse const/let/match: {:?}", result.err());
}

#[test]
fn parse_else_if_chain() {
    let source = r#"
        state S {
            x: int
            init { x = 0 }
            transition go(v: int) {
                if v < 0 {
                    x = -1
                } else if v == 0 {
                    x = 0
                } else {
                    x = 1
                }
            }
        }
    "#;
    let result = parse_source(source);
    assert!(result.is_ok(), "Failed to parse else-if chain: {:?}", result.err());
}

#[test]
fn parse_match_workflow_example() {
    let result = parse_source(MATCH_WORKFLOW);
    assert!(result.is_ok(), "Failed to parse match_workflow.verun: {:?}", result.err());
}

#[test]
fn parse_preserves_assert_statement_order() {
    let source = r#"
        state S {
            x: int

            init {
                x = 0
            }

            transition step(v: int) {
                x = v
                assert x >= 0
                x = x + 1
            }
        }
    "#;

    let program = parse_source(source).expect("source should parse");
    let state = program
        .items
        .iter()
        .find_map(|item| match &item.node {
            Item::State(state) => Some(state),
            _ => None,
        })
        .expect("state should exist");
    let transition = state.transitions.iter().find(|t| t.name.node == "step").expect("transition should exist");

    assert_eq!(transition.body.len(), 3, "expected 3 statements in body");
    assert!(matches!(transition.body[0].node, Statement::Assign(_)), "first statement should be assignment");
    assert!(matches!(transition.body[1].node, Statement::Assert { .. }), "second statement should be assert");
    assert!(
        matches!(transition.body[2].node, Statement::Assign(_) | Statement::CompoundAssign { .. }),
        "third statement should be assignment/compound assignment"
    );
}

// ---- further behaviour of the reader ----

fn first_state(src: &str) -> verun::ast::StateDef {
    let program = parse_source(src).unwrap();
    for item in program.items {
        if let Item::State(s) = item.node {
            return s;
        }
    }
    panic!("no state in program");
}

fn single_expr(text: &str) -> Expr {
    let src = format!("const C: int = {}", text);
    let program = parse_source(&src).unwrap();
    match program.items.into_iter().next().unwrap().node {
        Item::ConstDef(c) => c.value.node,
        _ => panic!("expected a constant"),
    }
}

fn op_of(e: &Expr) -> BinaryOp {
    match e {
        Expr::BinaryOp { op, .. } => *op,
        other => panic!("expected a binary operation, got {:?}", other),
    }
}

#[test]
fn multiplication_binds_tighter_than_addition() {
    let e = single_expr("1 + 2 * 3");
    assert_eq!(op_of(&e), BinaryOp::Add);
    match e {
        Expr::BinaryOp { left, right, .. } => {
            assert_eq!(left.node, Expr::IntLit(1));
            assert_eq!(op_of(&right.node), BinaryOp::Mul);
        }
        _ => unreachable!(),
    }
}

#[test]
fn same_level_operators_group_to_the_left() {
    let e = single_expr("10 - 4 - 3");
    match e {
        Expr::BinaryOp { left, op, right } => {
            assert_eq!(op, BinaryOp::Sub);
            assert_eq!(op_of(&left.node), BinaryOp::Sub);
            assert_eq!(right.node, Expr::IntLit(3));
        }
        _ => panic!("expected a subtraction"),
    }
}

#[test]
fn parentheses_group_and_leave_no_node() {
    let e = single_expr("(1 + 2) * 3");
    match e {
        Expr::BinaryOp { left, op, .. } => {
            assert_eq!(op, BinaryOp::Mul);
            assert_eq!(op_of(&left.node), BinaryOp::Add);
        }
        _ => panic!("expected a product"),
    }
}

#[test]
fn implication_is_looser_than_conjunction() {
    let e = single_expr("a && b ==> c || d");
    assert_eq!(op_of(&e), BinaryOp::Implies);
}

#[test]
fn quantifier_reads_domain_and_body() {
    let e = single_expr("forall i in 0..n: values[i] >= 0");
    match e {
        Expr::Forall { var, domain, body } => {
            assert_eq!(var.node, "i");
            assert!(matches!(domain.node, Expr::Range { .. }));
            assert_eq!(op_of(&body.node), BinaryOp::Gte);
        }
        other => panic!("expected a quantifier, got {:?}", other),
    }
}

#[test]
fn accessors_calls_and_variants() {
    let e = single_expr("max(a.b[1], Color::Red)");
    match e {
        Expr::FnCall { name, args } => {
            assert_eq!(name.node, "max");
            assert_eq!(args.len(), 2);
            assert!(matches!(args[0].node, Expr::IndexAccess { .. }));
            assert_eq!(
                args[1].node,
                Expr::EnumVariant { enum_name: "Color".to_string(), variant: "Red".to_string() }
            );
        }
        other => panic!("expected a call, got {:?}", other),
    }
}

#[test]
fn types_are_read() {
    let s = first_state("state T { a: int[3] b: map[int, bool] c: Color d: string }");
    assert_eq!(s.fields[0].ty.node, Type::Array { element: Box::new(Type::Int), size: 3 });
    assert_eq!(s.fields[1].ty.node, Type::Mapping { key: Box::new(Type::Int), value: Box::new(Type::Bool) });
    assert_eq!(s.fields[2].ty.node, Type::Named("Color".to_string()));
    assert_eq!(s.fields[3].ty.node, Type::String);
}

#[test]
fn transition_clauses_are_sorted_into_their_lists() {
    let s = first_state(TOKEN);
    let t = &s.transitions[0];
    assert_eq!(t.name.node, "transfer_a_to_b");
    assert_eq!(t.params.len(), 1);
    assert_eq!(t.preconditions.len(), 2);
    assert_eq!(t.body.len(), 2);
    assert_eq!(t.postconditions.len(), 2);
    assert_eq!(t.emits.len(), 1);
    assert_eq!(t.emits[0].node.event_name.node, "Transfer");
    assert_eq!(s.invariants.len(), 3);
    assert_eq!(s.init.as_ref().unwrap().assignments.len(), 3);
}

#[test]
fn match_patterns_are_read() {
    let s = first_state(MATCH_WORKFLOW);
    match &s.transitions[0].body[0].node {
        Statement::Match { arms, .. } => {
            assert_eq!(arms.len(), 4);
            assert_eq!(arms[3].pattern.node, MatchPattern::Wildcard);
        }
        other => panic!("expected a match, got {:?}", other),
    }
}

#[test]
fn errors_name_the_problem() {
    assert_eq!(parse_source("enum Empty { }").unwrap_err().problem, ParseProblem::EmptyEnum);
    let e = parse_source("state S { x: int ? }").unwrap_err();
    assert_eq!(e.problem, ParseProblem::BadCharacter);
    assert_eq!(e.pos, 17);
    assert_eq!(parse_source("const C: int = 99999999999999999999").unwrap_err().problem, ParseProblem::InvalidNumber);
    assert_eq!(parse_source("state S {").unwrap_err().problem, ParseProblem::UnexpectedEnd);
    assert_eq!(parse_source("state S { 5 }").unwrap_err().problem, ParseProblem::UnexpectedToken);
}

#[test]
fn source_text_is_kept() {
    let p = parse_source(COUNTER).unwrap();
    assert_eq!(p.source, COUNTER);
    assert_eq!(p.items.len(), 1);
}

#[test]
fn build_expr_groups_by_precedence() {
    let toks = lex("a + b * c").unwrap();
    let e = build_expr(&toks).unwrap();
    match e.node {
        Expr::BinaryOp { left, op: BinaryOp::Add, right } => {
            assert_eq!(left.node, Expr::Ident("a".to_string()));
            assert!(matches!(right.node, Expr::BinaryOp { op: BinaryOp::Mul, .. }));
        }
        other => panic!("unexpected expression {:?}", other),
    }
}

#[test]
fn build_expr_rejects_leftover_tokens() {
    let toks = lex("a b").unwrap();
    let err = build_expr(&toks).unwrap_err();
    assert_eq!(err.problem, ParseProblem::UnexpectedToken);
    assert_eq!(err.pos, 2);
    assert!(build_expr(&lex("").unwrap()).is_err());
}

#[test]
fn build_program_keeps_the_source() {
    let text = "enum Side { Buy, Sell }";
    let program = build_program(&lex(text).unwrap(), text).unwrap();
    assert_eq!(program.source, text);
    assert_eq!(program.items.len(), 1);
    assert!(matches!(program.items[0].node, Item::EnumDef(_)));
}

#[test]
fn build_expr_range_takes_one_operand_on_its_right() {
    // `..` takes a single operand on its right; a later operator then
    // applies to the whole range
    let e = build_expr(&lex("a .. b + c").unwrap()).unwrap();
    match e.node {
        Expr::BinaryOp { left, op: BinaryOp::Add, right } => {
            assert!(matches!(left.node, Expr::Range { .. }));
            assert_eq!(right.node, Expr::Ident("c".to_string()));
        }
        other => panic!("unexpected expression {:?}", other),
    }
    let e = build_expr(&lex("a - b - c").unwrap()).unwrap();
    match e.node {
        Expr::BinaryOp { left, op: BinaryOp::Sub, right } => {
            assert!(matches!(left.node, Expr::BinaryOp { op: BinaryOp::Sub, .. }));
            assert_eq!(right.node, Expr::Ident("c".to_string()));
        }
        other => panic!("unexpected expression {:?}", other),
    }
}

#[test]
fn build_expr_quantifier_body_extends_to_the_end() {
    let e = build_expr(&lex("forall i in 0..n: a && b").unwrap()).unwrap();
    match e.node {
        Expr::Forall { body, .. } => {
            assert!(matches!(body.node, Expr::BinaryOp { op: BinaryOp::And, .. }));
        }
        other => panic!("unexpected expression {:?}", other),
    }
}

#[test]
fn lexing_takes_the_longest_token() {
    let kinds = |text: &str| -> Vec<TokKind> { lex(text).unwrap().into_iter().map(|t| t.kind).collect() };
    assert_eq!(kinds("ab1"), vec![TokKind::Ident("ab1".to_string())]);
    assert_eq!(
        kinds("0..10"),
        vec![TokKind::Int("0".to_string()), TokKind::Sym(Sym::DotDot), TokKind::Int("10".to_string())]
    );
    assert_eq!(kinds("1.5"), vec![TokKind::Real("1.5".to_string())]);
    assert_eq!(kinds("a ==> b"), vec![
        TokKind::Ident("a".to_string()),
        TokKind::Sym(Sym::Implies),
        TokKind::Ident("b".to_string()),
    ]);
    assert_eq!(kinds("x // note\n y"), vec![TokKind::Ident("x".to_string()), TokKind::Ident("y".to_string())]);
    assert_eq!(kinds("in inner"), vec![
        TokKind::Keyword(verun::lexer::Keyword::In),
        TokKind::Ident("inner".to_string()),
    ]);
    let err = lex("a # b").unwrap_err();
    assert_eq!(err.pos, 2);
    let err = lex("\"open").unwrap_err();
    assert_eq!(err.pos, 0);
}

#[test]
fn build_expr_reads_accessors_calls_and_groups() {
    let e = build_expr(&lex("f(a.b[i + 1], (c - d) * e)").unwrap()).unwrap();
    match e.node {
        Expr::FnCall { name, args } => {
            assert_eq!(name.node, "f");
            assert_eq!(args.len(), 2);
            match &args[0].node {
                Expr::IndexAccess { object, index } => {
                    assert!(matches!(object.node, Expr::FieldAccess { .. }));
                    assert!(matches!(index.node, Expr::BinaryOp { op: BinaryOp::Add, .. }));
                }
                other => panic!("unexpected argument {:?}", other),
            }
            match &args[1].node {
                Expr::BinaryOp { left, op: BinaryOp::Mul, .. } => {
                    assert!(matches!(left.node, Expr::BinaryOp { op: BinaryOp::Sub, .. }));
                }
                other => panic!("unexpected argument {:?}", other),
            }
        }
        other => panic!("unexpected expression {:?}", other),
    }
    let e = build_expr(&lex("-x == !y").unwrap()).unwrap();
    assert!(matches!(e.node, Expr::BinaryOp { op: BinaryOp::Eq, .. }));
}

#[test]
fn build_expr_refuses_what_no_expression_writes() {
    // an integer out of the range of i64 stands for no value
    let err = build_expr(&lex("99999999999999999999").unwrap()).unwrap_err();
    assert_eq!(err.problem, ParseProblem::InvalidNumber);
    assert!(build_expr(&lex("a +").unwrap()).is_err());
    assert!(build_expr(&lex("(a").unwrap()).is_err());
    assert!(build_expr(&lex("f(a,)").unwrap()).is_err());
    assert!(build_expr(&lex("forall i in r b").unwrap()).is_err());
}

#[test]
fn enum_paths_join_all_but_the_last_segment() {
    let e = build_expr(&lex("A::B::C").unwrap()).unwrap();
    assert_eq!(e.node, Expr::EnumVariant { enum_name: "A::B".to_string(), variant: "C".to_string() });
    let e = build_expr(&lex("Side::Buy").unwrap()).unwrap();
    assert_eq!(e.node, Expr::EnumVariant { enum_name: "Side".to_string(), variant: "Buy".to_string() });
    let source = r#"
        state S {
            x: int
            transition t() {
                match x {
                    A::B::C => { x = 1 },
                    _ => { x = 2 }
                }
            }
        }
    "#;
    let program = parse_source(source).unwrap();
    let Item::State(state) = &program.items[0].node else { panic!("expected a state") };
    match &state.transitions[0].body[0].node {
        Statement::Match { arms, .. } => {
            assert_eq!(
                arms[0].pattern.node,
                MatchPattern::EnumVariant { enum_name: "A::B".to_string(), variant: "C".to_string() }
            );
        }
        other => panic!("unexpected statement {:?}", other),
    }
}

#[test]
fn statements_map_to_their_forms() {
    let source = r#"
        state S {
            x: int
            a: int[3]
            transition t(v: int) {
                x += v
                x -= v
                x *= v
                x /= v
                a[0] += v
                a[1] = v
                let n: int = v
                if x > 0 {
                    x = 1
                } else if x < 0 {
                    x = 2
                } else {
                    x = 3
                }
                if x == 1 {
                    x = 4
                }
            }
        }
    "#;
    let program = parse_source(source).unwrap();
    let Item::State(state) = &program.items[0].node else { panic!("expected a state") };
    let body = &state.transitions[0].body;
    let ops: Vec<CompoundOp> = body[..4]
        .iter()
        .map(|s| match &s.node {
            Statement::CompoundAssign { op, .. } => *op,
            other => panic!("unexpected statement {:?}", other),
        })
        .collect();
    assert_eq!(ops, vec![CompoundOp::Add, CompoundOp::Sub, CompoundOp::Mul, CompoundOp::Div]);
    assert!(matches!(body[4].node, Statement::IndexedCompoundAssign { op: CompoundOp::Add, .. }));
    assert!(matches!(body[5].node, Statement::IndexedAssign { .. }));
    match &body[6].node {
        Statement::Let { name, ty, .. } => {
            assert_eq!(name.node, "n");
            assert_eq!(ty.as_ref().unwrap().node, Type::Int);
        }
        other => panic!("unexpected statement {:?}", other),
    }
    match &body[7].node {
        Statement::If { else_body: Some(e), .. } => {
            assert_eq!(e.len(), 1);
            assert!(matches!(e[0].node, Statement::If { else_body: Some(_), .. }));
        }
        other => panic!("unexpected statement {:?}", other),
    }
    assert!(matches!(body[8].node, Statement::If { else_body: None, .. }));
}

#[test]
fn every_item_form_is_read() {
    let src = r#"
        import "lib/shapes" as shapes
        import "lib/plain"
        enum Light { Red, Green, }
        type Point { x: int, y: int }
        type Small = int where value < 10
        const LIMIT: int = 3
        extern fn oracle(a: int) -> bool
        fn twice(a: int) -> int { let b = a + a }
        state Lamp {
            on: bool
            invariant { on == on }
            init { on = false }
            transition flip() { on = !on }
        }
    "#;
    let program = parse_source(src).unwrap();
    assert_eq!(program.items.len(), 9);
    match &program.items[0].node {
        Item::Import(im) => {
            assert_eq!(im.path.node, "lib/shapes");
            assert_eq!(im.alias.as_ref().unwrap().node, "shapes");
        }
        _ => panic!("expected an import"),
    }
    match &program.items[1].node {
        Item::Import(im) => assert!(im.alias.is_none()),
        _ => panic!("expected an import"),
    }
    match &program.items[2].node {
        Item::EnumDef(e) => {
            assert_eq!(e.variants.len(), 2);
            assert_eq!(e.variants[1].node, "Green");
        }
        _ => panic!("expected an enum"),
    }
    match &program.items[3].node {
        Item::TypeDef(td) => {
            assert_eq!(td.fields.len(), 2);
            assert!(td.alias.is_none());
        }
        _ => panic!("expected a record type"),
    }
    match &program.items[4].node {
        Item::TypeDef(td) => {
            assert!(td.fields.is_empty());
            assert!(matches!(td.alias.as_ref().unwrap().node, Type::Int));
            assert!(td.refinement.is_some());
        }
        _ => panic!("expected an alias"),
    }
    match &program.items[6].node {
        Item::Function(f) => {
            assert!(f.is_extern);
            assert!(f.body.is_none());
            assert_eq!(f.params.len(), 1);
        }
        _ => panic!("expected a function"),
    }
    match &program.items[7].node {
        Item::Function(f) => {
            assert!(!f.is_extern);
            assert_eq!(f.body.as_ref().unwrap().len(), 1);
        }
        _ => panic!("expected a function"),
    }
    match &program.items[8].node {
        Item::State(s) => {
            assert_eq!(s.fields.len(), 1);
            assert!(s.invariants[0].name.is_none());
            assert_eq!(s.init.as_ref().unwrap().assignments.len(), 1);
            assert_eq!(s.transitions[0].body.len(), 1);
        }
        _ => panic!("expected a state"),
    }
}

#[test]
fn else_if_and_match_nest_in_blocks() {
    let src = r#"
        enum Phase { A, B }
        state Machine {
            p: Phase
            n: int
            transition step() {
                if n > 0 {
                    match p {
                        Phase::A => { n = n - 1 },
                        Phase::B => { if n > 5 { n = 5 } else if n > 2 { n = 2 } else { n = 0 } }
                    }
                }
            }
        }
    "#;
    let s = first_state(src);
    let body = &s.transitions[0].body;
    assert_eq!(body.len(), 1);
    match &body[0].node {
        Statement::If { then_body, else_body, .. } => {
            assert!(else_body.is_none());
            match &then_body[0].node {
                Statement::Match { arms, .. } => {
                    assert_eq!(arms.len(), 2);
                    match &arms[1].body[0].node {
                        Statement::If { else_body: Some(e), .. } => {
                            assert_eq!(e.len(), 1);
                            assert!(matches!(&e[0].node, Statement::If { else_body: Some(_), .. }));
                        }
                        _ => panic!("expected an if with an else"),
                    }
                }
                _ => panic!("expected a match"),
            }
        }
        _ => panic!("expected an if"),
    }
}
