//! Properties of the language that hold for every program.
use vstd::prelude::*;
use crate::ast::{Assignment, BinaryOp, CompoundOp, Emit, UnaryOp, Expr, Field, Invariant, MatchArm, MatchPattern, Param, Spanned, StateDef, Statement, Transition};
use crate::error::RtErr;
use crate::semantics::{
    binary, compound, exec_arms, exec_stmt, field_or_zero, lookup, pattern_matches, truthy,
    check_invariants, check_post, check_pre, default_value, eval, eval_exists, eval_forall, eval_post,
    eval_emits, eval_list, exec_block, is_false, is_true, run_assignments, run_transition, set_defaults, Env,
};
use crate::run::bind_args;
use crate::parser::{writes, Deriv};
use crate::lexer::Token;
use crate::value::{value_display, Val, Value};
use crate::cli::{all_digits, argument_value, digit_value, digits_value, first_path_sep, is_digit, parse_int, unsigned_part};
use crate::text::{decimal, digit_char};
use crate::checks::{init_plan, plan, transition_plan, transitions_plan, CheckReport, KindView, SolverOutcome, VerificationResult};
use crate::queries::{
    claim_query, condition_terms, dead_query, fields_env, with_params, init_queries, queries_view, reported_as, CheckQuery, state_consts, state_queries, transition_queries, transitions_queries,
    Fns, QueryV, Refs,
};
use crate::symbolic::{
    arm_condition, compound_binop, encode, kind, match_select, merge_if, merge_match, mergeable, ssa_arms, ssa_block, ssa_else, ssa_stmt, sval,
    term_sem, unassigned, Kind, SVal, Ssa, TermV, Env as TermEnv,
};

verus! {

proof fn lemma_check_invariants_none(fields: Env, invs: Seq<Invariant>, k: int, name: Seq<char>)
    requires
        0 <= k,
        check_invariants(fields, invs, k, name) is None,
    ensures
        forall|i: int| k <= i < invs.len() ==> is_true(#[trigger] eval(fields, Map::empty(), invs[i].condition.node)),
    decreases invs.len() - k,
{
    if k < invs.len() {
        lemma_check_invariants_none(fields, invs, k + 1, name);
    }
}

proof fn lemma_check_pre_none(fields: Env, params: Env, pres: Seq<Spanned<Expr>>, name: Seq<char>)
    requires
        check_pre(fields, params, pres, name) is None,
    ensures
        forall|i: int| 0 <= i < pres.len() ==> is_true(#[trigger] eval(fields, params, pres[i].node)),
    decreases pres.len(),
{
    if pres.len() > 0 {
        lemma_check_pre_none(fields, params, pres.drop_first(), name);
        assert forall|i: int| 0 <= i < pres.len() implies is_true(#[trigger] eval(fields, params, pres[i].node)) by {
            if i > 0 {
                assert(pres[i] == pres.drop_first()[i - 1]);
            }
        }
    }
}

proof fn lemma_check_post_none(fields: Env, pre: Env, params: Env, posts: Seq<Spanned<Expr>>, name: Seq<char>)
    requires
        check_post(fields, pre, params, posts, name) is None,
    ensures
        forall|i: int| 0 <= i < posts.len() ==> is_true(#[trigger] eval_post(fields, pre, params, posts[i].node)),
    decreases posts.len(),
{
    if posts.len() > 0 {
        lemma_check_post_none(fields, pre, params, posts.drop_first(), name);
        assert forall|i: int| 0 <= i < posts.len() implies is_true(#[trigger] eval_post(fields, pre, params, posts[i].node)) by {
            if i > 0 {
                assert(posts[i] == posts.drop_first()[i - 1]);
            }
        }
    }
}

proof fn lemma_check_pre_false(fields: Env, params: Env, pres: Seq<Spanned<Expr>>, name: Seq<char>, k: int)
    requires
        0 <= k < pres.len(),
        forall|j: int| 0 <= j < k ==> is_true(#[trigger] eval(fields, params, pres[j].node)),
        is_false(eval(fields, params, pres[k].node)),
    ensures
        check_pre(fields, params, pres, name) == Some(RtErr::PreconditionFailed(name)),
    decreases k,
{
    if k > 0 {
        let rest = pres.drop_first();
        assert(is_true(eval(fields, params, pres[0].node)));
        assert forall|j: int| 0 <= j < k - 1 implies is_true(#[trigger] eval(fields, params, rest[j].node)) by {
            assert(rest[j] == pres[j + 1]);
        }
        assert(rest[k - 1] == pres[k]);
        lemma_check_pre_false(fields, params, rest, name, k - 1);
    }
}

/// After a transition that succeeds, every invariant evaluates to a true
/// value in the new fields.
pub proof fn law_success_establishes_invariants(fields: Env, t: Transition, args: Env, invs: Seq<Invariant>)
    requires
        run_transition(fields, t, args, invs).result is Ok,
    ensures
        forall|i: int| 0 <= i < invs.len() ==>
            is_true(#[trigger] eval(run_transition(fields, t, args, invs).fields, Map::empty(), invs[i].condition.node)),
{
    let b = exec_block(fields, args, t.body@);
    lemma_check_invariants_none(b.fields, invs, 0, t.name.node@);
}

/// A transition that succeeds had every precondition true in the fields it
/// started from, with its arguments bound.
pub proof fn law_success_required_preconditions(fields: Env, t: Transition, args: Env, invs: Seq<Invariant>)
    requires
        run_transition(fields, t, args, invs).result is Ok,
    ensures
        forall|i: int| 0 <= i < t.preconditions@.len() ==>
            is_true(#[trigger] eval(fields, args, t.preconditions@[i].node)),
{
    lemma_check_pre_none(fields, args, t.preconditions@, t.name.node@);
}

/// After a transition that succeeds, every postcondition is true, with
/// `old(e)` read in the fields the transition started from.
pub proof fn law_success_establishes_postconditions(fields: Env, t: Transition, args: Env, invs: Seq<Invariant>)
    requires
        run_transition(fields, t, args, invs).result is Ok,
    ensures
        forall|i: int| 0 <= i < t.postconditions@.len() ==>
            is_true(#[trigger] eval_post(
                run_transition(fields, t, args, invs).fields,
                fields,
                exec_block(fields, args, t.body@).params,
                t.postconditions@[i].node,
            )),
{
    let b = exec_block(fields, args, t.body@);
    lemma_check_post_none(b.fields, fields, b.params, t.postconditions@, t.name.node@);
}

/// When the preconditions before the `k`-th hold and the `k`-th is false, the
/// transition is refused with `PreconditionFailed` and no field changes.
pub proof fn law_refused_precondition_changes_nothing(fields: Env, t: Transition, args: Env, invs: Seq<Invariant>, k: int)
    requires
        0 <= k < t.preconditions@.len(),
        forall|j: int| 0 <= j < k ==> is_true(#[trigger] eval(fields, args, t.preconditions@[j].node)),
        is_false(eval(fields, args, t.preconditions@[k].node)),
    ensures
        run_transition(fields, t, args, invs).fields == fields,
        run_transition(fields, t, args, invs).result == Err::<Seq<(Seq<char>, Seq<Val>)>, RtErr>(RtErr::PreconditionFailed(t.name.node@)),
{
    lemma_check_pre_false(fields, args, t.preconditions@, t.name.node@, k);
}

/// A field that was just written reads back as the value written, when no
/// local binding of the same name shadows it.
pub proof fn law_written_field_reads_back(fields: Env, params: Env, name: String, v: Val)
    requires
        !params.contains_key(name@),
    ensures
        eval(fields.insert(name@, v), params, Expr::Ident(name)) == Ok::<Val, RtErr>(v),
{
}

/// Init assignments leave alone every field that none of them targets.
pub proof fn law_init_keeps_untargeted_fields(fields: Env, assigns: Seq<Assignment>, k: Seq<char>)
    requires
        forall|i: int| 0 <= i < assigns.len() ==> (#[trigger] assigns[i]).target.node@ != k,
    ensures
        run_assignments(fields, assigns).fields.contains_key(k) == fields.contains_key(k),
        fields.contains_key(k) ==> run_assignments(fields, assigns).fields[k] == fields[k],
    decreases assigns.len(),
{
    if assigns.len() > 0 {
        let rest = assigns.drop_first();
        assert forall|i: int| 0 <= i < rest.len() implies (#[trigger] rest[i]).target.node@ != k by {
            assert(rest[i] == assigns[i + 1]);
        }
        assert(assigns[0].target.node@ != k);
        match eval(fields, Map::empty(), assigns[0].value.node) {
            Ok(v) => law_init_keeps_untargeted_fields(fields.insert(assigns[0].target.node@, v), rest, k),
            Err(_) => {},
        }
    }
}

/// Setting up the fields gives each declared field its type's starting
/// value (the last declaration of a name wins), when every declared type
/// has one.
pub proof fn law_defaults_cover_declared_fields(fields: Env, fs: Seq<Field>)
    requires
        set_defaults(fields, fs).error is None,
    ensures
        forall|i: int| 0 <= i < fs.len() && (forall|j: int| i < j < fs.len() ==> (#[trigger] fs[j]).name.node@ != fs[i].name.node@) ==>
            set_defaults(fields, fs).fields.contains_key(#[trigger] fs[i].name.node@)
            && Some(set_defaults(fields, fs).fields[fs[i].name.node@]) == default_value(fs[i].ty.node),
    decreases fs.len(),
{
    if fs.len() > 0 {
        let rest = fs.drop_first();
        let d = default_value(fs[0].ty.node).unwrap();
        let f1 = fields.insert(fs[0].name.node@, d);
        law_defaults_cover_declared_fields(f1, rest);
        assert forall|i: int| 0 <= i < fs.len() && (forall|j: int| i < j < fs.len() ==> (#[trigger] fs[j]).name.node@ != fs[i].name.node@) implies
            set_defaults(fields, fs).fields.contains_key(#[trigger] fs[i].name.node@)
            && Some(set_defaults(fields, fs).fields[fs[i].name.node@]) == default_value(fs[i].ty.node) by {
            if i > 0 {
                assert(rest[i - 1] == fs[i]);
                assert forall|j: int| i - 1 < j < rest.len() implies (#[trigger] rest[j]).name.node@ != rest[i - 1].name.node@ by {
                    assert(rest[j] == fs[j + 1]);
                }
            } else {
                assert forall|j: int| 0 <= j < rest.len() implies (#[trigger] rest[j]).name.node@ != fs[0].name.node@ by {
                    assert(rest[j] == fs[j + 1]);
                }
                lemma_defaults_keep(f1, rest, fs[0].name.node@);
            }
        }
    }
}

proof fn lemma_defaults_keep(fields: Env, fs: Seq<Field>, k: Seq<char>)
    requires
        forall|j: int| 0 <= j < fs.len() ==> (#[trigger] fs[j]).name.node@ != k,
    ensures
        set_defaults(fields, fs).fields.contains_key(k) == fields.contains_key(k),
        fields.contains_key(k) ==> set_defaults(fields, fs).fields[k] == fields[k],
    decreases fs.len(),
{
    if fs.len() > 0 {
        let rest = fs.drop_first();
        assert forall|j: int| 0 <= j < rest.len() implies (#[trigger] rest[j]).name.node@ != k by {
            assert(rest[j] == fs[j + 1]);
        }
        assert(fs[0].name.node@ != k);
        match default_value(fs[0].ty.node) {
            Some(d) => lemma_defaults_keep(fields.insert(fs[0].name.node@, d), rest, k),
            None => {},
        }
    }
}

/// A quantifier over an empty range: `forall` is true and `exists` is false.
pub proof fn law_empty_range_quantifiers(fields: Env, params: Env, var: Seq<char>, body: Expr, start: int, end: int)
    requires
        end <= start,
    ensures
        eval_forall(fields, params, var, body, start, end) == Ok::<Val, RtErr>(Val::Bool(true)),
        eval_exists(fields, params, var, body, start, end) == Ok::<Val, RtErr>(Val::Bool(false)),
{
}


/// Whether `qs` are the queries of the checks `ks`: one each, and exactly
/// the dead-transition checks have nothing to refute.
pub open spec fn follows_plan(ks: Seq<KindView>, qs: Seq<QueryV>) -> bool {
    &&& qs.len() == ks.len()
    &&& forall|i: int| 0 <= i < ks.len() ==> (#[trigger] ks[i] is Dead <==> qs[i] matches QueryV::Solve(_, None, _))
}

proof fn lemma_follows_plan_concat(k1: Seq<KindView>, q1: Seq<QueryV>, k2: Seq<KindView>, q2: Seq<QueryV>)
    requires
        follows_plan(k1, q1),
        follows_plan(k2, q2),
    ensures
        follows_plan(k1 + k2, q1 + q2),
{
    assert forall|i: int| 0 <= i < (k1 + k2).len() implies (#[trigger] (k1 + k2)[i] is Dead <==> (q1 + q2)[i] matches QueryV::Solve(_, None, _)) by {
        if i < k1.len() {
            assert(k1[i] is Dead <==> q1[i] matches QueryV::Solve(_, None, _));
        } else {
            assert(k2[i - k1.len()] is Dead <==> q2[i - k1.len()] matches QueryV::Solve(_, None, _));
        }
    }
}

proof fn lemma_transition_follows_plan(state: StateDef, t: Transition, refs: Refs, consts: TermEnv, fns: Fns)
    ensures
        follows_plan(transition_plan(state.invariants@, t), transition_queries(state, t, refs, consts, fns)),
{
    let ks = transition_plan(state.invariants@, t);
    let qs = transition_queries(state, t, refs, consts, fns);
    let n = state.invariants@.len();
    assert forall|i: int| 0 <= i < ks.len() implies (#[trigger] ks[i] is Dead <==> qs[i] matches QueryV::Solve(_, None, _)) by {
        if i < n {
            let q = qs[i];
            assert(q == claim_query(
                state.invariants@[i].condition.node,
                crate::queries::after_env(state, refs, consts),
                fns,
                crate::queries::transition_assumptions(state, t, refs, consts, fns),
                crate::queries::transition_env(state, t, refs, consts).union_prefer_right(
                    crate::queries::fields_env(state, "post"@, refs, consts),
                ),
            ));
        }
    }
}

proof fn lemma_transitions_follow_plan(state: StateDef, ts: Seq<Transition>, refs: Refs, consts: TermEnv, fns: Fns)
    ensures
        follows_plan(transitions_plan(state.invariants@, ts), transitions_queries(state, ts, refs, consts, fns)),
    decreases ts.len(),
{
    if ts.len() > 0 {
        lemma_transitions_follow_plan(state, ts.drop_last(), refs, consts, fns);
        lemma_transition_follows_plan(state, ts.last(), refs, consts, fns);
        lemma_follows_plan_concat(
            transitions_plan(state.invariants@, ts.drop_last()),
            transitions_queries(state, ts.drop_last(), refs, consts, fns),
            transition_plan(state.invariants@, ts.last()),
            transition_queries(state, ts.last(), refs, consts, fns),
        );
    }
}

/// The verification conditions of a state line up with its planned checks,
/// whatever the verifier knows: there is one query per check, in the
/// order of the plan, and a query has no claim to refute exactly when its
/// check asks whether a transition is dead.
pub proof fn law_queries_follow_plan(state: StateDef, refs: Refs, consts: TermEnv, fns: Fns)
    ensures
        follows_plan(plan(state), state_queries(state, refs, consts, fns)),
{
    let c = state_consts(consts, state.constants@, fns);
    lemma_transitions_follow_plan(state, state.transitions@, refs, c, fns);
    assert(follows_plan(init_plan(state), init_queries(state, refs, c, fns)));
    lemma_follows_plan_concat(
        init_plan(state),
        init_queries(state, refs, c, fns),
        transitions_plan(state.invariants@, state.transitions@),
        transitions_queries(state, state.transitions@, refs, c, fns),
    );
}

/// The names a block binds with `let` at its top level.
pub open spec fn block_lets(b: Seq<Spanned<Statement>>) -> Set<Seq<char>>
    decreases b.len(),
{
    if b.len() == 0 {
        Set::empty()
    } else {
        match b.last().node {
            Statement::Let { name, .. } => block_lets(b.drop_last()).insert(name.node@),
            _ => block_lets(b.drop_last()),
        }
    }
}

proof fn lemma_stmt_frame(s: Statement, st: Ssa, fs: Fns, k: Seq<char>)
    requires
        !ssa_stmt(s, st, fs).modified.contains(k),
        !(s matches Statement::Let { name, .. } && name.node@ == k),
    ensures
        st.modified.subset_of(ssa_stmt(s, st, fs).modified),
        ssa_stmt(s, st, fs).cur.contains_key(k) == st.cur.contains_key(k),
        st.cur.contains_key(k) ==> ssa_stmt(s, st, fs).cur[k] == st.cur[k],
{
}

proof fn lemma_block_frame(b: Seq<Spanned<Statement>>, st: Ssa, fs: Fns, k: Seq<char>)
    requires
        !ssa_block(b, st, fs).modified.contains(k),
        !block_lets(b).contains(k),
    ensures
        st.modified.subset_of(ssa_block(b, st, fs).modified),
        ssa_block(b, st, fs).cur.contains_key(k) == st.cur.contains_key(k),
        st.cur.contains_key(k) ==> ssa_block(b, st, fs).cur[k] == st.cur[k],
    decreases b.len(),
{
    if b.len() > 0 {
        let mid = ssa_block(b.drop_last(), st, fs);
        lemma_stmt_frame(b.last().node, mid, fs, k);
        lemma_block_frame(b.drop_last(), st, fs, k);
    }
}

/// The symbolic run of a block leaves alone what it does not write: a name
/// that no statement of the block assigns, and that the block does not bind
/// with `let`, keeps the term it had before the block (and has one after
/// exactly when it had one before).
pub proof fn law_unassigned_names_keep_their_terms(b: Seq<Spanned<Statement>>, st: Ssa, fs: Fns, k: Seq<char>)
    requires
        !ssa_block(b, st, fs).modified.contains(k),
        !block_lets(b).contains(k),
    ensures
        ssa_block(b, st, fs).cur.contains_key(k) == st.cur.contains_key(k),
        st.cur.contains_key(k) ==> ssa_block(b, st, fs).cur[k] == st.cur[k],
{
    lemma_block_frame(b, st, fs, k);
}

proof fn lemma_digit_char(d: nat)
    requires
        d < 10,
    ensures
        is_digit(digit_char(d)),
        digit_value(digit_char(d)) == d,
        digit_char(d) != ':',
{
}

proof fn lemma_decimal(n: nat)
    ensures
        decimal(n).len() > 0,
        all_digits(decimal(n)),
        digits_value(decimal(n)) == n,
        forall|k: int| 0 <= k < decimal(n).len() ==> #[trigger] decimal(n)[k] != ':',
    decreases n,
{
    lemma_digit_char(n % 10);
    if n >= 10 {
        lemma_decimal(n / 10);
        let p = decimal(n / 10);
        let d = decimal(n);
        assert(d == p.push(digit_char(n % 10)));
        assert(d.drop_last() =~= p);
        assert(d.last() == digit_char(n % 10));
        assert(digits_value(d) == digits_value(p) * 10 + digit_value(digit_char(n % 10)));
        assert((n / 10) * 10 + n % 10 == n);
        assert forall|k: int| 0 <= k < d.len() implies is_digit(#[trigger] d[k]) && d[k] != ':' by {
            if k < p.len() {
                assert(d[k] == p[k]);
            }
        }
    } else {
        let d = decimal(n);
        assert(d.drop_last() =~= Seq::<char>::empty());
        assert(digits_value(d) == digits_value(d.drop_last()) * 10 + digit_value(d.last()));
    }
}

proof fn lemma_no_path_sep(s: Seq<char>)
    requires
        forall|k: int| 0 <= k < s.len() ==> #[trigger] s[k] != ':',
    ensures
        first_path_sep(s) is None,
    decreases s.len(),
{
    if s.len() >= 2 {
        assert forall|k: int| 0 <= k < s.drop_first().len() implies #[trigger] s.drop_first()[k] != ':' by {
            assert(s.drop_first()[k] == s[k + 1]);
        }
        lemma_no_path_sep(s.drop_first());
    }
}

proof fn lemma_path_sep_after(e: Seq<char>, rest: Seq<char>)
    requires
        forall|k: int| 0 <= k < e.len() ==> #[trigger] e[k] != ':',
        rest.len() >= 2,
        rest[0] == ':',
        rest[1] == ':',
    ensures
        first_path_sep(e + rest) == Some(e.len() as int),
    decreases e.len(),
{
    if e.len() > 0 {
        assert((e + rest).drop_first() =~= e.drop_first() + rest);
        assert forall|k: int| 0 <= k < e.drop_first().len() implies #[trigger] e.drop_first()[k] != ':' by {
            assert(e.drop_first()[k] == e[k + 1]);
        }
        lemma_path_sep_after(e.drop_first(), rest);
        assert((e + rest)[0] == e[0]);
    } else {
        assert(e + rest =~= rest);
    }
}

/// A value as `display_text` shows it reads back, as an argument of the
/// `run` command, as that very value: every integer and boolean, and every
/// enum value whose enum name is not empty and holds no `:` and whose
/// variant is not empty.
pub proof fn law_displayed_arguments_read_back(v: Value)
    requires
        v is Int || v is Bool || (v matches Value::Enum { enum_name, variant }
            && enum_name@.len() > 0 && variant@.len() > 0
            && forall|k: int| 0 <= k < enum_name@.len() ==> #[trigger] enum_name@[k] != ':'),
    ensures
        argument_value(value_display(v)) == v@,
{
    let t = value_display(v);
    match v {
        Value::Int(i) => {
            if i < 0 {
                let n = (-i) as nat;
                lemma_decimal(n);
                assert(t == seq!['-'] + decimal(n));
                assert(t.drop_first() =~= decimal(n));
                assert forall|k: int| 0 <= k < t.len() implies #[trigger] t[k] != ':' by {
                    if k > 0 {
                        assert(t[k] == decimal(n)[k - 1]);
                    }
                }
                lemma_no_path_sep(t);
                assert(unsigned_part(t) == decimal(n));
                assert(parse_int(t) == Some(i));
            } else {
                lemma_decimal(i as nat);
                lemma_no_path_sep(t);
                assert(is_digit(t[0]));
                assert(unsigned_part(t) == t);
                assert(parse_int(t) == Some(i));
            }
        },
        Value::Bool(b) => {
            lemma_no_path_sep(t);
            assert(!is_digit(t[0]));
            assert(parse_int(t) is None);
        },
        Value::Enum { enum_name, variant } => {
            let e = enum_name@;
            let rest = seq![':', ':'] + variant@;
            assert(t =~= e + rest);
            lemma_path_sep_after(e, rest);
            assert(t.take(e.len() as int) =~= e);
            assert(t.skip(e.len() as int + 2) =~= variant@);
        },
        _ => {},
    }
}

/// Expressions of integers, booleans, texts and enum values: literals,
/// names, and unary and binary operators.
pub open spec fn plain(e: Expr) -> bool
    decreases e,
{
    match e {
        Expr::IntLit(_) | Expr::BoolLit(_) | Expr::StringLit(_) | Expr::EnumVariant { .. } | Expr::Ident(_) => true,
        Expr::UnaryOp { operand, .. } => plain(operand.node),
        Expr::BinaryOp { left, right, .. } => plain(left.node) && plain(right.node),
        _ => false,
    }
}

/// Every division and remainder in `e` divides a number that is not
/// negative by one that is not negative.
pub open spec fn nonneg_divisions(fields: Env, params: Env, e: Expr) -> bool
    decreases e,
{
    match e {
        Expr::UnaryOp { operand, .. } => nonneg_divisions(fields, params, operand.node),
        Expr::BinaryOp { left, op, right } => {
            &&& nonneg_divisions(fields, params, left.node)
            &&& nonneg_divisions(fields, params, right.node)
            &&& (op == BinaryOp::Div || op == BinaryOp::Mod) ==> {
                &&& eval(fields, params, left.node) matches Ok(Val::Int(a)) && a >= 0
                &&& eval(fields, params, right.node) matches Ok(Val::Int(b)) && b >= 0
            }
        },
        _ => true,
    }
}

/// The solver's values `m` agree with a run-time state on the terms `env`
/// gives names: every name that has a value at run time has a term, and
/// the term of a name whose value is an integer, boolean, text or enum
/// value stands for that value.
pub open spec fn agrees(env: TermEnv, fields: Env, params: Env, m: Map<Seq<char>, SVal>) -> bool {
    forall|x: Seq<char>| #[trigger] lookup(fields, params, x) is Some ==> {
        &&& env.contains_key(x)
        &&& sval(lookup(fields, params, x)->0) is Some ==> term_sem(env[x], m) == sval(lookup(fields, params, x)->0)
    }
}

/// The term of an expression stands for its value: when an expression of
/// integers, booleans, texts and enum values (see [`plain`]) evaluates to a
/// value, and the solver's values agree with the run-time state on the
/// names (see [`agrees`]), the expression encodes, and its term stands for
/// the value the expression evaluates to. Division and remainder are
/// covered on numbers that are not negative (see [`nonneg_divisions`]):
/// there the run time rounds toward zero and the solver does not.
pub proof fn law_encoding_means_value(
    e: Expr,
    fields: Env,
    params: Env,
    env: TermEnv,
    fs: Fns,
    m: Map<Seq<char>, SVal>,
)
    requires
        plain(e),
        nonneg_divisions(fields, params, e),
        eval(fields, params, e) is Ok,
        agrees(env, fields, params, m),
    ensures
        encode(e, env, fs, false) is Ok,
        sval(eval(fields, params, e)->Ok_0) is Some
            ==> term_sem(encode(e, env, fs, false)->Ok_0, m) == sval(eval(fields, params, e)->Ok_0),
    decreases e,
{
    match e {
        Expr::Ident(x) => {
            assert(lookup(fields, params, x@) is Some);
        },
        Expr::UnaryOp { op, operand } => {
            law_encoding_means_value(operand.node, fields, params, env, fs, m);
        },
        Expr::BinaryOp { left, op, right } => {
            law_encoding_means_value(left.node, fields, params, env, fs, m);
            law_encoding_means_value(right.node, fields, params, env, fs, m);
        },
        _ => {},
    }
}

/// Whether `e` divides or takes a remainder anywhere.
pub open spec fn has_division(e: Expr) -> bool
    decreases e,
{
    match e {
        Expr::UnaryOp { operand, .. } => has_division(operand.node),
        Expr::BinaryOp { left, op, right } => op == BinaryOp::Div || op == BinaryOp::Mod
            || has_division(left.node) || has_division(right.node),
        _ => false,
    }
}

proof fn lemma_no_division(fields: Env, params: Env, e: Expr)
    requires
        !has_division(e),
    ensures
        nonneg_divisions(fields, params, e),
    decreases e,
{
    match e {
        Expr::UnaryOp { operand, .. } => lemma_no_division(fields, params, operand.node),
        Expr::BinaryOp { left, right, .. } => {
            lemma_no_division(fields, params, left.node);
            lemma_no_division(fields, params, right.node);
        },
        _ => {},
    }
}

/// A body of assignments of plain values (see [`plain`]) without division
/// or remainder, none of them to a name that `params` holds.
pub open spec fn plain_assignments(b: Seq<Spanned<Statement>>, params: Env) -> bool {
    forall|i: int| 0 <= i < b.len() ==> (#[trigger] b[i]).node is Assign && plain_assignment((b[i]).node, params)
}

/// An assignment of a plain value without division or remainder, to a name
/// that `params` does not hold.
pub open spec fn plain_assignment(s: Statement, params: Env) -> bool {
    match s {
        Statement::Assign(a) => plain(a.value.node) && !has_division(a.value.node) && !params.contains_key(a.target.node@),
        _ => false,
    }
}

/// Running a block is running all but its last statement, then the last.
proof fn lemma_exec_block_last(fields: Env, params: Env, b: Seq<Spanned<Statement>>)
    requires
        b.len() > 0,
    ensures
        ({
            let r = exec_block(fields, params, b.drop_last());
            exec_block(fields, params, b) == if r.error is Some { r } else { exec_stmt(r.fields, r.params, b.last().node) }
        }),
    decreases b.len(),
{
    let r0 = exec_stmt(fields, params, b[0].node);
    if b.len() == 1 {
        assert(b.drop_last() =~= Seq::<Spanned<Statement>>::empty());
        assert(b.drop_first() =~= Seq::<Spanned<Statement>>::empty());
    } else {
        assert(b.drop_last()[0] == b[0]);
        assert(b.drop_last().drop_first() =~= b.drop_first().drop_last());
        if r0.error is None {
            lemma_exec_block_last(r0.fields, r0.params, b.drop_first());
            assert(b.drop_first().last() == b.last());
        }
    }
}

/// The symbolic run of a body of assignments follows its run: when such a
/// body (see [`plain_assignments`]) runs without error from a state the
/// solver's values agree with on the terms the symbolic run starts from
/// (see [`agrees`]), they agree with the state after the run on the terms
/// the symbolic run ends with, so that each name assigned stands for the
/// value it was last assigned, computed from the values before.
pub proof fn law_symbolic_assignments_follow_run(
    b: Seq<Spanned<Statement>>,
    st: Ssa,
    fields: Env,
    params: Env,
    fs: Fns,
    m: Map<Seq<char>, SVal>,
)
    requires
        plain_assignments(b, params),
        agrees(st.cur, fields, params, m),
        exec_block(fields, params, b).error is None,
    ensures
        exec_block(fields, params, b).params == params,
        agrees(ssa_block(b, st, fs).cur, exec_block(fields, params, b).fields, params, m),
    decreases b.len(),
{
    if b.len() > 0 {
        let p = b.drop_last();
        lemma_exec_block_last(fields, params, b);
        let r = exec_block(fields, params, p);
        assert forall|i: int| 0 <= i < p.len() implies (#[trigger] p[i]).node is Assign && plain_assignment(p[i].node, params) by {
            assert(p[i] == b[i]);
        }
        assert(b[b.len() - 1] == b.last());
        law_symbolic_assignments_follow_run(p, st, fields, params, fs, m);
        let mid = ssa_block(p, st, fs);
        match b.last().node {
            Statement::Assign(a) => {
                assert(plain_assignment(b[b.len() - 1].node, params));
                assert(r.error is None);
                assert(r.params == params);
                let after = exec_block(fields, params, b);
                assert(after == exec_stmt(r.fields, params, b.last().node));
                assert(eval(r.fields, params, a.value.node) is Ok);
                let v = eval(r.fields, params, a.value.node)->Ok_0;
                assert(after.fields == r.fields.insert(a.target.node@, v));
                lemma_no_division(r.fields, params, a.value.node);
                law_encoding_means_value(a.value.node, r.fields, params, mid.cur, fs, m);
                let t = encode(a.value.node, mid.cur, fs, false)->Ok_0;
                assert(ssa_block(b, st, fs) == ssa_stmt(b.last().node, mid, fs));
                let cur = ssa_block(b, st, fs).cur;
                assert(cur =~= mid.cur.insert(a.target.node@, t));
                assert forall|x: Seq<char>| #[trigger] lookup(after.fields, params, x) is Some implies {
                    &&& cur.contains_key(x)
                    &&& sval(lookup(after.fields, params, x)->0) is Some ==> term_sem(cur[x], m) == sval(lookup(after.fields, params, x)->0)
                } by {
                    if x != a.target.node@ {
                        assert(lookup(after.fields, params, x) == lookup(r.fields, params, x));
                    }
                }
            },
            _ => {},
        }
    }
}

/// The kind of the term an expression encodes to (see [`kind`]), by the
/// kinds `k` of the names' terms.
pub open spec fn expr_kind(e: Expr, k: Map<Seq<char>, Kind>) -> Kind
    decreases e,
{
    match e {
        Expr::IntLit(_) => Kind::Int,
        Expr::BoolLit(_) => Kind::Bool,
        Expr::Ident(x) => if k.contains_key(x@) { k[x@] } else { Kind::Other },
        Expr::UnaryOp { op, operand } => if op == UnaryOp::Neg { expr_kind(operand.node, k) } else { Kind::Bool },
        Expr::BinaryOp { left, op, .. } => match op {
            BinaryOp::Add | BinaryOp::Sub | BinaryOp::Mul | BinaryOp::Div | BinaryOp::Mod => expr_kind(left.node, k),
            _ => Kind::Bool,
        },
        _ => Kind::Other,
    }
}

/// The terms of `cur` are of the kinds `k` gives their names.
pub open spec fn kinds_hold(cur: TermEnv, k: Map<Seq<char>, Kind>) -> bool {
    &&& cur.dom() == k.dom()
    &&& forall|x: Seq<char>| #[trigger] cur.contains_key(x) ==> kind(cur[x]) == k[x]
}

/// Every name `k` gives a kind has a run-time value, and the values of the
/// names it gives the kind of integers or booleans are integers or
/// booleans.
pub open spec fn typed(fields: Env, params: Env, k: Map<Seq<char>, Kind>) -> bool {
    &&& forall|x: Seq<char>| #[trigger] k.contains_key(x) ==> lookup(fields, params, x) is Some
    &&& forall|x: Seq<char>| #[trigger] lookup(fields, params, x) is Some && k.contains_key(x) ==> {
        &&& k[x] == Kind::Int ==> lookup(fields, params, x)->0 is Int
        &&& k[x] == Kind::Bool ==> lookup(fields, params, x)->0 is Bool
    }
}

proof fn lemma_encode_kind(e: Expr, cur: TermEnv, fs: Fns, k: Map<Seq<char>, Kind>)
    requires
        plain(e),
        encode(e, cur, fs, false) is Ok,
        kinds_hold(cur, k),
    ensures
        kind(encode(e, cur, fs, false)->Ok_0) == expr_kind(e, k),
    decreases e,
{
    match e {
        Expr::Ident(x) => {
            assert(cur.contains_key(x@));
        },
        Expr::UnaryOp { operand, .. } => lemma_encode_kind(operand.node, cur, fs, k),
        Expr::BinaryOp { left, right, .. } => {
            lemma_encode_kind(left.node, cur, fs, k);
            lemma_encode_kind(right.node, cur, fs, k);
        },
        _ => {},
    }
}

proof fn lemma_eval_kind(e: Expr, fields: Env, params: Env, k: Map<Seq<char>, Kind>)
    requires
        plain(e),
        eval(fields, params, e) is Ok,
        typed(fields, params, k),
    ensures
        expr_kind(e, k) == Kind::Int ==> eval(fields, params, e)->Ok_0 is Int,
        expr_kind(e, k) == Kind::Bool ==> eval(fields, params, e)->Ok_0 is Bool,
    decreases e,
{
    match e {
        Expr::Ident(x) => {
            assert(lookup(fields, params, x@) is Some);
        },
        Expr::UnaryOp { operand, .. } => lemma_eval_kind(operand.node, fields, params, k),
        Expr::BinaryOp { left, right, .. } => {
            lemma_eval_kind(left.node, fields, params, k);
            lemma_eval_kind(right.node, fields, params, k);
        },
        _ => {},
    }
}

/// A statement of a body over integer and boolean names (see
/// [`simple_block`]): an assignment, an `x += e`, `x -= e` or `x *= e` to
/// an integer name, an `assert`, an `if` or a `match`.
pub open spec fn simple_stmt(s: Statement, params: Env, k: Map<Seq<char>, Kind>) -> bool
    decreases s,
{
    match s {
        Statement::Assign(a) => {
            &&& plain(a.value.node)
            &&& !has_division(a.value.node)
            &&& !params.contains_key(a.target.node@)
            &&& k.contains_key(a.target.node@)
            &&& k[a.target.node@] == Kind::Int || k[a.target.node@] == Kind::Bool
            &&& expr_kind(a.value.node, k) == k[a.target.node@]
        },
        Statement::Assert { .. } => true,
        Statement::CompoundAssign { target, op, value } => {
            &&& op != CompoundOp::Div
            &&& plain(value.node)
            &&& !has_division(value.node)
            &&& !params.contains_key(target.node@)
            &&& k.contains_key(target.node@)
            &&& k[target.node@] == Kind::Int
            &&& expr_kind(value.node, k) == Kind::Int
        },
        Statement::If { condition, then_body, else_body } => {
            &&& plain(condition.node)
            &&& !has_division(condition.node)
            &&& expr_kind(condition.node, k) == Kind::Bool
            &&& simple_block(then_body@, params, k)
            &&& match else_body {
                Some(eb) => simple_block(eb@, params, k),
                None => true,
            }
        },
        Statement::Match { expr, arms } => {
            &&& plain(expr.node)
            &&& !has_division(expr.node)
            &&& expr_kind(expr.node, k) == Kind::Int || expr_kind(expr.node, k) == Kind::Bool
            &&& simple_arms(arms@, expr_kind(expr.node, k), params, k)
        },
        _ => false,
    }
}

/// Whether a pattern is `_` or a literal of the kind `kd`.
pub open spec fn pattern_fits(p: MatchPattern, kd: Kind) -> bool {
    match p {
        MatchPattern::Wildcard => true,
        MatchPattern::IntLit(_) => kd == Kind::Int,
        MatchPattern::BoolLit(_) => kd == Kind::Bool,
        _ => false,
    }
}

/// The arms of a match over a subject of kind `kd` in a body over integer
/// and boolean names: each pattern is `_` or a literal of the subject's
/// kind, and each arm's body is such a body (see [`simple_block`]).
pub open spec fn simple_arms(arms: Seq<MatchArm>, kd: Kind, params: Env, k: Map<Seq<char>, Kind>) -> bool
    decreases arms,
{
    if arms.len() == 0 {
        true
    } else {
        &&& simple_arms(arms.drop_last(), kd, params, k)
        &&& pattern_fits(arms.last().pattern.node, kd)
        &&& simple_block(arms.last().body@, params, k)
    }
}

/// A body of assignments, `assert`s, `if`s and `match`es over integer and
/// boolean names (see [`simple_stmt`]): each assignment gives a name of `k` a plain
/// value without division or remainder, of the name's kind (an integer for
/// `+=`, `-=` and `*=`), and is not to a name `params` holds; each
/// condition is a plain boolean without division, each match subject a
/// plain integer or boolean without division, and each pattern `_` or a
/// literal of its subject's kind (see [`simple_arms`]).
pub open spec fn simple_block(b: Seq<Spanned<Statement>>, params: Env, k: Map<Seq<char>, Kind>) -> bool
    decreases b,
{
    if b.len() == 0 {
        true
    } else {
        simple_block(b.drop_last(), params, k) && simple_stmt(b.last().node, params, k)
    }
}

/// The symbolic run of such a body keeps the kinds of the names' terms.
proof fn lemma_ssa_kinds(b: Seq<Spanned<Statement>>, st: Ssa, fs: Fns, params: Env, k: Map<Seq<char>, Kind>)
    requires
        simple_block(b, params, k),
        kinds_hold(st.cur, k),
    ensures
        kinds_hold(ssa_block(b, st, fs).cur, k),
        st.modified.subset_of(ssa_block(b, st, fs).modified),
        forall|x: Seq<char>| #[trigger] ssa_block(b, st, fs).modified.contains(x) && !st.modified.contains(x)
            ==> k.contains_key(x) && (k[x] == Kind::Int || k[x] == Kind::Bool),
    decreases b,
{
    if b.len() > 0 {
        lemma_ssa_kinds(b.drop_last(), st, fs, params, k);
        let mid = ssa_block(b.drop_last(), st, fs);
        lemma_stmt_kinds(b.last().node, mid, fs, params, k);
    }
}

proof fn lemma_stmt_kinds(s: Statement, st: Ssa, fs: Fns, params: Env, k: Map<Seq<char>, Kind>)
    requires
        simple_stmt(s, params, k),
        kinds_hold(st.cur, k),
    ensures
        kinds_hold(ssa_stmt(s, st, fs).cur, k),
        st.modified.subset_of(ssa_stmt(s, st, fs).modified),
        forall|x: Seq<char>| #[trigger] ssa_stmt(s, st, fs).modified.contains(x) && !st.modified.contains(x)
            ==> k.contains_key(x) && (k[x] == Kind::Int || k[x] == Kind::Bool),
    decreases s,
{
    match s {
        Statement::Assign(a) => {
            if encode(a.value.node, st.cur, fs, false) is Ok {
                lemma_encode_kind(a.value.node, st.cur, fs, k);
                let c2 = ssa_stmt(s, st, fs).cur;
                assert(c2.dom() =~= k.dom());
            }
        },
        Statement::CompoundAssign { target, op, value } => {
            if encode(value.node, st.cur, fs, false) is Ok {
                lemma_encode_kind(value.node, st.cur, fs, k);
                let c2 = ssa_stmt(s, st, fs).cur;
                assert(c2.dom() =~= k.dom());
            }
        },
        Statement::If { condition, then_body, else_body } => {
            if encode(condition.node, st.cur, fs, false) is Ok {
                let c = encode(condition.node, st.cur, fs, false)->Ok_0;
                if kind(c) == Kind::Bool {
                    let t = ssa_block(then_body@, unassigned(st.cur, st.asserts), fs);
                    lemma_ssa_kinds(then_body@, unassigned(st.cur, st.asserts), fs, params, k);
                    let e = ssa_else(else_body, unassigned(st.cur, t.asserts), fs);
                    match else_body {
                        Some(eb) => lemma_ssa_kinds(eb@, unassigned(st.cur, t.asserts), fs, params, k),
                        None => {},
                    }
                    let assigned = t.modified + e.modified;
                    let merged = merge_if(st.cur, c, t.cur, e.cur, assigned);
                    assert(merged.dom() =~= k.dom());
                    assert forall|x: Seq<char>| #[trigger] merged.contains_key(x) implies kind(merged[x]) == k[x] by {
                        if assigned.contains(x) && t.cur.contains_key(x) && e.cur.contains_key(x) && mergeable(t.cur[x], e.cur[x]) {
                        }
                    }
                }
            }
        },
        Statement::Match { expr, arms } => {
            if encode(expr.node, st.cur, fs, false) is Ok {
                let subject = encode(expr.node, st.cur, fs, false)->Ok_0;
                let r = ssa_arms(arms@, st.cur, st.asserts, fs);
                lemma_arms_kinds(arms@, st.cur, st.asserts, fs, params, k, expr_kind(expr.node, k));
                let merged = merge_match(st.cur, subject, arms@, r.0, r.2);
                assert(merged.dom() =~= k.dom());
                assert forall|x: Seq<char>| #[trigger] merged.contains_key(x) implies kind(merged[x]) == k[x] by {
                    if r.2.contains(x) {
                        lemma_select_kind(subject, arms@, r.0, st.cur, x, 0);
                    }
                }
            }
        },
        _ => {},
    }
}


/// The symbolic run of a body follows its run: when a body of assignments
/// (`=`, and `+=`, `-=`, `*=` to integers), `assert`s, `if`s and `match`es
/// over integer and boolean names (see [`simple_block`]) runs without error
/// from a state in which every name `k` gives a kind has a value of that
/// kind (see [`typed`]) and that the solver's values agree with on the terms
/// the symbolic run starts from (see [`agrees`]), they agree with the state
/// after the run on the terms the symbolic run ends with. After an `if`
/// each name assigned in a branch stands for the value of the branch the
/// condition took, and after a `match` each name assigned in an arm stands
/// for the value of the first arm whose pattern accepts the subject's
/// value; a name no branch or arm assigns keeps its value.
pub proof fn law_symbolic_run_follows_run(
    b: Seq<Spanned<Statement>>,
    st: Ssa,
    fields: Env,
    params: Env,
    fs: Fns,
    k: Map<Seq<char>, Kind>,
    m: Map<Seq<char>, SVal>,
)
    requires
        simple_block(b, params, k),
        kinds_hold(st.cur, k),
        typed(fields, params, k),
        agrees(st.cur, fields, params, m),
        exec_block(fields, params, b).error is None,
    ensures
        exec_block(fields, params, b).params == params,
        agrees(ssa_block(b, st, fs).cur, exec_block(fields, params, b).fields, params, m),
        typed(exec_block(fields, params, b).fields, params, k),
        forall|x: Seq<char>| !(#[trigger] ssa_block(b, st, fs).modified.contains(x))
            ==> lookup(exec_block(fields, params, b).fields, params, x) == lookup(fields, params, x),
    decreases b,
{
    if b.len() > 0 {
        let p = b.drop_last();
        lemma_exec_block_last(fields, params, b);
        let r = exec_block(fields, params, p);
        assert(r.error is None);
        law_symbolic_run_follows_run(p, st, fields, params, fs, k, m);
        lemma_ssa_kinds(p, st, fs, params, k);
        let mid = ssa_block(p, st, fs);
        lemma_run_stmt(b.last().node, mid, r.fields, params, fs, k, m);
        lemma_stmt_kinds(b.last().node, mid, fs, params, k);
        assert(ssa_block(b, st, fs) == ssa_stmt(b.last().node, mid, fs));
    }
}

proof fn lemma_run_stmt(
    s: Statement,
    st: Ssa,
    fields: Env,
    params: Env,
    fs: Fns,
    k: Map<Seq<char>, Kind>,
    m: Map<Seq<char>, SVal>,
)
    requires
        simple_stmt(s, params, k),
        kinds_hold(st.cur, k),
        typed(fields, params, k),
        agrees(st.cur, fields, params, m),
        exec_stmt(fields, params, s).error is None,
    ensures
        exec_stmt(fields, params, s).params == params,
        agrees(ssa_stmt(s, st, fs).cur, exec_stmt(fields, params, s).fields, params, m),
        typed(exec_stmt(fields, params, s).fields, params, k),
        forall|x: Seq<char>| !(#[trigger] ssa_stmt(s, st, fs).modified.contains(x))
            ==> lookup(exec_stmt(fields, params, s).fields, params, x) == lookup(fields, params, x),
    decreases s,
{
    match s {
        Statement::Assign(a) => {
            let after = exec_stmt(fields, params, s);
            let v = eval(fields, params, a.value.node)->Ok_0;
            lemma_no_division(fields, params, a.value.node);
            law_encoding_means_value(a.value.node, fields, params, st.cur, fs, m);
            lemma_eval_kind(a.value.node, fields, params, k);
            let t = encode(a.value.node, st.cur, fs, false)->Ok_0;
            let cur = ssa_stmt(s, st, fs).cur;
            assert(after.fields == fields.insert(a.target.node@, v));
            assert forall|x: Seq<char>| #[trigger] lookup(after.fields, params, x) is Some implies {
                &&& cur.contains_key(x)
                &&& sval(lookup(after.fields, params, x)->0) is Some ==> term_sem(cur[x], m) == sval(lookup(after.fields, params, x)->0)
            } by {
                if x != a.target.node@ {
                    assert(lookup(after.fields, params, x) == lookup(fields, params, x));
                }
            }
            assert forall|x: Seq<char>| #[trigger] lookup(after.fields, params, x) is Some && k.contains_key(x) implies {
                &&& k[x] == Kind::Int ==> lookup(after.fields, params, x)->0 is Int
                &&& k[x] == Kind::Bool ==> lookup(after.fields, params, x)->0 is Bool
            } by {
                if x != a.target.node@ {
                    assert(lookup(after.fields, params, x) == lookup(fields, params, x));
                }
            }
        },
        Statement::CompoundAssign { target, op, value } => {
            let t = target.node@;
            let after = exec_stmt(fields, params, s);
            lemma_no_division(fields, params, value.node);
            law_encoding_means_value(value.node, fields, params, st.cur, fs, m);
            lemma_eval_kind(value.node, fields, params, k);
            lemma_encode_kind(value.node, st.cur, fs, k);
            assert(k.contains_key(t));
            assert(lookup(fields, params, t) is Some);
            assert(fields.contains_key(t));
            let rhs = eval(fields, params, value.node)->Ok_0;
            let nv = compound(field_or_zero(fields, t), op, rhs)->Ok_0;
            assert(after.fields == fields.insert(t, nv));
            let cur = ssa_stmt(s, st, fs).cur;
            assert(st.cur.contains_key(t));
            assert(kind(st.cur[t]) == Kind::Int);
            assert forall|x: Seq<char>| #[trigger] lookup(after.fields, params, x) is Some implies {
                &&& cur.contains_key(x)
                &&& sval(lookup(after.fields, params, x)->0) is Some ==> term_sem(cur[x], m) == sval(lookup(after.fields, params, x)->0)
            } by {
                if x != t {
                    assert(lookup(after.fields, params, x) == lookup(fields, params, x));
                } else {
                    assert(lookup(fields, params, t) is Some);
                }
            }
            assert forall|x: Seq<char>| #[trigger] lookup(after.fields, params, x) is Some && k.contains_key(x) implies {
                &&& k[x] == Kind::Int ==> lookup(after.fields, params, x)->0 is Int
                &&& k[x] == Kind::Bool ==> lookup(after.fields, params, x)->0 is Bool
            } by {
                if x != t {
                    assert(lookup(after.fields, params, x) == lookup(fields, params, x));
                }
            }
            assert forall|x: Seq<char>| #[trigger] k.contains_key(x) implies lookup(after.fields, params, x) is Some by {
                if x != t {
                    assert(lookup(after.fields, params, x) == lookup(fields, params, x));
                }
            }
        },
        Statement::If { condition, then_body, else_body } => {
            lemma_no_division(fields, params, condition.node);
            law_encoding_means_value(condition.node, fields, params, st.cur, fs, m);
            lemma_encode_kind(condition.node, st.cur, fs, k);
            lemma_eval_kind(condition.node, fields, params, k);
            let c = encode(condition.node, st.cur, fs, false)->Ok_0;
            let cv = eval(fields, params, condition.node)->Ok_0;
            let t0 = unassigned(st.cur, st.asserts);
            let t = ssa_block(then_body@, t0, fs);
            lemma_ssa_kinds(then_body@, t0, fs, params, k);
            let e0 = unassigned(st.cur, t.asserts);
            let e = ssa_else(else_body, e0, fs);
            match else_body {
                Some(eb) => lemma_ssa_kinds(eb@, e0, fs, params, k),
                None => {},
            }
            let assigned = t.modified + e.modified;
            let merged = merge_if(st.cur, c, t.cur, e.cur, assigned);
            assert(ssa_stmt(s, st, fs).cur == merged);
            let after = exec_stmt(fields, params, s);
            assert forall|x: Seq<char>| assigned.contains(x) implies
                #[trigger] merged[x] == TermV::Ite(Box::new(c), Box::new(t.cur[x]), Box::new(e.cur[x])) && merged.contains_key(x) by {
                assert(k.contains_key(x));
                assert(t.cur.contains_key(x) && e.cur.contains_key(x));
            }
            if truthy(cv) {
                law_symbolic_run_follows_run(then_body@, t0, fields, params, fs, k, m);
                assert forall|x: Seq<char>| #[trigger] lookup(after.fields, params, x) is Some implies {
                    &&& merged.contains_key(x)
                    &&& sval(lookup(after.fields, params, x)->0) is Some ==> term_sem(merged[x], m) == sval(lookup(after.fields, params, x)->0)
                } by {
                    if !assigned.contains(x) {
                        assert(!t.modified.contains(x));
                        assert(lookup(after.fields, params, x) == lookup(fields, params, x));
                    }
                }
            } else {
                match else_body {
                    Some(eb) => {
                        law_symbolic_run_follows_run(eb@, e0, fields, params, fs, k, m);
                        assert forall|x: Seq<char>| #[trigger] lookup(after.fields, params, x) is Some implies {
                            &&& merged.contains_key(x)
                            &&& sval(lookup(after.fields, params, x)->0) is Some ==> term_sem(merged[x], m) == sval(lookup(after.fields, params, x)->0)
                        } by {
                            if !assigned.contains(x) {
                                assert(!e.modified.contains(x));
                                assert(lookup(after.fields, params, x) == lookup(fields, params, x));
                            }
                        }
                    },
                    None => {
                        assert forall|x: Seq<char>| #[trigger] lookup(after.fields, params, x) is Some implies {
                            &&& merged.contains_key(x)
                            &&& sval(lookup(after.fields, params, x)->0) is Some ==> term_sem(merged[x], m) == sval(lookup(after.fields, params, x)->0)
                        } by {
                        }
                    },
                }
            }
        },
        Statement::Match { expr, arms } => {
            lemma_no_division(fields, params, expr.node);
            law_encoding_means_value(expr.node, fields, params, st.cur, fs, m);
            lemma_encode_kind(expr.node, st.cur, fs, k);
            lemma_eval_kind(expr.node, fields, params, k);
            let subject = encode(expr.node, st.cur, fs, false)->Ok_0;
            let v = eval(fields, params, expr.node)->Ok_0;
            let kd = expr_kind(expr.node, k);
            let i = lemma_exec_arms(fields, params, v, arms@);
            lemma_simple_arms_index(arms@, kd, params, k);
            let r = ssa_arms(arms@, st.cur, st.asserts, fs);
            lemma_arms_kinds(arms@, st.cur, st.asserts, fs, params, k, kd);
            lemma_arms_ends(arms@, st.cur, st.asserts, fs, i);
            let si = unassigned(st.cur, ssa_arms(arms@.take(i), st.cur, st.asserts, fs).1);
            let body = arms@[i].body@;
            law_symbolic_run_follows_run(body, si, fields, params, fs, k, m);
            let blk = ssa_block(body, si, fs);
            let after = exec_stmt(fields, params, s);
            assert(after == exec_block(fields, params, body));
            let merged = merge_match(st.cur, subject, arms@, r.0, r.2);
            assert(ssa_stmt(s, st, fs).cur == merged);
            assert forall|j: int| 0 <= j < arms@.len() implies term_sem(arm_condition(subject, #[trigger] arms@[j].pattern.node), m)
                == Some(SVal::B(pattern_matches(v, arms@[j].pattern.node))) by {
                lemma_arm_condition(subject, arms@[j].pattern.node, v, m, kd);
            }
            assert forall|x: Seq<char>| #[trigger] lookup(after.fields, params, x) is Some implies {
                &&& merged.contains_key(x)
                &&& sval(lookup(after.fields, params, x)->0) is Some ==> term_sem(merged[x], m) == sval(lookup(after.fields, params, x)->0)
            } by {
                if r.2.contains(x) {
                    assert forall|j: int| 0 <= j < arms@.len() implies (#[trigger] r.0[j]).contains_key(x)
                        && kind(r.0[j][x]) == kind(st.cur[x]) by {
                        assert(kinds_hold(r.0[j], k));
                    }
                    lemma_match_select(subject, arms@, r.0, st.cur, x, 0, i, m, v);
                } else {
                    assert(!blk.modified.contains(x));
                    assert(lookup(after.fields, params, x) == lookup(fields, params, x));
                }
            }
        },
        _ => {},
    }
}


/// The arms of a match run symbolically keep the kinds of the names'
/// terms, and assign only integer and boolean names of `k`.
proof fn lemma_arms_kinds(
    arms: Seq<MatchArm>,
    cur: TermEnv,
    asserts: Seq<TermV>,
    fs: Fns,
    params: Env,
    k: Map<Seq<char>, Kind>,
    kd: Kind,
)
    requires
        simple_arms(arms, kd, params, k),
        kinds_hold(cur, k),
    ensures
        ssa_arms(arms, cur, asserts, fs).0.len() == arms.len(),
        forall|j: int| 0 <= j < arms.len() ==> kinds_hold(#[trigger] ssa_arms(arms, cur, asserts, fs).0[j], k),
        forall|x: Seq<char>| #[trigger] ssa_arms(arms, cur, asserts, fs).2.contains(x)
            ==> k.contains_key(x) && (k[x] == Kind::Int || k[x] == Kind::Bool),
    decreases arms,
{
    if arms.len() > 0 {
        lemma_arms_kinds(arms.drop_last(), cur, asserts, fs, params, k, kd);
        let before = ssa_arms(arms.drop_last(), cur, asserts, fs);
        lemma_ssa_kinds(arms.last().body@, unassigned(cur, before.1), fs, params, k);
        let r = ssa_arms(arms, cur, asserts, fs);
        assert forall|j: int| 0 <= j < arms.len() implies kinds_hold(#[trigger] r.0[j], k) by {
            if j < arms.len() - 1 {
                assert(r.0[j] == before.0[j]);
            }
        }
    }
}

/// The choice a match makes for a name is of the kind of the name's term
/// before it.
proof fn lemma_select_kind(subject: TermV, arms: Seq<MatchArm>, ends: Seq<TermEnv>, cur: TermEnv, x: Seq<char>, i: int)
    ensures
        kind(match_select(subject, arms, ends, cur, x, i)) == kind(cur[x]),
    decreases arms.len() - i,
{
    if 0 <= i < arms.len() {
        lemma_select_kind(subject, arms, ends, cur, x, i + 1);
    }
}


/// The arms a simple match is made of, one by one.
proof fn lemma_simple_arms_index(arms: Seq<MatchArm>, kd: Kind, params: Env, k: Map<Seq<char>, Kind>)
    requires
        simple_arms(arms, kd, params, k),
    ensures
        forall|j: int| 0 <= j < arms.len() ==> pattern_fits((#[trigger] arms[j]).pattern.node, kd)
            && simple_block(arms[j].body@, params, k),
    decreases arms.len(),
{
    if arms.len() > 0 {
        lemma_simple_arms_index(arms.drop_last(), kd, params, k);
        assert forall|j: int| 0 <= j < arms.len() implies pattern_fits((#[trigger] arms[j]).pattern.node, kd)
            && simple_block(arms[j].body@, params, k) by {
            if j < arms.len() - 1 {
                assert(arms[j] == arms.drop_last()[j]);
            }
        }
    }
}

/// The symbolic run of a match ends, for each arm, with the terms the arm's
/// body ends with when run from the terms before the match, and the names
/// it assigns are among those the match assigns.
proof fn lemma_arms_ends(arms: Seq<MatchArm>, cur: TermEnv, asserts: Seq<TermV>, fs: Fns, i: int)
    requires
        0 <= i < arms.len(),
    ensures
        ({
            let b = ssa_block(arms[i].body@, unassigned(cur, ssa_arms(arms.take(i), cur, asserts, fs).1), fs);
            &&& ssa_arms(arms, cur, asserts, fs).0.len() == arms.len()
            &&& ssa_arms(arms, cur, asserts, fs).0[i] == b.cur
            &&& b.modified.subset_of(ssa_arms(arms, cur, asserts, fs).2)
        }),
    decreases arms.len(),
{
    lemma_arms_len(arms, cur, asserts, fs);
    if i < arms.len() - 1 {
        lemma_arms_ends(arms.drop_last(), cur, asserts, fs, i);
        assert(arms.drop_last()[i] == arms[i]);
        assert(arms.drop_last().take(i) =~= arms.take(i));
    } else {
        assert(arms.drop_last() =~= arms.take(i));
    }
}

proof fn lemma_arms_len(arms: Seq<MatchArm>, cur: TermEnv, asserts: Seq<TermV>, fs: Fns)
    ensures
        ssa_arms(arms, cur, asserts, fs).0.len() == arms.len(),
    decreases arms.len(),
{
    if arms.len() > 0 {
        lemma_arms_len(arms.drop_last(), cur, asserts, fs);
    }
}

/// A match that runs without error runs the body of the first arm whose
/// pattern accepts the subject's value.
proof fn lemma_exec_arms(fields: Env, params: Env, v: Val, arms: Seq<MatchArm>) -> (i: int)
    requires
        exec_arms(fields, params, v, arms).error is None,
    ensures
        0 <= i < arms.len(),
        pattern_matches(v, arms[i].pattern.node),
        forall|j: int| 0 <= j < i ==> !pattern_matches(v, (#[trigger] arms[j]).pattern.node),
        exec_arms(fields, params, v, arms) == exec_block(fields, params, arms[i].body@),
    decreases arms.len(),
{
    if pattern_matches(v, arms[0].pattern.node) {
        0
    } else {
        let i = lemma_exec_arms(fields, params, v, arms.drop_first());
        assert forall|j: int| 0 <= j < i + 1 implies !pattern_matches(v, (#[trigger] arms[j]).pattern.node) by {
            if j > 0 {
                assert(arms[j] == arms.drop_first()[j - 1]);
            }
        }
        i + 1
    }
}

/// The condition of an arm whose pattern fits the subject's kind holds
/// exactly when the pattern accepts the subject's value.
proof fn lemma_arm_condition(subject: TermV, p: MatchPattern, v: Val, m: Map<Seq<char>, SVal>, kd: Kind)
    requires
        pattern_fits(p, kd),
        term_sem(subject, m) == sval(v),
        kd == Kind::Int ==> v is Int,
        kd == Kind::Bool ==> v is Bool,
    ensures
        term_sem(arm_condition(subject, p), m) == Some(SVal::B(pattern_matches(v, p))),
{
    match p {
        MatchPattern::IntLit(n) => {
            assert(term_sem(TermV::Int(n), m) == Some(SVal::I(n as int)));
            assert(v is Int);
        },
        MatchPattern::BoolLit(b) => {
            assert(term_sem(TermV::Bool(b), m) == Some(SVal::B(b)));
            assert(v is Bool);
        },
        _ => {},
    }
}

/// The choice a match makes for an assigned name stands for the name's
/// value at the end of the first arm whose condition holds.
proof fn lemma_match_select(
    subject: TermV,
    arms: Seq<MatchArm>,
    ends: Seq<TermEnv>,
    cur: TermEnv,
    x: Seq<char>,
    i: int,
    first: int,
    m: Map<Seq<char>, SVal>,
    v: Val,
)
    requires
        0 <= i <= first < arms.len(),
        ends.len() == arms.len(),
        pattern_matches(v, arms[first].pattern.node),
        forall|j: int| i <= j < first ==> !pattern_matches(v, (#[trigger] arms[j]).pattern.node),
        forall|j: int| 0 <= j < arms.len() ==> term_sem(arm_condition(subject, (#[trigger] arms[j]).pattern.node), m)
            == Some(SVal::B(pattern_matches(v, arms[j].pattern.node))),
        forall|j: int| 0 <= j < arms.len() ==> (#[trigger] ends[j]).contains_key(x) && kind(ends[j][x]) == kind(cur[x]),
        kind(cur[x]) != Kind::Other,
    ensures
        term_sem(match_select(subject, arms, ends, cur, x, i), m) == term_sem(ends[first][x], m),
    decreases first - i,
{
    lemma_select_kind(subject, arms, ends, cur, x, i + 1);
    assert(ends[i].contains_key(x));
    if i < first {
        lemma_match_select(subject, arms, ends, cur, x, i + 1, first, m, v);
    }
}


/// Equality and inequality give opposite answers: on two integers, two
/// booleans, two texts or two enum values, `==` gives whether they are equal
/// and `!=` gives the opposite.
pub proof fn law_equality_and_inequality_are_opposite(l: Val, r: Val)
    requires
        (l is Int && r is Int) || (l is Bool && r is Bool) || (l is Str && r is Str) || (l is Enum && r is Enum),
    ensures
        binary(l, BinaryOp::Eq, r) == Ok::<Val, RtErr>(Val::Bool(l == r)),
        binary(l, BinaryOp::Neq, r) == Ok::<Val, RtErr>(Val::Bool(l != r)),
{
}

/// A compound assignment's operator computes what the binary operator of
/// the same name does: `x op= e` on two integers gives `x op e` (the same
/// value, or the same error on overflow or a zero divisor), and on any
/// other pair of values it is an error.
pub proof fn law_compound_matches_binary(current: Val, op: CompoundOp, rhs: Val)
    ensures
        current is Int && rhs is Int ==> compound(current, op, rhs) == binary(current, compound_binop(op), rhs),
        !(current is Int && rhs is Int) ==> compound(current, op, rhs) is Err,
{
}

/// A check whose claim could not be encoded fails: its report says it did
/// not pass and carries a counterexample, whatever the solver answered.
pub proof fn law_unencodable_checks_fail(r: CheckReport, k: KindView, ws: Vec<String>, answer: Option<SolverOutcome>)
    requires
        reported_as(r, k, CheckQuery::Unencodable(ws), answer),
        !(k is Dead),
    ensures
        !r.passed,
        r.counterexample is Some,
{
}

/// Every check of a state whose claim could not be encoded is reported as
/// failed, with a counterexample, whatever the solver answered: built from
/// the queries the verifier makes for the state, no such check is one of
/// the dead-transition checks, which pass unless proved dead.
pub proof fn law_unencodable_claims_are_reported_failed(
    state: StateDef,
    refs: Refs,
    consts: TermEnv,
    fns: Fns,
    queries: Seq<CheckQuery>,
    answers: Seq<Option<SolverOutcome>>,
    res: VerificationResult,
)
    requires
        queries_view(queries) == state_queries(state, refs, consts, fns),
        answers.len() == queries.len(),
        res.checks@.len() == plan(state).len(),
        forall|i: int| 0 <= i < res.checks@.len() ==> reported_as(#[trigger] res.checks@[i], plan(state)[i], queries[i], answers[i]),
    ensures
        forall|i: int| 0 <= i < queries.len() && #[trigger] queries[i] is Unencodable
            ==> !res.checks@[i].passed && res.checks@[i].counterexample is Some,
{
    law_queries_follow_plan(state, refs, consts, fns);
    assert forall|i: int| 0 <= i < queries.len() && #[trigger] queries[i] is Unencodable
        implies !res.checks@[i].passed && res.checks@[i].counterexample is Some by {
        assert(queries_view(queries)[i] == crate::queries::query_view(queries[i]));
        assert(!(plan(state)[i] is Dead));
        assert(reported_as(res.checks@[i], plan(state)[i], queries[i], answers[i]));
        law_unencodable_checks_fail(res.checks@[i], plan(state)[i], queries[i]->Unencodable_0, answers[i]);
    }
}

/// `abs` gives the magnitude of its integer argument: a value that is not
/// negative and is the argument or its negation (for every argument but the
/// least `i64`, whose magnitude overflows).
pub proof fn law_abs_is_the_magnitude(fields: Env, params: Env, e: Expr, v: i64)
    requires
        e matches Expr::FnCall { name, args } && name.node@ == seq!['a', 'b', 's'] && args@.len() == 1
            && eval(fields, params, args@[0].node) == Ok::<Val, RtErr>(Val::Int(v)),
        v != i64::MIN,
    ensures
        eval(fields, params, e) matches Ok(Val::Int(r)) && r >= 0 && (r == v || r == -v),
{
}

/// `min` and `max` give one of their two integer arguments: `min` one no
/// larger than either, `max` one no smaller than either.
pub proof fn law_min_max_pick_an_argument(fields: Env, params: Env, e: Expr, x: i64, y: i64)
    requires
        e matches Expr::FnCall { name, args } && (name.node@ == seq!['m', 'i', 'n'] || name.node@ == seq!['m', 'a', 'x'])
            && args@.len() == 2 && eval(fields, params, args@[0].node) == Ok::<Val, RtErr>(Val::Int(x))
            && eval(fields, params, args@[1].node) == Ok::<Val, RtErr>(Val::Int(y)),
    ensures
        eval(fields, params, e) matches Ok(Val::Int(r)) && (r == x || r == y) && (if e->FnCall_name.node@ == seq!['m', 'i', 'n'] {
            r <= x && r <= y
        } else {
            r >= x && r >= y
        }),
{
}

proof fn lemma_emits_in_order(fields: Env, params: Env, emits: Seq<Spanned<Emit>>)
    requires
        eval_emits(fields, params, emits) is Ok,
    ensures
        ({
            let evs = eval_emits(fields, params, emits)->Ok_0;
            &&& evs.len() == emits.len()
            &&& forall|k: int| 0 <= k < evs.len() ==> (#[trigger] evs[k]).0 == emits[k].node.event_name.node@
                && eval_list(fields, params, emits[k].node.args@) == Ok::<Seq<Val>, RtErr>(evs[k].1)
        }),
    decreases emits.len(),
{
    if emits.len() > 0 {
        let rest = emits.drop_first();
        lemma_emits_in_order(fields, params, rest);
        let evs = eval_emits(fields, params, emits)->Ok_0;
        let tail = eval_emits(fields, params, rest)->Ok_0;
        assert forall|k: int| 0 <= k < evs.len() implies (#[trigger] evs[k]).0 == emits[k].node.event_name.node@
            && eval_list(fields, params, emits[k].node.args@) == Ok::<Seq<Val>, RtErr>(evs[k].1) by {
            if k > 0 {
                assert(evs[k] == tail[k - 1]);
                assert(emits[k] == rest[k - 1]);
            }
        }
    }
}

/// The events of a transition that succeeds are those of its `emit`
/// clauses, one each and in their order: the `k`-th has the name of the
/// `k`-th clause and the values of its arguments after the body ran.
pub proof fn law_events_follow_the_emit_clauses(fields: Env, t: Transition, args: Env, invs: Seq<Invariant>)
    requires
        run_transition(fields, t, args, invs).result is Ok,
    ensures
        ({
            let evs = run_transition(fields, t, args, invs).result->Ok_0;
            let b = exec_block(fields, args, t.body@);
            &&& evs.len() == t.emits@.len()
            &&& forall|k: int| 0 <= k < evs.len() ==> (#[trigger] evs[k]).0 == t.emits@[k].node.event_name.node@
                && eval_list(b.fields, b.params, t.emits@[k].node.args@) == Ok::<Seq<Val>, RtErr>(evs[k].1)
        }),
{
    let b = exec_block(fields, args, t.body@);
    lemma_emits_in_order(b.fields, b.params, t.emits@);
}

/// The arguments of a call bind to the parameters by position: with names
/// that differ, the `i`-th parameter is bound to the value of the `i`-th
/// argument.
pub proof fn law_arguments_bind_by_position(params: Seq<Param>, args: Seq<Seq<char>>, i: int)
    requires
        0 <= i < params.len(),
        i < args.len(),
        forall|j: int, k: int| 0 <= j < k < params.len() ==> params[j].name.node@ != params[k].name.node@,
    ensures
        bind_args(params, args).contains_key(params[i].name.node@),
        bind_args(params, args)[params[i].name.node@] == argument_value(args[i]),
    decreases params.len(),
{
    let n = params.len() - 1;
    if i < n {
        let pre = params.drop_last();
        assert forall|j: int, k: int| 0 <= j < k < pre.len() implies pre[j].name.node@ != pre[k].name.node@ by {
            assert(pre[j] == params[j] && pre[k] == params[k]);
        }
        law_arguments_bind_by_position(pre, args, i);
        assert(pre[i] == params[i]);
        assert(params[i].name.node@ != params[n].name.node@);
    }
}

proof fn lemma_condition_terms_keep(cs: Seq<Spanned<Expr>>, env: TermEnv, fns: Fns, i: int)
    requires
        0 <= i < cs.len(),
        encode(cs[i].node, env, fns, false) is Ok,
        kind(encode(cs[i].node, env, fns, false)->Ok_0) == Kind::Bool,
    ensures
        condition_terms(cs, env, fns).contains(encode(cs[i].node, env, fns, false)->Ok_0),
    decreases cs.len(),
{
    let b = encode(cs[i].node, env, fns, false)->Ok_0;
    let prev = condition_terms(cs.drop_last(), env, fns);
    if i < cs.len() - 1 {
        assert(cs.drop_last()[i] == cs[i]);
        lemma_condition_terms_keep(cs.drop_last(), env, fns, i);
        let j = choose|j: int| 0 <= j < prev.len() && prev[j] == b;
        match encode(cs.last().node, env, fns, false) {
            Ok(c) => if kind(c) == Kind::Bool {
                assert(prev.push(c)[j] == b);
            },
            Err(_) => {},
        }
    } else {
        assert(cs.last() == cs[i]);
        assert(prev.push(b)[prev.len() as int] == b);
    }
}

/// Whether a transition is dead is asked with its preconditions assumed:
/// every precondition that encodes to a condition over the fields before
/// the transition and its parameters is among the dead query's assumptions,
/// so a model of that query meets each of them.
pub proof fn law_dead_query_assumes_the_preconditions(state: StateDef, t: Transition, refs: Refs, consts: TermEnv, fns: Fns, i: int)
    requires
        0 <= i < t.preconditions@.len(),
        encode(t.preconditions@[i].node, with_params(fields_env(state, "pre"@, refs, consts), t.params@, refs), fns, false) is Ok,
        kind(encode(t.preconditions@[i].node, with_params(fields_env(state, "pre"@, refs, consts), t.params@, refs), fns, false)->Ok_0)
            == Kind::Bool,
    ensures
        dead_query(state, t, refs, consts, fns) matches QueryV::Solve(a, None, _)
            && a.contains(encode(t.preconditions@[i].node, with_params(fields_env(state, "pre"@, refs, consts), t.params@, refs), fns, false)->Ok_0),
        forall|j: int| 0 <= j < state.invariants@.len()
            && #[trigger] encode(state.invariants@[j].condition.node, fields_env(state, "pre"@, refs, consts), fns, false) is Ok
            && kind(encode(state.invariants@[j].condition.node, fields_env(state, "pre"@, refs, consts), fns, false)->Ok_0) == Kind::Bool
            ==> dead_query(state, t, refs, consts, fns)->Solve_0.contains(
                encode(state.invariants@[j].condition.node, fields_env(state, "pre"@, refs, consts), fns, false)->Ok_0),
{
    let pre = fields_env(state, "pre"@, refs, consts);
    let all = with_params(pre, t.params@, refs);
    let b = encode(t.preconditions@[i].node, all, fns, false)->Ok_0;
    lemma_condition_terms_keep(t.preconditions@, all, fns, i);
    let front = condition_terms(crate::queries::invariant_conditions(state.invariants@), pre, fns)
        + crate::queries::refinement_terms(crate::queries::field_decls(state.fields@), pre, refs, fns);
    let c = condition_terms(t.preconditions@, all, fns);
    let j = choose|j: int| 0 <= j < c.len() && c[j] == b;
    assert((front + c)[front.len() + j] == b);
    let ics = crate::queries::invariant_conditions(state.invariants@);
    let ic = condition_terms(ics, pre, fns);
    let rt = crate::queries::refinement_terms(crate::queries::field_decls(state.fields@), pre, refs, fns);
    assert forall|j: int| 0 <= j < state.invariants@.len()
        && #[trigger] encode(state.invariants@[j].condition.node, pre, fns, false) is Ok
        && kind(encode(state.invariants@[j].condition.node, pre, fns, false)->Ok_0) == Kind::Bool
        implies dead_query(state, t, refs, consts, fns)->Solve_0.contains(
            encode(state.invariants@[j].condition.node, pre, fns, false)->Ok_0) by {
        let x = encode(state.invariants@[j].condition.node, pre, fns, false)->Ok_0;
        assert(ics[j] == state.invariants@[j].condition);
        lemma_condition_terms_keep(ics, pre, fns, j);
        let h = choose|h: int| 0 <= h < ic.len() && ic[h] == x;
        assert((ic + rt + c)[h] == x);
    }
}

/// The check that a transition preserves invariant `i` refutes that
/// invariant over the fields after the transition, assuming every invariant
/// over the fields before it and every precondition (each that encodes to a
/// condition).
pub proof fn law_preservation_query_assumes_and_refutes(state: StateDef, t: Transition, refs: Refs, consts: TermEnv, fns: Fns, i: int)
    requires
        0 <= i < state.invariants@.len(),
        encode(state.invariants@[i].condition.node, crate::queries::after_env(state, refs, consts), fns, false) is Ok,
        kind(encode(state.invariants@[i].condition.node, crate::queries::after_env(state, refs, consts), fns, false)->Ok_0)
            == Kind::Bool,
    ensures
        transition_queries(state, t, refs, consts, fns)[i] matches QueryV::Solve(a, Some(c), _)
            && c == TermV::Unary(UnaryOp::Not, Box::new(
                encode(state.invariants@[i].condition.node, crate::queries::after_env(state, refs, consts), fns, false)->Ok_0)),
        forall|j: int| 0 <= j < t.preconditions@.len()
            && #[trigger] encode(t.preconditions@[j].node, crate::queries::transition_env(state, t, refs, consts), fns, false) is Ok
            && kind(encode(t.preconditions@[j].node, crate::queries::transition_env(state, t, refs, consts), fns, false)->Ok_0) == Kind::Bool
            ==> transition_queries(state, t, refs, consts, fns)[i]->Solve_0.contains(
                encode(t.preconditions@[j].node, crate::queries::transition_env(state, t, refs, consts), fns, false)->Ok_0),
        forall|j: int| 0 <= j < state.invariants@.len()
            && #[trigger] encode(state.invariants@[j].condition.node, fields_env(state, "pre"@, refs, consts), fns, false) is Ok
            && kind(encode(state.invariants@[j].condition.node, fields_env(state, "pre"@, refs, consts), fns, false)->Ok_0) == Kind::Bool
            ==> transition_queries(state, t, refs, consts, fns)[i]->Solve_0.contains(
                encode(state.invariants@[j].condition.node, fields_env(state, "pre"@, refs, consts), fns, false)->Ok_0),
{
    let pre = fields_env(state, "pre"@, refs, consts);
    let all = crate::queries::transition_env(state, t, refs, consts);
    let a = crate::queries::transition_assumptions(state, t, refs, consts, fns);
    let qs = transition_queries(state, t, refs, consts, fns);
    assert(qs[i] == claim_query(
        state.invariants@[i].condition.node,
        crate::queries::after_env(state, refs, consts),
        fns,
        a,
        all.union_prefer_right(fields_env(state, "post"@, refs, consts)),
    ));
    let ics = crate::queries::invariant_conditions(state.invariants@);
    let ic = condition_terms(ics, pre, fns);
    let rt = crate::queries::refinement_terms(crate::queries::field_decls(state.fields@), pre, refs, fns);
    let pc = condition_terms(t.preconditions@, all, fns);
    let run = crate::queries::body_run(state, t, refs, consts, fns);
    let rest = crate::queries::refinement_terms(crate::queries::param_decls(t.params@), all, refs, fns) + run.asserts
        + crate::queries::frame_terms(state.fields@, pre, fields_env(state, "post"@, refs, consts), run);
    assert(a =~= ic + rt + pc + rest);
    assert forall|j: int| 0 <= j < t.preconditions@.len()
        && #[trigger] encode(t.preconditions@[j].node, all, fns, false) is Ok
        && kind(encode(t.preconditions@[j].node, all, fns, false)->Ok_0) == Kind::Bool
        implies a.contains(encode(t.preconditions@[j].node, all, fns, false)->Ok_0) by {
        let x = encode(t.preconditions@[j].node, all, fns, false)->Ok_0;
        lemma_condition_terms_keep(t.preconditions@, all, fns, j);
        let h = choose|h: int| 0 <= h < pc.len() && pc[h] == x;
        assert((ic + rt + pc + rest)[ic.len() + rt.len() + h] == x);
    }
    assert forall|j: int| 0 <= j < state.invariants@.len()
        && #[trigger] encode(state.invariants@[j].condition.node, pre, fns, false) is Ok
        && kind(encode(state.invariants@[j].condition.node, pre, fns, false)->Ok_0) == Kind::Bool
        implies a.contains(encode(state.invariants@[j].condition.node, pre, fns, false)->Ok_0) by {
        let x = encode(state.invariants@[j].condition.node, pre, fns, false)->Ok_0;
        assert(ics[j] == state.invariants@[j].condition);
        lemma_condition_terms_keep(ics, pre, fns, j);
        let h = choose|h: int| 0 <= h < ic.len() && ic[h] == x;
        assert((ic + rt + pc + rest)[h] == x);
    }
}

/// Which binary operators group more loosely than which: `==>`, then `||`,
/// then `&&`, then `==` and `!=`, then the comparisons, then `+` and `-`,
/// then `*`, `/` and `%`.
pub open spec fn binds_looser(outer: BinaryOp, inner: BinaryOp) -> bool {
    let rank = |o: BinaryOp| match o {
        BinaryOp::Implies => 0int,
        BinaryOp::Or => 1,
        BinaryOp::And => 2,
        BinaryOp::Eq | BinaryOp::Neq => 3,
        BinaryOp::Lt | BinaryOp::Gt | BinaryOp::Lte | BinaryOp::Gte => 4,
        BinaryOp::Add | BinaryOp::Sub => 5,
        BinaryOp::Mul | BinaryOp::Div | BinaryOp::Mod => 6,
    };
    rank(inner) < rank(outer)
}

/// Tighter operators group first, and operators of one level group to the
/// left: in any writing of an expression by the grammar, an operand of a
/// binary operator that is a binary expression of a looser operator, or a
/// right operand of the same level, is written in parentheses. So
/// `a || b && c` reads as `a || (b && c)`, `a + b * c` as `a + (b * c)` and
/// `a - b - c` as `(a - b) - c`.
pub proof fn law_tighter_operators_group_first(ts: Seq<Token>, p: int, q: int, e: Expr, m: int, d: Deriv)
    requires
        writes(ts, p, q, e, m, d),
        e is BinaryOp,
        d is Bin,
    ensures
        e->BinaryOp_left.node matches Expr::BinaryOp { op: lop, .. }
            ==> (binds_looser(e->BinaryOp_op, lop) ==> !((*d->Bin_1) is Bin)),
        e->BinaryOp_right.node matches Expr::BinaryOp { op: rop, .. }
            ==> (!binds_looser(rop, e->BinaryOp_op) ==> !((*d->Bin_2) is Bin)),
{
    let k = d->Bin_0;
    let dl = *d->Bin_1;
    let dr = *d->Bin_2;
    let op = e->BinaryOp_op;
    let l = e->BinaryOp_left.node;
    let r = e->BinaryOp_right.node;
    if dr is Bin && r is BinaryOp {
        assert(writes(ts, k + 1, q, r, crate::parser::binop_prec(op) + 1, dr));
    }
}

/// Integer arithmetic is exact or an overflow error: `+`, `-` and `*` give
/// the mathematical result when it fits in an `i64`, and `Overflow`
/// otherwise; the comparisons compare.
pub proof fn law_integer_arithmetic_is_exact(x: i64, y: i64)
    ensures
        binary(Val::Int(x), BinaryOp::Add, Val::Int(y)) == if i64::MIN <= x + y <= i64::MAX {
            Ok::<Val, RtErr>(Val::Int((x + y) as i64))
        } else {
            Err(RtErr::Overflow)
        },
        binary(Val::Int(x), BinaryOp::Sub, Val::Int(y)) == if i64::MIN <= x - y <= i64::MAX {
            Ok::<Val, RtErr>(Val::Int((x - y) as i64))
        } else {
            Err(RtErr::Overflow)
        },
        binary(Val::Int(x), BinaryOp::Mul, Val::Int(y)) == if i64::MIN <= x * y <= i64::MAX {
            Ok::<Val, RtErr>(Val::Int((x * y) as i64))
        } else {
            Err(RtErr::Overflow)
        },
        binary(Val::Int(x), BinaryOp::Div, Val::Int(0)) == Err::<Val, RtErr>(RtErr::DivisionByZero),
        binary(Val::Int(x), BinaryOp::Mod, Val::Int(0)) == Err::<Val, RtErr>(RtErr::DivisionByZero),
        binary(Val::Int(x), BinaryOp::Lt, Val::Int(y)) == Ok::<Val, RtErr>(Val::Bool(x < y)),
        binary(Val::Int(x), BinaryOp::Gt, Val::Int(y)) == Ok::<Val, RtErr>(Val::Bool(x > y)),
        binary(Val::Int(x), BinaryOp::Lte, Val::Int(y)) == Ok::<Val, RtErr>(Val::Bool(x <= y)),
        binary(Val::Int(x), BinaryOp::Gte, Val::Int(y)) == Ok::<Val, RtErr>(Val::Bool(x >= y)),
{
}

/// The logical operators on booleans are those of logic: `&&` is
/// conjunction, `||` disjunction and `==>` implication.
pub proof fn law_logical_operators(a: bool, b: bool)
    ensures
        binary(Val::Bool(a), BinaryOp::And, Val::Bool(b)) == Ok::<Val, RtErr>(Val::Bool(a && b)),
        binary(Val::Bool(a), BinaryOp::Or, Val::Bool(b)) == Ok::<Val, RtErr>(Val::Bool(a || b)),
        binary(Val::Bool(a), BinaryOp::Implies, Val::Bool(b)) == Ok::<Val, RtErr>(Val::Bool(a ==> b)),
{
}

/// Exactly the parameters that have an argument are bound: a name is bound
/// when some parameter with an argument at its position has it.
pub proof fn law_bound_names_are_the_parameters_with_arguments(params: Seq<Param>, args: Seq<Seq<char>>, x: Seq<char>)
    ensures
        bind_args(params, args).contains_key(x)
            <==> exists|i: int| 0 <= i < params.len() && i < args.len() && #[trigger] params[i].name.node@ == x,
    decreases params.len(),
{
    if params.len() > 0 {
        let pre = params.drop_last();
        law_bound_names_are_the_parameters_with_arguments(pre, args, x);
        if exists|i: int| 0 <= i < pre.len() && i < args.len() && #[trigger] pre[i].name.node@ == x {
            let i = choose|i: int| 0 <= i < pre.len() && i < args.len() && #[trigger] pre[i].name.node@ == x;
            assert(params[i] == pre[i]);
        }
        if exists|i: int| 0 <= i < params.len() && i < args.len() && #[trigger] params[i].name.node@ == x {
            let i = choose|i: int| 0 <= i < params.len() && i < args.len() && #[trigger] params[i].name.node@ == x;
            if i < pre.len() {
                assert(pre[i] == params[i]);
            }
        }
    }
}

} // verus!
