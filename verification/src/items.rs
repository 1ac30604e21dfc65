//! Reading items: constants, invariants, init blocks, states, imports,
//! enums, types and functions, and whole programs.
use vstd::prelude::*;
use crate::ast::{
    Assignment, ConstDef, EnumDef, Expr, Field, FnDef, Import, InitBlock, Invariant, Item, Param, Program, Spanned,
    StateDef, Transition, Type, TypeDef,
};
use crate::lexer::{
    clean_start, law_no_reading_past_a_bad_character, lex, lexed, lexed_upto, longest_tokens, no_token_at, Keyword, Sym, TokKind,
    Token,
};
use crate::statements::{block_at, parse_block, same_else, same_stmts, BlockWriting};
use crate::transitions::{
    params_at, same_params, param_at, parse_param, parse_params, parse_transition, same_param, same_transition, transition_at, TransitionWriting,
};
use crate::parser::{
    same_opt_type,
    expr_at, lemma_expr_at, name_at, same_shape, same_type, type_at,
    Leaf, ParseError, ParseProblem, StateMember, assigns_leaves, const_leaves, consts_of, enum_printed, expr_leaves, fail, field_leaves, fields_of, fn_printed, ident_at, import_leaves, init_leaves, init_of, invariant_leaves, invariants_of, item_printed, items_printed, kw_is, leaves, lemma_leaves_concat, lemma_leaves_one, member_printed, members_give, members_printed, optional_name_leaves, params_leaves, parse_type, pratt_parse, record_fields_printed, span_of, state_printed, sym_is, transitions_of, type_built, type_leaves, typedef_printed, variants_leaves,
};

verus! {

/// Tokens `p..q` write `const NAME: type = value`, the type ending at `k`
/// (see [`type_at`]) and the value written completely (see [`expr_at`]).
pub open spec fn const_at(ts: Seq<Token>, p: int, q: int, c: ConstDef, k: int) -> bool {
    &&& 0 <= p && p + 2 < ts.len()
    &&& ts[p].kind == TokKind::Keyword(Keyword::Const)
    &&& ts[p + 1].kind is Ident && name_at(ts, p + 1) == c.name.node@
    &&& ts[p + 2].kind == TokKind::Sym(Sym::Colon)
    &&& type_at(ts, p + 3, k, c.ty.node)
    &&& 0 <= k < ts.len() && ts[k].kind == TokKind::Sym(Sym::Assign)
    &&& expr_at(ts, k + 1, q, c.value.node)
}

/// Two constants alike: the same name, types and values alike.
pub open spec fn same_const(a: ConstDef, b: ConstDef) -> bool {
    a.name.node@ == b.name.node@ && same_type(a.ty.node, b.ty.node) && same_shape(a.value.node, b.value.node)
}

/// `const NAME: type = value`. When the tokens at `p` write a constant (see
/// [`const_at`]), it is what is read.
fn parse_const_def(toks: &Vec<Token>, p: usize) -> (r: Result<(ConstDef, usize), ParseError>)
    requires
        p < toks@.len(),
        toks@[p as int].kind == TokKind::Keyword(Keyword::Const),
    ensures
        r matches Err(e) ==> e.problem != ParseProblem::BadCharacter,
        r matches Ok((c, q)) ==> p < q <= toks@.len() && leaves(toks@.subrange(p as int, q as int)) == const_leaves(c)
            && type_built(c.ty.node),
        forall|c2: ConstDef, q2: int, k2: int| #[trigger] const_at(toks@, p as int, q2, c2, k2)
            ==> (r matches Ok((c, q)) && q == q2 && same_const(c, c2)),
{
    let ntoks = toks.len();
    let ghost ts = toks@;
    let name = match ident_at(toks, p + 1) {
        Some(x) => x,
        None => return Err(fail(toks, p + 1, ParseProblem::UnexpectedToken)),
    };
    if !sym_is(toks, p + 2, Sym::Colon) {
        return Err(fail(toks, p + 2, ParseProblem::UnexpectedToken));
    }
    let res_t = parse_type(toks, p + 3);
    proof {
        assert forall|c2: ConstDef, q2: int, k2: int| #[trigger] const_at(ts, p as int, q2, c2, k2)
            implies (res_t matches Ok((t, a)) && a == k2 && same_type(t.node, c2.ty.node)) by {
            assert(type_at(ts, p + 3, k2, c2.ty.node));
        }
    }
    let (ty, a) = match res_t {
        Ok(x) => x,
        Err(e) => return Err(e),
    };
    if !sym_is(toks, a, Sym::Assign) {
        return Err(fail(toks, a, ParseProblem::UnexpectedToken));
    }
    let res_v = pratt_parse(toks, a + 1, 0);
    proof {
        assert forall|c2: ConstDef, q2: int, k2: int| #[trigger] const_at(ts, p as int, q2, c2, k2)
            implies (res_v matches Ok((v, q)) && q == q2 && same_shape(v.node, c2.value.node)) by {
            let d = lemma_expr_at(ts, a + 1, q2, c2.value.node);
        }
    }
    let (value, q) = match res_v {
        Ok(x) => x,
        Err(e) => return Err(e),
    };
    let c = ConstDef { name: Spanned::new(name, toks[p + 1].span), ty, value, span: span_of(toks, p, q) };
    proof {
        let ts = toks@;
        lemma_leaves_concat(ts, p as int, a + 1, q as int);
        lemma_leaves_concat(ts, p as int, p + 3, a + 1);
        lemma_leaves_concat(ts, p as int, p + 1, p + 3);
        lemma_leaves_concat(ts, p + 1, p + 2, p + 3);
        lemma_leaves_concat(ts, p + 3, a as int, a + 1);
        lemma_leaves_one(ts, p as int);
        lemma_leaves_one(ts, p + 1);
        lemma_leaves_one(ts, p + 2);
        lemma_leaves_one(ts, a as int);
        assert(leaves(ts.subrange(p as int, q as int)) =~= const_leaves(c));
    }
    Ok((c, q))
}

/// Tokens `p..q` write `invariant [name] { condition }`, the condition
/// written completely (see [`expr_at`]); with no name, no name follows
/// `invariant`.
pub open spec fn invariant_at(ts: Seq<Token>, p: int, q: int, inv: Invariant) -> bool {
    let b = if inv.name is Some { p + 2 } else { p + 1 };
    &&& 0 <= p && p + 1 < ts.len()
    &&& ts[p].kind == TokKind::Keyword(Keyword::Invariant)
    &&& match inv.name {
        Some(n) => ts[p + 1].kind is Ident && name_at(ts, p + 1) == n.node@,
        None => !(ts[p + 1].kind is Ident),
    }
    &&& b < ts.len() && ts[b].kind == TokKind::Sym(Sym::LBrace)
    &&& expr_at(ts, b + 1, q - 1, inv.condition.node)
    &&& 0 <= q - 1 < ts.len() && ts[q - 1].kind == TokKind::Sym(Sym::RBrace)
}

/// Two invariants alike: the same name or none, conditions alike.
pub open spec fn same_invariant(a: Invariant, b: Invariant) -> bool {
    &&& match (a.name, b.name) {
        (Some(x), Some(y)) => x.node@ == y.node@,
        (None, None) => true,
        _ => false,
    }
    &&& same_shape(a.condition.node, b.condition.node)
}

/// `invariant [name] { condition }`. When the tokens at `p` write an
/// invariant (see [`invariant_at`]), it is what is read.
fn parse_invariant(toks: &Vec<Token>, p: usize) -> (r: Result<(Invariant, usize), ParseError>)
    requires
        p < toks@.len(),
        toks@[p as int].kind == TokKind::Keyword(Keyword::Invariant),
    ensures
        r matches Err(e) ==> e.problem != ParseProblem::BadCharacter,
        r matches Ok((i, q)) ==> p < q <= toks@.len() && leaves(toks@.subrange(p as int, q as int)) == invariant_leaves(i),
        forall|i2: Invariant, q2: int| #[trigger] invariant_at(toks@, p as int, q2, i2)
            ==> (r matches Ok((i, q)) && q == q2 && same_invariant(i, i2)),
{
    let ntoks = toks.len();
    let ghost ts = toks@;
    let mut b = p + 1;
    let mut name: Option<Spanned<String>> = None;
    proof {
        lemma_leaves_one(toks@, p as int);
    }
    match ident_at(toks, p + 1) {
        Some(x) => {
            proof {
                lemma_leaves_concat(toks@, p as int, p + 1, p + 2);
                lemma_leaves_one(toks@, p + 1);
            }
            name = Some(Spanned::new(x, toks[p + 1].span));
            b = p + 2;
        },
        None => {},
    }
    proof {
        assert forall|i2: Invariant, q2: int| #[trigger] invariant_at(ts, p as int, q2, i2)
            implies (i2.name is Some <==> name is Some) && b == (if i2.name is Some { p + 2 } else { p + 1 })
                && match (name, i2.name) {
                    (Some(x), Some(y)) => x.node@ == y.node@,
                    (None, None) => true,
                    _ => false,
                } by {
        }
    }
    let ghost head = seq![Leaf::Kw(Keyword::Invariant)] + optional_name_leaves(name);
    assert(leaves(toks@.subrange(p as int, b as int)) =~= head);
    if !sym_is(toks, b, Sym::LBrace) {
        return Err(fail(toks, b, ParseProblem::UnexpectedToken));
    }
    let res = pratt_parse(toks, b + 1, 0);
    proof {
        assert forall|i2: Invariant, q2: int| #[trigger] invariant_at(ts, p as int, q2, i2)
            implies (res matches Ok((cond, c)) && c == q2 - 1 && same_shape(cond.node, i2.condition.node)) by {
            let d = lemma_expr_at(ts, b + 1, q2 - 1, i2.condition.node);
        }
    }
    let (condition, c) = match res {
        Ok(x) => x,
        Err(e) => return Err(e),
    };
    if !sym_is(toks, c, Sym::RBrace) {
        return Err(fail(toks, c, ParseProblem::UnexpectedToken));
    }
    let i = Invariant { name, condition, span: span_of(toks, p, c + 1) };
    proof {
        let ts = toks@;
        lemma_leaves_concat(ts, p as int, b as int, c + 1);
        lemma_leaves_concat(ts, b as int, b + 1, c + 1);
        lemma_leaves_concat(ts, b + 1, c as int, c + 1);
        lemma_leaves_one(ts, b as int);
        lemma_leaves_one(ts, c as int);
        assert(leaves(ts.subrange(p as int, c + 1)) =~= invariant_leaves(i));
    }
    Ok((i, c + 1))
}

proof fn lemma_assigns_push(a: Seq<Assignment>, x: Assignment)
    ensures
        assigns_leaves(a.push(x)) == assigns_leaves(a) + seq![Leaf::Name(x.target.node@), Leaf::Punct(Sym::Assign)]
            + expr_leaves(x.value.node),
{
    assert(a.push(x).drop_last() =~= a);
}

/// Tokens `s..e` write the assignment `target = value`, the value written
/// completely (see [`expr_at`]).
pub open spec fn assign_at(ts: Seq<Token>, s: int, e: int, x: Assignment) -> bool {
    &&& 0 <= s && s + 1 < ts.len()
    &&& ts[s].kind is Ident && name_at(ts, s) == x.target.node@
    &&& ts[s + 1].kind == TokKind::Sym(Sym::Assign)
    &&& expr_at(ts, s + 2, e, x.value.node)
}

/// Tokens `p..q` write `init { assignments }`, assignment `i` from
/// `starts[i]` to `starts[i + 1]` (see [`assign_at`]), the last entry of
/// `starts` the closing `}`.
pub open spec fn init_at(ts: Seq<Token>, p: int, q: int, b: InitBlock, starts: Seq<int>) -> bool {
    let a = b.assignments@;
    &&& 0 <= p && p + 1 < ts.len()
    &&& ts[p].kind == TokKind::Keyword(Keyword::Init) && ts[p + 1].kind == TokKind::Sym(Sym::LBrace)
    &&& starts.len() == a.len() + 1 && starts[0] == p + 2
    &&& forall|i: int| #![trigger starts[i]] 0 <= i < a.len() ==> assign_at(ts, starts[i], starts[i + 1], a[i])
    &&& 0 <= starts.last() < ts.len() && ts[starts.last()].kind == TokKind::Sym(Sym::RBrace)
    &&& q == starts.last() + 1
}

/// Two runs of assignments alike, one by one: the same target, values alike.
pub open spec fn same_assigns(a: Seq<Assignment>, b: Seq<Assignment>) -> bool {
    &&& a.len() == b.len()
    &&& forall|i: int| #![trigger a[i]] 0 <= i < a.len() ==> a[i].target.node@ == b[i].target.node@
        && same_shape(a[i].value.node, b[i].value.node)
}

pub open spec fn assigns_read_upto(a2: Seq<Assignment>, starts: Seq<int>, cur: int, a: Seq<Assignment>) -> bool {
    exists|i: int| #![trigger starts[i]] 0 <= i <= a2.len() && starts[i] == cur && same_assigns(a, a2.take(i))
}

pub open spec fn assigns_index(a2: Seq<Assignment>, starts: Seq<int>, cur: int, a: Seq<Assignment>) -> int {
    choose|i: int| #![trigger starts[i]] 0 <= i <= a2.len() && starts[i] == cur && same_assigns(a, a2.take(i))
}

proof fn lemma_same_assigns_push(a: Seq<Assignment>, a2: Seq<Assignment>, i: int, x: Assignment)
    requires
        0 <= i < a2.len(),
        same_assigns(a, a2.take(i)),
        x.target.node@ == a2[i].target.node@,
        same_shape(x.value.node, a2[i].value.node),
    ensures
        same_assigns(a.push(x), a2.take(i + 1)),
{
    let u = a.push(x);
    let v = a2.take(i + 1);
    assert forall|k: int| #![trigger u[k]] 0 <= k < u.len() implies u[k].target.node@ == v[k].target.node@
        && same_shape(u[k].value.node, v[k].value.node) by {
        if k < i {
            assert(u[k] == a[k]);
            assert(v[k] == a2.take(i)[k]);
        }
    }
}

/// `init { target = value ... }`. When the tokens at `p` write an init
/// block (see [`init_at`]), its assignments are what is read.
#[verifier::rlimit(40)]
fn parse_init(toks: &Vec<Token>, p: usize) -> (r: Result<(InitBlock, usize), ParseError>)
    requires
        p < toks@.len(),
        toks@[p as int].kind == TokKind::Keyword(Keyword::Init),
    ensures
        r matches Err(e) ==> e.problem != ParseProblem::BadCharacter,
        r matches Ok((b, q)) ==> p < q <= toks@.len() && leaves(toks@.subrange(p as int, q as int)) == init_leaves(b),
        forall|b2: InitBlock, q2: int, s2: Seq<int>| #[trigger] init_at(toks@, p as int, q2, b2, s2)
            ==> (r matches Ok((b, q)) && q == q2 && same_assigns(b.assignments@, b2.assignments@)),
{
    let ntoks = toks.len();
    let ghost ts = toks@;
    if !sym_is(toks, p + 1, Sym::LBrace) {
        return Err(fail(toks, p + 1, ParseProblem::UnexpectedToken));
    }
    let mut assignments: Vec<Assignment> = Vec::new();
    let mut cur = p + 2;
    proof {
        assert(leaves(toks@.subrange(p + 2, p + 2)) =~= Seq::<Leaf>::empty());
        assert forall|b2: InitBlock, q2: int, s2: Seq<int>| #[trigger] init_at(ts, p as int, q2, b2, s2)
            implies assigns_read_upto(b2.assignments@, s2, cur as int, assignments@) by {
            assert(b2.assignments@.take(0) =~= Seq::<Assignment>::empty());
            assert(s2[0] == cur);
        }
    }
    while cur < ntoks && !sym_is(toks, cur, Sym::RBrace)
        invariant
            ntoks == toks@.len(),
            ts == toks@,
            p + 2 <= cur <= ntoks,
            leaves(toks@.subrange(p + 2, cur as int)) == assigns_leaves(assignments@),
            forall|b2: InitBlock, q2: int, s2: Seq<int>| #[trigger] init_at(ts, p as int, q2, b2, s2)
                ==> assigns_read_upto(b2.assignments@, s2, cur as int, assignments@),
        decreases ntoks - cur,
    {
        proof {
            assert forall|b2: InitBlock, q2: int, s2: Seq<int>| #[trigger] init_at(ts, p as int, q2, b2, s2)
                implies ({
                    let i = assigns_index(b2.assignments@, s2, cur as int, assignments@);
                    &&& 0 <= i < b2.assignments@.len() && s2[i] == cur
                    &&& same_assigns(assignments@, b2.assignments@.take(i))
                    &&& assign_at(ts, cur as int, s2[i + 1], b2.assignments@[i])
                }) by {
                let i = assigns_index(b2.assignments@, s2, cur as int, assignments@);
                assert(s2[i] == s2[i]);
                if i == b2.assignments@.len() {
                    assert(false);
                }
                assert(s2[i + 1] == s2[i + 1]);
            }
        }
        let target = match ident_at(toks, cur) {
            Some(x) => x,
            None => return Err(fail(toks, cur, ParseProblem::UnexpectedToken)),
        };
        if !sym_is(toks, cur + 1, Sym::Assign) {
            return Err(fail(toks, cur + 1, ParseProblem::UnexpectedToken));
        }
        let res = pratt_parse(toks, cur + 2, 0);
        proof {
            assert forall|b2: InitBlock, q2: int, s2: Seq<int>| #[trigger] init_at(ts, p as int, q2, b2, s2)
                implies (res matches Ok((v, q)) && ({
                    let i = assigns_index(b2.assignments@, s2, cur as int, assignments@);
                    q == s2[i + 1] && same_shape(v.node, b2.assignments@[i].value.node)
                })) by {
                let i = assigns_index(b2.assignments@, s2, cur as int, assignments@);
                let d = lemma_expr_at(ts, cur + 2, s2[i + 1], b2.assignments@[i].value.node);
            }
        }
        let (value, q) = match res {
            Ok(x) => x,
            Err(e) => return Err(e),
        };
        let x = Assignment { target: Spanned::new(target, toks[cur].span), value };
        proof {
            let ts = toks@;
            lemma_leaves_concat(ts, p + 2, cur as int, q as int);
            lemma_leaves_concat(ts, cur as int, cur + 2, q as int);
            lemma_leaves_concat(ts, cur as int, cur + 1, cur + 2);
            lemma_leaves_one(ts, cur as int);
            lemma_leaves_one(ts, cur + 1);
            lemma_assigns_push(assignments@, x);
            assert(leaves(ts.subrange(p + 2, q as int)) =~= assigns_leaves(assignments@) + seq![
                Leaf::Name(x.target.node@),
                Leaf::Punct(Sym::Assign),
            ] + expr_leaves(x.value.node));
            assert forall|b2: InitBlock, q2: int, s2: Seq<int>| #[trigger] init_at(ts, p as int, q2, b2, s2)
                implies assigns_read_upto(b2.assignments@, s2, q as int, assignments@.push(x)) by {
                let i = assigns_index(b2.assignments@, s2, cur as int, assignments@);
                lemma_same_assigns_push(assignments@, b2.assignments@, i, x);
                assert(s2[i + 1] == q);
            }
        }
        assignments.push(x);
        cur = q;
    }
    proof {
        assert forall|b2: InitBlock, q2: int, s2: Seq<int>| #[trigger] init_at(ts, p as int, q2, b2, s2)
            implies cur < ntoks && cur + 1 == q2 && same_assigns(assignments@, b2.assignments@) by {
            let i = assigns_index(b2.assignments@, s2, cur as int, assignments@);
            assert(s2[i] == s2[i]);
            if i < b2.assignments@.len() {
                assert(s2[i + 1] == s2[i + 1]);
                assert(assign_at(ts, s2[i], s2[i + 1], b2.assignments@[i]));
            }
            assert(b2.assignments@.take(i) =~= b2.assignments@);
        }
    }
    if cur >= ntoks {
        return Err(fail(toks, cur, ParseProblem::UnexpectedEnd));
    }
    let b = InitBlock { assignments, span: span_of(toks, p, cur + 1) };
    proof {
        let ts = toks@;
        lemma_leaves_concat(ts, p as int, p + 2, cur + 1);
        lemma_leaves_concat(ts, p as int, p + 1, p + 2);
        lemma_leaves_concat(ts, p + 2, cur as int, cur + 1);
        lemma_leaves_one(ts, p as int);
        lemma_leaves_one(ts, p + 1);
        lemma_leaves_one(ts, cur as int);
        assert(leaves(ts.subrange(p as int, cur + 1)) =~= init_leaves(b));
    }
    Ok((b, cur + 1))
}

/// How tokens write a member of a state body.
pub enum MemberWriting {
    /// `name: type`.
    Field,
    /// `const NAME: type = value`, the type ending at the position.
    Const(int),
    /// `invariant [name] { condition }`.
    Invariant,
    /// `init { ... }`, with where each assignment starts (one entry more,
    /// the closing `}`).
    Init(Seq<int>),
    /// A transition, written as [`transition_at`] says.
    Transition(TransitionWriting),
}

/// Tokens `p..q` write the state member `m` as `w` says: a field (see
/// [`param_at`]), a constant (see [`const_at`]), an invariant (see
/// [`invariant_at`]), an init block (see [`init_at`]) or a transition (see
/// [`transition_at`]).
pub open spec fn member_at(ts: Seq<Token>, p: int, q: int, m: StateMember, w: MemberWriting) -> bool {
    match w {
        MemberWriting::Field => match m {
            StateMember::FieldDecl(f) => param_at(ts, p, q, Param { name: f.name, ty: f.ty }),
            _ => false,
        },
        MemberWriting::Const(k) => match m {
            StateMember::ConstDecl(c) => const_at(ts, p, q, c, k),
            _ => false,
        },
        MemberWriting::Invariant => match m {
            StateMember::InvariantDecl(i) => invariant_at(ts, p, q, i),
            _ => false,
        },
        MemberWriting::Init(st) => match m {
            StateMember::InitDecl(b) => init_at(ts, p, q, b, st),
            _ => false,
        },
        MemberWriting::Transition(tw) => match m {
            StateMember::TransitionDecl(t) => transition_at(ts, p, q, t, tw),
            _ => false,
        },
    }
}

/// Two fields alike: the same name, types alike.
pub open spec fn same_field(a: Field, b: Field) -> bool {
    a.name.node@ == b.name.node@ && same_type(a.ty.node, b.ty.node)
}

/// Two members alike, up to spans.
pub open spec fn same_member(a: StateMember, b: StateMember) -> bool {
    match a {
        StateMember::FieldDecl(f) => b matches StateMember::FieldDecl(g) && same_field(f, g),
        StateMember::ConstDecl(c) => b matches StateMember::ConstDecl(d) && same_const(c, d),
        StateMember::InvariantDecl(i) => b matches StateMember::InvariantDecl(j) && same_invariant(i, j),
        StateMember::InitDecl(x) => b matches StateMember::InitDecl(y) && same_assigns(x.assignments@, y.assignments@),
        StateMember::TransitionDecl(t) => b matches StateMember::TransitionDecl(u) && same_transition(t, u),
    }
}

/// What a written member starts with.
proof fn lemma_member_start(ts: Seq<Token>, p: int, q: int, m: StateMember, w: MemberWriting)
    requires
        member_at(ts, p, q, m, w),
    ensures
        0 <= p < ts.len(),
        match w {
            MemberWriting::Field => ts[p].kind is Ident,
            MemberWriting::Const(_) => ts[p].kind == TokKind::Keyword(Keyword::Const),
            MemberWriting::Invariant => ts[p].kind == TokKind::Keyword(Keyword::Invariant),
            MemberWriting::Init(_) => ts[p].kind == TokKind::Keyword(Keyword::Init),
            MemberWriting::Transition(_) => ts[p].kind == TokKind::Keyword(Keyword::Transition),
        },
{
}

/// One member of a state body: a field, a constant, an invariant, the init
/// block, or a transition. When the tokens at `p` write a member (see
/// [`member_at`]), it is what is read.
fn parse_member(toks: &Vec<Token>, p: usize) -> (r: Result<(StateMember, usize), ParseError>)
    requires
        p < toks@.len(),
    ensures
        r matches Err(e) ==> e.problem != ParseProblem::BadCharacter,
        r matches Ok((m, q)) ==> p < q <= toks@.len() && member_printed(m, leaves(toks@.subrange(p as int, q as int))),
        forall|m2: StateMember, q2: int, w2: MemberWriting| #[trigger] member_at(toks@, p as int, q2, m2, w2)
            ==> (r matches Ok((m, q)) && q == q2 && same_member(m, m2)),
{
    let ntoks = toks.len();
    let ghost ts = toks@;
    proof {
        assert forall|m2: StateMember, q2: int, w2: MemberWriting| #[trigger] member_at(ts, p as int, q2, m2, w2)
            implies match w2 {
                MemberWriting::Field => ts[p as int].kind is Ident,
                MemberWriting::Const(_) => ts[p as int].kind == TokKind::Keyword(Keyword::Const),
                MemberWriting::Invariant => ts[p as int].kind == TokKind::Keyword(Keyword::Invariant),
                MemberWriting::Init(_) => ts[p as int].kind == TokKind::Keyword(Keyword::Init),
                MemberWriting::Transition(_) => ts[p as int].kind == TokKind::Keyword(Keyword::Transition),
            } by {
            lemma_member_start(ts, p as int, q2, m2, w2);
        }
    }
    match &toks[p].kind {
        TokKind::Keyword(Keyword::Const) => {
            let res = parse_const_def(toks, p);
            proof {
                assert forall|m2: StateMember, q2: int, w2: MemberWriting| #[trigger] member_at(ts, p as int, q2, m2, w2)
                    implies (res matches Ok((c, q)) && q == q2 && same_const(c, m2->ConstDecl_0)) by {
                    assert(const_at(ts, p as int, q2, m2->ConstDecl_0, w2->Const_0));
                }
            }
            match res {
                Ok((c, q)) => Ok((StateMember::ConstDecl(c), q)),
                Err(e) => Err(e),
            }
        },
        TokKind::Keyword(Keyword::Invariant) => {
            let res = parse_invariant(toks, p);
            proof {
                assert forall|m2: StateMember, q2: int, w2: MemberWriting| #[trigger] member_at(ts, p as int, q2, m2, w2)
                    implies (res matches Ok((i, q)) && q == q2 && same_invariant(i, m2->InvariantDecl_0)) by {
                    assert(invariant_at(ts, p as int, q2, m2->InvariantDecl_0));
                }
            }
            match res {
                Ok((i, q)) => Ok((StateMember::InvariantDecl(i), q)),
                Err(e) => Err(e),
            }
        },
        TokKind::Keyword(Keyword::Init) => {
            let res = parse_init(toks, p);
            proof {
                assert forall|m2: StateMember, q2: int, w2: MemberWriting| #[trigger] member_at(ts, p as int, q2, m2, w2)
                    implies (res matches Ok((b, q)) && q == q2 && same_assigns(b.assignments@, m2->InitDecl_0.assignments@)) by {
                    assert(init_at(ts, p as int, q2, m2->InitDecl_0, w2->Init_0));
                }
            }
            match res {
                Ok((b, q)) => Ok((StateMember::InitDecl(b), q)),
                Err(e) => Err(e),
            }
        },
        TokKind::Keyword(Keyword::Transition) => {
            let res = parse_transition(toks, p);
            proof {
                assert forall|m2: StateMember, q2: int, w2: MemberWriting| #[trigger] member_at(ts, p as int, q2, m2, w2)
                    implies (res matches Ok((t, q)) && q == q2 && same_transition(t, m2->TransitionDecl_0)) by {
                    assert(transition_at(ts, p as int, q2, m2->TransitionDecl_0, w2->Transition_0));
                }
            }
            match res {
                Ok((t, q)) => Ok((StateMember::TransitionDecl(t), q)),
                Err(e) => Err(e),
            }
        },
        TokKind::Ident(_) => {
            let res = parse_param(toks, p);
            proof {
                assert forall|m2: StateMember, q2: int, w2: MemberWriting| #[trigger] member_at(ts, p as int, q2, m2, w2)
                    implies (res matches Ok((pm, q)) && q == q2 && same_param(pm, Param { name: m2->FieldDecl_0.name, ty: m2->FieldDecl_0.ty })) by {
                    let f = m2->FieldDecl_0;
                    assert(param_at(ts, p as int, q2, Param { name: f.name, ty: f.ty }));
                }
            }
            let (pm, q) = match res {
                Ok(x) => x,
                Err(e) => return Err(e),
            };
            Ok((StateMember::FieldDecl(Field { name: pm.name, ty: pm.ty }), q))
        },
        _ => Err(fail(toks, p, ParseProblem::UnexpectedToken)),
    }
}

proof fn lemma_members_push(ms: Seq<StateMember>, m: StateMember, x: Seq<Leaf>, y: Seq<Leaf>)
    requires
        members_printed(ms, x),
        member_printed(m, y),
    ensures
        members_printed(ms.push(m), x + y),
        fields_of(ms.push(m)) == fields_of(ms) + match m {
            StateMember::FieldDecl(f) => seq![f],
            _ => Seq::<Field>::empty(),
        },
        consts_of(ms.push(m)) == consts_of(ms) + match m {
            StateMember::ConstDecl(c) => seq![c],
            _ => Seq::<ConstDef>::empty(),
        },
        invariants_of(ms.push(m)) == invariants_of(ms) + match m {
            StateMember::InvariantDecl(i) => seq![i],
            _ => Seq::<Invariant>::empty(),
        },
        transitions_of(ms.push(m)) == transitions_of(ms) + match m {
            StateMember::TransitionDecl(t) => seq![t],
            _ => Seq::<Transition>::empty(),
        },
        init_of(ms.push(m)) == match m {
            StateMember::InitDecl(b) => Some(b),
            _ => init_of(ms),
        },
{
    let ls = x + y;
    assert(ls.take(x.len() as int) =~= x);
    assert(ls.skip(x.len() as int) =~= y);
    assert(ms.push(m).drop_last() =~= ms);
    assert(ms.push(m).last() == m);
}

/// How tokens write a state: its members in order, where each starts (one
/// entry more, the closing `}`) and how each is written.
pub struct StateWriting {
    pub members: Seq<StateMember>,
    pub starts: Seq<int>,
    pub writings: Seq<MemberWriting>,
}

/// Tokens `p..q` write the state `sd` as `w` says: `state`, its name, `{`,
/// its members one after another (see [`member_at`]) and `}`. Its fields,
/// constants, invariants, transitions and init block are those of the
/// members (see [`members_give`]).
pub open spec fn state_at(ts: Seq<Token>, p: int, q: int, sd: StateDef, w: StateWriting) -> bool {
    &&& 0 <= p && p + 2 < ts.len()
    &&& ts[p].kind == TokKind::Keyword(Keyword::State)
    &&& ts[p + 1].kind is Ident && name_at(ts, p + 1) == sd.name.node@
    &&& ts[p + 2].kind == TokKind::Sym(Sym::LBrace)
    &&& w.starts.len() == w.members.len() + 1 && w.writings.len() == w.members.len()
    &&& w.starts[0] == p + 3
    &&& forall|i: int| #![trigger w.starts[i]] 0 <= i < w.members.len()
        ==> member_at(ts, w.starts[i], w.starts[i + 1], w.members[i], w.writings[i])
    &&& 0 <= w.starts.last() < ts.len() && ts[w.starts.last()].kind == TokKind::Sym(Sym::RBrace)
    &&& q == w.starts.last() + 1
    &&& members_give(w.members, sd)
}

pub open spec fn same_fields(a: Seq<Field>, b: Seq<Field>) -> bool {
    &&& a.len() == b.len()
    &&& forall|i: int| #![trigger a[i]] 0 <= i < a.len() ==> same_field(a[i], b[i])
}

pub open spec fn same_consts(a: Seq<ConstDef>, b: Seq<ConstDef>) -> bool {
    &&& a.len() == b.len()
    &&& forall|i: int| #![trigger a[i]] 0 <= i < a.len() ==> same_const(a[i], b[i])
}

pub open spec fn same_invariants(a: Seq<Invariant>, b: Seq<Invariant>) -> bool {
    &&& a.len() == b.len()
    &&& forall|i: int| #![trigger a[i]] 0 <= i < a.len() ==> same_invariant(a[i], b[i])
}

pub open spec fn same_transitions(a: Seq<Transition>, b: Seq<Transition>) -> bool {
    &&& a.len() == b.len()
    &&& forall|i: int| #![trigger a[i]] 0 <= i < a.len() ==> same_transition(a[i], b[i])
}

pub open spec fn same_init(a: Option<InitBlock>, b: Option<InitBlock>) -> bool {
    match (a, b) {
        (Some(x), Some(y)) => same_assigns(x.assignments@, y.assignments@),
        (None, None) => true,
        _ => false,
    }
}

/// Two states alike, up to spans.
pub open spec fn same_state(a: StateDef, b: StateDef) -> bool {
    &&& a.name.node@ == b.name.node@
    &&& same_fields(a.fields@, b.fields@)
    &&& same_consts(a.constants@, b.constants@)
    &&& same_invariants(a.invariants@, b.invariants@)
    &&& same_init(a.init, b.init)
    &&& same_transitions(a.transitions@, b.transitions@)
}

pub open spec fn same_members(a: Seq<StateMember>, b: Seq<StateMember>) -> bool {
    &&& a.len() == b.len()
    &&& forall|i: int| #![trigger a[i]] 0 <= i < a.len() ==> same_member(a[i], b[i])
}

pub open spec fn members_read_upto(m2: Seq<StateMember>, starts: Seq<int>, cur: int, ms: Seq<StateMember>) -> bool {
    exists|i: int| #![trigger starts[i]] 0 <= i <= m2.len() && starts[i] == cur && same_members(ms, m2.take(i))
}

pub open spec fn members_index(m2: Seq<StateMember>, starts: Seq<int>, cur: int, ms: Seq<StateMember>) -> int {
    choose|i: int| #![trigger starts[i]] 0 <= i <= m2.len() && starts[i] == cur && same_members(ms, m2.take(i))
}

proof fn lemma_same_members_push(ms: Seq<StateMember>, m2: Seq<StateMember>, i: int, m: StateMember)
    requires
        0 <= i < m2.len(),
        same_members(ms, m2.take(i)),
        same_member(m, m2[i]),
    ensures
        same_members(ms.push(m), m2.take(i + 1)),
{
    let a = ms.push(m);
    let b = m2.take(i + 1);
    assert forall|k: int| #![trigger a[k]] 0 <= k < a.len() implies same_member(a[k], b[k]) by {
        if k < i {
            assert(a[k] == ms[k]);
            assert(b[k] == m2.take(i)[k]);
        }
    }
}

/// Members alike give fields, constants, invariants, init blocks and
/// transitions alike.
proof fn lemma_same_members_give(ms: Seq<StateMember>, m2: Seq<StateMember>)
    requires
        same_members(ms, m2),
    ensures
        same_fields(fields_of(ms), fields_of(m2)),
        same_consts(consts_of(ms), consts_of(m2)),
        same_invariants(invariants_of(ms), invariants_of(m2)),
        same_init(init_of(ms), init_of(m2)),
        same_transitions(transitions_of(ms), transitions_of(m2)),
    decreases ms.len(),
{
    if ms.len() > 0 {
        let a = ms.drop_last();
        let b = m2.drop_last();
        assert forall|k: int| #![trigger a[k]] 0 <= k < a.len() implies same_member(a[k], b[k]) by {
            assert(a[k] == ms[k] && b[k] == m2[k]);
        }
        lemma_same_members_give(a, b);
        let n = ms.len() - 1;
        assert(ms[n] == ms.last() && m2[n] == m2.last());
        assert(same_member(ms.last(), m2.last()));
        let (x, y) = (fields_of(ms), fields_of(m2));
        assert forall|k: int| #![trigger x[k]] 0 <= k < x.len() implies same_field(x[k], y[k]) by {
            if k < fields_of(a).len() {
                assert(x[k] == fields_of(a)[k] && y[k] == fields_of(b)[k]);
            }
        }
        let (x, y) = (consts_of(ms), consts_of(m2));
        assert forall|k: int| #![trigger x[k]] 0 <= k < x.len() implies same_const(x[k], y[k]) by {
            if k < consts_of(a).len() {
                assert(x[k] == consts_of(a)[k] && y[k] == consts_of(b)[k]);
            }
        }
        let (x, y) = (invariants_of(ms), invariants_of(m2));
        assert forall|k: int| #![trigger x[k]] 0 <= k < x.len() implies same_invariant(x[k], y[k]) by {
            if k < invariants_of(a).len() {
                assert(x[k] == invariants_of(a)[k] && y[k] == invariants_of(b)[k]);
            }
        }
        let (x, y) = (transitions_of(ms), transitions_of(m2));
        assert forall|k: int| #![trigger x[k]] 0 <= k < x.len() implies same_transition(x[k], y[k]) by {
            if k < transitions_of(a).len() {
                assert(x[k] == transitions_of(a)[k] && y[k] == transitions_of(b)[k]);
            }
        }
    }
}

/// `state Name { members }`. When the tokens at `p` write a state (see
/// [`state_at`]), it is what is read, up to spans (see [`same_state`]).
#[verifier::rlimit(40)]
fn parse_state(toks: &Vec<Token>, p: usize) -> (r: Result<(StateDef, usize), ParseError>)
    requires
        p < toks@.len(),
        toks@[p as int].kind == TokKind::Keyword(Keyword::State),
    ensures
        r matches Err(e) ==> e.problem != ParseProblem::BadCharacter,
        r matches Ok((sd, q)) ==> p < q <= toks@.len() && state_printed(sd, leaves(toks@.subrange(p as int, q as int))),
        forall|sd2: StateDef, q2: int, w2: StateWriting| #[trigger] state_at(toks@, p as int, q2, sd2, w2)
            ==> (r matches Ok((sd, q)) && q == q2 && same_state(sd, sd2)),
{
    let ntoks = toks.len();
    let ghost ts = toks@;
    let name = match ident_at(toks, p + 1) {
        Some(x) => x,
        None => return Err(fail(toks, p + 1, ParseProblem::UnexpectedToken)),
    };
    let name = Spanned::new(name, toks[p + 1].span);
    if !sym_is(toks, p + 2, Sym::LBrace) {
        return Err(fail(toks, p + 2, ParseProblem::UnexpectedToken));
    }
    let mut fields: Vec<Field> = Vec::new();
    let mut constants: Vec<ConstDef> = Vec::new();
    let mut invariants: Vec<Invariant> = Vec::new();
    let mut init: Option<InitBlock> = None;
    let mut transitions: Vec<Transition> = Vec::new();
    let ghost mut ms: Seq<StateMember> = Seq::empty();
    let mut cur = p + 3;
    proof {
        assert(leaves(toks@.subrange(p + 3, p + 3)) =~= Seq::<Leaf>::empty());
        assert(fields_of(ms) =~= fields@);
        assert(consts_of(ms) =~= constants@);
        assert(invariants_of(ms) =~= invariants@);
        assert(transitions_of(ms) =~= transitions@);
        assert forall|sd2: StateDef, q2: int, w2: StateWriting| #[trigger] state_at(ts, p as int, q2, sd2, w2)
            implies members_read_upto(w2.members, w2.starts, cur as int, ms) by {
            assert(w2.members.take(0) =~= Seq::<StateMember>::empty());
            assert(w2.starts[0] == cur);
        }
    }
    while cur < ntoks && !sym_is(toks, cur, Sym::RBrace)
        invariant
            ntoks == toks@.len(),
            ts == toks@,
            p + 3 <= cur <= ntoks,
            members_printed(ms, leaves(toks@.subrange(p + 3, cur as int))),
            fields_of(ms) == fields@,
            consts_of(ms) == constants@,
            invariants_of(ms) == invariants@,
            init_of(ms) == init,
            transitions_of(ms) == transitions@,
            forall|sd2: StateDef, q2: int, w2: StateWriting| #[trigger] state_at(ts, p as int, q2, sd2, w2)
                ==> members_read_upto(w2.members, w2.starts, cur as int, ms),
        decreases ntoks - cur,
    {
        let res = parse_member(toks, cur);
        proof {
            assert forall|sd2: StateDef, q2: int, w2: StateWriting| #[trigger] state_at(ts, p as int, q2, sd2, w2)
                implies (res matches Ok((m, q)) && members_read_upto(w2.members, w2.starts, q as int, ms.push(m))) by {
                let i = members_index(w2.members, w2.starts, cur as int, ms);
                assert(w2.starts[i] == w2.starts[i]);
                if i == w2.members.len() {
                    assert(false);
                }
                assert(w2.starts[i + 1] == w2.starts[i + 1]);
                assert(member_at(ts, cur as int, w2.starts[i + 1], w2.members[i], w2.writings[i]));
                let (m, q) = res->Ok_0;
                lemma_same_members_push(ms, w2.members, i, m);
            }
        }
        let (m, q) = match res {
            Ok(x) => x,
            Err(e) => return Err(e),
        };
        proof {
            lemma_leaves_concat(toks@, p + 3, cur as int, q as int);
            lemma_members_push(ms, m, leaves(toks@.subrange(p + 3, cur as int)), leaves(toks@.subrange(cur as int, q as int)));
            ms = ms.push(m);
        }
        match m {
            StateMember::FieldDecl(f) => fields.push(f),
            StateMember::ConstDecl(c) => constants.push(c),
            StateMember::InvariantDecl(i) => invariants.push(i),
            StateMember::InitDecl(b) => {
                init = Some(b);
            },
            StateMember::TransitionDecl(t) => transitions.push(t),
        }
        proof {
            assert(fields_of(ms) =~= fields@);
            assert(consts_of(ms) =~= constants@);
            assert(invariants_of(ms) =~= invariants@);
            assert(transitions_of(ms) =~= transitions@);
        }
        cur = q;
    }
    proof {
        assert forall|sd2: StateDef, q2: int, w2: StateWriting| #[trigger] state_at(ts, p as int, q2, sd2, w2)
            implies cur < ntoks && cur + 1 == q2 && same_members(ms, w2.members) by {
            let i = members_index(w2.members, w2.starts, cur as int, ms);
            assert(w2.starts[i] == w2.starts[i]);
            if i < w2.members.len() {
                assert(w2.starts[i + 1] == w2.starts[i + 1]);
                lemma_member_start(ts, cur as int, w2.starts[i + 1], w2.members[i], w2.writings[i]);
            }
            assert(w2.members.take(i) =~= w2.members);
        }
    }
    if cur >= ntoks {
        return Err(fail(toks, cur, ParseProblem::UnexpectedEnd));
    }
    let sd = StateDef { name, fields, constants, invariants, init, transitions };
    proof {
        let ts = toks@;
        let h = seq![Leaf::Kw(Keyword::State), Leaf::Name(sd.name.node@), Leaf::Punct(Sym::LBrace)];
        let mid = leaves(ts.subrange(p + 3, cur as int));
        lemma_leaves_concat(ts, p as int, p + 3, cur + 1);
        lemma_leaves_concat(ts, p as int, p + 1, p + 3);
        lemma_leaves_concat(ts, p + 1, p + 2, p + 3);
        lemma_leaves_concat(ts, p + 3, cur as int, cur + 1);
        lemma_leaves_one(ts, p as int);
        lemma_leaves_one(ts, p + 1);
        lemma_leaves_one(ts, p + 2);
        lemma_leaves_one(ts, cur as int);
        let ls = leaves(ts.subrange(p as int, cur + 1));
        assert(ls =~= h + mid + seq![Leaf::Punct(Sym::RBrace)]);
        assert(ls.take(h.len() as int) =~= h);
        assert(ls.subrange(h.len() as int, ls.len() - 1) =~= mid);
        assert(members_printed(ms, ls.subrange(h.len() as int, ls.len() - 1)) && members_give(ms, sd));
        assert forall|sd2: StateDef, q2: int, w2: StateWriting| #[trigger] state_at(ts, p as int, q2, sd2, w2)
            implies same_state(sd, sd2) by {
            lemma_same_members_give(ms, w2.members);
        }
    }
    Ok((sd, cur + 1))
}

/// Tokens `p..q` write `import "path"`, followed by `as alias` when there
/// is an alias (and by no `as` when there is none).
pub open spec fn import_at(ts: Seq<Token>, p: int, q: int, im: Import) -> bool {
    &&& 0 <= p && p + 1 < ts.len()
    &&& ts[p].kind == TokKind::Keyword(Keyword::Import)
    &&& ts[p + 1].kind is Str && ts[p + 1].kind->Str_0@ == im.path.node@
    &&& match im.alias {
        Some(a) => p + 3 < ts.len() && ts[p + 2].kind == TokKind::Keyword(Keyword::As) && ts[p + 3].kind is Ident
            && name_at(ts, p + 3) == a.node@ && q == p + 4,
        None => !(p + 2 < ts.len() && ts[p + 2].kind == TokKind::Keyword(Keyword::As)) && q == p + 2,
    }
}

/// Two imports alike: the same path, and the same alias or none.
pub open spec fn same_import(a: Import, b: Import) -> bool {
    &&& a.path.node@ == b.path.node@
    &&& match (a.alias, b.alias) {
        (Some(x), Some(y)) => x.node@ == y.node@,
        (None, None) => true,
        _ => false,
    }
}

/// `import "path" [as alias]`. When the tokens at `p` write an import (see
/// [`import_at`]), it is what is read.
fn parse_import(toks: &Vec<Token>, p: usize) -> (r: Result<(Import, usize), ParseError>)
    requires
        p < toks@.len(),
        toks@[p as int].kind == TokKind::Keyword(Keyword::Import),
    ensures
        r matches Err(e) ==> e.problem != ParseProblem::BadCharacter,
        r matches Ok((im, q)) ==> p < q <= toks@.len() && leaves(toks@.subrange(p as int, q as int)) == import_leaves(im),
        forall|im2: Import, q2: int| #[trigger] import_at(toks@, p as int, q2, im2)
            ==> (r matches Ok((im, q)) && q == q2 && same_import(im, im2)),
{
    let ntoks = toks.len();
    if p + 1 >= ntoks {
        return Err(fail(toks, p + 1, ParseProblem::UnexpectedEnd));
    }
    let path = match &toks[p + 1].kind {
        TokKind::Str(x) => x.clone(),
        _ => return Err(fail(toks, p + 1, ParseProblem::UnexpectedToken)),
    };
    let path = Spanned::new(path, toks[p + 1].span);
    proof {
        lemma_leaves_concat(toks@, p as int, p + 1, p + 2);
        lemma_leaves_one(toks@, p as int);
        lemma_leaves_one(toks@, p + 1);
    }
    if kw_is(toks, p + 2, Keyword::As) {
        let alias = match ident_at(toks, p + 3) {
            Some(x) => x,
            None => return Err(fail(toks, p + 3, ParseProblem::UnexpectedToken)),
        };
        let im = Import { path, alias: Some(Spanned::new(alias, toks[p + 3].span)) };
        proof {
            lemma_leaves_concat(toks@, p as int, p + 2, p + 4);
            lemma_leaves_concat(toks@, p + 2, p + 3, p + 4);
            lemma_leaves_one(toks@, p + 2);
            lemma_leaves_one(toks@, p + 3);
            assert(leaves(toks@.subrange(p as int, p + 4)) =~= import_leaves(im));
        }
        Ok((im, p + 4))
    } else {
        let im = Import { path, alias: None };
        proof {
            assert(leaves(toks@.subrange(p as int, p + 2)) =~= import_leaves(im));
        }
        Ok((im, p + 2))
    }
}

proof fn lemma_variants_push(vs: Seq<Spanned<String>>, v: Spanned<String>)
    requires
        vs.len() >= 1,
    ensures
        variants_leaves(vs.push(v)) == variants_leaves(vs) + seq![Leaf::Punct(Sym::Comma), Leaf::Name(v.node@)],
{
    assert(vs.push(v).drop_last() =~= vs);
}

/// Tokens `p..q` write `enum Name { A, B, ... }` with one variant or more,
/// a comma between each two, and a comma after the last when `trailing`.
pub open spec fn enum_at(ts: Seq<Token>, p: int, q: int, e: EnumDef, trailing: bool) -> bool {
    let n = e.variants@.len();
    let c = p + 2 + 2 * n;
    &&& 0 <= p && p + 2 < ts.len() && n >= 1
    &&& ts[p].kind == TokKind::Keyword(Keyword::Enum)
    &&& ts[p + 1].kind is Ident && name_at(ts, p + 1) == e.name.node@
    &&& ts[p + 2].kind == TokKind::Sym(Sym::LBrace)
    &&& forall|i: int| #![trigger e.variants@[i]] 0 <= i < n ==> p + 3 + 2 * i < ts.len() && (ts[p + 3 + 2 * i].kind is Ident)
        && name_at(ts, p + 3 + 2 * i) == e.variants@[i].node@
        && (i + 1 < n ==> ts[p + 4 + 2 * i].kind == TokKind::Sym(Sym::Comma))
    &&& if trailing {
        c + 1 < ts.len() && ts[c].kind == TokKind::Sym(Sym::Comma) && ts[c + 1].kind == TokKind::Sym(Sym::RBrace) && q == c + 2
    } else {
        c < ts.len() && ts[c].kind == TokKind::Sym(Sym::RBrace) && q == c + 1
    }
}

pub open spec fn same_variants(a: Seq<Spanned<String>>, b: Seq<Spanned<String>>) -> bool {
    &&& a.len() == b.len()
    &&& forall|i: int| #![trigger a[i]] 0 <= i < a.len() ==> a[i].node@ == b[i].node@
}

/// Two enums alike: the same name and the same variants, in order.
pub open spec fn same_enum(a: EnumDef, b: EnumDef) -> bool {
    a.name.node@ == b.name.node@ && same_variants(a.variants@, b.variants@)
}

/// Where the reading of an enum stands against a writing of it: the
/// variants read are alike the first ones written, and `cur` is after them
/// (after the trailing comma, once read).
pub open spec fn enum_read_upto(p: int, e2: EnumDef, t2: bool, cur: int, vs: Seq<Spanned<String>>, trailing: bool) -> bool {
    let k = vs.len();
    let n = e2.variants@.len();
    &&& 1 <= k <= n
    &&& same_variants(vs, e2.variants@.take(k as int))
    &&& if trailing {
        k == n && t2 && cur == p + 3 + 2 * n
    } else {
        cur == p + 2 + 2 * k
    }
}

/// What a written enum has at its variant `i`.
proof fn lemma_enum_variant(ts: Seq<Token>, p: int, q: int, e: EnumDef, t: bool, i: int)
    requires
        enum_at(ts, p, q, e, t),
        0 <= i < e.variants@.len(),
    ensures
        p + 3 + 2 * i < ts.len(),
        ts[p + 3 + 2 * i].kind is Ident,
        name_at(ts, p + 3 + 2 * i) == e.variants@[i].node@,
        i + 1 < e.variants@.len() ==> ts[p + 4 + 2 * i].kind == TokKind::Sym(Sym::Comma),
{
    assert(e.variants@[i] == e.variants@[i]);
    let k = p + 3 + 2 * i;
    assert(k < ts.len());
    assert(name_at(ts, k) == e.variants@[i].node@);
    assert(ts[k].kind is Ident);
}

/// `enum Name { A, B, ... }`; an enum without variants is refused. When the
/// tokens at `p` write an enum (see [`enum_at`]), it is what is read.
#[verifier::rlimit(40)]
fn parse_enum(toks: &Vec<Token>, p: usize) -> (r: Result<(EnumDef, usize), ParseError>)
    requires
        p < toks@.len(),
        toks@[p as int].kind == TokKind::Keyword(Keyword::Enum),
    ensures
        r matches Err(e) ==> e.problem != ParseProblem::BadCharacter,
        r matches Ok((e, q)) ==> p < q <= toks@.len() && enum_printed(e, leaves(toks@.subrange(p as int, q as int))),
        forall|e2: EnumDef, q2: int, t2: bool| #[trigger] enum_at(toks@, p as int, q2, e2, t2)
            ==> (r matches Ok((e, q)) && q == q2 && same_enum(e, e2)),
{
    let ntoks = toks.len();
    let ghost ts = toks@;
    let name = match ident_at(toks, p + 1) {
        Some(x) => x,
        None => return Err(fail(toks, p + 1, ParseProblem::UnexpectedToken)),
    };
    if !sym_is(toks, p + 2, Sym::LBrace) {
        return Err(fail(toks, p + 2, ParseProblem::UnexpectedToken));
    }
    proof {
        assert forall|e2: EnumDef, q2: int, t2: bool| #[trigger] enum_at(ts, p as int, q2, e2, t2)
            implies ts[p + 3].kind is Ident && name_at(ts, p + 3) == e2.variants@[0].node@ by {
            lemma_enum_variant(ts, p as int, q2, e2, t2, 0);
        }
    }
    if sym_is(toks, p + 3, Sym::RBrace) {
        return Err(fail(toks, p + 3, ParseProblem::EmptyEnum));
    }
    let first = match ident_at(toks, p + 3) {
        Some(x) => x,
        None => return Err(fail(toks, p + 3, ParseProblem::UnexpectedToken)),
    };
    let mut variants: Vec<Spanned<String>> = Vec::new();
    variants.push(Spanned::new(first, toks[p + 3].span));
    let ghost h = seq![Leaf::Kw(Keyword::Enum), Leaf::Name(name@), Leaf::Punct(Sym::LBrace)];
    proof {
        let ts = toks@;
        lemma_leaves_concat(ts, p as int, p + 3, p + 4);
        lemma_leaves_concat(ts, p as int, p + 1, p + 3);
        lemma_leaves_concat(ts, p + 1, p + 2, p + 3);
        lemma_leaves_one(ts, p as int);
        lemma_leaves_one(ts, p + 1);
        lemma_leaves_one(ts, p + 2);
        lemma_leaves_one(ts, p + 3);
        assert(leaves(ts.subrange(p as int, p + 4)) =~= h + variants_leaves(variants@));
    }
    let mut cur = p + 4;
    let mut trailing = false;
    proof {
        assert forall|e2: EnumDef, q2: int, t2: bool| #[trigger] enum_at(ts, p as int, q2, e2, t2)
            implies enum_read_upto(p as int, e2, t2, cur as int, variants@, trailing) by {
            let vs = variants@;
            let w = e2.variants@.take(1);
            assert forall|i: int| #![trigger vs[i]] 0 <= i < vs.len() implies vs[i].node@ == w[i].node@ by {
                assert(i == 0);
            }
        }
    }
    while sym_is(toks, cur, Sym::Comma) && !trailing
        invariant
            ntoks == toks@.len(),
            ts == toks@,
            p + 4 <= cur <= ntoks,
            variants@.len() >= 1,
            trailing ==> cur >= 1 && toks@[cur - 1].kind == TokKind::Sym(Sym::Comma),
            trailing ==> leaves(toks@.subrange(p as int, cur as int)) == h + variants_leaves(variants@)
                + seq![Leaf::Punct(Sym::Comma)],
            !trailing ==> leaves(toks@.subrange(p as int, cur as int)) == h + variants_leaves(variants@),
            forall|e2: EnumDef, q2: int, t2: bool| #[trigger] enum_at(ts, p as int, q2, e2, t2)
                ==> enum_read_upto(p as int, e2, t2, cur as int, variants@, trailing),
        decreases ntoks - cur, if trailing { 0int } else { 1int },
    {
        proof {
            lemma_leaves_concat(toks@, p as int, cur as int, cur + 1);
            lemma_leaves_one(toks@, cur as int);
            assert forall|e2: EnumDef, q2: int, t2: bool| #[trigger] enum_at(ts, p as int, q2, e2, t2)
                implies (if variants@.len() < e2.variants@.len() {
                    ts[cur + 1].kind is Ident && name_at(ts, cur + 1) == e2.variants@[variants@.len() as int].node@
                } else {
                    t2 && ts[cur + 1].kind == TokKind::Sym(Sym::RBrace)
                }) by {
                let k = variants@.len() as int;
                if k < e2.variants@.len() {
                    lemma_enum_variant(ts, p as int, q2, e2, t2, k);
                    lemma_enum_variant(ts, p as int, q2, e2, t2, k - 1);
                }
            }
        }
        if sym_is(toks, cur + 1, Sym::RBrace) {
            trailing = true;
            cur = cur + 1;
        } else {
            let v = match ident_at(toks, cur + 1) {
                Some(x) => x,
                None => return Err(fail(toks, cur + 1, ParseProblem::UnexpectedToken)),
            };
            let v = Spanned::new(v, toks[cur + 1].span);
            proof {
                lemma_leaves_concat(toks@, p as int, cur + 1, cur + 2);
                lemma_leaves_one(toks@, cur + 1);
                lemma_variants_push(variants@, v);
                assert(leaves(toks@.subrange(p as int, cur + 2)) =~= h + variants_leaves(variants@.push(v)));
                assert forall|e2: EnumDef, q2: int, t2: bool| #[trigger] enum_at(ts, p as int, q2, e2, t2)
                    implies enum_read_upto(p as int, e2, t2, cur + 2, variants@.push(v), false) by {
                    let k = variants@.len() as int;
                    let vs = variants@.push(v);
                    let w = e2.variants@.take(k + 1);
                    assert forall|i: int| #![trigger vs[i]] 0 <= i < vs.len() implies vs[i].node@ == w[i].node@ by {
                        if i < k {
                            assert(vs[i] == variants@[i]);
                            assert(w[i] == e2.variants@.take(k)[i]);
                        }
                    }
                }
            }
            variants.push(v);
            cur = cur + 2;
        }
    }
    proof {
        assert forall|e2: EnumDef, q2: int, t2: bool| #[trigger] enum_at(ts, p as int, q2, e2, t2)
            implies ts[cur as int].kind == TokKind::Sym(Sym::RBrace) && cur + 1 == q2
                && same_variants(variants@, e2.variants@) by {
            let k = variants@.len() as int;
            let n = e2.variants@.len();
            if !trailing && k < n {
                lemma_enum_variant(ts, p as int, q2, e2, t2, k - 1);
            }
            assert(e2.variants@.take(n as int) =~= e2.variants@);
        }
    }
    if !sym_is(toks, cur, Sym::RBrace) {
        return Err(fail(toks, cur, ParseProblem::UnexpectedToken));
    }
    let e = EnumDef { name: Spanned::new(name, toks[p + 1].span), variants };
    proof {
        lemma_leaves_concat(toks@, p as int, cur as int, cur + 1);
        lemma_leaves_one(toks@, cur as int);
        let ls = leaves(toks@.subrange(p as int, cur + 1));
        if trailing {
            assert(ls =~= h + variants_leaves(e.variants@) + seq![Leaf::Punct(Sym::Comma), Leaf::Punct(Sym::RBrace)]);
        } else {
            assert(ls =~= h + variants_leaves(e.variants@) + seq![Leaf::Punct(Sym::RBrace)]);
        }
    }
    Ok((e, cur + 1))
}

proof fn lemma_record_fields_push(fs: Seq<Field>, f: Field, x: Seq<Leaf>, y: Seq<Leaf>)
    requires
        record_fields_printed(fs, x),
        type_built(f.ty.node),
        y == field_leaves(f) || y == field_leaves(f) + seq![Leaf::Punct(Sym::Comma)],
    ensures
        record_fields_printed(fs.push(f), x + y),
{
    let ls = x + y;
    assert(ls.take(x.len() as int) =~= x);
    assert(ls.skip(x.len() as int) =~= y);
    assert(fs.push(f).drop_last() =~= fs);
    assert(fs.push(f).last() == f);
}

/// How tokens write a type definition: an alias whose type ends at the
/// position, or a record with where each field starts (one entry more, the
/// closing `}`) and where each field's type ends.
pub enum TypeWriting {
    Alias(int),
    Record(Seq<int>, Seq<int>),
}

/// Tokens `p..q` write the type definition `td` as `w` says: `type Name =
/// type`, then `where condition` when it has a refinement (and no `where`
/// when it has none); or `type Name { fields }`, each field `name: type` (see
/// [`param_at`]) and maybe a comma after it.
pub open spec fn typedef_at(ts: Seq<Token>, p: int, q: int, td: TypeDef, w: TypeWriting) -> bool {
    &&& 0 <= p && p + 2 < ts.len()
    &&& ts[p].kind == TokKind::Keyword(Keyword::Type)
    &&& ts[p + 1].kind is Ident && name_at(ts, p + 1) == td.name.node@
    &&& match w {
        TypeWriting::Alias(a) => match td.alias {
            Some(t) => td.fields@.len() == 0 && ts[p + 2].kind == TokKind::Sym(Sym::Assign) && type_at(ts, p + 3, a, t.node)
                && match td.refinement {
                    Some(c) => 0 <= a < ts.len() && ts[a].kind == TokKind::Keyword(Keyword::Where) && expr_at(ts, a + 1, q, c.node),
                    None => !(0 <= a < ts.len() && ts[a].kind == TokKind::Keyword(Keyword::Where)) && q == a,
                },
            None => false,
        },
        TypeWriting::Record(starts, ends) => {
            let fs = td.fields@;
            &&& td.alias is None && td.refinement is None
            &&& ts[p + 2].kind == TokKind::Sym(Sym::LBrace)
            &&& starts.len() == fs.len() + 1 && ends.len() == fs.len() && starts[0] == p + 3
            &&& forall|i: int| #![trigger starts[i]] 0 <= i < fs.len() ==> param_at(ts, starts[i], ends[i], Param { name: fs[i].name, ty: fs[i].ty })
                && starts[i + 1] == (if 0 <= ends[i] < ts.len() && ts[ends[i]].kind == TokKind::Sym(Sym::Comma) {
                    ends[i] + 1
                } else {
                    ends[i]
                })
            &&& 0 <= starts.last() < ts.len() && ts[starts.last()].kind == TokKind::Sym(Sym::RBrace)
            &&& q == starts.last() + 1
        },
    }
}

/// Two type definitions alike, up to spans.
pub open spec fn same_typedef(a: TypeDef, b: TypeDef) -> bool {
    &&& a.name.node@ == b.name.node@
    &&& same_fields(a.fields@, b.fields@)
    &&& same_opt_type(a.alias, b.alias)
    &&& match (a.refinement, b.refinement) {
        (Some(x), Some(y)) => same_shape(x.node, y.node),
        (None, None) => true,
        _ => false,
    }
}

pub open spec fn fields_read_upto(fs2: Seq<Field>, starts: Seq<int>, cur: int, fs: Seq<Field>) -> bool {
    exists|i: int| #![trigger starts[i]] 0 <= i <= fs2.len() && starts[i] == cur && same_fields(fs, fs2.take(i))
}

pub open spec fn fields_index(fs2: Seq<Field>, starts: Seq<int>, cur: int, fs: Seq<Field>) -> int {
    choose|i: int| #![trigger starts[i]] 0 <= i <= fs2.len() && starts[i] == cur && same_fields(fs, fs2.take(i))
}

proof fn lemma_same_fields_push(fs: Seq<Field>, fs2: Seq<Field>, i: int, f: Field)
    requires
        0 <= i < fs2.len(),
        same_fields(fs, fs2.take(i)),
        same_field(f, fs2[i]),
    ensures
        same_fields(fs.push(f), fs2.take(i + 1)),
{
    let a = fs.push(f);
    let b = fs2.take(i + 1);
    assert forall|k: int| #![trigger a[k]] 0 <= k < a.len() implies same_field(a[k], b[k]) by {
        if k < i {
            assert(a[k] == fs[k]);
            assert(b[k] == fs2.take(i)[k]);
        }
    }
}

/// `type Name { fields }` or `type Name = type [where condition]`. When the
/// tokens at `p` write a type definition (see [`typedef_at`]), it is what is
/// read.
#[verifier::rlimit(60)]
fn parse_typedef(toks: &Vec<Token>, p: usize) -> (r: Result<(TypeDef, usize), ParseError>)
    requires
        p < toks@.len(),
        toks@[p as int].kind == TokKind::Keyword(Keyword::Type),
    ensures
        r matches Err(e) ==> e.problem != ParseProblem::BadCharacter,
        r matches Ok((td, q)) ==> p < q <= toks@.len() && typedef_printed(td, leaves(toks@.subrange(p as int, q as int))),
        forall|td2: TypeDef, q2: int, w2: TypeWriting| #[trigger] typedef_at(toks@, p as int, q2, td2, w2)
            ==> (r matches Ok((td, q)) && q == q2 && same_typedef(td, td2)),
{
    let ntoks = toks.len();
    let ghost ts = toks@;
    let name = match ident_at(toks, p + 1) {
        Some(x) => x,
        None => return Err(fail(toks, p + 1, ParseProblem::UnexpectedToken)),
    };
    let name = Spanned::new(name, toks[p + 1].span);
    if sym_is(toks, p + 2, Sym::Assign) {
        let res_t = parse_type(toks, p + 3);
        proof {
            assert forall|td2: TypeDef, q2: int, w2: TypeWriting| #[trigger] typedef_at(ts, p as int, q2, td2, w2)
                implies (res_t matches Ok((t, a)) && a == w2->Alias_0 && same_type(t.node, td2.alias->0.node)) by {
                assert(type_at(ts, p + 3, w2->Alias_0, td2.alias->0.node));
            }
        }
        let (alias, a) = match res_t {
            Ok(x) => x,
            Err(e) => return Err(e),
        };
        proof {
            lemma_leaves_concat(toks@, p as int, p + 1, p + 3);
            lemma_leaves_concat(toks@, p + 1, p + 2, p + 3);
            lemma_leaves_one(toks@, p as int);
            lemma_leaves_one(toks@, p + 1);
            lemma_leaves_one(toks@, p + 2);
            lemma_leaves_concat(toks@, p as int, p + 3, a as int);
        }
        let mut q = a;
        let mut refinement: Option<Spanned<Expr>> = None;
        if kw_is(toks, a, Keyword::Where) {
            let res_c = pratt_parse(toks, a + 1, 0);
            proof {
                assert forall|td2: TypeDef, q2: int, w2: TypeWriting| #[trigger] typedef_at(ts, p as int, q2, td2, w2)
                    implies (res_c matches Ok((c, b)) && b == q2 && same_shape(c.node, td2.refinement->0.node)) by {
                    let d = lemma_expr_at(ts, a + 1, q2, td2.refinement->0.node);
                }
            }
            let (c, b) = match res_c {
                Ok(x) => x,
                Err(e) => return Err(e),
            };
            proof {
                lemma_leaves_concat(toks@, p as int, a as int, b as int);
                lemma_leaves_concat(toks@, a as int, a + 1, b as int);
                lemma_leaves_one(toks@, a as int);
                assert(leaves(toks@.subrange(p as int, b as int)) =~= seq![
                    Leaf::Kw(Keyword::Type),
                    Leaf::Name(name.node@),
                    Leaf::Punct(Sym::Assign),
                ] + type_leaves(alias.node) + (seq![Leaf::Kw(Keyword::Where)] + expr_leaves(c.node)));
            }
            refinement = Some(c);
            q = b;
        } else {
            proof {
                assert(leaves(toks@.subrange(p as int, a as int)) =~= seq![
                    Leaf::Kw(Keyword::Type),
                    Leaf::Name(name.node@),
                    Leaf::Punct(Sym::Assign),
                ] + type_leaves(alias.node) + Seq::<Leaf>::empty());
            }
        }
        let td = TypeDef { name, fields: Vec::new(), alias: Some(alias), refinement };
        proof {
            assert forall|td2: TypeDef, q2: int, w2: TypeWriting| #[trigger] typedef_at(ts, p as int, q2, td2, w2)
                implies q == q2 && same_typedef(td, td2) by {
                assert(same_fields(td.fields@, td2.fields@));
            }
        }
        return Ok((td, q));
    }
    if !sym_is(toks, p + 2, Sym::LBrace) {
        return Err(fail(toks, p + 2, ParseProblem::UnexpectedToken));
    }
    let mut fields: Vec<Field> = Vec::new();
    let mut cur = p + 3;
    proof {
        assert(leaves(toks@.subrange(p + 3, p + 3)) =~= Seq::<Leaf>::empty());
        assert forall|td2: TypeDef, q2: int, w2: TypeWriting| #[trigger] typedef_at(ts, p as int, q2, td2, w2)
            implies fields_read_upto(td2.fields@, w2->Record_0, cur as int, fields@) by {
            assert(td2.fields@.take(0) =~= Seq::<Field>::empty());
            assert(w2->Record_0[0] == cur);
        }
    }
    while cur < ntoks && !sym_is(toks, cur, Sym::RBrace)
        invariant
            ntoks == toks@.len(),
            ts == toks@,
            p + 3 <= cur <= ntoks,
            record_fields_printed(fields@, leaves(toks@.subrange(p + 3, cur as int))),
            forall|td2: TypeDef, q2: int, w2: TypeWriting| #[trigger] typedef_at(ts, p as int, q2, td2, w2)
                ==> w2 is Record && fields_read_upto(td2.fields@, w2->Record_0, cur as int, fields@),
        decreases ntoks - cur,
    {
        let res = parse_param(toks, cur);
        proof {
            assert forall|td2: TypeDef, q2: int, w2: TypeWriting| #[trigger] typedef_at(ts, p as int, q2, td2, w2)
                implies (res matches Ok((pm, q)) && ({
                    let i = fields_index(td2.fields@, w2->Record_0, cur as int, fields@);
                    let fi = td2.fields@[i];
                    &&& 0 <= i < td2.fields@.len()
                    &&& q == w2->Record_1[i]
                    &&& same_param(pm, Param { name: fi.name, ty: fi.ty })
                })) by {
                let starts = w2->Record_0;
                let i = fields_index(td2.fields@, starts, cur as int, fields@);
                assert(starts[i] == starts[i]);
                if i == td2.fields@.len() {
                    assert(false);
                }
                let fi = td2.fields@[i];
                assert(param_at(ts, cur as int, w2->Record_1[i], Param { name: fi.name, ty: fi.ty }));
            }
        }
        let (pm, q) = match res {
            Ok(x) => x,
            Err(e) => return Err(e),
        };
        let f = Field { name: pm.name, ty: pm.ty };
        let comma = sym_is(toks, q, Sym::Comma);
        let end = if comma { q + 1 } else { q };
        proof {
            assert forall|td2: TypeDef, q2: int, w2: TypeWriting| #[trigger] typedef_at(ts, p as int, q2, td2, w2)
                implies fields_read_upto(td2.fields@, w2->Record_0, end as int, fields@.push(f)) by {
                let starts = w2->Record_0;
                let i = fields_index(td2.fields@, starts, cur as int, fields@);
                assert(starts[i] == starts[i]);
                assert(starts[i + 1] == end);
                lemma_same_fields_push(fields@, td2.fields@, i, f);
            }
        }
        proof {
            lemma_leaves_concat(toks@, p + 3, cur as int, end as int);
            lemma_leaves_concat(toks@, cur as int, q as int, end as int);
            if comma {
                lemma_leaves_one(toks@, q as int);
            } else {
                assert(leaves(toks@.subrange(q as int, q as int)) =~= Seq::<Leaf>::empty());
                assert(leaves(toks@.subrange(cur as int, end as int)) =~= field_leaves(f));
            }
            lemma_record_fields_push(fields@, f, leaves(toks@.subrange(p + 3, cur as int)), leaves(toks@.subrange(cur as int, end as int)));
        }
        fields.push(f);
        cur = end;
    }
    proof {
        assert forall|td2: TypeDef, q2: int, w2: TypeWriting| #[trigger] typedef_at(ts, p as int, q2, td2, w2)
            implies cur < ntoks && cur + 1 == q2 && same_fields(fields@, td2.fields@) by {
            let starts = w2->Record_0;
            let i = fields_index(td2.fields@, starts, cur as int, fields@);
            assert(starts[i] == starts[i]);
            if i < td2.fields@.len() {
                let fi = td2.fields@[i];
                assert(param_at(ts, cur as int, w2->Record_1[i], Param { name: fi.name, ty: fi.ty }));
            }
            assert(td2.fields@.take(i) =~= td2.fields@);
        }
    }
    if cur >= ntoks {
        return Err(fail(toks, cur, ParseProblem::UnexpectedEnd));
    }
    let td = TypeDef { name, fields, alias: None, refinement: None };
    proof {
        let ts = toks@;
        let h = seq![Leaf::Kw(Keyword::Type), Leaf::Name(td.name.node@), Leaf::Punct(Sym::LBrace)];
        let mid = leaves(ts.subrange(p + 3, cur as int));
        lemma_leaves_concat(ts, p as int, p + 3, cur + 1);
        lemma_leaves_concat(ts, p + 3, cur as int, cur + 1);
        lemma_leaves_one(ts, p + 2);
        lemma_leaves_one(ts, cur as int);
        lemma_leaves_concat(ts, p as int, p + 1, p + 3);
        lemma_leaves_concat(ts, p + 1, p + 2, p + 3);
        lemma_leaves_one(ts, p as int);
        lemma_leaves_one(ts, p + 1);
        let ls = leaves(ts.subrange(p as int, cur + 1));
        assert(ls =~= h + mid + seq![Leaf::Punct(Sym::RBrace)]);
        assert(ls.take(h.len() as int) =~= h);
        assert(ls.subrange(h.len() as int, ls.len() - 1) =~= mid);
    }
    Ok((td, cur + 1))
}

proof fn lemma_fn_head(
    ts: Seq<Token>,
    p: int,
    s: int,
    a: int,
    b: int,
    is_extern: bool,
    name: String,
    params: Seq<Param>,
    ret: Type,
)
    requires
        0 <= p <= s && s + 2 < a < b <= ts.len(),
        is_extern ==> s == p + 1 && ts[p].kind == TokKind::Keyword(Keyword::Extern),
        !is_extern ==> s == p,
        ts[s].kind == TokKind::Keyword(Keyword::Fn),
        ts[s + 1].kind == TokKind::Ident(name),
        leaves(ts.subrange(s + 2, a)) == params_leaves(params),
        ts[a].kind == TokKind::Sym(Sym::Arrow),
        leaves(ts.subrange(a + 1, b)) == type_leaves(ret),
    ensures
        leaves(ts.subrange(p, b)) == (if is_extern { seq![Leaf::Kw(Keyword::Extern)] } else { Seq::<Leaf>::empty() })
            + seq![Leaf::Kw(Keyword::Fn), Leaf::Name(name@)] + params_leaves(params) + seq![Leaf::Punct(Sym::Arrow)]
            + type_leaves(ret),
{
    lemma_leaves_concat(ts, p, s, b);
    lemma_leaves_concat(ts, s, s + 2, b);
    lemma_leaves_concat(ts, s, s + 1, s + 2);
    lemma_leaves_concat(ts, s + 2, a, b);
    lemma_leaves_concat(ts, a, a + 1, b);
    lemma_leaves_one(ts, s);
    lemma_leaves_one(ts, s + 1);
    lemma_leaves_one(ts, a);
    if is_extern {
        lemma_leaves_one(ts, p);
    } else {
        assert(leaves(ts.subrange(p, p)) =~= Seq::<Leaf>::empty());
    }
    assert(leaves(ts.subrange(p, b)) =~= (if is_extern { seq![Leaf::Kw(Keyword::Extern)] } else { Seq::<Leaf>::empty() })
        + seq![Leaf::Kw(Keyword::Fn), Leaf::Name(name@)] + params_leaves(params) + seq![Leaf::Punct(Sym::Arrow)]
        + type_leaves(ret));
}

/// Tokens `p..q` read as `h`, then a braced part that starts at token `b`.
proof fn lemma_braced_tail(ts: Seq<Token>, p: int, b: int, q: int, h: Seq<Leaf>)
    requires
        0 <= p < b && b + 2 <= q <= ts.len(),
        leaves(ts.subrange(p, b)) == h,
        ts[b].kind == TokKind::Sym(Sym::LBrace),
        ts[q - 1].kind == TokKind::Sym(Sym::RBrace),
    ensures
        ({
            let ls = leaves(ts.subrange(p, q));
            &&& h.len() + 2 <= ls.len()
            &&& ls.take(h.len() as int) == h
            &&& ls[h.len() as int] == Leaf::Punct(Sym::LBrace)
            &&& ls.last() == Leaf::Punct(Sym::RBrace)
            &&& ls.subrange(h.len() as int + 1, ls.len() - 1) == leaves(ts.subrange(b + 1, q - 1))
        }),
{
    let blk = leaves(ts.subrange(b + 1, q - 1));
    lemma_leaves_concat(ts, p, b, q);
    lemma_leaves_concat(ts, b, b + 1, q);
    lemma_leaves_concat(ts, b + 1, q - 1, q);
    lemma_leaves_one(ts, b);
    lemma_leaves_one(ts, q - 1);
    let ls = leaves(ts.subrange(p, q));
    assert(ls =~= h + seq![Leaf::Punct(Sym::LBrace)] + blk + seq![Leaf::Punct(Sym::RBrace)]);
    assert(ls.take(h.len() as int) =~= h);
    assert(ls.subrange(h.len() as int + 1, ls.len() - 1) =~= blk);
}

/// How tokens write a function: where each parameter's type ends, where
/// the `->` stands, where the result type ends, and how its body is written
/// when it has one.
pub struct FnWriting {
    pub param_ends: Seq<int>,
    pub arrow: int,
    pub ret_end: int,
    pub body: Option<BlockWriting>,
}

/// Tokens `p..q` write the function `f` as `w` says: `extern` when it is
/// external, `fn`, its name, its parameter list (see [`params_at`]), `->`,
/// its result type (see [`type_at`]), then its body as a block (see
/// [`block_at`]), or no `{` when it has none.
pub open spec fn fn_at(ts: Seq<Token>, p: int, q: int, f: FnDef, w: FnWriting) -> bool {
    let s = if f.is_extern { p + 1 } else { p };
    &&& 0 <= p && s + 2 < ts.len()
    &&& f.is_extern ==> ts[p].kind == TokKind::Keyword(Keyword::Extern)
    &&& ts[s].kind == TokKind::Keyword(Keyword::Fn)
    &&& ts[s + 1].kind is Ident && name_at(ts, s + 1) == f.name.node@
    &&& params_at(ts, s + 2, w.arrow, f.params@, w.param_ends)
    &&& 0 <= w.arrow < ts.len() && ts[w.arrow].kind == TokKind::Sym(Sym::Arrow)
    &&& type_at(ts, w.arrow + 1, w.ret_end, f.return_type.node)
    &&& match (f.body, w.body) {
        (Some(b), Some(bw)) => block_at(ts, w.ret_end, q, b@, bw),
        (None, None) => q == w.ret_end && !(q < ts.len() && ts[q].kind == TokKind::Sym(Sym::LBrace)),
        _ => false,
    }
}

/// Two functions alike, up to spans.
pub open spec fn same_fn(a: FnDef, b: FnDef) -> bool {
    &&& a.name.node@ == b.name.node@
    &&& same_params(a.params@, b.params@)
    &&& same_type(a.return_type.node, b.return_type.node)
    &&& a.is_extern == b.is_extern
    &&& same_else(a.body, b.body)
}

/// `[extern] fn name(params) -> type`, with a body in braces or none.
fn parse_fn(toks: &Vec<Token>, p: usize) -> (r: Result<(FnDef, usize), ParseError>)
    requires
        p < toks@.len(),
        toks@[p as int].kind == TokKind::Keyword(Keyword::Fn) || toks@[p as int].kind == TokKind::Keyword(Keyword::Extern),
    ensures
        r matches Err(e) ==> e.problem != ParseProblem::BadCharacter,
        r matches Ok((f, q)) ==> p < q <= toks@.len() && fn_printed(f, leaves(toks@.subrange(p as int, q as int))),
        forall|f2: FnDef, q2: int, w2: FnWriting| #[trigger] fn_at(toks@, p as int, q2, f2, w2)
            ==> (r matches Ok((f, q)) && q == q2 && same_fn(f, f2)),
{
    let ntoks = toks.len();
    let ghost ts = toks@;
    let is_extern = kw_is(toks, p, Keyword::Extern);
    let s = if is_extern { p + 1 } else { p };
    proof {
        assert forall|f2: FnDef, q2: int, w2: FnWriting| #[trigger] fn_at(ts, p as int, q2, f2, w2)
            implies f2.is_extern == is_extern by {
        }
    }
    if !kw_is(toks, s, Keyword::Fn) {
        return Err(fail(toks, s, ParseProblem::UnexpectedToken));
    }
    let name = match ident_at(toks, s + 1) {
        Some(x) => x,
        None => return Err(fail(toks, s + 1, ParseProblem::UnexpectedToken)),
    };
    let name = Spanned::new(name, toks[s + 1].span);
    if !sym_is(toks, s + 2, Sym::LParen) {
        return Err(fail(toks, s + 2, ParseProblem::UnexpectedToken));
    }
    let res_ps = parse_params(toks, s + 2);
    proof {
        assert forall|f2: FnDef, q2: int, w2: FnWriting| #[trigger] fn_at(ts, p as int, q2, f2, w2)
            implies (res_ps matches Ok((ps, a)) && a == w2.arrow && same_params(ps@, f2.params@)) by {
            assert(params_at(ts, s + 2, w2.arrow, f2.params@, w2.param_ends));
        }
    }
    let (params, a) = match res_ps {
        Ok(x) => x,
        Err(e) => return Err(e),
    };
    if !sym_is(toks, a, Sym::Arrow) {
        return Err(fail(toks, a, ParseProblem::UnexpectedToken));
    }
    let res_t = parse_type(toks, a + 1);
    proof {
        assert forall|f2: FnDef, q2: int, w2: FnWriting| #[trigger] fn_at(ts, p as int, q2, f2, w2)
            implies (res_t matches Ok((t, b)) && b == w2.ret_end && same_type(t.node, f2.return_type.node)) by {
            assert(type_at(ts, a + 1, w2.ret_end, f2.return_type.node));
        }
    }
    let (return_type, b) = match res_t {
        Ok(x) => x,
        Err(e) => return Err(e),
    };
    let ghost h = (if is_extern { seq![Leaf::Kw(Keyword::Extern)] } else { Seq::<Leaf>::empty() })
        + seq![Leaf::Kw(Keyword::Fn), Leaf::Name(name.node@)] + params_leaves(params@) + seq![Leaf::Punct(Sym::Arrow)]
        + type_leaves(return_type.node);
    proof {
        lemma_fn_head(toks@, p as int, s as int, a as int, b as int, is_extern, name.node, params@, return_type.node);
    }
    if sym_is(toks, b, Sym::LBrace) {
        let res_b = parse_block(toks, b);
        proof {
            assert forall|f2: FnDef, q2: int, w2: FnWriting| #[trigger] fn_at(ts, p as int, q2, f2, w2)
                implies (res_b matches Ok((stmts, q)) && q == q2 && same_stmts(stmts@, f2.body->0@)) by {
                assert(block_at(ts, b as int, q2, f2.body->0@, w2.body->0));
            }
        }
        let (stmts, q) = match res_b {
            Ok(x) => x,
            Err(e) => return Err(e),
        };
        let f = FnDef { name, params, return_type, body: Some(stmts), is_extern, span: span_of(toks, p, q) };
        proof {
            lemma_braced_tail(toks@, p as int, b as int, q as int, h);
            assert forall|f2: FnDef, q2: int, w2: FnWriting| #[trigger] fn_at(ts, p as int, q2, f2, w2)
                implies same_fn(f, f2) by {
            }
        }
        Ok((f, q))
    } else {
        let f = FnDef { name, params, return_type, body: None, is_extern, span: span_of(toks, p, b) };
        proof {
            assert forall|f2: FnDef, q2: int, w2: FnWriting| #[trigger] fn_at(ts, p as int, q2, f2, w2)
                implies b == q2 && same_fn(f, f2) by {
            }
            let ls = leaves(toks@.subrange(p as int, b as int));
            assert(ls.take(h.len() as int) =~= h);
        }
        Ok((f, b))
    }
}

/// How tokens write a top-level item.
pub enum ItemWriting {
    Import,
    /// An enum, with a comma after its last variant when true.
    Enum(bool),
    Type(TypeWriting),
    /// A constant, its type ending at the position.
    Const(int),
    State(StateWriting),
    Function(FnWriting),
}

/// Tokens `p..q` write the item `it` as `w` says: an import (see
/// [`import_at`]), an enum (see [`enum_at`]), a type definition (see
/// [`typedef_at`]), a constant (see [`const_at`]), a state (see
/// [`state_at`]) or a function (see [`fn_at`]).
pub open spec fn item_at(ts: Seq<Token>, p: int, q: int, it: Item, w: ItemWriting) -> bool {
    match w {
        ItemWriting::Import => match it {
            Item::Import(im) => import_at(ts, p, q, im),
            _ => false,
        },
        ItemWriting::Enum(t) => match it {
            Item::EnumDef(e) => enum_at(ts, p, q, e, t),
            _ => false,
        },
        ItemWriting::Type(tw) => match it {
            Item::TypeDef(td) => typedef_at(ts, p, q, td, tw),
            _ => false,
        },
        ItemWriting::Const(k) => match it {
            Item::ConstDef(c) => const_at(ts, p, q, c, k),
            _ => false,
        },
        ItemWriting::State(sw) => match it {
            Item::State(sd) => state_at(ts, p, q, sd, sw),
            _ => false,
        },
        ItemWriting::Function(fw) => match it {
            Item::Function(f) => fn_at(ts, p, q, f, fw),
            _ => false,
        },
    }
}

/// Two items alike, up to spans.
pub open spec fn same_item(a: Item, b: Item) -> bool {
    match a {
        Item::Import(x) => b matches Item::Import(y) && same_import(x, y),
        Item::EnumDef(x) => b matches Item::EnumDef(y) && same_enum(x, y),
        Item::TypeDef(x) => b matches Item::TypeDef(y) && same_typedef(x, y),
        Item::ConstDef(x) => b matches Item::ConstDef(y) && same_const(x, y),
        Item::State(x) => b matches Item::State(y) && same_state(x, y),
        Item::Function(x) => b matches Item::Function(y) && same_fn(x, y),
    }
}

/// What a written item starts with.
proof fn lemma_item_start(ts: Seq<Token>, p: int, q: int, it: Item, w: ItemWriting)
    requires
        item_at(ts, p, q, it, w),
    ensures
        0 <= p < ts.len(),
        match w {
            ItemWriting::Import => ts[p].kind == TokKind::Keyword(Keyword::Import),
            ItemWriting::Enum(_) => ts[p].kind == TokKind::Keyword(Keyword::Enum),
            ItemWriting::Type(_) => ts[p].kind == TokKind::Keyword(Keyword::Type),
            ItemWriting::Const(_) => ts[p].kind == TokKind::Keyword(Keyword::Const),
            ItemWriting::State(_) => ts[p].kind == TokKind::Keyword(Keyword::State),
            ItemWriting::Function(_) => ts[p].kind == TokKind::Keyword(Keyword::Fn)
                || ts[p].kind == TokKind::Keyword(Keyword::Extern),
        },
{
}

/// One top-level item: an import, an enum, a type, a constant, a state or a
/// function. When the tokens at `p` write an item (see [`item_at`]), it is
/// what is read, up to spans (see [`same_item`]).
pub fn parse_item(toks: &Vec<Token>, p: usize) -> (r: Result<(Spanned<Item>, usize), ParseError>)
    requires
        p < toks@.len(),
    ensures
        r matches Err(e) ==> e.problem != ParseProblem::BadCharacter,
        r matches Ok((it, q)) ==> p < q <= toks@.len() && item_printed(it.node, leaves(toks@.subrange(p as int, q as int))),
        forall|it2: Item, q2: int, w2: ItemWriting| #[trigger] item_at(toks@, p as int, q2, it2, w2)
            ==> (r matches Ok((it, q)) && q == q2 && same_item(it.node, it2)),
{
    let ntoks = toks.len();
    let ghost ts = toks@;
    proof {
        assert forall|it2: Item, q2: int, w2: ItemWriting| #[trigger] item_at(ts, p as int, q2, it2, w2)
            implies match w2 {
                ItemWriting::Import => ts[p as int].kind == TokKind::Keyword(Keyword::Import),
                ItemWriting::Enum(_) => ts[p as int].kind == TokKind::Keyword(Keyword::Enum),
                ItemWriting::Type(_) => ts[p as int].kind == TokKind::Keyword(Keyword::Type),
                ItemWriting::Const(_) => ts[p as int].kind == TokKind::Keyword(Keyword::Const),
                ItemWriting::State(_) => ts[p as int].kind == TokKind::Keyword(Keyword::State),
                ItemWriting::Function(_) => ts[p as int].kind == TokKind::Keyword(Keyword::Fn)
                    || ts[p as int].kind == TokKind::Keyword(Keyword::Extern),
            } by {
            lemma_item_start(ts, p as int, q2, it2, w2);
        }
    }
    let (item, q) = match &toks[p].kind {
        TokKind::Keyword(Keyword::Import) => {
            let res = parse_import(toks, p);
            proof {
                assert forall|it2: Item, q2: int, w2: ItemWriting| #[trigger] item_at(ts, p as int, q2, it2, w2)
                    implies (res matches Ok((x, q)) && q == q2 && same_item(Item::Import(x), it2)) by {
                    assert(import_at(ts, p as int, q2, it2->Import_0));
                }
            }
            match res {
                Ok((im, q)) => (Item::Import(im), q),
                Err(e) => return Err(e),
            }
        },
        TokKind::Keyword(Keyword::Enum) => {
            let res = parse_enum(toks, p);
            proof {
                assert forall|it2: Item, q2: int, w2: ItemWriting| #[trigger] item_at(ts, p as int, q2, it2, w2)
                    implies (res matches Ok((x, q)) && q == q2 && same_item(Item::EnumDef(x), it2)) by {
                    assert(enum_at(ts, p as int, q2, it2->EnumDef_0, w2->Enum_0));
                }
            }
            match res {
                Ok((e, q)) => (Item::EnumDef(e), q),
                Err(e) => return Err(e),
            }
        },
        TokKind::Keyword(Keyword::Type) => {
            let res = parse_typedef(toks, p);
            proof {
                assert forall|it2: Item, q2: int, w2: ItemWriting| #[trigger] item_at(ts, p as int, q2, it2, w2)
                    implies (res matches Ok((x, q)) && q == q2 && same_item(Item::TypeDef(x), it2)) by {
                    assert(typedef_at(ts, p as int, q2, it2->TypeDef_0, w2->Type_0));
                }
            }
            match res {
                Ok((td, q)) => (Item::TypeDef(td), q),
                Err(e) => return Err(e),
            }
        },
        TokKind::Keyword(Keyword::Const) => {
            let res = parse_const_def(toks, p);
            proof {
                assert forall|it2: Item, q2: int, w2: ItemWriting| #[trigger] item_at(ts, p as int, q2, it2, w2)
                    implies (res matches Ok((x, q)) && q == q2 && same_item(Item::ConstDef(x), it2)) by {
                    assert(const_at(ts, p as int, q2, it2->ConstDef_0, w2->Const_0));
                }
            }
            match res {
                Ok((c, q)) => (Item::ConstDef(c), q),
                Err(e) => return Err(e),
            }
        },
        TokKind::Keyword(Keyword::State) => {
            let res = parse_state(toks, p);
            proof {
                assert forall|it2: Item, q2: int, w2: ItemWriting| #[trigger] item_at(ts, p as int, q2, it2, w2)
                    implies (res matches Ok((x, q)) && q == q2 && same_item(Item::State(x), it2)) by {
                    assert(state_at(ts, p as int, q2, it2->State_0, w2->State_0));
                }
            }
            match res {
                Ok((sd, q)) => (Item::State(sd), q),
                Err(e) => return Err(e),
            }
        },
        TokKind::Keyword(Keyword::Fn) | TokKind::Keyword(Keyword::Extern) => {
            let res = parse_fn(toks, p);
            proof {
                assert forall|it2: Item, q2: int, w2: ItemWriting| #[trigger] item_at(ts, p as int, q2, it2, w2)
                    implies (res matches Ok((x, q)) && q == q2 && same_item(Item::Function(x), it2)) by {
                    assert(fn_at(ts, p as int, q2, it2->Function_0, w2->Function_0));
                }
            }
            match res {
                Ok((f, q)) => (Item::Function(f), q),
                Err(e) => return Err(e),
            }
        },
        _ => return Err(fail(toks, p, ParseProblem::UnexpectedToken)),
    };
    let sp = span_of(toks, p, q);
    Ok((Spanned::new(item, sp), q))
}

proof fn lemma_items_push(items: Seq<Spanned<Item>>, it: Spanned<Item>, x: Seq<Leaf>, y: Seq<Leaf>)
    requires
        items_printed(items, x),
        item_printed(it.node, y),
    ensures
        items_printed(items.push(it), x + y),
{
    let ls = x + y;
    assert(ls.take(x.len() as int) =~= x);
    assert(ls.skip(x.len() as int) =~= y);
    assert(items.push(it).drop_last() =~= items);
    assert(items.push(it).last() == it);
}

/// All the tokens write the items `items` as `ws` says: item `i` from
/// `starts[i]` to `starts[i + 1]` (see [`item_at`]), the first at the first
/// token and the last ending at the last.
pub open spec fn program_at(ts: Seq<Token>, items: Seq<Spanned<Item>>, starts: Seq<int>, ws: Seq<ItemWriting>) -> bool {
    &&& starts.len() == items.len() + 1 && ws.len() == items.len()
    &&& starts[0] == 0
    &&& starts.last() == ts.len()
    &&& forall|i: int| #![trigger starts[i]] 0 <= i < items.len() ==> item_at(ts, starts[i], starts[i + 1], items[i].node, ws[i])
}

/// Two runs of items alike, one by one (see [`same_item`]).
pub open spec fn same_items(a: Seq<Spanned<Item>>, b: Seq<Spanned<Item>>) -> bool {
    &&& a.len() == b.len()
    &&& forall|i: int| #![trigger a[i]] 0 <= i < a.len() ==> same_item(a[i].node, b[i].node)
}

pub open spec fn items_read_upto(i2: Seq<Spanned<Item>>, starts: Seq<int>, cur: int, items: Seq<Spanned<Item>>) -> bool {
    exists|i: int| #![trigger starts[i]] 0 <= i <= i2.len() && starts[i] == cur && same_items(items, i2.take(i))
}

pub open spec fn items_index(i2: Seq<Spanned<Item>>, starts: Seq<int>, cur: int, items: Seq<Spanned<Item>>) -> int {
    choose|i: int| #![trigger starts[i]] 0 <= i <= i2.len() && starts[i] == cur && same_items(items, i2.take(i))
}

proof fn lemma_same_items_push(items: Seq<Spanned<Item>>, i2: Seq<Spanned<Item>>, i: int, it: Spanned<Item>)
    requires
        0 <= i < i2.len(),
        same_items(items, i2.take(i)),
        same_item(it.node, i2[i].node),
    ensures
        same_items(items.push(it), i2.take(i + 1)),
{
    let a = items.push(it);
    let b = i2.take(i + 1);
    assert forall|k: int| #![trigger a[k]] 0 <= k < a.len() implies same_item(a[k].node, b[k].node) by {
        if k < i {
            assert(a[k] == items[k]);
            assert(b[k] == i2.take(i)[k]);
        }
    }
}

/// Inside a written program, a position before the end up to which items
/// were read is where the next item starts.
proof fn lemma_items_next(
    ts: Seq<Token>,
    i2: Seq<Spanned<Item>>,
    s2: Seq<int>,
    w2: Seq<ItemWriting>,
    cur: int,
    items: Seq<Spanned<Item>>,
) -> (i: int)
    requires
        program_at(ts, i2, s2, w2),
        items_read_upto(i2, s2, cur, items),
        0 <= cur < ts.len(),
    ensures
        0 <= i < i2.len(),
        s2[i] == cur,
        same_items(items, i2.take(i)),
        item_at(ts, cur, s2[i + 1], i2[i].node, w2[i]),
{
    let i = items_index(i2, s2, cur, items);
    assert(s2[i] == s2[i]);
    assert(i < i2.len());
    assert(s2[i + 1] == s2[i + 1]);
    i
}

/// All the tokens as a sequence of items. When the tokens write a program
/// (see [`program_at`]), its items are what is read, up to spans (see
/// [`same_items`]).
pub fn parse_items(toks: &Vec<Token>) -> (r: Result<Vec<Spanned<Item>>, ParseError>)
    ensures
        r matches Err(e) ==> e.problem != ParseProblem::BadCharacter,
        r matches Ok(items) ==> items_printed(items@, leaves(toks@)),
        forall|i2: Seq<Spanned<Item>>, s2: Seq<int>, w2: Seq<ItemWriting>| #[trigger] program_at(toks@, i2, s2, w2)
            ==> (r matches Ok(items) && same_items(items@, i2)),
{
    let ntoks = toks.len();
    let ghost ts = toks@;
    let mut items: Vec<Spanned<Item>> = Vec::new();
    let mut cur: usize = 0;
    proof {
        assert(leaves(toks@.subrange(0, 0)) =~= Seq::<Leaf>::empty());
        assert forall|i2: Seq<Spanned<Item>>, s2: Seq<int>, w2: Seq<ItemWriting>| #[trigger] program_at(ts, i2, s2, w2)
            implies items_read_upto(i2, s2, cur as int, items@) by {
            assert(i2.take(0) =~= Seq::<Spanned<Item>>::empty());
            assert(s2[0] == cur);
        }
    }
    while cur < ntoks
        invariant
            ntoks == toks@.len(),
            ts == toks@,
            cur <= ntoks,
            items_printed(items@, leaves(toks@.subrange(0, cur as int))),
            forall|i2: Seq<Spanned<Item>>, s2: Seq<int>, w2: Seq<ItemWriting>| #[trigger] program_at(ts, i2, s2, w2)
                ==> items_read_upto(i2, s2, cur as int, items@),
        decreases ntoks - cur,
    {
        let res = parse_item(toks, cur);
        proof {
            assert forall|i2: Seq<Spanned<Item>>, s2: Seq<int>, w2: Seq<ItemWriting>| #[trigger] program_at(ts, i2, s2, w2)
                implies (res matches Ok((it, q)) && items_read_upto(i2, s2, q as int, items@.push(it))) by {
                let i = lemma_items_next(ts, i2, s2, w2, cur as int, items@);
                let (it, q) = res->Ok_0;
                lemma_same_items_push(items@, i2, i, it);
            }
        }
        let (it, q) = match res {
            Ok(x) => x,
            Err(e) => return Err(e),
        };
        proof {
            lemma_leaves_concat(toks@, 0, cur as int, q as int);
            lemma_items_push(items@, it, leaves(toks@.subrange(0, cur as int)), leaves(toks@.subrange(cur as int, q as int)));
        }
        items.push(it);
        cur = q;
    }
    proof {
        assert(toks@.subrange(0, ntoks as int) =~= toks@);
        assert forall|i2: Seq<Spanned<Item>>, s2: Seq<int>, w2: Seq<ItemWriting>| #[trigger] program_at(ts, i2, s2, w2)
            implies same_items(items@, i2) by {
            let i = items_index(i2, s2, cur as int, items@);
            assert(s2[i] == s2[i]);
            if i < i2.len() {
                assert(s2[i + 1] == s2[i + 1]);
                lemma_item_start(ts, cur as int, s2[i + 1], i2[i].node, w2[i]);
            }
            assert(i2.take(i) =~= i2);
        }
    }
    Ok(items)
}

/// The program the tokens read as: its items (see [`items_printed`]), with
/// the text they came from. When the tokens write a program (see
/// [`program_at`]), its items are what is read, up to spans.
pub fn build_program(toks: &Vec<Token>, source: &str) -> (r: Result<Program, ParseError>)
    ensures
        r matches Err(e) ==> e.problem != ParseProblem::BadCharacter,
        r matches Ok(prog) ==> prog.source@ == source@ && items_printed(prog.items@, leaves(toks@)),
        forall|i2: Seq<Spanned<Item>>, s2: Seq<int>, w2: Seq<ItemWriting>| #[trigger] program_at(toks@, i2, s2, w2)
            ==> (r matches Ok(prog) && same_items(prog.items@, i2)),
{
    let items = match parse_items(toks) {
        Ok(x) => x,
        Err(e) => return Err(e),
    };
    Ok(Program { items, source: String::from_str(source) })
}

/// Reads a program: its text is split into tokens, each the longest that
/// starts where it does (see [`lexed`], [`longest_tokens`]; there is one such
/// reading, see [`crate::lexer::law_one_reading_as_tokens`]), and the tokens
/// read as a sequence of items (see [`items_printed`]). The error is
/// `BadCharacter` exactly when the text has no such reading: at a character
/// where, after the tokens before it, no token starts; any other error
/// comes from tokens that do not read as a program (see [`program_at`]);
/// a program they do read as is what is read, up to spans.
pub fn parse_source(source: &str) -> (r: Result<Program, ParseError>)
    ensures
        r matches Ok(prog) ==> prog.source@ == source@ && exists|toks: Seq<Token>|
            lexed(source@, toks) && longest_tokens(source@, toks) && #[trigger] items_printed(prog.items@, leaves(toks))
            && forall|i2: Seq<Spanned<Item>>, s2: Seq<int>, w2: Seq<ItemWriting>| #[trigger] program_at(toks, i2, s2, w2)
                ==> same_items(prog.items@, i2),
        r matches Err(e) ==> (e.problem != ParseProblem::BadCharacter ==> exists|toks: Seq<Token>|
            #[trigger] lexed(source@, toks) && longest_tokens(source@, toks)
            && forall|i2: Seq<Spanned<Item>>, s2: Seq<int>, w2: Seq<ItemWriting>| !#[trigger] program_at(toks, i2, s2, w2)),
        r matches Err(e) ==> (e.problem == ParseProblem::BadCharacter ==> e.pos < source@.len()
            && clean_start(source@, e.pos as int) && no_token_at(source@, e.pos as int)),
        r matches Err(e) ==> (e.problem == ParseProblem::BadCharacter <==> !exists|toks: Seq<Token>|
            #[trigger] lexed(source@, toks) && longest_tokens(source@, toks)),
{
    let toks = match lex(source) {
        Ok(t) => t,
        Err(e) => {
            proof {
                let t0 = choose|toks: Seq<Token>| #[trigger] lexed_upto(source@, toks, e.pos as int) && longest_tokens(source@, toks);
                assert forall|t: Seq<Token>| !(#[trigger] lexed(source@, t) && longest_tokens(source@, t)) by {
                    law_no_reading_past_a_bad_character(source@, t0, e.pos as int, t);
                }
            }
            return Err(ParseError { pos: e.pos, problem: ParseProblem::BadCharacter });
        },
    };
    let prog = match build_program(&toks, source) {
        Ok(x) => x,
        Err(e) => {
            proof {
                assert(lexed(source@, toks@) && longest_tokens(source@, toks@));
                assert forall|i2: Seq<Spanned<Item>>, s2: Seq<int>, w2: Seq<ItemWriting>| !#[trigger] program_at(toks@, i2, s2, w2) by {
                }
            }
            return Err(e);
        },
    };
    proof {
        assert(lexed(source@, toks@) && longest_tokens(source@, toks@) && items_printed(prog.items@, leaves(toks@)));
    }
    Ok(prog)
}

} // verus!
