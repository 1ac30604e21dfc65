//! Reading transitions: their parameters, conditions, events and
//! statements, and the grammar they are read by.
use vstd::prelude::*;
use crate::ast::{Emit, Expr, Param, Spanned, Statement, Transition};
use crate::lexer::{Keyword, Sym, TokKind, Token};
use crate::parser::{
    complete_writing, same_shapes, Deriv, name_at, same_type, type_at, same_shape, expr_at, lemma_expr_at, lemma_writes_bounds, lemma_first_token,
    Clause, Leaf, ParseError, ParseProblem, body_of, clause_printed, clauses_give, clauses_printed, emit_leaves, emits_of, exprs_leaves, fail, ident_at, kw_is, leaves, lemma_exprs_push, lemma_leaves_concat, lemma_leaves_one, param_leaves, params_built, params_leaves, parse_call, parse_type, post_of, pratt_parse, pre_of, span_of, sym_is, transition_printed, type_built,
};
use crate::statements::{lemma_rising, lemma_stmt_bounds, parse_statement, starts_stmt, stmt_at, same_stmt, same_stmts, StmtWriting};

verus! {

/// Two lists of expressions alike, one by one (see [`same_shape`]).
pub open spec fn same_exprs(a: Seq<Spanned<Expr>>, b: Seq<Spanned<Expr>>) -> bool {
    &&& a.len() == b.len()
    &&& forall|i: int| #![trigger a[i]] 0 <= i < a.len() ==> same_shape(a[i].node, b[i].node)
}

/// Tokens `o..q` write `{ es }`: a `{` at `o`, the expressions one after
/// another, expression `i` from `starts[i]` to `starts[i + 1]`, each written
/// completely (see [`expr_at`]), and a `}` at `q - 1`.
pub open spec fn exprs_block_at(ts: Seq<Token>, o: int, q: int, es: Seq<Spanned<Expr>>, starts: Seq<int>) -> bool {
    &&& 0 <= o < ts.len() && ts[o].kind == TokKind::Sym(Sym::LBrace)
    &&& starts.len() == es.len() + 1
    &&& starts[0] == o + 1
    &&& starts.last() == q - 1
    &&& 0 <= q - 1 < ts.len() && ts[q - 1].kind == TokKind::Sym(Sym::RBrace)
    &&& forall|i: int| #![trigger starts[i]] 0 <= i < es.len() ==> expr_at(ts, starts[i], starts[i + 1], es[i].node)
}

pub open spec fn exprs_read_upto(es2: Seq<Spanned<Expr>>, starts: Seq<int>, cur: int, es: Seq<Spanned<Expr>>) -> bool {
    exists|i: int| #![trigger starts[i]] 0 <= i <= es2.len() && starts[i] == cur && same_exprs(es, es2.take(i))
}

pub open spec fn exprs_index(es2: Seq<Spanned<Expr>>, starts: Seq<int>, cur: int, es: Seq<Spanned<Expr>>) -> int {
    choose|i: int| #![trigger starts[i]] 0 <= i <= es2.len() && starts[i] == cur && same_exprs(es, es2.take(i))
}

proof fn lemma_same_exprs_push(es: Seq<Spanned<Expr>>, es2: Seq<Spanned<Expr>>, i: int, e: Spanned<Expr>)
    requires
        0 <= i < es2.len(),
        same_exprs(es, es2.take(i)),
        same_shape(e.node, es2[i].node),
    ensures
        same_exprs(es.push(e), es2.take(i + 1)),
{
    let a = es.push(e);
    let b = es2.take(i + 1);
    assert forall|k: int| #![trigger a[k]] 0 <= k < a.len() implies same_shape(a[k].node, b[k].node) by {
        if k < i {
            assert(a[k] == es[k]);
            assert(b[k] == es2.take(i)[k]);
        }
    }
}

/// An expression written completely starts with no `}`.
proof fn lemma_expr_start(ts: Seq<Token>, a: int, b: int, e: Expr)
    requires
        expr_at(ts, a, b, e),
    ensures
        0 <= a < b <= ts.len(),
        ts[a].kind != TokKind::Sym(Sym::RBrace),
{
    let d = lemma_expr_at(ts, a, b, e);
    lemma_writes_bounds(ts, a, b, e, 0, d);
    lemma_first_token(ts, a, b, e, 0, d);
}

/// `{ expr ... }`: expressions one after another, up to the closing brace.
/// When the tokens at `p` write such a block (see [`exprs_block_at`]), its
/// expressions are what is read.
pub(crate) fn parse_expr_block(toks: &Vec<Token>, p: usize) -> (r: Result<(Vec<Spanned<Expr>>, usize), ParseError>)
    requires
        p < toks@.len(),
        toks@[p as int].kind == TokKind::Sym(Sym::LBrace),
    ensures
        r matches Err(e) ==> e.problem != ParseProblem::BadCharacter,
        r matches Ok((es, q)) ==> p + 2 <= q <= toks@.len() && toks@[q - 1].kind == TokKind::Sym(Sym::RBrace)
            && exprs_leaves(es@) == leaves(toks@.subrange(p + 1, q - 1)),
        forall|es2: Seq<Spanned<Expr>>, q2: int, st2: Seq<int>| #[trigger] exprs_block_at(toks@, p as int, q2, es2, st2)
            ==> (r matches Ok((es, q)) && q == q2 && same_exprs(es@, es2)),
{
    let ntoks = toks.len();
    let ghost ts = toks@;
    let mut es: Vec<Spanned<Expr>> = Vec::new();
    let mut cur = p + 1;
    proof {
        assert(leaves(toks@.subrange(p + 1, p + 1)) =~= Seq::<Leaf>::empty());
        assert forall|es2: Seq<Spanned<Expr>>, q2: int, st2: Seq<int>| #[trigger] exprs_block_at(ts, p as int, q2, es2, st2)
            implies exprs_read_upto(es2, st2, cur as int, es@) by {
            assert(es2.take(0) =~= Seq::<Spanned<Expr>>::empty());
            assert(st2[0] == cur);
        }
    }
    while cur < ntoks && !sym_is(toks, cur, Sym::RBrace)
        invariant
            ntoks == toks@.len(),
            ts == toks@,
            p < cur <= ntoks,
            exprs_leaves(es@) == leaves(toks@.subrange(p + 1, cur as int)),
            forall|es2: Seq<Spanned<Expr>>, q2: int, st2: Seq<int>| #[trigger] exprs_block_at(ts, p as int, q2, es2, st2)
                ==> exprs_read_upto(es2, st2, cur as int, es@),
        decreases ntoks - cur,
    {
        let res = pratt_parse(toks, cur, 0);
        proof {
            assert forall|es2: Seq<Spanned<Expr>>, q2: int, st2: Seq<int>| #[trigger] exprs_block_at(ts, p as int, q2, es2, st2)
                implies (res matches Ok((e, q)) && exprs_read_upto(es2, st2, q as int, es@.push(e))) by {
                let i = exprs_index(es2, st2, cur as int, es@);
                assert(st2[i] == st2[i]);
                if i == es2.len() {
                    assert(false);
                }
                assert(st2[i + 1] == st2[i + 1]);
                assert(expr_at(ts, cur as int, st2[i + 1], es2[i].node));
                let d = lemma_expr_at(ts, cur as int, st2[i + 1], es2[i].node);
                let (e, q) = res->Ok_0;
                lemma_same_exprs_push(es@, es2, i, e);
            }
        }
        let (e, q) = match res {
            Ok(x) => x,
            Err(err) => return Err(err),
        };
        proof {
            lemma_leaves_concat(toks@, p + 1, cur as int, q as int);
            lemma_exprs_push(es@, e);
        }
        es.push(e);
        cur = q;
    }
    proof {
        assert forall|es2: Seq<Spanned<Expr>>, q2: int, st2: Seq<int>| #[trigger] exprs_block_at(ts, p as int, q2, es2, st2)
            implies cur < ntoks && cur + 1 == q2 && same_exprs(es@, es2) by {
            let i = exprs_index(es2, st2, cur as int, es@);
            assert(st2[i] == st2[i]);
            if i < es2.len() {
                assert(st2[i + 1] == st2[i + 1]);
                lemma_expr_start(ts, cur as int, st2[i + 1], es2[i].node);
            }
            assert(es2.take(i) =~= es2);
        }
    }
    if cur >= ntoks {
        return Err(fail(toks, cur, ParseProblem::UnexpectedEnd));
    }
    Ok((es, cur + 1))
}

/// Tokens `s..e` write the parameter `pm`: its name, `:` and its type (see
/// [`type_at`]).
pub open spec fn param_at(ts: Seq<Token>, s: int, e: int, pm: Param) -> bool {
    &&& 0 <= s && s + 1 < ts.len()
    &&& ts[s].kind is Ident && name_at(ts, s) == pm.name.node@
    &&& ts[s + 1].kind == TokKind::Sym(Sym::Colon)
    &&& type_at(ts, s + 2, e, pm.ty.node)
}

/// Two parameters alike: the same name and types alike (see [`same_type`]).
pub open spec fn same_param(a: Param, b: Param) -> bool {
    a.name.node@ == b.name.node@ && same_type(a.ty.node, b.ty.node)
}

pub open spec fn same_params(a: Seq<Param>, b: Seq<Param>) -> bool {
    &&& a.len() == b.len()
    &&& forall|i: int| #![trigger a[i]] 0 <= i < a.len() ==> same_param(a[i], b[i])
}

/// Where parameter `i` of a list that opens at `o` starts, each parameter's
/// type ending at `ends`: after the `(`, or after the comma that ends the
/// parameter before.
pub open spec fn param_start(o: int, ends: Seq<int>, i: int) -> int {
    if i == 0 {
        o + 1
    } else {
        ends[i - 1] + 1
    }
}

/// Tokens `o..q` write the parameter list `( ps )`, parameter `i` ending at
/// `ends[i]` (see [`param_at`]), with a comma after each but the last and
/// `)` after the last; `()` when there are none.
pub open spec fn params_at(ts: Seq<Token>, o: int, q: int, ps: Seq<Param>, ends: Seq<int>) -> bool {
    &&& 0 <= o < ts.len() && ts[o].kind == TokKind::Sym(Sym::LParen)
    &&& ends.len() == ps.len()
    &&& if ps.len() == 0 {
        o + 1 < ts.len() && ts[o + 1].kind == TokKind::Sym(Sym::RParen) && q == o + 2
    } else {
        &&& forall|i: int| #![trigger ends[i]] 0 <= i < ps.len() ==> param_at(ts, param_start(o, ends, i), ends[i], ps[i])
            && 0 <= ends[i] < ts.len() && ts[ends[i]].kind == TokKind::Sym(
            if i + 1 < ps.len() {
                Sym::Comma
            } else {
                Sym::RParen
            },
        )
        &&& q == ends[ps.len() - 1] + 1
    }
}

/// `name: type`. When the tokens at `p` write a parameter (see
/// [`param_at`]), it is what is read.
pub(crate) fn parse_param(toks: &Vec<Token>, p: usize) -> (r: Result<(Param, usize), ParseError>)
    requires
        p <= toks@.len(),
    ensures
        r matches Err(e) ==> e.problem != ParseProblem::BadCharacter,
        r matches Ok((pm, q)) ==> p < q <= toks@.len() && leaves(toks@.subrange(p as int, q as int)) == param_leaves(pm)
            && type_built(pm.ty.node),
        forall|pm2: Param, q2: int| #[trigger] param_at(toks@, p as int, q2, pm2)
            ==> (r matches Ok((pm, q)) && q == q2 && same_param(pm, pm2)),
{
    let ntoks = toks.len();
    let name = match ident_at(toks, p) {
        Some(x) => x,
        None => return Err(fail(toks, p, ParseProblem::UnexpectedToken)),
    };
    if !sym_is(toks, p + 1, Sym::Colon) {
        return Err(fail(toks, p + 1, ParseProblem::UnexpectedToken));
    }
    let res = parse_type(toks, p + 2);
    proof {
        assert forall|pm2: Param, q2: int| #[trigger] param_at(toks@, p as int, q2, pm2)
            implies (res matches Ok((t, q)) && q == q2 && same_type(t.node, pm2.ty.node)) by {
            assert(type_at(toks@, p + 2, q2, pm2.ty.node));
        }
    }
    let (ty, q) = match res {
        Ok(x) => x,
        Err(e) => return Err(e),
    };
    let pm = Param { name: Spanned::new(name, toks[p].span), ty };
    proof {
        lemma_leaves_concat(toks@, p as int, p + 2, q as int);
        lemma_leaves_concat(toks@, p as int, p + 1, p + 2);
        lemma_leaves_one(toks@, p as int);
        lemma_leaves_one(toks@, p + 1);
        assert(leaves(toks@.subrange(p as int, q as int)) =~= param_leaves(pm));
    }
    Ok((pm, q))
}

/// The parameters read up to `q` against a writing of the list: `q` is
/// where parameter `k - 1` ends, and `ps` is alike the first `k`.
pub open spec fn params_read_upto(ps2: Seq<Param>, ends2: Seq<int>, q: int, ps: Seq<Param>) -> bool {
    exists|k: int| #![trigger ends2[k - 1]] 1 <= k <= ps2.len() && ends2[k - 1] == q && same_params(ps, ps2.take(k))
}

pub open spec fn params_index(ps2: Seq<Param>, ends2: Seq<int>, q: int, ps: Seq<Param>) -> int {
    choose|k: int| #![trigger ends2[k - 1]] 1 <= k <= ps2.len() && ends2[k - 1] == q && same_params(ps, ps2.take(k))
}

proof fn lemma_same_params_push(ps: Seq<Param>, ps2: Seq<Param>, k: int, pm: Param)
    requires
        0 <= k < ps2.len(),
        same_params(ps, ps2.take(k)),
        same_param(pm, ps2[k]),
    ensures
        same_params(ps.push(pm), ps2.take(k + 1)),
{
    let a = ps.push(pm);
    let b = ps2.take(k + 1);
    assert forall|i: int| #![trigger a[i]] 0 <= i < a.len() implies same_param(a[i], b[i]) by {
        if i < k {
            assert(a[i] == ps[i]);
            assert(b[i] == ps2.take(k)[i]);
        }
    }
}

/// `( name: type, ... )`; returns the parameters and the position after `)`.
/// When the tokens at `p` write a parameter list (see [`params_at`]), its
/// parameters are what is read.
#[verifier::rlimit(40)]
pub(crate) fn parse_params(toks: &Vec<Token>, p: usize) -> (r: Result<(Vec<Param>, usize), ParseError>)
    requires
        p < toks@.len(),
        toks@[p as int].kind == TokKind::Sym(Sym::LParen),
    ensures
        r matches Err(e) ==> e.problem != ParseProblem::BadCharacter,
        r matches Ok((ps, q)) ==> p + 2 <= q <= toks@.len() && leaves(toks@.subrange(p as int, q as int)) == params_leaves(ps@)
            && params_built(ps@),
        forall|ps2: Seq<Param>, q2: int, ends2: Seq<int>| #[trigger] params_at(toks@, p as int, q2, ps2, ends2)
            ==> (r matches Ok((ps, q)) && q == q2 && same_params(ps@, ps2)),
{
    let ntoks = toks.len();
    let ghost ts = toks@;
    let mut ps: Vec<Param> = Vec::new();
    let mut q = p + 1;
    proof {
        lemma_leaves_one(toks@, p as int);
    }
    if !sym_is(toks, q, Sym::RParen) {
        let res = parse_param(toks, q);
        proof {
            assert forall|ps2: Seq<Param>, q2: int, ends2: Seq<int>| #[trigger] params_at(ts, p as int, q2, ps2, ends2)
                implies ps2.len() > 0 && (res matches Ok((pm, q1)) && q1 == ends2[0] && same_param(pm, ps2[0])) by {
                if ps2.len() > 0 {
                    assert(ends2[0] == ends2[0]);
                    assert(param_at(ts, p + 1, ends2[0], ps2[0]));
                }
            }
        }
        let (first, q1) = match res {
            Ok(x) => x,
            Err(e) => return Err(e),
        };
        ps.push(first);
        proof {
            lemma_leaves_concat(toks@, p as int, p + 1, q1 as int);
            assert(leaves(toks@.subrange(p as int, q1 as int)) =~= params_leaves(ps@));
            assert forall|ps2: Seq<Param>, q2: int, ends2: Seq<int>| #[trigger] params_at(ts, p as int, q2, ps2, ends2)
                implies params_read_upto(ps2, ends2, q1 as int, ps@) by {
                lemma_same_params_push(Seq::empty(), ps2, 0, first);
                assert(Seq::<Param>::empty().push(first) =~= ps@);
                assert(ps2.take(0) =~= Seq::<Param>::empty());
                assert(ends2[1 - 1] == q1);
            }
        }
        q = q1;
        while sym_is(toks, q, Sym::Comma)
            invariant
                ntoks == toks@.len(),
                ts == toks@,
                p + 1 < q <= ntoks,
                ts[p as int].kind == TokKind::Sym(Sym::LParen),
                ps@.len() >= 1,
                leaves(toks@.subrange(p as int, q as int)) == params_leaves(ps@),
                params_built(ps@),
                forall|ps2: Seq<Param>, q2: int, ends2: Seq<int>| #[trigger] params_at(ts, p as int, q2, ps2, ends2)
                    ==> params_read_upto(ps2, ends2, q as int, ps@),
            decreases ntoks - q,
        {
            let res = parse_param(toks, q + 1);
            proof {
                assert forall|ps2: Seq<Param>, q2: int, ends2: Seq<int>| #[trigger] params_at(ts, p as int, q2, ps2, ends2)
                    implies (res matches Ok((pm, q3)) && params_read_upto(ps2, ends2, q3 as int, ps@.push(pm))) by {
                    let k = params_index(ps2, ends2, q as int, ps@);
                    assert(ends2[k - 1] == ends2[k - 1]);
                    if k == ps2.len() {
                        assert(ts[q as int].kind == TokKind::Sym(Sym::RParen));
                        assert(false);
                    }
                    assert(ends2[k] == ends2[k]);
                    assert(param_start(p as int, ends2, k) == q + 1);
                    assert(param_at(ts, q + 1, ends2[k], ps2[k]));
                    let (pm, q3) = res->Ok_0;
                    lemma_same_params_push(ps@, ps2, k, pm);
                    assert(ends2[k + 1 - 1] == q3);
                }
            }
            let (pm, q2) = match res {
                Ok(x) => x,
                Err(e) => return Err(e),
            };
            let ghost before = ps@;
            ps.push(pm);
            proof {
                lemma_leaves_concat(toks@, p as int, q as int, q2 as int);
                lemma_leaves_concat(toks@, q as int, q + 1, q2 as int);
                lemma_leaves_one(toks@, q as int);
                assert(ps@.drop_last() =~= before);
                assert(leaves(toks@.subrange(p as int, q2 as int)) =~= params_leaves(ps@));
                assert forall|i: int| 0 <= i < ps@.len() implies type_built(#[trigger] ps@[i].ty.node) by {
                    if i < before.len() {
                        assert(ps@[i] == before[i]);
                        assert(type_built(before[i].ty.node));
                    } else {
                        assert(ps@[i] == pm);
                    }
                }
            }
            q = q2;
        }
        proof {
            assert forall|ps2: Seq<Param>, q2: int, ends2: Seq<int>| #[trigger] params_at(ts, p as int, q2, ps2, ends2)
                implies q + 1 == q2 && same_params(ps@, ps2) && ts[q as int].kind == TokKind::Sym(Sym::RParen) by {
                let k = params_index(ps2, ends2, q as int, ps@);
                assert(ends2[k - 1] == ends2[k - 1]);
                assert(ps2.take(k) =~= ps2);
            }
        }
    } else {
        proof {
            assert forall|ps2: Seq<Param>, q2: int, ends2: Seq<int>| #[trigger] params_at(ts, p as int, q2, ps2, ends2)
                implies q + 1 == q2 && ps2.len() == 0 by {
                if ps2.len() > 0 {
                    assert(ends2[0] == ends2[0]);
                    assert(param_at(ts, p + 1, ends2[0], ps2[0]));
                }
            }
        }
    }
    if !sym_is(toks, q, Sym::RParen) {
        return Err(fail(toks, q, ParseProblem::UnexpectedToken));
    }
    proof {
        lemma_leaves_concat(toks@, p as int, q as int, q + 1);
        lemma_leaves_one(toks@, q as int);
        assert(leaves(toks@.subrange(p as int, q + 1)) =~= params_leaves(ps@));
    }
    Ok((ps, q + 1))
}

/// Tokens `p..q` write `emit Name` (no `(` after the name, no arguments)
/// or, as `w` says, `emit Name(args)`, the call written completely (see
/// [`complete_writing`]).
pub open spec fn emit_at(ts: Seq<Token>, p: int, q: int, e: Emit, w: Option<Deriv>) -> bool {
    &&& 0 <= p && p + 1 < ts.len() && ts[p].kind == TokKind::Keyword(Keyword::Emit)
    &&& ts[p + 1].kind is Ident && name_at(ts, p + 1) == e.event_name.node@
    &&& match w {
        None => e.args@.len() == 0 && q == p + 2 && !(p + 2 < ts.len() && ts[p + 2].kind == TokKind::Sym(Sym::LParen)),
        Some(d) => d is Call && p + 2 < ts.len() && ts[p + 2].kind == TokKind::Sym(Sym::LParen)
            && complete_writing(ts, p + 1, q, Expr::FnCall { name: e.event_name, args: e.args }, 9, d),
    }
}

/// Two events alike: the same name, and arguments alike (see [`same_shapes`]).
pub open spec fn same_emit(a: Emit, b: Emit) -> bool {
    a.event_name.node@ == b.event_name.node@ && same_shapes(a.args@, b.args@)
}

pub open spec fn same_emits(a: Seq<Spanned<Emit>>, b: Seq<Spanned<Emit>>) -> bool {
    &&& a.len() == b.len()
    &&& forall|i: int| #![trigger a[i]] 0 <= i < a.len() ==> same_emit(a[i].node, b[i].node)
}

/// `emit Name(args)` or `emit Name`. When the tokens at `p` write an event
/// (see [`emit_at`]), it is what is read.
pub(crate) fn parse_emit(toks: &Vec<Token>, p: usize) -> (r: Result<(Spanned<Emit>, usize), ParseError>)
    requires
        p < toks@.len(),
        toks@[p as int].kind == TokKind::Keyword(Keyword::Emit),
    ensures
        r matches Err(e) ==> e.problem != ParseProblem::BadCharacter,
        r matches Ok((e, q)) ==> p < q <= toks@.len() && leaves(toks@.subrange(p as int, q as int)) == emit_leaves(e.node),
        forall|e2: Emit, q2: int, w2: Option<Deriv>| #[trigger] emit_at(toks@, p as int, q2, e2, w2)
            ==> (r matches Ok((e, q)) && q == q2 && same_emit(e.node, e2)),
{
    let ntoks = toks.len();
    let ghost ts = toks@;
    let name = match ident_at(toks, p + 1) {
        Some(x) => x,
        None => return Err(fail(toks, p + 1, ParseProblem::UnexpectedToken)),
    };
    proof {
        lemma_leaves_one(toks@, p as int);
        lemma_leaves_one(toks@, p + 1);
    }
    if sym_is(toks, p + 2, Sym::LParen) {
        let res = parse_call(toks, p + 1);
        proof {
            assert forall|e2: Emit, q2: int, w2: Option<Deriv>| #[trigger] emit_at(ts, p as int, q2, e2, w2)
                implies (res matches Ok((call, q)) && q == q2
                    && same_shape(call.node, Expr::FnCall { name: e2.event_name, args: e2.args })) by {
                let d = w2->Some_0;
                assert(complete_writing(ts, p + 1, q2, Expr::FnCall { name: e2.event_name, args: e2.args }, 9, d) && d is Call);
            }
        }
        let (call, q) = match res {
            Ok(x) => x,
            Err(e) => return Err(e),
        };
        proof {
            lemma_leaves_concat(toks@, p as int, p + 1, q as int);
        }
        let sp = toks[p].span.merge(call.span);
        match call.node {
            Expr::FnCall { name, args } => {
                let e = Emit { event_name: name, args };
                proof {
                    assert(leaves(toks@.subrange(p as int, q as int)) =~= emit_leaves(e));
                }
                Ok((Spanned::new(e, sp), q))
            },
            _ => Err(fail(toks, p + 1, ParseProblem::UnexpectedToken)),
        }
    } else {
        let e = Emit { event_name: Spanned::new(name, toks[p + 1].span), args: Vec::new() };
        proof {
            lemma_leaves_concat(toks@, p as int, p + 1, p + 2);
            assert(leaves(toks@.subrange(p as int, p + 2)) =~= emit_leaves(e));
            assert forall|e2: Emit, q2: int, w2: Option<Deriv>| #[trigger] emit_at(ts, p as int, q2, e2, w2)
                implies p + 2 == q2 && same_emit(e, e2) by {
                assert(same_shapes(e.args@, e2.args@));
            }
        }
        let sp = toks[p].span.merge(toks[p + 1].span);
        Ok((Spanned::new(e, sp), p + 2))
    }
}

/// How tokens write a clause of a transition body.
pub enum ClauseWriting {
    /// `where { ... }` or `ensure { ... }`: where each condition starts (one
    /// entry more, the closing `}`).
    Conditions(Seq<int>),
    /// `emit Name`, or `emit Name(args)` with the call written as the
    /// derivation says.
    Emit(Option<Deriv>),
    /// `assert condition`.
    Assert,
    /// A statement, written as [`stmt_at`] says.
    Stmt(StmtWriting),
}

/// Tokens `p..q` write the clause `c` as `w` says: `where { conditions }`,
/// `ensure { conditions }` (see [`exprs_block_at`]), an event (see
/// [`emit_at`]), `assert condition` (written completely, see [`expr_at`]),
/// or a statement (see [`stmt_at`]).
pub open spec fn clause_at(ts: Seq<Token>, p: int, q: int, c: Clause, w: ClauseWriting) -> bool {
    match w {
        ClauseWriting::Conditions(starts) => match c {
            Clause::Where(es) => 0 <= p < ts.len() && ts[p].kind == TokKind::Keyword(Keyword::Where)
                && exprs_block_at(ts, p + 1, q, es@, starts),
            Clause::Ensure(es) => 0 <= p < ts.len() && ts[p].kind == TokKind::Keyword(Keyword::Ensure)
                && exprs_block_at(ts, p + 1, q, es@, starts),
            _ => false,
        },
        ClauseWriting::Emit(od) => match c {
            Clause::EmitClause(e) => emit_at(ts, p, q, e.node, od),
            _ => false,
        },
        ClauseWriting::Assert => match c {
            Clause::Stmt(st) => match st.node {
                Statement::Assert { condition } => 0 <= p < ts.len() && ts[p].kind == TokKind::Keyword(Keyword::Assert)
                    && expr_at(ts, p + 1, q, condition.node),
                _ => false,
            },
            _ => false,
        },
        ClauseWriting::Stmt(d) => match c {
            Clause::Stmt(st) => stmt_at(ts, p, q, st.node, d),
            _ => false,
        },
    }
}

/// Two clauses alike, up to spans.
pub open spec fn same_clause(a: Clause, b: Clause) -> bool {
    match a {
        Clause::Where(x) => b matches Clause::Where(y) && same_exprs(x@, y@),
        Clause::Ensure(x) => b matches Clause::Ensure(y) && same_exprs(x@, y@),
        Clause::EmitClause(e) => b matches Clause::EmitClause(e2) && same_emit(e.node, e2.node),
        Clause::Stmt(s) => b matches Clause::Stmt(s2) && same_stmt(s.node, s2.node),
    }
}

/// A written clause covers at least one token and starts with no `}`.
proof fn lemma_clause_bounds(ts: Seq<Token>, p: int, q: int, c: Clause, w: ClauseWriting)
    requires
        clause_at(ts, p, q, c, w),
    ensures
        0 <= p < q <= ts.len(),
        ts[p].kind != TokKind::Sym(Sym::RBrace),
        w is Stmt ==> starts_stmt(ts[p].kind),
{
    match w {
        ClauseWriting::Conditions(starts) => {
            let es = match c {
                Clause::Where(es) => es@,
                Clause::Ensure(es) => es@,
                _ => Seq::empty(),
            };
            assert forall|i: int| 0 <= i < es.len() implies #[trigger] starts[i] < starts[i + 1] by {
                assert(starts[i] == starts[i]);
                lemma_expr_start(ts, starts[i], starts[i + 1], es[i].node);
            }
            lemma_rising(starts, es.len() as int);
        },
        ClauseWriting::Emit(od) => {
            if od is Some {
                let e = c->EmitClause_0.node;
                lemma_writes_bounds(ts, p + 1, q, Expr::FnCall { name: e.event_name, args: e.args }, 9, od->Some_0);
            }
        },
        ClauseWriting::Assert => {
            lemma_expr_start(ts, p + 1, q, c->Stmt_0.node->Assert_condition.node);
        },
        ClauseWriting::Stmt(d) => {
            lemma_stmt_bounds(ts, p, q, c->Stmt_0.node, d);
        },
    }
}

/// One clause of a transition body. When the tokens at `p` write a clause
/// (see [`clause_at`]), it is what is read.
pub(crate) fn parse_clause(toks: &Vec<Token>, p: usize) -> (r: Result<(Clause, usize), ParseError>)
    requires
        p < toks@.len(),
    ensures
        r matches Err(e) ==> e.problem != ParseProblem::BadCharacter,
        r matches Ok((c, q)) ==> p < q <= toks@.len() && clause_printed(c, leaves(toks@.subrange(p as int, q as int))),
        forall|c2: Clause, q2: int, w2: ClauseWriting| #[trigger] clause_at(toks@, p as int, q2, c2, w2)
            ==> (r matches Ok((c, q)) && q == q2 && same_clause(c, c2)),
{
    let ntoks = toks.len();
    let ghost ts = toks@;
    proof {
        assert forall|c2: Clause, q2: int, w2: ClauseWriting| #[trigger] clause_at(ts, p as int, q2, c2, w2)
            implies (w2 is Stmt ==> starts_stmt(ts[p as int].kind)) by {
            lemma_clause_bounds(ts, p as int, q2, c2, w2);
        }
    }
    let is_where = kw_is(toks, p, Keyword::Where);
    if is_where || kw_is(toks, p, Keyword::Ensure) {
        if !sym_is(toks, p + 1, Sym::LBrace) {
            return Err(fail(toks, p + 1, ParseProblem::UnexpectedToken));
        }
        let res = parse_expr_block(toks, p + 1);
        proof {
            assert forall|c2: Clause, q2: int, w2: ClauseWriting| #[trigger] clause_at(ts, p as int, q2, c2, w2)
                implies (res matches Ok((es, q)) && q == q2 && (if is_where {
                    c2 matches Clause::Where(y) && same_exprs(es@, y@)
                } else {
                    c2 matches Clause::Ensure(y) && same_exprs(es@, y@)
                })) by {
                let starts = w2->Conditions_0;
                match c2 {
                    Clause::Where(y) => {
                        assert(exprs_block_at(ts, p + 1, q2, y@, starts));
                    },
                    Clause::Ensure(y) => {
                        assert(exprs_block_at(ts, p + 1, q2, y@, starts));
                    },
                    _ => {},
                }
            }
        }
        let (es, q) = match res {
            Ok(x) => x,
            Err(e) => return Err(e),
        };
        proof {
            let ts = toks@;
            lemma_leaves_concat(ts, p as int, p + 2, q as int);
            lemma_leaves_concat(ts, p as int, p + 1, p + 2);
            lemma_leaves_concat(ts, p + 2, q - 1, q as int);
            lemma_leaves_one(ts, p as int);
            lemma_leaves_one(ts, p + 1);
            lemma_leaves_one(ts, q - 1);
            assert(leaves(ts.subrange(p as int, q as int)) =~= seq![
                Leaf::Kw(if is_where { Keyword::Where } else { Keyword::Ensure }),
                Leaf::Punct(Sym::LBrace),
            ] + exprs_leaves(es@) + seq![Leaf::Punct(Sym::RBrace)]);
        }
        if is_where {
            Ok((Clause::Where(es), q))
        } else {
            Ok((Clause::Ensure(es), q))
        }
    } else if kw_is(toks, p, Keyword::Emit) {
        let res = parse_emit(toks, p);
        proof {
            assert forall|c2: Clause, q2: int, w2: ClauseWriting| #[trigger] clause_at(ts, p as int, q2, c2, w2)
                implies (res matches Ok((e, q)) && q == q2 && same_clause(Clause::EmitClause(e), c2)) by {
                let e2 = c2->EmitClause_0.node;
                assert(emit_at(ts, p as int, q2, e2, w2->Emit_0));
            }
        }
        let (e, q) = match res {
            Ok(x) => x,
            Err(err) => return Err(err),
        };
        Ok((Clause::EmitClause(e), q))
    } else if kw_is(toks, p, Keyword::Assert) {
        let res = pratt_parse(toks, p + 1, 0);
        proof {
            assert forall|c2: Clause, q2: int, w2: ClauseWriting| #[trigger] clause_at(ts, p as int, q2, c2, w2)
                implies (res matches Ok((condition, q)) && q == q2
                    && same_shape(condition.node, c2->Stmt_0.node->Assert_condition.node)) by {
                let cond2 = c2->Stmt_0.node->Assert_condition.node;
                let d = lemma_expr_at(ts, p + 1, q2, cond2);
            }
        }
        let (condition, q) = match res {
            Ok(x) => x,
            Err(e) => return Err(e),
        };
        proof {
            lemma_leaves_concat(toks@, p as int, p + 1, q as int);
            lemma_leaves_one(toks@, p as int);
        }
        let sp = span_of(toks, p, q);
        Ok((Clause::Stmt(Spanned::new(Statement::Assert { condition }, sp)), q))
    } else {
        let res = parse_statement(toks, p);
        proof {
            assert forall|c2: Clause, q2: int, w2: ClauseWriting| #[trigger] clause_at(ts, p as int, q2, c2, w2)
                implies (res matches Ok((st, q)) && q == q2 && same_clause(Clause::Stmt(st), c2)) by {
                let st2 = c2->Stmt_0.node;
                assert(stmt_at(ts, p as int, q2, st2, w2->Stmt_0));
            }
        }
        let (st, q) = match res {
            Ok(x) => x,
            Err(e) => return Err(e),
        };
        Ok((Clause::Stmt(st), q))
    }
}

pub(crate) proof fn lemma_clauses_push(cs: Seq<Clause>, c: Clause, x: Seq<Leaf>, y: Seq<Leaf>)
    requires
        clauses_printed(cs, x),
        clause_printed(c, y),
    ensures
        clauses_printed(cs.push(c), x + y),
        pre_of(cs.push(c)) == pre_of(cs) + match c {
            Clause::Where(es) => es@,
            _ => Seq::<Spanned<Expr>>::empty(),
        },
        post_of(cs.push(c)) == post_of(cs) + match c {
            Clause::Ensure(es) => es@,
            _ => Seq::<Spanned<Expr>>::empty(),
        },
        body_of(cs.push(c)) == body_of(cs) + match c {
            Clause::Stmt(st) => seq![st],
            _ => Seq::<Spanned<Statement>>::empty(),
        },
        emits_of(cs.push(c)) == emits_of(cs) + match c {
            Clause::EmitClause(e) => seq![e],
            _ => Seq::<Spanned<Emit>>::empty(),
        },
{
    let ls = x + y;
    assert(ls.take(x.len() as int) =~= x);
    assert(ls.skip(x.len() as int) =~= y);
    assert(cs.push(c).drop_last() =~= cs);
    assert(cs.push(c).last() == c);
}

/// How tokens write a transition: where each parameter's type ends, the
/// clauses of its body in order, where each clause starts (one entry more,
/// the closing `}`) and how each is written.
pub struct TransitionWriting {
    pub param_ends: Seq<int>,
    pub clauses: Seq<Clause>,
    pub starts: Seq<int>,
    pub writings: Seq<ClauseWriting>,
}

/// Tokens `p..q` write the transition `t` as `w` says: `transition`, its
/// name, its parameter list (see [`params_at`]), then `{`, its clauses one
/// after another (see [`clause_at`]) and `}`. Its conditions, statements and
/// events are those of the clauses, in order (see [`clauses_give`]).
pub open spec fn transition_at(ts: Seq<Token>, p: int, q: int, t: Transition, w: TransitionWriting) -> bool {
    &&& 0 <= p && p + 2 < ts.len()
    &&& ts[p].kind == TokKind::Keyword(Keyword::Transition)
    &&& ts[p + 1].kind is Ident && name_at(ts, p + 1) == t.name.node@
    &&& w.starts.len() == w.clauses.len() + 1 && w.writings.len() == w.clauses.len()
    &&& params_at(ts, p + 2, w.starts[0] - 1, t.params@, w.param_ends)
    &&& 0 <= w.starts[0] - 1 < ts.len() && ts[w.starts[0] - 1].kind == TokKind::Sym(Sym::LBrace)
    &&& forall|i: int| #![trigger w.starts[i]] 0 <= i < w.clauses.len()
        ==> clause_at(ts, w.starts[i], w.starts[i + 1], w.clauses[i], w.writings[i])
    &&& 0 <= w.starts.last() < ts.len() && ts[w.starts.last()].kind == TokKind::Sym(Sym::RBrace)
    &&& q == w.starts.last() + 1
    &&& clauses_give(w.clauses, t)
}

/// Two transitions alike, up to spans: the same name, and parameters,
/// conditions, statements and events alike.
pub open spec fn same_transition(a: Transition, b: Transition) -> bool {
    &&& a.name.node@ == b.name.node@
    &&& same_params(a.params@, b.params@)
    &&& same_exprs(a.preconditions@, b.preconditions@)
    &&& same_stmts(a.body@, b.body@)
    &&& same_exprs(a.postconditions@, b.postconditions@)
    &&& same_emits(a.emits@, b.emits@)
}

pub open spec fn same_clauses(a: Seq<Clause>, b: Seq<Clause>) -> bool {
    &&& a.len() == b.len()
    &&& forall|i: int| #![trigger a[i]] 0 <= i < a.len() ==> same_clause(a[i], b[i])
}

pub open spec fn clauses_read_upto(cs2: Seq<Clause>, starts: Seq<int>, cur: int, cs: Seq<Clause>) -> bool {
    exists|i: int| #![trigger starts[i]] 0 <= i <= cs2.len() && starts[i] == cur && same_clauses(cs, cs2.take(i))
}

pub open spec fn clauses_index(cs2: Seq<Clause>, starts: Seq<int>, cur: int, cs: Seq<Clause>) -> int {
    choose|i: int| #![trigger starts[i]] 0 <= i <= cs2.len() && starts[i] == cur && same_clauses(cs, cs2.take(i))
}

proof fn lemma_same_clauses_push(cs: Seq<Clause>, cs2: Seq<Clause>, i: int, c: Clause)
    requires
        0 <= i < cs2.len(),
        same_clauses(cs, cs2.take(i)),
        same_clause(c, cs2[i]),
    ensures
        same_clauses(cs.push(c), cs2.take(i + 1)),
{
    let a = cs.push(c);
    let b = cs2.take(i + 1);
    assert forall|k: int| #![trigger a[k]] 0 <= k < a.len() implies same_clause(a[k], b[k]) by {
        if k < i {
            assert(a[k] == cs[k]);
            assert(b[k] == cs2.take(i)[k]);
        }
    }
}

proof fn lemma_same_exprs_concat(x: Seq<Spanned<Expr>>, y: Seq<Spanned<Expr>>, u: Seq<Spanned<Expr>>, v: Seq<Spanned<Expr>>)
    requires
        same_exprs(x, y),
        same_exprs(u, v),
    ensures
        same_exprs(x + u, y + v),
{
    let a = x + u;
    let b = y + v;
    assert forall|k: int| #![trigger a[k]] 0 <= k < a.len() implies same_shape(a[k].node, b[k].node) by {
        if k < x.len() {
            assert(a[k] == x[k] && b[k] == y[k]);
        } else {
            assert(a[k] == u[k - x.len()] && b[k] == v[k - x.len()]);
        }
    }
}

proof fn lemma_same_stmts_concat(x: Seq<Spanned<Statement>>, y: Seq<Spanned<Statement>>, u: Seq<Spanned<Statement>>, v: Seq<Spanned<Statement>>)
    requires
        same_stmts(x, y),
        same_stmts(u, v),
    ensures
        same_stmts(x + u, y + v),
{
    let a = x + u;
    let b = y + v;
    assert forall|k: int| #![trigger a[k]] 0 <= k < a.len() implies same_stmt(a[k].node, b[k].node) by {
        if k < x.len() {
            assert(a[k] == x[k] && b[k] == y[k]);
        } else {
            assert(a[k] == u[k - x.len()] && b[k] == v[k - x.len()]);
        }
    }
}

proof fn lemma_same_emits_concat(x: Seq<Spanned<Emit>>, y: Seq<Spanned<Emit>>, u: Seq<Spanned<Emit>>, v: Seq<Spanned<Emit>>)
    requires
        same_emits(x, y),
        same_emits(u, v),
    ensures
        same_emits(x + u, y + v),
{
    let a = x + u;
    let b = y + v;
    assert forall|k: int| #![trigger a[k]] 0 <= k < a.len() implies same_emit(a[k].node, b[k].node) by {
        if k < x.len() {
            assert(a[k] == x[k] && b[k] == y[k]);
        } else {
            assert(a[k] == u[k - x.len()] && b[k] == v[k - x.len()]);
        }
    }
}

/// Clauses alike give conditions, statements and events alike.
proof fn lemma_same_clauses_give(cs: Seq<Clause>, cs2: Seq<Clause>)
    requires
        same_clauses(cs, cs2),
    ensures
        same_exprs(pre_of(cs), pre_of(cs2)),
        same_stmts(body_of(cs), body_of(cs2)),
        same_exprs(post_of(cs), post_of(cs2)),
        same_emits(emits_of(cs), emits_of(cs2)),
    decreases cs.len(),
{
    if cs.len() > 0 {
        let a = cs.drop_last();
        let b = cs2.drop_last();
        assert forall|k: int| #![trigger a[k]] 0 <= k < a.len() implies same_clause(a[k], b[k]) by {
            assert(a[k] == cs[k] && b[k] == cs2[k]);
        }
        lemma_same_clauses_give(a, b);
        let n = cs.len() - 1;
        assert(cs[n] == cs.last() && cs2[n] == cs2.last());
        assert(same_clause(cs.last(), cs2.last()));
        let pe = match cs.last() { Clause::Where(es) => es@, _ => Seq::<Spanned<Expr>>::empty() };
        let pe2 = match cs2.last() { Clause::Where(es) => es@, _ => Seq::<Spanned<Expr>>::empty() };
        let po = match cs.last() { Clause::Ensure(es) => es@, _ => Seq::<Spanned<Expr>>::empty() };
        let po2 = match cs2.last() { Clause::Ensure(es) => es@, _ => Seq::<Spanned<Expr>>::empty() };
        let bo = match cs.last() { Clause::Stmt(st) => seq![st], _ => Seq::<Spanned<Statement>>::empty() };
        let bo2 = match cs2.last() { Clause::Stmt(st) => seq![st], _ => Seq::<Spanned<Statement>>::empty() };
        let em = match cs.last() { Clause::EmitClause(e) => seq![e], _ => Seq::<Spanned<Emit>>::empty() };
        let em2 = match cs2.last() { Clause::EmitClause(e) => seq![e], _ => Seq::<Spanned<Emit>>::empty() };
        assert(same_exprs(pe, pe2));
        assert(same_exprs(po, po2));
        assert forall|k: int| #![trigger bo[k]] 0 <= k < bo.len() implies same_stmt(bo[k].node, bo2[k].node) by {}
        assert forall|k: int| #![trigger em[k]] 0 <= k < em.len() implies same_emit(em[k].node, em2[k].node) by {}
        lemma_same_exprs_concat(pre_of(a), pre_of(b), pe, pe2);
        lemma_same_exprs_concat(post_of(a), post_of(b), po, po2);
        lemma_same_stmts_concat(body_of(a), body_of(b), bo, bo2);
        lemma_same_emits_concat(emits_of(a), emits_of(b), em, em2);
    }
}

/// `transition name(params) { clauses }`. When the tokens at `p` write a
/// transition (see [`transition_at`]), it is what is read, up to spans (see
/// [`same_transition`]).
#[verifier::rlimit(40)]
pub(crate) fn parse_transition(toks: &Vec<Token>, p: usize) -> (r: Result<(Transition, usize), ParseError>)
    requires
        p < toks@.len(),
        toks@[p as int].kind == TokKind::Keyword(Keyword::Transition),
    ensures
        r matches Err(e) ==> e.problem != ParseProblem::BadCharacter,
        r matches Ok((t, q)) ==> p < q <= toks@.len() && transition_printed(t, leaves(toks@.subrange(p as int, q as int))),
        forall|t2: Transition, q2: int, w2: TransitionWriting| #[trigger] transition_at(toks@, p as int, q2, t2, w2)
            ==> (r matches Ok((t, q)) && q == q2 && same_transition(t, t2)),
{
    let ntoks = toks.len();
    let ghost ts = toks@;
    let name = match ident_at(toks, p + 1) {
        Some(x) => x,
        None => return Err(fail(toks, p + 1, ParseProblem::UnexpectedToken)),
    };
    let name = Spanned::new(name, toks[p + 1].span);
    if !sym_is(toks, p + 2, Sym::LParen) {
        return Err(fail(toks, p + 2, ParseProblem::UnexpectedToken));
    }
    let res_ps = parse_params(toks, p + 2);
    proof {
        assert forall|t2: Transition, q2: int, w2: TransitionWriting| #[trigger] transition_at(ts, p as int, q2, t2, w2)
            implies (res_ps matches Ok((ps, a)) && a == w2.starts[0] - 1 && same_params(ps@, t2.params@)) by {
            assert(params_at(ts, p + 2, w2.starts[0] - 1, t2.params@, w2.param_ends));
        }
    }
    let (params, a) = match res_ps {
        Ok(x) => x,
        Err(e) => return Err(e),
    };
    if !sym_is(toks, a, Sym::LBrace) {
        return Err(fail(toks, a, ParseProblem::UnexpectedToken));
    }
    let mut preconditions: Vec<Spanned<Expr>> = Vec::new();
    let mut body: Vec<Spanned<Statement>> = Vec::new();
    let mut postconditions: Vec<Spanned<Expr>> = Vec::new();
    let mut emits: Vec<Spanned<Emit>> = Vec::new();
    let ghost mut cs: Seq<Clause> = Seq::empty();
    let mut cur = a + 1;
    proof {
        assert(leaves(toks@.subrange(a + 1, a + 1)) =~= Seq::<Leaf>::empty());
        assert(pre_of(cs) =~= preconditions@);
        assert(post_of(cs) =~= postconditions@);
        assert(body_of(cs) =~= body@);
        assert(emits_of(cs) =~= emits@);
        assert forall|t2: Transition, q2: int, w2: TransitionWriting| #[trigger] transition_at(ts, p as int, q2, t2, w2)
            implies clauses_read_upto(w2.clauses, w2.starts, cur as int, cs) by {
            assert(w2.clauses.take(0) =~= Seq::<Clause>::empty());
            assert(w2.starts[0] == cur);
        }
    }
    while cur < ntoks && !sym_is(toks, cur, Sym::RBrace)
        invariant
            ntoks == toks@.len(),
            ts == toks@,
            a < cur <= ntoks,
            clauses_printed(cs, leaves(toks@.subrange(a + 1, cur as int))),
            pre_of(cs) == preconditions@,
            post_of(cs) == postconditions@,
            body_of(cs) == body@,
            emits_of(cs) == emits@,
            forall|t2: Transition, q2: int, w2: TransitionWriting| #[trigger] transition_at(ts, p as int, q2, t2, w2)
                ==> clauses_read_upto(w2.clauses, w2.starts, cur as int, cs),
        decreases ntoks - cur,
    {
        let res = parse_clause(toks, cur);
        proof {
            assert forall|t2: Transition, q2: int, w2: TransitionWriting| #[trigger] transition_at(ts, p as int, q2, t2, w2)
                implies (res matches Ok((c, q)) && clauses_read_upto(w2.clauses, w2.starts, q as int, cs.push(c))) by {
                let i = clauses_index(w2.clauses, w2.starts, cur as int, cs);
                assert(w2.starts[i] == w2.starts[i]);
                if i == w2.clauses.len() {
                    assert(false);
                }
                assert(w2.starts[i + 1] == w2.starts[i + 1]);
                assert(clause_at(ts, cur as int, w2.starts[i + 1], w2.clauses[i], w2.writings[i]));
                let (c, q) = res->Ok_0;
                lemma_same_clauses_push(cs, w2.clauses, i, c);
            }
        }
        let (c, q) = match res {
            Ok(x) => x,
            Err(e) => return Err(e),
        };
        proof {
            lemma_leaves_concat(toks@, a + 1, cur as int, q as int);
            lemma_clauses_push(cs, c, leaves(toks@.subrange(a + 1, cur as int)), leaves(toks@.subrange(cur as int, q as int)));
            cs = cs.push(c);
        }
        match c {
            Clause::Where(mut es) => {
                preconditions.append(&mut es);
            },
            Clause::Ensure(mut es) => {
                postconditions.append(&mut es);
            },
            Clause::EmitClause(e) => {
                emits.push(e);
            },
            Clause::Stmt(st) => {
                body.push(st);
            },
        }
        proof {
            assert(pre_of(cs) =~= preconditions@);
            assert(post_of(cs) =~= postconditions@);
            assert(body_of(cs) =~= body@);
            assert(emits_of(cs) =~= emits@);
        }
        cur = q;
    }
    proof {
        assert forall|t2: Transition, q2: int, w2: TransitionWriting| #[trigger] transition_at(ts, p as int, q2, t2, w2)
            implies cur < ntoks && cur + 1 == q2 && same_clauses(cs, w2.clauses) by {
            let i = clauses_index(w2.clauses, w2.starts, cur as int, cs);
            assert(w2.starts[i] == w2.starts[i]);
            if i < w2.clauses.len() {
                assert(w2.starts[i + 1] == w2.starts[i + 1]);
                lemma_clause_bounds(ts, cur as int, w2.starts[i + 1], w2.clauses[i], w2.writings[i]);
            }
            assert(w2.clauses.take(i) =~= w2.clauses);
        }
    }
    if cur >= ntoks {
        return Err(fail(toks, cur, ParseProblem::UnexpectedEnd));
    }
    let t = Transition {
        name,
        params,
        preconditions,
        body,
        postconditions,
        emits,
        span: span_of(toks, p, cur + 1),
    };
    proof {
        let ts = toks@;
        let h = seq![Leaf::Kw(Keyword::Transition), Leaf::Name(t.name.node@)] + params_leaves(t.params@)
            + seq![Leaf::Punct(Sym::LBrace)];
        let mid = leaves(ts.subrange(a + 1, cur as int));
        lemma_leaves_concat(ts, p as int, a + 1, cur + 1);
        lemma_leaves_concat(ts, p as int, p + 2, a + 1);
        lemma_leaves_concat(ts, p as int, p + 1, p + 2);
        lemma_leaves_concat(ts, p + 2, a as int, a + 1);
        lemma_leaves_concat(ts, a + 1, cur as int, cur + 1);
        lemma_leaves_one(ts, p as int);
        lemma_leaves_one(ts, p + 1);
        lemma_leaves_one(ts, a as int);
        lemma_leaves_one(ts, cur as int);
        let ls = leaves(ts.subrange(p as int, cur + 1));
        assert(ls =~= h + mid + seq![Leaf::Punct(Sym::RBrace)]);
        assert(ls.take(h.len() as int) =~= h);
        assert(ls.subrange(h.len() as int, ls.len() - 1) =~= mid);
        assert(clauses_printed(cs, ls.subrange(h.len() as int, ls.len() - 1)) && clauses_give(cs, t));
        assert forall|t2: Transition, q2: int, w2: TransitionWriting| #[trigger] transition_at(ts, p as int, q2, t2, w2)
            implies same_transition(t, t2) by {
            lemma_same_clauses_give(cs, w2.clauses);
        }
    }
    Ok((t, cur + 1))
}

} // verus!
