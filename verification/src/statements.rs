//! Reading statements and blocks: the grammar of statements with blocks,
//! and the parser that reads it.
use vstd::prelude::*;
use crate::ast::{Expr, MatchArm, MatchPattern, Spanned, Statement};
use crate::lexer::{Keyword, Sym, TokKind, Token};
use crate::parser::{
    arm_printed, arms_printed, block_printed, else_printed, expr_at, expr_leaves, fail, kw_is, lemma_arms_push,
    lemma_block_push, lemma_leaves_concat, lemma_leaves_one, leaves, line_stmt_at, parse_assign, parse_let, parse_pattern,
    pattern_at, pattern_leaves, pratt_parse, reads_expr, same_line_stmt, same_pattern, same_shape, span_of, stmt_printed,
    sym_is, is_assignment, lemma_expr_at, lemma_writes_bounds, Leaf, ParseError, ParseProblem,
};

verus! {

/// How tokens write a statement: a statement without a block needs no
/// more (see [`line_stmt_at`]); an `if` gives where its condition ends (at
/// the `{` of its block), how its block and its else part are written; a
/// `match` gives where its expression ends (at `{`), where each arm starts
/// (the last entry is the closing `}`) and how each arm is written.
pub enum StmtWriting {
    Line,
    If(int, BlockWriting, ElseWriting),
    Match(int, Seq<int>, Seq<ArmWriting>),
}

/// How tokens write the else part of an `if`: not at all, as `else if ...`,
/// or as `else { ... }`.
pub enum ElseWriting {
    Absent,
    ElseIf(Box<StmtWriting>),
    Braced(BlockWriting),
}

/// How tokens write a block: where each statement starts (one entry more,
/// the closing `}`) and how each statement is written.
pub struct BlockWriting {
    pub starts: Seq<int>,
    pub stmts: Seq<StmtWriting>,
}

/// How tokens write a match arm: where its pattern ends (at `=>`) and how
/// the block after the `=>` is written.
pub struct ArmWriting {
    pub arrow: int,
    pub block: BlockWriting,
}

/// Tokens `p..q` write the statement `st` as `d` says: a statement without
/// a block as [`line_stmt_at`] says; `if condition { ... }` with its else
/// part (see [`else_at`]); `match expr { arms }`. Each expression is written
/// completely (see [`expr_at`]), each block as [`block_at`] says and each
/// arm as [`arm_at`] says.
pub open spec fn stmt_at(ts: Seq<Token>, p: int, q: int, st: Statement, d: StmtWriting) -> bool
    decreases d,
{
    match d {
        StmtWriting::Line => line_stmt_at(ts, p, q, st),
        StmtWriting::If(c, bw, ew) => match st {
            Statement::If { condition, then_body, else_body } => {
                &&& 0 <= p < ts.len()
                &&& ts[p].kind == TokKind::Keyword(Keyword::If)
                &&& expr_at(ts, p + 1, c, condition.node)
                &&& bw.starts.len() > 0
                &&& block_at(ts, c, bw.starts.last() + 1, then_body@, bw)
                &&& else_at(ts, bw.starts.last() + 1, q, else_body, ew)
            },
            _ => false,
        },
        StmtWriting::Match(c, starts, aws) => match st {
            Statement::Match { expr, arms } => {
                &&& 0 <= p < ts.len()
                &&& ts[p].kind == TokKind::Keyword(Keyword::Match)
                &&& expr_at(ts, p + 1, c, expr.node)
                &&& 0 <= c < ts.len() && ts[c].kind == TokKind::Sym(Sym::LBrace)
                &&& starts.len() == arms@.len() + 1 && aws.len() == arms@.len()
                &&& starts[0] == c + 1
                &&& 0 <= starts.last() < ts.len() && ts[starts.last()].kind == TokKind::Sym(Sym::RBrace)
                &&& q == starts.last() + 1
                &&& forall|i: int| #![trigger aws[i]] 0 <= i < arms@.len() ==> arm_at(ts, starts[i], starts[i + 1], arms@[i], aws[i])
            },
            _ => false,
        },
    }
}

/// Tokens `r..q` write the else part `e` as `w` says: nothing, when the
/// token at `r` is no `else`; `else` and an `if` statement; or `else` and a
/// block.
pub open spec fn else_at(ts: Seq<Token>, r: int, q: int, e: Option<Vec<Spanned<Statement>>>, w: ElseWriting) -> bool
    decreases w,
{
    match w {
        ElseWriting::Absent => e is None && q == r && 0 <= r <= ts.len()
            && !(r < ts.len() && ts[r].kind == TokKind::Keyword(Keyword::Else)),
        ElseWriting::ElseIf(d) => e matches Some(v) && v@.len() == 1 && 0 <= r && r + 1 < ts.len()
            && ts[r].kind == TokKind::Keyword(Keyword::Else) && ts[r + 1].kind == TokKind::Keyword(Keyword::If)
            && stmt_at(ts, r + 1, q, v@[0].node, *d),
        ElseWriting::Braced(bw) => e matches Some(v) && 0 <= r < ts.len()
            && ts[r].kind == TokKind::Keyword(Keyword::Else) && block_at(ts, r + 1, q, v@, bw),
    }
}

/// Tokens `o..q` write the block `{ body }` as `w` says: a `{` at `o`, the
/// statements one after the other from `o + 1`, each as [`stmt_at`] says,
/// and a `}` at `q - 1`.
pub open spec fn block_at(ts: Seq<Token>, o: int, q: int, body: Seq<Spanned<Statement>>, w: BlockWriting) -> bool
    decreases w,
{
    &&& 0 <= o < ts.len() && ts[o].kind == TokKind::Sym(Sym::LBrace)
    &&& w.starts.len() == body.len() + 1 && w.stmts.len() == body.len()
    &&& w.starts[0] == o + 1
    &&& w.starts.last() == q - 1
    &&& 0 <= q - 1 < ts.len() && ts[q - 1].kind == TokKind::Sym(Sym::RBrace)
    &&& forall|i: int| #![trigger w.stmts[i]] 0 <= i < body.len() ==> stmt_at(ts, w.starts[i], w.starts[i + 1], body[i].node, w.stmts[i])
}

/// Tokens `s..e` write the arm `pattern => { body }` as `w` says, with the
/// comma after it when there is one.
pub open spec fn arm_at(ts: Seq<Token>, s: int, e: int, arm: MatchArm, w: ArmWriting) -> bool
    decreases w,
{
    let b = w.block.starts.last() + 1;
    &&& pattern_at(ts, s, w.arrow, arm.pattern.node)
    &&& w.arrow + 1 < ts.len() && ts[w.arrow].kind == TokKind::Sym(Sym::FatArrow)
    &&& w.block.starts.len() > 0
    &&& block_at(ts, w.arrow + 1, b, arm.body@, w.block)
    &&& e == if b < ts.len() && ts[b].kind == TokKind::Sym(Sym::Comma) { b + 1 } else { b }
}

/// Two statements alike, up to spans: expressions as [`same_shape`] says,
/// types as [`same_type`] says, patterns as [`same_pattern`] says, and
/// blocks statement by statement.
pub open spec fn same_stmt(a: Statement, b: Statement) -> bool
    decreases a,
{
    match a {
        Statement::If { condition, then_body, else_body } => b matches Statement::If { condition: c2, then_body: t2, else_body: e2 }
            && same_shape(condition.node, c2.node) && same_stmts(then_body@, t2@) && same_else(else_body, e2),
        Statement::Match { expr, arms } => b matches Statement::Match { expr: x2, arms: a2 }
            && same_shape(expr.node, x2.node) && same_arms(arms@, a2@),
        Statement::Assert { condition } => b matches Statement::Assert { condition: c2 }
            && same_shape(condition.node, c2.node),
        _ => same_line_stmt(a, b),
    }
}

pub open spec fn same_else(a: Option<Vec<Spanned<Statement>>>, b: Option<Vec<Spanned<Statement>>>) -> bool
    decreases a,
{
    match a {
        None => b is None,
        Some(x) => b matches Some(y) && same_stmts(x@, y@),
    }
}

pub open spec fn same_stmts(a: Seq<Spanned<Statement>>, b: Seq<Spanned<Statement>>) -> bool
    decreases a,
{
    &&& a.len() == b.len()
    &&& forall|i: int| #![trigger a[i]] 0 <= i < a.len() ==> same_stmt(a[i].node, b[i].node)
}

pub open spec fn same_arms(a: Seq<MatchArm>, b: Seq<MatchArm>) -> bool
    decreases a,
{
    &&& a.len() == b.len()
    &&& forall|i: int| #![trigger a[i]] 0 <= i < a.len() ==> same_pattern(a[i].pattern.node, b[i].pattern.node)
        && same_stmts(a[i].body@, b[i].body@)
}

/// Whether a statement can start with the token: `let`, `if`, `match` or a
/// name.
pub open spec fn starts_stmt(k: TokKind) -> bool {
    k == TokKind::Keyword(Keyword::Let) || k == TokKind::Keyword(Keyword::If) || k == TokKind::Keyword(Keyword::Match)
        || k is Ident
}

/// A written statement covers at least one token and starts as a statement
/// can.
pub(crate) proof fn lemma_stmt_bounds(ts: Seq<Token>, p: int, q: int, st: Statement, d: StmtWriting)
    requires
        stmt_at(ts, p, q, st, d),
    ensures
        0 <= p < q <= ts.len(),
        starts_stmt(ts[p].kind),
        d is Line ==> ts[p].kind == TokKind::Keyword(Keyword::Let) || ts[p].kind is Ident,
        d is If ==> ts[p].kind == TokKind::Keyword(Keyword::If),
        d is Match ==> ts[p].kind == TokKind::Keyword(Keyword::Match),
    decreases d,
{
    match d {
        StmtWriting::Line => {},
        StmtWriting::If(c, bw, ew) => {
            let cd = lemma_expr_at(ts, p + 1, c, st->If_condition.node);
            lemma_writes_bounds(ts, p + 1, c, st->If_condition.node, 0, cd);
            lemma_block_bounds(ts, c, bw.starts.last() + 1, st->If_then_body@, bw);
            lemma_else_bounds(ts, bw.starts.last() + 1, q, st->If_else_body, ew);
        },
        StmtWriting::Match(c, starts, aws) => {
            let cd = lemma_expr_at(ts, p + 1, c, st->Match_expr.node);
            lemma_writes_bounds(ts, p + 1, c, st->Match_expr.node, 0, cd);
            let arms = st->Match_arms@;
            assert forall|i: int| 0 <= i < arms.len() implies #[trigger] starts[i] < starts[i + 1] by {
                assert(arm_at(ts, starts[i], starts[i + 1], arms[i], aws[i]));
                lemma_arm_bounds(ts, starts[i], starts[i + 1], arms[i], aws[i]);
            }
            lemma_rising(starts, arms.len() as int);
        },
    }
}

proof fn lemma_else_bounds(ts: Seq<Token>, r: int, q: int, e: Option<Vec<Spanned<Statement>>>, w: ElseWriting)
    requires
        else_at(ts, r, q, e, w),
    ensures
        0 <= r <= q <= ts.len(),
    decreases w,
{
    match w {
        ElseWriting::Absent => {},
        ElseWriting::ElseIf(d) => {
            lemma_stmt_bounds(ts, r + 1, q, e->0@[0].node, *d);
        },
        ElseWriting::Braced(bw) => {
            lemma_block_bounds(ts, r + 1, q, e->0@, bw);
        },
    }
}

/// A written block: its `{` and `}` around statements that each cover at
/// least one token.
proof fn lemma_block_bounds(ts: Seq<Token>, o: int, q: int, body: Seq<Spanned<Statement>>, w: BlockWriting)
    requires
        block_at(ts, o, q, body, w),
    ensures
        0 <= o && o + 2 <= q <= ts.len(),
        forall|i: int| 0 <= i < body.len() ==> #[trigger] w.starts[i] < w.starts[i + 1] && w.starts[i] < ts.len()
            && starts_stmt(ts[w.starts[i]].kind),
    decreases w,
{
    assert forall|i: int| 0 <= i < body.len() implies #[trigger] w.starts[i] < w.starts[i + 1] && w.starts[i] < ts.len()
        && starts_stmt(ts[w.starts[i]].kind) by {
        assert(stmt_at(ts, w.starts[i], w.starts[i + 1], body[i].node, w.stmts[i]));
        lemma_stmt_bounds(ts, w.starts[i], w.starts[i + 1], body[i].node, w.stmts[i]);
    }
    lemma_rising(w.starts, body.len() as int);
}

proof fn lemma_arm_bounds(ts: Seq<Token>, s: int, e: int, arm: MatchArm, w: ArmWriting)
    requires
        arm_at(ts, s, e, arm, w),
    ensures
        0 <= s < e <= ts.len(),
    decreases w,
{
    lemma_block_bounds(ts, w.arrow + 1, w.block.starts.last() + 1, arm.body@, w.block);
}

/// Positions that rise step by step rise from the first to each.
pub(crate) proof fn lemma_rising(s: Seq<int>, j: int)
    requires
        0 <= j < s.len(),
        forall|i: int| 0 <= i < j ==> #[trigger] s[i] < s[i + 1],
    ensures
        s[0] + j <= s[j],
    decreases j,
{
    if j > 0 {
        lemma_rising(s, j - 1);
        assert(s[j - 1] < s[j]);
    }
}

proof fn lemma_else_if(ts: Seq<Token>, r: int, e: int, v: Seq<Spanned<Statement>>)
    requires
        0 <= r < e <= ts.len(),
        ts[r].kind == TokKind::Keyword(Keyword::Else),
        v.len() == 1,
        v[0].node is If,
        stmt_printed(v[0].node, leaves(ts.subrange(r + 1, e))),
    ensures
        (v.len() == 1 && v[0].node is If && leaves(ts.subrange(r, e)).len() >= 1
            && leaves(ts.subrange(r, e))[0] == Leaf::Kw(Keyword::Else)
            && stmt_printed(v[0].node, leaves(ts.subrange(r, e)).skip(1))),
{
    lemma_leaves_concat(ts, r, r + 1, e);
    lemma_leaves_one(ts, r);
    let el = leaves(ts.subrange(r, e));
    assert(el.skip(1) =~= leaves(ts.subrange(r + 1, e)));
}

proof fn lemma_else_block(ts: Seq<Token>, r: int, e: int, v: Seq<Spanned<Statement>>)
    requires
        0 <= r && r + 3 <= e <= ts.len(),
        ts[r].kind == TokKind::Keyword(Keyword::Else),
        ts[r + 1].kind == TokKind::Sym(Sym::LBrace),
        ts[e - 1].kind == TokKind::Sym(Sym::RBrace),
        block_printed(v, leaves(ts.subrange(r + 2, e - 1))),
    ensures
        ({
            let el = leaves(ts.subrange(r, e));
            el.len() >= 3 && el[0] == Leaf::Kw(Keyword::Else) && el[1] == Leaf::Punct(Sym::LBrace)
                && el.last() == Leaf::Punct(Sym::RBrace) && block_printed(v, el.subrange(2, el.len() - 1))
        }),
{
    lemma_leaves_concat(ts, r, r + 2, e);
    lemma_leaves_concat(ts, r, r + 1, r + 2);
    lemma_leaves_concat(ts, r + 2, e - 1, e);
    lemma_leaves_one(ts, r);
    lemma_leaves_one(ts, r + 1);
    lemma_leaves_one(ts, e - 1);
    let el = leaves(ts.subrange(r, e));
    assert(el =~= seq![Leaf::Kw(Keyword::Else), Leaf::Punct(Sym::LBrace)] + leaves(ts.subrange(r + 2, e - 1))
        + seq![Leaf::Punct(Sym::RBrace)]);
    assert(el.subrange(2, el.len() - 1) =~= leaves(ts.subrange(r + 2, e - 1)));
}

proof fn lemma_if_printed(
    ts: Seq<Token>,
    p: int,
    c: int,
    r: int,
    q: int,
    condition: Spanned<Expr>,
    then_body: Vec<Spanned<Statement>>,
    else_body: Option<Vec<Spanned<Statement>>>,
)
    requires
        0 <= p < c && c + 2 <= r <= q <= ts.len(),
        ts[p].kind == TokKind::Keyword(Keyword::If),
        ts[c].kind == TokKind::Sym(Sym::LBrace),
        ts[r - 1].kind == TokKind::Sym(Sym::RBrace),
        reads_expr(ts, p + 1, c, condition.node),
        block_printed(then_body@, leaves(ts.subrange(c + 1, r - 1))),
        else_printed(else_body, leaves(ts.subrange(r, q))),
    ensures
        stmt_printed(Statement::If { condition, then_body, else_body }, leaves(ts.subrange(p, q))),
{
    let h = seq![Leaf::Kw(Keyword::If)] + expr_leaves(condition.node) + seq![Leaf::Punct(Sym::LBrace)];
    let b = leaves(ts.subrange(c + 1, r - 1));
    let el = leaves(ts.subrange(r, q));
    lemma_leaves_concat(ts, p, r, q);
    lemma_leaves_concat(ts, p, c + 1, r);
    lemma_leaves_concat(ts, p, p + 1, c + 1);
    lemma_leaves_concat(ts, p + 1, c, c + 1);
    lemma_leaves_concat(ts, c + 1, r - 1, r);
    lemma_leaves_one(ts, p);
    lemma_leaves_one(ts, c);
    lemma_leaves_one(ts, r - 1);
    let ls = leaves(ts.subrange(p, q));
    assert(ls =~= h + b + seq![Leaf::Punct(Sym::RBrace)] + el);
    let k: int = (h.len() + b.len()) as int;
    assert(ls.take(h.len() as int) =~= h);
    assert(ls.subrange(h.len() as int, k) =~= b);
    assert(ls.skip(k + 1) =~= el);
    assert(ls[k] == Leaf::Punct(Sym::RBrace));
}

/// A statement: `let`, `if`, `match`, or an assignment. When the tokens at
/// `p` write a statement (see [`stmt_at`]), it is what is read, up to spans
/// (see [`same_stmt`]): `x += e` is a compound assignment with the operator
/// `Add`, and so on.
pub fn parse_statement(toks: &Vec<Token>, p: usize) -> (r: Result<(Spanned<Statement>, usize), ParseError>)
    requires
        p <= toks@.len(),
    ensures
        r matches Err(e) ==> e.problem != ParseProblem::BadCharacter,
        r matches Ok((st, q)) ==> p < q <= toks@.len() && stmt_printed(st.node, leaves(toks@.subrange(p as int, q as int))),
        forall|st2: Statement, q2: int, d2: StmtWriting| #[trigger] stmt_at(toks@, p as int, q2, st2, d2)
            ==> (r matches Ok((st, q)) && q == q2 && same_stmt(st.node, st2)),
    decreases toks@.len() - p, 1int,
{
    let ntoks = toks.len();
    let ghost ts = toks@;
    proof {
        assert forall|st2: Statement, q2: int, d2: StmtWriting| #[trigger] stmt_at(ts, p as int, q2, st2, d2)
            implies p < ts.len() && ((d2 is Line && line_stmt_at(ts, p as int, q2, st2) && ((st2 is Let
                && ts[p as int].kind == TokKind::Keyword(Keyword::Let)) || (is_assignment(st2) && ts[p as int].kind is Ident)))
                || (d2 is If && ts[p as int].kind == TokKind::Keyword(Keyword::If))
                || (d2 is Match && ts[p as int].kind == TokKind::Keyword(Keyword::Match))) by {
            lemma_stmt_bounds(ts, p as int, q2, st2, d2);
        }
    }
    if p >= ntoks {
        return Err(fail(toks, p, ParseProblem::UnexpectedEnd));
    }
    match &toks[p].kind {
        TokKind::Keyword(Keyword::Let) => parse_let(toks, p),
        TokKind::Keyword(Keyword::If) => parse_if(toks, p),
        TokKind::Keyword(Keyword::Match) => parse_match(toks, p),
        TokKind::Ident(_) => parse_assign(toks, p),
        _ => Err(fail(toks, p, ParseProblem::UnexpectedToken)),
    }
}

/// The statements of a block read up to `cur` against a writing of the
/// block: `cur` is where one of its statements starts (or its `}`), and
/// `body` is alike the statements before it.
pub open spec fn block_read_upto(b2: Seq<Spanned<Statement>>, w2: BlockWriting, cur: int, body: Seq<Spanned<Statement>>) -> bool {
    exists|i: int| #![trigger w2.starts[i]] 0 <= i <= b2.len() && w2.starts[i] == cur && same_stmts(body, b2.take(i))
}

/// Inside a written block, a position where no `}` stands and up to which
/// statements were read is where the next statement starts.
proof fn lemma_block_next(
    ts: Seq<Token>,
    p: int,
    q2: int,
    b2: Seq<Spanned<Statement>>,
    w2: BlockWriting,
    cur: int,
    body: Seq<Spanned<Statement>>,
) -> (i: int)
    requires
        block_at(ts, p, q2, b2, w2),
        block_read_upto(b2, w2, cur, body),
        0 <= cur < ts.len(),
        ts[cur].kind != TokKind::Sym(Sym::RBrace),
    ensures
        0 <= i < b2.len(),
        w2.starts[i] == cur,
        same_stmts(body, b2.take(i)),
        stmt_at(ts, cur, w2.starts[i + 1], b2[i].node, w2.stmts[i]),
{
    let i = choose|i: int| #![trigger w2.starts[i]] 0 <= i <= b2.len() && w2.starts[i] == cur && same_stmts(body, b2.take(i));
    assert(i < b2.len());
    assert(w2.stmts[i] == w2.stmts[i]);
    i
}

proof fn lemma_same_stmts_push(body: Seq<Spanned<Statement>>, b2: Seq<Spanned<Statement>>, i: int, st: Spanned<Statement>)
    requires
        0 <= i < b2.len(),
        same_stmts(body, b2.take(i)),
        same_stmt(st.node, b2[i].node),
    ensures
        same_stmts(body.push(st), b2.take(i + 1)),
{
    let a = body.push(st);
    let b = b2.take(i + 1);
    assert forall|k: int| #![trigger a[k]] 0 <= k < a.len() implies same_stmt(a[k].node, b[k].node) by {
        if k < i {
            assert(a[k] == body[k]);
            assert(b[k] == b2.take(i)[k]);
        }
    }
}

/// `{ statements }`; returns the statements and the position after `}`.
/// When the tokens at `p` write a block (see [`block_at`]), its statements
/// are what is read, up to spans (see [`same_stmts`]).
pub fn parse_block(toks: &Vec<Token>, p: usize) -> (r: Result<(Vec<Spanned<Statement>>, usize), ParseError>)
    requires
        p < toks@.len(),
        toks@[p as int].kind == TokKind::Sym(Sym::LBrace),
    ensures
        r matches Err(e) ==> e.problem != ParseProblem::BadCharacter,
        r matches Ok((b, q)) ==> p + 2 <= q <= toks@.len() && toks@[q - 1].kind == TokKind::Sym(Sym::RBrace)
            && block_printed(b@, leaves(toks@.subrange(p + 1, q - 1))),
        forall|b2: Seq<Spanned<Statement>>, q2: int, w2: BlockWriting| #[trigger] block_at(toks@, p as int, q2, b2, w2)
            ==> (r matches Ok((b, q)) && q == q2 && same_stmts(b@, b2)),
    decreases toks@.len() - p, 0int,
{
    let ntoks = toks.len();
    let ghost ts = toks@;
    let mut body: Vec<Spanned<Statement>> = Vec::new();
    let mut cur = p + 1;
    proof {
        assert(leaves(toks@.subrange(p + 1, p + 1)) =~= Seq::<Leaf>::empty());
        assert forall|b2: Seq<Spanned<Statement>>, q2: int, w2: BlockWriting| #[trigger] block_at(ts, p as int, q2, b2, w2)
            implies block_read_upto(b2, w2, cur as int, body@) by {
            assert(b2.take(0) =~= Seq::<Spanned<Statement>>::empty());
            assert(w2.starts[0] == cur);
        }
    }
    while cur < ntoks && !sym_is(toks, cur, Sym::RBrace)
        invariant
            ntoks == toks@.len(),
            ts == toks@,
            p < cur <= ntoks,
            ts[p as int].kind == TokKind::Sym(Sym::LBrace),
            block_printed(body@, leaves(toks@.subrange(p + 1, cur as int))),
            forall|b2: Seq<Spanned<Statement>>, q2: int, w2: BlockWriting| #[trigger] block_at(ts, p as int, q2, b2, w2)
                ==> block_read_upto(b2, w2, cur as int, body@),
        decreases ntoks - cur,
    {
        let res = parse_statement(toks, cur);
        proof {
            assert forall|b2: Seq<Spanned<Statement>>, q2: int, w2: BlockWriting| #[trigger] block_at(ts, p as int, q2, b2, w2)
                implies (res matches Ok((st, q)) && block_read_upto(b2, w2, q as int, body@.push(st))) by {
                let i = lemma_block_next(ts, p as int, q2, b2, w2, cur as int, body@);
                assert(stmt_at(ts, cur as int, w2.starts[i + 1], b2[i].node, w2.stmts[i]));
                let (st, q) = res->Ok_0;
                lemma_same_stmts_push(body@, b2, i, st);
                assert(w2.starts[i + 1] == q);
            }
        }
        let (st, q) = match res {
            Ok(x) => x,
            Err(e) => return Err(e),
        };
        proof {
            lemma_leaves_concat(toks@, p + 1, cur as int, q as int);
            lemma_block_push(body@, st, leaves(toks@.subrange(p + 1, cur as int)), leaves(toks@.subrange(cur as int, q as int)));
        }
        body.push(st);
        cur = q;
    }
    proof {
        assert forall|b2: Seq<Spanned<Statement>>, q2: int, w2: BlockWriting| #[trigger] block_at(ts, p as int, q2, b2, w2)
            implies cur < ntoks && cur + 1 == q2 && same_stmts(body@, b2) by {
            let i = choose|i: int| #![trigger w2.starts[i]] 0 <= i <= b2.len() && w2.starts[i] == cur && same_stmts(body@, b2.take(i));
            lemma_block_bounds(ts, p as int, q2, b2, w2);
            if i < b2.len() {
                assert(w2.starts[i] < ts.len() && starts_stmt(ts[w2.starts[i]].kind));
            }
            assert(b2.take(i) =~= b2);
        }
    }
    if cur >= ntoks {
        return Err(fail(toks, cur, ParseProblem::UnexpectedEnd));
    }
    Ok((body, cur + 1))
}

/// `if cond { ... }`, then maybe `else { ... }` or `else if ...`.
fn parse_if(toks: &Vec<Token>, p: usize) -> (r: Result<(Spanned<Statement>, usize), ParseError>)
    requires
        p < toks@.len(),
        toks@[p as int].kind == TokKind::Keyword(Keyword::If),
    ensures
        r matches Err(e) ==> e.problem != ParseProblem::BadCharacter,
        r matches Ok((st, q)) ==> p < q <= toks@.len() && st.node is If
            && stmt_printed(st.node, leaves(toks@.subrange(p as int, q as int))),
        forall|st2: Statement, q2: int, d2: StmtWriting| #[trigger] stmt_at(toks@, p as int, q2, st2, d2)
            ==> (r matches Ok((st, q)) && q == q2 && same_stmt(st.node, st2)),
    decreases toks@.len() - p, 0int,
{
    let ntoks = toks.len();
    let ghost ts = toks@;
    proof {
        assert forall|st2: Statement, q2: int, d2: StmtWriting| #[trigger] stmt_at(ts, p as int, q2, st2, d2)
            implies d2 is If && st2 is If by {
            lemma_stmt_bounds(ts, p as int, q2, st2, d2);
        }
    }
    let res_c = pratt_parse(toks, p + 1, 0);
    proof {
        assert forall|st2: Statement, q2: int, d2: StmtWriting| #[trigger] stmt_at(ts, p as int, q2, st2, d2)
            implies (res_c matches Ok((e, c)) && c == d2->If_0 && same_shape(e.node, st2->If_condition.node)) by {
            let cd = lemma_expr_at(ts, p + 1, d2->If_0, st2->If_condition.node);
        }
    }
    let (condition, c) = match res_c {
        Ok(x) => x,
        Err(e) => return Err(e),
    };
    if !sym_is(toks, c, Sym::LBrace) {
        return Err(fail(toks, c, ParseProblem::UnexpectedToken));
    }
    let res_b = parse_block(toks, c);
    proof {
        assert forall|st2: Statement, q2: int, d2: StmtWriting| #[trigger] stmt_at(ts, p as int, q2, st2, d2)
            implies (res_b matches Ok((b, r)) && r == d2->If_1.starts.last() + 1 && same_stmts(b@, st2->If_then_body@)) by {
            assert(block_at(ts, c as int, d2->If_1.starts.last() + 1, st2->If_then_body@, d2->If_1));
        }
    }
    let (then_body, r) = match res_b {
        Ok(x) => x,
        Err(e) => return Err(e),
    };
    let mut q = r;
    let mut else_body: Option<Vec<Spanned<Statement>>> = None;
    proof {
        assert(leaves(toks@.subrange(r as int, r as int)) =~= Seq::<Leaf>::empty());
    }
    if kw_is(toks, r, Keyword::Else) {
        proof {
            lemma_leaves_one(toks@, r as int);
        }
        if kw_is(toks, r + 1, Keyword::If) {
            let res_e = parse_if(toks, r + 1);
            proof {
                assert forall|st2: Statement, q2: int, d2: StmtWriting| #[trigger] stmt_at(ts, p as int, q2, st2, d2)
                    implies d2->If_2 is ElseIf && (res_e matches Ok((nested, e)) && e == q2
                        && same_stmt(nested.node, st2->If_else_body->0@[0].node)) by {
                    if d2->If_2 is Braced {
                        assert(block_at(ts, r + 1, q2, st2->If_else_body->0@, d2->If_2->Braced_0));
                        assert(false);
                    }
                    let dd = *(d2->If_2->ElseIf_0);
                    assert(stmt_at(ts, r + 1, q2, st2->If_else_body->0@[0].node, dd));
                }
            }
            let (nested, e) = match res_e {
                Ok(x) => x,
                Err(err) => return Err(err),
            };
            let mut v: Vec<Spanned<Statement>> = Vec::new();
            v.push(nested);
            proof {
                lemma_else_if(toks@, r as int, e as int, v@);
                assert forall|st2: Statement, q2: int, d2: StmtWriting| #[trigger] stmt_at(ts, p as int, q2, st2, d2)
                    implies e == q2 && same_else(Some(v), st2->If_else_body) by {
                    let v2 = st2->If_else_body->0;
                    assert(v2@.len() == 1);
                    assert(v@[0] == nested);
                    assert(same_stmt(v@[0].node, v2@[0].node));
                    assert(same_stmts(v@, v2@));
                }
            }
            else_body = Some(v);
            q = e;
        } else if sym_is(toks, r + 1, Sym::LBrace) {
            let res_e = parse_block(toks, r + 1);
            proof {
                assert forall|st2: Statement, q2: int, d2: StmtWriting| #[trigger] stmt_at(ts, p as int, q2, st2, d2)
                    implies d2->If_2 is Braced && (res_e matches Ok((v, e)) && e == q2
                        && same_stmts(v@, st2->If_else_body->0@)) by {
                    if d2->If_2 is ElseIf {
                        assert(false);
                    }
                    assert(block_at(ts, r + 1, q2, st2->If_else_body->0@, d2->If_2->Braced_0));
                }
            }
            let (v, e) = match res_e {
                Ok(x) => x,
                Err(err) => return Err(err),
            };
            proof {
                lemma_else_block(toks@, r as int, e as int, v@);
                assert forall|st2: Statement, q2: int, d2: StmtWriting| #[trigger] stmt_at(ts, p as int, q2, st2, d2)
                    implies e == q2 && same_else(Some(v), st2->If_else_body) by {
                }
            }
            else_body = Some(v);
            q = e;
        } else {
            proof {
                assert forall|st2: Statement, q2: int, d2: StmtWriting| #[trigger] stmt_at(ts, p as int, q2, st2, d2)
                    implies false by {
                    if d2->If_2 is Braced {
                        assert(block_at(ts, r + 1, q2, st2->If_else_body->0@, d2->If_2->Braced_0));
                    }
                }
            }
            return Err(fail(toks, r + 1, ParseProblem::UnexpectedToken));
        }
    } else {
        proof {
            assert forall|st2: Statement, q2: int, d2: StmtWriting| #[trigger] stmt_at(ts, p as int, q2, st2, d2)
                implies q == q2 && same_else(else_body, st2->If_else_body) by {
                assert(else_at(ts, r as int, q2, st2->If_else_body, d2->If_2));
            }
        }
    }
    proof {
        lemma_if_printed(toks@, p as int, c as int, r as int, q as int, condition, then_body, else_body);
    }
    let sp = span_of(toks, p, q);
    let st = Statement::If { condition, then_body, else_body };
    proof {
        assert forall|st2: Statement, q2: int, d2: StmtWriting| #[trigger] stmt_at(ts, p as int, q2, st2, d2)
            implies q == q2 && same_stmt(st, st2) by {
            assert(same_shape(condition.node, st2->If_condition.node));
            assert(same_stmts(then_body@, st2->If_then_body@));
            assert(same_else(else_body, st2->If_else_body));
        }
    }
    Ok((Spanned::new(st, sp), q))
}

/// The arms of a `match` read up to `cur` against a writing of it: `cur` is
/// where one of its arms starts (or its `}`), and `arms` is alike the arms
/// before it.
pub open spec fn arms_read_upto(a2: Seq<MatchArm>, starts: Seq<int>, cur: int, arms: Seq<MatchArm>) -> bool {
    exists|i: int| #![trigger starts[i]] 0 <= i <= a2.len() && starts[i] == cur && same_arms(arms, a2.take(i))
}

/// Which arm starts at `cur`, when [`arms_read_upto`] holds.
pub open spec fn arm_index(a2: Seq<MatchArm>, starts: Seq<int>, cur: int, arms: Seq<MatchArm>) -> int {
    choose|i: int| #![trigger starts[i]] 0 <= i <= a2.len() && starts[i] == cur && same_arms(arms, a2.take(i))
}

/// A pattern starts with no `}`.
proof fn lemma_pattern_start(ts: Seq<Token>, p: int, q: int, pat: MatchPattern)
    requires
        pattern_at(ts, p, q, pat),
    ensures
        0 <= p < q <= ts.len(),
        ts[p].kind != TokKind::Sym(Sym::RBrace),
{
    if pat is EnumVariant {
        assert(ts[p].kind is Ident);
    }
}

/// Inside a written `match`, a position where no `}` stands and up to which
/// arms were read is where the next arm starts.
proof fn lemma_arm_next(ts: Seq<Token>, p: int, q2: int, st2: Statement, d2: StmtWriting, cur: int, arms: Seq<MatchArm>)
    requires
        stmt_at(ts, p, q2, st2, d2),
        d2 is Match,
        arms_read_upto(st2->Match_arms@, d2->Match_1, cur, arms),
        0 <= cur < ts.len(),
        ts[cur].kind != TokKind::Sym(Sym::RBrace),
    ensures
        ({
            let i = arm_index(st2->Match_arms@, d2->Match_1, cur, arms);
            &&& 0 <= i < st2->Match_arms@.len()
            &&& d2->Match_1[i] == cur
            &&& same_arms(arms, st2->Match_arms@.take(i))
            &&& arm_at(ts, cur, d2->Match_1[i + 1], st2->Match_arms@[i], d2->Match_2[i])
        }),
{
    let a2 = st2->Match_arms@;
    let starts = d2->Match_1;
    let i = arm_index(a2, starts, cur, arms);
    assert(0 <= i <= a2.len() && starts[i] == cur && same_arms(arms, a2.take(i)));
    assert(i < a2.len());
    assert(d2->Match_2[i] == d2->Match_2[i]);
    lemma_pattern_start(ts, cur, d2->Match_2[i].arrow, a2[i].pattern.node);
}

proof fn lemma_same_arms_push(arms: Seq<MatchArm>, a2: Seq<MatchArm>, i: int, arm: MatchArm)
    requires
        0 <= i < a2.len(),
        same_arms(arms, a2.take(i)),
        same_pattern(arm.pattern.node, a2[i].pattern.node),
        same_stmts(arm.body@, a2[i].body@),
    ensures
        same_arms(arms.push(arm), a2.take(i + 1)),
{
    let a = arms.push(arm);
    let b = a2.take(i + 1);
    assert forall|k: int| #![trigger a[k]] 0 <= k < a.len() implies same_pattern(a[k].pattern.node, b[k].pattern.node)
        && same_stmts(a[k].body@, b[k].body@) by {
        if k < i {
            assert(a[k] == arms[k]);
            assert(b[k] == a2.take(i)[k]);
        }
    }
}

/// `match expr { pattern => { ... } ... }`, a comma allowed after each arm.
#[verifier::rlimit(60)]
fn parse_match(toks: &Vec<Token>, p: usize) -> (r: Result<(Spanned<Statement>, usize), ParseError>)
    requires
        p < toks@.len(),
        toks@[p as int].kind == TokKind::Keyword(Keyword::Match),
    ensures
        r matches Err(e) ==> e.problem != ParseProblem::BadCharacter,
        r matches Ok((st, q)) ==> p < q <= toks@.len() && stmt_printed(st.node, leaves(toks@.subrange(p as int, q as int))),
        forall|st2: Statement, q2: int, d2: StmtWriting| #[trigger] stmt_at(toks@, p as int, q2, st2, d2)
            ==> (r matches Ok((st, q)) && q == q2 && same_stmt(st.node, st2)),
    decreases toks@.len() - p, 0int,
{
    let ntoks = toks.len();
    let ghost ts = toks@;
    proof {
        assert forall|st2: Statement, q2: int, d2: StmtWriting| #[trigger] stmt_at(ts, p as int, q2, st2, d2)
            implies d2 is Match && st2 is Match by {
            lemma_stmt_bounds(ts, p as int, q2, st2, d2);
        }
    }
    let res_c = pratt_parse(toks, p + 1, 0);
    proof {
        assert forall|st2: Statement, q2: int, d2: StmtWriting| #[trigger] stmt_at(ts, p as int, q2, st2, d2)
            implies (res_c matches Ok((e, c)) && c == d2->Match_0 && same_shape(e.node, st2->Match_expr.node)) by {
            let cd = lemma_expr_at(ts, p + 1, d2->Match_0, st2->Match_expr.node);
        }
    }
    let (scrutinee, c) = match res_c {
        Ok(x) => x,
        Err(e) => return Err(e),
    };
    if !sym_is(toks, c, Sym::LBrace) {
        return Err(fail(toks, c, ParseProblem::UnexpectedToken));
    }
    let mut arms: Vec<MatchArm> = Vec::new();
    let mut cur = c + 1;
    proof {
        assert(leaves(toks@.subrange(c + 1, c + 1)) =~= Seq::<Leaf>::empty());
        assert forall|st2: Statement, q2: int, d2: StmtWriting| #[trigger] stmt_at(ts, p as int, q2, st2, d2)
            implies arms_read_upto(st2->Match_arms@, d2->Match_1, cur as int, arms@) by {
            assert(st2->Match_arms@.take(0) =~= Seq::<MatchArm>::empty());
            assert(d2->Match_1[0] == cur);
        }
    }
    while cur < ntoks && !sym_is(toks, cur, Sym::RBrace)
        invariant
            ntoks == toks@.len(),
            ts == toks@,
            p < c < cur <= ntoks,
            arms_printed(arms@, leaves(toks@.subrange(c + 1, cur as int))),
            forall|st2: Statement, q2: int, d2: StmtWriting| #[trigger] stmt_at(ts, p as int, q2, st2, d2)
                ==> d2 is Match && st2 is Match && arms_read_upto(st2->Match_arms@, d2->Match_1, cur as int, arms@),
        decreases ntoks - cur,
    {
        let res_p = parse_pattern(toks, cur);
        proof {
            assert forall|st2: Statement, q2: int, d2: StmtWriting| #[trigger] stmt_at(ts, p as int, q2, st2, d2)
                implies (res_p matches Ok((pat, a)) && a == d2->Match_2[arm_index(st2->Match_arms@, d2->Match_1, cur as int, arms@)].arrow) by {
                lemma_arm_next(ts, p as int, q2, st2, d2, cur as int, arms@);
            }
        }
        let (pattern, a) = match res_p {
            Ok(x) => x,
            Err(e) => return Err(e),
        };
        if !sym_is(toks, a, Sym::FatArrow) {
            proof {
                assert forall|st2: Statement, q2: int, d2: StmtWriting| #[trigger] stmt_at(ts, p as int, q2, st2, d2)
                    implies false by {
                    lemma_arm_next(ts, p as int, q2, st2, d2, cur as int, arms@);
                }
            }
            return Err(fail(toks, a, ParseProblem::UnexpectedToken));
        }
        if !sym_is(toks, a + 1, Sym::LBrace) {
            proof {
                assert forall|st2: Statement, q2: int, d2: StmtWriting| #[trigger] stmt_at(ts, p as int, q2, st2, d2)
                    implies false by {
                    lemma_arm_next(ts, p as int, q2, st2, d2, cur as int, arms@);
                }
            }
            return Err(fail(toks, a + 1, ParseProblem::UnexpectedToken));
        }
        let res_b = parse_block(toks, a + 1);
        proof {
            assert forall|st2: Statement, q2: int, d2: StmtWriting| #[trigger] stmt_at(ts, p as int, q2, st2, d2)
                implies (res_b matches Ok((body, b)) && ({
                    let i = arm_index(st2->Match_arms@, d2->Match_1, cur as int, arms@);
                    let aw = d2->Match_2[i];
                    b == aw.block.starts.last() + 1 && same_stmts(body@, st2->Match_arms@[i].body@)
                })) by {
                lemma_arm_next(ts, p as int, q2, st2, d2, cur as int, arms@);
                let i = arm_index(st2->Match_arms@, d2->Match_1, cur as int, arms@);
                let aw = d2->Match_2[i];
                assert(block_at(ts, a + 1, aw.block.starts.last() + 1, st2->Match_arms@[i].body@, aw.block));
            }
        }
        let (body, b) = match res_b {
            Ok(x) => x,
            Err(e) => return Err(e),
        };
        let comma = sym_is(toks, b, Sym::Comma);
        let end = if comma { b + 1 } else { b };
        let arm = MatchArm { pattern, body };
        proof {
            let ts = toks@;
            let h = pattern_leaves(arm.pattern.node) + seq![Leaf::Punct(Sym::FatArrow), Leaf::Punct(Sym::LBrace)];
            let inner = leaves(ts.subrange(a + 2, b - 1));
            lemma_leaves_concat(ts, cur as int, b as int, end as int);
            lemma_leaves_concat(ts, cur as int, a as int, b as int);
            lemma_leaves_concat(ts, a as int, a + 2, b as int);
            lemma_leaves_concat(ts, a as int, a + 1, a + 2);
            lemma_leaves_concat(ts, a + 2, b - 1, b as int);
            lemma_leaves_one(ts, a as int);
            lemma_leaves_one(ts, a + 1);
            lemma_leaves_one(ts, b - 1);
            let al = leaves(ts.subrange(cur as int, end as int));
            if comma {
                lemma_leaves_one(ts, b as int);
                assert(al =~= h + inner + seq![Leaf::Punct(Sym::RBrace), Leaf::Punct(Sym::Comma)]);
                assert(al.subrange(h.len() as int, al.len() - 2) =~= inner);
            } else {
                assert(leaves(ts.subrange(b as int, b as int)) =~= Seq::<Leaf>::empty());
                assert(al =~= h + inner + seq![Leaf::Punct(Sym::RBrace)]);
                assert(al.subrange(h.len() as int, al.len() - 1) =~= inner);
            }
            assert(al.take(h.len() as int) =~= h);
            assert(arm_printed(arm, al));
            lemma_leaves_concat(ts, c + 1, cur as int, end as int);
            lemma_arms_push(arms@, arm, leaves(ts.subrange(c + 1, cur as int)), al);
        }
        proof {
            assert forall|st2: Statement, q2: int, d2: StmtWriting| #[trigger] stmt_at(ts, p as int, q2, st2, d2)
                implies arms_read_upto(st2->Match_arms@, d2->Match_1, end as int, arms@.push(arm)) by {
                lemma_arm_next(ts, p as int, q2, st2, d2, cur as int, arms@);
                let i = arm_index(st2->Match_arms@, d2->Match_1, cur as int, arms@);
                let a2 = st2->Match_arms@;
                assert(same_pattern(pattern.node, a2[i].pattern.node));
                lemma_same_arms_push(arms@, a2, i, arm);
                assert(d2->Match_1[i + 1] == end);
            }
        }
        arms.push(arm);
        cur = end;
    }
    proof {
        assert forall|st2: Statement, q2: int, d2: StmtWriting| #[trigger] stmt_at(ts, p as int, q2, st2, d2)
            implies cur < ntoks && cur + 1 == q2 && same_arms(arms@, st2->Match_arms@) by {
            let a2 = st2->Match_arms@;
            let starts = d2->Match_1;
            let i = arm_index(a2, starts, cur as int, arms@);
            assert(0 <= i <= a2.len() && starts[i] == cur && same_arms(arms@, a2.take(i)));
            if i < a2.len() {
                assert(arm_at(ts, starts[i], starts[i + 1], a2[i], d2->Match_2[i]));
                lemma_arm_bounds(ts, starts[i], starts[i + 1], a2[i], d2->Match_2[i]);
                lemma_pattern_start(ts, cur as int, d2->Match_2[i].arrow, a2[i].pattern.node);
            }
            assert(a2.take(i) =~= a2);
        }
    }
    if cur >= ntoks {
        return Err(fail(toks, cur, ParseProblem::UnexpectedEnd));
    }
    proof {
        let ts = toks@;
        let h = seq![Leaf::Kw(Keyword::Match)] + expr_leaves(scrutinee.node) + seq![Leaf::Punct(Sym::LBrace)];
        let al = leaves(ts.subrange(c + 1, cur as int));
        lemma_leaves_concat(ts, p as int, c + 1, cur + 1);
        lemma_leaves_concat(ts, p as int, p + 1, c + 1);
        lemma_leaves_concat(ts, p + 1, c as int, c + 1);
        lemma_leaves_concat(ts, c + 1, cur as int, cur + 1);
        lemma_leaves_one(ts, p as int);
        lemma_leaves_one(ts, c as int);
        lemma_leaves_one(ts, cur as int);
        let ls = leaves(ts.subrange(p as int, cur + 1));
        assert(ls =~= h + al + seq![Leaf::Punct(Sym::RBrace)]);
        assert(ls.take(h.len() as int) =~= h);
        assert(ls.subrange(h.len() as int, ls.len() - 1) =~= al);
    }
    let sp = span_of(toks, p, cur + 1);
    let st = Statement::Match { expr: scrutinee, arms };
    proof {
        assert forall|st2: Statement, q2: int, d2: StmtWriting| #[trigger] stmt_at(ts, p as int, q2, st2, d2)
            implies same_stmt(st, st2) by {
            assert(same_shape(scrutinee.node, st2->Match_expr.node));
        }
    }
    Ok((Spanned::new(st, sp), cur + 1))
}

} // verus!
