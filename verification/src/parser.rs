//! Reading programs: expressions by precedence climbing over the tokens,
//! statements, transitions, states and the other items by recursive descent.
use vstd::prelude::*;
use crate::ast::{
    Assignment, BinaryOp, CompoundOp, ConstDef, Emit, EnumDef, Expr, Field, FnDef, Import, InitBlock, Invariant, Item,
    MatchArm, MatchPattern, Param, Span, Spanned, StateDef, Statement, Transition, Type, TypeDef, UnaryOp,
};
use crate::cli::{parse_i64, parse_int};
use crate::text::concat3;
pub use crate::statements::{parse_block, parse_statement};
pub use crate::items::{build_program, parse_item, parse_items, parse_source};
use crate::lexer::{Keyword, Sym, TokKind, Token};

verus! {

/// What went wrong while reading a program.
#[derive(Clone, Debug, PartialEq)]
pub enum ParseProblem {
    /// A character that starts no token, or a string that is not closed.
    BadCharacter,
    UnexpectedEnd,
    UnexpectedToken,
    /// An integer literal out of the range of `i64` (or a bad array size).
    InvalidNumber,
    /// An enum with no variants.
    EmptyEnum,
}

/// A problem and the character position where it was found.
#[derive(Clone, Debug, PartialEq)]
pub struct ParseError {
    pub pos: usize,
    pub problem: ParseProblem,
}

/// A token as the expression grammar sees it: names and texts by their
/// characters, integers by their value (an integer out of the range of
/// `i64` by its digits: it stands for no value).
pub enum Leaf {
    Name(Seq<char>),
    IntLeaf(i64),
    BadInt(Seq<char>),
    RealLeaf(Seq<char>),
    StrLeaf(Seq<char>),
    Kw(Keyword),
    Punct(Sym),
}

pub open spec fn tok_leaf(t: TokKind) -> Leaf {
    match t {
        TokKind::Ident(x) => Leaf::Name(x@),
        TokKind::Keyword(k) => Leaf::Kw(k),
        TokKind::Int(x) => match parse_int(x@) {
            Some(v) => Leaf::IntLeaf(v),
            None => Leaf::BadInt(x@),
        },
        TokKind::Real(x) => Leaf::RealLeaf(x@),
        TokKind::Str(x) => Leaf::StrLeaf(x@),
        TokKind::Sym(s) => Leaf::Punct(s),
    }
}

/// Parentheses only group; they leave no trace in the syntax tree.
pub open spec fn is_paren(t: TokKind) -> bool {
    t == TokKind::Sym(Sym::LParen) || t == TokKind::Sym(Sym::RParen)
}

/// The leaves of a run of tokens, parentheses left out.
pub open spec fn leaves(ts: Seq<Token>) -> Seq<Leaf>
    decreases ts.len(),
{
    if ts.len() == 0 {
        Seq::empty()
    } else if is_paren(ts.last().kind) {
        leaves(ts.drop_last())
    } else {
        leaves(ts.drop_last()).push(tok_leaf(ts.last().kind))
    }
}

pub open spec fn binop_sym(op: BinaryOp) -> Sym {
    match op {
        BinaryOp::Add => Sym::Plus,
        BinaryOp::Sub => Sym::Minus,
        BinaryOp::Mul => Sym::Star,
        BinaryOp::Div => Sym::Slash,
        BinaryOp::Mod => Sym::Percent,
        BinaryOp::Eq => Sym::EqEq,
        BinaryOp::Neq => Sym::NotEq,
        BinaryOp::Lt => Sym::Lt,
        BinaryOp::Gt => Sym::Gt,
        BinaryOp::Lte => Sym::Le,
        BinaryOp::Gte => Sym::Ge,
        BinaryOp::And => Sym::AndAnd,
        BinaryOp::Or => Sym::OrOr,
        BinaryOp::Implies => Sym::Implies,
    }
}

/// The leaves an expression is written with, parentheses left out.
pub open spec fn expr_leaves(e: Expr) -> Seq<Leaf>
    decreases e, 0int,
{
    match e {
        Expr::IntLit(v) => seq![Leaf::IntLeaf(v)],
        Expr::RealLit(t) => seq![Leaf::RealLeaf(t@)],
        Expr::BoolLit(b) => seq![Leaf::Kw(if b { Keyword::True } else { Keyword::False })],
        Expr::StringLit(s) => seq![Leaf::StrLeaf(s@)],
        Expr::Ident(n) => seq![Leaf::Name(n@)],
        Expr::UnaryOp { op, operand } => seq![Leaf::Punct(if op == UnaryOp::Neg { Sym::Minus } else { Sym::Bang })]
            + expr_leaves(operand.node),
        Expr::BinaryOp { left, op, right } => expr_leaves(left.node) + seq![Leaf::Punct(binop_sym(op))]
            + expr_leaves(right.node),
        Expr::Old(inner) => seq![Leaf::Kw(Keyword::Old)] + expr_leaves(inner.node),
        Expr::EnumVariant { enum_name, variant } => path_leaves(enum_name@)
            + seq![Leaf::Punct(Sym::PathSep), Leaf::Name(variant@)],
        Expr::FieldAccess { object, field } => expr_leaves(object.node) + seq![
            Leaf::Punct(Sym::Dot),
            Leaf::Name(field.node@),
        ],
        Expr::IndexAccess { object, index } => expr_leaves(object.node) + seq![Leaf::Punct(Sym::LBracket)]
            + expr_leaves(index.node) + seq![Leaf::Punct(Sym::RBracket)],
        Expr::Forall { var, domain, body } => seq![Leaf::Kw(Keyword::Forall), Leaf::Name(var.node@), Leaf::Kw(Keyword::In)]
            + expr_leaves(domain.node) + seq![Leaf::Punct(Sym::Colon)] + expr_leaves(body.node),
        Expr::Exists { var, domain, body } => seq![Leaf::Kw(Keyword::Exists), Leaf::Name(var.node@), Leaf::Kw(Keyword::In)]
            + expr_leaves(domain.node) + seq![Leaf::Punct(Sym::Colon)] + expr_leaves(body.node),
        Expr::FnCall { name, args } => seq![Leaf::Name(name.node@)] + args_leaves(args@),
        Expr::Range { start, end } => expr_leaves(start.node) + seq![Leaf::Punct(Sym::DotDot)] + expr_leaves(end.node),
    }
}

/// The leaves of call arguments: each argument's, with commas between.
pub open spec fn args_leaves(args: Seq<Spanned<Expr>>) -> Seq<Leaf>
    decreases args, 1int,
{
    if args.len() == 0 {
        Seq::empty()
    } else if args.len() == 1 {
        expr_leaves(args[0].node)
    } else {
        args_leaves(args.drop_last()) + seq![Leaf::Punct(Sym::Comma)] + expr_leaves(args.last().node)
    }
}

pub proof fn lemma_leaves_split(ts: Seq<Token>, m: int)
    requires
        0 <= m <= ts.len(),
    ensures
        leaves(ts) == leaves(ts.take(m)) + leaves(ts.skip(m)),
    decreases ts.len(),
{
    if m == ts.len() {
        assert(ts.take(m) =~= ts);
        assert(ts.skip(m) =~= Seq::<Token>::empty());
        assert(leaves(ts) + Seq::<Leaf>::empty() =~= leaves(ts));
    } else {
        lemma_leaves_split(ts.drop_last(), m);
        assert(ts.drop_last().take(m) =~= ts.take(m));
        assert(ts.drop_last().skip(m) =~= ts.skip(m).drop_last());
        assert(ts.skip(m).last() == ts.last());
        if is_paren(ts.last().kind) {
        } else {
            assert(leaves(ts.take(m)) + leaves(ts.skip(m).drop_last()).push(tok_leaf(ts.last().kind))
                =~= (leaves(ts.take(m)) + leaves(ts.skip(m).drop_last())).push(tok_leaf(ts.last().kind)));
        }
    }
}

/// The leaves of tokens `a..b` are those of `a..m` then those of `m..b`.
pub proof fn lemma_leaves_concat(ts: Seq<Token>, a: int, m: int, b: int)
    requires
        0 <= a <= m <= b <= ts.len(),
    ensures
        leaves(ts.subrange(a, b)) == leaves(ts.subrange(a, m)) + leaves(ts.subrange(m, b)),
{
    lemma_leaves_split(ts.subrange(a, b), m - a);
    assert(ts.subrange(a, b).take(m - a) =~= ts.subrange(a, m));
    assert(ts.subrange(a, b).skip(m - a) =~= ts.subrange(m, b));
}

pub proof fn lemma_leaves_one(ts: Seq<Token>, a: int)
    requires
        0 <= a < ts.len(),
    ensures
        leaves(ts.subrange(a, a + 1)) == if is_paren(ts[a].kind) { Seq::<Leaf>::empty() } else { seq![tok_leaf(ts[a].kind)] },
{
    let s = ts.subrange(a, a + 1);
    assert(s.drop_last() =~= Seq::<Token>::empty());
    assert(s.last() == ts[a]);
    assert(leaves(s.drop_last()) == Seq::<Leaf>::empty());
    if !is_paren(ts[a].kind) {
        assert(Seq::<Leaf>::empty().push(tok_leaf(ts[a].kind)) =~= seq![tok_leaf(ts[a].kind)]);
    }
}


/// The binary operator a symbol stands for, if any (the range `..` is none).
pub open spec fn sym_binop(s: Sym) -> Option<BinaryOp> {
    match s {
        Sym::Plus => Some(BinaryOp::Add),
        Sym::Minus => Some(BinaryOp::Sub),
        Sym::Star => Some(BinaryOp::Mul),
        Sym::Slash => Some(BinaryOp::Div),
        Sym::Percent => Some(BinaryOp::Mod),
        Sym::EqEq => Some(BinaryOp::Eq),
        Sym::NotEq => Some(BinaryOp::Neq),
        Sym::Lt => Some(BinaryOp::Lt),
        Sym::Gt => Some(BinaryOp::Gt),
        Sym::Le => Some(BinaryOp::Lte),
        Sym::Ge => Some(BinaryOp::Gte),
        Sym::AndAnd => Some(BinaryOp::And),
        Sym::OrOr => Some(BinaryOp::Or),
        Sym::Implies => Some(BinaryOp::Implies),
        _ => None,
    }
}

pub open spec fn kind_binop(k: TokKind) -> Option<BinaryOp> {
    match k {
        TokKind::Sym(s) => sym_binop(s),
        _ => None,
    }
}

/// How tightly a token binds as an infix operator, loosest first: `..`,
/// `==>`, `||`, `&&`, equality, comparison, `+ -`, `* / %`; 0 for a token
/// that is no infix operator.
pub open spec fn precedence(k: TokKind) -> u8 {
    match k {
        TokKind::Sym(Sym::DotDot) => 1,
        TokKind::Sym(Sym::Implies) => 2,
        TokKind::Sym(Sym::OrOr) => 3,
        TokKind::Sym(Sym::AndAnd) => 4,
        TokKind::Sym(Sym::EqEq) => 5,
        TokKind::Sym(Sym::NotEq) => 5,
        TokKind::Sym(Sym::Lt) => 6,
        TokKind::Sym(Sym::Gt) => 6,
        TokKind::Sym(Sym::Le) => 6,
        TokKind::Sym(Sym::Ge) => 6,
        TokKind::Sym(Sym::Plus) => 7,
        TokKind::Sym(Sym::Minus) => 7,
        TokKind::Sym(Sym::Star) => 8,
        TokKind::Sym(Sym::Slash) => 8,
        TokKind::Sym(Sym::Percent) => 8,
        _ => 0,
    }
}

pub fn op_precedence(kind: &TokKind) -> (r: u8)
    ensures
        r == precedence(*kind),
        r <= 8,
{
    match kind {
        TokKind::Sym(s) => match s {
            Sym::DotDot => 1,
            Sym::Implies => 2,
            Sym::OrOr => 3,
            Sym::AndAnd => 4,
            Sym::EqEq | Sym::NotEq => 5,
            Sym::Lt | Sym::Gt | Sym::Le | Sym::Ge => 6,
            Sym::Plus | Sym::Minus => 7,
            Sym::Star | Sym::Slash | Sym::Percent => 8,
            _ => 0,
        },
        _ => 0,
    }
}

/// Whether a token is an infix operator: a binary operator or the range `..`.
pub fn is_binary_op(kind: &TokKind) -> (r: bool)
    ensures
        r == (precedence(*kind) > 0),
        r == (kind_binop(*kind) is Some || *kind == TokKind::Sym(Sym::DotDot)),
{
    op_precedence(kind) > 0
}

/// The binary operator an operator token stands for.
pub fn rule_to_binop(kind: &TokKind) -> (op: BinaryOp)
    requires
        kind_binop(*kind) is Some,
    ensures
        kind_binop(*kind) == Some(op),
        *kind == TokKind::Sym(binop_sym(op)),
{
    match kind {
        TokKind::Sym(Sym::Plus) => BinaryOp::Add,
        TokKind::Sym(Sym::Minus) => BinaryOp::Sub,
        TokKind::Sym(Sym::Star) => BinaryOp::Mul,
        TokKind::Sym(Sym::Slash) => BinaryOp::Div,
        TokKind::Sym(Sym::Percent) => BinaryOp::Mod,
        TokKind::Sym(Sym::EqEq) => BinaryOp::Eq,
        TokKind::Sym(Sym::NotEq) => BinaryOp::Neq,
        TokKind::Sym(Sym::Lt) => BinaryOp::Lt,
        TokKind::Sym(Sym::Gt) => BinaryOp::Gt,
        TokKind::Sym(Sym::Le) => BinaryOp::Lte,
        TokKind::Sym(Sym::Ge) => BinaryOp::Gte,
        TokKind::Sym(Sym::AndAnd) => BinaryOp::And,
        TokKind::Sym(Sym::OrOr) => BinaryOp::Or,
        _ => BinaryOp::Implies,
    }
}

/// A name without `:` in it.
pub open spec fn no_colon(s: Seq<char>) -> bool {
    forall|i: int| 0 <= i < s.len() ==> s[i] != ':'
}

/// `n` has `::` at `i` and no `:` after it.
pub open spec fn last_sep_at(n: Seq<char>, i: int) -> bool {
    &&& 0 <= i && i + 1 < n.len()
    &&& n[i] == ':' && n[i + 1] == ':'
    &&& no_colon(n.skip(i + 2))
}

/// The leaves of a path name such as `A::B`: its names with `::` between.
pub open spec fn path_leaves(n: Seq<char>) -> Seq<Leaf>
    decreases n.len(),
{
    if exists|i: int| last_sep_at(n, i) {
        let i = choose|i: int| last_sep_at(n, i);
        path_leaves(n.take(i)) + seq![Leaf::Punct(Sym::PathSep), Leaf::Name(n.skip(i + 2))]
    } else {
        seq![Leaf::Name(n)]
    }
}

/// The characters of the name at token `i`.
pub open spec fn name_at(ts: Seq<Token>, i: int) -> Seq<char> {
    match ts[i].kind {
        TokKind::Ident(x) => x@,
        _ => Seq::empty(),
    }
}

/// Tokens `p..q` are names without `:` with `::` between each two.
pub open spec fn path_tokens(ts: Seq<Token>, p: int, q: int) -> bool {
    &&& 0 <= p < q <= ts.len()
    &&& (q - p) % 2 == 1
    &&& forall|i: int| #![trigger ts[i]] p <= i < q ==> if (i - p) % 2 == 0 {
        ts[i].kind is Ident && no_colon(name_at(ts, i))
    } else {
        ts[i].kind == TokKind::Sym(Sym::PathSep)
    }
}

/// The names of tokens `p..k` joined by `::`.
pub open spec fn path_name(ts: Seq<Token>, p: int, k: int) -> Seq<char>
    decreases k - p,
{
    if k <= p + 1 {
        name_at(ts, p)
    } else {
        path_name(ts, p, k - 2) + seq![':', ':'] + name_at(ts, k - 1)
    }
}

/// A path name read back: joining a last name without `:`.
proof fn lemma_path_join(a: Seq<char>, b: Seq<char>)
    requires
        no_colon(b),
    ensures
        path_leaves(a + seq![':', ':'] + b) == path_leaves(a) + seq![Leaf::Punct(Sym::PathSep), Leaf::Name(b)],
{
    let n = a + seq![':', ':'] + b;
    let la = a.len() as int;
    assert(n.skip(la + 2) =~= b);
    assert(n.take(a.len() as int) =~= a);
    assert(last_sep_at(n, a.len() as int));
    assert forall|i: int| last_sep_at(n, i) implies i == a.len() by {
        if i < a.len() {
            let j = a.len() + 1 - (i + 2);
            assert(n.skip(i + 2)[j] == n[la + 1]);
        } else if i > a.len() {
            if i == a.len() + 1 {
                assert(n[i + 1] == b[0]);
            } else {
                assert(n[i] == b[i - a.len() - 2]);
            }
        }
    }
    let i = choose|i: int| last_sep_at(n, i);
    assert(i == a.len());
}

/// A single name without `:` is its own path.
proof fn lemma_path_single(a: Seq<char>)
    requires
        no_colon(a),
    ensures
        path_leaves(a) == seq![Leaf::Name(a)],
{
    assert forall|i: int| !last_sep_at(a, i) by {
        if 0 <= i < a.len() {
            assert(a[i] != ':');
        }
    }
}

/// The leaves of path tokens are the leaves of their joined name.
proof fn lemma_path_tokens_leaves(ts: Seq<Token>, p: int, q: int, k: int)
    requires
        path_tokens(ts, p, q),
        p < k <= q,
        (k - p) % 2 == 1,
    ensures
        leaves(ts.subrange(p, k)) == path_leaves(path_name(ts, p, k)),
    decreases k - p,
{
    assert(ts[p].kind is Ident);
    if k == p + 1 {
        lemma_leaves_one(ts, p);
        lemma_path_single(name_at(ts, p));
    } else {
        assert((k - 2 - p) % 2 == 1);
        lemma_path_tokens_leaves(ts, p, q, k - 2);
        assert(ts[k - 2].kind == TokKind::Sym(Sym::PathSep));
        assert(ts[k - 1].kind is Ident && no_colon(name_at(ts, k - 1)));
        lemma_leaves_concat(ts, p, k - 2, k);
        lemma_leaves_concat(ts, k - 2, k - 1, k);
        lemma_leaves_one(ts, k - 2);
        lemma_leaves_one(ts, k - 1);
        lemma_path_join(path_name(ts, p, k - 2), name_at(ts, k - 1));
        assert(leaves(ts.subrange(k - 2, k)) =~= seq![Leaf::Punct(Sym::PathSep), Leaf::Name(name_at(ts, k - 1))]);
    }
}

/// The leaves of an enum variant written over tokens `p..q`.
proof fn lemma_variant_leaves(ts: Seq<Token>, p: int, q: int)
    requires
        path_tokens(ts, p, q),
        q >= p + 3,
    ensures
        leaves(ts.subrange(p, q)) == path_leaves(path_name(ts, p, q - 2))
            + seq![Leaf::Punct(Sym::PathSep), Leaf::Name(name_at(ts, q - 1))],
{
    lemma_path_tokens_leaves(ts, p, q, q);
    assert(ts[q - 1].kind is Ident && no_colon(name_at(ts, q - 1)));
    assert((q - 2 - p) % 2 == 1);
    lemma_path_join(path_name(ts, p, q - 2), name_at(ts, q - 1));
}

/// Whether a name has no `:` in it.
fn has_no_colon(s: &str) -> (r: bool)
    ensures
        r == no_colon(s@),
{
    let n = s.unicode_len();
    let mut i: usize = 0;
    while i < n
        invariant
            n == s@.len(),
            i <= n,
            forall|j: int| 0 <= j < i ==> s@[j] != ':',
        decreases n - i,
    {
        if s.get_char(i) == ':' {
            return false;
        }
        i = i + 1;
    }
    true
}

/// A path of two or more names at `p`, such as `A::B::C`: the names before
/// the last joined by `::` (the enum) and the last (the variant), read as
/// far as `::` goes on. Every name is without `:`.
fn read_path(toks: &Vec<Token>, p: usize) -> (r: Result<(String, String, usize), ParseError>)
    requires
        p + 1 < toks@.len(),
        toks@[p as int].kind is Ident,
        toks@[p + 1].kind == TokKind::Sym(Sym::PathSep),
    ensures
        r matches Err(e) ==> e.problem != ParseProblem::BadCharacter,
        r matches Ok((en, v, q)) ==> q >= p + 3 && path_tokens(toks@, p as int, q as int)
            && en@ == path_name(toks@, p as int, q - 2) && v@ == name_at(toks@, q - 1)
            && !(q < toks@.len() && toks@[q as int].kind == TokKind::Sym(Sym::PathSep)),
        forall|q2: int| q2 >= p + 3 && #[trigger] path_tokens(toks@, p as int, q2)
            && !(q2 < toks@.len() && toks@[q2].kind == TokKind::Sym(Sym::PathSep))
            ==> (r matches Ok((en, v, q)) && q == q2),
{
    let ghost ts = toks@;
    let ntoks = toks.len();
    let first = match ident_at(toks, p) {
        Some(x) => x,
        None => return Err(fail(toks, p, ParseProblem::UnexpectedToken)),
    };
    let mut en = first;
    let mut last = match ident_at(toks, p + 2) {
        Some(x) => x,
        None => {
            proof {
                assert forall|q2: int| q2 >= p + 3 && #[trigger] path_tokens(ts, p as int, q2) implies false by {
                    assert(ts[p + 2].kind is Ident);
                }
            }
            return Err(fail(toks, p + 2, ParseProblem::UnexpectedToken));
        },
    };
    if !has_no_colon(en.as_str()) || !has_no_colon(last.as_str()) {
        proof {
            assert forall|q2: int| q2 >= p + 3 && #[trigger] path_tokens(ts, p as int, q2) implies false by {
                assert(ts[p as int].kind is Ident && no_colon(name_at(ts, p as int)));
                assert(ts[p + 2].kind is Ident && no_colon(name_at(ts, p + 2)));
            }
        }
        return Err(fail(toks, p, ParseProblem::UnexpectedToken));
    }
    let mut q = p + 3;
    proof {
        assert(path_tokens(ts, p as int, q as int)) by {
            assert forall|i: int| #![trigger ts[i]] p <= i < q implies (if (i - p) % 2 == 0 {
                ts[i].kind is Ident && no_colon(name_at(ts, i))
            } else {
                ts[i].kind == TokKind::Sym(Sym::PathSep)
            }) by {
                if i == p + 1 {
                }
            }
        }
        assert(path_name(ts, p as int, q - 2) == name_at(ts, p as int));
    }
    while sym_is(toks, q, Sym::PathSep)
        invariant
            ts == toks@,
            ntoks == ts.len(),
            p + 3 <= q <= ts.len(),
            path_tokens(ts, p as int, q as int),
            en@ == path_name(ts, p as int, q - 2),
            last@ == name_at(ts, q - 1),
            forall|q2: int| q2 >= p + 3 && #[trigger] path_tokens(ts, p as int, q2)
                && !(q2 < ts.len() && ts[q2].kind == TokKind::Sym(Sym::PathSep)) ==> q <= q2 && (q2 - q) % 2 == 0,
        decreases ts.len() - q,
    {
        let next = match ident_at(toks, q + 1) {
            Some(x) => x,
            None => {
                proof {
                    assert forall|q2: int| q2 >= p + 3 && #[trigger] path_tokens(ts, p as int, q2)
                        && !(q2 < ts.len() && ts[q2].kind == TokKind::Sym(Sym::PathSep)) implies false by {
                        assert(ts[q as int] == ts[q as int]);
                        assert(ts[q + 1] == ts[q + 1]);
                    }
                }
                return Err(fail(toks, q + 1, ParseProblem::UnexpectedToken));
            },
        };
        if !has_no_colon(next.as_str()) {
            proof {
                assert forall|q2: int| q2 >= p + 3 && #[trigger] path_tokens(ts, p as int, q2)
                    && !(q2 < ts.len() && ts[q2].kind == TokKind::Sym(Sym::PathSep)) implies false by {
                    assert(ts[q as int] == ts[q as int]);
                    assert(ts[q + 1] == ts[q + 1]);
                }
            }
            return Err(fail(toks, q + 1, ParseProblem::UnexpectedToken));
        }
        let joined = concat3(en.as_str(), "::", last.as_str());
        proof {
            reveal_strlit("::");
            assert(joined@ == path_name(ts, p as int, q as int));
        }
        en = joined;
        last = next;
        let ghost q0 = q as int;
        q = q + 2;
        proof {
            assert(path_tokens(ts, p as int, q as int)) by {
                assert forall|i: int| #![trigger ts[i]] p <= i < q implies (if (i - p) % 2 == 0 {
                    ts[i].kind is Ident && no_colon(name_at(ts, i))
                } else {
                    ts[i].kind == TokKind::Sym(Sym::PathSep)
                }) by {
                    if i < q0 {
                        assert(ts[i] == ts[i]);
                    }
                }
            }
            assert forall|q2: int| q2 >= p + 3 && #[trigger] path_tokens(ts, p as int, q2)
                && !(q2 < ts.len() && ts[q2].kind == TokKind::Sym(Sym::PathSep)) implies q <= q2 && (q2 - q) % 2 == 0 by {
                assert(ts[q0] == ts[q0]);
            }
        }
    }
    proof {
        assert forall|q2: int| q2 >= p + 3 && #[trigger] path_tokens(ts, p as int, q2)
            && !(q2 < ts.len() && ts[q2].kind == TokKind::Sym(Sym::PathSep)) implies q == q2 by {
            if q < q2 {
                assert(ts[q as int] == ts[q as int]);
            }
        }
    }
    Ok((en, last, q))
}

/// Tokens `p..q` are a reading of the expression `e`.
pub open spec fn reads_expr(toks: Seq<Token>, p: int, q: int, e: Expr) -> bool {
    &&& 0 <= p < q <= toks.len()
    &&& leaves(toks.subrange(p, q)) == expr_leaves(e)
}

/// The leaf of token `i`, a parenthesis too.
pub open spec fn leaf_at(ts: Seq<Token>, i: int) -> Leaf {
    tok_leaf(ts[i].kind)
}

pub open spec fn unop_sym(op: UnaryOp) -> Sym {
    if op == UnaryOp::Neg { Sym::Minus } else { Sym::Bang }
}

/// The precedence of a binary operator.
pub open spec fn binop_prec(op: BinaryOp) -> int {
    precedence(TokKind::Sym(binop_sym(op))) as int
}

/// What may follow an expression whose writing is open: nothing, or a token
/// that is no infix operator.
pub open spec fn closes(ts: Seq<Token>, q: int) -> bool {
    q == ts.len() || precedence(ts[q].kind) == 0
}

/// How tokens write an expression: the positions that split the tokens
/// among its parts, and where parentheses enclose it.
pub enum Deriv {
    /// The expression, in parentheses.
    Paren(Box<Deriv>),
    /// A binary operator at the position.
    Bin(int, Box<Deriv>, Box<Deriv>),
    /// `..` at the position.
    Range(int, Box<Deriv>, Box<Deriv>),
    /// `-` or `!` before an operand.
    Unary(Box<Deriv>),
    /// A literal, an enum variant or a name.
    Atom,
    /// `old ( expr )`.
    Old(Box<Deriv>),
    /// A quantifier, with the position of its `:`.
    Quant(int, Box<Deriv>, Box<Deriv>),
    /// A call, with its arguments.
    Call(Box<Deriv>),
    /// No arguments.
    ArgsNone,
    /// One argument.
    ArgsOne(Box<Deriv>),
    /// The arguments before the comma at the position, then one more.
    ArgsMore(Box<Deriv>, int, Box<Deriv>),
    /// `.field` after a name or an access.
    Field(Box<Deriv>),
    /// `[index]` after a name or an access, the `[` at the position.
    Index(int, Box<Deriv>, Box<Deriv>),
}

/// The precedence of the operator at the top of a writing: that of a
/// binary operator, 1 for `..`, and 9 for an operand.
pub open spec fn wtop(e: Expr, d: Deriv) -> int {
    match d {
        Deriv::Bin(..) => match e {
            Expr::BinaryOp { op, .. } => binop_prec(op),
            _ => 9,
        },
        Deriv::Range(..) => 1,
        _ => 9,
    }
}

/// Whether a writing ends in a quantifier that no parenthesis closes, whose
/// body would take in any operator written after it.
pub open spec fn wopen(e: Expr, d: Deriv) -> bool
    decreases d,
{
    match d {
        Deriv::Quant(..) => true,
        Deriv::Unary(dd) => match e {
            Expr::UnaryOp { operand, .. } => wopen(operand.node, *dd),
            _ => false,
        },
        Deriv::Bin(_, _, dr) => match e {
            Expr::BinaryOp { right, .. } => wopen(right.node, *dr),
            _ => false,
        },
        Deriv::Range(_, _, dr) => match e {
            Expr::Range { end, .. } => wopen(end.node, *dr),
            _ => false,
        },
        _ => false,
    }
}

/// A name, or a name followed by accessors.
pub open spec fn is_path(e: Expr, d: Deriv) -> bool {
    match d {
        Deriv::Atom => e is Ident,
        Deriv::Field(_) => true,
        Deriv::Index(..) => true,
        _ => false,
    }
}

/// Tokens `p..q` write the expression `e` as `d` says, by the grammar of
/// expressions, with no infix operator of precedence below `m` at the top
/// (so that at `m == 9` only an operand is written).
///
/// The left side of an infix operator does not end open (see [`wopen`]) and
/// is either a range or written with an operator of the operator's
/// precedence or above at its top, so that operators of one level group to
/// the left; the right side of a binary operator binds more tightly than
/// the operator; the right side of `..` and what `-` and `!` apply to are
/// operands. Accessors follow only a name or another accessor.
pub open spec fn writes(ts: Seq<Token>, p: int, q: int, e: Expr, m: int, d: Deriv) -> bool
    decreases d,
{
    &&& 0 <= p < q <= ts.len()
    &&& match d {
        Deriv::Paren(inner) => leaf_at(ts, p) == Leaf::Punct(Sym::LParen) && leaf_at(ts, q - 1) == Leaf::Punct(Sym::RParen)
            && writes(ts, p + 1, q - 1, e, 0, *inner),
        Deriv::Bin(k, dl, dr) => match e {
            Expr::BinaryOp { left, op, right } => {
                &&& binop_prec(op) >= m
                &&& p < k < q
                &&& leaf_at(ts, k) == Leaf::Punct(binop_sym(op))
                &&& writes(ts, p, k, left.node, m, *dl)
                &&& !wopen(left.node, *dl)
                &&& wtop(left.node, *dl) == 1 || wtop(left.node, *dl) >= binop_prec(op)
                &&& writes(ts, k + 1, q, right.node, binop_prec(op) + 1, *dr)
            },
            _ => false,
        },
        Deriv::Range(k, dl, dr) => match e {
            Expr::Range { start, end } => {
                &&& m <= 1
                &&& p < k < q
                &&& leaf_at(ts, k) == Leaf::Punct(Sym::DotDot)
                &&& writes(ts, p, k, start.node, m, *dl)
                &&& !wopen(start.node, *dl)
                &&& writes(ts, k + 1, q, end.node, 9, *dr)
            },
            _ => false,
        },
        Deriv::Unary(dd) => match e {
            Expr::UnaryOp { op, operand } => leaf_at(ts, p) == Leaf::Punct(unop_sym(op))
                && writes(ts, p + 1, q, operand.node, 9, *dd),
            _ => false,
        },
        Deriv::Atom => match e {
            Expr::IntLit(v) => q == p + 1 && leaf_at(ts, p) == Leaf::IntLeaf(v),
            Expr::RealLit(x) => q == p + 1 && leaf_at(ts, p) == Leaf::RealLeaf(x@),
            Expr::StringLit(x) => q == p + 1 && leaf_at(ts, p) == Leaf::StrLeaf(x@),
            Expr::BoolLit(b) => q == p + 1 && leaf_at(ts, p) == Leaf::Kw(if b { Keyword::True } else { Keyword::False }),
            Expr::Ident(n) => q == p + 1 && leaf_at(ts, p) == Leaf::Name(n@),
            Expr::EnumVariant { enum_name, variant } => q >= p + 3 && path_tokens(ts, p, q)
                && enum_name@ == path_name(ts, p, q - 2) && variant@ == name_at(ts, q - 1),
            _ => false,
        },
        Deriv::Old(di) => match e {
            Expr::Old(inner) => leaf_at(ts, p) == Leaf::Kw(Keyword::Old) && leaf_at(ts, p + 1) == Leaf::Punct(Sym::LParen)
                && leaf_at(ts, q - 1) == Leaf::Punct(Sym::RParen) && writes(ts, p + 2, q - 1, inner.node, 0, *di),
            _ => false,
        },
        Deriv::Quant(c, dd, db) => match e {
            Expr::Forall { var, domain, body } => leaf_at(ts, p) == Leaf::Kw(Keyword::Forall)
                && leaf_at(ts, p + 1) == Leaf::Name(var.node@) && leaf_at(ts, p + 2) == Leaf::Kw(Keyword::In)
                && leaf_at(ts, c) == Leaf::Punct(Sym::Colon)
                && writes(ts, p + 3, c, domain.node, 0, *dd) && writes(ts, c + 1, q, body.node, 0, *db),
            Expr::Exists { var, domain, body } => leaf_at(ts, p) == Leaf::Kw(Keyword::Exists)
                && leaf_at(ts, p + 1) == Leaf::Name(var.node@) && leaf_at(ts, p + 2) == Leaf::Kw(Keyword::In)
                && leaf_at(ts, c) == Leaf::Punct(Sym::Colon)
                && writes(ts, p + 3, c, domain.node, 0, *dd) && writes(ts, c + 1, q, body.node, 0, *db),
            _ => false,
        },
        Deriv::Call(da) => match e {
            Expr::FnCall { name, args } => p + 2 < q && leaf_at(ts, p) == Leaf::Name(name.node@)
                && leaf_at(ts, p + 1) == Leaf::Punct(Sym::LParen) && leaf_at(ts, q - 1) == Leaf::Punct(Sym::RParen)
                && args_writes(ts, p + 2, q - 1, args@, *da),
            _ => false,
        },
        Deriv::Field(dobj) => match e {
            Expr::FieldAccess { object, field } => p + 2 < q && leaf_at(ts, q - 2) == Leaf::Punct(Sym::Dot)
                && leaf_at(ts, q - 1) == Leaf::Name(field.node@)
                && is_path(object.node, *dobj) && writes(ts, p, q - 2, object.node, 9, *dobj),
            _ => false,
        },
        Deriv::Index(k, dobj, didx) => match e {
            Expr::IndexAccess { object, index } => p < k < q - 1 && leaf_at(ts, k) == Leaf::Punct(Sym::LBracket)
                && leaf_at(ts, q - 1) == Leaf::Punct(Sym::RBracket)
                && is_path(object.node, *dobj) && writes(ts, p, k, object.node, 9, *dobj)
                && writes(ts, k + 1, q - 1, index.node, 0, *didx),
            _ => false,
        },
        _ => false,
    }
}

/// A writing with no infix operator at its top.
pub open spec fn is_operand(d: Deriv) -> bool {
    !(d is Bin) && !(d is Range)
}

/// Tokens `p..q` write `e` by the grammar of expressions (see [`writes`]),
/// with no operator below `m` at the top, and when the writing ends open,
/// no infix operator follows it.
pub open spec fn written(ts: Seq<Token>, p: int, q: int, e: Expr, m: int) -> bool {
    exists|d: Deriv| #[trigger] writes(ts, p, q, e, m, d) && (wopen(e, d) ==> closes(ts, q))
}

/// Tokens `p..q` write `e` as an operand, and when the writing ends open,
/// no infix operator follows it.
pub open spec fn written_operand(ts: Seq<Token>, p: int, q: int, e: Expr) -> bool {
    exists|d: Deriv| #[trigger] writes(ts, p, q, e, 9, d) && is_operand(d) && (wopen(e, d) ==> closes(ts, q))
}

/// Call arguments, each an expression, with commas between.
pub open spec fn args_writes(ts: Seq<Token>, p: int, q: int, args: Seq<Spanned<Expr>>, d: Deriv) -> bool
    decreases d,
{
    match d {
        Deriv::ArgsNone => args.len() == 0 && p == q,
        Deriv::ArgsOne(da) => args.len() == 1 && writes(ts, p, q, args[0].node, 0, *da),
        Deriv::ArgsMore(dprev, k, dl) => args.len() > 1 && p < k < q && leaf_at(ts, k) == Leaf::Punct(Sym::Comma)
            && args_writes(ts, p, k, args.drop_last(), *dprev) && writes(ts, k + 1, q, args.last().node, 0, *dl),
        _ => false,
    }
}

/// Two expressions of the same structure, with the same literals, names and
/// operators, whatever spans they record.
pub open spec fn same_shape(a: Expr, b: Expr) -> bool
    decreases a, 0int,
{
    match a {
        Expr::IntLit(x) => b == Expr::IntLit(x),
        Expr::RealLit(x) => b matches Expr::RealLit(y) && x@ == y@,
        Expr::BoolLit(x) => b == Expr::BoolLit(x),
        Expr::StringLit(x) => b matches Expr::StringLit(y) && x@ == y@,
        Expr::Ident(x) => b matches Expr::Ident(y) && x@ == y@,
        Expr::UnaryOp { op, operand } => b matches Expr::UnaryOp { op: op2, operand: o2 } && op == op2
            && same_shape(operand.node, o2.node),
        Expr::BinaryOp { left, op, right } => b matches Expr::BinaryOp { left: l2, op: op2, right: r2 } && op == op2
            && same_shape(left.node, l2.node) && same_shape(right.node, r2.node),
        Expr::Old(inner) => b matches Expr::Old(i2) && same_shape(inner.node, i2.node),
        Expr::EnumVariant { enum_name, variant } => b matches Expr::EnumVariant { enum_name: n2, variant: v2 }
            && enum_name@ == n2@ && variant@ == v2@,
        Expr::FieldAccess { object, field } => b matches Expr::FieldAccess { object: o2, field: f2 }
            && field.node@ == f2.node@ && same_shape(object.node, o2.node),
        Expr::IndexAccess { object, index } => b matches Expr::IndexAccess { object: o2, index: i2 }
            && same_shape(object.node, o2.node) && same_shape(index.node, i2.node),
        Expr::Forall { var, domain, body } => b matches Expr::Forall { var: v2, domain: d2, body: b2 }
            && var.node@ == v2.node@ && same_shape(domain.node, d2.node) && same_shape(body.node, b2.node),
        Expr::Exists { var, domain, body } => b matches Expr::Exists { var: v2, domain: d2, body: b2 }
            && var.node@ == v2.node@ && same_shape(domain.node, d2.node) && same_shape(body.node, b2.node),
        Expr::FnCall { name, args } => b matches Expr::FnCall { name: n2, args: a2 } && name.node@ == n2.node@
            && same_shapes(args@, a2@),
        Expr::Range { start, end } => b matches Expr::Range { start: s2, end: e2 }
            && same_shape(start.node, s2.node) && same_shape(end.node, e2.node),
    }
}

/// Two runs of expressions, pairwise of the same shape (see [`same_shape`]).
pub open spec fn same_shapes(a: Seq<Spanned<Expr>>, b: Seq<Spanned<Expr>>) -> bool
    decreases a, 1int,
{
    &&& a.len() == b.len()
    &&& a.len() > 0 ==> same_shapes(a.drop_last(), b.drop_last()) && same_shape(a.last().node, b.last().node)
}

/// The token at `q` is no operator at least as tight as `m`.
pub open spec fn stops(ts: Seq<Token>, q: int, m: int) -> bool {
    q == ts.len() || precedence(ts[q].kind) == 0 || (precedence(ts[q].kind) as int) < m
}

/// No token at `q` that would carry an operand on: `.`, `[`, `(` or `::`.
pub open spec fn ends_operand(ts: Seq<Token>, q: int) -> bool {
    q == ts.len() || !(ts[q].kind == TokKind::Sym(Sym::Dot) || ts[q].kind == TokKind::Sym(Sym::LBracket)
        || ts[q].kind == TokKind::Sym(Sym::LParen) || ts[q].kind == TokKind::Sym(Sym::PathSep))
}

/// Tokens `p..q` write `e` as `d` says (see [`writes`]) and nothing at `q`
/// carries the writing on: a writing that ends open is followed by no infix
/// operator, and the token at `q` is neither an operator at least as tight
/// as `m` (see [`stops`]) nor one that would carry an operand on (see
/// [`ends_operand`]).
pub open spec fn complete_writing(ts: Seq<Token>, p: int, q: int, e: Expr, m: int, d: Deriv) -> bool {
    &&& writes(ts, p, q, e, m, d)
    &&& wopen(e, d) ==> closes(ts, q)
    &&& stops(ts, q, m)
    &&& ends_operand(ts, q)
}

/// The left part of a writing (`e` written as `d`, ending at `q`) that ends
/// at `k`: the writing itself, or, through the left sides of its infix
/// operators, one of its left parts.
pub open spec fn spine_at(e: Expr, d: Deriv, q: int, k: int) -> Option<(Expr, Deriv)>
    decreases d,
{
    if k == q {
        Some((e, d))
    } else {
        match d {
            Deriv::Bin(k0, dl, _) => match e {
                Expr::BinaryOp { left, .. } => spine_at(left.node, *dl, k0, k),
                _ => None,
            },
            Deriv::Range(k0, dl, _) => match e {
                Expr::Range { start, .. } => spine_at(start.node, *dl, k0, k),
                _ => None,
            },
            _ => None,
        }
    }
}

/// The left part of a writing whose infix operator stands at `k`, with its
/// end (see [`spine_at`]).
pub open spec fn spine_parent(e: Expr, d: Deriv, q: int, k: int) -> (Expr, Deriv, int)
    decreases d,
{
    match d {
        Deriv::Bin(k0, dl, _) => if k0 == k {
            (e, d, q)
        } else {
            match e {
                Expr::BinaryOp { left, .. } => spine_parent(left.node, *dl, k0, k),
                _ => (e, d, q),
            }
        },
        Deriv::Range(k0, dl, _) => if k0 == k {
            (e, d, q)
        } else {
            match e {
                Expr::Range { start, .. } => spine_parent(start.node, *dl, k0, k),
                _ => (e, d, q),
            }
        },
        _ => (e, d, q),
    }
}

/// Where the leftmost operand of a writing ends.
pub open spec fn spine_bottom(e: Expr, d: Deriv, q: int) -> int
    decreases d,
{
    match d {
        Deriv::Bin(k0, dl, _) => match e {
            Expr::BinaryOp { left, .. } => spine_bottom(left.node, *dl, k0),
            _ => q,
        },
        Deriv::Range(k0, dl, _) => match e {
            Expr::Range { start, .. } => spine_bottom(start.node, *dl, k0),
            _ => q,
        },
        _ => q,
    }
}

/// `y`, written as `dy` up to `qy`, is the infix operator at `k` applied to
/// `x` on its left.
pub open spec fn joins_at(ts: Seq<Token>, k: int, qy: int, x: (Expr, Deriv), y: Expr, dy: Deriv) -> bool {
    match dy {
        Deriv::Bin(k2, dl, dr) => match y {
            Expr::BinaryOp { left, op, right } => k2 == k && *dl == x.1 && left.node == x.0
                && ts[k].kind == TokKind::Sym(binop_sym(op)) && writes(ts, k + 1, qy, right.node, binop_prec(op) + 1, *dr)
                && wopen(y, dy) == wopen(right.node, *dr) && wtop(y, dy) == binop_prec(op),
            _ => false,
        },
        Deriv::Range(k2, dl, dr) => match y {
            Expr::Range { start, end } => k2 == k && *dl == x.1 && start.node == x.0
                && ts[k].kind == TokKind::Sym(Sym::DotDot) && writes(ts, k + 1, qy, end.node, 9, *dr)
                && wopen(y, dy) == wopen(end.node, *dr),
            _ => false,
        },
        _ => false,
    }
}

/// The left parts of a writing: each ends at an infix operator that binds
/// it to what follows, and its parent is that operator's writing.
proof fn lemma_spine(ts: Seq<Token>, p: int, q: int, e: Expr, m: int, d: Deriv, k: int)
    requires
        writes(ts, p, q, e, m, d),
        spine_at(e, d, q, k) is Some,
    ensures
        p < k <= q,
        writes(ts, p, k, (spine_at(e, d, q, k)->0).0, m, (spine_at(e, d, q, k)->0).1),
        k < q ==> {
            let x = spine_at(e, d, q, k)->0;
            let (y, dy, qy) = spine_parent(e, d, q, k);
            &&& !wopen(x.0, x.1)
            &&& 0 < precedence(ts[k].kind) && m <= precedence(ts[k].kind)
            &&& wtop(x.0, x.1) == 1 || wtop(x.0, x.1) >= precedence(ts[k].kind)
            &&& k < qy <= q
            &&& spine_at(e, d, q, qy) == Some((y, dy))
            &&& writes(ts, p, qy, y, m, dy)
            &&& joins_at(ts, k, qy, x, y, dy)
        },
    decreases d,
{
    if k != q {
        match d {
            Deriv::Bin(k0, dl, dr) => match e {
                Expr::BinaryOp { left, op, right } => {
                    lemma_spine(ts, p, k0, left.node, m, *dl, k);
                    lemma_leaf_kind(ts[k0].kind);
                    if k < k0 {
                        let (y, dy, qy) = spine_parent(left.node, *dl, k0, k);
                        assert(qy != q);
                    }
                },
                _ => {},
            },
            Deriv::Range(k0, dl, dr) => match e {
                Expr::Range { start, end } => {
                    lemma_spine(ts, p, k0, start.node, m, *dl, k);
                    lemma_leaf_kind(ts[k0].kind);
                    if k < k0 {
                        let (y, dy, qy) = spine_parent(start.node, *dl, k0, k);
                        assert(qy != q);
                    }
                },
                _ => {},
            },
            _ => {},
        }
    }
}

/// The leftmost operand of a writing is a left part of it, written as an
/// operand.
proof fn lemma_spine_bottom(ts: Seq<Token>, p: int, q: int, e: Expr, m: int, d: Deriv)
    requires
        writes(ts, p, q, e, m, d),
    ensures
        spine_at(e, d, q, spine_bottom(e, d, q)) is Some,
        is_operand((spine_at(e, d, q, spine_bottom(e, d, q))->0).1),
    decreases d,
{
    match d {
        Deriv::Bin(k0, dl, dr) => match e {
            Expr::BinaryOp { left, op, right } => {
                lemma_spine_bottom(ts, p, k0, left.node, m, *dl);
                lemma_spine(ts, p, k0, left.node, m, *dl, spine_bottom(left.node, *dl, k0));
            },
            _ => {},
        },
        Deriv::Range(k0, dl, dr) => match e {
            Expr::Range { start, end } => {
                lemma_spine_bottom(ts, p, k0, start.node, m, *dl);
                lemma_spine(ts, p, k0, start.node, m, *dl, spine_bottom(start.node, *dl, k0));
            },
            _ => {},
        },
        _ => {},
    }
}

/// The name or accessor chain inside a path (`e` written as `d`, ending at
/// `q`) that ends at `k`.
pub open spec fn path_at(e: Expr, d: Deriv, q: int, k: int) -> Option<(Expr, Deriv)>
    decreases d,
{
    if k == q {
        Some((e, d))
    } else {
        match d {
            Deriv::Field(dobj) => match e {
                Expr::FieldAccess { object, .. } => path_at(object.node, *dobj, q - 2, k),
                _ => None,
            },
            Deriv::Index(k0, dobj, _) => match e {
                Expr::IndexAccess { object, .. } => path_at(object.node, *dobj, k0, k),
                _ => None,
            },
            _ => None,
        }
    }
}

/// The part of a path whose last accessor starts at `k`, with its end.
pub open spec fn path_parent(e: Expr, d: Deriv, q: int, k: int) -> (Expr, Deriv, int)
    decreases d,
{
    match d {
        Deriv::Field(dobj) => if q - 2 == k {
            (e, d, q)
        } else {
            match e {
                Expr::FieldAccess { object, .. } => path_parent(object.node, *dobj, q - 2, k),
                _ => (e, d, q),
            }
        },
        Deriv::Index(k0, dobj, _) => if k0 == k {
            (e, d, q)
        } else {
            match e {
                Expr::IndexAccess { object, .. } => path_parent(object.node, *dobj, k0, k),
                _ => (e, d, q),
            }
        },
        _ => (e, d, q),
    }
}

/// `y`, written as `dy` up to `qy`, is the accessor at `k` applied to `x`.
pub open spec fn accesses_at(ts: Seq<Token>, k: int, qy: int, x: (Expr, Deriv), y: Expr, dy: Deriv) -> bool {
    match dy {
        Deriv::Field(dobj) => match y {
            Expr::FieldAccess { object, field } => qy == k + 2 && *dobj == x.1 && object.node == x.0
                && ts[k].kind == TokKind::Sym(Sym::Dot) && leaf_at(ts, k + 1) == Leaf::Name(field.node@),
            _ => false,
        },
        Deriv::Index(k2, dobj, di) => match y {
            Expr::IndexAccess { object, index } => k2 == k && *dobj == x.1 && object.node == x.0
                && ts[k].kind == TokKind::Sym(Sym::LBracket) && ts[qy - 1].kind == TokKind::Sym(Sym::RBracket)
                && writes(ts, k + 1, qy - 1, index.node, 0, *di),
            _ => false,
        },
        _ => false,
    }
}

/// The parts of a path: each is followed by an accessor whose writing is
/// its parent.
proof fn lemma_path(ts: Seq<Token>, p: int, q: int, e: Expr, d: Deriv, k: int)
    requires
        writes(ts, p, q, e, 9, d),
        path_at(e, d, q, k) is Some,
    ensures
        p < k <= q,
        k < q ==> {
            let (y, dy, qy) = path_parent(e, d, q, k);
            &&& k < qy <= q
            &&& path_at(e, d, q, qy) == Some((y, dy))
            &&& accesses_at(ts, k, qy, path_at(e, d, q, k)->0, y, dy)
        },
    decreases d,
{
    if k != q {
        match d {
            Deriv::Field(dobj) => match e {
                Expr::FieldAccess { object, field } => {
                    lemma_path(ts, p, q - 2, object.node, *dobj, k);
                    lemma_leaf_kind(ts[q - 2].kind);
                },
                _ => {},
            },
            Deriv::Index(k0, dobj, di) => match e {
                Expr::IndexAccess { object, index } => {
                    lemma_path(ts, p, k0, object.node, *dobj, k);
                    lemma_leaf_kind(ts[k0].kind);
                    lemma_leaf_kind(ts[q - 1].kind);
                },
                _ => {},
            },
            _ => {},
        }
    }
}

/// A path starts with a name, followed by its first accessor if it has one.
proof fn lemma_path_bottom(ts: Seq<Token>, p: int, q: int, e: Expr, d: Deriv)
    requires
        writes(ts, p, q, e, 9, d),
        is_path(e, d),
    ensures
        path_at(e, d, q, p + 1) is Some,
        (path_at(e, d, q, p + 1)->0).1 == Deriv::Atom,
        (path_at(e, d, q, p + 1)->0).0 is Ident,
        ts[p].kind is Ident && ts[p].kind->Ident_0@ == ((path_at(e, d, q, p + 1)->0).0)->Ident_0@,
        q == p + 1 || ts[p + 1].kind == TokKind::Sym(Sym::Dot) || ts[p + 1].kind == TokKind::Sym(Sym::LBracket),
    decreases d,
{
    match d {
        Deriv::Atom => {
            lemma_leaf_kind(ts[p].kind);
        },
        Deriv::Field(dobj) => match e {
            Expr::FieldAccess { object, field } => {
                lemma_path_bottom(ts, p, q - 2, object.node, *dobj);
                lemma_leaf_kind(ts[q - 2].kind);
            },
            _ => {},
        },
        Deriv::Index(k0, dobj, di) => match e {
            Expr::IndexAccess { object, index } => {
                lemma_path_bottom(ts, p, k0, object.node, *dobj);
                lemma_leaf_kind(ts[k0].kind);
            },
            _ => {},
        },
        _ => {},
    }
}

/// The first arguments of a call, up to the one ending at `k`.
pub open spec fn args_at(args: Seq<Spanned<Expr>>, d: Deriv, b: int, k: int) -> Option<Seq<Spanned<Expr>>>
    decreases d,
{
    if k == b {
        Some(args)
    } else {
        match d {
            Deriv::ArgsMore(dprev, k0, _) => args_at(args.drop_last(), *dprev, k0, k),
            _ => None,
        }
    }
}

/// The first arguments of a call up to the one after the comma at `k`, with
/// their writing and end.
pub open spec fn args_parent(args: Seq<Spanned<Expr>>, d: Deriv, b: int, k: int) -> (Seq<Spanned<Expr>>, Deriv, int)
    decreases d,
{
    match d {
        Deriv::ArgsMore(dprev, k0, _) => if k0 == k {
            (args, d, b)
        } else {
            args_parent(args.drop_last(), *dprev, k0, k)
        },
        _ => (args, d, b),
    }
}

/// Where the first argument of a call ends, and its writing.
pub open spec fn args_first(d: Deriv, b: int) -> (int, Deriv)
    decreases d,
{
    match d {
        Deriv::ArgsMore(dprev, k0, _) => args_first(*dprev, k0),
        Deriv::ArgsOne(da) => (b, *da),
        _ => (b, d),
    }
}

/// `y`, written as `dy` up to `ky`, is `pre` and the argument after the
/// comma at `k`.
pub open spec fn extends_at(ts: Seq<Token>, k: int, ky: int, pre: Seq<Spanned<Expr>>, y: Seq<Spanned<Expr>>, dy: Deriv) -> bool {
    match dy {
        Deriv::ArgsMore(_, k2, dl) => k2 == k && y.len() > 1 && y.drop_last() == pre
            && ts[k].kind == TokKind::Sym(Sym::Comma) && writes(ts, k + 1, ky, y.last().node, 0, *dl),
        _ => false,
    }
}

/// The first argument of a call.
proof fn lemma_args_first(ts: Seq<Token>, a: int, b: int, args: Seq<Spanned<Expr>>, d: Deriv)
    requires
        args_writes(ts, a, b, args, d),
        !(d is ArgsNone),
    ensures
        a < args_first(d, b).0,
        args_first(d, b).0 <= b,
        args.len() >= 1,
        args_at(args, d, b, args_first(d, b).0) == Some(args.take(1)),
        writes(ts, a, args_first(d, b).0, args[0].node, 0, args_first(d, b).1),
    decreases d,
{
    match d {
        Deriv::ArgsMore(dprev, k0, dl) => {
            assert(args_first(d, b) == args_first(*dprev, k0));
            assert(args.drop_last().len() == args.len() - 1);
            assert(args_writes(ts, a, k0, args.drop_last(), *dprev));
            assert(!(*dprev is ArgsNone));
            lemma_args_first(ts, a, k0, args.drop_last(), *dprev);
            assert(args.drop_last().take(1) =~= args.take(1));
        },
        Deriv::ArgsOne(da) => {
            assert(writes(ts, a, b, args[0].node, 0, *da));
            assert(a < b);
            assert(args =~= args.take(1));
        },
        _ => {},
    }
}

/// The arguments of a call, one after another: each first part is followed
/// by a comma and one more argument, up to the last.
proof fn lemma_args(ts: Seq<Token>, a: int, b: int, args: Seq<Spanned<Expr>>, d: Deriv, k: int)
    requires
        args_writes(ts, a, b, args, d),
        args_at(args, d, b, k) is Some,
    ensures
        k <= b,
        k < b ==> {
            let (y, dy, ky) = args_parent(args, d, b, k);
            &&& k < ky <= b
            &&& args_at(args, d, b, ky) == Some(y)
            &&& extends_at(ts, k, ky, args_at(args, d, b, k)->0, y, dy)
        },
    decreases d,
{
    if k != b {
        match d {
            Deriv::ArgsMore(dprev, k0, dl) => {
                lemma_args(ts, a, k0, args.drop_last(), *dprev, k);
                lemma_leaf_kind(ts[k0].kind);
            },
            _ => {},
        }
    }
}

/// The tokens a writing can start with.
pub open spec fn starts_writing(k: TokKind) -> bool {
    ||| k == TokKind::Sym(Sym::LParen) || k == TokKind::Sym(Sym::Minus) || k == TokKind::Sym(Sym::Bang)
    ||| k is Int || k is Real || k is Str || k is Ident
    ||| k == TokKind::Keyword(Keyword::True) || k == TokKind::Keyword(Keyword::False)
    ||| k == TokKind::Keyword(Keyword::Old) || k == TokKind::Keyword(Keyword::Forall) || k == TokKind::Keyword(Keyword::Exists)
}

/// What a writing starts with.
pub(crate) proof fn lemma_first_token(ts: Seq<Token>, p: int, q: int, e: Expr, m: int, d: Deriv)
    requires
        writes(ts, p, q, e, m, d),
    ensures
        starts_writing(ts[p].kind),
    decreases d,
{
    lemma_leaf_kind(ts[p].kind);
    match d {
        Deriv::Bin(k, dl, dr) => match e {
            Expr::BinaryOp { left, .. } => lemma_first_token(ts, p, k, left.node, m, *dl),
            _ => {},
        },
        Deriv::Range(k, dl, dr) => match e {
            Expr::Range { start, .. } => lemma_first_token(ts, p, k, start.node, m, *dl),
            _ => {},
        },
        Deriv::Field(dobj) => match e {
            Expr::FieldAccess { object, .. } => lemma_first_token(ts, p, q - 2, object.node, 9, *dobj),
            _ => {},
        },
        Deriv::Index(k, dobj, _) => match e {
            Expr::IndexAccess { object, .. } => lemma_first_token(ts, p, k, object.node, 9, *dobj),
            _ => {},
        },
        _ => {},
    }
}

/// How an operand's writing starts, by its form.
proof fn lemma_operand_first(ts: Seq<Token>, p: int, q: int, e: Expr, d: Deriv)
    requires
        writes(ts, p, q, e, 9, d),
    ensures
        is_operand(d),
        d is Paren ==> ts[p].kind == TokKind::Sym(Sym::LParen),
        d is Unary ==> ts[p].kind == TokKind::Sym(Sym::Minus) || ts[p].kind == TokKind::Sym(Sym::Bang),
        d is Old ==> ts[p].kind == TokKind::Keyword(Keyword::Old),
        d is Quant ==> (e is Forall && ts[p].kind == TokKind::Keyword(Keyword::Forall))
            || (e is Exists && ts[p].kind == TokKind::Keyword(Keyword::Exists)),
        d is Call ==> ts[p].kind is Ident && p + 1 < ts.len() && ts[p + 1].kind == TokKind::Sym(Sym::LParen),
        (d is Field || d is Index) ==> ts[p].kind is Ident && p + 1 < q
            && (ts[p + 1].kind == TokKind::Sym(Sym::Dot) || ts[p + 1].kind == TokKind::Sym(Sym::LBracket)),
        d is Atom ==> q == p + 1 || q >= p + 3,
        d is Atom && e is IntLit ==> ts[p].kind is Int && parse_int(ts[p].kind->Int_0@) == Some(e->IntLit_0) && q == p + 1,
        d is Atom && e is RealLit ==> ts[p].kind is Real && ts[p].kind->Real_0@ == e->RealLit_0@ && q == p + 1,
        d is Atom && e is StringLit ==> ts[p].kind is Str && ts[p].kind->Str_0@ == e->StringLit_0@ && q == p + 1,
        d is Atom && e is BoolLit ==> ts[p].kind == TokKind::Keyword(if e->BoolLit_0 { Keyword::True } else { Keyword::False }) && q == p + 1,
        d is Atom && e is Ident ==> ts[p].kind is Ident && ts[p].kind->Ident_0@ == e->Ident_0@ && q == p + 1,
        d is Atom && e is EnumVariant ==> ts[p].kind is Ident && q >= p + 3 && path_tokens(ts, p, q)
            && e->enum_name@ == path_name(ts, p, q - 2) && e->variant@ == name_at(ts, q - 1)
            && ts[p + 1].kind == TokKind::Sym(Sym::PathSep),
        d is Atom ==> e is IntLit || e is RealLit || e is StringLit || e is BoolLit || e is Ident || e is EnumVariant,
{
    lemma_leaf_kind(ts[p].kind);
    if d is Call {
        lemma_leaf_kind(ts[p + 1].kind);
    }
    if d is Field || d is Index {
        lemma_path_bottom(ts, p, q, e, d);
    }
    if d is Atom && e is EnumVariant {
        assert(ts[p] == ts[p]);
        assert(ts[p + 1] == ts[p + 1]);
    }
}

/// The binary operators are told apart by their symbols, which bind at
/// levels 2 to 8.
proof fn lemma_binop_sym(a: BinaryOp, b: BinaryOp)
    ensures
        binop_sym(a) == binop_sym(b) ==> a == b,
        2 <= binop_prec(a) <= 8,
        binop_sym(a) != Sym::DotDot,
{
}

/// An inner writing followed by a token that no operator is, and that
/// carries no operand on, is complete there.
proof fn lemma_closed_inner(ts: Seq<Token>, a: int, b: int, e: Expr, d: Deriv)
    requires
        writes(ts, a, b, e, 0, d),
        b < ts.len(),
        ts[b].kind == TokKind::Sym(Sym::RParen) || ts[b].kind == TokKind::Sym(Sym::RBracket)
            || ts[b].kind == TokKind::Sym(Sym::Comma) || ts[b].kind == TokKind::Sym(Sym::Colon),
    ensures
        complete_writing(ts, a, b, e, 0, d),
{
}

/// A writing covers at least one token.
pub(crate) proof fn lemma_writes_bounds(ts: Seq<Token>, p: int, q: int, e: Expr, m: int, d: Deriv)
    requires
        writes(ts, p, q, e, m, d),
    ensures
        0 <= p < q <= ts.len(),
{
}

/// What kind of token has a given leaf.
pub(crate) proof fn lemma_leaf_kind(k: TokKind)
    ensures
        tok_leaf(k) is Punct ==> k == TokKind::Sym(tok_leaf(k)->Punct_0),
        tok_leaf(k) is Kw ==> k == TokKind::Keyword(tok_leaf(k)->Kw_0),
        tok_leaf(k) is Name ==> k is Ident && k->Ident_0@ == tok_leaf(k)->Name_0,
        tok_leaf(k) is IntLeaf ==> k is Int && parse_int(k->Int_0@) == Some(tok_leaf(k)->IntLeaf_0),
        tok_leaf(k) is RealLeaf ==> k is Real && k->Real_0@ == tok_leaf(k)->RealLeaf_0,
        tok_leaf(k) is StrLeaf ==> k is Str && k->Str_0@ == tok_leaf(k)->StrLeaf_0,
{
}

/// Where an error at token `p` is reported: the token's first character, or
/// the end of the last token when the tokens ran out (0 when there are none).
fn pos_at(toks: &Vec<Token>, p: usize) -> (r: usize)
    ensures
        r == if p < toks@.len() {
            toks@[p as int].span.start
        } else if toks@.len() > 0 {
            toks@[toks@.len() - 1].span.end
        } else {
            0
        },
{
    if p < toks.len() {
        toks[p].span.start
    } else if toks.len() > 0 {
        toks[toks.len() - 1].span.end
    } else {
        0
    }
}

pub(crate) fn fail(toks: &Vec<Token>, p: usize, problem: ParseProblem) -> (e: ParseError)
    ensures
        e.problem == problem,
{
    ParseError { pos: pos_at(toks, p), problem }
}

pub(crate) fn sym_is(toks: &Vec<Token>, p: usize, s: Sym) -> (r: bool)
    ensures
        r == (p < toks@.len() && toks@[p as int].kind == TokKind::Sym(s)),
{
    if p < toks.len() {
        match &toks[p].kind {
            TokKind::Sym(x) => *x == s,
            _ => false,
        }
    } else {
        false
    }
}

pub(crate) fn kw_is(toks: &Vec<Token>, p: usize, k: Keyword) -> (r: bool)
    ensures
        r == (p < toks@.len() && toks@[p as int].kind == TokKind::Keyword(k)),
{
    if p < toks.len() {
        match &toks[p].kind {
            TokKind::Keyword(x) => *x == k,
            _ => false,
        }
    } else {
        false
    }
}

/// The name at token `p`, if that token is a name.
pub(crate) fn ident_at(toks: &Vec<Token>, p: usize) -> (r: Option<String>)
    ensures
        r matches Some(x) ==> p < toks@.len() && toks@[p as int].kind == TokKind::Ident(x),
        r is None ==> !(p < toks@.len() && toks@[p as int].kind is Ident),
{
    if p < toks.len() {
        match &toks[p].kind {
            TokKind::Ident(x) => Some(x.clone()),
            _ => None,
        }
    } else {
        None
    }
}


/// One operand with its infix operators, by precedence climbing: operators
/// that bind at least as tightly as `min_prec` are taken, and each binary
/// operator's right side only takes operators that bind more tightly, so
/// operators of one level group to the left. The right side of `..` is a
/// single operand. What is read is a writing of the expression by the
/// grammar of [`writes`], and it stops before a token that is no operator
/// or an operator looser than `min_prec`. When the tokens from `p` hold a
/// complete writing (see [`complete_writing`]), that writing is what is
/// read, up to spans (see [`same_shape`]).
#[verifier::rlimit(40)]
pub fn pratt_parse(toks: &Vec<Token>, p: usize, min_prec: u8) -> (r: Result<(Spanned<Expr>, usize), ParseError>)
    requires
        p <= toks@.len(),
    ensures
        r matches Err(e) ==> e.problem != ParseProblem::BadCharacter,
        r matches Ok((e, q)) ==> reads_expr(toks@, p as int, q as int, e.node),
        r matches Ok((e, q)) ==> written(toks@, p as int, q as int, e.node, min_prec as int),
        r matches Ok((e, q)) ==> closes(toks@, q as int) || precedence(toks@[q as int].kind) < min_prec,
        forall|e2: Expr, q2: int, d2: Deriv| #[trigger] complete_writing(toks@, p as int, q2, e2, min_prec as int, d2)
            ==> (r matches Ok((e, q)) && q == q2 && same_shape(e.node, e2)),
    decreases toks@.len() - p, 3int,
{
    let ghost ts = toks@;
    let ghost m = min_prec as int;
    let res0 = parse_unary_expr(toks, p);
    proof {
        assert forall|e2: Expr, q2: int, d2: Deriv| #[trigger] complete_writing(ts, p as int, q2, e2, m, d2)
            implies spine_read(e2, d2, q2, res0) by {
            lemma_spine_bottom(ts, p as int, q2, e2, m, d2);
            let b = spine_bottom(e2, d2, q2);
            lemma_spine(ts, p as int, q2, e2, m, d2, b);
            let x = spine_at(e2, d2, q2, b)->0;
            assert(writes(ts, p as int, b, x.0, 9, x.1));
            if b < q2 {
                lemma_prec_kind(ts[b].kind);
            }
            lemma_prec_kind(ts[b].kind);
            assert(complete_writing(ts, p as int, b, x.0, 9, x.1));
        }
    }
    let (mut left, mut cur) = match res0 {
        Ok(x) => x,
        Err(e) => return Err(e),
    };
    let ghost mut dl: Deriv = choose|d: Deriv| #[trigger] writes(toks@, p as int, cur as int, left.node, 9, d)
        && is_operand(d) && (wopen(left.node, d) ==> closes(toks@, cur as int));
    proof {
        assert(writes(toks@, p as int, cur as int, left.node, min_prec as int, dl));
    }
    let mut stop = false;
    while !stop && cur < toks.len()
        invariant
            ts == toks@,
            m == min_prec as int,
            p < cur <= toks@.len(),
            reads_expr(toks@, p as int, cur as int, left.node),
            writes(toks@, p as int, cur as int, left.node, min_prec as int, dl),
            wopen(left.node, dl) ==> closes(toks@, cur as int),
            cur < toks@.len() && precedence(toks@[cur as int].kind) > 0
                ==> wtop(left.node, dl) == 1 || wtop(left.node, dl) >= precedence(toks@[cur as int].kind),
            stop ==> cur < toks@.len() && (precedence(toks@[cur as int].kind) == 0 || precedence(toks@[cur as int].kind) < min_prec),
            forall|e2: Expr, q2: int, d2: Deriv| #[trigger] complete_writing(ts, p as int, q2, e2, m, d2)
                ==> spine_at(e2, d2, q2, cur as int) is Some && same_shape(left.node, (spine_at(e2, d2, q2, cur as int)->0).0),
        decreases toks@.len() - cur, if stop { 0int } else { 1int },
    {
        let kind = &toks[cur].kind;
        let prec = op_precedence(kind);
        if prec == 0 || prec < min_prec {
            stop = true;
        } else if prec == 1 {
            let res = parse_unary_expr(toks, cur + 1);
            proof {
                assert forall|e2: Expr, q2: int, d2: Deriv| #[trigger] complete_writing(ts, p as int, q2, e2, m, d2)
                    implies range_step(e2, d2, q2, cur as int, res) by {
                    lemma_spine(ts, p as int, q2, e2, m, d2, cur as int);
                    let (y, dy, qy) = spine_parent(e2, d2, q2, cur as int);
                    if dy is Bin {
                        lemma_binop_sym(y->BinaryOp_op, y->BinaryOp_op);
                    }
                    if qy < q2 {
                        lemma_spine(ts, p as int, q2, e2, m, d2, qy);
                        lemma_prec_kind(ts[qy].kind);
                    }
                    let end = y->Range_end;
                    lemma_prec_kind(ts[qy].kind);
                    assert(complete_writing(ts, cur + 1, qy, end.node, 9, *dy->Range_2));
                }
            }
            let (right, end) = match res {
                Ok(x) => x,
                Err(e) => return Err(e),
            };
            proof {
                lemma_leaves_concat(toks@, p as int, cur as int, end as int);
                lemma_leaves_concat(toks@, cur as int, cur + 1, end as int);
                lemma_leaves_one(toks@, cur as int);
                assert(leaves(toks@.subrange(p as int, end as int)) =~= expr_leaves(left.node)
                    + seq![Leaf::Punct(Sym::DotDot)] + expr_leaves(right.node));
            }
            let ghost ls = left;
            let ghost rs = right;
            let ghost k = cur as int;
            let sp = left.span.merge(right.span);
            left = Spanned::new(Expr::Range { start: Box::new(left), end: Box::new(right) }, sp);
            cur = end;
            proof {
                let dr = choose|d: Deriv| #[trigger] writes(toks@, k + 1, end as int, rs.node, 9, d)
                    && is_operand(d) && (wopen(rs.node, d) ==> closes(toks@, end as int));
                assert(toks@[k].kind == TokKind::Sym(Sym::DotDot));
                assert(!wopen(ls.node, dl));
                let d2 = Deriv::Range(k, Box::new(dl), Box::new(dr));
                assert(writes(toks@, p as int, end as int, left.node, min_prec as int, d2));
                dl = d2;
                assert forall|e2: Expr, q2: int, d2: Deriv| #[trigger] complete_writing(ts, p as int, q2, e2, m, d2)
                    implies spine_at(e2, d2, q2, cur as int) is Some && same_shape(left.node, (spine_at(e2, d2, q2, cur as int)->0).0) by {
                    lemma_spine(ts, p as int, q2, e2, m, d2, k);
                }
            }
        } else {
            let op = rule_to_binop(kind);
            let res = pratt_parse(toks, cur + 1, prec + 1);
            proof {
                assert forall|e2: Expr, q2: int, d2: Deriv| #[trigger] complete_writing(ts, p as int, q2, e2, m, d2)
                    implies bin_step(e2, d2, q2, cur as int, op, res) by {
                    lemma_spine(ts, p as int, q2, e2, m, d2, cur as int);
                    let (y, dy, qy) = spine_parent(e2, d2, q2, cur as int);
                    if dy is Bin {
                        lemma_binop_sym(op, y->BinaryOp_op);
                    }
                    if qy < q2 {
                        lemma_spine(ts, p as int, q2, e2, m, d2, qy);
                    }
                    lemma_prec_kind(ts[qy].kind);
                    let r2 = y->BinaryOp_right;
                    assert(complete_writing(ts, cur + 1, qy, r2.node, prec + 1, *dy->Bin_2));
                }
            }
            let (right, end) = match res {
                Ok(x) => x,
                Err(e) => return Err(e),
            };
            proof {
                lemma_leaves_concat(toks@, p as int, cur as int, end as int);
                lemma_leaves_concat(toks@, cur as int, cur + 1, end as int);
                lemma_leaves_one(toks@, cur as int);
                assert(leaves(toks@.subrange(p as int, end as int)) =~= expr_leaves(left.node)
                    + seq![Leaf::Punct(binop_sym(op))] + expr_leaves(right.node));
            }
            let ghost ls = left;
            let ghost rs = right;
            let ghost k = cur as int;
            let sp = left.span.merge(right.span);
            left = Spanned::new(Expr::BinaryOp { left: Box::new(left), op, right: Box::new(right) }, sp);
            cur = end;
            proof {
                let dr = choose|d: Deriv| #[trigger] writes(toks@, k + 1, end as int, rs.node, prec + 1, d)
                    && (wopen(rs.node, d) ==> closes(toks@, end as int));
                assert(binop_prec(op) == prec);
                assert(!wopen(ls.node, dl));
                assert(writes(toks@, k + 1, end as int, rs.node, binop_prec(op) + 1, dr));
                let d2 = Deriv::Bin(k, Box::new(dl), Box::new(dr));
                assert(writes(toks@, p as int, end as int, left.node, min_prec as int, d2));
                assert(wtop(left.node, d2) == prec);
                dl = d2;
                assert forall|e2: Expr, q2: int, d2: Deriv| #[trigger] complete_writing(ts, p as int, q2, e2, m, d2)
                    implies spine_at(e2, d2, q2, cur as int) is Some && same_shape(left.node, (spine_at(e2, d2, q2, cur as int)->0).0) by {
                    lemma_spine(ts, p as int, q2, e2, m, d2, k);
                }
            }
        }
    }
    proof {
        assert(writes(toks@, p as int, cur as int, left.node, min_prec as int, dl) && (wopen(left.node, dl) ==> closes(toks@, cur as int)));
        assert(written(toks@, p as int, cur as int, left.node, min_prec as int));
        assert forall|e2: Expr, q2: int, d2: Deriv| #[trigger] complete_writing(ts, p as int, q2, e2, m, d2)
            implies cur == q2 && same_shape(left.node, e2) by {
            lemma_spine(ts, p as int, q2, e2, m, d2, cur as int);
        }
    }
    Ok((left, cur))
}

/// Which tokens bind at a level above 0: none of those that carry an operand on.
proof fn lemma_prec_kind(k: TokKind)
    ensures
        precedence(k) <= 8,
        precedence(k) > 0 ==> !(k == TokKind::Sym(Sym::Dot) || k == TokKind::Sym(Sym::LBracket)
            || k == TokKind::Sym(Sym::LParen) || k == TokKind::Sym(Sym::PathSep)),
{
}

/// The leftmost operand of a complete writing is what was read first.
pub open spec fn spine_read(e: Expr, d: Deriv, q: int, res: Result<(Spanned<Expr>, usize), ParseError>) -> bool {
    res matches Ok((u, qu)) && spine_at(e, d, q, qu as int) is Some && same_shape(u.node, (spine_at(e, d, q, qu as int)->0).0)
}

/// For a complete writing whose left part ending at `k` is followed by
/// `..`: how the operand after it is read.
pub open spec fn range_step(e: Expr, d: Deriv, q: int, k: int, res: Result<(Spanned<Expr>, usize), ParseError>) -> bool {
    let (y, dy, qy) = spine_parent(e, d, q, k);
    &&& spine_at(e, d, q, qy) == Some((y, dy))
    &&& match y {
        Expr::Range { start, end } => start.node == (spine_at(e, d, q, k)->0).0
            && (res matches Ok((o, qo)) && qo == qy && same_shape(o.node, end.node)),
        _ => false,
    }
}

/// For a complete writing whose left part ending at `k` is followed by the
/// binary operator `op`: how its right side is read.
pub open spec fn bin_step(e: Expr, d: Deriv, q: int, k: int, op: BinaryOp, res: Result<(Spanned<Expr>, usize), ParseError>) -> bool {
    let (y, dy, qy) = spine_parent(e, d, q, k);
    &&& spine_at(e, d, q, qy) == Some((y, dy))
    &&& match y {
        Expr::BinaryOp { left, op: op2, right } => left.node == (spine_at(e, d, q, k)->0).0 && op2 == op
            && (res matches Ok((o, qo)) && qo == qy && same_shape(o.node, right.node)),
        _ => false,
    }
}

/// An operand: `-` or `!` before an operand, or a primary expression.
pub fn parse_unary_expr(toks: &Vec<Token>, p: usize) -> (r: Result<(Spanned<Expr>, usize), ParseError>)
    requires
        p <= toks@.len(),
    ensures
        r matches Err(e) ==> e.problem != ParseProblem::BadCharacter,
        r matches Ok((e, q)) ==> reads_expr(toks@, p as int, q as int, e.node),
        r matches Ok((e, q)) ==> written_operand(toks@, p as int, q as int, e.node),
        forall|e2: Expr, q2: int, d2: Deriv| #[trigger] complete_writing(toks@, p as int, q2, e2, 9, d2)
            ==> (r matches Ok((e, q)) && q == q2 && same_shape(e.node, e2)),
    decreases toks@.len() - p, 2int,
{
    let ntoks = toks.len();
    let ghost ts = toks@;
    let neg = sym_is(toks, p, Sym::Minus);
    if neg || sym_is(toks, p, Sym::Bang) {
        let op = if neg { UnaryOp::Neg } else { UnaryOp::Not };
        let res = parse_unary_expr(toks, p + 1);
        proof {
            assert forall|e2: Expr, q2: int, d2: Deriv| #[trigger] complete_writing(ts, p as int, q2, e2, 9, d2)
                implies unary_step(e2, q2, op, res) by {
                lemma_operand_first(ts, p as int, q2, e2, d2);
                lemma_leaf_kind(ts[p as int].kind);
                let operand = e2->operand;
                assert(complete_writing(ts, p + 1, q2, operand.node, 9, *d2->Unary_0));
            }
        }
        let (operand, q) = match res {
            Ok(x) => x,
            Err(e) => return Err(e),
        };
        proof {
            lemma_leaves_concat(toks@, p as int, p + 1, q as int);
            lemma_leaves_one(toks@, p as int);
        }
        let ghost os = operand;
        let sp = toks[p].span.merge(operand.span);
        let e = Spanned::new(Expr::UnaryOp { op, operand: Box::new(operand) }, sp);
        proof {
            let dd = choose|d: Deriv| #[trigger] writes(toks@, p + 1, q as int, os.node, 9, d) && is_operand(d)
                && (wopen(os.node, d) ==> closes(toks@, q as int));
            assert(leaf_at(toks@, p as int) == Leaf::Punct(unop_sym(op)));
            let d0 = Deriv::Unary(Box::new(dd));
            assert(wopen(e.node, d0) == wopen(os.node, dd));
            assert(writes(toks@, p as int, q as int, e.node, 9, d0) && is_operand(d0) && (wopen(e.node, d0) ==> closes(toks@, q as int)));
            assert(written_operand(toks@, p as int, q as int, e.node));
        }
        Ok((e, q))
    } else {
        proof {
            assert forall|e2: Expr, q2: int, d2: Deriv| #[trigger] complete_writing(ts, p as int, q2, e2, 9, d2)
                implies !(d2 is Unary) by {
                lemma_operand_first(ts, p as int, q2, e2, d2);
            }
        }
        parse_primary(toks, p)
    }
}

/// For a complete writing of `op` applied to an operand: how the operand
/// is read.
pub open spec fn unary_step(e: Expr, q: int, op: UnaryOp, res: Result<(Spanned<Expr>, usize), ParseError>) -> bool {
    match e {
        Expr::UnaryOp { op: op2, operand } => op2 == op && (res matches Ok((o, qo)) && qo == q
            && same_shape(o.node, operand.node)),
        _ => false,
    }
}

/// A literal, a name with its accessors, a call, an enum variant, `old(..)`,
/// a quantifier, or an expression in parentheses.
pub fn parse_primary(toks: &Vec<Token>, p: usize) -> (r: Result<(Spanned<Expr>, usize), ParseError>)
    requires
        p <= toks@.len(),
    ensures
        r matches Err(e) ==> e.problem != ParseProblem::BadCharacter,
        r matches Ok((e, q)) ==> reads_expr(toks@, p as int, q as int, e.node),
        r matches Ok((e, q)) ==> written_operand(toks@, p as int, q as int, e.node),
        forall|e2: Expr, q2: int, d2: Deriv| #[trigger] complete_writing(toks@, p as int, q2, e2, 9, d2) && !(d2 is Unary)
            ==> (r matches Ok((e, q)) && q == q2 && same_shape(e.node, e2)),
    decreases toks@.len() - p, 1int,
{
    let ghost ts = toks@;
    if p >= toks.len() {
        return Err(fail(toks, p, ParseProblem::UnexpectedEnd));
    }
    let sp = toks[p].span;
    proof {
        lemma_leaves_one(toks@, p as int);
    }
    let atom = match &toks[p].kind {
        TokKind::Int(x) => match parse_i64(x.as_str()) {
            Some(v) => Expr::IntLit(v),
            None => {
                proof {
                    assert forall|e2: Expr, q2: int, d2: Deriv| #[trigger] complete_writing(ts, p as int, q2, e2, 9, d2)
                        && !(d2 is Unary) implies false by {
                        lemma_operand_first(ts, p as int, q2, e2, d2);
                    }
                }
                return Err(fail(toks, p, ParseProblem::InvalidNumber));
            },
        },
        TokKind::Real(x) => Expr::RealLit(x.clone()),
        TokKind::Str(x) => Expr::StringLit(x.clone()),
        TokKind::Keyword(Keyword::True) => Expr::BoolLit(true),
        TokKind::Keyword(Keyword::False) => Expr::BoolLit(false),
        TokKind::Keyword(Keyword::Old) => {
            proof {
                assert forall|e2: Expr, q2: int, d2: Deriv| #[trigger] complete_writing(ts, p as int, q2, e2, 9, d2)
                    && !(d2 is Unary) implies d2 is Old by {
                    lemma_operand_first(ts, p as int, q2, e2, d2);
                }
            }
            return parse_old(toks, p);
        },
        TokKind::Keyword(Keyword::Forall) => {
            proof {
                assert forall|e2: Expr, q2: int, d2: Deriv| #[trigger] complete_writing(ts, p as int, q2, e2, 9, d2)
                    && !(d2 is Unary) implies d2 is Quant by {
                    lemma_operand_first(ts, p as int, q2, e2, d2);
                }
            }
            return parse_quantifier(toks, p, true);
        },
        TokKind::Keyword(Keyword::Exists) => {
            proof {
                assert forall|e2: Expr, q2: int, d2: Deriv| #[trigger] complete_writing(ts, p as int, q2, e2, 9, d2)
                    && !(d2 is Unary) implies d2 is Quant by {
                    lemma_operand_first(ts, p as int, q2, e2, d2);
                }
            }
            return parse_quantifier(toks, p, false);
        },
        TokKind::Sym(Sym::LParen) => {
            proof {
                assert forall|e2: Expr, q2: int, d2: Deriv| #[trigger] complete_writing(ts, p as int, q2, e2, 9, d2)
                    && !(d2 is Unary) implies d2 is Paren by {
                    lemma_operand_first(ts, p as int, q2, e2, d2);
                }
            }
            return parse_group(toks, p);
        },
        TokKind::Ident(_) => {
            if sym_is(toks, p + 1, Sym::LParen) {
                proof {
                    assert forall|e2: Expr, q2: int, d2: Deriv| #[trigger] complete_writing(ts, p as int, q2, e2, 9, d2)
                        && !(d2 is Unary) implies d2 is Call by {
                        lemma_operand_first(ts, p as int, q2, e2, d2);
                    }
                }
                return parse_call(toks, p);
            } else {
                proof {
                    assert forall|e2: Expr, q2: int, d2: Deriv| #[trigger] complete_writing(ts, p as int, q2, e2, 9, d2)
                        && !(d2 is Unary) implies d2 is Atom || d2 is Field || d2 is Index by {
                        lemma_operand_first(ts, p as int, q2, e2, d2);
                    }
                }
                return parse_access(toks, p);
            }
        },
        _ => {
            proof {
                assert forall|e2: Expr, q2: int, d2: Deriv| #[trigger] complete_writing(ts, p as int, q2, e2, 9, d2)
                    && !(d2 is Unary) implies false by {
                    lemma_operand_first(ts, p as int, q2, e2, d2);
                }
            }
            return Err(fail(toks, p, ParseProblem::UnexpectedToken));
        },
    };
    proof {
        assert(writes(toks@, p as int, p + 1, atom, 9, Deriv::Atom) && is_operand(Deriv::Atom) && !wopen(atom, Deriv::Atom));
        assert(written_operand(toks@, p as int, p + 1, atom));
        assert forall|e2: Expr, q2: int, d2: Deriv| #[trigger] complete_writing(ts, p as int, q2, e2, 9, d2)
            && !(d2 is Unary) implies p + 1 == q2 && same_shape(atom, e2) by {
            lemma_operand_first(ts, p as int, q2, e2, d2);
            lemma_leaf_kind(ts[p as int].kind);
        }
    }
    Ok((Spanned::new(atom, sp), p + 1))
}

/// `( expr )`: the expression inside.
fn parse_group(toks: &Vec<Token>, p: usize) -> (r: Result<(Spanned<Expr>, usize), ParseError>)
    requires
        p < toks@.len(),
        toks@[p as int].kind == TokKind::Sym(Sym::LParen),
    ensures
        r matches Err(e) ==> e.problem != ParseProblem::BadCharacter,
        r matches Ok((e, q)) ==> reads_expr(toks@, p as int, q as int, e.node),
        r matches Ok((e, q)) ==> written_operand(toks@, p as int, q as int, e.node),
        forall|e2: Expr, q2: int, d2: Deriv| #[trigger] complete_writing(toks@, p as int, q2, e2, 9, d2) && d2 is Paren
            ==> (r matches Ok((e, q)) && q == q2 && same_shape(e.node, e2)),
    decreases toks@.len() - p, 0int,
{
    let ntoks = toks.len();
    let ghost ts = toks@;
    let res = pratt_parse(toks, p + 1, 0);
    proof {
        assert forall|e2: Expr, q2: int, d2: Deriv| #[trigger] complete_writing(ts, p as int, q2, e2, 9, d2) && d2 is Paren
            implies (res matches Ok((i, qi)) && qi == q2 - 1 && same_shape(i.node, e2)) by {
            let di = d2->Paren_0;
            lemma_leaf_kind(ts[q2 - 1].kind);
            lemma_closed_inner(ts, p + 1, q2 - 1, e2, *di);
        }
    }
    let (inner, q) = match res {
        Ok(x) => x,
        Err(e) => return Err(e),
    };
    if !sym_is(toks, q, Sym::RParen) {
        return Err(fail(toks, q, ParseProblem::UnexpectedToken));
    }
    proof {
        lemma_leaves_concat(toks@, p as int, p + 1, q + 1);
        lemma_leaves_concat(toks@, p + 1, q as int, q + 1);
        lemma_leaves_one(toks@, p as int);
        lemma_leaves_one(toks@, q as int);
        assert(leaves(toks@.subrange(p as int, q + 1)) =~= expr_leaves(inner.node));
        let di = choose|d: Deriv| #[trigger] writes(toks@, p + 1, q as int, inner.node, 0, d)
            && (wopen(inner.node, d) ==> closes(toks@, q as int));
        assert(writes(toks@, p + 1, (q + 1) - 1, inner.node, 0, di));
        let d0 = Deriv::Paren(Box::new(di));
        assert(writes(toks@, p as int, q + 1, inner.node, 9, d0) && is_operand(d0) && !wopen(inner.node, d0));
        assert(written_operand(toks@, p as int, q + 1, inner.node));
    }
    Ok((inner, q + 1))
}

/// `old ( expr )`: the value of an expression before the transition.
fn parse_old(toks: &Vec<Token>, p: usize) -> (r: Result<(Spanned<Expr>, usize), ParseError>)
    requires
        p < toks@.len(),
        toks@[p as int].kind == TokKind::Keyword(Keyword::Old),
    ensures
        r matches Err(e) ==> e.problem != ParseProblem::BadCharacter,
        r matches Ok((e, q)) ==> reads_expr(toks@, p as int, q as int, e.node),
        r matches Ok((e, q)) ==> written_operand(toks@, p as int, q as int, e.node),
        forall|e2: Expr, q2: int, d2: Deriv| #[trigger] complete_writing(toks@, p as int, q2, e2, 9, d2) && d2 is Old
            ==> (r matches Ok((e, q)) && q == q2 && same_shape(e.node, e2)),
    decreases toks@.len() - p, 0int,
{
    let ntoks = toks.len();
    let ghost ts = toks@;
    proof {
        assert forall|e2: Expr, q2: int, d2: Deriv| #[trigger] complete_writing(ts, p as int, q2, e2, 9, d2) && d2 is Old
            implies p + 1 < ts.len() && ts[p + 1].kind == TokKind::Sym(Sym::LParen) by {
            lemma_leaf_kind(ts[p + 1].kind);
        }
    }
    if !sym_is(toks, p + 1, Sym::LParen) {
        return Err(fail(toks, p + 1, ParseProblem::UnexpectedToken));
    }
    let res = pratt_parse(toks, p + 2, 0);
    proof {
        assert forall|e2: Expr, q2: int, d2: Deriv| #[trigger] complete_writing(ts, p as int, q2, e2, 9, d2) && d2 is Old
            implies (res matches Ok((i, qi)) && qi == q2 - 1 && (e2 matches Expr::Old(i2) && same_shape(i.node, i2.node))) by {
            let di = d2->Old_0;
            lemma_leaf_kind(ts[q2 - 1].kind);
            let i2 = e2->Old_0;
            lemma_closed_inner(ts, p + 2, q2 - 1, i2.node, *di);
        }
    }
    let (inner, q) = match res {
        Ok(x) => x,
        Err(e) => return Err(e),
    };
    if !sym_is(toks, q, Sym::RParen) {
        return Err(fail(toks, q, ParseProblem::UnexpectedToken));
    }
    proof {
        lemma_leaves_concat(toks@, p as int, p + 1, q + 1);
        lemma_leaves_concat(toks@, p + 1, p + 2, q + 1);
        lemma_leaves_concat(toks@, p + 2, q as int, q + 1);
        lemma_leaves_one(toks@, p as int);
        lemma_leaves_one(toks@, p + 1);
        lemma_leaves_one(toks@, q as int);
        assert(leaves(toks@.subrange(p as int, q + 1)) =~= seq![Leaf::Kw(Keyword::Old)] + expr_leaves(inner.node));
    }
    let ghost is = inner;
    let sp = toks[p].span.merge(toks[q].span);
    let e = Spanned::new(Expr::Old(Box::new(inner)), sp);
    proof {
        let di = choose|d: Deriv| #[trigger] writes(toks@, p + 2, q as int, is.node, 0, d)
            && (wopen(is.node, d) ==> closes(toks@, q as int));
        assert(writes(toks@, p + 2, (q + 1) - 1, is.node, 0, di));
        let d0 = Deriv::Old(Box::new(di));
        assert(writes(toks@, p as int, q + 1, e.node, 9, d0) && is_operand(d0) && !wopen(e.node, d0));
        assert(written_operand(toks@, p as int, q + 1, e.node));
    }
    Ok((e, q + 1))
}

/// `forall x in domain: body` or `exists x in domain: body`.
#[verifier::rlimit(30)]
fn parse_quantifier(toks: &Vec<Token>, p: usize, universal: bool) -> (r: Result<(Spanned<Expr>, usize), ParseError>)
    requires
        p < toks@.len(),
        toks@[p as int].kind == TokKind::Keyword(if universal { Keyword::Forall } else { Keyword::Exists }),
    ensures
        r matches Err(e) ==> e.problem != ParseProblem::BadCharacter,
        r matches Ok((e, q)) ==> reads_expr(toks@, p as int, q as int, e.node),
        r matches Ok((e, q)) ==> written_operand(toks@, p as int, q as int, e.node),
        r matches Ok((e, q)) ==> closes(toks@, q as int),
        forall|e2: Expr, q2: int, d2: Deriv| #[trigger] complete_writing(toks@, p as int, q2, e2, 9, d2) && d2 is Quant
            ==> (r matches Ok((e, q)) && q == q2 && same_shape(e.node, e2)),
    decreases toks@.len() - p, 0int,
{
    let ntoks = toks.len();
    let ghost ts = toks@;
    proof {
        assert forall|e2: Expr, q2: int, d2: Deriv| #[trigger] complete_writing(ts, p as int, q2, e2, 9, d2) && d2 is Quant
            implies quant_parts(ts, p as int, q2, e2, d2, universal) by {
            match d2 {
                Deriv::Quant(c, dd, db) => {
                    assert(writes(ts, p as int, q2, e2, 9, d2));
                    assert(e2 is Forall || e2 is Exists);
                    lemma_writes_bounds(ts, p + 3, c, quant_domain(e2), 0, *dd);
                    lemma_writes_bounds(ts, c + 1, q2, quant_body(e2), 0, *db);
                    lemma_leaf_kind(ts[p as int].kind);
                    lemma_leaf_kind(ts[p + 1].kind);
                    lemma_leaf_kind(ts[p + 2].kind);
                    lemma_leaf_kind(ts[c].kind);
                    lemma_first_token(ts, p + 3, c, quant_domain(e2), 0, *dd);
                },
                _ => {},
            }
        }
    }
    let var = match ident_at(toks, p + 1) {
        Some(x) => x,
        None => return Err(fail(toks, p + 1, ParseProblem::UnexpectedToken)),
    };
    if !kw_is(toks, p + 2, Keyword::In) {
        return Err(fail(toks, p + 2, ParseProblem::UnexpectedToken));
    }
    let res = pratt_parse(toks, p + 3, 0);
    proof {
        assert forall|e2: Expr, q2: int, d2: Deriv| #[trigger] complete_writing(ts, p as int, q2, e2, 9, d2) && d2 is Quant
            implies (res matches Ok((dm, qd)) && qd == d2->Quant_0 && same_shape(dm.node, quant_domain(e2))) by {
            lemma_closed_inner(ts, p + 3, d2->Quant_0, quant_domain(e2), *d2->Quant_1);
        }
    }
    let (domain, d) = match res {
        Ok(x) => x,
        Err(e) => return Err(e),
    };
    if !sym_is(toks, d, Sym::Colon) {
        return Err(fail(toks, d, ParseProblem::UnexpectedToken));
    }
    let res2 = pratt_parse(toks, d + 1, 0);
    proof {
        assert forall|e2: Expr, q2: int, d2: Deriv| #[trigger] complete_writing(ts, p as int, q2, e2, 9, d2) && d2 is Quant
            implies (res2 matches Ok((bd, qb)) && qb == q2 && same_shape(bd.node, quant_body(e2))) by {
            assert(complete_writing(ts, d + 1, q2, quant_body(e2), 0, *d2->Quant_2));
        }
    }
    let (body, q) = match res2 {
        Ok(x) => x,
        Err(e) => return Err(e),
    };
    let var_span = toks[p + 1].span;
    let sp = toks[p].span.merge(body.span);
    let var = Spanned::new(var, var_span);
    let e = if universal {
        Expr::Forall { var, domain: Box::new(domain), body: Box::new(body) }
    } else {
        Expr::Exists { var, domain: Box::new(domain), body: Box::new(body) }
    };
    proof {
        lemma_leaves_concat(ts, p as int, p + 3, q as int);
        lemma_leaves_concat(ts, p as int, p + 1, p + 3);
        lemma_leaves_concat(ts, p + 1, p + 2, p + 3);
        lemma_leaves_concat(ts, p + 3, d as int, q as int);
        lemma_leaves_concat(ts, d as int, d + 1, q as int);
        lemma_leaves_one(ts, p as int);
        lemma_leaves_one(ts, p + 1);
        lemma_leaves_one(ts, p + 2);
        lemma_leaves_one(ts, d as int);
        let head = seq![
            Leaf::Kw(if universal { Keyword::Forall } else { Keyword::Exists }),
            Leaf::Name(var.node@),
            Leaf::Kw(Keyword::In),
        ];
        assert(leaves(ts.subrange(p as int, p + 3)) =~= head);
        assert(leaves(ts.subrange(p as int, q as int)) =~= head + expr_leaves(domain.node)
            + seq![Leaf::Punct(Sym::Colon)] + expr_leaves(body.node));
        let dd = choose|x: Deriv| #[trigger] writes(ts, p + 3, d as int, domain.node, 0, x)
            && (wopen(domain.node, x) ==> closes(ts, d as int));
        let db = choose|x: Deriv| #[trigger] writes(ts, d + 1, q as int, body.node, 0, x)
            && (wopen(body.node, x) ==> closes(ts, q as int));
        let d0 = Deriv::Quant(d as int, Box::new(dd), Box::new(db));
        assert(writes(ts, p as int, q as int, e, 9, d0) && is_operand(d0));
        assert(closes(ts, q as int));
        assert(written_operand(ts, p as int, q as int, e));
    }
    Ok((Spanned::new(e, sp), q))
}

/// The domain of a quantifier.
pub open spec fn quant_domain(e: Expr) -> Expr {
    match e {
        Expr::Forall { domain, .. } => domain.node,
        Expr::Exists { domain, .. } => domain.node,
        _ => e,
    }
}

/// The body of a quantifier.
pub open spec fn quant_body(e: Expr) -> Expr {
    match e {
        Expr::Forall { body, .. } => body.node,
        Expr::Exists { body, .. } => body.node,
        _ => e,
    }
}

/// The variable of a quantifier.
pub open spec fn quant_var(e: Expr) -> Seq<char> {
    match e {
        Expr::Forall { var, .. } => var.node@,
        Expr::Exists { var, .. } => var.node@,
        _ => Seq::empty(),
    }
}

/// What a complete writing of a quantifier at `p` holds: its kind, its
/// variable after the keyword, `in`, its domain up to the `:` and its body
/// after it.
pub open spec fn quant_parts(ts: Seq<Token>, p: int, q: int, e: Expr, d: Deriv, universal: bool) -> bool {
    &&& (if universal { e is Forall } else { e is Exists })
    &&& p + 2 < ts.len() && ts[p + 1].kind is Ident && ts[p + 1].kind->Ident_0@ == quant_var(e)
    &&& ts[p + 2].kind == TokKind::Keyword(Keyword::In)
    &&& d matches Deriv::Quant(c, dd, db) && p + 3 < c < q && ts[c].kind == TokKind::Sym(Sym::Colon)
        && writes(ts, p + 3, c, quant_domain(e), 0, *dd) && writes(ts, c + 1, q, quant_body(e), 0, *db)
}

/// `name ( args )`, the arguments separated by commas.
pub(crate) fn parse_call(toks: &Vec<Token>, p: usize) -> (r: Result<(Spanned<Expr>, usize), ParseError>)
    requires
        p + 1 < toks@.len(),
        toks@[p as int].kind is Ident,
        toks@[p + 1].kind == TokKind::Sym(Sym::LParen),
    ensures
        r matches Err(e) ==> e.problem != ParseProblem::BadCharacter,
        r matches Ok((e, q)) ==> reads_expr(toks@, p as int, q as int, e.node) && e.node is FnCall,
        r matches Ok((e, q)) ==> written_operand(toks@, p as int, q as int, e.node),
        forall|e2: Expr, q2: int, d2: Deriv| #[trigger] complete_writing(toks@, p as int, q2, e2, 9, d2) && d2 is Call
            ==> (r matches Ok((e, q)) && q == q2 && same_shape(e.node, e2)),
    decreases toks@.len() - p, 0int,
{
    let ntoks = toks.len();
    let ghost ts = toks@;
    proof {
        assert forall|e2: Expr, q2: int, d2: Deriv| #[trigger] complete_writing(ts, p as int, q2, e2, 9, d2) && d2 is Call
            implies call_parts(ts, p as int, q2, e2, d2) by {
            lemma_leaf_kind(ts[p as int].kind);
            lemma_leaf_kind(ts[q2 - 1].kind);
        }
    }
    let name = match ident_at(toks, p) {
        Some(x) => x,
        None => return Err(fail(toks, p, ParseProblem::UnexpectedToken)),
    };
    let name_span = toks[p].span;
    let ghost head = seq![Leaf::Name(name@)];
    proof {
        lemma_leaves_concat(toks@, p as int, p + 1, p + 2);
        lemma_leaves_one(toks@, p as int);
        lemma_leaves_one(toks@, p + 1);
        assert(leaves(toks@.subrange(p as int, p + 2)) =~= head);
    }
    let mut args: Vec<Spanned<Expr>> = Vec::new();
    let mut q = p + 2;
    let ghost mut da: Deriv = Deriv::ArgsNone;
    if !sym_is(toks, q, Sym::RParen) {
        let res = pratt_parse(toks, q, 0);
        proof {
            assert forall|e2: Expr, q2: int, d2: Deriv| #[trigger] complete_writing(ts, p as int, q2, e2, 9, d2) && d2 is Call
                implies call_first(e2, d2, q2, res) by {
                let a2 = e2->FnCall_args;
                let dd = *d2->Call_0;
                if dd is ArgsNone {
                    assert(ts[p + 2].kind == TokKind::Sym(Sym::RParen));
                } else {
                    lemma_args_first(ts, p + 2, q2 - 1, a2@, dd);
                    let f = args_first(dd, q2 - 1).0;
                    lemma_args(ts, p + 2, q2 - 1, a2@, dd, f);
                    lemma_closed_inner(ts, p + 2, f, a2@[0].node, args_first(dd, q2 - 1).1);
                }
            }
        }
        let (first, q1) = match res {
            Ok(x) => x,
            Err(e) => return Err(e),
        };
        let ghost fs = first;
        args.push(first);
        proof {
            lemma_leaves_concat(toks@, p as int, p + 2, q1 as int);
            assert(args@.len() == 1 && args_leaves(args@) == expr_leaves(first.node));
            let d1 = choose|d: Deriv| #[trigger] writes(toks@, p + 2, q1 as int, fs.node, 0, d)
                && (wopen(fs.node, d) ==> closes(toks@, q1 as int));
            assert(args@[0] == fs);
            da = Deriv::ArgsOne(Box::new(d1));
            assert(args_writes(toks@, p + 2, q1 as int, args@, da));
            assert forall|e2: Expr, q2: int, d2: Deriv| #[trigger] complete_writing(ts, p as int, q2, e2, 9, d2) && d2 is Call
                implies call_progress(e2, d2, q2, q1 as int, args@) by {
                let a2 = e2->FnCall_args;
                let t = a2@.take(1);
                assert(t.len() == 1 && t.last() == a2@[0]);
                assert(args@.last() == fs);
                assert(same_shapes(args@.drop_last(), t.drop_last()));
                assert(same_shapes(args@, t));
            }
        }
        q = q1;
        while sym_is(toks, q, Sym::Comma)
            invariant
                ntoks == toks@.len(),
                ts == toks@,
                p + 2 < q <= toks@.len(),
                args@.len() >= 1,
                leaves(toks@.subrange(p as int, q as int)) == head + args_leaves(args@),
                args_writes(toks@, p + 2, q as int, args@, da),
                forall|e2: Expr, q2: int, d2: Deriv| #[trigger] complete_writing(ts, p as int, q2, e2, 9, d2) && d2 is Call
                    ==> call_progress(e2, d2, q2, q as int, args@),
            decreases toks@.len() - q,
        {
            let res = pratt_parse(toks, q + 1, 0);
            proof {
                assert forall|e2: Expr, q2: int, d2: Deriv| #[trigger] complete_writing(ts, p as int, q2, e2, 9, d2) && d2 is Call
                    implies call_step(e2, d2, q2, q as int, res) by {
                    let a2 = e2->FnCall_args;
                    let dd = *d2->Call_0;
                    lemma_args(ts, p + 2, q2 - 1, a2@, dd, q as int);
                    let (y, dy, ky) = args_parent(a2@, dd, q2 - 1, q as int);
                    if ky < q2 - 1 {
                        lemma_args(ts, p + 2, q2 - 1, a2@, dd, ky);
                    }
                    lemma_closed_inner(ts, q + 1, ky, y.last().node, *dy->ArgsMore_2);
                }
            }
            let (a, q2) = match res {
                Ok(x) => x,
                Err(e) => return Err(e),
            };
            let ghost before = args@;
            let ghost av = a;
            let ghost q0 = q as int;
            args.push(a);
            proof {
                let d1 = choose|d: Deriv| #[trigger] writes(toks@, q + 1, q2 as int, av.node, 0, d)
                    && (wopen(av.node, d) ==> closes(toks@, q2 as int));
                assert(args@.drop_last() =~= before);
                assert(args@.last() == av);
                let d2 = Deriv::ArgsMore(Box::new(da), q as int, Box::new(d1));
                assert(args_writes(toks@, p + 2, q2 as int, args@, d2));
                da = d2;
                lemma_leaves_concat(toks@, p as int, q as int, q2 as int);
                lemma_leaves_concat(toks@, q as int, q + 1, q2 as int);
                lemma_leaves_one(toks@, q as int);
                assert(args@.drop_last() =~= before);
                assert(args_leaves(args@) == args_leaves(before) + seq![Leaf::Punct(Sym::Comma)] + expr_leaves(a.node));
                assert(head + args_leaves(args@) =~= head + args_leaves(before) + seq![Leaf::Punct(Sym::Comma)] + expr_leaves(a.node));
            }
            q = q2;
            proof {
                assert forall|e2: Expr, q2: int, d2: Deriv| #[trigger] complete_writing(ts, p as int, q2, e2, 9, d2) && d2 is Call
                    implies call_progress(e2, d2, q2, q as int, args@) by {
                    let a2 = e2->FnCall_args;
                    let dd = *d2->Call_0;
                    lemma_args(ts, p + 2, q2 - 1, a2@, dd, q0);
                }
            }
        }
    } else {
        proof {
            assert forall|e2: Expr, q2: int, d2: Deriv| #[trigger] complete_writing(ts, p as int, q2, e2, 9, d2) && d2 is Call
                implies call_progress(e2, d2, q2, q as int, args@) by {
                let a2 = e2->FnCall_args;
                let dd = *d2->Call_0;
                if !(dd is ArgsNone) {
                    lemma_args_first(ts, p + 2, q2 - 1, a2@, dd);
                    lemma_first_token(ts, p + 2, args_first(dd, q2 - 1).0, a2@[0].node, 0, args_first(dd, q2 - 1).1);
                }
            }
        }
    }
    proof {
        assert forall|e2: Expr, q2: int, d2: Deriv| #[trigger] complete_writing(ts, p as int, q2, e2, 9, d2) && d2 is Call
            implies q == q2 - 1 && (e2 matches Expr::FnCall { args: a2, .. } && same_shapes(args@, a2@)) by {
            let a2 = e2->FnCall_args;
            let dd = *d2->Call_0;
            lemma_args(ts, p + 2, q2 - 1, a2@, dd, q as int);
        }
    }
    if !sym_is(toks, q, Sym::RParen) {
        return Err(fail(toks, q, ParseProblem::UnexpectedToken));
    }
    proof {
        lemma_leaves_concat(toks@, p as int, q as int, q + 1);
        lemma_leaves_one(toks@, q as int);
        assert(leaves(toks@.subrange(p as int, q + 1)) =~= head + args_leaves(args@));
    }
    proof {
        assert(args_writes(toks@, p + 2, (q + 1) - 1, args@, da));
    }
    let sp = name_span.merge(toks[q].span);
    let e = Spanned::new(Expr::FnCall { name: Spanned::new(name, name_span), args }, sp);
    proof {
        let d0 = Deriv::Call(Box::new(da));
        assert(writes(toks@, p as int, q + 1, e.node, 9, d0) && is_operand(d0) && !wopen(e.node, d0));
        assert(written_operand(toks@, p as int, q + 1, e.node));
    }
    Ok((e, q + 1))
}

/// What a complete writing of a call at `p` holds: the name, then the
/// arguments inside the parentheses.
pub open spec fn call_parts(ts: Seq<Token>, p: int, q: int, e: Expr, d: Deriv) -> bool {
    &&& p + 2 < q <= ts.len()
    &&& ts[q - 1].kind == TokKind::Sym(Sym::RParen)
    &&& match (e, d) {
        (Expr::FnCall { name, args }, Deriv::Call(da)) => ts[p].kind is Ident && ts[p].kind->Ident_0@ == name.node@
            && args_writes(ts, p + 2, q - 1, args@, *da),
        _ => false,
    }
}

/// For a complete writing of a call: how its first argument is read.
pub open spec fn call_first(e: Expr, d: Deriv, q: int, res: Result<(Spanned<Expr>, usize), ParseError>) -> bool {
    match (e, d) {
        (Expr::FnCall { args, .. }, Deriv::Call(da)) => {
            &&& !(*da is ArgsNone)
            &&& res matches Ok((a, qa)) && qa == args_first(*da, q - 1).0 && same_shape(a.node, args@[0].node)
                && args_at(args@, *da, q - 1, qa as int) == Some(args@.take(1))
        },
        _ => false,
    }
}

/// For a complete writing of a call: the arguments read up to `k` are its
/// first ones.
pub open spec fn call_progress(e: Expr, d: Deriv, q: int, k: int, read: Seq<Spanned<Expr>>) -> bool {
    match (e, d) {
        (Expr::FnCall { args, .. }, Deriv::Call(da)) => args_at(args@, *da, q - 1, k) matches Some(pre)
            && same_shapes(read, pre),
        _ => false,
    }
}

/// For a complete writing of a call: how the argument after the comma at
/// `k` is read.
pub open spec fn call_step(e: Expr, d: Deriv, q: int, k: int, res: Result<(Spanned<Expr>, usize), ParseError>) -> bool {
    match (e, d) {
        (Expr::FnCall { args, .. }, Deriv::Call(da)) => {
            let (y, dy, ky) = args_parent(args@, *da, q - 1, k);
            &&& args_at(args@, *da, q - 1, ky) == Some(y)
            &&& y.len() > 0 && y.drop_last() == args_at(args@, *da, q - 1, k)->0
            &&& res matches Ok((a, qa)) && qa == ky && same_shape(a.node, y.last().node)
        },
        _ => false,
    }
}

/// A name, `Enum::Variant`, or a name followed by `.field` and `[index]` accessors.
fn parse_access(toks: &Vec<Token>, p: usize) -> (r: Result<(Spanned<Expr>, usize), ParseError>)
    requires
        p < toks@.len(),
        toks@[p as int].kind is Ident,
    ensures
        r matches Err(e) ==> e.problem != ParseProblem::BadCharacter,
        r matches Ok((e, q)) ==> reads_expr(toks@, p as int, q as int, e.node),
        r matches Ok((e, q)) ==> written_operand(toks@, p as int, q as int, e.node),
        forall|e2: Expr, q2: int, d2: Deriv| #[trigger] complete_writing(toks@, p as int, q2, e2, 9, d2)
            && (d2 is Atom || d2 is Field || d2 is Index)
            ==> (r matches Ok((e, q)) && q == q2 && same_shape(e.node, e2)),
    decreases toks@.len() - p, 0int,
{
    let ntoks = toks.len();
    let ghost ts = toks@;
    let name = match ident_at(toks, p) {
        Some(x) => x,
        None => return Err(fail(toks, p, ParseProblem::UnexpectedToken)),
    };
    proof {
        lemma_leaves_one(toks@, p as int);
    }
    if sym_is(toks, p + 1, Sym::PathSep) {
        let res = read_path(toks, p);
        proof {
            assert forall|e2: Expr, q2: int, d2: Deriv| #[trigger] complete_writing(ts, p as int, q2, e2, 9, d2)
                && (d2 is Atom || d2 is Field || d2 is Index) implies variant_read(e2, q2, res) by {
                lemma_operand_first(ts, p as int, q2, e2, d2);
            }
        }
        let (en, v, q) = match res {
            Ok(x) => x,
            Err(e) => return Err(e),
        };
        proof {
            lemma_variant_leaves(ts, p as int, q as int);
        }
        let sp = toks[p].span.merge(toks[q - 1].span);
        let ev = Spanned::new(Expr::EnumVariant { enum_name: en, variant: v }, sp);
        proof {
            assert(writes(toks@, p as int, q as int, ev.node, 9, Deriv::Atom) && is_operand(Deriv::Atom) && !wopen(ev.node, Deriv::Atom));
            assert(written_operand(toks@, p as int, q as int, ev.node));
        }
        return Ok((ev, q));
    }
    let mut e = Spanned::new(Expr::Ident(name), toks[p].span);
    let mut q = p + 1;
    let mut stop = false;
    let ghost mut dp: Deriv = Deriv::Atom;
    proof {
        assert(writes(toks@, p as int, q as int, e.node, 9, dp));
        assert forall|e2: Expr, q2: int, d2: Deriv| #[trigger] complete_writing(ts, p as int, q2, e2, 9, d2)
            && (d2 is Atom || d2 is Field || d2 is Index) implies path_at(e2, d2, q2, q as int) is Some
            && same_shape(e.node, (path_at(e2, d2, q2, q as int)->0).0) by {
            lemma_operand_first(ts, p as int, q2, e2, d2);
            if d2 is Field || d2 is Index {
                lemma_path_bottom(ts, p as int, q2, e2, d2);
            }
        }
    }
    while !stop
        invariant
            ntoks == toks@.len(),
            ts == toks@,
            p < q <= ntoks,
            reads_expr(toks@, p as int, q as int, e.node),
            writes(toks@, p as int, q as int, e.node, 9, dp),
            is_path(e.node, dp),
            stop ==> !(q < ntoks && (toks@[q as int].kind == TokKind::Sym(Sym::Dot) || toks@[q as int].kind == TokKind::Sym(Sym::LBracket))),
            forall|e2: Expr, q2: int, d2: Deriv| #[trigger] complete_writing(ts, p as int, q2, e2, 9, d2)
                && (d2 is Atom || d2 is Field || d2 is Index) ==> path_at(e2, d2, q2, q as int) is Some
                && same_shape(e.node, (path_at(e2, d2, q2, q as int)->0).0),
        decreases toks@.len() - q, if stop { 0int } else { 1int },
    {
        if sym_is(toks, q, Sym::Dot) {
            proof {
                assert forall|e2: Expr, q2: int, d2: Deriv| #[trigger] complete_writing(ts, p as int, q2, e2, 9, d2)
                    && (d2 is Atom || d2 is Field || d2 is Index) implies field_step(ts, q as int, e2, d2, q2) by {
                    lemma_path(ts, p as int, q2, e2, d2, q as int);
                    let (y, dy, qy) = path_parent(e2, d2, q2, q as int);
                    lemma_leaf_kind(ts[q + 1].kind);
                }
            }
            let field = match ident_at(toks, q + 1) {
                Some(x) => x,
                None => return Err(fail(toks, q + 1, ParseProblem::UnexpectedToken)),
            };
            proof {
                lemma_leaves_concat(toks@, p as int, q as int, q + 2);
                lemma_leaves_concat(toks@, q as int, q + 1, q + 2);
                lemma_leaves_one(toks@, q as int);
                lemma_leaves_one(toks@, q + 1);
                assert(leaves(toks@.subrange(q as int, q + 2)) =~= seq![Leaf::Punct(Sym::Dot), Leaf::Name(field@)]);
            }
            let fsp = toks[q + 1].span;
            let sp = e.span.merge(fsp);
            let ghost es = e;
            let ghost q0 = q as int;
            e = Spanned::new(Expr::FieldAccess { object: Box::new(e), field: Spanned::new(field, fsp) }, sp);
            proof {
                assert(writes(toks@, p as int, (q + 2) - 2, es.node, 9, dp));
                let d2 = Deriv::Field(Box::new(dp));
                assert(writes(toks@, p as int, q + 2, e.node, 9, d2));
                dp = d2;
            }
            q = q + 2;
            proof {
                assert forall|e2: Expr, q2: int, d2: Deriv| #[trigger] complete_writing(ts, p as int, q2, e2, 9, d2)
                    && (d2 is Atom || d2 is Field || d2 is Index) implies path_at(e2, d2, q2, q as int) is Some
                    && same_shape(e.node, (path_at(e2, d2, q2, q as int)->0).0) by {
                    lemma_path(ts, p as int, q2, e2, d2, q0);
                    lemma_leaf_kind(ts[q0 + 1].kind);
                }
            }
        } else if sym_is(toks, q, Sym::LBracket) {
            let res = pratt_parse(toks, q + 1, 0);
            proof {
                assert forall|e2: Expr, q2: int, d2: Deriv| #[trigger] complete_writing(ts, p as int, q2, e2, 9, d2)
                    && (d2 is Atom || d2 is Field || d2 is Index) implies index_step(ts, q as int, e2, d2, q2, res) by {
                    lemma_path(ts, p as int, q2, e2, d2, q as int);
                    let (y, dy, qy) = path_parent(e2, d2, q2, q as int);
                    let ix = y->index;
                    lemma_closed_inner(ts, q + 1, qy - 1, ix.node, *dy->Index_2);
                }
            }
            let (idx, q2) = match res {
                Ok(x) => x,
                Err(err) => return Err(err),
            };
            if !sym_is(toks, q2, Sym::RBracket) {
                return Err(fail(toks, q2, ParseProblem::UnexpectedToken));
            }
            proof {
                lemma_leaves_concat(toks@, p as int, q as int, q2 + 1);
                lemma_leaves_concat(toks@, q as int, q + 1, q2 + 1);
                lemma_leaves_concat(toks@, q + 1, q2 as int, q2 + 1);
                lemma_leaves_one(toks@, q as int);
                lemma_leaves_one(toks@, q2 as int);
                assert(leaves(toks@.subrange(p as int, q2 + 1)) =~= expr_leaves(e.node)
                    + seq![Leaf::Punct(Sym::LBracket)] + expr_leaves(idx.node) + seq![Leaf::Punct(Sym::RBracket)]);
            }
            let sp = e.span.merge(idx.span);
            let ghost es = e;
            let ghost is = idx;
            let ghost q0 = q as int;
            e = Spanned::new(Expr::IndexAccess { object: Box::new(e), index: Box::new(idx) }, sp);
            proof {
                let di = choose|d: Deriv| #[trigger] writes(toks@, q + 1, q2 as int, is.node, 0, d)
                    && (wopen(is.node, d) ==> closes(toks@, q2 as int));
                assert(writes(toks@, q + 1, (q2 + 1) - 1, is.node, 0, di));
                let d2 = Deriv::Index(q as int, Box::new(dp), Box::new(di));
                assert(writes(toks@, p as int, q2 + 1, e.node, 9, d2));
                dp = d2;
            }
            q = q2 + 1;
            proof {
                assert forall|e2: Expr, q2: int, d2: Deriv| #[trigger] complete_writing(ts, p as int, q2, e2, 9, d2)
                    && (d2 is Atom || d2 is Field || d2 is Index) implies path_at(e2, d2, q2, q as int) is Some
                    && same_shape(e.node, (path_at(e2, d2, q2, q as int)->0).0) by {
                    lemma_path(ts, p as int, q2, e2, d2, q0);
                }
            }
        } else {
            stop = true;
        }
    }
    proof {
        assert(writes(toks@, p as int, q as int, e.node, 9, dp) && is_operand(dp) && !wopen(e.node, dp));
        assert(written_operand(toks@, p as int, q as int, e.node));
        assert forall|e2: Expr, q2: int, d2: Deriv| #[trigger] complete_writing(ts, p as int, q2, e2, 9, d2)
            && (d2 is Atom || d2 is Field || d2 is Index) implies q == q2 && same_shape(e.node, e2) by {
            lemma_path(ts, p as int, q2, e2, d2, q as int);
        }
    }
    Ok((e, q))
}

/// For a complete writing of an enum variant: the path read is the
/// variant's, names and end.
pub open spec fn variant_read(e: Expr, q: int, res: Result<(String, String, usize), ParseError>) -> bool {
    match e {
        Expr::EnumVariant { enum_name, variant } => res matches Ok((en, v, qr)) && qr == q && en@ == enum_name@
            && v@ == variant@,
        _ => false,
    }
}

/// For a complete path writing that has a part ending at `k` followed by
/// `.`: the accessor is `.name`, a field access, two tokens long.
pub open spec fn field_step(ts: Seq<Token>, k: int, e: Expr, d: Deriv, q: int) -> bool {
    let (y, dy, qy) = path_parent(e, d, q, k);
    &&& k + 1 < ts.len() && ts[k + 1].kind is Ident
    &&& y matches Expr::FieldAccess { field, .. } && field.node@ == ts[k + 1].kind->Ident_0@
}

/// For a complete path writing that has a part ending at `k` followed by
/// `[`: what the index is read as.
pub open spec fn index_step(ts: Seq<Token>, k: int, e: Expr, d: Deriv, q: int, res: Result<(Spanned<Expr>, usize), ParseError>) -> bool {
    let (y, dy, qy) = path_parent(e, d, q, k);
    &&& 0 <= qy - 1 < ts.len() && ts[qy - 1].kind == TokKind::Sym(Sym::RBracket)
    &&& y matches Expr::IndexAccess { index, .. } && res matches Ok((i, qi)) && qi == qy - 1 && same_shape(i.node, index.node)
}


/// The symbol of a compound assignment.
pub open spec fn compound_sym(op: CompoundOp) -> Sym {
    match op {
        CompoundOp::Add => Sym::PlusAssign,
        CompoundOp::Sub => Sym::MinusAssign,
        CompoundOp::Mul => Sym::StarAssign,
        CompoundOp::Div => Sym::SlashAssign,
    }
}

/// The leaves of a type without parameters: the built-in type names, or the
/// name of a declared type.
pub open spec fn base_type_leaves(t: Type) -> Seq<Leaf> {
    match t {
        Type::Int => seq![Leaf::Name("int"@)],
        Type::Real => seq![Leaf::Name("real"@)],
        Type::Bool => seq![Leaf::Name("bool"@)],
        Type::String => seq![Leaf::Name("string"@)],
        Type::Enum(n) => seq![Leaf::Name(n@)],
        Type::Named(n) => seq![Leaf::Name(n@)],
        _ => Seq::empty(),
    }
}

/// The leaves a type is written with: `base`, `base[size]`, or `map[key, value]`.
pub open spec fn type_leaves(t: Type) -> Seq<Leaf>
    decreases t,
{
    match t {
        Type::Array { element, size } => base_type_leaves(*element) + seq![
            Leaf::Punct(Sym::LBracket),
            Leaf::IntLeaf(size as i64),
            Leaf::Punct(Sym::RBracket),
        ],
        Type::Mapping { key, value } => seq![Leaf::Name("map"@), Leaf::Punct(Sym::LBracket)] + type_leaves(*key)
            + seq![Leaf::Punct(Sym::Comma)] + type_leaves(*value) + seq![Leaf::Punct(Sym::RBracket)],
        _ => base_type_leaves(t),
    }
}

pub open spec fn is_builtin_type_name(n: Seq<char>) -> bool {
    n == "int"@ || n == "real"@ || n == "bool"@ || n == "string"@
}

/// A type as the parser builds it: the four built-in names are never a
/// `Named` type, an array's element is a type without parameters and its
/// size fits in `i64`.
pub open spec fn type_built(t: Type) -> bool
    decreases t,
{
    match t {
        Type::Named(n) => !is_builtin_type_name(n@),
        Type::Enum(_) => false,
        Type::Array { element, size } => size <= i64::MAX && match *element {
            Type::Int | Type::Real | Type::Bool | Type::String => true,
            Type::Named(n) => !is_builtin_type_name(n@),
            _ => false,
        },
        Type::Mapping { key, value } => type_built(*key) && type_built(*value),
        _ => true,
    }
}

pub open spec fn pattern_leaves(p: MatchPattern) -> Seq<Leaf> {
    match p {
        MatchPattern::Wildcard => seq![Leaf::Name("_"@)],
        MatchPattern::IntLit(v) => seq![Leaf::IntLeaf(v)],
        MatchPattern::BoolLit(b) => seq![Leaf::Kw(if b { Keyword::True } else { Keyword::False })],
        MatchPattern::StringLit(x) => seq![Leaf::StrLeaf(x@)],
        MatchPattern::EnumVariant { enum_name, variant } => path_leaves(enum_name@)
            + seq![Leaf::Punct(Sym::PathSep), Leaf::Name(variant@)],
    }
}

/// The leaves of `: type`, when a type is given.
pub open spec fn annotation_leaves(ty: Option<Spanned<Type>>) -> Seq<Leaf> {
    match ty {
        Some(t) => seq![Leaf::Punct(Sym::Colon)] + type_leaves(t.node),
        None => Seq::empty(),
    }
}

/// The leaves of `let name [: type] = value`.
pub open spec fn let_leaves(name: Seq<char>, ty: Option<Spanned<Type>>, value: Expr) -> Seq<Leaf> {
    seq![Leaf::Kw(Keyword::Let), Leaf::Name(name)] + annotation_leaves(ty) + seq![Leaf::Punct(Sym::Assign)] + expr_leaves(value)
}

/// `ls` reads as the statement `s`. Blocks are written in braces; an `else`
/// whose block is a single `if` may also be written `else if ...`.
pub open spec fn stmt_printed(s: Statement, ls: Seq<Leaf>) -> bool
    decreases s,
{
    match s {
        Statement::Assign(a) => ls == seq![Leaf::Name(a.target.node@), Leaf::Punct(Sym::Assign)] + expr_leaves(a.value.node),
        Statement::CompoundAssign { target, op, value } => ls == seq![Leaf::Name(target.node@), Leaf::Punct(compound_sym(op))]
            + expr_leaves(value.node),
        Statement::IndexedAssign { target, index, value } => ls == seq![Leaf::Name(target.node@), Leaf::Punct(Sym::LBracket)]
            + expr_leaves(index.node) + seq![Leaf::Punct(Sym::RBracket), Leaf::Punct(Sym::Assign)] + expr_leaves(value.node),
        Statement::IndexedCompoundAssign { target, index, op, value } => ls == seq![Leaf::Name(target.node@), Leaf::Punct(Sym::LBracket)]
            + expr_leaves(index.node) + seq![Leaf::Punct(Sym::RBracket), Leaf::Punct(compound_sym(op))] + expr_leaves(value.node),
        Statement::Assert { condition } => ls == seq![Leaf::Kw(Keyword::Assert)] + expr_leaves(condition.node),
        Statement::Let { name, ty, value } => ls == let_leaves(name.node@, ty, value.node) && match ty {
            Some(t) => type_built(t.node),
            None => true,
        },
        Statement::If { condition, then_body, else_body } => {
            let h = seq![Leaf::Kw(Keyword::If)] + expr_leaves(condition.node) + seq![Leaf::Punct(Sym::LBrace)];
            &&& h.len() <= ls.len()
            &&& ls.take(h.len() as int) == h
            &&& exists|k: int| #![trigger ls.skip(k + 1)]
                h.len() <= k < ls.len() && ls[k] == Leaf::Punct(Sym::RBrace)
                && block_printed(then_body@, ls.subrange(h.len() as int, k))
                && else_printed(else_body, ls.skip(k + 1))
        },
        Statement::Match { expr, arms } => {
            let h = seq![Leaf::Kw(Keyword::Match)] + expr_leaves(expr.node) + seq![Leaf::Punct(Sym::LBrace)];
            &&& h.len() < ls.len()
            &&& ls.take(h.len() as int) == h
            &&& ls.last() == Leaf::Punct(Sym::RBrace)
            &&& arms_printed(arms@, ls.subrange(h.len() as int, ls.len() - 1))
        },
    }
}

/// `ls` reads as `else { block }`, or as `else if ...` when the block is one
/// `if`; nothing when there is no `else`.
pub open spec fn else_printed(e: Option<Vec<Spanned<Statement>>>, ls: Seq<Leaf>) -> bool
    decreases e,
{
    match e {
        None => ls.len() == 0,
        Some(v) => {
            ||| (ls.len() >= 3 && ls[0] == Leaf::Kw(Keyword::Else) && ls[1] == Leaf::Punct(Sym::LBrace)
                && ls.last() == Leaf::Punct(Sym::RBrace) && block_printed(v@, ls.subrange(2, ls.len() - 1)))
            ||| (v@.len() == 1 && v@[0].node is If && ls.len() >= 1 && ls[0] == Leaf::Kw(Keyword::Else)
                && stmt_printed(v@[0].node, ls.skip(1)))
        },
    }
}

/// `ls` reads as the statements of `b`, one after the other.
pub open spec fn block_printed(b: Seq<Spanned<Statement>>, ls: Seq<Leaf>) -> bool
    decreases b,
{
    if b.len() == 0 {
        ls.len() == 0
    } else {
        exists|k: int| #![trigger ls.take(k)]
            0 <= k <= ls.len() && block_printed(b.drop_last(), ls.take(k)) && stmt_printed(b.last().node, ls.skip(k))
    }
}

/// `ls` reads as the arm `pattern => { body }`, maybe with a comma after it.
pub open spec fn arm_printed(a: MatchArm, ls: Seq<Leaf>) -> bool
    decreases a,
{
    let h = pattern_leaves(a.pattern.node) + seq![Leaf::Punct(Sym::FatArrow), Leaf::Punct(Sym::LBrace)];
    &&& h.len() < ls.len()
    &&& ls.take(h.len() as int) == h
    &&& {
        ||| (ls.last() == Leaf::Punct(Sym::RBrace) && block_printed(a.body@, ls.subrange(h.len() as int, ls.len() - 1)))
        ||| (h.len() + 1 < ls.len() && ls.last() == Leaf::Punct(Sym::Comma) && ls[ls.len() - 2] == Leaf::Punct(Sym::RBrace)
            && block_printed(a.body@, ls.subrange(h.len() as int, ls.len() - 2)))
    }
}

pub open spec fn arms_printed(arms: Seq<MatchArm>, ls: Seq<Leaf>) -> bool
    decreases arms,
{
    if arms.len() == 0 {
        ls.len() == 0
    } else {
        exists|k: int| #![trigger ls.take(k)]
            0 <= k <= ls.len() && arms_printed(arms.drop_last(), ls.take(k)) && arm_printed(arms.last(), ls.skip(k))
    }
}


pub(crate) proof fn lemma_block_push(b: Seq<Spanned<Statement>>, st: Spanned<Statement>, x: Seq<Leaf>, y: Seq<Leaf>)
    requires
        block_printed(b, x),
        stmt_printed(st.node, y),
    ensures
        block_printed(b.push(st), x + y),
{
    let ls = x + y;
    assert(ls.take(x.len() as int) =~= x);
    assert(ls.skip(x.len() as int) =~= y);
    assert(b.push(st).drop_last() =~= b);
    assert(b.push(st).last() == st);
}

pub(crate) proof fn lemma_arms_push(arms: Seq<MatchArm>, a: MatchArm, x: Seq<Leaf>, y: Seq<Leaf>)
    requires
        arms_printed(arms, x),
        arm_printed(a, y),
    ensures
        arms_printed(arms.push(a), x + y),
{
    let ls = x + y;
    assert(ls.take(x.len() as int) =~= x);
    assert(ls.skip(x.len() as int) =~= y);
    assert(arms.push(a).drop_last() =~= arms);
    assert(arms.push(a).last() == a);
}

/// The compound assignment written at token `p`, if one is.
fn compound_at(toks: &Vec<Token>, p: usize) -> (r: Option<CompoundOp>)
    ensures
        r matches Some(op) ==> p < toks@.len() && toks@[p as int].kind == TokKind::Sym(compound_sym(op)),
        r is None ==> forall|op: CompoundOp| !(p < toks@.len() && #[trigger] toks@[p as int].kind == TokKind::Sym(compound_sym(op))),
{
    if sym_is(toks, p, Sym::PlusAssign) {
        Some(CompoundOp::Add)
    } else if sym_is(toks, p, Sym::MinusAssign) {
        Some(CompoundOp::Sub)
    } else if sym_is(toks, p, Sym::StarAssign) {
        Some(CompoundOp::Mul)
    } else if sym_is(toks, p, Sym::SlashAssign) {
        Some(CompoundOp::Div)
    } else {
        None
    }
}

/// A type without parameters named `name`.
fn base_type(name: String) -> (t: Type)
    ensures
        base_type_leaves(t) == seq![Leaf::Name(name@)],
        base_named(name@, t),
        match t {
            Type::Int | Type::Real | Type::Bool | Type::String => true,
            Type::Named(n) => !is_builtin_type_name(n@),
            _ => false,
        },
{
    if name == String::from_str("int") {
        Type::Int
    } else if name == String::from_str("real") {
        Type::Real
    } else if name == String::from_str("bool") {
        Type::Bool
    } else if name == String::from_str("string") {
        Type::String
    } else {
        Type::Named(name)
    }
}

/// Two types alike, names compared by their characters.
pub open spec fn same_type(a: Type, b: Type) -> bool
    decreases a,
{
    match a {
        Type::Named(x) => b matches Type::Named(y) && x@ == y@,
        Type::Enum(x) => b matches Type::Enum(y) && x@ == y@,
        Type::Array { element, size } => b matches Type::Array { element: e2, size: s2 } && size == s2
            && same_type(*element, *e2),
        Type::Mapping { key, value } => b matches Type::Mapping { key: k2, value: v2 } && same_type(*key, *k2)
            && same_type(*value, *v2),
        Type::Int => b is Int,
        Type::Real => b is Real,
        Type::Bool => b is Bool,
        Type::String => b is String,
    }
}

/// The type without parameters a name stands for: one of the four built-in
/// types, or a declared name.
pub open spec fn base_named(n: Seq<char>, t: Type) -> bool {
    match t {
        Type::Int => n == "int"@,
        Type::Real => n == "real"@,
        Type::Bool => n == "bool"@,
        Type::String => n == "string"@,
        Type::Named(x) => x@ == n && !is_builtin_type_name(n),
        _ => false,
    }
}

/// Tokens `p..q` write the type `t`: a name not followed by `[`; a name
/// other than `map`, `[`, an integer that is not negative and fits in a
/// size, `]`; or `map [ key , value ]`.
pub open spec fn type_at(ts: Seq<Token>, p: int, q: int, t: Type) -> bool
    decreases t,
{
    &&& 0 <= p < q <= ts.len()
    &&& ts[p].kind is Ident
    &&& match t {
        Type::Mapping { key, value } => {
            &&& name_at(ts, p) == "map"@
            &&& p + 1 < ts.len() && ts[p + 1].kind == TokKind::Sym(Sym::LBracket)
            &&& ts[q - 1].kind == TokKind::Sym(Sym::RBracket)
            &&& exists|k: int| #![trigger ts[k]] type_at(ts, p + 2, k, *key) && k < ts.len()
                && ts[k].kind == TokKind::Sym(Sym::Comma) && type_at(ts, k + 1, q - 1, *value)
        },
        Type::Array { element, size } => {
            &&& q == p + 4
            &&& name_at(ts, p) != "map"@
            &&& base_named(name_at(ts, p), *element)
            &&& ts[p + 1].kind == TokKind::Sym(Sym::LBracket)
            &&& ts[p + 2].kind is Int && parse_int(ts[p + 2].kind->Int_0@) == Some(size as i64)
            &&& size <= i64::MAX
            &&& ts[p + 3].kind == TokKind::Sym(Sym::RBracket)
        },
        _ => q == p + 1 && base_named(name_at(ts, p), t)
            && !(p + 1 < ts.len() && ts[p + 1].kind == TokKind::Sym(Sym::LBracket)),
    }
}

/// For a complete reading of a type at `p`: when it is a map, its key is
/// what `res` read.
pub open spec fn map_key_read(ts: Seq<Token>, p: int, q: int, t: Type, res: Result<(Spanned<Type>, usize), ParseError>) -> bool {
    match t {
        Type::Mapping { key, value } => exists|k: int| #![trigger ts[k]] type_at(ts, p + 2, k, *key) && k < ts.len()
            && ts[k].kind == TokKind::Sym(Sym::Comma) && type_at(ts, k + 1, q - 1, *value)
            && (res matches Ok((kt, kq)) && kq == k && same_type(kt.node, *key)),
        _ => false,
    }
}

/// For a complete reading of a map type whose key ends at `k`: its value
/// is what `res` read.
pub open spec fn map_value_read(ts: Seq<Token>, k: int, q: int, t: Type, res: Result<(Spanned<Type>, usize), ParseError>) -> bool {
    match t {
        Type::Mapping { value, .. } => q >= 1 && q - 1 < ts.len() && ts[q - 1].kind == TokKind::Sym(Sym::RBracket)
            && (res matches Ok((vt, vq)) && vq == q - 1 && same_type(vt.node, *value)),
        _ => false,
    }
}

/// Two names stand for alike types.
proof fn lemma_base_named(n: Seq<char>, a: Type, b: Type)
    requires
        base_named(n, a),
        base_named(n, b),
    ensures
        same_type(a, b),
{
    reveal_strlit("int");
    reveal_strlit("real");
    reveal_strlit("bool");
    reveal_strlit("string");
    assert("int"@ != "real"@ && "int"@ != "bool"@ && "int"@ != "string"@) by {
        assert("int"@[0] == 'i' && "real"@[0] == 'r' && "bool"@[0] == 'b' && "string"@[0] == 's');
    }
    assert("real"@ != "bool"@ && "real"@ != "string"@ && "bool"@ != "string"@) by {
        assert("real"@[0] == 'r' && "bool"@[0] == 'b' && "string"@[0] == 's');
    }
}

/// A type: `int`, `real`, `bool`, `string`, a declared name, `base[size]`,
/// or `map[key, value]`.
#[verifier::rlimit(60)]
pub fn parse_type(toks: &Vec<Token>, p: usize) -> (r: Result<(Spanned<Type>, usize), ParseError>)
    requires
        p <= toks@.len(),
    ensures
        r matches Err(e) ==> e.problem != ParseProblem::BadCharacter,
        r matches Ok((t, q)) ==> p < q <= toks@.len() && leaves(toks@.subrange(p as int, q as int)) == type_leaves(t.node)
            && type_built(t.node),
        forall|t2: Type, q2: int| #[trigger] type_at(toks@, p as int, q2, t2)
            ==> (r matches Ok((t, q)) && q == q2 && same_type(t.node, t2)),
    decreases toks@.len() - p,
{
    let ntoks = toks.len();
    let ghost ts = toks@;
    let name = match ident_at(toks, p) {
        Some(x) => x,
        None => return Err(fail(toks, p, ParseProblem::UnexpectedToken)),
    };
    proof {
        reveal_strlit("map");
    }
    proof {
        lemma_leaves_one(toks@, p as int);
    }
    let is_map = name == String::from_str("map");
    if is_map && sym_is(toks, p + 1, Sym::LBracket) {
        let res = parse_type(toks, p + 2);
        proof {
            assert forall|t2: Type, q2: int| #[trigger] type_at(ts, p as int, q2, t2)
                implies map_key_read(ts, p as int, q2, t2, res) by {
                if t2 is Mapping {
                    let kk = choose|kk: int| #![trigger ts[kk]] type_at(ts, p + 2, kk, *t2->Mapping_key) && kk < ts.len()
                        && ts[kk].kind == TokKind::Sym(Sym::Comma) && type_at(ts, kk + 1, q2 - 1, *t2->Mapping_value);
                    assert(type_at(ts, p + 2, kk, *t2->Mapping_key));
                } else if !(t2 is Array) {
                    assert(ts[p + 1] == ts[p + 1]);
                }
            }
        }
        let (key, k) = match res {
            Ok(x) => x,
            Err(e) => return Err(e),
        };
        if !sym_is(toks, k, Sym::Comma) {
            return Err(fail(toks, k, ParseProblem::UnexpectedToken));
        }
        let res2 = parse_type(toks, k + 1);
        proof {
            assert forall|t2: Type, q2: int| #[trigger] type_at(ts, p as int, q2, t2)
                implies map_value_read(ts, k as int, q2, t2, res2) by {
                let kk = choose|kk: int| #![trigger ts[kk]] type_at(ts, p + 2, kk, *t2->Mapping_key) && kk < ts.len()
                    && ts[kk].kind == TokKind::Sym(Sym::Comma) && type_at(ts, kk + 1, q2 - 1, *t2->Mapping_value);
            }
        }
        let (value, v) = match res2 {
            Ok(x) => x,
            Err(e) => return Err(e),
        };
        if !sym_is(toks, v, Sym::RBracket) {
            return Err(fail(toks, v, ParseProblem::UnexpectedToken));
        }
        proof {
            let ts = toks@;
            lemma_leaves_concat(ts, p as int, p + 2, v + 1);
            lemma_leaves_concat(ts, p as int, p + 1, p + 2);
            lemma_leaves_concat(ts, p + 2, k as int, v + 1);
            lemma_leaves_concat(ts, k as int, k + 1, v + 1);
            lemma_leaves_concat(ts, k + 1, v as int, v + 1);
            lemma_leaves_one(ts, p + 1);
            lemma_leaves_one(ts, k as int);
            lemma_leaves_one(ts, v as int);
            assert(leaves(ts.subrange(p as int, v + 1)) =~= seq![Leaf::Name("map"@), Leaf::Punct(Sym::LBracket)]
                + type_leaves(key.node) + seq![Leaf::Punct(Sym::Comma)] + type_leaves(value.node)
                + seq![Leaf::Punct(Sym::RBracket)]);
        }
        proof {
            assert forall|t2: Type, q2: int| #[trigger] type_at(ts, p as int, q2, t2)
                implies v + 1 == q2 && same_type(Type::Mapping { key: Box::new(key.node), value: Box::new(value.node) }, t2) by {
                let kk = choose|kk: int| #![trigger ts[kk]] type_at(ts, p + 2, kk, *t2->Mapping_key) && kk < ts.len()
                    && ts[kk].kind == TokKind::Sym(Sym::Comma) && type_at(ts, kk + 1, q2 - 1, *t2->Mapping_value);
            }
        }
        let sp = toks[p].span.merge(toks[v].span);
        return Ok((Spanned::new(Type::Mapping { key: Box::new(key.node), value: Box::new(value.node) }, sp), v + 1));
    }
    let ghost nm = name@;
    let base = base_type(name);
    proof {
        assert forall|t2: Type, q2: int| #[trigger] type_at(ts, p as int, q2, t2) implies !(t2 is Mapping) by {
            if t2 is Mapping {
                assert(ts[p + 1] == ts[p + 1]);
            }
        }
    }
    if sym_is(toks, p + 1, Sym::LBracket) {
        proof {
            assert forall|t2: Type, q2: int| #[trigger] type_at(ts, p as int, q2, t2) implies t2 is Array by {
                assert(ts[p + 1] == ts[p + 1]);
            }
        }
        if p + 2 >= ntoks {
            return Err(fail(toks, p + 2, ParseProblem::UnexpectedEnd));
        }
        let v = match &toks[p + 2].kind {
            TokKind::Int(x) => match parse_i64(x.as_str()) {
                Some(v) => v,
                None => return Err(fail(toks, p + 2, ParseProblem::InvalidNumber)),
            },
            _ => return Err(fail(toks, p + 2, ParseProblem::UnexpectedToken)),
        };
        if v < 0 || v as u64 > usize::MAX as u64 {
            return Err(fail(toks, p + 2, ParseProblem::InvalidNumber));
        }
        if !sym_is(toks, p + 3, Sym::RBracket) {
            return Err(fail(toks, p + 3, ParseProblem::UnexpectedToken));
        }
        let size = v as u64 as usize;
        proof {
            let ts = toks@;
            lemma_leaves_concat(ts, p as int, p + 1, p + 4);
            lemma_leaves_concat(ts, p + 1, p + 2, p + 4);
            lemma_leaves_concat(ts, p + 2, p + 3, p + 4);
            lemma_leaves_one(ts, p + 1);
            lemma_leaves_one(ts, p + 2);
            lemma_leaves_one(ts, p + 3);
            assert(size as i64 == v);
            assert(leaves(ts.subrange(p as int, p + 4)) =~= base_type_leaves(base) + seq![
                Leaf::Punct(Sym::LBracket),
                Leaf::IntLeaf(size as i64),
                Leaf::Punct(Sym::RBracket),
            ]);
        }
        proof {
            assert forall|t2: Type, q2: int| #[trigger] type_at(ts, p as int, q2, t2)
                implies q2 == p + 4 && same_type(Type::Array { element: Box::new(base), size }, t2) by {
                lemma_base_named(nm, base, *t2->Array_element);
            }
        }
        let sp = toks[p].span.merge(toks[p + 3].span);
        return Ok((Spanned::new(Type::Array { element: Box::new(base), size }, sp), p + 4));
    }
    proof {
        assert forall|t2: Type, q2: int| #[trigger] type_at(ts, p as int, q2, t2)
            implies q2 == p + 1 && same_type(base, t2) by {
            if t2 is Array {
                assert(ts[p + 1] == ts[p + 1]);
            } else {
                lemma_base_named(nm, base, t2);
            }
        }
    }
    Ok((Spanned::new(base, toks[p].span), p + 1))
}


/// Two patterns alike, texts and names compared by their characters.
pub open spec fn same_pattern(a: MatchPattern, b: MatchPattern) -> bool {
    match a {
        MatchPattern::Wildcard => b is Wildcard,
        MatchPattern::IntLit(x) => b == MatchPattern::IntLit(x),
        MatchPattern::BoolLit(x) => b == MatchPattern::BoolLit(x),
        MatchPattern::StringLit(x) => b matches MatchPattern::StringLit(y) && x@ == y@,
        MatchPattern::EnumVariant { enum_name, variant } => b matches MatchPattern::EnumVariant { enum_name: n2, variant: v2 }
            && enum_name@ == n2@ && variant@ == v2@,
    }
}

/// Tokens `p..q` write the pattern `pat`: `_` (not followed by `::`), an
/// integer, `true`, `false`, a string, or a path of two or more names (not
/// followed by `::`) whose last name is the variant.
pub open spec fn pattern_at(ts: Seq<Token>, p: int, q: int, pat: MatchPattern) -> bool {
    &&& 0 <= p < q <= ts.len()
    &&& match pat {
        MatchPattern::Wildcard => q == p + 1 && ts[p].kind is Ident && name_at(ts, p) == "_"@
            && !(p + 1 < ts.len() && ts[p + 1].kind == TokKind::Sym(Sym::PathSep)),
        MatchPattern::IntLit(v) => q == p + 1 && ts[p].kind is Int && parse_int(ts[p].kind->Int_0@) == Some(v),
        MatchPattern::BoolLit(b) => q == p + 1 && ts[p].kind == TokKind::Keyword(if b { Keyword::True } else { Keyword::False }),
        MatchPattern::StringLit(x) => q == p + 1 && ts[p].kind is Str && ts[p].kind->Str_0@ == x@,
        MatchPattern::EnumVariant { enum_name, variant } => q >= p + 3 && path_tokens(ts, p, q)
            && enum_name@ == path_name(ts, p, q - 2) && variant@ == name_at(ts, q - 1)
            && !(q < ts.len() && ts[q].kind == TokKind::Sym(Sym::PathSep)),
    }
}

/// A match pattern: `_`, an integer, `true`, `false`, a string, or a path
/// `Enum::Variant` (`A::B::C` is variant `C` of enum `A::B`). When the
/// tokens at `p` write a pattern (see [`pattern_at`]), it is what is read.
pub fn parse_pattern(toks: &Vec<Token>, p: usize) -> (r: Result<(Spanned<MatchPattern>, usize), ParseError>)
    requires
        p <= toks@.len(),
    ensures
        r matches Err(e) ==> e.problem != ParseProblem::BadCharacter,
        r matches Ok((pat, q)) ==> p < q <= toks@.len()
            && leaves(toks@.subrange(p as int, q as int)) == pattern_leaves(pat.node),
        forall|pt: MatchPattern, q2: int| #[trigger] pattern_at(toks@, p as int, q2, pt)
            ==> (r matches Ok((pat, q)) && q == q2 && same_pattern(pat.node, pt)),
{
    let ntoks = toks.len();
    let ghost ts = toks@;
    if p >= ntoks {
        return Err(fail(toks, p, ParseProblem::UnexpectedEnd));
    }
    let sp = toks[p].span;
    proof {
        lemma_leaves_one(toks@, p as int);
        reveal_strlit("_");
    }
    match &toks[p].kind {
        TokKind::Int(x) => match parse_i64(x.as_str()) {
            Some(v) => Ok((Spanned::new(MatchPattern::IntLit(v), sp), p + 1)),
            None => Err(fail(toks, p, ParseProblem::InvalidNumber)),
        },
        TokKind::Str(x) => Ok((Spanned::new(MatchPattern::StringLit(x.clone()), sp), p + 1)),
        TokKind::Keyword(Keyword::True) => Ok((Spanned::new(MatchPattern::BoolLit(true), sp), p + 1)),
        TokKind::Keyword(Keyword::False) => Ok((Spanned::new(MatchPattern::BoolLit(false), sp), p + 1)),
        TokKind::Ident(x) => {
            if sym_is(toks, p + 1, Sym::PathSep) {
                let res = read_path(toks, p);
                proof {
                    assert forall|pt: MatchPattern, q2: int| #[trigger] pattern_at(ts, p as int, q2, pt)
                        implies pattern_path_read(pt, q2, res) by {
                        assert(ts[p + 1] == ts[p + 1]);
                    }
                }
                let (en, v, q) = match res {
                    Ok(x) => x,
                    Err(e) => return Err(e),
                };
                proof {
                    lemma_variant_leaves(toks@, p as int, q as int);
                }
                let sp2 = sp.merge(toks[q - 1].span);
                Ok((Spanned::new(MatchPattern::EnumVariant { enum_name: en, variant: v }, sp2), q))
            } else if *x == String::from_str("_") {
                Ok((Spanned::new(MatchPattern::Wildcard, sp), p + 1))
            } else {
                proof {
                    assert forall|pt: MatchPattern, q2: int| #[trigger] pattern_at(ts, p as int, q2, pt) implies false by {
                        if pt is EnumVariant {
                            assert(ts[p + 1] == ts[p + 1]);
                        }
                    }
                }
                Err(fail(toks, p, ParseProblem::UnexpectedToken))
            }
        },
        _ => Err(fail(toks, p, ParseProblem::UnexpectedToken)),
    }
}

/// For a complete reading of a path pattern: the path read is its names
/// and end.
pub open spec fn pattern_path_read(pt: MatchPattern, q: int, res: Result<(String, String, usize), ParseError>) -> bool {
    match pt {
        MatchPattern::EnumVariant { enum_name, variant } => res matches Ok((en, v, qr)) && qr == q && en@ == enum_name@
            && v@ == variant@,
        _ => false,
    }
}

/// The span from the first character of token `p` to the last of token `q - 1`.
pub(crate) fn span_of(toks: &Vec<Token>, p: usize, q: usize) -> (s: Span)
    requires
        p < q <= toks@.len(),
    ensures
        s.start == if toks@[p as int].span.start <= toks@[q - 1].span.start {
            toks@[p as int].span.start
        } else {
            toks@[q - 1].span.start
        },
        s.end == if toks@[p as int].span.end >= toks@[q - 1].span.end {
            toks@[p as int].span.end
        } else {
            toks@[q - 1].span.end
        },
{
    toks[p].span.merge(toks[q - 1].span)
}

/// Tokens `a..b` write the expression `e` completely (see
/// [`complete_writing`]), by the grammar of expressions at its lowest level.
pub open spec fn expr_at(ts: Seq<Token>, a: int, b: int, e: Expr) -> bool {
    exists|d: Deriv| #[trigger] complete_writing(ts, a, b, e, 0, d)
}

/// Tokens `p..q` write a statement without a block: `let name = value`,
/// `let name: type = value`, `x = value`, `x op= value` (for `+=`, `-=`,
/// `*=`, `/=`), `x[index] = value` or `x[index] op= value`, each
/// expression written completely (see [`expr_at`]) and each type as
/// [`type_at`] says.
pub open spec fn line_stmt_at(ts: Seq<Token>, p: int, q: int, st: Statement) -> bool {
    &&& 0 <= p && p + 2 < q <= ts.len()
    &&& match st {
        Statement::Let { name, ty, value } => {
            &&& ts[p].kind == TokKind::Keyword(Keyword::Let)
            &&& ts[p + 1].kind is Ident && name_at(ts, p + 1) == name.node@
            &&& match ty {
                None => ts[p + 2].kind == TokKind::Sym(Sym::Assign) && expr_at(ts, p + 3, q, value.node),
                Some(t) => ts[p + 2].kind == TokKind::Sym(Sym::Colon) && exists|k: int| #![trigger ts[k]]
                    type_at(ts, p + 3, k, t.node) && k < ts.len() && ts[k].kind == TokKind::Sym(Sym::Assign)
                    && expr_at(ts, k + 1, q, value.node),
            }
        },
        Statement::Assign(a) => ts[p].kind is Ident && name_at(ts, p) == a.target.node@
            && ts[p + 1].kind == TokKind::Sym(Sym::Assign) && expr_at(ts, p + 2, q, a.value.node),
        Statement::CompoundAssign { target, op, value } => ts[p].kind is Ident && name_at(ts, p) == target.node@
            && ts[p + 1].kind == TokKind::Sym(compound_sym(op)) && expr_at(ts, p + 2, q, value.node),
        Statement::IndexedAssign { target, index, value } => ts[p].kind is Ident && name_at(ts, p) == target.node@
            && ts[p + 1].kind == TokKind::Sym(Sym::LBracket) && exists|i: int| #![trigger ts[i]]
                expr_at(ts, p + 2, i, index.node) && i + 1 < ts.len() && ts[i].kind == TokKind::Sym(Sym::RBracket)
                && ts[i + 1].kind == TokKind::Sym(Sym::Assign) && expr_at(ts, i + 2, q, value.node),
        Statement::IndexedCompoundAssign { target, index, op, value } => ts[p].kind is Ident
            && name_at(ts, p) == target.node@ && ts[p + 1].kind == TokKind::Sym(Sym::LBracket) && exists|i: int| #![trigger ts[i]]
                expr_at(ts, p + 2, i, index.node) && i + 1 < ts.len() && ts[i].kind == TokKind::Sym(Sym::RBracket)
                && ts[i + 1].kind == TokKind::Sym(compound_sym(op)) && expr_at(ts, i + 2, q, value.node),
        _ => false,
    }
}

pub open spec fn same_opt_type(a: Option<Spanned<Type>>, b: Option<Spanned<Type>>) -> bool {
    match (a, b) {
        (None, None) => true,
        (Some(x), Some(y)) => same_type(x.node, y.node),
        _ => false,
    }
}

/// Two statements without blocks alike, up to spans (see [`same_shape`]).
pub open spec fn same_line_stmt(a: Statement, b: Statement) -> bool {
    match (a, b) {
        (Statement::Let { name, ty, value }, Statement::Let { name: n2, ty: t2, value: v2 }) => name.node@ == n2.node@
            && same_opt_type(ty, t2) && same_shape(value.node, v2.node),
        (Statement::Assign(x), Statement::Assign(y)) => x.target.node@ == y.target.node@
            && same_shape(x.value.node, y.value.node),
        (Statement::CompoundAssign { target, op, value }, Statement::CompoundAssign { target: t2, op: o2, value: v2 }) =>
            target.node@ == t2.node@ && op == o2 && same_shape(value.node, v2.node),
        (Statement::IndexedAssign { target, index, value }, Statement::IndexedAssign { target: t2, index: i2, value: v2 }) =>
            target.node@ == t2.node@ && same_shape(index.node, i2.node) && same_shape(value.node, v2.node),
        (
            Statement::IndexedCompoundAssign { target, index, op, value },
            Statement::IndexedCompoundAssign { target: t2, index: i2, op: o2, value: v2 },
        ) => target.node@ == t2.node@ && op == o2 && same_shape(index.node, i2.node) && same_shape(value.node, v2.node),
        _ => false,
    }
}

/// For a complete `let name: type = ...`: its type is what `res` read.
pub open spec fn let_type_read(ts: Seq<Token>, p: int, q: int, st: Statement, res: Result<(Spanned<Type>, usize), ParseError>) -> bool {
    match st {
        Statement::Let { ty: Some(t), value, .. } => exists|k: int| #![trigger ts[k]]
            type_at(ts, p + 3, k, t.node) && k < ts.len() && ts[k].kind == TokKind::Sym(Sym::Assign)
            && expr_at(ts, k + 1, q, value.node) && (res matches Ok((tt, kq)) && kq == k && same_type(tt.node, t.node)),
        _ => false,
    }
}

/// For a complete `let`: after what was read up to `a` (with the type
/// `ty`), `=` and the value follow.
pub open spec fn let_rest(ts: Seq<Token>, q: int, st: Statement, a: int, ty: Option<Spanned<Type>>) -> bool {
    match st {
        Statement::Let { ty: t2, value, .. } => a < ts.len() && ts[a].kind == TokKind::Sym(Sym::Assign)
            && expr_at(ts, a + 1, q, value.node) && same_opt_type(ty, t2),
        _ => false,
    }
}

/// What `res` read is the expression of the complete writing over `a..q`.
pub open spec fn expr_read(ts: Seq<Token>, a: int, q: int, e: Expr, res: Result<(Spanned<Expr>, usize), ParseError>) -> bool {
    res matches Ok((v, qv)) && qv == q && same_shape(v.node, e)
}

/// Reading an expression written completely.
pub(crate) proof fn lemma_expr_at(ts: Seq<Token>, a: int, q: int, e: Expr) -> (d: Deriv)
    requires
        expr_at(ts, a, q, e),
    ensures
        complete_writing(ts, a, q, e, 0, d),
{
    choose|d: Deriv| #[trigger] complete_writing(ts, a, q, e, 0, d)
}

/// `let name [: type] = value`.
#[verifier::rlimit(60)]
pub(crate) fn parse_let(toks: &Vec<Token>, p: usize) -> (r: Result<(Spanned<Statement>, usize), ParseError>)
    requires
        p < toks@.len(),
        toks@[p as int].kind == TokKind::Keyword(Keyword::Let),
    ensures
        r matches Err(e) ==> e.problem != ParseProblem::BadCharacter,
        r matches Ok((st, q)) ==> p < q <= toks@.len() && stmt_printed(st.node, leaves(toks@.subrange(p as int, q as int))),
        forall|st2: Statement, q2: int| #[trigger] line_stmt_at(toks@, p as int, q2, st2) && st2 is Let
            ==> (r matches Ok((st, q)) && q == q2 && same_line_stmt(st.node, st2)),
{
    let ntoks = toks.len();
    let ghost ts = toks@;
    let name = match ident_at(toks, p + 1) {
        Some(x) => x,
        None => return Err(fail(toks, p + 1, ParseProblem::UnexpectedToken)),
    };
    let name = Spanned::new(name, toks[p + 1].span);
    let mut a = p + 2;
    let mut ty: Option<Spanned<Type>> = None;
    proof {
        lemma_leaves_concat(toks@, p as int, p + 1, p + 2);
        lemma_leaves_one(toks@, p as int);
        lemma_leaves_one(toks@, p + 1);
        assert(leaves(toks@.subrange(p as int, p + 2)) =~= seq![Leaf::Kw(Keyword::Let), Leaf::Name(name.node@)]);
    }
    if sym_is(toks, a, Sym::Colon) {
        let res = parse_type(toks, a + 1);
        proof {
            assert forall|st2: Statement, q2: int| #[trigger] line_stmt_at(ts, p as int, q2, st2) && st2 is Let
                implies let_type_read(ts, p as int, q2, st2, res) by {
                let t = st2->Let_ty;
                if t is Some {
                    let k = choose|k: int| #![trigger ts[k]] type_at(ts, p + 3, k, t->0.node) && k < ts.len()
                        && ts[k].kind == TokKind::Sym(Sym::Assign) && expr_at(ts, k + 1, q2, st2->Let_value.node);
                    assert(type_at(ts, p + 3, k, t->0.node));
                }
            }
        }
        let (t, b) = match res {
            Ok(x) => x,
            Err(e) => return Err(e),
        };
        proof {
            lemma_leaves_concat(toks@, p as int, p + 2, b as int);
            lemma_leaves_concat(toks@, p + 2, p + 3, b as int);
            lemma_leaves_one(toks@, p + 2);
            assert(leaves(toks@.subrange(p as int, b as int)) =~= seq![Leaf::Kw(Keyword::Let), Leaf::Name(name.node@)]
                + (seq![Leaf::Punct(Sym::Colon)] + type_leaves(t.node)));
        }
        ty = Some(t);
        a = b;
    }
    let ghost head = seq![Leaf::Kw(Keyword::Let), Leaf::Name(name.node@)] + annotation_leaves(ty);
    assert(leaves(toks@.subrange(p as int, a as int)) =~= head);
    proof {
        assert forall|st2: Statement, q2: int| #[trigger] line_stmt_at(ts, p as int, q2, st2) && st2 is Let
            implies let_rest(ts, q2, st2, a as int, ty) by {
            if st2->Let_ty is Some && a == p + 2 {
                assert(ts[p + 2] == ts[p + 2]);
            }
            if st2->Let_ty is Some && a != p + 2 {
                let t = st2->Let_ty;
                let k = choose|k: int| #![trigger ts[k]] type_at(ts, p + 3, k, t->0.node) && k < ts.len()
                    && ts[k].kind == TokKind::Sym(Sym::Assign) && expr_at(ts, k + 1, q2, st2->Let_value.node);
                assert(let_type_read(ts, p as int, q2, st2, Ok::<(Spanned<Type>, usize), ParseError>((ty->0, a))));
            }
        }
    }
    if !sym_is(toks, a, Sym::Assign) {
        return Err(fail(toks, a, ParseProblem::UnexpectedToken));
    }
    let res = pratt_parse(toks, a + 1, 0);
    proof {
        assert forall|st2: Statement, q2: int| #[trigger] line_stmt_at(ts, p as int, q2, st2) && st2 is Let
            implies expr_read(ts, a + 1, q2, st2->Let_value.node, res) by {
            assert(let_rest(ts, q2, st2, a as int, ty));
            lemma_expr_at(ts, a + 1, q2, st2->Let_value.node);
        }
    }
    let (value, q) = match res {
        Ok(x) => x,
        Err(e) => return Err(e),
    };
    proof {
        lemma_leaves_concat(toks@, p as int, a as int, q as int);
        lemma_leaves_concat(toks@, a as int, a + 1, q as int);
        lemma_leaves_one(toks@, a as int);
        assert(leaves(toks@.subrange(p as int, q as int)) =~= let_leaves(name.node@, ty, value.node));
    }
    let sp = span_of(toks, p, q);
    Ok((Spanned::new(Statement::Let { name, ty, value }, sp), q))
}

/// `x = e`, `x op= e`, `x[i] = e` and `x[i] op= e`.
/// The four forms of assignment.
pub open spec fn is_assignment(st: Statement) -> bool {
    st is Assign || st is CompoundAssign || st is IndexedAssign || st is IndexedCompoundAssign
}

/// The value an assignment writes.
pub open spec fn assigned_value(st: Statement) -> Expr {
    match st {
        Statement::Assign(a) => a.value.node,
        Statement::CompoundAssign { value, .. } => value.node,
        Statement::IndexedAssign { value, .. } => value.node,
        Statement::IndexedCompoundAssign { value, .. } => value.node,
        _ => Expr::BoolLit(false),
    }
}

/// The index of an assignment to an element.
pub open spec fn assigned_index(st: Statement) -> Expr {
    match st {
        Statement::IndexedAssign { index, .. } => index.node,
        Statement::IndexedCompoundAssign { index, .. } => index.node,
        _ => Expr::BoolLit(false),
    }
}

/// The operator of an assignment: `None` for `=`.
pub open spec fn assigned_op(st: Statement) -> Option<CompoundOp> {
    match st {
        Statement::CompoundAssign { op, .. } => Some(op),
        Statement::IndexedCompoundAssign { op, .. } => Some(op),
        _ => None,
    }
}

/// For an assignment to an element whose index ends at `i`: after `]`, its
/// operator and its value follow.
pub open spec fn indexed_rest(ts: Seq<Token>, i: int, q: int, st: Statement) -> bool {
    &&& st is IndexedAssign || st is IndexedCompoundAssign
    &&& i + 1 < ts.len()
    &&& ts[i + 1].kind == TokKind::Sym(match assigned_op(st) {
        Some(o) => compound_sym(o),
        None => Sym::Assign,
    })
    &&& expr_at(ts, i + 2, q, assigned_value(st))
}

/// For a complete assignment to an element: its index is what `res` read.
pub open spec fn index_read(ts: Seq<Token>, p: int, q: int, st: Statement, res: Result<(Spanned<Expr>, usize), ParseError>) -> bool {
    &&& st is IndexedAssign || st is IndexedCompoundAssign
    &&& res matches Ok((ix, i)) && i + 1 < ts.len() && ts[i as int].kind == TokKind::Sym(Sym::RBracket)
        && indexed_rest(ts, i as int, q, st) && same_shape(ix.node, assigned_index(st))
}

/// For a complete assignment whose operator stands at `k`: it is `op`, and
/// the value follows.
pub open spec fn op_rest(ts: Seq<Token>, k: int, q: int, st: Statement, op: Option<CompoundOp>) -> bool {
    &&& op == assigned_op(st)
    &&& k < ts.len()
    &&& op is None ==> ts[k].kind == TokKind::Sym(Sym::Assign)
    &&& expr_at(ts, k + 1, q, assigned_value(st))
}

/// An assignment to a name or an element: `x = e`, `x op= e`, `x[i] = e`,
/// `x[i] op= e`.
#[verifier::rlimit(60)]
pub(crate) fn parse_assign(toks: &Vec<Token>, p: usize) -> (r: Result<(Spanned<Statement>, usize), ParseError>)
    requires
        p < toks@.len(),
        toks@[p as int].kind is Ident,
    ensures
        r matches Err(e) ==> e.problem != ParseProblem::BadCharacter,
        r matches Ok((st, q)) ==> p < q <= toks@.len() && stmt_printed(st.node, leaves(toks@.subrange(p as int, q as int))),
        forall|st2: Statement, q2: int| #[trigger] line_stmt_at(toks@, p as int, q2, st2) && is_assignment(st2)
            ==> (r matches Ok((st, q)) && q == q2 && same_line_stmt(st.node, st2)),
{
    let ntoks = toks.len();
    let ghost ts = toks@;
    let name = match ident_at(toks, p) {
        Some(x) => x,
        None => return Err(fail(toks, p, ParseProblem::UnexpectedToken)),
    };
    let target = Spanned::new(name, toks[p].span);
    proof {
        lemma_leaves_one(toks@, p as int);
    }
    if sym_is(toks, p + 1, Sym::LBracket) {
        let res = pratt_parse(toks, p + 2, 0);
        proof {
            assert forall|st2: Statement, q2: int| #[trigger] line_stmt_at(ts, p as int, q2, st2) && is_assignment(st2)
                implies index_read(ts, p as int, q2, st2, res) by {
                if st2 is Assign || st2 is CompoundAssign {
                    assert(ts[p + 1] == ts[p + 1]);
                } else {
                    let ix = assigned_index(st2);
                    let i = choose|i: int| #![trigger ts[i]] expr_at(ts, p + 2, i, ix) && i + 1 < ts.len()
                        && ts[i].kind == TokKind::Sym(Sym::RBracket) && indexed_rest(ts, i, q2, st2);
                    lemma_expr_at(ts, p + 2, i, ix);
                }
            }
        }
        let (index, i) = match res {
            Ok(x) => x,
            Err(e) => return Err(e),
        };
        proof {
            assert forall|st2: Statement, q2: int| #[trigger] line_stmt_at(ts, p as int, q2, st2) && is_assignment(st2)
                implies i + 1 < ts.len() && ts[i as int].kind == TokKind::Sym(Sym::RBracket) && indexed_rest(ts, i as int, q2, st2)
                && same_shape(index.node, assigned_index(st2)) by {
                assert(index_read(ts, p as int, q2, st2, Ok::<(Spanned<Expr>, usize), ParseError>((index, i))));
            }
        }
        if !sym_is(toks, i, Sym::RBracket) {
            return Err(fail(toks, i, ParseProblem::UnexpectedToken));
        }
        let op = compound_at(toks, i + 1);
        proof {
            assert forall|st2: Statement, q2: int| #[trigger] line_stmt_at(ts, p as int, q2, st2) && is_assignment(st2)
                implies op_rest(ts, i + 1, q2, st2, op) by {
                assert(indexed_rest(ts, i as int, q2, st2));
                if st2 is IndexedCompoundAssign {
                    let o2 = st2->IndexedCompoundAssign_op;
                    assert(ts[i + 1].kind == TokKind::Sym(compound_sym(o2)));
                }
            }
        }
        if op.is_none() && !sym_is(toks, i + 1, Sym::Assign) {
            return Err(fail(toks, i + 1, ParseProblem::UnexpectedToken));
        }
        let res2 = pratt_parse(toks, i + 2, 0);
        proof {
            assert forall|st2: Statement, q2: int| #[trigger] line_stmt_at(ts, p as int, q2, st2) && is_assignment(st2)
                implies expr_read(ts, i + 2, q2, assigned_value(st2), res2) by {
                assert(op_rest(ts, i + 1, q2, st2, op));
                lemma_expr_at(ts, i + 2, q2, assigned_value(st2));
            }
        }
        let (value, q) = match res2 {
            Ok(x) => x,
            Err(e) => return Err(e),
        };
        let ghost opsym = match op {
            Some(o) => compound_sym(o),
            None => Sym::Assign,
        };
        proof {
            let ts = toks@;
            lemma_leaves_concat(ts, p as int, p + 2, q as int);
            lemma_leaves_concat(ts, p as int, p + 1, p + 2);
            lemma_leaves_concat(ts, p + 2, i as int, q as int);
            lemma_leaves_concat(ts, i as int, i + 2, q as int);
            lemma_leaves_concat(ts, i as int, i + 1, i + 2);
            lemma_leaves_one(ts, p + 1);
            lemma_leaves_one(ts, i as int);
            lemma_leaves_one(ts, i + 1);
            assert(leaves(ts.subrange(p as int, q as int)) =~= seq![Leaf::Name(target.node@), Leaf::Punct(Sym::LBracket)]
                + expr_leaves(index.node) + seq![Leaf::Punct(Sym::RBracket), Leaf::Punct(opsym)] + expr_leaves(value.node));
        }
        let sp = span_of(toks, p, q);
        let st = match op {
            Some(op) => Statement::IndexedCompoundAssign { target, index, op, value },
            None => Statement::IndexedAssign { target, index, value },
        };
        return Ok((Spanned::new(st, sp), q));
    }
    let op = compound_at(toks, p + 1);
    proof {
        assert forall|st2: Statement, q2: int| #[trigger] line_stmt_at(ts, p as int, q2, st2) && is_assignment(st2)
            implies op_rest(ts, p + 1, q2, st2, op) by {
            if st2 is IndexedAssign || st2 is IndexedCompoundAssign {
                assert(ts[p + 1] == ts[p + 1]);
            }
            if st2 is CompoundAssign {
                let o2 = st2->CompoundAssign_op;
                assert(ts[p + 1].kind == TokKind::Sym(compound_sym(o2)));
            }
        }
    }
    if op.is_none() && !sym_is(toks, p + 1, Sym::Assign) {
        return Err(fail(toks, p + 1, ParseProblem::UnexpectedToken));
    }
    let res2 = pratt_parse(toks, p + 2, 0);
    proof {
        assert forall|st2: Statement, q2: int| #[trigger] line_stmt_at(ts, p as int, q2, st2) && is_assignment(st2)
            implies expr_read(ts, p + 2, q2, assigned_value(st2), res2) by {
            assert(op_rest(ts, p + 1, q2, st2, op));
            lemma_expr_at(ts, p + 2, q2, assigned_value(st2));
        }
    }
    let (value, q) = match res2 {
        Ok(x) => x,
        Err(e) => return Err(e),
    };
    let ghost opsym = match op {
        Some(o) => compound_sym(o),
        None => Sym::Assign,
    };
    proof {
        let ts = toks@;
        lemma_leaves_concat(ts, p as int, p + 2, q as int);
        lemma_leaves_concat(ts, p as int, p + 1, p + 2);
        lemma_leaves_one(ts, p + 1);
        assert(leaves(ts.subrange(p as int, q as int)) =~= seq![Leaf::Name(target.node@), Leaf::Punct(opsym)]
            + expr_leaves(value.node));
    }
    let sp = span_of(toks, p, q);
    let st = match op {
        Some(op) => Statement::CompoundAssign { target, op, value },
        None => Statement::Assign(Assignment { target, value }),
    };
    Ok((Spanned::new(st, sp), q))
}


/// One member of a state body, as it was written.
pub enum StateMember {
    FieldDecl(Field),
    ConstDecl(ConstDef),
    InvariantDecl(Invariant),
    InitDecl(InitBlock),
    TransitionDecl(Transition),
}

/// One clause of a transition body, as it was written: a `where` or an
/// `ensure` block, an `emit`, or a statement (`assert` among them).
pub enum Clause {
    Where(Vec<Spanned<Expr>>),
    Ensure(Vec<Spanned<Expr>>),
    EmitClause(Spanned<Emit>),
    Stmt(Spanned<Statement>),
}

/// The leaves of expressions written one after another.
pub open spec fn exprs_leaves(es: Seq<Spanned<Expr>>) -> Seq<Leaf>
    decreases es.len(),
{
    if es.len() == 0 {
        Seq::empty()
    } else {
        exprs_leaves(es.drop_last()) + expr_leaves(es.last().node)
    }
}

pub open spec fn param_leaves(pm: Param) -> Seq<Leaf> {
    seq![Leaf::Name(pm.name.node@), Leaf::Punct(Sym::Colon)] + type_leaves(pm.ty.node)
}

/// The leaves of a parameter list, commas between (its parentheses leave none).
pub open spec fn params_leaves(ps: Seq<Param>) -> Seq<Leaf>
    decreases ps.len(),
{
    if ps.len() == 0 {
        Seq::empty()
    } else if ps.len() == 1 {
        param_leaves(ps[0])
    } else {
        params_leaves(ps.drop_last()) + seq![Leaf::Punct(Sym::Comma)] + param_leaves(ps.last())
    }
}

pub open spec fn params_built(ps: Seq<Param>) -> bool {
    forall|i: int| 0 <= i < ps.len() ==> type_built(#[trigger] ps[i].ty.node)
}

pub open spec fn field_leaves(f: Field) -> Seq<Leaf> {
    seq![Leaf::Name(f.name.node@), Leaf::Punct(Sym::Colon)] + type_leaves(f.ty.node)
}

pub open spec fn const_leaves(c: ConstDef) -> Seq<Leaf> {
    seq![Leaf::Kw(Keyword::Const), Leaf::Name(c.name.node@), Leaf::Punct(Sym::Colon)] + type_leaves(c.ty.node)
        + seq![Leaf::Punct(Sym::Assign)] + expr_leaves(c.value.node)
}

/// The leaves of a name that may be left out.
pub open spec fn optional_name_leaves(n: Option<Spanned<String>>) -> Seq<Leaf> {
    match n {
        Some(x) => seq![Leaf::Name(x.node@)],
        None => Seq::empty(),
    }
}

/// `invariant [name] { condition }`.
pub open spec fn invariant_leaves(i: Invariant) -> Seq<Leaf> {
    seq![Leaf::Kw(Keyword::Invariant)] + optional_name_leaves(i.name) + seq![Leaf::Punct(Sym::LBrace)] + expr_leaves(i.condition.node) + seq![Leaf::Punct(Sym::RBrace)]
}

pub open spec fn assigns_leaves(a: Seq<Assignment>) -> Seq<Leaf>
    decreases a.len(),
{
    if a.len() == 0 {
        Seq::empty()
    } else {
        assigns_leaves(a.drop_last()) + seq![Leaf::Name(a.last().target.node@), Leaf::Punct(Sym::Assign)]
            + expr_leaves(a.last().value.node)
    }
}

/// `init { target = value ... }`.
pub open spec fn init_leaves(b: InitBlock) -> Seq<Leaf> {
    seq![Leaf::Kw(Keyword::Init), Leaf::Punct(Sym::LBrace)] + assigns_leaves(b.assignments@) + seq![Leaf::Punct(Sym::RBrace)]
}

/// `emit Name(args)`; the parentheses may be left out when there are no arguments.
pub open spec fn emit_leaves(e: Emit) -> Seq<Leaf> {
    seq![Leaf::Kw(Keyword::Emit), Leaf::Name(e.event_name.node@)] + args_leaves(e.args@)
}

pub open spec fn clause_printed(c: Clause, ls: Seq<Leaf>) -> bool {
    match c {
        Clause::Where(es) => ls == seq![Leaf::Kw(Keyword::Where), Leaf::Punct(Sym::LBrace)] + exprs_leaves(es@)
            + seq![Leaf::Punct(Sym::RBrace)],
        Clause::Ensure(es) => ls == seq![Leaf::Kw(Keyword::Ensure), Leaf::Punct(Sym::LBrace)] + exprs_leaves(es@)
            + seq![Leaf::Punct(Sym::RBrace)],
        Clause::EmitClause(e) => ls == emit_leaves(e.node),
        Clause::Stmt(st) => stmt_printed(st.node, ls),
    }
}

pub open spec fn clauses_printed(cs: Seq<Clause>, ls: Seq<Leaf>) -> bool
    decreases cs.len(),
{
    if cs.len() == 0 {
        ls.len() == 0
    } else {
        exists|k: int| #![trigger ls.take(k)]
            0 <= k <= ls.len() && clauses_printed(cs.drop_last(), ls.take(k)) && clause_printed(cs.last(), ls.skip(k))
    }
}

/// The `where` conditions of the clauses, in order.
pub open spec fn pre_of(cs: Seq<Clause>) -> Seq<Spanned<Expr>>
    decreases cs.len(),
{
    if cs.len() == 0 {
        Seq::empty()
    } else {
        pre_of(cs.drop_last()) + match cs.last() {
            Clause::Where(es) => es@,
            _ => Seq::empty(),
        }
    }
}

/// The `ensure` conditions of the clauses, in order.
pub open spec fn post_of(cs: Seq<Clause>) -> Seq<Spanned<Expr>>
    decreases cs.len(),
{
    if cs.len() == 0 {
        Seq::empty()
    } else {
        post_of(cs.drop_last()) + match cs.last() {
            Clause::Ensure(es) => es@,
            _ => Seq::empty(),
        }
    }
}

/// The statements of the clauses, in order.
pub open spec fn body_of(cs: Seq<Clause>) -> Seq<Spanned<Statement>>
    decreases cs.len(),
{
    if cs.len() == 0 {
        Seq::empty()
    } else {
        body_of(cs.drop_last()) + match cs.last() {
            Clause::Stmt(st) => seq![st],
            _ => Seq::empty(),
        }
    }
}

/// The `emit` clauses, in order.
pub open spec fn emits_of(cs: Seq<Clause>) -> Seq<Spanned<Emit>>
    decreases cs.len(),
{
    if cs.len() == 0 {
        Seq::empty()
    } else {
        emits_of(cs.drop_last()) + match cs.last() {
            Clause::EmitClause(e) => seq![e],
            _ => Seq::empty(),
        }
    }
}

/// The clauses `cs` give the transition `t` its conditions, statements and events.
pub open spec fn clauses_give(cs: Seq<Clause>, t: Transition) -> bool {
    &&& pre_of(cs) == t.preconditions@
    &&& body_of(cs) == t.body@
    &&& post_of(cs) == t.postconditions@
    &&& emits_of(cs) == t.emits@
}

/// `transition name(params) { clauses }`, the clauses in any order.
pub open spec fn transition_printed(t: Transition, ls: Seq<Leaf>) -> bool {
    let h = seq![Leaf::Kw(Keyword::Transition), Leaf::Name(t.name.node@)] + params_leaves(t.params@)
        + seq![Leaf::Punct(Sym::LBrace)];
    &&& h.len() < ls.len()
    &&& ls.take(h.len() as int) == h
    &&& ls.last() == Leaf::Punct(Sym::RBrace)
    &&& params_built(t.params@)
    &&& exists|cs: Seq<Clause>| #![trigger clauses_printed(cs, ls.subrange(h.len() as int, ls.len() - 1))]
        clauses_printed(cs, ls.subrange(h.len() as int, ls.len() - 1)) && clauses_give(cs, t)
}

pub open spec fn member_printed(m: StateMember, ls: Seq<Leaf>) -> bool {
    match m {
        StateMember::FieldDecl(f) => ls == field_leaves(f) && type_built(f.ty.node),
        StateMember::ConstDecl(c) => ls == const_leaves(c) && type_built(c.ty.node),
        StateMember::InvariantDecl(i) => ls == invariant_leaves(i),
        StateMember::InitDecl(b) => ls == init_leaves(b),
        StateMember::TransitionDecl(t) => transition_printed(t, ls),
    }
}

pub open spec fn members_printed(ms: Seq<StateMember>, ls: Seq<Leaf>) -> bool
    decreases ms.len(),
{
    if ms.len() == 0 {
        ls.len() == 0
    } else {
        exists|k: int| #![trigger ls.take(k)]
            0 <= k <= ls.len() && members_printed(ms.drop_last(), ls.take(k)) && member_printed(ms.last(), ls.skip(k))
    }
}

pub open spec fn fields_of(ms: Seq<StateMember>) -> Seq<Field>
    decreases ms.len(),
{
    if ms.len() == 0 {
        Seq::empty()
    } else {
        fields_of(ms.drop_last()) + match ms.last() {
            StateMember::FieldDecl(f) => seq![f],
            _ => Seq::empty(),
        }
    }
}

pub open spec fn consts_of(ms: Seq<StateMember>) -> Seq<ConstDef>
    decreases ms.len(),
{
    if ms.len() == 0 {
        Seq::empty()
    } else {
        consts_of(ms.drop_last()) + match ms.last() {
            StateMember::ConstDecl(c) => seq![c],
            _ => Seq::empty(),
        }
    }
}

pub open spec fn invariants_of(ms: Seq<StateMember>) -> Seq<Invariant>
    decreases ms.len(),
{
    if ms.len() == 0 {
        Seq::empty()
    } else {
        invariants_of(ms.drop_last()) + match ms.last() {
            StateMember::InvariantDecl(i) => seq![i],
            _ => Seq::empty(),
        }
    }
}

pub open spec fn transitions_of(ms: Seq<StateMember>) -> Seq<Transition>
    decreases ms.len(),
{
    if ms.len() == 0 {
        Seq::empty()
    } else {
        transitions_of(ms.drop_last()) + match ms.last() {
            StateMember::TransitionDecl(t) => seq![t],
            _ => Seq::empty(),
        }
    }
}

/// The last `init` block of the members, if there is one.
pub open spec fn init_of(ms: Seq<StateMember>) -> Option<InitBlock>
    decreases ms.len(),
{
    if ms.len() == 0 {
        None
    } else {
        match ms.last() {
            StateMember::InitDecl(b) => Some(b),
            _ => init_of(ms.drop_last()),
        }
    }
}

/// The members `ms` give the state `sd` its fields, constants, invariants,
/// init block and transitions.
pub open spec fn members_give(ms: Seq<StateMember>, sd: StateDef) -> bool {
    &&& fields_of(ms) == sd.fields@
    &&& consts_of(ms) == sd.constants@
    &&& invariants_of(ms) == sd.invariants@
    &&& init_of(ms) == sd.init
    &&& transitions_of(ms) == sd.transitions@
}

/// `state Name { members }`, the members in any order.
pub open spec fn state_printed(sd: StateDef, ls: Seq<Leaf>) -> bool {
    let h = seq![Leaf::Kw(Keyword::State), Leaf::Name(sd.name.node@), Leaf::Punct(Sym::LBrace)];
    &&& h.len() < ls.len()
    &&& ls.take(h.len() as int) == h
    &&& ls.last() == Leaf::Punct(Sym::RBrace)
    &&& exists|ms: Seq<StateMember>| #![trigger members_printed(ms, ls.subrange(h.len() as int, ls.len() - 1))]
        members_printed(ms, ls.subrange(h.len() as int, ls.len() - 1)) && members_give(ms, sd)
}

/// The variant names, commas between.
pub open spec fn variants_leaves(vs: Seq<Spanned<String>>) -> Seq<Leaf>
    decreases vs.len(),
{
    if vs.len() == 0 {
        Seq::empty()
    } else if vs.len() == 1 {
        seq![Leaf::Name(vs[0].node@)]
    } else {
        variants_leaves(vs.drop_last()) + seq![Leaf::Punct(Sym::Comma), Leaf::Name(vs.last().node@)]
    }
}

/// `enum Name { A, B, ... }` with at least one variant, a comma allowed after the last.
pub open spec fn enum_printed(e: EnumDef, ls: Seq<Leaf>) -> bool {
    let h = seq![Leaf::Kw(Keyword::Enum), Leaf::Name(e.name.node@), Leaf::Punct(Sym::LBrace)];
    &&& e.variants@.len() >= 1
    &&& {
        ||| ls == h + variants_leaves(e.variants@) + seq![Leaf::Punct(Sym::RBrace)]
        ||| ls == h + variants_leaves(e.variants@) + seq![Leaf::Punct(Sym::Comma), Leaf::Punct(Sym::RBrace)]
    }
}

/// Fields of a record type, each maybe followed by a comma.
pub open spec fn record_fields_printed(fs: Seq<Field>, ls: Seq<Leaf>) -> bool
    decreases fs.len(),
{
    if fs.len() == 0 {
        ls.len() == 0
    } else {
        exists|k: int| #![trigger ls.take(k)]
            0 <= k <= ls.len() && record_fields_printed(fs.drop_last(), ls.take(k)) && type_built(fs.last().ty.node) && {
                ||| ls.skip(k) == field_leaves(fs.last())
                ||| ls.skip(k) == field_leaves(fs.last()) + seq![Leaf::Punct(Sym::Comma)]
            }
    }
}

/// `type Name { fields }` or `type Name = type [where condition]`.
pub open spec fn typedef_printed(td: TypeDef, ls: Seq<Leaf>) -> bool {
    match td.alias {
        None => {
            let h = seq![Leaf::Kw(Keyword::Type), Leaf::Name(td.name.node@), Leaf::Punct(Sym::LBrace)];
            &&& td.refinement is None
            &&& h.len() < ls.len()
            &&& ls.take(h.len() as int) == h
            &&& ls.last() == Leaf::Punct(Sym::RBrace)
            &&& record_fields_printed(td.fields@, ls.subrange(h.len() as int, ls.len() - 1))
        },
        Some(t) => {
            &&& td.fields@.len() == 0
            &&& type_built(t.node)
            &&& ls == seq![Leaf::Kw(Keyword::Type), Leaf::Name(td.name.node@), Leaf::Punct(Sym::Assign)] + type_leaves(t.node)
                + match td.refinement {
                    Some(c) => seq![Leaf::Kw(Keyword::Where)] + expr_leaves(c.node),
                    None => Seq::empty(),
                }
        },
    }
}

/// `import "path" [as alias]`.
pub open spec fn import_leaves(im: Import) -> Seq<Leaf> {
    seq![Leaf::Kw(Keyword::Import), Leaf::StrLeaf(im.path.node@)] + match im.alias {
        Some(a) => seq![Leaf::Kw(Keyword::As), Leaf::Name(a.node@)],
        None => Seq::empty(),
    }
}

/// `[extern] fn name(params) -> type`, then a body in braces or none.
pub open spec fn fn_printed(f: FnDef, ls: Seq<Leaf>) -> bool {
    let h = (if f.is_extern { seq![Leaf::Kw(Keyword::Extern)] } else { Seq::empty() })
        + seq![Leaf::Kw(Keyword::Fn), Leaf::Name(f.name.node@)] + params_leaves(f.params@) + seq![Leaf::Punct(Sym::Arrow)]
        + type_leaves(f.return_type.node);
    &&& params_built(f.params@)
    &&& type_built(f.return_type.node)
    &&& h.len() <= ls.len()
    &&& ls.take(h.len() as int) == h
    &&& match f.body {
        None => ls.len() == h.len(),
        Some(b) => h.len() + 2 <= ls.len() && ls[h.len() as int] == Leaf::Punct(Sym::LBrace)
            && ls.last() == Leaf::Punct(Sym::RBrace) && block_printed(b@, ls.subrange(h.len() as int + 1, ls.len() - 1)),
    }
}

pub open spec fn item_printed(it: Item, ls: Seq<Leaf>) -> bool {
    match it {
        Item::Import(im) => ls == import_leaves(im),
        Item::EnumDef(e) => enum_printed(e, ls),
        Item::TypeDef(td) => typedef_printed(td, ls),
        Item::ConstDef(c) => ls == const_leaves(c) && type_built(c.ty.node),
        Item::State(sd) => state_printed(sd, ls),
        Item::Function(f) => fn_printed(f, ls),
    }
}

/// `ls` reads as the items, one after the other.
pub open spec fn items_printed(items: Seq<Spanned<Item>>, ls: Seq<Leaf>) -> bool
    decreases items.len(),
{
    if items.len() == 0 {
        ls.len() == 0
    } else {
        exists|k: int| #![trigger ls.take(k)]
            0 <= k <= ls.len() && items_printed(items.drop_last(), ls.take(k)) && item_printed(items.last().node, ls.skip(k))
    }
}


pub(crate) proof fn lemma_exprs_push(es: Seq<Spanned<Expr>>, e: Spanned<Expr>)
    ensures
        exprs_leaves(es.push(e)) == exprs_leaves(es) + expr_leaves(e.node),
{
    assert(es.push(e).drop_last() =~= es);
}

/// An expression made of all the tokens: an expression the tokens write by
/// the grammar of expressions (see [`writes`]), with its leaves in order
/// (see [`reads_expr`]). There is one exactly when the tokens write some
/// expression, and every expression they write has its shape (see
/// [`same_shape`]): the grammar reads the tokens one way. Otherwise the
/// error is not `BadCharacter`; tokens left over after the longest
/// expression at the start are an `UnexpectedToken` error at the first of
/// them.
pub fn build_expr(toks: &Vec<Token>) -> (r: Result<Spanned<Expr>, ParseError>)
    ensures
        r matches Err(e) ==> e.problem != ParseProblem::BadCharacter,
        r matches Ok(e) ==> reads_expr(toks@, 0, toks@.len() as int, e.node),
        r matches Ok(e) ==> written(toks@, 0, toks@.len() as int, e.node, 0),
        r is Ok <==> exists|e2: Expr| #[trigger] written(toks@, 0, toks@.len() as int, e2, 0),
        r matches Ok(e) ==> forall|e2: Expr| #[trigger] written(toks@, 0, toks@.len() as int, e2, 0) ==> same_shape(e.node, e2),
        toks@.len() == 0 ==> r is Err,
{
    let ghost ts = toks@;
    let ghost n = toks@.len() as int;
    let res = pratt_parse(toks, 0, 0);
    proof {
        assert forall|e2: Expr| #[trigger] written(ts, 0, n, e2, 0)
            implies (res matches Ok((e, q)) && q == n && same_shape(e.node, e2)) by {
            let d2 = choose|d: Deriv| #[trigger] writes(ts, 0, n, e2, 0, d) && (wopen(e2, d) ==> closes(ts, n));
            assert(complete_writing(ts, 0, n, e2, 0, d2));
        }
    }
    let (e, q) = match res {
        Ok(x) => x,
        Err(err) => return Err(err),
    };
    if q < toks.len() {
        return Err(fail(toks, q, ParseProblem::UnexpectedToken));
    }
    Ok(e)
}

} // verus!
