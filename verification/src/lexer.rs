//! Splitting program text into tokens. Positions are counted in characters.
use vstd::prelude::*;
use crate::ast::Span;
use crate::cli::{first_index, is_ws, lemma_first_index, lemma_first_index_at, lemma_first_index_none};
use crate::text::chars_of;

verus! {

#[derive(Clone, Copy, Debug, PartialEq, Eq, Structural)]
pub enum Keyword {
    State,
    Enum,
    Const,
    Type,
    Fn,
    Extern,
    Import,
    As,
    Invariant,
    Init,
    Transition,
    Where,
    Ensure,
    Emit,
    Assert,
    If,
    Else,
    Let,
    Match,
    Forall,
    Exists,
    In,
    Old,
    True,
    False,
}

/// How a keyword is written.
pub open spec fn keyword_text(k: Keyword) -> Seq<char> {
    match k {
        Keyword::State => "state"@,
        Keyword::Enum => "enum"@,
        Keyword::Const => "const"@,
        Keyword::Type => "type"@,
        Keyword::Fn => "fn"@,
        Keyword::Extern => "extern"@,
        Keyword::Import => "import"@,
        Keyword::As => "as"@,
        Keyword::Invariant => "invariant"@,
        Keyword::Init => "init"@,
        Keyword::Transition => "transition"@,
        Keyword::Where => "where"@,
        Keyword::Ensure => "ensure"@,
        Keyword::Emit => "emit"@,
        Keyword::Assert => "assert"@,
        Keyword::If => "if"@,
        Keyword::Else => "else"@,
        Keyword::Let => "let"@,
        Keyword::Match => "match"@,
        Keyword::Forall => "forall"@,
        Keyword::Exists => "exists"@,
        Keyword::In => "in"@,
        Keyword::Old => "old"@,
        Keyword::True => "true"@,
        Keyword::False => "false"@,
    }
}

/// Punctuation and operators.
#[derive(Clone, Copy, Debug, PartialEq, Eq, Structural)]
pub enum Sym {
    LBrace,
    RBrace,
    LParen,
    RParen,
    LBracket,
    RBracket,
    Comma,
    Colon,
    Semi,
    Dot,
    DotDot,
    PathSep,
    FatArrow,
    Arrow,
    Assign,
    PlusAssign,
    MinusAssign,
    StarAssign,
    SlashAssign,
    Plus,
    Minus,
    Star,
    Slash,
    Percent,
    EqEq,
    NotEq,
    Lt,
    Gt,
    Le,
    Ge,
    AndAnd,
    OrOr,
    Bang,
    Implies,
}

/// How a symbol is written.
pub open spec fn sym_text(s: Sym) -> Seq<char> {
    match s {
        Sym::LBrace => seq!['{'],
        Sym::RBrace => seq!['}'],
        Sym::LParen => seq!['('],
        Sym::RParen => seq![')'],
        Sym::LBracket => seq!['['],
        Sym::RBracket => seq![']'],
        Sym::Comma => seq![','],
        Sym::Colon => seq![':'],
        Sym::Semi => seq![';'],
        Sym::Dot => seq!['.'],
        Sym::DotDot => seq!['.', '.'],
        Sym::PathSep => seq![':', ':'],
        Sym::FatArrow => seq!['=', '>'],
        Sym::Arrow => seq!['-', '>'],
        Sym::Assign => seq!['='],
        Sym::PlusAssign => seq!['+', '='],
        Sym::MinusAssign => seq!['-', '='],
        Sym::StarAssign => seq!['*', '='],
        Sym::SlashAssign => seq!['/', '='],
        Sym::Plus => seq!['+'],
        Sym::Minus => seq!['-'],
        Sym::Star => seq!['*'],
        Sym::Slash => seq!['/'],
        Sym::Percent => seq!['%'],
        Sym::EqEq => seq!['=', '='],
        Sym::NotEq => seq!['!', '='],
        Sym::Lt => seq!['<'],
        Sym::Gt => seq!['>'],
        Sym::Le => seq!['<', '='],
        Sym::Ge => seq!['>', '='],
        Sym::AndAnd => seq!['&', '&'],
        Sym::OrOr => seq!['|', '|'],
        Sym::Bang => seq!['!'],
        Sym::Implies => seq!['=', '=', '>'],
    }
}

/// What a token is. Names, numbers and string contents keep their text.
#[derive(Clone, Debug, PartialEq)]
pub enum TokKind {
    Ident(String),
    Keyword(Keyword),
    Int(String),
    Real(String),
    Str(String),
    Sym(Sym),
}

/// A token and the characters it was read from.
#[derive(Clone, Debug, PartialEq)]
pub struct Token {
    pub kind: TokKind,
    pub span: Span,
}

/// The position of a character that no token can start with, or of an
/// unterminated string.
#[derive(Clone, Copy, Debug, PartialEq, Eq)]
pub struct LexError {
    pub pos: usize,
}

pub open spec fn is_ident_start(c: char) -> bool {
    ('a' <= c && c <= 'z') || ('A' <= c && c <= 'Z') || c == '_'
}

pub open spec fn is_ident_char(c: char) -> bool {
    is_ident_start(c) || ('0' <= c && c <= '9')
}

pub open spec fn is_digit(c: char) -> bool {
    '0' <= c && c <= '9'
}

/// A name: a letter or `_`, then letters, digits and `_`.
pub open spec fn ident_text(t: Seq<char>) -> bool {
    &&& t.len() > 0
    &&& is_ident_start(t[0])
    &&& forall|i: int| 0 <= i < t.len() ==> is_ident_char(#[trigger] t[i])
}

pub open spec fn digits_text(t: Seq<char>) -> bool {
    &&& t.len() > 0
    &&& forall|i: int| 0 <= i < t.len() ==> is_digit(#[trigger] t[i])
}

pub open spec fn is_keyword(t: Seq<char>) -> bool {
    exists|k: Keyword| keyword_text(k) == t
}

/// Whether `kind` is what the characters `t` read as.
pub open spec fn token_text(kind: TokKind, t: Seq<char>) -> bool {
    match kind {
        TokKind::Ident(x) => x@ == t && ident_text(t) && !is_keyword(t),
        TokKind::Keyword(k) => keyword_text(k) == t && ident_text(t),
        TokKind::Int(x) => x@ == t && digits_text(t),
        TokKind::Real(x) => x@ == t && exists|p: int| 0 < p < t.len() - 1 && t[p] == '.'
            && digits_text(t.take(p)) && digits_text(t.skip(p + 1)),
        TokKind::Str(x) => t.len() >= 2 && t[0] == '"' && t.last() == '"' && x@ == t.subrange(1, t.len() - 1)
            && !x@.contains('"'),
        TokKind::Sym(s) => sym_text(s) == t,
    }
}

/// Characters between tokens: whitespace, and `//` comments up to the end
/// of the line. Only after the last token (`at_end`) may a comment run to
/// the end of the text without a line break.
pub open spec fn trivia(s: Seq<char>, at_end: bool) -> bool
    decreases s.len(),
{
    if s.len() == 0 {
        true
    } else if is_ws(s[0]) {
        trivia(s.drop_first(), at_end)
    } else if s.len() >= 2 && s[0] == '/' && s[1] == '/' {
        match first_index(s, '\n') {
            Some(k) => {
                proof {
                    lemma_first_index(s, '\n');
                }
                trivia(s.skip(k + 1), at_end)
            },
            None => at_end,
        }
    } else {
        false
    }
}

/// Where the `i`-th gap between tokens starts and ends.
pub open spec fn gap_start(toks: Seq<Token>, i: int) -> int {
    if i == 0 { 0 } else { toks[i - 1].span.end as int }
}

pub open spec fn gap_end(toks: Seq<Token>, i: int, n: int) -> int {
    if i == toks.len() { n } else { toks[i].span.start as int }
}

/// Whether a symbol longer than `s` is written at `i`.
pub open spec fn longer_sym_at(src: Seq<char>, i: int, s: Sym) -> bool {
    exists|s2: Sym| #![trigger sym_text(s2)]
        sym_text(s2).len() > sym_text(s).len() && i + sym_text(s2).len() <= src.len()
            && src.subrange(i, i + sym_text(s2).len()) == sym_text(s2)
}

/// Whether some symbol is written at `i`.
pub open spec fn sym_starts_at(src: Seq<char>, i: int) -> bool {
    exists|s2: Sym| #![trigger sym_text(s2)]
        i + sym_text(s2).len() <= src.len() && src.subrange(i, i + sym_text(s2).len()) == sym_text(s2)
}

/// The token `kind` read from `i..j` is the longest that starts at `i`: a
/// name or keyword is not followed by a letter, digit or `_`; an integer not
/// by a digit, nor by `.` and a digit; a decimal number not by a digit; and
/// no longer symbol is written at `i`.
pub open spec fn longest(src: Seq<char>, i: int, j: int, kind: TokKind) -> bool {
    match kind {
        TokKind::Ident(_) => j == src.len() || !is_ident_char(src[j]),
        TokKind::Keyword(_) => j == src.len() || !is_ident_char(src[j]),
        TokKind::Int(_) => j == src.len() || (!is_digit(src[j]) && !(src[j] == '.' && j + 1 < src.len() && is_digit(src[j + 1]))),
        TokKind::Real(_) => j == src.len() || !is_digit(src[j]),
        TokKind::Str(_) => true,
        TokKind::Sym(s) => !longer_sym_at(src, i, s),
    }
}

/// No token is written from `i` on.
pub open spec fn no_token_at(src: Seq<char>, i: int) -> bool {
    forall|k: TokKind, j: int| i < j <= src.len() ==> !#[trigger] token_text(k, src.subrange(i, j))
}

/// No token starts with whitespace or with `//`.
pub open spec fn clean_start(src: Seq<char>, i: int) -> bool {
    &&& !is_ws(src[i])
    &&& !(i + 1 < src.len() && src[i] == '/' && src[i + 1] == '/')
}

/// `toks` is a reading of `src`: each token is read from its span, the
/// tokens come in order, and what lies between and around them is trivia.
pub open spec fn lexed(src: Seq<char>, toks: Seq<Token>) -> bool {
    &&& forall|i: int| 0 <= i < toks.len() ==> {
        &&& (#[trigger] toks[i]).span.start < toks[i].span.end <= src.len()
        &&& token_text(toks[i].kind, src.subrange(toks[i].span.start as int, toks[i].span.end as int))
    }
    &&& forall|i: int| 0 <= i <= toks.len() ==> {
        &&& 0 <= #[trigger] gap_start(toks, i) <= gap_end(toks, i, src.len() as int) <= src.len()
        &&& trivia(src.subrange(gap_start(toks, i), gap_end(toks, i, src.len() as int)), i == toks.len())
    }
}

/// `toks` read `src` up to `pos`, where the next token would have to start:
/// as in [`lexed`], with the gap after the last token ending at `pos`, a
/// character that is neither whitespace nor a comment.
pub open spec fn lexed_upto(src: Seq<char>, toks: Seq<Token>, pos: int) -> bool {
    &&& 0 <= pos < src.len()
    &&& clean_start(src, pos)
    &&& forall|i: int| 0 <= i < toks.len() ==> {
        &&& (#[trigger] toks[i]).span.start < toks[i].span.end <= src.len()
        &&& token_text(toks[i].kind, src.subrange(toks[i].span.start as int, toks[i].span.end as int))
    }
    &&& forall|i: int| 0 <= i < toks.len() ==> {
        &&& 0 <= #[trigger] gap_start(toks, i) <= gap_end(toks, i, src.len() as int) <= src.len()
        &&& trivia(src.subrange(gap_start(toks, i), gap_end(toks, i, src.len() as int)), false)
    }
    &&& 0 <= gap_start(toks, toks.len() as int) <= pos
    &&& trivia(src.subrange(gap_start(toks, toks.len() as int), pos), false)
}

/// Each token of `toks` is the longest that starts where it does, and none
/// starts with whitespace or a comment.
pub open spec fn longest_tokens(src: Seq<char>, toks: Seq<Token>) -> bool {
    forall|i: int| 0 <= i < toks.len() ==> {
        &&& longest(src, (#[trigger] toks[i]).span.start as int, toks[i].span.end as int, toks[i].kind)
        &&& clean_start(src, toks[i].span.start as int)
    }
}


/// Skips whitespace and comments from `i` on.
fn skip_trivia(cs: &Vec<char>, i: usize) -> (j: usize)
    requires
        i <= cs@.len(),
    ensures
        i <= j <= cs@.len(),
        trivia(cs@.subrange(i as int, j as int), j == cs@.len()),
        j < cs@.len() ==> !is_ws(cs@[j as int]),
        j + 1 < cs@.len() ==> !(cs@[j as int] == '/' && cs@[j + 1] == '/'),
{
    let n = cs.len();
    let mut p = i;
    while p < n
        invariant
            i <= p <= n,
            n == cs@.len(),
            forall|e: int| p <= e <= n ==> trivia(#[trigger] cs@.subrange(p as int, e), e == n) ==> trivia(cs@.subrange(i as int, e), e == n),
        decreases n - p,
    {
        let c = cs[p];
        if crate::cli::is_whitespace(c) {
            proof {
                assert forall|e: int| p + 1 <= e <= n && trivia(#[trigger] cs@.subrange(p + 1, e), e == n) implies trivia(cs@.subrange(i as int, e), e == n) by {
                    assert(cs@.subrange(p as int, e).drop_first() =~= cs@.subrange(p + 1, e));
                    assert(cs@.subrange(p as int, e)[0] == c);
                    assert(trivia(cs@.subrange(p as int, e), e == n));
                }
            }
            p = p + 1;
        } else if c == '/' && p + 1 < n && cs[p + 1] == '/' {
            let mut k = p + 2;
            while k < n && cs[k] != '\n'
                invariant
                    p + 2 <= k <= n,
                    n == cs@.len(),
                    forall|m: int| p + 2 <= m < k ==> cs@[m] != '\n',
                decreases n - k,
            {
                k = k + 1;
            }
            if k == n {
                proof {
                    let s = cs@.subrange(p as int, n as int);
                    assert forall|m: int| 0 <= m < s.len() implies s[m] != '\n' by {
                        assert(s[m] == cs@[p + m]);
                    }
                    lemma_first_index_none(s, '\n');
                    assert(trivia(s, true));
                    assert(trivia(cs@.subrange(n as int, n as int), true));
                }
                p = n;
                proof {
                    assert(trivia(cs@.subrange(i as int, n as int), true));
                }
                return n;
            }
            proof {
                assert forall|e: int| k + 1 <= e <= n && trivia(#[trigger] cs@.subrange(k + 1, e), e == n) implies trivia(cs@.subrange(i as int, e), e == n) by {
                    let s = cs@.subrange(p as int, e);
                    assert forall|m: int| 0 <= m < k - p implies s[m] != '\n' by {
                        assert(s[m] == cs@[p + m]);
                    }
                    assert(s[k - p] == '\n');
                    lemma_first_index_at(s, '\n', k - p);
                    assert(s.skip(k - p + 1) =~= cs@.subrange(k + 1, e));
                    assert(s[0] == '/' && s[1] == '/');
                    assert(!is_ws(s[0]));
                    assert(trivia(s, e == n));
                }
            }
            p = k + 1;
        } else {
            proof {
                assert(trivia(cs@.subrange(p as int, p as int), p == n));
            }
            return p;
        }
    }
    proof {
        assert(trivia(cs@.subrange(n as int, n as int), true));
    }
    p
}

/// The keyword written as `t`, if it is one.
fn keyword_of(t: &String) -> (r: Option<Keyword>)
    ensures
        r matches Some(k) ==> keyword_text(k) == t@,
        r is None ==> !is_keyword(t@),
{
    let r = if *t == String::from_str("state") { Some(Keyword::State) }
    else if *t == String::from_str("enum") { Some(Keyword::Enum) }
    else if *t == String::from_str("const") { Some(Keyword::Const) }
    else if *t == String::from_str("type") { Some(Keyword::Type) }
    else if *t == String::from_str("fn") { Some(Keyword::Fn) }
    else if *t == String::from_str("extern") { Some(Keyword::Extern) }
    else if *t == String::from_str("import") { Some(Keyword::Import) }
    else if *t == String::from_str("as") { Some(Keyword::As) }
    else if *t == String::from_str("invariant") { Some(Keyword::Invariant) }
    else if *t == String::from_str("init") { Some(Keyword::Init) }
    else if *t == String::from_str("transition") { Some(Keyword::Transition) }
    else if *t == String::from_str("where") { Some(Keyword::Where) }
    else if *t == String::from_str("ensure") { Some(Keyword::Ensure) }
    else if *t == String::from_str("emit") { Some(Keyword::Emit) }
    else if *t == String::from_str("assert") { Some(Keyword::Assert) }
    else if *t == String::from_str("if") { Some(Keyword::If) }
    else if *t == String::from_str("else") { Some(Keyword::Else) }
    else if *t == String::from_str("let") { Some(Keyword::Let) }
    else if *t == String::from_str("match") { Some(Keyword::Match) }
    else if *t == String::from_str("forall") { Some(Keyword::Forall) }
    else if *t == String::from_str("exists") { Some(Keyword::Exists) }
    else if *t == String::from_str("in") { Some(Keyword::In) }
    else if *t == String::from_str("old") { Some(Keyword::Old) }
    else if *t == String::from_str("true") { Some(Keyword::True) }
    else if *t == String::from_str("false") { Some(Keyword::False) }
    else {
        proof {
            assert forall|k: Keyword| keyword_text(k) != t@ by {
                match k {
                    _ => {},
                }
            }
        }
        None
    };
    r
}

/// The symbol that starts at `i` (the longest one), and its length.
fn sym_at(cs: &Vec<char>, i: usize) -> (r: Option<(Sym, usize)>)
    requires
        i < cs@.len(),
    ensures
        r matches Some((s, len)) ==> len == sym_text(s).len() && i + len <= cs@.len()
            && cs@.subrange(i as int, i + len) == sym_text(s) && !longer_sym_at(cs@, i as int, s),
        r is None ==> !sym_starts_at(cs@, i as int),
{
    let n = cs.len();
    let c = cs[i];
    let c1 = if n - i > 1 { cs[i + 1] } else { '\0' };
    let c2 = if n - i > 2 { cs[i + 2] } else { '\0' };
    let r: Option<(Sym, usize)> = if c == '{' { Some((Sym::LBrace, 1)) }
    else if c == '}' { Some((Sym::RBrace, 1)) }
    else if c == '(' { Some((Sym::LParen, 1)) }
    else if c == ')' { Some((Sym::RParen, 1)) }
    else if c == '[' { Some((Sym::LBracket, 1)) }
    else if c == ']' { Some((Sym::RBracket, 1)) }
    else if c == ',' { Some((Sym::Comma, 1)) }
    else if c == ';' { Some((Sym::Semi, 1)) }
    else if c == '%' { Some((Sym::Percent, 1)) }
    else if c == '.' { if c1 == '.' { Some((Sym::DotDot, 2)) } else { Some((Sym::Dot, 1)) } }
    else if c == ':' { if c1 == ':' { Some((Sym::PathSep, 2)) } else { Some((Sym::Colon, 1)) } }
    else if c == '=' {
        if c1 == '=' {
            if c2 == '>' { Some((Sym::Implies, 3)) } else { Some((Sym::EqEq, 2)) }
        } else if c1 == '>' {
            Some((Sym::FatArrow, 2))
        } else {
            Some((Sym::Assign, 1))
        }
    }
    else if c == '-' { if c1 == '>' { Some((Sym::Arrow, 2)) } else if c1 == '=' { Some((Sym::MinusAssign, 2)) } else { Some((Sym::Minus, 1)) } }
    else if c == '+' { if c1 == '=' { Some((Sym::PlusAssign, 2)) } else { Some((Sym::Plus, 1)) } }
    else if c == '*' { if c1 == '=' { Some((Sym::StarAssign, 2)) } else { Some((Sym::Star, 1)) } }
    else if c == '/' { if c1 == '=' { Some((Sym::SlashAssign, 2)) } else { Some((Sym::Slash, 1)) } }
    else if c == '!' { if c1 == '=' { Some((Sym::NotEq, 2)) } else { Some((Sym::Bang, 1)) } }
    else if c == '<' { if c1 == '=' { Some((Sym::Le, 2)) } else { Some((Sym::Lt, 1)) } }
    else if c == '>' { if c1 == '=' { Some((Sym::Ge, 2)) } else { Some((Sym::Gt, 1)) } }
    else if c == '&' { if c1 == '&' { Some((Sym::AndAnd, 2)) } else { None } }
    else if c == '|' { if c1 == '|' { Some((Sym::OrOr, 2)) } else { None } }
    else { None };
    proof {
        if let Some((s, len)) = r {
            assert(cs@.subrange(i as int, i + len) =~= sym_text(s));
            assert forall|s2: Sym| sym_text(s2).len() > sym_text(s).len() && i + sym_text(s2).len() <= cs@.len()
                implies #[trigger] cs@.subrange(i as int, i + sym_text(s2).len()) != sym_text(s2) by {
                let t = cs@.subrange(i as int, i + sym_text(s2).len());
                if t == sym_text(s2) {
                    assert(t[0] == cs@[i as int]);
                    assert(t[1] == cs@[i + 1]);
                    if sym_text(s2).len() == 3 {
                        assert(t[2] == cs@[i + 2]);
                    }
                }
            }
        } else {
            assert forall|s2: Sym| i + sym_text(s2).len() <= cs@.len()
                implies #[trigger] cs@.subrange(i as int, i + sym_text(s2).len()) != sym_text(s2) by {
                let t = cs@.subrange(i as int, i + sym_text(s2).len());
                if t == sym_text(s2) {
                    assert(t[0] == cs@[i as int]);
                    if sym_text(s2).len() >= 2 {
                        assert(t[1] == cs@[i + 1]);
                    }
                }
            }
        }
    }
    r
}


/// Two symbols written alike are the same symbol.
proof fn lemma_sym_text_injective(a: Sym, b: Sym)
    requires
        sym_text(a) == sym_text(b),
    ensures
        a == b,
{
    let (x, y) = (sym_text(a), sym_text(b));
    assert(x.len() == y.len() && x[0] == y[0]);
    if x.len() > 1 {
        assert(x[1] == y[1]);
    }
    if x.len() > 2 {
        assert(x[2] == y[2]);
    }
    match a {
        Sym::LBrace => {},
        Sym::RBrace => {},
        Sym::LParen => {},
        Sym::RParen => {},
        Sym::LBracket => {},
        Sym::RBracket => {},
        Sym::Comma => {},
        Sym::Colon => {},
        Sym::Semi => {},
        Sym::Dot => {},
        Sym::DotDot => {},
        Sym::PathSep => {},
        Sym::FatArrow => {},
        Sym::Arrow => {},
        Sym::Assign => {},
        Sym::PlusAssign => {},
        Sym::MinusAssign => {},
        Sym::StarAssign => {},
        Sym::SlashAssign => {},
        Sym::Plus => {},
        Sym::Minus => {},
        Sym::Star => {},
        Sym::Slash => {},
        Sym::Percent => {},
        Sym::EqEq => {},
        Sym::NotEq => {},
        Sym::Lt => {},
        Sym::Gt => {},
        Sym::Le => {},
        Sym::Ge => {},
        Sym::AndAnd => {},
        Sym::OrOr => {},
        Sym::Bang => {},
        Sym::Implies => {},
    }
}

/// Two keywords written alike are the same keyword.
proof fn lemma_keyword_text_injective(a: Keyword, b: Keyword)
    requires
        keyword_text(a) == keyword_text(b),
    ensures
        a == b,
{
    reveal_strlit("state");
    reveal_strlit("enum");
    reveal_strlit("const");
    reveal_strlit("type");
    reveal_strlit("fn");
    reveal_strlit("extern");
    reveal_strlit("import");
    reveal_strlit("as");
    reveal_strlit("invariant");
    reveal_strlit("init");
    reveal_strlit("transition");
    reveal_strlit("where");
    reveal_strlit("ensure");
    reveal_strlit("emit");
    reveal_strlit("assert");
    reveal_strlit("if");
    reveal_strlit("else");
    reveal_strlit("let");
    reveal_strlit("match");
    reveal_strlit("forall");
    reveal_strlit("exists");
    reveal_strlit("in");
    reveal_strlit("old");
    reveal_strlit("true");
    reveal_strlit("false");
    let (x, y) = (keyword_text(a), keyword_text(b));
    assert(x.len() == y.len() && x[0] == y[0] && x[1] == y[1]);
    if x.len() > 2 {
        assert(x[2] == y[2]);
    }
    match a {
        Keyword::State => {},
        Keyword::Enum => {},
        Keyword::Const => {},
        Keyword::Type => {},
        Keyword::Fn => {},
        Keyword::Extern => {},
        Keyword::Import => {},
        Keyword::As => {},
        Keyword::Invariant => {},
        Keyword::Init => {},
        Keyword::Transition => {},
        Keyword::Where => {},
        Keyword::Ensure => {},
        Keyword::Emit => {},
        Keyword::Assert => {},
        Keyword::If => {},
        Keyword::Else => {},
        Keyword::Let => {},
        Keyword::Match => {},
        Keyword::Forall => {},
        Keyword::Exists => {},
        Keyword::In => {},
        Keyword::Old => {},
        Keyword::True => {},
        Keyword::False => {},
    }
}

/// Every keyword is written starting with a letter.
proof fn lemma_keyword_starts_with_letter(k: Keyword)
    ensures
        keyword_text(k).len() > 0,
        is_ident_start(keyword_text(k)[0]),
{
    match k {
        Keyword::State => { reveal_strlit("state"); },
        Keyword::Enum => { reveal_strlit("enum"); },
        Keyword::Const => { reveal_strlit("const"); },
        Keyword::Type => { reveal_strlit("type"); },
        Keyword::Fn => { reveal_strlit("fn"); },
        Keyword::Extern => { reveal_strlit("extern"); },
        Keyword::Import => { reveal_strlit("import"); },
        Keyword::As => { reveal_strlit("as"); },
        Keyword::Invariant => { reveal_strlit("invariant"); },
        Keyword::Init => { reveal_strlit("init"); },
        Keyword::Transition => { reveal_strlit("transition"); },
        Keyword::Where => { reveal_strlit("where"); },
        Keyword::Ensure => { reveal_strlit("ensure"); },
        Keyword::Emit => { reveal_strlit("emit"); },
        Keyword::Assert => { reveal_strlit("assert"); },
        Keyword::If => { reveal_strlit("if"); },
        Keyword::Else => { reveal_strlit("else"); },
        Keyword::Let => { reveal_strlit("let"); },
        Keyword::Match => { reveal_strlit("match"); },
        Keyword::Forall => { reveal_strlit("forall"); },
        Keyword::Exists => { reveal_strlit("exists"); },
        Keyword::In => { reveal_strlit("in"); },
        Keyword::Old => { reveal_strlit("old"); },
        Keyword::True => { reveal_strlit("true"); },
        Keyword::False => { reveal_strlit("false"); },
    }
}

/// Reads the token that starts at `i`; returns it and where it ends.
fn lex_token(src: &str, cs: &Vec<char>, i: usize) -> (r: Result<(TokKind, usize), LexError>)
    requires
        cs@ == src@,
        i < cs@.len(),
    ensures
        r matches Ok((k, j)) ==> i < j <= cs@.len() && token_text(k, cs@.subrange(i as int, j as int))
            && longest(cs@, i as int, j as int, k),
        r matches Err(e) ==> e.pos == i && no_token_at(cs@, i as int),
{
    let n = cs.len();
    let c = cs[i];
    if ('a' <= c && c <= 'z') || ('A' <= c && c <= 'Z') || c == '_' {
        let mut j = i + 1;
        while j < n && (('a' <= cs[j] && cs[j] <= 'z') || ('A' <= cs[j] && cs[j] <= 'Z') || cs[j] == '_' || ('0' <= cs[j] && cs[j] <= '9'))
            invariant
                i < j <= n,
                n == cs@.len(),
                forall|m: int| i <= m < j ==> is_ident_char(cs@[m]),
            decreases n - j,
        {
            j = j + 1;
        }
        let t = String::from_str(src.substring_char(i, j));
        proof {
            let w = cs@.subrange(i as int, j as int);
            assert forall|m: int| 0 <= m < w.len() implies is_ident_char(#[trigger] w[m]) by {
                assert(w[m] == cs@[i + m]);
            }
            assert(ident_text(w));
        }
        match keyword_of(&t) {
            Some(k) => Ok((TokKind::Keyword(k), j)),
            None => Ok((TokKind::Ident(t), j)),
        }
    } else if '0' <= c && c <= '9' {
        let mut j = i + 1;
        while j < n && '0' <= cs[j] && cs[j] <= '9'
            invariant
                i < j <= n,
                n == cs@.len(),
                forall|m: int| i <= m < j ==> is_digit(cs@[m]),
            decreases n - j,
        {
            j = j + 1;
        }
        if n - j > 1 && cs[j] == '.' && '0' <= cs[j + 1] && cs[j + 1] <= '9' {
            let p = j;
            let mut k = j + 2;
            while k < n && '0' <= cs[k] && cs[k] <= '9'
                invariant
                    p + 2 <= k <= n,
                    n == cs@.len(),
                    forall|m: int| p + 1 <= m < k ==> is_digit(cs@[m]),
                decreases n - k,
            {
                k = k + 1;
            }
            let t = String::from_str(src.substring_char(i, k));
            proof {
                let w = cs@.subrange(i as int, k as int);
                let q = p - i;
                assert(w[q] == '.');
                assert forall|m: int| 0 <= m < w.take(q).len() implies is_digit(#[trigger] w.take(q)[m]) by {
                    assert(w.take(q)[m] == cs@[i + m]);
                }
                assert forall|m: int| 0 <= m < w.skip(q + 1).len() implies is_digit(#[trigger] w.skip(q + 1)[m]) by {
                    assert(w.skip(q + 1)[m] == cs@[p + 1 + m]);
                }
                assert(digits_text(w.take(q)) && digits_text(w.skip(q + 1)));
            }
            Ok((TokKind::Real(t), k))
        } else {
            let t = String::from_str(src.substring_char(i, j));
            proof {
                let w = cs@.subrange(i as int, j as int);
                assert forall|m: int| 0 <= m < w.len() implies is_digit(#[trigger] w[m]) by {
                    assert(w[m] == cs@[i + m]);
                }
            }
            Ok((TokKind::Int(t), j))
        }
    } else if c == '"' {
        let mut k = i + 1;
        while k < n && cs[k] != '"'
            invariant
                i < k <= n,
                n == cs@.len(),
                forall|m: int| i < m < k ==> cs@[m] != '"',
            decreases n - k,
        {
            k = k + 1;
        }
        if k == n {
            proof {
                assert forall|kd: TokKind, j: int| i < j <= n implies !#[trigger] token_text(kd, cs@.subrange(i as int, j)) by {
                    let t = cs@.subrange(i as int, j);
                    assert(t[0] == cs@[i as int]);
                    match kd {
                        TokKind::Keyword(kw) => {
                            lemma_keyword_starts_with_letter(kw);
                        },
                        TokKind::Str(_) => {
                            if token_text(kd, t) {
                                assert(t.last() == cs@[j - 1]);
                            }
                        },
                        TokKind::Real(_) => {
                            if token_text(kd, t) {
                                let q = choose|q: int| 0 < q < t.len() - 1 && t[q] == '.' && digits_text(t.take(q)) && digits_text(t.skip(q + 1));
                                assert(t.take(q)[0] == t[0]);
                            }
                        },
                        _ => {},
                    }
                }
            }
            return Err(LexError { pos: i });
        }
        let t = String::from_str(src.substring_char(i + 1, k));
        proof {
            let w = cs@.subrange(i as int, k + 1);
            assert(w.subrange(1, w.len() - 1) =~= cs@.subrange(i + 1, k as int));
            assert forall|m: int| 0 <= m < t@.len() implies t@[m] != '"' by {
                assert(t@[m] == cs@[i + 1 + m]);
            }
        }
        Ok((TokKind::Str(t), k + 1))
    } else {
        match sym_at(cs, i) {
            Some((s, len)) => Ok((TokKind::Sym(s), i + len)),
            None => {
                proof {
                    assert forall|kd: TokKind, j: int| i < j <= n implies !#[trigger] token_text(kd, cs@.subrange(i as int, j)) by {
                        let t = cs@.subrange(i as int, j);
                        assert(t[0] == cs@[i as int]);
                        match kd {
                            TokKind::Keyword(kw) => {
                                lemma_keyword_starts_with_letter(kw);
                            },
                            TokKind::Sym(s2) => {
                                if token_text(kd, t) {
                                    assert(cs@.subrange(i as int, i + sym_text(s2).len()) == sym_text(s2));
                                }
                            },
                            TokKind::Real(_) => {
                                if token_text(kd, t) {
                                    let q = choose|q: int| 0 < q < t.len() - 1 && t[q] == '.' && digits_text(t.take(q)) && digits_text(t.skip(q + 1));
                                    assert(t.take(q)[0] == t[0]);
                                }
                            },
                            _ => {},
                        }
                    }
                }
                Err(LexError { pos: i })
            },
        }
    }
}

/// Splits a program's text into tokens; see [`lexed`]. Each token is the
/// longest that starts where it does (see [`longest_tokens`]). An error is
/// at a character, after the tokens before it, where no token starts.
pub fn lex(src: &str) -> (r: Result<Vec<Token>, LexError>)
    ensures
        r matches Ok(toks) ==> lexed(src@, toks@) && longest_tokens(src@, toks@),
        r matches Err(e) ==> e.pos < src@.len() && clean_start(src@, e.pos as int) && no_token_at(src@, e.pos as int)
            && exists|toks: Seq<Token>| #[trigger] lexed_upto(src@, toks, e.pos as int) && longest_tokens(src@, toks),
{
    let cs = chars_of(src);
    let n = cs.len();
    let mut toks: Vec<Token> = Vec::new();
    let mut p = skip_trivia(&cs, 0);
    while p < n
        invariant
            cs@ == src@,
            n == cs@.len(),
            gap_start(toks@, toks@.len() as int) <= p <= n,
            trivia(cs@.subrange(gap_start(toks@, toks@.len() as int), p as int), p == n),
            p < n ==> clean_start(cs@, p as int),
            forall|i: int| 0 <= i < toks@.len() ==> {
                &&& (#[trigger] toks@[i]).span.start < toks@[i].span.end <= n
                &&& token_text(toks@[i].kind, cs@.subrange(toks@[i].span.start as int, toks@[i].span.end as int))
                &&& longest(cs@, toks@[i].span.start as int, toks@[i].span.end as int, toks@[i].kind)
                &&& clean_start(cs@, toks@[i].span.start as int)
            },
            forall|i: int| 0 <= i < toks@.len() ==> {
                &&& 0 <= #[trigger] gap_start(toks@, i) <= gap_end(toks@, i, n as int) <= n
                &&& trivia(cs@.subrange(gap_start(toks@, i), gap_end(toks@, i, n as int)), false)
            },
        decreases n - p,
    {
        let (kind, j) = match lex_token(src, &cs, p) {
            Ok(t) => t,
            Err(e) => {
                proof {
                    assert(lexed_upto(src@, toks@, p as int) && longest_tokens(src@, toks@));
                }
                return Err(e);
            },
        };
        let ghost old_toks = toks@;
        toks.push(Token { kind, span: Span { start: p, end: j } });
        proof {
            assert forall|i: int| 0 <= i < toks@.len() implies {
                &&& 0 <= #[trigger] gap_start(toks@, i) <= gap_end(toks@, i, n as int) <= n
                &&& trivia(cs@.subrange(gap_start(toks@, i), gap_end(toks@, i, n as int)), false)
            } by {
                if i < old_toks.len() {
                    assert(gap_start(toks@, i) == gap_start(old_toks, i));
                    assert(gap_end(toks@, i, n as int) == gap_end(old_toks, i, n as int));
                } else {
                    assert(gap_start(toks@, i) == gap_start(old_toks, i));
                }
            }
            assert(toks@[toks@.len() - 1].span.end == j);
            assert(gap_start(toks@, toks@.len() as int) == j);
        }
        p = skip_trivia(&cs, j);
    }
    proof {
        assert forall|i: int| 0 <= i <= toks@.len() implies {
            &&& 0 <= #[trigger] gap_start(toks@, i) <= gap_end(toks@, i, src@.len() as int) <= src@.len()
            &&& trivia(src@.subrange(gap_start(toks@, i), gap_end(toks@, i, src@.len() as int)), i == toks@.len())
        } by {
            if i == toks@.len() {
                assert(gap_end(toks@, i, n as int) == n);
            }
        }
        assert forall|i: int| 0 <= i < toks@.len() implies {
            &&& longest(src@, (#[trigger] toks@[i]).span.start as int, toks@[i].span.end as int, toks@[i].kind)
            &&& clean_start(src@, toks@[i].span.start as int)
        } by {}
    }
    Ok(toks)
}


/// Where a gap of trivia may end: at the end of the text after the last
/// token, or else before a token, where no whitespace or comment starts.
pub open spec fn gap_ends(src: Seq<char>, b: int, at_end: bool) -> bool {
    &&& at_end ==> b == src.len()
    &&& !at_end ==> b < src.len() && clean_start(src, b)
}

/// Trivia from one place ends at one place, before a token or at the end.
proof fn lemma_gap_end_unique(src: Seq<char>, a: int, b1: int, f1: bool, b2: int, f2: bool)
    requires
        0 <= a <= b1 <= src.len(),
        a <= b2 <= src.len(),
        trivia(src.subrange(a, b1), f1),
        trivia(src.subrange(a, b2), f2),
        gap_ends(src, b1, f1),
        gap_ends(src, b2, f2),
    ensures
        b1 == b2,
        f1 == f2,
    decreases src.len() - a,
{
    let n = src.len();
    let s1 = src.subrange(a, b1);
    let s2 = src.subrange(a, b2);
    if a == b1 || a == b2 {
        if a < b2 {
            assert(s2[0] == src[a]);
            if s2.len() >= 2 {
                assert(s2[1] == src[a + 1]);
            }
        }
        if a < b1 {
            assert(s1[0] == src[a]);
            if s1.len() >= 2 {
                assert(s1[1] == src[a + 1]);
            }
        }
        return;
    }
    assert(s1[0] == src[a] && s2[0] == src[a]);
    if is_ws(src[a]) {
        assert(s1.drop_first() =~= src.subrange(a + 1, b1));
        assert(s2.drop_first() =~= src.subrange(a + 1, b2));
        lemma_gap_end_unique(src, a + 1, b1, f1, b2, f2);
    } else {
        assert(s1.len() >= 2 && s1[0] == '/' && s1[1] == '/');
        assert(s2.len() >= 2 && s2[0] == '/' && s2[1] == '/');
        lemma_first_index(s1, '\n');
        lemma_first_index(s2, '\n');
        match (first_index(s1, '\n'), first_index(s2, '\n')) {
            (Some(k1), Some(k2)) => {
                if k1 < k2 {
                    assert(s2[k1] == src[a + k1]);
                    assert(s1[k1] == src[a + k1]);
                } else if k2 < k1 {
                    assert(s2[k2] == src[a + k2]);
                    assert(s1[k2] == src[a + k2]);
                }
                assert(k1 == k2);
                assert(s1.skip(k1 + 1) =~= src.subrange(a + k1 + 1, b1));
                assert(s2.skip(k2 + 1) =~= src.subrange(a + k2 + 1, b2));
                lemma_gap_end_unique(src, a + k1 + 1, b1, f1, b2, f2);
            },
            (Some(k1), None) => {
                assert(s1[k1] == src[a + k1]);
                assert(s2[k1] == src[a + k1]);
            },
            (None, Some(k2)) => {
                assert(s2[k2] == src[a + k2]);
                assert(s1[k2] == src[a + k2]);
            },
            (None, None) => {},
        }
    }
}

/// No symbol is written starting with a letter, `_`, a digit or `"`.
proof fn lemma_sym_first_char(sy: Sym)
    ensures
        !is_ident_char(sym_text(sy)[0]),
        sym_text(sy)[0] != '"',
        sym_text(sy).len() > 0,
{
}

/// The kinds of two tokens read from the same characters agree.
pub open spec fn same_kind(a: TokKind, b: TokKind) -> bool {
    match (a, b) {
        (TokKind::Ident(x), TokKind::Ident(y)) => x@ == y@,
        (TokKind::Keyword(x), TokKind::Keyword(y)) => x == y,
        (TokKind::Int(x), TokKind::Int(y)) => x@ == y@,
        (TokKind::Real(x), TokKind::Real(y)) => x@ == y@,
        (TokKind::Str(x), TokKind::Str(y)) => x@ == y@,
        (TokKind::Sym(x), TokKind::Sym(y)) => x == y,
        _ => false,
    }
}

/// A position inside a run of name (or digit) characters holds one.
proof fn lemma_run_end(src: Seq<char>, s: int, e1: int, e2: int, name: bool)
    requires
        0 <= s < e1 <= src.len(),
        s < e2 <= src.len(),
        e1 < e2,
        forall|i: int| s <= i < e2 ==> if name { is_ident_char(#[trigger] src[i]) } else { is_digit(src[i]) },
    ensures
        if name { is_ident_char(src[e1]) } else { is_digit(src[e1]) },
{
}

/// Two tokens read from one place, each the longest that starts there, end
/// at the same place and are alike.
proof fn lemma_token_unique(src: Seq<char>, s: int, e1: int, k1: TokKind, e2: int, k2: TokKind)
    requires
        0 <= s < e1 <= src.len(),
        s < e2 <= src.len(),
        token_text(k1, src.subrange(s, e1)),
        token_text(k2, src.subrange(s, e2)),
        longest(src, s, e1, k1),
        longest(src, s, e2, k2),
    ensures
        e1 == e2,
        same_kind(k1, k2),
{
    let t1 = src.subrange(s, e1);
    let t2 = src.subrange(s, e2);
    assert(t1[0] == src[s] && t2[0] == src[s]);
    let c = src[s];
    if let TokKind::Sym(y1) = k1 { lemma_sym_first_char(y1); }
    if let TokKind::Sym(y2) = k2 { lemma_sym_first_char(y2); }
    if let TokKind::Real(_) = k1 {
        let q = choose|q: int| 0 < q < t1.len() - 1 && t1[q] == '.' && digits_text(t1.take(q)) && digits_text(t1.skip(q + 1));
        assert(t1.take(q)[0] == t1[0]);
    }
    if let TokKind::Real(_) = k2 {
        let q = choose|q: int| 0 < q < t2.len() - 1 && t2[q] == '.' && digits_text(t2.take(q)) && digits_text(t2.skip(q + 1));
        assert(t2.take(q)[0] == t2[0]);
    }
    if is_ident_start(c) {
        // names and keywords: runs of name characters
        assert(ident_text(t1) && ident_text(t2));
        assert forall|i: int| s <= i < e1 implies is_ident_char(#[trigger] src[i]) by { assert(t1[i - s] == src[i]); }
        assert forall|i: int| s <= i < e2 implies is_ident_char(#[trigger] src[i]) by { assert(t2[i - s] == src[i]); }
        if e1 < e2 {
            lemma_run_end(src, s, e1, e2, true);
        } else if e2 < e1 {
            lemma_run_end(src, s, e2, e1, true);
        }
        assert(e1 == e2);
        match (k1, k2) {
            (TokKind::Keyword(a), TokKind::Keyword(b)) => {
                lemma_keyword_text_injective(a, b);
            },
            _ => {},
        }
    } else if is_digit(c) {
        // integers and decimal numbers: digits, then `.` and digits
        match (k1, k2) {
            (TokKind::Int(_), TokKind::Int(_)) => {
                assert forall|i: int| s <= i < e1 implies is_digit(#[trigger] src[i]) by { assert(t1[i - s] == src[i]); }
                assert forall|i: int| s <= i < e2 implies is_digit(#[trigger] src[i]) by { assert(t2[i - s] == src[i]); }
                if e1 < e2 {
                    lemma_run_end(src, s, e1, e2, false);
                } else if e2 < e1 {
                    lemma_run_end(src, s, e2, e1, false);
                }
            },
            (TokKind::Real(x1), TokKind::Real(x2)) => {
                lemma_real_unique(src, s, e1, x1, e2, x2);
            },
            (TokKind::Int(x1), TokKind::Real(x2)) => {
                lemma_int_not_real(src, s, e1, x1, e2, x2);
            },
            (TokKind::Real(x1), TokKind::Int(x2)) => {
                lemma_int_not_real(src, s, e2, x2, e1, x1);
            },
            _ => {},
        }
    } else if c == '"' {
        // strings: up to the first closing quote
        if e1 < e2 {
            lemma_string_end(src, s, e1, k1, e2, k2);
        } else if e2 < e1 {
            lemma_string_end(src, s, e2, k2, e1, k1);
        }
    } else {
        // symbols: the longest written
        match (k1, k2) {
            (TokKind::Sym(y1), TokKind::Sym(y2)) => {
                if e1 < e2 {
                    assert(src.subrange(s, s + sym_text(y2).len()) == sym_text(y2));
                    assert(longer_sym_at(src, s, y1));
                } else if e2 < e1 {
                    assert(src.subrange(s, s + sym_text(y1).len()) == sym_text(y1));
                    assert(longer_sym_at(src, s, y2));
                }
                lemma_sym_text_injective(y1, y2);
            },
            _ => {},
        }
    }
}

/// Two decimal numbers read from one place end at the same place.
proof fn lemma_real_unique(src: Seq<char>, s: int, e1: int, x1: String, e2: int, x2: String)
    requires
        0 <= s < e1 <= src.len(),
        s < e2 <= src.len(),
        token_text(TokKind::Real(x1), src.subrange(s, e1)),
        token_text(TokKind::Real(x2), src.subrange(s, e2)),
        longest(src, s, e1, TokKind::Real(x1)),
        longest(src, s, e2, TokKind::Real(x2)),
    ensures
        e1 == e2,
{
    let t1 = src.subrange(s, e1);
    let t2 = src.subrange(s, e2);
    let q1 = choose|q: int| 0 < q < t1.len() - 1 && t1[q] == '.' && digits_text(t1.take(q)) && digits_text(t1.skip(q + 1));
    let q2 = choose|q: int| 0 < q < t2.len() - 1 && t2[q] == '.' && digits_text(t2.take(q)) && digits_text(t2.skip(q + 1));
    assert(t1[q1] == src[s + q1] && t2[q2] == src[s + q2]);
    if q1 < q2 {
        assert(t2.take(q2)[q1] == src[s + q1]);
    } else if q2 < q1 {
        assert(t1.take(q1)[q2] == src[s + q2]);
    }
    assert(q1 == q2);
    if e1 < e2 {
        assert(t2.skip(q2 + 1)[e1 - s - q2 - 1] == src[e1]);
    } else if e2 < e1 {
        assert(t1.skip(q1 + 1)[e2 - s - q1 - 1] == src[e2]);
    }
}

/// An integer and a decimal number are never both read from one place.
proof fn lemma_int_not_real(src: Seq<char>, s: int, e1: int, x1: String, e2: int, x2: String)
    requires
        0 <= s < e1 <= src.len(),
        s < e2 <= src.len(),
        token_text(TokKind::Int(x1), src.subrange(s, e1)),
        token_text(TokKind::Real(x2), src.subrange(s, e2)),
    ensures
        !longest(src, s, e1, TokKind::Int(x1)),
{
    let t1 = src.subrange(s, e1);
    let t2 = src.subrange(s, e2);
    let q = choose|q: int| 0 < q < t2.len() - 1 && t2[q] == '.' && digits_text(t2.take(q)) && digits_text(t2.skip(q + 1));
    assert(t2[q] == src[s + q]);
    assert(q + 1 < t2.len());
    assert(t2[q + 1] == src[s + q + 1]);
    assert(t2.skip(q + 1)[0] == t2[q + 1]);
    if e1 < s + q {
        assert(t2.take(q)[e1 - s] == src[e1]);
    } else if e1 > s + q {
        assert(t1[q] == src[s + q]);
    }
}

/// Two strings read from one place end at the same closing quote.
proof fn lemma_string_end(src: Seq<char>, s: int, e1: int, k1: TokKind, e2: int, k2: TokKind)
    requires
        0 <= s < e1 < e2 <= src.len(),
        token_text(k1, src.subrange(s, e1)),
        k1 is Str,
        k2 is Str,
    ensures
        !token_text(k2, src.subrange(s, e2)),
{
    let t1 = src.subrange(s, e1);
    let t2 = src.subrange(s, e2);
    let x2 = t2.subrange(1, t2.len() - 1);
    assert(t1.last() == src[e1 - 1]);
    if token_text(k2, t2) {
        assert(x2[e1 - 1 - s - 1] == src[e1 - 1]);
        assert(x2.contains('"'));
    }
}

/// Two tokens alike: read from the same span, of the same kind with the
/// same text.
pub open spec fn same_token(a: Token, b: Token) -> bool {
    a.span == b.span && same_kind(a.kind, b.kind)
}

/// Two readings that agree on their first `i` tokens agree on all of them.
proof fn lemma_readings_agree_from(src: Seq<char>, t1: Seq<Token>, t2: Seq<Token>, i: int)
    requires
        lexed(src, t1),
        longest_tokens(src, t1),
        lexed(src, t2),
        longest_tokens(src, t2),
        0 <= i <= t1.len(),
        i <= t2.len(),
        forall|j: int| 0 <= j < i ==> same_token(#[trigger] t1[j], t2[j]),
    ensures
        t1.len() == t2.len(),
        forall|j: int| 0 <= j < t1.len() ==> same_token(#[trigger] t1[j], t2[j]),
    decreases t1.len() + t2.len() - 2 * i,
{
    let n = src.len() as int;
    if i > 0 {
        assert(same_token(t1[i - 1], t2[i - 1]));
    }
    assert(gap_start(t1, i) == gap_start(t2, i));
    let a = gap_start(t1, i);
    let b1 = gap_end(t1, i, n);
    let b2 = gap_end(t2, i, n);
    let f1 = i == t1.len();
    let f2 = i == t2.len();
    assert(trivia(src.subrange(a, b1), f1));
    assert(trivia(src.subrange(gap_start(t2, i), b2), f2));
    if !f1 {
        assert(t1[i].span.start < t1[i].span.end <= n);
        assert(clean_start(src, t1[i].span.start as int));
    }
    if !f2 {
        assert(t2[i].span.start < t2[i].span.end <= n);
        assert(clean_start(src, t2[i].span.start as int));
    }
    lemma_gap_end_unique(src, a, b1, f1, b2, f2);
    if !f1 {
        let st = t1[i].span.start as int;
        assert(token_text(t1[i].kind, src.subrange(st, t1[i].span.end as int)));
        assert(token_text(t2[i].kind, src.subrange(st, t2[i].span.end as int)));
        assert(longest(src, st, t1[i].span.end as int, t1[i].kind));
        assert(longest(src, st, t2[i].span.end as int, t2[i].kind));
        lemma_token_unique(src, st, t1[i].span.end as int, t1[i].kind, t2[i].span.end as int, t2[i].kind);
        assert(same_token(t1[i], t2[i]));
        lemma_readings_agree_from(src, t1, t2, i + 1);
    }
}

/// A text has one reading as tokens: in two readings of it (see [`lexed`])
/// in which each token is the longest that starts where it does (see
/// [`longest_tokens`]), the tokens are alike, one for one.
pub proof fn law_one_reading_as_tokens(src: Seq<char>, t1: Seq<Token>, t2: Seq<Token>)
    requires
        lexed(src, t1),
        longest_tokens(src, t1),
        lexed(src, t2),
        longest_tokens(src, t2),
    ensures
        t1.len() == t2.len(),
        forall|j: int| 0 <= j < t1.len() ==> same_token(#[trigger] t1[j], t2[j]),
{
    lemma_readings_agree_from(src, t1, t2, 0);
}

/// A reading that agrees with `t0` on its first `i` tokens would have a
/// token at `pos`, where none starts.
proof fn lemma_no_reading_from(src: Seq<char>, t0: Seq<Token>, pos: int, t: Seq<Token>, i: int)
    requires
        lexed_upto(src, t0, pos),
        longest_tokens(src, t0),
        no_token_at(src, pos),
        0 <= i <= t0.len(),
        i <= t.len(),
        forall|j: int| 0 <= j < i ==> same_token(#[trigger] t0[j], t[j]),
    ensures
        !(lexed(src, t) && longest_tokens(src, t)),
    decreases t0.len() - i,
{
    if !(lexed(src, t) && longest_tokens(src, t)) {
        return;
    }
    let n = src.len() as int;
    if i > 0 {
        assert(same_token(t0[i - 1], t[i - 1]));
    }
    assert(gap_start(t0, i) == gap_start(t, i));
    let a = gap_start(t, i);
    let b = gap_end(t, i, n);
    let f = i == t.len();
    assert(trivia(src.subrange(a, b), f));
    if !f {
        assert(t[i].span.start < t[i].span.end <= n);
        assert(clean_start(src, t[i].span.start as int));
    }
    if i == t0.len() {
        lemma_gap_end_unique(src, a, pos, false, b, f);
        let st = t[i].span.start as int;
        assert(token_text(t[i].kind, src.subrange(st, t[i].span.end as int)));
    } else {
        let b0 = gap_end(t0, i, n);
        assert(trivia(src.subrange(a, b0), false));
        assert(t0[i].span.start < t0[i].span.end <= n);
        assert(clean_start(src, t0[i].span.start as int));
        lemma_gap_end_unique(src, a, b0, false, b, f);
        let st = t0[i].span.start as int;
        assert(token_text(t0[i].kind, src.subrange(st, t0[i].span.end as int)));
        assert(token_text(t[i].kind, src.subrange(st, t[i].span.end as int)));
        assert(longest(src, st, t0[i].span.end as int, t0[i].kind));
        assert(longest(src, st, t[i].span.end as int, t[i].kind));
        lemma_token_unique(src, st, t0[i].span.end as int, t0[i].kind, t[i].span.end as int, t[i].kind);
        assert(same_token(t0[i], t[i]));
        lemma_no_reading_from(src, t0, pos, t, i + 1);
    }
}

/// A text read as tokens up to a character where no token starts has no
/// reading as tokens (see [`lexed`]) in which each token is the longest that
/// starts where it does.
pub proof fn law_no_reading_past_a_bad_character(src: Seq<char>, t0: Seq<Token>, pos: int, t: Seq<Token>)
    requires
        lexed_upto(src, t0, pos),
        longest_tokens(src, t0),
        no_token_at(src, pos),
    ensures
        !(lexed(src, t) && longest_tokens(src, t)),
{
    lemma_no_reading_from(src, t0, pos, t, 0);
}

} // verus!
