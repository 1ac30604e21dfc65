//! Terms of the solver's logic, and the encoding of expressions into them.
//! A term stands for a value of the state machine as the solver sees it:
//! integers are unbounded, arrays and maps are solver arrays.
use vstd::prelude::*;
use crate::ast::{BinaryOp, CompoundOp, Expr, MatchArm, MatchPattern, Spanned, Statement, Type, UnaryOp};
use crate::text::{concat2, concat3};
use crate::value::Val;

verus! {

/// The sorts of the solver's logic.
#[derive(Debug, PartialEq)]
pub enum Sort {
    Int,
    Real,
    Bool,
    Str,
    Enum(String),
    Array(Box<Sort>, Box<Sort>),
}

/// The model of a [`Sort`].
pub enum SortV {
    Int,
    Real,
    Bool,
    Str,
    Enum(Seq<char>),
    Array(Box<SortV>, Box<SortV>),
}

pub open spec fn sort_view(s: Sort) -> SortV
    decreases s,
{
    match s {
        Sort::Int => SortV::Int,
        Sort::Real => SortV::Real,
        Sort::Bool => SortV::Bool,
        Sort::Str => SortV::Str,
        Sort::Enum(n) => SortV::Enum(n@),
        Sort::Array(k, v) => SortV::Array(Box::new(sort_view(*k)), Box::new(sort_view(*v))),
    }
}

/// A term. A variable carries its sort; a call carries the sort of its result.
#[derive(Debug, PartialEq)]
pub enum Term {
    Var(String, Sort),
    Int(i64),
    Real(String),
    Bool(bool),
    Str(String),
    Variant(String, String),
    Unary(UnaryOp, Box<Term>),
    Binary(BinaryOp, Box<Term>, Box<Term>),
    Ite(Box<Term>, Box<Term>, Box<Term>),
    Select(Box<Term>, Box<Term>),
    Store(Box<Term>, Box<Term>, Box<Term>),
    Call(String, Vec<Term>, Sort),
    /// `forall` (or `exists`, when the flag is false) `var` in `lo..hi`: `body`.
    Quant(bool, String, Box<Term>, Box<Term>, Box<Term>),
    /// The conjunction of the terms.
    All(Vec<Term>),
}

/// The model of a [`Term`]: names by their characters.
pub enum TermV {
    Var(Seq<char>, SortV),
    Int(i64),
    Real(Seq<char>),
    Bool(bool),
    Str(Seq<char>),
    Variant(Seq<char>, Seq<char>),
    Unary(UnaryOp, Box<TermV>),
    Binary(BinaryOp, Box<TermV>, Box<TermV>),
    Ite(Box<TermV>, Box<TermV>, Box<TermV>),
    Select(Box<TermV>, Box<TermV>),
    Store(Box<TermV>, Box<TermV>, Box<TermV>),
    Call(Seq<char>, Seq<TermV>, SortV),
    Quant(bool, Seq<char>, Box<TermV>, Box<TermV>, Box<TermV>),
    All(Seq<TermV>),
}

pub open spec fn term_view(t: Term) -> TermV
    decreases t, 0int,
{
    match t {
        Term::Var(n, s) => TermV::Var(n@, sort_view(s)),
        Term::Int(i) => TermV::Int(i),
        Term::Real(x) => TermV::Real(x@),
        Term::Bool(b) => TermV::Bool(b),
        Term::Str(x) => TermV::Str(x@),
        Term::Variant(e, v) => TermV::Variant(e@, v@),
        Term::Unary(op, a) => TermV::Unary(op, Box::new(term_view(*a))),
        Term::Binary(op, a, b) => TermV::Binary(op, Box::new(term_view(*a)), Box::new(term_view(*b))),
        Term::Ite(c, a, b) => TermV::Ite(Box::new(term_view(*c)), Box::new(term_view(*a)), Box::new(term_view(*b))),
        Term::Select(a, i) => TermV::Select(Box::new(term_view(*a)), Box::new(term_view(*i))),
        Term::Store(a, i, v) => TermV::Store(Box::new(term_view(*a)), Box::new(term_view(*i)), Box::new(term_view(*v))),
        Term::Call(n, args, s) => TermV::Call(n@, terms_view(args@), sort_view(s)),
        Term::Quant(u, x, lo, hi, body) => TermV::Quant(
            u,
            x@,
            Box::new(term_view(*lo)),
            Box::new(term_view(*hi)),
            Box::new(term_view(*body)),
        ),
        Term::All(ts) => TermV::All(terms_view(ts@)),
    }
}

pub open spec fn terms_view(ts: Seq<Term>) -> Seq<TermV>
    decreases ts, ts.len(),
{
    if ts.len() == 0 {
        Seq::empty()
    } else {
        terms_view(ts.drop_last()).push(term_view(ts.last()))
    }
}

pub proof fn lemma_terms_view_push(ts: Seq<Term>, t: Term)
    ensures
        terms_view(ts.push(t)) == terms_view(ts).push(term_view(t)),
{
    assert(ts.push(t).drop_last() =~= ts);
}

pub proof fn lemma_terms_view_concat(a: Seq<Term>, b: Seq<Term>)
    ensures
        terms_view(a + b) == terms_view(a) + terms_view(b),
    decreases b.len(),
{
    if b.len() == 0 {
        assert(a + b =~= a);
        assert(terms_view(a) + terms_view(b) =~= terms_view(a));
    } else {
        lemma_terms_view_concat(a, b.drop_last());
        assert((a + b).drop_last() =~= a + b.drop_last());
        assert((a + b).last() == b.last());
        assert(terms_view(a + b) =~= terms_view(a) + terms_view(b));
    }
}

impl Sort {
    /// A copy of this sort.
    pub fn duplicate(&self) -> (r: Sort)
        ensures
            sort_view(r) == sort_view(*self),
        decreases self,
    {
        match self {
            Sort::Int => Sort::Int,
            Sort::Real => Sort::Real,
            Sort::Bool => Sort::Bool,
            Sort::Str => Sort::Str,
            Sort::Enum(n) => Sort::Enum(n.clone()),
            Sort::Array(k, v) => Sort::Array(Box::new((**k).duplicate()), Box::new((**v).duplicate())),
        }
    }
}

impl Term {
    /// A copy of this term.
    pub fn duplicate(&self) -> (r: Term)
        ensures
            term_view(r) == term_view(*self),
        decreases self, 0int,
    {
        match self {
            Term::Var(n, s) => Term::Var(n.clone(), s.duplicate()),
            Term::Int(i) => Term::Int(*i),
            Term::Real(x) => Term::Real(x.clone()),
            Term::Bool(b) => Term::Bool(*b),
            Term::Str(x) => Term::Str(x.clone()),
            Term::Variant(e, v) => Term::Variant(e.clone(), v.clone()),
            Term::Unary(op, a) => Term::Unary(*op, Box::new((**a).duplicate())),
            Term::Binary(op, a, b) => Term::Binary(*op, Box::new((**a).duplicate()), Box::new((**b).duplicate())),
            Term::Ite(c, a, b) => Term::Ite(
                Box::new((**c).duplicate()),
                Box::new((**a).duplicate()),
                Box::new((**b).duplicate()),
            ),
            Term::Select(a, i) => Term::Select(Box::new((**a).duplicate()), Box::new((**i).duplicate())),
            Term::Store(a, i, v) => Term::Store(
                Box::new((**a).duplicate()),
                Box::new((**i).duplicate()),
                Box::new((**v).duplicate()),
            ),
            Term::Call(n, args, s) => {
                proof {
                    let ghost w = *self;
                    assert(decreases_to!(w => w->Call_1));
                }
                Term::Call(n.clone(), duplicate_terms(args), s.duplicate())
            },
            Term::Quant(u, x, lo, hi, body) => Term::Quant(
                *u,
                x.clone(),
                Box::new((**lo).duplicate()),
                Box::new((**hi).duplicate()),
                Box::new((**body).duplicate()),
            ),
            Term::All(ts) => {
                proof {
                    let ghost w = *self;
                    assert(decreases_to!(w => w->All_0));
                }
                Term::All(duplicate_terms(ts))
            },
        }
    }
}

/// A copy of each term of a list.
pub fn duplicate_terms(ts: &Vec<Term>) -> (r: Vec<Term>)
    ensures
        terms_view(r@) == terms_view(ts@),
    decreases ts, 1int,
{
    let mut out: Vec<Term> = Vec::new();
    let n = ts.len();
    let mut i: usize = 0;
    while i < n
        invariant
            n == ts@.len(),
            i <= n,
            terms_view(out@) == terms_view(ts@.take(i as int)),
        decreases n - i,
    {
        proof {
            assert(decreases_to!(ts => ts@));
        }
        let t = ts[i].duplicate();
        proof {
            lemma_terms_view_push(out@, t);
            assert(ts@.take(i + 1) =~= ts@.take(i as int).push(ts@[i as int]));
            lemma_terms_view_push(ts@.take(i as int), ts@[i as int]);
        }
        out.push(t);
        i = i + 1;
    }
    proof {
        assert(ts@.take(n as int) =~= ts@);
    }
    out
}


/// A map from names to terms. Writing a key that is already present
/// replaces its term in place; the order of `entries` is the order in which
/// keys were first written.
#[derive(Debug, PartialEq)]
pub struct TermMap {
    pub entries: Vec<(String, Term)>,
}

pub type Env = Map<Seq<char>, TermV>;

/// The map that a list of entries stands for: a later entry for a key
/// overrides an earlier one.
pub open spec fn term_entries_view(es: Seq<(String, Term)>) -> Env
    decreases es.len(),
{
    if es.len() == 0 {
        Map::empty()
    } else {
        term_entries_view(es.drop_last()).insert(es.last().0@, term_view(es.last().1))
    }
}

impl View for TermMap {
    type V = Env;

    open spec fn view(&self) -> Env {
        term_entries_view(self.entries@)
    }
}

pub open spec fn last_name_at(es: Seq<(String, Term)>, k: Seq<char>, j: int) -> bool {
    &&& 0 <= j < es.len()
    &&& es[j].0@ == k
    &&& forall|l: int| j < l < es.len() ==> (#[trigger] es[l]).0@ != k
}

proof fn lemma_term_entries_absent(es: Seq<(String, Term)>, k: Seq<char>)
    requires
        forall|l: int| 0 <= l < es.len() ==> (#[trigger] es[l]).0@ != k,
    ensures
        !term_entries_view(es).contains_key(k),
    decreases es.len(),
{
    if es.len() > 0 {
        let p = es.drop_last();
        assert forall|l: int| 0 <= l < p.len() implies (#[trigger] p[l]).0@ != k by {
            assert(p[l] == es[l]);
        }
        lemma_term_entries_absent(p, k);
    }
}

proof fn lemma_term_entries_last(es: Seq<(String, Term)>, k: Seq<char>, j: int)
    requires
        last_name_at(es, k, j),
    ensures
        term_entries_view(es).contains_key(k),
        term_entries_view(es)[k] == term_view(es[j].1),
    decreases es.len(),
{
    if j < es.len() - 1 {
        let p = es.drop_last();
        assert(last_name_at(p, k, j)) by {
            assert forall|l: int| j < l < p.len() implies (#[trigger] p[l]).0@ != k by {
                assert(p[l] == es[l]);
            }
        }
        lemma_term_entries_last(p, k, j);
    }
}

proof fn lemma_term_entries_update(es: Seq<(String, Term)>, k: Seq<char>, j: int, e: (String, Term))
    requires
        last_name_at(es, k, j),
        e.0@ == k,
    ensures
        term_entries_view(es.update(j, e)) == term_entries_view(es).insert(k, term_view(e.1)),
    decreases es.len(),
{
    let u = es.update(j, e);
    if j == es.len() - 1 {
        assert(u.drop_last() =~= es.drop_last());
        assert(term_entries_view(u) =~= term_entries_view(es).insert(k, term_view(e.1)));
    } else {
        let p = es.drop_last();
        assert(last_name_at(p, k, j)) by {
            assert forall|l: int| j < l < p.len() implies (#[trigger] p[l]).0@ != k by {
                assert(p[l] == es[l]);
            }
        }
        lemma_term_entries_update(p, k, j, e);
        assert(u.drop_last() =~= p.update(j, e));
        assert(es.last().0@ != k);
        assert(term_entries_view(u) =~= term_entries_view(es).insert(k, term_view(e.1)));
    }
}

impl TermMap {
    pub fn new() -> (m: TermMap)
        ensures
            m@ == Env::empty(),
    {
        TermMap { entries: Vec::new() }
    }

    fn find_last(&self, key: &String) -> (r: Option<usize>)
        ensures
            match r {
                Some(j) => last_name_at(self.entries@, key@, j as int),
                None => forall|l: int| 0 <= l < self.entries@.len() ==> (#[trigger] self.entries@[l]).0@ != key@,
            },
    {
        let mut i = self.entries.len();
        while i > 0
            invariant
                i <= self.entries@.len(),
                forall|l: int| i <= l < self.entries@.len() ==> (#[trigger] self.entries@[l]).0@ != key@,
            decreases i,
        {
            i = i - 1;
            if self.entries[i].0 == *key {
                return Some(i);
            }
        }
        None
    }

    /// The term stored under `key`, if any.
    pub fn get(&self, key: &String) -> (r: Option<&Term>)
        ensures
            match r {
                Some(t) => self@.contains_key(key@) && term_view(*t) == self@[key@],
                None => !self@.contains_key(key@),
            },
    {
        match self.find_last(key) {
            Some(j) => {
                proof {
                    lemma_term_entries_last(self.entries@, key@, j as int);
                }
                Some(&self.entries[j].1)
            },
            None => {
                proof {
                    lemma_term_entries_absent(self.entries@, key@);
                }
                None
            },
        }
    }

    /// Stores `t` under `key`, replacing what was there.
    pub fn insert(&mut self, key: String, t: Term)
        ensures
            final(self)@ == old(self)@.insert(key@, term_view(t)),
    {
        match self.find_last(&key) {
            Some(j) => {
                proof {
                    lemma_term_entries_update(self.entries@, key@, j as int, (key, t));
                }
                self.entries.set(j, (key, t));
            },
            None => {
                let ghost es = self.entries@;
                self.entries.push((key, t));
                proof {
                    assert(self.entries@.drop_last() =~= es);
                }
            },
        }
    }

    /// A copy of this map.
    pub fn duplicate(&self) -> (r: TermMap)
        ensures
            r@ == self@,
    {
        let mut out = TermMap::new();
        let n = self.entries.len();
        let mut i: usize = 0;
        while i < n
            invariant
                n == self.entries@.len(),
                i <= n,
                out@ == term_entries_view(self.entries@.take(i as int)),
            decreases n - i,
        {
            proof {
                assert(self.entries@.take(i + 1).drop_last() =~= self.entries@.take(i as int));
            }
            out.insert(self.entries[i].0.clone(), self.entries[i].1.duplicate());
            proof {
                assert(out@ =~= term_entries_view(self.entries@.take(i + 1)));
            }
            i = i + 1;
        }
        proof {
            assert(self.entries@.take(n as int) =~= self.entries@);
        }
        out
    }

    /// Stores every entry of `other` here, in its order; `other` wins.
    pub fn extend(&mut self, other: &TermMap)
        ensures
            final(self)@ == old(self)@.union_prefer_right(other@),
    {
        let ghost start = self@;
        let n = other.entries.len();
        let mut i: usize = 0;
        while i < n
            invariant
                n == other.entries@.len(),
                i <= n,
                self@ == start.union_prefer_right(term_entries_view(other.entries@.take(i as int))),
            decreases n - i,
        {
            proof {
                assert(other.entries@.take(i + 1).drop_last() =~= other.entries@.take(i as int));
            }
            self.insert(other.entries[i].0.clone(), other.entries[i].1.duplicate());
            proof {
                assert(self@ =~= start.union_prefer_right(term_entries_view(other.entries@.take(i + 1))));
            }
            i = i + 1;
        }
        proof {
            assert(other.entries@.take(n as int) =~= other.entries@);
        }
    }
}


/// The sort of a term, as the solver infers it from its parts.
pub open spec fn sort_of(t: TermV) -> Option<SortV>
    decreases t,
{
    match t {
        TermV::Var(_, s) => Some(s),
        TermV::Int(_) => Some(SortV::Int),
        TermV::Real(_) => Some(SortV::Real),
        TermV::Bool(_) => Some(SortV::Bool),
        TermV::Str(_) => Some(SortV::Str),
        TermV::Variant(e, _) => Some(SortV::Enum(e)),
        TermV::Unary(op, a) => if op == UnaryOp::Neg { sort_of(*a) } else { Some(SortV::Bool) },
        TermV::Binary(op, a, _) => match op {
            BinaryOp::Add | BinaryOp::Sub | BinaryOp::Mul | BinaryOp::Div | BinaryOp::Mod => sort_of(*a),
            _ => Some(SortV::Bool),
        },
        TermV::Ite(_, a, _) => sort_of(*a),
        TermV::Select(a, _) => match sort_of(*a) {
            Some(SortV::Array(_, v)) => Some(*v),
            _ => None,
        },
        TermV::Store(a, _, _) => sort_of(*a),
        TermV::Call(_, _, s) => Some(s),
        TermV::Quant(..) => Some(SortV::Bool),
        TermV::All(_) => Some(SortV::Bool),
    }
}

/// The four kinds of sort that statements treat differently.
#[derive(Clone, Copy, Debug, PartialEq, Eq, Structural)]
pub enum Kind {
    Int,
    Real,
    Bool,
    Array,
    Other,
}

pub open spec fn kind(t: TermV) -> Kind {
    match sort_of(t) {
        Some(SortV::Int) => Kind::Int,
        Some(SortV::Real) => Kind::Real,
        Some(SortV::Bool) => Kind::Bool,
        Some(SortV::Array(_, _)) => Kind::Array,
        _ => Kind::Other,
    }
}

pub open spec fn opt_sort_view(s: Option<Sort>) -> Option<SortV> {
    match s {
        Some(x) => Some(sort_view(x)),
        None => None,
    }
}

/// The sort of a term; see [`sort_of`].
pub fn term_sort(t: &Term) -> (r: Option<Sort>)
    ensures
        opt_sort_view(r) == sort_of(term_view(*t)),
    decreases t,
{
    match t {
        Term::Var(_, s) => Some(s.duplicate()),
        Term::Int(_) => Some(Sort::Int),
        Term::Real(_) => Some(Sort::Real),
        Term::Bool(_) => Some(Sort::Bool),
        Term::Str(_) => Some(Sort::Str),
        Term::Variant(e, _) => Some(Sort::Enum(e.clone())),
        Term::Unary(op, a) => match op {
            UnaryOp::Neg => term_sort(a),
            UnaryOp::Not => Some(Sort::Bool),
        },
        Term::Binary(op, a, _) => match op {
            BinaryOp::Add | BinaryOp::Sub | BinaryOp::Mul | BinaryOp::Div | BinaryOp::Mod => term_sort(a),
            _ => Some(Sort::Bool),
        },
        Term::Ite(_, a, _) => term_sort(a),
        Term::Select(a, _) => match term_sort(a) {
            Some(Sort::Array(_, v)) => Some(*v),
            _ => None,
        },
        Term::Store(a, _, _) => term_sort(a),
        Term::Call(_, _, s) => Some(s.duplicate()),
        Term::Quant(..) => Some(Sort::Bool),
        Term::All(_) => Some(Sort::Bool),
    }
}

/// The kind of a term's sort; see [`kind`].
pub fn kind_of(t: &Term) -> (k: Kind)
    ensures
        k == kind(term_view(*t)),
{
    match term_sort(t) {
        Some(Sort::Int) => Kind::Int,
        Some(Sort::Real) => Kind::Real,
        Some(Sort::Bool) => Kind::Bool,
        Some(Sort::Array(_, _)) => Kind::Array,
        _ => Kind::Other,
    }
}

/// The sort a declared type is encoded with: arrays and maps become solver
/// arrays (an array is indexed by integers), enums and other named types a
/// sort of their own.
pub open spec fn type_sort(t: Type) -> SortV
    decreases t,
{
    match t {
        Type::Int => SortV::Int,
        Type::Real => SortV::Real,
        Type::Bool => SortV::Bool,
        Type::String => SortV::Str,
        Type::Array { element, .. } => SortV::Array(Box::new(SortV::Int), Box::new(type_sort(*element))),
        Type::Mapping { key, value } => SortV::Array(Box::new(type_sort(*key)), Box::new(type_sort(*value))),
        Type::Enum(n) => SortV::Enum(n@),
        Type::Named(n) => SortV::Enum(n@),
    }
}

/// The sort of a declared type; see [`type_sort`].
pub fn sort_of_type(t: &Type) -> (s: Sort)
    ensures
        sort_view(s) == type_sort(*t),
    decreases t,
{
    match t {
        Type::Int => {
            assert(sort_view(Sort::Int) == SortV::Int);
            Sort::Int
        },
        Type::Real => Sort::Real,
        Type::Bool => Sort::Bool,
        Type::String => Sort::Str,
        Type::Array { element, .. } => Sort::Array(Box::new(Sort::Int), Box::new(sort_of_type(element))),
        Type::Mapping { key, value } => Sort::Array(Box::new(sort_of_type(key)), Box::new(sort_of_type(value))),
        Type::Enum(n) => Sort::Enum(n.clone()),
        Type::Named(n) => Sort::Enum(n.clone()),
    }
}

/// The result sorts of the declared functions: a later declaration of a
/// name overrides an earlier one.
pub open spec fn fn_sorts_view(fs: Seq<(String, Sort)>) -> Map<Seq<char>, SortV>
    decreases fs.len(),
{
    if fs.len() == 0 {
        Map::empty()
    } else {
        fn_sorts_view(fs.drop_last()).insert(fs.last().0@, sort_view(fs.last().1))
    }
}

/// The result sort of a function: a declared one, or `int` for the
/// built-in `abs`, `min` and `max`.
pub open spec fn call_sort(fs: Map<Seq<char>, SortV>, name: Seq<char>) -> Option<SortV> {
    if fs.contains_key(name) {
        Some(fs[name])
    } else if name == "abs"@ || name == "min"@ || name == "max"@ {
        Some(SortV::Int)
    } else {
        None
    }
}

proof fn lemma_fn_sorts_absent(fs: Seq<(String, Sort)>, k: Seq<char>)
    requires
        forall|l: int| 0 <= l < fs.len() ==> (#[trigger] fs[l]).0@ != k,
    ensures
        !fn_sorts_view(fs).contains_key(k),
    decreases fs.len(),
{
    if fs.len() > 0 {
        let p = fs.drop_last();
        assert forall|l: int| 0 <= l < p.len() implies (#[trigger] p[l]).0@ != k by {
            assert(p[l] == fs[l]);
        }
        lemma_fn_sorts_absent(p, k);
    }
}

proof fn lemma_fn_sorts_last(fs: Seq<(String, Sort)>, k: Seq<char>, j: int)
    requires
        0 <= j < fs.len(),
        fs[j].0@ == k,
        forall|l: int| j < l < fs.len() ==> (#[trigger] fs[l]).0@ != k,
    ensures
        fn_sorts_view(fs).contains_key(k),
        fn_sorts_view(fs)[k] == sort_view(fs[j].1),
    decreases fs.len(),
{
    if j < fs.len() - 1 {
        let p = fs.drop_last();
        assert forall|l: int| j < l < p.len() implies (#[trigger] p[l]).0@ != k by {
            assert(p[l] == fs[l]);
        }
        lemma_fn_sorts_last(p, k, j);
    }
}

fn lookup_fn_sort(fs: &Vec<(String, Sort)>, name: &String) -> (r: Option<Sort>)
    ensures
        opt_sort_view(r) == call_sort(fn_sorts_view(fs@), name@),
{
    let mut i = fs.len();
    while i > 0
        invariant
            i <= fs@.len(),
            forall|l: int| i <= l < fs@.len() ==> (#[trigger] fs@[l]).0@ != name@,
        decreases i,
    {
        i = i - 1;
        if fs[i].0 == *name {
            proof {
                lemma_fn_sorts_last(fs@, name@, i as int);
            }
            return Some(fs[i].1.duplicate());
        }
    }
    proof {
        lemma_fn_sorts_absent(fs@, name@);
    }
    if *name == String::from_str("abs") || *name == String::from_str("min") || *name == String::from_str("max") {
        Some(Sort::Int)
    } else {
        None
    }
}


pub open spec fn result_view(r: Result<Term, String>) -> Result<TermV, Seq<char>> {
    match r {
        Ok(t) => Ok(term_view(t)),
        Err(w) => Err(w@),
    }
}

/// A value as the solver sees it: integers are unbounded.
pub enum SVal {
    I(int),
    B(bool),
    S(Seq<char>),
    E(Seq<char>, Seq<char>),
}

/// The solver's value of a run-time integer, boolean, text or enum value.
pub open spec fn sval(v: Val) -> Option<SVal> {
    match v {
        Val::Int(i) => Some(SVal::I(i as int)),
        Val::Bool(b) => Some(SVal::B(b)),
        Val::Str(x) => Some(SVal::S(x)),
        Val::Enum(e, x) => Some(SVal::E(e, x)),
        _ => None,
    }
}

/// What a term of integers, booleans, texts and enum values stands for when
/// the solver gives its variables the values `m`: arithmetic is on
/// unbounded integers, and division and remainder are Euclidean, by a
/// divisor other than zero.
pub open spec fn term_sem(t: TermV, m: Map<Seq<char>, SVal>) -> Option<SVal>
    decreases t,
{
    match t {
        TermV::Var(n, _) => if m.contains_key(n) { Some(m[n]) } else { None },
        TermV::Int(i) => Some(SVal::I(i as int)),
        TermV::Bool(b) => Some(SVal::B(b)),
        TermV::Str(x) => Some(SVal::S(x)),
        TermV::Variant(e, x) => Some(SVal::E(e, x)),
        TermV::Unary(op, a) => match (op, term_sem(*a, m)) {
            (UnaryOp::Neg, Some(SVal::I(x))) => Some(SVal::I(-x)),
            (UnaryOp::Not, Some(SVal::B(b))) => Some(SVal::B(!b)),
            _ => None,
        },
        TermV::Binary(op, a, b) => match (term_sem(*a, m), term_sem(*b, m)) {
            (Some(SVal::I(x)), Some(SVal::I(y))) => match op {
                BinaryOp::Add => Some(SVal::I(x + y)),
                BinaryOp::Sub => Some(SVal::I(x - y)),
                BinaryOp::Mul => Some(SVal::I(x * y)),
                BinaryOp::Div => if y != 0 { Some(SVal::I(x / y)) } else { None },
                BinaryOp::Mod => if y != 0 { Some(SVal::I(x % y)) } else { None },
                BinaryOp::Eq => Some(SVal::B(x == y)),
                BinaryOp::Neq => Some(SVal::B(x != y)),
                BinaryOp::Lt => Some(SVal::B(x < y)),
                BinaryOp::Gt => Some(SVal::B(x > y)),
                BinaryOp::Lte => Some(SVal::B(x <= y)),
                BinaryOp::Gte => Some(SVal::B(x >= y)),
                _ => None,
            },
            (Some(SVal::B(x)), Some(SVal::B(y))) => match op {
                BinaryOp::And => Some(SVal::B(x && y)),
                BinaryOp::Or => Some(SVal::B(x || y)),
                BinaryOp::Implies => Some(SVal::B(!x || y)),
                BinaryOp::Eq => Some(SVal::B(x == y)),
                BinaryOp::Neq => Some(SVal::B(x != y)),
                _ => None,
            },
            (Some(SVal::S(x)), Some(SVal::S(y))) => match op {
                BinaryOp::Eq => Some(SVal::B(x == y)),
                BinaryOp::Neq => Some(SVal::B(x != y)),
                _ => None,
            },
            (Some(SVal::E(e1, x1)), Some(SVal::E(e2, x2))) => match op {
                BinaryOp::Eq => Some(SVal::B(e1 == e2 && x1 == x2)),
                BinaryOp::Neq => Some(SVal::B(!(e1 == e2 && x1 == x2))),
                _ => None,
            },
            _ => None,
        },
        TermV::Ite(c, a, b) => match term_sem(*c, m) {
            Some(SVal::B(true)) => term_sem(*a, m),
            Some(SVal::B(false)) => term_sem(*b, m),
            _ => None,
        },
        _ => None,
    }
}

/// How an expression is encoded as a term, `env` giving the terms of names.
/// Inside `old(..)` a name `x` stands for `pre_x` when there is one. A
/// quantifier's domain must be a range, and its variable is an integer. An
/// expression that cannot be encoded gives the reason (the first one met,
/// left to right).
pub open spec fn encode(e: Expr, env: Env, fs: Map<Seq<char>, SortV>, in_old: bool) -> Result<TermV, Seq<char>>
    decreases e, 0int,
{
    match e {
        Expr::IntLit(v) => Ok(TermV::Int(v)),
        Expr::RealLit(x) => Ok(TermV::Real(x@)),
        Expr::BoolLit(b) => Ok(TermV::Bool(b)),
        Expr::StringLit(x) => Ok(TermV::Str(x@)),
        Expr::EnumVariant { enum_name, variant } => Ok(TermV::Variant(enum_name@, variant@)),
        Expr::Ident(x) => {
            let pre = "pre_"@ + x@;
            if in_old && env.contains_key(pre) {
                Ok(env[pre])
            } else if env.contains_key(x@) {
                Ok(env[x@])
            } else {
                Err("unknown name '"@ + x@ + "'"@)
            }
        },
        Expr::UnaryOp { op, operand } => match encode(operand.node, env, fs, in_old) {
            Ok(a) => Ok(TermV::Unary(op, Box::new(a))),
            Err(w) => Err(w),
        },
        Expr::BinaryOp { left, op, right } => match encode(left.node, env, fs, in_old) {
            Err(w) => Err(w),
            Ok(a) => match encode(right.node, env, fs, in_old) {
                Err(w) => Err(w),
                Ok(b) => Ok(TermV::Binary(op, Box::new(a), Box::new(b))),
            },
        },
        Expr::Old(inner) => encode(inner.node, env, fs, true),
        Expr::FieldAccess { .. } => Err("field access cannot be encoded"@),
        Expr::IndexAccess { object, index } => match encode(object.node, env, fs, in_old) {
            Err(w) => Err(w),
            Ok(a) => match encode(index.node, env, fs, in_old) {
                Err(w) => Err(w),
                Ok(i) => Ok(TermV::Select(Box::new(a), Box::new(i))),
            },
        },
        Expr::Forall { var, domain, body } => match domain.node {
            Expr::Range { start, end } => match encode(start.node, env, fs, in_old) {
                Err(w) => Err(w),
                Ok(lo) => match encode(end.node, env, fs, in_old) {
                    Err(w) => Err(w),
                    Ok(hi) => match encode(body.node, env.insert(var.node@, TermV::Var(var.node@, SortV::Int)), fs, in_old) {
                        Err(w) => Err(w),
                        Ok(b) => Ok(TermV::Quant(true, var.node@, Box::new(lo), Box::new(hi), Box::new(b))),
                    },
                },
            },
            _ => Err("the domain of a quantifier must be a range"@),
        },
        Expr::Exists { var, domain, body } => match domain.node {
            Expr::Range { start, end } => match encode(start.node, env, fs, in_old) {
                Err(w) => Err(w),
                Ok(lo) => match encode(end.node, env, fs, in_old) {
                    Err(w) => Err(w),
                    Ok(hi) => match encode(body.node, env.insert(var.node@, TermV::Var(var.node@, SortV::Int)), fs, in_old) {
                        Err(w) => Err(w),
                        Ok(b) => Ok(TermV::Quant(false, var.node@, Box::new(lo), Box::new(hi), Box::new(b))),
                    },
                },
            },
            _ => Err("the domain of a quantifier must be a range"@),
        },
        Expr::FnCall { name, args } => match call_sort(fs, name.node@) {
            None => Err("unknown function '"@ + name.node@ + "'"@),
            Some(s) => match encode_args(args@, env, fs, in_old) {
                Err(w) => Err(w),
                Ok(ts) => Ok(TermV::Call(name.node@, ts, s)),
            },
        },
        Expr::Range { .. } => Err("a range can only be the domain of a quantifier"@),
    }
}

pub open spec fn encode_args(args: Seq<Spanned<Expr>>, env: Env, fs: Map<Seq<char>, SortV>, in_old: bool) -> Result<Seq<TermV>, Seq<char>>
    decreases args, 1int,
{
    if args.len() == 0 {
        Ok(Seq::empty())
    } else {
        match encode_args(args.drop_last(), env, fs, in_old) {
            Err(w) => Err(w),
            Ok(ts) => match encode(args.last().node, env, fs, in_old) {
                Err(w) => Err(w),
                Ok(t) => Ok(ts.push(t)),
            },
        }
    }
}


/// Encodes an expression; see [`encode`].
pub fn encode_expr(e: &Expr, env: &TermMap, fs: &Vec<(String, Sort)>, in_old: bool) -> (r: Result<Term, String>)
    ensures
        result_view(r) == encode(*e, env@, fn_sorts_view(fs@), in_old),
    decreases e, 1int,
{
    match e {
        Expr::IntLit(v) => Ok(Term::Int(*v)),
        Expr::RealLit(x) => Ok(Term::Real(x.clone())),
        Expr::BoolLit(b) => Ok(Term::Bool(*b)),
        Expr::StringLit(x) => Ok(Term::Str(x.clone())),
        Expr::EnumVariant { enum_name, variant } => Ok(Term::Variant(enum_name.clone(), variant.clone())),
        Expr::Ident(x) => {
            if in_old {
                let pre = concat2("pre_", x.as_str());
                proof {
                    reveal_strlit("pre_");
                }
                match env.get(&pre) {
                    Some(t) => return Ok(t.duplicate()),
                    None => {},
                }
            }
            match env.get(x) {
                Some(t) => Ok(t.duplicate()),
                None => Err(concat3("unknown name '", x.as_str(), "'")),
            }
        },
        Expr::UnaryOp { op, operand } => match encode_expr(&operand.node, env, fs, in_old) {
            Ok(a) => Ok(Term::Unary(*op, Box::new(a))),
            Err(w) => Err(w),
        },
        Expr::BinaryOp { left, op, right } => {
            let a = match encode_expr(&left.node, env, fs, in_old) {
                Ok(a) => a,
                Err(w) => return Err(w),
            };
            match encode_expr(&right.node, env, fs, in_old) {
                Ok(b) => Ok(Term::Binary(*op, Box::new(a), Box::new(b))),
                Err(w) => Err(w),
            }
        },
        Expr::Old(inner) => encode_expr(&inner.node, env, fs, true),
        Expr::FieldAccess { .. } => Err(String::from_str("field access cannot be encoded")),
        Expr::IndexAccess { object, index } => {
            let a = match encode_expr(&object.node, env, fs, in_old) {
                Ok(a) => a,
                Err(w) => return Err(w),
            };
            match encode_expr(&index.node, env, fs, in_old) {
                Ok(i) => Ok(Term::Select(Box::new(a), Box::new(i))),
                Err(w) => Err(w),
            }
        },
        Expr::Forall { .. } | Expr::Exists { .. } => encode_quantified(e, env, fs, in_old),
        Expr::FnCall { name, args } => {
            let s = match lookup_fn_sort(fs, &name.node) {
                Some(s) => s,
                None => return Err(concat3("unknown function '", name.node.as_str(), "'")),
            };
            proof {
                let ghost w = *e;
                assert(decreases_to!(w => w->args));
            }
            match encode_arg_list(args, env, fs, in_old) {
                Ok(ts) => Ok(Term::Call(name.node.clone(), ts, s)),
                Err(w) => Err(w),
            }
        },
        Expr::Range { .. } => Err(String::from_str("a range can only be the domain of a quantifier")),
    }
}

fn encode_quantified(e: &Expr, env: &TermMap, fs: &Vec<(String, Sort)>, in_old: bool) -> (r: Result<Term, String>)
    requires
        e is Forall || e is Exists,
    ensures
        result_view(r) == encode(*e, env@, fn_sorts_view(fs@), in_old),
    decreases e, 0int,
{
    let (universal, var, domain, body) = match e {
        Expr::Forall { var, domain, body } => (true, &var.node, &domain.node, &body.node),
        Expr::Exists { var, domain, body } => (false, &var.node, &domain.node, &body.node),
        _ => return Err(String::from_str("the domain of a quantifier must be a range")),
    };
    match domain {
        Expr::Range { start, end } => {
            let lo = match encode_expr(&start.node, env, fs, in_old) {
                Ok(t) => t,
                Err(w) => return Err(w),
            };
            let hi = match encode_expr(&end.node, env, fs, in_old) {
                Ok(t) => t,
                Err(w) => return Err(w),
            };
            let mut inner = env.duplicate();
            inner.insert(var.clone(), Term::Var(var.clone(), Sort::Int));
            match encode_expr(body, &inner, fs, in_old) {
                Ok(b) => Ok(Term::Quant(universal, var.clone(), Box::new(lo), Box::new(hi), Box::new(b))),
                Err(w) => Err(w),
            }
        },
        _ => Err(String::from_str("the domain of a quantifier must be a range")),
    }
}

fn encode_arg_list(args: &Vec<Spanned<Expr>>, env: &TermMap, fs: &Vec<(String, Sort)>, in_old: bool) -> (r: Result<Vec<Term>, String>)
    ensures
        match r {
            Ok(ts) => encode_args(args@, env@, fn_sorts_view(fs@), in_old) == Ok::<Seq<TermV>, Seq<char>>(terms_view(ts@)),
            Err(w) => encode_args(args@, env@, fn_sorts_view(fs@), in_old) == Err::<Seq<TermV>, Seq<char>>(w@),
        },
    decreases args, 1int,
{
    let mut out: Vec<Term> = Vec::new();
    let n = args.len();
    let mut i: usize = 0;
    while i < n
        invariant
            n == args@.len(),
            i <= n,
            encode_args(args@.take(i as int), env@, fn_sorts_view(fs@), in_old) == Ok::<Seq<TermV>, Seq<char>>(terms_view(out@)),
        decreases n - i,
    {
        proof {
            assert(decreases_to!(args => args@));
            assert(args@.take(i + 1).drop_last() =~= args@.take(i as int));
        }
        match encode_expr(&args[i].node, env, fs, in_old) {
            Ok(t) => {
                proof {
                    lemma_terms_view_push(out@, t);
                }
                out.push(t);
            },
            Err(w) => {
                proof {
                    lemma_encode_args_err(args@, i as int + 1, env@, fn_sorts_view(fs@), in_old, w@);
                }
                return Err(w);
            },
        }
        i = i + 1;
    }
    proof {
        assert(args@.take(n as int) =~= args@);
    }
    Ok(out)
}

proof fn lemma_encode_args_err(args: Seq<Spanned<Expr>>, k: int, env: Env, fs: Map<Seq<char>, SortV>, in_old: bool, w: Seq<char>)
    requires
        0 < k <= args.len(),
        encode_args(args.take(k), env, fs, in_old) == Err::<Seq<TermV>, Seq<char>>(w),
    ensures
        encode_args(args, env, fs, in_old) == Err::<Seq<TermV>, Seq<char>>(w),
    decreases args.len() - k,
{
    if k == args.len() {
        assert(args.take(k) =~= args);
    } else {
        assert(args.take(k + 1).drop_last() =~= args.take(k));
        lemma_encode_args_err(args, k + 1, env, fs, in_old, w);
    }
}


/// Where the symbolic run of a transition body stands: the current term of
/// each name, the conditions of the `assert` statements met so far, and the
/// names assigned to.
#[verifier::ext_equal]
pub struct Ssa {
    pub cur: Env,
    pub asserts: Seq<TermV>,
    pub modified: Set<Seq<char>>,
}

pub open spec fn compound_binop(op: CompoundOp) -> BinaryOp {
    match op {
        CompoundOp::Add => BinaryOp::Add,
        CompoundOp::Sub => BinaryOp::Sub,
        CompoundOp::Mul => BinaryOp::Mul,
        CompoundOp::Div => BinaryOp::Div,
    }
}

/// Two terms an arithmetic operator can combine: both integers or both reals.
pub open spec fn arith_pair(a: TermV, b: TermV) -> bool {
    (kind(a) == Kind::Int && kind(b) == Kind::Int) || (kind(a) == Kind::Real && kind(b) == Kind::Real)
}

/// Two terms a choice can be made between: both of one of the kinds
/// integer, real, boolean or array.
pub open spec fn mergeable(a: TermV, b: TermV) -> bool {
    kind(a) == kind(b) && kind(a) != Kind::Other
}

/// The condition under which a match arm is taken.
pub open spec fn arm_condition(subject: TermV, p: MatchPattern) -> TermV {
    match p {
        MatchPattern::Wildcard => TermV::Bool(true),
        MatchPattern::IntLit(v) => TermV::Binary(BinaryOp::Eq, Box::new(subject), Box::new(TermV::Int(v))),
        MatchPattern::BoolLit(b) => TermV::Binary(BinaryOp::Eq, Box::new(subject), Box::new(TermV::Bool(b))),
        MatchPattern::StringLit(x) => TermV::Binary(BinaryOp::Eq, Box::new(subject), Box::new(TermV::Str(x@))),
        MatchPattern::EnumVariant { enum_name, variant } => TermV::Binary(
            BinaryOp::Eq,
            Box::new(subject),
            Box::new(TermV::Variant(enum_name@, variant@)),
        ),
    }
}

/// After an `if`: each name assigned in a branch whose terms in both
/// branches can be chosen between gets the choice by the condition; every
/// other name keeps its term from before the `if`.
pub open spec fn merge_if(cur: Env, c: TermV, t: Env, e: Env, assigned: Set<Seq<char>>) -> Env {
    Map::new(
        |k: Seq<char>| cur.contains_key(k) || (assigned.contains(k) && t.contains_key(k) && e.contains_key(k) && mergeable(t[k], e[k])),
        |k: Seq<char>| if assigned.contains(k) && t.contains_key(k) && e.contains_key(k) && mergeable(t[k], e[k]) {
            TermV::Ite(Box::new(c), Box::new(t[k]), Box::new(e[k]))
        } else {
            cur[k]
        },
    )
}

/// The term of `k` after a match, from arm `i` on: the arm's term when its
/// condition holds, else what the later arms give, down to the term before
/// the match. An arm whose term cannot be chosen against is passed over.
pub open spec fn match_select(subject: TermV, arms: Seq<MatchArm>, ends: Seq<Env>, cur: Env, k: Seq<char>, i: int) -> TermV
    decreases arms.len() - i,
{
    if i < 0 || i >= arms.len() {
        cur[k]
    } else {
        let later = match_select(subject, arms, ends, cur, k, i + 1);
        let here = if ends[i].contains_key(k) { ends[i][k] } else { cur[k] };
        if mergeable(here, later) {
            TermV::Ite(Box::new(arm_condition(subject, arms[i].pattern.node)), Box::new(here), Box::new(later))
        } else {
            later
        }
    }
}

/// After a match: each name assigned in an arm that had a term before the
/// match gets the choice between the arms' terms.
pub open spec fn merge_match(cur: Env, subject: TermV, arms: Seq<MatchArm>, ends: Seq<Env>, assigned: Set<Seq<char>>) -> Env {
    Map::new(
        |k: Seq<char>| cur.contains_key(k),
        |k: Seq<char>| if assigned.contains(k) { match_select(subject, arms, ends, cur, k, 0) } else { cur[k] },
    )
}

pub open spec fn unassigned(cur: Env, asserts: Seq<TermV>) -> Ssa {
    Ssa { cur, asserts, modified: Set::empty() }
}

/// A statement run symbolically. An assignment whose value cannot be
/// encoded (or whose operands do not fit) leaves the term as it was, but the
/// name still counts as assigned. An `assert` adds its condition. An `if`
/// or `match` whose condition or subject cannot be encoded is passed over.
/// The branches of an `if` and the arms of a `match` each start from the
/// terms before it, and the conditions they assert are kept.
pub open spec fn ssa_stmt(s: Statement, st: Ssa, fs: Map<Seq<char>, SortV>) -> Ssa
    decreases s,
{
    match s {
        Statement::Assign(a) => Ssa {
            cur: match encode(a.value.node, st.cur, fs, false) {
                Ok(v) => st.cur.insert(a.target.node@, v),
                Err(_) => st.cur,
            },
            modified: st.modified.insert(a.target.node@),
            ..st
        },
        Statement::CompoundAssign { target, op, value } => {
            let t = target.node@;
            Ssa {
                cur: match encode(value.node, st.cur, fs, false) {
                    Ok(v) => if st.cur.contains_key(t) && arith_pair(st.cur[t], v) {
                        st.cur.insert(t, TermV::Binary(compound_binop(op), Box::new(st.cur[t]), Box::new(v)))
                    } else {
                        st.cur
                    },
                    Err(_) => st.cur,
                },
                modified: st.modified.insert(t),
                ..st
            }
        },
        Statement::IndexedAssign { target, index, value } => {
            let t = target.node@;
            Ssa {
                cur: match (encode(index.node, st.cur, fs, false), encode(value.node, st.cur, fs, false)) {
                    (Ok(i), Ok(v)) => if st.cur.contains_key(t) && kind(st.cur[t]) == Kind::Array {
                        st.cur.insert(t, TermV::Store(Box::new(st.cur[t]), Box::new(i), Box::new(v)))
                    } else {
                        st.cur
                    },
                    _ => st.cur,
                },
                modified: st.modified.insert(t),
                ..st
            }
        },
        Statement::IndexedCompoundAssign { target, index, op, value } => {
            let t = target.node@;
            Ssa {
                cur: match (encode(index.node, st.cur, fs, false), encode(value.node, st.cur, fs, false)) {
                    (Ok(i), Ok(v)) => if st.cur.contains_key(t) && kind(st.cur[t]) == Kind::Array {
                        let elem = TermV::Select(Box::new(st.cur[t]), Box::new(i));
                        if arith_pair(elem, v) {
                            st.cur.insert(t, TermV::Store(
                                Box::new(st.cur[t]),
                                Box::new(i),
                                Box::new(TermV::Binary(compound_binop(op), Box::new(elem), Box::new(v))),
                            ))
                        } else {
                            st.cur
                        }
                    } else {
                        st.cur
                    },
                    _ => st.cur,
                },
                modified: st.modified.insert(t),
                ..st
            }
        },
        Statement::Assert { condition } => match encode(condition.node, st.cur, fs, false) {
            Ok(b) => if kind(b) == Kind::Bool { Ssa { asserts: st.asserts.push(b), ..st } } else { st },
            Err(_) => st,
        },
        Statement::If { condition, then_body, else_body } => match encode(condition.node, st.cur, fs, false) {
            Ok(c) => if kind(c) == Kind::Bool {
                let t = ssa_block(then_body@, unassigned(st.cur, st.asserts), fs);
                let e = ssa_else(else_body, unassigned(st.cur, t.asserts), fs);
                let assigned = t.modified + e.modified;
                Ssa { cur: merge_if(st.cur, c, t.cur, e.cur, assigned), asserts: e.asserts, modified: st.modified + assigned }
            } else {
                st
            },
            Err(_) => st,
        },
        Statement::Let { name, value, .. } => match encode(value.node, st.cur, fs, false) {
            Ok(v) => Ssa { cur: st.cur.insert(name.node@, v), ..st },
            Err(_) => st,
        },
        Statement::Match { expr, arms } => match encode(expr.node, st.cur, fs, false) {
            Ok(subject) => {
                let r = ssa_arms(arms@, st.cur, st.asserts, fs);
                Ssa {
                    cur: merge_match(st.cur, subject, arms@, r.0, r.2),
                    asserts: r.1,
                    modified: st.modified + r.2,
                }
            },
            Err(_) => st,
        },
    }
}

/// The `else` branch, if there is one.
pub open spec fn ssa_else(e: Option<Vec<Spanned<Statement>>>, st: Ssa, fs: Map<Seq<char>, SortV>) -> Ssa
    decreases e,
{
    match e {
        Some(v) => ssa_block(v@, st, fs),
        None => st,
    }
}

/// The statements run one after another.
pub open spec fn ssa_block(b: Seq<Spanned<Statement>>, st: Ssa, fs: Map<Seq<char>, SortV>) -> Ssa
    decreases b,
{
    if b.len() == 0 {
        st
    } else {
        ssa_stmt(b.last().node, ssa_block(b.drop_last(), st, fs), fs)
    }
}

/// The arms of a match run one after another, each from `cur`: the terms
/// each ends with, the conditions asserted in all of them, and the names
/// assigned in any.
pub open spec fn ssa_arms(arms: Seq<MatchArm>, cur: Env, asserts: Seq<TermV>, fs: Map<Seq<char>, SortV>) -> (Seq<Env>, Seq<TermV>, Set<Seq<char>>)
    decreases arms,
{
    if arms.len() == 0 {
        (Seq::empty(), asserts, Set::empty())
    } else {
        let before = ssa_arms(arms.drop_last(), cur, asserts, fs);
        let r = ssa_block(arms.last().body@, unassigned(cur, before.1), fs);
        (before.0.push(r.cur), r.asserts, before.2 + r.modified)
    }
}


/// A set of names, each held once.
pub struct NameSet {
    pub names: Vec<String>,
}

pub open spec fn names_view(ns: Seq<String>) -> Set<Seq<char>>
    decreases ns.len(),
{
    if ns.len() == 0 {
        Set::empty()
    } else {
        names_view(ns.drop_last()).insert(ns.last()@)
    }
}

proof fn lemma_names_view_contains(ns: Seq<String>, k: Seq<char>)
    ensures
        names_view(ns).contains(k) <==> exists|i: int| 0 <= i < ns.len() && (#[trigger] ns[i])@ == k,
    decreases ns.len(),
{
    if ns.len() > 0 {
        lemma_names_view_contains(ns.drop_last(), k);
        if names_view(ns.drop_last()).contains(k) {
            let i = choose|i: int| 0 <= i < ns.drop_last().len() && (#[trigger] ns.drop_last()[i])@ == k;
            assert(ns[i] == ns.drop_last()[i]);
        }
        if exists|i: int| 0 <= i < ns.len() && (#[trigger] ns[i])@ == k {
            let i = choose|i: int| 0 <= i < ns.len() && (#[trigger] ns[i])@ == k;
            if i < ns.len() - 1 {
                assert(ns.drop_last()[i] == ns[i]);
            }
        }
    }
}

impl View for NameSet {
    type V = Set<Seq<char>>;

    open spec fn view(&self) -> Set<Seq<char>> {
        names_view(self.names@)
    }
}

impl NameSet {
    pub fn new() -> (s: NameSet)
        ensures
            s@ == Set::<Seq<char>>::empty(),
    {
        NameSet { names: Vec::new() }
    }

    pub fn contains(&self, name: &String) -> (r: bool)
        ensures
            r == self@.contains(name@),
    {
        let mut i: usize = 0;
        while i < self.names.len()
            invariant
                i <= self.names@.len(),
                forall|j: int| 0 <= j < i ==> (#[trigger] self.names@[j])@ != name@,
            decreases self.names@.len() - i,
        {
            if self.names[i] == *name {
                proof {
                    assert(self.names@[i as int]@ == name@);
                    lemma_names_view_contains(self.names@, name@);
                }
                return true;
            }
            i = i + 1;
        }
        proof {
            lemma_names_view_contains(self.names@, name@);
        }
        false
    }

    pub fn insert(&mut self, name: String)
        ensures
            final(self)@ == old(self)@.insert(name@),
    {
        if !self.contains(&name) {
            let ghost before = self.names@;
            self.names.push(name);
            proof {
                assert(self.names@.drop_last() =~= before);
            }
        } else {
            proof {
                assert(self@.insert(name@) =~= self@);
            }
        }
    }

    /// Adds every name of `other`.
    pub fn add_all(&mut self, other: &NameSet)
        ensures
            final(self)@ == old(self)@ + other@,
    {
        let ghost start = self@;
        let mut i: usize = 0;
        while i < other.names.len()
            invariant
                i <= other.names@.len(),
                self@ == start + names_view(other.names@.take(i as int)),
            decreases other.names@.len() - i,
        {
            proof {
                assert(other.names@.take(i + 1).drop_last() =~= other.names@.take(i as int));
            }
            self.insert(other.names[i].clone());
            proof {
                assert(self@ =~= start + names_view(other.names@.take(i + 1)));
            }
            i = i + 1;
        }
        proof {
            assert(other.names@.take(other.names@.len() as int) =~= other.names@);
        }
    }
}

/// The symbolic run of a transition body as it proceeds; see [`Ssa`].
pub struct SsaRun {
    pub cur: TermMap,
    pub asserts: Vec<Term>,
    pub modified: NameSet,
}

pub open spec fn ssa_view(r: SsaRun) -> Ssa {
    Ssa { cur: r.cur@, asserts: terms_view(r.asserts@), modified: r.modified@ }
}

pub open spec fn maps_view(ms: Seq<TermMap>) -> Seq<Env> {
    ms.map_values(|m: TermMap| m@)
}

fn compound_to_binary(op: CompoundOp) -> (b: BinaryOp)
    ensures
        b == compound_binop(op),
{
    match op {
        CompoundOp::Add => BinaryOp::Add,
        CompoundOp::Sub => BinaryOp::Sub,
        CompoundOp::Mul => BinaryOp::Mul,
        CompoundOp::Div => BinaryOp::Div,
    }
}

fn is_arith_pair(a: &Term, b: &Term) -> (r: bool)
    ensures
        r == arith_pair(term_view(*a), term_view(*b)),
{
    let ka = kind_of(a);
    let kb = kind_of(b);
    (ka == Kind::Int && kb == Kind::Int) || (ka == Kind::Real && kb == Kind::Real)
}

fn is_mergeable(a: &Term, b: &Term) -> (r: bool)
    ensures
        r == mergeable(term_view(*a), term_view(*b)),
{
    let ka = kind_of(a);
    ka == kind_of(b) && ka != Kind::Other
}

/// The condition of a match arm; see [`arm_condition`].
fn arm_condition_term(subject: &Term, p: &MatchPattern) -> (t: Term)
    ensures
        term_view(t) == arm_condition(term_view(*subject), *p),
{
    let lit = match p {
        MatchPattern::Wildcard => {
            let t = Term::Bool(true);
            assert(term_view(t) == arm_condition(term_view(*subject), *p));
            return t;
        },
        MatchPattern::IntLit(v) => {
            assert(term_view(Term::Int(*v)) == TermV::Int(*v));
            Term::Int(*v)
        },
        MatchPattern::BoolLit(b) => {
            assert(term_view(Term::Bool(*b)) == TermV::Bool(*b));
            Term::Bool(*b)
        },
        MatchPattern::StringLit(x) => {
            let c = x.clone();
            assert(term_view(Term::Str(c)) == TermV::Str(x@));
            Term::Str(c)
        },
        MatchPattern::EnumVariant { enum_name, variant } => {
            let t = Term::Variant(enum_name.clone(), variant.clone());
            assert(term_view(t) == TermV::Variant(enum_name@, variant@));
            t
        },
    };
    let t = Term::Binary(BinaryOp::Eq, Box::new(subject.duplicate()), Box::new(lit));
    assert(term_view(t) == arm_condition(term_view(*subject), *p));
    t
}


/// Runs a statement symbolically; see [`ssa_stmt`].
pub fn ssa_statement(stmt: &Statement, st: &mut SsaRun, fs: &Vec<(String, Sort)>)
    ensures
        ssa_view(*final(st)) =~= ssa_stmt(*stmt, ssa_view(*old(st)), fn_sorts_view(fs@)),
    decreases stmt, 1int,
{
    let ghost s0 = ssa_view(*st);
    let ghost fsv = fn_sorts_view(fs@);
    match stmt {
        Statement::Assign(a) => {
            match encode_expr(&a.value.node, &st.cur, fs, false) {
                Ok(v) => st.cur.insert(a.target.node.clone(), v),
                Err(_) => {},
            }
            st.modified.insert(a.target.node.clone());
        },
        Statement::CompoundAssign { target, op, value } => {
            match encode_expr(&value.node, &st.cur, fs, false) {
                Ok(v) => {
                    let updated = match st.cur.get(&target.node) {
                        Some(c) => if is_arith_pair(c, &v) {
                            Some(Term::Binary(compound_to_binary(*op), Box::new(c.duplicate()), Box::new(v)))
                        } else {
                            None
                        },
                        None => None,
                    };
                    match updated {
                        Some(t) => st.cur.insert(target.node.clone(), t),
                        None => {},
                    }
                },
                Err(_) => {},
            }
            st.modified.insert(target.node.clone());
        },
        Statement::IndexedAssign { target, index, value } => {
            let i = encode_expr(&index.node, &st.cur, fs, false);
            let v = encode_expr(&value.node, &st.cur, fs, false);
            match (i, v) {
                (Ok(i), Ok(v)) => {
                    let updated = match st.cur.get(&target.node) {
                        Some(a) => if kind_of(a) == Kind::Array {
                            Some(Term::Store(Box::new(a.duplicate()), Box::new(i), Box::new(v)))
                        } else {
                            None
                        },
                        None => None,
                    };
                    match updated {
                        Some(t) => st.cur.insert(target.node.clone(), t),
                        None => {},
                    }
                },
                _ => {},
            }
            st.modified.insert(target.node.clone());
        },
        Statement::IndexedCompoundAssign { target, index, op, value } => {
            let i = encode_expr(&index.node, &st.cur, fs, false);
            let v = encode_expr(&value.node, &st.cur, fs, false);
            match (i, v) {
                (Ok(i), Ok(v)) => {
                    let updated = match st.cur.get(&target.node) {
                        Some(a) => if kind_of(a) == Kind::Array {
                            let ghost iv = term_view(i);
                            let elem = Term::Select(Box::new(a.duplicate()), Box::new(i.duplicate()));
                            let ghost ev = TermV::Select(Box::new(term_view(*a)), Box::new(iv));
                            assert(term_view(elem) == ev);
                            if is_arith_pair(&elem, &v) {
                                let ghost vv = term_view(v);
                                let bin = Term::Binary(compound_to_binary(*op), Box::new(elem), Box::new(v));
                                assert(term_view(bin) == TermV::Binary(compound_binop(*op), Box::new(ev), Box::new(vv)));
                                let stored = Term::Store(Box::new(a.duplicate()), Box::new(i), Box::new(bin));
                                assert(term_view(stored) == TermV::Store(
                                    Box::new(term_view(*a)),
                                    Box::new(iv),
                                    Box::new(TermV::Binary(compound_binop(*op), Box::new(ev), Box::new(vv))),
                                ));
                                Some(stored)
                            } else {
                                None
                            }
                        } else {
                            None
                        },
                        None => None,
                    };
                    match updated {
                        Some(t) => st.cur.insert(target.node.clone(), t),
                        None => {},
                    }
                },
                _ => {},
            }
            st.modified.insert(target.node.clone());
        },
        Statement::Assert { condition } => match encode_expr(&condition.node, &st.cur, fs, false) {
            Ok(b) => {
                if kind_of(&b) == Kind::Bool {
                    let ghost before = st.asserts@;
                    st.asserts.push(b);
                    proof {
                        lemma_terms_view_push(before, b);
                    }
                }
            },
            Err(_) => {},
        },
        Statement::If { .. } => ssa_if(stmt, st, fs),
        Statement::Let { name, value, .. } => match encode_expr(&value.node, &st.cur, fs, false) {
            Ok(v) => st.cur.insert(name.node.clone(), v),
            Err(_) => {},
        },
        Statement::Match { .. } => ssa_match(stmt, st, fs),
    }
}

/// Runs statements one after another; see [`ssa_block`].
pub fn ssa_statements(b: &Vec<Spanned<Statement>>, st: &mut SsaRun, fs: &Vec<(String, Sort)>)
    ensures
        ssa_view(*final(st)) =~= ssa_block(b@, ssa_view(*old(st)), fn_sorts_view(fs@)),
    decreases b, 0int,
{
    let ghost start = ssa_view(*st);
    let n = b.len();
    let mut i: usize = 0;
    proof {
        assert(b@.take(0) =~= Seq::<Spanned<Statement>>::empty());
    }
    while i < n
        invariant
            n == b@.len(),
            i <= n,
            start == ssa_view(*old(st)),
            ssa_view(*st) == ssa_block(b@.take(i as int), start, fn_sorts_view(fs@)),
        decreases n - i,
    {
        proof {
            assert(decreases_to!(b => b@));
            assert(b@.take(i + 1).drop_last() =~= b@.take(i as int));
            assert(b@.take(i + 1).last() == b@[i as int]);
        }
        ssa_statement(&b[i].node, st, fs);
        i = i + 1;
    }
    proof {
        assert(b@.take(n as int) =~= b@);
    }
}

fn take_asserts(st: &mut SsaRun) -> (a: Vec<Term>)
    ensures
        a@ == old(st).asserts@,
        final(st).asserts@.len() == 0,
        final(st).cur == old(st).cur,
        final(st).modified == old(st).modified,
{
    let mut a: Vec<Term> = Vec::new();
    std::mem::swap(&mut a, &mut st.asserts);
    a
}

fn ssa_if(stmt: &Statement, st: &mut SsaRun, fs: &Vec<(String, Sort)>)
    requires
        stmt is If,
    ensures
        ssa_view(*final(st)) =~= ssa_stmt(*stmt, ssa_view(*old(st)), fn_sorts_view(fs@)),
    decreases stmt, 0int,
{
    let (condition, then_body, else_body) = match stmt {
        Statement::If { condition, then_body, else_body } => (condition, then_body, else_body),
        _ => return,
    };
    let c = match encode_expr(&condition.node, &st.cur, fs, false) {
        Ok(c) => c,
        Err(_) => return,
    };
    if kind_of(&c) != Kind::Bool {
        return;
    }
    let ghost fsv = fn_sorts_view(fs@);
    let base = st.cur.duplicate();
    let asserts = take_asserts(st);
    let mut t = SsaRun { cur: base.duplicate(), asserts, modified: NameSet::new() };
    proof {
        assert(ssa_view(t) =~= unassigned(base@, terms_view(old(st).asserts@)));
    }
    ssa_statements(then_body, &mut t, fs);
    let mut e = SsaRun { cur: base.duplicate(), asserts: t.asserts, modified: NameSet::new() };
    proof {
        assert(ssa_view(e) =~= unassigned(base@, ssa_block(then_body@, unassigned(base@, terms_view(old(st).asserts@)), fsv).asserts));
    }
    match else_body {
        Some(v) => ssa_statements(v, &mut e, fs),
        None => {},
    }
    let mut assigned = NameSet::new();
    assigned.add_all(&t.modified);
    assigned.add_all(&e.modified);
    let ghost tv = t.cur@;
    let ghost ev = e.cur@;
    let ghost cv = term_view(c);
    let ghost all = assigned@;
    let n = assigned.names.len();
    let mut i: usize = 0;
    proof {
        assert(names_view(assigned.names@.take(0)) =~= Set::<Seq<char>>::empty());
        assert(st.cur@ =~= Map::new(
            |k: Seq<char>| base@.contains_key(k) || (names_view(assigned.names@.take(0)).contains(k) && tv.contains_key(k) && ev.contains_key(k) && mergeable(tv[k], ev[k])),
            |k: Seq<char>| if names_view(assigned.names@.take(0)).contains(k) && tv.contains_key(k) && ev.contains_key(k) && mergeable(tv[k], ev[k]) {
                TermV::Ite(Box::new(cv), Box::new(tv[k]), Box::new(ev[k]))
            } else {
                base@[k]
            },
        ));
    }
    while i < n
        invariant
            n == assigned.names@.len(),
            i <= n,
            tv == t.cur@,
            ev == e.cur@,
            cv == term_view(c),
            st.modified@ == old(st).modified@,
            st.cur@ == Map::new(
                |k: Seq<char>| base@.contains_key(k) || (names_view(assigned.names@.take(i as int)).contains(k) && tv.contains_key(k) && ev.contains_key(k) && mergeable(tv[k], ev[k])),
                |k: Seq<char>| if names_view(assigned.names@.take(i as int)).contains(k) && tv.contains_key(k) && ev.contains_key(k) && mergeable(tv[k], ev[k]) {
                    TermV::Ite(Box::new(cv), Box::new(tv[k]), Box::new(ev[k]))
                } else {
                    base@[k]
                },
            ),
        decreases n - i,
    {
        let k = &assigned.names[i];
        proof {
            assert(assigned.names@.take(i + 1).drop_last() =~= assigned.names@.take(i as int));
        }
        let ghost pre = st.cur@;
        match (t.cur.get(k), e.cur.get(k)) {
            (Some(a), Some(b)) => {
                if is_mergeable(a, b) {
                    st.cur.insert(k.clone(), Term::Ite(Box::new(c.duplicate()), Box::new(a.duplicate()), Box::new(b.duplicate())));
                }
            },
            _ => {},
        }
        proof {
            assert(st.cur@ =~= Map::new(
                |x: Seq<char>| base@.contains_key(x) || (names_view(assigned.names@.take(i + 1)).contains(x) && tv.contains_key(x) && ev.contains_key(x) && mergeable(tv[x], ev[x])),
                |x: Seq<char>| if names_view(assigned.names@.take(i + 1)).contains(x) && tv.contains_key(x) && ev.contains_key(x) && mergeable(tv[x], ev[x]) {
                    TermV::Ite(Box::new(cv), Box::new(tv[x]), Box::new(ev[x]))
                } else {
                    base@[x]
                },
            ));
        }
        i = i + 1;
    }
    proof {
        assert(assigned.names@.take(n as int) =~= assigned.names@);
        assert(st.cur@ =~= merge_if(base@, cv, tv, ev, all));
    }
    st.asserts = e.asserts;
    st.modified.add_all(&assigned);
    proof {
        let s0 = ssa_view(*old(st));
        let ts = ssa_block(then_body@, unassigned(s0.cur, s0.asserts), fsv);
        let es = ssa_else(*else_body, unassigned(s0.cur, ts.asserts), fsv);
        assert(ts.cur == tv);
        assert(es.cur == ev);
        assert(all =~= ts.modified + es.modified);
        assert(ssa_view(*st).asserts == es.asserts);
        assert(ssa_view(*st).modified =~= s0.modified + (ts.modified + es.modified));
        assert(ssa_view(*st).cur == merge_if(s0.cur, cv, ts.cur, es.cur, ts.modified + es.modified));
    }
}

proof fn lemma_ssa_arms_len(arms: Seq<MatchArm>, cur: Env, asserts: Seq<TermV>, fs: Map<Seq<char>, SortV>)
    ensures
        ssa_arms(arms, cur, asserts, fs).0.len() == arms.len(),
    decreases arms.len(),
{
    if arms.len() > 0 {
        lemma_ssa_arms_len(arms.drop_last(), cur, asserts, fs);
    }
}

fn ssa_match(stmt: &Statement, st: &mut SsaRun, fs: &Vec<(String, Sort)>)
    requires
        stmt is Match,
    ensures
        ssa_view(*final(st)) =~= ssa_stmt(*stmt, ssa_view(*old(st)), fn_sorts_view(fs@)),
    decreases stmt, 0int,
{
    let (scrutinee, arms) = match stmt {
        Statement::Match { expr, arms } => (expr, arms),
        _ => return,
    };
    let subject = match encode_expr(&scrutinee.node, &st.cur, fs, false) {
        Ok(t) => t,
        Err(_) => return,
    };
    let ghost fsv = fn_sorts_view(fs@);
    let ghost a0 = terms_view(st.asserts@);
    let base = st.cur.duplicate();
    let mut asserts = take_asserts(st);
    let mut ends: Vec<TermMap> = Vec::new();
    let mut assigned = NameSet::new();
    let n = arms.len();
    let mut i: usize = 0;
    proof {
        assert(arms@.take(0) =~= Seq::<MatchArm>::empty());
        assert(maps_view(ends@) =~= Seq::<Env>::empty());
    }
    while i < n
        invariant
            n == arms@.len(),
            i <= n,
            (maps_view(ends@), terms_view(asserts@), assigned@) == ssa_arms(arms@.take(i as int), base@, a0, fsv),
            fsv == fn_sorts_view(fs@),
            *stmt is Match,
            stmt->arms == *arms,
        decreases n - i,
    {
        proof {
            assert(decreases_to!(arms => arms@));
            assert(arms@.take(i + 1).drop_last() =~= arms@.take(i as int));
            assert(arms@.take(i + 1).last() == arms@[i as int]);
        }
        proof {
            let ghost w = *stmt;
            assert(decreases_to!(w => w->arms));
            assert(decreases_to!(w => arms@[i as int].body));
        }
        let mut r = SsaRun { cur: base.duplicate(), asserts, modified: NameSet::new() };
        proof {
            assert(ssa_view(r) =~= unassigned(base@, ssa_arms(arms@.take(i as int), base@, a0, fsv).1));
        }
        ssa_statements(&arms[i].body, &mut r, fs);
        let ghost before = ends@;
        ends.push(r.cur);
        asserts = r.asserts;
        assigned.add_all(&r.modified);
        proof {
            assert(maps_view(ends@) =~= maps_view(before).push(ends@.last()@));
        }
        i = i + 1;
    }
    proof {
        assert(arms@.take(n as int) =~= arms@);
        lemma_ssa_arms_len(arms@, base@, a0, fsv);
    }
    let ghost subj = term_view(subject);
    let ghost endsv = maps_view(ends@);
    let m = assigned.names.len();
    let mut k: usize = 0;
    proof {
        assert(names_view(assigned.names@.take(0)) =~= Set::<Seq<char>>::empty());
        assert(st.cur@ =~= Map::new(
            |x: Seq<char>| base@.contains_key(x),
            |x: Seq<char>| if names_view(assigned.names@.take(0)).contains(x) {
                match_select(subj, arms@, endsv, base@, x, 0)
            } else {
                base@[x]
            },
        ));
    }
    while k < m
        invariant
            m == assigned.names@.len(),
            k <= m,
            n == arms@.len(),
            endsv == maps_view(ends@),
            endsv.len() == n,
            subj == term_view(subject),
            st.modified@ == old(st).modified@,
            st.asserts@.len() == 0,
            st.cur@ == Map::new(
                |x: Seq<char>| base@.contains_key(x),
                |x: Seq<char>| if names_view(assigned.names@.take(k as int)).contains(x) {
                    match_select(subj, arms@, endsv, base@, x, 0)
                } else {
                    base@[x]
                },
            ),
        decreases m - k,
    {
        let name = &assigned.names[k];
        proof {
            assert(assigned.names@.take(k + 1).drop_last() =~= assigned.names@.take(k as int));
        }
        match base.get(name) {
            Some(b0) => {
                let mut sel = b0.duplicate();
                let mut j = n;
                while j > 0
                    invariant
                        j <= n,
                        n == arms@.len(),
                        endsv == maps_view(ends@),
                        endsv.len() == n,
                        subj == term_view(subject),
                        base@.contains_key(name@),
                        term_view(*b0) == base@[name@],
                        term_view(sel) == match_select(subj, arms@, endsv, base@, name@, j as int),
                    decreases j,
                {
                    j = j - 1;
                    let here = match ends[j].get(name) {
                        Some(h) => h,
                        None => b0,
                    };
                    proof {
                        assert(endsv[j as int] == ends@[j as int]@);
                    }
                    if is_mergeable(here, &sel) {
                        let cond = arm_condition_term(&subject, &arms[j].pattern.node);
                        sel = Term::Ite(Box::new(cond), Box::new(here.duplicate()), Box::new(sel));
                    }
                }
                st.cur.insert(name.clone(), sel);
            },
            None => {},
        }
        proof {
            assert(st.cur@ =~= Map::new(
                |x: Seq<char>| base@.contains_key(x),
                |x: Seq<char>| if names_view(assigned.names@.take(k + 1)).contains(x) {
                    match_select(subj, arms@, endsv, base@, x, 0)
                } else {
                    base@[x]
                },
            ));
        }
        k = k + 1;
    }
    proof {
        assert(assigned.names@.take(m as int) =~= assigned.names@);
        assert(st.cur@ =~= merge_match(base@, subj, arms@, endsv, assigned@));
    }
    st.asserts = asserts;
    st.modified.add_all(&assigned);
}

} // verus!
