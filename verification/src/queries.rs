//! The verification conditions of a state machine: for each check, the
//! terms the solver assumes and the claim whose negation it tries to
//! satisfy.
use vstd::prelude::*;
use crate::ast::{Assignment, BinaryOp, ConstDef, EnumDef, Expr, Field, FnDef, Invariant, Param, Spanned, StateDef, Transition, Type, TypeDef, UnaryOp};
use crate::checks::{make_report, plan, planned_checks, planned_kinds, reports, CheckReport, SolverOutcome, VerificationResult};
use crate::text::{concat3, copy_strings};
use crate::symbolic::{
    encode, encode_expr, kind_of, ssa_statements, term_view, terms_view, NameSet, SsaRun, ssa_view, fn_sorts_view, kind, ssa_block, sort_of_type, sort_view, type_sort, Env, Kind, Sort, SortV, Ssa,
    Term, TermMap, TermV,
};

verus! {

/// What the verifier knows besides the state machine it checks: refined
/// types (the type they refine and the condition on `value`), the program's
/// constants as terms, the result sorts of the declared functions, and the
/// enums (name and variants) whose sorts a solver declares.
pub struct Verifier<'a> {
    pub refinements: Vec<(String, Sort, &'a Spanned<Expr>)>,
    pub constants: TermMap,
    pub functions: Vec<(String, Sort)>,
    pub enums: Vec<(String, Vec<String>)>,
}

/// The enums by their names and the names of their variants, in the order
/// they were recorded.
pub open spec fn enums_view(es: Seq<(String, Vec<String>)>) -> Seq<(Seq<char>, Seq<Seq<char>>)> {
    es.map_values(|e: (String, Vec<String>)| (e.0@, e.1@.map_values(|v: String| v@)))
}

/// The refined types: a later declaration of a name overrides an earlier one.
pub open spec fn refinements_view(rs: Seq<(String, Sort, &Spanned<Expr>)>) -> Map<Seq<char>, (SortV, Expr)>
    decreases rs.len(),
{
    if rs.len() == 0 {
        Map::empty()
    } else {
        refinements_view(rs.drop_last()).insert(rs.last().0@, (sort_view(rs.last().1), rs.last().2.node))
    }
}

impl<'a> Verifier<'a> {
    pub fn new() -> (v: Verifier<'a>)
        ensures
            refinements_view(v.refinements@) == Map::<Seq<char>, (SortV, Expr)>::empty(),
            v.constants@ == Env::empty(),
            fn_sorts_view(v.functions@) == Map::<Seq<char>, SortV>::empty(),
            v.enums@.len() == 0,
    {
        Verifier { refinements: Vec::new(), constants: TermMap::new(), functions: Vec::new(), enums: Vec::new() }
    }

    /// Records an enum's name and variants.
    pub fn register_enum(&mut self, def: &EnumDef)
        ensures
            enums_view(final(self).enums@) == enums_view(old(self).enums@).push(
                (def.name.node@, def.variants@.map_values(|v: Spanned<String>| v.node@)),
            ),
            final(self).constants@ == old(self).constants@,
            final(self).functions@ == old(self).functions@,
            final(self).refinements@ == old(self).refinements@,
    {
        let mut names: Vec<String> = Vec::new();
        let n = def.variants.len();
        let mut i: usize = 0;
        while i < n
            invariant
                n == def.variants@.len(),
                i <= n,
                names@.len() == i,
                forall|j: int| 0 <= j < i ==> (#[trigger] names@[j])@ == def.variants@[j].node@,
            decreases n - i,
        {
            names.push(def.variants[i].node.clone());
            i = i + 1;
        }
        let ghost before = self.enums@;
        self.enums.push((def.name.node.clone(), names));
        proof {
            assert(self.enums@.drop_last() =~= before);
            assert(names@.map_values(|v: String| v@) =~= def.variants@.map_values(|v: Spanned<String>| v.node@));
            assert(enums_view(self.enums@) =~= enums_view(before).push(
                (def.name.node@, def.variants@.map_values(|v: Spanned<String>| v.node@)),
            ));
        }
    }

    /// Records a refined type `type T = base where condition`; other type
    /// definitions add nothing.
    pub fn register_type_def(&mut self, td: &'a TypeDef)
        ensures
            refinements_view(final(self).refinements@) == match (td.alias, td.refinement) {
                (Some(a), Some(r)) => refinements_view(old(self).refinements@).insert(td.name.node@, (type_sort(a.node), r.node)),
                _ => refinements_view(old(self).refinements@),
            },
            final(self).constants@ == old(self).constants@,
            fn_sorts_view(final(self).functions@) == fn_sorts_view(old(self).functions@),
            final(self).enums@ == old(self).enums@,
    {
        match (&td.alias, &td.refinement) {
            (Some(a), Some(r)) => {
                let ghost before = self.refinements@;
                self.refinements.push((td.name.node.clone(), sort_of_type(&a.node), r));
                proof {
                    assert(self.refinements@.drop_last() =~= before);
                }
            },
            _ => {},
        }
    }

    /// Records the result sort of a function.
    pub fn register_function(&mut self, f: &FnDef)
        ensures
            fn_sorts_view(final(self).functions@) == fn_sorts_view(old(self).functions@).insert(f.name.node@, type_sort(f.return_type.node)),
            final(self).constants@ == old(self).constants@,
            refinements_view(final(self).refinements@) == refinements_view(old(self).refinements@),
            final(self).enums@ == old(self).enums@,
    {
        let ghost before = self.functions@;
        self.functions.push((f.name.node.clone(), sort_of_type(&f.return_type.node)));
        proof {
            assert(self.functions@.drop_last() =~= before);
        }
    }

    /// Encodes a constant's value with the constants recorded so far and
    /// records it; a value that cannot be encoded is left out.
    pub fn register_const(&mut self, c: &ConstDef)
        ensures
            final(self).constants@ == match encode(c.value.node, old(self).constants@, fn_sorts_view(old(self).functions@), false) {
                Ok(t) => old(self).constants@.insert(c.name.node@, t),
                Err(_) => old(self).constants@,
            },
            fn_sorts_view(final(self).functions@) == fn_sorts_view(old(self).functions@),
            refinements_view(final(self).refinements@) == refinements_view(old(self).refinements@),
            final(self).enums@ == old(self).enums@,
    {
        match encode_expr(&c.value.node, &self.constants, &self.functions, false) {
            Ok(t) => self.constants.insert(c.name.node.clone(), t),
            Err(_) => {},
        }
    }
}


pub type Refs = Map<Seq<char>, (SortV, Expr)>;

pub type Fns = Map<Seq<char>, SortV>;

/// The sort a declared type is encoded with, a refined type by the sort of
/// the type it refines.
pub open spec fn resolved_sort(t: Type, refs: Refs) -> SortV {
    match t {
        Type::Named(n) => if refs.contains_key(n@) { refs[n@].0 } else { type_sort(t) },
        _ => type_sort(t),
    }
}

/// The name of the solver variable for a field at a point of a run, such
/// as `pre_balance`.
pub open spec fn var_name(prefix: Seq<char>, name: Seq<char>) -> Seq<char> {
    prefix + seq!['_'] + name
}

/// A variable for each field, named with the prefix; under `pre` and `init`
/// a field's own name stands for it too.
pub open spec fn state_vars(fields: Seq<Field>, prefix: Seq<char>, refs: Refs) -> Env
    decreases fields.len(),
{
    if fields.len() == 0 {
        Map::empty()
    } else {
        let m = state_vars(fields.drop_last(), prefix, refs);
        let f = fields.last();
        let x = var_name(prefix, f.name.node@);
        let var = TermV::Var(x, resolved_sort(f.ty.node, refs));
        if prefix == "pre"@ || prefix == "init"@ {
            m.insert(x, var).insert(f.name.node@, var)
        } else {
            m.insert(x, var)
        }
    }
}

/// `env` with a variable `param_x` for each parameter `x`, under the
/// parameter's name.
pub open spec fn with_params(env: Env, params: Seq<Param>, refs: Refs) -> Env
    decreases params.len(),
{
    if params.len() == 0 {
        env
    } else {
        let p = params.last();
        with_params(env, params.drop_last(), refs).insert(
            p.name.node@,
            TermV::Var(var_name("param"@, p.name.node@), resolved_sort(p.ty.node, refs)),
        )
    }
}

/// The declarations (name and type) of fields.
pub open spec fn field_decls(fields: Seq<Field>) -> Seq<(Seq<char>, Type)> {
    fields.map_values(|f: Field| (f.name.node@, f.ty.node))
}

pub open spec fn param_decls(params: Seq<Param>) -> Seq<(Seq<char>, Type)> {
    params.map_values(|p: Param| (p.name.node@, p.ty.node))
}

/// The condition of a declaration's refined type with `value` standing for
/// the declared name's term, when it has one that encodes to a condition.
pub open spec fn refinement_of(d: (Seq<char>, Type), vars: Env, refs: Refs, fns: Fns) -> Option<TermV> {
    let (n, t) = d;
    match t {
        Type::Named(tn) => if refs.contains_key(tn@) {
            let env = if vars.contains_key(n) { vars.insert("value"@, vars[n]) } else { vars };
            match encode(refs[tn@].1, env, fns, false) {
                Ok(b) => if kind(b) == Kind::Bool { Some(b) } else { None },
                Err(_) => None,
            }
        } else {
            None
        },
        _ => None,
    }
}

/// The refinement conditions of the declarations, in order.
pub open spec fn refinement_terms(ds: Seq<(Seq<char>, Type)>, vars: Env, refs: Refs, fns: Fns) -> Seq<TermV>
    decreases ds.len(),
{
    if ds.len() == 0 {
        Seq::empty()
    } else {
        refinement_terms(ds.drop_last(), vars, refs, fns) + opt_seq(refinement_of(ds.last(), vars, refs, fns))
    }
}

/// The conditions that encode to boolean terms, in order; the others are
/// left out.
pub open spec fn condition_terms(cs: Seq<Spanned<Expr>>, env: Env, fns: Fns) -> Seq<TermV>
    decreases cs.len(),
{
    if cs.len() == 0 {
        Seq::empty()
    } else {
        let prev = condition_terms(cs.drop_last(), env, fns);
        match encode(cs.last().node, env, fns, false) {
            Ok(b) => if kind(b) == Kind::Bool { prev.push(b) } else { prev },
            Err(_) => prev,
        }
    }
}

pub open spec fn invariant_conditions(invs: Seq<Invariant>) -> Seq<Spanned<Expr>> {
    invs.map_values(|i: Invariant| i.condition)
}

/// The claim that two terms are equal, when they are of one of the kinds
/// integer, boolean, real or array.
pub open spec fn equality(a: TermV, b: TermV) -> Option<TermV> {
    if kind(a) == kind(b) && kind(a) != Kind::Other {
        Some(TermV::Binary(BinaryOp::Eq, Box::new(a), Box::new(b)))
    } else {
        None
    }
}

pub open spec fn opt_seq(t: Option<TermV>) -> Seq<TermV> {
    match t {
        Some(x) => seq![x],
        None => Seq::empty(),
    }
}

/// What ties each field's `post_` variable to the run of the body: the
/// term the body left for an assigned field, the `pre_` variable for the
/// others.
pub open spec fn frame_terms(fields: Seq<Field>, pre: Env, post: Env, end: Ssa) -> Seq<TermV>
    decreases fields.len(),
{
    if fields.len() == 0 {
        Seq::empty()
    } else {
        let prev = frame_terms(fields.drop_last(), pre, post, end);
        let f = fields.last().name.node@;
        let pv = var_name("post"@, f);
        if post.contains_key(pv) {
            if end.modified.contains(f) {
                if end.cur.contains_key(f) { prev + opt_seq(equality(post[pv], end.cur[f])) } else { prev }
            } else {
                let rv = var_name("pre"@, f);
                if pre.contains_key(rv) { prev + opt_seq(equality(post[pv], pre[rv])) } else { prev }
            }
        } else {
            prev
        }
    }
}

/// The terms a transition body starts from: each field's `pre_` variable,
/// each parameter's variable, and the constants.
pub open spec fn body_start(fields: Seq<Field>, params: Seq<Param>, pre: Env, all: Env, constants: Env) -> Env {
    field_starts(fields, pre).union_prefer_right(param_starts(params, all)).union_prefer_right(constants)
}

pub open spec fn field_starts(fields: Seq<Field>, pre: Env) -> Env
    decreases fields.len(),
{
    if fields.len() == 0 {
        Map::empty()
    } else {
        let m = field_starts(fields.drop_last(), pre);
        let f = fields.last().name.node@;
        let rv = var_name("pre"@, f);
        if pre.contains_key(rv) {
            m.insert(f, pre[rv])
        } else if pre.contains_key(f) {
            m.insert(f, pre[f])
        } else {
            m
        }
    }
}

pub open spec fn param_starts(params: Seq<Param>, all: Env) -> Env
    decreases params.len(),
{
    if params.len() == 0 {
        Map::empty()
    } else {
        let m = param_starts(params.drop_last(), all);
        let p = params.last().name.node@;
        if all.contains_key(p) { m.insert(p, all[p]) } else { m }
    }
}


/// The model of a [`CheckQuery`]: the assumptions, the negated claim (none
/// for a dead-transition check), and the terms a model reports; or the
/// reasons a claim could not be encoded.
pub enum QueryV {
    Solve(Seq<TermV>, Option<TermV>, Env),
    Unencodable(Seq<Seq<char>>),
}

/// The environments of a state's checks: the `pre_` (or `init_`, or
/// `post_`) variables of its fields, then the constants.
pub open spec fn fields_env(state: StateDef, prefix: Seq<char>, refs: Refs, consts: Env) -> Env {
    state_vars(state.fields@, prefix, refs).union_prefer_right(consts)
}

/// The terms the conditions of a transition may use: before and after, and
/// the parameters.
pub open spec fn transition_env(state: StateDef, t: Transition, refs: Refs, consts: Env) -> Env {
    with_params(
        fields_env(state, "pre"@, refs, consts).union_prefer_right(fields_env(state, "post"@, refs, consts)),
        t.params@,
        refs,
    )
}

/// The symbolic run of a transition's body.
pub open spec fn body_run(state: StateDef, t: Transition, refs: Refs, consts: Env, fns: Fns) -> Ssa {
    let pre = fields_env(state, "pre"@, refs, consts);
    let all = transition_env(state, t, refs, consts);
    ssa_block(
        t.body@,
        Ssa { cur: body_start(state.fields@, t.params@, pre, all, consts), asserts: Seq::empty(), modified: Set::empty() },
        fns,
    )
}

/// What a transition's checks assume: the invariants before it, the
/// refinements of the fields, its preconditions, the refinements of its
/// parameters, the conditions its body asserts, and how its body leaves the
/// fields.
pub open spec fn transition_assumptions(state: StateDef, t: Transition, refs: Refs, consts: Env, fns: Fns) -> Seq<TermV> {
    let pre = fields_env(state, "pre"@, refs, consts);
    let post = fields_env(state, "post"@, refs, consts);
    let all = transition_env(state, t, refs, consts);
    let run = body_run(state, t, refs, consts, fns);
    condition_terms(invariant_conditions(state.invariants@), pre, fns)
        + refinement_terms(field_decls(state.fields@), pre, refs, fns)
        + condition_terms(t.preconditions@, all, fns)
        + refinement_terms(param_decls(t.params@), all, refs, fns)
        + run.asserts
        + frame_terms(state.fields@, pre, post, run)
}

/// Each field's name standing for its `post_` variable.
pub open spec fn field_posts(fields: Seq<Field>, post: Env) -> Env
    decreases fields.len(),
{
    if fields.len() == 0 {
        Map::empty()
    } else {
        let f = fields.last().name.node@;
        let m = field_posts(fields.drop_last(), post);
        if post.contains_key(var_name("post"@, f)) { m.insert(f, post[var_name("post"@, f)]) } else { m }
    }
}

pub open spec fn has_pre_prefix(k: Seq<char>) -> bool {
    k.len() >= 4 && k.take(4) == "pre_"@
}

/// The terms an invariant is checked with after a transition: the `post_`
/// variables, the other terms of before that are not `pre_` variables, and
/// each field's name for its `post_` variable.
pub open spec fn after_env(state: StateDef, refs: Refs, consts: Env) -> Env {
    let pre = fields_env(state, "pre"@, refs, consts);
    let post = fields_env(state, "post"@, refs, consts);
    Map::new(
        |k: Seq<char>| post.contains_key(k) || (pre.contains_key(k) && !has_pre_prefix(k)),
        |k: Seq<char>| if post.contains_key(k) { post[k] } else { pre[k] },
    ).union_prefer_right(field_posts(state.fields@, post))
}

/// What the check of a claim gives: a query when it encodes to a condition,
/// else the reason.
pub open spec fn claim_query(claim: Expr, env: Env, fns: Fns, assumptions: Seq<TermV>, watch: Env) -> QueryV {
    match encode(claim, env, fns, false) {
        Ok(b) => if kind(b) == Kind::Bool {
            QueryV::Solve(assumptions, Some(TermV::Unary(UnaryOp::Not, Box::new(b))), watch)
        } else {
            QueryV::Unencodable(Seq::empty())
        },
        Err(w) => QueryV::Unencodable(seq![w]),
    }
}

/// The equalities the init block sets up between the `init_` variables and
/// the values assigned, for integers, booleans and reals.
pub open spec fn init_terms(assigns: Seq<Assignment>, env: Env, fns: Fns) -> Seq<TermV>
    decreases assigns.len(),
{
    if assigns.len() == 0 {
        Seq::empty()
    } else {
        let prev = init_terms(assigns.drop_last(), env, fns);
        let a = assigns.last();
        if env.contains_key(a.target.node@) {
            match encode(a.value.node, env, fns, false) {
                Ok(v) => {
                    let x = env[a.target.node@];
                    if kind(x) == kind(v) && (kind(x) == Kind::Int || kind(x) == Kind::Bool || kind(x) == Kind::Real) {
                        prev.push(TermV::Binary(BinaryOp::Eq, Box::new(x), Box::new(v)))
                    } else {
                        prev
                    }
                },
                Err(_) => prev,
            }
        } else {
            prev
        }
    }
}

/// The queries that the init block establishes each invariant.
pub open spec fn init_queries(state: StateDef, refs: Refs, consts: Env, fns: Fns) -> Seq<QueryV> {
    match state.init {
        None => Seq::empty(),
        Some(init) => {
            let env = fields_env(state, "init"@, refs, consts);
            let a = init_terms(init.assignments@, env, fns);
            Seq::new(state.invariants@.len(), |i: int| claim_query(state.invariants@[i].condition.node, env, fns, a, env))
        },
    }
}

/// The queries of one transition: that it preserves each invariant, that
/// its postconditions hold (when it has any), and whether it can be taken.
pub open spec fn transition_queries(state: StateDef, t: Transition, refs: Refs, consts: Env, fns: Fns) -> Seq<QueryV> {
    let a = transition_assumptions(state, t, refs, consts, fns);
    let all = transition_env(state, t, refs, consts);
    let post = fields_env(state, "post"@, refs, consts);
    let watch = all.union_prefer_right(post);
    let after = after_env(state, refs, consts);
    Seq::new(state.invariants@.len(), |i: int| claim_query(state.invariants@[i].condition.node, after, fns, a, watch))
        + (if t.postconditions@.len() > 0 {
            seq![post_query(t.postconditions@, all.union_prefer_right(field_posts(state.fields@, post)), fns, a, watch)]
        } else {
            Seq::empty()
        })
        + seq![dead_query(state, t, refs, consts, fns)]
}

/// All the postconditions together: a query when every one encodes to a
/// condition, else none can be checked.
pub open spec fn post_query(posts: Seq<Spanned<Expr>>, env: Env, fns: Fns, assumptions: Seq<TermV>, watch: Env) -> QueryV {
    match encode_all(posts, env, fns) {
        Some(bs) => QueryV::Solve(
            assumptions,
            Some(TermV::Unary(UnaryOp::Not, Box::new(TermV::All(bs)))),
            watch,
        ),
        None => QueryV::Unencodable(Seq::empty()),
    }
}

/// The terms of the conditions, when every one encodes to a condition.
pub open spec fn encode_all(cs: Seq<Spanned<Expr>>, env: Env, fns: Fns) -> Option<Seq<TermV>>
    decreases cs.len(),
{
    if cs.len() == 0 {
        Some(Seq::empty())
    } else {
        match encode_all(cs.drop_last(), env, fns) {
            None => None,
            Some(bs) => match encode(cs.last().node, env, fns, false) {
                Ok(b) => if kind(b) == Kind::Bool { Some(bs.push(b)) } else { None },
                Err(_) => None,
            },
        }
    }
}

/// Whether a transition can be taken: the invariants, the refinements of
/// the fields and its preconditions, with nothing to refute.
pub open spec fn dead_query(state: StateDef, t: Transition, refs: Refs, consts: Env, fns: Fns) -> QueryV {
    let pre = fields_env(state, "pre"@, refs, consts);
    let all = with_params(pre, t.params@, refs);
    QueryV::Solve(
        condition_terms(invariant_conditions(state.invariants@), pre, fns)
            + refinement_terms(field_decls(state.fields@), pre, refs, fns)
            + condition_terms(t.preconditions@, all, fns),
        None,
        Map::empty(),
    )
}

pub open spec fn transitions_queries(state: StateDef, ts: Seq<Transition>, refs: Refs, consts: Env, fns: Fns) -> Seq<QueryV>
    decreases ts.len(),
{
    if ts.len() == 0 {
        Seq::empty()
    } else {
        transitions_queries(state, ts.drop_last(), refs, consts, fns) + transition_queries(state, ts.last(), refs, consts, fns)
    }
}

/// The state's constants encoded after the program's, each seeing those before.
pub open spec fn state_consts(consts: Env, cs: Seq<ConstDef>, fns: Fns) -> Env
    decreases cs.len(),
{
    if cs.len() == 0 {
        consts
    } else {
        let m = state_consts(consts, cs.drop_last(), fns);
        match encode(cs.last().value.node, m, fns, false) {
            Ok(t) => m.insert(cs.last().name.node@, t),
            Err(_) => m,
        }
    }
}

/// The queries of a state's checks, in the order of [`crate::checks::plan`].
pub open spec fn state_queries(state: StateDef, refs: Refs, program_consts: Env, fns: Fns) -> Seq<QueryV> {
    let consts = state_consts(program_consts, state.constants@, fns);
    init_queries(state, refs, consts, fns) + transitions_queries(state, state.transitions@, refs, consts, fns)
}


proof fn lemma_refinements_absent(rs: Seq<(String, Sort, &Spanned<Expr>)>, k: Seq<char>)
    requires
        forall|l: int| 0 <= l < rs.len() ==> (#[trigger] rs[l]).0@ != k,
    ensures
        !refinements_view(rs).contains_key(k),
    decreases rs.len(),
{
    if rs.len() > 0 {
        let p = rs.drop_last();
        assert forall|l: int| 0 <= l < p.len() implies (#[trigger] p[l]).0@ != k by {
            assert(p[l] == rs[l]);
        }
        lemma_refinements_absent(p, k);
    }
}

proof fn lemma_refinements_last(rs: Seq<(String, Sort, &Spanned<Expr>)>, k: Seq<char>, j: int)
    requires
        0 <= j < rs.len(),
        rs[j].0@ == k,
        forall|l: int| j < l < rs.len() ==> (#[trigger] rs[l]).0@ != k,
    ensures
        refinements_view(rs).contains_key(k),
        refinements_view(rs)[k] == (sort_view(rs[j].1), rs[j].2.node),
    decreases rs.len(),
{
    if j < rs.len() - 1 {
        let p = rs.drop_last();
        assert forall|l: int| j < l < p.len() implies (#[trigger] p[l]).0@ != k by {
            assert(p[l] == rs[l]);
        }
        lemma_refinements_last(p, k, j);
    }
}

impl<'a> Verifier<'a> {
    pub open spec fn refs(&self) -> Refs {
        refinements_view(self.refinements@)
    }

    pub open spec fn fns(&self) -> Fns {
        fn_sorts_view(self.functions@)
    }

    /// The refined type named `name`, if there is one.
    fn find_refinement(&self, name: &String) -> (r: Option<(&Sort, &'a Spanned<Expr>)>)
        ensures
            match r {
                Some((s, e)) => self.refs().contains_key(name@) && self.refs()[name@] == (sort_view(*s), e.node),
                None => !self.refs().contains_key(name@),
            },
    {
        let mut i = self.refinements.len();
        while i > 0
            invariant
                i <= self.refinements@.len(),
                forall|l: int| i <= l < self.refinements@.len() ==> (#[trigger] self.refinements@[l]).0@ != name@,
            decreases i,
        {
            i = i - 1;
            if self.refinements[i].0 == *name {
                proof {
                    lemma_refinements_last(self.refinements@, name@, i as int);
                }
                return Some((&self.refinements[i].1, self.refinements[i].2));
            }
        }
        proof {
            lemma_refinements_absent(self.refinements@, name@);
        }
        None
    }

    /// The sort a declared type is encoded with; see [`resolved_sort`].
    fn resolved(&self, t: &Type) -> (s: Sort)
        ensures
            sort_view(s) == resolved_sort(*t, self.refs()),
    {
        match t {
            Type::Named(n) => match self.find_refinement(n) {
                Some((s, _)) => s.duplicate(),
                None => sort_of_type(t),
            },
            _ => sort_of_type(t),
        }
    }

    /// A variable for each field; see [`state_vars`].
    fn make_state_vars(&self, fields: &Vec<Field>, prefix: &str) -> (m: TermMap)
        ensures
            m@ == state_vars(fields@, prefix@, self.refs()),
    {
        let p = String::from_str(prefix);
        let plain = p == String::from_str("pre") || p == String::from_str("init");
        let mut m = TermMap::new();
        let n = fields.len();
        let mut i: usize = 0;
        proof {
            assert(fields@.take(0) =~= Seq::<Field>::empty());
        }
        while i < n
            invariant
                n == fields@.len(),
                i <= n,
                plain == (prefix@ == "pre"@ || prefix@ == "init"@),
                m@ == state_vars(fields@.take(i as int), prefix@, self.refs()),
            decreases n - i,
        {
            proof {
                assert(fields@.take(i + 1).drop_last() =~= fields@.take(i as int));
                assert(fields@.take(i + 1).last() == fields@[i as int]);
                reveal_strlit("_");
            }
            let f = &fields[i];
            let x = concat3(prefix, "_", f.name.node.as_str());
            proof {
                assert(x@ =~= var_name(prefix@, f.name.node@));
            }
            let s = self.resolved(&f.ty.node);
            if plain {
                m.insert(x.clone(), Term::Var(x.clone(), s.duplicate()));
                m.insert(f.name.node.clone(), Term::Var(x, s));
            } else {
                m.insert(x.clone(), Term::Var(x, s));
            }
            i = i + 1;
        }
        proof {
            assert(fields@.take(n as int) =~= fields@);
        }
        m
    }

    /// The fields' variables with the given prefix, then the constants.
    fn fields_env(&self, state: &StateDef, prefix: &str, consts: &TermMap) -> (m: TermMap)
        ensures
            m@ == fields_env(*state, prefix@, self.refs(), consts@),
    {
        let mut m = self.make_state_vars(&state.fields, prefix);
        m.extend(consts);
        m
    }

    /// Adds a variable for each parameter; see [`with_params`].
    fn add_params(&self, env: &mut TermMap, params: &Vec<Param>)
        ensures
            final(env)@ == with_params(old(env)@, params@, self.refs()),
    {
        let ghost start = env@;
        let n = params.len();
        let mut i: usize = 0;
        proof {
            assert(params@.take(0) =~= Seq::<Param>::empty());
        }
        while i < n
            invariant
                n == params@.len(),
                i <= n,
                env@ == with_params(start, params@.take(i as int), self.refs()),
            decreases n - i,
        {
            proof {
                assert(params@.take(i + 1).drop_last() =~= params@.take(i as int));
                assert(params@.take(i + 1).last() == params@[i as int]);
                reveal_strlit("param");
                reveal_strlit("_");
            }
            let p = &params[i];
            let x = concat3("param", "_", p.name.node.as_str());
            proof {
                assert(x@ =~= var_name("param"@, p.name.node@));
            }
            let s = self.resolved(&p.ty.node);
            env.insert(p.name.node.clone(), Term::Var(x, s));
            i = i + 1;
        }
        proof {
            assert(params@.take(n as int) =~= params@);
        }
    }
}


/// The term of a condition, when it encodes to a boolean term.
fn condition_term(e: &Expr, env: &TermMap, fs: &Vec<(String, Sort)>) -> (r: Option<Term>)
    ensures
        match encode(*e, env@, fn_sorts_view(fs@), false) {
            Ok(b) => if kind(b) == Kind::Bool { r matches Some(t) && term_view(t) == b } else { r is None },
            Err(_) => r is None,
        },
{
    match encode_expr(e, env, fs, false) {
        Ok(b) => if kind_of(&b) == Kind::Bool { Some(b) } else { None },
        Err(_) => None,
    }
}

fn push_opt(out: &mut Vec<Term>, t: Option<Term>)
    ensures
        terms_view(final(out)@) == terms_view(old(out)@) + match t {
            Some(x) => seq![term_view(x)],
            None => Seq::<TermV>::empty(),
        },
{
    match t {
        Some(x) => {
            let ghost before = out@;
            out.push(x);
            proof {
                crate::symbolic::lemma_terms_view_push(before, x);
                assert(terms_view(out@) =~= terms_view(before) + seq![term_view(x)]);
            }
        },
        None => {
            proof {
                assert(terms_view(out@) =~= terms_view(out@) + Seq::<TermV>::empty());
            }
        },
    }
}

/// The conditions that encode to boolean terms; see [`condition_terms`].
fn condition_list(cs: &Vec<Spanned<Expr>>, env: &TermMap, fs: &Vec<(String, Sort)>, out: &mut Vec<Term>)
    ensures
        terms_view(final(out)@) == terms_view(old(out)@) + condition_terms(cs@, env@, fn_sorts_view(fs@)),
{
    let ghost start = terms_view(out@);
    let n = cs.len();
    let mut i: usize = 0;
    proof {
        assert(cs@.take(0) =~= Seq::<Spanned<Expr>>::empty());
        assert(start + Seq::<TermV>::empty() =~= start);
    }
    while i < n
        invariant
            n == cs@.len(),
            i <= n,
            terms_view(out@) == start + condition_terms(cs@.take(i as int), env@, fn_sorts_view(fs@)),
        decreases n - i,
    {
        proof {
            assert(cs@.take(i + 1).drop_last() =~= cs@.take(i as int));
            assert(cs@.take(i + 1).last() == cs@[i as int]);
        }
        let t = condition_term(&cs[i].node, env, fs);
        push_opt(out, t);
        proof {
            let prev = condition_terms(cs@.take(i as int), env@, fn_sorts_view(fs@));
            assert(terms_view(out@) =~= start + condition_terms(cs@.take(i + 1), env@, fn_sorts_view(fs@)));
        }
        i = i + 1;
    }
    proof {
        assert(cs@.take(n as int) =~= cs@);
    }
}

/// The invariants that encode to boolean terms.
fn invariant_list(invs: &Vec<Invariant>, env: &TermMap, fs: &Vec<(String, Sort)>, out: &mut Vec<Term>)
    ensures
        terms_view(final(out)@) == terms_view(old(out)@) + condition_terms(invariant_conditions(invs@), env@, fn_sorts_view(fs@)),
{
    let ghost start = terms_view(out@);
    let ghost conds = invariant_conditions(invs@);
    let n = invs.len();
    let mut i: usize = 0;
    proof {
        assert(conds.take(0) =~= Seq::<Spanned<Expr>>::empty());
        assert(start + Seq::<TermV>::empty() =~= start);
    }
    while i < n
        invariant
            n == invs@.len(),
            i <= n,
            conds == invariant_conditions(invs@),
            terms_view(out@) == start + condition_terms(conds.take(i as int), env@, fn_sorts_view(fs@)),
        decreases n - i,
    {
        proof {
            assert(conds.take(i + 1).drop_last() =~= conds.take(i as int));
            assert(conds.take(i + 1).last() == invs@[i as int].condition);
        }
        let t = condition_term(&invs[i].condition.node, env, fs);
        push_opt(out, t);
        proof {
            assert(terms_view(out@) =~= start + condition_terms(conds.take(i + 1), env@, fn_sorts_view(fs@)));
        }
        i = i + 1;
    }
    proof {
        assert(conds.take(n as int) =~= conds);
    }
}

impl<'a> Verifier<'a> {
    /// The condition of a declaration's refined type, if it has one that
    /// encodes; see [`refinement_terms`].
    fn refinement_term(&self, name: &String, ty: &Type, vars: &TermMap) -> (r: Option<Term>)
        ensures
            refinement_of((name@, *ty), vars@, self.refs(), self.fns()) == match r {
                Some(t) => Some(term_view(t)),
                None => None::<TermV>,
            },
    {
        match ty {
            Type::Named(tn) => match self.find_refinement(tn) {
                Some((_, cond)) => {
                    let mut env = vars.duplicate();
                    match vars.get(name) {
                        Some(v) => env.insert(String::from_str("value"), v.duplicate()),
                        None => {},
                    }
                    match encode_expr(&cond.node, &env, &self.functions, false) {
                        Ok(b) => if kind_of(&b) == Kind::Bool {
                            Some(b)
                        } else {
                            None
                        },
                        Err(_) => None,
                    }
                },
                None => None,
            },
            _ => None,
        }
    }
}

proof fn lemma_refinement_terms_push(ds: Seq<(Seq<char>, Type)>, d: (Seq<char>, Type), vars: Env, refs: Refs, fns: Fns)
    ensures
        refinement_terms(ds.push(d), vars, refs, fns) == refinement_terms(ds, vars, refs, fns) + opt_seq(refinement_of(d, vars, refs, fns)),
{
    assert(ds.push(d).drop_last() =~= ds);
}

impl<'a> Verifier<'a> {
    /// The refinement conditions of the fields; see [`refinement_terms`].
    fn field_refinements(&self, fields: &Vec<Field>, vars: &TermMap, out: &mut Vec<Term>)
        ensures
            terms_view(final(out)@) == terms_view(old(out)@) + refinement_terms(field_decls(fields@), vars@, self.refs(), self.fns()),
    {
        let ghost start = terms_view(out@);
        let ghost ds = field_decls(fields@);
        let n = fields.len();
        let mut i: usize = 0;
        proof {
            assert(ds.take(0) =~= Seq::<(Seq<char>, Type)>::empty());
            assert(start + Seq::<TermV>::empty() =~= start);
        }
        while i < n
            invariant
                n == fields@.len(),
                i <= n,
                ds == field_decls(fields@),
                terms_view(out@) == start + refinement_terms(ds.take(i as int), vars@, self.refs(), self.fns()),
            decreases n - i,
        {
            proof {
                assert(ds.take(i + 1) =~= ds.take(i as int).push((fields@[i as int].name.node@, fields@[i as int].ty.node)));
                lemma_refinement_terms_push(ds.take(i as int), (fields@[i as int].name.node@, fields@[i as int].ty.node), vars@, self.refs(), self.fns());
            }
            let t = self.refinement_term(&fields[i].name.node, &fields[i].ty.node, vars);
            push_opt(out, t);
            proof {
                assert(terms_view(out@) =~= start + refinement_terms(ds.take(i + 1), vars@, self.refs(), self.fns()));
            }
            i = i + 1;
        }
        proof {
            assert(ds.take(n as int) =~= ds);
        }
    }

    /// The refinement conditions of the parameters; see [`refinement_terms`].
    fn param_refinements(&self, params: &Vec<Param>, vars: &TermMap, out: &mut Vec<Term>)
        ensures
            terms_view(final(out)@) == terms_view(old(out)@) + refinement_terms(param_decls(params@), vars@, self.refs(), self.fns()),
    {
        let ghost start = terms_view(out@);
        let ghost ds = param_decls(params@);
        let n = params.len();
        let mut i: usize = 0;
        proof {
            assert(ds.take(0) =~= Seq::<(Seq<char>, Type)>::empty());
            assert(start + Seq::<TermV>::empty() =~= start);
        }
        while i < n
            invariant
                n == params@.len(),
                i <= n,
                ds == param_decls(params@),
                terms_view(out@) == start + refinement_terms(ds.take(i as int), vars@, self.refs(), self.fns()),
            decreases n - i,
        {
            proof {
                assert(ds.take(i + 1) =~= ds.take(i as int).push((params@[i as int].name.node@, params@[i as int].ty.node)));
                lemma_refinement_terms_push(ds.take(i as int), (params@[i as int].name.node@, params@[i as int].ty.node), vars@, self.refs(), self.fns());
            }
            let t = self.refinement_term(&params[i].name.node, &params[i].ty.node, vars);
            push_opt(out, t);
            proof {
                assert(terms_view(out@) =~= start + refinement_terms(ds.take(i + 1), vars@, self.refs(), self.fns()));
            }
            i = i + 1;
        }
        proof {
            assert(ds.take(n as int) =~= ds);
        }
    }
}


/// The claim that two terms are equal; see [`equality`].
fn equality_term(a: &Term, b: &Term) -> (r: Option<Term>)
    ensures
        equality(term_view(*a), term_view(*b)) == match r {
            Some(t) => Some(term_view(t)),
            None => None::<TermV>,
        },
{
    let ka = kind_of(a);
    if ka == kind_of(b) && ka != Kind::Other {
        Some(Term::Binary(BinaryOp::Eq, Box::new(a.duplicate()), Box::new(b.duplicate())))
    } else {
        None
    }
}

/// How the body leaves the fields; see [`frame_terms`].
fn frame_list(fields: &Vec<Field>, pre: &TermMap, post: &TermMap, end: &SsaRun, out: &mut Vec<Term>)
    ensures
        terms_view(final(out)@) == terms_view(old(out)@) + frame_terms(fields@, pre@, post@, ssa_view(*end)),
{
    let ghost start = terms_view(out@);
    let n = fields.len();
    let mut i: usize = 0;
    proof {
        assert(fields@.take(0) =~= Seq::<Field>::empty());
        assert(start + Seq::<TermV>::empty() =~= start);
    }
    while i < n
        invariant
            n == fields@.len(),
            i <= n,
            terms_view(out@) == start + frame_terms(fields@.take(i as int), pre@, post@, ssa_view(*end)),
        decreases n - i,
    {
        proof {
            assert(fields@.take(i + 1).drop_last() =~= fields@.take(i as int));
            assert(fields@.take(i + 1).last() == fields@[i as int]);
            reveal_strlit("post");
            reveal_strlit("pre");
            reveal_strlit("_");
        }
        let f = &fields[i].name.node;
        let pv = concat3("post", "_", f.as_str());
        let rv = concat3("pre", "_", f.as_str());
        proof {
            assert(pv@ =~= var_name("post"@, f@));
            assert(rv@ =~= var_name("pre"@, f@));
        }
        let ghost before = terms_view(out@);
        let t = match post.get(&pv) {
            Some(p) => {
                if end.modified.contains(f) {
                    match end.cur.get(f) {
                        Some(c) => equality_term(p, c),
                        None => None,
                    }
                } else {
                    match pre.get(&rv) {
                        Some(r) => equality_term(p, r),
                        None => None,
                    }
                }
            },
            None => None,
        };
        push_opt(out, t);
        proof {
            let prev = frame_terms(fields@.take(i as int), pre@, post@, ssa_view(*end));
            assert(prev + Seq::<TermV>::empty() =~= prev);
            assert(terms_view(out@) =~= start + frame_terms(fields@.take(i + 1), pre@, post@, ssa_view(*end)));
        }
        i = i + 1;
    }
    proof {
        assert(fields@.take(n as int) =~= fields@);
    }
}

/// The terms a transition body starts from; see [`body_start`].
fn body_start_env(fields: &Vec<Field>, params: &Vec<Param>, pre: &TermMap, all: &TermMap, consts: &TermMap) -> (m: TermMap)
    ensures
        m@ == body_start(fields@, params@, pre@, all@, consts@),
{
    let mut fm = TermMap::new();
    let n = fields.len();
    let mut i: usize = 0;
    proof {
        assert(fields@.take(0) =~= Seq::<Field>::empty());
    }
    while i < n
        invariant
            n == fields@.len(),
            i <= n,
            fm@ == field_starts(fields@.take(i as int), pre@),
        decreases n - i,
    {
        proof {
            assert(fields@.take(i + 1).drop_last() =~= fields@.take(i as int));
            assert(fields@.take(i + 1).last() == fields@[i as int]);
            reveal_strlit("pre");
            reveal_strlit("_");
        }
        let f = &fields[i].name.node;
        let rv = concat3("pre", "_", f.as_str());
        proof {
            assert(rv@ =~= var_name("pre"@, f@));
        }
        match pre.get(&rv) {
            Some(t) => fm.insert(f.clone(), t.duplicate()),
            None => match pre.get(f) {
                Some(t) => fm.insert(f.clone(), t.duplicate()),
                None => {},
            },
        }
        i = i + 1;
    }
    proof {
        assert(fields@.take(n as int) =~= fields@);
    }
    let mut pm = TermMap::new();
    let k = params.len();
    let mut j: usize = 0;
    proof {
        assert(params@.take(0) =~= Seq::<Param>::empty());
    }
    while j < k
        invariant
            k == params@.len(),
            j <= k,
            pm@ == param_starts(params@.take(j as int), all@),
        decreases k - j,
    {
        proof {
            assert(params@.take(j + 1).drop_last() =~= params@.take(j as int));
            assert(params@.take(j + 1).last() == params@[j as int]);
        }
        let p = &params[j].name.node;
        match all.get(p) {
            Some(t) => pm.insert(p.clone(), t.duplicate()),
            None => {},
        }
        j = j + 1;
    }
    proof {
        assert(params@.take(k as int) =~= params@);
    }
    fm.extend(&pm);
    fm.extend(consts);
    fm
}

/// Each field's name standing for its `post_` variable; see [`field_posts`].
fn add_field_posts(env: &mut TermMap, fields: &Vec<Field>, post: &TermMap)
    ensures
        final(env)@ == old(env)@.union_prefer_right(field_posts(fields@, post@)),
{
    let ghost start = env@;
    let n = fields.len();
    let mut i: usize = 0;
    proof {
        assert(fields@.take(0) =~= Seq::<Field>::empty());
        assert(start.union_prefer_right(Map::<Seq<char>, TermV>::empty()) =~= start);
    }
    while i < n
        invariant
            n == fields@.len(),
            i <= n,
            env@ == start.union_prefer_right(field_posts(fields@.take(i as int), post@)),
        decreases n - i,
    {
        proof {
            assert(fields@.take(i + 1).drop_last() =~= fields@.take(i as int));
            assert(fields@.take(i + 1).last() == fields@[i as int]);
            reveal_strlit("post");
            reveal_strlit("_");
        }
        let f = &fields[i].name.node;
        let pv = concat3("post", "_", f.as_str());
        proof {
            assert(pv@ =~= var_name("post"@, f@));
        }
        match post.get(&pv) {
            Some(t) => env.insert(f.clone(), t.duplicate()),
            None => {},
        }
        proof {
            assert(env@ =~= start.union_prefer_right(field_posts(fields@.take(i + 1), post@)));
        }
        i = i + 1;
    }
    proof {
        assert(fields@.take(n as int) =~= fields@);
    }
}

/// Whether a name is a `pre_` variable's.
fn starts_with_pre(k: &String) -> (r: bool)
    ensures
        r == has_pre_prefix(k@),
{
    let n = k.as_str().unicode_len();
    if n < 4 {
        return false;
    }
    let head = String::from_str(k.as_str().substring_char(0, 4));
    proof {
        reveal_strlit("pre_");
        assert(head@ =~= k@.take(4));
    }
    head == String::from_str("pre_")
}

/// The terms an invariant is checked with after a transition; see [`after_env`].
fn after_env_of(fields: &Vec<Field>, pre: &TermMap, post: &TermMap) -> (m: TermMap)
    ensures
        m@ == Map::new(
            |k: Seq<char>| post@.contains_key(k) || (pre@.contains_key(k) && !has_pre_prefix(k)),
            |k: Seq<char>| if post@.contains_key(k) { post@[k] } else { pre@[k] },
        ).union_prefer_right(field_posts(fields@, post@)),
{
    let mut m = post.duplicate();
    let n = pre.entries.len();
    let mut i: usize = 0;
    proof {
        assert(pre.entries@.take(0) =~= Seq::<(String, Term)>::empty());
    }
    while i < n
        invariant
            n == pre.entries@.len(),
            i <= n,
            m@ == Map::new(
                |k: Seq<char>| post@.contains_key(k) || (crate::symbolic::term_entries_view(pre.entries@.take(i as int)).contains_key(k) && !has_pre_prefix(k)),
                |k: Seq<char>| if post@.contains_key(k) { post@[k] } else { crate::symbolic::term_entries_view(pre.entries@.take(i as int))[k] },
            ),
        decreases n - i,
    {
        proof {
            assert(pre.entries@.take(i + 1).drop_last() =~= pre.entries@.take(i as int));
            assert(pre.entries@.take(i + 1).last() == pre.entries@[i as int]);
        }
        let k = &pre.entries[i].0;
        if !starts_with_pre(k) && post.get(k).is_none() {
            m.insert(k.clone(), pre.entries[i].1.duplicate());
        }
        proof {
            assert(m@ =~= Map::new(
                |x: Seq<char>| post@.contains_key(x) || (crate::symbolic::term_entries_view(pre.entries@.take(i + 1)).contains_key(x) && !has_pre_prefix(x)),
                |x: Seq<char>| if post@.contains_key(x) { post@[x] } else { crate::symbolic::term_entries_view(pre.entries@.take(i + 1))[x] },
            ));
        }
        i = i + 1;
    }
    proof {
        assert(pre.entries@.take(n as int) =~= pre.entries@);
    }
    add_field_posts(&mut m, fields, post);
    m
}


/// What the solver is asked for one check: can the assumptions and the
/// negated claim hold together? A dead-transition check has no claim: can
/// the assumptions hold at all? `watch` holds the terms whose values a model
/// reports, by name.
#[derive(Debug, PartialEq)]
pub struct Query {
    pub assumptions: Vec<Term>,
    pub negated_claim: Option<Term>,
    pub watch: TermMap,
}

/// The question of one check, or the reasons its claim could not be encoded.
#[derive(Debug, PartialEq)]
pub enum CheckQuery {
    Solve(Query),
    Unencodable(Vec<String>),
}

pub open spec fn query_view(q: CheckQuery) -> QueryV {
    match q {
        CheckQuery::Solve(x) => QueryV::Solve(
            terms_view(x.assumptions@),
            match x.negated_claim {
                Some(t) => Some(term_view(t)),
                None => None,
            },
            x.watch@,
        ),
        CheckQuery::Unencodable(ws) => QueryV::Unencodable(ws@.map_values(|w: String| w@)),
    }
}

pub open spec fn queries_view(qs: Seq<CheckQuery>) -> Seq<QueryV> {
    qs.map_values(|q: CheckQuery| query_view(q))
}

fn copy_terms(ts: &Vec<Term>) -> (r: Vec<Term>)
    ensures
        terms_view(r@) == terms_view(ts@),
{
    crate::symbolic::duplicate_terms(ts)
}

/// The query of a claim; see [`claim_query`].
fn claim_query_of(claim: &Expr, env: &TermMap, fs: &Vec<(String, Sort)>, assumptions: &Vec<Term>, watch: &TermMap) -> (q: CheckQuery)
    ensures
        query_view(q) == claim_query(*claim, env@, fn_sorts_view(fs@), terms_view(assumptions@), watch@),
{
    match encode_expr(claim, env, fs, false) {
        Ok(b) => if kind_of(&b) == Kind::Bool {
            CheckQuery::Solve(Query {
                assumptions: copy_terms(assumptions),
                negated_claim: Some(Term::Unary(UnaryOp::Not, Box::new(b))),
                watch: watch.duplicate(),
            })
        } else {
            let ws: Vec<String> = Vec::new();
            proof {
                assert(ws@.map_values(|w: String| w@) =~= Seq::<Seq<char>>::empty());
            }
            CheckQuery::Unencodable(ws)
        },
        Err(w) => {
            let mut ws: Vec<String> = Vec::new();
            ws.push(w);
            proof {
                assert(ws@.map_values(|x: String| x@) =~= seq![ws@[0]@]);
            }
            CheckQuery::Unencodable(ws)
        },
    }
}

/// The equalities of the init block; see [`init_terms`].
fn init_list(assigns: &Vec<Assignment>, env: &TermMap, fs: &Vec<(String, Sort)>) -> (r: Vec<Term>)
    ensures
        terms_view(r@) == init_terms(assigns@, env@, fn_sorts_view(fs@)),
{
    let mut out: Vec<Term> = Vec::new();
    let n = assigns.len();
    let mut i: usize = 0;
    proof {
        assert(assigns@.take(0) =~= Seq::<Assignment>::empty());
        assert(terms_view(out@) =~= Seq::<TermV>::empty());
    }
    while i < n
        invariant
            n == assigns@.len(),
            i <= n,
            terms_view(out@) == init_terms(assigns@.take(i as int), env@, fn_sorts_view(fs@)),
        decreases n - i,
    {
        proof {
            assert(assigns@.take(i + 1).drop_last() =~= assigns@.take(i as int));
            assert(assigns@.take(i + 1).last() == assigns@[i as int]);
        }
        let a = &assigns[i];
        match env.get(&a.target.node) {
            Some(x) => match encode_expr(&a.value.node, env, fs, false) {
                Ok(v) => {
                    let kx = kind_of(x);
                    if kx == kind_of(&v) && (kx == Kind::Int || kx == Kind::Bool || kx == Kind::Real) {
                        let ghost before = out@;
                        let t = Term::Binary(BinaryOp::Eq, Box::new(x.duplicate()), Box::new(v));
                        out.push(t);
                        proof {
                            crate::symbolic::lemma_terms_view_push(before, t);
                        }
                    }
                },
                Err(_) => {},
            },
            None => {},
        }
        i = i + 1;
    }
    proof {
        assert(assigns@.take(n as int) =~= assigns@);
    }
    out
}

/// The postcondition terms, when all encode; see [`encode_all`].
fn encode_all_of(cs: &Vec<Spanned<Expr>>, env: &TermMap, fs: &Vec<(String, Sort)>) -> (r: Option<Vec<Term>>)
    ensures
        encode_all(cs@, env@, fn_sorts_view(fs@)) == match r {
            Some(ts) => Some(terms_view(ts@)),
            None => None::<Seq<TermV>>,
        },
{
    let mut out: Vec<Term> = Vec::new();
    let n = cs.len();
    let mut i: usize = 0;
    proof {
        assert(cs@.take(0) =~= Seq::<Spanned<Expr>>::empty());
        assert(terms_view(out@) =~= Seq::<TermV>::empty());
    }
    while i < n
        invariant
            n == cs@.len(),
            i <= n,
            encode_all(cs@.take(i as int), env@, fn_sorts_view(fs@)) == Some(terms_view(out@)),
        decreases n - i,
    {
        proof {
            assert(cs@.take(i + 1).drop_last() =~= cs@.take(i as int));
            assert(cs@.take(i + 1).last() == cs@[i as int]);
        }
        match condition_term(&cs[i].node, env, fs) {
            Some(b) => {
                let ghost before = out@;
                out.push(b);
                proof {
                    crate::symbolic::lemma_terms_view_push(before, b);
                }
            },
            None => {
                proof {
                    lemma_encode_all_none(cs@, i as int + 1, env@, fn_sorts_view(fs@));
                }
                return None;
            },
        }
        i = i + 1;
    }
    proof {
        assert(cs@.take(n as int) =~= cs@);
    }
    Some(out)
}

proof fn lemma_encode_all_none(cs: Seq<Spanned<Expr>>, k: int, env: Env, fns: Fns)
    requires
        0 < k <= cs.len(),
        encode_all(cs.take(k), env, fns) is None,
    ensures
        encode_all(cs, env, fns) is None,
    decreases cs.len() - k,
{
    if k == cs.len() {
        assert(cs.take(k) =~= cs);
    } else {
        assert(cs.take(k + 1).drop_last() =~= cs.take(k));
        lemma_encode_all_none(cs, k + 1, env, fns);
    }
}


proof fn lemma_queries_push(qs: Seq<CheckQuery>, q: CheckQuery)
    ensures
        queries_view(qs.push(q)) == queries_view(qs).push(query_view(q)),
{
    assert(queries_view(qs.push(q)) =~= queries_view(qs).push(query_view(q)));
}

fn push_query(out: &mut Vec<CheckQuery>, q: CheckQuery)
    ensures
        queries_view(final(out)@) == queries_view(old(out)@).push(query_view(q)),
{
    let ghost before = out@;
    out.push(q);
    proof {
        lemma_queries_push(before, q);
    }
}

impl<'a> Verifier<'a> {
    /// What a transition's checks assume; see [`transition_assumptions`].
    fn transition_assumptions_of(&self, state: &StateDef, t: &Transition, consts: &TermMap) -> (r: Vec<Term>)
        ensures
            terms_view(r@) == transition_assumptions(*state, *t, self.refs(), consts@, self.fns()),
    {
        let pre = self.fields_env(state, "pre", consts);
        let post = self.fields_env(state, "post", consts);
        let mut all = pre.duplicate();
        all.extend(&post);
        self.add_params(&mut all, &t.params);
        let mut out: Vec<Term> = Vec::new();
        proof {
            assert(terms_view(out@) =~= Seq::<TermV>::empty());
        }
        invariant_list(&state.invariants, &pre, &self.functions, &mut out);
        self.field_refinements(&state.fields, &pre, &mut out);
        condition_list(&t.preconditions, &all, &self.functions, &mut out);
        self.param_refinements(&t.params, &all, &mut out);
        let start = body_start_env(&state.fields, &t.params, &pre, &all, consts);
        let mut run = SsaRun { cur: start, asserts: Vec::new(), modified: NameSet::new() };
        proof {
            assert(ssa_view(run) =~= Ssa { cur: start@, asserts: Seq::empty(), modified: Set::empty() });
        }
        ssa_statements(&t.body, &mut run, &self.functions);
        let ghost o1 = out@;
        let mut asserted = copy_terms(&run.asserts);
        let ghost cp = asserted@;
        out.append(&mut asserted);
        proof {
            crate::symbolic::lemma_terms_view_concat(o1, cp);
        }
        frame_list(&state.fields, &pre, &post, &run, &mut out);
        proof {
            let fsv = self.fns();
            let refs = self.refs();
            assert(terms_view(out@) =~= transition_assumptions(*state, *t, refs, consts@, fsv));
        }
        out
    }
}


impl<'a> Verifier<'a> {
    /// The queries of one transition; see [`transition_queries`].
    fn transition_queries_of(&self, state: &StateDef, t: &Transition, consts: &TermMap, out: &mut Vec<CheckQuery>)
        ensures
            queries_view(final(out)@) == queries_view(old(out)@) + transition_queries(*state, *t, self.refs(), consts@, self.fns()),
    {
        let ghost start = queries_view(out@);
        let ghost refs = self.refs();
        let ghost fsv = self.fns();
        let a = self.transition_assumptions_of(state, t, consts);
        let pre = self.fields_env(state, "pre", consts);
        let post = self.fields_env(state, "post", consts);
        let mut all = pre.duplicate();
        all.extend(&post);
        self.add_params(&mut all, &t.params);
        let mut watch = all.duplicate();
        watch.extend(&post);
        let after = after_env_of(&state.fields, &pre, &post);
        proof {
            assert(after@ =~= after_env(*state, refs, consts@));
        }
        let invs = &state.invariants;
        let n = invs.len();
        let mut i: usize = 0;
        proof {
            assert(start + Seq::<QueryV>::empty() =~= start);
        }
        while i < n
            invariant
                n == invs@.len(),
                i <= n,
                queries_view(out@) =~= start + Seq::new(i as nat, |k: int| claim_query(invs@[k].condition.node, after@, fsv, terms_view(a@), watch@)),
                fsv == self.fns(),
            decreases n - i,
        {
            let q = claim_query_of(&invs[i].condition.node, &after, &self.functions, &a, &watch);
            push_query(out, q);
            i = i + 1;
        }
        let ghost mid = queries_view(out@);
        if t.postconditions.len() > 0 {
            let mut env = all.duplicate();
            add_field_posts(&mut env, &state.fields, &post);
            let q = match encode_all_of(&t.postconditions, &env, &self.functions) {
                Some(bs) => {
                    let ghost bv = terms_view(bs@);
                    let conj = Term::All(bs);
                    assert(term_view(conj) == TermV::All(bv));
                    CheckQuery::Solve(Query {
                        assumptions: copy_terms(&a),
                        negated_claim: Some(Term::Unary(UnaryOp::Not, Box::new(conj))),
                        watch: watch.duplicate(),
                    })
                },
                None => {
                    let ws: Vec<String> = Vec::new();
                    proof {
                        assert(ws@.map_values(|w: String| w@) =~= Seq::<Seq<char>>::empty());
                    }
                    CheckQuery::Unencodable(ws)
                },
            };
            proof {
                assert(query_view(q) == post_query(t.postconditions@, all@.union_prefer_right(field_posts(state.fields@, post@)), fsv, terms_view(a@), watch@));
            }
            push_query(out, q);
        }
        let ghost mid2 = queries_view(out@);
        let dead = self.dead_query_of(state, t, consts);
        push_query(out, dead);
        proof {
            let posts_part = if t.postconditions@.len() > 0 {
                seq![post_query(t.postconditions@, all@.union_prefer_right(field_posts(state.fields@, post@)), fsv, terms_view(a@), watch@)]
            } else {
                Seq::<QueryV>::empty()
            };
            assert(mid2 =~= mid + posts_part);
            assert(queries_view(out@) =~= start + transition_queries(*state, *t, refs, consts@, fsv));
        }
    }

    /// Whether a transition can be taken; see [`dead_query`].
    fn dead_query_of(&self, state: &StateDef, t: &Transition, consts: &TermMap) -> (q: CheckQuery)
        ensures
            query_view(q) == dead_query(*state, *t, self.refs(), consts@, self.fns()),
    {
        let pre = self.fields_env(state, "pre", consts);
        let mut all = pre.duplicate();
        self.add_params(&mut all, &t.params);
        let mut out: Vec<Term> = Vec::new();
        proof {
            assert(terms_view(out@) =~= Seq::<TermV>::empty());
        }
        invariant_list(&state.invariants, &pre, &self.functions, &mut out);
        self.field_refinements(&state.fields, &pre, &mut out);
        condition_list(&t.preconditions, &all, &self.functions, &mut out);
        let q = CheckQuery::Solve(Query { assumptions: out, negated_claim: None, watch: TermMap::new() });
        proof {
            assert(query_view(q) =~= dead_query(*state, *t, self.refs(), consts@, self.fns()));
        }
        q
    }

    /// The queries of a state's checks, in the order of
    /// [`crate::checks::planned_checks`]; see [`state_queries`].
    pub fn verify_state(&self, state: &StateDef) -> (r: Vec<CheckQuery>)
        ensures
            queries_view(r@) == state_queries(*state, self.refs(), self.constants@, self.fns()),
    {
        let ghost refs = self.refs();
        let ghost fsv = self.fns();
        let mut consts = self.constants.duplicate();
        let cs = &state.constants;
        let k = cs.len();
        let mut j: usize = 0;
        proof {
            assert(cs@.take(0) =~= Seq::<ConstDef>::empty());
        }
        while j < k
            invariant
                k == cs@.len(),
                j <= k,
                consts@ == state_consts(self.constants@, cs@.take(j as int), fsv),
                fsv == self.fns(),
            decreases k - j,
        {
            proof {
                assert(cs@.take(j + 1).drop_last() =~= cs@.take(j as int));
                assert(cs@.take(j + 1).last() == cs@[j as int]);
            }
            match encode_expr(&cs[j].value.node, &consts, &self.functions, false) {
                Ok(t) => consts.insert(cs[j].name.node.clone(), t),
                Err(_) => {},
            }
            j = j + 1;
        }
        proof {
            assert(cs@.take(k as int) =~= cs@);
        }
        let mut out: Vec<CheckQuery> = Vec::new();
        proof {
            assert(queries_view(out@) =~= Seq::<QueryV>::empty());
        }
        match &state.init {
            Some(init) => {
                let env = self.fields_env(state, "init", &consts);
                let a = init_list(&init.assignments, &env, &self.functions);
                let invs = &state.invariants;
                let n = invs.len();
                let mut i: usize = 0;
                while i < n
                    invariant
                        n == invs@.len(),
                        i <= n,
                        queries_view(out@) =~= Seq::new(i as nat, |x: int| claim_query(invs@[x].condition.node, env@, fsv, terms_view(a@), env@)),
                        fsv == self.fns(),
                    decreases n - i,
                {
                    let q = claim_query_of(&invs[i].condition.node, &env, &self.functions, &a, &env);
                    push_query(&mut out, q);
                    i = i + 1;
                }
            },
            None => {},
        }
        proof {
            assert(queries_view(out@) =~= init_queries(*state, refs, consts@, fsv));
        }
        let ghost init_part = queries_view(out@);
        let ts = &state.transitions;
        let m = ts.len();
        let mut i: usize = 0;
        proof {
            assert(ts@.take(0) =~= Seq::<Transition>::empty());
            assert(init_part + Seq::<QueryV>::empty() =~= init_part);
        }
        while i < m
            invariant
                m == ts@.len(),
                i <= m,
                queries_view(out@) == init_part + transitions_queries(*state, ts@.take(i as int), refs, consts@, fsv),
                refs == self.refs(),
                fsv == self.fns(),
            decreases m - i,
        {
            proof {
                assert(ts@.take(i + 1).drop_last() =~= ts@.take(i as int));
                assert(ts@.take(i + 1).last() == ts@[i as int]);
            }
            self.transition_queries_of(state, &ts[i], &consts, &mut out);
            proof {
                assert(queries_view(out@) =~= init_part + transitions_queries(*state, ts@.take(i + 1), refs, consts@, fsv));
            }
            i = i + 1;
        }
        proof {
            assert(ts@.take(m as int) =~= ts@);
        }
        out
    }
}

/// The answer a check is reported by: a claim that could not be encoded is
/// reported as not encoded, with the reasons its query gives, whatever was
/// answered for it; an encoded one by the solver's answer to its query.
pub open spec fn reported_as(r: CheckReport, k: crate::checks::KindView, q: CheckQuery, answer: Option<SolverOutcome>) -> bool {
    match q {
        CheckQuery::Unencodable(ws) => reports(r, k, SolverOutcome::NotEncoded { warnings: ws }),
        CheckQuery::Solve(_) => answer matches Some(o) && reports(r, k, o),
    }
}

/// The result of verifying a state from its queries, in the order of
/// [`Verifier::verify_state`], and the solver's answer to each query that was
/// put to it. There is a result exactly when there is one query per check,
/// one entry of `answers` per query, and an answer for every query that has
/// a claim to solve; an answer given for an unencodable claim is not read.
pub fn verification_result_from_queries(
    state: &StateDef,
    queries: &Vec<CheckQuery>,
    answers: &Vec<Option<SolverOutcome>>,
) -> (r: Option<VerificationResult>)
    ensures
        r is Some <==> {
            &&& queries@.len() == plan(*state).len()
            &&& answers@.len() == queries@.len()
            &&& forall|i: int| 0 <= i < queries@.len() && #[trigger] queries@[i] is Solve ==> answers@[i] is Some
        },
        r matches Some(res) ==> {
            &&& res.state_name@ == state.name.node@
            &&& res.checks@.len() == plan(*state).len()
            &&& forall|i: int| 0 <= i < res.checks@.len() ==> reported_as(#[trigger] res.checks@[i], plan(*state)[i], queries@[i], answers@[i])
        },
{
    let planned = planned_checks(state);
    proof {
        assert(planned_kinds(planned@).len() == planned@.len());
    }
    if planned.len() != queries.len() || answers.len() != queries.len() {
        return None;
    }
    let mut checks: Vec<CheckReport> = Vec::new();
    let mut i: usize = 0;
    while i < planned.len()
        invariant
            planned@.len() == queries@.len(),
            answers@.len() == queries@.len(),
            planned_kinds(planned@) == plan(*state),
            i <= planned@.len(),
            checks@.len() == i,
            forall|k: int| 0 <= k < i && #[trigger] queries@[k] is Solve ==> answers@[k] is Some,
            forall|k: int| 0 <= k < i ==> reported_as(#[trigger] checks@[k], plan(*state)[k], queries@[k], answers@[k]),
        decreases planned@.len() - i,
    {
        proof {
            assert(planned_kinds(planned@)[i as int] == planned@[i as int].kind@);
        }
        let r = match &queries[i] {
            CheckQuery::Unencodable(ws) => {
                let o = SolverOutcome::NotEncoded { warnings: copy_strings(ws) };
                let r = make_report(&planned[i], &o);
                proof {
                    assert(reports(r, plan(*state)[i as int], SolverOutcome::NotEncoded { warnings: *ws }));
                }
                r
            },
            CheckQuery::Solve(_) => match &answers[i] {
                Some(o) => make_report(&planned[i], o),
                None => {
                    return None;
                },
            },
        };
        checks.push(r);
        i = i + 1;
    }
    Some(VerificationResult { state_name: state.name.node.clone(), checks })
}

} // verus!
