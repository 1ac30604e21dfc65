//! The proof obligations of a state machine, and the reports made of what
//! a solver answered for each of them.
use vstd::prelude::*;
use crate::ast::{Invariant, Span, StateDef, Transition};
use crate::semantics::invariant_label;
use crate::text::{concat2, concat3, join, join_strings, strings_view, usize_to_text};

verus! {

/// Why a check failed: a message, the values of a model that shows the
/// failure (name and value text), where in the source, and the expression
/// that failed, when known.
#[derive(Debug)]
pub struct Counterexample {
    pub message: String,
    pub values: Vec<(String, String)>,
    pub span: Option<Span>,
    pub expression: Option<String>,
}

pub open spec fn pairs_view(v: Seq<(String, String)>) -> Seq<(Seq<char>, Seq<char>)> {
    v.map_values(|p: (String, String)| (p.0@, p.1@))
}

fn copy_pairs(v: &Vec<(String, String)>) -> (r: Vec<(String, String)>)
    ensures
        pairs_view(r@) == pairs_view(v@),
{
    let mut out: Vec<(String, String)> = Vec::new();
    let mut i: usize = 0;
    while i < v.len()
        invariant
            i <= v@.len(),
            pairs_view(out@) == pairs_view(v@.take(i as int)),
        decreases v@.len() - i,
    {
        let ghost prev = out@;
        let p = (v[i].0.clone(), v[i].1.clone());
        out.push(p);
        proof {
            assert(pairs_view(out@) =~= pairs_view(prev).push((p.0@, p.1@)));
            assert(v@.take(i + 1) =~= v@.take(i as int).push(v@[i as int]));
            assert(pairs_view(v@.take(i + 1)) =~= pairs_view(v@.take(i as int)).push((v@[i as int].0@, v@[i as int].1@)));
        }
        i = i + 1;
    }
    proof {
        assert(v@.take(v@.len() as int) =~= v@);
    }
    out
}

impl Counterexample {
    pub fn new(message: String, values: Vec<(String, String)>, span: Option<Span>) -> (c: Counterexample)
        ensures
            c.message == message,
            c.values == values,
            c.span == span,
            c.expression is None,
    {
        Counterexample { message, values, span, expression: None }
    }

    pub fn with_expression(self, expression: String) -> (c: Counterexample)
        ensures
            c.message == self.message,
            c.values == self.values,
            c.span == self.span,
            c.expression == Some(expression),
    {
        Counterexample { expression: Some(expression), ..self }
    }
}

/// The kinds of proof obligation.
#[derive(Debug)]
pub enum CheckKind {
    InitSatisfiesInvariant { invariant_name: String },
    TransitionPreservesInvariant { transition_name: String, invariant_name: String },
    PostconditionHolds { transition_name: String },
    DeadTransition { transition_name: String },
}

/// The model of a [`CheckKind`].
pub enum KindView {
    Init(Seq<char>),
    Preserves(Seq<char>, Seq<char>),
    Post(Seq<char>),
    Dead(Seq<char>),
}

impl View for CheckKind {
    type V = KindView;

    open spec fn view(&self) -> KindView {
        match self {
            CheckKind::InitSatisfiesInvariant { invariant_name } => KindView::Init(invariant_name@),
            CheckKind::TransitionPreservesInvariant { transition_name, invariant_name } => KindView::Preserves(
                transition_name@,
                invariant_name@,
            ),
            CheckKind::PostconditionHolds { transition_name } => KindView::Post(transition_name@),
            CheckKind::DeadTransition { transition_name } => KindView::Dead(transition_name@),
        }
    }
}

/// How a check is described to the user.
pub open spec fn describe_text(k: KindView) -> Seq<char> {
    match k {
        KindView::Init(n) => "init satisfies invariant '"@ + n + "'"@,
        KindView::Preserves(t, n) => "transition '"@ + t + "' preserves invariant '"@ + n + "'"@,
        KindView::Post(t) => "postcondition of '"@ + t + "' holds"@,
        KindView::Dead(t) => "transition '"@ + t + "' is reachable (not dead)"@,
    }
}

impl CheckKind {
    /// The description of the check, e.g. `init satisfies invariant 'positive'`.
    pub fn describe(&self) -> (s: String)
        ensures
            s@ == describe_text(self@),
    {
        match self {
            CheckKind::InitSatisfiesInvariant { invariant_name } => concat3(
                "init satisfies invariant '",
                invariant_name.as_str(),
                "'",
            ),
            CheckKind::TransitionPreservesInvariant { transition_name, invariant_name } => {
                let head = concat3("transition '", transition_name.as_str(), "' preserves invariant '");
                concat3(head.as_str(), invariant_name.as_str(), "'")
            },
            CheckKind::PostconditionHolds { transition_name } => concat3(
                "postcondition of '",
                transition_name.as_str(),
                "' holds",
            ),
            CheckKind::DeadTransition { transition_name } => concat3(
                "transition '",
                transition_name.as_str(),
                "' is reachable (not dead)",
            ),
        }
    }
}

/// The outcome of one check.
#[derive(Debug)]
pub struct CheckReport {
    pub kind: CheckKind,
    pub passed: bool,
    pub counterexample: Option<Counterexample>,
}

/// The outcomes of all the checks of one state machine.
#[derive(Debug)]
pub struct VerificationResult {
    pub state_name: String,
    pub checks: Vec<CheckReport>,
}

/// What a solver answered for one query, or that the query could not be
/// put to it.
#[derive(Debug)]
pub enum SolverOutcome {
    /// The negated claim is unsatisfiable.
    Verified,
    /// The negated claim has a model; its values by name.
    Failed { values: Vec<(String, String)> },
    Unknown { reason: String },
    /// An expression of the claim could not be encoded.
    NotEncoded { warnings: Vec<String> },
}

/// A check passes when the solver verified its claim; a dead-transition
/// check passes when the solver did not verify that the transition's
/// preconditions are unsatisfiable.
pub open spec fn passes(k: KindView, o: SolverOutcome) -> bool {
    match k {
        KindView::Dead(_) => !(o is Verified),
        _ => o is Verified,
    }
}

/// The message of a failed check.
pub open spec fn failure_message(k: KindView, o: SolverOutcome) -> Seq<char> {
    match o {
        SolverOutcome::Unknown { reason } => "solver returned unknown: "@ + reason@,
        SolverOutcome::Failed { .. } => match k {
            KindView::Init(n) => "init violates invariant '"@ + n + "'"@,
            KindView::Preserves(t, n) => "transition '"@ + t + "' can violate invariant '"@ + n + "'"@,
            KindView::Post(t) => "postcondition of '"@ + t + "' can be violated"@,
            KindView::Dead(_) => Seq::empty(),
        },
        SolverOutcome::NotEncoded { warnings } => match k {
            KindView::Init(_) => if warnings@.len() == 0 {
                "could not encode invariant expression"@
            } else {
                "could not encode invariant: "@ + join(strings_view(warnings@), "; "@)
            },
            KindView::Preserves(t, n) => if warnings@.len() == 0 {
                "could not encode invariant '"@ + n + "' for transition '"@ + t + "'"@
            } else {
                "could not encode invariant '"@ + n + "': "@ + join(strings_view(warnings@), "; "@)
            },
            KindView::Post(t) => "could not encode postcondition of '"@ + t + "'"@,
            KindView::Dead(_) => Seq::empty(),
        },
        SolverOutcome::Verified => match k {
            KindView::Dead(t) => "transition '"@ + t + "' precondition is unsatisfiable (dead transition)"@,
            _ => Seq::empty(),
        },
    }
}

/// Whether `r` reports check `k` as `o` says: the kind, whether it passed,
/// and, when it failed, the message and the model's values.
pub open spec fn reports(r: CheckReport, k: KindView, o: SolverOutcome) -> bool {
    &&& r.kind@ == k
    &&& r.passed == passes(k, o)
    &&& (r.counterexample is None <==> r.passed)
    &&& r.counterexample matches Some(c) ==> {
        &&& c.message@ == failure_message(k, o)
        &&& pairs_view(c.values@) == match o {
            SolverOutcome::Failed { values } => pairs_view(values@),
            _ => Seq::empty(),
        }
    }
}

/// The checks of one state, in the order they are made: that the init
/// block establishes each invariant (when there is one); then for each
/// transition, that it preserves each invariant, that its postconditions
/// hold (when it has any), and that it is not dead.
pub open spec fn plan(state: StateDef) -> Seq<KindView> {
    init_plan(state) + transitions_plan(state.invariants@, state.transitions@)
}

pub open spec fn init_plan(state: StateDef) -> Seq<KindView> {
    if state.init is Some {
        Seq::new(state.invariants@.len(), |i: int| KindView::Init(invariant_label(state.invariants@[i], i)))
    } else {
        Seq::empty()
    }
}

pub open spec fn transition_plan(invs: Seq<Invariant>, t: Transition) -> Seq<KindView> {
    Seq::new(invs.len(), |i: int| KindView::Preserves(t.name.node@, invariant_label(invs[i], i)))
        + (if t.postconditions@.len() > 0 { seq![KindView::Post(t.name.node@)] } else { Seq::empty() })
        + seq![KindView::Dead(t.name.node@)]
}

pub open spec fn transitions_plan(invs: Seq<Invariant>, ts: Seq<Transition>) -> Seq<KindView>
    decreases ts.len(),
{
    if ts.len() == 0 {
        Seq::empty()
    } else {
        transitions_plan(invs, ts.drop_last()) + transition_plan(invs, ts.last())
    }
}

impl CheckKind {
    /// A copy of this kind.
    pub fn duplicate(&self) -> (k: CheckKind)
        ensures
            k@ == self@,
    {
        match self {
            CheckKind::InitSatisfiesInvariant { invariant_name } => CheckKind::InitSatisfiesInvariant {
                invariant_name: invariant_name.clone(),
            },
            CheckKind::TransitionPreservesInvariant { transition_name, invariant_name } => CheckKind::TransitionPreservesInvariant {
                transition_name: transition_name.clone(),
                invariant_name: invariant_name.clone(),
            },
            CheckKind::PostconditionHolds { transition_name } => CheckKind::PostconditionHolds {
                transition_name: transition_name.clone(),
            },
            CheckKind::DeadTransition { transition_name } => CheckKind::DeadTransition {
                transition_name: transition_name.clone(),
            },
        }
    }
}

/// A check to be made, with where a failure is reported: `model_span` when
/// the solver found a model or gave up, `encode_span` when the claim could
/// not be encoded.
#[derive(Debug)]
pub struct PlannedCheck {
    pub kind: CheckKind,
    pub model_span: Span,
    pub encode_span: Span,
}

pub open spec fn planned_kinds(p: Seq<PlannedCheck>) -> Seq<KindView> {
    p.map_values(|c: PlannedCheck| c.kind@)
}

/// The name an invariant is reported under; see [`invariant_label`].
pub fn invariant_name(inv: &Invariant, i: usize) -> (s: String)
    ensures
        s@ == invariant_label(*inv, i as int),
{
    match &inv.name {
        Some(n) => n.node.clone(),
        None => {
            proof { reveal_strlit("invariant_"); }
            let s = concat2("invariant_", usize_to_text(i).as_str());
            proof {
                assert(s@ =~= invariant_label(*inv, i as int));
            }
            s
        },
    }
}

fn push_check(out: &mut Vec<PlannedCheck>, kind: CheckKind, model_span: Span, encode_span: Span)
    ensures
        planned_kinds(final(out)@) == planned_kinds(old(out)@).push(kind@),
        final(out)@.last().model_span == model_span,
        final(out)@.last().encode_span == encode_span,
        final(out)@.drop_last() == old(out)@,
{
    let ghost prev = out@;
    out.push(PlannedCheck { kind, model_span, encode_span });
    proof {
        assert(planned_kinds(out@) =~= planned_kinds(prev).push(kind@));
        assert(out@.drop_last() =~= prev);
    }
}

/// The checks of a state, in order; see [`plan`].
pub fn planned_checks(state: &StateDef) -> (r: Vec<PlannedCheck>)
    ensures
        planned_kinds(r@) == plan(*state),
{
    let invs = &state.invariants;
    let mut out: Vec<PlannedCheck> = Vec::new();
    proof {
        assert(planned_kinds(out@) =~= Seq::<KindView>::empty());
    }
    if let Some(_) = &state.init {
        let mut i: usize = 0;
        while i < invs.len()
            invariant
                i <= invs@.len(),
                planned_kinds(out@) =~= Seq::new(i as nat, |k: int| KindView::Init(invariant_label(invs@[k], k))),
            decreases invs@.len() - i,
        {
            let name = invariant_name(&invs[i], i);
            push_check(&mut out, CheckKind::InitSatisfiesInvariant { invariant_name: name }, invs[i].span, invs[i].span);
            i = i + 1;
        }
    }
    let ghost start = planned_kinds(out@);
    proof {
        assert(start =~= init_plan(*state));
    }
    let ts = &state.transitions;
    let mut j: usize = 0;
    while j < ts.len()
        invariant
            j <= ts@.len(),
            start == init_plan(*state),
            planned_kinds(out@) == start + transitions_plan(invs@, ts@.take(j as int)),
        decreases ts@.len() - j,
    {
        let t = &ts[j];
        let ghost before = planned_kinds(out@);
        let mut i: usize = 0;
        while i < invs.len()
            invariant
                i <= invs@.len(),
                planned_kinds(out@) =~= before + Seq::new(i as nat, |k: int| KindView::Preserves(t.name.node@, invariant_label(invs@[k], k))),
            decreases invs@.len() - i,
        {
            let name = invariant_name(&invs[i], i);
            push_check(
                &mut out,
                CheckKind::TransitionPreservesInvariant { transition_name: t.name.node.clone(), invariant_name: name },
                t.span,
                invs[i].span,
            );
            i = i + 1;
        }
        if t.postconditions.len() > 0 {
            push_check(&mut out, CheckKind::PostconditionHolds { transition_name: t.name.node.clone() }, t.span, t.span);
        }
        push_check(&mut out, CheckKind::DeadTransition { transition_name: t.name.node.clone() }, t.span, t.span);
        proof {
            assert(ts@.take(j + 1).drop_last() =~= ts@.take(j as int));
            assert(planned_kinds(out@) =~= before + transition_plan(invs@, *t));
        }
        j = j + 1;
    }
    proof {
        assert(ts@.take(ts@.len() as int) =~= ts@);
    }
    out
}


/// The message of a failed check; see [`failure_message`].
fn failure_text(kind: &CheckKind, o: &SolverOutcome) -> (s: String)
    ensures
        s@ == failure_message(kind@, *o),
{
    match o {
        SolverOutcome::Unknown { reason } => concat2("solver returned unknown: ", reason.as_str()),
        SolverOutcome::Failed { .. } => match kind {
            CheckKind::InitSatisfiesInvariant { invariant_name } => concat3(
                "init violates invariant '",
                invariant_name.as_str(),
                "'",
            ),
            CheckKind::TransitionPreservesInvariant { transition_name, invariant_name } => {
                let head = concat3("transition '", transition_name.as_str(), "' can violate invariant '");
                concat3(head.as_str(), invariant_name.as_str(), "'")
            },
            CheckKind::PostconditionHolds { transition_name } => concat3(
                "postcondition of '",
                transition_name.as_str(),
                "' can be violated",
            ),
            CheckKind::DeadTransition { .. } => String::new(),
        },
        SolverOutcome::NotEncoded { warnings } => match kind {
            CheckKind::InitSatisfiesInvariant { .. } => if warnings.len() == 0 {
                String::from_str("could not encode invariant expression")
            } else {
                let joined = join_strings(warnings, "; ");
                concat2("could not encode invariant: ", joined.as_str())
            },
            CheckKind::TransitionPreservesInvariant { transition_name, invariant_name } => if warnings.len() == 0 {
                let head = concat3("could not encode invariant '", invariant_name.as_str(), "' for transition '");
                concat3(head.as_str(), transition_name.as_str(), "'")
            } else {
                let joined = join_strings(warnings, "; ");
                let head = concat3("could not encode invariant '", invariant_name.as_str(), "': ");
                concat2(head.as_str(), joined.as_str())
            },
            CheckKind::PostconditionHolds { transition_name } => concat3(
                "could not encode postcondition of '",
                transition_name.as_str(),
                "'",
            ),
            CheckKind::DeadTransition { .. } => String::new(),
        },
        SolverOutcome::Verified => match kind {
            CheckKind::DeadTransition { transition_name } => concat3(
                "transition '",
                transition_name.as_str(),
                "' precondition is unsatisfiable (dead transition)",
            ),
            _ => String::new(),
        },
    }
}

/// The report of one check from what the solver answered.
pub fn make_report(check: &PlannedCheck, o: &SolverOutcome) -> (r: CheckReport)
    ensures
        reports(r, check.kind@, *o),
        r.counterexample matches Some(c) ==> c.span == Some(
            if o is NotEncoded { check.encode_span } else { check.model_span },
        ),
{
    let kind = check.kind.duplicate();
    let passed = match &kind {
        CheckKind::DeadTransition { .. } => !matches!(o, SolverOutcome::Verified),
        _ => matches!(o, SolverOutcome::Verified),
    };
    if passed {
        return CheckReport { kind, passed, counterexample: None };
    }
    let message = failure_text(&kind, o);
    let (values, span) = match o {
        SolverOutcome::Failed { values } => (copy_pairs(values), check.model_span),
        SolverOutcome::NotEncoded { .. } => (Vec::new(), check.encode_span),
        _ => (Vec::new(), check.model_span),
    };
    proof {
        assert(pairs_view(values@) =~= match *o {
            SolverOutcome::Failed { values } => pairs_view(values@),
            _ => Seq::empty(),
        });
    }
    CheckReport { kind, passed, counterexample: Some(Counterexample::new(message, values, Some(span))) }
}

/// The result of verifying a state, given what the solver answered for each
/// of its checks in the order of [`planned_checks`]. There is a result
/// exactly when there is one answer per check.
pub fn verification_result(state: &StateDef, outcomes: &Vec<SolverOutcome>) -> (r: Option<VerificationResult>)
    ensures
        r is Some <==> outcomes@.len() == plan(*state).len(),
        r matches Some(res) ==> {
            &&& res.state_name@ == state.name.node@
            &&& res.checks@.len() == plan(*state).len()
            &&& forall|i: int| 0 <= i < res.checks@.len() ==> reports(#[trigger] res.checks@[i], plan(*state)[i], outcomes@[i])
        },
{
    let planned = planned_checks(state);
    proof {
        assert(planned_kinds(planned@).len() == planned@.len());
    }
    if planned.len() != outcomes.len() {
        return None;
    }
    let mut checks: Vec<CheckReport> = Vec::new();
    let mut i: usize = 0;
    while i < planned.len()
        invariant
            planned@.len() == outcomes@.len(),
            planned_kinds(planned@) == plan(*state),
            i <= planned@.len(),
            checks@.len() == i,
            forall|k: int| 0 <= k < i ==> reports(#[trigger] checks@[k], plan(*state)[k], outcomes@[k]),
        decreases planned@.len() - i,
    {
        let r = make_report(&planned[i], &outcomes[i]);
        proof {
            assert(planned_kinds(planned@)[i as int] == planned@[i as int].kind@);
        }
        checks.push(r);
        i = i + 1;
    }
    Some(VerificationResult { state_name: state.name.node.clone(), checks })
}

} // verus!
