//! The `run` command: each state machine of a program is set up from the
//! program's constants, its own constants and its init block, and then one
//! transition call, given as text such as `deposit(10)`, may be made on it.
use vstd::prelude::*;
use crate::ast::{ConstDef, Item, Param, Program, Spanned, StateDef, Transition};
use crate::cli::{argument_value, call_parts, call_readable, parse_transition_spec, parse_value, strings_view};
use crate::engine::Engine;
use crate::error::{error_message, RtErr, RuntimeError};
use crate::semantics::{eval, run_assignments, run_transition, set_defaults, Env};
use crate::state::{events_view, RuntimeEvent};
use crate::text::concat3;
use crate::value::{Val, ValueMap};

verus! {

/// The events a transition emitted and the fields it left.
pub struct TransitionRun {
    pub events: Vec<RuntimeEvent>,
    pub fields_after: ValueMap,
}

/// One state machine as the run command set it up, and the transition it
/// took, if one was asked for and succeeded.
pub struct StateRun {
    pub state_name: String,
    pub fields_after_init: ValueMap,
    pub transition: Option<TransitionRun>,
}

#[derive(Debug, PartialEq)]
pub enum RunError {
    Runtime(RuntimeError),
    /// No transition of the machine has the name that was called.
    TransitionNotFound(String),
}

/// What the run command did: the machines it set up, in order, and the
/// error it stopped at, if any.
pub struct RunReport {
    pub runs: Vec<StateRun>,
    pub error: Option<RunError>,
}

/// The model of a [`RunError`].
pub enum RunErr {
    Runtime(RtErr),
    NotFound(Seq<char>),
}

pub type Event = (Seq<char>, Seq<Val>);

/// The model of a [`StateRun`]: name, fields after init, and the events and
/// fields of the transition taken.
pub type RunView = (Seq<char>, Env, Option<(Seq<Event>, Env)>);

pub open spec fn run_error_view(e: RunError) -> RunErr {
    match e {
        RunError::Runtime(x) => RunErr::Runtime(x@),
        RunError::TransitionNotFound(n) => RunErr::NotFound(n@),
    }
}

pub open spec fn state_run_view(r: StateRun) -> RunView {
    (r.state_name@, r.fields_after_init@, match r.transition {
        Some(t) => Some((events_view(t.events@), t.fields_after@)),
        None => None,
    })
}

pub open spec fn opt_run_view(r: Option<StateRun>) -> Option<RunView> {
    match r {
        Some(x) => Some(state_run_view(x)),
        None => None,
    }
}

pub open spec fn runs_view(rs: Seq<StateRun>) -> Seq<RunView> {
    rs.map_values(|r: StateRun| state_run_view(r))
}

pub open spec fn error_view(e: Option<RunError>) -> Option<RunErr> {
    match e {
        Some(x) => Some(run_error_view(x)),
        None => None,
    }
}

pub open spec fn report_view(r: RunReport) -> (Seq<RunView>, Option<RunErr>) {
    (runs_view(r.runs@), error_view(r.error))
}

/// The text of a call, if one is made.
pub open spec fn call_view(call: Option<&str>) -> Option<Seq<char>> {
    match call {
        Some(c) => Some(c@),
        None => None,
    }
}

/// The constants declared at the top level of a program, in order.
pub open spec fn const_defs(items: Seq<Spanned<Item>>) -> Seq<ConstDef>
    decreases items.len(),
{
    if items.len() == 0 {
        Seq::empty()
    } else {
        const_defs(items.drop_last()) + match items.last().node {
            Item::ConstDef(c) => seq![c],
            _ => Seq::empty(),
        }
    }
}

/// The state machines of a program, in order.
pub open spec fn state_defs(items: Seq<Spanned<Item>>) -> Seq<StateDef>
    decreases items.len(),
{
    if items.len() == 0 {
        Seq::empty()
    } else {
        state_defs(items.drop_last()) + match items.last().node {
            Item::State(s) => seq![s],
            _ => Seq::empty(),
        }
    }
}

/// Evaluates the constants in order, each seeing those before it, and
/// stores each under its name; stops at the first that fails.
pub open spec fn load_consts(env: Env, cs: Seq<ConstDef>) -> Result<Env, RtErr>
    decreases cs.len(),
{
    if cs.len() == 0 {
        Ok(env)
    } else {
        match load_consts(env, cs.drop_last()) {
            Ok(e) => match eval(e, Map::empty(), cs.last().value.node) {
                Ok(v) => Ok(e.insert(cs.last().name.node@, v)),
                Err(x) => Err(x),
            },
            Err(x) => Err(x),
        }
    }
}

/// The fields of a machine after it is set up: the program's constants,
/// then its own, then the starting value of each field, then its init block.
pub open spec fn setup(program_consts: Seq<ConstDef>, state: StateDef) -> Result<Env, RtErr> {
    match load_consts(Map::empty(), program_consts) {
        Err(x) => Err(x),
        Ok(e1) => match load_consts(e1, state.constants@) {
            Err(x) => Err(x),
            Ok(e2) => {
                let d = set_defaults(e2, state.fields@);
                match d.error {
                    Some(x) => Err(x),
                    None => match state.init {
                        Some(init) => {
                            let a = run_assignments(d.fields, init.assignments@);
                            match a.error {
                                Some(x) => Err(x),
                                None => Ok(a.fields),
                            }
                        },
                        None => Ok(d.fields),
                    },
                }
            },
        },
    }
}

/// The position of the first transition named `name`.
pub open spec fn find_named(ts: Seq<Transition>, name: Seq<char>) -> Option<int>
    decreases ts.len(),
{
    if ts.len() == 0 {
        None
    } else {
        match find_named(ts.drop_last(), name) {
            Some(k) => Some(k),
            None => if ts.last().name.node@ == name { Some(ts.len() - 1) } else { None },
        }
    }
}

/// The arguments of a call bound to the parameters by position; a parameter
/// without an argument stays unbound, an argument without a parameter is
/// ignored.
pub open spec fn bind_args(params: Seq<Param>, args: Seq<Seq<char>>) -> Env
    decreases params.len(),
{
    if params.len() == 0 {
        Map::empty()
    } else {
        let m = bind_args(params.drop_last(), args);
        let i = params.len() - 1;
        if i < args.len() {
            m.insert(params.last().name.node@, argument_value(args[i]))
        } else {
            m
        }
    }
}

/// What the run command does with one machine: what it reports of it, and
/// the error it stops at, if any.
pub open spec fn run_state(program_consts: Seq<ConstDef>, state: StateDef, call: Option<Seq<char>>) -> (Option<RunView>, Option<RunErr>) {
    let name = state.name.node@;
    match setup(program_consts, state) {
        Err(x) => (None, Some(RunErr::Runtime(x))),
        Ok(env) => match call {
            None => (Some((name, env, None)), None),
            Some(c) => {
                let tname = call_parts(c).0;
                match find_named(state.transitions@, tname) {
                    None => (Some((name, env, None)), Some(RunErr::NotFound(tname))),
                    Some(k) => {
                        let t = state.transitions@[k];
                        let step = run_transition(env, t, bind_args(t.params@, call_parts(c).1), state.invariants@);
                        match step.result {
                            Ok(events) => (Some((name, env, Some((events, step.fields)))), None),
                            Err(x) => (Some((name, env, None)), Some(RunErr::Runtime(x))),
                        }
                    },
                }
            },
        },
    }
}

/// The machines in order, up to the first error.
pub open spec fn run_states(program_consts: Seq<ConstDef>, states: Seq<StateDef>, call: Option<Seq<char>>) -> (Seq<RunView>, Option<RunErr>)
    decreases states.len(),
{
    if states.len() == 0 {
        (Seq::empty(), None)
    } else {
        let before = run_states(program_consts, states.drop_last(), call);
        if before.1 is Some {
            before
        } else {
            let (r, e) = run_state(program_consts, states.last(), call);
            (before.0 + match r {
                Some(x) => seq![x],
                None => Seq::empty(),
            }, e)
        }
    }
}

proof fn lemma_load_consts_err(env: Env, cs: Seq<ConstDef>, more: Seq<ConstDef>, x: RtErr)
    requires
        load_consts(env, cs) == Err::<Env, RtErr>(x),
    ensures
        load_consts(env, cs + more) == Err::<Env, RtErr>(x),
    decreases more.len(),
{
    if more.len() == 0 {
        assert(cs + more =~= cs);
    } else {
        lemma_load_consts_err(env, cs, more.drop_last(), x);
        assert((cs + more).drop_last() =~= cs + more.drop_last());
    }
}

proof fn lemma_run_states_stop(pc: Seq<ConstDef>, states: Seq<StateDef>, more: Seq<StateDef>, call: Option<Seq<char>>)
    requires
        run_states(pc, states, call).1 is Some,
    ensures
        run_states(pc, states + more, call) == run_states(pc, states, call),
    decreases more.len(),
{
    if more.len() == 0 {
        assert(states + more =~= states);
    } else {
        lemma_run_states_stop(pc, states, more.drop_last(), call);
        assert((states + more).drop_last() =~= states + more.drop_last());
    }
}

proof fn lemma_const_defs_split(items: Seq<Spanned<Item>>, i: int)
    requires
        0 <= i <= items.len(),
    ensures
        const_defs(items) == const_defs(items.take(i)) + const_defs(items.skip(i)),
        state_defs(items) == state_defs(items.take(i)) + state_defs(items.skip(i)),
    decreases items.len(),
{
    if i == items.len() {
        assert(items.take(i) =~= items);
        assert(items.skip(i) =~= Seq::<Spanned<Item>>::empty());
        assert(const_defs(items) + Seq::<ConstDef>::empty() =~= const_defs(items));
        assert(state_defs(items) + Seq::<StateDef>::empty() =~= state_defs(items));
    } else {
        lemma_const_defs_split(items.drop_last(), i);
        assert(items.drop_last().take(i) =~= items.take(i));
        assert(items.drop_last().skip(i) =~= items.skip(i).drop_last());
        assert(items.skip(i).last() == items.last());
        assert(const_defs(items) =~= const_defs(items.take(i)) + const_defs(items.skip(i)));
        assert(state_defs(items) =~= state_defs(items.take(i)) + state_defs(items.skip(i)));
    }
}

/// Loads the program's top-level constants into a machine; see [`load_consts`].
fn load_program_consts(engine: &mut Engine, items: &Vec<Spanned<Item>>) -> (r: Result<(), RuntimeError>)
    ensures
        match load_consts(old(engine).spec_fields(), const_defs(items@)) {
            Ok(e) => r is Ok && final(engine).spec_fields() == e,
            Err(x) => r matches Err(y) && y@ == x,
        },
        final(engine).spec_name() == old(engine).spec_name(),
        final(engine).spec_history() == old(engine).spec_history(),
{
    let ghost f0 = engine.spec_fields();
    let mut i: usize = 0;
    proof {
        assert(items@.take(0) =~= Seq::<Spanned<Item>>::empty());
    }
    while i < items.len()
        invariant
            i <= items@.len(),
            f0 == old(engine).spec_fields(),
            load_consts(f0, const_defs(items@.take(i as int))) == Ok::<Env, RtErr>(engine.spec_fields()),
            engine.spec_name() == old(engine).spec_name(),
            engine.spec_history() == old(engine).spec_history(),
        decreases items@.len() - i,
    {
        proof {
            assert(items@.take(i + 1).drop_last() =~= items@.take(i as int));
            assert(items@.take(i + 1).last() == items@[i as int]);
        }
        if let Item::ConstDef(c) = &items[i].node {
            let ghost fi = engine.spec_fields();
            match engine.load_const(c) {
                Ok(()) => {},
                Err(e) => {
                    proof {
                        assert(const_defs(items@.take(i + 1)) =~= const_defs(items@.take(i as int)).push(*c));
                        assert(const_defs(items@.take(i + 1)).drop_last() =~= const_defs(items@.take(i as int)));
                        lemma_const_defs_split(items@, i + 1);
                        lemma_load_consts_err(f0, const_defs(items@.take(i + 1)), const_defs(items@.skip(i + 1)), e@);
                    }
                    return Err(e);
                },
            }
            proof {
                assert(const_defs(items@.take(i + 1)).drop_last() =~= const_defs(items@.take(i as int)));
            }
        } else {
            proof {
                assert(const_defs(items@.take(i + 1)) =~= const_defs(items@.take(i as int)));
            }
        }
        i = i + 1;
    }
    proof {
        assert(items@.take(items@.len() as int) =~= items@);
    }
    Ok(())
}

/// Loads a machine's own constants; see [`load_consts`].
fn load_state_consts(engine: &mut Engine, cs: &Vec<ConstDef>) -> (r: Result<(), RuntimeError>)
    ensures
        match load_consts(old(engine).spec_fields(), cs@) {
            Ok(e) => r is Ok && final(engine).spec_fields() == e,
            Err(x) => r matches Err(y) && y@ == x,
        },
        final(engine).spec_name() == old(engine).spec_name(),
        final(engine).spec_history() == old(engine).spec_history(),
{
    let ghost f0 = engine.spec_fields();
    let mut i: usize = 0;
    proof {
        assert(cs@.take(0) =~= Seq::<ConstDef>::empty());
    }
    while i < cs.len()
        invariant
            i <= cs@.len(),
            f0 == old(engine).spec_fields(),
            load_consts(f0, cs@.take(i as int)) == Ok::<Env, RtErr>(engine.spec_fields()),
            engine.spec_name() == old(engine).spec_name(),
            engine.spec_history() == old(engine).spec_history(),
        decreases cs@.len() - i,
    {
        proof {
            assert(cs@.take(i + 1).drop_last() =~= cs@.take(i as int));
            assert(cs@.take(i + 1).last() == cs@[i as int]);
        }
        match engine.load_const(&cs[i]) {
            Ok(()) => {},
            Err(e) => {
                proof {
                    lemma_load_consts_err(f0, cs@.take(i + 1), cs@.skip(i + 1), e@);
                    assert(cs@.take(i + 1) + cs@.skip(i + 1) =~= cs@);
                }
                return Err(e);
            },
        }
        i = i + 1;
    }
    proof {
        assert(cs@.take(cs@.len() as int) =~= cs@);
    }
    Ok(())
}

/// The first transition named `name`; see [`find_named`].
fn find_transition<'a>(ts: &'a Vec<Transition>, name: &String) -> (r: Option<&'a Transition>)
    ensures
        match find_named(ts@, name@) {
            Some(k) => r matches Some(t) && *t == ts@[k],
            None => r is None,
        },
{
    let mut i: usize = 0;
    while i < ts.len()
        invariant
            i <= ts@.len(),
            find_named(ts@.take(i as int), name@) is None,
        decreases ts@.len() - i,
    {
        proof {
            assert(ts@.take(i + 1).drop_last() =~= ts@.take(i as int));
        }
        if ts[i].name.node == *name {
            proof {
                assert(find_named(ts@.take(i + 1), name@) == Some(i as int));
                lemma_find_named_prefix(ts@, i + 1, name@, i as int);
                assert(ts@.take(i + 1)[i as int] == ts@[i as int]);
            }
            return Some(&ts[i]);
        }
        i = i + 1;
    }
    proof {
        assert(ts@.take(ts@.len() as int) =~= ts@);
    }
    None
}

proof fn lemma_find_named_prefix(ts: Seq<Transition>, i: int, name: Seq<char>, k: int)
    requires
        0 <= i <= ts.len(),
        find_named(ts.take(i), name) == Some(k),
    ensures
        find_named(ts, name) == Some(k),
    decreases ts.len() - i,
{
    if i == ts.len() {
        assert(ts.take(i) =~= ts);
    } else {
        assert(ts.take(i + 1).drop_last() =~= ts.take(i));
        lemma_find_named_prefix(ts, i + 1, name, k);
    }
}

/// The arguments of a call bound to the parameters; see [`bind_args`].
fn bind_arguments(params: &Vec<Param>, args: &Vec<String>) -> (m: ValueMap)
    ensures
        m@ == bind_args(params@, strings_view(args@)),
{
    let mut m = ValueMap::new();
    let mut i: usize = 0;
    while i < params.len()
        invariant
            i <= params@.len(),
            m@ == bind_args(params@.take(i as int), strings_view(args@)),
        decreases params@.len() - i,
    {
        proof {
            assert(params@.take(i + 1).drop_last() =~= params@.take(i as int));
            assert(params@.take(i + 1).last() == params@[i as int]);
        }
        if i < args.len() {
            let v = parse_value(args[i].as_str());
            m.insert(params[i].name.node.clone(), v);
        }
        i = i + 1;
    }
    proof {
        assert(params@.take(params@.len() as int) =~= params@);
    }
    m
}

/// Sets up one machine and makes the call on it; see [`run_state`].
fn run_one(items: &Vec<Spanned<Item>>, state: &StateDef, call: Option<&str>) -> (r: (Option<StateRun>, Option<RunError>))
    requires
        call matches Some(c) ==> call_readable(c@),
    ensures
        (opt_run_view(r.0), error_view(r.1)) == run_state(const_defs(items@), *state, call_view(call)),
{
    let mut engine = Engine::new(state.name.node.as_str());
    match load_program_consts(&mut engine, items) {
        Ok(()) => {},
        Err(e) => return (None, Some(RunError::Runtime(e))),
    }
    match load_state_consts(&mut engine, &state.constants) {
        Ok(()) => {},
        Err(e) => return (None, Some(RunError::Runtime(e))),
    }
    match engine.initialize_state(state) {
        Ok(()) => {},
        Err(e) => return (None, Some(RunError::Runtime(e))),
    }
    let after_init = engine.get_state().snapshot();
    let ghost env = after_init@;
    match call {
        None => (Some(StateRun { state_name: state.name.node.clone(), fields_after_init: after_init, transition: None }), None),
        Some(c) => {
            let (tname, args) = parse_transition_spec(c);
            match find_transition(&state.transitions, &tname) {
                None => (
                    Some(StateRun { state_name: state.name.node.clone(), fields_after_init: after_init, transition: None }),
                    Some(RunError::TransitionNotFound(tname)),
                ),
                Some(t) => {
                    let bound = bind_arguments(&t.params, &args);
                    match engine.execute_transition(t, bound, state.invariants.as_slice()) {
                        Ok(events) => {
                            let fields_after = engine.get_state().snapshot();
                            (
                                Some(StateRun {
                                    state_name: state.name.node.clone(),
                                    fields_after_init: after_init,
                                    transition: Some(TransitionRun { events, fields_after }),
                                }),
                                None,
                            )
                        },
                        Err(e) => (
                            Some(StateRun { state_name: state.name.node.clone(), fields_after_init: after_init, transition: None }),
                            Some(RunError::Runtime(e)),
                        ),
                    }
                },
            }
        },
    }
}

proof fn lemma_state_defs_step(items: Seq<Spanned<Item>>, i: int)
    requires
        0 <= i < items.len(),
    ensures
        state_defs(items.take(i + 1)) == state_defs(items.take(i)) + match items[i].node {
            Item::State(s) => seq![s],
            _ => Seq::<StateDef>::empty(),
        },
{
    assert(items.take(i + 1).drop_last() =~= items.take(i));
    assert(items.take(i + 1).last() == items[i]);
}

/// The runs of a machine as a sequence: one or none.
pub open spec fn opt_runs(r: Option<RunView>) -> Seq<RunView> {
    match r {
        Some(x) => seq![x],
        None => Seq::empty(),
    }
}

proof fn lemma_run_states_push(
    pc: Seq<ConstDef>,
    states: Seq<StateDef>,
    st: StateDef,
    call: Option<Seq<char>>,
    before: Seq<RunView>,
    rv: Option<RunView>,
    ev: Option<RunErr>,
)
    requires
        run_states(pc, states, call) == (before, None::<RunErr>),
        (rv, ev) == run_state(pc, st, call),
    ensures
        run_states(pc, states.push(st), call) == (before + opt_runs(rv), ev),
{
    assert(states.push(st).drop_last() =~= states);
    assert(states.push(st).last() == st);
}

proof fn lemma_run_stops(pc: Seq<ConstDef>, items: Seq<Spanned<Item>>, i: int, call: Option<Seq<char>>)
    requires
        0 <= i <= items.len(),
        run_states(pc, state_defs(items.take(i)), call).1 is Some,
    ensures
        run_states(pc, state_defs(items), call) == run_states(pc, state_defs(items.take(i)), call),
{
    lemma_const_defs_split(items, i);
    lemma_run_states_stop(pc, state_defs(items.take(i)), state_defs(items.skip(i)), call);
}

/// Sets up every state machine of the program, in order, and makes the call,
/// if there is one, on each; stops at the first error. See [`run_states`].
#[verifier::rlimit(30)]
pub fn run_program(program: &Program, call: Option<&str>) -> (r: RunReport)
    requires
        call matches Some(c) ==> call_readable(c@),
    ensures
        report_view(r) == run_states(const_defs(program.items@), state_defs(program.items@), call_view(call)),
{
    let items = &program.items;
    let ghost pc = const_defs(items@);
    let ghost cv = call_view(call);
    let mut runs: Vec<StateRun> = Vec::new();
    let mut i: usize = 0;
    proof {
        assert(items@.take(0) =~= Seq::<Spanned<Item>>::empty());
        assert(runs_view(runs@) =~= Seq::<RunView>::empty());
    }
    while i < items.len()
        invariant
            i <= items@.len(),
            items@ == program.items@,
            pc == const_defs(items@),
            cv == call_view(call),
            call matches Some(c) ==> call_readable(c@),
            run_states(pc, state_defs(items@.take(i as int)), cv) == (runs_view(runs@), None::<RunErr>),
        decreases items@.len() - i,
    {
        proof {
            assert(items@.take(i + 1).drop_last() =~= items@.take(i as int));
            assert(items@.take(i + 1).last() == items@[i as int]);
        }
        if let Item::State(state) = &items[i].node {
            let (r, e) = run_one(items, state, call);
            let ghost before = runs@;
            let ghost rv = opt_run_view(r);
            let ghost ev = error_view(e);
            proof {
                lemma_state_defs_step(items@, i as int);
                assert(state_defs(items@.take(i + 1)) =~= state_defs(items@.take(i as int)).push(*state));
                lemma_run_states_push(pc, state_defs(items@.take(i as int)), *state, cv, runs_view(before), rv, ev);
            }
            match r {
                Some(x) => {
                    runs.push(x);
                },
                None => {},
            }
            proof {
                assert(runs_view(runs@) =~= runs_view(before) + opt_runs(rv));
            }
            if e.is_some() {
                let report = RunReport { runs, error: e };
                proof {
                    lemma_run_stops(pc, items@, i + 1, cv);
                    assert(report_view(report).0 == runs_view(before) + opt_runs(rv));
                    assert(report_view(report).1 == ev);
                    assert(run_states(pc, state_defs(items@.take(i + 1)), cv) == (runs_view(before) + opt_runs(rv), ev));
                }
                return report;
            }
        } else {
            proof {
                lemma_state_defs_step(items@, i as int);
            }
        }
        i = i + 1;
    }
    proof {
        assert(items@.take(items@.len() as int) =~= items@);
    }
    let report = RunReport { runs, error: None };
    proof {
        assert(report_view(report) == run_states(pc, state_defs(items@), cv));
    }
    report
}

/// The message a run error is reported with.
pub open spec fn run_error_message(e: RunErr) -> Seq<char> {
    match e {
        RunErr::Runtime(x) => error_message(x),
        RunErr::NotFound(n) => "transition '"@ + n + "' not found"@,
    }
}

impl RunError {
    /// The message the error is reported with; see [`run_error_message`].
    pub fn message(&self) -> (s: String)
        ensures
            s@ == run_error_message(run_error_view(*self)),
    {
        match self {
            RunError::Runtime(e) => e.message(),
            RunError::TransitionNotFound(n) => concat3("transition '", n.as_str(), "' not found"),
        }
    }
}

} // verus!
