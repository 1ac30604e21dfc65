//! The state a running machine keeps: its fields and the history of the
//! transitions it has taken.
use vstd::prelude::*;
use crate::value::{Value, ValueMap, Val, values_view};

verus! {

/// An event emitted by a transition, with its evaluated arguments.
#[derive(Debug, PartialEq)]
pub struct RuntimeEvent {
    pub name: String,
    pub args: Vec<Value>,
}

/// The model of an event: its name and the models of its arguments.
pub open spec fn event_view(e: RuntimeEvent) -> (Seq<char>, Seq<Val>) {
    (e.name@, values_view(e.args@))
}

pub open spec fn events_view(es: Seq<RuntimeEvent>) -> Seq<(Seq<char>, Seq<Val>)> {
    es.map_values(|e: RuntimeEvent| event_view(e))
}

/// One transition that was taken: its name, the fields before it, and the
/// events it emitted.
#[derive(Debug, PartialEq)]
pub struct TransitionRecord {
    pub transition: String,
    pub pre_state: ValueMap,
    pub events: Vec<RuntimeEvent>,
}

/// The model of a history record.
pub open spec fn record_view(r: TransitionRecord) -> (
    Seq<char>,
    Map<Seq<char>, Val>,
    Seq<(Seq<char>, Seq<Val>)>,
) {
    (r.transition@, r.pre_state@, events_view(r.events@))
}

pub open spec fn history_view(h: Seq<TransitionRecord>) -> Seq<
    (Seq<char>, Map<Seq<char>, Val>, Seq<(Seq<char>, Seq<Val>)>),
> {
    h.map_values(|r: TransitionRecord| record_view(r))
}

/// The fields of a machine and the transitions it has taken so far.
#[derive(Debug)]
pub struct RuntimeState {
    pub name: String,
    pub fields: ValueMap,
    pub history: Vec<TransitionRecord>,
}

impl RuntimeState {
    pub fn new(name: String) -> (s: RuntimeState)
        ensures
            s.name@ == name@,
            s.fields@ == Map::<Seq<char>, Val>::empty(),
            s.history@.len() == 0,
    {
        RuntimeState { name, fields: ValueMap::new(), history: Vec::new() }
    }

    pub fn get(&self, name: &str) -> (r: Option<&Value>)
        ensures
            match r {
                Some(v) => self.fields@.contains_key(name@) && v@ == self.fields@[name@],
                None => !self.fields@.contains_key(name@),
            },
    {
        self.fields.get(name)
    }

    pub fn set(&mut self, name: &String, value: Value)
        ensures
            final(self).fields@ == old(self).fields@.insert(name@, value@),
            final(self).name == old(self).name,
            final(self).history == old(self).history,
    {
        self.fields.insert(name.clone(), value);
    }

    /// A copy of the current fields.
    pub fn snapshot(&self) -> (m: ValueMap)
        ensures
            m@ == self.fields@,
    {
        self.fields.duplicate()
    }

    /// Appends a record of a transition that was taken.
    pub fn record_transition(&mut self, transition: &String, pre_state: ValueMap, events: Vec<RuntimeEvent>)
        ensures
            final(self).name == old(self).name,
            final(self).fields == old(self).fields,
            history_view(final(self).history@) == history_view(old(self).history@).push(
                (transition@, pre_state@, events_view(events@)),
            ),
    {
        let ghost h = self.history@;
        self.history.push(TransitionRecord { transition: transition.clone(), pre_state, events });
        proof {
            assert(history_view(self.history@) =~= history_view(h).push(
                (transition@, pre_state@, events_view(events@)),
            ));
        }
    }
}

} // verus!
