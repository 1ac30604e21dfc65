//! Runtime values and the string-keyed maps that hold them.
use vstd::prelude::*;
use crate::text::{int_text, int_to_text, join};

verus! {

/// A value computed by the interpreter.
#[derive(Debug, PartialEq)]
pub enum Value {
    Int(i64),
    Bool(bool),
    String(String),
    Array(Vec<Value>),
    Mapping(ValueMap),
    Enum { enum_name: String, variant: String },
    Record(ValueMap),
    Null,
}

/// A map from names to values. Writing a key that is already present
/// replaces its value in place; the order of `entries` is the order in
/// which keys were first written.
#[derive(Debug, PartialEq)]
pub struct ValueMap {
    pub entries: Vec<(String, Value)>,
}

/// The mathematical model of a [`Value`].
pub enum Val {
    Int(i64),
    Bool(bool),
    Str(Seq<char>),
    Array(Seq<Val>),
    Mapping(Map<Seq<char>, Val>),
    Enum(Seq<char>, Seq<char>),
    Record(Map<Seq<char>, Val>),
    Null,
}

pub open spec fn value_view(v: Value) -> Val
    decreases v, 0int,
{
    match v {
        Value::Int(i) => Val::Int(i),
        Value::Bool(b) => Val::Bool(b),
        Value::String(s) => Val::Str(s@),
        Value::Array(items) => Val::Array(values_view(items@)),
        Value::Mapping(m) => Val::Mapping(entries_view(m.entries@)),
        Value::Enum { enum_name, variant } => Val::Enum(enum_name@, variant@),
        Value::Record(m) => Val::Record(entries_view(m.entries@)),
        Value::Null => Val::Null,
    }
}

/// The models of a sequence of values, element by element.
pub open spec fn values_view(s: Seq<Value>) -> Seq<Val>
    decreases s, s.len(),
{
    if s.len() == 0 {
        Seq::empty()
    } else {
        values_view(s.drop_last()).push(value_view(s.last()))
    }
}

/// The map that a list of entries stands for: a later entry for a key
/// overrides an earlier one.
pub open spec fn entries_view(es: Seq<(String, Value)>) -> Map<Seq<char>, Val>
    decreases es, es.len(),
{
    if es.len() == 0 {
        Map::empty()
    } else {
        entries_view(es.drop_last()).insert(es.last().0@, value_view(es.last().1))
    }
}

impl View for Value {
    type V = Val;

    open spec fn view(&self) -> Val {
        value_view(*self)
    }
}

impl View for ValueMap {
    type V = Map<Seq<char>, Val>;

    open spec fn view(&self) -> Map<Seq<char>, Val> {
        entries_view(self.entries@)
    }
}


/// The model of a sequence of values has one model per value, in order.
pub proof fn lemma_values_view(s: Seq<Value>)
    ensures
        values_view(s).len() == s.len(),
        forall|i: int| 0 <= i < s.len() ==> #[trigger] values_view(s)[i] == value_view(s[i]),
    decreases s.len(),
{
    if s.len() > 0 {
        lemma_values_view(s.drop_last());
    }
}

pub proof fn lemma_values_view_update(s: Seq<Value>, i: int, v: Value)
    requires
        0 <= i < s.len(),
    ensures
        values_view(s.update(i, v)) == values_view(s).update(i, value_view(v)),
{
    lemma_values_view(s);
    lemma_values_view(s.update(i, v));
    assert(values_view(s.update(i, v)) =~= values_view(s).update(i, value_view(v)));
}

pub proof fn lemma_values_view_push(s: Seq<Value>, v: Value)
    ensures
        values_view(s.push(v)) == values_view(s).push(value_view(v)),
{
    assert(s.push(v).drop_last() =~= s);
}

/// `j` is the last position of `es` whose key is `k`.
pub open spec fn last_key_at(es: Seq<(String, Value)>, k: Seq<char>, j: int) -> bool {
    &&& 0 <= j < es.len()
    &&& es[j].0@ == k
    &&& forall|l: int| j < l < es.len() ==> (#[trigger] es[l]).0@ != k
}

pub proof fn lemma_entries_absent(es: Seq<(String, Value)>, k: Seq<char>)
    requires
        forall|l: int| 0 <= l < es.len() ==> (#[trigger] es[l]).0@ != k,
    ensures
        !entries_view(es).contains_key(k),
    decreases es.len(),
{
    if es.len() > 0 {
        let p = es.drop_last();
        assert forall|l: int| 0 <= l < p.len() implies (#[trigger] p[l]).0@ != k by {
            assert(p[l] == es[l]);
        }
        lemma_entries_absent(p, k);
    }
}

pub proof fn lemma_entries_last(es: Seq<(String, Value)>, k: Seq<char>, j: int)
    requires
        last_key_at(es, k, j),
    ensures
        entries_view(es).contains_key(k),
        entries_view(es)[k] == value_view(es[j].1),
    decreases es.len(),
{
    if j < es.len() - 1 {
        let p = es.drop_last();
        assert(last_key_at(p, k, j)) by {
            assert forall|l: int| j < l < p.len() implies (#[trigger] p[l]).0@ != k by {
                assert(p[l] == es[l]);
            }
        }
        lemma_entries_last(p, k, j);
    }
}

pub proof fn lemma_entries_update(es: Seq<(String, Value)>, k: Seq<char>, j: int, e: (String, Value))
    requires
        last_key_at(es, k, j),
        e.0@ == k,
    ensures
        entries_view(es.update(j, e)) == entries_view(es).insert(k, value_view(e.1)),
    decreases es.len(),
{
    let u = es.update(j, e);
    if j == es.len() - 1 {
        assert(u.drop_last() =~= es.drop_last());
        assert(entries_view(u) =~= entries_view(es).insert(k, value_view(e.1)));
    } else {
        let p = es.drop_last();
        assert(last_key_at(p, k, j)) by {
            assert forall|l: int| j < l < p.len() implies (#[trigger] p[l]).0@ != k by {
                assert(p[l] == es[l]);
            }
        }
        lemma_entries_update(p, k, j, e);
        assert(u.drop_last() =~= p.update(j, e));
        assert(es.last().0@ != k);
        assert(entries_view(u) =~= entries_view(es).insert(k, value_view(e.1)));
    }
}

impl ValueMap {
    pub fn new() -> (m: ValueMap)
        ensures
            m@ == Map::<Seq<char>, Val>::empty(),
            m.entries@.len() == 0,
    {
        ValueMap { entries: Vec::new() }
    }

    /// The position of the last entry whose key is `key`.
    fn find_last(&self, key: &String) -> (r: Option<usize>)
        ensures
            match r {
                Some(j) => last_key_at(self.entries@, key@, j as int),
                None => forall|l: int|
                    0 <= l < self.entries@.len() ==> (#[trigger] self.entries@[l]).0@ != key@,
            },
    {
        let mut i = self.entries.len();
        while i > 0
            invariant
                i <= self.entries@.len(),
                forall|l: int| i <= l < self.entries@.len() ==> (#[trigger] self.entries@[l]).0@ != key@,
            decreases i,
        {
            i = i - 1;
            if self.entries[i].0 == *key {
                return Some(i);
            }
        }
        None
    }

    /// The value stored under `key`, if any.
    pub fn get(&self, key: &str) -> (r: Option<&Value>)
        ensures
            match r {
                Some(v) => self@.contains_key(key@) && v@ == self@[key@],
                None => !self@.contains_key(key@),
            },
    {
        let k = String::from_str(key);
        self.get_by(&k)
    }

    pub fn get_by(&self, key: &String) -> (r: Option<&Value>)
        ensures
            match r {
                Some(v) => self@.contains_key(key@) && v@ == self@[key@],
                None => !self@.contains_key(key@),
            },
    {
        match self.find_last(key) {
            Some(j) => {
                proof {
                    lemma_entries_last(self.entries@, key@, j as int);
                }
                Some(&self.entries[j].1)
            },
            None => {
                proof {
                    lemma_entries_absent(self.entries@, key@);
                }
                None
            },
        }
    }

    pub fn contains_key(&self, key: &str) -> (r: bool)
        ensures
            r == self@.contains_key(key@),
    {
        self.get(key).is_some()
    }

    /// Stores `value` under `key`, replacing what was there.
    pub fn insert(&mut self, key: String, value: Value)
        ensures
            final(self)@ == old(self)@.insert(key@, value@),
    {
        match self.find_last(&key) {
            Some(j) => {
                proof {
                    lemma_entries_update(self.entries@, key@, j as int, (key, value));
                }
                self.entries.set(j, (key, value));
            },
            None => {
                let ghost es = self.entries@;
                self.entries.push((key, value));
                proof {
                    assert(self.entries@.drop_last() =~= es);
                }
            },
        }
    }

    pub fn len(&self) -> (n: usize)
        ensures
            n == self.entries@.len(),
    {
        self.entries.len()
    }

    /// A copy of this map with the same entries in the same order.
    pub fn duplicate(&self) -> (r: ValueMap)
        ensures
            r@ == self@,
            r.entries@.len() == self.entries@.len(),
            forall|i: int| 0 <= i < self.entries@.len() ==>
                (#[trigger] r.entries@[i]).0@ == self.entries@[i].0@
                && value_view(r.entries@[i].1) == value_view(self.entries@[i].1),
        decreases self, 0int,
    {
        let mut out: Vec<(String, Value)> = Vec::new();
        let n = self.entries.len();
        let mut i: usize = 0;
        while i < n
            invariant
                n == self.entries@.len(),
                i <= n,
                out@.len() == i,
                forall|l: int| 0 <= l < i ==>
                    (#[trigger] out@[l]).0@ == self.entries@[l].0@
                    && value_view(out@[l].1) == value_view(self.entries@[l].1),
                entries_view(out@) == entries_view(self.entries@.take(i as int)),
            decreases n - i,
        {
            let k = self.entries[i].0.clone();
            let v = self.entries[i].1.duplicate();
            let ghost prev = out@;
            out.push((k, v));
            proof {
                assert(out@.drop_last() =~= prev);
                assert(self.entries@.take(i + 1).drop_last() =~= self.entries@.take(i as int));
            }
            i = i + 1;
        }
        proof {
            assert(self.entries@.take(n as int) =~= self.entries@);
        }
        ValueMap { entries: out }
    }
}

impl Value {
    /// A copy of this value.
    pub fn duplicate(&self) -> (r: Value)
        ensures
            r@ == self@,
        decreases self, 1int,
    {
        match self {
            Value::Int(i) => Value::Int(*i),
            Value::Bool(b) => Value::Bool(*b),
            Value::String(s) => Value::String(s.clone()),
            Value::Array(items) => {
                let mut out: Vec<Value> = Vec::new();
                let n = items.len();
                let mut i: usize = 0;
                while i < n
                    invariant
                        n == items@.len(),
                        i <= n,
                        values_view(out@) == values_view(items@.take(i as int)),
                        *self == Value::Array(*items),
                    decreases n - i,
                {
                    proof {
                        let ghost w = *self;
                        assert(w is Array);
                        assert(decreases_to!(w => w->Array_0));
                    }
                    let v = items[i].duplicate();
                    proof {
                        lemma_values_view_push(out@, v);
                        assert(items@.take(i + 1) =~= items@.take(i as int).push(items@[i as int]));
                        lemma_values_view_push(items@.take(i as int), items@[i as int]);
                    }
                    out.push(v);
                    i = i + 1;
                }
                proof {
                    assert(items@.take(n as int) =~= items@);
                }
                Value::Array(out)
            },
            Value::Mapping(m) => Value::Mapping(m.duplicate()),
            Value::Enum { enum_name, variant } => Value::Enum {
                enum_name: enum_name.clone(),
                variant: variant.clone(),
            },
            Value::Record(m) => Value::Record(m.duplicate()),
            Value::Null => Value::Null,
        }
    }
}


/// How a value is shown: integers in decimal, booleans as `true`/`false`,
/// strings as themselves, enum values as `Enum::Variant`, null as `null`,
/// arrays as `[a, b]`, maps and records as `{key: value, ...}` in the order
/// of their entries.
pub open spec fn value_display(v: Value) -> Seq<char>
    decreases v, 2int,
{
    match v {
        Value::Int(i) => int_text(i as int),
        Value::Bool(b) => if b { seq!['t', 'r', 'u', 'e'] } else { seq!['f', 'a', 'l', 's', 'e'] },
        Value::String(x) => x@,
        Value::Array(items) => seq!['['] + join(values_display(items@), seq![',', ' ']) + seq![']'],
        Value::Mapping(m) => seq!['{'] + join(entries_display(m.entries@), seq![',', ' ']) + seq!['}'],
        Value::Enum { enum_name, variant } => enum_name@ + seq![':', ':'] + variant@,
        Value::Record(m) => seq!['{'] + join(entries_display(m.entries@), seq![',', ' ']) + seq!['}'],
        Value::Null => seq!['n', 'u', 'l', 'l'],
    }
}

pub open spec fn values_display(s: Seq<Value>) -> Seq<Seq<char>>
    decreases s, s.len(),
{
    if s.len() == 0 {
        Seq::empty()
    } else {
        values_display(s.drop_last()).push(value_display(s.last()))
    }
}

pub open spec fn entries_display(es: Seq<(String, Value)>) -> Seq<Seq<char>>
    decreases es, es.len(),
{
    if es.len() == 0 {
        Seq::empty()
    } else {
        entries_display(es.drop_last()).push(es.last().0@ + seq![':', ' '] + value_display(es.last().1))
    }
}

fn append_joined(out: &mut String, parts: &Vec<String>)
    ensures
        final(out)@ == old(out)@ + join(parts@.map_values(|x: String| x@), seq![',', ' ']),
{
    let ghost start = out@;
    let mut i: usize = 0;
    while i < parts.len()
        invariant
            i <= parts@.len(),
            out@ == start + join(parts@.take(i as int).map_values(|x: String| x@), seq![',', ' ']),
        decreases parts@.len() - i,
    {
        proof {
            assert(parts@.take(i + 1).map_values(|x: String| x@).drop_last() =~= parts@.take(i as int).map_values(|x: String| x@));
            reveal_strlit(", ");
        }
        if i > 0 {
            out.append(", ");
        }
        out.append(parts[i].as_str());
        proof {
            if i == 0 {
                assert(parts@.take(1).map_values(|x: String| x@) =~= seq![parts@[0]@]);
            }
            assert(out@ =~= start + join(parts@.take(i + 1).map_values(|x: String| x@), seq![',', ' ']));
        }
        i = i + 1;
    }
    proof {
        assert(parts@.take(parts@.len() as int) =~= parts@);
    }
}

impl Value {
    /// The text the value is shown with; see [`value_display`].
    pub fn display_text(&self) -> (s: String)
        ensures
            s@ == value_display(*self),
        decreases self, 2int,
    {
        match self {
            Value::Int(i) => int_to_text(*i),
            Value::Bool(b) => {
                proof {
                    reveal_strlit("true");
                    reveal_strlit("false");
                }
                if *b { String::from_str("true") } else { String::from_str("false") }
            },
            Value::String(x) => x.clone(),
            Value::Array(items) => {
                let mut parts: Vec<String> = Vec::new();
                let n = items.len();
                let mut i: usize = 0;
                while i < n
                    invariant
                        n == items@.len(),
                        i <= n,
                        parts@.map_values(|x: String| x@) == values_display(items@.take(i as int)),
                        *self == Value::Array(*items),
                    decreases n - i,
                {
                    proof {
                        let ghost w = *self;
                        assert(decreases_to!(w => w->Array_0));
                    }
                    let t = items[i].display_text();
                    let ghost prev = parts@;
                    parts.push(t);
                    proof {
                        assert(items@.take(i + 1).drop_last() =~= items@.take(i as int));
                        assert(parts@.map_values(|x: String| x@) =~= prev.map_values(|x: String| x@).push(t@));
                    }
                    i = i + 1;
                }
                proof {
                    assert(items@.take(n as int) =~= items@);
                    reveal_strlit("[");
                    reveal_strlit("]");
                }
                let mut out = String::from_str("[");
                append_joined(&mut out, &parts);
                out.append("]");
                out
            },
            Value::Mapping(m) => {
                proof {
                    let ghost w = *self;
                    assert(decreases_to!(w => w->Mapping_0));
                }
                m.display_entries()
            },
            Value::Enum { enum_name, variant } => {
                proof {
                    reveal_strlit("::");
                }
                let mut out = enum_name.clone();
                out.append("::");
                out.append(variant.as_str());
                out
            },
            Value::Record(m) => {
                proof {
                    let ghost w = *self;
                    assert(decreases_to!(w => w->Record_0));
                }
                m.display_entries()
            },
            Value::Null => {
                proof {
                    reveal_strlit("null");
                }
                String::from_str("null")
            },
        }
    }
}

impl ValueMap {
    /// `{key: value, ...}` in the order of the entries.
    pub fn display_entries(&self) -> (s: String)
        ensures
            s@ == seq!['{'] + join(entries_display(self.entries@), seq![',', ' ']) + seq!['}'],
        decreases self, 1int,
    {
        let mut parts: Vec<String> = Vec::new();
        let n = self.entries.len();
        let mut i: usize = 0;
        while i < n
            invariant
                n == self.entries@.len(),
                i <= n,
                parts@.map_values(|x: String| x@) == entries_display(self.entries@.take(i as int)),
            decreases n - i,
        {
            proof {
                reveal_strlit(": ");
            }
            let mut t = self.entries[i].0.clone();
            t.append(": ");
            let vt = self.entries[i].1.display_text();
            t.append(vt.as_str());
            let ghost prev = parts@;
            parts.push(t);
            proof {
                assert(": "@ =~= seq![':', ' ']);
                assert(t@ =~= self.entries@[i as int].0@ + seq![':', ' '] + value_display(self.entries@[i as int].1));
                assert(self.entries@.take(i + 1).drop_last() =~= self.entries@.take(i as int));
                assert(self.entries@.take(i + 1).last() == self.entries@[i as int]);
                assert(parts@.map_values(|x: String| x@) =~= prev.map_values(|x: String| x@).push(t@));
            }
            i = i + 1;
        }
        proof {
            assert(self.entries@.take(n as int) =~= self.entries@);
            reveal_strlit("{");
            reveal_strlit("}");
        }
        let mut out = String::from_str("{");
        append_joined(&mut out, &parts);
        out.append("}");
        out
    }
}

} // verus!
