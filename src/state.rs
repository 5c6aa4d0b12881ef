use std::cmp::Ordering;
use vstd::prelude::*;
use vstd::string::*;

use crate::keyed::{distinct_keys, keyed, lemma_keyed_at, lemma_keyed_push, lemma_keyed_remove, lemma_keyed_update};
use crate::condition::{holds_all, Condition, ConditionImpl};

verus! {

/// The value attached to a fact: a bare presence marker or an integer.
#[derive(Debug, Clone, Copy, PartialEq, Eq, Structural, Hash)]
pub enum StateData {
    Symbol,
    Integer(i32),
}

/// The ordering of two values: total within a variant, undefined across them.
pub open spec fn data_cmp(a: StateData, b: StateData) -> Option<Ordering> {
    match (a, b) {
        (StateData::Symbol, StateData::Symbol) => Some(Ordering::Equal),
        (StateData::Integer(x), StateData::Integer(y)) => Some(
            if x < y {
                Ordering::Less
            } else if x == y {
                Ordering::Equal
            } else {
                Ordering::Greater
            },
        ),
        _ => None,
    }
}

impl StateData {
    /// Orders two values of the same variant; values of different variants
    /// are unordered.
    pub fn partial_cmp(&self, other: &Self) -> (r: Option<Ordering>)
        ensures
            r == data_cmp(*self, *other),
    {
        match *self {
            StateData::Symbol => match *other {
                StateData::Symbol => Some(Ordering::Equal),
                StateData::Integer(_) => None,
            },
            StateData::Integer(x) => match *other {
                StateData::Symbol => None,
                StateData::Integer(y) => if x < y {
                    Some(Ordering::Less)
                } else if x == y {
                    Some(Ordering::Equal)
                } else {
                    Some(Ordering::Greater)
                },
            },
        }
    }
}

/// Values of the two variants are never equal and never ordered; within a
/// variant, equality is that of the payload and the order that of `i32`.
pub proof fn lemma_value_equality(a: StateData, b: StateData)
    ensures
        (a == StateData::Symbol && b == StateData::Symbol) ==> a == b && data_cmp(a, b)
            == Some(Ordering::Equal),
        forall|x: i32, y: i32|
            a == StateData::Integer(x) && b == StateData::Integer(y) ==> ((a == b) <==> x == y),
        a is Symbol != b is Symbol ==> a != b && data_cmp(a, b) is None,
{
}

/// Whether two strings hold the same characters.
pub(crate) fn same_text(a: &str, b: &str) -> (r: bool)
    ensures
        r == (a@ == b@),
{
    let n = a.unicode_len();
    if n != b.unicode_len() {
        return false;
    }
    let mut i: usize = 0;
    while i < n
        invariant
            n == a@.len() == b@.len(),
            i <= n,
            forall|j: int| 0 <= j < i ==> a@[j] == b@[j],
        decreases n - i,
    {
        if a.get_char(i) != b.get_char(i) {
            return false;
        }
        i += 1;
    }
    assert(a@ =~= b@);
    true
}

/// One fact: a name and its value.
#[derive(Debug)]
pub struct State {
    name: String,
    data: StateData,
}

impl View for State {
    type V = (Seq<char>, StateData);

    closed spec fn view(&self) -> (Seq<char>, StateData) {
        (self.name@, self.data)
    }
}

impl Clone for State {
    fn clone(&self) -> (r: Self)
        ensures
            r@ == self@,
    {
        State { name: self.name.clone(), data: self.data }
    }
}

impl State {
    pub fn new(name: String, data: StateData) -> (r: Self)
        ensures
            r@ == (name@, data),
    {
        Self { name, data }
    }

    pub fn new_symbol(name: String) -> (r: Self)
        ensures
            r@ == (name@, StateData::Symbol),
    {
        Self { name, data: StateData::Symbol }
    }

    pub fn new_integer(name: String, data: i32) -> (r: Self)
        ensures
            r@ == (name@, StateData::Integer(data)),
    {
        Self { name, data: StateData::Integer(data) }
    }

    pub fn name(&self) -> (r: &str)
        ensures
            r@ == self@.0,
    {
        self.name.as_str()
    }

    pub fn data(&self) -> (r: &StateData)
        ensures
            *r == self@.1,
    {
        &self.data
    }

    pub fn data_mut(&mut self) -> (r: &mut StateData)
        ensures
            *r == old(self)@.1,
            final(self)@ == (old(self)@.0, *final(r)),
    {
        &mut self.data
    }

    pub fn into_inner(self) -> (r: (String, StateData))
        ensures
            (r.0@, r.1) == self@,
    {
        (self.name, self.data)
    }
}

/// A snapshot of the world: at most one value per fact name. The value of
/// the fact `names[i]` is `values[i]`.
#[derive(Debug)]
pub struct StateSet {
    names: Vec<String>,
    values: Vec<StateData>,
}

/// The (name, value) entries of two parallel lists.
pub closed spec fn entries_of(names: Seq<String>, values: Seq<StateData>) -> Seq<
    (Seq<char>, StateData),
> {
    Seq::new(names.len(), |i: int| (names[i]@, values[i]))
}

impl View for StateSet {
    type V = Map<Seq<char>, StateData>;

    closed spec fn view(&self) -> Map<Seq<char>, StateData> {
        keyed(entries_of(self.names@, self.values@))
    }
}

impl Clone for StateSet {
    fn clone(&self) -> (r: Self)
        ensures
            r@ == self@,
    {
        proof {
            use_type_invariant(self);
        }
        let mut names: Vec<String> = Vec::new();
        let mut i: usize = 0;
        while i < self.names.len()
            invariant
                i <= self.names.len(),
                names.len() == i,
                forall|j: int| 0 <= j < i ==> #[trigger] names@[j]@ == self.names@[j]@,
            decreases self.names.len() - i,
        {
            names.push(self.names[i].clone());
            i += 1;
        }
        let values = self.values.clone();
        assert(values@ =~= self.values@);
        assert(entries_of(names@, values@) =~= entries_of(self.names@, self.values@));
        StateSet { names, values }
    }
}

/// The position of `name` in `names`, if it is there.
fn find_name(names: &Vec<String>, name: &str) -> (r: Option<usize>)
    ensures
        match r {
            Some(i) => i < names.len() && names@[i as int]@ == name@,
            None => forall|j: int| 0 <= j < names.len() ==> names@[j]@ != name@,
        },
{
    let mut i: usize = 0;
    while i < names.len()
        invariant
            i <= names.len(),
            forall|j: int| 0 <= j < i ==> names@[j]@ != name@,
        decreases names.len() - i,
    {
        if same_text(names[i].as_str(), name) {
            return Some(i);
        }
        i += 1;
    }
    None
}

impl StateSet {
    #[verifier::type_invariant]
    spec fn inv(&self) -> bool {
        &&& self.names.len() == self.values.len()
        &&& distinct_keys(entries_of(self.names@, self.values@))
    }

    /// The position of the fact called `name`, if there is one.
    fn find(&self, name: &str) -> (r: Option<usize>)
        ensures
            match r {
                Some(i) => {
                    &&& i < self.names.len()
                    &&& i < self.values.len()
                    &&& self@.contains_key(name@)
                    &&& self@[name@] == self.values@[i as int]
                    &&& entries_of(self.names@, self.values@)[i as int].0 == name@
                },
                None => !self@.contains_key(name@),
            },
    {
        proof {
            use_type_invariant(self);
        }
        let r = find_name(&self.names, name);
        let ghost e = entries_of(self.names@, self.values@);
        match r {
            Some(i) => {
                proof {
                    lemma_keyed_at(e, i as int);
                }
            },
            None => {
                assert forall|j: int| 0 <= j < e.len() implies e[j].0 != name@ by {}
            },
        }
        r
    }

    pub fn new() -> (r: Self)
        ensures
            r@ == Map::<Seq<char>, StateData>::empty(),
    {
        let r = Self { names: Vec::new(), values: Vec::new() };
        assert(r@ =~= Map::<Seq<char>, StateData>::empty());
        r
    }

    /// Sets the fact `state` names to its value; true when the name was new.
    pub fn insert(&mut self, state: State) -> (r: bool)
        ensures
            r == !old(self)@.contains_key(state@.0),
            final(self)@ == old(self)@.insert(state@.0, state@.1),
    {
        proof {
            use_type_invariant(&*self);
        }
        let ghost e = entries_of(self.names@, self.values@);
        let found = self.find(state.name());
        let (name, data) = state.into_inner();
        let mut taken = StateSet::new();
        std::mem::swap(self, &mut taken);
        let StateSet { mut names, mut values } = taken;
        match found {
            Some(i) => {
                proof {
                    lemma_keyed_update(e, i as int, data);
                }
                values.set(i, data);
                assert(entries_of(names@, values@) =~= e.update(i as int, (e[i as int].0, data)));
                *self = StateSet { names, values };
                false
            },
            None => {
                proof {
                    lemma_keyed_push(e, name@, data);
                }
                names.push(name);
                values.push(data);
                assert(entries_of(names@, values@) =~= e.push((names@.last()@, data)));
                *self = StateSet { names, values };
                true
            },
        }
    }

    /// Deletes the fact called `name`, handing back its value if it was there.
    pub fn remove(&mut self, name: &str) -> (r: Option<StateData>)
        ensures
            r == (if old(self)@.contains_key(name@) {
                Some(old(self)@[name@])
            } else {
                None::<StateData>
            }),
            final(self)@ == old(self)@.remove(name@),
    {
        proof {
            use_type_invariant(&*self);
        }
        let ghost e = entries_of(self.names@, self.values@);
        match self.find(name) {
            Some(i) => {
                proof {
                    lemma_keyed_remove(e, i as int);
                }
                let mut taken = StateSet::new();
                std::mem::swap(self, &mut taken);
                let StateSet { mut names, mut values } = taken;
                names.remove(i);
                let d = values.remove(i);
                assert(entries_of(names@, values@) =~= e.remove(i as int));
                *self = StateSet { names, values };
                Some(d)
            },
            None => {
                assert(old(self)@.remove(name@) =~= old(self)@);
                None
            },
        }
    }

    /// The value of the fact called `name`, if there is one.
    pub fn get(&self, name: &str) -> (r: Option<&StateData>)
        ensures
            r == (if self@.contains_key(name@) {
                Some(&self@[name@])
            } else {
                None::<&StateData>
            }),
    {
        match self.find(name) {
            Some(i) => Some(&self.values[i]),
            None => None,
        }
    }

    /// A handle on the value of the fact called `name`, if there is one;
    /// what is written through it becomes that fact's value.
    pub fn get_mut(&mut self, name: &str) -> (r: Option<&mut StateData>)
        ensures
            match r {
                Some(d) => {
                    &&& old(self)@.contains_key(name@)
                    &&& *d == old(self)@[name@]
                    &&& final(self)@ == old(self)@.insert(name@, *final(d))
                },
                None => !old(self)@.contains_key(name@) && final(self)@ == old(self)@,
            },
    {
        proof {
            use_type_invariant(&*self);
        }
        let ghost e = entries_of(self.names@, self.values@);
        match self.find(name) {
            Some(i) => {
                proof {
                    assert forall|v: StateData| #[trigger] entries_of(self.names@, self.values@.update(i as int, v))
                        == e.update(i as int, (e[i as int].0, v)) by {
                        assert(entries_of(self.names@, self.values@.update(i as int, v)) =~= e.update(i as int, (e[i as int].0, v)));
                    }
                    assert forall|v: StateData| #[trigger] keyed(e.update(i as int, (e[i as int].0, v)))
                        == keyed(e).insert(name@, v) && distinct_keys(e.update(i as int, (e[i as int].0, v))) by {
                        lemma_keyed_update(e, i as int, v);
                    }
                }
                Some(&mut self.values[i])
            },
            None => None,
        }
    }

    /// Whether the fact `state` names is present with exactly its value.
    pub fn contains(&self, state: &State) -> (r: bool)
        ensures
            r == (self@.contains_key(state@.0) && self@[state@.0] == state@.1),
    {
        match self.get(state.name()) {
            Some(data) => *data == *state.data(),
            None => false,
        }
    }

    /// Whether every goal holds here.
    pub fn has_reached(&self, goals: &Vec<ConditionImpl>) -> (r: bool)
        ensures
            r == holds_all(goals@.map_values(|c: ConditionImpl| c.model()), self@),
    {
        let ghost gs = goals@.map_values(|c: ConditionImpl| c.model());
        let mut i: usize = 0;
        while i < goals.len()
            invariant
                i <= goals.len(),
                gs == goals@.map_values(|c: ConditionImpl| c.model()),
                forall|j: int| 0 <= j < i ==> #[trigger] gs[j].holds(self@),
            decreases goals.len() - i,
        {
            if !goals[i].check(self) {
                assert(!gs[i as int].holds(self@));
                return false;
            }
            i += 1;
        }
        true
    }
}

} // verus!
