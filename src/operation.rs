use vstd::prelude::*;

use crate::condition::{models, Condition, ConditionImpl, ConditionModel, ConditionSet};
use crate::state::{same_text, State, StateData, StateSet};

verus! {

/// Whether `f` is a pure function on values: defined everywhere and giving
/// one result for each argument.
pub open spec fn pure_total<F: Fn(StateData) -> StateData>(f: F) -> bool {
    &&& forall|v: StateData| #[trigger] call_requires(f, (v,))
    &&& forall|v: StateData, a: StateData, b: StateData|
        #[trigger] call_ensures(f, (v,), a) && #[trigger] call_ensures(f, (v,), b) ==> a == b
}

/// The value a pure `f` gives for `v`.
pub open spec fn mapped<F: Fn(StateData) -> StateData>(f: F, v: StateData) -> StateData {
    choose|r: StateData| call_ensures(f, (v,), r)
}

/// A change of one fact's value by a pure function.
pub struct Modification<F: Fn(StateData) -> StateData> {
    target_name: String,
    modification: F,
}

impl<F: Fn(StateData) -> StateData> Modification<F> {
    #[verifier::type_invariant]
    spec fn inv(&self) -> bool {
        pure_total(self.modification)
    }

    /// The fact changed.
    pub closed spec fn target(&self) -> Seq<char> {
        self.target_name@
    }

    /// The new value for a fact whose value is `v`.
    pub closed spec fn maps(&self, v: StateData) -> StateData {
        mapped(self.modification, v)
    }

    pub fn new(target_name: String, modification: F) -> (r: Self)
        requires
            pure_total(modification),
        ensures
            r.target() == target_name@,
            forall|v: StateData| r.maps(v) == mapped(modification, v),
    {
        Self { target_name, modification }
    }

    pub fn target_name(&self) -> (r: &str)
        ensures
            r@ == self.target(),
    {
        self.target_name.as_str()
    }

    /// Runs the function on `v`.
    pub fn modify(&self, v: StateData) -> (r: StateData)
        ensures
            r == self.maps(v),
    {
        proof {
            use_type_invariant(self);
        }
        let r = (self.modification)(v);
        assert(call_ensures(self.modification, (v,), mapped(self.modification, v)));
        r
    }
}

/// The world after writing each (name, value) in order.
pub open spec fn after_adds(adds: Seq<(Seq<char>, StateData)>, s: Map<Seq<char>, StateData>) -> Map<
    Seq<char>,
    StateData,
>
    decreases adds.len(),
{
    if adds.len() == 0 {
        s
    } else {
        after_adds(adds.drop_last(), s).insert(adds.last().0, adds.last().1)
    }
}

/// The world after deleting each name in order.
pub open spec fn after_removes(names: Seq<Seq<char>>, s: Map<Seq<char>, StateData>) -> Map<
    Seq<char>,
    StateData,
>
    decreases names.len(),
{
    if names.len() == 0 {
        s
    } else {
        after_removes(names.drop_last(), s).remove(names.last())
    }
}

/// The world after each modification in order; one whose fact is absent
/// changes nothing.
pub open spec fn after_modifications<F: Fn(StateData) -> StateData>(
    ms: Seq<Modification<F>>,
    s: Map<Seq<char>, StateData>,
) -> Map<Seq<char>, StateData>
    decreases ms.len(),
{
    if ms.len() == 0 {
        s
    } else {
        let t = after_modifications(ms.drop_last(), s);
        let m = ms.last();
        if t.contains_key(m.target()) {
            t.insert(m.target(), m.maps(t[m.target()]))
        } else {
            t
        }
    }
}

/// Whether a goal protected under `k` forbids adding the fact `k`.
pub open spec fn add_conflicts(p: Map<Seq<char>, Seq<ConditionModel>>, k: Seq<char>) -> bool {
    p.contains_key(k) && exists|j: int|
        0 <= j < p[k].len() && #[trigger] p[k][j].key() == k && p[k][j] is NotContain
}

/// Whether a goal protected under `k` forbids deleting the fact `k`.
pub open spec fn remove_conflicts(p: Map<Seq<char>, Seq<ConditionModel>>, k: Seq<char>) -> bool {
    p.contains_key(k) && exists|j: int|
        0 <= j < p[k].len() && #[trigger] p[k][j].key() == k && !(p[k][j] is NotContain)
}

/// Whether a comparison goal protected under the fact `k`, present in `s`,
/// would reject the value `v` written there.
pub open spec fn modify_conflicts(
    p: Map<Seq<char>, Seq<ConditionModel>>,
    s: Map<Seq<char>, StateData>,
    k: Seq<char>,
    v: StateData,
) -> bool {
    p.contains_key(k) && s.contains_key(k) && exists|j: int|
        0 <= j < p[k].len() && #[trigger] p[k][j] is Compare && !p[k][j].accepts(v)
}

/// Whether some goal of `conds` reads the fact `k` and is (or, with
/// `absence` false, is not) an absence goal.
fn guards(conds: &Vec<ConditionImpl>, k: &str, absence: bool) -> (r: bool)
    ensures
        r == exists|j: int|
            0 <= j < conds.len() && #[trigger] models(conds@)[j].key() == k@ && (models(conds@)[j] is NotContain)
                == absence,
{
    let mut j: usize = 0;
    while j < conds.len()
        invariant
            j <= conds.len(),
            forall|q: int|
                0 <= q < j ==> !(#[trigger] models(conds@)[q].key() == k@ && (models(conds@)[q] is NotContain)
                    == absence),
        decreases conds.len() - j,
    {
        let c = &conds[j];
        if same_text(c.state_name(), k) && c.is_absence() == absence {
            assert(models(conds@)[j as int] == c.model());
            return true;
        }
        j += 1;
    }
    false
}

/// Whether some comparison goal of `conds` rejects the value `v`.
fn rejects(conds: &Vec<ConditionImpl>, v: &StateData) -> (r: bool)
    ensures
        r == exists|j: int|
            0 <= j < conds.len() && #[trigger] models(conds@)[j] is Compare && !models(conds@)[j].accepts(*v),
{
    let mut j: usize = 0;
    while j < conds.len()
        invariant
            j <= conds.len(),
            forall|q: int| 0 <= q < j ==> #[trigger] models(conds@)[q] is Compare ==> models(conds@)[q].accepts(*v),
        decreases conds.len() - j,
    {
        let c = &conds[j];
        if !c.is_presence() && !c.is_absence() && !c.check_data(v) {
            assert(models(conds@)[j as int] == c.model());
            assert(!models(conds@)[j as int].accepts(*v));
            return true;
        }
        j += 1;
    }
    false
}

/// A named action: prerequisites, then facts added, deleted and modified.
pub struct Operation<F: Fn(StateData) -> StateData> {
    name: String,
    prerequisites: Vec<ConditionImpl>,
    add_states: Vec<State>,
    remove_states: Vec<String>,
    modify_states: Vec<Modification<F>>,
}

impl<F: Fn(StateData) -> StateData> Operation<F> {
    pub closed spec fn spec_name(&self) -> Seq<char> {
        self.name@
    }

    pub closed spec fn prereqs(&self) -> Seq<ConditionModel> {
        models(self.prerequisites@)
    }

    pub closed spec fn adds(&self) -> Seq<(Seq<char>, StateData)> {
        self.add_states@.map_values(|s: State| s@)
    }

    pub closed spec fn removes(&self) -> Seq<Seq<char>> {
        self.remove_states@.map_values(|s: String| s@)
    }

    pub closed spec fn mods(&self) -> Seq<Modification<F>> {
        self.modify_states@
    }

    /// The world after applying this operation's effects to `s`.
    pub open spec fn effect(&self, s: Map<Seq<char>, StateData>) -> Map<Seq<char>, StateData> {
        after_modifications(self.mods(), after_removes(self.removes(), after_adds(self.adds(), s)))
    }

    /// Whether applying this operation to `s` would undo a goal of `p`.
    pub open spec fn interferes(
        &self,
        s: Map<Seq<char>, StateData>,
        p: Map<Seq<char>, Seq<ConditionModel>>,
    ) -> bool {
        ||| exists|i: int| 0 <= i < self.adds().len() && add_conflicts(p, #[trigger] self.adds()[i].0)
        ||| exists|i: int|
            0 <= i < self.removes().len() && remove_conflicts(p, #[trigger] self.removes()[i])
        ||| exists|i: int|
            0 <= i < self.mods().len() && modify_conflicts(
                p,
                s,
                #[trigger] self.mods()[i].target(),
                self.mods()[i].maps(s[self.mods()[i].target()]),
            )
    }

    /// Whether one of this operation's effects aims at the fact `g` reads:
    /// an added fact for a presence goal, a deleted one for an absence goal,
    /// a modified one for a comparison.
    pub open spec fn produces(&self, g: ConditionModel) -> bool {
        match g {
            ConditionModel::Contain(n) => exists|j: int|
                0 <= j < self.adds().len() && #[trigger] self.adds()[j].0 == n,
            ConditionModel::NotContain(n) => exists|j: int|
                0 <= j < self.removes().len() && #[trigger] self.removes()[j] == n,
            ConditionModel::Compare(_, t, _, _) => exists|j: int|
                0 <= j < self.mods().len() && #[trigger] self.mods()[j].target() == t,
        }
    }

    /// Whether one of this operation's effects aims at the fact `goal` reads.
    pub(crate) fn achieves(&self, goal: &ConditionImpl) -> (r: bool)
        ensures
            r == self.produces(goal.model()),
    {
        let name = goal.state_name();
        if goal.is_presence() {
            let mut j: usize = 0;
            while j < self.add_states.len()
                invariant
                    j <= self.add_states.len(),
                    goal.model() is Contain,
                    name@ == goal.model().key(),
                    forall|q: int| 0 <= q < j ==> #[trigger] self.adds()[q].0 != name@,
                decreases self.add_states.len() - j,
            {
                if same_text(self.add_states[j].name(), name) {
                    assert(self.adds()[j as int].0 == name@);
                    return true;
                }
                j += 1;
            }
            false
        } else if goal.is_absence() {
            let mut j: usize = 0;
            while j < self.remove_states.len()
                invariant
                    j <= self.remove_states.len(),
                    goal.model() is NotContain,
                    name@ == goal.model().key(),
                    forall|q: int| 0 <= q < j ==> #[trigger] self.removes()[q] != name@,
                decreases self.remove_states.len() - j,
            {
                if same_text(self.remove_states[j].as_str(), name) {
                    assert(self.removes()[j as int] == name@);
                    return true;
                }
                j += 1;
            }
            false
        } else {
            let mut j: usize = 0;
            while j < self.modify_states.len()
                invariant
                    j <= self.modify_states.len(),
                    goal.model() is Compare,
                    name@ == goal.model().key(),
                    forall|q: int| 0 <= q < j ==> #[trigger] self.mods()[q].target() != name@,
                decreases self.modify_states.len() - j,
            {
                if same_text(self.modify_states[j].target_name(), name) {
                    assert(self.mods()[j as int].target() == name@);
                    return true;
                }
                j += 1;
            }
            false
        }
    }

    pub fn name(&self) -> (r: &str)
        ensures
            r@ == self.spec_name(),
    {
        self.name.as_str()
    }

    pub fn prerequisites(&self) -> (r: &Vec<ConditionImpl>)
        ensures
            models(r@) == self.prereqs(),
    {
        &self.prerequisites
    }

    pub fn add_states(&self) -> (r: &Vec<State>)
        ensures
            r@.map_values(|s: State| s@) == self.adds(),
    {
        &self.add_states
    }

    pub fn remove_states(&self) -> (r: &Vec<String>)
        ensures
            r@.map_values(|s: String| s@) == self.removes(),
    {
        &self.remove_states
    }

    pub fn modification_states(&self) -> (r: &Vec<Modification<F>>)
        ensures
            r@ == self.mods(),
    {
        &self.modify_states
    }

    /// Whether applying this operation to `current_states` would undo one of
    /// the protected `goals`.
    pub fn has_affect(&self, current_states: &StateSet, goals: &ConditionSet) -> (r: bool)
        ensures
            r == self.interferes(current_states@, goals@),
    {
        let ghost p = goals@;
        let ghost s = current_states@;
        let mut i: usize = 0;
        while i < self.add_states.len()
            invariant
                i <= self.add_states.len(),
                p == goals@,
                s == current_states@,
                forall|q: int| 0 <= q < i ==> !add_conflicts(p, #[trigger] self.adds()[q].0),
            decreases self.add_states.len() - i,
        {
            let name = self.add_states[i].name();
            assert(name@ == self.adds()[i as int].0);
            match goals.get(name) {
                Some(conds) => {
                    if guards(conds, name, true) {
                        assert(add_conflicts(p, self.adds()[i as int].0));
                        return true;
                    }
                },
                None => {},
            }
            i += 1;
        }
        let mut i: usize = 0;
        while i < self.remove_states.len()
            invariant
                i <= self.remove_states.len(),
                p == goals@,
                s == current_states@,
                forall|q: int| 0 <= q < self.adds().len() ==> !add_conflicts(p, #[trigger] self.adds()[q].0),
                forall|q: int| 0 <= q < i ==> !remove_conflicts(p, #[trigger] self.removes()[q]),
            decreases self.remove_states.len() - i,
        {
            let name = self.remove_states[i].as_str();
            assert(name@ == self.removes()[i as int]);
            match goals.get(name) {
                Some(conds) => {
                    if guards(conds, name, false) {
                        assert(remove_conflicts(p, self.removes()[i as int]));
                        return true;
                    }
                },
                None => {},
            }
            i += 1;
        }
        let mut i: usize = 0;
        while i < self.modify_states.len()
            invariant
                i <= self.modify_states.len(),
                p == goals@,
                s == current_states@,
                forall|q: int| 0 <= q < self.adds().len() ==> !add_conflicts(p, #[trigger] self.adds()[q].0),
                forall|q: int| 0 <= q < self.removes().len() ==> !remove_conflicts(p, #[trigger] self.removes()[q]),
                forall|q: int|
                    0 <= q < i ==> !modify_conflicts(
                        p,
                        s,
                        #[trigger] self.mods()[q].target(),
                        self.mods()[q].maps(s[self.mods()[q].target()]),
                    ),
            decreases self.modify_states.len() - i,
        {
            let m = &self.modify_states[i];
            let name = m.target_name();
            match goals.get(name) {
                Some(conds) => {
                    match current_states.get(name) {
                        Some(d) => {
                            let tmp = m.modify(*d);
                            if rejects(conds, &tmp) {
                                assert(modify_conflicts(p, s, self.mods()[i as int].target(), self.mods()[i as int].maps(s[self.mods()[i as int].target()])));
                                return true;
                            }
                        },
                        None => {},
                    }
                },
                None => {},
            }
            i += 1;
        }
        false
    }

    /// Adds, then deletes, then modifies, in that order.
    pub fn apply(&self, state_set: &mut StateSet)
        ensures
            final(state_set)@ == self.effect(old(state_set)@),
    {
        let ghost s0 = state_set@;
        let mut i: usize = 0;
        while i < self.add_states.len()
            invariant
                i <= self.add_states.len(),
                state_set@ == after_adds(self.adds().take(i as int), s0),
            decreases self.add_states.len() - i,
        {
            assert(self.adds().take(i as int + 1).drop_last() =~= self.adds().take(i as int));
            state_set.insert(self.add_states[i].clone());
            i += 1;
        }
        assert(self.adds().take(i as int) =~= self.adds());
        let ghost s1 = state_set@;
        let mut i: usize = 0;
        while i < self.remove_states.len()
            invariant
                i <= self.remove_states.len(),
                state_set@ == after_removes(self.removes().take(i as int), s1),
            decreases self.remove_states.len() - i,
        {
            assert(self.removes().take(i as int + 1).drop_last() =~= self.removes().take(i as int));
            state_set.remove(self.remove_states[i].as_str());
            i += 1;
        }
        assert(self.removes().take(i as int) =~= self.removes());
        let ghost s2 = state_set@;
        let mut i: usize = 0;
        while i < self.modify_states.len()
            invariant
                i <= self.modify_states.len(),
                state_set@ == after_modifications(self.mods().take(i as int), s2),
            decreases self.modify_states.len() - i,
        {
            assert(self.mods().take(i as int + 1).drop_last() =~= self.mods().take(i as int));
            let m = &self.modify_states[i];
            let current = match state_set.get(m.target_name()) {
                Some(d) => Some(*d),
                None => None,
            };
            match current {
                Some(d) => {
                    let nd = m.modify(d);
                    state_set.insert(State::new(m.target_name.clone(), nd));
                },
                None => {},
            }
            i += 1;
        }
        assert(self.mods().take(i as int) =~= self.mods());
    }
}

/// Accumulates an operation's parts, then freezes it.
pub struct OperationBuilder<F: Fn(StateData) -> StateData> {
    object: Operation<F>,
}

impl<F: Fn(StateData) -> StateData> OperationBuilder<F> {
    /// The operation built so far.
    pub closed spec fn building(&self) -> Operation<F> {
        self.object
    }

    pub fn new(name: String) -> (r: Self)
        ensures
            r.building().spec_name() == name@,
            r.building().prereqs() == Seq::<ConditionModel>::empty(),
            r.building().adds() == Seq::<(Seq<char>, StateData)>::empty(),
            r.building().removes() == Seq::<Seq<char>>::empty(),
            r.building().mods() == Seq::<Modification<F>>::empty(),
    {
        let r = Self {
            object: Operation {
                name,
                prerequisites: Vec::new(),
                add_states: Vec::new(),
                remove_states: Vec::new(),
                modify_states: Vec::new(),
            },
        };
        assert(r.building().prereqs() =~= Seq::<ConditionModel>::empty());
        assert(r.building().adds() =~= Seq::<(Seq<char>, StateData)>::empty());
        assert(r.building().removes() =~= Seq::<Seq<char>>::empty());
        r
    }

    pub fn insert_prerequisite(self, condition: ConditionImpl) -> (r: Self)
        ensures
            r.building().prereqs() == self.building().prereqs().push(condition.model()),
            r.building().spec_name() == self.building().spec_name(),
            r.building().adds() == self.building().adds(),
            r.building().removes() == self.building().removes(),
            r.building().mods() == self.building().mods(),
    {
        let ghost before = self.object.prerequisites@;
        let mut b = self;
        b.object.prerequisites.push(condition);
        assert(models(b.object.prerequisites@) =~= models(before).push(condition.model()));
        b
    }

    pub fn insert_add_state(self, add_state: State) -> (r: Self)
        ensures
            r.building().adds() == self.building().adds().push(add_state@),
            r.building().spec_name() == self.building().spec_name(),
            r.building().prereqs() == self.building().prereqs(),
            r.building().removes() == self.building().removes(),
            r.building().mods() == self.building().mods(),
    {
        let ghost before = self.object.add_states@;
        let mut b = self;
        b.object.add_states.push(add_state);
        assert(b.object.add_states@.map_values(|s: State| s@) =~= before.map_values(
            |s: State| s@,
        ).push(add_state@));
        b
    }

    pub fn insert_remove_state(self, remove_state: String) -> (r: Self)
        ensures
            r.building().removes() == self.building().removes().push(remove_state@),
            r.building().spec_name() == self.building().spec_name(),
            r.building().prereqs() == self.building().prereqs(),
            r.building().adds() == self.building().adds(),
            r.building().mods() == self.building().mods(),
    {
        let ghost before = self.object.remove_states@;
        let mut b = self;
        b.object.remove_states.push(remove_state);
        assert(b.object.remove_states@.map_values(|s: String| s@) =~= before.map_values(
            |s: String| s@,
        ).push(remove_state@));
        b
    }

    pub fn insert_modify_state(self, modify_state: Modification<F>) -> (r: Self)
        ensures
            r.building().mods() == self.building().mods().push(modify_state),
            r.building().spec_name() == self.building().spec_name(),
            r.building().prereqs() == self.building().prereqs(),
            r.building().adds() == self.building().adds(),
            r.building().removes() == self.building().removes(),
    {
        let mut b = self;
        b.object.modify_states.push(modify_state);
        b
    }

    pub fn build(self) -> (r: Operation<F>)
        ensures
            r == self.building(),
    {
        self.object
    }
}

} // verus!
