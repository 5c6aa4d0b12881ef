use std::cmp::Ordering;
use vstd::prelude::*;
use vstd::string::*;

use crate::keyed::{distinct_keys, keyed, lemma_keyed_at, lemma_keyed_push, lemma_keyed_update};
use crate::state::{data_cmp, same_text, StateData, StateSet};

verus! {

/// The six relational operators a comparison goal may use.
#[derive(Debug, Clone, Copy, PartialEq, Eq, Structural, Hash)]
pub enum CompareOperator {
    Equal,
    NotEqual,
    Greater,
    GreaterEqual,
    Less,
    LessEqual,
}

/// Whether `a` stands in relation `op` to `b`; values that cannot be ordered
/// satisfy no ordering relation.
pub open spec fn op_holds(op: CompareOperator, a: StateData, b: StateData) -> bool {
    match op {
        CompareOperator::Equal => a == b,
        CompareOperator::NotEqual => a != b,
        CompareOperator::Greater => data_cmp(a, b) == Some(Ordering::Greater),
        CompareOperator::GreaterEqual => data_cmp(a, b) == Some(Ordering::Greater) || data_cmp(a, b)
            == Some(Ordering::Equal),
        CompareOperator::Less => data_cmp(a, b) == Some(Ordering::Less),
        CompareOperator::LessEqual => data_cmp(a, b) == Some(Ordering::Less) || data_cmp(a, b)
            == Some(Ordering::Equal),
    }
}

/// The operator a token stands for.
pub open spec fn op_of_token(t: Seq<char>) -> Option<CompareOperator> {
    if t.len() == 1 {
        if t[0] == '>' {
            Some(CompareOperator::Greater)
        } else if t[0] == '<' {
            Some(CompareOperator::Less)
        } else {
            None
        }
    } else if t.len() == 2 && t[1] == '=' {
        if t[0] == '=' {
            Some(CompareOperator::Equal)
        } else if t[0] == '!' {
            Some(CompareOperator::NotEqual)
        } else if t[0] == '>' {
            Some(CompareOperator::GreaterEqual)
        } else if t[0] == '<' {
            Some(CompareOperator::LessEqual)
        } else {
            None
        }
    } else {
        None
    }
}

impl CompareOperator {
    /// Reads one of the tokens `==`, `!=`, `>`, `>=`, `<`, `<=`.
    pub fn try_from(value: &str) -> (r: Result<Self, ()>)
        ensures
            r == (match op_of_token(value@) {
                Some(op) => Ok::<CompareOperator, ()>(op),
                None => Err(()),
            }),
    {
        let n = value.unicode_len();
        if n == 1 {
            let c = value.get_char(0);
            if c == '>' {
                Ok(CompareOperator::Greater)
            } else if c == '<' {
                Ok(CompareOperator::Less)
            } else {
                Err(())
            }
        } else if n == 2 && value.get_char(1) == '=' {
            let c = value.get_char(0);
            if c == '=' {
                Ok(CompareOperator::Equal)
            } else if c == '!' {
                Ok(CompareOperator::NotEqual)
            } else if c == '>' {
                Ok(CompareOperator::GreaterEqual)
            } else if c == '<' {
                Ok(CompareOperator::LessEqual)
            } else {
                Err(())
            }
        } else {
            Err(())
        }
    }
}

/// What a goal says, over plain values.
pub enum ConditionModel {
    Contain(Seq<char>),
    NotContain(Seq<char>),
    /// Identity, fact compared, operator, value compared against.
    Compare(Seq<char>, Seq<char>, CompareOperator, StateData),
}

impl ConditionModel {
    /// The goal's identity.
    pub open spec fn name(self) -> Seq<char> {
        match self {
            ConditionModel::Contain(n) => n,
            ConditionModel::NotContain(n) => n,
            ConditionModel::Compare(id, _, _, _) => id,
        }
    }

    /// The fact the goal reads, which is also its protection key.
    pub open spec fn key(self) -> Seq<char> {
        match self {
            ConditionModel::Contain(n) => n,
            ConditionModel::NotContain(n) => n,
            ConditionModel::Compare(_, t, _, _) => t,
        }
    }

    /// The test the goal makes of a value found at its fact.
    pub open spec fn accepts(self, d: StateData) -> bool {
        match self {
            ConditionModel::Contain(_) => true,
            ConditionModel::NotContain(_) => false,
            ConditionModel::Compare(_, _, op, v) => op_holds(op, d, v),
        }
    }

    /// Whether the goal holds of a world.
    pub open spec fn holds(self, s: Map<Seq<char>, StateData>) -> bool {
        match self {
            ConditionModel::NotContain(n) => !s.contains_key(n),
            _ => s.contains_key(self.key()) && self.accepts(s[self.key()]),
        }
    }
}

/// Whether every goal of `gs` holds of `s`.
pub open spec fn holds_all(gs: Seq<ConditionModel>, s: Map<Seq<char>, StateData>) -> bool {
    forall|i: int| 0 <= i < gs.len() ==> #[trigger] gs[i].holds(s)
}

/// A goal or prerequisite: a predicate over a [`StateSet`].
pub trait Condition {
    spec fn model(&self) -> ConditionModel;

    /// Whether the predicate holds of the world.
    fn check(&self, state_set: &StateSet) -> (r: bool)
        ensures
            r == self.model().holds(state_set@),
    ;

    /// The test made of a value found at the fact read.
    fn check_data(&self, state_data: &StateData) -> (r: bool)
        ensures
            r == self.model().accepts(*state_data),
    ;

    fn name(&self) -> (r: &str)
        ensures
            r@ == self.model().name(),
    ;

    fn state_name(&self) -> (r: &str)
        ensures
            r@ == self.model().key(),
    ;
}

/// Holds when the fact is present, whatever its value.
#[derive(Debug)]
pub struct Contain {
    name: String,
}

/// Holds when the fact is absent.
#[derive(Debug)]
pub struct NotContain {
    name: String,
}

/// Holds when the fact is present and its value stands in a relation to a
/// given one.
#[derive(Debug)]
pub struct Compare {
    name: String,
    state_name: String,
    operator: CompareOperator,
    value: StateData,
}

impl Contain {
    pub fn new(name: String) -> (r: Self)
        ensures
            r.model() == ConditionModel::Contain(name@),
    {
        Self { name }
    }
}

impl Condition for Contain {
    closed spec fn model(&self) -> ConditionModel {
        ConditionModel::Contain(self.name@)
    }

    fn check(&self, state_set: &StateSet) -> (r: bool) {
        match state_set.get(self.name.as_str()) {
            Some(d) => self.check_data(d),
            None => false,
        }
    }

    fn check_data(&self, _state_data: &StateData) -> (r: bool) {
        true
    }

    fn name(&self) -> (r: &str) {
        self.name.as_str()
    }

    fn state_name(&self) -> (r: &str) {
        self.name.as_str()
    }
}

impl NotContain {
    pub fn new(name: String) -> (r: Self)
        ensures
            r.model() == ConditionModel::NotContain(name@),
    {
        Self { name }
    }
}

impl Condition for NotContain {
    closed spec fn model(&self) -> ConditionModel {
        ConditionModel::NotContain(self.name@)
    }

    fn check(&self, state_set: &StateSet) -> (r: bool) {
        state_set.get(self.name.as_str()).is_none()
    }

    fn check_data(&self, _state_data: &StateData) -> (r: bool) {
        false
    }

    fn name(&self) -> (r: &str) {
        self.name.as_str()
    }

    fn state_name(&self) -> (r: &str) {
        self.name.as_str()
    }
}

impl Compare {
    pub fn new(name: String, state_name: String, operator: CompareOperator, value: StateData) -> (r:
        Self)
        ensures
            r.model() == ConditionModel::Compare(name@, state_name@, operator, value),
    {
        Self { name, state_name, operator, value }
    }
}

impl Condition for Compare {
    closed spec fn model(&self) -> ConditionModel {
        ConditionModel::Compare(self.name@, self.state_name@, self.operator, self.value)
    }

    fn check(&self, state_set: &StateSet) -> (r: bool) {
        match state_set.get(self.state_name.as_str()) {
            Some(d) => self.check_data(d),
            None => false,
        }
    }

    fn check_data(&self, state_data: &StateData) -> (r: bool) {
        match self.operator {
            CompareOperator::Equal => *state_data == self.value,
            CompareOperator::NotEqual => *state_data != self.value,
            CompareOperator::Greater => matches!(state_data.partial_cmp(&self.value), Some(Ordering::Greater)),
            CompareOperator::GreaterEqual => matches!(
                state_data.partial_cmp(&self.value),
                Some(Ordering::Greater) | Some(Ordering::Equal)
            ),
            CompareOperator::Less => matches!(state_data.partial_cmp(&self.value), Some(Ordering::Less)),
            CompareOperator::LessEqual => matches!(
                state_data.partial_cmp(&self.value),
                Some(Ordering::Less) | Some(Ordering::Equal)
            ),
        }
    }

    fn name(&self) -> (r: &str) {
        self.name.as_str()
    }

    fn state_name(&self) -> (r: &str) {
        self.state_name.as_str()
    }
}

/// A goal of one of the three kinds.
#[derive(Debug)]
pub enum ConditionImpl {
    Contain(Contain),
    NotContain(NotContain),
    Compare(Compare),
}

impl From<Contain> for ConditionImpl {
    fn from(c: Contain) -> (r: Self) {
        ConditionImpl::Contain(c)
    }
}

impl vstd::std_specs::convert::FromSpecImpl<Contain> for ConditionImpl {
    open spec fn obeys_from_spec() -> bool {
        true
    }

    open spec fn from_spec(c: Contain) -> Self {
        ConditionImpl::Contain(c)
    }
}

impl From<NotContain> for ConditionImpl {
    fn from(c: NotContain) -> (r: Self) {
        ConditionImpl::NotContain(c)
    }
}

impl vstd::std_specs::convert::FromSpecImpl<NotContain> for ConditionImpl {
    open spec fn obeys_from_spec() -> bool {
        true
    }

    open spec fn from_spec(c: NotContain) -> Self {
        ConditionImpl::NotContain(c)
    }
}

impl From<Compare> for ConditionImpl {
    fn from(c: Compare) -> (r: Self) {
        ConditionImpl::Compare(c)
    }
}

impl vstd::std_specs::convert::FromSpecImpl<Compare> for ConditionImpl {
    open spec fn obeys_from_spec() -> bool {
        true
    }

    open spec fn from_spec(c: Compare) -> Self {
        ConditionImpl::Compare(c)
    }
}

impl Clone for ConditionImpl {
    fn clone(&self) -> (r: Self)
        ensures
            r == *self,
    {
        match self {
            ConditionImpl::Contain(c) => ConditionImpl::Contain(Contain { name: c.name.clone() }),
            ConditionImpl::NotContain(c) => ConditionImpl::NotContain(
                NotContain { name: c.name.clone() },
            ),
            ConditionImpl::Compare(c) => ConditionImpl::Compare(
                Compare {
                    name: c.name.clone(),
                    state_name: c.state_name.clone(),
                    operator: c.operator,
                    value: c.value,
                },
            ),
        }
    }
}

impl PartialEq for ConditionImpl {
    fn eq(&self, other: &Self) -> (r: bool)
        ensures
            r == (self.model() == other.model()),
    {
        match (self, other) {
            (ConditionImpl::Contain(a), ConditionImpl::Contain(b)) => a.name == b.name,
            (ConditionImpl::NotContain(a), ConditionImpl::NotContain(b)) => a.name == b.name,
            (ConditionImpl::Compare(a), ConditionImpl::Compare(b)) => a.name == b.name
                && a.state_name == b.state_name && a.operator == b.operator && a.value == b.value,
            _ => false,
        }
    }
}

impl vstd::std_specs::cmp::PartialEqSpecImpl for ConditionImpl {
    open spec fn obeys_eq_spec() -> bool {
        true
    }

    open spec fn eq_spec(&self, other: &ConditionImpl) -> bool {
        self.model() == other.model()
    }
}

impl Condition for ConditionImpl {
    open spec fn model(&self) -> ConditionModel {
        match self {
            ConditionImpl::Contain(c) => c.model(),
            ConditionImpl::NotContain(c) => c.model(),
            ConditionImpl::Compare(c) => c.model(),
        }
    }

    fn check(&self, state_set: &StateSet) -> (r: bool) {
        match self {
            ConditionImpl::Contain(c) => c.check(state_set),
            ConditionImpl::NotContain(c) => c.check(state_set),
            ConditionImpl::Compare(c) => c.check(state_set),
        }
    }

    fn check_data(&self, state_data: &StateData) -> (r: bool) {
        match self {
            ConditionImpl::Contain(c) => c.check_data(state_data),
            ConditionImpl::NotContain(c) => c.check_data(state_data),
            ConditionImpl::Compare(c) => c.check_data(state_data),
        }
    }

    fn name(&self) -> (r: &str) {
        match self {
            ConditionImpl::Contain(c) => c.name(),
            ConditionImpl::NotContain(c) => c.name(),
            ConditionImpl::Compare(c) => c.name(),
        }
    }

    fn state_name(&self) -> (r: &str) {
        match self {
            ConditionImpl::Contain(c) => c.state_name(),
            ConditionImpl::NotContain(c) => c.state_name(),
            ConditionImpl::Compare(c) => c.state_name(),
        }
    }
}

impl ConditionImpl {
    /// Whether this is a presence goal.
    pub(crate) fn is_presence(&self) -> (r: bool)
        ensures
            r == self.model() is Contain,
    {
        match self {
            ConditionImpl::Contain(_) => true,
            _ => false,
        }
    }

    /// Whether this is an absence goal.
    pub(crate) fn is_absence(&self) -> (r: bool)
        ensures
            r == self.model() is NotContain,
    {
        match self {
            ConditionImpl::NotContain(_) => true,
            _ => false,
        }
    }
}

/// The models of a list of goals.
pub open spec fn models(s: Seq<ConditionImpl>) -> Seq<ConditionModel> {
    s.map_values(|c: ConditionImpl| c.model())
}

/// `gs` without the goals equal to `c`.
pub open spec fn without(gs: Seq<ConditionModel>, c: ConditionModel) -> Seq<ConditionModel> {
    gs.filter(|x: ConditionModel| x != c)
}

/// `p` with `c` appended to the goals protected under the fact it reads.
pub open spec fn protect(
    p: Map<Seq<char>, Seq<ConditionModel>>,
    c: ConditionModel,
) -> Map<Seq<char>, Seq<ConditionModel>> {
    p.insert(
        c.key(),
        (if p.contains_key(c.key()) {
            p[c.key()]
        } else {
            Seq::<ConditionModel>::empty()
        }).push(c),
    )
}

/// `p` with the goals equal to `c` dropped from those under the fact it reads.
pub open spec fn unprotect(
    p: Map<Seq<char>, Seq<ConditionModel>>,
    c: ConditionModel,
) -> Map<Seq<char>, Seq<ConditionModel>> {
    if p.contains_key(c.key()) {
        p.insert(c.key(), without(p[c.key()], c))
    } else {
        p
    }
}

/// The goals currently protected from regression, grouped by the fact they
/// read.
#[derive(Debug)]
pub struct ConditionSet {
    conditions: Vec<(String, Vec<ConditionImpl>)>,
}

pub closed spec fn groups_of(s: Seq<(String, Vec<ConditionImpl>)>) -> Seq<(Seq<char>, Seq<ConditionModel>)> {
    s.map_values(|p: (String, Vec<ConditionImpl>)| (p.0@, models(p.1@)))
}

impl View for ConditionSet {
    type V = Map<Seq<char>, Seq<ConditionModel>>;

    closed spec fn view(&self) -> Map<Seq<char>, Seq<ConditionModel>> {
        keyed(groups_of(self.conditions@))
    }
}

/// The position of the group keyed `name`, if there is one.
fn find_group(conditions: &Vec<(String, Vec<ConditionImpl>)>, name: &str) -> (r: Option<usize>)
    ensures
        match r {
            Some(i) => i < conditions.len() && groups_of(conditions@)[i as int].0 == name@,
            None => !keyed(groups_of(conditions@)).contains_key(name@),
        },
{
    let mut i: usize = 0;
    while i < conditions.len()
        invariant
            i <= conditions.len(),
            forall|j: int| 0 <= j < i ==> groups_of(conditions@)[j].0 != name@,
        decreases conditions.len() - i,
    {
        if same_text(conditions[i].0.as_str(), name) {
            return Some(i);
        }
        i += 1;
    }
    None
}

impl ConditionSet {
    #[verifier::type_invariant]
    spec fn inv(&self) -> bool {
        distinct_keys(groups_of(self.conditions@))
    }

    pub fn new() -> (r: Self)
        ensures
            r@ == Map::<Seq<char>, Seq<ConditionModel>>::empty(),
    {
        let r = Self { conditions: Vec::new() };
        assert(r@ =~= Map::<Seq<char>, Seq<ConditionModel>>::empty());
        r
    }

    /// The goals protected under `name`, if that key was ever used.
    pub fn get(&self, name: &str) -> (r: Option<&Vec<ConditionImpl>>)
        ensures
            match r {
                Some(v) => self@.contains_key(name@) && models(v@) == self@[name@],
                None => !self@.contains_key(name@),
            },
    {
        proof {
            use_type_invariant(self);
        }
        match find_group(&self.conditions, name) {
            Some(i) => {
                proof {
                    lemma_keyed_at(groups_of(self.conditions@), i as int);
                }
                Some(&self.conditions[i].1)
            },
            None => None,
        }
    }

    /// Appends `condition` to the goals protected under `name`.
    pub fn insert(&mut self, name: &str, condition: ConditionImpl)
        ensures
            final(self)@ == old(self)@.insert(
                name@,
                (if old(self)@.contains_key(name@) {
                    old(self)@[name@]
                } else {
                    Seq::<ConditionModel>::empty()
                }).push(condition.model()),
            ),
    {
        proof {
            use_type_invariant(&*self);
        }
        let ghost e = groups_of(self.conditions@);
        let ghost m = condition.model();
        let mut conditions: Vec<(String, Vec<ConditionImpl>)> = Vec::new();
        std::mem::swap(&mut self.conditions, &mut conditions);
        match find_group(&conditions, name) {
            Some(i) => {
                proof {
                    lemma_keyed_at(e, i as int);
                    lemma_keyed_update(e, i as int, e[i as int].1.push(m));
                }
                let (key, mut list) = conditions.remove(i);
                list.push(condition);
                assert(models(list@) =~= e[i as int].1.push(m));
                conditions.insert(i, (key, list));
                assert(groups_of(conditions@) =~= e.update(i as int, (e[i as int].0, e[i as int].1.push(m))));
            },
            None => {
                proof {
                    lemma_keyed_push(e, name@, seq![m]);
                }
                let mut list: Vec<ConditionImpl> = Vec::new();
                list.push(condition);
                conditions.push((name.to_owned(), list));
                assert(models(list@) =~= Seq::<ConditionModel>::empty().push(m));
                assert(groups_of(conditions@) =~= e.push((name@, seq![m])));
            },
        }
        self.conditions = conditions;
    }

    /// Drops every goal equal to `condition` from those protected under `name`.
    pub fn remove(&mut self, name: &str, condition: &ConditionImpl)
        ensures
            final(self)@ == (if old(self)@.contains_key(name@) {
                old(self)@.insert(name@, without(old(self)@[name@], condition.model()))
            } else {
                old(self)@
            }),
    {
        proof {
            use_type_invariant(&*self);
        }
        let ghost e = groups_of(self.conditions@);
        let ghost pred = |x: ConditionModel| x != condition.model();
        match find_group(&self.conditions, name) {
            Some(i) => {
                let mut conditions: Vec<(String, Vec<ConditionImpl>)> = Vec::new();
                std::mem::swap(&mut self.conditions, &mut conditions);
                let (key, list) = conditions.remove(i);
                let ghost old_models = models(list@);
                proof {
                    assert(old_models == e[i as int].1);
                    reveal(Seq::filter);
                }
                let mut kept: Vec<ConditionImpl> = Vec::new();
                let mut j: usize = 0;
                while j < list.len()
                    invariant
                        j <= list.len(),
                        old_models == models(list@),
                        pred == (|x: ConditionModel| x != condition.model()),
                        models(kept@) == old_models.take(j as int).filter(pred),
                    decreases list.len() - j,
                {
                    proof {
                        reveal(Seq::filter);
                        assert(old_models.take(j as int + 1).drop_last() =~= old_models.take(j as int));
                    }
                    let keep = !list[j].eq(condition);
                    proof {
                        let t = old_models.take(j as int + 1);
                        assert(t.last() == list@[j as int].model());
                        assert(pred(t.last()) == keep);
                        assert(t.filter(pred) == (if pred(t.last()) {
                            t.drop_last().filter(pred).push(t.last())
                        } else {
                            t.drop_last().filter(pred)
                        }));
                    }
                    if keep {
                        kept.push(list[j].clone());
                        assert(models(kept@) =~= old_models.take(j as int).filter(pred).push(old_models[j as int]));
                    }
                    j += 1;
                }
                assert(old_models.take(list.len() as int) =~= old_models);
                proof {
                    lemma_keyed_at(e, i as int);
                    lemma_keyed_update(e, i as int, old_models.filter(pred));
                }
                conditions.insert(i, (key, kept));
                assert(groups_of(conditions@) =~= e.update(i as int, (e[i as int].0, old_models.filter(pred))));
                self.conditions = conditions;
            },
            None => {
            },
        }
    }
}

} // verus!
