use vstd::prelude::*;

use crate::condition::{
    holds_all, models, protect, unprotect, Condition, ConditionImpl, ConditionModel, ConditionSet,
};
use crate::operation::Operation;
use crate::state::{StateData, StateSet};

verus! {

/// The world after running the operations of `plan` in order from `s`.
pub open spec fn run_plan<F: Fn(StateData) -> StateData>(
    plan: Seq<Operation<F>>,
    s: Map<Seq<char>, StateData>,
) -> Map<Seq<char>, StateData>
    decreases plan.len(),
{
    if plan.len() == 0 {
        s
    } else {
        plan.last().effect(run_plan(plan.drop_last(), s))
    }
}

/// Running two plans one after the other is running their concatenation.
pub proof fn lemma_run_plan_append<F: Fn(StateData) -> StateData>(
    a: Seq<Operation<F>>,
    b: Seq<Operation<F>>,
    s: Map<Seq<char>, StateData>,
)
    ensures
        run_plan(a + b, s) == run_plan(b, run_plan(a, s)),
    decreases b.len(),
{
    if b.len() == 0 {
        assert(a + b =~= a);
    } else {
        lemma_run_plan_append(a, b.drop_last(), s);
        assert((a + b).drop_last() =~= a + b.drop_last());
        assert((a + b).last() == b.last());
    }
}

/// Whether each step of `plan`, run from `s`, finds its prerequisites
/// holding when it is applied.
pub open spec fn steps_enabled<F: Fn(StateData) -> StateData>(
    plan: Seq<Operation<F>>,
    s: Map<Seq<char>, StateData>,
) -> bool {
    forall|k: int|
        0 <= k < plan.len() ==> holds_all(#[trigger] plan[k].prereqs(), run_plan(plan.take(k), s))
}

/// Two plans whose steps are enabled, the second from where the first ends,
/// make a plan whose steps are enabled.
pub proof fn lemma_steps_append<F: Fn(StateData) -> StateData>(
    a: Seq<Operation<F>>,
    b: Seq<Operation<F>>,
    s: Map<Seq<char>, StateData>,
)
    requires
        steps_enabled(a, s),
        steps_enabled(b, run_plan(a, s)),
    ensures
        steps_enabled(a + b, s),
{
    let ab = a + b;
    assert forall|k: int| 0 <= k < ab.len() implies holds_all(
        #[trigger] ab[k].prereqs(),
        run_plan(ab.take(k), s),
    ) by {
        if k < a.len() {
            assert(ab.take(k) =~= a.take(k));
            assert(ab[k] == a[k]);
        } else {
            let j = k - a.len();
            assert(ab.take(k) =~= a + b.take(j));
            assert(ab[k] == b[j]);
            lemma_run_plan_append(a, b.take(j), s);
        }
    }
}

/// The prerequisites of a list of operations, one after the other.
pub open spec fn prerequisite_pool<F: Fn(StateData) -> StateData>(ops: Seq<Operation<F>>) -> Seq<
    ConditionModel,
>
    decreases ops.len(),
{
    if ops.len() == 0 {
        Seq::empty()
    } else {
        prerequisite_pool(ops.drop_last()) + ops.last().prereqs()
    }
}

/// Every prerequisite of a listed operation is in the pool.
pub proof fn lemma_pool_contains<F: Fn(StateData) -> StateData>(ops: Seq<Operation<F>>, k: int, j: int)
    requires
        0 <= k < ops.len(),
        0 <= j < ops[k].prereqs().len(),
    ensures
        prerequisite_pool(ops).contains(ops[k].prereqs()[j]),
    decreases ops.len(),
{
    let pool = prerequisite_pool(ops);
    let front = prerequisite_pool(ops.drop_last());
    if k == ops.len() - 1 {
        assert(pool[front.len() + j] == ops[k].prereqs()[j]);
    } else {
        lemma_pool_contains(ops.drop_last(), k, j);
        let w = choose|w: int| 0 <= w < front.len() && front[w] == ops[k].prereqs()[j];
        assert(pool[w] == front[w]);
    }
}

/// How many entries of `u` are not on the stack `st`; pushing a goal of
/// `u` that is not yet there lowers it.
pub open spec fn unstacked(u: Seq<ConditionModel>, st: Seq<ConditionModel>) -> nat
    decreases u.len(),
{
    if u.len() == 0 {
        0
    } else {
        unstacked(u.drop_last(), st) + if st.contains(u.last()) {
            0nat
        } else {
            1nat
        }
    }
}

pub proof fn lemma_unstacked_push(u: Seq<ConditionModel>, st: Seq<ConditionModel>, g: ConditionModel)
    requires
        !st.contains(g),
    ensures
        unstacked(u, st.push(g)) <= unstacked(u, st),
        u.contains(g) ==> unstacked(u, st.push(g)) < unstacked(u, st),
    decreases u.len(),
{
    if u.len() > 0 {
        lemma_unstacked_push(u.drop_last(), st, g);
        let x = u.last();
        assert(st.push(g).contains(x) <==> (st.contains(x) || x == g)) by {
            if st.push(g).contains(x) {
                let w = choose|w: int| 0 <= w < st.len() + 1 && st.push(g)[w] == x;
                if w < st.len() {
                    assert(st[w] == x);
                }
            }
            if st.contains(x) {
                let w = choose|w: int| 0 <= w < st.len() && st[w] == x;
                assert(st.push(g)[w] == x);
            }
            if x == g {
                assert(st.push(g)[st.len() as int] == x);
            }
        }
        if u.contains(g) && x != g {
            let w = choose|w: int| 0 <= w < u.len() && u[w] == g;
            assert(u.drop_last()[w] == g);
        }
    }
}

/// `p` with each goal of the first `n` of `gs` that holds of `s` protected,
/// in order.
pub open spec fn protect_met(
    gs: Seq<ConditionModel>,
    n: int,
    s: Map<Seq<char>, StateData>,
    p: Map<Seq<char>, Seq<ConditionModel>>,
) -> Map<Seq<char>, Seq<ConditionModel>>
    decreases n,
{
    if n <= 0 {
        p
    } else {
        let q = protect_met(gs, n - 1, s, p);
        if gs[n - 1].holds(s) {
            protect(q, gs[n - 1])
        } else {
            q
        }
    }
}

/// The goals among the first `n` of `gs` that do not hold of `s`, in order.
pub open spec fn unmet(gs: Seq<ConditionModel>, n: int, s: Map<Seq<char>, StateData>) -> Seq<
    ConditionModel,
>
    decreases n,
{
    if n <= 0 {
        Seq::empty()
    } else {
        let u = unmet(gs, n - 1, s);
        if gs[n - 1].holds(s) {
            u
        } else {
            u.push(gs[n - 1])
        }
    }
}

/// `p` with the protections of the first `n` goals of `gs` withdrawn.
pub open spec fn unprotect_all(
    gs: Seq<ConditionModel>,
    n: int,
    p: Map<Seq<char>, Seq<ConditionModel>>,
) -> Map<Seq<char>, Seq<ConditionModel>>
    decreases n,
{
    if n <= 0 {
        p
    } else {
        unprotect(unprotect_all(gs, n - 1, p), gs[n - 1])
    }
}

/// The outcome of a search step with `plan` run before it.
pub open spec fn after_plan(
    plan: Seq<usize>,
    r: (Option<(Map<Seq<char>, StateData>, Seq<usize>)>, Map<Seq<char>, Seq<ConditionModel>>),
) -> (Option<(Map<Seq<char>, StateData>, Seq<usize>)>, Map<Seq<char>, Seq<ConditionModel>>) {
    (
        match r.0 {
            Some((s, rest)) => Some((s, plan + rest)),
            None => None,
        },
        r.1,
    )
}

/// The world and plan of a search step, as plain values.
pub open spec fn outcome(r: Option<(StateSet, Vec<usize>)>) -> Option<
    (Map<Seq<char>, StateData>, Seq<usize>),
> {
    match r {
        Some((st, plan)) => Some((st@, plan@)),
        None => None,
    }
}

/// Whether a goal equal to `goal` is on `stack`.
fn stack_has(stack: &Vec<ConditionImpl>, goal: &ConditionImpl) -> (r: bool)
    ensures
        r == models(stack@).contains(goal.model()),
{
    let mut i: usize = 0;
    while i < stack.len()
        invariant
            i <= stack.len(),
            forall|j: int| 0 <= j < i ==> #[trigger] models(stack@)[j] != goal.model(),
        decreases stack.len() - i,
    {
        if stack[i].eq(goal) {
            assert(models(stack@)[i as int] == goal.model());
            return true;
        }
        i += 1;
    }
    false
}

/// Searches depth-first for a plan that reaches every goal from a starting
/// world, using registered operations.
pub struct GeneralProblemSolver<F: Fn(StateData) -> StateData> {
    operations: Vec<Operation<F>>,
    goals: Vec<ConditionImpl>,
    states: StateSet,
}

impl<F: Fn(StateData) -> StateData> GeneralProblemSolver<F> {
    pub closed spec fn spec_operations(&self) -> Seq<Operation<F>> {
        self.operations@
    }

    pub closed spec fn spec_goals(&self) -> Seq<ConditionModel> {
        models(self.goals@)
    }

    pub closed spec fn spec_states(&self) -> Map<Seq<char>, StateData> {
        self.states@
    }

    /// Every goal the search may pursue: the top goals and every
    /// prerequisite of a registered operation.
    pub open spec fn universe(&self) -> Seq<ConditionModel> {
        self.spec_goals() + prerequisite_pool(self.spec_operations())
    }

    /// The operations at positions `idx`.
    pub open spec fn plan_ops(&self, idx: Seq<usize>) -> Seq<Operation<F>> {
        idx.map_values(|i: usize| self.spec_operations()[i as int])
    }

    /// Whether every position of `idx` names a registered operation.
    pub open spec fn valid_plan(&self, idx: Seq<usize>) -> bool {
        forall|k: int| 0 <= k < idx.len() ==> #[trigger] idx[k] < self.spec_operations().len()
    }

    /// Whether the operation at `i` is a candidate for `goal`: it aims at the
    /// goal's fact and would not undo a protected goal.
    pub open spec fn candidate(
        &self,
        i: int,
        goal: ConditionModel,
        s: Map<Seq<char>, StateData>,
        p: Map<Seq<char>, Seq<ConditionModel>>,
    ) -> bool {
        self.spec_operations()[i].produces(goal) && !self.spec_operations()[i].interferes(s, p)
    }

    /// The candidates for `goal` among the first `n` operations, in
    /// registration order.
    pub open spec fn candidates_upto(
        &self,
        n: int,
        goal: ConditionModel,
        s: Map<Seq<char>, StateData>,
        p: Map<Seq<char>, Seq<ConditionModel>>,
    ) -> Seq<usize>
        decreases n,
    {
        if n <= 0 {
            Seq::empty()
        } else {
            let c = self.candidates_upto(n - 1, goal, s, p);
            if self.candidate(n - 1, goal, s, p) {
                c.push((n - 1) as usize)
            } else {
                c
            }
        }
    }

    /// The candidates for `goal` among all operations, in registration order.
    pub open spec fn candidates(
        &self,
        goal: ConditionModel,
        s: Map<Seq<char>, StateData>,
        p: Map<Seq<char>, Seq<ConditionModel>>,
    ) -> Seq<usize> {
        self.candidates_upto(self.spec_operations().len() as int, goal, s, p)
    }

    /// The search for all of `gs` from world `s`, with goal stack `st` and
    /// protected goals `p`: its outcome, and the protected goals after it.
    /// Goals that already hold are protected first; the others are reached
    /// one by one, each protected once reached; all must hold at the end,
    /// and on success this step's protections are withdrawn.
    pub open spec fn search_all(
        &self,
        gs: Seq<ConditionModel>,
        s: Map<Seq<char>, StateData>,
        st: Seq<ConditionModel>,
        p: Map<Seq<char>, Seq<ConditionModel>>,
    ) -> (Option<(Map<Seq<char>, StateData>, Seq<usize>)>, Map<Seq<char>, Seq<ConditionModel>>)
        decreases unstacked(self.universe(), st), 4int, 0int,
    {
        if holds_all(gs, s) {
            (Some((s, Seq::empty())), p)
        } else {
            let r = self.achieve_from(
                unmet(gs, gs.len() as int, s),
                0,
                s,
                st,
                protect_met(gs, gs.len() as int, s, p),
            );
            match r.0 {
                Some((s2, plan)) => if holds_all(gs, s2) {
                    (Some((s2, plan)), unprotect_all(gs, gs.len() as int, r.1))
                } else {
                    (None, r.1)
                },
                None => (None, r.1),
            }
        }
    }

    /// Reaches the goals `us[i..]` in order, protecting each once reached.
    pub open spec fn achieve_from(
        &self,
        us: Seq<ConditionModel>,
        i: int,
        s: Map<Seq<char>, StateData>,
        st: Seq<ConditionModel>,
        p: Map<Seq<char>, Seq<ConditionModel>>,
    ) -> (Option<(Map<Seq<char>, StateData>, Seq<usize>)>, Map<Seq<char>, Seq<ConditionModel>>)
        decreases unstacked(self.universe(), st), 3int, us.len() - i,
    {
        if i < 0 || i >= us.len() {
            (Some((s, Seq::empty())), p)
        } else {
            let r1 = self.search_one(us[i], s, st, p);
            match r1.0 {
                Some((s1, plan1)) => after_plan(
                    plan1,
                    self.achieve_from(us, i + 1, s1, st, protect(r1.1, us[i])),
                ),
                None => (None, r1.1),
            }
        }
    }

    /// The search for one goal: nothing to do if it holds, failure if it is
    /// already being pursued, else the first candidate that succeeds. (A goal
    /// outside [`Self::universe`], which the search never meets, fails.)
    pub open spec fn search_one(
        &self,
        g: ConditionModel,
        s: Map<Seq<char>, StateData>,
        st: Seq<ConditionModel>,
        p: Map<Seq<char>, Seq<ConditionModel>>,
    ) -> (Option<(Map<Seq<char>, StateData>, Seq<usize>)>, Map<Seq<char>, Seq<ConditionModel>>)
        decreases unstacked(self.universe(), st), 2int, 0int,
    {
        if g.holds(s) {
            (Some((s, Seq::empty())), p)
        } else if st.contains(g) || !self.universe().contains(g) {
            (None, p)
        } else {
            proof {
                lemma_unstacked_push(self.universe(), st, g);
            }
            self.try_from(self.candidates(g, s, p), 0, s, st.push(g), p)
        }
    }

    /// Tries the candidates `cs[k..]` in order until one succeeds.
    pub open spec fn try_from(
        &self,
        cs: Seq<usize>,
        k: int,
        s: Map<Seq<char>, StateData>,
        st: Seq<ConditionModel>,
        p: Map<Seq<char>, Seq<ConditionModel>>,
    ) -> (Option<(Map<Seq<char>, StateData>, Seq<usize>)>, Map<Seq<char>, Seq<ConditionModel>>)
        decreases unstacked(self.universe(), st), 6int, cs.len() - k,
    {
        if k < 0 || k >= cs.len() {
            (None, p)
        } else {
            let r = self.search_op(cs[k], s, st, p);
            if r.0 is Some {
                r
            } else {
                self.try_from(cs, k + 1, s, st, r.1)
            }
        }
    }

    /// Meets the prerequisites of the operation at `i`, then applies it.
    pub open spec fn search_op(
        &self,
        i: usize,
        s: Map<Seq<char>, StateData>,
        st: Seq<ConditionModel>,
        p: Map<Seq<char>, Seq<ConditionModel>>,
    ) -> (Option<(Map<Seq<char>, StateData>, Seq<usize>)>, Map<Seq<char>, Seq<ConditionModel>>)
        decreases unstacked(self.universe(), st), 5int, 0int,
    {
        if i >= self.spec_operations().len() {
            (None, p)
        } else {
            let r = self.search_all(self.spec_operations()[i as int].prereqs(), s, st, p);
            (
                match r.0 {
                    Some((s1, plan)) => Some(
                        (self.spec_operations()[i as int].effect(s1), plan.push(i)),
                    ),
                    None => None,
                },
                r.1,
            )
        }
    }

    /// The plan the search finds from the configured world, protecting
    /// nothing at first and with an empty goal stack.
    pub open spec fn planned(&self) -> Option<Seq<usize>> {
        match self.search_all(self.spec_goals(), self.spec_states(), Seq::empty(), Map::empty()).0 {
            Some((_, plan)) => Some(plan),
            None => None,
        }
    }

    /// When every goal already holds of the configured world, the plan
    /// found is empty.
    pub proof fn lemma_already_satisfied(&self)
        requires
            holds_all(self.spec_goals(), self.spec_states()),
        ensures
            self.planned() == Some(Seq::<usize>::empty()),
    {
    }

    /// A goal that does not hold and is already on the goal stack, that is,
    /// a goal reached again while pursuing itself, fails at once rather than
    /// being pursued again.
    pub proof fn lemma_cycle_guard(
        &self,
        g: ConditionModel,
        s: Map<Seq<char>, StateData>,
        st: Seq<ConditionModel>,
        p: Map<Seq<char>, Seq<ConditionModel>>,
    )
        requires
            !g.holds(s),
            st.contains(g),
        ensures
            self.search_one(g, s, st, p) == (
                None::<(Map<Seq<char>, StateData>, Seq<usize>)>,
                p,
            ),
    {
    }

    proof fn lemma_prereqs_in_universe(&self, i: int)
        requires
            0 <= i < self.operations@.len(),
        ensures
            forall|j: int|
                0 <= j < self.operations@[i].prereqs().len() ==> self.universe().contains(
                    #[trigger] self.operations@[i].prereqs()[j],
                ),
    {
        assert forall|j: int| 0 <= j < self.operations@[i].prereqs().len() implies self.universe().contains(
            #[trigger] self.operations@[i].prereqs()[j],
        ) by {
            lemma_pool_contains(self.operations@, i, j);
            let pool = prerequisite_pool(self.operations@);
            let w = choose|w: int| 0 <= w < pool.len() && pool[w] == self.operations@[i].prereqs()[j];
            assert(self.universe()[models(self.goals@).len() + w] == pool[w]);
        }
    }

    proof fn lemma_goals_in_universe(&self)
        ensures
            forall|j: int|
                0 <= j < self.goals@.len() ==> self.universe().contains(#[trigger] models(self.goals@)[j]),
    {
        assert forall|j: int| 0 <= j < self.goals@.len() implies self.universe().contains(
            #[trigger] models(self.goals@)[j],
        ) by {
            assert(self.universe()[j] == models(self.goals@)[j]);
        }
    }

    /// Positions of the candidates for `goal`.
    fn candidate_indices(
        &self,
        goal: &ConditionImpl,
        current_states: &StateSet,
        protected_goals: &ConditionSet,
    ) -> (r: Vec<usize>)
        ensures
            r@ == self.candidates(goal.model(), current_states@, protected_goals@),
            forall|k: int| 0 <= k < r@.len() ==> #[trigger] r@[k] < self.operations@.len(),
    {
        let mut r: Vec<usize> = Vec::new();
        let mut i: usize = 0;
        while i < self.operations.len()
            invariant
                i <= self.operations.len(),
                r@ == self.candidates_upto(i as int, goal.model(), current_states@, protected_goals@),
                forall|k: int| 0 <= k < r@.len() ==> #[trigger] r@[k] < i,
            decreases self.operations.len() - i,
        {
            let op = &self.operations[i];
            if op.achieves(goal) && !op.has_affect(current_states, protected_goals) {
                r.push(i);
            }
            i += 1;
        }
        r
    }

    /// The operations that could achieve `goal` without undoing a protected
    /// goal, in registration order.
    pub fn find_valid_operations(
        &self,
        goal: &ConditionImpl,
        current_states: &StateSet,
        protected_goals: &ConditionSet,
    ) -> (r: Vec<&Operation<F>>)
        ensures
            ({
                let c = self.candidates(goal.model(), current_states@, protected_goals@);
                &&& r@.len() == c.len()
                &&& forall|k: int|
                    0 <= k < c.len() ==> #[trigger] c[k] < self.spec_operations().len() && *r@[k]
                        == self.spec_operations()[c[k] as int]
            }),
            r@.map_values(|o: &Operation<F>| *o) == self.plan_ops(
                self.candidates(goal.model(), current_states@, protected_goals@),
            ),
    {
        let idx = self.candidate_indices(goal, current_states, protected_goals);
        let r = self.operations_at(&idx);
        assert(r@.map_values(|o: &Operation<F>| *o).len() == r@.len());
        assert(self.plan_ops(idx@).len() == idx@.len());
        assert forall|k: int| 0 <= k < idx@.len() implies #[trigger] idx@[k] < self.spec_operations().len()
            && *r@[k] == self.spec_operations()[idx@[k] as int] by {
            assert(r@.map_values(|o: &Operation<F>| *o)[k] == self.plan_ops(idx@)[k]);
        }
        assert(r@.map_values(|o: &Operation<F>| *o).len() == r@.len());
        r
    }

    /// The operations at the positions `idx`.
    fn operations_at(&self, idx: &Vec<usize>) -> (r: Vec<&Operation<F>>)
        requires
            self.valid_plan(idx@),
        ensures
            r@.map_values(|o: &Operation<F>| *o) == self.plan_ops(idx@),
    {
        let mut r: Vec<&Operation<F>> = Vec::new();
        let mut k: usize = 0;
        while k < idx.len()
            invariant
                k <= idx.len(),
                self.valid_plan(idx@),
                r@.map_values(|o: &Operation<F>| *o) == self.plan_ops(idx@.take(k as int)),
            decreases idx.len() - k,
        {
            assert(idx@[k as int] < self.operations@.len());
            r.push(&self.operations[idx[k]]);
            assert(self.plan_ops(idx@.take(k as int + 1)) =~= self.plan_ops(idx@.take(k as int)).push(self.operations@[idx@[k as int] as int]));
            assert(r@.map_values(|o: &Operation<F>| *o) =~= self.plan_ops(idx@.take(k as int + 1)));
            k += 1;
        }
        assert(idx@.take(k as int) =~= idx@);
        r
    }

    /// Achieves every goal of `goals` from `current_states`, protecting each
    /// one once it holds; hands back the world reached and the plan.
    fn solve_all(
        &self,
        goals: &Vec<ConditionImpl>,
        current_states: &StateSet,
        goal_stack: &mut Vec<ConditionImpl>,
        protected_goals: &mut ConditionSet,
    ) -> (r: Option<(StateSet, Vec<usize>)>)
        requires
            forall|k: int| 0 <= k < goals.len() ==> self.universe().contains(#[trigger] models(goals@)[k]),
        ensures
            final(goal_stack)@ == old(goal_stack)@,
            (outcome(r), final(protected_goals)@) == self.search_all(
                models(goals@),
                current_states@,
                models(old(goal_stack)@),
                old(protected_goals)@,
            ),
            match r {
                Some((st, plan)) => {
                    &&& self.valid_plan(plan@)
                    &&& st@ == run_plan(self.plan_ops(plan@), current_states@)
                    &&& steps_enabled(self.plan_ops(plan@), current_states@)
                    &&& holds_all(models(goals@), st@)
                },
                None => true,
            },
        decreases unstacked(self.universe(), models(old(goal_stack)@)), 2nat,
    {
        let ghost gs = models(goals@);
        let ghost s0 = current_states@;
        let ghost stk = models(goal_stack@);
        let ghost p0 = protected_goals@;
        if current_states.has_reached(goals) {
            assert(self.plan_ops(Seq::<usize>::empty()) =~= Seq::<Operation<F>>::empty());
            return Some((current_states.clone(), Vec::new()));
        }
        let ghost stack0 = goal_stack@;
        let mut unachieved: Vec<ConditionImpl> = Vec::new();
        let mut i: usize = 0;
        while i < goals.len()
            invariant
                i <= goals.len(),
                gs == models(goals@),
                s0 == current_states@,
                forall|k: int| 0 <= k < goals.len() ==> self.universe().contains(#[trigger] models(goals@)[k]),
                forall|k: int| 0 <= k < unachieved.len() ==> self.universe().contains(#[trigger] models(unachieved@)[k]),
                protected_goals@ == protect_met(gs, i as int, s0, p0),
                models(unachieved@) == unmet(gs, i as int, s0),
            decreases goals.len() - i,
        {
            let goal = &goals[i];
            assert(gs[i as int] == goal.model());
            if goal.check(current_states) {
                protected_goals.insert(goal.state_name(), goal.clone());
            } else {
                let ghost before = unachieved@;
                unachieved.push(goal.clone());
                assert(models(unachieved@) =~= models(before).push(goal.model()));
            }
            i += 1;
        }
        let ghost us = models(unachieved@);
        let ghost p1 = protected_goals@;
        assert(us == unmet(gs, gs.len() as int, s0));
        assert(p1 == protect_met(gs, gs.len() as int, s0, p0));
        let ghost whole = self.achieve_from(us, 0, s0, stk, p1);
        let mut new_states = current_states.clone();
        let mut plan: Vec<usize> = Vec::new();
        assert(self.plan_ops(plan@) =~= Seq::<Operation<F>>::empty());
        proof {
            let x = self.achieve_from(us, 0, s0, stk, p1);
            if let Some((s2, rest)) = x.0 {
                assert(Seq::<usize>::empty() + rest =~= rest);
            }
        }
        let mut i: usize = 0;
        while i < unachieved.len()
            invariant
                i <= unachieved.len(),
                goal_stack@ == stack0,
                stack0 == old(goal_stack)@,
                stk == models(goal_stack@),
                s0 == current_states@,
                us == models(unachieved@),
                !holds_all(models(goals@), current_states@),
                forall|k: int| 0 <= k < unachieved.len() ==> self.universe().contains(#[trigger] models(unachieved@)[k]),
                self.valid_plan(plan@),
                new_states@ == run_plan(self.plan_ops(plan@), current_states@),
                steps_enabled(self.plan_ops(plan@), current_states@),
                whole == after_plan(plan@, self.achieve_from(us, i as int, new_states@, stk, protected_goals@)),
                gs == models(goals@),
                p0 == old(protected_goals)@,
                stk == models(old(goal_stack)@),
                whole == self.achieve_from(
                    unmet(gs, gs.len() as int, s0),
                    0,
                    s0,
                    stk,
                    protect_met(gs, gs.len() as int, s0, p0),
                ),
            decreases unachieved.len() - i,
        {
            assert(self.universe().contains(models(unachieved@)[i as int]));
            let ghost cur = new_states@;
            let ghost pc = protected_goals@;
            match self.solve_one(&unachieved[i], &new_states, goal_stack, protected_goals) {
                Some((next_states, mut next_plan)) => {
                    let goal = &unachieved[i];
                    protected_goals.insert(goal.state_name(), goal.clone());
                    let ghost before = plan@;
                    let ghost more = next_plan@;
                    plan.append(&mut next_plan);
                    proof {
                        assert(plan@ == before + more);
                        assert(self.plan_ops(plan@) =~= self.plan_ops(before) + self.plan_ops(more));
                        lemma_run_plan_append(self.plan_ops(before), self.plan_ops(more), current_states@);
                        lemma_steps_append(self.plan_ops(before), self.plan_ops(more), current_states@);
                        let x = self.achieve_from(us, i as int + 1, next_states@, stk, protected_goals@);
                        if let Some((s2, rest)) = x.0 {
                            assert(before + (more + rest) =~= plan@ + rest);
                        }
                    }
                    new_states = next_states;
                },
                None => {
                    return None;
                },
            }
            i += 1;
        }
        proof {
            assert(plan@ + Seq::<usize>::empty() =~= plan@);
        }
        if new_states.has_reached(goals) {
            let ghost p2 = protected_goals@;
            let mut i: usize = 0;
            while i < goals.len()
                invariant
                    i <= goals.len(),
                    gs == models(goals@),
                    protected_goals@ == unprotect_all(gs, i as int, p2),
                decreases goals.len() - i,
            {
                let goal = &goals[i];
                assert(gs[i as int] == goal.model());
                protected_goals.remove(goal.state_name(), goal);
                i += 1;
            }
            Some((new_states, plan))
        } else {
            None
        }
    }

    /// Achieves one goal from `current_states` by the first candidate whose
    /// prerequisites can be met; fails on a goal already being pursued.
    fn solve_one(
        &self,
        goal: &ConditionImpl,
        current_states: &StateSet,
        goal_stack: &mut Vec<ConditionImpl>,
        protected_goals: &mut ConditionSet,
    ) -> (r: Option<(StateSet, Vec<usize>)>)
        requires
            self.universe().contains(goal.model()),
        ensures
            final(goal_stack)@ == old(goal_stack)@,
            (outcome(r), final(protected_goals)@) == self.search_one(
                goal.model(),
                current_states@,
                models(old(goal_stack)@),
                old(protected_goals)@,
            ),
            match r {
                Some((st, plan)) => {
                    &&& self.valid_plan(plan@)
                    &&& st@ == run_plan(self.plan_ops(plan@), current_states@)
                    &&& steps_enabled(self.plan_ops(plan@), current_states@)
                },
                None => true,
            },
        decreases unstacked(self.universe(), models(old(goal_stack)@)), 1nat,
    {
        if goal.check(current_states) {
            assert(self.plan_ops(Seq::<usize>::empty()) =~= Seq::<Operation<F>>::empty());
            return Some((current_states.clone(), Vec::new()));
        }
        if stack_has(goal_stack, goal) {
            return None;
        }
        let valid = self.candidate_indices(goal, current_states, protected_goals);
        let ghost stack0 = goal_stack@;
        let ghost whole = self.search_one(goal.model(), current_states@, models(stack0), protected_goals@);
        goal_stack.push(goal.clone());
        proof {
            assert(models(goal_stack@) =~= models(stack0).push(goal.model()));
            lemma_unstacked_push(self.universe(), models(stack0), goal.model());
        }
        let mut k: usize = 0;
        while k < valid.len()
            invariant
                k <= valid.len(),
                goal_stack@ == stack0.push(*goal),
                models(goal_stack@) == models(stack0).push(goal.model()),
                stack0 == old(goal_stack)@,
                !models(stack0).contains(goal.model()),
                unstacked(self.universe(), models(goal_stack@)) < unstacked(self.universe(), models(stack0)),
                forall|q: int| 0 <= q < valid@.len() ==> #[trigger] valid@[q] < self.operations@.len(),
                whole == self.try_from(valid@, k as int, current_states@, models(goal_stack@), protected_goals@),
                whole == self.search_one(goal.model(), current_states@, models(stack0), old(protected_goals)@),
            decreases valid.len() - k,
        {
            let res = self.apply_operation(valid[k], current_states, goal_stack, protected_goals);
            if res.is_some() {
                goal_stack.pop();
                assert(goal_stack@ =~= stack0);
                return res;
            }
            k += 1;
        }
        goal_stack.pop();
        assert(goal_stack@ =~= stack0);
        None
    }

    /// Meets the prerequisites of the operation at `index`, then applies it.
    fn apply_operation(
        &self,
        index: usize,
        current_states: &StateSet,
        goal_stack: &mut Vec<ConditionImpl>,
        protected_goals: &mut ConditionSet,
    ) -> (r: Option<(StateSet, Vec<usize>)>)
        requires
            index < self.operations@.len(),
        ensures
            final(goal_stack)@ == old(goal_stack)@,
            (outcome(r), final(protected_goals)@) == self.search_op(
                index,
                current_states@,
                models(old(goal_stack)@),
                old(protected_goals)@,
            ),
            match r {
                Some((st, plan)) => {
                    &&& self.valid_plan(plan@)
                    &&& st@ == run_plan(self.plan_ops(plan@), current_states@)
                    &&& steps_enabled(self.plan_ops(plan@), current_states@)
                },
                None => true,
            },
        decreases unstacked(self.universe(), models(old(goal_stack)@)), 3nat,
    {
        let operation = &self.operations[index];
        proof {
            self.lemma_prereqs_in_universe(index as int);
        }
        match self.solve_all(operation.prerequisites(), current_states, goal_stack, protected_goals) {
            Some((mut next_states, mut plan)) => {
                let ghost before = plan@;
                operation.apply(&mut next_states);
                plan.push(index);
                assert(self.plan_ops(plan@).drop_last() =~= self.plan_ops(before));
                proof {
                    let ops = self.plan_ops(plan@);
                    let pre = self.plan_ops(before);
                    assert(ops =~= pre.push(self.spec_operations()[index as int]));
                    assert forall|k: int| 0 <= k < ops.len() implies holds_all(
                        #[trigger] ops[k].prereqs(),
                        run_plan(ops.take(k), current_states@),
                    ) by {
                        if k < pre.len() {
                            assert(ops.take(k) =~= pre.take(k));
                        } else {
                            assert(ops.take(k) =~= pre);
                        }
                    }
                }
                Some((next_states, plan))
            },
            None => None,
        }
    }

    /// Searches for a plan that makes every goal hold, starting from the
    /// configured world: the plan of [`Self::planned`], each step a
    /// registered operation, after which every goal holds.
    pub fn solve(&self) -> (r: Option<Vec<&Operation<F>>>)
        ensures
            r is Some <==> self.planned() is Some,
            holds_all(self.spec_goals(), self.spec_states()) ==> (r matches Some(plan) && plan@.len() == 0),
            match r {
                Some(plan) => {
                    &&& plan@.map_values(|o: &Operation<F>| *o) == self.plan_ops(self.planned().unwrap())
                    &&& holds_all(
                        self.spec_goals(),
                        run_plan(plan@.map_values(|o: &Operation<F>| *o), self.spec_states()),
                    )
                    &&& forall|k: int| 0 <= k < plan@.len() ==> self.spec_operations().contains(*plan@[k])
                    &&& steps_enabled(plan@.map_values(|o: &Operation<F>| *o), self.spec_states())
                },
                None => true,
            },
    {
        let mut goal_stack: Vec<ConditionImpl> = Vec::new();
        let mut protected_goals = ConditionSet::new();
        proof {
            self.lemma_goals_in_universe();
            assert(models(goal_stack@) =~= Seq::<ConditionModel>::empty());
        }
        match self.solve_all(&self.goals, &self.states, &mut goal_stack, &mut protected_goals) {
            Some((_, idx)) => {
                let plan = self.operations_at(&idx);
                assert forall|k: int| 0 <= k < plan@.len() implies self.spec_operations().contains(*plan@[k]) by {
                    assert(plan@.map_values(|o: &Operation<F>| *o)[k] == self.operations@[idx@[k] as int]);
                }
                Some(plan)
            },
            None => None,
        }
    }

    pub fn new() -> (r: Self)
        ensures
            r.spec_operations() == Seq::<Operation<F>>::empty(),
            r.spec_goals() == Seq::<ConditionModel>::empty(),
            r.spec_states() == Map::<Seq<char>, StateData>::empty(),
    {
        let r = Self { operations: Vec::new(), goals: Vec::new(), states: StateSet::new() };
        assert(models(r.goals@) =~= Seq::<ConditionModel>::empty());
        r
    }

    /// Registers the operations, in the order candidates are tried.
    pub fn set_operations(&mut self, operation: Vec<Operation<F>>) -> (r: &mut Self)
        ensures
            r.spec_operations() == operation@,
            r.spec_goals() == old(self).spec_goals(),
            r.spec_states() == old(self).spec_states(),
            *final(self) == *final(r),
    {
        self.operations = operation;
        self
    }

    pub fn set_goals(&mut self, goals: Vec<ConditionImpl>) -> (r: &mut Self)
        ensures
            r.spec_operations() == old(self).spec_operations(),
            r.spec_goals() == models(goals@),
            r.spec_states() == old(self).spec_states(),
            *final(self) == *final(r),
    {
        self.goals = goals;
        self
    }

    pub fn set_states(&mut self, states: StateSet) -> (r: &mut Self)
        ensures
            r.spec_operations() == old(self).spec_operations(),
            r.spec_goals() == old(self).spec_goals(),
            r.spec_states() == states@,
            *final(self) == *final(r),
    {
        self.states = states;
        self
    }
}

} // verus!
