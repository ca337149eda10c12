//! Planning with best-first search, keeping controls apart from states.
//!
//! A state is how the planned-for entity exists in the world; a control is an
//! action applied to a state to change it. A [`Model`] defines the problem:
//! transition costs, how controls integrate into states (and when that is
//! invalid), and when the goal is reached. A [`Sampler`] proposes the controls
//! to try from a state. The optimizers ([`astar::AStar`],
//! [`dijkstra::Dijkstra`]) build trajectories from start to goal.
use vstd::prelude::*;

pub mod astar;
pub mod dijkstra;
mod engine;
mod queue;
mod table;

verus! {

/// A state that exposes the integer key of its grid position.
///
/// Distinct states may share a grid position (same place, other resources);
/// the planner keeps only the cheapest state per grid position open.
pub trait State: Sized {
    spec fn spec_grid_position(&self) -> u64;

    fn grid_position(&self) -> (r: u64)
        ensures
            r == self.spec_grid_position(),
    ;
}

/// Interface which defines the planning problem.
///
/// Costs are `u64`; every transition cost is non-negative by its type.
pub trait Model: Sized {
    /// The state of the system as a result of actions taken.
    type State: State + Copy;

    /// Actions which can be taken to affect the system.
    type Control: Copy;

    /// The cost of taking `control` from `current` to arrive at `next`.
    spec fn spec_cost(&self, current: Self::State, control: Self::Control, next: Self::State) -> u64;

    /// Whether `current` meets the convergence criterion against `goal`.
    spec fn spec_converge(&self, current: Self::State, goal: Self::State) -> bool;

    /// The state reached by applying `control` to `previous`, or `None` when
    /// the control cannot be applied there.
    spec fn spec_integrate(&self, previous: Self::State, control: Self::Control) -> Option<Self::State>;

    /// The no-op control that seeds the root of the search tree.
    spec fn spec_no_op() -> Self::Control;

    /// The model after its `init` hook has seen the first state.
    spec fn spec_init(&self, initial: Self::State) -> Self;

    fn cost(&self, current: &Self::State, control: &Self::Control, next: &Self::State) -> (r: u64)
        ensures
            r == self.spec_cost(*current, *control, *next),
    ;

    /// Called once when a fresh search starts, with its first state.
    fn init(&mut self, initial: &Self::State)
        ensures
            *final(self) == old(self).spec_init(*initial),
    ;

    fn converge(&self, current: &Self::State, goal: &Self::State) -> (r: bool)
        ensures
            r == self.spec_converge(*current, *goal),
    ;

    fn integrate(&self, previous: &Self::State, control: &Self::Control) -> (r: Option<
        Self::State,
    >)
        ensures
            r == self.spec_integrate(*previous, *control),
    ;

    fn no_op() -> (r: Self::Control)
        ensures
            r == Self::spec_no_op(),
    ;
}

/// A model which can estimate the cost that remains to the goal.
///
/// The estimate must never exceed the true remaining cost (admissibility) for
/// A* to return optimal trajectories.
pub trait HeuristicModel: Model {
    spec fn spec_heuristic(&self, current: Self::State, goal: Self::State) -> u64;

    fn heuristic(&self, current: &Self::State, goal: &Self::State) -> (r: u64)
        ensures
            r == self.spec_heuristic(*current, *goal),
    ;
}

/// Proposes the controls to try from a state, the same ones for the same
/// model and state throughout a search.
pub trait Sampler<M: Model> {
    /// The controls proposed from `current`, in order.
    spec fn spec_sample(&self, model: M, current: M::State) -> Vec<M::Control>;

    fn sample(&mut self, model: &M, current: &M::State) -> (r: Vec<M::Control>)
        ensures
            r@ == old(self).spec_sample(*model, *current)@,
            forall|m: M, s: M::State| #[trigger]
                final(self).spec_sample(m, s)@ == old(self).spec_sample(m, s)@,
    ;
}

/// Whether every step of `steps` follows from the one before it under `model`.
pub open spec fn is_chain<M: Model>(model: M, steps: Seq<(M::State, M::Control)>) -> bool {
    forall|i: int|
        0 < i < steps.len() ==> #[trigger] model.spec_integrate(steps[i - 1].0, steps[i].1)
            == Some(steps[i].0)
}

/// The summed transition cost of `steps` under `model`.
pub open spec fn chain_cost<M: Model>(model: M, steps: Seq<(M::State, M::Control)>) -> int
    decreases steps.len(),
{
    if steps.len() <= 1 {
        0
    } else {
        let n = steps.len() - 1;
        chain_cost(model, steps.take(n)) + model.spec_cost(steps[n - 1].0, steps[n].1, steps[n].0)
    }
}

/// Whether every control of `steps` after the first is one that `sampler`
/// proposes for the state before it.
pub open spec fn is_sampled_by<M: Model, S: Sampler<M>>(
    sampler: S,
    model: M,
    steps: Seq<(M::State, M::Control)>,
) -> bool {
    forall|i: int|
        0 < i < steps.len() ==> #[trigger] sampler.spec_sample(model, steps[i - 1].0)@.contains(
            steps[i].1,
        )
}

/// States that share a grid position are equal: deduplication by grid
/// position loses nothing.
pub open spec fn keys_identify<M: Model>() -> bool {
    forall|a: M::State, b: M::State|
        #![trigger a.spec_grid_position(), b.spec_grid_position()]
        a.spec_grid_position() == b.spec_grid_position() ==> a == b
}

/// The heuristic is consistent (it drops by at most the cost of a
/// transition) and is zero on states that reach `goal`.
pub open spec fn heuristic_fits<M: HeuristicModel>(model: M, goal: M::State) -> bool {
    &&& forall|s: M::State, c: M::Control| #[trigger]
        model.spec_integrate(s, c) matches Some(s2) ==> model.spec_heuristic(s, goal)
            <= model.spec_cost(s, c, s2) + model.spec_heuristic(s2, goal)
    &&& forall|s: M::State| #[trigger] model.spec_converge(s, goal) ==> model.spec_heuristic(s, goal) == 0
}

/// The A* priority of the last of `steps`: 0 for a single step, else the
/// cost so far plus the heuristic estimate from the last state, raised to the
/// priority of the steps before it where that is greater.
pub open spec fn guided_priority<M: HeuristicModel>(
    model: M,
    goal: M::State,
    steps: Seq<(M::State, M::Control)>,
) -> int
    decreases steps.len(),
{
    if steps.len() <= 1 {
        0
    } else {
        let here = chain_cost(model, steps) + model.spec_heuristic(steps.last().0, goal);
        let before = guided_priority(model, goal, steps.take(steps.len() - 1));
        if here >= before {
            here
        } else {
            before
        }
    }
}

/// Whether `steps` is a trajectory of `model` from `start`: it begins at
/// `start` with the no-op control and each later step follows from the one
/// before it.
pub open spec fn is_trajectory_from<M: Model>(
    model: M,
    start: M::State,
    steps: Seq<(M::State, M::Control)>,
) -> bool {
    &&& steps.len() >= 1
    &&& steps[0] == (start, M::spec_no_op())
    &&& is_chain(model, steps)
}

/// The result of optimization: a cost and the steps from start to the end.
pub struct Trajectory<M: Model> {
    pub cost: u64,
    pub trajectory: Vec<(M::State, M::Control)>,
}

impl<M: Model> Trajectory<M> {
    /// The empty trajectory: cost zero and no steps.
    pub fn empty() -> (r: Self)
        ensures
            r.cost == 0,
            r.trajectory@.len() == 0,
    {
        Trajectory { cost: 0, trajectory: Vec::new() }
    }
}

impl<M: Model> Default for Trajectory<M> {
    fn default() -> (r: Self)
        ensures
            r.cost == 0,
            r.trajectory@.len() == 0,
    {
        Self::empty()
    }
}

/// Errors of path finding.
#[derive(Debug, Clone, Copy, PartialEq, Eq, Structural)]
pub enum PathFindingErr {
    /// The frontier emptied before the goal was reached.
    Unreachable,
    /// Reserved for searches with a step budget.
    IterationLimit(usize),
}

/// The outcome of one planning call.
pub enum PathResult<M: Model> {
    /// The goal was reached; the trajectory ends at a converged state.
    Final(Trajectory<M>),
    /// The trajectory to the node just expanded, which has not reached the goal.
    Intermediate(Trajectory<M>),
    Error(PathFindingErr),
}

/// A strategy to find a trajectory from the start state to the goal state.
pub trait Optimizer<M: Model, S: Sampler<M>>: Sized {
    /// The optimizer's invariant.
    spec fn well_formed(&self) -> bool;

    /// The model, start and goal of the search under way, if any.
    spec fn problem_under_way(&self) -> Option<(M, M::State, M::State)>;

    /// One step of the search: the trajectory to the node at the head of the
    /// frontier, not necessarily to the goal.
    fn next_trajectory(
        &mut self,
        model: &mut M,
        start: &M::State,
        goal: &M::State,
        sampler: &mut S,
    ) -> (r: PathResult<M>)
        requires
            old(self).well_formed(),
            old(self).problem_under_way() matches Some(p) ==> p == (*old(model), *start, *goal),
        ensures
            final(self).well_formed(),
            final(self).problem_under_way() == Some((*final(model), *start, *goal)),
            match r {
                PathResult::Final(t) => {
                    &&& is_trajectory_from(*final(model), *start, t.trajectory@)
                    &&& final(model).spec_converge(t.trajectory@.last().0, *goal)
                    &&& t.cost == chain_cost(*final(model), t.trajectory@)
                },
                PathResult::Intermediate(t) => {
                    &&& is_trajectory_from(*final(model), *start, t.trajectory@)
                    &&& !final(model).spec_converge(t.trajectory@.last().0, *goal)
                    &&& t.cost == chain_cost(*final(model), t.trajectory@)
                },
                PathResult::Error(e) => e == PathFindingErr::Unreachable,
            },
    ;

    /// Runs the search until it reaches the goal or runs out of nodes.
    fn optimize(
        &mut self,
        model: &mut M,
        start: &M::State,
        goal: &M::State,
        sampler: &mut S,
    ) -> (r: PathResult<M>)
        requires
            old(self).well_formed(),
            old(self).problem_under_way() matches Some(p) ==> p == (*old(model), *start, *goal),
        ensures
            final(self).well_formed(),
            match r {
                PathResult::Final(t) => {
                    &&& is_trajectory_from(*final(model), *start, t.trajectory@)
                    &&& final(model).spec_converge(t.trajectory@.last().0, *goal)
                    &&& t.cost == chain_cost(*final(model), t.trajectory@)
                },
                PathResult::Intermediate(_) => false,
                PathResult::Error(e) => e == PathFindingErr::Unreachable,
            },
    ;
}

} // verus!
