//! A* search, guided by the model's heuristic.
use super::engine::{estimate_fits, path_priority, Guided, Search};
use super::{
    HeuristicModel, Model, Optimizer, PathFindingErr, PathResult, Sampler, State, chain_cost,
    guided_priority, heuristic_fits, is_sampled_by, is_trajectory_from, keys_identify,
};
use vstd::prelude::*;

verus! {

/// A* search: nodes leave the frontier by least accumulated cost plus the
/// model's heuristic estimate. A child's priority is `g + cost + heuristic`,
/// raised to its parent's priority where it would be lower, so that the
/// priorities popped never decrease. A trajectory's cost is summed from the
/// model's transition costs along it.
///
/// One engine serves one search at a time: between calls that continue a
/// search, pass the same model (as the previous call left it), start and
/// goal; call [`Self::clear`] before an unrelated search. A node is expanded
/// only if no cheaper node holds its grid position; each grid position keeps
/// its cheapest node (the start's position is not recorded).
pub struct AStar<M: HeuristicModel> {
    search: Search<M>,
}

/// The engine's priority under the heuristic estimate is the A* priority.
proof fn lemma_guided_priority<M: HeuristicModel>(
    model: M,
    goal: M::State,
    steps: Seq<(M::State, M::Control)>,
)
    ensures
        path_priority::<M, Guided>(model, goal, steps) == guided_priority(model, goal, steps),
    decreases steps.len(),
{
    if steps.len() > 1 {
        lemma_guided_priority(model, goal, steps.take(steps.len() - 1));
    }
}

impl<M: HeuristicModel> AStar<M> {
    /// The engine's invariant.
    pub closed spec fn wf(&self) -> bool {
        self.search.wf() && self.search.priorities_ok::<Guided>()
    }

    /// The model, start and goal of the search under way, if any.
    pub closed spec fn problem(&self) -> Option<(M, M::State, M::State)> {
        self.search.problem@
    }

    /// The number of nodes waiting in the frontier.
    pub closed spec fn frontier_len(&self) -> nat {
        self.search.frontier_len()
    }

    /// The grid positions discovered so far.
    pub closed spec fn discovered(&self) -> Set<u64> {
        self.search.grid@.dom()
    }

    /// `steps` lists the frontier, in some order, as states and controls.
    pub closed spec fn lists_frontier(&self, steps: Seq<(M::State, M::Control)>) -> bool {
        self.search.lists_frontier(steps)
    }

    /// Whether a state and control belong to a node waiting in the frontier.
    pub closed spec fn in_frontier(&self, step: (M::State, M::Control)) -> bool {
        self.search.in_frontier(step)
    }

    /// The priorities of the nodes waiting in the frontier.
    pub closed spec fn priorities(&self) -> Set<u64> {
        self.search.priorities()
    }

    /// The priority of the node expanded last, if any.
    pub closed spec fn last_priority(&self) -> Option<u64> {
        self.search.last_priority()
    }

    /// The number of nodes the search under way has stored.
    pub closed spec fn node_count(&self) -> nat {
        self.search.len() as nat
    }

    /// The unique-id counter; it is never reset.
    pub closed spec fn id_counter(&self) -> u64 {
        self.search.id_counter
    }

    /// Nothing discovered and no search under way.
    pub closed spec fn is_fresh(&self) -> bool {
        self.search.is_fresh()
    }

    /// The next incremental step starts a new search.
    pub closed spec fn is_unseeded(&self) -> bool {
        self.search.is_unseeded()
    }

    /// The grid positions and accumulated costs of the nodes discovered so
    /// far (the start excepted).
    pub closed spec fn discoveries(&self) -> Set<(u64, u64)> {
        self.search.discoveries()
    }

    /// The accumulated cost recorded as best for a grid position.
    pub closed spec fn best_cost(&self, key: u64) -> Option<u64> {
        self.search.best_cost(key)
    }

    /// Whenever a grid position has been discovered, possibly several times
    /// at different costs, its best-cost entry holds the lowest of them.
    pub proof fn lemma_best_cost(&self, key: u64, g: u64)
        requires
            self.wf(),
            self.discoveries().contains((key, g)),
        ensures
            self.best_cost(key) matches Some(b) && b <= g && self.discoveries().contains((key, b)),
    {
        match self.search.problem@ {
            Some(p) => self.search.lemma_best_cost(p.0, p.1, key, g),
            None => assert(self.search.len() == 0),
        }
    }

    /// The discovered grid positions are those of the nodes discovered so
    /// far (the start's position is recorded only when a node other than the
    /// start reaches it).
    pub proof fn lemma_discovered(&self, key: u64)
        requires
            self.wf(),
        ensures
            self.discovered().contains(key) <==> exists|g: u64| #[trigger]
                self.discoveries().contains((key, g)),
    {
        self.lemma_discovered_core(key);
    }

    proof fn lemma_discovered_core(&self, key: u64)
        requires
            self.wf(),
        ensures
            self.discovered().contains(key) ==> exists|g: u64| #[trigger]
                self.discoveries().contains((key, g)),
            (exists|g: u64| #[trigger] self.discoveries().contains((key, g))) ==> self.discovered().contains(key),
    {
        match self.search.problem@ {
            Some(p) => {
                if self.search.grid@.contains_key(key) {
                    assert(self.search.grid_entry_ok(key));
                    let b = self.search.grid@[key] as int;
                    assert(self.search.discoveries().contains((key, self.search.nodes@[b].g)));
                    assert(self.discoveries().contains((key, self.search.nodes@[b].g)));
                }
                if exists|g: u64| #[trigger] self.search.discoveries().contains((key, g)) {
                    let g = choose|g: u64| #[trigger] self.search.discoveries().contains((key, g));
                    self.search.lemma_best_cost(p.0, p.1, key, g);
                    assert(self.discovered().contains(key));
                }
            },
            None => {
                assert(self.search.len() == 0);
                assert(!self.search.grid@.contains_key(key));
                assert(!self.discovered().contains(key));
            },
        }
    }

    /// A fresh engine has an empty frontier, has discovered nothing, and
    /// will seed a new search at its next step.
    pub proof fn lemma_fresh(&self)
        requires
            self.is_fresh(),
        ensures
            self.wf(),
            self.problem() is None,
            self.frontier_len() == 0,
            self.discovered() == Set::<u64>::empty(),
            self.discoveries() == Set::<(u64, u64)>::empty(),
            self.is_unseeded(),
    {
        assert(self.search.discoveries() =~= Set::<(u64, u64)>::empty());
        assert(self.search.grid@.dom() =~= Set::<u64>::empty());
    }

    pub fn new() -> (r: Self)
        ensures
            r.wf(),
            r.is_fresh(),
            r.problem() is None,
            r.is_unseeded(),
            r.id_counter() == 0,
    {
        AStar { search: Search::new() }
    }

    /// Empties the frontier and both maps; the id counter is kept. Call this
    /// before using the engine for an unrelated search.
    pub fn clear(&mut self)
        ensures
            final(self).wf(),
            final(self).is_fresh(),
            final(self).problem() is None,
            final(self).is_unseeded(),
            final(self).id_counter() == old(self).id_counter(),
    {
        self.search.clear()
    }

    /// The states and controls waiting in the frontier, in no stated order.
    pub fn inspect_queue(&self) -> (r: Vec<(M::State, M::Control)>)
        requires
            self.wf(),
        ensures
            self.lists_frontier(r@),
            r@.len() == self.frontier_len(),
            forall|j: int| 0 <= j < r@.len() ==> self.in_frontier(#[trigger] r@[j]),
    {
        self.search.frontier()
    }

    /// The grid positions discovered so far, each once, in no stated order.
    pub fn inspect_discovered(&self) -> (r: Vec<u64>)
        ensures
            r@.to_set() == self.discovered(),
            r@.no_duplicates(),
    {
        self.search.discovered()
    }

    /// One step of the search: the trajectory to the node of lowest priority,
    /// `Final` when it converges with `goal`, else `Intermediate` after
    /// expanding it. A fresh engine first calls the model's `init` hook and
    /// seeds the frontier with `start`. `Unreachable` when the frontier is
    /// empty; the engine then stays as it is until it is cleared.
    pub fn next_trajectory<S: Sampler<M>>(
        &mut self,
        model: &mut M,
        start: &M::State,
        goal: &M::State,
        sampler: &mut S,
    ) -> (r: PathResult<M>)
        requires
            old(self).wf(),
            old(self).problem() matches Some(p) ==> p == (*old(model), *start, *goal),
        ensures
            final(self).wf(),
            final(self).problem() == Some((*final(model), *start, *goal)),
            !old(self).is_unseeded() ==> *final(model) == *old(model),
            old(self).is_unseeded() ==> *final(model) == old(model).spec_init(*start),
            match r {
                PathResult::Final(t) => final(self).frontier_len() + 1 <= old(self).frontier_len()
                    + (if old(self).is_unseeded() { 1int } else { 0int }),
                PathResult::Intermediate(t) => final(self).frontier_len() + 1
                    <= old(self).frontier_len() + (if old(self).is_unseeded() { 1int } else { 0int })
                    + old(sampler).spec_sample(*final(model), t.trajectory@.last().0)@.len(),
                PathResult::Error(_) => true,
            },
            !(r is Error) ==> (final(self).last_priority() matches Some(p) && forall|q: u64|
                #[trigger] old(self).priorities().contains(q) ==> p <= q),
            match r {
                PathResult::Intermediate(t) => (final(self).node_count() < usize::MAX
                    && !(old(self).best_cost(t.trajectory@.last().0.spec_grid_position()) matches Some(b)
                    && b < t.cost)) ==> forall|c: M::Control| #[trigger]
                    old(sampler).spec_sample(*final(model), t.trajectory@.last().0)@.contains(c)
                        ==> match final(model).spec_integrate(t.trajectory@.last().0, c) {
                        Some(s2) => (t.cost + final(model).spec_cost(t.trajectory@.last().0, c, s2)
                            + final(model).spec_heuristic(s2, *goal) <= u64::MAX)
                            ==> (final(self).best_cost(s2.spec_grid_position()) matches Some(b2) && b2 <= t.cost
                            + final(model).spec_cost(t.trajectory@.last().0, c, s2)),
                        None => true,
                    },
                _ => true,
            },
            old(self).is_unseeded() ==> match r {
                PathResult::Final(t) => t.trajectory@ == seq![(*start, M::spec_no_op())],
                PathResult::Intermediate(t) => t.trajectory@ == seq![(*start, M::spec_no_op())],
                PathResult::Error(_) => false,
            },
            match r {
                PathResult::Final(t) => {
                    &&& is_trajectory_from(*final(model), *start, t.trajectory@)
                    &&& final(model).spec_converge(t.trajectory@.last().0, *goal)
                    &&& t.cost == chain_cost(*final(model), t.trajectory@)
                    &&& final(self).last_priority() == Some(guided_priority(*final(model), *goal, t.trajectory@) as u64)
                },
                PathResult::Intermediate(t) => {
                    &&& is_trajectory_from(*final(model), *start, t.trajectory@)
                    &&& !final(model).spec_converge(t.trajectory@.last().0, *goal)
                    &&& t.cost == chain_cost(*final(model), t.trajectory@)
                    &&& final(self).last_priority() == Some(guided_priority(*final(model), *goal, t.trajectory@) as u64)
                },
                PathResult::Error(e) => {
                    &&& e == PathFindingErr::Unreachable
                    &&& !old(self).is_unseeded()
                    &&& old(self).frontier_len() == 0
                    &&& final(self).frontier_len() == 0
                    &&& final(self).discovered() == old(self).discovered()
                    &&& final(self).id_counter() == old(self).id_counter()
                    &&& final(self).last_priority() == old(self).last_priority()
                    &&& final(self).is_unseeded() == old(self).is_unseeded()
                },
            },
    {
        let r = self.search.next_trajectory::<Guided, S>(model, start, goal, sampler, true);
        proof {
            match &r {
                PathResult::Final(t) => lemma_guided_priority(*model, *goal, t.trajectory@),
                PathResult::Intermediate(t) => lemma_guided_priority(*model, *goal, t.trajectory@),
                PathResult::Error(_) => {
                    assert(self.search.snapshot() == old(self).search.snapshot());
                    assert(self.search.grid@.dom() =~= old(self).search.grid@.dom());
                },
            }
        }
        r
    }

    /// Runs the search until a node converges with `goal` (`Final`) or the
    /// frontier is empty (`Unreachable`). When `start` already converges,
    /// returns at once the one-step trajectory at `start`, of cost zero.
    ///
    /// A child whose cost plus estimate does not fit in `u64` is dropped, and
    /// no node is added once the arena holds `usize::MAX` of them. From a
    /// fresh engine, when states sharing a grid position are equal, the heuristic is consistent and zero at
    /// converging states, and the arena stays below that bound, the result is `Final` with
    /// a cost no greater than that of any sampled trajectory from `start` that
    /// reaches `goal` and whose cost fits in `u64`; the `Final` trajectory's
    /// controls are the sampler's.
    pub fn optimize<S: Sampler<M>>(
        &mut self,
        model: &mut M,
        start: &M::State,
        goal: &M::State,
        sampler: &mut S,
    ) -> (r: PathResult<M>)
        requires
            old(self).wf(),
            old(self).problem() matches Some(p) ==> p == (*old(model), *start, *goal),
        ensures
            final(self).wf(),
            old(model).spec_converge(*start, *goal) ==> {
                &&& *final(self) == *old(self)
                &&& *final(model) == *old(model)
                &&& *final(sampler) == *old(sampler)
                &&& r matches PathResult::Final(t) && t.cost == 0 && t.trajectory@ =~= seq![
                    (*start, M::spec_no_op()),
                ]
            },
            !old(model).spec_converge(*start, *goal) ==> final(self).problem() == Some(
                (*final(model), *start, *goal),
            ),
            old(self).problem() is Some ==> *final(model) == *old(model),
            (old(self).problem() is None && !old(model).spec_converge(*start, *goal))
                ==> *final(model) == old(model).spec_init(*start),
            match r {
                PathResult::Final(t) => {
                    &&& is_trajectory_from(*final(model), *start, t.trajectory@)
                    &&& final(model).spec_converge(t.trajectory@.last().0, *goal)
                    &&& t.cost == chain_cost(*final(model), t.trajectory@)
                },
                PathResult::Intermediate(_) => false,
                PathResult::Error(e) => {
                    &&& e == PathFindingErr::Unreachable
                    &&& final(self).frontier_len() == 0
                },
            },
            old(self).problem() is None ==> (r matches PathResult::Final(t) ==> is_sampled_by(
                *old(sampler),
                *final(model),
                t.trajectory@,
            )),
            (old(self).problem() is None && keys_identify::<M>() && heuristic_fits(*final(model), *goal)
                && final(self).node_count() < usize::MAX) ==> forall|p: Seq<(M::State, M::Control)>|
                #![trigger is_sampled_by(*old(sampler), *final(model), p)]
                is_trajectory_from(*final(model), *start, p) && is_sampled_by(
                    *old(sampler),
                    *final(model),
                    p,
                ) && final(model).spec_converge(p.last().0, *goal) && chain_cost(*final(model), p)
                    <= u64::MAX ==> (r matches PathResult::Final(t) && t.cost <= chain_cost(
                    *final(model),
                    p,
                )),
            (old(self).problem() is None && !final(model).spec_converge(*start, *goal) && forall|
                c: M::Control,
            | #[trigger] old(sampler).spec_sample(*final(model), *start)@.contains(c)
                ==> final(model).spec_integrate(*start, c) is None) ==> r
                == PathResult::<M>::Error(PathFindingErr::Unreachable),
    {
        let r = self.search.optimize::<Guided, S>(model, start, goal, sampler, true);
        proof {
            assert(heuristic_fits(*model, *goal) ==> estimate_fits::<M, Guided>(*model, *goal));
        }
        r
    }
}

impl<M: HeuristicModel> Default for AStar<M> {
    fn default() -> (r: Self)
        ensures
            r.wf(),
            r.is_fresh(),
            r.problem() is None,
            r.is_unseeded(),
            r.id_counter() == 0,
    {
        Self::new()
    }
}

impl<M: HeuristicModel, S: Sampler<M>> Optimizer<M, S> for AStar<M> {
    open spec fn well_formed(&self) -> bool {
        self.wf()
    }

    open spec fn problem_under_way(&self) -> Option<(M, M::State, M::State)> {
        self.problem()
    }

    fn next_trajectory(
        &mut self,
        model: &mut M,
        start: &M::State,
        goal: &M::State,
        sampler: &mut S,
    ) -> (r: PathResult<M>) {
        AStar::next_trajectory(self, model, start, goal, sampler)
    }

    fn optimize(
        &mut self,
        model: &mut M,
        start: &M::State,
        goal: &M::State,
        sampler: &mut S,
    ) -> (r: PathResult<M>) {
        AStar::optimize(self, model, start, goal, sampler)
    }
}

} // verus!
