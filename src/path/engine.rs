//! The best-first search shared by A* and uniform-cost search.
//!
//! Discovered nodes live in an arena (`nodes`) and are named by their index
//! there. The frontier holds `(u64::MAX - priority, index)` pairs in a max-heap,
//! so that the lowest priority leaves first. `parent_map` maps each non-root
//! index to its predecessor's index, and `grid` maps each discovered grid
//! position to the index of its cheapest node.
use super::queue::{
    heap_clear, heap_entries, heap_items, heap_new, heap_pop, heap_push,
    heap_top, heap_top_key,
};
use super::table::{table_clear, table_get, table_insert, table_keys, table_new};
use super::{
    chain_cost, is_sampled_by, is_trajectory_from, keys_identify, HeuristicModel, Model, Sampler,
    State,
};
use fnv::FnvHashMap;
use radix_heap::RadixHeapMap;
use vstd::multiset::Multiset;
use vstd::prelude::*;

verus! {

/// How a search estimates the cost that remains from a state to the goal.
pub trait Estimate<M: Model> {
    spec fn spec_estimate(model: M, current: M::State, goal: M::State) -> u64;

    fn estimate(model: &M, current: &M::State, goal: &M::State) -> (r: u64)
        ensures
            r == Self::spec_estimate(*model, *current, *goal),
    ;
}

/// No estimate: the priority is the accumulated cost (uniform-cost search).
pub struct Uniform;

impl<M: Model> Estimate<M> for Uniform {
    open spec fn spec_estimate(model: M, current: M::State, goal: M::State) -> u64 {
        0
    }

    fn estimate(model: &M, current: &M::State, goal: &M::State) -> (r: u64) {
        0
    }
}

/// The model's heuristic (A*).
pub struct Guided;

impl<M: HeuristicModel> Estimate<M> for Guided {
    open spec fn spec_estimate(model: M, current: M::State, goal: M::State) -> u64 {
        model.spec_heuristic(current, goal)
    }

    fn estimate(model: &M, current: &M::State, goal: &M::State) -> (r: u64) {
        model.heuristic(current, goal)
    }
}

/// A search-tree record.
pub struct Node<M: Model> {
    /// Unique identifier, from the engine's counter.
    pub id: u64,
    /// Accumulated cost from the root.
    pub g: u64,
    /// Priority: accumulated cost plus estimate.
    pub f: u64,
    pub state: M::State,
    /// The control that produced this node from its parent.
    pub control: M::Control,
}

/// The state of one search engine.
pub struct Search<M: Model> {
    pub queue: RadixHeapMap<u64, u64>,
    pub nodes: Vec<Node<M>>,
    pub parent_map: FnvHashMap<u64, u64>,
    pub grid: FnvHashMap<u64, u64>,
    pub id_counter: u64,
    /// The model, start and goal of the search under way, if any.
    pub problem: Ghost<Option<(M, M::State, M::State)>>,
}

/// The queue key under which a node of priority `f` is pushed.
pub open spec fn key_of(f: u64) -> u64 {
    (u64::MAX - f) as u64
}

impl<M: Model> Search<M> {
    pub open spec fn len(&self) -> int {
        self.nodes@.len() as int
    }

    pub open spec fn has_parent(&self, i: int) -> bool {
        self.parent_map@.contains_key(i as u64)
    }

    pub open spec fn parent(&self, i: int) -> int {
        self.parent_map@[i as u64] as int
    }

    /// The node's state and control, as a trajectory step.
    pub open spec fn step_of(&self, i: int) -> (M::State, M::Control) {
        (self.nodes@[i].state, self.nodes@[i].control)
    }

    /// Node `i` follows from its parent, or is a root at `start`.
    pub open spec fn link_ok(&self, model: M, start: M::State, i: int) -> bool {
        let n = self.nodes@[i];
        if self.has_parent(i) {
            let p = self.parent(i);
            &&& 0 <= p < i
            &&& model.spec_integrate(self.nodes@[p].state, n.control) == Some(n.state)
            &&& n.g == self.nodes@[p].g + model.spec_cost(self.nodes@[p].state, n.control, n.state)
        } else {
            &&& n.state == start
            &&& n.control == M::spec_no_op()
            &&& n.g == 0
            &&& n.f == 0
        }
    }

    /// The grid entry for `key` names a discovered non-root node at `key`.
    pub open spec fn grid_entry_ok(&self, key: u64) -> bool {
        let b = self.grid@[key] as int;
        &&& 0 <= b < self.len()
        &&& self.has_parent(b)
        &&& self.nodes@[b].state.spec_grid_position() == key
    }

    /// No discovered non-root node is cheaper than the grid's entry for its position.
    pub open spec fn best_ok(&self, i: int) -> bool {
        let key = self.nodes@[i].state.spec_grid_position();
        self.has_parent(i) ==> self.grid@.contains_key(key) && self.nodes@[self.grid@[key] as int].g
            <= self.nodes@[i].g
    }

    /// The invariant of the arena, the maps and the frontier's items.
    pub open spec fn wf_core(&self, model: M, start: M::State) -> bool {
        &&& forall|i: int| 0 <= i < self.len() ==> #[trigger] self.link_ok(model, start, i)
        &&& forall|k: u64| #[trigger] self.parent_map@.contains_key(k) ==> k < self.len()
        &&& forall|k: u64| #[trigger] self.grid@.contains_key(k) ==> self.grid_entry_ok(k)
        &&& forall|i: int| 0 <= i < self.len() ==> #[trigger] self.best_ok(i)
        &&& forall|item: (u64, u64)| #[trigger]
            heap_items(self.queue).contains(item) ==> item.1 < self.len() && item.0 == key_of(
                self.nodes@[item.1 as int].f,
            )
        &&& heap_items(self.queue).len() <= self.len()
    }

    /// The invariant of a search under way for `(model, start)`: a node has
    /// been popped, so the heap has a top key, which is the greatest key while
    /// only roots exist.
    pub open spec fn wf_with(&self, model: M, start: M::State) -> bool {
        &&& self.wf_core(model, start)
        &&& heap_top(self.queue) is Some
        &&& self.parent_map@ =~= Map::empty() ==> heap_top(self.queue) == Some(u64::MAX)
    }

    /// Nothing discovered: the state of a new or cleared engine.
    pub open spec fn is_fresh(&self) -> bool {
        &&& self.problem@ is None
        &&& self.nodes@.len() == 0
        &&& self.parent_map@ =~= Map::empty()
        &&& self.grid@ =~= Map::empty()
        &&& heap_items(self.queue).len() == 0
        &&& heap_top(self.queue) is None
    }

    pub open spec fn wf(&self) -> bool {
        match self.problem@ {
            None => self.is_fresh(),
            Some(p) => self.wf_with(p.0, p.1),
        }
    }

    /// The priorities of the nodes waiting in the frontier.
    pub open spec fn priorities(&self) -> Set<u64> {
        Set::new(
            |p: u64|
                exists|item: (u64, u64)| #[trigger]
                    heap_items(self.queue).contains(item) && p == u64::MAX - item.0,
        )
    }

    /// The priority of the node expanded last, if any.
    pub open spec fn last_priority(&self) -> Option<u64> {
        match heap_top(self.queue) {
            Some(t) => Some((u64::MAX - t) as u64),
            None => None,
        }
    }

    /// The number of nodes waiting in the frontier.
    pub open spec fn frontier_len(&self) -> nat {
        heap_items(self.queue).len()
    }

    pub fn new() -> (r: Self)
        ensures
            r.wf(),
            r.is_fresh(),
            r.id_counter == 0,
    {
        Search {
            queue: heap_new(),
            nodes: Vec::new(),
            parent_map: table_new(),
            grid: table_new(),
            id_counter: 0,
            problem: Ghost(None),
        }
    }

    /// Empties the frontier and both maps; the id counter is kept.
    pub fn clear(&mut self)
        ensures
            final(self).wf(),
            final(self).is_fresh(),
            final(self).id_counter == old(self).id_counter,
    {
        heap_clear(&mut self.queue);
        table_clear(&mut self.parent_map);
        table_clear(&mut self.grid);
        self.nodes.clear();
        self.problem = Ghost(None);
    }

    /// Whether `step` is the state and control of a node waiting in the frontier.
    pub open spec fn in_frontier(&self, step: (M::State, M::Control)) -> bool {
        exists|item: (u64, u64)| #[trigger]
            heap_items(self.queue).contains(item) && step == self.step_of(item.1 as int)
    }

    /// `steps` lists the frontier's items, in some order, each as its node's
    /// state and control.
    pub open spec fn lists_frontier(&self, steps: Seq<(M::State, M::Control)>) -> bool {
        exists|items: Seq<(u64, u64)>|
            #![trigger items.to_multiset()]
            items.to_multiset() =~= heap_items(self.queue) && steps == items.map_values(
                |it: (u64, u64)| self.step_of(it.1 as int),
            )
    }

    /// The states and controls waiting in the frontier, in no stated order.
    pub fn frontier(&self) -> (r: Vec<(M::State, M::Control)>)
        requires
            self.wf(),
        ensures
            self.lists_frontier(r@),
            r@.len() == self.frontier_len(),
            forall|j: int| 0 <= j < r@.len() ==> self.in_frontier(#[trigger] r@[j]),
    {
        let entries = heap_entries(&self.queue);
        let mut r: Vec<(M::State, M::Control)> = Vec::new();
        let mut j: usize = 0;
        proof {
            entries@.to_multiset_ensures();
        }
        while j < entries.len()
            invariant
                self.wf(),
                entries@.to_multiset() =~= heap_items(self.queue),
                j <= entries@.len(),
                r@.len() == j,
                r@ == entries@.take(j as int).map_values(|it: (u64, u64)| self.step_of(it.1 as int)),
                forall|t: int| 0 <= t < j ==> self.in_frontier(#[trigger] r@[t]),
            decreases entries@.len() - j,
        {
            let item = entries[j];
            proof {
                entries@.to_multiset_ensures();
                assert(entries@.contains(item));
                assert(heap_items(self.queue).contains(item));
                if self.problem@ is None {
                    assert(heap_items(self.queue).count(item) == 0);
                }
                assert(item.1 < self.len());
            }
            proof {
                assert(self.nodes@.len() == self.nodes.len());
            }
            let idx = item.1 as usize;
            let n = &self.nodes[idx];
            let ghost before = r@;
            r.push((n.state, n.control));
            proof {
                assert(entries@.take(j + 1).map_values(|it: (u64, u64)| self.step_of(it.1 as int))
                    =~= entries@.take(j as int).map_values(|it: (u64, u64)| self.step_of(it.1 as int)).push(
                    self.step_of(item.1 as int),
                ));
                assert(self.in_frontier(r@[j as int]));
                assert forall|t: int| 0 <= t < j + 1 implies self.in_frontier(#[trigger] r@[t]) by {
                    if t < j {
                        assert(r@[t] == before[t]);
                    }
                }
            }
            j += 1;
        }
        proof {
            entries@.to_multiset_ensures();
            assert(entries@.take(j as int) =~= entries@);
            assert(entries@.to_multiset() =~= heap_items(self.queue));
        }
        r
    }

    /// The grid positions discovered so far, each once, in no stated order.
    pub fn discovered(&self) -> (r: Vec<u64>)
        ensures
            r@.to_set() == self.grid@.dom(),
            r@.no_duplicates(),
    {
        table_keys(&self.grid)
    }
}

/// One control absorbed as a child of node `cur` (of state `s`, cost `g`
/// and priority `f`): when the model integrates it into a state, the id
/// counter advances (wrapping); when the child's cost `g + cost` and
/// `g + cost + estimate` fit in `u64`, its priority is
/// `max(g + cost + estimate, f)`, and when it improves on the best cost of its
/// grid position (and the arena has room) it joins the arena, the parent
/// links, the best-cost map and the frontier. Nothing else changes.
pub open spec fn absorb<M: Model, E: Estimate<M>>(
    v: (Seq<Node<M>>, Map<u64, u64>, Map<u64, u64>, Multiset<(u64, u64)>, u64),
    cur: int,
    control: M::Control,
    model: M,
    goal: M::State,
) -> (Seq<Node<M>>, Map<u64, u64>, Map<u64, u64>, Multiset<(u64, u64)>, u64) {
    let n = v.0[cur];
    match model.spec_integrate(n.state, control) {
        None => v,
        Some(child) => {
            let id = if v.4 < u64::MAX {
                (v.4 + 1) as u64
            } else {
                0u64
            };
            let cost = model.spec_cost(n.state, control, child);
            let g = n.g + cost;
            let h = E::spec_estimate(model, child, goal);
            if g + h > u64::MAX {
                (v.0, v.1, v.2, v.3, id)
            } else {
                let f = max_int(g + h, n.f as int) as u64;
                let key = child.spec_grid_position();
                let improves = !v.2.contains_key(key) || g < v.0[v.2[key] as int].g;
                if improves && v.0.len() < usize::MAX {
                    let idx = v.0.len() as u64;
                    (
                        v.0.push(Node { id, g: g as u64, f, state: child, control }),
                        v.1.insert(idx, cur as u64),
                        v.2.insert(key, idx),
                        v.3.insert((key_of(f), idx)),
                        id,
                    )
                } else {
                    (v.0, v.1, v.2, v.3, id)
                }
            }
        },
    }
}

/// `controls` absorbed in order as children of node `cur`.
pub open spec fn expanded<M: Model, E: Estimate<M>>(
    v: (Seq<Node<M>>, Map<u64, u64>, Map<u64, u64>, Multiset<(u64, u64)>, u64),
    cur: int,
    controls: Seq<M::Control>,
    model: M,
    goal: M::State,
) -> (Seq<Node<M>>, Map<u64, u64>, Map<u64, u64>, Multiset<(u64, u64)>, u64)
    decreases controls.len(),
{
    if controls.len() == 0 {
        v
    } else {
        absorb::<M, E>(
            expanded::<M, E>(v, cur, controls.drop_last(), model, goal),
            cur,
            controls.last(),
            model,
            goal,
        )
    }
}

/// Absorbing controls keeps the arena's prefix and adds at most one node per
/// control.
pub proof fn lemma_expanded_growth<M: Model, E: Estimate<M>>(
    v: (Seq<Node<M>>, Map<u64, u64>, Map<u64, u64>, Multiset<(u64, u64)>, u64),
    cur: int,
    controls: Seq<M::Control>,
    model: M,
    goal: M::State,
)
    requires
        0 <= cur < v.0.len(),
    ensures
        ({
            let r = expanded::<M, E>(v, cur, controls, model, goal);
            &&& v.0.len() <= r.0.len() <= v.0.len() + controls.len()
            &&& r.0.take(v.0.len() as int) == v.0
        }),
    decreases controls.len(),
{
    if controls.len() > 0 {
        let prev = controls.drop_last();
        lemma_expanded_growth::<M, E>(v, cur, prev, model, goal);
        let w = expanded::<M, E>(v, cur, prev, model, goal);
        let r = expanded::<M, E>(v, cur, controls, model, goal);
        assert(w.0.take(v.0.len() as int) == v.0);
        assert(w.0[cur] == v.0[cur]);
        assert(r == absorb::<M, E>(w, cur, controls.last(), model, goal));
        assert(r.0.len() <= w.0.len() + 1);
        assert(w.0.len() <= r.0.len());
        assert(r.0.take(v.0.len() as int) =~= v.0);
        assert(v.0.len() <= r.0.len() <= v.0.len() + controls.len());
    } else {
        assert(expanded::<M, E>(v, cur, controls, model, goal) == v);
        assert(v.0.take(v.0.len() as int) =~= v.0);
    }
}

/// What absorbing controls keeps and records: best costs never grow, the
/// frontier keeps its items, every best-cost entry is an old one or a node in
/// the frontier, and each control that integrates within `u64` leaves its
/// grid position with a best cost no greater than its own (arena room
/// permitting).
pub proof fn lemma_expanded_records<M: Model, E: Estimate<M>>(
    v: (Seq<Node<M>>, Map<u64, u64>, Map<u64, u64>, Multiset<(u64, u64)>, u64),
    cur: int,
    controls: Seq<M::Control>,
    model: M,
    goal: M::State,
)
    requires
        0 <= cur < v.0.len(),
        forall|k: u64| #[trigger] v.2.contains_key(k) ==> v.2[k] < v.0.len(),
    ensures
        ({
            let r = expanded::<M, E>(v, cur, controls, model, goal);
            &&& v.0.len() <= r.0.len()
            &&& r.0.take(v.0.len() as int) == v.0
            &&& forall|k: u64| #[trigger] r.2.contains_key(k) ==> r.2[k] < r.0.len()
            &&& forall|k: u64|
                #[trigger] v.2.contains_key(k) ==> r.2.contains_key(k) && r.0[r.2[k] as int].g
                    <= v.0[v.2[k] as int].g
            &&& forall|it: (u64, u64)| #[trigger] v.3.contains(it) ==> r.3.contains(it)
            &&& forall|k: u64|
                #[trigger] r.2.contains_key(k) ==> (v.2.contains_key(k) && r.2[k] == v.2[k]) || r.3.contains(
                    (key_of(r.0[r.2[k] as int].f), r.2[k]),
                )
            &&& r.0.len() < usize::MAX ==> forall|c: M::Control|
                #[trigger] controls.contains(c) ==> match model.spec_integrate(v.0[cur].state, c) {
                    Some(s2) => {
                        let g2 = v.0[cur].g + model.spec_cost(v.0[cur].state, c, s2);
                        g2 + E::spec_estimate(model, s2, goal) <= u64::MAX ==> r.2.contains_key(
                            s2.spec_grid_position(),
                        ) && r.0[r.2[s2.spec_grid_position()] as int].g <= g2
                    },
                    None => true,
                }
        }),
    decreases controls.len(),
{
    let r = expanded::<M, E>(v, cur, controls, model, goal);
    if controls.len() == 0 {
        assert(v.0.take(v.0.len() as int) =~= v.0);
    } else {
        let prev = controls.drop_last();
        let c = controls.last();
        lemma_expanded_records::<M, E>(v, cur, prev, model, goal);
        let w = expanded::<M, E>(v, cur, prev, model, goal);
        assert(r == absorb::<M, E>(w, cur, c, model, goal));
        assert(w.0[cur] == v.0[cur]);
        assert(w.0.len() <= r.0.len());
        assert forall|i: int| 0 <= i < w.0.len() implies r.0[i] == w.0[i] by {}
        assert(r.0.take(v.0.len() as int) =~= v.0);
        assert forall|k: u64| #[trigger] v.2.contains_key(k) implies r.2.contains_key(k)
            && r.0[r.2[k] as int].g <= v.0[v.2[k] as int].g by {
            assert(w.2.contains_key(k));
        }
        assert forall|k: u64| #[trigger] r.2.contains_key(k) implies (v.2.contains_key(k) && r.2[k]
            == v.2[k]) || r.3.contains((key_of(r.0[r.2[k] as int].f), r.2[k])) by {
            if w.2.contains_key(k) && r.2[k] == w.2[k] {
                assert(r.0[r.2[k] as int] == w.0[w.2[k] as int]);
                if !(v.2.contains_key(k) && w.2[k] == v.2[k]) {
                    assert(w.3.contains((key_of(w.0[w.2[k] as int].f), w.2[k])));
                }
            }
        }
        assert forall|it: (u64, u64)| #[trigger] v.3.contains(it) implies r.3.contains(it) by {
            assert(w.3.contains(it));
        }
        if r.0.len() < usize::MAX {
            assert forall|d: M::Control| #[trigger] controls.contains(d) implies match model.spec_integrate(
                v.0[cur].state,
                d,
            ) {
                Some(s2) => {
                    let g2 = v.0[cur].g + model.spec_cost(v.0[cur].state, d, s2);
                    g2 + E::spec_estimate(model, s2, goal) <= u64::MAX ==> r.2.contains_key(
                        s2.spec_grid_position(),
                    ) && r.0[r.2[s2.spec_grid_position()] as int].g <= g2
                },
                None => true,
            } by {
                let j = choose|j: int| 0 <= j < controls.len() && controls[j] == d;
                if j < prev.len() {
                    assert(prev[j] == d);
                    assert(prev.contains(d));
                    if let Some(s2) = model.spec_integrate(v.0[cur].state, d) {
                        let key = s2.spec_grid_position();
                        if w.2.contains_key(key) {
                            assert(r.2.contains_key(key));
                        }
                    }
                }
            }
        }
    }
}

/// The estimate is consistent (it drops by at most the cost of a
/// transition) and is zero on states that reach `goal`.
pub open spec fn estimate_fits<M: Model, E: Estimate<M>>(model: M, goal: M::State) -> bool {
    &&& forall|s: M::State, c: M::Control| #[trigger]
        model.spec_integrate(s, c) matches Some(s2) ==> E::spec_estimate(model, s, goal)
            <= model.spec_cost(s, c, s2) + E::spec_estimate(model, s2, goal)
    &&& forall|s: M::State| #[trigger] model.spec_converge(s, goal) ==> E::spec_estimate(model, s, goal)
        == 0
}

/// The cost of the first `j + 2` steps is that of the first `j + 1` plus the
/// transition into step `j + 1`.
pub proof fn lemma_chain_cost_step<M: Model>(model: M, p: Seq<(M::State, M::Control)>, j: int)
    requires
        0 <= j,
        j + 1 < p.len(),
    ensures
        chain_cost(model, p.take(j + 2)) == chain_cost(model, p.take(j + 1)) + model.spec_cost(
            p[j].0,
            p[j + 1].1,
            p[j + 1].0,
        ),
{
    let s = p.take(j + 2);
    assert(s.take(j + 1) =~= p.take(j + 1));
}

/// Along a trajectory that reaches `goal`, the estimate from each step is at
/// most the cost that remains after it.
pub proof fn lemma_estimate_remaining<M: Model, E: Estimate<M>>(
    model: M,
    goal: M::State,
    p: Seq<(M::State, M::Control)>,
    j: int,
)
    requires
        estimate_fits::<M, E>(model, goal),
        super::is_chain(model, p),
        p.len() >= 1,
        model.spec_converge(p.last().0, goal),
        0 <= j < p.len(),
    ensures
        chain_cost(model, p.take(j + 1)) + E::spec_estimate(model, p[j].0, goal) <= chain_cost(
            model,
            p,
        ),
    decreases p.len() - j,
{
    if j == p.len() - 1 {
        assert(p.take(j + 1) =~= p);
        assert(model.spec_converge(p[j].0, goal));
    } else {
        lemma_estimate_remaining::<M, E>(model, goal, p, j + 1);
        lemma_chain_cost_step(model, p, j);
        assert(model.spec_integrate(p[j].0, p[j + 1].1) == Some(p[j + 1].0));
    }
}

/// A trajectory's cost is never negative.
pub proof fn lemma_chain_cost_nonneg<M: Model>(model: M, steps: Seq<(M::State, M::Control)>)
    ensures
        chain_cost(model, steps) >= 0,
    decreases steps.len(),
{
    if steps.len() > 1 {
        lemma_chain_cost_nonneg(model, steps.take(steps.len() - 1));
    }
}

/// Controls none of which integrates change nothing.
pub proof fn lemma_expanded_none<M: Model, E: Estimate<M>>(
    v: (Seq<Node<M>>, Map<u64, u64>, Map<u64, u64>, Multiset<(u64, u64)>, u64),
    cur: int,
    controls: Seq<M::Control>,
    model: M,
    goal: M::State,
)
    requires
        0 <= cur < v.0.len(),
        forall|c: M::Control| #[trigger]
            controls.contains(c) ==> model.spec_integrate(v.0[cur].state, c) is None,
    ensures
        expanded::<M, E>(v, cur, controls, model, goal) == v,
    decreases controls.len(),
{
    if controls.len() > 0 {
        let prev = controls.drop_last();
        assert forall|c: M::Control| #[trigger] prev.contains(c) implies model.spec_integrate(
            v.0[cur].state,
            c,
        ) is None by {
            let j = choose|j: int| 0 <= j < prev.len() && prev[j] == c;
            assert(controls[j] == c);
            assert(controls.contains(c));
        }
        lemma_expanded_none::<M, E>(v, cur, prev, model, goal);
        assert(controls.contains(controls.last()) && controls[controls.len() - 1] == controls.last());
    }
}

/// Each node of `r` past `v`'s arena is a child of `cur` through one of
/// `controls`.
pub open spec fn children_of<M: Model>(
    v: (Seq<Node<M>>, Map<u64, u64>, Map<u64, u64>, Multiset<(u64, u64)>, u64),
    r: (Seq<Node<M>>, Map<u64, u64>, Map<u64, u64>, Multiset<(u64, u64)>, u64),
    cur: int,
    controls: Seq<M::Control>,
) -> bool {
    forall|i: int|
        v.0.len() <= i < r.0.len() ==> r.1.contains_key(i as u64) && (r.1[i as u64] as int) == cur
            && controls.contains(#[trigger] r.0[i].control)
}

/// Each node that absorbing controls adds is a child of `cur` through one of
/// the controls.
pub proof fn lemma_expanded_children<M: Model, E: Estimate<M>>(
    v: (Seq<Node<M>>, Map<u64, u64>, Map<u64, u64>, Multiset<(u64, u64)>, u64),
    cur: int,
    controls: Seq<M::Control>,
    model: M,
    goal: M::State,
)
    requires
        0 <= cur < v.0.len(),
        forall|k: u64| #[trigger] v.1.contains_key(k) ==> k < v.0.len(),
    ensures
        children_of(v, expanded::<M, E>(v, cur, controls, model, goal), cur, controls),
        forall|k: u64| #[trigger]
            expanded::<M, E>(v, cur, controls, model, goal).1.contains_key(k) ==> v.1.contains_key(k)
                || k >= v.0.len(),
        forall|k: u64| #[trigger]
            v.1.contains_key(k) ==> expanded::<M, E>(v, cur, controls, model, goal).1.contains_key(k)
                && expanded::<M, E>(v, cur, controls, model, goal).1[k] == v.1[k],
    decreases controls.len(),
{
    if controls.len() > 0 {
        let prev = controls.drop_last();
        lemma_expanded_children::<M, E>(v, cur, prev, model, goal);
        lemma_expanded_growth::<M, E>(v, cur, prev, model, goal);
        let w = expanded::<M, E>(v, cur, prev, model, goal);
        assert(children_of(v, w, cur, prev));
        let r = expanded::<M, E>(v, cur, controls, model, goal);
        assert(r == absorb::<M, E>(w, cur, controls.last(), model, goal));
        assert(w.0[cur] == v.0[cur]);
        assert forall|i: int| v.0.len() <= i < r.0.len() implies #[trigger] r.1.contains_key(
            i as u64,
        ) && (r.1[i as u64] as int) == cur && controls.contains(r.0[i].control) by {
            if i < w.0.len() {
                assert(r.0[i] == w.0[i]);
                if r.0.len() > w.0.len() {
                    assert(w.0.len() < usize::MAX);
                    assert(i as u64 != w.0.len() as u64);
                }
                assert(prev.contains(w.0[i].control));
                let j = choose|j: int| 0 <= j < prev.len() && prev[j] == w.0[i].control;
                assert(controls[j] == prev[j]);
            } else {
                assert(controls[controls.len() - 1] == r.0[i].control);
            }
        }
        assert(children_of(v, r, cur, controls));
        assert forall|k: u64| #[trigger] v.1.contains_key(k) implies r.1.contains_key(k) && r.1[k]
            == v.1[k] by {
            assert(w.1.contains_key(k) && w.1[k] == v.1[k]);
        }
        assert forall|k: u64| #[trigger] r.1.contains_key(k) implies v.1.contains_key(k) || k >= v.0.len() by {
            if !w.1.contains_key(k) {
                assert(k == w.0.len() as u64);
            }
        }
    } else {
        assert(expanded::<M, E>(v, cur, controls, model, goal) == v);
    }
}

/// The greater of two integers.
pub open spec fn max_int(a: int, b: int) -> int {
    if a >= b {
        a
    } else {
        b
    }
}

/// The priority of the last of `steps` under the estimate `E`: 0 for a
/// single step, else the cost so far plus the estimate from the last state,
/// raised to the priority of the steps before it.
pub open spec fn path_priority<M: Model, E: Estimate<M>>(
    model: M,
    goal: M::State,
    steps: Seq<(M::State, M::Control)>,
) -> int
    decreases steps.len(),
{
    if steps.len() <= 1 {
        0
    } else {
        max_int(
            chain_cost(model, steps) + E::spec_estimate(model, steps.last().0, goal),
            path_priority::<M, E>(model, goal, steps.take(steps.len() - 1)),
        )
    }
}

impl<M: Model> Search<M> {
    /// Node `i`, if not a root, has the priority `max(g + estimate, f of its parent)`.
    pub open spec fn priority_ok<E: Estimate<M>>(&self, model: M, goal: M::State, i: int) -> bool {
        let n = self.nodes@[i];
        self.has_parent(i) ==> n.f == max_int(
            n.g + E::spec_estimate(model, n.state, goal),
            self.nodes@[self.parent(i)].f as int,
        )
    }

    /// Every node's priority follows the estimate `E`.
    pub open spec fn priorities_ok<E: Estimate<M>>(&self) -> bool {
        match self.problem@ {
            None => true,
            Some(p) => forall|i: int|
                0 <= i < self.len() ==> #[trigger] self.priority_ok::<E>(p.0, p.2, i),
        }
    }

    /// The priority rule reads only the problem, the arena and the parent links.
    pub proof fn lemma_priorities_frame<E: Estimate<M>>(&self, other: &Self)
        requires
            self.priorities_ok::<E>(),
            other.problem == self.problem,
            other.nodes@ == self.nodes@,
            other.parent_map@ == self.parent_map@,
        ensures
            other.priorities_ok::<E>(),
    {
        if let Some(p) = self.problem@ {
            assert forall|i: int| 0 <= i < other.len() implies #[trigger] other.priority_ok::<E>(
                p.0,
                p.2,
                i,
            ) by {
                assert(self.priority_ok::<E>(p.0, p.2, i));
            }
        }
    }

    /// A node's priority is the priority of its lineage.
    pub proof fn lemma_priority_path<E: Estimate<M>>(&self, i: int)
        requires
            self.problem@ is Some,
            self.wf_core(self.model(), self.start()),
            self.priorities_ok::<E>(),
            0 <= i < self.len(),
        ensures
            self.nodes@[i].f == path_priority::<M, E>(
                self.model(),
                self.problem@.unwrap().2,
                self.path_steps(i),
            ),
        decreases i,
    {
        let p = self.problem@.unwrap();
        assert(self.link_ok(p.0, p.1, i));
        assert(self.priority_ok::<E>(p.0, p.2, i));
        if self.has_parent(i) {
            let q = self.parent(i);
            self.lemma_priority_path::<E>(q);
            self.lemma_path(p.0, p.1, i);
            let steps = self.path_steps(i);
            assert(steps.take(steps.len() - 1) =~= self.path_steps(q));
        }
    }
}

impl<M: Model> Search<M> {
    /// The core invariant carries over to a state with the same arena and maps
    /// whose frontier holds only items of this one.
    pub proof fn lemma_core_frame(&self, other: &Self, model: M, start: M::State)
        requires
            self.wf_core(model, start),
            heap_items(other.queue).subset_of(heap_items(self.queue)),
            heap_items(other.queue).len() <= heap_items(self.queue).len(),
            other.nodes@ == self.nodes@,
            other.parent_map@ == self.parent_map@,
            other.grid@ == self.grid@,
        ensures
            other.wf_core(model, start),
    {
        assert forall|i: int| 0 <= i < other.len() implies #[trigger] other.link_ok(
            model,
            start,
            i,
        ) by {
            assert(self.link_ok(model, start, i));
        }
        assert forall|k: u64| #[trigger] other.grid@.contains_key(k) implies other.grid_entry_ok(
            k,
        ) by {
            assert(self.grid_entry_ok(k));
        }
        assert forall|i: int| 0 <= i < other.len() implies #[trigger] other.best_ok(i) by {
            assert(self.best_ok(i));
        }
        assert forall|it: (u64, u64)| #[trigger]
            heap_items(other.queue).contains(it) implies it.1 < other.len() && it.0 == key_of(
            other.nodes@[it.1 as int].f,
        ) by {
            assert(heap_items(self.queue).contains(it));
        }
    }

    /// The invariant reads only the frontier, the arena and the two maps.
    pub proof fn lemma_frame(&self, other: &Self, model: M, start: M::State)
        requires
            self.wf_with(model, start),
            heap_items(other.queue) == heap_items(self.queue),
            heap_top(other.queue) == heap_top(self.queue),
            other.nodes@ == self.nodes@,
            other.parent_map@ == self.parent_map@,
            other.grid@ == self.grid@,
        ensures
            other.wf_with(model, start),
    {
        self.lemma_core_frame(other, model, start);
    }

    /// After a pop of `item`, the invariant holds again with `item`'s key on top.
    pub proof fn lemma_popped(&self, other: &Self, model: M, start: M::State, item: (u64, u64))
        requires
            self.wf_core(model, start),
            heap_items(self.queue).contains(item),
            heap_items(other.queue) =~= heap_items(self.queue).remove(item),
            heap_top(other.queue) == Some(item.0),
            other.nodes@ == self.nodes@,
            other.parent_map@ == self.parent_map@,
            other.grid@ == self.grid@,
        ensures
            other.wf_with(model, start),
            item.1 < other.len(),
            item.0 == key_of(other.nodes@[item.1 as int].f),
    {
        assert(heap_items(other.queue).subset_of(heap_items(self.queue)));
        self.lemma_core_frame(other, model, start);
        assert(self.link_ok(model, start, item.1 as int));
        if self.parent_map@ =~= Map::empty() {
            assert(!self.has_parent(item.1 as int));
        }
    }

    /// The steps from the root of node `i`'s lineage down to node `i`.
    pub open spec fn path_steps(&self, i: int) -> Seq<(M::State, M::Control)>
        decreases i,
    {
        if self.has_parent(i) && 0 <= self.parent(i) < i {
            self.path_steps(self.parent(i)).push(self.step_of(i))
        } else {
            seq![self.step_of(i)]
        }
    }

    /// Each discovered node's lineage is a trajectory from `start` whose cost
    /// is the node's accumulated cost.
    pub proof fn lemma_path(&self, model: M, start: M::State, i: int)
        requires
            self.wf_core(model, start),
            0 <= i < self.len(),
        ensures
            is_trajectory_from(model, start, self.path_steps(i)),
            chain_cost(model, self.path_steps(i)) == self.nodes@[i].g,
            self.path_steps(i).last() == self.step_of(i),
        decreases i,
    {
        assert(self.link_ok(model, start, i));
        let steps = self.path_steps(i);
        if self.has_parent(i) {
            let p = self.parent(i);
            self.lemma_path(model, start, p);
            let prev = self.path_steps(p);
            assert(steps == prev.push(self.step_of(i)));
            assert(steps.take(prev.len() as int) =~= prev);
            assert forall|j: int|
                0 < j < steps.len() implies #[trigger] model.spec_integrate(steps[j - 1].0, steps[j].1)
                == Some(steps[j].0) by {
                if j < prev.len() {
                    assert(steps[j - 1] == prev[j - 1] && steps[j] == prev[j]);
                }
            }
        } else {
            assert(steps.len() == 1);
        }
    }

    /// The trajectory of node `i`: its lineage and, with `recompute`, the sum of
    /// the model's transition costs along it, else the node's stored cost.
    pub fn trace(&self, model: &M, i: usize, recompute: bool) -> (r: (Vec<(M::State, M::Control)>, u64))
        requires
            self.problem@ matches Some(p) && p.0 == *model && self.wf_with(p.0, p.1),
            i < self.len(),
        ensures
            r.0@ == self.path_steps(i as int),
            r.1 == self.nodes@[i as int].g,
        decreases i,
    {
        let ghost start = self.problem@.unwrap().1;
        proof {
            assert(self.link_ok(*model, start, i as int));
        }
        let n = &self.nodes[i];
        match table_get(&self.parent_map, i as u64) {
            Some(p) => {
                proof {
                    assert(self.has_parent(i as int));
                }
                let parent = p as usize;
                let (mut steps, cost) = self.trace(model, parent, recompute);
                steps.push((n.state, n.control));
                let total = if recompute {
                    let pn = &self.nodes[parent];
                    cost + model.cost(&pn.state, &n.control, &n.state)
                } else {
                    n.g
                };
                (steps, total)
            },
            None => {
                let mut steps: Vec<(M::State, M::Control)> = Vec::new();
                steps.push((n.state, n.control));
                (steps, n.g)
            },
        }
    }
}

impl<M: Model> Search<M> {
    /// The model of the search under way.
    pub open spec fn model(&self) -> M {
        self.problem@.unwrap().0
    }

    /// The start state of the search under way.
    pub open spec fn start(&self) -> M::State {
        self.problem@.unwrap().1
    }

    /// Whether a candidate of accumulated cost `g` at grid position `key` beats
    /// what is known: the position is new, or its best node costs more.
    pub open spec fn improves(&self, key: u64, g: u64) -> bool {
        !self.grid@.contains_key(key) || g < self.nodes@[self.grid@[key] as int].g
    }

    /// Records a candidate child of node `cur` when it improves on the best
    /// known cost of its grid position: the position's entry then names the
    /// new node, which is linked to `cur` and pushed to the frontier. A
    /// candidate that does not improve changes nothing.
    pub fn discover(
        &mut self,
        cur: usize,
        id: u64,
        child: M::State,
        control: M::Control,
        g: u64,
        f: u64,
    ) -> (added: bool)
        requires
            old(self).problem@ is Some,
            old(self).wf_with(old(self).model(), old(self).start()),
            cur < old(self).len(),
            old(self).model().spec_integrate(old(self).nodes@[cur as int].state, control) == Some(
                child,
            ),
            g == old(self).nodes@[cur as int].g + old(self).model().spec_cost(
                old(self).nodes@[cur as int].state,
                control,
                child,
            ),
            f >= old(self).nodes@[cur as int].f,
            heap_top(old(self).queue) == Some(key_of(old(self).nodes@[cur as int].f)),
        ensures
            added == (old(self).improves(child.spec_grid_position(), g) && old(self).len()
                < usize::MAX),
            added ==> {
                let idx = old(self).len() as u64;
                &&& final(self).grid@ == old(self).grid@.insert(child.spec_grid_position(), idx)
                &&& final(self).parent_map@ == old(self).parent_map@.insert(idx, cur as u64)
                &&& final(self).nodes@ == old(self).nodes@.push(
                    (Node { id, g, f, state: child, control }),
                )
                &&& heap_items(final(self).queue) =~= heap_items(old(self).queue).insert(
                    (key_of(f), idx),
                )
                &&& heap_top(final(self).queue) == heap_top(old(self).queue)
                &&& final(self).problem == old(self).problem
                &&& final(self).id_counter == old(self).id_counter
            },
            !added ==> *final(self) == *old(self),
            final(self).wf_with(final(self).model(), final(self).start()),
    {
        let key = child.grid_position();
        let improves = match table_get(&self.grid, key) {
            Some(best) => {
                proof {
                    assert(self.grid_entry_ok(key));
                }
                g < self.nodes[best as usize].g
            },
            None => true,
        };
        if !improves || self.nodes.len() == usize::MAX {
            return false;
        }
        let ghost prev = *self;
        let ghost model = self.model();
        let ghost start = self.start();
        let idx = self.nodes.len() as u64;
        table_insert(&mut self.grid, key, idx);
        table_insert(&mut self.parent_map, idx, cur as u64);
        self.nodes.push(Node { id, g, f, state: child, control });
        heap_push(&mut self.queue, u64::MAX - f, idx);
        proof {
            let n = idx as int;
            assert(self.nodes@[n].state == child);
            assert forall|i: int| 0 <= i < self.len() implies #[trigger] self.link_ok(
                model,
                start,
                i,
            ) by {
                if i < n {
                    assert(prev.link_ok(model, start, i));
                    assert(self.nodes@[i] == prev.nodes@[i]);
                    if prev.has_parent(i) {
                        assert(self.nodes@[prev.parent(i)] == prev.nodes@[prev.parent(i)]);
                    }
                } else {
                    assert(self.has_parent(n) && self.parent(n) == cur);
                    assert(self.nodes@[cur as int] == prev.nodes@[cur as int]);
                }
            }
            assert forall|k: u64| #[trigger] self.grid@.contains_key(k) implies self.grid_entry_ok(
                k,
            ) by {
                if k != key {
                    assert(prev.grid_entry_ok(k));
                    assert(self.nodes@[prev.grid@[k] as int] == prev.nodes@[prev.grid@[k] as int]);
                }
            }
            assert forall|i: int| 0 <= i < self.len() implies #[trigger] self.best_ok(i) by {
                if i < n {
                    assert(prev.best_ok(i));
                    assert(self.nodes@[i] == prev.nodes@[i]);
                    let ki = prev.nodes@[i].state.spec_grid_position();
                    if prev.has_parent(i) && ki != key {
                        assert(prev.grid_entry_ok(ki));
                        assert(self.nodes@[prev.grid@[ki] as int] == prev.nodes@[prev.grid@[ki] as int]);
                    }
                }
            }
            assert forall|item: (u64, u64)| #[trigger]
                heap_items(self.queue).contains(item) implies item.1 < self.len() && item.0
                == key_of(self.nodes@[item.1 as int].f) by {
                if item != (key_of(f), idx) {
                    assert(heap_items(prev.queue).contains(item));
                    assert(self.nodes@[item.1 as int] == prev.nodes@[item.1 as int]);
                }
            }
        }
        true
    }
}

impl<M: Model> Search<M> {
    /// The engine's state as values: arena, parent links, best-cost map,
    /// frontier items and id counter.
    pub open spec fn snapshot(&self) -> (Seq<Node<M>>, Map<u64, u64>, Map<u64, u64>, Multiset<(u64, u64)>, u64) {
        (self.nodes@, self.parent_map@, self.grid@, heap_items(self.queue), self.id_counter)
    }

    /// Node `cur` is stale: a cheaper node holds its grid position.
    pub open spec fn is_stale(&self, cur: int) -> bool {
        let key = self.nodes@[cur].state.spec_grid_position();
        self.grid@.contains_key(key) && self.nodes@[self.grid@[key] as int].g < self.nodes@[cur].g
    }

    /// Expands node `cur`, just popped from the frontier. When its state
    /// converges with `goal`, or the node is stale, nothing changes (the
    /// result tells the two apart). Otherwise the sampler's controls for its
    /// state are absorbed in order, as [`absorb`] states.
    pub fn expand<E: Estimate<M>, S: Sampler<M>>(
        &mut self,
        cur: usize,
        model: &M,
        goal: &M::State,
        sampler: &mut S,
    ) -> (converged: bool)
        requires
            old(self).problem@ matches Some(p) && p.0 == *model,
            old(self).wf_with(*model, old(self).start()),
            cur < old(self).len(),
            heap_top(old(self).queue) == Some(key_of(old(self).nodes@[cur as int].f)),
            old(self).problem@ matches Some(p) && p.2 == *goal,
            old(self).priorities_ok::<E>(),
        ensures
            final(self).priorities_ok::<E>(),
            converged == model.spec_converge(old(self).nodes@[cur as int].state, *goal),
            converged || old(self).is_stale(cur as int) ==> *final(self) == *old(self),
            !converged && !old(self).is_stale(cur as int) ==> final(self).snapshot() == expanded::<
                M,
                E,
            >(
                old(self).snapshot(),
                cur as int,
                old(sampler).spec_sample(*model, old(self).nodes@[cur as int].state)@,
                *model,
                *goal,
            ),
            forall|m: M, s: M::State| #[trigger]
                final(sampler).spec_sample(m, s)@ == old(sampler).spec_sample(m, s)@,
            final(self).problem == old(self).problem,
            final(self).wf_with(*model, final(self).start()),
            old(self).len() <= final(self).len(),
            final(self).len() <= old(self).len() + old(sampler).spec_sample(
                *model,
                old(self).nodes@[cur as int].state,
            )@.len(),
            final(self).nodes@.take(old(self).len()) == old(self).nodes@,
            final(self).len() - old(self).len() == final(self).frontier_len()
                - old(self).frontier_len(),
            heap_top(final(self).queue) == heap_top(old(self).queue),
            (forall|c: M::Control| #[trigger]
                model.spec_integrate(old(self).nodes@[cur as int].state, c) is None)
                ==> final(self).len() == old(self).len(),
    {
        let state = self.nodes[cur].state;
        let g = self.nodes[cur].g;
        if model.converge(&state, goal) {
            return true;
        }
        let key = state.grid_position();
        if let Some(best) = table_get(&self.grid, key) {
            proof {
                assert(self.grid_entry_ok(key));
                assert(self.nodes@.len() == self.nodes.len());
                assert(best as usize as int == best as int);
            }
            if self.nodes[best as usize].g < g {
                assert(self.is_stale(cur as int));
                return false;
            }
            assert(!self.is_stale(cur as int));
        }
        let controls = sampler.sample(model, &state);
        self.expand_controls::<E>(cur, &controls, model, goal);
        false
    }

    /// Absorbs `controls`, in order, as children of node `cur`: see [`absorb`].
    pub fn expand_controls<E: Estimate<M>>(
        &mut self,
        cur: usize,
        controls: &Vec<M::Control>,
        model: &M,
        goal: &M::State,
    )
        requires
            old(self).problem@ matches Some(p) && p.0 == *model && p.2 == *goal,
            old(self).wf_with(*model, old(self).start()),
            cur < old(self).len(),
            heap_top(old(self).queue) == Some(key_of(old(self).nodes@[cur as int].f)),
            old(self).priorities_ok::<E>(),
        ensures
            final(self).snapshot() == expanded::<M, E>(
                old(self).snapshot(),
                cur as int,
                controls@,
                *model,
                *goal,
            ),
            final(self).priorities_ok::<E>(),
            final(self).problem == old(self).problem,
            final(self).wf_with(*model, final(self).start()),
            old(self).len() <= final(self).len(),
            final(self).len() <= old(self).len() + controls@.len(),
            final(self).nodes@.take(old(self).len()) == old(self).nodes@,
            final(self).len() - old(self).len() == final(self).frontier_len()
                - old(self).frontier_len(),
            heap_top(final(self).queue) == heap_top(old(self).queue),
            (forall|c: M::Control| #[trigger]
                model.spec_integrate(old(self).nodes@[cur as int].state, c) is None)
                ==> final(self).len() == old(self).len(),
    {
        let state = self.nodes[cur].state;
        let g = self.nodes[cur].g;
        let f = self.nodes[cur].f;
        let ghost start = self.start();
        let ghost first = *self;
        let mut k: usize = 0;
        while k < controls.len()
            invariant
                self.problem == first.problem,
                self.problem@ matches Some(p) && p.0 == *model && p.1 == start && p.2 == *goal,
                self.priorities_ok::<E>(),
                self.wf_with(*model, start),
                first.len() <= self.len(),
                self.len() <= first.len() + k,
                self.nodes@.take(first.len()) == first.nodes@,
                self.len() - first.len() == self.frontier_len() - first.frontier_len(),
                heap_top(self.queue) == heap_top(first.queue),
                cur < first.len(),
                state == first.nodes@[cur as int].state,
                g == first.nodes@[cur as int].g,
                f == first.nodes@[cur as int].f,
                heap_top(first.queue) == Some(key_of(f)),
                (forall|c: M::Control| #[trigger] model.spec_integrate(state, c) is None)
                    ==> self.len() == first.len(),
                k <= controls@.len(),
                self.snapshot() == expanded::<M, E>(
                    first.snapshot(),
                    cur as int,
                    controls@.take(k as int),
                    *model,
                    *goal,
                ),
            decreases controls@.len() - k,
        {
            let control = controls[k];
            let ghost at_start = *self;
            proof {
                assert(controls@.take(k + 1).drop_last() =~= controls@.take(k as int));
                assert(controls@.take(k + 1).last() == control);
                assert(self.nodes@[cur as int] == first.nodes@[cur as int]);
            }
            k += 1;
            if let Some(child) = model.integrate(&state, &control) {
                let ghost counted = *self;
                self.id_counter = if self.id_counter < u64::MAX {
                    self.id_counter + 1
                } else {
                    0
                };
                proof {
                    counted.lemma_frame(self, *model, start);
                    counted.lemma_priorities_frame::<E>(self);
                }
                let cost = model.cost(&state, &control, &child);
                if cost <= u64::MAX - g {
                    let child_g = g + cost;
                    let h = E::estimate(model, &child, goal);
                    if h <= u64::MAX - child_g {
                        let child_f = if child_g + h < f {
                            f
                        } else {
                            child_g + h
                        };
                        let id = self.id_counter;
                        let ghost before = *self;
                        self.discover(cur, id, child, control, child_g, child_f);
                        proof {
                            if self.len() > before.len() {
                                let n = before.len();
                                assert forall|i: int| 0 <= i < self.len() implies #[trigger] self.priority_ok::<E>(
                                    *model,
                                    *goal,
                                    i,
                                ) by {
                                    if i < n {
                                        assert(before.link_ok(*model, start, i));
                                        assert(before.priority_ok::<E>(*model, *goal, i));
                                        assert(self.nodes@[i] == before.nodes@[i]);
                                        if before.has_parent(i) {
                                            assert(self.nodes@[before.parent(i)] == before.nodes@[before.parent(i)]);
                                        }
                                    } else {
                                        assert(self.has_parent(n) && self.parent(n) == cur);
                                        assert(self.nodes@[cur as int] == before.nodes@[cur as int]);
                                    }
                                }
                                assert(self.nodes@.take(first.len()) =~= before.nodes@.take(
                                    first.len(),
                                ));
                            }
                        }
                    }
                }
            }
        }
        assert(controls@.take(k as int) =~= controls@);
        proof {
            lemma_expanded_growth::<M, E>(first.snapshot(), cur as int, controls@, *model, *goal);
            let r = expanded::<M, E>(first.snapshot(), cur as int, controls@, *model, *goal);
            assert(self.nodes@ == r.0);
        }
    }
}

impl<M: Model> Search<M> {
    /// Whether the next step starts a search: no node has left the frontier
    /// since the engine was made or cleared.
    pub open spec fn is_unseeded(&self) -> bool {
        heap_top(self.queue) is None
    }

    /// Starts a search: calls the model's `init` hook with `start` and puts a
    /// root node at `start` (no-op control, cost and priority zero) in the
    /// frontier, under the greatest key.
    fn seed<E: Estimate<M>>(&mut self, model: &mut M, start: &M::State, goal: &M::State)
        requires
            old(self).wf(),
            old(self).problem@ matches Some(p) ==> p.1 == *start,
            old(self).is_unseeded(),
        ensures
            final(self).problem@ == Some((*final(model), *start, *goal)),
            final(self).wf_core(*final(model), *start),
            final(self).len() == 1,
            final(self).frontier_len() == 1,
            heap_top(final(self).queue) == heap_top(old(self).queue),
            final(self).priorities_ok::<E>(),
            *final(model) == old(model).spec_init(*start),
            heap_items(final(self).queue).contains((u64::MAX, 0u64)),
            final(self).grid@ =~= Map::empty(),
    {
        model.init(start);
        self.nodes.clear();
        self.nodes.push(Node { id: 0, g: 0, f: 0, state: *start, control: M::no_op() });
        heap_push(&mut self.queue, u64::MAX, 0);
        self.problem = Ghost(Some((*model, *start, *goal)));
        proof {
            assert(self.link_ok(*model, *start, 0));
            assert(self.priority_ok::<E>(*model, *goal, 0));
            assert(self.grid@ =~= Map::empty()) by {
                if exists|k: u64| #[trigger] old(self).grid@.contains_key(k) {
                    let k = choose|k: u64| #[trigger] old(self).grid@.contains_key(k);
                    assert(old(self).grid_entry_ok(k));
                }
            }
            assert forall|item: (u64, u64)| #[trigger]
                heap_items(self.queue).contains(item) implies item.1 < self.len() && item.0
                == key_of(self.nodes@[item.1 as int].f) by {
                assert(heap_items(old(self).queue).count(item) == 0);
            }
        }
    }

    /// One step of the search: seeds it when [`Self::is_unseeded`], pops the
    /// node of lowest priority and expands it. The result is the trajectory to
    /// that node, `Final` when it converges with `goal`, else `Intermediate`;
    /// an empty frontier gives `Unreachable`. With `recompute`, a trajectory's
    /// cost is summed from the model's transition costs along it, else it is
    /// the node's accumulated cost; the two agree.
    pub fn next_trajectory<E: Estimate<M>, S: Sampler<M>>(
        &mut self,
        model: &mut M,
        start: &M::State,
        goal: &M::State,
        sampler: &mut S,
        recompute: bool,
    ) -> (r: super::PathResult<M>)
        requires
            old(self).wf(),
            old(self).priorities_ok::<E>(),
            old(self).problem@ matches Some(p) ==> p == (*old(model), *start, *goal),
        ensures
            final(self).wf(),
            final(self).priorities_ok::<E>(),
            final(self).problem@ == Some((*final(model), *start, *goal)),
            !old(self).is_unseeded() ==> *final(model) == *old(model),
            old(self).is_unseeded() ==> *final(model) == old(model).spec_init(*start),
            match r {
                super::PathResult::Final(t) => final(self).frontier_len() + 1 <= old(self).frontier_len()
                    + (if old(self).is_unseeded() { 1int } else { 0int }),
                super::PathResult::Intermediate(t) => final(self).frontier_len() + 1
                    <= old(self).frontier_len() + (if old(self).is_unseeded() { 1int } else { 0int })
                    + old(sampler).spec_sample(*final(model), t.trajectory@.last().0)@.len(),
                super::PathResult::Error(_) => true,
            },
            !(r is Error) ==> (final(self).last_priority() matches Some(p) && forall|q: u64|
                #[trigger] old(self).priorities().contains(q) ==> p <= q),
            match r {
                super::PathResult::Intermediate(t) => (final(self).len() < usize::MAX
                    && !(old(self).best_cost(t.trajectory@.last().0.spec_grid_position()) matches Some(b)
                    && b < t.cost)) ==> forall|c: M::Control| #[trigger]
                    old(sampler).spec_sample(*final(model), t.trajectory@.last().0)@.contains(c)
                        ==> match final(model).spec_integrate(t.trajectory@.last().0, c) {
                        Some(s2) => (t.cost + final(model).spec_cost(t.trajectory@.last().0, c, s2)
                            + E::spec_estimate(*final(model), s2, *goal) <= u64::MAX)
                            ==> (final(self).best_cost(s2.spec_grid_position()) matches Some(b2) && b2 <= t.cost
                            + final(model).spec_cost(t.trajectory@.last().0, c, s2)),
                        None => true,
                    },
                _ => true,
            },
            old(self).is_unseeded() ==> match r {
                super::PathResult::Final(t) => t.trajectory@ == seq![(*start, M::spec_no_op())],
                super::PathResult::Intermediate(t) => t.trajectory@ == seq![(*start, M::spec_no_op())],
                super::PathResult::Error(_) => false,
            },
            match r {
                super::PathResult::Final(t) => {
                    &&& is_trajectory_from(*final(model), *start, t.trajectory@)
                    &&& final(model).spec_converge(t.trajectory@.last().0, *goal)
                    &&& t.cost == chain_cost(*final(model), t.trajectory@)
                    &&& final(self).last_priority() == Some(
                        path_priority::<M, E>(*final(model), *goal, t.trajectory@) as u64,
                    )
                },
                super::PathResult::Intermediate(t) => {
                    &&& is_trajectory_from(*final(model), *start, t.trajectory@)
                    &&& !final(model).spec_converge(t.trajectory@.last().0, *goal)
                    &&& t.cost == chain_cost(*final(model), t.trajectory@)
                    &&& final(self).last_priority() == Some(
                        path_priority::<M, E>(*final(model), *goal, t.trajectory@) as u64,
                    )
                },
                super::PathResult::Error(e) => {
                    &&& e == super::PathFindingErr::Unreachable
                    &&& !old(self).is_unseeded()
                    &&& old(self).frontier_len() == 0
                    &&& final(self).snapshot() == old(self).snapshot()
                    &&& heap_top(final(self).queue) == heap_top(old(self).queue)
                    &&& final(self).problem == old(self).problem
                },
            },
    {
        if heap_top_key(&self.queue).is_none() {
            self.seed::<E>(model, start, goal);
        }
        let ghost seeded = *self;
        proof {
            if !old(self).is_unseeded() {
                assert(heap_items(seeded.queue) == heap_items(old(self).queue));
            }
        }
        match heap_pop(&mut self.queue) {
            None => {
                proof {
                    seeded.lemma_frame(self, *model, *start);
                    seeded.lemma_priorities_frame::<E>(self);
                }
                super::PathResult::Error(super::PathFindingErr::Unreachable)
            },
            Some(item) => {
                proof {
                    seeded.lemma_popped(self, *model, *start, item);
                    seeded.lemma_priorities_frame::<E>(self);
                }
                proof {
                    assert(self.nodes@.len() == self.nodes.len());
                }
                let cur = item.1 as usize;
                proof {
                    assert forall|q: u64| #[trigger] old(self).priorities().contains(q) implies (
                    u64::MAX - item.0) <= q by {
                        let other = choose|it: (u64, u64)| #[trigger]
                            heap_items(old(self).queue).contains(it) && q == u64::MAX - it.0;
                        if !old(self).is_unseeded() {
                            assert(heap_items(seeded.queue).contains(other));
                        } else {
                            assert(heap_items(old(self).queue).count(other) == 0);
                        }
                    }
                }
                let ghost popped = *self;
                let ghost samp_now = *sampler;
                let converged = self.expand::<E, S>(cur, model, goal, sampler);
                let (steps, cost) = self.trace(model, cur, recompute);
                proof {
                    if !converged && !popped.is_stale(cur as int) {
                        let v = popped.snapshot();
                        let controls = samp_now.spec_sample(*model, popped.nodes@[cur as int].state)@;
                        assert forall|k: u64| #[trigger] v.2.contains_key(k) implies v.2[k] < v.0.len() by {
                            assert(popped.grid_entry_ok(k));
                        }
                        lemma_expanded_records::<M, E>(v, cur as int, controls, *model, *goal);
                        let rr = expanded::<M, E>(v, cur as int, controls, *model, *goal);
                        assert(self.nodes@ == rr.0 && self.grid@ == rr.2);
                        assert(rr.0[cur as int] == v.0[cur as int]) by {
                            assert(rr.0.take(v.0.len() as int)[cur as int] == v.0[cur as int]);
                        }
                    }
                    if old(self).is_unseeded() {
                        assert(old(self).grid@ =~= popped.grid@);
                    }
                }
                proof {
                    assert(popped.frontier_len() + 1 == seeded.frontier_len());
                    if old(self).is_unseeded() {
                        assert(seeded.frontier_len() == 1);
                        assert(old(self).frontier_len() == 0);
                    } else {
                        assert(seeded.frontier_len() == old(self).frontier_len());
                    }
                    assert(self.nodes@[cur as int] == popped.nodes@[cur as int]);
                }
                proof {
                    self.lemma_path(*model, *start, cur as int);
                    self.lemma_priority_path::<E>(cur as int);
                    if old(self).is_unseeded() {
                        assert(cur == 0);
                        assert(self.link_ok(*model, *start, 0));
                        assert(!self.has_parent(0));
                        assert(self.path_steps(cur as int) =~= seq![(*start, M::spec_no_op())]);
                    }
                }
                let t = super::Trajectory { cost, trajectory: steps };
                if converged {
                    super::PathResult::Final(t)
                } else {
                    super::PathResult::Intermediate(t)
                }
            },
        }
    }

    /// Runs the search to completion. When `start` already converges with
    /// `goal`, returns at once the one-step trajectory at `start`. Otherwise
    /// seeds the search when none is under way, then pops and expands nodes
    /// until one converges (`Final`) or the frontier is empty (`Unreachable`).
    pub fn optimize<E: Estimate<M>, S: Sampler<M>>(
        &mut self,
        model: &mut M,
        start: &M::State,
        goal: &M::State,
        sampler: &mut S,
        recompute: bool,
    ) -> (r: super::PathResult<M>)
        requires
            old(self).wf(),
            old(self).priorities_ok::<E>(),
            old(self).problem@ matches Some(p) ==> p == (*old(model), *start, *goal),
        ensures
            final(self).wf(),
            final(self).priorities_ok::<E>(),
            old(model).spec_converge(*start, *goal) ==> {
                &&& *final(self) == *old(self)
                &&& *final(model) == *old(model)
                &&& *final(sampler) == *old(sampler)
                &&& r matches super::PathResult::Final(t) && t.cost == 0 && t.trajectory@ =~= seq![
                    (*start, M::spec_no_op()),
                ]
            },
            !old(model).spec_converge(*start, *goal) ==> final(self).problem@ == Some(
                (*final(model), *start, *goal),
            ),
            old(self).problem@ is Some ==> *final(model) == *old(model),
            (old(self).problem@ is None && !old(model).spec_converge(*start, *goal)) ==> *final(model)
                == old(model).spec_init(*start),
            match r {
                super::PathResult::Final(t) => {
                    &&& is_trajectory_from(*final(model), *start, t.trajectory@)
                    &&& final(model).spec_converge(t.trajectory@.last().0, *goal)
                    &&& t.cost == chain_cost(*final(model), t.trajectory@)
                },
                super::PathResult::Intermediate(_) => false,
                super::PathResult::Error(e) => {
                    &&& e == super::PathFindingErr::Unreachable
                    &&& final(self).frontier_len() == 0
                },
            },
            old(self).problem@ is None ==> (r matches super::PathResult::Final(t) ==> is_sampled_by(
                *old(sampler),
                *final(model),
                t.trajectory@,
            )),
            (old(self).problem@ is None && keys_identify::<M>() && estimate_fits::<M, E>(
                *final(model),
                *goal,
            ) && final(self).len() < usize::MAX) ==> forall|p: Seq<(M::State, M::Control)>|
                #![trigger is_sampled_by(*old(sampler), *final(model), p)]
                is_trajectory_from(*final(model), *start, p) && is_sampled_by(
                    *old(sampler),
                    *final(model),
                    p,
                ) && final(model).spec_converge(p.last().0, *goal) && chain_cost(*final(model), p)
                    <= u64::MAX ==> (r matches super::PathResult::Final(t) && t.cost <= chain_cost(
                    *final(model),
                    p,
                )),
            (old(self).problem@ is None && !final(model).spec_converge(*start, *goal) && forall|
                c: M::Control,
            | #[trigger] old(sampler).spec_sample(*final(model), *start)@.contains(c)
                ==> final(model).spec_integrate(*start, c) is None) ==> r
                == super::PathResult::<M>::Error(super::PathFindingErr::Unreachable),
    {
        if model.converge(start, goal) {
            let mut trajectory: Vec<(M::State, M::Control)> = Vec::new();
            trajectory.push((*start, M::no_op()));
            proof {
                assert forall|p: Seq<(M::State, M::Control)>| #[trigger]
                    is_sampled_by(*old(sampler), *model, p) implies chain_cost(*model, p) >= 0 by {
                    lemma_chain_cost_nonneg(*model, p);
                }
            }
            return super::PathResult::Final(super::Trajectory { cost: 0, trajectory });
        }
        if heap_top_key(&self.queue).is_none() {
            self.seed::<E>(model, start, goal);
        } else {
            proof {
                assert(self.problem@ is Some);
                assert(self.wf_with(*model, *start));
            }
        }
        let ghost isolated = old(self).problem@ is None && forall|c: M::Control| #[trigger]
            old(sampler).spec_sample(*model, *start)@.contains(c) ==> model.spec_integrate(*start, c)
                is None;
        let ghost fresh = old(self).problem@ is None;
        let ghost samp = *old(sampler);
        let ghost mut done: Set<int> = Set::empty();
        proof {
            if fresh {
                assert(self.link_ok(*model, *start, 0));
                assert(self.explored::<E, S>(samp, *goal, done));
                assert(self.links_sampled(samp));
            }
        }
        loop
            invariant
                self.problem@ == Some((*model, *start, *goal)),
                self.wf_core(*model, *start),
                self.priorities_ok::<E>(),
                heap_top(self.queue) is Some ==> self.wf_with(*model, *start),
                heap_top(self.queue) is None ==> self.frontier_len() > 0,
                old(self).problem@ is Some ==> *model == *old(model),
                !old(model).spec_converge(*start, *goal),
                isolated == (old(self).problem@ is None && forall|c: M::Control| #[trigger]
                    old(sampler).spec_sample(*model, *start)@.contains(c) ==> model.spec_integrate(
                        *start,
                        c,
                    ) is None),
                isolated ==> self.len() == 1,
                old(self).problem@ is None ==> *model == old(model).spec_init(*start),
                fresh == (old(self).problem@ is None),
                samp == *old(sampler),
                forall|m: M, st: M::State| #[trigger]
                    sampler.spec_sample(m, st)@ == samp.spec_sample(m, st)@,
                fresh ==> self.explored::<E, S>(samp, *goal, done),
                fresh ==> self.links_sampled(samp),
            decreases (usize::MAX - self.len()) + self.frontier_len(),
        {
            let ghost before = *self;
            match heap_pop(&mut self.queue) {
                None => {
                    proof {
                        before.lemma_frame(self, *model, *start);
                        before.lemma_priorities_frame::<E>(self);
                        if fresh && keys_identify::<M>() && estimate_fits::<M, E>(*model, *goal)
                            && self.len() < usize::MAX {
                            assert forall|p: Seq<(M::State, M::Control)>| #[trigger]
                                is_sampled_by(samp, *model, p) && is_trajectory_from(*model, *start, p)
                                    && model.spec_converge(p.last().0, *goal) && chain_cost(*model, p)
                                    <= u64::MAX implies false by {
                                before.lemma_cover::<E, S>(samp, *goal, done, p, p.len() - 1);
                                if before.settled(done, p, p.len() - 1) {
                                    let x = choose|x: int|
                                        #[trigger] done.contains(x) && before.nodes@[x].state
                                            == p[p.len() - 1].0 && before.nodes@[x].g <= chain_cost(
                                            *model,
                                            p.take(p.len() as int),
                                        );
                                    assert(done.contains(x));
                                } else {
                                    let it = choose|it: (u64, u64)| #[trigger]
                                        heap_items(before.queue).contains(it) && before.nodes@[it.1 as int].f
                                            <= chain_cost(*model, p);
                                    assert(heap_items(before.queue).count(it) > 0);
                                }
                            }
                        }
                    }
                    return super::PathResult::Error(super::PathFindingErr::Unreachable);
                },
                Some(item) => {
                    proof {
                        before.lemma_popped(self, *model, *start, item);
                        before.lemma_priorities_frame::<E>(self);
                        if isolated {
                            assert(self.link_ok(*model, *start, item.1 as int));
                        }
                    }
                    proof {
                        assert(self.nodes@.len() == self.nodes.len());
                    }
                    let cur = item.1 as usize;
                    let ghost popped = *self;
                    let ghost stale = popped.is_stale(cur as int);
                    let ghost samp_now = *sampler;
                    let converged = self.expand::<E, S>(cur, model, goal, sampler);
                    proof {
                        assert(samp_now.spec_sample(*model, popped.nodes@[cur as int].state)@
                            == samp.spec_sample(*model, popped.nodes@[cur as int].state)@);
                        if isolated && !converged && !stale {
                            assert(popped.nodes@[cur as int].state == *start);
                            lemma_expanded_none::<M, E>(
                                popped.snapshot(),
                                cur as int,
                                samp.spec_sample(*model, *start)@,
                                *model,
                                *goal,
                            );
                        }
                    }
                    if converged {
                        let (steps, cost) = self.trace(model, cur, recompute);
                        proof {
                            self.lemma_path(*model, *start, cur as int);
                            if fresh {
                                before.lemma_links_frame(self, samp);
                                self.lemma_path_sampled(samp, cur as int);
                            }
                            if fresh && keys_identify::<M>() && estimate_fits::<M, E>(*model, *goal)
                                && self.len() < usize::MAX {
                                self.lemma_priority_exact::<E>(*goal, cur as int);
                                assert forall|p: Seq<(M::State, M::Control)>| #[trigger]
                                    is_sampled_by(samp, *model, p) && is_trajectory_from(*model, *start, p)
                                        && model.spec_converge(p.last().0, *goal) && chain_cost(*model, p)
                                        <= u64::MAX implies cost <= chain_cost(*model, p) by {
                                    before.lemma_cover::<E, S>(samp, *goal, done, p, p.len() - 1);
                                    if before.settled(done, p, p.len() - 1) {
                                        let x = choose|x: int|
                                            #[trigger] done.contains(x) && before.nodes@[x].state
                                                == p[p.len() - 1].0 && before.nodes@[x].g <= chain_cost(
                                                *model,
                                                p.take(p.len() as int),
                                            );
                                        assert(done.contains(x));
                                    } else {
                                        let it = choose|it: (u64, u64)| #[trigger]
                                            heap_items(before.queue).contains(it) && before.nodes@[it.1 as int].f
                                                <= chain_cost(*model, p);
                                        assert(it.0 <= item.0);
                                        assert(it.0 == key_of(before.nodes@[it.1 as int].f));
                                    }
                                }
                            }
                        }
                        return super::PathResult::Final(super::Trajectory { cost, trajectory: steps });
                    }
                    proof {
                        if fresh {
                            self.lemma_links_step::<E, S>(&popped, &before, samp, *goal, item, stale);
                            self.lemma_explored_step::<E, S>(&popped, &before, samp, *goal, done, item, stale);
                            if !stale {
                                done = done.insert(cur as int);
                            }
                        }
                    }
                },
            }
        }
    }
}

impl<M: Model> Search<M> {
    /// With a consistent estimate, a non-root node's priority is its cost plus
    /// the estimate from its state, and every node's cost is at most its
    /// priority.
    pub proof fn lemma_priority_exact<E: Estimate<M>>(&self, goal: M::State, i: int)
        requires
            self.problem@ matches Some(p) && p.2 == goal,
            self.wf_core(self.model(), self.start()),
            self.priorities_ok::<E>(),
            estimate_fits::<M, E>(self.model(), goal),
            0 <= i < self.len(),
        ensures
            self.has_parent(i) ==> self.nodes@[i].f == self.nodes@[i].g + E::spec_estimate(
                self.model(),
                self.nodes@[i].state,
                goal,
            ),
            self.nodes@[i].g <= self.nodes@[i].f,
        decreases i,
    {
        let m = self.model();
        assert(self.link_ok(m, self.start(), i));
        assert(self.priority_ok::<E>(m, goal, i));
        if self.has_parent(i) {
            let q = self.parent(i);
            self.lemma_priority_exact::<E>(goal, q);
            assert(self.link_ok(m, self.start(), q));
            let pn = self.nodes@[q];
            let n = self.nodes@[i];
            assert(m.spec_integrate(pn.state, n.control) == Some(n.state));
        }
    }
}

impl<M: Model> Search<M> {
    /// Node `x` has every control that `sampler` proposes for its state
    /// recorded: the child's grid position has a best cost no greater than
    /// the child's (when cost and estimate fit in `u64`).
    pub open spec fn closed<E: Estimate<M>, S: Sampler<M>>(
        &self,
        sampler: S,
        goal: M::State,
        x: int,
    ) -> bool {
        let m = self.model();
        let n = self.nodes@[x];
        forall|c: M::Control| #[trigger]
            sampler.spec_sample(m, n.state)@.contains(c) ==> match m.spec_integrate(n.state, c) {
                Some(s2) => {
                    let g2 = n.g + m.spec_cost(n.state, c, s2);
                    g2 + E::spec_estimate(m, s2, goal) <= u64::MAX ==> self.grid@.contains_key(
                        s2.spec_grid_position(),
                    ) && self.nodes@[self.grid@[s2.spec_grid_position()] as int].g <= g2
                },
                None => true,
            }
    }

    /// `done`, the nodes expanded so far in a search begun from scratch:
    /// none reaches the goal, each is closed while the arena has room, the
    /// root (node 0) is expanded or waiting, and every best-cost entry is
    /// expanded or waiting.
    pub open spec fn explored<E: Estimate<M>, S: Sampler<M>>(
        &self,
        sampler: S,
        goal: M::State,
        done: Set<int>,
    ) -> bool {
        &&& self.len() >= 1
        &&& forall|x: int| #[trigger]
            done.contains(x) ==> 0 <= x < self.len() && !self.model().spec_converge(
                self.nodes@[x].state,
                goal,
            )
        &&& self.len() < usize::MAX ==> forall|x: int| #[trigger]
            done.contains(x) ==> self.closed::<E, S>(sampler, goal, x)
        &&& done.contains(0) || heap_items(self.queue).contains((u64::MAX, 0u64))
        &&& forall|k: u64| #[trigger]
            self.grid@.contains_key(k) ==> done.contains(self.grid@[k] as int) || heap_items(
                self.queue,
            ).contains((key_of(self.nodes@[self.grid@[k] as int].f), self.grid@[k]))
    }

    /// Step `j` of `p` is settled: an expanded node holds its state at no
    /// more than the cost of the steps up to it.
    pub open spec fn settled(&self, done: Set<int>, p: Seq<(M::State, M::Control)>, j: int) -> bool {
        exists|x: int|
            #[trigger] done.contains(x) && self.nodes@[x].state == p[j].0 && self.nodes@[x].g
                <= chain_cost(self.model(), p.take(j + 1))
    }

    /// Along a sampled trajectory from the start that reaches the goal, each
    /// step is settled, or the frontier holds a node whose priority is at most
    /// the trajectory's cost.
    pub proof fn lemma_cover<E: Estimate<M>, S: Sampler<M>>(
        &self,
        sampler: S,
        goal: M::State,
        done: Set<int>,
        p: Seq<(M::State, M::Control)>,
        j: int,
    )
        requires
            self.problem@ matches Some(pr) && pr.2 == goal,
            self.wf_core(self.model(), self.start()),
            self.priorities_ok::<E>(),
            estimate_fits::<M, E>(self.model(), goal),
            keys_identify::<M>(),
            self.explored::<E, S>(sampler, goal, done),
            self.len() < usize::MAX,
            is_trajectory_from(self.model(), self.start(), p),
            is_sampled_by(sampler, self.model(), p),
            self.model().spec_converge(p.last().0, goal),
            chain_cost(self.model(), p) <= u64::MAX,
            0 <= j < p.len(),
        ensures
            self.settled(done, p, j) || exists|it: (u64, u64)| #[trigger]
                heap_items(self.queue).contains(it) && self.nodes@[it.1 as int].f <= chain_cost(
                    self.model(),
                    p,
                ),
        decreases j,
    {
        let m = self.model();
        let cost = chain_cost(m, p);
        if j == 0 {
            assert(self.link_ok(m, self.start(), 0));
            if done.contains(0) {
                assert(p.take(1).len() == 1);
                assert(chain_cost(m, p.take(1)) == 0);
                assert(self.nodes@[0].state == p[0].0);
                assert(self.settled(done, p, 0));
            } else {
                assert(heap_items(self.queue).contains((u64::MAX, 0u64)));
                assert(self.nodes@[0].f == 0);
                lemma_chain_cost_nonneg(m, p);
            }
        } else {
            self.lemma_cover::<E, S>(sampler, goal, done, p, j - 1);
            if self.settled(done, p, j - 1) {
                let x = choose|x: int|
                    #[trigger] done.contains(x) && self.nodes@[x].state == p[j - 1].0
                        && self.nodes@[x].g <= chain_cost(m, p.take(j));
                let n = self.nodes@[x];
                let c = p[j].1;
                assert(sampler.spec_sample(m, p[j - 1].0)@.contains(c));
                assert(m.spec_integrate(p[j - 1].0, c) == Some(p[j].0));
                assert(self.closed::<E, S>(sampler, goal, x));
                lemma_chain_cost_step(m, p, j - 1);
                lemma_estimate_remaining::<M, E>(m, goal, p, j);
                let s2 = p[j].0;
                let key = s2.spec_grid_position();
                assert(self.grid@.contains_key(key));
                let b = self.grid@[key] as int;
                assert(self.grid_entry_ok(key));
                assert(self.nodes@[b].state == s2);
                let g2 = n.g + m.spec_cost(n.state, c, s2);
                assert(g2 <= chain_cost(m, p.take(j + 1)));
                assert(g2 + E::spec_estimate(m, s2, goal) <= cost);
                assert(self.nodes@[b].g <= g2);
                if done.contains(b) {
                    assert(self.settled(done, p, j));
                } else {
                    self.lemma_priority_exact::<E>(goal, b);
                    assert(heap_items(self.queue).contains((key_of(self.nodes@[b].f), b as u64)));
                    assert(self.nodes@[b].f <= cost);
                }
            }
        }
    }
}

impl<M: Model> Search<M> {
    /// One pop and expansion keeps the exploration invariant: a stale node is
    /// dropped, any other node joins the expanded set.
    pub proof fn lemma_explored_step<E: Estimate<M>, S: Sampler<M>>(
        &self,
        popped: &Self,
        before: &Self,
        sampler: S,
        goal: M::State,
        done: Set<int>,
        item: (u64, u64),
        stale: bool,
    )
        requires
            before.problem@ matches Some(pr) && pr.2 == goal,
            before.wf_core(before.model(), before.start()),
            before.explored::<E, S>(sampler, goal, done),
            heap_items(before.queue).contains(item),
            popped.problem == before.problem,
            popped.nodes@ == before.nodes@,
            popped.parent_map@ == before.parent_map@,
            popped.grid@ == before.grid@,
            heap_items(popped.queue) =~= heap_items(before.queue).remove(item),
            item.1 < before.len(),
            stale == popped.is_stale(item.1 as int),
            !popped.model().spec_converge(popped.nodes@[item.1 as int].state, goal),
            self.problem == popped.problem,
            stale ==> *self == *popped,
            !stale ==> self.snapshot() == expanded::<M, E>(
                popped.snapshot(),
                item.1 as int,
                sampler.spec_sample(popped.model(), popped.nodes@[item.1 as int].state)@,
                popped.model(),
                goal,
            ),
        ensures
            self.explored::<E, S>(
                sampler,
                goal,
                if stale {
                    done
                } else {
                    done.insert(item.1 as int)
                },
            ),
    {
        let m = before.model();
        let cur = item.1 as int;
        let st = before.nodes@[cur].state;
        let nd = if stale {
            done
        } else {
            done.insert(cur)
        };
        assert(before.link_ok(m, before.start(), 0));
        if item == (u64::MAX, 0u64) {
            if popped.is_stale(0) {
                assert(before.grid_entry_ok(st.spec_grid_position()));
            }
        }
        if stale {
            assert forall|x: int| #[trigger] done.contains(x) && self.len() < usize::MAX implies self.closed::<
                E,
                S,
            >(sampler, goal, x) by {
                assert(before.closed::<E, S>(sampler, goal, x));
            }
            assert forall|k: u64| #[trigger] self.grid@.contains_key(k) implies done.contains(
                self.grid@[k] as int,
            ) || heap_items(self.queue).contains(
                (key_of(self.nodes@[self.grid@[k] as int].f), self.grid@[k]),
            ) by {
                assert(before.grid_entry_ok(k));
                let b = before.grid@[k];
                if !done.contains(b as int) {
                    assert(heap_items(before.queue).contains((key_of(before.nodes@[b as int].f), b)));
                    if (key_of(before.nodes@[b as int].f), b) == item {
                        assert(k == st.spec_grid_position());
                    }
                }
            }
            if !done.contains(0) {
                assert(heap_items(before.queue).contains((u64::MAX, 0u64)));
            }
        } else {
            let v = popped.snapshot();
            let controls = sampler.spec_sample(m, st)@;
            assert forall|k: u64| #[trigger] v.2.contains_key(k) implies v.2[k] < v.0.len() by {
                assert(before.grid_entry_ok(k));
            }
            lemma_expanded_records::<M, E>(v, cur, controls, m, goal);
            let r = expanded::<M, E>(v, cur, controls, m, goal);
            assert(self.nodes@ == r.0 && self.grid@ == r.2 && heap_items(self.queue) == r.3);
            assert forall|x: int| 0 <= x < before.len() implies self.nodes@[x] == before.nodes@[x] by {
                assert(r.0.take(v.0.len() as int)[x] == v.0[x]);
            }
            assert forall|x: int| #[trigger] nd.contains(x) implies 0 <= x < self.len()
                && !self.model().spec_converge(self.nodes@[x].state, goal) by {}
            if self.len() < usize::MAX {
                assert forall|x: int| #[trigger] nd.contains(x) implies self.closed::<E, S>(
                    sampler,
                    goal,
                    x,
                ) by {
                    let n = self.nodes@[x];
                    if x == cur {
                        assert forall|c: M::Control| #[trigger]
                            sampler.spec_sample(m, n.state)@.contains(c) implies match m.spec_integrate(n.state, c) {
                                Some(s2) => {
                                    let g2 = n.g + m.spec_cost(n.state, c, s2);
                                    g2 + E::spec_estimate(m, s2, goal) <= u64::MAX ==> self.grid@.contains_key(
                                        s2.spec_grid_position(),
                                    ) && self.nodes@[self.grid@[s2.spec_grid_position()] as int].g <= g2
                                },
                                None => true,
                            } by {
                            assert(controls.contains(c));
                        }
                    } else {
                        assert(before.closed::<E, S>(sampler, goal, x));
                        assert forall|c: M::Control| #[trigger]
                            sampler.spec_sample(m, n.state)@.contains(c) implies match m.spec_integrate(n.state, c) {
                                Some(s2) => {
                                    let g2 = n.g + m.spec_cost(n.state, c, s2);
                                    g2 + E::spec_estimate(m, s2, goal) <= u64::MAX ==> self.grid@.contains_key(
                                        s2.spec_grid_position(),
                                    ) && self.nodes@[self.grid@[s2.spec_grid_position()] as int].g <= g2
                                },
                                None => true,
                            } by {
                            if let Some(s2) = m.spec_integrate(n.state, c) {
                                let key = s2.spec_grid_position();
                                if v.2.contains_key(key) {
                                    assert(r.2.contains_key(key));
                                }
                            }
                        }
                    }
                }
            }
            assert forall|k: u64| #[trigger] self.grid@.contains_key(k) implies nd.contains(
                self.grid@[k] as int,
            ) || heap_items(self.queue).contains(
                (key_of(self.nodes@[self.grid@[k] as int].f), self.grid@[k]),
            ) by {
                if v.2.contains_key(k) && r.2[k] == v.2[k] {
                    assert(before.grid_entry_ok(k));
                    let b = before.grid@[k];
                    if !done.contains(b as int) {
                        let bi = (key_of(before.nodes@[b as int].f), b);
                        assert(heap_items(before.queue).contains(bi));
                        if bi != item {
                            assert(v.3.contains(bi));
                            assert(r.3.contains(bi));
                        }
                    }
                }
            }
            if !nd.contains(0) {
                assert(heap_items(before.queue).contains((u64::MAX, 0u64)));
                assert(v.3.contains((u64::MAX, 0u64)));
            }
        }
    }
}

impl<M: Model> Search<M> {
    /// Every link of the arena goes through a control that `sampler`
    /// proposes for the parent's state.
    pub open spec fn links_sampled<S: Sampler<M>>(&self, sampler: S) -> bool {
        forall|i: int|
            0 <= i < self.len() && self.has_parent(i) ==> #[trigger] sampler.spec_sample(
                self.model(),
                self.nodes@[self.parent(i)].state,
            )@.contains(self.nodes@[i].control)
    }

    /// Sampled links depend only on the problem, the arena and the parent links.
    pub proof fn lemma_links_frame<S: Sampler<M>>(&self, other: &Self, sampler: S)
        requires
            self.links_sampled(sampler),
            other.problem == self.problem,
            other.nodes@ == self.nodes@,
            other.parent_map@ == self.parent_map@,
        ensures
            other.links_sampled(sampler),
    {
        assert forall|i: int| 0 <= i < other.len() && other.has_parent(i) implies #[trigger] sampler.spec_sample(
            other.model(),
            other.nodes@[other.parent(i)].state,
        )@.contains(other.nodes@[i].control) by {
            assert(self.has_parent(i) && self.parent(i) == other.parent(i));
            assert(sampler.spec_sample(self.model(), self.nodes@[self.parent(i)].state)@.contains(
                self.nodes@[i].control,
            ));
        }
    }

    /// With sampled links, each node's lineage is sampled.
    pub proof fn lemma_path_sampled<S: Sampler<M>>(&self, sampler: S, i: int)
        requires
            self.problem@ is Some,
            self.wf_core(self.model(), self.start()),
            self.links_sampled(sampler),
            0 <= i < self.len(),
        ensures
            is_sampled_by(sampler, self.model(), self.path_steps(i)),
        decreases i,
    {
        assert(self.link_ok(self.model(), self.start(), i));
        if self.has_parent(i) {
            let q = self.parent(i);
            self.lemma_path_sampled(sampler, q);
            self.lemma_path(self.model(), self.start(), q);
            let prev = self.path_steps(q);
            let steps = self.path_steps(i);
            assert forall|j: int| 0 < j < steps.len() implies #[trigger] sampler.spec_sample(
                self.model(),
                steps[j - 1].0,
            )@.contains(steps[j].1) by {
                if j < prev.len() {
                    assert(steps[j - 1] == prev[j - 1] && steps[j] == prev[j]);
                    assert(sampler.spec_sample(self.model(), prev[j - 1].0)@.contains(prev[j].1));
                } else {
                    assert(steps[j - 1] == prev.last());
                    assert(sampler.spec_sample(self.model(), self.nodes@[q].state)@.contains(
                        self.nodes@[i].control,
                    ));
                }
            }
        }
    }
}

impl<M: Model> Search<M> {
    /// One pop and expansion keeps the links sampled.
    pub proof fn lemma_links_step<E: Estimate<M>, S: Sampler<M>>(
        &self,
        popped: &Self,
        before: &Self,
        sampler: S,
        goal: M::State,
        item: (u64, u64),
        stale: bool,
    )
        requires
            before.problem@ matches Some(pr) && pr.2 == goal,
            before.wf_core(before.model(), before.start()),
            before.links_sampled(sampler),
            popped.problem == before.problem,
            popped.nodes@ == before.nodes@,
            popped.parent_map@ == before.parent_map@,
            item.1 < before.len(),
            self.problem == popped.problem,
            stale ==> *self == *popped,
            !stale ==> self.snapshot() == expanded::<M, E>(
                popped.snapshot(),
                item.1 as int,
                sampler.spec_sample(popped.model(), popped.nodes@[item.1 as int].state)@,
                popped.model(),
                goal,
            ),
        ensures
            self.links_sampled(sampler),
    {
        let m = before.model();
        let cur = item.1 as int;
        if stale {
            before.lemma_links_frame(self, sampler);
        } else {
            let v = popped.snapshot();
            let controls = sampler.spec_sample(m, before.nodes@[cur].state)@;
            assert forall|k: u64| #[trigger] v.1.contains_key(k) implies k < v.0.len() by {}
            lemma_expanded_children::<M, E>(v, cur, controls, m, goal);
            lemma_expanded_growth::<M, E>(v, cur, controls, m, goal);
            let r = expanded::<M, E>(v, cur, controls, m, goal);
            assert(children_of(v, r, cur, controls));
            assert(self.nodes@ == r.0 && self.parent_map@ == r.1);
            assert forall|i: int| 0 <= i < self.len() && self.has_parent(i) implies #[trigger] sampler.spec_sample(
                self.model(),
                self.nodes@[self.parent(i)].state,
            )@.contains(self.nodes@[i].control) by {
                if i < v.0.len() {
                    assert(r.0.take(v.0.len() as int)[i] == v.0[i]);
                    assert(before.link_ok(m, before.start(), i));
                    if before.has_parent(i) {
                        assert(v.1.contains_key(i as u64));
                        let q = before.parent(i);
                        assert(r.0.take(v.0.len() as int)[q] == v.0[q]);
                        assert(self.parent(i) == q);
                        assert(sampler.spec_sample(before.model(), before.nodes@[q].state)@.contains(
                            before.nodes@[i].control,
                        ));
                    } else {
                        assert(!v.1.contains_key(i as u64));
                        assert(r.1.contains_key(i as u64));
                    }
                } else {
                    assert(controls.contains(r.0[i].control));
                    assert(r.1.contains_key(i as u64) && (r.1[i as u64] as int) == cur);
                    assert(r.0.take(v.0.len() as int)[cur] == v.0[cur]);
                    assert(self.parent(i) == cur);
                    assert(controls.contains(self.nodes@[i].control));
                }
            }
        }
    }
}

impl<M: Model> Search<M> {
    /// The grid positions and accumulated costs of the discovered non-root nodes.
    pub open spec fn discoveries(&self) -> Set<(u64, u64)> {
        Set::new(
            |d: (u64, u64)|
                exists|i: int|
                    0 <= i < self.len() && self.has_parent(i) && d == (
                        self.nodes@[i].state.spec_grid_position(),
                        self.nodes@[i].g,
                    ),
        )
    }

    /// The cost of the best node recorded for a grid position.
    pub open spec fn best_cost(&self, key: u64) -> Option<u64> {
        if self.grid@.contains_key(key) {
            Some(self.nodes@[self.grid@[key] as int].g)
        } else {
            None
        }
    }

    /// The best-cost map keeps, for each discovered grid position, the least
    /// accumulated cost discovered there.
    pub proof fn lemma_best_cost(&self, model: M, start: M::State, key: u64, g: u64)
        requires
            self.wf_with(model, start),
            self.discoveries().contains((key, g)),
        ensures
            self.best_cost(key) matches Some(b) && b <= g && self.discoveries().contains((key, b)),
    {
        let i = choose|i: int|
            0 <= i < self.len() && self.has_parent(i) && (key, g) == (
                self.nodes@[i].state.spec_grid_position(),
                self.nodes@[i].g,
            );
        assert(self.best_ok(i));
        assert(self.grid_entry_ok(key));
        let b = self.grid@[key] as int;
        assert(0 <= b < self.len() && self.has_parent(b) && (key, self.nodes@[b].g) == (
            self.nodes@[b].state.spec_grid_position(),
            self.nodes@[b].g,
        ));
    }
}

} // verus!
