//! Uniform-cost search (Dijkstra): nodes come out in order of accumulated cost.
use crate::best_first::{best_first, least_priority_solution, priority_determined, priority_monotone};
use crate::frontier::Frontier;
use crate::traits::algorithm::{sound_outcome, Algorithm};
use crate::traits::node::{reachable, Node};
use crate::visited::Visited;
use vstd::prelude::*;

verus! {

/// Uniform-cost search over nodes of type `T`.
pub struct Dijkstra<T: Node> {
    p_queue: Frontier<T>,
    visited: Visited,
    /// The states of the nodes expanded by the last run, in order.
    history: Ghost<Seq<u64>>,
}

impl<T: Node> Dijkstra<T> {
    pub fn new() -> (r: Self)
        ensures
            r.visited_states() == Seq::<u64>::empty(),
    {
        Dijkstra { p_queue: Frontier::new(), visited: Visited::new(), history: Ghost(Seq::empty()) }
    }
}

impl<T: Node> Algorithm<T> for Dijkstra<T> {
    closed spec fn visited_states(&self) -> Seq<u64> {
        self.visited.order()
    }

    /// With non-negative action costs, where the state determines the goal
    /// test, the successors' states and the action costs, no reachable
    /// solution is cheaper than the one returned.
    open spec fn promise(root: T, r: Option<T>) -> bool {
        priority_monotone(root, false) && priority_determined(root, false) ==> (r matches Some(n)
            ==> least_priority_solution(root, n, false))
    }

    open spec fn records_root_successors() -> bool {
        true
    }

    closed spec fn expansions(&self) -> Seq<u64> {
        self.history@
    }

    open spec fn expands_each_state_once() -> bool {
        false
    }

    fn find_solution(&mut self, root: T) -> (r: Option<T>) {
        let r = best_first(&mut self.p_queue, &mut self.visited, &mut self.history, root, false);
        r
    }

    fn get_visited(&self) -> (r: Vec<u64>) {
        self.visited.states()
    }
}

/// On a space with non-negative action costs, where the state determines
/// the goal test, the successors' states and the action costs, any two runs
/// of uniform-cost search from the same root that find a solution find
/// solutions of the same cost.
pub proof fn lemma_uniform_cost_reruns_agree<T: Node>(root: T, a: T, b: T)
    requires
        sound_outcome(root, Some(a)),
        Dijkstra::<T>::promise(root, Some(a)),
        sound_outcome(root, Some(b)),
        Dijkstra::<T>::promise(root, Some(b)),
        priority_monotone(root, false),
        priority_determined(root, false),
    ensures
        a.cost() == b.cost(),
{
    assert(reachable(root, a) && reachable(root, b));
}

} // verus!
