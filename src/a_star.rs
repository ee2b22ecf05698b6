//! A*: nodes come out in order of accumulated cost plus heuristic estimate.
use crate::best_first::{best_first, least_priority_solution, priority_determined, priority_monotone};
use crate::frontier::Frontier;
use crate::dijkstra::Dijkstra;
use crate::traits::algorithm::{sound_outcome, Algorithm};
use crate::traits::node::{reachable, Node};
use crate::visited::Visited;
use vstd::prelude::*;

verus! {

/// A* search over nodes of type `T`.
pub struct AStar<T: Node> {
    p_queue: Frontier<T>,
    visited: Visited,
    /// The states of the nodes expanded by the last run, in order.
    history: Ghost<Seq<u64>>,
}

impl<T: Node> AStar<T> {
    pub fn new() -> (r: Self)
        ensures
            r.visited_states() == Seq::<u64>::empty(),
    {
        AStar { p_queue: Frontier::new(), visited: Visited::new(), history: Ghost(Seq::empty()) }
    }
}

impl<T: Node> Algorithm<T> for AStar<T> {
    closed spec fn visited_states(&self) -> Seq<u64> {
        self.visited.order()
    }

    /// With a consistent heuristic (cost plus estimate never decreases along
    /// an action), where the state determines the goal test, the successors'
    /// states and the growth of cost plus estimate, no reachable solution has
    /// a smaller cost plus estimate than the one returned.
    open spec fn promise(root: T, r: Option<T>) -> bool {
        priority_monotone(root, true) && priority_determined(root, true) ==> (r matches Some(n)
            ==> least_priority_solution(root, n, true))
    }

    open spec fn records_root_successors() -> bool {
        true
    }

    closed spec fn expansions(&self) -> Seq<u64> {
        self.history@
    }

    open spec fn expands_each_state_once() -> bool {
        false
    }

    fn find_solution(&mut self, root: T) -> (r: Option<T>) {
        let r = best_first(&mut self.p_queue, &mut self.visited, &mut self.history, root, true);
        r
    }

    fn get_visited(&self) -> (r: Vec<u64>) {
        self.visited.states()
    }
}

/// On a space with non-negative action costs and a consistent heuristic
/// that is zero at every solution, where the state determines the goal test
/// and how cost and estimate grow, the solutions returned by A* and by
/// uniform-cost search cost the same.
pub proof fn lemma_a_star_matches_uniform_cost<T: Node>(root: T, a: T, d: T)
    requires
        sound_outcome(root, Some(a)),
        AStar::<T>::promise(root, Some(a)),
        sound_outcome(root, Some(d)),
        Dijkstra::<T>::promise(root, Some(d)),
        priority_monotone(root, false),
        priority_determined(root, false),
        priority_monotone(root, true),
        priority_determined(root, true),
        forall|m: T| #[trigger] reachable(root, m) && m.solution() ==> m.heuristic() == 0,
    ensures
        a.cost() == d.cost(),
{
    assert(least_priority_solution(root, a, true));
    assert(least_priority_solution(root, d, false));
    assert(reachable(root, a) && reachable(root, d));
}

/// On a space with a consistent heuristic that is zero at every solution,
/// where the state determines the goal test and how cost and estimate grow,
/// any two runs of A* from the same root that find a solution find
/// solutions of the same cost.
pub proof fn lemma_a_star_reruns_agree<T: Node>(root: T, a: T, b: T)
    requires
        sound_outcome(root, Some(a)),
        AStar::<T>::promise(root, Some(a)),
        sound_outcome(root, Some(b)),
        AStar::<T>::promise(root, Some(b)),
        priority_monotone(root, true),
        priority_determined(root, true),
        forall|m: T| #[trigger] reachable(root, m) && m.solution() ==> m.heuristic() == 0,
    ensures
        a.cost() == b.cost(),
{
    assert(reachable(root, a) && reachable(root, b));
}

} // verus!
