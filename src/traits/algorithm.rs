use crate::traits::node::{
    linked_to, reachable, solution_reachable, state_determined, states_reachable, Node,
};
use vstd::prelude::*;

verus! {

/// What a search may return: nothing, or a reachable node that passes the
/// goal test and whose parent links lead back to the root.
pub open spec fn sound_outcome<T: Node>(root: T, r: Option<T>) -> bool {
    match r {
        Some(n) => n.solution() && reachable(root, n) && linked_to(root, n),
        None => true,
    }
}

/// A search strategy. Each run of `find_solution` starts from fresh
/// bookkeeping.
pub trait Algorithm<T: Node> {
    /// The states recorded by the last run, in the order of their first visit.
    spec fn visited_states(&self) -> Seq<u64>;

    /// What this strategy promises of the outcome `r` of a run from `root`,
    /// beyond what every strategy promises.
    spec fn promise(root: T, r: Option<T>) -> bool;

    /// Whether a run from a root that is not a solution always records the
    /// states of all the root's successors.
    spec fn records_root_successors() -> bool;

    /// The states of the nodes expanded by the last run, in order of
    /// expansion.
    spec fn expansions(&self) -> Seq<u64>;

    /// Whether a run expands each state at most once.
    spec fn expands_each_state_once() -> bool;

    /// Searches from `root`. A returned node is a reachable solution; a root
    /// that is itself a solution is returned at once. Where the state alone
    /// determines the goal test and the successors' states, nothing is
    /// returned only when no solution is reachable, and then the state of
    /// every reachable node is recorded. The root's state is always
    /// recorded, each recorded state once, and only states of reachable nodes.
    fn find_solution(&mut self, root: T) -> (r: Option<T>)
        ensures
            sound_outcome(root, r),
            Self::promise(root, r),
            root.solution() ==> r == Some(root) && final(self).visited_states() == seq![root.state()],
            state_determined(root) && r is None ==> !solution_reachable(root),
            state_determined(root) && r is None ==> forall|n: T| #[trigger]
                reachable(root, n) ==> final(self).visited_states().contains(n.state()),
            Self::records_root_successors() && !root.solution() ==> forall|i: int|
                0 <= i < root.children().len() ==> final(self).visited_states().contains(
                    #[trigger] root.children()[i].state(),
                ),
            forall|i: int|
                0 <= i < final(self).expansions().len() ==> final(self).visited_states().contains(
                    #[trigger] final(self).expansions()[i],
                ),
            Self::expands_each_state_once() ==> final(self).expansions().no_duplicates(),
            final(self).visited_states().len() >= 1,
            final(self).visited_states()[0] == root.state(),
            final(self).visited_states().no_duplicates(),
            states_reachable(root, final(self).visited_states().to_set()),
    ;

    /// The states recorded by the last run.
    fn get_visited(&self) -> (r: Vec<u64>)
        ensures
            r@ == self.visited_states(),
    ;
}

} // verus!
