//! Depth-first search: pre-order descent, each state entered at most once.
use crate::traits::algorithm::{sound_outcome, Algorithm};
use crate::traits::node::{
    expanded_into, lemma_child_linked, lemma_child_reachable, lemma_exhausted, lemma_linked_trans,
    lemma_reachable_trans, lemma_root_linked, lemma_root_reachable, linked_to, reachable,
    solution_reachable, state_determined, states_reachable, Node,
};
use crate::visited::Visited;
use vstd::prelude::*;

verus! {

/// Depth-first search over nodes of type `T`.
pub struct DFS<T: Node> {
    visited: Visited,
    /// For each fully explored state, the node it was explored from.
    done: Ghost<Map<u64, T>>,
    /// The states of the nodes expanded by the last run, in order.
    history: Ghost<Seq<u64>>,
}

impl<T: Node> DFS<T> {
    pub fn new() -> (r: Self)
        ensures
            r.visited_states() == Seq::<u64>::empty(),
    {
        DFS { visited: Visited::new(), done: Ghost(Map::empty()), history: Ghost(Seq::empty()) }
    }

    /// The bookkeeping that holds between steps of a run from `root`.
    spec fn consistent(&self, root: T) -> bool {
        &&& self.visited.wf()
        &&& self.visited.measure() >= 0
        &&& self.visited.order().len() >= 1
        &&& self.visited.order()[0] == root.state()
        &&& expanded_into(root, self.done@, self.visited.costs().dom())
        &&& states_reachable(root, self.visited.costs().dom())
        &&& self.history@.no_duplicates()
        &&& forall|j: int|
            0 <= j < self.history@.len() ==> self.visited.costs().contains_key(
                #[trigger] self.history@[j],
            )
        &&& forall|s: u64| #[trigger]
            self.done@.dom().contains(s) ==> self.visited.costs().contains_key(s)
    }

    /// Explores below `node`, whose state is already recorded. Returns the
    /// first solution met in pre-order; when none is met, `node`'s state and
    /// every state recorded on the way are fully explored.
    fn find_solution_recurse(&mut self, node: T, Ghost(root): Ghost<T>) -> (r: Option<T>)
        requires
            old(self).consistent(root),
            reachable(root, node),
            linked_to(root, node),
            old(self).visited.costs().contains_key(node.state()),
            forall|j: int| 0 <= j < old(self).history@.len() ==> #[trigger] old(self).history@[j] != node.state(),
        ensures
            final(self).consistent(root),
            final(self).visited.measure() <= old(self).visited.measure(),
            sound_outcome(root, r),
            r matches Some(n) ==> reachable(node, n) && linked_to(node, n),
            node.solution() ==> r == Some(node) && final(self).visited.order() == old(self).visited.order()
                && final(self).history@ == old(self).history@,
            final(self).history@.len() >= old(self).history@.len(),
            forall|j: int|
                0 <= j < old(self).history@.len() ==> #[trigger] final(self).history@[j] == old(self).history@[j],
            !node.solution() ==> final(self).history@.len() > old(self).history@.len()
                && final(self).history@[old(self).history@.len() as int] == node.state(),
            forall|j: int|
                old(self).history@.len() < j < final(self).history@.len() ==> !old(self).visited.costs().contains_key(#[trigger] final(self).history@[j]),
            forall|s: u64| #[trigger]
                old(self).visited.costs().contains_key(s) ==> final(self).visited.costs().contains_key(s),
            forall|s: u64| #[trigger]
                old(self).done@.dom().contains(s) ==> final(self).done@.dom().contains(s),
            r is None ==> final(self).done@.dom().contains(node.state()),
            r is None ==> forall|s: u64| #[trigger]
                final(self).visited.costs().contains_key(s) ==> old(self).visited.costs().contains_key(s) || final(self).done@.dom().contains(s),
        decreases old(self).visited.measure(),
    {
        if node.is_solution() {
            proof {
                lemma_root_reachable(node);
                lemma_root_linked(node);
            }
            return Some(node);
        }
        let ghost x = node;
        let ghost h_entry = self.history@;
        self.history = Ghost(self.history@.push(x.state()));
        proof {
            assert forall|j: int|
                0 <= j < self.history@.len() implies self.visited.costs().contains_key(
                #[trigger] self.history@[j],
            ) by {
                if j < h_entry.len() {
                    assert(self.history@[j] == h_entry[j]);
                }
            }
        }
        let ghost m0 = self.visited.measure();
        let ghost entry = self.visited.costs();
        let ghost entry_done = self.done@;
        let mut children = node.get_descendants();
        let ghost kids = children@;
        let ghost mut k: int = 0;
        while children.len() > 0
            invariant
                x == node,
                m0 == old(self).visited.measure(),
                entry == old(self).visited.costs(),
                entry_done == old(self).done@,
                h_entry == old(self).history@,
                self.history@.len() > h_entry.len(),
                forall|j: int| 0 <= j < h_entry.len() ==> #[trigger] self.history@[j] == h_entry[j],
                self.history@[h_entry.len() as int] == x.state(),
                forall|j: int|
                    h_entry.len() < j < self.history@.len() ==> !entry.contains_key(
                        #[trigger] self.history@[j],
                    ),
                0 <= k <= kids.len(),
                children@ == kids.subrange(k, kids.len() as int),
                kids == x.children(),
                reachable(root, x),
                linked_to(root, x),
                forall|j: int|
                    0 <= j < kids.len() ==> (#[trigger] kids[j].parent() matches Some(q) && *q == x),
                !x.solution(),
                self.consistent(root),
                self.visited.measure() <= m0,
                self.visited.costs().contains_key(x.state()),
                forall|j: int|
                    0 <= j < k ==> self.visited.costs().contains_key(#[trigger] kids[j].state()),
                forall|s: u64| #[trigger]
                    entry.contains_key(s) ==> self.visited.costs().contains_key(s),
                forall|s: u64| #[trigger]
                    entry_done.dom().contains(s) ==> self.done@.dom().contains(s),
                forall|s: u64| #[trigger]
                    self.visited.costs().contains_key(s) ==> entry.contains_key(s)
                        || self.done@.dom().contains(s),
            decreases children@.len(),
        {
            let child = children.remove(0);
            proof {
                assert(child == kids[k]);
                lemma_child_reachable(root, x, k);
                lemma_child_linked(root, x, kids[k]);
            }
            let s = child.get_state();
            if !self.visited.contains(s) {
                let ghost pre = self.visited.costs();
                let ghost pre_done = self.done@;
                let ghost pre_h = self.history@;
                assert forall|j: int| 0 <= j < pre_h.len() implies #[trigger] pre_h[j] != s by {
                    assert(pre.contains_key(pre_h[j]));
                }
                self.visited.record(s, child.get_cost());
                proof {
                    self.visited.lemma_measure_nonneg();
                    assert forall|t: u64| #[trigger]
                        self.visited.costs().dom().contains(t) implies exists|n: T|
                        #[trigger] reachable(root, n) && n.state() == t by {
                        if t == s {
                            assert(reachable(root, kids[k]) && kids[k].state() == t);
                        }
                    }
                }
                let ghost mid = self.visited.costs();
                let sub = self.find_solution_recurse(child, Ghost(root));
                proof {
                    let h = self.history@;
                    assert forall|j: int|
                        h_entry.len() < j < h.len() implies !entry.contains_key(#[trigger] h[j]) by {
                        if j < pre_h.len() {
                            assert(h[j] == pre_h[j]);
                        } else if j == pre_h.len() {
                            assert(h[j] == s);
                        } else {
                            assert(!mid.contains_key(h[j]));
                        }
                    }
                    assert forall|j: int| 0 <= j < h_entry.len() implies #[trigger] h[j] == h_entry[j] by {
                        assert(h[j] == pre_h[j]);
                    }
                    assert(h[h_entry.len() as int] == pre_h[h_entry.len() as int]);
                }
                proof {
                    assert forall|t: u64| #[trigger] entry.contains_key(t) implies self.visited.costs().contains_key(t) by {
                        assert(pre.contains_key(t));
                        assert(mid.contains_key(t));
                    }
                    assert(mid.contains_key(x.state()));
                    assert forall|t: u64| #[trigger] entry_done.dom().contains(t) implies self.done@.dom().contains(t) by {
                        assert(pre_done.dom().contains(t));
                    }
                    assert forall|j: int| 0 <= j <= k implies self.visited.costs().contains_key(
                        #[trigger] kids[j].state(),
                    ) by {
                        assert(mid.contains_key(kids[j].state()));
                    }
                }
                if sub.is_some() {
                    proof {
                        lemma_root_reachable(x);
                        lemma_child_reachable(x, x, k);
                        lemma_reachable_trans(x, kids[k], sub->0);
                        lemma_root_linked(x);
                        lemma_child_linked(x, x, kids[k]);
                        lemma_linked_trans(x, kids[k], sub->0);
                    }
                    return sub;
                }
                proof {
                    assert forall|t: u64| #[trigger]
                        self.visited.costs().contains_key(t) implies entry.contains_key(t)
                        || self.done@.dom().contains(t) by {
                        if t != s && pre.contains_key(t) && !entry.contains_key(t) {
                            assert(pre_done.dom().contains(t));
                        }
                    }
                }
            }
            proof {
                k = k + 1;
            }
        }
        self.done = Ghost(self.done@.insert(x.state(), x));
        proof {
            assert(kids.subrange(k, kids.len() as int).len() == 0);
            assert forall|i: int| 0 <= i < x.children().len() implies self.visited.costs().dom().contains(
                #[trigger] x.children()[i].state(),
            ) by {
                assert(self.visited.costs().contains_key(kids[i].state()));
            }
        }
        None
    }
}

impl<T: Node> Algorithm<T> for DFS<T> {
    closed spec fn visited_states(&self) -> Seq<u64> {
        self.visited.order()
    }

    open spec fn promise(root: T, r: Option<T>) -> bool {
        true
    }

    open spec fn records_root_successors() -> bool {
        false
    }

    closed spec fn expansions(&self) -> Seq<u64> {
        self.history@
    }

    open spec fn expands_each_state_once() -> bool {
        true
    }

    fn find_solution(&mut self, root: T) -> (r: Option<T>) {
        let ghost root_v = root;
        self.visited = Visited::new();
        self.done = Ghost(Map::empty());
        self.history = Ghost(Seq::empty());
        self.visited.record(root.get_state(), root.get_cost());
        proof {
            lemma_root_reachable(root_v);
            lemma_root_linked(root_v);
            self.visited.lemma_measure_nonneg();
            assert(self.visited.order() =~= seq![root_v.state()]);
            assert forall|t: u64| #[trigger]
                self.visited.costs().dom().contains(t) implies exists|n: T|
                #[trigger] reachable(root_v, n) && n.state() == t by {
                assert(reachable(root_v, root_v));
            }
        }
        let ghost entry = self.visited.costs();
        let r = self.find_solution_recurse(root, Ghost(root_v));
        proof {
            self.visited.lemma_order_set();
            if r is None {
                assert(self.done@.dom() =~= self.visited.costs().dom());
                if state_determined(root_v) {
                    lemma_exhausted(root_v, self.done@);
                }
            }
        }
        r
    }

    fn get_visited(&self) -> (r: Vec<u64>) {
        self.visited.states()
    }
}

} // verus!
