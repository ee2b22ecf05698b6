//! Depth-first branch-and-bound: a depth-first descent that keeps the best
//! solution found so far and prunes every branch that cannot improve on it.
//! The pruning keeps the optimum only where path costs never decrease with
//! depth; this is not checked.
use crate::best_first::{lemma_path_monotone, priority_determined, priority_monotone};
use crate::dfs::DFS;
use crate::traits::algorithm::{sound_outcome, Algorithm};
use crate::traits::node::{
    child_states, expanded_into, is_path, lemma_child_linked, lemma_child_reachable,
    lemma_exhausted, lemma_linked_trans, lemma_path_reaches_in, lemma_reachable_trans, lemma_root_linked,
    lemma_root_reachable, linked_to, reachable, solution_reachable, state_determined,
    states_reachable, Node,
};
use crate::visited::Visited;
use vstd::prelude::*;

verus! {

/// Some non-solution node reachable from `from` is in state `s` and costs
/// what `v` records for `s`.
pub open spec fn recorded_below<T: Node>(from: T, v: Map<u64, isize>, s: u64) -> bool {
    exists|n: T| #[trigger] reachable(from, n) && !n.solution() && n.state() == s && n.cost() == v[s]
}

/// The incumbent exists and costs no more than `c`.
pub open spec fn bound_at_most<T: Node>(best: Option<T>, c: int) -> bool {
    best matches Some(b) && b.cost() <= c
}

/// No reachable solution is cheaper than `n`.
pub open spec fn cheapest_solution<T: Node>(root: T, n: T) -> bool {
    forall|m: T| #[trigger] reachable(root, m) && m.solution() ==> n.cost() <= m.cost()
}

/// Each finished state maps to a reachable non-solution in that state.
pub open spec fn finished_nodes<T: Node>(root: T, fin: Map<u64, T>) -> bool {
    forall|s: u64|
        #[trigger] fin.dom().contains(s) ==> fin[s].state() == s && reachable(root, fin[s])
            && !fin[s].solution()
}

/// Each successor of a finished node is beaten by the incumbent, or is a
/// non-solution whose state is recorded at a cost no larger than its own.
pub open spec fn finished_children<T: Node>(
    fin: Map<u64, T>,
    v: Map<u64, isize>,
    best: Option<T>,
) -> bool {
    forall|s: u64, i: int|
        #![trigger fin.dom().contains(s), fin[s].children()[i]]
        fin.dom().contains(s) && 0 <= i < fin[s].children().len() ==> bound_at_most(
            best,
            fin[s].children()[i].cost(),
        ) || (!fin[s].children()[i].solution() && v.contains_key(fin[s].children()[i].state())
            && v[fin[s].children()[i].state()] <= fin[s].children()[i].cost())
}

/// The successor facts survive lower recorded costs and a cheaper incumbent.
proof fn lemma_finished_children_persist<T: Node>(
    fin: Map<u64, T>,
    v1: Map<u64, isize>,
    v2: Map<u64, isize>,
    b1: Option<T>,
    b2: Option<T>,
)
    requires
        finished_children(fin, v1, b1),
        forall|s: u64| #[trigger] v1.contains_key(s) ==> v2.contains_key(s) && v2[s] <= v1[s],
        b1 matches Some(x) ==> b2 matches Some(y) && y.cost() <= x.cost(),
    ensures
        finished_children(fin, v2, b2),
{
    assert forall|s: u64, i: int|
        #![trigger fin.dom().contains(s), fin[s].children()[i]]
        fin.dom().contains(s) && 0 <= i < fin[s].children().len() implies bound_at_most(
        b2,
        fin[s].children()[i].cost(),
    ) || (!fin[s].children()[i].solution() && v2.contains_key(fin[s].children()[i].state())
        && v2[fin[s].children()[i].state()] <= fin[s].children()[i].cost()) by {
        if v1.contains_key(fin[s].children()[i].state()) {
            assert(v2.contains_key(fin[s].children()[i].state()));
        }
    }
}

/// Each node of a path is beaten by the incumbent, or its state is recorded
/// at a cost no larger than its own.
proof fn lemma_path_bounded<T: Node>(
    root: T,
    fin: Map<u64, T>,
    v: Map<u64, isize>,
    best: Option<T>,
    path: Seq<T>,
    k: int,
)
    requires
        priority_monotone(root, false),
        priority_determined(root, false),
        is_path(root, path),
        0 <= k < path.len(),
        v.contains_key(root.state()),
        v[root.state()] <= root.cost(),
        forall|s: u64| #[trigger]
            v.contains_key(s) ==> fin.dom().contains(s) && fin[s].cost() <= v[s],
        finished_nodes(root, fin),
        finished_children(fin, v, best),
    ensures
        bound_at_most(best, path[k].cost()) || (v.contains_key(path[k].state()) && v[path[k].state()]
            <= path[k].cost()),
    decreases k,
{
    if k > 0 {
        let p = path[k - 1];
        let n = path[k];
        lemma_path_bounded(root, fin, v, best, path, k - 1);
        lemma_path_reaches_in(root, path, k - 1);
        lemma_path_reaches_in(root, path, k);
        let h = k - 1;
        assert(path[h].children().contains(path[h + 1]));
        let i = choose|i: int| 0 <= i < p.children().len() && #[trigger] p.children()[i] == n;
        assert(p.cost() <= p.children()[i].cost());
        if !bound_at_most(best, p.cost()) {
            let w = fin[p.state()];
            assert(reachable(root, w));
            assert(child_states(p) == child_states(w));
            assert(child_states(p).len() == p.children().len());
            assert(child_states(w).len() == w.children().len());
            assert(child_states(p)[i] == n.state());
            assert(child_states(w)[i] == w.children()[i].state());
            assert(w.children()[i].cost() - w.cost() == p.children()[i].cost() - p.cost());
            assert(bound_at_most(best, w.children()[i].cost()) || (v.contains_key(
                w.children()[i].state(),
            ) && v[w.children()[i].state()] <= w.children()[i].cost()));
        }
    }
}

/// Once every recorded state is finished at its recorded cost, the
/// incumbent is no dearer than any reachable solution.
proof fn lemma_incumbent_cheapest<T: Node>(
    root: T,
    fin: Map<u64, T>,
    v: Map<u64, isize>,
    best: Option<T>,
    m: T,
)
    requires
        priority_monotone(root, false),
        priority_determined(root, false),
        reachable(root, m),
        m.solution(),
        v.contains_key(root.state()),
        v[root.state()] <= root.cost(),
        forall|s: u64| #[trigger]
            v.contains_key(s) ==> fin.dom().contains(s) && fin[s].cost() <= v[s],
        finished_nodes(root, fin),
        finished_children(fin, v, best),
    ensures
        bound_at_most(best, m.cost()),
{
    let path = choose|path: Seq<T>| #[trigger] is_path(root, path) && path.last() == m;
    lemma_path_bounded(root, fin, v, best, path, path.len() - 1);
    if !bound_at_most(best, m.cost()) {
        let w = fin[m.state()];
        assert(reachable(root, w));
        assert(false);
    }
}

/// Depth-first branch-and-bound over nodes of type `T`.
pub struct DFBnB<T: Node> {
    visited: Visited,
    /// For each state explored without any solution known, the node it was
    /// explored from.
    done: Ghost<Map<u64, T>>,
    /// For each state whose exploration has completed, the node it was last
    /// explored from.
    fin: Ghost<Map<u64, T>>,
    /// The states of the nodes expanded by the last run, in order.
    history: Ghost<Seq<u64>>,
}

impl<T: Node> DFBnB<T> {
    pub fn new() -> (r: Self)
        ensures
            r.visited_states() == Seq::<u64>::empty(),
    {
        DFBnB {
            visited: Visited::new(),
            done: Ghost(Map::empty()),
            fin: Ghost(Map::empty()),
            history: Ghost(Seq::empty()),
        }
    }

    /// The bookkeeping that holds between steps of a run from `root`.
    spec fn consistent(&self, root: T) -> bool {
        &&& self.visited.wf()
        &&& self.visited.measure() >= 0
        &&& self.visited.order().len() >= 1
        &&& self.visited.order()[0] == root.state()
        &&& expanded_into(root, self.done@, self.visited.costs().dom())
        &&& states_reachable(root, self.visited.costs().dom())
        &&& forall|s: u64| #[trigger]
            self.done@.dom().contains(s) ==> self.visited.costs().contains_key(s)
        &&& finished_nodes(root, self.fin@)
        &&& forall|s: u64| #[trigger]
            self.fin@.dom().contains(s) ==> self.visited.costs().contains_key(s)
        &&& forall|j: int|
            0 <= j < self.history@.len() ==> self.visited.costs().contains_key(
                #[trigger] self.history@[j],
            )
    }

    /// Explores below `node`, a non-solution whose state is recorded, and
    /// returns the best solution known afterwards: `incumbent`, or a cheaper one
    /// found below `node`. When no solution is known at the end, `node`'s state
    /// and every state recorded on the way are fully explored.
    fn find_solution_recurse(&mut self, node: T, incumbent: Option<T>, Ghost(root): Ghost<T>) -> (r:
        Option<T>)
        requires
            old(self).consistent(root),
            reachable(root, node),
            linked_to(root, node),
            !node.solution(),
            old(self).visited.costs().contains_key(node.state()),
            sound_outcome(root, incumbent),
            finished_children(old(self).fin@, old(self).visited.costs(), incumbent),
            old(self).visited.costs()[node.state()] == node.cost(),
        ensures
            finished_children(final(self).fin@, final(self).visited.costs(), r),
            forall|s: u64| #[trigger]
                old(self).visited.costs().contains_key(s) ==> final(self).visited.costs()[s] <= old(self).visited.costs()[s],
            priority_monotone(root, false) ==> forall|s: u64| #[trigger]
                old(self).fin@.dom().contains(s) ==> final(self).fin@.dom().contains(s) && (final(self).fin@[s] == old(self).fin@[s] || final(self).fin@[s].cost() == final(self).visited.costs()[s]),
            priority_monotone(root, false) ==> forall|s: u64| #[trigger]
                final(self).visited.costs().contains_key(s) && (!old(self).visited.costs().contains_key(s)
                    || final(self).visited.costs()[s] != old(self).visited.costs()[s])
                    ==> final(self).fin@.dom().contains(s) && final(self).fin@[s].cost() == final(self).visited.costs()[s] && final(self).visited.costs()[s] >= node.cost(),
            priority_monotone(root, false) ==> final(self).fin@.dom().contains(node.state()) && final(self).fin@[node.state()].cost() == final(self).visited.costs()[node.state()],
            final(self).consistent(root),
            final(self).visited.measure() <= old(self).visited.measure(),
            sound_outcome(root, r),
            incumbent matches Some(b) ==> r matches Some(n) && n.cost() <= b.cost(),
            r == incumbent || (r matches Some(n) && reachable(node, n) && linked_to(node, n) && (
                incumbent matches Some(b)
                ==> n.cost() < b.cost())),
            forall|s: u64| #[trigger]
                final(self).visited.costs().contains_key(s) && (!old(self).visited.costs().contains_key(s)
                    || final(self).visited.costs()[s] != old(self).visited.costs()[s])
                    ==> recorded_below(node, final(self).visited.costs(), s),
            forall|s: u64| #[trigger]
                old(self).visited.costs().contains_key(s) ==> final(self).visited.costs().contains_key(s),
            forall|s: u64| #[trigger]
                old(self).done@.dom().contains(s) ==> final(self).done@.dom().contains(s),
            r is None ==> final(self).done@.dom().contains(node.state()),
            r is None ==> forall|s: u64| #[trigger]
                final(self).visited.costs().contains_key(s) ==> old(self).visited.costs().contains_key(s)
                    || final(self).done@.dom().contains(s),
        decreases old(self).visited.measure(),
    {
        let ghost x = node;
        self.history = Ghost(self.history@.push(x.state()));
        let ghost b0 = incumbent;
        let ghost m0 = self.visited.measure();
        let ghost entry = self.visited.costs();
        let ghost entry_done = self.done@;
        let ghost entry_fin = self.fin@;
        let mut best = incumbent;
        let mut children = node.get_descendants();
        let ghost kids = children@;
        let ghost mut k: int = 0;
        while children.len() > 0
            invariant
                x == node,
                b0 == incumbent,
                m0 == old(self).visited.measure(),
                entry == old(self).visited.costs(),
                entry_done == old(self).done@,
                entry_fin == old(self).fin@,
                entry[x.state()] == x.cost(),
                finished_children(self.fin@, self.visited.costs(), best),
                forall|s: u64| #[trigger]
                    entry.contains_key(s) ==> self.visited.costs()[s] <= entry[s],
                priority_monotone(root, false) ==> forall|s: u64| #[trigger]
                    entry_fin.dom().contains(s) ==> self.fin@.dom().contains(s) && (self.fin@[s]
                        == entry_fin[s] || self.fin@[s].cost() == self.visited.costs()[s]),
                priority_monotone(root, false) ==> forall|s: u64| #[trigger]
                    self.visited.costs().contains_key(s) && (!entry.contains_key(s)
                        || self.visited.costs()[s] != entry[s]) ==> self.fin@.dom().contains(s)
                        && self.fin@[s].cost() == self.visited.costs()[s] && self.visited.costs()[s]
                        >= x.cost(),
                forall|j: int|
                    0 <= j < k ==> bound_at_most(best, #[trigger] kids[j].cost()) || (
                    !kids[j].solution() && self.visited.costs().contains_key(kids[j].state())
                        && self.visited.costs()[kids[j].state()] <= kids[j].cost()),
                0 <= k <= kids.len(),
                children@ == kids.subrange(k, kids.len() as int),
                kids == x.children(),
                reachable(root, x),
                linked_to(root, x),
                forall|j: int|
                    0 <= j < kids.len() ==> (#[trigger] kids[j].parent() matches Some(q) && *q == x),
                !x.solution(),
                self.consistent(root),
                self.visited.measure() <= m0,
                self.visited.costs().contains_key(x.state()),
                sound_outcome(root, best),
                b0 matches Some(b) ==> best matches Some(n) && n.cost() <= b.cost(),
                best == b0 || (best matches Some(n) && reachable(x, n) && linked_to(x, n) && (b0 matches Some(
                    b,
                ) ==> n.cost()
                    < b.cost())),
                forall|s: u64| #[trigger]
                    self.visited.costs().contains_key(s) && (!entry.contains_key(s)
                        || self.visited.costs()[s] != entry[s]) ==> recorded_below(
                        x,
                        self.visited.costs(),
                        s,
                    ),
                best is None ==> forall|j: int|
                    0 <= j < k ==> self.visited.costs().contains_key(#[trigger] kids[j].state()),
                forall|s: u64| #[trigger]
                    entry.contains_key(s) ==> self.visited.costs().contains_key(s),
                forall|s: u64| #[trigger]
                    entry_done.dom().contains(s) ==> self.done@.dom().contains(s),
                best is None ==> forall|s: u64| #[trigger]
                    self.visited.costs().contains_key(s) ==> entry.contains_key(s)
                        || self.done@.dom().contains(s),
            decreases children@.len(),
        {
            let descendant = children.remove(0);
            proof {
                assert(descendant == kids[k]);
                lemma_child_reachable(root, x, k);
                lemma_child_linked(root, x, kids[k]);
                lemma_root_reachable(x);
                lemma_child_reachable(x, x, k);
                lemma_root_linked(x);
                lemma_child_linked(x, x, kids[k]);
            }
            let cost = descendant.get_cost();
            let beats_best = match &best {
                Some(b) => cost < b.get_cost(),
                None => true,
            };
            let ghost before_best = best;
            if descendant.is_solution() {
                if beats_best {
                    best = Some(descendant);
                    proof {
                        lemma_finished_children_persist(
                            self.fin@,
                            self.visited.costs(),
                            self.visited.costs(),
                            before_best,
                            best,
                        );
                        assert forall|j: int|
                            0 <= j <= k implies bound_at_most(best, #[trigger] kids[j].cost()) || (
                            !kids[j].solution() && self.visited.costs().contains_key(kids[j].state())
                                && self.visited.costs()[kids[j].state()] <= kids[j].cost()) by {
                            if j < k && !bound_at_most(before_best, kids[j].cost()) {
                            }
                        }
                    }
                }
            } else if beats_best {
                let s = descendant.get_state();
                let enter = match self.visited.get(s) {
                    Some(seen) => cost < seen,
                    None => true,
                };
                if enter {
                    let ghost pre = self.visited.costs();
                    let ghost pre_done = self.done@;
                    let ghost pre_best = best;
                    let ghost pre_fin = self.fin@;
                    self.visited.record(s, cost);
                    proof {
                        self.visited.lemma_measure_nonneg();
                        lemma_finished_children_persist(
                            self.fin@,
                            pre,
                            self.visited.costs(),
                            best,
                            best,
                        );
                        assert forall|t: u64| #[trigger]
                            self.visited.costs().dom().contains(t) implies exists|n: T|
                            #[trigger] reachable(root, n) && n.state() == t by {
                            if t == s {
                                assert(reachable(root, kids[k]) && kids[k].state() == t);
                            }
                        }
                    }
                    let ghost mid = self.visited.costs();
                    proof {
                        let v = self.visited.costs();
                        assert forall|t: u64| #[trigger]
                            v.contains_key(t) && (!entry.contains_key(t) || v[t] != entry[t])
                                implies recorded_below(x, v, t) by {
                            if t == s {
                                assert(reachable(x, kids[k]) && !kids[k].solution()
                                    && kids[k].state() == t && kids[k].cost() == v[t]);
                            } else {
                                assert(pre.contains_key(t));
                                assert(recorded_below(x, pre, t));
                                let n = choose|n: T| #[trigger] reachable(x, n) && !n.solution()
                                    && n.state() == t && n.cost() == pre[t];
                            }
                        }
                    }
                    let ghost call_done = self.done@;
                    best = self.find_solution_recurse(descendant, best, Ghost(root));
                    proof {
                        assert forall|t: u64| #[trigger] call_done.dom().contains(t) implies self.done@.dom().contains(t) by {}
                        assert(call_done == pre_done);
                        let v = self.visited.costs();
                        if best != pre_best {
                            let n = best->0;
                            lemma_reachable_trans(x, kids[k], n);
                            lemma_linked_trans(x, kids[k], n);
                        }
                        assert forall|t: u64| #[trigger]
                            v.contains_key(t) && (!entry.contains_key(t) || v[t] != entry[t])
                                implies recorded_below(x, v, t) by {
                            if mid.contains_key(t) && v[t] == mid[t] {
                                assert(recorded_below(x, mid, t));
                                let n = choose|n: T| #[trigger] reachable(x, n) && !n.solution()
                                    && n.state() == t && n.cost() == mid[t];
                            } else {
                                assert(recorded_below(kids[k], v, t));
                                let n = choose|n: T| #[trigger] reachable(kids[k], n) && !n.solution()
                                    && n.state() == t && n.cost() == v[t];
                                lemma_reachable_trans(x, kids[k], n);
                            }
                        }
                    }
                    proof {
                        assert forall|t: u64| #[trigger] entry.contains_key(t) implies self.visited.costs().contains_key(t) by {
                            assert(pre.contains_key(t));
                            assert(mid.contains_key(t));
                        }
                        assert(mid.contains_key(x.state()));
                        let v = self.visited.costs();
                        assert forall|t: u64| #[trigger] entry.contains_key(t) implies v[t] <= entry[t] by {
                            assert(pre.contains_key(t));
                            assert(mid.contains_key(t));
                        }
                        assert forall|j: int|
                            0 <= j <= k implies bound_at_most(best, #[trigger] kids[j].cost()) || (
                            !kids[j].solution() && v.contains_key(kids[j].state()) && v[kids[j].state()]
                                <= kids[j].cost()) by {
                            if j < k && !bound_at_most(pre_best, kids[j].cost()) {
                                assert(pre.contains_key(kids[j].state()));
                                assert(mid.contains_key(kids[j].state()));
                            }
                            if j == k {
                                assert(mid.contains_key(s));
                            }
                        }
                        if priority_monotone(root, false) {
                            assert(x.cost() <= x.children()[k].cost());
                            assert forall|t: u64| #[trigger]
                                entry_fin.dom().contains(t) implies self.fin@.dom().contains(t) && (
                                self.fin@[t] == entry_fin[t] || self.fin@[t].cost() == v[t]) by {
                                assert(pre_fin.dom().contains(t));
                                if self.fin@[t] != entry_fin[t] && self.fin@[t] == pre_fin[t] {
                                    assert(pre_fin[t].cost() == pre[t]);
                                    assert(pre.contains_key(t));
                                    assert(mid.contains_key(t));
                                    if v[t] != mid[t] {
                                    } else if t == s {
                                    } else {
                                        assert(mid[t] == pre[t]);
                                    }
                                }
                            }
                            assert forall|t: u64| #[trigger]
                                v.contains_key(t) && (!entry.contains_key(t) || v[t] != entry[t])
                                    implies self.fin@.dom().contains(t) && self.fin@[t].cost() == v[t]
                                && v[t] >= x.cost() by {
                                if mid.contains_key(t) && v[t] == mid[t] && t != s {
                                    assert(pre.contains_key(t));
                                    assert(pre[t] == mid[t]);
                                    assert(pre_fin.dom().contains(t));
                                    assert(pre_fin[t].cost() == pre[t]);
                                }
                            }
                        }
                        assert forall|t: u64| #[trigger] pre_done.dom().contains(t) implies self.done@.dom().contains(t) by {}
                        assert forall|t: u64| #[trigger] entry_done.dom().contains(t) implies self.done@.dom().contains(t) by {
                            assert(pre_done.dom().contains(t));
                        }
                        if best is None {
                            assert(pre_best is None);
                            assert forall|j: int| 0 <= j <= k implies self.visited.costs().contains_key(
                                #[trigger] kids[j].state(),
                            ) by {
                                assert(mid.contains_key(kids[j].state()));
                            }
                            assert forall|t: u64| #[trigger]
                                self.visited.costs().contains_key(t) implies entry.contains_key(t)
                                || self.done@.dom().contains(t) by {
                                if !self.done@.dom().contains(t) {
                                    assert(mid.contains_key(t));
                                    assert(t != s);
                                    assert(pre.contains_key(t));
                                    if !entry.contains_key(t) {
                                        assert(pre_done.dom().contains(t));
                                    }
                                }
                            }
                        }
                    }
                }
            }
            proof {
                assert(bound_at_most(best, kids[k].cost()) || (!kids[k].solution()
                    && self.visited.costs().contains_key(kids[k].state())
                    && self.visited.costs()[kids[k].state()] <= kids[k].cost()));
                k = k + 1;
            }
        }
        let ghost before_fin = self.fin@;
        self.fin = Ghost(
            if self.visited.costs()[x.state()] == x.cost() {
                self.fin@.insert(x.state(), x)
            } else {
                self.fin@
            },
        );
        proof {
            assert(kids.subrange(k, kids.len() as int).len() == 0);
            let v = self.visited.costs();
            assert forall|t: u64, i: int|
                #![trigger self.fin@.dom().contains(t), self.fin@[t].children()[i]]
                self.fin@.dom().contains(t) && 0 <= i < self.fin@[t].children().len() implies bound_at_most(
                best,
                self.fin@[t].children()[i].cost(),
            ) || (!self.fin@[t].children()[i].solution() && v.contains_key(
                self.fin@[t].children()[i].state(),
            ) && v[self.fin@[t].children()[i].state()] <= self.fin@[t].children()[i].cost()) by {
                if t == x.state() && v[x.state()] == x.cost() {
                    assert(self.fin@[t].children()[i] == kids[i]);
                } else {
                    assert(before_fin.dom().contains(t));
                }
            }
        }
        self.done = Ghost(
            if best is None {
                self.done@.insert(x.state(), x)
            } else {
                self.done@
            },
        );
        proof {
            assert(kids.subrange(k, kids.len() as int).len() == 0);
            if best is None {
                assert forall|i: int| 0 <= i < x.children().len() implies self.visited.costs().dom().contains(
                    #[trigger] x.children()[i].state(),
                ) by {
                    assert(self.visited.costs().contains_key(kids[i].state()));
                }
            }
        }
        best
    }
}

impl<T: Node> Algorithm<T> for DFBnB<T> {
    closed spec fn visited_states(&self) -> Seq<u64> {
        self.visited.order()
    }

    /// With non-negative action costs, where the state determines the goal
    /// test, the successors' states and the action costs, no reachable
    /// solution is cheaper than the one returned.
    open spec fn promise(root: T, r: Option<T>) -> bool {
        priority_monotone(root, false) && priority_determined(root, false) ==> (r matches Some(n)
            ==> cheapest_solution(root, n))
    }

    open spec fn records_root_successors() -> bool {
        false
    }

    closed spec fn expansions(&self) -> Seq<u64> {
        self.history@
    }

    open spec fn expands_each_state_once() -> bool {
        false
    }

    fn find_solution(&mut self, root: T) -> (r: Option<T>) {
        let ghost root_v = root;
        self.visited = Visited::new();
        self.done = Ghost(Map::empty());
        self.fin = Ghost(Map::empty());
        self.history = Ghost(Seq::empty());
        self.visited.record(root.get_state(), root.get_cost());
        proof {
            lemma_root_reachable(root_v);
            lemma_root_linked(root_v);
            self.visited.lemma_measure_nonneg();
            self.visited.lemma_order_set();
            assert(self.visited.order() =~= seq![root_v.state()]);
            assert forall|t: u64| #[trigger]
                self.visited.costs().dom().contains(t) implies exists|n: T|
                #[trigger] reachable(root_v, n) && n.state() == t by {
                assert(reachable(root_v, root_v));
            }
        }
        if root.is_solution() {
            proof {
                if priority_monotone(root_v, false) {
                    assert forall|m: T| #[trigger]
                        reachable(root_v, m) && m.solution() implies root_v.cost() <= m.cost() by {
                        let path = choose|path: Seq<T>| #[trigger] is_path(root_v, path) && path.last() == m;
                        lemma_path_monotone(root_v, path, 0, path.len() - 1, false);
                    }
                }
            }
            return Some(root);
        }
        let ghost start = self.visited.costs();
        let r = self.find_solution_recurse(root, None, Ghost(root_v));
        proof {
            if priority_monotone(root_v, false) && priority_determined(root_v, false) {
                let v = self.visited.costs();
                assert forall|t: u64| #[trigger]
                    v.contains_key(t) implies self.fin@.dom().contains(t) && self.fin@[t].cost() <= v[t] by {
                    if t != root_v.state() {
                        assert(!start.contains_key(t));
                    }
                }
                assert(start.contains_key(root_v.state()));
                assert forall|m: T| #[trigger]
                    reachable(root_v, m) && m.solution() implies bound_at_most(r, m.cost()) by {
                    lemma_incumbent_cheapest(root_v, self.fin@, v, r, m);
                }
            }
            self.visited.lemma_order_set();
            if r is None {
                assert(self.done@.dom() =~= self.visited.costs().dom());
                if state_determined(root_v) {
                    lemma_exhausted(root_v, self.done@);
                }
            }
        }
        r
    }

    fn get_visited(&self) -> (r: Vec<u64>) {
        self.visited.states()
    }
}

/// On a space with non-negative action costs, where the state determines
/// the goal test, the successors' states and the action costs, the solution
/// branch-and-bound returns costs no more than the one depth-first search
/// returns.
pub proof fn lemma_branch_and_bound_beats_depth_first<T: Node>(root: T, b: T, d: T)
    requires
        sound_outcome(root, Some(b)),
        DFBnB::<T>::promise(root, Some(b)),
        sound_outcome(root, Some(d)),
        DFS::<T>::promise(root, Some(d)),
        priority_monotone(root, false),
        priority_determined(root, false),
    ensures
        b.cost() <= d.cost(),
{
    assert(reachable(root, d));
}

/// On a space with non-negative action costs, where the state determines
/// the goal test, the successors' states and the action costs, any two runs
/// of branch-and-bound from the same root that find a solution find
/// solutions of the same cost.
pub proof fn lemma_branch_and_bound_reruns_agree<T: Node>(root: T, a: T, b: T)
    requires
        sound_outcome(root, Some(a)),
        DFBnB::<T>::promise(root, Some(a)),
        sound_outcome(root, Some(b)),
        DFBnB::<T>::promise(root, Some(b)),
        priority_monotone(root, false),
        priority_determined(root, false),
    ensures
        a.cost() == b.cost(),
{
    assert(reachable(root, a) && reachable(root, b));
}

} // verus!
