//! Breadth-first search: a FIFO frontier, states marked when enqueued.
use crate::traits::algorithm::{sound_outcome, Algorithm};
use crate::traits::node::{
    child_states, expanded_into, is_path, lemma_child_linked, lemma_child_reaches_in,
    lemma_exhausted, lemma_path_reaches_in, lemma_root_linked, lemma_root_reachable, linked_to,
    reachable, reaches_in, solution_reachable, state_determined, states_reachable, Node,
};
use crate::visited::Visited;
use std::collections::VecDeque;
use vstd::prelude::*;

verus! {

/// Some node of `q` is in state `s`.
pub open spec fn queued_state<T: Node>(q: Seq<T>, s: u64) -> bool {
    exists|i: int| 0 <= i < q.len() && #[trigger] q[i].state() == s
}

/// `n` is reached in some number of expansions, and no reachable solution
/// in fewer.
pub open spec fn fewest_actions<T: Node>(root: T, n: T) -> bool {
    exists|d: int|
        #[trigger] reaches_in(root, n, d) && forall|m: T, e: int|
            #[trigger] reaches_in(root, m, e) && m.solution() ==> d <= e
}

/// State `s` waits in `q` at the depth it was first reached, or was
/// expanded at a depth no larger.
pub open spec fn depth_covered<T: Node>(
    q: Seq<T>,
    dq: Seq<int>,
    first: Map<u64, int>,
    expanded: Map<u64, int>,
    s: u64,
) -> bool {
    (exists|i: int| 0 <= i < q.len() && #[trigger] q[i].state() == s && dq[i] == first[s])
        || (expanded.dom().contains(s) && expanded[s] <= first[s])
}

/// The successors of every expanded node were first reached at most one
/// level below it.
pub open spec fn children_within_one<T: Node>(
    done: Map<u64, T>,
    first: Map<u64, int>,
    expanded: Map<u64, int>,
) -> bool {
    forall|s: u64, i: int|
        #![trigger done.dom().contains(s), done[s].children()[i]]
        done.dom().contains(s) && 0 <= i < done[s].children().len() ==> first.contains_key(
            done[s].children()[i].state(),
        ) && first[done[s].children()[i].state()] <= expanded[s] + 1
}

/// Each node of a path either was expanded at a depth no larger than its
/// position, or the queue holds an entry at most that deep.
proof fn lemma_path_depth_covered<T: Node>(
    root: T,
    q: Seq<T>,
    dq: Seq<int>,
    first: Map<u64, int>,
    done: Map<u64, T>,
    expanded: Map<u64, int>,
    path: Seq<T>,
    k: int,
)
    requires
        state_determined(root),
        is_path(root, path),
        0 <= k < path.len(),
        first.contains_key(root.state()),
        first[root.state()] == 0,
        forall|s: u64| #[trigger] first.contains_key(s) ==> depth_covered(q, dq, first, expanded, s),
        children_within_one(done, first, expanded),
        expanded_into(root, done, first.dom()),
        expanded.dom() == done.dom(),
    ensures
        (expanded.dom().contains(path[k].state()) && expanded[path[k].state()] <= k) || exists|i: int|
            0 <= i < q.len() && #[trigger] dq[i] <= k,
    decreases k,
{
    let n = path[k];
    lemma_path_reaches_in(root, path, k);
    if k == 0 {
        assert(depth_covered(q, dq, first, expanded, n.state()));
        if !(expanded.dom().contains(n.state()) && expanded[n.state()] <= k) {
            let j = choose|j: int|
                0 <= j < q.len() && #[trigger] q[j].state() == n.state() && dq[j] == first[n.state()];
            assert(dq[j] <= k);
        }
    } else {
        let p = path[k - 1];
        lemma_path_depth_covered(root, q, dq, first, done, expanded, path, k - 1);
        lemma_path_reaches_in(root, path, k - 1);
        let h = k - 1;
        assert(path[h].children().contains(path[h + 1]));
        let i = choose|i: int| 0 <= i < p.children().len() && #[trigger] p.children()[i] == n;
        if expanded.dom().contains(p.state()) && expanded[p.state()] <= k - 1 {
            let w = done[p.state()];
            assert(reachable(root, w));
            assert(child_states(p) == child_states(w));
            assert(child_states(p).len() == p.children().len());
            assert(child_states(w).len() == w.children().len());
            assert(child_states(p)[i] == n.state());
            assert(child_states(w)[i] == w.children()[i].state());
            assert(first.contains_key(w.children()[i].state()));
            assert(first[n.state()] <= k);
            assert(depth_covered(q, dq, first, expanded, n.state()));
            if !(expanded.dom().contains(n.state()) && expanded[n.state()] <= k) {
                let j = choose|j: int|
                    0 <= j < q.len() && #[trigger] q[j].state() == n.state() && dq[j] == first[n.state()];
                assert(dq[j] <= k);
            }
        } else {
            let j = choose|j: int| 0 <= j < q.len() && #[trigger] dq[j] <= k - 1;
            assert(dq[j] <= k);
        }
    }
}

/// Some queue entry is no deeper than any reachable solution.
proof fn lemma_queue_bounds_solutions<T: Node>(
    root: T,
    q: Seq<T>,
    dq: Seq<int>,
    first: Map<u64, int>,
    done: Map<u64, T>,
    expanded: Map<u64, int>,
    m: T,
    e: int,
)
    requires
        state_determined(root),
        reaches_in(root, m, e),
        m.solution(),
        first.contains_key(root.state()),
        first[root.state()] == 0,
        forall|s: u64| #[trigger] first.contains_key(s) ==> depth_covered(q, dq, first, expanded, s),
        children_within_one(done, first, expanded),
        expanded_into(root, done, first.dom()),
        expanded.dom() == done.dom(),
    ensures
        exists|i: int| 0 <= i < q.len() && #[trigger] dq[i] <= e,
{
    let path = choose|path: Seq<T>| #[trigger] is_path(root, path) && path.last() == m && path.len() == e + 1;
    lemma_path_depth_covered(root, q, dq, first, done, expanded, path, e);
    if expanded.dom().contains(m.state()) && expanded[m.state()] <= e {
        let w = done[m.state()];
        assert(reachable(root, w));
        assert(reachable(root, m)) by {
            lemma_path_reaches_in(root, path, e);
        }
        assert(false);
    }
}

/// No state is expanded twice; expanded states are recorded; no queued
/// node is in an expanded state; queued nodes are in distinct states.
pub open spec fn expansions_distinct<T: Node>(q: Seq<T>, h: Seq<u64>, v: Map<u64, isize>) -> bool {
    &&& h.no_duplicates()
    &&& forall|j: int| 0 <= j < h.len() ==> v.contains_key(#[trigger] h[j])
    &&& forall|i: int, j: int|
        0 <= i < q.len() && 0 <= j < h.len() ==> #[trigger] q[i].state() != #[trigger] h[j]
    &&& forall|i: int, j: int|
        0 <= i < j < q.len() ==> #[trigger] q[i].state() != #[trigger] q[j].state()
}

/// Breadth-first search over nodes of type `T`.
pub struct BFS<T: Node> {
    queue: VecDeque<T>,
    visited: Visited,
    /// The states of the nodes expanded by the last run, in order.
    history: Ghost<Seq<u64>>,
}

impl<T: Node> BFS<T> {
    pub fn new() -> (r: Self)
        ensures
            r.visited_states() == Seq::<u64>::empty(),
    {
        BFS { queue: VecDeque::new(), visited: Visited::new(), history: Ghost(Seq::empty()) }
    }
}

impl<T: Node> Algorithm<T> for BFS<T> {
    closed spec fn visited_states(&self) -> Seq<u64> {
        self.visited.order()
    }

    /// Where the state determines the goal test and the successors' states,
    /// no reachable solution takes fewer actions than the one returned.
    open spec fn promise(root: T, r: Option<T>) -> bool {
        state_determined(root) ==> (r matches Some(n) ==> fewest_actions(root, n))
    }

    open spec fn records_root_successors() -> bool {
        true
    }

    closed spec fn expansions(&self) -> Seq<u64> {
        self.history@
    }

    open spec fn expands_each_state_once() -> bool {
        true
    }

    fn find_solution(&mut self, root: T) -> (r: Option<T>) {
        let ghost root_v = root;
        let ghost mut done: Map<u64, T> = Map::empty();
        // The depth of each queue entry, the depth at which each state was
        // first reached, and the depth at which each state was expanded.
        let ghost mut dq: Seq<int> = seq![0int];
        let ghost mut first: Map<u64, int> = Map::empty().insert(root.state(), 0int);
        let ghost mut expanded: Map<u64, int> = Map::empty();
        let ghost mut last: int = 0;
        self.visited = Visited::new();
        self.queue = VecDeque::new();
        self.history = Ghost(Seq::empty());
        self.visited.record(root.get_state(), root.get_cost());
        self.queue.push_back(root);
        proof {
            assert(is_path(root_v, seq![root_v]));
            assert(reaches_in(root_v, root_v, 0));
            lemma_root_reachable(root_v);
            lemma_root_linked(root_v);
            self.visited.lemma_measure_nonneg();
            assert(self.queue@[0].state() == root_v.state());
            assert(self.visited.order() =~= seq![root_v.state()]);
            assert(first.dom() =~= self.visited.costs().dom());
            assert(expanded.dom() =~= done.dom());
            assert(depth_covered(self.queue@, dq, first, expanded, root_v.state()));
        }
        while self.queue.len() > 0
            invariant
                root_v == root,
                expansions_distinct(self.queue@, self.history@, self.visited.costs()),
                forall|i: int|
                    0 <= i < self.queue@.len() ==> linked_to(root_v, #[trigger] self.queue@[i]),
                self.visited.wf(),
                self.visited.measure() >= 0,
                self.visited.order().len() >= 1,
                self.visited.order()[0] == root_v.state(),
                dq.len() == self.queue@.len(),
                forall|i: int|
                    0 <= i < self.queue@.len() ==> reaches_in(root_v, #[trigger] self.queue@[i], dq[i])
                        && reachable(root_v, self.queue@[i])
                        && self.visited.costs().contains_key(self.queue@[i].state()),
                forall|i: int| 0 <= i < dq.len() ==> last <= #[trigger] dq[i] <= last + 1,
                forall|i: int, j: int| 0 <= i <= j < dq.len() ==> dq[i] <= dq[j],
                forall|s: u64| #[trigger]
                    self.visited.costs().contains_key(s) ==> done.dom().contains(s)
                        || queued_state(self.queue@, s),
                forall|s: u64| #[trigger]
                    done.dom().contains(s) ==> self.visited.costs().contains_key(s),
                first.dom() == self.visited.costs().dom(),
                expanded.dom() == done.dom(),
                first[root_v.state()] == 0,
                forall|s: u64| #[trigger] first.contains_key(s) ==> first[s] <= last + 1,
                forall|s: u64| #[trigger] expanded.contains_key(s) ==> expanded[s] <= last,
                forall|s: u64| #[trigger]
                    first.contains_key(s) ==> depth_covered(self.queue@, dq, first, expanded, s),
                children_within_one(done, first, expanded),
                expanded_into(root_v, done, self.visited.costs().dom()),
                states_reachable(root_v, self.visited.costs().dom()),
                done.dom().len() == 0 ==> self.queue@ == seq![root_v] && self.visited.order() == seq![
                    root_v.state(),
                ] && dq == seq![0int],
                done.dom().len() > 0 ==> done.dom().contains(root_v.state()) && !root_v.solution()
                && done[root_v.state()] == root_v,
                done.dom().finite(),
            decreases self.visited.measure(), self.queue@.len(),
        {
            let ghost old_q = self.queue@;
            let ghost old_dq = dq;
            let node = match self.queue.pop_front() {
                Some(n) => n,
                None => {
                    return None;
                },
            };
            let ghost x = node;
            let ghost pd = old_dq[0];
            let ghost m0 = self.visited.measure();
            let ghost q0 = self.queue@.len();
            proof {
                assert(x == old_q[0]);
                dq = old_dq.subrange(1, old_dq.len() as int);
                let q = self.queue@;
                assert forall|t: u64| #[trigger]
                    self.visited.costs().contains_key(t) implies t == x.state() || done.dom().contains(t)
                    || queued_state(q, t) by {
                    if t != x.state() && !done.dom().contains(t) {
                        let i = choose|i: int| 0 <= i < q0 + 1 && #[trigger] old_q[i].state() == t;
                        assert(i != 0);
                        assert(q[i - 1] == old_q[i]);
                    }
                }
                assert(linked_to(root_v, old_q[0]));
                assert forall|i: int| 0 <= i < q.len() implies linked_to(root_v, #[trigger] q[i]) by {
                    assert(q[i] == old_q[i + 1]);
                }
                assert forall|i: int| 0 <= i < q.len() implies reaches_in(root_v, #[trigger] q[i], dq[i])
                    && reachable(root_v, q[i]) && self.visited.costs().contains_key(q[i].state()) by {
                    assert(q[i] == old_q[i + 1]);
                    assert(dq[i] == old_dq[i + 1]);
                }
                assert forall|i: int| 0 <= i < dq.len() implies pd <= #[trigger] dq[i] <= pd + 1 by {
                    assert(dq[i] == old_dq[i + 1]);
                    assert(old_dq[0] <= old_dq[i + 1]);
                }
                assert forall|t: u64| #[trigger]
                    first.contains_key(t) implies depth_covered(q, dq, first, expanded, t) || (t
                    == x.state() && !expanded.dom().contains(t) && first[t] == pd) by {
                    assert(depth_covered(old_q, old_dq, first, expanded, t));
                    if !(expanded.dom().contains(t) && expanded[t] <= first[t]) {
                        let j = choose|j: int|
                            0 <= j < old_q.len() && #[trigger] old_q[j].state() == t && old_dq[j]
                                == first[t];
                        if j > 0 {
                            assert(q[j - 1] == old_q[j]);
                            assert(dq[j - 1] == old_dq[j]);
                        } else if expanded.dom().contains(t) {
                            assert(expanded[t] <= last);
                        }
                    }
                }
                last = pd;
            }
            if node.is_solution() {
                proof {
                    self.visited.lemma_order_set();
                    assert(reachable(root_v, old_q[0]));
                    assert(reachable(root_v, node));
                    assert(sound_outcome(root_v, Some(node)));
                    if state_determined(root_v) {
                        assert forall|m: T, e: int| #[trigger]
                            reaches_in(root_v, m, e) && m.solution() implies pd <= e by {
                            lemma_queue_bounds_solutions(
                                root_v,
                                old_q,
                                old_dq,
                                first,
                                done,
                                expanded,
                                m,
                                e,
                            );
                            let j = choose|j: int| 0 <= j < old_q.len() && #[trigger] old_dq[j] <= e;
                            assert(old_dq[0] <= old_dq[j]);
                        }
                        assert(reaches_in(root_v, node, pd));
                        assert(fewest_actions(root_v, node));
                    }
                }
                return Some(node);
            }
            let ghost h0 = self.history@;
            self.history = Ghost(self.history@.push(x.state()));
            proof {
                let h = self.history@;
                let q = self.queue@;
                assert forall|j: int| 0 <= j < h0.len() implies x.state() != #[trigger] h0[j] by {
                    assert(old_q[0].state() != h0[j]);
                }
                assert forall|i: int, j: int|
                    0 <= i < q.len() && 0 <= j < h.len() implies #[trigger] q[i].state() != #[trigger] h[j] by {
                    assert(q[i] == old_q[i + 1]);
                    if j < h0.len() {
                        assert(h[j] == h0[j]);
                        assert(old_q[i + 1].state() != h0[j]);
                    } else {
                        assert(old_q[0].state() != old_q[i + 1].state());
                    }
                }
                assert forall|i: int, j: int|
                    0 <= i < j < q.len() implies #[trigger] q[i].state() != #[trigger] q[j].state() by {
                    assert(q[i] == old_q[i + 1] && q[j] == old_q[j + 1]);
                    assert(old_q[i + 1].state() != old_q[j + 1].state());
                }
                assert forall|j: int| 0 <= j < h.len() implies self.visited.costs().contains_key(
                    #[trigger] h[j],
                ) by {
                    if j < h0.len() {
                        assert(h[j] == h0[j]);
                    }
                }
            }
            let mut children = node.get_descendants();
            let ghost kids = children@;
            let ghost mut k: int = 0;
            while children.len() > 0
                invariant
                    root_v == root,
                    expansions_distinct(self.queue@, self.history@, self.visited.costs()),
                    forall|i: int|
                        0 <= i < self.queue@.len() ==> linked_to(root_v, #[trigger] self.queue@[i]),
                    linked_to(root_v, x),
                    forall|j: int|
                        0 <= j < kids.len() ==> (#[trigger] kids[j].parent() matches Some(q) && *q == x),
                    0 <= k <= kids.len(),
                    children@ == kids.subrange(k, kids.len() as int),
                    kids == x.children(),
                    reaches_in(root_v, x, pd),
                    reachable(root_v, x),
                    !x.solution(),
                    last == pd,
                    self.visited.wf(),
                    self.visited.measure() >= 0,
                    self.visited.measure() <= m0,
                    self.visited.measure() == m0 ==> self.queue@.len() <= q0,
                    self.visited.order().len() >= 1,
                    self.visited.order()[0] == root_v.state(),
                    self.visited.costs().contains_key(x.state()),
                    forall|j: int|
                        0 <= j < k ==> self.visited.costs().contains_key(#[trigger] kids[j].state())
                            && first[kids[j].state()] <= pd + 1,
                    dq.len() == self.queue@.len(),
                    forall|i: int|
                        0 <= i < self.queue@.len() ==> reaches_in(
                            root_v,
                            #[trigger] self.queue@[i],
                            dq[i],
                        ) && reachable(root_v, self.queue@[i]) && self.visited.costs().contains_key(
                            self.queue@[i].state(),
                        ),
                    forall|i: int| 0 <= i < dq.len() ==> last <= #[trigger] dq[i] <= last + 1,
                    forall|i: int, j: int| 0 <= i <= j < dq.len() ==> dq[i] <= dq[j],
                    forall|s: u64| #[trigger]
                        self.visited.costs().contains_key(s) ==> s == x.state() || done.dom().contains(
                            s,
                        ) || queued_state(self.queue@, s),
                    forall|s: u64| #[trigger]
                        done.dom().contains(s) ==> self.visited.costs().contains_key(s),
                    first.dom() == self.visited.costs().dom(),
                    expanded.dom() == done.dom(),
                    first[root_v.state()] == 0,
                    forall|s: u64| #[trigger] first.contains_key(s) ==> first[s] <= last + 1,
                    forall|s: u64| #[trigger] expanded.contains_key(s) ==> expanded[s] <= last,
                    forall|s: u64| #[trigger]
                        first.contains_key(s) ==> depth_covered(self.queue@, dq, first, expanded, s)
                            || (s == x.state() && !expanded.dom().contains(s) && first[s] == pd),
                    children_within_one(done, first, expanded),
                    expanded_into(root_v, done, self.visited.costs().dom()),
                    states_reachable(root_v, self.visited.costs().dom()),
                    done.dom().len() > 0 ==> done.dom().contains(root_v.state()) && !root_v.solution()
                && done[root_v.state()] == root_v,
                    done.dom().len() == 0 ==> x == root_v,
                    done.dom().finite(),
                decreases children@.len(),
            {
                let child = children.remove(0);
                proof {
                    assert(child == kids[k]);
                    lemma_child_reaches_in(root_v, x, pd, k);
                }
                let s = child.get_state();
                if !self.visited.contains(s) {
                    let ghost pre = self.queue@;
                    let ghost pre_dq = dq;
                    let ghost pre_first = first;
                    self.visited.record(s, child.get_cost());
                    self.queue.push_back(child);
                    proof {
                        let q = self.queue@;
                        let h = self.history@;
                        let n = q.len() - 1;
                        assert(q[n].state() == s);
                        assert forall|i: int, j: int|
                            0 <= i < q.len() && 0 <= j < h.len() implies #[trigger] q[i].state()
                            != #[trigger] h[j] by {
                            if i < n {
                                assert(q[i] == pre[i]);
                            }
                        }
                        assert forall|i: int, j: int|
                            0 <= i < j < q.len() implies #[trigger] q[i].state() != #[trigger] q[j].state() by {
                            assert(q[i] == pre[i]);
                            if j < n {
                                assert(q[j] == pre[j]);
                            }
                        }
                    }
                    proof {
                        dq = pre_dq.push(pd + 1);
                        first = pre_first.insert(s, pd + 1);
                        self.visited.lemma_measure_nonneg();
                        let q = self.queue@;
                        assert(q[q.len() - 1] == kids[k]);
                        lemma_child_linked(root_v, x, kids[k]);
                        assert forall|i: int| 0 <= i < q.len() implies linked_to(root_v, #[trigger] q[i]) by {
                            if i < q.len() - 1 {
                                assert(q[i] == pre[i]);
                            }
                        }
                        assert(queued_state(q, s));
                        assert(first.dom() =~= self.visited.costs().dom());
                        assert forall|i: int| 0 <= i < q.len() implies reaches_in(
                            root_v,
                            #[trigger] q[i],
                            dq[i],
                        ) && reachable(root_v, q[i]) && self.visited.costs().contains_key(q[i].state()) by {
                            if i < q.len() - 1 {
                                assert(q[i] == pre[i]);
                            }
                        }
                        assert forall|t: u64| #[trigger]
                            self.visited.costs().contains_key(t) implies t == x.state()
                            || done.dom().contains(t) || queued_state(q, t) by {
                            if t != s && !done.dom().contains(t) && t != x.state() {
                                let i = choose|i: int| 0 <= i < pre.len() && #[trigger] pre[i].state() == t;
                                assert(q[i] == pre[i]);
                            }
                        }
                        assert forall|t: u64| #[trigger]
                            self.visited.costs().dom().contains(t) implies exists|n: T|
                            #[trigger] reachable(root_v, n) && n.state() == t by {
                            if t == s {
                                assert(reachable(root_v, kids[k]) && kids[k].state() == t);
                            }
                        }
                        assert forall|j: int|
                            0 <= j <= k implies self.visited.costs().contains_key(#[trigger] kids[j].state())
                            && first[kids[j].state()] <= pd + 1 by {
                            if j < k {
                                assert(pre_first.contains_key(kids[j].state()));
                            }
                        }
                        assert forall|t: u64, j: int|
                            #![trigger done.dom().contains(t), done[t].children()[j]]
                            done.dom().contains(t) && 0 <= j < done[t].children().len() implies first.contains_key(
                                done[t].children()[j].state(),
                            ) && first[done[t].children()[j].state()] <= expanded[t] + 1 by {
                            assert(pre_first.contains_key(done[t].children()[j].state()));
                        }
                        assert forall|t: u64| #[trigger]
                            first.contains_key(t) implies depth_covered(q, dq, first, expanded, t) || (t
                            == x.state() && !expanded.dom().contains(t) && first[t] == pd) by {
                            if t == s {
                                assert(q[q.len() - 1].state() == t && dq[q.len() - 1] == first[t]);
                            } else {
                                assert(pre_first.contains_key(t));
                                if !(expanded.dom().contains(t) && expanded[t] <= first[t]) && !(t
                                    == x.state() && !expanded.dom().contains(t) && first[t] == pd) {
                                    let j = choose|j: int|
                                        0 <= j < pre.len() && #[trigger] pre[j].state() == t
                                            && pre_dq[j] == pre_first[t];
                                    assert(q[j] == pre[j]);
                                    assert(dq[j] == pre_dq[j]);
                                }
                            }
                        }
                    }
                } else {
                    proof {
                        assert(first.contains_key(kids[k].state()));
                    }
                }
                proof {
                    k = k + 1;
                }
            }
            proof {
                assert(kids.subrange(k, kids.len() as int).len() == 0);
                if !done.dom().contains(x.state()) {
                    let old_done = done;
                    let old_expanded = expanded;
                    done = done.insert(x.state(), x);
                    expanded = expanded.insert(x.state(), pd);
                    assert(expanded.dom() =~= done.dom());
                    assert forall|i: int| 0 <= i < x.children().len() implies self.visited.costs().dom().contains(
                        #[trigger] x.children()[i].state(),
                    ) by {
                        assert(self.visited.costs().contains_key(kids[i].state()));
                    }
                    assert forall|t: u64, j: int|
                        #![trigger done.dom().contains(t), done[t].children()[j]]
                        done.dom().contains(t) && 0 <= j < done[t].children().len() implies first.contains_key(
                            done[t].children()[j].state(),
                        ) && first[done[t].children()[j].state()] <= expanded[t] + 1 by {
                        if t == x.state() {
                            assert(done[t].children()[j] == kids[j]);
                        } else {
                            assert(old_done.dom().contains(t));
                        }
                    }
                    assert forall|t: u64| #[trigger]
                        first.contains_key(t) implies depth_covered(
                        self.queue@,
                        dq,
                        first,
                        expanded,
                        t,
                    ) by {
                        if t != x.state() {
                            if old_expanded.dom().contains(t) && old_expanded[t] <= first[t] {
                            } else {
                                let j = choose|j: int|
                                    0 <= j < self.queue@.len() && #[trigger] self.queue@[j].state() == t
                                        && dq[j] == first[t];
                            }
                        }
                    }
                }
            }
        }
        proof {
            self.visited.lemma_order_set();
            assert(done.dom().len() > 0);
            assert(done.dom() =~= self.visited.costs().dom());
            if state_determined(root_v) {
                lemma_exhausted(root_v, done);
            }
        }
        None
    }

    fn get_visited(&self) -> (r: Vec<u64>) {
        self.visited.states()
    }
}

} // verus!
